use vstd::prelude::*;

verus! {

/// The source container formats the pipeline accepts. Any other format tag
/// is rejected before any decoding is attempted.
#[derive(Clone, Copy, Debug, PartialEq, Eq, Structural)]
pub enum SupportedImageFormats {
    GIF,
    PNG,
    JPEG,
}

impl SupportedImageFormats {
    /// Parses a format tag. The match is exact and case-sensitive; every
    /// string other than the three supported tags yields `None`.
    pub fn from(mimetype: String) -> (r: Option<SupportedImageFormats>)
        ensures
            r == Some(SupportedImageFormats::PNG) <==> mimetype@ == "png"@,
            r == Some(SupportedImageFormats::JPEG) <==> mimetype@ == "jpeg"@,
            r == Some(SupportedImageFormats::GIF) <==> mimetype@ == "gif"@,
            r is None <==> (mimetype@ != "png"@ && mimetype@ != "jpeg"@ && mimetype@ != "gif"@),
    {
        proof {
            reveal_strlit("png");
            reveal_strlit("jpeg");
            reveal_strlit("gif");
            assert("png"@.len() == 3 && "jpeg"@.len() == 4 && "gif"@.len() == 3);
            assert("png"@[0] == 'p' && "gif"@[0] == 'g');
            assert("png"@ != "jpeg"@ && "gif"@ != "jpeg"@);
            assert("png"@ != "gif"@);
        }
        if mimetype == String::from_str("png") {
            Some(SupportedImageFormats::PNG)
        } else if mimetype == String::from_str("jpeg") {
            Some(SupportedImageFormats::JPEG)
        } else if mimetype == String::from_str("gif") {
            Some(SupportedImageFormats::GIF)
        } else {
            None
        }
    }
}

} // verus!
