use vstd::prelude::*;
use vstd::arithmetic::div_mod::{
    lemma_div_decreases, lemma_fundamental_div_mod, lemma_small_mod,
};
use vstd::arithmetic::mul::{lemma_mul_inequality, lemma_mul_is_commutative};
use vstd::string::StrSliceExecFns;
use vstd::string::StringExecFns;
use crate::errors::SequenceError;

verus! {

/// Encodes a non-negative integer as a string over a fixed ordered alphabet
/// (radix = alphabet length) and decodes it back. Symbols are looked up by
/// their position in the symbol string.
pub struct BaseConverter {
    alphabet: String,
    base: usize,
}

/// The digit sequence of `n` in the given radix, most significant first.
/// Zero still yields the single digit `0` — one digit is always emitted.
pub open spec fn digits_of(base: nat, n: nat) -> Seq<nat>
    decreases n,
    via digits_of_decreases
{
    if base < 2 {
        seq![]
    } else if n < base {
        seq![n]
    } else {
        digits_of(base, n / base).push(n % base)
    }
}

#[via_fn]
proof fn digits_of_decreases(base: nat, n: nat) {
    if base >= 2 && n >= base {
        lemma_div_decreases(n as int, base as int);
    }
}

/// The string that encodes `n` over the alphabet: its digits mapped to
/// symbols.
pub open spec fn token_of(alphabet: Seq<char>, n: nat) -> Seq<char> {
    digits_of(alphabet.len(), n).map_values(|d: nat| alphabet[d as int])
}

/// The position of the first occurrence of `c` in the alphabet; the
/// alphabet's length when `c` does not occur.
pub open spec fn sym_index(alphabet: Seq<char>, c: char) -> nat
    decreases alphabet.len(),
{
    if alphabet.len() == 0 {
        0
    } else if alphabet[0] == c {
        0
    } else {
        1 + sym_index(alphabet.skip(1), c)
    }
}

/// The value of a digit string read positionally, most significant first:
/// `sum of index(s[i]) * radix^(len-1-i)`.
pub open spec fn value_of(alphabet: Seq<char>, s: Seq<char>) -> nat
    decreases s.len(),
{
    if s.len() == 0 {
        0
    } else {
        value_of(alphabet, s.drop_last()) * alphabet.len() + sym_index(alphabet, s.last())
    }
}

/// No symbol occurs twice.
pub open spec fn spec_distinct(s: Seq<char>) -> bool {
    forall|i: int, j: int| 0 <= i < j < s.len() ==> s[i] != s[j]
}

/// The default alphabet: the 94 printable ASCII characters from '!' (0x21)
/// through '~' (0x7E) inclusive, in increasing code-point order.
pub open spec fn default_alphabet() -> Seq<char> {
    "!\"#$%&'()*+,-./0123456789:;<=>?@ABCDEFGHIJKLMNOPQRSTUVWXYZ[\\]^_`abcdefghijklmnopqrstuvwxyz{|}~"@
}

/// Builds the converter over the default alphabet, radix 94.
pub fn create_base_encoder() -> (r: BaseConverter)
    ensures
        r.wf(),
        r@ == default_alphabet(),
        r@.len() == 94,
{
    proof {
        reveal_strlit(
            "!\"#$%&'()*+,-./0123456789:;<=>?@ABCDEFGHIJKLMNOPQRSTUVWXYZ[\\]^_`abcdefghijklmnopqrstuvwxyz{|}~",
        );
    }
    BaseConverter::new(
        String::from_str(
            "!\"#$%&'()*+,-./0123456789:;<=>?@ABCDEFGHIJKLMNOPQRSTUVWXYZ[\\]^_`abcdefghijklmnopqrstuvwxyz{|}~",
        ),
    )
}

/// Along a sequence of strictly increasing code points, any later symbol
/// has a strictly larger code point.
proof fn lemma_codepoint_chain(a: Seq<char>, i: int, j: int)
    requires
        forall|k: int| 0 <= k < a.len() - 1 ==> ((#[trigger] a[k]) as u32) < (a[k + 1] as u32),
        0 <= i < j < a.len(),
    ensures
        (a[i] as u32) < (a[j] as u32),
    decreases j - i,
{
    if i + 1 < j {
        lemma_codepoint_chain(a, i, j - 1);
    }
}

/// The default alphabet's code points increase strictly along the string,
/// so no symbol occurs twice.
#[verifier::rlimit(100)]
pub proof fn lemma_default_alphabet_distinct()
    ensures
        default_alphabet().len() == 94,
        spec_distinct(default_alphabet()),
{
    reveal_strlit(
        "!\"#$%&'()*+,-./0123456789:;<=>?@ABCDEFGHIJKLMNOPQRSTUVWXYZ[\\]^_`abcdefghijklmnopqrstuvwxyz{|}~",
    );
    let a = default_alphabet();
    assert(a.len() == 94);
    assert forall|k: int| 0 <= k < a.len() - 1 implies ((#[trigger] a[k]) as u32) < (a[k
        + 1] as u32) by {}
    assert forall|i: int, j: int| 0 <= i < j < a.len() implies a[i] != a[j] by {
        lemma_codepoint_chain(a, i, j);
    }
}

/// The first occurrence found by a scan is what `sym_index` denotes.
proof fn lemma_sym_index_first(alphabet: Seq<char>, c: char, j: int)
    requires
        0 <= j < alphabet.len(),
        alphabet[j] == c,
        forall|k: int| 0 <= k < j ==> alphabet[k] != c,
    ensures
        sym_index(alphabet, c) == j,
        alphabet.contains(c),
    decreases j,
{
    if j == 0 {
    } else {
        assert(alphabet[0] != c);
        lemma_sym_index_first(alphabet.skip(1), c, j - 1);
    }
}

/// Prefix values never exceed the value of the whole string.
proof fn lemma_value_prefix_monotone(alphabet: Seq<char>, s: Seq<char>, i: int)
    requires
        alphabet.len() >= 1,
        0 <= i <= s.len(),
    ensures
        value_of(alphabet, s.take(i)) <= value_of(alphabet, s),
    decreases s.len() - i,
{
    if i < s.len() {
        let pre = s.take(i);
        let ext = s.take(i + 1);
        assert(ext.drop_last() =~= pre);
        assert(ext.last() == s[i]);
        let v = value_of(alphabet, pre);
        lemma_mul_inequality(1, alphabet.len() as int, v as int);
        lemma_mul_is_commutative(v as int, alphabet.len() as int);
        assert(value_of(alphabet, ext) >= v);
        lemma_value_prefix_monotone(alphabet, s, i + 1);
        assert(s.take(s.len() as int) =~= s);
    } else {
        assert(s.take(i) =~= s);
    }
}

impl View for BaseConverter {
    type V = Seq<char>;

    closed spec fn view(&self) -> Seq<char> {
        self.alphabet@
    }
}

impl BaseConverter {
    /// Internal consistency: the stored radix is the symbol count.
    pub closed spec fn wf(self) -> bool {
        self.base == self.alphabet@.len()
    }

    /// Wraps an ordered symbol string. Symbol uniqueness is the caller's
    /// responsibility; decoding is ambiguous without it.
    pub fn new(alphabet: String) -> (r: BaseConverter)
        ensures
            r.wf(),
            r@ == alphabet@,
    {
        let base = alphabet.as_str().unicode_len();
        BaseConverter { alphabet, base }
    }

    /// Encodes `input_num` as its positional representation over the
    /// alphabet, most significant digit first; zero encodes to the single
    /// symbol of index zero.
    pub fn encode(&self, input_num: usize) -> (r: String)
        requires
            self.wf(),
            self@.len() >= 2,
        ensures
            r@ == token_of(self@, input_num as nat),
    {
        let ghost b = self@.len() as nat;
        let mut num: usize = input_num;
        let mut digs: Vec<usize> = Vec::new();
        loop
            invariant_except_break
                self.wf(),
                self@.len() >= 2,
                b == self@.len() as nat,
                digits_of(b, input_num as nat) == digits_of(b, num as nat) + digs@.map_values(
                    |d: usize| d as nat,
                ).reverse(),
                forall|k: int| 0 <= k < digs@.len() ==> #[trigger] digs@[k] < self@.len(),
            ensures
                self.wf(),
                self@.len() >= 2,
                b == self@.len() as nat,
                digits_of(b, input_num as nat) == digs@.map_values(|d: usize| d as nat).reverse(),
                forall|k: int| 0 <= k < digs@.len() ==> #[trigger] digs@[k] < self@.len(),
            decreases num,
        {
            let rest = num % self.base;
            let next = num / self.base;
            proof {
                let dv = digs@.map_values(|d: usize| d as nat);
                let dv2 = digs@.push(rest).map_values(|d: usize| d as nat);
                assert(dv2 =~= dv.push(rest as nat));
                assert(dv2.reverse() =~= seq![rest as nat] + dv.reverse());
                if num < self.base {
                    lemma_small_mod(num as nat, b);
                    vstd::arithmetic::div_mod::lemma_basic_div(num as int, self.base as int);
                    assert(digits_of(b, num as nat) == seq![num as nat]);
                    assert(seq![num as nat] + dv.reverse() =~= dv2.reverse());
                } else {
                    vstd::arithmetic::div_mod::lemma_div_non_zero(num as int, self.base as int);
                    assert(digits_of(b, num as nat) == digits_of(b, next as nat).push(
                        rest as nat,
                    ));
                    assert(digits_of(b, next as nat).push(rest as nat) + dv.reverse()
                        =~= digits_of(b, next as nat) + dv2.reverse());
                    lemma_div_decreases(num as int, self.base as int);
                }
            }
            digs.push(rest);
            num = next;
            if num == 0 {
                proof {
                    assert(digits_of(b, 0nat) == seq![0nat]);
                }
                break;
            }
        }
        let ghost dv = digs@.map_values(|d: usize| d as nat);
        let mut token = String::new();
        let mut i: usize = digs.len();
        while i > 0
            invariant
                self.wf(),
                self@.len() >= 2,
                i <= digs@.len(),
                forall|k: int| 0 <= k < digs@.len() ==> #[trigger] digs@[k] < self@.len(),
                token@.len() == digs@.len() - i,
                forall|k: int|
                    0 <= k < token@.len() ==> #[trigger] token@[k] == self@[digs@[digs@.len() - 1
                        - k] as int],
            decreases i,
        {
            i = i - 1;
            let d = digs[i];
            let sym = self.alphabet.as_str().substring_char(d, d + 1);
            proof {
                assert(sym@ =~= seq![self@[d as int]]);
            }
            token.append(sym);
        }
        proof {
            let tok = token_of(self@, input_num as nat);
            assert forall|k: int| 0 <= k < tok.len() implies tok[k] == token@[k] by {
                assert(dv.reverse()[k] == dv[dv.len() - 1 - k]);
            }
            assert(token@ =~= tok);
        }
        token
    }

    /// Looks a symbol up by scanning the alphabet; the first match wins.
    fn find_symbol(&self, c: char) -> (r: Option<usize>)
        requires
            self.wf(),
        ensures
            r matches Some(i) ==> i < self@.len() && self@[i as int] == c && i == sym_index(
                self@,
                c,
            ),
            r is None <==> !self@.contains(c),
    {
        let n = self.alphabet.as_str().unicode_len();
        let mut j: usize = 0;
        while j < n
            invariant
                self.wf(),
                n == self@.len(),
                j <= n,
                forall|k: int| 0 <= k < j ==> self@[k] != c,
            decreases n - j,
        {
            let cj = self.alphabet.as_str().get_char(j);
            if cj == c {
                proof {
                    lemma_sym_index_first(self@, c, j as int);
                }
                return Some(j);
            }
            j = j + 1;
        }
        proof {
            assert(!self@.contains(c));
        }
        None
    }

    /// Decodes a positional representation back to its value, over any
    /// alphabet. Fails with an invalid-symbol error — and only then — when
    /// some character of the input does not occur in the alphabet; a value
    /// is never silently substituted.
    pub fn decode(&self, str_repres: String) -> (r: Result<usize, SequenceError>)
        requires
            self.wf(),
            (forall|i: int|
                0 <= i < str_repres@.len() ==> self@.contains(#[trigger] str_repres@[i]))
                ==> value_of(self@, str_repres@) <= usize::MAX,
        ensures
            r is Ok <==> (forall|i: int|
                0 <= i < str_repres@.len() ==> self@.contains(#[trigger] str_repres@[i])),
            r matches Ok(v) ==> v == value_of(self@, str_repres@),
            r is Err ==> r == Err::<usize, SequenceError>(SequenceError::InvalidSymbol),
    {
        let s = str_repres.as_str();
        let n = s.unicode_len();
        // First pass: reject any character outside the alphabet.
        let mut i: usize = 0;
        while i < n
            invariant
                self.wf(),
                n == str_repres@.len(),
                s@ == str_repres@,
                i <= n,
                forall|k: int| 0 <= k < i ==> self@.contains(#[trigger] str_repres@[k]),
            decreases n - i,
        {
            let c = s.get_char(i);
            if self.find_symbol(c).is_none() {
                return Err(SequenceError::InvalidSymbol);
            }
            i = i + 1;
        }
        // Second pass: fold the digits most significant first.
        let mut acc: usize = 0;
        let mut j: usize = 0;
        while j < n
            invariant
                self.wf(),
                n == str_repres@.len(),
                s@ == str_repres@,
                j <= n,
                forall|k: int| 0 <= k < n ==> self@.contains(#[trigger] str_repres@[k]),
                value_of(self@, str_repres@) <= usize::MAX,
                acc == value_of(self@, str_repres@.take(j as int)),
            decreases n - j,
        {
            let c = s.get_char(j);
            match self.find_symbol(c) {
                None => {
                    proof {
                        assert(self@.contains(str_repres@[j as int]));
                        assert(false);
                    }
                    return Err(SequenceError::InvalidSymbol);
                },
                Some(idx) => {
                    proof {
                        let pre = str_repres@.take(j as int);
                        let ext = str_repres@.take(j as int + 1);
                        assert(ext.drop_last() =~= pre);
                        assert(ext.last() == str_repres@[j as int]);
                        // a symbol was found, so the alphabet is not empty
                        assert(self@.len() >= 1);
                        lemma_value_prefix_monotone(self@, str_repres@, j as int + 1);
                    }
                    acc = acc * self.base + idx;
                },
            }
            j = j + 1;
        }
        proof {
            assert(str_repres@.take(n as int) =~= str_repres@);
        }
        Ok(acc)
    }
}

/// A symbol that occurs in the alphabet is found there, at the position
/// `sym_index` names.
proof fn lemma_sym_index_in_range(alphabet: Seq<char>, c: char)
    requires
        alphabet.contains(c),
    ensures
        sym_index(alphabet, c) < alphabet.len(),
        alphabet[sym_index(alphabet, c) as int] == c,
    decreases alphabet.len(),
{
    if alphabet[0] != c {
        let i = choose|i: int| 0 <= i < alphabet.len() && alphabet[i] == c;
        assert(alphabet.skip(1)[i - 1] == c);
        assert(alphabet.skip(1).contains(c));
        lemma_sym_index_in_range(alphabet.skip(1), c);
    }
}

/// A digit string whose leading symbol is not the zero symbol has a
/// positive value.
proof fn lemma_value_leading_nonzero(alphabet: Seq<char>, s: Seq<char>)
    requires
        alphabet.len() >= 2,
        s.len() >= 1,
        s[0] != alphabet[0],
    ensures
        value_of(alphabet, s) >= 1,
    decreases s.len(),
{
    if s.len() == 1 {
        assert(s.last() == s[0]);
        assert(sym_index(alphabet, s[0]) >= 1);
    } else {
        lemma_value_leading_nonzero(alphabet, s.drop_last());
        lemma_mul_inequality(1, value_of(alphabet, s.drop_last()) as int, alphabet.len() as int);
    }
}

/// Law: decoding what `encode` produced restores the value, for every
/// alphabet of distinct symbols and every value.
pub proof fn lemma_base_round_trip(alphabet: Seq<char>, n: nat)
    requires
        alphabet.len() >= 2,
        spec_distinct(alphabet),
    ensures
        value_of(alphabet, token_of(alphabet, n)) == n,
    decreases n,
{
    let b = alphabet.len() as nat;
    if n < b {
        let tok = token_of(alphabet, n);
        assert(digits_of(b, n) == seq![n]);
        assert(tok =~= seq![alphabet[n as int]]);
        assert(tok.drop_last() =~= Seq::<char>::empty());
        assert forall|k: int| 0 <= k < n implies alphabet[k] != alphabet[n as int] by {
            assert(spec_distinct(alphabet));
        }
        lemma_sym_index_first(alphabet, alphabet[n as int], n as int);
        assert(value_of(alphabet, Seq::<char>::empty()) == 0);
        assert(value_of(alphabet, tok) == value_of(alphabet, tok.drop_last()) * alphabet.len()
            + sym_index(alphabet, tok.last()));
    } else {
        lemma_div_decreases(n as int, b as int);
        let q = n / b;
        let m = n % b;
        assert(digits_of(b, n) == digits_of(b, q).push(m));
        let tok = token_of(alphabet, n);
        let tokq = token_of(alphabet, q);
        assert(tok =~= tokq.push(alphabet[m as int]));
        assert(tok.drop_last() =~= tokq);
        lemma_base_round_trip(alphabet, q);
        assert forall|k: int| 0 <= k < m implies alphabet[k] != alphabet[m as int] by {
            assert(spec_distinct(alphabet));
        }
        lemma_sym_index_first(alphabet, alphabet[m as int], m as int);
        assert(sym_index(alphabet, alphabet[m as int]) == m);
        lemma_fundamental_div_mod(n as int, b as int);
        assert(value_of(alphabet, tok) == value_of(alphabet, tok.drop_last()) * alphabet.len()
            + sym_index(alphabet, tok.last()));
        assert(value_of(alphabet, tok) == q * b + m);
    }
}


/// Law: encoding what `decode` read yields the original string, for every
/// non-empty string of alphabet symbols without a redundant leading zero
/// symbol (positional encoding never emits one).
pub proof fn lemma_base_round_trip_strings(alphabet: Seq<char>, s: Seq<char>)
    requires
        alphabet.len() >= 2,
        spec_distinct(alphabet),
        s.len() >= 1,
        forall|i: int| 0 <= i < s.len() ==> alphabet.contains(#[trigger] s[i]),
        s.len() > 1 ==> s[0] != alphabet[0],
    ensures
        token_of(alphabet, value_of(alphabet, s)) == s,
    decreases s.len(),
{
    let b = alphabet.len() as nat;
    let v = value_of(alphabet, s);
    lemma_sym_index_in_range(alphabet, s.last());
    let d = sym_index(alphabet, s.last());
    if s.len() == 1 {
        assert(s.drop_last() =~= Seq::<char>::empty());
        assert(value_of(alphabet, Seq::<char>::empty()) == 0);
        assert(v == d);
        assert(digits_of(b, v) == seq![v]);
        assert(token_of(alphabet, v) =~= seq![alphabet[v as int]]);
        assert(s =~= seq![s.last()]);
    } else {
        let pre = s.drop_last();
        assert(pre[0] == s[0]);
        assert forall|i: int| 0 <= i < pre.len() implies alphabet.contains(#[trigger] pre[i]) by {
            assert(pre[i] == s[i]);
        }
        lemma_value_leading_nonzero(alphabet, pre);
        let vp = value_of(alphabet, pre);
        assert(v == vp * b + d);
        lemma_mul_inequality(1, vp as int, b as int);
        assert(v >= b);
        vstd::arithmetic::div_mod::lemma_fundamental_div_mod_converse(
            v as int,
            b as int,
            vp as int,
            d as int,
        );
        assert(v / b == vp && v % b == d);
        assert(digits_of(b, v) == digits_of(b, vp).push(d));
        lemma_base_round_trip_strings(alphabet, pre);
        assert(token_of(alphabet, v) =~= token_of(alphabet, vp).push(alphabet[d as int]));
        assert(alphabet[d as int] == s.last());
        assert(token_of(alphabet, v) =~= s);
    }
}

} // verus!
