//! Character-level primitives: Unicode classification, uppercase mapping, and
//! conversions between byte offsets and character indices of UTF-8 text.
//!
//! Pathnames are matched as sequences of characters; the public search API
//! speaks in byte offsets, so the width in bytes of each character matters.

use vstd::prelude::*;
use vstd::std_specs::iter::IteratorSpec;
use vstd::utf8::encode_scalar;
use vstd::utf8::encode_utf8;

verus! {

/// The full Unicode uppercase mapping of one character, as a sequence of one
/// or more characters; a function of the character alone.
pub uninterp spec fn upper_of(c: char) -> Seq<char>;

/// Whether the character is alphabetic, in the Unicode sense.
pub uninterp spec fn ch_alpha(c: char) -> bool;

/// Whether the character is numeric, in the Unicode sense.
pub uninterp spec fn ch_numeric(c: char) -> bool;

/// Whether the character is lowercase.
pub uninterp spec fn ch_lower(c: char) -> bool;

/// Whether the character is uppercase.
pub uninterp spec fn ch_upper(c: char) -> bool;

/// Whether the character is whitespace.
pub uninterp spec fn ch_white(c: char) -> bool;

/// Relies on char::to_uppercase: yields the uppercase mapping of the
/// character as one or more characters, depending on the character alone.
#[verifier::external_body]
pub(crate) fn char_to_upper(c: char) -> (r: Vec<char>)
    ensures
        r@ == upper_of(c),
        r@.len() >= 1,
{
    c.to_uppercase().collect()
}

/// Relies on char::is_alphabetic: a property of the character alone.
#[verifier::external_body]
pub(crate) fn char_is_alphabetic(c: char) -> (r: bool)
    ensures
        r == ch_alpha(c),
{
    c.is_alphabetic()
}

/// Relies on char::is_numeric: a property of the character alone.
#[verifier::external_body]
pub(crate) fn char_is_numeric(c: char) -> (r: bool)
    ensures
        r == ch_numeric(c),
{
    c.is_numeric()
}

/// Relies on char::is_lowercase: a property of the character alone.
#[verifier::external_body]
pub(crate) fn char_is_lowercase(c: char) -> (r: bool)
    ensures
        r == ch_lower(c),
{
    c.is_lowercase()
}

/// Relies on char::is_uppercase: a property of the character alone.
#[verifier::external_body]
pub(crate) fn char_is_uppercase(c: char) -> (r: bool)
    ensures
        r == ch_upper(c),
{
    c.is_uppercase()
}

/// Relies on char::is_whitespace: a property of the character alone.
#[verifier::external_body]
pub(crate) fn char_is_whitespace(c: char) -> (r: bool)
    ensures
        r == ch_white(c),
{
    c.is_whitespace()
}

/// Width in bytes of one character in UTF-8.
pub open spec fn char_width(c: char) -> nat {
    encode_scalar(c as u32).len()
}

/// Byte length of the UTF-8 encoding of a character sequence.
pub open spec fn bytes_len(s: Seq<char>) -> nat {
    encode_utf8(s).len()
}

/// Byte offset of character index `i` within `s`.
pub open spec fn byte_at(s: Seq<char>, i: int) -> int {
    bytes_len(s.take(i)) as int
}

/// Character index whose byte offset is `b` (meaningful when `b` is on a
/// character boundary of the encoding of `s`).
pub open spec fn char_idx_of(s: Seq<char>, b: int) -> int
    decreases s.len(),
{
    if b <= 0 || s.len() == 0 {
        0
    } else {
        1 + char_idx_of(s.drop_first(), b - char_width(s[0]))
    }
}

/// `b` lies on a character boundary of the encoding of `s` (the end counts).
pub open spec fn on_char_boundary(s: Seq<char>, b: int) -> bool {
    exists|i: int| 0 <= i <= s.len() && byte_at(s, i) == b
}

/// Width in bytes of the UTF-8 encoding of `c`.
pub fn char_utf8_width(c: char) -> (n: usize)
    ensures
        n == char_width(c),
        1 <= n <= 4,
{
    broadcast use vstd::utf8::char_is_scalar;

    let u = c as u32;
    if u < 0x80 {
        1
    } else if u < 0x800 {
        2
    } else if u < 0x1_0000 {
        3
    } else {
        4
    }
}

pub proof fn lemma_encode_utf8_append(a: Seq<char>, b: Seq<char>)
    ensures
        encode_utf8(a + b) == encode_utf8(a) + encode_utf8(b),
    decreases a.len(),
{
    if a.len() == 0 {
        assert(a + b =~= b);
        assert(encode_utf8(a) + encode_utf8(b) =~= encode_utf8(b));
    } else {
        assert((a + b).drop_first() =~= a.drop_first() + b);
        lemma_encode_utf8_append(a.drop_first(), b);
        assert(encode_utf8(a + b) =~= encode_utf8(a) + encode_utf8(b));
    }
}

/// One more character adds its width to the byte offset.
pub proof fn lemma_byte_at_step(s: Seq<char>, i: int)
    requires
        0 <= i < s.len(),
    ensures
        byte_at(s, i + 1) == byte_at(s, i) + char_width(s[i]),
{
    assert(s.take(i + 1) =~= s.take(i) + seq![s[i]]);
    lemma_encode_utf8_append(s.take(i), seq![s[i]]);
    assert(encode_utf8(seq![s[i]]).len() == char_width(s[i])) by {
        assert(seq![s[i]].drop_first() =~= Seq::<char>::empty());
        assert(encode_utf8(Seq::<char>::empty()) =~= Seq::<u8>::empty());
        assert(encode_utf8(seq![s[i]]) =~= encode_scalar(s[i] as u32) + encode_utf8(
            seq![s[i]].drop_first(),
        ));
    };
}

pub proof fn lemma_byte_at_strictly_increasing(s: Seq<char>, i: int, j: int)
    requires
        0 <= i <= j <= s.len(),
    ensures
        byte_at(s, i) <= byte_at(s, j),
        i < j ==> byte_at(s, i) + (j - i) <= byte_at(s, j),
    decreases j - i,
{
    if i < j {
        lemma_byte_at_step(s, i);
        assert(char_width(s[i]) >= 1);
        lemma_byte_at_strictly_increasing(s, i + 1, j);
    }
}

proof fn lemma_byte_at_drop(s: Seq<char>, i: int)
    requires
        1 <= i <= s.len(),
    ensures
        byte_at(s, i) == char_width(s[0]) + byte_at(s.drop_first(), i - 1),
{
    assert(s.take(i) =~= seq![s[0]] + s.drop_first().take(i - 1));
    lemma_encode_utf8_append(seq![s[0]], s.drop_first().take(i - 1));
    assert(encode_utf8(seq![s[0]]).len() == char_width(s[0])) by {
        assert(seq![s[0]].drop_first() =~= Seq::<char>::empty());
        assert(encode_utf8(Seq::<char>::empty()) =~= Seq::<u8>::empty());
        assert(encode_utf8(seq![s[0]]) =~= encode_scalar(s[0] as u32) + encode_utf8(
            seq![s[0]].drop_first(),
        ));
    };
}

/// Converting a character index to its byte offset and back is the identity.
pub proof fn lemma_char_idx_of_byte_at(s: Seq<char>, i: int)
    requires
        0 <= i <= s.len(),
    ensures
        char_idx_of(s, byte_at(s, i)) == i,
    decreases i,
{
    if i == 0 {
        assert(s.take(0) =~= Seq::<char>::empty());
        assert(encode_utf8(Seq::<char>::empty()) =~= Seq::<u8>::empty());
    } else {
        lemma_byte_at_drop(s, i);
        assert(byte_at(s, i) > 0) by {
            lemma_byte_at_strictly_increasing(s, 0, i);
            assert(s.take(0) =~= Seq::<char>::empty());
            assert(encode_utf8(Seq::<char>::empty()) =~= Seq::<u8>::empty());
        };
        lemma_char_idx_of_byte_at(s.drop_first(), i - 1);
    }
}

/// Collect the characters of a string slice.
pub fn str_chars(s: &str) -> (r: Vec<char>)
    ensures
        r@ == s@,
{
    broadcast use vstd::string::group_string_axioms;

    let mut it = s.chars();
    let mut out: Vec<char> = Vec::new();
    loop
        invariant
            out@ + it.remaining() == s@,
            it.obeys_prophetic_iter_laws(),
        decreases s@.len() - out@.len(),
    {
        match it.next() {
            Some(c) => {
                out.push(c);
            }
            None => {
                proof {
                    assert(out@ =~= s@);
                }
                return out;
            }
        }
    }
}

/// Relies on String's FromIterator: collecting characters builds the string
/// of exactly those characters.
#[verifier::external_body]
pub(crate) fn chars_to_string(v: &Vec<char>) -> (r: String)
    ensures
        r@ == v@,
{
    v.iter().collect()
}

/// Copy the characters from index `off` on.
pub fn vec_skip_chars(v: &Vec<char>, off: usize) -> (r: Vec<char>)
    requires
        off <= v@.len(),
    ensures
        r@ == v@.skip(off as int),
{
    let n = v.len();
    let mut out: Vec<char> = Vec::new();
    let mut i: usize = off;
    while i < n
        invariant
            off <= i <= n == v@.len(),
            out@ =~= v@.subrange(off as int, i as int),
        decreases n - i,
    {
        out.push(v[i]);
        i = i + 1;
    }
    proof {
        assert(out@ =~= v@.skip(off as int));
    }
    out
}

/// Byte offset of character index `i`.
pub fn byte_of_char_index(s: &Vec<char>, i: usize) -> (b: usize)
    requires
        i <= s@.len(),
        bytes_len(s@) <= usize::MAX,
    ensures
        b == byte_at(s@, i as int),
{
    let mut k: usize = 0;
    let mut b: usize = 0;
    proof {
        assert(s@.take(0) =~= Seq::<char>::empty());
        lemma_byte_at_strictly_increasing(s@, i as int, s@.len() as int);
        assert(s@.take(s@.len() as int) =~= s@);
    }
    while k < i
        invariant
            k <= i <= s@.len(),
            b == byte_at(s@, k as int),
            byte_at(s@, i as int) <= bytes_len(s@),
            bytes_len(s@) <= usize::MAX,
        decreases i - k,
    {
        proof {
            lemma_byte_at_step(s@, k as int);
            lemma_byte_at_strictly_increasing(s@, k as int + 1, i as int);
        }
        let w = char_utf8_width(s[k]);
        b = b + w;
        k = k + 1;
    }
    b
}

/// Character index at byte offset `b`, when `b` is on a character boundary.
pub fn char_index_of_byte(s: &Vec<char>, b: usize) -> (r: Option<usize>)
    ensures
        match r {
            Some(i) => i <= s@.len() && byte_at(s@, i as int) == b,
            None => !on_char_boundary(s@, b as int),
        },
{
    let n = s.len();
    let mut k: usize = 0;
    let mut off: usize = 0;
    proof {
        assert(s@.take(0) =~= Seq::<char>::empty());
    }
    while k < n && off < b
        invariant
            k <= n == s@.len(),
            off == byte_at(s@, k as int),
            off <= b,
            forall|j: int| 0 <= j < k ==> byte_at(s@, j) < b,
        decreases n - k,
    {
        proof {
            lemma_byte_at_step(s@, k as int);
        }
        let w = char_utf8_width(s[k]);
        if w > b - off {
            // The offset falls strictly inside the encoding of this character.
            proof {
                assert(byte_at(s@, k as int + 1) > b);
                assert forall|j: int| 0 <= j <= s@.len() implies byte_at(s@, j) != b by {
                    if j > k {
                        lemma_byte_at_strictly_increasing(s@, k as int + 1, j);
                    }
                };
            }
            return None;
        }
        off = off + w;
        k = k + 1;
    }
    if off == b {
        Some(k)
    } else {
        proof {
            assert forall|j: int| 0 <= j <= s@.len() implies byte_at(s@, j) != b by {
                if j >= k {
                    lemma_byte_at_strictly_increasing(s@, k as int, j);
                }
            };
        }
        None
    }
}

} // verus!

verus! {

/// True exactly when the two texts are equal character for character.
pub(crate) fn str_eq(a: &str, b: &str) -> (r: bool)
    ensures
        r == (a@ == b@),
{
    let ca = str_chars(a);
    let cb = str_chars(b);
    let n = ca.len();
    if n != cb.len() {
        return false;
    }
    let mut i: usize = 0;
    while i < n
        invariant
            i <= n == ca@.len(),
            ca@.len() == cb@.len(),
            ca@ == a@,
            cb@ == b@,
            forall|j: int| 0 <= j < i ==> ca@[j] == cb@[j],
        decreases n - i,
    {
        if ca[i] != cb[i] {
            return false;
        }
        i = i + 1;
    }
    proof {
        assert(a@ =~= b@);
    }
    true
}

} // verus!
