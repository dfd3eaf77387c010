//! Byte-string search primitives: case-sensitive and case-insensitive
//! substring search, anchored matches, smart-space and single-character
//! skips, and word-boundary detection.
//!
//! The core works on character sequences with character indices; the public
//! API mirrors it on `&str` with byte offsets.  Case-insensitive matching
//! compares the query (supplied already uppercased) against the full Unicode
//! uppercase expansion of the text, which may map one character to several.

use crate::chars::byte_at;
use crate::chars::byte_of_char_index;
use crate::chars::ch_alpha;
use crate::chars::ch_lower;
use crate::chars::ch_numeric;
use crate::chars::ch_upper;
use crate::chars::ch_white;
use crate::chars::char_idx_of;
use crate::chars::char_index_of_byte;
use crate::chars::char_is_alphabetic;
use crate::chars::char_is_lowercase;
use crate::chars::char_is_numeric;
use crate::chars::char_is_uppercase;
use crate::chars::char_is_whitespace;
use crate::chars::char_to_upper;
use crate::chars::lemma_char_idx_of_byte_at;
use crate::chars::on_char_boundary;
use crate::chars::str_chars;
use crate::chars::upper_of;
use vstd::prelude::*;

verus! {

/// `pat` occurs in `hay` exactly at character index `i`.
pub open spec fn match_at(hay: Seq<char>, i: int, pat: Seq<char>) -> bool {
    0 <= i && i + pat.len() <= hay.len() && hay.subrange(i, i + pat.len()) == pat
}

/// First occurrence of `pat` at or after `start`: the character range of the
/// leftmost match, or `None`.
pub open spec fn find_cs_spec(hay: Seq<char>, start: int, pat: Seq<char>) -> Option<(int, int)>
    decreases hay.len() - start,
{
    if start < 0 || start > hay.len() {
        None
    } else if match_at(hay, start, pat) {
        Some((start, start + pat.len()))
    } else if start == hay.len() {
        None
    } else {
        find_cs_spec(hay, start + 1, pat)
    }
}

/// Anchored case-sensitive match: the end of the match beginning exactly at
/// `start`, or `None`.
pub open spec fn tag_cs_spec(hay: Seq<char>, start: int, pat: Seq<char>) -> Option<int> {
    if match_at(hay, start, pat) {
        Some(start + pat.len())
    } else {
        None
    }
}

/// The uppercase expansion of a character sequence, character by character.
pub open spec fn upper_flat(s: Seq<char>) -> Seq<char>
    decreases s.len(),
{
    if s.len() == 0 {
        Seq::empty()
    } else {
        upper_of(s[0]) + upper_flat(s.drop_first())
    }
}

/// `upat` (already uppercase) matches at character index `i`: it is a prefix
/// of the uppercase expansion of the text from `i` on.
pub open spec fn ci_match_at(hay: Seq<char>, i: int, upat: Seq<char>) -> bool {
    0 <= i <= hay.len() && upat.is_prefix_of(upper_flat(hay.skip(i)))
}

/// How many characters of `hay`, from `i` on, a case-insensitive match
/// consumes to cover `need` pattern characters.  A match may end inside the
/// expansion of the last consumed character.
pub open spec fn ci_take(hay: Seq<char>, i: int, need: int) -> int
    decreases hay.len() - i,
{
    if need <= 0 || i < 0 || i >= hay.len() {
        0
    } else {
        1 + ci_take(hay, i + 1, need - upper_of(hay[i]).len())
    }
}

/// Anchored case-insensitive match at `start`: the end of the match, or
/// `None`.
pub open spec fn tag_ci_spec(hay: Seq<char>, start: int, upat: Seq<char>) -> Option<int> {
    if ci_match_at(hay, start, upat) {
        Some(start + ci_take(hay, start, upat.len() as int))
    } else {
        None
    }
}

/// First case-insensitive occurrence of `upat` at or after `start`.
pub open spec fn find_ci_spec(hay: Seq<char>, start: int, upat: Seq<char>) -> Option<(int, int)>
    decreases hay.len() - start,
{
    if start < 0 || start > hay.len() {
        None
    } else if ci_match_at(hay, start, upat) {
        Some((start, start + ci_take(hay, start, upat.len() as int)))
    } else if start == hay.len() {
        None
    } else {
        find_ci_spec(hay, start + 1, upat)
    }
}

/// Alphanumeric in the Unicode sense: alphabetic or numeric.
pub open spec fn ch_alnum(c: char) -> bool {
    ch_alpha(c) || ch_numeric(c)
}

/// A word starts between `a` and `b`.
pub open spec fn word_start_pair(a: char, b: char) -> bool {
    (!ch_alnum(a) && ch_alnum(b)) || (ch_numeric(a) && ch_alpha(b)) || (ch_alpha(a) && ch_numeric(
        b,
    )) || (ch_lower(a) && ch_upper(b))
}

/// Character index `i` begins a word.
pub open spec fn word_start_at(s: Seq<char>, i: int) -> bool {
    if i == 0 {
        0 < s.len() && ch_alnum(s[0])
    } else {
        0 < i < s.len() && word_start_pair(s[i - 1], s[i])
    }
}

/// First word start at or after `start`.
pub open spec fn find_word_start_spec(s: Seq<char>, start: int) -> Option<int>
    decreases s.len() - start,
{
    if start < 0 || start >= s.len() {
        None
    } else if word_start_at(s, start) {
        Some(start)
    } else {
        find_word_start_spec(s, start + 1)
    }
}

/// A word ends between `a` and `b`.
pub open spec fn word_end_pair(a: char, b: char) -> bool {
    (ch_alnum(a) && !ch_alnum(b)) || (ch_numeric(a) && ch_alpha(b)) || (ch_alpha(a) && ch_numeric(
        b,
    )) || (ch_lower(a) && ch_upper(b))
}

/// Character index `i` ends a word (end of text after an alphanumeric
/// character counts).
pub open spec fn word_end_at(s: Seq<char>, i: int) -> bool {
    if i <= 0 || i > s.len() {
        false
    } else if i == s.len() {
        ch_alnum(s[i - 1])
    } else {
        word_end_pair(s[i - 1], s[i])
    }
}

/// Advance over exactly one character, staying put at the end of the text.
pub open spec fn skip_char_spec(s: Seq<char>, i: int) -> int {
    if 0 <= i < s.len() {
        i + 1
    } else {
        i
    }
}

/// A smart-space character: whitespace, minus or underscore.
pub open spec fn smart_char(c: char) -> bool {
    ch_white(c) || c == '-' || c == '_'
}

/// Advance over one character iff it is a smart space.
pub open spec fn skip_smart_spec(s: Seq<char>, i: int) -> int {
    if 0 <= i < s.len() && smart_char(s[i]) {
        i + 1
    } else {
        i
    }
}

/// Unicode character classes of one character, read once.
pub struct Features {
    /// The character itself.
    pub ch: char,
    /// Alphabetic in the Unicode sense.
    pub is_alphabetic: bool,
    /// Lowercase.
    pub is_lower: bool,
    /// Uppercase.
    pub is_upper: bool,
    /// Numeric in the Unicode sense.
    pub is_numeric: bool,
}

impl Features {
    /// Classify one character.
    pub fn new(ch: char) -> (r: Features)
        ensures
            r.ch == ch,
            r.is_alphabetic == ch_alpha(ch),
            r.is_lower == ch_lower(ch),
            r.is_upper == ch_upper(ch),
            r.is_numeric == ch_numeric(ch),
    {
        Features {
            ch,
            is_alphabetic: char_is_alphabetic(ch),
            is_lower: char_is_lowercase(ch),
            is_upper: char_is_uppercase(ch),
            is_numeric: char_is_numeric(ch),
        }
    }
}

pub proof fn lemma_upper_flat_append(a: Seq<char>, b: Seq<char>)
    ensures
        upper_flat(a + b) == upper_flat(a) + upper_flat(b),
    decreases a.len(),
{
    if a.len() == 0 {
        assert(a + b =~= b);
        assert(upper_flat(a) + upper_flat(b) =~= upper_flat(b));
    } else {
        assert((a + b).drop_first() =~= a.drop_first() + b);
        lemma_upper_flat_append(a.drop_first(), b);
        assert(upper_flat(a + b) =~= upper_flat(a) + upper_flat(b));
    }
}

/// The expansion of the text from `i` splits at any `j` between `i` and the
/// end.
pub proof fn lemma_upper_flat_split(s: Seq<char>, i: int, j: int)
    requires
        0 <= i <= j <= s.len(),
    ensures
        upper_flat(s.skip(i)) == upper_flat(s.subrange(i, j)) + upper_flat(s.skip(j)),
{
    assert(s.skip(i) =~= s.subrange(i, j) + s.skip(j));
    lemma_upper_flat_append(s.subrange(i, j), s.skip(j));
}

proof fn lemma_upper_flat_single(c: char)
    ensures
        upper_flat(seq![c]) == upper_of(c),
{
    assert(seq![c].drop_first() =~= Seq::<char>::empty());
    assert(upper_flat(seq![c]) =~= upper_of(c) + upper_flat(Seq::<char>::empty()));
    assert(upper_of(c) + upper_flat(Seq::<char>::empty()) =~= upper_of(c));
}

/// Build the uppercase expansion of a character sequence.
pub fn upper_vec(v: &Vec<char>) -> (r: Vec<char>)
    ensures
        r@ == upper_flat(v@),
{
    let n = v.len();
    let mut out: Vec<char> = Vec::new();
    let mut i: usize = 0;
    proof {
        assert(v@.take(0) =~= Seq::<char>::empty());
    }
    while i < n
        invariant
            i <= n == v@.len(),
            out@ == upper_flat(v@.take(i as int)),
        decreases n - i,
    {
        let mut exp = char_to_upper(v[i]);
        proof {
            assert(v@.take(i + 1) =~= v@.take(i as int) + seq![v@[i as int]]);
            lemma_upper_flat_append(v@.take(i as int), seq![v@[i as int]]);
            lemma_upper_flat_single(v@[i as int]);
        }
        out.append(&mut exp);
        i = i + 1;
    }
    proof {
        assert(v@.take(n as int) =~= v@);
    }
    out
}

/// Anchored case-insensitive match on character sequences.  The pattern is
/// supplied already uppercase.
pub fn tag_ci_chars(hay: &Vec<char>, start: usize, upat: &Vec<char>) -> (r: Option<usize>)
    requires
        start <= hay@.len(),
    ensures
        match r {
            Some(e) => tag_ci_spec(hay@, start as int, upat@) == Some(e as int) && start <= e
                <= hay@.len(),
            None => tag_ci_spec(hay@, start as int, upat@) is None,
        },
{
    let plen = upat.len();
    let hn = hay.len();
    if plen == 0 {
        proof {
            assert(upat@ =~= upper_flat(hay@.skip(start as int)).take(0));
        }
        return Some(start);
    }
    let mut hi = start;
    let mut nj: usize = 0;
    loop
        invariant
            start <= hi <= hn == hay@.len(),
            nj < plen == upat@.len(),
            upat@.take(nj as int) == upper_flat(hay@.subrange(start as int, hi as int)),
            ci_take(hay@, start as int, plen as int) == (hi - start) + ci_take(
                hay@,
                hi as int,
                plen - nj,
            ),
        decreases hn - hi,
    {
        if hi == hn {
            proof {
                lemma_upper_flat_split(hay@, start as int, hn as int);
                assert(hay@.skip(hn as int) =~= Seq::<char>::empty());
                assert(upper_flat(hay@.skip(start as int)) =~= upat@.take(nj as int));
                assert(upper_flat(hay@.skip(start as int)).len() == nj);
            }
            return None;
        }
        let exp = char_to_upper(hay[hi]);
        let ghost old_hi = hi as int;
        let ghost nj0 = nj as int;
        hi = hi + 1;
        let elen = exp.len();
        let mut ej: usize = 0;
        while ej < elen && nj < plen
            invariant
                ej <= elen == exp@.len(),
                exp@ == upper_of(hay@[old_hi]),
                nj == nj0 + ej,
                nj <= plen == upat@.len(),
                start <= old_hi < hn == hay@.len(),
                hi == old_hi + 1,
                0 <= nj0,
                upat@.take(nj0) == upper_flat(hay@.subrange(start as int, old_hi)),
                upat@.take(nj as int) == upper_flat(hay@.subrange(start as int, old_hi))
                    + exp@.take(ej as int),
            decreases elen - ej,
        {
            if upat[nj] != exp[ej] {
                proof {
                    lemma_upper_flat_split(hay@, start as int, old_hi);
                    lemma_upper_flat_split(hay@, old_hi, old_hi + 1);
                    assert(hay@.subrange(old_hi, old_hi + 1) =~= seq![hay@[old_hi]]);
                    lemma_upper_flat_single(hay@[old_hi]);
                    let flat = upper_flat(hay@.skip(start as int));
                    assert(flat == upper_flat(hay@.subrange(start as int, old_hi)) + exp@
                        + upper_flat(hay@.skip(old_hi + 1)));
                    assert(flat[nj as int] == exp@[ej as int]);
                    if ci_match_at(hay@, start as int, upat@) {
                        assert(upat@ == flat.take(plen as int));
                        assert(upat@[nj as int] == flat[nj as int]);
                        assert(false);
                    }
                }
                return None;
            }
            proof {
                assert(upat@.take(nj + 1) =~= upat@.take(nj as int) + seq![upat@[nj as int]]);
                assert(exp@.take(ej + 1) =~= exp@.take(ej as int) + seq![exp@[ej as int]]);
            }
            nj = nj + 1;
            ej = ej + 1;
        }
        proof {
            lemma_upper_flat_split(hay@, start as int, old_hi);
            lemma_upper_flat_split(hay@, old_hi, old_hi + 1);
            assert(hay@.subrange(old_hi, old_hi + 1) =~= seq![hay@[old_hi]]);
            lemma_upper_flat_single(hay@[old_hi]);
            assert(upper_flat(hay@.skip(start as int)) == upper_flat(
                hay@.subrange(start as int, old_hi),
            ) + exp@ + upper_flat(hay@.skip(old_hi + 1)));
            // One whole character was consumed by the match.
            assert(ci_take(hay@, old_hi, plen - nj0) == 1 + ci_take(
                hay@,
                old_hi + 1,
                plen - nj0 - exp@.len(),
            ));
        }
        if nj == plen {
            proof {
                let flat = upper_flat(hay@.skip(start as int));
                assert(upat@.take(plen as int) =~= upat@);
                assert(exp@.take(ej as int).is_prefix_of(exp@));
                assert(upat@ =~= flat.take(plen as int));
                assert(ci_take(hay@, old_hi + 1, plen - nj0 - exp@.len()) == 0);
            }
            return Some(hi);
        }
        proof {
            // The expansion ran out first: ej == elen.
            assert(ej == elen);
            assert(exp@.take(ej as int) =~= exp@);
            lemma_upper_flat_split(hay@, start as int, old_hi);
            assert(hay@.subrange(start as int, hi as int) =~= hay@.subrange(start as int, old_hi)
                + seq![hay@[old_hi]]);
            lemma_upper_flat_append(hay@.subrange(start as int, old_hi), seq![hay@[old_hi]]);
            lemma_upper_flat_single(hay@[old_hi]);
            assert(upat@.take(nj as int) == upper_flat(hay@.subrange(start as int, hi as int)));
        }
    }
}

/// First case-insensitive occurrence at or after `start`, as character
/// indices.
pub fn find_ci_chars(hay: &Vec<char>, start: usize, upat: &Vec<char>) -> (r: Option<
    (usize, usize),
>)
    requires
        start <= hay@.len(),
    ensures
        match r {
            Some((i, j)) => find_ci_spec(hay@, start as int, upat@) == Some((i as int, j as int))
                && start <= i <= j <= hay@.len(),
            None => find_ci_spec(hay@, start as int, upat@) is None,
        },
{
    let n = hay.len();
    let mut i: usize = start;
    loop
        invariant
            start <= i <= n == hay@.len(),
            find_ci_spec(hay@, start as int, upat@) == find_ci_spec(hay@, i as int, upat@),
        decreases n - i,
    {
        match tag_ci_chars(hay, i, upat) {
            Some(e) => {
                return Some((i, e));
            }
            None => {
                if i == n {
                    return None;
                }
                i = i + 1;
            }
        }
    }
}

/// Anchored case-sensitive match on character sequences.
pub fn tag_cs_chars(hay: &Vec<char>, start: usize, pat: &Vec<char>) -> (r: Option<usize>)
    requires
        start <= hay@.len(),
    ensures
        match r {
            Some(e) => tag_cs_spec(hay@, start as int, pat@) == Some(e as int) && start <= e
                <= hay@.len(),
            None => tag_cs_spec(hay@, start as int, pat@) is None,
        },
{
    let n = pat.len();
    let hn = hay.len();
    if n > hn - start {
        return None;
    }
    let mut j: usize = 0;
    while j < n
        invariant
            j <= n == pat@.len(),
            hn == hay@.len(),
            start + n <= hn,
            forall|k: int| 0 <= k < j ==> hay@[start + k] == pat@[k],
        decreases n - j,
    {
        if hay[start + j] != pat[j] {
            proof {
                assert(hay@.subrange(start as int, start + pat@.len())[j as int] == hay@[start
                    + j]);
            }
            return None;
        }
        j = j + 1;
    }
    proof {
        assert(hay@.subrange(start as int, start + pat@.len()) =~= pat@);
    }
    Some(start + n)
}

/// First case-sensitive occurrence at or after `start`, as character indices.
pub fn find_cs_chars(hay: &Vec<char>, start: usize, pat: &Vec<char>) -> (r: Option<
    (usize, usize),
>)
    requires
        start <= hay@.len(),
    ensures
        match r {
            Some((i, j)) => find_cs_spec(hay@, start as int, pat@) == Some((i as int, j as int))
                && start <= i <= j <= hay@.len(),
            None => find_cs_spec(hay@, start as int, pat@) is None,
        },
{
    let n = hay.len();
    let mut i: usize = start;
    loop
        invariant
            start <= i <= n == hay@.len(),
            find_cs_spec(hay@, start as int, pat@) == find_cs_spec(hay@, i as int, pat@),
        decreases n - i,
    {
        match tag_cs_chars(hay, i, pat) {
            Some(e) => {
                return Some((i, e));
            }
            None => {
                if i == n {
                    return None;
                }
                i = i + 1;
            }
        }
    }
}

/// First word start at or after `start`, as a character index.
pub fn find_word_start_chars(hay: &Vec<char>, start: usize) -> (r: Option<usize>)
    requires
        start <= hay@.len(),
    ensures
        match r {
            Some(i) => find_word_start_spec(hay@, start as int) == Some(i as int) && start <= i
                < hay@.len(),
            None => find_word_start_spec(hay@, start as int) is None,
        },
{
    let n = hay.len();
    let mut i: usize = start;
    while i < n
        invariant
            start <= i <= n == hay@.len(),
            find_word_start_spec(hay@, start as int) == find_word_start_spec(hay@, i as int),
        decreases n - i,
    {
        let here = if i == 0 {
            let f = Features::new(hay[0]);
            f.is_alphabetic || f.is_numeric
        } else {
            let a = Features::new(hay[i - 1]);
            let b = Features::new(hay[i]);
            word_start_features(&a, &b)
        };
        if here {
            return Some(i);
        }
        i = i + 1;
    }
    None
}

fn word_start_features(a: &Features, b: &Features) -> (r: bool)
    requires
        a.is_alphabetic == ch_alpha(a.ch),
        a.is_numeric == ch_numeric(a.ch),
        a.is_lower == ch_lower(a.ch),
        b.is_alphabetic == ch_alpha(b.ch),
        b.is_numeric == ch_numeric(b.ch),
        b.is_upper == ch_upper(b.ch),
    ensures
        r == word_start_pair(a.ch, b.ch),
{
    (!a.is_alphabetic && !a.is_numeric && (b.is_alphabetic || b.is_numeric)) || (a.is_numeric
        && b.is_alphabetic) || (a.is_alphabetic && b.is_numeric) || (a.is_lower && b.is_upper)
}

/// Whether character index `i` ends a word.
pub fn tag_word_end_chars(hay: &Vec<char>, i: usize) -> (r: bool)
    requires
        i <= hay@.len(),
    ensures
        r == word_end_at(hay@, i as int),
{
    if i == 0 {
        return false;
    }
    let a = Features::new(hay[i - 1]);
    if i == hay.len() {
        return a.is_alphabetic || a.is_numeric;
    }
    let b = Features::new(hay[i]);
    ((a.is_alphabetic || a.is_numeric) && !b.is_alphabetic && !b.is_numeric) || (a.is_numeric
        && b.is_alphabetic) || (a.is_alphabetic && b.is_numeric) || (a.is_lower && b.is_upper)
}

/// Advance over one character.
pub fn skip_char_chars(hay: &Vec<char>, i: usize) -> (r: usize)
    requires
        i <= hay@.len(),
    ensures
        r == skip_char_spec(hay@, i as int),
{
    if i < hay.len() {
        i + 1
    } else {
        i
    }
}

/// Advance over one character iff it is whitespace, minus or underscore.
pub fn skip_smart_chars(hay: &Vec<char>, i: usize) -> (r: usize)
    requires
        i <= hay@.len(),
    ensures
        r == skip_smart_spec(hay@, i as int),
{
    if i < hay.len() {
        let c = hay[i];
        if char_is_whitespace(c) || c == '-' || c == '_' {
            i + 1
        } else {
            i
        }
    } else {
        i
    }
}

} // verus!

verus! {

/// The characters of `text` and the character index sitting at byte offset
/// `start`.
fn text_at(text: &str, start: usize) -> (r: (Vec<char>, usize))
    requires
        on_char_boundary(text@, start as int),
    ensures
        r.0@ == text@,
        r.1 <= text@.len(),
        r.1 as int == char_idx_of(text@, start as int),
        byte_at(text@, r.1 as int) == start,
        crate::chars::bytes_len(text@) <= usize::MAX,
{
    let bytes = text.as_bytes();
    let _n: usize = bytes.len();
    let cs = str_chars(text);
    match char_index_of_byte(&cs, start) {
        Some(i) => {
            proof {
                lemma_char_idx_of_byte_at(text@, i as int);
            }
            (cs, i)
        }
        None => {
            proof {
                assert(false);
            }
            (cs, 0)
        }
    }
}

/// First occurrence of `pattern` at or after byte offset `start`, as byte
/// offsets, or `None`.
pub fn find_case_sensitive(text: &str, start: usize, pattern: &str) -> (r: Option<(usize, usize)>)
    requires
        on_char_boundary(text@, start as int),
    ensures
        match find_cs_spec(text@, char_idx_of(text@, start as int), pattern@) {
            Some((i, j)) => r == Some((byte_at(text@, i) as usize, byte_at(text@, j) as usize)),
            None => r is None,
        },
{
    let (cs, ci) = text_at(text, start);
    let pc = str_chars(pattern);
    match find_cs_chars(&cs, ci, &pc) {
        Some((i, j)) => {
            let bs = byte_of_char_index(&cs, i);
            let be = byte_of_char_index(&cs, j);
            Some((bs, be))
        }
        None => None,
    }
}

/// First occurrence of the already-uppercased `pattern` at or after byte
/// offset `start`, comparing against the uppercase expansion of `text`.
pub fn find_case_insensitive(text: &str, start: usize, pattern: &str) -> (r: Option<
    (usize, usize),
>)
    requires
        on_char_boundary(text@, start as int),
    ensures
        match find_ci_spec(text@, char_idx_of(text@, start as int), pattern@) {
            Some((i, j)) => r == Some((byte_at(text@, i) as usize, byte_at(text@, j) as usize)),
            None => r is None,
        },
{
    let (cs, ci) = text_at(text, start);
    let pc = str_chars(pattern);
    match find_ci_chars(&cs, ci, &pc) {
        Some((i, j)) => {
            let bs = byte_of_char_index(&cs, i);
            let be = byte_of_char_index(&cs, j);
            Some((bs, be))
        }
        None => None,
    }
}

/// Anchored match of `pattern` beginning exactly at byte offset `start`.
pub fn tag_case_sensitive(text: &str, start: usize, pattern: &str) -> (r: Option<(usize, usize)>)
    requires
        on_char_boundary(text@, start as int),
    ensures
        match tag_cs_spec(text@, char_idx_of(text@, start as int), pattern@) {
            Some(j) => r == Some((start, byte_at(text@, j) as usize)),
            None => r is None,
        },
{
    let (cs, ci) = text_at(text, start);
    let pc = str_chars(pattern);
    match tag_cs_chars(&cs, ci, &pc) {
        Some(j) => {
            let be = byte_of_char_index(&cs, j);
            Some((start, be))
        }
        None => None,
    }
}

/// Anchored case-insensitive match of the already-uppercased `pattern`
/// beginning exactly at byte offset `start`.
pub fn tag_case_insensitive(text: &str, start: usize, pattern: &str) -> (r: Option<
    (usize, usize),
>)
    requires
        on_char_boundary(text@, start as int),
    ensures
        match tag_ci_spec(text@, char_idx_of(text@, start as int), pattern@) {
            Some(j) => r == Some((start, byte_at(text@, j) as usize)),
            None => r is None,
        },
{
    let (cs, ci) = text_at(text, start);
    let pc = str_chars(pattern);
    match tag_ci_chars(&cs, ci, &pc) {
        Some(j) => {
            let be = byte_of_char_index(&cs, j);
            Some((start, be))
        }
        None => None,
    }
}

/// Advance over exactly one character; at the end of the text, stay put.
pub fn skip_character(text: &str, start: usize) -> (r: usize)
    requires
        on_char_boundary(text@, start as int),
    ensures
        r == byte_at(text@, skip_char_spec(text@, char_idx_of(text@, start as int))),
{
    let (cs, ci) = text_at(text, start);
    let next = skip_char_chars(&cs, ci);
    byte_of_char_index(&cs, next)
}

/// Advance over one character iff it is whitespace, minus or underscore.
pub fn skip_smart_space(text: &str, start: usize) -> (r: usize)
    requires
        on_char_boundary(text@, start as int),
    ensures
        r == byte_at(text@, skip_smart_spec(text@, char_idx_of(text@, start as int))),
{
    let (cs, ci) = text_at(text, start);
    let next = skip_smart_chars(&cs, ci);
    byte_of_char_index(&cs, next)
}

/// Byte offset of the first word start at or after byte offset `start`.
pub fn find_word_start_boundary(text: &str, start: usize) -> (r: Option<usize>)
    requires
        on_char_boundary(text@, start as int),
    ensures
        match find_word_start_spec(text@, char_idx_of(text@, start as int)) {
            Some(i) => r == Some(byte_at(text@, i) as usize),
            None => r is None,
        },
{
    let (cs, ci) = text_at(text, start);
    match find_word_start_chars(&cs, ci) {
        Some(i) => Some(byte_of_char_index(&cs, i)),
        None => None,
    }
}

/// Whether byte offset `start` ends a word.
pub fn tag_word_end_boundary(text: &str, start: usize) -> (r: bool)
    requires
        on_char_boundary(text@, start as int),
    ensures
        r == word_end_at(text@, char_idx_of(text@, start as int)),
{
    let (cs, ci) = text_at(text, start);
    tag_word_end_chars(&cs, ci)
}

} // verus!

verus! {

/// A successful case-sensitive find names a real match: its start is at or
/// after the search start, the pattern occurs there, and the end is the
/// start plus the pattern length.
pub proof fn lemma_find_cs_shape(hay: Seq<char>, start: int, pat: Seq<char>)
    ensures
        match find_cs_spec(hay, start, pat) {
            Some(r) => start <= r.0 && match_at(hay, r.0, pat) && r.1 == r.0 + pat.len(),
            None => true,
        },
    decreases hay.len() - start,
{
    if start < 0 || start > hay.len() {
    } else if match_at(hay, start, pat) {
    } else if start == hay.len() {
    } else {
        lemma_find_cs_shape(hay, start + 1, pat);
    }
}

} // verus!

verus! {

/// The found case-sensitive occurrence is the first one: no match begins
/// between the search start and it; and `None` means no match at all.
pub proof fn lemma_find_cs_first(hay: Seq<char>, start: int, pat: Seq<char>)
    requires
        0 <= start <= hay.len(),
    ensures
        match find_cs_spec(hay, start, pat) {
            Some(r) => forall|k: int| start <= k < r.0 ==> !match_at(hay, k, pat),
            None => forall|k: int| start <= k ==> !match_at(hay, k, pat),
        },
    decreases hay.len() - start,
{
    if match_at(hay, start, pat) {
    } else if start == hay.len() {
        assert forall|k: int| start <= k implies !match_at(hay, k, pat) by {
            if k == start {
            } else {
                assert(k + pat.len() > hay.len());
            }
        }
    } else {
        lemma_find_cs_first(hay, start + 1, pat);
    }
}

/// The found case-insensitive occurrence is the first one, and `None` means
/// no occurrence at all.
pub proof fn lemma_find_ci_first(hay: Seq<char>, start: int, upat: Seq<char>)
    requires
        0 <= start <= hay.len(),
    ensures
        match find_ci_spec(hay, start, upat) {
            Some(r) => forall|k: int| start <= k < r.0 ==> !ci_match_at(hay, k, upat),
            None => forall|k: int| start <= k <= hay.len() ==> !ci_match_at(hay, k, upat),
        },
    decreases hay.len() - start,
{
    if ci_match_at(hay, start, upat) {
    } else if start == hay.len() {
    } else {
        lemma_find_ci_first(hay, start + 1, upat);
    }
}

/// The found word start is the first one at or after the search start, and
/// `None` means there is none.
pub proof fn lemma_find_word_start_first(s: Seq<char>, start: int)
    requires
        0 <= start,
    ensures
        match find_word_start_spec(s, start) {
            Some(i) => start <= i && word_start_at(s, i) && forall|k: int|
                start <= k < i ==> !word_start_at(s, k),
            None => forall|k: int| start <= k ==> !word_start_at(s, k),
        },
    decreases s.len() - start,
{
    if start >= s.len() {
        assert forall|k: int| start <= k implies !word_start_at(s, k) by {}
    } else if word_start_at(s, start) {
    } else {
        lemma_find_word_start_first(s, start + 1);
    }
}

} // verus!

verus! {

/// The consumed count of a case-insensitive match is minimal: the consumed
/// characters' expansion covers the pattern (unless the text ran out), and
/// one character fewer would not.
pub proof fn lemma_ci_take_minimal(hay: Seq<char>, i: int, need: int)
    requires
        0 <= i <= hay.len(),
    ensures
        ({
            let k = ci_take(hay, i, need);
            &&& 0 <= k <= hay.len() - i
            &&& (need <= upper_flat(hay.subrange(i, i + k)).len() || i + k == hay.len())
            &&& (k > 0 ==> upper_flat(hay.subrange(i, i + k - 1)).len() < need)
        }),
    decreases hay.len() - i,
{
    let k = ci_take(hay, i, need);
    if need <= 0 || i >= hay.len() {
        assert(hay.subrange(i, i) =~= Seq::<char>::empty());
    } else {
        let e = upper_of(hay[i]).len() as int;
        lemma_ci_take_minimal(hay, i + 1, need - e);
        let k2 = ci_take(hay, i + 1, need - e);
        assert(hay.subrange(i, i + k) =~= seq![hay[i]] + hay.subrange(i + 1, i + 1 + k2));
        lemma_upper_flat_append(seq![hay[i]], hay.subrange(i + 1, i + 1 + k2));
        lemma_upper_flat_single(hay[i]);
        if k2 > 0 {
            assert(hay.subrange(i, i + k - 1) =~= seq![hay[i]] + hay.subrange(
                i + 1,
                i + 1 + (k2 - 1),
            ));
            lemma_upper_flat_append(seq![hay[i]], hay.subrange(i + 1, i + 1 + (k2 - 1)));
        } else {
            assert(hay.subrange(i, i + k - 1) =~= Seq::<char>::empty());
        }
    }
}

} // verus!
