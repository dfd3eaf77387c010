//! Open rules: how a selection reference like `12.`, `3.-7.` or a glob is
//! read, and the normalization of parent references inside glob paths.

use crate::chars::chars_to_string;
use crate::chars::str_chars;
use crate::chars::vec_skip_chars;
use crate::filter::last_slash;
use crate::find::find_cs_chars;
use crate::find::find_cs_spec;
use crate::find::lemma_find_cs_shape;
use vstd::prelude::*;

verus! {

/// What an open command refers to.
#[derive(Debug, PartialEq)]
pub enum OpenRule {
    /// All selected files matching a glob.
    Glob(String),
    /// One selected file, by number.
    Index(usize),
    /// A range of selected files, by number.
    IndexRange(usize, usize),
    /// Files matching a glob relative to one selected file.
    IndexGlob(usize, String),
}

/// Why an open rule does not parse.
#[derive(Debug, PartialEq)]
pub enum ParseError {
    /// The reference is not understood.
    Invalid(String),
}

/// A digit character.
pub open spec fn is_digit(c: char) -> bool {
    48 <= c as u32 <= 57
}

/// End of the digit run beginning at `i`.
pub open spec fn digits_end(s: Seq<char>, i: int) -> int
    decreases s.len() - i,
{
    if i < 0 || i >= s.len() || !is_digit(s[i]) {
        i
    } else {
        digits_end(s, i + 1)
    }
}

/// Value of the digits from `i` to `end`.
pub open spec fn digits_val(s: Seq<char>, i: int, end: int) -> int
    decreases end - i,
{
    if i < 0 || end <= i || end > s.len() {
        0
    } else {
        digits_val(s, i, end - 1) * 10 + (s[end - 1] as u32 - 48)
    }
}

/// The mathematical form of an open rule.
pub enum RuleView {
    /// A glob over the whole selection.
    Glob(Seq<char>),
    /// One index.
    Index(int),
    /// An inclusive index range.
    Range(int, int),
    /// An index with a relative glob.
    IndexGlob(int, Seq<char>),
}

/// How a reference reads: a leading number followed by `./` opens relative
/// to that selection entry; `.-`, a second number and a final `.` is a
/// range; a final `.` alone is one index; anything else is a glob over the
/// whole selection.  A number too large for `u64` reads as a glob.
pub open spec fn parse_rule_spec(s: Seq<char>) -> RuleView {
    let d = digits_end(s, 0);
    let v = digits_val(s, 0, d);
    if d > 0 && v <= u64::MAX {
        if d + 2 <= s.len() && s[d] == '.' && s[d + 1] == '/' {
            RuleView::IndexGlob(v, s.skip(d + 2))
        } else if d + 2 <= s.len() && s[d] == '.' && s[d + 1] == '-' && ({
            let d2 = digits_end(s, d + 2);
            let v2 = digits_val(s, d + 2, d2);
            d2 > d + 2 && v2 <= u64::MAX && d2 + 1 == s.len() && s[d2] == '.'
        }) {
            RuleView::Range(v, digits_val(s, d + 2, digits_end(s, d + 2)))
        } else if d + 1 == s.len() && s[d] == '.' {
            RuleView::Index(v)
        } else {
            RuleView::Glob(s)
        }
    } else {
        RuleView::Glob(s)
    }
}

/// Scan the digit run beginning at `from`: its end, its value, and whether
/// the value exceeds `u64`.
fn scan_digits(cs: &Vec<char>, from: usize) -> (r: (usize, u64, bool))
    requires
        from <= cs@.len(),
    ensures
        r.0 == digits_end(cs@, from as int),
        !r.2 ==> r.1 == digits_val(cs@, from as int, r.0 as int),
        r.2 ==> digits_val(cs@, from as int, r.0 as int) > u64::MAX,
        from <= r.0 <= cs@.len(),
{
    let n = cs.len();
    let mut i: usize = from;
    let mut acc: u64 = 0;
    let mut over: bool = false;
    while i < n
        invariant
            from <= i <= n == cs@.len(),
            digits_end(cs@, from as int) == digits_end(cs@, i as int),
            !over ==> acc == digits_val(cs@, from as int, i as int),
            over ==> digits_val(cs@, from as int, i as int) > u64::MAX,
            digits_val(cs@, from as int, i as int) >= 0,
        decreases n - i,
    {
        let u = cs[i] as u32;
        if !(48 <= u && u <= 57) {
            proof {
                assert(digits_end(cs@, i as int) == i);
            }
            return (i, acc, over);
        }
        let d = (cs[i] as u32 - 48) as u64;
        proof {
            assert(digits_val(cs@, from as int, i + 1) == digits_val(cs@, from as int, i as int)
                * 10 + (cs@[i as int] as u32 - 48));
        }
        if over || acc > (u64::MAX - d) / 10 {
            proof {
                if !over {
                    assert(acc * 10 + d > u64::MAX) by {
                        assert(acc >= (u64::MAX - d) / 10 + 1);
                        assert(((u64::MAX - d) / 10 + 1) * 10 + d > u64::MAX) by (nonlinear_arith)
                            requires
                                0 <= d <= 9,
                        ;
                        assert(acc * 10 >= ((u64::MAX - d) / 10 + 1) * 10) by (nonlinear_arith)
                            requires
                                acc >= (u64::MAX - d) / 10 + 1,
                        ;
                    };
                } else {
                    assert(digits_val(cs@, from as int, i as int) * 10 + (cs@[i as int] as u32
                        - 48) > u64::MAX) by (nonlinear_arith)
                        requires
                            digits_val(cs@, from as int, i as int) > u64::MAX,
                            cs@[i as int] as u32 >= 48,
                    ;
                }
            }
            over = true;
            acc = 0;
        } else {
            acc = acc * 10 + d;
        }
        i = i + 1;
    }
    proof {
        assert(digits_end(cs@, i as int) == i);
    }
    (i, acc, over)
}

/// Read one open-rule reference; every input reads as some rule.
pub fn parse_open_rule(s: &str) -> (r: OpenRule)
    ensures
        match parse_rule_spec(s@) {
            RuleView::Glob(t) => r matches OpenRule::Glob(g) && g@ == t,
            RuleView::Index(v) => r matches OpenRule::Index(x) && x == (v as u64) as usize,
            RuleView::Range(v, w) => r matches OpenRule::IndexRange(x, y) && x == (v as u64)
                as usize && y == (w as u64) as usize,
            RuleView::IndexGlob(v, t) => r matches OpenRule::IndexGlob(x, g) && x == (v as u64)
                as usize && g@ == t,
        },
{
    let cs = str_chars(s);
    let n = cs.len();
    let (d, v, over) = scan_digits(&cs, 0);
    if d > 0 && !over {
        if n - d >= 2 && cs[d] == '.' && cs[d + 1] == '/' {
            let rest = vec_skip_chars(&cs, d + 2);
            return OpenRule::IndexGlob(v as usize, chars_to_string(&rest));
        }
        if n - d >= 2 && cs[d] == '.' && cs[d + 1] == '-' {
            let (d2, v2, over2) = scan_digits(&cs, d + 2);
            if d2 > d + 2 && !over2 && n - d2 == 1 && cs[d2] == '.' {
                return OpenRule::IndexRange(v as usize, v2 as usize);
            }
        }
        if n - d == 1 && cs[d] == '.' {
            return OpenRule::Index(v as usize);
        }
        return OpenRule::Glob(s.to_owned());
    }
    OpenRule::Glob(s.to_owned())
}

/// The parent-reference pattern inside a glob path.
pub open spec fn updir() -> Seq<char> {
    seq!['/', '.', '.', '/']
}

/// Collapse one leading parent reference against the path element before
/// it, repeatedly, until none is left or none can be collapsed.
pub open spec fn normalize_spec(s: Seq<char>) -> Seq<char>
    decreases s.len(),
{
    match find_cs_spec(s, 0, updir()) {
        None => s,
        Some((p2, _e)) => {
            let p1 = last_slash(s.take(p2));
            if 0 <= p1 && p1 < p2 && p2 + 4 <= s.len() {
                normalize_spec(s.take(p1 + 1) + s.skip(p2 + 4))
            } else {
                s
            }
        },
    }
}

/// Collapse parent references in a glob path: each `/../` swallows the path
/// element before it, until none is left or nothing precedes one.
pub fn normalize(glob: String) -> (r: String)
    ensures
        r@ == normalize_spec(glob@),
{
    let mut cs = str_chars(glob.as_str());
    let mut pat: Vec<char> = Vec::new();
    pat.push('/');
    pat.push('.');
    pat.push('.');
    pat.push('/');
    proof {
        assert(pat@ =~= updir());
    }
    loop
        invariant
            pat@ == updir(),
            normalize_spec(cs@) == normalize_spec(glob@),
        decreases cs@.len(),
    {
        let cn = cs.len();
        let (p2, pe) = match find_cs_chars(&cs, 0, &pat) {
            Some(hit) => hit,
            None => {
                return chars_to_string(&cs);
            },
        };
        proof {
            lemma_find_cs_shape(cs@, 0, pat@);
            assert(pat@.len() == 4);
            assert(pe == p2 + 4);
        }
        // Last separator strictly before the parent reference.
        let mut k: usize = p2;
        let mut found: bool = false;
        let mut p1: usize = 0;
        while k > 0 && !found
            invariant
                k <= p2 <= cn == cs@.len(),
                !found ==> last_slash(cs@.take(p2 as int)) == last_slash(cs@.take(k as int)),
                found ==> k >= 1 && last_slash(cs@.take(p2 as int)) == k - 1 && p1 == k - 1,
            decreases k + (if found {
                0int
            } else {
                1int
            }),
        {
            proof {
                assert(cs@.take(k as int)[k - 1] == cs@[k - 1]);
                assert(cs@.take(k as int).take(k - 1) =~= cs@.take(k - 1));
            }
            if cs[k - 1] == '/' {
                found = true;
                p1 = k - 1;
            } else {
                k = k - 1;
            }
        }
        if !found {
            proof {
                assert(cs@.take(0) =~= Seq::<char>::empty());
                assert(last_slash(cs@.take(p2 as int)) == -1);
            }
            return chars_to_string(&cs);
        }
        let ghost old_cs = cs@;
        let mut next: Vec<char> = Vec::new();
        let mut a: usize = 0;
        while a < p1 + 1
            invariant
                p1 < p2 <= cn == cs@.len(),
                a <= p1 + 1,
                next@ =~= cs@.take(a as int),
            decreases p1 + 1 - a,
        {
            next.push(cs[a]);
            a = a + 1;
        }
        let mut b: usize = pe;
        proof {
            assert(next@ =~= cs@.take(p1 + 1) + cs@.subrange(pe as int, b as int));
        }
        while b < cn
            invariant
                p1 + 1 <= cn,
                pe <= b <= cn == cs@.len(),
                next@ =~= cs@.take(p1 + 1) + cs@.subrange(pe as int, b as int),
            decreases cn - b,
        {
            next.push(cs[b]);
            b = b + 1;
        }
        proof {
            assert(next@ =~= old_cs.take(p1 + 1) + old_cs.skip(p2 + 4));
            assert(normalize_spec(old_cs) == normalize_spec(next@));
        }
        cs = next;
    }
}

/// An open rule together with the selection it refers to.
pub struct Expand<'a> {
    /// The parsed rule.
    pub open_rule: OpenRule,
    /// The selection the rule indexes into.
    pub selection: &'a Vec<String>,
}

impl<'a> Expand<'a> {
    /// Pair a rule with a selection.
    pub fn new(open_rule: OpenRule, selection: &'a Vec<String>) -> (r: Expand<'a>)
        ensures
            r.open_rule == open_rule,
            r.selection@ == selection@,
    {
        Expand { open_rule, selection }
    }
}

} // verus!

verus! {

impl core::str::FromStr for OpenRule {
    type Err = ParseError;

    /// Every reference reads as some rule, so this never fails.
    fn from_str(s: &str) -> Result<OpenRule, ParseError> {
        Ok(parse_open_rule(s))
    }
}

} // verus!
