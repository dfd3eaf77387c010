//! Glob patterns, compiled and matched by the `globset` crate.
//!
//! A compiled pattern keeps the pattern text and the two options it was built
//! with, so that contracts can speak of the match as a function of those
//! values and of the candidate path alone.

use vstd::prelude::*;

verus! {

#[verifier::external_type_specification]
#[verifier::external_body]
pub struct ExGlobSet(globset::GlobSet);

/// The longest pattern text handed to globset, in characters.  Building the
/// matcher is total below this bound: an over-limit regex comes back as an
/// error, and the prefix and suffix automata globset builds for simple
/// patterns cannot overflow on texts this short.
pub const GLOB_PATTERN_MAX: usize = 1048576;

/// Whether building a glob from this pattern text and these options succeeds;
/// a function of the three arguments alone.
pub uninterp spec fn glob_ok(pattern: Seq<char>, case_insensitive: bool, literal_separator: bool) -> bool;

/// Whether the glob built from this pattern text and these options matches
/// the path text; a function of the four arguments alone.
pub uninterp spec fn glob_match(
    pattern: Seq<char>,
    case_insensitive: bool,
    literal_separator: bool,
    path: Seq<char>,
) -> bool;

/// A compiled glob pattern together with the text and options it was built
/// from.  Only [`build_glob`] constructs one, so the matcher always belongs
/// to the recorded text and options.
pub struct GlobPattern {
    matcher: globset::GlobSet,
    pattern: Vec<char>,
    case_insensitive: bool,
    literal_separator: bool,
}

impl GlobPattern {
    /// The pattern text the matcher was built from.
    pub closed spec fn pattern_view(&self) -> Seq<char> {
        self.pattern@
    }

    /// Whether the matcher was built case-insensitive.
    pub closed spec fn ci(&self) -> bool {
        self.case_insensitive
    }

    /// Whether an asterisk refuses to match a path separator.
    pub closed spec fn lit_sep(&self) -> bool {
        self.literal_separator
    }
}

/// Relies on globset's GlobBuilder (backslash escaping and empty alternates
/// enabled) and on GlobSetBuilder::build, whose set holds this one glob:
/// both return their failures, a pattern whose regex grows past globset's
/// internal limit included, so building succeeds or fails depending on the
/// pattern text and the options alone.  On failure, globset's error message
/// is returned.  Texts past [`GLOB_PATTERN_MAX`] are left out: only there
/// could the automata globset builds for simple prefix and suffix patterns
/// overflow, which globset does not report as an error.
#[verifier::external_body]
pub(crate) fn build_glob(pattern: &str, case_insensitive: bool, literal_separator: bool) -> (r:
    Result<GlobPattern, String>)
    requires
        pattern@.len() <= GLOB_PATTERN_MAX,
    ensures
        r is Ok <==> glob_ok(pattern@, case_insensitive, literal_separator),
        match r {
            Ok(g) => g.pattern_view() == pattern@ && g.ci() == case_insensitive && g.lit_sep()
                == literal_separator,
            Err(_) => true,
        },
{
    let glob = globset::GlobBuilder::new(pattern)
        .case_insensitive(case_insensitive)
        .literal_separator(literal_separator)
        .backslash_escape(true)
        .empty_alternates(true)
        .build()
        .map_err(|err| format!("{}", err))?;
    let mut set = globset::GlobSetBuilder::new();
    set.add(glob);
    let matcher = set.build().map_err(|err| format!("{}", err))?;
    let pattern = pattern.chars().collect();
    Ok(GlobPattern { matcher, pattern, case_insensitive, literal_separator })
}

/// Relies on GlobSet::is_match of the one-glob set: whether the glob matches
/// the path text, a function of the pattern, its options and the path alone.
#[verifier::external_body]
pub(crate) fn glob_is_match(g: &GlobPattern, path: &Vec<char>) -> (r: bool)
    ensures
        r == glob_match(g.pattern_view(), g.ci(), g.lit_sep(), path@),
{
    let text: String = path.iter().collect();
    g.matcher.is_match(text.as_str())
}

} // verus!
