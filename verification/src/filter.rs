//! The query filter: a token list is compiled into a linear program of
//! matching instructions, and the program is evaluated against one candidate
//! path with back-tracking on multi-fragment matches.

use crate::chars::chars_to_string;
use crate::chars::str_chars;
use crate::chars::vec_skip_chars;
use crate::config::LocateConfig;
use crate::config::Mode;
use crate::config::Order;
use crate::config::What;
use crate::find::ci_take;
use crate::find::find_ci_spec;
use crate::find::find_cs_spec;
use crate::find::find_ci_chars;
use crate::find::find_cs_chars;
use crate::find::find_word_start_chars;
use crate::find::find_word_start_spec;
use crate::find::skip_smart_chars;
use crate::find::skip_smart_spec;
use crate::find::tag_ci_chars;
use crate::find::tag_ci_spec;
use crate::find::tag_cs_chars;
use crate::find::tag_cs_spec;
use crate::find::tag_word_end_chars;
use crate::find::upper_flat;
use crate::find::upper_vec;
use crate::find::word_end_at;
use crate::glob::build_glob;
use crate::glob::glob_is_match;
use crate::glob::glob_match;
use crate::glob::glob_ok;
use crate::glob::GLOB_PATTERN_MAX;
use crate::glob::GlobPattern;
use crate::locate::LocateError;
use vstd::prelude::*;
use vstd::slice::slice_index_get;

verus! {

/// One item of a query: literal text, or a state switch that affects all
/// following texts.
#[derive(Clone, Debug, PartialEq)]
pub enum FilterToken {
    /// Literal text, interpreted according to the current mode.
    Text(String),
    /// Following texts match case-sensitively.
    CaseSensitive,
    /// Following texts match case-insensitively (the default).
    CaseInSensitive,
    /// Following texts may match in any order (the default).
    AnyOrder,
    /// Following texts must match left to right.
    SameOrder,
    /// Following texts search the whole path (the default).
    WholePath,
    /// Following texts search the last path element only.
    LastElement,
    /// Whether space, minus and underscore match each other (default: on).
    SmartSpaces(bool),
    /// Whether a glob asterisk refuses to match a separator (default: off).
    LiteralSeparator(bool),
    /// Whether texts must begin and end on word boundaries (default: off).
    WordBoundary(bool),
    /// Following texts autodetect glob patterns (the default mode).
    Auto,
    /// Following texts are plain text.
    Plain,
    /// Following texts are glob patterns.
    Glob,
}

/// One instruction of a compiled filter.
pub enum CompiledFilterToken {
    /// Reset the offset to the start of the path.
    GoToStart,
    /// Set the offset to the start of the last path element.
    GoToLastElement,
    /// Raise the offset to the last element, never rewinding within it.
    EnsureLastElement,
    /// Match a glob against the whole path or the last element.
    Glob(GlobPattern, bool),
    /// Find the uppercased text at or after the offset.
    FindCaseInsensitive(String),
    /// Find the text at or after the offset.
    FindCaseSensitive(String),
    /// Advance the offset to the next word start.
    FindWordStartBoundary,
    /// Advance over one smart-space character, if present.
    SkipSmartSpace,
    /// Expect the uppercased text exactly at the offset; back-track on
    /// failure.
    ExpectCaseInsensitive(String),
    /// Expect the text exactly at the offset; back-track on failure.
    ExpectCaseSensitive(String),
    /// Expect a word end exactly at the offset; back-track on failure.
    ExpectWordEndBoundary,
}

/// The mathematical form of one instruction.
pub enum SpecTok {
    /// Reset the offset to the start.
    GoStart,
    /// Jump to the last element.
    GoLast,
    /// Raise the offset to the last element.
    EnsureLast,
    /// A glob with the options it was built with.
    Glob { pattern: Seq<char>, ci: bool, lit_sep: bool, last: bool },
    /// Find, case-insensitively.
    FindCi(Seq<char>),
    /// Find, case-sensitively.
    FindCs(Seq<char>),
    /// Find a word start.
    FindWsb,
    /// Skip one smart space.
    SkipSmart,
    /// Expect, case-insensitively.
    ExpCi(Seq<char>),
    /// Expect, case-sensitively.
    ExpCs(Seq<char>),
    /// Expect a word end.
    ExpWeb,
}

/// The mathematical form of an instruction.
pub open spec fn tok_view(t: CompiledFilterToken) -> SpecTok {
    match t {
        CompiledFilterToken::GoToStart => SpecTok::GoStart,
        CompiledFilterToken::GoToLastElement => SpecTok::GoLast,
        CompiledFilterToken::EnsureLastElement => SpecTok::EnsureLast,
        CompiledFilterToken::Glob(g, last) => SpecTok::Glob {
            pattern: g.pattern_view(),
            ci: g.ci(),
            lit_sep: g.lit_sep(),
            last: last,
        },
        CompiledFilterToken::FindCaseInsensitive(s) => SpecTok::FindCi(s@),
        CompiledFilterToken::FindCaseSensitive(s) => SpecTok::FindCs(s@),
        CompiledFilterToken::FindWordStartBoundary => SpecTok::FindWsb,
        CompiledFilterToken::SkipSmartSpace => SpecTok::SkipSmart,
        CompiledFilterToken::ExpectCaseInsensitive(s) => SpecTok::ExpCi(s@),
        CompiledFilterToken::ExpectCaseSensitive(s) => SpecTok::ExpCs(s@),
        CompiledFilterToken::ExpectWordEndBoundary => SpecTok::ExpWeb,
    }
}

/// The mathematical form of an instruction sequence.
pub open spec fn prog_view(s: Seq<CompiledFilterToken>) -> Seq<SpecTok> {
    s.map(|i: int, t: CompiledFilterToken| tok_view(t))
}

/// A compiled filter: a sequence of instructions.
pub struct CompiledFilter {
    /// The instructions, in execution order.
    pub token: Vec<CompiledFilterToken>,
}

impl View for CompiledFilter {
    type V = Seq<SpecTok>;

    open spec fn view(&self) -> Seq<SpecTok> {
        prog_view(self.token@)
    }
}

/// The compiler's state between tokens.
#[derive(Clone, Debug)]
pub struct Options {
    /// Case sensitivity.
    pub case_sensitive: bool,
    /// Texts must match left to right.
    pub same_order: bool,
    /// Texts search the last path element only.
    pub last_element: bool,
    /// Space, minus and underscore match each other.
    pub smart_spaces: bool,
    /// A glob asterisk refuses to match a separator.
    pub literal_separator: bool,
    /// Texts must begin and end on word boundaries.
    pub word_boundaries: bool,
}

impl Options {
    /// The initial state a configuration gives.
    pub fn new(config: &LocateConfig) -> (r: Options)
        ensures
            r == opts_of(*config),
    {
        Options {
            case_sensitive: config.case_sensitive,
            same_order: match config.order {
                Order::AnyOrder => false,
                Order::SameOrder => true,
            },
            last_element: match config.what {
                What::WholePath => false,
                What::LastElement => true,
            },
            smart_spaces: config.smart_spaces,
            literal_separator: config.literal_separator,
            word_boundaries: config.word_boundaries,
        }
    }
}

/// The compiler state a configuration gives.
pub open spec fn opts_of(config: LocateConfig) -> Options {
    Options {
        case_sensitive: config.case_sensitive,
        same_order: config.order is SameOrder,
        last_element: config.what is LastElement,
        smart_spaces: config.smart_spaces,
        literal_separator: config.literal_separator,
        word_boundaries: config.word_boundaries,
    }
}

/// A smart-space separator in a query text.
pub open spec fn is_sep(c: char) -> bool {
    c == ' ' || c == '-' || c == '_'
}

/// Split on separators, one character at a time, discarding empty fragments;
/// `cur` is the fragment under construction.
pub open spec fn split_acc(s: Seq<char>, i: int, cur: Seq<char>) -> Seq<Seq<char>>
    decreases s.len() - i,
{
    if i < 0 || i >= s.len() {
        if cur.len() == 0 {
            Seq::empty()
        } else {
            seq![cur]
        }
    } else if is_sep(s[i]) {
        (if cur.len() == 0 {
            Seq::<Seq<char>>::empty()
        } else {
            seq![cur]
        }) + split_acc(s, i + 1, Seq::empty())
    } else {
        split_acc(s, i + 1, cur.push(s[i]))
    }
}

/// The fragments of a query text: split on space, minus and underscore when
/// smart spaces are on, the text itself otherwise.
pub open spec fn frags_of(text: Seq<char>, smart_spaces: bool) -> Seq<Seq<char>> {
    if smart_spaces {
        split_acc(text, 0, Seq::empty())
    } else {
        seq![text]
    }
}

/// A glob metacharacter, which makes an auto-mode text a glob.
pub open spec fn is_glob_meta(c: char) -> bool {
    c == '*' || c == '?' || c == '[' || c == ']' || c == '{' || c == '}'
}

/// Whether the text holds any glob metacharacter.
pub open spec fn has_glob_meta(s: Seq<char>) -> bool {
    exists|i: int| 0 <= i < s.len() && is_glob_meta(s[i])
}

/// The scope-setup instructions of one plain text.
pub open spec fn scope_prog(opt: Options) -> Seq<SpecTok> {
    if opt.same_order {
        if opt.last_element {
            seq![SpecTok::EnsureLast]
        } else {
            Seq::empty()
        }
    } else if opt.last_element {
        seq![SpecTok::GoLast]
    } else {
        seq![SpecTok::GoStart]
    }
}

/// The expect instruction of one fragment.
pub open spec fn exp_tok(f: Seq<char>, cs: bool) -> SpecTok {
    if cs {
        SpecTok::ExpCs(f)
    } else {
        SpecTok::ExpCi(upper_flat(f))
    }
}

/// The find instruction of the first fragment.
pub open spec fn find_tok(f: Seq<char>, cs: bool) -> SpecTok {
    if cs {
        SpecTok::FindCs(f)
    } else {
        SpecTok::FindCi(upper_flat(f))
    }
}

/// The instructions of the fragments after the first.
pub open spec fn rest_prog(frags: Seq<Seq<char>>, cs: bool) -> Seq<SpecTok>
    decreases frags.len(),
{
    if frags.len() == 0 {
        Seq::empty()
    } else {
        seq![SpecTok::SkipSmart, exp_tok(frags[0], cs)] + rest_prog(frags.drop_first(), cs)
    }
}

/// The instructions one plain text compiles to.
pub open spec fn text_prog(frags: Seq<Seq<char>>, opt: Options) -> Seq<SpecTok> {
    let body = if frags.len() == 0 {
        Seq::<SpecTok>::empty()
    } else if opt.word_boundaries {
        seq![SpecTok::FindWsb, exp_tok(frags[0], opt.case_sensitive)] + rest_prog(
            frags.drop_first(),
            opt.case_sensitive,
        )
    } else {
        seq![find_tok(frags[0], opt.case_sensitive)] + rest_prog(
            frags.drop_first(),
            opt.case_sensitive,
        )
    };
    let web = if opt.word_boundaries {
        seq![SpecTok::ExpWeb]
    } else {
        Seq::<SpecTok>::empty()
    };
    scope_prog(opt) + body + web
}

/// Why a compilation returned no program.
pub enum CompileError {
    /// The query would match everything.
    Trivial,
    /// This glob pattern did not compile.
    BadGlob(Seq<char>),
}

/// Compile the remaining tokens, given the state so far.
pub open spec fn compile_from(
    tokens: Seq<FilterToken>,
    opt: Options,
    mode: Mode,
    nothing: bool,
    acc: Seq<SpecTok>,
) -> Result<Seq<SpecTok>, CompileError>
    decreases tokens.len(),
{
    if tokens.len() == 0 {
        if nothing {
            Err(CompileError::Trivial)
        } else {
            Ok(acc)
        }
    } else {
        let rest = tokens.drop_first();
        match tokens[0] {
            FilterToken::Text(text) => {
                let em = if mode is Auto {
                    if has_glob_meta(text@) {
                        Mode::Glob
                    } else {
                        Mode::Plain
                    }
                } else {
                    mode
                };
                if em is Plain {
                    let frags = frags_of(text@, opt.smart_spaces);
                    compile_from(
                        rest,
                        opt,
                        mode,
                        nothing && frags.len() == 0,
                        acc + text_prog(frags, opt),
                    )
                } else {
                    if text@.len() <= GLOB_PATTERN_MAX && glob_ok(
                        text@,
                        opt.case_sensitive,
                        opt.literal_separator,
                    ) {
                        let scope = if opt.last_element {
                            seq![SpecTok::GoLast]
                        } else {
                            Seq::<SpecTok>::empty()
                        };
                        let g = SpecTok::Glob {
                            pattern: text@,
                            ci: opt.case_sensitive,
                            lit_sep: opt.literal_separator,
                            last: opt.last_element,
                        };
                        compile_from(rest, opt, mode, false, acc + scope + seq![g])
                    } else {
                        Err(CompileError::BadGlob(text@))
                    }
                }
            },
            FilterToken::CaseSensitive => compile_from(
                rest,
                Options { case_sensitive: true, ..opt },
                mode,
                nothing,
                acc,
            ),
            FilterToken::CaseInSensitive => compile_from(
                rest,
                Options { case_sensitive: false, ..opt },
                mode,
                nothing,
                acc,
            ),
            FilterToken::AnyOrder => compile_from(
                rest,
                Options { same_order: false, ..opt },
                mode,
                nothing,
                acc,
            ),
            FilterToken::SameOrder => compile_from(
                rest,
                Options { same_order: true, ..opt },
                mode,
                nothing,
                acc,
            ),
            FilterToken::WholePath => compile_from(
                rest,
                Options { last_element: false, ..opt },
                mode,
                nothing,
                acc,
            ),
            FilterToken::LastElement => compile_from(
                rest,
                Options { last_element: true, ..opt },
                mode,
                nothing,
                acc,
            ),
            FilterToken::SmartSpaces(on) => compile_from(
                rest,
                Options { smart_spaces: on, ..opt },
                mode,
                nothing,
                acc,
            ),
            FilterToken::LiteralSeparator(on) => compile_from(
                rest,
                Options { literal_separator: on, ..opt },
                mode,
                nothing,
                acc,
            ),
            FilterToken::WordBoundary(on) => compile_from(
                rest,
                Options { word_boundaries: on, ..opt },
                mode,
                nothing,
                acc,
            ),
            FilterToken::Auto => compile_from(rest, opt, Mode::Auto, nothing, acc),
            FilterToken::Plain => compile_from(rest, opt, Mode::Plain, nothing, acc),
            FilterToken::Glob => compile_from(rest, opt, Mode::Glob, nothing, acc),
        }
    }
}

/// The program a token list compiles to under a configuration, or why there
/// is none.
pub open spec fn compile_spec(tokens: Seq<FilterToken>, config: LocateConfig) -> Result<
    Seq<SpecTok>,
    CompileError,
> {
    compile_from(tokens, opts_of(config), config.mode, true, Seq::empty())
}

/// Law: a state switch repeated twice in a row compiles to the same program
/// as the switch written once.
pub proof fn lemma_compile_toggle_idempotent(
    tokens: Seq<FilterToken>,
    config: LocateConfig,
    i: int,
)
    requires
        0 <= i < tokens.len(),
        !(tokens[i] is Text),
    ensures
        compile_spec(tokens.insert(i, tokens[i]), config) == compile_spec(tokens, config),
{
    lemma_compile_dup_from(tokens, opts_of(config), config.mode, true, Seq::empty(), i);
}

#[verifier::rlimit(60)]
proof fn lemma_compile_dup_from(
    tokens: Seq<FilterToken>,
    opt: Options,
    mode: Mode,
    nothing: bool,
    acc: Seq<SpecTok>,
    i: int,
)
    requires
        0 <= i < tokens.len(),
        !(tokens[i] is Text),
    ensures
        compile_from(tokens.insert(i, tokens[i]), opt, mode, nothing, acc) == compile_from(
            tokens,
            opt,
            mode,
            nothing,
            acc,
        ),
    decreases i,
{
    let dup = tokens.insert(i, tokens[i]);
    if i == 0 {
        assert(dup[0] == tokens[0]);
        assert(dup.drop_first() =~= tokens);
        let rest = tokens.drop_first();
        // Applying the same state switch a second time leaves the state as it
        // was after the first application.
        match tokens[0] {
            FilterToken::Text(_) => {
                assert(false);
            },
            FilterToken::CaseSensitive => {
                let o1 = Options { case_sensitive: true, ..opt };
                assert(Options { case_sensitive: true, ..o1 } == o1);
                assert(compile_from(dup, opt, mode, nothing, acc) == compile_from(
                    tokens,
                    o1,
                    mode,
                    nothing,
                    acc,
                ));
                assert(compile_from(tokens, o1, mode, nothing, acc) == compile_from(
                    rest,
                    o1,
                    mode,
                    nothing,
                    acc,
                ));
                assert(compile_from(tokens, opt, mode, nothing, acc) == compile_from(
                    rest,
                    o1,
                    mode,
                    nothing,
                    acc,
                ));
            },
            FilterToken::CaseInSensitive => {
                let o1 = Options { case_sensitive: false, ..opt };
                assert(Options { case_sensitive: false, ..o1 } == o1);
                assert(compile_from(dup, opt, mode, nothing, acc) == compile_from(
                    tokens,
                    o1,
                    mode,
                    nothing,
                    acc,
                ));
                assert(compile_from(tokens, o1, mode, nothing, acc) == compile_from(
                    rest,
                    o1,
                    mode,
                    nothing,
                    acc,
                ));
                assert(compile_from(tokens, opt, mode, nothing, acc) == compile_from(
                    rest,
                    o1,
                    mode,
                    nothing,
                    acc,
                ));
            },
            FilterToken::AnyOrder => {
                let o1 = Options { same_order: false, ..opt };
                assert(Options { same_order: false, ..o1 } == o1);
                assert(compile_from(dup, opt, mode, nothing, acc) == compile_from(
                    tokens,
                    o1,
                    mode,
                    nothing,
                    acc,
                ));
                assert(compile_from(tokens, o1, mode, nothing, acc) == compile_from(
                    rest,
                    o1,
                    mode,
                    nothing,
                    acc,
                ));
                assert(compile_from(tokens, opt, mode, nothing, acc) == compile_from(
                    rest,
                    o1,
                    mode,
                    nothing,
                    acc,
                ));
            },
            FilterToken::SameOrder => {
                let o1 = Options { same_order: true, ..opt };
                assert(Options { same_order: true, ..o1 } == o1);
                assert(compile_from(dup, opt, mode, nothing, acc) == compile_from(
                    tokens,
                    o1,
                    mode,
                    nothing,
                    acc,
                ));
                assert(compile_from(tokens, o1, mode, nothing, acc) == compile_from(
                    rest,
                    o1,
                    mode,
                    nothing,
                    acc,
                ));
                assert(compile_from(tokens, opt, mode, nothing, acc) == compile_from(
                    rest,
                    o1,
                    mode,
                    nothing,
                    acc,
                ));
            },
            FilterToken::WholePath => {
                let o1 = Options { last_element: false, ..opt };
                assert(Options { last_element: false, ..o1 } == o1);
                assert(compile_from(dup, opt, mode, nothing, acc) == compile_from(
                    tokens,
                    o1,
                    mode,
                    nothing,
                    acc,
                ));
                assert(compile_from(tokens, o1, mode, nothing, acc) == compile_from(
                    rest,
                    o1,
                    mode,
                    nothing,
                    acc,
                ));
                assert(compile_from(tokens, opt, mode, nothing, acc) == compile_from(
                    rest,
                    o1,
                    mode,
                    nothing,
                    acc,
                ));
            },
            FilterToken::LastElement => {
                let o1 = Options { last_element: true, ..opt };
                assert(Options { last_element: true, ..o1 } == o1);
                assert(compile_from(dup, opt, mode, nothing, acc) == compile_from(
                    tokens,
                    o1,
                    mode,
                    nothing,
                    acc,
                ));
                assert(compile_from(tokens, o1, mode, nothing, acc) == compile_from(
                    rest,
                    o1,
                    mode,
                    nothing,
                    acc,
                ));
                assert(compile_from(tokens, opt, mode, nothing, acc) == compile_from(
                    rest,
                    o1,
                    mode,
                    nothing,
                    acc,
                ));
            },
            FilterToken::SmartSpaces(on) => {
                let o1 = Options { smart_spaces: on, ..opt };
                assert(Options { smart_spaces: on, ..o1 } == o1);
                assert(compile_from(dup, opt, mode, nothing, acc) == compile_from(
                    tokens,
                    o1,
                    mode,
                    nothing,
                    acc,
                ));
                assert(compile_from(tokens, o1, mode, nothing, acc) == compile_from(
                    rest,
                    o1,
                    mode,
                    nothing,
                    acc,
                ));
                assert(compile_from(tokens, opt, mode, nothing, acc) == compile_from(
                    rest,
                    o1,
                    mode,
                    nothing,
                    acc,
                ));
            },
            FilterToken::LiteralSeparator(on) => {
                let o1 = Options { literal_separator: on, ..opt };
                assert(Options { literal_separator: on, ..o1 } == o1);
                assert(compile_from(dup, opt, mode, nothing, acc) == compile_from(
                    tokens,
                    o1,
                    mode,
                    nothing,
                    acc,
                ));
                assert(compile_from(tokens, o1, mode, nothing, acc) == compile_from(
                    rest,
                    o1,
                    mode,
                    nothing,
                    acc,
                ));
                assert(compile_from(tokens, opt, mode, nothing, acc) == compile_from(
                    rest,
                    o1,
                    mode,
                    nothing,
                    acc,
                ));
            },
            FilterToken::WordBoundary(on) => {
                let o1 = Options { word_boundaries: on, ..opt };
                assert(Options { word_boundaries: on, ..o1 } == o1);
                assert(compile_from(dup, opt, mode, nothing, acc) == compile_from(
                    tokens,
                    o1,
                    mode,
                    nothing,
                    acc,
                ));
                assert(compile_from(tokens, o1, mode, nothing, acc) == compile_from(
                    rest,
                    o1,
                    mode,
                    nothing,
                    acc,
                ));
                assert(compile_from(tokens, opt, mode, nothing, acc) == compile_from(
                    rest,
                    o1,
                    mode,
                    nothing,
                    acc,
                ));
            },
            FilterToken::Auto => {
                assert(compile_from(dup, opt, mode, nothing, acc) == compile_from(
                    tokens,
                    opt,
                    Mode::Auto,
                    nothing,
                    acc,
                ));
                assert(compile_from(tokens, opt, Mode::Auto, nothing, acc) == compile_from(
                    rest,
                    opt,
                    Mode::Auto,
                    nothing,
                    acc,
                ));
                assert(compile_from(tokens, opt, mode, nothing, acc) == compile_from(
                    rest,
                    opt,
                    Mode::Auto,
                    nothing,
                    acc,
                ));
            },
            FilterToken::Plain => {
                assert(compile_from(dup, opt, mode, nothing, acc) == compile_from(
                    tokens,
                    opt,
                    Mode::Plain,
                    nothing,
                    acc,
                ));
                assert(compile_from(tokens, opt, Mode::Plain, nothing, acc) == compile_from(
                    rest,
                    opt,
                    Mode::Plain,
                    nothing,
                    acc,
                ));
                assert(compile_from(tokens, opt, mode, nothing, acc) == compile_from(
                    rest,
                    opt,
                    Mode::Plain,
                    nothing,
                    acc,
                ));
            },
            FilterToken::Glob => {
                assert(compile_from(dup, opt, mode, nothing, acc) == compile_from(
                    tokens,
                    opt,
                    Mode::Glob,
                    nothing,
                    acc,
                ));
                assert(compile_from(tokens, opt, Mode::Glob, nothing, acc) == compile_from(
                    rest,
                    opt,
                    Mode::Glob,
                    nothing,
                    acc,
                ));
                assert(compile_from(tokens, opt, mode, nothing, acc) == compile_from(
                    rest,
                    opt,
                    Mode::Glob,
                    nothing,
                    acc,
                ));
            },
        }
    } else {
        assert(dup[0] == tokens[0]);
        assert(dup.drop_first() =~= tokens.drop_first().insert(i - 1, tokens[i]));
        assert(tokens.drop_first()[i - 1] == tokens[i]);
        let rest = tokens.drop_first();
        match tokens[0] {
            FilterToken::Text(text) => {
                let em = if mode is Auto {
                    if has_glob_meta(text@) {
                        Mode::Glob
                    } else {
                        Mode::Plain
                    }
                } else {
                    mode
                };
                if em is Plain {
                    let frags = frags_of(text@, opt.smart_spaces);
                    lemma_compile_dup_from(
                        rest,
                        opt,
                        mode,
                        nothing && frags.len() == 0,
                        acc + text_prog(frags, opt),
                        i - 1,
                    );
                } else {
                    if text@.len() <= GLOB_PATTERN_MAX && glob_ok(
                        text@,
                        opt.case_sensitive,
                        opt.literal_separator,
                    ) {
                        let scope = if opt.last_element {
                            seq![SpecTok::GoLast]
                        } else {
                            Seq::<SpecTok>::empty()
                        };
                        let g = SpecTok::Glob {
                            pattern: text@,
                            ci: opt.case_sensitive,
                            lit_sep: opt.literal_separator,
                            last: opt.last_element,
                        };
                        lemma_compile_dup_from(
                            rest,
                            opt,
                            mode,
                            false,
                            acc + scope + seq![g],
                            i - 1,
                        );
                    }
                }
            },
            FilterToken::CaseSensitive => {
                lemma_compile_dup_from(
                    rest,
                    Options { case_sensitive: true, ..opt },
                    mode,
                    nothing,
                    acc,
                    i - 1,
                );
            },
            FilterToken::CaseInSensitive => {
                lemma_compile_dup_from(
                    rest,
                    Options { case_sensitive: false, ..opt },
                    mode,
                    nothing,
                    acc,
                    i - 1,
                );
            },
            FilterToken::AnyOrder => {
                lemma_compile_dup_from(
                    rest,
                    Options { same_order: false, ..opt },
                    mode,
                    nothing,
                    acc,
                    i - 1,
                );
            },
            FilterToken::SameOrder => {
                lemma_compile_dup_from(
                    rest,
                    Options { same_order: true, ..opt },
                    mode,
                    nothing,
                    acc,
                    i - 1,
                );
            },
            FilterToken::WholePath => {
                lemma_compile_dup_from(
                    rest,
                    Options { last_element: false, ..opt },
                    mode,
                    nothing,
                    acc,
                    i - 1,
                );
            },
            FilterToken::LastElement => {
                lemma_compile_dup_from(
                    rest,
                    Options { last_element: true, ..opt },
                    mode,
                    nothing,
                    acc,
                    i - 1,
                );
            },
            FilterToken::SmartSpaces(on) => {
                lemma_compile_dup_from(
                    rest,
                    Options { smart_spaces: on, ..opt },
                    mode,
                    nothing,
                    acc,
                    i - 1,
                );
            },
            FilterToken::LiteralSeparator(on) => {
                lemma_compile_dup_from(
                    rest,
                    Options { literal_separator: on, ..opt },
                    mode,
                    nothing,
                    acc,
                    i - 1,
                );
            },
            FilterToken::WordBoundary(on) => {
                lemma_compile_dup_from(
                    rest,
                    Options { word_boundaries: on, ..opt },
                    mode,
                    nothing,
                    acc,
                    i - 1,
                );
            },
            FilterToken::Auto => {
                lemma_compile_dup_from(rest, opt, Mode::Auto, nothing, acc, i - 1);
            },
            FilterToken::Plain => {
                lemma_compile_dup_from(rest, opt, Mode::Plain, nothing, acc, i - 1);
            },
            FilterToken::Glob => {
                lemma_compile_dup_from(rest, opt, Mode::Glob, nothing, acc, i - 1);
            },
        }
    }
}

} // verus!

verus! {

/// Index of the last separator of the path, or -1.
pub open spec fn last_slash(s: Seq<char>) -> int
    decreases s.len(),
{
    if s.len() == 0 {
        -1
    } else if s[s.len() - 1] == '/' {
        s.len() - 1
    } else {
        last_slash(s.take(s.len() - 1))
    }
}

/// Offset of the last path element: just past the last separator, or the
/// start.
pub open spec fn last_elem_off(s: Seq<char>) -> int {
    last_slash(s) + 1
}

/// A find instruction, which anchors back-tracking.
pub open spec fn find_family(t: SpecTok) -> bool {
    t is FindCi || t is FindCs || t is FindWsb
}

/// Run the program on the path characters from the given state.
///
/// The state is the next instruction `fi` and the character offset `pos`;
/// `btf` and `btp` hold the back-tracking anchor, the last find instruction
/// fetched and the offset it ran from (`btf == -1` before any).  An expect
/// instruction that fails resumes at the anchor, one character further; the
/// run accepts when `fi` passes the end of the program.
pub open spec fn eval_from(
    p: Seq<SpecTok>,
    hay: Seq<char>,
    fi: int,
    pos: int,
    btf: int,
    btp: int,
) -> bool
    decreases
            p.len() - btf,
            hay.len() - btp,
            (if fi == btf {
                0int
            } else {
                p.len() - fi + 1
            }),
{
    if !(0 <= fi <= p.len() && -1 <= btf && btf <= fi && btf < p.len() && 0 <= btp
        <= hay.len() && 0 <= pos <= hay.len()) {
        false
    } else if fi == p.len() {
        true
    } else {
        let t = p[fi];
        if find_family(t) {
            if fi == btf && pos <= btp {
                false
            } else {
                match t {
                    SpecTok::FindCs(pat) => match find_cs_spec(hay, pos, pat) {
                        Some(r) => eval_from(p, hay, fi + 1, r.1, fi, pos),
                        None => false,
                    },
                    SpecTok::FindCi(pat) => match find_ci_spec(hay, pos, pat) {
                        Some(r) => eval_from(p, hay, fi + 1, r.1, fi, pos),
                        None => false,
                    },
                    _ => match find_word_start_spec(hay, pos) {
                        Some(i) => eval_from(p, hay, fi + 1, i, fi, pos),
                        None => false,
                    },
                }
            }
        } else if fi == btf {
            false
        } else {
            match t {
                SpecTok::GoStart => eval_from(p, hay, fi + 1, 0, btf, btp),
                SpecTok::GoLast => eval_from(p, hay, fi + 1, last_elem_off(hay), btf, btp),
                SpecTok::EnsureLast => eval_from(
                    p,
                    hay,
                    fi + 1,
                    if pos < last_elem_off(hay) {
                        last_elem_off(hay)
                    } else {
                        pos
                    },
                    btf,
                    btp,
                ),
                SpecTok::Glob { pattern, ci, lit_sep, last } => {
                    let cand = if last {
                        hay.skip(last_elem_off(hay))
                    } else {
                        hay
                    };
                    if glob_match(pattern, ci, lit_sep, cand) {
                        eval_from(p, hay, fi + 1, pos, btf, btp)
                    } else {
                        false
                    }
                },
                SpecTok::SkipSmart => eval_from(
                    p,
                    hay,
                    fi + 1,
                    skip_smart_spec(hay, pos),
                    btf,
                    btp,
                ),
                SpecTok::ExpCs(pat) => match tag_cs_spec(hay, pos, pat) {
                    Some(e) => eval_from(p, hay, fi + 1, e, btf, btp),
                    None => {
                        if btf < 0 || btp >= hay.len() {
                            false
                        } else {
                            eval_from(p, hay, btf, btp + 1, btf, btp)
                        }
                    },
                },
                SpecTok::ExpCi(pat) => match tag_ci_spec(hay, pos, pat) {
                    Some(e) => eval_from(p, hay, fi + 1, e, btf, btp),
                    None => {
                        if btf < 0 || btp >= hay.len() {
                            false
                        } else {
                            eval_from(p, hay, btf, btp + 1, btf, btp)
                        }
                    },
                },
                SpecTok::ExpWeb => {
                    if word_end_at(hay, pos) {
                        eval_from(p, hay, fi + 1, pos, btf, btp)
                    } else {
                        if btf < 0 || btp >= hay.len() {
                            false
                        } else {
                            eval_from(p, hay, btf, btp + 1, btf, btp)
                        }
                    }
                },
                _ => false,
            }
        }
    }
}

/// Whether the compiled filter accepts the path text.
pub open spec fn filter_accepts(p: Seq<SpecTok>, hay: Seq<char>) -> bool {
    eval_from(p, hay, 0, 0, -1, 0)
}

/// Offset of the last path element, on character vectors.
fn last_elem_offset_chars(v: &Vec<char>) -> (r: usize)
    ensures
        r as int == last_elem_off(v@),
        r <= v@.len(),
{
    let mut k = v.len();
    proof {
        assert(v@.take(v@.len() as int) =~= v@);
    }
    while k > 0
        invariant
            k <= v@.len(),
            last_slash(v@) == last_slash(v@.take(k as int)),
        decreases k,
    {
        proof {
            assert(v@.take(k as int)[k - 1] == v@[k - 1]);
            assert(v@.take(k as int).take(k - 1) =~= v@.take(k - 1));
        }
        if v[k - 1] == '/' {
            return k;
        }
        k = k - 1;
    }
    proof {
        assert(v@.take(0) =~= Seq::<char>::empty());
    }
    0
}

/// Evaluate the compiled filter against one path text.
///
/// The result is a function of the path characters and the program alone:
/// the machine of [`eval_from`], started at the first instruction.
pub fn apply(text: &str, filter: &CompiledFilter) -> (r: bool)
    ensures
        r == filter_accepts(filter@, text@),
{
    let cs = str_chars(text);
    let n = filter.token.len();
    let hn = cs.len();
    let last_off = last_elem_offset_chars(&cs);
    let mut fi: usize = 0;
    let mut pos: usize = 0;
    let mut has_bt: bool = false;
    let mut btf: usize = 0;
    let mut btp: usize = 0;
    let ghost p = filter@;
    loop
        invariant
            cs@ == text@,
            n == filter.token@.len(),
            p == filter@,
            p.len() == n,
            hn == cs@.len(),
            last_off as int == last_elem_off(cs@),
            last_off <= hn,
            fi <= n,
            pos <= hn,
            has_bt ==> btf <= fi && btf < n && btp <= hn,
            has_bt ==> (fi == btf ==> pos > btp),
            filter_accepts(p, text@) == eval_from(
                p,
                text@,
                fi as int,
                pos as int,
                if has_bt {
                    btf as int
                } else {
                    -1
                },
                if has_bt {
                    btp as int
                } else {
                    0
                },
            ),
        decreases
                (if has_bt {
                    n - btf
                } else {
                    n + 1
                }),
                (if has_bt {
                    hn - btp
                } else {
                    hn as int
                }),
                (if has_bt && fi == btf {
                    0int
                } else {
                    n - fi + 1
                }),
    {
        let ghost sbtf: int = if has_bt { btf as int } else { -1 };
        let ghost sbtp: int = if has_bt { btp as int } else { 0 };
        let ghost fi0: int = fi as int;
        let ghost pos0: int = pos as int;
        if fi == n {
            return true;
        }
        let t = &filter.token[fi];
        let ghost st = p[fi as int];
        proof {
            assert(st == tok_view(filter.token@[fi as int]));
        }
        match t {
            CompiledFilterToken::GoToStart => {
                if has_bt && fi == btf {
                    proof {
                        assert(!eval_from(p, text@, fi0, pos0, sbtf, sbtp));
                    }
                    return false;
                }
                fi = fi + 1;
                pos = 0;
                proof {
                    assert(eval_from(p, text@, fi0, pos0, sbtf, sbtp) == eval_from(
                        p,
                        text@,
                        fi0 + 1,
                        0,
                        sbtf,
                        sbtp,
                    ));
                }
            },
            CompiledFilterToken::GoToLastElement => {
                if has_bt && fi == btf {
                    proof {
                        assert(!eval_from(p, text@, fi0, pos0, sbtf, sbtp));
                    }
                    return false;
                }
                fi = fi + 1;
                pos = last_off;
                proof {
                    assert(eval_from(p, text@, fi0, pos0, sbtf, sbtp) == eval_from(
                        p,
                        text@,
                        fi0 + 1,
                        last_elem_off(text@),
                        sbtf,
                        sbtp,
                    ));
                }
            },
            CompiledFilterToken::EnsureLastElement => {
                if has_bt && fi == btf {
                    proof {
                        assert(!eval_from(p, text@, fi0, pos0, sbtf, sbtp));
                    }
                    return false;
                }
                fi = fi + 1;
                if pos < last_off {
                    pos = last_off;
                }
                proof {
                    assert(eval_from(p, text@, fi0, pos0, sbtf, sbtp) == eval_from(
                        p,
                        text@,
                        fi0 + 1,
                        pos as int,
                        sbtf,
                        sbtp,
                    ));
                }
            },
            CompiledFilterToken::Glob(g, last) => {
                if has_bt && fi == btf {
                    proof {
                        assert(!eval_from(p, text@, fi0, pos0, sbtf, sbtp));
                    }
                    return false;
                }
                let cand = if *last {
                    vec_skip_chars(&cs, last_off)
                } else {
                    vec_skip_chars(&cs, 0)
                };
                proof {
                    if !*last {
                        assert(cs@.skip(0) =~= cs@);
                    }
                }
                if glob_is_match(g, &cand) {
                    fi = fi + 1;
                    proof {
                        assert(eval_from(p, text@, fi0, pos0, sbtf, sbtp) == eval_from(
                            p,
                            text@,
                            fi0 + 1,
                            pos0,
                            sbtf,
                            sbtp,
                        ));
                    }
                } else {
                    proof {
                        assert(!eval_from(p, text@, fi0, pos0, sbtf, sbtp));
                    }
                    return false;
                }
            },
            CompiledFilterToken::FindCaseSensitive(pat) => {
                if has_bt && fi == btf && pos <= btp {
                    proof {
                        assert(!eval_from(p, text@, fi0, pos0, sbtf, sbtp));
                    }
                    return false;
                }
                let pc = str_chars(pat.as_str());
                match find_cs_chars(&cs, pos, &pc) {
                    Some(ij) => {
                        has_bt = true;
                        btf = fi;
                        btp = pos;
                        fi = fi + 1;
                        pos = ij.1;
                        proof {
                            assert(eval_from(p, text@, fi0, pos0, sbtf, sbtp) == eval_from(
                                p,
                                text@,
                                fi0 + 1,
                                pos as int,
                                fi0,
                                pos0,
                            ));
                        }
                    },
                    None => {
                        proof {
                            assert(!eval_from(p, text@, fi0, pos0, sbtf, sbtp));
                        }
                        return false;
                    },
                }
            },
            CompiledFilterToken::FindCaseInsensitive(pat) => {
                if has_bt && fi == btf && pos <= btp {
                    proof {
                        assert(!eval_from(p, text@, fi0, pos0, sbtf, sbtp));
                    }
                    return false;
                }
                let pc = str_chars(pat.as_str());
                match find_ci_chars(&cs, pos, &pc) {
                    Some(ij) => {
                        has_bt = true;
                        btf = fi;
                        btp = pos;
                        fi = fi + 1;
                        pos = ij.1;
                        proof {
                            assert(eval_from(p, text@, fi0, pos0, sbtf, sbtp) == eval_from(
                                p,
                                text@,
                                fi0 + 1,
                                pos as int,
                                fi0,
                                pos0,
                            ));
                        }
                    },
                    None => {
                        proof {
                            assert(!eval_from(p, text@, fi0, pos0, sbtf, sbtp));
                        }
                        return false;
                    },
                }
            },
            CompiledFilterToken::FindWordStartBoundary => {
                if has_bt && fi == btf && pos <= btp {
                    proof {
                        assert(!eval_from(p, text@, fi0, pos0, sbtf, sbtp));
                    }
                    return false;
                }
                match find_word_start_chars(&cs, pos) {
                    Some(i) => {
                        has_bt = true;
                        btf = fi;
                        btp = pos;
                        fi = fi + 1;
                        pos = i;
                        proof {
                            assert(eval_from(p, text@, fi0, pos0, sbtf, sbtp) == eval_from(
                                p,
                                text@,
                                fi0 + 1,
                                pos as int,
                                fi0,
                                pos0,
                            ));
                        }
                    },
                    None => {
                        proof {
                            assert(!eval_from(p, text@, fi0, pos0, sbtf, sbtp));
                        }
                        return false;
                    },
                }
            },
            CompiledFilterToken::SkipSmartSpace => {
                if has_bt && fi == btf {
                    proof {
                        assert(!eval_from(p, text@, fi0, pos0, sbtf, sbtp));
                    }
                    return false;
                }
                pos = skip_smart_chars(&cs, pos);
                fi = fi + 1;
                proof {
                    assert(eval_from(p, text@, fi0, pos0, sbtf, sbtp) == eval_from(
                        p,
                        text@,
                        fi0 + 1,
                        pos as int,
                        sbtf,
                        sbtp,
                    ));
                }
            },
            CompiledFilterToken::ExpectCaseSensitive(pat) => {
                if has_bt && fi == btf {
                    proof {
                        assert(!eval_from(p, text@, fi0, pos0, sbtf, sbtp));
                    }
                    return false;
                }
                let pc = str_chars(pat.as_str());
                match tag_cs_chars(&cs, pos, &pc) {
                    Some(e) => {
                        fi = fi + 1;
                        pos = e;
                        proof {
                            assert(eval_from(p, text@, fi0, pos0, sbtf, sbtp) == eval_from(
                                p,
                                text@,
                                fi0 + 1,
                                pos as int,
                                sbtf,
                                sbtp,
                            ));
                        }
                    },
                    None => {
                        if !has_bt || btp >= hn {
                            proof {
                                assert(!eval_from(p, text@, fi0, pos0, sbtf, sbtp));
                            }
                            return false;
                        }
                        fi = btf;
                        pos = btp + 1;
                        proof {
                            assert(eval_from(p, text@, fi0, pos0, sbtf, sbtp) == eval_from(
                                p,
                                text@,
                                sbtf,
                                sbtp + 1,
                                sbtf,
                                sbtp,
                            ));
                        }
                    },
                }
            },
            CompiledFilterToken::ExpectCaseInsensitive(pat) => {
                if has_bt && fi == btf {
                    proof {
                        assert(!eval_from(p, text@, fi0, pos0, sbtf, sbtp));
                    }
                    return false;
                }
                let pc = str_chars(pat.as_str());
                match tag_ci_chars(&cs, pos, &pc) {
                    Some(e) => {
                        fi = fi + 1;
                        pos = e;
                        proof {
                            assert(eval_from(p, text@, fi0, pos0, sbtf, sbtp) == eval_from(
                                p,
                                text@,
                                fi0 + 1,
                                pos as int,
                                sbtf,
                                sbtp,
                            ));
                        }
                    },
                    None => {
                        if !has_bt || btp >= hn {
                            proof {
                                assert(!eval_from(p, text@, fi0, pos0, sbtf, sbtp));
                            }
                            return false;
                        }
                        fi = btf;
                        pos = btp + 1;
                        proof {
                            assert(eval_from(p, text@, fi0, pos0, sbtf, sbtp) == eval_from(
                                p,
                                text@,
                                sbtf,
                                sbtp + 1,
                                sbtf,
                                sbtp,
                            ));
                        }
                    },
                }
            },
            CompiledFilterToken::ExpectWordEndBoundary => {
                if has_bt && fi == btf {
                    proof {
                        assert(!eval_from(p, text@, fi0, pos0, sbtf, sbtp));
                    }
                    return false;
                }
                if tag_word_end_chars(&cs, pos) {
                    fi = fi + 1;
                    proof {
                        assert(eval_from(p, text@, fi0, pos0, sbtf, sbtp) == eval_from(
                            p,
                            text@,
                            fi0 + 1,
                            pos0,
                            sbtf,
                            sbtp,
                        ));
                    }
                } else {
                    if !has_bt || btp >= hn {
                        proof {
                            assert(!eval_from(p, text@, fi0, pos0, sbtf, sbtp));
                        }
                        return false;
                    }
                    fi = btf;
                    pos = btp + 1;
                    proof {
                        assert(eval_from(p, text@, fi0, pos0, sbtf, sbtp) == eval_from(
                            p,
                            text@,
                            sbtf,
                            sbtp + 1,
                            sbtf,
                            sbtp,
                        ));
                    }
                }
            },
        }
    }
}

} // verus!

verus! {

/// The texts of a fragment list.
pub open spec fn frags_view(s: Seq<Vec<char>>) -> Seq<Seq<char>> {
    s.map(|i: int, f: Vec<char>| f@)
}

/// Whether the text holds a glob metacharacter.
fn has_meta_chars(v: &Vec<char>) -> (r: bool)
    ensures
        r == has_glob_meta(v@),
{
    let n = v.len();
    let mut i: usize = 0;
    while i < n
        invariant
            i <= n == v@.len(),
            forall|j: int| 0 <= j < i ==> !is_glob_meta(v@[j]),
        decreases n - i,
    {
        let c = v[i];
        if c == '*' || c == '?' || c == '[' || c == ']' || c == '{' || c == '}' {
            return true;
        }
        i = i + 1;
    }
    false
}

/// Split a text on space, minus and underscore, discarding empty fragments.
fn split_smart(v: &Vec<char>) -> (r: Vec<Vec<char>>)
    ensures
        frags_view(r@) == split_acc(v@, 0, Seq::empty()),
{
    let n = v.len();
    let mut out: Vec<Vec<char>> = Vec::new();
    let mut cur: Vec<char> = Vec::new();
    let mut i: usize = 0;
    proof {
        assert(frags_view(out@) =~= Seq::<Seq<char>>::empty());
    }
    while i < n
        invariant
            i <= n == v@.len(),
            split_acc(v@, 0, Seq::empty()) == frags_view(out@) + split_acc(
                v@,
                i as int,
                cur@,
            ),
        decreases n - i,
    {
        let ghost out0 = out@;
        let ghost cur0 = cur@;
        let c = v[i];
        if c == ' ' || c == '-' || c == '_' {
            if cur.len() > 0 {
                out.push(cur);
                cur = Vec::new();
                proof {
                    assert(frags_view(out@) =~= frags_view(out0) + seq![cur0]);
                }
            }
            proof {
                assert(cur@ =~= Seq::<char>::empty());
                assert(split_acc(v@, i as int, cur0) == (if cur0.len() == 0 {
                    Seq::<Seq<char>>::empty()
                } else {
                    seq![cur0]
                }) + split_acc(v@, i + 1, Seq::empty()));
                assert(frags_view(out0) + split_acc(v@, i as int, cur0) =~= frags_view(out@)
                    + split_acc(v@, i + 1, Seq::empty()));
            }
        } else {
            cur.push(c);
            proof {
                assert(cur@ =~= cur0.push(v@[i as int]));
                assert(split_acc(v@, i as int, cur0) == split_acc(v@, i + 1, cur0.push(v@[i as int])));
            }
        }
        i = i + 1;
        proof {
            assert(split_acc(v@, 0, Seq::empty()) == frags_view(out@) + split_acc(
                v@,
                i as int,
                cur@,
            ));
        }
    }
    if cur.len() > 0 {
        let ghost out1 = out@;
        let ghost cur1 = cur@;
        out.push(cur);
        proof {
            assert(frags_view(out@) =~= frags_view(out1) + seq![cur1]);
        }
    }
    proof {
        assert(frags_view(out@) =~= split_acc(v@, 0, Seq::empty()));
    }
    out
}

/// Translate a token list, under the defaults of a configuration, into a
/// program of matching instructions.
///
/// The result is exactly what [`compile_spec`] gives: the program, the
/// trivial-query error when no text contributed an instruction, or the glob
/// error with the offending pattern.  A glob text longer than
/// [`GLOB_PATTERN_MAX`] characters is rejected as a glob error before
/// globset ever sees it.
pub fn compile(filter: &[FilterToken], config: &LocateConfig) -> (r: Result<
    CompiledFilter,
    LocateError,
>)
    ensures
        match r {
            Ok(cf) => compile_spec(filter@, *config) == Ok::<Seq<SpecTok>, CompileError>(cf@),
            Err(e) => match e {
                LocateError::Trivial => compile_spec(filter@, *config) == Err::<
                    Seq<SpecTok>,
                    CompileError,
                >(CompileError::Trivial),
                LocateError::GlobPatternError(pat, _) => compile_spec(filter@, *config) == Err::<
                    Seq<SpecTok>,
                    CompileError,
                >(CompileError::BadGlob(pat@)),
                _ => false,
            },
        },
{
    let mut options = Options::new(config);
    let mut compiled = CompiledFilter { token: Vec::new() };
    let mut mode: Mode = config.mode;
    let mut nothing: bool = true;
    let flen = filter.len();
    let mut i: usize = 0;
    proof {
        assert(filter@.skip(0) =~= filter@);
        assert(prog_view(compiled.token@) =~= Seq::<SpecTok>::empty());
    }
    while i < flen
        invariant
            flen == filter@.len(),
            i <= flen,
            compile_spec(filter@, *config) == compile_from(
                filter@.skip(i as int),
                options,
                mode,
                nothing,
                prog_view(compiled.token@),
            ),
        decreases flen - i,
    {
        let ghost pre_toks = filter@.skip(i as int);
        let ghost opts0 = options;
        let ghost mode0 = mode;
        let ghost nothing0 = nothing;
        let ghost base = prog_view(compiled.token@);
        proof {
            assert(pre_toks[0] == filter@[i as int]);
            assert(pre_toks.drop_first() =~= filter@.skip(i as int + 1));
        }
        let tok = slice_index_get(filter, i);
        match tok {
            FilterToken::Text(text) => {
                let tcs = str_chars(text.as_str());
                let em: Mode = if mode == Mode::Auto {
                    if has_meta_chars(&tcs) {
                        Mode::Glob
                    } else {
                        Mode::Plain
                    }
                } else {
                    mode
                };
                if em == Mode::Plain {
                    let emitted = emit_plain_text(&mut compiled, &tcs, &options);
                    if emitted {
                        nothing = false;
                    }
                    proof {
                        let fv = frags_of(text@, opts0.smart_spaces);
                        assert(compile_from(pre_toks, opts0, mode0, nothing0, base)
                            == compile_from(
                            filter@.skip(i as int + 1),
                            opts0,
                            mode0,
                            nothing0 && fv.len() == 0,
                            base + text_prog(fv, opts0),
                        ));
                        assert(nothing == (nothing0 && fv.len() == 0));
                    }
                } else {
                    if tcs.len() > GLOB_PATTERN_MAX {
                        // globset's matcher construction is only total below
                        // the bound; longer patterns are rejected here.
                        proof {
                            assert(compile_from(pre_toks, opts0, mode0, nothing0, base)
                                == Err::<Seq<SpecTok>, CompileError>(
                                CompileError::BadGlob(text@),
                            ));
                        }
                        return Err(
                            LocateError::GlobPatternError(
                                text.clone(),
                                "glob pattern too long".to_owned(),
                            ),
                        );
                    }
                    if options.last_element {
                        compiled.token.push(CompiledFilterToken::GoToLastElement);
                    }
                    let ghost scope: Seq<SpecTok> = if opts0.last_element {
                        seq![SpecTok::GoLast]
                    } else {
                        Seq::<SpecTok>::empty()
                    };
                    proof {
                        assert(prog_view(compiled.token@) =~= base + scope);
                    }
                    match build_glob(
                        text.as_str(),
                        options.case_sensitive,
                        options.literal_separator,
                    ) {
                        Ok(g) => {
                            compiled.token.push(
                                CompiledFilterToken::Glob(g, options.last_element),
                            );
                            nothing = false;
                            proof {
                                assert(prog_view(compiled.token@) =~= base + scope + seq![
                                    SpecTok::Glob {
                                        pattern: text@,
                                        ci: opts0.case_sensitive,
                                        lit_sep: opts0.literal_separator,
                                        last: opts0.last_element,
                                    },
                                ]);
                                assert(compile_from(pre_toks, opts0, mode0, nothing0, base)
                                    == compile_from(
                                    filter@.skip(i as int + 1),
                                    opts0,
                                    mode0,
                                    false,
                                    prog_view(compiled.token@),
                                ));
                            }
                        },
                        Err(msg) => {
                            proof {
                                assert(compile_from(pre_toks, opts0, mode0, nothing0, base)
                                    == Err::<Seq<SpecTok>, CompileError>(
                                    CompileError::BadGlob(text@),
                                ));
                            }
                            return Err(LocateError::GlobPatternError(text.clone(), msg));
                        },
                    }
                }
            },
            FilterToken::CaseSensitive => {
                options.case_sensitive = true;
                proof {
                    assert(options == Options { case_sensitive: true, ..opts0 });
                }
            },
            FilterToken::CaseInSensitive => {
                options.case_sensitive = false;
                proof {
                    assert(options == Options { case_sensitive: false, ..opts0 });
                }
            },
            FilterToken::AnyOrder => {
                options.same_order = false;
                proof {
                    assert(options == Options { same_order: false, ..opts0 });
                }
            },
            FilterToken::SameOrder => {
                options.same_order = true;
                proof {
                    assert(options == Options { same_order: true, ..opts0 });
                }
            },
            FilterToken::WholePath => {
                options.last_element = false;
                proof {
                    assert(options == Options { last_element: false, ..opts0 });
                }
            },
            FilterToken::LastElement => {
                options.last_element = true;
                proof {
                    assert(options == Options { last_element: true, ..opts0 });
                }
            },
            FilterToken::SmartSpaces(on) => {
                options.smart_spaces = *on;
                proof {
                    assert(options == Options { smart_spaces: *on, ..opts0 });
                }
            },
            FilterToken::LiteralSeparator(on) => {
                options.literal_separator = *on;
                proof {
                    assert(options == Options { literal_separator: *on, ..opts0 });
                }
            },
            FilterToken::WordBoundary(on) => {
                options.word_boundaries = *on;
                proof {
                    assert(options == Options { word_boundaries: *on, ..opts0 });
                }
            },
            FilterToken::Auto => {
                mode = Mode::Auto;
            },
            FilterToken::Plain => {
                mode = Mode::Plain;
            },
            FilterToken::Glob => {
                mode = Mode::Glob;
            },
        }
        i = i + 1;
    }
    proof {
        assert(filter@.skip(flen as int) =~= Seq::<FilterToken>::empty());
    }
    if nothing {
        return Err(LocateError::Trivial);
    }
    Ok(compiled)
}


/// Emit the instructions of one plain text: scope setup, the find of the
/// first fragment, skip-and-expect pairs for the rest, and the word-end
/// check; report whether any fragment contributed an instruction.
#[verifier::rlimit(100)]
fn emit_plain_text(compiled: &mut CompiledFilter, tcs: &Vec<char>, options: &Options) -> (emitted:
    bool)
    ensures
        prog_view(final(compiled).token@) == prog_view(old(compiled).token@) + text_prog(
            frags_of(tcs@, options.smart_spaces),
            *options,
        ),
        emitted == (frags_of(tcs@, options.smart_spaces).len() > 0),
{
    let ghost base = prog_view(compiled.token@);
    if options.same_order {
        if options.last_element {
            compiled.token.push(CompiledFilterToken::EnsureLastElement);
        }
    } else if options.last_element {
        compiled.token.push(CompiledFilterToken::GoToLastElement);
    } else {
        compiled.token.push(CompiledFilterToken::GoToStart);
    }
    proof {
        assert(prog_view(compiled.token@) =~= base + scope_prog(*options));
    }
    let frags: Vec<Vec<char>> = if options.smart_spaces {
        split_smart(tcs)
    } else {
        let mut single: Vec<Vec<char>> = Vec::new();
        single.push(vec_skip_chars(tcs, 0));
        single
    };
    let ghost fv = frags_view(frags@);
    proof {
        if options.smart_spaces {
            assert(fv == frags_of(tcs@, true));
        } else {
            assert(tcs@.skip(0) =~= tcs@);
            assert(fv =~= seq![tcs@]);
            assert(fv == frags_of(tcs@, false));
        }
    }
    let fcount = frags.len();
    let cs_flag = options.case_sensitive;
    let wb = options.word_boundaries;
    if fcount > 0 {
        let frag0 = &frags[0];
        proof {
            assert(frag0@ == fv[0]);
        }
        if wb {
            compiled.token.push(CompiledFilterToken::FindWordStartBoundary);
            if cs_flag {
                let payload = chars_to_string(frag0);
                compiled.token.push(CompiledFilterToken::ExpectCaseSensitive(payload));
            } else {
                let up = upper_vec(frag0);
                let payload = chars_to_string(&up);
                compiled.token.push(CompiledFilterToken::ExpectCaseInsensitive(payload));
            }
        } else {
            if cs_flag {
                let payload = chars_to_string(frag0);
                compiled.token.push(CompiledFilterToken::FindCaseSensitive(payload));
            } else {
                let up = upper_vec(frag0);
                let payload = chars_to_string(&up);
                compiled.token.push(CompiledFilterToken::FindCaseInsensitive(payload));
            }
        }
        let ghost head: Seq<SpecTok> = if wb {
            seq![SpecTok::FindWsb, exp_tok(fv[0], cs_flag)]
        } else {
            seq![find_tok(fv[0], cs_flag)]
        };
        proof {
            assert(prog_view(compiled.token@) =~= base + scope_prog(*options) + head);
            assert(fv.subrange(1, 1) =~= Seq::<Seq<char>>::empty());
            assert(rest_prog(Seq::<Seq<char>>::empty(), cs_flag) =~= Seq::<SpecTok>::empty());
        }
        let mut f: usize = 1;
        while f < fcount
            invariant
                1 <= f <= fcount == frags@.len(),
                fv == frags_view(frags@),
                prog_view(compiled.token@) =~= base + scope_prog(*options) + head + rest_prog(
                    fv.subrange(1, f as int),
                    cs_flag,
                ),
                cs_flag == options.case_sensitive,
            decreases fcount - f,
        {
            let fragf = &frags[f];
            proof {
                assert(fragf@ == fv[f as int]);
            }
            compiled.token.push(CompiledFilterToken::SkipSmartSpace);
            if cs_flag {
                let payload = chars_to_string(fragf);
                compiled.token.push(CompiledFilterToken::ExpectCaseSensitive(payload));
            } else {
                let up = upper_vec(fragf);
                let payload = chars_to_string(&up);
                compiled.token.push(CompiledFilterToken::ExpectCaseInsensitive(payload));
            }
            proof {
                lemma_rest_prog_snoc(fv, 1, f as int, cs_flag);
                assert(prog_view(compiled.token@) =~= (base + scope_prog(*options) + head
                    + rest_prog(fv.subrange(1, f as int), cs_flag)) + seq![
                    SpecTok::SkipSmart,
                    exp_tok(fv[f as int], cs_flag),
                ]);
                assert(prog_view(compiled.token@) =~= base + scope_prog(*options) + head
                    + rest_prog(fv.subrange(1, f + 1), cs_flag));
            }
            f = f + 1;
        }
        proof {
            assert(fv.subrange(1, fcount as int) =~= fv.drop_first());
            assert(prog_view(compiled.token@) =~= base + scope_prog(*options) + head + rest_prog(
                fv.drop_first(),
                cs_flag,
            ));
        }
        if wb {
            compiled.token.push(CompiledFilterToken::ExpectWordEndBoundary);
            proof {
                assert(prog_view(compiled.token@) =~= (base + scope_prog(*options) + head
                    + rest_prog(fv.drop_first(), cs_flag)) + seq![SpecTok::ExpWeb]);
            }
        }
        proof {
            assert(text_prog(fv, *options) =~= scope_prog(*options) + (head + rest_prog(
                fv.drop_first(),
                cs_flag,
            )) + (if options.word_boundaries {
                seq![SpecTok::ExpWeb]
            } else {
                Seq::<SpecTok>::empty()
            }));
            assert(prog_view(compiled.token@) =~= base + text_prog(fv, *options));
        }
        true
    } else {
        if wb {
            compiled.token.push(CompiledFilterToken::ExpectWordEndBoundary);
        }
        proof {
            assert(text_prog(fv, *options) =~= scope_prog(*options) + (if options.word_boundaries {
                seq![SpecTok::ExpWeb]
            } else {
                Seq::<SpecTok>::empty()
            }));
            assert(prog_view(compiled.token@) =~= base + text_prog(fv, *options));
        }
        false
    }
}

/// Extending the middle fragments by one appends its two instructions.
proof fn lemma_rest_prog_snoc(fv: Seq<Seq<char>>, lo: int, f: int, cs: bool)
    requires
        0 <= lo <= f < fv.len(),
    ensures
        rest_prog(fv.subrange(lo, f + 1), cs) == rest_prog(fv.subrange(lo, f), cs) + seq![
            SpecTok::SkipSmart,
            exp_tok(fv[f], cs),
        ],
    decreases f - lo,
{
    if lo == f {
        assert(fv.subrange(lo, f) =~= Seq::<Seq<char>>::empty());
        assert(fv.subrange(lo, f + 1) =~= seq![fv[f]]);
        assert(seq![fv[f]].drop_first() =~= Seq::<Seq<char>>::empty());
        assert(rest_prog(Seq::<Seq<char>>::empty(), cs) =~= Seq::<SpecTok>::empty());
        assert(rest_prog(fv.subrange(lo, f + 1), cs) =~= seq![
            SpecTok::SkipSmart,
            exp_tok(fv[f], cs),
        ]);
        assert(rest_prog(fv.subrange(lo, f), cs) + seq![
            SpecTok::SkipSmart,
            exp_tok(fv[f], cs),
        ] =~= seq![SpecTok::SkipSmart, exp_tok(fv[f], cs)]);
    } else {
        let a = fv.subrange(lo, f + 1);
        let b = fv.subrange(lo, f);
        assert(a[0] == fv[lo]);
        assert(b[0] == fv[lo]);
        assert(a.drop_first() =~= fv.subrange(lo + 1, f + 1));
        assert(b.drop_first() =~= fv.subrange(lo + 1, f));
        lemma_rest_prog_snoc(fv, lo + 1, f, cs);
        assert(rest_prog(a, cs) =~= rest_prog(b, cs) + seq![
            SpecTok::SkipSmart,
            exp_tok(fv[f], cs),
        ]);
    }
}

} // verus!
