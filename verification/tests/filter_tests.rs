use fsidx::config::LocateConfig;
use fsidx::filter::apply;
use fsidx::filter::compile;
use fsidx::filter::CompiledFilter;
use fsidx::filter::CompiledFilterToken;
use fsidx::filter::FilterToken;
use fsidx::glob::GLOB_PATTERN_MAX;
use fsidx::locate::LocateError;

static S0: &str = "/ABCDEF";
static S1: &str = "/ABC/DEFGHIJKLMN/OPQRSTUVWXYZ/eins";
static S2: &str = "/abc/defghijklmn/opqrstuvwxyz/zwei";
static S3: &str = "/AbCdEfGh/IjKlMn/OpQrStUvWxYz/drei";
static S4: &str = "OpQrStUvWxYz/IjKlMn/AbCdEfGh/vier";
static S5: &str = "/klmn";
static S6: &str = "/xyz";
static S7: &str = "/path/to/hidden/.file.txt";

static DATA: [&str; 8] = [S0, S1, S2, S3, S4, S5, S6, S7];

fn process(flt: &[FilterToken]) -> Vec<String> {
    let config = LocateConfig::default();
    let flt = compile(flt, &config).unwrap();
    DATA.iter()
        .filter(|entry: &&&str| apply(entry, &flt))
        .map(|x: &&str| String::from(*x))
        .collect()
}

static EMPTY: [&str; 0] = [];

fn t(s: &str) -> FilterToken {
    FilterToken::Text(String::from(s))
}

#[test]
fn nothing_with_empty_string() {
    let config = LocateConfig::default();
    assert!(matches!(
        compile(&[t("")], &config),
        Err(LocateError::Trivial)
    ));
}

#[test]
fn nothing_with_empty_list() {
    let config = LocateConfig::default();
    assert!(matches!(compile(&[], &config), Err(LocateError::Trivial)));
}

#[test]
fn default() {
    assert_eq!(process(&[t("Y"), t("G"), t("A")]), [S1, S2, S3, S4]);
}

#[test]
fn case_insensitive_any_order_whole_path() {
    assert_eq!(
        process(&[
            FilterToken::CaseInSensitive,
            FilterToken::AnyOrder,
            FilterToken::WholePath,
            t("Y"),
            t("A"),
            t("G")
        ]),
        [S1, S2, S3, S4]
    );
    assert_eq!(
        process(&[
            FilterToken::CaseInSensitive,
            FilterToken::AnyOrder,
            FilterToken::WholePath,
            t("a"),
            t("a"),
            t("g")
        ]),
        [S1, S2, S3, S4]
    );
}

#[test]
fn case_sensitive_any_order_whole_path() {
    assert_eq!(
        process(&[
            FilterToken::CaseSensitive,
            FilterToken::AnyOrder,
            FilterToken::WholePath,
            t("Y"),
            t("A"),
            t("G")
        ]),
        [S1, S3, S4]
    );
    assert_eq!(
        process(&[
            FilterToken::CaseSensitive,
            FilterToken::AnyOrder,
            FilterToken::WholePath,
            t("y"),
            t("A"),
            t("G")
        ]),
        EMPTY
    );
}

#[test]
fn case_insensitive_same_order_whole_path() {
    assert_eq!(
        process(&[
            FilterToken::CaseInSensitive,
            FilterToken::SameOrder,
            FilterToken::WholePath,
            t("Y"),
            t("A"),
            t("G")
        ]),
        [S4]
    );
    assert_eq!(
        process(&[
            FilterToken::CaseInSensitive,
            FilterToken::SameOrder,
            FilterToken::WholePath,
            t("y"),
            t("a"),
            t("g")
        ]),
        [S4]
    );
}

#[test]
fn case_sensitive_same_order_whole_path() {
    assert_eq!(
        process(&[
            FilterToken::CaseSensitive,
            FilterToken::SameOrder,
            FilterToken::WholePath,
            t("Y"),
            t("A"),
            t("G")
        ]),
        [S4]
    );
    assert_eq!(
        process(&[
            FilterToken::CaseSensitive,
            FilterToken::SameOrder,
            FilterToken::WholePath,
            t("Y"),
            t("a"),
            t("G")
        ]),
        EMPTY
    );
}

#[test]
fn case_insensitive_any_order_last_component() {
    assert_eq!(
        process(&[
            FilterToken::CaseInSensitive,
            FilterToken::AnyOrder,
            FilterToken::LastElement,
            t("e"),
            t("d")
        ]),
        [S0, S3]
    );
    assert_eq!(
        process(&[
            FilterToken::CaseInSensitive,
            FilterToken::AnyOrder,
            FilterToken::LastElement,
            t("E"),
            t("d")
        ]),
        [S0, S3]
    );
}

#[test]
fn case_sensitive_any_order_last_component() {
    assert_eq!(
        process(&[
            FilterToken::CaseSensitive,
            FilterToken::AnyOrder,
            FilterToken::LastElement,
            t("e"),
            t("d")
        ]),
        [S3]
    );
    assert_eq!(
        process(&[
            FilterToken::CaseSensitive,
            FilterToken::AnyOrder,
            FilterToken::LastElement,
            t("E"),
            t("D")
        ]),
        [S0]
    );
}

#[test]
fn case_insensitive_same_order_last_component() {
    assert_eq!(
        process(&[
            FilterToken::CaseInSensitive,
            FilterToken::SameOrder,
            FilterToken::LastElement,
            t("e"),
            t("d")
        ]),
        EMPTY
    );
    assert_eq!(
        process(&[
            FilterToken::CaseInSensitive,
            FilterToken::SameOrder,
            FilterToken::LastElement,
            t("d"),
            t("e")
        ]),
        [S0, S3]
    );
    assert_eq!(
        process(&[
            FilterToken::CaseInSensitive,
            FilterToken::SameOrder,
            FilterToken::LastElement,
            t("d"),
            t("E")
        ]),
        [S0, S3]
    );
}

#[test]
fn case_sensitive_same_order_last_component() {
    assert_eq!(
        process(&[
            FilterToken::CaseSensitive,
            FilterToken::SameOrder,
            FilterToken::LastElement,
            t("e"),
            t("d")
        ]),
        EMPTY
    );
    assert_eq!(
        process(&[
            FilterToken::CaseSensitive,
            FilterToken::SameOrder,
            FilterToken::LastElement,
            t("d"),
            t("e")
        ]),
        [S3]
    );
    assert_eq!(
        process(&[
            FilterToken::CaseSensitive,
            FilterToken::SameOrder,
            FilterToken::LastElement,
            t("e"),
            t("d")
        ]),
        EMPTY
    );
    assert_eq!(
        process(&[
            FilterToken::CaseSensitive,
            FilterToken::SameOrder,
            FilterToken::LastElement,
            t("D"),
            t("E")
        ]),
        [S0]
    );
    assert_eq!(
        process(&[
            FilterToken::CaseSensitive,
            FilterToken::SameOrder,
            FilterToken::LastElement,
            t("E"),
            t("D")
        ]),
        EMPTY
    );
}

#[test]
fn continue_after_last_match() {
    let config = LocateConfig::default();
    assert_eq!(
        apply(
            "foo bar",
            &compile(&[FilterToken::SameOrder, t("foo")], &config).unwrap()
        ),
        true
    );
    assert_eq!(
        apply(
            "foo bar",
            &compile(&[FilterToken::SameOrder, t("foo"), t("foo")], &config).unwrap()
        ),
        false
    );
    assert_eq!(
        apply(
            "foo bar baz",
            &compile(&[FilterToken::SameOrder, t("foo"), t("baz")], &config).unwrap()
        ),
        true
    );
    assert_eq!(
        apply("foo bar baz", &compile(&[t("foo baz")], &config).unwrap()),
        false
    );
    assert_eq!(
        apply("fOO bar baZ", &compile(&[t("Foo Bar")], &config).unwrap()),
        true
    );
    assert_eq!(
        apply("foo foo", &compile(&[t("foo foo")], &config).unwrap()),
        true
    );
    assert_eq!(
        apply("foo bar", &compile(&[t("foo foo")], &config).unwrap()),
        false
    );
    assert_eq!(
        apply("foo-foo", &compile(&[t("foo foo")], &config).unwrap()),
        true
    );
    assert_eq!(
        apply("foo_foo", &compile(&[t("foo foo")], &config).unwrap()),
        true
    );
}

#[test]
fn smart_space() {
    let config = LocateConfig::default();
    assert_eq!(
        apply(
            "foo bar abc baz",
            &compile(&[t("foo baz")], &config).unwrap()
        ),
        false
    );
    assert_eq!(
        apply(
            "foo bar abc baz",
            &compile(&[t("bar abc")], &config).unwrap()
        ),
        true
    );
    assert_eq!(
        apply(
            "foo-bar-abc-baz",
            &compile(&[t("bar abc")], &config).unwrap()
        ),
        true
    );
    assert_eq!(
        apply(
            "foo_bar_abc_baz",
            &compile(&[t("bar abc")], &config).unwrap()
        ),
        true
    );
    assert_eq!(
        apply(
            "foo_bar_abc_baz",
            &compile(&[t("bar-abc")], &config).unwrap()
        ),
        true
    );
    assert_eq!(
        apply(
            "foo bar abc baz",
            &compile(&[t("bar_abc")], &config).unwrap()
        ),
        true
    );
}

#[test]
fn retry_on_failure_with_next() {
    let config = LocateConfig::default();
    assert_eq!(
        apply("foo bar baz", &compile(&[t("b-a-r")], &config).unwrap()),
        true
    );
    assert_eq!(
        apply("foo baz bar", &compile(&[t("b-a-r")], &config).unwrap()),
        true
    );
    assert_eq!(
        apply("foo baz bax", &compile(&[t("b-a-r")], &config).unwrap()),
        false
    );
}

#[test]
fn back_tracking_skip_multibyte_characters() {
    let config = LocateConfig::default();
    let text = "a\u{308}aäa"; //  [61, CC, 88, 61, C3, A4, 61]
    assert_eq!(apply(text, &compile(&[t("a-b")], &config).unwrap()), false);
}

#[test]
fn compile_text_with_spaces() {
    let config = LocateConfig::default();
    let actual = compile(&[t("a b c d"), t("e")], &config).unwrap();
    let expected = CompiledFilter {
        token: vec![
            CompiledFilterToken::GoToStart,
            CompiledFilterToken::FindCaseInsensitive("A".to_string()),
            CompiledFilterToken::SkipSmartSpace,
            CompiledFilterToken::ExpectCaseInsensitive("B".to_string()),
            CompiledFilterToken::SkipSmartSpace,
            CompiledFilterToken::ExpectCaseInsensitive("C".to_string()),
            CompiledFilterToken::SkipSmartSpace,
            CompiledFilterToken::ExpectCaseInsensitive("D".to_string()),
            CompiledFilterToken::GoToStart,
            CompiledFilterToken::FindCaseInsensitive("E".to_string()),
        ],
    };
    check_compiled_filter(actual, expected);
}

#[test]
fn remove_empty_strings_after_expanding_smart_spaces() {
    let config = LocateConfig::default();
    let actual = compile(&[t("- a-b c- -d -")], &config).unwrap();
    let expected = CompiledFilter {
        token: vec![
            CompiledFilterToken::GoToStart,
            CompiledFilterToken::FindCaseInsensitive("A".to_string()),
            CompiledFilterToken::SkipSmartSpace,
            CompiledFilterToken::ExpectCaseInsensitive("B".to_string()),
            CompiledFilterToken::SkipSmartSpace,
            CompiledFilterToken::ExpectCaseInsensitive("C".to_string()),
            CompiledFilterToken::SkipSmartSpace,
            CompiledFilterToken::ExpectCaseInsensitive("D".to_string()),
        ],
    };
    check_compiled_filter(actual, expected);
}

fn check_compiled_filter(actual: CompiledFilter, expected: CompiledFilter) {
    assert_eq!(actual.token.len(), expected.token.len());
    for (idx, (a, b)) in expected.token.iter().zip(actual.token.iter()).enumerate() {
        let ok = match (a, b) {
            (CompiledFilterToken::GoToStart, CompiledFilterToken::GoToStart) => true,
            (CompiledFilterToken::GoToLastElement, CompiledFilterToken::GoToLastElement) => true,
            (CompiledFilterToken::Glob(_a1, a2), CompiledFilterToken::Glob(_b1, b2)) => a2 == b2,
            (
                CompiledFilterToken::FindCaseInsensitive(a),
                CompiledFilterToken::FindCaseInsensitive(b),
            ) => a == b,
            (
                CompiledFilterToken::FindCaseSensitive(a),
                CompiledFilterToken::FindCaseSensitive(b),
            ) => a == b,
            (
                CompiledFilterToken::FindWordStartBoundary,
                CompiledFilterToken::FindWordStartBoundary,
            ) => true,
            (CompiledFilterToken::SkipSmartSpace, CompiledFilterToken::SkipSmartSpace) => true,
            (
                CompiledFilterToken::ExpectCaseInsensitive(a),
                CompiledFilterToken::ExpectCaseInsensitive(b),
            ) => a == b,
            (
                CompiledFilterToken::ExpectCaseSensitive(a),
                CompiledFilterToken::ExpectCaseSensitive(b),
            ) => a == b,
            (
                CompiledFilterToken::ExpectWordEndBoundary,
                CompiledFilterToken::ExpectWordEndBoundary,
            ) => true,
            (_, _) => false,
        };
        assert!(ok, "Element {idx} not as expected");
    }
}

#[test]
fn glob_star() {
    assert_eq!(process(&[FilterToken::Glob, t("*i")]), [S2, S3]);
}

#[test]
fn glob_recursive_wildcard() {
    assert_eq!(
        process(&[
            FilterToken::Glob,
            FilterToken::LiteralSeparator(false),
            t("/**/*s")
        ]),
        [S1]
    );
}

#[test]
fn glob_question_mark() {
    assert_eq!(process(&[FilterToken::Glob, t("*/???i")]), [S2, S3]);
}

#[test]
fn glob_require_literal_separator() {
    assert_eq!(
        process(&[
            FilterToken::Glob,
            FilterToken::LiteralSeparator(false),
            t("/*i")
        ]),
        [S2, S3]
    );
    assert_eq!(
        process(&[
            FilterToken::Glob,
            FilterToken::LiteralSeparator(true),
            t("/*i")
        ]),
        EMPTY
    );
    assert_eq!(
        process(&[
            FilterToken::Glob,
            FilterToken::LiteralSeparator(true),
            t("/*/*/*/*i")
        ]),
        [S2, S3]
    );
    assert_eq!(
        process(&[
            FilterToken::Glob,
            FilterToken::LiteralSeparator(true),
            t("/**/*i")
        ]),
        [S2, S3]
    );
    assert_eq!(
        process(&[
            FilterToken::Glob,
            FilterToken::LiteralSeparator(true),
            t("/**/eins")
        ]),
        [S1]
    );
}

#[test]
fn switching_between_whole_path_and_last_element_position_modes() {
    assert_eq!(
        process(&[
            FilterToken::SameOrder,
            FilterToken::LastElement,
            t("z"),
            FilterToken::WholePath,
            t("wei")
        ]),
        [S2]
    );
    assert_eq!(
        process(&[
            FilterToken::SameOrder,
            FilterToken::LastElement,
            t("z"),
            FilterToken::WholePath,
            t("x")
        ]),
        EMPTY
    );
    assert_eq!(
        process(&[
            FilterToken::SameOrder,
            FilterToken::WholePath,
            t("x"),
            FilterToken::LastElement,
            t("zwei")
        ]),
        [S2]
    );
    assert_eq!(
        process(&[
            FilterToken::SameOrder,
            FilterToken::WholePath,
            t("zw"),
            FilterToken::LastElement,
            t("ei")
        ]),
        [S2]
    );
    assert_eq!(
        process(&[
            FilterToken::SameOrder,
            FilterToken::WholePath,
            t("zwe"),
            FilterToken::LastElement,
            t("ei")
        ]),
        EMPTY
    );
}

#[test]
fn glob_on_last_element_only() {
    assert_eq!(
        process(&[FilterToken::Glob, FilterToken::LastElement, t("*.txt")]),
        [S7]
    );
    assert_eq!(
        process(&[FilterToken::Glob, FilterToken::WholePath, t("*.txt")]),
        [S7]
    );
    assert_eq!(
        process(&[
            FilterToken::Glob,
            FilterToken::WholePath,
            FilterToken::LiteralSeparator(true),
            t("*.txt")
        ]),
        EMPTY
    );
}

#[test]
fn test_word_boundary() {
    let config = LocateConfig::default();
    assert_eq!(
        apply(
            "foobar",
            &compile(&[FilterToken::WordBoundary(true), t("foo")], &config).unwrap()
        ),
        false
    );
    assert_eq!(
        apply(
            "foobar",
            &compile(&[FilterToken::WordBoundary(true), t("bar")], &config).unwrap()
        ),
        false
    );
    assert_eq!(
        apply(
            "foo bar",
            &compile(&[FilterToken::WordBoundary(true), t("foo")], &config).unwrap()
        ),
        true
    );
    assert_eq!(
        apply(
            "foo bar",
            &compile(&[FilterToken::WordBoundary(true), t("bar")], &config).unwrap()
        ),
        true
    );
    assert_eq!(
        apply(
            "foo bar baz",
            &compile(&[FilterToken::WordBoundary(true), t("bar")], &config).unwrap()
        ),
        true
    );
    assert_eq!(
        apply(
            "foo bar baz",
            &compile(&[FilterToken::WordBoundary(true), t("ar")], &config).unwrap()
        ),
        false
    );
    assert_eq!(
        apply(
            "foo bar baz",
            &compile(&[FilterToken::WordBoundary(true), t("ba")], &config).unwrap()
        ),
        false
    );
    assert_eq!(
        apply(
            "FooBarBaz",
            &compile(&[FilterToken::WordBoundary(true), t("Bar")], &config).unwrap()
        ),
        true
    );
    assert_eq!(
        apply(
            "FooBarBaz",
            &compile(&[FilterToken::WordBoundary(true), t("Ba")], &config).unwrap()
        ),
        false
    );
    assert_eq!(
        apply(
            "FooBarBaz",
            &compile(&[FilterToken::WordBoundary(true), t("ar")], &config).unwrap()
        ),
        false
    );
    assert_eq!(
        apply(
            "abc123def456",
            &compile(&[FilterToken::WordBoundary(true), t("123")], &config).unwrap()
        ),
        true
    );
    assert_eq!(
        apply(
            "abc123def456",
            &compile(&[FilterToken::WordBoundary(true), t("def")], &config).unwrap()
        ),
        true
    );
    assert_eq!(
        apply(
            "abc123def456",
            &compile(&[FilterToken::WordBoundary(true), t("12")], &config).unwrap()
        ),
        false
    );
    assert_eq!(
        apply(
            "abc123def456",
            &compile(&[FilterToken::WordBoundary(true), t("23")], &config).unwrap()
        ),
        false
    );
    assert_eq!(
        apply(
            "abc123def456",
            &compile(&[FilterToken::WordBoundary(true), t("de")], &config).unwrap()
        ),
        false
    );
    assert_eq!(
        apply(
            "abc123def456",
            &compile(&[FilterToken::WordBoundary(true), t("ef")], &config).unwrap()
        ),
        false
    );
}

#[test]
fn utf8_slice() {
    let text = "öäüÄÖÜß";
    assert_eq!(text.len(), 14);
    assert_eq!(text.chars().count(), 7);
    let ch = text[0..].chars().next().unwrap();
    let len = ch.len_utf8();
    assert_eq!(len, 2);
    assert_eq!(text[2..].chars().next().unwrap(), 'ä');
}

#[test]
fn repeated_toggle_compiles_identically() {
    let config = LocateConfig::default();
    let once = compile(&[FilterToken::CaseSensitive, t("abc")], &config).unwrap();
    let twice = compile(
        &[
            FilterToken::CaseSensitive,
            FilterToken::CaseSensitive,
            t("abc"),
        ],
        &config,
    )
    .unwrap();
    check_compiled_filter(once, twice);
}

#[test]
fn huge_glob_patterns_fail_without_panicking() {
    let config = LocateConfig::default();

    // Large enough that globset's regex exceeds its internal size limit;
    // the compiler must report that as a pattern error.
    let big = "?".repeat(512 * 1024);
    match compile(&[FilterToken::Glob, t(&big)], &config) {
        Err(LocateError::GlobPatternError(pat, _cause)) => {
            assert_eq!(pat.len(), big.len());
        }
        _ => panic!("expected a glob pattern error"),
    }

    // Past the library's own bound the pattern is rejected before globset
    // ever sees it.
    let too_long = "a".repeat(GLOB_PATTERN_MAX + 1);
    match compile(&[FilterToken::Glob, t(&too_long)], &config) {
        Err(LocateError::GlobPatternError(pat, cause)) => {
            assert_eq!(pat.len(), too_long.len());
            assert_eq!(cause, "glob pattern too long".to_string());
        }
        _ => panic!("expected a glob pattern error"),
    }
}
