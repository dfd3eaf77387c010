use fsidx::find::find_case_insensitive;
use fsidx::find::find_case_sensitive;
use fsidx::find::find_word_start_boundary;
use fsidx::find::skip_character;
use fsidx::find::skip_smart_space;
use fsidx::find::tag_case_insensitive;
use fsidx::find::tag_case_sensitive;
use fsidx::find::tag_word_end_boundary;

#[test]
fn test_find_case_sensitive() {
    assert_eq!(find_case_sensitive("", 0, "foo"), None);
    assert_eq!(find_case_sensitive("foo", 0, ""), Some((0, 0)));
    assert_eq!(find_case_sensitive("foo foO foO", 0, "fOo"), None);
    assert_eq!(find_case_sensitive("foo foo", 0, "foo"), Some((0, 3)));
    assert_eq!(find_case_sensitive("foo foO foO", 0, "foO"), Some((4, 7)));
    assert_eq!(find_case_sensitive("foo foo foO", 0, "foO"), Some((8, 11)));
}

#[test]
fn test_find_case_sensitive_with_start_offset() {
    assert_eq!(find_case_sensitive("foo", 3, ""), Some((3, 3)));
    assert_eq!(find_case_sensitive("foo foO foO", 3, "fOo"), None);
    assert_eq!(find_case_sensitive("foo foo foo", 3, "foo"), Some((4, 7)));
    assert_eq!(find_case_sensitive("foo foO foO", 3, "foO"), Some((4, 7)));
    assert_eq!(find_case_sensitive("foo foo foO", 3, "foO"), Some((8, 11)));
}

#[test]
fn test_find_case_sensitive_multibyte() {
    assert_eq!(find_case_sensitive("ööö", 0, ""), Some((0, 0)));
    assert_eq!(find_case_sensitive("ööö ööÖ ööÖ", 0, "öÖö"), None);
    assert_eq!(find_case_sensitive("ööö ööö", 0, "ööö"), Some((0, 6)));
    assert_eq!(find_case_sensitive("ööö ööÖ ööÖ", 0, "ööÖ"), Some((7, 13)));
    assert_eq!(find_case_sensitive("ööö ööö ööÖ", 0, "ööÖ"), Some((14, 20)));
    assert_eq!("äöüÄÖÜß".len(), 14);
}

#[test]
fn test_find_case_sensitive_multibyte_with_start_offset() {
    assert_eq!(find_case_sensitive("ööö", 6, ""), Some((6, 6)));
    assert_eq!(find_case_sensitive("ööö ööÖ ööÖ", 6, "öÖö"), None);
    assert_eq!(find_case_sensitive("ööö ööö ööö", 6, "ööö"), Some((7, 13)));
    assert_eq!(find_case_sensitive("ööö ööÖ ööÖ", 6, "ööÖ"), Some((7, 13)));
    assert_eq!(find_case_sensitive("ööö ööö ööÖ", 6, "ööÖ"), Some((14, 20)));
}

#[test]
fn test_find_case_insensitive() {
    assert_eq!(find_case_insensitive("", 0, "Foo"), None);
    assert_eq!(find_case_insensitive("foo", 0, ""), Some((0, 0)));
    assert_eq!(find_case_insensitive("fop foP foP", 0, "FOO"), None);
    assert_eq!(find_case_insensitive("foO foo", 0, "FOO"), Some((0, 3)));
    assert_eq!(find_case_insensitive("fop foO foO", 0, "FOO"), Some((4, 7)));
    assert_eq!(find_case_insensitive("bar baz Foo", 0, "FOO"), Some((8, 11)));
    assert_eq!(find_case_insensitive("bar baß Foo", 0, "FOO"), Some((9, 12)));
}

#[test]
fn test_find_case_insensitive_with_start_offset() {
    assert_eq!(find_case_insensitive("foo", 3, ""), Some((3, 3)));
    assert_eq!(find_case_insensitive("fop foP foP", 3, "FOO"), None);
    assert_eq!(find_case_insensitive("fop FOO foo", 3, "FOO"), Some((4, 7)));
    assert_eq!(find_case_insensitive("fop foO foO", 0, "FOO"), Some((4, 7)));
    assert_eq!(find_case_insensitive("bar baz Foo", 0, "FOO"), Some((8, 11)));
}

#[test]
fn test_find_case_insensitive_multibyte() {
    assert_eq!(find_case_insensitive("ööö", 0, ""), Some((0, 0)));
    assert_eq!(find_case_insensitive("aaa öÖä aöÖ", 0, "ÖÖÖ"), None);
    assert_eq!(find_case_insensitive("Ööö Ööö", 0, "ÖÖÖ"), Some((0, 6)));
    assert_eq!(find_case_insensitive("aöö öÖö ööÖ", 0, "ÖÖÖ"), Some((6, 12)));
    assert_eq!(find_case_insensitive("öüö öaö ööÖ", 0, "ÖÖÖ"), Some((13, 19)));
    assert_eq!(find_case_insensitive("bar baz Fuß", 0, "FUS"), Some((8, 12)));
    assert_eq!(find_case_insensitive("bar baz Fuß", 0, "FUSS"), Some((8, 12)));
}

#[test]
fn test_find_case_insensitive_multibyte_with_start_offset() {
    assert_eq!(find_case_insensitive("ööö", 6, ""), Some((6, 6)));
    assert_eq!(find_case_insensitive("aaa öÖä aöÖ", 6, "ÖÖÖ"), None);
    assert_eq!(find_case_insensitive("Ööö Ööö", 6, "ÖÖÖ"), Some((7, 13)));
    assert_eq!(find_case_insensitive("aöö öÖö ööÖ", 6, "ÖÖÖ"), Some((6, 12)));
    assert_eq!(find_case_insensitive("öüö öaö ööÖ", 6, "ÖÖÖ"), Some((13, 19)));
}

#[test]
fn test_skip_smart_space() {
    assert_eq!(skip_smart_space("foo bar", 2), 2);
    assert_eq!(skip_smart_space("foo bar", 3), 4);
    assert_eq!(skip_smart_space("foo-bar", 3), 4);
    assert_eq!(skip_smart_space("foo_bar", 3), 4);
    assert_eq!(skip_smart_space("foo bar", 4), 4);
}

#[test]
fn test_skip_character() {
    assert_eq!(skip_character("foo bar", 2), 3);
    assert_eq!(skip_character("1ä", 1), 3); // 0xC3, 0xA4
    assert_eq!(skip_character("1a\u{308}", 1), 2); // 0x61, then a combining mark
}

#[test]
fn test_tag_case_sensitive() {
    assert_eq!(tag_case_sensitive("", 0, "foo"), None);
    assert_eq!(tag_case_sensitive("foo bar baz", 0, ""), Some((0, 0)));
    assert_eq!(tag_case_sensitive("foo bar baz", 5, ""), Some((5, 5)));
    assert_eq!(tag_case_sensitive("foo bar baz", 11, ""), Some((11, 11)));
    assert_eq!(tag_case_sensitive("foo bar baz", 0, "foo"), Some((0, 3)));
    assert_eq!(tag_case_sensitive("foo bar baz", 4, "bar"), Some((4, 7)));
    assert_eq!(tag_case_sensitive("foo bar baz", 3, "bar"), None);
    assert_eq!(tag_case_sensitive("foo bar baz", 8, "baz"), Some((8, 11)));
    assert_eq!(tag_case_sensitive("foo bar baz", 8, "bazz"), None);
}

#[test]
fn test_tag_case_sensitive_multi_byte() {
    assert_eq!(tag_case_sensitive("föo bar baz", 0, "föo"), Some((0, 4)));
    assert_eq!(tag_case_sensitive("föo bär baz", 5, "bär"), Some((5, 9)));
    assert_eq!(tag_case_sensitive("föo bär baz", 4, "bär"), None);
    assert_eq!(tag_case_sensitive("foo bär baü", 9, "baü"), Some((9, 13)));
    assert_eq!(tag_case_sensitive("foo bär baü", 8, "baü"), None);
}

#[test]
fn test_tag_case_insensitive() {
    assert_eq!(tag_case_insensitive("", 0, "FOO"), None);
    assert_eq!(tag_case_insensitive("fOo bar baz", 0, ""), Some((0, 0)));
    assert_eq!(tag_case_insensitive("foO bar baz", 5, ""), Some((5, 5)));
    assert_eq!(tag_case_insensitive("foo bar bAz", 11, ""), Some((11, 11)));
    assert_eq!(tag_case_insensitive("Foo bar baz", 0, "FOO"), Some((0, 3)));
    assert_eq!(tag_case_insensitive("foo bAr baz", 4, "BAR"), Some((4, 7)));
    assert_eq!(tag_case_insensitive("foo bar baZ", 8, "BAZ"), Some((8, 11)));
    assert_eq!(tag_case_insensitive("foo bar baZ", 8, "BAZZ"), None);
}

#[test]
fn test_tag_case_insensitive_multi_byte() {
    assert_eq!(tag_case_insensitive("fÖo bar baz", 0, "FÖO"), Some((0, 4)));
    assert_eq!(tag_case_insensitive("fÖo bÄr baz", 5, "BÄR"), Some((5, 9)));
    assert_eq!(tag_case_insensitive("föo bÄr baz", 4, "BÄR"), None);
    assert_eq!(tag_case_insensitive("foo bär baÜ", 9, "BAÜ"), Some((9, 13)));
    assert_eq!(tag_case_insensitive("foo bär baÜ", 8, "BAÜ"), None);
    assert_eq!(tag_case_insensitive("foo bär fuß", 9, "FUS"), Some((9, 13)));
    assert_eq!(tag_case_insensitive("foo bär fuß", 9, "FUSS"), Some((9, 13)));
}

#[test]
fn test_find_word_start_boundary() {
    assert_eq!(find_word_start_boundary("", 0), None);
    assert_eq!(find_word_start_boundary("foo", 0), Some(0));
    assert_eq!(find_word_start_boundary("foo", 3), None);
    assert_eq!(find_word_start_boundary(" foo", 0), Some(1));
    assert_eq!(find_word_start_boundary("  foo", 0), Some(2));
    assert_eq!(find_word_start_boundary("  Foo", 0), Some(2));
    assert_eq!(find_word_start_boundary("  123", 0), Some(2));
    assert_eq!(find_word_start_boundary("a foo", 1), Some(2));
    assert_eq!(find_word_start_boundary("foo bar", 1), Some(4));
    assert_eq!(find_word_start_boundary("foo bar", 1), Some(4));
    assert_eq!(find_word_start_boundary("Foobar", 1), None);
    assert_eq!(find_word_start_boundary("FooBar", 1), Some(3));
    assert_eq!(find_word_start_boundary("Foo123", 1), Some(3));
    assert_eq!(find_word_start_boundary("123Foo", 1), Some(3));
}

#[test]
fn test_tag_word_end_boundary() {
    assert_eq!(tag_word_end_boundary("", 0), false);
    assert_eq!(tag_word_end_boundary("foo", 0), false);
    assert_eq!(tag_word_end_boundary("foo", 1), false);
    assert_eq!(tag_word_end_boundary("foo", 2), false);
    assert_eq!(tag_word_end_boundary("foo", 3), true);
    assert_eq!(tag_word_end_boundary("foo ", 3), true);
    assert_eq!(tag_word_end_boundary("123", 0), false);
    assert_eq!(tag_word_end_boundary("123", 1), false);
    assert_eq!(tag_word_end_boundary("123", 2), false);
    assert_eq!(tag_word_end_boundary("123", 3), true);
    assert_eq!(tag_word_end_boundary("123 ", 3), true);
    assert_eq!(tag_word_end_boundary("foo123", 3), true);
    assert_eq!(tag_word_end_boundary("123foo", 3), true);
    assert_eq!(tag_word_end_boundary("FooBar", 3), true);
    assert_eq!(tag_word_end_boundary("foobar", 3), false);
    assert_eq!(tag_word_end_boundary("123456", 3), false);
    assert_eq!(tag_word_end_boundary("------", 3), false);
}
