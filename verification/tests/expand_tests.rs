use fsidx::expand::normalize;
use fsidx::expand::OpenRule;

#[test]
fn glob() {
    assert_eq!("*.jpg".parse(), Ok(OpenRule::Glob("*.jpg".to_string())))
}

#[test]
fn index() {
    assert_eq!("123.".parse(), Ok(OpenRule::Index(123)));
}

#[test]
fn index_range() {
    assert_eq!("123.-456.".parse(), Ok(OpenRule::IndexRange(123, 456)));
}

#[test]
fn invalid_index() {
    assert_eq!(
        "123".parse::<OpenRule>(),
        Ok(OpenRule::Glob("123".to_string()))
    );
}

#[test]
fn index_and_glob() {
    assert_eq!(
        "423./../*.flac".parse::<OpenRule>(),
        Ok(OpenRule::IndexGlob(423, "../*.flac".to_string()))
    );
}

#[test]
fn test_normalize() {
    let path = String::from("/abc/../foo/bar/baz/../../*.jpg");
    let path = normalize(path);
    assert_eq!(path.as_str(), "/foo/*.jpg");
}

#[test]
fn huge_index_is_a_glob() {
    assert_eq!(
        "99999999999999999999999999.".parse::<OpenRule>(),
        Ok(OpenRule::Glob("99999999999999999999999999.".to_string()))
    );
}

#[test]
fn normalize_without_leading_element_stops() {
    assert_eq!(normalize(String::from("/../x")).as_str(), "/../x");
    assert_eq!(normalize(String::from("a/b/../c")).as_str(), "a/c");
}
