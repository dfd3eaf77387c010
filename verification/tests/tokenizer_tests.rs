use fsidx::filter::FilterToken;
use fsidx::tokenizer::locate_filter;
use fsidx::tokenizer::tokenize_shell;
use fsidx::tokenizer::CliError;
use fsidx::tokenizer::Token;

#[test]
fn splitting_on_whitespace() {
    assert_eq!(
        tokenize_shell("This text is\rsplit\ton white\nspaces. 안녕하세요 end").unwrap(),
        vec!(
            Token::Text("This".to_string()),
            Token::Text("text".to_string()),
            Token::Text("is".to_string()),
            Token::Text("split".to_string()),
            Token::Text("on".to_string()),
            Token::Text("white".to_string()),
            Token::Text("spaces.".to_string()),
            Token::Text("안녕하세요".to_string()),
            Token::Text("end".to_string()),
        )
    );
}

#[test]
fn quoted_strings() {
    assert_eq!(
        tokenize_shell(r#""Peter Meier" spricht mit "Max Mustermann""#).unwrap(),
        vec!(
            Token::Text("Peter Meier".to_string()),
            Token::Text("spricht".to_string()),
            Token::Text("mit".to_string()),
            Token::Text("Max Mustermann".to_string()),
        )
    );
}

#[test]
fn joined_quoted_string() {
    assert_eq!(
        tokenize_shell(r#"Herr "Max ""Mustermann""#).unwrap(),
        vec!(
            Token::Text("Herr".to_string()),
            Token::Text("Max Mustermann".to_string()),
        )
    );
}

#[test]
fn escaped_quotes_outside_of_quoted_text_are_normal_characters() {
    assert_eq!(
        tokenize_shell(r#"Quotes \"outside of" quoted text."#).unwrap(),
        vec!(
            Token::Text("Quotes".to_string()),
            Token::Text("\\outside of".to_string()),
            Token::Text("quoted".to_string()),
            Token::Text("text.".to_string()),
        )
    );
}

#[test]
fn escaped_quotes_inside_of_quoted_text() {
    assert_eq!(
        tokenize_shell(r#"Escaped quotes "\"inside\"\"" of quoted text."#).unwrap(),
        vec!(
            Token::Text("Escaped".to_string()),
            Token::Text("quotes".to_string()),
            Token::Text("\"inside\"\"".to_string()),
            Token::Text("of".to_string()),
            Token::Text("quoted".to_string()),
            Token::Text("text.".to_string()),
        )
    );
}

#[test]
fn escaped_characters() {
    assert_eq!(
        tokenize_shell(r#"All escaped characters are: "\"\t\n\r\\" ."#).unwrap(),
        vec!(
            Token::Text("All".to_string()),
            Token::Text("escaped".to_string()),
            Token::Text("characters".to_string()),
            Token::Text("are:".to_string()),
            Token::Text("\"\t\n\r\\".to_string()),
            Token::Text(".".to_string()),
        )
    );
}

#[test]
fn invalid_escaped_characters() {
    assert!(matches!(
        tokenize_shell(r#"Invalid: "\e""#).unwrap_err(),
        CliError::InvalidEscape('e')
    ));
}

#[test]
fn missing_escaped_character() {
    assert!(matches!(
        tokenize_shell(r#""text\"#).unwrap_err(),
        CliError::MissingEscapedCharacter
    ));
}

#[test]
fn missing_closing_quotes() {
    assert!(matches!(
        tokenize_shell(r#""text"#).unwrap_err(),
        CliError::MissingClosingQuote
    ));
}

#[test]
fn long_options() {
    assert_eq!(
        tokenize_shell(r#"--foo --bar"#).unwrap(),
        vec!(
            Token::Option("foo".to_string()),
            Token::Option("bar".to_string()),
        )
    );
}

#[test]
fn short_options() {
    assert_eq!(
        tokenize_shell(r#"-foo -bar"#).unwrap(),
        vec!(
            Token::Option("f".to_string()),
            Token::Option("o".to_string()),
            Token::Option("o".to_string()),
            Token::Option("b".to_string()),
            Token::Option("a".to_string()),
            Token::Option("r".to_string()),
        )
    );
}

#[test]
fn plain_dash_is_not_an_option() {
    assert_eq!(
        tokenize_shell(r#"- foo -"#).unwrap(),
        vec!(
            Token::Text("-".to_string()),
            Token::Text("foo".to_string()),
            Token::Text("-".to_string()),
        )
    );
}

#[test]
fn plain_dash_dash_is_not_an_option() {
    assert_eq!(
        tokenize_shell(r#"-- foo --"#).unwrap(),
        vec!(
            Token::Text("--".to_string()),
            Token::Text("foo".to_string()),
            Token::Text("--".to_string()),
        )
    );
}

#[test]
fn dash_inside_other_items() {
    assert_eq!(
        tokenize_shell(r#"--long-flag normal-text also--this"#).unwrap(),
        vec!(
            Token::Option("long-flag".to_string()),
            Token::Text("normal-text".to_string()),
            Token::Text("also--this".to_string()),
        )
    );
}

#[test]
fn just_a_dash() {
    assert_eq!(
        tokenize_shell(r#"-"#).unwrap(),
        vec!(Token::Text("-".to_string()),)
    );
}

#[test]
fn just_dash_dash() {
    assert_eq!(
        tokenize_shell(r#"--"#).unwrap(),
        vec!(Token::Text("--".to_string()),)
    );
}

#[test]
fn empty() {
    assert_eq!(tokenize_shell(r#""#).unwrap(), vec!());
}

#[test]
fn trailing_space() {
    assert_eq!(
        tokenize_shell(r#"foo "#).unwrap(),
        vec!(Token::Text("foo".to_string()),)
    );
}

#[test]
fn leading_space() {
    let xxx = tokenize_shell(r#" foo"#).unwrap();
    println!("{:?}", xxx);
    assert_eq!(
        tokenize_shell(r#" foo"#).unwrap(),
        vec!(Token::Text("foo".to_string()),)
    );
}

#[test]
fn double_space() {
    let xxx = tokenize_shell(r#" foo"#).unwrap();
    println!("{:?}", xxx);
    assert_eq!(
        tokenize_shell(r#"foo  bar"#).unwrap(),
        vec!(Token::Text("foo".to_string()), Token::Text("bar".to_string()),)
    );
}

#[test]
fn glob_case() {
    let token = tokenize_shell("-c File *.mp4").unwrap();
    let filter: Vec<FilterToken> = locate_filter(token).unwrap();
    assert_eq!(
        filter,
        vec![
            FilterToken::CaseSensitive,
            FilterToken::Text(String::from("File")),
            FilterToken::Text(String::from("*.mp4"))
        ]
    );
}
