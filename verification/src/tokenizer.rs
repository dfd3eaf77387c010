//! Tokenizers for the two front ends: single command-line arguments, and a
//! whole interactive line with quoting, escapes and option syntax; plus the
//! translation of tokens into filter items.

use crate::chars::chars_to_string;
use crate::chars::str_chars;
use crate::chars::str_eq;
use crate::filter::FilterToken;
use vstd::prelude::*;

verus! {

/// One token of a command line: plain text, or an option name.
#[derive(Debug, Clone, PartialEq)]
pub enum Token {
    /// Plain text.
    Text(String),
    /// An option name, without its leading dashes.
    Option(String),
}

/// The mathematical form of a token: whether it is an option, and its text.
pub open spec fn token_view(t: Token) -> (bool, Seq<char>) {
    match t {
        Token::Text(s) => (false, s@),
        Token::Option(s) => (true, s@),
    }
}

/// The mathematical form of a token list.
pub open spec fn tokens_view(s: Seq<Token>) -> Seq<(bool, Seq<char>)> {
    s.map(|i: int, t: Token| token_view(t))
}

/// The tokens of one already-shell-parsed argument: a long option, one
/// option per character, or plain text.
pub open spec fn arg_tokens(s: Seq<char>) -> Seq<(bool, Seq<char>)> {
    if s.len() >= 2 && s[0] == '-' && s[1] == '-' {
        seq![(true, s.skip(2))]
    } else if s.len() >= 1 && s[0] == '-' {
        Seq::new((s.len() - 1) as nat, |i: int| (true, seq![s[i + 1]]))
    } else {
        seq![(false, s)]
    }
}

/// Tokenize one argument: `--name` is a long option, `-abc` is one short
/// option per character, anything else is text.
pub fn tokenize_arg(arg: &str) -> (r: Vec<Token>)
    ensures
        tokens_view(r@) == arg_tokens(arg@),
{
    let cs = str_chars(arg);
    let n = cs.len();
    let mut token: Vec<Token> = Vec::new();
    if n >= 2 && cs[0] == '-' && cs[1] == '-' {
        let rest = crate::chars::vec_skip_chars(&cs, 2);
        token.push(Token::Option(chars_to_string(&rest)));
        proof {
            assert(tokens_view(token@) =~~= arg_tokens(arg@));
        }
    } else if n >= 1 && cs[0] == '-' {
        let mut i: usize = 1;
        while i < n
            invariant
                1 <= i <= n == cs@.len(),
                cs@ == arg@,
                n >= 1 && cs@[0] == '-',
                !(n >= 2 && cs@[1] == '-'),
                token@.len() == i - 1,
                tokens_view(token@) =~~= arg_tokens(arg@).take(i - 1),
            decreases n - i,
        {
            let ghost i0 = i as int;
            let mut one: Vec<char> = Vec::new();
            one.push(cs[i]);
            token.push(Token::Option(chars_to_string(&one)));
            i = i + 1;
            proof {
                assert(one@ =~= seq![arg@[i0]]);
                assert(arg_tokens(arg@)[i0 - 1] == (true, seq![arg@[i0]]));
                assert(token_view(token@[i0 - 1]) == (true, one@));
                assert(tokens_view(token@)[i0 - 1] == token_view(token@[i0 - 1]));
                assert(tokens_view(token@) =~~= arg_tokens(arg@).take(i - 1));
            }
        }
        proof {
            assert(arg_tokens(arg@).take(n - 1) =~~= arg_tokens(arg@));
        }
    } else {
        token.push(Token::Text(arg.to_owned()));
        proof {
            assert(tokens_view(token@) =~~= arg_tokens(arg@));
        }
    }
    token
}

/// Errors of the interactive tokenizer, and of option translation.
#[derive(Debug)]
pub enum CliError {
    /// An unknown character followed a backslash inside quotes.
    InvalidEscape(char),
    /// The line ended just after a backslash inside quotes.
    MissingEscapedCharacter,
    /// The line ended inside quotes.
    MissingClosingQuote,
    /// An option name that no filter item corresponds to.
    InvalidLocateFilterOption(String),
}

/// The tokenizer's state between characters.
pub struct ShellState {
    /// Tokens finished so far.
    pub tokens: Seq<(bool, Seq<char>)>,
    /// The item under construction.
    pub item: Seq<char>,
    /// Inside double quotes.
    pub quoted: bool,
    /// Just behind a backslash, inside quotes.
    pub escaped: bool,
    /// The item began with one dash.
    pub short_option: bool,
    /// The item began with two dashes.
    pub long_option: bool,
}

/// The state before the first character.
pub open spec fn shell_init() -> ShellState {
    ShellState {
        tokens: Seq::empty(),
        item: Seq::empty(),
        quoted: false,
        escaped: false,
        short_option: false,
        long_option: false,
    }
}

/// One character of input; `Err` carries an invalid escape character.
pub open spec fn shell_step(st: ShellState, c: char) -> Result<ShellState, char> {
    if st.quoted {
        if st.escaped {
            if c == '"' {
                Ok(ShellState { item: st.item.push('"'), escaped: false, ..st })
            } else if c == 't' {
                Ok(ShellState { item: st.item.push('\t'), escaped: false, ..st })
            } else if c == 'n' {
                Ok(ShellState { item: st.item.push('\n'), escaped: false, ..st })
            } else if c == 'r' {
                Ok(ShellState { item: st.item.push('\r'), escaped: false, ..st })
            } else if c == '\\' {
                Ok(ShellState { item: st.item.push('\\'), escaped: false, ..st })
            } else {
                Err(c)
            }
        } else {
            if c == '\\' {
                Ok(ShellState { escaped: true, ..st })
            } else if c == '"' {
                Ok(ShellState { quoted: false, ..st })
            } else {
                Ok(ShellState { item: st.item.push(c), ..st })
            }
        }
    } else {
        if c == ' ' || c == '\t' || c == '\n' || c == '\r' {
            if st.long_option {
                if st.item.len() == 0 {
                    Ok(
                        ShellState {
                            tokens: st.tokens.push((false, seq!['-', '-'])),
                            long_option: false,
                            ..st
                        },
                    )
                } else {
                    Ok(
                        ShellState {
                            tokens: st.tokens.push((true, st.item)),
                            item: Seq::empty(),
                            long_option: false,
                            ..st
                        },
                    )
                }
            } else if st.short_option {
                if st.item.len() == 0 {
                    Ok(
                        ShellState {
                            tokens: st.tokens.push((false, seq!['-'])),
                            short_option: false,
                            ..st
                        },
                    )
                } else {
                    Ok(
                        ShellState {
                            tokens: st.tokens.push((true, st.item)),
                            item: Seq::empty(),
                            short_option: false,
                            ..st
                        },
                    )
                }
            } else if st.item.len() == 0 {
                Ok(st)
            } else {
                Ok(ShellState { tokens: st.tokens.push((false, st.item)), item: Seq::empty(), ..st })
            }
        } else if c == '-' && st.item.len() == 0 {
            if st.short_option {
                Ok(ShellState { long_option: true, short_option: false, ..st })
            } else {
                Ok(ShellState { short_option: true, ..st })
            }
        } else if c == '"' {
            Ok(ShellState { quoted: true, ..st })
        } else {
            if st.short_option && st.item.len() > 0 {
                Ok(
                    ShellState {
                        tokens: st.tokens.push((true, st.item)),
                        item: seq![c],
                        ..st
                    },
                )
            } else {
                Ok(ShellState { item: st.item.push(c), ..st })
            }
        }
    }
}

/// Run the tokenizer over the rest of the input.
pub open spec fn shell_run(s: Seq<char>, i: int, st: ShellState) -> Result<ShellState, char>
    decreases s.len() - i,
{
    if i < 0 || i >= s.len() {
        Ok(st)
    } else {
        match shell_step(st, s[i]) {
            Ok(st2) => shell_run(s, i + 1, st2),
            Err(c) => Err(c),
        }
    }
}

/// Why a line does not tokenize.
pub enum TokErr {
    /// This character may not follow a backslash inside quotes.
    BadEscape(char),
    /// The line ended just after a backslash.
    UnfinishedEscape,
    /// The line ended inside quotes.
    UnclosedQuote,
}

/// Flush the item under construction at the end of the line.
pub open spec fn shell_finish(st: ShellState) -> Seq<(bool, Seq<char>)> {
    if st.long_option && st.item.len() == 0 {
        st.tokens.push((false, seq!['-', '-']))
    } else if st.short_option && st.item.len() == 0 {
        st.tokens.push((false, seq!['-']))
    } else if st.long_option || st.short_option {
        st.tokens.push((true, st.item))
    } else if st.item.len() > 0 {
        st.tokens.push((false, st.item))
    } else {
        st.tokens
    }
}

/// The tokens of one interactive line, or why it does not tokenize.
pub open spec fn tokenize_shell_spec(s: Seq<char>) -> Result<Seq<(bool, Seq<char>)>, TokErr> {
    match shell_run(s, 0, shell_init()) {
        Err(c) => Err(TokErr::BadEscape(c)),
        Ok(st) => {
            if st.escaped {
                Err(TokErr::UnfinishedEscape)
            } else if st.quoted {
                Err(TokErr::UnclosedQuote)
            } else {
                Ok(shell_finish(st))
            }
        },
    }
}

/// Tokenize one interactive line: items split on whitespace, double quotes
/// group and may continue an item, backslash escapes work inside quotes, and
/// leading dashes open options.
pub fn tokenize_shell(line: &str) -> (r: Result<Vec<Token>, CliError>)
    ensures
        match r {
            Ok(toks) => tokenize_shell_spec(line@) == Ok::<_, TokErr>(tokens_view(toks@)),
            Err(e) => match e {
                CliError::InvalidEscape(c) => tokenize_shell_spec(line@) == Err::<
                    Seq<(bool, Seq<char>)>,
                    _,
                >(TokErr::BadEscape(c)),
                CliError::MissingEscapedCharacter => tokenize_shell_spec(line@) == Err::<
                    Seq<(bool, Seq<char>)>,
                    _,
                >(TokErr::UnfinishedEscape),
                CliError::MissingClosingQuote => tokenize_shell_spec(line@) == Err::<
                    Seq<(bool, Seq<char>)>,
                    _,
                >(TokErr::UnclosedQuote),
                _ => false,
            },
        },
{
    let cs = str_chars(line);
    let n = cs.len();
    let mut token: Vec<Token> = Vec::new();
    let mut item: Vec<char> = Vec::new();
    let mut quoted: bool = false;
    let mut escaped: bool = false;
    let mut short_option: bool = false;
    let mut long_option: bool = false;
    let mut i: usize = 0;
    proof {
        let st0 = ShellState {
            tokens: tokens_view(token@),
            item: item@,
            quoted,
            escaped,
            short_option,
            long_option,
        };
        assert(st0.tokens =~= shell_init().tokens);
        assert(st0.item =~= shell_init().item);
        assert(st0 == shell_init());
    }
    while i < n
        invariant
            i <= n == cs@.len(),
            cs@ == line@,
            shell_run(cs@, 0, shell_init()) == shell_run(
                cs@,
                i as int,
                ShellState {
                    tokens: tokens_view(token@),
                    item: item@,
                    quoted,
                    escaped,
                    short_option,
                    long_option,
                },
            ),
        decreases n - i,
    {
        let ghost st = ShellState {
            tokens: tokens_view(token@),
            item: item@,
            quoted,
            escaped,
            short_option,
            long_option,
        };
        let c = cs[i];
        if quoted {
            if escaped {
                escaped = false;
                if c == '"' {
                    item.push('"');
                } else if c == 't' {
                    item.push('\t');
                } else if c == 'n' {
                    item.push('\n');
                } else if c == 'r' {
                    item.push('\r');
                } else if c == '\\' {
                    item.push('\\');
                } else {
                    proof {
                        assert(shell_run(cs@, i as int, st) == Err::<ShellState, char>(c));
                    }
                    return Err(CliError::InvalidEscape(c));
                }
            } else {
                if c == '\\' {
                    escaped = true;
                } else if c == '"' {
                    quoted = false;
                } else {
                    item.push(c);
                }
            }
        } else {
            if c == ' ' || c == '\t' || c == '\n' || c == '\r' {
                if long_option {
                    long_option = false;
                    if item.len() == 0 {
                        let mut dd: Vec<char> = Vec::new();
                        dd.push('-');
                        dd.push('-');
                        token.push(Token::Text(chars_to_string(&dd)));
                    } else {
                        token.push(Token::Option(chars_to_string(&item)));
                        item = Vec::new();
                    }
                } else if short_option {
                    short_option = false;
                    if item.len() == 0 {
                        let mut d: Vec<char> = Vec::new();
                        d.push('-');
                        token.push(Token::Text(chars_to_string(&d)));
                    } else {
                        token.push(Token::Option(chars_to_string(&item)));
                        item = Vec::new();
                    }
                } else if item.len() == 0 {
                } else {
                    token.push(Token::Text(chars_to_string(&item)));
                    item = Vec::new();
                }
            } else if c == '-' && item.len() == 0 {
                if short_option {
                    long_option = true;
                    short_option = false;
                } else {
                    short_option = true;
                }
            } else if c == '"' {
                quoted = true;
            } else {
                if short_option && item.len() > 0 {
                    token.push(Token::Option(chars_to_string(&item)));
                    item = Vec::new();
                    item.push(c);
                } else {
                    item.push(c);
                }
            }
        }
        i = i + 1;
        proof {
            let st2 = ShellState {
                tokens: tokens_view(token@),
                item: item@,
                quoted,
                escaped,
                short_option,
                long_option,
            };
            assert(shell_step(st, cs@[i - 1]) matches Ok(ss) && ss.tokens =~~= st2.tokens
                && ss.item =~~= st2.item && ss.quoted == st2.quoted && ss.escaped == st2.escaped
                && ss.short_option == st2.short_option && ss.long_option == st2.long_option);
            assert(shell_step(st, cs@[i - 1]) == Ok::<ShellState, char>(st2));
        }
    }
    if escaped {
        return Err(CliError::MissingEscapedCharacter);
    }
    if quoted {
        return Err(CliError::MissingClosingQuote);
    }
    let ghost stf = ShellState {
        tokens: tokens_view(token@),
        item: item@,
        quoted,
        escaped,
        short_option,
        long_option,
    };
    if long_option && item.len() == 0 {
        let mut dd: Vec<char> = Vec::new();
        dd.push('-');
        dd.push('-');
        token.push(Token::Text(chars_to_string(&dd)));
    } else if short_option && item.len() == 0 {
        let mut d: Vec<char> = Vec::new();
        d.push('-');
        token.push(Token::Text(chars_to_string(&d)));
    } else if long_option || short_option {
        token.push(Token::Option(chars_to_string(&item)));
    } else if item.len() > 0 {
        token.push(Token::Text(chars_to_string(&item)));
    }
    proof {
        assert(tokens_view(token@) =~~= shell_finish(stf));
    }
    Ok(token)
}

/// Pass the item on and leave an empty one behind.
pub fn swap(value: &mut String) -> (r: String)
    ensures
        r@ == old(value)@,
        final(value)@ == Seq::<char>::empty(),
{
    let r = value.clone();
    *value = String::new();
    r
}

/// The filter item one option name means, if any.
pub open spec fn flag_of(text: Seq<char>) -> Option<FilterToken> {
    if text == "case-sensitive"@ || text == "c"@ {
        Some(FilterToken::CaseSensitive)
    } else if text == "case-insensitive"@ || text == "i"@ {
        Some(FilterToken::CaseInSensitive)
    } else if text == "any-order"@ || text == "a"@ {
        Some(FilterToken::AnyOrder)
    } else if text == "same-order"@ || text == "o"@ {
        Some(FilterToken::SameOrder)
    } else if text == "whole-path"@ || text == "w"@ {
        Some(FilterToken::WholePath)
    } else if text == "last-element"@ || text == "l"@ {
        Some(FilterToken::LastElement)
    } else if text == "smart-spaces"@ || text == "s"@ {
        Some(FilterToken::SmartSpaces(true))
    } else if text == "no-smart-spaces"@ || text == "S"@ {
        Some(FilterToken::SmartSpaces(false))
    } else if text == "literal-separator"@ || text == "ls"@ {
        Some(FilterToken::LiteralSeparator(true))
    } else if text == "no-literal-separator"@ || text == "nls"@ {
        Some(FilterToken::LiteralSeparator(false))
    } else if text == "word-boundary"@ || text == "b"@ {
        Some(FilterToken::WordBoundary(true))
    } else if text == "no-word-boundary"@ || text == "B"@ {
        Some(FilterToken::WordBoundary(false))
    } else if text == "auto"@ || text == "-0"@ {
        Some(FilterToken::Auto)
    } else if text == "plain"@ || text == "-1"@ {
        Some(FilterToken::Plain)
    } else if text == "glob"@ || text == "-2"@ {
        Some(FilterToken::Glob)
    } else {
        None
    }
}

/// The filter items of a token list: text passes through, each option maps
/// to its filter item, and the first unknown option is the error.
pub open spec fn locate_filter_spec(tokens: Seq<Token>) -> Result<Seq<FilterToken>, Seq<char>>
    decreases tokens.len(),
{
    if tokens.len() == 0 {
        Ok(Seq::empty())
    } else {
        let head = match tokens[0] {
            Token::Text(text) => Some(FilterToken::Text(text)),
            Token::Option(text) => flag_of(text@),
        };
        match head {
            None => Err(
                (match tokens[0] {
                    Token::Option(text) => text@,
                    Token::Text(text) => text@,
                }),
            ),
            Some(ft) => match locate_filter_spec(tokens.drop_first()) {
                Ok(rest) => Ok(seq![ft] + rest),
                Err(e) => Err(e),
            },
        }
    }
}

/// Translate tokens into filter items; an unknown option is rejected with
/// its name.
pub fn locate_filter(token: Vec<Token>) -> (r: Result<Vec<FilterToken>, CliError>)
    ensures
        match r {
            Ok(filter) => locate_filter_spec(token@) == Ok::<_, Seq<char>>(filter@),
            Err(e) => match e {
                CliError::InvalidLocateFilterOption(text) => locate_filter_spec(token@) == Err::<
                    Seq<FilterToken>,
                    _,
                >(text@),
                _ => false,
            },
        },
{
    let mut filter: Vec<FilterToken> = Vec::new();
    let n = token.len();
    let mut i: usize = 0;
    proof {
        assert(token@.skip(0) =~= token@);
    }
    while i < n
        invariant
            i <= n == token@.len(),
            locate_filter_spec(token@) == (match locate_filter_spec(token@.skip(i as int)) {
                Ok(rest) => Ok::<_, Seq<char>>(filter@ + rest),
                Err(e) => Err::<Seq<FilterToken>, _>(e),
            }),
        decreases n - i,
    {
        proof {
            assert(token@.skip(i as int)[0] == token@[i as int]);
            assert(token@.skip(i as int).drop_first() =~= token@.skip(i as int + 1));
        }
        let tk = &token[i];
        let ghost pre_filter = filter@;
        match tk {
            Token::Text(text) => {
                filter.push(FilterToken::Text(text.clone()));
            },
            Token::Option(text) => {
                let ft: FilterToken = if str_eq(text.as_str(), "case-sensitive") || str_eq(
                    text.as_str(),
                    "c",
                ) {
                    FilterToken::CaseSensitive
                } else if str_eq(text.as_str(), "case-insensitive") || str_eq(text.as_str(), "i") {
                    FilterToken::CaseInSensitive
                } else if str_eq(text.as_str(), "any-order") || str_eq(text.as_str(), "a") {
                    FilterToken::AnyOrder
                } else if str_eq(text.as_str(), "same-order") || str_eq(text.as_str(), "o") {
                    FilterToken::SameOrder
                } else if str_eq(text.as_str(), "whole-path") || str_eq(text.as_str(), "w") {
                    FilterToken::WholePath
                } else if str_eq(text.as_str(), "last-element") || str_eq(text.as_str(), "l") {
                    FilterToken::LastElement
                } else if str_eq(text.as_str(), "smart-spaces") || str_eq(text.as_str(), "s") {
                    FilterToken::SmartSpaces(true)
                } else if str_eq(text.as_str(), "no-smart-spaces") || str_eq(text.as_str(), "S") {
                    FilterToken::SmartSpaces(false)
                } else if str_eq(text.as_str(), "literal-separator") || str_eq(
                    text.as_str(),
                    "ls",
                ) {
                    FilterToken::LiteralSeparator(true)
                } else if str_eq(text.as_str(), "no-literal-separator") || str_eq(
                    text.as_str(),
                    "nls",
                ) {
                    FilterToken::LiteralSeparator(false)
                } else if str_eq(text.as_str(), "word-boundary") || str_eq(text.as_str(), "b") {
                    FilterToken::WordBoundary(true)
                } else if str_eq(text.as_str(), "no-word-boundary") || str_eq(text.as_str(), "B") {
                    FilterToken::WordBoundary(false)
                } else if str_eq(text.as_str(), "auto") || str_eq(text.as_str(), "-0") {
                    FilterToken::Auto
                } else if str_eq(text.as_str(), "plain") || str_eq(text.as_str(), "-1") {
                    FilterToken::Plain
                } else if str_eq(text.as_str(), "glob") || str_eq(text.as_str(), "-2") {
                    FilterToken::Glob
                } else {
                    proof {
                        assert(flag_of(text@) is None);
                    }
                    return Err(CliError::InvalidLocateFilterOption(text.clone()));
                };
                proof {
                    assert(flag_of(text@) == Some(ft));
                }
                filter.push(ft);
            },
        }
        i = i + 1;
        proof {
            assert(filter@ =~= pre_filter.push(filter@.last()));
            assert forall|rest: Seq<FilterToken>|
                pre_filter + (seq![filter@.last()] + rest) =~= filter@ + rest by {};
        }
    }
    proof {
        assert(token@.skip(n as int) =~= Seq::<Token>::empty());
        assert(filter@ + Seq::<FilterToken>::empty() =~= filter@);
    }
    Ok(filter)
}

} // verus!
