use tomledit::tokenise::{
    key_context, read_bare_key, read_basic_string, read_boolean, read_comment,
    read_literal_string, read_newline, read_number_or_datetime, read_punctuation,
    read_whitespace,
};
use tomledit::{tokenise, SyntaxError, Token, TokenType};

fn tok(kind: TokenType, text: &str) -> Token {
    Token { kind, text: String::from(text) }
}

fn flatten(tokens: &[Token]) -> String {
    let mut res = String::new();
    for t in tokens {
        res.push_str(&t.text);
    }
    res
}

#[test]
fn test_read_whitespace() {
    let res = read_whitespace("  \t b");
    assert_eq!(res, (Token { kind: TokenType::Whitespace, text: String::from("  \t ") }, "b"))
}

#[test]
fn test_read_newline() {
    let res = read_newline("\n\r\na");
    assert_eq!(res, (Token { kind: TokenType::Newline, text: String::from("\n\r\n") }, "a"))
}

#[test]
fn test_read_comment() {
    assert_eq!(
        read_comment("# This is a comment\nfoo"),
        (Token { kind: TokenType::Comment, text: String::from("# This is a comment") }, "\nfoo")
    )
}

#[test]
fn test_read_punctuation() {
    assert_eq!(
        read_punctuation("[foo]"),
        (Token { kind: TokenType::Punctuation, text: String::from("[") }, "foo]")
    );
}

#[test]
fn test_read_number_or_datetime() {
    assert_eq!(
        read_number_or_datetime("6.626e-34 "),
        (Token { kind: TokenType::Float, text: String::from("6.626e-34") }, " ")
    );
    assert_eq!(
        read_number_or_datetime("-12\n"),
        (Token { kind: TokenType::Integer, text: String::from("-12") }, "\n")
    );
    assert_eq!(
        read_number_or_datetime("1979-05-27 "),
        (Token { kind: TokenType::Datetime, text: String::from("1979-05-27") }, " ")
    );
}

#[test]
fn test_read_bare_key() {
    assert_eq!(
        read_bare_key("bare-key ="),
        (Token { kind: TokenType::BareKey, text: String::from("bare-key") }, " =")
    );
    assert_eq!(
        read_bare_key("1234="),
        (Token { kind: TokenType::BareKey, text: String::from("1234") }, "=")
    );
}

#[test]
fn test_read_literal_string() {
    assert_eq!(
        read_literal_string("'foo' "),
        Ok((Token { kind: TokenType::LiteralString, text: String::from("'foo'") }, " "))
    );
    assert_eq!(
        read_literal_string("'''foo'\nbar''' "),
        Ok((
            Token {
                kind: TokenType::MultilineLiteralString,
                text: String::from("'''foo'\nbar'''")
            },
            " "
        ))
    );
}

#[test]
fn test_read_basic_string() {
    assert_eq!(
        read_basic_string(r#""foo\"\nbar" "#),
        Ok((Token { kind: TokenType::BasicString, text: String::from(r#""foo\"\nbar""#) }, " "))
    );
    assert_eq!(
        read_basic_string(r#""""foo"\nbar\"""" "#),
        Ok((
            Token {
                kind: TokenType::MultilineBasicString,
                text: String::from(r#""""foo"\nbar\"""""#)
            },
            " "
        ))
    );
}

#[test]
fn test_tokenise() {
    let sample = r#"[table]
foo="bar"
12=34
"#;
    let res = tokenise(sample).unwrap();
    println!("{:?}\n", res);
    assert_eq!(res[0], Token { kind: TokenType::Punctuation, text: String::from("[") });
    assert_eq!(res[1], Token { kind: TokenType::BareKey, text: String::from("table") });
    assert_eq!(res[3].kind, TokenType::Newline);
    assert_eq!(res[5], Token { kind: TokenType::Punctuation, text: String::from("=") });
    assert_eq!(res[6], Token { kind: TokenType::BasicString, text: String::from(r#""bar""#) });
    assert_eq!(res[8], Token { kind: TokenType::BareKey, text: String::from("12") });
    assert_eq!(res[10], Token { kind: TokenType::Integer, text: String::from("34") });
}

#[test]
fn tokenise_gives_every_token_of_the_sample() {
    let res = tokenise("[table]\nfoo=\"bar\"\n12=34\n").unwrap();
    assert_eq!(
        res,
        vec![
            tok(TokenType::Punctuation, "["),
            tok(TokenType::BareKey, "table"),
            tok(TokenType::Punctuation, "]"),
            tok(TokenType::Newline, "\n"),
            tok(TokenType::BareKey, "foo"),
            tok(TokenType::Punctuation, "="),
            tok(TokenType::BasicString, "\"bar\""),
            tok(TokenType::Newline, "\n"),
            tok(TokenType::BareKey, "12"),
            tok(TokenType::Punctuation, "="),
            tok(TokenType::Integer, "34"),
            tok(TokenType::Newline, "\n"),
        ]
    );
}

#[test]
fn tokenise_round_trips() {
    let samples = [
        "",
        "a = 1\n",
        "# only a comment",
        "[a.b]\n  key = \"v\\\"x\"  # c\r\n\r\nother = 'lit'\n",
        "s = \"\"\"multi\nline \\\" \"\"\"\nt = '''x''y'''\n",
        "d = 1979-05-27\nf = 6.626e-34\nb = true\nn = -12\np = +3\n",
        "t = { a = 1 , b = 2 }\n",
        "k = \"h\u{e9}llo \u{1F600}\" # \u{4e2d}\u{6587}\n",
        "   \t\n\n",
    ];
    for s in samples.iter() {
        let tokens = tokenise(s).unwrap();
        assert_eq!(flatten(&tokens), *s);
        for t in tokens.iter() {
            assert!(!t.text.is_empty());
        }
    }
}

#[test]
fn tokenise_of_nothing_is_empty() {
    assert_eq!(tokenise(""), Ok(vec![]));
}

#[test]
fn tokenise_reads_keys_and_values_by_position() {
    let res = tokenise("true = true\n-1 = -1\n").unwrap();
    assert_eq!(
        res,
        vec![
            tok(TokenType::BareKey, "true"),
            tok(TokenType::Whitespace, " "),
            tok(TokenType::Punctuation, "="),
            tok(TokenType::Whitespace, " "),
            tok(TokenType::Boolean, "true"),
            tok(TokenType::Newline, "\n"),
            tok(TokenType::BareKey, "-1"),
            tok(TokenType::Whitespace, " "),
            tok(TokenType::Punctuation, "="),
            tok(TokenType::Whitespace, " "),
            tok(TokenType::Integer, "-1"),
            tok(TokenType::Newline, "\n"),
        ]
    );
}

#[test]
fn tokenise_reads_keys_inside_an_inline_table() {
    let res = tokenise("t = { a = 1 , b = 2 }").unwrap();
    let kinds: Vec<(TokenType, &str)> = res
        .iter()
        .filter(|t| t.kind != TokenType::Whitespace)
        .map(|t| (t.kind, t.text.as_str()))
        .collect();
    assert_eq!(
        kinds,
        vec![
            (TokenType::BareKey, "t"),
            (TokenType::Punctuation, "="),
            (TokenType::Punctuation, "{"),
            (TokenType::BareKey, "a"),
            (TokenType::Punctuation, "="),
            (TokenType::Integer, "1"),
            (TokenType::Punctuation, ","),
            (TokenType::BareKey, "b"),
            (TokenType::Punctuation, "="),
            (TokenType::Integer, "2"),
            (TokenType::Punctuation, "}"),
        ]
    );
}

#[test]
fn a_line_break_inside_brackets_keeps_the_value_position() {
    let res = tokenise("a = [\n1\n]\nb = 2").unwrap();
    let kinds: Vec<(TokenType, &str)> = res
        .iter()
        .filter(|t| t.kind != TokenType::Whitespace && t.kind != TokenType::Newline)
        .map(|t| (t.kind, t.text.as_str()))
        .collect();
    assert_eq!(
        kinds,
        vec![
            (TokenType::BareKey, "a"),
            (TokenType::Punctuation, "="),
            (TokenType::Punctuation, "["),
            (TokenType::Integer, "1"),
            (TokenType::Punctuation, "]"),
            (TokenType::BareKey, "b"),
            (TokenType::Punctuation, "="),
            (TokenType::Integer, "2"),
        ]
    );
}

#[test]
fn tokenise_rejects_a_bare_word_as_value() {
    assert_eq!(tokenise("a = b"), Err(SyntaxError::UnexpectedCharacter { position: 4 }));
}

#[test]
fn tokenise_rejects_an_unknown_character() {
    assert_eq!(tokenise("a = 1\n?"), Err(SyntaxError::UnexpectedCharacter { position: 6 }));
    assert_eq!(
        tokenise("\u{e9}\u{e9} = 1"),
        Err(SyntaxError::UnexpectedCharacter { position: 0 })
    );
    assert_eq!(
        tokenise("# \u{4e2d}\u{6587}\n\u{e9}"),
        Err(SyntaxError::UnexpectedCharacter { position: 5 })
    );
}

#[test]
fn tokenise_rejects_a_closing_bracket_without_an_open_one() {
    assert_eq!(tokenise("]"), Err(SyntaxError::UnbalancedBracket));
    assert_eq!(tokenise("[a]]"), Err(SyntaxError::UnbalancedBracket));
    assert_eq!(tokenise("a = { }\n}"), Err(SyntaxError::UnbalancedBracket));
}

#[test]
fn tokenise_rejects_a_string_that_does_not_close() {
    assert_eq!(tokenise("a = \"abc"), Err(SyntaxError::UnterminatedString));
    assert_eq!(tokenise("a = 'abc"), Err(SyntaxError::UnterminatedString));
    assert_eq!(tokenise("a = \"\"\"abc\"\""), Err(SyntaxError::UnterminatedString));
    assert_eq!(tokenise("a = \"abc\\\""), Err(SyntaxError::UnterminatedString));
}

#[test]
fn strings_that_do_not_close_are_reported() {
    assert_eq!(read_literal_string("'foo"), Err(SyntaxError::UnterminatedString));
    assert_eq!(read_literal_string("'''foo''"), Err(SyntaxError::UnterminatedString));
    assert_eq!(read_literal_string("'''"), Err(SyntaxError::UnterminatedString));
    assert_eq!(read_basic_string("\"foo\\\""), Err(SyntaxError::UnterminatedString));
    assert_eq!(read_basic_string("\"\"\""), Err(SyntaxError::UnterminatedString));
    assert_eq!(read_basic_string(""), Err(SyntaxError::UnterminatedString));
}

#[test]
fn empty_strings_are_read() {
    assert_eq!(read_literal_string("''x"), Ok((tok(TokenType::LiteralString, "''"), "x")));
    assert_eq!(read_basic_string("\"\"x"), Ok((tok(TokenType::BasicString, "\"\""), "x")));
    assert_eq!(
        read_basic_string("\"\"\"\"\"\"x"),
        Ok((tok(TokenType::MultilineBasicString, "\"\"\"\"\"\""), "x"))
    );
}

#[test]
fn a_doubled_backslash_does_not_escape_the_quote() {
    assert_eq!(
        read_basic_string(r#""a\\" b"#),
        Ok((tok(TokenType::BasicString, r#""a\\""#), " b"))
    );
    assert_eq!(
        read_literal_string(r#"'a\' b"#),
        Ok((tok(TokenType::LiteralString, r#"'a\'"#), " b"))
    );
}

#[test]
fn read_boolean_stops_at_a_blank() {
    assert_eq!(read_boolean("true # x"), (tok(TokenType::Boolean, "true"), " # x"));
    assert_eq!(read_boolean("false"), (tok(TokenType::Boolean, "false"), ""));
}

#[test]
fn numbers_are_classified() {
    assert_eq!(read_number_or_datetime("42").0.kind, TokenType::Integer);
    assert_eq!(read_number_or_datetime("+42").0.kind, TokenType::Integer);
    assert_eq!(read_number_or_datetime("3.14").0.kind, TokenType::Float);
    assert_eq!(read_number_or_datetime("1E5").0.kind, TokenType::Float);
    assert_eq!(read_number_or_datetime("-1-2").0.kind, TokenType::Integer);
    assert_eq!(read_number_or_datetime("1979-05-27T07:32:00.5").0.kind, TokenType::Datetime);
    assert_eq!(read_number_or_datetime("12#c"), (tok(TokenType::Integer, "12"), "#c"));
}

#[test]
fn readers_take_nothing_from_a_text_that_starts_otherwise() {
    assert_eq!(read_whitespace("b "), (tok(TokenType::Whitespace, ""), "b "));
    assert_eq!(read_newline(""), (tok(TokenType::Newline, ""), ""));
    assert_eq!(read_punctuation(""), (tok(TokenType::Punctuation, ""), ""));
    assert_eq!(read_bare_key("\u{e9}t\u{e9}"), (tok(TokenType::BareKey, ""), "\u{e9}t\u{e9}"));
    assert_eq!(read_comment("#\u{e9}\r\n"), (tok(TokenType::Comment, "#\u{e9}"), "\r\n"));
}

#[test]
fn key_context_follows_the_brackets() {
    let open: Vec<char> = vec!['{'];
    let array: Vec<char> = vec!['['];
    let none: Vec<char> = vec![];
    let after_brace = vec![tok(TokenType::Punctuation, "{"), tok(TokenType::Whitespace, " ")];
    let after_value = vec![tok(TokenType::Punctuation, "{"), tok(TokenType::Integer, "1")];
    let after_break = vec![tok(TokenType::Punctuation, ","), tok(TokenType::Newline, "\n")];
    assert!(key_context(false, &none, &vec![]));
    assert!(key_context(false, &array, &after_value));
    assert!(!key_context(true, &none, &after_brace));
    assert!(!key_context(true, &array, &after_brace));
    assert!(key_context(true, &open, &after_brace));
    assert!(!key_context(true, &open, &after_value));
    assert!(!key_context(true, &open, &after_break));
    assert!(!key_context(true, &open, &vec![]));
}

#[test]
fn a_token_made_from_a_text_has_the_kind_of_the_text() {
    assert_eq!(Token::from("["), tok(TokenType::Punctuation, "["));
    assert_eq!(Token::from("="), tok(TokenType::Punctuation, "="));
    assert_eq!(Token::from("\n"), tok(TokenType::Newline, "\n"));
    assert_eq!(Token::from(" "), tok(TokenType::Whitespace, " "));
    assert_eq!(Token::from(""), tok(TokenType::Whitespace, ""));
    assert_eq!(Token::from("# c"), tok(TokenType::Comment, "# c"));
    assert_eq!(Token::from("table1"), tok(TokenType::BareKey, "table1"));
    assert_eq!(Token::from("3"), tok(TokenType::Integer, "3"));
    assert_eq!(Token::from("-3.5"), tok(TokenType::Float, "-3.5"));
    assert_eq!(Token::from("1979-05-27"), tok(TokenType::Datetime, "1979-05-27"));
    assert_eq!(Token::from("true"), tok(TokenType::Boolean, "true"));
    assert_eq!(Token::from("false"), tok(TokenType::Boolean, "false"));
    assert_eq!(Token::from("truer"), tok(TokenType::BareKey, "truer"));
    assert_eq!(Token::from("\"a\""), tok(TokenType::BasicString, "\"a\""));
    assert_eq!(Token::from("'''a'''"), tok(TokenType::MultilineLiteralString, "'''a'''"));
    assert_eq!(Token::single(TokenType::Punctuation, ','), tok(TokenType::Punctuation, ","));
}
