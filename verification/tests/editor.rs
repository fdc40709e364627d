use tomledit::{
    insert_kv, make_key_token, tokenise, ErrorKind, KeyPath, SyntaxError, Token, TokenType,
};

fn text_of(tokens: &[Token]) -> String {
    let mut res = String::new();
    for tok in tokens {
        res.push_str(&tok.text);
    }
    res
}

#[test]
fn test_make_key_token() {
    assert_eq!(
        make_key_token("a_b"),
        Token { kind: TokenType::BareKey, text: String::from("a_b") }
    );
    assert_eq!(
        make_key_token("a b"),
        Token { kind: TokenType::BasicString, text: String::from(r#""a b""#) }
    );
}

#[test]
fn test_insert_kv() {
    let inp = "\
[foo]
# a comment
a = 1 #?

[bar]
b = 2
";
    let exp = "\
[foo]
# a comment
a = 1 #?
c = 3

[bar]
b = 2
";
    let tokens = tokenise(inp).unwrap();
    let mut res = String::new();
    for tok in insert_kv(
        &tokens,
        &KeyPath::from_string("foo.c").unwrap(),
        &toml::Value::Integer(3).to_string(),
    )
    .unwrap()
    {
        res.push_str(&tok.text);
    }
    assert_eq!(res, exp);
}

#[test]
fn keys_with_digits_are_bare() {
    assert_eq!(
        make_key_token("a1-B_2"),
        Token { kind: TokenType::BareKey, text: String::from("a1-B_2") }
    );
    assert_eq!(make_key_token("007"), Token { kind: TokenType::BareKey, text: String::from("007") });
}

#[test]
fn other_keys_are_quoted_by_the_value_library() {
    let dotted = make_key_token("a.b");
    assert_eq!(dotted.kind, TokenType::BasicString);
    assert_eq!(dotted.text, toml::Value::String(String::from("a.b")).to_string());
    assert_eq!(dotted.text, "\"a.b\"");
    let accent = make_key_token("caf\u{e9}");
    assert_eq!(accent.kind, TokenType::BasicString);
    assert_eq!(accent.text, "\"caf\u{e9}\"");
    assert_ne!(make_key_token("a b").text, "a b");
}

#[test]
fn an_insertion_adds_six_tokens_at_one_place() {
    let tokens = tokenise("x = 1\n\n[t]\ny = 2 # c\n\n\n[u]\nz = 3\n").unwrap();
    let key = KeyPath::from_string("t.new").unwrap();
    let out = insert_kv(&tokens, &key, "\"v\"").unwrap();
    assert_eq!(out.len(), tokens.len() + 6);
    let at = (0..tokens.len()).find(|i| out[*i] != tokens[*i]).unwrap();
    assert_eq!(&out[..at], &tokens[..at]);
    assert_eq!(&out[at + 6..], &tokens[at..]);
    assert_eq!(
        &out[at..at + 6],
        &[
            Token { kind: TokenType::Newline, text: String::from("\n") },
            Token { kind: TokenType::BareKey, text: String::from("new") },
            Token { kind: TokenType::Whitespace, text: String::from(" ") },
            Token { kind: TokenType::Punctuation, text: String::from("=") },
            Token { kind: TokenType::Whitespace, text: String::from(" ") },
            Token { kind: TokenType::BasicString, text: String::from("\"v\"") },
        ]
    );
    assert_eq!(text_of(&out), "x = 1\n\n[t]\ny = 2 # c\nnew = \"v\"\n\n\n[u]\nz = 3\n");
}

#[test]
fn an_insertion_at_the_root_goes_before_the_first_header() {
    let tokens = tokenise("a = 1\n\n[t]\nb = 2\n").unwrap();
    let out = insert_kv(&tokens, &KeyPath::from_string("c").unwrap(), "true").unwrap();
    assert_eq!(text_of(&out), "a = 1\nc = true\n\n[t]\nb = 2\n");
    assert_eq!(out[10].kind, TokenType::Boolean);
}

#[test]
fn an_insertion_into_an_empty_table_follows_the_header() {
    let tokens = tokenise("[t]\n\n[u]\n").unwrap();
    let out = insert_kv(&tokens, &KeyPath::from_string("t.k").unwrap(), "1").unwrap();
    assert_eq!(text_of(&out), "[t]\nk = 1\n\n[u]\n");
    let empty = insert_kv(&vec![], &KeyPath::from_string("k").unwrap(), "1").unwrap();
    assert_eq!(text_of(&empty), "\nk = 1");
}

#[test]
fn an_insertion_into_the_last_table_goes_before_the_trailing_line_break() {
    let tokens = tokenise("[[a]]\nx = 1\n[[a]]\nx = 2\n").unwrap();
    let out = insert_kv(&tokens, &KeyPath::from_string("a[1].y").unwrap(), "3").unwrap();
    assert_eq!(text_of(&out), "[[a]]\nx = 1\n[[a]]\nx = 2\ny = 3\n");
    let first = insert_kv(&tokens, &KeyPath::from_string("a[0].y").unwrap(), "3").unwrap();
    assert_eq!(text_of(&first), "[[a]]\nx = 1\ny = 3\n[[a]]\nx = 2\n");
}

#[test]
fn a_key_that_needs_quotes_gets_them() {
    let tokens = tokenise("[t]\n").unwrap();
    let key = KeyPath::new().append_key(String::from("t")).append_key(String::from("a b"));
    let out = insert_kv(&tokens, &key, "1").unwrap();
    assert_eq!(text_of(&out), "[t]\n\"a b\" = 1\n");
}

#[test]
fn the_input_is_left_as_it_was() {
    let tokens = tokenise("[t]\na = 1\n").unwrap();
    let before = tokens.clone();
    let _ = insert_kv(&tokens, &KeyPath::from_string("t.b").unwrap(), "2").unwrap();
    assert_eq!(tokens, before);
}

#[test]
fn an_insertion_without_its_table_fails() {
    let tokens = tokenise("[t]\na = 1\n").unwrap();
    assert_eq!(
        insert_kv(&tokens, &KeyPath::from_string("nope.c").unwrap(), "1"),
        Err(ErrorKind::TableNotFound)
    );
    assert_eq!(
        insert_kv(&tokens, &KeyPath::from_string("t.a.c").unwrap(), "1"),
        Err(ErrorKind::TableNotFound)
    );
}

#[test]
fn an_insertion_needs_a_key_at_the_end_of_the_path() {
    let tokens = tokenise("[t]\na = 1\n").unwrap();
    assert_eq!(insert_kv(&tokens, &KeyPath::new(), "1"), Err(ErrorKind::InvalidKeyPathSyntax));
    assert_eq!(
        insert_kv(&tokens, &KeyPath::from_string("t[0]").unwrap(), "1"),
        Err(ErrorKind::InvalidKeyPathSyntax)
    );
}

#[test]
fn an_insertion_into_a_broken_document_fails_as_the_index_does() {
    let tokens = vec![Token::from("["), Token::from("t")];
    assert_eq!(
        insert_kv(&tokens, &KeyPath::from_string("t.a").unwrap(), "1"),
        Err(ErrorKind::Syntax(SyntaxError::UnbalancedBracket))
    );
}

#[test]
fn an_insertion_into_a_long_document_keeps_the_rest() {
    let mut text = String::new();
    for i in 0..2000 {
        text.push_str(&format!("[t{}]\nk = {}\n\n", i, i));
    }
    let tokens = tokenise(&text).unwrap();
    let out = insert_kv(&tokens, &KeyPath::from_string("t1000.extra").unwrap(), "1").unwrap();
    assert_eq!(out.len(), tokens.len() + 6);
    let expected = text.replace("[t1000]\nk = 1000\n", "[t1000]\nk = 1000\nextra = 1\n");
    assert_eq!(text_of(&out), expected);
    assert_eq!(tokenise(&text_of(&out)).unwrap(), out);
}
