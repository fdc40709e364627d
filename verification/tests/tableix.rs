use tomledit::tableix::is_punctuation;
use tomledit::{
    find_table, find_tables, tokenise, ErrorKind, KeyPath, SyntaxError, TablePos, Token,
    TokenType,
};

fn path(s: &str) -> KeyPath {
    KeyPath::from_string(s).unwrap()
}

fn tables_of(text: &str) -> Result<Vec<TablePos>, ErrorKind> {
    find_tables(&tokenise(text).unwrap())
}

fn keys_of(text: &str) -> Vec<String> {
    tables_of(text).unwrap().iter().map(|t| t.key.stringify()).collect()
}

#[test]
fn test_find_tables() {
    let inp = vec![
        Token::from("a"),
        Token::from("="),
        Token::from("1"),
        Token::from("\n"),
        Token::from("["),
        Token::from("table1"),
        Token::from("]"),
        Token::from("\n"),
        Token::from("b"),
        Token::from("="),
        Token::from("2"),
        Token::from("\n"),
        Token::from("["),
        Token::from("["),
        Token::from("arraytable"),
        Token::from("]"),
        Token::from("]"),
        Token::from("\n"),
        Token::from("b"),
        Token::from("="),
        Token::from("2"),
        Token::from("\n"),
        Token::from("["),
        Token::from("["),
        Token::from("arraytable"),
        Token::from("]"),
        Token::from("]"),
        Token::from("\n"),
        Token::from("b"),
        Token::from("="),
        Token::from("3"),
        Token::from("\n"),
        Token::from("["),
        Token::from("arraytable.sub"),
        Token::from("]"),
        Token::from("\n"),
        Token::from("q"),
        Token::from("="),
        Token::from("7"),
    ];
    assert_eq!(
        find_tables(&inp),
        Ok(vec![
            TablePos { key: KeyPath::new(), start: 0, end: 4 },
            TablePos { key: KeyPath::from_string("table1").unwrap(), start: 7, end: 12 },
            TablePos { key: KeyPath::from_string("arraytable[0]").unwrap(), start: 17, end: 22 },
            TablePos { key: KeyPath::from_string("arraytable[1]").unwrap(), start: 27, end: 32 },
            TablePos {
                key: KeyPath::from_string("arraytable[1].sub").unwrap(),
                start: 35,
                end: 39
            },
        ])
    )
}

#[test]
fn tables_of_a_tokenised_document() {
    let text = "a=1\n[table1]\nb=2\n[[arraytable]]\nb=2\n[[arraytable]]\nb=3\n[arraytable.sub]\nq=7\n";
    assert_eq!(
        keys_of(text),
        vec!["", ".table1", ".arraytable[0]", ".arraytable[1]", ".arraytable[1].sub"]
    );
}

#[test]
fn an_empty_document_has_the_root_table() {
    assert_eq!(find_tables(&vec![]), Ok(vec![TablePos { key: KeyPath::new(), start: 0, end: 0 }]));
}

#[test]
fn a_document_that_starts_with_a_header_has_an_empty_root() {
    assert_eq!(
        tables_of("[a]\nb = 1\n"),
        Ok(vec![
            TablePos { key: KeyPath::new(), start: 0, end: 0 },
            TablePos { key: path("a"), start: 3, end: 10 },
        ])
    );
}

#[test]
fn elements_of_an_array_of_tables_are_numbered() {
    assert_eq!(keys_of("[[a]]\n[[a]]\n[[a]]\n"), vec!["", ".a[0]", ".a[1]", ".a[2]"]);
}

#[test]
fn tables_below_an_element_take_its_index() {
    assert_eq!(
        keys_of("[[a]]\n[a.b]\n[[a.c]]\n[[a]]\n[a.b]\n[[a.c]]\n[[a.c]]\n[a.c.d]\n[x.a]\n"),
        vec![
            "",
            ".a[0]",
            ".a[0].b",
            ".a[0].c[0]",
            ".a[1]",
            ".a[1].b",
            ".a[1].c[0]",
            ".a[1].c[1]",
            ".a[1].c[1].d",
            ".x.a",
        ]
    );
}

#[test]
fn tables_with_the_same_name_are_both_given() {
    assert_eq!(keys_of("[a]\n[a]\n"), vec!["", ".a", ".a"]);
}

#[test]
fn array_values_are_no_headers() {
    assert_eq!(
        tables_of("a = [\n[ 1 ] ,\n[ 2 ]\n]\n[t]\nb = [ ]\n"),
        Ok(vec![
            TablePos { key: KeyPath::new(), start: 0, end: 22 },
            TablePos { key: path("t"), start: 25, end: 34 },
        ])
    );
}

#[test]
fn the_tables_cover_the_document_but_for_the_headers() {
    let text = "# top\n\n[a]\nx = 1\n\n[[b]]\n[[b]]\ny = [ 1 ]\n[b.c] # c\n";
    let tokens = tokenise(text).unwrap();
    let tables = find_tables(&tokens).unwrap();
    assert!(!tables.is_empty());
    assert_eq!(tables[0].start, 0);
    assert_eq!(tables[0].key, KeyPath::new());
    assert_eq!(tables[tables.len() - 1].end, tokens.len());
    for t in tables.iter() {
        assert!(t.start <= t.end);
    }
    for i in 1..tables.len() {
        let open = tables[i - 1].end;
        let close = tables[i].start - 1;
        assert!(open < close);
        assert!(is_punctuation(&tokens[open], '['));
        assert!(is_punctuation(&tokens[close], ']'));
        for t in tokens[open..=close].iter() {
            assert!(t.kind == TokenType::Punctuation || t.kind == TokenType::BareKey);
        }
    }
}

#[test]
fn find_table_gives_the_first_match() {
    let tokens = tokenise("[a]\nx = 1\n[b]\n[a]\ny = 2\n").unwrap();
    assert_eq!(
        find_table(&tokens, &path("a")),
        Ok(Some(TablePos { key: path("a"), start: 3, end: 10 }))
    );
    assert_eq!(
        find_table(&tokens, &KeyPath::new()),
        Ok(Some(TablePos { key: KeyPath::new(), start: 0, end: 0 }))
    );
    assert_eq!(find_table(&tokens, &path("c")), Ok(None));
}

#[test]
fn a_header_without_its_closing_bracket_is_rejected() {
    let open = vec![Token::from("["), Token::from("a")];
    assert_eq!(find_tables(&open), Err(ErrorKind::Syntax(SyntaxError::UnbalancedBracket)));
    let lone = vec![Token::from("[")];
    assert_eq!(find_tables(&lone), Err(ErrorKind::Syntax(SyntaxError::UnbalancedBracket)));
    let half = vec![Token::from("["), Token::from("["), Token::from("a"), Token::from("]")];
    assert_eq!(find_tables(&half), Err(ErrorKind::Syntax(SyntaxError::UnbalancedBracket)));
    assert_eq!(
        find_table(&half, &KeyPath::new()),
        Err(ErrorKind::Syntax(SyntaxError::UnbalancedBracket))
    );
}

#[test]
fn a_header_whose_name_is_no_key_path_is_rejected() {
    assert_eq!(tables_of("[]\n"), Err(ErrorKind::InvalidKeyPathSyntax));
    assert_eq!(
        tables_of("[a b]\n"),
        Err(ErrorKind::Syntax(SyntaxError::UnexpectedCharacter { position: 1 }))
    );
    assert_eq!(
        tables_of("[\"a\"]\n"),
        Err(ErrorKind::Syntax(SyntaxError::UnexpectedCharacter { position: 0 }))
    );
}

#[test]
fn a_document_without_headers_is_the_root_table() {
    let tokens = tokenise("a = 1\n# c\nb = { c = 2 }\n").unwrap();
    assert_eq!(
        find_tables(&tokens),
        Ok(vec![TablePos { key: KeyPath::new(), start: 0, end: tokens.len() }])
    );
}

#[test]
fn a_long_document_is_indexed() {
    let mut text = String::new();
    for i in 0..3000 {
        text.push_str("[[server]]\n");
        text.push_str(&format!("name = \"host-{}\" # n\nport = {}\n\n", i, 8000 + i));
    }
    let tokens = tokenise(&text).unwrap();
    let tables = find_tables(&tokens).unwrap();
    assert_eq!(tables.len(), 3001);
    assert_eq!(tables[3000].key, path("server[2999]"));
    assert_eq!(tables[3000].end, tokens.len());
    let found = find_table(&tokens, &path("server[1500]")).unwrap().unwrap();
    assert_eq!(found, tables[1501]);
}
