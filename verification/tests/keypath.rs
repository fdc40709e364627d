use tomledit::{ErrorKind, KeyPath, KeyPathComponent, SyntaxError};

#[test]
fn test_stringify_keypath() {
    let kp = KeyPath::new().append_key(String::from("foo")).append_index(2);
    assert_eq!(kp.stringify(), String::from(".foo[2]"))
}

#[test]
fn test_keypath_from_string() {
    let s = "1";
    assert_eq!(&s[1..], "");
    let expected = KeyPath::new()
        .append_key(String::from("foo"))
        .append_key(String::from("bar"))
        .append_index(2);
    assert_eq!(KeyPath::from_string("foo.bar[2]"), Ok(expected));
}

#[test]
fn the_root_is_the_empty_text() {
    assert_eq!(KeyPath::new().stringify(), "");
    assert_eq!(KeyPath::from_string(""), Ok(KeyPath::new()));
    assert_eq!(KeyPath::new().len(), 0);
}

#[test]
fn a_path_read_from_its_notation_is_the_path() {
    let paths = vec![
        KeyPath::new(),
        KeyPath::new().append_key(String::from("a")),
        KeyPath::new().append_index(0),
        KeyPath::new().append_key(String::from("a-b_c")).append_index(10).append_index(7),
        KeyPath::new()
            .append_key(String::from("12"))
            .append_index(usize::MAX)
            .append_key(String::from("-"))
            .append_key(String::from("Z9")),
    ];
    for p in paths.iter() {
        assert_eq!(KeyPath::from_string(&p.stringify()), Ok(p.clone()));
    }
}

#[test]
fn indices_are_written_in_decimal() {
    assert_eq!(KeyPath::new().append_index(0).stringify(), "[0]");
    assert_eq!(KeyPath::new().append_index(9).stringify(), "[9]");
    assert_eq!(KeyPath::new().append_index(10).stringify(), "[10]");
    assert_eq!(KeyPath::new().append_index(12345).stringify(), "[12345]");
    assert_eq!(
        KeyPath::new().append_index(usize::MAX).stringify(),
        format!("[{}]", usize::MAX)
    );
    assert_eq!(KeyPath::from_string("[007]"), Ok(KeyPath::new().append_index(7)));
}

#[test]
fn keys_of_digits_and_indices_differ() {
    let key = KeyPath::from_string("a.12").unwrap();
    let index = KeyPath::from_string("a[12]").unwrap();
    assert_ne!(key, index);
    assert_eq!(key.component(1), &KeyPathComponent::Key(String::from("12")));
    assert_eq!(index.component(1), &KeyPathComponent::Ix(12));
}

#[test]
fn dots_only_separate() {
    let expected = KeyPath::new().append_key(String::from("a")).append_key(String::from("b"));
    assert_eq!(KeyPath::from_string(".a.b"), Ok(expected.clone()));
    assert_eq!(KeyPath::from_string("a..b."), Ok(expected));
    assert_eq!(KeyPath::from_string("..."), Ok(KeyPath::new()));
}

#[test]
fn malformed_notation_is_rejected() {
    assert_eq!(KeyPath::from_string("a["), Err(ErrorKind::InvalidKeyPathSyntax));
    assert_eq!(KeyPath::from_string("a[]"), Err(ErrorKind::InvalidKeyPathSyntax));
    assert_eq!(KeyPath::from_string("a[1"), Err(ErrorKind::InvalidKeyPathSyntax));
    assert_eq!(KeyPath::from_string("a[x]"), Err(ErrorKind::InvalidKeyPathSyntax));
    assert_eq!(KeyPath::from_string("a[1.5]"), Err(ErrorKind::InvalidKeyPathSyntax));
    assert_eq!(KeyPath::from_string("a]"), Err(ErrorKind::InvalidKeyPathSyntax));
    assert_eq!(
        KeyPath::from_string("[99999999999999999999999999999999999999999]"),
        Err(ErrorKind::InvalidKeyPathSyntax)
    );
}

#[test]
fn other_characters_are_unexpected() {
    assert_eq!(
        KeyPath::from_string("a b"),
        Err(ErrorKind::Syntax(SyntaxError::UnexpectedCharacter { position: 1 }))
    );
    assert_eq!(
        KeyPath::from_string("ab.\"c\""),
        Err(ErrorKind::Syntax(SyntaxError::UnexpectedCharacter { position: 3 }))
    );
    assert_eq!(
        KeyPath::from_string("\u{e9}"),
        Err(ErrorKind::Syntax(SyntaxError::UnexpectedCharacter { position: 0 }))
    );
}

#[test]
fn parent_and_ancestors() {
    let p = KeyPath::from_string("a[3].b").unwrap();
    assert_eq!(p.len(), 3);
    assert_eq!(p.parent(), Some(KeyPath::from_string("a[3]").unwrap()));
    assert_eq!(KeyPath::new().parent(), None);
    assert_eq!(
        p.ancestors(),
        vec![
            KeyPath::from_string("a[3]").unwrap(),
            KeyPath::from_string("a").unwrap(),
            KeyPath::new(),
        ]
    );
    assert_eq!(p.ancestors(), p.ancestors());
    assert_eq!(KeyPath::new().ancestors(), vec![]);
    assert_eq!(p.prefix(2), KeyPath::from_string("a[3]").unwrap());
}

#[test]
fn appending_leaves_a_copy_unchanged() {
    let p = KeyPath::from_string("a").unwrap();
    let q = p.clone().append_key(String::from("b"));
    assert_eq!(p.stringify(), ".a");
    assert_eq!(q.stringify(), ".a.b");
    assert!(p.same_as(&p.clone()));
    assert!(!p.same_as(&q));
    assert_eq!(
        p.clone().append(KeyPathComponent::Ix(1)),
        KeyPath::from_string("a[1]").unwrap()
    );
}
