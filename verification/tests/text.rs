use tomledit::text::{
    class_contains, first_char, is_bare_char, is_single, same_text, split_run, str_contains,
    utf8_width, CharClass,
};

#[test]
fn characters_take_one_to_four_bytes() {
    assert_eq!(utf8_width('a'), 1);
    assert_eq!(utf8_width('\u{7f}'), 1);
    assert_eq!(utf8_width('\u{80}'), 2);
    assert_eq!(utf8_width('\u{e9}'), 2);
    assert_eq!(utf8_width('\u{7ff}'), 2);
    assert_eq!(utf8_width('\u{800}'), 3);
    assert_eq!(utf8_width('\u{4e2d}'), 3);
    assert_eq!(utf8_width('\u{ffff}'), 3);
    assert_eq!(utf8_width('\u{10000}'), 4);
    assert_eq!(utf8_width('\u{1F600}'), 4);
    for c in ['a', '\u{e9}', '\u{4e2d}', '\u{1F600}', '\u{10FFFF}'] {
        assert_eq!(utf8_width(c), c.len_utf8());
    }
}

#[test]
fn runs_are_cut_at_the_first_character_outside_the_class() {
    assert_eq!(split_run("  \t x ", CharClass::Blank), ("  \t ", "x "));
    assert_eq!(split_run("\r\n\nx", CharClass::LineBreak), ("\r\n\n", "x"));
    assert_eq!(split_run("a-b_9.c", CharClass::Bare), ("a-b_9", ".c"));
    assert_eq!(split_run("0129a", CharClass::Digit), ("0129", "a"));
    assert_eq!(split_run("# \u{4e2d}\u{6587}\nx", CharClass::CommentBody), ("# \u{4e2d}\u{6587}", "\nx"));
    assert_eq!(split_run("1979-05-27#c", CharClass::ScalarBody), ("1979-05-27", "#c"));
    assert_eq!(split_run("\u{e9}t\u{e9} x", CharClass::ScalarBody), ("\u{e9}t\u{e9}", " x"));
    assert_eq!(split_run("abc", CharClass::Bare), ("abc", ""));
    assert_eq!(split_run("", CharClass::Bare), ("", ""));
    assert_eq!(split_run("x", CharClass::Blank), ("", "x"));
}

#[test]
fn classes_hold_their_characters() {
    for c in ['a', 'z', 'A', 'Z', '0', '9', '_', '-'] {
        assert!(is_bare_char(c));
        assert!(class_contains(CharClass::Bare, c));
    }
    for c in ['.', ' ', '@', '[', '`', '{', '/', ':', '\u{e9}'] {
        assert!(!is_bare_char(c));
    }
    assert!(class_contains(CharClass::Blank, '\t'));
    assert!(!class_contains(CharClass::Blank, '\n'));
    assert!(class_contains(CharClass::LineBreak, '\r'));
    assert!(class_contains(CharClass::CommentBody, '#'));
    assert!(!class_contains(CharClass::CommentBody, '\n'));
    assert!(!class_contains(CharClass::ScalarBody, '#'));
    assert!(class_contains(CharClass::ScalarBody, ','));
    assert!(!class_contains(CharClass::Digit, 'a'));
}

#[test]
fn small_questions_about_a_text() {
    assert_eq!(first_char("\u{e9}a"), Some('\u{e9}'));
    assert_eq!(first_char(""), None);
    assert!(str_contains("a\u{4e2d}-b", '-'));
    assert!(!str_contains("a\u{4e2d}b", '-'));
    assert!(!str_contains("", '-'));
    assert!(is_single("[", '['));
    assert!(!is_single("[[", '['));
    assert!(!is_single("", '['));
    assert!(!is_single("]", '['));
    assert!(same_text("true", "true"));
    assert!(!same_text("true", "truer"));
    assert!(!same_text("tru", "true"));
    assert!(!same_text("trve", "true"));
    assert!(same_text("", ""));
}
