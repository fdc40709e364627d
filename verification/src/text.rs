//! Character classes and splitting of string slices at character positions.

use vstd::prelude::*;
use vstd::std_specs::iter::IteratorSpec;
use vstd::string::*;
use vstd::utf8::*;

verus! {

/// `String::push` of the standard library: the string gets the character
/// `c` at its end and is otherwise as it was.
pub assume_specification[ String::push ](s: &mut String, c: char)
    ensures
        final(s)@ == old(s)@.push(c),
;

/// The sets of characters that delimit the runs a scanner reads.
#[derive(Clone, Copy, Debug, PartialEq, Eq, Structural)]
pub enum CharClass {
    /// Space and tab.
    Blank,
    /// Line feed and carriage return.
    LineBreak,
    /// ASCII letters, digits, `_` and `-`.
    Bare,
    /// ASCII digits.
    Digit,
    /// Everything but a line break.
    CommentBody,
    /// Everything but a blank, a line break and `#`.
    ScalarBody,
}

/// Space and tab.
pub open spec fn is_blank(c: char) -> bool {
    c == ' ' || c == '\t'
}

/// Line feed and carriage return.
pub open spec fn is_line_break(c: char) -> bool {
    c == '\n' || c == '\r'
}

/// The ASCII digits.
pub open spec fn is_digit(c: char) -> bool {
    '0' <= c <= '9'
}

/// The ASCII letters.
pub open spec fn is_letter(c: char) -> bool {
    ('a' <= c <= 'z') || ('A' <= c <= 'Z')
}

/// The characters of a bare key: letters, digits, `_` and `-`.
pub open spec fn is_bare(c: char) -> bool {
    is_letter(c) || is_digit(c) || c == '_' || c == '-'
}

/// Whether `c` belongs to `class`.
pub open spec fn in_class(class: CharClass, c: char) -> bool {
    match class {
        CharClass::Blank => is_blank(c),
        CharClass::LineBreak => is_line_break(c),
        CharClass::Bare => is_bare(c),
        CharClass::Digit => is_digit(c),
        CharClass::CommentBody => !is_line_break(c),
        CharClass::ScalarBody => !is_blank(c) && !is_line_break(c) && c != '#',
    }
}

/// Length of the longest prefix of `s` made of characters of `class`.
pub open spec fn run_len(s: Seq<char>, class: CharClass) -> nat
    decreases s.len(),
{
    if s.len() > 0 && in_class(class, s[0]) {
        1 + run_len(s.drop_first(), class)
    } else {
        0
    }
}

/// `run_len` is the one position up to which every character is in the
/// class and at which the text ends or a character outside the class stands.
pub proof fn lemma_run_len(s: Seq<char>, class: CharClass)
    ensures
        run_len(s, class) <= s.len(),
        forall|i: int| 0 <= i < run_len(s, class) ==> in_class(class, #[trigger] s[i]),
        run_len(s, class) < s.len() ==> !in_class(class, s[run_len(s, class) as int]),
    decreases s.len(),
{
    if s.len() > 0 && in_class(class, s[0]) {
        let t = s.drop_first();
        lemma_run_len(t, class);
        assert forall|i: int| 0 <= i < run_len(s, class) implies in_class(
            class,
            #[trigger] s[i],
        ) by {
            if i > 0 {
                assert(s[i] == t[i - 1]);
            }
        }
    }
}

/// A position that meets both conditions of `lemma_run_len` is `run_len`.
pub proof fn lemma_run_len_unique(s: Seq<char>, class: CharClass, n: int)
    requires
        0 <= n <= s.len(),
        forall|i: int| 0 <= i < n ==> in_class(class, #[trigger] s[i]),
        n < s.len() ==> !in_class(class, s[n]),
    ensures
        run_len(s, class) == n,
    decreases s.len(),
{
    if n > 0 {
        let t = s.drop_first();
        assert forall|i: int| 0 <= i < n - 1 implies in_class(class, #[trigger] t[i]) by {
            assert(t[i] == s[i + 1]);
        }
        lemma_run_len_unique(t, class, n - 1);
    }
}

/// Whether `c` is a space or a tab.
pub fn is_blank_char(c: char) -> (b: bool)
    ensures
        b == is_blank(c),
{
    c == ' ' || c == '\t'
}

/// Whether `c` is a line feed or a carriage return.
pub fn is_line_break_char(c: char) -> (b: bool)
    ensures
        b == is_line_break(c),
{
    c == '\n' || c == '\r'
}

/// Whether `c` is an ASCII digit.
pub fn is_digit_char(c: char) -> (b: bool)
    ensures
        b == is_digit(c),
{
    '0' <= c && c <= '9'
}

/// Whether `c` is an ASCII letter.
pub fn is_letter_char(c: char) -> (b: bool)
    ensures
        b == is_letter(c),
{
    ('a' <= c && c <= 'z') || ('A' <= c && c <= 'Z')
}

/// Whether `c` can stand in a bare key.
pub fn is_bare_char(c: char) -> (b: bool)
    ensures
        b == is_bare(c),
{
    is_letter_char(c) || is_digit_char(c) || c == '_' || c == '-'
}

/// Whether `c` belongs to `class`.
pub fn class_contains(class: CharClass, c: char) -> (b: bool)
    ensures
        b == in_class(class, c),
{
    match class {
        CharClass::Blank => is_blank_char(c),
        CharClass::LineBreak => is_line_break_char(c),
        CharClass::Bare => is_bare_char(c),
        CharClass::Digit => is_digit_char(c),
        CharClass::CommentBody => !is_line_break_char(c),
        CharClass::ScalarBody => !is_blank_char(c) && !is_line_break_char(c) && c != '#',
    }
}

/// Number of bytes that `c` takes in UTF-8.
pub fn utf8_width(c: char) -> (w: usize)
    ensures
        w == encode_scalar(c as u32).len(),
        1 <= w <= 4,
{
    let u: u32 = c as u32;
    if u <= 0x7F {
        1
    } else if u <= 0x7FF {
        2
    } else if u <= 0xFFFF {
        3
    } else {
        4
    }
}

/// The encoding of a concatenation is the concatenation of the encodings.
pub proof fn lemma_encode_concat(a: Seq<char>, b: Seq<char>)
    ensures
        encode_utf8(a + b) == encode_utf8(a) + encode_utf8(b),
    decreases a.len(),
{
    if a.len() == 0 {
        assert(a + b =~= b);
        assert(encode_utf8(a) + encode_utf8(b) =~= encode_utf8(b));
    } else {
        lemma_encode_concat(a.drop_first(), b);
        assert((a + b).drop_first() =~= a.drop_first() + b);
        assert((a + b)[0] == a[0]);
        assert(encode_utf8(a + b) =~= encode_utf8(a) + encode_utf8(b));
    }
}

/// The encoding of a text extended by one character.
pub proof fn lemma_encode_push(a: Seq<char>, c: char)
    ensures
        encode_utf8(a.push(c)) == encode_utf8(a) + encode_scalar(c as u32),
{
    reveal_with_fuel(encode_utf8, 2);
    assert(seq![c].drop_first() =~= Seq::<char>::empty());
    assert(encode_utf8(seq![c]) =~= encode_scalar(c as u32));
    assert(a.push(c) =~= a + seq![c]);
    lemma_encode_concat(a, seq![c]);
}

/// Every character takes at least one byte.
pub proof fn lemma_encode_len(a: Seq<char>)
    ensures
        encode_utf8(a).len() >= a.len(),
    decreases a.len(),
{
    if a.len() > 0 {
        lemma_encode_len(a.drop_first());
    }
}

/// The end of an encoded prefix is a character boundary of the whole.
pub proof fn lemma_prefix_boundary(a: Seq<char>, b: Seq<char>)
    ensures
        is_char_boundary(encode_utf8(a + b), encode_utf8(a).len() as int),
    decreases a.len(),
{
    let bytes = encode_utf8(a + b);
    encode_utf8_valid_utf8(a + b);
    if a.len() > 0 {
        let rest = a.drop_first();
        lemma_prefix_boundary(rest, b);
        encode_utf8_first_scalar(a + b);
        assert((a + b).drop_first() =~= rest + b);
        assert((a + b)[0] == a[0]);
        assert(pop_first_scalar(bytes) =~= encode_utf8(rest + b));
        lemma_encode_concat(a, b);
        assert(encode_utf8(a).len() == encode_scalar(a[0] as u32).len() + encode_utf8(rest).len());
    }
}

/// The bytes of the first `n` characters are all the bytes of `s` only
/// where these are all its characters.
pub proof fn lemma_bytes_left(s: Seq<char>, n: int)
    requires
        0 <= n <= s.len(),
    ensures
        encode_utf8(s.take(n)).len() <= encode_utf8(s).len(),
        (encode_utf8(s.take(n)).len() == encode_utf8(s).len()) == (n == s.len()),
{
    assert(s =~= s.take(n) + s.skip(n));
    lemma_encode_concat(s.take(n), s.skip(n));
    lemma_encode_len(s.skip(n));
}

/// What one step of a scan over `s` from position `n` needs: the byte
/// offset grows by the width of the character at `n` and stays within the
/// encoded text, and the rest loses its first character.
pub proof fn lemma_scan_step(s: Seq<char>, n: int)
    requires
        0 <= n < s.len(),
    ensures
        encode_utf8(s.take(n + 1)).len() == encode_utf8(s.take(n)).len() + encode_scalar(
            s[n] as u32,
        ).len(),
        encode_utf8(s.take(n + 1)).len() <= encode_utf8(s).len(),
        (encode_utf8(s.take(n + 1)).len() == encode_utf8(s).len()) == (n + 1 == s.len()),
        n + 1 <= encode_utf8(s.take(n + 1)).len(),
        s.skip(n).drop_first() == s.skip(n + 1),
        s.skip(n)[0] == s[n],
{
    assert(s.take(n + 1) =~= s.take(n).push(s[n]));
    lemma_encode_push(s.take(n), s[n]);
    lemma_bytes_left(s, n + 1);
    lemma_encode_len(s.take(n + 1));
    assert(s.skip(n).drop_first() =~= s.skip(n + 1));
}

/// Cuts `s` after its first `n` characters, `at` being the byte offset of
/// that position.
pub(crate) fn split_chars<'a>(s: &'a str, Ghost(n): Ghost<int>, at: usize) -> (parts: (
    &'a str,
    &'a str,
))
    requires
        0 <= n <= s@.len(),
        at == encode_utf8(s@.take(n)).len(),
    ensures
        parts.0@ == s@.take(n),
        parts.1@ == s@.skip(n),
{
    let ghost head = s@.take(n);
    let ghost tail = s@.skip(n);
    proof {
        assert(s@ =~= head + tail);
        lemma_prefix_boundary(head, tail);
        lemma_encode_concat(head, tail);
    }
    let parts = s.split_at(at);
    proof {
        let bytes = encode_utf8(s@);
        assert(bytes.subrange(0, at as int) =~= encode_utf8(head));
        assert(bytes.subrange(at as int, bytes.len() as int) =~= encode_utf8(tail));
        encode_utf8_decode_utf8(head);
        encode_utf8_decode_utf8(tail);
        encode_utf8_decode_utf8(parts.0@);
        encode_utf8_decode_utf8(parts.1@);
    }
    parts
}

/// The first character of `s`, if it has one.
pub fn first_char(s: &str) -> (c: Option<char>)
    ensures
        c == (if s@.len() > 0 {
            Some(s@[0])
        } else {
            None
        }),
{
    let mut it = s.chars();
    it.next()
}

/// Cuts `s` after its longest prefix of characters of `class`.
pub fn split_run<'a>(s: &'a str, class: CharClass) -> (parts: (&'a str, &'a str))
    ensures
        parts.0@ == s@.take(run_len(s@, class) as int),
        parts.1@ == s@.skip(run_len(s@, class) as int),
{
    let total = s.as_bytes().len();
    let mut it = s.chars();
    let mut at: usize = 0;
    let ghost mut n: int = 0;
    proof {
        assert(s@.skip(0) =~= s@);
        assert(s@.take(0) =~= Seq::<char>::empty());
        lemma_bytes_left(s@, 0);
    }
    while at < total
        invariant_except_break
            it.remaining() == s@.skip(n),
        invariant
            0 <= n <= s@.len(),
            at == encode_utf8(s@.take(n)).len(),
            total == encode_utf8(s@).len(),
            at <= total,
            (at == total) == (n == s@.len()),
            run_len(s@, class) == n + run_len(s@.skip(n), class),
        ensures
            0 <= n <= s@.len(),
            n == run_len(s@, class),
            at == encode_utf8(s@.take(n)).len(),
        decreases s@.len() - n,
    {
        let c = match it.next() {
            Some(c) => c,
            None => unreached(),
        };
        if !class_contains(class, c) {
            break ;
        }
        proof {
            lemma_scan_step(s@, n);
        }
        at = at + utf8_width(c);
        proof {
            n = n + 1;
        }
    }
    split_chars(s, Ghost(n), at)
}

/// Whether `c` occurs in `s`.
pub fn str_contains(s: &str, c: char) -> (b: bool)
    ensures
        b == s@.contains(c),
{
    let mut it = s.chars();
    let ghost mut n: int = 0;
    proof {
        assert(s@.skip(0) =~= s@);
    }
    loop
        invariant_except_break
            it.remaining() == s@.skip(n),
        invariant
            0 <= n <= s@.len(),
            forall|i: int| 0 <= i < n ==> s@[i] != c,
        ensures
            n == s@.len(),
            forall|i: int| 0 <= i < n ==> s@[i] != c,
        decreases s@.len() - n,
    {
        match it.next() {
            None => {
                break ;
            },
            Some(d) => {
                proof {
                    lemma_scan_step(s@, n);
                }
                if d == c {
                    assert(s@[n] == c);
                    return true;
                }
                proof {
                    n = n + 1;
                }
            },
        }
    }
    false
}

/// Whether `s` is the one character `c`.
pub fn is_single(s: &str, c: char) -> (b: bool)
    ensures
        b == (s@ == seq![c]),
{
    let mut it = s.chars();
    proof {
        assert(s@.skip(0) =~= s@);
    }
    match it.next() {
        None => false,
        Some(d) => {
            let after = it.next();
            proof {
                if d == c && after.is_none() {
                    assert(s@ =~= seq![c]);
                }
            }
            d == c && after.is_none()
        },
    }
}

/// Whether `a` and `b` hold the same characters.
pub fn same_text(a: &str, b: &str) -> (same: bool)
    ensures
        same == (a@ == b@),
{
    let mut left = a.chars();
    let mut right = b.chars();
    let ghost mut n: int = 0;
    proof {
        assert(a@.skip(0) =~= a@);
        assert(b@.skip(0) =~= b@);
    }
    loop
        invariant
            0 <= n <= a@.len(),
            n <= b@.len(),
            left.remaining() == a@.skip(n),
            right.remaining() == b@.skip(n),
            forall|i: int| 0 <= i < n ==> a@[i] == b@[i],
        decreases a@.len() - n,
    {
        let c = left.next();
        let d = right.next();
        match (c, d) {
            (None, None) => {
                proof {
                    assert(a@ =~= b@);
                }
                return true;
            },
            (Some(c), Some(d)) => {
                proof {
                    lemma_scan_step(a@, n);
                    lemma_scan_step(b@, n);
                }
                if c != d {
                    assert(a@[n] != b@[n]);
                    return false;
                }
                proof {
                    n = n + 1;
                }
            },
            _ => {
                assert(a@.len() != b@.len());
                return false;
            },
        }
    }
}

} // verus!
