//! The tokenizer: text to a sequence of tokens that gives the text back.

use crate::error::SyntaxError;
use crate::text::{
    first_char, is_blank, is_blank_char, is_digit, is_digit_char, is_letter, is_letter_char,
    is_line_break, is_line_break_char, is_single, lemma_bytes_left, lemma_run_len,
    lemma_scan_step, run_len,
    same_text, split_chars, split_run, str_contains, utf8_width, CharClass,
};
use vstd::prelude::*;
use vstd::std_specs::iter::IteratorSpec;
use vstd::string::*;
use vstd::utf8::*;

verus! {

/// The kinds of token.
#[derive(Clone, Copy, Debug, PartialEq, Eq, Structural)]
pub enum TokenType {
    Punctuation,
    Whitespace,
    Newline,
    Comment,
    BareKey,
    BasicString,
    LiteralString,
    MultilineBasicString,
    MultilineLiteralString,
    Integer,
    Float,
    Boolean,
    Datetime,
}

/// A classified piece of source text.
#[derive(Debug, Eq)]
pub struct Token {
    pub kind: TokenType,
    pub text: String,
}

/// The mathematical model of a token: its kind and its characters.
pub struct Lexeme {
    pub kind: TokenType,
    pub text: Seq<char>,
}

impl View for Token {
    type V = Lexeme;

    open spec fn view(&self) -> Lexeme {
        Lexeme { kind: self.kind, text: self.text@ }
    }
}

impl PartialEq for Token {
    fn eq(&self, other: &Token) -> (b: bool) {
        self.kind == other.kind && self.text == other.text
    }
}

impl vstd::std_specs::cmp::PartialEqSpecImpl for Token {
    open spec fn obeys_eq_spec() -> bool {
        true
    }

    open spec fn eq_spec(&self, other: &Token) -> bool {
        self.kind == other.kind && self.text@ == other.text@
    }
}

impl Clone for Token {
    fn clone(&self) -> (copy: Token)
        ensures
            copy == *self,
    {
        Token { kind: self.kind, text: self.text.clone() }
    }
}

/// The views of a sequence of tokens.
pub open spec fn lexemes(tokens: Seq<Token>) -> Seq<Lexeme> {
    tokens.map_values(|t: Token| t@)
}

/// The text that a sequence of tokens stands for: their texts, one after
/// the other.
pub open spec fn flatten(ls: Seq<Lexeme>) -> Seq<char>
    decreases ls.len(),
{
    if ls.len() == 0 {
        Seq::empty()
    } else {
        flatten(ls.drop_last()) + ls.last().text
    }
}

/// The text of a sequence with one more token.
pub proof fn lemma_flatten_push(ls: Seq<Lexeme>, l: Lexeme)
    ensures
        flatten(ls.push(l)) == flatten(ls) + l.text,
{
    assert(ls.push(l).drop_last() =~= ls);
}

/// The text of two sequences put together is their texts put together.
pub proof fn lemma_flatten_concat(a: Seq<Lexeme>, b: Seq<Lexeme>)
    ensures
        flatten(a + b) == flatten(a) + flatten(b),
    decreases b.len(),
{
    if b.len() == 0 {
        assert(a + b =~= a);
        assert(flatten(a) + flatten(b) =~= flatten(a));
    } else {
        lemma_flatten_concat(a, b.drop_last());
        assert((a + b).drop_last() =~= a + b.drop_last());
        assert(flatten(a + b) =~= flatten(a) + flatten(b));
    }
}

/// The views of a sequence with one more token.
pub proof fn lemma_lexemes_push(tokens: Seq<Token>, t: Token)
    ensures
        lexemes(tokens.push(t)) == lexemes(tokens).push(t@),
{
    assert(lexemes(tokens.push(t)) =~= lexemes(tokens).push(t@));
}

/// Whether a token of this kind takes part in the structure of a document:
/// all do but whitespace, line breaks and comments.
pub open spec fn significant(kind: TokenType) -> bool {
    kind != TokenType::Whitespace && kind != TokenType::Newline && kind != TokenType::Comment
}

/// Whether a token of this kind takes part in the structure of a document.
pub fn is_significant(kind: TokenType) -> (b: bool)
    ensures
        b == significant(kind),
{
    kind != TokenType::Whitespace && kind != TokenType::Newline && kind != TokenType::Comment
}

// ---------------------------------------------------------------------
// Runs of characters
// ---------------------------------------------------------------------

/// The token of `kind` that the longest run of `class` at the start of
/// `rest` makes.
pub open spec fn run_lexeme(kind: TokenType, rest: Seq<char>, class: CharClass) -> Lexeme {
    Lexeme { kind, text: rest.take(run_len(rest, class) as int) }
}

/// The one-character token at the start of `rest` (empty where `rest` is).
pub open spec fn punctuation_lexeme(rest: Seq<char>) -> Lexeme {
    Lexeme {
        kind: TokenType::Punctuation,
        text: rest.take(
            if rest.len() > 0 {
                1
            } else {
                0
            },
        ),
    }
}

/// The kind of a number or date-time with the characters `t`: a float where
/// it holds `e` or `E`; else a date-time where it holds `-` and does not
/// begin with it; else a float where it holds `.`; else an integer.
pub open spec fn number_kind(t: Seq<char>) -> TokenType {
    if t.contains('e') || t.contains('E') {
        TokenType::Float
    } else if t.contains('-') && t[0] != '-' {
        TokenType::Datetime
    } else if t.contains('.') {
        TokenType::Float
    } else {
        TokenType::Integer
    }
}

/// The number or date-time at the start of `rest`: all up to the next
/// blank, line break or `#`.
pub open spec fn number_lexeme(rest: Seq<char>) -> Lexeme {
    let t = rest.take(run_len(rest, CharClass::ScalarBody) as int);
    Lexeme { kind: number_kind(t), text: t }
}

fn read_run<'a>(s: &'a str, kind: TokenType, class: CharClass) -> (res: (Token, &'a str))
    ensures
        res.0@ == run_lexeme(kind, s@, class),
        res.1@ == s@.skip(run_len(s@, class) as int),
{
    let (tok, remainder) = split_run(s, class);
    (Token { kind, text: tok.to_owned() }, remainder)
}

/// Reads the blanks at the start of `s`.
pub fn read_whitespace(s: &str) -> (res: (Token, &str))
    ensures
        res.0@ == run_lexeme(TokenType::Whitespace, s@, CharClass::Blank),
        res.1@ == s@.skip(res.0@.text.len() as int),
{
    proof {
        lemma_run_len(s@, CharClass::Blank);
    }
    read_run(s, TokenType::Whitespace, CharClass::Blank)
}

/// Reads the line breaks at the start of `s`.
pub fn read_newline(s: &str) -> (res: (Token, &str))
    ensures
        res.0@ == run_lexeme(TokenType::Newline, s@, CharClass::LineBreak),
        res.1@ == s@.skip(res.0@.text.len() as int),
{
    proof {
        lemma_run_len(s@, CharClass::LineBreak);
    }
    read_run(s, TokenType::Newline, CharClass::LineBreak)
}

/// Reads a comment: all of `s` up to the next line break.
pub fn read_comment(s: &str) -> (res: (Token, &str))
    ensures
        res.0@ == run_lexeme(TokenType::Comment, s@, CharClass::CommentBody),
        res.1@ == s@.skip(res.0@.text.len() as int),
{
    proof {
        lemma_run_len(s@, CharClass::CommentBody);
    }
    read_run(s, TokenType::Comment, CharClass::CommentBody)
}

/// Reads the first character of `s` as punctuation.
pub fn read_punctuation(s: &str) -> (res: (Token, &str))
    ensures
        res.0@ == punctuation_lexeme(s@),
        res.1@ == s@.skip(res.0@.text.len() as int),
{
    match first_char(s) {
        None => {
            proof {
                assert(s@.take(0) =~= s@);
                assert(s@.skip(0) =~= s@);
            }
            (Token { kind: TokenType::Punctuation, text: s.to_owned() }, s)
        },
        Some(c) => {
            proof {
                assert(s@.take(0) =~= Seq::<char>::empty());
                lemma_scan_step(s@, 0);
            }
            let (tok, remainder) = split_chars(s, Ghost(1), utf8_width(c));
            (Token { kind: TokenType::Punctuation, text: tok.to_owned() }, remainder)
        },
    }
}

/// Reads a number or a date-time: all of `s` up to the next blank, line
/// break or `#`, classified by `number_kind`.
pub fn read_number_or_datetime(s: &str) -> (res: (Token, &str))
    ensures
        res.0@ == number_lexeme(s@),
        res.1@ == s@.skip(res.0@.text.len() as int),
{
    proof {
        lemma_run_len(s@, CharClass::ScalarBody);
    }
    let (tok, remainder) = split_run(s, CharClass::ScalarBody);
    let kind = if str_contains(tok, 'e') || str_contains(tok, 'E') {
        TokenType::Float
    } else if str_contains(tok, '-') && first_char(tok) != Some('-') {
        TokenType::Datetime
    } else if str_contains(tok, '.') {
        TokenType::Float
    } else {
        TokenType::Integer
    };
    (Token { kind, text: tok.to_owned() }, remainder)
}

/// Reads a boolean: all of `s` up to the next blank, line break or `#`.
pub fn read_boolean(s: &str) -> (res: (Token, &str))
    ensures
        res.0@ == run_lexeme(TokenType::Boolean, s@, CharClass::ScalarBody),
        res.1@ == s@.skip(res.0@.text.len() as int),
{
    proof {
        lemma_run_len(s@, CharClass::ScalarBody);
    }
    read_run(s, TokenType::Boolean, CharClass::ScalarBody)
}

/// Reads a bare key: the letters, digits, `_` and `-` at the start of `s`.
pub fn read_bare_key(s: &str) -> (res: (Token, &str))
    ensures
        res.0@ == run_lexeme(TokenType::BareKey, s@, CharClass::Bare),
        res.1@ == s@.skip(res.0@.text.len() as int),
{
    proof {
        lemma_run_len(s@, CharClass::Bare);
    }
    read_run(s, TokenType::BareKey, CharClass::Bare)
}

// ---------------------------------------------------------------------
// Quoted strings
// ---------------------------------------------------------------------

/// Number of quote characters that open, and close, the string at the
/// start of `s`: three where `s` begins with three, else one.
pub open spec fn opening_width(s: Seq<char>, quote: char) -> int {
    if s.len() >= 3 && s[0] == quote && s[1] == quote && s[2] == quote {
        3
    } else {
        1
    }
}

/// Number of backslashes that stand in a row directly before position `i`,
/// those before position `from` not counted.
pub open spec fn backslashes_before(s: Seq<char>, from: int, i: int) -> nat
    decreases i - from,
{
    if from < i <= s.len() && s[i - 1] == '\\' {
        1 + backslashes_before(s, from, i - 1)
    } else {
        0
    }
}

/// Whether the string that opens at the start of `s` can close at `j`: as
/// many quotes as opened it stand there, after the opening ones, and, where
/// backslashes escape, an even number of them stands directly before.
pub open spec fn closes_at(s: Seq<char>, quote: char, escapes: bool, j: int) -> bool {
    let w = opening_width(s, quote);
    &&& w <= j
    &&& j + w <= s.len()
    &&& s[j] == quote
    &&& (w == 3 ==> s[j + 1] == quote && s[j + 2] == quote)
    &&& (escapes ==> backslashes_before(s, w, j) % 2 == 0)
}

/// The first position from `j` on at which the string closes.
pub open spec fn first_close(s: Seq<char>, quote: char, escapes: bool, j: int) -> Option<int>
    decreases s.len() - j,
{
    if j + opening_width(s, quote) > s.len() {
        None
    } else if closes_at(s, quote, escapes, j) {
        Some(j)
    } else {
        first_close(s, quote, escapes, j + 1)
    }
}

/// Length of the quoted string at the start of `s`, closing quotes
/// included; `None` where it does not close.
pub open spec fn quoted_len(s: Seq<char>, quote: char, escapes: bool) -> Option<int> {
    let w = opening_width(s, quote);
    match first_close(s, quote, escapes, w) {
        Some(j) => Some(j + w),
        None => None,
    }
}

/// `first_close` gives the least closing position from `from` on, and
/// `None` only where there is none.
pub proof fn lemma_first_close(s: Seq<char>, quote: char, escapes: bool, from: int)
    ensures
        match first_close(s, quote, escapes, from) {
            Some(j) => {
                &&& from <= j
                &&& closes_at(s, quote, escapes, j)
                &&& forall|k: int| from <= k < j ==> !closes_at(s, quote, escapes, k)
            },
            None => forall|k: int| from <= k ==> !closes_at(s, quote, escapes, k),
        },
    decreases s.len() - from,
{
    if from + opening_width(s, quote) <= s.len() && !closes_at(s, quote, escapes, from) {
        lemma_first_close(s, quote, escapes, from + 1);
    }
}

proof fn lemma_first_close_skip(s: Seq<char>, quote: char, escapes: bool, j: int)
    requires
        !closes_at(s, quote, escapes, j),
    ensures
        first_close(s, quote, escapes, j) == first_close(s, quote, escapes, j + 1),
{
    if j + opening_width(s, quote) > s.len() {
        assert(first_close(s, quote, escapes, j + 1) is None);
    }
}

/// The quoted string at the start of `rest`, of kind `single` where one
/// quote opens it and of kind `multi` where three do.
pub open spec fn quoted_lexeme(
    rest: Seq<char>,
    quote: char,
    escapes: bool,
    single: TokenType,
    multi: TokenType,
) -> Result<Lexeme, SyntaxError> {
    match quoted_len(rest, quote, escapes) {
        Some(n) => Ok(
            Lexeme {
                kind: if opening_width(rest, quote) == 3 {
                    multi
                } else {
                    single
                },
                text: rest.take(n),
            },
        ),
        None => Err(SyntaxError::UnterminatedString),
    }
}

/// The literal string at the start of `rest`: no character escapes.
pub open spec fn literal_string_lexeme(rest: Seq<char>) -> Result<Lexeme, SyntaxError> {
    quoted_lexeme(
        rest,
        '\'',
        false,
        TokenType::LiteralString,
        TokenType::MultilineLiteralString,
    )
}

/// The basic string at the start of `rest`: a backslash escapes the
/// character after it.
pub open spec fn basic_string_lexeme(rest: Seq<char>) -> Result<Lexeme, SyntaxError> {
    quoted_lexeme(rest, '"', true, TokenType::BasicString, TokenType::MultilineBasicString)
}

fn opens_multiline(s: &str, quote: char) -> (b: bool)
    ensures
        b == (opening_width(s@, quote) == 3),
{
    let mut it = s.chars();
    proof {
        assert(s@.skip(0) =~= s@);
    }
    let first = it.next();
    let second = it.next();
    let third = it.next();
    proof {
        if s@.len() >= 1 {
            lemma_scan_step(s@, 0);
        }
        if s@.len() >= 2 {
            lemma_scan_step(s@, 1);
        }
        if s@.len() >= 3 {
            lemma_scan_step(s@, 2);
        }
    }
    first == Some(quote) && second == Some(quote) && third == Some(quote)
}

fn scan_quoted<'a>(s: &'a str, quote: char, escapes: bool) -> (res: Option<
    (bool, &'a str, &'a str),
>)
    requires
        quote != '\\',
    ensures
        match res {
            Some((multiline, tok, rest)) => {
                &&& quoted_len(s@, quote, escapes) == Some(tok@.len() as int)
                &&& multiline == (opening_width(s@, quote) == 3)
                &&& tok@.len() <= s@.len()
                &&& tok@ == s@.take(tok@.len() as int)
                &&& rest@ == s@.skip(tok@.len() as int)
            },
            None => quoted_len(s@, quote, escapes) is None,
        },
{
    let multiline = opens_multiline(s, quote);
    let w: usize = if multiline {
        3
    } else {
        1
    };
    let total = s.as_bytes().len();
    let mut it = s.chars();
    let mut at: usize = 0;
    let mut i: usize = 0;
    let mut run: usize = 0;
    let mut escape = false;
    proof {
        assert(s@.skip(0) =~= s@);
        assert(s@.take(0) =~= Seq::<char>::empty());
        lemma_bytes_left(s@, 0);
    }
    while at < total
        invariant
            it.remaining() == s@.skip(i as int),
            quote != '\\',
            w == opening_width(s@, quote),
            multiline == (w == 3),
            0 <= i <= s@.len(),
            at == encode_utf8(s@.take(i as int)).len(),
            total == encode_utf8(s@).len(),
            at <= total,
            (at == total) == (i == s@.len()),
            run < w,
            i < w ==> run == 0 && !escape,
            i >= w ==> i - run >= w,
            forall|k: int| i - run <= k < i ==> s@[k] == quote,
            escapes && i >= w ==> escape == (backslashes_before(s@, w as int, i as int) % 2
                == 1),
            !escapes ==> !escape,
            escape ==> run == 0,
            escapes && run > 0 ==> backslashes_before(s@, w as int, i - run) % 2 == 0,
            i >= w ==> first_close(s@, quote, escapes, w as int) == first_close(
                s@,
                quote,
                escapes,
                i - run,
            ),
        decreases s@.len() - i,
    {
        let c = match it.next() {
            Some(c) => c,
            None => unreached(),
        };
        let ghost p = i as int;
        let ghost old_run = run as int;
        proof {
            lemma_scan_step(s@, p);
        }
        at = at + utf8_width(c);
        i = i + 1;
        if i > w {
            if c == quote && !escape {
                run = run + 1;
                if run == w {
                    proof {
                        assert(closes_at(s@, quote, escapes, i - w));
                    }
                    let (tok, rest) = split_chars(s, Ghost(i as int), at);
                    return Some((multiline, tok, rest));
                }
            } else {
                proof {
                    if old_run >= 2 {
                        lemma_first_close_skip(s@, quote, escapes, p - 2);
                    }
                    if old_run >= 1 {
                        lemma_first_close_skip(s@, quote, escapes, p - 1);
                    }
                    lemma_first_close_skip(s@, quote, escapes, p);
                }
                run = 0;
                escape = escapes && c == '\\' && !escape;
            }
        }
    }
    proof {
        if i >= w {
            assert(first_close(s@, quote, escapes, i - run) is None);
        } else {
            assert(first_close(s@, quote, escapes, w as int) is None);
        }
    }
    None
}

/// Reads a literal string, in single quotes or in three of them: all of `s`
/// up to the first closing quotes after the opening ones. No character
/// escapes another. Fails where the string does not close.
pub fn read_literal_string(s: &str) -> (res: Result<(Token, &str), SyntaxError>)
    ensures
        match res {
            Ok((tok, rest)) => literal_string_lexeme(s@) == Ok::<Lexeme, SyntaxError>(tok@)
                && rest@ == s@.skip(tok@.text.len() as int),
            Err(e) => literal_string_lexeme(s@) == Err::<Lexeme, SyntaxError>(e),
        },
{
    match scan_quoted(s, '\'', false) {
        Some((multiline, tok, rest)) => {
            let kind = if multiline {
                TokenType::MultilineLiteralString
            } else {
                TokenType::LiteralString
            };
            Ok((Token { kind, text: tok.to_owned() }, rest))
        },
        None => Err(SyntaxError::UnterminatedString),
    }
}

/// Reads a basic string, in double quotes or in three of them: all of `s` up
/// to the first closing quotes after the opening ones that no backslash
/// escapes. Fails where the string does not close.
pub fn read_basic_string(s: &str) -> (res: Result<(Token, &str), SyntaxError>)
    ensures
        match res {
            Ok((tok, rest)) => basic_string_lexeme(s@) == Ok::<Lexeme, SyntaxError>(tok@)
                && rest@ == s@.skip(tok@.text.len() as int),
            Err(e) => basic_string_lexeme(s@) == Err::<Lexeme, SyntaxError>(e),
        },
{
    match scan_quoted(s, '"', true) {
        Some((multiline, tok, rest)) => {
            let kind = if multiline {
                TokenType::MultilineBasicString
            } else {
                TokenType::BasicString
            };
            Ok((Token { kind, text: tok.to_owned() }, rest))
        },
        None => Err(SyntaxError::UnterminatedString),
    }
}

// ---------------------------------------------------------------------
// Tokens made from a text alone
// ---------------------------------------------------------------------

/// The kind of a token with the text `text`, where nothing is known of what
/// stands around it. The first character decides as it does for the
/// tokenizer. A digit or a sign starts a number or a date-time, `true` and
/// `false` are booleans, and what starts with none of the characters that
/// the tokenizer knows is taken for a bare key. The empty text is
/// whitespace.
pub open spec fn lone_kind(text: Seq<char>) -> TokenType {
    if text.len() == 0 {
        TokenType::Whitespace
    } else {
        let c = text[0];
        if is_blank(c) {
            TokenType::Whitespace
        } else if is_line_break(c) {
            TokenType::Newline
        } else if c == '#' {
            TokenType::Comment
        } else if c == '[' || c == '{' || c == '=' || c == '.' || c == ',' || c == ']' || c == '}' {
            TokenType::Punctuation
        } else if c == '+' || c == '-' || is_digit(c) {
            number_kind(text)
        } else if c == '\'' {
            if opening_width(text, '\'') == 3 {
                TokenType::MultilineLiteralString
            } else {
                TokenType::LiteralString
            }
        } else if c == '"' {
            if opening_width(text, '"') == 3 {
                TokenType::MultilineBasicString
            } else {
                TokenType::BasicString
            }
        } else if text == "true"@ || text == "false"@ {
            TokenType::Boolean
        } else {
            TokenType::BareKey
        }
    }
}

impl Token {
    /// The token with the text `text`, of the kind that the text has by
    /// itself.
    pub fn from(text: &str) -> (tok: Token)
        ensures
            tok@ == (Lexeme { kind: lone_kind(text@), text: text@ }),
    {
        let kind = match first_char(text) {
            None => TokenType::Whitespace,
            Some(c) => {
                if is_blank_char(c) {
                    TokenType::Whitespace
                } else if is_line_break_char(c) {
                    TokenType::Newline
                } else if c == '#' {
                    TokenType::Comment
                } else if c == '[' || c == '{' || c == '=' || c == '.' || c == ',' || c == ']' || c
                    == '}' {
                    TokenType::Punctuation
                } else if c == '+' || c == '-' || is_digit_char(c) {
                    if str_contains(text, 'e') || str_contains(text, 'E') {
                        TokenType::Float
                    } else if str_contains(text, '-') && c != '-' {
                        TokenType::Datetime
                    } else if str_contains(text, '.') {
                        TokenType::Float
                    } else {
                        TokenType::Integer
                    }
                } else if c == '\'' {
                    if opens_multiline(text, '\'') {
                        TokenType::MultilineLiteralString
                    } else {
                        TokenType::LiteralString
                    }
                } else if c == '"' {
                    if opens_multiline(text, '"') {
                        TokenType::MultilineBasicString
                    } else {
                        TokenType::BasicString
                    }
                } else if same_text(text, "true") || same_text(text, "false") {
                    TokenType::Boolean
                } else {
                    TokenType::BareKey
                }
            },
        };
        Token { kind, text: text.to_owned() }
    }

    /// The token of kind `kind` whose text is the one character `c`.
    pub fn single(kind: TokenType, c: char) -> (tok: Token)
        ensures
            tok@ == (Lexeme { kind, text: seq![c] }),
    {
        let mut text = String::new();
        text.push(c);
        proof {
            assert(text@ =~= seq![c]);
        }
        Token { kind, text }
    }
}

// ---------------------------------------------------------------------
// The tokenizer
// ---------------------------------------------------------------------

/// Whether the last token of `done` that is no whitespace is a `,` or a `{`.
pub open spec fn after_separator(done: Seq<Lexeme>) -> bool
    decreases done.len(),
{
    if done.len() == 0 {
        false
    } else if done.last().kind == TokenType::Whitespace {
        after_separator(done.drop_last())
    } else {
        done.last().kind == TokenType::Punctuation && (done.last().text == seq![','] || done.last().text
            == seq!['{'])
    }
}

/// Whether a key is read next: outside a value always; inside one only
/// where the innermost open bracket is `{` and a `{` or `,` came last,
/// whitespace aside.
pub open spec fn key_position(in_value: bool, brackets: Seq<char>, done: Seq<Lexeme>) -> bool {
    !in_value || (brackets.len() > 0 && brackets.last() == '{' && after_separator(done))
}

/// Whether the tokenizer, having read `tokens`, reads a key next. `in_rhs`
/// says whether it is inside a value, `bracket_stack` holds the brackets
/// that are open.
pub fn key_context(in_rhs: bool, bracket_stack: &Vec<char>, tokens: &Vec<Token>) -> (b: bool)
    ensures
        b == key_position(in_rhs, bracket_stack@, lexemes(tokens@)),
{
    if !in_rhs {
        return true;
    }
    let depth = bracket_stack.len();
    if depth == 0 || bracket_stack[depth - 1] != '{' {
        return false;
    }
    let mut i = tokens.len();
    proof {
        assert(lexemes(tokens@).take(i as int) =~= lexemes(tokens@));
    }
    while i > 0
        invariant
            0 <= i <= tokens.len(),
            in_rhs,
            bracket_stack@.len() > 0,
            bracket_stack@.last() == '{',
            after_separator(lexemes(tokens@)) == after_separator(lexemes(tokens@).take(i as int)),
        decreases i,
    {
        let token = &tokens[i - 1];
        proof {
            assert(lexemes(tokens@).take(i as int).last() == token@);
            assert(lexemes(tokens@).take(i as int).drop_last() =~= lexemes(tokens@).take(i - 1));
        }
        if token.kind == TokenType::Whitespace {
            i = i - 1;
        } else {
            return token.kind == TokenType::Punctuation && (is_single(token.text.as_str(), ',')
                || is_single(token.text.as_str(), '{'));
        }
    }
    false
}

/// The token at the start of the non-empty text `rest`. `key_pos` says
/// whether a key is read next, `depth` how many brackets are open, and
/// `position` where `rest` starts in the whole text.
///
/// The first character decides. Blanks, line breaks and `#` start a run of
/// whitespace, of line breaks, and a comment. `[`, `{`, `=`, `.` and `,`
/// are punctuation, and so are `]` and `}` where a bracket is open. `+`
/// starts a number or a date-time; a digit and `-` start a bare key where a
/// key is read and a number or a date-time elsewhere; `t` and `f` start a
/// bare key where a key is read and a boolean elsewhere. Any other letter
/// and `_` start a bare key, and cannot start a value. `'` and `"` open a
/// literal and a basic string.
///
/// Fails on `]` and `}` where no bracket is open, on a string that does not
/// close, on a letter where a value is read, and on every other character.
pub open spec fn next_lexeme(rest: Seq<char>, key_pos: bool, depth: nat, position: nat) -> Result<
    Lexeme,
    SyntaxError,
> {
    let c = rest[0];
    if is_blank(c) {
        Ok(run_lexeme(TokenType::Whitespace, rest, CharClass::Blank))
    } else if is_line_break(c) {
        Ok(run_lexeme(TokenType::Newline, rest, CharClass::LineBreak))
    } else if c == '#' {
        Ok(run_lexeme(TokenType::Comment, rest, CharClass::CommentBody))
    } else if c == '[' || c == '{' || c == '=' || c == '.' || c == ',' {
        Ok(punctuation_lexeme(rest))
    } else if c == ']' || c == '}' {
        if depth == 0 {
            Err(SyntaxError::UnbalancedBracket)
        } else {
            Ok(punctuation_lexeme(rest))
        }
    } else if c == '+' {
        Ok(number_lexeme(rest))
    } else if is_digit(c) || c == '-' {
        if key_pos {
            Ok(run_lexeme(TokenType::BareKey, rest, CharClass::Bare))
        } else {
            Ok(number_lexeme(rest))
        }
    } else if c == 't' || c == 'f' {
        if key_pos {
            Ok(run_lexeme(TokenType::BareKey, rest, CharClass::Bare))
        } else {
            Ok(run_lexeme(TokenType::Boolean, rest, CharClass::ScalarBody))
        }
    } else if is_letter(c) || c == '_' {
        if key_pos {
            Ok(run_lexeme(TokenType::BareKey, rest, CharClass::Bare))
        } else {
            Err(SyntaxError::UnexpectedCharacter { position: position as usize })
        }
    } else if c == '\'' {
        literal_string_lexeme(rest)
    } else if c == '"' {
        basic_string_lexeme(rest)
    } else {
        Err(SyntaxError::UnexpectedCharacter { position: position as usize })
    }
}

/// Whether the tokenizer is inside a value after a token that starts with
/// `c`: `=` enters one, a line break with no bracket open leaves it.
pub open spec fn next_in_value(c: char, in_value: bool, brackets: Seq<char>) -> bool {
    if c == '=' {
        true
    } else if is_line_break(c) && brackets.len() == 0 {
        false
    } else {
        in_value
    }
}

/// The open brackets after a token that starts with `c`: `[` and `{` are
/// put on top, `]` and `}` take the top one off.
pub open spec fn next_brackets(c: char, brackets: Seq<char>) -> Seq<char> {
    if c == '[' || c == '{' {
        brackets.push(c)
    } else if (c == ']' || c == '}') && brackets.len() > 0 {
        brackets.drop_last()
    } else {
        brackets
    }
}

/// The tokens of a text of which `done` has been read and `rest` is left.
pub open spec fn lex_from(
    rest: Seq<char>,
    in_value: bool,
    brackets: Seq<char>,
    done: Seq<Lexeme>,
) -> Result<Seq<Lexeme>, SyntaxError>
    decreases rest.len(),
{
    if rest.len() == 0 {
        Ok(done)
    } else {
        match next_lexeme(
            rest,
            key_position(in_value, brackets, done),
            brackets.len(),
            flatten(done).len(),
        ) {
            Err(e) => Err(e),
            Ok(l) => {
                proof {
                    lemma_next_lexeme(
                        rest,
                        key_position(in_value, brackets, done),
                        brackets.len(),
                        flatten(done).len(),
                    );
                }
                lex_from(
                    rest.skip(l.text.len() as int),
                    next_in_value(rest[0], in_value, brackets),
                    next_brackets(rest[0], brackets),
                    done.push(l),
                )
            },
        }
    }
}

/// The tokens of the text `s`, or why it has none.
pub open spec fn lex(s: Seq<char>) -> Result<Seq<Lexeme>, SyntaxError> {
    lex_from(s, false, Seq::empty(), Seq::empty())
}

/// The characters that are punctuation.
pub open spec fn is_punctuation_char(c: char) -> bool {
    c == '[' || c == ']' || c == '{' || c == '}' || c == '=' || c == '.' || c == ','
}

/// Whether `l` is as the tokenizer makes its tokens: not empty, and one
/// punctuation character where it is punctuation.
pub open spec fn well_formed(l: Lexeme) -> bool {
    l.text.len() > 0 && (l.kind == TokenType::Punctuation ==> l.text.len() == 1
        && is_punctuation_char(l.text[0]))
}

/// Every token is a non-empty prefix of the text it was read from, and
/// punctuation is one punctuation character.
pub proof fn lemma_next_lexeme(rest: Seq<char>, key_pos: bool, depth: nat, position: nat)
    requires
        rest.len() > 0,
    ensures
        next_lexeme(rest, key_pos, depth, position) matches Ok(l) ==> 0 < l.text.len() <= rest.len()
            && l.text == rest.take(l.text.len() as int) && well_formed(l),
{
    lemma_run_len(rest, CharClass::Blank);
    lemma_run_len(rest, CharClass::LineBreak);
    lemma_run_len(rest, CharClass::CommentBody);
    lemma_run_len(rest, CharClass::ScalarBody);
    lemma_run_len(rest, CharClass::Bare);
    lemma_first_close(rest, '\'', false, opening_width(rest, '\''));
    lemma_first_close(rest, '"', true, opening_width(rest, '"'));
}

/// The tokens read from a text give the text back.
pub proof fn lemma_lex_from_round_trip(
    rest: Seq<char>,
    in_value: bool,
    brackets: Seq<char>,
    done: Seq<Lexeme>,
)
    ensures
        lex_from(rest, in_value, brackets, done) matches Ok(ls) ==> flatten(ls) == flatten(done)
            + rest,
    decreases rest.len(),
{
    if rest.len() == 0 {
        assert(flatten(done) + rest =~= flatten(done));
    } else {
        let key_pos = key_position(in_value, brackets, done);
        lemma_next_lexeme(rest, key_pos, brackets.len(), flatten(done).len());
        match next_lexeme(rest, key_pos, brackets.len(), flatten(done).len()) {
            Err(e) => {},
            Ok(l) => {
                let n = l.text.len() as int;
                lemma_lex_from_round_trip(
                    rest.skip(n),
                    next_in_value(rest[0], in_value, brackets),
                    next_brackets(rest[0], brackets),
                    done.push(l),
                );
                lemma_flatten_push(done, l);
                assert((flatten(done) + rest.take(n)) + rest.skip(n) =~= flatten(done) + rest);
            },
        }
    }
}

proof fn lemma_lex_from_well_formed(
    rest: Seq<char>,
    in_value: bool,
    brackets: Seq<char>,
    done: Seq<Lexeme>,
)
    requires
        forall|i: int| 0 <= i < done.len() ==> well_formed(#[trigger] done[i]),
    ensures
        lex_from(rest, in_value, brackets, done) matches Ok(ls) ==> forall|i: int|
            0 <= i < ls.len() ==> well_formed(#[trigger] ls[i]),
    decreases rest.len(),
{
    if rest.len() > 0 {
        let key_pos = key_position(in_value, brackets, done);
        lemma_next_lexeme(rest, key_pos, brackets.len(), flatten(done).len());
        match next_lexeme(rest, key_pos, brackets.len(), flatten(done).len()) {
            Err(e) => {},
            Ok(l) => {
                lemma_lex_from_well_formed(
                    rest.skip(l.text.len() as int),
                    next_in_value(rest[0], in_value, brackets),
                    next_brackets(rest[0], brackets),
                    done.push(l),
                );
            },
        }
    }
}

/// No token of a text is empty, and each punctuation token is one
/// punctuation character, which takes one byte.
pub proof fn lemma_tokens_well_formed(s: Seq<char>)
    ensures
        lex(s) matches Ok(ls) ==> forall|i: int| 0 <= i < ls.len() ==> well_formed(#[trigger] ls[i]),
{
    lemma_lex_from_well_formed(s, false, Seq::empty(), Seq::empty());
}

/// Concatenating the texts of the tokens of `s` gives `s` back.
pub proof fn lemma_round_trip(s: Seq<char>)
    ensures
        lex(s) matches Ok(ls) ==> flatten(ls) == s,
{
    lemma_lex_from_round_trip(s, false, Seq::empty(), Seq::empty());
    assert(flatten(Seq::<Lexeme>::empty()) + s =~= s);
}

/// Splits `s` into tokens. The tokens cover `s` without gap or overlap:
/// their texts, one after the other, are `s`, and none is empty. Fails
/// where a character cannot start a token, a closing bracket has no open
/// one, or a string does not close.
pub fn tokenise(s: &str) -> (res: Result<Vec<Token>, SyntaxError>)
    ensures
        match res {
            Ok(tokens) => {
                &&& lex(s@) == Ok::<Seq<Lexeme>, SyntaxError>(lexemes(tokens@))
                &&& flatten(lexemes(tokens@)) == s@
                &&& forall|i: int| 0 <= i < tokens@.len() ==> well_formed(#[trigger] tokens@[i]@)
            },
            Err(e) => lex(s@) == Err::<Seq<Lexeme>, SyntaxError>(e),
        },
{
    let mut tokens: Vec<Token> = Vec::new();
    let mut remainder = s;
    let mut in_rhs = false;
    let mut bracket_stack: Vec<char> = Vec::new();
    proof {
        assert(lexemes(tokens@) =~= Seq::<Lexeme>::empty());
        assert(flatten(lexemes(tokens@)) + s@ =~= s@);
    }
    loop
        invariant
            lex(s@) == lex_from(remainder@, in_rhs, bracket_stack@, lexemes(tokens@)),
            flatten(lexemes(tokens@)) + remainder@ == s@,
        decreases remainder@.len(),
    {
        let c = match first_char(remainder) {
            None => {
                proof {
                    let ls = lexemes(tokens@);
                    assert(lex(s@) == Ok::<Seq<Lexeme>, SyntaxError>(ls));
                    assert(flatten(ls) + remainder@ =~= flatten(ls));
                    lemma_tokens_well_formed(s@);
                    assert forall|i: int| 0 <= i < tokens@.len() implies well_formed(
                        #[trigger] tokens@[i]@,
                    ) by {
                        assert(well_formed(lex(s@)->Ok_0[i]));
                        assert(ls[i] == tokens@[i]@);
                    }
                }
                return Ok(tokens);
            },
            Some(c) => c,
        };
        let ghost rest = remainder@;
        let ghost done = lexemes(tokens@);
        let ghost key_pos = key_position(in_rhs, bracket_stack@, done);
        proof {
            lemma_next_lexeme(rest, key_pos, bracket_stack@.len(), flatten(done).len());
        }
        let step: Result<(Token, &str), SyntaxError> = if is_blank_char(c) {
            Ok(read_whitespace(remainder))
        } else if is_line_break_char(c) {
            Ok(read_newline(remainder))
        } else if c == '#' {
            Ok(read_comment(remainder))
        } else if c == '[' || c == '{' || c == '=' || c == '.' || c == ',' {
            Ok(read_punctuation(remainder))
        } else if c == ']' || c == '}' {
            if bracket_stack.len() == 0 {
                Err(SyntaxError::UnbalancedBracket)
            } else {
                Ok(read_punctuation(remainder))
            }
        } else if c == '+' {
            Ok(read_number_or_datetime(remainder))
        } else if is_digit_char(c) || c == '-' {
            if key_context(in_rhs, &bracket_stack, &tokens) {
                Ok(read_bare_key(remainder))
            } else {
                Ok(read_number_or_datetime(remainder))
            }
        } else if c == 't' || c == 'f' {
            if key_context(in_rhs, &bracket_stack, &tokens) {
                Ok(read_bare_key(remainder))
            } else {
                Ok(read_boolean(remainder))
            }
        } else if is_letter_char(c) || c == '_' {
            if key_context(in_rhs, &bracket_stack, &tokens) {
                Ok(read_bare_key(remainder))
            } else {
                Err(
                    SyntaxError::UnexpectedCharacter {
                        position: s.unicode_len() - remainder.unicode_len(),
                    },
                )
            }
        } else if c == '\'' {
            read_literal_string(remainder)
        } else if c == '"' {
            read_basic_string(remainder)
        } else {
            Err(
                SyntaxError::UnexpectedCharacter {
                    position: s.unicode_len() - remainder.unicode_len(),
                },
            )
        };
        match step {
            Err(e) => {
                return Err(e);
            },
            Ok((tok, rem)) => {
                proof {
                    lemma_lexemes_push(tokens@, tok);
                    lemma_flatten_push(done, tok@);
                    assert((flatten(done) + rest.take(tok@.text.len() as int)) + rest.skip(
                        tok@.text.len() as int,
                    ) =~= flatten(done) + rest);
                }
                if c == '=' {
                    in_rhs = true;
                } else if is_line_break_char(c) && bracket_stack.len() == 0 {
                    in_rhs = false;
                }
                if c == '[' || c == '{' {
                    bracket_stack.push(c);
                } else if c == ']' || c == '}' {
                    bracket_stack.pop();
                }
                tokens.push(tok);
                remainder = rem;
            },
        }
    }
}

} // verus!
