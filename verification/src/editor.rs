//! The editor: a key/value line spliced into a table, with every other
//! token left as it is.

use crate::error::ErrorKind;
use crate::keypath::{KeyPath, KeyPathComponent, PathPart};
use crate::tableix::{find_span, find_table, lemma_find_span, lemma_tables_divide, tables};
use crate::text::{
    first_char, is_bare, lemma_run_len, lemma_run_len_unique, run_len, split_run, CharClass,
};
use crate::tokenise::{
    flatten, lemma_flatten_concat, lemma_lexemes_push, lexemes, lone_kind, Lexeme, Token,
    TokenType,
};
use crate::value::{quote_string, toml_string_text};
use vstd::prelude::*;

verus! {

/// Whether `s` is made of letters, digits, `_` and `-` alone.
pub open spec fn all_bare(s: Seq<char>) -> bool {
    forall|i: int| 0 <= i < s.len() ==> is_bare(#[trigger] s[i])
}

/// The token of the key `key`: a bare key where every character of it can
/// stand in one, else a basic string with the text that the value library
/// writes for `key`.
pub open spec fn key_lexeme(key: Seq<char>) -> Lexeme {
    if all_bare(key) {
        Lexeme { kind: TokenType::BareKey, text: key }
    } else {
        Lexeme { kind: TokenType::BasicString, text: toml_string_text(key) }
    }
}

/// Makes the token of the key `key`.
pub fn make_key_token(key: &str) -> (tok: Token)
    ensures
        tok@ == key_lexeme(key@),
{
    proof {
        lemma_run_len(key@, CharClass::Bare);
        if all_bare(key@) {
            lemma_run_len_unique(key@, CharClass::Bare, key@.len() as int);
        }
    }
    let (_, rest) = split_run(key, CharClass::Bare);
    if first_char(rest).is_none() {
        proof {
            assert(run_len(key@, CharClass::Bare) == key@.len());
        }
        Token { kind: TokenType::BareKey, text: key.to_owned() }
    } else {
        proof {
            assert(!is_bare(key@[run_len(key@, CharClass::Bare) as int]));
        }
        Token { kind: TokenType::BasicString, text: quote_string(key) }
    }
}

/// Where the content of a table body ends: `end`, moved back over the
/// whitespace and the line breaks that stand before it, not beyond `start`.
pub open spec fn content_end(tokens: Seq<Lexeme>, start: int, end: int) -> int
    decreases end - start,
{
    if start < end <= tokens.len() && (tokens[end - 1].kind == TokenType::Whitespace || tokens[end
        - 1].kind == TokenType::Newline) {
        content_end(tokens, start, end - 1)
    } else {
        end
    }
}

/// The content of a body ends within the body.
pub proof fn lemma_content_end(tokens: Seq<Lexeme>, start: int, end: int)
    requires
        start <= end,
    ensures
        start <= content_end(tokens, start, end) <= end,
    decreases end - start,
{
    if start < end <= tokens.len() && (tokens[end - 1].kind == TokenType::Whitespace || tokens[end
        - 1].kind == TokenType::Newline) {
        lemma_content_end(tokens, start, end - 1);
    }
}

/// The six tokens of a new line `key = value`: a line break, the key, a
/// space, `=`, a space, and the value, which is one token with the text
/// `value`.
pub open spec fn key_value_line(key: Seq<char>, value: Seq<char>) -> Seq<Lexeme> {
    seq![
        Lexeme { kind: TokenType::Newline, text: seq!['\n'] },
        key_lexeme(key),
        Lexeme { kind: TokenType::Whitespace, text: seq![' '] },
        Lexeme { kind: TokenType::Punctuation, text: seq!['='] },
        Lexeme { kind: TokenType::Whitespace, text: seq![' '] },
        Lexeme { kind: lone_kind(value), text: value },
    ]
}

/// `tokens` with `line` put in before the token at `at`.
pub open spec fn splice(tokens: Seq<Lexeme>, at: int, line: Seq<Lexeme>) -> Seq<Lexeme> {
    tokens.take(at) + line + tokens.skip(at)
}

/// Where the line for the key `key` goes: after the content of the first
/// table whose key is the parent of `key`, before the whitespace and the
/// line breaks that end its body.
///
/// Fails where `key` is the root or ends in an index, where the tables of
/// the document cannot be found, and where none of them is the parent.
pub open spec fn insertion_point(tokens: Seq<Lexeme>, key: Seq<PathPart>) -> Result<
    int,
    ErrorKind,
> {
    if key.len() == 0 {
        Err(ErrorKind::InvalidKeyPathSyntax)
    } else {
        match tables(tokens) {
            Err(e) => Err(e),
            Ok(ts) => match find_span(ts, key.drop_last()) {
                None => Err(ErrorKind::TableNotFound),
                Some(t) => match key.last() {
                    PathPart::Key(_) => Ok(content_end(tokens, t.start, t.end)),
                    PathPart::Ix(_) => Err(ErrorKind::InvalidKeyPathSyntax),
                },
            },
        }
    }
}

/// The document with a line that gives the key `key` the value `value`.
pub open spec fn inserted(tokens: Seq<Lexeme>, key: Seq<PathPart>, value: Seq<char>) -> Result<
    Seq<Lexeme>,
    ErrorKind,
> {
    match insertion_point(tokens, key) {
        Err(e) => Err(e),
        Ok(at) => Ok(splice(tokens, at, key_value_line(key.last()->Key_0, value))),
    }
}

/// Whether `out` is `tokens` with one line put in before the token at `at`:
/// six tokens are new, a line break, a key, a space, `=`, a space and a
/// value with the text `value`; every token before them and every token
/// after them is a token of `tokens`, at its place among the others.
pub open spec fn differs_by_line(
    tokens: Seq<Lexeme>,
    out: Seq<Lexeme>,
    at: int,
    value: Seq<char>,
) -> bool {
    &&& 0 <= at <= tokens.len()
    &&& out.len() == tokens.len() + 6
    &&& forall|i: int| 0 <= i < at ==> #[trigger] out[i] == tokens[i]
    &&& forall|i: int| at <= i < tokens.len() ==> #[trigger] out[i + 6] == tokens[i]
    &&& out[at] == (Lexeme { kind: TokenType::Newline, text: seq!['\n'] })
    &&& out[at + 1].kind == TokenType::BareKey || out[at + 1].kind == TokenType::BasicString
    &&& out[at + 2] == (Lexeme { kind: TokenType::Whitespace, text: seq![' '] })
    &&& out[at + 3] == (Lexeme { kind: TokenType::Punctuation, text: seq!['='] })
    &&& out[at + 4] == (Lexeme { kind: TokenType::Whitespace, text: seq![' '] })
    &&& out[at + 5].text == value
}

/// The insertion point lies within the document.
pub proof fn lemma_insertion_point(tokens: Seq<Lexeme>, key: Seq<PathPart>)
    ensures
        insertion_point(tokens, key) matches Ok(at) ==> 0 <= at <= tokens.len(),
{
    if insertion_point(tokens, key) is Ok {
        let ts = tables(tokens)->Ok_0;
        let t = find_span(ts, key.drop_last())->Some_0;
        lemma_tables_divide(tokens);
        lemma_find_span(ts, key.drop_last());
        lemma_content_end(tokens, t.start, t.end);
    }
}

/// A key of the root table can be inserted into every document whose
/// tables can be found: the root table is always there.
pub proof fn lemma_insertion_at_root(tokens: Seq<Lexeme>, name: Seq<char>)
    requires
        tables(tokens) is Ok,
    ensures
        insertion_point(tokens, seq![PathPart::Key(name)]) is Ok,
{
    let key = seq![PathPart::Key(name)];
    lemma_tables_divide(tokens);
    assert(key.drop_last() =~= Seq::<PathPart>::empty());
}

/// What a splice leaves as it was, and what it does to the text.
proof fn lemma_splice(tokens: Seq<Lexeme>, at: int, line: Seq<Lexeme>)
    requires
        0 <= at <= tokens.len(),
    ensures
        splice(tokens, at, line).len() == tokens.len() + line.len(),
        forall|i: int| 0 <= i < at ==> #[trigger] splice(tokens, at, line)[i] == tokens[i],
        forall|i: int|
            0 <= i < line.len() ==> #[trigger] splice(tokens, at, line)[at + i] == line[i],
        forall|i: int|
            at <= i < tokens.len() ==> #[trigger] splice(tokens, at, line)[i + line.len()]
                == tokens[i],
        flatten(splice(tokens, at, line)) == flatten(tokens.take(at)) + flatten(line) + flatten(
            tokens.skip(at),
        ),
        flatten(tokens) == flatten(tokens.take(at)) + flatten(tokens.skip(at)),
{
    lemma_flatten_concat(tokens.take(at) + line, tokens.skip(at));
    lemma_flatten_concat(tokens.take(at), line);
    lemma_flatten_concat(tokens.take(at), tokens.skip(at));
    assert(tokens.take(at) + tokens.skip(at) =~= tokens);
}

/// An insertion changes nothing but at one place: the result is the
/// document with one line put in, and its text is the text of the document
/// with the text of that line put in at one position.
pub proof fn lemma_insertion_is_local(tokens: Seq<Lexeme>, key: Seq<PathPart>, value: Seq<char>)
    ensures
        inserted(tokens, key, value) matches Ok(out) ==> {
            let at = insertion_point(tokens, key)->Ok_0;
            let line = key_value_line(key.last()->Key_0, value);
            &&& differs_by_line(tokens, out, at, value)
            &&& flatten(out) == flatten(tokens.take(at)) + flatten(line) + flatten(tokens.skip(at))
            &&& flatten(tokens) == flatten(tokens.take(at)) + flatten(tokens.skip(at))
        },
{
    if inserted(tokens, key, value) is Ok {
        let at = insertion_point(tokens, key)->Ok_0;
        let line = key_value_line(key.last()->Key_0, value);
        let out = splice(tokens, at, line);
        lemma_insertion_point(tokens, key);
        lemma_splice(tokens, at, line);
        assert(out[at + 0] == line[0]);
        assert(out[at + 1] == line[1]);
        assert(out[at + 2] == line[2]);
        assert(out[at + 3] == line[3]);
        assert(out[at + 4] == line[4]);
        assert(out[at + 5] == line[5]);
    }
}

/// Puts a line that gives the key `key` the value `value` into the
/// document: after the last content of the table that is the parent of
/// `key`, before the blank lines that end it. `value` is the text of the
/// value as the document is to hold it. The tokens of the document are
/// left as they are; the result is a new sequence.
pub fn insert_kv(tokens: &Vec<Token>, key: &KeyPath, value: &str) -> (res: Result<
    Vec<Token>,
    ErrorKind,
>)
    ensures
        match res {
            Ok(out) => {
                &&& inserted(lexemes(tokens@), key@, value@) == Ok::<Seq<Lexeme>, ErrorKind>(
                    lexemes(out@),
                )
                &&& differs_by_line(
                    lexemes(tokens@),
                    lexemes(out@),
                    insertion_point(lexemes(tokens@), key@)->Ok_0,
                    value@,
                )
            },
            Err(e) => inserted(lexemes(tokens@), key@, value@) == Err::<Seq<Lexeme>, ErrorKind>(e),
        },
{
    let ghost ls = lexemes(tokens@);
    proof {
        lemma_insertion_is_local(ls, key@, value@);
    }
    let parent = match key.parent() {
        None => {
            return Err(ErrorKind::InvalidKeyPathSyntax);
        },
        Some(parent) => parent,
    };
    let table_pos = match find_table(tokens, &parent) {
        Err(e) => {
            return Err(e);
        },
        Ok(None) => {
            return Err(ErrorKind::TableNotFound);
        },
        Ok(Some(table_pos)) => table_pos,
    };
    let key_token = match key.component(key.len() - 1) {
        KeyPathComponent::Key(k) => make_key_token(k.as_str()),
        KeyPathComponent::Ix(_) => {
            return Err(ErrorKind::InvalidKeyPathSyntax);
        },
    };
    proof {
        lemma_tables_divide(ls);
        lemma_find_span(tables(ls)->Ok_0, parent@);
    }
    // The insertion point: just after the last token of the table that is
    // neither whitespace nor a line break.
    let mut pos = table_pos.end;
    while pos > table_pos.start && (tokens[pos - 1].kind == TokenType::Whitespace || tokens[pos
        - 1].kind == TokenType::Newline)
        invariant
            ls == lexemes(tokens@),
            table_pos.start <= pos <= table_pos.end <= tokens@.len(),
            content_end(ls, table_pos.start as int, table_pos.end as int) == content_end(
                ls,
                table_pos.start as int,
                pos as int,
            ),
        decreases pos,
    {
        pos = pos - 1;
    }
    let ghost line = key_value_line(key@.last()->Key_0, value@);
    let mut res: Vec<Token> = Vec::new();
    let mut i: usize = 0;
    proof {
        assert(lexemes(res@) =~= ls.take(0));
    }
    while i < pos
        invariant
            ls == lexemes(tokens@),
            0 <= i <= pos <= tokens@.len(),
            lexemes(res@) == ls.take(i as int),
        decreases pos - i,
    {
        let tok = tokens[i].clone();
        proof {
            lemma_lexemes_push(res@, tok);
            assert(ls.take(i as int).push(tok@) =~= ls.take(i + 1));
        }
        res.push(tok);
        i = i + 1;
    }
    let newline = Token::single(TokenType::Newline, '\n');
    let space = Token::single(TokenType::Whitespace, ' ');
    let equals = Token::single(TokenType::Punctuation, '=');
    let space_after = Token::single(TokenType::Whitespace, ' ');
    let value_token = Token::from(value);
    proof {
        lemma_lexemes_push(res@, newline);
        lemma_lexemes_push(res@.push(newline), key_token);
        lemma_lexemes_push(res@.push(newline).push(key_token), space);
        lemma_lexemes_push(res@.push(newline).push(key_token).push(space), equals);
        lemma_lexemes_push(
            res@.push(newline).push(key_token).push(space).push(equals),
            space_after,
        );
        lemma_lexemes_push(
            res@.push(newline).push(key_token).push(space).push(equals).push(space_after),
            value_token,
        );
    }
    res.push(newline);
    res.push(key_token);
    res.push(space);
    res.push(equals);
    res.push(space_after);
    res.push(value_token);
    proof {
        assert(lexemes(res@) =~= ls.take(pos as int) + line);
        assert(ls.skip(pos as int).take(0) =~= Seq::<Lexeme>::empty());
        assert(ls.take(pos as int) + line + ls.skip(pos as int).take(0) =~= ls.take(pos as int)
            + line);
    }
    let mut j: usize = pos;
    while j < tokens.len()
        invariant
            ls == lexemes(tokens@),
            pos <= j <= tokens@.len(),
            lexemes(res@) == ls.take(pos as int) + line + ls.skip(pos as int).take(j - pos),
        decreases tokens@.len() - j,
    {
        let tok = tokens[j].clone();
        proof {
            lemma_lexemes_push(res@, tok);
            assert((ls.take(pos as int) + line + ls.skip(pos as int).take(j - pos)).push(tok@)
                =~= ls.take(pos as int) + line + ls.skip(pos as int).take(j + 1 - pos));
        }
        res.push(tok);
        j = j + 1;
    }
    proof {
        assert(ls.skip(pos as int).take(j - pos) =~= ls.skip(pos as int));
    }
    Ok(res)
}

} // verus!
