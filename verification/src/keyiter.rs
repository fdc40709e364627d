//! A walk over the keys of a document: for each key that holds a plain
//! value, its path and the place of the value.

use crate::error::ErrorKind;
use crate::keypath::{KeyPath, PathPart};
use crate::tableix::{is_punct, is_punctuation};
use crate::text::is_single;
use crate::tokenise::{is_significant, lexemes, significant, Lexeme, Token, TokenType};
use crate::value::{toml_string_value, unquote_string};
use vstd::prelude::*;

verus! {

/// What a key path on the stack of a walk stands for.
#[derive(Clone, Copy, Debug, PartialEq, Eq, Structural)]
pub enum ValueFormat {
    Table,
    InlineTable,
    Array,
}

/// The positions of the first `n` significant tokens from `start` on, or of
/// all where they are fewer.
pub open spec fn significant_positions(tokens: Seq<Lexeme>, start: int, n: nat) -> Seq<int>
    decreases tokens.len() - start,
{
    if start < 0 || start >= tokens.len() || n == 0 {
        Seq::empty()
    } else if significant(tokens[start].kind) {
        seq![start] + significant_positions(tokens, start + 1, (n - 1) as nat)
    } else {
        significant_positions(tokens, start + 1, n)
    }
}

/// The positions are at most `n`, lie from `start` on within the document,
/// and grow.
pub proof fn lemma_significant_positions(tokens: Seq<Lexeme>, start: int, n: nat)
    ensures
        significant_positions(tokens, start, n).len() <= n,
        forall|i: int|
            0 <= i < significant_positions(tokens, start, n).len() ==> start <= (
            #[trigger] significant_positions(tokens, start, n)[i]) < tokens.len() && significant(
                tokens[significant_positions(tokens, start, n)[i]].kind,
            ),
        forall|i: int, j: int|
            0 <= i < j < significant_positions(tokens, start, n).len() ==> (
            #[trigger] significant_positions(tokens, start, n)[i]) < (
            #[trigger] significant_positions(tokens, start, n)[j]),
    decreases tokens.len() - start,
{
    if start < 0 || start >= tokens.len() || n == 0 {
    } else if significant(tokens[start].kind) {
        lemma_significant_positions(tokens, start + 1, (n - 1) as nat);
    } else {
        lemma_significant_positions(tokens, start + 1, n);
    }
}

/// The first `n` significant tokens from position `start` on, each with its
/// position; fewer where the document has no more.
pub fn select_significant(tokens: &Vec<Token>, start: usize, n: usize) -> (res: Vec<
    (&Token, usize),
>)
    ensures
        res@.len() == significant_positions(lexemes(tokens@), start as int, n as nat).len(),
        forall|i: int|
            0 <= i < res@.len() ==> (#[trigger] res@[i]).1 == significant_positions(
                lexemes(tokens@),
                start as int,
                n as nat,
            )[i] && res@[i].1 < tokens@.len() && *res@[i].0 == tokens@[res@[i].1 as int],
{
    let ghost ls = lexemes(tokens@);
    let ghost all = significant_positions(ls, start as int, n as nat);
    let mut res: Vec<(&Token, usize)> = Vec::new();
    let mut pos = start;
    proof {
        assert(Seq::<int>::empty() + all =~= all);
    }
    while pos < tokens.len() && res.len() < n
        invariant
            ls == lexemes(tokens@),
            all == significant_positions(ls, start as int, n as nat),
            start <= pos,
            res@.len() <= n,
            res@.len() <= all.len(),
            all == all.take(res@.len() as int) + significant_positions(
                ls,
                pos as int,
                (n - res@.len()) as nat,
            ),
            forall|i: int|
                0 <= i < res@.len() ==> (#[trigger] res@[i]).1 == all[i] && res@[i].1
                    < tokens@.len() && *res@[i].0 == tokens@[res@[i].1 as int],
        decreases tokens@.len() - pos,
    {
        let token = &tokens[pos];
        if is_significant(token.kind) {
            proof {
                let k = res@.len() as int;
                let rest = significant_positions(ls, pos + 1, (n - k - 1) as nat);
                assert(all =~= all.take(k) + (seq![pos as int] + rest));
                assert(all[k] == pos);
                assert(all.take(k + 1) =~= all.take(k) + seq![pos as int]);
                assert(all =~= all.take(k + 1) + rest);
            }
            res.push((token, pos));
        }
        pos = pos + 1;
    }
    proof {
        let k = res@.len() as int;
        assert(significant_positions(ls, pos as int, (n - k) as nat) =~= Seq::<int>::empty());
        assert(all =~= all.take(k));
    }
    res
}

/// The name that a key token stands for: the text of a bare key, and what
/// the value library reads from a basic or a literal string. Other tokens
/// are no keys.
pub open spec fn key_text(l: Lexeme) -> Option<Seq<char>> {
    if l.kind == TokenType::BareKey {
        Some(l.text)
    } else if l.kind == TokenType::BasicString || l.kind == TokenType::LiteralString {
        toml_string_value(l.text)
    } else {
        None
    }
}

/// The name that the key token `tok` stands for. Fails where `tok` is no
/// key token, or is a string that the value library cannot read.
pub fn key_token_to_string(tok: &Token) -> (res: Result<String, ErrorKind>)
    ensures
        match res {
            Ok(name) => key_text(tok@) == Some(name@),
            Err(e) => key_text(tok@) is None && e == ErrorKind::InvalidKeyPathSyntax,
        },
{
    match tok.kind {
        TokenType::BareKey => Ok(tok.text.clone()),
        TokenType::BasicString | TokenType::LiteralString => {
            match unquote_string(tok.text.as_str()) {
                Some(name) => Ok(name),
                None => Err(ErrorKind::InvalidKeyPathSyntax),
            }
        },
        _ => Err(ErrorKind::InvalidKeyPathSyntax),
    }
}

/// Whether `tok` is a value by itself: all tokens but punctuation are.
pub fn is_atomic_tok(tok: &Token) -> (b: bool)
    ensures
        b == (tok@.kind != TokenType::Punctuation),
{
    match tok.kind {
        TokenType::Punctuation => false,
        _ => true,
    }
}

/// One entry of the stack of a walk: a table, an inline table or an array
/// that the walk is in, with its key and the position at which it starts.
pub struct Frame {
    pub key: Seq<PathPart>,
    pub format: ValueFormat,
    pub start: int,
}

/// Where a walk stands.
pub struct WalkState {
    pub stack: Seq<Frame>,
    pub pos: int,
}

/// What one step of a walk gives: an item, the end, or a failure; and
/// where the walk stands after it.
pub struct Step {
    pub result: Result<Option<(Seq<PathPart>, int, int)>, ErrorKind>,
    pub state: WalkState,
}

/// The key that the walk is under: that on top of the stack, or the root.
pub open spec fn current_key(stack: Seq<Frame>) -> Seq<PathPart> {
    if stack.len() > 0 {
        stack.last().key
    } else {
        Seq::empty()
    }
}

/// One step of a walk that stands at `st`. It looks at the next three
/// significant tokens, and ends where there are fewer.
///
/// `key = value`, the value one token that is no punctuation, gives the
/// path of the key and the place of the value. `key = [` and `key = {` put
/// the path of the key on the stack, and the walk goes on inside. A header
/// `[ key ]` takes the top entry from the stack and puts its own table on
/// it, whose key stands below that of the entry under it; it gives the key
/// and the start of the entry it took, with the position before its `[`.
/// Where the stack was empty, the walk goes on. Anything else ends the
/// walk.
///
/// Fails where the key is no key token, and where other punctuation than
/// `[` or `{` follows `=`.
pub open spec fn advance(tokens: Seq<Lexeme>, st: WalkState) -> Step
    decreases tokens.len() - st.pos,
{
    let next = significant_positions(tokens, st.pos, 3);
    if next.len() < 3 {
        Step { result: Ok(None), state: st }
    } else {
        proof {
            lemma_significant_positions(tokens, st.pos, 3);
        }
        let at_a = next[0];
        let at_b = next[1];
        let at_c = next[2];
        if is_punct(tokens[at_b], '=') {
            match key_text(tokens[at_a]) {
                None => Step { result: Err(ErrorKind::InvalidKeyPathSyntax), state: st },
                Some(name) => {
                    let path = current_key(st.stack).push(PathPart::Key(name));
                    if tokens[at_c].kind != TokenType::Punctuation {
                        Step {
                            result: Ok(Some((path, at_c, at_c + 1))),
                            state: WalkState { stack: st.stack, pos: at_c + 1 },
                        }
                    } else if tokens[at_c].text == seq!['['] {
                        advance(
                            tokens,
                            WalkState {
                                stack: st.stack.push(
                                    Frame { key: path, format: ValueFormat::Array, start: at_c },
                                ),
                                pos: at_c + 1,
                            },
                        )
                    } else if tokens[at_c].text == seq!['{'] {
                        advance(
                            tokens,
                            WalkState {
                                stack: st.stack.push(
                                    Frame {
                                        key: path,
                                        format: ValueFormat::InlineTable,
                                        start: at_c,
                                    },
                                ),
                                pos: at_c + 1,
                            },
                        )
                    } else {
                        Step { result: Err(ErrorKind::InvalidKeyPathSyntax), state: st }
                    }
                },
            }
        } else if tokens[at_a].text == seq!['['] {
            match key_text(tokens[at_b]) {
                None => Step { result: Err(ErrorKind::InvalidKeyPathSyntax), state: st },
                Some(name) => {
                    let below = if st.stack.len() > 0 {
                        st.stack.drop_last()
                    } else {
                        st.stack
                    };
                    let path = current_key(below).push(PathPart::Key(name));
                    let after = WalkState {
                        stack: below.push(
                            Frame { key: path, format: ValueFormat::Table, start: at_c + 1 },
                        ),
                        pos: at_c + 1,
                    };
                    if st.stack.len() > 0 {
                        Step {
                            result: Ok(Some((st.stack.last().key, st.stack.last().start, at_a - 1))),
                            state: after,
                        }
                    } else {
                        advance(tokens, after)
                    }
                },
            }
        } else {
            Step { result: Ok(None), state: st }
        }
    }
}

/// A walk over the keys of a document.
pub struct KeyTokenIter<'a> {
    tokens: &'a Vec<Token>,
    stack: Vec<(KeyPath, ValueFormat, usize)>,
    pos: usize,
}

impl<'a> KeyTokenIter<'a> {
    /// The document that the walk is over.
    pub closed spec fn document(&self) -> Seq<Lexeme> {
        lexemes(self.tokens@)
    }

    /// Where the walk stands.
    pub closed spec fn state(&self) -> WalkState {
        WalkState {
            stack: self.stack@.map_values(
                |f: (KeyPath, ValueFormat, usize)|
                    Frame { key: f.0@, format: f.1, start: f.2 as int },
            ),
            pos: self.pos as int,
        }
    }

    /// What holds of every walk: it stands within its document, and not at
    /// its start once it is inside something.
    pub closed spec fn wf(&self) -> bool {
        &&& self.pos <= self.tokens@.len()
        &&& self.stack@.len() > 0 ==> self.pos > 0
    }

    /// A walk that starts at the first token of `tokens`.
    pub fn new(tokens: &'a Vec<Token>) -> (walk: KeyTokenIter<'a>)
        ensures
            walk.wf(),
            walk.document() == lexemes(tokens@),
            walk.state() == (WalkState { stack: Seq::empty(), pos: 0 }),
    {
        let walk = KeyTokenIter { tokens: tokens, stack: Vec::new(), pos: 0 };
        proof {
            assert(walk.state().stack =~= Seq::<Frame>::empty());
        }
        walk
    }

    /// The key that the walk is under.
    pub fn current_keypath(&self) -> (path: KeyPath)
        ensures
            path@ == current_key(self.state().stack),
    {
        let n = self.stack.len();
        if n > 0 {
            self.stack[n - 1].0.clone()
        } else {
            KeyPath::new()
        }
    }

    /// The next item of the walk: the path of a key with the place of its
    /// value, or the key of an entry that a table header closes, with its
    /// start and the position before the header. `None` at the end.
    pub fn next(&mut self) -> (res: Result<Option<(KeyPath, usize, usize)>, ErrorKind>)
        requires
            old(self).wf(),
        ensures
            final(self).wf(),
            final(self).document() == old(self).document(),
            final(self).state() == advance(old(self).document(), old(self).state()).state,
            match res {
                Ok(Some((path, start, end))) => advance(
                    old(self).document(),
                    old(self).state(),
                ).result == Ok::<Option<(Seq<PathPart>, int, int)>, ErrorKind>(
                    Some((path@, start as int, end as int)),
                ),
                Ok(None) => advance(old(self).document(), old(self).state()).result == Ok::<
                    Option<(Seq<PathPart>, int, int)>,
                    ErrorKind,
                >(None),
                Err(e) => advance(old(self).document(), old(self).state()).result == Err::<
                    Option<(Seq<PathPart>, int, int)>,
                    ErrorKind,
                >(e),
            },
    {
        let ghost ls = self.document();
        loop
            invariant
                self.wf(),
                self.document() == ls,
                ls == old(self).document(),
                advance(ls, old(self).state()) == advance(ls, self.state()),
            decreases self.tokens@.len() - self.pos,
        {
            let ghost st = self.state();
            if self.pos >= self.tokens.len() {
                return Ok(None);
            }
            let next_3 = select_significant(self.tokens, self.pos, 3);
            proof {
                lemma_significant_positions(ls, self.pos as int, 3);
            }
            if next_3.len() < 3 {
                return Ok(None);
            }
            let (tok_a, at_a) = next_3[0];
            let (tok_b, at_b) = next_3[1];
            let (tok_c, at_c) = next_3[2];
            if is_punctuation(tok_b, '=') {
                let key = match key_token_to_string(tok_a) {
                    Err(e) => {
                        return Err(e);
                    },
                    Ok(key) => key,
                };
                let path = self.current_keypath().append_key(key);
                if is_atomic_tok(tok_c) {
                    self.pos = at_c + 1;
                    proof {
                        assert(self.state().stack =~= st.stack);
                    }
                    return Ok(Some((path, at_c, at_c + 1)));
                } else if is_single(tok_c.text.as_str(), '[') {
                    proof {
                        assert(self.stack@.push((path, ValueFormat::Array, at_c)).map_values(
                            |f: (KeyPath, ValueFormat, usize)|
                                Frame { key: f.0@, format: f.1, start: f.2 as int },
                        ) =~= st.stack.push(
                            Frame { key: path@, format: ValueFormat::Array, start: at_c as int },
                        ));
                    }
                    self.pos = at_c + 1;
                    self.stack.push((path, ValueFormat::Array, at_c));
                } else if is_single(tok_c.text.as_str(), '{') {
                    proof {
                        assert(self.stack@.push((path, ValueFormat::InlineTable, at_c)).map_values(
                            |f: (KeyPath, ValueFormat, usize)|
                                Frame { key: f.0@, format: f.1, start: f.2 as int },
                        ) =~= st.stack.push(
                            Frame {
                                key: path@,
                                format: ValueFormat::InlineTable,
                                start: at_c as int,
                            },
                        ));
                    }
                    self.pos = at_c + 1;
                    self.stack.push((path, ValueFormat::InlineTable, at_c));
                } else {
                    return Err(ErrorKind::InvalidKeyPathSyntax);
                }
            } else if is_single(tok_a.text.as_str(), '[') {
                let key = match key_token_to_string(tok_b) {
                    Err(e) => {
                        return Err(e);
                    },
                    Ok(key) => key,
                };
                let prev_table = self.stack.pop();
                let ghost below = self.state().stack;
                proof {
                    if st.stack.len() > 0 {
                        assert(below =~= st.stack.drop_last());
                    } else {
                        assert(below =~= st.stack);
                    }
                }
                let new_keypath = self.current_keypath().append_key(key);
                self.pos = at_c + 1;
                proof {
                    assert(self.stack@.push((new_keypath, ValueFormat::Table, self.pos)).map_values(
                        |f: (KeyPath, ValueFormat, usize)|
                            Frame { key: f.0@, format: f.1, start: f.2 as int },
                    ) =~= below.push(
                        Frame { key: new_keypath@, format: ValueFormat::Table, start: at_c + 1 },
                    ));
                }
                self.stack.push((new_keypath, ValueFormat::Table, self.pos));
                match prev_table {
                    Some((key, _, start)) => {
                        return Ok(Some((key, start, at_a - 1)));
                    },
                    None => {},
                }
            } else {
                return Ok(None);
            }
        }
    }
}

} // verus!
