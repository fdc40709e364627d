//! The table index: which tokens of a document belong to which table.

use crate::error::{ErrorKind, SyntaxError};
use crate::keypath::{parse, KeyPath, KeyPathComponent, PathPart};
use crate::text::is_single;
use crate::tokenise::{
    flatten, is_significant, lemma_flatten_push, lexemes, significant, Lexeme, Token, TokenType,
};
use vstd::prelude::*;
use vstd::string::*;

verus! {

/// The body of one table: the tokens from `start` up to, not including,
/// `end`, which follow the table's header and end before the next one.
#[derive(Debug, Eq)]
pub struct TablePos {
    pub key: KeyPath,
    pub start: usize,
    pub end: usize,
}

/// The mathematical model of a `TablePos`.
pub struct TableSpan {
    pub key: Seq<PathPart>,
    pub start: int,
    pub end: int,
}

impl View for TablePos {
    type V = TableSpan;

    open spec fn view(&self) -> TableSpan {
        TableSpan { key: self.key@, start: self.start as int, end: self.end as int }
    }
}

impl PartialEq for TablePos {
    fn eq(&self, other: &TablePos) -> (b: bool) {
        self.key == other.key && self.start == other.start && self.end == other.end
    }
}

impl vstd::std_specs::cmp::PartialEqSpecImpl for TablePos {
    open spec fn obeys_eq_spec() -> bool {
        true
    }

    open spec fn eq_spec(&self, other: &TablePos) -> bool {
        self@ == other@
    }
}

impl Clone for TablePos {
    fn clone(&self) -> (copy: TablePos)
        ensures
            copy@ == self@,
    {
        TablePos { key: self.key.clone(), start: self.start, end: self.end }
    }
}

/// The views of a sequence of table positions.
pub open spec fn spans(tables: Seq<TablePos>) -> Seq<TableSpan> {
    tables.map_values(|t: TablePos| t@)
}

/// Whether `l` is the punctuation character `c`.
pub open spec fn is_punct(l: Lexeme, c: char) -> bool {
    l.kind == TokenType::Punctuation && l.text == seq![c]
}

/// Whether `tok` is the punctuation character `c`.
pub fn is_punctuation(tok: &Token, c: char) -> (b: bool)
    ensures
        b == is_punct(tok@, c),
{
    tok.kind == TokenType::Punctuation && is_single(tok.text.as_str(), c)
}

// ---------------------------------------------------------------------
// The counters of the arrays of tables
// ---------------------------------------------------------------------

/// For each array of tables seen so far in one document, the index of its
/// latest element.
struct TableArrays {
    entries: Vec<(KeyPath, usize)>,
}

/// The map that a list of entries stands for: a later entry replaces an
/// earlier one with the same key.
spec fn entries_map(entries: Seq<(KeyPath, usize)>) -> Map<Seq<PathPart>, nat>
    decreases entries.len(),
{
    if entries.len() == 0 {
        Map::empty()
    } else {
        entries_map(entries.drop_last()).insert(entries.last().0@, entries.last().1 as nat)
    }
}

proof fn lemma_entries_absent(entries: Seq<(KeyPath, usize)>, key: Seq<PathPart>)
    requires
        forall|j: int| 0 <= j < entries.len() ==> (#[trigger] entries[j]).0@ != key,
    ensures
        !entries_map(entries).contains_key(key),
    decreases entries.len(),
{
    if entries.len() > 0 {
        let front = entries.drop_last();
        assert forall|j: int| 0 <= j < front.len() implies (#[trigger] front[j]).0@ != key by {
            assert(front[j] == entries[j]);
        }
        lemma_entries_absent(front, key);
        assert(entries.last() == entries[entries.len() - 1]);
    }
}

proof fn lemma_entries_last(entries: Seq<(KeyPath, usize)>, key: Seq<PathPart>, i: int)
    requires
        0 <= i < entries.len(),
        entries[i].0@ == key,
        forall|j: int| i < j < entries.len() ==> (#[trigger] entries[j]).0@ != key,
    ensures
        entries_map(entries).contains_key(key),
        entries_map(entries)[key] == entries[i].1,
    decreases entries.len(),
{
    let front = entries.drop_last();
    if i < entries.len() - 1 {
        assert(front[i] == entries[i]);
        assert forall|j: int| i < j < front.len() implies (#[trigger] front[j]).0@ != key by {
            assert(front[j] == entries[j]);
        }
        lemma_entries_last(front, key, i);
        assert(entries.last() == entries[entries.len() - 1]);
    }
}

proof fn lemma_entries_update(entries: Seq<(KeyPath, usize)>, i: int, entry: (KeyPath, usize))
    requires
        0 <= i < entries.len(),
        entries[i].0@ == entry.0@,
        forall|j: int| i < j < entries.len() ==> (#[trigger] entries[j]).0@ != entry.0@,
    ensures
        entries_map(entries.update(i, entry)) == entries_map(entries).insert(
            entry.0@,
            entry.1 as nat,
        ),
    decreases entries.len(),
{
    let front = entries.drop_last();
    let updated = entries.update(i, entry);
    if i < entries.len() - 1 {
        assert(front[i] == entries[i]);
        assert forall|j: int| i < j < front.len() implies (#[trigger] front[j]).0@
            != entry.0@ by {
            assert(front[j] == entries[j]);
        }
        lemma_entries_update(front, i, entry);
        assert(updated.drop_last() =~= front.update(i, entry));
        assert(updated.last() == entries.last());
        assert(entries.last() == entries[entries.len() - 1]);
        assert(entries_map(updated) =~= entries_map(entries).insert(entry.0@, entry.1 as nat));
    } else {
        assert(updated.drop_last() =~= front);
        assert(entries_map(updated) =~= entries_map(entries).insert(entry.0@, entry.1 as nat));
    }
}

impl View for TableArrays {
    type V = Map<Seq<PathPart>, nat>;

    closed spec fn view(&self) -> Map<Seq<PathPart>, nat> {
        entries_map(self.entries@)
    }
}

impl TableArrays {
    /// Whether every index is below `limit`.
    closed spec fn below(&self, limit: int) -> bool {
        forall|j: int| 0 <= j < self.entries@.len() ==> (#[trigger] self.entries@[j]).1 < limit
    }

    proof fn lemma_below(&self, limit: int, more: int)
        requires
            self.below(limit),
            limit <= more,
        ensures
            self.below(more),
    {
    }

    /// No array of tables seen yet.
    fn new() -> (arrays: TableArrays)
        ensures
            arrays@ == Map::<Seq<PathPart>, nat>::empty(),
            arrays.below(0),
    {
        TableArrays { entries: Vec::new() }
    }

    fn position(&self, key: &KeyPath) -> (res: Option<usize>)
        ensures
            match res {
                Some(i) => {
                    &&& i < self.entries@.len()
                    &&& self.entries@[i as int].0@ == key@
                    &&& forall|j: int|
                        i < j < self.entries@.len() ==> (#[trigger] self.entries@[j]).0@ != key@
                },
                None => forall|j: int|
                    0 <= j < self.entries@.len() ==> (#[trigger] self.entries@[j]).0@ != key@,
            },
    {
        let mut i = self.entries.len();
        while i > 0
            invariant
                0 <= i <= self.entries@.len(),
                forall|j: int|
                    i <= j < self.entries@.len() ==> (#[trigger] self.entries@[j]).0@ != key@,
            decreases i,
        {
            i = i - 1;
            if self.entries[i].0.same_as(key) {
                return Some(i);
            }
        }
        None
    }

    /// The index of the latest element of the array of tables `key`, if
    /// one was seen.
    fn get(&self, key: &KeyPath) -> (res: Option<usize>)
        ensures
            match res {
                Some(index) => self@.contains_key(key@) && self@[key@] == index,
                None => !self@.contains_key(key@),
            },
    {
        match self.position(key) {
            Some(i) => {
                proof {
                    lemma_entries_last(self.entries@, key@, i as int);
                }
                Some(self.entries[i].1)
            },
            None => {
                proof {
                    lemma_entries_absent(self.entries@, key@);
                }
                None
            },
        }
    }

    /// Counts one more element of the array of tables `key` and gives its
    /// index: 0 for the first, one more than the latest after that.
    fn bump(&mut self, key: KeyPath, Ghost(limit): Ghost<int>) -> (index: usize)
        requires
            old(self).below(limit),
            0 <= limit <= usize::MAX,
        ensures
            index == next_index(old(self)@, key@),
            final(self)@ == old(self)@.insert(key@, index as nat),
            final(self).below(limit + 1),
    {
        match self.position(&key) {
            Some(i) => {
                let index = self.entries[i].1 + 1;
                proof {
                    lemma_entries_last(self.entries@, key@, i as int);
                    lemma_entries_update(self.entries@, i as int, (key, index));
                }
                self.entries.set(i, (key, index));
                proof {
                    assert forall|j: int| 0 <= j < self.entries@.len() implies (
                    #[trigger] self.entries@[j]).1 < limit + 1 by {
                        if j != i {
                            assert(self.entries@[j] == old(self).entries@[j]);
                        }
                    }
                }
                index
            },
            None => {
                proof {
                    lemma_entries_absent(self.entries@, key@);
                    assert(self.entries@.push((key, 0usize)).drop_last() =~= self.entries@);
                }
                self.entries.push((key, 0));
                proof {
                    assert forall|j: int| 0 <= j < self.entries@.len() implies (
                    #[trigger] self.entries@[j]).1 < limit + 1 by {
                        if j < old(self).entries@.len() {
                            assert(self.entries@[j] == old(self).entries@[j]);
                        }
                    }
                }
                0
            },
        }
    }
}

/// The index of the next element of the array of tables `key`.
pub open spec fn next_index(counters: Map<Seq<PathPart>, nat>, key: Seq<PathPart>) -> nat {
    if counters.contains_key(key) {
        counters[key] + 1
    } else {
        0
    }
}

// ---------------------------------------------------------------------
// Table headers
// ---------------------------------------------------------------------

/// The first position from `from` on of a `]`, or the number of tokens
/// where there is none.
pub open spec fn name_end(tokens: Seq<Lexeme>, from: int) -> int
    decreases tokens.len() - from,
{
    if from >= tokens.len() {
        tokens.len() as int
    } else if is_punct(tokens[from], ']') {
        from
    } else {
        name_end(tokens, from + 1)
    }
}

/// The key under which the components `head`, all but the last of a
/// header's name, are found: after each key that names an array of tables
/// stands the index of that array's latest element.
pub open spec fn resolve_head(head: Seq<PathPart>, counters: Map<Seq<PathPart>, nat>) -> Seq<
    PathPart,
>
    decreases head.len(),
{
    if head.len() == 0 {
        Seq::empty()
    } else {
        let with = resolve_head(head.drop_last(), counters).push(head.last());
        if head.last() is Key && counters.contains_key(with) {
            with.push(PathPart::Ix(counters[with]))
        } else {
            with
        }
    }
}

/// The key of the table that a header with the name `name` opens, the
/// index of an element of an array of tables not yet added.
pub open spec fn resolve(name: Seq<PathPart>, counters: Map<Seq<PathPart>, nat>) -> Seq<PathPart> {
    resolve_head(name.drop_last(), counters).push(name.last())
}

/// A table header, read: the key of its table, where its body starts, and
/// the counters after it.
pub struct Header {
    pub key: Seq<PathPart>,
    pub body_start: int,
    pub counters: Map<Seq<PathPart>, nat>,
}

/// The header whose opening `[` is the token at `pos`.
///
/// A second `[` directly after the first makes it the header of an element
/// of an array of tables, which `]]` closes. The name is the text of the
/// tokens up to the first `]`, read as a key path. Such an element gets the
/// next index of its array, which is added to the key.
///
/// Fails where the closing brackets are missing, where the name is no key
/// path, and where it is empty.
pub open spec fn header_at(
    tokens: Seq<Lexeme>,
    pos: int,
    counters: Map<Seq<PathPart>, nat>,
) -> Result<Header, ErrorKind> {
    let in_array = pos + 1 < tokens.len() && is_punct(tokens[pos + 1], '[');
    let from = if in_array {
        pos + 2
    } else {
        pos + 1
    };
    let to = name_end(tokens, from);
    let closed = if in_array {
        to + 1 < tokens.len() && is_punct(tokens[to + 1], ']')
    } else {
        to < tokens.len()
    };
    if !closed {
        Err(ErrorKind::Syntax(SyntaxError::UnbalancedBracket))
    } else {
        match parse(flatten(tokens.subrange(from, to))) {
            Err(e) => Err(e),
            Ok(name) => if name.len() == 0 {
                Err(ErrorKind::InvalidKeyPathSyntax)
            } else {
                let resolved = resolve(name, counters);
                if in_array {
                    let index = next_index(counters, resolved);
                    Ok(
                        Header {
                            key: resolved.push(PathPart::Ix(index)),
                            body_start: to + 2,
                            counters: counters.insert(resolved, index),
                        },
                    )
                } else {
                    Ok(Header { key: resolved, body_start: to + 1, counters })
                }
            },
        }
    }
}

proof fn lemma_name_end(tokens: Seq<Lexeme>, from: int)
    requires
        from <= tokens.len(),
    ensures
        from <= name_end(tokens, from) <= tokens.len(),
        name_end(tokens, from) < tokens.len() ==> is_punct(tokens[name_end(tokens, from)], ']'),
    decreases tokens.len() - from,
{
    if from < tokens.len() && !is_punct(tokens[from], ']') {
        lemma_name_end(tokens, from + 1);
    }
}

/// A header ends after the position at which it starts, within the
/// document, and with a `]`.
pub proof fn lemma_header_at(tokens: Seq<Lexeme>, pos: int, counters: Map<Seq<PathPart>, nat>)
    requires
        pos < tokens.len(),
    ensures
        header_at(tokens, pos, counters) matches Ok(h) ==> pos + 2 <= h.body_start <= tokens.len()
            && is_punct(tokens[h.body_start - 1], ']'),
{
    let in_array = pos + 1 < tokens.len() && is_punct(tokens[pos + 1], '[');
    let from = if in_array {
        pos + 2
    } else {
        pos + 1
    };
    lemma_name_end(tokens, from);
}

/// Reads the table header whose opening `[` is the token at `pos`, and
/// counts it in `table_arrays` where it opens an element of an array of
/// tables. Gives the key of the table and the position at which its body
/// starts.
fn read_table_name(tokens: &Vec<Token>, pos: usize, table_arrays: &mut TableArrays) -> (res:
    Result<(KeyPath, usize), ErrorKind>)
    requires
        pos < tokens@.len(),
        old(table_arrays).below(pos as int),
    ensures
        match res {
            Ok((key, start)) => header_at(lexemes(tokens@), pos as int, old(table_arrays)@) == Ok::<
                Header,
                ErrorKind,
            >(Header { key: key@, body_start: start as int, counters: final(table_arrays)@ })
                && final(table_arrays).below(pos + 1),
            Err(e) => header_at(lexemes(tokens@), pos as int, old(table_arrays)@) == Err::<
                Header,
                ErrorKind,
            >(e) && *final(table_arrays) == *old(table_arrays),
        },
{
    let ghost ls = lexemes(tokens@);
    let ghost counters = table_arrays@;
    let len = tokens.len();
    let mut my_pos = pos + 1;
    let table_in_array = my_pos < len && is_punctuation(&tokens[my_pos], '[');
    if table_in_array {
        my_pos = my_pos + 1;
    }
    let from = my_pos;
    let mut s = String::new();
    proof {
        assert(ls.subrange(from as int, from as int) =~= Seq::<Lexeme>::empty());
    }
    while my_pos < len && !is_punctuation(&tokens[my_pos], ']')
        invariant
            ls == lexemes(tokens@),
            len == tokens@.len(),
            from <= my_pos <= tokens@.len(),
            name_end(ls, from as int) == name_end(ls, my_pos as int),
            s@ == flatten(ls.subrange(from as int, my_pos as int)),
        decreases tokens@.len() - my_pos,
    {
        proof {
            assert(ls.subrange(from as int, my_pos + 1) =~= ls.subrange(
                from as int,
                my_pos as int,
            ).push(ls[my_pos as int]));
            lemma_flatten_push(ls.subrange(from as int, my_pos as int), ls[my_pos as int]);
        }
        s.append(tokens[my_pos].text.as_str());
        my_pos = my_pos + 1;
    }
    let closed = if table_in_array {
        my_pos < len - 1 && is_punctuation(&tokens[my_pos + 1], ']')
    } else {
        my_pos < len
    };
    if !closed {
        return Err(ErrorKind::Syntax(SyntaxError::UnbalancedBracket));
    }
    let name = match KeyPath::from_string(s.as_str()) {
        Err(e) => {
            return Err(e);
        },
        Ok(name) => name,
    };
    let n = name.len();
    if n == 0 {
        return Err(ErrorKind::InvalidKeyPathSyntax);
    }
    let mut key = KeyPath::new();
    let mut i: usize = 0;
    proof {
        assert(name@.drop_last().take(0) =~= Seq::<PathPart>::empty());
    }
    while i < n - 1
        invariant
            n == name@.len(),
            n > 0,
            0 <= i <= n - 1,
            counters == table_arrays@,
            key@ == resolve_head(name@.drop_last().take(i as int), counters),
        decreases n - i,
    {
        proof {
            let head = name@.drop_last();
            assert(head.take(i + 1).drop_last() =~= head.take(i as int));
            assert(head.take(i + 1).last() == name@[i as int]);
        }
        let part = name.component(i);
        key = key.append(part.clone());
        match part {
            KeyPathComponent::Key(_) => {
                match table_arrays.get(&key) {
                    Some(index) => {
                        key = key.append_index(index);
                    },
                    None => {},
                }
            },
            KeyPathComponent::Ix(_) => {},
        }
        i = i + 1;
    }
    proof {
        assert(name@.drop_last().take(i as int) =~= name@.drop_last());
    }
    key = key.append(name.component(n - 1).clone());
    if table_in_array {
        let index = table_arrays.bump(key.clone(), Ghost(pos as int));
        Ok((key.append_index(index), my_pos + 2))
    } else {
        proof {
            table_arrays.lemma_below(pos as int, pos + 1);
        }
        Ok((key, my_pos + 1))
    }
}

// ---------------------------------------------------------------------
// The tables of a document
// ---------------------------------------------------------------------

/// What the scan of a document has found before the token it stands at.
pub struct ScanState {
    /// The latest index of each array of tables.
    pub counters: Map<Seq<PathPart>, nat>,
    /// The key of the table whose body the scan is in.
    pub key: Seq<PathPart>,
    /// Where that body starts.
    pub start: int,
    /// Whether the last significant token was `=`.
    pub after_eq: bool,
    /// How many brackets of array values are open.
    pub depth: nat,
}

/// The tables of a document of which those in `out` have ended before the
/// token at `pos`.
///
/// Whitespace, line breaks and comments are passed over. A `[` after `=`,
/// or inside an array value, opens an array value, which the matching `]`
/// closes. Any other `[` starts a table header: the table before it ends
/// there, and the body of the new one starts after the header. The last
/// table ends with the document.
pub open spec fn tables_from(tokens: Seq<Lexeme>, pos: int, st: ScanState, out: Seq<TableSpan>) -> Result<
    Seq<TableSpan>,
    ErrorKind,
>
    decreases tokens.len() - pos,
{
    if pos >= tokens.len() {
        Ok(out.push(TableSpan { key: st.key, start: st.start, end: tokens.len() as int }))
    } else if !significant(tokens[pos].kind) {
        tables_from(tokens, pos + 1, st, out)
    } else if is_punct(tokens[pos], '[') {
        if st.after_eq || st.depth > 0 {
            tables_from(
                tokens,
                pos + 1,
                ScanState { after_eq: false, depth: st.depth + 1, ..st },
                out,
            )
        } else {
            match header_at(tokens, pos, st.counters) {
                Err(e) => Err(e),
                Ok(h) => {
                    proof {
                        lemma_header_at(tokens, pos, st.counters);
                    }
                    tables_from(
                        tokens,
                        h.body_start,
                        ScanState {
                            counters: h.counters,
                            key: h.key,
                            start: h.body_start,
                            after_eq: false,
                            depth: 0,
                        },
                        out.push(TableSpan { key: st.key, start: st.start, end: pos }),
                    )
                },
            }
        }
    } else {
        tables_from(
            tokens,
            pos + 1,
            ScanState {
                after_eq: is_punct(tokens[pos], '='),
                depth: if is_punct(tokens[pos], ']') && st.depth > 0 {
                    (st.depth - 1) as nat
                } else {
                    st.depth
                },
                ..st
            },
            out,
        )
    }
}

/// The tables of a document, in the order of their headers, the root table
/// first.
pub open spec fn tables(tokens: Seq<Lexeme>) -> Result<Seq<TableSpan>, ErrorKind> {
    tables_from(
        tokens,
        0,
        ScanState {
            counters: Map::empty(),
            key: Seq::empty(),
            start: 0,
            after_eq: false,
            depth: 0,
        },
        Seq::empty(),
    )
}

/// Whether the header between two tables that follow one another stands
/// between their bodies: the first ends at its `[`, the second starts
/// after its `]`.
pub open spec fn header_between(tokens: Seq<Lexeme>, a: TableSpan, b: TableSpan) -> bool {
    &&& 0 <= a.end < b.start - 1 < tokens.len()
    &&& is_punct(tokens[a.end], '[')
    &&& is_punct(tokens[b.start - 1], ']')
}

/// Whether the bodies in `ts` stand in order and within the document, with
/// a header between each two neighbours.
pub open spec fn in_order(tokens: Seq<Lexeme>, ts: Seq<TableSpan>) -> bool {
    &&& forall|i: int| 0 <= i < ts.len() ==> 0 <= (#[trigger] ts[i]).start <= ts[i].end <= tokens.len()
    &&& forall|i: int| 0 <= i < ts.len() - 1 ==> header_between(tokens, #[trigger] ts[i], ts[i + 1])
}

/// Whether `ts` divides the document: it is not empty, the bodies stand in
/// order with nothing but one header between each two, the first is the
/// root table and starts with the document, the last ends with it.
pub open spec fn divides(tokens: Seq<Lexeme>, ts: Seq<TableSpan>) -> bool {
    &&& ts.len() > 0
    &&& in_order(tokens, ts)
    &&& ts[0].start == 0
    &&& ts[0].key == Seq::<PathPart>::empty()
    &&& ts.last().end == tokens.len()
}

proof fn lemma_tables_from(tokens: Seq<Lexeme>, pos: int, st: ScanState, out: Seq<TableSpan>)
    requires
        0 <= st.start <= pos <= tokens.len(),
        in_order(tokens, out),
        out.len() == 0 ==> st.start == 0 && st.key == Seq::<PathPart>::empty(),
        out.len() > 0 ==> out[0].start == 0 && out[0].key == Seq::<PathPart>::empty()
            && header_between(
            tokens,
            out.last(),
            TableSpan { key: st.key, start: st.start, end: st.start },
        ),
    ensures
        tables_from(tokens, pos, st, out) matches Ok(ts) ==> divides(tokens, ts),
    decreases tokens.len() - pos,
{
    if pos >= tokens.len() {
        let last = TableSpan { key: st.key, start: st.start, end: tokens.len() as int };
        let ts = out.push(last);
        assert forall|i: int| 0 <= i < ts.len() - 1 implies header_between(
            tokens,
            #[trigger] ts[i],
            ts[i + 1],
        ) by {
            if i < out.len() - 1 {
                assert(ts[i] == out[i] && ts[i + 1] == out[i + 1]);
            }
        }
    } else if !significant(tokens[pos].kind) {
        lemma_tables_from(tokens, pos + 1, st, out);
    } else if is_punct(tokens[pos], '[') {
        if st.after_eq || st.depth > 0 {
            lemma_tables_from(
                tokens,
                pos + 1,
                ScanState { after_eq: false, depth: st.depth + 1, ..st },
                out,
            );
        } else {
            lemma_header_at(tokens, pos, st.counters);
            match header_at(tokens, pos, st.counters) {
                Err(e) => {},
                Ok(h) => {
                    let ended = TableSpan { key: st.key, start: st.start, end: pos };
                    let next = out.push(ended);
                    assert forall|i: int| 0 <= i < next.len() - 1 implies header_between(
                        tokens,
                        #[trigger] next[i],
                        next[i + 1],
                    ) by {
                        if i < out.len() - 1 {
                            assert(next[i] == out[i] && next[i + 1] == out[i + 1]);
                        }
                    }
                    lemma_tables_from(
                        tokens,
                        h.body_start,
                        ScanState {
                            counters: h.counters,
                            key: h.key,
                            start: h.body_start,
                            after_eq: false,
                            depth: 0,
                        },
                        next,
                    );
                },
            }
        }
    } else {
        lemma_tables_from(
            tokens,
            pos + 1,
            ScanState {
                after_eq: is_punct(tokens[pos], '='),
                depth: if is_punct(tokens[pos], ']') && st.depth > 0 {
                    (st.depth - 1) as nat
                } else {
                    st.depth
                },
                ..st
            },
            out,
        );
    }
}

/// The tables of a document divide it: there is at least one, the first is
/// the root table and starts at the first token, the last ends after the
/// last token, and between the bodies of two tables that follow one
/// another stands exactly the header of the second.
pub proof fn lemma_tables_divide(tokens: Seq<Lexeme>)
    ensures
        tables(tokens) matches Ok(ts) ==> divides(tokens, ts),
{
    lemma_tables_from(
        tokens,
        0,
        ScanState {
            counters: Map::empty(),
            key: Seq::empty(),
            start: 0,
            after_eq: false,
            depth: 0,
        },
        Seq::empty(),
    );
}

proof fn lemma_tables_from_without_brackets(
    tokens: Seq<Lexeme>,
    pos: int,
    st: ScanState,
    out: Seq<TableSpan>,
)
    requires
        0 <= pos,
        forall|i: int| 0 <= i < tokens.len() ==> !is_punct(#[trigger] tokens[i], '['),
    ensures
        tables_from(tokens, pos, st, out) == Ok::<Seq<TableSpan>, ErrorKind>(
            out.push(TableSpan { key: st.key, start: st.start, end: tokens.len() as int }),
        ),
    decreases tokens.len() - pos,
{
    if pos < tokens.len() {
        if !significant(tokens[pos].kind) {
            lemma_tables_from_without_brackets(tokens, pos + 1, st, out);
        } else {
            lemma_tables_from_without_brackets(
                tokens,
                pos + 1,
                ScanState {
                    after_eq: is_punct(tokens[pos], '='),
                    depth: if is_punct(tokens[pos], ']') && st.depth > 0 {
                        (st.depth - 1) as nat
                    } else {
                        st.depth
                    },
                    ..st
                },
                out,
            );
        }
    }
}

/// A document in which no `[` stands has the root table alone, which holds
/// every token.
pub proof fn lemma_tables_without_brackets(tokens: Seq<Lexeme>)
    requires
        forall|i: int| 0 <= i < tokens.len() ==> !is_punct(#[trigger] tokens[i], '['),
    ensures
        tables(tokens) == Ok::<Seq<TableSpan>, ErrorKind>(
            seq![TableSpan { key: Seq::empty(), start: 0, end: tokens.len() as int }],
        ),
{
    lemma_tables_from_without_brackets(
        tokens,
        0,
        ScanState {
            counters: Map::empty(),
            key: Seq::empty(),
            start: 0,
            after_eq: false,
            depth: 0,
        },
        Seq::empty(),
    );
    assert(Seq::<TableSpan>::empty().push(
        TableSpan { key: Seq::empty(), start: 0, end: tokens.len() as int },
    ) =~= seq![TableSpan { key: Seq::empty(), start: 0, end: tokens.len() as int }]);
}

/// In a document without a table header the tables are one, and each ends
/// where the next starts: the one table holds every token.
pub proof fn lemma_tables_contiguous(tokens: Seq<Lexeme>)
    requires
        tables(tokens) matches Ok(ts) && ts.len() == 1,
    ensures
        tables(tokens) matches Ok(ts) && ts.len() > 0 && ts[0].start == 0 && ts.last().end
            == tokens.len() && forall|i: int|
            0 <= i < ts.len() - 1 ==> (#[trigger] ts[i]).end == ts[i + 1].start,
{
    lemma_tables_divide(tokens);
}

/// Finds the tables of a document: for each the key and the tokens of its
/// body, in the order of their headers, the root table first.
///
/// Fails where a table header lacks its closing bracket or its name is no
/// key path.
pub fn find_tables(tokens: &Vec<Token>) -> (res: Result<Vec<TablePos>, ErrorKind>)
    ensures
        match res {
            Ok(found) => tables(lexemes(tokens@)) == Ok::<Seq<TableSpan>, ErrorKind>(spans(found@))
                && divides(lexemes(tokens@), spans(found@)),
            Err(e) => tables(lexemes(tokens@)) == Err::<Seq<TableSpan>, ErrorKind>(e),
        },
{
    let ghost ls = lexemes(tokens@);
    let len = tokens.len();
    let mut res: Vec<TablePos> = Vec::new();
    let mut table_arrays = TableArrays::new();
    let mut prev_key = KeyPath::new();
    let mut prev_start: usize = 0;
    let mut after_eq = false;
    let mut array_depth: usize = 0;
    let mut pos: usize = 0;
    proof {
        assert(spans(res@) =~= Seq::<TableSpan>::empty());
        lemma_tables_divide(ls);
    }
    while pos < len
        invariant
            ls == lexemes(tokens@),
            len == tokens@.len(),
            0 <= pos <= len,
            array_depth <= pos,
            table_arrays.below(pos as int),
            tables(ls) == tables_from(
                ls,
                pos as int,
                ScanState {
                    counters: table_arrays@,
                    key: prev_key@,
                    start: prev_start as int,
                    after_eq,
                    depth: array_depth as nat,
                },
                spans(res@),
            ),
        decreases len - pos,
    {
        let tok = &tokens[pos];
        proof {
            table_arrays.lemma_below(pos as int, pos + 1);
        }
        if !is_significant(tok.kind) {
            pos = pos + 1;
        } else if is_punctuation(tok, '[') {
            if after_eq || array_depth > 0 {
                array_depth = array_depth + 1;
                after_eq = false;
                pos = pos + 1;
            } else {
                proof {
                    lemma_header_at(ls, pos as int, table_arrays@);
                }
                match read_table_name(tokens, pos, &mut table_arrays) {
                    Err(e) => {
                        return Err(e);
                    },
                    Ok((new_key, new_start)) => {
                        let ended = TablePos { key: prev_key, start: prev_start, end: pos };
                        proof {
                            assert(spans(res@.push(ended)) =~= spans(res@).push(ended@));
                            table_arrays.lemma_below(pos + 1, new_start as int);
                        }
                        res.push(ended);
                        prev_key = new_key;
                        prev_start = new_start;
                        after_eq = false;
                        array_depth = 0;
                        pos = new_start;
                    },
                }
            }
        } else {
            if is_punctuation(tok, ']') && array_depth > 0 {
                array_depth = array_depth - 1;
            }
            after_eq = is_punctuation(tok, '=');
            pos = pos + 1;
        }
    }
    let last = TablePos { key: prev_key, start: prev_start, end: pos };
    proof {
        assert(spans(res@.push(last)) =~= spans(res@).push(last@));
    }
    res.push(last);
    Ok(res)
}

/// The first table of `ts` with the key `key`.
pub open spec fn find_span(ts: Seq<TableSpan>, key: Seq<PathPart>) -> Option<TableSpan>
    decreases ts.len(),
{
    if ts.len() == 0 {
        None
    } else if ts[0].key == key {
        Some(ts[0])
    } else {
        find_span(ts.drop_first(), key)
    }
}

/// What `find_span` gives is a table of `ts`.
pub proof fn lemma_find_span(ts: Seq<TableSpan>, key: Seq<PathPart>)
    ensures
        find_span(ts, key) matches Some(t) ==> t.key == key && exists|i: int|
            0 <= i < ts.len() && ts[i] == t,
    decreases ts.len(),
{
    if ts.len() > 0 && ts[0].key != key {
        lemma_find_span(ts.drop_first(), key);
        if find_span(ts, key) is Some {
            let i = choose|i: int|
                0 <= i < ts.drop_first().len() && ts.drop_first()[i] == find_span(ts, key)->0;
            assert(ts[i + 1] == ts.drop_first()[i]);
        }
    } else if ts.len() > 0 {
        assert(ts[0] == find_span(ts, key)->0);
    }
}

/// Finds the table with the key `key`: the first of the tables of the
/// document that has it, if any has.
pub fn find_table(tokens: &Vec<Token>, key: &KeyPath) -> (res: Result<Option<TablePos>, ErrorKind>)
    ensures
        match res {
            Ok(found) => tables(lexemes(tokens@)) matches Ok(ts) && (match found {
                Some(t) => find_span(ts, key@) == Some(t@),
                None => find_span(ts, key@) is None,
            }),
            Err(e) => tables(lexemes(tokens@)) == Err::<Seq<TableSpan>, ErrorKind>(e),
        },
{
    let found = match find_tables(tokens) {
        Err(e) => {
            return Err(e);
        },
        Ok(found) => found,
    };
    let ghost ts = spans(found@);
    let mut i: usize = 0;
    proof {
        assert(ts.skip(0) =~= ts);
    }
    while i < found.len()
        invariant
            ts == spans(found@),
            tables(lexemes(tokens@)) == Ok::<Seq<TableSpan>, ErrorKind>(ts),
            0 <= i <= found@.len(),
            find_span(ts, key@) == find_span(ts.skip(i as int), key@),
        decreases found@.len() - i,
    {
        proof {
            assert(ts.skip(i as int).drop_first() =~= ts.skip(i + 1));
            assert(ts.skip(i as int)[0] == found@[i as int]@);
        }
        if found[i].key.same_as(key) {
            return Ok(Some(found[i].clone()));
        }
        i = i + 1;
    }
    Ok(None)
}

} // verus!
