//! Key paths: where a value or a table stands in the tree of a document.

use crate::error::{ErrorKind, SyntaxError};
use crate::text::{
    first_char, in_class, is_bare, is_bare_char, is_digit, lemma_run_len, lemma_run_len_unique,
    lemma_scan_step, run_len, split_chars, split_run, utf8_width, CharClass,
};
use vstd::prelude::*;
use vstd::std_specs::iter::IteratorSpec;
use vstd::string::*;

verus! {

/// One step of a key path: the name of a key, or a position in an array.
#[derive(Debug, Eq, Hash)]
pub enum KeyPathComponent {
    Key(String),
    Ix(usize),
}

/// The mathematical model of a component.
pub enum PathPart {
    Key(Seq<char>),
    Ix(nat),
}

impl View for KeyPathComponent {
    type V = PathPart;

    open spec fn view(&self) -> PathPart {
        match self {
            KeyPathComponent::Key(k) => PathPart::Key(k@),
            KeyPathComponent::Ix(i) => PathPart::Ix(*i as nat),
        }
    }
}

impl PartialEq for KeyPathComponent {
    fn eq(&self, other: &KeyPathComponent) -> (b: bool) {
        match (self, other) {
            (KeyPathComponent::Key(a), KeyPathComponent::Key(b)) => *a == *b,
            (KeyPathComponent::Ix(a), KeyPathComponent::Ix(b)) => *a == *b,
            _ => false,
        }
    }
}

impl vstd::std_specs::cmp::PartialEqSpecImpl for KeyPathComponent {
    open spec fn obeys_eq_spec() -> bool {
        true
    }

    open spec fn eq_spec(&self, other: &KeyPathComponent) -> bool {
        self@ == other@
    }
}

impl Clone for KeyPathComponent {
    fn clone(&self) -> (copy: KeyPathComponent)
        ensures
            copy@ == self@,
    {
        match self {
            KeyPathComponent::Key(k) => KeyPathComponent::Key(k.clone()),
            KeyPathComponent::Ix(i) => KeyPathComponent::Ix(*i),
        }
    }
}

/// A sequence of components from the root down; the empty one is the root
/// table.
#[derive(Debug, Eq, Hash)]
pub struct KeyPath {
    parts: Vec<KeyPathComponent>,
}

impl View for KeyPath {
    type V = Seq<PathPart>;

    closed spec fn view(&self) -> Seq<PathPart> {
        self.parts@.map_values(|c: KeyPathComponent| c@)
    }
}

// ---------------------------------------------------------------------
// Decimal numbers
// ---------------------------------------------------------------------

/// The character of the digit `d`.
pub open spec fn digit_char(d: nat) -> char {
    (d + 48) as char
}

/// The digit that the character `c` stands for.
pub open spec fn digit_value(c: char) -> nat {
    (c as nat - 48) as nat
}

/// The decimal digits of `n`, without leading zeros.
pub open spec fn decimal(n: nat) -> Seq<char>
    decreases n,
{
    if n < 10 {
        seq![digit_char(n)]
    } else {
        decimal(n / 10).push(digit_char(n % 10))
    }
}

/// The number that the decimal digits `s` stand for.
pub open spec fn decimal_value(s: Seq<char>) -> nat
    decreases s.len(),
{
    if s.len() == 0 {
        0
    } else {
        decimal_value(s.drop_last()) * 10 + digit_value(s.last())
    }
}

/// `decimal` gives at least one character, all of them digits, and
/// `decimal_value` reads the number back.
pub proof fn lemma_decimal(n: nat)
    ensures
        decimal(n).len() > 0,
        forall|i: int| 0 <= i < decimal(n).len() ==> is_digit(#[trigger] decimal(n)[i]),
        decimal_value(decimal(n)) == n,
    decreases n,
{
    reveal_with_fuel(decimal_value, 2);
    if n < 10 {
        assert(seq![digit_char(n)].drop_last() =~= Seq::<char>::empty());
    } else {
        lemma_decimal(n / 10);
        assert(decimal(n).drop_last() =~= decimal(n / 10));
    }
}

/// A number does not get smaller as digits are added to it.
pub proof fn lemma_decimal_value_prefix(s: Seq<char>, k: int)
    requires
        0 <= k <= s.len(),
    ensures
        decimal_value(s.take(k)) <= decimal_value(s),
    decreases s.len(),
{
    if k < s.len() {
        lemma_decimal_value_prefix(s.drop_last(), k);
        assert(s.drop_last().take(k) =~= s.take(k));
    } else {
        assert(s.take(k) =~= s);
    }
}

/// The character of the digit `d`.
fn digit_of(d: usize) -> (c: char)
    requires
        d < 10,
    ensures
        c == digit_char(d as nat),
{
    (d as u8 + 48u8) as char
}

/// The digit that `c` stands for.
fn value_of_digit(c: char) -> (d: usize)
    requires
        is_digit(c),
    ensures
        d == digit_value(c),
        d < 10,
{
    (c as u32 - 48u32) as usize
}

/// Writes `n` in decimal at the end of `out`.
fn push_decimal(out: &mut String, n: usize)
    ensures
        final(out)@ == old(out)@ + decimal(n as nat),
    decreases n,
{
    if n >= 10 {
        push_decimal(out, n / 10);
    }
    out.push(digit_of(n % 10));
    proof {
        assert(final(out)@ =~= old(out)@ + decimal(n as nat));
    }
}

/// The number that the digits `digits` stand for, where it fits.
fn parse_index(digits: &str) -> (res: Option<usize>)
    requires
        forall|i: int| 0 <= i < digits@.len() ==> is_digit(#[trigger] digits@[i]),
    ensures
        match res {
            Some(v) => v == decimal_value(digits@),
            None => decimal_value(digits@) > usize::MAX,
        },
{
    let mut it = digits.chars();
    let mut value: usize = 0;
    let ghost mut n: int = 0;
    proof {
        assert(digits@.skip(0) =~= digits@);
        assert(digits@.take(0) =~= Seq::<char>::empty());
    }
    loop
        invariant_except_break
            it.remaining() == digits@.skip(n),
        invariant
            0 <= n <= digits@.len(),
            forall|i: int| 0 <= i < digits@.len() ==> is_digit(#[trigger] digits@[i]),
            value == decimal_value(digits@.take(n)),
        ensures
            n == digits@.len(),
            value == decimal_value(digits@.take(n)),
        decreases digits@.len() - n,
    {
        match it.next() {
            None => {
                break ;
            },
            Some(c) => {
                proof {
                    lemma_scan_step(digits@, n);
                    assert(digits@.take(n + 1).drop_last() =~= digits@.take(n));
                    assert(digits@.take(n + 1).last() == c);
                    lemma_decimal_value_prefix(digits@, n + 1);
                }
                let d = value_of_digit(c);
                if value > (usize::MAX - d) / 10 {
                    return None;
                }
                value = value * 10 + d;
                proof {
                    n = n + 1;
                }
            },
        }
    }
    proof {
        assert(digits@.take(n) =~= digits@);
    }
    Some(value)
}

// ---------------------------------------------------------------------
// Notation
// ---------------------------------------------------------------------

/// The notation of one component: `.name` for a key, `[n]` for an index.
pub open spec fn render_part(p: PathPart) -> Seq<char> {
    match p {
        PathPart::Key(k) => seq!['.'] + k,
        PathPart::Ix(n) => seq!['['] + decimal(n) + seq![']'],
    }
}

/// The notation of a path: that of its components, one after the other.
/// The root is the empty text, and a path that starts with a key starts
/// with a dot.
pub open spec fn render(parts: Seq<PathPart>) -> Seq<char>
    decreases parts.len(),
{
    if parts.len() == 0 {
        Seq::empty()
    } else {
        render(parts.drop_last()) + render_part(parts.last())
    }
}

/// The path that the notation `rest` adds to the components `acc`, read
/// from the left. `total` is the length of the whole notation, of which
/// `rest` is the end.
///
/// A dot separates and stands for nothing. `[`, digits and `]` give an
/// index. A run of letters, digits, `_` and `-` gives a key. A bracket
/// without digits or without its closing bracket, an index that does not
/// fit the machine's word, and a stray `]` are malformed; every other
/// character is unexpected.
pub open spec fn parse_from(rest: Seq<char>, total: nat, acc: Seq<PathPart>) -> Result<
    Seq<PathPart>,
    ErrorKind,
>
    decreases rest.len(),
{
    if rest.len() == 0 {
        Ok(acc)
    } else if rest[0] == '.' {
        parse_from(rest.skip(1), total, acc)
    } else if rest[0] == '[' {
        let body = rest.skip(1);
        let n = run_len(body, CharClass::Digit) as int;
        proof {
            lemma_run_len(body, CharClass::Digit);
        }
        if n == 0 || n >= body.len() || body[n] != ']' || decimal_value(body.take(n))
            > usize::MAX {
            Err(ErrorKind::InvalidKeyPathSyntax)
        } else {
            parse_from(body.skip(n + 1), total, acc.push(PathPart::Ix(decimal_value(body.take(n)))))
        }
    } else if is_bare(rest[0]) {
        let n = run_len(rest, CharClass::Bare) as int;
        proof {
            lemma_run_len(rest, CharClass::Bare);
        }
        parse_from(rest.skip(n), total, acc.push(PathPart::Key(rest.take(n))))
    } else if rest[0] == ']' {
        Err(ErrorKind::InvalidKeyPathSyntax)
    } else {
        Err(
            ErrorKind::Syntax(
                SyntaxError::UnexpectedCharacter { position: (total - rest.len()) as usize },
            ),
        )
    }
}

/// The path that the notation `s` stands for.
pub open spec fn parse(s: Seq<char>) -> Result<Seq<PathPart>, ErrorKind> {
    parse_from(s, s.len(), Seq::empty())
}

/// Whether the notation of `p` can be read back: a key is not empty and
/// made of letters, digits, `_` and `-`.
pub open spec fn part_is_safe(p: PathPart) -> bool {
    match p {
        PathPart::Key(k) => k.len() > 0 && forall|i: int| 0 <= i < k.len() ==> is_bare(#[trigger] k[i]),
        PathPart::Ix(n) => true,
    }
}

/// Whether every component of `parts` is safe.
pub open spec fn path_is_safe(parts: Seq<PathPart>) -> bool {
    forall|i: int| 0 <= i < parts.len() ==> part_is_safe(#[trigger] parts[i])
}

/// The notation of two paths put together is their notations put together.
pub proof fn lemma_render_concat(a: Seq<PathPart>, b: Seq<PathPart>)
    ensures
        render(a + b) == render(a) + render(b),
    decreases b.len(),
{
    if b.len() == 0 {
        assert(a + b =~= a);
        assert(render(a) + render(b) =~= render(a));
    } else {
        lemma_render_concat(a, b.drop_last());
        assert((a + b).drop_last() =~= a + b.drop_last());
        assert(render(a + b) =~= render(a) + render(b));
    }
}

proof fn lemma_render_front(parts: Seq<PathPart>)
    requires
        parts.len() > 0,
    ensures
        render(parts) == render_part(parts[0]) + render(parts.drop_first()),
        render(parts).len() > 0,
        render(parts)[0] == '.' || render(parts)[0] == '[',
{
    reveal_with_fuel(render, 2);
    assert(parts =~= seq![parts[0]] + parts.drop_first());
    lemma_render_concat(seq![parts[0]], parts.drop_first());
    assert(seq![parts[0]].drop_last() =~= Seq::<PathPart>::empty());
    assert(render(seq![parts[0]]) =~= render_part(parts[0]));
}

/// Whether a key or an index can end before `after`: `after` is empty or
/// starts the notation of a component.
spec fn ends_before(after: Seq<char>) -> bool {
    after.len() == 0 || after[0] == '.' || after[0] == '['
}

proof fn lemma_parse_key(k: Seq<char>, after: Seq<char>, total: nat, acc: Seq<PathPart>)
    requires
        part_is_safe(PathPart::Key(k)),
        ends_before(after),
    ensures
        parse_from(seq!['.'] + k + after, total, acc) == parse_from(
            after,
            total,
            acc.push(PathPart::Key(k)),
        ),
{
    let text = seq!['.'] + k + after;
    let rest = text.skip(1);
    assert(rest =~= k + after);
    assert(text[0] == '.');
    assert(rest[0] == k[0]);
    assert forall|i: int| 0 <= i < k.len() implies in_class(CharClass::Bare, #[trigger] rest[i]) by {
        assert(rest[i] == k[i]);
    }
    if k.len() < rest.len() {
        assert(rest[k.len() as int] == after[0]);
    }
    lemma_run_len_unique(rest, CharClass::Bare, k.len() as int);
    assert(rest.take(k.len() as int) =~= k);
    assert(rest.skip(k.len() as int) =~= after);
    assert(parse_from(text, total, acc) == parse_from(rest, total, acc));
}

proof fn lemma_parse_index(n: nat, after: Seq<char>, total: nat, acc: Seq<PathPart>)
    requires
        n <= usize::MAX,
        ends_before(after),
    ensures
        parse_from(seq!['['] + decimal(n) + seq![']'] + after, total, acc) == parse_from(
            after,
            total,
            acc.push(PathPart::Ix(n)),
        ),
{
    let digits = decimal(n);
    lemma_decimal(n);
    let text = seq!['['] + digits + seq![']'] + after;
    let body = text.skip(1);
    assert(body =~= digits + seq![']'] + after);
    assert(text[0] == '[');
    assert forall|i: int| 0 <= i < digits.len() implies in_class(
        CharClass::Digit,
        #[trigger] body[i],
    ) by {
        assert(body[i] == digits[i]);
    }
    assert(body[digits.len() as int] == ']');
    lemma_run_len_unique(body, CharClass::Digit, digits.len() as int);
    assert(body.take(digits.len() as int) =~= digits);
    assert(body.skip(digits.len() as int + 1) =~= after);
}

proof fn lemma_parse_render_from(parts: Seq<PathPart>, total: nat, acc: Seq<PathPart>)
    requires
        path_is_safe(parts),
        forall|i: int|
            0 <= i < parts.len() ==> (#[trigger] parts[i] matches PathPart::Ix(n) ==> n
                <= usize::MAX),
    ensures
        parse_from(render(parts), total, acc) == Ok::<Seq<PathPart>, ErrorKind>(acc + parts),
    decreases parts.len(),
{
    if parts.len() == 0 {
        assert(acc + parts =~= acc);
    } else {
        let tail = parts.drop_first();
        let after = render(tail);
        lemma_render_front(parts);
        if tail.len() > 0 {
            lemma_render_front(tail);
        }
        assert(part_is_safe(parts[0]));
        assert forall|i: int| 0 <= i < tail.len() implies part_is_safe(#[trigger] tail[i]) by {
            assert(tail[i] == parts[i + 1]);
        }
        assert forall|i: int| 0 <= i < tail.len() implies (#[trigger] tail[i] matches PathPart::Ix(
            n,
        ) ==> n <= usize::MAX) by {
            assert(tail[i] == parts[i + 1]);
        }
        lemma_parse_render_from(tail, total, acc.push(parts[0]));
        assert(acc.push(parts[0]) + tail =~= acc + parts);
        match parts[0] {
            PathPart::Key(k) => {
                lemma_parse_key(k, after, total, acc);
            },
            PathPart::Ix(n) => {
                lemma_parse_index(n, after, total, acc);
            },
        }
    }
}

impl KeyPath {
    /// The root.
    pub fn new() -> (path: KeyPath)
        ensures
            path@ == Seq::<PathPart>::empty(),
    {
        let path = KeyPath { parts: Vec::new() };
        proof {
            assert(path@ =~= Seq::<PathPart>::empty());
        }
        path
    }

    /// Number of components.
    pub fn len(&self) -> (n: usize)
        ensures
            n == self@.len(),
    {
        self.parts.len()
    }

    /// The component at position `i`.
    pub fn component(&self, i: usize) -> (c: &KeyPathComponent)
        requires
            i < self@.len(),
        ensures
            c@ == self@[i as int],
    {
        &self.parts[i]
    }

    /// This path with the component `c` added at its end.
    pub fn append(self, c: KeyPathComponent) -> (path: KeyPath)
        ensures
            path@ == self@.push(c@),
    {
        let mut new = self;
        new.parts.push(c);
        proof {
            assert(new@ =~= self@.push(c@));
        }
        new
    }

    /// The path to the key `k` below this one.
    pub fn append_key(self, k: String) -> (path: KeyPath)
        ensures
            path@ == self@.push(PathPart::Key(k@)),
    {
        let mut new = self;
        new.parts.push(KeyPathComponent::Key(k));
        proof {
            assert(new@ =~= self@.push(PathPart::Key(k@)));
        }
        new
    }

    /// The path to position `i` of the array at this one.
    pub fn append_index(self, i: usize) -> (path: KeyPath)
        ensures
            path@ == self@.push(PathPart::Ix(i as nat)),
    {
        let mut new = self;
        new.parts.push(KeyPathComponent::Ix(i));
        proof {
            assert(new@ =~= self@.push(PathPart::Ix(i as nat)));
        }
        new
    }

    /// The path of the first `n` components.
    pub fn prefix(&self, n: usize) -> (path: KeyPath)
        requires
            n <= self@.len(),
        ensures
            path@ == self@.take(n as int),
    {
        let mut parts: Vec<KeyPathComponent> = Vec::new();
        let mut i: usize = 0;
        while i < n
            invariant
                0 <= i <= n <= self.parts@.len(),
                parts@.len() == i,
                forall|j: int| 0 <= j < i ==> (#[trigger] parts@[j])@ == self.parts@[j]@,
            decreases n - i,
        {
            parts.push(self.parts[i].clone());
            i = i + 1;
        }
        let path = KeyPath { parts };
        proof {
            assert(path@ =~= self@.take(n as int));
        }
        path
    }

    /// The path without its last component; the root has none.
    pub fn parent(&self) -> (res: Option<KeyPath>)
        ensures
            match res {
                Some(path) => self@.len() > 0 && path@ == self@.drop_last(),
                None => self@.len() == 0,
            },
    {
        let n = self.parts.len();
        if n == 0 {
            None
        } else {
            let path = self.prefix(n - 1);
            proof {
                assert(self@.take(n - 1) =~= self@.drop_last());
            }
            Some(path)
        }
    }

    /// The paths above this one, from its parent up to the root.
    pub fn ancestors(&self) -> (res: Vec<KeyPath>)
        ensures
            res@.len() == self@.len(),
            forall|i: int|
                0 <= i < res@.len() ==> (#[trigger] res@[i])@ == self@.take(self@.len() - 1 - i),
    {
        let n = self.parts.len();
        let mut res: Vec<KeyPath> = Vec::new();
        let mut i: usize = 0;
        while i < n
            invariant
                0 <= i <= n,
                n == self@.len(),
                res@.len() == i,
                forall|j: int| 0 <= j < i ==> (#[trigger] res@[j])@ == self@.take(n - 1 - j),
            decreases n - i,
        {
            res.push(self.prefix(n - 1 - i));
            i = i + 1;
        }
        res
    }

    /// The notation of this path: `.name` for each key and `[n]` for each
    /// index.
    pub fn stringify(&self) -> (res: String)
        ensures
            res@ == render(self@),
    {
        let mut res = String::new();
        let mut i: usize = 0;
        proof {
            assert(self@.take(0) =~= Seq::<PathPart>::empty());
        }
        while i < self.parts.len()
            invariant
                0 <= i <= self.parts@.len(),
                res@ == render(self@.take(i as int)),
            decreases self.parts@.len() - i,
        {
            proof {
                assert(self@.take(i + 1).drop_last() =~= self@.take(i as int));
                assert(self@.take(i + 1).last() == self.parts@[i as int]@);
            }
            match &self.parts[i] {
                KeyPathComponent::Key(k) => {
                    res.push('.');
                    res.append(k.as_str());
                    proof {
                        assert(res@ =~= render(self@.take(i as int)) + (seq!['.'] + k@));
                    }
                },
                KeyPathComponent::Ix(n) => {
                    res.push('[');
                    push_decimal(&mut res, *n);
                    res.push(']');
                    proof {
                        assert(res@ =~= render(self@.take(i as int)) + (seq!['['] + decimal(
                            *n as nat,
                        ) + seq![']']));
                    }
                },
            }
            i = i + 1;
        }
        proof {
            assert(self@.take(i as int) =~= self@);
        }
        res
    }

    /// Reads a path from its notation. A leading dot may be left out.
    pub fn from_string(s: &str) -> (res: Result<KeyPath, ErrorKind>)
        ensures
            match res {
                Ok(path) => parse(s@) == Ok::<Seq<PathPart>, ErrorKind>(path@),
                Err(e) => parse(s@) == Err::<Seq<PathPart>, ErrorKind>(e),
            },
    {
        let mut path = KeyPath::new();
        let mut remainder = s;
        loop
            invariant
                parse(s@) == parse_from(remainder@, s@.len(), path@),
                remainder@.len() <= s@.len(),
            decreases remainder@.len(),
        {
            let c = match first_char(remainder) {
                None => {
                    return Ok(path);
                },
                Some(c) => c,
            };
            proof {
                lemma_scan_step(remainder@, 0);
                assert(remainder@.take(0) =~= Seq::<char>::empty());
            }
            if c == '.' {
                let (_, rem) = split_chars(remainder, Ghost(1), utf8_width(c));
                remainder = rem;
            } else if c == '[' {
                let (_, body) = split_chars(remainder, Ghost(1), utf8_width(c));
                proof {
                    lemma_run_len(body@, CharClass::Digit);
                }
                let (digits, after) = split_run(body, CharClass::Digit);
                if digits.unicode_len() == 0 || first_char(after) != Some(']') {
                    return Err(ErrorKind::InvalidKeyPathSyntax);
                }
                let index = match parse_index(digits) {
                    None => {
                        return Err(ErrorKind::InvalidKeyPathSyntax);
                    },
                    Some(index) => index,
                };
                proof {
                    lemma_scan_step(after@, 0);
                    assert(after@.take(0) =~= Seq::<char>::empty());
                    assert(after@.skip(1) =~= body@.skip(digits@.len() as int + 1));
                }
                let (_, rem) = split_chars(after, Ghost(1), utf8_width(']'));
                path = path.append_index(index);
                remainder = rem;
            } else if is_bare_char(c) {
                proof {
                    lemma_run_len(remainder@, CharClass::Bare);
                }
                let (key, rem) = split_run(remainder, CharClass::Bare);
                path = path.append_key(key.to_owned());
                remainder = rem;
            } else if c == ']' {
                return Err(ErrorKind::InvalidKeyPathSyntax);
            } else {
                return Err(
                    ErrorKind::Syntax(
                        SyntaxError::UnexpectedCharacter {
                            position: s.unicode_len() - remainder.unicode_len(),
                        },
                    ),
                );
            }
        }
    }

    /// Whether the two paths have the same components.
    pub fn same_as(&self, other: &KeyPath) -> (b: bool)
        ensures
            b == (self@ == other@),
    {
        if self.parts.len() != other.parts.len() {
            assert(self@.len() != other@.len());
            return false;
        }
        let mut i: usize = 0;
        while i < self.parts.len()
            invariant
                0 <= i <= self.parts@.len(),
                self.parts@.len() == other.parts@.len(),
                forall|j: int| 0 <= j < i ==> self@[j] == other@[j],
            decreases self.parts@.len() - i,
        {
            if self.parts[i] != other.parts[i] {
                assert(self@[i as int] != other@[i as int]);
                return false;
            }
            i = i + 1;
        }
        proof {
            assert(self@ =~= other@);
        }
        true
    }
}

impl PartialEq for KeyPath {
    fn eq(&self, other: &KeyPath) -> (b: bool) {
        self.same_as(other)
    }
}

impl vstd::std_specs::cmp::PartialEqSpecImpl for KeyPath {
    open spec fn obeys_eq_spec() -> bool {
        true
    }

    open spec fn eq_spec(&self, other: &KeyPath) -> bool {
        self@ == other@
    }
}

impl Clone for KeyPath {
    fn clone(&self) -> (copy: KeyPath)
        ensures
            copy@ == self@,
    {
        let copy = self.prefix(self.parts.len());
        proof {
            assert(self@.take(self@.len() as int) =~= self@);
        }
        copy
    }
}

/// Reading the notation of a path gives the path back, where each of its
/// keys is a non-empty run of letters, digits, `_` and `-`.
pub proof fn lemma_parse_render(path: KeyPath)
    requires
        path_is_safe(path@),
    ensures
        parse(render(path@)) == Ok::<Seq<PathPart>, ErrorKind>(path@),
{
    lemma_parse_render_from(path@, render(path@).len(), Seq::empty());
    assert(Seq::<PathPart>::empty() + path@ =~= path@);
}

} // verus!
