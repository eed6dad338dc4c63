//! Character sequences: the vocabulary in which the grammar is stated.
//!
//! Text is modelled as `Seq<char>`. Everything the parser asks of a line
//! is one of a handful of questions: which character stands at an offset,
//! how long the leading run of some class of characters is, and what is
//! left after a prefix is dropped.

use vstd::prelude::*;

verus! {

/// A class of characters whose leading run can be measured.
#[derive(Clone, Copy, Debug)]
pub enum CharClass {
    /// The space character only.
    Space,
    /// `_` and `0`, which stand for "use the default" in a span count.
    Placeholder,
    /// ASCII digits `0` to `9`.
    Digit,
    /// Every character but the given one.
    Except(char),
}

impl CharClass {
    /// Whether `c` belongs to the class.
    pub open spec fn has(self, c: char) -> bool {
        match self {
            CharClass::Space => c == ' ',
            CharClass::Placeholder => c == '_' || c == '0',
            CharClass::Digit => '0' <= c && c <= '9',
            CharClass::Except(x) => c != x,
        }
    }

    /// Executable membership test.
    pub fn contains(self, c: char) -> (b: bool)
        ensures
            b == self.has(c),
    {
        match self {
            CharClass::Space => c == ' ',
            CharClass::Placeholder => c == '_' || c == '0',
            CharClass::Digit => '0' <= c && c <= '9',
            CharClass::Except(x) => c != x,
        }
    }
}

/// Whether character `c` stands at offset `i` of `s`.
pub open spec fn at(s: Seq<char>, i: int, c: char) -> bool {
    0 <= i < s.len() && s[i] == c
}

/// Whether `s` begins with the two characters `a`, `b`.
pub open spec fn starts2(s: Seq<char>, a: char, b: char) -> bool {
    at(s, 0, a) && at(s, 1, b)
}

/// Whether `s` begins with the three characters `a`, `b`, `c`.
pub open spec fn starts3(s: Seq<char>, a: char, b: char, c: char) -> bool {
    at(s, 0, a) && at(s, 1, b) && at(s, 2, c)
}

/// Whether `s` begins with `n` copies of `c`.
pub open spec fn starts_repeated(s: Seq<char>, c: char, n: int) -> bool {
    n <= s.len() && forall|i: int| 0 <= i < n ==> s[i] == c
}

/// Length of the longest prefix of `s` made of characters of `class`.
pub open spec fn leading(s: Seq<char>, class: CharClass) -> nat
    decreases s.len(),
{
    if s.len() > 0 && class.has(s[0]) {
        1 + leading(s.skip(1), class)
    } else {
        0
    }
}

/// Offset of the first `c` in `s`, if there is one.
pub open spec fn find(s: Seq<char>, c: char) -> Option<int> {
    let n = leading(s, CharClass::Except(c));
    if n < s.len() {
        Some(n as int)
    } else {
        None
    }
}

/// `s` without its leading spaces.
pub open spec fn trim(s: Seq<char>) -> Seq<char> {
    s.skip(leading(s, CharClass::Space) as int)
}

/// The leading run is a prefix of the class, and it is maximal.
pub proof fn lemma_leading(s: Seq<char>, class: CharClass)
    ensures
        leading(s, class) <= s.len(),
        forall|i: int| 0 <= i < leading(s, class) ==> class.has(#[trigger] s[i]),
        leading(s, class) < s.len() ==> !class.has(s[leading(s, class) as int]),
    decreases s.len(),
{
    if s.len() > 0 && class.has(s[0]) {
        let t = s.skip(1);
        lemma_leading(t, class);
        assert forall|i: int| 0 <= i < leading(s, class) implies class.has(#[trigger] s[i]) by {
            if i > 0 {
                assert(s[i] == t[i - 1]);
            }
        }
        if leading(s, class) < s.len() {
            assert(s[leading(s, class) as int] == t[leading(t, class) as int]);
        }
    }
}

/// A prefix of the class that cannot be extended is the leading run.
pub proof fn lemma_leading_is(s: Seq<char>, class: CharClass, n: int)
    requires
        0 <= n <= s.len(),
        forall|i: int| 0 <= i < n ==> class.has(#[trigger] s[i]),
        n < s.len() ==> !class.has(s[n]),
    ensures
        leading(s, class) == n,
    decreases n,
{
    if n > 0 {
        let t = s.skip(1);
        assert forall|i: int| 0 <= i < n - 1 implies class.has(#[trigger] t[i]) by {
            assert(t[i] == s[i + 1]);
        }
        lemma_leading_is(t, class, n - 1);
    }
}

/// What `find` returns, said without recursion.
pub proof fn lemma_find(s: Seq<char>, c: char)
    ensures
        match find(s, c) {
            Some(i) => 0 <= i < s.len() && s[i] == c && forall|j: int|
                0 <= j < i ==> #[trigger] s[j] != c,
            None => forall|j: int| 0 <= j < s.len() ==> #[trigger] s[j] != c,
        },
{
    lemma_leading(s, CharClass::Except(c));
}

/// The contexts that differ in how a character is written out.
#[derive(Clone, Copy, Debug)]
pub enum Escape {
    /// Running text: `<` and `>` become entities.
    Text,
    /// Code blocks: `<`, `>` and the space become entities.
    Code,
    /// The language of a code fence: `<` and `>` become entities, and
    /// quote characters are left out.
    Lang,
}

/// The characters that stand for `c` in the output.
pub open spec fn entity(c: char, mode: Escape) -> Seq<char> {
    if c == '<' {
        "&lt;"@
    } else if c == '>' {
        "&gt;"@
    } else if c == ' ' && mode is Code {
        "&nbsp;"@
    } else if (c == '"' || c == '\'') && mode is Lang {
        Seq::empty()
    } else {
        seq![c]
    }
}

/// `s` with each character written out as `mode` asks.
pub open spec fn escaped(s: Seq<char>, mode: Escape) -> Seq<char>
    decreases s.len(),
{
    if s.len() == 0 {
        Seq::empty()
    } else {
        escaped(s.drop_last(), mode) + entity(s.last(), mode)
    }
}

/// Escaping goes character by character: it distributes over concatenation.
pub proof fn lemma_escaped_add(a: Seq<char>, b: Seq<char>, mode: Escape)
    ensures
        escaped(a + b, mode) == escaped(a, mode) + escaped(b, mode),
    decreases b.len(),
{
    if b.len() == 0 {
        assert(a + b =~= a);
        assert(escaped(a, mode) + escaped(b, mode) =~= escaped(a, mode));
    } else {
        lemma_escaped_add(a, b.drop_last(), mode);
        assert((a + b).drop_last() =~= a + b.drop_last());
        assert((a + b).last() == b.last());
        assert(escaped(a + b, mode) =~= escaped(a, mode) + escaped(b, mode));
    }
}

/// The text of the first line of `t`: everything before the first line feed,
/// less one carriage return if it stands right before that line feed.
/// A last line that no line feed ends is taken whole.
pub open spec fn first_line(t: Seq<char>) -> Seq<char> {
    match find(t, '\n') {
        Some(i) => {
            if i > 0 && t[i - 1] == '\r' {
                t.take(i - 1)
            } else {
                t.take(i)
            }
        },
        None => t,
    }
}

/// What follows the first line of `t` and its line feed.
pub open spec fn after_first_line(t: Seq<char>) -> Seq<char> {
    match find(t, '\n') {
        Some(i) => t.skip(i + 1),
        None => Seq::empty(),
    }
}

/// The lines of `t`, in order. A final line feed opens no further line.
pub open spec fn lines(t: Seq<char>) -> Seq<Seq<char>>
    decreases t.len(),
{
    if t.len() == 0 {
        Seq::empty()
    } else {
        seq![first_line(t)] + lines(after_first_line(t))
    }
}

} // verus!
