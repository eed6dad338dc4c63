//! The parser: its state, the cursor over the current line, and the
//! primitives that write to the output.

use vstd::prelude::*;
use vstd::string::StringExecFns;
use crate::inline::{Run, Step};
use crate::markup::{close_html, open_html, render, CellKind, ListKind, Mark, Piece, Tag};
use crate::markup::{group_render, lemma_render_add};
use crate::state::{Block, Marks, State};
use crate::text::{at, entity, escaped, find, leading, lemma_leading_is, trim, CharClass, Escape};

verus! {

/// A parse in progress. One is made for each document and used up by it.
#[derive(Debug)]
pub struct Parser {
    /// The document.
    pub(crate) source: Vec<char>,
    /// Where the first line that was not read yet starts.
    pub(crate) next: usize,
    /// Where the unread part of the current line starts.
    pub(crate) pos: usize,
    /// Where the current line ends.
    pub(crate) end: usize,
    /// The block that is open.
    pub(crate) block: Block,
    /// The open lists, outermost first.
    pub(crate) lists: Vec<ListKind>,
    /// The open spans.
    pub(crate) marks: Marks,
    /// What was written so far.
    pub(crate) output: String,
}

/// Appends one character to a string.
///
/// Wraps `String::push`, which appends the given `char` to the end of
/// the string and changes nothing else of it.
#[verifier::external_body]
pub(crate) fn push_char(out: &mut String, c: char)
    ensures
        final(out)@ == old(out)@.push(c),
{
    out.push(c)
}

/// The characters of a string slice, in order. The parser works on
/// characters, so that no position it holds can fall inside one.
pub fn chars_of(input: &str) -> (chars: Vec<char>)
    ensures
        chars@ == input@,
{
    let mut chars: Vec<char> = Vec::new();
    for c in it: input.chars()
        invariant
            chars@ == it.seq().take(it.index() as int),
            it.seq() == input@,
    {
        chars.push(c);
    }
    chars
}

/// The start tag of an element, as text.
pub(crate) fn open_text(tag: Tag) -> (s: &'static str)
    ensures
        s@ == open_html(tag),
{
    match tag {
        Tag::Heading(level) => if level == 1 {
            "<h1>"
        } else if level == 2 {
            "<h2>"
        } else if level == 3 {
            "<h3>"
        } else if level == 4 {
            "<h4>"
        } else if level == 5 {
            "<h5>"
        } else {
            "<h6>"
        },
        Tag::Paragraph => "<p>",
        Tag::List(ListKind::Unordered) => "<ul>",
        Tag::List(ListKind::Ordered) => "<ol>",
        Tag::Item => "<li>",
        Tag::Pre => "<pre><code>",
        Tag::Blockquote => "<blockquote>",
        Tag::Table => "<table><tbody>",
        Tag::Row => "<tr>",
        Tag::Cell(CellKind::Data) => "<td>",
        Tag::Cell(CellKind::Header) => "<th>",
        Tag::Span(Mark::Strong) => "<strong>",
        Tag::Span(Mark::Em) => "<em>",
        Tag::Span(Mark::Del) => "<del>",
        Tag::Span(Mark::Ins) => "<ins>",
        Tag::Span(Mark::Highlight) => "<mark>",
        Tag::Span(Mark::Code) => "<code>",
        Tag::Span(Mark::Sup) => "<sup>",
        Tag::Link => "<a>",
    }
}

/// The end tag of an element, as text.
pub(crate) fn close_text(tag: Tag) -> (s: &'static str)
    ensures
        s@ == close_html(tag),
{
    match tag {
        Tag::Heading(level) => if level == 1 {
            "</h1>\n"
        } else if level == 2 {
            "</h2>\n"
        } else if level == 3 {
            "</h3>\n"
        } else if level == 4 {
            "</h4>\n"
        } else if level == 5 {
            "</h5>\n"
        } else {
            "</h6>\n"
        },
        Tag::Paragraph => "</p>\n",
        Tag::List(ListKind::Unordered) => "</ul>",
        Tag::List(ListKind::Ordered) => "</ol>",
        Tag::Item => "</li>",
        Tag::Pre => "</code></pre>\n",
        Tag::Blockquote => "</blockquote>\n",
        Tag::Table => "</tbody></table>\n",
        Tag::Row => "</tr>",
        Tag::Cell(CellKind::Data) => "</td>",
        Tag::Cell(CellKind::Header) => "</th>",
        Tag::Span(Mark::Strong) => "</strong>",
        Tag::Span(Mark::Em) => "</em>",
        Tag::Span(Mark::Del) => "</del>",
        Tag::Span(Mark::Ins) => "</ins>",
        Tag::Span(Mark::Highlight) => "</mark>",
        Tag::Span(Mark::Code) => "</code>",
        Tag::Span(Mark::Sup) => "</sup>",
        Tag::Link => "</a>",
    }
}

/// Writes the start tag of an element.
pub(crate) fn push_open(out: &mut String, tag: Tag)
    ensures
        final(out)@ == old(out)@ + render(seq![Piece::Open(tag)]),
{
    broadcast use group_render;

    out.append(open_text(tag));
}

/// Writes the end tag of an element.
pub(crate) fn push_close(out: &mut String, tag: Tag)
    ensures
        final(out)@ == old(out)@ + render(seq![Piece::Close(tag)]),
{
    broadcast use group_render;

    out.append(close_text(tag));
}

/// Writes a run of text.
pub(crate) fn push_text(out: &mut String, text: &str)
    ensures
        final(out)@ == old(out)@ + render(seq![Piece::Text(text@)]),
{
    broadcast use group_render;

    out.append(text);
}

/// Writes one character the way `mode` asks.
pub(crate) fn push_entity(out: &mut String, c: char, mode: Escape)
    ensures
        final(out)@ == old(out)@ + entity(c, mode),
{
    if c == '<' {
        out.append("&lt;");
    } else if c == '>' {
        out.append("&gt;");
    } else if c == ' ' && matches!(mode, Escape::Code) {
        out.append("&nbsp;");
    } else if (c == '"' || c == '\'') && matches!(mode, Escape::Lang) {
        assert(old(out)@ + Seq::<char>::empty() =~= old(out)@);
    } else {
        push_char(out, c);
        assert(old(out)@.push(c) =~= old(out)@ + seq![c]);
    }
}

impl Parser {
    /// The unread part of the current line.
    pub(crate) open spec fn rest(&self) -> Seq<char> {
        self.source@.subrange(self.pos as int, self.end as int)
    }

    /// The part of the document that no line was read from yet.
    pub(crate) open spec fn unread(&self) -> Seq<char> {
        self.source@.skip(self.next as int)
    }

    /// What is open.
    pub(crate) open spec fn state(&self) -> State {
        State { block: self.block, lists: self.lists@, marks: self.marks }
    }

    /// The cursor lies within the document.
    pub(crate) open spec fn wf(&self) -> bool {
        self.pos <= self.end <= self.source.len() && self.next <= self.source.len()
    }

    /// `self` differs from `before` in nothing but the cursor's position,
    /// the block and the spans.
    pub(crate) open spec fn same_line(&self, before: &Parser) -> bool {
        &&& self.source == before.source
        &&& self.next == before.next
        &&& self.end == before.end
        &&& self.lists == before.lists
        &&& self.output == before.output
        &&& self.pos >= before.pos
    }

    /// `self` differs from `before` in nothing but the cursor's position,
    /// which did not move back.
    pub(crate) open spec fn moved(&self, before: &Parser) -> bool {
        *self == (Parser { pos: self.pos, ..*before }) && self.pos >= before.pos
    }

    /// `self` has open what `before` had, and wrote nothing since.
    pub(crate) open spec fn same_state(&self, before: &Parser) -> bool {
        &&& self.block == before.block
        &&& self.lists == before.lists
        &&& self.marks == before.marks
        &&& self.output == before.output
    }

    /// Since `o` was the output, exactly `pieces` were written.
    pub(crate) open spec fn wrote(&self, o: Seq<char>, pieces: Seq<Piece>) -> bool {
        self.output@ == o + render(pieces)
    }

    /// `self` reads the same document as `before`, from the same line on.
    pub(crate) open spec fn same_document(&self, before: &Parser) -> bool {
        self.source == before.source && self.next == before.next
    }

    /// Whether the current line is read to its end.
    pub(crate) fn is_empty(&self) -> (b: bool)
        requires
            self.wf(),
        ensures
            b == (self.rest().len() == 0),
    {
        self.pos >= self.end
    }

    /// How much of the current line is unread.
    pub(crate) fn remaining(&self) -> (n: usize)
        requires
            self.wf(),
        ensures
            n == self.rest().len(),
    {
        self.end - self.pos
    }

    /// Whether `c` stands `i` characters ahead.
    pub(crate) fn at(&self, i: usize, c: char) -> (b: bool)
        requires
            self.wf(),
        ensures
            b == at(self.rest(), i as int, c),
    {
        i < self.end - self.pos && self.source[self.pos + i] == c
    }

    /// The character `i` characters ahead.
    pub(crate) fn peek(&self, i: usize) -> (c: char)
        requires
            self.wf(),
            i < self.rest().len(),
        ensures
            c == self.rest()[i as int],
    {
        self.source[self.pos + i]
    }

    /// Moves the cursor `n` characters on.
    pub(crate) fn advance(&mut self, n: usize)
        requires
            old(self).wf(),
            n <= old(self).rest().len(),
        ensures
            final(self).wf(),
            final(self).rest() == old(self).rest().skip(n as int),
            *final(self) == (Parser { pos: (old(self).pos + n) as usize, ..*old(self) }),
    {
        self.pos = self.pos + n;
        assert(self.rest() =~= old(self).rest().skip(n as int));
    }

    /// The length of the run of `class` at the cursor.
    pub(crate) fn scan(&self, class: CharClass) -> (n: usize)
        requires
            self.wf(),
        ensures
            n == leading(self.rest(), class),
            n <= self.rest().len(),
    {
        let mut i: usize = self.pos;
        while i < self.end && class.contains(self.source[i])
            invariant
                self.wf(),
                self.pos <= i <= self.end,
                forall|j: int| self.pos <= j < i ==> class.has(#[trigger] self.source@[j]),
            decreases self.end - i,
        {
            i = i + 1;
        }
        proof {
            let s = self.rest();
            assert forall|k: int| 0 <= k < i - self.pos implies class.has(#[trigger] s[k]) by {
                assert(s[k] == self.source@[self.pos + k]);
            }
            lemma_leading_is(s, class, i - self.pos);
        }
        i - self.pos
    }

    /// How far ahead the first `c` stands, if there is one.
    pub(crate) fn find(&self, c: char) -> (r: Option<usize>)
        requires
            self.wf(),
        ensures
            match r {
                Some(i) => find(self.rest(), c) == Some(i as int) && i < self.rest().len(),
                None => find(self.rest(), c) is None,
            },
    {
        let n = self.scan(CharClass::Except(c));
        if n < self.end - self.pos {
            Some(n)
        } else {
            None
        }
    }

    /// Moves the cursor past any spaces.
    pub(crate) fn trim_start(&mut self)
        requires
            old(self).wf(),
        ensures
            final(self).wf(),
            final(self).rest() == trim(old(self).rest()),
            final(self).moved(old(self)),
    {
        let n = self.scan(CharClass::Space);
        self.advance(n);
    }

    /// Writes the next `n` characters as they are and moves past them.
    pub(crate) fn copy(&mut self, n: usize, out: &mut String)
        requires
            old(self).wf(),
            n <= old(self).rest().len(),
        ensures
            final(self).wf(),
            final(self).rest() == old(self).rest().skip(n as int),
            *final(self) == (Parser { pos: (old(self).pos + n) as usize, ..*old(self) }),
            final(out)@ == old(out)@ + old(self).rest().take(n as int),
    {
        let ghost s = self.rest();
        let mut k: usize = 0;
        while k < n
            invariant
                self.wf(),
                *self == *old(self),
                s == self.rest(),
                k <= n <= s.len(),
                out@ == old(out)@ + s.take(k as int),
            decreases n - k,
        {
            push_char(out, self.source[self.pos + k]);
            assert(s.take(k as int).push(s[k as int]) =~= s.take(k + 1));
            assert((old(out)@ + s.take(k as int)).push(s[k as int]) =~= old(out)@ + s.take(
                k + 1,
            ));
            k = k + 1;
        }
        self.advance(n);
    }

    /// Writes the next `n` characters the way `mode` asks and moves past
    /// them.
    pub(crate) fn copy_escaped(&mut self, n: usize, mode: Escape, out: &mut String)
        requires
            old(self).wf(),
            n <= old(self).rest().len(),
        ensures
            final(self).wf(),
            final(self).rest() == old(self).rest().skip(n as int),
            *final(self) == (Parser { pos: (old(self).pos + n) as usize, ..*old(self) }),
            final(out)@ == old(out)@ + escaped(old(self).rest().take(n as int), mode),
    {
        let ghost s = self.rest();
        let mut k: usize = 0;
        assert(s.take(0) =~= Seq::<char>::empty());
        assert(old(out)@ + escaped(s.take(0), mode) =~= old(out)@);
        while k < n
            invariant
                self.wf(),
                *self == *old(self),
                s == self.rest(),
                k <= n <= s.len(),
                out@ == old(out)@ + escaped(s.take(k as int), mode),
            decreases n - k,
        {
            push_entity(out, self.source[self.pos + k], mode);
            proof {
                let t = s.take(k + 1);
                assert(t.drop_last() =~= s.take(k as int));
                assert(t.last() == s[k as int]);
                assert((old(out)@ + escaped(s.take(k as int), mode)) + entity(s[k as int], mode)
                    =~= old(out)@ + escaped(t, mode));
            }
            k = k + 1;
        }
        self.advance(n);
    }

    /// A parser at the start of a document.
    pub(crate) fn from_str(input: &str) -> (p: Parser)
        ensures
            p.wf(),
            p.source@ == input@,
            p.unread() == input@,
            p.rest().len() == 0,
            p.state() == State::initial(),
            p.output@ == Seq::<char>::empty(),
    {
        let p = Parser {
            source: chars_of(input),
            next: 0,
            pos: 0,
            end: 0,
            block: Block::Idle,
            lists: Vec::new(),
            marks: Marks::new(),
            output: String::new(),
        };
        assert(p.unread() =~= input@);
        p
    }
}

/// Whether a line was handled as its description says: the state is the
/// one that `run` gives, and its pieces were written to the output.
pub(crate) open spec fn line_outcome(before: Parser, after: Parser, run: Run) -> bool {
    &&& after.wf()
    &&& after.same_document(&before)
    &&& after.state() == run.state
    &&& after.wrote(before.output@, run.pieces)
}

/// Writing `b` after `a` is writing `a + b`.
pub(crate) proof fn lemma_wrote(o: Seq<char>, a: Seq<Piece>, b: Seq<Piece>)
    ensures
        (o + render(a)) + render(b) == o + render(a + b),
{
    lemma_render_add(a, b);
    assert((o + render(a)) + render(b) =~= o + (render(a) + render(b)));
}

/// Writing nothing leaves the output as it is.
pub(crate) proof fn lemma_wrote_nothing(o: Seq<char>)
    ensures
        o == o + render(Seq::empty()),
{
    assert(o =~= o + render(Seq::empty()));
}

/// Whether a rule did what its description says: `hit` tells whether it
/// applied; if it did, the parser went on as `step` says and the pieces
/// were written to the output, and if it did not, nothing changed.
pub(crate) open spec fn rule_outcome(
    before: Parser,
    out0: Seq<char>,
    after: Parser,
    out1: Seq<char>,
    hit: bool,
    rule: Option<Step>,
) -> bool {
    &&& after.wf()
    &&& after.same_line(&before)
    &&& match rule {
        Some(step) => {
            &&& hit
            &&& after.state() == step.state
            &&& after.rest() == step.rest
            &&& out1 == out0 + render(step.pieces)
        },
        None => {
            &&& !hit
            &&& after.state() == before.state()
            &&& after.rest() == before.rest()
            &&& out1 == out0
        },
    }
}

} // verus!
