//! The inline grammar: what a run of text inside a block is turned into.
//!
//! The text is read from the left. At each position the first rule that
//! applies, in a fixed order, consumes a prefix and yields some pieces.

use vstd::prelude::*;
use vstd::string::StringExecFns;
use crate::markup::{group_render, lemma_render_add, lemma_render_empty, render};
use crate::markup::{Mark, Piece, Tag};
use crate::parser::{push_close, push_entity, push_open, push_text, rule_outcome, Parser};
use crate::state::{Block, State};
use crate::table::cell_rule;
use crate::text::{at, entity, find, lemma_find, lemma_leading, starts2, starts3, trim};
use crate::text::{CharClass, Escape};

verus! {

/// The outcome of one rule: the state after it, the text that is left,
/// and what was written.
pub struct Step {
    pub state: State,
    pub rest: Seq<char>,
    pub pieces: Seq<Piece>,
}

/// The outcome of reading a text to its end.
pub struct Run {
    pub state: State,
    pub pieces: Seq<Piece>,
}

/// `a` if it applies, else `b`.
pub open spec fn or_else(a: Option<Step>, b: Option<Step>) -> Option<Step> {
    if a is Some {
        a
    } else {
        b
    }
}

/// The characters that a backslash makes literal.
pub open spec fn escapable(c: char) -> bool {
    c == '\\' || c == '*' || c == '_' || c == '~' || c == '+' || c == '=' || c == '`' || c == '^'
        || c == '[' || c == '|'
}

/// A backslash before a special character: the backslash goes, the
/// character stays as it is. `\![` keeps both `!` and `[`; `\<` is
/// written as an entity.
pub open spec fn escape_rule(st: State, s: Seq<char>) -> Option<Step> {
    if !at(s, 0, '\\') || s.len() < 2 {
        None
    } else if escapable(s[1]) {
        Some(Step { state: st, rest: s.skip(2), pieces: seq![Piece::Text(s.subrange(1, 2))] })
    } else if starts3(s, '\\', '!', '[') {
        Some(Step { state: st, rest: s.skip(3), pieces: seq![Piece::Text(s.subrange(1, 3))] })
    } else if s[1] == '<' {
        Some(Step { state: st, rest: s.skip(2), pieces: seq![Piece::Text("&lt;"@)] })
    } else {
        None
    }
}

/// Two spaces that end the text: a line break.
pub open spec fn br_rule(st: State, s: Seq<char>) -> Option<Step> {
    if s.len() == 2 && starts2(s, ' ', ' ') {
        Some(Step { state: st, rest: s.skip(2), pieces: seq![Piece::Break] })
    } else {
        None
    }
}

/// The character that marks the span `m`.
pub open spec fn marker(m: Mark) -> char {
    match m {
        Mark::Strong => '*',
        Mark::Em => '_',
        Mark::Del => '~',
        Mark::Ins => '+',
        Mark::Highlight => '=',
        Mark::Code => '`',
        Mark::Sup => '^',
    }
}

/// How many times the marker of `m` is written: once or twice.
pub open spec fn marker_width(m: Mark) -> int {
    match m {
        Mark::Em | Mark::Code | Mark::Sup => 1,
        _ => 2,
    }
}

/// Whether `s` begins with the marker of `m`.
pub open spec fn marked(s: Seq<char>, m: Mark) -> bool {
    at(s, 0, marker(m)) && (marker_width(m) == 2 ==> at(s, 1, marker(m)))
}

/// The marker of a span: it opens the span if it is closed, and closes it
/// if it is open.
pub open spec fn toggle_rule(st: State, s: Seq<char>, m: Mark) -> Option<Step> {
    if marked(s, m) {
        let on = st.marks.get(m);
        Some(
            Step {
                state: State { marks: st.marks.with(m, !on), ..st },
                rest: s.skip(marker_width(m)),
                pieces: seq![
                    if on {
                        Piece::Close(Tag::Span(m))
                    } else {
                        Piece::Open(Tag::Span(m))
                    },
                ],
            },
        )
    } else {
        None
    }
}

/// `<id>`: an empty anchor of that name. A `<` that no `>` follows is
/// written as an entity.
pub open spec fn anchor_rule(st: State, s: Seq<char>) -> Option<Step> {
    if at(s, 0, '<') {
        let t = s.skip(1);
        match find(t, '>') {
            Some(i) => Some(
                Step { state: st, rest: t.skip(i + 1), pieces: seq![Piece::Anchor(t.take(i))] },
            ),
            None => Some(Step { state: st, rest: t, pieces: seq![Piece::Text("&lt;"@)] }),
        }
    } else {
        None
    }
}

/// `[ ]` and `[x]`: a checkbox.
pub open spec fn checkbox_rule(st: State, s: Seq<char>, checked: bool) -> Option<Step> {
    if starts3(s, '[', if checked { 'x' } else { ' ' }, ']') {
        Some(Step { state: st, rest: s.skip(3), pieces: seq![Piece::Checkbox(checked)] })
    } else {
        None
    }
}

/// Any character that no other rule took. Inside a table, spaces that
/// lead up to a `|` are dropped; everything else is written out, `<` and
/// `>` as entities.
pub open spec fn text_rule(st: State, s: Seq<char>) -> Step
    recommends
        s.len() > 0,
{
    if st.block is Table && at(s, 0, ' ') && at(trim(s), 0, '|') {
        Step { state: st, rest: trim(s), pieces: Seq::empty() }
    } else {
        Step { state: st, rest: s.skip(1), pieces: seq![Piece::Text(entity(s[0], Escape::Text))] }
    }
}

/// `[label](href)`: a link. The label is itself read as inline text, the
/// target is copied as it stands. A `[` that no `]` follows is plain
/// text; a label that no `(` follows, or whose `(` is never closed, is
/// written between literal brackets.
pub open spec fn link_rule(st: State, s: Seq<char>) -> Option<Step>
    decreases s.len(), 0int,
{
    if at(s, 0, '[') {
        match find(s, ']') {
            None => Some(Step { state: st, rest: s.skip(1), pieces: seq![Piece::Text("["@)] }),
            Some(i) => {
                if 1 <= i < s.len() {
                    let label = inline_text(st, s.subrange(1, i));
                    let u = s.skip(i + 1);
                    if !at(u, 0, '(') {
                        Some(
                            Step {
                                state: label.state,
                                rest: u,
                                pieces: seq![Piece::Text("["@)] + label.pieces + seq![
                                    Piece::Text("]"@),
                                ],
                            },
                        )
                    } else {
                        let v = u.skip(1);
                        match find(v, ')') {
                            None => Some(
                                Step {
                                    state: label.state,
                                    rest: v,
                                    pieces: seq![Piece::Text("["@)] + label.pieces + seq![
                                        Piece::Text("]"@),
                                        Piece::Text("("@),
                                    ],
                                },
                            ),
                            Some(j) => Some(
                                Step {
                                    state: label.state,
                                    rest: v.skip(j + 1),
                                    pieces: seq![Piece::OpenLink(v.take(j))] + label.pieces + seq![
                                        Piece::Close(Tag::Link),
                                    ],
                                },
                            ),
                        }
                    }
                } else {
                    None
                }
            },
        }
    } else {
        None
    }
}

/// `![description](src)`: an image. The description is itself read as
/// inline text, the source is copied as it stands. `![` that no `]`
/// follows is plain text; a description that no `(` follows, or whose
/// `(` is never closed, is written between `![` and a literal bracket.
pub open spec fn img_rule(st: State, s: Seq<char>) -> Option<Step>
    decreases s.len(), 0int,
{
    if starts2(s, '!', '[') {
        let t = s.skip(2);
        match find(t, ']') {
            None => Some(Step { state: st, rest: t, pieces: seq![Piece::Text("!["@)] }),
            Some(i) => {
                if 0 <= i < t.len() {
                    let label = inline_text(st, t.take(i));
                    let u = t.skip(i + 1);
                    if !at(u, 0, '(') {
                        Some(
                            Step {
                                state: label.state,
                                rest: u,
                                pieces: seq![Piece::Text("!["@)] + label.pieces + seq![
                                    Piece::Text("]"@),
                                ],
                            },
                        )
                    } else {
                        let v = u.skip(1);
                        match find(v, ')') {
                            None => Some(
                                Step {
                                    state: label.state,
                                    rest: v,
                                    pieces: seq![Piece::Text("!["@)] + label.pieces + seq![
                                        Piece::Text("]"@),
                                        Piece::Text("("@),
                                    ],
                                },
                            ),
                            Some(j) => Some(
                                Step {
                                    state: label.state,
                                    rest: v.skip(j + 1),
                                    pieces: seq![Piece::ImageStart] + label.pieces + seq![
                                        Piece::ImageEnd(v.take(j)),
                                    ],
                                },
                            ),
                        }
                    }
                } else {
                    None
                }
            },
        }
    } else {
        None
    }
}

/// The rules that read markup, in their order of precedence. None of
/// them applies inside a code span.
pub open spec fn markup_rule(st: State, s: Seq<char>) -> Option<Step>
    decreases s.len(), 1int,
{
    if st.marks.code {
        None
    } else {
        or_else(
            br_rule(st, s),
            or_else(
                toggle_rule(st, s, Mark::Strong),
                or_else(
                    toggle_rule(st, s, Mark::Em),
                    or_else(
                        toggle_rule(st, s, Mark::Del),
                        or_else(
                            toggle_rule(st, s, Mark::Ins),
                            or_else(
                                toggle_rule(st, s, Mark::Highlight),
                                or_else(
                                    toggle_rule(st, s, Mark::Sup),
                                    or_else(
                                        anchor_rule(st, s),
                                        or_else(
                                            checkbox_rule(st, s, false),
                                            or_else(
                                                checkbox_rule(st, s, true),
                                                or_else(
                                                    link_rule(st, s),
                                                    or_else(img_rule(st, s), cell_rule(st, s)),
                                                ),
                                            ),
                                        ),
                                    ),
                                ),
                            ),
                        ),
                    ),
                ),
            ),
        )
    }
}

/// What is done at the head of a text: an escape if there is one, else
/// markup, else the code marker, else plain text.
pub open spec fn inline_step(st: State, s: Seq<char>) -> Step
    recommends
        s.len() > 0,
    decreases s.len(), 2int,
{
    match escape_rule(st, s) {
        Some(step) => step,
        None => match markup_rule(st, s) {
            Some(step) => step,
            None => match toggle_rule(st, s, Mark::Code) {
                Some(step) => step,
                None => text_rule(st, s),
            },
        },
    }
}

/// What a whole text is turned into: its steps, one after another.
pub open spec fn inline_text(st: State, s: Seq<char>) -> Run
    decreases s.len(), 3int,
{
    if s.len() == 0 {
        Run { state: st, pieces: Seq::empty() }
    } else {
        let step = inline_step(st, s);
        if step.rest.len() < s.len() {
            let more = inline_text(step.state, step.rest);
            Run { state: more.state, pieces: step.pieces + more.pieces }
        } else {
            Run { state: step.state, pieces: step.pieces }
        }
    }
}

/// Executable form of [`escapable`].
fn is_escapable(c: char) -> (b: bool)
    ensures
        b == escapable(c),
{
    c == '\\' || c == '*' || c == '_' || c == '~' || c == '+' || c == '=' || c == '`' || c == '^'
        || c == '[' || c == '|'
}

/// The marker of a span and how many times it is written.
fn marker_of(m: Mark) -> (r: (char, usize))
    ensures
        r.0 == marker(m),
        r.1 == marker_width(m),
{
    match m {
        Mark::Strong => ('*', 2),
        Mark::Em => ('_', 1),
        Mark::Del => ('~', 2),
        Mark::Ins => ('+', 2),
        Mark::Highlight => ('=', 2),
        Mark::Code => ('`', 1),
        Mark::Sup => ('^', 1),
    }
}

impl Parser {
    /// Applies [`escape_rule`].
    pub(crate) fn escape(&mut self, out: &mut String) -> (hit: bool)
        requires
            old(self).wf(),
        ensures
            rule_outcome(
                *old(self),
                old(out)@,
                *final(self),
                final(out)@,
                hit,
                escape_rule(old(self).state(), old(self).rest()),
            ),
    {
        broadcast use group_render;

        let ghost s = self.rest();
        if !self.at(0, '\\') || self.remaining() < 2 {
            return false;
        }
        let c = self.peek(1);
        if is_escapable(c) {
            self.advance(1);
            self.copy(1, out);
            assert(s.skip(1).take(1) =~= s.subrange(1, 2));
            assert(s.skip(1).skip(1) =~= s.skip(2));
            true
        } else if c == '!' && self.at(2, '[') {
            self.advance(1);
            self.copy(2, out);
            assert(s.skip(1).take(2) =~= s.subrange(1, 3));
            assert(s.skip(1).skip(2) =~= s.skip(3));
            true
        } else if c == '<' {
            self.advance(2);
            push_text(out, "&lt;");
            true
        } else {
            false
        }
    }

    /// Applies [`br_rule`].
    pub(crate) fn br(&mut self, out: &mut String) -> (hit: bool)
        requires
            old(self).wf(),
        ensures
            rule_outcome(
                *old(self),
                old(out)@,
                *final(self),
                final(out)@,
                hit,
                br_rule(old(self).state(), old(self).rest()),
            ),
    {
        broadcast use group_render;

        if self.remaining() == 2 && self.at(0, ' ') && self.at(1, ' ') {
            self.advance(2);
            out.append("<br />");
            true
        } else {
            false
        }
    }

    /// Applies [`toggle_rule`] for the span `m`.
    pub(crate) fn toggle(&mut self, m: Mark, out: &mut String) -> (hit: bool)
        requires
            old(self).wf(),
        ensures
            rule_outcome(
                *old(self),
                old(out)@,
                *final(self),
                final(out)@,
                hit,
                toggle_rule(old(self).state(), old(self).rest(), m),
            ),
    {
        let (c, width) = marker_of(m);
        if !self.at(0, c) || (width == 2 && !self.at(1, c)) {
            return false;
        }
        self.advance(width);
        if self.marks.is_open(m) {
            push_close(out, Tag::Span(m));
            self.marks.set(m, false);
        } else {
            push_open(out, Tag::Span(m));
            self.marks.set(m, true);
        }
        true
    }

    /// `**`: bold.
    pub(crate) fn strong(&mut self, out: &mut String) -> (hit: bool)
        requires
            old(self).wf(),
        ensures
            rule_outcome(
                *old(self),
                old(out)@,
                *final(self),
                final(out)@,
                hit,
                toggle_rule(old(self).state(), old(self).rest(), Mark::Strong),
            ),
    {
        self.toggle(Mark::Strong, out)
    }

    /// `_`: italic.
    pub(crate) fn em(&mut self, out: &mut String) -> (hit: bool)
        requires
            old(self).wf(),
        ensures
            rule_outcome(
                *old(self),
                old(out)@,
                *final(self),
                final(out)@,
                hit,
                toggle_rule(old(self).state(), old(self).rest(), Mark::Em),
            ),
    {
        self.toggle(Mark::Em, out)
    }

    /// `~~`: strikethrough.
    pub(crate) fn del(&mut self, out: &mut String) -> (hit: bool)
        requires
            old(self).wf(),
        ensures
            rule_outcome(
                *old(self),
                old(out)@,
                *final(self),
                final(out)@,
                hit,
                toggle_rule(old(self).state(), old(self).rest(), Mark::Del),
            ),
    {
        self.toggle(Mark::Del, out)
    }

    /// `++`: insertion.
    pub(crate) fn ins(&mut self, out: &mut String) -> (hit: bool)
        requires
            old(self).wf(),
        ensures
            rule_outcome(
                *old(self),
                old(out)@,
                *final(self),
                final(out)@,
                hit,
                toggle_rule(old(self).state(), old(self).rest(), Mark::Ins),
            ),
    {
        self.toggle(Mark::Ins, out)
    }

    /// `==`: highlight.
    pub(crate) fn mark(&mut self, out: &mut String) -> (hit: bool)
        requires
            old(self).wf(),
        ensures
            rule_outcome(
                *old(self),
                old(out)@,
                *final(self),
                final(out)@,
                hit,
                toggle_rule(old(self).state(), old(self).rest(), Mark::Highlight),
            ),
    {
        self.toggle(Mark::Highlight, out)
    }

    /// A backtick: a code span.
    pub(crate) fn code(&mut self, out: &mut String) -> (hit: bool)
        requires
            old(self).wf(),
        ensures
            rule_outcome(
                *old(self),
                old(out)@,
                *final(self),
                final(out)@,
                hit,
                toggle_rule(old(self).state(), old(self).rest(), Mark::Code),
            ),
    {
        self.toggle(Mark::Code, out)
    }

    /// `^`: superscript.
    pub(crate) fn sup(&mut self, out: &mut String) -> (hit: bool)
        requires
            old(self).wf(),
        ensures
            rule_outcome(
                *old(self),
                old(out)@,
                *final(self),
                final(out)@,
                hit,
                toggle_rule(old(self).state(), old(self).rest(), Mark::Sup),
            ),
    {
        self.toggle(Mark::Sup, out)
    }

    /// Applies [`anchor_rule`].
    pub(crate) fn anchor(&mut self, out: &mut String) -> (hit: bool)
        requires
            old(self).wf(),
        ensures
            rule_outcome(
                *old(self),
                old(out)@,
                *final(self),
                final(out)@,
                hit,
                anchor_rule(old(self).state(), old(self).rest()),
            ),
    {
        broadcast use group_render;

        if !self.at(0, '<') {
            return false;
        }
        self.advance(1);
        let ghost t = self.rest();
        match self.find('>') {
            None => {
                push_text(out, "&lt;");
            },
            Some(i) => {
                out.append("<a id=\"");
                self.copy(i, out);
                out.append("\"></a>");
                self.advance(1);
                assert(t.skip(i as int).skip(1) =~= t.skip(i + 1));
                assert(out@ =~= old(out)@ + Piece::Anchor(t.take(i as int)).html());
            },
        }
        true
    }

    /// Applies [`checkbox_rule`].
    pub(crate) fn checkbox(&mut self, checked: bool, out: &mut String) -> (hit: bool)
        requires
            old(self).wf(),
        ensures
            rule_outcome(
                *old(self),
                old(out)@,
                *final(self),
                final(out)@,
                hit,
                checkbox_rule(old(self).state(), old(self).rest(), checked),
            ),
    {
        broadcast use group_render;

        let inside = if checked {
            'x'
        } else {
            ' '
        };
        if self.at(0, '[') && self.at(1, inside) && self.at(2, ']') {
            self.advance(3);
            if checked {
                out.append("<input type=\"checkbox\" disabled=\"disabled\" checked=\"checked\" />");
            } else {
                out.append("<input type=\"checkbox\" disabled=\"disabled\" />");
            }
            true
        } else {
            false
        }
    }

    /// `[ ]`: a checkbox that is not ticked.
    pub(crate) fn unchecked(&mut self, out: &mut String) -> (hit: bool)
        requires
            old(self).wf(),
        ensures
            rule_outcome(
                *old(self),
                old(out)@,
                *final(self),
                final(out)@,
                hit,
                checkbox_rule(old(self).state(), old(self).rest(), false),
            ),
    {
        self.checkbox(false, out)
    }

    /// `[x]`: a ticked checkbox.
    pub(crate) fn checked(&mut self, out: &mut String) -> (hit: bool)
        requires
            old(self).wf(),
        ensures
            rule_outcome(
                *old(self),
                old(out)@,
                *final(self),
                final(out)@,
                hit,
                checkbox_rule(old(self).state(), old(self).rest(), true),
            ),
    {
        self.checkbox(true, out)
    }

    /// Writes the characters of the document from `from` to `to`.
    pub(crate) fn copy_range(&self, from: usize, to: usize, out: &mut String)
        requires
            from <= to <= self.source.len(),
        ensures
            final(out)@ == old(out)@ + self.source@.subrange(from as int, to as int),
    {
        let ghost s = self.source@;
        let mut k: usize = from;
        assert(old(out)@ + s.subrange(from as int, from as int) =~= old(out)@);
        while k < to
            invariant
                s == self.source@,
                from <= k <= to <= s.len(),
                out@ == old(out)@ + s.subrange(from as int, k as int),
            decreases to - k,
        {
            crate::parser::push_char(out, self.source[k]);
            assert((old(out)@ + s.subrange(from as int, k as int)).push(s[k as int]) =~= old(
                out,
            )@ + s.subrange(from as int, k + 1));
            k = k + 1;
        }
    }

    /// Applies [`text_rule`].
    pub(crate) fn text(&mut self, out: &mut String)
        requires
            old(self).wf(),
            old(self).rest().len() > 0,
        ensures
            rule_outcome(
                *old(self),
                old(out)@,
                *final(self),
                final(out)@,
                true,
                Some(text_rule(old(self).state(), old(self).rest())),
            ),
            final(self).rest().len() < old(self).rest().len(),
    {
        broadcast use group_render;

        let ghost s = self.rest();
        if matches!(self.block, Block::Table { .. }) && self.at(0, ' ') {
            let n = self.scan(CharClass::Space);
            proof {
                lemma_leading(s, CharClass::Space);
            }
            if self.at(n, '|') {
                self.advance(n);
                assert(out@ + Seq::<char>::empty() =~= out@);
                return ;
            }
        }
        let c = self.peek(0);
        push_entity(out, c, Escape::Text);
        self.advance(1);
    }

    /// Writes a label between `open` and a literal `]`, and a `(` after
    /// them if `paren` says so.
    fn push_bracketed(
        out: &mut String,
        open: &str,
        inner: &str,
        paren: bool,
        Ghost(label): Ghost<Seq<Piece>>,
    )
        requires
            inner@ == render(label),
        ensures
            final(out)@ == old(out)@ + render(
                seq![Piece::Text(open@)] + label + if paren {
                    seq![Piece::Text("]"@), Piece::Text("("@)]
                } else {
                    seq![Piece::Text("]"@)]
                },
            ),
    {
        broadcast use group_render;

        let ghost o = out@;
        out.append(open);
        out.append(inner);
        out.append("]");
        if paren {
            out.append("(");
            assert(seq![Piece::Text("]"@), Piece::Text("("@)] =~= seq![Piece::Text("]"@)].push(
                Piece::Text("("@),
            ));
            assert(out@ =~= o + ((open@ + render(label)) + ("]"@ + "("@)));
        } else {
            assert(out@ =~= o + ((open@ + render(label)) + "]"@));
        }
    }

    /// Writes an image around its description. The source is the next
    /// `n` characters, which the cursor moves past.
    fn push_image(&mut self, n: usize, inner: &str, out: &mut String, Ghost(label): Ghost<Seq<Piece>>)
        requires
            old(self).wf(),
            n <= old(self).rest().len(),
            inner@ == render(label),
        ensures
            final(self).wf(),
            final(self).rest() == old(self).rest().skip(n as int),
            *final(self) == (Parser { pos: (old(self).pos + n) as usize, ..*old(self) }),
            final(out)@ == old(out)@ + render(
                seq![Piece::ImageStart] + label + seq![
                    Piece::ImageEnd(old(self).rest().take(n as int)),
                ],
            ),
    {
        broadcast use group_render;

        let ghost o = out@;
        let ghost src = self.rest().take(n as int);
        out.append("<img alt=\"");
        out.append(inner);
        let ghost mid = out@;
        out.append("\" src=\"");
        self.copy(n, out);
        out.append("\" />");
        assert(out@ =~= mid + Piece::ImageEnd(src).html());
        assert(out@ =~= o + (("<img alt=\""@ + render(label)) + Piece::ImageEnd(src).html()));
    }

    /// Writes a link around a label. The target is the next `n`
    /// characters, which the cursor moves past.
    fn push_link(&mut self, n: usize, inner: &str, out: &mut String, Ghost(label): Ghost<Seq<Piece>>)
        requires
            old(self).wf(),
            n <= old(self).rest().len(),
            inner@ == render(label),
        ensures
            final(self).wf(),
            final(self).rest() == old(self).rest().skip(n as int),
            *final(self) == (Parser { pos: (old(self).pos + n) as usize, ..*old(self) }),
            final(out)@ == old(out)@ + render(
                seq![Piece::OpenLink(old(self).rest().take(n as int))] + label + seq![
                    Piece::Close(Tag::Link),
                ],
            ),
    {
        broadcast use group_render;

        let ghost o = out@;
        let ghost href = self.rest().take(n as int);
        out.append("<a href=\"");
        self.copy(n, out);
        out.append("\">");
        assert(out@ =~= o + Piece::OpenLink(href).html());
        out.append(inner);
        out.append("</a>");
        assert(out@ =~= o + ((Piece::OpenLink(href).html() + render(label)) + "</a>"@));
    }

    /// Applies [`link_rule`].
    pub(crate) fn link(&mut self, out: &mut String) -> (hit: bool)
        requires
            old(self).wf(),
        ensures
            rule_outcome(
                *old(self),
                old(out)@,
                *final(self),
                final(out)@,
                hit,
                link_rule(old(self).state(), old(self).rest()),
            ),
        decreases old(self).rest().len(), 0int,
    {
        if !self.at(0, '[') {
            return false;
        }
        let ghost s = self.rest();
        let ghost st = self.state();
        match self.find(']') {
            None => {
                self.advance(1);
                push_text(out, "[");
            },
            Some(i) => {
                proof {
                    lemma_find(s, ']');
                }
                // The label is read as a line of its own: the cursor ends
                // where the label ends until it has been read.
                let line_end = self.end;
                self.advance(1);
                self.end = self.pos + (i - 1);
                assert(self.rest() =~= s.subrange(1, i as int));
                let inner = self.parse_inline();
                let ghost label = inline_text(st, s.subrange(1, i as int));
                self.end = line_end;
                assert(self.rest() =~= s.skip(i as int));
                self.advance(1);
                assert(self.rest() =~= s.skip(i + 1));
                if !self.at(0, '(') {
                    Self::push_bracketed(out, "[", inner.as_str(), false, Ghost(label.pieces));
                } else {
                    self.advance(1);
                    let ghost v = self.rest();
                    match self.find(')') {
                        None => {
                            Self::push_bracketed(out, "[", inner.as_str(), true, Ghost(label.pieces));
                        },
                        Some(j) => {
                            self.push_link(j, inner.as_str(), out, Ghost(label.pieces));
                            self.advance(1);
                            assert(self.rest() =~= v.skip(j + 1));
                        },
                    }
                }
            },
        }
        true
    }

    /// Applies [`img_rule`].
    pub(crate) fn img(&mut self, out: &mut String) -> (hit: bool)
        requires
            old(self).wf(),
        ensures
            rule_outcome(
                *old(self),
                old(out)@,
                *final(self),
                final(out)@,
                hit,
                img_rule(old(self).state(), old(self).rest()),
            ),
        decreases old(self).rest().len(), 0int,
    {
        if !(self.at(0, '!') && self.at(1, '[')) {
            return false;
        }
        let ghost st = self.state();
        self.advance(2);
        let ghost t = self.rest();
        match self.find(']') {
            None => {
                push_text(out, "![");
            },
            Some(i) => {
                // The description is read as a line of its own: the cursor
                // ends where the description ends until it has been read.
                let line_end = self.end;
                self.end = self.pos + i;
                assert(self.rest() =~= t.take(i as int));
                let inner = self.parse_inline();
                let ghost label = inline_text(st, t.take(i as int));
                self.end = line_end;
                assert(self.rest() =~= t.skip(i as int));
                self.advance(1);
                assert(self.rest() =~= t.skip(i + 1));
                if !self.at(0, '(') {
                    Self::push_bracketed(out, "![", inner.as_str(), false, Ghost(label.pieces));
                } else {
                    self.advance(1);
                    let ghost v = self.rest();
                    match self.find(')') {
                        None => {
                            Self::push_bracketed(
                                out,
                                "![",
                                inner.as_str(),
                                true,
                                Ghost(label.pieces),
                            );
                        },
                        Some(j) => {
                            self.push_image(j, inner.as_str(), out, Ghost(label.pieces));
                            self.advance(1);
                            assert(self.rest() =~= v.skip(j + 1));
                        },
                    }
                }
            },
        }
        true
    }

    /// Applies [`markup_rule`].
    pub(crate) fn markup(&mut self, out: &mut String) -> (hit: bool)
        requires
            old(self).wf(),
        ensures
            rule_outcome(
                *old(self),
                old(out)@,
                *final(self),
                final(out)@,
                hit,
                markup_rule(old(self).state(), old(self).rest()),
            ),
        decreases old(self).rest().len(), 1int,
    {
        if self.marks.code {
            return false;
        }
        if self.br(out) {
            return true;
        }
        if self.strong(out) {
            return true;
        }
        if self.em(out) {
            return true;
        }
        if self.del(out) {
            return true;
        }
        if self.ins(out) {
            return true;
        }
        if self.mark(out) {
            return true;
        }
        if self.sup(out) {
            return true;
        }
        if self.anchor(out) {
            return true;
        }
        if self.unchecked(out) {
            return true;
        }
        if self.checked(out) {
            return true;
        }
        if self.link(out) {
            return true;
        }
        if self.img(out) {
            return true;
        }
        self.table(out)
    }

    /// Applies [`inline_step`]: one rule, at the cursor.
    pub(crate) fn step(&mut self, out: &mut String)
        requires
            old(self).wf(),
            old(self).rest().len() > 0,
        ensures
            rule_outcome(
                *old(self),
                old(out)@,
                *final(self),
                final(out)@,
                true,
                Some(inline_step(old(self).state(), old(self).rest())),
            ),
            final(self).rest().len() < old(self).rest().len(),
        decreases old(self).rest().len(), 2int,
    {
        proof {
            lemma_step_consumes(self.state(), self.rest());
        }
        if self.escape(out) {
            return ;
        }
        if self.markup(out) {
            return ;
        }
        if self.code(out) {
            return ;
        }
        self.text(out);
    }

    /// Reads the current line to its end as inline text and returns what
    /// it is turned into.
    pub(crate) fn parse_inline(&mut self) -> (html: String)
        requires
            old(self).wf(),
        ensures
            final(self).wf(),
            final(self).same_line(old(self)),
            final(self).rest().len() == 0,
            final(self).state() == inline_text(old(self).state(), old(self).rest()).state,
            html@ == render(inline_text(old(self).state(), old(self).rest()).pieces),
        decreases old(self).rest().len(), 3int,
    {
        let mut out = String::new();
        let ghost st0 = self.state();
        let ghost s0 = self.rest();
        assert(out@ + render(inline_text(st0, s0).pieces) =~= render(inline_text(st0, s0).pieces));
        while !self.is_empty()
            invariant
                self.wf(),
                self.same_line(old(self)),
                self.rest().len() <= s0.len(),
                s0 == old(self).rest(),
                inline_text(st0, s0).state == inline_text(self.state(), self.rest()).state,
                render(inline_text(st0, s0).pieces) == out@ + render(
                    inline_text(self.state(), self.rest()).pieces,
                ),
            decreases self.rest().len(),
        {
            let ghost st = self.state();
            let ghost s = self.rest();
            let ghost o = out@;
            self.step(&mut out);
            proof {
                let one = inline_step(st, s);
                let more = inline_text(one.state, one.rest);
                assert(self.state() == one.state && self.rest() == one.rest);
                assert(out@ == o + render(one.pieces));
                assert(inline_text(st, s).pieces == one.pieces + more.pieces);
                assert(inline_text(st, s).state == more.state);
                lemma_render_add(one.pieces, more.pieces);
                assert(o + (render(one.pieces) + render(more.pieces)) =~= (o + render(one.pieces))
                    + render(more.pieces));
            }
        }
        proof {
            lemma_render_empty();
            assert(out@ + Seq::<char>::empty() =~= out@);
        }
        out
    }
}

/// Every step uses up some of the text.
pub proof fn lemma_step_consumes(st: State, s: Seq<char>)
    requires
        s.len() > 0,
    ensures
        inline_step(st, s).rest.len() < s.len(),
{
    lemma_leading(s, CharClass::Space);
    lemma_leading(s, CharClass::Except(']'));
    let t1 = s.skip(1);
    lemma_leading(t1, CharClass::Except('>'));
    let t2 = s.skip(2);
    lemma_leading(t2, CharClass::Except(']'));
    match find(t2, ']') {
        Some(i) => {
            let v = t2.skip(i + 1).skip(1);
            lemma_leading(v, CharClass::Except(')'));
        },
        None => {},
    }
    match find(s, ']') {
        Some(i) => {
            let v = s.skip(i + 1).skip(1);
            lemma_leading(v, CharClass::Except(')'));
        },
        None => {},
    }
    crate::table::lemma_after_cell(t1);
}

} // verus!
