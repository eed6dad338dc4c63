//! Table cells: the flags that follow a cell delimiter.

use vstd::prelude::*;
use vstd::string::StringExecFns;
use crate::inline::Step;
use crate::markup::{align_html, cell_html, render, scope_html, valign_html};
use crate::markup::{lemma_render_add, lemma_render_empty, lemma_render_one};
use crate::markup::{Align, Cell, Piece, Role, Tag, Valign};
use crate::parser::{push_close, rule_outcome, Parser};
use crate::state::{Block, State};
use crate::text::{at, leading, lemma_leading, trim, CharClass};

verus! {

/// The role that the first flag gives a cell, and whether a flag was read.
pub open spec fn role_flag(s: Seq<char>) -> (Role, int) {
    if at(s, 0, '=') {
        (Role::ColumnHeader, 1)
    } else if at(s, 0, '-') {
        (Role::RowHeader, 1)
    } else if at(s, 0, '_') {
        (Role::Data, 1)
    } else {
        (Role::Data, 0)
    }
}

/// The alignment that the next flag gives, and whether a flag was read.
pub open spec fn align_flag(s: Seq<char>) -> (Align, int) {
    if at(s, 0, '$') {
        (Align::Right, 1)
    } else if at(s, 0, '^') {
        (Align::Left, 1)
    } else if at(s, 0, '_') {
        (Align::Center, 1)
    } else {
        (Align::Center, 0)
    }
}

/// The vertical alignment that the next flag gives, and whether a flag
/// was read.
pub open spec fn valign_flag(s: Seq<char>) -> (Valign, int) {
    if at(s, 0, 't') {
        (Valign::Top, 1)
    } else if at(s, 0, 'm') {
        (Valign::Middle, 1)
    } else if at(s, 0, 'b') {
        (Valign::Bottom, 1)
    } else if at(s, 0, '_') {
        (Valign::Baseline, 1)
    } else {
        (Valign::Baseline, 0)
    }
}

/// How many characters of `s` a span count takes up: the placeholders at
/// its head and the digits after them.
pub open spec fn span_width(s: Seq<char>) -> int {
    let p = leading(s, CharClass::Placeholder) as int;
    p + leading(s.skip(p), CharClass::Digit)
}

/// The span count written at the head of `s`: the digits that follow any
/// placeholders, taken as they stand, or `1` where there are none.
pub open spec fn span_digits(s: Seq<char>) -> Seq<char> {
    let p = leading(s, CharClass::Placeholder) as int;
    let d = leading(s.skip(p), CharClass::Digit) as int;
    if d == 0 {
        "1"@
    } else {
        s.subrange(p, p + d)
    }
}

/// The digits of a span count that stand in `source` between the two
/// offsets, or `1` where the offsets are equal.
pub open spec fn span_text(source: Seq<char>, digits: (usize, usize)) -> Seq<char> {
    if digits.0 == digits.1 {
        "1"@
    } else {
        source.subrange(digits.0 as int, digits.1 as int)
    }
}

/// The cell that the flags at the head of `s` describe.
pub open spec fn cell_of(s: Seq<char>) -> Cell {
    let (role, a) = role_flag(s);
    let s1 = s.skip(a);
    let (align, b) = align_flag(s1);
    let s2 = s1.skip(b);
    let (valign, c) = valign_flag(s2);
    let s3 = s2.skip(c);
    let s4 = s3.skip(span_width(s3));
    Cell {
        role,
        align,
        valign,
        colspan: span_digits(s3),
        rowspan: if at(s4, 0, ',') {
            span_digits(s4.skip(1))
        } else {
            "1"@
        },
    }
}

/// What is left of `s` after the flags at its head and the spaces that
/// follow them.
pub open spec fn after_cell(s: Seq<char>) -> Seq<char> {
    let s1 = s.skip(role_flag(s).1);
    let s2 = s1.skip(align_flag(s1).1);
    let s3 = s2.skip(valign_flag(s2).1);
    let s4 = s3.skip(span_width(s3));
    let s5 = if at(s4, 0, ',') {
        s4.skip(1).skip(span_width(s4.skip(1)))
    } else {
        s4
    };
    trim(s5)
}

/// `|` inside a table: the open cell, if any, is closed and a new one
/// is opened with the attributes that the flags give.
pub open spec fn cell_rule(st: State, s: Seq<char>) -> Option<Step> {
    match st.block {
        Block::Table { pending } => {
            if at(s, 0, '|') {
                let cell = cell_of(s.skip(1));
                let closing = match pending {
                    Some(kind) => seq![Piece::Close(Tag::Cell(kind))],
                    None => Seq::empty(),
                };
                Some(
                    Step {
                        state: State {
                            block: Block::Table { pending: Some(cell.role.kind()) },
                            ..st
                        },
                        rest: after_cell(s.skip(1)),
                        pieces: closing + seq![Piece::OpenCell(cell)],
                    },
                )
            } else {
                None
            }
        },
        _ => None,
    }
}

/// What follows a cell's flags is no longer than what the flags stand in.
pub proof fn lemma_after_cell(s: Seq<char>)
    ensures
        after_cell(s).len() <= s.len(),
{
    let s1 = s.skip(role_flag(s).1);
    let s2 = s1.skip(align_flag(s1).1);
    let s3 = s2.skip(valign_flag(s2).1);
    lemma_span_width(s3);
    let s4 = s3.skip(span_width(s3));
    let s5 = if at(s4, 0, ',') {
        s4.skip(1).skip(span_width(s4.skip(1)))
    } else {
        s4
    };
    if at(s4, 0, ',') {
        lemma_span_width(s4.skip(1));
    }
    lemma_leading(s5, CharClass::Space);
}

/// A span count lies within the text that it is read from.
pub proof fn lemma_span_width(s: Seq<char>)
    ensures
        0 <= span_width(s) <= s.len(),
{
    lemma_leading(s, CharClass::Placeholder);
    lemma_leading(s.skip(leading(s, CharClass::Placeholder) as int), CharClass::Digit);
}

/// The value of the `scope` attribute, as text.
fn scope_text(role: Role) -> (s: &'static str)
    ensures
        s@ == scope_html(role),
{
    match role {
        Role::Data => "",
        Role::ColumnHeader => "col",
        Role::RowHeader => "row",
    }
}

/// The value of the `align` attribute, as text.
fn align_text(align: Align) -> (s: &'static str)
    ensures
        s@ == align_html(align),
{
    match align {
        Align::Center => "center",
        Align::Left => "left",
        Align::Right => "right",
    }
}

/// The value of the `valign` attribute, as text.
fn valign_text(valign: Valign) -> (s: &'static str)
    ensures
        s@ == valign_html(valign),
{
    match valign {
        Valign::Baseline => "baseline",
        Valign::Top => "top",
        Valign::Middle => "middle",
        Valign::Bottom => "bottom",
    }
}

impl Parser {
    /// Reads the flag that gives a cell its role, if there is one.
    fn read_role(&mut self) -> (role: Role)
        requires
            old(self).wf(),
        ensures
            final(self).wf(),
            final(self).moved(old(self)),
            role == role_flag(old(self).rest()).0,
            final(self).rest() == old(self).rest().skip(role_flag(old(self).rest()).1),
    {
        assert(self.rest().skip(0) =~= self.rest());
        if self.at(0, '=') {
            self.advance(1);
            Role::ColumnHeader
        } else if self.at(0, '-') {
            self.advance(1);
            Role::RowHeader
        } else if self.at(0, '_') {
            self.advance(1);
            Role::Data
        } else {
            Role::Data
        }
    }

    /// Reads the flag that gives a cell its alignment, if there is one.
    fn read_align(&mut self) -> (align: Align)
        requires
            old(self).wf(),
        ensures
            final(self).wf(),
            final(self).moved(old(self)),
            align == align_flag(old(self).rest()).0,
            final(self).rest() == old(self).rest().skip(align_flag(old(self).rest()).1),
    {
        assert(self.rest().skip(0) =~= self.rest());
        if self.at(0, '$') {
            self.advance(1);
            Align::Right
        } else if self.at(0, '^') {
            self.advance(1);
            Align::Left
        } else if self.at(0, '_') {
            self.advance(1);
            Align::Center
        } else {
            Align::Center
        }
    }

    /// Reads the flag that gives a cell its vertical alignment, if there
    /// is one.
    fn read_valign(&mut self) -> (valign: Valign)
        requires
            old(self).wf(),
        ensures
            final(self).wf(),
            final(self).moved(old(self)),
            valign == valign_flag(old(self).rest()).0,
            final(self).rest() == old(self).rest().skip(valign_flag(old(self).rest()).1),
    {
        assert(self.rest().skip(0) =~= self.rest());
        if self.at(0, 't') {
            self.advance(1);
            Valign::Top
        } else if self.at(0, 'm') {
            self.advance(1);
            Valign::Middle
        } else if self.at(0, 'b') {
            self.advance(1);
            Valign::Bottom
        } else if self.at(0, '_') {
            self.advance(1);
            Valign::Baseline
        } else {
            Valign::Baseline
        }
    }

    /// Reads a span count and returns where in the document its digits
    /// stand; the two offsets are equal where there are none.
    fn read_span(&mut self) -> (digits: (usize, usize))
        requires
            old(self).wf(),
        ensures
            final(self).wf(),
            final(self).moved(old(self)),
            final(self).rest() == old(self).rest().skip(span_width(old(self).rest())),
            digits.0 <= digits.1 <= old(self).source.len(),
            span_digits(old(self).rest()) == span_text(old(self).source@, digits),
    {
        let ghost s = self.rest();
        let p = self.scan(CharClass::Placeholder);
        self.advance(p);
        let from = self.pos;
        let d = self.scan(CharClass::Digit);
        self.advance(d);
        assert(s.skip(p as int).skip(d as int) =~= s.skip(p + d));
        assert(s.subrange(p as int, p + d) =~= self.source@.subrange(from as int, from + d));
        (from, from + d)
    }

    /// Writes a span count that [`Parser::read_span`] found.
    fn push_span(&self, digits: (usize, usize), out: &mut String)
        requires
            digits.0 <= digits.1 <= self.source.len(),
        ensures
            final(out)@ == old(out)@ + span_text(self.source@, digits),
    {
        if digits.0 == digits.1 {
            out.append("1");
        } else {
            self.copy_range(digits.0, digits.1, out);
        }
    }

    /// Writes the start tag of a cell.
    fn push_cell(
        &self,
        role: Role,
        align: Align,
        valign: Valign,
        colspan: (usize, usize),
        rowspan: (usize, usize),
        out: &mut String,
    )
        requires
            colspan.0 <= colspan.1 <= self.source.len(),
            rowspan.0 <= rowspan.1 <= self.source.len(),
        ensures
            final(out)@ == old(out)@ + cell_html(
                Cell {
                    role,
                    align,
                    valign,
                    colspan: span_text(self.source@, colspan),
                    rowspan: span_text(self.source@, rowspan),
                },
            ),
    {
        let ghost o = out@;
        let ghost head = match role {
            Role::Data => "<td align=\""@,
            _ => "<th scope=\""@ + scope_html(role) + "\" align=\""@,
        };
        match role {
            Role::Data => {
                out.append("<td align=\"");
            },
            _ => {
                out.append("<th scope=\"");
                out.append(scope_text(role));
                out.append("\" align=\"");
                assert(out@ =~= o + head);
            },
        }
        assert(out@ == o + head);
        out.append(align_text(align));
        out.append("\" valign=\"");
        let ghost h2 = head + align_html(align) + "\" valign=\""@;
        assert(out@ =~= o + h2);
        out.append(valign_text(valign));
        out.append("\" colspan=\"");
        let ghost h3 = h2 + valign_html(valign) + "\" colspan=\""@;
        assert(out@ =~= o + h3);
        self.push_span(colspan, out);
        out.append("\" rowspan=\"");
        let ghost h4 = h3 + span_text(self.source@, colspan) + "\" rowspan=\""@;
        assert(out@ =~= o + h4);
        self.push_span(rowspan, out);
        out.append("\">");
        let ghost h5 = h4 + span_text(self.source@, rowspan) + "\">"@;
        assert(out@ =~= o + h5);
    }

    /// Reads the flags of a cell and the spaces after them. Returns the
    /// role, the two alignments, and where the digits of the two span
    /// counts stand.
    fn read_cell(&mut self) -> (flags: (Role, Align, Valign, (usize, usize), (usize, usize)))
        requires
            old(self).wf(),
        ensures
            final(self).wf(),
            final(self).moved(old(self)),
            final(self).rest() == after_cell(old(self).rest()),
            flags.3.0 <= flags.3.1 <= old(self).source.len(),
            flags.4.0 <= flags.4.1 <= old(self).source.len(),
            cell_of(old(self).rest()) == (Cell {
                role: flags.0,
                align: flags.1,
                valign: flags.2,
                colspan: span_text(old(self).source@, flags.3),
                rowspan: span_text(old(self).source@, flags.4),
            }),
    {
        let role = self.read_role();
        let align = self.read_align();
        let valign = self.read_valign();
        let colspan = self.read_span();
        let rowspan = if self.at(0, ',') {
            self.advance(1);
            self.read_span()
        } else {
            (0, 0)
        };
        self.trim_start();
        (role, align, valign, colspan, rowspan)
    }

    /// Applies [`cell_rule`].
    pub(crate) fn table(&mut self, out: &mut String) -> (hit: bool)
        requires
            old(self).wf(),
        ensures
            rule_outcome(
                *old(self),
                old(out)@,
                *final(self),
                final(out)@,
                hit,
                cell_rule(old(self).state(), old(self).rest()),
            ),
    {
        let pending = match self.block {
            Block::Table { pending } => pending,
            _ => {
                return false;
            },
        };
        if !self.at(0, '|') {
            return false;
        }
        self.advance(1);
        let ghost s = self.rest();
        let (role, align, valign, colspan, rowspan) = self.read_cell();
        let ghost cell = cell_of(s);
        let ghost closing = match pending {
            Some(kind) => seq![Piece::Close(Tag::Cell(kind))],
            None => Seq::empty(),
        };
        match pending {
            Some(kind) => {
                push_close(out, Tag::Cell(kind));
            },
            None => {
                assert(out@ + render(closing) =~= out@) by {
                    lemma_render_empty();
                }
            },
        }
        assert(out@ == old(out)@ + render(closing));
        self.push_cell(role, align, valign, colspan, rowspan, out);
        self.block = Block::Table { pending: Some(role.cell_kind()) };
        assert(out@ == old(out)@ + render(closing + seq![Piece::OpenCell(cell)])) by {
            lemma_render_add(closing, seq![Piece::OpenCell(cell)]);
            lemma_render_one(Piece::OpenCell(cell));
            assert((old(out)@ + render(closing)) + cell_html(cell) =~= old(out)@ + (render(closing)
                + cell_html(cell)));
        }
        true
    }
}

} // verus!
