//! The block grammar: what each line of a document is turned into, given
//! what the lines before it left open.

use vstd::prelude::*;
use vstd::string::StringExecFns;
use crate::inline::{br_rule, inline_text, Run};
use crate::list::{item_depth, marker_len, reconcile, reconciled, unwind};
use crate::markup::{lemma_render_one, render, CellKind, ListKind, Mark, Piece, Tag};
use crate::parser::{lemma_wrote, lemma_wrote_nothing, line_outcome, push_char, push_close};
use crate::parser::{push_entity, push_open, push_text, Parser};
use crate::state::{Block, Marks, State};
use crate::text::{after_first_line, at, entity, escaped, first_line, lemma_leading, lines};
use crate::text::{starts2, starts_repeated, trim, CharClass, Escape};

verus! {

/// The end tag of the span `m`, if it is open.
pub open spec fn close_mark(marks: Marks, m: Mark) -> Seq<Piece> {
    if marks.get(m) {
        seq![Piece::Close(Tag::Span(m))]
    } else {
        Seq::empty()
    }
}

/// The end tags of all open spans, in a fixed order.
pub open spec fn close_marks(marks: Marks) -> Seq<Piece> {
    close_mark(marks, Mark::Strong) + close_mark(marks, Mark::Em) + close_mark(marks, Mark::Del)
        + close_mark(marks, Mark::Ins) + close_mark(marks, Mark::Highlight) + close_mark(
        marks,
        Mark::Code,
    ) + close_mark(marks, Mark::Sup)
}

/// The end of the open item and of every open list, then a line feed;
/// nothing where no list is open.
pub open spec fn close_lists(lists: Seq<ListKind>) -> Seq<Piece> {
    if lists.len() == 0 {
        Seq::empty()
    } else {
        seq![Piece::Close(Tag::Item)] + unwind(lists, 0) + seq![Piece::Text("\n"@)]
    }
}

/// The end tag of the open table cell, if there is one.
pub open spec fn close_cell(pending: Option<CellKind>) -> Seq<Piece> {
    match pending {
        Some(kind) => seq![Piece::Close(Tag::Cell(kind))],
        None => Seq::empty(),
    }
}

/// The end tags of the open block. A code fence is not closed this way:
/// only its own closing line, or the end of the document, ends it.
pub open spec fn close_block(block: Block) -> Seq<Piece> {
    match block {
        Block::Idle => Seq::empty(),
        Block::Paragraph => seq![Piece::Close(Tag::Paragraph)],
        Block::PreCode => seq![Piece::Close(Tag::Pre)],
        Block::Blockquote => seq![Piece::Close(Tag::Blockquote)],
        Block::Table { pending } => close_cell(pending) + seq![
            Piece::Close(Tag::Row),
            Piece::Close(Tag::Table),
        ],
        Block::Fence { first } => Seq::empty(),
    }
}

/// Everything that is open but a code fence, closed: spans, lists, block.
pub open spec fn close_all(st: State) -> Seq<Piece> {
    close_marks(st.marks) + close_lists(st.lists) + close_block(st.block)
}

/// The state that [`close_all`] leaves.
pub open spec fn settled(st: State) -> State {
    State {
        block: if st.block is Fence {
            st.block
        } else {
            Block::Idle
        },
        lists: Seq::empty(),
        marks: Marks::none(),
    }
}

/// An empty line closes everything but a code fence and is written as an
/// empty line.
pub open spec fn blank_line(st: State) -> Run {
    Run { state: settled(st), pieces: close_all(st) + seq![Piece::Text("\n"@)] }
}

/// The level of a heading: the number of `#` at the head of the line,
/// six at most.
pub open spec fn heading_level(line: Seq<char>) -> u8 {
    if !at(line, 1, '#') {
        1
    } else if !at(line, 2, '#') {
        2
    } else if !at(line, 3, '#') {
        3
    } else if !at(line, 4, '#') {
        4
    } else if !at(line, 5, '#') {
        5
    } else {
        6
    }
}

/// A heading: the text after the marks and any spaces, between the tags
/// of its level.
pub open spec fn heading_line(st: State, line: Seq<char>) -> Run {
    let level = heading_level(line);
    let body = inline_text(State { marks: Marks::none(), ..st }, trim(line.skip(level as int)));
    Run {
        state: body.state,
        pieces: close_marks(st.marks) + seq![Piece::Open(Tag::Heading(level))] + body.pieces
            + seq![Piece::Close(Tag::Heading(level))],
    }
}

/// Whether the line is `- - -` and nothing else.
pub open spec fn is_rule(line: Seq<char>) -> bool {
    line.len() == 5 && line[0] == '-' && line[1] == ' ' && line[2] == '-' && line[3] == ' '
        && line[4] == '-'
}

/// A horizontal rule.
pub open spec fn rule_line(st: State) -> Run {
    Run {
        state: State { marks: Marks::none(), ..st },
        pieces: close_marks(st.marks) + seq![Piece::Rule],
    }
}

/// A list item: the item before it is closed, the nesting is brought to
/// the depth of the marker, and the text after the marker is the item.
pub open spec fn item_line(st: State, line: Seq<char>, kind: ListKind) -> Run {
    let depth = item_depth(line);
    let body = inline_text(
        State { block: st.block, lists: reconciled(st.lists, depth, kind), marks: Marks::none() },
        trim(trim(line).skip(marker_len(kind))),
    );
    let previous = if st.lists.len() > 0 {
        seq![Piece::Close(Tag::Item)]
    } else {
        Seq::empty()
    };
    Run {
        state: body.state,
        pieces: close_marks(st.marks) + previous + reconcile(st.lists, depth, kind) + seq![
            Piece::Open(Tag::Item),
        ] + body.pieces,
    }
}

/// A line of indented code: what follows the four spaces, character by
/// character, with nothing read as markup.
pub open spec fn pre_line(st: State, line: Seq<char>) -> Run {
    let entry = if st.block is PreCode {
        Piece::Text("\n"@)
    } else {
        Piece::Open(Tag::Pre)
    };
    Run {
        state: State { block: Block::PreCode, lists: st.lists, marks: Marks::none() },
        pieces: close_marks(st.marks) + seq![entry, Piece::Text(escaped(line.skip(4), Escape::Code))],
    }
}

/// The content of a line inside a code fence: its characters up to the
/// first three backticks in a row, a backslash before a backtick left out.
pub open spec fn fence_text(s: Seq<char>) -> Seq<char>
    decreases s.len(),
{
    if s.len() == 0 || starts_repeated(s, '`', 3) {
        Seq::empty()
    } else if starts2(s, '\\', '`') {
        entity('`', Escape::Code) + fence_text(s.skip(2))
    } else {
        entity(s[0], Escape::Code) + fence_text(s.skip(1))
    }
}

/// A line that opens a code fence, closes it, or stands inside it.
pub open spec fn fence_line(st: State, line: Seq<char>) -> Run {
    match st.block {
        Block::Fence { first } => {
            if starts_repeated(line, '`', 3) {
                Run {
                    state: State { block: Block::Idle, lists: st.lists, marks: Marks::none() },
                    pieces: close_marks(st.marks) + seq![Piece::Close(Tag::Pre)],
                }
            } else {
                let between = if first {
                    Seq::empty()
                } else {
                    seq![Piece::Text("\n"@)]
                };
                Run {
                    state: State {
                        block: Block::Fence { first: false },
                        lists: st.lists,
                        marks: Marks::none(),
                    },
                    pieces: close_marks(st.marks) + between + seq![Piece::Text(fence_text(line))],
                }
            }
        },
        _ => {
            let lang = line.skip(3);
            Run {
                state: State {
                    block: Block::Fence { first: true },
                    lists: st.lists,
                    marks: Marks::none(),
                },
                pieces: close_marks(st.marks) + seq![
                    if lang.len() > 0 {
                        Piece::OpenFence(escaped(lang, Escape::Lang))
                    } else {
                        Piece::Open(Tag::Pre)
                    },
                ],
            }
        },
    }
}

/// A line of a blockquote. Spans stay open from one line of the quote to
/// the next.
pub open spec fn quote_line(st: State, line: Seq<char>) -> Run {
    let entered = State {
        block: Block::Blockquote,
        lists: st.lists,
        marks: if st.block is Blockquote {
            st.marks
        } else {
            Marks::none()
        },
    };
    let entry = if st.block is Blockquote {
        seq![Piece::Text("\n"@)]
    } else {
        close_marks(st.marks) + seq![Piece::Open(Tag::Blockquote)]
    };
    match br_rule(entered, line.skip(1)) {
        Some(step) => Run { state: entered, pieces: entry + step.pieces },
        None => {
            let body = inline_text(entered, trim(line.skip(1)));
            Run { state: body.state, pieces: entry + body.pieces }
        },
    }
}

/// A row of a table. The cells are found by the inline grammar.
pub open spec fn row_line(st: State, line: Seq<char>) -> Run {
    let entry = match st.block {
        Block::Table { pending } => close_cell(pending) + seq![
            Piece::Close(Tag::Row),
            Piece::Open(Tag::Row),
        ],
        _ => seq![Piece::Open(Tag::Table), Piece::Open(Tag::Row)],
    };
    let body = inline_text(
        State { block: Block::Table { pending: None }, lists: st.lists, marks: Marks::none() },
        line,
    );
    Run { state: body.state, pieces: close_marks(st.marks) + entry + body.pieces }
}

/// A line that goes on with the open list item.
pub open spec fn continuation_line(st: State, line: Seq<char>) -> Run {
    let body = inline_text(st, trim(line));
    Run { state: body.state, pieces: seq![Piece::Text("\n"@)] + body.pieces }
}

/// The characters that a backslash at the head of a paragraph line keeps
/// from starting a block.
pub open spec fn block_escapable(c: char) -> bool {
    c == '#' || c == '-' || c == '>' || c == '0' || c == '|' || c == ' ' || c == '`'
}

/// A line of a paragraph. Spans stay open from one line of the paragraph
/// to the next.
pub open spec fn paragraph_line(st: State, line: Seq<char>) -> Run {
    let entered = State {
        block: Block::Paragraph,
        lists: st.lists,
        marks: if st.block is Paragraph {
            st.marks
        } else {
            Marks::none()
        },
    };
    let entry = if st.block is Paragraph {
        seq![Piece::Text("\n"@)]
    } else {
        close_marks(st.marks) + close_block(st.block) + seq![Piece::Open(Tag::Paragraph)]
    };
    if line.len() >= 2 && line[0] == '\\' && block_escapable(line[1]) {
        let body = inline_text(entered, line.skip(1));
        Run { state: body.state, pieces: entry + body.pieces }
    } else if starts2(line, '\\', '\\') {
        let body = inline_text(entered, line.skip(2));
        Run { state: body.state, pieces: entry + seq![Piece::Text(line.subrange(1, 2))] + body.pieces }
    } else {
        let body = inline_text(entered, line);
        Run { state: body.state, pieces: entry + body.pieces }
    }
}

/// What one line is turned into. The first description that fits, in
/// this order, decides.
pub open spec fn line_step(st: State, line: Seq<char>) -> Run {
    if line.len() == 0 {
        blank_line(st)
    } else if st.idle() && at(line, 0, '#') {
        heading_line(st, line)
    } else if st.idle() && is_rule(line) {
        rule_line(st)
    } else if st.block is Idle && at(trim(line), 0, '-') {
        item_line(st, line, ListKind::Unordered)
    } else if st.block is Idle && starts2(trim(line), '0', '.') {
        item_line(st, line, ListKind::Ordered)
    } else if (st.idle() || st.block is PreCode) && starts_repeated(line, ' ', 4) {
        pre_line(st, line)
    } else if (st.idle() && starts_repeated(line, '`', 3)) || st.block is Fence {
        fence_line(st, line)
    } else if (st.idle() || st.block is Blockquote) && at(line, 0, '>') {
        quote_line(st, line)
    } else if (st.idle() && at(line, 0, '|')) || (st.block is Table && at(trim(line), 0, '|')) {
        row_line(st, line)
    } else if st.lists.len() > 0 {
        continuation_line(st, line)
    } else {
        paragraph_line(st, line)
    }
}

/// What the end of the document adds: everything that is still open is
/// closed, an open code fence last.
pub open spec fn finish(st: State) -> Seq<Piece> {
    close_all(st) + if st.block is Fence {
        seq![Piece::Close(Tag::Pre)]
    } else {
        Seq::empty()
    }
}

/// What a sequence of lines is turned into, from a given state on.
pub open spec fn run_lines(st: State, ls: Seq<Seq<char>>) -> Seq<Piece>
    decreases ls.len(),
{
    if ls.len() == 0 {
        finish(st)
    } else {
        let step = line_step(st, ls[0]);
        step.pieces + run_lines(step.state, ls.skip(1))
    }
}

/// The pieces that a document is turned into.
pub open spec fn document(text: Seq<char>) -> Seq<Piece> {
    run_lines(State::initial(), lines(text))
}

/// Executable form of [`block_escapable`].
fn is_block_escapable(c: char) -> (b: bool)
    ensures
        b == block_escapable(c),
{
    c == '#' || c == '-' || c == '>' || c == '0' || c == '|' || c == ' ' || c == '`'
}

impl Parser {
    /// Whether a block or a list is open.
    pub(crate) fn in_an_element(&self) -> (b: bool)
        ensures
            b == !self.state().idle(),
    {
        !matches!(self.block, Block::Idle) || self.in_list()
    }

    /// Whether `c` stands first on the line once its spaces are left out.
    pub(crate) fn starts_with_trimmed_char(&self, c: char) -> (b: bool)
        requires
            self.wf(),
        ensures
            b == at(trim(self.rest()), 0, c),
    {
        let n = self.scan(CharClass::Space);
        self.at(n, c)
    }

    /// Whether `a`, `b` stand first on the line once its spaces are left
    /// out.
    pub(crate) fn starts_with_trimmed(&self, a: char, b: char) -> (r: bool)
        requires
            self.wf(),
        ensures
            r == starts2(trim(self.rest()), a, b),
    {
        let n = self.scan(CharClass::Space);
        n < self.remaining() && self.at(n, a) && self.at(n + 1, b)
    }

    /// Whether the next `n` characters are all `c`.
    pub(crate) fn starts_run(&self, c: char, n: usize) -> (b: bool)
        requires
            self.wf(),
        ensures
            b == starts_repeated(self.rest(), c, n as int),
    {
        if n > self.remaining() {
            return false;
        }
        let mut k: usize = 0;
        while k < n
            invariant
                self.wf(),
                k <= n <= self.rest().len(),
                forall|i: int| 0 <= i < k ==> self.rest()[i] == c,
            decreases n - k,
        {
            if self.peek(k) != c {
                return false;
            }
            k = k + 1;
        }
        true
    }

    /// Whether the line is a horizontal rule.
    pub(crate) fn is_rule(&self) -> (b: bool)
        requires
            self.wf(),
        ensures
            b == is_rule(self.rest()),
    {
        self.remaining() == 5 && self.at(0, '-') && self.at(1, ' ') && self.at(2, '-') && self.at(
            3,
            ' ',
        ) && self.at(4, '-')
    }

    /// Closes the span `m` if it is open.
    fn revert_mark(&mut self, m: Mark)
        ensures
            *final(self) == (Parser {
                marks: old(self).marks.with(m, false),
                output: final(self).output,
                ..*old(self)
            }),
            final(self).wrote(old(self).output@, close_mark(old(self).marks, m)),
    {
        if self.marks.is_open(m) {
            push_close(&mut self.output, Tag::Span(m));
            self.marks.set(m, false);
        } else {
            proof {
                lemma_wrote_nothing(self.output@);
            }
        }
    }

    /// Closes every open span.
    pub(crate) fn revert_marks(&mut self)
        ensures
            *final(self) == (Parser {
                marks: Marks::none(),
                output: final(self).output,
                ..*old(self)
            }),
            final(self).wrote(old(self).output@, close_marks(old(self).marks)),
    {
        let ghost o = self.output@;
        let ghost m = self.marks;
        self.revert_mark(Mark::Strong);
        let ghost mut acc = close_mark(m, Mark::Strong);
        self.revert_mark(Mark::Em);
        proof {
            lemma_wrote(o, acc, close_mark(m, Mark::Em));
            acc = acc + close_mark(m, Mark::Em);
        }
        self.revert_mark(Mark::Del);
        proof {
            lemma_wrote(o, acc, close_mark(m, Mark::Del));
            acc = acc + close_mark(m, Mark::Del);
        }
        self.revert_mark(Mark::Ins);
        proof {
            lemma_wrote(o, acc, close_mark(m, Mark::Ins));
            acc = acc + close_mark(m, Mark::Ins);
        }
        self.revert_mark(Mark::Highlight);
        proof {
            lemma_wrote(o, acc, close_mark(m, Mark::Highlight));
            acc = acc + close_mark(m, Mark::Highlight);
        }
        self.revert_mark(Mark::Code);
        proof {
            lemma_wrote(o, acc, close_mark(m, Mark::Code));
            acc = acc + close_mark(m, Mark::Code);
        }
        self.revert_mark(Mark::Sup);
        proof {
            lemma_wrote(o, acc, close_mark(m, Mark::Sup));
            acc = acc + close_mark(m, Mark::Sup);
        }
    }

    /// Closes the open item and every open list.
    pub(crate) fn revert_lists(&mut self)
        ensures
            *final(self) == (Parser {
                lists: final(self).lists,
                output: final(self).output,
                ..*old(self)
            }),
            final(self).lists@ == Seq::<ListKind>::empty(),
            final(self).wrote(old(self).output@, close_lists(old(self).lists@)),
    {
        let ghost o = self.output@;
        let ghost lists = self.lists@;
        if self.in_list() {
            push_close(&mut self.output, Tag::Item);
            self.close_levels(0);
            proof {
                lemma_wrote(o, seq![Piece::Close(Tag::Item)], unwind(lists, 0));
            }
            push_text(&mut self.output, "\n");
            proof {
                lemma_wrote(
                    o,
                    seq![Piece::Close(Tag::Item)] + unwind(lists, 0),
                    seq![Piece::Text("\n"@)],
                );
                assert(self.lists@ =~= Seq::<ListKind>::empty());
            }
        } else {
            proof {
                lemma_wrote_nothing(o);
                assert(self.lists@ =~= Seq::<ListKind>::empty());
            }
        }
    }

    /// Closes the open table cell, if there is one.
    fn revert_cell(&mut self, pending: Option<CellKind>)
        ensures
            *final(self) == (Parser { output: final(self).output, ..*old(self) }),
            final(self).wrote(old(self).output@, close_cell(pending)),
    {
        match pending {
            Some(kind) => {
                push_close(&mut self.output, Tag::Cell(kind));
            },
            None => {
                proof {
                    lemma_wrote_nothing(self.output@);
                }
            },
        }
    }

    /// Closes the open block, unless it is a code fence.
    pub(crate) fn revert_block(&mut self)
        ensures
            *final(self) == (Parser {
                block: settled(old(self).state()).block,
                output: final(self).output,
                ..*old(self)
            }),
            final(self).wrote(old(self).output@, close_block(old(self).block)),
    {
        let ghost o = self.output@;
        match self.block {
            Block::Idle => {
                proof {
                    lemma_wrote_nothing(o);
                }
            },
            Block::Paragraph => {
                push_close(&mut self.output, Tag::Paragraph);
                self.block = Block::Idle;
            },
            Block::PreCode => {
                push_close(&mut self.output, Tag::Pre);
                self.block = Block::Idle;
            },
            Block::Blockquote => {
                push_close(&mut self.output, Tag::Blockquote);
                self.block = Block::Idle;
            },
            Block::Table { pending } => {
                self.revert_cell(pending);
                push_close(&mut self.output, Tag::Row);
                proof {
                    lemma_wrote(o, close_cell(pending), seq![Piece::Close(Tag::Row)]);
                }
                push_close(&mut self.output, Tag::Table);
                proof {
                    lemma_wrote(
                        o,
                        close_cell(pending) + seq![Piece::Close(Tag::Row)],
                        seq![Piece::Close(Tag::Table)],
                    );
                    assert(close_cell(pending) + seq![Piece::Close(Tag::Row)] + seq![
                        Piece::Close(Tag::Table),
                    ] =~= close_cell(pending) + seq![
                        Piece::Close(Tag::Row),
                        Piece::Close(Tag::Table),
                    ]);
                }
                self.block = Block::Idle;
            },
            Block::Fence { first } => {
                proof {
                    lemma_wrote_nothing(o);
                }
            },
        }
    }

    /// Closes everything that is open but a code fence.
    pub(crate) fn revert_all(&mut self)
        ensures
            *final(self) == (Parser {
                block: final(self).block,
                lists: final(self).lists,
                marks: final(self).marks,
                output: final(self).output,
                ..*old(self)
            }),
            final(self).state() == settled(old(self).state()),
            final(self).wrote(old(self).output@, close_all(old(self).state())),
    {
        let ghost o = self.output@;
        let ghost st = self.state();
        self.revert_marks();
        self.revert_lists();
        proof {
            lemma_wrote(o, close_marks(st.marks), close_lists(st.lists));
        }
        self.revert_block();
        proof {
            lemma_wrote(o, close_marks(st.marks) + close_lists(st.lists), close_block(st.block));
        }
    }

    /// Appends what an inline run produced to the output.
    fn write(&mut self, html: &str)
        ensures
            *final(self) == (Parser { output: final(self).output, ..*old(self) }),
            final(self).output@ == old(self).output@ + html@,
    {
        self.output.append(html);
    }

    /// Handles an empty line.
    fn blank(&mut self)
        requires
            old(self).wf(),
        ensures
            line_outcome(*old(self), *final(self), blank_line(old(self).state())),
    {
        let ghost o = self.output@;
        let ghost st = self.state();
        self.revert_all();
        push_text(&mut self.output, "\n");
        proof {
            lemma_wrote(o, close_all(st), seq![Piece::Text("\n"@)]);
        }
    }

    /// Handles a heading.
    fn heading(&mut self)
        requires
            old(self).wf(),
            at(old(self).rest(), 0, '#'),
        ensures
            line_outcome(*old(self), *final(self), heading_line(old(self).state(), old(self).rest())),
    {
        let ghost o = self.output@;
        let ghost st = self.state();
        let ghost line = self.rest();
        self.revert_marks();
        let ghost mut acc = close_marks(st.marks);
        let level: u8 = if !self.at(1, '#') {
            1
        } else if !self.at(2, '#') {
            2
        } else if !self.at(3, '#') {
            3
        } else if !self.at(4, '#') {
            4
        } else if !self.at(5, '#') {
            5
        } else {
            6
        };
        self.advance(level as usize);
        push_open(&mut self.output, Tag::Heading(level));
        proof {
            lemma_wrote(o, acc, seq![Piece::Open(Tag::Heading(level))]);
            acc = acc + seq![Piece::Open(Tag::Heading(level))];
        }
        self.trim_start();
        let ghost body = inline_text(self.state(), self.rest());
        let html = self.parse_inline();
        self.write(html.as_str());
        proof {
            lemma_wrote(o, acc, body.pieces);
            acc = acc + body.pieces;
        }
        push_close(&mut self.output, Tag::Heading(level));
        proof {
            lemma_wrote(o, acc, seq![Piece::Close(Tag::Heading(level))]);
        }
    }

    /// Handles a horizontal rule.
    fn rule(&mut self)
        requires
            old(self).wf(),
        ensures
            line_outcome(*old(self), *final(self), rule_line(old(self).state())),
    {
        let ghost o = self.output@;
        let ghost st = self.state();
        self.revert_marks();
        self.output.append("<hr />\n");
        proof {
            lemma_render_one(Piece::Rule);
            lemma_wrote(o, close_marks(st.marks), seq![Piece::Rule]);
        }
    }

    /// Handles a list item of the given kind.
    fn list_item(&mut self, kind: ListKind)
        requires
            old(self).wf(),
            marker_len(kind) <= trim(old(self).rest()).len(),
        ensures
            line_outcome(
                *old(self),
                *final(self),
                item_line(old(self).state(), old(self).rest(), kind),
            ),
    {
        let ghost o = self.output@;
        let ghost st = self.state();
        let ghost line = self.rest();
        self.revert_marks();
        let ghost mut acc = close_marks(st.marks);
        if self.in_list() {
            push_close(&mut self.output, Tag::Item);
            proof {
                lemma_wrote(o, acc, seq![Piece::Close(Tag::Item)]);
                acc = acc + seq![Piece::Close(Tag::Item)];
            }
        } else {
            proof {
                assert(acc + Seq::<Piece>::empty() =~= acc);
                acc = acc + Seq::<Piece>::empty();
            }
        }
        self.handle_list_level_discrepancy(kind);
        proof {
            let tags = reconcile(st.lists, item_depth(line), kind);
            lemma_wrote(o, acc, tags);
            acc = acc + tags;
        }
        push_open(&mut self.output, Tag::Item);
        proof {
            lemma_wrote(o, acc, seq![Piece::Open(Tag::Item)]);
            acc = acc + seq![Piece::Open(Tag::Item)];
        }
        self.trim_start();
        let ghost body = inline_text(self.state(), self.rest());
        let html = self.parse_inline();
        self.write(html.as_str());
        proof {
            lemma_wrote(o, acc, body.pieces);
        }
    }

    /// Handles a line of indented code.
    fn pre_code(&mut self)
        requires
            old(self).wf(),
            starts_repeated(old(self).rest(), ' ', 4),
        ensures
            line_outcome(*old(self), *final(self), pre_line(old(self).state(), old(self).rest())),
    {
        let ghost o = self.output@;
        let ghost st = self.state();
        let ghost line = self.rest();
        self.revert_marks();
        let ghost acc = close_marks(st.marks);
        self.advance(4);
        let ghost entry = if st.block is PreCode {
            Piece::Text("\n"@)
        } else {
            Piece::Open(Tag::Pre)
        };
        if matches!(self.block, Block::PreCode) {
            push_text(&mut self.output, "\n");
        } else {
            push_open(&mut self.output, Tag::Pre);
            self.block = Block::PreCode;
        }
        proof {
            lemma_wrote(o, acc, seq![entry]);
        }
        let n = self.remaining();
        let mut code = String::new();
        self.copy_escaped(n, Escape::Code, &mut code);
        proof {
            assert(line.skip(4).take(n as int) =~= line.skip(4));
            assert(code@ =~= escaped(line.skip(4), Escape::Code));
        }
        push_text(&mut self.output, code.as_str());
        proof {
            let text = Piece::Text(escaped(line.skip(4), Escape::Code));
            lemma_wrote(o, acc + seq![entry], seq![text]);
            assert(acc + seq![entry] + seq![text] =~= acc + seq![entry, text]);
        }
    }

    /// Writes the content of a line inside a code fence.
    fn fence_content(&mut self)
        requires
            old(self).wf(),
        ensures
            final(self).wf(),
            *final(self) == (Parser {
                pos: final(self).pos,
                output: final(self).output,
                ..*old(self)
            }),
            final(self).wrote(old(self).output@, seq![Piece::Text(fence_text(old(self).rest()))]),
    {
        let ghost o = self.output@;
        let ghost goal = fence_text(self.rest());
        assert(o + goal =~= o + goal);
        while !self.is_empty() && !self.starts_run('`', 3)
            invariant
                self.wf(),
                *self == (Parser { pos: self.pos, output: self.output, ..*old(self) }),
                self.output@ + fence_text(self.rest()) == o + goal,
            decreases self.rest().len(),
        {
            let ghost s = self.rest();
            let ghost written = self.output@;
            if self.at(0, '\\') && self.at(1, '`') {
                self.advance(1);
                assert(self.rest().skip(1) =~= s.skip(2));
            }
            let c = self.peek(0);
            push_entity(&mut self.output, c, Escape::Code);
            self.advance(1);
            assert((written + entity(c, Escape::Code)) + fence_text(self.rest()) =~= written + (
            entity(c, Escape::Code) + fence_text(self.rest())));
        }
        proof {
            assert(self.output@ + Seq::<char>::empty() =~= self.output@);
            lemma_render_one(Piece::Text(goal));
        }
    }

    /// Handles a line that opens a code fence, closes it, or stands
    /// inside it.
    fn code_fence(&mut self)
        requires
            old(self).wf(),
            old(self).block is Fence || old(self).rest().len() >= 3,
        ensures
            line_outcome(*old(self), *final(self), fence_line(old(self).state(), old(self).rest())),
    {
        let ghost o = self.output@;
        let ghost st = self.state();
        let ghost line = self.rest();
        self.revert_marks();
        let ghost acc = close_marks(st.marks);
        match self.block {
            Block::Fence { first } => {
                if self.starts_run('`', 3) {
                    push_close(&mut self.output, Tag::Pre);
                    self.block = Block::Idle;
                    proof {
                        lemma_wrote(o, acc, seq![Piece::Close(Tag::Pre)]);
                    }
                } else {
                    let ghost between = if first {
                        Seq::empty()
                    } else {
                        seq![Piece::Text("\n"@)]
                    };
                    if !first {
                        push_text(&mut self.output, "\n");
                    } else {
                        proof {
                            lemma_wrote_nothing(self.output@);
                        }
                    }
                    proof {
                        lemma_wrote(o, acc, between);
                    }
                    self.block = Block::Fence { first: false };
                    self.fence_content();
                    proof {
                        lemma_wrote(o, acc + between, seq![Piece::Text(fence_text(line))]);
                    }
                }
            },
            _ => {
                self.advance(3);
                let n = self.remaining();
                if n > 0 {
                    let mut lang = String::new();
                    self.copy_escaped(n, Escape::Lang, &mut lang);
                    let ghost written = self.output@;
                    self.output.append("<pre><code lang=\"");
                    self.output.append(lang.as_str());
                    self.output.append("\">");
                    proof {
                        assert(line.skip(3).take(n as int) =~= line.skip(3));
                        let tag = Piece::OpenFence(escaped(line.skip(3), Escape::Lang));
                        assert(lang@ =~= escaped(line.skip(3), Escape::Lang));
                        assert(self.output@ =~= written + tag.html());
                        lemma_render_one(tag);
                        lemma_wrote(o, acc, seq![tag]);
                    }
                } else {
                    push_open(&mut self.output, Tag::Pre);
                    proof {
                        lemma_wrote(o, acc, seq![Piece::Open(Tag::Pre)]);
                    }
                }
                self.block = Block::Fence { first: true };
            },
        }
    }

    /// Handles a line of a blockquote.
    fn blockquote(&mut self)
        requires
            old(self).wf(),
            at(old(self).rest(), 0, '>'),
        ensures
            line_outcome(*old(self), *final(self), quote_line(old(self).state(), old(self).rest())),
    {
        let ghost o = self.output@;
        let ghost st = self.state();
        let ghost line = self.rest();
        self.advance(1);
        let ghost entry = if st.block is Blockquote {
            seq![Piece::Text("\n"@)]
        } else {
            close_marks(st.marks) + seq![Piece::Open(Tag::Blockquote)]
        };
        if matches!(self.block, Block::Blockquote) {
            push_text(&mut self.output, "\n");
        } else {
            self.revert_marks();
            push_open(&mut self.output, Tag::Blockquote);
            self.block = Block::Blockquote;
            proof {
                lemma_wrote(o, close_marks(st.marks), seq![Piece::Open(Tag::Blockquote)]);
            }
        }
        assert(self.wrote(o, entry));
        let ghost entered = self.state();
        let mut html = String::new();
        if self.br(&mut html) {
            assert(html@ =~= render(br_rule(entered, line.skip(1))->0.pieces));
        } else {
            self.trim_start();
            html = self.parse_inline();
        }
        let ghost body = match br_rule(entered, line.skip(1)) {
            Some(step) => step.pieces,
            None => inline_text(entered, trim(line.skip(1))).pieces,
        };
        self.write(html.as_str());
        proof {
            lemma_wrote(o, entry, body);
        }
    }

    /// Handles a row of a table.
    fn table_row(&mut self)
        requires
            old(self).wf(),
        ensures
            line_outcome(*old(self), *final(self), row_line(old(self).state(), old(self).rest())),
    {
        let ghost o = self.output@;
        let ghost st = self.state();
        let ghost line = self.rest();
        self.revert_marks();
        let ghost acc = close_marks(st.marks);
        let ghost written = self.output@;
        let ghost entry = match st.block {
            Block::Table { pending } => close_cell(pending) + seq![
                Piece::Close(Tag::Row),
                Piece::Open(Tag::Row),
            ],
            _ => seq![Piece::Open(Tag::Table), Piece::Open(Tag::Row)],
        };
        match self.block {
            Block::Table { pending } => {
                self.revert_cell(pending);
                push_close(&mut self.output, Tag::Row);
                proof {
                    lemma_wrote(written, close_cell(pending), seq![Piece::Close(Tag::Row)]);
                }
                push_open(&mut self.output, Tag::Row);
                proof {
                    lemma_wrote(
                        written,
                        close_cell(pending) + seq![Piece::Close(Tag::Row)],
                        seq![Piece::Open(Tag::Row)],
                    );
                    assert(close_cell(pending) + seq![Piece::Close(Tag::Row)] + seq![
                        Piece::Open(Tag::Row),
                    ] =~= entry);
                }
            },
            _ => {
                push_open(&mut self.output, Tag::Table);
                push_open(&mut self.output, Tag::Row);
                proof {
                    lemma_wrote(
                        written,
                        seq![Piece::Open(Tag::Table)],
                        seq![Piece::Open(Tag::Row)],
                    );
                    assert(seq![Piece::Open(Tag::Table)] + seq![Piece::Open(Tag::Row)] =~= entry);
                }
            },
        }
        proof {
            lemma_wrote(o, acc, entry);
        }
        self.block = Block::Table { pending: None };
        let ghost body = inline_text(self.state(), line);
        let html = self.parse_inline();
        self.write(html.as_str());
        proof {
            lemma_wrote(o, acc + entry, body.pieces);
        }
    }

    /// Handles a line that goes on with the open list item.
    fn continuation(&mut self)
        requires
            old(self).wf(),
        ensures
            line_outcome(
                *old(self),
                *final(self),
                continuation_line(old(self).state(), old(self).rest()),
            ),
    {
        let ghost o = self.output@;
        let ghost st = self.state();
        let ghost line = self.rest();
        push_text(&mut self.output, "\n");
        self.trim_start();
        let ghost body = inline_text(st, trim(line));
        let html = self.parse_inline();
        self.write(html.as_str());
        proof {
            lemma_wrote(o, seq![Piece::Text("\n"@)], body.pieces);
        }
    }

    /// Handles a line of a paragraph.
    fn paragraph(&mut self)
        requires
            old(self).wf(),
        ensures
            line_outcome(
                *old(self),
                *final(self),
                paragraph_line(old(self).state(), old(self).rest()),
            ),
    {
        let ghost o = self.output@;
        let ghost st = self.state();
        let ghost line = self.rest();
        let ghost entry = if st.block is Paragraph {
            seq![Piece::Text("\n"@)]
        } else {
            close_marks(st.marks) + close_block(st.block) + seq![Piece::Open(Tag::Paragraph)]
        };
        if matches!(self.block, Block::Paragraph) {
            push_text(&mut self.output, "\n");
        } else {
            self.revert_marks();
            self.revert_block();
            proof {
                lemma_wrote(o, close_marks(st.marks), close_block(st.block));
            }
            push_open(&mut self.output, Tag::Paragraph);
            proof {
                lemma_wrote(
                    o,
                    close_marks(st.marks) + close_block(st.block),
                    seq![Piece::Open(Tag::Paragraph)],
                );
            }
            self.block = Block::Paragraph;
        }
        assert(self.wrote(o, entry));
        let ghost entered = self.state();
        if self.remaining() >= 2 && self.at(0, '\\') && is_block_escapable(self.peek(1)) {
            self.advance(1);
            let html = self.parse_inline();
            self.write(html.as_str());
            proof {
                lemma_wrote(o, entry, inline_text(entered, line.skip(1)).pieces);
            }
        } else if self.at(0, '\\') && self.at(1, '\\') {
            self.advance(1);
            let c = self.peek(0);
            let ghost written = self.output@;
            push_char(&mut self.output, c);
            self.advance(1);
            proof {
                let text = Piece::Text(line.subrange(1, 2));
                assert(written.push(c) =~= written + line.subrange(1, 2));
                lemma_render_one(text);
                lemma_wrote(o, entry, seq![text]);
                assert(self.rest() =~= line.skip(2));
            }
            let html = self.parse_inline();
            self.write(html.as_str());
            proof {
                lemma_wrote(
                    o,
                    entry + seq![Piece::Text(line.subrange(1, 2))],
                    inline_text(entered, line.skip(2)).pieces,
                );
            }
        } else {
            let html = self.parse_inline();
            self.write(html.as_str());
            proof {
                lemma_wrote(o, entry, inline_text(entered, line).pieces);
            }
        }
    }

    /// Handles the current line: applies [`line_step`].
    pub(crate) fn parse_line(&mut self)
        requires
            old(self).wf(),
        ensures
            line_outcome(*old(self), *final(self), line_step(old(self).state(), old(self).rest())),
    {
        proof {
            lemma_leading(self.rest(), CharClass::Space);
        }
        let idle = !self.in_an_element();
        let bare = matches!(self.block, Block::Idle);
        if self.is_empty() {
            self.blank();
        } else if idle && self.at(0, '#') {
            self.heading();
        } else if idle && self.is_rule() {
            self.rule();
        } else if bare && self.starts_with_trimmed_char('-') {
            self.list_item(ListKind::Unordered);
        } else if bare && self.starts_with_trimmed('0', '.') {
            self.list_item(ListKind::Ordered);
        } else if (idle || matches!(self.block, Block::PreCode)) && self.starts_run(' ', 4) {
            self.pre_code();
        } else if (idle && self.starts_run('`', 3)) || matches!(self.block, Block::Fence { .. }) {
            self.code_fence();
        } else if (idle || matches!(self.block, Block::Blockquote)) && self.at(0, '>') {
            self.blockquote();
        } else if (idle && self.at(0, '|')) || (matches!(self.block, Block::Table { .. })
            && self.starts_with_trimmed_char('|')) {
            self.table_row();
        } else if self.in_list() {
            self.continuation();
        } else {
            self.paragraph();
        }
    }

    /// Moves to the next line of the document, if there is one.
    pub(crate) fn advance_line(&mut self) -> (more: bool)
        requires
            old(self).wf(),
        ensures
            final(self).wf(),
            final(self).source == old(self).source,
            final(self).same_state(old(self)),
            more == (old(self).unread().len() > 0),
            more ==> final(self).rest() == first_line(old(self).unread()) && final(self).unread()
                == after_first_line(old(self).unread()),
            !more ==> final(self).unread() == old(self).unread(),
            !more ==> final(self).rest().len() == 0,
    {
        let len = self.source.len();
        if self.next >= len {
            self.pos = len;
            self.end = len;
            return false;
        }
        let ghost t = self.unread();
        self.pos = self.next;
        self.end = len;
        assert(self.rest() =~= t);
        let n = self.scan(CharClass::Except('\n'));
        let stop = self.pos + n;
        if stop < len {
            self.next = stop + 1;
            if n > 0 && self.source[stop - 1] == '\r' {
                self.end = stop - 1;
                assert(self.rest() =~= t.take(n - 1));
            } else {
                self.end = stop;
                assert(self.rest() =~= t.take(n as int));
            }
            assert(self.unread() =~= t.skip(n + 1));
        } else {
            self.next = len;
            assert(self.unread() =~= Seq::<char>::empty());
        }
        true
    }

    /// Closes whatever the end of the document finds open.
    pub(crate) fn finish_document(&mut self)
        ensures
            *final(self) == (Parser {
                block: final(self).block,
                lists: final(self).lists,
                marks: final(self).marks,
                output: final(self).output,
                ..*old(self)
            }),
            final(self).wrote(old(self).output@, finish(old(self).state())),
            final(self).state() == State::initial(),
    {
        let ghost o = self.output@;
        let ghost st = self.state();
        self.revert_all();
        match self.block {
            Block::Fence { first } => {
                push_close(&mut self.output, Tag::Pre);
                self.block = Block::Idle;
            },
            _ => {
                proof {
                    lemma_wrote_nothing(self.output@);
                }
            },
        }
        proof {
            lemma_wrote(
                o,
                close_all(st),
                if st.block is Fence {
                    seq![Piece::Close(Tag::Pre)]
                } else {
                    Seq::empty()
                },
            );
        }
    }

    /// Reads the document from the first unread line to its end.
    pub(crate) fn parse(&mut self)
        requires
            old(self).wf(),
        ensures
            final(self).wf(),
            final(self).source == old(self).source,
            final(self).wrote(
                old(self).output@,
                run_lines(old(self).state(), lines(old(self).unread())),
            ),
            final(self).state() == State::initial(),
            final(self).rest().len() == 0,
            final(self).unread().len() == 0,
    {
        let ghost o = self.output@;
        let ghost goal = run_lines(self.state(), lines(self.unread()));
        proof {
            assert(o + render(goal) =~= o + render(goal));
        }
        loop
            invariant
                self.wf(),
                self.source == old(self).source,
                o + render(goal) == self.output@ + render(
                    run_lines(self.state(), lines(self.unread())),
                ),
            ensures
                self.unread().len() == 0,
                self.rest().len() == 0,
                o + render(goal) == self.output@ + render(
                    run_lines(self.state(), lines(self.unread())),
                ),
            decreases self.unread().len(),
        {
            let ghost st = self.state();
            let ghost t = self.unread();
            let ghost written = self.output@;
            let more = self.advance_line();
            if !more {
                break ;
            }
            self.parse_line();
            proof {
                let ls = lines(t);
                let step = line_step(st, first_line(t));
                assert(ls[0] == first_line(t));
                assert(ls.skip(1) =~= lines(after_first_line(t)));
                lemma_leading(t, CharClass::Except('\n'));
                lemma_wrote(written, step.pieces, run_lines(step.state, ls.skip(1)));
            }
        }
        let ghost st = self.state();
        let ghost written = self.output@;
        self.finish_document();
        proof {
            assert(lines(self.unread()) =~= Seq::<Seq<char>>::empty());
            assert(run_lines(st, lines(self.unread())) == finish(st));
        }
    }

    /// The HTML that a document is turned into.
    ///
    /// Every text is a document: what cannot be read as markup is written
    /// out as text. The result is the rendering of the pieces that the
    /// grammar gives for the text, no more and no less.
    pub fn parse_str(input: &str) -> (html: String)
        ensures
            html@ == render(document(input@)),
    {
        let mut p = Parser::from_str(input);
        p.parse();
        assert(Seq::<char>::empty() + render(document(input@)) =~= render(document(input@)));
        p.output
    }
}

} // verus!
