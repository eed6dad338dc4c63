//! Nesting: the block elements of a document are closed in the reverse
//! of the order in which they were opened.
//!
//! The proof runs a stack over the pieces of a document. Inline spans and
//! links are left out of it: spans are toggles, and close in whatever
//! order the text asks for.

use vstd::prelude::*;
use crate::balance::{exclusive, lemma_inline_accounts, lemma_line_keeps_exclusive};
use crate::block::{blank_line, close_all, close_block, close_cell, close_lists, close_mark};
use crate::block::{close_marks, continuation_line, document, fence_line, fence_text, finish};
use crate::block::{heading_level, heading_line, item_line, line_step, paragraph_line};
use crate::block::{pre_line, quote_line, row_line, rule_line, run_lines, settled};
use crate::inline::{anchor_rule, br_rule, checkbox_rule, escape_rule, img_rule, inline_step};
use crate::inline::{inline_text, link_rule, markup_rule, text_rule, toggle_rule, Step};
use crate::list::{grown, item_depth, marker_len, opening, reconcile, reconciled, unwind};
use crate::markup::{ListKind, Mark, Piece, Tag};
use crate::state::{Block, Marks, State};
use crate::table::{cell_of, cell_rule};
use crate::text::{at, escaped, find, lines, starts2, starts_repeated, trim, Escape};

verus! {

/// Whether `tag` is a block element, which has to nest.
pub open spec fn is_block(tag: Tag) -> bool {
    !(tag is Span) && !(tag is Link)
}

/// The open block elements once `p` is written, `stack` being those open
/// before it, innermost last. `None` if `p` closes a block element that
/// is not the innermost one open.
pub open spec fn after_piece(stack: Seq<Tag>, p: Piece) -> Option<Seq<Tag>> {
    match p.opens() {
        Some(tag) => if is_block(tag) {
            Some(stack.push(tag))
        } else {
            Some(stack)
        },
        None => match p.closes() {
            Some(tag) => if !is_block(tag) {
                Some(stack)
            } else if stack.len() > 0 && stack.last() == tag {
                Some(stack.drop_last())
            } else {
                None
            },
            None => Some(stack),
        },
    }
}

/// The open block elements once `pieces` are written, `stack` being those
/// open before them. `None` if some piece closes a block element that is
/// not the innermost one open at that point.
pub open spec fn simulate(stack: Seq<Tag>, pieces: Seq<Piece>) -> Option<Seq<Tag>>
    decreases pieces.len(),
{
    if pieces.len() == 0 {
        Some(stack)
    } else {
        match simulate(stack, pieces.drop_last()) {
            Some(s) => after_piece(s, pieces.last()),
            None => None,
        }
    }
}

/// The open lists, as elements.
pub open spec fn list_stack(lists: Seq<ListKind>) -> Seq<Tag> {
    Seq::new(lists.len(), |i: int| Tag::List(lists[i]))
}

/// The open table cell, as a stack of one element or none.
pub open spec fn cell_stack(block: Block) -> Seq<Tag> {
    match block {
        Block::Table { pending: Some(kind) } => seq![Tag::Cell(kind)],
        _ => Seq::empty(),
    }
}

/// The elements that a block holds open, innermost last.
pub open spec fn block_stack(block: Block) -> Seq<Tag> {
    match block {
        Block::Idle => Seq::empty(),
        Block::Paragraph => seq![Tag::Paragraph],
        Block::PreCode => seq![Tag::Pre],
        Block::Blockquote => seq![Tag::Blockquote],
        Block::Table { pending } => seq![Tag::Table, Tag::Row] + cell_stack(block),
        Block::Fence { first } => seq![Tag::Pre],
    }
}

/// The block elements that a state holds open, innermost last.
pub open spec fn stack_of(st: State) -> Seq<Tag> {
    if st.lists.len() > 0 {
        list_stack(st.lists).push(Tag::Item)
    } else {
        block_stack(st.block)
    }
}

/// Whether `pieces` take the open elements from `from` to `to`.
pub open spec fn takes(from: Seq<Tag>, pieces: Seq<Piece>, to: Seq<Tag>) -> bool {
    simulate(from, pieces) == Some(to)
}

/// Writing one piece.
proof fn lemma_takes_one(stack: Seq<Tag>, p: Piece)
    ensures
        simulate(stack, seq![p]) == after_piece(stack, p),
{
    let one = seq![p];
    assert(one.len() == 1 && one.last() == p);
    assert(one.drop_last() =~= Seq::<Piece>::empty());
    assert(simulate(stack, one.drop_last()) == Some(stack));
}

/// Writing one sequence after another.
proof fn lemma_takes_add(from: Seq<Tag>, a: Seq<Piece>, mid: Seq<Tag>, b: Seq<Piece>, to: Seq<Tag>)
    requires
        takes(from, a, mid),
        takes(mid, b, to),
    ensures
        takes(from, a + b, to),
    decreases b.len(),
{
    if b.len() == 0 {
        assert(a + b =~= a);
    } else {
        let s = simulate(mid, b.drop_last())->0;
        lemma_takes_add(from, a, mid, b.drop_last(), s);
        assert((a + b).drop_last() =~= a + b.drop_last());
        assert((a + b).last() == b.last());
    }
}

/// Writing a piece that is no tag of a block element changes nothing.
proof fn lemma_takes_inline(stack: Seq<Tag>, p: Piece)
    requires
        p.opens() is None || !is_block(p.opens()->0),
        p.closes() is None || !is_block(p.closes()->0),
    ensures
        takes(stack, seq![p], stack),
{
    lemma_takes_one(stack, p);
}

/// Writing the start tag of a block element opens it.
proof fn lemma_takes_open(stack: Seq<Tag>, p: Piece, tag: Tag)
    requires
        p.opens() == Some(tag),
        is_block(tag),
    ensures
        takes(stack, seq![p], stack.push(tag)),
{
    lemma_takes_one(stack, p);
}

/// Writing the end tag of the innermost block element closes it.
proof fn lemma_takes_close(stack: Seq<Tag>, tag: Tag)
    requires
        is_block(tag),
    ensures
        takes(stack.push(tag), seq![Piece::Close(tag)], stack),
{
    lemma_takes_one(stack.push(tag), Piece::Close(tag));
    assert(stack.push(tag).drop_last() =~= stack);
}

/// Closing a span changes nothing.
proof fn lemma_close_mark_takes(stack: Seq<Tag>, marks: Marks, m: Mark)
    ensures
        takes(stack, close_mark(marks, m), stack),
{
    if marks.get(m) {
        lemma_takes_inline(stack, Piece::Close(Tag::Span(m)));
    }
}

/// Closing the spans changes nothing.
proof fn lemma_close_marks_takes(stack: Seq<Tag>, m: Marks)
    ensures
        takes(stack, close_marks(m), stack),
{
    let a1 = close_mark(m, Mark::Strong);
    let a2 = a1 + close_mark(m, Mark::Em);
    let a3 = a2 + close_mark(m, Mark::Del);
    let a4 = a3 + close_mark(m, Mark::Ins);
    let a5 = a4 + close_mark(m, Mark::Highlight);
    let a6 = a5 + close_mark(m, Mark::Code);
    lemma_close_mark_takes(stack, m, Mark::Strong);
    lemma_close_mark_takes(stack, m, Mark::Em);
    lemma_close_mark_takes(stack, m, Mark::Del);
    lemma_close_mark_takes(stack, m, Mark::Ins);
    lemma_close_mark_takes(stack, m, Mark::Highlight);
    lemma_close_mark_takes(stack, m, Mark::Code);
    lemma_close_mark_takes(stack, m, Mark::Sup);
    lemma_takes_add(stack, a1, stack, close_mark(m, Mark::Em), stack);
    lemma_takes_add(stack, a2, stack, close_mark(m, Mark::Del), stack);
    lemma_takes_add(stack, a3, stack, close_mark(m, Mark::Ins), stack);
    lemma_takes_add(stack, a4, stack, close_mark(m, Mark::Highlight), stack);
    lemma_takes_add(stack, a5, stack, close_mark(m, Mark::Code), stack);
    lemma_takes_add(stack, a6, stack, close_mark(m, Mark::Sup), stack);
}

/// The stack of lists with one more level.
proof fn lemma_list_stack_push(lists: Seq<ListKind>, kind: ListKind)
    ensures
        list_stack(lists.push(kind)) == list_stack(lists).push(Tag::List(kind)),
{
    assert(list_stack(lists.push(kind)) =~= list_stack(lists).push(Tag::List(kind)));
}

/// Closing the lists above a depth, innermost first, leaves the lists up
/// to that depth.
proof fn lemma_unwind_takes(lists: Seq<ListKind>, keep: int)
    requires
        0 <= keep <= lists.len(),
    ensures
        takes(list_stack(lists), unwind(lists, keep), list_stack(lists.take(keep))),
    decreases lists.len(),
{
    if lists.len() <= keep {
        assert(lists.take(keep) =~= lists);
    } else {
        let rest = lists.drop_last();
        let tag = Tag::List(lists.last());
        lemma_unwind_takes(rest, keep);
        assert(rest.take(keep) =~= lists.take(keep));
        assert(rest.push(lists.last()) =~= lists);
        lemma_list_stack_push(rest, lists.last());
        lemma_takes_close(list_stack(rest), tag);
        lemma_takes_add(
            list_stack(lists),
            seq![Piece::Close(tag)],
            list_stack(rest),
            unwind(rest, keep),
            list_stack(lists.take(keep)),
        );
    }
}

/// Opening lists adds them to the stack.
proof fn lemma_opening_takes(lists: Seq<ListKind>, kind: ListKind, n: nat)
    ensures
        takes(list_stack(lists), opening(kind, n), list_stack(grown(lists, kind, n))),
        grown(lists, kind, n).len() == lists.len() + n,
    decreases n,
{
    if n > 0 {
        let m = (n - 1) as nat;
        let open = Piece::Open(Tag::List(kind));
        lemma_opening_takes(lists, kind, m);
        lemma_list_stack_push(grown(lists, kind, m), kind);
        lemma_takes_open(list_stack(grown(lists, kind, m)), open, Tag::List(kind));
        assert(opening(kind, m).push(open) =~= opening(kind, m) + seq![open]);
        lemma_takes_add(
            list_stack(lists),
            opening(kind, m),
            list_stack(grown(lists, kind, m)),
            seq![open],
            list_stack(grown(lists, kind, n)),
        );
    }
}

/// Bringing the lists to a depth leaves the lists of that depth open.
proof fn lemma_reconcile_takes(lists: Seq<ListKind>, depth: int, kind: ListKind)
    requires
        depth >= 1,
    ensures
        takes(
            list_stack(lists),
            reconcile(lists, depth, kind),
            list_stack(reconciled(lists, depth, kind)),
        ),
        reconciled(lists, depth, kind).len() == depth,
{
    if depth <= lists.len() {
        lemma_unwind_takes(lists, depth);
    } else {
        lemma_opening_takes(lists, kind, (depth - lists.len()) as nat);
    }
}

/// Closing the lists closes the item and then every list.
proof fn lemma_close_lists_takes(lists: Seq<ListKind>)
    ensures
        takes(
            if lists.len() > 0 {
                list_stack(lists).push(Tag::Item)
            } else {
                Seq::empty()
            },
            close_lists(lists),
            Seq::empty(),
        ),
{
    if lists.len() > 0 {
        let item = seq![Piece::Close(Tag::Item)];
        let feed = Piece::Text("\n"@);
        lemma_takes_close(list_stack(lists), Tag::Item);
        lemma_unwind_takes(lists, 0);
        assert(list_stack(lists.take(0)) =~= Seq::<Tag>::empty());
        lemma_takes_inline(Seq::empty(), feed);
        lemma_takes_add(
            list_stack(lists).push(Tag::Item),
            item,
            list_stack(lists),
            unwind(lists, 0),
            Seq::empty(),
        );
        lemma_takes_add(
            list_stack(lists).push(Tag::Item),
            item + unwind(lists, 0),
            Seq::empty(),
            seq![feed],
            Seq::empty(),
        );
    }
}

/// Closing the open cell takes it off the stack.
proof fn lemma_close_cell_takes(base: Seq<Tag>, block: Block)
    requires
        block is Table,
    ensures
        takes(base + cell_stack(block), close_cell(block->pending), base),
{
    match block->pending {
        Some(kind) => {
            assert(base + cell_stack(block) =~= base.push(Tag::Cell(kind)));
            lemma_takes_close(base, Tag::Cell(kind));
        },
        None => {
            assert(base + cell_stack(block) =~= base);
        },
    }
}

/// Closing the block takes what it held open off the stack.
proof fn lemma_close_block_takes(block: Block)
    ensures
        takes(
            block_stack(block),
            close_block(block),
            if block is Fence {
                block_stack(block)
            } else {
                Seq::empty()
            },
        ),
{
    let none = Seq::<Tag>::empty();
    match block {
        Block::Idle => {},
        Block::Paragraph => {
            assert(block_stack(block) =~= none.push(Tag::Paragraph));
            lemma_takes_close(none, Tag::Paragraph);
        },
        Block::PreCode => {
            assert(block_stack(block) =~= none.push(Tag::Pre));
            lemma_takes_close(none, Tag::Pre);
        },
        Block::Blockquote => {
            assert(block_stack(block) =~= none.push(Tag::Blockquote));
            lemma_takes_close(none, Tag::Blockquote);
        },
        Block::Table { pending } => {
            let rows = seq![Tag::Table, Tag::Row];
            let table = seq![Tag::Table];
            lemma_close_cell_takes(rows, block);
            assert(rows =~= table.push(Tag::Row));
            assert(table =~= none.push(Tag::Table));
            lemma_takes_close(table, Tag::Row);
            lemma_takes_close(none, Tag::Table);
            lemma_takes_add(
                rows,
                seq![Piece::Close(Tag::Row)],
                table,
                seq![Piece::Close(Tag::Table)],
                none,
            );
            assert(seq![Piece::Close(Tag::Row)] + seq![Piece::Close(Tag::Table)] =~= seq![
                Piece::Close(Tag::Row),
                Piece::Close(Tag::Table),
            ]);
            lemma_takes_add(
                block_stack(block),
                close_cell(pending),
                rows,
                seq![Piece::Close(Tag::Row), Piece::Close(Tag::Table)],
                none,
            );
        },
        Block::Fence { first } => {},
    }
}

/// Closing everything leaves nothing open but a code fence.
proof fn lemma_close_all_takes(st: State)
    requires
        exclusive(st),
    ensures
        takes(stack_of(st), close_all(st), stack_of(settled(st))),
{
    let none = Seq::<Tag>::empty();
    lemma_close_marks_takes(stack_of(st), st.marks);
    lemma_close_lists_takes(st.lists);
    lemma_close_block_takes(st.block);
    let mid = if st.lists.len() > 0 {
        none
    } else {
        stack_of(st)
    };
    lemma_takes_add(stack_of(st), close_marks(st.marks), stack_of(st), close_lists(st.lists), mid);
    lemma_takes_add(
        stack_of(st),
        close_marks(st.marks) + close_lists(st.lists),
        mid,
        close_block(st.block),
        stack_of(settled(st)),
    );
}

/// Whether a step keeps to the stack: over any elements `base`, its
/// pieces replace the cell that was open by the cell that is open after
/// it, and touch nothing else.
pub open spec fn keeps(base: Seq<Tag>, st: State, step: Step) -> bool {
    takes(base + cell_stack(st.block), step.pieces, base + cell_stack(step.state.block))
}

/// A step that writes one piece which is no tag of a block element, and
/// leaves the block as it is, keeps to the stack.
proof fn lemma_plain_keeps(base: Seq<Tag>, st: State, step: Step, p: Piece)
    requires
        step.state.block == st.block,
        step.pieces == seq![p],
        p.opens() is None || !is_block(p.opens()->0),
        p.closes() is None || !is_block(p.closes()->0),
    ensures
        keeps(base, st, step),
{
    lemma_takes_inline(base + cell_stack(st.block), p);
}

/// The rules that write one plain piece keep to the stack.
proof fn lemma_plain_rules_keep(base: Seq<Tag>, st: State, s: Seq<char>)
    ensures
        escape_rule(st, s) is Some ==> keeps(base, st, escape_rule(st, s)->0),
        br_rule(st, s) is Some ==> keeps(base, st, br_rule(st, s)->0),
        anchor_rule(st, s) is Some ==> keeps(base, st, anchor_rule(st, s)->0),
        checkbox_rule(st, s, false) is Some ==> keeps(base, st, checkbox_rule(st, s, false)->0),
        checkbox_rule(st, s, true) is Some ==> keeps(base, st, checkbox_rule(st, s, true)->0),
{
    match escape_rule(st, s) {
        Some(step) => {
            lemma_plain_keeps(base, st, step, step.pieces[0]);
        },
        None => {},
    }
    match br_rule(st, s) {
        Some(step) => {
            lemma_plain_keeps(base, st, step, step.pieces[0]);
        },
        None => {},
    }
    match anchor_rule(st, s) {
        Some(step) => {
            lemma_plain_keeps(base, st, step, step.pieces[0]);
        },
        None => {},
    }
    match checkbox_rule(st, s, false) {
        Some(step) => {
            lemma_plain_keeps(base, st, step, step.pieces[0]);
        },
        None => {},
    }
    match checkbox_rule(st, s, true) {
        Some(step) => {
            lemma_plain_keeps(base, st, step, step.pieces[0]);
        },
        None => {},
    }
}

/// Plain text keeps to the stack.
proof fn lemma_text_keeps(base: Seq<Tag>, st: State, s: Seq<char>)
    ensures
        keeps(base, st, text_rule(st, s)),
{
    let step = text_rule(st, s);
    if step.pieces.len() > 0 {
        lemma_plain_keeps(base, st, step, step.pieces[0]);
    }
}

/// A toggle keeps to the stack.
proof fn lemma_toggle_keeps(base: Seq<Tag>, st: State, s: Seq<char>, m: Mark)
    ensures
        toggle_rule(st, s, m) is Some ==> keeps(base, st, toggle_rule(st, s, m)->0),
{
    match toggle_rule(st, s, m) {
        Some(step) => {
            lemma_plain_keeps(base, st, step, step.pieces[0]);
        },
        None => {},
    }
}

/// A cell delimiter keeps to the stack.
proof fn lemma_cell_keeps(base: Seq<Tag>, st: State, s: Seq<char>)
    ensures
        cell_rule(st, s) is Some ==> keeps(base, st, cell_rule(st, s)->0),
{
    match cell_rule(st, s) {
        Some(step) => {
            let cell = cell_of(s.skip(1));
            let open = Piece::OpenCell(cell);
            let tag = Tag::Cell(cell.role.kind());
            lemma_close_cell_takes(base, st.block);
            lemma_takes_open(base, open, tag);
            assert(base.push(tag) =~= base + cell_stack(step.state.block));
            lemma_takes_add(
                base + cell_stack(st.block),
                close_cell(st.block->pending),
                base,
                seq![open],
                base + cell_stack(step.state.block),
            );
        },
        None => {},
    }
}

/// A link keeps to the stack.
proof fn lemma_link_keeps(base: Seq<Tag>, st: State, s: Seq<char>)
    ensures
        link_rule(st, s) is Some ==> keeps(base, st, link_rule(st, s)->0),
    decreases s.len(), 0int,
{
    if at(s, 0, '[') {
        let from = base + cell_stack(st.block);
        match find(s, ']') {
            None => {
                lemma_takes_inline(from, Piece::Text("["@));
            },
            Some(i) => {
                if 1 <= i < s.len() {
                    lemma_inline_keeps(base, st, s.subrange(1, i));
                    let label = inline_text(st, s.subrange(1, i));
                    let to = base + cell_stack(label.state.block);
                    let step = link_rule(st, s)->0;
                    let first = step.pieces[0];
                    let u = s.skip(i + 1);
                    let tail = if !at(u, 0, '(') {
                        seq![Piece::Text("]"@)]
                    } else if find(u.skip(1), ')') is None {
                        seq![Piece::Text("]"@), Piece::Text("("@)]
                    } else {
                        seq![Piece::Close(Tag::Link)]
                    };
                    assert(step.pieces == seq![first] + label.pieces + tail);
                    lemma_takes_inline(from, first);
                    lemma_takes_inline(to, Piece::Text("]"@));
                    lemma_takes_inline(to, Piece::Text("("@));
                    lemma_takes_inline(to, Piece::Close(Tag::Link));
                    lemma_takes_add(
                        to,
                        seq![Piece::Text("]"@)],
                        to,
                        seq![Piece::Text("("@)],
                        to,
                    );
                    assert(seq![Piece::Text("]"@)] + seq![Piece::Text("("@)] =~= seq![
                        Piece::Text("]"@),
                        Piece::Text("("@),
                    ]);
                    lemma_takes_add(from, seq![first], from, label.pieces, to);
                    lemma_takes_add(from, seq![first] + label.pieces, to, tail, to);
                }
            },
        }
    }
}

/// An image keeps to the stack.
proof fn lemma_img_keeps(base: Seq<Tag>, st: State, s: Seq<char>)
    ensures
        img_rule(st, s) is Some ==> keeps(base, st, img_rule(st, s)->0),
    decreases s.len(), 0int,
{
    if starts2(s, '!', '[') {
        let from = base + cell_stack(st.block);
        let t = s.skip(2);
        match find(t, ']') {
            None => {
                lemma_takes_inline(from, Piece::Text("!["@));
            },
            Some(i) => {
                if 0 <= i < t.len() {
                    lemma_inline_keeps(base, st, t.take(i));
                    let label = inline_text(st, t.take(i));
                    let to = base + cell_stack(label.state.block);
                    let step = img_rule(st, s)->0;
                    let first = step.pieces[0];
                    let u = t.skip(i + 1);
                    let v = u.skip(1);
                    let tail = if !at(u, 0, '(') {
                        seq![Piece::Text("]"@)]
                    } else if find(v, ')') is None {
                        seq![Piece::Text("]"@), Piece::Text("("@)]
                    } else {
                        seq![Piece::ImageEnd(v.take(find(v, ')')->0))]
                    };
                    assert(step.pieces == seq![first] + label.pieces + tail);
                    lemma_takes_inline(from, first);
                    lemma_takes_inline(to, Piece::Text("]"@));
                    lemma_takes_inline(to, Piece::Text("("@));
                    lemma_takes_inline(to, tail[0]);
                    lemma_takes_add(
                        to,
                        seq![Piece::Text("]"@)],
                        to,
                        seq![Piece::Text("("@)],
                        to,
                    );
                    assert(seq![Piece::Text("]"@)] + seq![Piece::Text("("@)] =~= seq![
                        Piece::Text("]"@),
                        Piece::Text("("@),
                    ]);
                    lemma_takes_add(from, seq![first], from, label.pieces, to);
                    lemma_takes_add(from, seq![first] + label.pieces, to, tail, to);
                }
            },
        }
    }
}

/// The markup rules keep to the stack.
proof fn lemma_markup_keeps(base: Seq<Tag>, st: State, s: Seq<char>)
    ensures
        markup_rule(st, s) is Some ==> keeps(base, st, markup_rule(st, s)->0),
    decreases s.len(), 1int,
{
    lemma_plain_rules_keep(base, st, s);
    lemma_toggle_keeps(base, st, s, Mark::Strong);
    lemma_toggle_keeps(base, st, s, Mark::Em);
    lemma_toggle_keeps(base, st, s, Mark::Del);
    lemma_toggle_keeps(base, st, s, Mark::Ins);
    lemma_toggle_keeps(base, st, s, Mark::Highlight);
    lemma_toggle_keeps(base, st, s, Mark::Sup);
    lemma_link_keeps(base, st, s);
    lemma_img_keeps(base, st, s);
    lemma_cell_keeps(base, st, s);
}

/// One inline step keeps to the stack.
proof fn lemma_step_keeps(base: Seq<Tag>, st: State, s: Seq<char>)
    ensures
        keeps(base, st, inline_step(st, s)),
    decreases s.len(), 2int,
{
    lemma_plain_rules_keep(base, st, s);
    lemma_markup_keeps(base, st, s);
    lemma_toggle_keeps(base, st, s, Mark::Code);
    lemma_text_keeps(base, st, s);
}

/// An inline run keeps to the stack: it opens and closes table cells,
/// one at a time, and no other block element.
pub proof fn lemma_inline_keeps(base: Seq<Tag>, st: State, s: Seq<char>)
    ensures
        takes(
            base + cell_stack(st.block),
            inline_text(st, s).pieces,
            base + cell_stack(inline_text(st, s).state.block),
        ),
    decreases s.len(), 3int,
{
    if s.len() > 0 {
        lemma_step_keeps(base, st, s);
        let step = inline_step(st, s);
        if step.rest.len() < s.len() {
            lemma_inline_keeps(base, step.state, step.rest);
            lemma_takes_add(
                base + cell_stack(st.block),
                step.pieces,
                base + cell_stack(step.state.block),
                inline_text(step.state, step.rest).pieces,
                base + cell_stack(inline_text(st, s).state.block),
            );
        }
    }
}

/// An inline run in a state that is not inside a table leaves the stack
/// as it is.
proof fn lemma_inline_leaves(stack: Seq<Tag>, st: State, s: Seq<char>)
    requires
        !(st.block is Table),
    ensures
        takes(stack, inline_text(st, s).pieces, stack),
        inline_text(st, s).state.block == st.block,
        inline_text(st, s).state.lists == st.lists,
{
    lemma_inline_keeps(stack, st, s);
    lemma_inline_accounts(st, s, Tag::Item);
    assert(stack + cell_stack(st.block) =~= stack);
}

/// Whether a line keeps to the stack: its pieces take the elements that
/// the state before it held open to those that the state after it holds.
pub open spec fn nests(st: State, pieces: Seq<Piece>, after: State) -> bool {
    takes(stack_of(st), pieces, stack_of(after))
}

/// An empty line nests.
proof fn lemma_blank_nests(st: State)
    requires
        exclusive(st),
    ensures
        nests(st, blank_line(st).pieces, blank_line(st).state),
{
    let feed = Piece::Text("\n"@);
    lemma_close_all_takes(st);
    lemma_takes_inline(stack_of(settled(st)), feed);
    lemma_takes_add(
        stack_of(st),
        close_all(st),
        stack_of(settled(st)),
        seq![feed],
        stack_of(settled(st)),
    );
}

/// A heading nests.
proof fn lemma_heading_nests(st: State, line: Seq<char>)
    requires
        st.idle(),
    ensures
        nests(st, heading_line(st, line).pieces, heading_line(st, line).state),
{
    let none = Seq::<Tag>::empty();
    let level = heading_level(line);
    let tag = Tag::Heading(level);
    let inside = none.push(tag);
    let cleared = State { marks: Marks::none(), ..st };
    let text = trim(line.skip(level as int));
    let body = inline_text(cleared, text);
    let marks = close_marks(st.marks);
    lemma_close_marks_takes(none, st.marks);
    lemma_takes_open(none, Piece::Open(tag), tag);
    lemma_inline_leaves(inside, cleared, text);
    lemma_takes_close(none, tag);
    lemma_takes_add(none, marks, none, seq![Piece::Open(tag)], inside);
    lemma_takes_add(none, marks + seq![Piece::Open(tag)], inside, body.pieces, inside);
    lemma_takes_add(
        none,
        marks + seq![Piece::Open(tag)] + body.pieces,
        inside,
        seq![Piece::Close(tag)],
        none,
    );
}

/// A horizontal rule nests.
proof fn lemma_rule_nests(st: State)
    ensures
        nests(st, rule_line(st).pieces, rule_line(st).state),
{
    let stack = stack_of(st);
    lemma_close_marks_takes(stack, st.marks);
    lemma_takes_inline(stack, Piece::Rule);
    lemma_takes_add(stack, close_marks(st.marks), stack, seq![Piece::Rule], stack);
}

/// A list item nests.
proof fn lemma_item_nests(st: State, line: Seq<char>, kind: ListKind)
    requires
        st.block is Idle,
    ensures
        nests(st, item_line(st, line, kind).pieces, item_line(st, line, kind).state),
{
    let depth = item_depth(line);
    let lists = reconciled(st.lists, depth, kind);
    let entered = State { block: st.block, lists, marks: Marks::none() };
    let text = trim(trim(line).skip(marker_len(kind)));
    let body = inline_text(entered, text);
    let previous = if st.lists.len() > 0 {
        seq![Piece::Close(Tag::Item)]
    } else {
        Seq::empty()
    };
    let tags = reconcile(st.lists, depth, kind);
    let open = Piece::Open(Tag::Item);
    let start = stack_of(st);
    let bare = list_stack(st.lists);
    let deep = list_stack(lists);
    let inside = deep.push(Tag::Item);
    lemma_close_marks_takes(start, st.marks);
    if st.lists.len() > 0 {
        lemma_takes_close(bare, Tag::Item);
    } else {
        assert(bare =~= start);
    }
    lemma_reconcile_takes(st.lists, depth, kind);
    lemma_takes_open(deep, open, Tag::Item);
    lemma_inline_leaves(inside, entered, text);
    let a1 = close_marks(st.marks);
    let a2 = a1 + previous;
    let a3 = a2 + tags;
    let a4 = a3 + seq![open];
    lemma_takes_add(start, a1, start, previous, bare);
    lemma_takes_add(start, a2, bare, tags, deep);
    lemma_takes_add(start, a3, deep, seq![open], inside);
    lemma_takes_add(start, a4, inside, body.pieces, inside);
}

/// A line of indented code nests.
proof fn lemma_pre_nests(st: State, line: Seq<char>)
    requires
        st.lists.len() == 0,
        st.block is Idle || st.block is PreCode,
    ensures
        nests(st, pre_line(st, line).pieces, pre_line(st, line).state),
{
    let none = Seq::<Tag>::empty();
    let inside = none.push(Tag::Pre);
    let start = stack_of(st);
    let entry = if st.block is PreCode {
        Piece::Text("\n"@)
    } else {
        Piece::Open(Tag::Pre)
    };
    let text = Piece::Text(escaped(line.skip(4), Escape::Code));
    assert(inside =~= seq![Tag::Pre]);
    lemma_close_marks_takes(start, st.marks);
    if st.block is PreCode {
        lemma_takes_inline(start, entry);
    } else {
        lemma_takes_open(none, entry, Tag::Pre);
    }
    lemma_takes_inline(inside, text);
    lemma_takes_add(start, seq![entry], inside, seq![text], inside);
    assert(seq![entry] + seq![text] =~= seq![entry, text]);
    lemma_takes_add(start, close_marks(st.marks), start, seq![entry, text], inside);
}

/// A line of a code fence nests.
proof fn lemma_fence_nests(st: State, line: Seq<char>)
    requires
        st.lists.len() == 0,
        st.block is Idle || st.block is Fence,
    ensures
        nests(st, fence_line(st, line).pieces, fence_line(st, line).state),
{
    let none = Seq::<Tag>::empty();
    let inside = none.push(Tag::Pre);
    let start = stack_of(st);
    let marks = close_marks(st.marks);
    assert(inside =~= seq![Tag::Pre]);
    lemma_close_marks_takes(start, st.marks);
    match st.block {
        Block::Fence { first } => {
            if starts_repeated(line, '`', 3) {
                lemma_takes_close(none, Tag::Pre);
                lemma_takes_add(start, marks, start, seq![Piece::Close(Tag::Pre)], none);
            } else {
                let between = if first {
                    Seq::empty()
                } else {
                    seq![Piece::Text("\n"@)]
                };
                let text = Piece::Text(fence_text(line));
                lemma_takes_inline(start, Piece::Text("\n"@));
                lemma_takes_inline(start, text);
                lemma_takes_add(start, marks, start, between, start);
                lemma_takes_add(start, marks + between, start, seq![text], start);
            }
        },
        _ => {
            let open = fence_line(st, line).pieces.last();
            assert(fence_line(st, line).pieces == marks + seq![open]);
            lemma_takes_open(none, open, Tag::Pre);
            lemma_takes_add(start, marks, start, seq![open], inside);
        },
    }
}

/// A line of a blockquote nests.
proof fn lemma_quote_nests(st: State, line: Seq<char>)
    requires
        st.lists.len() == 0,
        st.block is Idle || st.block is Blockquote,
    ensures
        nests(st, quote_line(st, line).pieces, quote_line(st, line).state),
{
    let none = Seq::<Tag>::empty();
    let inside = none.push(Tag::Blockquote);
    let start = stack_of(st);
    let entered = State {
        block: Block::Blockquote,
        lists: st.lists,
        marks: if st.block is Blockquote {
            st.marks
        } else {
            Marks::none()
        },
    };
    let entry = if st.block is Blockquote {
        seq![Piece::Text("\n"@)]
    } else {
        close_marks(st.marks) + seq![Piece::Open(Tag::Blockquote)]
    };
    assert(inside =~= seq![Tag::Blockquote]);
    if st.block is Blockquote {
        lemma_takes_inline(start, Piece::Text("\n"@));
    } else {
        lemma_close_marks_takes(start, st.marks);
        lemma_takes_open(none, Piece::Open(Tag::Blockquote), Tag::Blockquote);
        lemma_takes_add(
            start,
            close_marks(st.marks),
            start,
            seq![Piece::Open(Tag::Blockquote)],
            inside,
        );
    }
    assert(takes(start, entry, inside));
    match br_rule(entered, line.skip(1)) {
        Some(step) => {
            lemma_takes_inline(inside, Piece::Break);
            lemma_takes_add(start, entry, inside, step.pieces, inside);
        },
        None => {
            let text = trim(line.skip(1));
            lemma_inline_leaves(inside, entered, text);
            lemma_takes_add(start, entry, inside, inline_text(entered, text).pieces, inside);
        },
    }
}

/// A row of a table nests.
proof fn lemma_row_nests(st: State, line: Seq<char>)
    requires
        st.lists.len() == 0,
        st.block is Idle || st.block is Table,
    ensures
        nests(st, row_line(st, line).pieces, row_line(st, line).state),
{
    let none = Seq::<Tag>::empty();
    let table = none.push(Tag::Table);
    let rows = table.push(Tag::Row);
    let start = stack_of(st);
    let entered = State {
        block: Block::Table { pending: None },
        lists: st.lists,
        marks: Marks::none(),
    };
    let body = inline_text(entered, line);
    let marks = close_marks(st.marks);
    let entry = match st.block {
        Block::Table { pending } => close_cell(pending) + seq![
            Piece::Close(Tag::Row),
            Piece::Open(Tag::Row),
        ],
        _ => seq![Piece::Open(Tag::Table), Piece::Open(Tag::Row)],
    };
    assert(rows =~= seq![Tag::Table, Tag::Row]);
    lemma_close_marks_takes(start, st.marks);
    match st.block {
        Block::Table { pending } => {
            lemma_close_cell_takes(rows, st.block);
            lemma_takes_close(table, Tag::Row);
            lemma_takes_open(table, Piece::Open(Tag::Row), Tag::Row);
            lemma_takes_add(
                rows,
                seq![Piece::Close(Tag::Row)],
                table,
                seq![Piece::Open(Tag::Row)],
                rows,
            );
            assert(seq![Piece::Close(Tag::Row)] + seq![Piece::Open(Tag::Row)] =~= seq![
                Piece::Close(Tag::Row),
                Piece::Open(Tag::Row),
            ]);
            lemma_takes_add(
                start,
                close_cell(pending),
                rows,
                seq![Piece::Close(Tag::Row), Piece::Open(Tag::Row)],
                rows,
            );
        },
        _ => {
            lemma_takes_open(none, Piece::Open(Tag::Table), Tag::Table);
            lemma_takes_open(table, Piece::Open(Tag::Row), Tag::Row);
            lemma_takes_add(
                none,
                seq![Piece::Open(Tag::Table)],
                table,
                seq![Piece::Open(Tag::Row)],
                rows,
            );
            assert(seq![Piece::Open(Tag::Table)] + seq![Piece::Open(Tag::Row)] =~= entry);
        },
    }
    assert(takes(start, entry, rows));
    lemma_inline_keeps(rows, entered, line);
    lemma_inline_accounts(entered, line, Tag::Item);
    assert(rows + cell_stack(entered.block) =~= rows);
    lemma_takes_add(start, marks, start, entry, rows);
    lemma_takes_add(start, marks + entry, rows, body.pieces, stack_of(body.state));
}

/// A line that goes on with a list item nests.
proof fn lemma_continuation_nests(st: State, line: Seq<char>)
    requires
        st.block is Idle,
    ensures
        nests(st, continuation_line(st, line).pieces, continuation_line(st, line).state),
{
    let start = stack_of(st);
    let feed = Piece::Text("\n"@);
    lemma_takes_inline(start, feed);
    lemma_inline_leaves(start, st, trim(line));
    lemma_takes_add(start, seq![feed], start, inline_text(st, trim(line)).pieces, start);
}

/// A line of a paragraph nests.
proof fn lemma_paragraph_nests(st: State, line: Seq<char>)
    requires
        st.lists.len() == 0,
        !(st.block is Fence),
    ensures
        nests(st, paragraph_line(st, line).pieces, paragraph_line(st, line).state),
{
    let none = Seq::<Tag>::empty();
    let inside = none.push(Tag::Paragraph);
    let start = stack_of(st);
    let entered = State {
        block: Block::Paragraph,
        lists: st.lists,
        marks: if st.block is Paragraph {
            st.marks
        } else {
            Marks::none()
        },
    };
    let entry = if st.block is Paragraph {
        seq![Piece::Text("\n"@)]
    } else {
        close_marks(st.marks) + close_block(st.block) + seq![Piece::Open(Tag::Paragraph)]
    };
    assert(inside =~= seq![Tag::Paragraph]);
    if st.block is Paragraph {
        lemma_takes_inline(start, Piece::Text("\n"@));
    } else {
        lemma_close_marks_takes(start, st.marks);
        lemma_close_block_takes(st.block);
        lemma_takes_open(none, Piece::Open(Tag::Paragraph), Tag::Paragraph);
        lemma_takes_add(start, close_marks(st.marks), start, close_block(st.block), none);
        lemma_takes_add(
            start,
            close_marks(st.marks) + close_block(st.block),
            none,
            seq![Piece::Open(Tag::Paragraph)],
            inside,
        );
    }
    assert(takes(start, entry, inside));
    let slash = Piece::Text(line.subrange(1, 2));
    lemma_takes_inline(inside, slash);
    lemma_takes_add(start, entry, inside, seq![slash], inside);
    lemma_inline_leaves(inside, entered, line);
    lemma_inline_leaves(inside, entered, line.skip(1));
    lemma_inline_leaves(inside, entered, line.skip(2));
    lemma_takes_add(start, entry, inside, inline_text(entered, line).pieces, inside);
    lemma_takes_add(start, entry, inside, inline_text(entered, line.skip(1)).pieces, inside);
    lemma_takes_add(
        start,
        entry + seq![slash],
        inside,
        inline_text(entered, line.skip(2)).pieces,
        inside,
    );
}

/// Every line nests: it closes block elements innermost first, and
/// leaves open what the state after it holds.
pub proof fn lemma_line_nests(st: State, line: Seq<char>)
    requires
        exclusive(st),
    ensures
        nests(st, line_step(st, line).pieces, line_step(st, line).state),
{
    lemma_blank_nests(st);
    lemma_rule_nests(st);
    if st.idle() {
        lemma_heading_nests(st, line);
    }
    if st.block is Idle {
        lemma_item_nests(st, line, ListKind::Unordered);
        lemma_item_nests(st, line, ListKind::Ordered);
        lemma_continuation_nests(st, line);
    }
    if st.lists.len() == 0 {
        if st.block is Idle || st.block is PreCode {
            lemma_pre_nests(st, line);
        }
        if st.block is Idle || st.block is Fence {
            lemma_fence_nests(st, line);
        }
        if st.block is Idle || st.block is Blockquote {
            lemma_quote_nests(st, line);
        }
        if st.block is Idle || st.block is Table {
            lemma_row_nests(st, line);
        }
        if !(st.block is Fence) {
            lemma_paragraph_nests(st, line);
        }
    }
}

/// The end of the document closes what is open, innermost first.
proof fn lemma_finish_nests(st: State)
    requires
        exclusive(st),
    ensures
        takes(stack_of(st), finish(st), Seq::empty()),
{
    let none = Seq::<Tag>::empty();
    let last = if st.block is Fence {
        seq![Piece::Close(Tag::Pre)]
    } else {
        Seq::empty()
    };
    lemma_close_all_takes(st);
    lemma_takes_close(none, Tag::Pre);
    assert(none.push(Tag::Pre) =~= seq![Tag::Pre]);
    lemma_takes_add(stack_of(st), close_all(st), stack_of(settled(st)), last, none);
}

/// The lines of a document, read from a state, close what that state
/// held open and whatever they open themselves, innermost first.
pub proof fn lemma_run_nests(st: State, ls: Seq<Seq<char>>)
    requires
        exclusive(st),
    ensures
        takes(stack_of(st), run_lines(st, ls), Seq::empty()),
    decreases ls.len(),
{
    if ls.len() == 0 {
        lemma_finish_nests(st);
    } else {
        let step = line_step(st, ls[0]);
        lemma_line_nests(st, ls[0]);
        lemma_line_keeps_exclusive(st, ls[0]);
        lemma_run_nests(step.state, ls.skip(1));
        lemma_takes_add(
            stack_of(st),
            step.pieces,
            stack_of(step.state),
            run_lines(step.state, ls.skip(1)),
            Seq::empty(),
        );
    }
}

/// Nested tags: a stack run over what any document is turned into never
/// meets the end tag of a block element other than the innermost one
/// open, and is empty at the end. Lists, items, paragraphs, headings,
/// code blocks, blockquotes, tables, rows and cells are thus closed in
/// the reverse of the order in which they were opened.
pub proof fn lemma_document_nests(text: Seq<char>)
    ensures
        simulate(Seq::empty(), document(text)) == Some(Seq::<Tag>::empty()),
{
    lemma_run_nests(State::initial(), lines(text));
}

} // verus!
