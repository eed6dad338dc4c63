//! Balance: every element that a document opens, it also closes.
//!
//! Tags are counted as pieces, not as substrings of the output: text that
//! is copied through verbatim, such as a link target, may contain
//! anything.

use vstd::prelude::*;
use crate::block::{blank_line, close_all, close_block, close_cell, close_lists, close_mark};
use crate::block::{close_marks, continuation_line, document, fence_line, finish, heading_line};
use crate::block::{item_line, line_step, paragraph_line, pre_line, quote_line, row_line};
use crate::block::{rule_line, run_lines, settled};
use crate::inline::{anchor_rule, br_rule, checkbox_rule, escape_rule, img_rule, inline_step};
use crate::inline::{inline_text, link_rule, markup_rule, text_rule, toggle_rule, Step};
use crate::block::{fence_text, heading_level};
use crate::list::{grown, item_depth, marker_len, opening, reconcile, reconciled, unwind};
use crate::markup::{ListKind, Mark, Piece, Tag};
use crate::table::{cell_of, cell_rule};
use crate::state::{Block, Marks, State};
use crate::text::{at, escaped, find, lines, starts2, starts_repeated, trim, Escape};

verus! {

/// How many pieces of `pieces` open the element `tag`.
pub open spec fn opened(pieces: Seq<Piece>, tag: Tag) -> nat
    decreases pieces.len(),
{
    if pieces.len() == 0 {
        0
    } else {
        opened(pieces.drop_last(), tag) + if pieces.last().opens() == Some(tag) {
            1nat
        } else {
            0nat
        }
    }
}

/// How many pieces of `pieces` close the element `tag`.
pub open spec fn closed(pieces: Seq<Piece>, tag: Tag) -> nat
    decreases pieces.len(),
{
    if pieces.len() == 0 {
        0
    } else {
        closed(pieces.drop_last(), tag) + if pieces.last().closes() == Some(tag) {
            1nat
        } else {
            0nat
        }
    }
}

/// How many more times `pieces` open `tag` than they close it.
pub open spec fn surplus(pieces: Seq<Piece>, tag: Tag) -> int {
    opened(pieces, tag) - closed(pieces, tag)
}

/// How many of `lists` are of the kind `kind`.
pub open spec fn count_kind(lists: Seq<ListKind>, kind: ListKind) -> nat
    decreases lists.len(),
{
    if lists.len() == 0 {
        0
    } else {
        count_kind(lists.drop_last(), kind) + if lists.last() == kind {
            1nat
        } else {
            0nat
        }
    }
}

/// How many elements `tag` a state holds open.
pub open spec fn open_in(st: State, tag: Tag) -> nat {
    match tag {
        Tag::Heading(_) => 0,
        Tag::Paragraph => if st.block is Paragraph {
            1
        } else {
            0
        },
        Tag::List(kind) => count_kind(st.lists, kind),
        Tag::Item => if st.lists.len() > 0 {
            1
        } else {
            0
        },
        Tag::Pre => if st.block is PreCode || st.block is Fence {
            1
        } else {
            0
        },
        Tag::Blockquote => if st.block is Blockquote {
            1
        } else {
            0
        },
        Tag::Table | Tag::Row => if st.block is Table {
            1
        } else {
            0
        },
        Tag::Cell(kind) => if st.block == (Block::Table { pending: Some(kind) }) {
            1
        } else {
            0
        },
        Tag::Span(m) => if st.marks.get(m) {
            1
        } else {
            0
        },
        Tag::Link => 0,
    }
}

/// What one piece adds to the surplus of `tag`.
pub open spec fn delta(p: Piece, tag: Tag) -> int {
    (if p.opens() == Some(tag) {
        1int
    } else {
        0int
    }) - (if p.closes() == Some(tag) {
        1int
    } else {
        0int
    })
}

/// Whether writing `pieces` accounts for the change from `before` to
/// `after`: what was opened and not closed is open, and nothing else.
pub open spec fn accounts(before: State, pieces: Seq<Piece>, after: State, tag: Tag) -> bool {
    surplus(pieces, tag) == open_in(after, tag) - open_in(before, tag)
}

/// The surplus of a sequence with one more piece.
pub proof fn lemma_surplus_push(a: Seq<Piece>, p: Piece, tag: Tag)
    ensures
        surplus(a.push(p), tag) == surplus(a, tag) + delta(p, tag),
{
    assert(a.push(p).drop_last() =~= a);
    assert(a.push(p).last() == p);
}

/// The surplus of one piece.
pub proof fn lemma_surplus_one(p: Piece, tag: Tag)
    ensures
        surplus(seq![p], tag) == delta(p, tag),
{
    lemma_surplus_push(Seq::empty(), p, tag);
}

/// The surplus of two pieces.
pub proof fn lemma_surplus_two(p: Piece, q: Piece, tag: Tag)
    ensures
        surplus(seq![p, q], tag) == delta(p, tag) + delta(q, tag),
{
    lemma_surplus_one(p, tag);
    lemma_surplus_push(seq![p], q, tag);
    assert(seq![p].push(q) =~= seq![p, q]);
}

/// The surplus of two sequences, one after the other, is the sum of
/// theirs.
pub proof fn lemma_surplus_add(a: Seq<Piece>, b: Seq<Piece>, tag: Tag)
    ensures
        surplus(a + b, tag) == surplus(a, tag) + surplus(b, tag),
    decreases b.len(),
{
    if b.len() == 0 {
        assert(a + b =~= a);
    } else {
        lemma_surplus_add(a, b.drop_last(), tag);
        assert((a + b).drop_last() =~= a + b.drop_last());
        assert((a + b).last() == b.last());
    }
}

/// Counting the kinds of a stack with one more level.
proof fn lemma_count_push(lists: Seq<ListKind>, last: ListKind, kind: ListKind)
    ensures
        count_kind(lists.push(last), kind) == count_kind(lists, kind) + if last == kind {
            1nat
        } else {
            0nat
        },
{
    assert(lists.push(last).drop_last() =~= lists);
    assert(lists.push(last).last() == last);
}

/// What the tags of lists add to the surplus of `tag`: the difference
/// that they make to the stack if `tag` is a list, and nothing if not.
pub open spec fn list_change(before: Seq<ListKind>, after: Seq<ListKind>, tag: Tag) -> int {
    match tag {
        Tag::List(kind) => count_kind(after, kind) - count_kind(before, kind),
        _ => 0,
    }
}

/// Closing the lists above a depth closes one list of each kind for each
/// level that goes.
proof fn lemma_unwind(lists: Seq<ListKind>, keep: int, tag: Tag)
    requires
        0 <= keep <= lists.len(),
    ensures
        surplus(unwind(lists, keep), tag) == list_change(lists, lists.take(keep), tag),
    decreases lists.len(),
{
    if lists.len() <= keep {
        assert(lists.take(keep) =~= lists);
    } else {
        let rest = lists.drop_last();
        let close = Piece::Close(Tag::List(lists.last()));
        lemma_unwind(rest, keep, tag);
        assert(rest.take(keep) =~= lists.take(keep));
        lemma_surplus_one(close, tag);
        lemma_surplus_add(seq![close], unwind(rest, keep), tag);
    }
}

/// Opening `n` lists of a kind opens `n` lists of that kind.
proof fn lemma_opening(lists: Seq<ListKind>, kind: ListKind, n: nat, tag: Tag)
    ensures
        surplus(opening(kind, n), tag) == list_change(lists, grown(lists, kind, n), tag),
        grown(lists, kind, n).len() == lists.len() + n,
    decreases n,
{
    if n > 0 {
        let m = (n - 1) as nat;
        lemma_opening(lists, kind, m, tag);
        lemma_surplus_push(opening(kind, m), Piece::Open(Tag::List(kind)), tag);
        match tag {
            Tag::List(k) => {
                lemma_count_push(grown(lists, kind, m), kind, k);
            },
            _ => {},
        }
    }
}

/// Bringing the lists to a depth accounts for the change of the stack.
proof fn lemma_reconcile(lists: Seq<ListKind>, depth: int, kind: ListKind, tag: Tag)
    requires
        depth >= 1,
    ensures
        surplus(reconcile(lists, depth, kind), tag) == list_change(
            lists,
            reconciled(lists, depth, kind),
            tag,
        ),
        reconciled(lists, depth, kind).len() == depth,
{
    if depth <= lists.len() {
        lemma_unwind(lists, depth, tag);
    } else {
        lemma_opening(lists, kind, (depth - lists.len()) as nat, tag);
    }
}

/// Closing one span closes it if it is open.
proof fn lemma_close_mark(st: State, m: Mark, tag: Tag)
    ensures
        surplus(close_mark(st.marks, m), tag) == if tag == Tag::Span(m) {
            -(open_in(st, tag) as int)
        } else {
            0
        },
{
    if st.marks.get(m) {
        lemma_surplus_one(Piece::Close(Tag::Span(m)), tag);
    }
}

/// Closing the spans closes each open span once.
proof fn lemma_close_marks(st: State, tag: Tag)
    ensures
        surplus(close_marks(st.marks), tag) == match tag {
            Tag::Span(m) => -(open_in(st, tag) as int),
            _ => 0,
        },
{
    let m = st.marks;
    let a1 = close_mark(m, Mark::Strong);
    let a2 = a1 + close_mark(m, Mark::Em);
    let a3 = a2 + close_mark(m, Mark::Del);
    let a4 = a3 + close_mark(m, Mark::Ins);
    let a5 = a4 + close_mark(m, Mark::Highlight);
    let a6 = a5 + close_mark(m, Mark::Code);
    lemma_close_mark(st, Mark::Strong, tag);
    lemma_close_mark(st, Mark::Em, tag);
    lemma_close_mark(st, Mark::Del, tag);
    lemma_close_mark(st, Mark::Ins, tag);
    lemma_close_mark(st, Mark::Highlight, tag);
    lemma_close_mark(st, Mark::Code, tag);
    lemma_close_mark(st, Mark::Sup, tag);
    lemma_surplus_add(a1, close_mark(m, Mark::Em), tag);
    lemma_surplus_add(a2, close_mark(m, Mark::Del), tag);
    lemma_surplus_add(a3, close_mark(m, Mark::Ins), tag);
    lemma_surplus_add(a4, close_mark(m, Mark::Highlight), tag);
    lemma_surplus_add(a5, close_mark(m, Mark::Code), tag);
    lemma_surplus_add(a6, close_mark(m, Mark::Sup), tag);
}

/// Closing the lists closes the item and each list once.
proof fn lemma_close_lists(st: State, tag: Tag)
    ensures
        surplus(close_lists(st.lists), tag) == match tag {
            Tag::List(_) | Tag::Item => -(open_in(st, tag) as int),
            _ => 0,
        },
{
    if st.lists.len() > 0 {
        let item = Piece::Close(Tag::Item);
        let feed = Piece::Text("\n"@);
        lemma_unwind(st.lists, 0, tag);
        assert(st.lists.take(0) =~= Seq::<ListKind>::empty());
        lemma_surplus_one(item, tag);
        lemma_surplus_one(feed, tag);
        lemma_surplus_add(seq![item], unwind(st.lists, 0), tag);
        lemma_surplus_add(seq![item] + unwind(st.lists, 0), seq![feed], tag);
    }
}

/// Closing the open cell closes it.
proof fn lemma_close_cell(st: State, tag: Tag)
    requires
        st.block is Table,
    ensures
        surplus(close_cell(st.block->pending), tag) == match tag {
            Tag::Cell(_) => -(open_in(st, tag) as int),
            _ => 0,
        },
{
    match st.block->pending {
        Some(kind) => {
            lemma_surplus_one(Piece::Close(Tag::Cell(kind)), tag);
        },
        None => {},
    }
}

/// Closing the block closes what the block holds open, a fence apart.
proof fn lemma_close_block(st: State, tag: Tag)
    ensures
        surplus(close_block(st.block), tag) == match tag {
            Tag::Paragraph | Tag::Blockquote | Tag::Table | Tag::Row | Tag::Cell(_) => -(open_in(
                st,
                tag,
            ) as int),
            Tag::Pre => if st.block is PreCode {
                -1
            } else {
                0
            },
            _ => 0,
        },
{
    match st.block {
        Block::Idle => {},
        Block::Paragraph => {
            lemma_surplus_one(Piece::Close(Tag::Paragraph), tag);
        },
        Block::PreCode => {
            lemma_surplus_one(Piece::Close(Tag::Pre), tag);
        },
        Block::Blockquote => {
            lemma_surplus_one(Piece::Close(Tag::Blockquote), tag);
        },
        Block::Table { pending } => {
            lemma_close_cell(st, tag);
            lemma_surplus_two(Piece::Close(Tag::Row), Piece::Close(Tag::Table), tag);
            lemma_surplus_add(
                close_cell(pending),
                seq![Piece::Close(Tag::Row), Piece::Close(Tag::Table)],
                tag,
            );
        },
        Block::Fence { first } => {},
    }
}

/// Closing everything leaves nothing open but a code fence.
proof fn lemma_close_all(st: State, tag: Tag)
    ensures
        accounts(st, close_all(st), settled(st), tag),
{
    lemma_close_marks(st, tag);
    lemma_close_lists(st, tag);
    lemma_close_block(st, tag);
    lemma_surplus_add(close_marks(st.marks), close_lists(st.lists), tag);
    lemma_surplus_add(close_marks(st.marks) + close_lists(st.lists), close_block(st.block), tag);
    assert(count_kind(Seq::empty(), ListKind::Ordered) == 0);
}

/// Whether a step keeps count: its pieces account for the change of
/// state, and neither the lists nor the kind of block change.
pub open spec fn tame(st: State, step: Step, tag: Tag) -> bool {
    &&& accounts(st, step.pieces, step.state, tag)
    &&& step.state.lists == st.lists
    &&& step.state.block is Table <==> st.block is Table
    &&& !(st.block is Table) ==> step.state.block == st.block
}

/// A step that writes one piece which neither opens nor closes, and
/// leaves the state as it is, keeps count.
proof fn lemma_plain_step(st: State, step: Step, p: Piece, tag: Tag)
    requires
        step.state == st,
        step.pieces == seq![p],
        p.opens() is None,
        p.closes() is None,
    ensures
        tame(st, step, tag),
{
    lemma_surplus_one(p, tag);
}

/// The rules that write one plain piece keep count.
proof fn lemma_plain_rules(st: State, s: Seq<char>, tag: Tag)
    ensures
        escape_rule(st, s) is Some ==> tame(st, escape_rule(st, s)->0, tag),
        br_rule(st, s) is Some ==> tame(st, br_rule(st, s)->0, tag),
        anchor_rule(st, s) is Some ==> tame(st, anchor_rule(st, s)->0, tag),
        checkbox_rule(st, s, false) is Some ==> tame(st, checkbox_rule(st, s, false)->0, tag),
        checkbox_rule(st, s, true) is Some ==> tame(st, checkbox_rule(st, s, true)->0, tag),
{
    match escape_rule(st, s) {
        Some(step) => {
            lemma_plain_step(st, step, step.pieces[0], tag);
        },
        None => {},
    }
    match br_rule(st, s) {
        Some(step) => {
            lemma_plain_step(st, step, step.pieces[0], tag);
        },
        None => {},
    }
    match anchor_rule(st, s) {
        Some(step) => {
            lemma_plain_step(st, step, step.pieces[0], tag);
        },
        None => {},
    }
    match checkbox_rule(st, s, false) {
        Some(step) => {
            lemma_plain_step(st, step, step.pieces[0], tag);
        },
        None => {},
    }
    match checkbox_rule(st, s, true) {
        Some(step) => {
            lemma_plain_step(st, step, step.pieces[0], tag);
        },
        None => {},
    }
}

/// Plain text keeps count.
proof fn lemma_text_rule(st: State, s: Seq<char>, tag: Tag)
    ensures
        tame(st, text_rule(st, s), tag),
{
    let step = text_rule(st, s);
    if step.pieces.len() > 0 {
        lemma_plain_step(st, step, step.pieces[0], tag);
    }
}

/// A toggle keeps count.
proof fn lemma_toggle_rule(st: State, s: Seq<char>, m: Mark, tag: Tag)
    ensures
        toggle_rule(st, s, m) is Some ==> tame(st, toggle_rule(st, s, m)->0, tag),
{
    match toggle_rule(st, s, m) {
        Some(step) => {
            lemma_surplus_one(step.pieces[0], tag);
        },
        None => {},
    }
}

/// A cell delimiter keeps count.
proof fn lemma_cell_rule(st: State, s: Seq<char>, tag: Tag)
    ensures
        cell_rule(st, s) is Some ==> tame(st, cell_rule(st, s)->0, tag),
{
    match cell_rule(st, s) {
        Some(step) => {
            let open = Piece::OpenCell(cell_of(s.skip(1)));
            lemma_close_cell(st, tag);
            lemma_surplus_one(open, tag);
            lemma_surplus_add(close_cell(st.block->pending), seq![open], tag);
        },
        None => {},
    }
}

/// A link keeps count.
proof fn lemma_link_rule(st: State, s: Seq<char>, tag: Tag)
    ensures
        link_rule(st, s) is Some ==> tame(st, link_rule(st, s)->0, tag),
    decreases s.len(), 0int,
{
    if at(s, 0, '[') {
        match find(s, ']') {
            None => {
                lemma_surplus_one(Piece::Text("["@), tag);
            },
            Some(i) => {
                if 1 <= i < s.len() {
                    lemma_inline_accounts(st, s.subrange(1, i), tag);
                    let label = inline_text(st, s.subrange(1, i));
                    let step = link_rule(st, s)->0;
                    let first = step.pieces[0];
                    let u = s.skip(i + 1);
                    let tail = if !at(u, 0, '(') {
                        seq![Piece::Text("]"@)]
                    } else if find(u.skip(1), ')') is None {
                        seq![Piece::Text("]"@), Piece::Text("("@)]
                    } else {
                        seq![Piece::Close(Tag::Link)]
                    };
                    assert(step.pieces == seq![first] + label.pieces + tail);
                    lemma_surplus_one(first, tag);
                    lemma_surplus_one(Piece::Text("]"@), tag);
                    lemma_surplus_one(Piece::Close(Tag::Link), tag);
                    lemma_surplus_two(Piece::Text("]"@), Piece::Text("("@), tag);
                    lemma_surplus_add(seq![first], label.pieces, tag);
                    lemma_surplus_add(seq![first] + label.pieces, tail, tag);
                }
            },
        }
    }
}

/// An image keeps count.
proof fn lemma_img_rule(st: State, s: Seq<char>, tag: Tag)
    ensures
        img_rule(st, s) is Some ==> tame(st, img_rule(st, s)->0, tag),
    decreases s.len(), 0int,
{
    if starts2(s, '!', '[') {
        let t = s.skip(2);
        match find(t, ']') {
            None => {
                lemma_surplus_one(Piece::Text("!["@), tag);
            },
            Some(i) => {
                if 0 <= i < t.len() {
                    lemma_inline_accounts(st, t.take(i), tag);
                    let label = inline_text(st, t.take(i));
                    let step = img_rule(st, s)->0;
                    let first = step.pieces[0];
                    let u = t.skip(i + 1);
                    let v = u.skip(1);
                    let tail = if !at(u, 0, '(') {
                        seq![Piece::Text("]"@)]
                    } else if find(v, ')') is None {
                        seq![Piece::Text("]"@), Piece::Text("("@)]
                    } else {
                        seq![Piece::ImageEnd(v.take(find(v, ')')->0))]
                    };
                    assert(step.pieces == seq![first] + label.pieces + tail);
                    lemma_surplus_one(first, tag);
                    lemma_surplus_one(Piece::Text("]"@), tag);
                    lemma_surplus_one(tail[0], tag);
                    lemma_surplus_two(Piece::Text("]"@), Piece::Text("("@), tag);
                    lemma_surplus_add(seq![first], label.pieces, tag);
                    lemma_surplus_add(seq![first] + label.pieces, tail, tag);
                }
            },
        }
    }
}

/// The markup rules keep count.
proof fn lemma_markup_rule(st: State, s: Seq<char>, tag: Tag)
    ensures
        markup_rule(st, s) is Some ==> tame(st, markup_rule(st, s)->0, tag),
    decreases s.len(), 1int,
{
    lemma_plain_rules(st, s, tag);
    lemma_toggle_rule(st, s, Mark::Strong, tag);
    lemma_toggle_rule(st, s, Mark::Em, tag);
    lemma_toggle_rule(st, s, Mark::Del, tag);
    lemma_toggle_rule(st, s, Mark::Ins, tag);
    lemma_toggle_rule(st, s, Mark::Highlight, tag);
    lemma_toggle_rule(st, s, Mark::Sup, tag);
    lemma_link_rule(st, s, tag);
    lemma_img_rule(st, s, tag);
    lemma_cell_rule(st, s, tag);
}

/// One inline step keeps count.
proof fn lemma_step_accounts(st: State, s: Seq<char>, tag: Tag)
    ensures
        tame(st, inline_step(st, s), tag),
    decreases s.len(), 2int,
{
    lemma_plain_rules(st, s, tag);
    lemma_markup_rule(st, s, tag);
    lemma_toggle_rule(st, s, Mark::Code, tag);
    lemma_text_rule(st, s, tag);
}

/// An inline run accounts for the change of state that it makes, and
/// leaves the lists and the kind of block as they are.
pub proof fn lemma_inline_accounts(st: State, s: Seq<char>, tag: Tag)
    ensures
        tame(
            st,
            Step {
                state: inline_text(st, s).state,
                rest: Seq::empty(),
                pieces: inline_text(st, s).pieces,
            },
            tag,
        ),
    decreases s.len(), 3int,
{
    if s.len() > 0 {
        lemma_step_accounts(st, s, tag);
        let step = inline_step(st, s);
        if step.rest.len() < s.len() {
            lemma_inline_accounts(step.state, step.rest, tag);
            lemma_surplus_add(step.pieces, inline_text(step.state, step.rest).pieces, tag);
        }
    }
}

/// An empty line keeps count.
proof fn lemma_blank_line(st: State, tag: Tag)
    ensures
        accounts(st, blank_line(st).pieces, blank_line(st).state, tag),
{
    lemma_close_all(st, tag);
    lemma_surplus_one(Piece::Text("\n"@), tag);
    lemma_surplus_add(close_all(st), seq![Piece::Text("\n"@)], tag);
}

/// A heading keeps count.
proof fn lemma_heading_line(st: State, line: Seq<char>, tag: Tag)
    ensures
        accounts(st, heading_line(st, line).pieces, heading_line(st, line).state, tag),
{
    let level = heading_level(line);
    let cleared = State { marks: Marks::none(), ..st };
    let text = trim(line.skip(level as int));
    let body = inline_text(cleared, text);
    let open = Piece::Open(Tag::Heading(level));
    let close = Piece::Close(Tag::Heading(level));
    lemma_close_marks(st, tag);
    lemma_inline_accounts(cleared, text, tag);
    lemma_surplus_one(open, tag);
    lemma_surplus_one(close, tag);
    lemma_surplus_add(close_marks(st.marks), seq![open], tag);
    lemma_surplus_add(close_marks(st.marks) + seq![open], body.pieces, tag);
    lemma_surplus_add(close_marks(st.marks) + seq![open] + body.pieces, seq![close], tag);
}

/// A horizontal rule keeps count.
proof fn lemma_rule_line(st: State, tag: Tag)
    ensures
        accounts(st, rule_line(st).pieces, rule_line(st).state, tag),
{
    lemma_close_marks(st, tag);
    lemma_surplus_one(Piece::Rule, tag);
    lemma_surplus_add(close_marks(st.marks), seq![Piece::Rule], tag);
}

/// A list item keeps count.
proof fn lemma_item_line(st: State, line: Seq<char>, kind: ListKind, tag: Tag)
    ensures
        accounts(st, item_line(st, line, kind).pieces, item_line(st, line, kind).state, tag),
{
    let depth = item_depth(line);
    let lists = reconciled(st.lists, depth, kind);
    let entered = State { block: st.block, lists, marks: Marks::none() };
    let text = trim(trim(line).skip(marker_len(kind)));
    let body = inline_text(entered, text);
    let previous = if st.lists.len() > 0 {
        seq![Piece::Close(Tag::Item)]
    } else {
        Seq::empty()
    };
    let tags = reconcile(st.lists, depth, kind);
    let open = Piece::Open(Tag::Item);
    lemma_close_marks(st, tag);
    lemma_reconcile(st.lists, depth, kind, tag);
    lemma_inline_accounts(entered, text, tag);
    lemma_surplus_one(Piece::Close(Tag::Item), tag);
    lemma_surplus_one(open, tag);
    let a1 = close_marks(st.marks);
    let a2 = a1 + previous;
    let a3 = a2 + tags;
    let a4 = a3 + seq![open];
    lemma_surplus_add(a1, previous, tag);
    lemma_surplus_add(a2, tags, tag);
    lemma_surplus_add(a3, seq![open], tag);
    lemma_surplus_add(a4, body.pieces, tag);
}

/// A line of indented code keeps count.
proof fn lemma_pre_line(st: State, line: Seq<char>, tag: Tag)
    requires
        st.block is Idle || st.block is PreCode,
    ensures
        accounts(st, pre_line(st, line).pieces, pre_line(st, line).state, tag),
{
    let entry = if st.block is PreCode {
        Piece::Text("\n"@)
    } else {
        Piece::Open(Tag::Pre)
    };
    let text = Piece::Text(escaped(line.skip(4), Escape::Code));
    lemma_close_marks(st, tag);
    lemma_surplus_two(entry, text, tag);
    lemma_surplus_add(close_marks(st.marks), seq![entry, text], tag);
}

/// A line of a code fence keeps count.
proof fn lemma_fence_line(st: State, line: Seq<char>, tag: Tag)
    requires
        st.block is Idle || st.block is Fence,
    ensures
        accounts(st, fence_line(st, line).pieces, fence_line(st, line).state, tag),
{
    lemma_close_marks(st, tag);
    let marks = close_marks(st.marks);
    match st.block {
        Block::Fence { first } => {
            if starts_repeated(line, '`', 3) {
                lemma_surplus_one(Piece::Close(Tag::Pre), tag);
                lemma_surplus_add(marks, seq![Piece::Close(Tag::Pre)], tag);
            } else {
                let between = if first {
                    Seq::empty()
                } else {
                    seq![Piece::Text("\n"@)]
                };
                let text = Piece::Text(fence_text(line));
                lemma_surplus_one(Piece::Text("\n"@), tag);
                lemma_surplus_one(text, tag);
                lemma_surplus_add(marks, between, tag);
                lemma_surplus_add(marks + between, seq![text], tag);
            }
        },
        _ => {
            let open = fence_line(st, line).pieces.last();
            assert(fence_line(st, line).pieces == marks + seq![open]);
            lemma_surplus_one(open, tag);
            lemma_surplus_add(marks, seq![open], tag);
        },
    }
}

/// A line of a blockquote keeps count.
proof fn lemma_quote_line(st: State, line: Seq<char>, tag: Tag)
    requires
        st.block is Idle || st.block is Blockquote,
    ensures
        accounts(st, quote_line(st, line).pieces, quote_line(st, line).state, tag),
{
    let entered = State {
        block: Block::Blockquote,
        lists: st.lists,
        marks: if st.block is Blockquote {
            st.marks
        } else {
            Marks::none()
        },
    };
    let entry = if st.block is Blockquote {
        seq![Piece::Text("\n"@)]
    } else {
        close_marks(st.marks) + seq![Piece::Open(Tag::Blockquote)]
    };
    lemma_close_marks(st, tag);
    lemma_surplus_one(Piece::Text("\n"@), tag);
    lemma_surplus_one(Piece::Open(Tag::Blockquote), tag);
    lemma_surplus_add(close_marks(st.marks), seq![Piece::Open(Tag::Blockquote)], tag);
    assert(accounts(st, entry, entered, tag));
    match br_rule(entered, line.skip(1)) {
        Some(step) => {
            lemma_plain_rules(entered, line.skip(1), tag);
            lemma_surplus_add(entry, step.pieces, tag);
        },
        None => {
            let text = trim(line.skip(1));
            lemma_inline_accounts(entered, text, tag);
            lemma_surplus_add(entry, inline_text(entered, text).pieces, tag);
        },
    }
}

/// A row of a table keeps count.
proof fn lemma_row_line(st: State, line: Seq<char>, tag: Tag)
    requires
        st.block is Idle || st.block is Table,
    ensures
        accounts(st, row_line(st, line).pieces, row_line(st, line).state, tag),
{
    let entered = State {
        block: Block::Table { pending: None },
        lists: st.lists,
        marks: Marks::none(),
    };
    let entry = match st.block {
        Block::Table { pending } => close_cell(pending) + seq![
            Piece::Close(Tag::Row),
            Piece::Open(Tag::Row),
        ],
        _ => seq![Piece::Open(Tag::Table), Piece::Open(Tag::Row)],
    };
    lemma_close_marks(st, tag);
    match st.block {
        Block::Table { pending } => {
            lemma_close_cell(st, tag);
            lemma_surplus_two(Piece::Close(Tag::Row), Piece::Open(Tag::Row), tag);
            lemma_surplus_add(
                close_cell(pending),
                seq![Piece::Close(Tag::Row), Piece::Open(Tag::Row)],
                tag,
            );
        },
        _ => {
            lemma_surplus_two(Piece::Open(Tag::Table), Piece::Open(Tag::Row), tag);
        },
    }
    lemma_inline_accounts(entered, line, tag);
    lemma_surplus_add(close_marks(st.marks), entry, tag);
    lemma_surplus_add(close_marks(st.marks) + entry, inline_text(entered, line).pieces, tag);
}

/// A line that goes on with a list item keeps count.
proof fn lemma_continuation_line(st: State, line: Seq<char>, tag: Tag)
    ensures
        accounts(st, continuation_line(st, line).pieces, continuation_line(st, line).state, tag),
{
    lemma_inline_accounts(st, trim(line), tag);
    lemma_surplus_one(Piece::Text("\n"@), tag);
    lemma_surplus_add(seq![Piece::Text("\n"@)], inline_text(st, trim(line)).pieces, tag);
}

/// A line of a paragraph keeps count.
proof fn lemma_paragraph_line(st: State, line: Seq<char>, tag: Tag)
    requires
        !(st.block is Fence),
    ensures
        accounts(st, paragraph_line(st, line).pieces, paragraph_line(st, line).state, tag),
{
    let entered = State {
        block: Block::Paragraph,
        lists: st.lists,
        marks: if st.block is Paragraph {
            st.marks
        } else {
            Marks::none()
        },
    };
    let entry = if st.block is Paragraph {
        seq![Piece::Text("\n"@)]
    } else {
        close_marks(st.marks) + close_block(st.block) + seq![Piece::Open(Tag::Paragraph)]
    };
    lemma_close_marks(st, tag);
    lemma_close_block(st, tag);
    lemma_surplus_one(Piece::Text("\n"@), tag);
    lemma_surplus_one(Piece::Open(Tag::Paragraph), tag);
    lemma_surplus_add(close_marks(st.marks), close_block(st.block), tag);
    lemma_surplus_add(
        close_marks(st.marks) + close_block(st.block),
        seq![Piece::Open(Tag::Paragraph)],
        tag,
    );
    assert(accounts(st, entry, entered, tag));
    let slash = Piece::Text(line.subrange(1, 2));
    lemma_surplus_one(slash, tag);
    lemma_surplus_add(entry, seq![slash], tag);
    lemma_inline_accounts(entered, line, tag);
    lemma_inline_accounts(entered, line.skip(1), tag);
    lemma_inline_accounts(entered, line.skip(2), tag);
    lemma_surplus_add(entry, inline_text(entered, line).pieces, tag);
    lemma_surplus_add(entry, inline_text(entered, line.skip(1)).pieces, tag);
    lemma_surplus_add(entry + seq![slash], inline_text(entered, line.skip(2)).pieces, tag);
}

/// Every line keeps count: its pieces account for the change of state
/// that it makes.
pub proof fn lemma_line_accounts(st: State, line: Seq<char>, tag: Tag)
    ensures
        accounts(st, line_step(st, line).pieces, line_step(st, line).state, tag),
{
    lemma_blank_line(st, tag);
    lemma_heading_line(st, line, tag);
    lemma_rule_line(st, tag);
    lemma_item_line(st, line, ListKind::Unordered, tag);
    lemma_item_line(st, line, ListKind::Ordered, tag);
    if st.block is Idle || st.block is PreCode {
        lemma_pre_line(st, line, tag);
    }
    if st.block is Idle || st.block is Fence {
        lemma_fence_line(st, line, tag);
    }
    if st.block is Idle || st.block is Blockquote {
        lemma_quote_line(st, line, tag);
    }
    if st.block is Idle || st.block is Table {
        lemma_row_line(st, line, tag);
    }
    lemma_continuation_line(st, line, tag);
    if !(st.block is Fence) {
        lemma_paragraph_line(st, line, tag);
    }
}

/// The end of the document closes whatever is open.
proof fn lemma_finish(st: State, tag: Tag)
    ensures
        surplus(finish(st), tag) == -(open_in(st, tag) as int),
{
    let last = if st.block is Fence {
        seq![Piece::Close(Tag::Pre)]
    } else {
        Seq::empty()
    };
    lemma_close_all(st, tag);
    lemma_surplus_one(Piece::Close(Tag::Pre), tag);
    lemma_surplus_add(close_all(st), last, tag);
    assert(count_kind(Seq::empty(), ListKind::Ordered) == 0);
}

/// The lines of a document, read from any state, close what that state
/// held open and whatever they open themselves.
pub proof fn lemma_run_lines(st: State, ls: Seq<Seq<char>>, tag: Tag)
    ensures
        surplus(run_lines(st, ls), tag) == -(open_in(st, tag) as int),
    decreases ls.len(),
{
    if ls.len() == 0 {
        lemma_finish(st, tag);
    } else {
        let step = line_step(st, ls[0]);
        lemma_line_accounts(st, ls[0], tag);
        lemma_run_lines(step.state, ls.skip(1), tag);
        lemma_surplus_add(step.pieces, run_lines(step.state, ls.skip(1)), tag);
    }
}

/// Balanced tags: in what any document is turned into, every element is
/// opened as many times as it is closed. This holds of each kind of
/// list, of list items, paragraphs, headings, code blocks, blockquotes,
/// tables, rows and cells, and of the inline spans and links as well.
pub proof fn lemma_document_balanced(text: Seq<char>, tag: Tag)
    ensures
        opened(document(text), tag) == closed(document(text), tag),
{
    lemma_run_lines(State::initial(), lines(text), tag);
    assert(count_kind(Seq::empty(), ListKind::Ordered) == 0);
}

/// Whether at most one kind of block is open: while a list is open, no
/// other block is.
pub open spec fn exclusive(st: State) -> bool {
    st.lists.len() > 0 ==> st.block is Idle
}

/// One block at a time: a document starts with nothing open, and no line
/// leaves a list open together with another block.
pub proof fn lemma_line_keeps_exclusive(st: State, line: Seq<char>)
    requires
        exclusive(st),
    ensures
        exclusive(State::initial()),
        exclusive(line_step(st, line).state),
{
    let tag = Tag::Item;
    let cleared = State { marks: Marks::none(), ..st };
    lemma_inline_accounts(cleared, trim(line.skip(heading_level(line) as int)), tag);
    lemma_inline_accounts(
        State {
            block: st.block,
            lists: reconciled(st.lists, item_depth(line), ListKind::Unordered),
            marks: Marks::none(),
        },
        trim(trim(line).skip(marker_len(ListKind::Unordered))),
        tag,
    );
    lemma_inline_accounts(
        State {
            block: st.block,
            lists: reconciled(st.lists, item_depth(line), ListKind::Ordered),
            marks: Marks::none(),
        },
        trim(trim(line).skip(marker_len(ListKind::Ordered))),
        tag,
    );
    let quoted = State {
        block: Block::Blockquote,
        lists: st.lists,
        marks: if st.block is Blockquote {
            st.marks
        } else {
            Marks::none()
        },
    };
    lemma_inline_accounts(quoted, trim(line.skip(1)), tag);
    lemma_inline_accounts(
        State { block: Block::Table { pending: None }, lists: st.lists, marks: Marks::none() },
        line,
        tag,
    );
    lemma_inline_accounts(st, trim(line), tag);
    let entered = State {
        block: Block::Paragraph,
        lists: st.lists,
        marks: if st.block is Paragraph {
            st.marks
        } else {
            Marks::none()
        },
    };
    lemma_inline_accounts(entered, line, tag);
    lemma_inline_accounts(entered, line.skip(1), tag);
    lemma_inline_accounts(entered, line.skip(2), tag);
}

} // verus!
