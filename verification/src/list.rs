//! List nesting: the stack of open lists, and how it is brought to the
//! depth at which a new item stands.

use vstd::prelude::*;
use crate::markup::{render, ListKind, Piece, Tag};
use crate::parser::{lemma_wrote, lemma_wrote_nothing, push_close, push_open, Parser};
use crate::text::{leading, trim, CharClass};

verus! {

/// The length of the marker of a list item.
pub open spec fn marker_len(kind: ListKind) -> int {
    match kind {
        ListKind::Unordered => 1,
        ListKind::Ordered => 2,
    }
}

/// The depth at which a list item stands: one, and one more for every
/// four spaces before its marker.
pub open spec fn item_depth(line: Seq<char>) -> int {
    leading(line, CharClass::Space) as int / 4 + 1
}

/// The end tags of the lists above depth `keep`, innermost first.
pub open spec fn unwind(lists: Seq<ListKind>, keep: int) -> Seq<Piece>
    decreases lists.len(),
{
    if keep < 0 || lists.len() <= keep {
        Seq::empty()
    } else {
        seq![Piece::Close(Tag::List(lists.last()))] + unwind(lists.drop_last(), keep)
    }
}

/// `n` start tags of a list of the given kind.
pub open spec fn opening(kind: ListKind, n: nat) -> Seq<Piece>
    decreases n,
{
    if n == 0 {
        Seq::empty()
    } else {
        opening(kind, (n - 1) as nat).push(Piece::Open(Tag::List(kind)))
    }
}

/// `lists` with `n` more levels of the given kind.
pub open spec fn grown(lists: Seq<ListKind>, kind: ListKind, n: nat) -> Seq<ListKind>
    decreases n,
{
    if n == 0 {
        lists
    } else {
        grown(lists, kind, (n - 1) as nat).push(kind)
    }
}

/// The open lists once an item at `depth` has been met: cut down to that
/// depth, or deepened to it with lists of the item's kind. The kind
/// matters only where a level is opened.
pub open spec fn reconciled(lists: Seq<ListKind>, depth: int, kind: ListKind) -> Seq<ListKind> {
    if depth <= lists.len() {
        lists.take(depth)
    } else {
        grown(lists, kind, (depth - lists.len()) as nat)
    }
}

/// The tags that take the open lists to `depth`: end tags where the item
/// stands further out, start tags where it stands further in, and
/// nothing where it stands level.
pub open spec fn reconcile(lists: Seq<ListKind>, depth: int, kind: ListKind) -> Seq<Piece> {
    if depth <= lists.len() {
        unwind(lists, depth)
    } else {
        opening(kind, (depth - lists.len()) as nat)
    }
}

impl Parser {
    /// Whether a list is open.
    pub(crate) fn in_list(&self) -> (b: bool)
        ensures
            b == (self.lists@.len() > 0),
    {
        self.lists.len() > 0
    }

    /// How many lists are open.
    pub(crate) fn list_level(&self) -> (n: usize)
        ensures
            n == self.lists@.len(),
    {
        self.lists.len()
    }

    /// Moves past the spaces at the head of the line and returns how many
    /// times four of them stood there.
    pub(crate) fn count_indentation_levels(&mut self) -> (levels: usize)
        requires
            old(self).wf(),
        ensures
            final(self).wf(),
            final(self).moved(old(self)),
            final(self).rest() == trim(old(self).rest()),
            levels == leading(old(self).rest(), CharClass::Space) / 4,
            levels <= old(self).rest().len() / 4,
    {
        let n = self.scan(CharClass::Space);
        self.advance(n);
        n / 4
    }

    /// Closes lists until only `depth` are open.
    pub(crate) fn close_levels(&mut self, depth: usize)
        requires
            depth <= old(self).lists@.len(),
        ensures
            *final(self) == (Parser {
                lists: final(self).lists,
                output: final(self).output,
                ..*old(self)
            }),
            final(self).lists@ == old(self).lists@.take(depth as int),
            final(self).wrote(old(self).output@, unwind(old(self).lists@, depth as int)),
    {
        let ghost o = self.output@;
        let ghost lists = self.lists@;
        let ghost goal = unwind(lists, depth as int);
        proof {
            assert(lists.take(lists.len() as int) =~= lists);
            assert(o + render(goal) =~= o + render(goal));
        }
        while self.lists.len() > depth
            invariant
                *self == (Parser { lists: self.lists, output: self.output, ..*old(self) }),
                depth <= self.lists@.len() <= lists.len(),
                self.lists@ == lists.take(self.lists@.len() as int),
                self.output@ + render(unwind(self.lists@, depth as int)) == o + render(goal),
            decreases self.lists@.len(),
        {
            let ghost before = self.lists@;
            let ghost written = self.output@;
            match self.lists.pop() {
                Some(kind) => {
                    push_close(&mut self.output, Tag::List(kind));
                    proof {
                        assert(self.lists@ =~= before.drop_last());
                        assert(before.drop_last() =~= lists.take(before.len() - 1));
                        lemma_wrote(
                            written,
                            seq![Piece::Close(Tag::List(kind))],
                            unwind(self.lists@, depth as int),
                        );
                    }
                },
                None => {},
            }
        }
        proof {
            lemma_wrote_nothing(self.output@);
        }
    }

    /// Opens lists of the given kind until `depth` are open.
    fn open_levels(&mut self, depth: usize, kind: ListKind)
        requires
            old(self).lists@.len() <= depth,
        ensures
            *final(self) == (Parser {
                lists: final(self).lists,
                output: final(self).output,
                ..*old(self)
            }),
            final(self).lists@ == grown(
                old(self).lists@,
                kind,
                (depth - old(self).lists@.len()) as nat,
            ),
            final(self).wrote(
                old(self).output@,
                opening(kind, (depth - old(self).lists@.len()) as nat),
            ),
    {
        let ghost o = self.output@;
        let ghost lists = self.lists@;
        let mut n: usize = self.lists.len();
        proof {
            lemma_wrote_nothing(o);
        }
        while n < depth
            invariant
                *self == (Parser { lists: self.lists, output: self.output, ..*old(self) }),
                lists.len() <= n <= depth,
                lists == old(self).lists@,
                self.lists@ == grown(lists, kind, (n - lists.len()) as nat),
                self.output@ == o + render(opening(kind, (n - lists.len()) as nat)),
            decreases depth - n,
        {
            let ghost m = (n - lists.len()) as nat;
            push_open(&mut self.output, Tag::List(kind));
            self.lists.push(kind);
            proof {
                lemma_wrote(o, opening(kind, m), seq![Piece::Open(Tag::List(kind))]);
                assert(opening(kind, m) + seq![Piece::Open(Tag::List(kind))] =~= opening(
                    kind,
                    m + 1,
                ));
            }
            n = n + 1;
        }
    }

    /// Reads the indentation and the marker of a list item and brings
    /// the open lists to the depth at which the item stands.
    pub(crate) fn handle_list_level_discrepancy(&mut self, kind: ListKind)
        requires
            old(self).wf(),
            marker_len(kind) <= trim(old(self).rest()).len(),
        ensures
            final(self).wf(),
            *final(self) == (Parser {
                pos: final(self).pos,
                lists: final(self).lists,
                output: final(self).output,
                ..*old(self)
            }),
            final(self).rest() == trim(old(self).rest()).skip(marker_len(kind)),
            final(self).lists@ == reconciled(old(self).lists@, item_depth(old(self).rest()), kind),
            final(self).wrote(
                old(self).output@,
                reconcile(old(self).lists@, item_depth(old(self).rest()), kind),
            ),
    {
        let depth = self.count_indentation_levels() + 1;
        self.advance(
            match kind {
                ListKind::Unordered => 1,
                ListKind::Ordered => 2,
            },
        );
        if depth <= self.list_level() {
            self.close_levels(depth);
        } else {
            self.open_levels(depth, kind);
        }
    }
}

} // verus!
