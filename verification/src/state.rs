//! What the parser remembers from one position to the next.

use vstd::prelude::*;
use crate::markup::{CellKind, ListKind, Mark};

verus! {

/// Which inline spans are open. Each is a toggle: a span does not nest in
/// itself, and the spans close in whatever order the text asks for.
#[derive(Clone, Copy, Debug, PartialEq, Eq, Structural)]
pub struct Marks {
    pub strong: bool,
    pub em: bool,
    pub del: bool,
    pub ins: bool,
    pub highlight: bool,
    pub code: bool,
    pub sup: bool,
}

impl Marks {
    /// No span open.
    pub open spec fn none() -> Marks {
        Marks {
            strong: false,
            em: false,
            del: false,
            ins: false,
            highlight: false,
            code: false,
            sup: false,
        }
    }

    /// Whether the span `m` is open.
    pub open spec fn get(self, m: Mark) -> bool {
        match m {
            Mark::Strong => self.strong,
            Mark::Em => self.em,
            Mark::Del => self.del,
            Mark::Ins => self.ins,
            Mark::Highlight => self.highlight,
            Mark::Code => self.code,
            Mark::Sup => self.sup,
        }
    }

    /// These marks with the span `m` open or closed as `on` says.
    pub open spec fn with(self, m: Mark, on: bool) -> Marks {
        match m {
            Mark::Strong => Marks { strong: on, ..self },
            Mark::Em => Marks { em: on, ..self },
            Mark::Del => Marks { del: on, ..self },
            Mark::Ins => Marks { ins: on, ..self },
            Mark::Highlight => Marks { highlight: on, ..self },
            Mark::Code => Marks { code: on, ..self },
            Mark::Sup => Marks { sup: on, ..self },
        }
    }

    /// Executable form of [`Marks::none`].
    pub fn new() -> (m: Marks)
        ensures
            m == Marks::none(),
    {
        Marks {
            strong: false,
            em: false,
            del: false,
            ins: false,
            highlight: false,
            code: false,
            sup: false,
        }
    }

    /// Executable form of [`Marks::get`].
    pub fn is_open(&self, m: Mark) -> (b: bool)
        ensures
            b == self.get(m),
    {
        match m {
            Mark::Strong => self.strong,
            Mark::Em => self.em,
            Mark::Del => self.del,
            Mark::Ins => self.ins,
            Mark::Highlight => self.highlight,
            Mark::Code => self.code,
            Mark::Sup => self.sup,
        }
    }

    /// Executable form of [`Marks::with`].
    pub fn set(&mut self, m: Mark, on: bool)
        ensures
            *final(self) == old(self).with(m, on),
    {
        match m {
            Mark::Strong => self.strong = on,
            Mark::Em => self.em = on,
            Mark::Del => self.del = on,
            Mark::Ins => self.ins = on,
            Mark::Highlight => self.highlight = on,
            Mark::Code => self.code = on,
            Mark::Sup => self.sup = on,
        }
    }
}

/// The block that the last line left open. At most one is open at a time;
/// list nesting is kept beside it.
#[derive(Clone, Copy, Debug, PartialEq, Eq, Structural)]
pub enum Block {
    /// No block is open.
    Idle,
    /// A paragraph.
    Paragraph,
    /// Indented code.
    PreCode,
    /// A blockquote.
    Blockquote,
    /// A table, inside a row. `pending` is the cell that is open, if any.
    Table { pending: Option<CellKind> },
    /// Fenced code. `first` holds until the first line of content is written.
    Fence { first: bool },
}

/// The state between two steps, as contracts see it.
pub struct State {
    pub block: Block,
    /// The kinds of the open lists, outermost first.
    pub lists: Seq<ListKind>,
    pub marks: Marks,
}

impl State {
    /// The state in which a document starts.
    pub open spec fn initial() -> State {
        State { block: Block::Idle, lists: Seq::empty(), marks: Marks::none() }
    }

    /// Neither a block nor a list is open.
    pub open spec fn idle(self) -> bool {
        self.block is Idle && self.lists.len() == 0
    }
}

} // verus!
