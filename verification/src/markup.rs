//! The structured form of the output: a sequence of pieces, each a tag or
//! a run of text, and its rendering as HTML characters.
//!
//! Contracts speak of pieces rather than of substrings of the output,
//! because text that is copied through verbatim (the target of a link,
//! the source of an image, the name of an anchor) may itself look like a
//! tag.

use vstd::prelude::*;

verus! {

/// The two kinds of list.
#[derive(Clone, Copy, Debug, PartialEq, Eq, Structural)]
pub enum ListKind {
    /// `<ul>`, opened by a `-` marker.
    Unordered,
    /// `<ol>`, opened by a `0.` marker.
    Ordered,
}

/// The two kinds of table cell.
#[derive(Clone, Copy, Debug, PartialEq, Eq, Structural)]
pub enum CellKind {
    /// `<td>`
    Data,
    /// `<th>`
    Header,
}

/// The inline spans that a marker toggles.
#[derive(Clone, Copy, Debug, PartialEq, Eq, Structural)]
pub enum Mark {
    /// `**`
    Strong,
    /// `_`
    Em,
    /// `~~`
    Del,
    /// `++`
    Ins,
    /// `==`
    Highlight,
    /// A backtick.
    Code,
    /// `^`
    Sup,
}

/// An element that is opened by one tag and closed by another.
#[derive(Clone, Copy, Debug, PartialEq, Eq, Structural)]
pub enum Tag {
    /// `<h1>` to `<h6>`; the level is 1 to 6.
    Heading(u8),
    /// `<p>`
    Paragraph,
    /// `<ul>` or `<ol>`
    List(ListKind),
    /// `<li>`
    Item,
    /// `<pre><code>`, for indented and for fenced code.
    Pre,
    /// `<blockquote>`
    Blockquote,
    /// `<table><tbody>`
    Table,
    /// `<tr>`
    Row,
    /// `<td>` or `<th>`
    Cell(CellKind),
    /// An inline span.
    Span(Mark),
    /// `<a href=..>`
    Link,
}

/// Horizontal alignment of a table cell.
#[derive(Clone, Copy, Debug, PartialEq, Eq, Structural)]
pub enum Align {
    Center,
    Left,
    Right,
}

/// Vertical alignment of a table cell.
#[derive(Clone, Copy, Debug, PartialEq, Eq, Structural)]
pub enum Valign {
    Baseline,
    Top,
    Middle,
    Bottom,
}

/// What a table cell is to its row or column.
#[derive(Clone, Copy, Debug, PartialEq, Eq, Structural)]
pub enum Role {
    /// An ordinary cell.
    Data,
    /// The header of a column.
    ColumnHeader,
    /// The header of a row.
    RowHeader,
}

impl Role {
    /// The element that a cell of this role is written as.
    pub open spec fn kind(self) -> CellKind {
        match self {
            Role::Data => CellKind::Data,
            _ => CellKind::Header,
        }
    }

    /// Executable form of [`Role::kind`].
    pub fn cell_kind(self) -> (k: CellKind)
        ensures
            k == self.kind(),
    {
        match self {
            Role::Data => CellKind::Data,
            _ => CellKind::Header,
        }
    }
}

/// The attributes of a table cell.
pub struct Cell {
    pub role: Role,
    pub align: Align,
    pub valign: Valign,
    /// The column span, as the digits that were written.
    pub colspan: Seq<char>,
    /// The row span, as the digits that were written.
    pub rowspan: Seq<char>,
}

/// One unit of output.
pub enum Piece {
    /// Characters, written as they are.
    Text(Seq<char>),
    /// The start tag of an element that has no attributes.
    Open(Tag),
    /// The end tag of an element.
    Close(Tag),
    /// `<pre><code lang="..">`, the start of fenced code in a named language.
    OpenFence(Seq<char>),
    /// The start tag of a table cell.
    OpenCell(Cell),
    /// `<a href="..">`
    OpenLink(Seq<char>),
    /// `<a id=".."></a>`
    Anchor(Seq<char>),
    /// `<img alt="`, the start of an image. The pieces that follow it, up
    /// to the end of the image, are its description.
    ImageStart,
    /// `" src=".." />`, the end of an image, with its source.
    ImageEnd(Seq<char>),
    /// A disabled checkbox, ticked or not.
    Checkbox(bool),
    /// `<br />`
    Break,
    /// `<hr />`
    Rule,
}

/// The start tag of an element without attributes. Links and table cells
/// always carry attributes: they are opened by [`Piece::OpenLink`] and
/// [`Piece::OpenCell`], never by [`Piece::Open`].
pub open spec fn open_html(tag: Tag) -> Seq<char> {
    match tag {
        Tag::Heading(level) => if level == 1 {
            "<h1>"@
        } else if level == 2 {
            "<h2>"@
        } else if level == 3 {
            "<h3>"@
        } else if level == 4 {
            "<h4>"@
        } else if level == 5 {
            "<h5>"@
        } else {
            "<h6>"@
        },
        Tag::Paragraph => "<p>"@,
        Tag::List(ListKind::Unordered) => "<ul>"@,
        Tag::List(ListKind::Ordered) => "<ol>"@,
        Tag::Item => "<li>"@,
        Tag::Pre => "<pre><code>"@,
        Tag::Blockquote => "<blockquote>"@,
        Tag::Table => "<table><tbody>"@,
        Tag::Row => "<tr>"@,
        Tag::Cell(CellKind::Data) => "<td>"@,
        Tag::Cell(CellKind::Header) => "<th>"@,
        Tag::Span(Mark::Strong) => "<strong>"@,
        Tag::Span(Mark::Em) => "<em>"@,
        Tag::Span(Mark::Del) => "<del>"@,
        Tag::Span(Mark::Ins) => "<ins>"@,
        Tag::Span(Mark::Highlight) => "<mark>"@,
        Tag::Span(Mark::Code) => "<code>"@,
        Tag::Span(Mark::Sup) => "<sup>"@,
        Tag::Link => "<a>"@,
    }
}

/// The end tag of an element. The end of a block that stands on lines of
/// its own carries the line feed that follows it.
pub open spec fn close_html(tag: Tag) -> Seq<char> {
    match tag {
        Tag::Heading(level) => if level == 1 {
            "</h1>\n"@
        } else if level == 2 {
            "</h2>\n"@
        } else if level == 3 {
            "</h3>\n"@
        } else if level == 4 {
            "</h4>\n"@
        } else if level == 5 {
            "</h5>\n"@
        } else {
            "</h6>\n"@
        },
        Tag::Paragraph => "</p>\n"@,
        Tag::List(ListKind::Unordered) => "</ul>"@,
        Tag::List(ListKind::Ordered) => "</ol>"@,
        Tag::Item => "</li>"@,
        Tag::Pre => "</code></pre>\n"@,
        Tag::Blockquote => "</blockquote>\n"@,
        Tag::Table => "</tbody></table>\n"@,
        Tag::Row => "</tr>"@,
        Tag::Cell(CellKind::Data) => "</td>"@,
        Tag::Cell(CellKind::Header) => "</th>"@,
        Tag::Span(Mark::Strong) => "</strong>"@,
        Tag::Span(Mark::Em) => "</em>"@,
        Tag::Span(Mark::Del) => "</del>"@,
        Tag::Span(Mark::Ins) => "</ins>"@,
        Tag::Span(Mark::Highlight) => "</mark>"@,
        Tag::Span(Mark::Code) => "</code>"@,
        Tag::Span(Mark::Sup) => "</sup>"@,
        Tag::Link => "</a>"@,
    }
}

/// The value of the `scope` attribute of a header cell.
pub open spec fn scope_html(role: Role) -> Seq<char> {
    match role {
        Role::Data => ""@,
        Role::ColumnHeader => "col"@,
        Role::RowHeader => "row"@,
    }
}

/// The value of the `align` attribute.
pub open spec fn align_html(align: Align) -> Seq<char> {
    match align {
        Align::Center => "center"@,
        Align::Left => "left"@,
        Align::Right => "right"@,
    }
}

/// The value of the `valign` attribute.
pub open spec fn valign_html(valign: Valign) -> Seq<char> {
    match valign {
        Valign::Baseline => "baseline"@,
        Valign::Top => "top"@,
        Valign::Middle => "middle"@,
        Valign::Bottom => "bottom"@,
    }
}

/// The start tag of a table cell, with all of its attributes.
pub open spec fn cell_html(cell: Cell) -> Seq<char> {
    let head = match cell.role {
        Role::Data => "<td align=\""@,
        _ => "<th scope=\""@ + scope_html(cell.role) + "\" align=\""@,
    };
    head + align_html(cell.align) + "\" valign=\""@ + valign_html(cell.valign)
        + "\" colspan=\""@ + cell.colspan + "\" rowspan=\""@ + cell.rowspan + "\">"@
}

impl Piece {
    /// The characters that the piece is written as.
    pub open spec fn html(self) -> Seq<char> {
        match self {
            Piece::Text(t) => t,
            Piece::Open(tag) => open_html(tag),
            Piece::Close(tag) => close_html(tag),
            Piece::OpenFence(lang) => "<pre><code lang=\""@ + lang + "\">"@,
            Piece::OpenCell(cell) => cell_html(cell),
            Piece::OpenLink(href) => "<a href=\""@ + href + "\">"@,
            Piece::Anchor(id) => "<a id=\""@ + id + "\"></a>"@,
            Piece::ImageStart => "<img alt=\""@,
            Piece::ImageEnd(src) => "\" src=\""@ + src + "\" />"@,
            Piece::Checkbox(false) => "<input type=\"checkbox\" disabled=\"disabled\" />"@,
            Piece::Checkbox(true) =>
                "<input type=\"checkbox\" disabled=\"disabled\" checked=\"checked\" />"@,
            Piece::Break => "<br />"@,
            Piece::Rule => "<hr />\n"@,
        }
    }

    /// The element that the piece opens, if it opens one.
    pub open spec fn opens(self) -> Option<Tag> {
        match self {
            Piece::Open(tag) => Some(tag),
            Piece::OpenFence(_) => Some(Tag::Pre),
            Piece::OpenCell(cell) => Some(Tag::Cell(cell.role.kind())),
            Piece::OpenLink(_) => Some(Tag::Link),
            _ => None,
        }
    }

    /// The element that the piece closes, if it closes one.
    pub open spec fn closes(self) -> Option<Tag> {
        match self {
            Piece::Close(tag) => Some(tag),
            _ => None,
        }
    }
}

/// The HTML of a sequence of pieces: their characters, one after another.
pub open spec fn render(pieces: Seq<Piece>) -> Seq<char>
    decreases pieces.len(),
{
    if pieces.len() == 0 {
        Seq::empty()
    } else {
        render(pieces.drop_last()) + pieces.last().html()
    }
}

/// Nothing renders as nothing.
pub proof fn lemma_render_empty()
    ensures
        render(Seq::<Piece>::empty()) == Seq::<char>::empty(),
{
}

/// One piece renders as its own characters.
pub broadcast proof fn lemma_render_one(p: Piece)
    ensures
        #[trigger] render(seq![p]) == p.html(),
{
    let one = seq![p];
    assert(one.len() == 1 && one.last() == p);
    assert(one.drop_last() =~= Seq::<Piece>::empty());
    assert(render(one.drop_last()) =~= Seq::<char>::empty());
    assert(render(one) =~= p.html());
}

/// Rendering goes piece by piece: it distributes over concatenation.
pub broadcast proof fn lemma_render_add(a: Seq<Piece>, b: Seq<Piece>)
    ensures
        #[trigger] render(a + b) == render(a) + render(b),
    decreases b.len(),
{
    if b.len() == 0 {
        assert(a + b =~= a);
        assert(render(a) + render(b) =~= render(a));
    } else {
        lemma_render_add(a, b.drop_last());
        assert((a + b).drop_last() =~= a + b.drop_last());
        assert((a + b).last() == b.last());
        assert(render(a + b) =~= render(a) + render(b));
    }
}

/// Appending a piece appends its characters.
pub broadcast proof fn lemma_render_push(a: Seq<Piece>, p: Piece)
    ensures
        #[trigger] render(a.push(p)) == render(a) + p.html(),
{
    assert(a.push(p).drop_last() =~= a);
}

pub broadcast group group_render {
    lemma_render_one,
    lemma_render_add,
    lemma_render_push,
}

} // verus!
