//! Entities: how `<` and `>` reach the output, and why writing text out
//! twice changes nothing.

use vstd::prelude::*;
use crate::inline::{inline_step, inline_text};
use crate::markup::{lemma_render_add, lemma_render_one, render, Piece};
use crate::state::State;
use crate::text::{entity, escaped, leading, lemma_escaped_add, lemma_leading, lemma_leading_is};
use crate::text::{CharClass, Escape};

verus! {

/// A single character, written out.
pub proof fn lemma_escaped_one(c: char, mode: Escape)
    ensures
        escaped(seq![c], mode) == entity(c, mode),
{
    let one = seq![c];
    assert(one.len() == 1 && one.last() == c);
    assert(one.drop_last() =~= Seq::<char>::empty());
    assert(escaped(one.drop_last(), mode) =~= Seq::<char>::empty());
    assert(escaped(one, mode) =~= entity(c, mode));
}

/// The characters of an entity stand for themselves.
proof fn lemma_entity_fixed(c: char, mode: Escape)
    ensures
        escaped(entity(c, mode), mode) == entity(c, mode),
{
    reveal_strlit("&lt;");
    reveal_strlit("&gt;");
    reveal_strlit("&nbsp;");
    let e = entity(c, mode);
    if e.len() == 0 {
    } else if e.len() == 1 {
        lemma_escaped_one(c, mode);
    } else if e.len() == 4 {
        let a = seq![e[0]];
        let b = seq![e[1]];
        let c2 = seq![e[2]];
        let d = seq![e[3]];
        lemma_escaped_one(e[0], mode);
        lemma_escaped_one(e[1], mode);
        lemma_escaped_one(e[2], mode);
        lemma_escaped_one(e[3], mode);
        lemma_escaped_add(a, b, mode);
        lemma_escaped_add(a + b, c2, mode);
        lemma_escaped_add(a + b + c2, d, mode);
        assert(a + b + c2 + d =~= e);
        assert(escaped(e, mode) =~= e);
    } else {
        let a = seq![e[0]];
        let b = seq![e[1]];
        let c2 = seq![e[2]];
        let d = seq![e[3]];
        let f = seq![e[4]];
        let g = seq![e[5]];
        lemma_escaped_one(e[0], mode);
        lemma_escaped_one(e[1], mode);
        lemma_escaped_one(e[2], mode);
        lemma_escaped_one(e[3], mode);
        lemma_escaped_one(e[4], mode);
        lemma_escaped_one(e[5], mode);
        lemma_escaped_add(a, b, mode);
        lemma_escaped_add(a + b, c2, mode);
        lemma_escaped_add(a + b + c2, d, mode);
        lemma_escaped_add(a + b + c2 + d, f, mode);
        lemma_escaped_add(a + b + c2 + d + f, g, mode);
        assert(a + b + c2 + d + f + g =~= e);
        assert(escaped(e, mode) =~= e);
    }
}

/// Writing out is idempotent: text that was written out once is left as
/// it is when written out again, so no entity is ever encoded twice.
pub proof fn lemma_escaped_idempotent(s: Seq<char>, mode: Escape)
    ensures
        escaped(escaped(s, mode), mode) == escaped(s, mode),
    decreases s.len(),
{
    if s.len() > 0 {
        lemma_escaped_idempotent(s.drop_last(), mode);
        lemma_entity_fixed(s.last(), mode);
        lemma_escaped_add(escaped(s.drop_last(), mode), entity(s.last(), mode), mode);
    }
}

/// Whether `c` never starts markup.
pub open spec fn quiet(c: char) -> bool {
    c != '\\' && c != '*' && c != '_' && c != '~' && c != '+' && c != '=' && c != '`' && c != '^'
        && c != '[' && c != '|'
}

/// Whether `s` is running text and nothing else: it holds no character
/// that starts markup, does not end in the two spaces of a line break,
/// and no `>` follows a `<` in it, which would make an anchor of them.
pub open spec fn running_text(s: Seq<char>) -> bool {
    &&& forall|i: int| 0 <= i < s.len() ==> quiet(#[trigger] s[i])
    &&& !(s.len() >= 2 && s[s.len() - 1] == ' ' && s[s.len() - 2] == ' ')
    &&& forall|i: int, j: int|
        0 <= i < j < s.len() && #[trigger] s[i] == '<' ==> #[trigger] s[j] != '>'
}

/// At the head of running text, the first character is written out and
/// nothing else happens.
proof fn lemma_running_step(st: State, s: Seq<char>)
    requires
        s.len() > 0,
        running_text(s),
    ensures
        inline_step(st, s).state == st,
        inline_step(st, s).rest == s.skip(1),
        inline_step(st, s).pieces == seq![Piece::Text(entity(s[0], Escape::Text))],
        running_text(s.skip(1)),
{
    let t = s.skip(1);
    assert(quiet(s[0]));
    if s.len() > 1 {
        assert(quiet(s[1]));
    }
    if s[0] == '<' {
        assert forall|j: int| 0 <= j < t.len() implies CharClass::Except('>').has(
            #[trigger] t[j],
        ) by {
            assert(t[j] == s[j + 1]);
        }
        lemma_leading_is(t, CharClass::Except('>'), t.len() as int);
    }
    lemma_leading(s, CharClass::Space);
    let n = leading(s, CharClass::Space) as int;
    if n < s.len() {
        assert(quiet(s[n]));
    }
    assert forall|i: int| 0 <= i < t.len() implies quiet(#[trigger] t[i]) by {
        assert(t[i] == s[i + 1]);
    }
    assert forall|i: int, j: int| 0 <= i < j < t.len() && #[trigger] t[i] == '<' implies
        #[trigger] t[j] != '>' by {
        assert(t[i] == s[i + 1] && t[j] == s[j + 1]);
    }
}

/// Entity fidelity: running text is written out character by character,
/// each `<` as `&lt;` and each `>` as `&gt;`, whatever spans are open, and
/// the state is left as it was.
pub proof fn lemma_running_text(st: State, s: Seq<char>)
    requires
        running_text(s),
    ensures
        inline_text(st, s).state == st,
        render(inline_text(st, s).pieces) == escaped(s, Escape::Text),
    decreases s.len(),
{
    if s.len() > 0 {
        let t = s.skip(1);
        let head = Piece::Text(entity(s[0], Escape::Text));
        lemma_running_step(st, s);
        lemma_running_text(st, t);
        lemma_render_one(head);
        lemma_render_add(seq![head], inline_text(st, t).pieces);
        lemma_escaped_one(s[0], Escape::Text);
        lemma_escaped_add(seq![s[0]], t, Escape::Text);
        assert(seq![s[0]] + t =~= s);
    }
}

} // verus!
