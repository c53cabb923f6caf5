//! Reading `architecture-beta` source.
//!
//! Four kinds of line: a group, a service, a junction, and an edge. The three
//! declarations share a shape — `<keyword> <id>(<icon>)[<Title>] in <group>` —
//! so they share a reader; only the keyword and what it produces differ.
use vstd::prelude::*;

use super::types::{
    side_from_letter, Diagram, DiagramView, Edge, EdgeView, Item, ItemView, Kind, Side,
};
use crate::text::{
    chars_of, find_char, has_prefix, ident, ident_end, ident_run, is_ident, is_ws, lines,
    lower_all, lowercase, position, skip_ws, slice, split_lines, split_once, starts_with,
    string_of, trim, trim_bounds, trim_start, trimmed, ws,
};

verus! {

/// The text after a leading keyword, when the line starts with it as a word.
pub open spec fn after_keyword_of(line: Seq<char>, keyword: Seq<char>) -> Option<Seq<char>> {
    if starts_with(line, keyword) && keyword.len() < line.len() && is_ws(line[keyword.len() as int]) {
        Some(trim(line.skip(keyword.len() as int)))
    } else {
        None
    }
}

/// The text after a leading keyword, when the line starts with it as a word.
pub fn after_keyword<'a>(line: &'a str, keyword: &str) -> (r: Option<&'a str>)
    ensures
        r matches Some(t) ==> after_keyword_of(line@, keyword@) == Some(t@),
        r is None ==> after_keyword_of(line@, keyword@) is None,
{
    let lc = chars_of(line);
    let kc = chars_of(keyword);
    if !has_prefix(&lc, &kc) {
        return None;
    }
    let k = kc.len();
    if k >= lc.len() || !ws(lc[k]) {
        return None;
    }
    let (a, b) = trim_bounds(&lc, k, lc.len());
    assert(lc@.skip(k as int) == lc@.subrange(k as int, lc@.len() as int));
    Some(line.substring_char(a, b))
}

/// The leading identifier, and what follows it without its leading space.
pub open spec fn name_of(text: Seq<char>) -> Option<(Seq<char>, Seq<char>)> {
    let e = ident_run(text);
    if e == 0 {
        None
    } else {
        Some((text.take(e as int), trim_start(text.skip(e as int))))
    }
}

/// The leading identifier, and what follows it.
pub fn name(text: &str) -> (r: Option<(&str, &str)>)
    ensures
        r matches Some((id, rest)) ==> name_of(text@) == Some((id@, rest@)),
        r is None ==> name_of(text@) is None,
{
    let tc = chars_of(text);
    assert(tc@.skip(0) == tc@);
    let e = ident_end(&tc, 0);
    if e == 0 {
        return None;
    }
    let a = skip_ws(&tc, e);
    assert(tc@.take(e as int) == tc@.subrange(0, e as int));
    assert(tc@.skip(a as int) == tc@.subrange(a as int, tc@.len() as int));
    Some((text.substring_char(0, e), text.substring_char(a, tc.len())))
}

/// A bracketed run at the start of the text, and what follows it.
pub open spec fn bracketed_of(text: Seq<char>, open: char, close: char) -> (Seq<char>, Seq<char>) {
    if text.len() > 0 && text[0] == open {
        let body = text.drop_first();
        match find_char(body, close) {
            Some(end) => (trim(body.take(end)), trim_start(body.skip(end + 1))),
            None => (Seq::empty(), text),
        }
    } else {
        (Seq::empty(), text)
    }
}

/// A bracketed run at the start of the text, and what follows it. An unclosed
/// run takes nothing and leaves the text whole.
pub fn bracketed(text: &str, open: char, close: char) -> (r: (&str, &str))
    ensures
        (r.0@, r.1@) == bracketed_of(text@, open, close),
{
    let tc = chars_of(text);
    if tc.len() == 0 || tc[0] != open {
        return (text.substring_char(0, 0), text);
    }
    let body = slice(&tc, 1, tc.len());
    assert(body@ == tc@.drop_first());
    match position(&body, close) {
        Some(end) => {
            let (a, b) = trim_bounds(&tc, 1, end + 1);
            assert(body@.take(end as int) == tc@.subrange(1, end + 1));
            let c = skip_ws(&tc, end + 2);
            assert(body@.skip(end + 1) == tc@.skip(end + 2));
            assert(tc@.skip(c as int) == tc@.subrange(c as int, tc@.len() as int));
            (text.substring_char(a, b), text.substring_char(c, tc.len()))
        },
        None => (text.substring_char(0, 0), text),
    }
}

/// What a declaration line declares.
pub open spec fn declaration_of(line: Seq<char>, keyword: Seq<char>, kind: Kind) -> Option<
    ItemView,
> {
    match after_keyword_of(line, keyword) {
        None => None,
        Some(rest) => match name_of(rest) {
            None => None,
            Some((id, after_id)) => {
                let (icon, after_icon) = bracketed_of(after_id, '(', ')');
                let (title, after_title) = bracketed_of(after_icon, '[', ']');
                let parent = match after_keyword_of(after_title, "in"@) {
                    Some(t) => match name_of(t) {
                        Some((group, _)) => group,
                        None => Seq::empty(),
                    },
                    None => Seq::empty(),
                };
                Some(
                    ItemView {
                        id,
                        kind,
                        icon,
                        title: if title.len() == 0 {
                            id
                        } else {
                            title
                        },
                        parent,
                    },
                )
            },
        },
    }
}

/// A declaration: `<keyword> <id>(<icon>)[<Title>] [in <group>]`.
///
/// The icon, the title and the group are each optional and always in that
/// order, which is what lets one reader serve all three keywords.
pub fn declaration(line: &str, keyword: &str, kind: Kind) -> (r: Option<Item>)
    ensures
        r matches Some(item) ==> declaration_of(line@, keyword@, kind) == Some(item@),
        r is None ==> declaration_of(line@, keyword@, kind) is None,
{
    let rest = after_keyword(line, keyword)?;
    let (id, after_id) = name(rest)?;
    let (icon, after_icon) = bracketed(after_id, '(', ')');
    let (title, after_title) = bracketed(after_icon, '[', ']');
    let parent: Vec<char> = match after_keyword(after_title, "in") {
        Some(t) => match name(t) {
            Some((group, _)) => chars_of(group),
            None => Vec::new(),
        },
        None => Vec::new(),
    };
    let title_chars = chars_of(title);
    let shown = if title_chars.len() == 0 {
        chars_of(id)
    } else {
        title_chars
    };
    Some(
        Item {
            id: string_of(&chars_of(id)),
            kind,
            icon: string_of(&chars_of(icon)),
            title: string_of(&shown),
            parent: string_of(&parent),
        },
    )
}

/// The `k`-th arrow, longest first so `<-->` is not read as `<-`.
pub open spec fn arrow_of(k: int) -> Seq<char> {
    if k == 0 {
        "<-->"@
    } else if k == 1 {
        "<--"@
    } else if k == 2 {
        "-->"@
    } else if k == 3 {
        "<->"@
    } else if k == 4 {
        "<-"@
    } else if k == 5 {
        "->"@
    } else if k == 6 {
        "--"@
    } else {
        "-"@
    }
}

fn arrow(k: usize) -> (a: &'static str)
    ensures
        a@ == arrow_of(k as int),
{
    if k == 0 {
        "<-->"
    } else if k == 1 {
        "<--"
    } else if k == 2 {
        "-->"
    } else if k == 3 {
        "<->"
    } else if k == 4 {
        "<-"
    } else if k == 5 {
        "->"
    } else if k == 6 {
        "--"
    } else {
        "-"
    }
}

/// The first arrow, from the `k`-th on, that `s` opens with.
pub open spec fn arrow_from(s: Seq<char>, k: int) -> Option<int>
    decreases 8 - k,
{
    if k < 0 || k >= 8 {
        None
    } else if starts_with(s, arrow_of(k)) {
        Some(k)
    } else {
        arrow_from(s, k + 1)
    }
}

/// The first place, from character `i` on, where an arrow starts, and which.
pub open spec fn arrow_after(s: Seq<char>, i: int) -> Option<(int, Seq<char>)>
    decreases s.len() - i,
{
    if i < 0 || i >= s.len() {
        None
    } else {
        match arrow_from(s.skip(i), 0) {
            Some(k) => Some((i, arrow_of(k))),
            None => arrow_after(s, i + 1),
        }
    }
}

/// Where the first arrow sits in a line, and what it is.
pub open spec fn find_arrow_of(line: Seq<char>) -> Option<(int, Seq<char>)> {
    arrow_after(line, 0)
}

/// Where an arrow sits in a line (as a character position), and what it is.
///
/// No whitespace is required round it: an identifier is letters, digits and
/// underscores, and a side is one letter after a colon, so none of `-`, `<` or
/// `>` can appear anywhere else on the line.
pub fn find_arrow(line: &str) -> (r: Option<(usize, &'static str)>)
    ensures
        match r {
            Some((at, a)) => find_arrow_of(line@) == Some((at as int, a@)),
            None => find_arrow_of(line@) is None,
        },
{
    let lc = chars_of(line);
    let mut i: usize = 0;
    while i < lc.len()
        invariant
            i <= lc.len(),
            lc@ == line@,
            find_arrow_of(line@) == arrow_after(line@, i as int),
        decreases lc.len() - i,
    {
        let tail = slice(&lc, i, lc.len());
        assert(tail@ == line@.skip(i as int));
        let mut k: usize = 0;
        while k < 8
            invariant
                k <= 8,
                i < lc.len(),
                lc@ == line@,
                tail@ == line@.skip(i as int),
                find_arrow_of(line@) == arrow_after(line@, i as int),
                arrow_from(tail@, 0) == arrow_from(tail@, k as int),
            decreases 8 - k,
        {
            let a = arrow(k);
            if has_prefix(&tail, &chars_of(a)) {
                return Some((i, a));
            }
            k += 1;
        }
        i += 1;
    }
    None
}

/// One end of an edge: `id`, `id:S` or `S:id`, with any `{group}` marker
/// after the id ignored. `leading` says the side comes before the name.
pub open spec fn endpoint_of(text: Seq<char>, leading: bool) -> Option<(Seq<char>, Option<Side>)> {
    let t = trim(text);
    let (head, tail) = match split_once(t, ':') {
        Some((h, rest)) => (trim(h), trim(rest)),
        None => (t, Seq::empty()),
    };
    let (written, side_text) = if leading && tail.len() > 0 {
        (tail, head)
    } else {
        (head, tail)
    };
    match name_of(written) {
        Some((id, _)) => Some(
            (
                id,
                if side_text.len() > 0 {
                    side_from_letter(side_text[0])
                } else {
                    None
                },
            ),
        ),
        None => None,
    }
}

/// One end of an edge: `id`, `id:S`, `S:id`, and any of them with a `{group}`
/// marker that the layout has no use for.
pub fn endpoint(text: &str, leading: bool) -> (r: Option<(String, Option<Side>)>)
    ensures
        match r {
            Some((id, side)) => endpoint_of(text@, leading) == Some((id@, side)),
            None => endpoint_of(text@, leading) is None,
        },
{
    let t = trimmed(&chars_of(text));
    let (head, tail) = match position(&t, ':') {
        Some(k) => {
            assert(t@.take(k as int) == t@.subrange(0, k as int));
            assert(t@.skip(k + 1) == t@.subrange(k + 1, t@.len() as int));
            (trimmed(&slice(&t, 0, k)), trimmed(&slice(&t, k + 1, t.len())))
        },
        None => (t, Vec::new()),
    };
    let (written, side_text) = if leading && tail.len() > 0 {
        (tail, head)
    } else {
        (head, tail)
    };
    let shown = string_of(&written);
    let (id, _) = name(shown.as_str())?;
    let side = if side_text.len() > 0 {
        Side::from_letter(side_text[0])
    } else {
        None
    };
    Some((string_of(&chars_of(id)), side))
}

/// What an edge line says.
pub open spec fn edge_of(line: Seq<char>) -> Option<EdgeView> {
    match find_arrow_of(line) {
        None => None,
        Some((at, a)) => match endpoint_of(line.take(at), false) {
            None => None,
            Some((from, from_side)) => match endpoint_of(line.skip(at + a.len()), true) {
                None => None,
                Some((to, to_side)) => Some(
                    EdgeView {
                        from,
                        from_side,
                        to,
                        to_side,
                        arrow_start: a.len() > 0 && a[0] == '<',
                        arrow_end: a.len() > 0 && a.last() == '>',
                    },
                ),
            },
        },
    }
}

/// An edge line: `a:R --> L:b`, or any of it left out but the arrow.
pub fn edge(line: &str) -> (r: Option<Edge>)
    ensures
        r matches Some(e) ==> edge_of(line@) == Some(e@),
        r is None ==> edge_of(line@) is None,
{
    let (at, a) = find_arrow(line)?;
    let lc = chars_of(line);
    let ac = chars_of(a);
    proof {
        reveal_strlit("<-->");
        reveal_strlit("<--");
        reveal_strlit("-->");
        reveal_strlit("<->");
        reveal_strlit("<-");
        reveal_strlit("->");
        reveal_strlit("--");
        reveal_strlit("-");
        lemma_arrow_after_bounds(line@, 0);
        assert(find_arrow_of(line@) == Some((at as int, a@)));
        assert(at + a@.len() <= line@.len());
    }
    assert(ac@.len() == a@.len());
    assert(at + ac@.len() <= lc@.len());
    let before = string_of(&slice(&lc, 0, at));
    let total = lc.len();
    let stop = at + ac.len();
    let after = string_of(&slice(&lc, stop, total));
    assert(line@.take(at as int) == lc@.subrange(0, at as int));
    assert(line@.skip(at + ac.len()) == lc@.subrange(at + ac.len(), lc@.len() as int));
    let (from, from_side) = endpoint(before.as_str(), false)?;
    let (to, to_side) = endpoint(after.as_str(), true)?;
    Some(
        Edge {
            from,
            from_side,
            to,
            to_side,
            arrow_start: ac.len() > 0 && ac[0] == '<',
            arrow_end: ac.len() > 0 && ac[ac.len() - 1] == '>',
        },
    )
}

proof fn lemma_arrow_from(s: Seq<char>, k: int)
    ensures
        arrow_from(s, k) matches Some(j) ==> 0 <= j < 8 && starts_with(s, arrow_of(j)),
    decreases 8 - k,
{
    if 0 <= k < 8 && !starts_with(s, arrow_of(k)) {
        lemma_arrow_from(s, k + 1);
    }
}

proof fn lemma_arrow_after_bounds(s: Seq<char>, i: int)
    ensures
        arrow_after(s, i) matches Some((at, a)) ==> 0 <= at && at + a.len() <= s.len()
            && 1 <= a.len() <= 4,
    decreases s.len() - i,
{
    reveal_strlit("<-->");
    reveal_strlit("<--");
    reveal_strlit("-->");
    reveal_strlit("<->");
    reveal_strlit("<-");
    reveal_strlit("->");
    reveal_strlit("--");
    reveal_strlit("-");
    if 0 <= i < s.len() {
        lemma_arrow_from(s.skip(i), 0);
        if arrow_from(s.skip(i), 0) is None {
            lemma_arrow_after_bounds(s, i + 1);
        }
    }
}

/// How one line changes the diagram being read.
pub open spec fn read_line(d: DiagramView, raw: Seq<char>) -> DiagramView {
    let line = trim(raw);
    if line.len() == 0 || starts_with(line, "%%"@) || starts_with(
        lower_all(line),
        "architecture"@,
    ) {
        d
    } else if let Some(item) = declaration_of(line, "group"@, Kind::Group) {
        DiagramView { items: d.items.push(item), edges: d.edges }
    } else if let Some(item) = declaration_of(line, "service"@, Kind::Service) {
        DiagramView { items: d.items.push(item), edges: d.edges }
    } else if let Some(item) = declaration_of(line, "junction"@, Kind::Junction) {
        DiagramView { items: d.items.push(item), edges: d.edges }
    } else if let Some(e) = edge_of(line) {
        DiagramView { items: d.items, edges: d.edges.push(e) }
    } else {
        d
    }
}

/// The lines read in order.
pub open spec fn read_lines(ls: Seq<Seq<char>>) -> DiagramView
    decreases ls.len(),
{
    if ls.len() == 0 {
        DiagramView { items: Seq::empty(), edges: Seq::empty() }
    } else {
        read_line(read_lines(ls.drop_last()), ls.last())
    }
}

/// What `parse` reads from a source.
pub open spec fn parse_of(source: Seq<char>) -> DiagramView {
    read_lines(lines(source))
}

/// Read an architecture diagram.
///
/// A line nobody recognises is dropped rather than rejected: a diagram with one
/// bad line should still draw the rest of itself.
pub fn parse(source: &str) -> (d: Diagram)
    ensures
        d@ == parse_of(source@),
{
    let all = split_lines(&chars_of(source));
    let mut diagram = Diagram::default();
    let ghost ls = lines(source@);
    let mut i: usize = 0;
    assert(diagram@.items =~= Seq::<ItemView>::empty());
    assert(diagram@.edges =~= Seq::<EdgeView>::empty());
    assert(ls.take(0) =~= Seq::<Seq<char>>::empty());
    while i < all.len()
        invariant
            i <= all.len() == ls.len(),
            ls == lines(source@),
            forall|m: int| 0 <= m < all.len() ==> #[trigger] all[m]@ == ls[m],
            diagram@ == read_lines(ls.take(i as int)),
        decreases all.len() - i,
    {
        assert(ls.take(i + 1).drop_last() == ls.take(i as int));
        assert(ls.take(i + 1).last() == all[i as int]@);
        let line_chars = trimmed(&all[i]);
        let line = string_of(&line_chars);
        let lower = lowercase(&line_chars);
        if line_chars.len() == 0 || has_prefix(&line_chars, &chars_of("%%")) || has_prefix(
            &lower,
            &chars_of("architecture"),
        ) {
        } else if let Some(item) = declaration(line.as_str(), "group", Kind::Group) {
            diagram.items.push(item);
            assert(diagram@.items == read_lines(ls.take(i as int)).items.push(item@));
        } else if let Some(item) = declaration(line.as_str(), "service", Kind::Service) {
            diagram.items.push(item);
            assert(diagram@.items == read_lines(ls.take(i as int)).items.push(item@));
        } else if let Some(item) = declaration(line.as_str(), "junction", Kind::Junction) {
            diagram.items.push(item);
            assert(diagram@.items == read_lines(ls.take(i as int)).items.push(item@));
        } else if let Some(found) = edge(line.as_str()) {
            diagram.edges.push(found);
            assert(diagram@.edges == read_lines(ls.take(i as int)).edges.push(found@));
        }
        i += 1;
    }
    assert(ls.take(ls.len() as int) == ls);
    diagram
}

} // verus!
