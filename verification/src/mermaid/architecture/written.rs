//! What lines written in the usual form read as: an edge between two named
//! sides, and a declaration with its icon, title and group, come back as
//! written.
use vstd::prelude::*;

use super::parser::{
    after_keyword_of, arrow_after, arrow_from, arrow_of, bracketed_of, declaration_of, edge_of,
    endpoint_of, find_arrow_of, name_of,
};
use super::types::{side_from_letter, EdgeView, ItemView, Kind};
use crate::text::{
    ident_run, is_ident, is_ws, lemma_find_char_at, lemma_find_char_none, lemma_ident_run,
    starts_with, trim, trim_end, trim_start,
};

verus! {

/// A non-empty run of identifier characters.
pub open spec fn identifier(s: Seq<char>) -> bool {
    s.len() > 0 && forall|i: int| 0 <= i < s.len() ==> is_ident(#[trigger] s[i])
}

/// An edge written out: `FROM[:S] ARROW [S:]TO`, with one space on each side
/// of the arrow.
pub open spec fn edge_line(
    from: Seq<char>,
    from_side: Option<char>,
    k: int,
    to_side: Option<char>,
    to: Seq<char>,
) -> Seq<char> {
    let left = match from_side {
        Some(c) => from + seq![':', c],
        None => from,
    };
    let right = match to_side {
        Some(c) => seq![c, ':'] + to,
        None => to,
    };
    left + seq![' '] + arrow_of(k) + seq![' '] + right
}

proof fn lemma_arrows_written(j: int)
    requires
        0 <= j < 8,
    ensures
        j == 0 ==> arrow_of(j) == seq!['<', '-', '-', '>'],
        j == 1 ==> arrow_of(j) == seq!['<', '-', '-'],
        j == 2 ==> arrow_of(j) == seq!['-', '-', '>'],
        j == 3 ==> arrow_of(j) == seq!['<', '-', '>'],
        j == 4 ==> arrow_of(j) == seq!['<', '-'],
        j == 5 ==> arrow_of(j) == seq!['-', '>'],
        j == 6 ==> arrow_of(j) == seq!['-', '-'],
        j == 7 ==> arrow_of(j) == seq!['-'],
        1 <= arrow_of(j).len() <= 4,
        arrow_of(j)[0] == '<' || arrow_of(j)[0] == '-',
        forall|i: int| 0 <= i < arrow_of(j).len() ==> #[trigger] arrow_of(j)[i] != ' ',
{
    reveal_strlit("<-->");
    reveal_strlit("<--");
    reveal_strlit("-->");
    reveal_strlit("<->");
    reveal_strlit("<-");
    reveal_strlit("->");
    reveal_strlit("--");
    reveal_strlit("-");
    assert("<-->"@ =~= seq!['<', '-', '-', '>']);
    assert("<--"@ =~= seq!['<', '-', '-']);
    assert("-->"@ =~= seq!['-', '-', '>']);
    assert("<->"@ =~= seq!['<', '-', '>']);
    assert("<-"@ =~= seq!['<', '-']);
    assert("->"@ =~= seq!['-', '>']);
    assert("--"@ =~= seq!['-', '-']);
    assert("-"@ =~= seq!['-']);
}

proof fn lemma_identifier_run(s: Seq<char>)
    requires
        identifier(s),
    ensures
        ident_run(s) == s.len(),
{
    lemma_ident_run(s);
    if ident_run(s) < s.len() {
        assert(is_ident(s[ident_run(s) as int]));
    }
}

/// No arrow opens with a character other than `<` or `-`.
proof fn lemma_no_arrow_at(s: Seq<char>, j: int)
    requires
        s.len() > 0,
        s[0] != '<' && s[0] != '-',
    ensures
        arrow_from(s, j) is None,
    decreases 8 - j,
{
    if 0 <= j < 8 {
        lemma_arrows_written(j);
        if starts_with(s, arrow_of(j)) {
            assert(s.take(arrow_of(j).len() as int)[0] == s[0]);
        }
        lemma_no_arrow_at(s, j + 1);
    }
}

/// The scan passes every position that holds neither `<` nor `-`.
proof fn lemma_scan_to(line: Seq<char>, at: int, p: int)
    requires
        0 <= at <= p < line.len(),
        forall|i: int| at <= i < p ==> #[trigger] line[i] != '<' && line[i] != '-',
    ensures
        arrow_after(line, at) == arrow_after(line, p),
    decreases p - at,
{
    if at < p {
        lemma_no_arrow_at(line.skip(at), 0);
        lemma_scan_to(line, at + 1, p);
    }
}

/// An arrow followed by a space is read as itself, not as a shorter or a
/// longer one.
proof fn lemma_arrow_read(tail: Seq<char>, k: int, j: int)
    requires
        0 <= j <= k < 8,
        tail.len() > arrow_of(k).len(),
        tail.take(arrow_of(k).len() as int) == arrow_of(k),
        tail[arrow_of(k).len() as int] == ' ',
    ensures
        arrow_from(tail, j) == Some(k),
    decreases k - j,
{
    lemma_arrows_written(k);
    let a = arrow_of(k);
    assert(starts_with(tail, a));
    if j < k {
        lemma_arrows_written(j);
        let b = arrow_of(j);
        if starts_with(tail, b) {
            let w = tail.take(b.len() as int);
            assert(w == b);
            assert(tail[0] == w[0]);
            assert(tail[0] == tail.take(a.len() as int)[0]);
            if b.len() > 1 {
                assert(tail[1] == w[1]);
                assert(a.len() > 1 ==> tail[1] == tail.take(a.len() as int)[1]);
            }
            if b.len() > 2 {
                assert(tail[2] == w[2]);
                assert(a.len() > 2 ==> tail[2] == tail.take(a.len() as int)[2]);
            }
            if b.len() > 3 {
                assert(tail[3] == w[3]);
                assert(a.len() > 3 ==> tail[3] == tail.take(a.len() as int)[3]);
            }
            assert(false);
        }
        lemma_arrow_read(tail, k, j + 1);
    }
}

/// The side a written letter names, if one is written.
pub open spec fn side_written(letter: Option<char>) -> Option<super::types::Side> {
    match letter {
        Some(c) => side_from_letter(c),
        None => None,
    }
}

proof fn lemma_trim_word(s: Seq<char>)
    requires
        s.len() > 0,
        !is_ws(s[0]),
        !is_ws(s.last()),
    ensures
        trim(s) == s,
{
    assert(trim_start(s) == s);
    assert(trim_end(s) == s);
}

proof fn lemma_source_end(from: Seq<char>, from_side: Option<char>)
    requires
        identifier(from),
        from_side matches Some(c) ==> side_from_letter(c) is Some,
    ensures
        endpoint_of(
            match from_side {
                Some(c) => from + seq![':', c],
                None => from,
            } + seq![' '],
            false,
        ) == Some((from, side_written(from_side))),
{
    let left = match from_side {
        Some(c) => from + seq![':', c],
        None => from,
    };
    let f = from.len() as int;
    assert(left[0] == from[0]);
    assert(is_ident(from.last()));
    assert(!is_ws(left.last()));
    assert(trim_start(left + seq![' ']) == left + seq![' ']);
    assert((left + seq![' ']).drop_last() =~= left);
    assert(trim_end(left) == left);
    assert(trim(left + seq![' ']) == left);
    lemma_identifier_run(from);
    assert(from.take(f) =~= from);
    lemma_trim_word(from);
    if let Some(c) = from_side {
        assert forall|j: int| 0 <= j < f implies left[j] != ':' by {
            assert(left[j] == from[j]);
        }
        lemma_find_char_at(left, ':', f);
        assert(left.take(f) =~= from);
        assert(left.skip(f + 1) =~= seq![c]);
        lemma_trim_word(seq![c]);
    } else {
        assert forall|j: int| 0 <= j < left.len() implies left[j] != ':' by {
            assert(is_ident(from[j]));
        }
        lemma_find_char_none(left, ':');
    }
}

proof fn lemma_target_end(to: Seq<char>, to_side: Option<char>)
    requires
        identifier(to),
        to_side matches Some(c) ==> side_from_letter(c) is Some,
    ensures
        endpoint_of(
            seq![' '] + match to_side {
                Some(c) => seq![c, ':'] + to,
                None => to,
            },
            true,
        ) == Some((to, side_written(to_side))),
{
    let right = match to_side {
        Some(c) => seq![c, ':'] + to,
        None => to,
    };
    assert((seq![' '] + right).drop_first() =~= right);
    assert(right.last() == to.last());
    assert(is_ident(to.last()));
    assert(is_ident(to[0]));
    assert(trim_start(seq![' '] + right) == trim_start(right));
    lemma_trim_word(right);
    lemma_identifier_run(to);
    let t = to.len() as int;
    assert(to.take(t) =~= to);
    lemma_trim_word(to);
    if let Some(c) = to_side {
        lemma_find_char_at(right, ':', 1);
        assert(right.take(1) =~= seq![c]);
        assert(right.skip(2) =~= to);
        lemma_trim_word(seq![c]);
    } else {
        assert forall|j: int| 0 <= j < right.len() implies right[j] != ':' by {
            assert(is_ident(to[j]));
        }
        lemma_find_char_none(right, ':');
    }
}

/// An edge written out reads back as written: both ends, the side named
/// beside each (none where none is written), and an arrow head at the start
/// or the end exactly where the arrow has one.
pub proof fn an_edge_line_reads_back(
    from: Seq<char>,
    from_side: Option<char>,
    k: int,
    to_side: Option<char>,
    to: Seq<char>,
)
    requires
        identifier(from),
        identifier(to),
        0 <= k < 8,
        from_side matches Some(c) ==> side_from_letter(c) is Some,
        to_side matches Some(c) ==> side_from_letter(c) is Some,
    ensures
        edge_of(edge_line(from, from_side, k, to_side, to)) == Some(
            EdgeView {
                from,
                from_side: side_written(from_side),
                to,
                to_side: side_written(to_side),
                arrow_start: arrow_of(k)[0] == '<',
                arrow_end: arrow_of(k).last() == '>',
            },
        ),
{
    lemma_arrows_written(k);
    let left = match from_side {
        Some(c) => from + seq![':', c],
        None => from,
    };
    let right = match to_side {
        Some(c) => seq![c, ':'] + to,
        None => to,
    };
    let a = arrow_of(k);
    let line = edge_line(from, from_side, k, to_side, to);
    let f = from.len() as int;
    let p = left.len() + 1 as int;
    assert(line =~= left + seq![' '] + a + seq![' '] + right);
    assert forall|i: int| 0 <= i < p implies #[trigger] line[i] != '<' && line[i] != '-' by {
        assert(line[i] == (left + seq![' '])[i]);
        if i < f {
            assert(line[i] == from[i]);
            assert(is_ident(from[i]));
        }
    }
    lemma_scan_to(line, 0, p);
    let tail = line.skip(p);
    assert(tail =~= a + seq![' '] + right);
    assert(tail.take(a.len() as int) =~= a);
    lemma_arrow_read(tail, k, 0);
    assert(find_arrow_of(line) == Some((p, a)));
    assert(line.take(p) =~= left + seq![' ']);
    lemma_source_end(from, from_side);
    assert(line.skip(p + a.len() as int) =~= seq![' '] + right);
    lemma_target_end(to, to_side);
}

/// A declaration written out in full: the keyword, the id, the icon in round
/// brackets, the title in square ones, and the group after `in`.
pub open spec fn declaration_line(
    keyword: Seq<char>,
    id: Seq<char>,
    icon: Seq<char>,
    title: Seq<char>,
    group: Seq<char>,
) -> Seq<char> {
    keyword + seq![' '] + id + seq!['('] + icon + seq![')', '['] + title + seq![']', ' ', 'i', 'n', ' ']
        + group
}

/// A bracketed run reads as its contents, trimmed, when nothing inside it
/// closes it early.
proof fn lemma_bracketed(inner: Seq<char>, open: char, close: char, after: Seq<char>)
    requires
        forall|i: int| 0 <= i < inner.len() ==> #[trigger] inner[i] != close,
    ensures
        bracketed_of(seq![open] + inner + seq![close] + after, open, close) == (
            trim(inner),
            trim_start(after),
        ),
{
    let text = seq![open] + inner + seq![close] + after;
    let body = text.drop_first();
    assert(body =~= inner + seq![close] + after);
    assert forall|j: int| 0 <= j < inner.len() implies body[j] != close by {
        assert(body[j] == inner[j]);
    }
    lemma_find_char_at(body, close, inner.len() as int);
    assert(body.take(inner.len() as int) =~= inner);
    assert(body.skip(inner.len() + 1 as int) =~= after);
}

/// An identifier followed by an opening bracket reads as that identifier.
proof fn lemma_leading_name(id: Seq<char>, after: Seq<char>)
    requires
        identifier(id),
        after.len() > 0,
        !is_ident(after[0]),
        !is_ws(after[0]),
    ensures
        name_of(id + after) == Some((id, after)),
{
    lemma_ident_prefix(id, after);
    assert((id + after).take(id.len() as int) =~= id);
    assert((id + after).skip(id.len() as int) =~= after);
}

/// `in` and a group name read as that group.
proof fn lemma_group_named(group: Seq<char>)
    requires
        identifier(group),
    ensures
        trim_start(seq![' ', 'i', 'n', ' '] + group) == seq!['i', 'n', ' '] + group,
        after_keyword_of(seq!['i', 'n', ' '] + group, "in"@) == Some(group),
        name_of(group) == Some((group, Seq::<char>::empty())),
{
    reveal_strlit("in");
    let word = seq!['i', 'n', ' '] + group;
    assert((seq![' ', 'i', 'n', ' '] + group).drop_first() =~= word);
    assert(trim_start(word) == word);
    assert("in"@ =~= seq!['i', 'n']);
    assert(word.take(2) =~= "in"@);
    assert(word.skip(2) =~= seq![' '] + group);
    assert((seq![' '] + group).drop_first() =~= group);
    assert(trim_start(seq![' '] + group) == trim_start(group));
    assert(is_ident(group[0]));
    assert(is_ident(group.last()));
    lemma_trim_word(group);
    lemma_identifier_run(group);
    assert(group.take(group.len() as int) =~= group);
    assert(group.skip(group.len() as int) =~= Seq::<char>::empty());
}

/// A declaration written out in full reads back as written: its id, the
/// icon and the title trimmed (the id standing in for a blank title), and its
/// group.
pub proof fn a_declaration_line_reads_back(
    keyword: Seq<char>,
    kind: Kind,
    id: Seq<char>,
    icon: Seq<char>,
    title: Seq<char>,
    group: Seq<char>,
)
    requires
        identifier(id),
        identifier(group),
        forall|i: int| 0 <= i < icon.len() ==> #[trigger] icon[i] != ')',
        forall|i: int| 0 <= i < title.len() ==> #[trigger] title[i] != ']',
    ensures
        declaration_of(declaration_line(keyword, id, icon, title, group), keyword, kind) == Some(
            ItemView {
                id,
                kind,
                icon: trim(icon),
                title: if trim(title).len() == 0 {
                    id
                } else {
                    trim(title)
                },
                parent: group,
            },
        ),
{
    let line = declaration_line(keyword, id, icon, title, group);
    let kl = keyword.len() as int;
    let after_group = seq![' ', 'i', 'n', ' '] + group;
    let after_title = seq!['['] + title + seq![']'] + after_group;
    let after_icon = seq!['('] + icon + seq![')'] + after_title;
    let rest = id + after_icon;
    assert(line =~= keyword + seq![' '] + rest);
    assert(line.take(kl) =~= keyword);
    assert(line.skip(kl) =~= seq![' '] + rest);
    assert((seq![' '] + rest).drop_first() =~= rest);
    assert(is_ident(id[0]));
    assert(is_ident(group.last()));
    assert(rest[0] == id[0]);
    assert(rest.last() == group.last());
    assert(trim_start(seq![' '] + rest) == trim_start(rest));
    lemma_trim_word(rest);
    assert(after_keyword_of(line, keyword) == Some(rest));
    lemma_leading_name(id, after_icon);
    assert(trim_start(after_icon) == after_icon);
    lemma_bracketed(icon, '(', ')', after_title);
    assert(trim_start(after_title) == after_title);
    lemma_bracketed(title, '[', ']', after_group);
    lemma_group_named(group);
}

/// A run of identifier characters followed by one that is not reads to its
/// end.
proof fn lemma_ident_prefix(id: Seq<char>, after: Seq<char>)
    requires
        identifier(id),
        after.len() > 0,
        !is_ident(after[0]),
    ensures
        ident_run(id + after) == id.len(),
    decreases id.len(),
{
    let s = id + after;
    assert(s[0] == id[0]);
    if id.len() > 1 {
        assert(s.drop_first() =~= id.drop_first() + after);
        lemma_ident_prefix(id.drop_first(), after);
    } else {
        assert(s.drop_first() =~= after);
        assert(ident_run(after) == 0);
    }
}

} // verus!
