//! What lines written in the usual form read as: a `class` line, a generic
//! name, a stereotype, a member line, and a relationship line with its
//! multiplicities and label each come back as written.
use vstd::prelude::*;

use super::parser::{
    after_keyword_of, annotation_of, arrow_after, arrow_in_table, classifier_of,
    declaration_of, generic_of, head_cardinality_of, lone_name_of, member_of,
    relationship_of, tail_cardinality_of, visibility_split, DeclarationView,
};
use super::types::{
    arrow_table, no_arrow_hides_a_later_one, visibility_named, MemberView, RelationshipView,
    Visibility,
};
use crate::text::{
    drop_trailing, find_char, find_ws, has_ws, is_ws, lemma_find_char, lemma_find_char_at,
    lemma_find_char_none, lemma_find_ws_from, lemma_rfind_char_at, split_once, starts_with, trim,
    trim_end, trim_start,
};

verus! {

/// A run of characters with no white space and no double quote in it.
pub open spec fn unbroken(s: Seq<char>) -> bool {
    forall|i: int| 0 <= i < s.len() ==> !is_ws(#[trigger] s[i]) && s[i] != '"'
}

/// A relationship written out in full:
/// `FROM "c1" ARROW "c2" TO : LABEL`.
pub open spec fn relationship_line(
    from: Seq<char>,
    from_cardinality: Seq<char>,
    arrow: Seq<char>,
    to_cardinality: Seq<char>,
    to: Seq<char>,
    label: Seq<char>,
) -> Seq<char> {
    from + seq![' ', '"'] + from_cardinality + seq!['"', ' '] + arrow + seq![' ', '"']
        + to_cardinality + seq!['"', ' '] + to + seq![' ', ':', ' '] + label
}

proof fn lemma_arrow_chars(j: int)
    requires
        0 <= j < 13,
    ensures
        arrow_table()[j].0.len() > 0,
        arrow_table()[j].0[0] != '"',
        forall|i: int|
            0 <= i < arrow_table()[j].0.len() ==> !is_ws(#[trigger] arrow_table()[j].0[i]),
{
    reveal_strlit("<|--");
    reveal_strlit("--|>");
    reveal_strlit("<|..");
    reveal_strlit("..|>");
    reveal_strlit("*--");
    reveal_strlit("--*");
    reveal_strlit("o--");
    reveal_strlit("--o");
    reveal_strlit("-->");
    reveal_strlit("<--");
    reveal_strlit("..>");
    reveal_strlit("<..");
    reveal_strlit("--");
}

/// No arrow opens with a double quote.
proof fn lemma_no_arrow_at_quote(tail: Seq<char>, j: int)
    requires
        tail.len() > 0,
        tail[0] == '"',
    ensures
        arrow_in_table(tail, j) is None,
    decreases 13 - j,
{
    if 0 <= j < 13 {
        lemma_arrow_chars(j);
        let a = arrow_table()[j].0;
        if starts_with(tail, a) {
            assert(tail.take(a.len() as int)[0] == a[0]);
        }
        lemma_no_arrow_at_quote(tail, j + 1);
    }
}

/// An arrow of the table followed by white space is read as itself.
proof fn lemma_arrow_found(tail: Seq<char>, k: int, j: int)
    requires
        0 <= j <= k < 13,
        starts_with(tail, arrow_table()[k].0),
        arrow_table()[k].0.len() < tail.len(),
        is_ws(tail[arrow_table()[k].0.len() as int]),
    ensures
        arrow_in_table(tail, j) == Some(k),
    decreases k - j,
{
    if j < k {
        let a = arrow_table()[j].0;
        let b = arrow_table()[k].0;
        no_arrow_hides_a_later_one(j, k);
        lemma_arrow_chars(j);
        if starts_with(tail, a) && a.len() < tail.len() && is_ws(tail[a.len() as int]) {
            if a.len() <= b.len() {
                assert(b.take(a.len() as int) =~= tail.take(a.len() as int));
                assert(starts_with(b, a));
            } else {
                assert(a[b.len() as int] == tail.take(a.len() as int)[b.len() as int]);
                assert(!is_ws(a[b.len() as int]));
            }
        }
        lemma_arrow_found(tail, k, j + 1);
    }
}

/// Scanning from `at` reaches `p` unchanged when every position in between
/// either follows no white space or holds a double quote.
proof fn lemma_scan_to(line: Seq<char>, at: int, p: int)
    requires
        0 <= at <= p < line.len(),
        forall|i: int|
            at <= i < p ==> i == 0 || !is_ws(#[trigger] line[i - 1]) || line[i] == '"',
    ensures
        arrow_after(line, at) == arrow_after(line, p),
    decreases p - at,
{
    if at < p {
        if at > 0 && is_ws(line[at - 1]) {
            lemma_no_arrow_at_quote(line.skip(at), 0);
        }
        lemma_scan_to(line, at + 1, p);
    }
}

proof fn lemma_trim_unbroken(s: Seq<char>)
    requires
        s.len() > 0,
        !is_ws(s[0]),
        !is_ws(s.last()),
    ensures
        trim(s) == s,
{
    assert(trim_start(s) == s);
    assert(trim_end(s) == s);
}

proof fn lemma_trim_after_space(s: Seq<char>)
    ensures
        trim(seq![' '] + s) == trim(s),
{
    assert((seq![' '] + s).drop_first() =~= s);
    assert(trim_start(seq![' '] + s) == trim_start(s));
}

proof fn lemma_trim_before_space(s: Seq<char>)
    requires
        s.len() > 0,
        !is_ws(s[0]),
        !is_ws(s.last()),
    ensures
        trim(s + seq![' ']) == s,
{
    let t = s + seq![' '];
    assert(t[0] == s[0]);
    assert(trim_start(t) == t);
    assert(t.drop_last() =~= s);
    assert(trim_end(t) == trim_end(s));
    assert(trim_end(s) == s);
}

/// The source, its quoted multiplicity and the space before the arrow hold
/// no arrow that the scan could stop at.
proof fn lemma_scan_past_source(line: Seq<char>, from: Seq<char>, from_cardinality: Seq<char>)
    requires
        from.len() > 0,
        unbroken(from),
        unbroken(from_cardinality),
        line.len() > from.len() + from_cardinality.len() + 4,
        line.take(from.len() + from_cardinality.len() + 4 as int) == from + seq![' ', '"']
            + from_cardinality + seq!['"', ' '],
    ensures
        arrow_after(line, 0) == arrow_after(line, from.len() + from_cardinality.len() + 4 as int),
{
    let f = from.len() as int;
    let n1 = from_cardinality.len() as int;
    let p = f + n1 + 4;
    let h = line.take(p);
    assert forall|i: int| 0 <= i < p implies i == 0 || !is_ws(#[trigger] line[i - 1]) || line[i]
        == '"' by {
        assert(line[i] == h[i]);
        if i > 0 {
            assert(line[i - 1] == h[i - 1]);
        }
        if 0 < i <= f {
            assert(h[i - 1] == from[i - 1]);
        } else if i == f + 1 {
            assert(h[i] == '"');
        } else if i == f + 2 {
            assert(h[i - 1] == '"');
        } else if f + 2 < i < f + 3 + n1 {
            assert(h[i - 1] == from_cardinality[i - f - 3]);
        } else if i == p - 1 {
            assert(h[i - 1] == '"');
        }
    }
    lemma_scan_to(line, 0, p);
}

/// The text before the arrow gives the source and its multiplicity.
proof fn lemma_source_side(from: Seq<char>, from_cardinality: Seq<char>)
    requires
        from.len() > 0,
        unbroken(from),
        unbroken(from_cardinality),
    ensures
        tail_cardinality_of(
            trim(from + seq![' ', '"'] + from_cardinality + seq!['"', ' ']),
        ) == Some((from, from_cardinality)),
        lone_name_of(from) == Some(from),
{
    let f = from.len() as int;
    let head = from + seq![' ', '"'] + from_cardinality + seq!['"'];
    assert(from + seq![' ', '"'] + from_cardinality + seq!['"', ' '] =~= head + seq![' ']);
    assert(head[0] == from[0]);
    lemma_trim_before_space(head);
    let body = head.drop_last();
    assert(body =~= from + seq![' ', '"'] + from_cardinality);
    assert forall|j: int| f + 1 < j < body.len() implies body[j] != '"' by {
        assert(body[j] == from_cardinality[j - f - 2]);
    }
    lemma_rfind_char_at(body, '"', f + 1);
    assert(body.take(f + 1) =~= from + seq![' ']);
    assert(body.skip(f + 2) =~= from_cardinality);
    lemma_trim_before_space(from);
    lemma_trim_unbroken(from);
    assert(!has_ws(from));
}

/// The text after the arrow gives the target's multiplicity, the target and
/// the label.
proof fn lemma_target_side(to_cardinality: Seq<char>, to: Seq<char>, label: Seq<char>)
    requires
        to.len() > 0,
        unbroken(to),
        forall|i: int| 0 <= i < to.len() ==> #[trigger] to[i] != ':',
        unbroken(to_cardinality),
        label.len() > 0,
        !is_ws(label.last()),
    ensures
        ({
            let after = to + seq![' ', ':', ' '] + label;
            &&& head_cardinality_of(
                trim(
                    seq![' ', '"'] + to_cardinality + seq!['"', ' '] + to + seq![' ', ':', ' ']
                        + label,
                ),
            ) == Some((after, to_cardinality))
            &&& split_once(after, ':') == Some((to + seq![' '], seq![' '] + label))
            &&& trim(seq![' '] + label) == trim(label)
            &&& lone_name_of(to + seq![' ']) == Some(to)
        }),
{
    let n2 = to_cardinality.len() as int;
    let t = to.len() as int;
    let rest = seq!['"'] + to_cardinality + seq!['"', ' '] + to + seq![' ', ':', ' '] + label;
    assert(seq![' ', '"'] + to_cardinality + seq!['"', ' '] + to + seq![' ', ':', ' '] + label
        =~= seq![' '] + rest);
    lemma_trim_after_space(rest);
    assert(rest.last() == label.last());
    lemma_trim_unbroken(rest);
    let inner = rest.drop_first();
    assert(inner =~= to_cardinality + seq!['"', ' '] + to + seq![' ', ':', ' '] + label);
    assert forall|j: int| 0 <= j < n2 implies inner[j] != '"' by {
        assert(inner[j] == to_cardinality[j]);
    }
    lemma_find_char_at(inner, '"', n2);
    let after = to + seq![' ', ':', ' '] + label;
    assert(inner.skip(n2 + 1) =~= seq![' '] + after);
    assert(inner.take(n2) =~= to_cardinality);
    lemma_trim_after_space(after);
    assert(after[0] == to[0]);
    assert(after.last() == label.last());
    lemma_trim_unbroken(after);
    assert forall|j: int| 0 <= j < t + 1 implies after[j] != ':' by {
        if j < t {
            assert(after[j] == to[j]);
        }
    }
    lemma_find_char_at(after, ':', t + 1);
    assert(after.take(t + 1) =~= to + seq![' ']);
    assert(after.skip(t + 2) =~= seq![' '] + label);
    lemma_trim_after_space(label);
    lemma_trim_before_space(to);
    assert(!has_ws(to));
}

/// A relationship written out in full reads back as written: its two ends,
/// the arrow's meaning and the end it marks, the multiplicity quoted beside
/// each end, and the label after the colon. Multiplicities are any run
/// without white space or quotes, the empty one included; names are
/// non-empty runs of the same kind, the target's without a colon.
pub proof fn a_relationship_line_reads_back(
    from: Seq<char>,
    from_cardinality: Seq<char>,
    k: int,
    to_cardinality: Seq<char>,
    to: Seq<char>,
    label: Seq<char>,
)
    requires
        0 <= k < 13,
        from.len() > 0,
        unbroken(from),
        to.len() > 0,
        unbroken(to),
        forall|i: int| 0 <= i < to.len() ==> #[trigger] to[i] != ':',
        unbroken(from_cardinality),
        unbroken(to_cardinality),
        label.len() > 0,
        !is_ws(label.last()),
    ensures
        relationship_of(
            relationship_line(
                from,
                from_cardinality,
                arrow_table()[k].0,
                to_cardinality,
                to,
                label,
            ),
        ) == Some(
            RelationshipView {
                from,
                to,
                kind: arrow_table()[k].1,
                marker_at: arrow_table()[k].2,
                label: trim(label),
                from_cardinality,
                to_cardinality,
            },
        ),
{
    let arrow = arrow_table()[k].0;
    let line = relationship_line(from, from_cardinality, arrow, to_cardinality, to, label);
    let p = from.len() + from_cardinality.len() + 4 as int;
    let a = arrow.len() as int;
    let before = from + seq![' ', '"'] + from_cardinality + seq!['"', ' '];
    let beyond = seq![' ', '"'] + to_cardinality + seq!['"', ' '] + to + seq![' ', ':', ' ']
        + label;
    assert(line =~= before + arrow + beyond);
    assert(line.take(p) =~= before);
    lemma_scan_past_source(line, from, from_cardinality);
    let tail = line.skip(p);
    assert(tail =~= arrow + beyond);
    assert(tail.take(a) =~= arrow);
    lemma_arrow_chars(k);
    lemma_arrow_found(tail, k, 0);
    assert(line.skip(p + a) =~= beyond);
    lemma_source_side(from, from_cardinality);
    lemma_target_side(to_cardinality, to, label);
}

/// A member written out as a field: an optional visibility mark, the type,
/// one space, the name, and an optional `$` or `*` after it.
pub open spec fn field_line(
    mark: Option<char>,
    kind: Seq<char>,
    name: Seq<char>,
    classifier: Option<char>,
) -> Seq<char> {
    let opening = match mark {
        Some(c) => seq![c],
        None => Seq::empty(),
    };
    let closing = match classifier {
        Some(c) => seq![c],
        None => Seq::empty(),
    };
    opening + kind + seq![' '] + name + closing
}

/// A run of characters that a member's type or name can be: no white space
/// and no parenthesis, which would make the member a method.
pub open spec fn plain_word(s: Seq<char>) -> bool {
    s.len() > 0 && forall|i: int| 0 <= i < s.len() ==> !is_ws(#[trigger] s[i]) && s[i] != '('
}

/// A field written out reads back as written: the visibility its mark
/// names (unstated without one), the type before the space and the name
/// after it, no parameters, and static or abstract exactly when a `$` or a
/// `*` ends the line.
pub proof fn a_field_line_reads_back(
    mark: Option<char>,
    kind: Seq<char>,
    name: Seq<char>,
    classifier: Option<char>,
)
    requires
        mark matches Some(c) ==> visibility_named(c) is Some,
        plain_word(kind),
        visibility_named(kind[0]) is None,
        plain_word(name),
        name.last() != '$' && name.last() != '*' && name.last() != ';',
        classifier is None || classifier == Some('$') || classifier == Some('*'),
    ensures
        member_of(field_line(mark, kind, name, classifier)) == Some(
            MemberView {
                visibility: match mark {
                    Some(c) => visibility_named(c)->0,
                    None => Visibility::Unstated,
                },
                name,
                kind,
                params: None,
                is_static: classifier == Some('$'),
                is_abstract: classifier == Some('*'),
            },
        ),
{
    let line = field_line(mark, kind, name, classifier);
    let text = kind + seq![' '] + name;
    let body = match classifier {
        Some(c) => text + seq![c],
        None => text,
    };
    let kl = kind.len() as int;
    assert(line =~= match mark {
        Some(c) => seq![c] + body,
        None => body,
    });
    assert(text[0] == kind[0]);
    assert(text.last() == name.last());
    assert(body[0] == kind[0]);
    assert(body.last() != ';' && !is_ws(body.last()));
    assert(line.last() == body.last());
    lemma_trim_unbroken(body);
    if let Some(c) = mark {
        assert(line[0] == c);
        assert(line.drop_first() =~= body);
    }
    lemma_trim_unbroken(line);
    assert(drop_trailing(line, ';') == line);
    assert(visibility_split(line) == (
    match mark {
        Some(c) => visibility_named(c)->0,
        None => Visibility::Unstated,
    },
    body,
    ));
    assert forall|j: int| 0 <= j < body.len() implies body[j] != '(' by {
        if j < kl {
            assert(body[j] == kind[j]);
        } else if kl < j < text.len() {
            assert(body[j] == name[j - kl - 1]);
        }
    }
    lemma_find_char_none(body, '(');
    if classifier is Some {
        assert(body.drop_last() =~= text);
    }
    assert(classifier_of(body) == (text, classifier == Some('$'), classifier == Some('*')));
    assert forall|j: int| 0 <= j < kl implies !is_ws(#[trigger] text[j]) by {
        assert(text[j] == kind[j]);
    }
    lemma_find_ws_from(text, kl);
    assert(text.skip(kl)[0] == ' ');
    assert(find_ws(text.skip(kl)) == Some(0int));
    assert(text.take(kl) =~= kind);
    assert(text.skip(kl + 1) =~= name);
    lemma_trim_unbroken(kind);
    lemma_trim_unbroken(name);
}

/// A generic name `Id~Param~` is the class `Id`, drawn `Id<Param>`, when the
/// id is non-empty and free of tildes and a parameter is written.
pub proof fn a_generic_is_drawn_in_angle_brackets(id: Seq<char>, param: Seq<char>)
    requires
        id.len() > 0,
        forall|i: int| 0 <= i < id.len() ==> #[trigger] id[i] != '~',
        param.len() > 0,
    ensures
        generic_of(id + seq!['~'] + param + seq!['~']) == (
            id,
            id + seq!['<'] + param + seq!['>'],
        ),
{
    let name = id + seq!['~'] + param + seq!['~'];
    let body = name.drop_last();
    assert(body =~= id + seq!['~'] + param);
    assert forall|j: int| 0 <= j < id.len() implies body[j] != '~' by {
        assert(body[j] == id[j]);
    }
    lemma_find_char_at(body, '~', id.len() as int);
    assert(body.take(id.len() as int) =~= id);
    assert(body.skip(id.len() + 1 as int) =~= param);
}

/// A `<<stereotype>>` line names what its brackets hold, trimmed, when that
/// is not blank.
pub proof fn a_stereotype_is_what_its_brackets_hold(inner: Seq<char>)
    requires
        trim(inner).len() > 0,
    ensures
        annotation_of(seq!['<', '<'] + inner + seq!['>', '>']) == Some(trim(inner)),
{
    reveal_strlit("<<");
    reveal_strlit(">>");
    let line = seq!['<', '<'] + inner + seq!['>', '>'];
    assert(line.take(2) =~= "<<"@);
    let a = line.skip(2);
    assert(a =~= inner + seq!['>', '>']);
    assert(a.skip(a.len() - 2) =~= ">>"@);
    assert(a.take(a.len() - 2) =~= inner);
}

/// A `class` line written as the keyword, one space and a name, with ` {`
/// after it where a body follows.
pub open spec fn class_line(name: Seq<char>, opens: bool) -> Seq<char> {
    let head = seq!['c', 'l', 'a', 's', 's', ' '] + name;
    if opens {
        head + seq![' ', '{']
    } else {
        head
    }
}

/// A `class` line declares the class its name names, drawn with the label
/// its generic gives, and opens a body exactly when a `{` ends it.
pub proof fn a_class_line_declares_its_name(name: Seq<char>, opens: bool)
    requires
        name.len() > 0,
        forall|i: int| 0 <= i < name.len() ==> !is_ws(#[trigger] name[i]) && name[i] != '{',
    ensures
        declaration_of(class_line(name, opens)) == Some(
            DeclarationView {
                id: generic_of(name).0,
                label: generic_of(name).1,
                opens,
                annotation: Seq::empty(),
            },
        ),
{
    reveal_strlit("class");
    let line = class_line(name, opens);
    let opening = if opens {
        seq![' ', '{']
    } else {
        Seq::empty()
    };
    let rest = name + opening;
    assert("class"@ =~= seq!['c', 'l', 'a', 's', 's']);
    assert(line =~= "class"@ + seq![' '] + rest);
    assert(line.take(5) =~= "class"@);
    assert(line.skip(5) =~= seq![' '] + rest);
    assert((seq![' '] + rest).drop_first() =~= rest);
    assert(rest[0] == name[0]);
    assert(!is_ws(rest.last()));
    assert(trim_start(seq![' '] + rest) == trim_start(rest));
    lemma_trim_unbroken(rest);
    assert(after_keyword_of(line, "class"@) == Some(rest));
    if opens {
        assert forall|j: int| 0 <= j < name.len() + 1 implies rest[j] != '{' by {
            if j < name.len() {
                assert(rest[j] == name[j]);
            }
        }
        lemma_find_char_at(rest, '{', name.len() + 1 as int);
        assert(rest.skip(name.len() + 2 as int) =~= Seq::<char>::empty());
        assert(trim(Seq::<char>::empty()) =~= Seq::<char>::empty());
        assert(rest.take(name.len() + 1 as int) =~= name + seq![' ']);
        lemma_trim_before_space(name);
    } else {
        assert(rest =~= name);
        lemma_find_char_none(name, '{');
    }
    let (id, label) = generic_of(name);
    if name.last() == '~' {
        let body = name.drop_last();
        lemma_find_char(body, '~');
        if let Some(k) = find_char(body, '~') {
            assert forall|j: int| 0 <= j < k implies #[trigger] body.take(k)[j] == name[j] by {}
        }
    }
    assert(id.len() > 0);
    assert(!has_ws(id));
}

} // verus!
