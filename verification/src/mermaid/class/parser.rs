//! Reading `classDiagram` source.
//!
//! Every interesting decision here is a function over one line, so it can be
//! tested by handing it that line. The reader itself only decides which of
//! them to try, and in what order.
//!
//! `namespace` blocks are recognised and stepped over rather than modelled:
//! the classes inside them are declared as normal, and nothing is drawn round
//! them.
use vstd::prelude::*;

use super::types::{
    arrow_table, class_index, Class, ClassView, Diagram, DiagramView, End, Member, MemberView,
    Relation, Relationship, RelationshipView, Visibility, visibility_named, ARROWS,
};
use crate::text::{
    lines, lower_all, lowercase, split_lines, chars_of, drop_trailing, ends_with, find_char, find_ws, has_prefix, has_suffix, has_ws,
    is_ws, position, rfind_char, last_position, slice, split_once, starts_with, string_of,
    strip_prefix, strip_suffix, trim, trim_bounds, trimmed, without_trailing, ws, ws_position,
    any_ws, concat, is_blank, blank,
};

verus! {

/// The text after a leading keyword, when the line starts with it as a word.
pub open spec fn after_keyword_of(line: Seq<char>, keyword: Seq<char>) -> Option<Seq<char>> {
    match strip_prefix(line, keyword) {
        Some(rest) => if rest.len() > 0 && is_ws(rest[0]) {
            Some(trim(rest))
        } else {
            None
        },
        None => None,
    }
}

/// The text after a leading keyword, when the line starts with it.
///
/// The keyword has to be a word, not a prefix: `classy` is not `class`.
pub fn after_keyword<'a>(line: &'a str, keyword: &str) -> (r: Option<&'a str>)
    ensures
        match r {
            Some(t) => after_keyword_of(line@, keyword@) == Some(t@),
            None => after_keyword_of(line@, keyword@) is None,
        },
{
    let lc = chars_of(line);
    let kc = chars_of(keyword);
    if !has_prefix(&lc, &kc) {
        return None;
    }
    let k = kc.len();
    if k >= lc.len() || !ws(lc[k]) {
        return None;
    }
    let (a, b) = trim_bounds(&lc, k, lc.len());
    assert(lc@.skip(k as int) == lc@.subrange(k as int, lc@.len() as int));
    Some(line.substring_char(a, b))
}

/// The stereotype a `<<…>>` line names.
pub open spec fn annotation_of(line: Seq<char>) -> Option<Seq<char>> {
    match strip_prefix(line, "<<"@) {
        None => None,
        Some(a) => match strip_suffix(a, ">>"@) {
            None => None,
            Some(b) => if trim(b).len() > 0 {
                Some(trim(b))
            } else {
                None
            },
        },
    }
}

/// The stereotype a `<<…>>` line names.
pub fn annotation(line: &str) -> (r: Option<&str>)
    ensures
        match r {
            Some(t) => annotation_of(line@) == Some(t@),
            None => annotation_of(line@) is None,
        },
{
    proof {
        reveal_strlit("<<");
        reveal_strlit(">>");
    }
    let lc = chars_of(line);
    if !has_prefix(&lc, &chars_of("<<")) {
        return None;
    }
    let a = slice(&lc, 2, lc.len());
    assert(a@ == lc@.skip(2));
    if !has_suffix(&a, &chars_of(">>")) {
        return None;
    }
    let (x, y) = trim_bounds(&lc, 2, lc.len() - 2);
    assert(a@.take(a@.len() - 2) == lc@.subrange(2, lc@.len() - 2));
    if x == y {
        return None;
    }
    Some(line.substring_char(x, y))
}

/// A name and the label it is drawn with, a `~T~` generic split off.
pub open spec fn generic_of(name: Seq<char>) -> (Seq<char>, Seq<char>) {
    if name.len() > 0 && name.last() == '~' {
        match split_once(name.drop_last(), '~') {
            Some((id, param)) => if id.len() > 0 && param.len() > 0 {
                (id, id + seq!['<'] + param + seq!['>'])
            } else {
                (name, name)
            },
            None => (name, name),
        }
    } else {
        (name, name)
    }
}

/// A name and the label it is drawn with, splitting off a `~T~` generic.
///
/// `Box~Item~` is drawn `Box<Item>`: the tildes are how angle brackets are
/// written where `<` already means something.
pub fn generic(name: &str) -> (r: (String, String))
    ensures
        (r.0@, r.1@) == generic_of(name@),
{
    let nc = chars_of(name);
    if nc.len() == 0 || nc[nc.len() - 1] != '~' {
        return (name.to_owned(), name.to_owned());
    }
    let body = slice(&nc, 0, nc.len() - 1);
    match position(&body, '~') {
        Some(k) => {
            if k > 0 && k + 1 < body.len() {
                let id = slice(&body, 0, k);
                let param = slice(&body, k + 1, body.len());
                assert(id@ == body@.take(k as int));
                assert(param@ == body@.skip(k + 1));
                let mut label = id.clone();
                label.push('<');
                let mut label = concat(&label, &param);
                label.push('>');
                assert(label@ =~= id@ + seq!['<'] + param@ + seq!['>']);
                (string_of(&id), string_of(&label))
            } else {
                assert(body@.take(k as int).len() == 0 || body@.skip(k + 1).len() == 0);
                (name.to_owned(), name.to_owned())
            }
        },
        None => (name.to_owned(), name.to_owned()),
    }
}

/// A `class` line, whatever form it was written in.
#[derive(Debug, Clone, PartialEq, Eq)]
pub struct Declaration {
    pub id: String,
    pub label: String,
    /// A body follows on the lines below.
    pub opens: bool,
    /// A `<<stereotype>>` written inside braces on this same line.
    pub annotation: String,
}

pub struct DeclarationView {
    pub id: Seq<char>,
    pub label: Seq<char>,
    pub opens: bool,
    pub annotation: Seq<char>,
}

impl View for Declaration {
    type V = DeclarationView;

    open spec fn view(&self) -> DeclarationView {
        DeclarationView {
            id: self.id@,
            label: self.label@,
            opens: self.opens,
            annotation: self.annotation@,
        }
    }
}

/// The head of a `class` line, whether a body opens below it, and the
/// stereotype written in braces on it; `None` when the braces hold anything
/// else.
pub open spec fn class_head_of(rest: Seq<char>) -> Option<(Seq<char>, bool, Seq<char>)> {
    match find_char(rest, '{') {
        None => Some((rest, false, Seq::empty())),
        Some(open) => {
            let inside = trim(rest.skip(open + 1));
            let head = trim(rest.take(open));
            if inside.len() > 0 && inside.last() == '}' {
                let body = trim(inside.drop_last());
                if body.len() == 0 {
                    Some((head, false, Seq::empty()))
                } else {
                    match annotation_of(body) {
                        Some(a) => Some((head, false, a)),
                        None => None,
                    }
                }
            } else if inside.len() == 0 {
                Some((head, true, Seq::empty()))
            } else {
                None
            }
        },
    }
}

/// What a `class …` line declares.
pub open spec fn declaration_of(line: Seq<char>) -> Option<DeclarationView> {
    match after_keyword_of(line, "class"@) {
        None => None,
        Some(rest) => match class_head_of(rest) {
            None => None,
            Some((head, opens, annotation)) => {
                let (id, label) = generic_of(head);
                if id.len() == 0 || has_ws(id) {
                    None
                } else {
                    Some(DeclarationView { id, label, opens, annotation })
                }
            },
        },
    }
}

fn class_head(rest: &str) -> (r: Option<(String, bool, String)>)
    ensures
        match r {
            Some((h, o, a)) => class_head_of(rest@) == Some((h@, o, a@)),
            None => class_head_of(rest@) is None,
        },
{
    let rc = chars_of(rest);
    let open = match position(&rc, '{') {
        Some(k) => k,
        None => return Some((rest.to_owned(), false, String::new())),
    };
    let inside = trimmed(&slice(&rc, open + 1, rc.len()));
    assert(rc@.skip(open + 1) == rc@.subrange(open + 1, rc@.len() as int));
    let head = trimmed(&slice(&rc, 0, open));
    assert(rc@.take(open as int) == rc@.subrange(0, open as int));
    if inside.len() > 0 && inside[inside.len() - 1] == '}' {
        let body = trimmed(&slice(&inside, 0, inside.len() - 1));
        if body.len() == 0 {
            return Some((string_of(&head), false, String::new()));
        }
        let text = string_of(&body);
        match annotation(text.as_str()) {
            Some(a) => Some((string_of(&head), false, a.to_owned())),
            None => None,
        }
    } else {
        if inside.len() == 0 {
            Some((string_of(&head), true, String::new()))
        } else {
            None
        }
    }
}

/// What a `class …` line declares.
pub fn declaration(line: &str) -> (r: Option<Declaration>)
    ensures
        match r {
            Some(d) => declaration_of(line@) == Some(d@),
            None => declaration_of(line@) is None,
        },
{
    let rest = after_keyword(line, "class")?;
    let (head, opens, annotation) = class_head(rest)?;
    let (id, label) = generic(head.as_str());
    let ic = chars_of(id.as_str());
    if ic.len() == 0 || any_ws(&ic) {
        return None;
    }
    Some(Declaration { id, label, opens, annotation })
}

/// A trailing `$` or `*`: static, or abstract; and the text without it.
pub open spec fn classifier_of(text: Seq<char>) -> (Seq<char>, bool, bool) {
    if text.len() > 0 && text.last() == '$' {
        (text.drop_last(), true, false)
    } else if text.len() > 0 && text.last() == '*' {
        (text.drop_last(), false, true)
    } else {
        (text, false, false)
    }
}

/// A trailing `$` or `*`: static, and abstract. Returns the text without it.
pub fn classifier(text: &str) -> (r: (&str, bool, bool))
    ensures
        (r.0@, r.1, r.2) == classifier_of(text@),
{
    let tc = chars_of(text);
    let n = tc.len();
    if n > 0 && tc[n - 1] == '$' {
        assert(tc@.subrange(0, n - 1) == tc@.drop_last());
        return (text.substring_char(0, n - 1), true, false);
    }
    if n > 0 && tc[n - 1] == '*' {
        assert(tc@.subrange(0, n - 1) == tc@.drop_last());
        return (text.substring_char(0, n - 1), false, true);
    }
    (text, false, false)
}

/// The visibility a member opens with, and what is left after it.
pub open spec fn visibility_split(text: Seq<char>) -> (Visibility, Seq<char>) {
    if text.len() == 0 {
        (Visibility::Unstated, text)
    } else {
        match visibility_named(text[0]) {
            Some(v) => (v, trim(text.drop_first())),
            None => (Visibility::Unstated, text),
        }
    }
}

/// The visibility a line opens with, and what is left after it.
pub fn visibility_of(text: &str) -> (r: (Visibility, &str))
    ensures
        (r.0, r.1@) == visibility_split(text@),
{
    let tc = chars_of(text);
    if tc.len() == 0 {
        return (Visibility::Unstated, text);
    }
    match Visibility::from_mark(tc[0]) {
        Some(v) => {
            let (a, b) = trim_bounds(&tc, 1, tc.len());
            assert(tc@.subrange(1, tc@.len() as int) == tc@.drop_first());
            (v, text.substring_char(a, b))
        },
        None => (Visibility::Unstated, text),
    }
}

/// A method read from `rest`, whose first `(` sits at `open`: a name, a
/// parameter list, and whatever follows as the return type. The classifier
/// may sit on the end of the name or between the parentheses and the type.
pub open spec fn method_of(rest: Seq<char>, open: int) -> Option<MemberView> {
    match find_char(rest.skip(open), ')') {
        None => None,
        Some(c) => {
            let close = c + open;
            let (name, is_static, is_abstract) = classifier_of(trim(rest.take(open)));
            let params = trim(rest.subrange(open + 1, close));
            let tail = trim(rest.skip(close + 1));
            let marked = tail.len() > 0 && (tail[0] == '$' || tail[0] == '*');
            Some(
                MemberView {
                    visibility: Visibility::Unstated,
                    name,
                    kind: if marked {
                        trim(tail.drop_first())
                    } else {
                        tail
                    },
                    params: Some(params),
                    is_static: is_static || (marked && tail[0] == '$'),
                    is_abstract: is_abstract || (marked && tail[0] == '*'),
                },
            )
        },
    }
}

/// A method is read exactly when a `)` closes its parameter list. It is
/// static when a `$` ends its name or opens what follows the parentheses, and
/// only then; abstract when a `*` stands in one of those two places, and only
/// then. The mark is not part of the name or of the return type, and the
/// parameters are what the parentheses hold, trimmed.
pub proof fn a_method_is_static_or_abstract_only_where_marked(rest: Seq<char>, open: int)
    requires
        0 <= open < rest.len(),
        rest[open] == '(',
    ensures
        method_of(rest, open) is None <==> find_char(rest.skip(open), ')') is None,
        find_char(rest.skip(open), ')') matches Some(c) ==> ({
            let close = open + c;
            let head = trim(rest.take(open));
            let tail = trim(rest.skip(close + 1));
            let named_static = head.len() > 0 && head.last() == '$';
            let named_abstract = head.len() > 0 && head.last() == '*';
            let after_static = tail.len() > 0 && tail[0] == '$';
            let after_abstract = tail.len() > 0 && tail[0] == '*';
            method_of(rest, open) matches Some(m) && m.is_static == (named_static || after_static)
                && m.is_abstract == (named_abstract || after_abstract) && m.params == Some(
                trim(rest.subrange(open + 1, close)),
            ) && m.name == (if named_static || named_abstract {
                head.drop_last()
            } else {
                head
            }) && m.kind == (if after_static || after_abstract {
                trim(tail.drop_first())
            } else {
                tail
            })
        }),
{
}

/// A method: a name, a parameter list, and whatever follows as the return
/// type. `open` is where the first `(` sits.
pub(crate) fn method(rest: &str, open: usize) -> (r: Option<Member>)
    requires
        open < rest@.len(),
        rest@[open as int] == '(',
    ensures
        match r {
            Some(m) => method_of(rest@, open as int) == Some(m@),
            None => method_of(rest@, open as int) is None,
        },
{
    let rc = chars_of(rest);
    let after = slice(&rc, open, rc.len());
    assert(after@ == rc@.skip(open as int));
    let c = match position(&after, ')') {
        Some(c) => c,
        None => return None,
    };
    let close = c + open;
    let head = string_of(&trimmed(&slice(&rc, 0, open)));
    assert(rc@.take(open as int) == rc@.subrange(0, open as int));
    let (name, is_static, is_abstract) = classifier(head.as_str());
    assert(after@[0] == '(');
    let params = trimmed(&slice(&rc, open + 1, close));
    let tail = trimmed(&slice(&rc, close + 1, rc.len()));
    assert(rc@.skip(close + 1) == rc@.subrange(close + 1, rc@.len() as int));
    let marked = tail.len() > 0 && (tail[0] == '$' || tail[0] == '*');
    let kind = if marked {
        let rest_of_tail = slice(&tail, 1, tail.len());
        assert(rest_of_tail@ == tail@.drop_first());
        trimmed(&rest_of_tail)
    } else {
        tail.clone()
    };
    Some(
        Member {
            visibility: Visibility::Unstated,
            name: name.to_owned(),
            kind: string_of(&kind),
            params: Some(string_of(&params)),
            is_static: is_static || (marked && tail[0] == '$'),
            is_abstract: is_abstract || (marked && tail[0] == '*'),
        },
    )
}

/// A field, written either `Type name` or just `name`.
pub open spec fn field_of(rest: Seq<char>) -> MemberView {
    let (text, is_static, is_abstract) = classifier_of(rest);
    let (kind, name) = match find_ws(text) {
        Some(p) => (trim(text.take(p)), trim(text.skip(p + 1))),
        None => (Seq::empty(), text),
    };
    MemberView { visibility: Visibility::Unstated, name, kind, params: None, is_static, is_abstract }
}

/// A field, written either `Type name` or just `name`.
pub fn field(rest: &str) -> (m: Member)
    ensures
        m@ == field_of(rest@),
{
    let (text, is_static, is_abstract) = classifier(rest);
    let tc = chars_of(text);
    let (kind, name) = match ws_position(&tc) {
        Some(p) => {
            let k = trimmed(&slice(&tc, 0, p));
            assert(tc@.take(p as int) == tc@.subrange(0, p as int));
            let n = trimmed(&slice(&tc, p + 1, tc.len()));
            assert(tc@.skip(p + 1) == tc@.subrange(p + 1, tc@.len() as int));
            (string_of(&k), string_of(&n))
        },
        None => (String::new(), text.to_owned()),
    };
    Member { visibility: Visibility::Unstated, name, kind, params: None, is_static, is_abstract }
}

/// What one line inside a class body holds.
pub open spec fn member_of(line: Seq<char>) -> Option<MemberView> {
    let text = trim(drop_trailing(trim(line), ';'));
    let (visibility, rest) = visibility_split(text);
    if text.len() == 0 || rest.len() == 0 {
        None
    } else {
        let parsed = match find_char(rest, '(') {
            Some(open) => match method_of(rest, open) {
                Some(m) => m,
                None => field_of(rest),
            },
            None => field_of(rest),
        };
        Some(MemberView { visibility, ..parsed })
    }
}

/// One line inside a class body. An unclosed parenthesis reads as a field
/// rather than failing.
pub fn member(line: &str) -> (r: Option<Member>)
    ensures
        match r {
            Some(m) => member_of(line@) == Some(m@),
            None => member_of(line@) is None,
        },
{
    let text = string_of(&trimmed(&without_trailing(&trimmed(&chars_of(line)), ';')));
    if text.as_str().is_empty() {
        return None;
    }
    let (visibility, rest) = visibility_of(text.as_str());
    if rest.is_empty() {
        return None;
    }
    let rc = chars_of(rest);
    let mut parsed = match position(&rc, '(') {
        Some(open) => match method(rest, open) {
            Some(m) => m,
            None => field(rest),
        },
        None => field(rest),
    };
    parsed.visibility = visibility;
    Some(parsed)
}

/// The first arrow of the table, from the `k`-th on, that `tail` opens with
/// and that white space follows.
pub open spec fn arrow_in_table(tail: Seq<char>, k: int) -> Option<int>
    decreases 13 - k,
{
    if k < 0 || k >= 13 {
        None
    } else {
        let a = arrow_table()[k].0;
        if starts_with(tail, a) && a.len() < tail.len() && is_ws(tail[a.len() as int]) {
            Some(k)
        } else {
            arrow_in_table(tail, k + 1)
        }
    }
}

/// The first arrow, at character `at` or later, that has white space on both
/// sides: where it sits, how long it is, and what it means.
pub open spec fn arrow_after(line: Seq<char>, at: int) -> Option<(int, int, Relation, End)>
    decreases line.len() - at,
{
    if at < 0 || at >= line.len() {
        None
    } else {
        let found = if at > 0 && is_ws(line[at - 1]) {
            arrow_in_table(line.skip(at), 0)
        } else {
            None
        };
        match found {
            Some(k) => Some(
                (at, arrow_table()[k].0.len() as int, arrow_table()[k].1, arrow_table()[k].2),
            ),
            None => arrow_after(line, at + 1),
        }
    }
}

fn arrow_entry(k: usize) -> (e: (&'static str, Relation, End))
    requires
        k < 13,
    ensures
        e.0@ == arrow_table()[k as int].0,
        e.1 == arrow_table()[k as int].1,
        e.2 == arrow_table()[k as int].2,
{
    ARROWS[k]
}

/// Where an arrow sits in a line (as a character position), how long it is,
/// and what it means.
///
/// White space on both sides is required, which keeps `A-->B` from being read
/// and keeps a class named `x--y` from being torn in half.
pub fn find_arrow(line: &str) -> (r: Option<(usize, usize, Relation, End)>)
    ensures
        match r {
            Some((at, len, kind, end)) => arrow_after(line@, 0) == Some(
                (at as int, len as int, kind, end),
            ),
            None => arrow_after(line@, 0) is None,
        },
{
    let lc = chars_of(line);
    let mut i: usize = 0;
    while i < lc.len()
        invariant
            i <= lc.len(),
            lc@ == line@,
            arrow_after(line@, 0) == arrow_after(line@, i as int),
        decreases lc.len() - i,
    {
        if i > 0 && ws(lc[i - 1]) {
            let tail = slice(&lc, i, lc.len());
            assert(tail@ == line@.skip(i as int));
            let mut k: usize = 0;
            while k < 13
                invariant
                    k <= 13,
                    0 < i < lc.len(),
                    lc@ == line@,
                    tail@ == line@.skip(i as int),
                    is_ws(line@[i - 1]),
                    arrow_after(line@, 0) == arrow_after(line@, i as int),
                    arrow_in_table(tail@, 0) == arrow_in_table(tail@, k as int),
                decreases 13 - k,
            {
                let (arrow, kind, end) = arrow_entry(k);
                let ac = chars_of(arrow);
                if has_prefix(&tail, &ac) && ac.len() < tail.len() && ws(tail[ac.len()]) {
                    return Some((i, ac.len(), kind, end));
                }
                k += 1;
            }
        }
        i += 1;
    }
    None
}

/// A quoted multiplicity at the end of the text before an arrow, and the
/// text without it; `None` for an unbalanced quote.
pub open spec fn tail_cardinality_of(text: Seq<char>) -> Option<(Seq<char>, Seq<char>)> {
    if text.len() > 0 && text.last() == '"' {
        let body = text.drop_last();
        match rfind_char(body, '"') {
            None => None,
            Some(open) => Some((trim(body.take(open)), body.skip(open + 1))),
        }
    } else {
        Some((text, Seq::empty()))
    }
}

/// A quoted multiplicity at the end of the text before an arrow.
pub fn tail_cardinality(text: &str) -> (r: Option<(String, String)>)
    ensures
        match r {
            Some((t, c)) => tail_cardinality_of(text@) == Some((t@, c@)),
            None => tail_cardinality_of(text@) is None,
        },
{
    let tc = chars_of(text);
    if tc.len() == 0 || tc[tc.len() - 1] != '"' {
        return Some((text.to_owned(), String::new()));
    }
    let body = slice(&tc, 0, tc.len() - 1);
    assert(body@ == tc@.drop_last());
    let open = last_position(&body, '"')?;
    let head = trimmed(&slice(&body, 0, open));
    assert(body@.take(open as int) == body@.subrange(0, open as int));
    let card = slice(&body, open + 1, body.len());
    assert(body@.skip(open + 1) == body@.subrange(open + 1, body@.len() as int));
    Some((string_of(&head), string_of(&card)))
}

/// A quoted multiplicity at the start of the text after an arrow, and the
/// text without it; `None` for an unbalanced quote.
pub open spec fn head_cardinality_of(text: Seq<char>) -> Option<(Seq<char>, Seq<char>)> {
    if text.len() > 0 && text[0] == '"' {
        let body = text.drop_first();
        match find_char(body, '"') {
            None => None,
            Some(close) => Some((trim(body.skip(close + 1)), body.take(close))),
        }
    } else {
        Some((text, Seq::empty()))
    }
}

/// A quoted multiplicity at the start of the text after an arrow.
pub fn head_cardinality(text: &str) -> (r: Option<(String, String)>)
    ensures
        match r {
            Some((t, c)) => head_cardinality_of(text@) == Some((t@, c@)),
            None => head_cardinality_of(text@) is None,
        },
{
    let tc = chars_of(text);
    if tc.len() == 0 || tc[0] != '"' {
        return Some((text.to_owned(), String::new()));
    }
    let body = slice(&tc, 1, tc.len());
    assert(body@ == tc@.drop_first());
    let close = position(&body, '"')?;
    let rest = trimmed(&slice(&body, close + 1, body.len()));
    assert(body@.skip(close + 1) == body@.subrange(close + 1, body@.len() as int));
    let card = slice(&body, 0, close);
    assert(body@.take(close as int) == body@.subrange(0, close as int));
    Some((string_of(&rest), string_of(&card)))
}

/// A name written on its own, or nothing.
pub open spec fn lone_name_of(text: Seq<char>) -> Option<Seq<char>> {
    let name = trim(text);
    if name.len() > 0 && !has_ws(name) {
        Some(name)
    } else {
        None
    }
}

/// A name written on its own, or nothing.
pub fn lone_name(text: &str) -> (r: Option<String>)
    ensures
        match r {
            Some(n) => lone_name_of(text@) == Some(n@),
            None => lone_name_of(text@) is None,
        },
{
    let name = trimmed(&chars_of(text));
    if name.len() > 0 && !any_ws(&name) {
        Some(string_of(&name))
    } else {
        None
    }
}

/// What a relationship line `FROM ["card"] ARROW ["card"] TO [: label]` says.
pub open spec fn relationship_of(line: Seq<char>) -> Option<RelationshipView> {
    match arrow_after(line, 0) {
        None => None,
        Some((at, len, kind, marker_at)) => match tail_cardinality_of(trim(line.take(at))) {
            None => None,
            Some((from_text, from_cardinality)) => match head_cardinality_of(
                trim(line.skip(at + len)),
            ) {
                None => None,
                Some((after, to_cardinality)) => {
                    let (to_text, label) = match split_once(after, ':') {
                        Some((name, label)) => (name, trim(label)),
                        None => (after, Seq::empty()),
                    };
                    match (lone_name_of(from_text), lone_name_of(to_text)) {
                        (Some(from), Some(to)) => Some(
                            RelationshipView {
                                from,
                                to,
                                kind,
                                marker_at,
                                label,
                                from_cardinality,
                                to_cardinality,
                            },
                        ),
                        _ => None,
                    }
                },
            },
        },
    }
}

proof fn lemma_arrow_in_table_fits(tail: Seq<char>, k: int)
    ensures
        arrow_in_table(tail, k) matches Some(j) ==> 0 <= j < 13 && arrow_table()[j].0.len()
            < tail.len(),
    decreases 13 - k,
{
    if 0 <= k < 13 {
        lemma_arrow_in_table_fits(tail, k + 1);
    }
}

proof fn lemma_arrow_after_fits(line: Seq<char>, at: int)
    ensures
        arrow_after(line, at) matches Some((i, len, _, _)) ==> 0 < i && len >= 0 && i + len
            <= line.len(),
    decreases line.len() - at,
{
    if 0 <= at < line.len() {
        lemma_arrow_in_table_fits(line.skip(at), 0);
        lemma_arrow_after_fits(line, at + 1);
    }
}

/// A relationship line: `FROM ["card"] ARROW ["card"] TO [: label]`.
pub fn relationship(line: &str) -> (r: Option<Relationship>)
    ensures
        match r {
            Some(rel) => relationship_of(line@) == Some(rel@),
            None => relationship_of(line@) is None,
        },
{
    let (at, len, kind, marker_at) = find_arrow(line)?;
    proof {
        lemma_arrow_after_fits(line@, 0);
    }
    let lc = chars_of(line);
    let total = lc.len();
    assert(at + len <= total);
    let before = string_of(&trimmed(&slice(&lc, 0, at)));
    assert(lc@.take(at as int) == lc@.subrange(0, at as int));
    let (from_text, from_cardinality) = tail_cardinality(before.as_str())?;
    let after_arrow = string_of(&trimmed(&slice(&lc, at + len, total)));
    assert(lc@.skip(at + len) == lc@.subrange(at + len, lc@.len() as int));
    let (after, to_cardinality) = head_cardinality(after_arrow.as_str())?;
    let ac = chars_of(after.as_str());
    let (to_text, label) = match position(&ac, ':') {
        Some(k) => {
            let name = slice(&ac, 0, k);
            assert(ac@.take(k as int) == ac@.subrange(0, k as int));
            let label = trimmed(&slice(&ac, k + 1, ac.len()));
            assert(ac@.skip(k + 1) == ac@.subrange(k + 1, ac@.len() as int));
            (string_of(&name), string_of(&label))
        },
        None => (after.clone(), String::new()),
    };
    let from = lone_name(from_text.as_str())?;
    let to = lone_name(to_text.as_str())?;
    Some(
        Relationship {
            from,
            to,
            kind,
            marker_at,
            label,
            from_cardinality,
            to_cardinality,
        },
    )
}

/// What an `A : +String name` line puts on a class from outside it.
pub open spec fn inline_member_of(line: Seq<char>) -> Option<(Seq<char>, MemberView)> {
    match split_once(line, ':') {
        None => None,
        Some((head, rest)) => match (lone_name_of(head), member_of(rest)) {
            (Some(id), Some(m)) => Some((id, m)),
            _ => None,
        },
    }
}

/// An `A : +String name` line, which puts a member on a class from outside it.
pub fn inline_member(line: &str) -> (r: Option<(String, Member)>)
    ensures
        match r {
            Some((id, m)) => inline_member_of(line@) == Some((id@, m@)),
            None => inline_member_of(line@) is None,
        },
{
    let lc = chars_of(line);
    let k = position(&lc, ':')?;
    let head = string_of(&slice(&lc, 0, k));
    assert(lc@.take(k as int) == lc@.subrange(0, k as int));
    let rest = string_of(&slice(&lc, k + 1, lc.len()));
    assert(lc@.skip(k + 1) == lc@.subrange(k + 1, lc@.len() as int));
    let id = lone_name(head.as_str())?;
    let m = member(rest.as_str())?;
    Some((id, m))
}

/// A class first named by `id`, with nothing else known of it.
pub open spec fn named_class(id: Seq<char>) -> ClassView {
    ClassView {
        id,
        label: id,
        annotation: Seq::empty(),
        attributes: Seq::empty(),
        methods: Seq::empty(),
    }
}

/// The diagram with a class called `id` in it, and where that class sits: an
/// existing one is found, a new one is added at the end.
pub open spec fn ensure_of(d: DiagramView, id: Seq<char>) -> (DiagramView, int) {
    match class_index(d.classes, id) {
        Some(i) => (d, i),
        None => (
            DiagramView { classes: d.classes.push(named_class(id)), ..d },
            d.classes.len() as int,
        ),
    }
}

/// A class with a member put in the compartment it belongs to: the
/// parentheses are the only thing that says which one that is.
pub open spec fn hold_of(c: ClassView, m: MemberView) -> ClassView {
    if m.params is Some {
        ClassView { methods: c.methods.push(m), ..c }
    } else {
        ClassView { attributes: c.attributes.push(m), ..c }
    }
}

/// The diagram with a member given to the class at `at`, if there is one.
pub open spec fn attach_of(d: DiagramView, at: int, m: MemberView) -> DiagramView {
    if 0 <= at < d.classes.len() {
        DiagramView { classes: d.classes.update(at, hold_of(d.classes[at], m)), ..d }
    } else {
        d
    }
}

/// What the reader carries from one line to the next: the diagram so far,
/// the class whose body is open, and whether a namespace is.
pub struct ReaderState {
    pub diagram: DiagramView,
    pub open: Option<usize>,
    pub in_namespace: bool,
}

/// What a `class` line does: the class is named (or found), its label and
/// any stereotype set, and its body opened when a brace follows.
pub open spec fn declare_of(st: ReaderState, decl: DeclarationView) -> ReaderState {
    let (d, at) = ensure_of(st.diagram, decl.id);
    let c = d.classes[at];
    let updated = ClassView {
        label: decl.label,
        annotation: if decl.annotation.len() > 0 {
            decl.annotation
        } else {
            c.annotation
        },
        ..c
    };
    ReaderState {
        diagram: DiagramView { classes: d.classes.update(at, updated), ..d },
        open: if decl.opens {
            Some(at as usize)
        } else {
            None
        },
        in_namespace: st.in_namespace,
    }
}

/// What one line inside the body of the class at `at` does.
pub open spec fn body_of(st: ReaderState, at: int, line: Seq<char>) -> ReaderState {
    let d = st.diagram;
    if line == seq!['}'] {
        ReaderState { open: None, ..st }
    } else {
        match annotation_of(line) {
            Some(name) => if 0 <= at < d.classes.len() {
                ReaderState {
                    diagram: DiagramView {
                        classes: d.classes.update(at, ClassView { annotation: name, ..d.classes[at] }),
                        ..d
                    },
                    ..st
                }
            } else {
                st
            },
            None => match member_of(line) {
                Some(m) => ReaderState { diagram: attach_of(d, at, m), ..st },
                None => st,
            },
        }
    }
}

/// Whether a line opens a namespace block.
pub open spec fn opens_namespace(line: Seq<char>) -> bool {
    match after_keyword_of(line, "namespace"@) {
        Some(rest) => rest.len() > 0 && rest.last() == '{',
        None => false,
    }
}

/// What one line outside any class body does.
pub open spec fn statement_of(st: ReaderState, line: Seq<char>) -> ReaderState {
    let d = st.diagram;
    if opens_namespace(line) {
        ReaderState { in_namespace: true, ..st }
    } else if line == seq!['}'] {
        ReaderState { in_namespace: false, ..st }
    } else {
        match declaration_of(line) {
            Some(decl) => declare_of(st, decl),
            None => match relationship_of(line) {
                Some(rel) => {
                    let d1 = ensure_of(d, rel.from).0;
                    let d2 = ensure_of(d1, rel.to).0;
                    ReaderState {
                        diagram: DiagramView { relationships: d2.relationships.push(rel), ..d2 },
                        ..st
                    }
                },
                None => match inline_member_of(line) {
                    Some((id, m)) => {
                        let (d1, at) = ensure_of(d, id);
                        ReaderState { diagram: attach_of(d1, at, m), ..st }
                    },
                    None => st,
                },
            },
        }
    }
}

/// What one line does, in a body or out of one.
pub open spec fn step_of(st: ReaderState, line: Seq<char>) -> ReaderState {
    match st.open {
        Some(at) => body_of(st, at as int, line),
        None => statement_of(st, line),
    }
}

/// The reader's state after a run of source lines, and whether the first
/// line that says anything has been seen (and, if it was the header,
/// skipped).
pub open spec fn read_lines(ls: Seq<Seq<char>>) -> (ReaderState, bool)
    decreases ls.len(),
{
    if ls.len() == 0 {
        (
            ReaderState {
                diagram: DiagramView { classes: Seq::empty(), relationships: Seq::empty() },
                open: None,
                in_namespace: false,
            },
            false,
        )
    } else {
        let (st, seen) = read_lines(ls.drop_last());
        let line = trim(ls.last());
        if line.len() == 0 || starts_with(line, "%%"@) {
            (st, seen)
        } else if !seen && starts_with(lower_all(line), "classdiagram"@) {
            (st, true)
        } else {
            (step_of(st, line), true)
        }
    }
}

/// What `parse` reads from a source.
pub open spec fn parse_of(source: Seq<char>) -> DiagramView {
    read_lines(lines(source)).0.diagram
}

/// Put a member in the compartment it belongs to.
pub fn hold(class: &mut Class, parsed: Member)
    ensures
        final(class)@ == hold_of(old(class)@, parsed@),
{
    let ghost before = class@;
    if parsed.is_method() {
        class.methods.push(parsed);
        assert(class@.methods =~= before.methods.push(parsed@));
    } else {
        class.attributes.push(parsed);
        assert(class@.attributes =~= before.attributes.push(parsed@));
    }
}

/// The reader's state: the diagram so far, which class body is open, and
/// which namespace.
pub struct Reader {
    pub diagram: Diagram,
    /// The class whose body the following lines belong to.
    pub open: Option<usize>,
    pub in_namespace: bool,
}

impl View for Reader {
    type V = ReaderState;

    open spec fn view(&self) -> ReaderState {
        ReaderState { diagram: self.diagram@, open: self.open, in_namespace: self.in_namespace }
    }
}

impl Reader {
    /// The class called `id`, declaring it if this is the first mention.
    ///
    /// A relationship may name a class before — or instead of — any `class`
    /// line for it, and a diagram that is nothing but relationships is a
    /// normal way to write one.
    pub fn ensure(&mut self, id: &str) -> (at: usize)
        ensures
            (final(self)@.diagram, at as int) == ensure_of(old(self)@.diagram, id@),
            at < final(self).diagram@.classes.len(),
            final(self).open == old(self).open,
            final(self).in_namespace == old(self).in_namespace,
    {
        proof {
            crate::mermaid::class::types::lemma_class_index_found(self.diagram@.classes, id@);
        }
        if let Some(at) = self.diagram.index_of(id) {
            return at;
        }
        let ghost before = self.diagram@;
        let mut class = Class::default();
        class.id = id.to_owned();
        class.label = id.to_owned();
        assert(class@ == named_class(id@)) by {
            assert(class@.attributes =~= Seq::<MemberView>::empty());
            assert(class@.methods =~= Seq::<MemberView>::empty());
        }
        self.diagram.classes.push(class);
        assert(self.diagram@.classes =~= before.classes.push(named_class(id@)));
        self.diagram.classes.len() - 1
    }

    /// Give a member to the class at `at`.
    pub fn attach(&mut self, at: usize, parsed: Member)
        ensures
            final(self)@ == (ReaderState {
                diagram: attach_of(old(self)@.diagram, at as int, parsed@),
                ..old(self)@
            }),
    {
        if at < self.diagram.classes.len() {
            let ghost before = self.diagram@;
            let mut class = self.diagram.classes.remove(at);
            hold(&mut class, parsed);
            let ghost held = class@;
            self.diagram.classes.insert(at, class);
            assert(self.diagram@.classes =~= before.classes.update(at as int, held));
        }
    }

    /// Record a `class` line.
    pub fn declare(&mut self, decl: &Declaration)
        ensures
            final(self)@ == declare_of(old(self)@, decl@),
    {
        let at = self.ensure(decl.id.as_str());
        let ghost before = self.diagram@;
        let mut class = self.diagram.classes.remove(at);
        class.label = decl.label.clone();
        if !decl.annotation.as_str().is_empty() {
            class.annotation = decl.annotation.clone();
        }
        let ghost updated = class@;
        self.diagram.classes.insert(at, class);
        assert(self.diagram@.classes =~= before.classes.update(at as int, updated));
        self.open = if decl.opens {
            Some(at)
        } else {
            None
        };
    }

    /// One line inside a class body.
    pub fn body(&mut self, at: usize, line: &str)
        ensures
            final(self)@ == body_of(old(self)@, at as int, line@),
    {
        let lc = chars_of(line);
        if lc.len() == 1 && lc[0] == '}' {
            assert(line@ =~= seq!['}']);
            self.open = None;
            return;
        }
        assert(line@ != seq!['}']);
        if let Some(name) = annotation(line) {
            if at < self.diagram.classes.len() {
                let ghost before = self.diagram@;
                let mut class = self.diagram.classes.remove(at);
                class.annotation = name.to_owned();
                let ghost updated = class@;
                self.diagram.classes.insert(at, class);
                assert(self.diagram@.classes =~= before.classes.update(at as int, updated));
            }
            return;
        }
        if let Some(parsed) = member(line) {
            self.attach(at, parsed);
        }
    }

    /// One line outside any class body.
    pub fn statement(&mut self, line: &str)
        ensures
            final(self)@ == statement_of(old(self)@, line@),
    {
        if let Some(rest) = after_keyword(line, "namespace") {
            let rc = chars_of(rest);
            if rc.len() > 0 && rc[rc.len() - 1] == '{' {
                self.in_namespace = true;
                return;
            }
        }
        let lc = chars_of(line);
        if lc.len() == 1 && lc[0] == '}' {
            assert(line@ =~= seq!['}']);
            self.in_namespace = false;
            return;
        }
        assert(line@ != seq!['}']);
        if let Some(decl) = declaration(line) {
            self.declare(&decl);
            return;
        }
        if let Some(rel) = relationship(line) {
            self.ensure(rel.from.as_str());
            self.ensure(rel.to.as_str());
            let ghost before = self.diagram@;
            self.diagram.relationships.push(rel);
            assert(self.diagram@.relationships =~= before.relationships.push(rel@));
            return;
        }
        if let Some((id, parsed)) = inline_member(line) {
            let at = self.ensure(id.as_str());
            self.attach(at, parsed);
        }
    }

    /// One line, in a body or out of one.
    pub fn line(&mut self, text: &str)
        ensures
            final(self)@ == step_of(old(self)@, text@),
    {
        match self.open {
            Some(at) => self.body(at, text),
            None => self.statement(text),
        }
    }
}

/// Read a class diagram.
///
/// A line nobody recognises is dropped rather than rejected: a diagram with
/// one bad line should still draw the rest of itself. The header is only
/// skipped when it is there, so a fragment without one keeps its first line.
pub fn parse(source: &str) -> (d: Diagram)
    ensures
        d@ == parse_of(source@),
{
    let all = split_lines(&chars_of(source));
    let mut reader = Reader { diagram: Diagram::default(), open: None, in_namespace: false };
    let mut seen_header = false;
    let ghost ls = lines(source@);
    let mut i: usize = 0;
    assert(ls.take(0) =~= Seq::<Seq<char>>::empty());
    while i < all.len()
        invariant
            i <= all.len() == ls.len(),
            ls == lines(source@),
            forall|m: int| 0 <= m < all.len() ==> #[trigger] all[m]@ == ls[m],
            read_lines(ls.take(i as int)) == (reader@, seen_header),
        decreases all.len() - i,
    {
        assert(ls.take(i + 1).drop_last() == ls.take(i as int));
        assert(ls.take(i + 1).last() == all[i as int]@);
        let lc = trimmed(&all[i]);
        let line = string_of(&lc);
        if lc.len() == 0 || has_prefix(&lc, &chars_of("%%")) {
        } else if !seen_header && has_prefix(&lowercase(&lc), &chars_of("classdiagram")) {
            seen_header = true;
        } else {
            seen_header = true;
            reader.line(line.as_str());
        }
        i += 1;
    }
    assert(ls.take(ls.len() as int) == ls);
    reader.diagram
}

/// No two classes share an id.
pub open spec fn distinct_ids(cs: Seq<ClassView>) -> bool {
    forall|i: int, j: int|
        0 <= i < cs.len() && 0 <= j < cs.len() && i != j ==> #[trigger] cs[i].id != #[trigger] cs[j].id
}

/// Some class is called `id`.
pub open spec fn names_class(cs: Seq<ClassView>, id: Seq<char>) -> bool {
    exists|i: int| 0 <= i < cs.len() && #[trigger] cs[i].id == id
}

/// Every relationship joins two classes of the diagram.
pub open spec fn ends_named(d: DiagramView) -> bool {
    forall|r: int|
        0 <= r < d.relationships.len() ==> names_class(d.classes, (#[trigger] d.relationships[r]).from)
            && names_class(d.classes, d.relationships[r].to)
}

/// `b` holds every class of `a`, under the same id and in the same place.
pub open spec fn keeps_ids(a: Seq<ClassView>, b: Seq<ClassView>) -> bool {
    a.len() <= b.len() && forall|i: int| 0 <= i < a.len() ==> #[trigger] b[i].id == a[i].id
}

proof fn lemma_keeps_names(a: DiagramView, b: DiagramView)
    requires
        keeps_ids(a.classes, b.classes),
        b.relationships == a.relationships,
        ends_named(a),
    ensures
        ends_named(b),
{
    assert forall|r: int| 0 <= r < b.relationships.len() implies names_class(
        b.classes,
        (#[trigger] b.relationships[r]).from,
    ) && names_class(b.classes, b.relationships[r].to) by {
        let f = choose|i: int| 0 <= i < a.classes.len() && #[trigger] a.classes[i].id
            == a.relationships[r].from;
        let t = choose|i: int| 0 <= i < a.classes.len() && #[trigger] a.classes[i].id
            == a.relationships[r].to;
        assert(b.classes[f].id == a.classes[f].id);
        assert(b.classes[t].id == a.classes[t].id);
    }
}

proof fn lemma_ensure(d: DiagramView, id: Seq<char>)
    requires
        distinct_ids(d.classes),
    ensures
        keeps_ids(d.classes, ensure_of(d, id).0.classes),
        distinct_ids(ensure_of(d, id).0.classes),
        0 <= ensure_of(d, id).1 < ensure_of(d, id).0.classes.len(),
        ensure_of(d, id).0.classes[ensure_of(d, id).1].id == id,
        ensure_of(d, id).0.relationships == d.relationships,
{
    crate::mermaid::class::types::lemma_class_index_found(d.classes, id);
    if class_index(d.classes, id) is None {
        let grown = d.classes.push(named_class(id));
        assert forall|i: int, j: int|
            0 <= i < grown.len() && 0 <= j < grown.len() && i != j implies #[trigger] grown[i].id
            != #[trigger] grown[j].id by {
            if i < d.classes.len() && j < d.classes.len() {
                assert(grown[i] == d.classes[i] && grown[j] == d.classes[j]);
            } else if i < d.classes.len() {
                assert(grown[i] == d.classes[i]);
            } else {
                assert(grown[j] == d.classes[j]);
            }
        }
    }
}

/// Replacing the class at `at` by one with the same id keeps every id.
proof fn lemma_same_id_update(cs: Seq<ClassView>, at: int, c: ClassView)
    requires
        0 <= at < cs.len(),
        c.id == cs[at].id,
        distinct_ids(cs),
    ensures
        keeps_ids(cs, cs.update(at, c)),
        distinct_ids(cs.update(at, c)),
{
    let u = cs.update(at, c);
    assert forall|i: int, j: int|
        0 <= i < u.len() && 0 <= j < u.len() && i != j implies #[trigger] u[i].id
        != #[trigger] u[j].id by {
        assert(u[i].id == cs[i].id && u[j].id == cs[j].id);
    }
}

proof fn lemma_attach(d: DiagramView, at: int, m: MemberView)
    requires
        distinct_ids(d.classes),
    ensures
        keeps_ids(d.classes, attach_of(d, at, m).classes),
        distinct_ids(attach_of(d, at, m).classes),
        attach_of(d, at, m).relationships == d.relationships,
{
    if 0 <= at < d.classes.len() {
        lemma_same_id_update(d.classes, at, hold_of(d.classes[at], m));
    }
}

proof fn lemma_keeps_ids_trans(a: Seq<ClassView>, b: Seq<ClassView>, c: Seq<ClassView>)
    requires
        keeps_ids(a, b),
        keeps_ids(b, c),
    ensures
        keeps_ids(a, c),
{
    assert forall|i: int| 0 <= i < a.len() implies #[trigger] c[i].id == a[i].id by {
        assert(c[i].id == b[i].id);
    }
}

/// One line keeps the diagram sound.
proof fn lemma_step_sound(st: ReaderState, line: Seq<char>)
    requires
        distinct_ids(st.diagram.classes),
        ends_named(st.diagram),
    ensures
        distinct_ids(step_of(st, line).diagram.classes),
        ends_named(step_of(st, line).diagram),
{
    let d = st.diagram;
    let next = step_of(st, line).diagram;
    match st.open {
        Some(at) => {
            let at = at as int;
            if line != seq!['}'] {
                match annotation_of(line) {
                    Some(name) => if 0 <= at < d.classes.len() {
                        lemma_same_id_update(
                            d.classes,
                            at,
                            ClassView { annotation: name, ..d.classes[at] },
                        );
                        lemma_keeps_names(d, next);
                    },
                    None => match member_of(line) {
                        Some(m) => {
                            lemma_attach(d, at, m);
                            lemma_keeps_names(d, next);
                        },
                        None => {},
                    },
                }
            }
        },
        None => {
            if !opens_namespace(line) && line != seq!['}'] {
                match declaration_of(line) {
                    Some(decl) => {
                        lemma_ensure(d, decl.id);
                        let (d1, at) = ensure_of(d, decl.id);
                        let c = d1.classes[at];
                        let updated = ClassView {
                            label: decl.label,
                            annotation: if decl.annotation.len() > 0 {
                                decl.annotation
                            } else {
                                c.annotation
                            },
                            ..c
                        };
                        lemma_same_id_update(d1.classes, at, updated);
                        lemma_keeps_ids_trans(d.classes, d1.classes, d1.classes.update(at, updated));
                        lemma_keeps_names(d, next);
                    },
                    None => match relationship_of(line) {
                        Some(rel) => {
                            lemma_ensure(d, rel.from);
                            let (d1, f) = ensure_of(d, rel.from);
                            lemma_ensure(d1, rel.to);
                            let (d2, t) = ensure_of(d1, rel.to);
                            lemma_keeps_ids_trans(d.classes, d1.classes, d2.classes);
                            let base = DiagramView { relationships: d.relationships, ..d2 };
                            lemma_keeps_names(d, base);
                            assert(d2.classes[f].id == d1.classes[f].id);
                            assert forall|r: int| 0 <= r < next.relationships.len() implies names_class(
                                next.classes,
                                (#[trigger] next.relationships[r]).from,
                            ) && names_class(next.classes, next.relationships[r].to) by {
                                if r < d.relationships.len() {
                                    assert(next.relationships[r] == base.relationships[r]);
                                    assert(names_class(base.classes, base.relationships[r].from));
                                    assert(names_class(base.classes, base.relationships[r].to));
                                } else {
                                    assert(next.relationships[r] == rel);
                                    assert(next.classes[f].id == rel.from);
                                    assert(next.classes[t].id == rel.to);
                                }
                            }
                        },
                        None => match inline_member_of(line) {
                            Some((id, m)) => {
                                lemma_ensure(d, id);
                                let (d1, at) = ensure_of(d, id);
                                lemma_attach(d1, at, m);
                                lemma_keeps_ids_trans(d.classes, d1.classes, next.classes);
                                lemma_keeps_names(d, next);
                            },
                            None => {},
                        },
                    },
                }
            }
        },
    }
}

proof fn lemma_read_lines_sound(ls: Seq<Seq<char>>)
    ensures
        distinct_ids(read_lines(ls).0.diagram.classes),
        ends_named(read_lines(ls).0.diagram),
    decreases ls.len(),
{
    if ls.len() > 0 {
        lemma_read_lines_sound(ls.drop_last());
        let (st, _) = read_lines(ls.drop_last());
        lemma_step_sound(st, trim(ls.last()));
    }
}

/// A class named twice is one class, and a relationship declares the classes
/// it names: in any diagram read, no two classes share an id and every
/// relationship joins two classes of the diagram.
pub proof fn every_class_is_one_box_and_every_line_joins_two(source: Seq<char>)
    ensures
        distinct_ids(parse_of(source).classes),
        ends_named(parse_of(source)),
{
    lemma_read_lines_sound(lines(source));
}

} // verus!
