//! The parsed shape of a class diagram: boxes with compartments, and the UML
//! relationships between them.
//!
//! A class box has three compartments — the name, the fields, the methods —
//! and each member line is written from parts that are drawn differently.
//! Most of this file names those parts, so a drawing need not re-read the
//! source text to colour them.
use vstd::prelude::*;

use crate::text::{chars_of, same, starts_with};

verus! {

/// Who may see a member. Written as one character in front of its name.
#[derive(Debug, Clone, Copy, PartialEq, Eq, Structural)]
pub enum Visibility {
    /// Nothing was written, which is not the same as public.
    Unstated,
    Public,
    Private,
    Protected,
    Package,
}

impl Default for Visibility {
    fn default() -> (v: Self)
        ensures
            v == Visibility::Unstated,
    {
        Visibility::Unstated
    }
}

/// The character a visibility is written with; empty when nothing was.
pub open spec fn mark_of(v: Visibility) -> Seq<char> {
    match v {
        Visibility::Unstated => Seq::empty(),
        Visibility::Public => seq!['+'],
        Visibility::Private => seq!['-'],
        Visibility::Protected => seq!['#'],
        Visibility::Package => seq!['~'],
    }
}

/// The visibility a leading character names.
pub open spec fn visibility_named(c: char) -> Option<Visibility> {
    if c == '+' {
        Some(Visibility::Public)
    } else if c == '-' {
        Some(Visibility::Private)
    } else if c == '#' {
        Some(Visibility::Protected)
    } else if c == '~' {
        Some(Visibility::Package)
    } else {
        None
    }
}

impl Visibility {
    /// The character this is written with. Empty when nothing was written.
    pub fn mark(self) -> (m: &'static str)
        ensures
            m@ == mark_of(self),
    {
        proof {
            reveal_strlit("");
            reveal_strlit("+");
            reveal_strlit("-");
            reveal_strlit("#");
            reveal_strlit("~");
        }
        match self {
            Visibility::Unstated => "",
            Visibility::Public => "+",
            Visibility::Private => "-",
            Visibility::Protected => "#",
            Visibility::Package => "~",
        }
    }

    /// The visibility a leading character names.
    pub fn from_mark(mark: char) -> (v: Option<Self>)
        ensures
            v == visibility_named(mark),
    {
        match mark {
            '+' => Some(Visibility::Public),
            '-' => Some(Visibility::Private),
            '#' => Some(Visibility::Protected),
            '~' => Some(Visibility::Package),
            _ => None,
        }
    }
}

/// A visibility written and read back is the same visibility, and the
/// characters that name one are exactly the marks of the stated ones.
pub proof fn marks_read_back(v: Visibility, c: char)
    ensures
        v != Visibility::Unstated ==> mark_of(v).len() == 1 && visibility_named(mark_of(v)[0])
            == Some(v),
        visibility_named(c) matches Some(w) ==> mark_of(w) == seq![c],
        visibility_named(c) != Some(Visibility::Unstated),
{
}

/// One line inside a class box: a field or a method.
#[derive(Debug, Clone, PartialEq, Eq)]
pub struct Member {
    pub visibility: Visibility,
    pub name: String,
    /// The type of a field, or the return type of a method. Empty when
    /// unwritten.
    pub kind: String,
    /// The parameter list. `Some` — even when empty — is what makes this a
    /// method rather than a field.
    pub params: Option<String>,
    /// A trailing `$`. Drawn underlined, as UML asks.
    pub is_static: bool,
    /// A trailing `*`. Drawn italic.
    pub is_abstract: bool,
}

pub struct MemberView {
    pub visibility: Visibility,
    pub name: Seq<char>,
    pub kind: Seq<char>,
    pub params: Option<Seq<char>>,
    pub is_static: bool,
    pub is_abstract: bool,
}

impl View for Member {
    type V = MemberView;

    open spec fn view(&self) -> MemberView {
        MemberView {
            visibility: self.visibility,
            name: self.name@,
            kind: self.kind@,
            params: match self.params {
                Some(p) => Some(p@),
                None => None,
            },
            is_static: self.is_static,
            is_abstract: self.is_abstract,
        }
    }
}

impl Default for Member {
    fn default() -> (m: Self)
        ensures
            m@ == (MemberView {
                visibility: Visibility::Unstated,
                name: Seq::empty(),
                kind: Seq::empty(),
                params: None,
                is_static: false,
                is_abstract: false,
            }),
    {
        Member {
            visibility: Visibility::Unstated,
            name: String::new(),
            kind: String::new(),
            params: None,
            is_static: false,
            is_abstract: false,
        }
    }
}

/// The name as it appears in the box, with its parentheses when it is a
/// method.
pub open spec fn written_of(m: MemberView) -> Seq<char> {
    match m.params {
        Some(p) => m.name + seq!['('] + p + seq![')'],
        None => m.name,
    }
}

/// The whole member line: the mark and a space, the written name, then `: `
/// and the type when there is one.
pub open spec fn line_of(m: MemberView) -> Seq<char> {
    let mark = mark_of(m.visibility);
    let lead = if mark.len() == 0 {
        Seq::empty()
    } else {
        mark + seq![' ']
    };
    let tail = if m.kind.len() == 0 {
        Seq::empty()
    } else {
        seq![':', ' '] + m.kind
    };
    lead + written_of(m) + tail
}

impl Member {
    pub fn is_method(&self) -> (r: bool)
        ensures
            r == self.params.is_some(),
    {
        self.params.is_some()
    }

    /// The name as it appears in the box, with parentheses when it is a method.
    pub fn written(&self) -> (w: String)
        ensures
            w@ == written_of(self@),
    {
        match &self.params {
            Some(params) => {
                let mut out = self.name.clone();
                out.push('(');
                out.append(params.as_str());
                out.push(')');
                assert(out@ =~= written_of(self@));
                out
            },
            None => self.name.clone(),
        }
    }

    /// The whole line as one string. Only sizing needs this; a drawing shows
    /// the parts separately, because they are not the same colour.
    pub fn line(&self) -> (l: String)
        ensures
            l@ == line_of(self@),
    {
        let mark = self.visibility.mark();
        let mut out = String::new();
        if !mark.is_empty() {
            out.append(mark);
            out.push(' ');
        }
        let w = self.written();
        out.append(w.as_str());
        if !self.kind.as_str().is_empty() {
            out.push(':');
            out.push(' ');
            out.append(self.kind.as_str());
        }
        assert(out@ =~= line_of(self@));
        out
    }
}

/// What one class has to do with another, in UML's vocabulary.
#[derive(Debug, Clone, Copy, PartialEq, Eq, Structural)]
pub enum Relation {
    /// `<|--` — B is an A.
    Inheritance,
    /// `*--` — A owns B, and B dies with it.
    Composition,
    /// `o--` — A holds B, which outlives it.
    Aggregation,
    /// `-->` — A knows B.
    Association,
    /// `..>` — A uses B in passing.
    Dependency,
    /// `..|>` — B promises what A declares.
    Realization,
}

pub const INHERIT_MARKER: &'static str = "cls-inherit";

pub const COMPOSITION_MARKER: &'static str = "cls-composition";

pub const AGGREGATION_MARKER: &'static str = "cls-aggregation";

pub const ARROW_MARKER: &'static str = "cls-arrow";

/// The name a relation is known by, which becomes its class.
pub open spec fn token_of(r: Relation) -> Seq<char> {
    match r {
        Relation::Inheritance => "inheritance"@,
        Relation::Composition => "composition"@,
        Relation::Aggregation => "aggregation"@,
        Relation::Association => "association"@,
        Relation::Dependency => "dependency"@,
        Relation::Realization => "realization"@,
    }
}

/// The marker a relation is drawn with.
pub open spec fn marker_of(r: Relation) -> Seq<char> {
    match r {
        Relation::Inheritance | Relation::Realization => INHERIT_MARKER@,
        Relation::Composition => COMPOSITION_MARKER@,
        Relation::Aggregation => AGGREGATION_MARKER@,
        Relation::Association | Relation::Dependency => ARROW_MARKER@,
    }
}

impl Relation {
    /// The name this is known by, which becomes its class.
    pub fn token(self) -> (t: &'static str)
        ensures
            t@ == token_of(self),
    {
        match self {
            Relation::Inheritance => "inheritance",
            Relation::Composition => "composition",
            Relation::Aggregation => "aggregation",
            Relation::Association => "association",
            Relation::Dependency => "dependency",
            Relation::Realization => "realization",
        }
    }

    /// Whether the line is broken. UML draws the two "at a distance"
    /// relationships dashed and the structural ones solid.
    pub fn dashed(self) -> (d: bool)
        ensures
            d == (self == Relation::Dependency || self == Relation::Realization),
    {
        matches!(self, Relation::Dependency | Relation::Realization)
    }

    /// The marker drawn on whichever end carries one.
    ///
    /// Inheritance and realization share a hollow triangle, and association
    /// and dependency share an open arrow; the line style is what tells each
    /// pair apart.
    pub fn marker(self) -> (m: &'static str)
        ensures
            m@ == marker_of(self),
    {
        match self {
            Relation::Inheritance | Relation::Realization => INHERIT_MARKER,
            Relation::Composition => COMPOSITION_MARKER,
            Relation::Aggregation => AGGREGATION_MARKER,
            Relation::Association | Relation::Dependency => ARROW_MARKER,
        }
    }
}

/// Two relations drawn with the same marker are told apart by the line: they
/// share it only when exactly one of them is dashed, and every relation has a
/// name and a marker to be drawn with.
pub proof fn shared_markers_differ_in_line(a: Relation, b: Relation)
    ensures
        a != b && marker_of(a) == marker_of(b) ==> (a == Relation::Dependency || a
            == Relation::Realization) != (b == Relation::Dependency || b == Relation::Realization),
        token_of(a).len() > 0,
        marker_of(a).len() > 0,
{
    reveal_strlit("cls-inherit");
    reveal_strlit("cls-composition");
    reveal_strlit("cls-aggregation");
    reveal_strlit("cls-arrow");
    reveal_strlit("inheritance");
    reveal_strlit("composition");
    reveal_strlit("aggregation");
    reveal_strlit("association");
    reveal_strlit("dependency");
    reveal_strlit("realization");
    assert(COMPOSITION_MARKER@[4] != AGGREGATION_MARKER@[4]);
    assert(INHERIT_MARKER@.len() != ARROW_MARKER@.len());
    assert(INHERIT_MARKER@.len() != COMPOSITION_MARKER@.len());
    assert(ARROW_MARKER@.len() != COMPOSITION_MARKER@.len());
}

/// Which end of a relationship carries the marker.
#[derive(Debug, Clone, Copy, PartialEq, Eq, Structural)]
pub enum End {
    From,
    To,
}

/// Every arrow, and what it means.
///
/// The same relationship can be written either way round — `A <|-- B` and
/// `B --|> A` say the same thing — and which way it was written decides which
/// end the triangle sits on. Longest first, so `--|>` is never read as `--`.
pub const ARROWS: [(&'static str, Relation, End); 13] = [
    ("<|--", Relation::Inheritance, End::From),
    ("--|>", Relation::Inheritance, End::To),
    ("<|..", Relation::Realization, End::From),
    ("..|>", Relation::Realization, End::To),
    ("*--", Relation::Composition, End::From),
    ("--*", Relation::Composition, End::To),
    ("o--", Relation::Aggregation, End::From),
    ("--o", Relation::Aggregation, End::To),
    ("-->", Relation::Association, End::To),
    ("<--", Relation::Association, End::From),
    ("..>", Relation::Dependency, End::To),
    ("<..", Relation::Dependency, End::From),
    ("--", Relation::Association, End::To),
];

/// The arrow table as plain values.
pub open spec fn arrow_table() -> Seq<(Seq<char>, Relation, End)> {
    seq![
        ("<|--"@, Relation::Inheritance, End::From),
        ("--|>"@, Relation::Inheritance, End::To),
        ("<|.."@, Relation::Realization, End::From),
        ("..|>"@, Relation::Realization, End::To),
        ("*--"@, Relation::Composition, End::From),
        ("--*"@, Relation::Composition, End::To),
        ("o--"@, Relation::Aggregation, End::From),
        ("--o"@, Relation::Aggregation, End::To),
        ("-->"@, Relation::Association, End::To),
        ("<--"@, Relation::Association, End::From),
        ("..>"@, Relation::Dependency, End::To),
        ("<.."@, Relation::Dependency, End::From),
        ("--"@, Relation::Association, End::To),
    ]
}

/// No arrow hides a longer one: the table is searched in order, so no arrow
/// is listed after one it starts with (`--|>` is never read as `--`).
pub proof fn no_arrow_hides_a_later_one(i: int, j: int)
    requires
        0 <= i < j < 13,
    ensures
        !starts_with(arrow_table()[j].0, arrow_table()[i].0),
{
    reveal_strlit("<|--");
    reveal_strlit("--|>");
    reveal_strlit("<|..");
    reveal_strlit("..|>");
    reveal_strlit("*--");
    reveal_strlit("--*");
    reveal_strlit("o--");
    reveal_strlit("--o");
    reveal_strlit("-->");
    reveal_strlit("<--");
    reveal_strlit("..>");
    reveal_strlit("<..");
    reveal_strlit("--");
    let t = arrow_table();
    let a = t[j].0;
    let b = t[i].0;
    if i == 0 && j == 1 {
        assert(t[1].0[0] != t[0].0[0]);
    } else if i == 0 && j == 2 {
        assert(t[2].0[2] != t[0].0[2]);
    } else if i == 1 && j == 2 {
        assert(t[2].0[0] != t[1].0[0]);
    } else if i == 0 && j == 3 {
        assert(t[3].0[0] != t[0].0[0]);
    } else if i == 1 && j == 3 {
        assert(t[3].0[0] != t[1].0[0]);
    } else if i == 2 && j == 3 {
        assert(t[3].0[0] != t[2].0[0]);
    } else if i == 4 && j == 5 {
        assert(t[5].0[0] != t[4].0[0]);
    } else if i == 4 && j == 6 {
        assert(t[6].0[0] != t[4].0[0]);
    } else if i == 5 && j == 6 {
        assert(t[6].0[0] != t[5].0[0]);
    } else if i == 4 && j == 7 {
        assert(t[7].0[0] != t[4].0[0]);
    } else if i == 5 && j == 7 {
        assert(t[7].0[2] != t[5].0[2]);
    } else if i == 6 && j == 7 {
        assert(t[7].0[0] != t[6].0[0]);
    } else if i == 4 && j == 8 {
        assert(t[8].0[0] != t[4].0[0]);
    } else if i == 5 && j == 8 {
        assert(t[8].0[2] != t[5].0[2]);
    } else if i == 6 && j == 8 {
        assert(t[8].0[0] != t[6].0[0]);
    } else if i == 7 && j == 8 {
        assert(t[8].0[2] != t[7].0[2]);
    } else if i == 4 && j == 9 {
        assert(t[9].0[0] != t[4].0[0]);
    } else if i == 5 && j == 9 {
        assert(t[9].0[0] != t[5].0[0]);
    } else if i == 6 && j == 9 {
        assert(t[9].0[0] != t[6].0[0]);
    } else if i == 7 && j == 9 {
        assert(t[9].0[0] != t[7].0[0]);
    } else if i == 8 && j == 9 {
        assert(t[9].0[0] != t[8].0[0]);
    } else if i == 4 && j == 10 {
        assert(t[10].0[0] != t[4].0[0]);
    } else if i == 5 && j == 10 {
        assert(t[10].0[0] != t[5].0[0]);
    } else if i == 6 && j == 10 {
        assert(t[10].0[0] != t[6].0[0]);
    } else if i == 7 && j == 10 {
        assert(t[10].0[0] != t[7].0[0]);
    } else if i == 8 && j == 10 {
        assert(t[10].0[0] != t[8].0[0]);
    } else if i == 9 && j == 10 {
        assert(t[10].0[0] != t[9].0[0]);
    } else if i == 4 && j == 11 {
        assert(t[11].0[0] != t[4].0[0]);
    } else if i == 5 && j == 11 {
        assert(t[11].0[0] != t[5].0[0]);
    } else if i == 6 && j == 11 {
        assert(t[11].0[0] != t[6].0[0]);
    } else if i == 7 && j == 11 {
        assert(t[11].0[0] != t[7].0[0]);
    } else if i == 8 && j == 11 {
        assert(t[11].0[0] != t[8].0[0]);
    } else if i == 9 && j == 11 {
        assert(t[11].0[1] != t[9].0[1]);
    } else if i == 10 && j == 11 {
        assert(t[11].0[0] != t[10].0[0]);
    }
    if starts_with(a, b) {
        assert forall|k: int| 0 <= k < b.len() implies a[k] == b[k] by {
            assert(a.take(b.len() as int)[k] == a[k]);
        }
    }
}

/// One box.
#[derive(Debug, Clone, PartialEq, Eq)]
pub struct Class {
    pub id: String,
    /// What is drawn in the header, which differs from the id for a generic.
    pub label: String,
    /// A `<<stereotype>>` above the name. Empty when there is none.
    pub annotation: String,
    pub attributes: Vec<Member>,
    pub methods: Vec<Member>,
}

pub struct ClassView {
    pub id: Seq<char>,
    pub label: Seq<char>,
    pub annotation: Seq<char>,
    pub attributes: Seq<MemberView>,
    pub methods: Seq<MemberView>,
}

impl View for Class {
    type V = ClassView;

    open spec fn view(&self) -> ClassView {
        ClassView {
            id: self.id@,
            label: self.label@,
            annotation: self.annotation@,
            attributes: self.attributes@.map_values(|m: Member| m@),
            methods: self.methods@.map_values(|m: Member| m@),
        }
    }
}

impl Default for Class {
    fn default() -> (c: Self)
        ensures
            c@ == (ClassView {
                id: Seq::empty(),
                label: Seq::empty(),
                annotation: Seq::empty(),
                attributes: Seq::empty(),
                methods: Seq::empty(),
            }),
    {
        let c = Class {
            id: String::new(),
            label: String::new(),
            annotation: String::new(),
            attributes: Vec::new(),
            methods: Vec::new(),
        };
        assert(c@.attributes =~= Seq::<MemberView>::empty());
        assert(c@.methods =~= Seq::<MemberView>::empty());
        c
    }
}

/// One line between two boxes.
#[derive(Debug, Clone, PartialEq, Eq)]
pub struct Relationship {
    pub from: String,
    pub to: String,
    pub kind: Relation,
    pub marker_at: End,
    pub label: String,
    /// The multiplicity written by each end, e.g. `1` or `0..*`.
    pub from_cardinality: String,
    pub to_cardinality: String,
}

pub struct RelationshipView {
    pub from: Seq<char>,
    pub to: Seq<char>,
    pub kind: Relation,
    pub marker_at: End,
    pub label: Seq<char>,
    pub from_cardinality: Seq<char>,
    pub to_cardinality: Seq<char>,
}

impl View for Relationship {
    type V = RelationshipView;

    open spec fn view(&self) -> RelationshipView {
        RelationshipView {
            from: self.from@,
            to: self.to@,
            kind: self.kind,
            marker_at: self.marker_at,
            label: self.label@,
            from_cardinality: self.from_cardinality@,
            to_cardinality: self.to_cardinality@,
        }
    }
}

/// A parsed class diagram.
#[derive(Debug, Clone, PartialEq, Eq)]
pub struct Diagram {
    /// Classes in the order they were first named.
    pub classes: Vec<Class>,
    pub relationships: Vec<Relationship>,
}

pub struct DiagramView {
    pub classes: Seq<ClassView>,
    pub relationships: Seq<RelationshipView>,
}

impl View for Diagram {
    type V = DiagramView;

    open spec fn view(&self) -> DiagramView {
        DiagramView {
            classes: self.classes@.map_values(|c: Class| c@),
            relationships: self.relationships@.map_values(|r: Relationship| r@),
        }
    }
}

impl Default for Diagram {
    fn default() -> (d: Self)
        ensures
            d@ == (DiagramView { classes: Seq::empty(), relationships: Seq::empty() }),
    {
        let d = Diagram { classes: Vec::new(), relationships: Vec::new() };
        assert(d@.classes =~= Seq::<ClassView>::empty());
        assert(d@.relationships =~= Seq::<RelationshipView>::empty());
        d
    }
}

/// Where the first class called `id` sits, if any does.
pub open spec fn class_index(classes: Seq<ClassView>, id: Seq<char>) -> Option<int>
    decreases classes.len(),
{
    if classes.len() == 0 {
        None
    } else {
        match class_index(classes.drop_last(), id) {
            Some(i) => Some(i),
            None => if classes.last().id == id {
                Some(classes.len() - 1)
            } else {
                None
            },
        }
    }
}

/// A class found is one of them, and has the id it was looked up by.
pub proof fn lemma_class_index_found(cs: Seq<ClassView>, id: Seq<char>)
    ensures
        class_index(cs, id) matches Some(i) ==> 0 <= i < cs.len() && cs[i].id == id,
        class_index(cs, id) is None ==> forall|j: int| 0 <= j < cs.len() ==> cs[j].id != id,
    decreases cs.len(),
{
    if cs.len() > 0 {
        lemma_class_index_found(cs.drop_last(), id);
        if class_index(cs, id) is None {
            assert forall|j: int| 0 <= j < cs.len() implies cs[j].id != id by {
                if j < cs.len() - 1 {
                    assert(cs[j] == cs.drop_last()[j]);
                }
            }
        }
    }
}

/// A class found among the first `k` is the one found among them all.
pub proof fn lemma_class_index_prefix(cs: Seq<ClassView>, id: Seq<char>, k: int)
    requires
        0 <= k <= cs.len(),
        class_index(cs.take(k), id) is Some,
    ensures
        class_index(cs, id) == class_index(cs.take(k), id),
    decreases cs.len(),
{
    if k == cs.len() {
        assert(cs.take(k) == cs);
    } else {
        assert(cs.drop_last().take(k) == cs.take(k));
        lemma_class_index_prefix(cs.drop_last(), id, k);
    }
}

impl Diagram {
    /// Where `id` sits in `classes`.
    pub fn index_of(&self, id: &str) -> (r: Option<usize>)
        ensures
            match r {
                Some(i) => class_index(self@.classes, id@) == Some(i as int),
                None => class_index(self@.classes, id@) is None,
            },
    {
        let ghost cs = self@.classes;
        let mut i: usize = 0;
        assert(cs.take(0) =~= Seq::<ClassView>::empty());
        while i < self.classes.len()
            invariant
                i <= self.classes.len(),
                cs == self@.classes,
                class_index(cs.take(i as int), id@) is None,
            decreases self.classes.len() - i,
        {
            assert(cs.take(i + 1).drop_last() == cs.take(i as int));
            assert(cs.take(i + 1).last() == self.classes@[i as int]@);
            if same(&chars_of(self.classes[i].id.as_str()), &chars_of(id)) {
                proof {
                    lemma_class_index_prefix(cs, id@, i + 1);
                }
                return Some(i);
            }
            i += 1;
        }
        assert(cs.take(cs.len() as int) == cs);
        None
    }
}

} // verus!
