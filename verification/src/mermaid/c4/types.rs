//! The parsed shape of a C4 diagram: element boxes connected by labelled
//! relationships, optionally grouped inside boundaries that may nest.
use vstd::prelude::*;

verus! {

/// The kind of element box, which drives how it is drawn.
#[derive(Debug, Clone, Copy, PartialEq, Eq, Structural)]
pub enum ElementKind {
    Person,
    System,
    Container,
    Component,
}

/// Storage shape carried by the `*Db` and `*Queue` forms. These change the
/// glyph, not the kind: a `ContainerDb` is still a container.
#[derive(Debug, Clone, Copy, PartialEq, Eq, Structural)]
pub enum Variant {
    Db,
    Queue,
}

/// A direction hint from `Rel_U` and friends.
#[derive(Debug, Clone, Copy, PartialEq, Eq, Structural)]
pub enum RelDirection {
    Up,
    Down,
    Left,
    Right,
}

/// What kind of container a boundary is.
#[derive(Debug, Clone, Copy, PartialEq, Eq, Structural)]
pub enum BoundaryKind {
    Enterprise,
    System,
    Container,
    Deployment,
}

/// Layout hints from `UpdateLayoutConfig`: how many shapes and how many
/// boundaries go in one row.
#[derive(Debug, Clone, Copy, PartialEq, Eq, Structural)]
pub struct LayoutConfig {
    pub shape_in_row: usize,
    pub boundary_in_row: usize,
}

impl Default for LayoutConfig {
    /// Mermaid's own defaults, used unless the source says otherwise.
    fn default() -> (c: Self)
        ensures
            c == (LayoutConfig { shape_in_row: 4, boundary_in_row: 2 }),
    {
        LayoutConfig { shape_in_row: 4, boundary_in_row: 2 }
    }
}

pub open spec fn opt_view(s: Option<String>) -> Option<Seq<char>> {
    match s {
        Some(v) => Some(v@),
        None => None,
    }
}

/// One element box.
#[derive(Debug, Clone, PartialEq, Eq)]
pub struct Element {
    /// Identifier from the source, and the identity feedback is keyed to.
    pub alias: String,
    pub kind: ElementKind,
    pub variant: Option<Variant>,
    pub label: String,
    pub techn: Option<String>,
    pub descr: Option<String>,
    pub external: bool,
    /// The boundary enclosing this element, if any.
    pub boundary: Option<String>,
}

pub struct ElementView {
    pub alias: Seq<char>,
    pub kind: ElementKind,
    pub variant: Option<Variant>,
    pub label: Seq<char>,
    pub techn: Option<Seq<char>>,
    pub descr: Option<Seq<char>>,
    pub external: bool,
    pub boundary: Option<Seq<char>>,
}

impl View for Element {
    type V = ElementView;

    open spec fn view(&self) -> ElementView {
        ElementView {
            alias: self.alias@,
            kind: self.kind,
            variant: self.variant,
            label: self.label@,
            techn: opt_view(self.techn),
            descr: opt_view(self.descr),
            external: self.external,
            boundary: opt_view(self.boundary),
        }
    }
}

/// One relationship arrow.
#[derive(Debug, Clone, PartialEq, Eq)]
pub struct Relationship {
    pub from: String,
    pub to: String,
    pub label: String,
    pub techn: Option<String>,
    pub direction: Option<RelDirection>,
    pub bidirectional: bool,
}

pub struct RelationshipView {
    pub from: Seq<char>,
    pub to: Seq<char>,
    pub label: Seq<char>,
    pub techn: Option<Seq<char>>,
    pub direction: Option<RelDirection>,
    pub bidirectional: bool,
}

impl View for Relationship {
    type V = RelationshipView;

    open spec fn view(&self) -> RelationshipView {
        RelationshipView {
            from: self.from@,
            to: self.to@,
            label: self.label@,
            techn: opt_view(self.techn),
            direction: self.direction,
            bidirectional: self.bidirectional,
        }
    }
}

/// One boundary group.
#[derive(Debug, Clone, PartialEq, Eq)]
pub struct Boundary {
    pub alias: String,
    pub label: String,
    pub kind: BoundaryKind,
    /// The boundary enclosing this one. Without this link an outer deployment
    /// node that holds only other nodes has no members and disappears.
    pub parent: Option<String>,
}

pub struct BoundaryView {
    pub alias: Seq<char>,
    pub label: Seq<char>,
    pub kind: BoundaryKind,
    pub parent: Option<Seq<char>>,
}

impl View for Boundary {
    type V = BoundaryView;

    open spec fn view(&self) -> BoundaryView {
        BoundaryView {
            alias: self.alias@,
            label: self.label@,
            kind: self.kind,
            parent: opt_view(self.parent),
        }
    }
}

/// A parsed C4 diagram.
#[derive(Debug, Clone, PartialEq, Eq)]
pub struct Diagram {
    pub title: Option<String>,
    pub elements: Vec<Element>,
    pub relationships: Vec<Relationship>,
    pub boundaries: Vec<Boundary>,
    pub config: LayoutConfig,
}

pub struct DiagramView {
    pub title: Option<Seq<char>>,
    pub elements: Seq<ElementView>,
    pub relationships: Seq<RelationshipView>,
    pub boundaries: Seq<BoundaryView>,
    pub config: LayoutConfig,
}

impl View for Diagram {
    type V = DiagramView;

    open spec fn view(&self) -> DiagramView {
        DiagramView {
            title: opt_view(self.title),
            elements: self.elements@.map_values(|e: Element| e@),
            relationships: self.relationships@.map_values(|r: Relationship| r@),
            boundaries: self.boundaries@.map_values(|b: Boundary| b@),
            config: self.config,
        }
    }
}

impl Default for Diagram {
    fn default() -> (d: Self)
        ensures
            d@ == (DiagramView {
                title: None,
                elements: Seq::empty(),
                relationships: Seq::empty(),
                boundaries: Seq::empty(),
                config: LayoutConfig { shape_in_row: 4, boundary_in_row: 2 },
            }),
    {
        let d = Diagram {
            title: None,
            elements: Vec::new(),
            relationships: Vec::new(),
            boundaries: Vec::new(),
            config: LayoutConfig::default(),
        };
        assert(d@.elements =~= Seq::<ElementView>::empty());
        assert(d@.relationships =~= Seq::<RelationshipView>::empty());
        assert(d@.boundaries =~= Seq::<BoundaryView>::empty());
        d
    }
}

} // verus!
