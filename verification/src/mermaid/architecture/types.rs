//! The parsed shape of an `architecture-beta` diagram.
//!
//! Groups, services and junctions differ only in what they are drawn as, so
//! they are one record with a kind rather than three lists — which keeps
//! declaration order, the placement's tie-break, in one place.
use vstd::prelude::*;

use crate::text::{chars_of, same, upper};

verus! {

/// Which side of a box an edge meets.
#[derive(Debug, Clone, Copy, PartialEq, Eq, Structural)]
pub enum Side {
    Left,
    Right,
    Top,
    Bottom,
}

/// The letter a side is written with.
pub open spec fn side_token(side: Side) -> Seq<char> {
    match side {
        Side::Left => "L"@,
        Side::Right => "R"@,
        Side::Top => "T"@,
        Side::Bottom => "B"@,
    }
}

/// The side a letter names, in whatever case it was written.
pub open spec fn side_from_letter(letter: char) -> Option<Side> {
    let up = upper(letter);
    if up == 'L' {
        Some(Side::Left)
    } else if up == 'R' {
        Some(Side::Right)
    } else if up == 'T' {
        Some(Side::Top)
    } else if up == 'B' {
        Some(Side::Bottom)
    } else {
        None
    }
}

/// Which way a side faces, in whole cells.
pub open spec fn side_step(side: Side) -> (i64, i64) {
    match side {
        Side::Left => (-1i64, 0i64),
        Side::Right => (1i64, 0i64),
        Side::Top => (0i64, -1i64),
        Side::Bottom => (0i64, 1i64),
    }
}

pub open spec fn side_opposite(side: Side) -> Side {
    match side {
        Side::Left => Side::Right,
        Side::Right => Side::Left,
        Side::Top => Side::Bottom,
        Side::Bottom => Side::Top,
    }
}

impl Side {
    /// The letter this is written with.
    pub fn token(self) -> (t: &'static str)
        ensures
            t@ == side_token(self),
    {
        match self {
            Side::Left => "L",
            Side::Right => "R",
            Side::Top => "T",
            Side::Bottom => "B",
        }
    }

    /// The side a letter names, in whatever case it was written.
    pub fn from_letter(letter: char) -> (s: Option<Self>)
        ensures
            s == side_from_letter(letter),
    {
        let up = crate::text::to_upper(letter);
        if up == 'L' {
            Some(Side::Left)
        } else if up == 'R' {
            Some(Side::Right)
        } else if up == 'T' {
            Some(Side::Top)
        } else if up == 'B' {
            Some(Side::Bottom)
        } else {
            None
        }
    }

    /// Which way this side faces, in whole cells: `a:R -- L:b` says that b is
    /// to the right of a.
    pub fn step(self) -> (d: (i64, i64))
        ensures
            d == side_step(self),
    {
        match self {
            Side::Left => (-1, 0),
            Side::Right => (1, 0),
            Side::Top => (0, -1),
            Side::Bottom => (0, 1),
        }
    }

    pub fn opposite(self) -> (s: Self)
        ensures
            s == side_opposite(self),
    {
        match self {
            Side::Left => Side::Right,
            Side::Right => Side::Left,
            Side::Top => Side::Bottom,
            Side::Bottom => Side::Top,
        }
    }

    /// Whether an edge leaves this side sideways rather than up or down.
    pub fn across(self) -> (r: bool)
        ensures
            r == (self == Side::Left || self == Side::Right),
    {
        match self {
            Side::Left | Side::Right => true,
            _ => false,
        }
    }
}

/// Opposite sides face opposite ways, agree on which axis they sit across,
/// and come back round; each side is read back from the letter it is written
/// with.
pub proof fn sides_come_back_round(side: Side)
    ensures
        side_opposite(side_opposite(side)) == side,
        side_step(side_opposite(side)).0 == -side_step(side).0,
        side_step(side_opposite(side)).1 == -side_step(side).1,
        (side == Side::Left || side == Side::Right) == (side_opposite(side) == Side::Left
            || side_opposite(side) == Side::Right),
        side_token(side).len() == 1,
        side_from_letter(side_token(side)[0]) == Some(side),
{
    reveal_strlit("L");
    reveal_strlit("R");
    reveal_strlit("T");
    reveal_strlit("B");
}

/// What a declared thing is drawn as.
#[derive(Debug, Clone, Copy, PartialEq, Eq, Structural)]
pub enum Kind {
    /// A labelled container round other things.
    Group,
    /// A box with a glyph and a name.
    Service,
    /// A dot where several lines meet.
    Junction,
}

/// One declared thing.
#[derive(Debug, Clone, PartialEq, Eq)]
pub struct Item {
    pub id: String,
    pub kind: Kind,
    /// The glyph named in parentheses. Empty when none was.
    pub icon: String,
    /// What is drawn on it; the id when nothing was written.
    pub title: String,
    /// The group this sits in, by id. Empty when it sits at the top.
    pub parent: String,
}

/// An item as plain values.
pub struct ItemView {
    pub id: Seq<char>,
    pub kind: Kind,
    pub icon: Seq<char>,
    pub title: Seq<char>,
    pub parent: Seq<char>,
}

impl View for Item {
    type V = ItemView;

    open spec fn view(&self) -> ItemView {
        ItemView {
            id: self.id@,
            kind: self.kind,
            icon: self.icon@,
            title: self.title@,
            parent: self.parent@,
        }
    }
}

/// One line between two declared things.
#[derive(Debug, Clone, PartialEq, Eq)]
pub struct Edge {
    pub from: String,
    /// Which side of `from` this leaves. Unstated means whichever faces `to`.
    pub from_side: Option<Side>,
    pub to: String,
    pub to_side: Option<Side>,
    pub arrow_start: bool,
    pub arrow_end: bool,
}

/// An edge as plain values.
pub struct EdgeView {
    pub from: Seq<char>,
    pub from_side: Option<Side>,
    pub to: Seq<char>,
    pub to_side: Option<Side>,
    pub arrow_start: bool,
    pub arrow_end: bool,
}

impl View for Edge {
    type V = EdgeView;

    open spec fn view(&self) -> EdgeView {
        EdgeView {
            from: self.from@,
            from_side: self.from_side,
            to: self.to@,
            to_side: self.to_side,
            arrow_start: self.arrow_start,
            arrow_end: self.arrow_end,
        }
    }
}

/// A parsed architecture diagram.
#[derive(Debug, Clone, PartialEq, Eq)]
pub struct Diagram {
    /// Everything declared, in the order it was declared.
    pub items: Vec<Item>,
    pub edges: Vec<Edge>,
}

impl Default for Diagram {
    fn default() -> (d: Self)
        ensures
            d.items@.len() == 0,
            d.edges@.len() == 0,
    {
        Diagram { items: Vec::new(), edges: Vec::new() }
    }
}

/// A diagram as plain values.
pub struct DiagramView {
    pub items: Seq<ItemView>,
    pub edges: Seq<EdgeView>,
}

impl View for Diagram {
    type V = DiagramView;

    open spec fn view(&self) -> DiagramView {
        DiagramView {
            items: self.items@.map_values(|i: Item| i@),
            edges: self.edges@.map_values(|e: Edge| e@),
        }
    }
}

/// Where the first item called `id` sits.
pub open spec fn index_of_id(items: Seq<Item>, id: Seq<char>) -> Option<int>
    decreases items.len(),
{
    if items.len() == 0 {
        None
    } else if items[0].id@ == id {
        Some(0)
    } else {
        match index_of_id(items.drop_first(), id) {
            Some(k) => Some(k + 1),
            None => None,
        }
    }
}

/// What is found is one of the items, and has the id it was looked up by.
pub proof fn lemma_index_of_id_found(items: Seq<Item>, id: Seq<char>)
    ensures
        index_of_id(items, id) matches Some(k) ==> 0 <= k < items.len() && items[k].id@ == id,
    decreases items.len(),
{
    if items.len() > 0 {
        lemma_index_of_id_found(items.drop_first(), id);
        if let Some(k) = index_of_id(items.drop_first(), id) {
            assert(items.drop_first()[k] == items[k + 1]);
        }
    }
}

proof fn lemma_index_of_id_at(items: Seq<Item>, id: Seq<char>, k: int)
    requires
        0 <= k < items.len(),
        items[k].id@ == id,
        forall|j: int| 0 <= j < k ==> #[trigger] items[j].id@ != id,
    ensures
        index_of_id(items, id) == Some(k),
    decreases items.len(),
{
    if k > 0 {
        assert forall|j: int| 0 <= j < k - 1 implies #[trigger] items.drop_first()[j].id@ != id by {
            assert(items.drop_first()[j] == items[j + 1]);
        }
        lemma_index_of_id_at(items.drop_first(), id, k - 1);
    }
}

proof fn lemma_index_of_id_none(items: Seq<Item>, id: Seq<char>)
    requires
        forall|j: int| 0 <= j < items.len() ==> #[trigger] items[j].id@ != id,
    ensures
        index_of_id(items, id) is None,
    decreases items.len(),
{
    if items.len() > 0 {
        assert forall|j: int| 0 <= j < items.len() - 1 implies #[trigger] items.drop_first()[j].id@
            != id by {
            assert(items.drop_first()[j] == items[j + 1]);
        }
        lemma_index_of_id_none(items.drop_first(), id);
    }
}

impl Diagram {
    /// Where `id` sits in `items`.
    pub fn index_of(&self, id: &str) -> (r: Option<usize>)
        ensures
            r matches Some(k) ==> index_of_id(self.items@, id@) == Some(k as int),
            r is None ==> index_of_id(self.items@, id@) is None,
    {
        let want = chars_of(id);
        let mut i: usize = 0;
        while i < self.items.len()
            invariant
                i <= self.items.len(),
                want@ == id@,
                forall|j: int| 0 <= j < i ==> #[trigger] self.items@[j].id@ != id@,
            decreases self.items.len() - i,
        {
            if same(&chars_of(self.items[i].id.as_str()), &want) {
                proof {
                    lemma_index_of_id_at(self.items@, id@, i as int);
                }
                return Some(i);
            }
            i += 1;
        }
        proof {
            lemma_index_of_id_none(self.items@, id@);
        }
        None
    }
}

} // verus!
