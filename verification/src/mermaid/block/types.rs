//! The parsed shape of a block diagram: a uniform grid, and wires between cells.
use vstd::prelude::*;

verus! {

/// One block, in the cell it was written into.
#[derive(Debug, Clone, PartialEq, Eq)]
pub struct Block {
    /// Matches edge endpoints, and names the drawn element.
    pub id: String,
    pub label: String,
    /// Zero-based, left to right.
    pub col: usize,
    /// Zero-based, top to bottom.
    pub row: usize,
}

/// A block as plain values.
pub struct BlockView {
    pub id: Seq<char>,
    pub label: Seq<char>,
    pub col: nat,
    pub row: nat,
}

impl View for Block {
    type V = BlockView;

    open spec fn view(&self) -> BlockView {
        BlockView { id: self.id@, label: self.label@, col: self.col as nat, row: self.row as nat }
    }
}

/// A wire between two blocks, named by their ids.
#[derive(Debug, Clone, PartialEq, Eq)]
pub struct Edge {
    pub source: String,
    pub target: String,
}

/// A wire as plain values.
pub struct EdgeView {
    pub source: Seq<char>,
    pub target: Seq<char>,
}

impl View for Edge {
    type V = EdgeView;

    open spec fn view(&self) -> EdgeView {
        EdgeView { source: self.source@, target: self.target@ }
    }
}

/// A parsed block diagram.
#[derive(Debug, Clone, PartialEq, Eq)]
pub struct Diagram {
    /// Grid width, from `columns N`.
    pub columns: usize,
    pub blocks: Vec<Block>,
    pub edges: Vec<Edge>,
}

impl Default for Diagram {
    /// One column, because a grid zero cells wide has nowhere to put a block.
    fn default() -> (d: Self)
        ensures
            d.columns == 1,
            d.blocks@.len() == 0,
            d.edges@.len() == 0,
    {
        Diagram { columns: 1, blocks: Vec::new(), edges: Vec::new() }
    }
}

/// A diagram as plain values.
pub struct DiagramView {
    pub columns: nat,
    pub blocks: Seq<BlockView>,
    pub edges: Seq<EdgeView>,
}

impl View for Diagram {
    type V = DiagramView;

    open spec fn view(&self) -> DiagramView {
        DiagramView {
            columns: self.columns as nat,
            blocks: self.blocks@.map_values(|b: Block| b@),
            edges: self.edges@.map_values(|e: Edge| e@),
        }
    }
}

} // verus!
