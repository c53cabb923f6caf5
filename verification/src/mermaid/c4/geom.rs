//! The faces of a box and the axes a run travels along.
use vstd::prelude::*;

verus! {

/// Which face of a box an edge attaches to.
#[derive(Debug, Clone, Copy, PartialEq, Eq, Hash, Structural)]
pub enum Side {
    Top,
    Bottom,
    Left,
    Right,
}

impl Side {
    /// Whether the face runs horizontally, so ports along it slide in x.
    pub fn is_horizontal_face(self) -> (r: bool)
        ensures
            r == (self == Side::Top || self == Side::Bottom),
    {
        matches!(self, Side::Top | Side::Bottom)
    }
}

/// The faces an edge leaves and arrives on.
#[derive(Debug, Clone, Copy, PartialEq, Eq, Structural)]
pub struct SidePair {
    pub start: Side,
    pub end: Side,
}

/// Whether two faces look straight at each other across a gutter.
pub open spec fn faces(start: Side, end: Side) -> bool {
    ||| (start == Side::Bottom && end == Side::Top)
    ||| (start == Side::Top && end == Side::Bottom)
    ||| (start == Side::Right && end == Side::Left)
    ||| (start == Side::Left && end == Side::Right)
}

impl SidePair {
    /// Whether the two ends look straight at each other across a gutter.
    pub fn facing(self) -> (r: bool)
        ensures
            r == faces(self.start, self.end),
    {
        matches!(
            (self.start, self.end),
            (Side::Bottom, Side::Top) | (Side::Top, Side::Bottom) | (Side::Right, Side::Left) | (
                Side::Left,
                Side::Right,
            )
        )
    }
}

/// Which axis a run travels along.
#[derive(Debug, Clone, Copy, PartialEq, Eq, Hash, Structural)]
pub enum Axis {
    H,
    V,
}

/// The axis across the given one.
pub open spec fn other_of(a: Axis) -> Axis {
    match a {
        Axis::H => Axis::V,
        Axis::V => Axis::H,
    }
}

impl Axis {
    /// The axis across this one.
    pub fn other(self) -> (a: Self)
        ensures
            a == other_of(self),
    {
        match self {
            Axis::H => Axis::V,
            Axis::V => Axis::H,
        }
    }
}

/// Two faces that look at each other do so from either end, and each is a
/// face of the other orientation's pair: a top looks at a bottom, a left at
/// a right.
pub proof fn facing_is_mutual(start: Side, end: Side)
    ensures
        faces(start, end) == faces(end, start),
        faces(start, end) ==> ((start == Side::Top || start == Side::Bottom) == (end == Side::Top
            || end == Side::Bottom)),
        !faces(start, start),
{
}

/// The axis across the axis across is the axis itself, and never the axis
/// it started from.
pub proof fn other_comes_back(a: Axis)
    ensures
        other_of(other_of(a)) == a,
        other_of(a) != a,
{
}

/// The straight legs of a polyline, as consecutive pairs of its points.
pub fn legs<T: Copy>(points: &[T]) -> (out: Vec<(T, T)>)
    ensures
        out@.len() == if points@.len() == 0 {
            0
        } else {
            points@.len() - 1
        },
        forall|i: int| 0 <= i < out@.len() ==> #[trigger] out@[i] == (points@[i], points@[i + 1]),
{
    let mut out: Vec<(T, T)> = Vec::new();
    if points.len() == 0 {
        return out;
    }
    let mut i: usize = 1;
    while i < points.len()
        invariant
            1 <= i <= points.len(),
            out@.len() == i - 1,
            forall|k: int| 0 <= k < out@.len() ==> #[trigger] out@[k] == (points@[k], points@[k + 1]),
        decreases points.len() - i,
    {
        out.push((points[i - 1], points[i]));
        i += 1;
    }
    out
}

} // verus!
