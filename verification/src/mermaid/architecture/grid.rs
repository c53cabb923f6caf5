//! Placing things on a grid from the side letters that join them.
//!
//! `a:R -- L:b` does not describe a graph to be laid out — it says where b
//! goes. So: whole cells, one relation at a time, in declaration order. Nothing
//! here knows about pixels, boxes or groups.
use vstd::prelude::*;
use vstd::set_lib::{lemma_int_range, lemma_len_subset, lemma_map_size, set_int_range};

verus! {

/// A square on the grid. Negative until the whole grid is shifted to fit.
#[derive(Debug, Clone, Copy, PartialEq, Eq, Structural)]
pub struct Cell {
    pub col: i64,
    pub row: i64,
}

impl Default for Cell {
    fn default() -> (c: Self)
        ensures
            c == (Cell { col: 0, row: 0 }),
    {
        Cell { col: 0, row: 0 }
    }
}

impl Cell {
    pub fn new(col: i64, row: i64) -> (c: Self)
        ensures
            c.col == col,
            c.row == row,
    {
        Cell { col, row }
    }

    fn shifted(self, by: (i64, i64)) -> (c: Self)
        requires
            i64::MIN <= self.col + by.0 <= i64::MAX,
            i64::MIN <= self.row + by.1 <= i64::MAX,
        ensures
            c.col == self.col + by.0,
            c.row == self.row + by.1,
    {
        Cell::new(self.col + by.0, self.row + by.1)
    }
}

/// "`to` sits this many cells from `from`".
#[derive(Debug, Clone, Copy, PartialEq, Eq)]
pub struct Link {
    pub from: usize,
    pub to: usize,
    pub step: (i64, i64),
}

/// How far across the `m`-th square tried sits: 0, then 1, -1, 2, -2, … 32, -32.
pub open spec fn offset(m: int) -> int {
    if m <= 0 {
        0
    } else if m % 2 == 1 {
        (m + 1) / 2
    } else {
        -(m / 2)
    }
}

/// The `m`-th square tried for `want`.
pub open spec fn candidate(want: Cell, step: (i64, i64), m: int) -> Cell {
    if step.0 == 0 {
        Cell { col: (want.col + offset(m)) as i64, row: want.row }
    } else {
        Cell { col: want.col, row: (want.row + offset(m)) as i64 }
    }
}

/// The first square from the `m`-th on that nothing holds, or `want` when the
/// search runs out.
pub open spec fn first_free(taken: Seq<Cell>, want: Cell, step: (i64, i64), m: int) -> Cell
    decreases 65 - m,
{
    if m < 0 || m >= 65 {
        want
    } else if !taken.contains(candidate(want, step, m)) {
        candidate(want, step, m)
    } else {
        first_free(taken, want, step, m + 1)
    }
}

/// Where a step lands, or the nearest free square across from it.
pub open spec fn free_near_of(taken: Seq<Cell>, want: Cell, step: (i64, i64)) -> Cell {
    first_free(taken, want, step, 0)
}

/// Whether a coordinate is one an `i64` holds.
pub open spec fn in_i64(v: int) -> bool {
    i64::MIN <= v <= i64::MAX
}

/// The coordinate the `m`-th square tried for `want` moves along: the column
/// when the step is upright, the row otherwise.
pub open spec fn across_at(want: Cell, step: (i64, i64), m: int) -> int {
    if step.0 == 0 {
        want.col + offset(m)
    } else {
        want.row + offset(m)
    }
}

/// Whether the search for a free square, from the `m`-th square tried on,
/// only ever tries squares an `i64` holds: each one up to the first free
/// square must fit.
pub open spec fn search_fits(taken: Seq<Cell>, want: Cell, step: (i64, i64), m: int) -> bool
    decreases 65 - m,
{
    if m < 0 || m >= 65 {
        true
    } else {
        &&& in_i64(across_at(want, step, m))
        &&& (taken.contains(candidate(want, step, m)) ==> search_fits(taken, want, step, m + 1))
    }
}

/// Whether `c` is among `taken`.
fn is_taken(taken: &[Cell], c: Cell) -> (r: bool)
    ensures
        r == taken@.contains(c),
{
    let mut i: usize = 0;
    while i < taken.len()
        invariant
            i <= taken.len(),
            forall|j: int| 0 <= j < i ==> taken@[j] != c,
        decreases taken.len() - i,
    {
        if taken[i] == c {
            assert(taken@[i as int] == c);
            return true;
        }
        i += 1;
    }
    false
}

/// Where a step lands, or the nearest free square across from it.
///
/// Across rather than along: a second thing on the right of a box belongs
/// beside the first, not past it, which keeps a fan-out looking like one.
pub fn free_near(taken: &[Cell], want: Cell, step: (i64, i64)) -> (c: Cell)
    requires
        search_fits(taken@, want, step, 0),
    ensures
        c == free_near_of(taken@, want, step),
{
    let mut m: i64 = 0;
    while m < 65
        invariant
            0 <= m <= 65,
            search_fits(taken@, want, step, m as int),
            free_near_of(taken@, want, step) == first_free(taken@, want, step, m as int),
        decreases 65 - m,
    {
        let off: i64 = if m == 0 {
            0
        } else if m % 2 == 1 {
            (m + 1) / 2
        } else {
            -(m / 2)
        };
        assert(off == offset(m as int));
        assert(in_i64(across_at(want, step, m as int)));
        let cand = if step.0 == 0 {
            Cell::new(want.col + off, want.row)
        } else {
            Cell::new(want.col, want.row + off)
        };
        assert(cand == candidate(want, step, m as int));
        if !is_taken(taken, cand) {
            return cand;
        }
        m += 1;
    }
    want
}

proof fn lemma_offset_injective(m: int, n: int)
    requires
        0 <= m < 65,
        0 <= n < 65,
        m != n,
    ensures
        offset(m) != offset(n),
        -32 <= offset(m) <= 32,
{
}

proof fn lemma_first_free_finds(taken: Seq<Cell>, want: Cell, step: (i64, i64), m: int, k: int)
    requires
        0 <= m <= k < 65,
        !taken.contains(candidate(want, step, k)),
    ensures
        !taken.contains(first_free(taken, want, step, m)),
    decreases 65 - m,
{
    if taken.contains(candidate(want, step, m)) {
        lemma_first_free_finds(taken, want, step, m + 1, k);
    }
}

/// When every square from the `m`-th on is taken, the search tried them all,
/// so each of them fits.
proof fn lemma_all_tried_fit(taken: Seq<Cell>, want: Cell, step: (i64, i64), m: int)
    requires
        0 <= m,
        search_fits(taken, want, step, m),
        forall|k: int| m <= k < 65 ==> taken.contains(#[trigger] candidate(want, step, k)),
    ensures
        forall|k: int| m <= k < 65 ==> in_i64(#[trigger] across_at(want, step, k)),
    decreases 65 - m,
{
    if m < 65 {
        lemma_all_tried_fit(taken, want, step, m + 1);
        assert(taken.contains(candidate(want, step, m)));
    }
}

/// With fewer than 65 squares taken, the search always finds a free one.
pub proof fn lemma_free_near_is_free(taken: Seq<Cell>, want: Cell, step: (i64, i64))
    requires
        search_fits(taken, want, step, 0),
        taken.len() < 65,
    ensures
        !taken.contains(free_near_of(taken, want, step)),
{
    let f = |m: int| candidate(want, step, m);
    let range = set_int_range(0, 65);
    if forall|m: int| 0 <= m < 65 ==> taken.contains(#[trigger] candidate(want, step, m)) {
        lemma_all_tried_fit(taken, want, step, 0);
        lemma_int_range(0, 65);
        assert(vstd::relations::injective_on(f, range)) by {
            assert forall|m: int, n: int|
                range.contains(m) && range.contains(n) && #[trigger] f(m) == #[trigger] f(n) implies m
                == n by {
                if m != n {
                    lemma_offset_injective(m, n);
                    assert(in_i64(across_at(want, step, m)));
                    assert(in_i64(across_at(want, step, n)));
                }
            }
        }
        lemma_map_size(range, range.map(f), f);
        assert(range.map(f).subset_of(taken.to_set())) by {
            assert forall|c: Cell| range.map(f).contains(c) implies taken.to_set().contains(c) by {
                let m = choose|m: int| range.contains(m) && f(m) == c;
                assert(taken.contains(candidate(want, step, m)));
            }
        }
        taken.lemma_cardinality_of_set();
        lemma_len_subset(range.map(f), taken.to_set());
        assert(false);
    } else {
        let k = choose|k: int| 0 <= k < 65 && !taken.contains(#[trigger] candidate(want, step, k));
        lemma_first_free_finds(taken, want, step, 0, k);
    }
}

/// The lowest row among `taken`.
pub open spec fn max_row(taken: Seq<Cell>) -> int
    decreases taken.len(),
{
    if taken.len() == 0 {
        0
    } else if taken.len() == 1 {
        taken[0].row as int
    } else {
        let rest = max_row(taken.drop_last());
        if taken.last().row > rest {
            taken.last().row as int
        } else {
            rest
        }
    }
}

/// The row an unconnected thing starts on: one below everything placed.
pub open spec fn seed_row(taken: Seq<Cell>) -> int {
    if taken.len() == 0 {
        0
    } else {
        max_row(taken) + 1
    }
}

proof fn lemma_max_row_bounds(taken: Seq<Cell>)
    ensures
        forall|k: int| 0 <= k < taken.len() ==> #[trigger] taken[k].row <= max_row(taken),
    decreases taken.len(),
{
    if taken.len() > 1 {
        lemma_max_row_bounds(taken.drop_last());
        assert forall|k: int| 0 <= k < taken.len() implies #[trigger] taken[k].row <= max_row(
            taken,
        ) by {
            if k < taken.len() - 1 {
                assert(taken[k] == taken.drop_last()[k]);
            }
        }
    }
}

/// Whether the row below everything placed is one an `i64` holds.
pub open spec fn seed_fits(taken: Seq<Cell>) -> bool {
    taken.len() == 0 || max_row(taken) < i64::MAX
}

/// A free square to start an unconnected thing at: a fresh row of its own.
pub(crate) fn free_seed(taken: &[Cell]) -> (c: Cell)
    requires
        seed_fits(taken@),
        search_fits(taken@, Cell { col: 0, row: seed_row(taken@) as i64 }, (0, 1), 0),
    ensures
        c == free_near_of(taken@, Cell { col: 0, row: seed_row(taken@) as i64 }, (0, 1)),
{
    let mut below: i64 = 0;
    let mut i: usize = 0;
    proof {
        lemma_max_row_bounds(taken@);
    }
    while i < taken.len()
        invariant
            i <= taken.len(),
            seed_fits(taken@),
            forall|k: int| 0 <= k < taken.len() ==> #[trigger] taken@[k].row <= max_row(taken@),
            i == 0 ==> below == 0,
            i > 0 ==> below == max_row(taken@.take(i as int)) + 1,
        decreases taken.len() - i,
    {
        let r = taken[i];
        proof {
            let t = taken@.take(i + 1);
            assert(t.drop_last() == taken@.take(i as int));
            assert(t.last() == taken@[i as int]);
            assert(taken@[i as int].row <= max_row(taken@));
        }
        if i == 0 || r.row + 1 > below {
            below = r.row + 1;
        }
        i += 1;
    }
    assert(taken@.take(taken.len() as int) == taken@);
    let want = Cell::new(0, below);
    free_near(taken, want, (0, 1))
}

/// Whether reading a link from `at` can be done in `i64`: a link read from
/// its far end turns its step round, which `i64::MIN` cannot be.
pub open spec fn reach_fits(link: Link, at: usize) -> bool {
    link.from == at || link.to != at || (link.step.0 != i64::MIN && link.step.1 != i64::MIN)
}

/// Everything a link says about a pair, whichever end is already placed.
fn reach(link: Link, at: usize) -> (r: Option<(usize, (i64, i64))>)
    requires
        reach_fits(link, at),
    ensures
        r == reach_of(link, at),
{
    if link.from == at {
        return Some((link.to, link.step));
    }
    if link.to == at {
        return Some((link.from, (-link.step.0, -link.step.1)));
    }
    None
}

/// Everything a link says about the thing at `at`: which thing it places,
/// and where from `at` it goes, whichever end `at` is.
pub open spec fn reach_of(link: Link, at: usize) -> Option<(usize, (i64, i64))> {
    if link.from == at {
        Some((link.to, link.step))
    } else if link.to == at {
        Some((link.from, ((-link.step.0) as i64, (-link.step.1) as i64)))
    } else {
        None
    }
}

/// The placement so far: each thing's square if it has one, and every square
/// taken, in the order they were taken.
pub struct Grid {
    pub cells: Seq<Option<Cell>>,
    pub taken: Seq<Cell>,
}

/// `c` moved by `step`.
pub open spec fn moved(c: Cell, step: (i64, i64)) -> Cell {
    Cell { col: (c.col + step.0) as i64, row: (c.row + step.1) as i64 }
}

/// The grid after the links from the `l`-th on have been read for the thing
/// at `at`, sitting at `here`: each link reaching a thing not yet placed puts
/// it where the link says (or the nearest free square across), and queues it
/// to be walked from in turn.
pub open spec fn visit(
    links: Seq<Link>,
    at: usize,
    here: Cell,
    g: Grid,
    queue: Seq<usize>,
    l: int,
) -> (Grid, Seq<usize>)
    decreases links.len() - l,
{
    if l < 0 || l >= links.len() {
        (g, queue)
    } else {
        match reach_of(links[l], at) {
            Some((other, step)) => if other < g.cells.len() && g.cells[other as int] is None {
                let landed = free_near_of(g.taken, moved(here, step), step);
                visit(
                    links,
                    at,
                    here,
                    Grid {
                        cells: g.cells.update(other as int, Some(landed)),
                        taken: g.taken.push(landed),
                    },
                    queue.push(other),
                    l + 1,
                )
            } else {
                visit(links, at, here, g, queue, l + 1)
            },
            None => visit(links, at, here, g, queue, l + 1),
        }
    }
}

/// The grid once the queue of things to walk from is worked off, last queued
/// first, taking at most `fuel` steps.
pub open spec fn drain(links: Seq<Link>, g: Grid, queue: Seq<usize>, fuel: nat) -> Grid
    decreases fuel,
{
    if fuel == 0 || queue.len() == 0 {
        g
    } else {
        let at = queue.last();
        let rest = queue.drop_last();
        if at < g.cells.len() && g.cells[at as int] is Some {
            let (next, more) = visit(links, at, g.cells[at as int]->0, g, rest, 0);
            drain(links, next, more, (fuel - 1) as nat)
        } else {
            drain(links, g, rest, (fuel - 1) as nat)
        }
    }
}

/// Enough steps to work off a queue of `q` things: each step either drops a
/// thing already walked or places at least one more.
pub open spec fn fuel_for(cells: Seq<Option<Cell>>, q: nat) -> nat {
    2 * unplaced(cells) + q
}

/// The grid after the things from the `at`-th on are seeded in turn: each one
/// nothing has reached yet starts a fresh row below everything placed, and
/// everything it reaches is placed from it.
pub open spec fn seed_from(links: Seq<Link>, count: nat, g: Grid, at: int) -> Grid
    decreases count - at,
{
    if at < 0 || at >= count || at >= g.cells.len() {
        g
    } else if g.cells[at] is Some {
        seed_from(links, count, g, at + 1)
    } else {
        let seed = free_near_of(g.taken, Cell { col: 0, row: seed_row(g.taken) as i64 }, (0, 1));
        let seeded = Grid { cells: g.cells.update(at, Some(seed)), taken: g.taken.push(seed) };
        seed_from(
            links,
            count,
            drain(links, seeded, seq![at as usize], fuel_for(seeded.cells, 1)),
            at + 1,
        )
    }
}

/// Each thing's square as placed, before the grid is moved to the origin.
pub open spec fn raw_cells(count: nat, links: Seq<Link>) -> Seq<Cell> {
    let g = seed_from(
        links,
        count,
        Grid { cells: Seq::new(count, |i: int| None::<Cell>), taken: Seq::empty() },
        0,
    );
    g.cells.map_values(|c: Option<Cell>| c.unwrap_or(Cell { col: 0, row: 0 }))
}

/// Where `place` puts `count` things joined by `links`: the squares as placed,
/// moved so the leftmost column and the topmost row are nought.
pub open spec fn placed(count: nat, links: Seq<Link>) -> Seq<Cell> {
    let raw = raw_cells(count, links);
    raw.map_values(
        |c: Cell| Cell { col: (c.col - min_col(raw)) as i64, row: (c.row - min_row(raw)) as i64 },
    )
}

/// Whether reading the links from the `l`-th on for the thing at `at`,
/// sitting at `here`, only ever computes squares an `i64` holds: each link
/// read from its far end can be turned round, each step taken lands inside
/// `i64`, and so does every square the search then tries.
pub open spec fn visit_fits(
    links: Seq<Link>,
    at: usize,
    here: Cell,
    g: Grid,
    queue: Seq<usize>,
    l: int,
) -> bool
    decreases links.len() - l,
{
    if l < 0 || l >= links.len() {
        true
    } else {
        &&& reach_fits(links[l], at)
        &&& match reach_of(links[l], at) {
            Some((other, step)) => if other < g.cells.len() && g.cells[other as int] is None {
                let landed = free_near_of(g.taken, moved(here, step), step);
                &&& in_i64(here.col + step.0)
                &&& in_i64(here.row + step.1)
                &&& search_fits(g.taken, moved(here, step), step, 0)
                &&& visit_fits(
                    links,
                    at,
                    here,
                    Grid {
                        cells: g.cells.update(other as int, Some(landed)),
                        taken: g.taken.push(landed),
                    },
                    queue.push(other),
                    l + 1,
                )
            } else {
                visit_fits(links, at, here, g, queue, l + 1)
            },
            None => visit_fits(links, at, here, g, queue, l + 1),
        }
    }
}

/// Whether working off the queue stays inside `i64` throughout.
pub open spec fn drain_fits(links: Seq<Link>, g: Grid, queue: Seq<usize>, fuel: nat) -> bool
    decreases fuel,
{
    if fuel == 0 || queue.len() == 0 {
        true
    } else {
        let at = queue.last();
        let rest = queue.drop_last();
        if at < g.cells.len() && g.cells[at as int] is Some {
            let (next, more) = visit(links, at, g.cells[at as int]->0, g, rest, 0);
            &&& visit_fits(links, at, g.cells[at as int]->0, g, rest, 0)
            &&& drain_fits(links, next, more, (fuel - 1) as nat)
        } else {
            drain_fits(links, g, rest, (fuel - 1) as nat)
        }
    }
}

/// Whether seeding the things from the `at`-th on stays inside `i64`: each
/// fresh row below everything placed, the search from it, and everything
/// placed from it.
pub open spec fn seed_fits_from(links: Seq<Link>, count: nat, g: Grid, at: int) -> bool
    decreases count - at,
{
    if at < 0 || at >= count || at >= g.cells.len() {
        true
    } else if g.cells[at] is Some {
        seed_fits_from(links, count, g, at + 1)
    } else {
        let start = Cell { col: 0, row: seed_row(g.taken) as i64 };
        let seed = free_near_of(g.taken, start, (0, 1));
        let seeded = Grid { cells: g.cells.update(at, Some(seed)), taken: g.taken.push(seed) };
        &&& seed_fits(g.taken)
        &&& search_fits(g.taken, start, (0, 1), 0)
        &&& drain_fits(links, seeded, seq![at as usize], fuel_for(seeded.cells, 1))
        &&& seed_fits_from(
            links,
            count,
            drain(links, seeded, seq![at as usize], fuel_for(seeded.cells, 1)),
            at + 1,
        )
    }
}

/// Whether moving the grid to the origin keeps every square inside `i64`.
pub open spec fn origin_fits(raw: Seq<Cell>) -> bool {
    forall|i: int|
        0 <= i < raw.len() ==> #[trigger] raw[i].col - min_col(raw) <= i64::MAX && raw[i].row
            - min_row(raw) <= i64::MAX
}

/// Whether placing `count` things joined by `links` only ever computes
/// coordinates an `i64` holds: exactly the inputs on which the placement's
/// arithmetic does not overflow.
pub open spec fn placement_fits(count: nat, links: Seq<Link>) -> bool {
    &&& seed_fits_from(
        links,
        count,
        Grid { cells: Seq::new(count, |i: int| None::<Cell>), taken: Seq::empty() },
        0,
    )
    &&& origin_fits(raw_cells(count, links))
}

/// How many things are still unplaced.
pub open spec fn unplaced(cells: Seq<Option<Cell>>) -> nat
    decreases cells.len(),
{
    if cells.len() == 0 {
        0
    } else {
        unplaced(cells.drop_last()) + if cells.last() is None {
            1nat
        } else {
            0nat
        }
    }
}

proof fn lemma_unplaced_fill(cells: Seq<Option<Cell>>, i: int, c: Cell)
    requires
        0 <= i < cells.len(),
        cells[i] is None,
    ensures
        unplaced(cells.update(i, Some(c))) + 1 == unplaced(cells),
    decreases cells.len(),
{
    let after = cells.update(i, Some(c));
    if i < cells.len() - 1 {
        assert(after.drop_last() == cells.drop_last().update(i, Some(c)));
        lemma_unplaced_fill(cells.drop_last(), i, c);
    } else {
        assert(after.drop_last() == cells.drop_last());
    }
}

proof fn lemma_unplaced_bound(cells: Seq<Option<Cell>>, i: int)
    requires
        0 <= i < cells.len(),
        cells[i] is None,
    ensures
        unplaced(cells) >= 1,
    decreases cells.len(),
{
    if i < cells.len() - 1 {
        assert(cells.drop_last()[i] == cells[i]);
        lemma_unplaced_bound(cells.drop_last(), i);
    }
}

proof fn lemma_unplaced_all(cells: Seq<Option<Cell>>)
    requires
        forall|i: int| 0 <= i < cells.len() ==> #[trigger] cells[i] is None,
    ensures
        unplaced(cells) == cells.len(),
    decreases cells.len(),
{
    if cells.len() > 0 {
        assert forall|i: int| 0 <= i < cells.drop_last().len() implies #[trigger] cells.drop_last()[i] is None by {
            assert(cells.drop_last()[i] == cells[i]);
        }
        lemma_unplaced_all(cells.drop_last());
    }
}

/// The bookkeeping that placement keeps true: every placed thing's square is
/// recorded as taken, the taken list grows by exactly one per placement, and
/// — while no more than 65 things are placed — no two things share a square.
pub open spec fn well_placed(cells: Seq<Option<Cell>>, taken: Seq<Cell>, count: nat) -> bool {
    &&& cells.len() == count
    &&& taken.len() + unplaced(cells) == count
    &&& forall|i: int| 0 <= i < cells.len() && #[trigger] cells[i] is Some ==> taken.contains(cells[i]->0)
    &&& count <= 65 ==> forall|i: int, j: int|
        0 <= i < cells.len() && 0 <= j < cells.len() && i != j && #[trigger] cells[i] is Some
            && #[trigger] cells[j] is Some ==> cells[i]->0 != cells[j]->0
}

/// Put a thing not yet placed at `c`, a square nothing holds.
proof fn lemma_place_one(cells: Seq<Option<Cell>>, taken: Seq<Cell>, count: nat, i: int, c: Cell)
    requires
        well_placed(cells, taken, count),
        0 <= i < cells.len(),
        cells[i] is None,
        count <= 65 ==> !taken.contains(c),
    ensures
        well_placed(cells.update(i, Some(c)), taken.push(c), count),
{
    lemma_unplaced_fill(cells, i, c);
    let after = cells.update(i, Some(c));
    let grown = taken.push(c);
    assert forall|j: int| 0 <= j < after.len() && #[trigger] after[j] is Some implies grown.contains(
        after[j]->0,
    ) by {
        if j == i {
            assert(grown[taken.len() as int] == c);
        } else {
            assert(taken.contains(cells[j]->0));
            let k = choose|k: int| 0 <= k < taken.len() && taken[k] == cells[j]->0;
            assert(grown[k] == taken[k]);
        }
    }
    if count <= 65 {
        assert forall|j: int, l: int|
            0 <= j < after.len() && 0 <= l < after.len() && j != l && #[trigger] after[j] is Some
                && #[trigger] after[l] is Some implies after[j]->0 != after[l]->0 by {
            if j == i {
                assert(taken.contains(cells[l]->0));
            } else if l == i {
                assert(taken.contains(cells[j]->0));
            }
        }
    }
}

/// Walk out from one placed thing, placing everything it reaches.
fn spread(
    from: usize,
    links: &[Link],
    cells: &mut Vec<Option<Cell>>,
    taken: &mut Vec<Cell>,
    Ghost(count): Ghost<nat>,
)
    requires
        well_placed(old(cells)@, old(taken)@, count),
        drain_fits(
            links@,
            Grid { cells: old(cells)@, taken: old(taken)@ },
            seq![from],
            fuel_for(old(cells)@, 1),
        ),
    ensures
        well_placed(final(cells)@, final(taken)@, count),
        forall|i: int| 0 <= i < count && #[trigger] old(cells)@[i] is Some ==> final(cells)@[i]
            == old(cells)@[i],
        (Grid { cells: final(cells)@, taken: final(taken)@ }) == drain(
            links@,
            Grid { cells: old(cells)@, taken: old(taken)@ },
            seq![from],
            fuel_for(old(cells)@, 1),
        ),
{
    let mut queue: Vec<usize> = Vec::new();
    queue.push(from);
    let ghost mut fuel: nat = fuel_for(cells@, 1);
    let ghost goal = drain(
        links@,
        Grid { cells: cells@, taken: taken@ },
        seq![from],
        fuel_for(cells@, 1),
    );
    assert(queue@ == seq![from]);
    while queue.len() > 0
        invariant
            well_placed(cells@, taken@, count),
            forall|i: int| 0 <= i < count && #[trigger] old(cells)@[i] is Some ==> cells@[i]
                == old(cells)@[i],
            2 * unplaced(cells@) + queue.len() <= fuel,
            goal == drain(links@, Grid { cells: cells@, taken: taken@ }, queue@, fuel),
            drain_fits(links@, Grid { cells: cells@, taken: taken@ }, queue@, fuel),
        decreases 2 * unplaced(cells@) + queue.len(),
    {
        let ghost g0 = Grid { cells: cells@, taken: taken@ };
        let ghost rest = queue@.drop_last();
        let at = queue.pop().unwrap();
        assert(queue@ == rest);
        proof {
            fuel = (fuel - 1) as nat;
        }
        if at >= cells.len() {
            continue;
        }
        let here = match cells[at] {
            Some(c) => c,
            None => {
                continue;
            },
        };
        proof {
            assert(cells@[at as int] is Some);
        }
        let ghost measure = 2 * unplaced(cells@) + queue.len();
        let ghost whole = visit(links@, at, here, g0, rest, 0);
        assert(visit_fits(links@, at, here, g0, rest, 0));
        assert(drain_fits(links@, whole.0, whole.1, fuel));
        let mut l: usize = 0;
        while l < links.len()
            invariant
                l <= links.len(),
                well_placed(cells@, taken@, count),
                forall|i: int| 0 <= i < count && #[trigger] old(cells)@[i] is Some ==> cells@[i]
                    == old(cells)@[i],
                2 * unplaced(cells@) + queue.len() <= measure,
                whole == visit(links@, at, here, Grid { cells: cells@, taken: taken@ }, queue@, l as int),
                visit_fits(links@, at, here, Grid { cells: cells@, taken: taken@ }, queue@, l as int),
                drain_fits(links@, whole.0, whole.1, fuel),
            decreases links.len() - l,
        {
            let link = links[l];
            assert(link == links@[l as int]);
            l += 1;
            let (other, step) = match reach(link, at) {
                Some(found) => found,
                None => {
                    continue;
                },
            };
            if other >= cells.len() {
                continue;
            }
            if cells[other].is_some() {
                continue;
            }
            proof {
                lemma_unplaced_bound(cells@, other as int);
                assert(taken@.len() < count);
            }
            let want = here.shifted(step);
            assert(want == moved(here, step));
            let landed = free_near(taken.as_slice(), want, step);
            proof {
                if count <= 65 {
                    lemma_free_near_is_free(taken@, want, step);
                }
                lemma_place_one(cells@, taken@, count, other as int, landed);
                lemma_unplaced_fill(cells@, other as int, landed);
            }
            cells.set(other, Some(landed));
            taken.push(landed);
            queue.push(other);
        }
    }
}

/// The leftmost column among `cells`, or nought when there are none.
pub open spec fn min_col(cells: Seq<Cell>) -> int
    decreases cells.len(),
{
    if cells.len() == 0 {
        0
    } else if cells.len() == 1 {
        cells[0].col as int
    } else {
        let rest = min_col(cells.drop_last());
        if cells.last().col < rest {
            cells.last().col as int
        } else {
            rest
        }
    }
}

/// The topmost row among `cells`, or nought when there are none.
pub open spec fn min_row(cells: Seq<Cell>) -> int
    decreases cells.len(),
{
    if cells.len() == 0 {
        0
    } else if cells.len() == 1 {
        cells[0].row as int
    } else {
        let rest = min_row(cells.drop_last());
        if cells.last().row < rest {
            cells.last().row as int
        } else {
            rest
        }
    }
}

proof fn lemma_min_col(cells: Seq<Cell>)
    requires
        cells.len() > 0,
    ensures
        forall|i: int| 0 <= i < cells.len() ==> min_col(cells) <= #[trigger] cells[i].col,
        exists|i: int| 0 <= i < cells.len() && min_col(cells) == #[trigger] cells[i].col,
    decreases cells.len(),
{
    if cells.len() > 1 {
        let front = cells.drop_last();
        lemma_min_col(front);
        assert forall|i: int| 0 <= i < cells.len() implies min_col(cells) <= #[trigger] cells[i].col by {
            if i < cells.len() - 1 {
                assert(cells[i] == front[i]);
            }
        }
        if cells.last().col < min_col(front) {
            assert(min_col(cells) == cells[cells.len() - 1].col);
        } else {
            let k = choose|k: int| 0 <= k < front.len() && min_col(front) == #[trigger] front[k].col;
            assert(cells[k] == front[k]);
        }
    } else {
        assert(min_col(cells) == cells[0].col);
    }
}

proof fn lemma_min_row(cells: Seq<Cell>)
    requires
        cells.len() > 0,
    ensures
        forall|i: int| 0 <= i < cells.len() ==> min_row(cells) <= #[trigger] cells[i].row,
        exists|i: int| 0 <= i < cells.len() && min_row(cells) == #[trigger] cells[i].row,
    decreases cells.len(),
{
    if cells.len() > 1 {
        let front = cells.drop_last();
        lemma_min_row(front);
        assert forall|i: int| 0 <= i < cells.len() implies min_row(cells) <= #[trigger] cells[i].row by {
            if i < cells.len() - 1 {
                assert(cells[i] == front[i]);
            }
        }
        if cells.last().row < min_row(front) {
            assert(min_row(cells) == cells[cells.len() - 1].row);
        } else {
            let k = choose|k: int| 0 <= k < front.len() && min_row(front) == #[trigger] front[k].row;
            assert(cells[k] == front[k]);
        }
    } else {
        assert(min_row(cells) == cells[0].row);
    }
}

/// Shift every cell so the grid starts at nought in both directions.
pub(crate) fn to_origin(cells: &mut Vec<Cell>)
    requires
        origin_fits(old(cells)@),
    ensures
        final(cells).len() == old(cells).len(),
        forall|i: int|
            0 <= i < final(cells).len() ==> #[trigger] final(cells)@[i] == (Cell {
                col: (old(cells)@[i].col - min_col(old(cells)@)) as i64,
                row: (old(cells)@[i].row - min_row(old(cells)@)) as i64,
            }),
{
    let ghost before = cells@;
    let mut left: i64 = 0;
    let mut top: i64 = 0;
    let mut i: usize = 0;
    while i < cells.len()
        invariant
            i <= cells.len(),
            cells@ == before,
            left == min_col(before.take(i as int)),
            top == min_row(before.take(i as int)),
        decreases cells.len() - i,
    {
        let c = cells[i];
        proof {
            let t = before.take(i + 1);
            assert(t.drop_last() == before.take(i as int));
            assert(t.last() == before[i as int]);
        }
        if i == 0 || c.col < left {
            left = c.col;
        }
        if i == 0 || c.row < top {
            top = c.row;
        }
        i += 1;
    }
    proof {
        assert(before.take(before.len() as int) == before);
        if before.len() > 0 {
            lemma_min_col(before);
            lemma_min_row(before);
        }
    }
    let mut j: usize = 0;
    while j < cells.len()
        invariant
            j <= cells.len() == before.len(),
            origin_fits(before),
            forall|k: int| 0 <= k < before.len() ==> min_col(before) <= #[trigger] before[k].col
                && min_row(before) <= before[k].row,
            before.len() > 0 ==> exists|k: int| 0 <= k < before.len() && left == #[trigger] before[k].col,
            before.len() > 0 ==> exists|k: int| 0 <= k < before.len() && top == #[trigger] before[k].row,
            left == min_col(before),
            top == min_row(before),
            forall|k: int| j <= k < before.len() ==> #[trigger] cells@[k] == before[k],
            forall|k: int|
                0 <= k < j ==> #[trigger] cells@[k] == (Cell {
                    col: (before[k].col - min_col(before)) as i64,
                    row: (before[k].row - min_row(before)) as i64,
                }),
        decreases cells.len() - j,
    {
        let c = cells[j];
        proof {
            assert(before[j as int].col - min_col(before) <= i64::MAX);
            assert(before[j as int].row - min_row(before) <= i64::MAX);
            assert(min_col(before) <= before[j as int].col && min_row(before) <= before[j as int].row);
        }
        cells.set(j, Cell::new(c.col - left, c.row - top));
        j += 1;
    }
}

/// A fresh placement state: nothing placed and nothing taken.
proof fn lemma_start(cells: Seq<Option<Cell>>, count: nat)
    requires
        cells.len() == count,
        forall|i: int| 0 <= i < cells.len() ==> #[trigger] cells[i] is None,
    ensures
        well_placed(cells, Seq::empty(), count),
{
    lemma_unplaced_all(cells);
}

/// Place `count` things, honouring every link that can be honoured.
///
/// Deterministic throughout: things are seeded in the order they were declared,
/// each is reached in link order, and a square already taken is stepped past in
/// a fixed direction. A link whose two ends are both already placed is dropped:
/// the first one written wins.
pub fn place(count: usize, links: &[Link]) -> (out: Vec<Cell>)
    requires
        placement_fits(count as nat, links@),
    ensures
        out@ == placed(count as nat, links@),
        out.len() == count,
        forall|i: int| 0 <= i < out.len() ==> #[trigger] out@[i].col >= 0 && out@[i].row >= 0,
        count > 0 ==> exists|i: int| 0 <= i < out.len() && #[trigger] out@[i].col == 0,
        count > 0 ==> exists|i: int| 0 <= i < out.len() && #[trigger] out@[i].row == 0,
        count <= 65 ==> forall|i: int, j: int|
            0 <= i < out.len() && 0 <= j < out.len() && i != j ==> #[trigger] out@[i]
                != #[trigger] out@[j],
{
    let mut cells: Vec<Option<Cell>> = Vec::new();
    let mut n: usize = 0;
    while n < count
        invariant
            n <= count,
            cells.len() == n,
            forall|i: int| 0 <= i < n ==> #[trigger] cells@[i] is None,
        decreases count - n,
    {
        cells.push(None);
        n += 1;
    }
    let mut taken: Vec<Cell> = Vec::new();
    proof {
        lemma_start(cells@, count as nat);
    }
    let ghost start = Grid { cells: cells@, taken: taken@ };
    assert(start.cells =~= Seq::new(count as nat, |i: int| None::<Cell>));
    assert(start.taken =~= Seq::<Cell>::empty());
    let mut at: usize = 0;
    while at < count
        invariant
            at <= count,
            well_placed(cells@, taken@, count as nat),
            forall|i: int| 0 <= i < at ==> #[trigger] cells@[i] is Some,
            start.cells == Seq::new(count as nat, |i: int| None::<Cell>),
            start.taken == Seq::<Cell>::empty(),
            seed_from(links@, count as nat, start, 0) == seed_from(
                links@,
                count as nat,
                Grid { cells: cells@, taken: taken@ },
                at as int,
            ),
            seed_fits_from(links@, count as nat, Grid { cells: cells@, taken: taken@ }, at as int),
        decreases count - at,
    {
        if cells[at].is_none() {
            proof {
                lemma_unplaced_bound(cells@, at as int);
            }
            let seed = free_seed(taken.as_slice());
            proof {
                if count <= 65 {
                    lemma_free_near_is_free(
                        taken@,
                        Cell { col: 0, row: seed_row(taken@) as i64 },
                        (0, 1),
                    );
                }
                lemma_place_one(cells@, taken@, count as nat, at as int, seed);
            }
            cells.set(at, Some(seed));
            taken.push(seed);
            let ghost before = cells@;
            spread(at, links, &mut cells, &mut taken, Ghost(count as nat));
            assert forall|i: int| 0 <= i <= at implies #[trigger] cells@[i] is Some by {
                assert(before[i] is Some);
            }
        }
        at += 1;
    }
    let mut out: Vec<Cell> = Vec::new();
    let mut k: usize = 0;
    while k < count
        invariant
            k <= count,
            out.len() == k,
            well_placed(cells@, taken@, count as nat),
            forall|i: int| 0 <= i < count ==> #[trigger] cells@[i] is Some,
            forall|i: int| 0 <= i < k ==> Some(#[trigger] out@[i]) == cells@[i],
        decreases count - k,
    {
        let c = match cells[k] {
            Some(c) => c,
            None => Cell::default(),
        };
        out.push(c);
        k += 1;
    }
    let ghost raw = out@;
    proof {
        assert(seed_from(links@, count as nat, start, 0) == Grid { cells: cells@, taken: taken@ });
        assert(raw =~= raw_cells(count as nat, links@));
    }
    to_origin(&mut out);
    proof {
        assert(out@ =~= placed(count as nat, links@));
        if count > 0 {
            lemma_min_col(raw);
            lemma_min_row(raw);
            let a = choose|i: int| 0 <= i < raw.len() && min_col(raw) == #[trigger] raw[i].col;
            let b = choose|i: int| 0 <= i < raw.len() && min_row(raw) == #[trigger] raw[i].row;
            assert(out@[a].col == 0);
            assert(out@[b].row == 0);
        }
        assert forall|i: int| 0 <= i < out.len() implies #[trigger] out@[i].col >= 0 && out@[i].row
            >= 0 by {
            lemma_min_col(raw);
            lemma_min_row(raw);
        }
        if count <= 65 {
            assert forall|i: int, j: int|
                0 <= i < out.len() && 0 <= j < out.len() && i != j implies #[trigger] out@[i]
                != #[trigger] out@[j] by {
                assert(cells@[i] is Some && cells@[j] is Some);
                assert(raw[i] != raw[j]);
            }
        }
    }
    out
}

} // verus!
