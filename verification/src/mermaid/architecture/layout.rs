//! How the things of a diagram nest, and what the side letters of an edge say
//! about where its far end sits.
//!
//! A group is laid out from its own children first and then placed as one box
//! among its siblings, so nothing ever ends up inside a frame it does not
//! belong to: no two containers' children share one grid.
use vstd::prelude::*;

use super::grid::Link;
use super::types::{
    index_of_id, lemma_index_of_id_found, side_opposite, side_step, Diagram, Edge, Item, Kind,
};

verus! {

/// Where the far end of an edge sits, in whole cells.
pub open spec fn step_between(from_side: Option<Side>, to_side: Option<Side>) -> (i64, i64) {
    match (from_side, to_side) {
        (Some(from), Some(to)) => if to == side_opposite(from) {
            side_step(from)
        } else {
            ((side_step(from).0 - side_step(to).0) as i64, (side_step(from).1 - side_step(
                to,
            ).1) as i64)
        },
        (Some(from), None) => side_step(from),
        (None, Some(to)) => ((-side_step(to).0) as i64, (-side_step(to).1) as i64),
        (None, None) => (1, 0),
    }
}

use super::types::Side;

/// Where the far end of an edge sits, in whole cells.
///
/// The side an edge leaves says which way the other end lies. When the two
/// sides do not face each other — `j:L -- T:api1` — both say something, and
/// the two claims add: api1 is to the left of j, and below it.
pub fn step_of(edge: &Edge) -> (d: (i64, i64))
    ensures
        d == step_between(edge.from_side, edge.to_side),
        -2 <= d.0 <= 2 && -2 <= d.1 <= 2,
{
    match (edge.from_side, edge.to_side) {
        (Some(from), Some(to)) => {
            let (dx, dy) = from.step();
            if to == from.opposite() {
                return (dx, dy);
            }
            let (tx, ty) = to.step();
            (dx - tx, dy - ty)
        },
        (Some(from), None) => from.step(),
        (None, Some(to)) => {
            let (tx, ty) = to.step();
            (-tx, -ty)
        },
        (None, None) => (1, 0),
    }
}

/// An optional index as a mathematical one.
pub open spec fn opt_int(o: Option<usize>) -> Option<int> {
    match o {
        Some(k) => Some(k as int),
        None => None,
    }
}

/// The group the thing at `at` sits in, when it names one that exists.
pub open spec fn parent_at(items: Seq<Item>, at: int) -> Option<int> {
    if 0 <= at < items.len() {
        match index_of_id(items, items[at].parent@) {
            Some(p) => if items[p].kind == Kind::Group {
                Some(p)
            } else {
                None
            },
            None => None,
        }
    } else {
        None
    }
}

/// The group `at` sits in, when it names one that exists.
pub fn parent_of(diagram: &Diagram, at: usize) -> (r: Option<usize>)
    ensures
        opt_int(r) == parent_at(diagram.items@, at as int),
        r matches Some(p) ==> p < diagram.items@.len(),
{
    if at >= diagram.items.len() {
        return None;
    }
    let p = match diagram.index_of(diagram.items[at].parent.as_str()) {
        Some(p) => p,
        None => return None,
    };
    proof {
        lemma_index_of_id_found(diagram.items@, diagram.items@[at as int].parent@);
    }
    if diagram.items[p].kind == Kind::Group {
        Some(p)
    } else {
        None
    }
}

/// The things among the first `n` whose parent is `container`, in order.
pub open spec fn children_in(items: Seq<Item>, container: Option<int>, n: int) -> Seq<int>
    decreases n,
{
    if n <= 0 {
        Seq::empty()
    } else if parent_at(items, n - 1) == container {
        children_in(items, container, n - 1).push(n - 1)
    } else {
        children_in(items, container, n - 1)
    }
}

/// Everything directly inside `container` (the top level when `None`), in
/// declaration order.
pub fn children_of(diagram: &Diagram, container: Option<usize>) -> (kids: Vec<usize>)
    ensures
        kids@.map_values(|k: usize| k as int) == children_in(
            diagram.items@,
            opt_int(container),
            diagram.items@.len() as int,
        ),
{
    let mut kids: Vec<usize> = Vec::new();
    let mut at: usize = 0;
    assert(kids@.map_values(|k: usize| k as int) =~= Seq::<int>::empty());
    while at < diagram.items.len()
        invariant
            at <= diagram.items.len(),
            kids@.map_values(|k: usize| k as int) == children_in(
                diagram.items@,
                opt_int(container),
                at as int,
            ),
        decreases diagram.items.len() - at,
    {
        if parent_of(diagram, at) == container {
            let ghost before = kids@;
            kids.push(at);
            assert(kids@.map_values(|k: usize| k as int) =~= before.map_values(|k: usize| k as int).push(
                at as int,
            ));
        }
        at += 1;
    }
    kids
}

/// Among the first `n`, a thing is listed as a child of `container` exactly
/// when its parent is `container`.
proof fn lemma_children_in(items: Seq<Item>, container: Option<int>, n: int, k: int)
    ensures
        children_in(items, container, n).contains(k) <==> (0 <= k < n && parent_at(items, k)
            == container),
    decreases n,
{
    if n > 0 {
        lemma_children_in(items, container, n - 1, k);
        let earlier = children_in(items, container, n - 1);
        if parent_at(items, n - 1) == container {
            assert(earlier.push(n - 1)[earlier.len() as int] == n - 1);
            if earlier.contains(k) {
                let w = choose|w: int| 0 <= w < earlier.len() && earlier[w] == k;
                assert(earlier.push(n - 1)[w] == k);
            }
            let longer = earlier.push(n - 1);
            if longer.contains(k) && k != n - 1 {
                let w = choose|w: int| 0 <= w < longer.len() && #[trigger] longer[w] == k;
                assert(earlier[w] == k);
            }
        }
    }
}

/// Nothing ends up inside a frame it does not belong to: every thing is a
/// child of exactly one container, the group it names or the top level, so
/// no two containers' children ever share one grid.
pub proof fn each_thing_has_one_place(items: Seq<Item>, at: int, a: Option<int>, b: Option<int>)
    requires
        0 <= at < items.len(),
        children_in(items, a, items.len() as int).contains(at),
        children_in(items, b, items.len() as int).contains(at),
    ensures
        a == b,
        a == parent_at(items, at),
{
    lemma_children_in(items, a, items.len() as int, at);
    lemma_children_in(items, b, items.len() as int, at);
}

/// Every thing is a child of the container its parent names.
pub proof fn every_thing_has_a_place(items: Seq<Item>, at: int)
    requires
        0 <= at < items.len(),
    ensures
        children_in(items, parent_at(items, at), items.len() as int).contains(at),
{
    lemma_children_in(items, parent_at(items, at), items.len() as int, at);
}

/// Walking up from `here` at most `fuel` times, the first thing whose
/// parent is `container`.
pub open spec fn under_from(items: Seq<Item>, here: int, container: Option<int>, fuel: nat) -> Option<
    int,
>
    decreases fuel,
{
    if fuel == 0 {
        None
    } else if parent_at(items, here) == container {
        Some(here)
    } else {
        match parent_at(items, here) {
            Some(p) => under_from(items, p, container, (fuel - 1) as nat),
            None => None,
        }
    }
}

/// The thing directly inside `container` that holds `at`, or `at` itself;
/// the walk is bounded, since a source may make a group hold itself.
pub open spec fn under_at(items: Seq<Item>, at: int, container: Option<int>) -> Option<int> {
    under_from(items, at, container, (items.len() + 1) as nat)
}

/// What the walk finds sits directly inside `container`.
pub proof fn lemma_under_from(items: Seq<Item>, here: int, container: Option<int>, fuel: nat)
    ensures
        under_from(items, here, container, fuel) matches Some(h) ==> parent_at(items, h)
            == container,
    decreases fuel,
{
    if fuel > 0 {
        if let Some(p) = parent_at(items, here) {
            lemma_under_from(items, p, container, (fuel - 1) as nat);
        }
    }
}

/// The thing directly inside `container` that holds `at`, or `at` itself.
///
/// An edge may join two services nested at different depths; the grid it
/// constrains is the one whose squares they each sit under.
pub fn under(diagram: &Diagram, at: usize, container: Option<usize>) -> (r: Option<usize>)
    ensures
        opt_int(r) == under_at(diagram.items@, at as int, opt_int(container)),
        r matches Some(h) ==> parent_at(diagram.items@, h as int) == opt_int(container),
{
    let ghost items = diagram.items@;
    let mut here = at;
    let mut left: usize = diagram.items.len();
    proof {
        lemma_under_from(items, at as int, opt_int(container), (items.len() + 1) as nat);
    }
    loop
        invariant
            items == diagram.items@,
            left <= items.len(),
            under_at(items, at as int, opt_int(container)) == under_from(
                items,
                here as int,
                opt_int(container),
                (left + 1) as nat,
            ),
        decreases left,
    {
        let parent = parent_of(diagram, here);
        if parent == container {
            return Some(here);
        }
        match parent {
            Some(p) => {
                assert(under_from(items, here as int, opt_int(container), (left + 1) as nat)
                    == under_from(items, p as int, opt_int(container), left as nat));
                here = p;
            },
            None => return None,
        }
        if left == 0 {
            assert(under_from(items, here as int, opt_int(container), 0) is None);
            return None;
        }
        left -= 1;
    }
}

/// The first place `v` occurs in `s`.
pub open spec fn first_index(s: Seq<usize>, v: usize) -> Option<int>
    decreases s.len(),
{
    if s.len() == 0 {
        None
    } else {
        match first_index(s.drop_last(), v) {
            Some(k) => Some(k),
            None => if s.last() == v {
                Some(s.len() - 1)
            } else {
                None
            },
        }
    }
}

/// Which of `kids` holds the thing called `id`, by its place among them.
pub open spec fn slot_of(items: Seq<Item>, kids: Seq<usize>, container: Option<int>, id: Seq<char>) -> Option<
    int,
> {
    match index_of_id(items, id) {
        None => None,
        Some(at) => match under_at(items, at, container) {
            None => None,
            Some(held) => if 0 <= held <= usize::MAX {
                first_index(kids, held as usize)
            } else {
                None
            },
        },
    }
}

/// The constraints the first edges put among one container's children: an
/// edge whose ends sit under two different children says where one goes from
/// the other.
pub open spec fn links_in(
    items: Seq<Item>,
    edges: Seq<Edge>,
    kids: Seq<usize>,
    container: Option<int>,
) -> Seq<Link>
    decreases edges.len(),
{
    if edges.len() == 0 {
        Seq::empty()
    } else {
        let earlier = links_in(items, edges.drop_last(), kids, container);
        let e = edges.last();
        match (slot_of(items, kids, container, e.from@), slot_of(items, kids, container, e.to@)) {
            (Some(from), Some(to)) => if from != to {
                earlier.push(
                    Link {
                        from: from as usize,
                        to: to as usize,
                        step: step_between(e.from_side, e.to_side),
                    },
                )
            } else {
                earlier
            },
            _ => earlier,
        }
    }
}

proof fn lemma_first_index(s: Seq<usize>, v: usize)
    ensures
        first_index(s, v) matches Some(k) ==> 0 <= k < s.len() && s[k] == v,
    decreases s.len(),
{
    if s.len() > 0 {
        lemma_first_index(s.drop_last(), v);
    }
}

fn position_in(kids: &[usize], v: usize) -> (r: Option<usize>)
    ensures
        opt_int(r) == first_index(kids@, v),
{
    let mut k: usize = 0;
    assert(kids@.take(0) =~= Seq::<usize>::empty());
    while k < kids.len()
        invariant
            k <= kids.len(),
            first_index(kids@.take(k as int), v) is None,
        decreases kids.len() - k,
    {
        assert(kids@.take(k + 1).drop_last() == kids@.take(k as int));
        if kids[k] == v {
            proof {
                lemma_first_index_prefix(kids@, v, k + 1);
            }
            return Some(k);
        }
        k += 1;
    }
    assert(kids@.take(kids@.len() as int) == kids@);
    None
}

proof fn lemma_first_index_prefix(s: Seq<usize>, v: usize, n: int)
    requires
        0 <= n <= s.len(),
        first_index(s.take(n), v) is Some,
    ensures
        first_index(s, v) == first_index(s.take(n), v),
    decreases s.len(),
{
    if n == s.len() {
        assert(s.take(n) == s);
    } else {
        assert(s.drop_last().take(n) == s.take(n));
        lemma_first_index_prefix(s.drop_last(), v, n);
    }
}

fn slot(diagram: &Diagram, kids: &[usize], container: Option<usize>, id: &str) -> (r: Option<usize>)
    ensures
        opt_int(r) == slot_of(diagram.items@, kids@, opt_int(container), id@),
{
    let at = diagram.index_of(id)?;
    let held = under(diagram, at, container)?;
    position_in(kids, held)
}

/// The constraints among one container's children.
pub fn links(diagram: &Diagram, kids: &[usize], container: Option<usize>) -> (out: Vec<Link>)
    ensures
        out@ == links_in(diagram.items@, diagram.edges@, kids@, opt_int(container)),
{
    let ghost es = diagram.edges@;
    let mut out: Vec<Link> = Vec::new();
    let mut i: usize = 0;
    assert(es.take(0) =~= Seq::<Edge>::empty());
    while i < diagram.edges.len()
        invariant
            i <= diagram.edges.len(),
            es == diagram.edges@,
            out@ == links_in(diagram.items@, es.take(i as int), kids@, opt_int(container)),
        decreases diagram.edges.len() - i,
    {
        assert(es.take(i + 1).drop_last() == es.take(i as int));
        assert(es.take(i + 1).last() == es[i as int]);
        let edge = &diagram.edges[i];
        let from = slot(diagram, kids, container, edge.from.as_str());
        let to = slot(diagram, kids, container, edge.to.as_str());
        match (from, to) {
            (Some(f), Some(t)) => {
                if f != t {
                    out.push(Link { from: f, to: t, step: step_of(edge) });
                }
            },
            _ => {},
        }
        i += 1;
    }
    assert(es.take(es.len() as int) == es);
    out
}

/// How many groups enclose the thing at `here`, given `depth` already
/// counted; the count stops once it passes the number of things, since a
/// source may make a group hold itself.
pub open spec fn depth_from(items: Seq<Item>, here: int, depth: int) -> int
    decreases items.len() + 1 - depth,
{
    match parent_at(items, here) {
        None => depth,
        Some(p) => if depth + 1 > items.len() || depth < 0 {
            depth + 1
        } else {
            depth_from(items, p, depth + 1)
        },
    }
}

/// How many groups enclose a thing.
pub fn depth_of(diagram: &Diagram, at: usize) -> (d: usize)
    requires
        diagram.items@.len() < usize::MAX,
    ensures
        d == depth_from(diagram.items@, at as int, 0),
        d <= diagram.items@.len() + 1,
{
    let mut depth: usize = 0;
    let mut here = at;
    loop
        invariant
            diagram.items@.len() < usize::MAX,
            depth <= diagram.items@.len(),
            depth_from(diagram.items@, at as int, 0) == depth_from(
                diagram.items@,
                here as int,
                depth as int,
            ),
        decreases diagram.items@.len() + 1 - depth,
    {
        let parent = match parent_of(diagram, here) {
            Some(p) => p,
            None => return depth,
        };
        depth += 1;
        here = parent;
        if depth > diagram.items.len() {
            return depth;
        }
    }
}

} // verus!
