//! Which side of which box each end of each edge lands on, and how many lines
//! share a side.
use vstd::prelude::*;

use super::types::Side;

verus! {

/// Every end that lands on a box: its place in the per-end order (two per
/// edge), the box and side it lands on, and the box at the other end.
pub open spec fn landings_of(ends: Seq<Option<(usize, Side, usize, Side)>>) -> Seq<
    (usize, usize, Side, usize),
>
    decreases ends.len(),
{
    if ends.len() == 0 {
        Seq::empty()
    } else {
        let rest = landings_of(ends.drop_last());
        let index = ends.len() - 1;
        match ends.last() {
            Some((from, from_side, to, to_side)) => rest.push(
                ((index * 2) as usize, from, from_side, to),
            ).push(((index * 2 + 1) as usize, to, to_side, from)),
            None => rest,
        }
    }
}

/// Every end that lands on a box, and where it sits among all the ends. A
/// dropped edge still takes its two places, or every end after it would read
/// the wrong share of its side.
pub fn landings(ends: &[Option<(usize, Side, usize, Side)>]) -> (out: Vec<(usize, usize, Side, usize)>)
    requires
        ends.len() < usize::MAX / 2,
    ensures
        out@ == landings_of(ends@),
{
    let mut out: Vec<(usize, usize, Side, usize)> = Vec::new();
    let mut index: usize = 0;
    assert(ends@.take(0) =~= Seq::<Option<(usize, Side, usize, Side)>>::empty());
    while index < ends.len()
        invariant
            index <= ends.len() < usize::MAX / 2,
            out@ == landings_of(ends@.take(index as int)),
        decreases ends.len() - index,
    {
        assert(ends@.take(index + 1).drop_last() == ends@.take(index as int));
        assert(ends@.take(index + 1).last() == ends@[index as int]);
        if let Some((from, from_side, to, to_side)) = ends[index] {
            out.push((index * 2, from, from_side, to));
            out.push((index * 2 + 1, to, to_side, from));
        }
        index += 1;
    }
    assert(ends@.take(ends@.len() as int) == ends@);
    out
}

/// Each `(box, side)` that carries a line, in the order first met.
pub open spec fn sides_of(landings: Seq<(usize, usize, Side, usize)>) -> Seq<(usize, Side)>
    decreases landings.len(),
{
    if landings.len() == 0 {
        Seq::empty()
    } else {
        let rest = sides_of(landings.drop_last());
        let pair = (landings.last().1, landings.last().2);
        if rest.contains(pair) {
            rest
        } else {
            rest.push(pair)
        }
    }
}

/// Each side that carries a line, in the order they were first met.
pub fn sides(landings: &[(usize, usize, Side, usize)]) -> (out: Vec<(usize, Side)>)
    ensures
        out@ == sides_of(landings@),
        out@.no_duplicates(),
{
    let mut out: Vec<(usize, Side)> = Vec::new();
    let mut i: usize = 0;
    assert(landings@.take(0) =~= Seq::<(usize, usize, Side, usize)>::empty());
    while i < landings.len()
        invariant
            i <= landings.len(),
            out@ == sides_of(landings@.take(i as int)),
            out@.no_duplicates(),
        decreases landings.len() - i,
    {
        assert(landings@.take(i + 1).drop_last() == landings@.take(i as int));
        assert(landings@.take(i + 1).last() == landings@[i as int]);
        let (_, item, side, _) = landings[i];
        let mut seen = false;
        let mut j: usize = 0;
        while j < out.len()
            invariant
                j <= out.len(),
                seen == exists|k: int| 0 <= k < j && out@[k] == (item, side),
            decreases out.len() - j,
        {
            if out[j].0 == item && out[j].1 == side {
                seen = true;
            }
            j += 1;
        }
        assert(seen == out@.contains((item, side)));
        if !seen {
            out.push((item, side));
        }
        i += 1;
    }
    assert(landings@.take(landings@.len() as int) == landings@);
    out
}

/// How many lines a side carries in total: the count recorded for it, or one
/// when none was.
pub open spec fn total_of(seen: Seq<(usize, Side, usize)>, at: usize, side: Side) -> usize
    decreases seen.len(),
{
    if seen.len() == 0 {
        1
    } else if seen[0].0 == at && seen[0].1 == side {
        seen[0].2
    } else {
        total_of(seen.drop_first(), at, side)
    }
}

/// How many lines a side carries in total.
pub fn total(seen: &[(usize, Side, usize)], at: usize, side: Side) -> (n: usize)
    ensures
        n == total_of(seen@, at, side),
{
    let mut i: usize = 0;
    assert(seen@.skip(0) == seen@);
    while i < seen.len()
        invariant
            i <= seen.len(),
            total_of(seen@, at, side) == total_of(seen@.skip(i as int), at, side),
        decreases seen.len() - i,
    {
        let (item, held, count) = seen[i];
        assert(seen@.skip(i as int)[0] == seen@[i as int]);
        if item == at && held == side {
            return count;
        }
        assert(seen@.skip(i as int).drop_first() == seen@.skip(i + 1));
        i += 1;
    }
    1
}

/// Every landing stands for an edge that was kept: its place, halved, is
/// that edge's position among all the edges, an even place is the edge's
/// source end and an odd one its target end, and it names the box and side
/// that end lands on and the box at the other end. Every kept edge lands
/// both ends.
pub proof fn each_landing_is_an_end_of_a_kept_edge(ends: Seq<Option<(usize, Side, usize, Side)>>)
    requires
        ends.len() < usize::MAX / 2,
    ensures
        forall|k: int|
            0 <= k < landings_of(ends).len() ==> {
                let (place, at, side, other) = #[trigger] landings_of(ends)[k];
                let e = place / 2;
                &&& 0 <= e < ends.len()
                &&& ends[e as int] matches Some((from, from_side, to, to_side))
                &&& (place % 2 == 0 ==> at == from && side == from_side && other == to)
                &&& (place % 2 == 1 ==> at == to && side == to_side && other == from)
            },
        forall|e: int|
            0 <= e < ends.len() && (#[trigger] ends[e]) is Some ==> exists|k: int|
                0 <= k < landings_of(ends).len() && landings_of(ends)[k].0 == 2 * e,
        forall|e: int|
            0 <= e < ends.len() && (#[trigger] ends[e]) is Some ==> exists|k: int|
                0 <= k < landings_of(ends).len() && landings_of(ends)[k].0 == 2 * e + 1,
    decreases ends.len(),
{
    if ends.len() > 0 {
        let before = ends.drop_last();
        each_landing_is_an_end_of_a_kept_edge(before);
        let rest = landings_of(before);
        let i = ends.len() - 1;
        assert forall|e: int| 0 <= e < before.len() implies before[e] == ends[e] by {}
        match ends.last() {
            Some((from, from_side, to, to_side)) => {
                let l = landings_of(ends);
                assert(l == rest.push(((i * 2) as usize, from, from_side, to)).push(
                    ((i * 2 + 1) as usize, to, to_side, from),
                ));
                assert forall|k: int| 0 <= k < l.len() implies {
                    let (place, at, side, other) = #[trigger] l[k];
                    let e = place / 2;
                    &&& 0 <= e < ends.len()
                    &&& ends[e as int] matches Some((from, from_side, to, to_side))
                    &&& (place % 2 == 0 ==> at == from && side == from_side && other == to)
                    &&& (place % 2 == 1 ==> at == to && side == to_side && other == from)
                } by {
                    if k < rest.len() {
                        assert(l[k] == rest[k]);
                    }
                }
                assert forall|e: int| 0 <= e < ends.len() && (#[trigger] ends[e]) is Some implies exists|
                    k: int,
                | 0 <= k < l.len() && l[k].0 == 2 * e by {
                    if e < i {
                        assert(before[e] is Some);
                        let k = choose|k: int| 0 <= k < rest.len() && rest[k].0 == 2 * e;
                        assert(l[k] == rest[k]);
                    } else {
                        assert(l[rest.len() as int].0 == 2 * e);
                    }
                }
                assert forall|e: int| 0 <= e < ends.len() && (#[trigger] ends[e]) is Some implies exists|
                    k: int,
                | 0 <= k < l.len() && l[k].0 == 2 * e + 1 by {
                    if e < i {
                        assert(before[e] is Some);
                        let k = choose|k: int| 0 <= k < rest.len() && rest[k].0 == 2 * e + 1;
                        assert(l[k] == rest[k]);
                    } else {
                        assert(l[rest.len() + 1 as int].0 == 2 * e + 1);
                    }
                }
            },
            None => {
                assert forall|e: int| 0 <= e < ends.len() && (#[trigger] ends[e]) is Some implies e
                    < i by {}
            },
        }
    }
}

/// Every side that carries a line is listed, once, and nothing else is.
pub proof fn each_side_that_carries_a_line_is_listed_once(
    landings: Seq<(usize, usize, Side, usize)>,
)
    ensures
        sides_of(landings).no_duplicates(),
        forall|k: int|
            0 <= k < landings.len() ==> sides_of(landings).contains(
                ((#[trigger] landings[k]).1, landings[k].2),
            ),
        forall|j: int|
            0 <= j < sides_of(landings).len() ==> exists|k: int|
                0 <= k < landings.len() && #[trigger] sides_of(landings)[j] == (
                    landings[k].1,
                    landings[k].2,
                ),
    decreases landings.len(),
{
    if landings.len() > 0 {
        let before = landings.drop_last();
        each_side_that_carries_a_line_is_listed_once(before);
        let rest = sides_of(before);
        let pair = (landings.last().1, landings.last().2);
        let out = sides_of(landings);
        assert forall|k: int| 0 <= k < before.len() implies before[k] == landings[k] by {}
        assert forall|k: int| 0 <= k < landings.len() implies out.contains(
            ((#[trigger] landings[k]).1, landings[k].2),
        ) by {
            if k < before.len() {
                assert(rest.contains((before[k].1, before[k].2)));
                if !rest.contains(pair) {
                    let j = choose|j: int| 0 <= j < rest.len() && rest[j] == (before[k].1, before[k].2);
                    assert(out[j] == rest[j]);
                }
            } else if !rest.contains(pair) {
                assert(out[rest.len() as int] == pair);
            }
        }
        assert forall|j: int| 0 <= j < out.len() implies exists|k: int|
            0 <= k < landings.len() && #[trigger] out[j] == (landings[k].1, landings[k].2) by {
            if j < rest.len() {
                assert(out[j] == rest[j]);
                let k = choose|k: int| 0 <= k < before.len() && rest[j] == (before[k].1, before[k].2);
                assert(landings[k] == before[k]);
            } else {
                assert(out[j] == pair);
                assert(landings[landings.len() - 1] == landings.last());
            }
        }
    }
}

} // verus!
