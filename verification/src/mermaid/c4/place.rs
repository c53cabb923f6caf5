//! What placement knows before any box is measured: the tag above a label,
//! how deeply boundaries nest, and which boundary each box and frame sits in.
use vstd::prelude::*;

use super::types::{Boundary, BoundaryView, Diagram, DiagramView, Element, ElementKind};
use crate::text::{chars_of, same};

verus! {

/// The kind tag for an element of the given kind, external or not.
pub open spec fn tag_of(kind: ElementKind, external: bool) -> Seq<char> {
    match kind {
        ElementKind::Person => if external {
            "«External Person»"@
        } else {
            "«Person»"@
        },
        ElementKind::System => if external {
            "«External System»"@
        } else {
            "«System»"@
        },
        ElementKind::Container => "«Container»"@,
        ElementKind::Component => "«Component»"@,
    }
}

/// Human-readable kind tag shown above an element's label.
///
/// The technology is deliberately not folded in: it is drawn on its own line
/// beneath the label, so embedding it here would print it twice.
pub fn kind_tag(el: &Element) -> (tag: &'static str)
    ensures
        tag@ == tag_of(el.kind, el.external),
{
    match (el.kind, el.external) {
        (ElementKind::Person, false) => "«Person»",
        (ElementKind::Person, true) => "«External Person»",
        (ElementKind::System, false) => "«System»",
        (ElementKind::System, true) => "«External System»",
        (ElementKind::Container, _) => "«Container»",
        (ElementKind::Component, _) => "«Component»",
    }
}

/// How many of the boundaries have an alias not yet seen.
pub open spec fn unseen(bs: Seq<BoundaryView>, seen: Set<Seq<char>>) -> nat
    decreases bs.len(),
{
    if bs.len() == 0 {
        0
    } else {
        unseen(bs.drop_last(), seen) + if seen.contains(bs.last().alias) {
            0nat
        } else {
            1nat
        }
    }
}

pub proof fn lemma_unseen_fewer(bs: Seq<BoundaryView>, a: Set<Seq<char>>, b: Set<Seq<char>>)
    requires
        a.subset_of(b),
    ensures
        unseen(bs, b) <= unseen(bs, a),
        unseen(bs, a) <= bs.len(),
    decreases bs.len(),
{
    if bs.len() > 0 {
        lemma_unseen_fewer(bs.drop_last(), a, b);
    }
}

pub proof fn lemma_unseen_drops(bs: Seq<BoundaryView>, seen: Set<Seq<char>>, k: int)
    requires
        0 <= k < bs.len(),
        !seen.contains(bs[k].alias),
    ensures
        unseen(bs, seen.insert(bs[k].alias)) < unseen(bs, seen),
    decreases bs.len(),
{
    let more = seen.insert(bs[k].alias);
    lemma_unseen_fewer(bs.drop_last(), seen, more);
    if k < bs.len() - 1 {
        assert(bs.drop_last()[k] == bs[k]);
        lemma_unseen_drops(bs.drop_last(), seen, k);
    }
}

/// The deepest nesting found by walking the boundaries from the `from`-th on
/// whose parent is `alias`, and the aliases seen once the walk is done. A
/// boundary already seen is not walked again, so one reached down one branch
/// is not counted down another, and a source naming the same parent twice, or
/// a boundary its own parent, cannot make the walk go on for ever.
pub open spec fn depth_walk(
    bs: Seq<BoundaryView>,
    alias: Option<Seq<char>>,
    seen: Set<Seq<char>>,
    from: int,
    deepest: nat,
) -> (nat, Set<Seq<char>>)
    decreases unseen(bs, seen), bs.len() - from,
{
    if from < 0 || from >= bs.len() {
        (deepest, seen)
    } else {
        let b = bs[from];
        if b.parent != alias || seen.contains(b.alias) {
            depth_walk(bs, alias, seen, from + 1, deepest)
        } else {
            let inner = seen.insert(b.alias);
            proof {
                lemma_unseen_drops(bs, seen, from);
            }
            let (d, after) = depth_walk(bs, Some(b.alias), inner, 0, 0);
            let kept = after.union(inner);
            proof {
                lemma_unseen_fewer(bs, inner, kept);
            }
            depth_walk(
                bs,
                alias,
                kept,
                from + 1,
                if deepest >= 1 + d {
                    deepest
                } else {
                    1 + d
                },
            )
        }
    }
}

/// The walk only ever adds to what has been seen, and finds no nesting deeper
/// than the boundaries left unseen.
proof fn lemma_depth_walk(
    bs: Seq<BoundaryView>,
    alias: Option<Seq<char>>,
    seen: Set<Seq<char>>,
    from: int,
    deepest: nat,
)
    ensures
        seen.subset_of(depth_walk(bs, alias, seen, from, deepest).1),
        depth_walk(bs, alias, seen, from, deepest).0 <= if deepest >= unseen(bs, seen) {
            deepest
        } else {
            unseen(bs, seen)
        },
    decreases unseen(bs, seen), bs.len() - from,
{
    if 0 <= from < bs.len() {
        let b = bs[from];
        if b.parent != alias || seen.contains(b.alias) {
            lemma_depth_walk(bs, alias, seen, from + 1, deepest);
        } else {
            let inner = seen.insert(b.alias);
            lemma_unseen_drops(bs, seen, from);
            lemma_depth_walk(bs, Some(b.alias), inner, 0, 0);
            let (d, after) = depth_walk(bs, Some(b.alias), inner, 0, 0);
            let kept = after.union(inner);
            lemma_unseen_fewer(bs, inner, kept);
            let next = if deepest >= 1 + d {
                deepest
            } else {
                1 + d
            };
            lemma_depth_walk(bs, alias, kept, from + 1, next);
        }
    }
}

/// The boundaries as plain values.
pub open spec fn boundaries_view(bs: Seq<Boundary>) -> Seq<BoundaryView> {
    bs.map_values(|b: Boundary| b@)
}

/// The aliases seen so far, as a set.
pub open spec fn seen_set(seen: Seq<String>) -> Set<Seq<char>> {
    seen.map_values(|s: String| s@).to_set()
}

fn seen_before(seen: &Vec<String>, alias: &String) -> (r: bool)
    ensures
        r == seen_set(seen@).contains(alias@),
{
    let mut j: usize = 0;
    while j < seen.len()
        invariant
            j <= seen.len(),
            forall|k: int| 0 <= k < j ==> seen@[k]@ != alias@,
        decreases seen.len() - j,
    {
        if seen[j] == *alias {
            assert(seen@.map_values(|s: String| s@)[j as int] == alias@);
            return true;
        }
        j += 1;
    }
    let ghost texts = seen@.map_values(|s: String| s@);
    assert forall|k: int| 0 <= k < texts.len() implies #[trigger] texts[k] != alias@ by {
        assert(seen@[k]@ != alias@);
    }
    false
}

fn same_parent(parent: &Option<String>, alias: Option<&String>) -> (r: bool)
    ensures
        r == (opt_text(*parent) == match alias {
            Some(a) => Some(a@),
            None => None::<Seq<char>>,
        }),
{
    match (parent, alias) {
        (Some(p), Some(a)) => *p == *a,
        (None, None) => true,
        _ => false,
    }
}

/// An optional string as plain text.
pub open spec fn opt_text(s: Option<String>) -> Option<Seq<char>> {
    match s {
        Some(t) => Some(t@),
        None => None,
    }
}

/// How deeply boundaries nest below `alias` (the top level when `None`),
/// walking with one shared record of the boundaries already seen.
pub fn nest_depth(boundaries: &[Boundary], alias: Option<&String>, seen: &mut Vec<String>) -> (d:
    usize)
    ensures
        (d as nat, seen_set(final(seen)@)) == depth_walk(
            boundaries_view(boundaries@),
            match alias {
                Some(a) => Some(a@),
                None => None,
            },
            seen_set(old(seen)@),
            0,
            0,
        ),
        d <= boundaries@.len(),
    decreases unseen(boundaries_view(boundaries@), seen_set(old(seen)@)),
{
    let ghost bs = boundaries_view(boundaries@);
    let ghost key = match alias {
        Some(a) => Some(a@),
        None => None::<Seq<char>>,
    };
    let ghost start = seen_set(seen@);
    let mut deepest: usize = 0;
    let mut i: usize = 0;
    proof {
        lemma_depth_walk(bs, key, start, 0, 0);
        lemma_unseen_fewer(bs, start, start);
    }
    while i < boundaries.len()
        invariant
            i <= boundaries.len(),
            unseen(bs, start) <= bs.len(),
            depth_walk(bs, key, start, 0, 0).0 <= unseen(bs, start),
            bs == boundaries_view(boundaries@),
            bs.len() == boundaries@.len(),
            key == match alias {
                Some(a) => Some(a@),
                None => None::<Seq<char>>,
            },
            start == seen_set(old(seen)@),
            start.subset_of(seen_set(seen@)),
            deepest <= bs.len(),
            depth_walk(bs, key, start, 0, 0) == depth_walk(
                bs,
                key,
                seen_set(seen@),
                i as int,
                deepest as nat,
            ),
        decreases boundaries.len() - i,
    {
        let b = &boundaries[i];
        assert(bs[i as int] == b@);
        let under_alias = same_parent(&b.parent, alias);
        assert(under_alias == (bs[i as int].parent == key));
        if !under_alias {
            i += 1;
            continue;
        }
        if seen_before(seen, &b.alias) {
            i += 1;
            continue;
        }
        let ghost now = seen_set(seen@);
        let ghost before = seen@;
        seen.push(b.alias.clone());
        proof {
            assert(seen@.map_values(|s: String| s@) =~= before.map_values(|s: String| s@).push(b.alias@));
            before.map_values(|s: String| s@).lemma_push_to_set_commute(b.alias@);
            assert(seen_set(seen@) =~= now.insert(b.alias@));
            assert(!now.contains(bs[i as int].alias));
            lemma_unseen_drops(bs, now, i as int);
            lemma_unseen_fewer(bs, start, now);
            assert(unseen(bs, seen_set(seen@)) < unseen(bs, start));
        }
        let d = nest_depth(boundaries, Some(&b.alias), seen);
        proof {
            let inner = now.insert(b.alias@);
            lemma_depth_walk(bs, Some(b.alias@), inner, 0, 0);
            assert(seen_set(seen@).union(inner) =~= seen_set(seen@));
            lemma_unseen_fewer(bs, Set::empty(), inner);
        }
        if 1 + d > deepest {
            deepest = 1 + d;
        }
        i += 1;
    }
    deepest
}

/// One element with its derived tag and wrapped description.
#[derive(Debug, Clone, PartialEq, Eq)]
pub struct Shell {
    /// Index into the diagram's element list.
    pub index: usize,
    pub tag: &'static str,
    pub descr: Vec<String>,
}

/// A grouping as plain values: each key, with the positions filed under it.
pub open spec fn groups_view(g: Seq<(Option<String>, Vec<usize>)>) -> Seq<
    (Option<Seq<char>>, Seq<usize>),
> {
    g.map_values(|e: (Option<String>, Vec<usize>)| (opt_text(e.0), e.1@))
}

/// Where `key` is filed in `g`, if it is.
pub open spec fn key_at(g: Seq<(Option<Seq<char>>, Seq<usize>)>, key: Option<Seq<char>>) -> Option<
    int,
>
    decreases g.len(),
{
    if g.len() == 0 {
        None
    } else if g[0].0 == key {
        Some(0)
    } else {
        match key_at(g.drop_first(), key) {
            Some(k) => Some(k + 1),
            None => None,
        }
    }
}

proof fn lemma_key_at(g: Seq<(Option<Seq<char>>, Seq<usize>)>, key: Option<Seq<char>>)
    ensures
        key_at(g, key) matches Some(k) ==> 0 <= k < g.len() && g[k].0 == key && forall|j: int|
            0 <= j < k ==> #[trigger] g[j].0 != key,
        key_at(g, key) is None ==> forall|j: int| 0 <= j < g.len() ==> #[trigger] g[j].0 != key,
    decreases g.len(),
{
    if g.len() > 0 {
        lemma_key_at(g.drop_first(), key);
        assert forall|j: int| 0 < j < g.len() implies #[trigger] g[j] == g.drop_first()[j - 1] by {}
    }
}

/// `g` with `value` filed under `key`: at the end of that key's list, or
/// under a new key after all the others.
pub open spec fn filed(
    g: Seq<(Option<Seq<char>>, Seq<usize>)>,
    key: Option<Seq<char>>,
    value: usize,
) -> Seq<(Option<Seq<char>>, Seq<usize>)> {
    match key_at(g, key) {
        Some(k) => g.update(k, (key, g[k].1.push(value))),
        None => g.push((key, seq![value])),
    }
}

/// Every position filed under its key, in order.
pub open spec fn grouped(keys: Seq<Option<Seq<char>>>) -> Seq<(Option<Seq<char>>, Seq<usize>)>
    decreases keys.len(),
{
    if keys.len() == 0 {
        Seq::empty()
    } else {
        filed(grouped(keys.drop_last()), keys.last(), (keys.len() - 1) as usize)
    }
}

fn same_key(a: &Option<String>, b: &Option<String>) -> (r: bool)
    ensures
        r == (opt_text(*a) == opt_text(*b)),
{
    match (a, b) {
        (Some(x), Some(y)) => *x == *y,
        (None, None) => true,
        _ => false,
    }
}

/// File `value` under `key`.
fn push_into(map: &mut Vec<(Option<String>, Vec<usize>)>, key: Option<String>, value: usize)
    ensures
        groups_view(final(map)@) == filed(groups_view(old(map)@), opt_text(key), value),
{
    let ghost g = groups_view(map@);
    proof {
        lemma_key_at(g, opt_text(key));
    }
    let mut k: usize = 0;
    while k < map.len()
        invariant
            k <= map.len(),
            map@ == old(map)@,
            g == groups_view(map@),
            key_at(g, opt_text(key)) matches Some(f) ==> k <= f && f < g.len() && g[f].0
                == opt_text(key) && forall|j: int| 0 <= j < f ==> #[trigger] g[j].0 != opt_text(key),
            key_at(g, opt_text(key)) is None ==> forall|j: int|
                0 <= j < g.len() ==> #[trigger] g[j].0 != opt_text(key),
        decreases map.len() - k,
    {
        if same_key(&map[k].0, &key) {
            assert(g[k as int].0 == opt_text(key));
            let mut entry = map.remove(k);
            entry.1.push(value);
            map.insert(k, entry);
            assert(map@ == old(map)@.update(k as int, entry));
            assert(groups_view(map@) == g.update(k as int, (opt_text(key), g[k as int].1.push(value))));
            return;
        }
        assert(g[k as int].0 != opt_text(key));
        k += 1;
    }
    assert(key_at(g, opt_text(key)) is None);
    let mut list: Vec<usize> = Vec::new();
    list.push(value);
    assert(list@ == seq![value]);
    let fresh = (key, list);
    map.push(fresh);
    assert(groups_view(map@) == g.push(fresh_view(fresh)));
}

spec fn fresh_view(e: (Option<String>, Vec<usize>)) -> (Option<Seq<char>>, Seq<usize>) {
    (opt_text(e.0), e.1@)
}

/// The positions filed under `key`; none when nothing is.
pub open spec fn filed_under(g: Seq<(Option<Seq<char>>, Seq<usize>)>, key: Option<Seq<char>>) -> Seq<
    usize,
> {
    match key_at(g, key) {
        Some(k) => g[k].1,
        None => Seq::empty(),
    }
}

fn key_is(a: &Option<String>, b: Option<&str>) -> (r: bool)
    ensures
        r == (opt_text(*a) == match b {
            Some(t) => Some(t@),
            None => None::<Seq<char>>,
        }),
{
    match (a, b) {
        (Some(x), Some(y)) => same(&chars_of(x.as_str()), &chars_of(y)),
        (None, None) => true,
        _ => false,
    }
}

/// The positions filed under `key` in `map`; none when nothing is.
pub fn take<'a>(map: &'a [(Option<String>, Vec<usize>)], key: Option<&str>) -> (r: &'a [usize])
    ensures
        r@ == filed_under(
            groups_view(map@),
            match key {
                Some(t) => Some(t@),
                None => None::<Seq<char>>,
            },
        ),
{
    let ghost g = groups_view(map@);
    let ghost want = match key {
        Some(t) => Some(t@),
        None => None::<Seq<char>>,
    };
    proof {
        lemma_key_at(g, want);
    }
    let mut k: usize = 0;
    while k < map.len()
        invariant
            k <= map.len(),
            g == groups_view(map@),
            want == match key {
                Some(t) => Some(t@),
                None => None::<Seq<char>>,
            },
            key_at(g, want) matches Some(f) ==> k <= f && f < g.len() && g[f].0 == want && forall|
                j: int,
            | 0 <= j < f ==> #[trigger] g[j].0 != want,
            key_at(g, want) is None ==> forall|j: int| 0 <= j < g.len() ==> #[trigger] g[j].0 != want,
        decreases map.len() - k,
    {
        if key_is(&map[k].0, key) {
            assert(g[k as int].0 == want);
            return map[k].1.as_slice();
        }
        assert(g[k as int].0 != want);
        k += 1;
    }
    &[]
}

proof fn lemma_key_at_is(g: Seq<(Option<Seq<char>>, Seq<usize>)>, key: Option<Seq<char>>, k: int)
    requires
        0 <= k < g.len(),
        g[k].0 == key,
        forall|j: int| 0 <= j < k ==> #[trigger] g[j].0 != key,
    ensures
        key_at(g, key) == Some(k),
{
    lemma_key_at(g, key);
    if let Some(f) = key_at(g, key) {
        if f > k {
            assert(g[k].0 != key);
        }
    }
}

proof fn lemma_key_at_none(g: Seq<(Option<Seq<char>>, Seq<usize>)>, key: Option<Seq<char>>)
    requires
        forall|j: int| 0 <= j < g.len() ==> #[trigger] g[j].0 != key,
    ensures
        key_at(g, key) is None,
{
    lemma_key_at(g, key);
}

/// Every list in a grouping holds positions below `n` that carry its key, in
/// increasing order, and no key is listed twice.
pub open spec fn files_faithfully(
    g: Seq<(Option<Seq<char>>, Seq<usize>)>,
    keys: Seq<Option<Seq<char>>>,
) -> bool {
    &&& forall|a: int, b: int| 0 <= a < b < g.len() ==> #[trigger] g[a].0 != #[trigger] g[b].0
    &&& forall|k: int, j: int|
        0 <= k < g.len() && 0 <= j < g[k].1.len() ==> #[trigger] g[k].1[j] < keys.len()
            && keys[g[k].1[j] as int] == g[k].0
    &&& forall|k: int, j1: int, j2: int|
        0 <= k < g.len() && 0 <= j1 < j2 < g[k].1.len() ==> #[trigger] g[k].1[j1]
            < #[trigger] g[k].1[j2]
    &&& forall|i: int|
        0 <= i < keys.len() ==> (key_at(g, #[trigger] keys[i]) matches Some(k) && g[k].1.contains(
            i as usize,
        ))
}

proof fn lemma_grouped(keys: Seq<Option<Seq<char>>>)
    requires
        keys.len() <= usize::MAX,
    ensures
        files_faithfully(grouped(keys), keys),
    decreases keys.len(),
{
    if keys.len() > 0 {
        let before = keys.drop_last();
        lemma_grouped(before);
        let g = grouped(before);
        let key = keys.last();
        let n = (keys.len() - 1) as usize;
        let h = grouped(keys);
        lemma_key_at(g, key);
        assert forall|i: int| 0 <= i < before.len() implies #[trigger] keys[i] == before[i] by {}
        match key_at(g, key) {
            Some(k) => {
                assert(h == g.update(k, (key, g[k].1.push(n))));
                assert forall|x: Option<Seq<char>>| key_at(h, x) == key_at(g, x) by {
                    lemma_key_at(g, x);
                    match key_at(g, x) {
                        Some(f) => {
                            lemma_key_at_is(h, x, f);
                        },
                        None => {
                            lemma_key_at_none(h, x);
                        },
                    }
                }
                assert forall|a: int, b: int| 0 <= a < b < h.len() implies #[trigger] h[a].0
                    != #[trigger] h[b].0 by {
                    assert(h[a].0 == g[a].0 && h[b].0 == g[b].0);
                }
                assert forall|q: int, j: int| 0 <= q < h.len() && 0 <= j < h[q].1.len() implies #[trigger] h[q].1[j]
                    < keys.len() && keys[h[q].1[j] as int] == h[q].0 by {
                    if q != k || j < g[k].1.len() {
                        assert(h[q].1[j] == g[q].1[j]);
                    }
                }
                assert forall|q: int, j1: int, j2: int|
                    0 <= q < h.len() && 0 <= j1 < j2 < h[q].1.len() implies #[trigger] h[q].1[j1]
                    < #[trigger] h[q].1[j2] by {
                    if q == k && j2 == g[k].1.len() {
                        assert(h[q].1[j1] == g[q].1[j1]);
                        assert(g[q].1[j1] < before.len());
                    } else {
                        assert(h[q].1[j1] == g[q].1[j1]);
                        assert(h[q].1[j2] == g[q].1[j2]);
                    }
                }
                assert forall|i: int| 0 <= i < keys.len() implies (key_at(h, #[trigger] keys[i]) matches Some(f)
                    && h[f].1.contains(i as usize)) by {
                    assert(key_at(h, keys[i]) == key_at(g, keys[i]));
                    if i < before.len() {
                        assert(keys[i] == before[i]);
                        lemma_key_at(g, before[i]);
                        let f = key_at(g, before[i])->0;
                        assert(g[f].1.contains(i as usize));
                        let at = choose|at: int| 0 <= at < g[f].1.len() && g[f].1[at] == i as usize;
                        if f == k {
                            assert(h[f].1 == g[f].1.push(n));
                        } else {
                            assert(h[f] == g[f]);
                        }
                        assert(h[f].1[at] == i as usize);
                    } else {
                        assert(h[k].1[g[k].1.len() as int] == n);
                    }
                }
            },
            None => {
                assert(h == g.push((key, seq![n])));
                assert forall|x: Option<Seq<char>>| key_at(h, x) == (match key_at(g, x) {
                    Some(f) => Some(f),
                    None => if x == key {
                        Some(g.len() as int)
                    } else {
                        None
                    },
                }) by {
                    lemma_key_at(g, x);
                    match key_at(g, x) {
                        Some(f) => {
                            lemma_key_at_is(h, x, f);
                        },
                        None => {
                            if x == key {
                                lemma_key_at_is(h, x, g.len() as int);
                            } else {
                                lemma_key_at_none(h, x);
                            }
                        },
                    }
                }
                assert forall|a: int, b: int| 0 <= a < b < h.len() implies #[trigger] h[a].0
                    != #[trigger] h[b].0 by {
                    if b == g.len() {
                        assert(g[a].0 != key);
                    }
                }
                assert forall|q: int, j: int| 0 <= q < h.len() && 0 <= j < h[q].1.len() implies #[trigger] h[q].1[j]
                    < keys.len() && keys[h[q].1[j] as int] == h[q].0 by {
                    if q < g.len() {
                        assert(h[q] == g[q]);
                    }
                }
                assert forall|q: int, j1: int, j2: int|
                    0 <= q < h.len() && 0 <= j1 < j2 < h[q].1.len() implies #[trigger] h[q].1[j1]
                    < #[trigger] h[q].1[j2] by {
                    assert(h[q] == g[q]);
                }
                assert forall|i: int| 0 <= i < keys.len() implies (key_at(h, #[trigger] keys[i]) matches Some(f)
                    && h[f].1.contains(i as usize)) by {
                    if i < before.len() {
                        assert(keys[i] == before[i]);
                        lemma_key_at(g, before[i]);
                        let f = key_at(g, before[i])->0;
                        let at = choose|at: int| 0 <= at < g[f].1.len() && g[f].1[at] == i as usize;
                        assert(h[f] == g[f]);
                        assert(h[f].1[at] == i as usize);
                    } else {
                        assert(h[g.len() as int].1[0] == n);
                    }
                }
            },
        }
    }
}

/// Grouping files every position once, under its own key: each key is
/// listed once, and its list holds exactly the positions carrying it, in
/// increasing order.
pub proof fn grouping_files_each_position_under_its_key(keys: Seq<Option<Seq<char>>>)
    requires
        keys.len() <= usize::MAX,
    ensures
        files_faithfully(grouped(keys), keys),
{
    lemma_grouped(keys);
}

/// Whether some boundary was declared under `alias`.
pub open spec fn declared(bs: Seq<BoundaryView>, alias: Seq<char>) -> bool {
    exists|k: int| 0 <= k < bs.len() && #[trigger] bs[k].alias == alias
}

/// The group something naming `named` as its parent is filed under: that
/// boundary when one was declared, the root (`None`) otherwise.
pub open spec fn home(bs: Seq<BoundaryView>, named: Option<Seq<char>>) -> Option<Seq<char>> {
    match named {
        Some(a) => if declared(bs, a) {
            Some(a)
        } else {
            None
        },
        None => None,
    }
}

/// The boundary each shell's element is filed under.
pub open spec fn member_keys(d: DiagramView, shells: Seq<Shell>) -> Seq<Option<Seq<char>>> {
    Seq::new(
        shells.len(),
        |i: int|
            home(
                d.boundaries,
                if shells[i].index < d.elements.len() {
                    d.elements[shells[i].index as int].boundary
                } else {
                    None
                },
            ),
    )
}

/// The boundary each boundary is filed under.
pub open spec fn child_keys(d: DiagramView) -> Seq<Option<Seq<char>>> {
    Seq::new(d.boundaries.len(), |i: int| home(d.boundaries, d.boundaries[i].parent))
}

fn declared_alias(bs: &[Boundary], alias: &String) -> (r: bool)
    ensures
        r == declared(boundaries_view(bs@), alias@),
{
    let ghost v = boundaries_view(bs@);
    let mut k: usize = 0;
    while k < bs.len()
        invariant
            k <= bs.len(),
            v == boundaries_view(bs@),
            forall|j: int| 0 <= j < k ==> #[trigger] v[j].alias != alias@,
        decreases bs.len() - k,
    {
        assert(v[k as int] == bs@[k as int]@);
        if bs[k].alias == *alias {
            assert(v[k as int].alias == alias@);
            return true;
        }
        k += 1;
    }
    false
}

/// The group something naming `named` as its parent is filed under.
fn home_of(bs: &[Boundary], named: &Option<String>) -> (r: Option<String>)
    ensures
        opt_text(r) == home(boundaries_view(bs@), opt_text(*named)),
{
    match named {
        Some(a) => if declared_alias(bs, a) {
            Some(a.clone())
        } else {
            None
        },
        None => None,
    }
}

/// Members and child boundaries, grouped by their parent in declaration order.
pub struct Tree {
    /// Shell positions, by the boundary their element sits in.
    pub members: Vec<(Option<String>, Vec<usize>)>,
    /// Boundary positions, by the boundary they sit in.
    pub children: Vec<(Option<String>, Vec<usize>)>,
}

impl Tree {
    /// Group the shells and the boundaries by where they sit. An element or
    /// boundary naming a parent that was never declared belongs to the root,
    /// rather than disappearing into a group that does not exist.
    pub fn build(diagram: &Diagram, shells: &[Shell]) -> (t: Self)
        ensures
            groups_view(t.members@) == grouped(member_keys(diagram@, shells@)),
            groups_view(t.children@) == grouped(child_keys(diagram@)),
    {
        let ghost keys = member_keys(diagram@, shells@);
        let mut members: Vec<(Option<String>, Vec<usize>)> = Vec::new();
        let mut i: usize = 0;
        assert(keys.take(0) =~= Seq::<Option<Seq<char>>>::empty());
        assert(groups_view(members@) =~= Seq::<(Option<Seq<char>>, Seq<usize>)>::empty());
        while i < shells.len()
            invariant
                i <= shells.len(),
                keys == member_keys(diagram@, shells@),
                groups_view(members@) == grouped(keys.take(i as int)),
            decreases shells.len() - i,
        {
            let index = shells[i].index;
            let key = if index < diagram.elements.len() {
                assert(diagram@.elements[index as int] == diagram.elements@[index as int]@);
                home_of(&diagram.boundaries, &diagram.elements[index].boundary)
            } else {
                None
            };
            assert(opt_text(key) == keys[i as int]);
            assert(keys.take(i + 1).drop_last() == keys.take(i as int));
            push_into(&mut members, key, i);
            i += 1;
        }
        assert(keys.take(shells.len() as int) == keys);
        let ghost kids = child_keys(diagram@);
        let mut children: Vec<(Option<String>, Vec<usize>)> = Vec::new();
        let mut b: usize = 0;
        assert(kids.take(0) =~= Seq::<Option<Seq<char>>>::empty());
        assert(groups_view(children@) =~= Seq::<(Option<Seq<char>>, Seq<usize>)>::empty());
        while b < diagram.boundaries.len()
            invariant
                b <= diagram.boundaries.len(),
                kids == child_keys(diagram@),
                groups_view(children@) == grouped(kids.take(b as int)),
            decreases diagram.boundaries.len() - b,
        {
            assert(diagram@.boundaries[b as int] == diagram.boundaries@[b as int]@);
            let key = home_of(&diagram.boundaries, &diagram.boundaries[b].parent);
            assert(opt_text(key) == kids[b as int]);
            assert(kids.take(b + 1).drop_last() == kids.take(b as int));
            push_into(&mut children, key, b);
            b += 1;
        }
        assert(kids.take(diagram.boundaries.len() as int) == kids);
        Tree { members, children }
    }
}

/// An element or boundary naming a parent that was never declared is filed
/// at the root, and one naming a declared boundary is filed under it.
pub proof fn a_parent_never_declared_is_the_root(d: DiagramView, shells: Seq<Shell>)
    requires
        shells.len() <= usize::MAX,
        d.boundaries.len() <= usize::MAX,
    ensures
        forall|i: int|
            0 <= i < shells.len() && shells[i].index < d.elements.len() ==> filed_under(
                grouped(member_keys(d, shells)),
                home(d.boundaries, d.elements[shells[i].index as int].boundary),
            ).contains(i as usize),
        forall|i: int|
            0 <= i < d.boundaries.len() ==> filed_under(
                grouped(child_keys(d)),
                home(d.boundaries, d.boundaries[i].parent),
            ).contains(i as usize),
{
    let mk = member_keys(d, shells);
    let ck = child_keys(d);
    lemma_grouped(mk);
    lemma_grouped(ck);
    assert forall|i: int|
        0 <= i < shells.len() && shells[i].index < d.elements.len() implies filed_under(
        grouped(mk),
        home(d.boundaries, d.elements[shells[i].index as int].boundary),
    ).contains(i as usize) by {
        assert(mk[i] == home(d.boundaries, d.elements[shells[i].index as int].boundary));
    }
    assert forall|i: int| 0 <= i < d.boundaries.len() implies filed_under(
        grouped(ck),
        home(d.boundaries, d.boundaries[i].parent),
    ).contains(i as usize) by {
        assert(ck[i] == home(d.boundaries, d.boundaries[i].parent));
    }
}

} // verus!
