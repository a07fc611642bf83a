//! How an element is linked into a layer.
use vstd::prelude::*;

use crate::distance::{distances_from, distances_to, Distance, HasDistance};
use crate::index::{law_index_search_results, search_levels, searchable};
use crate::node::{lists_fit, MAX_NEIGHBORS};
use crate::order::{lemma_ranked, nearer, nearest_first, ranked};
use crate::search::{
    absent, distinct, lemma_insert_distinct, lemma_search_results, links_below, search_layer,
};

verus! {

/// The candidates divided in two, those preferred and those put back, for the neighbours of a
/// node with the distances `own` to all elements. The first candidate is preferred, and each
/// other one that stands nearer than its own distance to the node, up to `max_neighbors`.
pub open spec fn divided(
    candidates: Seq<(usize, Distance)>,
    own: Seq<Distance>,
    max_neighbors: nat,
) -> (Seq<(usize, Distance)>, Seq<(usize, Distance)>)
    decreases candidates.len(),
{
    if candidates.len() == 0 {
        (Seq::empty(), Seq::empty())
    } else {
        let (preferred, back) = divided(candidates.drop_last(), own, max_neighbors);
        let c = candidates.last();
        if preferred.len() >= max_neighbors {
            (preferred, back)
        } else if preferred.len() == 0 || c.1.order() < own[c.0 as int].order() {
            (preferred.push(c), back)
        } else {
            (preferred, back.push(c))
        }
    }
}

/// The candidates chosen as neighbours: all of them where there are not too many, and otherwise
/// the preferred ones, filled up with the first of those put back.
pub open spec fn selected(
    candidates: Seq<(usize, Distance)>,
    own: Seq<Distance>,
    max_neighbors: nat,
) -> Seq<(usize, Distance)> {
    if candidates.len() <= max_neighbors {
        candidates
    } else {
        let (preferred, back) = divided(candidates, own, max_neighbors);
        let room = max_neighbors - preferred.len();
        preferred + back.take(
            if room < back.len() {
                room
            } else {
                back.len() as int
            },
        )
    }
}

/// The indices of candidates, as a node lists them.
pub open spec fn ids(candidates: Seq<(usize, Distance)>) -> Seq<u32> {
    Seq::new(candidates.len(), |i: int| candidates[i].0 as u32)
}

/// What a node without neighbours lists after it was given these.
pub open spec fn initialized(neighbors: Seq<(usize, Distance)>) -> Seq<u32> {
    ids(
        neighbors.take(
            if neighbors.len() < MAX_NEIGHBORS {
                neighbors.len() as int
            } else {
                MAX_NEIGHBORS as int
            },
        ),
    )
}

/// The neighbours of a node as candidates, and with them the candidate `j` at distance `d`.
pub open spec fn rivals(
    node: Seq<u32>,
    own: Seq<Distance>,
    j: usize,
    d: Distance,
) -> Seq<(Distance, usize)> {
    Seq::new(node.len(), |k: int| (own[node[k] as int], node[k] as usize)).push((d, j))
}

/// The same candidates, each as an index and its distance.
pub open spec fn turned(candidates: Seq<(Distance, usize)>) -> Seq<(usize, Distance)> {
    Seq::new(candidates.len(), |i: int| (candidates[i].1, candidates[i].0))
}

/// What a node lists after it was connected to `j` at distance `d`, where `own` are its distances
/// to all elements. Where it has no room its neighbours are selected anew.
pub open spec fn connected(
    node: Seq<u32>,
    own: Seq<Distance>,
    j: usize,
    d: Distance,
) -> Seq<u32> {
    if node.len() < MAX_NEIGHBORS {
        node.push(j as u32)
    } else {
        ids(selected(turned(ranked(rivals(node, own, j, d))), own, MAX_NEIGHBORS as nat))
    }
}

/// The layer after the first `count` of `neighbors` were connected to `idx`.
pub open spec fn linked<T: HasDistance>(
    layer: Seq<Seq<u32>>,
    elements: Seq<T>,
    idx: usize,
    neighbors: Seq<(usize, Distance)>,
    count: nat,
) -> Seq<Seq<u32>>
    decreases count,
{
    if count == 0 {
        layer
    } else {
        let before = linked(layer, elements, idx, neighbors, (count - 1) as nat);
        let (n, d) = neighbors[count - 1];
        before.update(
            n as int,
            connected(before[n as int], distances_from(elements[n as int], elements), idx, d),
        )
    }
}

/// What is found in `layer` to be linked to element `idx`. The walk begins at what a search
/// through `levels`, which are over `above`, finds first.
pub open spec fn found<T: HasDistance>(
    layer: Seq<Seq<u32>>,
    levels: Seq<Seq<Seq<u32>>>,
    above: Seq<T>,
    elements: Seq<T>,
    idx: usize,
    max_search: nat,
) -> Seq<(usize, Distance)> {
    let goal = elements[idx as int];
    let entrypoint = search_levels(levels, distances_to(above, goal), max_search / 10)[0].0;
    selected(
        search_layer(
            layer,
            entrypoint,
            distances_to(elements, goal),
            max_search,
            MAX_NEIGHBORS as nat,
        ),
        distances_from(goal, elements),
        MAX_NEIGHBORS as nat,
    )
}

/// The layer after element `idx` was linked into it.
pub open spec fn inserted<T: HasDistance>(
    layer: Seq<Seq<u32>>,
    levels: Seq<Seq<Seq<u32>>>,
    above: Seq<T>,
    elements: Seq<T>,
    idx: usize,
    max_search: nat,
) -> Seq<Seq<u32>> {
    let neighbors = found(layer, levels, above, elements, idx, max_search);
    linked(
        layer.update(idx as int, initialized(neighbors)),
        elements,
        idx,
        neighbors,
        neighbors.len(),
    )
}

/// The layer after the elements from `from` on and below `to` were linked into it in turn.
pub open spec fn inserted_range<T: HasDistance>(
    layer: Seq<Seq<u32>>,
    levels: Seq<Seq<Seq<u32>>>,
    above: Seq<T>,
    elements: Seq<T>,
    from: nat,
    to: nat,
    max_search: nat,
) -> Seq<Seq<u32>>
    decreases to,
{
    if to <= from {
        layer
    } else {
        inserted(
            inserted_range(layer, levels, above, elements, from, (to - 1) as nat, max_search),
            levels,
            above,
            elements,
            (to - 1) as usize,
            max_search,
        )
    }
}

/// The layer with nodes without neighbours added up to `size`.
pub open spec fn extended(layer: Seq<Seq<u32>>, size: nat) -> Seq<Seq<u32>> {
    Seq::new(
        size,
        |i: int|
            if i < layer.len() {
                layer[i]
            } else {
                Seq::empty()
            },
    )
}

/// The layer extended to one node for each of `elements`, with the new nodes linked in.
pub open spec fn filled<T: HasDistance>(
    layer: Seq<Seq<u32>>,
    levels: Seq<Seq<Seq<u32>>>,
    above: Seq<T>,
    elements: Seq<T>,
    max_search: nat,
) -> Seq<Seq<u32>> {
    inserted_range(
        extended(layer, elements.len()),
        levels,
        above,
        elements,
        layer.len(),
        elements.len(),
        max_search,
    )
}

/// Whether no index occurs twice.
pub open spec fn distinct_ids(candidates: Seq<(usize, Distance)>) -> bool {
    forall|i: int, j: int|
        0 <= i < j < candidates.len() ==> (#[trigger] candidates[i]).0 != (#[trigger]
        candidates[j]).0
}

/// Whether the two have no index in common.
pub open spec fn disjoint_ids(a: Seq<(usize, Distance)>, b: Seq<(usize, Distance)>) -> bool {
    forall|i: int, j: int|
        0 <= i < a.len() && 0 <= j < b.len() ==> (#[trigger] a[i]).0 != (#[trigger] b[j]).0
}

/// Whether every one of `part` is one of `whole`.
pub open spec fn drawn_from(part: Seq<(usize, Distance)>, whole: Seq<(usize, Distance)>) -> bool {
    forall|i: int| 0 <= i < part.len() ==> whole.contains(#[trigger] part[i])
}

proof fn lemma_divided(candidates: Seq<(usize, Distance)>, own: Seq<Distance>, max_neighbors: nat)
    ensures
        ({
            let (preferred, back) = divided(candidates, own, max_neighbors);
            &&& preferred.len() <= max_neighbors
            &&& preferred.len() < max_neighbors ==> preferred.len() + back.len()
                == candidates.len()
            &&& candidates.len() > 0 && max_neighbors > 0 ==> preferred.len() > 0 && preferred[0]
                == candidates[0]
            &&& preferred.to_multiset().add(back.to_multiset()).subset_of(
                candidates.to_multiset(),
            )
            &&& drawn_from(preferred, candidates)
            &&& drawn_from(back, candidates)
            &&& distinct_ids(candidates) ==> distinct_ids(preferred) && distinct_ids(back)
                && disjoint_ids(preferred, back)
        }),
    decreases candidates.len(),
{
    if candidates.len() > 0 {
        let rest = candidates.drop_last();
        let c = candidates.last();
        lemma_divided(rest, own, max_neighbors);
        let (p, b) = divided(rest, own, max_neighbors);
        let (preferred, back) = divided(candidates, own, max_neighbors);
        assert forall|x: (usize, Distance)| rest.contains(x) implies candidates.contains(x) by {
            let i = choose|i: int| 0 <= i < rest.len() && rest[i] == x;
            assert(candidates[i] == x);
        }
        assert(candidates[candidates.len() - 1] == c);
        assert(candidates =~= rest.push(c));
        vstd::seq_lib::to_multiset_build(rest, c);
        vstd::seq_lib::to_multiset_build(p, c);
        vstd::seq_lib::to_multiset_build(b, c);
        assert(preferred.to_multiset().add(back.to_multiset()).subset_of(
            candidates.to_multiset(),
        )) by {
            let before = p.to_multiset().add(b.to_multiset());
            let after = preferred.to_multiset().add(back.to_multiset());
            assert(after =~= before || after =~= before.insert(c));
            assert(candidates.to_multiset() == rest.to_multiset().insert(c));
        }
        assert(drawn_from(preferred, candidates));
        assert(drawn_from(back, candidates));
        if distinct_ids(candidates) {
            assert(distinct_ids(rest));
            assert forall|x: (usize, Distance)| rest.contains(x) implies x.0 != c.0 by {
                let i = choose|i: int| 0 <= i < rest.len() && rest[i] == x;
                assert(candidates[i].0 != candidates[candidates.len() - 1].0);
            }
            assert forall|i: int| 0 <= i < p.len() implies (#[trigger] p[i]).0 != c.0 by {
                assert(rest.contains(p[i]));
            }
            assert forall|i: int| 0 <= i < b.len() implies (#[trigger] b[i]).0 != c.0 by {
                assert(rest.contains(b[i]));
            }
        }
    } else {
        let none = Seq::<(usize, Distance)>::empty();
        none.to_multiset_ensures();
        candidates.to_multiset_ensures();
        assert(none.to_multiset().add(none.to_multiset()).subset_of(candidates.to_multiset())) by {
            assert(forall|x: (usize, Distance)| !none.contains(x));
        }
    }
}

/// As many candidates are selected as there may be, none of them more often than it is there, and
/// the first one is selected first. Where no index occurs twice among the candidates, none does
/// among those selected.
pub proof fn law_selection_draws(
    candidates: Seq<(usize, Distance)>,
    own: Seq<Distance>,
    max_neighbors: nat,
)
    ensures
        ({
            let s = selected(candidates, own, max_neighbors);
            &&& s.len() == (if candidates.len() < max_neighbors {
                candidates.len()
            } else {
                max_neighbors
            })
            &&& candidates.len() > 0 && max_neighbors > 0 ==> s[0] == candidates[0]
            &&& s.to_multiset().subset_of(candidates.to_multiset())
            &&& drawn_from(s, candidates)
            &&& distinct_ids(candidates) ==> distinct_ids(s)
        }),
{
    lemma_divided(candidates, own, max_neighbors);
    if candidates.len() > max_neighbors {
        let (preferred, back) = divided(candidates, own, max_neighbors);
        let room = max_neighbors - preferred.len();
        let m = if room < back.len() {
            room
        } else {
            back.len() as int
        };
        vstd::seq_lib::lemma_multiset_commutative(preferred, back.take(m));
        vstd::seq_lib::lemma_multiset_commutative(back.take(m), back.skip(m));
        assert(back.take(m) + back.skip(m) =~= back);
    }
}

/// Where the candidates carry their own distances, selecting keeps the first of them: of
/// candidates that stand nearest first, the nearest.
pub proof fn law_selection_keeps_first(
    candidates: Seq<(usize, Distance)>,
    own: Seq<Distance>,
    max_neighbors: nat,
)
    requires
        forall|i: int|
            0 <= i < candidates.len() ==> (#[trigger] candidates[i]).1
                == own[candidates[i].0 as int],
    ensures
        selected(candidates, own, max_neighbors) == candidates.take(
            if candidates.len() < max_neighbors {
                candidates.len() as int
            } else {
                max_neighbors as int
            },
        ),
{
    if candidates.len() <= max_neighbors {
        assert(candidates.take(candidates.len() as int) =~= candidates);
    } else if max_neighbors == 0 {
        lemma_divided(candidates, own, max_neighbors);
        assert(selected(candidates, own, max_neighbors) =~= candidates.take(0));
    } else {
        lemma_divided_own(candidates, own, max_neighbors);
        assert(selected(candidates, own, max_neighbors) =~= candidates.take(max_neighbors as int));
    }
}

proof fn lemma_divided_own(
    candidates: Seq<(usize, Distance)>,
    own: Seq<Distance>,
    max_neighbors: nat,
)
    requires
        max_neighbors > 0,
        candidates.len() > 0,
        forall|i: int|
            0 <= i < candidates.len() ==> (#[trigger] candidates[i]).1
                == own[candidates[i].0 as int],
    ensures
        divided(candidates, own, max_neighbors).0 == seq![candidates[0]],
        max_neighbors > 1 ==> divided(candidates, own, max_neighbors).1 == candidates.skip(1),
    decreases candidates.len(),
{
    let rest = candidates.drop_last();
    assert(candidates.last() == candidates[candidates.len() - 1]);
    if candidates.len() > 1 {
        lemma_divided_own(rest, own, max_neighbors);
        assert(rest.skip(1).push(candidates.last()) =~= candidates.skip(1));
    } else {
        assert(divided(rest, own, max_neighbors) == (
            Seq::<(usize, Distance)>::empty(),
            Seq::<(usize, Distance)>::empty(),
        ));
        assert(divided(candidates, own, max_neighbors).0 =~= seq![candidates[0]]);
        assert(divided(candidates, own, max_neighbors).1 =~= candidates.skip(1));
    }
}

/// Ranking candidates with distinct indices keeps those indices.
pub proof fn lemma_ranked_distinct(candidates: Seq<(Distance, usize)>)
    requires
        distinct(candidates),
    ensures
        distinct(ranked(candidates)),
        forall|idx: usize| #[trigger] absent(ranked(candidates), idx) <==> absent(candidates, idx),
    decreases candidates.len(),
{
    if candidates.len() > 0 {
        let rest = candidates.drop_last();
        let c = candidates[candidates.len() - 1];
        assert(distinct(rest));
        lemma_ranked_distinct(rest);
        lemma_ranked(rest);
        assert(absent(rest, c.1));
        lemma_insert_distinct(ranked(rest), c);
        assert forall|idx: usize| #[trigger] absent(ranked(candidates), idx) <==> absent(
            candidates,
            idx,
        ) by {
            if absent(rest, idx) && idx != c.1 {
                assert forall|i: int| 0 <= i < candidates.len() implies (#[trigger]
                candidates[i]).1 != idx by {
                    if i < rest.len() {
                        assert(rest[i] == candidates[i]);
                    }
                }
            }
            if absent(candidates, idx) {
                assert forall|i: int| 0 <= i < rest.len() implies (#[trigger] rest[i]).1 != idx by {
                    assert(rest[i] == candidates[i]);
                }
            }
        }
    }
}

/// Connecting a node adds at most `j` to its list, and takes away nothing but where it is full.
pub proof fn lemma_connected(node: Seq<u32>, own: Seq<Distance>, j: usize, d: Distance)
    requires
        j <= u32::MAX,
    ensures
        ({
            let after = connected(node, own, j, d);
            &&& node.len() <= MAX_NEIGHBORS ==> node.len() <= after.len() <= MAX_NEIGHBORS
            &&& after.len() > 0
            &&& forall|k: int|
                0 <= k < after.len() ==> (#[trigger] after[k]) == j || node.contains(after[k])
            &&& node.no_duplicates() && !node.contains(j as u32) ==> after.no_duplicates()
        }),
{
    let after = connected(node, own, j, d);
    if node.len() < MAX_NEIGHBORS {
        assert forall|k: int| 0 <= k < after.len() implies (#[trigger] after[k]) == j
            || node.contains(after[k]) by {
            if k < node.len() {
                assert(after[k] == node[k]);
            }
        }
        if node.no_duplicates() && !node.contains(j as u32) {
            assert forall|a: int, b: int|
                0 <= a < after.len() && 0 <= b < after.len() && a != b implies after[a]
                != after[b] by {
                if a < node.len() {
                    assert(node.contains(node[a]));
                }
                if b < node.len() {
                    assert(node.contains(node[b]));
                }
            }
        }
    } else {
        let c = rivals(node, own, j, d);
        let t = turned(ranked(c));
        let s = selected(t, own, MAX_NEIGHBORS as nat);
        lemma_ranked(c);
        law_selection_draws(t, own, MAX_NEIGHBORS as nat);
        assert forall|i: int| 0 <= i < t.len() implies (#[trigger] t[i]).0 == j || node.contains(
            t[i].0 as u32,
        ) by {
            let x = ranked(c)[i];
            ranked(c).to_multiset_ensures();
            c.to_multiset_ensures();
            assert(ranked(c).contains(x));
            assert(c.to_multiset().count(x) > 0);
            assert(c.contains(x));
            let k = choose|k: int| 0 <= k < c.len() && c[k] == x;
            if k < node.len() {
                assert(node.contains(node[k]));
            }
        }
        assert forall|k: int| 0 <= k < after.len() implies (#[trigger] after[k]) == j
            || node.contains(after[k]) by {
            assert(t.contains(s[k]));
            let i = choose|i: int| 0 <= i < t.len() && t[i] == s[k];
            assert(t[i].0 == j || node.contains(t[i].0 as u32));
        }
        if node.no_duplicates() && !node.contains(j as u32) {
            assert(distinct(c)) by {
                assert forall|a: int, b: int| 0 <= a < b < c.len() implies (#[trigger] c[a]).1
                    != (#[trigger] c[b]).1 by {
                    assert(node.contains(node[a]));
                }
            }
            lemma_ranked_distinct(c);
            assert(distinct_ids(t)) by {
                assert forall|a: int, b: int| 0 <= a < b < t.len() implies (#[trigger] t[a]).0
                    != (#[trigger] t[b]).0 by {
                    assert(ranked(c)[a].1 != ranked(c)[b].1);
                }
            }
            assert forall|i: int| 0 <= i < t.len() implies (#[trigger] t[i]).0 <= u32::MAX by {
                let x = ranked(c)[i];
                ranked(c).to_multiset_ensures();
                c.to_multiset_ensures();
                assert(ranked(c).contains(x));
                assert(c.to_multiset().count(x) > 0);
                assert(c.contains(x));
            }
            assert forall|a: int, b: int|
                0 <= a < after.len() && 0 <= b < after.len() && a != b implies after[a]
                != after[b] by {
                assert(t.contains(s[a]));
                assert(t.contains(s[b]));
                assert(s[a].0 != s[b].0);
            }
        }
    }
}

/// A node that is full and is connected at its own distance to `j` keeps the nearest of its
/// neighbours and `j`.
pub proof fn law_connecting_keeps_nearest(node: Seq<u32>, own: Seq<Distance>, j: usize)
    requires
        node.len() == MAX_NEIGHBORS,
        j < own.len(),
    ensures
        ({
            let c = rivals(node, own, j, own[j as int]);
            &&& nearest_first(ranked(c))
            &&& ranked(c).to_multiset() == c.to_multiset()
            &&& connected(node, own, j, own[j as int]) == ids(
                turned(ranked(c).take(MAX_NEIGHBORS as int)),
            )
        }),
{
    let c = rivals(node, own, j, own[j as int]);
    let t = turned(ranked(c));
    lemma_ranked(c);
    assert forall|i: int| 0 <= i < t.len() implies (#[trigger] t[i]).1 == own[t[i].0 as int] by {
        let x = ranked(c)[i];
        ranked(c).to_multiset_ensures();
        c.to_multiset_ensures();
        assert(ranked(c).contains(x));
        assert(c.to_multiset().count(x) > 0);
        assert(c.contains(x));
    }
    law_selection_keeps_first(t, own, MAX_NEIGHBORS as nat);
    assert(t.take(MAX_NEIGHBORS as int) =~= turned(ranked(c).take(MAX_NEIGHBORS as int)));
}

/// Connecting nodes below `bound` to another such node keeps all links below `bound`.
pub proof fn lemma_linked<T: HasDistance>(
    layer: Seq<Seq<u32>>,
    elements: Seq<T>,
    idx: usize,
    neighbors: Seq<(usize, Distance)>,
    count: nat,
    bound: nat,
)
    requires
        idx < bound <= u32::MAX,
        count <= neighbors.len(),
        forall|i: int| 0 <= i < neighbors.len() ==> (#[trigger] neighbors[i]).0 < bound,
        bound <= layer.len(),
        links_below(layer, bound),
    ensures
        linked(layer, elements, idx, neighbors, count).len() == layer.len(),
        links_below(linked(layer, elements, idx, neighbors, count), bound),
        forall|i: int|
            bound <= i < layer.len() ==> #[trigger] linked(
                layer,
                elements,
                idx,
                neighbors,
                count,
            )[i] == layer[i],
    decreases count,
{
    if count > 0 {
        lemma_linked(layer, elements, idx, neighbors, (count - 1) as nat, bound);
        let before = linked(layer, elements, idx, neighbors, (count - 1) as nat);
        let after = linked(layer, elements, idx, neighbors, count);
        let (n, d) = neighbors[count - 1];
        let own = distances_from(elements[n as int], elements);
        let node = before[n as int];
        lemma_connected(node, own, idx, d);
        assert forall|i: int, k: int|
            0 <= i < after.len() && 0 <= k < after[i].len() implies (#[trigger] after[i][k])
            < bound by {
            if i == n {
                let x = after[i][k];
                assert(after[i] == connected(node, own, idx, d));
                if x != idx {
                    assert(node.contains(x));
                    let m = choose|m: int| 0 <= m < node.len() && node[m] == x;
                    assert(before[n as int][m] < bound);
                }
            } else {
                assert(after[i] == before[i]);
                assert(before[i][k] < bound);
            }
        }
    }
}

/// What is found to be linked to an element is in the layer, is not too much and holds no node
/// twice. Nothing is found beyond `size` where all links lead below it.
pub proof fn lemma_found<T: HasDistance>(
    layer: Seq<Seq<u32>>,
    levels: Seq<Seq<Seq<u32>>>,
    above: Seq<T>,
    elements: Seq<T>,
    idx: usize,
    max_search: nat,
    size: nat,
)
    requires
        max_search >= 10,
        searchable(levels, above.len()),
        levels.last().len() <= size <= layer.len() <= elements.len(),
        links_below(layer, size),
    ensures
        ({
            let f = found(layer, levels, above, elements, idx, max_search);
            let entrypoint = search_levels(
                levels,
                distances_to(above, elements[idx as int]),
                max_search / 10,
            )[0].0;
            &&& entrypoint < levels.last().len()
            &&& 0 < f.len() <= MAX_NEIGHBORS
            &&& forall|i: int| 0 <= i < f.len() ==> (#[trigger] f[i]).0 < size
            &&& distinct_ids(f)
            &&& f == search_layer(
                layer,
                entrypoint,
                distances_to(elements, elements[idx as int]),
                max_search,
                MAX_NEIGHBORS as nat,
            )
        }),
{
    let goal = elements[idx as int];
    law_index_search_results(levels, distances_to(above, goal), max_search / 10);
    let r = search_levels(levels, distances_to(above, goal), max_search / 10);
    assert(r[0].0 < levels.last().len());
    lemma_search_results(
        layer,
        r[0].0,
        distances_to(elements, goal),
        max_search,
        MAX_NEIGHBORS as nat,
        size,
    );
}

/// Linking in the next element, where all links lead to earlier ones, makes links to it alone and
/// leaves later nodes as they are.
pub proof fn lemma_inserted<T: HasDistance>(
    layer: Seq<Seq<u32>>,
    levels: Seq<Seq<Seq<u32>>>,
    above: Seq<T>,
    elements: Seq<T>,
    idx: usize,
    max_search: nat,
)
    requires
        max_search >= 10,
        searchable(levels, above.len()),
        levels.last().len() <= idx,
        idx < layer.len() <= elements.len(),
        layer.len() <= u32::MAX,
        links_below(layer, idx as nat),
    ensures
        ({
            let after = inserted(layer, levels, above, elements, idx, max_search);
            &&& after.len() == layer.len()
            &&& links_below(after, (idx + 1) as nat)
            &&& forall|i: int| idx < i < layer.len() ==> #[trigger] after[i] == layer[i]
        }),
{
    lemma_found(layer, levels, above, elements, idx, max_search, idx as nat);
    let f = found(layer, levels, above, elements, idx, max_search);
    let first = layer.update(idx as int, initialized(f));
    assert forall|i: int, k: int|
        0 <= i < first.len() && 0 <= k < first[i].len() implies (#[trigger] first[i][k]) < idx
        + 1 by {
        if i == idx {
            assert(f[k].0 < idx);
        } else {
            assert(layer[i][k] < idx);
        }
    }
    lemma_linked(first, elements, idx, f, f.len(), (idx + 1) as nat);
}

/// Whether node `i` of a layer with `size` linked nodes is linked as it should be: to other nodes,
/// to none twice, and to not too many.
pub open spec fn tidy(node: Seq<u32>, i: int, size: nat) -> bool {
    &&& node.len() <= MAX_NEIGHBORS
    &&& node.no_duplicates()
    &&& forall|k: int| 0 <= k < node.len() ==> (#[trigger] node[k]) < size && node[k] != i
}

/// Whether none of the first `size` nodes is without a neighbour, where there is more than one.
pub open spec fn populated(layer: Seq<Seq<u32>>, size: nat) -> bool {
    size > 1 ==> forall|i: int| 0 <= i < size ==> (#[trigger] layer[i]).len() > 0
}

/// Whether `list` has an entry that is no farther than `d`, where `own` are the distances to all
/// elements.
#[verifier::opaque]
pub open spec fn reaches(list: Seq<u32>, own: Seq<Distance>, d: Distance) -> bool {
    exists|m: int| 0 <= m < list.len() && own[#[trigger] list[m] as int].order() <= d.order()
}

/// Whether a node that listed `before` is linked no worse with `after`: its list is no shorter, and
/// for each neighbour that it had it has one that is no farther. So its nearest neighbour is no
/// farther than it was.
pub open spec fn no_worse(before: Seq<u32>, after: Seq<u32>, own: Seq<Distance>) -> bool {
    &&& before.len() <= after.len()
    &&& forall|k: int|
        0 <= k < before.len() ==> reaches(after, own, own[#[trigger] before[k] as int])
}

/// Whether every node of a layer over `elements` is linked no worse after a change.
pub open spec fn all_no_worse<T: HasDistance>(
    before: Seq<Seq<u32>>,
    after: Seq<Seq<u32>>,
    elements: Seq<T>,
) -> bool {
    &&& before.len() <= after.len()
    &&& forall|i: int|
        0 <= i < before.len() ==> no_worse(
            #[trigger] before[i],
            after[i],
            distances_from(elements[i], elements),
        )
}

/// Whether the first `size` nodes of the layer are linked as they should be, and no other is
/// linked at all.
pub open spec fn well_linked(layer: Seq<Seq<u32>>, size: nat) -> bool {
    &&& size <= layer.len()
    &&& forall|i: int| 0 <= i < size ==> tidy(#[trigger] layer[i], i, size)
    &&& forall|i: int| size <= i < layer.len() ==> (#[trigger] layer[i]).len() == 0
}

/// A node that is linked as it should be stays so when it is connected to another node that it
/// does not list yet, at whatever distance.
pub proof fn law_connecting_keeps_node_tidy(
    node: Seq<u32>,
    own: Seq<Distance>,
    i: int,
    j: usize,
    d: Distance,
    size: nat,
)
    requires
        tidy(node, i, size),
        j < size <= u32::MAX,
        j != i,
        !node.contains(j as u32),
    ensures
        tidy(connected(node, own, j, d), i, size),
{
    lemma_connected(node, own, j, d);
    let new = connected(node, own, j, d);
    assert forall|k: int| 0 <= k < new.len() implies (#[trigger] new[k]) < size && new[k] != i by {
        if new[k] != j {
            assert(node.contains(new[k]));
        }
    }
}

/// Whether `n` is one of the first `count` indices.
pub open spec fn among(neighbors: Seq<(usize, Distance)>, count: nat, n: int) -> bool {
    exists|i: int| 0 <= i < count && (#[trigger] neighbors[i]).0 == n
}

proof fn lemma_linked_tidy<T: HasDistance>(
    layer: Seq<Seq<u32>>,
    elements: Seq<T>,
    idx: usize,
    neighbors: Seq<(usize, Distance)>,
    count: nat,
)
    requires
        idx < layer.len() <= u32::MAX,
        count <= neighbors.len(),
        forall|i: int| 0 <= i < neighbors.len() ==> (#[trigger] neighbors[i]).0 < idx,
        distinct_ids(neighbors),
        forall|i: int| 0 <= i < idx ==> tidy(#[trigger] layer[i], i, idx as nat),
    ensures
        ({
            let after = linked(layer, elements, idx, neighbors, count);
            &&& after.len() == layer.len()
            &&& forall|i: int|
                0 <= i < layer.len() && !among(neighbors, count, i) ==> #[trigger] after[i]
                    == layer[i]
            &&& forall|i: int| 0 <= i < idx ==> tidy(#[trigger] after[i], i, (idx + 1) as nat)
        }),
    decreases count,
{
    if count > 0 {
        let prior = (count - 1) as nat;
        lemma_linked_tidy(layer, elements, idx, neighbors, prior);
        let before = linked(layer, elements, idx, neighbors, prior);
        let after = linked(layer, elements, idx, neighbors, count);
        let (n, d) = neighbors[count - 1];
        let own = distances_from(elements[n as int], elements);
        let node = before[n as int];
        assert(!among(neighbors, prior, n as int));
        assert(node == layer[n as int]);
        assert(tidy(layer[n as int], n as int, idx as nat));
        assert(!node.contains(idx as u32));
        law_connecting_keeps_node_tidy(node, own, n as int, idx, d, (idx + 1) as nat);
        assert(neighbors[count - 1].0 == n);
        assert(among(neighbors, count, n as int));
        assert forall|i: int| 0 <= i < layer.len() && !among(neighbors, count, i) implies #[trigger] after[i]
            == layer[i] by {
            assert(i != n);
            assert(!among(neighbors, prior, i)) by {
                if among(neighbors, prior, i) {
                    let k = choose|k: int| 0 <= k < prior && (#[trigger] neighbors[k]).0 == i;
                    assert(0 <= k < count && neighbors[k].0 == i);
                }
            }
            assert(after[i] == before[i]);
        }
        assert forall|i: int| 0 <= i < idx implies tidy(#[trigger] after[i], i, (idx + 1) as nat) by {
            if i != n {
                assert(after[i] == before[i]);
            }
        }
    } else {
        assert forall|i: int| 0 <= i < idx implies tidy(#[trigger] layer[i], i, (idx + 1) as nat) by {
            assert(tidy(layer[i], i, idx as nat));
        }
    }
}

/// Linking in the next element keeps a layer well linked.
pub proof fn lemma_inserted_well_linked<T: HasDistance>(
    layer: Seq<Seq<u32>>,
    levels: Seq<Seq<Seq<u32>>>,
    above: Seq<T>,
    elements: Seq<T>,
    idx: usize,
    max_search: nat,
)
    requires
        max_search >= 10,
        searchable(levels, above.len()),
        levels.last().len() <= idx,
        idx < layer.len() <= elements.len(),
        layer.len() <= u32::MAX,
        well_linked(layer, idx as nat),
    ensures
        inserted(layer, levels, above, elements, idx, max_search).len() == layer.len(),
        well_linked(
            inserted(layer, levels, above, elements, idx, max_search),
            (idx + 1) as nat,
        ),
{
    lemma_well_linked_below(layer, idx as nat);
    lemma_found(layer, levels, above, elements, idx, max_search, idx as nat);
    let f = found(layer, levels, above, elements, idx, max_search);
    let own = initialized(f);
    let first = layer.update(idx as int, own);
    assert(tidy(own, idx as int, (idx + 1) as nat)) by {
        assert forall|k: int| 0 <= k < own.len() implies (#[trigger] own[k]) < idx + 1 && own[k]
            != idx by {
            assert(f[k].0 < idx);
        }
        assert forall|a: int, b: int|
            0 <= a < own.len() && 0 <= b < own.len() && a != b implies own[a] != own[b] by {
            assert(f[a].0 < idx && f[b].0 < idx);
            assert(f[a].0 != f[b].0);
        }
    }
    assert forall|i: int| 0 <= i < idx implies tidy(#[trigger] first[i], i, idx as nat) by {
        assert(first[i] == layer[i]);
    }
    lemma_linked_tidy(first, elements, idx, f, f.len());
    let after = linked(first, elements, idx, f, f.len());
    assert forall|i: int| idx <= i < layer.len() implies #[trigger] after[i] == first[i] by {
        assert(!among(f, f.len(), i));
    }
}

proof fn lemma_same_no_worse(list: Seq<u32>, own: Seq<Distance>)
    ensures
        no_worse(list, list, own),
{
    reveal(reaches);
    assert forall|k: int| 0 <= k < list.len() implies reaches(
        list,
        own,
        own[#[trigger] list[k] as int],
    ) by {
        assert(own[list[k] as int].order() <= own[list[k] as int].order());
    }
}

proof fn lemma_no_worse_chain(a: Seq<u32>, b: Seq<u32>, c: Seq<u32>, own: Seq<Distance>)
    requires
        no_worse(a, b, own),
        no_worse(b, c, own),
    ensures
        no_worse(a, c, own),
{
    reveal(reaches);
    assert forall|k: int| 0 <= k < a.len() implies reaches(c, own, own[#[trigger] a[k] as int]) by {
        let d = own[a[k] as int];
        assert(reaches(b, own, d));
        let m = choose|m: int|
            0 <= m < b.len() && own[#[trigger] b[m] as int].order() <= d.order();
        let e = own[b[m] as int];
        assert(reaches(c, own, e));
        let n = choose|n: int|
            0 <= n < c.len() && own[#[trigger] c[n] as int].order() <= e.order();
        assert(own[c[n] as int].order() <= d.order());
    }
}

/// A node that is connected at its own distance is linked no worse.
pub proof fn law_connecting_is_no_worse(node: Seq<u32>, own: Seq<Distance>, j: usize)
    requires
        node.len() <= MAX_NEIGHBORS,
        j < own.len(),
        j <= u32::MAX,
    ensures
        no_worse(node, connected(node, own, j, own[j as int]), own),
        connected(node, own, j, own[j as int]).len() > 0,
{
    reveal(reaches);
    let after = connected(node, own, j, own[j as int]);
    lemma_connected(node, own, j, own[j as int]);
    if node.len() < MAX_NEIGHBORS {
        assert forall|k: int| 0 <= k < node.len() implies reaches(
            after,
            own,
            own[#[trigger] node[k] as int],
        ) by {
            assert(after[k] == node[k]);
            assert(own[after[k] as int].order() <= own[node[k] as int].order());
        }
    } else {
        law_connecting_keeps_nearest(node, own, j);
        let c = rivals(node, own, j, own[j as int]);
        let s = ranked(c);
        lemma_ranked(c);
        s.to_multiset_ensures();
        c.to_multiset_ensures();
        assert(s.contains(s[0]));
        assert(c.to_multiset().count(s[0]) > 0);
        assert(c.contains(s[0]));
        assert(after[0] == s[0].1 as u32);
        assert(own[after[0] as int] == s[0].0);
        assert forall|k: int| 0 <= k < node.len() implies reaches(
            after,
            own,
            own[#[trigger] node[k] as int],
        ) by {
            assert(c[k].0 == own[node[k] as int]);
            assert(c.contains(c[k]));
            assert(s.to_multiset().count(c[k]) > 0);
            assert(s.contains(c[k]));
            let p = choose|p: int| 0 <= p < s.len() && s[p] == c[k];
            if p > 0 {
                assert(!nearer(s[p], s[0]));
            }
            assert(own[after[0] as int].order() <= own[node[k] as int].order());
        }
    }
}

/// Connecting nodes at their own distances leaves every node linked no worse.
proof fn lemma_linked_no_worse<T: HasDistance>(
    layer: Seq<Seq<u32>>,
    elements: Seq<T>,
    idx: usize,
    neighbors: Seq<(usize, Distance)>,
    count: nat,
)
    requires
        idx < elements.len(),
        idx <= u32::MAX,
        layer.len() <= elements.len(),
        count <= neighbors.len(),
        forall|i: int|
            0 <= i < neighbors.len() ==> (#[trigger] neighbors[i]).0 < layer.len()
                && neighbors[i].1 == elements[neighbors[i].0 as int].spec_dist(
                &elements[idx as int],
            ),
        lists_fit(layer),
    ensures
        ({
            let after = linked(layer, elements, idx, neighbors, count);
            &&& after.len() == layer.len()
            &&& lists_fit(after)
            &&& all_no_worse(layer, after, elements)
            &&& forall|i: int|
                0 <= i < layer.len() && #[trigger] among(neighbors, count, i) ==> after[i].len()
                    > 0
        }),
    decreases count,
{
    let after = linked(layer, elements, idx, neighbors, count);
    if count == 0 {
        assert forall|i: int| 0 <= i < layer.len() implies no_worse(
            #[trigger] layer[i],
            after[i],
            distances_from(elements[i], elements),
        ) by {
            lemma_same_no_worse(layer[i], distances_from(elements[i], elements));
        }
    } else {
        let prior = (count - 1) as nat;
        lemma_linked_no_worse(layer, elements, idx, neighbors, prior);
        let before = linked(layer, elements, idx, neighbors, prior);
        let (n, d) = neighbors[count - 1];
        assert(neighbors[count - 1].0 < layer.len());
        let own = distances_from(elements[n as int], elements);
        assert(d == own[idx as int]);
        assert(before[n as int].len() <= MAX_NEIGHBORS);
        law_connecting_is_no_worse(before[n as int], own, idx);
        lemma_connected(before[n as int], own, idx, d);
        assert forall|i: int| 0 <= i < layer.len() implies no_worse(
            #[trigger] layer[i],
            after[i],
            distances_from(elements[i], elements),
        ) by {
            if i == n {
                lemma_no_worse_chain(layer[i], before[i], after[i], own);
            } else {
                assert(after[i] == before[i]);
            }
        }
        assert forall|i: int| 0 <= i < after.len() implies (#[trigger] after[i]).len()
            <= MAX_NEIGHBORS by {
            assert(before[i].len() <= MAX_NEIGHBORS);
        }
        assert forall|i: int| 0 <= i < layer.len() && #[trigger] among(
            neighbors,
            count,
            i,
        ) implies after[i].len() > 0 by {
            if i != n {
                let k = choose|k: int| 0 <= k < count && (#[trigger] neighbors[k]).0 == i;
                assert(k < prior);
                assert(among(neighbors, prior, i));
            }
        }
    }
}

/// Linking in the next element leaves every node linked no worse, and neither that element nor what
/// it is linked to without a neighbour.
proof fn lemma_inserted_no_worse<T: HasDistance>(
    layer: Seq<Seq<u32>>,
    levels: Seq<Seq<Seq<u32>>>,
    above: Seq<T>,
    elements: Seq<T>,
    idx: usize,
    max_search: nat,
)
    requires
        max_search >= 10,
        searchable(levels, above.len()),
        levels.last().len() <= idx,
        idx < layer.len() <= elements.len(),
        layer.len() <= u32::MAX,
        well_linked(layer, idx as nat),
    ensures
        ({
            let after = inserted(layer, levels, above, elements, idx, max_search);
            &&& all_no_worse(layer, after, elements)
            &&& after[idx as int].len() > 0
            &&& idx == 1 ==> after[0].len() > 0
        }),
{
    lemma_well_linked_below(layer, idx as nat);
    lemma_found(layer, levels, above, elements, idx, max_search, idx as nat);
    let f = found(layer, levels, above, elements, idx, max_search);
    let goal = elements[idx as int];
    let e = search_levels(levels, distances_to(above, goal), max_search / 10)[0].0;
    lemma_search_results(
        layer,
        e,
        distances_to(elements, goal),
        max_search,
        MAX_NEIGHBORS as nat,
        idx as nat,
    );
    let first = layer.update(idx as int, initialized(f));
    assert forall|i: int| 0 <= i < first.len() implies (#[trigger] first[i]).len()
        <= MAX_NEIGHBORS by {
        if i < idx {
            assert(tidy(layer[i], i, idx as nat));
        } else if i > idx {
            assert(layer[i].len() == 0);
        }
    }
    assert forall|i: int| 0 <= i < f.len() implies (#[trigger] f[i]).0 < first.len() && f[i].1
        == elements[f[i].0 as int].spec_dist(&goal) by {
        assert(f[i].0 < idx);
    }
    lemma_linked_no_worse(first, elements, idx, f, f.len());
    let after = inserted(layer, levels, above, elements, idx, max_search);
    assert forall|i: int| 0 <= i < layer.len() implies no_worse(
        #[trigger] layer[i],
        after[i],
        distances_from(elements[i], elements),
    ) by {
        assert(no_worse(first[i], after[i], distances_from(elements[i], elements)));
    }
    assert(no_worse(first[idx as int], after[idx as int], distances_from(goal, elements)));
    if idx == 1 {
        assert(f[0].0 < 1);
        assert(among(f, f.len(), 0));
    }
}

/// A well linked layer links to its own nodes.
pub proof fn lemma_well_linked_below(layer: Seq<Seq<u32>>, size: nat)
    requires
        well_linked(layer, size),
    ensures
        links_below(layer, size),
{
    assert forall|i: int, k: int|
        0 <= i < layer.len() && 0 <= k < layer[i].len() implies (#[trigger] layer[i][k])
        < size by {
        if i < size {
            assert(tidy(layer[i], i, size));
        }
    }
}

/// A layer that was well linked is so after it was extended and filled, whatever the elements. No
/// new node is without a neighbour, and every node that was there is linked no worse: lists do not
/// shrink, and nearest neighbours get no farther. In a layer that began with a single node, or in
/// which none was without a neighbour, none is.
pub proof fn law_filled_layer_is_well_linked<T: HasDistance>(
    layer: Seq<Seq<u32>>,
    levels: Seq<Seq<Seq<u32>>>,
    above: Seq<T>,
    elements: Seq<T>,
    max_search: nat,
)
    requires
        max_search >= 10,
        searchable(levels, above.len()),
        levels.last().len() <= layer.len() <= elements.len(),
        elements.len() <= u32::MAX,
        well_linked(layer, layer.len()),
    ensures
        ({
            let after = filled(layer, levels, above, elements, max_search);
            &&& after.len() == elements.len()
            &&& well_linked(after, elements.len())
            &&& all_no_worse(layer, after, elements)
            &&& forall|i: int|
                layer.len() <= i < elements.len() ==> (#[trigger] after[i]).len() > 0
            &&& populated(layer, layer.len()) ==> populated(after, elements.len())
        }),
{
    let all = extended(layer, elements.len());
    assert forall|i: int| 0 <= i < layer.len() implies tidy(
        #[trigger] all[i],
        i,
        layer.len(),
    ) by {
        assert(tidy(layer[i], i, layer.len()));
    }
    lemma_range_well_linked(layer, levels, above, elements, elements.len(), max_search);
    let after = filled(layer, levels, above, elements, max_search);
    assert forall|i: int| 0 <= i < layer.len() implies no_worse(
        #[trigger] layer[i],
        after[i],
        distances_from(elements[i], elements),
    ) by {
        assert(all[i] == layer[i]);
    }
    let last = levels[levels.len() - 1];
    assert(last.len() > 0);
    if populated(layer, layer.len()) && elements.len() > 1 {
        assert forall|i: int| 0 <= i < elements.len() implies (#[trigger] after[i]).len() > 0 by {
            if i < layer.len() && layer.len() > 1 {
                assert(layer[i].len() > 0);
                assert(no_worse(layer[i], after[i], distances_from(elements[i], elements)));
            }
        }
    }
}

proof fn lemma_range_well_linked<T: HasDistance>(
    layer: Seq<Seq<u32>>,
    levels: Seq<Seq<Seq<u32>>>,
    above: Seq<T>,
    elements: Seq<T>,
    to: nat,
    max_search: nat,
)
    requires
        max_search >= 10,
        searchable(levels, above.len()),
        levels.last().len() <= layer.len() <= to <= elements.len(),
        elements.len() <= u32::MAX,
        well_linked(extended(layer, elements.len()), layer.len()),
    ensures
        ({
            let after = inserted_range(
                extended(layer, elements.len()),
                levels,
                above,
                elements,
                layer.len(),
                to,
                max_search,
            );
            &&& after.len() == elements.len()
            &&& well_linked(after, to)
            &&& all_no_worse(extended(layer, elements.len()), after, elements)
            &&& forall|i: int| layer.len() <= i < to ==> (#[trigger] after[i]).len() > 0
            &&& layer.len() == 1 && to > 1 ==> after[0].len() > 0
        }),
    decreases to,
{
    let all = extended(layer, elements.len());
    if to > layer.len() {
        let prior = (to - 1) as nat;
        let idx = (to - 1) as usize;
        lemma_range_well_linked(layer, levels, above, elements, prior, max_search);
        let before = inserted_range(
            all,
            levels,
            above,
            elements,
            layer.len(),
            prior,
            max_search,
        );
        lemma_inserted_well_linked(before, levels, above, elements, idx, max_search);
        lemma_inserted_no_worse(before, levels, above, elements, idx, max_search);
        let after = inserted(before, levels, above, elements, idx, max_search);
        assert forall|i: int| 0 <= i < all.len() implies no_worse(
            #[trigger] all[i],
            after[i],
            distances_from(elements[i], elements),
        ) by {
            assert(no_worse(before[i], after[i], distances_from(elements[i], elements)));
            lemma_no_worse_chain(
                all[i],
                before[i],
                after[i],
                distances_from(elements[i], elements),
            );
        }
        assert forall|i: int| layer.len() <= i < to implies (#[trigger] after[i]).len() > 0 by {
            if i < prior {
                assert(before[i].len() > 0);
                assert(no_worse(before[i], after[i], distances_from(elements[i], elements)));
            }
        }
        if layer.len() == 1 && prior > 1 {
            assert(no_worse(before[0], after[0], distances_from(elements[0], elements)));
        }
    } else {
        assert forall|i: int| 0 <= i < all.len() implies no_worse(
            #[trigger] all[i],
            all[i],
            distances_from(elements[i], elements),
        ) by {
            lemma_same_no_worse(all[i], distances_from(elements[i], elements));
        }
    }
}

} // verus!
