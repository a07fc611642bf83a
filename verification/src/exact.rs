//! Where a search is exact.
//!
//! While no list of a layer is full, links go both ways, and so every node is reached from every
//! other. A search through such a layer that may keep all of its nodes finds the very nearest ones.
use vstd::prelude::*;

use crate::builder::{built, lemma_level_size, level_size};
use crate::distance::{distances_to, Distance, HasDistance};
use crate::growth::law_built_index;
use crate::index::{
    entrypoint, lemma_entrypoint, lemma_upper_levels, search_levels, searchable, upper_search,
};
use crate::link::{
    among, distinct_ids, extended, filled, found, initialized, inserted, inserted_range,
    law_filled_layer_is_well_linked, lemma_found, lemma_inserted_well_linked,
    lemma_ranked_distinct, lemma_well_linked_below, linked, tidy, turned, well_linked,
};
use crate::node::MAX_NEIGHBORS;
use crate::order::{lemma_ranked, nearer, ranked};
use crate::reach::{
    holds, law_search_is_exhaustive, law_search_reaches, leads, lemma_few_numbers,
    lemma_reachable_below, lemma_reachable_chain, lemma_reachable_self, lemma_reachable_step,
    lemma_reached_finite, reachable, reached, within,
};
use crate::search::{distinct, law_search_results, links_below, search_layer};

verus! {

/// Whether every link of the layer goes both ways.
pub open spec fn mutual(layer: Seq<Seq<u32>>) -> bool {
    forall|i: int, j: int| #[trigger] leads(layer, i, j) ==> leads(layer, j, i)
}

/// Whether links lead from each of the first `size` nodes to all the others of them.
pub open spec fn joined(layer: Seq<Seq<u32>>, size: nat) -> bool {
    forall|i: int, j: int| 0 <= i < size && 0 <= j < size ==> #[trigger] reachable(layer, i, j)
}

/// A tidy node lists fewer nodes than there are.
proof fn lemma_tidy_len(node: Seq<u32>, i: int, size: nat)
    requires
        tidy(node, i, size),
        0 <= i < size,
    ensures
        node.len() < size,
{
    let numbers = Seq::new(node.len(), |k: int| node[k] as int).push(i);
    assert(numbers.no_duplicates()) by {
        assert forall|a: int, b: int|
            0 <= a < numbers.len() && 0 <= b < numbers.len() && a != b implies numbers[a]
            != numbers[b] by {
            if a < node.len() {
                assert(node[a] != i);
            }
            if b < node.len() {
                assert(node[b] != i);
            }
        }
    }
    assert forall|k: int| 0 <= k < numbers.len() implies 0 <= #[trigger] numbers[k] < size by {
        if k < node.len() {
            assert(node[k] < size);
        }
    }
    lemma_few_numbers(numbers, size);
}

/// Nodes with room are connected by one more entry.
proof fn lemma_linked_with_room<T: HasDistance>(
    layer: Seq<Seq<u32>>,
    elements: Seq<T>,
    idx: usize,
    neighbors: Seq<(usize, Distance)>,
    count: nat,
)
    requires
        count <= neighbors.len(),
        distinct_ids(neighbors),
        forall|i: int|
            0 <= i < neighbors.len() ==> (#[trigger] neighbors[i]).0 < layer.len()
                && layer[neighbors[i].0 as int].len() < MAX_NEIGHBORS,
    ensures
        ({
            let after = linked(layer, elements, idx, neighbors, count);
            &&& after.len() == layer.len()
            &&& forall|i: int|
                0 <= i < layer.len() ==> #[trigger] after[i] == (if among(neighbors, count, i) {
                    layer[i].push(idx as u32)
                } else {
                    layer[i]
                })
        }),
    decreases count,
{
    let after = linked(layer, elements, idx, neighbors, count);
    if count > 0 {
        let prior = (count - 1) as nat;
        lemma_linked_with_room(layer, elements, idx, neighbors, prior);
        let before = linked(layer, elements, idx, neighbors, prior);
        let (n, d) = neighbors[count - 1];
        assert(neighbors[count - 1].0 == n);
        assert(!among(neighbors, prior, n as int));
        assert(before[n as int] == layer[n as int]);
        assert forall|i: int| 0 <= i < layer.len() implies #[trigger] after[i] == (if among(
            neighbors,
            count,
            i,
        ) {
            layer[i].push(idx as u32)
        } else {
            layer[i]
        }) by {
            if i == n {
                assert(among(neighbors, count, i));
            } else {
                assert(after[i] == before[i]);
                assert(among(neighbors, count, i) == among(neighbors, prior, i)) by {
                    if among(neighbors, count, i) {
                        let k = choose|k: int| 0 <= k < count && (#[trigger] neighbors[k]).0 == i;
                        assert(k < prior);
                    }
                    if among(neighbors, prior, i) {
                        let k = choose|k: int| 0 <= k < prior && (#[trigger] neighbors[k]).0 == i;
                        assert(0 <= k < count);
                    }
                }
            }
        }
    }
}

/// Linking the next element into a layer without full lists gives that element its own list, adds
/// one entry to each list that it is found with, and changes no other.
proof fn lemma_inserted_with_room<T: HasDistance>(
    layer: Seq<Seq<u32>>,
    levels: Seq<Seq<Seq<u32>>>,
    above: Seq<T>,
    elements: Seq<T>,
    idx: usize,
    max_search: nat,
)
    requires
        max_search >= 10,
        searchable(levels, above.len()),
        levels.last().len() <= idx,
        idx < layer.len() <= elements.len(),
        layer.len() <= u32::MAX,
        idx <= MAX_NEIGHBORS,
        well_linked(layer, idx as nat),
    ensures
        ({
            let f = found(layer, levels, above, elements, idx, max_search);
            let after = inserted(layer, levels, above, elements, idx, max_search);
            &&& after.len() == layer.len()
            &&& after[idx as int] == initialized(f)
            &&& forall|i: int|
                0 <= i < layer.len() && i != idx ==> #[trigger] after[i] == (if among(
                    f,
                    f.len(),
                    i,
                ) {
                    layer[i].push(idx as u32)
                } else {
                    layer[i]
                })
        }),
{
    let f = found(layer, levels, above, elements, idx, max_search);
    lemma_well_linked_below(layer, idx as nat);
    lemma_found(layer, levels, above, elements, idx, max_search, idx as nat);
    let first = layer.update(idx as int, initialized(f));
    assert forall|i: int| 0 <= i < f.len() implies (#[trigger] f[i]).0 < first.len()
        && first[f[i].0 as int].len() < MAX_NEIGHBORS by {
        let n = f[i].0 as int;
        assert(tidy(layer[n], n, idx as nat));
        lemma_tidy_len(layer[n], n, idx as nat);
    }
    lemma_linked_with_room(first, elements, idx, f, f.len());
    assert(!among(f, f.len(), idx as int));
}

/// Where no link is lost, everything is reached that was.
proof fn lemma_still_within(
    before: Seq<Seq<u32>>,
    after: Seq<Seq<u32>>,
    a: int,
    b: int,
    steps: nat,
)
    requires
        forall|i: int, j: int| #[trigger] leads(before, i, j) ==> leads(after, i, j),
        within(before, a, b, steps),
    ensures
        within(after, a, b, steps),
    decreases steps,
{
    if steps > 0 {
        let prior = (steps - 1) as nat;
        if within(before, a, b, prior) {
            lemma_still_within(before, after, a, b, prior);
        } else {
            let c = choose|c: int| within(before, a, c, prior) && #[trigger] leads(before, c, b);
            lemma_still_within(before, after, a, c, prior);
            assert(leads(after, c, b));
        }
    }
}

/// Linking the next element into a layer without full lists makes mutual links, loses none, and
/// leaves all nodes joined.
proof fn lemma_inserted_mutual<T: HasDistance>(
    layer: Seq<Seq<u32>>,
    levels: Seq<Seq<Seq<u32>>>,
    above: Seq<T>,
    elements: Seq<T>,
    idx: usize,
    max_search: nat,
)
    requires
        max_search >= 10,
        searchable(levels, above.len()),
        levels.last().len() <= idx,
        idx < layer.len() <= elements.len(),
        layer.len() <= u32::MAX,
        idx <= MAX_NEIGHBORS,
        well_linked(layer, idx as nat),
        mutual(layer),
        joined(layer, idx as nat),
    ensures
        ({
            let after = inserted(layer, levels, above, elements, idx, max_search);
            &&& mutual(after)
            &&& joined(after, (idx + 1) as nat)
        }),
{
    let f = found(layer, levels, above, elements, idx, max_search);
    lemma_well_linked_below(layer, idx as nat);
    lemma_found(layer, levels, above, elements, idx, max_search, idx as nat);
    lemma_inserted_with_room(layer, levels, above, elements, idx, max_search);
    let after = inserted(layer, levels, above, elements, idx, max_search);
    let x = idx as int;
    assert forall|i: int| #[trigger] among(f, f.len(), i) implies leads(after, x, i) && leads(
        after,
        i,
        x,
    ) by {
        let k = choose|k: int| 0 <= k < f.len() && (#[trigger] f[k]).0 == i;
        assert(after[x][k] == i);
        assert(after[i] == layer[i].push(idx as u32));
        assert(after[i][layer[i].len() as int] == x);
    }
    assert forall|i: int, j: int| #[trigger] leads(layer, i, j) implies leads(after, i, j) by {
        let k = choose|k: int| 0 <= k < layer[i].len() && #[trigger] layer[i][k] == j;
        assert(layer[i][k] < idx);
        assert(i != x);
        assert(after[i][k] == j);
    }
    assert forall|i: int, j: int| #[trigger] leads(after, i, j) implies leads(after, j, i) by {
        let k = choose|k: int| 0 <= k < after[i].len() && #[trigger] after[i][k] == j;
        if i == x {
            assert(f[k].0 == j);
            assert(among(f, f.len(), j));
        } else if k < layer[i].len() {
            assert(after[i][k] == layer[i][k]);
            assert(leads(layer, i, j));
            assert(leads(layer, j, i));
        } else {
            assert(among(f, f.len(), i));
        }
    }
    let n = f[0].0 as int;
    assert(among(f, f.len(), n));
    assert forall|i: int, j: int| 0 <= i < x && 0 <= j < x implies #[trigger] reachable(
        after,
        i,
        j,
    ) by {
        assert(reachable(layer, i, j));
        let steps = choose|steps: nat| within(layer, i, j, steps);
        lemma_still_within(layer, after, i, j, steps);
    }
    assert forall|i: int, j: int| 0 <= i < x + 1 && 0 <= j < x + 1 implies #[trigger] reachable(
        after,
        i,
        j,
    ) by {
        lemma_reachable_self(after, i);
        if i == x && j < x {
            lemma_reachable_step(after, x, x, n);
            assert(reachable(after, n, j));
            lemma_reachable_chain(after, x, n, j);
        } else if i < x && j == x {
            assert(reachable(after, i, n));
            lemma_reachable_step(after, i, n, x);
        }
    }
}

proof fn lemma_range_mutual<T: HasDistance>(
    layer: Seq<Seq<u32>>,
    levels: Seq<Seq<Seq<u32>>>,
    above: Seq<T>,
    elements: Seq<T>,
    to: nat,
    max_search: nat,
)
    requires
        max_search >= 10,
        searchable(levels, above.len()),
        levels.last().len() <= layer.len() <= to <= elements.len(),
        elements.len() <= MAX_NEIGHBORS + 1,
        well_linked(extended(layer, elements.len()), layer.len()),
        mutual(layer),
        joined(layer, layer.len()),
    ensures
        ({
            let after = inserted_range(
                extended(layer, elements.len()),
                levels,
                above,
                elements,
                layer.len(),
                to,
                max_search,
            );
            &&& after.len() == elements.len()
            &&& well_linked(after, to)
            &&& mutual(after)
            &&& joined(after, to)
        }),
    decreases to,
{
    let all = extended(layer, elements.len());
    if to > layer.len() {
        let prior = (to - 1) as nat;
        let idx = (to - 1) as usize;
        lemma_range_mutual(layer, levels, above, elements, prior, max_search);
        let before = inserted_range(
            all,
            levels,
            above,
            elements,
            layer.len(),
            prior,
            max_search,
        );
        lemma_inserted_well_linked(before, levels, above, elements, idx, max_search);
        lemma_inserted_mutual(before, levels, above, elements, idx, max_search);
    } else {
        assert forall|i: int, j: int| #[trigger] leads(layer, i, j) implies leads(all, i, j) by {
            let k = choose|k: int| 0 <= k < layer[i].len() && #[trigger] layer[i][k] == j;
            assert(all[i][k] == j);
        }
        assert forall|i: int, j: int| #[trigger] leads(all, i, j) implies leads(all, j, i) by {
            let k = choose|k: int| 0 <= k < all[i].len() && #[trigger] all[i][k] == j;
            assert(layer[i][k] == j);
            assert(leads(layer, i, j));
            assert(leads(layer, j, i));
        }
        assert forall|i: int, j: int|
            0 <= i < layer.len() && 0 <= j < layer.len() implies #[trigger] reachable(
            all,
            i,
            j,
        ) by {
            assert(reachable(layer, i, j));
            let steps = choose|steps: nat| within(layer, i, j, steps);
            lemma_still_within(layer, all, i, j, steps);
        }
    }
}

/// A layer with mutual links between joined nodes stays so when it is extended and filled, as long
/// as it has at most one node more than a node can list.
pub proof fn law_small_filled_layer_is_joined<T: HasDistance>(
    layer: Seq<Seq<u32>>,
    levels: Seq<Seq<Seq<u32>>>,
    above: Seq<T>,
    elements: Seq<T>,
    max_search: nat,
)
    requires
        max_search >= 10,
        searchable(levels, above.len()),
        levels.last().len() <= layer.len() <= elements.len(),
        elements.len() <= MAX_NEIGHBORS + 1,
        well_linked(layer, layer.len()),
        mutual(layer),
        joined(layer, layer.len()),
    ensures
        mutual(filled(layer, levels, above, elements, max_search)),
        joined(filled(layer, levels, above, elements, max_search), elements.len()),
{
    let all = extended(layer, elements.len());
    assert forall|i: int| 0 <= i < layer.len() implies tidy(
        #[trigger] all[i],
        i,
        layer.len(),
    ) by {
        assert(tidy(layer[i], i, layer.len()));
    }
    lemma_range_mutual(layer, levels, above, elements, elements.len(), max_search);
}

proof fn lemma_range_prefix<T: HasDistance>(
    layer: Seq<Seq<u32>>,
    levels: Seq<Seq<Seq<u32>>>,
    above: Seq<T>,
    elements: Seq<T>,
    to: nat,
    max_search: nat,
)
    requires
        max_search >= 10,
        searchable(levels, above.len()),
        levels.last().len() <= layer.len() <= to <= elements.len(),
        elements.len() <= MAX_NEIGHBORS + 1,
        well_linked(extended(layer, elements.len()), layer.len()),
    ensures
        ({
            let after = inserted_range(
                extended(layer, elements.len()),
                levels,
                above,
                elements,
                layer.len(),
                to,
                max_search,
            );
            &&& after.len() == elements.len()
            &&& well_linked(after, to)
            &&& forall|i: int|
                0 <= i < elements.len() ==> (#[trigger] extended(
                    layer,
                    elements.len(),
                )[i]).is_prefix_of(after[i])
        }),
    decreases to,
{
    let all = extended(layer, elements.len());
    if to > layer.len() {
        let prior = (to - 1) as nat;
        let idx = (to - 1) as usize;
        lemma_range_prefix(layer, levels, above, elements, prior, max_search);
        let before = inserted_range(
            all,
            levels,
            above,
            elements,
            layer.len(),
            prior,
            max_search,
        );
        lemma_inserted_well_linked(before, levels, above, elements, idx, max_search);
        lemma_inserted_with_room(before, levels, above, elements, idx, max_search);
        let after = inserted(before, levels, above, elements, idx, max_search);
        assert forall|i: int| 0 <= i < elements.len() implies (#[trigger] all[i]).is_prefix_of(
            after[i],
        ) by {
            if i == idx {
                assert(all[i].len() == 0);
            } else {
                assert(all[i].is_prefix_of(before[i]));
                assert(all[i] =~= before[i].subrange(0, all[i].len() as int));
                assert(before[i].is_prefix_of(after[i]));
            }
            assert(all[i] =~= after[i].subrange(0, all[i].len() as int));
        }
    } else {
        assert forall|i: int| 0 <= i < elements.len() implies (#[trigger] all[i]).is_prefix_of(
            all[i],
        ) by {
            assert(all[i] =~= all[i].subrange(0, all[i].len() as int));
        }
    }
}

/// When a layer is extended and filled, and has at most one node more than a node can list, every
/// list stays as it was and is only added to at its end.
pub proof fn law_small_filled_layer_keeps_lists<T: HasDistance>(
    layer: Seq<Seq<u32>>,
    levels: Seq<Seq<Seq<u32>>>,
    above: Seq<T>,
    elements: Seq<T>,
    max_search: nat,
)
    requires
        max_search >= 10,
        searchable(levels, above.len()),
        levels.last().len() <= layer.len() <= elements.len(),
        elements.len() <= MAX_NEIGHBORS + 1,
        well_linked(layer, layer.len()),
    ensures
        forall|i: int|
            0 <= i < layer.len() ==> (#[trigger] layer[i]).is_prefix_of(
                filled(layer, levels, above, elements, max_search)[i],
            ),
{
    let all = extended(layer, elements.len());
    assert forall|i: int| 0 <= i < layer.len() implies tidy(
        #[trigger] all[i],
        i,
        layer.len(),
    ) by {
        assert(tidy(layer[i], i, layer.len()));
    }
    lemma_range_prefix(layer, levels, above, elements, elements.len(), max_search);
    assert forall|i: int| 0 <= i < layer.len() implies (#[trigger] layer[i]).is_prefix_of(
        filled(layer, levels, above, elements, max_search)[i],
    ) by {
        assert(all[i] == layer[i]);
    }
}

/// In an index that is built at once, the layers of at most one node more than a node can list have
/// mutual links between joined nodes.
pub proof fn law_small_built_layers_are_joined<T: HasDistance>(
    elements: Seq<T>,
    multiplier: nat,
    max_search: nat,
    count: nat,
)
    requires
        0 < elements.len() < u32::MAX,
        max_search >= 10,
        multiplier > 0,
    ensures
        ({
            let b = built(seq![seq![Seq::empty()]], elements, multiplier, max_search, count);
            forall|l: int|
                0 <= l < b.len() && (#[trigger] b[l]).len() <= MAX_NEIGHBORS + 1 ==> mutual(b[l])
                    && joined(b[l], b[l].len())
        }),
    decreases count,
{
    let top: Seq<Seq<Seq<u32>>> = seq![seq![Seq::empty()]];
    let b = built(top, elements, multiplier, max_search, count);
    if count == 0 {
        assert(mutual(top[0])) by {
            assert forall|i: int, j: int| #[trigger] leads(top[0], i, j) implies leads(
                top[0],
                j,
                i,
            ) by {
                assert(top[0][i].len() == 0);
            }
        }
        lemma_reachable_self(top[0], 0);
    } else {
        let prior = (count - 1) as nat;
        law_small_built_layers_are_joined(elements, multiplier, max_search, prior);
        law_built_index(elements, multiplier, max_search, prior);
        let above = built(top, elements, multiplier, max_search, prior);
        lemma_level_size(count, multiplier, elements.len());
        let some = elements.take(level_size(count, multiplier, elements.len()) as int);
        let layer = above[above.len() - 1];
        law_filled_layer_is_well_linked(layer, above, elements, some, max_search);
        if some.len() <= MAX_NEIGHBORS + 1 {
            assert(layer.len() <= MAX_NEIGHBORS + 1);
            law_small_filled_layer_is_joined(layer, above, elements, some, max_search);
        }
        assert forall|l: int|
            0 <= l < b.len() && (#[trigger] b[l]).len() <= MAX_NEIGHBORS + 1 implies mutual(b[l])
            && joined(b[l], b[l].len()) by {
            if l < above.len() {
                assert(b[l] == above[l]);
            }
        }
    }
}

/// The first `size` elements as candidates.
pub open spec fn everything(distances: Seq<Distance>, size: nat) -> Seq<(Distance, usize)> {
    Seq::new(size, |i: int| (distances[i], i as usize))
}

/// Whether the candidates stand strictly nearest first.
pub open spec fn strictly_nearest_first(s: Seq<(Distance, usize)>) -> bool {
    forall|i: int, j: int| 0 <= i < j < s.len() ==> nearer(#[trigger] s[i], #[trigger] s[j])
}

/// There is one strict order only.
pub proof fn lemma_one_order(a: Seq<(Distance, usize)>, b: Seq<(Distance, usize)>)
    requires
        strictly_nearest_first(a),
        strictly_nearest_first(b),
        forall|x: (Distance, usize)| #[trigger] a.contains(x) <==> b.contains(x),
    ensures
        a == b,
    decreases a.len(),
{
    if a.len() == 0 {
        if b.len() > 0 {
            assert(b.contains(b[0]));
            assert(a.contains(b[0]));
        }
        assert(a =~= b);
    } else {
        assert(a.contains(a[0]));
        let p = choose|p: int| 0 <= p < b.len() && b[p] == a[0];
        assert(b.contains(b[0]));
        assert(a.contains(b[0]));
        let q = choose|q: int| 0 <= q < a.len() && a[q] == b[0];
        assert(a[0] == b[0]) by {
            if p > 0 && q > 0 {
                assert(nearer(b[0], b[p]));
                assert(nearer(a[0], a[q]));
            }
        }
        let c = a.drop_first();
        let d = b.drop_first();
        assert(strictly_nearest_first(c)) by {
            assert forall|i: int, j: int| 0 <= i < j < c.len() implies nearer(
                #[trigger] c[i],
                #[trigger] c[j],
            ) by {
                assert(nearer(a[i + 1], a[j + 1]));
            }
        }
        assert(strictly_nearest_first(d)) by {
            assert forall|i: int, j: int| 0 <= i < j < d.len() implies nearer(
                #[trigger] d[i],
                #[trigger] d[j],
            ) by {
                assert(nearer(b[i + 1], b[j + 1]));
            }
        }
        assert forall|x: (Distance, usize)| #[trigger] c.contains(x) <==> d.contains(x) by {
            lemma_in_rest(a, x);
            lemma_in_rest(b, x);
        }
        lemma_one_order(c, d);
        assert(a =~= seq![a[0]] + c);
        assert(b =~= seq![b[0]] + d);
    }
}

/// What stands behind the first candidate.
proof fn lemma_in_rest(a: Seq<(Distance, usize)>, x: (Distance, usize))
    requires
        a.len() > 0,
        strictly_nearest_first(a),
    ensures
        a.drop_first().contains(x) <==> a.contains(x) && x != a[0],
{
    let c = a.drop_first();
    if c.contains(x) {
        let i = choose|i: int| 0 <= i < c.len() && c[i] == x;
        assert(a[i + 1] == x);
        assert(nearer(a[0], a[i + 1]));
    }
    if a.contains(x) && x != a[0] {
        let i = choose|i: int| 0 <= i < a.len() && a[i] == x;
        assert(c[i - 1] == x);
    }
}

/// Ranking all elements orders them strictly.
proof fn lemma_everything_ranked(distances: Seq<Distance>, size: nat)
    requires
        size <= usize::MAX,
    ensures
        strictly_nearest_first(ranked(everything(distances, size))),
        ranked(everything(distances, size)).len() == size,
        forall|x: (Distance, usize)| #[trigger]
            ranked(everything(distances, size)).contains(x) <==> everything(
                distances,
                size,
            ).contains(x),
{
    let all = everything(distances, size);
    let s = ranked(all);
    assert(distinct(all));
    lemma_ranked_distinct(all);
    lemma_ranked(all);
    assert forall|i: int, j: int| 0 <= i < j < s.len() implies nearer(
        #[trigger] s[i],
        #[trigger] s[j],
    ) by {
        assert(!nearer(s[j], s[i]));
        assert(s[i].1 != s[j].1);
    }
    s.to_multiset_ensures();
    all.to_multiset_ensures();
    assert forall|x: (Distance, usize)| #[trigger] s.contains(x) <==> all.contains(x) by {
        assert(s.contains(x) <==> s.to_multiset().count(x) > 0);
        assert(all.contains(x) <==> all.to_multiset().count(x) > 0);
    }
}

/// A search through an index with a bottom layer of joined nodes that may keep all of them returns
/// exactly the nearest elements: the first of all elements as they stand by distance, and by index
/// where distances are equal, as many as a search returns at most.
pub proof fn law_joined_index_is_searched_exactly(
    levels: Seq<Seq<Seq<u32>>>,
    distances: Seq<Distance>,
    max_search: nat,
)
    requires
        searchable(levels, distances.len()),
        joined(levels.last(), levels.last().len()),
        levels.last().len() <= max_search,
        levels.last().len() <= usize::MAX,
    ensures
        ({
            let n = levels.last().len();
            search_levels(levels, distances, max_search) == turned(
                ranked(everything(distances, n)).take(
                    if n < MAX_NEIGHBORS {
                        n as int
                    } else {
                        MAX_NEIGHBORS as int
                    },
                ),
            )
        }),
{
    lemma_upper_levels(levels, distances.len());
    let upper = levels.drop_last();
    let bottom = levels.last();
    let n = bottom.len();
    let ms = upper_search(max_search);
    lemma_entrypoint(upper, distances, ms);
    let e = entrypoint(upper, distances, ms);
    lemma_reached_finite(bottom, e as int, n);
    let range = vstd::set_lib::set_int_range(0, n as int);
    vstd::set_lib::lemma_int_range(0, n as int);
    assert(reached(bottom, e as int) =~= range) by {
        assert forall|b: int| reached(bottom, e as int).contains(b) == range.contains(b) by {
            if reachable(bottom, e as int, b) {
                lemma_reachable_below(bottom, e as int, b, n);
            }
            if 0 <= b < n {
                assert(reachable(bottom, e as int, b));
            }
        }
    }
    let whole = search_layer(bottom, e, distances, max_search, n);
    let r = search_levels(levels, distances, max_search);
    law_search_results(bottom, e, distances, max_search, n);
    law_search_reaches(bottom, e, distances, max_search, n);
    law_search_reaches(bottom, e, distances, max_search, MAX_NEIGHBORS as nat);
    let back = Seq::new(n, |i: int| (whole[i].1, whole[i].0));
    let all = everything(distances, n);
    lemma_everything_ranked(distances, n);
    assert forall|x: (Distance, usize)| #[trigger] back.contains(x) <==> ranked(all).contains(x) by {
        if back.contains(x) {
            let i = choose|i: int| 0 <= i < back.len() && back[i] == x;
            assert(whole[i].0 < n && whole[i].1 == distances[whole[i].0 as int]);
            assert(all[whole[i].0 as int] == x);
        }
        if all.contains(x) {
            let j = choose|j: int| 0 <= j < all.len() && all[j] == x;
            assert(reachable(bottom, e as int, j));
            law_search_is_exhaustive(bottom, e, distances, max_search, n, j);
            assert(holds(whole, j));
            let i = choose|i: int| 0 <= i < whole.len() && (#[trigger] whole[i]).0 == j;
            assert(whole[i].1 == distances[j]);
            assert(back[i] == x);
        }
    }
    assert(strictly_nearest_first(back)) by {
        assert forall|i: int, j: int| 0 <= i < j < back.len() implies nearer(
            #[trigger] back[i],
            #[trigger] back[j],
        ) by {
            assert(whole[i].0 != whole[j].0 && nearer(
                (whole[i].1, whole[i].0),
                (whole[j].1, whole[j].0),
            ));
        }
    }
    lemma_one_order(back, ranked(all));
    let m = if n < MAX_NEIGHBORS {
        n as int
    } else {
        MAX_NEIGHBORS as int
    };
    assert(r.len() == m);
    assert forall|i: int| 0 <= i < m implies #[trigger] r[i] == turned(ranked(all).take(m))[i] by {
        assert(r[i] == whole[i]);
        assert(back[i] == ranked(all)[i]);
    }
    assert(r =~= turned(ranked(all).take(m)));
}

/// Whether each of the first `size` nodes lists all the others of them.
pub open spec fn complete(layer: Seq<Seq<u32>>, size: nat) -> bool {
    forall|i: int, j: int|
        0 <= i < size && 0 <= j < size && i != j ==> #[trigger] leads(layer, i, j)
}

proof fn lemma_inserted_complete<T: HasDistance>(
    layer: Seq<Seq<u32>>,
    levels: Seq<Seq<Seq<u32>>>,
    above: Seq<T>,
    elements: Seq<T>,
    idx: usize,
    max_search: nat,
)
    requires
        max_search >= 10,
        searchable(levels, above.len()),
        levels.last().len() <= idx,
        idx < layer.len() <= elements.len(),
        layer.len() <= u32::MAX,
        idx <= 32,
        idx <= max_search,
        well_linked(layer, idx as nat),
        complete(layer, idx as nat),
    ensures
        complete(
            inserted(layer, levels, above, elements, idx, max_search),
            (idx + 1) as nat,
        ),
{
    let f = found(layer, levels, above, elements, idx, max_search);
    let x = idx as int;
    let goal = elements[x];
    let e = search_levels(levels, distances_to(above, goal), max_search / 10)[0].0;
    lemma_well_linked_below(layer, idx as nat);
    lemma_found(layer, levels, above, elements, idx, max_search, idx as nat);
    lemma_inserted_with_room(layer, levels, above, elements, idx, max_search);
    lemma_reached_finite(layer, e as int, idx as nat);
    assert(links_below(layer, layer.len())) by {
        assert forall|i: int, k: int|
            0 <= i < layer.len() && 0 <= k < layer[i].len() implies (#[trigger] layer[i][k])
            < layer.len() by {
            assert(layer[i][k] < idx);
        }
    }
    assert forall|j: int| 0 <= j < x implies #[trigger] among(f, f.len(), j) by {
        lemma_reachable_self(layer, e as int);
        if j != e {
            assert(leads(layer, e as int, j));
            lemma_reachable_step(layer, e as int, e as int, j);
        }
        law_search_is_exhaustive(
            layer,
            e,
            distances_to(elements, goal),
            max_search,
            MAX_NEIGHBORS as nat,
            j,
        );
        assert(holds(f, j));
        let k = choose|k: int| 0 <= k < f.len() && (#[trigger] f[k]).0 == j;
        assert(0 <= k < f.len() && f[k].0 == j);
    }
    let after = inserted(layer, levels, above, elements, idx, max_search);
    assert forall|i: int, j: int| 0 <= i < x + 1 && 0 <= j < x + 1 && i != j implies #[trigger] leads(
        after,
        i,
        j,
    ) by {
        if i == x {
            assert(among(f, f.len(), j));
            let k = choose|k: int| 0 <= k < f.len() && (#[trigger] f[k]).0 == j;
            assert(after[x][k] == j);
        } else {
            assert(among(f, f.len(), i));
            assert(after[i] == layer[i].push(idx as u32));
            if j == x {
                assert(after[i][layer[i].len() as int] == j);
            } else {
                assert(leads(layer, i, j));
                let k = choose|k: int| 0 <= k < layer[i].len() && #[trigger] layer[i][k] == j;
                assert(after[i][k] == j);
            }
        }
    }
}

proof fn lemma_range_complete<T: HasDistance>(
    layer: Seq<Seq<u32>>,
    levels: Seq<Seq<Seq<u32>>>,
    above: Seq<T>,
    elements: Seq<T>,
    to: nat,
    max_search: nat,
)
    requires
        max_search >= 10,
        searchable(levels, above.len()),
        levels.last().len() <= layer.len() <= to <= elements.len(),
        elements.len() <= 33,
        elements.len() <= max_search + 1,
        well_linked(extended(layer, elements.len()), layer.len()),
        complete(layer, layer.len()),
    ensures
        ({
            let after = inserted_range(
                extended(layer, elements.len()),
                levels,
                above,
                elements,
                layer.len(),
                to,
                max_search,
            );
            &&& after.len() == elements.len()
            &&& well_linked(after, to)
            &&& complete(after, to)
        }),
    decreases to,
{
    let all = extended(layer, elements.len());
    if to > layer.len() {
        let prior = (to - 1) as nat;
        let idx = (to - 1) as usize;
        lemma_range_complete(layer, levels, above, elements, prior, max_search);
        let before = inserted_range(
            all,
            levels,
            above,
            elements,
            layer.len(),
            prior,
            max_search,
        );
        lemma_inserted_well_linked(before, levels, above, elements, idx, max_search);
        lemma_inserted_complete(before, levels, above, elements, idx, max_search);
    } else {
        assert forall|i: int, j: int|
            0 <= i < layer.len() && 0 <= j < layer.len() && i != j implies #[trigger] leads(
            all,
            i,
            j,
        ) by {
            assert(leads(layer, i, j));
            let k = choose|k: int| 0 <= k < layer[i].len() && #[trigger] layer[i][k] == j;
            assert(all[i][k] == j);
        }
    }
}

/// A layer in which every node lists all the others stays so when it is extended and filled, as long
/// as it has at most one node more than a node can list and than may be kept while neighbours are
/// looked for.
pub proof fn law_small_filled_layer_is_complete<T: HasDistance>(
    layer: Seq<Seq<u32>>,
    levels: Seq<Seq<Seq<u32>>>,
    above: Seq<T>,
    elements: Seq<T>,
    max_search: nat,
)
    requires
        max_search >= 10,
        searchable(levels, above.len()),
        levels.last().len() <= layer.len() <= elements.len(),
        elements.len() <= 33,
        elements.len() <= max_search + 1,
        well_linked(layer, layer.len()),
        complete(layer, layer.len()),
    ensures
        complete(filled(layer, levels, above, elements, max_search), elements.len()),
{
    let all = extended(layer, elements.len());
    assert forall|i: int| 0 <= i < layer.len() implies tidy(
        #[trigger] all[i],
        i,
        layer.len(),
    ) by {
        assert(tidy(layer[i], i, layer.len()));
    }
    lemma_range_complete(layer, levels, above, elements, elements.len(), max_search);
}

/// In an index that is built at once, every node of a layer lists all the others, where the layer has
/// at most one node more than a node can list and than may be kept while neighbours are looked for.
pub proof fn law_small_built_layers_are_complete<T: HasDistance>(
    elements: Seq<T>,
    multiplier: nat,
    max_search: nat,
    count: nat,
)
    requires
        0 < elements.len() < u32::MAX,
        max_search >= 10,
        multiplier > 0,
    ensures
        ({
            let b = built(seq![seq![Seq::empty()]], elements, multiplier, max_search, count);
            forall|l: int|
                0 <= l < b.len() && (#[trigger] b[l]).len() <= 33 && b[l].len() <= max_search + 1
                    ==> complete(b[l], b[l].len())
        }),
    decreases count,
{
    let top: Seq<Seq<Seq<u32>>> = seq![seq![Seq::empty()]];
    let b = built(top, elements, multiplier, max_search, count);
    if count > 0 {
        let prior = (count - 1) as nat;
        law_small_built_layers_are_complete(elements, multiplier, max_search, prior);
        law_built_index(elements, multiplier, max_search, prior);
        let above = built(top, elements, multiplier, max_search, prior);
        lemma_level_size(count, multiplier, elements.len());
        let some = elements.take(level_size(count, multiplier, elements.len()) as int);
        let layer = above[above.len() - 1];
        law_filled_layer_is_well_linked(layer, above, elements, some, max_search);
        if some.len() <= 33 && some.len() <= max_search + 1 {
            assert(layer.len() <= 33);
            law_small_filled_layer_is_complete(layer, above, elements, some, max_search);
        }
        assert forall|l: int|
            0 <= l < b.len() && (#[trigger] b[l]).len() <= 33 && b[l].len() <= max_search
                + 1 implies complete(b[l], b[l].len()) by {
            if l < above.len() {
                assert(b[l] == above[l]);
            }
        }
    }
}

} // verus!
