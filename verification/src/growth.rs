//! What holds of an index as it is built and extended.
use vstd::arithmetic::power::{lemma_pow1, lemma_pow_adds, pow};
use vstd::prelude::*;

use crate::builder::{built, lemma_level_size, level_size};
use crate::distance::{distances_from, distances_to, Distance, HasDistance};
use crate::index::{
    descending, entrypoint, lemma_entrypoint, lemma_push_searchable, lemma_upper_levels,
    search_levels, searchable, upper_search,
};
use crate::link::{
    all_no_worse, connected, divided, extended, filled, found, initialized, inserted,
    inserted_range, law_filled_layer_is_well_linked, lemma_found, lemma_inserted, lemma_linked,
    lemma_well_linked_below, linked, populated, rivals, tidy, turned, well_linked,
};
use crate::node::MAX_NEIGHBORS;
use crate::order::{lemma_ranked, ranked};
use crate::search::{
    lemma_start_sound, lemma_step_sound, lemma_steps_bounded, links_below, search_layer, sound,
    Walk,
};

verus! {

/// A layer that was built stays as it is: whatever is built below it leaves it alone.
pub proof fn law_layers_are_final<T: HasDistance>(
    top: Seq<Seq<Seq<u32>>>,
    elements: Seq<T>,
    multiplier: nat,
    max_search: nat,
    count: nat,
    further: nat,
)
    ensures
        built(top, elements, multiplier, max_search, count).len() == top.len() + count,
        built(top, elements, multiplier, max_search, count + further).take(
            (top.len() + count) as int,
        ) == built(top, elements, multiplier, max_search, count),
    decreases count + further,
{
    let b = built(top, elements, multiplier, max_search, count);
    let c = built(top, elements, multiplier, max_search, count + further);
    if further > 0 {
        let prior = (further - 1) as nat;
        law_layers_are_final(top, elements, multiplier, max_search, count, prior);
        law_layers_are_final(top, elements, multiplier, max_search, count + prior, 0);
        let before = built(top, elements, multiplier, max_search, count + prior);
        assert(c.drop_last() =~= before);
        assert(c.take((top.len() + count) as int) =~= before.take((top.len() + count) as int));
    } else {
        if count > 0 {
            law_layers_are_final(top, elements, multiplier, max_search, (count - 1) as nat, 0);
        }
        assert(c.take((top.len() + count) as int) =~= b);
    }
}

/// Layer `l` of an index that is built at once has as many nodes as the multiplier to the power of
/// `l`, as far as there are elements.
pub proof fn law_level_sizes(l: nat, multiplier: nat, num_elements: nat)
    requires
        multiplier > 0,
        num_elements > 0,
    ensures
        level_size(l, multiplier, num_elements) == (if pow(multiplier as int, l) < num_elements {
            pow(multiplier as int, l)
        } else {
            num_elements as int
        }),
    decreases l,
{
    let m = multiplier as int;
    if l == 0 {
        vstd::arithmetic::power::lemma_pow0(m);
    } else {
        let prior = (l - 1) as nat;
        law_level_sizes(prior, multiplier, num_elements);
        lemma_pow_adds(m, prior, 1);
        lemma_pow1(m);
        let p = pow(m, prior);
        let n = num_elements as int;
        vstd::arithmetic::power::lemma_pow_positive(m, prior);
        assert(pow(m, l) == p * m);
        assert(p * m >= p) by (nonlinear_arith)
            requires
                p > 0,
                m >= 1,
        ;
        assert(n * m >= n) by (nonlinear_arith)
            requires
                n > 0,
                m >= 1,
        ;
    }
}

/// An index that is built at once has all its layers in the sizes that were asked for, each of
/// them well linked and without a node that has no neighbour, but for a layer of a single node. And
/// it can be searched.
pub proof fn law_built_index<T: HasDistance>(
    elements: Seq<T>,
    multiplier: nat,
    max_search: nat,
    count: nat,
)
    requires
        0 < elements.len() < u32::MAX,
        multiplier > 0,
        max_search >= 10,
    ensures
        ({
            let b = built(seq![seq![Seq::empty()]], elements, multiplier, max_search, count);
            &&& b.len() == count + 1
            &&& searchable(b, elements.len())
            &&& forall|l: int|
                0 <= l < b.len() ==> (#[trigger] b[l]).len() == level_size(
                    l as nat,
                    multiplier,
                    elements.len(),
                ) && well_linked(b[l], b[l].len()) && populated(b[l], b[l].len())
        }),
    decreases count,
{
    let top: Seq<Seq<Seq<u32>>> = seq![seq![Seq::empty()]];
    let b = built(top, elements, multiplier, max_search, count);
    if count == 0 {
        assert(tidy(top[0][0], 0, 1));
        assert(well_linked(top[0], 1));
    } else {
        let prior = (count - 1) as nat;
        law_built_index(elements, multiplier, max_search, prior);
        let above = built(top, elements, multiplier, max_search, prior);
        lemma_level_size(count, multiplier, elements.len());
        let some = elements.take(level_size(count, multiplier, elements.len()) as int);
        let layer = above[above.len() - 1];
        law_filled_layer_is_well_linked(layer, above, elements, some, max_search);
        let new = filled(layer, above, elements, some, max_search);
        assert(b == above.push(new));
        lemma_well_linked_below(new, new.len());
        lemma_push_searchable(above, new, elements.len());
    }
}

/// Appending elements leaves all layers but the bottom one as they are. The bottom layer then has
/// a node for every element and is well linked. None of the new nodes is without a neighbour, and
/// the others are linked no worse than before. The index can be searched.
pub proof fn law_appended_index<T: HasDistance>(
    levels: Seq<Seq<Seq<u32>>>,
    elements: Seq<T>,
    max_search: nat,
)
    requires
        levels.len() > 1,
        searchable(levels, elements.len()),
        well_linked(levels.last(), levels.last().len()),
        elements.len() < u32::MAX,
        max_search >= 10,
    ensures
        ({
            let upper = levels.drop_last();
            let after = upper.push(filled(levels.last(), upper, elements, elements, max_search));
            &&& after.len() == levels.len()
            &&& forall|l: int| 0 <= l < levels.len() - 1 ==> #[trigger] after[l] == levels[l]
            &&& after.last().len() == elements.len()
            &&& well_linked(after.last(), elements.len())
            &&& all_no_worse(levels.last(), after.last(), elements)
            &&& forall|i: int|
                levels.last().len() <= i < elements.len() ==> (#[trigger] after.last()[i]).len()
                    > 0
            &&& populated(levels.last(), levels.last().len()) ==> populated(
                after.last(),
                elements.len(),
            )
            &&& searchable(after, elements.len())
        }),
{
    let upper = levels.drop_last();
    lemma_upper_levels(levels, elements.len());
    law_filled_layer_is_well_linked(levels.last(), upper, elements, elements, max_search);
    let new = filled(levels.last(), upper, elements, elements, max_search);
    lemma_well_linked_below(new, new.len());
    lemma_push_searchable(upper, new, elements.len());
}

/// Whether two sequences begin with the same `size` entries.
pub open spec fn agree<A>(a: Seq<A>, b: Seq<A>, size: nat) -> bool {
    &&& size <= a.len()
    &&& size <= b.len()
    &&& forall|i: int| 0 <= i < size ==> #[trigger] a[i] == b[i]
}

proof fn lemma_across_agree(
    w: Walk,
    neighbors: Seq<u32>,
    d1: Seq<Distance>,
    d2: Seq<Distance>,
    max_search: nat,
    size: nat,
)
    requires
        agree(d1, d2, size),
        forall|k: int| 0 <= k < neighbors.len() ==> (#[trigger] neighbors[k]) < size,
    ensures
        w.across_all(neighbors, d1, max_search) == w.across_all(neighbors, d2, max_search),
    decreases neighbors.len(),
{
    if neighbors.len() > 0 {
        lemma_across_agree(w, neighbors.drop_last(), d1, d2, max_search, size);
        let last = neighbors[neighbors.len() - 1];
        assert(d1[last as int] == d2[last as int]);
    }
}

proof fn lemma_run_agree(
    w: Walk,
    l1: Seq<Seq<u32>>,
    l2: Seq<Seq<u32>>,
    d1: Seq<Distance>,
    d2: Seq<Distance>,
    max_search: nat,
    size: nat,
    steps: nat,
    f1: nat,
    f2: nat,
)
    requires
        sound(w, d1, max_search, size, steps),
        agree(l1, l2, size),
        agree(d1, d2, size),
        links_below(l1, size),
        size <= steps + f1,
        size <= steps + f2,
    ensures
        w.run(l1, d1, max_search, f1) == w.run(l2, d2, max_search, f2),
    decreases f1,
{
    lemma_steps_bounded(w, d1, max_search, size, steps);
    if !w.finished(max_search) {
        let c = w.pending[0];
        assert(w.visited.contains(c.1));
        let neighbors = l1[c.1 as int];
        assert(l1[c.1 as int] == l2[c.1 as int]);
        assert forall|k: int| 0 <= k < neighbors.len() implies (#[trigger] neighbors[k])
            < size by {
            assert(l1[c.1 as int][k] < size);
        }
        lemma_across_agree(w.advanced(max_search), neighbors, d1, d2, max_search, size);
        lemma_step_sound(w, l1, d1, max_search, size, steps);
        let next = w.step(l1, d1, max_search);
        assert(next == w.step(l2, d2, max_search));
        lemma_run_agree(
            next,
            l1,
            l2,
            d1,
            d2,
            max_search,
            size,
            steps + 1,
            (f1 - 1) as nat,
            (f2 - 1) as nat,
        );
    }
}

/// A walk depends on the nodes that links lead to alone.
proof fn lemma_search_agree(
    l1: Seq<Seq<u32>>,
    l2: Seq<Seq<u32>>,
    entrypoint: usize,
    d1: Seq<Distance>,
    d2: Seq<Distance>,
    max_search: nat,
    max_neighbors: nat,
    size: nat,
)
    requires
        max_search > 0,
        entrypoint < size,
        agree(l1, l2, size),
        agree(d1, d2, size),
        links_below(l1, size),
    ensures
        search_layer(l1, entrypoint, d1, max_search, max_neighbors) == search_layer(
            l2,
            entrypoint,
            d2,
            max_search,
            max_neighbors,
        ),
{
    lemma_start_sound(entrypoint, d1, max_search, size);
    assert(d1[entrypoint as int] == d2[entrypoint as int]);
    lemma_run_agree(
        Walk::start(entrypoint, d1[entrypoint as int]),
        l1,
        l2,
        d1,
        d2,
        max_search,
        size,
        0,
        l1.len(),
        l2.len(),
    );
}

proof fn lemma_entrypoint_agree(
    layers: Seq<Seq<Seq<u32>>>,
    d1: Seq<Distance>,
    d2: Seq<Distance>,
    max_search: nat,
)
    requires
        max_search > 0,
        descending(layers),
        layers.len() > 0 ==> agree(d1, d2, layers.last().len()),
    ensures
        entrypoint(layers, d1, max_search) == entrypoint(layers, d2, max_search),
    decreases layers.len(),
{
    if layers.len() > 0 {
        lemma_upper_levels(layers, d1.len());
        let upper = layers.drop_last();
        lemma_entrypoint_agree(upper, d1, d2, max_search);
        lemma_entrypoint(upper, d1, max_search);
        lemma_search_agree(
            layers.last(),
            layers.last(),
            entrypoint(upper, d1, max_search),
            d1,
            d2,
            max_search,
            1,
            layers.last().len(),
        );
    }
}

/// A search through a stack of layers depends on the elements that have a node there alone.
proof fn lemma_search_levels_agree(
    levels: Seq<Seq<Seq<u32>>>,
    d1: Seq<Distance>,
    d2: Seq<Distance>,
    max_search: nat,
)
    requires
        max_search > 0,
        searchable(levels, d1.len()),
        agree(d1, d2, levels.last().len()),
    ensures
        search_levels(levels, d1, max_search) == search_levels(levels, d2, max_search),
{
    lemma_upper_levels(levels, d1.len());
    let upper = levels.drop_last();
    let ms = upper_search(max_search);
    lemma_entrypoint_agree(upper, d1, d2, ms);
    lemma_entrypoint(upper, d1, ms);
    lemma_search_agree(
        levels.last(),
        levels.last(),
        entrypoint(upper, d1, ms),
        d1,
        d2,
        max_search,
        MAX_NEIGHBORS as nat,
        levels.last().len(),
    );
}

proof fn lemma_divided_agree(
    candidates: Seq<(usize, Distance)>,
    o1: Seq<Distance>,
    o2: Seq<Distance>,
    max_neighbors: nat,
    size: nat,
)
    requires
        agree(o1, o2, size),
        forall|i: int| 0 <= i < candidates.len() ==> (#[trigger] candidates[i]).0 < size,
    ensures
        divided(candidates, o1, max_neighbors) == divided(candidates, o2, max_neighbors),
    decreases candidates.len(),
{
    if candidates.len() > 0 {
        lemma_divided_agree(candidates.drop_last(), o1, o2, max_neighbors, size);
        let c = candidates[candidates.len() - 1];
        assert(o1[c.0 as int] == o2[c.0 as int]);
    }
}

proof fn lemma_connected_agree(
    node: Seq<u32>,
    o1: Seq<Distance>,
    o2: Seq<Distance>,
    j: usize,
    d: Distance,
    size: nat,
)
    requires
        agree(o1, o2, size),
        j < size,
        forall|k: int| 0 <= k < node.len() ==> (#[trigger] node[k]) < size,
    ensures
        connected(node, o1, j, d) == connected(node, o2, j, d),
{
    let c = rivals(node, o1, j, d);
    assert(c =~= rivals(node, o2, j, d));
    lemma_ranked(c);
    let t = turned(ranked(c));
    assert forall|k: int| 0 <= k < t.len() implies (#[trigger] t[k]).0 < size by {
        let x = ranked(c)[k];
        ranked(c).to_multiset_ensures();
        c.to_multiset_ensures();
        assert(ranked(c).contains(x));
        assert(c.to_multiset().count(x) > 0);
        assert(c.contains(x));
    }
    lemma_divided_agree(t, o1, o2, MAX_NEIGHBORS as nat, size);
}

proof fn lemma_linked_agree<T: HasDistance>(
    l1: Seq<Seq<u32>>,
    l2: Seq<Seq<u32>>,
    e1: Seq<T>,
    e2: Seq<T>,
    idx: usize,
    neighbors: Seq<(usize, Distance)>,
    count: nat,
    size: nat,
)
    requires
        idx < size <= u32::MAX,
        count <= neighbors.len(),
        forall|i: int| 0 <= i < neighbors.len() ==> (#[trigger] neighbors[i]).0 < size,
        agree(l1, l2, size),
        agree(e1, e2, size),
        links_below(l1, size),
    ensures
        agree(
            linked(l1, e1, idx, neighbors, count),
            linked(l2, e2, idx, neighbors, count),
            size,
        ),
    decreases count,
{
    if count > 0 {
        let prior = (count - 1) as nat;
        lemma_linked_agree(l1, l2, e1, e2, idx, neighbors, prior, size);
        lemma_linked(l1, e1, idx, neighbors, prior, size);
        let b1 = linked(l1, e1, idx, neighbors, prior);
        let b2 = linked(l2, e2, idx, neighbors, prior);
        let (n, d) = neighbors[count - 1];
        assert(neighbors[count - 1].0 < size);
        assert(e1[n as int] == e2[n as int]);
        let o1 = distances_from(e1[n as int], e1);
        let o2 = distances_from(e2[n as int], e2);
        assert(b1[n as int] == b2[n as int]);
        let node = b1[n as int];
        assert forall|k: int| 0 <= k < node.len() implies (#[trigger] node[k]) < size by {
            assert(b1[n as int][k] < size);
        }
        assert(agree(o1, o2, size)) by {
            assert forall|i: int| 0 <= i < size implies #[trigger] o1[i] == o2[i] by {
                assert(e1[i] == e2[i]);
            }
        }
        lemma_connected_agree(node, o1, o2, idx, d, size);
        let a1 = linked(l1, e1, idx, neighbors, count);
        let a2 = linked(l2, e2, idx, neighbors, count);
        assert forall|i: int| 0 <= i < size implies #[trigger] a1[i] == a2[i] by {
            if i != n {
                assert(b1[i] == b2[i]);
            }
        }
    }
}

proof fn lemma_distances_agree<T: HasDistance>(e1: Seq<T>, e2: Seq<T>, goal: T, size: nat)
    requires
        agree(e1, e2, size),
    ensures
        agree(distances_to(e1, goal), distances_to(e2, goal), size),
{
    assert forall|i: int| 0 <= i < size implies #[trigger] distances_to(e1, goal)[i]
        == distances_to(e2, goal)[i] by {
        assert(e1[i] == e2[i]);
    }
}

/// Linking in an element depends on it and on earlier elements alone.
proof fn lemma_inserted_agree<T: HasDistance>(
    l1: Seq<Seq<u32>>,
    l2: Seq<Seq<u32>>,
    levels: Seq<Seq<Seq<u32>>>,
    e1: Seq<T>,
    e2: Seq<T>,
    idx: usize,
    max_search: nat,
    size: nat,
)
    requires
        max_search >= 10,
        searchable(levels, size),
        levels.last().len() <= idx < size <= u32::MAX,
        agree(l1, l2, size),
        agree(e1, e2, size),
        links_below(l1, idx as nat),
        l1.len() <= e1.len(),
        l2.len() <= e2.len(),
    ensures
        agree(
            inserted(l1, levels, e1, e1, idx, max_search),
            inserted(l2, levels, e2, e2, idx, max_search),
            size,
        ),
{
    let goal = e1[idx as int];
    assert(e1[idx as int] == e2[idx as int]);
    let bottom = levels.last().len();
    assert(agree(e1, e2, bottom));
    assert(agree(e1, e2, idx as nat));
    assert(agree(l1, l2, idx as nat));
    lemma_distances_agree(e1, e2, goal, bottom);
    lemma_distances_agree(e1, e2, goal, idx as nat);
    let d1 = distances_to(e1, goal);
    let d2 = distances_to(e2, goal);
    assert(searchable(levels, e1.len()));
    lemma_search_levels_agree(levels, d1, d2, max_search / 10);
    lemma_found(l1, levels, e1, e1, idx, max_search, idx as nat);
    let e = search_levels(levels, d1, max_search / 10)[0].0;
    lemma_search_agree(l1, l2, e, d1, d2, max_search, MAX_NEIGHBORS as nat, idx as nat);
    let f = found(l1, levels, e1, e1, idx, max_search);
    let found2 = search_layer(l2, e, d2, max_search, MAX_NEIGHBORS as nat);
    assert(found2 == f);
    assert(found(l2, levels, e2, e2, idx, max_search) == f);
    let f1 = l1.update(idx as int, initialized(f));
    let f2 = l2.update(idx as int, initialized(f));
    assert(agree(f1, f2, size)) by {
        assert forall|i: int| 0 <= i < size implies #[trigger] f1[i] == f2[i] by {
            assert(l1[i] == l2[i]);
        }
    }
    assert forall|i: int, k: int|
        0 <= i < f1.len() && 0 <= k < f1[i].len() implies (#[trigger] f1[i][k]) < size by {
        if i == idx {
            assert(f[k].0 < idx);
        } else {
            assert(l1[i][k] < idx);
        }
    }
    lemma_linked_agree(f1, f2, e1, e2, idx, f, f.len(), size);
}

proof fn lemma_range_agree<T: HasDistance>(
    layer: Seq<Seq<u32>>,
    levels: Seq<Seq<Seq<u32>>>,
    e1: Seq<T>,
    e2: Seq<T>,
    to: nat,
    max_search: nat,
)
    requires
        max_search >= 10,
        searchable(levels, e1.len()),
        levels.last().len() <= layer.len() <= to <= e1.len(),
        e2.len() <= u32::MAX,
        agree(e1, e2, e1.len()),
        links_below(layer, layer.len()),
    ensures
        ({
            let r1 = inserted_range(
                extended(layer, e1.len()),
                levels,
                e1,
                e1,
                layer.len(),
                to,
                max_search,
            );
            let r2 = inserted_range(
                extended(layer, e2.len()),
                levels,
                e2,
                e2,
                layer.len(),
                to,
                max_search,
            );
            &&& r1.len() == e1.len()
            &&& r2.len() == e2.len()
            &&& links_below(r1, to)
            &&& links_below(r2, to)
            &&& agree(r1, r2, e1.len())
            &&& forall|i: int| to <= i < e2.len() ==> (#[trigger] r2[i]).len() == 0
        }),
    decreases to,
{
    let x1 = extended(layer, e1.len());
    let x2 = extended(layer, e2.len());
    if to > layer.len() {
        let prior = (to - 1) as nat;
        let idx = (to - 1) as usize;
        lemma_range_agree(layer, levels, e1, e2, prior, max_search);
        let b1 = inserted_range(x1, levels, e1, e1, layer.len(), prior, max_search);
        let b2 = inserted_range(x2, levels, e2, e2, layer.len(), prior, max_search);
        lemma_inserted(b1, levels, e1, e1, idx, max_search);
        lemma_inserted(b2, levels, e2, e2, idx, max_search);
        lemma_inserted_agree(b1, b2, levels, e1, e2, idx, max_search, e1.len());
        let a2 = inserted_range(x2, levels, e2, e2, layer.len(), to, max_search);
        assert forall|i: int| to <= i < e2.len() implies (#[trigger] a2[i]).len() == 0 by {
            assert(a2[i] == b2[i]);
        }
    } else {
        assert forall|i: int, k: int|
            0 <= i < x1.len() && 0 <= k < x1[i].len() implies (#[trigger] x1[i][k])
            < layer.len() by {
            assert(layer[i][k] < layer.len());
        }
        assert forall|i: int, k: int|
            0 <= i < x2.len() && 0 <= k < x2[i].len() implies (#[trigger] x2[i][k])
            < layer.len() by {
            assert(layer[i][k] < layer.len());
        }
    }
}

/// Inserting a range of elements is inserting its first part and then the rest.
proof fn lemma_range_splits<T: HasDistance>(
    layer: Seq<Seq<u32>>,
    levels: Seq<Seq<Seq<u32>>>,
    above: Seq<T>,
    elements: Seq<T>,
    from: nat,
    middle: nat,
    to: nat,
    max_search: nat,
)
    requires
        from <= middle <= to,
    ensures
        inserted_range(
            inserted_range(layer, levels, above, elements, from, middle, max_search),
            levels,
            above,
            elements,
            middle,
            to,
            max_search,
        ) == inserted_range(layer, levels, above, elements, from, to, max_search),
    decreases to,
{
    if to > middle {
        lemma_range_splits(
            layer,
            levels,
            above,
            elements,
            from,
            middle,
            (to - 1) as nat,
            max_search,
        );
    }
}

/// It does not matter whether elements are appended at once or in parts: first a beginning of
/// them and then all of them gives the same layer as all of them at once.
pub proof fn law_append_in_parts<T: HasDistance>(
    layer: Seq<Seq<u32>>,
    levels: Seq<Seq<Seq<u32>>>,
    elements: Seq<T>,
    part: nat,
    max_search: nat,
)
    requires
        max_search >= 10,
        layer.len() <= part <= elements.len() < u32::MAX,
        searchable(levels, part),
        levels.last().len() <= layer.len(),
        links_below(layer, layer.len()),
    ensures
        ({
            let first = elements.take(part as int);
            filled(
                filled(layer, levels, first, first, max_search),
                levels,
                elements,
                elements,
                max_search,
            ) == filled(layer, levels, elements, elements, max_search)
        }),
{
    let first = elements.take(part as int);
    lemma_range_agree(layer, levels, first, elements, part, max_search);
    let half = filled(layer, levels, first, first, max_search);
    let n = elements.len();
    let same = inserted_range(
        extended(layer, n),
        levels,
        elements,
        elements,
        layer.len(),
        part,
        max_search,
    );
    assert(extended(half, n) =~= same) by {
        assert forall|i: int| 0 <= i < n implies #[trigger] extended(half, n)[i] == same[i] by {
            if i >= part {
                assert(same[i].len() == 0);
                assert(same[i] =~= Seq::empty());
            }
        }
    }
    lemma_range_splits(
        extended(layer, n),
        levels,
        elements,
        elements,
        layer.len(),
        part,
        n,
        max_search,
    );
}

} // verus!
