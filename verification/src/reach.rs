//! What a walk reaches, and what it leaves out.
use vstd::prelude::*;

use crate::distance::Distance;
use crate::heap::lemma_keep_nearest;
use crate::index::{
    entrypoint, lemma_entrypoint, lemma_upper_levels, search_levels, searchable, upper_search,
};
use crate::node::MAX_NEIGHBORS;
use crate::order::{lemma_insert_ranked, nearer, nearest_first};
use crate::search::{
    absent, lemma_across_all_nearest, lemma_across_all_sound, lemma_across_all_visited,
    lemma_advanced_sound, lemma_insert_distinct, lemma_run_sound, lemma_search_results,
    lemma_start_sound, lemma_step_sound, links_below, search_layer, sound, Walk,
};

verus! {

/// Whether node `i` of the layer lists node `j`.
pub open spec fn leads(layer: Seq<Seq<u32>>, i: int, j: int) -> bool {
    0 <= i < layer.len() && exists|k: int| 0 <= k < layer[i].len() && #[trigger] layer[i][k] == j
}

/// Whether links of the layer lead from `a` to `b` in `steps` steps at most.
pub open spec fn within(layer: Seq<Seq<u32>>, a: int, b: int, steps: nat) -> bool
    decreases steps,
{
    if steps == 0 {
        a == b
    } else {
        within(layer, a, b, (steps - 1) as nat) || exists|c: int|
            within(layer, a, c, (steps - 1) as nat) && #[trigger] leads(layer, c, b)
    }
}

/// Whether links of the layer lead from `a` to `b`.
pub open spec fn reachable(layer: Seq<Seq<u32>>, a: int, b: int) -> bool {
    exists|steps: nat| within(layer, a, b, steps)
}

/// The nodes that links of the layer lead to from `a`, and `a` itself.
pub open spec fn reached(layer: Seq<Seq<u32>>, a: int) -> Set<int> {
    Set::new(|b: int| reachable(layer, a, b))
}

/// Links lead from a node to itself.
pub proof fn lemma_reachable_self(layer: Seq<Seq<u32>>, a: int)
    ensures
        reachable(layer, a, a),
{
    assert(within(layer, a, a, 0));
}

/// Where links lead to a node, they lead to its neighbours.
pub proof fn lemma_reachable_step(layer: Seq<Seq<u32>>, a: int, b: int, c: int)
    requires
        reachable(layer, a, b),
        leads(layer, b, c),
    ensures
        reachable(layer, a, c),
{
    let steps = choose|steps: nat| within(layer, a, b, steps);
    assert(within(layer, a, c, steps + 1));
}

/// Where links lead from `a` to `b` and from there to `c`, they lead from `a` to `c`.
pub proof fn lemma_reachable_chain(layer: Seq<Seq<u32>>, a: int, b: int, c: int)
    requires
        reachable(layer, a, b),
        reachable(layer, b, c),
    ensures
        reachable(layer, a, c),
{
    let steps = choose|steps: nat| within(layer, b, c, steps);
    lemma_within_chain(layer, a, b, c, steps);
}

proof fn lemma_within_chain(layer: Seq<Seq<u32>>, a: int, b: int, c: int, steps: nat)
    requires
        reachable(layer, a, b),
        within(layer, b, c, steps),
    ensures
        reachable(layer, a, c),
    decreases steps,
{
    if steps > 0 {
        let prior = (steps - 1) as nat;
        if within(layer, b, c, prior) {
            lemma_within_chain(layer, a, b, c, prior);
        } else {
            let d = choose|d: int| within(layer, b, d, prior) && #[trigger] leads(layer, d, c);
            lemma_within_chain(layer, a, b, d, prior);
            lemma_reachable_step(layer, a, d, c);
        }
    }
}

/// A set that holds a node, and with every node its neighbours, holds all that links lead to.
pub proof fn lemma_closed(layer: Seq<Seq<u32>>, a: int, b: int, s: Set<int>)
    requires
        reachable(layer, a, b),
        s.contains(a),
        forall|i: int, j: int| s.contains(i) && #[trigger] leads(layer, i, j) ==> s.contains(j),
    ensures
        s.contains(b),
{
    let steps = choose|steps: nat| within(layer, a, b, steps);
    lemma_closed_within(layer, a, b, s, steps);
}

proof fn lemma_closed_within(layer: Seq<Seq<u32>>, a: int, b: int, s: Set<int>, steps: nat)
    requires
        within(layer, a, b, steps),
        s.contains(a),
        forall|i: int, j: int| s.contains(i) && #[trigger] leads(layer, i, j) ==> s.contains(j),
    ensures
        s.contains(b),
    decreases steps,
{
    if steps > 0 {
        let prior = (steps - 1) as nat;
        if within(layer, a, b, prior) {
            lemma_closed_within(layer, a, b, s, prior);
        } else {
            let c = choose|c: int| within(layer, a, c, prior) && #[trigger] leads(layer, c, b);
            lemma_closed_within(layer, a, c, s, prior);
        }
    }
}

/// Links below `size` lead to nodes below `size`.
pub proof fn lemma_reachable_below(layer: Seq<Seq<u32>>, a: int, b: int, size: nat)
    requires
        0 <= a < size,
        links_below(layer, size),
        reachable(layer, a, b),
    ensures
        0 <= b < size,
{
    let s = Set::new(|i: int| 0 <= i < size);
    assert forall|i: int, j: int| s.contains(i) && #[trigger] leads(layer, i, j) implies s.contains(
        j,
    ) by {
        let k = choose|k: int| 0 <= k < layer[i].len() && #[trigger] layer[i][k] == j;
        assert(layer[i][k] < size);
    }
    lemma_closed(layer, a, b, s);
}

/// Whether a walk that keeps `max_search` nodes has filled up with nodes that are no farther than
/// `d`.
pub open spec fn beyond(w: Walk, d: Distance, max_search: nat) -> bool {
    w.nearest.len() >= max_search && w.nearest.last().0.order() <= d.order()
}

/// Whether every node that the walk came across is kept, is a candidate, or is no nearer than all
/// that is kept.
pub open spec fn accounted(w: Walk, distances: Seq<Distance>, max_search: nat) -> bool {
    forall|i: usize| #[trigger]
        w.visited.contains(i) ==> !absent(w.nearest, i) || !absent(w.pending, i) || beyond(
            w,
            distances[i as int],
            max_search,
        )
}

/// Whether the walk came across all neighbours of what it keeps.
pub open spec fn explored(w: Walk, layer: Seq<Seq<u32>>) -> bool {
    forall|i: int, k: int|
        0 <= i < w.nearest.len() && 0 <= k < layer[w.nearest[i].1 as int].len()
            ==> w.visited.contains(#[trigger] layer[w.nearest[i].1 as int][k] as usize)
}

/// Whether links of the layer lead from `entrypoint` to all that the walk came across.
pub open spec fn grounded(w: Walk, layer: Seq<Seq<u32>>, entrypoint: usize) -> bool {
    forall|i: usize| #[trigger]
        w.visited.contains(i) ==> reachable(layer, entrypoint as int, i as int)
}

proof fn lemma_advanced_accounted(
    w: Walk,
    distances: Seq<Distance>,
    max_search: nat,
    size: nat,
    steps: nat,
)
    requires
        sound(w, distances, max_search, size, steps),
        !w.finished(max_search),
        accounted(w, distances, max_search),
    ensures
        accounted(w.advanced(max_search), distances, max_search),
{
    let c = w.pending[0];
    let a = w.advanced(max_search);
    let full = w.nearest.len() >= max_search;
    let d = w.nearest.drop_last();
    lemma_keep_nearest(w.nearest, c, max_search);
    assert(absent(w.nearest, c.1));
    if full {
        assert(nearest_first(d));
        assert(absent(d, c.1));
        if nearer(c, w.nearest.last()) {
            lemma_insert_distinct(d, c);
            lemma_insert_ranked(d, c);
            let last = a.nearest.last();
            assert(a.nearest.contains(last));
            if last != c {
                let k = choose|k: int| 0 <= k < d.len() && d[k] == last;
                assert(!nearer(w.nearest[w.nearest.len() - 1], w.nearest[k]));
            }
            assert(last.0.order() <= w.nearest.last().0.order());
        }
        assert(a.nearest.last().0.order() <= w.nearest.last().0.order());
    } else {
        lemma_insert_distinct(w.nearest, c);
    }
    assert forall|i: usize| #[trigger] a.visited.contains(i) implies !absent(a.nearest, i)
        || !absent(a.pending, i) || beyond(a, distances[i as int], max_search) by {
        assert(w.visited.contains(i));
        if !absent(w.nearest, i) {
            if full && nearer(c, w.nearest.last()) {
                let k = choose|k: int| 0 <= k < w.nearest.len() && (#[trigger] w.nearest[k]).1 == i;
                if k < d.len() {
                    assert(d[k].1 == i);
                    assert(!absent(d, i));
                }
            }
        } else if !absent(w.pending, i) {
            let k = choose|k: int| 0 <= k < w.pending.len() && (#[trigger] w.pending[k]).1 == i;
            if k > 0 {
                assert(a.pending[k - 1] == w.pending[k]);
            }
        }
    }
}

proof fn lemma_across_accounted(
    w: Walk,
    neighbors: Seq<u32>,
    distances: Seq<Distance>,
    max_search: nat,
    size: nat,
    steps: nat,
)
    requires
        sound(w, distances, max_search, size, steps),
        forall|k: int| 0 <= k < neighbors.len() ==> (#[trigger] neighbors[k]) < size,
        accounted(w, distances, max_search),
    ensures
        ({
            let a = w.across_all(neighbors, distances, max_search);
            &&& accounted(a, distances, max_search)
            &&& forall|k: int|
                0 <= k < neighbors.len() ==> a.visited.contains(#[trigger] neighbors[k] as usize)
            &&& forall|i: usize| #[trigger]
                a.visited.contains(i) ==> w.visited.contains(i) || neighbors.contains(i as u32) && i
                    <= u32::MAX
        }),
    decreases neighbors.len(),
{
    if neighbors.len() > 0 {
        let rest = neighbors.drop_last();
        let idx = neighbors[neighbors.len() - 1] as usize;
        lemma_across_accounted(w, rest, distances, max_search, size, steps);
        lemma_across_all_sound(w, rest, distances, max_search, size, steps);
        let b = w.across_all(rest, distances, max_search);
        let a = w.across_all(neighbors, distances, max_search);
        if !b.visited.contains(idx) {
            assert(absent(b.pending, idx));
            lemma_insert_distinct(b.pending, (distances[idx as int], idx));
        }
        assert forall|k: int| 0 <= k < neighbors.len() implies a.visited.contains(
            #[trigger] neighbors[k] as usize,
        ) by {
            if k < neighbors.len() - 1 {
                assert(rest[k] == neighbors[k]);
            }
        }
        assert forall|i: usize| #[trigger] a.visited.contains(i) implies w.visited.contains(i)
            || neighbors.contains(i as u32) && i <= u32::MAX by {
            if i == idx {
                assert(neighbors[neighbors.len() - 1] == i as u32);
            } else if !w.visited.contains(i) {
                assert(b.visited.contains(i));
                let k = choose|k: int| 0 <= k < rest.len() && rest[k] == i as u32;
                assert(neighbors[k] == i as u32);
            }
        }
    }
}

/// What a step keeps of what the walk has to show.
proof fn lemma_step_accounted(
    w: Walk,
    layer: Seq<Seq<u32>>,
    distances: Seq<Distance>,
    max_search: nat,
    size: nat,
    steps: nat,
    entrypoint: usize,
)
    requires
        sound(w, distances, max_search, size, steps),
        size <= layer.len(),
        links_below(layer, size),
        !w.finished(max_search),
        accounted(w, distances, max_search),
        explored(w, layer),
        grounded(w, layer, entrypoint),
    ensures
        accounted(w.step(layer, distances, max_search), distances, max_search),
        explored(w.step(layer, distances, max_search), layer),
        grounded(w.step(layer, distances, max_search), layer, entrypoint),
{
    let c = w.pending[0];
    let a = w.advanced(max_search);
    let n = w.step(layer, distances, max_search);
    let neighbors = layer[c.1 as int];
    assert(w.visited.contains(c.1));
    assert forall|k: int| 0 <= k < neighbors.len() implies (#[trigger] neighbors[k]) < size by {
        assert(layer[c.1 as int][k] < size);
    }
    lemma_keep_nearest(w.nearest, c, max_search);
    lemma_advanced_sound(w, distances, max_search, size, steps);
    lemma_advanced_accounted(w, distances, max_search, size, steps);
    lemma_across_accounted(a, neighbors, distances, max_search, size, steps + 1);
    lemma_across_all_nearest(a, neighbors, distances, max_search);
    assert forall|i: int, k: int|
        0 <= i < n.nearest.len() && 0 <= k
            < layer[n.nearest[i].1 as int].len() implies n.visited.contains(
        #[trigger] layer[n.nearest[i].1 as int][k] as usize,
    ) by {
        assert(n.nearest.contains(n.nearest[i]));
        if n.nearest[i] == c {
            assert(neighbors[k] == layer[n.nearest[i].1 as int][k]);
        } else {
            let j = choose|j: int| 0 <= j < w.nearest.len() && w.nearest[j] == n.nearest[i];
            let t = layer[w.nearest[j].1 as int][k] as usize;
            assert(w.visited.contains(t));
            lemma_across_all_visited(a, neighbors, distances, max_search, t);
        }
    }
    assert forall|i: usize| #[trigger] n.visited.contains(i) implies reachable(
        layer,
        entrypoint as int,
        i as int,
    ) by {
        if !w.visited.contains(i) {
            let k = choose|k: int| 0 <= k < neighbors.len() && neighbors[k] == i as u32;
            assert(layer[c.1 as int][k] == i as int);
            assert(leads(layer, c.1 as int, i as int));
            lemma_reachable_step(layer, entrypoint as int, c.1 as int, i as int);
        }
    }
}

proof fn lemma_run_accounted(
    w: Walk,
    layer: Seq<Seq<u32>>,
    distances: Seq<Distance>,
    max_search: nat,
    size: nat,
    steps: nat,
    entrypoint: usize,
    fuel: nat,
)
    requires
        sound(w, distances, max_search, size, steps),
        size <= layer.len(),
        links_below(layer, size),
        w.visited.contains(entrypoint),
        accounted(w, distances, max_search),
        explored(w, layer),
        grounded(w, layer, entrypoint),
    ensures
        ({
            let end = w.run(layer, distances, max_search, fuel);
            &&& end.visited.contains(entrypoint)
            &&& accounted(end, distances, max_search)
            &&& explored(end, layer)
            &&& grounded(end, layer, entrypoint)
        }),
    decreases fuel,
{
    if !(fuel == 0 || w.finished(max_search)) {
        let next = w.step(layer, distances, max_search);
        lemma_step_sound(w, layer, distances, max_search, size, steps);
        lemma_step_accounted(w, layer, distances, max_search, size, steps, entrypoint);
        lemma_across_all_visited(
            w.advanced(max_search),
            layer[w.pending[0].1 as int],
            distances,
            max_search,
            entrypoint,
        );
        lemma_run_accounted(
            next,
            layer,
            distances,
            max_search,
            size,
            steps + 1,
            entrypoint,
            (fuel - 1) as nat,
        );
    }
}

/// How a walk ends that began at `entrypoint` in a layer whose links lead below `size`.
pub proof fn lemma_end(
    layer: Seq<Seq<u32>>,
    entrypoint: usize,
    distances: Seq<Distance>,
    max_search: nat,
    size: nat,
) -> (end: Walk)
    requires
        max_search > 0,
        entrypoint < size <= layer.len() <= distances.len(),
        links_below(layer, size),
    ensures
        end == Walk::start(entrypoint, distances[entrypoint as int]).run(
            layer,
            distances,
            max_search,
            layer.len(),
        ),
        exists|n: nat| #[trigger] sound(end, distances, max_search, size, n),
        end.visited.contains(entrypoint),
        forall|i: usize| #[trigger]
            end.visited.contains(i) ==> !absent(end.nearest, i) || beyond(
                end,
                distances[i as int],
                max_search,
            ),
        explored(end, layer),
        grounded(end, layer, entrypoint),
{
    let start = Walk::start(entrypoint, distances[entrypoint as int]);
    lemma_start_sound(entrypoint, distances, max_search, size);
    lemma_run_sound(start, layer, distances, max_search, size, 0, layer.len());
    assert(start.pending[0].1 == entrypoint);
    assert forall|i: usize| #[trigger] start.visited.contains(i) implies !absent(start.pending, i) by {
        assert(start.pending[0].1 == i);
    }
    lemma_reachable_self(layer, entrypoint as int);
    lemma_run_accounted(
        start,
        layer,
        distances,
        max_search,
        size,
        0,
        entrypoint,
        layer.len(),
    );
    let end = start.run(layer, distances, max_search, layer.len());
    let n = choose|n: nat| #[trigger] sound(end, distances, max_search, size, n);
    assert forall|i: usize| #[trigger] end.visited.contains(i) implies !absent(end.nearest, i)
        || beyond(end, distances[i as int], max_search) by {
        if absent(end.nearest, i) && !absent(end.pending, i) {
            let k = choose|k: int| 0 <= k < end.pending.len() && (#[trigger] end.pending[k]).1 == i;
            if k > 0 {
                assert(!nearer(end.pending[k], end.pending[0]));
            }
        }
    }
    end
}

/// Whether `r` holds the node `idx`.
pub open spec fn holds(r: Seq<(usize, Distance)>, idx: int) -> bool {
    exists|i: int| 0 <= i < r.len() && (#[trigger] r[i]).0 == idx
}

/// The indices of results.
pub open spec fn indices(r: Seq<(usize, Distance)>) -> Seq<int> {
    Seq::new(r.len(), |i: int| r[i].0 as int)
}

/// Numbers below `size` without repetition are no more than `size`.
pub proof fn lemma_few_numbers(s: Seq<int>, size: nat)
    requires
        s.no_duplicates(),
        forall|i: int| 0 <= i < s.len() ==> 0 <= #[trigger] s[i] < size,
    ensures
        s.len() <= size,
{
    s.unique_seq_to_set();
    let range = vstd::set_lib::set_int_range(0, size as int);
    vstd::set_lib::lemma_int_range(0, size as int);
    vstd::set_lib::lemma_len_subset(s.to_set(), range);
}

/// Links below `size` lead to no more than `size` nodes.
pub proof fn lemma_reached_finite(layer: Seq<Seq<u32>>, a: int, size: nat)
    requires
        0 <= a < size,
        links_below(layer, size),
    ensures
        reached(layer, a).finite(),
        reached(layer, a).len() <= size,
{
    let range = vstd::set_lib::set_int_range(0, size as int);
    vstd::set_lib::lemma_int_range(0, size as int);
    assert(reached(layer, a).subset_of(range)) by {
        assert forall|b: int| reached(layer, a).contains(b) implies range.contains(b) by {
            lemma_reachable_below(layer, a, b, size);
        }
    }
    vstd::set_lib::lemma_len_subset(reached(layer, a), range);
}

/// The least of three numbers.
pub open spec fn least(a: nat, b: nat, c: nat) -> nat {
    if a <= b && a <= c {
        a
    } else if b <= c {
        b
    } else {
        c
    }
}

/// What [`law_search_reaches`] says, of a layer whose links lead below `size`.
pub proof fn lemma_search_reaches(
    layer: Seq<Seq<u32>>,
    entrypoint: usize,
    distances: Seq<Distance>,
    max_search: nat,
    max_neighbors: nat,
    size: nat,
)
    requires
        max_search > 0,
        entrypoint < size <= layer.len() <= distances.len(),
        links_below(layer, size),
    ensures
        ({
            let r = search_layer(layer, entrypoint, distances, max_search, max_neighbors);
            &&& reached(layer, entrypoint as int).finite()
            &&& r.len() == least(
                reached(layer, entrypoint as int).len(),
                max_search,
                max_neighbors,
            )
            &&& forall|i: int|
                0 <= i < r.len() ==> reachable(
                    layer,
                    entrypoint as int,
                    (#[trigger] r[i]).0 as int,
                )
            &&& forall|i: int, k: int|
                0 <= i < r.len() && 0 <= k < layer[r[i].0 as int].len() ==> holds(
                    r,
                    #[trigger] layer[r[i].0 as int][k] as int,
                ) || r.last().1.order() <= distances[layer[r[i].0 as int][k] as int].order()
        }),
{
    let r = search_layer(layer, entrypoint, distances, max_search, max_neighbors);
    let e = entrypoint as int;
    let end = lemma_end(layer, entrypoint, distances, max_search, size);
    let n = choose|n: nat| #[trigger] sound(end, distances, max_search, size, n);
    lemma_reached_finite(layer, e, size);
    let all = reached(layer, e);
    let near = Seq::new(end.nearest.len(), |i: int| end.nearest[i].1 as int);
    assert(near.no_duplicates()) by {
        assert forall|a: int, b: int|
            0 <= a < near.len() && 0 <= b < near.len() && a != b implies near[a] != near[b] by {
            if a < b {
                assert(end.nearest[a].1 != end.nearest[b].1);
            } else {
                assert(end.nearest[b].1 != end.nearest[a].1);
            }
        }
    }
    near.unique_seq_to_set();
    assert(near.to_set().subset_of(all)) by {
        assert forall|b: int| near.to_set().contains(b) implies all.contains(b) by {
            let i = choose|i: int| 0 <= i < near.len() && near[i] == b;
            assert(end.visited.contains(end.nearest[i].1));
        }
    }
    vstd::set_lib::lemma_len_subset(near.to_set(), all);
    if end.nearest.len() < max_search {
        let s = near.to_set();
        assert forall|i: usize| #[trigger] end.visited.contains(i) implies s.contains(i as int) by {
            let k = choose|k: int| 0 <= k < end.nearest.len() && (#[trigger] end.nearest[k]).1 == i;
            assert(near[k] == i as int);
        }
        assert forall|i: int, j: int| s.contains(i) && #[trigger] leads(
            layer,
            i,
            j,
        ) implies s.contains(j) by {
            let m = choose|m: int| 0 <= m < near.len() && near[m] == i;
            let k = choose|k: int| 0 <= k < layer[i].len() && #[trigger] layer[i][k] == j;
            assert(end.visited.contains(layer[end.nearest[m].1 as int][k] as usize));
        }
        assert(all.subset_of(s)) by {
            assert forall|b: int| all.contains(b) implies s.contains(b) by {
                lemma_closed(layer, e, b, s);
            }
        }
        vstd::set_lib::lemma_len_subset(all, s);
    }
    assert forall|i: int| 0 <= i < r.len() implies reachable(
        layer,
        e,
        (#[trigger] r[i]).0 as int,
    ) by {
        assert(end.visited.contains(end.nearest[i].1));
    }
    assert forall|i: int, k: int|
        0 <= i < r.len() && 0 <= k < layer[r[i].0 as int].len() implies holds(
        r,
        #[trigger] layer[r[i].0 as int][k] as int,
    ) || r.last().1.order() <= distances[layer[r[i].0 as int][k] as int].order() by {
        let t = layer[end.nearest[i].1 as int][k] as usize;
        assert(end.visited.contains(t));
        let last = r.len() - 1;
        assert(r.last() == (end.nearest[last].1, end.nearest[last].0));
        if !absent(end.nearest, t) {
            let p = choose|p: int| 0 <= p < end.nearest.len() && (#[trigger] end.nearest[p]).1 == t;
            if p < r.len() {
                assert(r[p].0 == t);
            } else {
                assert(!nearer(end.nearest[p], end.nearest[last]));
            }
        } else if last < end.nearest.len() - 1 {
            assert(!nearer(end.nearest[end.nearest.len() - 1], end.nearest[last]));
        }
    }
}

/// Links lead from where a walk began to all that it finds. It finds as many nodes as links lead
/// to, as it may keep or as it may return, whichever is least. And every link of what it finds leads
/// to something else that it finds, or to a node that is no nearer than the last of what it finds.
pub proof fn law_search_reaches(
    layer: Seq<Seq<u32>>,
    entrypoint: usize,
    distances: Seq<Distance>,
    max_search: nat,
    max_neighbors: nat,
)
    requires
        max_search > 0,
        entrypoint < layer.len() <= distances.len(),
        links_below(layer, layer.len()),
    ensures
        ({
            let r = search_layer(layer, entrypoint, distances, max_search, max_neighbors);
            &&& reached(layer, entrypoint as int).finite()
            &&& r.len() == least(
                reached(layer, entrypoint as int).len(),
                max_search,
                max_neighbors,
            )
            &&& forall|i: int|
                0 <= i < r.len() ==> reachable(
                    layer,
                    entrypoint as int,
                    (#[trigger] r[i]).0 as int,
                )
            &&& forall|i: int, k: int|
                0 <= i < r.len() && 0 <= k < layer[r[i].0 as int].len() ==> holds(
                    r,
                    #[trigger] layer[r[i].0 as int][k] as int,
                ) || r.last().1.order() <= distances[layer[r[i].0 as int][k] as int].order()
        }),
{
    lemma_search_reaches(
        layer,
        entrypoint,
        distances,
        max_search,
        max_neighbors,
        layer.len(),
    );
}

/// What [`law_search_reaches`] says holds of a search through a stack of layers, in the bottom
/// layer and from the node where the layers above lead to.
pub proof fn law_index_search_reaches(
    levels: Seq<Seq<Seq<u32>>>,
    distances: Seq<Distance>,
    max_search: nat,
)
    requires
        max_search > 0,
        searchable(levels, distances.len()),
    ensures
        ({
            let r = search_levels(levels, distances, max_search);
            let bottom = levels.last();
            let e = entrypoint(levels.drop_last(), distances, upper_search(max_search)) as int;
            &&& 0 <= e < bottom.len()
            &&& reached(bottom, e).finite()
            &&& r.len() == least(reached(bottom, e).len(), max_search, MAX_NEIGHBORS as nat)
            &&& forall|i: int|
                0 <= i < r.len() ==> reachable(bottom, e, (#[trigger] r[i]).0 as int)
            &&& forall|i: int, k: int|
                0 <= i < r.len() && 0 <= k < bottom[r[i].0 as int].len() ==> holds(
                    r,
                    #[trigger] bottom[r[i].0 as int][k] as int,
                ) || r.last().1.order() <= distances[bottom[r[i].0 as int][k] as int].order()
        }),
{
    lemma_upper_levels(levels, distances.len());
    let upper = levels.drop_last();
    let ms = upper_search(max_search);
    lemma_entrypoint(upper, distances, ms);
    law_search_reaches(
        levels.last(),
        entrypoint(upper, distances, ms),
        distances,
        max_search,
        MAX_NEIGHBORS as nat,
    );
}

/// A walk that may keep and return every node that links lead to finds them all.
pub proof fn law_search_is_exhaustive(
    layer: Seq<Seq<u32>>,
    entrypoint: usize,
    distances: Seq<Distance>,
    max_search: nat,
    max_neighbors: nat,
    b: int,
)
    requires
        max_search > 0,
        entrypoint < layer.len() <= distances.len(),
        links_below(layer, layer.len()),
        reached(layer, entrypoint as int).len() <= max_search,
        reached(layer, entrypoint as int).len() <= max_neighbors,
    ensures
        holds(search_layer(layer, entrypoint, distances, max_search, max_neighbors), b)
            <==> reachable(layer, entrypoint as int, b),
{
    let r = search_layer(layer, entrypoint, distances, max_search, max_neighbors);
    let e = entrypoint as int;
    law_search_reaches(layer, entrypoint, distances, max_search, max_neighbors);
    lemma_search_results(layer, entrypoint, distances, max_search, max_neighbors, layer.len());
    let numbers = indices(r);
    assert(numbers.no_duplicates()) by {
        assert forall|x: int, y: int|
            0 <= x < numbers.len() && 0 <= y < numbers.len() && x != y implies numbers[x]
            != numbers[y] by {
            if x < y {
                assert(r[x].0 != r[y].0);
            } else {
                assert(r[y].0 != r[x].0);
            }
        }
    }
    numbers.unique_seq_to_set();
    let all = reached(layer, e);
    assert(numbers.to_set().subset_of(all)) by {
        assert forall|c: int| numbers.to_set().contains(c) implies all.contains(c) by {
            let i = choose|i: int| 0 <= i < numbers.len() && numbers[i] == c;
            assert(reachable(layer, e, r[i].0 as int));
        }
    }
    vstd::set_lib::lemma_subset_equality(numbers.to_set(), all);
    if reachable(layer, e, b) {
        assert(numbers.to_set().contains(b));
        let i = choose|i: int| 0 <= i < numbers.len() && numbers[i] == b;
        assert(r[i].0 == b);
    }
    if holds(r, b) {
        let i = choose|i: int| 0 <= i < r.len() && (#[trigger] r[i]).0 == b;
        assert(reachable(layer, e, r[i].0 as int));
    }
}

} // verus!
