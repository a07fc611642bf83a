//! A search, told by where it goes.
//!
//! A walk leaves a trail: the nodes that it goes to, one after the other. Nothing but the layer, the
//! distances and how many nodes may be kept decides where it goes next and where it ends, and the
//! trail decides what is found. So there is one trail and one result.
use vstd::prelude::*;

use crate::distance::{distances_to, Distance, HasDistance};
use crate::exact::lemma_one_order;
use crate::heap::{kept, law_heap_keeps_nearest};
use crate::index::{
    descending, entrypoint, lemma_entrypoint, lemma_upper_levels, search_levels, searchable,
    upper_search,
};
use crate::link::lemma_ranked_distinct;
use crate::node::MAX_NEIGHBORS;
use crate::order::{lemma_insert_ranked, lemma_ranked, nearer, nearest_first, rank, ranked};
use crate::reach::{
    indices, law_search_reaches, leads, least, lemma_end, lemma_few_numbers, lemma_reached_finite,
    reached,
};
use crate::search::{
    absent, distinct, lemma_across_all_nearest, lemma_across_all_sound, lemma_advanced_sound,
    lemma_insert_distinct, lemma_search_results, lemma_start_sound, lemma_step_sound,
    lemma_steps_bounded, links_below, results, search_layer, sound,
    Walk,
};

verus! {

/// Whether element `a` comes before element `b`: by distance, and by index where the distances are
/// equal.
pub open spec fn ahead(distances: Seq<Distance>, a: int, b: int) -> bool {
    distances[a].order() < distances[b].order() || (distances[a].order() == distances[b].order()
        && a < b)
}

/// How many of the nodes are at an order of distance of at most `x`.
pub open spec fn within_reach(nodes: Seq<int>, distances: Seq<Distance>, x: int) -> nat
    decreases nodes.len(),
{
    if nodes.len() == 0 {
        0
    } else {
        within_reach(nodes.drop_last(), distances, x) + if distances[nodes.last()].order() <= x {
            1nat
        } else {
            0
        }
    }
}

/// How many of the nodes are no farther than `u`.
pub open spec fn no_farther(nodes: Seq<int>, distances: Seq<Distance>, u: int) -> nat {
    within_reach(nodes, distances, distances[u].order())
}

/// How many of the nodes are nearer than `u`.
pub open spec fn closer(nodes: Seq<int>, distances: Seq<Distance>, u: int) -> nat {
    within_reach(nodes, distances, distances[u].order() - 1)
}

/// Whether node `u` is first listed by node `t` of the trail.
pub open spec fn first_met(layer: Seq<Seq<u32>>, trail: Seq<int>, t: int, u: int) -> bool {
    &&& 0 <= t < trail.len()
    &&& leads(layer, trail[t], u)
    &&& forall|s: int| 0 <= s < t ==> !leads(layer, #[trigger] trail[s], u)
}

/// Whether the walk may still go to node `u`: it has not been there, it has met it, and when it met
/// it first there were fewer than `max_search` nodes on the trail that are no farther.
pub open spec fn waiting(
    layer: Seq<Seq<u32>>,
    trail: Seq<int>,
    distances: Seq<Distance>,
    max_search: nat,
    u: int,
) -> bool {
    &&& !trail.contains(u)
    &&& exists|t: int| #[trigger]
        first_met(layer, trail, t, u) && no_farther(trail.take(t + 1), distances, u) < max_search
}

/// Whether the walk goes on from `past` to node `u`: to the first of all that it may go to, unless
/// `max_search` nodes on the trail are nearer.
pub open spec fn goes_on(
    layer: Seq<Seq<u32>>,
    past: Seq<int>,
    distances: Seq<Distance>,
    max_search: nat,
    u: int,
) -> bool {
    &&& waiting(layer, past, distances, max_search, u)
    &&& forall|v: int| #[trigger]
        waiting(layer, past, distances, max_search, v) && v != u ==> ahead(distances, u, v)
    &&& closer(past, distances, u) < max_search
}

/// Whether `trail` is the trail of a walk from `entrypoint` so far.
pub open spec fn is_trail_so_far(
    layer: Seq<Seq<u32>>,
    entrypoint: int,
    distances: Seq<Distance>,
    max_search: nat,
    trail: Seq<int>,
) -> bool {
    &&& trail.len() > 0 ==> trail[0] == entrypoint
    &&& forall|k: int|
        0 < k < trail.len() ==> #[trigger] goes_on(
            layer,
            trail.take(k),
            distances,
            max_search,
            trail[k],
        )
}

/// Whether `trail` is the trail of a whole walk from `entrypoint`. It ends where `max_search` nodes
/// on it are nearer than all that the walk may still go to.
pub open spec fn is_trail(
    layer: Seq<Seq<u32>>,
    entrypoint: int,
    distances: Seq<Distance>,
    max_search: nat,
    trail: Seq<int>,
) -> bool {
    &&& trail.len() > 0
    &&& is_trail_so_far(layer, entrypoint, distances, max_search, trail)
    &&& forall|v: int| #[trigger]
        waiting(layer, trail, distances, max_search, v) ==> closer(trail, distances, v)
            >= max_search
}

/// Whether `r` lists the first `count` of the nodes with their distances, as they come before each
/// other.
pub open spec fn picks(
    nodes: Seq<int>,
    distances: Seq<Distance>,
    count: nat,
    r: Seq<(usize, Distance)>,
) -> bool {
    &&& r.len() == count
    &&& forall|i: int|
        0 <= i < r.len() ==> nodes.contains((#[trigger] r[i]).0 as int) && r[i].1
            == distances[r[i].0 as int]
    &&& forall|i: int, j: int|
        0 <= i < j < r.len() ==> ahead(
            distances,
            (#[trigger] r[i]).0 as int,
            (#[trigger] r[j]).0 as int,
        )
    &&& forall|u: int, i: int|
        nodes.contains(u) && 0 <= i < r.len() && !(#[trigger] listed_in(r, u)) ==> ahead(
            distances,
            (#[trigger] r[i]).0 as int,
            u,
        )
}

/// Whether `r` lists node `u`.
pub open spec fn listed_in(r: Seq<(usize, Distance)>, u: int) -> bool {
    exists|i: int| 0 <= i < r.len() && (#[trigger] r[i]).0 == u
}

/// Whether `r` is what a walk through the layer finds, where `max_search` nodes are kept and
/// `max_neighbors` are returned at most: the first nodes of its trail.
pub open spec fn finds(
    layer: Seq<Seq<u32>>,
    entrypoint: int,
    distances: Seq<Distance>,
    max_search: nat,
    max_neighbors: nat,
    r: Seq<(usize, Distance)>,
) -> bool {
    exists|trail: Seq<int>| #[trigger]
        is_trail(layer, entrypoint, distances, max_search, trail) && picks(
            trail,
            distances,
            least(trail.len(), max_search, max_neighbors),
            r,
        )
}

/// The nodes as candidates.
pub open spec fn as_candidates(nodes: Seq<int>, distances: Seq<Distance>) -> Seq<(Distance, usize)> {
    Seq::new(nodes.len(), |i: int| (distances[nodes[i]], nodes[i] as usize))
}

/// How many candidates are at an order of distance of at most `x`.
spec fn count(s: Seq<(Distance, usize)>, x: int) -> nat
    decreases s.len(),
{
    if s.len() == 0 {
        0
    } else {
        count(s.drop_last(), x) + if s.last().0.order() <= x {
            1nat
        } else {
            0
        }
    }
}

proof fn lemma_count_nodes(nodes: Seq<int>, distances: Seq<Distance>, x: int)
    ensures
        count(as_candidates(nodes, distances), x) == within_reach(nodes, distances, x),
    decreases nodes.len(),
{
    if nodes.len() > 0 {
        lemma_count_nodes(nodes.drop_last(), distances, x);
        assert(as_candidates(nodes, distances).drop_last() =~= as_candidates(
            nodes.drop_last(),
            distances,
        ));
    }
}

proof fn lemma_count_insert(s: Seq<(Distance, usize)>, p: int, c: (Distance, usize), x: int)
    requires
        0 <= p <= s.len(),
    ensures
        count(s.insert(p, c), x) == count(s, x) + if c.0.order() <= x {
            1nat
        } else {
            0
        },
    decreases s.len(),
{
    let t = s.insert(p, c);
    if p == s.len() {
        assert(t.drop_last() =~= s);
    } else {
        lemma_count_insert(s.drop_last(), p, c, x);
        assert(t.drop_last() =~= s.drop_last().insert(p, c));
        assert(t.last() == s.last());
    }
}

proof fn lemma_count_ranked(s: Seq<(Distance, usize)>, x: int)
    ensures
        count(ranked(s), x) == count(s, x),
    decreases s.len(),
{
    if s.len() > 0 {
        let rest = s.drop_last();
        lemma_count_ranked(rest, x);
        lemma_ranked(rest);
        lemma_insert_ranked(ranked(rest), s.last());
        lemma_count_insert(ranked(rest), rank(ranked(rest), s.last()), s.last(), x);
    }
}

proof fn lemma_count_bound(s: Seq<(Distance, usize)>, x: int)
    ensures
        count(s, x) <= s.len(),
        (forall|i: int| 0 <= i < s.len() ==> (#[trigger] s[i]).0.order() <= x) ==> count(s, x)
            == s.len(),
    decreases s.len(),
{
    if s.len() > 0 {
        lemma_count_bound(s.drop_last(), x);
        if forall|i: int| 0 <= i < s.len() ==> (#[trigger] s[i]).0.order() <= x {
            assert(s[s.len() - 1].0.order() <= x);
            assert forall|i: int| 0 <= i < s.drop_last().len() implies (#[trigger]
            s.drop_last()[i]).0.order() <= x by {
                assert(s[i].0.order() <= x);
            }
        }
    }
}

proof fn lemma_count_sorted(s: Seq<(Distance, usize)>, m: nat, x: int)
    requires
        nearest_first(s),
        m > 0,
    ensures
        count(s, x) >= m <==> s.len() >= m && s[m - 1].0.order() <= x,
    decreases s.len(),
{
    lemma_count_bound(s, x);
    if s.len() > 0 {
        let last = s[s.len() - 1];
        if last.0.order() <= x {
            assert forall|i: int| 0 <= i < s.len() implies (#[trigger] s[i]).0.order() <= x by {
                if i < s.len() - 1 {
                    assert(!nearer(last, s[i]));
                }
            }
        } else {
            assert(nearest_first(s.drop_last()));
            lemma_count_sorted(s.drop_last(), m, x);
        }
    }
}

/// What is kept of a trail says how many of its nodes are within reach.
proof fn lemma_kept_counts(trail: Seq<int>, distances: Seq<Distance>, max_search: nat, x: int)
    requires
        max_search > 0,
    ensures
        ({
            let near = kept(as_candidates(trail, distances), max_search);
            &&& near.len() == (if trail.len() < max_search {
                trail.len()
            } else {
                max_search
            })
            &&& (near.len() >= max_search && near.last().0.order() <= x <==> within_reach(
                trail,
                distances,
                x,
            ) >= max_search)
        }),
{
    let s = as_candidates(trail, distances);
    law_heap_keeps_nearest(s, max_search);
    lemma_ranked(s);
    lemma_count_nodes(trail, distances, x);
    lemma_count_ranked(s, x);
    lemma_count_sorted(ranked(s), max_search, x);
    let near = kept(s, max_search);
    if trail.len() >= max_search {
        assert(near.last() == ranked(s)[max_search - 1]);
    }
}

/// Whether the walk has met node `u`, or began there.
pub open spec fn met(layer: Seq<Seq<u32>>, trail: Seq<int>, entrypoint: int, u: int) -> bool {
    u == entrypoint || exists|t: int|
        0 <= t < trail.len() && leads(layer, #[trigger] trail[t], u)
}

/// How a walk is described by its trail so far.
spec fn follows(
    w: Walk,
    layer: Seq<Seq<u32>>,
    entrypoint: usize,
    distances: Seq<Distance>,
    max_search: nat,
    trail: Seq<int>,
) -> bool {
    &&& is_trail_so_far(layer, entrypoint as int, distances, max_search, trail)
    &&& trail.no_duplicates()
    &&& forall|i: int| 0 <= i < trail.len() ==> 0 <= #[trigger] trail[i] < layer.len() && trail[i]
        <= usize::MAX
    &&& w.nearest == kept(as_candidates(trail, distances), max_search)
    &&& forall|u: usize| #[trigger]
        w.visited.contains(u) <==> met(layer, trail, entrypoint as int, u as int)
    &&& forall|u: usize|
        !(#[trigger] absent(w.pending, u)) <==> (if trail.len() == 0 {
            u == entrypoint
        } else {
            waiting(layer, trail, distances, max_search, u as int)
        })
}

/// The first of the nodes that list `u`.
proof fn lemma_first_met(layer: Seq<Seq<u32>>, trail: Seq<int>, t: int, u: int) -> (first: int)
    requires
        0 <= t < trail.len(),
        leads(layer, trail[t], u),
    ensures
        first <= t,
        first_met(layer, trail, first, u),
    decreases t,
{
    if exists|s: int| 0 <= s < t && leads(layer, #[trigger] trail[s], u) {
        let s = choose|s: int| 0 <= s < t && leads(layer, #[trigger] trail[s], u);
        lemma_first_met(layer, trail, s, u)
    } else {
        t
    }
}

/// What was met stays met where it was when the trail goes on.
proof fn lemma_first_met_later(
    layer: Seq<Seq<u32>>,
    trail: Seq<int>,
    c: int,
    t: int,
    u: int,
)
    ensures
        0 <= t < trail.len() ==> (first_met(layer, trail, t, u) <==> first_met(
            layer,
            trail.push(c),
            t,
            u,
        )) && trail.push(c).take(t + 1) == trail.take(t + 1),
{
    let more = trail.push(c);
    if 0 <= t < trail.len() {
        assert(more.take(t + 1) =~= trail.take(t + 1));
        if first_met(layer, trail, t, u) {
            assert forall|s: int| 0 <= s < t implies !leads(layer, #[trigger] more[s], u) by {
                assert(more[s] == trail[s]);
            }
        }
        if first_met(layer, more, t, u) {
            assert forall|s: int| 0 <= s < t implies !leads(layer, #[trigger] trail[s], u) by {
                assert(more[s] == trail[s]);
            }
        }
    }
}

/// A node is first met once.
proof fn lemma_met_once(layer: Seq<Seq<u32>>, trail: Seq<int>, a: int, b: int, u: int)
    requires
        first_met(layer, trail, a, u),
        first_met(layer, trail, b, u),
    ensures
        a == b,
{
    if a < b {
        assert(!leads(layer, trail[a], u));
    } else if b < a {
        assert(!leads(layer, trail[b], u));
    }
}

/// Every node of a trail was met on it.
proof fn lemma_trail_met(
    layer: Seq<Seq<u32>>,
    entrypoint: int,
    distances: Seq<Distance>,
    max_search: nat,
    trail: Seq<int>,
    k: int,
)
    requires
        is_trail_so_far(layer, entrypoint, distances, max_search, trail),
        0 <= k < trail.len(),
    ensures
        met(layer, trail, entrypoint, trail[k]),
        k > 0 ==> exists|t: int| 0 <= t < k && leads(layer, #[trigger] trail[t], trail[k]),
{
    if k > 0 {
        let past = trail.take(k);
        assert(goes_on(layer, past, distances, max_search, trail[k]));
        let t = choose|t: int| #[trigger]
            first_met(layer, past, t, trail[k]) && no_farther(
                past.take(t + 1),
                distances,
                trail[k],
            ) < max_search;
        assert(past[t] == trail[t]);
    }
}

/// Which nodes become candidates as a walk comes across neighbours.
proof fn lemma_across_all_pending(
    w: Walk,
    neighbors: Seq<u32>,
    distances: Seq<Distance>,
    max_search: nat,
    size: nat,
    steps: nat,
)
    requires
        sound(w, distances, max_search, size, steps),
        forall|k: int| 0 <= k < neighbors.len() ==> (#[trigger] neighbors[k]) < size,
    ensures
        ({
            let a = w.across_all(neighbors, distances, max_search);
            &&& forall|u: usize| #[trigger]
                a.visited.contains(u) <==> w.visited.contains(u) || in_list(neighbors, u as int)
            &&& forall|u: usize|
                !(#[trigger] absent(a.pending, u)) <==> !absent(w.pending, u) || (in_list(
                    neighbors,
                    u as int,
                ) && !w.visited.contains(u) && !(w.nearest.len() >= max_search
                    && w.nearest.last().0.order() <= distances[u as int].order()))
        }),
    decreases neighbors.len(),
{
    if neighbors.len() > 0 {
        let rest = neighbors.drop_last();
        let idx = neighbors[neighbors.len() - 1] as usize;
        lemma_across_all_pending(w, rest, distances, max_search, size, steps);
        lemma_across_all_sound(w, rest, distances, max_search, size, steps);
        lemma_across_all_nearest(w, rest, distances, max_search);
        let b = w.across_all(rest, distances, max_search);
        let a = w.across_all(neighbors, distances, max_search);
        assert(a == b.across(idx, distances[idx as int], max_search));
        assert forall|u: usize| in_list(neighbors, u as int) <==> #[trigger] in_list(rest, u as int)
            || u == idx by {
            if in_list(rest, u as int) {
                let k = choose|k: int| 0 <= k < rest.len() && #[trigger] rest[k] == u as int;
                assert(neighbors[k] == u as int);
            }
            if u == idx {
                assert(neighbors[neighbors.len() - 1] == u as int);
            }
            if in_list(neighbors, u as int) && u != idx {
                let k = choose|k: int|
                    0 <= k < neighbors.len() && #[trigger] neighbors[k] == u as int;
                assert(rest[k] == u as int);
            }
        }
        assert forall|u: usize| #[trigger] a.visited.contains(u) <==> w.visited.contains(u)
            || in_list(neighbors, u as int) by {
            assert(in_list(neighbors, u as int) <==> in_list(rest, u as int) || u == idx);
        }
        if !b.visited.contains(idx) {
            assert(absent(b.pending, idx)) by {
                assert forall|i: int| 0 <= i < b.pending.len() implies (#[trigger]
                b.pending[i]).1 != idx by {
                    assert(b.visited.contains(b.pending[i].1));
                }
            }
            lemma_insert_distinct(b.pending, (distances[idx as int], idx));
        }
        assert forall|u: usize|
            !(#[trigger] absent(a.pending, u)) <==> !absent(w.pending, u) || (in_list(
                neighbors,
                u as int,
            ) && !w.visited.contains(u) && !(w.nearest.len() >= max_search
                && w.nearest.last().0.order() <= distances[u as int].order())) by {
            assert(in_list(neighbors, u as int) <==> in_list(rest, u as int) || u == idx);
            assert(!absent(b.pending, u) <==> !absent(w.pending, u) || (in_list(rest, u as int)
                && !w.visited.contains(u) && !(w.nearest.len() >= max_search
                && w.nearest.last().0.order() <= distances[u as int].order())));
            assert(b.visited.contains(u) <==> w.visited.contains(u) || in_list(rest, u as int));
        }
    } else {
        assert forall|u: usize| !in_list(neighbors, u as int) by {
        }
    }
}

/// Whether the list holds node `u`.
pub open spec fn in_list(list: Seq<u32>, u: int) -> bool {
    exists|k: int| 0 <= k < list.len() && #[trigger] list[k] == u
}

/// A step of a walk is a step of its trail.
proof fn lemma_step_follows(
    w: Walk,
    layer: Seq<Seq<u32>>,
    entrypoint: usize,
    distances: Seq<Distance>,
    max_search: nat,
    size: nat,
    steps: nat,
    trail: Seq<int>,
)
    requires
        sound(w, distances, max_search, size, steps),
        size <= layer.len(),
        links_below(layer, size),
        !w.finished(max_search),
        follows(w, layer, entrypoint, distances, max_search, trail),
    ensures
        follows(
            w.step(layer, distances, max_search),
            layer,
            entrypoint,
            distances,
            max_search,
            trail.push(w.pending[0].1 as int),
        ),
{
    let c = w.pending[0];
    let x = c.1 as int;
    let more = trail.push(x);
    let a = w.advanced(max_search);
    let n = w.step(layer, distances, max_search);
    let neighbors = layer[x];
    assert(w.visited.contains(c.1));
    assert(c.0 == distances[x]);
    assert forall|k: int| 0 <= k < neighbors.len() implies (#[trigger] neighbors[k]) < size by {
        assert(layer[x][k] < size);
    }
    lemma_advanced_sound(w, distances, max_search, size, steps);
    lemma_across_all_pending(a, neighbors, distances, max_search, size, steps + 1);
    lemma_across_all_nearest(a, neighbors, distances, max_search);
    assert(!absent(w.pending, c.1));
    if trail.len() > 0 {
        lemma_goes_on(w, layer, entrypoint, distances, max_search, size, steps, trail);
    }
    assert(!trail.contains(x));
    assert forall|k: int| 0 < k < more.len() implies #[trigger] goes_on(
        layer,
        more.take(k),
        distances,
        max_search,
        more[k],
    ) by {
        assert(more.take(k) =~= trail.take(k));
        if k == trail.len() {
            assert(trail.take(k) =~= trail);
        } else {
            assert(goes_on(layer, trail.take(k), distances, max_search, trail[k]));
        }
    }
    let s = as_candidates(trail, distances);
    let t = as_candidates(more, distances);
    assert(t.drop_last() =~= s);
    assert(t.last() == c);
    assert(n.nearest == kept(t, max_search));
    assert forall|u: usize| #[trigger] n.visited.contains(u) <==> met(
        layer,
        more,
        entrypoint as int,
        u as int,
    ) by {
        lemma_met_more(layer, trail, x, entrypoint as int, u as int);
        assert(in_list(neighbors, u as int) <==> leads(layer, x, u as int));
    }
    assert forall|u: usize| !(#[trigger] absent(n.pending, u)) <==> waiting(
        layer,
        more,
        distances,
        max_search,
        u as int,
    ) by {
        lemma_pending_more(
            w,
            layer,
            entrypoint,
            distances,
            max_search,
            size,
            steps,
            trail,
            u,
        );
    }
}

proof fn lemma_met_more(layer: Seq<Seq<u32>>, trail: Seq<int>, x: int, entrypoint: int, u: int)
    ensures
        met(layer, trail.push(x), entrypoint, u) <==> met(layer, trail, entrypoint, u) || leads(
            layer,
            x,
            u,
        ),
{
    let more = trail.push(x);
    if exists|t: int| 0 <= t < trail.len() && leads(layer, #[trigger] trail[t], u) {
        let t = choose|t: int| 0 <= t < trail.len() && leads(layer, #[trigger] trail[t], u);
        assert(more[t] == trail[t]);
    }
    if leads(layer, x, u) {
        assert(more[trail.len() as int] == x);
    }
    if exists|t: int| 0 <= t < more.len() && leads(layer, #[trigger] more[t], u) {
        let t = choose|t: int| 0 <= t < more.len() && leads(layer, #[trigger] more[t], u);
        if t < trail.len() {
            assert(more[t] == trail[t]);
        }
    }
}

/// The nearest candidate is where the trail goes on.
proof fn lemma_goes_on(
    w: Walk,
    layer: Seq<Seq<u32>>,
    entrypoint: usize,
    distances: Seq<Distance>,
    max_search: nat,
    size: nat,
    steps: nat,
    trail: Seq<int>,
)
    requires
        sound(w, distances, max_search, size, steps),
        size <= layer.len(),
        links_below(layer, size),
        !w.finished(max_search),
        follows(w, layer, entrypoint, distances, max_search, trail),
        trail.len() > 0,
    ensures
        goes_on(layer, trail, distances, max_search, w.pending[0].1 as int),
{
    let c = w.pending[0];
    let x = c.1 as int;
    assert(!absent(w.pending, c.1));
    assert forall|v: int| #[trigger]
        waiting(layer, trail, distances, max_search, v) && v != x implies ahead(
        distances,
        x,
        v,
    ) by {
        let t = choose|t: int| #[trigger]
            first_met(layer, trail, t, v) && no_farther(trail.take(t + 1), distances, v)
                < max_search;
        let k = choose|k: int|
            0 <= k < layer[trail[t]].len() && #[trigger] layer[trail[t]][k] == v;
        let u = v as usize;
        assert(!absent(w.pending, u));
        let i = choose|i: int| 0 <= i < w.pending.len() && (#[trigger] w.pending[i]).1 == u;
        assert(!nearer(w.pending[i], w.pending[0]));
        assert(w.pending[i].0 == distances[v]);
    }
    lemma_kept_counts(trail, distances, max_search, distances[x].order() - 1);
}

/// What the walk may go to after a step.
proof fn lemma_pending_more(
    w: Walk,
    layer: Seq<Seq<u32>>,
    entrypoint: usize,
    distances: Seq<Distance>,
    max_search: nat,
    size: nat,
    steps: nat,
    trail: Seq<int>,
    u: usize,
)
    requires
        sound(w, distances, max_search, size, steps),
        size <= layer.len(),
        links_below(layer, size),
        !w.finished(max_search),
        follows(w, layer, entrypoint, distances, max_search, trail),
    ensures
        !absent(w.step(layer, distances, max_search).pending, u) <==> waiting(
            layer,
            trail.push(w.pending[0].1 as int),
            distances,
            max_search,
            u as int,
        ),
{
    let c = w.pending[0];
    let x = c.1 as int;
    let v = u as int;
    let more = trail.push(x);
    let a = w.advanced(max_search);
    let n = w.step(layer, distances, max_search);
    let neighbors = layer[x];
    let last = trail.len() as int;
    assert(w.visited.contains(c.1));
    assert forall|k: int| 0 <= k < neighbors.len() implies (#[trigger] neighbors[k]) < size by {
        assert(layer[x][k] < size);
    }
    lemma_advanced_sound(w, distances, max_search, size, steps);
    lemma_across_all_pending(a, neighbors, distances, max_search, size, steps + 1);
    assert(!absent(w.pending, c.1));
    assert(in_list(neighbors, v) <==> leads(layer, x, v));
    // the candidates that are left
    assert(!absent(a.pending, u) <==> !absent(w.pending, u) && u != c.1) by {
        if !absent(w.pending, u) && u != c.1 {
            let i = choose|i: int| 0 <= i < w.pending.len() && (#[trigger] w.pending[i]).1 == u;
            assert(a.pending[i - 1] == w.pending[i]);
        }
        if !absent(a.pending, u) {
            let i = choose|i: int| 0 <= i < a.pending.len() && (#[trigger] a.pending[i]).1 == u;
            assert(w.pending[i + 1] == a.pending[i]);
            assert(w.pending[0].1 != w.pending[i + 1].1);
        }
    }
    // what is kept after the step
    let t = as_candidates(more, distances);
    assert(t.drop_last() =~= as_candidates(trail, distances));
    assert(t.last() == c);
    assert(a.nearest == kept(t, max_search));
    lemma_kept_counts(more, distances, max_search, distances[v].order());
    assert(w.visited.contains(u) <==> met(layer, trail, entrypoint as int, v));
    assert(more.contains(v) <==> trail.contains(v) || v == x) by {
        if trail.contains(v) {
            let k = choose|k: int| 0 <= k < trail.len() && trail[k] == v;
            assert(more[k] == v);
        }
        if v == x {
            assert(more[last] == v);
        }
        if more.contains(v) && v != x {
            let k = choose|k: int| 0 <= k < more.len() && more[k] == v;
            assert(trail[k] == v);
        }
    }
    if exists|s: int| 0 <= s < trail.len() && leads(layer, #[trigger] trail[s], v) {
        let s = choose|s: int| 0 <= s < trail.len() && leads(layer, #[trigger] trail[s], v);
        let f = lemma_first_met(layer, trail, s, v);
        lemma_first_met_later(layer, trail, x, f, v);
        assert(waiting(layer, trail, distances, max_search, v) && v != x <==> waiting(
            layer,
            more,
            distances,
            max_search,
            v,
        )) by {
            if waiting(layer, trail, distances, max_search, v) {
                let g = choose|g: int| #[trigger]
                    first_met(layer, trail, g, v) && no_farther(trail.take(g + 1), distances, v)
                        < max_search;
                lemma_met_once(layer, trail, f, g, v);
            }
            if waiting(layer, more, distances, max_search, v) {
                let g = choose|g: int| #[trigger]
                    first_met(layer, more, g, v) && no_farther(more.take(g + 1), distances, v)
                        < max_search;
                lemma_met_once(layer, more, f, g, v);
            }
        }
        assert(met(layer, trail, entrypoint as int, v));
    } else {
        // only now may it have been met
        assert(!waiting(layer, trail, distances, max_search, v)) by {
            if waiting(layer, trail, distances, max_search, v) {
                let g = choose|g: int| #[trigger]
                    first_met(layer, trail, g, v) && no_farther(trail.take(g + 1), distances, v)
                        < max_search;
                assert(leads(layer, trail[g], v));
            }
        }
        if trail.contains(v) {
            let k = choose|k: int| 0 <= k < trail.len() && trail[k] == v;
            lemma_trail_met(layer, entrypoint as int, distances, max_search, trail, k);
        }
        assert(v == x ==> v == entrypoint) by {
            if trail.len() > 0 {
                lemma_goes_on(w, layer, entrypoint, distances, max_search, size, steps, trail);
            }
        }
        assert(more.contains(entrypoint as int)) by {
            assert(more[0] == entrypoint as int);
        }
        assert(more.contains(v) <==> v == entrypoint);
        assert(more.take(last + 1) =~= more);
        assert(first_met(layer, more, last, v) <==> leads(layer, x, v)) by {
            assert forall|s: int| 0 <= s < last implies !leads(layer, #[trigger] more[s], v) by {
                assert(more[s] == trail[s]);
            }
        }
        if waiting(layer, more, distances, max_search, v) {
            let g = choose|g: int| #[trigger]
                first_met(layer, more, g, v) && no_farther(more.take(g + 1), distances, v)
                    < max_search;
            if g < last {
                assert(leads(layer, trail[g], v));
            }
            assert(g == last);
        }
    }
}

/// A walk that is run to its end leaves a whole trail.
proof fn lemma_run_follows(
    w: Walk,
    layer: Seq<Seq<u32>>,
    entrypoint: usize,
    distances: Seq<Distance>,
    max_search: nat,
    size: nat,
    steps: nat,
    fuel: nat,
    trail: Seq<int>,
) -> (whole: Seq<int>)
    requires
        sound(w, distances, max_search, size, steps),
        size <= layer.len(),
        size <= steps + fuel,
        links_below(layer, size),
        follows(w, layer, entrypoint, distances, max_search, trail),
    ensures
        ({
            let end = w.run(layer, distances, max_search, fuel);
            &&& end.finished(max_search)
            &&& follows(end, layer, entrypoint, distances, max_search, whole)
            &&& exists|n: nat| #[trigger] sound(end, distances, max_search, size, n)
            &&& whole.len() >= trail.len()
            &&& !w.finished(max_search) ==> whole.len() > 0
        }),
    decreases fuel,
{
    lemma_steps_bounded(w, distances, max_search, size, steps);
    if fuel == 0 || w.finished(max_search) {
        assert(w.run(layer, distances, max_search, fuel) == w);
        assert(sound(w, distances, max_search, size, steps));
        trail
    } else {
        let next = w.step(layer, distances, max_search);
        lemma_step_sound(w, layer, distances, max_search, size, steps);
        lemma_step_follows(
            w,
            layer,
            entrypoint,
            distances,
            max_search,
            size,
            steps,
            trail,
        );
        assert(w.run(layer, distances, max_search, fuel) == next.run(
            layer,
            distances,
            max_search,
            (fuel - 1) as nat,
        ));
        lemma_run_follows(
            next,
            layer,
            entrypoint,
            distances,
            max_search,
            size,
            steps + 1,
            (fuel - 1) as nat,
            trail.push(w.pending[0].1 as int),
        )
    }
}

/// What [`law_search_finds`] says, of a layer whose links lead below `size`.
pub proof fn lemma_search_finds(
    layer: Seq<Seq<u32>>,
    entrypoint: usize,
    distances: Seq<Distance>,
    max_search: nat,
    max_neighbors: nat,
    size: nat,
)
    requires
        max_search > 0,
        entrypoint < size <= layer.len() <= distances.len(),
        links_below(layer, size),
    ensures
        finds(
            layer,
            entrypoint as int,
            distances,
            max_search,
            max_neighbors,
            search_layer(layer, entrypoint, distances, max_search, max_neighbors),
        ),
{
    let start = Walk::start(entrypoint, distances[entrypoint as int]);
    let none = Seq::<int>::empty();
    lemma_start_sound(entrypoint, distances, max_search, size);
    assert(follows(start, layer, entrypoint, distances, max_search, none)) by {
        assert(as_candidates(none, distances) =~= Seq::empty());
        assert forall|u: usize| !(#[trigger] absent(start.pending, u)) <==> u == entrypoint by {
            assert(start.pending[0].1 == entrypoint);
        }
    }
    let trail = lemma_run_follows(
        start,
        layer,
        entrypoint,
        distances,
        max_search,
        size,
        0,
        layer.len(),
        none,
    );
    let end = start.run(layer, distances, max_search, layer.len());
    let n = choose|n: nat| #[trigger] sound(end, distances, max_search, size, n);
    assert(is_trail(layer, entrypoint as int, distances, max_search, trail)) by {
        assert forall|v: int| #[trigger] waiting(
            layer,
            trail,
            distances,
            max_search,
            v,
        ) implies closer(trail, distances, v) >= max_search by {
            let t = choose|t: int| #[trigger]
                first_met(layer, trail, t, v) && no_farther(trail.take(t + 1), distances, v)
                    < max_search;
            let k = choose|k: int|
                0 <= k < layer[trail[t]].len() && #[trigger] layer[trail[t]][k] == v;
            let u = v as usize;
            assert(!absent(end.pending, u));
            let i = choose|i: int| 0 <= i < end.pending.len() && (#[trigger] end.pending[i]).1 == u;
            if i > 0 {
                assert(!nearer(end.pending[i], end.pending[0]));
            }
            assert(end.pending[i].0 == distances[v]);
            lemma_kept_counts(trail, distances, max_search, distances[v].order() - 1);
        }
    }
    let r = search_layer(layer, entrypoint, distances, max_search, max_neighbors);
    lemma_picked(trail, distances, max_search, max_neighbors, r);
}

/// The first of what is kept of a trail are its first nodes.
proof fn lemma_picked(
    trail: Seq<int>,
    distances: Seq<Distance>,
    max_search: nat,
    max_neighbors: nat,
    r: Seq<(usize, Distance)>,
)
    requires
        max_search > 0,
        trail.no_duplicates(),
        forall|i: int| 0 <= i < trail.len() ==> 0 <= #[trigger] trail[i] <= usize::MAX,
        r == results(
            kept(as_candidates(trail, distances), max_search),
            max_neighbors,
        ),
    ensures
        picks(trail, distances, least(trail.len(), max_search, max_neighbors), r),
{
    let s = as_candidates(trail, distances);
    law_heap_keeps_nearest(s, max_search);
    lemma_ranked(s);
    let all = ranked(s);
    s.to_multiset_ensures();
    all.to_multiset_ensures();
    assert(distinct(s)) by {
        assert forall|i: int, j: int| 0 <= i < j < s.len() implies (#[trigger] s[i]).1
            != (#[trigger] s[j]).1 by {
            assert(trail[i] != trail[j]);
        }
    }
    lemma_ranked_distinct(s);
    assert forall|p: int| 0 <= p < all.len() implies trail.contains((#[trigger] all[p]).1 as int)
        && all[p].0 == distances[all[p].1 as int] by {
        assert(all.contains(all[p]));
        assert(s.to_multiset().count(all[p]) > 0);
        assert(s.contains(all[p]));
        let i = choose|i: int| 0 <= i < s.len() && s[i] == all[p];
        assert(trail[i] == all[p].1 as int);
    }
    assert forall|p: int, q: int| 0 <= p < q < all.len() implies ahead(
        distances,
        (#[trigger] all[p]).1 as int,
        (#[trigger] all[q]).1 as int,
    ) by {
        assert(!nearer(all[q], all[p]));
        assert(all[p].1 != all[q].1);
    }
    assert forall|i: int| 0 <= i < r.len() implies #[trigger] r[i] == (all[i].1, all[i].0) by {
    }
    assert forall|i: int, j: int| 0 <= i < j < r.len() implies ahead(
        distances,
        (#[trigger] r[i]).0 as int,
        (#[trigger] r[j]).0 as int,
    ) by {
        assert(ahead(distances, all[i].1 as int, all[j].1 as int));
    }
    assert forall|u: int, i: int|
        trail.contains(u) && 0 <= i < r.len() && !(#[trigger] listed_in(r, u)) implies ahead(
        distances,
        (#[trigger] r[i]).0 as int,
        u,
    ) by {
        let k = choose|k: int| 0 <= k < trail.len() && trail[k] == u;
        assert(s.contains(s[k]));
        assert(all.to_multiset().count(s[k]) > 0);
        assert(all.contains(s[k]));
        let p = choose|p: int| 0 <= p < all.len() && all[p] == s[k];
        if p < r.len() {
            assert(r[p].0 == u);
        } else {
            assert(ahead(distances, all[i].1 as int, all[p].1 as int));
        }
    }
}

/// What a walk through a layer finds is decided by its trail. It begins at the entry point, and each
/// time goes to the first of the nodes that it met and did not pass over. It passes over a node that
/// is no nearer than `max_search` nodes of the trail when it is met. It ends where as many are nearer
/// than all that is left. The first nodes of the trail are found, as many as may be kept and
/// returned.
pub proof fn law_search_finds(
    layer: Seq<Seq<u32>>,
    entrypoint: usize,
    distances: Seq<Distance>,
    max_search: nat,
    max_neighbors: nat,
)
    requires
        max_search > 0,
        entrypoint < layer.len() <= distances.len(),
        links_below(layer, layer.len()),
    ensures
        finds(
            layer,
            entrypoint as int,
            distances,
            max_search,
            max_neighbors,
            search_layer(layer, entrypoint, distances, max_search, max_neighbors),
        ),
{
    lemma_search_finds(layer, entrypoint, distances, max_search, max_neighbors, layer.len());
}

/// A walk has one trail.
pub proof fn law_one_trail(
    layer: Seq<Seq<u32>>,
    entrypoint: int,
    distances: Seq<Distance>,
    max_search: nat,
    a: Seq<int>,
    b: Seq<int>,
)
    requires
        is_trail(layer, entrypoint, distances, max_search, a),
        is_trail(layer, entrypoint, distances, max_search, b),
    ensures
        a == b,
{
    let shorter = if a.len() <= b.len() {
        a.len()
    } else {
        b.len()
    };
    lemma_trails_agree(layer, entrypoint, distances, max_search, a, b, shorter);
    if a.len() < b.len() {
        assert(goes_on(layer, b.take(a.len() as int), distances, max_search, b[a.len() as int]));
        assert(b.take(a.len() as int) =~= a);
        assert(closer(a, distances, b[a.len() as int]) >= max_search);
    } else if b.len() < a.len() {
        assert(goes_on(layer, a.take(b.len() as int), distances, max_search, a[b.len() as int]));
        assert(a.take(b.len() as int) =~= b);
        assert(closer(b, distances, a[b.len() as int]) >= max_search);
    }
    assert(a =~= b);
}

proof fn lemma_trails_agree(
    layer: Seq<Seq<u32>>,
    entrypoint: int,
    distances: Seq<Distance>,
    max_search: nat,
    a: Seq<int>,
    b: Seq<int>,
    k: nat,
)
    requires
        is_trail_so_far(layer, entrypoint, distances, max_search, a),
        is_trail_so_far(layer, entrypoint, distances, max_search, b),
        k <= a.len(),
        k <= b.len(),
    ensures
        forall|i: int| 0 <= i < k ==> #[trigger] a[i] == b[i],
    decreases k,
{
    if k > 0 {
        lemma_trails_agree(layer, entrypoint, distances, max_search, a, b, (k - 1) as nat);
        if k > 1 {
            let p = k - 1;
            assert(a.take(p) =~= b.take(p));
            assert(goes_on(layer, a.take(p), distances, max_search, a[p]));
            assert(goes_on(layer, b.take(p), distances, max_search, b[p]));
            if a[p] != b[p] {
                assert(ahead(distances, a[p], b[p]));
                assert(ahead(distances, b[p], a[p]));
            }
        }
    }
}

/// A walk has one result.
pub proof fn law_one_result(
    layer: Seq<Seq<u32>>,
    entrypoint: int,
    distances: Seq<Distance>,
    max_search: nat,
    max_neighbors: nat,
    a: Seq<(usize, Distance)>,
    b: Seq<(usize, Distance)>,
)
    requires
        finds(layer, entrypoint, distances, max_search, max_neighbors, a),
        finds(layer, entrypoint, distances, max_search, max_neighbors, b),
    ensures
        a == b,
{
    let s = choose|s: Seq<int>| #[trigger]
        is_trail(layer, entrypoint, distances, max_search, s) && picks(
            s,
            distances,
            least(s.len(), max_search, max_neighbors),
            a,
        );
    let t = choose|t: Seq<int>| #[trigger]
        is_trail(layer, entrypoint, distances, max_search, t) && picks(
            t,
            distances,
            least(t.len(), max_search, max_neighbors),
            b,
        );
    law_one_trail(layer, entrypoint, distances, max_search, s, t);
    lemma_one_pick(s, distances, least(s.len(), max_search, max_neighbors), a, b);
}

proof fn lemma_pick_set(
    nodes: Seq<int>,
    distances: Seq<Distance>,
    count: nat,
    a: Seq<(usize, Distance)>,
)
    requires
        picks(nodes, distances, count, a),
    ensures
        indices(a).no_duplicates(),
        indices(a).to_set().finite(),
        indices(a).to_set().len() == count,
        forall|u: int| #[trigger] indices(a).to_set().contains(u) <==> listed_in(a, u),
{
    let s = indices(a);
    assert forall|x: int, y: int|
        0 <= x < s.len() && 0 <= y < s.len() && x != y implies s[x] != s[y] by {
        if x < y {
            assert(ahead(distances, a[x].0 as int, a[y].0 as int));
        } else {
            assert(ahead(distances, a[y].0 as int, a[x].0 as int));
        }
    }
    s.unique_seq_to_set();
    assert forall|u: int| #[trigger] s.to_set().contains(u) <==> listed_in(a, u) by {
        if s.contains(u) {
            let i = choose|i: int| 0 <= i < s.len() && s[i] == u;
            assert(a[i].0 == u);
        }
        if listed_in(a, u) {
            let i = choose|i: int| 0 <= i < a.len() && (#[trigger] a[i]).0 == u;
            assert(s[i] == u);
        }
    }
}

/// What is left out of one pick is in no other.
proof fn lemma_pick_covers(
    nodes: Seq<int>,
    distances: Seq<Distance>,
    count: nat,
    a: Seq<(usize, Distance)>,
    b: Seq<(usize, Distance)>,
)
    requires
        picks(nodes, distances, count, a),
        picks(nodes, distances, count, b),
    ensures
        indices(a).to_set() == indices(b).to_set(),
{
    lemma_pick_set(nodes, distances, count, a);
    lemma_pick_set(nodes, distances, count, b);
    let x = indices(a).to_set();
    let y = indices(b).to_set();
    if x.subset_of(y) {
        vstd::set_lib::lemma_subset_equality(x, y);
    } else {
        let u = choose|u: int| x.contains(u) && !y.contains(u);
        assert(listed_in(a, u) && !listed_in(b, u));
        let i = choose|i: int| 0 <= i < a.len() && (#[trigger] a[i]).0 == u;
        assert forall|v: int| y.contains(v) implies x.contains(v) by {
            assert(listed_in(b, v));
            let j = choose|j: int| 0 <= j < b.len() && (#[trigger] b[j]).0 == v;
            assert(nodes.contains(u) && nodes.contains(v));
            assert(ahead(distances, b[j].0 as int, u));
            if !listed_in(a, v) {
                assert(ahead(distances, a[i].0 as int, v));
            }
        }
        assert(y.subset_of(x));
        vstd::set_lib::lemma_subset_equality(y, x);
    }
}

proof fn lemma_one_pick(
    nodes: Seq<int>,
    distances: Seq<Distance>,
    count: nat,
    a: Seq<(usize, Distance)>,
    b: Seq<(usize, Distance)>,
)
    requires
        picks(nodes, distances, count, a),
        picks(nodes, distances, count, b),
    ensures
        a == b,
{
    lemma_pick_covers(nodes, distances, count, a, b);
    lemma_pick_set(nodes, distances, count, a);
    lemma_pick_set(nodes, distances, count, b);
    let x = Seq::new(a.len(), |i: int| (a[i].1, a[i].0));
    let y = Seq::new(b.len(), |i: int| (b[i].1, b[i].0));
    assert forall|i: int, j: int| 0 <= i < j < x.len() implies nearer(
        #[trigger] x[i],
        #[trigger] x[j],
    ) by {
        assert(ahead(distances, a[i].0 as int, a[j].0 as int));
    }
    assert forall|i: int, j: int| 0 <= i < j < y.len() implies nearer(
        #[trigger] y[i],
        #[trigger] y[j],
    ) by {
        assert(ahead(distances, b[i].0 as int, b[j].0 as int));
    }
    assert forall|c: (Distance, usize)| #[trigger] x.contains(c) <==> y.contains(c) by {
        if x.contains(c) {
            let i = choose|i: int| 0 <= i < x.len() && x[i] == c;
            assert(a[i].0 == c.1);
            assert(listed_in(a, c.1 as int));
            assert(indices(a).to_set().contains(c.1 as int));
            assert(listed_in(b, c.1 as int));
            let j = choose|j: int| 0 <= j < b.len() && (#[trigger] b[j]).0 == c.1 as int;
            assert(y[j] == c);
        }
        if y.contains(c) {
            let i = choose|i: int| 0 <= i < y.len() && y[i] == c;
            assert(b[i].0 == c.1);
            assert(listed_in(b, c.1 as int));
            assert(indices(b).to_set().contains(c.1 as int));
            assert(listed_in(a, c.1 as int));
            let j = choose|j: int| 0 <= j < a.len() && (#[trigger] a[j]).0 == c.1 as int;
            assert(x[j] == c);
        }
    }
    lemma_one_order(x, y);
    assert forall|i: int| 0 <= i < a.len() implies #[trigger] a[i] == b[i] by {
        assert(x[i] == y[i]);
    }
    assert(a =~= b);
}

/// Whether `path` are the entry points of all layers on the way down, and where the layers lead to:
/// it begins at node 0, and goes on each time to the first node that a walk finds which keeps
/// `breadth` nodes.
pub open spec fn descends(
    layers: Seq<Seq<Seq<u32>>>,
    distances: Seq<Distance>,
    breadth: nat,
    path: Seq<usize>,
) -> bool {
    &&& path.len() == layers.len() + 1
    &&& path[0] == 0
    &&& forall|l: int|
        0 <= l < layers.len() ==> finds(
            #[trigger] layers[l],
            path[l] as int,
            distances,
            breadth,
            1,
            seq![(path[l + 1], distances[path[l + 1] as int])],
        )
}

/// The entry point of the layer below is where the layers lead to.
pub proof fn law_entrypoint_descends(
    layers: Seq<Seq<Seq<u32>>>,
    distances: Seq<Distance>,
    max_search: nat,
) -> (path: Seq<usize>)
    requires
        max_search > 0,
        descending(layers),
        layers.len() > 0 ==> layers.last().len() <= distances.len(),
    ensures
        descends(layers, distances, max_search, path),
        path.last() == entrypoint(layers, distances, max_search),
    decreases layers.len(),
{
    if layers.len() == 0 {
        seq![0usize]
    } else {
        lemma_upper_levels(layers, distances.len());
        let upper = layers.drop_last();
        let bottom = layers.last();
        let before = law_entrypoint_descends(upper, distances, max_search);
        lemma_entrypoint(upper, distances, max_search);
        let e = entrypoint(upper, distances, max_search);
        let r = search_layer(bottom, e, distances, max_search, 1);
        lemma_search_results(bottom, e, distances, max_search, 1, bottom.len());
        law_search_finds(bottom, e, distances, max_search, 1);
        let path = before.push(r[0].0);
        assert(r =~= seq![(r[0].0, distances[r[0].0 as int])]);
        assert forall|l: int| 0 <= l < layers.len() implies finds(
            #[trigger] layers[l],
            path[l] as int,
            distances,
            max_search,
            1,
            seq![(path[l + 1], distances[path[l + 1] as int])],
        ) by {
            if l < upper.len() {
                assert(upper[l] == layers[l]);
                assert(path[l] == before[l]);
                assert(path[l + 1] == before[l + 1]);
            } else {
                assert(path[l] == e);
                assert(path[l + 1] == r[0].0);
            }
        }
        path
    }
}

/// Whether `r` is what a search through the whole stack finds: on the way down walks keep a fiftieth
/// of `max_search` nodes, or 50 where that is more, and in the bottom layer `max_search` of them, of
/// which 32 are returned at most.
pub open spec fn stack_finds(
    levels: Seq<Seq<Seq<u32>>>,
    distances: Seq<Distance>,
    max_search: nat,
    r: Seq<(usize, Distance)>,
) -> bool {
    let breadth: nat = if max_search / 50 < 50 {
        50
    } else {
        max_search / 50
    };
    exists|path: Seq<usize>|
        descends(levels.drop_last(), distances, breadth, path) && finds(
            levels.last(),
            (#[trigger] path.last()) as int,
            distances,
            max_search,
            32,
            r,
        )
}

/// A search through a stack of layers over elements finds what its walks lead to, with the
/// distances from the elements to the goal.
pub proof fn law_stack_finds<T: HasDistance>(
    levels: Seq<Seq<Seq<u32>>>,
    elements: Seq<T>,
    goal: T,
    max_search: nat,
)
    requires
        max_search > 0,
        searchable(levels, elements.len()),
    ensures
        stack_finds(
            levels,
            Seq::new(elements.len(), |i: int| elements[i].spec_dist(&goal)),
            max_search,
            search_levels(levels, distances_to(elements, goal), max_search),
        ),
{
    let distances = Seq::new(elements.len(), |i: int| elements[i].spec_dist(&goal));
    assert(distances_to(elements, goal) =~= distances);
    lemma_upper_levels(levels, elements.len());
    let upper = levels.drop_last();
    let ms = upper_search(max_search);
    let path = law_entrypoint_descends(upper, distances, ms);
    lemma_entrypoint(upper, distances, ms);
    law_search_finds(
        levels.last(),
        entrypoint(upper, distances, ms),
        distances,
        max_search,
        MAX_NEIGHBORS as nat,
    );
}

/// A search through a stack of layers has one result.
pub proof fn law_one_stack_result(
    levels: Seq<Seq<Seq<u32>>>,
    distances: Seq<Distance>,
    max_search: nat,
    a: Seq<(usize, Distance)>,
    b: Seq<(usize, Distance)>,
)
    requires
        stack_finds(levels, distances, max_search, a),
        stack_finds(levels, distances, max_search, b),
    ensures
        a == b,
{
    let upper = levels.drop_last();
    let breadth: nat = if max_search / 50 < 50 {
        50
    } else {
        max_search / 50
    };
    let p = choose|p: Seq<usize>|
        descends(upper, distances, breadth, p) && finds(
            levels.last(),
            (#[trigger] p.last()) as int,
            distances,
            max_search,
            32,
            a,
        );
    let q = choose|q: Seq<usize>|
        descends(upper, distances, breadth, q) && finds(
            levels.last(),
            (#[trigger] q.last()) as int,
            distances,
            max_search,
            32,
            b,
        );
    lemma_one_path(upper, distances, breadth, p, q, upper.len());
    law_one_result(levels.last(), p.last() as int, distances, max_search, 32, a, b);
}

proof fn lemma_one_path(
    layers: Seq<Seq<Seq<u32>>>,
    distances: Seq<Distance>,
    breadth: nat,
    p: Seq<usize>,
    q: Seq<usize>,
    l: nat,
)
    requires
        descends(layers, distances, breadth, p),
        descends(layers, distances, breadth, q),
        l <= layers.len(),
    ensures
        p[l as int] == q[l as int],
    decreases l,
{
    if l > 0 {
        let k = l - 1;
        lemma_one_path(layers, distances, breadth, p, q, k as nat);
        let a = seq![(p[k + 1], distances[p[k + 1] as int])];
        let b = seq![(q[k + 1], distances[q[k + 1] as int])];
        assert(finds(layers[k], p[k] as int, distances, breadth, 1, a));
        assert(finds(layers[k], q[k] as int, distances, breadth, 1, b));
        law_one_result(layers[k], p[k] as int, distances, breadth, 1, a, b);
        assert(a[0] == b[0]);
    }
}

/// Whether the nodes are what a walk from `entrypoint` that keeps `max_search` nodes ends with:
/// different nodes that links lead to, as many as there are or as may be kept, and every link of one
/// of them leads to another of them or to a node that is no nearer than any of them.
pub open spec fn settles_on(
    layer: Seq<Seq<u32>>,
    entrypoint: int,
    distances: Seq<Distance>,
    max_search: nat,
    nodes: Seq<int>,
) -> bool {
    let all = reached(layer, entrypoint);
    &&& all.finite()
    &&& nodes.no_duplicates()
    &&& nodes.len() == (if all.len() < max_search {
        all.len()
    } else {
        max_search
    })
    &&& forall|i: int| 0 <= i < nodes.len() ==> all.contains(#[trigger] nodes[i])
    &&& forall|i: int, j: int, u: int|
        0 <= i < nodes.len() && 0 <= j < nodes.len() && #[trigger] leads(layer, nodes[i], u)
            && !nodes.contains(u) ==> (#[trigger] distances[nodes[j]]).order()
            <= distances[u].order()
}

/// However many nodes a layer has, a walk that keeps `max_search` nodes ends with as many, where
/// links lead to so many, and none of their links leads to a nearer node that it left out. The first
/// of these nodes are found.
pub proof fn law_search_settles(
    layer: Seq<Seq<u32>>,
    entrypoint: usize,
    distances: Seq<Distance>,
    max_search: nat,
    max_neighbors: nat,
) -> (nodes: Seq<int>)
    requires
        max_search > 0,
        entrypoint < layer.len() <= distances.len(),
        links_below(layer, layer.len()),
    ensures
        settles_on(layer, entrypoint as int, distances, max_search, nodes),
        picks(
            nodes,
            distances,
            if nodes.len() < max_neighbors {
                nodes.len()
            } else {
                max_neighbors
            },
            search_layer(layer, entrypoint, distances, max_search, max_neighbors),
        ),
{
    let n = layer.len();
    let most = search_layer(layer, entrypoint, distances, max_search, n);
    let e = entrypoint as int;
    let end = lemma_end(layer, entrypoint, distances, max_search, n);
    law_search_reaches(layer, entrypoint, distances, max_search, n);
    law_search_reaches(layer, entrypoint, distances, max_search, max_neighbors);
    lemma_reached_finite(layer, e, n);
    let steps = choose|steps: nat| #[trigger] sound(end, distances, max_search, n, steps);
    let near = Seq::new(end.nearest.len(), |i: int| end.nearest[i].1 as int);
    let r = search_layer(layer, entrypoint, distances, max_search, max_neighbors);
    assert(near.no_duplicates()) by {
        assert forall|a: int, b: int|
            0 <= a < near.len() && 0 <= b < near.len() && a != b implies near[a] != near[b] by {
            if a < b {
                assert(end.nearest[a].1 != end.nearest[b].1);
            } else {
                assert(end.nearest[b].1 != end.nearest[a].1);
            }
        }
    }
    assert forall|i: int| 0 <= i < near.len() implies reached(layer, e).contains(
        #[trigger] near[i],
    ) && 0 <= near[i] < n by {
        assert(end.visited.contains(end.nearest[i].1));
    }
    lemma_few_numbers(near, n);
    assert(most.len() == near.len());
    assert forall|i: int, j: int, u: int|
        0 <= i < near.len() && 0 <= j < near.len() && #[trigger] leads(layer, near[i], u)
            && !near.contains(u) implies (#[trigger] distances[near[j]]).order()
        <= distances[u].order() by {
        let k = choose|k: int| 0 <= k < layer[near[i]].len() && #[trigger] layer[near[i]][k] == u;
        let t = layer[end.nearest[i].1 as int][k] as usize;
        assert(end.visited.contains(t));
        if !absent(end.nearest, t) {
            let p = choose|p: int| 0 <= p < end.nearest.len() && (#[trigger] end.nearest[p]).1 == t;
            assert(near[p] == u);
        }
        let last = end.nearest.len() - 1;
        if j < last {
            assert(!nearer(end.nearest[last], end.nearest[j]));
        }
        assert(end.nearest[j].0 == distances[near[j]]);
    }
    assert forall|i: int| 0 <= i < r.len() implies near.contains((#[trigger] r[i]).0 as int)
        && r[i].1 == distances[r[i].0 as int] by {
        assert(near[i] == r[i].0);
        assert(end.nearest[i].0 == distances[near[i]]);
    }
    assert forall|a: int, b: int| 0 <= a < b < near.len() implies ahead(
        distances,
        #[trigger] near[a],
        #[trigger] near[b],
    ) by {
        assert(!nearer(end.nearest[b], end.nearest[a]));
        assert(end.nearest[a].1 != end.nearest[b].1);
        assert(end.nearest[a].0 == distances[near[a]]);
        assert(end.nearest[b].0 == distances[near[b]]);
    }
    assert forall|i: int, j: int| 0 <= i < j < r.len() implies ahead(
        distances,
        (#[trigger] r[i]).0 as int,
        (#[trigger] r[j]).0 as int,
    ) by {
        assert(ahead(distances, near[i], near[j]));
    }
    assert forall|u: int, i: int|
        near.contains(u) && 0 <= i < r.len() && !(#[trigger] listed_in(r, u)) implies ahead(
        distances,
        (#[trigger] r[i]).0 as int,
        u,
    ) by {
        let p = choose|p: int| 0 <= p < near.len() && near[p] == u;
        if p < r.len() {
            assert(r[p].0 == u);
        }
        assert(ahead(distances, near[i], near[p]));
    }
    near
}

/// However many nodes the bottom layer has, a search through the stack settles in it on as many
/// nodes as may be kept, and finds the first of them.
pub proof fn law_stack_search_settles<T: HasDistance>(
    levels: Seq<Seq<Seq<u32>>>,
    elements: Seq<T>,
    goal: T,
    max_search: nat,
) -> (nodes: Seq<int>)
    requires
        max_search > 0,
        searchable(levels, elements.len()),
    ensures
        ({
            let distances = Seq::new(elements.len(), |i: int| elements[i].spec_dist(&goal));
            let r = search_levels(levels, distances_to(elements, goal), max_search);
            let breadth: nat = if max_search / 50 < 50 {
                50
            } else {
                max_search / 50
            };
            exists|path: Seq<usize>|
                descends(levels.drop_last(), distances, breadth, path) && settles_on(
                    levels.last(),
                    (#[trigger] path.last()) as int,
                    distances,
                    max_search,
                    nodes,
                ) && picks(
                    nodes,
                    distances,
                    if nodes.len() < 32 {
                        nodes.len()
                    } else {
                        32
                    },
                    r,
                )
        }),
{
    let distances = Seq::new(elements.len(), |i: int| elements[i].spec_dist(&goal));
    assert(distances_to(elements, goal) =~= distances);
    lemma_upper_levels(levels, elements.len());
    let upper = levels.drop_last();
    let ms = upper_search(max_search);
    let path = law_entrypoint_descends(upper, distances, ms);
    lemma_entrypoint(upper, distances, ms);
    law_search_settles(
        levels.last(),
        entrypoint(upper, distances, ms),
        distances,
        max_search,
        MAX_NEIGHBORS as nat,
    )
}

} // verus!
