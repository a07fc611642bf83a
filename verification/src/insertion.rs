//! Building an index, told by what changes.
use vstd::prelude::*;

use crate::builder::{built, lemma_built, lemma_level_size, level_size, single};
use crate::distance::{distances_from, distances_to, Distance, HasDistance};
use crate::index::{law_index_search_results, search_levels, searchable};
use crate::link::{
    among, connected, distinct_ids, divided, extended, filled, found, initialized, inserted,
    inserted_range, law_connecting_keeps_nearest, law_selection_draws, lemma_found, lemma_inserted,
    lemma_ranked_distinct, linked, rivals, selected, turned,
};
use crate::order::{lemma_ranked, nearer, ranked};
use crate::reach::{law_search_reaches, leads, least, lemma_closed, reachable, reached};
use crate::search::{distinct, lemma_search_results, links_below};
use crate::trail::{
    ahead, finds, in_list, law_stack_finds, lemma_search_finds, listed_in, stack_finds,
};

verus! {

/// Whether candidate `k` is preferred for the neighbours of a node with the distances `own` to all
/// elements: the first one is, and each that stands nearer than its own distance to the node.
pub open spec fn preferred(
    candidates: Seq<(usize, Distance)>,
    own: Seq<Distance>,
    k: int,
) -> bool {
    k == 0 || candidates[k].1.order() < own[candidates[k].0 as int].order()
}

/// Whether candidate `a` is chosen before candidate `b`: the preferred ones before the others, and
/// otherwise as they stand.
pub open spec fn chosen_before(
    candidates: Seq<(usize, Distance)>,
    own: Seq<Distance>,
    a: int,
    b: int,
) -> bool {
    if preferred(candidates, own, a) == preferred(candidates, own, b) {
        a < b
    } else {
        preferred(candidates, own, a)
    }
}

/// Whether `at` are the places of the first `count` candidates, as they are chosen.
pub open spec fn are_chosen(
    candidates: Seq<(usize, Distance)>,
    own: Seq<Distance>,
    count: nat,
    at: Seq<int>,
) -> bool {
    &&& at.len() == count
    &&& forall|i: int| 0 <= i < at.len() ==> 0 <= #[trigger] at[i] < candidates.len()
    &&& forall|i: int, j: int|
        0 <= i < j < at.len() ==> chosen_before(
            candidates,
            own,
            #[trigger] at[i],
            #[trigger] at[j],
        )
    &&& forall|x: int, i: int|
        0 <= x < candidates.len() && !(#[trigger] at.contains(x)) && 0 <= i < at.len()
            ==> chosen_before(candidates, own, #[trigger] at[i], x)
}

/// Whether `s` are the candidates chosen, `max_neighbors` at most: all of them as they stand where
/// there are not more, and otherwise the first to be chosen.
pub open spec fn chooses(
    candidates: Seq<(usize, Distance)>,
    own: Seq<Distance>,
    max_neighbors: nat,
    s: Seq<(usize, Distance)>,
) -> bool {
    if candidates.len() <= max_neighbors {
        s == candidates
    } else {
        exists|at: Seq<int>| #[trigger]
            are_chosen(candidates, own, max_neighbors, at) && s.len() == at.len() && forall|i: int|
                0 <= i < at.len() ==> #[trigger] s[i] == candidates[at[i]]
    }
}

/// The places of the candidates that are divided off.
spec fn places(
    candidates: Seq<(usize, Distance)>,
    own: Seq<Distance>,
    max_neighbors: nat,
) -> (Seq<int>, Seq<int>)
    decreases candidates.len(),
{
    if candidates.len() == 0 {
        (Seq::empty(), Seq::empty())
    } else {
        let (front, back) = places(candidates.drop_last(), own, max_neighbors);
        let k = candidates.len() - 1;
        if front.len() >= max_neighbors {
            (front, back)
        } else if preferred(candidates, own, k) {
            (front.push(k), back)
        } else {
            (front, back.push(k))
        }
    }
}

spec fn increasing(s: Seq<int>, bound: int) -> bool {
    &&& forall|i: int| 0 <= i < s.len() ==> 0 <= #[trigger] s[i] < bound
    &&& forall|i: int, j: int| 0 <= i < j < s.len() ==> #[trigger] s[i] < #[trigger] s[j]
}

proof fn lemma_places(candidates: Seq<(usize, Distance)>, own: Seq<Distance>, max_neighbors: nat)
    requires
        max_neighbors > 0,
    ensures
        ({
            let (front, back) = places(candidates, own, max_neighbors);
            let (preferred_ones, others) = divided(candidates, own, max_neighbors);
            let n = candidates.len() as int;
            &&& front.len() == preferred_ones.len()
            &&& back.len() == others.len()
            &&& front.len() <= max_neighbors
            &&& candidates.len() > 0 ==> front.len() > 0
            &&& increasing(front, n)
            &&& increasing(back, n)
            &&& forall|i: int|
                0 <= i < front.len() ==> preferred_ones[i] == candidates[#[trigger] front[i]]
                    && preferred(candidates, own, front[i])
            &&& forall|i: int|
                0 <= i < back.len() ==> others[i] == candidates[#[trigger] back[i]] && !preferred(
                    candidates,
                    own,
                    back[i],
                )
            &&& forall|x: int|
                0 <= x < n && !(#[trigger] front.contains(x)) ==> back.contains(x) || (front.len()
                    == max_neighbors && forall|i: int|
                    0 <= i < front.len() ==> #[trigger] front[i] < x)
        }),
    decreases candidates.len(),
{
    if candidates.len() > 0 {
        let rest = candidates.drop_last();
        lemma_places(rest, own, max_neighbors);
        let (f, b) = places(rest, own, max_neighbors);
        let (front, back) = places(candidates, own, max_neighbors);
        let k = candidates.len() - 1;
        assert forall|x: int| 0 <= x < k implies preferred(rest, own, x) == #[trigger] preferred(
            candidates,
            own,
            x,
        ) by {
            assert(rest[x] == candidates[x]);
        }
        assert forall|i: int| 0 <= i < f.len() implies preferred(candidates, own, #[trigger] f[i]) by {
            assert(preferred(rest, own, f[i]));
        }
        assert forall|i: int| 0 <= i < b.len() implies !preferred(candidates, own, #[trigger] b[i]) by {
            assert(!preferred(rest, own, b[i]));
        }
        assert forall|x: int| 0 <= x < candidates.len() && !(#[trigger] front.contains(
            x,
        )) implies back.contains(x) || (front.len() == max_neighbors && forall|i: int|
            0 <= i < front.len() ==> #[trigger] front[i] < x) by {
            if x < k {
                if f.contains(x) {
                    let i = choose|i: int| 0 <= i < f.len() && f[i] == x;
                    assert(front[i] == x);
                }
                if b.contains(x) {
                    let i = choose|i: int| 0 <= i < b.len() && b[i] == x;
                    assert(back[i] == x);
                }
            } else if f.len() < max_neighbors {
                if preferred(candidates, own, k) {
                    assert(front[f.len() as int] == x);
                } else {
                    assert(back[b.len() as int] == x);
                }
            }
        }
    }
}

/// Selecting chooses the preferred candidates before the others, and otherwise takes them as they
/// stand, until there are enough.
pub proof fn law_selection_chooses(
    candidates: Seq<(usize, Distance)>,
    own: Seq<Distance>,
    max_neighbors: nat,
)
    ensures
        chooses(candidates, own, max_neighbors, selected(candidates, own, max_neighbors)),
{
    let s = selected(candidates, own, max_neighbors);
    if candidates.len() > max_neighbors {
        law_selection_draws(candidates, own, max_neighbors);
        if max_neighbors == 0 {
            let none = Seq::<int>::empty();
            assert(are_chosen(candidates, own, 0, none));
        } else {
            lemma_places(candidates, own, max_neighbors);
            let (front, back) = places(candidates, own, max_neighbors);
            let (preferred_ones, others) = divided(candidates, own, max_neighbors);
            let room = max_neighbors - front.len();
            let m = if room < back.len() {
                room
            } else {
                back.len() as int
            };
            let at = front + back.take(m);
            assert(s.len() == max_neighbors);
            assert(at.len() == max_neighbors);
            assert forall|i: int| 0 <= i < at.len() implies #[trigger] s[i] == candidates[at[i]]
                && 0 <= at[i] < candidates.len() by {
                if i < front.len() {
                    assert(at[i] == front[i]);
                } else {
                    assert(at[i] == back[i - front.len()]);
                }
            }
            assert forall|i: int, j: int| 0 <= i < j < at.len() implies chosen_before(
                candidates,
                own,
                #[trigger] at[i],
                #[trigger] at[j],
            ) by {
                if i < front.len() {
                    assert(at[i] == front[i]);
                } else {
                    assert(at[i] == back[i - front.len()]);
                }
                if j < front.len() {
                    assert(at[j] == front[j]);
                } else {
                    assert(at[j] == back[j - front.len()]);
                }
            }
            assert forall|x: int, i: int|
                0 <= x < candidates.len() && !(#[trigger] at.contains(x)) && 0 <= i
                    < at.len() implies chosen_before(candidates, own, #[trigger] at[i], x) by {
                if front.contains(x) {
                    let q = choose|q: int| 0 <= q < front.len() && front[q] == x;
                    assert(at[q] == x);
                }
                if back.contains(x) {
                    let q = choose|q: int| 0 <= q < back.len() && back[q] == x;
                    if q < m {
                        assert(at[front.len() + q] == x);
                    }
                    if i < front.len() {
                        assert(at[i] == front[i]);
                    } else {
                        assert(at[i] == back[i - front.len()]);
                    }
                } else {
                    assert(front.len() == max_neighbors);
                    assert(at[i] == front[i]);
                    assert(front[i] < x);
                }
            }
            assert(are_chosen(candidates, own, max_neighbors, at));
        }
    }
}

/// Giving a node its first neighbours lists the first 32 of them, as they stand.
pub proof fn law_initialized_lists_first(neighbors: Seq<(usize, Distance)>)
    ensures
        initialized(neighbors).len() == (if neighbors.len() < 32 {
            neighbors.len()
        } else {
            32
        }),
        forall|k: int|
            0 <= k < initialized(neighbors).len() ==> #[trigger] initialized(neighbors)[k]
                == neighbors[k].0 as u32,
{
}

/// Whether the candidates stand by distance, and by index where distances are equal.
pub open spec fn stand_in_order(c: Seq<(usize, Distance)>) -> bool {
    forall|a: int, b: int|
        0 <= a < b < c.len() ==> (#[trigger] c[a]).1.order() < (#[trigger] c[b]).1.order() || (
        c[a].1.order() == c[b].1.order() && c[a].0 <= c[b].0)
}

/// Whether `all` are the neighbours of a node with their distances `own`, and element `j` at `d`.
pub open spec fn are_rivals(
    before: Seq<u32>,
    own: Seq<Distance>,
    j: usize,
    d: Distance,
    all: Seq<(usize, Distance)>,
) -> bool {
    all.to_multiset() == Seq::new(
        before.len(),
        |k: int| (before[k] as usize, own[before[k] as int]),
    ).push((j, d)).to_multiset()
}

/// Whether a node that listed `before` lists `after` once it was connected to element `j` at `d`.
/// With room for it, the node lists it last. Otherwise its neighbours and `j` are put in order, and
/// 32 of them are chosen.
pub open spec fn connects(
    before: Seq<u32>,
    own: Seq<Distance>,
    j: usize,
    d: Distance,
    after: Seq<u32>,
) -> bool {
    if before.len() < 32 {
        after == before.push(j as u32)
    } else {
        exists|all: Seq<(usize, Distance)>, s: Seq<(usize, Distance)>|
            stand_in_order(all) && #[trigger] are_rivals(before, own, j, d, all) && #[trigger]
            chooses(all, own, 32, s) && after.len() == s.len() && forall|k: int|
                0 <= k < s.len() ==> #[trigger] after[k] == s[k].0 as u32
    }
}

/// Connecting a node connects it to that element alone, and leaves out the farthest where there are
/// too many.
pub proof fn law_connecting_connects(node: Seq<u32>, own: Seq<Distance>, j: usize, d: Distance)
    ensures
        connects(node, own, j, d, connected(node, own, j, d)),
{
    let after = connected(node, own, j, d);
    if node.len() >= 32 {
        let c = rivals(node, own, j, d);
        let all = turned(ranked(c));
        let s = selected(all, own, 32);
        lemma_ranked(c);
        law_selection_chooses(all, own, 32);
        let mine = Seq::new(
            node.len(),
            |k: int| (node[k] as usize, own[node[k] as int]),
        ).push((j, d));
        assert(mine =~= turned(c));
        lemma_turned_multiset(ranked(c), c);
        assert(are_rivals(node, own, j, d, all));
        assert(stand_in_order(all)) by {
            assert forall|a: int, b: int| 0 <= a < b < all.len() implies (#[trigger]
            all[a]).1.order() < (#[trigger] all[b]).1.order() || (all[a].1.order()
                == all[b].1.order() && all[a].0 <= all[b].0) by {
                assert(!nearer(ranked(c)[b], ranked(c)[a]));
            }
        }
        assert(chooses(all, own, 32, s));
    }
}

/// The same candidates are the same candidates the other way round.
proof fn lemma_turned_multiset(a: Seq<(Distance, usize)>, b: Seq<(Distance, usize)>)
    requires
        a.to_multiset() == b.to_multiset(),
    ensures
        turned(a).to_multiset() == turned(b).to_multiset(),
{
    assert forall|x: (usize, Distance)| #[trigger] turned(a).to_multiset().count(x) == turned(
        b,
    ).to_multiset().count(x) by {
        lemma_turned_count(a, x);
        lemma_turned_count(b, x);
    }
    assert(turned(a).to_multiset() =~= turned(b).to_multiset());
}

proof fn lemma_turned_count(a: Seq<(Distance, usize)>, x: (usize, Distance))
    ensures
        turned(a).to_multiset().count(x) == a.to_multiset().count((x.1, x.0)),
    decreases a.len(),
{
    if a.len() == 0 {
        a.to_multiset_ensures();
        turned(a).to_multiset_ensures();
        assert(!a.contains((x.1, x.0)));
        assert(!turned(a).contains(x));
    } else {
        let rest = a.drop_last();
        lemma_turned_count(rest, x);
        vstd::seq_lib::to_multiset_build(rest, a.last());
        vstd::seq_lib::to_multiset_build(turned(rest), turned(a).last());
        assert(rest.push(a.last()) =~= a);
        assert(turned(rest).push(turned(a).last()) =~= turned(a));
    }
}

/// A full node that is connected at its own distance to an element that it does not list keeps the
/// first 32 of its neighbours and that element, in order: whatever it leaves out comes after all
/// that it lists.
pub proof fn law_full_node_keeps_first(node: Seq<u32>, own: Seq<Distance>, j: usize)
    requires
        node.len() == 32,
        node.no_duplicates(),
        j < own.len(),
        j <= u32::MAX,
        !in_list(node, j as int),
    ensures
        ({
            let after = connected(node, own, j, own[j as int]);
            &&& after.len() == 32
            &&& forall|k: int|
                0 <= k < after.len() ==> #[trigger] after[k] == j || in_list(node, after[k] as int)
            &&& forall|k: int, m: int|
                0 <= k < m < after.len() ==> ahead(
                    own,
                    (#[trigger] after[k]) as int,
                    (#[trigger] after[m]) as int,
                )
            &&& forall|x: int, k: int|
                (x == j || in_list(node, x)) && !(#[trigger] in_list(after, x)) && 0 <= k
                    < after.len() ==> ahead(own, (#[trigger] after[k]) as int, x)
        }),
{
    let d = own[j as int];
    let c = rivals(node, own, j, d);
    let s = ranked(c);
    let after = connected(node, own, j, d);
    law_connecting_keeps_nearest(node, own, j);
    lemma_ranked(c);
    s.to_multiset_ensures();
    c.to_multiset_ensures();
    assert(distinct(c)) by {
        assert forall|a: int, b: int| 0 <= a < b < c.len() implies (#[trigger] c[a]).1
            != (#[trigger] c[b]).1 by {
            if b < node.len() {
                assert(node[a] != node[b]);
            } else {
                assert(node[a] != j);
            }
        }
    }
    lemma_ranked_distinct(c);
    assert forall|p: int| 0 <= p < s.len() implies (#[trigger] s[p]).1 <= u32::MAX && s[p].0
        == own[s[p].1 as int] && (s[p].1 == j || in_list(node, s[p].1 as int)) by {
        assert(s.contains(s[p]));
        assert(c.to_multiset().count(s[p]) > 0);
        assert(c.contains(s[p]));
        let q = choose|q: int| 0 <= q < c.len() && c[q] == s[p];
        if q < node.len() {
            assert(node[q] == s[p].1 as int);
        }
    }
    assert forall|p: int, q: int| 0 <= p < q < s.len() implies ahead(
        own,
        (#[trigger] s[p]).1 as int,
        (#[trigger] s[q]).1 as int,
    ) by {
        assert(!nearer(s[q], s[p]));
        assert(s[p].1 != s[q].1);
    }
    assert forall|k: int| 0 <= k < after.len() implies #[trigger] after[k] == s[k].1 by {
    }
    assert forall|x: int, k: int|
        (x == j || in_list(node, x)) && !(#[trigger] in_list(after, x)) && 0 <= k
            < after.len() implies ahead(own, (#[trigger] after[k]) as int, x) by {
        let q = if x == j {
            node.len() as int
        } else {
            choose|q: int| 0 <= q < node.len() && #[trigger] node[q] == x
        };
        assert(c[q].1 == x);
        assert(c.contains(c[q]));
        assert(s.to_multiset().count(c[q]) > 0);
        assert(s.contains(c[q]));
        let p = choose|p: int| 0 <= p < s.len() && s[p] == c[q];
        if p < 32 {
            assert(after[p] == x);
        }
        assert(ahead(own, s[k].1 as int, s[p].1 as int));
    }
}

/// A node that is connected at its own distance to element `j` lists it, unless it lists 32 elements
/// that all come before it.
pub proof fn law_connected_node_lists(node: Seq<u32>, own: Seq<Distance>, j: usize)
    requires
        node.len() <= 32,
        j < own.len(),
        j <= u32::MAX,
    ensures
        ({
            let after = connected(node, own, j, own[j as int]);
            in_list(after, j as int) || (after.len() == 32 && forall|k: int|
                0 <= k < after.len() ==> ahead(own, (#[trigger] after[k]) as int, j as int))
        }),
{
    let after = connected(node, own, j, own[j as int]);
    if node.len() < 32 {
        assert(after[node.len() as int] == j);
    } else {
        let c = rivals(node, own, j, own[j as int]);
        let s = ranked(c);
        law_connecting_keeps_nearest(node, own, j);
        lemma_ranked(c);
        s.to_multiset_ensures();
        c.to_multiset_ensures();
        let mine = c[32];
        assert(c.contains(mine));
        assert(s.to_multiset().count(mine) > 0);
        assert(s.contains(mine));
        let p = choose|p: int| 0 <= p < s.len() && s[p] == mine;
        if p < 32 {
            assert(after[p] == j);
        } else if !in_list(after, j as int) {
            assert forall|k: int| 0 <= k < after.len() implies ahead(
                own,
                (#[trigger] after[k]) as int,
                j as int,
            ) by {
                assert(s.contains(s[k]));
                assert(c.to_multiset().count(s[k]) > 0);
                assert(c.contains(s[k]));
                assert(after[k] == s[k].1);
                assert(!nearer(s[p], s[k]));
                assert(after[k] != j);
            }
        }
    }
}

/// The distances of all elements to the goal.
pub open spec fn distances_toward<T: HasDistance>(elements: Seq<T>, goal: T) -> Seq<Distance> {
    Seq::new(elements.len(), |i: int| elements[i].spec_dist(&goal))
}

/// The distances of element `n` to all elements.
pub open spec fn distances_of_element<T: HasDistance>(elements: Seq<T>, n: int) -> Seq<Distance> {
    Seq::new(elements.len(), |i: int| elements[n].spec_dist(&elements[i]))
}

/// Whether `f` is what is found in the layer for element `idx`, where the walk begins at `entry`.
pub open spec fn finds_for<T: HasDistance>(
    layer: Seq<Seq<u32>>,
    levels: Seq<Seq<Seq<u32>>>,
    above: Seq<T>,
    elements: Seq<T>,
    idx: int,
    max_search: nat,
    entry: int,
    f: Seq<(usize, Distance)>,
) -> bool {
    &&& exists|r: Seq<(usize, Distance)>| #[trigger]
        stack_finds(
            levels,
            distances_toward(above, elements[idx]),
            max_search / 10,
            r,
        ) && r.len() > 0 && r[0].0 == entry
    &&& finds(layer, entry, distances_toward(elements, elements[idx]), max_search, 32, f)
}

/// The layer `before` with a list of exactly what was found, as it stands, for node `idx`.
pub open spec fn with_list(
    before: Seq<Seq<u32>>,
    idx: usize,
    f: Seq<(usize, Distance)>,
) -> Seq<Seq<u32>> {
    before.update(idx as int, Seq::new(f.len(), |k: int| f[k].0 as u32))
}

/// Whether linking element `idx` in, for which `f` was found, turns the layer `before` into `after`:
/// its node lists exactly what was found, as it stands, then each of these nodes is connected to it,
/// and no other node changes.
pub open spec fn links_up<T: HasDistance>(
    before: Seq<Seq<u32>>,
    elements: Seq<T>,
    idx: usize,
    f: Seq<(usize, Distance)>,
    after: Seq<Seq<u32>>,
) -> bool {
    let first = with_list(before, idx, f);
    &&& after.len() == before.len()
    &&& forall|k: int|
        0 <= k < f.len() ==> connects(
            first[(#[trigger] f[k]).0 as int],
            distances_of_element(elements, f[k].0 as int),
            idx,
            f[k].1,
            after[f[k].0 as int],
        )
    &&& forall|i: int|
        0 <= i < before.len() && !listed_in(f, i) ==> #[trigger] after[i] == first[i]
}

/// Whether linking in element `idx` turns the layer `before` into `after`.
pub open spec fn inserts<T: HasDistance>(
    before: Seq<Seq<u32>>,
    levels: Seq<Seq<Seq<u32>>>,
    above: Seq<T>,
    elements: Seq<T>,
    idx: usize,
    max_search: nat,
    after: Seq<Seq<u32>>,
) -> bool {
    exists|entry: int, f: Seq<(usize, Distance)>|
        {
            &&& #[trigger] finds_for(
                before,
                levels,
                above,
                elements,
                idx as int,
                max_search,
                entry,
                f,
            )
            &&& f.len() == least(reached(before, entry).len(), max_search, 32)
            &&& links_up(before, elements, idx, f, after)
        }
}

proof fn lemma_linked_each<T: HasDistance>(
    layer: Seq<Seq<u32>>,
    elements: Seq<T>,
    idx: usize,
    neighbors: Seq<(usize, Distance)>,
    count: nat,
)
    requires
        count <= neighbors.len(),
        distinct_ids(neighbors),
        forall|i: int| 0 <= i < neighbors.len() ==> (#[trigger] neighbors[i]).0 < layer.len(),
    ensures
        ({
            let after = linked(layer, elements, idx, neighbors, count);
            &&& after.len() == layer.len()
            &&& forall|k: int|
                0 <= k < count ==> after[(#[trigger] neighbors[k]).0 as int] == connected(
                    layer[neighbors[k].0 as int],
                    distances_from(elements[neighbors[k].0 as int], elements),
                    idx,
                    neighbors[k].1,
                )
            &&& forall|i: int|
                0 <= i < layer.len() && !among(neighbors, count, i) ==> #[trigger] after[i]
                    == layer[i]
        }),
    decreases count,
{
    if count > 0 {
        let prior = (count - 1) as nat;
        lemma_linked_each(layer, elements, idx, neighbors, prior);
        let before = linked(layer, elements, idx, neighbors, prior);
        let after = linked(layer, elements, idx, neighbors, count);
        let (n, d) = neighbors[count - 1];
        assert(neighbors[count - 1].0 == n);
        assert(!among(neighbors, prior, n as int));
        assert(before[n as int] == layer[n as int]);
        assert forall|k: int| 0 <= k < count implies after[(#[trigger] neighbors[k]).0 as int]
            == connected(
            layer[neighbors[k].0 as int],
            distances_from(elements[neighbors[k].0 as int], elements),
            idx,
            neighbors[k].1,
        ) by {
            if k < prior {
                assert(neighbors[k].0 != neighbors[count - 1].0);
                assert(after[neighbors[k].0 as int] == before[neighbors[k].0 as int]);
            }
        }
        assert forall|i: int| 0 <= i < layer.len() && !among(neighbors, count, i) implies #[trigger] after[i]
            == layer[i] by {
            assert(among(neighbors, count, n as int));
            assert(i != n);
            if among(neighbors, prior, i) {
                let k = choose|k: int| 0 <= k < prior && (#[trigger] neighbors[k]).0 == i;
                assert(0 <= k < count && neighbors[k].0 == i);
            }
            assert(after[i] == before[i]);
        }
    }
}

/// Linking in an element gives its node exactly what was found for it, connects each of these nodes
/// to it, and changes nothing else. As many nodes are found as links lead to from where the walk
/// begins, as may be kept, or as a node can list, whichever is least.
pub proof fn law_insertion<T: HasDistance>(
    layer: Seq<Seq<u32>>,
    levels: Seq<Seq<Seq<u32>>>,
    above: Seq<T>,
    elements: Seq<T>,
    idx: usize,
    max_search: nat,
)
    requires
        max_search >= 10,
        searchable(levels, above.len()),
        levels.last().len() <= layer.len() <= elements.len(),
        links_below(layer, layer.len()),
        idx < layer.len() <= u32::MAX,
    ensures
        inserts(
            layer,
            levels,
            above,
            elements,
            idx,
            max_search,
            inserted(layer, levels, above, elements, idx, max_search),
        ),
{
    let goal = elements[idx as int];
    let size = layer.len();
    let f = found(layer, levels, above, elements, idx, max_search);
    let r = search_levels(levels, distances_to(above, goal), max_search / 10);
    let e = r[0].0;
    let distances = distances_toward(elements, elements[idx as int]);
    assert(distances_to(elements, goal) =~= distances);
    lemma_found(layer, levels, above, elements, idx, max_search, size);
    law_stack_finds(levels, above, goal, max_search / 10);
    law_index_search_results(levels, distances_to(above, goal), max_search / 10);
    assert(Seq::new(above.len(), |i: int| above[i].spec_dist(&goal)) =~= distances_toward(
        above,
        goal,
    ));
    assert(stack_finds(levels, distances_toward(above, goal), max_search / 10, r));
    lemma_search_finds(layer, e, distances, max_search, 32, size);
    law_search_reaches(layer, e, distances, max_search, 32);
    let after = inserted(layer, levels, above, elements, idx, max_search);
    let first = layer.update(idx as int, initialized(f));
    assert(first =~= with_list(layer, idx, f)) by {
        assert(initialized(f) =~= Seq::new(f.len(), |k: int| f[k].0 as u32));
    }
    lemma_linked_each(first, elements, idx, f, f.len());
    assert forall|k: int| 0 <= k < f.len() implies connects(
        first[(#[trigger] f[k]).0 as int],
        distances_of_element(elements, f[k].0 as int),
        idx,
        f[k].1,
        after[f[k].0 as int],
    ) by {
        let n = f[k].0 as int;
        assert(distances_from(elements[n], elements) =~= distances_of_element(elements, n));
        law_connecting_connects(first[n], distances_of_element(elements, n), idx, f[k].1);
    }
    assert forall|i: int| 0 <= i < layer.len() && !listed_in(f, i) implies #[trigger] after[i]
        == first[i] by {
        if among(f, f.len(), i) {
            let k = choose|k: int| 0 <= k < f.len() && (#[trigger] f[k]).0 == i;
            assert(listed_in(f, i));
        }
    }
    assert(links_up(layer, elements, idx, f, after));
    assert(finds_for(layer, levels, above, elements, idx as int, max_search, e as int, f));
}

/// Once an element that nothing led to was linked in, its node lists exactly what was found for it,
/// nearest first. These are as many nodes as links lead to from where the walk begins, as may be
/// kept, or as a node can list, whichever is least.
pub proof fn law_new_node_lists_what_is_found<T: HasDistance>(
    layer: Seq<Seq<u32>>,
    levels: Seq<Seq<Seq<u32>>>,
    above: Seq<T>,
    elements: Seq<T>,
    idx: usize,
    max_search: nat,
)
    requires
        max_search >= 10,
        searchable(levels, above.len()),
        levels.last().len() <= idx,
        idx < layer.len() <= elements.len(),
        layer.len() <= u32::MAX,
        links_below(layer, layer.len()),
        forall|i: int| !(#[trigger] leads(layer, i, idx as int)),
    ensures
        ({
            let own = inserted(layer, levels, above, elements, idx, max_search)[idx as int];
            let distances = distances_toward(elements, elements[idx as int]);
            exists|entry: int, f: Seq<(usize, Distance)>|
                {
                    &&& #[trigger] finds_for(
                        layer,
                        levels,
                        above,
                        elements,
                        idx as int,
                        max_search,
                        entry,
                        f,
                    )
                    &&& own.len() == least(reached(layer, entry).len(), max_search, 32)
                    &&& own.len() == f.len()
                    &&& forall|k: int| 0 <= k < own.len() ==> #[trigger] own[k] == f[k].0
                    &&& forall|k: int, m: int|
                        0 <= k < m < own.len() ==> ahead(
                            distances,
                            (#[trigger] own[k]) as int,
                            (#[trigger] own[m]) as int,
                        )
                }
        }),
{
    law_insertion(layer, levels, above, elements, idx, max_search);
    let after = inserted(layer, levels, above, elements, idx, max_search);
    let own = after[idx as int];
    let distances = distances_toward(elements, elements[idx as int]);
    let goal = elements[idx as int];
    let r = search_levels(levels, distances_to(above, goal), max_search / 10);
    let e = r[0].0;
    let f = found(layer, levels, above, elements, idx, max_search);
    assert(distances_to(elements, goal) =~= distances);
    lemma_found(layer, levels, above, elements, idx, max_search, layer.len());
    lemma_not_found(layer, levels, above, elements, idx, max_search);
    law_stack_finds(levels, above, goal, max_search / 10);
    law_index_search_results(levels, distances_to(above, goal), max_search / 10);
    assert(Seq::new(above.len(), |i: int| above[i].spec_dist(&goal)) =~= distances_toward(
        above,
        goal,
    ));
    assert(stack_finds(levels, distances_toward(above, goal), max_search / 10, r));
    lemma_search_finds(layer, e, distances, max_search, 32, layer.len());
    lemma_search_results(layer, e, distances, max_search, 32, layer.len());
    law_search_reaches(layer, e, distances, max_search, 32);
    assert(finds_for(layer, levels, above, elements, idx as int, max_search, e as int, f));
    let first = layer.update(idx as int, initialized(f));
    lemma_linked_each(first, elements, idx, f, f.len());
    assert(!among(f, f.len(), idx as int));
    assert(own == initialized(f));
    assert forall|k: int| 0 <= k < own.len() implies #[trigger] own[k] == f[k].0 by {
        assert(f[k].0 < layer.len());
    }
    assert forall|k: int, m: int| 0 <= k < m < own.len() implies ahead(
        distances,
        (#[trigger] own[k]) as int,
        (#[trigger] own[m]) as int,
    ) by {
        assert(f[k].0 != f[m].0 && nearer((f[k].1, f[k].0), (f[m].1, f[m].0)));
        assert(f[k].1 == distances[f[k].0 as int]);
        assert(f[m].1 == distances[f[m].0 as int]);
    }
}

/// An element that nothing leads to is not found for itself.
proof fn lemma_not_found<T: HasDistance>(
    layer: Seq<Seq<u32>>,
    levels: Seq<Seq<Seq<u32>>>,
    above: Seq<T>,
    elements: Seq<T>,
    idx: usize,
    max_search: nat,
)
    requires
        max_search >= 10,
        searchable(levels, above.len()),
        levels.last().len() <= layer.len() <= elements.len(),
        links_below(layer, layer.len()),
        idx < layer.len() <= u32::MAX,
        forall|i: int| !(#[trigger] leads(layer, i, idx as int)),
        search_levels(levels, distances_to(above, elements[idx as int]), max_search / 10)[0].0
            != idx,
    ensures
        ({
            let f = found(layer, levels, above, elements, idx, max_search);
            forall|i: int| 0 <= i < f.len() ==> (#[trigger] f[i]).0 != idx
        }),
{
    let goal = elements[idx as int];
    let f = found(layer, levels, above, elements, idx, max_search);
    let e = search_levels(levels, distances_to(above, goal), max_search / 10)[0].0;
    lemma_found(layer, levels, above, elements, idx, max_search, layer.len());
    law_search_reaches(layer, e, distances_to(elements, goal), max_search, 32);
    let others = Set::new(|i: int| i != idx);
    assert forall|i: int| 0 <= i < f.len() implies (#[trigger] f[i]).0 != idx by {
        assert(reachable(layer, e as int, f[i].0 as int));
        lemma_closed(layer, e as int, f[i].0 as int, others);
    }
}

/// After an element was linked in, each node that its node lists lists it in turn, unless it lists 32
/// elements that all come before it by their distances to that node.
pub proof fn law_insertion_links_back<T: HasDistance>(
    layer: Seq<Seq<u32>>,
    levels: Seq<Seq<Seq<u32>>>,
    above: Seq<T>,
    elements: Seq<T>,
    idx: usize,
    max_search: nat,
    n: int,
)
    requires
        max_search >= 10,
        searchable(levels, above.len()),
        levels.last().len() <= layer.len() <= elements.len(),
        links_below(layer, layer.len()),
        idx < layer.len() <= u32::MAX,
        forall|i: int| !(#[trigger] leads(layer, i, idx as int)),
        search_levels(levels, distances_to(above, elements[idx as int]), max_search / 10)[0].0
            != idx,
        0 <= n < layer.len(),
        layer[n].len() <= 32,
        in_list(inserted(layer, levels, above, elements, idx, max_search)[idx as int], n),
    ensures
        ({
            let after = inserted(layer, levels, above, elements, idx, max_search)[n];
            in_list(after, idx as int) || (after.len() == 32 && forall|k: int|
                0 <= k < after.len() ==> ahead(
                    distances_of_element(elements, n),
                    (#[trigger] after[k]) as int,
                    idx as int,
                ))
        }),
{
    let goal = elements[idx as int];
    let size = layer.len();
    let f = found(layer, levels, above, elements, idx, max_search);
    let e = search_levels(levels, distances_to(above, goal), max_search / 10)[0].0;
    let distances = distances_toward(elements, elements[idx as int]);
    assert(distances_to(elements, goal) =~= distances);
    lemma_found(layer, levels, above, elements, idx, max_search, size);
    lemma_search_results(layer, e, distances, max_search, 32, size);
    lemma_not_found(layer, levels, above, elements, idx, max_search);
    let first = layer.update(idx as int, initialized(f));
    lemma_linked_each(first, elements, idx, f, f.len());
    assert(!among(f, f.len(), idx as int));
    let own = inserted(layer, levels, above, elements, idx, max_search)[idx as int];
    let k = choose|k: int| 0 <= k < own.len() && #[trigger] own[k] == n;
    assert(f[k].0 < size);
    assert(f[k].0 == n);
    let mine = distances_of_element(elements, n);
    assert(distances_from(elements[n], elements) =~= mine);
    assert(f[k].1 == mine[idx as int]);
    law_connected_node_lists(layer[n], mine, idx);
}

/// Whether `states` are the layers on the way from `layer` to one that is filled: it is extended by
/// nodes without neighbours to one for each of `elements`, and then these are linked in one by one.
pub open spec fn fills_by<T: HasDistance>(
    layer: Seq<Seq<u32>>,
    levels: Seq<Seq<Seq<u32>>>,
    above: Seq<T>,
    elements: Seq<T>,
    max_search: nat,
    states: Seq<Seq<Seq<u32>>>,
) -> bool {
    &&& states.len() == elements.len() - layer.len() + 1
    &&& states[0].len() == elements.len()
    &&& forall|i: int|
        0 <= i < elements.len() ==> #[trigger] states[0][i] == (if i < layer.len() {
            layer[i]
        } else {
            Seq::empty()
        })
    &&& forall|t: int|
        0 <= t < states.len() - 1 ==> inserts(
            #[trigger] states[t],
            levels,
            above,
            elements,
            (layer.len() + t) as usize,
            max_search,
            states[t + 1],
        )
}

/// Filling a layer links the new elements in one by one, in their order.
pub proof fn law_filling<T: HasDistance>(
    layer: Seq<Seq<u32>>,
    levels: Seq<Seq<Seq<u32>>>,
    above: Seq<T>,
    elements: Seq<T>,
    max_search: nat,
)
    requires
        layer.len() <= elements.len() <= u32::MAX,
        layer.len() < elements.len() ==> {
            &&& max_search >= 10
            &&& searchable(levels, above.len())
            &&& levels.last().len() <= layer.len()
            &&& links_below(layer, layer.len())
        },
    ensures
        fills(
            layer,
            levels,
            above,
            elements,
            max_search,
            filled(layer, levels, above, elements, max_search),
        ),
{
    let new = filled(layer, levels, above, elements, max_search);
    if layer.len() < elements.len() {
        let states = lemma_filling(
            layer,
            levels,
            above,
            elements,
            elements.len(),
            max_search,
        );
        assert(fills_by(layer, levels, above, elements, max_search, states));
    } else {
        assert(new =~= layer);
        let states = seq![layer];
        assert(fills_by(layer, levels, above, elements, max_search, states));
    }
}

proof fn lemma_filling<T: HasDistance>(
    layer: Seq<Seq<u32>>,
    levels: Seq<Seq<Seq<u32>>>,
    above: Seq<T>,
    elements: Seq<T>,
    to: nat,
    max_search: nat,
) -> (states: Seq<Seq<Seq<u32>>>)
    requires
        max_search >= 10,
        searchable(levels, above.len()),
        levels.last().len() <= layer.len() <= to <= elements.len(),
        elements.len() <= u32::MAX,
        links_below(layer, layer.len()),
    ensures
        states.len() == to - layer.len() + 1,
        states[0] == extended(layer, elements.len()),
        states.last().len() == elements.len(),
        links_below(states.last(), to),
        states.last() == inserted_range(
            extended(layer, elements.len()),
            levels,
            above,
            elements,
            layer.len(),
            to,
            max_search,
        ),
        forall|t: int|
            0 <= t < states.len() - 1 ==> inserts(
                #[trigger] states[t],
                levels,
                above,
                elements,
                (layer.len() + t) as usize,
                max_search,
                states[t + 1],
            ),
    decreases to,
{
    let all = extended(layer, elements.len());
    if to == layer.len() {
        assert forall|i: int, k: int|
            0 <= i < all.len() && 0 <= k < all[i].len() implies (#[trigger] all[i][k])
            < layer.len() by {
            assert(layer[i][k] < layer.len());
        }
        seq![all]
    } else {
        let prior = (to - 1) as nat;
        let idx = (to - 1) as usize;
        let before = lemma_filling(layer, levels, above, elements, prior, max_search);
        let now = before.last();
        lemma_inserted(now, levels, above, elements, idx, max_search);
        lemma_found(now, levels, above, elements, idx, max_search, idx as nat);
        assert(links_below(now, now.len())) by {
            assert forall|i: int, k: int|
                0 <= i < now.len() && 0 <= k < now[i].len() implies (#[trigger] now[i][k])
                < now.len() by {
                assert(now[i][k] < idx);
            }
        }
        law_insertion(now, levels, above, elements, idx, max_search);
        let next = inserted(now, levels, above, elements, idx, max_search);
        let states = before.push(next);
        assert forall|t: int| 0 <= t < states.len() - 1 implies inserts(
            #[trigger] states[t],
            levels,
            above,
            elements,
            (layer.len() + t) as usize,
            max_search,
            states[t + 1],
        ) by {
            if t < before.len() - 1 {
                assert(states[t] == before[t]);
                assert(states[t + 1] == before[t + 1]);
            } else {
                assert(states[t] == now);
                assert(states[t + 1] == next);
                assert((layer.len() + t) as usize == idx);
            }
        }
        states
    }
}

/// Whether filling turns `layer` into `after`.
pub open spec fn fills<T: HasDistance>(
    layer: Seq<Seq<u32>>,
    levels: Seq<Seq<Seq<u32>>>,
    above: Seq<T>,
    elements: Seq<T>,
    max_search: nat,
    after: Seq<Seq<u32>>,
) -> bool {
    exists|states: Seq<Seq<Seq<u32>>>| #[trigger]
        fills_by(layer, levels, above, elements, max_search, states) && states.last() == after
}

/// Whether `b` are the layers `top` and further ones, each `multiplier` times as long as the one
/// above it or as long as there are elements, and filled from a copy of it.
pub open spec fn are_built_on<T: HasDistance>(
    top: Seq<Seq<Seq<u32>>>,
    elements: Seq<T>,
    multiplier: nat,
    max_search: nat,
    b: Seq<Seq<Seq<u32>>>,
) -> bool {
    &&& top.len() <= b.len()
    &&& forall|l: int| 0 <= l < top.len() ==> #[trigger] b[l] == top[l]
    &&& forall|l: int|
        top.len() <= l < b.len() ==> (#[trigger] b[l]).len() == (if b[l - 1].len() * multiplier
            < elements.len() {
            b[l - 1].len() * multiplier
        } else {
            elements.len()
        }) && fills(
            b[l - 1],
            b.take(l),
            elements,
            elements.take(b[l].len() as int),
            max_search,
            b[l],
        )
}

/// Building adds layers one below the other. Each is as long as the configuration says, and is a
/// copy of the one above it into which further elements were linked one by one, with the search
/// that the configuration asks for.
pub proof fn law_building<T: HasDistance>(
    top: Seq<Seq<Seq<u32>>>,
    elements: Seq<T>,
    multiplier: nat,
    max_search: nat,
    count: nat,
)
    requires
        top.len() > 0,
        top.last().len() == 1,
        0 < elements.len() < u32::MAX,
        count > 0 ==> multiplier > 0,
        count > 0 && multiplier > 1 && elements.len() > 1 ==> max_search >= 10 && single(top),
    ensures
        built(top, elements, multiplier, max_search, count).len() == top.len() + count,
        are_built_on(
            top,
            elements,
            multiplier,
            max_search,
            built(top, elements, multiplier, max_search, count),
        ),
    decreases count,
{
    let b = built(top, elements, multiplier, max_search, count);
    if count > 0 {
        let prior = (count - 1) as nat;
        law_building(top, elements, multiplier, max_search, prior);
        lemma_built(top, elements, multiplier, max_search, prior);
        lemma_built(top, elements, multiplier, max_search, count);
        let above = built(top, elements, multiplier, max_search, prior);
        let n = elements.len();
        let size = level_size(count, multiplier, n);
        lemma_level_size(prior, multiplier, n);
        lemma_level_size(count, multiplier, n);
        let layer = above.last();
        let some = elements.take(size as int);
        let new = filled(layer, above, elements, some, max_search);
        assert(layer.len() == level_size(prior, multiplier, n));
        assert(b.last() == new);
        assert(fills(layer, above, elements, some, max_search, new)) by {
            if layer.len() < size {
                assert(above[above.len() - 1] == layer);
            }
            law_filling(layer, above, elements, some, max_search);
        }
        assert forall|l: int| top.len() <= l < b.len() implies (#[trigger] b[l]).len() == (if b[l
            - 1].len() * multiplier < n {
            b[l - 1].len() * multiplier
        } else {
            n
        }) && fills(
            b[l - 1],
            b.take(l),
            elements,
            elements.take(b[l].len() as int),
            max_search,
            b[l],
        ) by {
            if l < above.len() {
                assert(b[l] == above[l]);
                assert(b[l - 1] == above[l - 1]);
                assert(b.take(l) =~= above.take(l));
            } else {
                assert(b[l] == new);
                assert(b[l - 1] == layer);
                assert(b.take(l) =~= above);
            }
        }
    }
}

} // verus!
