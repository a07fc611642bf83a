//! The walk through one layer that looks for the nodes nearest to a goal.
//!
//! The walk keeps the nearest nodes it has been at and the candidates it may go to next. Each
//! step goes to the nearest candidate and makes candidates of its neighbours. It ends when no
//! candidate is left, or when the nearest one is farther than everything that is kept.
use fnv::FnvHashSet;
use vstd::prelude::*;

use crate::distance::{distances_to, Distance, HasDistance};
use crate::heap::{keep_nearest, lemma_keep_nearest, CandidateQueue, MaxSizeHeap};
use crate::node::{graph, HnswNode, NeighborType};
use crate::order::{insert_ranked, lemma_insert_ranked, nearer, nearest_first, rank};

verus! {

/// The hasher of [`FnvHashSet`], which nothing here looks into.
#[verifier::external_type_specification]
#[verifier::external_body]
pub struct ExFnvHasher(fnv::FnvHasher);

/// What makes the hashers of [`FnvHashSet`], which nothing here looks into.
#[verifier::external_type_specification]
#[verifier::external_body]
#[verifier::reject_recursive_types(H)]
pub struct ExBuildHasherDefault<H>(core::hash::BuildHasherDefault<H>);

/// `HashSet::insert` on an [`FnvHashSet`] of indices: the index is in the set afterwards, and the
/// result says whether it was not before.
#[verifier::external_body]
fn visit(visited: &mut FnvHashSet<usize>, idx: usize) -> (fresh: bool)
    ensures
        final(visited)@ == old(visited)@.insert(idx),
        fresh == !old(visited)@.contains(idx),
{
    visited.insert(idx)
}

/// Where a walk is.
#[verifier::ext_equal]
pub struct Walk {
    /// The nearest nodes that the walk has been at, nearest first.
    pub nearest: Seq<(Distance, usize)>,
    /// The candidates to go to, nearest first.
    pub pending: Seq<(Distance, usize)>,
    /// The nodes that were made candidates, or were found too far to be.
    pub visited: Set<usize>,
}

impl Walk {
    /// A walk that begins at `entrypoint`.
    pub open spec fn start(entrypoint: usize, distance: Distance) -> Walk {
        Walk {
            nearest: Seq::empty(),
            pending: seq![(distance, entrypoint)],
            visited: Set::empty().insert(entrypoint),
        }
    }

    /// Whether there is nowhere to go that could improve on what is kept.
    pub open spec fn finished(self, max_search: nat) -> bool {
        ||| self.pending.len() == 0
        ||| self.nearest.len() >= max_search && self.pending[0].0.order()
            > self.nearest.last().0.order()
    }

    /// The walk after going to the nearest candidate.
    pub open spec fn advanced(self, max_search: nat) -> Walk {
        Walk {
            nearest: keep_nearest(self.nearest, self.pending[0], max_search),
            pending: self.pending.drop_first(),
            visited: self.visited,
        }
    }

    /// The walk after it was found to be finished: the nearest candidate, if there is one, is given
    /// up.
    pub open spec fn ended(self) -> Walk {
        Walk {
            nearest: self.nearest,
            pending: if self.pending.len() == 0 {
                self.pending
            } else {
                self.pending.drop_first()
            },
            visited: self.visited,
        }
    }

    /// The walk after coming across node `idx`: a node not seen before becomes a candidate where
    /// it is nearer than something that is kept, or where there is room.
    pub open spec fn across(self, idx: usize, distance: Distance, max_search: nat) -> Walk {
        if self.visited.contains(idx) {
            self
        } else {
            Walk {
                nearest: self.nearest,
                pending: if self.nearest.len() < max_search || distance.order()
                    < self.nearest.last().0.order() {
                    insert_ranked(self.pending, (distance, idx))
                } else {
                    self.pending
                },
                visited: self.visited.insert(idx),
            }
        }
    }

    /// The walk after coming across all `neighbors` in turn.
    pub open spec fn across_all(
        self,
        neighbors: Seq<u32>,
        distances: Seq<Distance>,
        max_search: nat,
    ) -> Walk
        decreases neighbors.len(),
    {
        if neighbors.len() == 0 {
            self
        } else {
            let idx = neighbors.last();
            self.across_all(neighbors.drop_last(), distances, max_search).across(
                idx as usize,
                distances[idx as int],
                max_search,
            )
        }
    }

    /// The walk after one step through `layer`.
    pub open spec fn step(
        self,
        layer: Seq<Seq<u32>>,
        distances: Seq<Distance>,
        max_search: nat,
    ) -> Walk {
        self.advanced(max_search).across_all(
            layer[self.pending[0].1 as int],
            distances,
            max_search,
        )
    }

    /// The walk after `steps` steps, or as many as there are.
    pub open spec fn run(
        self,
        layer: Seq<Seq<u32>>,
        distances: Seq<Distance>,
        max_search: nat,
        steps: nat,
    ) -> Walk
        decreases steps,
    {
        if steps == 0 || self.finished(max_search) {
            self
        } else {
            self.step(layer, distances, max_search).run(
                layer,
                distances,
                max_search,
                (steps - 1) as nat,
            )
        }
    }
}

/// The first `count` candidates, each as an index and its distance.
pub open spec fn results(nearest: Seq<(Distance, usize)>, count: nat) -> Seq<(usize, Distance)> {
    Seq::new(
        if count < nearest.len() {
            count
        } else {
            nearest.len()
        },
        |i: int| (nearest[i].1, nearest[i].0),
    )
}

/// What a whole walk through `layer` from `entrypoint` finds, where `distances` are the distances
/// of the elements to the goal. A walk visits no node twice, so it takes no more steps than the
/// layer has nodes.
pub open spec fn search_layer(
    layer: Seq<Seq<u32>>,
    entrypoint: usize,
    distances: Seq<Distance>,
    max_search: nat,
    max_neighbors: nat,
) -> Seq<(usize, Distance)> {
    results(
        Walk::start(entrypoint, distances[entrypoint as int]).run(
            layer,
            distances,
            max_search,
            layer.len(),
        ).nearest,
        max_neighbors,
    )
}

/// Whether all links of the layer lead to nodes below `bound`.
pub open spec fn links_below(layer: Seq<Seq<u32>>, bound: nat) -> bool {
    forall|i: int, k: int|
        0 <= i < layer.len() && 0 <= k < layer[i].len() ==> (#[trigger] layer[i][k]) < bound
}

/// Whether no two candidates have the same index.
pub open spec fn distinct(s: Seq<(Distance, usize)>) -> bool {
    forall|i: int, j: int| 0 <= i < j < s.len() ==> (#[trigger] s[i]).1 != (#[trigger] s[j]).1
}

/// Whether no candidate has the index `idx`.
pub open spec fn absent(s: Seq<(Distance, usize)>, idx: usize) -> bool {
    forall|i: int| 0 <= i < s.len() ==> (#[trigger] s[i]).1 != idx
}

/// Whether all candidates were visited and have their true distance.
pub open spec fn genuine(
    s: Seq<(Distance, usize)>,
    visited: Set<usize>,
    distances: Seq<Distance>,
) -> bool {
    forall|i: int|
        0 <= i < s.len() ==> visited.contains((#[trigger] s[i]).1) && s[i].0
            == distances[s[i].1 as int]
}

/// What holds of a walk through `size` nodes after `steps` steps.
pub open spec fn sound(
    w: Walk,
    distances: Seq<Distance>,
    max_search: nat,
    size: nat,
    steps: nat,
) -> bool {
    &&& max_search > 0
    &&& nearest_first(w.nearest)
    &&& nearest_first(w.pending)
    &&& w.nearest.len() <= max_search
    &&& steps > 0 ==> w.nearest.len() > 0
    &&& w.visited.finite()
    &&& forall|i: usize| #[trigger] w.visited.contains(i) ==> i < size
    &&& genuine(w.nearest, w.visited, distances)
    &&& genuine(w.pending, w.visited, distances)
    &&& distinct(w.nearest)
    &&& distinct(w.pending)
    &&& forall|i: int| 0 <= i < w.pending.len() ==> absent(w.nearest, (#[trigger] w.pending[i]).1)
    &&& steps + w.pending.len() <= w.visited.len()
}

pub proof fn lemma_insert_distinct(s: Seq<(Distance, usize)>, c: (Distance, usize))
    requires
        nearest_first(s),
        distinct(s),
        absent(s, c.1),
    ensures
        distinct(insert_ranked(s, c)),
        forall|idx: usize| #[trigger] absent(insert_ranked(s, c), idx) <==> absent(s, idx) && idx
            != c.1,
{
    lemma_insert_ranked(s, c);
    let p = rank(s, c);
    let t = insert_ranked(s, c);
    assert(t[p] == c);
    assert(forall|i: int| 0 <= i < p ==> t[i] == s[i]);
    assert(forall|i: int| p < i < t.len() ==> t[i] == s[i - 1]);
    assert forall|idx: usize| #[trigger] absent(t, idx) <==> absent(s, idx) && idx != c.1 by {
        if absent(t, idx) {
            assert forall|i: int| 0 <= i < s.len() implies (#[trigger] s[i]).1 != idx by {
                if i < p {
                    assert(t[i] == s[i]);
                } else {
                    assert(t[i + 1] == s[i]);
                }
            }
        }
    }
    assert forall|i: int, j: int| 0 <= i < j < t.len() implies (#[trigger] t[i]).1
        != (#[trigger] t[j]).1 by {
        let a = if i < p { i } else { i - 1 };
        let b = if j < p { j } else { j - 1 };
        if i != p && j != p {
            assert(s[a].1 != s[b].1);
        }
    }
}

proof fn lemma_insert_genuine(
    s: Seq<(Distance, usize)>,
    c: (Distance, usize),
    visited: Set<usize>,
    distances: Seq<Distance>,
)
    requires
        nearest_first(s),
        genuine(s, visited, distances),
        visited.contains(c.1),
        c.0 == distances[c.1 as int],
    ensures
        genuine(insert_ranked(s, c), visited, distances),
{
    lemma_insert_ranked(s, c);
    let t = insert_ranked(s, c);
    assert forall|i: int| 0 <= i < t.len() implies visited.contains((#[trigger] t[i]).1) && t[i].0
        == distances[t[i].1 as int] by {
        assert(t.contains(t[i]));
        if t[i] != c {
            let k = choose|k: int| 0 <= k < s.len() && s[k] == t[i];
        }
    }
}

/// Going to the nearest candidate keeps a walk sound.
pub proof fn lemma_advanced_sound(
    w: Walk,
    distances: Seq<Distance>,
    max_search: nat,
    size: nat,
    steps: nat,
)
    requires
        sound(w, distances, max_search, size, steps),
        w.pending.len() > 0,
    ensures
        sound(w.advanced(max_search), distances, max_search, size, steps + 1),
{
    let c = w.pending[0];
    let a = w.advanced(max_search);
    lemma_keep_nearest(w.nearest, c, max_search);
    assert(absent(w.nearest, c.1));
    let d = w.nearest.drop_last();
    if w.nearest.len() > 0 {
        assert(nearest_first(d));
        assert(distinct(d));
        assert(absent(d, c.1));
        assert(genuine(d, w.visited, distances));
    }
    if w.nearest.len() < max_search {
        lemma_insert_distinct(w.nearest, c);
        lemma_insert_genuine(w.nearest, c, w.visited, distances);
    } else if nearer(c, w.nearest.last()) {
        lemma_insert_distinct(d, c);
        lemma_insert_genuine(d, c, w.visited, distances);
    }
    assert forall|i: int| 0 <= i < a.pending.len() implies absent(
        a.nearest,
        (#[trigger] a.pending[i]).1,
    ) by {
        let idx = a.pending[i].1;
        assert(a.pending[i] == w.pending[i + 1]);
        assert(absent(w.nearest, idx));
        if w.nearest.len() > 0 {
            assert(absent(d, idx));
        }
        assert(w.pending[0].1 != w.pending[i + 1].1);
    }
}

/// Coming across a node of the layer keeps a walk sound.
proof fn lemma_across_sound(
    w: Walk,
    idx: usize,
    distances: Seq<Distance>,
    max_search: nat,
    size: nat,
    steps: nat,
)
    requires
        sound(w, distances, max_search, size, steps),
        idx < size,
    ensures
        sound(
            w.across(idx, distances[idx as int], max_search),
            distances,
            max_search,
            size,
            steps,
        ),
{
    if !w.visited.contains(idx) {
        let c = (distances[idx as int], idx);
        let a = w.across(idx, distances[idx as int], max_search);
        assert(absent(w.pending, idx));
        assert(absent(w.nearest, idx));
        assert(genuine(w.pending, a.visited, distances));
        lemma_insert_distinct(w.pending, c);
        lemma_insert_ranked(w.pending, c);
        lemma_insert_genuine(w.pending, c, a.visited, distances);
        assert forall|i: int| 0 <= i < a.pending.len() implies absent(
            a.nearest,
            (#[trigger] a.pending[i]).1,
        ) by {
            assert(a.pending.contains(a.pending[i]));
            if a.pending[i] != c {
                let k = choose|k: int| 0 <= k < w.pending.len() && w.pending[k] == a.pending[i];
                assert(absent(w.nearest, w.pending[k].1));
            }
        }
    }
}

pub proof fn lemma_across_all_sound(
    w: Walk,
    neighbors: Seq<u32>,
    distances: Seq<Distance>,
    max_search: nat,
    size: nat,
    steps: nat,
)
    requires
        sound(w, distances, max_search, size, steps),
        forall|k: int| 0 <= k < neighbors.len() ==> (#[trigger] neighbors[k]) < size,
    ensures
        sound(w.across_all(neighbors, distances, max_search), distances, max_search, size, steps),
    decreases neighbors.len(),
{
    if neighbors.len() > 0 {
        lemma_across_all_sound(
            w,
            neighbors.drop_last(),
            distances,
            max_search,
            size,
            steps,
        );
        assert(neighbors.last() == neighbors[neighbors.len() - 1]);
        lemma_across_sound(
            w.across_all(neighbors.drop_last(), distances, max_search),
            neighbors.last() as usize,
            distances,
            max_search,
            size,
            steps,
        );
    }
}

/// A walk begins sound.
pub proof fn lemma_start_sound(
    entrypoint: usize,
    distances: Seq<Distance>,
    max_search: nat,
    size: nat,
)
    requires
        max_search > 0,
        entrypoint < size,
    ensures
        sound(
            Walk::start(entrypoint, distances[entrypoint as int]),
            distances,
            max_search,
            size,
            0,
        ),
{
}

/// A step keeps a walk sound, where all links lead to the first `size` nodes.
pub proof fn lemma_step_sound(
    w: Walk,
    layer: Seq<Seq<u32>>,
    distances: Seq<Distance>,
    max_search: nat,
    size: nat,
    steps: nat,
)
    requires
        sound(w, distances, max_search, size, steps),
        w.pending.len() > 0,
        size <= layer.len(),
        links_below(layer, size),
    ensures
        sound(w.step(layer, distances, max_search), distances, max_search, size, steps + 1),
{
    let c = w.pending[0];
    assert(w.visited.contains(c.1));
    lemma_advanced_sound(w, distances, max_search, size, steps);
    let neighbors = layer[c.1 as int];
    assert forall|k: int| 0 <= k < neighbors.len() implies (#[trigger] neighbors[k]) < size by {
        assert(layer[c.1 as int][k] < size);
    }
    lemma_across_all_sound(
        w.advanced(max_search),
        neighbors,
        distances,
        max_search,
        size,
        steps + 1,
    );
}

/// A walk through nodes that are linked anew meanwhile goes to nodes of the layer all the same:
/// whatever neighbours it is told of each node it goes to, as long as they are nodes of the layer,
/// what it keeps and its candidates are nodes of the layer with their true distances, none of them
/// twice. And it comes to an end: it takes no more steps than there are nodes.
pub proof fn law_walk_while_nodes_are_linked(
    w: Walk,
    neighbors: Seq<u32>,
    distances: Seq<Distance>,
    max_search: nat,
    size: nat,
    steps: nat,
)
    requires
        sound(w, distances, max_search, size, steps),
        !w.finished(max_search),
        forall|k: int| 0 <= k < neighbors.len() ==> (#[trigger] neighbors[k]) < size,
    ensures
        sound(
            w.advanced(max_search).across_all(neighbors, distances, max_search),
            distances,
            max_search,
            size,
            steps + 1,
        ),
        w.pending[0].1 < size,
        steps + 1 <= size,
{
    assert(w.visited.contains(w.pending[0].1));
    lemma_advanced_sound(w, distances, max_search, size, steps);
    lemma_across_all_sound(
        w.advanced(max_search),
        neighbors,
        distances,
        max_search,
        size,
        steps + 1,
    );
    lemma_steps_bounded(w, distances, max_search, size, steps);
}

proof fn lemma_indices_below(s: Set<usize>, size: nat)
    requires
        s.finite(),
        forall|i: usize| #[trigger] s.contains(i) ==> i < size,
    ensures
        s.len() <= size,
    decreases size,
{
    if size == 0 {
        assert(s =~= Set::empty());
    } else {
        let last = (size - 1) as usize;
        if size - 1 <= usize::MAX && s.contains(last) {
            lemma_indices_below(s.remove(last), (size - 1) as nat);
        } else {
            lemma_indices_below(s, (size - 1) as nat);
        }
    }
}

/// A sound walk has taken no more steps than there are nodes, and no fewer candidates are left
/// than nodes to go to.
pub proof fn lemma_steps_bounded(
    w: Walk,
    distances: Seq<Distance>,
    max_search: nat,
    size: nat,
    steps: nat,
)
    requires
        sound(w, distances, max_search, size, steps),
    ensures
        steps + w.pending.len() <= size,
{
    lemma_indices_below(w.visited, size);
}

/// A run of enough steps stays sound and ends in a walk that is finished.
pub proof fn lemma_run_sound(
    w: Walk,
    layer: Seq<Seq<u32>>,
    distances: Seq<Distance>,
    max_search: nat,
    size: nat,
    steps: nat,
    fuel: nat,
)
    requires
        sound(w, distances, max_search, size, steps),
        size <= layer.len(),
        size <= steps + fuel,
        links_below(layer, size),
    ensures
        ({
            let end = w.run(layer, distances, max_search, fuel);
            &&& end.finished(max_search)
            &&& exists|n: nat| n >= steps && #[trigger] sound(end, distances, max_search, size, n)
            &&& w.pending.len() > 0 && steps == 0 ==> end.nearest.len() > 0
        }),
    decreases fuel,
{
    lemma_steps_bounded(w, distances, max_search, size, steps);
    if !(fuel == 0 || w.finished(max_search)) {
        let next = w.step(layer, distances, max_search);
        lemma_step_sound(w, layer, distances, max_search, size, steps);
        lemma_run_sound(next, layer, distances, max_search, size, steps + 1, (fuel - 1) as nat);
        assert(w.run(layer, distances, max_search, fuel) == next.run(
            layer,
            distances,
            max_search,
            (fuel - 1) as nat,
        ));
    } else {
        assert(w.run(layer, distances, max_search, fuel) == w);
        assert(sound(w, distances, max_search, size, steps));
    }
}

/// A walk, one step at a time. Whoever holds the layer asks for the node to go to, looks up its
/// neighbours and hands them back:
///
/// ```text
/// while let Some(idx) = search.next() {
///     search.expand(neighbors_of(idx), elements, goal);
/// }
/// search.finish(max_neighbors)
/// ```
pub struct NeighborSearch {
    found: MaxSizeHeap,
    pending: CandidateQueue,
    visited: FnvHashSet<usize>,
}

impl View for NeighborSearch {
    type V = Walk;

    closed spec fn view(&self) -> Walk {
        Walk { nearest: self.found@, pending: self.pending@, visited: self.visited@ }
    }
}

impl NeighborSearch {
    /// How many of the nearest nodes are kept.
    pub closed spec fn max_search(&self) -> nat {
        self.found.max_size()
    }

    /// The queues are in order, and there is room for a node.
    pub closed spec fn wf(&self) -> bool {
        &&& self.found.wf()
        &&& self.pending.wf()
        &&& self.found.max_size() > 0
    }

    /// Begins a walk at `entrypoint`, which is at `distance` from the goal.
    pub fn new(entrypoint: usize, distance: Distance, max_search: usize) -> (r: Self)
        requires
            max_search > 0,
        ensures
            r.wf(),
            r.max_search() == max_search,
            r@ == Walk::start(entrypoint, distance),
    {
        let found = MaxSizeHeap::new(max_search);
        let mut pending = CandidateQueue::new();
        let mut visited: FnvHashSet<usize> = Default::default();
        pending.push((distance, entrypoint));
        visit(&mut visited, entrypoint);
        let r = NeighborSearch { found, pending, visited };
        assert(r@ =~= Walk::start(entrypoint, distance));
        r
    }

    /// Goes to the nearest candidate and returns it, or `None` where the walk is finished. A walk
    /// that is finished stays so.
    pub fn next(&mut self) -> (r: Option<usize>)
        requires
            old(self).wf(),
        ensures
            final(self).wf(),
            final(self).max_search() == old(self).max_search(),
            match r {
                Some(idx) => !old(self)@.finished(old(self).max_search()) && idx
                    == old(self)@.pending[0].1 && final(self)@ == old(self)@.advanced(
                    old(self).max_search(),
                ),
                None => old(self)@.finished(old(self).max_search()) && final(self)@
                    == old(self)@.ended() && final(self)@.finished(old(self).max_search()),
            },
    {
        match self.pending.pop() {
            None => {
                assert(self@ =~= old(self)@.ended());
                None
            },
            Some((d, idx)) => {
                if self.found.is_full() && self.found.peek().unwrap().0.is_less(d) {
                    proof {
                        assert(self@ =~= old(self)@.ended());
                        if self@.pending.len() > 0 {
                            assert(!nearer(old(self)@.pending[1], old(self)@.pending[0]));
                        }
                    }
                    return None;
                }
                self.found.push((d, idx));
                Some(idx)
            },
        }
    }

    /// Comes across the neighbours of the node that the walk went to last.
    pub fn expand<T: HasDistance>(
        &mut self,
        neighbors: &[NeighborType],
        elements: &[T],
        goal: &T,
    )
        requires
            old(self).wf(),
            forall|k: int| 0 <= k < neighbors@.len() ==> (#[trigger] neighbors@[k]) < elements@.len(),
        ensures
            final(self).wf(),
            final(self).max_search() == old(self).max_search(),
            final(self)@ == old(self)@.across_all(
                neighbors@,
                distances_to(elements@, *goal),
                old(self).max_search(),
            ),
    {
        let ghost distances = distances_to(elements@, *goal);
        let ghost max_search = self.max_search();
        assert(neighbors@.take(0) =~= Seq::empty());
        let mut k: usize = 0;
        while k < neighbors.len()
            invariant
                k <= neighbors@.len(),
                self.wf(),
                self.max_search() == max_search,
                max_search == old(self).max_search(),
                distances == distances_to(elements@, *goal),
                forall|k: int|
                    0 <= k < neighbors@.len() ==> (#[trigger] neighbors@[k]) < elements@.len(),
                self@ == old(self)@.across_all(neighbors@.take(k as int), distances, max_search),
            decreases neighbors@.len() - k,
        {
            let ghost before = self@;
            let idx: usize = neighbors[k] as usize;
            if visit(&mut self.visited, idx) {
                let distance = elements[idx].dist(goal);
                if !self.found.is_full() || distance.is_less(self.found.peek().unwrap().0) {
                    self.pending.push((distance, idx));
                }
            }
            proof {
                assert(self@ =~= before.across(idx, distances[idx as int], max_search)) by {
                    assert(before.visited.contains(idx) ==> before.visited.insert(idx)
                        =~= before.visited);
                }
                assert(neighbors@.take(k + 1).drop_last() =~= neighbors@.take(k as int));
            }
            k += 1;
        }
        assert(neighbors@.take(k as int) =~= neighbors@);
    }

    /// The nearest nodes that the walk has been at, `max_neighbors` at most, nearest first.
    pub fn finish(self, max_neighbors: usize) -> (r: Vec<(usize, Distance)>)
        ensures
            r@ == results(self@.nearest, max_neighbors as nat),
    {
        let found = self.found.into_sorted_vec();
        let mut r: Vec<(usize, Distance)> = Vec::new();
        let mut i: usize = 0;
        while i < found.len() && i < max_neighbors
            invariant
                found@ == self@.nearest,
                i <= found@.len(),
                i <= max_neighbors,
                r@.len() == i,
                forall|j: int| 0 <= j < i ==> r@[j] == (found@[j].1, found@[j].0),
            decreases found@.len() - i,
        {
            r.push((found[i].1, found[i].0));
            i += 1;
        }
        assert(r@ =~= results(self@.nearest, max_neighbors as nat));
        r
    }
}

/// Walks through a layer from `entrypoint` and returns the nodes nearest to `goal` that it finds,
/// nearest first.
pub fn walk_layer<T: HasDistance>(
    layer: &[HnswNode],
    entrypoint: usize,
    elements: &[T],
    goal: &T,
    max_search: usize,
    max_neighbors: usize,
) -> (r: Vec<(usize, Distance)>)
    requires
        max_search > 0,
        entrypoint < layer@.len() <= elements@.len(),
        links_below(graph(layer@), layer@.len()),
    ensures
        r@ == search_layer(
            graph(layer@),
            entrypoint,
            distances_to(elements@, *goal),
            max_search as nat,
            max_neighbors as nat,
        ),
{
    let ghost g = graph(layer@);
    let ghost distances = distances_to(elements@, *goal);
    let mut search = NeighborSearch::new(entrypoint, elements[entrypoint].dist(goal), max_search);
    let ghost start = search@;
    let ghost mut steps: nat = 0;
    proof {
        lemma_start_sound(entrypoint, distances, max_search as nat, g.len());
    }
    loop
        invariant_except_break
            g == graph(layer@),
            layer@.len() <= elements@.len(),
            links_below(g, g.len()),
            distances == distances_to(elements@, *goal),
            search.wf(),
            search.max_search() == max_search,
            steps <= g.len(),
            sound(search@, distances, max_search as nat, g.len(), steps),
            search@.run(g, distances, max_search as nat, (g.len() - steps) as nat) == start.run(
                g,
                distances,
                max_search as nat,
                g.len(),
            ),
        ensures
            search@.nearest == start.run(g, distances, max_search as nat, g.len()).nearest,
        decreases g.len() - steps,
    {
        let ghost before = search@;
        proof {
            lemma_steps_bounded(before, distances, max_search as nat, g.len(), steps);
        }
        match search.next() {
            None => {
                break;
            },
            Some(idx) => {
                assert(before.visited.contains(before.pending[0].1));
                let neighbors = layer[idx].neighbors();
                assert(neighbors@ == g[idx as int]);
                assert forall|k: int| 0 <= k < neighbors@.len() implies (#[trigger] neighbors@[k])
                    < elements@.len() by {
                    assert(g[idx as int][k] < g.len());
                }
                search.expand(neighbors, elements, goal);
                proof {
                    lemma_step_sound(before, g, distances, max_search as nat, g.len(), steps);
                    steps = steps + 1;
                }
            },
        }
    }
    search.finish(max_neighbors)
}

/// What a walk finds where all links lead to the first `size` nodes.
pub proof fn lemma_search_results(
    layer: Seq<Seq<u32>>,
    entrypoint: usize,
    distances: Seq<Distance>,
    max_search: nat,
    max_neighbors: nat,
    size: nat,
)
    requires
        max_search > 0,
        entrypoint < size <= layer.len() <= distances.len(),
        links_below(layer, size),
    ensures
        ({
            let r = search_layer(layer, entrypoint, distances, max_search, max_neighbors);
            &&& r.len() <= max_search
            &&& r.len() <= max_neighbors
            &&& max_neighbors > 0 ==> r.len() > 0
            &&& forall|i: int|
                0 <= i < r.len() ==> (#[trigger] r[i]).0 < size && r[i].1
                    == distances[r[i].0 as int]
            &&& forall|i: int, j: int|
                0 <= i < j < r.len() ==> (#[trigger] r[i]).0 != (#[trigger] r[j]).0 && nearer(
                    (r[i].1, r[i].0),
                    (r[j].1, r[j].0),
                )
        }),
{
    let start = Walk::start(entrypoint, distances[entrypoint as int]);
    lemma_start_sound(entrypoint, distances, max_search, size);
    lemma_run_sound(start, layer, distances, max_search, size, 0, layer.len());
    let end = start.run(layer, distances, max_search, layer.len());
    let n = choose|n: nat| n >= 0 && #[trigger] sound(end, distances, max_search, size, n);
    let r = search_layer(layer, entrypoint, distances, max_search, max_neighbors);
    assert forall|i: int, j: int| 0 <= i < j < r.len() implies (#[trigger] r[i]).0
        != (#[trigger] r[j]).0 && nearer((r[i].1, r[i].0), (r[j].1, r[j].0)) by {
        assert(!nearer(end.nearest[j], end.nearest[i]));
        assert(end.nearest[i].1 != end.nearest[j].1);
    }
    assert forall|i: int| 0 <= i < r.len() implies (#[trigger] r[i]).0 < size && r[i].1
        == distances[r[i].0 as int] by {
        assert(end.visited.contains(end.nearest[i].1));
    }
}

/// What a walk finds is in the layer, has its true distance, occurs once and stands nearest
/// first, by index where distances are equal. Something is found wherever something may be returned.
pub proof fn law_search_results(
    layer: Seq<Seq<u32>>,
    entrypoint: usize,
    distances: Seq<Distance>,
    max_search: nat,
    max_neighbors: nat,
)
    requires
        max_search > 0,
        entrypoint < layer.len() <= distances.len(),
        links_below(layer, layer.len()),
    ensures
        ({
            let r = search_layer(layer, entrypoint, distances, max_search, max_neighbors);
            &&& r.len() <= max_search
            &&& r.len() <= max_neighbors
            &&& max_neighbors > 0 ==> r.len() > 0
            &&& forall|i: int|
                0 <= i < r.len() ==> (#[trigger] r[i]).0 < layer.len() && r[i].1
                    == distances[r[i].0 as int]
            &&& forall|i: int, j: int|
                0 <= i < j < r.len() ==> (#[trigger] r[i]).0 != (#[trigger] r[j]).0 && nearer(
                    (r[i].1, r[i].0),
                    (r[j].1, r[j].0),
                )
        }),
{
    lemma_search_results(layer, entrypoint, distances, max_search, max_neighbors, layer.len());
}

proof fn lemma_keep_head(s: Seq<(Distance, usize)>, c: (Distance, usize), max_size: nat)
    requires
        nearest_first(s),
        0 < s.len() <= max_size,
    ensures
        !nearer(s[0], keep_nearest(s, c, max_size)[0]),
{
    let t = keep_nearest(s, c, max_size);
    lemma_keep_nearest(s, c, max_size);
    if s.len() < max_size {
        lemma_insert_ranked(s, c);
        assert(t.contains(s[0]));
        let i = choose|i: int| 0 <= i < t.len() && t[i] == s[0];
        assert(i > 0 ==> !nearer(t[i], t[0]));
    } else if nearer(c, s.last()) {
        let d = s.drop_last();
        assert(nearest_first(d));
        lemma_insert_ranked(d, c);
        if d.len() > 0 {
            assert(d.contains(d[0]));
            assert(t.contains(s[0]));
            let i = choose|i: int| 0 <= i < t.len() && t[i] == s[0];
            assert(i > 0 ==> !nearer(t[i], t[0]));
        }
    }
}

pub proof fn lemma_across_all_nearest(
    w: Walk,
    neighbors: Seq<u32>,
    distances: Seq<Distance>,
    max_search: nat,
)
    ensures
        w.across_all(neighbors, distances, max_search).nearest == w.nearest,
    decreases neighbors.len(),
{
    if neighbors.len() > 0 {
        lemma_across_all_nearest(w, neighbors.drop_last(), distances, max_search);
    }
}

proof fn lemma_run_head(
    w: Walk,
    layer: Seq<Seq<u32>>,
    distances: Seq<Distance>,
    max_search: nat,
    steps: nat,
    fuel: nat,
)
    requires
        sound(w, distances, max_search, layer.len(), steps),
        links_below(layer, layer.len()),
        w.nearest.len() > 0,
    ensures
        w.run(layer, distances, max_search, fuel).nearest.len() >= w.nearest.len(),
        !nearer(w.nearest[0], w.run(layer, distances, max_search, fuel).nearest[0]),
    decreases fuel,
{
    if !(fuel == 0 || w.finished(max_search)) {
        let next = w.step(layer, distances, max_search);
        lemma_step_sound(w, layer, distances, max_search, layer.len(), steps);
        lemma_across_all_nearest(
            w.advanced(max_search),
            layer[w.pending[0].1 as int],
            distances,
            max_search,
        );
        lemma_keep_nearest(w.nearest, w.pending[0], max_search);
        lemma_keep_head(w.nearest, w.pending[0], max_search);
        lemma_run_head(next, layer, distances, max_search, steps + 1, (fuel - 1) as nat);
    }
}

/// The first node that a walk finds is no farther from the goal than where the walk began.
pub proof fn law_search_improves_on_entrypoint(
    layer: Seq<Seq<u32>>,
    entrypoint: usize,
    distances: Seq<Distance>,
    max_search: nat,
    max_neighbors: nat,
)
    requires
        max_search > 0,
        max_neighbors > 0,
        entrypoint < layer.len() <= distances.len(),
        links_below(layer, layer.len()),
    ensures
        search_layer(layer, entrypoint, distances, max_search, max_neighbors)[0].1.order()
            <= distances[entrypoint as int].order(),
{
    law_search_results(layer, entrypoint, distances, max_search, max_neighbors);
    let start = Walk::start(entrypoint, distances[entrypoint as int]);
    lemma_start_sound(entrypoint, distances, max_search, layer.len());
    let first = start.step(layer, distances, max_search);
    lemma_step_sound(start, layer, distances, max_search, layer.len(), 0);
    lemma_across_all_nearest(
        start.advanced(max_search),
        layer[entrypoint as int],
        distances,
        max_search,
    );
    assert(first.nearest =~= seq![(distances[entrypoint as int], entrypoint)]);
    lemma_run_head(first, layer, distances, max_search, 1, (layer.len() - 1) as nat);
}

pub proof fn lemma_across_all_visited(
    w: Walk,
    neighbors: Seq<u32>,
    distances: Seq<Distance>,
    max_search: nat,
    idx: usize,
)
    requires
        w.visited.contains(idx),
    ensures
        w.across_all(neighbors, distances, max_search).visited.contains(idx),
    decreases neighbors.len(),
{
    if neighbors.len() > 0 {
        lemma_across_all_visited(w, neighbors.drop_last(), distances, max_search, idx);
    }
}

} // verus!
