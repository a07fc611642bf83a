//! What builds and extends an index.
use vstd::prelude::*;
use vstd::slice::slice_subrange;

use crate::distance::{distances_from, distances_to, negligible, Distance, HasDistance};
use crate::index::{
    law_index_search_results, lemma_push_searchable, lemma_upper_levels, search_levels, searchable,
    Hnsw, Layer,
};
use crate::link::{
    connected, divided, extended, filled, found, ids, initialized, inserted, inserted_range,
    lemma_found, law_selection_draws, lemma_inserted, lemma_linked, linked, rivals, selected, turned,
};
use crate::node::{graph, lists_fit, HnswNode, NeighborType, MAX_NEIGHBORS};
use crate::order::{insert_candidate, lemma_rank, lemma_rank_at, lemma_ranked, nearer, rank, ranked};
use crate::search::{links_below, search_layer, walk_layer};
use crate::storage::{
    flat, flat_above, header, index_bytes, lemma_flat_above, lemma_nodes_bytes_split, nodes_bytes,
    push_node, push_word, words_bytes, ByteOrder,
};

verus! {

/// How an index is built.
pub struct Config {
    /// The number of layers.
    pub num_levels: usize,
    /// How many times as long as the layer above it a layer is.
    pub level_multiplier: usize,
    /// How many nodes are kept while looking for neighbours of a new element.
    pub max_search: usize,
    /// Whether progress is shown while elements are inserted.
    pub show_progress: bool,
}

/// Builds an index over `elements`. The view is the graphs of its layers.
pub struct HnswBuilder<'a, T: HasDistance + Sync + Send + 'a> {
    pub levels: Vec<Vec<HnswNode>>,
    pub elements: &'a [T],
    pub config: Config,
}

impl<'a, T: HasDistance + Sync + Send + 'a> View for HnswBuilder<'a, T> {
    type V = Seq<Seq<Seq<u32>>>;

    open spec fn view(&self) -> Seq<Seq<Seq<u32>>> {
        stack(self.levels@)
    }
}

/// The graphs of a stack of layers.
pub open spec fn stack(levels: Seq<Vec<HnswNode>>) -> Seq<Seq<Seq<u32>>> {
    Seq::new(levels.len(), |l: int| graph(levels[l]@))
}

/// Copies the nodes of a layer.
fn copy_nodes(nodes: &[HnswNode]) -> (r: Vec<HnswNode>)
    ensures
        graph(r@) == graph(nodes@),
{
    let mut r: Vec<HnswNode> = Vec::new();
    r.extend_from_slice(nodes);
    assert(graph(r@) =~= graph(nodes@)) by {
        assert forall|i: int| 0 <= i < nodes@.len() implies r@[i]@ == nodes@[i]@ by {
            assert(cloned::<HnswNode>(nodes@[i], r@[i]));
        }
    }
    r
}

impl<'a, T: HasDistance + Sync + Send + 'a> HnswBuilder<'a, T> {
    /// A builder without layers. Neighbours are referred to by 32 bit numbers, so there must be
    /// fewer elements than such a number can count.
    pub fn new(config: Config, elements: &'a [T]) -> (r: Self)
        requires
            elements@.len() < NeighborType::MAX,
        ensures
            r@ == Seq::<Seq<Seq<u32>>>::empty(),
            r.elements@ == elements@,
            r.config == config,
    {
        let r = HnswBuilder { levels: Vec::new(), elements, config };
        assert(r@ =~= Seq::<Seq<Seq<u32>>>::empty());
        r
    }

    /// The index as built so far.
    pub fn get_index(&self) -> (r: Hnsw<'_, T>)
        ensures
            r@ == self@,
            r.elements@ == self.elements@,
    {
        let mut levels: Vec<Layer> = Vec::new();
        let mut l: usize = 0;
        while l < self.levels.len()
            invariant
                l <= self.levels@.len(),
                levels@.len() == l,
                forall|m: int| 0 <= m < l ==> (#[trigger] levels@[m])@ == graph(self.levels@[m]@),
            decreases self.levels@.len() - l,
        {
            levels.push(Layer::Borrowed(self.levels[l].as_slice()));
            l += 1;
        }
        let r = Hnsw { levels, elements: self.elements };
        assert(r@ =~= self@);
        r
    }

    /// Appends the bytes of the index to the buffer: its header, and then layer by layer, with
    /// numbers in the byte order of the machine.
    pub fn write(&self, buffer: &mut Vec<u8>)
        requires
            flat(self@).len() <= usize::MAX,
        ensures
            final(buffer)@ == old(buffer)@ + index_bytes(self@, ByteOrder::machine()),
            forall|l: int| 0 <= l < self@.len() ==> lists_fit(#[trigger] self@[l]),
    {
        let order = ByteOrder::native();
        self.write_header(buffer, order);
        let ghost head = buffer@;
        let mut l: usize = 0;
        assert(self@.take(0) =~= Seq::empty());
        assert(buffer@ =~= head + nodes_bytes(flat(self@.take(0)), order));
        while l < self.levels.len()
            invariant
                l <= self.levels@.len(),
                buffer@ == head + nodes_bytes(flat(self@.take(l as int)), order),
                forall|m: int| 0 <= m < l ==> lists_fit(#[trigger] self@[m]),
            decreases self.levels@.len() - l,
        {
            let ghost before = flat(self@.take(l as int));
            self.write_level(buffer, l, order);
            proof {
                lemma_nodes_bytes_split(before, self@[l as int], order);
                assert(self@.take(l + 1).drop_last() =~= self@.take(l as int));
            }
            l += 1;
            assert(buffer@ =~= head + nodes_bytes(flat(self@.take(l as int)), order));
        }
        assert(self@.take(l as int) =~= self@);
        assert(buffer@ =~= old(buffer)@ + index_bytes(self@, order));
    }

    /// Appends the bytes that a stored index begins with.
    pub fn write_header(&self, buffer: &mut Vec<u8>, order: ByteOrder)
        requires
            flat(self@).len() <= usize::MAX,
        ensures
            final(buffer)@ == old(buffer)@ + words_bytes(header(self@), order),
    {
        let ghost h = header(self@);
        let num_nodes = self.count_nodes();
        assert(words_bytes(h.take(0), order) =~= Seq::empty());
        push_word(buffer, num_nodes, order);
        assert(h.take(1).drop_last() =~= h.take(0));
        assert(buffer@ =~= old(buffer)@ + words_bytes(h.take(1), order));
        push_word(buffer, self.levels.len(), order);
        assert(h.take(2).drop_last() =~= h.take(1));
        assert(buffer@ =~= old(buffer)@ + words_bytes(h.take(2), order));
        let mut l: usize = 0;
        while l < self.levels.len()
            invariant
                l <= self.levels@.len(),
                h == header(self@),
                buffer@ == old(buffer)@ + words_bytes(h.take(l + 2), order),
            decreases self.levels@.len() - l,
        {
            push_word(buffer, self.levels[l].len(), order);
            l += 1;
            assert(h.take(l + 2).drop_last() =~= h.take(l + 1));
            assert(buffer@ =~= old(buffer)@ + words_bytes(h.take(l + 2), order));
        }
        assert(h.take(l + 2) =~= h);
    }

    /// Appends the records of layer `l`.
    pub fn write_level(&self, buffer: &mut Vec<u8>, l: usize, order: ByteOrder)
        requires
            l < self@.len(),
        ensures
            final(buffer)@ == old(buffer)@ + nodes_bytes(self@[l as int], order),
            lists_fit(self@[l as int]),
    {
        let ghost level = self@[l as int];
        let nodes = &self.levels[l];
        let mut i: usize = 0;
        assert(buffer@ =~= old(buffer)@ + nodes_bytes(level.take(0), order));
        while i < nodes.len()
            invariant
                i <= nodes@.len(),
                level == graph(nodes@),
                buffer@ == old(buffer)@ + nodes_bytes(level.take(i as int), order),
                forall|m: int| 0 <= m < i ==> (#[trigger] level[m]).len() <= MAX_NEIGHBORS,
            decreases nodes@.len() - i,
        {
            push_node(buffer, &nodes[i], order);
            i += 1;
            assert(level.take(i as int).drop_last() =~= level.take(i - 1));
            assert(buffer@ =~= old(buffer)@ + nodes_bytes(level.take(i as int), order));
        }
        assert(level.take(i as int) =~= level);
    }

    /// The number of nodes in all layers.
    fn count_nodes(&self) -> (n: usize)
        requires
            flat(self@).len() <= usize::MAX,
        ensures
            n == flat(self@).len(),
    {
        let mut n: usize = 0;
        let mut l: usize = 0;
        assert(self@.take(0) =~= Seq::empty());
        while l < self.levels.len()
            invariant
                l <= self.levels@.len(),
                flat(self@).len() <= usize::MAX,
                n == flat_above(self@, l as int),
            decreases self.levels@.len() - l,
        {
            proof {
                lemma_flat_above(self@, l as int);
            }
            n = n + self.levels[l].len();
            l += 1;
        }
        assert(self@.take(l as int) =~= self@);
        n
    }

    /// A builder that goes on from the layers of an index.
    pub fn load(config: Config, index: &Hnsw<T>, elements: &'a [T]) -> (r: Self)
        requires
            elements@.len() < NeighborType::MAX,
            index@.len() > 0,
            index@.last().len() <= elements@.len(),
        ensures
            r@ == index@,
            r.elements@ == elements@,
            r.config == config,
    {
        let mut builder = Self::new(config, elements);
        assert(builder@.len() == 0);
        let mut l: usize = 0;
        while l < index.levels.len()
            invariant
                l <= index.levels@.len(),
                builder.levels@.len() == l,
                builder.elements@ == elements@,
                builder.config == config,
                forall|m: int|
                    0 <= m < l ==> graph((#[trigger] builder.levels@[m])@) == index.levels@[m]@,
            decreases index.levels@.len() - l,
        {
            builder.levels.push(copy_nodes(index.levels[l].nodes()));
            l += 1;
        }
        assert(builder@ =~= index@);
        builder
    }

    /// Chooses among the candidates for the neighbours of element `idx`, which stand nearest
    /// first. See [`selected`].
    pub fn select_neighbors(
        idx: usize,
        candidates: Vec<(usize, Distance)>,
        elements: &[T],
        max_neighbors: usize,
    ) -> (r: Vec<(usize, Distance)>)
        requires
            candidates@.len() > max_neighbors > 1 ==> idx < elements@.len() && forall|k: int|
                0 < k < candidates@.len() ==> (#[trigger] candidates@[k]).0 < elements@.len(),
        ensures
            r@ == selected(
                candidates@,
                distances_from(elements@[idx as int], elements@),
                max_neighbors as nat,
            ),
    {
        if candidates.len() <= max_neighbors {
            return candidates;
        }
        let ghost own = distances_from(elements@[idx as int], elements@);
        let mut res: Vec<(usize, Distance)> = Vec::new();
        let mut pruned: Vec<(usize, Distance)> = Vec::new();
        let mut k: usize = 0;
        assert(candidates@.take(0) =~= Seq::empty());
        while k < candidates.len() && res.len() < max_neighbors
            invariant
                k <= candidates@.len(),
                candidates@.len() > max_neighbors,
                k > 0 ==> res@.len() > 0 || max_neighbors == 0,
                res@.len() <= max_neighbors,
                max_neighbors > 1 ==> idx < elements@.len() && forall|k: int|
                    0 < k < candidates@.len() ==> (#[trigger] candidates@[k]).0 < elements@.len(),
                own == distances_from(elements@[idx as int], elements@),
                (res@, pruned@) == divided(
                    candidates@.take(k as int),
                    own,
                    max_neighbors as nat,
                ),
            decreases candidates@.len() - k,
        {
            let (j, d) = candidates[k];
            assert(candidates@.take(k + 1).drop_last() =~= candidates@.take(k as int));
            if res.len() == 0 || d.is_less(elements[idx].dist(&elements[j])) {
                res.push((j, d));
            } else {
                pruned.push((j, d));
            }
            k += 1;
        }
        proof {
            lemma_divided_stops(candidates@, own, max_neighbors as nat, k as int);
        }
        let remaining: usize = max_neighbors - res.len();
        let ghost preferred = res@;
        let mut i: usize = 0;
        while i < remaining && i < pruned.len()
            invariant
                i <= remaining,
                i <= pruned@.len(),
                res@ == preferred + pruned@.take(i as int),
            decreases pruned@.len() - i,
        {
            res.push(pruned[i]);
            i += 1;
            assert(res@ =~= preferred + pruned@.take(i as int));
        }
        res
    }

    /// Gives its first neighbours to a node that has none.
    pub fn initialize_neighbors(node: &mut HnswNode, neighbors: &[(usize, Distance)])
        requires
            old(node)@.len() == 0,
        ensures
            final(node)@ == initialized(neighbors@),
    {
        let num_to_add: usize = node.capacity() - node.neighbors().len();
        let mut i: usize = 0;
        while i < num_to_add && i < neighbors.len()
            invariant
                num_to_add == MAX_NEIGHBORS,
                i <= num_to_add,
                i <= neighbors@.len(),
                node@.len() == i,
                forall|k: int| 0 <= k < i ==> node@[k] == neighbors@[k].0 as u32,
            decreases neighbors@.len() - i,
        {
            node.add_neighbor(neighbors[i].0 as NeighborType);
            i += 1;
        }
        assert(node@ =~= initialized(neighbors@));
    }

    /// Connects the node of element `i` to element `j` at distance `d`. See [`connected`]. Where the
    /// node is full, element `j` is looked at unless `d` puts it before all neighbours.
    pub fn connect_nodes(node: &mut HnswNode, elements: &[T], i: usize, j: usize, d: Distance)
        requires
            old(node)@.len() >= MAX_NEIGHBORS ==> {
                &&& i < elements@.len()
                &&& forall|k: int|
                    0 <= k < old(node)@.len() ==> (#[trigger] old(node)@[k]) < elements@.len()
                &&& j < elements@.len() || comes_first(
                    old(node)@,
                    distances_from(elements@[i as int], elements@),
                    j,
                    d,
                )
            },
        ensures
            final(node)@ == connected(
                old(node)@,
                distances_from(elements@[i as int], elements@),
                j,
                d,
            ),
    {
        let ghost own = distances_from(elements@[i as int], elements@);
        let ghost before = node@;
        if node.neighbors().len() < MAX_NEIGHBORS {
            node.add_neighbor(j as NeighborType);
        } else {
            let candidates = Self::sorted_rivals(node.neighbors(), elements, i, j, d);
            proof {
                lemma_rivals_below(before, own, j, d, elements@.len());
                lemma_ranked(rivals(before, own, j, d));
                law_selection_draws(candidates@, own, MAX_NEIGHBORS as nat);
            }
            let neighbors = Self::select_neighbors(i, candidates, elements, MAX_NEIGHBORS);
            let mut k: usize = 0;
            while k < neighbors.len()
                invariant
                    k <= neighbors@.len(),
                    neighbors@.len() == MAX_NEIGHBORS,
                    node@.len() == MAX_NEIGHBORS,
                    forall|m: int| 0 <= m < k ==> node@[m] == neighbors@[m].0 as u32,
                decreases neighbors@.len() - k,
            {
                node.replace_neighbor(k, neighbors[k].0 as NeighborType);
                k += 1;
            }
            assert(node@ =~= ids(neighbors@));
        }
    }

    /// The neighbours of the node of element `i`, and with them element `j` at distance `d`, by
    /// their distance to element `i`.
    fn sorted_rivals(
        neighbors: &[NeighborType],
        elements: &[T],
        i: usize,
        j: usize,
        d: Distance,
    ) -> (r: Vec<(usize, Distance)>)
        requires
            i < elements@.len(),
            forall|k: int| 0 <= k < neighbors@.len() ==> (#[trigger] neighbors@[k]) < elements@.len(),
        ensures
            r@ == turned(
                ranked(
                    rivals(neighbors@, distances_from(elements@[i as int], elements@), j, d),
                ),
            ),
    {
        let ghost own = distances_from(elements@[i as int], elements@);
        let ghost all = rivals(neighbors@, own, j, d);
        let mut sorted: Vec<(Distance, usize)> = Vec::new();
        let mut k: usize = 0;
        assert(all.take(0) =~= Seq::empty());
        while k < neighbors.len()
            invariant
                k <= neighbors@.len(),
                i < elements@.len(),
                forall|k: int|
                    0 <= k < neighbors@.len() ==> (#[trigger] neighbors@[k]) < elements@.len(),
                own == distances_from(elements@[i as int], elements@),
                all == rivals(neighbors@, own, j, d),
                sorted@ == ranked(all.take(k as int)),
            decreases neighbors@.len() - k,
        {
            let n: usize = neighbors[k] as usize;
            proof {
                lemma_ranked(all.take(k as int));
                assert(all.take(k + 1).drop_last() =~= all.take(k as int));
            }
            insert_candidate(&mut sorted, (elements[i].dist(&elements[n]), n));
            k += 1;
        }
        proof {
            lemma_ranked(all.take(k as int));
            assert(all.drop_last() =~= all.take(k as int));
        }
        insert_candidate(&mut sorted, (d, j));
        let mut r: Vec<(usize, Distance)> = Vec::new();
        let mut k: usize = 0;
        while k < sorted.len()
            invariant
                k <= sorted@.len(),
                r@ == turned(sorted@.take(k as int)),
            decreases sorted@.len() - k,
        {
            r.push((sorted[k].1, sorted[k].0));
            k += 1;
            assert(r@ =~= turned(sorted@.take(k as int)));
        }
        assert(sorted@.take(k as int) =~= sorted@);
        r
    }

    /// Walks through a layer that is being built. See [`walk_layer`].
    pub fn search_for_neighbors_index(
        layer: &[HnswNode],
        entrypoint: usize,
        elements: &[T],
        goal: &T,
        max_search: usize,
        max_neighbors: usize,
    ) -> (r: Vec<(usize, Distance)>)
        requires
            max_search > 0,
            entrypoint < layer@.len() <= elements@.len(),
            links_below(graph(layer@), layer@.len()),
        ensures
            r@ == search_layer(
                graph(layer@),
                entrypoint,
                distances_to(elements@, *goal),
                max_search as nat,
                max_neighbors as nat,
            ),
    {
        walk_layer(layer, entrypoint, elements, goal, max_search, max_neighbors)
    }

    /// Links element `idx`, whose node has no neighbours yet, into the layer below `index`.
    pub fn insert_element(
        config: &Config,
        index: &Hnsw<T>,
        layer: &mut Vec<HnswNode>,
        elements: &[T],
        idx: usize,
    )
        requires
            config.max_search >= 10,
            searchable(index@, index.elements@.len()),
            index@.last().len() <= old(layer)@.len() <= elements@.len(),
            idx < old(layer)@.len() <= NeighborType::MAX,
            links_below(graph(old(layer)@), old(layer)@.len()),
            old(layer)@[idx as int]@.len() == 0,
        ensures
            graph(final(layer)@) == inserted(
                graph(old(layer)@),
                index@,
                index.elements@,
                elements@,
                idx,
                config.max_search as nat,
            ),
    {
        let ghost before = graph(layer@);
        let ghost max_search = config.max_search as nat;
        let ghost f = found(before, index@, index.elements@, elements@, idx, max_search);
        proof {
            lemma_found(
                before,
                index@,
                index.elements@,
                elements@,
                idx,
                max_search,
                before.len(),
            );
            lemma_search_nonempty(
                index@,
                distances_to(index.elements@, elements@[idx as int]),
                max_search / 10,
            );
        }
        let element = &elements[idx];
        let entrypoint = index.search(element, config.max_search / 10)[0].0;
        let neighbors = Self::search_for_neighbors_index(
            layer.as_slice(),
            entrypoint,
            elements,
            element,
            config.max_search,
            MAX_NEIGHBORS,
        );
        let neighbors = Self::select_neighbors(idx, neighbors, elements, MAX_NEIGHBORS);
        assert(neighbors@ == f);
        Self::initialize_neighbors(&mut layer[idx], neighbors.as_slice());
        let ghost first = before.update(idx as int, initialized(f));
        assert(graph(layer@) =~= first);
        proof {
            assert forall|i: int, k: int|
                0 <= i < first.len() && 0 <= k < first[i].len() implies (#[trigger] first[i][k])
                < before.len() by {
                if i == idx {
                    assert(f[k].0 < before.len());
                } else {
                    assert(before[i][k] < before.len());
                }
            }
        }
        let mut m: usize = 0;
        while m < neighbors.len()
            invariant
                m <= neighbors@.len(),
                neighbors@ == f,
                forall|i: int| 0 <= i < f.len() ==> (#[trigger] f[i]).0 < first.len(),
                first.len() == layer@.len(),
                links_below(first, first.len()),
                idx < layer@.len() <= elements@.len(),
                layer@.len() <= NeighborType::MAX,
                graph(layer@) == linked(first, elements@, idx, f, m as nat),
            decreases neighbors@.len() - m,
        {
            let (neighbor, d) = neighbors[m];
            let ghost now = graph(layer@);
            proof {
                lemma_linked(first, elements@, idx, f, m as nat, first.len());
                assert(f[m as int].0 < first.len());
                let node = now[neighbor as int];
                assert forall|k: int| 0 <= k < node.len() implies (#[trigger] node[k])
                    < elements@.len() by {
                    assert(now[neighbor as int][k] < first.len());
                }
            }
            Self::connect_nodes(&mut layer[neighbor], elements, neighbor, idx, d);
            m += 1;
            assert(graph(layer@) =~= linked(first, elements@, idx, f, m as nat));
        }
    }

    /// Extends the layer below `index` to one node for each of `elements` and links the new nodes
    /// in, one after the other.
    pub fn insert_elements(
        config: &Config,
        layer: &mut Vec<HnswNode>,
        index: &Hnsw<T>,
        elements: &[T],
    )
        requires
            old(layer)@.len() <= elements@.len() < NeighborType::MAX,
            old(layer)@.len() < elements@.len() ==> {
                &&& config.max_search >= 10
                &&& searchable(index@, index.elements@.len())
                &&& index@.last().len() <= old(layer)@.len()
                &&& links_below(graph(old(layer)@), old(layer)@.len())
            },
        ensures
            graph(final(layer)@) == filled(
                graph(old(layer)@),
                index@,
                index.elements@,
                elements@,
                config.max_search as nat,
            ),
    {
        let ghost before = graph(layer@);
        let ghost max_search = config.max_search as nat;
        let already_inserted: usize = layer.len();
        Self::add_nodes(layer, elements.len());
        let ghost all = extended(before, elements@.len());
        let mut idx: usize = already_inserted;
        while idx < elements.len()
            invariant
                already_inserted <= idx <= elements@.len() < NeighborType::MAX,
                already_inserted == before.len(),
                all == extended(before, elements@.len()),
                max_search == config.max_search,
                already_inserted < elements@.len() ==> {
                    &&& config.max_search >= 10
                    &&& searchable(index@, index.elements@.len())
                    &&& index@.last().len() <= already_inserted
                    &&& links_below(graph(layer@), idx as nat)
                },
                graph(layer@).len() == elements@.len(),
                forall|i: int| idx <= i < elements@.len() ==> (#[trigger] graph(layer@)[i]).len() == 0,
                graph(layer@) == inserted_range(
                    all,
                    index@,
                    index.elements@,
                    elements@,
                    already_inserted as nat,
                    idx as nat,
                    max_search,
                ),
            decreases elements@.len() - idx,
        {
            let ghost now = graph(layer@);
            proof {
                assert(links_below(now, now.len())) by {
                    assert forall|i: int, k: int|
                        0 <= i < now.len() && 0 <= k < now[i].len() implies (#[trigger] now[i][k])
                        < now.len() by {
                        assert(now[i][k] < idx);
                    }
                }
                assert(now[idx as int] == layer@[idx as int]@);
                lemma_inserted(now, index@, index.elements@, elements@, idx, max_search);
            }
            Self::insert_element(config, index, layer, elements, idx);
            idx += 1;
        }
    }

    /// Adds the layers that the configuration asks for: one of a single node, and below it each
    /// layer with a copy of the one above it and further elements linked in.
    ///
    /// Where elements are inserted at all, a layer that was there before has to be one of a single
    /// node too, because the search for neighbours passes through it.
    pub fn build_index(&mut self)
        requires
            old(self).elements@.len() < NeighborType::MAX,
            old(self).config.num_levels > 1 ==> {
                &&& old(self).elements@.len() > 0
                &&& old(self).config.level_multiplier > 0
            },
            forall|l: nat|
                l + 1 < old(self).config.num_levels ==> #[trigger] level_size(
                    l,
                    old(self).config.level_multiplier as nat,
                    old(self).elements@.len(),
                ) * old(self).config.level_multiplier <= usize::MAX,
            old(self).config.num_levels > 1 && old(self).config.level_multiplier > 1 && old(
                self,
            ).elements@.len() > 1 ==> {
                &&& old(self).config.max_search >= 10
                &&& forall|l: int|
                    0 <= l < old(self)@.len() ==> (#[trigger] old(self)@[l]).len() == 1
                        && links_below(old(self)@[l], 1)
            },
        ensures
            final(self)@ == built(
                old(self)@.push(seq![Seq::empty()]),
                old(self).elements@,
                old(self).config.level_multiplier as nat,
                old(self).config.max_search as nat,
                if old(self).config.num_levels > 1 {
                    (old(self).config.num_levels - 1) as nat
                } else {
                    0
                },
            ),
            old(self).elements@.len() > 0 && single(old(self)@) ==> searchable(
                final(self)@,
                old(self).elements@.len(),
            ),
            final(self).elements@ == old(self).elements@,
            final(self).config == old(self).config,
    {
        let ghost multiplier = self.config.level_multiplier as nat;
        let ghost max_search = self.config.max_search as nat;
        let ghost n = self.elements@.len();
        let mut first: Vec<HnswNode> = Vec::new();
        first.push(HnswNode::default());
        self.levels.push(first);
        let ghost top = self@;
        assert(graph(first@) =~= seq![Seq::empty()]);
        assert(top =~= old(self)@.push(seq![Seq::empty()]));
        let mut num_elements: usize = 1;
        let mut level: usize = 1;
        while level < self.config.num_levels
            invariant
                level >= 1,
                level <= self.config.num_levels || level == 1,
                self.config == old(self).config,
                self.elements@ == old(self).elements@,
                multiplier == self.config.level_multiplier,
                max_search == self.config.max_search,
                n == self.elements@.len(),
                n < NeighborType::MAX,
                self.config.num_levels > 1 ==> n > 0 && multiplier > 0,
                forall|l: nat|
                    l + 1 < self.config.num_levels ==> #[trigger] level_size(l, multiplier, n)
                        * self.config.level_multiplier <= usize::MAX,
                self.config.num_levels > 1 && multiplier > 1 && n > 1 ==> max_search >= 10
                    && single(top),
                top.len() > 0,
                top.last() == seq![Seq::<u32>::empty()],
                num_elements == level_size((level - 1) as nat, multiplier, n),
                self@ == built(top, self.elements@, multiplier, max_search, (level - 1) as nat),
            decreases self.config.num_levels - level,
        {
            let ghost prior = (level - 1) as nat;
            proof {
                lemma_built(top, self.elements@, multiplier, max_search, prior);
                lemma_level_size(prior, multiplier, n);
                lemma_level_size(prior + 1, multiplier, n);
                assert(level_size(prior, multiplier, n) * self.config.level_multiplier
                    <= usize::MAX);
            }
            num_elements = self.next_level_size(num_elements);
            let last: usize = self.levels.len() - 1;
            let mut new_layer = copy_nodes(self.levels[last].as_slice());
            assert(graph(new_layer@) == self@.last());
            let elements = slice_subrange(self.elements, 0, num_elements);
            assert(elements@ =~= self.elements@.take(num_elements as int));
            let index = self.get_index();
            Self::insert_elements(&self.config, &mut new_layer, &index, elements);
            let ghost before = self@;
            self.levels.push(new_layer);
            assert(self@ =~= before.push(graph(new_layer@)));
            level += 1;
        }
        proof {
            if n > 0 && single(old(self)@) {
                lemma_built(top, self.elements@, multiplier, max_search, (level - 1) as nat);
            }
        }
    }

    /// Goes over to a list of elements that begins with those of the builder, and links the
    /// further ones into the bottom layer. That it begins with them is told from the first and the
    /// last one.
    pub fn append_elements(&mut self, elements: &'a [T])
        requires
            elements@.len() < NeighborType::MAX,
            0 < old(self).elements@.len() <= elements@.len(),
            negligible(old(self).elements@[0].spec_dist(&elements@[0])),
            negligible(
                old(self).elements@.last().spec_dist(&elements@[old(self).elements@.len() - 1]),
            ),
            old(self)@.len() > 0,
            old(self)@.last().len() <= elements@.len(),
            old(self)@.last().len() < elements@.len() ==> {
                &&& old(self).config.max_search >= 10
                &&& searchable(old(self)@.drop_last(), elements@.len())
                &&& old(self)@.drop_last().last().len() <= old(self)@.last().len()
                &&& links_below(old(self)@.last(), old(self)@.last().len())
            },
        ensures
            final(self)@ == old(self)@.drop_last().push(
                filled(
                    old(self)@.last(),
                    old(self)@.drop_last(),
                    elements@,
                    elements@,
                    old(self).config.max_search as nat,
                ),
            ),
            searchable(old(self)@, elements@.len()) ==> searchable(final(self)@, elements@.len()),
            final(self).elements@ == elements@,
            final(self).config == old(self).config,
    {
        self.elements = elements;
        let mut layer = self.levels.pop().unwrap();
        assert(self@ =~= old(self)@.drop_last());
        assert(graph(layer@) == old(self)@.last());
        let index = self.get_index();
        Self::insert_elements(&self.config, &mut layer, &index, elements);
        let ghost before = self@;
        self.levels.push(layer);
        assert(self@ =~= before.push(graph(layer@)));
        proof {
            if searchable(old(self)@, elements@.len()) {
                lemma_appended(old(self)@, elements@, self.config.max_search as nat);
            }
        }
    }

    /// The number of nodes of the layer below one of `num_elements` nodes: `level_multiplier` times
    /// as many, as far as there are elements.
    pub fn next_level_size(&self, num_elements: usize) -> (n: usize)
        requires
            num_elements * self.config.level_multiplier <= usize::MAX,
        ensures
            n == (if num_elements * self.config.level_multiplier < self.elements@.len() {
                num_elements * self.config.level_multiplier
            } else {
                self.elements@.len() as int
            }),
    {
        let n: usize = num_elements * self.config.level_multiplier;
        if n < self.elements.len() {
            n
        } else {
            self.elements.len()
        }
    }

    /// Adds nodes without neighbours.
    fn add_nodes(layer: &mut Vec<HnswNode>, size: usize)
        requires
            old(layer)@.len() <= size,
        ensures
            graph(final(layer)@) == extended(graph(old(layer)@), size as nat),
    {
        layer.resize(size, HnswNode::default());
    }
}

/// The number of nodes of a layer, counted from a first one of a single node: each layer is
/// `multiplier` times as long as the one above it, as far as there are elements.
pub open spec fn level_size(l: nat, multiplier: nat, num_elements: nat) -> nat
    decreases l,
{
    if l == 0 {
        1
    } else {
        let size = level_size((l - 1) as nat, multiplier, num_elements) * multiplier;
        if size < num_elements {
            size
        } else {
            num_elements
        }
    }
}

/// The layers `top` with `count` further ones below. Each of them is a copy of the one above it,
/// extended to its size and filled.
pub open spec fn built<T: HasDistance>(
    top: Seq<Seq<Seq<u32>>>,
    elements: Seq<T>,
    multiplier: nat,
    max_search: nat,
    count: nat,
) -> Seq<Seq<Seq<u32>>>
    decreases count,
{
    if count == 0 {
        top
    } else {
        let above = built(top, elements, multiplier, max_search, (count - 1) as nat);
        let size = level_size(count, multiplier, elements.len());
        above.push(filled(above.last(), above, elements, elements.take(size as int), max_search))
    }
}

/// Whether every layer is one of a single node.
pub open spec fn single(levels: Seq<Seq<Seq<u32>>>) -> bool {
    forall|l: int| 0 <= l < levels.len() ==> (#[trigger] levels[l]).len() == 1 && links_below(levels[l], 1)
}

/// Layers grow, from one node up to the number of elements. Without a multiplier above one, or
/// without a second element, they stay at one node.
pub proof fn lemma_level_size(l: nat, multiplier: nat, num_elements: nat)
    requires
        l > 0 ==> multiplier > 0 && num_elements > 0,
    ensures
        level_size(l, multiplier, num_elements) >= 1,
        l > 0 ==> level_size((l - 1) as nat, multiplier, num_elements) <= level_size(
            l,
            multiplier,
            num_elements,
        ) <= num_elements,
        multiplier == 1 || num_elements == 1 ==> level_size(l, multiplier, num_elements) == 1,
    decreases l,
{
    if l > 0 {
        lemma_level_size((l - 1) as nat, multiplier, num_elements);
        let size = level_size((l - 1) as nat, multiplier, num_elements);
        assert(size * multiplier >= size) by (nonlinear_arith)
            requires
                multiplier >= 1,
        ;
        if l > 1 {
            assert(size <= num_elements);
        }
    }
}

/// What holds of layers that were built: they have the sizes they should have, and a search
/// through them stays among their nodes.
pub proof fn lemma_built<T: HasDistance>(
    top: Seq<Seq<Seq<u32>>>,
    elements: Seq<T>,
    multiplier: nat,
    max_search: nat,
    count: nat,
)
    requires
        top.len() > 0,
        top.last().len() == 1,
        elements.len() < u32::MAX,
        elements.len() > 0,
        count > 0 ==> multiplier > 0,
        count > 0 && multiplier > 1 && elements.len() > 1 ==> max_search >= 10 && single(top),
    ensures
        ({
            let b = built(top, elements, multiplier, max_search, count);
            &&& b.len() == top.len() + count
            &&& b.last().len() == level_size(count, multiplier, elements.len())
            &&& single(top) ==> searchable(b, elements.len())
        }),
    decreases count,
{
    let b = built(top, elements, multiplier, max_search, count);
    if count > 0 {
        let prior = (count - 1) as nat;
        lemma_built(top, elements, multiplier, max_search, prior);
        let above = built(top, elements, multiplier, max_search, prior);
        lemma_level_size(count, multiplier, elements.len());
        lemma_level_size(prior, multiplier, elements.len());
        let size = level_size(count, multiplier, elements.len());
        let some = elements.take(size as int);
        let layer = above.last();
        if layer.len() < size {
            assert(multiplier > 1 && elements.len() > 1);
            assert(above[above.len() - 1] == layer);
            lemma_filled(layer, above, elements, some, max_search);
        } else {
            assert(filled(layer, above, elements, some, max_search) =~= layer);
        }
        if single(top) {
            let new = filled(layer, above, elements, some, max_search);
            assert(b.last() == new);
            assert(links_below(new, new.len())) by {
                assert(links_below(above[above.len() - 1], above[above.len() - 1].len()));
            }
            assert forall|l: int, m: int| 0 <= l <= m < b.len() implies (#[trigger] b[l]).len()
                <= (#[trigger] b[m]).len() by {
                if m < above.len() {
                    assert(above[l].len() <= above[m].len());
                } else if l < above.len() {
                    assert(above[l].len() <= above[above.len() - 1].len());
                }
            }
        }
    }
}

/// Filling a layer keeps all links in it.
pub proof fn lemma_filled<T: HasDistance>(
    layer: Seq<Seq<u32>>,
    levels: Seq<Seq<Seq<u32>>>,
    above: Seq<T>,
    elements: Seq<T>,
    max_search: nat,
)
    requires
        max_search >= 10,
        searchable(levels, above.len()),
        levels.last().len() <= layer.len() <= elements.len(),
        elements.len() <= u32::MAX,
        links_below(layer, layer.len()),
    ensures
        filled(layer, levels, above, elements, max_search).len() == elements.len(),
        links_below(filled(layer, levels, above, elements, max_search), elements.len()),
{
    lemma_range(layer, levels, above, elements, elements.len(), max_search);
}

/// A layer filled below others can be searched as they can.
proof fn lemma_appended<T: HasDistance>(
    levels: Seq<Seq<Seq<u32>>>,
    elements: Seq<T>,
    max_search: nat,
)
    requires
        searchable(levels, elements.len()),
        levels.last().len() < elements.len() ==> levels.len() > 1 && max_search >= 10,
        elements.len() <= u32::MAX,
    ensures
        searchable(
            levels.drop_last().push(
                filled(levels.last(), levels.drop_last(), elements, elements, max_search),
            ),
            elements.len(),
        ),
{
    let upper = levels.drop_last();
    lemma_upper_levels(levels, elements.len());
    let new = filled(levels.last(), upper, elements, elements, max_search);
    if levels.last().len() < elements.len() {
        lemma_filled(levels.last(), upper, elements, elements, max_search);
    } else {
        assert(new =~= levels.last());
    }
    lemma_push_searchable(upper, new, elements.len());
}

proof fn lemma_range<T: HasDistance>(
    layer: Seq<Seq<u32>>,
    levels: Seq<Seq<Seq<u32>>>,
    above: Seq<T>,
    elements: Seq<T>,
    to: nat,
    max_search: nat,
)
    requires
        max_search >= 10,
        searchable(levels, above.len()),
        levels.last().len() <= layer.len() <= to <= elements.len(),
        elements.len() <= u32::MAX,
        links_below(layer, layer.len()),
    ensures
        ({
            let after = inserted_range(
                extended(layer, elements.len()),
                levels,
                above,
                elements,
                layer.len(),
                to,
                max_search,
            );
            &&& after.len() == elements.len()
            &&& links_below(after, to)
        }),
    decreases to,
{
    let all = extended(layer, elements.len());
    if to > layer.len() {
        let prior = (to - 1) as nat;
        lemma_range(layer, levels, above, elements, prior, max_search);
        lemma_inserted(
            inserted_range(all, levels, above, elements, layer.len(), prior, max_search),
            levels,
            above,
            elements,
            (to - 1) as usize,
            max_search,
        );
    } else {
        assert forall|i: int, k: int|
            0 <= i < all.len() && 0 <= k < all[i].len() implies (#[trigger] all[i][k])
            < layer.len() by {
            assert(layer[i][k] < layer.len());
        }
    }
}

/// What a search through the levels finds is never empty.
proof fn lemma_search_nonempty(
    levels: Seq<Seq<Seq<u32>>>,
    distances: Seq<Distance>,
    max_search: nat,
)
    requires
        max_search > 0,
        searchable(levels, distances.len()),
    ensures
        search_levels(levels, distances, max_search).len() > 0,
{
    law_index_search_results(levels, distances, max_search);
}

/// Whether candidate `j` at distance `d` comes before all neighbours of a node, where `own` are the
/// distances of the node to all elements.
pub open spec fn comes_first(node: Seq<u32>, own: Seq<Distance>, j: usize, d: Distance) -> bool {
    forall|k: int|
        0 <= k < node.len() ==> nearer((d, j), (own[#[trigger] node[k] as int], node[k] as usize))
}

/// The rivals of a node whose neighbours are below `bound`: all but the first are below it.
proof fn lemma_rivals_below(
    node: Seq<u32>,
    own: Seq<Distance>,
    j: usize,
    d: Distance,
    bound: nat,
)
    requires
        j < bound || comes_first(node, own, j, d),
        forall|k: int| 0 <= k < node.len() ==> (#[trigger] node[k]) < bound,
    ensures
        ranked(rivals(node, own, j, d)).len() == node.len() + 1,
        forall|k: int|
            0 < k < node.len() + 1 ==> (#[trigger] turned(ranked(rivals(node, own, j, d)))[k]).0
                < bound,
{
    let c = rivals(node, own, j, d);
    let rest = c.drop_last();
    let s = ranked(rest);
    lemma_ranked(c);
    lemma_ranked(rest);
    assert forall|k: int| 0 <= k < s.len() implies (#[trigger] s[k]).1 < bound && (comes_first(
        node,
        own,
        j,
        d,
    ) ==> nearer((d, j), s[k])) by {
        s.to_multiset_ensures();
        rest.to_multiset_ensures();
        assert(s.contains(s[k]));
        assert(rest.to_multiset().count(s[k]) > 0);
        assert(rest.contains(s[k]));
        let m = choose|m: int| 0 <= m < rest.len() && rest[m] == s[k];
        assert(node[m] < bound);
    }
    lemma_rank(s, (d, j));
    if comes_first(node, own, j, d) {
        lemma_rank_at(s, (d, j), 0);
    }
    let t = turned(ranked(c));
    assert forall|k: int| 0 < k < t.len() implies (#[trigger] t[k]).0 < bound by {
        let p = rank(s, (d, j));
        assert(ranked(c) == s.insert(p, (d, j)));
        if k < p {
            assert(ranked(c)[k] == s[k]);
        } else if k > p {
            assert(ranked(c)[k] == s[k - 1]);
        }
    }
}

/// Once enough candidates are preferred, the rest change nothing.
proof fn lemma_divided_stops(
    candidates: Seq<(usize, Distance)>,
    own: Seq<Distance>,
    max_neighbors: nat,
    k: int,
)
    requires
        0 <= k <= candidates.len(),
        k == candidates.len() || divided(candidates.take(k), own, max_neighbors).0.len()
            >= max_neighbors,
    ensures
        divided(candidates, own, max_neighbors) == divided(candidates.take(k), own, max_neighbors),
    decreases candidates.len(),
{
    if k == candidates.len() {
        assert(candidates.take(k) =~= candidates);
    } else {
        let rest = candidates.drop_last();
        assert(rest.take(k) =~= candidates.take(k));
        lemma_divided_stops(rest, own, max_neighbors, k);
    }
}

} // verus!
