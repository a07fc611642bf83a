//! The index: a stack of layers over a list of elements.
use vstd::prelude::*;
use vstd::slice::slice_subrange;

use crate::distance::{distances_to, Distance, HasDistance};
use crate::node::{graph, HnswNode, MAX_NEIGHBORS};
use crate::order::nearer;
use crate::reach::{holds, law_search_reaches};
use crate::search::{
    law_search_improves_on_entrypoint, law_search_results, links_below, search_layer, walk_layer,
};
use crate::storage::{
    lemma_nodes_above_grows, length_of_words, level_at, loadable, nodes_above, read_level,
    read_word, record_at, stored, stored_levels, ByteOrder,
};

verus! {

/// The nodes of one layer, held by the index or by whoever built it. The view is the graph.
pub enum Layer<'a> {
    /// Nodes of a builder.
    Borrowed(&'a [HnswNode]),
    /// Nodes of the index itself.
    Owned(Vec<HnswNode>),
}

impl<'a> View for Layer<'a> {
    type V = Seq<Seq<u32>>;

    open spec fn view(&self) -> Seq<Seq<u32>> {
        match self {
            Layer::Borrowed(nodes) => graph(nodes@),
            Layer::Owned(nodes) => graph(nodes@),
        }
    }
}

impl<'a> Layer<'a> {
    /// The nodes of the layer.
    pub fn nodes(&self) -> (nodes: &[HnswNode])
        ensures
            graph(nodes@) == self@,
    {
        match self {
            Layer::Borrowed(nodes) => nodes,
            Layer::Owned(nodes) => nodes.as_slice(),
        }
    }

    /// The number of nodes.
    pub fn len(&self) -> (n: usize)
        ensures
            n == self@.len(),
    {
        self.nodes().len()
    }
}

/// The graphs of a stack of layers.
pub open spec fn graphs(layers: Seq<Layer>) -> Seq<Seq<Seq<u32>>> {
    Seq::new(layers.len(), |l: int| layers[l]@)
}

/// An index over `elements`. The last layer is the bottom one. The view is the graphs.
pub struct Hnsw<'a, T: HasDistance + 'a> {
    pub levels: Vec<Layer<'a>>,
    pub elements: &'a [T],
}

impl<'a, T: HasDistance + 'a> View for Hnsw<'a, T> {
    type V = Seq<Seq<Seq<u32>>>;

    open spec fn view(&self) -> Seq<Seq<Seq<u32>>> {
        graphs(self.levels@)
    }
}

/// Whether a search through these layers stays among the nodes that there are: every layer has a
/// node and links to its own nodes alone, a layer is at least as long as the one above it, and
/// there is an element for every node.
pub open spec fn searchable(levels: Seq<Seq<Seq<u32>>>, num_elements: nat) -> bool {
    &&& levels.len() > 0
    &&& descending(levels)
    &&& levels.last().len() <= num_elements
}

/// What [`searchable`] asks of the layers themselves.
pub open spec fn descending(levels: Seq<Seq<Seq<u32>>>) -> bool {
    &&& forall|l: int|
        0 <= l < levels.len() ==> (#[trigger] levels[l]).len() > 0 && links_below(
            levels[l],
            levels[l].len(),
        )
    &&& forall|l: int, m: int|
        0 <= l <= m < levels.len() ==> (#[trigger] levels[l]).len() <= (#[trigger] levels[m]).len()
}

/// A stack of layers over `num_elements` elements is searchable exactly where there is a layer, every
/// layer has a node and lists its own nodes alone, none is longer than the next one, and the last is
/// no longer than there are elements.
pub proof fn law_searchable(levels: Seq<Seq<Seq<u32>>>, num_elements: nat)
    ensures
        searchable(levels, num_elements) <==> {
            &&& levels.len() > 0
            &&& levels[levels.len() - 1].len() <= num_elements
            &&& forall|l: int| 0 <= l < levels.len() ==> (#[trigger] levels[l]).len() > 0
            &&& forall|l: int| 0 < l < levels.len() ==> levels[l - 1].len() <= (#[trigger]
            levels[l]).len()
            &&& forall|l: int, i: int, k: int|
                0 <= l < levels.len() && 0 <= i < levels[l].len() && 0 <= k < levels[l][i].len()
                    ==> (#[trigger] levels[l][i][k]) < levels[l].len()
        },
{
    let lengths = forall|l: int| 0 < l < levels.len() ==> levels[l - 1].len() <= (#[trigger]
    levels[l]).len();
    if searchable(levels, num_elements) {
        assert forall|l: int| 0 < l < levels.len() implies levels[l - 1].len() <= (#[trigger]
        levels[l]).len() by {
            assert(levels[l - 1].len() <= levels[l].len());
        }
        assert forall|l: int, i: int, k: int|
            0 <= l < levels.len() && 0 <= i < levels[l].len() && 0 <= k
                < levels[l][i].len() implies (#[trigger] levels[l][i][k]) < levels[l].len() by {
            assert(links_below(levels[l], levels[l].len()));
        }
    }
    if lengths {
        assert forall|l: int, m: int| 0 <= l <= m < levels.len() implies (#[trigger]
        levels[l]).len() <= (#[trigger] levels[m]).len() by {
            lemma_lengths(levels, l, m);
        }
    }
}

proof fn lemma_lengths(levels: Seq<Seq<Seq<u32>>>, l: int, m: int)
    requires
        0 <= l <= m < levels.len(),
        forall|l: int| 0 < l < levels.len() ==> levels[l - 1].len() <= (#[trigger] levels[l]).len(),
    ensures
        levels[l].len() <= levels[m].len(),
    decreases m,
{
    if l < m {
        lemma_lengths(levels, l, m - 1);
    }
}

/// Where a walk through the layer below `layers` begins: the best node of the last of them, found
/// from the best node of the one above it, and so on from node 0.
pub open spec fn entrypoint(
    layers: Seq<Seq<Seq<u32>>>,
    distances: Seq<Distance>,
    max_search: nat,
) -> usize
    decreases layers.len(),
{
    if layers.len() == 0 {
        0
    } else {
        search_layer(
            layers.last(),
            entrypoint(layers.drop_last(), distances, max_search),
            distances,
            max_search,
            1,
        )[0].0
    }
}

/// How many nodes a search keeps in the layers above the bottom one.
pub open spec fn upper_search(max_search: nat) -> nat {
    if max_search / 50 < 50 {
        50
    } else {
        max_search / 50
    }
}

/// What a search through the whole stack finds, where `distances` are the distances of the
/// elements to the goal.
pub open spec fn search_levels(
    levels: Seq<Seq<Seq<u32>>>,
    distances: Seq<Distance>,
    max_search: nat,
) -> Seq<(usize, Distance)> {
    search_layer(
        levels.last(),
        entrypoint(levels.drop_last(), distances, upper_search(max_search)),
        distances,
        max_search,
        MAX_NEIGHBORS as nat,
    )
}

/// The entry point lies in the last layer, and so in every layer below.
pub proof fn lemma_entrypoint(
    layers: Seq<Seq<Seq<u32>>>,
    distances: Seq<Distance>,
    max_search: nat,
)
    requires
        max_search > 0,
        descending(layers),
        layers.len() > 0 ==> layers.last().len() <= distances.len(),
    ensures
        layers.len() == 0 ==> entrypoint(layers, distances, max_search) == 0,
        layers.len() > 0 ==> entrypoint(layers, distances, max_search) < layers.last().len(),
    decreases layers.len(),
{
    if layers.len() > 0 {
        let upper = layers.drop_last();
        assert(descending(upper)) by {
            assert(forall|l: int| 0 <= l < upper.len() ==> upper[l] == layers[l]);
        }
        let last = layers[layers.len() - 1];
        assert(last.len() > 0);
        if upper.len() > 0 {
            assert(upper.last() == layers[layers.len() - 2]);
            assert(layers[layers.len() - 2].len() <= last.len());
        }
        lemma_entrypoint(upper, distances, max_search);
        law_search_results(last, entrypoint(upper, distances, max_search), distances, max_search, 1);
    }
}

/// What a search through a stack of layers finds is in the bottom layer, has its true distance,
/// occurs once and stands nearest first, by index where distances are equal. There are at most as
/// many results as are kept or as a node has neighbours, and at least one.
pub proof fn law_index_search_results(
    levels: Seq<Seq<Seq<u32>>>,
    distances: Seq<Distance>,
    max_search: nat,
)
    requires
        max_search > 0,
        searchable(levels, distances.len()),
    ensures
        ({
            let r = search_levels(levels, distances, max_search);
            &&& 0 < r.len() <= max_search
            &&& r.len() <= MAX_NEIGHBORS
            &&& forall|i: int|
                0 <= i < r.len() ==> (#[trigger] r[i]).0 < levels.last().len() && r[i].1
                    == distances[r[i].0 as int]
            &&& forall|i: int, j: int|
                0 <= i < j < r.len() ==> (#[trigger] r[i]).0 != (#[trigger] r[j]).0 && nearer(
                    (r[i].1, r[i].0),
                    (r[j].1, r[j].0),
                )
        }),
{
    lemma_upper_levels(levels, distances.len());
    let upper = levels.drop_last();
    lemma_entrypoint(upper, distances, upper_search(max_search));
    law_search_results(
        levels.last(),
        entrypoint(upper, distances, upper_search(max_search)),
        distances,
        max_search,
        MAX_NEIGHBORS as nat,
    );
}

/// On the way down no entry point is farther from the goal than the node where the search began,
/// and no link of an entry point leads to a node that is nearer.
pub proof fn law_entrypoint_improves(
    layers: Seq<Seq<Seq<u32>>>,
    distances: Seq<Distance>,
    max_search: nat,
)
    requires
        max_search > 0,
        descending(layers),
        layers.len() > 0 ==> layers.last().len() <= distances.len(),
        distances.len() > 0,
    ensures
        distances[entrypoint(layers, distances, max_search) as int].order()
            <= distances[0].order(),
        layers.len() > 0 ==> ({
            let e = entrypoint(layers, distances, max_search) as int;
            forall|k: int|
                0 <= k < layers.last()[e].len() ==> distances[e].order() <= distances[(
                #[trigger] layers.last()[e][k]) as int].order()
        }),
    decreases layers.len(),
{
    if layers.len() > 0 {
        lemma_upper_levels(layers, distances.len());
        let upper = layers.drop_last();
        lemma_entrypoint(upper, distances, max_search);
        law_entrypoint_improves(upper, distances, max_search);
        let e = entrypoint(upper, distances, max_search);
        law_search_results(layers.last(), e, distances, max_search, 1);
        law_search_improves_on_entrypoint(layers.last(), e, distances, max_search, 1);
        law_search_reaches(layers.last(), e, distances, max_search, 1);
        let r = search_layer(layers.last(), e, distances, max_search, 1);
        let node = layers.last()[r[0].0 as int];
        assert forall|k: int| 0 <= k < node.len() implies r[0].1.order() <= distances[(
        #[trigger] node[k]) as int].order() by {
            assert(holds(r, layers.last()[r[0].0 as int][k] as int) || r.last().1.order()
                <= distances[layers.last()[r[0].0 as int][k] as int].order());
        }
    }
}

/// The first result of a search is no farther from the goal than the element that every search
/// begins at.
pub proof fn law_index_search_improves(
    levels: Seq<Seq<Seq<u32>>>,
    distances: Seq<Distance>,
    max_search: nat,
)
    requires
        max_search > 0,
        searchable(levels, distances.len()),
    ensures
        search_levels(levels, distances, max_search)[0].1.order() <= distances[0].order(),
{
    lemma_upper_levels(levels, distances.len());
    let upper = levels.drop_last();
    lemma_entrypoint(upper, distances, upper_search(max_search));
    law_entrypoint_improves(upper, distances, upper_search(max_search));
    law_search_improves_on_entrypoint(
        levels.last(),
        entrypoint(upper, distances, upper_search(max_search)),
        distances,
        max_search,
        MAX_NEIGHBORS as nat,
    );
}

/// The layers above the bottom one are in order too.
pub proof fn lemma_upper_levels(levels: Seq<Seq<Seq<u32>>>, num_elements: nat)
    requires
        searchable(levels, num_elements),
    ensures
        descending(levels.drop_last()),
        levels.last().len() > 0,
        links_below(levels.last(), levels.last().len()),
        levels.len() > 1 ==> levels.drop_last().last().len() <= levels.last().len(),
{
    let upper = levels.drop_last();
    assert(forall|l: int| 0 <= l < upper.len() ==> upper[l] == levels[l]);
    let last = levels[levels.len() - 1];
    assert(last.len() > 0);
    if levels.len() > 1 {
        assert(upper.last() == levels[levels.len() - 2]);
        assert(levels[levels.len() - 2].len() <= last.len());
    }
}

/// A further layer can be searched where it is as long as the others at least and links to its own
/// nodes.
pub proof fn lemma_push_searchable(
    levels: Seq<Seq<Seq<u32>>>,
    layer: Seq<Seq<u32>>,
    num_elements: nat,
)
    requires
        descending(levels),
        levels.len() > 0 ==> levels.last().len() <= layer.len(),
        0 < layer.len() <= num_elements,
        links_below(layer, layer.len()),
    ensures
        searchable(levels.push(layer), num_elements),
{
    let b = levels.push(layer);
    assert forall|l: int, m: int| 0 <= l <= m < b.len() implies (#[trigger] b[l]).len() <= (#[trigger]
    b[m]).len() by {
        if m < levels.len() {
            assert(levels[l].len() <= levels[m].len());
        } else if l < levels.len() {
            assert(levels[l].len() <= levels[levels.len() - 1].len());
        }
    }
    assert forall|l: int| 0 <= l < b.len() implies (#[trigger] b[l]).len() > 0 && links_below(
        b[l],
        b[l].len(),
    ) by {
        if l < levels.len() {
            assert(levels[l].len() > 0);
        }
    }
}

/// Tells whether all links of a layer lead to its own nodes.
pub fn are_links_below(nodes: &[HnswNode]) -> (r: bool)
    ensures
        r == links_below(graph(nodes@), nodes@.len()),
{
    let ghost g = graph(nodes@);
    let size: usize = nodes.len();
    let mut i: usize = 0;
    while i < size
        invariant
            i <= size,
            size == nodes@.len(),
            g == graph(nodes@),
            forall|a: int, k: int|
                0 <= a < i && 0 <= k < g[a].len() ==> (#[trigger] g[a][k]) < size,
        decreases size - i,
    {
        let neighbors = nodes[i].neighbors();
        let mut k: usize = 0;
        while k < neighbors.len()
            invariant
                i < size,
                size == nodes@.len(),
                g == graph(nodes@),
                neighbors@ == g[i as int],
                k <= neighbors@.len(),
                forall|m: int| 0 <= m < k ==> (#[trigger] g[i as int][m]) < size,
            decreases neighbors@.len() - k,
        {
            if neighbors[k] as usize >= size {
                assert(g[i as int][k as int] >= size);
                return false;
            }
            k += 1;
        }
        i += 1;
    }
    true
}

impl<'a, T: HasDistance + 'a> Hnsw<'a, T> {
    /// Loads an index over `elements` from the bytes it was stored in. Whether the bytes are those
    /// of such an index is told by [`is_loadable`](crate::storage::is_loadable).
    pub fn load(buffer: &[u8], elements: &'a [T]) -> (r: Self)
        requires
            loadable(buffer@, elements@.len(), ByteOrder::machine()),
        ensures
            r@ == stored(buffer@, ByteOrder::machine()),
            r.elements@ == elements@,
    {
        let order = ByteOrder::native();
        assert(buffer@.len() == buffer.len());
        let num_levels: usize = read_word(buffer, 1, order);
        let first: usize = length_of_words(2 + num_levels);
        let mut levels: Vec<Layer> = Vec::new();
        let mut start: usize = 0;
        let mut l: usize = 0;
        while l < num_levels
            invariant
                l <= num_levels,
                loadable(buffer@, elements@.len(), order),
                buffer@.len() <= usize::MAX,
                num_levels == stored_levels(buffer@, order),
                first == record_at(buffer@, 0, order),
                start == nodes_above(buffer@, l as nat, order),
                levels@.len() == l,
                forall|m: int| 0 <= m < l ==> (#[trigger] levels@[m])@ == level_at(buffer@, m, order),
            decreases num_levels - l,
        {
            proof {
                lemma_nodes_above_grows(buffer@, (l + 1) as nat, num_levels as nat, order);
            }
            let count: usize = read_word(buffer, 2 + l, order);
            levels.push(Layer::Owned(read_level(buffer, first, start, count, order)));
            start = start + count;
            l += 1;
        }
        let r = Hnsw { levels, elements };
        assert(r@ =~= stored(buffer@, order));
        r
    }

    /// Tells whether the index can be searched.
    pub fn is_searchable(&self) -> (r: bool)
        ensures
            r == searchable(self@, self.elements@.len()),
    {
        if self.levels.len() == 0 {
            return false;
        }
        let ghost levels = self@;
        let mut above: usize = 1;
        let mut l: usize = 0;
        while l < self.levels.len()
            invariant
                l <= self.levels@.len(),
                levels == self@,
                descending(levels.take(l as int)),
                above == (if l == 0 {
                    1
                } else {
                    levels[l - 1].len()
                }),
            decreases self.levels@.len() - l,
        {
            let nodes = self.levels[l].nodes();
            assert(graph(nodes@) == levels[l as int]);
            if nodes.len() < above || !are_links_below(nodes) {
                proof {
                    if l > 0 {
                        assert(descending(levels) ==> levels[l - 1].len() <= levels[l as int].len());
                    }
                }
                return false;
            }
            proof {
                let t = levels.take(l + 1);
                assert forall|i: int, j: int| 0 <= i <= j < t.len() implies (#[trigger] t[i]).len()
                    <= (#[trigger] t[j]).len() by {
                    if j == l && i < l {
                        assert(levels.take(l as int)[i].len() <= levels.take(l as int)[l - 1].len());
                    } else if j < l {
                        assert(levels.take(l as int)[i].len() <= levels.take(l as int)[j].len());
                    }
                }
                assert forall|i: int| 0 <= i < t.len() implies (#[trigger] t[i]).len() > 0
                    && links_below(t[i], t[i].len()) by {
                    if i < l {
                        assert(levels.take(l as int)[i].len() > 0);
                    } else if l > 0 {
                        assert(levels.take(l as int)[l - 1].len() > 0);
                    }
                }
            }
            above = nodes.len();
            l += 1;
        }
        assert(levels.take(l as int) =~= levels);
        above <= self.elements.len()
    }

    /// Finds elements near to `element`, nearest first, each with its distance. The more nodes
    /// the search keeps, the nearer they are.
    pub fn search(&self, element: &T, max_search: usize) -> (r: Vec<(usize, Distance)>)
        requires
            searchable(self@, self.elements@.len()),
            max_search > 0,
        ensures
            r@ == search_levels(self@, distances_to(self.elements@, *element), max_search as nat),
    {
        proof {
            lemma_upper_levels(self@, self.elements@.len());
        }
        let bottom: usize = self.levels.len() - 1;
        let top_levels = slice_subrange(self.levels.as_slice(), 0, bottom);
        assert(graphs(top_levels@) =~= self@.drop_last());
        let bottom_level = self.levels[bottom].nodes();
        assert(graph(bottom_level@) == self@.last());
        let upper: usize = if max_search / 50 < 50 {
            50
        } else {
            max_search / 50
        };
        let entrypoint = Self::find_entrypoint(top_levels, element, self.elements, upper);
        proof {
            lemma_entrypoint(
                self@.drop_last(),
                distances_to(self.elements@, *element),
                upper as nat,
            );
        }
        Self::search_for_neighbors(
            bottom_level,
            entrypoint,
            self.elements,
            element,
            max_search,
            MAX_NEIGHBORS,
        )
    }

    /// Walks down through `layers` to the best node of the last of them.
    pub fn find_entrypoint(
        layers: &[Layer],
        element: &T,
        elements: &[T],
        max_search: usize,
    ) -> (r: usize)
        requires
            max_search > 0,
            descending(graphs(layers@)),
            layers@.len() > 0 ==> layers@.last()@.len() <= elements@.len(),
        ensures
            r == entrypoint(
                graphs(layers@),
                distances_to(elements@, *element),
                max_search as nat,
            ),
    {
        let ghost levels = graphs(layers@);
        let ghost distances = distances_to(elements@, *element);
        let mut entrypoint: usize = 0;
        let mut l: usize = 0;
        assert(levels.take(0) =~= Seq::empty());
        while l < layers.len()
            invariant
                l <= layers@.len(),
                max_search > 0,
                levels == graphs(layers@),
                descending(levels),
                layers@.len() > 0 ==> layers@.last()@.len() <= elements@.len(),
                distances == distances_to(elements@, *element),
                entrypoint == crate::index::entrypoint(
                    levels.take(l as int),
                    distances,
                    max_search as nat,
                ),
            decreases layers@.len() - l,
        {
            proof {
                let above = levels.take(l as int);
                assert(forall|m: int| 0 <= m < l ==> above[m] == levels[m]);
                assert(descending(above));
                assert(levels[l as int].len() > 0);
                assert(levels[l as int].len() <= levels[levels.len() - 1].len());
                if l > 0 {
                    assert(levels[l - 1].len() <= levels[l as int].len());
                    assert(above.last() == levels[l - 1]);
                }
                lemma_entrypoint(above, distances, max_search as nat);
                law_search_results(
                    levels[l as int],
                    entrypoint,
                    distances,
                    max_search as nat,
                    1,
                );
                assert(levels.take(l + 1).drop_last() =~= above);
            }
            let res = Self::search_for_neighbors(
                layers[l].nodes(),
                entrypoint,
                elements,
                element,
                max_search,
                1,
            );
            entrypoint = res[0].0;
            l += 1;
        }
        assert(levels.take(l as int) =~= levels);
        entrypoint
    }

    /// Walks through one layer. See [`walk_layer`].
    pub fn search_for_neighbors(
        layer: &[HnswNode],
        entrypoint: usize,
        elements: &[T],
        goal: &T,
        max_search: usize,
        max_neighbors: usize,
    ) -> (r: Vec<(usize, Distance)>)
        requires
            max_search > 0,
            entrypoint < layer@.len() <= elements@.len(),
            links_below(graph(layer@), layer@.len()),
        ensures
            r@ == search_layer(
                graph(layer@),
                entrypoint,
                distances_to(elements@, *goal),
                max_search as nat,
                max_neighbors as nat,
            ),
    {
        walk_layer(layer, entrypoint, elements, goal, max_search, max_neighbors)
    }
}

} // verus!
