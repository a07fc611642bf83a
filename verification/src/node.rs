//! Nodes of a layer and their neighbour lists.
use arrayvec::ArrayVec;
use vstd::prelude::*;

verus! {

/// The number of neighbours that a node has at most.
pub const MAX_NEIGHBORS: usize = 32;

/// How a node refers to a neighbour: by its index in the layer.
pub type NeighborType = u32;

/// An [`ArrayVec`] of neighbours, which holds [`MAX_NEIGHBORS`] entries in place at most. What
/// it holds is named by [`listed`].
#[verifier::external_body]
#[derive(Debug)]
pub struct NeighborList {
    list: ArrayVec<[NeighborType; MAX_NEIGHBORS]>,
}

/// The entries of a list in their order.
pub uninterp spec fn listed(list: NeighborList) -> Seq<u32>;

/// `ArrayVec::new`: an empty list.
#[verifier::external_body]
fn list_new() -> (list: NeighborList)
    ensures
        listed(list) == Seq::<u32>::empty(),
{
    NeighborList { list: ArrayVec::new() }
}

/// `ArrayVec::capacity`: the length of the array behind the list, whatever the list holds.
#[verifier::external_body]
fn list_capacity(list: &NeighborList) -> (n: usize)
    ensures
        n == MAX_NEIGHBORS,
{
    list.list.capacity()
}

/// `ArrayVec::as_slice`: the entries as a slice, never more than the capacity.
#[verifier::external_body]
fn list_as_slice(list: &NeighborList) -> (s: &[NeighborType])
    ensures
        s@ == listed(*list),
        s@.len() <= MAX_NEIGHBORS,
{
    list.list.as_slice()
}

/// `ArrayVec::push`: one more entry at the end. It panics where the list is full.
#[verifier::external_body]
fn list_push(list: &mut NeighborList, n: NeighborType)
    requires
        listed(*old(list)).len() < MAX_NEIGHBORS,
    ensures
        listed(*final(list)) == listed(*old(list)).push(n),
{
    list.list.push(n)
}

/// The entry of an `ArrayVec` at an index, written through the slice that it dereferences to: it
/// changes that entry alone. It panics where there is none.
#[verifier::external_body]
fn list_set(list: &mut NeighborList, k: usize, n: NeighborType)
    requires
        k < listed(*old(list)).len(),
    ensures
        listed(*final(list)) == listed(*old(list)).update(k as int, n),
{
    list.list[k] = n
}

/// `ArrayVec::clone`: a list with the same entries.
#[verifier::external_body]
fn list_clone(list: &NeighborList) -> (r: NeighborList)
    ensures
        listed(r) == listed(*list),
{
    NeighborList { list: list.list.clone() }
}

/// A node of a layer. Its view lists its neighbours.
#[derive(Debug)]
pub struct HnswNode {
    neighbors: NeighborList,
}

impl View for HnswNode {
    type V = Seq<u32>;

    closed spec fn view(&self) -> Seq<u32> {
        listed(self.neighbors)
    }
}

impl Default for HnswNode {
    fn default() -> (r: Self)
        ensures
            r@ == Seq::<u32>::empty(),
    {
        HnswNode { neighbors: list_new() }
    }
}

impl Clone for HnswNode {
    fn clone(&self) -> (r: Self)
        ensures
            r@ == self@,
    {
        HnswNode { neighbors: list_clone(&self.neighbors) }
    }
}

impl HnswNode {
    /// The neighbours of the node.
    pub fn neighbors(&self) -> (s: &[NeighborType])
        ensures
            s@ == self@,
            s@.len() <= MAX_NEIGHBORS,
    {
        list_as_slice(&self.neighbors)
    }

    /// How many neighbours the node can have.
    pub fn capacity(&self) -> (n: usize)
        ensures
            n == MAX_NEIGHBORS,
    {
        list_capacity(&self.neighbors)
    }

    /// Adds a neighbour.
    pub fn add_neighbor(&mut self, n: NeighborType)
        requires
            old(self)@.len() < MAX_NEIGHBORS,
        ensures
            final(self)@ == old(self)@.push(n),
    {
        list_push(&mut self.neighbors, n)
    }

    /// Puts another neighbour in place of the one at `k`.
    pub fn replace_neighbor(&mut self, k: usize, n: NeighborType)
        requires
            k < old(self)@.len(),
        ensures
            final(self)@ == old(self)@.update(k as int, n),
    {
        list_set(&mut self.neighbors, k, n)
    }
}

/// The graph of a layer: the neighbours of each of its nodes.
pub open spec fn graph(nodes: Seq<HnswNode>) -> Seq<Seq<u32>> {
    Seq::new(nodes.len(), |i: int| nodes[i]@)
}

/// Whether every node of the graph has at most as many neighbours as it can list.
pub open spec fn lists_fit(layer: Seq<Seq<u32>>) -> bool {
    forall|i: int| 0 <= i < layer.len() ==> (#[trigger] layer[i]).len() <= MAX_NEIGHBORS
}

} // verus!
