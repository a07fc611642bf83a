//! Approximate nearest neighbour search over a hierarchy of small world graphs.
//!
//! An index is a stack of layers over one list of elements. Layer `l` is a graph on a prefix of
//! the elements, and each layer is at least as long as the one above it. A search walks greedily
//! down the stack: the best node of one layer is where the walk through the next one begins.
//!
//! * [`distance`]: what a distance is, and the trait by which elements have one;
//! * [`order`] and [`heap`]: candidates by distance, and the two queues of a search;
//! * [`node`]: the nodes of a layer and their bounded neighbour lists;
//! * [`search`]: the walk through one layer, as a step by step state machine and as a whole;
//! * [`link`]: how an element is linked into a layer;
//! * [`storage`]: the bytes of a stored index;
//! * [`index`] and [`builder`]: the index itself, and what builds and extends it;
//! * [`growth`]: what holds of an index as it is built and extended;
//! * [`reach`]: what a walk reaches, and what it leaves out;
//! * [`trail`]: a search, told by where it goes;
//! * [`insertion`]: building an index, told by what changes;
//! * [`exact`]: where a search is exact;
//! * [`progress`]: when the insertion of elements is reported.
pub mod builder;
pub mod distance;
pub mod exact;
pub mod growth;
pub mod heap;
pub mod index;
pub mod insertion;
pub mod link;
pub mod node;
pub mod order;
pub mod progress;
pub mod reach;
pub mod search;
pub mod storage;
pub mod trail;
