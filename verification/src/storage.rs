//! The bytes of a stored index.
//!
//! A stored index begins with words, each as long as a `usize` of the machine: the number of nodes,
//! the number of layers, and the number of nodes of each layer. Then come the records of all nodes,
//! layer by layer. A record has 32 bits for each neighbour that a node can have, then one byte with
//! the number of neighbours that it does have, and three bytes that are not used. What is not used
//! is zero. The bytes of a number stand in the order of the machine, [`ByteOrder::native`]. What is
//! said of them here holds of either order.
use vstd::endian::{endianness, Endian};
use vstd::prelude::*;
use vstd::slice::slice_subrange;

use crate::node::{graph, lists_fit, HnswNode, MAX_NEIGHBORS};

verus! {

/// In which order the bytes of a number stand.
#[derive(Clone, Copy, Debug, PartialEq, Eq, Structural)]
pub enum ByteOrder {
    /// The least significant byte first.
    LittleEndian,
    /// The most significant byte first.
    BigEndian,
}

/// `u16::from_ne_bytes`: the number whose bytes these are in the order of the machine, which
/// [`endianness`] stands for.
#[verifier::external_body]
fn u16_from_native(bytes: [u8; 2]) -> (n: u16)
    ensures
        n == (match endianness() {
            Endian::Little => bytes[0] + 256 * bytes[1],
            Endian::Big => 256 * bytes[0] + bytes[1],
        }),
{
    u16::from_ne_bytes(bytes)
}

impl ByteOrder {
    /// The order of the machine.
    pub open spec fn machine() -> ByteOrder {
        match endianness() {
            Endian::Little => ByteOrder::LittleEndian,
            Endian::Big => ByteOrder::BigEndian,
        }
    }

    /// Tells the order of the machine.
    pub fn native() -> (order: ByteOrder)
        ensures
            order == ByteOrder::machine(),
    {
        if u16_from_native([1, 0]) == 1 {
            ByteOrder::LittleEndian
        } else {
            ByteOrder::BigEndian
        }
    }
}

/// Bytes that stand with the least significant one first, in the order.
pub open spec fn in_order(bytes: Seq<u8>, order: ByteOrder) -> Seq<u8> {
    match order {
        ByteOrder::LittleEndian => bytes,
        ByteOrder::BigEndian => bytes.reverse(),
    }
}

/// The number whose bytes these are, the least significant one first.
pub open spec fn number(bytes: Seq<u8>) -> nat
    decreases bytes.len(),
{
    if bytes.len() == 0 {
        0
    } else {
        bytes[0] as nat + 256 * number(bytes.drop_first())
    }
}

/// The first `count` bytes of a number, the least significant one first.
pub open spec fn digits(n: nat, count: nat) -> Seq<u8>
    decreases count,
{
    if count == 0 {
        Seq::empty()
    } else {
        seq![(n % 256) as u8] + digits(n / 256, (count - 1) as nat)
    }
}

/// The number of numbers with `count` bytes.
pub open spec fn limit(count: nat) -> nat
    decreases count,
{
    if count == 0 {
        1
    } else {
        256 * limit((count - 1) as nat)
    }
}

/// A number reads back from its bytes, where they are enough.
proof fn lemma_digits(n: nat, count: nat)
    ensures
        digits(n, count).len() == count,
        n < limit(count) ==> number(digits(n, count)) == n,
    decreases count,
{
    if count > 0 {
        let rest = digits(n / 256, (count - 1) as nat);
        lemma_digits(n / 256, (count - 1) as nat);
        assert(digits(n, count).drop_first() =~= rest);
    }
}

/// Bytes are those of a number below the limit.
proof fn lemma_number(bytes: Seq<u8>)
    ensures
        number(bytes) < limit(bytes.len()),
    decreases bytes.len(),
{
    if bytes.len() > 0 {
        lemma_number(bytes.drop_first());
    }
}

/// More bytes make more numbers.
proof fn lemma_limit_grows(a: nat, b: nat)
    requires
        a <= b,
    ensures
        limit(a) <= limit(b),
    decreases b,
{
    if a < b {
        lemma_limit_grows(a, (b - 1) as nat);
    }
}

/// The numbers with four bytes are those of 32 bits, and a word has room for every `usize`.
proof fn lemma_limits()
    ensures
        limit(4) == u32::MAX + 1,
        limit(words_len(1) as nat) == usize::MAX + 1,
{
    reveal_with_fuel(limit, 9);
}

/// The length of `count` words.
pub open spec fn words_len(count: int) -> int {
    if usize::BITS == 64 {
        8 * count
    } else {
        4 * count
    }
}

/// The bytes of a word.
pub open spec fn word_bytes(word: nat, order: ByteOrder) -> Seq<u8> {
    in_order(digits(word, words_len(1) as nat), order)
}

/// The word whose bytes these are.
pub open spec fn word_value(bytes: Seq<u8>, order: ByteOrder) -> nat {
    number(in_order(bytes, order))
}

/// Where the number of neighbours stands in the record of a node.
pub const LENGTH_OFFSET: usize = 128;

/// The length of the record of a node.
pub const NODE_BYTES: usize = 132;

/// All nodes, layer by layer.
pub open spec fn flat(levels: Seq<Seq<Seq<u32>>>) -> Seq<Seq<u32>>
    decreases levels.len(),
{
    if levels.len() == 0 {
        Seq::empty()
    } else {
        flat(levels.drop_last()) + levels.last()
    }
}

/// The words that a stored index begins with.
pub open spec fn header(levels: Seq<Seq<Seq<u32>>>) -> Seq<nat> {
    seq![flat(levels).len(), levels.len()] + Seq::new(levels.len(), |l: int| levels[l].len())
}

/// The bytes of words.
pub open spec fn words_bytes(words: Seq<nat>, order: ByteOrder) -> Seq<u8>
    decreases words.len(),
{
    if words.len() == 0 {
        Seq::empty()
    } else {
        words_bytes(words.drop_last(), order) + word_bytes(words.last(), order)
    }
}

/// What a record holds in the place for neighbour `k`.
pub open spec fn slot(node: Seq<u32>, k: int) -> u32 {
    if 0 <= k < node.len() {
        node[k]
    } else {
        0
    }
}

/// The bytes of the first `count` places for neighbours.
pub open spec fn slots_bytes(node: Seq<u32>, count: nat, order: ByteOrder) -> Seq<u8>
    decreases count,
{
    if count == 0 {
        Seq::empty()
    } else {
        slots_bytes(node, (count - 1) as nat, order) + in_order(
            digits(slot(node, count - 1) as nat, 4),
            order,
        )
    }
}

/// The record of a node.
pub open spec fn node_bytes(node: Seq<u32>, order: ByteOrder) -> Seq<u8> {
    slots_bytes(node, MAX_NEIGHBORS as nat, order) + seq![node.len() as u8, 0, 0, 0]
}

/// The records of nodes.
pub open spec fn nodes_bytes(nodes: Seq<Seq<u32>>, order: ByteOrder) -> Seq<u8>
    decreases nodes.len(),
{
    if nodes.len() == 0 {
        Seq::empty()
    } else {
        nodes_bytes(nodes.drop_last(), order) + node_bytes(nodes.last(), order)
    }
}

/// A stored index.
pub open spec fn index_bytes(levels: Seq<Seq<Seq<u32>>>, order: ByteOrder) -> Seq<u8> {
    words_bytes(header(levels), order) + nodes_bytes(flat(levels), order)
}

/// Word `k` of the header.
pub open spec fn word_at(b: Seq<u8>, k: int, order: ByteOrder) -> nat {
    word_value(b.subrange(words_len(k), words_len(k + 1)), order)
}

/// The number of nodes that are stored.
pub open spec fn stored_nodes(b: Seq<u8>, order: ByteOrder) -> nat {
    word_at(b, 0, order)
}

/// The number of layers that are stored.
pub open spec fn stored_levels(b: Seq<u8>, order: ByteOrder) -> nat {
    word_at(b, 1, order)
}

/// The number of nodes in the layers above layer `l`.
pub open spec fn nodes_above(b: Seq<u8>, l: nat, order: ByteOrder) -> nat
    decreases l,
{
    if l == 0 {
        0
    } else {
        nodes_above(b, (l - 1) as nat, order) + word_at(b, (l + 1) as int, order)
    }
}

/// Where the record of node `i` of all nodes stands.
pub open spec fn record_at(b: Seq<u8>, i: int, order: ByteOrder) -> int {
    words_len(stored_levels(b, order) as int + 2) + NODE_BYTES * i
}

/// The node whose record stands at `offset`.
pub open spec fn node_at(b: Seq<u8>, offset: int, order: ByteOrder) -> Seq<u32> {
    Seq::new(
        b[offset + LENGTH_OFFSET] as nat,
        |k: int|
            number(in_order(b.subrange(offset + 4 * k, offset + 4 * k + 4), order)) as u32,
    )
}

/// Layer `l` as it is stored.
pub open spec fn level_at(b: Seq<u8>, l: int, order: ByteOrder) -> Seq<Seq<u32>> {
    Seq::new(
        word_at(b, l + 2, order),
        |i: int| node_at(b, record_at(b, nodes_above(b, l as nat, order) + i, order), order),
    )
}

/// The layers that are stored.
pub open spec fn stored(b: Seq<u8>, order: ByteOrder) -> Seq<Seq<Seq<u32>>> {
    Seq::new(stored_levels(b, order), |l: int| level_at(b, l, order))
}

/// Whether the bytes are those of an index over `num_elements` elements: the header and all records
/// are there, there is a layer, all layers together have no more nodes than there are records, the
/// bottom layer has no more nodes than there are elements, and no node has more neighbours than it
/// can list. Something has to follow the header.
pub open spec fn loadable(b: Seq<u8>, num_elements: nat, order: ByteOrder) -> bool {
    &&& b.len() > words_len(2)
    &&& stored_levels(b, order) > 0
    &&& b.len() > record_at(b, 0, order)
    &&& b.len() >= record_at(b, stored_nodes(b, order) as int, order)
    &&& nodes_above(b, stored_levels(b, order), order) <= stored_nodes(b, order)
    &&& word_at(b, (stored_levels(b, order) + 1) as int, order) <= num_elements
    &&& forall|i: int|
        0 <= i < nodes_above(b, stored_levels(b, order), order) ==> (#[trigger] b[record_at(b, i, order)
            + LENGTH_OFFSET]) <= MAX_NEIGHBORS
}

/// The bytes of a word are as many as a word has, and the word reads back from them.
proof fn lemma_word_bytes(word: nat, order: ByteOrder)
    ensures
        word_bytes(word, order).len() == words_len(1),
        word <= usize::MAX ==> word_value(word_bytes(word, order), order) == word,
{
    lemma_limits();
    lemma_digits(word, words_len(1) as nat);
    lemma_in_order(digits(word, words_len(1) as nat), order);
}

/// Putting bytes in order twice changes nothing.
proof fn lemma_in_order(bytes: Seq<u8>, order: ByteOrder)
    ensures
        in_order(bytes, order).len() == bytes.len(),
        in_order(in_order(bytes, order), order) == bytes,
{
    assert(bytes.reverse().reverse() =~= bytes);
}

proof fn lemma_words_bytes(words: Seq<nat>, k: int, order: ByteOrder)
    ensures
        words_bytes(words, order).len() == words_len(words.len() as int),
        0 <= k < words.len() ==> words_bytes(words, order).subrange(
            words_len(k),
            words_len(k + 1),
        ) == word_bytes(words[k], order),
    decreases words.len(),
{
    if words.len() > 0 {
        let rest = words.drop_last();
        lemma_words_bytes(rest, k, order);
        let w = word_bytes(words.last(), order);
        lemma_word_bytes(words.last(), order);
        if 0 <= k < rest.len() {
            assert(words_bytes(words, order).subrange(words_len(k), words_len(k + 1))
                =~= words_bytes(rest, order).subrange(words_len(k), words_len(k + 1)));
        } else if k == rest.len() {
            assert(words_bytes(words, order).subrange(words_len(k), words_len(k + 1)) =~= w);
        }
    }
}

proof fn lemma_slots_bytes(node: Seq<u32>, count: nat, k: int, order: ByteOrder)
    ensures
        slots_bytes(node, count, order).len() == 4 * count,
        0 <= k < count ==> slots_bytes(node, count, order).subrange(4 * k, 4 * k + 4)
            == in_order(digits(slot(node, k) as nat, 4), order),
    decreases count,
{
    if count > 0 {
        let prior = (count - 1) as nat;
        lemma_slots_bytes(node, prior, k, order);
        let w = in_order(digits(slot(node, count - 1) as nat, 4), order);
        lemma_digits(slot(node, count - 1) as nat, 4);
        lemma_in_order(digits(slot(node, count - 1) as nat, 4), order);
        assert(w.len() == 4);
        if 0 <= k < prior {
            assert(slots_bytes(node, count, order).subrange(4 * k, 4 * k + 4) =~= slots_bytes(
                node,
                prior,
                order,
            ).subrange(4 * k, 4 * k + 4));
        } else if k == prior {
            assert(slots_bytes(node, count, order).subrange(4 * k, 4 * k + 4) =~= w);
        }
    }
}

proof fn lemma_nodes_bytes(nodes: Seq<Seq<u32>>, i: int, order: ByteOrder)
    ensures
        nodes_bytes(nodes, order).len() == NODE_BYTES * nodes.len(),
        0 <= i < nodes.len() ==> nodes_bytes(nodes, order).subrange(
            NODE_BYTES * i,
            NODE_BYTES * i + NODE_BYTES,
        ) == node_bytes(nodes[i], order),
    decreases nodes.len(),
{
    if nodes.len() > 0 {
        let rest = nodes.drop_last();
        lemma_nodes_bytes(rest, i, order);
        lemma_slots_bytes(nodes.last(), MAX_NEIGHBORS as nat, 0, order);
        let w = node_bytes(nodes.last(), order);
        assert(w.len() == NODE_BYTES);
        if 0 <= i < rest.len() {
            assert(nodes_bytes(nodes, order).subrange(NODE_BYTES * i, NODE_BYTES * i + NODE_BYTES)
                =~= nodes_bytes(rest, order).subrange(NODE_BYTES * i, NODE_BYTES * i + NODE_BYTES));
        } else if i == rest.len() {
            assert(nodes_bytes(nodes, order).subrange(NODE_BYTES * i, NODE_BYTES * i + NODE_BYTES) =~= w);
        }
    }
}

/// The records of nodes are those of the first of them and those of the rest.
pub proof fn lemma_nodes_bytes_split(a: Seq<Seq<u32>>, b: Seq<Seq<u32>>, order: ByteOrder)
    ensures
        nodes_bytes(a + b, order) == nodes_bytes(a, order) + nodes_bytes(b, order),
    decreases b.len(),
{
    if b.len() == 0 {
        assert(a + b =~= a);
        assert(nodes_bytes(a, order) + nodes_bytes(b, order) =~= nodes_bytes(a, order));
    } else {
        lemma_nodes_bytes_split(a, b.drop_last(), order);
        assert((a + b).drop_last() =~= a + b.drop_last());
        assert(nodes_bytes(a + b, order) =~= nodes_bytes(a, order) + nodes_bytes(b, order));
    }
}

/// The number of nodes above layer `l`.
pub open spec fn flat_above(levels: Seq<Seq<Seq<u32>>>, l: int) -> nat {
    flat(levels.take(l)).len()
}

proof fn lemma_flat(levels: Seq<Seq<Seq<u32>>>, l: int, i: int)
    requires
        0 <= l < levels.len(),
        0 <= i < levels[l].len(),
    ensures
        flat_above(levels, l) + i < flat(levels).len(),
        flat(levels)[flat_above(levels, l) + i] == levels[l][i],
    decreases levels.len(),
{
    let rest = levels.drop_last();
    if l < rest.len() {
        lemma_flat(rest, l, i);
        assert(rest.take(l) =~= levels.take(l));
    } else {
        assert(levels.take(l) =~= rest);
    }
}

/// A layer adds its nodes to those above it.
pub proof fn lemma_flat_above(levels: Seq<Seq<Seq<u32>>>, l: int)
    requires
        0 <= l < levels.len(),
    ensures
        flat_above(levels, l + 1) == flat_above(levels, l) + levels[l].len(),
        flat_above(levels, l + 1) <= flat(levels).len(),
    decreases levels.len() - l,
{
    assert(levels.take(l + 1).drop_last() =~= levels.take(l));
    if l + 1 < levels.len() {
        lemma_flat_above(levels, l + 1);
    } else {
        assert(levels.take(l + 1) =~= levels);
    }
}

/// A node reads back from its record.
proof fn lemma_node_at(b: Seq<u8>, offset: int, node: Seq<u32>, order: ByteOrder)
    requires
        node.len() <= MAX_NEIGHBORS,
        0 <= offset,
        offset + NODE_BYTES <= b.len(),
        b.subrange(offset, offset + NODE_BYTES) == node_bytes(node, order),
    ensures
        node_at(b, offset, order) == node,
        b[offset + LENGTH_OFFSET] == node.len(),
{
    let r = b.subrange(offset, offset + NODE_BYTES);
    lemma_slots_bytes(node, MAX_NEIGHBORS as nat, 0, order);
    assert(r[LENGTH_OFFSET as int] == node.len() as u8);
    assert(b[offset + LENGTH_OFFSET] == r[LENGTH_OFFSET as int]);
    assert forall|k: int| 0 <= k < node.len() implies #[trigger] node_at(b, offset, order)[k]
        == node[k] by {
        lemma_slots_bytes(node, MAX_NEIGHBORS as nat, k, order);
        assert(b.subrange(offset + 4 * k, offset + 4 * k + 4) =~= r.subrange(4 * k, 4 * k + 4));
        assert(node_bytes(node, order).subrange(4 * k, 4 * k + 4) =~= slots_bytes(
            node,
            MAX_NEIGHBORS as nat,
            order,
        ).subrange(4 * k, 4 * k + 4));
        lemma_limits();
        lemma_digits(node[k] as nat, 4);
        lemma_in_order(digits(node[k] as nat, 4), order);
    }
    assert(node_at(b, offset, order) =~= node);
}

/// What was stored is what is loaded, whatever follows it. There has to be a node: an index
/// without any is not loaded, because nothing follows its header.
pub proof fn law_store_and_load(
    levels: Seq<Seq<Seq<u32>>>,
    rest: Seq<u8>,
    num_elements: nat,
    order: ByteOrder,
)
    requires
        levels.len() > 0,
        levels.len() <= usize::MAX,
        0 < flat(levels).len() <= usize::MAX,
        forall|l: int| 0 <= l < levels.len() ==> lists_fit(#[trigger] levels[l]),
        levels.last().len() <= num_elements,
    ensures
        loadable(index_bytes(levels, order) + rest, num_elements, order),
        stored(index_bytes(levels, order) + rest, order) == levels,
{
    let b = index_bytes(levels, order) + rest;
    let h = header(levels);
    let nodes = flat(levels);
    let hb = words_bytes(h, order);
    let nb = nodes_bytes(nodes, order);
    lemma_words_bytes(h, 0, order);
    lemma_nodes_bytes(nodes, 0, order);
    assert forall|k: int| 0 <= k < h.len() implies h[k] <= usize::MAX by {
        if k >= 2 {
            lemma_flat_above(levels, k - 2);
        }
    }
    assert forall|k: int| 0 <= k < h.len() implies #[trigger] word_at(b, k, order) == h[k] by {
        lemma_words_bytes(h, k, order);
        assert(b.subrange(words_len(k), words_len(k + 1)) =~= hb.subrange(
            words_len(k),
            words_len(k + 1),
        ));
        lemma_word_bytes(h[k], order);
    }
    assert(stored_nodes(b, order) == nodes.len());
    assert(stored_levels(b, order) == levels.len());
    assert forall|l: nat| l <= levels.len() implies #[trigger] nodes_above(b, l, order) == flat_above(
        levels,
        l as int,
    ) by {
        lemma_nodes_above(b, levels, l, order);
    }
    assert(levels.take(levels.len() as int) =~= levels);
    assert forall|i: int| 0 <= i < nodes.len() implies nodes[i].len() <= MAX_NEIGHBORS && #[trigger] node_at(
        b,
        record_at(b, i, order),
        order,
    ) == nodes[i] && b[record_at(b, i, order) + LENGTH_OFFSET] == nodes[i].len() by {
        lemma_flat_fits(levels, i);
        lemma_nodes_bytes(nodes, i, order);
        assert(b.subrange(record_at(b, i, order), record_at(b, i, order) + NODE_BYTES) =~= nb.subrange(
            NODE_BYTES * i,
            NODE_BYTES * i + NODE_BYTES,
        ));
        lemma_node_at(b, record_at(b, i, order), nodes[i], order);
    }
    assert forall|i: int| 0 <= i < nodes_above(b, stored_levels(b, order), order) implies (#[trigger] b[record_at(
        b,
        i,
        order,
    ) + LENGTH_OFFSET]) <= MAX_NEIGHBORS by {
        assert(node_at(b, record_at(b, i, order), order) == nodes[i]);
    }
    assert(stored(b, order) =~= levels) by {
        assert forall|l: int| 0 <= l < levels.len() implies #[trigger] stored(b, order)[l] == levels[l] by {
            assert(word_at(b, l + 2, order) == h[l + 2]);
            assert(nodes_above(b, l as nat, order) == flat_above(levels, l));
            assert forall|i: int| 0 <= i < levels[l].len() implies #[trigger] level_at(b, l, order)[i]
                == levels[l][i] by {
                lemma_flat(levels, l, i);
                assert(node_at(b, record_at(b, (flat_above(levels, l) + i) as int, order), order)
                    == nodes[flat_above(levels, l) + i]);
            }
            assert(level_at(b, l, order) =~= levels[l]);
        }
    }
    assert(word_at(b, (stored_levels(b, order) + 1) as int, order) == h[(levels.len() + 1) as int]);
}

proof fn lemma_nodes_above(b: Seq<u8>, levels: Seq<Seq<Seq<u32>>>, l: nat, order: ByteOrder)
    requires
        l <= levels.len(),
        forall|k: int| 0 <= k < levels.len() + 2 ==> #[trigger] word_at(b, k, order) == header(levels)[k],
    ensures
        nodes_above(b, l, order) == flat_above(levels, l as int),
    decreases l,
{
    if l > 0 {
        lemma_nodes_above(b, levels, (l - 1) as nat, order);
        lemma_flat_above(levels, l - 1);
        assert(word_at(b, (l + 1) as int, order) == header(levels)[(l + 1) as int]);
    } else {
        assert(levels.take(0) =~= Seq::empty());
    }
}

proof fn lemma_flat_fits(levels: Seq<Seq<Seq<u32>>>, i: int)
    requires
        0 <= i < flat(levels).len(),
        forall|l: int| 0 <= l < levels.len() ==> lists_fit(#[trigger] levels[l]),
    ensures
        flat(levels)[i].len() <= MAX_NEIGHBORS,
    decreases levels.len(),
{
    let rest = levels.drop_last();
    if i < flat(rest).len() {
        assert forall|l: int| 0 <= l < rest.len() implies lists_fit(#[trigger] rest[l]) by {
            assert(rest[l] == levels[l]);
        }
        lemma_flat_fits(rest, i);
    } else {
        assert(lists_fit(levels[levels.len() - 1]));
    }
}

/// The first `count` bytes of a number, the least significant one first.
fn number_bytes(n: u64, count: usize) -> (r: Vec<u8>)
    ensures
        r@ == digits(n as nat, count as nat),
{
    let mut r: Vec<u8> = Vec::new();
    let mut rest: u64 = n;
    let mut i: usize = 0;
    assert(r@ + digits(rest as nat, count as nat) =~= digits(n as nat, count as nat));
    while i < count
        invariant
            i <= count,
            r@ + digits(rest as nat, (count - i) as nat) == digits(n as nat, count as nat),
        decreases count - i,
    {
        let ghost before = r@;
        r.push((rest % 256) as u8);
        assert(before + (seq![(rest % 256) as u8] + digits(
            rest as nat / 256,
            (count - i - 1) as nat,
        )) =~= r@ + digits(rest as nat / 256, (count - i - 1) as nat));
        rest = rest / 256;
        i += 1;
    }
    assert(r@ + digits(rest as nat, 0) =~= r@);
    r
}

/// The number whose bytes these are, the least significant one first.
fn bytes_number(bytes: &[u8]) -> (n: u64)
    requires
        bytes@.len() <= 8,
    ensures
        n == number(bytes@),
{
    let mut n: u64 = 0;
    let mut i: usize = bytes.len();
    assert(bytes@.skip(i as int) =~= Seq::empty());
    while i > 0
        invariant
            i <= bytes@.len() <= 8,
            n == number(bytes@.skip(i as int)),
        decreases i,
    {
        i -= 1;
        let ghost rest = bytes@.skip(i as int);
        proof {
            assert(rest.drop_first() =~= bytes@.skip(i + 1));
            lemma_number(rest);
            lemma_limit_grows(rest.len(), 8);
            reveal_with_fuel(limit, 9);
        }
        n = 256 * n + bytes[i] as u64;
    }
    assert(bytes@.skip(0) =~= bytes@);
    n
}

/// Appends bytes that stand with the least significant one first, in the order.
fn push_bytes(buffer: &mut Vec<u8>, bytes: &[u8], order: ByteOrder)
    ensures
        final(buffer)@ == old(buffer)@ + in_order(bytes@, order),
{
    let ghost ordered = in_order(bytes@, order);
    let count: usize = bytes.len();
    let mut i: usize = 0;
    while i < count
        invariant
            i <= count,
            count == bytes@.len(),
            ordered == in_order(bytes@, order),
            buffer@ == old(buffer)@ + ordered.take(i as int),
        decreases count - i,
    {
        let byte: u8 = match order {
            ByteOrder::LittleEndian => bytes[i],
            ByteOrder::BigEndian => bytes[count - 1 - i],
        };
        buffer.push(byte);
        i += 1;
        assert(buffer@ =~= old(buffer)@ + ordered.take(i as int));
    }
    assert(ordered.take(i as int) =~= ordered);
}

/// The `count` bytes from `start` on, with the least significant one first.
fn bytes_at(buffer: &[u8], start: usize, count: usize, order: ByteOrder) -> (r: Vec<u8>)
    requires
        start + count <= buffer@.len(),
    ensures
        r@ == in_order(buffer@.subrange(start as int, start + count), order),
{
    assert(buffer@.len() == buffer.len());
    let mut r: Vec<u8> = Vec::new();
    push_bytes(&mut r, slice_subrange(buffer, start, start + count), order);
    assert(r@ =~= in_order(buffer@.subrange(start as int, start + count), order));
    r
}

/// The length of `count` words, where it can be counted.
pub fn length_of_words(count: usize) -> (n: usize)
    requires
        words_len(count as int) <= usize::MAX,
    ensures
        n == words_len(count as int),
{
    if usize::BITS == 64 {
        8 * count
    } else {
        4 * count
    }
}

/// How many whole words `len` bytes have room for.
fn words_in(len: usize) -> (n: usize)
    ensures
        words_len(n as int) <= len < words_len(n + 1),
{
    if usize::BITS == 64 {
        len / 8
    } else {
        len / 4
    }
}

/// Appends a word.
pub fn push_word(buffer: &mut Vec<u8>, word: usize, order: ByteOrder)
    ensures
        final(buffer)@ == old(buffer)@ + word_bytes(word as nat, order),
{
    let bytes = number_bytes(word as u64, length_of_words(1));
    push_bytes(buffer, bytes.as_slice(), order);
}

/// Appends the record of a node.
pub fn push_node(buffer: &mut Vec<u8>, node: &HnswNode, order: ByteOrder)
    ensures
        final(buffer)@ == old(buffer)@ + node_bytes(node@, order),
        node@.len() <= MAX_NEIGHBORS,
{
    let neighbors = node.neighbors();
    let mut k: usize = 0;
    assert(buffer@ =~= old(buffer)@ + slots_bytes(node@, 0, order));
    while k < MAX_NEIGHBORS
        invariant
            k <= MAX_NEIGHBORS,
            neighbors@ == node@,
            buffer@ == old(buffer)@ + slots_bytes(node@, k as nat, order),
        decreases MAX_NEIGHBORS - k,
    {
        let neighbor: u32 = if k < neighbors.len() {
            neighbors[k]
        } else {
            0
        };
        push_bytes(buffer, number_bytes(neighbor as u64, 4).as_slice(), order);
        k += 1;
        assert(buffer@ =~= old(buffer)@ + slots_bytes(node@, k as nat, order));
    }
    buffer.push(neighbors.len() as u8);
    buffer.push(0);
    buffer.push(0);
    buffer.push(0);
    assert(buffer@ =~= old(buffer)@ + node_bytes(node@, order));
}

/// Reads word `k` of the header.
pub fn read_word(buffer: &[u8], k: usize, order: ByteOrder) -> (word: usize)
    requires
        words_len(k + 1) <= buffer@.len(),
    ensures
        word == word_at(buffer@, k as int, order),
{
    assert(buffer@.len() == buffer.len());
    let start: usize = length_of_words(k);
    let bytes = bytes_at(buffer, start, length_of_words(1), order);
    proof {
        lemma_limits();
        lemma_number(bytes@);
        lemma_in_order(buffer@.subrange(start as int, start + words_len(1)), order);
    }
    bytes_number(bytes.as_slice()) as usize
}

/// Reads the node whose record stands at `offset`.
pub fn read_node(buffer: &[u8], offset: usize, order: ByteOrder) -> (node: HnswNode)
    requires
        offset + NODE_BYTES <= buffer@.len(),
        buffer@[offset + LENGTH_OFFSET] <= MAX_NEIGHBORS,
    ensures
        node@ == node_at(buffer@, offset as int, order),
{
    assert(buffer@.len() == buffer.len());
    let len: usize = buffer[offset + LENGTH_OFFSET] as usize;
    let mut node = HnswNode::default();
    let mut k: usize = 0;
    while k < len
        invariant
            k <= len <= MAX_NEIGHBORS,
            offset + NODE_BYTES <= buffer@.len() <= usize::MAX,
            len == buffer@[offset + LENGTH_OFFSET],
            node@.len() == k,
            forall|m: int| 0 <= m < k ==> node@[m] == node_at(buffer@, offset as int, order)[m],
        decreases len - k,
    {
        let start: usize = offset + 4 * k;
        let bytes = bytes_at(buffer, start, 4, order);
        proof {
            lemma_limits();
            lemma_number(bytes@);
            lemma_in_order(buffer@.subrange(start as int, start + 4), order);
        }
        node.add_neighbor(bytes_number(bytes.as_slice()) as u32);
        k += 1;
    }
    assert(node@ =~= node_at(buffer@, offset as int, order));
    node
}

/// Further layers add nodes.
pub proof fn lemma_nodes_above_grows(b: Seq<u8>, l: nat, m: nat, order: ByteOrder)
    requires
        l <= m,
    ensures
        nodes_above(b, l, order) <= nodes_above(b, m, order),
    decreases m,
{
    if l < m {
        lemma_nodes_above_grows(b, l, (m - 1) as nat, order);
    }
}

/// Tells whether the bytes are those of an index over `num_elements` elements.
pub fn is_loadable(buffer: &[u8], num_elements: usize, order: ByteOrder) -> (r: bool)
    ensures
        r == loadable(buffer@, num_elements as nat, order),
{
    let len: usize = buffer.len();
    if len <= length_of_words(2) {
        return false;
    }
    let num_levels: usize = read_word(buffer, 1, order);
    if num_levels == 0 || num_levels > words_in(len - 1) - 2 {
        return false;
    }
    let first: usize = length_of_words(2 + num_levels);
    let num_nodes: usize = read_word(buffer, 0, order);
    if num_nodes > (len - first) / NODE_BYTES {
        return false;
    }
    let mut start: usize = 0;
    let mut l: usize = 0;
    while l < num_levels
        invariant
            l <= num_levels,
            len == buffer@.len(),
            num_levels == stored_levels(buffer@, order),
            num_nodes == stored_nodes(buffer@, order),
            words_len(2 + num_levels) <= len,
            start == nodes_above(buffer@, l as nat, order),
            start <= num_nodes,
        decreases num_levels - l,
    {
        let count: usize = read_word(buffer, 2 + l, order);
        if count > num_nodes - start {
            proof {
                lemma_nodes_above_grows(buffer@, (l + 1) as nat, num_levels as nat, order);
            }
            return false;
        }
        start = start + count;
        l += 1;
    }
    if read_word(buffer, num_levels + 1, order) > num_elements {
        return false;
    }
    let mut i: usize = 0;
    while i < start
        invariant
            i <= start <= num_nodes,
            len == buffer@.len(),
            num_levels == stored_levels(buffer@, order),
            first == words_len(2 + num_levels),
            start == nodes_above(buffer@, num_levels as nat, order),
            first + NODE_BYTES * num_nodes <= len,
            forall|j: int|
                0 <= j < i ==> (#[trigger] buffer@[record_at(buffer@, j, order) + LENGTH_OFFSET])
                    <= MAX_NEIGHBORS,
        decreases start - i,
    {
        let offset: usize = first + NODE_BYTES * i;
        if buffer[offset + LENGTH_OFFSET] as usize > MAX_NEIGHBORS {
            assert(buffer@[record_at(buffer@, i as int, order) + LENGTH_OFFSET] > MAX_NEIGHBORS);
            return false;
        }
        i += 1;
    }
    true
}

/// Reads a layer, whose nodes are the `count` nodes from `start` on. The records begin at `first`.
pub fn read_level(
    buffer: &[u8],
    first: usize,
    start: usize,
    count: usize,
    order: ByteOrder,
) -> (r: Vec<HnswNode>)
    requires
        first == record_at(buffer@, 0, order),
        record_at(buffer@, start + count, order) <= buffer@.len(),
        forall|i: int|
            start <= i < start + count ==> (#[trigger] buffer@[record_at(buffer@, i, order)
                + LENGTH_OFFSET]) <= MAX_NEIGHBORS,
    ensures
        graph(r@) == Seq::new(
            count as nat,
            |i: int| node_at(buffer@, record_at(buffer@, start + i, order), order),
        ),
{
    assert(buffer@.len() == buffer.len());
    let mut r: Vec<HnswNode> = Vec::new();
    let mut i: usize = 0;
    while i < count
        invariant
            i <= count,
            first == record_at(buffer@, 0, order),
            record_at(buffer@, start + count, order) <= buffer@.len() <= usize::MAX,
            forall|i: int|
                start <= i < start + count ==> (#[trigger] buffer@[record_at(buffer@, i, order)
                    + LENGTH_OFFSET]) <= MAX_NEIGHBORS,
            r@.len() == i,
            forall|j: int|
                0 <= j < i ==> (#[trigger] r@[j])@ == node_at(
                    buffer@,
                    record_at(buffer@, start + j, order),
                    order,
                ),
        decreases count - i,
    {
        let offset: usize = first + NODE_BYTES * (start + i);
        assert(offset == record_at(buffer@, start + i, order));
        assert(buffer@[record_at(buffer@, start + i, order) + LENGTH_OFFSET] <= MAX_NEIGHBORS);
        r.push(read_node(buffer, offset, order));
        i += 1;
    }
    assert(graph(r@) =~= Seq::new(
        count as nat,
        |i: int| node_at(buffer@, record_at(buffer@, start + i, order), order),
    ));
    r
}

/// The number that the four bytes from `o` on are.
pub open spec fn four_bytes(b: Seq<u8>, o: int, order: ByteOrder) -> int {
    match order {
        ByteOrder::LittleEndian => b[o] + 256 * b[o + 1] + 65536 * b[o + 2] + 16777216 * b[o + 3],
        ByteOrder::BigEndian => b[o + 3] + 256 * b[o + 2] + 65536 * b[o + 1] + 16777216 * b[o],
    }
}

/// Where word `k` stands: after `k` words of 8 bytes, or of 4 on a machine with words of 32 bits.
pub open spec fn place(k: int) -> int {
    if usize::BITS == 64 {
        8 * k
    } else {
        4 * k
    }
}

/// The number that word `k` is.
pub open spec fn word_number(b: Seq<u8>, k: int, order: ByteOrder) -> int {
    if usize::BITS == 64 {
        match order {
            ByteOrder::LittleEndian => four_bytes(b, 8 * k, order) + 4294967296 * four_bytes(
                b,
                8 * k + 4,
                order,
            ),
            ByteOrder::BigEndian => four_bytes(b, 8 * k + 4, order) + 4294967296 * four_bytes(
                b,
                8 * k,
                order,
            ),
        }
    } else {
        four_bytes(b, 4 * k, order)
    }
}

/// How many nodes the first `l` layers have.
pub open spec fn nodes_before(levels: Seq<Seq<Seq<u32>>>, l: int) -> int
    decreases l,
{
    if l <= 0 {
        0
    } else {
        nodes_before(levels, l - 1) + levels[l - 1].len()
    }
}

/// Whether the bytes from `o` on are the record of a node: its neighbours one after the other in
/// four bytes each, and behind the room for 32 of them how many they are.
pub open spec fn is_record(b: Seq<u8>, o: int, node: Seq<u32>, order: ByteOrder) -> bool {
    &&& b[o + 128] == node.len()
    &&& forall|k: int| 0 <= k < node.len() ==> #[trigger] node[k] == four_bytes(b, o + 4 * k, order)
}

proof fn lemma_four_bytes(b: Seq<u8>, o: int, order: ByteOrder)
    requires
        0 <= o,
        o + 4 <= b.len(),
    ensures
        number(in_order(b.subrange(o, o + 4), order)) == four_bytes(b, o, order),
        0 <= four_bytes(b, o, order) <= u32::MAX,
{
    let s = in_order(b.subrange(o, o + 4), order);
    reveal_with_fuel(number, 5);
    assert(s.drop_first()[0] == s[1]);
    assert(s.drop_first().drop_first()[0] == s[2]);
    assert(s.drop_first().drop_first().drop_first()[0] == s[3]);
    assert(s.drop_first().drop_first().drop_first().drop_first().len() == 0);
}

proof fn lemma_number_split(a: Seq<u8>, b: Seq<u8>)
    ensures
        number(a + b) == number(a) + limit(a.len()) * number(b),
    decreases a.len(),
{
    if a.len() == 0 {
        assert(a + b =~= b);
        assert(limit(0) * number(b) == number(b)) by (nonlinear_arith)
            requires
                limit(0) == 1,
        ;
    } else {
        let rest = a.drop_first();
        lemma_number_split(rest, b);
        assert((a + b).drop_first() =~= rest + b);
        assert((a + b)[0] == a[0]);
        assert(number(a + b) == a[0] as nat + 256 * number(rest + b));
        assert(number(a) == a[0] as nat + 256 * number(rest));
        assert(limit(a.len()) == 256 * limit(rest.len()));
        let l = limit(rest.len());
        let n = number(b);
        assert(256 * (number(rest) + l * n) == 256 * number(rest) + (256 * l) * n)
            by (nonlinear_arith);
    }
}

proof fn lemma_word_number(b: Seq<u8>, k: int, order: ByteOrder)
    requires
        0 <= k,
        place(k + 1) <= b.len(),
    ensures
        word_at(b, k, order) == word_number(b, k, order),
{
    let o = place(k);
    lemma_four_bytes(b, o, order);
    if usize::BITS == 64 {
        lemma_four_bytes(b, o + 4, order);
        let whole = b.subrange(o, o + 8);
        let low = b.subrange(o, o + 4);
        let high = b.subrange(o + 4, o + 8);
        lemma_limits();
        match order {
            ByteOrder::LittleEndian => {
                lemma_number_split(low, high);
                assert(whole =~= low + high);
            },
            ByteOrder::BigEndian => {
                lemma_number_split(high.reverse(), low.reverse());
                assert(whole.reverse() =~= high.reverse() + low.reverse());
            },
        }
    }
}

proof fn lemma_nodes_before(b: Seq<u8>, l: nat, order: ByteOrder)
    requires
        l <= stored_levels(b, order),
    ensures
        nodes_above(b, l, order) == nodes_before(stored(b, order), l as int),
    decreases l,
{
    if l > 0 {
        lemma_nodes_before(b, (l - 1) as nat, order);
        assert(stored(b, order)[l - 1].len() == word_at(b, (l + 1) as int, order));
    }
}

/// What is loaded is what the bytes say. The words are the numbers of nodes, of layers, and of the
/// nodes of each layer. The records follow them, 132 bytes each, and each node has the neighbours
/// that its record lists.
pub proof fn law_loaded_from_bytes(b: Seq<u8>, num_elements: nat, order: ByteOrder)
    requires
        loadable(b, num_elements, order),
    ensures
        ({
            let levels = stored(b, order);
            let first = place(2 + levels.len() as int);
            &&& levels.len() == word_number(b, 1, order)
            &&& forall|l: int|
                0 <= l < levels.len() ==> (#[trigger] levels[l]).len() == word_number(
                    b,
                    2 + l,
                    order,
                )
            &&& forall|l: int, i: int|
                0 <= l < levels.len() && 0 <= i < levels[l].len() ==> is_record(
                    b,
                    first + 132 * (nodes_before(levels, l) + i),
                    #[trigger] levels[l][i],
                    order,
                )
        }),
{
    let levels = stored(b, order);
    let first = place(2 + levels.len() as int);
    lemma_word_number(b, 0, order);
    lemma_word_number(b, 1, order);
    assert(forall|k: int| words_len(k) == place(k));
    assert forall|l: int| 0 <= l < levels.len() implies (#[trigger] levels[l]).len() == word_number(
        b,
        2 + l,
        order,
    ) by {
        lemma_word_number(b, 2 + l, order);
    }
    assert forall|l: int, i: int| 0 <= l < levels.len() && 0 <= i < levels[l].len() implies is_record(
        b,
        first + 132 * (nodes_before(levels, l) + i),
        #[trigger] levels[l][i],
        order,
    ) by {
        lemma_nodes_before(b, l as nat, order);
        let n = nodes_above(b, l as nat, order) + i;
        let o = record_at(b, n, order);
        lemma_nodes_above_grows(b, (l + 1) as nat, stored_levels(b, order), order);
        assert(n < nodes_above(b, stored_levels(b, order), order));
        assert(b[o + LENGTH_OFFSET] <= MAX_NEIGHBORS);
        let node = levels[l][i];
        assert(node == node_at(b, o, order));
        assert forall|k: int| 0 <= k < node.len() implies #[trigger] node[k] == four_bytes(
            b,
            o + 4 * k,
            order,
        ) by {
            lemma_four_bytes(b, o + 4 * k, order);
        }
    }
}

/// How many nodes the words of the first `l` layers count.
pub open spec fn counted(b: Seq<u8>, l: int, order: ByteOrder) -> int
    decreases l,
{
    if l <= 0 {
        0
    } else {
        counted(b, l - 1, order) + word_number(b, l + 1, order)
    }
}

/// Bytes can be loaded exactly where there is something behind the words, the words count at least
/// one layer, no more nodes in all layers than in all, and no more in the last layer than there are
/// elements, all records are there, and no record of a layer says that it lists more than 32
/// neighbours.
pub proof fn law_loadable(b: Seq<u8>, num_elements: nat, order: ByteOrder)
    ensures
        loadable(b, num_elements, order) <==> {
            let levels = word_number(b, 1, order);
            let nodes = word_number(b, 0, order);
            &&& b.len() > place(2)
            &&& levels > 0
            &&& b.len() > place(2 + levels)
            &&& b.len() >= place(2 + levels) + 132 * nodes
            &&& counted(b, levels, order) <= nodes
            &&& word_number(b, 1 + levels, order) <= num_elements
            &&& forall|i: int|
                0 <= i < counted(b, levels, order) ==> (#[trigger] b[place(2 + levels) + 132 * i
                    + 128]) <= 32
        },
{
    assert(forall|k: int| words_len(k) == place(k));
    if b.len() > place(2) {
        lemma_word_number(b, 0, order);
        lemma_word_number(b, 1, order);
        let levels = stored_levels(b, order);
        if levels > 0 && b.len() > place(2 + levels as int) {
            lemma_counted(b, levels, order);
            lemma_word_number(b, levels as int + 1, order);
            let nodes = counted(b, levels as int, order);
            if loadable(b, num_elements, order) {
                assert forall|i: int| 0 <= i < nodes implies (#[trigger] b[place(
                    2 + levels as int,
                ) + 132 * i + 128]) <= 32 by {
                    assert(b[record_at(b, i, order) + LENGTH_OFFSET] <= MAX_NEIGHBORS);
                }
            }
            if forall|i: int|
                0 <= i < nodes ==> (#[trigger] b[place(2 + levels as int) + 132 * i + 128]) <= 32 {
                assert forall|i: int| 0 <= i < nodes implies (#[trigger] b[record_at(b, i, order)
                    + LENGTH_OFFSET]) <= MAX_NEIGHBORS by {
                    assert(b[place(2 + levels as int) + 132 * i + 128] <= 32);
                }
            }
        }
    }
}

proof fn lemma_counted(b: Seq<u8>, l: nat, order: ByteOrder)
    requires
        place(2 + l as int) <= b.len(),
    ensures
        nodes_above(b, l, order) == counted(b, l as int, order),
    decreases l,
{
    if l > 0 {
        lemma_counted(b, (l - 1) as nat, order);
        lemma_word_number(b, l as int + 1, order);
    }
}

proof fn lemma_flat_before(levels: Seq<Seq<Seq<u32>>>, l: int)
    requires
        0 <= l <= levels.len(),
    ensures
        flat_above(levels, l) == nodes_before(levels, l),
    decreases l,
{
    if l > 0 {
        lemma_flat_before(levels, l - 1);
        lemma_flat_above(levels, l - 1);
    } else {
        assert(levels.take(0) =~= Seq::empty());
    }
}

/// What is stored has a fixed place for everything. The words are the numbers of nodes, of layers,
/// and of the nodes of each layer. The records follow them, 132 bytes each, and nothing else. Each
/// lists the neighbours of its node, and where a record lists none it holds zeros.
pub proof fn law_stored_in_bytes(levels: Seq<Seq<Seq<u32>>>, order: ByteOrder)
    requires
        levels.len() <= usize::MAX,
        nodes_before(levels, levels.len() as int) <= usize::MAX,
        forall|l: int| 0 <= l < levels.len() ==> lists_fit(#[trigger] levels[l]),
    ensures
        ({
            let b = index_bytes(levels, order);
            let count = levels.len() as int;
            let first = place(2 + count);
            &&& b.len() == first + 132 * nodes_before(levels, count)
            &&& word_number(b, 0, order) == nodes_before(levels, count)
            &&& word_number(b, 1, order) == count
            &&& forall|l: int|
                0 <= l < count ==> word_number(b, 2 + l, order) == (#[trigger] levels[l]).len()
            &&& forall|l: int, i: int|
                0 <= l < count && 0 <= i < levels[l].len() ==> is_record(
                    b,
                    first + 132 * (nodes_before(levels, l) + i),
                    #[trigger] levels[l][i],
                    order,
                )
            &&& forall|l: int, i: int, k: int|
                0 <= l < count && 0 <= i < levels[l].len() && 4 * levels[l][i].len() <= k < 132 && k
                    != 128 ==> #[trigger] unused(b, first + 132 * (nodes_before(levels, l) + i), k)
        }),
{
    let b = index_bytes(levels, order);
    let count = levels.len() as int;
    let first = place(2 + count);
    let h = header(levels);
    let nodes = flat(levels);
    assert(forall|k: int| words_len(k) == place(k));
    lemma_flat_before(levels, count);
    assert(levels.take(count) =~= levels);
    lemma_words_bytes(h, 0, order);
    lemma_nodes_bytes(nodes, 0, order);
    let hb = words_bytes(h, order);
    let nb = nodes_bytes(nodes, order);
    assert forall|k: int| 0 <= k < h.len() implies h[k] <= usize::MAX by {
        if k >= 2 {
            lemma_flat_above(levels, k - 2);
        }
    }
    assert forall|k: int| 0 <= k < h.len() implies #[trigger] word_number(b, k, order) == h[k] by {
        lemma_words_bytes(h, k, order);
        assert(b.subrange(words_len(k), words_len(k + 1)) =~= hb.subrange(
            words_len(k),
            words_len(k + 1),
        ));
        lemma_word_bytes(h[k], order);
        lemma_word_number(b, k, order);
    }
    assert forall|l: int| 0 <= l < count implies word_number(b, 2 + l, order) == (#[trigger]
    levels[l]).len() by {
        assert(word_number(b, 2 + l, order) == h[2 + l]);
    }
    assert(word_number(b, 0, order) == h[0]);
    assert(word_number(b, 1, order) == h[1]);
    assert forall|l: int, i: int| 0 <= l < count && 0 <= i < levels[l].len() implies is_record(
        b,
        first + 132 * (nodes_before(levels, l) + i),
        #[trigger] levels[l][i],
        order,
    ) by {
        lemma_record_written(levels, l, i, order);
    }
    assert forall|l: int, i: int, k: int|
        0 <= l < count && 0 <= i < levels[l].len() && 4 * levels[l][i].len() <= k < 132 && k
            != 128 implies #[trigger] unused(
        b,
        first + 132 * (nodes_before(levels, l) + i),
        k,
    ) by {
        lemma_record_written(levels, l, i, order);
    }
}

/// Whether byte `k` of the record at `o` is zero.
pub open spec fn unused(b: Seq<u8>, o: int, k: int) -> bool {
    b[o + k] == 0
}

proof fn lemma_record_written(levels: Seq<Seq<Seq<u32>>>, l: int, i: int, order: ByteOrder)
    requires
        0 <= l < levels.len(),
        0 <= i < levels[l].len(),
        lists_fit(levels[l]),
    ensures
        ({
            let b = index_bytes(levels, order);
            let o = place(2 + levels.len() as int) + 132 * (nodes_before(levels, l) + i);
            &&& is_record(b, o, levels[l][i], order)
            &&& forall|k: int|
                4 * levels[l][i].len() <= k < 132 && k != 128 ==> #[trigger] unused(b, o, k)
        }),
{
    let b = index_bytes(levels, order);
    let h = header(levels);
    let nodes = flat(levels);
    let node = levels[l][i];
    assert(node.len() <= MAX_NEIGHBORS);
    lemma_flat(levels, l, i);
    lemma_flat_before(levels, l);
    let n = flat_above(levels, l) + i;
    lemma_words_bytes(h, 0, order);
    lemma_nodes_bytes(nodes, n, order);
    lemma_slots_bytes(node, 32, 0, order);
    let o = place(2 + levels.len() as int) + 132 * n;
    let rec = node_bytes(node, order);
    assert(b.subrange(o, o + 132) =~= nodes_bytes(nodes, order).subrange(132 * n, 132 * n + 132));
    assert(b.subrange(o, o + 132) == rec);
    assert forall|k: int| 0 <= k < 132 implies b[o + k] == #[trigger] rec[k] by {
        assert(b.subrange(o, o + 132)[k] == b[o + k]);
    }
    assert(rec[128] == node.len() as u8);
    assert forall|k: int| 0 <= k < 32 implies four_bytes(b, o + 4 * k, order) == #[trigger] slot(
        node,
        k,
    ) by {
        lemma_slots_bytes(node, 32, k, order);
        assert(b.subrange(o + 4 * k, o + 4 * k + 4) =~= rec.subrange(4 * k, 4 * k + 4)) by {
            assert forall|m: int| 0 <= m < 4 implies #[trigger] b.subrange(
                o + 4 * k,
                o + 4 * k + 4,
            )[m] == rec.subrange(4 * k, 4 * k + 4)[m] by {
                assert(b[o + (4 * k + m)] == rec[4 * k + m]);
            }
        }
        assert(rec.subrange(4 * k, 4 * k + 4) =~= slots_bytes(node, 32, order).subrange(
            4 * k,
            4 * k + 4,
        ));
        lemma_limits();
        lemma_digits(slot(node, k) as nat, 4);
        lemma_in_order(digits(slot(node, k) as nat, 4), order);
        lemma_four_bytes(b, o + 4 * k, order);
    }
    assert forall|k: int| 0 <= k < node.len() implies #[trigger] node[k] == four_bytes(
        b,
        o + 4 * k,
        order,
    ) by {
        assert(slot(node, k) == node[k]);
    }
    assert forall|k: int| 4 * node.len() <= k < 132 && k != 128 implies #[trigger] unused(
        b,
        o,
        k,
    ) by {
        if k < 128 {
            let q = k / 4;
            assert(slot(node, q) == 0);
            assert(four_bytes(b, o + 4 * q, order) == 0);
        } else {
            assert(rec[k] == 0);
        }
    }
}

/// Wherever there is a word, it reads as the number that its bytes are.
pub proof fn law_word_reads(b: Seq<u8>, k: int, order: ByteOrder)
    requires
        0 <= k,
        place(k + 1) <= b.len(),
    ensures
        word_at(b, k, order) == word_number(b, k, order),
{
    lemma_word_number(b, k, order);
}

/// Wherever there is a record, it reads as the node that its bytes list.
pub proof fn law_record_reads(b: Seq<u8>, o: int, order: ByteOrder)
    requires
        0 <= o,
        o + 132 <= b.len(),
        b[o + 128] <= 32,
    ensures
        is_record(b, o, node_at(b, o, order), order),
{
    let node = node_at(b, o, order);
    assert forall|k: int| 0 <= k < node.len() implies #[trigger] node[k] == four_bytes(
        b,
        o + 4 * k,
        order,
    ) by {
        lemma_four_bytes(b, o + 4 * k, order);
    }
}

} // verus!
