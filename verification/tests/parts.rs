//! The parts that an index is made of.
use hnsw::builder::{Config, HnswBuilder};
use hnsw::distance::{is_negligible, Distance, HasDistance, DIST_EPSILON};
use hnsw::heap::{CandidateQueue, MaxSizeHeap};
use hnsw::index::{are_links_below, Hnsw};
use hnsw::node::{HnswNode, MAX_NEIGHBORS};
use hnsw::order::{insert_candidate, is_nearer};
use hnsw::progress::Progress;
use hnsw::search::{walk_layer, NeighborSearch};
use hnsw::storage::{
    is_loadable, length_of_words, push_node, push_word, read_level, read_node, read_word, ByteOrder,
    NODE_BYTES,
};
use std::mem::size_of;

/// Small numbers are ordered as their bits.
fn at(bits: u32) -> Distance {
    Distance { bits }
}

/// A candidate at a small distance.
fn candidate(bits: u32, idx: usize) -> (Distance, usize) {
    (at(bits), idx)
}

/// Indices with small distances.
fn near(list: &[(usize, u32)]) -> Vec<(usize, Distance)> {
    list.iter().map(|&(i, bits)| (i, at(bits))).collect()
}

/// A point on a line.
struct Point(i32);

impl HasDistance for Point {
    fn dist(&self, other: &Self) -> Distance {
        at((self.0 - other.0).unsigned_abs())
    }
}

fn points(count: i32) -> Vec<Point> {
    (0..count).map(|i| Point(10 * i)).collect()
}

fn node(neighbors: &[u32]) -> HnswNode {
    let mut node = HnswNode::default();
    for &n in neighbors {
        node.add_neighbor(n);
    }
    node
}

fn small_index(order: ByteOrder) -> Vec<u8> {
    let elements = points(3);
    let config = Config {
        num_levels: 2,
        level_multiplier: 10,
        max_search: 10,
        show_progress: false,
    };
    let mut builder = HnswBuilder::new(config, &elements[..]);
    builder.build_index();
    let mut data = Vec::new();
    builder.write_header(&mut data, order);
    builder.write_level(&mut data, 0, order);
    builder.write_level(&mut data, 1, order);
    data
}

fn number(n: f32) -> Distance {
    at(n.to_bits())
}

#[test]
fn distances_are_numbers() {
    assert_eq!(0x3F80_0000, number(1.0).to_order());
    assert_eq!(-0x3F80_0000, number(-1.0).to_order());
    assert_eq!(0, number(0.0).to_order());
    assert_eq!(0, number(-0.0).to_order());
    assert!(number(0.0) != number(-0.0));
    assert_eq!((10.0 * f32::EPSILON).to_bits(), DIST_EPSILON);
    assert!(is_negligible(number(9.9 * f32::EPSILON)));
    assert!(is_negligible(number(-3.0)));
    assert!(!is_negligible(number(10.0 * f32::EPSILON)));
}

#[test]
fn distances_are_ordered_as_numbers() {
    let numbers: Vec<f32> = vec![
        f32::NEG_INFINITY,
        -2.5,
        -1.0,
        -f32::MIN_POSITIVE,
        -0.0,
        0.0,
        f32::MIN_POSITIVE,
        1.0e-20,
        0.5,
        0.5000001,
        3.0,
        f32::MAX,
        f32::INFINITY,
    ];
    for &a in &numbers {
        for &b in &numbers {
            assert_eq!(a < b, number(a).is_less(number(b)));
            assert_eq!(a == b, number(a).to_order() == number(b).to_order());
        }
    }
}

#[test]
fn candidates_are_ordered_by_distance_and_index() {
    assert!(is_nearer(candidate(1, 9), candidate(2, 0)));
    assert!(!is_nearer(candidate(2, 0), candidate(1, 9)));
    assert!(is_nearer(candidate(1, 3), candidate(1, 4)));
    assert!(!is_nearer(candidate(1, 4), candidate(1, 4)));

    let mut v: Vec<(Distance, usize)> = Vec::new();
    for c in [candidate(5, 1), candidate(3, 2), candidate(9, 0), candidate(3, 1), candidate(5, 1)] {
        insert_candidate(&mut v, c);
    }
    assert_eq!(vec![candidate(3, 1), candidate(3, 2), candidate(5, 1), candidate(5, 1), candidate(9, 0)], v);
}

#[test]
fn a_bounded_heap_keeps_the_nearest() {
    let mut heap = MaxSizeHeap::new(2);
    assert_eq!(None, heap.peek());
    assert!(!heap.is_full());
    heap.push(candidate(5, 1));
    assert!(!heap.is_full());
    heap.push(candidate(3, 2));
    assert!(heap.is_full());
    assert_eq!(Some(&candidate(5, 1)), heap.peek());
    heap.push(candidate(4, 0));
    assert_eq!(Some(&candidate(4, 0)), heap.peek());
    heap.push(candidate(9, 9));
    heap.push(candidate(4, 1));
    assert_eq!(Some(&candidate(4, 0)), heap.peek());
    heap.push(candidate(3, 5));
    assert_eq!(vec![candidate(3, 2), candidate(3, 5)], heap.into_sorted_vec());
    assert!(MaxSizeHeap::new(0).is_full());
}

#[test]
fn a_bounded_heap_does_not_care_for_the_order_of_arrival() {
    let mut candidates: Vec<(Distance, usize)> =
        (0..20).map(|i| candidate(((i * 7) % 11) as u32, i)).collect();
    let mut expected = candidates.clone();
    expected.sort_by_key(|c| (c.0.to_order(), c.1));
    expected.truncate(6);
    for _ in 0..20 {
        candidates.rotate_left(3);
        candidates.swap(0, 11);
        let mut heap = MaxSizeHeap::new(6);
        for &c in &candidates {
            heap.push(c);
        }
        assert_eq!(expected, heap.into_sorted_vec());
    }
}

#[test]
fn a_queue_hands_out_the_nearest_first() {
    let mut queue = CandidateQueue::new();
    assert_eq!(None, queue.pop());
    for c in [candidate(5, 1), candidate(3, 2), candidate(9, 0), candidate(3, 1)] {
        queue.push(c);
    }
    assert_eq!(Some(candidate(3, 1)), queue.pop());
    assert_eq!(Some(candidate(3, 2)), queue.pop());
    queue.push((number(-1.0), 7));
    queue.push(candidate(6, 7));
    assert_eq!(Some((number(-1.0), 7)), queue.pop());
    assert_eq!(Some(candidate(5, 1)), queue.pop());
    assert_eq!(Some(candidate(6, 7)), queue.pop());
    assert_eq!(Some(candidate(9, 0)), queue.pop());
    assert_eq!(None, queue.pop());
}

#[test]
fn a_node_lists_its_neighbours() {
    let mut node = HnswNode::default();
    assert_eq!(0, node.neighbors().len());
    assert_eq!(MAX_NEIGHBORS, node.capacity());
    for n in 0..MAX_NEIGHBORS as u32 {
        node.add_neighbor(100 + n);
    }
    let copy = node.clone();
    node.replace_neighbor(3, 7);
    assert_eq!(MAX_NEIGHBORS, node.capacity());
    assert_eq!(MAX_NEIGHBORS, node.neighbors().len());
    assert_eq!([100, 101, 102, 7, 104], node.neighbors()[..5]);
    let expected: Vec<u32> = (100..132).collect();
    assert_eq!(expected, copy.neighbors());
}

#[test]
fn a_walk_can_be_taken_in_steps() {
    let elements = points(5);
    let layer = vec![
        node(&[1, 2]),
        node(&[0, 3]),
        node(&[0]),
        node(&[1, 4]),
        node(&[3]),
    ];
    let goal = Point(33);
    let mut search = NeighborSearch::new(0, elements[0].dist(&goal), 3);
    assert_eq!(Some(0), search.next());
    search.expand(layer[0].neighbors(), &elements[..], &goal);
    assert_eq!(Some(2), search.next());
    search.expand(layer[2].neighbors(), &elements[..], &goal);
    assert_eq!(Some(1), search.next());
    search.expand(layer[1].neighbors(), &elements[..], &goal);
    assert_eq!(Some(3), search.next());
    search.expand(layer[3].neighbors(), &elements[..], &goal);
    assert_eq!(Some(4), search.next());
    search.expand(layer[4].neighbors(), &elements[..], &goal);
    assert_eq!(None, search.next());
    assert_eq!(None, search.next());
    let found = search.finish(10);
    assert_eq!(near(&[(3, 3), (4, 7), (2, 13)]), found);
    assert_eq!(found, walk_layer(&layer[..], 0, &elements[..], &goal, 3, 10));
}

#[test]
fn a_finished_walk_stays_finished() {
    let elements = points(4);
    let goal = Point(0);
    let mut search = NeighborSearch::new(0, elements[0].dist(&goal), 2);
    assert_eq!(Some(0), search.next());
    search.expand(&[1, 2, 3], &elements[..], &goal);
    assert_eq!(Some(1), search.next());
    // two candidates are left, and both are too far
    assert_eq!(None, search.next());
    assert_eq!(None, search.next());
    assert_eq!(None, search.next());
    assert_eq!(near(&[(0, 0), (1, 10)]), search.finish(10));
}

#[test]
fn a_walk_ends_while_nodes_are_linked() {
    // every node it goes to has meanwhile been linked to all the others
    let elements = points(20);
    let everything: Vec<u32> = (0..20).collect();
    let goal = Point(77);
    let mut search = NeighborSearch::new(19, elements[19].dist(&goal), 32);
    let mut steps = 0;
    while let Some(idx) = search.next() {
        assert!(idx < 20);
        search.expand(&everything[..], &elements[..], &goal);
        steps += 1;
    }
    assert_eq!(20, steps);
    assert_eq!(near(&[(8, 3), (7, 7), (9, 13)]), search.finish(3));
}

#[test]
fn few_candidates_are_all_selected() {
    let elements = points(4);
    let candidates = near(&[(3, 30), (1, 10)]);
    assert_eq!(
        candidates,
        HnswBuilder::select_neighbors(0, candidates.clone(), &elements[..], 2)
    );
}

#[test]
fn the_first_candidates_are_selected() {
    let elements = points(4);
    assert_eq!(
        near(&[(1, 10), (2, 20)]),
        HnswBuilder::select_neighbors(0, near(&[(1, 10), (2, 20), (3, 30)]), &elements[..], 2)
    );
    assert_eq!(
        near(&[(1, 10)]),
        HnswBuilder::select_neighbors(0, near(&[(1, 10), (2, 20), (3, 30)]), &elements[..], 1)
    );
    assert_eq!(
        0,
        HnswBuilder::select_neighbors(0, near(&[(1, 10)]), &elements[..], 0).len()
    );
}

#[test]
fn repeated_candidates_are_selected_as_often_as_they_are_there() {
    let elements = points(4);
    assert_eq!(
        near(&[(2, 20), (1, 10), (2, 20)]),
        HnswBuilder::select_neighbors(
            0,
            near(&[(2, 20), (1, 10), (2, 20), (3, 30)]),
            &elements[..],
            3
        )
    );
}

#[test]
fn a_candidate_that_claims_to_be_nearer_is_preferred() {
    let elements = points(4);
    assert_eq!(
        near(&[(1, 10), (3, 5)]),
        HnswBuilder::select_neighbors(0, near(&[(1, 10), (2, 20), (3, 5)]), &elements[..], 2)
    );
}

#[test]
fn a_node_is_given_no_more_than_it_can_list() {
    let neighbors: Vec<(usize, Distance)> = (0..40).map(|i| (i + 5, at(1))).collect();
    let mut node = HnswNode::default();
    HnswBuilder::<Point>::initialize_neighbors(&mut node, &neighbors[..]);
    let expected: Vec<u32> = (5..37).collect();
    assert_eq!(expected, node.neighbors());

    let mut node = HnswNode::default();
    HnswBuilder::<Point>::initialize_neighbors(&mut node, &neighbors[..2]);
    assert_eq!([5, 6], node.neighbors());
}

#[test]
fn a_node_with_room_is_connected() {
    let elements = points(40);
    let mut n = node(&[2]);
    HnswBuilder::connect_nodes(&mut n, &elements[..], 0, 1, at(10));
    assert_eq!([2, 1], n.neighbors());
}

#[test]
fn a_full_node_keeps_the_nearest() {
    let elements = points(40);
    let expected: Vec<u32> = (1..33).collect();

    let far: Vec<u32> = (2..34).collect();
    let mut n = node(&far);
    HnswBuilder::connect_nodes(&mut n, &elements[..], 0, 1, at(10));
    assert_eq!(expected, n.neighbors());

    HnswBuilder::connect_nodes(&mut n, &elements[..], 0, 35, at(350));
    assert_eq!(expected, n.neighbors());
}

#[test]
fn a_neighbour_that_comes_first_is_not_looked_at() {
    // there is no element 99
    let elements = points(40);
    let list: Vec<u32> = (1..33).collect();
    let mut n = node(&list);
    HnswBuilder::connect_nodes(&mut n, &elements[..], 0, 99, at(0));
    let mut expected = vec![99];
    expected.extend(1..32);
    assert_eq!(expected, n.neighbors());
}

#[test]
fn of_equally_near_neighbours_the_later_goes() {
    // elements 0 and 38 are both at 190 from element 19
    let elements = points(40);
    let list: Vec<u32> = (0..19).chain(20..33).collect();
    let mut n = node(&list);
    HnswBuilder::connect_nodes(&mut n, &elements[..], 19, 38, at(190));
    assert!(n.neighbors().contains(&0));
    assert!(!n.neighbors().contains(&38));
    assert_eq!(MAX_NEIGHBORS, n.neighbors().len());
    assert_eq!([18, 20, 17, 21], n.neighbors()[..4]);
}

#[test]
fn links_out_of_a_layer_are_told() {
    assert!(are_links_below(&[node(&[1]), node(&[0, 1])]));
    assert!(!are_links_below(&[node(&[1]), node(&[0, 2])]));
    assert!(are_links_below(&[]));
}

#[test]
fn the_order_of_the_machine_is_told() {
    let mut buffer = Vec::new();
    push_word(&mut buffer, 0x0102, ByteOrder::native());
    assert_eq!(0x0102usize.to_ne_bytes().to_vec(), buffer);
}

#[test]
fn words_and_records_have_their_bytes() {
    assert_eq!(size_of::<usize>(), length_of_words(1));
    for order in [ByteOrder::LittleEndian, ByteOrder::BigEndian] {
        let mut buffer = vec![9];
        push_word(&mut buffer, 0x0102, order);
        let mut expected = vec![9];
        if order == ByteOrder::LittleEndian {
            expected.extend(0x0102usize.to_le_bytes());
        } else {
            expected.extend(0x0102usize.to_be_bytes());
        }
        assert_eq!(expected, buffer);
        assert_eq!(0x0102, read_word(&buffer[1..], 0, order));

        let mut buffer = Vec::new();
        push_node(&mut buffer, &node(&[0x0403_0201, 7]), order);
        assert_eq!(NODE_BYTES, buffer.len());
        if order == ByteOrder::LittleEndian {
            assert_eq!([1, 2, 3, 4, 7, 0, 0, 0], buffer[..8]);
        } else {
            assert_eq!([4, 3, 2, 1, 0, 0, 0, 7], buffer[..8]);
        }
        assert!(buffer[8..128].iter().all(|&b| b == 0));
        assert_eq!([2, 0, 0, 0], buffer[128..]);
        assert_eq!([0x0403_0201, 7], read_node(&buffer[..], 0, order).neighbors());
    }
}

#[test]
fn a_stored_index_has_its_bytes() {
    let elements = points(3);
    let config = Config {
        num_levels: 1,
        level_multiplier: 10,
        max_search: 10,
        show_progress: false,
    };
    let mut builder = HnswBuilder::new(config, &elements[..]);
    builder.build_index();
    let mut data = vec![5];
    builder.write(&mut data);
    let mut expected = vec![5];
    for _ in 0..3 {
        expected.extend(1usize.to_ne_bytes());
    }
    expected.resize(expected.len() + 132, 0);
    assert_eq!(expected, data);

    for order in [ByteOrder::LittleEndian, ByteOrder::BigEndian] {
        let data = small_index(order);
        let first = length_of_words(4);
        assert_eq!(first + 4 * 132, data.len());
        assert_eq!(4, read_word(&data[..], 0, order));
        assert_eq!(2, read_word(&data[..], 1, order));
        assert_eq!(1, read_word(&data[..], 2, order));
        assert_eq!(3, read_word(&data[..], 3, order));
        let level = read_level(&data[..], first, 1, 3, order);
        assert_eq!([1, 2], level[0].neighbors());
        assert_eq!([0, 2], level[1].neighbors());
        assert_eq!([1, 0], level[2].neighbors());
    }
}

#[test]
fn an_index_can_be_written_in_parts() {
    let elements = points(3);
    let config = Config {
        num_levels: 2,
        level_multiplier: 10,
        max_search: 10,
        show_progress: false,
    };
    let mut builder = HnswBuilder::new(config, &elements[..]);
    builder.build_index();
    let order = ByteOrder::native();
    let mut header = Vec::new();
    builder.write_header(&mut header, order);
    assert_eq!(length_of_words(4), header.len());
    let mut data = Vec::new();
    builder.write(&mut data);
    assert_eq!(small_index(order), data);
}

#[test]
fn bytes_that_follow_a_stored_index_do_not_matter() {
    let elements = points(3);
    for order in [ByteOrder::LittleEndian, ByteOrder::BigEndian] {
        let mut data = small_index(order);
        data.extend([1, 2, 3]);
        assert!(is_loadable(&data[..], 3, order));
    }
    let mut data = small_index(ByteOrder::native());
    data.extend([1, 2, 3]);
    let index = Hnsw::load(&data[..], &elements[..]);
    assert_eq!(2, index.levels.len());
    assert_eq!([1, 0], index.levels[1].nodes()[2].neighbors());
    assert_eq!((1, at(2)), index.search(&Point(12), 10)[0]);
}

#[test]
fn bytes_of_no_index_are_told() {
    let order = ByteOrder::LittleEndian;
    let good = small_index(order);
    let word = length_of_words(1);
    assert!(is_loadable(&good[..], 3, order));
    assert!(is_loadable(&good[..], 4, order));
    // fewer elements than nodes in the bottom layer
    assert!(!is_loadable(&good[..], 2, order));
    // numbers in the other order
    assert!(!is_loadable(&good[..], 3, ByteOrder::BigEndian));
    // cut off
    assert!(!is_loadable(&good[..good.len() - 1], 3, order));
    assert!(!is_loadable(&good[..4 * word], 3, order));
    assert!(!is_loadable(&good[..2 * word], 3, order));
    assert!(!is_loadable(&[], 3, order));
    let changed = |at: usize, byte: u8| {
        let mut data = good.clone();
        data[at] = byte;
        is_loadable(&data[..], 3, order)
    };
    // more or fewer records than there are
    assert!(!changed(0, 5));
    assert!(!changed(0, 3));
    // no layers, or too many
    assert!(!changed(word, 0));
    assert!(!changed(2 * word - 1, 255));
    // layers of other sizes
    assert!(!changed(2 * word, 2));
    assert!(changed(2 * word, 0));
    assert!(!changed(4 * word - 1, 255));
    // a node with too many neighbours
    assert!(!changed(4 * word + 128, 33));
    assert!(changed(4 * word + 128, 32));
}

#[test]
fn progress_is_reported_in_steps() {
    assert_eq!(10, Progress::new(0).step_size);
    assert_eq!(10, Progress::new(1099).step_size);
    assert_eq!(11, Progress::new(1100).step_size);
    let progress = Progress::new(5000);
    assert_eq!(50, progress.step_size);
    assert_eq!(0, progress.start(49));
    assert_eq!(100, progress.start(123));
    assert!(progress.reports(0));
    assert!(progress.reports(150));
    assert!(!progress.reports(151));
}
