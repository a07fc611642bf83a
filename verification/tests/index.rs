//! Building, storing, extending and searching whole indexes.
use hnsw::builder::{Config, HnswBuilder};
use hnsw::distance::{Distance, HasDistance};
use hnsw::index::{Hnsw, Layer};
use hnsw::node::{HnswNode, NeighborType, MAX_NEIGHBORS};
use hnsw::order::is_nearer;
use hnsw::storage::{is_loadable, ByteOrder};
use std::mem;

const DIMENSIONS: usize = 25;

/// A direction in space. Two of them are as far apart as their cosine is from one.
struct FloatElement {
    values: Vec<f32>,
}

impl HasDistance for FloatElement {
    fn dist(&self, other: &Self) -> Distance {
        let dot: f32 = self
            .values
            .iter()
            .zip(other.values.iter())
            .map(|(a, b)| a * b)
            .sum();
        at((1.0f32 - dot).max(0.0).to_bits())
    }
}

/// Elements from a linear congruential generator.
fn random_float_elements(count: usize) -> Vec<FloatElement> {
    let mut state: u64 = 0x2545_F491_4F6C_DD1D;
    let mut next = || {
        state = state
            .wrapping_mul(6364136223846793005)
            .wrapping_add(1442695040888963407);
        ((state >> 40) as f32) / ((1u64 << 24) as f32) - 0.5
    };
    (0..count)
        .map(|_| {
            let values: Vec<f32> = (0..DIMENSIONS).map(|_| next()).collect();
            let norm: f32 = values.iter().map(|v| v * v).sum::<f32>().sqrt();
            FloatElement {
                values: values.into_iter().map(|v| v / norm).collect(),
            }
        })
        .collect()
}

/// Small numbers are ordered as their bits.
fn at(bits: u32) -> Distance {
    Distance { bits }
}

/// Results with the bits of their distances.
fn plain(found: Vec<(usize, Distance)>) -> Vec<(usize, u32)> {
    found.into_iter().map(|(i, d)| (i, d.bits)).collect()
}

/// A point on a line.
struct Point(i32);

impl HasDistance for Point {
    fn dist(&self, other: &Self) -> Distance {
        at((self.0 - other.0).unsigned_abs())
    }
}

fn points(count: i32) -> Vec<Point> {
    (0..count).map(|i| Point(10 * i)).collect()
}

fn config(num_levels: usize, level_multiplier: usize, max_search: usize) -> Config {
    Config {
        num_levels,
        level_multiplier,
        max_search,
        show_progress: false,
    }
}

fn node(neighbors: &[u32]) -> HnswNode {
    let mut node = HnswNode::default();
    for &n in neighbors {
        node.add_neighbor(n);
    }
    node
}

fn lists(nodes: &[HnswNode]) -> Vec<Vec<u32>> {
    nodes.iter().map(|n| n.neighbors().to_vec()).collect()
}

fn all_lists<T: HasDistance + Sync + Send>(builder: &HnswBuilder<T>) -> Vec<Vec<Vec<u32>>> {
    builder.levels.iter().map(|level| lists(level)).collect()
}

fn sizes<T: HasDistance + Sync + Send>(builder: &HnswBuilder<T>) -> Vec<usize> {
    builder.levels.iter().map(|level| level.len()).collect()
}

#[test]
fn test_hnsw_node_size() {
    assert!((MAX_NEIGHBORS) * mem::size_of::<NeighborType>() <= mem::size_of::<HnswNode>());
}

#[test]
fn write_and_load() {
    let elements: Vec<FloatElement> = random_float_elements(100);

    let config = Config {
        num_levels: 4,
        level_multiplier: 6,
        max_search: 100,
        show_progress: false,
    };

    let mut builder = HnswBuilder::new(config, &elements[..]);
    builder.build_index();

    let mut data = Vec::new();
    builder.write(&mut data);

    assert!(is_loadable(&data[..], elements.len(), ByteOrder::native()));
    let index = Hnsw::load(&data[..], &elements[..]);

    assert_eq!(builder.levels.len(), index.levels.len());

    for level in 0..builder.levels.len() {
        assert_eq!(builder.levels[level].len(), index.levels[level].len());

        for i in 0..builder.levels[level].len() {
            assert_eq!(
                builder.levels[level][i].neighbors(),
                index.levels[level].nodes()[i].neighbors()
            );
        }
    }
}

#[test]
fn append_elements() {
    let elements: Vec<FloatElement> = random_float_elements(200);

    let config = Config {
        num_levels: 4,
        level_multiplier: 6,
        max_search: 100,
        show_progress: false,
    };

    // insert half of the elements
    let mut builder = HnswBuilder::new(config, &elements[..100]);
    builder.build_index();

    assert_eq!(4, builder.levels.len());
    assert_eq!(100, builder.levels[3].len());

    let max_search = 200;

    // assert that one arbitrary element is findable
    {
        let index = builder.get_index();

        assert!(index
            .search(&elements[50], max_search)
            .iter()
            .any(|&(idx, _)| 50 == idx));
    }

    // insert rest of the elements
    builder.append_elements(&elements[..]);

    assert_eq!(4, builder.levels.len());
    assert_eq!(200, builder.levels[3].len());

    // assert that the same arbitrary element and a newly added one
    // is findable
    {
        let index = builder.get_index();

        assert!(index
            .search(&elements[50], max_search)
            .iter()
            .any(|&(idx, _)| 50 == idx));

        assert!(index
            .search(&elements[150], max_search)
            .iter()
            .any(|&(idx, _)| 150 == idx));
    }
}

#[test]
fn a_new_builder_has_no_layers() {
    let elements = points(3);
    let builder = HnswBuilder::new(config(4, 6, 100), &elements[..]);
    assert_eq!(0, builder.levels.len());
    assert_eq!(3, builder.elements.len());
    assert_eq!(6, builder.config.level_multiplier);
    assert_eq!(0, builder.get_index().levels.len());
}

#[test]
fn layers_grow_by_the_multiplier() {
    let elements = points(100);
    let mut builder = HnswBuilder::new(config(4, 6, 100), &elements[..]);
    builder.build_index();
    assert_eq!(vec![1, 6, 36, 100], sizes(&builder));

    let mut builder = HnswBuilder::new(config(5, 2, 20), &elements[..10]);
    builder.build_index();
    assert_eq!(vec![1, 2, 4, 8, 10], sizes(&builder));
}

#[test]
fn the_next_layer_has_no_more_nodes_than_elements() {
    let elements = points(100);
    let builder = HnswBuilder::new(config(4, 6, 100), &elements[..]);
    assert_eq!(6, builder.next_level_size(1));
    assert_eq!(96, builder.next_level_size(16));
    assert_eq!(100, builder.next_level_size(17));
    assert_eq!(0, builder.next_level_size(0));
}

#[test]
fn layers_without_growth_stay_at_one_node() {
    let elements = points(5);
    let mut builder = HnswBuilder::new(config(3, 1, 0), &elements[..]);
    builder.build_index();
    let single: Vec<Vec<u32>> = vec![vec![]];
    assert_eq!(vec![single.clone(), single.clone(), single], all_lists(&builder));

    let mut builder = HnswBuilder::new(config(3, 6, 0), &elements[..1]);
    builder.build_index();
    assert_eq!(vec![1, 1, 1], sizes(&builder));

    let mut builder = HnswBuilder::new(config(0, 6, 0), &elements[..]);
    builder.build_index();
    assert_eq!(vec![1], sizes(&builder));
}

#[test]
fn a_small_layer_is_linked_completely() {
    let elements = points(3);
    let mut builder = HnswBuilder::new(config(2, 10, 10), &elements[..]);
    builder.build_index();
    assert_eq!(
        vec![vec![vec![]], vec![vec![1, 2], vec![0, 2], vec![1, 0]]],
        all_lists(&builder)
    );
}

#[test]
fn building_again_adds_layers_below_those_of_single_nodes() {
    let elements = points(3);
    let mut builder = HnswBuilder::new(config(1, 10, 10), &elements[..]);
    builder.build_index();
    builder.config.num_levels = 2;
    builder.build_index();
    assert_eq!(vec![1, 1, 3], sizes(&builder));
}

#[test]
fn built_layers_are_well_linked() {
    let elements = random_float_elements(150);
    let mut builder = HnswBuilder::new(config(3, 10, 60), &elements[..]);
    builder.build_index();
    for level in &builder.levels {
        for (i, node) in level.iter().enumerate() {
            let neighbors = node.neighbors();
            assert!(neighbors.len() <= MAX_NEIGHBORS);
            assert!(level.len() == 1 || neighbors.len() > 0);
            for (k, &n) in neighbors.iter().enumerate() {
                assert!((n as usize) < level.len());
                assert!(n as usize != i);
                assert!(!neighbors[..k].contains(&n));
            }
        }
    }
    assert!(builder.get_index().is_searchable());
}

#[test]
fn layers_stay_as_they_are_when_others_are_built() {
    let elements = random_float_elements(100);
    let mut few = HnswBuilder::new(config(3, 6, 40), &elements[..]);
    few.build_index();
    let mut more = HnswBuilder::new(config(4, 6, 40), &elements[..]);
    more.build_index();
    assert_eq!(all_lists(&few), all_lists(&more)[..3]);
}

/// All elements as a complete search would list them.
fn exactly(elements: &[FloatElement], goal: &FloatElement) -> Vec<(usize, Distance)> {
    let mut all: Vec<(i32, usize)> = elements
        .iter()
        .enumerate()
        .map(|(i, e)| (e.dist(goal).to_order(), i))
        .collect();
    all.sort();
    all.truncate(MAX_NEIGHBORS);
    all.into_iter()
        .map(|(_, i)| (i, elements[i].dist(goal)))
        .collect()
}

#[test]
fn a_small_index_is_searched_exactly() {
    let elements = random_float_elements(60);
    let mut builder = HnswBuilder::new(config(3, 6, 10), &elements[..33]);
    builder.build_index();
    let level = &builder.levels[2];
    assert_eq!(33, level.len());
    for (i, node) in level.iter().enumerate() {
        for &j in node.neighbors() {
            assert!(level[j as usize].neighbors().contains(&(i as u32)));
        }
    }
    let index = builder.get_index();
    for goal in &elements {
        assert_eq!(exactly(&elements[..33], goal), index.search(goal, 33));
    }
}

#[test]
fn lists_do_not_shrink_and_nearest_neighbours_stay_near() {
    let elements = random_float_elements(160);
    let mut builder = HnswBuilder::new(config(3, 8, 50), &elements[..80]);
    builder.build_index();
    // a layer of 64 nodes for 80 elements, which appending extends to all of them
    let before = all_lists(&builder);
    builder.append_elements(&elements[..]);
    let after = all_lists(&builder);
    let nearest = |i: usize, list: &Vec<u32>| {
        list.iter()
            .map(|&n| elements[i].dist(&elements[n as usize]).to_order())
            .min()
            .unwrap()
    };
    for (i, list) in before[2].iter().enumerate() {
        assert!(list.len() <= after[2][i].len());
        assert!(nearest(i, &after[2][i]) <= nearest(i, list));
    }
    assert!(after[2].iter().all(|list| list.len() > 0));
}

#[test]
fn lists_of_a_small_layer_are_only_added_to() {
    let elements = random_float_elements(33);
    let mut builder = HnswBuilder::new(config(2, 20, 10), &elements[..20]);
    builder.build_index();
    let before = all_lists(&builder);
    builder.append_elements(&elements[..]);
    let after = all_lists(&builder);
    for (i, list) in before[1].iter().enumerate() {
        assert!(after[1][i].starts_with(list));
    }
}

#[test]
fn no_link_of_an_entry_point_leads_to_a_nearer_node() {
    let elements = random_float_elements(150);
    let mut builder = HnswBuilder::new(config(3, 12, 60), &elements[..]);
    builder.build_index();
    let index = builder.get_index();
    for goal in &elements {
        let e = Hnsw::find_entrypoint(&index.levels[..2], goal, &elements[..], 1);
        let d = elements[e].dist(goal);
        assert!(!elements[0].dist(goal).is_less(d));
        for &n in builder.levels[1][e].neighbors() {
            assert!(!elements[n as usize].dist(goal).is_less(d));
        }
    }
}

#[test]
fn what_is_left_out_is_no_nearer_than_the_last_result() {
    let elements = random_float_elements(150);
    let mut builder = HnswBuilder::new(config(3, 12, 60), &elements[..]);
    builder.build_index();
    let bottom = &builder.levels[2];
    for goal in elements.iter().step_by(11) {
        let found = Hnsw::search_for_neighbors(&bottom[..], 3, &elements[..], goal, 9, 7);
        assert_eq!(7, found.len());
        for &(i, _) in &found {
            for &n in bottom[i].neighbors() {
                assert!(
                    found.iter().any(|f| f.0 == n as usize)
                        || !elements[n as usize].dist(goal).is_less(found[6].1)
                );
            }
        }
    }
}

#[test]
fn equally_near_elements_stand_by_their_indices() {
    let elements: Vec<Point> = vec![Point(10), Point(0), Point(20), Point(20), Point(0)];
    let mut builder = HnswBuilder::new(config(2, 5, 10), &elements[..]);
    builder.build_index();
    assert_eq!(
        vec![(0, 0), (1, 10), (2, 10), (3, 10), (4, 10)],
        plain(builder.get_index().search(&Point(10), 10))
    );
}

/// A number, which is at minus zero from itself and at zero from all others.
struct Signed(u32);

impl HasDistance for Signed {
    fn dist(&self, other: &Self) -> Distance {
        if self.0 == other.0 {
            at((-0.0f32).to_bits())
        } else {
            at(0.0f32.to_bits())
        }
    }
}

#[test]
fn a_distance_of_minus_zero_is_kept() {
    let elements: Vec<Signed> = (0..3).map(Signed).collect();
    let mut builder = HnswBuilder::new(config(2, 3, 10), &elements[..]);
    builder.build_index();
    assert_eq!(
        vec![(0, 0), (1, 0), (2, 0x8000_0000)],
        plain(builder.get_index().search(&Signed(2), 10))
    );
}

#[test]
fn appending_leaves_the_upper_layers_alone() {
    let elements = random_float_elements(120);
    let mut builder = HnswBuilder::new(config(3, 8, 50), &elements[..80]);
    builder.build_index();
    let before = all_lists(&builder);
    builder.append_elements(&elements[..]);
    let after = all_lists(&builder);
    assert_eq!(before[..2], after[..2]);
    assert_eq!(120, after[2].len());
    assert_eq!(120, builder.elements.len());
    assert!(builder.get_index().is_searchable());
}

#[test]
fn appending_in_parts_is_appending_at_once() {
    let elements = random_float_elements(120);
    let mut once = HnswBuilder::new(config(3, 8, 50), &elements[..60]);
    once.build_index();
    once.append_elements(&elements[..]);

    let mut parts = HnswBuilder::new(config(3, 8, 50), &elements[..60]);
    parts.build_index();
    parts.append_elements(&elements[..61]);
    parts.append_elements(&elements[..61]);
    parts.append_elements(&elements[..100]);
    parts.append_elements(&elements[..]);

    assert_eq!(all_lists(&once), all_lists(&parts));
}

#[test]
fn a_loaded_builder_goes_on_where_the_index_was() {
    let elements = random_float_elements(90);
    let mut builder = HnswBuilder::new(config(3, 8, 50), &elements[..60]);
    builder.build_index();

    let mut data = Vec::new();
    builder.write(&mut data);
    let mut loaded = {
        let index = Hnsw::load(&data[..], &elements[..60]);
        HnswBuilder::load(config(3, 8, 50), &index, &elements[..60])
    };
    assert_eq!(all_lists(&builder), all_lists(&loaded));

    builder.append_elements(&elements[..]);
    loaded.append_elements(&elements[..]);
    assert_eq!(all_lists(&builder), all_lists(&loaded));
}

#[test]
fn results_are_near_and_in_order() {
    let elements = random_float_elements(150);
    let mut builder = HnswBuilder::new(config(3, 10, 60), &elements[..]);
    builder.build_index();
    let index = builder.get_index();
    for goal in elements.iter().step_by(7) {
        let found = index.search(goal, 50);
        assert_eq!(MAX_NEIGHBORS, found.len());
        assert!(!elements[0].dist(goal).is_less(found[0].1));
        for k in 0..found.len() {
            assert_eq!(elements[found[k].0].dist(goal), found[k].1);
            if k > 0 {
                assert!(is_nearer(
                    (found[k - 1].1, found[k - 1].0),
                    (found[k].1, found[k].0)
                ));
            }
            assert!(found[..k].iter().all(|f| f.0 != found[k].0));
        }
        assert!(index.search(goal, 5).len() <= 5);
    }
}

#[test]
fn every_point_of_a_line_is_found() {
    let elements = points(40);
    let mut builder = HnswBuilder::new(config(4, 6, 50), &elements[..]);
    builder.build_index();
    let index = builder.get_index();
    for (i, goal) in elements.iter().enumerate() {
        assert_eq!((i, at(0)), index.search(goal, 100)[0]);
    }
    let found = plain(index.search(&Point(123), 100));
    assert_eq!(vec![(12, 3), (13, 7), (11, 13), (14, 17)], found[..4].to_vec());
}

#[test]
fn a_walk_follows_the_links() {
    let elements = points(6);
    let layer = vec![
        node(&[1]),
        node(&[0, 2]),
        node(&[1, 3]),
        node(&[2, 4]),
        node(&[3]),
        node(&[]),
    ];
    let goal = Point(31);
    let all = vec![(3, 1), (4, 9), (2, 11), (1, 21), (0, 31)];
    let walk = |entrypoint: usize, max_search: usize, max_neighbors: usize| {
        let found = Hnsw::search_for_neighbors(
            &layer[..],
            entrypoint,
            &elements[..],
            &goal,
            max_search,
            max_neighbors,
        );
        let same = HnswBuilder::search_for_neighbors_index(
            &layer[..],
            entrypoint,
            &elements[..],
            &goal,
            max_search,
            max_neighbors,
        );
        assert_eq!(found, same);
        plain(found)
    };
    // node 5 is nearer than node 0 but nothing leads there
    assert_eq!(all, walk(0, 10, 10));
    assert_eq!(vec![(3, 1), (4, 9)], walk(0, 5, 2));
    assert_eq!(vec![(3, 1)], walk(0, 1, 10));
    assert_eq!(vec![(5, 19)], walk(5, 10, 10));
    assert_eq!(0, walk(0, 10, 0).len());
}

#[test]
fn a_walk_of_one_stops_at_a_local_optimum() {
    // the way to node 2 leads through node 1, which is farther than where the walk begins
    let elements = vec![Point(10), Point(30), Point(0)];
    let layer = vec![node(&[1]), node(&[0, 2]), node(&[1])];
    let walk = |max_search: usize| {
        plain(Hnsw::search_for_neighbors(
            &layer[..],
            0,
            &elements[..],
            &Point(0),
            max_search,
            1,
        ))
    };
    assert_eq!(vec![(0, 10)], walk(1));
    assert_eq!(vec![(2, 0)], walk(3));
}

#[test]
fn the_entry_point_is_found_layer_by_layer() {
    let elements = points(4);
    let top = vec![node(&[])];
    let middle = vec![node(&[1]), node(&[0])];
    let bottom = vec![node(&[1]), node(&[0, 2]), node(&[1, 3]), node(&[2])];
    let layers = vec![
        Layer::Borrowed(&top[..]),
        Layer::Borrowed(&middle[..]),
        Layer::Borrowed(&bottom[..]),
    ];
    let goal = Point(28);
    assert_eq!(0, Hnsw::find_entrypoint(&layers[..0], &goal, &elements[..], 50));
    assert_eq!(0, Hnsw::find_entrypoint(&layers[..1], &goal, &elements[..], 50));
    assert_eq!(1, Hnsw::find_entrypoint(&layers[..2], &goal, &elements[..], 50));
    assert_eq!(3, Hnsw::find_entrypoint(&layers[..3], &goal, &elements[..], 50));
    let index = Hnsw {
        levels: layers,
        elements: &elements[..],
    };
    assert!(index.is_searchable());
    assert_eq!(
        vec![(3, 2), (2, 8), (1, 18), (0, 28)],
        plain(index.search(&goal, 100))
    );
    assert_eq!(vec![(3, 2)], plain(index.search(&goal, 1)));
}

#[test]
fn unsearchable_stacks_are_told() {
    let elements = points(2);
    let searchable = |levels: Vec<Vec<HnswNode>>, count: usize| {
        Hnsw {
            levels: levels.into_iter().map(Layer::Owned).collect(),
            elements: &elements[..count],
        }
        .is_searchable()
    };
    assert!(searchable(vec![vec![node(&[])], vec![node(&[1]), node(&[0])]], 2));
    // no layer
    assert!(!searchable(vec![], 2));
    // a layer without nodes
    assert!(!searchable(vec![vec![], vec![node(&[])]], 2));
    // a link out of its layer
    assert!(!searchable(vec![vec![node(&[1])], vec![node(&[1]), node(&[0])]], 2));
    // a layer shorter than the one above it
    assert!(!searchable(vec![vec![node(&[1]), node(&[0])], vec![node(&[])]], 2));
    // more nodes than elements
    assert!(!searchable(vec![vec![node(&[]), node(&[])]], 1));
}

#[test]
fn linking_an_element_changes_its_neighbours() {
    let elements = points(4);
    let top = vec![node(&[])];
    let index = Hnsw {
        levels: vec![Layer::Owned(top)],
        elements: &elements[..],
    };
    let mut layer = vec![node(&[1]), node(&[0]), node(&[]), node(&[])];
    HnswBuilder::insert_element(&config(2, 4, 10), &index, &mut layer, &elements[..], 3);
    assert_eq!(
        vec![vec![1, 3], vec![0, 3], vec![], vec![1, 0]],
        lists(&layer)
    );

    let mut layer = vec![node(&[1]), node(&[0])];
    HnswBuilder::insert_elements(&config(2, 4, 10), &mut layer, &index, &elements[..]);
    assert_eq!(
        vec![
            vec![1, 2, 3],
            vec![0, 2, 3],
            vec![1, 0, 3],
            vec![2, 1, 0],
        ],
        lists(&layer)
    );
    let before = lists(&layer);
    HnswBuilder::insert_elements(&config(2, 4, 0), &mut layer, &index, &elements[..]);
    assert_eq!(before, lists(&layer));
}
