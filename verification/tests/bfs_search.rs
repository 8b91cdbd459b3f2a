use pathfinding::directed::bfs::{
    bfs, bfs_bidirectional, bfs_bidirectional_with_hasher, bfs_loop, bfs_loop_with_hasher, bfs_reach,
    bfs_reach_with_hasher, bfs_with_hasher,
};
use pathfinding::registry::Registry;
use rustc_hash::FxHasher;
use std::hash::BuildHasherDefault;

const SHIFT: i64 = 1 << 20;

fn square(x: i64, y: i64) -> u64 {
    (((x + SHIFT) as u64) << 32) | ((y + SHIFT) as u64)
}

fn knight(k: &u64) -> Vec<u64> {
    let (x, y) = ((*k >> 32) as i64 - SHIFT, (*k & 0xffff_ffff) as i64 - SHIFT);
    vec![
        square(x + 1, y + 2),
        square(x + 1, y - 2),
        square(x - 1, y + 2),
        square(x - 1, y - 2),
        square(x + 2, y + 1),
        square(x + 2, y - 1),
        square(x - 2, y + 1),
        square(x - 2, y - 1),
    ]
}

/// 1 -> 2 -> 3 -> 4, 1 -> 5 -> 4, 6 on its own
fn dag(n: &u64) -> Vec<u64> {
    match *n {
        1 => vec![2, 5],
        2 => vec![3],
        3 => vec![4],
        5 => vec![4],
        _ => vec![],
    }
}

/// An undirected line 1 - 2 - 3 - 4 - 5 with a spur 3 - 9.
fn line(n: &u64) -> Vec<u64> {
    match *n {
        1 => vec![2],
        2 => vec![1, 3],
        3 => vec![2, 4, 9],
        4 => vec![3, 5],
        5 => vec![4],
        9 => vec![3],
        _ => vec![],
    }
}

fn hasher() -> BuildHasherDefault<FxHasher> {
    BuildHasherDefault::<FxHasher>::default()
}

#[test]
fn bfs_knight_from_1_1_to_4_6() {
    let found = bfs(&[square(1, 1)], knight, |k| *k == square(4, 6));
    let path = found.expect("no path found");
    assert_eq!(path.len(), 5);
    assert_eq!(path[0], square(1, 1));
    assert_eq!(path[4], square(4, 6));
    for pair in path.windows(2) {
        assert!(knight(&pair[0]).contains(&pair[1]));
    }
}

#[test]
fn bfs_takes_the_fewest_steps() {
    assert_eq!(bfs(&[1], dag, |n| *n == 4), Some(vec![1, 5, 4]));
}

#[test]
fn bfs_start_is_goal() {
    assert_eq!(bfs(&[1], dag, |n| *n == 1), Some(vec![1]));
}

#[test]
fn bfs_no_path() {
    assert_eq!(bfs(&[1], dag, |n| *n == 6), None);
    assert_eq!(bfs(&[], dag, |n| *n == 1), None);
}

#[test]
fn bfs_from_several_starts() {
    assert_eq!(bfs(&[1, 3], dag, |n| *n == 4), Some(vec![3, 4]));
    assert_eq!(bfs(&[1, 3, 1], dag, |n| *n == 3), Some(vec![3]));
}

#[test]
fn bfs_tests_a_successor_when_it_is_discovered() {
    let mut expanded = Vec::new();
    let found = bfs(
        &[1],
        |n| {
            expanded.push(*n);
            dag(n)
        },
        |n| *n == 5,
    );
    assert_eq!(found, Some(vec![1, 5]));
    assert_eq!(expanded, vec![1]);
}

#[test]
fn bfs_with_hasher_agrees_with_bfs() {
    assert_eq!(bfs_with_hasher(&[1], dag, |n| *n == 4, hasher()), bfs(&[1], dag, |n| *n == 4));
}

#[test]
fn bfs_loop_self_loop() {
    let graph = |n: &u64| match *n {
        1 => vec![2, 1],
        2 => vec![1],
        _ => vec![],
    };
    assert_eq!(bfs_loop(&[1], graph), Some(vec![1, 1]));
}

#[test]
fn bfs_loop_on_an_acyclic_graph() {
    assert_eq!(bfs_loop(&[1], dag), None);
    assert_eq!(bfs_loop_with_hasher(&[1], dag, hasher()), None);
}

#[test]
fn bfs_loop_shortest_way_back() {
    let ring = |n: &u64| match *n {
        1 => vec![2, 7],
        2 => vec![3],
        3 => vec![1],
        7 => vec![8],
        8 => vec![9],
        9 => vec![1],
        _ => vec![],
    };
    assert_eq!(bfs_loop(&[1], ring), Some(vec![1, 2, 3, 1]));
}

#[test]
fn bfs_loop_between_two_starts() {
    assert_eq!(bfs_loop(&[1, 4], dag), Some(vec![1, 5, 4]));
}

#[test]
fn bfs_bidirectional_knight_from_1_1_to_4_6() {
    let found = bfs_bidirectional(&[square(1, 1)], &[square(4, 6)], knight, knight);
    let path = found.expect("no path found");
    assert_eq!(path.len(), 5);
    assert_eq!(path[0], square(1, 1));
    assert_eq!(path[4], square(4, 6));
    for pair in path.windows(2) {
        assert!(knight(&pair[0]).contains(&pair[1]));
    }
}

#[test]
fn bfs_bidirectional_agrees_with_bfs_on_an_undirected_graph() {
    for start in [1u64, 2, 3, 4, 5, 9] {
        for end in [1u64, 2, 3, 4, 5, 9] {
            if start == end {
                continue;
            }
            let two_way = bfs_bidirectional(&[start], &[end], line, line).expect("no path found");
            let one_way = bfs(&[start], line, |n| *n == end).expect("no path found");
            assert_eq!(two_way.len(), one_way.len());
            assert_eq!(two_way[0], start);
            assert_eq!(*two_way.last().unwrap(), end);
        }
    }
}

#[test]
fn bfs_bidirectional_on_a_directed_graph() {
    let back = |n: &u64| match *n {
        2 => vec![1],
        3 => vec![2],
        4 => vec![3, 5],
        5 => vec![1],
        _ => vec![],
    };
    assert_eq!(bfs_bidirectional(&[1], &[4], dag, back), Some(vec![1, 5, 4]));
    assert_eq!(bfs_bidirectional(&[1], &[3], dag, back), Some(vec![1, 2, 3]));
    assert_eq!(bfs_bidirectional(&[4], &[1], dag, back), None);
}

#[test]
fn bfs_bidirectional_no_path() {
    assert_eq!(bfs_bidirectional(&[1], &[77], line, line), None);
    assert_eq!(bfs_bidirectional_with_hasher(&[1], &[77], line, line, hasher()), None);
}

#[test]
fn bfs_bidirectional_start_among_the_ends() {
    // A node that is both a start node and an end node is not tested before
    // the first step: the two sides meet one step away from it.
    assert_eq!(bfs_bidirectional(&[1], &[1], line, line), Some(vec![1, 2, 1]));
    assert_eq!(bfs_bidirectional(&[6], &[6], dag, dag), None);
    // A step from such a node to itself is where the sides meet at once.
    assert_eq!(bfs_bidirectional(&[1], &[1], |_| vec![1], |_| vec![1]), Some(vec![1]));
}

#[test]
fn bfs_bidirectional_is_shortest_among_paths_with_a_step() {
    // 3 is a start node and an end node; the shortest path with a step
    // leads from 3 to the end node 5.
    let found = bfs_bidirectional(&[1, 3], &[3, 5], line, line).expect("no path found");
    assert_eq!(found.len(), 3);
    assert!(found[0] == 1 || found[0] == 3);
    assert!(*found.last().unwrap() == 3 || *found.last().unwrap() == 5);
    for pair in found.windows(2) {
        assert!(line(&pair[0]).contains(&pair[1]));
    }
}

#[test]
fn bfs_reach_ends_when_nothing_is_new() {
    let mut reach = bfs_reach(3, |_| vec![1, 2, 3, 4, 5]);
    let mut all = Vec::new();
    while let Some(n) = reach.next() {
        all.push(n);
    }
    assert_eq!(all, vec![3, 1, 2, 4, 5]);
    assert_eq!(reach.next(), None);
    assert_eq!(reach.next(), None);
}

#[test]
fn bfs_reach_as_a_generator() {
    let mut reach = bfs_reach(1, |n| vec![n * 2, n * 3]);
    assert_eq!(reach.next(), Some(1));
    assert_eq!(reach.next(), Some(2));
    assert_eq!(reach.next(), Some(3));
    assert_eq!(reach.next(), Some(4));
    assert_eq!(reach.next(), Some(6));
    assert_eq!(reach.next(), Some(9));
    assert_eq!(reach.next(), Some(8));
    assert_eq!(reach.next(), Some(12));
}

#[test]
fn bfs_reach_remaining_nodes_low_bound() {
    let mut reach = bfs_reach(1, dag);
    assert_eq!(reach.remaining_nodes_low_bound(), 1);
    assert_eq!(reach.next(), Some(1));
    assert_eq!(reach.remaining_nodes_low_bound(), 2);
    assert_eq!(reach.next(), Some(2));
    assert_eq!(reach.remaining_nodes_low_bound(), 2);
    assert_eq!(reach.next(), Some(5));
    assert_eq!(reach.next(), Some(3));
    assert_eq!(reach.next(), Some(4));
    assert_eq!(reach.remaining_nodes_low_bound(), 0);
    assert_eq!(reach.next(), None);
    assert_eq!(reach.remaining_nodes_low_bound(), 0);
}

#[test]
fn bfs_reach_visits_what_bfs_visits_each_once() {
    let mut from_reach = Vec::new();
    let mut reach = bfs_reach_with_hasher(1, line, hasher());
    while let Some(n) = reach.next() {
        from_reach.push(n);
    }
    let mut from_bfs = vec![1u64];
    let found = bfs(
        &[1],
        |n| {
            let out = line(n);
            for m in &out {
                if !from_bfs.contains(m) {
                    from_bfs.push(*m);
                }
            }
            out
        },
        |_| false,
    );
    assert_eq!(found, None);
    assert_eq!(from_reach, vec![1, 2, 3, 4, 9, 5]);
    assert_eq!(from_reach, from_bfs);
}

#[test]
fn bfs_reach_order_is_by_distance() {
    let mut reach = bfs_reach(3, line);
    let mut order = Vec::new();
    while let Some(n) = reach.next() {
        order.push(n);
    }
    let distance = |n: u64| bfs(&[3], line, |m| *m == n).unwrap().len();
    for pair in order.windows(2) {
        assert!(distance(pair[0]) <= distance(pair[1]));
    }
}

#[test]
fn registry_keeps_the_order_of_insertion() {
    let mut registry: Registry<u32> = Registry::with_hasher(hasher());
    assert_eq!(registry.len(), 0);
    assert_eq!(registry.get_index(0), None);
    assert_eq!(registry.insert_full(40, 1), (0, None));
    assert_eq!(registry.insert_full(10, 2), (1, None));
    assert_eq!(registry.insert_full(30, 3), (2, None));
    assert_eq!(registry.insert_full(10, 7), (1, Some(2)));
    assert_eq!(registry.len(), 3);
    assert_eq!(registry.get_index(0), Some((40, &1)));
    assert_eq!(registry.get_index(1), Some((10, &7)));
    assert_eq!(registry.get_index(2), Some((30, &3)));
    assert_eq!(registry.get_index(3), None);
    assert_eq!(registry.get_index_of(30), Some(2));
    assert_eq!(registry.get_index_of(40), Some(0));
    assert_eq!(registry.get_index_of(99), None);
    registry.set(0, 5);
    *registry.value_mut(2) += 10;
    assert_eq!(registry.get_index(0), Some((40, &5)));
    assert_eq!(registry.get_index(2), Some((30, &13)));
}
