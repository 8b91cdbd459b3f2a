use pathfinding::directed::astar::{astar, astar_bag, astar_bag_collect, astar_with_hasher};
use pathfinding::frontier::{Frontier, SmallestCostHolder};
use rustc_hash::FxHasher;
use std::cmp::Ordering;
use std::hash::BuildHasherDefault;

const OFFSET: i64 = 1 << 20;

fn key(x: i64, y: i64) -> u64 {
    (((x + OFFSET) as u64) << 32) | ((y + OFFSET) as u64)
}

fn place(k: u64) -> (i64, i64) {
    ((k >> 32) as i64 - OFFSET, (k & 0xffff_ffff) as i64 - OFFSET)
}

fn knight_moves(k: &u64) -> Vec<(u64, u64)> {
    let (x, y) = place(*k);
    vec![
        (key(x + 1, y + 2), 1),
        (key(x + 1, y - 2), 1),
        (key(x - 1, y + 2), 1),
        (key(x - 1, y - 2), 1),
        (key(x + 2, y + 1), 1),
        (key(x + 2, y - 1), 1),
        (key(x - 2, y + 1), 1),
        (key(x - 2, y - 1), 1),
    ]
}

fn third_of_manhattan(k: &u64, goal: (i64, i64)) -> u64 {
    let (x, y) = place(*k);
    (((goal.0 - x).abs() + (goal.1 - y).abs()) / 3) as u64
}

/// 1 -> 2 (1), 1 -> 3 (4), 2 -> 3 (2), 3 -> 4 (1), 2 -> 4 (5)
fn small_graph(n: &u64) -> Vec<(u64, u64)> {
    match *n {
        1 => vec![(2, 1), (3, 4)],
        2 => vec![(3, 2), (4, 5)],
        3 => vec![(4, 1)],
        _ => vec![],
    }
}

/// Two routes of cost 2 from 1 to 4, and a dearer one.
fn diamond(n: &u64) -> Vec<(u64, u64)> {
    match *n {
        1 => vec![(2, 1), (3, 1), (5, 1)],
        2 => vec![(4, 1)],
        3 => vec![(4, 1)],
        5 => vec![(4, 2)],
        _ => vec![],
    }
}

fn steps_cost(graph: fn(&u64) -> Vec<(u64, u64)>, path: &[u64]) -> u64 {
    let mut sum = 0u64;
    for pair in path.windows(2) {
        let step = graph(&pair[0])
            .into_iter()
            .filter(|(n, _)| *n == pair[1])
            .map(|(_, c)| c)
            .min()
            .expect("the path takes a step that the graph does not have");
        sum = sum.saturating_add(step);
    }
    sum
}

#[test]
fn astar_knight_from_1_1_to_4_6() {
    let goal = (4, 6);
    let found = astar(
        &key(1, 1),
        knight_moves,
        |k| third_of_manhattan(k, goal),
        |k| *k == key(4, 6),
    );
    let (path, cost) = found.expect("no path found");
    assert_eq!(cost, 4);
    assert_eq!(path.len(), 5);
    assert_eq!(path[0], key(1, 1));
    assert_eq!(path[4], key(4, 6));
    assert_eq!(steps_cost(knight_moves, &path), 4);
    let hops = pathfinding::directed::bfs::bfs(
        &[key(1, 1)],
        |k| knight_moves(k).into_iter().map(|(n, _)| n).collect(),
        |k| *k == key(4, 6),
    )
    .expect("no path found");
    assert_eq!(hops.len(), path.len());
}

#[test]
fn astar_takes_the_cheapest_route() {
    let found = astar(&1, small_graph, |_| 0, |n| *n == 4);
    assert_eq!(found, Some((vec![1, 2, 3, 4], 4)));
}

#[test]
fn astar_cost_is_the_sum_of_the_steps() {
    let (path, cost) = astar(&1, small_graph, |_| 0, |n| *n == 4).unwrap();
    assert_eq!(steps_cost(small_graph, &path), cost);
}

#[test]
fn astar_cost_is_the_minimum_over_all_routes() {
    // every route from 1 to 4: 1-2-3-4 (4), 1-3-4 (5), 1-2-4 (6)
    let (_, cost) = astar(&1, small_graph, |_| 0, |n| *n == 4).unwrap();
    assert_eq!(cost, 4);
    assert!(cost <= 5 && cost <= 6);
}

#[test]
fn astar_with_an_admissible_heuristic_finds_the_same_cost() {
    let remaining = |n: &u64| match *n {
        1 => 4,
        2 => 3,
        3 => 1,
        _ => 0,
    };
    let found = astar(&1, small_graph, remaining, |n| *n == 4);
    assert_eq!(found, Some((vec![1, 2, 3, 4], 4)));
}

#[test]
fn astar_start_is_goal() {
    let found = astar(&7, small_graph, |_| 0, |n| *n == 7);
    assert_eq!(found, Some((vec![7], 0)));
}

#[test]
fn astar_no_path() {
    let found = astar(&1, small_graph, |_| 0, |n| *n == 99);
    assert_eq!(found, None);
}

#[test]
fn astar_replaces_a_dearer_route_found_first() {
    // 1 -> 3 is listed at 10 first and then reached through 2 at 2.
    let graph = |n: &u64| match *n {
        1 => vec![(3, 10), (2, 1)],
        2 => vec![(3, 1)],
        3 => vec![(4, 1)],
        _ => vec![],
    };
    let found = astar(&1, graph, |_| 0, |n| *n == 4);
    assert_eq!(found, Some((vec![1, 2, 3, 4], 3)));
}

#[test]
fn astar_cost_saturates() {
    let graph = |n: &u64| match *n {
        1 => vec![(2, u64::MAX - 1)],
        2 => vec![(3, 5)],
        _ => vec![],
    };
    let found = astar(&1, graph, |_| 0, |n| *n == 3);
    assert_eq!(found, Some((vec![1, 2, 3], u64::MAX)));
}

#[test]
fn astar_with_hasher_agrees_with_astar() {
    let hasher = BuildHasherDefault::<FxHasher>::default();
    let found = astar_with_hasher(&1, small_graph, |_| 0, |n| *n == 4, hasher);
    assert_eq!(found, astar(&1, small_graph, |_| 0, |n| *n == 4));
}

#[test]
fn astar_asks_the_goal_before_it_expands() {
    let mut expanded = Vec::new();
    let found = astar(
        &1,
        |n| {
            expanded.push(*n);
            small_graph(n)
        },
        |_| 0,
        |n| *n == 1,
    );
    assert_eq!(found, Some((vec![1], 0)));
    assert!(expanded.is_empty());
}

#[test]
fn astar_bag_gives_every_cheapest_path_once() {
    let (mut solutions, cost) = astar_bag(&1, diamond, |_| 0, |n| *n == 4).expect("no path found");
    assert_eq!(cost, 2);
    let mut paths = Vec::new();
    while let Some(path) = solutions.next() {
        paths.push(path);
    }
    paths.sort();
    assert_eq!(paths, vec![vec![1, 2, 4], vec![1, 3, 4]]);
}

#[test]
fn astar_bag_paths_cost_what_is_returned() {
    let (paths, cost) = astar_bag_collect(&1, diamond, |_| 0, |n| *n == 4).unwrap();
    for path in &paths {
        assert_eq!(steps_cost(diamond, path), cost);
        assert_eq!(path[0], 1);
        assert_eq!(*path.last().unwrap(), 4);
    }
}

#[test]
fn astar_bag_stays_ended() {
    let (mut solutions, _) = astar_bag(&1, diamond, |_| 0, |n| *n == 4).unwrap();
    assert!(solutions.next().is_some());
    assert!(solutions.next().is_some());
    assert_eq!(solutions.next(), None);
    assert_eq!(solutions.next(), None);
    assert_eq!(solutions.next(), None);
}

#[test]
fn astar_bag_succeeds_where_astar_does() {
    let one = astar(&1, small_graph, |_| 0, |n| *n == 4).unwrap();
    let (mut solutions, cost) = astar_bag(&1, small_graph, |_| 0, |n| *n == 4).unwrap();
    assert_eq!(cost, one.1);
    assert_eq!(solutions.next(), Some(one.0));
    assert_eq!(solutions.next(), None);
}

#[test]
fn astar_bag_no_path() {
    assert!(astar_bag(&1, diamond, |_| 0, |n| *n == 99).is_none());
    assert_eq!(astar_bag_collect(&1, diamond, |_| 0, |n| *n == 99), None);
}

#[test]
fn astar_bag_start_is_goal() {
    let found = astar_bag_collect(&1, diamond, |_| 0, |n| *n == 1);
    assert_eq!(found, Some((vec![vec![1]], 0)));
}

#[test]
fn astar_bag_several_goals() {
    // 2 and 3 are both goals at cost 1; 4 is a goal at cost 2 and is left out.
    let (mut paths, cost) = astar_bag_collect(&1, diamond, |_| 0, |n| *n == 2 || *n == 3 || *n == 4).unwrap();
    paths.sort();
    assert_eq!(cost, 1);
    assert_eq!(paths, vec![vec![1, 2], vec![1, 3]]);
}

#[test]
fn astar_bag_knight_paths_are_distinct_and_cheapest() {
    let goal = (4, 6);
    let (paths, cost) = astar_bag_collect(
        &key(1, 1),
        knight_moves,
        |k| third_of_manhattan(k, goal),
        |k| *k == key(4, 6),
    )
    .unwrap();
    assert_eq!(cost, 4);
    assert!(!paths.is_empty());
    for (i, path) in paths.iter().enumerate() {
        assert_eq!(path.len(), 5);
        assert_eq!(steps_cost(knight_moves, path), 4);
        for other in &paths[i + 1..] {
            assert_ne!(path, other);
        }
    }
}

#[test]
fn astar_bag_grid_counts_the_cheapest_paths() {
    // On a 3 x 3 grid with steps right and down there are 6 cheapest paths
    // from one corner to the other.
    let grid = |n: &u64| {
        let (x, y) = (*n / 3, *n % 3);
        let mut out = Vec::new();
        if x < 2 {
            out.push((n + 3, 1));
        }
        if y < 2 {
            out.push((n + 1, 1));
        }
        out
    };
    let (paths, cost) = astar_bag_collect(&0, grid, |_| 0, |n| *n == 8).unwrap();
    assert_eq!(cost, 4);
    assert_eq!(paths.len(), 6);
    let mut sorted = paths.clone();
    sorted.sort();
    sorted.dedup();
    assert_eq!(sorted.len(), 6);
}

#[test]
fn astar_bag_with_steps_that_cost_nothing() {
    // 1 -> 2 costs nothing and 2 -> 4 costs 1; 1 -> 3 costs 1 and 3 -> 4
    // costs nothing; 1 -> 4 costs 2.
    let graph = |n: &u64| match *n {
        1 => vec![(2, 0), (3, 1), (4, 2)],
        2 => vec![(4, 1)],
        3 => vec![(4, 0)],
        _ => vec![],
    };
    let (mut paths, cost) = astar_bag_collect(&1, graph, |_| 0, |n| *n == 4).unwrap();
    paths.sort();
    assert_eq!(cost, 1);
    assert_eq!(paths, vec![vec![1, 2, 4], vec![1, 3, 4]]);
    assert_eq!(astar(&1, graph, |_| 0, |n| *n == 4).unwrap().1, 1);
}

#[test]
fn smallest_cost_holder_order() {
    let a = SmallestCostHolder { estimated_cost: 3, cost: 1, index: 0 };
    let b = SmallestCostHolder { estimated_cost: 5, cost: 4, index: 1 };
    let c = SmallestCostHolder { estimated_cost: 3, cost: 2, index: 2 };
    let d = SmallestCostHolder { estimated_cost: 3, cost: 2, index: 9 };
    assert_eq!(a.cmp(&b), Ordering::Greater);
    assert_eq!(b.cmp(&a), Ordering::Less);
    assert_eq!(c.cmp(&a), Ordering::Greater);
    assert_eq!(a.cmp(&c), Ordering::Less);
    assert_eq!(c.cmp(&d), Ordering::Equal);
}

#[test]
fn frontier_gives_the_smallest_estimate_first() {
    let mut frontier = Frontier::new();
    assert_eq!(frontier.len(), 0);
    assert!(frontier.pop().is_none());
    let entries = [(7u64, 1u64), (3, 1), (9, 2), (3, 2), (5, 5), (1, 0), (8, 8), (3, 0)];
    for (i, (estimated_cost, cost)) in entries.iter().enumerate() {
        frontier.push(SmallestCostHolder { estimated_cost: *estimated_cost, cost: *cost, index: i });
    }
    assert_eq!(frontier.len(), 8);
    let mut out = Vec::new();
    while let Some(entry) = frontier.pop() {
        out.push((entry.estimated_cost, entry.cost));
    }
    assert_eq!(out, vec![(1, 0), (3, 2), (3, 1), (3, 0), (5, 5), (7, 1), (8, 8), (9, 2)]);
    assert_eq!(frontier.len(), 0);
}
