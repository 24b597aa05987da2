use std::cell::RefCell;

use reachability::{can_reach, can_reach_exclusive};

#[test]
fn example() {
    assert!(can_reach(
        1,
        |&n| vec![n + 1, n * n].into_iter().filter(|&x| x <= 17).collect(),
        |&n| n == 17
    ));
    assert!(!can_reach(
        2,
        |&n| vec![n * n].into_iter().filter(|&x| x <= 18).collect(),
        |&n| n == 18
    ));
    assert!(can_reach(
        2,
        |&n| vec![n * n].into_iter().filter(|&x| x <= 16).collect(),
        |&n| n == 16
    ));
}

#[test]
fn circular() {
    assert!(can_reach(
        5,
        |&n| vec![n - 1, n + 1]
            .into_iter()
            .filter(|&x| x <= 10 && x >= 0)
            .collect(),
        |&n| n == 10
    ));
}

#[test]
fn self_loop_terminates_without_goal() {
    assert!(!can_reach(0, |&n: &i32| vec![n], |&n| n == 5));
    assert!(!can_reach_exclusive(0, |&n: &i32| vec![n], |&n| n == 5));
}

#[test]
fn accepted_start_is_found_whatever_the_successors() {
    assert!(can_reach(7u32, |_| Vec::new(), |&n| n == 7));
    assert!(can_reach(7u32, |&n| vec![n], |&n| n == 7));
    assert!(can_reach(7u32, |&n| vec![(n + 1) % 10, (n + 9) % 10], |&n| n == 7));
}

#[test]
fn dead_end_start() {
    assert!(!can_reach(1u8, |_| Vec::new(), |&n| n == 2));
    assert!(!can_reach_exclusive(1u8, |_| Vec::new(), |&n| n == 1));
}

#[test]
fn finite_graph_without_goal() {
    // A ring of twelve nodes with chords, none of them accepted.
    let ring = |&n: &u32| vec![(n + 1) % 12, (n * 5) % 12];
    assert!(!can_reach(0u32, ring, |&n| n >= 12));
    assert!(!can_reach_exclusive(0u32, ring, |&n| n >= 12));
}

#[test]
fn bounded_walk_reaches_either_end() {
    let line = |&n: &i32| -> Vec<i32> {
        vec![n - 1, n + 1].into_iter().filter(|&x| (0..=10).contains(&x)).collect()
    };
    assert!(can_reach(5, line, |&n| n == 0));
    assert!(can_reach(5, line, |&n| n == 10));
    assert!(!can_reach(5, line, |&n| n == 11));
    assert!(!can_reach(5, line, |&n| n == -1));
}

#[test]
fn goal_in_an_unreached_part_is_not_found() {
    // Even numbers lead to even numbers only.
    let evens = |&n: &u32| vec![(n + 2) % 20];
    assert!(!can_reach(0u32, evens, |&n| n == 7));
    assert!(can_reach(1u32, evens, |&n| n == 7));
}

#[test]
fn order_of_successors_does_not_change_the_answer() {
    let forward = |&n: &u32| -> Vec<u32> {
        vec![n + 1, n * 2, n * 3].into_iter().filter(|&x| x <= 40).collect()
    };
    let backward = |&n: &u32| -> Vec<u32> {
        vec![n * 3, n * 2, n + 1].into_iter().filter(|&x| x <= 40).collect()
    };
    let rotated = |&n: &u32| -> Vec<u32> {
        vec![n * 2, n * 3, n + 1].into_iter().filter(|&x| x <= 40).collect()
    };
    for goal in 0u32..=45 {
        let expected = (1..=40).contains(&goal);
        assert_eq!(can_reach(1u32, forward, |&n| n == goal), expected);
        assert_eq!(can_reach(1u32, backward, |&n| n == goal), expected);
        assert_eq!(can_reach(1u32, rotated, |&n| n == goal), expected);
    }
    let doubling = |&n: &u32| -> Vec<u32> {
        vec![n * 2, n * 3].into_iter().filter(|&x| x <= 40).collect()
    };
    let tripling = |&n: &u32| -> Vec<u32> {
        vec![n * 3, n * 2].into_iter().filter(|&x| x <= 40).collect()
    };
    for goal in 0u32..=45 {
        assert_eq!(
            can_reach(1u32, doubling, |&n| n == goal),
            can_reach(1u32, tripling, |&n| n == goal)
        );
    }
    assert!(can_reach(1u32, doubling, |&n| n == 36));
    assert!(!can_reach(1u32, tripling, |&n| n == 10));
}

#[test]
fn repeated_search_gives_the_same_answer() {
    let succ = |&n: &i64| -> Vec<i64> {
        vec![n + 3, n - 2].into_iter().filter(|&x| (0..=30).contains(&x)).collect()
    };
    for goal in -1i64..=31 {
        let once = can_reach(4i64, succ, |&n| n == goal);
        let again = can_reach(4i64, succ, |&n| n == goal);
        assert_eq!(once, again);
        assert_eq!(once, (0..=30).contains(&goal));
    }
}

#[test]
fn exclusive_search_does_not_test_the_start_itself() {
    // 3 -> 4 -> 5, no way back: the start is accepted but nothing beyond it.
    let chain = |&n: &u8| if n < 5 { vec![n + 1] } else { Vec::new() };
    assert!(can_reach(3u8, chain, |&n| n == 3));
    assert!(!can_reach_exclusive(3u8, chain, |&n| n == 3));
    assert!(can_reach_exclusive(3u8, chain, |&n| n == 5));
    assert!(can_reach_exclusive(3u8, chain, |&n| n == 4));
    assert!(!can_reach_exclusive(3u8, chain, |&n| n == 2));
}

#[test]
fn exclusive_search_finds_the_start_again_on_a_cycle() {
    let ring = |&n: &u8| vec![(n + 1) % 4];
    assert!(can_reach_exclusive(2u8, ring, |&n| n == 2));
    let two_cycle = |&n: &u8| vec![1 - n];
    assert!(can_reach_exclusive(0u8, two_cycle, |&n| n == 0));
    let own_loop = |&n: &u8| vec![n];
    assert!(can_reach_exclusive(9u8, own_loop, |&n| n == 9));
}

#[test]
fn each_node_is_expanded_once_and_in_order() {
    let expanded: RefCell<Vec<u32>> = RefCell::new(Vec::new());
    let succ = |&n: &u32| -> Vec<u32> {
        expanded.borrow_mut().push(n);
        match n {
            0 => vec![1, 2],
            1 => vec![3, 0],
            2 => vec![3, 1],
            3 => vec![1, 3],
            _ => Vec::new(),
        }
    };
    assert!(!can_reach(0u32, succ, |&n| n == 9));
    assert_eq!(*expanded.borrow(), vec![0, 1, 3, 2]);
}

#[test]
fn search_stops_at_the_first_accepted_successor() {
    let expanded: RefCell<Vec<u32>> = RefCell::new(Vec::new());
    let tested: RefCell<Vec<u32>> = RefCell::new(Vec::new());
    let succ = |&n: &u32| -> Vec<u32> {
        expanded.borrow_mut().push(n);
        match n {
            0 => vec![1, 2],
            1 => vec![4, 5, 6],
            2 => vec![5],
            4 => vec![0],
            _ => Vec::new(),
        }
    };
    let goal = |&n: &u32| {
        tested.borrow_mut().push(n);
        n == 5
    };
    assert!(can_reach(0u32, succ, goal));
    assert_eq!(*expanded.borrow(), vec![0, 1, 4]);
    assert_eq!(*tested.borrow(), vec![0, 1, 4, 0, 5]);
}

#[test]
fn accepted_successor_is_found_though_already_entered() {
    // The goal test comes before the test for an earlier visit.
    let tested: RefCell<Vec<u8>> = RefCell::new(Vec::new());
    let goal = |&n: &u8| {
        tested.borrow_mut().push(n);
        n == 0
    };
    assert!(can_reach_exclusive(0u8, |&n: &u8| vec![1 - n], goal));
    assert_eq!(*tested.borrow(), vec![1, 0]);
}

#[test]
fn nodes_may_be_pairs() {
    // A knight on a five by five board reaches every square.
    let moves = |&(r, c): &(i8, i8)| -> Vec<(i8, i8)> {
        vec![(1, 2), (2, 1), (-1, 2), (-2, 1), (1, -2), (2, -1), (-1, -2), (-2, -1)]
            .into_iter()
            .map(|(dr, dc)| (r + dr, c + dc))
            .filter(|&(r, c)| (0..5).contains(&r) && (0..5).contains(&c))
            .collect()
    };
    assert!(can_reach((0i8, 0i8), moves, |&p| p == (4, 4)));
    assert!(can_reach((0i8, 0i8), moves, |&p| p == (2, 2)));
    assert!(!can_reach((0i8, 0i8), moves, |&p| p == (5, 5)));
}

#[test]
fn nodes_may_be_strings() {
    let grow = |s: &String| -> Vec<String> {
        if s.len() < 3 {
            vec![format!("{}a", s), format!("{}b", s)]
        } else {
            Vec::new()
        }
    };
    assert!(can_reach(String::new(), grow, |s| s == "bab"));
    assert!(!can_reach(String::new(), grow, |s| s == "abab"));
    assert!(!can_reach_exclusive(String::new(), grow, |s| s.is_empty()));
}

#[test]
fn squares_and_increments_reach_seventeen() {
    assert!(can_reach(
        1,
        |&n: &i32| vec![n + 1, n * n].into_iter().filter(|&x| x <= 17).collect(),
        |&n| n == 17
    ));
}

#[test]
fn squares_from_two_miss_eighteen() {
    assert!(!can_reach(
        2,
        |&n: &i32| vec![n * n].into_iter().filter(|&x| x <= 18).collect(),
        |&n| n == 18
    ));
}

#[test]
fn squares_from_two_reach_sixteen() {
    assert!(can_reach(
        2,
        |&n: &i32| vec![n * n].into_iter().filter(|&x| x <= 16).collect(),
        |&n| n == 16
    ));
}
