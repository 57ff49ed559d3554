use std::collections::HashSet;

use dotgraph::cluster::{
    accepts, candidates, frontier, grow, grow_step, lowest, resolve, score, Candidate, Pass,
};
use dotgraph::dot::parse;
use dotgraph::graph::DotGraph;

fn set(nodes: &[usize]) -> HashSet<usize> {
    nodes.iter().copied().collect()
}

fn sorted(s: &HashSet<usize>) -> Vec<usize> {
    let mut v: Vec<usize> = s.iter().copied().collect();
    v.sort();
    v
}

fn cand(node: usize, num_deps: usize, num_outputs: usize) -> Candidate {
    Candidate { node, num_deps, num_outputs }
}

/// a = 0, b = 1
fn a_to_b() -> DotGraph {
    parse("digraph { a -> b }").unwrap()
}

/// x = 0, m = 1, n = 2, d = 3, far = 4, other = 5
fn shared_output() -> DotGraph {
    parse("digraph { x -> m; m -> n; n -> d; m -> m; far -> other }").unwrap()
}

#[test]
fn scoring_monotonicity_example() {
    let g = a_to_b();
    assert_eq!(score(&set(&[0]), &g), (1, 0));
    assert_eq!(score(&set(&[0, 1]), &g), (0, 0));
    assert!(accepts((1, 0), &cand(1, 0, 0)));
    let mut cluster = set(&[0]);
    let mut pool = set(&[1]);
    match grow_step(&mut cluster, &mut pool, &g) {
        Pass::Grew(added) => assert_eq!(added, vec![cand(1, 0, 0)]),
        other => panic!("no growth: {:?}", other),
    }
    assert_eq!(sorted(&cluster), vec![0, 1]);
    assert!(pool.is_empty());
}

#[test]
fn score_counts_dependencies_and_shared_outputs() {
    let g = shared_output();
    assert_eq!(score(&HashSet::new(), &g), (0, 0));
    assert_eq!(score(&set(&[1]), &g), (1, 0));
    assert_eq!(score(&set(&[1, 2]), &g), (1, 1));
    assert_eq!(score(&set(&[0, 1, 2]), &g), (1, 0));
    assert_eq!(score(&set(&[2]), &g), (1, 0));
    assert_eq!(score(&set(&[0, 1, 2, 3, 4, 5]), &g), (0, 0));
    assert_eq!(score(&set(&[1, 2, 99]), &g), (1, 1));
}

#[test]
fn parallel_edges_count_one_each() {
    let g = parse("digraph { a -> b; a -> b; a -> c; b -> a }").unwrap();
    assert_eq!(score(&set(&[0]), &g), (3, 0));
    assert_eq!(score(&set(&[1]), &g), (1, 0));
    assert_eq!(score(&set(&[0, 1]), &g), (1, 0));
}

#[test]
fn frontier_is_ascending_and_without_duplicates() {
    let g = shared_output();
    assert_eq!(frontier(&set(&[1]), &g), vec![0, 2]);
    assert_eq!(frontier(&set(&[1, 2]), &g), vec![0, 3]);
    assert_eq!(frontier(&set(&[4]), &g), vec![5]);
    assert_eq!(frontier(&set(&[5]), &g), vec![4]);
    assert_eq!(frontier(&HashSet::new(), &g), Vec::<usize>::new());
    assert_eq!(frontier(&set(&[0, 1, 2, 3]), &g), Vec::<usize>::new());
    let twice = parse("digraph { a -> b; a -> b; b -> a; c -> a }").unwrap();
    assert_eq!(frontier(&set(&[0]), &twice), vec![1, 2]);
}

#[test]
fn candidates_carry_the_score_with_the_node_in_the_cluster() {
    let g = shared_output();
    let mut cluster = set(&[1]);
    assert_eq!(candidates(&mut cluster, &g), vec![cand(0, 1, 0), cand(2, 1, 1)]);
    assert_eq!(sorted(&cluster), vec![1]);
}

#[test]
fn accepts_follows_both_rules() {
    assert!(accepts((2, 1), &cand(0, 1, 2)));
    assert!(accepts((2, 1), &cand(0, 0, 0)));
    assert!(accepts((2, 1), &cand(0, 2, 5)));
    assert!(!accepts((2, 1), &cand(0, 3, 1)));
    assert!(!accepts((2, 1), &cand(0, 1, 3)));
    assert!(!accepts((0, 0), &cand(0, 1, 0)));
    assert!(accepts((0, 0), &cand(0, 0, 1)));
    assert!(accepts((usize::MAX, usize::MAX), &cand(0, usize::MAX, usize::MAX)));
    assert!(!accepts((usize::MAX, 0), &cand(0, usize::MAX - 1, 2)));
}

#[test]
fn lowest_keeps_order_among_the_best() {
    let all = vec![cand(0, 2, 2), cand(1, 1, 1), cand(2, 3, 0), cand(3, 0, 2), cand(4, 2, 0)];
    assert_eq!(lowest(&all), vec![cand(1, 1, 1), cand(3, 0, 2), cand(4, 2, 0)]);
    assert_eq!(lowest(&Vec::new()), Vec::<Candidate>::new());
    assert_eq!(lowest(&vec![cand(9, 5, 5)]), vec![cand(9, 5, 5)]);
}

/// hub = 0, p = 1, q = 2, r = 3, s = 4, lone = 5
fn star() -> DotGraph {
    parse(
        "digraph { hub; p; q; r; s; lone; p -> hub; p -> q; p -> r; s -> hub; s -> q; s -> r }",
    )
    .unwrap()
}

#[test]
fn stall_and_restart() {
    let g = star();
    let mut cluster = set(&[0]);
    let mut pool = set(&[1, 2, 3, 4, 5]);
    assert_eq!(score(&cluster, &g), (0, 0));
    assert_eq!(score(&set(&[0, 1]), &g), (2, 0));
    match grow_step(&mut cluster, &mut pool, &g) {
        Pass::Stalled { lowest, restart } => {
            assert_eq!(lowest, vec![cand(1, 2, 0), cand(4, 2, 0)]);
            assert_eq!(restart, Some(cand(1, 3, 0)));
        }
        other => panic!("growth: {:?}", other),
    }
    assert_eq!(sorted(&cluster), vec![1]);
    assert_eq!(sorted(&pool), vec![2, 3, 4, 5]);
}

#[test]
fn stall_without_a_node_to_restart_from() {
    let g = star();
    let mut cluster = set(&[0]);
    let mut pool = HashSet::new();
    match grow_step(&mut cluster, &mut pool, &g) {
        Pass::Stalled { lowest, restart } => {
            assert_eq!(lowest, vec![cand(1, 2, 0), cand(4, 2, 0)]);
            assert_eq!(restart, None);
        }
        other => panic!("growth: {:?}", other),
    }
    assert_eq!(sorted(&cluster), vec![0]);
    assert!(pool.is_empty());
}

#[test]
fn stall_with_an_empty_frontier() {
    let g = star();
    let mut cluster = set(&[5]);
    let mut pool = set(&[3, 2]);
    match grow_step(&mut cluster, &mut pool, &g) {
        Pass::Stalled { lowest, restart } => {
            assert_eq!(lowest, Vec::<Candidate>::new());
            assert_eq!(restart, Some(cand(2, 0, 0)));
        }
        other => panic!("growth: {:?}", other),
    }
    assert_eq!(sorted(&cluster), vec![2]);
    assert_eq!(sorted(&pool), vec![3]);
}

#[test]
fn candidates_are_judged_against_the_score_before_the_pass() {
    // a = 0, b = 1, c = 2, d = 3: both b and c bring as many dependencies as they
    // take away, so both join in one pass.
    let g = parse("digraph { a -> b; a -> c; b -> d; c -> d }").unwrap();
    let mut cluster = set(&[0]);
    let mut pool = set(&[1, 2, 3]);
    match grow_step(&mut cluster, &mut pool, &g) {
        Pass::Grew(added) => assert_eq!(added, vec![cand(1, 2, 0), cand(2, 2, 0)]),
        other => panic!("no growth: {:?}", other),
    }
    assert_eq!(sorted(&cluster), vec![0, 1, 2]);
    assert_eq!(sorted(&pool), vec![3]);
}

#[test]
fn grow_runs_until_the_first_restart() {
    let g = parse("digraph { a -> b; b -> c; x -> y }").unwrap();
    let trace = grow(&g, &vec![0], 1);
    assert_eq!(trace.start, (1, 0));
    assert_eq!(trace.passes.len(), 3);
    match &trace.passes[0] {
        Pass::Grew(added) => assert_eq!(added, &vec![cand(1, 1, 0)]),
        other => panic!("{:?}", other),
    }
    match &trace.passes[1] {
        Pass::Grew(added) => assert_eq!(added, &vec![cand(2, 0, 0)]),
        other => panic!("{:?}", other),
    }
    match &trace.passes[2] {
        Pass::Stalled { lowest, restart } => {
            assert_eq!(lowest, &Vec::<Candidate>::new());
            assert_eq!(restart, &Some(cand(3, 1, 0)));
        }
        other => panic!("{:?}", other),
    }
}

#[test]
fn grow_for_more_cycles_and_for_none() {
    let g = parse("digraph { a -> b; b -> c; x -> y }").unwrap();
    assert_eq!(grow(&g, &vec![0], 0).passes.len(), 0);
    assert_eq!(grow(&g, &vec![0], 0).start, (1, 0));
    let trace = grow(&g, &vec![0], 5);
    // cycle 1: b, c, stall and restart at x; cycle 2: y, stall with nothing left
    assert_eq!(trace.passes.len(), 5);
    match &trace.passes[3] {
        Pass::Grew(added) => assert_eq!(added, &vec![cand(4, 0, 0)]),
        other => panic!("{:?}", other),
    }
    match &trace.passes[4] {
        Pass::Stalled { lowest, restart } => {
            assert_eq!(lowest, &Vec::<Candidate>::new());
            assert_eq!(restart, &None);
        }
        other => panic!("{:?}", other),
    }
}

#[test]
fn grow_from_several_seeds() {
    let g = star();
    let trace = grow(&g, &vec![1, 4], 1);
    assert_eq!(trace.start, (6, 0));
    match &trace.passes[0] {
        Pass::Grew(added) => {
            assert_eq!(added, &vec![cand(0, 4, 0), cand(2, 4, 0), cand(3, 4, 0)])
        }
        other => panic!("{:?}", other),
    }
    match &trace.passes[1] {
        Pass::Stalled { lowest, restart } => {
            assert_eq!(lowest, &Vec::<Candidate>::new());
            assert_eq!(restart, &Some(cand(5, 0, 0)));
        }
        other => panic!("{:?}", other),
    }
    assert_eq!(trace.passes.len(), 2);
}

#[test]
fn resolve_finds_ids_or_none() {
    let mut g = star();
    assert_eq!(resolve(&mut g, &vec!["s".to_string(), "hub".to_string()]), Some(vec![4, 0]));
    assert_eq!(resolve(&mut g, &vec![]), Some(vec![]));
    assert_eq!(resolve(&mut g, &vec!["hub".to_string(), "nope".to_string()]), None);
}
