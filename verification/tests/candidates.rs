use vulhunt_engine::candidates::{Edge, find_candidates};

fn call(function: u64, block: u64) -> Edge {
    Edge { is_call: true, is_branch: false, function, block }
}

fn branch(function: u64, block: u64) -> Edge {
    Edge { is_call: false, is_branch: true, function, block }
}

fn found(edges: Vec<Edge>, with_jumps: bool) -> Vec<(u64, Vec<u64>)> {
    find_candidates(&edges, with_jumps)
        .into_iter()
        .map(|candidate| (candidate.function, candidate.blocks))
        .collect()
}

#[test]
fn callers_come_by_their_numbers() {
    assert_eq!(
        found(vec![call(9, 90), call(2, 21), call(9, 91), call(2, 20)], false),
        vec![(2, vec![21, 20]), (9, vec![90, 91])]
    );
}

#[test]
fn branches_count_only_with_jumps() {
    let edges = || vec![branch(4, 40), call(1, 10), branch(1, 11)];
    assert_eq!(found(edges(), false), vec![(1, vec![10])]);
    assert_eq!(found(edges(), true), vec![(1, vec![10, 11]), (4, vec![40])]);
}

#[test]
fn other_edges_do_not_count() {
    let fall = Edge { is_call: false, is_branch: false, function: 3, block: 30 };
    assert!(found(vec![fall], true).is_empty());
    assert!(found(vec![], true).is_empty());
}

#[test]
fn a_block_counts_once_for_each_edge() {
    assert_eq!(found(vec![call(5, 50), call(5, 50)], false), vec![(5, vec![50, 50])]);
}
