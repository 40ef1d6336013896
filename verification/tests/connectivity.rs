use wuf::Graph;

/// Counts the sets of the graph: the nodes that are connected to no node
/// before them.
fn count_sets(graph: &mut Graph) -> usize {
    let n = graph.count();
    let mut sets = 0;
    for i in 0..n {
        let mut first = true;
        for j in 0..i {
            if graph.connected(j, i) {
                first = false;
            }
        }
        if first {
            sets += 1;
        }
    }
    sets
}

/// The answers to every query, row by row.
fn all_answers(graph: &mut Graph) -> Vec<bool> {
    let n = graph.count();
    let mut answers = Vec::new();
    for i in 0..n {
        for j in 0..n {
            answers.push(graph.connected(i, j));
        }
    }
    answers
}

#[test]
fn should_get_count() {
    let n = 10;
    let graph = Graph::new(n);
    assert_eq!(n, graph.count());
}

#[test]
fn should_connect() {
    let mut graph = Graph::new(10);
    assert!(graph.connected(0, 0));
    assert!(!graph.connected(0, 1));
    graph.connect(0, 1);
    assert!(graph.connected(0, 1));
}

#[test]
fn connects_step_by_step() {
    let mut graph = Graph::new(10);
    assert!(!graph.connected(0, 1));
    graph.connect(0, 1);
    assert!(graph.connected(0, 1));
    assert!(!graph.connected(2, 3));
    graph.connect(1, 2);
    assert!(!graph.connected(0, 3));
    graph.connect(2, 3);
    assert!(graph.connected(0, 3));
}

#[test]
fn empty_graph_has_no_nodes() {
    let graph = Graph::new(0);
    assert_eq!(graph.count(), 0);
}

#[test]
fn single_node_is_connected_to_itself() {
    let mut graph = Graph::new(1);
    assert_eq!(graph.count(), 1);
    assert!(graph.connected(0, 0));
    graph.connect(0, 0);
    assert!(graph.connected(0, 0));
    assert_eq!(count_sets(&mut graph), 1);
}

#[test]
fn new_graph_is_reflexive() {
    let mut graph = Graph::new(7);
    for x in 0..7 {
        assert!(graph.connected(x, x));
    }
}

#[test]
fn new_graph_is_isolated() {
    let mut graph = Graph::new(7);
    for x in 0..7 {
        for y in 0..7 {
            if x != y {
                assert!(!graph.connected(x, y));
            }
        }
    }
    assert_eq!(count_sets(&mut graph), 7);
}

#[test]
fn connected_is_symmetric() {
    let mut graph = Graph::new(8);
    graph.connect(0, 5);
    graph.connect(5, 6);
    graph.connect(2, 3);
    for a in 0..8 {
        for b in 0..8 {
            let forth = graph.connected(a, b);
            let back = graph.connected(b, a);
            assert_eq!(forth, back);
        }
    }
}

#[test]
fn connecting_twice_changes_nothing() {
    let mut graph = Graph::new(6);
    graph.connect(4, 1);
    graph.connect(1, 2);
    let once = all_answers(&mut graph);
    graph.connect(1, 2);
    let twice = all_answers(&mut graph);
    assert_eq!(once, twice);
    graph.connect(2, 1);
    assert_eq!(once, all_answers(&mut graph));
}

#[test]
fn connections_chain() {
    let mut graph = Graph::new(5);
    graph.connect(0, 2);
    graph.connect(2, 4);
    assert!(graph.connected(0, 4));
    assert!(graph.connected(4, 0));
    assert!(!graph.connected(0, 1));
    assert!(!graph.connected(3, 4));
}

#[test]
fn each_connect_removes_at_most_one_set() {
    let mut graph = Graph::new(6);
    assert_eq!(count_sets(&mut graph), 6);
    graph.connect(0, 1);
    assert_eq!(count_sets(&mut graph), 5);
    graph.connect(1, 0);
    assert_eq!(count_sets(&mut graph), 5);
    graph.connect(2, 3);
    assert_eq!(count_sets(&mut graph), 4);
    graph.connect(1, 3);
    assert_eq!(count_sets(&mut graph), 3);
    graph.connect(0, 2);
    assert_eq!(count_sets(&mut graph), 3);
    graph.connect(4, 5);
    assert_eq!(count_sets(&mut graph), 2);
    graph.connect(5, 0);
    assert_eq!(count_sets(&mut graph), 1);
    graph.connect(3, 3);
    assert_eq!(count_sets(&mut graph), 1);
}

#[test]
fn asking_again_gives_the_same_answer() {
    let mut graph = Graph::new(9);
    graph.connect(1, 0);
    graph.connect(2, 1);
    graph.connect(3, 2);
    graph.connect(7, 8);
    let first = all_answers(&mut graph);
    for _ in 0..4 {
        assert_eq!(first, all_answers(&mut graph));
    }
    assert!(graph.connected(0, 3));
    assert!(graph.connected(0, 3));
    assert!(!graph.connected(0, 7));
    assert!(!graph.connected(0, 7));
}

#[test]
fn long_chain_resolves_to_one_root() {
    // Each connect hangs the old root under a new one, so node 0 ends up at
    // the bottom of a path through every node.
    let n = 64;
    let mut graph = Graph::new(n);
    for i in 1..n {
        graph.connect(i, i - 1);
    }
    assert!(graph.connected(0, n - 1));
    for i in 0..n {
        for j in 0..n {
            assert!(graph.connected(i, j));
        }
    }
    assert_eq!(count_sets(&mut graph), 1);
}

#[test]
fn two_chains_stay_apart_until_joined() {
    let n = 20;
    let mut graph = Graph::new(n);
    for i in (2..n).step_by(2) {
        graph.connect(i, i - 2);
    }
    for i in (3..n).step_by(2) {
        graph.connect(i, i - 2);
    }
    for i in 0..n {
        for j in 0..n {
            assert_eq!(graph.connected(i, j), i % 2 == j % 2);
        }
    }
    assert_eq!(count_sets(&mut graph), 2);
    graph.connect(0, 1);
    for i in 0..n {
        for j in 0..n {
            assert!(graph.connected(i, j));
        }
    }
    assert_eq!(count_sets(&mut graph), 1);
}

#[test]
fn count_stays_the_same() {
    let mut graph = Graph::new(12);
    graph.connect(3, 9);
    graph.connect(9, 11);
    assert!(graph.connected(3, 11));
    assert_eq!(graph.count(), 12);
}

#[test]
fn agrees_with_relabelling() {
    // The same merges applied to a plain table of labels, in which a merge
    // rewrites every label of one set.
    let n: usize = 97;
    let mut graph = Graph::new(n);
    let mut label: Vec<usize> = (0..n).collect();
    let mut state: u64 = 0x2545_f491_4f6c_dd1d;
    for round in 0..160 {
        state = state.wrapping_mul(6364136223846793005).wrapping_add(1442695040888963407);
        let a = ((state >> 33) % n as u64) as usize;
        state = state.wrapping_mul(6364136223846793005).wrapping_add(1442695040888963407);
        let b = ((state >> 33) % n as u64) as usize;
        assert_eq!(graph.connected(a, b), label[a] == label[b]);
        graph.connect(a, b);
        let (keep, drop) = (label[a], label[b]);
        for l in label.iter_mut() {
            if *l == drop {
                *l = keep;
            }
        }
        assert!(graph.connected(a, b));
        if round % 20 == 19 {
            for i in 0..n {
                for j in 0..n {
                    assert_eq!(graph.connected(i, j), label[i] == label[j]);
                }
            }
        }
    }
    let mut sets = label.clone();
    sets.sort();
    sets.dedup();
    assert_eq!(count_sets(&mut graph), sets.len());
}
