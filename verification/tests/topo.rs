use optimizer::topo::topology_sort;

fn prev_counts(succ: &Vec<Vec<usize>>) -> Vec<usize> {
    let mut c = vec![0; succ.len()];
    for s in succ {
        for &v in s {
            c[v] += 1;
        }
    }
    c
}

fn respects_edges(order: &[usize], succ: &Vec<Vec<usize>>) -> bool {
    let pos: Vec<usize> = (0..succ.len()).map(|b| order.iter().position(|&x| x == b).unwrap()).collect();
    succ.iter().enumerate().all(|(u, s)| s.iter().all(|&v| pos[u] < pos[v]))
}

#[test]
fn diamond_is_ordered() {
    let succ = vec![vec![1, 2], vec![3], vec![3], vec![]];
    let r = topology_sort(&succ, &prev_counts(&succ));
    assert_eq!(r, vec![0, 1, 2, 3]);
    assert!(respects_edges(&r, &succ));
}

#[test]
fn chain_in_reverse_numbering() {
    let succ = vec![vec![3], vec![], vec![1], vec![2]];
    let r = topology_sort(&succ, &prev_counts(&succ));
    assert_eq!(r, vec![0, 3, 2, 1]);
}

#[test]
fn loop_gives_nothing() {
    let succ = vec![vec![1], vec![2], vec![1, 3], vec![]];
    let r = topology_sort(&succ, &prev_counts(&succ));
    assert!(r.is_empty());
}

#[test]
fn unreachable_block_gives_nothing() {
    let succ = vec![vec![1], vec![], vec![1]];
    let r = topology_sort(&succ, &prev_counts(&succ));
    assert!(r.is_empty());
}

#[test]
fn single_block() {
    let succ = vec![vec![]];
    assert_eq!(topology_sort(&succ, &vec![0]), vec![0]);
}

#[test]
fn repeated_edge_counts_twice() {
    let succ = vec![vec![1, 1], vec![2], vec![]];
    let r = topology_sort(&succ, &vec![0, 2, 1]);
    assert_eq!(r, vec![0, 1, 2]);
}
