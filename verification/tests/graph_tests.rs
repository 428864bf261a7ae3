use bfhl::graph::{build_children, build_tree, compute_depth, detect_cycle, sorted_distinct};
use bfhl::labels::label_lt;
use bfhl::union_find::UnionFind;

#[test]
fn union_find_joins_sets() {
    let mut uf = UnionFind::new(5);
    for i in 0..5 {
        assert_eq!(uf.find(i), i);
    }
    uf.union(0, 1);
    uf.union(3, 4);
    assert_eq!(uf.find(0), uf.find(1));
    assert_eq!(uf.find(3), uf.find(4));
    assert_ne!(uf.find(0), uf.find(3));
    assert_eq!(uf.find(2), 2);
    uf.union(1, 4);
    assert_eq!(uf.find(0), uf.find(3));
    assert_ne!(uf.find(2), uf.find(0));
}

#[test]
fn union_find_rank_decides_root() {
    let mut uf = UnionFind::new(3);
    uf.union(0, 1);
    // equal ranks: the root of the first argument stays root
    assert_eq!(uf.find(1), 0);
    uf.union(2, 1);
    // 2 has the lower rank and goes under 0
    assert_eq!(uf.find(2), 0);
}

#[test]
fn detect_cycle_finds_reachable_cycles() {
    let ring = vec![vec![1], vec![2], vec![0]];
    assert!(detect_cycle(0, &ring));
    let chain = vec![vec![1], vec![2], vec![]];
    assert!(!detect_cycle(0, &chain));
    // a cycle below the start
    let tail = vec![vec![1], vec![2], vec![1]];
    assert!(detect_cycle(0, &tail));
    // a cycle elsewhere is not reached
    let apart = vec![vec![], vec![2], vec![1]];
    assert!(!detect_cycle(0, &apart));
    // a shared child is no cycle
    let dag = vec![vec![1, 2], vec![3], vec![3], vec![]];
    assert!(!detect_cycle(0, &dag));
    let self_loop = vec![vec![0]];
    assert!(detect_cycle(0, &self_loop));
}

#[test]
fn depth_counts_nodes_on_longest_walk() {
    let g = vec![vec![1, 2], vec![3], vec![], vec![]];
    assert_eq!(compute_depth(0, &g), 3);
    assert_eq!(compute_depth(2, &g), 1);
    let dag = vec![vec![1, 2], vec![3], vec![3], vec![4], vec![]];
    assert_eq!(compute_depth(0, &dag), 4);
}

#[test]
fn sorted_distinct_sorts_and_removes_repeats() {
    assert_eq!(sorted_distinct(&vec![3, 1, 3, 2, 1]), vec![1, 2, 3]);
    assert_eq!(sorted_distinct(&vec![]), Vec::<usize>::new());
}

#[test]
fn label_order_is_by_characters() {
    let s = |x: &str| x.to_string();
    assert!(label_lt(&s("AB"), &s("B")));
    assert!(label_lt(&s("A"), &s("AB")));
    assert!(!label_lt(&s("B"), &s("A")));
    assert!(!label_lt(&s("A"), &s("A")));
    assert!(label_lt(&s(""), &s("A")));
    assert!(label_lt(&s("Z"), &s("a")));
}

#[test]
fn tree_lists_children_in_order_once() {
    let names: Vec<String> = ["A", "B", "C", "R"].iter().map(|s| s.to_string()).collect();
    let g = vec![vec![], vec![], vec![], vec![2, 0, 2, 1]];
    let t = build_tree(3, &g, &names);
    assert_eq!(t.entries.len(), 1);
    assert_eq!(t.entries[0].0, "R");
    let keys: Vec<&str> = t.entries[0].1.entries.iter().map(|(k, _)| k.as_str()).collect();
    assert_eq!(keys, vec!["A", "B", "C"]);
    let sub = build_children(0, &g, &names);
    assert!(sub.entries.is_empty());
}
