use bfhl::hierarchy::build_hierarchies;
use bfhl::models::BfhlRequest;
use bfhl::response::{respond, summarize};

fn edges(v: &[(&str, &str)]) -> Vec<(String, String)> {
    v.iter().map(|(p, c)| (p.to_string(), c.to_string())).collect()
}

#[test]
fn summary_counts_trees_and_cycles() {
    let hs = build_hierarchies(&edges(&[("A", "B"), ("B", "C"), ("X", "Y"), ("Y", "X"), ("P", "Q")]));
    let s = summarize(&hs);
    assert_eq!(s.total_trees, 2);
    assert_eq!(s.total_cycles, 1);
    assert_eq!(s.largest_tree_root, "A");
}

#[test]
fn summary_tie_goes_to_first_label() {
    let hs = build_hierarchies(&edges(&[("D", "E"), ("B", "C")]));
    let s = summarize(&hs);
    assert_eq!(s.largest_tree_root, "B");
}

#[test]
fn summary_deepest_tree_wins() {
    let hs = build_hierarchies(&edges(&[("A", "B"), ("K", "L"), ("L", "M")]));
    assert_eq!(summarize(&hs).largest_tree_root, "K");
}

#[test]
fn summary_without_trees() {
    let hs = build_hierarchies(&edges(&[("X", "Y"), ("Y", "X")]));
    let s = summarize(&hs);
    assert_eq!(s.total_trees, 0);
    assert_eq!(s.total_cycles, 1);
    assert_eq!(s.largest_tree_root, "");
}

#[test]
fn summary_of_nothing() {
    let s = summarize(&Vec::new());
    assert_eq!(s.total_trees, 0);
    assert_eq!(s.total_cycles, 0);
    assert_eq!(s.largest_tree_root, "");
}

#[test]
fn respond_to_sample_request() {
    let data: Vec<String> = [
        "A->B", "A->C", "B->D", "C->E", "E->F", "X->Y", "Y->Z", "Z->X", "P->Q", "Q->R", "G->H",
        "G->H", "G->I", "hello", "1->2", "A->",
    ]
    .iter()
    .map(|s| s.to_string())
    .collect();
    let r = respond(
        &BfhlRequest { data },
        "user".to_string(),
        "mail@example.com".to_string(),
        "RA0".to_string(),
    );
    assert_eq!(r.user_id, "user");
    assert_eq!(r.email_id, "mail@example.com");
    assert_eq!(r.college_roll_number, "RA0");
    let roots: Vec<&str> = r.hierarchies.iter().map(|h| h.root.as_str()).collect();
    assert_eq!(roots, vec!["A", "G", "P", "X"]);
    assert_eq!(r.invalid_entries, vec!["hello".to_string(), "1->2".to_string(), "A->".to_string()]);
    assert_eq!(r.duplicate_edges, vec!["G->H".to_string()]);
    assert_eq!(r.summary.total_trees, 3);
    assert_eq!(r.summary.total_cycles, 1);
    assert_eq!(r.summary.largest_tree_root, "A");
}

#[test]
fn respond_to_empty_request() {
    let r = respond(&BfhlRequest { data: vec![] }, String::new(), String::new(), String::new());
    assert!(r.hierarchies.is_empty());
    assert!(r.invalid_entries.is_empty());
    assert!(r.duplicate_edges.is_empty());
    assert_eq!(r.summary.total_trees, 0);
    assert_eq!(r.summary.largest_tree_root, "");
}

fn show_tree(t: &bfhl::models::JsonTree) -> String {
    let mut s = String::from("{");
    for (i, (k, v)) in t.entries.iter().enumerate() {
        if i > 0 {
            s.push(',');
        }
        s.push_str(k);
        s.push(':');
        s.push_str(&show_tree(v));
    }
    s.push('}');
    s
}

fn request(v: &[&str]) -> BfhlRequest {
    BfhlRequest { data: v.iter().map(|s| s.to_string()).collect() }
}

#[test]
fn respond_with_tree_cycle_invalid_and_repeat() {
    let r = respond(
        &request(&["A->B", "A->C", "B->D", "X->Y", "Y->X", "hello", "A->B"]),
        String::new(),
        String::new(),
        String::new(),
    );
    assert_eq!(r.hierarchies.len(), 2);
    assert_eq!(r.hierarchies[0].root, "A");
    assert_eq!(show_tree(&r.hierarchies[0].tree), "{A:{B:{D:{}},C:{}}}");
    assert_eq!(r.hierarchies[0].depth, Some(3));
    assert_eq!(r.hierarchies[0].has_cycle, None);
    assert_eq!(r.hierarchies[1].root, "X");
    assert_eq!(show_tree(&r.hierarchies[1].tree), "{}");
    assert_eq!(r.hierarchies[1].depth, None);
    assert_eq!(r.hierarchies[1].has_cycle, Some(true));
    assert_eq!(r.invalid_entries, vec!["hello".to_string()]);
    assert_eq!(r.duplicate_edges, vec!["A->B".to_string()]);
    assert_eq!(r.summary.total_trees, 1);
    assert_eq!(r.summary.total_cycles, 1);
    assert_eq!(r.summary.largest_tree_root, "A");
}

#[test]
fn respond_tie_between_equal_trees() {
    let r = respond(&request(&["B->C", "A->D"]), String::new(), String::new(), String::new());
    assert_eq!(r.summary.total_trees, 2);
    assert_eq!(r.summary.total_cycles, 0);
    assert_eq!(r.summary.largest_tree_root, "A");
}

#[test]
fn respond_is_the_same_on_the_same_request() {
    let q = request(&["C->A", "B->C", "A->B", "D->E", " D->F ", "D->E"]);
    let r1 = respond(&q, String::new(), String::new(), String::new());
    let r2 = respond(&q, String::new(), String::new(), String::new());
    assert_eq!(r1.hierarchies.len(), r2.hierarchies.len());
    for (h1, h2) in r1.hierarchies.iter().zip(r2.hierarchies.iter()) {
        assert_eq!(h1.root, h2.root);
        assert_eq!(show_tree(&h1.tree), show_tree(&h2.tree));
        assert_eq!(h1.depth, h2.depth);
        assert_eq!(h1.has_cycle, h2.has_cycle);
    }
    assert_eq!(r1.duplicate_edges, r2.duplicate_edges);
}
