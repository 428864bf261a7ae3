use bfhl::hierarchy::build_hierarchies;
use bfhl::models::{HierarchyObject, JsonTree};

fn edges(v: &[(&str, &str)]) -> Vec<(String, String)> {
    v.iter().map(|(p, c)| (p.to_string(), c.to_string())).collect()
}

fn show(t: &JsonTree) -> String {
    let mut s = String::from("{");
    for (i, (k, v)) in t.entries.iter().enumerate() {
        if i > 0 {
            s.push(',');
        }
        s.push_str(k);
        s.push(':');
        s.push_str(&show(v));
    }
    s.push('}');
    s
}

fn summary_line(h: &HierarchyObject) -> String {
    format!("{} {} {:?} {:?}", h.root, show(&h.tree), h.depth, h.has_cycle)
}

#[test]
fn hierarchies_of_the_sample_request() {
    let e = edges(&[
        ("A", "B"),
        ("A", "C"),
        ("B", "D"),
        ("C", "E"),
        ("E", "F"),
        ("X", "Y"),
        ("Y", "Z"),
        ("Z", "X"),
        ("P", "Q"),
        ("Q", "R"),
        ("G", "H"),
        ("G", "I"),
    ]);
    let hs = build_hierarchies(&e);
    let lines: Vec<String> = hs.iter().map(summary_line).collect();
    assert_eq!(
        lines,
        vec![
            "A {A:{B:{D:{}},C:{E:{F:{}}}}} Some(4) None".to_string(),
            "G {G:{H:{},I:{}}} Some(2) None".to_string(),
            "P {P:{Q:{R:{}}}} Some(3) None".to_string(),
            "X {} None Some(true)".to_string(),
        ]
    );
}

#[test]
fn hierarchies_of_no_edges() {
    assert!(build_hierarchies(&[]).is_empty());
}

#[test]
fn diamond_keeps_first_parent() {
    // D keeps A; B stays in the group but is not shown.
    let hs = build_hierarchies(&edges(&[("A", "D"), ("B", "D")]));
    assert_eq!(hs.len(), 1);
    assert_eq!(summary_line(&hs[0]), "A {A:{D:{}}} Some(2) None");
}

#[test]
fn diamond_with_later_root() {
    let hs = build_hierarchies(&edges(&[("C", "D"), ("B", "D"), ("C", "E")]));
    assert_eq!(hs.len(), 1);
    assert_eq!(summary_line(&hs[0]), "B {B:{}} Some(1) None");
}

#[test]
fn two_node_cycle() {
    let hs = build_hierarchies(&edges(&[("X", "Y"), ("Y", "X")]));
    assert_eq!(hs.len(), 1);
    assert_eq!(summary_line(&hs[0]), "X {} None Some(true)");
}

#[test]
fn cycle_not_reachable_from_smallest_root() {
    // Every node has a parent; the cycle B <-> C is not reached from A.
    let hs = build_hierarchies(&edges(&[("B", "A"), ("C", "B"), ("B", "C")]));
    assert_eq!(hs.len(), 1);
    assert_eq!(summary_line(&hs[0]), "A {A:{}} Some(1) None");
}

#[test]
fn cycle_below_a_root() {
    // A -> B -> C -> B: C -> B is dropped (B keeps A), so A is a tree.
    let hs = build_hierarchies(&edges(&[("A", "B"), ("B", "C"), ("C", "B")]));
    assert_eq!(hs.len(), 1);
    assert_eq!(summary_line(&hs[0]), "A {A:{B:{C:{}}}} Some(3) None");
}

#[test]
fn children_are_listed_in_label_order() {
    let hs = build_hierarchies(&edges(&[("R", "Z"), ("R", "M"), ("R", "A")]));
    assert_eq!(summary_line(&hs[0]), "R {R:{A:{},M:{},Z:{}}} Some(2) None");
}

#[test]
fn groups_are_sorted_by_root() {
    let hs = build_hierarchies(&edges(&[("M", "N"), ("C", "D"), ("A", "B")]));
    let roots: Vec<&str> = hs.iter().map(|h| h.root.as_str()).collect();
    assert_eq!(roots, vec!["A", "C", "M"]);
}

#[test]
fn longer_labels_are_ordered_by_characters() {
    let hs = build_hierarchies(&edges(&[("bb", "c"), ("ab", "d"), ("b", "e")]));
    let roots: Vec<&str> = hs.iter().map(|h| h.root.as_str()).collect();
    assert_eq!(roots, vec!["ab", "b", "bb"]);
}

#[test]
fn dropped_edge_still_joins_groups() {
    // B -> C is dropped (C keeps A) but B's group is A's group.
    let hs = build_hierarchies(&edges(&[("A", "C"), ("B", "C"), ("B", "E")]));
    assert_eq!(hs.len(), 1);
    assert_eq!(summary_line(&hs[0]), "A {A:{C:{}}} Some(2) None");
}

fn height(t: &JsonTree) -> u32 {
    t.entries.iter().map(|(_, v)| 1 + height(v)).max().unwrap_or(0)
}

#[test]
fn depth_is_height_of_the_tree() {
    let e = edges(&[("A", "B"), ("B", "C"), ("C", "D"), ("A", "E"), ("K", "L")]);
    let hs = build_hierarchies(&e);
    assert_eq!(hs.len(), 2);
    for h in &hs {
        assert_eq!(h.has_cycle, None);
        assert_eq!(Some(height(&h.tree)), h.depth);
    }
    assert_eq!(hs[0].depth, Some(4));
    assert_eq!(hs[1].depth, Some(2));
}
