use bfhl::parser::parse_entries;

fn strings(v: &[&str]) -> Vec<String> {
    v.iter().map(|s| s.to_string()).collect()
}

fn pairs(v: &[(String, String)]) -> Vec<(String, String)> {
    v.to_vec()
}

fn edge(p: &str, c: &str) -> (String, String) {
    (p.to_string(), c.to_string())
}

#[test]
fn parse_sorts_entries_into_valid_invalid_and_duplicates() {
    let data = strings(&[
        "A->B", "A->C", "B->D", "C->E", "E->F", "X->Y", "Y->Z", "Z->X", "P->Q", "Q->R", "G->H",
        "G->H", "G->I", "hello", "1->2", "A->",
    ]);
    let r = parse_entries(&data);
    assert_eq!(
        pairs(&r.valid_edges),
        vec![
            edge("A", "B"),
            edge("A", "C"),
            edge("B", "D"),
            edge("C", "E"),
            edge("E", "F"),
            edge("X", "Y"),
            edge("Y", "Z"),
            edge("Z", "X"),
            edge("P", "Q"),
            edge("Q", "R"),
            edge("G", "H"),
            edge("G", "I"),
        ]
    );
    assert_eq!(r.invalid_entries, strings(&["hello", "1->2", "A->"]));
    assert_eq!(r.duplicate_edges, strings(&["G->H"]));
}

#[test]
fn parse_trims_white_space_around_entries() {
    let data = strings(&[" A->B ", "\tC->D\n", "\u{3000}E->F\u{a0}"]);
    let r = parse_entries(&data);
    assert_eq!(pairs(&r.valid_edges), vec![edge("A", "B"), edge("C", "D"), edge("E", "F")]);
    assert!(r.invalid_entries.is_empty());
    assert!(r.duplicate_edges.is_empty());
}

#[test]
fn parse_rejects_malformed_entries_verbatim() {
    let data = strings(&["A-> B", "a->b", "A->A", "AB->C", "A-B", "", "  ", "A->BC", "A=>B", "Ä->B"]);
    let r = parse_entries(&data);
    assert!(r.valid_edges.is_empty());
    assert_eq!(r.invalid_entries, data);
    assert!(r.duplicate_edges.is_empty());
}

#[test]
fn parse_self_loop_is_invalid() {
    let r = parse_entries(&strings(&["Q->Q"]));
    assert!(r.valid_edges.is_empty());
    assert_eq!(r.invalid_entries, strings(&["Q->Q"]));
}

#[test]
fn parse_reports_each_duplicate_once_in_order_of_second_entry() {
    let data = strings(&["A->B", "C->D", "A->B", "C->D", "A->B", " C->D", "E->F"]);
    let r = parse_entries(&data);
    assert_eq!(pairs(&r.valid_edges), vec![edge("A", "B"), edge("C", "D"), edge("E", "F")]);
    assert_eq!(r.duplicate_edges, strings(&["A->B", "C->D"]));
    assert!(r.invalid_entries.is_empty());
}

#[test]
fn parse_duplicate_key_has_no_white_space() {
    let r = parse_entries(&strings(&[" X->Y", "X->Y  "]));
    assert_eq!(r.duplicate_edges, strings(&["X->Y"]));
}

#[test]
fn parse_empty_input() {
    let r = parse_entries(&[]);
    assert!(r.valid_edges.is_empty());
    assert!(r.invalid_entries.is_empty());
    assert!(r.duplicate_edges.is_empty());
}

#[test]
fn parse_reverse_edge_is_not_a_duplicate() {
    let r = parse_entries(&strings(&["A->B", "B->A"]));
    assert_eq!(pairs(&r.valid_edges), vec![edge("A", "B"), edge("B", "A")]);
    assert!(r.duplicate_edges.is_empty());
}

#[test]
fn rendered_valid_edges_parse_back() {
    let r = parse_entries(&strings(&["B->A", " X->Y", "B->A", "bad", "Q->Q", "A->C "]));
    let again: Vec<String> = r.valid_edges.iter().map(|(p, c)| format!("{}->{}", p, c)).collect();
    let r2 = parse_entries(&again);
    assert_eq!(pairs(&r2.valid_edges), pairs(&r.valid_edges));
    assert!(r2.invalid_entries.is_empty());
    assert!(r2.duplicate_edges.is_empty());
}

#[test]
fn parse_of_entries_written_twice() {
    let once = strings(&["B->A", "zz", "C->D", "B->A", "E->E"]);
    let r = parse_entries(&once);
    let twice: Vec<String> = once.iter().chain(once.iter()).cloned().collect();
    let r2 = parse_entries(&twice);
    assert_eq!(pairs(&r2.valid_edges), pairs(&r.valid_edges));
    let mut inv = r.invalid_entries.clone();
    inv.extend(r.invalid_entries.iter().cloned());
    assert_eq!(r2.invalid_entries, inv);
    assert_eq!(r2.duplicate_edges, vec!["B->A".to_string(), "C->D".to_string()]);
}
