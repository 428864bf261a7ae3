//! The answer to a request: parse, build the hierarchies, summarise.
use vstd::prelude::*;
use crate::hierarchy::{build_hierarchies, edge_labels, hierarchies_of, node_set, is_node, endpoint};
use vstd::set_lib::{set_int_range, lemma_int_range, lemma_map_size_bound, lemma_len_subset};
use crate::labels::{label_lt, lex_lt, lemma_lex_asymmetric, lemma_lex_irreflexive, lemma_lex_total, lemma_lex_transitive, views};
use crate::models::{BfhlRequest, BfhlResponse, HierarchyObject, Summary};
use crate::parser::{
    is_upper,
    parse_entries, invalid_of, first_occurrences, second_occurrences, edge_key, edge_strings,
};

verus! {

/// A hierarchy shown as a tree (no cycle flag).
pub open spec fn is_tree(h: HierarchyObject) -> bool {
    h.has_cycle is None
}

/// A hierarchy shown as a cycle.
pub open spec fn is_cycle(h: HierarchyObject) -> bool {
    h.has_cycle is Some
}

/// `(d, r)` ranks at least as high as `(d2, r2)`: deeper, or as deep with a label
/// that does not come after `r2`.
pub open spec fn ranks_over(d: u32, r: Seq<char>, d2: u32, r2: Seq<char>) -> bool {
    d2 < d || (d2 == d && !lex_lt(r2, r))
}

/// `s` is the root of the deepest tree of `hs`, the first root in label order
/// among equally deep ones; empty where no hierarchy has a depth.
pub open spec fn largest_root(hs: Seq<HierarchyObject>, s: Seq<char>) -> bool {
    if exists|k: int| 0 <= k < hs.len() && (#[trigger] hs[k]).depth is Some {
        exists|k: int|
            0 <= k < hs.len() && #[trigger] hs[k].depth is Some && s == hs[k].root@ && forall|j: int|
                0 <= j < hs.len() && (#[trigger] hs[j]).depth is Some ==> ranks_over(
                    hs[k].depth->0,
                    hs[k].root@,
                    hs[j].depth->0,
                    hs[j].root@,
                )
    } else {
        s.len() == 0
    }
}

/// `sm` summarises `hs`.
pub open spec fn summary_of(hs: Seq<HierarchyObject>, sm: Summary) -> bool {
    &&& sm.total_trees == hs.filter(|h: HierarchyObject| is_tree(h)).len()
    &&& sm.total_cycles == hs.filter(|h: HierarchyObject| is_cycle(h)).len()
    &&& largest_root(hs, sm.largest_tree_root@)
}

proof fn lemma_filter_push_trees(hs: Seq<HierarchyObject>, h: HierarchyObject)
    ensures
        hs.push(h).filter(|x: HierarchyObject| is_tree(x)).len() == hs.filter(|x: HierarchyObject| is_tree(x)).len()
            + if is_tree(h) {
            1int
        } else {
            0int
        },
        hs.push(h).filter(|x: HierarchyObject| is_cycle(x)).len() == hs.filter(|x: HierarchyObject| is_cycle(x)).len()
            + if is_cycle(h) {
            1int
        } else {
            0int
        },
{
    reveal_with_fuel(Seq::filter, 2);
    let post = hs.push(h);
    assert(post.drop_last() =~= hs);
    assert(post.last() == h);
}

/// The counts of trees and cycles and the root of the deepest tree.
pub fn summarize(hierarchies: &Vec<HierarchyObject>) -> (sm: Summary)
    ensures
        summary_of(hierarchies@, sm),
        sm.total_trees + sm.total_cycles == hierarchies@.len(),
{
    let ghost hs = hierarchies@;
    let mut total_trees: usize = 0;
    let mut total_cycles: usize = 0;
    let mut best: Option<usize> = None;
    let mut i: usize = 0;
    while i < hierarchies.len()
        invariant
            hs == hierarchies@,
            i <= hs.len(),
            total_trees == hs.take(i as int).filter(|x: HierarchyObject| is_tree(x)).len(),
            total_cycles == hs.take(i as int).filter(|x: HierarchyObject| is_cycle(x)).len(),
            total_trees + total_cycles == i,
            match best {
                None => forall|j: int| 0 <= j < i ==> (#[trigger] hs[j]).depth is None,
                Some(b) => {
                    &&& b < i
                    &&& hs[b as int].depth is Some
                    &&& forall|j: int|
                        0 <= j < i && (#[trigger] hs[j]).depth is Some ==> ranks_over(
                            hs[b as int].depth->0,
                            hs[b as int].root@,
                            hs[j].depth->0,
                            hs[j].root@,
                        )
                },
            },
        decreases hs.len() - i,
    {
        let h = &hierarchies[i];
        proof {
            assert(hs.take(i + 1) =~= hs.take(i as int).push(hs[i as int]));
            lemma_filter_push_trees(hs.take(i as int), hs[i as int]);
        }
        if h.has_cycle.is_none() {
            total_trees = total_trees + 1;
        } else {
            total_cycles = total_cycles + 1;
        }
        let ghost old_best = best;
        match h.depth {
            Some(d) => {
                match best {
                    None => {
                        best = Some(i);
                    },
                    Some(b) => {
                        let bd = match hierarchies[b].depth {
                            Some(x) => x,
                            None => 0,
                        };
                        if d > bd || (d == bd && !label_lt(&hierarchies[b].root, &h.root)) {
                            best = Some(i);
                            proof {
                                assert forall|j: int|
                                    0 <= j < i + 1 && (#[trigger] hs[j]).depth is Some implies ranks_over(
                                    d,
                                    hs[i as int].root@,
                                    hs[j].depth->0,
                                    hs[j].root@,
                                ) by {
                                    if j < i {
                                        let dj = hs[j].depth->0;
                                        assert(ranks_over(bd, hs[b as int].root@, dj, hs[j].root@));
                                        if dj == d && lex_lt(hs[j].root@, hs[i as int].root@) {
                                            if dj == bd {
                                                lemma_lex_total(hs[b as int].root@, hs[i as int].root@);
                                                if hs[b as int].root@ != hs[i as int].root@ {
                                                    lemma_lex_transitive(hs[j].root@, hs[i as int].root@, hs[b as int].root@);
                                                }
                                            }
                                        }
                                    } else {
                                        lemma_lex_irreflexive(hs[i as int].root@);
                                    }
                                }
                            }
                        } else {
                            proof {
                                assert forall|j: int|
                                    0 <= j < i + 1 && (#[trigger] hs[j]).depth is Some implies ranks_over(
                                    bd,
                                    hs[b as int].root@,
                                    hs[j].depth->0,
                                    hs[j].root@,
                                ) by {
                                    if j == i {
                                        lemma_lex_asymmetric(hs[b as int].root@, hs[i as int].root@);
                                    }
                                }
                            }
                        }
                    },
                }
            },
            None => {},
        }
        i = i + 1;
    }
    let largest_tree_root = match best {
        Some(b) => hierarchies[b].root.clone(),
        None => String::new(),
    };
    proof {
        assert(hs.take(hs.len() as int) =~= hs);
        match best {
            Some(b) => {
                assert(hs[b as int].depth is Some);
            },
            None => {},
        }
    }
    Summary { total_trees, total_cycles, largest_tree_root }
}

/// A non-empty largest tree root is the root of a hierarchy shown as a tree.
pub proof fn law_largest_root_is_tree(l: crate::hierarchy::LabelEdges, hs: Seq<HierarchyObject>, sm: Summary)
    requires
        hierarchies_of(l, hs),
        summary_of(hs, sm),
        sm.largest_tree_root@.len() > 0,
    ensures
        exists|k: int| 0 <= k < hs.len() && is_tree(#[trigger] hs[k]) && hs[k].root@ == sm.largest_tree_root@,
{
    crate::hierarchy::law_depth_iff_tree(l, hs);
    let k = choose|k: int|
        0 <= k < hs.len() && #[trigger] hs[k].depth is Some && sm.largest_tree_root@ == hs[k].root@ && forall|j: int|
            0 <= j < hs.len() && (#[trigger] hs[j]).depth is Some ==> ranks_over(
                hs[k].depth->0,
                hs[k].root@,
                hs[j].depth->0,
                hs[j].root@,
            );
    assert(is_tree(hs[k]));
}

/// Edges between single uppercase letters name at most 26 nodes.
proof fn lemma_letter_nodes(valid: Seq<(String, String)>)
    requires
        forall|k: int|
            0 <= k < valid.len() ==> (#[trigger] valid[k]).0@.len() == 1 && valid[k].1@.len() == 1 && is_upper(
                valid[k].0@[0],
            ) && is_upper(valid[k].1@[0]),
    ensures
        node_set(edge_labels(valid)).finite(),
        node_set(edge_labels(valid)).len() <= 26,
{
    let l = edge_labels(valid);
    let f = |i: int| seq![i as char];
    let range = set_int_range(65, 91);
    let letters = range.map(f);
    lemma_int_range(65, 91);
    lemma_map_size_bound(range, letters, f);
    assert forall|x: Seq<char>| #[trigger] node_set(l).contains(x) implies letters.contains(x) by {
        assert(is_node(l, x));
        let i = choose|i: int| 0 <= i < l.len() && #[trigger] endpoint(l, i, x);
        assert(valid[i].0@.len() == 1);
        assert(x.len() == 1);
        let c = x[0];
        assert(65 <= c as int <= 90);
        assert(f(c as int) =~= x);
        assert(range.contains(c as int));
    }
    lemma_len_subset(node_set(l), letters);
}

/// The answer to a request: its entries parsed, the hierarchies of its valid
/// edges and their summary, under the given identity.
pub fn respond(
    request: &BfhlRequest,
    user_id: String,
    email_id: String,
    college_roll_number: String,
) -> (res: BfhlResponse)
    ensures
        res.user_id == user_id,
        res.email_id == email_id,
        res.college_roll_number == college_roll_number,
        views(res.invalid_entries@) == invalid_of(views(request.data@)),
        exists|ds: Seq<(char, char)>|
            second_occurrences(views(request.data@), ds) && ds.len() == res.duplicate_edges@.len() && forall|k: int|
                0 <= k < ds.len() ==> #[trigger] res.duplicate_edges@[k]@ == edge_key(ds[k]),
        exists|valid: Seq<(String, String)>|
            (forall|k: int| 0 <= k < valid.len() ==> (#[trigger] valid[k]).0@.len() == 1 && valid[k].1@.len() == 1)
                && first_occurrences(views(request.data@), valid.map_values(|e: (String, String)| edge_strings(e)))
                && hierarchies_of(edge_labels(valid), res.hierarchies@),
        summary_of(res.hierarchies@, res.summary),
{
    let parsed = parse_entries(request.data.as_slice());
    proof {
        lemma_letter_nodes(parsed.valid_edges@);
    }
    let hierarchies = build_hierarchies(parsed.valid_edges.as_slice());
    let summary = summarize(&hierarchies);
    proof {
        assert(forall|k: int| 0 <= k < parsed.valid_edges@.len() ==> (#[trigger] parsed.valid_edges@[k]).0@.len() == 1 && parsed.valid_edges@[k].1@.len() == 1);
        assert(first_occurrences(
            views(request.data@),
            parsed.valid_edges@.map_values(|e: (String, String)| edge_strings(e)),
        ) && hierarchies_of(edge_labels(parsed.valid_edges@), hierarchies@));
    }
    BfhlResponse {
        user_id,
        email_id,
        college_roll_number,
        hierarchies,
        invalid_entries: parsed.invalid_entries,
        duplicate_edges: parsed.duplicate_edges,
        summary,
    }
}


/// The largest tree root is the root of a deepest tree: every tree is at most as
/// deep, and an equally deep tree has a root that does not come before it. Where
/// no hierarchy is a tree with a depth, it is empty.
pub proof fn law_largest_tree_root_is_deepest(hs: Seq<HierarchyObject>, sm: Summary)
    requires
        summary_of(hs, sm),
    ensures
        (exists|k: int| 0 <= k < hs.len() && (#[trigger] hs[k]).depth is Some) ==> exists|k: int|
            0 <= k < hs.len() && #[trigger] hs[k].depth is Some && sm.largest_tree_root@ == hs[k].root@
                && forall|j: int|
                0 <= j < hs.len() && (#[trigger] hs[j]).depth is Some ==> hs[j].depth->0 <= hs[k].depth->0 && (
                hs[j].depth->0 == hs[k].depth->0 ==> !lex_lt(hs[j].root@, hs[k].root@)),
        (forall|k: int| 0 <= k < hs.len() ==> (#[trigger] hs[k]).depth is None) ==> sm.largest_tree_root@.len()
            == 0,
{
    if exists|k: int| 0 <= k < hs.len() && (#[trigger] hs[k]).depth is Some {
        let k = choose|k: int|
            0 <= k < hs.len() && #[trigger] hs[k].depth is Some && sm.largest_tree_root@ == hs[k].root@ && forall|j: int|
                0 <= j < hs.len() && (#[trigger] hs[j]).depth is Some ==> ranks_over(
                    hs[k].depth->0,
                    hs[k].root@,
                    hs[j].depth->0,
                    hs[j].root@,
                );
        assert forall|j: int| 0 <= j < hs.len() && (#[trigger] hs[j]).depth is Some implies hs[j].depth->0
            <= hs[k].depth->0 && (hs[j].depth->0 == hs[k].depth->0 ==> !lex_lt(hs[j].root@, hs[k].root@)) by {
            assert(ranks_over(hs[k].depth->0, hs[k].root@, hs[j].depth->0, hs[j].root@));
        }
    }
}

} // verus!
