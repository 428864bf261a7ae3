//! Directed graphs over the nodes `0 .. n`, given as child lists: walks,
//! cycle detection, depth and the nested tree below a node.
use vstd::prelude::*;
use vstd::set_lib::*;
use crate::models::JsonTree;
use crate::labels::{strictly_sorted, lemma_lex_irreflexive};
use indexmap::IndexMap;
use std::hash::RandomState;

verus! {

#[verifier::external_type_specification]
#[verifier::external_body]
#[verifier::reject_recursive_types(K)]
#[verifier::reject_recursive_types(V)]
#[verifier::reject_recursive_types(S)]
pub struct ExIndexMap<K, V, S>(IndexMap<K, V, S>);

/// The entries of an `IndexMap` in their order: each key by its label, with its value.
pub uninterp spec fn index_map_entries(m: IndexMap<String, JsonTree, RandomState>) -> Seq<(Seq<char>, JsonTree)>;

/// `IndexMap::new`: a map without entries.
#[verifier::external_body]
fn index_map_new() -> (m: IndexMap<String, JsonTree, RandomState>)
    ensures
        index_map_entries(m) == Seq::<(Seq<char>, JsonTree)>::empty(),
{
    IndexMap::new()
}

/// `IndexMap::insert`: where an equal key is present, its value is replaced in
/// place and the old value is returned; else the entry goes last and `None` is
/// returned.
#[verifier::external_body]
fn index_map_insert(m: &mut IndexMap<String, JsonTree, RandomState>, key: String, value: JsonTree) -> (r: Option<JsonTree>)
    ensures
        ({
            let e = index_map_entries(*old(m));
            if exists|i: int| 0 <= i < e.len() && #[trigger] e[i].0 == key@ {
                let i = choose|i: int| 0 <= i < e.len() && #[trigger] e[i].0 == key@;
                &&& index_map_entries(*final(m)) == e.update(i, (e[i].0, value))
                &&& r == Some(e[i].1)
            } else {
                &&& index_map_entries(*final(m)) == e.push((key@, value))
                &&& r is None
            }
        }),
{
    m.insert(key, value)
}

/// `IndexMap::into_iter`, collected: the entries in their order.
#[verifier::external_body]
fn index_map_into_entries(m: IndexMap<String, JsonTree, RandomState>) -> (v: Vec<(String, JsonTree)>)
    ensures
        v@.len() == index_map_entries(m).len(),
        forall|i: int| 0 <= i < v@.len() ==> (#[trigger] v@[i]).0@ == index_map_entries(m)[i].0 && v@[i].1
            == index_map_entries(m)[i].1,
{
    m.into_iter().collect()
}

/// Every child index names a node.
pub open spec fn graph_wf(ch: Seq<Vec<usize>>) -> bool {
    forall|p: int, k: int| 0 <= p < ch.len() && 0 <= k < ch[p]@.len() ==> (#[trigger] ch[p]@[k] as int) < ch.len()
}

/// `v` is a child of `u`.
pub open spec fn is_edge(ch: Seq<Vec<usize>>, u: int, v: int) -> bool {
    &&& 0 <= u < ch.len()
    &&& exists|k: int| 0 <= k < ch[u]@.len() && #[trigger] ch[u]@[k] as int == v
}

/// The node after position `i` of `w` is a child of the node at `i`.
pub open spec fn step(ch: Seq<Vec<usize>>, w: Seq<int>, i: int) -> bool {
    is_edge(ch, w[i], w[i + 1])
}

/// A nonempty sequence of nodes, each a child of the one before it.
pub open spec fn is_walk(ch: Seq<Vec<usize>>, w: Seq<int>) -> bool {
    &&& w.len() > 0
    &&& 0 <= w[0] < ch.len()
    &&& forall|i: int| 0 <= i < w.len() - 1 ==> #[trigger] step(ch, w, i)
}

/// A walk that starts at `s`.
pub open spec fn walk_from(ch: Seq<Vec<usize>>, w: Seq<int>, s: int) -> bool {
    is_walk(ch, w) && w[0] == s
}

/// No walk from `s` visits a node twice: no cycle can be reached from `s`.
pub open spec fn acyclic_from(ch: Seq<Vec<usize>>, s: int) -> bool {
    forall|w: Seq<int>| #[trigger] walk_from(ch, w, s) ==> w.no_duplicates()
}

/// Some walk from `s` visits a node twice: a cycle can be reached from `s`.
pub open spec fn cycle_reachable(ch: Seq<Vec<usize>>, s: int) -> bool {
    exists|w: Seq<int>| #[trigger] walk_from(ch, w, s) && !w.no_duplicates()
}

/// The nodes that some walk from `s` ends at (`s` included).
pub open spec fn reach_set(ch: Seq<Vec<usize>>, s: int) -> Set<int> {
    Set::new(|u: int| exists|w: Seq<int>| #[trigger] walk_from(ch, w, s) && w.last() == u)
}

/// Number of white (0) entries of a colouring.
pub open spec fn white_count(c: Seq<u8>) -> nat
    decreases c.len(),
{
    if c.len() == 0 {
        0
    } else {
        white_count(c.drop_last()) + if c.last() == 0 {
            1nat
        } else {
            0nat
        }
    }
}

proof fn lemma_white_count_mono(a: Seq<u8>, b: Seq<u8>)
    requires
        a.len() == b.len(),
        forall|j: int| 0 <= j < b.len() && b[j] == 0 ==> a[j] == 0,
    ensures
        white_count(b) <= white_count(a),
        (exists|k: int| 0 <= k < a.len() && a[k] == 0 && b[k] != 0) ==> white_count(b) < white_count(
            a,
        ),
    decreases a.len(),
{
    if a.len() > 0 {
        let a2 = a.drop_last();
        let b2 = b.drop_last();
        lemma_white_count_mono(a2, b2);
        if exists|k: int| 0 <= k < a.len() && a[k] == 0 && b[k] != 0 {
            let k = choose|k: int| 0 <= k < a.len() && a[k] == 0 && b[k] != 0;
            if k < a.len() - 1 {
                assert(a2[k] == 0 && b2[k] != 0);
            }
        }
    }
}

/// The grey nodes are exactly the nodes of `stack`, a walk that leads to `node`.
pub open spec fn grey_stack(ch: Seq<Vec<usize>>, color: Seq<u8>, stack: Seq<int>, node: int) -> bool {
    &&& forall|i: int| 0 <= i < stack.len() ==> 0 <= #[trigger] stack[i] < ch.len()
    &&& forall|i: int| 0 <= i < stack.len() ==> color[#[trigger] stack[i]] == 1
    &&& forall|j: int| 0 <= j < color.len() && #[trigger] color[j] == 1 ==> stack.contains(j)
    &&& forall|i: int| 0 <= i < stack.len() - 1 ==> #[trigger] step(ch, stack, i)
    &&& stack.len() > 0 ==> is_edge(ch, stack.last(), node)
}

/// Every black node has only black children and reaches no cycle.
pub open spec fn black_closed(ch: Seq<Vec<usize>>, color: Seq<u8>) -> bool {
    &&& forall|b: int, c: int|
        0 <= b < color.len() && color[b] == 2 && #[trigger] is_edge(ch, b, c) ==> color[c] == 2
    &&& forall|b: int| 0 <= b < color.len() && #[trigger] color[b] == 2 ==> acyclic_from(ch, b)
}

/// A walk that starts at a black node stays on black nodes.
proof fn lemma_walk_stays_black(ch: Seq<Vec<usize>>, color: Seq<u8>, w: Seq<int>)
    requires
        graph_wf(ch),
        color.len() == ch.len(),
        black_closed(ch, color),
        is_walk(ch, w),
        color[w[0]] == 2,
    ensures
        forall|i: int| 0 <= i < w.len() ==> color[#[trigger] w[i]] == 2,
    decreases w.len(),
{
    if w.len() > 1 {
        let w2 = w.drop_last();
        assert forall|i: int| 0 <= i < w2.len() - 1 implies #[trigger] step(ch, w2, i) by {
            assert(step(ch, w, i));
        }
        lemma_walk_stays_black(ch, color, w2);
        assert forall|i: int| 0 <= i < w.len() implies color[#[trigger] w[i]] == 2 by {
            if i < w.len() - 1 {
                assert(w2[i] == w[i]);
            } else {
                assert(step(ch, w, i - 1));
                assert(color[w2[i - 1]] == 2);
            }
        }
    }
}

/// A non-black node whose children are all black reaches no cycle.
proof fn lemma_acyclic_over_black_children(ch: Seq<Vec<usize>>, color: Seq<u8>, v: int)
    requires
        graph_wf(ch),
        color.len() == ch.len(),
        black_closed(ch, color),
        0 <= v < ch.len(),
        color[v] != 2,
        forall|c: int| #[trigger] is_edge(ch, v, c) ==> color[c] == 2,
    ensures
        acyclic_from(ch, v),
{
    assert forall|w: Seq<int>| #[trigger] walk_from(ch, w, v) implies w.no_duplicates() by {
        if w.len() > 1 {
            let t = w.drop_first();
            assert(step(ch, w, 0));
            assert(is_walk(ch, t)) by {
                assert forall|i: int| 0 <= i < t.len() - 1 implies #[trigger] step(ch, t, i) by {
                    assert(step(ch, w, i + 1));
                }
            }
            assert(color[t[0]] == 2);
            lemma_walk_stays_black(ch, color, t);
            assert(walk_from(ch, t, t[0]));
            assert(t.no_duplicates());
            assert forall|i: int, j: int| 0 <= i < w.len() && 0 <= j < w.len() && i != j implies w[i]
                != w[j] by {
                if i > 0 && j > 0 {
                    assert(t[i - 1] != t[j - 1]);
                } else if i == 0 {
                    assert(color[t[j - 1]] == 2);
                } else {
                    assert(color[t[i - 1]] == 2);
                }
            }
        }
    }
}

/// What a child reaches, its parent reaches too.
proof fn lemma_reach_child(ch: Seq<Vec<usize>>, v: int, c: int)
    requires
        is_edge(ch, v, c),
    ensures
        forall|u: int| #[trigger] reach_set(ch, c).contains(u) ==> reach_set(ch, v).contains(u),
{
    assert forall|u: int| #[trigger] reach_set(ch, c).contains(u) implies reach_set(ch, v).contains(u) by {
        let w = choose|w: Seq<int>| #[trigger] walk_from(ch, w, c) && w.last() == u;
        lemma_prepend_walk(ch, v, w);
        let x = seq![v] + w;
        assert(x.last() == u);
        assert(walk_from(ch, x, v));
    }
}

/// Three-colour depth-first search from `node`: true when it meets a grey node,
/// that is, when a cycle is reachable. `stack` is the path of grey nodes that
/// leads to `node`; the colours are 0 (white), 1 (grey) and 2 (black).
pub fn dfs_cycle(
    node: usize,
    children_map: &Vec<Vec<usize>>,
    color: &mut Vec<u8>,
    Ghost(stack): Ghost<Seq<int>>,
) -> (found: bool)
    requires
        graph_wf(children_map@),
        old(color)@.len() == children_map@.len(),
        node < children_map@.len(),
        old(color)@[node as int] == 0,
        forall|j: int| 0 <= j < old(color)@.len() ==> #[trigger] old(color)@[j] <= 2,
        grey_stack(children_map@, old(color)@, stack, node as int),
        black_closed(children_map@, old(color)@),
    ensures
        final(color)@.len() == old(color)@.len(),
        forall|j: int| 0 <= j < final(color)@.len() ==> #[trigger] final(color)@[j] <= 2,
        forall|j: int|
            0 <= j < final(color)@.len() && !reach_set(children_map@, node as int).contains(j)
                ==> #[trigger] final(color)@[j] == old(color)@[j],
        forall|j: int| 0 <= j < final(color)@.len() && #[trigger] old(color)@[j] == 1 ==> final(color)@[j] == 1,
        forall|j: int| 0 <= j < final(color)@.len() && #[trigger] old(color)@[j] == 2 ==> final(color)@[j] == 2,
        forall|j: int|
            0 <= j < final(color)@.len() ==> #[trigger] final(color)@[j] == old(color)@[j] || (final(color)@[j] != 0
                && reach_set(children_map@, node as int).contains(j)),
        found ==> final(color)@[node as int] == 1,
        !found ==> final(color)@[node as int] == 2,
        !found ==> forall|j: int| #[trigger] reach_set(children_map@, node as int).contains(j) ==> final(color)@[j] == 2,
        !found ==> forall|j: int|
            0 <= j < final(color)@.len() ==> (#[trigger] final(color)@[j] == 1 <==> old(color)@[j] == 1),
        !found ==> black_closed(children_map@, final(color)@),
        found ==> cycle_reachable(
            children_map@,
            if stack.len() > 0 {
                stack[0]
            } else {
                node as int
            },
        ),
    decreases white_count(old(color)@),
{
    let ghost ch = children_map@;
    let ghost c0 = color@;
    let ghost base = if stack.len() > 0 {
        stack[0]
    } else {
        node as int
    };
    color.set(node, 1);
    proof {
        assert(walk_from(ch, seq![node as int], node as int));
        assert(reach_set(ch, node as int).contains(node as int));
    }
    let ghost st2 = stack.push(node as int);
    let children = &children_map[node];
    let mut i: usize = 0;
    while i < children.len()
        invariant
            ch == children_map@,
            graph_wf(ch),
            node < ch.len(),
            children@ == ch[node as int]@,
            i <= children@.len(),
            color@.len() == ch.len(),
            c0 == old(color)@,
            c0.len() == ch.len(),
            color@[node as int] == 1,
            c0[node as int] == 0,
            forall|j: int| 0 <= j < color@.len() ==> #[trigger] color@[j] <= 2,
            forall|j: int|
                0 <= j < color@.len() ==> (#[trigger] color@[j] == 1 <==> (c0[j] == 1 || j == node)),
            forall|j: int| 0 <= j < color@.len() && #[trigger] c0[j] == 2 ==> color@[j] == 2,
            forall|j: int| 0 <= j < color@.len() && #[trigger] color@[j] == 0 ==> c0[j] == 0,
            forall|j: int|
                0 <= j < color@.len() && !reach_set(ch, node as int).contains(j) ==> #[trigger] color@[j] == c0[j],
            forall|j: int|
                0 <= j < color@.len() ==> #[trigger] color@[j] == c0[j] || (color@[j] != 0 && reach_set(
                    ch,
                    node as int,
                ).contains(j)),
            black_closed(ch, color@),
            forall|k: int| 0 <= k < i ==> color@[#[trigger] children@[k] as int] == 2,
            grey_stack(ch, c0, stack, node as int),
            st2 == stack.push(node as int),
            base == if stack.len() > 0 {
                stack[0]
            } else {
                node as int
            },
        decreases children@.len() - i,
    {
        let c = children[i];
        proof {
            assert(ch[node as int]@[i as int] == c);
        }
        let col = color[c];
        if col == 1 {
            proof {
                let w = st2.push(c as int);
                assert(is_edge(ch, node as int, c as int));
                assert(st2.contains(c as int)) by {
                    if c != node {
                        assert(c0[c as int] == 1);
                        assert(stack.contains(c as int));
                        let q = choose|q: int| 0 <= q < stack.len() && stack[q] == c as int;
                        assert(st2[q] == c as int);
                    } else {
                        assert(st2[stack.len() as int] == c as int);
                    }
                }
                let q = choose|q: int| 0 <= q < st2.len() && st2[q] == c as int;
                assert(w[q] == w[w.len() - 1]);
                assert(!w.no_duplicates());
                assert(is_walk(ch, w)) by {
                    assert forall|k: int| 0 <= k < w.len() - 1 implies #[trigger] step(ch, w, k) by {
                        if k < stack.len() - 1 {
                            assert(step(ch, stack, k));
                        }
                    }
                    if stack.len() > 0 {
                        assert(0 <= stack[0] < ch.len());
                    }
                }
                assert(walk_from(ch, w, base));
            }
            return true;
        } else if col == 2 {
        } else {
            proof {
                lemma_white_count_mono(c0, color@);
                assert(grey_stack(ch, color@, st2, c as int)) by {
                    assert forall|j: int| 0 <= j < color@.len() && #[trigger] color@[j] == 1 implies st2.contains(
                        j,
                    ) by {
                        if j == node {
                            assert(st2[stack.len() as int] == j);
                        } else {
                            assert(c0[j] == 1);
                            let q = choose|q: int| 0 <= q < stack.len() && stack[q] == j;
                            assert(st2[q] == j);
                        }
                    }
                    assert forall|q: int| 0 <= q < st2.len() implies color@[#[trigger] st2[q]] == 1 by {
                        if q < stack.len() {
                            assert(st2[q] == stack[q]);
                        }
                    }
                    assert forall|q: int| 0 <= q < st2.len() - 1 implies #[trigger] step(ch, st2, q) by {
                        if q < stack.len() - 1 {
                            assert(step(ch, stack, q));
                        }
                    }
                    assert(is_edge(ch, node as int, c as int));
                }
            }
            let ghost before = color@;
            proof {
                assert(is_edge(ch, node as int, c as int));
                lemma_reach_child(ch, node as int, c as int);
            }
            let sub = dfs_cycle(c, children_map, color, Ghost(st2));
            proof {
                assert forall|j: int|
                    0 <= j < color@.len() && !reach_set(ch, node as int).contains(j) implies #[trigger] color@[j]
                    == c0[j] by {
                    assert(!reach_set(ch, c as int).contains(j));
                    assert(before[j] == c0[j]);
                }
                assert(before[node as int] == 1);
                assert forall|j: int| 0 <= j < color@.len() && #[trigger] c0[j] == 1 implies color@[j] == 1 by {
                    assert(before[j] == 1);
                }
                assert forall|j: int| 0 <= j < color@.len() && #[trigger] c0[j] == 2 implies color@[j] == 2 by {
                    assert(before[j] == 2);
                }
                assert forall|j: int| 0 <= j < color@.len() implies #[trigger] color@[j] == c0[j] || (color@[j] != 0
                    && reach_set(ch, node as int).contains(j)) by {
                    assert(before[j] == c0[j] || (before[j] != 0 && reach_set(ch, node as int).contains(j)));
                    if color@[j] != before[j] {
                        assert(color@[j] != 0 && reach_set(ch, c as int).contains(j));
                    }
                }
            }
            if sub {
                return true;
            }
            proof {
                assert forall|j: int| 0 <= j < color@.len() && #[trigger] color@[j] == 0 implies c0[j]
                    == 0 by {
                    if before[j] != 0 {
                        assert(before[j] <= 2);
                        if before[j] == 1 {
                            assert(color@[j] == 1);
                        } else {
                            assert(color@[j] == 2);
                        }
                    }
                }
                assert forall|k: int| 0 <= k < i + 1 implies color@[#[trigger] children@[k] as int]
                    == 2 by {
                    if k < i {
                        assert(before[children@[k] as int] == 2);
                    }
                }
            }
        }
        i = i + 1;
    }
    proof {
        assert forall|cc: int| #[trigger] is_edge(ch, node as int, cc) implies color@[cc] == 2 by {
            let k = choose|k: int| 0 <= k < ch[node as int]@.len() && ch[node as int]@[k] as int == cc;
            assert(color@[children@[k] as int] == 2);
        }
        lemma_acyclic_over_black_children(ch, color@, node as int);
    }
    color.set(node, 2);
    proof {
        let cf = color@;
        assert forall|j: int| #[trigger] reach_set(ch, node as int).contains(j) implies cf[j] == 2 by {
            let w = choose|w: Seq<int>| #[trigger] walk_from(ch, w, node as int) && w.last() == j;
            lemma_walk_stays_black(ch, cf, w);
            lemma_walk_in_range(ch, w);
            assert(cf[w[w.len() - 1]] == 2);
        }
        assert forall|b: int, cc: int|
            0 <= b < cf.len() && cf[b] == 2 && #[trigger] is_edge(ch, b, cc) implies cf[cc] == 2 by {
            if b != node {
                assert(0 <= cc < ch.len());
            }
        }
    }
    false
}

/// Whether a cycle can be reached from `start` by following child lists.
pub fn detect_cycle(start: usize, children_map: &Vec<Vec<usize>>) -> (r: bool)
    requires
        graph_wf(children_map@),
        start < children_map@.len(),
    ensures
        r == cycle_reachable(children_map@, start as int),
{
    let n = children_map.len();
    let mut color: Vec<u8> = Vec::new();
    let mut i: usize = 0;
    while i < n
        invariant
            i <= n,
            n == children_map@.len(),
            color@.len() == i,
            forall|j: int| 0 <= j < i ==> color@[j] == 0,
        decreases n - i,
    {
        color.push(0);
        i = i + 1;
    }
    let r = dfs_cycle(start, children_map, &mut color, Ghost(Seq::empty()));
    proof {
        if !r {
            assert(acyclic_from(children_map@, start as int));
        }
    }
    r
}


/// Every node on a walk is a node of the graph.
pub proof fn lemma_walk_in_range(ch: Seq<Vec<usize>>, w: Seq<int>)
    requires
        graph_wf(ch),
        is_walk(ch, w),
    ensures
        forall|i: int| 0 <= i < w.len() ==> 0 <= #[trigger] w[i] < ch.len(),
{
    assert forall|i: int| 0 <= i < w.len() implies 0 <= #[trigger] w[i] < ch.len() by {
        if i > 0 {
            assert(step(ch, w, i - 1));
            let k = choose|k: int| 0 <= k < ch[w[i - 1]]@.len() && #[trigger] ch[w[i - 1]]@[k] as int == w[i];
        }
    }
}

/// Putting a parent in front of a walk from its child gives a walk.
pub proof fn lemma_prepend_walk(ch: Seq<Vec<usize>>, v: int, w: Seq<int>)
    requires
        is_walk(ch, w),
        is_edge(ch, v, w[0]),
    ensures
        walk_from(ch, seq![v] + w, v),
{
    let x = seq![v] + w;
    assert forall|i: int| 0 <= i < x.len() - 1 implies #[trigger] step(ch, x, i) by {
        if i > 0 {
            assert(step(ch, w, i - 1));
        }
    }
}

/// The rest of a walk after its first node is a walk.
pub proof fn lemma_walk_tail(ch: Seq<Vec<usize>>, w: Seq<int>)
    requires
        graph_wf(ch),
        is_walk(ch, w),
        w.len() > 1,
    ensures
        is_walk(ch, w.drop_first()),
        is_edge(ch, w[0], w[1]),
        w =~= seq![w[0]] + w.drop_first(),
{
    let t = w.drop_first();
    lemma_walk_in_range(ch, w);
    assert(step(ch, w, 0));
    assert forall|i: int| 0 <= i < t.len() - 1 implies #[trigger] step(ch, t, i) by {
        assert(step(ch, w, i + 1));
    }
}

/// A walk without repeated nodes has at most as many nodes as the graph.
pub proof fn lemma_walk_len_bound(ch: Seq<Vec<usize>>, w: Seq<int>)
    requires
        graph_wf(ch),
        is_walk(ch, w),
        w.no_duplicates(),
    ensures
        w.len() <= ch.len(),
{
    lemma_walk_in_range(ch, w);
    w.unique_seq_to_set();
    lemma_int_range(0, ch.len() as int);
    assert(w.to_set().subset_of(set_int_range(0, ch.len() as int)));
    lemma_len_subset(w.to_set(), set_int_range(0, ch.len() as int));
}

/// The child of a node that reaches no cycle reaches no cycle, and reaches
/// strictly fewer nodes.
pub proof fn lemma_child_of_acyclic(ch: Seq<Vec<usize>>, v: int, c: int)
    requires
        graph_wf(ch),
        acyclic_from(ch, v),
        is_edge(ch, v, c),
    ensures
        acyclic_from(ch, c),
        reach_set(ch, c).finite(),
        reach_set(ch, c).len() < reach_set(ch, v).len(),
{
    assert(0 <= c < ch.len()) by {
        let k = choose|k: int| 0 <= k < ch[v]@.len() && #[trigger] ch[v]@[k] as int == c;
    }
    assert forall|w: Seq<int>| #[trigger] walk_from(ch, w, c) implies w.no_duplicates() by {
        lemma_prepend_walk(ch, v, w);
        let x = seq![v] + w;
        assert(walk_from(ch, x, v));
        assert forall|i: int, j: int| 0 <= i < w.len() && 0 <= j < w.len() && i != j implies w[i]
            != w[j] by {
            assert(x[i + 1] == w[i] && x[j + 1] == w[j]);
        }
    }
    lemma_reach_finite(ch, v);
    let rc = reach_set(ch, c);
    let rv = reach_set(ch, v);
    assert(rc.subset_of(rv)) by {
        assert forall|u: int| rc.contains(u) implies rv.contains(u) by {
            let w = choose|w: Seq<int>| #[trigger] walk_from(ch, w, c) && w.last() == u;
            lemma_prepend_walk(ch, v, w);
            let x = seq![v] + w;
            assert(x.last() == u);
        }
    }
    assert(rv.contains(v)) by {
        assert(walk_from(ch, seq![v], v));
    }
    assert(!rc.contains(v)) by {
        if rc.contains(v) {
            let w = choose|w: Seq<int>| #[trigger] walk_from(ch, w, c) && w.last() == v;
            lemma_prepend_walk(ch, v, w);
            let x = seq![v] + w;
            assert(x[0] == x[x.len() - 1]);
        }
    }
    rc.lemma_subset_not_in_lt(rv, v);
}

/// The reachable set of a node is finite.
pub proof fn lemma_reach_finite(ch: Seq<Vec<usize>>, v: int)
    requires
        graph_wf(ch),
    ensures
        reach_set(ch, v).finite(),
{
    lemma_int_range(0, ch.len() as int);
    assert forall|u: int| reach_set(ch, v).contains(u) implies set_int_range(0, ch.len() as int).contains(
        u,
    ) by {
        let w = choose|w: Seq<int>| #[trigger] walk_from(ch, w, v) && w.last() == u;
        lemma_walk_in_range(ch, w);
    }
    lemma_len_subset(reach_set(ch, v), set_int_range(0, ch.len() as int));
}

/// The number of nodes on the longest walk from `node`.
pub fn compute_depth(node: usize, children_map: &Vec<Vec<usize>>) -> (d: u32)
    requires
        graph_wf(children_map@),
        node < children_map@.len(),
        children_map@.len() <= u32::MAX,
        acyclic_from(children_map@, node as int),
    ensures
        exists|w: Seq<int>| #[trigger] walk_from(children_map@, w, node as int) && w.len() == d,
        forall|w: Seq<int>| #[trigger] walk_from(children_map@, w, node as int) ==> w.len() <= d,
    decreases reach_set(children_map@, node as int).len(),
{
    let ghost ch = children_map@;
    let children = &children_map[node];
    proof {
        assert(walk_from(ch, seq![node as int], node as int));
    }
    if children.len() == 0 {
        proof {
            assert forall|w: Seq<int>| #[trigger] walk_from(ch, w, node as int) implies w.len() <= 1 by {
                if w.len() > 1 {
                    assert(step(ch, w, 0));
                }
            }
        }
        return 1;
    }
    let mut best: u32 = 0;
    let mut i: usize = 0;
    while i < children.len()
        invariant
            ch == children_map@,
            graph_wf(ch),
            node < ch.len(),
            ch.len() <= u32::MAX,
            acyclic_from(ch, node as int),
            children@ == ch[node as int]@,
            i <= children@.len(),
            i == 0 ==> best == 0,
            i > 0 ==> exists|w: Seq<int>|
                #[trigger] walk_from(ch, w, node as int) && w.len() == best + 1,
            forall|k: int, w: Seq<int>|
                0 <= k < i && #[trigger] walk_from(ch, w, children@[k] as int) ==> w.len() <= best,
        decreases children@.len() - i,
    {
        let c = children[i];
        proof {
            assert(ch[node as int]@[i as int] == c);
            assert(is_edge(ch, node as int, c as int));
            lemma_child_of_acyclic(ch, node as int, c as int);
        }
        let dc = compute_depth(c, children_map);
        proof {
            let wc = choose|w: Seq<int>| #[trigger] walk_from(ch, w, c as int) && w.len() == dc;
            lemma_prepend_walk(ch, node as int, wc);
            let x = seq![node as int] + wc;
            lemma_walk_len_bound(ch, x);
            if dc > best {
                assert(walk_from(ch, x, node as int) && x.len() == dc + 1);
            }
        }
        if dc > best {
            best = dc;
        }
        i = i + 1;
    }
    proof {
        assert forall|w: Seq<int>| #[trigger] walk_from(ch, w, node as int) implies w.len() <= best + 1 by {
            if w.len() > 1 {
                lemma_walk_tail(ch, w);
                let k = choose|k: int| 0 <= k < ch[node as int]@.len() && #[trigger] ch[node as int]@[k] as int == w[1];
                assert(walk_from(ch, w.drop_first(), children@[k] as int));
            }
        }
        let w0 = choose|w: Seq<int>| #[trigger] walk_from(ch, w, node as int) && w.len() == best + 1;
        lemma_walk_len_bound(ch, w0);
    }
    1 + best
}

/// The distinct values of `v` in ascending order.
pub fn sorted_distinct(v: &Vec<usize>) -> (r: Vec<usize>)
    ensures
        forall|a: int, b: int| 0 <= a < b < r@.len() ==> r@[a] < r@[b],
        forall|x: usize| r@.contains(x) <==> v@.contains(x),
{
    let mut r: Vec<usize> = Vec::new();
    let mut i: usize = 0;
    while i < v.len()
        invariant
            i <= v@.len(),
            forall|a: int, b: int| 0 <= a < b < r@.len() ==> r@[a] < r@[b],
            forall|x: usize| r@.contains(x) <==> v@.take(i as int).contains(x),
        decreases v@.len() - i,
    {
        let x = v[i];
        let mut p: usize = 0;
        while p < r.len() && r[p] < x
            invariant
                p <= r@.len(),
                forall|a: int| 0 <= a < p ==> r@[a] < x,
            decreases r@.len() - p,
        {
            p = p + 1;
        }
        let ghost old_r = r@;
        proof {
            assert(v@.take(i + 1) =~= v@.take(i as int).push(x));
            lemma_push_contains(v@.take(i as int), x);
        }
        if p < r.len() && r[p] == x {
            proof {
                assert forall|y: usize| r@.contains(y) <==> v@.take(i + 1).contains(y) by {
                    if y == x {
                        assert(r@[p as int] == x);
                    }
                }
            }
        } else {
            r.insert(p, x);
            proof {
                assert(r@ == old_r.insert(p as int, x));
                assert(forall|k: int| 0 <= k < p ==> r@[k] == old_r[k]);
                assert(r@[p as int] == x);
                assert(forall|k: int| p < k < r@.len() ==> r@[k] == old_r[k - 1]);
                assert forall|a: int, b: int| 0 <= a < b < r@.len() implies r@[a] < r@[b] by {
                    if b < p {
                    } else if a < p && b == p {
                    } else if a < p {
                        assert(old_r[a] < old_r[b - 1]);
                    } else if a == p {
                        assert(old_r[p as int] >= x);
                        if b - 1 > p {
                            assert(old_r[p as int] < old_r[b - 1]);
                        }
                    } else {
                        assert(old_r[a - 1] < old_r[b - 1]);
                    }
                }
                assert forall|y: usize| r@.contains(y) <==> v@.take(i + 1).contains(y) by {
                    if r@.contains(y) && y != x {
                        let k = choose|k: int| 0 <= k < r@.len() && r@[k] == y;
                        if k < p {
                            assert(old_r[k] == y);
                        } else {
                            assert(old_r[k - 1] == y);
                        }
                        assert(old_r.contains(y));
                    }
                    if old_r.contains(y) {
                        let k = choose|k: int| 0 <= k < old_r.len() && old_r[k] == y;
                        if k < p {
                            assert(r@[k] == y);
                        } else {
                            assert(r@[k + 1] == y);
                        }
                    }
                }
            }
        }
        i = i + 1;
    }
    proof {
        assert(v@.take(v@.len() as int) =~= v@);
    }
    r
}

proof fn lemma_push_contains<A>(s: Seq<A>, x: A)
    ensures
        forall|y: A| s.push(x).contains(y) <==> (s.contains(y) || y == x),
{
    assert forall|y: A| s.push(x).contains(y) <==> (s.contains(y) || y == x) by {
        if s.push(x).contains(y) {
            let k = choose|k: int| 0 <= k < s.len() + 1 && s.push(x)[k] == y;
            if k < s.len() {
                assert(s[k] == y);
            }
        }
        if s.contains(y) {
            let k = choose|k: int| 0 <= k < s.len() && s[k] == y;
            assert(s.push(x)[k] == y);
        }
        if y == x {
            assert(s.push(x)[s.len() as int] == y);
        }
    }
}

/// `ks` lists the children of `v`, each once, in ascending order.
pub open spec fn child_keys(ch: Seq<Vec<usize>>, v: int, ks: Seq<int>) -> bool {
    &&& forall|a: int, b: int| 0 <= a < b < ks.len() ==> ks[a] < ks[b]
    &&& forall|k: int| 0 <= k < ks.len() ==> #[trigger] is_edge(ch, v, ks[k])
    &&& forall|c: int| #[trigger] is_edge(ch, v, c) ==> ks.contains(c)
}

/// `t` is the tree below `v`: one entry per child of `v`, in ascending order of
/// the child, named by the child's label and holding the tree below the child.
pub open spec fn tree_at(ch: Seq<Vec<usize>>, labels: Seq<String>, t: JsonTree, v: int) -> bool
    decreases t,
{
    let e = t.entries@;
    exists|ks: Seq<int>|
        #[trigger] child_keys(ch, v, ks) && ks.len() == e.len() && forall|k: int|
            0 <= k < e.len() ==> e[k].0@ == labels[ks[k]]@ && tree_at(ch, labels, e[k].1, ks[k])
}

/// The tree below `node`, children in ascending order of position, which in
/// the label-sorted table `nodes` is label order.
pub fn build_children(node: usize, children_map: &Vec<Vec<usize>>, nodes: &Vec<String>) -> (t: JsonTree)
    requires
        graph_wf(children_map@),
        node < children_map@.len(),
        nodes@.len() == children_map@.len(),
        strictly_sorted(nodes@),
        acyclic_from(children_map@, node as int),
    ensures
        tree_at(children_map@, nodes@, t, node as int),
    decreases reach_set(children_map@, node as int).len(),
{
    let ghost ch = children_map@;
    let sorted = sorted_distinct(&children_map[node]);
    let ghost ks = sorted@.map_values(|c: usize| c as int);
    let mut map = index_map_new();
    let mut i: usize = 0;
    proof {
        assert forall|k: int| 0 <= k < sorted@.len() implies #[trigger] is_edge(ch, node as int, sorted@[k] as int) by {
            assert(ch[node as int]@.contains(sorted@[k]));
        }
        assert forall|a: int, b: int| 0 <= a < b < nodes@.len() implies nodes@[a]@ != nodes@[b]@ by {
            lemma_lex_irreflexive(nodes@[a]@);
        }
    }
    while i < sorted.len()
        invariant
            ch == children_map@,
            graph_wf(ch),
            node < ch.len(),
            nodes@.len() == ch.len(),
            strictly_sorted(nodes@),
            forall|a: int, b: int| 0 <= a < b < nodes@.len() ==> nodes@[a]@ != nodes@[b]@,
            acyclic_from(ch, node as int),
            i <= sorted@.len(),
            forall|a: int, b: int| 0 <= a < b < sorted@.len() ==> sorted@[a] < sorted@[b],
            index_map_entries(map).len() == i,
            forall|k: int| 0 <= k < sorted@.len() ==> #[trigger] is_edge(ch, node as int, sorted@[k] as int),
            forall|k: int|
                0 <= k < i ==> (#[trigger] index_map_entries(map)[k]).0 == nodes@[sorted@[k] as int]@ && tree_at(
                    ch,
                    nodes@,
                    index_map_entries(map)[k].1,
                    sorted@[k] as int,
                ),
        decreases sorted@.len() - i,
    {
        let c = sorted[i];
        proof {
            assert(is_edge(ch, node as int, c as int));
            assert((c as int) < ch.len()) by {
                let q = choose|q: int| 0 <= q < ch[node as int]@.len() && #[trigger] ch[node as int]@[q] as int == c as int;
            }
            lemma_child_of_acyclic(ch, node as int, c as int);
        }
        let sub = build_children(c, children_map, nodes);
        let ghost before = index_map_entries(map);
        proof {
            assert forall|k: int| 0 <= k < before.len() implies #[trigger] before[k].0 != nodes@[c as int]@ by {
                assert(sorted@[k] < sorted@[i as int]);
                assert((sorted@[k] as int) < ch.len()) by {
                    assert(is_edge(ch, node as int, sorted@[k] as int));
                    let q = choose|q: int| 0 <= q < ch[node as int]@.len() && #[trigger] ch[node as int]@[q] as int == sorted@[k] as int;
                }
            }
        }
        let _ = index_map_insert(&mut map, nodes[c].clone(), sub);
        proof {
            let after = index_map_entries(map);
            assert(after == before.push((nodes@[c as int]@, sub)));
            assert forall|k: int| 0 <= k < i + 1 implies (#[trigger] index_map_entries(map)[k]).0
                == nodes@[sorted@[k] as int]@ && tree_at(ch, nodes@, index_map_entries(map)[k].1, sorted@[k] as int) by {
                if k < i {
                    assert(after[k] == before[k]);
                }
            }
        }
        i = i + 1;
    }
    let ghost fin = index_map_entries(map);
    let entries = index_map_into_entries(map);
    let t = JsonTree { entries };
    proof {
        let e = t.entries@;
        assert(child_keys(ch, node as int, ks)) by {
            assert forall|cc: int| #[trigger] is_edge(ch, node as int, cc) implies ks.contains(cc) by {
                let k = choose|k: int| 0 <= k < ch[node as int]@.len() && #[trigger] ch[node as int]@[k] as int == cc;
                assert(ch[node as int]@.contains(ch[node as int]@[k]));
                assert(sorted@.contains(cc as usize));
                let q = choose|q: int| 0 <= q < sorted@.len() && sorted@[q] == cc as usize;
                assert(ks[q] == cc);
            }
            assert forall|k: int| 0 <= k < ks.len() implies #[trigger] is_edge(ch, node as int, ks[k]) by {
                assert(is_edge(ch, node as int, sorted@[k] as int));
            }
        }
        assert forall|k: int|
            0 <= k < e.len() implies e[k].0@ == nodes@[ks[k]]@ && tree_at(ch, nodes@, e[k].1, ks[k]) by {
            assert(fin[k].0 == nodes@[sorted@[k] as int]@);
        }
    }
    t
}

/// The tree of a hierarchy: `{ root: <tree below root> }`.
pub fn build_tree(root: usize, children_map: &Vec<Vec<usize>>, nodes: &Vec<String>) -> (t: JsonTree)
    requires
        graph_wf(children_map@),
        root < children_map@.len(),
        nodes@.len() == children_map@.len(),
        strictly_sorted(nodes@),
        acyclic_from(children_map@, root as int),
    ensures
        t.entries@.len() == 1,
        t.entries@[0].0@ == nodes@[root as int]@,
        tree_at(children_map@, nodes@, t.entries@[0].1, root as int),
{
    let mut outer = index_map_new();
    let sub = build_children(root, children_map, nodes);
    let _ = index_map_insert(&mut outer, nodes[root].clone(), sub);
    let entries = index_map_into_entries(outer);
    JsonTree { entries }
}

} // verus!
