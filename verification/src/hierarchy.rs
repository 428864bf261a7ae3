//! Hierarchies of a list of labelled edges `(parent, child)`: the nodes fall
//! into connected groups; in each group a node keeps only the first parent
//! that the list gives it, and the group is shown from one root, as a tree or,
//! where a cycle can be reached from the root, as a cycle.
use vstd::prelude::*;
use crate::graph::{
    graph_wf, is_edge, step, is_walk, walk_from, cycle_reachable, child_keys, tree_at,
    detect_cycle, compute_depth, build_tree,
};
use crate::labels::{
    lex_lt, views, strictly_sorted, lemma_sorted_index_order, lemma_views_contains, insert_label,
    index_of,
};
use crate::models::{HierarchyObject, JsonTree};
use crate::union_find::UnionFind;

verus! {

/// Edges given by their labels.
pub type LabelEdges = Seq<(Seq<char>, Seq<char>)>;

/// The labels of a list of string edges.
pub open spec fn edge_labels(e: Seq<(String, String)>) -> LabelEdges {
    e.map_values(|p: (String, String)| (p.0@, p.1@))
}

/// `x` is the parent or the child of edge `i`.
pub open spec fn endpoint(l: LabelEdges, i: int, x: Seq<char>) -> bool {
    l[i].0 == x || l[i].1 == x
}

/// The labels of the nodes of `l`.
pub open spec fn node_set(l: LabelEdges) -> Set<Seq<char>> {
    Set::new(|x: Seq<char>| is_node(l, x))
}

/// `x` is the parent or the child of some edge.
pub open spec fn is_node(l: LabelEdges, x: Seq<char>) -> bool {
    exists|i: int| 0 <= i < l.len() && #[trigger] endpoint(l, i, x)
}

/// Some edge has `c` as its child.
pub open spec fn has_parent(l: LabelEdges, c: Seq<char>) -> bool {
    exists|i: int| 0 <= i < l.len() && #[trigger] l[i].1 == c
}

/// Edge `i` is the first edge into its child.
pub open spec fn first_into(l: LabelEdges, i: int) -> bool {
    forall|j: int| 0 <= j < i ==> #[trigger] l[j].1 != l[i].1
}

/// `p -> c` is kept: the first edge into `c` comes from `p`. A node keeps
/// its first parent; later edges into it are dropped from the trees.
pub open spec fn kept(l: LabelEdges, p: Seq<char>, c: Seq<char>) -> bool {
    exists|i: int| 0 <= i < l.len() && #[trigger] l[i] == (p, c) && first_into(l, i)
}

/// Some edge joins `a` and `b`, in either direction.
pub open spec fn joined(l: LabelEdges, a: Seq<char>, b: Seq<char>) -> bool {
    exists|i: int| 0 <= i < l.len() && (#[trigger] l[i] == (a, b) || l[i] == (b, a))
}

pub open spec fn chain_step(l: LabelEdges, z: Seq<Seq<char>>, i: int) -> bool {
    joined(l, z[i], z[i + 1])
}

/// `z` leads from `a` to `b`, each label joined to the next by an edge.
pub open spec fn chain_from(l: LabelEdges, z: Seq<Seq<char>>, a: Seq<char>, b: Seq<char>) -> bool {
    &&& z.len() > 0
    &&& z[0] == a
    &&& z.last() == b
    &&& forall|i: int| 0 <= i < z.len() - 1 ==> #[trigger] chain_step(l, z, i)
}

/// `a` and `b` are in the same connected group (edges taken in both directions,
/// dropped ones included).
pub open spec fn connected(l: LabelEdges, a: Seq<char>, b: Seq<char>) -> bool {
    exists|z: Seq<Seq<char>>| #[trigger] chain_from(l, z, a, b)
}

pub proof fn lemma_connected_refl(l: LabelEdges, a: Seq<char>)
    ensures
        connected(l, a, a),
{
    assert(chain_from(l, seq![a], a, a));
}

pub proof fn lemma_connected_edge(l: LabelEdges, i: int)
    requires
        0 <= i < l.len(),
    ensures
        connected(l, l[i].0, l[i].1),
        connected(l, l[i].1, l[i].0),
{
    let z = seq![l[i].0, l[i].1];
    assert(chain_step(l, z, 0));
    assert(chain_from(l, z, l[i].0, l[i].1));
    let z2 = seq![l[i].1, l[i].0];
    assert(chain_step(l, z2, 0));
    assert(chain_from(l, z2, l[i].1, l[i].0));
}

pub proof fn lemma_connected_sym(l: LabelEdges, a: Seq<char>, b: Seq<char>)
    requires
        connected(l, a, b),
    ensures
        connected(l, b, a),
{
    let z = choose|z: Seq<Seq<char>>| #[trigger] chain_from(l, z, a, b);
    let r = z.reverse();
    assert forall|i: int| 0 <= i < r.len() - 1 implies #[trigger] chain_step(l, r, i) by {
        let j = z.len() - 2 - i;
        assert(chain_step(l, z, j));
        let e = choose|e: int| 0 <= e < l.len() && (#[trigger] l[e] == (z[j], z[j + 1]) || l[e] == (z[j + 1], z[j]));
        assert(r[i] == z[j + 1] && r[i + 1] == z[j]);
    }
    assert(chain_from(l, r, b, a));
}

pub proof fn lemma_connected_trans(l: LabelEdges, a: Seq<char>, b: Seq<char>, c: Seq<char>)
    requires
        connected(l, a, b),
        connected(l, b, c),
    ensures
        connected(l, a, c),
{
    let z1 = choose|z: Seq<Seq<char>>| #[trigger] chain_from(l, z, a, b);
    let z2 = choose|z: Seq<Seq<char>>| #[trigger] chain_from(l, z, b, c);
    let z = z1 + z2.drop_first();
    assert forall|i: int| 0 <= i < z.len() - 1 implies #[trigger] chain_step(l, z, i) by {
        if i < z1.len() - 1 {
            assert(chain_step(l, z1, i));
        } else {
            let j = i - z1.len() + 1;
            assert(chain_step(l, z2, j));
            assert(z[i] == z2[j]);
            assert(z[i + 1] == z2[j + 1]);
        }
    }
    assert(chain_from(l, z, a, c));
}

/// Adding an edge keeps every connection.
pub proof fn lemma_connected_mono(l: LabelEdges, e: (Seq<char>, Seq<char>), a: Seq<char>, b: Seq<char>)
    requires
        connected(l, a, b),
    ensures
        connected(l.push(e), a, b),
{
    let z = choose|z: Seq<Seq<char>>| #[trigger] chain_from(l, z, a, b);
    let l2 = l.push(e);
    assert forall|i: int| 0 <= i < z.len() - 1 implies #[trigger] chain_step(l2, z, i) by {
        assert(chain_step(l, z, i));
        let k = choose|k: int| 0 <= k < l.len() && (#[trigger] l[k] == (z[i], z[i + 1]) || l[k] == (z[i + 1], z[i]));
        assert(l2[k] == l[k]);
    }
    assert(chain_from(l2, z, a, b));
}

/// After adding the edge `x -- y`, `a` and `b` are connected exactly when they
/// were, or one was connected to `x` and the other to `y`.
pub proof fn lemma_connected_push(l: LabelEdges, x: Seq<char>, y: Seq<char>, a: Seq<char>, b: Seq<char>)
    ensures
        connected(l.push((x, y)), a, b) <==> (connected(l, a, b) || (connected(l, a, x) && connected(
            l,
            y,
            b,
        )) || (connected(l, a, y) && connected(l, x, b))),
{
    let l2 = l.push((x, y));
    if connected(l2, a, b) {
        let z = choose|z: Seq<Seq<char>>| #[trigger] chain_from(l2, z, a, b);
        lemma_connected_push_chain(l, x, y, z, a, b);
    }
    lemma_connected_edge(l2, l.len() as int);
    assert(l2[l.len() as int] == (x, y));
    if connected(l, a, b) {
        lemma_connected_mono(l, (x, y), a, b);
    }
    if connected(l, a, x) && connected(l, y, b) {
        lemma_connected_mono(l, (x, y), a, x);
        lemma_connected_mono(l, (x, y), y, b);
        lemma_connected_trans(l2, a, x, y);
        lemma_connected_trans(l2, a, y, b);
    }
    if connected(l, a, y) && connected(l, x, b) {
        lemma_connected_mono(l, (x, y), a, y);
        lemma_connected_mono(l, (x, y), x, b);
        lemma_connected_trans(l2, a, y, x);
        lemma_connected_trans(l2, a, x, b);
    }
}

proof fn lemma_connected_push_chain(
    l: LabelEdges,
    x: Seq<char>,
    y: Seq<char>,
    z: Seq<Seq<char>>,
    a: Seq<char>,
    b: Seq<char>,
)
    requires
        chain_from(l.push((x, y)), z, a, b),
    ensures
        connected(l, a, b) || (connected(l, a, x) && connected(l, y, b)) || (connected(l, a, y)
            && connected(l, x, b)),
    decreases z.len(),
{
    let l2 = l.push((x, y));
    if z.len() == 1 {
        lemma_connected_refl(l, a);
    } else {
        let z1 = z[1];
        let t = z.drop_first();
        assert forall|i: int| 0 <= i < t.len() - 1 implies #[trigger] chain_step(l2, t, i) by {
            assert(chain_step(l2, z, i + 1));
        }
        assert(chain_from(l2, t, z1, b));
        lemma_connected_push_chain(l, x, y, t, z1, b);
        assert(chain_step(l2, z, 0));
        let k = choose|k: int| 0 <= k < l2.len() && (#[trigger] l2[k] == (z[0], z[1]) || l2[k] == (z[1], z[0]));
        lemma_connected_refl(l, a);
        if k < l.len() {
            assert(l[k] == l2[k]);
            lemma_connected_edge(l, k);
            assert(connected(l, a, z1));
            if connected(l, z1, b) {
                lemma_connected_trans(l, a, z1, b);
            }
            if connected(l, z1, x) && connected(l, y, b) {
                lemma_connected_trans(l, a, z1, x);
            }
            if connected(l, z1, y) && connected(l, x, b) {
                lemma_connected_trans(l, a, z1, y);
            }
        } else {
            assert(l2[k] == (x, y));
            if a == x {
                assert(z1 == y);
                if connected(l, z1, x) && connected(l, y, b) {
                    lemma_connected_sym(l, z1, x);
                    lemma_connected_trans(l, a, y, b);
                }
            } else {
                assert(a == y && z1 == x);
                if connected(l, z1, y) && connected(l, x, b) {
                    lemma_connected_sym(l, z1, y);
                    lemma_connected_trans(l, a, x, b);
                }
            }
        }
    }
}


/// The sorted table of the node labels of `valid_edges`.
fn collect_nodes(valid_edges: &[(String, String)]) -> (nodes: Vec<String>)
    ensures
        strictly_sorted(nodes@),
        forall|x: Seq<char>| views(nodes@).contains(x) <==> is_node(edge_labels(valid_edges@), x),
{
    let ghost l = edge_labels(valid_edges@);
    let mut nodes: Vec<String> = Vec::new();
    let mut k: usize = 0;
    while k < valid_edges.len()
        invariant
            l == edge_labels(valid_edges@),
            k <= valid_edges@.len(),
            strictly_sorted(nodes@),
            forall|x: Seq<char>|
                views(nodes@).contains(x) <==> exists|i: int| 0 <= i < k && #[trigger] endpoint(l, i, x),
        decreases valid_edges@.len() - k,
    {
        let ghost before = nodes@;
        insert_label(&mut nodes, &valid_edges[k].0);
        insert_label(&mut nodes, &valid_edges[k].1);
        proof {
            lemma_views_contains(before);
            lemma_views_contains(nodes@);
            assert(l[k as int] == (valid_edges@[k as int].0@, valid_edges@[k as int].1@));
            assert forall|x: Seq<char>|
                views(nodes@).contains(x) <==> exists|i: int| 0 <= i < k + 1 && #[trigger] endpoint(l, i, x) by {
                if exists|i: int| 0 <= i < k + 1 && #[trigger] endpoint(l, i, x) {
                    let i = choose|i: int| 0 <= i < k + 1 && #[trigger] endpoint(l, i, x);
                    if i < k {
                        assert(views(before).contains(x));
                    }
                }
                if views(before).contains(x) {
                    let i = choose|i: int| 0 <= i < k && #[trigger] endpoint(l, i, x);
                    assert(0 <= i < k + 1 && endpoint(l, i, x));
                }
                if x == l[k as int].0 || x == l[k as int].1 {
                    assert(endpoint(l, k as int, x));
                }
            }
        }
        k = k + 1;
    }
    proof {
        assert forall|x: Seq<char>| views(nodes@).contains(x) <==> is_node(l, x) by {
            if is_node(l, x) {
                let i = choose|i: int| 0 <= i < l.len() && #[trigger] endpoint(l, i, x);
            }
            if views(nodes@).contains(x) {
                let i = choose|i: int| 0 <= i < k && #[trigger] endpoint(l, i, x);
            }
        }
    }
    nodes
}

/// A strictly sorted table has no repeated label.
proof fn lemma_sorted_no_dup(v: Seq<String>)
    requires
        strictly_sorted(v),
    ensures
        views(v).no_duplicates(),
{
    lemma_views_contains(v);
    assert forall|i: int, j: int| 0 <= i < views(v).len() && 0 <= j < views(v).len() && i != j implies views(v)[i]
        != views(v)[j] by {
        lemma_sorted_index_order(v, i, j);
    }
}

/// The node positions of the edges, the kept parent of each node (`n` for none),
/// and the kept children of each node in the order of their edges.
fn kept_parents(valid_edges: &[(String, String)], nodes: &Vec<String>) -> (out: (
    Vec<(usize, usize)>,
    Vec<usize>,
    Vec<Vec<usize>>,
))
    requires
        strictly_sorted(nodes@),
        forall|x: Seq<char>| views(nodes@).contains(x) <==> is_node(edge_labels(valid_edges@), x),
    ensures
        ({
            let (eidx, par, children) = out;
            let l = edge_labels(valid_edges@);
            let n = nodes@.len();
            &&& eidx@.len() == l.len()
            &&& forall|i: int|
                0 <= i < l.len() ==> (#[trigger] eidx@[i]).0 < n && eidx@[i].1 < n && nodes@[eidx@[i].0 as int]@
                    == l[i].0 && nodes@[eidx@[i].1 as int]@ == l[i].1
            &&& par@.len() == n
            &&& children@.len() == n
            &&& graph_wf(children@)
            &&& forall|c: int| 0 <= c < n ==> (#[trigger] par@[c] == n <==> !has_parent(l, nodes@[c]@))
            &&& forall|c: int| 0 <= c < n ==> #[trigger] par@[c] <= n
            &&& forall|p: int, c: int|
                0 <= p < n && 0 <= c < n ==> (#[trigger] is_edge(children@, p, c) <==> kept(
                    l,
                    nodes@[p]@,
                    nodes@[c]@,
                ))
            &&& forall|p: int, c: int|
                0 <= p < n && 0 <= c < n ==> (#[trigger] is_edge(children@, p, c) <==> par@[c] == p)
        }),
{
    let ghost l = edge_labels(valid_edges@);
    let n = nodes.len();
    let mut par: Vec<usize> = Vec::new();
    let mut children: Vec<Vec<usize>> = Vec::new();
    let mut j: usize = 0;
    while j < n
        invariant
            j <= n,
            n == nodes@.len(),
            par@.len() == j,
            children@.len() == j,
            forall|c: int| 0 <= c < j ==> par@[c] == n,
            forall|c: int| 0 <= c < j ==> (#[trigger] children@[c])@.len() == 0,
        decreases n - j,
    {
        par.push(n);
        children.push(Vec::new());
        j = j + 1;
    }
    proof {
        lemma_views_contains(nodes@);
    }
    let mut eidx: Vec<(usize, usize)> = Vec::new();
    let mut k: usize = 0;
    while k < valid_edges.len()
        invariant
            l == edge_labels(valid_edges@),
            n == nodes@.len(),
            strictly_sorted(nodes@),
            forall|x: Seq<char>| views(nodes@).contains(x) <==> is_node(l, x),
            views(nodes@).len() == nodes@.len(),
            forall|q: int| 0 <= q < nodes@.len() ==> #[trigger] views(nodes@)[q] == nodes@[q]@,
            k <= valid_edges@.len(),
            eidx@.len() == k,
            forall|i: int|
                0 <= i < k ==> (#[trigger] eidx@[i]).0 < n && eidx@[i].1 < n && nodes@[eidx@[i].0 as int]@
                    == l[i].0 && nodes@[eidx@[i].1 as int]@ == l[i].1,
            par@.len() == n,
            children@.len() == n,
            forall|c: int| 0 <= c < n ==> #[trigger] par@[c] <= n,
            forall|c: int|
                0 <= c < n ==> (#[trigger] par@[c] == n <==> forall|i: int| 0 <= i < k ==> #[trigger] l[i].1 != nodes@[c]@),
            forall|c: int|
                0 <= c < n && #[trigger] par@[c] < n ==> exists|i: int|
                    0 <= i < k && #[trigger] l[i] == (nodes@[par@[c] as int]@, nodes@[c]@) && first_into(l, i),
            forall|p: int, q: int|
                0 <= p < n && 0 <= q < children@[p]@.len() ==> (#[trigger] children@[p]@[q] as int) < n
                    && par@[children@[p]@[q] as int] == p,
            forall|c: int| 0 <= c < n && #[trigger] par@[c] < n ==> children@[par@[c] as int]@.contains(c as usize),
        decreases valid_edges@.len() - k,
    {
        proof {
            assert(l[k as int] == (valid_edges@[k as int].0@, valid_edges@[k as int].1@));
            assert(endpoint(l, k as int, l[k as int].0));
            assert(endpoint(l, k as int, l[k as int].1));
            assert(is_node(l, l[k as int].0));
            assert(is_node(l, l[k as int].1));
            assert(views(nodes@).contains(l[k as int].0));
            assert(views(nodes@).contains(l[k as int].1));
        }
        let pi = index_of(nodes, &valid_edges[k].0);
        let ci = index_of(nodes, &valid_edges[k].1);
        eidx.push((pi, ci));
        let ghost par0 = par@;
        let ghost ch0 = children@;
        if par[ci] == n {
            par.set(ci, pi);
            let mut row = children[pi].clone();
            row.push(ci);
            children.set(pi, row);
            proof {
                assert(first_into(l, k as int)) by {
                    assert forall|i: int| 0 <= i < k implies #[trigger] l[i].1 != l[k as int].1 by {
                        assert(l[i].1 != nodes@[ci as int]@);
                    }
                }
            }
        }
        proof {
            assert forall|c: int| 0 <= c < n implies (#[trigger] par@[c] == n <==> forall|i: int|
                0 <= i < k + 1 ==> #[trigger] l[i].1 != nodes@[c]@) by {
                if c != ci {
                    lemma_sorted_index_order(nodes@, c, ci as int);
                }
            }
            assert forall|c: int| 0 <= c < n && #[trigger] par@[c] < n implies exists|i: int|
                0 <= i < k + 1 && #[trigger] l[i] == (nodes@[par@[c] as int]@, nodes@[c]@) && first_into(l, i) by {
                if c == ci && par0[c] == n {
                    assert(l[k as int] == (nodes@[par@[c] as int]@, nodes@[c]@));
                } else {
                    assert(par@[c] == par0[c]);
                }
            }
            assert forall|p: int, q: int|
                0 <= p < n && 0 <= q < children@[p]@.len() implies (#[trigger] children@[p]@[q] as int) < n
                && par@[children@[p]@[q] as int] == p by {
                if par0[ci as int] == n && p == pi {
                    if q < ch0[p]@.len() {
                        assert(children@[p]@[q] == ch0[p]@[q]);
                        assert(ch0[p]@[q] != ci) by {
                            assert(par0[ch0[p]@[q] as int] == p);
                        }
                    }
                } else {
                    assert(children@[p] == ch0[p]);
                    if par0[ci as int] == n {
                        assert(ch0[p]@[q] != ci) by {
                            assert(par0[ch0[p]@[q] as int] == p);
                        }
                    }
                }
            }
            assert forall|c: int| 0 <= c < n && #[trigger] par@[c] < n implies children@[par@[c] as int]@.contains(
                c as usize,
            ) by {
                if par0[ci as int] == n {
                    if c == ci {
                        assert(children@[pi as int]@.last() == ci);
                    } else {
                        assert(par@[c] == par0[c]);
                        let pc = par0[c] as int;
                        assert(ch0[pc]@.contains(c as usize));
                        let q = choose|q: int| 0 <= q < ch0[pc]@.len() && ch0[pc]@[q] == c as usize;
                        assert(children@[pc]@[q] == c as usize);
                    }
                } else {
                    assert(par@[c] == par0[c]);
                }
            }
        }
        k = k + 1;
    }
    proof {
        assert(graph_wf(children@)) by {
            assert forall|p: int, q: int| 0 <= p < children@.len() && 0 <= q < children@[p]@.len() implies (
            #[trigger] children@[p]@[q] as int) < children@.len() by {
                assert((children@[p]@[q] as int) < n);
            }
        }
        assert forall|c: int| 0 <= c < n implies (#[trigger] par@[c] == n <==> !has_parent(l, nodes@[c]@)) by {
            if has_parent(l, nodes@[c]@) {
                let i = choose|i: int| 0 <= i < l.len() && #[trigger] l[i].1 == nodes@[c]@;
            }
        }
        assert forall|p: int, c: int| 0 <= p < n && 0 <= c < n implies (#[trigger] is_edge(children@, p, c) <==> par@[c]
            == p) by {
            if is_edge(children@, p, c) {
                let q = choose|q: int| 0 <= q < children@[p]@.len() && #[trigger] children@[p]@[q] as int == c;
            }
            if par@[c] == p {
                assert(children@[p]@.contains(c as usize));
                let q = choose|q: int| 0 <= q < children@[p]@.len() && children@[p]@[q] == c as usize;
                assert(children@[p]@[q] as int == c);
            }
        }
        assert forall|p: int, c: int| 0 <= p < n && 0 <= c < n implies (#[trigger] is_edge(children@, p, c) <==> kept(
            l,
            nodes@[p]@,
            nodes@[c]@,
        )) by {
            if par@[c] == p {
                let i = choose|i: int|
                    0 <= i < l.len() && #[trigger] l[i] == (nodes@[par@[c] as int]@, nodes@[c]@) && first_into(l, i);
                assert(kept(l, nodes@[p]@, nodes@[c]@));
            }
            if kept(l, nodes@[p]@, nodes@[c]@) {
                let i = choose|i: int| 0 <= i < l.len() && #[trigger] l[i] == (nodes@[p]@, nodes@[c]@) && first_into(l, i);
                assert(l[i].1 == nodes@[c]@);
                assert(has_parent(l, nodes@[c]@));
                assert(par@[c] != n);
                let i2 = choose|i2: int|
                    0 <= i2 < l.len() && #[trigger] l[i2] == (nodes@[par@[c] as int]@, nodes@[c]@) && first_into(l, i2);
                if i < i2 {
                    assert(l[i].1 == l[i2].1);
                } else if i2 < i {
                    assert(l[i2].1 == l[i].1);
                }
                lemma_sorted_index_order(nodes@, p, par@[c] as int);
            }
        }
    }
    (eidx, par, children)
}

/// A union that joins `pi` and `ci` turns a partition into the groups of `l0`
/// into the groups of `l0` plus the edge between their labels.
proof fn lemma_union_connects(
    o: UnionFind,
    u: UnionFind,
    l0: LabelEdges,
    nodes: Seq<String>,
    pi: int,
    ci: int,
)
    requires
        o.len() == nodes.len(),
        0 <= pi < nodes.len(),
        0 <= ci < nodes.len(),
        forall|i: int, j: int|
            0 <= i < nodes.len() && 0 <= j < nodes.len() ==> (#[trigger] o.same(i, j) <==> connected(
                l0,
                nodes[i]@,
                nodes[j]@,
            )),
        forall|i: int, j: int|
            0 <= i < nodes.len() && 0 <= j < nodes.len() ==> (#[trigger] u.same(i, j) <==> (o.same(i, j) || (
            o.same(i, pi) && o.same(ci, j)) || (o.same(i, ci) && o.same(pi, j)))),
    ensures
        forall|i: int, j: int|
            0 <= i < nodes.len() && 0 <= j < nodes.len() ==> (#[trigger] u.same(i, j) <==> connected(
                l0.push((nodes[pi]@, nodes[ci]@)),
                nodes[i]@,
                nodes[j]@,
            )),
{
    assert forall|i: int, j: int| 0 <= i < nodes.len() && 0 <= j < nodes.len() implies (#[trigger] u.same(i, j)
        <==> connected(l0.push((nodes[pi]@, nodes[ci]@)), nodes[i]@, nodes[j]@)) by {
        lemma_connected_push(l0, nodes[pi]@, nodes[ci]@, nodes[i]@, nodes[j]@);
        assert(o.same(i, j) <==> connected(l0, nodes[i]@, nodes[j]@));
        assert(o.same(i, pi) <==> connected(l0, nodes[i]@, nodes[pi]@));
        assert(o.same(ci, j) <==> connected(l0, nodes[ci]@, nodes[j]@));
        assert(o.same(i, ci) <==> connected(l0, nodes[i]@, nodes[ci]@));
        assert(o.same(pi, j) <==> connected(l0, nodes[pi]@, nodes[j]@));
    }
}

/// For every node, the representative of its group: two nodes get the same
/// representative exactly when they are connected.
fn group_reps(
    eidx: &Vec<(usize, usize)>,
    par: &Vec<usize>,
    n: usize,
    Ghost(l): Ghost<LabelEdges>,
    Ghost(nodes): Ghost<Seq<String>>,
) -> (reps: Vec<usize>)
    requires
        nodes.len() == n,
        strictly_sorted(nodes),
        par@.len() == n,
        eidx@.len() == l.len(),
        forall|i: int|
            0 <= i < l.len() ==> (#[trigger] eidx@[i]).0 < n && eidx@[i].1 < n && nodes[eidx@[i].0 as int]@
                == l[i].0 && nodes[eidx@[i].1 as int]@ == l[i].1,
    ensures
        reps@.len() == n,
        forall|i: int| 0 <= i < n ==> #[trigger] reps@[i] < n,
        forall|i: int, j: int|
            0 <= i < n && 0 <= j < n ==> (#[trigger] reps@[i] == #[trigger] reps@[j] <==> connected(
                l,
                nodes[i]@,
                nodes[j]@,
            )),
{
    let mut uf = UnionFind::new(n);
    proof {
        assert forall|i: int, j: int| 0 <= i < n && 0 <= j < n implies (#[trigger] uf.same(i, j) <==> connected(
            l.take(0),
            nodes[i]@,
            nodes[j]@,
        )) by {
            lemma_connected_refl(l.take(0), nodes[i]@);
            if connected(l.take(0), nodes[i]@, nodes[j]@) {
                let z = choose|z: Seq<Seq<char>>| #[trigger] chain_from(l.take(0), z, nodes[i]@, nodes[j]@);
                if z.len() > 1 {
                    assert(chain_step(l.take(0), z, 0));
                }
                assert(nodes[i]@ == nodes[j]@);
                assert(uf.rep_of(i) == i && uf.rep_of(j) == j);
                lemma_sorted_index_order(nodes, i, j);
            }
        }
    }
    let mut k: usize = 0;
    while k < eidx.len()
        invariant
            nodes.len() == n,
            par@.len() == n,
            eidx@.len() == l.len(),
            forall|i: int|
                0 <= i < l.len() ==> (#[trigger] eidx@[i]).0 < n && eidx@[i].1 < n && nodes[eidx@[i].0 as int]@
                    == l[i].0 && nodes[eidx@[i].1 as int]@ == l[i].1,
            k <= l.len(),
            uf.wf(),
            uf.len() == n,
            forall|i: int, j: int|
                0 <= i < n && 0 <= j < n ==> (#[trigger] uf.same(i, j) <==> connected(
                    l.take(k as int),
                    nodes[i]@,
                    nodes[j]@,
                )),
        decreases l.len() - k,
    {
        let (pi, ci) = eidx[k];
        proof {
            assert(l.take(k + 1) =~= l.take(k as int).push((nodes[pi as int]@, nodes[ci as int]@)));
        }
        let ghost u0 = uf;
        if par[ci] == pi {
            uf.union(pi, ci);
            proof {
                lemma_union_connects(u0, uf, l.take(k as int), nodes, pi as int, ci as int);
            }
        }
        let ghost u1 = uf;
        uf.union(pi, ci);
        proof {
            if par@[ci as int] == pi {
                assert(u1.same(pi as int, ci as int));
                assert forall|i: int, j: int| 0 <= i < n && 0 <= j < n implies (#[trigger] uf.same(i, j)
                    <==> connected(l.take(k + 1), nodes[i]@, nodes[j]@)) by {
                    assert(u1.same(i, j) <==> connected(l.take(k + 1), nodes[i]@, nodes[j]@));
                }
            } else {
                lemma_union_connects(u1, uf, l.take(k as int), nodes, pi as int, ci as int);
            }
        }
        k = k + 1;
    }
    let ghost u0 = uf;
    let mut reps: Vec<usize> = Vec::new();
    let mut i: usize = 0;
    while i < n
        invariant
            uf.wf(),
            uf.len() == n,
            u0.len() == n,
            forall|j: int| 0 <= j < n ==> #[trigger] uf.rep_of(j) == u0.rep_of(j),
            i <= n,
            reps@.len() == i,
            forall|j: int| 0 <= j < i ==> #[trigger] reps@[j] == u0.rep_of(j) && reps@[j] < n,
        decreases n - i,
    {
        let r = uf.find(i);
        proof {
            assert(uf.rep_of(i as int) == u0.rep_of(i as int));
        }
        reps.push(r);
        i = i + 1;
    }
    proof {
        assert(l.take(l.len() as int) =~= l);
        assert forall|i: int, j: int| 0 <= i < n && 0 <= j < n implies (#[trigger] reps@[i] == #[trigger] reps@[j]
            <==> connected(l, nodes[i]@, nodes[j]@)) by {
            assert(u0.same(i, j) <==> connected(l, nodes[i]@, nodes[j]@));
        }
    }
    reps
}

/// `p -> c` is kept for position `i` of `w`.
pub open spec fn kept_step(l: LabelEdges, w: Seq<Seq<char>>, i: int) -> bool {
    kept(l, w[i], w[i + 1])
}

/// `w` starts at `s` and follows kept edges from parent to child.
pub open spec fn kept_walk(l: LabelEdges, w: Seq<Seq<char>>, s: Seq<char>) -> bool {
    &&& w.len() > 0
    &&& w[0] == s
    &&& forall|i: int| 0 <= i < w.len() - 1 ==> #[trigger] kept_step(l, w, i)
}

/// Following kept edges from `s` can visit a node twice.
pub open spec fn reaches_cycle(l: LabelEdges, s: Seq<char>) -> bool {
    exists|w: Seq<Seq<char>>| #[trigger] kept_walk(l, w, s) && !w.no_duplicates()
}

/// `d` is the number of nodes on the longest kept walk from `s`.
pub open spec fn is_depth(l: LabelEdges, s: Seq<char>, d: int) -> bool {
    &&& exists|w: Seq<Seq<char>>| #[trigger] kept_walk(l, w, s) && w.len() == d
    &&& forall|w: Seq<Seq<char>>| #[trigger] kept_walk(l, w, s) ==> w.len() <= d
}

/// `t` is the tree below `v`: one entry for each kept child of `v`, in label
/// order, each holding the tree below that child.
pub open spec fn subtree_of(l: LabelEdges, t: JsonTree, v: Seq<char>) -> bool
    decreases t,
{
    let e = t.entries@;
    &&& forall|a: int, b: int| 0 <= a < b < e.len() ==> lex_lt(#[trigger] e[a].0@, #[trigger] e[b].0@)
    &&& forall|k: int| 0 <= k < e.len() ==> kept(l, v, #[trigger] e[k].0@)
    &&& forall|c: Seq<char>| #[trigger] kept(l, v, c) ==> exists|k: int| 0 <= k < e.len() && #[trigger] e[k].0@ == c
    &&& forall|k: int| 0 <= k < e.len() ==> subtree_of(l, #[trigger] e[k].1, e[k].0@)
}

/// The table `nodes` and the child lists `ch` describe the nodes and the kept
/// edges of `l` by position.
pub open spec fn represents(l: LabelEdges, nodes: Seq<String>, ch: Seq<Vec<usize>>) -> bool {
    &&& ch.len() == nodes.len()
    &&& graph_wf(ch)
    &&& strictly_sorted(nodes)
    &&& forall|x: Seq<char>| views(nodes).contains(x) <==> is_node(l, x)
    &&& forall|p: int, c: int|
        0 <= p < nodes.len() && 0 <= c < nodes.len() ==> (#[trigger] is_edge(ch, p, c) <==> kept(
            l,
            nodes[p]@,
            nodes[c]@,
        ))
}

/// The labels of a sequence of positions.
pub open spec fn labels_of(nodes: Seq<String>, w: Seq<int>) -> Seq<Seq<char>> {
    w.map_values(|j: int| nodes[j]@)
}

/// The position of label `x` in the table.
pub open spec fn position(nodes: Seq<String>, x: Seq<char>) -> int {
    choose|j: int| 0 <= j < nodes.len() && nodes[j]@ == x
}

proof fn lemma_kept_nodes(l: LabelEdges, a: Seq<char>, b: Seq<char>)
    requires
        kept(l, a, b),
    ensures
        is_node(l, a),
        is_node(l, b),
{
    let i = choose|i: int| 0 <= i < l.len() && #[trigger] l[i] == (a, b) && first_into(l, i);
    assert(endpoint(l, i, a));
    assert(endpoint(l, i, b));
}

proof fn lemma_position(l: LabelEdges, nodes: Seq<String>, ch: Seq<Vec<usize>>, x: Seq<char>)
    requires
        represents(l, nodes, ch),
        is_node(l, x),
    ensures
        0 <= position(nodes, x) < nodes.len(),
        nodes[position(nodes, x)]@ == x,
        forall|j: int| 0 <= j < nodes.len() && nodes[j]@ == x ==> j == position(nodes, x),
{
    lemma_views_contains(nodes);
    assert(views(nodes).contains(x));
    let k = choose|k: int| 0 <= k < nodes.len() && #[trigger] nodes[k]@ == x;
    assert(nodes[k]@ == x);
    let p = position(nodes, x);
    assert forall|j: int| 0 <= j < nodes.len() && nodes[j]@ == x implies j == p by {
        lemma_sorted_index_order(nodes, j, p);
    }
}

/// A walk by positions is a kept walk by labels, and repeats a node exactly when
/// its labels repeat.
proof fn lemma_walk_to_labels(l: LabelEdges, nodes: Seq<String>, ch: Seq<Vec<usize>>, w: Seq<int>)
    requires
        represents(l, nodes, ch),
        is_walk(ch, w),
    ensures
        kept_walk(l, labels_of(nodes, w), nodes[w[0]]@),
        labels_of(nodes, w).len() == w.len(),
        w.no_duplicates() <==> labels_of(nodes, w).no_duplicates(),
{
    crate::graph::lemma_walk_in_range(ch, w);
    let lw = labels_of(nodes, w);
    assert forall|i: int| 0 <= i < lw.len() - 1 implies #[trigger] kept_step(l, lw, i) by {
        assert(step(ch, w, i));
    }
    if w.no_duplicates() {
        assert forall|i: int, j: int| 0 <= i < lw.len() && 0 <= j < lw.len() && i != j implies lw[i] != lw[j] by {
            lemma_sorted_index_order(nodes, w[i], w[j]);
        }
    }
    if lw.no_duplicates() {
        assert forall|i: int, j: int| 0 <= i < w.len() && 0 <= j < w.len() && i != j implies w[i] != w[j] by {
            assert(lw[i] != lw[j]);
        }
    }
}

/// A kept walk by labels from a node is the labels of a walk by positions.
proof fn lemma_walk_from_labels(
    l: LabelEdges,
    nodes: Seq<String>,
    ch: Seq<Vec<usize>>,
    lw: Seq<Seq<char>>,
    s: int,
) -> (w: Seq<int>)
    requires
        represents(l, nodes, ch),
        0 <= s < nodes.len(),
        kept_walk(l, lw, nodes[s]@),
    ensures
        walk_from(ch, w, s),
        labels_of(nodes, w) == lw,
{
    lemma_views_contains(nodes);
    assert(views(nodes).contains(nodes[s]@));
    assert(forall|i: int| 0 <= i < lw.len() ==> is_node(l, #[trigger] lw[i])) by {
        assert forall|i: int| 0 <= i < lw.len() implies is_node(l, #[trigger] lw[i]) by {
            if i == 0 {
                assert(views(nodes).contains(lw[0]));
            } else {
                assert(kept_step(l, lw, i - 1));
                lemma_kept_nodes(l, lw[i - 1], lw[i]);
            }
        }
    }
    let w = lw.map_values(|x: Seq<char>| position(nodes, x));
    assert forall|i: int| 0 <= i < lw.len() implies 0 <= #[trigger] w[i] < nodes.len() && nodes[w[i]]@ == lw[i] by {
        lemma_position(l, nodes, ch, lw[i]);
    }
    assert(w[0] == s) by {
        lemma_position(l, nodes, ch, lw[0]);
    }
    assert forall|i: int| 0 <= i < w.len() - 1 implies #[trigger] step(ch, w, i) by {
        assert(kept_step(l, lw, i));
        assert(0 <= w[i] < nodes.len() && nodes[w[i]]@ == lw[i]);
        assert(0 <= w[i + 1] < nodes.len() && nodes[w[i + 1]]@ == lw[i + 1]);
    }
    assert(labels_of(nodes, w) =~= lw);
    w
}

/// Cycle detection by positions answers the question by labels.
proof fn lemma_cycle_labels(l: LabelEdges, nodes: Seq<String>, ch: Seq<Vec<usize>>, s: int)
    requires
        represents(l, nodes, ch),
        0 <= s < nodes.len(),
    ensures
        cycle_reachable(ch, s) <==> reaches_cycle(l, nodes[s]@),
{
    if cycle_reachable(ch, s) {
        let w = choose|w: Seq<int>| #[trigger] walk_from(ch, w, s) && !w.no_duplicates();
        lemma_walk_to_labels(l, nodes, ch, w);
        assert(kept_walk(l, labels_of(nodes, w), nodes[s]@));
    }
    if reaches_cycle(l, nodes[s]@) {
        let lw = choose|w: Seq<Seq<char>>| #[trigger] kept_walk(l, w, nodes[s]@) && !w.no_duplicates();
        let w = lemma_walk_from_labels(l, nodes, ch, lw, s);
        lemma_walk_to_labels(l, nodes, ch, w);
        assert(walk_from(ch, w, s));
    }
}

/// The depth by positions is the depth by labels.
proof fn lemma_depth_labels(l: LabelEdges, nodes: Seq<String>, ch: Seq<Vec<usize>>, s: int, d: int)
    requires
        represents(l, nodes, ch),
        0 <= s < nodes.len(),
        exists|w: Seq<int>| #[trigger] walk_from(ch, w, s) && w.len() == d,
        forall|w: Seq<int>| #[trigger] walk_from(ch, w, s) ==> w.len() <= d,
    ensures
        is_depth(l, nodes[s]@, d),
{
    let w = choose|w: Seq<int>| #[trigger] walk_from(ch, w, s) && w.len() == d;
    lemma_walk_to_labels(l, nodes, ch, w);
    assert(kept_walk(l, labels_of(nodes, w), nodes[s]@));
    assert forall|lw: Seq<Seq<char>>| #[trigger] kept_walk(l, lw, nodes[s]@) implies lw.len() <= d by {
        let iw = lemma_walk_from_labels(l, nodes, ch, lw, s);
        assert(walk_from(ch, iw, s));
        assert(labels_of(nodes, iw).len() == iw.len());
    }
}

/// The tree built by positions is the tree by labels.
proof fn lemma_tree_labels(l: LabelEdges, nodes: Seq<String>, ch: Seq<Vec<usize>>, t: JsonTree, v: int)
    requires
        represents(l, nodes, ch),
        0 <= v < nodes.len(),
        tree_at(ch, nodes, t, v),
    ensures
        subtree_of(l, t, nodes[v]@),
    decreases t,
{
    let e = t.entries@;
    let ks = choose|ks: Seq<int>|
        #[trigger] child_keys(ch, v, ks) && ks.len() == e.len() && forall|k: int|
            0 <= k < e.len() ==> e[k].0@ == nodes[ks[k]]@ && tree_at(ch, nodes, e[k].1, ks[k]);
    assert forall|k: int| 0 <= k < ks.len() implies 0 <= #[trigger] ks[k] < nodes.len() by {
        assert(is_edge(ch, v, ks[k]));
        let q = choose|q: int| 0 <= q < ch[v]@.len() && #[trigger] ch[v]@[q] as int == ks[k];
    }
    assert forall|a: int, b: int| 0 <= a < b < e.len() implies lex_lt(#[trigger] e[a].0@, #[trigger] e[b].0@) by {
        assert(ks[a] < ks[b]);
        assert(0 <= ks[a] < nodes.len());
        assert(0 <= ks[b] < nodes.len());
        lemma_sorted_index_order(nodes, ks[a], ks[b]);
    }
    assert forall|k: int| 0 <= k < e.len() implies kept(l, nodes[v]@, #[trigger] e[k].0@) by {
        assert(is_edge(ch, v, ks[k]));
        assert(0 <= ks[k] < nodes.len());
    }
    assert forall|c: Seq<char>| #[trigger] kept(l, nodes[v]@, c) implies exists|k: int|
        0 <= k < e.len() && #[trigger] e[k].0@ == c by {
        lemma_kept_nodes(l, nodes[v]@, c);
        lemma_position(l, nodes, ch, c);
        let ci = position(nodes, c);
        assert(is_edge(ch, v, ci));
        assert(ks.contains(ci));
        let k = choose|k: int| 0 <= k < ks.len() && ks[k] == ci;
        assert(e[k].0@ == c);
    }
    assert forall|k: int| 0 <= k < e.len() implies subtree_of(l, #[trigger] e[k].1, e[k].0@) by {
        assert(0 <= ks[k] < nodes.len());
        assert(tree_at(ch, nodes, e[k].1, ks[k]));
        lemma_tree_labels(l, nodes, ch, e[k].1, ks[k]);
    }
}

/// `r` is the root of its group: the first node of the group, in label order,
/// that has no parent, or the group's first node where every node has one.
pub open spec fn is_group_root(l: LabelEdges, r: Seq<char>) -> bool {
    &&& is_node(l, r)
    &&& if exists|y: Seq<char>| #[trigger] connected(l, r, y) && !has_parent(l, y) {
        &&& !has_parent(l, r)
        &&& forall|y: Seq<char>| #[trigger] connected(l, r, y) && !has_parent(l, y) && y != r ==> lex_lt(r, y)
    } else {
        forall|y: Seq<char>| #[trigger] connected(l, r, y) && y != r ==> lex_lt(r, y)
    }
}

/// `h` shows its root's group: where a cycle can be reached from the root, an
/// empty tree and `has_cycle: Some(true)`; else `{ root: <tree below root> }` and
/// the depth of the root.
pub open spec fn hierarchy_of(l: LabelEdges, h: HierarchyObject) -> bool {
    if reaches_cycle(l, h.root@) {
        &&& h.has_cycle == Some(true)
        &&& h.depth is None
        &&& h.tree.entries@.len() == 0
    } else {
        &&& h.has_cycle is None
        &&& match h.depth {
            Some(d) => is_depth(l, h.root@, d as int),
            None => false,
        }
        &&& h.tree.entries@.len() == 1
        &&& h.tree.entries@[0].0@ == h.root@
        &&& subtree_of(l, h.tree.entries@[0].1, h.root@)
    }
}

/// A label connected to a node is a node.
proof fn lemma_connected_node(l: LabelEdges, a: Seq<char>, b: Seq<char>)
    requires
        connected(l, a, b),
        is_node(l, a),
    ensures
        is_node(l, b),
{
    let z = choose|z: Seq<Seq<char>>| #[trigger] chain_from(l, z, a, b);
    if z.len() > 1 {
        let i = z.len() - 2;
        assert(chain_step(l, z, i));
        let k = choose|k: int| 0 <= k < l.len() && (#[trigger] l[k] == (z[i], z[i + 1]) || l[k] == (z[i + 1], z[i]));
        assert(endpoint(l, k, b));
    }
}

/// For each group representative `r`, the position of the group's root: its first
/// node without a parent (`par` is `n`), else its first node.
fn group_roots(reps: &Vec<usize>, par: &Vec<usize>, n: usize) -> (root: Vec<usize>)
    requires
        reps@.len() == n,
        par@.len() == n,
        forall|i: int| 0 <= i < n ==> #[trigger] reps@[i] < n,
    ensures
        root@.len() == n,
        forall|i: int|
            0 <= i < n ==> {
                let r = #[trigger] reps@[i];
                let rt = root@[r as int] as int;
                &&& 0 <= rt < n
                &&& reps@[rt] == r
                &&& (exists|j: int| 0 <= j < n && reps@[j] == r && par@[j] == n) ==> (par@[rt] == n && forall|j: int|
                    0 <= j < rt ==> !(reps@[j] == r && par@[j] == n))
                &&& !(exists|j: int| 0 <= j < n && reps@[j] == r && par@[j] == n) ==> forall|j: int|
                    0 <= j < rt ==> reps@[j] != r
            },
{
    let mut first: Vec<usize> = Vec::new();
    let mut first_free: Vec<usize> = Vec::new();
    let mut j: usize = 0;
    while j < n
        invariant
            j <= n,
            first@.len() == j,
            first_free@.len() == j,
            forall|r: int| 0 <= r < j ==> first@[r] == n && first_free@[r] == n,
        decreases n - j,
    {
        first.push(n);
        first_free.push(n);
        j = j + 1;
    }
    let mut i: usize = 0;
    while i < n
        invariant
            reps@.len() == n,
            par@.len() == n,
            forall|q: int| 0 <= q < n ==> #[trigger] reps@[q] < n,
            i <= n,
            first@.len() == n,
            first_free@.len() == n,
            forall|r: int|
                0 <= r < n ==> {
                    &&& (#[trigger] first@[r] == n <==> forall|q: int| 0 <= q < i ==> reps@[q] != r)
                    &&& first@[r] <= n
                    &&& first@[r] < n ==> first@[r] < i && reps@[first@[r] as int] == r && forall|q: int|
                        0 <= q < first@[r] ==> reps@[q] != r
                },
            forall|r: int|
                0 <= r < n ==> {
                    &&& (#[trigger] first_free@[r] == n <==> forall|q: int|
                        0 <= q < i ==> !(reps@[q] == r && par@[q] == n))
                    &&& first_free@[r] <= n
                    &&& first_free@[r] < n ==> first_free@[r] < i && reps@[first_free@[r] as int] == r
                        && par@[first_free@[r] as int] == n && forall|q: int|
                        0 <= q < first_free@[r] ==> !(reps@[q] == r && par@[q] == n)
                },
        decreases n - i,
    {
        let r = reps[i];
        if first[r] == n {
            first.set(r, i);
        }
        if par[i] == n && first_free[r] == n {
            first_free.set(r, i);
        }
        i = i + 1;
    }
    let mut root: Vec<usize> = Vec::new();
    let mut r: usize = 0;
    while r < n
        invariant
            r <= n,
            first@.len() == n,
            first_free@.len() == n,
            reps@.len() == n,
            par@.len() == n,
            forall|r: int|
                0 <= r < n ==> {
                    &&& (#[trigger] first@[r] == n <==> forall|q: int| 0 <= q < n ==> reps@[q] != r)
                    &&& first@[r] <= n
                    &&& first@[r] < n ==> reps@[first@[r] as int] == r && forall|q: int|
                        0 <= q < first@[r] ==> reps@[q] != r
                },
            forall|r: int|
                0 <= r < n ==> {
                    &&& (#[trigger] first_free@[r] == n <==> forall|q: int|
                        0 <= q < n ==> !(reps@[q] == r && par@[q] == n))
                    &&& first_free@[r] <= n
                    &&& first_free@[r] < n ==> reps@[first_free@[r] as int] == r
                        && par@[first_free@[r] as int] == n && forall|q: int|
                        0 <= q < first_free@[r] ==> !(reps@[q] == r && par@[q] == n)
                },
            root@.len() == r,
            forall|q: int|
                0 <= q < r ==> #[trigger] root@[q] == if first_free@[q] < n {
                    first_free@[q]
                } else {
                    first@[q]
                },
        decreases n - r,
    {
        if first_free[r] < n {
            root.push(first_free[r]);
        } else {
            root.push(first[r]);
        }
        r = r + 1;
    }
    proof {
        assert forall|i: int| 0 <= i < n implies {
            let r = #[trigger] reps@[i];
            let rt = root@[r as int] as int;
            &&& 0 <= rt < n
            &&& reps@[rt] == r
            &&& (exists|j: int| 0 <= j < n && reps@[j] == r && par@[j] == n) ==> (par@[rt] == n && forall|j: int|
                0 <= j < rt ==> !(reps@[j] == r && par@[j] == n))
            &&& !(exists|j: int| 0 <= j < n && reps@[j] == r && par@[j] == n) ==> forall|j: int|
                0 <= j < rt ==> reps@[j] != r
        } by {
            let r = reps@[i] as int;
            assert(root@[r] == if first_free@[r] < n {
                first_free@[r]
            } else {
                first@[r]
            });
            assert(first@[r] != n) by {
                if first@[r] == n {
                    assert(reps@[i] != r);
                }
            }
            if exists|j: int| 0 <= j < n && reps@[j] == r && par@[j] == n {
                let j = choose|j: int| 0 <= j < n && reps@[j] == r && par@[j] == n;
                assert(first_free@[r] != n) by {
                    if first_free@[r] == n {
                        assert(!(reps@[j] == r && par@[j] == n));
                    }
                }
            } else {
                assert(first_free@[r] == n) by {
                    if first_free@[r] != n {
                        let q = first_free@[r] as int;
                        assert(reps@[q] == r && par@[q] == n);
                    }
                }
            }
        }
    }
    root
}

/// The hierarchy of the group whose root is at position `i`.
fn make_hierarchy(
    i: usize,
    children: &Vec<Vec<usize>>,
    nodes: &Vec<String>,
    Ghost(l): Ghost<LabelEdges>,
) -> (h: HierarchyObject)
    requires
        represents(l, nodes@, children@),
        i < nodes@.len(),
        nodes@.len() <= u32::MAX,
    ensures
        h.root@ == nodes@[i as int]@,
        hierarchy_of(l, h),
{
    let root = nodes[i].clone();
    let has_cycle = detect_cycle(i, children);
    proof {
        lemma_cycle_labels(l, nodes@, children@, i as int);
    }
    if has_cycle {
        HierarchyObject { root, tree: JsonTree { entries: Vec::new() }, depth: None, has_cycle: Some(true) }
    } else {
        proof {
            assert forall|a: int, b: int| 0 <= a < b < nodes@.len() implies nodes@[a]@ != nodes@[b]@ by {
                lemma_sorted_index_order(nodes@, a, b);
            }
        }
        let tree = build_tree(i, children, nodes);
        let depth = compute_depth(i, children);
        proof {
            lemma_depth_labels(l, nodes@, children@, i as int, depth as int);
            lemma_tree_labels(l, nodes@, children@, tree.entries@[0].1, i as int);
        }
        HierarchyObject { root, tree, depth: Some(depth), has_cycle: None }
    }
}

/// `hs` shows the groups of `l`: one hierarchy per connected group, shown from
/// the group's root, in label order of the roots.
#[verifier::opaque]
pub open spec fn hierarchies_of(l: LabelEdges, hs: Seq<HierarchyObject>) -> bool {
    &&& forall|a: int, b: int| 0 <= a < b < hs.len() ==> lex_lt(#[trigger] hs[a].root@, #[trigger] hs[b].root@)
    &&& forall|k: int| 0 <= k < hs.len() ==> is_group_root(l, #[trigger] hs[k].root@) && hierarchy_of(l, hs[k])
    &&& forall|x: Seq<char>|
        #[trigger] is_node(l, x) ==> exists|k: int| 0 <= k < hs.len() && connected(l, x, #[trigger] hs[k].root@)
    &&& forall|a: int, b: int|
        0 <= a < hs.len() && 0 <= b < hs.len() && a != b ==> !connected(
            l,
            #[trigger] hs[a].root@,
            #[trigger] hs[b].root@,
        )
}

/// The hierarchies of `valid_edges`, one for each connected group of nodes, in
/// label order of their roots.
pub fn build_hierarchies(valid_edges: &[(String, String)]) -> (res: Vec<HierarchyObject>)
    requires
        node_set(edge_labels(valid_edges@)).len() <= u32::MAX,
    ensures
        hierarchies_of(edge_labels(valid_edges@), res@),
{
    proof {
        reveal(hierarchies_of);
    }
    let ghost l = edge_labels(valid_edges@);
    if valid_edges.len() == 0 {
        return Vec::new();
    }
    let nodes = collect_nodes(valid_edges);
    let n = nodes.len();
    proof {
        lemma_sorted_no_dup(nodes@);
        views(nodes@).unique_seq_to_set();
        lemma_views_contains(nodes@);
        assert(views(nodes@).to_set() =~= node_set(l));
    }
    let (eidx, par, children) = kept_parents(valid_edges, &nodes);
    let reps = group_reps(&eidx, &par, n, Ghost(l), Ghost(nodes@));
    let root = group_roots(&reps, &par, n);
    proof {
        lemma_views_contains(nodes@);
        assert(represents(l, nodes@, children@));
        reveal(group_facts);
        assert(group_facts(l, nodes@, reps@, par@, root@));
    }
    let mut res: Vec<HierarchyObject> = Vec::new();
    let ghost mut emitted: Seq<int> = Seq::empty();
    let mut i: usize = 0;
    while i < n
        invariant
            l == edge_labels(valid_edges@),
            n == nodes@.len(),
            n <= u32::MAX,
            represents(l, nodes@, children@),
            reps@.len() == n,
            root@.len() == n,
            forall|q: int| 0 <= q < n ==> #[trigger] reps@[q] < n,
            group_facts(l, nodes@, reps@, par@, root@),
            i <= n,
            res@.len() == emitted.len(),
            forall|k: int| 0 <= k < emitted.len() ==> 0 <= #[trigger] emitted[k] < i,
            forall|a: int, b: int| 0 <= a < b < emitted.len() ==> #[trigger] emitted[a] < #[trigger] emitted[b],
            forall|k: int|
                0 <= k < emitted.len() ==> root@[reps@[#[trigger] emitted[k]] as int] == emitted[k]
                    && res@[k].root@ == nodes@[emitted[k]]@ && hierarchy_of(l, res@[k]),
            forall|q: int| 0 <= q < i && #[trigger] root@[reps@[q] as int] == q ==> emitted.contains(q),
        decreases n - i,
    {
        let r = reps[i];
        let ghost em0 = emitted;
        if root[r] == i {
            let h = make_hierarchy(i, &children, &nodes, Ghost(l));
            res.push(h);
            proof {
                emitted = emitted.push(i as int);
            }
        }
        proof {
            assert forall|q: int| 0 <= q < i + 1 && #[trigger] root@[reps@[q] as int] == q implies emitted.contains(q) by {
                if q == i {
                    assert(emitted[emitted.len() - 1] == q);
                } else {
                    assert(em0.contains(q));
                    let k = choose|k: int| 0 <= k < em0.len() && em0[k] == q;
                    assert(emitted[k] == q);
                }
            }
        }
        i = i + 1;
    }
    proof {
        lemma_group_facts(l, nodes@, children@, reps@, par@, root@, emitted, res@);
    }
    res
}


/// The facts about representatives, parents and roots that `build_hierarchies`
/// carries from its grouping to its output.
#[verifier::opaque]
spec fn group_facts(
    l: LabelEdges,
    nodes: Seq<String>,
    reps: Seq<usize>,
    par: Seq<usize>,
    root: Seq<usize>,
) -> bool {
    let n = nodes.len() as int;
    &&& reps.len() == n
    &&& par.len() == n
    &&& root.len() == n
    &&& forall|i: int| 0 <= i < n ==> #[trigger] reps[i] < n
    &&& forall|i: int, j: int|
        0 <= i < n && 0 <= j < n ==> (#[trigger] reps[i] == #[trigger] reps[j] <==> connected(
            l,
            nodes[i]@,
            nodes[j]@,
        ))
    &&& forall|c: int| 0 <= c < n ==> (#[trigger] par[c] == n <==> !has_parent(l, nodes[c]@))
    &&& forall|i: int|
        0 <= i < n ==> {
            let r = #[trigger] reps[i];
            let rt = root[r as int] as int;
            &&& 0 <= rt < n
            &&& reps[rt] == r
            &&& (exists|j: int| 0 <= j < n && reps[j] == r && par[j] == n) ==> (par[rt] == n && forall|j: int|
                0 <= j < rt ==> !(reps[j] == r && par[j] == n))
            &&& !(exists|j: int| 0 <= j < n && reps[j] == r && par[j] == n) ==> forall|j: int|
                0 <= j < rt ==> reps[j] != r
        }
}

/// The four facts of `build_hierarchies` from the facts about the positions of
/// the roots it emitted.
proof fn lemma_group_facts(
    l: LabelEdges,
    nodes: Seq<String>,
    ch: Seq<Vec<usize>>,
    reps: Seq<usize>,
    par: Seq<usize>,
    root: Seq<usize>,
    emitted: Seq<int>,
    res: Seq<HierarchyObject>,
)
    requires
        represents(l, nodes, ch),
        group_facts(l, nodes, reps, par, root),
        res.len() == emitted.len(),
        forall|k: int| 0 <= k < emitted.len() ==> 0 <= #[trigger] emitted[k] < nodes.len(),
        forall|a: int, b: int| 0 <= a < b < emitted.len() ==> #[trigger] emitted[a] < #[trigger] emitted[b],
        forall|k: int|
            0 <= k < emitted.len() ==> root[reps[#[trigger] emitted[k]] as int] == emitted[k]
                && res[k].root@ == nodes[emitted[k]]@ && hierarchy_of(l, res[k]),
        forall|q: int| 0 <= q < nodes.len() && #[trigger] root[reps[q] as int] == q ==> emitted.contains(q),
    ensures
        forall|a: int, b: int| 0 <= a < b < res.len() ==> lex_lt(#[trigger] res[a].root@, #[trigger] res[b].root@),
        forall|k: int| 0 <= k < res.len() ==> is_group_root(l, #[trigger] res[k].root@) && hierarchy_of(l, res[k]),
        forall|x: Seq<char>|
            #[trigger] is_node(l, x) ==> exists|k: int| 0 <= k < res.len() && connected(l, x, #[trigger] res[k].root@),
        forall|a: int, b: int|
            0 <= a < res.len() && 0 <= b < res.len() && a != b ==> !connected(
                l,
                #[trigger] res[a].root@,
                #[trigger] res[b].root@,
            ),
{
    reveal(group_facts);
    let n = nodes.len() as int;
    lemma_views_contains(nodes);
    assert forall|a: int, b: int| 0 <= a < b < res.len() implies lex_lt(#[trigger] res[a].root@, #[trigger] res[b].root@) by {
        assert(emitted[a] < emitted[b]);
        lemma_sorted_index_order(nodes, emitted[a], emitted[b]);
    }
    assert forall|k: int| 0 <= k < res.len() implies is_group_root(l, #[trigger] res[k].root@) && hierarchy_of(
        l,
        res[k],
    ) by {
        let i = emitted[k];
        assert(root[reps[i] as int] == i);
        lemma_root_is_group_root(l, nodes, ch, reps, par, root, i);
    }
    assert forall|x: Seq<char>| #[trigger] is_node(l, x) implies exists|k: int|
        0 <= k < res.len() && connected(l, x, #[trigger] res[k].root@) by {
        lemma_position(l, nodes, ch, x);
        let j = position(nodes, x);
        let rt = root[reps[j] as int] as int;
        assert(reps[rt] == reps[j]);
        assert(root[reps[rt] as int] == rt);
        assert(emitted.contains(rt));
        let k = choose|k: int| 0 <= k < emitted.len() && emitted[k] == rt;
        assert(connected(l, nodes[j]@, nodes[rt]@));
        assert(res[k].root@ == nodes[rt]@);
    }
    assert forall|a: int, b: int| 0 <= a < res.len() && 0 <= b < res.len() && a != b implies !connected(
        l,
        #[trigger] res[a].root@,
        #[trigger] res[b].root@,
    ) by {
        let ea = emitted[a];
        let eb = emitted[b];
        if a < b {
            assert(ea < eb);
        } else {
            assert(eb < ea);
        }
        if connected(l, nodes[ea]@, nodes[eb]@) {
            assert(reps[ea] == reps[eb]);
            assert(root[reps[ea] as int] == ea);
            assert(root[reps[eb] as int] == eb);
        }
    }
}

/// A position that is the root of its representative's group holds the group
/// root by labels.
proof fn lemma_root_is_group_root(
    l: LabelEdges,
    nodes: Seq<String>,
    ch: Seq<Vec<usize>>,
    reps: Seq<usize>,
    par: Seq<usize>,
    root: Seq<usize>,
    i: int,
)
    requires
        represents(l, nodes, ch),
        reps.len() == nodes.len(),
        par.len() == nodes.len(),
        root.len() == nodes.len(),
        0 <= i < nodes.len(),
        forall|q: int| 0 <= q < nodes.len() ==> #[trigger] reps[q] < nodes.len(),
        forall|p: int, q: int|
            0 <= p < nodes.len() && 0 <= q < nodes.len() ==> (#[trigger] reps[p] == #[trigger] reps[q] <==> connected(
                l,
                nodes[p]@,
                nodes[q]@,
            )),
        forall|c: int| 0 <= c < nodes.len() ==> (#[trigger] par[c] == nodes.len() <==> !has_parent(l, nodes[c]@)),
        forall|q: int|
            0 <= q < nodes.len() ==> {
                let r = #[trigger] reps[q];
                let rt = root[r as int] as int;
                let n = nodes.len() as int;
                &&& 0 <= rt < n
                &&& reps[rt] == r
                &&& (exists|j: int| 0 <= j < n && reps[j] == r && par[j] == n) ==> (par[rt] == n && forall|j: int|
                    0 <= j < rt ==> !(reps[j] == r && par[j] == n))
                &&& !(exists|j: int| 0 <= j < n && reps[j] == r && par[j] == n) ==> forall|j: int|
                    0 <= j < rt ==> reps[j] != r
            },
        root[reps[i] as int] == i,
    ensures
        is_group_root(l, nodes[i]@),
{
    let n = nodes.len() as int;
    let ri = nodes[i]@;
    let r = reps[i];
    lemma_views_contains(nodes);
    assert(views(nodes).contains(ri));
    assert(is_node(l, ri));
    assert(reps[i] == r);
    let free = exists|j: int| 0 <= j < n && reps[j] == r && par[j] == n;
    // every label connected to the root is a node at some position of the same group
    assert forall|y: Seq<char>| #[trigger] connected(l, ri, y) implies is_node(l, y) && 0 <= position(nodes, y) < n
        && nodes[position(nodes, y)]@ == y && reps[position(nodes, y)] == r by {
        lemma_connected_node(l, ri, y);
        lemma_position(l, nodes, ch, y);
    }
    if free {
        assert(par[i] == n);
        assert(!has_parent(l, ri));
        lemma_connected_refl(l, ri);
        assert(connected(l, ri, ri) && !has_parent(l, ri));
        assert forall|y: Seq<char>| #[trigger] connected(l, ri, y) && !has_parent(l, y) && y != ri implies lex_lt(
            ri,
            y,
        ) by {
            let j = position(nodes, y);
            assert(par[j] == n);
            assert(!(j < i));
            if j == i {
                assert(false);
            }
            lemma_sorted_index_order(nodes, i, j);
        }
    } else {
        assert forall|y: Seq<char>| #[trigger] connected(l, ri, y) implies has_parent(l, y) by {
            let j = position(nodes, y);
            assert(par[j] != n);
        }
        assert forall|y: Seq<char>| #[trigger] connected(l, ri, y) && y != ri implies lex_lt(ri, y) by {
            let j = position(nodes, y);
            assert(!(j < i));
            if j == i {
                assert(false);
            }
            lemma_sorted_index_order(nodes, i, j);
        }
    }
}

/// A node has at most one kept parent.
pub proof fn law_kept_parent_unique(l: LabelEdges, p1: Seq<char>, p2: Seq<char>, c: Seq<char>)
    requires
        kept(l, p1, c),
        kept(l, p2, c),
    ensures
        p1 == p2,
{
    let i = choose|i: int| 0 <= i < l.len() && #[trigger] l[i] == (p1, c) && first_into(l, i);
    let j = choose|j: int| 0 <= j < l.len() && #[trigger] l[j] == (p2, c) && first_into(l, j);
    if i < j {
        assert(l[i].1 == l[j].1);
    } else if j < i {
        assert(l[j].1 == l[i].1);
    }
}

/// From a node without a parent no cycle can be reached: its hierarchy is a tree.
pub proof fn law_parentless_root_is_tree(l: LabelEdges, r: Seq<char>)
    requires
        !has_parent(l, r),
    ensures
        !reaches_cycle(l, r),
{
    assert forall|w: Seq<Seq<char>>| #[trigger] kept_walk(l, w, r) implies w.no_duplicates() by {
        lemma_walk_prefix_distinct(l, w, r, w.len() as int);
        assert(w.take(w.len() as int) =~= w);
    }
}

proof fn lemma_walk_prefix_distinct(l: LabelEdges, w: Seq<Seq<char>>, r: Seq<char>, m: int)
    requires
        !has_parent(l, r),
        kept_walk(l, w, r),
        0 <= m <= w.len(),
    ensures
        w.take(m).no_duplicates(),
    decreases m,
{
    if m > 1 {
        lemma_walk_prefix_distinct(l, w, r, m - 1);
        let t = w.take(m);
        assert forall|i: int, j: int| 0 <= i < t.len() && 0 <= j < t.len() && i != j implies t[i] != t[j] by {
            if i < m - 1 && j < m - 1 {
                assert(w.take(m - 1)[i] == t[i] && w.take(m - 1)[j] == t[j]);
            } else {
                let (a, b) = if i < j {
                    (i, j)
                } else {
                    (j, i)
                };
                if t[a] == t[b] {
                    assert(b == m - 1);
                    assert(kept_step(l, w, b - 1));
                    if a == 0 {
                        let e = choose|e: int| 0 <= e < l.len() && #[trigger] l[e] == (w[b - 1], w[b]) && first_into(l, e);
                        assert(l[e].1 == r);
                    } else {
                        assert(kept_step(l, w, a - 1));
                        law_kept_parent_unique(l, w[a - 1], w[b - 1], w[b]);
                        assert(w.take(m - 1)[a - 1] == w.take(m - 1)[b - 1]);
                    }
                }
            }
        }
    }
}

/// A hierarchy has a depth exactly when it is shown as a tree.
pub proof fn law_depth_iff_tree(l: LabelEdges, hs: Seq<HierarchyObject>)
    requires
        hierarchies_of(l, hs),
    ensures
        forall|k: int| 0 <= k < hs.len() ==> ((#[trigger] hs[k]).depth is Some <==> hs[k].has_cycle is None),
{
    reveal(hierarchies_of);
    assert forall|k: int| 0 <= k < hs.len() implies ((#[trigger] hs[k]).depth is Some <==> hs[k].has_cycle is None) by {
        assert(hierarchy_of(l, hs[k]));
    }
}

/// The root of a hierarchy whose root has no parent is shown as a tree.
pub proof fn law_parentless_groups_are_trees(l: LabelEdges, hs: Seq<HierarchyObject>)
    requires
        hierarchies_of(l, hs),
    ensures
        forall|k: int| 0 <= k < hs.len() && !has_parent(l, (#[trigger] hs[k]).root@) ==> hs[k].has_cycle is None,
{
    reveal(hierarchies_of);
    assert forall|k: int| 0 <= k < hs.len() && !has_parent(l, (#[trigger] hs[k]).root@) implies hs[k].has_cycle is None by {
        law_parentless_root_is_tree(l, hs[k].root@);
        assert(hierarchy_of(l, hs[k]));
    }
}

/// `p` spells a path down `t` from its top: `p[0]` is a key of `t`, `p[1]` a key
/// of the object under it, and so on.
pub open spec fn tree_path(t: JsonTree, p: Seq<Seq<char>>) -> bool
    decreases t,
{
    p.len() == 0 || exists|k: int|
        #![trigger t.entries@[k]]
        0 <= k < t.entries@.len() && t.entries@[k].0@ == p[0] && tree_path(t.entries@[k].1, p.drop_first())
}

/// A path down the tree below `v` follows kept edges from `v`.
proof fn lemma_tree_path_walk(l: LabelEdges, t: JsonTree, v: Seq<char>, p: Seq<Seq<char>>)
    requires
        subtree_of(l, t, v),
        tree_path(t, p),
    ensures
        kept_walk(l, seq![v] + p, v),
    decreases t,
{
    let w = seq![v] + p;
    if p.len() > 0 {
        let e = t.entries@;
        let k = choose|k: int|
            #![trigger t.entries@[k]]
            0 <= k < t.entries@.len() && t.entries@[k].0@ == p[0] && tree_path(t.entries@[k].1, p.drop_first());
        assert(kept(l, v, e[k].0@));
        assert(subtree_of(l, e[k].1, e[k].0@));
        lemma_tree_path_walk(l, e[k].1, p[0], p.drop_first());
        let w2 = seq![p[0]] + p.drop_first();
        assert(w2 =~= p);
        assert forall|i: int| 0 <= i < w.len() - 1 implies #[trigger] kept_step(l, w, i) by {
            if i > 0 {
                assert(kept_step(l, w2, i - 1));
                assert(w[i] == w2[i - 1] && w[i + 1] == w2[i]);
            }
        }
    }
}

/// A kept walk from `v` spells a path down the tree below `v`.
proof fn lemma_walk_tree_path(l: LabelEdges, t: JsonTree, v: Seq<char>, w: Seq<Seq<char>>)
    requires
        subtree_of(l, t, v),
        kept_walk(l, w, v),
    ensures
        tree_path(t, w.drop_first()),
    decreases w.len(),
{
    if w.len() > 1 {
        let e = t.entries@;
        assert(kept_step(l, w, 0));
        let k = choose|k: int| 0 <= k < e.len() && #[trigger] e[k].0@ == w[1];
        assert(subtree_of(l, e[k].1, e[k].0@));
        let w2 = w.drop_first();
        assert forall|i: int| 0 <= i < w2.len() - 1 implies #[trigger] kept_step(l, w2, i) by {
            assert(kept_step(l, w, i + 1));
        }
        lemma_walk_tree_path(l, e[k].1, w[1], w2);
        assert(t.entries@[k].0@ == w2[0] && tree_path(t.entries@[k].1, w2.drop_first()));
    }
}

/// The depth of a hierarchy shown as a tree is the number of labels on the
/// longest path down its tree.
pub proof fn law_depth_is_tree_height(l: LabelEdges, h: HierarchyObject)
    requires
        hierarchy_of(l, h),
        h.has_cycle is None,
    ensures
        h.depth is Some,
        exists|p: Seq<Seq<char>>| #[trigger] tree_path(h.tree, p) && p.len() == h.depth->0,
        forall|p: Seq<Seq<char>>| #[trigger] tree_path(h.tree, p) ==> p.len() <= h.depth->0,
{
    let r = h.root@;
    let d = h.depth->0;
    let top = h.tree.entries@;
    let sub = top[0].1;
    assert(!reaches_cycle(l, r));
    assert forall|p: Seq<Seq<char>>| #[trigger] tree_path(h.tree, p) implies p.len() <= d by {
        if p.len() > 0 {
            let k = choose|k: int|
                #![trigger h.tree.entries@[k]]
                0 <= k < h.tree.entries@.len() && h.tree.entries@[k].0@ == p[0] && tree_path(
                    h.tree.entries@[k].1,
                    p.drop_first(),
                );
            assert(k == 0);
            lemma_tree_path_walk(l, sub, r, p.drop_first());
            assert(seq![r] + p.drop_first() =~= p);
            assert(kept_walk(l, p, r));
        }
    }
    let w = choose|w: Seq<Seq<char>>| #[trigger] kept_walk(l, w, r) && w.len() == d;
    lemma_walk_tree_path(l, sub, r, w);
    assert(h.tree.entries@[0].0@ == w[0] && tree_path(h.tree.entries@[0].1, w.drop_first()));
    assert(tree_path(h.tree, w));
}


/// `t1` and `t2` have the same keys, by their labels, in the same order, and
/// the same trees under them.
pub open spec fn same_tree(t1: JsonTree, t2: JsonTree) -> bool
    decreases t1,
{
    &&& t1.entries@.len() == t2.entries@.len()
    &&& forall|k: int|
        0 <= k < t1.entries@.len() ==> (#[trigger] t1.entries@[k]).0@ == t2.entries@[k].0@ && same_tree(
            t1.entries@[k].1,
            t2.entries@[k].1,
        )
}

/// The keys of a tree, by their labels.
pub open spec fn tree_keys(t: JsonTree) -> Seq<Seq<char>> {
    t.entries@.map_values(|e: (String, JsonTree)| e.0@)
}

/// The tree below a node is determined by the edges.
proof fn lemma_subtree_unique(l: LabelEdges, t1: JsonTree, t2: JsonTree, v: Seq<char>)
    requires
        subtree_of(l, t1, v),
        subtree_of(l, t2, v),
    ensures
        same_tree(t1, t2),
    decreases t1,
{
    let e1 = t1.entries@;
    let e2 = t2.entries@;
    let k1 = tree_keys(t1);
    let k2 = tree_keys(t2);
    assert(crate::labels::labels_increasing(k1)) by {
        assert forall|a: int, b: int| 0 <= a < b < k1.len() implies lex_lt(#[trigger] k1[a], #[trigger] k1[b]) by {
            assert(lex_lt(e1[a].0@, e1[b].0@));
        }
    }
    assert(crate::labels::labels_increasing(k2)) by {
        assert forall|a: int, b: int| 0 <= a < b < k2.len() implies lex_lt(#[trigger] k2[a], #[trigger] k2[b]) by {
            assert(lex_lt(e2[a].0@, e2[b].0@));
        }
    }
    assert forall|x: Seq<char>| k1.contains(x) <==> k2.contains(x) by {
        if k1.contains(x) {
            let j = choose|j: int| 0 <= j < k1.len() && k1[j] == x;
            assert(kept(l, v, e1[j].0@));
            let q = choose|q: int| 0 <= q < e2.len() && #[trigger] e2[q].0@ == x;
            assert(k2[q] == x);
        }
        if k2.contains(x) {
            let j = choose|j: int| 0 <= j < k2.len() && k2[j] == x;
            assert(kept(l, v, e2[j].0@));
            let q = choose|q: int| 0 <= q < e1.len() && #[trigger] e1[q].0@ == x;
            assert(k1[q] == x);
        }
    }
    crate::labels::lemma_increasing_unique(k1, k2);
    assert(e1.len() == k1.len() && e2.len() == k2.len());
    assert forall|k: int| 0 <= k < e1.len() implies (#[trigger] e1[k]).0@ == e2[k].0@ && same_tree(e1[k].1, e2[k].1) by {
        assert(k1[k] == k2[k]);
        assert(subtree_of(l, e1[k].1, e1[k].0@));
        assert(subtree_of(l, e2[k].1, e2[k].0@));
        lemma_subtree_unique(l, e1[k].1, e2[k].1, e1[k].0@);
    }
}

/// Two group roots of one group are the same node.
proof fn lemma_group_root_unique(l: LabelEdges, r1: Seq<char>, r2: Seq<char>)
    requires
        is_group_root(l, r1),
        is_group_root(l, r2),
        connected(l, r1, r2),
    ensures
        r1 == r2,
{
    lemma_connected_sym(l, r1, r2);
    crate::labels::lemma_lex_asymmetric(r1, r2);
    if exists|y: Seq<char>| #[trigger] connected(l, r1, y) && !has_parent(l, y) {
        let y = choose|y: Seq<char>| #[trigger] connected(l, r1, y) && !has_parent(l, y);
        lemma_connected_trans(l, r2, r1, y);
        assert(connected(l, r2, y) && !has_parent(l, y));
        assert(connected(l, r1, r2) && !has_parent(l, r2));
        assert(connected(l, r2, r1) && !has_parent(l, r1));
    } else {
        if exists|y: Seq<char>| #[trigger] connected(l, r2, y) && !has_parent(l, y) {
            let y = choose|y: Seq<char>| #[trigger] connected(l, r2, y) && !has_parent(l, y);
            lemma_connected_trans(l, r1, r2, y);
            assert(connected(l, r1, y) && !has_parent(l, y));
        }
        assert(connected(l, r1, r2));
        assert(connected(l, r2, r1));
    }
}

/// The roots of a list of hierarchies, by their labels.
pub open spec fn roots_of(hs: Seq<HierarchyObject>) -> Seq<Seq<char>> {
    hs.map_values(|h: HierarchyObject| h.root@)
}

/// One group root's hierarchy is determined by the edges.
proof fn lemma_hierarchy_unique(l: LabelEdges, h1: HierarchyObject, h2: HierarchyObject)
    requires
        hierarchy_of(l, h1),
        hierarchy_of(l, h2),
        h1.root@ == h2.root@,
    ensures
        h1.has_cycle == h2.has_cycle,
        h1.depth == h2.depth,
        same_tree(h1.tree, h2.tree),
{
    if reaches_cycle(l, h1.root@) {
        assert(same_tree(h1.tree, h2.tree));
    } else {
        let d1 = h1.depth->0 as int;
        let d2 = h2.depth->0 as int;
        let w1 = choose|w: Seq<Seq<char>>| #[trigger] kept_walk(l, w, h1.root@) && w.len() == d1;
        let w2 = choose|w: Seq<Seq<char>>| #[trigger] kept_walk(l, w, h1.root@) && w.len() == d2;
        assert(d1 <= d2 && d2 <= d1);
        let s1 = h1.tree.entries@[0].1;
        let s2 = h2.tree.entries@[0].1;
        lemma_subtree_unique(l, s1, s2, h1.root@);
        assert(same_tree(h1.tree, h2.tree));
    }
}

/// A group root connected to some root of `hs` is a root of `hs`.
proof fn lemma_roots_included(l: LabelEdges, hs: Seq<HierarchyObject>, x: Seq<char>, q: int)
    requires
        is_group_root(l, x),
        0 <= q < hs.len(),
        is_group_root(l, hs[q].root@),
        connected(l, x, hs[q].root@),
    ensures
        roots_of(hs).contains(x),
{
    lemma_group_root_unique(l, x, hs[q].root@);
    assert(roots_of(hs)[q] == x);
}

/// The roots of a list that shows the groups, in increasing order.
proof fn lemma_roots_increasing(l: LabelEdges, hs: Seq<HierarchyObject>)
    requires
        hierarchies_of(l, hs),
    ensures
        crate::labels::labels_increasing(roots_of(hs)),
        roots_of(hs).len() == hs.len(),
        forall|k: int| 0 <= k < hs.len() ==> roots_of(hs)[k] == (#[trigger] hs[k]).root@,
{
    reveal(hierarchies_of);
    let r = roots_of(hs);
    assert forall|a: int, b: int| 0 <= a < b < r.len() implies lex_lt(#[trigger] r[a], #[trigger] r[b]) by {
        assert(lex_lt(hs[a].root@, hs[b].root@));
    }
}

/// What `hierarchies_of` says of one hierarchy of the list.
proof fn lemma_hierarchy_at(l: LabelEdges, hs: Seq<HierarchyObject>, k: int)
    requires
        hierarchies_of(l, hs),
        0 <= k < hs.len(),
    ensures
        is_group_root(l, hs[k].root@),
        hierarchy_of(l, hs[k]),
{
    reveal(hierarchies_of);
}

/// Every node is connected to some root of a list that shows the groups.
proof fn lemma_hierarchies_cover(l: LabelEdges, hs: Seq<HierarchyObject>, x: Seq<char>) -> (q: int)
    requires
        hierarchies_of(l, hs),
        is_node(l, x),
    ensures
        0 <= q < hs.len(),
        connected(l, x, hs[q].root@),
{
    reveal(hierarchies_of);
    choose|q: int| 0 <= q < hs.len() && connected(l, x, #[trigger] hs[q].root@)
}

/// The hierarchies of a list of edges are determined by the edges: two lists
/// that both show the groups of `l` have the same roots, cycle flags and
/// depths, and the same trees, in the same order.
pub proof fn law_hierarchies_unique(l: LabelEdges, hs1: Seq<HierarchyObject>, hs2: Seq<HierarchyObject>)
    requires
        hierarchies_of(l, hs1),
        hierarchies_of(l, hs2),
    ensures
        hs1.len() == hs2.len(),
        forall|k: int|
            0 <= k < hs1.len() ==> (#[trigger] hs1[k]).root@ == hs2[k].root@ && hs1[k].has_cycle == hs2[k].has_cycle
                && hs1[k].depth == hs2[k].depth && same_tree(hs1[k].tree, hs2[k].tree),
{
    let r1 = roots_of(hs1);
    let r2 = roots_of(hs2);
    lemma_roots_increasing(l, hs1);
    lemma_roots_increasing(l, hs2);
    assert forall|x: Seq<char>| r1.contains(x) implies r2.contains(x) by {
        let j = choose|j: int| 0 <= j < r1.len() && r1[j] == x;
        lemma_hierarchy_at(l, hs1, j);
        let q = lemma_hierarchies_cover(l, hs2, x);
        lemma_hierarchy_at(l, hs2, q);
        lemma_roots_included(l, hs2, x, q);
    }
    assert forall|x: Seq<char>| r2.contains(x) implies r1.contains(x) by {
        let j = choose|j: int| 0 <= j < r2.len() && r2[j] == x;
        lemma_hierarchy_at(l, hs2, j);
        let q = lemma_hierarchies_cover(l, hs1, x);
        lemma_hierarchy_at(l, hs1, q);
        lemma_roots_included(l, hs1, x, q);
    }
    crate::labels::lemma_increasing_unique(r1, r2);
    assert forall|k: int| 0 <= k < hs1.len() implies (#[trigger] hs1[k]).root@ == hs2[k].root@ && hs1[k].has_cycle
        == hs2[k].has_cycle && hs1[k].depth == hs2[k].depth && same_tree(hs1[k].tree, hs2[k].tree) by {
        assert(r1[k] == r2[k]);
        lemma_hierarchy_at(l, hs1, k);
        lemma_hierarchy_at(l, hs2, k);
        lemma_hierarchy_unique(l, hs1[k], hs2[k]);
    }
}

} // verus!
