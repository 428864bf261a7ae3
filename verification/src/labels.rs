//! Node labels: their order, and the sorted table of the labels of an edge list.
use vstd::prelude::*;
use vstd::string::*;

verus! {

/// `a` and `b` agree on their first `i` characters, and `a` is smaller at `i`:
/// either `a` ends there and `b` goes on, or `a[i] < b[i]`.
pub open spec fn lex_lt_at(a: Seq<char>, b: Seq<char>, i: int) -> bool {
    &&& 0 <= i <= a.len()
    &&& i <= b.len()
    &&& forall|j: int| 0 <= j < i ==> a[j] == b[j]
    &&& (i == a.len() && i < b.len()) || (i < a.len() && i < b.len() && a[i] < b[i])
}

/// Lexicographic order on labels, character by character (the order of `String`,
/// which compares UTF-8 bytes, and so code points).
pub open spec fn lex_lt(a: Seq<char>, b: Seq<char>) -> bool {
    exists|i: int| #[trigger] lex_lt_at(a, b, i)
}

/// The labels of a list of strings.
pub open spec fn views(v: Seq<String>) -> Seq<Seq<char>> {
    v.map_values(|s: String| s@)
}

/// Strictly ascending labels.
pub open spec fn strictly_sorted(v: Seq<String>) -> bool {
    forall|a: int, b: int| 0 <= a < b < v.len() ==> lex_lt(#[trigger] v[a]@, #[trigger] v[b]@)
}

pub proof fn lemma_lex_irreflexive(a: Seq<char>)
    ensures
        !lex_lt(a, a),
{
}

pub proof fn lemma_lex_asymmetric(a: Seq<char>, b: Seq<char>)
    ensures
        !(lex_lt(a, b) && lex_lt(b, a)),
{
    if lex_lt(a, b) && lex_lt(b, a) {
        let i = choose|i: int| lex_lt_at(a, b, i);
        let j = choose|j: int| lex_lt_at(b, a, j);
        if i < j {
        } else if j < i {
        } else {
        }
    }
}

pub proof fn lemma_lex_transitive(a: Seq<char>, b: Seq<char>, c: Seq<char>)
    requires
        lex_lt(a, b),
        lex_lt(b, c),
    ensures
        lex_lt(a, c),
{
    let i = choose|i: int| lex_lt_at(a, b, i);
    let j = choose|j: int| lex_lt_at(b, c, j);
    if i <= j {
        if i < j {
            assert(b[i] == c[i]);
        }
        assert(lex_lt_at(a, c, i));
    } else {
        assert(a[j] == b[j]);
        assert(lex_lt_at(a, c, j));
    }
}

pub proof fn lemma_lex_total(a: Seq<char>, b: Seq<char>)
    requires
        a != b,
    ensures
        lex_lt(a, b) || lex_lt(b, a),
{
    let m = if a.len() < b.len() {
        a.len() as int
    } else {
        b.len() as int
    };
    if forall|j: int| 0 <= j < m ==> a[j] == b[j] {
        if a.len() < b.len() {
            assert(lex_lt_at(a, b, m));
        } else if b.len() < a.len() {
            assert(lex_lt_at(b, a, m));
        } else {
            assert(a =~= b);
        }
    } else {
        let k = choose|k: int| 0 <= k < m && a[k] != b[k];
        let i = first_difference(a, b, k);
        if a[i] < b[i] {
            assert(lex_lt_at(a, b, i));
        } else {
            assert(lex_lt_at(b, a, i));
        }
    }
}

/// The first position at or before `k` where `a` and `b` differ.
proof fn first_difference(a: Seq<char>, b: Seq<char>, k: int) -> (i: int)
    requires
        0 <= k < a.len(),
        k < b.len(),
        a[k] != b[k],
    ensures
        0 <= i <= k,
        a[i] != b[i],
        forall|j: int| 0 <= j < i ==> a[j] == b[j],
    decreases k,
{
    if exists|j: int| 0 <= j < k && a[j] != b[j] {
        let j = choose|j: int| 0 <= j < k && a[j] != b[j];
        first_difference(a, b, j)
    } else {
        k
    }
}

/// In a strictly sorted table, position order is label order.
pub proof fn lemma_sorted_index_order(v: Seq<String>, i: int, j: int)
    requires
        strictly_sorted(v),
        0 <= i < v.len(),
        0 <= j < v.len(),
    ensures
        i < j <==> lex_lt(v[i]@, v[j]@),
        i == j <==> v[i]@ == v[j]@,
{
    if i < j {
        assert(lex_lt(v[i]@, v[j]@));
        lemma_lex_irreflexive(v[i]@);
    } else if j < i {
        assert(lex_lt(v[j]@, v[i]@));
        lemma_lex_asymmetric(v[i]@, v[j]@);
        lemma_lex_irreflexive(v[i]@);
    } else {
        lemma_lex_irreflexive(v[i]@);
    }
}

/// Whether label `a` comes before label `b`.
pub fn label_lt(a: &String, b: &String) -> (r: bool)
    ensures
        r == lex_lt(a@, b@),
{
    let sa = a.as_str();
    let sb = b.as_str();
    let la = sa.unicode_len();
    let lb = sb.unicode_len();
    let mut i: usize = 0;
    while i < la && i < lb
        invariant
            la == a@.len(),
            lb == b@.len(),
            sa@ == a@,
            sb@ == b@,
            i <= la,
            i <= lb,
            forall|j: int| 0 <= j < i ==> a@[j] == b@[j],
        decreases la - i,
    {
        let ca = sa.get_char(i);
        let cb = sb.get_char(i);
        if ca != cb {
            proof {
                if ca < cb {
                    assert(lex_lt_at(a@, b@, i as int));
                } else {
                    assert(lex_lt_at(b@, a@, i as int));
                    lemma_lex_asymmetric(a@, b@);
                }
            }
            return ca < cb;
        }
        i = i + 1;
    }
    proof {
        if i < lb {
            assert(lex_lt_at(a@, b@, i as int));
        } else {
            if lex_lt(a@, b@) {
                let k = choose|k: int| lex_lt_at(a@, b@, k);
                assert(k >= i);
            }
        }
    }
    i < lb
}

/// Adds `s` to the strictly sorted table `nodes` unless it is there already.
pub fn insert_label(nodes: &mut Vec<String>, s: &String)
    requires
        strictly_sorted(old(nodes)@),
    ensures
        strictly_sorted(final(nodes)@),
        forall|x: Seq<char>| views(final(nodes)@).contains(x) <==> (views(old(nodes)@).contains(x) || x == s@),
{
    let ghost o = nodes@;
    let mut p: usize = 0;
    while p < nodes.len() && label_lt(&nodes[p], s)
        invariant
            nodes@ == o,
            p <= nodes@.len(),
            forall|a: int| 0 <= a < p ==> lex_lt(#[trigger] nodes@[a]@, s@),
        decreases nodes@.len() - p,
    {
        p = p + 1;
    }
    proof {
        assert(views(o).len() == o.len());
        lemma_views_contains(o);
    }
    if p < nodes.len() && nodes[p] == *s {
        proof {
            assert(views(o)[p as int] == s@);
        }
    } else {
        proof {
            if p < o.len() {
                lemma_lex_total(s@, o[p as int]@);
            }
        }
        nodes.insert(p, s.clone());
        proof {
            let r = nodes@;
            assert(r == o.insert(p as int, *s));
            assert(forall|k: int| 0 <= k < p ==> r[k] == o[k]);
            assert(r[p as int] == *s);
            assert(forall|k: int| p < k < r.len() ==> r[k] == o[k - 1]);
            assert forall|a: int, b: int| 0 <= a < b < r.len() implies lex_lt(#[trigger] r[a]@, #[trigger] r[b]@) by {
                if b < p {
                    assert(lex_lt(o[a]@, o[b]@));
                } else if a < p && b == p {
                } else if a < p {
                    assert(lex_lt(o[a]@, o[b - 1]@));
                } else if a == p {
                    if b - 1 > p {
                        assert(lex_lt(o[p as int]@, o[b - 1]@));
                        lemma_lex_transitive(s@, o[p as int]@, o[b - 1]@);
                    }
                } else {
                    assert(lex_lt(o[a - 1]@, o[b - 1]@));
                }
            }
            lemma_views_contains(r);
            assert forall|x: Seq<char>| views(r).contains(x) <==> (views(o).contains(x) || x == s@) by {
                if views(r).contains(x) {
                    let k = choose|k: int| 0 <= k < r.len() && r[k]@ == x;
                    if k < p {
                        assert(o[k]@ == x);
                    } else if k > p {
                        assert(o[k - 1]@ == x);
                    }
                }
                if views(o).contains(x) {
                    let k = choose|k: int| 0 <= k < o.len() && o[k]@ == x;
                    if k < p {
                        assert(r[k]@ == x);
                    } else {
                        assert(r[k + 1]@ == x);
                    }
                }
                if x == s@ {
                    assert(r[p as int]@ == x);
                }
            }
        }
    }
}

/// `views(v)` holds exactly the labels of the entries of `v`.
pub proof fn lemma_views_contains(v: Seq<String>)
    ensures
        views(v).len() == v.len(),
        forall|k: int| 0 <= k < v.len() ==> #[trigger] views(v)[k] == v[k]@,
        forall|x: Seq<char>| views(v).contains(x) <==> exists|k: int| 0 <= k < v.len() && #[trigger] v[k]@ == x,
{
    assert forall|x: Seq<char>| views(v).contains(x) <==> exists|k: int| 0 <= k < v.len() && #[trigger] v[k]@ == x by {
        if views(v).contains(x) {
            let k = choose|k: int| 0 <= k < views(v).len() && views(v)[k] == x;
            assert(v[k]@ == x);
        }
        if exists|k: int| 0 <= k < v.len() && #[trigger] v[k]@ == x {
            let k = choose|k: int| 0 <= k < v.len() && #[trigger] v[k]@ == x;
            assert(views(v)[k] == x);
        }
    }
}

/// The position of label `s` in the table `nodes`.
pub fn index_of(nodes: &Vec<String>, s: &String) -> (i: usize)
    requires
        exists|k: int| 0 <= k < nodes@.len() && #[trigger] nodes@[k]@ == s@,
    ensures
        i < nodes@.len(),
        nodes@[i as int]@ == s@,
        forall|k: int| 0 <= k < i ==> #[trigger] nodes@[k]@ != s@,
{
    let mut i: usize = 0;
    while i < nodes.len()
        invariant
            i <= nodes@.len(),
            forall|k: int| 0 <= k < i ==> #[trigger] nodes@[k]@ != s@,
            exists|k: int| 0 <= k < nodes@.len() && #[trigger] nodes@[k]@ == s@,
        decreases nodes@.len() - i,
    {
        if nodes[i] == *s {
            return i;
        }
        i = i + 1;
    }
    i
}


/// Labels in strictly increasing order.
pub open spec fn labels_increasing(s: Seq<Seq<char>>) -> bool {
    forall|a: int, b: int| 0 <= a < b < s.len() ==> lex_lt(#[trigger] s[a], #[trigger] s[b])
}

proof fn lemma_increasing_prefix(s1: Seq<Seq<char>>, s2: Seq<Seq<char>>, i: int)
    requires
        labels_increasing(s1),
        labels_increasing(s2),
        forall|x: Seq<char>| s1.contains(x) <==> s2.contains(x),
        0 <= i <= s1.len(),
        i <= s2.len(),
    ensures
        forall|k: int| 0 <= k < i ==> #[trigger] s1[k] == s2[k],
    decreases i,
{
    if i > 0 {
        lemma_increasing_prefix(s1, s2, i - 1);
        let m = i - 1;
        let a = s1[m];
        let b = s2[m];
        if a != b {
            lemma_lex_total(a, b);
            lemma_lex_asymmetric(a, b);
            if lex_lt(a, b) {
                assert(s1.contains(a));
                let j = choose|j: int| 0 <= j < s2.len() && s2[j] == a;
                if j < m {
                    assert(s1[j] == s2[j]);
                    assert(lex_lt(s1[j], s1[m]));
                    lemma_lex_irreflexive(a);
                } else {
                    assert(lex_lt(s2[m], s2[j]));
                }
            } else {
                assert(s2.contains(b));
                let j = choose|j: int| 0 <= j < s1.len() && s1[j] == b;
                if j < m {
                    assert(s1[j] == s2[j]);
                    assert(lex_lt(s2[j], s2[m]));
                    lemma_lex_irreflexive(b);
                } else {
                    assert(lex_lt(s1[m], s1[j]));
                }
            }
        }
    }
}

/// Two strictly increasing sequences of labels with the same members are equal.
pub proof fn lemma_increasing_unique(s1: Seq<Seq<char>>, s2: Seq<Seq<char>>)
    requires
        labels_increasing(s1),
        labels_increasing(s2),
        forall|x: Seq<char>| s1.contains(x) <==> s2.contains(x),
    ensures
        s1 == s2,
{
    let m = if s1.len() < s2.len() {
        s1.len() as int
    } else {
        s2.len() as int
    };
    lemma_increasing_prefix(s1, s2, m);
    if s1.len() < s2.len() {
        let x = s2[m];
        assert(s2.contains(x));
        let j = choose|j: int| 0 <= j < s1.len() && s1[j] == x;
        assert(s1[j] == s2[j]);
        assert(lex_lt(s2[j], s2[m]));
        lemma_lex_irreflexive(x);
    } else if s2.len() < s1.len() {
        let x = s1[m];
        assert(s1.contains(x));
        let j = choose|j: int| 0 <= j < s2.len() && s2[j] == x;
        assert(s1[j] == s2[j]);
        assert(lex_lt(s1[j], s1[m]));
        lemma_lex_irreflexive(x);
    }
    assert(s1 =~= s2);
}


/// The label order, character by character: the empty label comes before every
/// other and after none, and two labels compare by their first characters, or,
/// where those are equal, by the rest.
pub proof fn law_label_order(c: char, d: char, a: Seq<char>, b: Seq<char>)
    ensures
        lex_lt(Seq::<char>::empty(), seq![d] + b),
        !lex_lt(a, Seq::<char>::empty()),
        lex_lt(seq![c] + a, seq![d] + b) <==> (c < d || (c == d && lex_lt(a, b))),
{
    let x = seq![c] + a;
    let y = seq![d] + b;
    assert(lex_lt_at(Seq::<char>::empty(), y, 0));
    if lex_lt(a, Seq::<char>::empty()) {
        let i = choose|i: int| #[trigger] lex_lt_at(a, Seq::<char>::empty(), i);
    }
    if lex_lt(x, y) {
        let i = choose|i: int| #[trigger] lex_lt_at(x, y, i);
        if i > 0 {
            assert(x[0] == y[0]);
            assert forall|j: int| 0 <= j < i - 1 implies a[j] == b[j] by {
                assert(x[j + 1] == y[j + 1]);
            }
            if i == x.len() {
                assert(lex_lt_at(a, b, i - 1));
            } else {
                assert(x[i] == a[i - 1] && y[i] == b[i - 1]);
                assert(lex_lt_at(a, b, i - 1));
            }
        }
    }
    if c < d {
        assert(lex_lt_at(x, y, 0));
    }
    if c == d && lex_lt(a, b) {
        let i = choose|i: int| #[trigger] lex_lt_at(a, b, i);
        assert forall|j: int| 0 <= j < i + 1 implies x[j] == y[j] by {
            if j > 0 {
                assert(x[j] == a[j - 1] && y[j] == b[j - 1]);
            }
        }
        if i < a.len() {
            assert(x[i + 1] == a[i] && y[i + 1] == b[i]);
        }
        assert(lex_lt_at(x, y, i + 1));
    }
}

} // verus!
