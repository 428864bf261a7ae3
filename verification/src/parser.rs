//! Entries of the form `X->Y`: validation and de-duplication.
use vstd::prelude::*;
use vstd::string::*;
use crate::labels::views;

verus! {

/// The characters with the Unicode `White_Space` property (PropList.txt).
pub open spec fn is_white_space(c: char) -> bool {
    let u = c as u32;
    ||| 0x09 <= u <= 0x0D
    ||| u == 0x20
    ||| u == 0x85
    ||| u == 0xA0
    ||| u == 0x1680
    ||| 0x2000 <= u <= 0x200A
    ||| u == 0x2028
    ||| u == 0x2029
    ||| u == 0x202F
    ||| u == 0x205F
    ||| u == 0x3000
}

/// Whether `c` has the Unicode `White_Space` property, as `char::is_whitespace`
/// and `str::trim` decide it.
fn char_is_whitespace(c: char) -> (r: bool)
    ensures
        r == is_white_space(c),
{
    let u = c as u32;
    (0x09 <= u && u <= 0x0D) || u == 0x20 || u == 0x85 || u == 0xA0 || u == 0x1680 || (0x2000 <= u && u
        <= 0x200A) || u == 0x2028 || u == 0x2029 || u == 0x202F || u == 0x205F || u == 0x3000
}

/// `String::from(char)`: the string of the one character `c`.
#[verifier::external_body]
fn char_string(c: char) -> (s: String)
    ensures
        s@ == seq![c],
{
    String::from(c)
}

/// An ASCII uppercase letter.
pub open spec fn is_upper(c: char) -> bool {
    'A' <= c <= 'Z'
}

/// Past `a` characters of white space, `s` reads `X->Y` with uppercase ASCII
/// letters `X` and `Y`, and nothing but white space follows.
pub open spec fn edge_at(s: Seq<char>, a: int) -> bool {
    &&& 0 <= a
    &&& a + 4 <= s.len()
    &&& forall|i: int| 0 <= i < a ==> is_white_space(#[trigger] s[i])
    &&& forall|i: int| a + 4 <= i < s.len() ==> is_white_space(#[trigger] s[i])
    &&& is_upper(s[a])
    &&& s[a + 1] == '-'
    &&& s[a + 2] == '>'
    &&& is_upper(s[a + 3])
}

/// The edge that an entry names: `Some((X, Y))` where the entry, trimmed of
/// white space, is `X->Y` with distinct uppercase letters; `None` for any other
/// entry, a self-loop `X->X` included.
#[verifier::opaque]
pub open spec fn entry_edge(s: Seq<char>) -> Option<(char, char)> {
    if exists|a: int| #[trigger] edge_at(s, a) {
        let a = choose|a: int| #[trigger] edge_at(s, a);
        if s[a] != s[a + 3] {
            Some((s[a], s[a + 3]))
        } else {
            None
        }
    } else {
        None
    }
}

/// The edge of entry `i`.
pub open spec fn edge_of(data: Seq<Seq<char>>, i: int) -> Option<(char, char)> {
    entry_edge(data[i])
}

/// The edge `(p, c)` as a pair of one-letter strings.
pub open spec fn edge_strings(e: (String, String)) -> (char, char) {
    (e.0@[0], e.1@[0])
}

/// Some entry before position `j` names the edge `e`.
pub open spec fn occurs_before(data: Seq<Seq<char>>, e: (char, char), j: int) -> bool {
    exists|i: int| 0 <= i < j && #[trigger] edge_of(data, i) == Some(e)
}

/// `vs` lists the edges of `data`, each once, in the order of their first entry.
pub open spec fn first_occurrences(data: Seq<Seq<char>>, vs: Seq<(char, char)>) -> bool {
    &&& vs.no_duplicates()
    &&& forall|e: (char, char)| #[trigger] vs.contains(e) <==> occurs_before(data, e, data.len() as int)
    &&& forall|a: int, b: int, j: int|
        #![trigger vs[a], vs[b], edge_of(data, j)]
        0 <= a < b < vs.len() && 0 <= j < data.len() && edge_of(data, j) == Some(vs[b]) ==> occurs_before(
            data,
            vs[a],
            j,
        )
}

/// Entries `i < j` name the same edge `e`.
pub open spec fn repeated_at(data: Seq<Seq<char>>, e: (char, char), i: int, j: int) -> bool {
    &&& 0 <= i < j < data.len()
    &&& edge_of(data, i) == Some(e)
    &&& edge_of(data, j) == Some(e)
}

/// Two entries before position `j` name the edge `e`.
pub open spec fn repeated_before(data: Seq<Seq<char>>, e: (char, char), j: int) -> bool {
    exists|i1: int, i2: int| i2 < j && #[trigger] repeated_at(data, e, i1, i2)
}

/// `ds` lists the edges that `data` names more than once, each once, in the
/// order of their second entry.
pub open spec fn second_occurrences(data: Seq<Seq<char>>, ds: Seq<(char, char)>) -> bool {
    &&& ds.no_duplicates()
    &&& forall|e: (char, char)| #[trigger] ds.contains(e) <==> repeated_before(data, e, data.len() as int)
    &&& forall|a: int, b: int, j1: int, j2: int|
        #![trigger ds[a], repeated_at(data, ds[b], j1, j2)]
        0 <= a < b < ds.len() && repeated_at(data, ds[b], j1, j2) ==> repeated_before(data, ds[a], j2)
}

/// The text `X->Y` of an edge.
pub open spec fn edge_key(e: (char, char)) -> Seq<char> {
    seq![e.0, '-', '>', e.1]
}

/// The entries that name no edge, in order.
pub open spec fn invalid_of(data: Seq<Seq<char>>) -> Seq<Seq<char>> {
    data.filter(|s: Seq<char>| entry_edge(s) is None)
}

/// An entry names an edge only between two distinct uppercase letters.
pub proof fn law_entry_edge_proper(s: Seq<char>)
    ensures
        entry_edge(s) matches Some(e) ==> is_upper(e.0) && is_upper(e.1) && e.0 != e.1,
{
    reveal(entry_edge);
}

/// The text `X->Y` of an edge between distinct uppercase letters, with white
/// space before and after it or not, names that edge again.
pub proof fn law_edge_key_roundtrip(e: (char, char), pad_front: Seq<char>, pad_back: Seq<char>)
    requires
        is_upper(e.0),
        is_upper(e.1),
        e.0 != e.1,
        forall|i: int| 0 <= i < pad_front.len() ==> is_white_space(#[trigger] pad_front[i]),
        forall|i: int| 0 <= i < pad_back.len() ==> is_white_space(#[trigger] pad_back[i]),
    ensures
        entry_edge(pad_front + edge_key(e) + pad_back) == Some(e),
{
    reveal(entry_edge);
    let s = pad_front + edge_key(e) + pad_back;
    let a = pad_front.len() as int;
    assert(s[a] == e.0 && s[a + 1] == '-' && s[a + 2] == '>' && s[a + 3] == e.1);
    assert forall|i: int| 0 <= i < a implies is_white_space(#[trigger] s[i]) by {
        assert(s[i] == pad_front[i]);
    }
    assert forall|i: int| a + 4 <= i < s.len() implies is_white_space(#[trigger] s[i]) by {
        assert(s[i] == pad_back[i - a - 4]);
    }
    assert(edge_at(s, a));
    let b = choose|b: int| #[trigger] edge_at(s, b);
    assert(b == a) by {
        if b < a {
            assert(is_white_space(s[b]));
        }
        if a < b {
            assert(is_white_space(s[a]));
        }
    }
}

/// Every edge reported as repeated is also among the valid edges.
pub proof fn law_duplicates_are_valid(data: Seq<Seq<char>>, vs: Seq<(char, char)>, ds: Seq<(char, char)>)
    requires
        first_occurrences(data, vs),
        second_occurrences(data, ds),
    ensures
        forall|e: (char, char)| #[trigger] ds.contains(e) ==> vs.contains(e),
{
    assert forall|e: (char, char)| #[trigger] ds.contains(e) implies vs.contains(e) by {
        assert(repeated_before(data, e, data.len() as int));
        let (i1, i2) = choose|i1: int, i2: int| i2 < data.len() && #[trigger] repeated_at(data, e, i1, i2);
        assert(occurs_before(data, e, data.len() as int)) by {
            assert(edge_of(data, i1) == Some(e));
        }
    }
}

/// Whether `(p, c)` is in `v`.
fn contains_pair(v: &Vec<(char, char)>, p: char, c: char) -> (r: bool)
    ensures
        r == v@.contains((p, c)),
{
    let mut i: usize = 0;
    while i < v.len()
        invariant
            i <= v@.len(),
            forall|q: int| 0 <= q < i ==> v@[q] != (p, c),
        decreases v@.len() - i,
    {
        if v[i].0 == p && v[i].1 == c {
            proof {
                assert(v@[i as int] == (p, c));
            }
            return true;
        }
        i = i + 1;
    }
    false
}

/// The entries sorted into valid edges, invalid entries and repeated edges.
pub struct ParseResult {
    /// Valid, deduplicated (parent, child) pairs in encounter order.
    pub valid_edges: Vec<(String, String)>,
    pub invalid_entries: Vec<String>,
    /// Edges met more than once, each listed once, as `X->Y`.
    pub duplicate_edges: Vec<String>,
}

/// The first and last position of the trimmed text of `s`: `s[a..b]` is `s`
/// without its leading and trailing white space.
fn trim_bounds(s: &str) -> (r: (usize, usize))
    ensures
        r.0 <= r.1 <= s@.len(),
        forall|i: int| 0 <= i < r.0 ==> is_white_space(#[trigger] s@[i]),
        forall|i: int| r.1 <= i < s@.len() ==> is_white_space(#[trigger] s@[i]),
        r.0 < r.1 ==> !is_white_space(s@[r.0 as int]) && !is_white_space(s@[r.1 - 1]),
{
    let len = s.unicode_len();
    let mut a: usize = 0;
    while a < len && char_is_whitespace(s.get_char(a))
        invariant
            len == s@.len(),
            a <= len,
            forall|i: int| 0 <= i < a ==> is_white_space(#[trigger] s@[i]),
        decreases len - a,
    {
        a = a + 1;
    }
    let mut b: usize = len;
    while b > a && char_is_whitespace(s.get_char(b - 1))
        invariant
            len == s@.len(),
            a <= b <= len,
            forall|i: int| b <= i < len ==> is_white_space(#[trigger] s@[i]),
            a < len ==> !is_white_space(s@[a as int]),
        decreases b - a,
    {
        b = b - 1;
    }
    (a, b)
}

/// The letters `(X, Y)` of an entry that reads `X->Y` once trimmed of white
/// space, self-loops included.
fn parse_edge(raw: &String) -> (r: Option<(char, char)>)
    ensures
        r is Some <==> exists|a: int| #[trigger] edge_at(raw@, a),
        r matches Some(e) ==> ({
            let a = choose|a: int| #[trigger] edge_at(raw@, a);
            e == (raw@[a], raw@[a + 3])
        }),
{
    let s = raw.as_str();
    let (a, b) = trim_bounds(s);
    let ghost v = raw@;
    proof {
        assert forall|a2: int| #[trigger] edge_at(v, a2) implies a2 == a && a2 + 4 == b by {
            assert(!is_white_space(v[a2]));
            assert(!is_white_space(v[a2 + 3]));
            if a2 < a {
                assert(is_white_space(v[a2]));
            }
            if a < a2 {
                assert(is_white_space(v[a as int]));
            }
            if b < a2 + 4 {
                assert(is_white_space(v[a2 + 3]));
            }
            if a2 + 4 < b {
                assert(is_white_space(v[b - 1]));
            }
        }
    }
    if b - a == 4 {
        let x = s.get_char(a);
        let d = s.get_char(a + 1);
        let g = s.get_char(a + 2);
        let y = s.get_char(a + 3);
        if 'A' <= x && x <= 'Z' && d == '-' && g == '>' && 'A' <= y && y <= 'Z' {
            proof {
                assert(edge_at(v, a as int));
            }
            return Some((x, y));
        }
    }
    None
}

/// Validates and deduplicates the raw input strings.
pub fn parse_entries(data: &[String]) -> (res: ParseResult)
    ensures
        views(res.invalid_entries@) == invalid_of(views(data@)),
        res.valid_edges@.len() <= data@.len(),
        forall|k: int|
            0 <= k < res.valid_edges@.len() ==> (#[trigger] res.valid_edges@[k]).0@.len() == 1
                && res.valid_edges@[k].1@.len() == 1 && is_upper(res.valid_edges@[k].0@[0]) && is_upper(
                res.valid_edges@[k].1@[0],
            ) && res.valid_edges@[k].0@[0] != res.valid_edges@[k].1@[0],
        first_occurrences(views(data@), res.valid_edges@.map_values(|e: (String, String)| edge_strings(e))),
        exists|ds: Seq<(char, char)>|
            second_occurrences(views(data@), ds) && ds.len() == res.duplicate_edges@.len() && forall|k: int|
                0 <= k < ds.len() ==> #[trigger] res.duplicate_edges@[k]@ == edge_key(ds[k]),
{
    let ghost dv = views(data@);
    let mut valid_edges: Vec<(String, String)> = Vec::new();
    let mut invalid_entries: Vec<String> = Vec::new();
    let mut duplicate_edges: Vec<String> = Vec::new();
    // The edges accepted and the edges reported as repeated, as letter pairs.
    let mut seen_edges: Vec<(char, char)> = Vec::new();
    let mut reported_duplicates: Vec<(char, char)> = Vec::new();
    let mut k: usize = 0;
    while k < data.len()
        invariant
            k <= data@.len(),
            dv == views(data@),
            views(invalid_entries@) == invalid_of(dv.take(k as int)),
            valid_edges@.len() == seen_edges@.len(),
            valid_edges@.len() <= k,
            forall|q: int|
                0 <= q < valid_edges@.len() ==> (#[trigger] valid_edges@[q]).0@ == seq![seen_edges@[q].0]
                    && valid_edges@[q].1@ == seq![seen_edges@[q].1],
            first_occurrences(dv.take(k as int), seen_edges@),
            second_occurrences(dv.take(k as int), reported_duplicates@),
            duplicate_edges@.len() == reported_duplicates@.len(),
            forall|q: int|
                0 <= q < reported_duplicates@.len() ==> #[trigger] duplicate_edges@[q]@ == edge_key(
                    reported_duplicates@[q],
                ),
        decreases data@.len() - k,
    {
        let raw = &data[k];
        let parsed = parse_edge(raw);
        let ghost pre = dv.take(k as int);
        let ghost post = dv.take(k + 1);
        proof {
            lemma_views_len(data@);
            assert(post =~= pre.push(raw@));
            assert(dv[k as int] == raw@);
        }
        let ghost inv0 = invalid_entries@;
        proof {
            lemma_invalid_push(pre, raw@);
            reveal(entry_edge);
        }
        match parsed {
            None => {
                invalid_entries.push(raw.clone());
                proof {
                    lemma_step_invalid(pre, raw@, seen_edges@, reported_duplicates@);
                    assert(views(invalid_entries@) =~= views(inv0).push(raw@));
                }
            },
            Some((p, c)) => {
                if p == c {
                    invalid_entries.push(raw.clone());
                    proof {
                        assert(entry_edge(raw@) is None);
                        lemma_step_invalid(pre, raw@, seen_edges@, reported_duplicates@);
                        assert(views(invalid_entries@) =~= views(inv0).push(raw@));
                    }
                } else {
                    proof {
                        assert(entry_edge(raw@) == Some((p, c)));
                    }
                    let e = (p, c);
                    let found = contains_pair(&seen_edges, p, c);
                    let ghost seen0 = seen_edges@;
                    let ghost rep0 = reported_duplicates@;
                    proof {
                        if found {
                            lemma_step_repeat(pre, raw@, e, seen0, rep0);
                        } else {
                            lemma_step_new(pre, raw@, e, seen0, rep0);
                        }
                    }
                    if found {
                        let reported = contains_pair(&reported_duplicates, p, c);
                        if !reported {
                            let mut key = char_string(p);
                            key.append("->");
                            let tail = char_string(c);
                            key.append(tail.as_str());
                            proof {
                                reveal_strlit("->");
                                assert(key@ =~= edge_key(e));
                            }
                            duplicate_edges.push(key);
                            reported_duplicates.push(e);
                        }
                    } else {
                        seen_edges.push(e);
                        valid_edges.push((char_string(p), char_string(c)));
                    }
                }
            },
        }
        k = k + 1;
    }
    proof {
        assert(dv.take(data@.len() as int) =~= dv);
        assert forall|q: int| 0 <= q < valid_edges@.len() implies is_upper(seen_edges@[q].0) && is_upper(
            seen_edges@[q].1,
        ) && seen_edges@[q].0 != seen_edges@[q].1 by {
            assert(seen_edges@.contains(seen_edges@[q]));
            let i = choose|i: int| 0 <= i < dv.len() && #[trigger] edge_of(dv, i) == Some(seen_edges@[q]);
            law_entry_edge_proper(dv[i]);
        }
        assert(valid_edges@.map_values(|e: (String, String)| edge_strings(e)) =~= seen_edges@);
        assert(second_occurrences(dv, reported_duplicates@));
    }
    ParseResult { valid_edges, invalid_entries, duplicate_edges }
}

proof fn lemma_views_len(v: Seq<String>)
    ensures
        views(v).len() == v.len(),
        forall|k: int| 0 <= k < v.len() ==> #[trigger] views(v)[k] == v[k]@,
{
}


/// Appending an entry appends it to the invalid entries exactly when it names no edge.
proof fn lemma_invalid_push(pre: Seq<Seq<char>>, x: Seq<char>)
    ensures
        invalid_of(pre.push(x)) == if entry_edge(x) is None {
            invalid_of(pre).push(x)
        } else {
            invalid_of(pre)
        },
{
    reveal_with_fuel(Seq::filter, 2);
    let post = pre.push(x);
    assert(post.drop_last() =~= pre);
    assert(post.last() == x);
    assert(post.len() > 0);
    assert(invalid_of(post) == post.filter(|s: Seq<char>| entry_edge(s) is None));
}

/// How occurrences and repetitions grow when an entry is appended.
proof fn lemma_push_facts(pre: Seq<Seq<char>>, x: Seq<char>)
    ensures
        forall|i: int| 0 <= i < pre.len() ==> #[trigger] edge_of(pre.push(x), i) == edge_of(pre, i),
        edge_of(pre.push(x), pre.len() as int) == entry_edge(x),
        forall|e: (char, char), j: int|
            j <= pre.len() ==> (#[trigger] occurs_before(pre.push(x), e, j) <==> occurs_before(pre, e, j)),
        forall|e: (char, char)|
            #[trigger] occurs_before(pre.push(x), e, pre.len() as int + 1) <==> (occurs_before(pre, e, pre.len() as int)
                || entry_edge(x) == Some(e)),
        forall|e: (char, char), j: int|
            j <= pre.len() ==> (#[trigger] repeated_before(pre.push(x), e, j) <==> repeated_before(pre, e, j)),
        forall|e: (char, char)|
            #[trigger] repeated_before(pre.push(x), e, pre.len() as int + 1) <==> (repeated_before(pre, e, pre.len() as int)
                || (occurs_before(pre, e, pre.len() as int) && entry_edge(x) == Some(e))),
        forall|e: (char, char), i: int, j: int|
            j < pre.len() ==> (#[trigger] repeated_at(pre.push(x), e, i, j) <==> repeated_at(pre, e, i, j)),
{
    let post = pre.push(x);
    let k = pre.len() as int;
    assert forall|i: int| 0 <= i < pre.len() implies #[trigger] edge_of(post, i) == edge_of(pre, i) by {
        assert(post[i] == pre[i]);
    }
    assert(post[k] == x);
    assert forall|e: (char, char), j: int| j <= k implies (#[trigger] occurs_before(post, e, j) <==> occurs_before(
        pre,
        e,
        j,
    )) by {
        if occurs_before(post, e, j) {
            let i = choose|i: int| 0 <= i < j && #[trigger] edge_of(post, i) == Some(e);
            assert(edge_of(pre, i) == Some(e));
        }
        if occurs_before(pre, e, j) {
            let i = choose|i: int| 0 <= i < j && #[trigger] edge_of(pre, i) == Some(e);
            assert(edge_of(post, i) == Some(e));
        }
    }
    assert forall|e: (char, char)| #[trigger] occurs_before(post, e, k + 1) <==> (occurs_before(pre, e, k)
        || entry_edge(x) == Some(e)) by {
        if occurs_before(post, e, k + 1) {
            let i = choose|i: int| 0 <= i < k + 1 && #[trigger] edge_of(post, i) == Some(e);
            if i < k {
                assert(edge_of(pre, i) == Some(e));
            }
        }
        if occurs_before(pre, e, k) {
            let i = choose|i: int| 0 <= i < k && #[trigger] edge_of(pre, i) == Some(e);
            assert(edge_of(post, i) == Some(e));
        }
        if entry_edge(x) == Some(e) {
            assert(edge_of(post, k) == Some(e));
        }
    }
    assert forall|e: (char, char), i: int, j: int| j < k implies (#[trigger] repeated_at(post, e, i, j)
        <==> repeated_at(pre, e, i, j)) by {
        if 0 <= i < j {
            assert(edge_of(post, i) == edge_of(pre, i));
            assert(edge_of(post, j) == edge_of(pre, j));
        }
    }
    assert forall|e: (char, char), j: int| j <= k implies (#[trigger] repeated_before(post, e, j)
        <==> repeated_before(pre, e, j)) by {
        if repeated_before(post, e, j) {
            let (i1, i2) = choose|i1: int, i2: int| i2 < j && #[trigger] repeated_at(post, e, i1, i2);
            assert(repeated_at(pre, e, i1, i2));
        }
        if repeated_before(pre, e, j) {
            let (i1, i2) = choose|i1: int, i2: int| i2 < j && #[trigger] repeated_at(pre, e, i1, i2);
            assert(repeated_at(post, e, i1, i2));
        }
    }
    assert forall|e: (char, char)| #[trigger] repeated_before(post, e, k + 1) <==> (repeated_before(pre, e, k) || (
    occurs_before(pre, e, k) && entry_edge(x) == Some(e))) by {
        if repeated_before(post, e, k + 1) {
            let (i1, i2) = choose|i1: int, i2: int| i2 < k + 1 && #[trigger] repeated_at(post, e, i1, i2);
            if i2 < k {
                assert(repeated_at(pre, e, i1, i2));
            } else {
                assert(edge_of(pre, i1) == Some(e));
            }
        }
        if repeated_before(pre, e, k) {
            let (i1, i2) = choose|i1: int, i2: int| i2 < k && #[trigger] repeated_at(pre, e, i1, i2);
            assert(repeated_at(post, e, i1, i2));
        }
        if occurs_before(pre, e, k) && entry_edge(x) == Some(e) {
            let i = choose|i: int| 0 <= i < k && #[trigger] edge_of(pre, i) == Some(e);
            assert(repeated_at(post, e, i, k));
        }
    }
}

/// Appending one item that is not in a duplicate-free sequence keeps it duplicate-free.
proof fn lemma_push_no_dup<A>(v: Seq<A>, x: A)
    requires
        v.no_duplicates(),
        !v.contains(x),
    ensures
        v.push(x).no_duplicates(),
        forall|y: A| #[trigger] v.push(x).contains(y) <==> (v.contains(y) || y == x),
{
    let w = v.push(x);
    assert forall|a: int, b: int| 0 <= a < w.len() && 0 <= b < w.len() && a != b implies w[a] != w[b] by {
        if a < v.len() && b < v.len() {
            assert(v[a] != v[b]);
        } else if a < v.len() {
            assert(v.contains(v[a]));
        } else {
            assert(v.contains(v[b]));
        }
    }
    assert forall|y: A| #[trigger] w.contains(y) <==> (v.contains(y) || y == x) by {
        if w.contains(y) {
            let q = choose|q: int| 0 <= q < w.len() && w[q] == y;
            if q < v.len() {
                assert(v[q] == y);
            }
        }
        if v.contains(y) {
            let q = choose|q: int| 0 <= q < v.len() && v[q] == y;
            assert(w[q] == y);
        }
        if y == x {
            assert(w[v.len() as int] == y);
        }
    }
}

/// An entry that names no edge changes neither list.
proof fn lemma_step_invalid(pre: Seq<Seq<char>>, x: Seq<char>, seen: Seq<(char, char)>, rep: Seq<(char, char)>)
    requires
        entry_edge(x) is None,
        first_occurrences(pre, seen),
        second_occurrences(pre, rep),
    ensures
        first_occurrences(pre.push(x), seen),
        second_occurrences(pre.push(x), rep),
{
    let post = pre.push(x);
    let k = pre.len() as int;
    lemma_push_facts(pre, x);
    assert forall|e: (char, char)| #[trigger] seen.contains(e) <==> occurs_before(post, e, post.len() as int) by {
        assert(occurs_before(post, e, k + 1) <==> occurs_before(pre, e, k));
    }
    assert forall|a: int, b: int, j: int|
        #![trigger seen[a], seen[b], edge_of(post, j)]
        0 <= a < b < seen.len() && 0 <= j < post.len() && edge_of(post, j) == Some(seen[b]) implies occurs_before(
        post,
        seen[a],
        j,
    ) by {
        assert(j < k);
        assert(edge_of(pre, j) == Some(seen[b]));
        assert(occurs_before(pre, seen[a], j));
    }
    assert forall|e: (char, char)| #[trigger] rep.contains(e) <==> repeated_before(post, e, post.len() as int) by {
        assert(repeated_before(post, e, k + 1) <==> repeated_before(pre, e, k));
    }
    assert forall|a: int, b: int, j1: int, j2: int|
        #![trigger rep[a], repeated_at(post, rep[b], j1, j2)]
        0 <= a < b < rep.len() && repeated_at(post, rep[b], j1, j2) implies repeated_before(post, rep[a], j2) by {
        assert(j2 < k);
        assert(repeated_at(pre, rep[b], j1, j2));
        assert(repeated_before(pre, rep[a], j2));
    }
}

/// A new edge goes to the end of the first-occurrence list.
proof fn lemma_step_new(
    pre: Seq<Seq<char>>,
    x: Seq<char>,
    e: (char, char),
    seen: Seq<(char, char)>,
    rep: Seq<(char, char)>,
)
    requires
        entry_edge(x) == Some(e),
        !seen.contains(e),
        first_occurrences(pre, seen),
        second_occurrences(pre, rep),
    ensures
        first_occurrences(pre.push(x), seen.push(e)),
        second_occurrences(pre.push(x), rep),
{
    let post = pre.push(x);
    let k = pre.len() as int;
    let vs = seen.push(e);
    lemma_push_facts(pre, x);
    lemma_push_no_dup(seen, e);
    assert(!occurs_before(pre, e, k));
    assert forall|f: (char, char)| #[trigger] vs.contains(f) <==> occurs_before(post, f, post.len() as int) by {
        assert(occurs_before(post, f, k + 1) <==> (occurs_before(pre, f, k) || entry_edge(x) == Some(f)));
        assert(seen.contains(f) <==> occurs_before(pre, f, k));
    }
    assert forall|a: int, b: int, j: int|
        #![trigger vs[a], vs[b], edge_of(post, j)]
        0 <= a < b < vs.len() && 0 <= j < post.len() && edge_of(post, j) == Some(vs[b]) implies occurs_before(
        post,
        vs[a],
        j,
    ) by {
        assert(vs[a] == seen[a]);
        if b < seen.len() {
            assert(vs[b] == seen[b]);
            if j == k {
                assert(seen.contains(seen[b]));
                assert(false);
            }
            assert(edge_of(pre, j) == Some(seen[b]));
            assert(occurs_before(pre, seen[a], j));
        } else {
            if j < k {
                assert(edge_of(pre, j) == Some(e));
                assert(occurs_before(pre, e, k));
            }
            assert(seen.contains(seen[a]));
            assert(occurs_before(pre, seen[a], k));
        }
    }
    assert forall|f: (char, char)| #[trigger] rep.contains(f) <==> repeated_before(post, f, post.len() as int) by {
        assert(repeated_before(post, f, k + 1) <==> (repeated_before(pre, f, k) || (occurs_before(pre, f, k)
            && entry_edge(x) == Some(f))));
    }
    assert forall|a: int, b: int, j1: int, j2: int|
        #![trigger rep[a], repeated_at(post, rep[b], j1, j2)]
        0 <= a < b < rep.len() && repeated_at(post, rep[b], j1, j2) implies repeated_before(post, rep[a], j2) by {
        if j2 == k {
            assert(edge_of(pre, j1) == Some(e));
            assert(occurs_before(pre, e, k));
        }
        assert(repeated_at(pre, rep[b], j1, j2));
        assert(repeated_before(pre, rep[a], j2));
    }
}

/// An edge met before keeps the first-occurrence list; it joins the repeated
/// list when it repeats for the first time.
proof fn lemma_step_repeat(
    pre: Seq<Seq<char>>,
    x: Seq<char>,
    e: (char, char),
    seen: Seq<(char, char)>,
    rep: Seq<(char, char)>,
)
    requires
        entry_edge(x) == Some(e),
        seen.contains(e),
        first_occurrences(pre, seen),
        second_occurrences(pre, rep),
    ensures
        first_occurrences(pre.push(x), seen),
        !rep.contains(e) ==> second_occurrences(pre.push(x), rep.push(e)),
        rep.contains(e) ==> second_occurrences(pre.push(x), rep),
{
    let post = pre.push(x);
    let k = pre.len() as int;
    lemma_push_facts(pre, x);
    assert(occurs_before(pre, e, k));
    assert forall|f: (char, char)| #[trigger] seen.contains(f) <==> occurs_before(post, f, post.len() as int) by {
        assert(occurs_before(post, f, k + 1) <==> (occurs_before(pre, f, k) || entry_edge(x) == Some(f)));
    }
    assert forall|a: int, b: int, j: int|
        #![trigger seen[a], seen[b], edge_of(post, j)]
        0 <= a < b < seen.len() && 0 <= j < post.len() && edge_of(post, j) == Some(seen[b]) implies occurs_before(
        post,
        seen[a],
        j,
    ) by {
        if j < k {
            assert(edge_of(pre, j) == Some(seen[b]));
            assert(occurs_before(pre, seen[a], j));
        } else {
            assert(seen.contains(seen[a]));
            assert(occurs_before(pre, seen[a], k));
        }
    }
    if !rep.contains(e) {
        let ds = rep.push(e);
        lemma_push_no_dup(rep, e);
        assert(!repeated_before(pre, e, k));
        assert forall|f: (char, char)| #[trigger] ds.contains(f) <==> repeated_before(post, f, post.len() as int) by {
            assert(repeated_before(post, f, k + 1) <==> (repeated_before(pre, f, k) || (occurs_before(pre, f, k)
                && entry_edge(x) == Some(f))));
        }
        assert forall|a: int, b: int, j1: int, j2: int|
            #![trigger ds[a], repeated_at(post, ds[b], j1, j2)]
            0 <= a < b < ds.len() && repeated_at(post, ds[b], j1, j2) implies repeated_before(post, ds[a], j2) by {
            assert(ds[a] == rep[a]);
            assert(rep.contains(rep[a]));
            assert(repeated_before(pre, rep[a], k));
            if b < rep.len() {
                assert(ds[b] == rep[b]);
                assert(rep.contains(rep[b]));
                if j2 == k {
                    assert(repeated_before(pre, rep[b], k));
                    assert(edge_of(pre, j1) == Some(e));
                    let (h1, h2) = choose|h1: int, h2: int| h2 < k && #[trigger] repeated_at(pre, rep[b], h1, h2);
                    assert(rep[b] == e);
                    assert(false);
                }
                assert(repeated_at(pre, rep[b], j1, j2));
                assert(repeated_before(pre, rep[a], j2));
            } else {
                if j2 < k {
                    assert(repeated_at(pre, e, j1, j2));
                    assert(false);
                }
            }
        }
    } else {
        assert forall|f: (char, char)| #[trigger] rep.contains(f) <==> repeated_before(post, f, post.len() as int) by {
            assert(repeated_before(post, f, k + 1) <==> (repeated_before(pre, f, k) || (occurs_before(pre, f, k)
                && entry_edge(x) == Some(f))));
        }
        assert forall|a: int, b: int, j1: int, j2: int|
            #![trigger rep[a], repeated_at(post, rep[b], j1, j2)]
            0 <= a < b < rep.len() && repeated_at(post, rep[b], j1, j2) implies repeated_before(post, rep[a], j2) by {
            assert(rep.contains(rep[a]));
            assert(repeated_before(pre, rep[a], k));
            if j2 < k {
                assert(repeated_at(pre, rep[b], j1, j2));
                assert(repeated_before(pre, rep[a], j2));
            }
        }
    }
}


/// Entry `j` names edge `e` (or, with `second`, names it and some earlier entry
/// names it too).
spec fn occ_at(data: Seq<Seq<char>>, second: bool, e: (char, char), j: int) -> bool {
    if second {
        exists|i: int| #[trigger] repeated_at(data, e, i, j)
    } else {
        0 <= j < data.len() && edge_of(data, j) == Some(e)
    }
}

/// Among the places where `occ` holds of `a` or of `b`, there is a first one.
proof fn lemma_first_place(data: Seq<Seq<char>>, second: bool, a: (char, char), b: (char, char), i: int) -> (m: int)
    requires
        occ_at(data, second, a, i) || occ_at(data, second, b, i),
        forall|e: (char, char), j: int| #[trigger] occ_at(data, second, e, j) ==> j >= 0,
    ensures
        occ_at(data, second, a, m) || occ_at(data, second, b, m),
        forall|j: int| #![trigger occ_at(data, second, a, j)] #![trigger occ_at(data, second, b, j)] 0 <= j < m ==> !occ_at(data, second, a, j) && !occ_at(data, second, b, j),
    decreases i,
{
    assert(i >= 0);
    if exists|j: int| #![trigger occ_at(data, second, a, j)] #![trigger occ_at(data, second, b, j)] 0 <= j < i && (occ_at(data, second, a, j) || occ_at(data, second, b, j)) {
        let j = choose|j: int| #![trigger occ_at(data, second, a, j)] #![trigger occ_at(data, second, b, j)] 0 <= j < i && (occ_at(data, second, a, j) || occ_at(data, second, b, j));
        lemma_first_place(data, second, a, b, j)
    } else {
        i
    }
}

/// Some entry is a place of `e`.
spec fn has_place(data: Seq<Seq<char>>, second: bool, e: (char, char)) -> bool {
    exists|j: int| #[trigger] occ_at(data, second, e, j)
}

/// Some entry before `j` is a place of `e`.
spec fn placed_before(data: Seq<Seq<char>>, second: bool, e: (char, char), j: int) -> bool {
    exists|i: int| 0 <= i < j && #[trigger] occ_at(data, second, e, i)
}

/// `s` lists its members each once, each before any later member's places.
spec fn listed_by_place(s: Seq<(char, char)>, data: Seq<Seq<char>>, second: bool) -> bool {
    &&& s.no_duplicates()
    &&& forall|k: int| 0 <= k < s.len() ==> has_place(data, second, #[trigger] s[k])
    &&& forall|a: int, b: int, j: int|
        #![trigger s[a], occ_at(data, second, s[b], j)]
        0 <= a < b < s.len() && occ_at(data, second, s[b], j) ==> placed_before(data, second, s[a], j)
}

proof fn lemma_listed_no_swap(
    s1: Seq<(char, char)>,
    s2: Seq<(char, char)>,
    data: Seq<Seq<char>>, second: bool,
    m: int,
    ja: int,
    jb: int,
)
    requires
        listed_by_place(s1, data, second),
        listed_by_place(s2, data, second),
        forall|e: (char, char), j: int| #[trigger] occ_at(data, second, e, j) ==> j >= 0,
        0 <= m,
        0 <= ja < s2.len(),
        0 <= jb < s1.len(),
        m < s1.len(),
        m < s2.len(),
        s2[ja] == s1[m],
        s1[jb] == s2[m],
    ensures
        ja <= m || jb <= m,
{
    if ja <= m || jb <= m {
        return;
    }
    let a = s1[m];
    let b = s2[m];
    assert(has_place(data, second, s1[m]));
    let i0 = choose|j: int| #[trigger] occ_at(data, second, s1[m], j);
    let f = lemma_first_place(data, second, a, b, i0);
    if occ_at(data, second, a, f) {
        assert(occ_at(data, second, s2[ja], f));
        assert(placed_before(data, second, s2[m], f));
        let i = choose|i: int| 0 <= i < f && #[trigger] occ_at(data, second, s2[m], i);
        assert(!occ_at(data, second, b, i));
    } else {
        assert(occ_at(data, second, s1[jb], f));
        assert(placed_before(data, second, s1[m], f));
        let i = choose|i: int| 0 <= i < f && #[trigger] occ_at(data, second, s1[m], i);
        assert(!occ_at(data, second, a, i));
    }
}

proof fn lemma_listed_prefix(
    s1: Seq<(char, char)>,
    s2: Seq<(char, char)>,
    data: Seq<Seq<char>>, second: bool,
    n: int,
)
    requires
        listed_by_place(s1, data, second),
        listed_by_place(s2, data, second),
        forall|e: (char, char), j: int| #[trigger] occ_at(data, second, e, j) ==> j >= 0,
        forall|x: (char, char)| s1.contains(x) <==> s2.contains(x),
        0 <= n <= s1.len(),
        n <= s2.len(),
    ensures
        forall|k: int| 0 <= k < n ==> #[trigger] s1[k] == s2[k],
    decreases n,
{
    if n > 0 {
        lemma_listed_prefix(s1, s2, data, second, n - 1);
        let m = n - 1;
        let a = s1[m];
        let b = s2[m];
        if a != b {
            assert(s1.contains(a));
            let ja = choose|j: int| 0 <= j < s2.len() && s2[j] == a;
            assert(s2.contains(b));
            let jb = choose|j: int| 0 <= j < s1.len() && s1[j] == b;
            if ja < m {
                assert(s1[ja] == s2[ja]);
                assert(s1.no_duplicates());
            } else if jb < m {
                assert(s1[jb] == s2[jb]);
                assert(s2.no_duplicates());
            } else {
                lemma_listed_no_swap(s1, s2, data, second, m, ja, jb);
            }
        }
    }
}

/// Two lists of the same members, each listing them in the order of their first
/// places, are equal.
proof fn lemma_listed_unique(s1: Seq<(char, char)>, s2: Seq<(char, char)>, data: Seq<Seq<char>>, second: bool)
    requires
        listed_by_place(s1, data, second),
        listed_by_place(s2, data, second),
        forall|e: (char, char), j: int| #[trigger] occ_at(data, second, e, j) ==> j >= 0,
        forall|x: (char, char)| s1.contains(x) <==> s2.contains(x),
    ensures
        s1 == s2,
{
    let m = if s1.len() < s2.len() {
        s1.len() as int
    } else {
        s2.len() as int
    };
    lemma_listed_prefix(s1, s2, data, second, m);
    if s1.len() < s2.len() {
        assert(s2.contains(s2[m]));
        let j = choose|j: int| 0 <= j < s1.len() && s1[j] == s2[m];
        assert(s1[j] == s2[j]);
    } else if s2.len() < s1.len() {
        assert(s1.contains(s1[m]));
        let j = choose|j: int| 0 <= j < s2.len() && s2[j] == s1[m];
        assert(s1[j] == s2[j]);
    }
    assert(s1 =~= s2);
}

proof fn lemma_first_listed(data: Seq<Seq<char>>, vs: Seq<(char, char)>)
    requires
        first_occurrences(data, vs),
    ensures
        listed_by_place(vs, data, false),
{
    let second = false;
    assert forall|k: int| 0 <= k < vs.len() implies has_place(data, second, #[trigger] vs[k]) by {
        assert(vs.contains(vs[k]));
        let j = choose|j: int| 0 <= j < data.len() && #[trigger] edge_of(data, j) == Some(vs[k]);
        assert(occ_at(data, second, vs[k], j));
    }
    assert forall|a: int, b: int, j: int|
        #![trigger vs[a], occ_at(data, second, vs[b], j)]
        0 <= a < b < vs.len() && occ_at(data, second, vs[b], j) implies placed_before(data, second, vs[a], j) by {
        assert(edge_of(data, j) == Some(vs[b]));
        assert(occurs_before(data, vs[a], j));
        let i = choose|i: int| 0 <= i < j && #[trigger] edge_of(data, i) == Some(vs[a]);
        assert(occ_at(data, second, vs[a], i));
    }
    assert(vs.no_duplicates());
}

proof fn lemma_second_listed(data: Seq<Seq<char>>, ds: Seq<(char, char)>)
    requires
        second_occurrences(data, ds),
    ensures
        listed_by_place(ds, data, true),
{
    let second = true;
    assert forall|k: int| 0 <= k < ds.len() implies has_place(data, second, #[trigger] ds[k]) by {
        assert(ds.contains(ds[k]));
        let (i1, i2) = choose|i1: int, i2: int| i2 < data.len() && #[trigger] repeated_at(data, ds[k], i1, i2);
        assert(occ_at(data, second, ds[k], i2));
    }
    assert forall|a: int, b: int, j: int|
        #![trigger ds[a], occ_at(data, second, ds[b], j)]
        0 <= a < b < ds.len() && occ_at(data, second, ds[b], j) implies placed_before(data, second, ds[a], j) by {
        let j1 = choose|i: int| #[trigger] repeated_at(data, ds[b], i, j);
        assert(repeated_before(data, ds[a], j));
        let (i1, i2) = choose|i1: int, i2: int| i2 < j && #[trigger] repeated_at(data, ds[a], i1, i2);
        assert(occ_at(data, second, ds[a], i2));
    }
}

/// The valid edges of a list of entries are determined by the entries.
pub proof fn law_first_occurrences_unique(data: Seq<Seq<char>>, vs1: Seq<(char, char)>, vs2: Seq<(char, char)>)
    requires
        first_occurrences(data, vs1),
        first_occurrences(data, vs2),
    ensures
        vs1 == vs2,
{
    let second = false;
    lemma_first_listed(data, vs1);
    lemma_first_listed(data, vs2);
    assert forall|e: (char, char), j: int| #[trigger] occ_at(data, second, e, j) implies j >= 0 by {}
    assert(listed_by_place(vs1, data, false));
    assert(listed_by_place(vs2, data, false));
    assert forall|x: (char, char)| vs1.contains(x) <==> vs2.contains(x) by {
        assert(vs1.contains(x) <==> occurs_before(data, x, data.len() as int));
        assert(vs2.contains(x) <==> occurs_before(data, x, data.len() as int));
    }
    lemma_listed_unique(vs1, vs2, data, false);
}

/// The repeated edges of a list of entries are determined by the entries.
pub proof fn law_second_occurrences_unique(data: Seq<Seq<char>>, ds1: Seq<(char, char)>, ds2: Seq<(char, char)>)
    requires
        second_occurrences(data, ds1),
        second_occurrences(data, ds2),
    ensures
        ds1 == ds2,
{
    let second = true;
    assert forall|e: (char, char), j: int| #[trigger] occ_at(data, second, e, j) implies j >= 0 by {
        let i = choose|i: int| #[trigger] repeated_at(data, e, i, j);
    }
    lemma_second_listed(data, ds1);
    lemma_second_listed(data, ds2);
    assert(listed_by_place(ds1, data, true));
    assert(listed_by_place(ds2, data, true));
    assert forall|x: (char, char)| ds1.contains(x) <==> ds2.contains(x) by {
        assert(ds1.contains(x) <==> repeated_before(data, x, data.len() as int));
        assert(ds2.contains(x) <==> repeated_before(data, x, data.len() as int));
    }
    lemma_listed_unique(ds1, ds2, data, true);
}


/// The entries `X->Y` that write out a list of edges.
pub open spec fn rendered_edges(vs: Seq<(char, char)>) -> Seq<Seq<char>> {
    vs.map_values(|e: (char, char)| edge_key(e))
}

proof fn lemma_invalid_none(d: Seq<Seq<char>>, i: int)
    requires
        0 <= i <= d.len(),
        forall|k: int| 0 <= k < d.len() ==> #[trigger] entry_edge(d[k]) is Some,
    ensures
        invalid_of(d.take(i)) == Seq::<Seq<char>>::empty(),
    decreases i,
{
    if i == 0 {
        assert(d.take(0) =~= Seq::<Seq<char>>::empty());
        assert(invalid_of(Seq::<Seq<char>>::empty()) =~= Seq::<Seq<char>>::empty());
    } else {
        lemma_invalid_none(d, i - 1);
        assert(d.take(i) =~= d.take(i - 1).push(d[i - 1]));
        lemma_invalid_push(d.take(i - 1), d[i - 1]);
        assert(entry_edge(d[i - 1]) is Some);
    }
}

/// Writing out the valid edges of a list of entries, one `X->Y` entry per edge,
/// and parsing that list again gives the same valid edges, no invalid entry and
/// no repeated edge.
pub proof fn law_rendered_edges_parse_back(data: Seq<Seq<char>>, vs: Seq<(char, char)>)
    requires
        first_occurrences(data, vs),
    ensures
        invalid_of(rendered_edges(vs)) == Seq::<Seq<char>>::empty(),
        first_occurrences(rendered_edges(vs), vs),
        second_occurrences(rendered_edges(vs), Seq::<(char, char)>::empty()),
{
    let d2 = rendered_edges(vs);
    assert forall|k: int| 0 <= k < vs.len() implies #[trigger] edge_of(d2, k) == Some(vs[k]) by {
        assert(vs.contains(vs[k]));
        assert(occurs_before(data, vs[k], data.len() as int));
        let i = choose|i: int| 0 <= i < data.len() && #[trigger] edge_of(data, i) == Some(vs[k]);
        law_entry_edge_proper(data[i]);
        law_edge_key_roundtrip(vs[k], Seq::<char>::empty(), Seq::<char>::empty());
        assert(Seq::<char>::empty() + edge_key(vs[k]) + Seq::<char>::empty() =~= edge_key(vs[k]));
        assert(d2[k] == edge_key(vs[k]));
    }
    assert forall|k: int| 0 <= k < d2.len() implies #[trigger] entry_edge(d2[k]) is Some by {
        assert(edge_of(d2, k) == Some(vs[k]));
    }
    lemma_invalid_none(d2, d2.len() as int);
    assert(d2.take(d2.len() as int) =~= d2);
    assert forall|e: (char, char)| #[trigger] vs.contains(e) <==> occurs_before(d2, e, d2.len() as int) by {
        if vs.contains(e) {
            let k = choose|k: int| 0 <= k < vs.len() && vs[k] == e;
            assert(edge_of(d2, k) == Some(vs[k]));
        }
        if occurs_before(d2, e, d2.len() as int) {
            let i = choose|i: int| 0 <= i < d2.len() && #[trigger] edge_of(d2, i) == Some(e);
            assert(edge_of(d2, i) == Some(vs[i]));
        }
    }
    assert forall|a: int, b: int, j: int|
        #![trigger vs[a], vs[b], edge_of(d2, j)]
        0 <= a < b < vs.len() && 0 <= j < d2.len() && edge_of(d2, j) == Some(vs[b]) implies occurs_before(
            d2,
            vs[a],
            j,
        ) by {
        assert(edge_of(d2, j) == Some(vs[j]));
        assert(vs.no_duplicates());
        assert(j == b);
        assert(edge_of(d2, a) == Some(vs[a]));
    }
    assert forall|e: (char, char)| #[trigger] Seq::<(char, char)>::empty().contains(e) <==> repeated_before(
        d2,
        e,
        d2.len() as int,
    ) by {
        if repeated_before(d2, e, d2.len() as int) {
            let (i1, i2) = choose|i1: int, i2: int| i2 < d2.len() as int && #[trigger] repeated_at(d2, e, i1, i2);
            assert(edge_of(d2, i1) == Some(vs[i1]));
            assert(edge_of(d2, i2) == Some(vs[i2]));
            assert(vs.no_duplicates());
        }
    }
}


/// An entry of `data + data` names what the entry of `data` at the same place,
/// counted from the start of its copy, names.
proof fn lemma_doubled_edge(data: Seq<Seq<char>>, i: int)
    requires
        0 <= i < 2 * data.len(),
    ensures
        edge_of(data + data, i) == if i < data.len() {
            edge_of(data, i)
        } else {
            edge_of(data, i - data.len())
        },
{
    let dd = data + data;
    if i < data.len() {
        assert(dd[i] == data[i]);
    } else {
        assert(dd[i] == data[i - data.len()]);
    }
}

/// Parsing a list of entries written twice in a row gives the valid edges of the
/// list once, its invalid entries twice, and as repeated edges exactly the valid
/// edges, each once.
pub proof fn law_doubled_entries(data: Seq<Seq<char>>, vs: Seq<(char, char)>, ds: Seq<(char, char)>)
    requires
        first_occurrences(data, vs),
        second_occurrences(data + data, ds),
    ensures
        first_occurrences(data + data, vs),
        invalid_of(data + data) == invalid_of(data) + invalid_of(data),
        ds.len() == vs.len(),
        forall|e: (char, char)| #[trigger] ds.contains(e) <==> vs.contains(e),
{
    let dd = data + data;
    let n = data.len() as int;
    assert(dd.len() == 2 * n);
    Seq::filter_distributes_over_add(data, data, |s: Seq<char>| entry_edge(s) is None);
    assert forall|e: (char, char)| #[trigger] vs.contains(e) <==> occurs_before(dd, e, dd.len() as int) by {
        if vs.contains(e) {
            assert(occurs_before(data, e, n));
            let i = choose|i: int| 0 <= i < n && #[trigger] edge_of(data, i) == Some(e);
            lemma_doubled_edge(data, i);
            assert(edge_of(dd, i) == Some(e));
        }
        if occurs_before(dd, e, dd.len() as int) {
            let i = choose|i: int| 0 <= i < dd.len() && #[trigger] edge_of(dd, i) == Some(e);
            lemma_doubled_edge(data, i);
            if i < n {
                assert(edge_of(data, i) == Some(e));
            } else {
                assert(edge_of(data, i - n) == Some(e));
            }
            assert(occurs_before(data, e, n));
        }
    }
    assert forall|a: int, b: int, j: int|
        #![trigger vs[a], vs[b], edge_of(dd, j)]
        0 <= a < b < vs.len() && 0 <= j < dd.len() && edge_of(dd, j) == Some(vs[b]) implies occurs_before(
            dd,
            vs[a],
            j,
        ) by {
        lemma_doubled_edge(data, j);
        if j < n {
            assert(edge_of(data, j) == Some(vs[b]));
            assert(occurs_before(data, vs[a], j));
            let i = choose|i: int| 0 <= i < j && #[trigger] edge_of(data, i) == Some(vs[a]);
            lemma_doubled_edge(data, i);
            assert(edge_of(dd, i) == Some(vs[a]));
        } else {
            assert(vs.contains(vs[a]));
            assert(occurs_before(data, vs[a], n));
            let i = choose|i: int| 0 <= i < n && #[trigger] edge_of(data, i) == Some(vs[a]);
            lemma_doubled_edge(data, i);
            assert(edge_of(dd, i) == Some(vs[a]));
        }
    }
    assert forall|e: (char, char)| #[trigger] ds.contains(e) <==> vs.contains(e) by {
        if ds.contains(e) {
            assert(repeated_before(dd, e, dd.len() as int));
            let (i1, i2) = choose|i1: int, i2: int| i2 < dd.len() && #[trigger] repeated_at(dd, e, i1, i2);
            lemma_doubled_edge(data, i1);
            let k = if i1 < n {
                i1
            } else {
                i1 - n
            };
            assert(edge_of(data, k) == Some(e));
            assert(occurs_before(data, e, n));
        }
        if vs.contains(e) {
            assert(occurs_before(data, e, n));
            let i = choose|i: int| 0 <= i < n && #[trigger] edge_of(data, i) == Some(e);
            lemma_doubled_edge(data, i);
            lemma_doubled_edge(data, i + n);
            assert(repeated_at(dd, e, i, i + n));
            assert(repeated_before(dd, e, dd.len() as int));
        }
    }
    ds.unique_seq_to_set();
    vs.unique_seq_to_set();
    assert(ds.to_set() =~= vs.to_set());
}


/// The characters that trimming strips are exactly the 25 code points with the
/// Unicode `White_Space` property: TAB, LF, VT, FF, CR, SPACE, NEL, NO-BREAK
/// SPACE, OGHAM SPACE MARK, the eleven spaces U+2000 to U+200A, LINE SEPARATOR,
/// PARAGRAPH SEPARATOR, NARROW NO-BREAK SPACE, MEDIUM MATHEMATICAL SPACE and
/// IDEOGRAPHIC SPACE.
pub proof fn law_white_space_is_unicode(c: char)
    ensures
        is_white_space(c) <==> (c == '\u{0009}' || c == '\u{000A}' || c == '\u{000B}' || c == '\u{000C}' || c == '\u{000D}'
            || c == '\u{0020}' || c == '\u{0085}' || c == '\u{00A0}' || c == '\u{1680}' || c == '\u{2000}'
            || c == '\u{2001}' || c == '\u{2002}' || c == '\u{2003}' || c == '\u{2004}' || c == '\u{2005}'
            || c == '\u{2006}' || c == '\u{2007}' || c == '\u{2008}' || c == '\u{2009}' || c == '\u{200A}'
            || c == '\u{2028}' || c == '\u{2029}' || c == '\u{202F}' || c == '\u{205F}' || c == '\u{3000}'),
{
}

/// An entry `X->Y` between two distinct letters `A` to `Z`, with one
/// `White_Space` character before or after it (a carriage return from CRLF
/// text, say), names the edge `(X, Y)`: trimming strips that character.
pub proof fn law_trimmed_entry_names_edge(x: char, y: char, c: char)
    requires
        'A' <= x <= 'Z',
        'A' <= y <= 'Z',
        x != y,
        c == '\u{0009}' || c == '\u{000A}' || c == '\u{000B}' || c == '\u{000C}' || c == '\u{000D}'
            || c == '\u{0020}' || c == '\u{0085}' || c == '\u{00A0}' || c == '\u{1680}' || c == '\u{2000}'
            || c == '\u{2001}' || c == '\u{2002}' || c == '\u{2003}' || c == '\u{2004}' || c == '\u{2005}'
            || c == '\u{2006}' || c == '\u{2007}' || c == '\u{2008}' || c == '\u{2009}' || c == '\u{200A}'
            || c == '\u{2028}' || c == '\u{2029}' || c == '\u{202F}' || c == '\u{205F}' || c == '\u{3000}',
    ensures
        entry_edge(seq![c, x, '-', '>', y]) == Some((x, y)),
        entry_edge(seq![x, '-', '>', y, c]) == Some((x, y)),
{
    law_white_space_is_unicode(c);
    let e = (x, y);
    law_edge_key_roundtrip(e, seq![c], Seq::<char>::empty());
    law_edge_key_roundtrip(e, Seq::<char>::empty(), seq![c]);
    assert(seq![c] + edge_key(e) + Seq::<char>::empty() =~= seq![c, x, '-', '>', y]);
    assert(Seq::<char>::empty() + edge_key(e) + seq![c] =~= seq![x, '-', '>', y, c]);
}

/// Every entry `X->Y` between two distinct letters `A` to `Z`, and white space
/// of any length around it, names the edge `(X, Y)`.
pub proof fn law_letter_entries_name_edges(x: char, y: char, front: Seq<char>, back: Seq<char>)
    requires
        'A' <= x <= 'Z',
        'A' <= y <= 'Z',
        x != y,
        forall|i: int| 0 <= i < front.len() ==> is_white_space(#[trigger] front[i]),
        forall|i: int| 0 <= i < back.len() ==> is_white_space(#[trigger] back[i]),
    ensures
        entry_edge(seq![x, '-', '>', y]) == Some((x, y)),
        entry_edge(front + seq![x, '-', '>', y] + back) == Some((x, y)),
{
    let e = (x, y);
    law_edge_key_roundtrip(e, front, back);
    law_edge_key_roundtrip(e, Seq::<char>::empty(), Seq::<char>::empty());
    assert(Seq::<char>::empty() + edge_key(e) + Seq::<char>::empty() =~= seq![x, '-', '>', y]);
    assert(edge_key(e) =~= seq![x, '-', '>', y]);
}

/// An entry names an edge only between two distinct letters `A` to `Z`; a
/// self-loop `X->X` and an entry with any other character in place of a letter
/// name none.
pub proof fn law_edges_are_letter_pairs(s: Seq<char>, x: char, y: char)
    ensures
        entry_edge(s) matches Some(e) ==> 'A' <= e.0 <= 'Z' && 'A' <= e.1 <= 'Z' && e.0 != e.1,
        entry_edge(seq![x, '-', '>', x]) is None,
        !('A' <= x <= 'Z') ==> entry_edge(seq![x, '-', '>', y]) is None,
        !('A' <= y <= 'Z') ==> entry_edge(seq![x, '-', '>', y]) is None,
{
    reveal(entry_edge);
    let t = seq![x, '-', '>', x];
    if exists|a: int| #[trigger] edge_at(t, a) {
        let a = choose|a: int| #[trigger] edge_at(t, a);
        assert(a == 0);
    }
    let u = seq![x, '-', '>', y];
    if exists|a: int| #[trigger] edge_at(u, a) {
        let a = choose|a: int| #[trigger] edge_at(u, a);
        assert(a == 0);
    }
}

/// A character without the `White_Space` property is not trimmed: before or
/// after an entry `X->Y` it makes the entry name no edge.
pub proof fn law_other_characters_are_kept(x: char, y: char, c: char)
    requires
        'A' <= x <= 'Z',
        'A' <= y <= 'Z',
        !is_white_space(c),
    ensures
        entry_edge(seq![c, x, '-', '>', y]) is None,
        entry_edge(seq![x, '-', '>', y, c]) is None,
{
    reveal(entry_edge);
    let t = seq![c, x, '-', '>', y];
    if exists|a: int| #[trigger] edge_at(t, a) {
        let a = choose|a: int| #[trigger] edge_at(t, a);
        if a == 1 {
            assert(is_white_space(t[0]));
        } else {
            assert(a == 0);
            assert(t[1] == '-');
        }
    }
    let u = seq![x, '-', '>', y, c];
    if exists|a: int| #[trigger] edge_at(u, a) {
        let a = choose|a: int| #[trigger] edge_at(u, a);
        if a == 0 {
            assert(is_white_space(u[4]));
        } else {
            assert(a == 1);
            assert(is_upper(u[1]));
        }
    }
}

} // verus!
