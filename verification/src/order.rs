//! Lexicographic order on strings and on pairs of strings, and a sort of
//! prerequisite edges by it.
//!
//! `str`'s `Ord` compares UTF-8 bytes; for valid UTF-8 that is the same as
//! comparing the characters' scalar values one by one, which is what
//! `seq_lt` states.

use vstd::prelude::*;

use crate::text::char_vecs;

verus! {

broadcast use vstd::seq_lib::group_to_multiset_ensures;

/// `a` sorts strictly before `b`: at the first difference `a` has the
/// smaller character, or `a` is a proper prefix of `b`.
pub open spec fn seq_lt(a: Seq<char>, b: Seq<char>) -> bool
    decreases a.len(),
{
    if a.len() == 0 {
        b.len() > 0
    } else if b.len() == 0 {
        false
    } else if a[0] != b[0] {
        a[0] < b[0]
    } else {
        seq_lt(a.drop_first(), b.drop_first())
    }
}

/// Order on (prerequisite, dependent) edges: by the first component, then
/// the second.
pub open spec fn edge_le(x: (Seq<char>, Seq<char>), y: (Seq<char>, Seq<char>)) -> bool {
    seq_lt(x.0, y.0) || (x.0 == y.0 && !seq_lt(y.1, x.1))
}

pub open spec fn edges_sorted(s: Seq<(Seq<char>, Seq<char>)>) -> bool {
    forall|i: int, j: int| 0 <= i < j < s.len() ==> edge_le(#[trigger] s[i], #[trigger] s[j])
}

pub proof fn lemma_seq_lt_trichotomy(a: Seq<char>, b: Seq<char>)
    ensures
        seq_lt(a, b) || a == b || seq_lt(b, a),
        !(seq_lt(a, b) && seq_lt(b, a)),
        !seq_lt(a, a),
    decreases a.len(),
{
    if a.len() > 0 && b.len() > 0 && a[0] == b[0] {
        lemma_seq_lt_trichotomy(a.drop_first(), b.drop_first());
        if a.drop_first() == b.drop_first() {
            assert forall|i: int| 0 <= i < a.len() implies a[i] == b[i] by {
                if i > 0 {
                    assert(a[i] == a.drop_first()[i - 1]);
                    assert(b[i] == b.drop_first()[i - 1]);
                }
            }
            assert(a =~= b);
        }
    } else if a.len() == 0 && b.len() == 0 {
        assert(a =~= b);
    }
    if a.len() > 0 {
        lemma_seq_lt_trichotomy(a.drop_first(), a.drop_first());
    }
}

pub proof fn lemma_seq_lt_transitive(a: Seq<char>, b: Seq<char>, c: Seq<char>)
    requires
        seq_lt(a, b),
        seq_lt(b, c),
    ensures
        seq_lt(a, c),
    decreases a.len(),
{
    if a.len() > 0 && b.len() > 0 && c.len() > 0 && a[0] == b[0] && b[0] == c[0] {
        lemma_seq_lt_transitive(a.drop_first(), b.drop_first(), c.drop_first());
    }
}

pub proof fn lemma_edge_le_total(x: (Seq<char>, Seq<char>), y: (Seq<char>, Seq<char>))
    ensures
        edge_le(x, y) || edge_le(y, x),
        edge_le(x, y) && edge_le(y, x) ==> x == y,
        edge_le(x, x),
{
    lemma_seq_lt_trichotomy(x.0, y.0);
    lemma_seq_lt_trichotomy(x.1, y.1);
    lemma_seq_lt_trichotomy(x.0, x.0);
    lemma_seq_lt_trichotomy(x.1, x.1);
}

pub proof fn lemma_edge_le_transitive(
    x: (Seq<char>, Seq<char>),
    y: (Seq<char>, Seq<char>),
    z: (Seq<char>, Seq<char>),
)
    requires
        edge_le(x, y),
        edge_le(y, z),
    ensures
        edge_le(x, z),
{
    lemma_seq_lt_trichotomy(x.0, z.0);
    lemma_seq_lt_trichotomy(x.1, z.1);
    lemma_seq_lt_trichotomy(y.1, z.1);
    lemma_seq_lt_trichotomy(x.1, y.1);
    if seq_lt(x.0, y.0) && seq_lt(y.0, z.0) {
        lemma_seq_lt_transitive(x.0, y.0, z.0);
    }
    if x.0 == y.0 && y.0 == z.0 && seq_lt(z.1, x.1) {
        if seq_lt(x.1, y.1) {
            lemma_seq_lt_transitive(z.1, x.1, y.1);
        } else if x.1 == y.1 {
        } else {
            assert(seq_lt(y.1, x.1));
        }
    }
}

/// Two sorted arrangements of the same edges are the same sequence.
pub proof fn lemma_sorted_unique(a: Seq<(Seq<char>, Seq<char>)>, b: Seq<(Seq<char>, Seq<char>)>)
    requires
        edges_sorted(a),
        edges_sorted(b),
        a.to_multiset() == b.to_multiset(),
    ensures
        a == b,
    decreases a.len(),
{
    assert(a.to_multiset().len() == a.len());
    assert(b.to_multiset().len() == b.len());
    assert(a.len() == b.len());
    if a.len() > 0 {
        assert(a.to_multiset().count(a[0]) > 0);
        assert(b.contains(a[0]));
        let j = choose|j: int| 0 <= j < b.len() && b[j] == a[0];
        assert(b.to_multiset().count(b[0]) > 0);
        assert(a.contains(b[0]));
        let k = choose|k: int| 0 <= k < a.len() && a[k] == b[0];
        if j > 0 {
            assert(edge_le(b[0], b[j]));
        } else {
            lemma_edge_le_total(b[0], b[0]);
        }
        if k > 0 {
            assert(edge_le(a[0], a[k]));
        } else {
            lemma_edge_le_total(a[0], a[0]);
        }
        lemma_edge_le_total(a[0], b[0]);
        assert(a[0] == b[0]);
        assert(a.remove(0) =~= a.drop_first());
        assert(b.remove(0) =~= b.drop_first());
        assert(a.drop_first().to_multiset() == a.to_multiset().remove(a[0]));
        assert(b.drop_first().to_multiset() == b.to_multiset().remove(b[0]));
        assert(edges_sorted(a.drop_first())) by {
            assert forall|i: int, j: int| 0 <= i < j < a.drop_first().len() implies edge_le(
                #[trigger] a.drop_first()[i],
                #[trigger] a.drop_first()[j],
            ) by {
                assert(edge_le(a[i + 1], a[j + 1]));
            }
        }
        assert(edges_sorted(b.drop_first())) by {
            assert forall|i: int, j: int| 0 <= i < j < b.drop_first().len() implies edge_le(
                #[trigger] b.drop_first()[i],
                #[trigger] b.drop_first()[j],
            ) by {
                assert(edge_le(b[i + 1], b[j + 1]));
            }
        }
        lemma_sorted_unique(a.drop_first(), b.drop_first());
        assert(a =~= b) by {
            assert forall|i: int| 0 <= i < a.len() implies a[i] == b[i] by {
                if i > 0 {
                    assert(a[i] == a.drop_first()[i - 1]);
                    assert(b[i] == b.drop_first()[i - 1]);
                }
            }
        }
    }
}

/// The views of a sequence of character-vector pairs.
pub open spec fn edge_views(v: Seq<(Vec<char>, Vec<char>)>) -> Seq<(Seq<char>, Seq<char>)> {
    v.map_values(|e: (Vec<char>, Vec<char>)| (e.0@, e.1@))
}

/// Whether `a` sorts strictly before `b`.
pub fn chars_lt(a: &[char], b: &[char]) -> (r: bool)
    ensures
        r == seq_lt(a@, b@),
{
    let mut i: usize = 0;
    assert(a@.subrange(0, a@.len() as int) =~= a@);
    assert(b@.subrange(0, b@.len() as int) =~= b@);
    while i < a.len() && i < b.len()
        invariant
            i <= a@.len(),
            i <= b@.len(),
            a@.subrange(0, i as int) == b@.subrange(0, i as int),
            seq_lt(a@, b@) == seq_lt(a@.subrange(i as int, a@.len() as int), b@.subrange(i as int, b@.len() as int)),
        decreases a@.len() - i,
    {
        if a[i] != b[i] {
            return a[i] < b[i];
        }
        assert(a@.subrange(i as int, a@.len() as int).drop_first() =~= a@.subrange(i + 1, a@.len() as int));
        assert(b@.subrange(i as int, b@.len() as int).drop_first() =~= b@.subrange(i + 1, b@.len() as int));
        assert(a@.subrange(0, i + 1) =~= a@.subrange(0, i as int).push(a@[i as int]));
        assert(b@.subrange(0, i + 1) =~= b@.subrange(0, i as int).push(b@[i as int]));
        i = i + 1;
    }
    i < b.len()
}

fn edge_le_exec(x: &(Vec<char>, Vec<char>), y: &(Vec<char>, Vec<char>)) -> (r: bool)
    ensures
        r == edge_le((x.0@, x.1@), (y.0@, y.1@)),
{
    if chars_lt(x.0.as_slice(), y.0.as_slice()) {
        return true;
    }
    let same = !chars_lt(y.0.as_slice(), x.0.as_slice()) && !chars_lt(x.0.as_slice(), y.0.as_slice());
    proof {
        lemma_seq_lt_trichotomy(x.0@, y.0@);
    }
    same && !chars_lt(y.1.as_slice(), x.1.as_slice())
}

/// The edges in ascending order (insertion sort).
pub fn sort_edges(v: Vec<(Vec<char>, Vec<char>)>) -> (r: Vec<(Vec<char>, Vec<char>)>)
    ensures
        edges_sorted(edge_views(r@)),
        edge_views(r@).to_multiset() == edge_views(v@).to_multiset(),
{
    let ghost orig = edge_views(v@);
    let mut r: Vec<(Vec<char>, Vec<char>)> = Vec::new();
    let mut rest = v;
    let mut i: usize = 0;
    let n = rest.len();
    assert(orig.take(0) =~= Seq::<(Seq<char>, Seq<char>)>::empty());
    while i < n
        invariant
            n == orig.len(),
            i <= n,
            rest@.len() == n - i,
            forall|k: int| 0 <= k < rest@.len() ==> (#[trigger] rest@[k].0@, rest@[k].1@) == orig[k],
            edges_sorted(edge_views(r@)),
            edge_views(r@).to_multiset() == orig.subrange(n - i, n as int).to_multiset(),
        decreases n - i,
    {
        let ghost rest0 = rest@;
        let e = rest.pop().unwrap();
        let ghost ev = (e.0@, e.1@);
        assert(e == rest0[n - 1 - i]);
        assert(ev == orig[n - 1 - i]);
        let ghost rv = edge_views(r@);
        let mut k: usize = 0;
        while k < r.len() && edge_le_exec(&r[k], &e)
            invariant
                k <= r@.len(),
                rv == edge_views(r@),
                ev == (e.0@, e.1@),
                forall|j: int| 0 <= j < k ==> edge_le(#[trigger] rv[j], ev),
            decreases r@.len() - k,
        {
            k = k + 1;
        }
        proof {
            assert forall|j: int| k <= j < rv.len() implies edge_le(ev, #[trigger] rv[j]) by {
                lemma_edge_le_total(rv[k as int], ev);
                if j > k {
                    assert(edge_le(rv[k as int], rv[j]));
                    lemma_edge_le_transitive(ev, rv[k as int], rv[j]);
                }
            }
        }
        r.insert(k, e);
        proof {
            let nv = edge_views(r@);
            assert(nv =~= rv.insert(k as int, ev));
            assert forall|a: int, b: int| 0 <= a < b < nv.len() implies edge_le(#[trigger] nv[a], #[trigger] nv[b]) by {
                if a < k && b < k {
                    assert(nv[a] == rv[a] && nv[b] == rv[b]);
                } else if a < k && b == k {
                    assert(nv[a] == rv[a]);
                } else if a < k && b > k {
                    assert(nv[a] == rv[a] && nv[b] == rv[b - 1]);
                    assert(edge_le(rv[a], ev));
                    lemma_edge_le_transitive(rv[a], ev, rv[b - 1]);
                } else if a == k {
                    assert(nv[b] == rv[b - 1]);
                } else {
                    assert(nv[a] == rv[a - 1] && nv[b] == rv[b - 1]);
                }
            }
            let lo = n - 1 - i;
            assert(orig.subrange(lo, n as int) =~= orig.subrange(lo + 1, n as int).insert(0, orig[lo]));
            assert(orig.subrange(lo, n as int).to_multiset() == orig.subrange(lo + 1, n as int).to_multiset().insert(orig[lo]));
            assert(nv.to_multiset() == rv.to_multiset().insert(ev));
        }
        i = i + 1;
    }
    assert(orig.subrange(0, n as int) =~= orig);
    r
}

} // verus!
