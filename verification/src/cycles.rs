//! Cycle membership in the prerequisite graph.
//!
//! A task participates in a dependency cycle when following prerequisite
//! edges from it, one or more steps, leads back to it. Each key of the
//! adjacency list is checked by a graph search over key positions.

use vstd::prelude::*;

use crate::dag::{has_key, Dag};
use crate::text::strs;

verus! {

/// `b` is one of `a`'s prerequisites in the adjacency list `d`.
pub open spec fn has_edge(d: Seq<(String, Vec<String>)>, a: Seq<char>, b: Seq<char>) -> bool {
    exists|i: int, j: int|
        #![trigger d[i].1@[j]]
        0 <= i < d.len() && 0 <= j < d[i].1@.len() && d[i].0@ == a && d[i].1@[j]@ == b
}

/// `p` is a walk of one or more prerequisite edges.
pub open spec fn is_walk(d: Seq<(String, Vec<String>)>, p: Seq<Seq<char>>) -> bool {
    &&& p.len() >= 2
    &&& forall|k: int| 0 <= k < p.len() - 1 ==> #[trigger] has_edge(d, p[k], p[k + 1])
}

/// Following one or more prerequisite edges from `a` can reach `b`.
pub open spec fn reaches(d: Seq<(String, Vec<String>)>, a: Seq<char>, b: Seq<char>) -> bool {
    exists|p: Seq<Seq<char>>| #[trigger] is_walk(d, p) && p[0] == a && p.last() == b
}

/// `a` lies on a dependency cycle.
pub open spec fn on_cycle(d: Seq<(String, Vec<String>)>, a: Seq<char>) -> bool {
    reaches(d, a, a)
}

/// `ks` lists every key of `d` exactly once.
pub open spec fn key_list(d: Seq<(String, Vec<String>)>, ks: Seq<Seq<char>>) -> bool {
    &&& ks.no_duplicates()
    &&& forall|k: Seq<char>| #[trigger] ks.contains(k) <==> has_key(d, k)
}

/// `adj[x]` holds exactly the positions (in `ks`) of the prerequisites of
/// key `ks[x]`.
pub open spec fn adjacency(
    d: Seq<(String, Vec<String>)>,
    ks: Seq<Seq<char>>,
    adj: Seq<Vec<usize>>,
) -> bool {
    &&& adj.len() == ks.len()
    &&& forall|x: int, y: int|
        0 <= x < ks.len() && 0 <= y < ks.len() ==> (#[trigger] adj[x]@.contains(y as usize)
            <==> has_edge(d, ks[x], ks[y]))
    &&& forall|x: int, j: int|
        0 <= x < ks.len() && 0 <= j < adj[x]@.len() ==> #[trigger] adj[x]@[j] < ks.len()
}

/// Number of `false` entries.
pub open spec fn count_false(s: Seq<bool>) -> nat
    decreases s.len(),
{
    if s.len() == 0 {
        0
    } else {
        count_false(s.drop_last()) + if s.last() {
            0nat
        } else {
            1nat
        }
    }
}

proof fn lemma_count_false_set(s: Seq<bool>, i: int)
    requires
        0 <= i < s.len(),
        !s[i],
    ensures
        count_false(s.update(i, true)) + 1 == count_false(s),
    decreases s.len(),
{
    if i < s.len() - 1 {
        lemma_count_false_set(s.drop_last(), i);
        assert(s.update(i, true).drop_last() =~= s.drop_last().update(i, true));
    } else {
        assert(s.update(i, true).drop_last() =~= s.drop_last());
    }
}

proof fn lemma_edge_source_is_key(d: Seq<(String, Vec<String>)>, a: Seq<char>, b: Seq<char>)
    requires
        has_edge(d, a, b),
    ensures
        has_key(d, a),
{
    let (i, j) = choose|i: int, j: int|
        #![trigger d[i].1@[j]]
        0 <= i < d.len() && 0 <= j < d[i].1@.len() && d[i].0@ == a && d[i].1@[j]@ == b;
    assert(d[i].0@ == a);
}

/// A walk that starts at a key of a successor-closed set of positions
/// (one that already holds every successor of the start) ends, when its
/// end is a key, inside that set.
proof fn lemma_closed_set_holds_walk_ends(
    d: Seq<(String, Vec<String>)>,
    ks: Seq<Seq<char>>,
    adj: Seq<Vec<usize>>,
    u: int,
    visited: Seq<bool>,
    p: Seq<Seq<char>>,
    k: int,
)
    requires
        key_list(d, ks),
        adjacency(d, ks, adj),
        0 <= u < ks.len(),
        visited.len() == ks.len(),
        forall|y: int| 0 <= y < ks.len() && has_edge(d, ks[u], ks[y]) ==> #[trigger] visited[y],
        forall|x: int, y: int|
            0 <= x < ks.len() && 0 <= y < ks.len() && #[trigger] visited[x] && has_edge(
                d,
                ks[x],
                ks[y],
            ) ==> #[trigger] visited[y],
        is_walk(d, p),
        p[0] == ks[u],
        1 <= k < p.len(),
        has_key(d, p[k]),
    ensures
        exists|y: int| 0 <= y < ks.len() && ks[y] == p[k] && #[trigger] visited[y],
    decreases k,
{
    assert(ks.contains(p[k]));
    let y = choose|y: int| 0 <= y < ks.len() && ks[y] == p[k];
    let k1 = k - 1;
    assert(has_edge(d, p[k1], p[k1 + 1]));
    assert(has_edge(d, p[k - 1], p[k]));
    if k == 1 {
        assert(visited[y]);
    } else {
        lemma_edge_source_is_key(d, p[k - 1], p[k]);
        lemma_closed_set_holds_walk_ends(d, ks, adj, u, visited, p, k - 1);
        let x = choose|x: int| 0 <= x < ks.len() && ks[x] == p[k - 1] && #[trigger] visited[x];
        assert(visited[y]);
    }
}

/// Extending a walk by one edge.
proof fn lemma_reaches_step(d: Seq<(String, Vec<String>)>, a: Seq<char>, b: Seq<char>, c: Seq<char>)
    requires
        reaches(d, a, b),
        has_edge(d, b, c),
    ensures
        reaches(d, a, c),
{
    let p = choose|p: Seq<Seq<char>>| #[trigger] is_walk(d, p) && p[0] == a && p.last() == b;
    let q = p.push(c);
    assert forall|k: int| 0 <= k < q.len() - 1 implies #[trigger] has_edge(d, q[k], q[k + 1]) by {
        if k < p.len() - 1 {
            assert(q[k] == p[k] && q[k + 1] == p[k + 1]);
        } else {
            assert(q[k] == b && q[k + 1] == c);
        }
    }
    assert(is_walk(d, q));
}

/// One edge is a walk.
proof fn lemma_reaches_edge(d: Seq<(String, Vec<String>)>, a: Seq<char>, b: Seq<char>)
    requires
        has_edge(d, a, b),
    ensures
        reaches(d, a, b),
{
    let q = seq![a, b];
    assert(has_edge(d, q[0], q[1]));
    assert(is_walk(d, q));
}

/// The keys of `d`, each once, in order of first appearance.
fn distinct_keys(d: &Vec<(String, Vec<String>)>) -> (ks: Vec<String>)
    ensures
        key_list(d@, strs(ks@)),
{
    let mut ks: Vec<String> = Vec::new();
    let mut i: usize = 0;
    while i < d.len()
        invariant
            i <= d@.len(),
            strs(ks@).no_duplicates(),
            forall|k: Seq<char>|
                #[trigger] strs(ks@).contains(k) <==> exists|j: int|
                    0 <= j < i && #[trigger] d@[j].0@ == k,
        decreases d@.len() - i,
    {
        let mut found = false;
        let mut j: usize = 0;
        while j < ks.len()
            invariant
                i < d@.len(),
                j <= ks@.len(),
                !found ==> forall|m: int| 0 <= m < j ==> #[trigger] ks@[m]@ != d@[i as int].0@,
                found ==> strs(ks@).contains(d@[i as int].0@),
            decreases ks@.len() - j,
        {
            if ks[j] == d[i].0 {
                found = true;
                assert(strs(ks@)[j as int] == d@[i as int].0@);
            }
            j = j + 1;
        }
        let ghost before = strs(ks@);
        if !found {
            ks.push(d[i].0.clone());
            assert(strs(ks@) =~= before.push(d@[i as int].0@));
            assert forall|a: int, b: int|
                0 <= a < strs(ks@).len() && 0 <= b < strs(ks@).len() && a != b implies strs(
                ks@,
            )[a] != strs(ks@)[b] by {
                if a < before.len() && b < before.len() {
                } else if a == before.len() {
                    assert(strs(ks@)[b] == ks@[b]@);
                } else {
                    assert(strs(ks@)[a] == ks@[a]@);
                }
            }
        }
        proof {
            let now = strs(ks@);
            assert forall|k: Seq<char>| #[trigger] now.contains(k) <==> exists|j: int|
                0 <= j < i + 1 && #[trigger] d@[j].0@ == k by {
                if now.contains(k) {
                    let m = choose|m: int| 0 <= m < now.len() && now[m] == k;
                    if !found && m == before.len() {
                        assert(d@[i as int].0@ == k);
                    } else {
                        assert(before[m] == k);
                        assert(before.contains(k));
                    }
                }
                if exists|j: int| 0 <= j < i + 1 && #[trigger] d@[j].0@ == k {
                    let w = choose|j: int| 0 <= j < i + 1 && #[trigger] d@[j].0@ == k;
                    if w < i {
                        assert(before.contains(k));
                        let m = choose|m: int| 0 <= m < before.len() && before[m] == k;
                        assert(now[m] == k);
                    } else if !found {
                        assert(now[before.len() as int] == k);
                    }
                }
            }
        }
        i = i + 1;
    }
    proof {
        assert forall|k: Seq<char>| #[trigger] strs(ks@).contains(k) <==> has_key(d@, k) by {
            if has_key(d@, k) {
                let w = choose|w: int| 0 <= w < d@.len() && #[trigger] d@[w].0@ == k;
                assert(d@[w].0@ == k);
            }
        }
    }
    ks
}

/// Position of `s` in `ks`, if present.
fn position_of(ks: &Vec<String>, s: &String) -> (r: Option<usize>)
    ensures
        match r {
            Some(y) => y < ks@.len() && ks@[y as int]@ == s@,
            None => !strs(ks@).contains(s@),
        },
{
    let mut y: usize = 0;
    while y < ks.len()
        invariant
            y <= ks@.len(),
            forall|m: int| 0 <= m < y ==> #[trigger] ks@[m]@ != s@,
        decreases ks@.len() - y,
    {
        if ks[y] == *s {
            return Some(y);
        }
        y = y + 1;
    }
    proof {
        if strs(ks@).contains(s@) {
            let m = choose|m: int| 0 <= m < strs(ks@).len() && strs(ks@)[m] == s@;
            assert(ks@[m]@ == s@);
        }
    }
    None
}

/// Positions of the prerequisites of key `ks[x]`.
fn successors(d: &Vec<(String, Vec<String>)>, ks: &Vec<String>, x: usize) -> (r: Vec<usize>)
    requires
        key_list(d@, strs(ks@)),
        x < ks@.len(),
    ensures
        forall|y: int| #![trigger ks@[y]] 0 <= y < ks@.len() ==> (r@.contains(y as usize) <==> has_edge(d@, ks@[x as int]@, ks@[y]@)),
        forall|j: int| 0 <= j < r@.len() ==> #[trigger] r@[j] < ks@.len(),
{
    let ghost kv = strs(ks@);
    let kl = ks.len();
    let mut r: Vec<usize> = Vec::new();
    let mut i: usize = 0;
    while i < d.len()
        invariant
            kv == strs(ks@),
            kl == ks@.len(),
            key_list(d@, kv),
            x < ks@.len(),
            i <= d@.len(),
            forall|j: int| 0 <= j < r@.len() ==> #[trigger] r@[j] < ks@.len(),
            forall|y: int| #![trigger ks@[y]] 0 <= y < ks@.len() ==> (r@.contains(y as usize) <==> exists|a: int, b: int|
                #![trigger d@[a].1@[b]]
                0 <= a < i && 0 <= b < d@[a].1@.len() && d@[a].0@ == ks@[x as int]@ && d@[a].1@[b]@ == ks@[y]@),
        decreases d@.len() - i,
    {
        if d[i].0 == ks[x] {
            let list = &d[i].1;
            let mut b: usize = 0;
            while b < list.len()
                invariant
                    kv == strs(ks@),
                    kl == ks@.len(),
                    key_list(d@, kv),
                    x < ks@.len(),
                    i < d@.len(),
                    *list == d@[i as int].1,
                    d@[i as int].0@ == ks@[x as int]@,
                    b <= list@.len(),
                    forall|j: int| 0 <= j < r@.len() ==> #[trigger] r@[j] < ks@.len(),
                    forall|y: int| #![trigger ks@[y]] 0 <= y < ks@.len() ==> (r@.contains(y as usize) <==> (exists|a: int, c: int|
                        #![trigger d@[a].1@[c]]
                        0 <= a < i && 0 <= c < d@[a].1@.len() && d@[a].0@ == ks@[x as int]@ && d@[a].1@[c]@ == ks@[y]@)
                        || (exists|c: int| 0 <= c < b && #[trigger] list@[c]@ == ks@[y]@)),
                decreases list@.len() - b,
            {
                let ghost r0 = r@;
                match position_of(ks, &list[b]) {
                    Some(y) => {
                        r.push(y);
                        assert forall|z: int| #![trigger ks@[z]] 0 <= z < ks@.len() implies (r@.contains(z as usize) <==> (exists|a: int, c: int|
                            #![trigger d@[a].1@[c]]
                            0 <= a < i && 0 <= c < d@[a].1@.len() && d@[a].0@ == ks@[x as int]@ && d@[a].1@[c]@ == ks@[z]@)
                            || (exists|c: int| 0 <= c < b + 1 && #[trigger] list@[c]@ == ks@[z]@)) by {
                            if r@.contains(z as usize) {
                                let m = choose|m: int| 0 <= m < r@.len() && r@[m] == z as usize;
                                if m < r0.len() {
                                    assert(r0.contains(z as usize));
                                } else {
                                    assert(r@[m] == y);
                                    assert(list@[b as int]@ == ks@[z]@);
                                }
                            }
                            if exists|c: int| 0 <= c < b + 1 && #[trigger] list@[c]@ == ks@[z]@ {
                                let c = choose|c: int| 0 <= c < b + 1 && #[trigger] list@[c]@ == ks@[z]@;
                                if c == b {
                                    assert(ks@[z]@ == ks@[y as int]@);
                                    assert(kv[z] == kv[y as int]);
                                    assert(z == y);
                                    assert(r@[r@.len() - 1] == y);
                                } else {
                                    assert(r0.contains(z as usize));
                                    let m = choose|m: int| 0 <= m < r0.len() && r0[m] == z as usize;
                                    assert(r@[m] == z as usize);
                                }
                            }
                            if exists|a: int, c: int|
                                #![trigger d@[a].1@[c]]
                                0 <= a < i && 0 <= c < d@[a].1@.len() && d@[a].0@ == ks@[x as int]@ && d@[a].1@[c]@ == ks@[z]@ {
                                assert(r0.contains(z as usize));
                                let m = choose|m: int| 0 <= m < r0.len() && r0[m] == z as usize;
                                assert(r@[m] == z as usize);
                            }
                        }
                    },
                    None => {
                        assert forall|z: int| #![trigger ks@[z]] 0 <= z < ks@.len() implies (r@.contains(z as usize) <==> (exists|a: int, c: int|
                            #![trigger d@[a].1@[c]]
                            0 <= a < i && 0 <= c < d@[a].1@.len() && d@[a].0@ == ks@[x as int]@ && d@[a].1@[c]@ == ks@[z]@)
                            || (exists|c: int| 0 <= c < b + 1 && #[trigger] list@[c]@ == ks@[z]@)) by {
                            if exists|c: int| 0 <= c < b + 1 && #[trigger] list@[c]@ == ks@[z]@ {
                                let c = choose|c: int| 0 <= c < b + 1 && #[trigger] list@[c]@ == ks@[z]@;
                                if c == b {
                                    assert(kv[z] == ks@[z]@);
                                    assert(kv.contains(list@[b as int]@));
                                }
                            }
                        }
                    },
                }
                b = b + 1;
            }
            assert forall|y: int| #![trigger ks@[y]] 0 <= y < ks@.len() implies (r@.contains(y as usize) <==> exists|a: int, c: int|
                #![trigger d@[a].1@[c]]
                0 <= a < i + 1 && 0 <= c < d@[a].1@.len() && d@[a].0@ == ks@[x as int]@ && d@[a].1@[c]@ == ks@[y]@) by {
                if exists|c: int| 0 <= c < list@.len() && #[trigger] list@[c]@ == ks@[y]@ {
                    let c = choose|c: int| 0 <= c < list@.len() && #[trigger] list@[c]@ == ks@[y]@;
                    assert(d@[i as int].1@[c]@ == ks@[y]@);
                }
                if exists|a: int, c: int|
                    #![trigger d@[a].1@[c]]
                    0 <= a < i + 1 && 0 <= c < d@[a].1@.len() && d@[a].0@ == ks@[x as int]@ && d@[a].1@[c]@ == ks@[y]@ {
                    let (a, c) = choose|a: int, c: int|
                        #![trigger d@[a].1@[c]]
                        0 <= a < i + 1 && 0 <= c < d@[a].1@.len() && d@[a].0@ == ks@[x as int]@ && d@[a].1@[c]@ == ks@[y]@;
                    if a == i {
                        assert(list@[c]@ == ks@[y]@);
                    }
                }
            }
        } else {
            assert forall|y: int| #![trigger ks@[y]] 0 <= y < ks@.len() implies (r@.contains(y as usize) <==> exists|a: int, c: int|
                #![trigger d@[a].1@[c]]
                0 <= a < i + 1 && 0 <= c < d@[a].1@.len() && d@[a].0@ == ks@[x as int]@ && d@[a].1@[c]@ == ks@[y]@) by {
                if exists|a: int, c: int|
                    #![trigger d@[a].1@[c]]
                    0 <= a < i + 1 && 0 <= c < d@[a].1@.len() && d@[a].0@ == ks@[x as int]@ && d@[a].1@[c]@ == ks@[y]@ {
                    let (a, c) = choose|a: int, c: int|
                        #![trigger d@[a].1@[c]]
                        0 <= a < i + 1 && 0 <= c < d@[a].1@.len() && d@[a].0@ == ks@[x as int]@ && d@[a].1@[c]@ == ks@[y]@;
                    assert(a != i);
                }
            }
        }
        i = i + 1;
    }
    r
}


/// Marks, by position in `ks`, every key reachable from key `ks[u]` by
/// one or more prerequisite edges.
fn reachable_from(
    adj: &Vec<Vec<usize>>,
    u: usize,
    Ghost(d): Ghost<Seq<(String, Vec<String>)>>,
    Ghost(ks): Ghost<Seq<Seq<char>>>,
) -> (visited: Vec<bool>)
    requires
        key_list(d, ks),
        adjacency(d, ks, adj@),
        u < ks.len(),
    ensures
        visited@.len() == ks.len(),
        forall|y: int| 0 <= y < ks.len() ==> (#[trigger] visited@[y] <==> reaches(d, ks[u as int], ks[y])),
{
    let n = adj.len();
    let mut visited: Vec<bool> = Vec::new();
    let mut done: Vec<bool> = Vec::new();
    let mut i: usize = 0;
    while i < n
        invariant
            n == adj@.len(),
            i <= n,
            visited@.len() == i,
            done@.len() == i,
            forall|y: int| 0 <= y < i ==> !#[trigger] visited@[y],
            forall|y: int| 0 <= y < i ==> !#[trigger] done@[y],
        decreases n - i,
    {
        visited.push(false);
        done.push(false);
        i = i + 1;
    }
    let mut stack: Vec<usize> = Vec::new();
    let first = &adj[u];
    let mut j: usize = 0;
    while j < first.len()
        invariant
            n == adj@.len() == ks.len(),
            key_list(d, ks),
            adjacency(d, ks, adj@),
            u < n,
            *first == adj@[u as int],
            j <= first@.len(),
            visited@.len() == n,
            done@.len() == n,
            forall|y: int| 0 <= y < n ==> !#[trigger] done@[y],
            forall|y: int| 0 <= y < n && #[trigger] visited@[y] ==> reaches(d, ks[u as int], ks[y]),
            forall|k: int| 0 <= k < j ==> #[trigger] visited@[first@[k] as int],
            forall|y: int| 0 <= y < n && #[trigger] visited@[y] ==> stack@.contains(y as usize),
            forall|k: int| 0 <= k < stack@.len() ==> #[trigger] stack@[k] < n && visited@[stack@[k] as int],
        decreases first@.len() - j,
    {
        let y = first[j];
        assert(first@[j as int] == adj@[u as int]@[j as int]);
        assert(y < n);
        assert(adj@[u as int]@.contains((y as int) as usize));
        assert(has_edge(d, ks[u as int], ks[y as int]));
        if !visited[y] {
            proof {
                lemma_reaches_edge(d, ks[u as int], ks[y as int]);
            }
            let ghost st = stack@;
            visited.set(y, true);
            stack.push(y);
            assert forall|z: int| 0 <= z < n && #[trigger] visited@[z] implies stack@.contains(z as usize) by {
                if z == y {
                    assert(stack@[stack@.len() - 1] == y);
                } else {
                    let k = choose|k: int| 0 <= k < st.len() && st[k] == z as usize;
                    assert(stack@[k] == z as usize);
                }
            }
        }
        j = j + 1;
    }
    proof {
        assert forall|y: int| 0 <= y < n && has_edge(d, ks[u as int], ks[y]) implies #[trigger] visited@[y] by {
            assert(adj@[u as int]@.contains(y as usize));
            let k = choose|k: int| 0 <= k < first@.len() && first@[k] == y as usize;
            assert(visited@[first@[k] as int]);
        }
    }
    while stack.len() > 0
        invariant
            n == adj@.len() == ks.len(),
            key_list(d, ks),
            adjacency(d, ks, adj@),
            u < n,
            visited@.len() == n,
            done@.len() == n,
            forall|y: int| 0 <= y < n && #[trigger] visited@[y] ==> reaches(d, ks[u as int], ks[y]),
            forall|y: int| 0 <= y < n && has_edge(d, ks[u as int], ks[y]) ==> #[trigger] visited@[y],
            forall|x: int| 0 <= x < n && #[trigger] done@[x] ==> visited@[x],
            forall|x: int, y: int|
                0 <= x < n && 0 <= y < n && #[trigger] done@[x] && has_edge(d, ks[x], ks[y]) ==> #[trigger] visited@[y],
            forall|y: int| 0 <= y < n && #[trigger] visited@[y] && !done@[y] ==> stack@.contains(y as usize),
            forall|k: int| 0 <= k < stack@.len() ==> #[trigger] stack@[k] < n && visited@[stack@[k] as int],
        decreases 2 * count_false(visited@) + stack@.len(),
    {
        let ghost m0 = 2 * count_false(visited@) + stack@.len();
        let ghost s0 = stack@;
        let x = stack.pop().unwrap();
        assert(x == s0.last());
        assert(stack@ == s0.drop_last());
        if !done[x] {
            proof {
                assert forall|y: int| 0 <= y < n && #[trigger] visited@[y] && !done@[y] && y != x implies stack@.contains(y as usize) by {
                    let k = choose|k: int| 0 <= k < s0.len() && s0[k] == y as usize;
                    if k == s0.len() - 1 {
                        assert(false);
                    } else {
                        assert(stack@[k] == y as usize);
                    }
                }
            }
            let next = &adj[x];
            let mut b: usize = 0;
            while b < next.len()
                invariant
                    n == adj@.len() == ks.len(),
                    key_list(d, ks),
                    adjacency(d, ks, adj@),
                    u < n,
                    x < n,
                    visited@[x as int],
                    !done@[x as int],
                    *next == adj@[x as int],
                    b <= next@.len(),
                    visited@.len() == n,
                    done@.len() == n,
                    2 * count_false(visited@) + stack@.len() < m0,
                    forall|y: int| 0 <= y < n && #[trigger] visited@[y] ==> reaches(d, ks[u as int], ks[y]),
                    forall|y: int| 0 <= y < n && has_edge(d, ks[u as int], ks[y]) ==> #[trigger] visited@[y],
                    forall|z: int| 0 <= z < n && #[trigger] done@[z] ==> visited@[z],
                    forall|z: int, y: int|
                        0 <= z < n && 0 <= y < n && #[trigger] done@[z] && has_edge(d, ks[z], ks[y]) ==> #[trigger] visited@[y],
                    forall|y: int| 0 <= y < n && #[trigger] visited@[y] && !done@[y] && y != x ==> stack@.contains(y as usize),
                    forall|k: int| 0 <= k < stack@.len() ==> #[trigger] stack@[k] < n && visited@[stack@[k] as int],
                    forall|k: int| 0 <= k < b ==> #[trigger] visited@[next@[k] as int],
                decreases next@.len() - b,
            {
                let y = next[b];
                assert(next@[b as int] == adj@[x as int]@[b as int]);
                assert(y < n);
                assert(adj@[x as int]@.contains((y as int) as usize));
                assert(has_edge(d, ks[x as int], ks[y as int]));
                if !visited[y] {
                    proof {
                        lemma_reaches_step(d, ks[u as int], ks[x as int], ks[y as int]);
                        lemma_count_false_set(visited@, y as int);
                    }
                    let ghost st = stack@;
                    visited.set(y, true);
                    stack.push(y);
                    assert forall|z: int| 0 <= z < n && #[trigger] visited@[z] && !done@[z] && z != x implies stack@.contains(z as usize) by {
                        if z == y {
                            assert(stack@[stack@.len() - 1] == y);
                        } else {
                            let k = choose|k: int| 0 <= k < st.len() && st[k] == z as usize;
                            assert(stack@[k] == z as usize);
                        }
                    }
                }
                b = b + 1;
            }
            proof {
                assert forall|y: int| 0 <= y < n && has_edge(d, ks[x as int], ks[y]) implies #[trigger] visited@[y] by {
                    assert(adj@[x as int]@.contains(y as usize));
                    let k = choose|k: int| 0 <= k < next@.len() && next@[k] == y as usize;
                    assert(visited@[next@[k] as int]);
                }
            }
            done.set(x, true);
        } else {
            proof {
                assert forall|y: int| 0 <= y < n && #[trigger] visited@[y] && !done@[y] implies stack@.contains(y as usize) by {
                    assert(s0.contains(y as usize));
                    let k = choose|k: int| 0 <= k < s0.len() && s0[k] == y as usize;
                    if k == s0.len() - 1 {
                        assert(false);
                    } else {
                        assert(stack@[k] == y as usize);
                    }
                }
            }
        }
    }
    proof {
        assert forall|y: int| 0 <= y < ks.len() implies (#[trigger] visited@[y] <==> reaches(d, ks[u as int], ks[y])) by {
            if reaches(d, ks[u as int], ks[y]) {
                let p = choose|p: Seq<Seq<char>>| #[trigger] is_walk(d, p) && p[0] == ks[u as int] && p.last() == ks[y];
                assert forall|x: int, z: int|
                    0 <= x < ks.len() && 0 <= z < ks.len() && #[trigger] visited@[x] && has_edge(d, ks[x], ks[z])
                    implies #[trigger] visited@[z] by {
                    if !done@[x] {
                        assert(stack@.contains(x as usize));
                    }
                }
                assert(ks.contains(ks[y]));
                lemma_closed_set_holds_walk_ends(d, ks, adj@, u as int, visited@, p, p.len() - 1);
                let w = choose|w: int| 0 <= w < ks.len() && ks[w] == p[p.len() - 1] && #[trigger] visited@[w];
                assert(ks[w] == ks[y]);
            }
        }
    }
    visited
}

impl Dag {
    /// Task ids that participate in a dependency cycle, each once.
    pub fn cycle_members(&self) -> (r: Vec<String>)
        ensures
            strs(r@).no_duplicates(),
            forall|k: Seq<char>| #[trigger] strs(r@).contains(k) <==> on_cycle(self.prereqs@, k),
    {
        let d = &self.prereqs;
        let ks = distinct_keys(d);
        let ghost kv = strs(ks@);
        let n = ks.len();
        let mut adj: Vec<Vec<usize>> = Vec::new();
        let mut x: usize = 0;
        while x < n
            invariant
                n == ks@.len(),
                kv == strs(ks@),
                key_list(d@, kv),
                x <= n,
                adj@.len() == x,
                forall|a: int, y: int|
                    0 <= a < x && 0 <= y < n ==> (#[trigger] adj@[a]@.contains(y as usize) <==> has_edge(d@, kv[a], kv[y])),
                forall|a: int, j: int| 0 <= a < x && 0 <= j < adj@[a]@.len() ==> #[trigger] adj@[a]@[j] < n,
            decreases n - x,
        {
            let s = successors(d, &ks, x);
            adj.push(s);
            proof {
                assert forall|a: int, y: int|
                    0 <= a < x + 1 && 0 <= y < n implies (#[trigger] adj@[a]@.contains(y as usize) <==> has_edge(d@, kv[a], kv[y])) by {
                    assert(kv[a] == ks@[a]@);
                    assert(kv[y] == ks@[y]@);
                }
            }
            x = x + 1;
        }
        assert(adjacency(d@, kv, adj@));
        let mut r: Vec<String> = Vec::new();
        let mut u: usize = 0;
        while u < n
            invariant
                n == ks@.len() == adj@.len(),
                kv == strs(ks@),
                key_list(d@, kv),
                adjacency(d@, kv, adj@),
                u <= n,
                forall|k: Seq<char>| #[trigger] strs(r@).contains(k) <==> (exists|a: int| 0 <= a < u && kv[a] == k && on_cycle(d@, k)),
                strs(r@).no_duplicates(),
            decreases n - u,
        {
            let vis = reachable_from(&adj, u, Ghost(d@), Ghost(kv));
            let ghost before = strs(r@);
            if vis[u] {
                r.push(ks[u].clone());
                assert(strs(r@) =~= before.push(kv[u as int]));
                assert forall|a: int, b: int|
                    0 <= a < strs(r@).len() && 0 <= b < strs(r@).len() && a != b implies strs(r@)[a] != strs(r@)[b] by {
                    if a == before.len() || b == before.len() {
                        let o = if a == before.len() { b } else { a };
                        assert(before.contains(strs(r@)[o]));
                        assert(strs(r@)[o] != kv[u as int]) by {
                            if strs(r@)[o] == kv[u as int] {
                                let w = choose|w: int| 0 <= w < u && kv[w] == strs(r@)[o] && on_cycle(d@, strs(r@)[o]);
                                assert(kv[w] == kv[u as int]);
                            }
                        }
                    }
                }
            }
            proof {
                let now = strs(r@);
                assert forall|k: Seq<char>| #[trigger] now.contains(k) <==> (exists|a: int| 0 <= a < u + 1 && kv[a] == k && on_cycle(d@, k)) by {
                    if now.contains(k) {
                        let m = choose|m: int| 0 <= m < now.len() && now[m] == k;
                        if m < before.len() {
                            assert(before.contains(k));
                        }
                    }
                    if exists|a: int| 0 <= a < u + 1 && kv[a] == k && on_cycle(d@, k) {
                        let a = choose|a: int| 0 <= a < u + 1 && kv[a] == k && on_cycle(d@, k);
                        if a == u {
                            assert(vis@[u as int]);
                            assert(now[now.len() - 1] == k);
                        } else {
                            assert(before.contains(k));
                            let m = choose|m: int| 0 <= m < before.len() && before[m] == k;
                            assert(now[m] == k);
                        }
                    }
                }
            }
            u = u + 1;
        }
        proof {
            assert forall|k: Seq<char>| #[trigger] strs(r@).contains(k) <==> on_cycle(d@, k) by {
                if on_cycle(d@, k) {
                    let p = choose|p: Seq<Seq<char>>| #[trigger] is_walk(d@, p) && p[0] == k && p.last() == k;
                    let z: int = 0;
                    assert(has_edge(d@, p[z], p[z + 1]));
                    lemma_edge_source_is_key(d@, p[0], p[1]);
                    assert(kv.contains(k));
                    let a = choose|a: int| 0 <= a < kv.len() && kv[a] == k;
                    assert(kv[a] == k);
                }
            }
        }
        r
    }
}

/// Cycles are what they should be: a task with no prerequisites lies on
/// no cycle, a task that waits on itself through one other task (each
/// a prerequisite of the other) lies on one, and so does a task that
/// waits on itself directly.
pub proof fn law_cycle_basics(d: Seq<(String, Vec<String>)>, a: Seq<char>, b: Seq<char>)
    ensures
        !has_key(d, a) ==> !on_cycle(d, a),
        has_edge(d, a, b) && has_edge(d, b, a) ==> on_cycle(d, a),
        has_edge(d, a, a) ==> on_cycle(d, a),
{
    if !has_key(d, a) && on_cycle(d, a) {
        assert(reaches(d, a, a));
        let p = choose|p: Seq<Seq<char>>| #[trigger] is_walk(d, p) && p[0] == a && p.last() == a;
        assert(is_walk(d, p));
        let k: int = 0;
        assert(has_edge(d, p[k], p[k + 1]));
        lemma_edge_source_is_key(d, a, p[1]);
    }
    if has_edge(d, a, b) && has_edge(d, b, a) {
        let p = seq![a, b, a];
        assert(has_edge(d, p[0], p[1]));
        assert(has_edge(d, p[1], p[2]));
        assert(is_walk(d, p));
        assert(p.last() == a);
    }
    if has_edge(d, a, a) {
        let p = seq![a, a];
        assert(has_edge(d, p[0], p[1]));
        assert(is_walk(d, p));
        assert(p.last() == a);
    }
}

} // verus!
