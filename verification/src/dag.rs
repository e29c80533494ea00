//! Dependency graph over Todoist tasks.
//!
//! Edges live inside Todoist itself, as `after:` lines in a task's
//! description — e.g. `after: buy lumber` or `after: sand boards, buy lumber`.
//! References are resolved against active tasks: by task id anywhere, or by
//! exact name / unique case-insensitive substring within the same project.

use vstd::prelude::*;

use crate::text::{
    char_vecs, chars_of, contains_chars, contains_seq, eq_chars, is_ws, lemma_split_pieces,
    lemma_trim_shape, lower_chars, lowercase, occurs_in, split, split_chars, starts_with, starts_with_chars,
    string_of, strs, trim, trim_chars,
};
use crate::cycles::on_cycle;
use crate::todoist::Task;

verus! {

pub const LABEL_NEXT: &'static str = "next";

pub const LABEL_BLOCKED: &'static str = "blocked";

// ---------------------------------------------------------------------------
// References
// ---------------------------------------------------------------------------

pub open spec fn after_lower() -> Seq<char> {
    seq!['a', 'f', 't', 'e', 'r', ':']
}

pub open spec fn after_upper() -> Seq<char> {
    seq!['A', 'f', 't', 'e', 'r', ':']
}

/// The non-empty trimmed items among comma-separated pieces.
pub open spec fn list_refs(pieces: Seq<Seq<char>>) -> Seq<Seq<char>>
    decreases pieces.len(),
{
    if pieces.len() == 0 {
        Seq::<Seq<char>>::empty()
    } else {
        let r = list_refs(pieces.drop_last());
        let t = trim(pieces.last());
        if t.len() > 0 {
            r.push(t)
        } else {
            r
        }
    }
}

/// The references one description line carries: after trimming, a line
/// that starts with `after:` or `After:` lists references separated by
/// commas.
pub open spec fn line_refs(line: Seq<char>) -> Seq<Seq<char>> {
    let l = trim(line);
    if starts_with(l, after_lower()) || starts_with(l, after_upper()) {
        list_refs(split(l.subrange(6, l.len() as int), ','))
    } else {
        Seq::<Seq<char>>::empty()
    }
}

pub open spec fn lines_refs(lines: Seq<Seq<char>>) -> Seq<Seq<char>>
    decreases lines.len(),
{
    if lines.len() == 0 {
        Seq::<Seq<char>>::empty()
    } else {
        lines_refs(lines.drop_last()) + line_refs(lines.last())
    }
}

/// All `after:` references of a description, in order.
pub open spec fn refs_in(description: Seq<char>) -> Seq<Seq<char>> {
    lines_refs(split(description, '\n'))
}

/// A reference as `parse_refs` yields it: non-empty, without whitespace at
/// either end, and free of commas and line breaks.
pub open spec fn clean_ref(r: Seq<char>) -> bool {
    &&& r.len() > 0
    &&& !is_ws(r[0])
    &&& !is_ws(r.last())
    &&& !r.contains(',')
    &&& !r.contains('\n')
}

proof fn lemma_subrange_contains(s: Seq<char>, i: int, j: int, c: char)
    requires
        0 <= i <= j <= s.len(),
        s.subrange(i, j).contains(c),
    ensures
        s.contains(c),
{
    let m = choose|m: int| 0 <= m < s.subrange(i, j).len() && s.subrange(i, j)[m] == c;
    assert(s[i + m] == c);
}

proof fn lemma_list_refs_clean(pieces: Seq<Seq<char>>)
    requires
        forall|k: int| 0 <= k < pieces.len() ==> !(#[trigger] pieces[k]).contains(',') && !pieces[k].contains('\n'),
    ensures
        forall|k: int| 0 <= k < list_refs(pieces).len() ==> clean_ref(#[trigger] list_refs(pieces)[k]),
    decreases pieces.len(),
{
    if pieces.len() > 0 {
        lemma_list_refs_clean(pieces.drop_last());
        let p = pieces.last();
        let t = trim(p);
        lemma_trim_shape(p);
        let (i, j) = choose|i: int, j: int| 0 <= i <= j <= p.len() && trim(p) == p.subrange(i, j);
        if t.contains(',') {
            lemma_subrange_contains(p, i, j, ',');
        }
        if t.contains('\n') {
            lemma_subrange_contains(p, i, j, '\n');
        }
        let r = list_refs(pieces.drop_last());
        assert forall|k: int| 0 <= k < list_refs(pieces).len() implies clean_ref(#[trigger] list_refs(pieces)[k]) by {
            if k < r.len() {
                assert(list_refs(pieces)[k] == r[k]);
            }
        }
    }
}

proof fn lemma_line_refs_clean(line: Seq<char>)
    requires
        !line.contains('\n'),
    ensures
        forall|k: int| 0 <= k < line_refs(line).len() ==> clean_ref(#[trigger] line_refs(line)[k]),
{
    let l = trim(line);
    if starts_with(l, after_lower()) || starts_with(l, after_upper()) {
        lemma_trim_shape(line);
        let (i, j) = choose|i: int, j: int| 0 <= i <= j <= line.len() && trim(line) == line.subrange(i, j);
        let rest = l.subrange(6, l.len() as int);
        if rest.contains('\n') {
            lemma_subrange_contains(l, 6, l.len() as int, '\n');
            lemma_subrange_contains(line, i, j, '\n');
        }
        lemma_split_pieces(rest, ',');
        let pieces = split(rest, ',');
        assert forall|k: int| 0 <= k < pieces.len() implies !(#[trigger] pieces[k]).contains(',') && !pieces[k].contains('\n') by {
            if pieces[k].contains('\n') {
                assert(rest.contains('\n'));
            }
        }
        lemma_list_refs_clean(pieces);
    }
}

proof fn lemma_lines_refs_clean(lines: Seq<Seq<char>>)
    requires
        forall|k: int| 0 <= k < lines.len() ==> !(#[trigger] lines[k]).contains('\n'),
    ensures
        forall|k: int| 0 <= k < lines_refs(lines).len() ==> clean_ref(#[trigger] lines_refs(lines)[k]),
    decreases lines.len(),
{
    if lines.len() > 0 {
        lemma_lines_refs_clean(lines.drop_last());
        lemma_line_refs_clean(lines.last());
        let a = lines_refs(lines.drop_last());
        let b = line_refs(lines.last());
        assert forall|k: int| 0 <= k < lines_refs(lines).len() implies clean_ref(#[trigger] lines_refs(lines)[k]) by {
            if k < a.len() {
                assert(lines_refs(lines)[k] == a[k]);
            } else {
                assert(lines_refs(lines)[k] == b[k - a.len()]);
            }
        }
    }
}

/// Every reference extracted from a description is non-empty, has no
/// whitespace at either end, and holds no comma or line break.
pub proof fn law_refs_are_clean(description: Seq<char>)
    ensures
        forall|k: int| 0 <= k < refs_in(description).len() ==> clean_ref(#[trigger] refs_in(description)[k]),
{
    lemma_split_pieces(description, '\n');
    lemma_lines_refs_clean(split(description, '\n'));
}

/// Extract `after:` references from a task description.
pub fn parse_refs(description: &str) -> (r: Vec<String>)
    ensures
        strs(r@) == refs_in(description@),
{
    let cs = chars_of(description);
    let lines = split_chars(cs.as_slice(), '\n');
    let lower: Vec<char> = vec!['a', 'f', 't', 'e', 'r', ':'];
    let upper: Vec<char> = vec!['A', 'f', 't', 'e', 'r', ':'];
    assert(lower@ == after_lower());
    assert(upper@ == after_upper());
    let mut out: Vec<String> = Vec::new();
    let mut i: usize = 0;
    while i < lines.len()
        invariant
            i <= lines@.len(),
            char_vecs(lines@) == split(description@, '\n'),
            lower@ == after_lower(),
            upper@ == after_upper(),
            strs(out@) == lines_refs(char_vecs(lines@).take(i as int)),
        decreases lines@.len() - i,
    {
        let ghost before = out@;
        let l = trim_chars(lines[i].as_slice());
        assert(char_vecs(lines@)[i as int] == lines@[i as int]@);
        if starts_with_chars(l.as_slice(), lower.as_slice()) || starts_with_chars(
            l.as_slice(),
            upper.as_slice(),
        ) {
            let mut rest: Vec<char> = Vec::new();
            let mut k: usize = 6;
            while k < l.len()
                invariant
                    6 <= k <= l@.len(),
                    rest@ == l@.subrange(6, k as int),
                decreases l@.len() - k,
            {
                rest.push(l[k]);
                assert(l@.subrange(6, k + 1) == l@.subrange(6, k as int).push(l@[k as int]));
                k = k + 1;
            }
            let pieces = split_chars(rest.as_slice(), ',');
            let mut j: usize = 0;
            while j < pieces.len()
                invariant
                    j <= pieces@.len(),
                    strs(out@) == strs(before) + list_refs(char_vecs(pieces@).take(j as int)),
                decreases pieces@.len() - j,
            {
                let t = trim_chars(pieces[j].as_slice());
                assert(char_vecs(pieces@).take(j + 1).drop_last() == char_vecs(pieces@).take(
                    j as int,
                ));
                assert(char_vecs(pieces@)[j as int] == pieces@[j as int]@);
                let ghost prev = out@;
                assert(list_refs(char_vecs(pieces@).take(j + 1)) == (if t@.len() > 0 {
                    list_refs(char_vecs(pieces@).take(j as int)).push(t@)
                } else {
                    list_refs(char_vecs(pieces@).take(j as int))
                }));
                if t.len() > 0 {
                    let st = string_of(t.as_slice());
                    out.push(st);
                    assert(strs(out@) =~= strs(prev).push(t@));
                    assert(strs(out@) =~= strs(before) + list_refs(
                        char_vecs(pieces@).take(j + 1),
                    ));
                } else {
                    assert(strs(out@) == strs(before) + list_refs(
                        char_vecs(pieces@).take(j + 1),
                    ));
                }
                j = j + 1;
            }
            assert(char_vecs(pieces@).take(pieces@.len() as int) == char_vecs(pieces@));
        } else {
            assert(strs(out@) =~= strs(before) + Seq::<Seq<char>>::empty());
        }
        assert(char_vecs(lines@).take(i + 1).drop_last() == char_vecs(lines@).take(i as int));
        i = i + 1;
    }
    assert(char_vecs(lines@).take(lines@.len() as int) == char_vecs(lines@));
    out
}


// ---------------------------------------------------------------------------
// Resolution
// ---------------------------------------------------------------------------

/// What a reference resolves to: one task id, nothing, or several tasks.
pub enum Resolved {
    One(Seq<char>),
    Unmatched,
    Ambiguous,
}

/// Some active task carries exactly this id.
pub open spec fn has_id(ts: Seq<Task>, id: Seq<char>) -> bool {
    exists|i: int| 0 <= i < ts.len() && #[trigger] ts[i].id@ == id
}

/// Ids, in order, of the tasks of project `pid` whose lowercased name
/// equals `needle`.
pub open spec fn exact_matches(ts: Seq<Task>, pid: Seq<char>, needle: Seq<char>) -> Seq<Seq<char>>
    decreases ts.len(),
{
    if ts.len() == 0 {
        Seq::<Seq<char>>::empty()
    } else {
        let r = exact_matches(ts.drop_last(), pid, needle);
        let t = ts.last();
        if t.project_id@ == pid && lowercase(t.content@) == needle {
            r.push(t.id@)
        } else {
            r
        }
    }
}

/// Ids, in order, of the tasks of project `pid` whose lowercased name
/// contains `needle`.
pub open spec fn partial_matches(ts: Seq<Task>, pid: Seq<char>, needle: Seq<char>) -> Seq<Seq<char>>
    decreases ts.len(),
{
    if ts.len() == 0 {
        Seq::<Seq<char>>::empty()
    } else {
        let r = partial_matches(ts.drop_last(), pid, needle);
        let t = ts.last();
        if t.project_id@ == pid && contains_seq(lowercase(t.content@), needle) {
            r.push(t.id@)
        } else {
            r
        }
    }
}

/// Resolve a reference made from project `pid`: by task id anywhere, then
/// by exact (case-insensitive) name within the project, then by unique
/// case-insensitive substring within the project.
pub open spec fn resolution_of(ts: Seq<Task>, pid: Seq<char>, r: Seq<char>) -> Resolved {
    if has_id(ts, r) {
        Resolved::One(r)
    } else {
        let needle = lowercase(r);
        let exact = exact_matches(ts, pid, needle);
        if exact.len() == 1 {
            Resolved::One(exact[0])
        } else if exact.len() > 1 {
            Resolved::Ambiguous
        } else {
            let partial = partial_matches(ts, pid, needle);
            if partial.len() == 1 {
                Resolved::One(partial[0])
            } else if partial.len() == 0 {
                Resolved::Unmatched
            } else {
                Resolved::Ambiguous
            }
        }
    }
}

/// Executable counterpart of `Resolved`.
pub enum Resolution {
    One(String),
    Unmatched,
    Ambiguous,
}

pub open spec fn resolution_view(r: Resolution) -> Resolved {
    match r {
        Resolution::One(id) => Resolved::One(id@),
        Resolution::Unmatched => Resolved::Unmatched,
        Resolution::Ambiguous => Resolved::Ambiguous,
    }
}

pub proof fn lemma_exact_matches_are_ids(ts: Seq<Task>, pid: Seq<char>, needle: Seq<char>)
    ensures
        forall|k: int|
            0 <= k < exact_matches(ts, pid, needle).len() ==> has_id(
                ts,
                #[trigger] exact_matches(ts, pid, needle)[k],
            ),
    decreases ts.len(),
{
    if ts.len() > 0 {
        lemma_exact_matches_are_ids(ts.drop_last(), pid, needle);
        let r = exact_matches(ts.drop_last(), pid, needle);
        assert forall|k: int| 0 <= k < exact_matches(ts, pid, needle).len() implies has_id(
            ts,
            #[trigger] exact_matches(ts, pid, needle)[k],
        ) by {
            if k < r.len() {
                assert(has_id(ts.drop_last(), r[k]));
                let w = choose|i: int| 0 <= i < ts.drop_last().len() && #[trigger] ts.drop_last()[i].id@ == r[k];
                assert(ts[w].id@ == r[k]);
            } else {
                assert(ts[ts.len() - 1].id@ == exact_matches(ts, pid, needle)[k]);
            }
        }
    }
}

pub proof fn lemma_partial_matches_are_ids(ts: Seq<Task>, pid: Seq<char>, needle: Seq<char>)
    ensures
        forall|k: int|
            0 <= k < partial_matches(ts, pid, needle).len() ==> has_id(
                ts,
                #[trigger] partial_matches(ts, pid, needle)[k],
            ),
    decreases ts.len(),
{
    if ts.len() > 0 {
        lemma_partial_matches_are_ids(ts.drop_last(), pid, needle);
        let r = partial_matches(ts.drop_last(), pid, needle);
        assert forall|k: int| 0 <= k < partial_matches(ts, pid, needle).len() implies has_id(
            ts,
            #[trigger] partial_matches(ts, pid, needle)[k],
        ) by {
            if k < r.len() {
                assert(has_id(ts.drop_last(), r[k]));
                let w = choose|i: int| 0 <= i < ts.drop_last().len() && #[trigger] ts.drop_last()[i].id@ == r[k];
                assert(ts[w].id@ == r[k]);
            } else {
                assert(ts[ts.len() - 1].id@ == partial_matches(ts, pid, needle)[k]);
            }
        }
    }
}

/// A reference that resolves to one task names an active task.
pub proof fn lemma_resolved_is_active(ts: Seq<Task>, pid: Seq<char>, r: Seq<char>)
    ensures
        resolution_of(ts, pid, r) matches Resolved::One(p) ==> has_id(ts, p),
{
    lemma_exact_matches_are_ids(ts, pid, lowercase(r));
    lemma_partial_matches_are_ids(ts, pid, lowercase(r));
}

/// Some active task of project `pid` carries this id.
pub open spec fn has_id_in(ts: Seq<Task>, pid: Seq<char>, id: Seq<char>) -> bool {
    exists|i: int| 0 <= i < ts.len() && #[trigger] ts[i].id@ == id && ts[i].project_id@ == pid
}

proof fn lemma_matches_in_project(ts: Seq<Task>, pid: Seq<char>, needle: Seq<char>)
    ensures
        forall|k: int|
            0 <= k < exact_matches(ts, pid, needle).len() ==> has_id_in(
                ts,
                pid,
                #[trigger] exact_matches(ts, pid, needle)[k],
            ),
        forall|k: int|
            0 <= k < partial_matches(ts, pid, needle).len() ==> has_id_in(
                ts,
                pid,
                #[trigger] partial_matches(ts, pid, needle)[k],
            ),
    decreases ts.len(),
{
    if ts.len() > 0 {
        let prev = ts.drop_last();
        lemma_matches_in_project(prev, pid, needle);
        let e = exact_matches(prev, pid, needle);
        let q = partial_matches(prev, pid, needle);
        assert forall|k: int| 0 <= k < exact_matches(ts, pid, needle).len() implies has_id_in(
            ts,
            pid,
            #[trigger] exact_matches(ts, pid, needle)[k],
        ) by {
            if k < e.len() {
                assert(has_id_in(prev, pid, e[k]));
                let w = choose|i: int| 0 <= i < prev.len() && #[trigger] prev[i].id@ == e[k] && prev[i].project_id@ == pid;
                assert(ts[w] == prev[w]);
            } else {
                assert(ts[ts.len() - 1].id@ == exact_matches(ts, pid, needle)[k]);
            }
        }
        assert forall|k: int| 0 <= k < partial_matches(ts, pid, needle).len() implies has_id_in(
            ts,
            pid,
            #[trigger] partial_matches(ts, pid, needle)[k],
        ) by {
            if k < q.len() {
                assert(has_id_in(prev, pid, q[k]));
                let w = choose|i: int| 0 <= i < prev.len() && #[trigger] prev[i].id@ == q[k] && prev[i].project_id@ == pid;
                assert(ts[w] == prev[w]);
            } else {
                assert(ts[ts.len() - 1].id@ == partial_matches(ts, pid, needle)[k]);
            }
        }
    }
}

/// A reference that is no task's id can only resolve by name, and then
/// to a task of the referring project: names never reach across projects.
pub proof fn law_name_reference_stays_in_project(ts: Seq<Task>, pid: Seq<char>, r: Seq<char>)
    requires
        !has_id(ts, r),
    ensures
        resolution_of(ts, pid, r) matches Resolved::One(p) ==> has_id_in(ts, pid, p),
{
    lemma_matches_in_project(ts, pid, lowercase(r));
}

/// Every prerequisite a task's references give it is either one of the
/// references itself (a task id, which may lie in any project) or the id
/// of a task in the task's own project (a name match).
pub proof fn law_prereqs_by_name_share_the_project(ts: Seq<Task>, t: Task, refs: Seq<Seq<char>>)
    ensures
        forall|j: int|
            0 <= j < edges_from(ts, t, refs).len() ==> refs.contains(#[trigger] edges_from(ts, t, refs)[j])
                || has_id_in(ts, t.project_id@, edges_from(ts, t, refs)[j]),
    decreases refs.len(),
{
    if refs.len() > 0 {
        let prev = refs.drop_last();
        law_prereqs_by_name_share_the_project(ts, t, prev);
        let e = edges_from(ts, t, prev);
        let r = refs.last();
        if !has_id(ts, r) {
            law_name_reference_stays_in_project(ts, t.project_id@, r);
        }
        assert forall|j: int| 0 <= j < edges_from(ts, t, refs).len() implies refs.contains(
            #[trigger] edges_from(ts, t, refs)[j],
        ) || has_id_in(ts, t.project_id@, edges_from(ts, t, refs)[j]) by {
            let p = edges_from(ts, t, refs)[j];
            if j < e.len() {
                assert(p == e[j]);
                if prev.contains(p) {
                    let w = choose|w: int| 0 <= w < prev.len() && prev[w] == p;
                    assert(refs[w] == p);
                }
            } else {
                if has_id(ts, r) {
                    assert(refs[refs.len() - 1] == p);
                }
            }
        }
    }
}

proof fn lemma_exact_unique(ts: Seq<Task>, pid: Seq<char>, needle: Seq<char>, i: int)
    requires
        forall|j: int|
            0 <= j < ts.len() ==> ((#[trigger] ts[j]).project_id@ == pid && lowercase(ts[j].content@) == needle
                <==> j == i),
    ensures
        exact_matches(ts, pid, needle) == if 0 <= i < ts.len() {
            seq![ts[i].id@]
        } else {
            Seq::<Seq<char>>::empty()
        },
    decreases ts.len(),
{
    if ts.len() > 0 {
        let prev = ts.drop_last();
        assert forall|j: int| 0 <= j < prev.len() implies ((#[trigger] prev[j]).project_id@ == pid && lowercase(
            prev[j].content@,
        ) == needle <==> j == i) by {
            assert(prev[j] == ts[j]);
        }
        lemma_exact_unique(prev, pid, needle, i);
        let last = ts.len() - 1;
        assert(ts[last] == ts.last());
        if 0 <= i < last {
            assert(prev[i] == ts[i]);
        }
        assert(exact_matches(ts, pid, needle) =~= if 0 <= i < ts.len() {
            seq![ts[i].id@]
        } else {
            Seq::<Seq<char>>::empty()
        });
    }
}

/// A name that exactly one task of the project carries (compared in
/// lowercase) names that task, even when other tasks of the project
/// contain the name as a substring: the exact-name tier comes before the
/// substring tier. (A reference that is some task's id resolves to that
/// id instead.)
pub proof fn law_exact_name_wins(ts: Seq<Task>, pid: Seq<char>, r: Seq<char>, i: int)
    requires
        !has_id(ts, r),
        0 <= i < ts.len(),
        ts[i].project_id@ == pid,
        lowercase(ts[i].content@) == lowercase(r),
        forall|j: int|
            0 <= j < ts.len() && j != i && (#[trigger] ts[j]).project_id@ == pid ==> lowercase(ts[j].content@)
                != lowercase(r),
    ensures
        resolution_of(ts, pid, r) == Resolved::One(ts[i].id@),
{
    assert forall|j: int| 0 <= j < ts.len() implies ((#[trigger] ts[j]).project_id@ == pid && lowercase(
        ts[j].content@,
    ) == lowercase(r) <==> j == i) by {}
    lemma_exact_unique(ts, pid, lowercase(r), i);
}

/// A reference that resolves to one task other than the referring task
/// gives that task as a prerequisite.
proof fn lemma_resolved_ref_is_edge(ts: Seq<Task>, t: Task, refs: Seq<Seq<char>>, r: Seq<char>, p: Seq<char>)
    requires
        refs.contains(r),
        resolution_of(ts, t.project_id@, r) == Resolved::One(p),
        p != t.id@,
    ensures
        edges_from(ts, t, refs).contains(p),
    decreases refs.len(),
{
    let e = edges_from(ts, t, refs);
    if refs.last() == r {
        assert(e.last() == p);
        assert(e[e.len() - 1] == p);
    } else {
        let w = choose|w: int| 0 <= w < refs.len() && refs[w] == r;
        assert(refs.drop_last()[w] == r);
        lemma_resolved_ref_is_edge(ts, t, refs.drop_last(), r, p);
        let e0 = edges_from(ts, t, refs.drop_last());
        let k = choose|k: int| 0 <= k < e0.len() && e0[k] == p;
        assert(e[k] == p);
    }
}

/// The edges a task's references give land among its prerequisites.
proof fn lemma_edges_in_prereqs(ts: Seq<Task>, n: int, ti: int, p: Seq<char>)
    requires
        0 <= ti < n <= ts.len(),
        edges_from(ts, ts[ti], task_refs(ts[ti])).contains(p),
    ensures
        prereqs_of(ts, n, ts[ti].id@).contains(p),
    decreases n,
{
    let k = ts[ti].id@;
    let a = prereqs_of(ts, n - 1, k);
    if ti == n - 1 {
        let e = edges_from(ts, ts[ti], task_refs(ts[ti]));
        let w = choose|w: int| 0 <= w < e.len() && e[w] == p;
        assert(prereqs_of(ts, n, k)[a.len() + w] == p);
    } else {
        lemma_edges_in_prereqs(ts, n - 1, ti, p);
        let w = choose|w: int| 0 <= w < a.len() && a[w] == p;
        assert(prereqs_of(ts, n, k)[w] == p);
    }
}

/// End to end: when a task's `after:` reference is exactly the name of
/// one other task of its project (and no task's id), the graph of the
/// tasks makes that task a prerequisite of it.
pub proof fn law_exact_name_gives_edge(ts: Seq<Task>, n: int, ti: int, r: Seq<char>, i: int)
    requires
        0 <= ti < n <= ts.len(),
        task_refs(ts[ti]).contains(r),
        !has_id(ts, r),
        0 <= i < ts.len(),
        ts[i].id@ != ts[ti].id@,
        ts[i].project_id@ == ts[ti].project_id@,
        lowercase(ts[i].content@) == lowercase(r),
        forall|j: int|
            0 <= j < ts.len() && j != i && (#[trigger] ts[j]).project_id@ == ts[ti].project_id@ ==> lowercase(
                ts[j].content@,
            ) != lowercase(r),
    ensures
        prereqs_of(ts, n, ts[ti].id@).contains(ts[i].id@),
{
    law_exact_name_wins(ts, ts[ti].project_id@, r, i);
    lemma_resolved_ref_is_edge(ts, ts[ti], task_refs(ts[ti]), r, ts[i].id@);
    lemma_edges_in_prereqs(ts, n, ti, ts[i].id@);
}

/// Facts about the exact-name matches of project `pid`: each task that matches
/// contributes its id; two matching tasks give two entries.
proof fn lemma_exact_count(ts: Seq<Task>, pid: Seq<char>, needle: Seq<char>)
    ensures
        forall|j: int|
            0 <= j < ts.len() && (#[trigger] ts[j]).project_id@ == pid && lowercase(ts[j].content@) == needle ==> exact_matches(
                ts,
                pid,
                needle,
            ).len() >= 1,
        forall|a: int, b: int|
            0 <= a < b < ts.len() && (#[trigger] ts[a]).project_id@ == pid && lowercase(ts[a].content@) == needle
                && (#[trigger] ts[b]).project_id@ == pid && lowercase(ts[b].content@) == needle ==> exact_matches(ts, pid, needle).len() >= 2,
        (forall|j: int| 0 <= j < ts.len() && (#[trigger] ts[j]).project_id@ == pid ==> !(lowercase(ts[j].content@) == needle))
            ==> exact_matches(ts, pid, needle).len() == 0,
    decreases ts.len(),
{
    if ts.len() > 0 {
        let prev = ts.drop_last();
        lemma_exact_count(prev, pid, needle);
        let last = ts.len() - 1;
        assert(ts[last] == ts.last());
        assert forall|j: int|
            0 <= j < ts.len() && (#[trigger] ts[j]).project_id@ == pid && lowercase(ts[j].content@) == needle implies exact_matches(
                ts,
                pid,
                needle,
            ).len() >= 1 by {
            if j < last {
                assert(prev[j] == ts[j]);
            }
        }
        assert forall|a: int, b: int|
            0 <= a < b < ts.len() && (#[trigger] ts[a]).project_id@ == pid && lowercase(ts[a].content@) == needle
                && (#[trigger] ts[b]).project_id@ == pid && lowercase(ts[b].content@) == needle implies exact_matches(ts, pid, needle).len()
            >= 2 by {
            assert(prev[a] == ts[a]);
            if b < last {
                assert(prev[b] == ts[b]);
            }
        }
        if forall|j: int| 0 <= j < ts.len() && (#[trigger] ts[j]).project_id@ == pid ==> !(lowercase(ts[j].content@) == needle) {
            assert forall|j: int| 0 <= j < prev.len() && (#[trigger] prev[j]).project_id@ == pid implies !(lowercase(prev[j].content@) == needle) by {
                assert(prev[j] == ts[j]);
            }
        }
    }
}

/// Facts about the substring matches of project `pid`: each task that matches
/// contributes its id; two matching tasks give two entries.
proof fn lemma_partial_count(ts: Seq<Task>, pid: Seq<char>, needle: Seq<char>)
    ensures
        forall|j: int|
            0 <= j < ts.len() && (#[trigger] ts[j]).project_id@ == pid && contains_seq(lowercase(ts[j].content@), needle) ==> partial_matches(
                ts,
                pid,
                needle,
            ).len() >= 1,
        forall|a: int, b: int|
            0 <= a < b < ts.len() && (#[trigger] ts[a]).project_id@ == pid && contains_seq(lowercase(ts[a].content@), needle)
                && (#[trigger] ts[b]).project_id@ == pid && contains_seq(lowercase(ts[b].content@), needle) ==> partial_matches(ts, pid, needle).len() >= 2,
        (forall|j: int| 0 <= j < ts.len() && (#[trigger] ts[j]).project_id@ == pid ==> !contains_seq(lowercase(ts[j].content@), needle))
            ==> partial_matches(ts, pid, needle).len() == 0,
    decreases ts.len(),
{
    if ts.len() > 0 {
        let prev = ts.drop_last();
        lemma_partial_count(prev, pid, needle);
        let last = ts.len() - 1;
        assert(ts[last] == ts.last());
        assert forall|j: int|
            0 <= j < ts.len() && (#[trigger] ts[j]).project_id@ == pid && contains_seq(lowercase(ts[j].content@), needle) implies partial_matches(
                ts,
                pid,
                needle,
            ).len() >= 1 by {
            if j < last {
                assert(prev[j] == ts[j]);
            }
        }
        assert forall|a: int, b: int|
            0 <= a < b < ts.len() && (#[trigger] ts[a]).project_id@ == pid && contains_seq(lowercase(ts[a].content@), needle)
                && (#[trigger] ts[b]).project_id@ == pid && contains_seq(lowercase(ts[b].content@), needle) implies partial_matches(ts, pid, needle).len()
            >= 2 by {
            assert(prev[a] == ts[a]);
            if b < last {
                assert(prev[b] == ts[b]);
            }
        }
        if forall|j: int| 0 <= j < ts.len() && (#[trigger] ts[j]).project_id@ == pid ==> !contains_seq(lowercase(ts[j].content@), needle) {
            assert forall|j: int| 0 <= j < prev.len() && (#[trigger] prev[j]).project_id@ == pid implies !contains_seq(lowercase(prev[j].content@), needle) by {
                assert(prev[j] == ts[j]);
            }
        }
    }
}

proof fn lemma_partial_unique(ts: Seq<Task>, pid: Seq<char>, needle: Seq<char>, i: int)
    requires
        forall|j: int|
            0 <= j < ts.len() ==> ((#[trigger] ts[j]).project_id@ == pid && contains_seq(lowercase(ts[j].content@), needle)
                <==> j == i),
    ensures
        partial_matches(ts, pid, needle) == if 0 <= i < ts.len() {
            seq![ts[i].id@]
        } else {
            Seq::<Seq<char>>::empty()
        },
    decreases ts.len(),
{
    if ts.len() > 0 {
        let prev = ts.drop_last();
        assert forall|j: int| 0 <= j < prev.len() implies ((#[trigger] prev[j]).project_id@ == pid && contains_seq(
            lowercase(prev[j].content@),
            needle,
        ) <==> j == i) by {
            assert(prev[j] == ts[j]);
        }
        lemma_partial_unique(prev, pid, needle, i);
        let last = ts.len() - 1;
        assert(ts[last] == ts.last());
        if 0 <= i < last {
            assert(prev[i] == ts[i]);
        }
        assert(partial_matches(ts, pid, needle) =~= if 0 <= i < ts.len() {
            seq![ts[i].id@]
        } else {
            Seq::<Seq<char>>::empty()
        });
    }
}

/// How a reference resolves, stated over the tasks themselves (names
/// compared in lowercase, `occurs` meaning a contiguous run anywhere):
/// a task id resolves to itself; otherwise one exact name in the project
/// wins, two are ambiguous; with no exact name, one task of the project
/// containing the reference resolves to it, none leaves it unresolved,
/// two or more are ambiguous.
pub proof fn law_resolution_tiers(ts: Seq<Task>, pid: Seq<char>, r: Seq<char>)
    ensures
        has_id(ts, r) ==> resolution_of(ts, pid, r) == Resolved::One(r),
        !has_id(ts, r) && (exists|a: int, b: int|
            0 <= a < b < ts.len() && (#[trigger] ts[a]).project_id@ == pid && lowercase(ts[a].content@) == lowercase(r)
                && (#[trigger] ts[b]).project_id@ == pid && lowercase(ts[b].content@) == lowercase(r))
            ==> resolution_of(ts, pid, r) == Resolved::Ambiguous,
        !has_id(ts, r) && (forall|j: int|
            0 <= j < ts.len() && (#[trigger] ts[j]).project_id@ == pid ==> lowercase(ts[j].content@) != lowercase(r))
            ==> {
            &&& (forall|i: int|
                0 <= i < ts.len() && (#[trigger] ts[i]).project_id@ == pid ==> !occurs_in(
                    lowercase(ts[i].content@),
                    lowercase(r),
                )) ==> resolution_of(ts, pid, r) == Resolved::Unmatched
            &&& forall|a: int, b: int|
                0 <= a < b < ts.len() && (#[trigger] ts[a]).project_id@ == pid && occurs_in(lowercase(ts[a].content@), lowercase(r))
                    && (#[trigger] ts[b]).project_id@ == pid && occurs_in(lowercase(ts[b].content@), lowercase(r))
                    ==> resolution_of(ts, pid, r) == Resolved::Ambiguous
        },
{
    let needle = lowercase(r);
    lemma_exact_count(ts, pid, needle);
    lemma_partial_count(ts, pid, needle);
}

/// A reference that is no task's id and no exact name in the project,
/// contained (as a contiguous run, in lowercase) in the name of exactly
/// one task of the project, resolves to that task.
pub proof fn law_unique_substring_resolves(ts: Seq<Task>, pid: Seq<char>, r: Seq<char>, i: int)
    requires
        !has_id(ts, r),
        forall|j: int|
            0 <= j < ts.len() && (#[trigger] ts[j]).project_id@ == pid ==> lowercase(ts[j].content@) != lowercase(r),
        0 <= i < ts.len(),
        ts[i].project_id@ == pid,
        occurs_in(lowercase(ts[i].content@), lowercase(r)),
        forall|j: int|
            0 <= j < ts.len() && j != i && (#[trigger] ts[j]).project_id@ == pid ==> !occurs_in(
                lowercase(ts[j].content@),
                lowercase(r),
            ),
    ensures
        resolution_of(ts, pid, r) == Resolved::One(ts[i].id@),
{
    let needle = lowercase(r);
    lemma_exact_count(ts, pid, needle);
    assert forall|j: int| 0 <= j < ts.len() implies ((#[trigger] ts[j]).project_id@ == pid && contains_seq(
        lowercase(ts[j].content@),
        needle,
    ) <==> j == i) by {}
    lemma_partial_unique(ts, pid, needle, i);
}

fn has_task_id(ts: &[Task], id: &String) -> (r: bool)
    ensures
        r == has_id(ts@, id@),
{
    let mut i: usize = 0;
    while i < ts.len()
        invariant
            i <= ts@.len(),
            forall|k: int| 0 <= k < i ==> #[trigger] ts@[k].id@ != id@,
        decreases ts@.len() - i,
    {
        if ts[i].id == *id {
            return true;
        }
        i = i + 1;
    }
    false
}

/// The ids of project `pid`'s tasks whose lowercased name equals
/// (`exact`) or contains (`!exact`) the given needle.
fn matching_ids(ts: &[Task], pid: &String, needle: &Vec<char>, exact: bool) -> (r: Vec<String>)
    ensures
        strs(r@) == (if exact {
            exact_matches(ts@, pid@, needle@)
        } else {
            partial_matches(ts@, pid@, needle@)
        }),
{
    let mut r: Vec<String> = Vec::new();
    let mut i: usize = 0;
    while i < ts.len()
        invariant
            i <= ts@.len(),
            strs(r@) == (if exact {
                exact_matches(ts@.take(i as int), pid@, needle@)
            } else {
                partial_matches(ts@.take(i as int), pid@, needle@)
            }),
        decreases ts@.len() - i,
    {
        let t = &ts[i];
        assert(ts@.take(i + 1).drop_last() == ts@.take(i as int));
        assert(ts@.take(i + 1).last() == *t);
        if t.project_id == *pid {
            let name = lower_chars(t.content.as_str());
            let hit = if exact {
                eq_chars(name.as_slice(), needle.as_slice())
            } else {
                contains_chars(name.as_slice(), needle.as_slice())
            };
            if hit {
                let ghost prev = r@;
                r.push(t.id.clone());
                assert(strs(r@) =~= strs(prev).push(t.id@));
            }
        }
        i = i + 1;
    }
    assert(ts@.take(ts@.len() as int) == ts@);
    r
}

/// Resolve a reference made from project `pid` against the active tasks.
fn resolve(ts: &[Task], pid: &String, reference: &String) -> (r: Resolution)
    ensures
        resolution_view(r) == resolution_of(ts@, pid@, reference@),
{
    if has_task_id(ts, reference) {
        return Resolution::One(reference.clone());
    }
    let needle = lower_chars(reference.as_str());
    let exact = matching_ids(ts, pid, &needle, true);
    if exact.len() == 1 {
        assert(strs(exact@)[0] == exact@[0]@);
        return Resolution::One(exact[0].clone());
    } else if exact.len() > 1 {
        return Resolution::Ambiguous;
    }
    let partial = matching_ids(ts, pid, &needle, false);
    if partial.len() == 1 {
        assert(strs(partial@)[0] == partial@[0]@);
        Resolution::One(partial[0].clone())
    } else if partial.len() == 0 {
        Resolution::Unmatched
    } else {
        Resolution::Ambiguous
    }
}


// ---------------------------------------------------------------------------
// Building the graph
// ---------------------------------------------------------------------------

/// The references written in a task's description.
pub open spec fn task_refs(t: Task) -> Seq<Seq<char>> {
    refs_in(t.description@)
}

/// Prerequisite ids that the given references of task `t` contribute, in
/// order: every reference that resolves to one task other than `t`.
pub open spec fn edges_from(ts: Seq<Task>, t: Task, refs: Seq<Seq<char>>) -> Seq<Seq<char>>
    decreases refs.len(),
{
    if refs.len() == 0 {
        Seq::<Seq<char>>::empty()
    } else {
        let r = edges_from(ts, t, refs.drop_last());
        match resolution_of(ts, t.project_id@, refs.last()) {
            Resolved::One(p) => if p != t.id@ {
                r.push(p)
            } else {
                r
            },
            _ => r,
        }
    }
}

/// (task id, reference) pairs of `t` that match no task, or only `t`
/// itself.
pub open spec fn unresolved_from(ts: Seq<Task>, t: Task, refs: Seq<Seq<char>>) -> Seq<
    (Seq<char>, Seq<char>),
>
    decreases refs.len(),
{
    if refs.len() == 0 {
        Seq::<(Seq<char>, Seq<char>)>::empty()
    } else {
        let r = unresolved_from(ts, t, refs.drop_last());
        match resolution_of(ts, t.project_id@, refs.last()) {
            Resolved::One(p) => if p == t.id@ {
                r.push((t.id@, refs.last()))
            } else {
                r
            },
            Resolved::Unmatched => r.push((t.id@, refs.last())),
            Resolved::Ambiguous => r,
        }
    }
}

/// (task id, reference) pairs of `t` that match more than one task.
pub open spec fn ambiguous_from(ts: Seq<Task>, t: Task, refs: Seq<Seq<char>>) -> Seq<
    (Seq<char>, Seq<char>),
>
    decreases refs.len(),
{
    if refs.len() == 0 {
        Seq::<(Seq<char>, Seq<char>)>::empty()
    } else {
        let r = ambiguous_from(ts, t, refs.drop_last());
        match resolution_of(ts, t.project_id@, refs.last()) {
            Resolved::Ambiguous => r.push((t.id@, refs.last())),
            _ => r,
        }
    }
}

/// Unresolved pairs of the first `n` tasks, task by task.
pub open spec fn all_unresolved(ts: Seq<Task>, n: int) -> Seq<(Seq<char>, Seq<char>)>
    decreases n,
{
    if n <= 0 {
        Seq::<(Seq<char>, Seq<char>)>::empty()
    } else {
        all_unresolved(ts, n - 1) + unresolved_from(ts, ts[n - 1], task_refs(ts[n - 1]))
    }
}

/// Ambiguous pairs of the first `n` tasks, task by task.
pub open spec fn all_ambiguous(ts: Seq<Task>, n: int) -> Seq<(Seq<char>, Seq<char>)>
    decreases n,
{
    if n <= 0 {
        Seq::<(Seq<char>, Seq<char>)>::empty()
    } else {
        all_ambiguous(ts, n - 1) + ambiguous_from(ts, ts[n - 1], task_refs(ts[n - 1]))
    }
}

/// The prerequisites that the first `n` tasks give the id `k`, in order.
pub open spec fn prereqs_of(ts: Seq<Task>, n: int, k: Seq<char>) -> Seq<Seq<char>>
    decreases n,
{
    if n <= 0 {
        Seq::<Seq<char>>::empty()
    } else if ts[n - 1].id@ == k {
        prereqs_of(ts, n - 1, k) + edges_from(ts, ts[n - 1], task_refs(ts[n - 1]))
    } else {
        prereqs_of(ts, n - 1, k)
    }
}

/// Among the first `n` tasks, one with id `k` gives `p` as a
/// prerequisite by id (it is one of its references) or by name (`p` is a
/// task of the same project).
pub open spec fn given_by(ts: Seq<Task>, n: int, k: Seq<char>, p: Seq<char>) -> bool {
    exists|i: int|
        #![trigger ts[i]]
        0 <= i < n && ts[i].id@ == k && (task_refs(ts[i]).contains(p) || has_id_in(ts, ts[i].project_id@, p))
}

/// In the graph of the first `n` tasks, each prerequisite of `k` comes
/// from a task with id `k`: it is one of that task's references (an id)
/// or the id of a task in that task's project (a name match). With task
/// ids distinct, a prerequisite found by name lies in its dependent's
/// project.
pub proof fn law_graph_names_stay_in_project(ts: Seq<Task>, n: int, k: Seq<char>)
    requires
        0 <= n <= ts.len(),
    ensures
        forall|j: int| 0 <= j < prereqs_of(ts, n, k).len() ==> given_by(ts, n, k, #[trigger] prereqs_of(ts, n, k)[j]),
    decreases n,
{
    if n > 0 {
        law_graph_names_stay_in_project(ts, n - 1, k);
        let a = prereqs_of(ts, n - 1, k);
        let t = ts[n - 1];
        assert forall|j: int| 0 <= j < prereqs_of(ts, n, k).len() implies given_by(
            ts,
            n,
            k,
            #[trigger] prereqs_of(ts, n, k)[j],
        ) by {
            let p = prereqs_of(ts, n, k)[j];
            if j < a.len() {
                assert(p == a[j]);
                assert(given_by(ts, n - 1, k, a[j]));
                let i = choose|i: int|
                    #![trigger ts[i]]
                    0 <= i < n - 1 && ts[i].id@ == k && (task_refs(ts[i]).contains(a[j]) || has_id_in(
                        ts,
                        ts[i].project_id@,
                        a[j],
                    ));
                assert(0 <= i < n && ts[i].id@ == k);
            } else {
                let e = edges_from(ts, t, task_refs(t));
                law_prereqs_by_name_share_the_project(ts, t, task_refs(t));
                assert(p == e[j - a.len()]);
                assert(task_refs(ts[n - 1]).contains(p) || has_id_in(ts, ts[n - 1].project_id@, p));
            }
        }
    }
}

/// The views of (id, reference) pairs.
pub open spec fn pairs(v: Seq<(String, String)>) -> Seq<(Seq<char>, Seq<char>)> {
    v.map_values(|p: (String, String)| (p.0@, p.1@))
}

/// Some entry of the adjacency list has key `k`.
pub open spec fn has_key(d: Seq<(String, Vec<String>)>, k: Seq<char>) -> bool {
    exists|i: int| 0 <= i < d.len() && #[trigger] d[i].0@ == k
}

/// No two entries of the adjacency list share a key.
pub open spec fn keys_distinct(d: Seq<(String, Vec<String>)>) -> bool {
    forall|i: int, j: int| 0 <= i < d.len() && 0 <= j < d.len() && i != j ==> d[i].0@ != d[j].0@
}

/// The adjacency list `d` maps each task id to exactly the prerequisites
/// that the first `n` tasks give it; ids without prerequisites are absent.
pub open spec fn prereqs_match(d: Seq<(String, Vec<String>)>, ts: Seq<Task>, n: int) -> bool {
    &&& keys_distinct(d)
    &&& forall|i: int|
        0 <= i < d.len() ==> strs(#[trigger] d[i].1@) == prereqs_of(ts, n, d[i].0@)
            && d[i].1@.len() > 0
    &&& forall|k: Seq<char>| #[trigger] prereqs_of(ts, n, k).len() > 0 ==> has_key(d, k)
}

/// The outcome of resolving every reference of one task.
fn task_outcomes(ts: &[Task], t: &Task) -> (r: (Vec<String>, Vec<(String, String)>, Vec<(String, String)>))
    ensures
        strs(r.0@) == edges_from(ts@, *t, task_refs(*t)),
        pairs(r.1@) == unresolved_from(ts@, *t, task_refs(*t)),
        pairs(r.2@) == ambiguous_from(ts@, *t, task_refs(*t)),
{
    let refs = parse_refs(t.description.as_str());
    let ghost rs = strs(refs@);
    let mut edges: Vec<String> = Vec::new();
    let mut unresolved: Vec<(String, String)> = Vec::new();
    let mut ambiguous: Vec<(String, String)> = Vec::new();
    let mut j: usize = 0;
    while j < refs.len()
        invariant
            j <= refs@.len(),
            rs == strs(refs@),
            rs == task_refs(*t),
            strs(edges@) == edges_from(ts@, *t, rs.take(j as int)),
            pairs(unresolved@) == unresolved_from(ts@, *t, rs.take(j as int)),
            pairs(ambiguous@) == ambiguous_from(ts@, *t, rs.take(j as int)),
        decreases refs@.len() - j,
    {
        let reference = &refs[j];
        assert(rs.take(j + 1).drop_last() == rs.take(j as int));
        assert(rs.take(j + 1).last() == reference@);
        let ghost e0 = edges@;
        let ghost u0 = unresolved@;
        let ghost a0 = ambiguous@;
        match resolve(ts, &t.project_id, reference) {
            Resolution::One(p) => {
                if p != t.id {
                    edges.push(p);
                    assert(strs(edges@) =~= strs(e0).push(edges@.last()@));
                } else {
                    unresolved.push((t.id.clone(), reference.clone()));
                    assert(pairs(unresolved@) =~= pairs(u0).push((t.id@, reference@)));
                }
            },
            Resolution::Unmatched => {
                unresolved.push((t.id.clone(), reference.clone()));
                assert(pairs(unresolved@) =~= pairs(u0).push((t.id@, reference@)));
            },
            Resolution::Ambiguous => {
                ambiguous.push((t.id.clone(), reference.clone()));
                assert(pairs(ambiguous@) =~= pairs(a0).push((t.id@, reference@)));
            },
        }
        j = j + 1;
    }
    assert(rs.take(refs@.len() as int) == rs);
    (edges, unresolved, ambiguous)
}

/// Appends `more` to `v`.
fn append_strings(v: &mut Vec<String>, more: &Vec<String>)
    ensures
        strs(final(v)@) == strs(old(v)@) + strs(more@),
{
    let mut i: usize = 0;
    while i < more.len()
        invariant
            i <= more@.len(),
            strs(v@) == strs(old(v)@) + strs(more@).take(i as int),
        decreases more@.len() - i,
    {
        let ghost before = v@;
        v.push(more[i].clone());
        assert(strs(v@) =~= strs(before).push(more@[i as int]@));
        assert(strs(more@).take(i + 1) =~= strs(more@).take(i as int).push(more@[i as int]@));
        i = i + 1;
    }
    assert(strs(more@).take(more@.len() as int) =~= strs(more@));
}

/// Appends a copy of each pair in `more` to `v`.
fn append_pairs(v: &mut Vec<(String, String)>, more: &Vec<(String, String)>)
    ensures
        pairs(final(v)@) == pairs(old(v)@) + pairs(more@),
{
    let mut i: usize = 0;
    while i < more.len()
        invariant
            i <= more@.len(),
            pairs(v@) == pairs(old(v)@) + pairs(more@).take(i as int),
        decreases more@.len() - i,
    {
        let ghost before = v@;
        v.push((more[i].0.clone(), more[i].1.clone()));
        assert(pairs(v@) =~= pairs(before).push((more@[i as int].0@, more@[i as int].1@)));
        assert(pairs(more@).take(i + 1) =~= pairs(more@).take(i as int).push(
            (more@[i as int].0@, more@[i as int].1@),
        ));
        i = i + 1;
    }
    assert(pairs(more@).take(more@.len() as int) =~= pairs(more@));
}

/// Position of the entry with key `k`, if any.
fn find_key(d: &Vec<(String, Vec<String>)>, k: &String) -> (r: Option<usize>)
    ensures
        match r {
            Some(i) => i < d@.len() && d@[i as int].0@ == k@,
            None => !has_key(d@, k@),
        },
{
    let mut i: usize = 0;
    while i < d.len()
        invariant
            i <= d@.len(),
            forall|j: int| 0 <= j < i ==> #[trigger] d@[j].0@ != k@,
        decreases d@.len() - i,
    {
        if d[i].0 == *k {
            return Some(i);
        }
        i = i + 1;
    }
    None
}

/// The graph's state once the first `n` tasks are in.
pub open spec fn dag_after(d: Dag, ts: Seq<Task>, n: int) -> bool {
    &&& prereqs_match(d.prereqs@, ts, n)
    &&& pairs(d.unresolved@) == all_unresolved(ts, n)
    &&& pairs(d.ambiguous@) == all_ambiguous(ts, n)
}

/// Every prerequisite the first `n` tasks give `k` is an active task
/// other than `k`, and `k` itself is an active task when it has any.
pub proof fn lemma_prereqs_are_active(ts: Seq<Task>, n: int, k: Seq<char>)
    requires
        0 <= n <= ts.len(),
    ensures
        forall|j: int|
            0 <= j < prereqs_of(ts, n, k).len() ==> has_id(ts, #[trigger] prereqs_of(ts, n, k)[j])
                && prereqs_of(ts, n, k)[j] != k,
        prereqs_of(ts, n, k).len() > 0 ==> has_id(ts, k),
    decreases n,
{
    if n > 0 {
        lemma_prereqs_are_active(ts, n - 1, k);
        if ts[n - 1].id@ == k {
            lemma_edges_are_active(ts, ts[n - 1], task_refs(ts[n - 1]));
            let a = prereqs_of(ts, n - 1, k);
            let e = edges_from(ts, ts[n - 1], task_refs(ts[n - 1]));
            assert forall|j: int| 0 <= j < prereqs_of(ts, n, k).len() implies has_id(
                ts,
                #[trigger] prereqs_of(ts, n, k)[j],
            ) && prereqs_of(ts, n, k)[j] != k by {
                if j < a.len() {
                    assert(prereqs_of(ts, n, k)[j] == a[j]);
                } else {
                    assert(prereqs_of(ts, n, k)[j] == e[j - a.len()]);
                }
            }
            assert(ts[n - 1].id@ == k);
        }
    }
}

pub proof fn lemma_edges_are_active(ts: Seq<Task>, t: Task, refs: Seq<Seq<char>>)
    ensures
        forall|j: int|
            0 <= j < edges_from(ts, t, refs).len() ==> has_id(ts, #[trigger] edges_from(ts, t, refs)[j])
                && edges_from(ts, t, refs)[j] != t.id@,
    decreases refs.len(),
{
    if refs.len() > 0 {
        lemma_edges_are_active(ts, t, refs.drop_last());
        lemma_resolved_is_active(ts, t.project_id@, refs.last());
        let r = edges_from(ts, t, refs.drop_last());
        assert forall|j: int| 0 <= j < edges_from(ts, t, refs).len() implies has_id(
            ts,
            #[trigger] edges_from(ts, t, refs)[j],
        ) && edges_from(ts, t, refs)[j] != t.id@ by {
            if j < r.len() {
                assert(edges_from(ts, t, refs)[j] == r[j]);
            }
        }
    }
}

/// An edge list with no entries, and no unresolved or ambiguous references.
pub open spec fn dag_is_empty(d: Dag) -> bool {
    d.prereqs@.len() == 0 && d.unresolved@.len() == 0 && d.ambiguous@.len() == 0
}

/// The dependency graph of a set of active tasks.
#[derive(Debug)]
pub struct Dag {
    /// task id -> prerequisite task ids (all still active)
    pub prereqs: Vec<(String, Vec<String>)>,
    /// (task id, reference text) pairs that matched no active task in the
    /// project. Usually means the prerequisite was completed — harmless —
    /// but `doctor` surfaces them in case of typos.
    pub unresolved: Vec<(String, String)>,
    /// (task id, reference text) pairs that matched more than one task.
    /// These block the task until disambiguated.
    pub ambiguous: Vec<(String, String)>,
}

impl Default for Dag {
    fn default() -> (d: Self)
        ensures
            dag_is_empty(d),
    {
        Dag { prereqs: Vec::new(), unresolved: Vec::new(), ambiguous: Vec::new() }
    }
}

impl Dag {
    /// Resolve every task's `after:` references against the active tasks.
    pub fn build(tasks: &[Task]) -> (dag: Self)
        ensures
            dag_after(dag, tasks@, tasks@.len() as int),
            // keys and prerequisites are active tasks, and no task waits on itself
            forall|i: int|
                0 <= i < dag.prereqs@.len() ==> has_id(tasks@, #[trigger] dag.prereqs@[i].0@),
            forall|i: int, j: int|
                0 <= i < dag.prereqs@.len() && 0 <= j < dag.prereqs@[i].1@.len() ==> has_id(
                    tasks@,
                    #[trigger] dag.prereqs@[i].1@[j]@,
                ) && dag.prereqs@[i].1@[j]@ != dag.prereqs@[i].0@,
    {
        let mut dag = Dag { prereqs: Vec::new(), unresolved: Vec::new(), ambiguous: Vec::new() };
        let mut i: usize = 0;
        assert(pairs(dag.unresolved@) =~= all_unresolved(tasks@, 0));
        assert(pairs(dag.ambiguous@) =~= all_ambiguous(tasks@, 0));
        while i < tasks.len()
            invariant
                i <= tasks@.len(),
                dag_after(dag, tasks@, i as int),
            decreases tasks@.len() - i,
        {
            let t = &tasks[i];
            let (edges, unresolved, ambiguous) = task_outcomes(tasks, t);
            let ghost ts = tasks@;
            let ghost e = strs(edges@);
            let ghost d0 = dag.prereqs@;
            assert forall|k: Seq<char>| #[trigger] prereqs_of(ts, i + 1, k) == prereqs_of(ts, i as int, k)
                + (if t.id@ == k { e } else { Seq::<Seq<char>>::empty() }) by {
                if t.id@ != k {
                    assert(prereqs_of(ts, i as int, k) + Seq::<Seq<char>>::empty() =~= prereqs_of(ts, i as int, k));
                }
            }
            append_pairs(&mut dag.unresolved, &unresolved);
            append_pairs(&mut dag.ambiguous, &ambiguous);
            if edges.len() > 0 {
                match find_key(&dag.prereqs, &t.id) {
                    Some(j) => {
                        let (key, mut list) = dag.prereqs.swap_remove(j);
                        append_strings(&mut list, &edges);
                        dag.prereqs.push((key, list));
                        let ghost d1 = dag.prereqs@;
                        assert forall|a: int| 0 <= a < d1.len() implies strs(#[trigger] d1[a].1@)
                            == prereqs_of(ts, i + 1, d1[a].0@) && d1[a].1@.len() > 0 by {
                            if a == d1.len() - 1 {
                                assert(d1[a].0@ == t.id@);
                                assert(strs(d1[a].1@) == strs(d0[j as int].1@) + e);
                                assert(prereqs_of(ts, i + 1, t.id@) == prereqs_of(ts, i as int, t.id@) + e);
                            } else if a == j {
                                assert(d1[a] == d0[d0.len() - 1]);
                                assert(d0[d0.len() - 1].0@ != d0[j as int].0@);
                                assert(prereqs_of(ts, i + 1, d1[a].0@) == prereqs_of(ts, i as int, d1[a].0@) + Seq::<Seq<char>>::empty());
                                assert(prereqs_of(ts, i as int, d1[a].0@) + Seq::<Seq<char>>::empty() =~= prereqs_of(ts, i as int, d1[a].0@));
                            } else {
                                assert(d1[a] == d0[a]);
                                assert(d0[a].0@ != d0[j as int].0@);
                                assert(prereqs_of(ts, i + 1, d1[a].0@) == prereqs_of(ts, i as int, d1[a].0@) + Seq::<Seq<char>>::empty());
                                assert(prereqs_of(ts, i as int, d1[a].0@) + Seq::<Seq<char>>::empty() =~= prereqs_of(ts, i as int, d1[a].0@));
                            }
                        }
                        assert forall|a: int, b: int|
                            0 <= a < d1.len() && 0 <= b < d1.len() && a != b implies d1[a].0@
                            != d1[b].0@ by {
                            let oa = if a == d1.len() - 1 { j as int } else if a == j { d0.len() - 1 } else { a };
                            let ob = if b == d1.len() - 1 { j as int } else if b == j { d0.len() - 1 } else { b };
                            assert(d1[a].0@ == d0[oa].0@);
                            assert(d1[b].0@ == d0[ob].0@);
                        }
                        assert forall|k: Seq<char>| #[trigger] prereqs_of(ts, i + 1, k).len() > 0 implies has_key(d1, k) by {
                            if k == t.id@ {
                                assert(d1[d1.len() - 1].0@ == k);
                            } else {
                                let w = choose|w: int| 0 <= w < d0.len() && #[trigger] d0[w].0@ == k;
                                let nw = if w == j { d0.len() - 1 } else if w == d0.len() - 1 { j as int } else { w };
                                assert(d1[nw].0@ == k);
                            }
                        }
                    },
                    None => {
                        dag.prereqs.push((t.id.clone(), edges));
                        let ghost d1 = dag.prereqs@;
                        assert(prereqs_of(ts, i as int, t.id@).len() == 0);
                        assert forall|a: int| 0 <= a < d1.len() implies strs(#[trigger] d1[a].1@)
                            == prereqs_of(ts, i + 1, d1[a].0@) && d1[a].1@.len() > 0 by {
                            if a == d1.len() - 1 {
                                assert(prereqs_of(ts, i as int, t.id@) + e =~= e);
                                assert(prereqs_of(ts, i + 1, t.id@) == prereqs_of(ts, i as int, t.id@) + e);
                            } else {
                                assert(d1[a] == d0[a]);
                                assert(d0[a].0@ != t.id@);
                                assert(prereqs_of(ts, i + 1, d1[a].0@) == prereqs_of(ts, i as int, d1[a].0@) + Seq::<Seq<char>>::empty());
                                assert(prereqs_of(ts, i as int, d1[a].0@) + Seq::<Seq<char>>::empty() =~= prereqs_of(ts, i as int, d1[a].0@));
                            }
                        }
                        assert forall|k: Seq<char>| #[trigger] prereqs_of(ts, i + 1, k).len() > 0 implies has_key(d1, k) by {
                            if k == t.id@ {
                                assert(d1[d1.len() - 1].0@ == k);
                            } else {
                                let w = choose|w: int| 0 <= w < d0.len() && #[trigger] d0[w].0@ == k;
                                assert(d1[w].0@ == k);
                            }
                        }
                    },
                }
            } else {
                assert forall|k: Seq<char>| #[trigger] prereqs_of(ts, i + 1, k) == prereqs_of(ts, i as int, k) by {
                    assert(e =~= Seq::<Seq<char>>::empty());
                    assert(prereqs_of(ts, i as int, k) + Seq::<Seq<char>>::empty() =~= prereqs_of(ts, i as int, k));
                }
            }
            i = i + 1;
        }
        proof {
            let ts = tasks@;
            let n = ts.len() as int;
            let d = dag.prereqs@;
            assert forall|i: int| 0 <= i < d.len() implies has_id(ts, #[trigger] d[i].0@) by {
                lemma_prereqs_are_active(ts, n, d[i].0@);
                assert(strs(d[i].1@).len() == d[i].1@.len());
            }
            assert forall|i: int, j: int|
                0 <= i < d.len() && 0 <= j < d[i].1@.len() implies has_id(ts, #[trigger] d[i].1@[j]@)
                && d[i].1@[j]@ != d[i].0@ by {
                lemma_prereqs_are_active(ts, n, d[i].0@);
                assert(strs(d[i].1@)[j] == d[i].1@[j]@);
            }
        }
        dag
    }
}


// ---------------------------------------------------------------------------
// Classification
// ---------------------------------------------------------------------------

/// Some reference of task `id` is ambiguous.
pub open spec fn is_ambiguous(d: Dag, id: Seq<char>) -> bool {
    exists|i: int| 0 <= i < d.ambiguous@.len() && #[trigger] d.ambiguous@[i].0@ == id
}

/// Task `id` has a prerequisite that is still among the active tasks.
pub open spec fn waits_on_active(d: Dag, ts: Seq<Task>, id: Seq<char>) -> bool {
    exists|i: int, j: int|
        #![trigger d.prereqs@[i].1@[j]]
        0 <= i < d.prereqs@.len() && 0 <= j < d.prereqs@[i].1@.len() && d.prereqs@[i].0@ == id
            && has_id(ts, d.prereqs@[i].1@[j]@)
}

/// Frontier rule: a task is blocked when it sits on a dependency cycle,
/// has an ambiguous reference, or waits on an active prerequisite.
pub open spec fn is_blocked(d: Dag, ts: Seq<Task>, id: Seq<char>) -> bool {
    on_cycle(d.prereqs@, id) || is_ambiguous(d, id) || waits_on_active(d, ts, id)
}

/// The label a task gets.
pub open spec fn label_for(blocked: bool) -> Seq<char> {
    if blocked {
        LABEL_BLOCKED@
    } else {
        LABEL_NEXT@
    }
}

/// The frontier rule, stated over the graph: a task is labelled `next`
/// exactly when it lies on no dependency cycle (no walk of prerequisite
/// edges leads from it back to itself), has no ambiguous reference, and
/// none of its prerequisites is still an active task; otherwise it is
/// labelled `blocked`.
pub proof fn law_frontier_rule(d: Dag, ts: Seq<Task>, id: Seq<char>)
    ensures
        label_for(is_blocked(d, ts, id)) == "next"@ <==> {
            &&& !crate::cycles::reaches(d.prereqs@, id, id)
            &&& forall|i: int| 0 <= i < d.ambiguous@.len() ==> (#[trigger] d.ambiguous@[i]).0@ != id
            &&& forall|i: int, j: int|
                0 <= i < d.prereqs@.len() && 0 <= j < d.prereqs@[i].1@.len() && d.prereqs@[i].0@ == id ==> !has_id(
                    ts,
                    #[trigger] d.prereqs@[i].1@[j]@,
                )
        },
        label_for(is_blocked(d, ts, id)) == "blocked"@ || label_for(is_blocked(d, ts, id)) == "next"@,
{
    reveal_strlit("next");
    reveal_strlit("blocked");
    assert("next"@ != "blocked"@) by {
        assert("next"@.len() != "blocked"@.len());
    }
}

/// `id` is among `ids`.
fn contains_string(ids: &Vec<String>, id: &String) -> (r: bool)
    ensures
        r == strs(ids@).contains(id@),
{
    let mut i: usize = 0;
    while i < ids.len()
        invariant
            i <= ids@.len(),
            forall|k: int| 0 <= k < i ==> #[trigger] ids@[k]@ != id@,
        decreases ids@.len() - i,
    {
        if ids[i] == *id {
            assert(strs(ids@)[i as int] == id@);
            return true;
        }
        i = i + 1;
    }
    proof {
        if strs(ids@).contains(id@) {
            let k = choose|k: int| 0 <= k < strs(ids@).len() && strs(ids@)[k] == id@;
            assert(ids@[k]@ == id@);
        }
    }
    false
}

impl Dag {
    fn has_ambiguous(&self, id: &String) -> (r: bool)
        ensures
            r == is_ambiguous(*self, id@),
    {
        let mut i: usize = 0;
        while i < self.ambiguous.len()
            invariant
                i <= self.ambiguous@.len(),
                forall|k: int| 0 <= k < i ==> #[trigger] self.ambiguous@[k].0@ != id@,
            decreases self.ambiguous@.len() - i,
        {
            if self.ambiguous[i].0 == *id {
                return true;
            }
            i = i + 1;
        }
        false
    }

    fn waits_on(&self, tasks: &[Task], id: &String) -> (r: bool)
        ensures
            r == waits_on_active(*self, tasks@, id@),
    {
        let mut i: usize = 0;
        while i < self.prereqs.len()
            invariant
                i <= self.prereqs@.len(),
                forall|a: int, b: int|
                    #![trigger self.prereqs@[a].1@[b]]
                    0 <= a < i && 0 <= b < self.prereqs@[a].1@.len() && self.prereqs@[a].0@ == id@
                        ==> !has_id(tasks@, self.prereqs@[a].1@[b]@),
            decreases self.prereqs@.len() - i,
        {
            if self.prereqs[i].0 == *id {
                let list = &self.prereqs[i].1;
                let mut j: usize = 0;
                while j < list.len()
                    invariant
                        i < self.prereqs@.len(),
                        *list == self.prereqs@[i as int].1,
                        self.prereqs@[i as int].0@ == id@,
                        j <= list@.len(),
                        forall|a: int, b: int|
                            #![trigger self.prereqs@[a].1@[b]]
                            0 <= a < i && 0 <= b < self.prereqs@[a].1@.len() && self.prereqs@[a].0@
                                == id@ ==> !has_id(tasks@, self.prereqs@[a].1@[b]@),
                        forall|b: int| 0 <= b < j ==> !has_id(tasks@, #[trigger] list@[b]@),
                    decreases list@.len() - j,
                {
                    if has_task_id(tasks, &list[j]) {
                        assert(self.prereqs@[i as int].1@[j as int] == list@[j as int]);
                        return true;
                    }
                    j = j + 1;
                }
                assert forall|a: int, b: int|
                    #![trigger self.prereqs@[a].1@[b]]
                    0 <= a < i + 1 && 0 <= b < self.prereqs@[a].1@.len() && self.prereqs@[a].0@ == id@
                        implies !has_id(tasks@, self.prereqs@[a].1@[b]@) by {
                    if a == i {
                        assert(list@[b] == self.prereqs@[a].1@[b]);
                    }
                }
            }
            i = i + 1;
        }
        false
    }

    /// Classify every active task as `next` (actionable now) or `blocked`,
    /// one (task id, label) pair per task, in task order.
    ///
    /// Frontier rule: a task is `next` when every prerequisite is complete
    /// (i.e. no longer active) — including tasks with no dependencies at
    /// all. Ambiguous references and cycle membership block a task.
    #[verifier::spinoff_prover]
    pub fn classify(&self, tasks: &[Task]) -> (r: Vec<(String, &'static str)>)
        ensures
            r@.len() == tasks@.len(),
            forall|i: int|
                0 <= i < tasks@.len() ==> #[trigger] r@[i].0@ == tasks@[i].id@ && r@[i].1@ == label_for(
                    is_blocked(*self, tasks@, tasks@[i].id@),
                ),
    {
        let cycles = self.cycle_members();
        let mut r: Vec<(String, &'static str)> = Vec::new();
        let mut i: usize = 0;
        while i < tasks.len()
            invariant
                i <= tasks@.len(),
                r@.len() == i,
                forall|k: Seq<char>| #[trigger] strs(cycles@).contains(k) <==> on_cycle(self.prereqs@, k),
                forall|a: int|
                    0 <= a < i ==> #[trigger] r@[a].0@ == tasks@[a].id@ && r@[a].1@ == label_for(
                        is_blocked(*self, tasks@, tasks@[a].id@),
                    ),
            decreases tasks@.len() - i,
        {
            let t = &tasks[i];
            let blocked = contains_string(&cycles, &t.id) || self.has_ambiguous(&t.id)
                || self.waits_on(tasks, &t.id);
            let label = if blocked {
                LABEL_BLOCKED
            } else {
                LABEL_NEXT
            };
            let ghost r0 = r@;
            r.push((t.id.clone(), label));
            assert(r@[i as int].0@ == tasks@[i as int].id@);
            assert(blocked == is_blocked(*self, tasks@, tasks@[i as int].id@));
            assert(r@[i as int].1@ == label_for(blocked));
            assert forall|a: int| 0 <= a < i implies r@[a] == r0[a] by {}
            i = i + 1;
        }
        r
    }
}

} // verus!
