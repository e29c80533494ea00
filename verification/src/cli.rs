//! The decisions behind the command-line tool: finding the task a query
//! names, and adding or removing `after:` lines in a description.

use vstd::prelude::*;
use vstd::string::StringExecFns;

use crate::cycles::on_cycle;
use crate::dag::{clean_ref, line_refs, list_refs, lines_refs, pairs, refs_in, Dag};
use crate::labels::join_with;
use crate::text::{
    char_vecs, chars_of, contains_chars, contains_seq, extend_chars, extend_str, is_ws, lemma_occurs_extend,
    lemma_occurs_self, lower_chars, lowercase, occurs_in,
    lemma_split_nonempty, split, split_chars, starts_with, starts_with_chars, string_of, strs, trim, trim_chars,
};
use crate::todoist::Task;

verus! {

// ---------------------------------------------------------------------------
// Finding a task
// ---------------------------------------------------------------------------

/// Position of the first task with exactly this id.
pub open spec fn first_with_id(ts: Seq<Task>, q: Seq<char>) -> Option<int>
    decreases ts.len(),
{
    if ts.len() == 0 {
        None
    } else {
        match first_with_id(ts.drop_last(), q) {
            Some(i) => Some(i),
            None => if ts.last().id@ == q {
                Some(ts.len() - 1)
            } else {
                None
            },
        }
    }
}

/// Positions, in order, of the tasks whose lowercased name contains
/// `needle`.
pub open spec fn name_matches(ts: Seq<Task>, needle: Seq<char>) -> Seq<int>
    decreases ts.len(),
{
    if ts.len() == 0 {
        Seq::<int>::empty()
    } else if contains_seq(lowercase(ts.last().content@), needle) {
        name_matches(ts.drop_last(), needle).push(ts.len() - 1)
    } else {
        name_matches(ts.drop_last(), needle)
    }
}

proof fn lemma_name_matches(ts: Seq<Task>, needle: Seq<char>)
    ensures
        forall|k: int|
            0 <= k < name_matches(ts, needle).len() ==> 0 <= #[trigger] name_matches(ts, needle)[k] < ts.len()
                && occurs_in(lowercase(ts[name_matches(ts, needle)[k]].content@), needle),
        forall|j: int|
            0 <= j < ts.len() && occurs_in(lowercase((#[trigger] ts[j]).content@), needle) ==> name_matches(
                ts,
                needle,
            ).contains(j),
        forall|a: int, b: int|
            0 <= a < b < name_matches(ts, needle).len() ==> #[trigger] name_matches(ts, needle)[a]
                < #[trigger] name_matches(ts, needle)[b],
    decreases ts.len(),
{
    if ts.len() > 0 {
        let prev = ts.drop_last();
        lemma_name_matches(prev, needle);
        let m0 = name_matches(prev, needle);
        let m = name_matches(ts, needle);
        let last = ts.len() - 1;
        assert(ts[last] == ts.last());
        assert forall|k: int| 0 <= k < m.len() implies 0 <= #[trigger] m[k] < ts.len() && occurs_in(
            lowercase(ts[m[k]].content@),
            needle,
        ) by {
            if k < m0.len() {
                assert(m[k] == m0[k]);
                assert(prev[m0[k]] == ts[m0[k]]);
            }
        }
        assert forall|j: int| 0 <= j < ts.len() && occurs_in(lowercase((#[trigger] ts[j]).content@), needle) implies m.contains(
            j,
        ) by {
            if j < last {
                assert(prev[j] == ts[j]);
                let w = choose|w: int| 0 <= w < m0.len() && m0[w] == j;
                assert(m[w] == j);
            } else {
                assert(m[m.len() - 1] == j);
            }
        }
        assert forall|a: int, b: int| 0 <= a < b < m.len() implies #[trigger] m[a] < #[trigger] m[b] by {
            if b < m0.len() {
                assert(m[a] == m0[a] && m[b] == m0[b]);
            } else {
                assert(m[a] == m0[a]);
            }
        }
    }
}

/// A query that is no task's id names the one task whose lowercased name
/// contains the lowercased query, anywhere in it, when exactly one such
/// task exists: `find_unique` then answers with that task.
pub proof fn law_unique_substring_names_the_task(ts: Seq<Task>, query: Seq<char>, i: int)
    requires
        forall|j: int| 0 <= j < ts.len() ==> (#[trigger] ts[j]).id@ != query,
        0 <= i < ts.len(),
        occurs_in(lowercase(ts[i].content@), lowercase(query)),
        forall|j: int|
            0 <= j < ts.len() && j != i ==> !occurs_in(lowercase((#[trigger] ts[j]).content@), lowercase(query)),
    ensures
        first_with_id(ts, query) is None,
        name_matches(ts, lowercase(query)) == seq![i],
{
    lemma_first_with_id_none(ts, query);
    let needle = lowercase(query);
    lemma_name_matches(ts, needle);
    let m = name_matches(ts, needle);
    assert(m.contains(i));
    assert forall|k: int| 0 <= k < m.len() implies #[trigger] m[k] == i by {}
    if m.len() > 1 {
        assert(m[0] < m[1]);
    }
    assert(m =~= seq![i]);
}

/// Whether a query names no task, one, or several depends on how many
/// tasks' lowercased names contain it: none gives no match, two or more
/// give several.
pub proof fn law_substring_match_counts(ts: Seq<Task>, query: Seq<char>)
    ensures
        (forall|j: int| 0 <= j < ts.len() ==> !occurs_in(lowercase((#[trigger] ts[j]).content@), lowercase(query)))
            ==> name_matches(ts, lowercase(query)).len() == 0,
        forall|a: int, b: int|
            0 <= a < b < ts.len() && occurs_in(lowercase((#[trigger] ts[a]).content@), lowercase(query)) && occurs_in(
                lowercase((#[trigger] ts[b]).content@),
                lowercase(query),
            ) ==> name_matches(ts, lowercase(query)).len() >= 2,
{
    let needle = lowercase(query);
    lemma_name_matches(ts, needle);
    let m = name_matches(ts, needle);
    if m.len() > 0 {
        assert(0 <= m[0] < ts.len());
    }
    assert forall|a: int, b: int|
        0 <= a < b < ts.len() && occurs_in(lowercase((#[trigger] ts[a]).content@), needle) && occurs_in(
            lowercase((#[trigger] ts[b]).content@),
            needle,
        ) implies m.len() >= 2 by {
        assert(m.contains(a) && m.contains(b));
        let x = choose|x: int| 0 <= x < m.len() && m[x] == a;
        let y = choose|y: int| 0 <= y < m.len() && m[y] == b;
    }
}

proof fn lemma_first_with_id_none(ts: Seq<Task>, q: Seq<char>)
    requires
        forall|j: int| 0 <= j < ts.len() ==> (#[trigger] ts[j]).id@ != q,
    ensures
        first_with_id(ts, q) is None,
    decreases ts.len(),
{
    if ts.len() > 0 {
        let prev = ts.drop_last();
        assert forall|j: int| 0 <= j < prev.len() implies (#[trigger] prev[j]).id@ != q by {
            assert(prev[j] == ts[j]);
        }
        lemma_first_with_id_none(prev, q);
        assert(ts[ts.len() - 1] == ts.last());
    }
}

/// A query that is a task's id names the first task carrying it, before
/// any name is looked at: `first_with_id` finds the earliest task whose
/// id equals the query, and finds none exactly when no task has it.
pub proof fn law_id_query_finds_first(ts: Seq<Task>, q: Seq<char>)
    ensures
        match first_with_id(ts, q) {
            Some(i) => 0 <= i < ts.len() && ts[i].id@ == q && forall|j: int| 0 <= j < i ==> (#[trigger] ts[j]).id@ != q,
            None => forall|j: int| 0 <= j < ts.len() ==> (#[trigger] ts[j]).id@ != q,
        },
    decreases ts.len(),
{
    if ts.len() > 0 {
        let prev = ts.drop_last();
        law_id_query_finds_first(prev, q);
        assert(ts[ts.len() - 1] == ts.last());
        match first_with_id(prev, q) {
            Some(i) => {
                assert(prev[i] == ts[i]);
                assert forall|j: int| 0 <= j < i implies (#[trigger] ts[j]).id@ != q by {
                    assert(prev[j] == ts[j]);
                }
            },
            None => {
                assert forall|j: int| 0 <= j < ts.len() - 1 implies (#[trigger] ts[j]).id@ != q by {
                    assert(prev[j] == ts[j]);
                }
            },
        }
    }
}

/// Why a query names no single task.
#[derive(Debug)]
pub enum FindError {
    /// No active task has the id or a name containing the query.
    NoMatch,
    /// Several tasks' names contain the query; their names, in task order.
    Ambiguous(Vec<String>),
}

/// The task a query names: the first task with that exact id, else the
/// one task whose lowercased name contains the lowercased query.
pub fn find_unique<'a>(tasks: &'a [Task], query: &str) -> (r: Result<&'a Task, FindError>)
    ensures
        match first_with_id(tasks@, query@) {
            Some(i) => r matches Ok(t) && *t == tasks@[i],
            None => {
                let ms = name_matches(tasks@, lowercase(query@));
                match r {
                    Ok(t) => ms.len() == 1 && *t == tasks@[ms[0]],
                    Err(FindError::NoMatch) => ms.len() == 0,
                    Err(FindError::Ambiguous(names)) => ms.len() > 1 && names@.len() == ms.len()
                        && forall|k: int| 0 <= k < ms.len() ==> #[trigger] names@[k]@ == tasks@[ms[k]].content@,
                }
            },
        },
{
    let q = String::from_str(query);
    let mut i: usize = 0;
    while i < tasks.len()
        invariant
            i <= tasks@.len(),
            q@ == query@,
            first_with_id(tasks@.take(i as int), query@) is None,
        decreases tasks@.len() - i,
    {
        assert(tasks@.take(i + 1).drop_last() == tasks@.take(i as int));
        if tasks[i].id == q {
            assert(first_with_id(tasks@.take(i + 1), query@) == Some(i as int));
            proof {
                lemma_first_with_id_prefix(tasks@, query@, i as int + 1);
            }
            return Ok(&tasks[i]);
        }
        i = i + 1;
    }
    assert(tasks@.take(tasks@.len() as int) == tasks@);
    let needle = lower_chars(query);
    let mut ms: Vec<usize> = Vec::new();
    let mut names: Vec<String> = Vec::new();
    let mut j: usize = 0;
    while j < tasks.len()
        invariant
            j <= tasks@.len(),
            needle@ == lowercase(query@),
            ms@.len() == names@.len(),
            ms@.len() == name_matches(tasks@.take(j as int), needle@).len(),
            forall|k: int| 0 <= k < ms@.len() ==> #[trigger] ms@[k] as int == name_matches(tasks@.take(j as int), needle@)[k],
            forall|k: int| 0 <= k < ms@.len() ==> #[trigger] names@[k]@ == tasks@[ms@[k] as int].content@,
            forall|k: int| 0 <= k < ms@.len() ==> #[trigger] ms@[k] < j,
        decreases tasks@.len() - j,
    {
        assert(tasks@.take(j + 1).drop_last() == tasks@.take(j as int));
        assert(tasks@.take(j + 1).last() == tasks@[j as int]);
        let name = lower_chars(tasks[j].content.as_str());
        if contains_chars(name.as_slice(), needle.as_slice()) {
            ms.push(j);
            names.push(tasks[j].content.clone());
        }
        j = j + 1;
    }
    assert(tasks@.take(tasks@.len() as int) == tasks@);
    if ms.len() == 1 {
        Ok(&tasks[ms[0]])
    } else if ms.len() == 0 {
        Err(FindError::NoMatch)
    } else {
        Err(FindError::Ambiguous(names))
    }
}

proof fn lemma_first_with_id_prefix(ts: Seq<Task>, q: Seq<char>, n: int)
    requires
        0 <= n <= ts.len(),
        first_with_id(ts.take(n), q) is Some,
    ensures
        first_with_id(ts, q) == first_with_id(ts.take(n), q),
    decreases ts.len() - n,
{
    if n < ts.len() {
        assert(ts.take(n + 1).drop_last() == ts.take(n));
        lemma_first_with_id_prefix(ts, q, n + 1);
    } else {
        assert(ts.take(n) == ts);
    }
}

/// The message for a query that names no single task.
pub open spec fn find_error_text(e: FindError, query: Seq<char>) -> Seq<char> {
    match e {
        FindError::NoMatch => "no active task matches '"@ + query + "'"@,
        FindError::Ambiguous(names) => "'"@ + query + "' is ambiguous, matches: "@ + join_with(
            strs(names@),
            " | "@,
        ),
    }
}

impl FindError {
    /// The message for a query that names no single task.
    pub fn describe(&self, query: &str) -> (r: String)
        ensures
            r@ == find_error_text(*self, query@),
    {
        let mut out: Vec<char> = Vec::new();
        match self {
            FindError::NoMatch => {
                extend_str(&mut out, "no active task matches '");
                extend_str(&mut out, query);
                extend_str(&mut out, "'");
            },
            FindError::Ambiguous(names) => {
                extend_str(&mut out, "'");
                extend_str(&mut out, query);
                extend_str(&mut out, "' is ambiguous, matches: ");
                let ghost base = out@;
                let ghost nv = strs(names@);
                let mut i: usize = 0;
                while i < names.len()
                    invariant
                        i <= names@.len(),
                        nv == strs(names@),
                        out@ == base + join_with(nv.take(i as int), " | "@),
                    decreases names@.len() - i,
                {
                    assert(nv.take(i + 1).drop_last() == nv.take(i as int));
                    assert(nv.take(i + 1).last() == names@[i as int]@);
                    if i > 0 {
                        extend_str(&mut out, " | ");
                    }
                    extend_str(&mut out, names[i].as_str());
                    if i == 0 {
                        assert(nv.take(1).len() == 1);
                    }
                    i = i + 1;
                }
                assert(nv.take(names@.len() as int) == nv);
            },
        }
        string_of(out.as_slice())
    }
}

/// The name of the first task with this id, or the id itself.
pub open spec fn name_of(ts: Seq<Task>, id: Seq<char>) -> Seq<char> {
    match first_with_id(ts, id) {
        Some(i) => ts[i].content@,
        None => id,
    }
}

/// The name of the first task with this id, or the id itself.
pub fn task_name(tasks: &[Task], id: &str) -> (r: String)
    ensures
        r@ == name_of(tasks@, id@),
{
    match find_unique_id(tasks, id) {
        Some(i) => tasks[i].content.clone(),
        None => String::from_str(id),
    }
}

fn find_unique_id(tasks: &[Task], id: &str) -> (r: Option<usize>)
    ensures
        match r {
            Some(i) => first_with_id(tasks@, id@) == Some(i as int) && i < tasks@.len(),
            None => first_with_id(tasks@, id@) is None,
        },
{
    let q = String::from_str(id);
    let mut i: usize = 0;
    while i < tasks.len()
        invariant
            i <= tasks@.len(),
            q@ == id@,
            first_with_id(tasks@.take(i as int), id@) is None,
        decreases tasks@.len() - i,
    {
        assert(tasks@.take(i + 1).drop_last() == tasks@.take(i as int));
        if tasks[i].id == q {
            assert(first_with_id(tasks@.take(i + 1), id@) == Some(i as int));
            proof {
                lemma_first_with_id_prefix(tasks@, id@, i as int + 1);
            }
            return Some(i);
        }
        i = i + 1;
    }
    assert(tasks@.take(tasks@.len() as int) == tasks@);
    None
}

// ---------------------------------------------------------------------------
// Listings
// ---------------------------------------------------------------------------

/// Lines `dependent  <-  prerequisite` for the prerequisites of one entry.
pub open spec fn entry_listing(ts: Seq<Task>, task: Seq<char>, ps: Seq<Seq<char>>) -> Seq<char>
    decreases ps.len(),
{
    if ps.len() == 0 {
        Seq::<char>::empty()
    } else {
        entry_listing(ts, task, ps.drop_last()) + name_of(ts, task) + "  <-  "@ + name_of(ts, ps.last())
            + "\n"@
    }
}

/// The dependency graph as text: one line per edge, by task names.
pub open spec fn graph_listing_text(ts: Seq<Task>, d: Seq<(String, Vec<String>)>) -> Seq<char>
    decreases d.len(),
{
    if d.len() == 0 {
        Seq::<char>::empty()
    } else {
        graph_listing_text(ts, d.drop_last()) + entry_listing(ts, d.last().0@, strs(d.last().1@))
    }
}

/// The listing line of one edge: the dependent's name, `  <-  `, the
/// prerequisite's name, a line break.
pub open spec fn edge_line(ts: Seq<Task>, task: Seq<char>, p: Seq<char>) -> Seq<char> {
    name_of(ts, task) + "  <-  "@ + name_of(ts, p) + "\n"@
}

/// Total length of the edge lines of one task's prerequisites.
pub open spec fn edge_lines_len(ts: Seq<Task>, task: Seq<char>, ps: Seq<Seq<char>>) -> int
    decreases ps.len(),
{
    if ps.len() == 0 {
        0
    } else {
        edge_lines_len(ts, task, ps.drop_last()) + edge_line(ts, task, ps.last()).len()
    }
}

/// Total length of the edge lines of every (task, prerequisite) pair.
pub open spec fn all_edge_lines_len(ts: Seq<Task>, d: Seq<(String, Vec<String>)>) -> int
    decreases d.len(),
{
    if d.len() == 0 {
        0
    } else {
        all_edge_lines_len(ts, d.drop_last()) + edge_lines_len(ts, d.last().0@, strs(d.last().1@))
    }
}

proof fn lemma_entry_listing(ts: Seq<Task>, task: Seq<char>, ps: Seq<Seq<char>>)
    ensures
        entry_listing(ts, task, ps).len() == edge_lines_len(ts, task, ps),
        forall|j: int| 0 <= j < ps.len() ==> occurs_in(entry_listing(ts, task, ps), edge_line(ts, task, #[trigger] ps[j])),
    decreases ps.len(),
{
    if ps.len() > 0 {
        let prev = ps.drop_last();
        lemma_entry_listing(ts, task, prev);
        let e0 = entry_listing(ts, task, prev);
        let l = edge_line(ts, task, ps.last());
        assert(entry_listing(ts, task, ps) =~= e0 + l);
        lemma_occurs_self(l);
        lemma_occurs_extend(e0, l, l);
        assert forall|j: int| 0 <= j < ps.len() implies occurs_in(entry_listing(ts, task, ps), edge_line(ts, task, #[trigger] ps[j])) by {
            if j < prev.len() {
                assert(prev[j] == ps[j]);
                lemma_occurs_extend(e0, l, edge_line(ts, task, ps[j]));
            }
        }
    }
}

/// `tache graph` lists every edge of the graph and nothing else: for
/// every task entry and each of its prerequisites, the line
/// `dependent  <-  prerequisite` occurs in the listing, and the listing
/// is exactly as long as all those lines together.
pub proof fn law_graph_listing_lists_every_edge(ts: Seq<Task>, d: Seq<(String, Vec<String>)>)
    ensures
        graph_listing_text(ts, d).len() == all_edge_lines_len(ts, d),
        forall|i: int, j: int|
            0 <= i < d.len() && 0 <= j < d[i].1@.len() ==> occurs_in(
                graph_listing_text(ts, d),
                #[trigger] edge_line(ts, d[i].0@, d[i].1@[j]@),
            ),
    decreases d.len(),
{
    if d.len() > 0 {
        let prev = d.drop_last();
        law_graph_listing_lists_every_edge(ts, prev);
        let g0 = graph_listing_text(ts, prev);
        let last = d.last();
        let ps = strs(last.1@);
        lemma_entry_listing(ts, last.0@, ps);
        let e = entry_listing(ts, last.0@, ps);
        assert forall|i: int, j: int| 0 <= i < d.len() && 0 <= j < d[i].1@.len() implies occurs_in(
            graph_listing_text(ts, d),
            #[trigger] edge_line(ts, d[i].0@, d[i].1@[j]@),
        ) by {
            if i < prev.len() {
                assert(prev[i] == d[i]);
                lemma_occurs_extend(g0, e, edge_line(ts, d[i].0@, d[i].1@[j]@));
            } else {
                assert(d[i] == last);
                assert(ps[j] == d[i].1@[j]@);
                lemma_occurs_extend(g0, e, edge_line(ts, d[i].0@, d[i].1@[j]@));
            }
        }
    }
}

/// One doctor line about a reference: the tag, the task's name, the
/// reference, the note.
pub open spec fn ref_line(ts: Seq<Task>, pr: (Seq<char>, Seq<char>), tag: Seq<char>, note: Seq<char>) -> Seq<char> {
    tag + name_of(ts, pr.0) + ": after: "@ + pr.1 + note + "\n"@
}

/// The doctor line about a task on a cycle.
pub open spec fn cycle_line(ts: Seq<Task>, id: Seq<char>) -> Seq<char> {
    "cycle       "@ + name_of(ts, id) + "\n"@
}

/// `doctor` reports every unresolved or ambiguous reference and nothing
/// else: for each (task, reference) pair its line occurs in the report
/// part, and that part is exactly as long as all those lines together.
pub proof fn law_doctor_lists_every_reference(
    ts: Seq<Task>,
    ps: Seq<(Seq<char>, Seq<char>)>,
    tag: Seq<char>,
    note: Seq<char>,
)
    ensures
        forall|k: int| 0 <= k < ps.len() ==> occurs_in(ref_lines(ts, ps, tag, note), #[trigger] ref_line(ts, ps[k], tag, note)),
        ref_lines(ts, ps, tag, note).len() == ps.map_values(|pr: (Seq<char>, Seq<char>)| ref_line(ts, pr, tag, note).len() as int).fold_left(
            0int,
            |acc: int, n: int| acc + n,
        ),
    decreases ps.len(),
{
    if ps.len() > 0 {
        let prev = ps.drop_last();
        law_doctor_lists_every_reference(ts, prev, tag, note);
        let r0 = ref_lines(ts, prev, tag, note);
        let l = ref_line(ts, ps.last(), tag, note);
        assert(ref_lines(ts, ps, tag, note) =~= r0 + l);
        lemma_occurs_self(l);
        lemma_occurs_extend(r0, l, l);
        assert forall|k: int| 0 <= k < ps.len() implies occurs_in(ref_lines(ts, ps, tag, note), #[trigger] ref_line(ts, ps[k], tag, note)) by {
            if k < prev.len() {
                assert(prev[k] == ps[k]);
                lemma_occurs_extend(r0, l, ref_line(ts, ps[k], tag, note));
            }
        }
        let f = |pr: (Seq<char>, Seq<char>)| ref_line(ts, pr, tag, note).len() as int;
        assert(ps.map_values(f).drop_last() =~= prev.map_values(f));
    }
}

/// `doctor` names every task it was given as lying on a cycle, each on a
/// line of its own, and nothing else.
pub proof fn law_doctor_lists_every_cycle_member(ts: Seq<Task>, ids: Seq<Seq<char>>)
    ensures
        forall|k: int| 0 <= k < ids.len() ==> occurs_in(cycle_lines(ts, ids), #[trigger] cycle_line(ts, ids[k])),
        cycle_lines(ts, ids).len() == ids.map_values(|id: Seq<char>| cycle_line(ts, id).len() as int).fold_left(
            0int,
            |acc: int, n: int| acc + n,
        ),
    decreases ids.len(),
{
    if ids.len() > 0 {
        let prev = ids.drop_last();
        law_doctor_lists_every_cycle_member(ts, prev);
        let c0 = cycle_lines(ts, prev);
        let l = cycle_line(ts, ids.last());
        assert(cycle_lines(ts, ids) =~= c0 + l);
        lemma_occurs_self(l);
        lemma_occurs_extend(c0, l, l);
        assert forall|k: int| 0 <= k < ids.len() implies occurs_in(cycle_lines(ts, ids), #[trigger] cycle_line(ts, ids[k])) by {
            if k < prev.len() {
                assert(prev[k] == ids[k]);
                lemma_occurs_extend(c0, l, cycle_line(ts, ids[k]));
            }
        }
        let f = |id: Seq<char>| cycle_line(ts, id).len() as int;
        assert(ids.map_values(f).drop_last() =~= prev.map_values(f));
    }
}

/// Appends the name of the first task with this id, or the id, to `out`.
fn push_name(out: &mut Vec<char>, tasks: &[Task], id: &str)
    ensures
        final(out)@ == old(out)@ + name_of(tasks@, id@),
{
    let n = task_name(tasks, id);
    extend_str(out, n.as_str());
}

/// The dependency graph as text: one `dependent  <-  prerequisite` line
/// per edge, tasks shown by name (by id when unknown).
pub fn graph_listing(tasks: &[Task], dag: &Dag) -> (r: String)
    ensures
        r@ == graph_listing_text(tasks@, dag.prereqs@),
{
    let d = &dag.prereqs;
    let mut out: Vec<char> = Vec::new();
    let mut i: usize = 0;
    while i < d.len()
        invariant
            i <= d@.len(),
            out@ == graph_listing_text(tasks@, d@.take(i as int)),
        decreases d@.len() - i,
    {
        let task = &d[i].0;
        let list = &d[i].1;
        let ghost base = out@;
        let mut j: usize = 0;
        while j < list.len()
            invariant
                j <= list@.len(),
                out@ == base + entry_listing(tasks@, task@, strs(list@).take(j as int)),
            decreases list@.len() - j,
        {
            assert(strs(list@).take(j + 1).drop_last() == strs(list@).take(j as int));
            assert(strs(list@).take(j + 1).last() == list@[j as int]@);
            push_name(&mut out, tasks, task.as_str());
            extend_str(&mut out, "  <-  ");
            push_name(&mut out, tasks, list[j].as_str());
            extend_str(&mut out, "\n");
            j = j + 1;
        }
        assert(strs(list@).take(list@.len() as int) == strs(list@));
        assert(d@.take(i + 1).drop_last() == d@.take(i as int));
        assert(d@.take(i + 1).last() == d@[i as int]);
        i = i + 1;
    }
    assert(d@.take(d@.len() as int) == d@);
    string_of(out.as_slice())
}

/// Doctor lines for (task id, reference) pairs, each `tag` + task name +
/// `: after: ` + reference + `note` + newline.
pub open spec fn ref_lines(ts: Seq<Task>, ps: Seq<(Seq<char>, Seq<char>)>, tag: Seq<char>, note: Seq<char>) -> Seq<char>
    decreases ps.len(),
{
    if ps.len() == 0 {
        Seq::<char>::empty()
    } else {
        ref_lines(ts, ps.drop_last(), tag, note) + tag + name_of(ts, ps.last().0) + ": after: "@ + ps.last().1
            + note + "\n"@
    }
}

/// Doctor lines for the tasks on cycles.
pub open spec fn cycle_lines(ts: Seq<Task>, ids: Seq<Seq<char>>) -> Seq<char>
    decreases ids.len(),
{
    if ids.len() == 0 {
        Seq::<char>::empty()
    } else {
        cycle_lines(ts, ids.drop_last()) + "cycle       "@ + name_of(ts, ids.last()) + "\n"@
    }
}

fn push_ref_lines(out: &mut Vec<char>, tasks: &[Task], ps: &Vec<(String, String)>, tag: &str, note: &str)
    ensures
        final(out)@ == old(out)@ + ref_lines(tasks@, pairs(ps@), tag@, note@),
{
    let ghost pv = pairs(ps@);
    let mut i: usize = 0;
    while i < ps.len()
        invariant
            i <= ps@.len(),
            pv == pairs(ps@),
            out@ == old(out)@ + ref_lines(tasks@, pv.take(i as int), tag@, note@),
        decreases ps@.len() - i,
    {
        assert(pv.take(i + 1).drop_last() == pv.take(i as int));
        assert(pv.take(i + 1).last() == (ps@[i as int].0@, ps@[i as int].1@));
        extend_str(out, tag);
        push_name(out, tasks, ps[i].0.as_str());
        extend_str(out, ": after: ");
        extend_str(out, ps[i].1.as_str());
        extend_str(out, note);
        extend_str(out, "\n");
        i = i + 1;
    }
    assert(pv.take(ps@.len() as int) == pv);
}

/// Unresolved references, ambiguous references, and tasks on dependency
/// cycles, one line each, tasks shown by name.
pub fn doctor_report(tasks: &[Task], dag: &Dag) -> (r: String)
    ensures
        exists|ids: Seq<Seq<char>>|
            ids.no_duplicates() && (forall|k: Seq<char>| #[trigger] ids.contains(k) <==> on_cycle(dag.prereqs@, k))
                && r@ == ref_lines(tasks@, pairs(dag.unresolved@), "unresolved  "@, "  (completed prereq or typo)"@)
                + ref_lines(tasks@, pairs(dag.ambiguous@), "ambiguous   "@, "  (matches multiple tasks)"@)
                + #[trigger] cycle_lines(tasks@, ids),
{
    let mut out: Vec<char> = Vec::new();
    push_ref_lines(&mut out, tasks, &dag.unresolved, "unresolved  ", "  (completed prereq or typo)");
    push_ref_lines(&mut out, tasks, &dag.ambiguous, "ambiguous   ", "  (matches multiple tasks)");
    let ghost base = out@;
    let members = dag.cycle_members();
    let ghost mv = strs(members@);
    let mut i: usize = 0;
    while i < members.len()
        invariant
            i <= members@.len(),
            mv == strs(members@),
            out@ == base + cycle_lines(tasks@, mv.take(i as int)),
        decreases members@.len() - i,
    {
        assert(mv.take(i + 1).drop_last() == mv.take(i as int));
        assert(mv.take(i + 1).last() == members@[i as int]@);
        extend_str(&mut out, "cycle       ");
        push_name(&mut out, tasks, members[i].as_str());
        extend_str(&mut out, "\n");
        i = i + 1;
    }
    assert(mv.take(members@.len() as int) == mv);
    string_of(out.as_slice())
}

// ---------------------------------------------------------------------------
// Editing `after:` lines
// ---------------------------------------------------------------------------

/// A line's trailing `\r`, if any, removed.
pub open spec fn strip_cr(l: Seq<char>) -> Seq<char> {
    if l.len() > 0 && l.last() == '\r' {
        l.drop_last()
    } else {
        l
    }
}

pub open spec fn strip_all_cr(ls: Seq<Seq<char>>) -> Seq<Seq<char>>
    decreases ls.len(),
{
    if ls.len() == 0 {
        Seq::<Seq<char>>::empty()
    } else {
        strip_all_cr(ls.drop_last()).push(strip_cr(ls.last()))
    }
}

/// The lines of a text (`str::lines`): split at `\n`; a line ended by
/// `\n` loses one trailing `\r`; a final line ending adds no empty line.
pub open spec fn text_lines(s: Seq<char>) -> Seq<Seq<char>> {
    let parts = split(s, '\n');
    let done = strip_all_cr(parts.drop_last());
    if parts.last().len() > 0 {
        done.push(parts.last())
    } else {
        done
    }
}

/// The line is an `after:` line (in any letter case) that mentions the
/// lowercased prerequisite `needle`.
pub open spec fn names_prereq(l: Seq<char>, needle: Seq<char>) -> bool {
    starts_with(lowercase(trim(l)), "after:"@) && contains_seq(lowercase(l), needle)
}

pub open spec fn kept_lines(ls: Seq<Seq<char>>, needle: Seq<char>) -> Seq<Seq<char>>
    decreases ls.len(),
{
    if ls.len() == 0 {
        Seq::<Seq<char>>::empty()
    } else if names_prereq(ls.last(), needle) {
        kept_lines(ls.drop_last(), needle)
    } else {
        kept_lines(ls.drop_last(), needle).push(ls.last())
    }
}

/// The description without the `after:` lines that mention `prereq`
/// (compared in lowercase), lines joined by `\n`.
pub open spec fn without_prereq(description: Seq<char>, prereq: Seq<char>) -> Seq<char> {
    join_with(kept_lines(text_lines(description), lowercase(prereq)), "\n"@)
}

/// `s` with each `\r` that directly precedes a `\n` removed: CRLF line
/// endings become LF.
pub open spec fn crlf_to_lf(s: Seq<char>) -> Seq<char>
    decreases s.len(),
{
    if s.len() == 0 {
        Seq::<char>::empty()
    } else if s.last() == '\n' && s.len() >= 2 && s[s.len() - 2] == '\r' {
        crlf_to_lf(s.drop_last().drop_last()).push('\n')
    } else {
        crlf_to_lf(s.drop_last()).push(s.last())
    }
}

/// `t` without one final line break, if it ends with one.
pub open spec fn without_final_newline(t: Seq<char>) -> Seq<char> {
    if t.len() > 0 && t.last() == '\n' {
        t.drop_last()
    } else {
        t
    }
}

proof fn lemma_join_push_char(xs: Seq<Seq<char>>, a: Seq<char>, c: char)
    ensures
        join_with(xs.push(a.push(c)), "\n"@) == join_with(xs.push(a), "\n"@).push(c),
{
    if xs.len() == 0 {
        assert(xs.push(a.push(c)).len() == 1);
        assert(xs.push(a).len() == 1);
    } else {
        assert(xs.push(a.push(c)).drop_last() =~= xs);
        assert(xs.push(a).drop_last() =~= xs);
        assert(join_with(xs.push(a.push(c)), "\n"@) =~= join_with(xs.push(a), "\n"@).push(c));
    }
}

proof fn lemma_join_push_empty(xs: Seq<Seq<char>>)
    requires
        xs.len() > 0,
    ensures
        join_with(xs.push(Seq::<char>::empty()), "\n"@) == join_with(xs, "\n"@).push('\n'),
{
    reveal_strlit("\n");
    assert(xs.push(Seq::<char>::empty()).drop_last() =~= xs);
    assert(join_with(xs.push(Seq::<char>::empty()), "\n"@) =~= join_with(xs, "\n"@).push('\n'));
}

proof fn lemma_split_last(s: Seq<char>, sep: char)
    ensures
        (s.len() == 0 || s.last() == sep) ==> split(s, sep).last().len() == 0,
        (s.len() > 0 && s.last() != sep) ==> split(s, sep).last().len() > 0 && split(s, sep).last().last()
            == s.last(),
{
    if s.len() > 0 {
        lemma_split_nonempty(s.drop_last(), sep);
        let r = split(s.drop_last(), sep);
        if s.last() != sep {
            assert(split(s, sep).last() == r.last().push(s.last()));
        }
    }
}

/// The pieces of `s` at `\n`, the finished ones with a `\r` ending
/// dropped, joined again: CRLF endings become LF.
proof fn lemma_pieces_rejoin(s: Seq<char>)
    ensures
        join_with(strip_all_cr(split(s, '\n').drop_last()).push(split(s, '\n').last()), "\n"@) == crlf_to_lf(s),
    decreases s.len(),
{
    let e = Seq::<char>::empty();
    if s.len() == 0 {
        assert(split(s, '\n') == seq![e]);
        assert(seq![e].drop_last() =~= Seq::<Seq<char>>::empty());
        assert(Seq::<Seq<char>>::empty().push(e) =~= seq![e]);
    } else {
        let s1 = s.drop_last();
        let c = s.last();
        lemma_pieces_rejoin(s1);
        lemma_split_last(s1, '\n');
        lemma_split_nonempty(s1, '\n');
        let p1 = split(s1, '\n');
        let q1 = strip_all_cr(p1.drop_last());
        let l1 = p1.last();
        let p = split(s, '\n');
        if c == '\n' {
            assert(p == p1.push(e));
            assert(p.drop_last() =~= p1);
            assert(p.last() == e);
            assert(strip_all_cr(p1) == q1.push(strip_cr(l1)));
            lemma_join_push_empty(q1.push(strip_cr(l1)));
            if l1.len() > 0 && l1.last() == '\r' {
                assert(s1.len() > 0 && s1.last() == '\r');
                assert(l1 =~= l1.drop_last().push('\r'));
                lemma_join_push_char(q1, l1.drop_last(), '\r');
                assert(s[s.len() - 2] == s1.last());
                assert(s1.drop_last() == s.drop_last().drop_last());
                assert(crlf_to_lf(s1) == crlf_to_lf(s1.drop_last()).push('\r'));
            } else {
                assert(strip_cr(l1) == l1);
                if s.len() >= 2 && s[s.len() - 2] == '\r' {
                    assert(s1.last() == '\r');
                    assert(false);
                }
            }
        } else {
            assert(p == p1.update(p1.len() - 1, l1.push(c)));
            assert(p.drop_last() =~= p1.drop_last());
            assert(p.last() == l1.push(c));
            lemma_join_push_char(q1, l1, c);
        }
    }
}

/// The lines of a text (as `str::lines` gives them) joined by `\n` give
/// the text back, with CRLF endings turned into LF and without a final
/// line ending: no line is lost or added, empty lines included.
pub proof fn law_lines_rejoin(s: Seq<char>)
    ensures
        join_with(text_lines(s), "\n"@) == without_final_newline(crlf_to_lf(s)),
{
    lemma_pieces_rejoin(s);
    lemma_split_nonempty(s, '\n');
    let parts = split(s, '\n');
    let done = strip_all_cr(parts.drop_last());
    let e = Seq::<char>::empty();
    if parts.last().len() > 0 {
        assert(s.len() > 0 && s.last() != '\n');
        let t = crlf_to_lf(s);
        assert(t.last() == s.last());
    } else {
        assert(parts.last() =~= e);
        if done.len() == 0 {
            assert(done.push(e) =~= seq![e]);
            assert(join_with(done, "\n"@) == e);
        } else {
            lemma_join_push_empty(done);
        }
    }
}

proof fn lemma_kept_all(ls: Seq<Seq<char>>, needle: Seq<char>)
    requires
        forall|k: int| 0 <= k < ls.len() ==> !names_prereq(#[trigger] ls[k], needle),
    ensures
        kept_lines(ls, needle) == ls,
    decreases ls.len(),
{
    if ls.len() > 0 {
        assert(!names_prereq(ls[ls.len() - 1], needle));
        assert forall|k: int| 0 <= k < ls.drop_last().len() implies !names_prereq(#[trigger] ls.drop_last()[k], needle) by {
            assert(ls.drop_last()[k] == ls[k]);
        }
        lemma_kept_all(ls.drop_last(), needle);
        assert(ls.drop_last().push(ls.last()) =~= ls);
    }
}

/// Removing a dependency that no `after:` line mentions changes nothing
/// but line endings: every line of the description, empty ones included,
/// stays, in order (CRLF endings become LF, a final line ending goes).
pub proof fn law_remove_absent_keeps_text(description: Seq<char>, prereq: Seq<char>)
    requires
        forall|k: int|
            0 <= k < text_lines(description).len() ==> !names_prereq(
                #[trigger] text_lines(description)[k],
                lowercase(prereq),
            ),
    ensures
        without_prereq(description, prereq) == without_final_newline(crlf_to_lf(description)),
{
    lemma_kept_all(text_lines(description), lowercase(prereq));
    law_lines_rejoin(description);
}

/// Remove the dependency on `prereq`: every `after:` line of the
/// description that mentions it goes.
pub fn remove_dependency(description: &str, prereq: &str) -> (r: String)
    ensures
        r@ == without_prereq(description@, prereq@),
{
    let needle = lower_chars(prereq);
    let after: Vec<char> = vec!['a', 'f', 't', 'e', 'r', ':'];
    proof {
        reveal_strlit("after:");
    }
    assert(after@ == "after:"@);
    let cs = chars_of(description);
    let parts = split_chars(cs.as_slice(), '\n');
    let ghost pv = char_vecs(parts@);
    // the lines, as `str::lines` gives them
    let mut lines: Vec<Vec<char>> = Vec::new();
    let last = parts.len() - 1;
    let mut i: usize = 0;
    while i < last
        invariant
            last == parts@.len() - 1,
            pv == char_vecs(parts@),
            i <= last,
            char_vecs(lines@) == strip_all_cr(pv.take(i as int)),
        decreases last - i,
    {
        let p = &parts[i];
        let mut l: Vec<char> = Vec::new();
        extend_chars(&mut l, p.as_slice());
        if l.len() > 0 && l[l.len() - 1] == '\r' {
            l.pop();
        }
        assert(l@ == strip_cr(p@));
        assert(pv.take(i + 1).drop_last() == pv.take(i as int));
        assert(pv.take(i + 1).last() == p@);
        let ghost before = char_vecs(lines@);
        lines.push(l);
        assert(char_vecs(lines@) =~= before.push(strip_cr(p@)));
        i = i + 1;
    }
    assert(pv.take(last as int) == pv.drop_last());
    if parts[last].len() > 0 {
        let mut l: Vec<char> = Vec::new();
        extend_chars(&mut l, parts[last].as_slice());
        let ghost before = char_vecs(lines@);
        lines.push(l);
        assert(char_vecs(lines@) =~= before.push(pv.last()));
    }
    let ghost lv = char_vecs(lines@);
    assert(lv == text_lines(description@));
    let mut out: Vec<char> = Vec::new();
    let mut kept: usize = 0;
    let mut k: usize = 0;
    while k < lines.len()
        invariant
            k <= lines@.len(),
            lv == char_vecs(lines@),
            after@ == "after:"@,
            needle@ == lowercase(prereq@),
            kept == kept_lines(lv.take(k as int), needle@).len(),
            kept <= k,
            out@ == join_with(kept_lines(lv.take(k as int), needle@), "\n"@),
        decreases lines@.len() - k,
    {
        let l = &lines[k];
        assert(lv.take(k + 1).drop_last() == lv.take(k as int));
        assert(lv.take(k + 1).last() == l@);
        let ls = string_of(l.as_slice());
        let t = trim_chars(l.as_slice());
        let ts = string_of(t.as_slice());
        let lt = lower_chars(ts.as_str());
        let ll = lower_chars(ls.as_str());
        let drop = starts_with_chars(lt.as_slice(), after.as_slice()) && contains_chars(ll.as_slice(), needle.as_slice());
        if !drop {
            let ghost prev = kept_lines(lv.take(k as int), needle@);
            if kept > 0 {
                extend_str(&mut out, "\n");
            }
            extend_chars(&mut out, l.as_slice());
            assert(kept_lines(lv.take(k + 1), needle@) == prev.push(l@));
            if kept == 0 {
                assert(prev.len() == 0);
                assert(prev.push(l@).len() == 1);
            } else {
                assert(prev.push(l@).drop_last() == prev);
            }
            kept = kept + 1;
        }
        k = k + 1;
    }
    assert(lv.take(lines@.len() as int) == lv);
    string_of(out.as_slice())
}

/// The description with a line `after: <name>` appended, on a line of its
/// own when the description is not empty.
pub open spec fn with_prereq(description: Seq<char>, name: Seq<char>) -> Seq<char> {
    if description.len() == 0 {
        "after: "@ + name
    } else {
        description + "\n"@ + "after: "@ + name
    }
}

/// Why a dependency could not be added.
#[derive(Debug)]
pub enum DepError {
    /// The two tasks live in different projects; their names.
    DifferentProjects(String, String),
}

impl DepError {
    /// The message for the refusal.
    pub fn describe(&self) -> (r: String)
        ensures
            match self {
                DepError::DifferentProjects(a, b) => r@ == "'"@ + a@ + "' and '"@ + b@
                    + "' are in different projects"@,
            },
    {
        let mut out: Vec<char> = Vec::new();
        match self {
            DepError::DifferentProjects(a, b) => {
                extend_str(&mut out, "'");
                extend_str(&mut out, a.as_str());
                extend_str(&mut out, "' and '");
                extend_str(&mut out, b.as_str());
                extend_str(&mut out, "' are in different projects");
            },
        }
        string_of(out.as_slice())
    }
}

/// Add a dependency: `target` will be blocked until `prereq` is done. The
/// two tasks must share a project; the new description is returned.
pub fn add_dependency(target: &Task, prereq: &Task) -> (r: Result<String, DepError>)
    ensures
        prereq.project_id@ != target.project_id@ ==> (r matches Err(DepError::DifferentProjects(a, b))
            && a@ == target.content@ && b@ == prereq.content@),
        prereq.project_id@ == target.project_id@ ==> (r matches Ok(d) && d@ == with_prereq(
            target.description@,
            prereq.content@,
        )),
{
    if prereq.project_id != target.project_id {
        return Err(DepError::DifferentProjects(target.content.clone(), prereq.content.clone()));
    }
    let mut out: Vec<char> = Vec::new();
    extend_str(&mut out, target.description.as_str());
    if !target.description.as_str().is_empty() {
        extend_str(&mut out, "\n");
    }
    extend_str(&mut out, "after: ");
    extend_str(&mut out, prereq.content.as_str());
    proof {
        if target.description@.len() == 0 {
            assert(out@ =~= "after: "@ + prereq.content@);
        }
    }
    Ok(string_of(out.as_slice()))
}

// ---------------------------------------------------------------------------
// Laws
// ---------------------------------------------------------------------------

proof fn lemma_split_concat(a: Seq<char>, b: Seq<char>, sep: char)
    ensures
        split(a + seq![sep] + b, sep) == split(a, sep) + split(b, sep),
    decreases b.len(),
{
    if b.len() == 0 {
        assert(a + seq![sep] + b =~= (a + seq![sep]));
        assert((a + seq![sep]).drop_last() =~= a);
        assert(split(a + seq![sep] + b, sep) =~= split(a, sep) + split(b, sep));
    } else {
        let whole = a + seq![sep] + b;
        assert(whole.drop_last() =~= a + seq![sep] + b.drop_last());
        assert(whole.last() == b.last());
        lemma_split_concat(a, b.drop_last(), sep);
        lemma_split_nonempty(b.drop_last(), sep);
        let r = split(b.drop_last(), sep);
        let sa = split(a, sep);
        if b.last() == sep {
            assert(split(whole, sep) =~= sa + r.push(Seq::<char>::empty()));
        } else {
            assert((sa + r).update(sa.len() + r.len() - 1, (sa + r).last().push(b.last())) =~= sa + r.update(r.len() - 1, r.last().push(b.last())));
        }
    }
}

proof fn lemma_lines_refs_concat(x: Seq<Seq<char>>, y: Seq<Seq<char>>)
    ensures
        lines_refs(x + y) == lines_refs(x) + lines_refs(y),
    decreases y.len(),
{
    if y.len() == 0 {
        assert(x + y =~= x);
        assert(lines_refs(x) + lines_refs(y) =~= lines_refs(x));
    } else {
        assert((x + y).drop_last() =~= x + y.drop_last());
        lemma_lines_refs_concat(x, y.drop_last());
        assert(lines_refs(x + y) =~= lines_refs(x) + lines_refs(y));
    }
}

/// Adding a dependency line keeps every reference the description had,
/// in order, and adds exactly those of the new `after:` line after them.
pub proof fn law_added_line_refs(description: Seq<char>, name: Seq<char>)
    ensures
        refs_in(with_prereq(description, name)) == refs_in(description) + refs_in("after: "@ + name),
{
    let line = "after: "@ + name;
    if description.len() == 0 {
        let e = Seq::<char>::empty();
        assert(split(e, '\n') == seq![e]);
        assert(seq![e].drop_last() =~= Seq::<Seq<char>>::empty());
        assert(lines_refs(seq![e]) =~= lines_refs(Seq::<Seq<char>>::empty()) + line_refs(e));
        assert(crate::text::trim_start(e) == e);
        assert(crate::text::trim_end(e) == e);
        assert(trim(e) == e);
        assert(line_refs(e) =~= Seq::<Seq<char>>::empty());
        assert(refs_in(description) =~= Seq::<Seq<char>>::empty());
        assert(with_prereq(description, name) == line);
        assert(refs_in(description) + refs_in(line) =~= refs_in(line));
    } else {
        reveal_strlit("\n");
        assert("\n"@ =~= seq!['\n']);
        assert(with_prereq(description, name) =~= description + seq!['\n'] + line);
        lemma_split_concat(description, line, '\n');
        lemma_lines_refs_concat(split(description, '\n'), split(line, '\n'));
    }
}

/// Removing a dependency leaves no `after:` line that mentions it, keeps
/// every other line, and adds none.
pub proof fn law_removed_lines(description: Seq<char>, prereq: Seq<char>)
    ensures
        forall|k: int|
            0 <= k < kept_lines(text_lines(description), lowercase(prereq)).len() ==> !names_prereq(
                #[trigger] kept_lines(text_lines(description), lowercase(prereq))[k],
                lowercase(prereq),
            ),
        forall|k: int|
            0 <= k < text_lines(description).len() && !names_prereq(
                #[trigger] text_lines(description)[k],
                lowercase(prereq),
            ) ==> kept_lines(text_lines(description), lowercase(prereq)).contains(text_lines(description)[k]),
        forall|l: Seq<char>|
            #[trigger] kept_lines(text_lines(description), lowercase(prereq)).contains(l) ==> text_lines(
                description,
            ).contains(l),
{
    lemma_kept_lines(text_lines(description), lowercase(prereq));
}

proof fn lemma_kept_lines(ls: Seq<Seq<char>>, needle: Seq<char>)
    ensures
        forall|k: int|
            0 <= k < kept_lines(ls, needle).len() ==> !names_prereq(#[trigger] kept_lines(ls, needle)[k], needle),
        forall|k: int|
            0 <= k < ls.len() && !names_prereq(#[trigger] ls[k], needle) ==> kept_lines(ls, needle).contains(ls[k]),
        forall|l: Seq<char>| #[trigger] kept_lines(ls, needle).contains(l) ==> ls.contains(l),
    decreases ls.len(),
{
    if ls.len() > 0 {
        lemma_kept_lines(ls.drop_last(), needle);
        let prev = kept_lines(ls.drop_last(), needle);
        let cur = kept_lines(ls, needle);
        assert forall|k: int| 0 <= k < cur.len() implies !names_prereq(#[trigger] cur[k], needle) by {
            if k < prev.len() {
                assert(cur[k] == prev[k]);
            }
        }
        assert forall|k: int| 0 <= k < ls.len() && !names_prereq(#[trigger] ls[k], needle) implies cur.contains(
            ls[k],
        ) by {
            if k < ls.len() - 1 {
                assert(ls.drop_last()[k] == ls[k]);
                let j = choose|j: int| 0 <= j < prev.len() && prev[j] == ls[k];
                assert(cur[j] == prev[j]);
            } else {
                assert(cur[cur.len() - 1] == ls.last());
            }
        }
        assert forall|l: Seq<char>| #[trigger] cur.contains(l) implies ls.contains(l) by {
            let j = choose|j: int| 0 <= j < cur.len() && cur[j] == l;
            if j < prev.len() {
                assert(cur[j] == prev[j]);
                assert(prev.contains(l));
                let i = choose|i: int| 0 <= i < ls.drop_last().len() && ls.drop_last()[i] == l;
                assert(ls[i] == l);
            } else {
                assert(ls[ls.len() - 1] == l);
            }
        }
    }
}

proof fn lemma_split_single(s: Seq<char>, sep: char)
    requires
        !s.contains(sep),
    ensures
        split(s, sep) == seq![s],
    decreases s.len(),
{
    if s.len() > 0 {
        assert(!s.drop_last().contains(sep)) by {
            if s.drop_last().contains(sep) {
                let k = choose|k: int| 0 <= k < s.drop_last().len() && s.drop_last()[k] == sep;
                assert(s[k] == sep);
            }
        }
        lemma_split_single(s.drop_last(), sep);
        assert(s[s.len() - 1] == s.last());
        assert(s.last() != sep);
        let r = split(s.drop_last(), sep);
        assert(r == seq![s.drop_last()]);
        assert(split(s, sep) == r.update(r.len() - 1, r.last().push(s.last())));
        assert(r.last() == s.drop_last());
        assert(s.drop_last().push(s.last()) =~= s);
        assert(r.update(0, s) =~= seq![s]);
    } else {
        assert(s =~= Seq::<char>::empty());
    }
}

/// A description with no line break is one line.
proof fn lemma_one_line_refs(s: Seq<char>)
    requires
        !s.contains('\n'),
    ensures
        refs_in(s) == line_refs(s),
{
    lemma_split_single(s, '\n');
    assert(seq![s].drop_last() =~= Seq::<Seq<char>>::empty());
    assert(lines_refs(Seq::<Seq<char>>::empty()) == Seq::<Seq<char>>::empty());
    assert(Seq::<Seq<char>>::empty() + line_refs(s) =~= line_refs(s));
}

proof fn lemma_list_one(x: Seq<char>)
    requires
        trim(x).len() > 0,
    ensures
        list_refs(seq![x]) == seq![trim(x)],
{
    assert(seq![x].drop_last() =~= Seq::<Seq<char>>::empty());
    assert(seq![x].last() == x);
    assert(list_refs(Seq::<Seq<char>>::empty()) == Seq::<Seq<char>>::empty());
    assert(Seq::<Seq<char>>::empty().push(trim(x)) =~= seq![trim(x)]);
}

proof fn lemma_trim_fixed(s: Seq<char>)
    requires
        s.len() > 0,
        !is_ws(s[0]),
        !is_ws(s.last()),
    ensures
        trim(s) == s,
{
    assert(crate::text::trim_start(s) == s);
    assert(crate::text::trim_end(s) == s);
}

proof fn lemma_trim_space_clean(n: Seq<char>)
    requires
        clean_ref(n),
    ensures
        trim(seq![' '] + n) == n,
{
    let x = seq![' '] + n;
    assert(x.drop_first() =~= n);
    assert(crate::text::trim_start(x) == crate::text::trim_start(n));
    lemma_trim_fixed(n);
    assert(crate::text::trim_start(n) == n);
}

proof fn lemma_no_char_concat(a: Seq<char>, b: Seq<char>, c: char)
    requires
        !a.contains(c),
        !b.contains(c),
    ensures
        !(a + b).contains(c),
{
    if (a + b).contains(c) {
        let k = choose|k: int| 0 <= k < (a + b).len() && (a + b)[k] == c;
        if k < a.len() {
            assert(a[k] == c);
        } else {
            assert(b[k - a.len()] == c);
        }
    }
}

proof fn lemma_after_prefix(prefix: Seq<char>, x: Seq<char>)
    requires
        prefix =~= seq!['a', 'f', 't', 'e', 'r', ':', ' '] || prefix =~= seq!['A', 'f', 't', 'e', 'r', ':', ' '],
    ensures
        starts_with(prefix + x, crate::dag::after_lower()) || starts_with(prefix + x, crate::dag::after_upper()),
        (prefix + x).subrange(6, (prefix + x).len() as int) =~= seq![' '] + x,
        (prefix + x)[0] == prefix[0],
        !is_ws(prefix[0]),
{
    let s = prefix + x;
    if prefix[0] == 'a' {
        assert(s.subrange(0, 6) =~= crate::dag::after_lower());
    } else {
        assert(s.subrange(0, 6) =~= crate::dag::after_upper());
    }
}

#[verifier::spinoff_prover]
#[verifier::rlimit(60)]
proof fn lemma_one_ref_line(prefix: Seq<char>, a: Seq<char>)
    requires
        prefix =~= seq!['a', 'f', 't', 'e', 'r', ':', ' '] || prefix =~= seq!['A', 'f', 't', 'e', 'r', ':', ' '],
        clean_ref(a),
    ensures
        refs_in(prefix + a) == seq![a],
{
    let sp = seq![' '];
    let s1 = prefix + a;
    lemma_no_char_concat(prefix, a, '\n');
    lemma_one_line_refs(s1);
    lemma_after_prefix(prefix, a);
    assert(s1.last() == a.last());
    lemma_trim_fixed(s1);
    let rest1 = s1.subrange(6, s1.len() as int);
    assert(rest1 =~= sp + a);
    lemma_no_char_concat(sp, a, ',');
    lemma_split_single(rest1, ',');
    lemma_trim_space_clean(a);
    lemma_list_one(rest1);
    assert(trim(s1) == s1);
    assert(starts_with(s1, crate::dag::after_lower()) || starts_with(s1, crate::dag::after_upper()));
    assert(line_refs(s1) == list_refs(split(rest1, ',')));
    assert(list_refs(split(rest1, ',')) == seq![a]);
}

#[verifier::spinoff_prover]
#[verifier::rlimit(60)]
proof fn lemma_two_ref_line(prefix: Seq<char>, a: Seq<char>, b: Seq<char>)
    requires
        prefix =~= seq!['a', 'f', 't', 'e', 'r', ':', ' '] || prefix =~= seq!['A', 'f', 't', 'e', 'r', ':', ' '],
        clean_ref(a),
        clean_ref(b),
    ensures
        refs_in(prefix + a + seq![',', ' '] + b) == seq![a, b],
{
    let sp = seq![' '];
    let s2 = prefix + a + seq![',', ' '] + b;
    lemma_no_char_concat(prefix, a, '\n');
    lemma_no_char_concat(prefix + a, seq![',', ' '], '\n');
    lemma_no_char_concat(prefix + a + seq![',', ' '], b, '\n');
    lemma_one_line_refs(s2);
    let x = a + seq![',', ' '] + b;
    assert(s2 =~= prefix + x);
    lemma_after_prefix(prefix, x);
    assert(s2.last() == b.last());
    lemma_trim_fixed(s2);
    let rest2 = s2.subrange(6, s2.len() as int);
    assert(rest2 =~= (sp + a) + seq![','] + (sp + b));
    lemma_split_concat(sp + a, sp + b, ',');
    lemma_no_char_concat(sp, a, ',');
    lemma_no_char_concat(sp, b, ',');
    lemma_split_single(sp + a, ',');
    lemma_split_single(sp + b, ',');
    lemma_trim_space_clean(a);
    lemma_trim_space_clean(b);
    lemma_list_one(sp + a);
    let pieces = seq![sp + a] + seq![sp + b];
    assert(pieces.drop_last() =~= seq![sp + a]);
    assert(pieces.last() == sp + b);
    assert(list_refs(pieces) =~= seq![a, b]);
    assert(line_refs(s2) == list_refs(split(rest2, ',')));
}

/// What an `after:` line says is what is read back: a line `after: a`
/// or `After: a` names the one reference `a`, and `after: a, b` names
/// `a` then `b`, for any references as `parse_refs` yields them.
pub proof fn law_after_line_reads_back(a: Seq<char>, b: Seq<char>)
    requires
        clean_ref(a),
        clean_ref(b),
    ensures
        refs_in("after: "@ + a) == seq![a],
        refs_in("After: "@ + a) == seq![a],
        refs_in("after: "@ + a + ", "@ + b) == seq![a, b],
        refs_in("After: "@ + a + ", "@ + b) == seq![a, b],
{
    reveal_strlit("after: ");
    reveal_strlit("After: ");
    reveal_strlit(", ");
    assert(", "@ =~= seq![',', ' ']);
    lemma_one_ref_line("after: "@, a);
    lemma_one_ref_line("After: "@, a);
    lemma_two_ref_line("after: "@, a, b);
    lemma_two_ref_line("After: "@, a, b);
}

/// The frontier line of a task, spelled out: a bullet, the name, the
/// due date in brackets when there is one, a line break.
pub open spec fn bullet_line(t: Task) -> Seq<char> {
    match t.due {
        Some(d) => "• "@ + t.content@ + "  (due "@ + d.date@ + ")"@ + "\n"@,
        None => "• "@ + t.content@ + "\n"@,
    }
}

/// Total length of the bullet lines of the first `n` tasks classified
/// `next`.
pub open spec fn next_lines_len(ts: Seq<Task>, classes: Seq<(String, &'static str)>, n: int) -> int
    decreases n,
{
    if n <= 0 {
        0
    } else {
        next_lines_len(ts, classes, n - 1) + if crate::graph::class_of(classes, ts[n - 1].id@) == Some("next"@) {
            bullet_line(ts[n - 1]).len() as int
        } else {
            0int
        }
    }
}

/// `tache frontier` lists every task classified `next`, with its name
/// and due date, and nothing else: each such task's bullet line occurs,
/// and the listing is exactly as long as those lines together.
pub proof fn law_frontier_lists_every_next_task(ts: Seq<Task>, classes: Seq<(String, &'static str)>, n: int)
    requires
        0 <= n <= ts.len(),
    ensures
        forall|i: int|
            0 <= i < n && crate::graph::class_of(classes, ts[i].id@) == Some("next"@) ==> occurs_in(
                crate::sync::frontier_text(ts, classes, n),
                #[trigger] bullet_line(ts[i]),
            ),
        crate::sync::frontier_text(ts, classes, n).len() == next_lines_len(ts, classes, n),
    decreases n,
{
    reveal_strlit("next");
    assert(crate::dag::LABEL_NEXT@ == "next"@);
    if n > 0 {
        law_frontier_lists_every_next_task(ts, classes, n - 1);
        let f0 = crate::sync::frontier_text(ts, classes, n - 1);
        let t = ts[n - 1];
        let l = crate::sync::frontier_line(t);
        assert(l =~= bullet_line(t));
        lemma_occurs_self(l);
        lemma_occurs_extend(f0, l, l);
        assert forall|i: int|
            0 <= i < n && crate::graph::class_of(classes, ts[i].id@) == Some("next"@) implies occurs_in(
                crate::sync::frontier_text(ts, classes, n),
                #[trigger] bullet_line(ts[i]),
            ) by {
            if i < n - 1 {
                lemma_occurs_extend(f0, l, bullet_line(ts[i]));
            }
        }
    }
}

/// Adding a dependency on a task whose name is a clean reference (as
/// `parse_refs` yields them) makes exactly that name the description's
/// last reference, after all the references it had.
pub proof fn law_added_dependency_reads_back(description: Seq<char>, name: Seq<char>)
    requires
        clean_ref(name),
    ensures
        refs_in(with_prereq(description, name)) == refs_in(description).push(name),
{
    law_added_line_refs(description, name);
    reveal_strlit("after: ");
    lemma_one_ref_line("after: "@, name);
    assert(refs_in(description) + seq![name] =~= refs_in(description).push(name));
}

} // verus!
