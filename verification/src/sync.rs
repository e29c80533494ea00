//! Reconcile Todoist labels with the computed DAG frontier.
//!
//! Scoping: only projects that opt in — `#dag` anywhere in the project
//! description, in any letter case — get DAG treatment. Tasks everywhere
//! else are left alone, except that stale `next`/`blocked` labels are
//! stripped (so un-marking a project cleans it up).
//!
//! Fetching and writing labels is the application's part; this module
//! decides what to write.

use vstd::prelude::*;

use crate::dag::{Dag, LABEL_BLOCKED, LABEL_NEXT};
use crate::graph::{class_of, lookup_class};
use crate::text::{
    decimal, push_decimal, chars_of, contains_chars, contains_seq, eq_chars, extend_str, lower_chars, lowercase, occurs_in,
    string_of, strs,
};
use crate::todoist::{Due, Project, Task};

verus! {

pub const DAG_MARKER: &'static str = "#dag";

/// The project opts in: its lowercased description contains `#dag`.
pub open spec fn opted_in(p: Project) -> bool {
    contains_seq(lowercase(p.description@), DAG_MARKER@)
}

/// A project opts in exactly when `#dag` occurs anywhere in its
/// description, in any letter case (the description is compared in
/// lowercase).
pub proof fn law_opt_in_marker(p: Project)
    ensures
        opted_in(p) <==> occurs_in(lowercase(p.description@), "#dag"@),
{
}

/// Ids of the projects that opt in to DAG treatment, each once.
pub fn enabled_ids(projects: &[Project]) -> (r: Vec<String>)
    ensures
        strs(r@).no_duplicates(),
        forall|k: Seq<char>|
            #[trigger] strs(r@).contains(k) <==> exists|i: int|
                0 <= i < projects@.len() && #[trigger] projects@[i].id@ == k && opted_in(projects@[i]),
{
    let marker = chars_of(DAG_MARKER);
    let mut r: Vec<String> = Vec::new();
    let mut i: usize = 0;
    while i < projects.len()
        invariant
            i <= projects@.len(),
            marker@ == DAG_MARKER@,
            strs(r@).no_duplicates(),
            forall|k: Seq<char>|
                #[trigger] strs(r@).contains(k) <==> exists|j: int|
                    0 <= j < i && #[trigger] projects@[j].id@ == k && opted_in(projects@[j]),
        decreases projects@.len() - i,
    {
        let p = &projects[i];
        let desc = lower_chars(p.description.as_str());
        let ghost before = strs(r@);
        if contains_chars(desc.as_slice(), marker.as_slice()) && !contains_string(&r, &p.id) {
            r.push(p.id.clone());
            assert(strs(r@) =~= before.push(p.id@));
            assert forall|a: int, b: int|
                0 <= a < strs(r@).len() && 0 <= b < strs(r@).len() && a != b implies strs(r@)[a] != strs(r@)[b] by {
                if a == before.len() {
                    assert(!before.contains(strs(r@)[b]) || strs(r@)[b] != p.id@);
                } else if b == before.len() {
                    assert(before.contains(strs(r@)[a]));
                }
            }
        }
        proof {
            let now = strs(r@);
            assert forall|k: Seq<char>| #[trigger] now.contains(k) <==> exists|j: int|
                0 <= j < i + 1 && #[trigger] projects@[j].id@ == k && opted_in(projects@[j]) by {
                if now.contains(k) {
                    let m = choose|m: int| 0 <= m < now.len() && now[m] == k;
                    if m < before.len() {
                        assert(before.contains(k));
                    } else {
                        assert(projects@[i as int].id@ == k);
                    }
                }
                if exists|j: int| 0 <= j < i + 1 && #[trigger] projects@[j].id@ == k && opted_in(projects@[j]) {
                    let j = choose|j: int| 0 <= j < i + 1 && #[trigger] projects@[j].id@ == k && opted_in(projects@[j]);
                    if j < i {
                        assert(before.contains(k));
                        let m = choose|m: int| 0 <= m < before.len() && before[m] == k;
                        assert(now[m] == k);
                    } else if !before.contains(k) {
                        assert(now[now.len() - 1] == k);
                    } else {
                        let m = choose|m: int| 0 <= m < before.len() && before[m] == k;
                        assert(now[m] == k);
                    }
                }
            }
        }
        i = i + 1;
    }
    r
}

/// `id` is among `ids`.
pub fn contains_string(ids: &Vec<String>, id: &String) -> (r: bool)
    ensures
        r == strs(ids@).contains(id@),
{
    let mut i: usize = 0;
    while i < ids.len()
        invariant
            i <= ids@.len(),
            forall|k: int| 0 <= k < i ==> #[trigger] ids@[k]@ != id@,
        decreases ids@.len() - i,
    {
        if ids[i] == *id {
            assert(strs(ids@)[i as int] == id@);
            return true;
        }
        i = i + 1;
    }
    proof {
        if strs(ids@).contains(id@) {
            let k = choose|k: int| 0 <= k < strs(ids@).len() && strs(ids@)[k] == id@;
            assert(ids@[k]@ == id@);
        }
    }
    false
}

/// Two tasks carry the same data.
pub open spec fn same_task(a: Task, b: Task) -> bool {
    &&& a.id@ == b.id@
    &&& a.content@ == b.content@
    &&& a.description@ == b.description@
    &&& strs(a.labels@) == strs(b.labels@)
    &&& a.project_id@ == b.project_id@
    &&& match (a.due, b.due) {
        (Some(x), Some(y)) => x.date@ == y.date@,
        (None, None) => true,
        _ => false,
    }
}

/// Copies of strings.
pub fn copy_strings(v: &Vec<String>) -> (r: Vec<String>)
    ensures
        strs(r@) == strs(v@),
{
    let mut r: Vec<String> = Vec::new();
    let mut i: usize = 0;
    while i < v.len()
        invariant
            i <= v@.len(),
            strs(r@) == strs(v@).take(i as int),
        decreases v@.len() - i,
    {
        let ghost before = strs(r@);
        r.push(v[i].clone());
        assert(strs(r@) =~= before.push(v@[i as int]@));
        assert(strs(v@).take(i + 1) =~= strs(v@).take(i as int).push(v@[i as int]@));
        i = i + 1;
    }
    assert(strs(v@).take(v@.len() as int) =~= strs(v@));
    r
}

/// A copy of a task.
pub fn copy_task(t: &Task) -> (r: Task)
    ensures
        same_task(r, *t),
{
    Task {
        id: t.id.clone(),
        content: t.content.clone(),
        description: t.description.clone(),
        labels: copy_strings(&t.labels),
        project_id: t.project_id.clone(),
        due: match &t.due {
            Some(d) => Some(Due { date: d.date.clone() }),
            None => None,
        },
    }
}

/// The tasks of `ts` whose project is among `enabled`, in order.
pub open spec fn in_scope(ts: Seq<Task>, enabled: Seq<Seq<char>>) -> Seq<Task>
    decreases ts.len(),
{
    if ts.len() == 0 {
        Seq::<Task>::empty()
    } else if enabled.contains(ts.last().project_id@) {
        in_scope(ts.drop_last(), enabled).push(ts.last())
    } else {
        in_scope(ts.drop_last(), enabled)
    }
}

/// Two task sequences carry the same data, position by position.
pub open spec fn same_tasks(a: Seq<Task>, b: Seq<Task>) -> bool {
    a.len() == b.len() && forall|i: int| 0 <= i < a.len() ==> same_task(#[trigger] a[i], b[i])
}

/// The active tasks, and the ids of the projects that opted in.
pub struct Scope {
    pub tasks: Vec<Task>,
    pub enabled_projects: Vec<String>,
}

impl Scope {
    /// Copies of the tasks that belong to opted-in projects, in order.
    pub fn enabled_tasks(&self) -> (r: Vec<Task>)
        ensures
            same_tasks(r@, in_scope(self.tasks@, strs(self.enabled_projects@))),
    {
        let ghost en = strs(self.enabled_projects@);
        let mut r: Vec<Task> = Vec::new();
        let mut i: usize = 0;
        while i < self.tasks.len()
            invariant
                i <= self.tasks@.len(),
                en == strs(self.enabled_projects@),
                same_tasks(r@, in_scope(self.tasks@.take(i as int), en)),
            decreases self.tasks@.len() - i,
        {
            let t = &self.tasks[i];
            assert(self.tasks@.take(i + 1).drop_last() == self.tasks@.take(i as int));
            assert(self.tasks@.take(i + 1).last() == *t);
            if contains_string(&self.enabled_projects, &t.project_id) {
                let ghost before = r@;
                r.push(copy_task(t));
                let ghost target = in_scope(self.tasks@.take(i + 1), en);
                assert forall|k: int| 0 <= k < r@.len() implies same_task(#[trigger] r@[k], target[k]) by {
                    if k < before.len() {
                        assert(r@[k] == before[k]);
                    }
                }
            }
            i = i + 1;
        }
        assert(self.tasks@.take(self.tasks@.len() as int) == self.tasks@);
        r
    }
}

// ---------------------------------------------------------------------------
// Labels
// ---------------------------------------------------------------------------

/// `next` and `blocked` are the labels this tool manages.
pub open spec fn is_managed(l: Seq<char>) -> bool {
    l == LABEL_NEXT@ || l == LABEL_BLOCKED@
}

/// The labels that are not managed, in order.
pub open spec fn unmanaged(ls: Seq<Seq<char>>) -> Seq<Seq<char>>
    decreases ls.len(),
{
    if ls.len() == 0 {
        Seq::<Seq<char>>::empty()
    } else if is_managed(ls.last()) {
        unmanaged(ls.drop_last())
    } else {
        unmanaged(ls.drop_last()).push(ls.last())
    }
}

/// A task's labels with ours normalized: managed labels removed, then the
/// classification (if the task is in scope) appended.
pub open spec fn desired(labels: Seq<Seq<char>>, class: Option<Seq<char>>) -> Seq<Seq<char>> {
    match class {
        Some(c) => unmanaged(labels).push(c),
        None => unmanaged(labels),
    }
}

/// A task's labels with ours normalized: managed labels removed, then the
/// classification (if the task is in scope) appended.
pub fn desired_labels(task: &Task, class: Option<&str>) -> (r: Vec<String>)
    ensures
        strs(r@) == desired(strs(task.labels@), match class {
            Some(c) => Some(c@),
            None => None,
        }),
{
    let next = chars_of(LABEL_NEXT);
    let blocked = chars_of(LABEL_BLOCKED);
    let ghost ls = strs(task.labels@);
    let mut r: Vec<String> = Vec::new();
    let mut i: usize = 0;
    while i < task.labels.len()
        invariant
            i <= task.labels@.len(),
            ls == strs(task.labels@),
            next@ == LABEL_NEXT@,
            blocked@ == LABEL_BLOCKED@,
            strs(r@) == unmanaged(ls.take(i as int)),
        decreases task.labels@.len() - i,
    {
        let l = &task.labels[i];
        assert(ls.take(i + 1).drop_last() == ls.take(i as int));
        assert(ls.take(i + 1).last() == l@);
        let lc = chars_of(l.as_str());
        if !eq_chars(lc.as_slice(), next.as_slice()) && !eq_chars(lc.as_slice(), blocked.as_slice()) {
            let ghost before = strs(r@);
            r.push(l.clone());
            assert(strs(r@) =~= before.push(l@));
        }
        i = i + 1;
    }
    assert(ls.take(ls.len() as int) == ls);
    match class {
        Some(c) => {
            let ghost before = strs(r@);
            r.push(String::from_str(c));
            assert(strs(r@) =~= before.push(c@));
        },
        None => {},
    }
    r
}

proof fn lemma_unmanaged_push(ls: Seq<Seq<char>>, l: Seq<char>)
    ensures
        unmanaged(ls.push(l)) == if is_managed(l) {
            unmanaged(ls)
        } else {
            unmanaged(ls).push(l)
        },
{
    assert(ls.push(l).drop_last() == ls);
}

proof fn lemma_unmanaged_idempotent(ls: Seq<Seq<char>>)
    ensures
        unmanaged(unmanaged(ls)) == unmanaged(ls),
    decreases ls.len(),
{
    if ls.len() > 0 {
        lemma_unmanaged_idempotent(ls.drop_last());
        if !is_managed(ls.last()) {
            lemma_unmanaged_push(unmanaged(ls.drop_last()), ls.last());
        }
    }
}

proof fn lemma_unmanaged_is_filter(ls: Seq<Seq<char>>)
    ensures
        unmanaged(ls) == ls.filter(|l: Seq<char>| l != "next"@ && l != "blocked"@),
    decreases ls.len(),
{
    let pred = |l: Seq<char>| l != "next"@ && l != "blocked"@;
    if ls.len() > 0 {
        lemma_unmanaged_is_filter(ls.drop_last());
        assert(LABEL_NEXT@ == "next"@);
        assert(LABEL_BLOCKED@ == "blocked"@);
        assert(is_managed(ls.last()) == !pred(ls.last()));
        reveal(Seq::filter);
        assert(ls.filter(pred) == if pred(ls.last()) {
            ls.drop_last().filter(pred).push(ls.last())
        } else {
            ls.drop_last().filter(pred)
        });
    } else {
        reveal(Seq::filter);
        assert(ls.filter(pred) == ls);
    }
}

/// The labels a task should carry: all its labels other than `next` and
/// `blocked`, in their order, followed by its class when it has one.
pub proof fn law_wanted_labels(labels: Seq<Seq<char>>, class: Option<Seq<char>>)
    ensures
        desired(labels, class) == match class {
            Some(c) => labels.filter(|l: Seq<char>| l != "next"@ && l != "blocked"@).push(c),
            None => labels.filter(|l: Seq<char>| l != "next"@ && l != "blocked"@),
        },
{
    lemma_unmanaged_is_filter(labels);
}

/// Reconciling is stable and touches only the managed labels: the labels
/// a task should carry keep every unmanaged label of the task, in order,
/// and are already what they should be, so a second pass over the
/// written labels writes nothing.
pub proof fn law_relabel_is_stable(labels: Seq<Seq<char>>, class: Option<Seq<char>>)
    requires
        match class {
            Some(c) => is_managed(c),
            None => true,
        },
    ensures
        unmanaged(desired(labels, class)) == unmanaged(labels),
        desired(desired(labels, class), class) == desired(labels, class),
{
    lemma_unmanaged_idempotent(labels);
    match class {
        Some(c) => {
            lemma_unmanaged_push(unmanaged(labels), c);
        },
        None => {},
    }
}

/// Whether two label lists are equal.
fn same_labels(a: &Vec<String>, b: &Vec<String>) -> (r: bool)
    ensures
        r == (strs(a@) == strs(b@)),
{
    if a.len() != b.len() {
        assert(strs(a@).len() != strs(b@).len());
        return false;
    }
    let mut i: usize = 0;
    while i < a.len()
        invariant
            a@.len() == b@.len(),
            i <= a@.len(),
            forall|k: int| 0 <= k < i ==> #[trigger] a@[k]@ == b@[k]@,
        decreases a@.len() - i,
    {
        if a[i] != b[i] {
            assert(strs(a@)[i as int] != strs(b@)[i as int]);
            return false;
        }
        i = i + 1;
    }
    assert(strs(a@) =~= strs(b@));
    true
}

// ---------------------------------------------------------------------------
// The reconcile plan
// ---------------------------------------------------------------------------

/// What a reconcile pass found and did.
#[derive(Debug)]
pub struct Report {
    pub projects: usize,
    pub scoped: usize,
    pub next: usize,
    pub blocked: usize,
    pub relabeled: usize,
    pub stripped: usize,
    pub unresolved: Vec<(String, String)>,
    pub ambiguous: Vec<(String, String)>,
    pub cycles: usize,
}

impl Default for Report {
    /// An empty report: nothing counted, no warnings.
    fn default() -> (r: Self)
        ensures
            r.projects == 0 && r.scoped == 0 && r.next == 0 && r.blocked == 0,
            r.relabeled == 0 && r.stripped == 0 && r.cycles == 0,
            r.unresolved@.len() == 0 && r.ambiguous@.len() == 0,
    {
        Report {
            projects: 0,
            scoped: 0,
            next: 0,
            blocked: 0,
            relabeled: 0,
            stripped: 0,
            unresolved: Vec::new(),
            ambiguous: Vec::new(),
            cycles: 0,
        }
    }
}

/// One label write: set the labels of `scope.tasks[task]` to `labels`.
/// `class` is the task's classification, absent for out-of-scope tasks
/// whose managed labels are being stripped.
pub struct LabelUpdate {
    pub task: usize,
    pub labels: Vec<String>,
    pub class: Option<&'static str>,
}

/// The outcome of classifying the scope: the writes to make, in task
/// order, and the report that holds once they all succeed.
pub struct Plan {
    pub report: Report,
    pub updates: Vec<LabelUpdate>,
}

pub open spec fn class_view(classes: Seq<(String, &'static str)>, t: Task) -> Option<Seq<char>> {
    class_of(classes, t.id@)
}

/// The labels task `t` should carry.
pub open spec fn wanted(classes: Seq<(String, &'static str)>, t: Task) -> Seq<Seq<char>> {
    desired(strs(t.labels@), class_view(classes, t))
}

/// The task's labels differ from the wanted ones.
pub open spec fn needs_write(classes: Seq<(String, &'static str)>, t: Task) -> bool {
    wanted(classes, t) != strs(t.labels@)
}

/// Among the first `n` tasks: how many are classified next, how many
/// blocked, how many need relabeling (classified) and how many need
/// stripping (unclassified).
pub open spec fn tally(classes: Seq<(String, &'static str)>, ts: Seq<Task>, n: int) -> (nat, nat, nat, nat)
    decreases n,
{
    if n <= 0 {
        (0, 0, 0, 0)
    } else {
        let (a, b, c, d) = tally(classes, ts, n - 1);
        let t = ts[n - 1];
        let cls = class_view(classes, t);
        let a2 = if cls == Some(LABEL_NEXT@) { a + 1 } else { a };
        let b2 = if cls is Some && cls != Some(LABEL_NEXT@) { b + 1 } else { b };
        let w = needs_write(classes, t);
        let c2 = if w && cls is Some { c + 1 } else { c };
        let d2 = if w && cls is None { d + 1 } else { d };
        (a2, b2, c2, d2)
    }
}

/// Positions, among the first `n` tasks, of those that need a write.
pub open spec fn writes(classes: Seq<(String, &'static str)>, ts: Seq<Task>, n: int) -> Seq<int>
    decreases n,
{
    if n <= 0 {
        Seq::<int>::empty()
    } else if needs_write(classes, ts[n - 1]) {
        writes(classes, ts, n - 1).push(n - 1)
    } else {
        writes(classes, ts, n - 1)
    }
}

/// The plan is right for the given scope, classification and graph.
pub open spec fn plan_matches(
    plan: Plan,
    scope: Scope,
    scoped: Seq<Task>,
    dag: Dag,
    classes: Seq<(String, &'static str)>,
    cycles: nat,
) -> bool {
    let ts = scope.tasks@;
    let (next, blocked, relabeled, stripped) = tally(classes, ts, ts.len() as int);
    let ws = writes(classes, ts, ts.len() as int);
    &&& plan.report.projects == scope.enabled_projects@.len()
    &&& plan.report.scoped == scoped.len()
    &&& plan.report.next == next
    &&& plan.report.blocked == blocked
    &&& plan.report.relabeled == relabeled
    &&& plan.report.stripped == stripped
    &&& plan.report.unresolved@ == dag.unresolved@
    &&& plan.report.ambiguous@ == dag.ambiguous@
    &&& plan.report.cycles == cycles
    &&& plan.updates@.len() == ws.len()
    &&& forall|k: int|
        0 <= k < ws.len() ==> {
            let u = #[trigger] plan.updates@[k];
            &&& u.task == ws[k]
            &&& strs(u.labels@) == wanted(classes, ts[ws[k]])
            &&& match u.class {
                Some(c) => class_view(classes, ts[ws[k]]) == Some(c@),
                None => class_view(classes, ts[ws[k]]) is None,
            }
        }
}

/// Classify the tasks of opted-in projects and work out, for every task,
/// whether its `next`/`blocked` labels disagree with the classification;
/// all other labels on a task are preserved untouched.
pub fn plan_reconcile(scope: &Scope) -> (plan: Plan)
    ensures
        exists|scoped: Seq<Task>, dag: Dag, classes: Seq<(String, &'static str)>, cycles: nat|
            same_tasks(scoped, in_scope(scope.tasks@, strs(scope.enabled_projects@)))
                && crate::dag::dag_after(dag, scoped, scoped.len() as int)
                && classes.len() == scoped.len()
                && (forall|i: int| 0 <= i < scoped.len() ==> #[trigger] classes[i].0@ == scoped[i].id@
                    && classes[i].1@ == crate::dag::label_for(crate::dag::is_blocked(dag, scoped, scoped[i].id@)))
                && (exists|members: Seq<Seq<char>>|
                    members.no_duplicates() && members.len() == cycles && (forall|k: Seq<char>|
                        #[trigger] members.contains(k) <==> crate::cycles::on_cycle(dag.prereqs@, k)))
                && #[trigger] plan_matches(plan, *scope, scoped, dag, classes, cycles),
{
    let scoped = scope.enabled_tasks();
    let dag = Dag::build(scoped.as_slice());
    let classes = dag.classify(scoped.as_slice());
    let members = dag.cycle_members();
    let ghost gdag = dag;
    let ghost mv = strs(members@);
    let ghost ts = scope.tasks@;
    let mut updates: Vec<LabelUpdate> = Vec::new();
    let mut next: usize = 0;
    let mut blocked: usize = 0;
    let mut relabeled: usize = 0;
    let mut stripped: usize = 0;
    let mut i: usize = 0;
    while i < scope.tasks.len()
        invariant
            i <= ts.len(),
            ts == scope.tasks@,
            (next as nat, blocked as nat, relabeled as nat, stripped as nat) == tally(classes@, ts, i as int),
            next <= i && blocked <= i && relabeled <= i && stripped <= i,
            updates@.len() == writes(classes@, ts, i as int).len(),
            forall|k: int|
                0 <= k < writes(classes@, ts, i as int).len() ==> {
                    let u = #[trigger] updates@[k];
                    let ws = writes(classes@, ts, i as int);
                    &&& u.task == ws[k]
                    &&& strs(u.labels@) == wanted(classes@, ts[ws[k]])
                    &&& match u.class {
                        Some(c) => class_view(classes@, ts[ws[k]]) == Some(c@),
                        None => class_view(classes@, ts[ws[k]]) is None,
                    }
                },
        decreases ts.len() - i,
    {
        let t = &scope.tasks[i];
        let class = lookup_class(classes.as_slice(), &t.id);
        let want = desired_labels(t, class);
        let is_next = match class {
            Some(c) => {
                let a = chars_of(c);
                let b = chars_of(LABEL_NEXT);
                eq_chars(a.as_slice(), b.as_slice())
            },
            None => false,
        };
        match class {
            Some(_) => {
                if is_next {
                    next = next + 1;
                } else {
                    blocked = blocked + 1;
                }
            },
            None => {},
        }
        let ghost before = updates@;
        if !same_labels(&want, &t.labels) {
            match class {
                Some(_) => relabeled = relabeled + 1,
                None => stripped = stripped + 1,
            }
            updates.push(LabelUpdate { task: i, labels: want, class });
            assert forall|k: int| 0 <= k < writes(classes@, ts, i + 1).len() implies {
                let u = #[trigger] updates@[k];
                let ws = writes(classes@, ts, i + 1);
                &&& u.task == ws[k]
                &&& strs(u.labels@) == wanted(classes@, ts[ws[k]])
                &&& match u.class {
                    Some(c) => class_view(classes@, ts[ws[k]]) == Some(c@),
                    None => class_view(classes@, ts[ws[k]]) is None,
                }
            } by {
                if k < before.len() {
                    assert(updates@[k] == before[k]);
                }
            }
        }
        i = i + 1;
    }
    let report = Report {
        projects: scope.enabled_projects.len(),
        scoped: scoped.len(),
        next,
        blocked,
        relabeled,
        stripped,
        unresolved: dag.unresolved,
        ambiguous: dag.ambiguous,
        cycles: members.len(),
    };
    let plan = Plan { report, updates };
    assert(plan_matches(plan, *scope, scoped@, gdag, classes@, mv.len()));
    assert(mv.len() == members@.len());
    plan
}

/// The one-line summary of a reconcile pass, and a pointer to `doctor`
/// when the graph has unresolved or ambiguous references or cycles.
pub open spec fn summary_text(r: Report) -> Seq<char> {
    decimal(r.scoped as nat) + " tasks: "@ + decimal(r.next as nat) + " next, "@ + decimal(r.blocked as nat)
        + " blocked, "@ + decimal(r.relabeled as nat) + " relabeled\n"@ + if r.unresolved@.len() > 0
        || r.ambiguous@.len() > 0 || r.cycles > 0 {
        "run `tache doctor` — graph has warnings\n"@
    } else {
        Seq::<char>::empty()
    }
}

impl Report {
    /// The one-line summary of a reconcile pass, and a pointer to
    /// `doctor` when the graph has warnings.
    pub fn summary(&self) -> (r: String)
        ensures
            r@ == summary_text(*self),
    {
        let mut out: Vec<char> = Vec::new();
        push_decimal(&mut out, self.scoped as u64);
        extend_str(&mut out, " tasks: ");
        push_decimal(&mut out, self.next as u64);
        extend_str(&mut out, " next, ");
        push_decimal(&mut out, self.blocked as u64);
        extend_str(&mut out, " blocked, ");
        push_decimal(&mut out, self.relabeled as u64);
        extend_str(&mut out, " relabeled\n");
        if self.unresolved.len() > 0 || self.ambiguous.len() > 0 || self.cycles > 0 {
            extend_str(&mut out, "run `tache doctor` — graph has warnings\n");
        }
        string_of(out.as_slice())
    }
}

proof fn lemma_class_is_managed(classes: Seq<(String, &'static str)>, id: Seq<char>)
    requires
        forall|j: int| 0 <= j < classes.len() ==> is_managed(#[trigger] classes[j].1@),
    ensures
        match class_of(classes, id) {
            Some(c) => is_managed(c),
            None => true,
        },
    decreases classes.len(),
{
    if classes.len() > 0 {
        assert(is_managed(classes[classes.len() - 1].1@));
        lemma_class_is_managed(classes.drop_last(), id);
    }
}

proof fn lemma_class_of_absent(classes: Seq<(String, &'static str)>, id: Seq<char>)
    requires
        forall|j: int| 0 <= j < classes.len() ==> (#[trigger] classes[j]).0@ != id,
    ensures
        class_of(classes, id) is None,
    decreases classes.len(),
{
    if classes.len() > 0 {
        assert(classes[classes.len() - 1].0@ != id);
        assert forall|j: int| 0 <= j < classes.drop_last().len() implies (#[trigger] classes.drop_last()[j]).0@
            != id by {
            assert(classes.drop_last()[j] == classes[j]);
        }
        lemma_class_of_absent(classes.drop_last(), id);
    }
}

/// Tasks outside the opted-in projects are left alone except that their
/// managed labels are stripped: a task that is not among the classified
/// tasks gets no class, and the labels it should carry are its own
/// unmanaged labels, in order.
pub proof fn law_out_of_scope_tasks_lose_only_managed_labels(
    classes: Seq<(String, &'static str)>,
    scoped: Seq<Task>,
    t: Task,
)
    requires
        classes.len() == scoped.len(),
        forall|i: int| 0 <= i < scoped.len() ==> (#[trigger] classes[i]).0@ == scoped[i].id@,
        forall|i: int| 0 <= i < scoped.len() ==> (#[trigger] scoped[i]).id@ != t.id@,
    ensures
        class_view(classes, t) is None,
        wanted(classes, t) == unmanaged(strs(t.labels@)),
{
    assert forall|j: int| 0 <= j < classes.len() implies (#[trigger] classes[j]).0@ != t.id@ by {
        assert(scoped[j].id@ != t.id@);
    }
    lemma_class_of_absent(classes, t.id@);
}

proof fn lemma_tally_writes_none(classes: Seq<(String, &'static str)>, ts: Seq<Task>, n: int)
    requires
        0 <= n <= ts.len(),
        forall|i: int| 0 <= i < n ==> !needs_write(classes, #[trigger] ts[i]),
    ensures
        writes(classes, ts, n).len() == 0,
        tally(classes, ts, n).2 == 0,
        tally(classes, ts, n).3 == 0,
    decreases n,
{
    if n > 0 {
        lemma_tally_writes_none(classes, ts, n - 1);
        assert(!needs_write(classes, ts[n - 1]));
    }
}

/// A reconcile pass converges: once every task carries the labels the
/// pass wanted for it (same ids, so the same classification), the next
/// pass wants exactly those labels and writes nothing, neither
/// relabeling nor stripping.
pub proof fn law_second_pass_writes_nothing(
    classes: Seq<(String, &'static str)>,
    ts: Seq<Task>,
    after: Seq<Task>,
)
    requires
        forall|j: int| 0 <= j < classes.len() ==> is_managed(#[trigger] classes[j].1@),
        after.len() == ts.len(),
        forall|i: int|
            0 <= i < ts.len() ==> (#[trigger] after[i]).id@ == ts[i].id@ && strs(after[i].labels@) == wanted(
                classes,
                ts[i],
            ),
    ensures
        writes(classes, after, after.len() as int).len() == 0,
        tally(classes, after, after.len() as int).2 == 0,
        tally(classes, after, after.len() as int).3 == 0,
{
    assert forall|i: int| 0 <= i < after.len() implies !needs_write(classes, #[trigger] after[i]) by {
        let t = ts[i];
        let cls = class_view(classes, t);
        assert(after[i].id@ == t.id@);
        lemma_class_is_managed(classes, t.id@);
        law_relabel_is_stable(strs(t.labels@), cls);
    }
    lemma_tally_writes_none(classes, after, after.len() as int);
}

// ---------------------------------------------------------------------------
// The frontier listing
// ---------------------------------------------------------------------------

/// One line of the frontier listing: a bullet, the task name, and its due
/// date when it has one.
pub open spec fn frontier_line(t: Task) -> Seq<char> {
    "• "@ + t.content@ + match t.due {
        Some(d) => "  (due "@ + d.date@ + ")"@,
        None => Seq::<char>::empty(),
    } + "\n"@
}

/// The listing of the first `n` tasks that are classified next.
pub open spec fn frontier_text(ts: Seq<Task>, classes: Seq<(String, &'static str)>, n: int) -> Seq<char>
    decreases n,
{
    if n <= 0 {
        Seq::<char>::empty()
    } else if class_of(classes, ts[n - 1].id@) == Some(LABEL_NEXT@) {
        frontier_text(ts, classes, n - 1) + frontier_line(ts[n - 1])
    } else {
        frontier_text(ts, classes, n - 1)
    }
}

/// Human-readable frontier listing for the CLI.
pub fn format_frontier(tasks: &[Task], classes: &[(String, &'static str)]) -> (r: String)
    ensures
        r@ == frontier_text(tasks@, classes@, tasks@.len() as int),
{
    let mut out: Vec<char> = Vec::new();
    let mut i: usize = 0;
    while i < tasks.len()
        invariant
            i <= tasks@.len(),
            out@ == frontier_text(tasks@, classes@, i as int),
        decreases tasks@.len() - i,
    {
        let t = &tasks[i];
        let is_next = match lookup_class(classes, &t.id) {
            Some(c) => {
                let a = chars_of(c);
                let b = chars_of(LABEL_NEXT);
                eq_chars(a.as_slice(), b.as_slice())
            },
            None => false,
        };
        if is_next {
            let ghost before = out@;
            extend_str(&mut out, "• ");
            extend_str(&mut out, t.content.as_str());
            match &t.due {
                Some(d) => {
                    extend_str(&mut out, "  (due ");
                    extend_str(&mut out, d.date.as_str());
                    extend_str(&mut out, ")");
                },
                None => {},
            }
            extend_str(&mut out, "\n");
            assert(out@ =~= before + frontier_line(*t));
        }
        i = i + 1;
    }
    string_of(out.as_slice())
}

} // verus!
