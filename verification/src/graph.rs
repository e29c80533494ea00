//! Read-only HTML view of the dependency graph, served at the root.
//!
//! Renders every `#dag` project's active tasks as its own left-to-right
//! Graphviz digraph behind a vanilla-JS tab bar — one tab per project,
//! nodes colored by frontier status, edges pointing prerequisite →
//! dependent. Tasks with a due date get a second, smaller label line
//! ("due Aug 5" — year appended only when it differs from the current
//! one, red when the date is past). Overdue-ness compares against UTC
//! today. Cross-project edges show the external endpoint as a dashed
//! "ghost" node labeled with its name and project. The server emits
//! static HTML with DOT source per pane; layout runs client-side via
//! @viz-js/viz (Graphviz compiled to WASM). The DOT carries no
//! size/ratio: the page computes the pane's aspect at render time.

use vstd::prelude::*;
use vstd::string::StringSliceAdditionalSpecFns;
use vstd::utf8::encode_utf8;

use crate::dag::{Dag, LABEL_NEXT};
use crate::dates::{
    date_of_unix_secs, days_from_civil, due_text, iso_date, is_civil_date_of, law_day_count_order, parse_iso_date,
    push_due_text, valid_date,
};
use crate::labels::{
    dot_label, html_escape, html_lines, join_with, push_dot_label, push_html_escaped, push_html_lines,
    wrap_chars, wrap_lines, WRAP_COLS,
};
use crate::order::{edge_views, edges_sorted, sort_edges, lemma_sorted_unique};
use vstd::string::StringExecFns;
use crate::text::{
    char_vecs, chars_of, eq_chars, extend_chars, extend_str, lemma_occurs_extend, lemma_occurs_self, occurs_in, string_of,
    strs,
};
use crate::todoist::{Due, Project, Task};

verus! {

broadcast use vstd::seq_lib::group_to_multiset_ensures;

/// The page around the tab buttons.
pub const PAGE_HEAD: &'static str = "<!doctype html>
<html lang=\"en\">
<head>
<meta charset=\"utf-8\">
<meta name=\"viewport\" content=\"width=device-width, initial-scale=1\">
<meta name=\"robots\" content=\"noindex\">
<title>tache graph</title>
<style>
  html, body { height: 100%; }
  body { margin: 0; padding: 0.75rem 1rem; box-sizing: border-box; display: flex;
         flex-direction: column; background: #fafafa; font-family: system-ui, sans-serif; }
  h1 { font-size: 1.1rem; font-weight: 600; margin: 0 0 0.6rem; }
  #tabs { display: flex; flex-wrap: wrap; gap: 0.4rem; margin-bottom: 0.6rem; }
  .tab { font: inherit; padding: 0.3rem 0.9rem; border: 1px solid #cfd8dc; border-radius: 999px;
         background: #fff; color: #455a64; cursor: pointer; }
  .tab.active { background: #2e7d32; border-color: #2e7d32; color: #fff; }
  /* Each pane is a pan/zoom viewport filling the space below the tab bar:
     the chart renders at natural size and a translate+scale transform
     (per-tab view state) positions it. */
  #panes { flex: 1; min-height: 0; position: relative; }
  .pane { display: none; position: absolute; inset: 0; overflow: hidden; cursor: grab;
          border: 1px solid #eceff1; border-radius: 6px; background: #fff; touch-action: none; }
  .pane.active { display: block; }
  .pane pre.chart { margin: 0; position: absolute; left: 0; top: 0;
                    transform-origin: 0 0; line-height: 0; }
  .pane svg { display: block; }
  /* Pin SVG text to the family graphviz measured with (Helvetica; Arial
     and Liberation Sans are metric-compatible) so the page's system-ui
     font-family can't substitute wider glyphs that overflow node boxes. */
  .pane svg text { font-family: Helvetica, Arial, \"Liberation Sans\", sans-serif; }
  /* Hide raw DOT source until it has been rendered into an SVG. */
  pre.chart:not([data-processed]) { visibility: hidden; }
</style>
</head>
<body>
<h1>tache — dependency graph</h1>
<nav id=\"tabs\">";

/// Between the tab bar and the panes.
pub const PAGE_MID: &'static str = "</nav>
<main id=\"panes\">
";

/// After the panes: the viewer script.
pub const PAGE_TAIL: &'static str = "</main>
<script type=\"module\">
import { instance } from \"https://cdn.jsdelivr.net/npm/@viz-js/viz@3.28.0/dist/viz.js\";
// Real Graphviz (dot engine) compiled to WASM; one self-contained
// module, renders synchronously once loaded. Kick off the load now so
// the first tab doesn't wait on it serially.
const vizReady = instance();

// Pan/zoom: per-tab {x, y, k} applied as a CSS transform on the chart.
const views = new Map();
function apply(pane) {
  const v = views.get(pane.id);
  const pre = pane.querySelector(\"pre.chart\");
  if (v && pre) pre.style.transform = `translate(${v.x}px, ${v.y}px) scale(${v.k})`;
}
// Two fit modes: \"width\" (the default view) scales the chart to fill
// the pane's width and top-aligns it — tall charts are panned/scrolled
// through, not shrunk into frame. Capped at 1.5x so small charts don't
// blow up cartoonishly; charts wider than the pane scale down below
// natural size. \"all\" is the classic fit-everything overview.
// Double-click toggles between the two.
const modes = new Map();
function fit(pane, mode = \"width\") {
  const svg = pane.querySelector(\"svg\");
  if (!svg) return;
  const vb = svg.viewBox.baseVal;
  const w = vb && vb.width ? vb.width : svg.getBoundingClientRect().width;
  const h = vb && vb.height ? vb.height : svg.getBoundingClientRect().height;
  if (!w || !h) return;
  let k, y;
  const pad = 12;
  if (mode === \"all\") {
    k = Math.min(pane.clientWidth / w, pane.clientHeight / h, 1);
    y = (pane.clientHeight - h * k) / 2;
  } else {
    k = Math.min((pane.clientWidth - 2 * pad) / w, 1.5);
    y = pad;
  }
  views.set(pane.id, { k, x: (pane.clientWidth - w * k) / 2, y });
  modes.set(pane.id, mode);
  apply(pane);
}
for (const pane of document.querySelectorAll(\".pane\")) {
  pane.addEventListener(\"wheel\", (e) => {
    const v = views.get(pane.id);
    if (!v) return;
    e.preventDefault();
    const k = Math.min(Math.max(v.k * Math.exp(-e.deltaY * 0.0015), 0.05), 8);
    const r = pane.getBoundingClientRect();
    const cx = e.clientX - r.left, cy = e.clientY - r.top;
    // Keep the point under the cursor fixed while scaling around it.
    v.x = cx - ((cx - v.x) * k) / v.k;
    v.y = cy - ((cy - v.y) * k) / v.k;
    v.k = k;
    apply(pane);
  }, { passive: false });
  // Touch pointers: one drags, two pinch-zoom. The Map holds live
  // pointers in pane coords; every down/up re-baselines the gesture
  // from the current view, so drag→pinch→drag transitions don't jump.
  const pointers = new Map();
  let base = null, moved = false;
  const at = (e) => {
    const r = pane.getBoundingClientRect();
    return { x: e.clientX - r.left, y: e.clientY - r.top };
  };
  const centroid = () => {
    const pts = [...pointers.values()];
    const c = pts.reduce((s, p) => ({ x: s.x + p.x, y: s.y + p.y }), { x: 0, y: 0 });
    return { x: c.x / pts.length, y: c.y / pts.length,
             d: pts.length > 1 ? Math.hypot(pts[0].x - pts[1].x, pts[0].y - pts[1].y) : 0 };
  };
  const rebase = () => {
    const v = views.get(pane.id);
    base = v && pointers.size ? { v: { ...v }, c: centroid() } : null;
  };
  pane.addEventListener(\"pointerdown\", (e) => {
    if (!views.get(pane.id) || (e.pointerType === \"mouse\" && e.button !== 0)) return;
    e.preventDefault();
    pane.setPointerCapture(e.pointerId);
    if (!pointers.size) moved = false;
    pointers.set(e.pointerId, at(e));
    rebase();
  });
  pane.addEventListener(\"pointermove\", (e) => {
    if (!pointers.has(e.pointerId) || !base) return;
    pointers.set(e.pointerId, at(e));
    const v = views.get(pane.id);
    const c = centroid();
    if (pointers.size > 1 || Math.hypot(c.x - base.c.x, c.y - base.c.y) > 8) moved = true;
    // Same anchor math as wheel zoom: scale by the pinch-distance ratio
    // and keep the content point under the gesture's start centroid
    // pinned to the current one (one pointer reduces to a plain drag).
    const k = base.c.d ? Math.min(Math.max((base.v.k * c.d) / base.c.d, 0.05), 8) : base.v.k;
    v.k = k;
    v.x = c.x - ((base.c.x - base.v.x) * k) / base.v.k;
    v.y = c.y - ((base.c.y - base.v.y) * k) / base.v.k;
    apply(pane);
  });
  // Double-tap stands in for dblclick on touch, where the pointerdown
  // preventDefault stops the browser from synthesizing one.
  let tap = null;
  const up = (e) => {
    if (!pointers.delete(e.pointerId)) return;
    rebase();
    if (e.pointerType === \"mouse\" || pointers.size) return;
    const p = at(e);
    if (!moved && tap && e.timeStamp - tap.t < 350 &&
        Math.hypot(p.x - tap.x, p.y - tap.y) < 40) {
      fit(pane, modes.get(pane.id) === \"width\" ? \"all\" : \"width\");
      tap = null;
    } else {
      tap = moved ? null : { t: e.timeStamp, x: p.x, y: p.y };
    }
  };
  pane.addEventListener(\"pointerup\", up);
  pane.addEventListener(\"pointercancel\", up);
  pane.addEventListener(\"dblclick\", () =>
    fit(pane, modes.get(pane.id) === \"width\" ? \"all\" : \"width\"));
}

const rendered = new Set();
async function activate(id) {
  for (const b of document.querySelectorAll(\".tab\"))
    b.classList.toggle(\"active\", b.dataset.tab === id);
  for (const p of document.querySelectorAll(\".pane\"))
    p.classList.toggle(\"active\", p.id === \"pane-\" + id);
  if (rendered.has(id)) return;
  rendered.add(id);
  const pane = document.getElementById(\"pane-\" + id);
  const el = pane && pane.querySelector(\".chart\");
  if (!el) return;
  const viz = await vizReady;
  // Layout hint: the DOT sets no ratio, so this -G default applies.
  // Numeric ratio = desired drawing height/width; dot spreads node
  // positions in whichever dimension falls short, so the drawing's
  // aspect matches the pane and fit-width fills it top to bottom.
  const pad = 12;
  const ratio = Math.max(
    (pane.clientHeight - 2 * pad) / Math.max(pane.clientWidth - 2 * pad, 1), 0.05);
  const svg = viz.renderSVGElement(el.textContent,
    { graphAttributes: { ratio: ratio.toFixed(3) } });
  // viz sizes the SVG in pt (1pt = 4/3 px); pin the on-screen size to
  // the viewBox's unit count so fit()'s math is exact at scale 1.
  const vb = svg.viewBox.baseVal;
  svg.style.width = vb.width + \"px\";
  svg.style.height = vb.height + \"px\";
  el.replaceChildren(svg);
  el.setAttribute(\"data-processed\", \"\");
  fit(pane);
}
for (const b of document.querySelectorAll(\".tab\"))
  b.addEventListener(\"click\", () => activate(b.dataset.tab));
const first = document.querySelector(\".tab\");
if (first) activate(first.dataset.tab);
</script>
</body>
</html>
";


/// Graph preamble: layout direction, spacing and default node and edge
/// styles. Sizing stays client-side, so no size or ratio is set.
pub const CHART_HEAD: &'static str = "digraph {\n  rankdir=LR\n  bgcolor=\"transparent\"\n  nodesep=0.15\n  ranksep=0.6\n  fontname=\"Helvetica\"\n  node [shape=box, style=\"filled,rounded\", fontname=\"Helvetica\", fontsize=13, height=0.3, margin=\"0.15,0.08\"]\n  edge [color=\"#90a4ae\", arrowsize=0.8, fontname=\"Helvetica\"]\n";

/// Node attributes for an actionable task.
pub const NEXT_ATTRS: &'static str = "class=\"next\", fillcolor=\"#c8e6c9\", color=\"#2e7d32\", fontcolor=\"#1b5e20\"";

/// Node attributes for a blocked task.
pub const BLOCKED_ATTRS: &'static str = "class=\"blocked\", fillcolor=\"#eceff1\", color=\"#b0bec5\", fontcolor=\"#78909c\"";

/// Node attributes for a task of another project.
pub const GHOST_ATTRS: &'static str = "class=\"ghost\", style=\"filled,rounded,dashed\", fillcolor=\"#fafafa\", color=\"#90a4ae\", fontcolor=\"#90a4ae\"";

pub const NEXT_DUE_COLOR: &'static str = "#558b2f";

pub const BLOCKED_DUE_COLOR: &'static str = "#90a4ae";

pub const OVERDUE_COLOR: &'static str = "#c62828";

// ---------------------------------------------------------------------------
// Specification of the chart
// ---------------------------------------------------------------------------

/// A project's display name: its name, or its id when the name is empty.
pub open spec fn display_name(p: Project) -> Seq<char> {
    if p.name@.len() == 0 {
        p.id@
    } else {
        p.name@
    }
}

/// The class recorded for `id`; with several entries the last one counts.
pub open spec fn class_of(classes: Seq<(String, &'static str)>, id: Seq<char>) -> Option<Seq<char>>
    decreases classes.len(),
{
    if classes.len() == 0 {
        None
    } else if classes.last().0@ == id {
        Some(classes.last().1@)
    } else {
        class_of(classes.drop_last(), id)
    }
}

pub open spec fn due_view(due: Option<Due>) -> Option<Seq<char>> {
    match due {
        Some(d) => Some(d.date@),
        None => None,
    }
}

/// `a` is an earlier date than `b` (year, then month, then day).
pub open spec fn date_before(a: (int, int, int), b: (i32, u32, u32)) -> bool {
    a.0 < b.0 || (a.0 == b.0 && (a.1 < b.1 || (a.1 == b.1 && a.2 < b.2)))
}

/// A due date counts as past exactly when it lies earlier in the
/// calendar than today: for real calendar dates, when its day count
/// since 1970-01-01 is smaller than today's. In particular every date of
/// an earlier year is past and every date of a later year is not.
pub proof fn law_overdue_is_calendar_order(a: (int, int, int), b: (i32, u32, u32))
    requires
        valid_date(a.0, a.1, a.2),
        valid_date(b.0 as int, b.1 as int, b.2 as int),
    ensures
        date_before(a, b) <==> days_from_civil(a.0, a.1, a.2) < days_from_civil(b.0 as int, b.1 as int, b.2 as int),
{
    law_day_count_order(a.0, a.1, a.2, b.0 as int, b.1 as int, b.2 as int);
}

/// The full `label=...` attribute of a task node. Without a due date this
/// is the plain double-quoted label; with one it is an HTML-like label
/// whose second, smaller line shows the due date, red when overdue.
/// Content is entity-escaped once for graphviz, and the whole HTML label
/// once more for the `<pre>` transport.
pub open spec fn node_label_text(
    content: Seq<char>,
    due: Option<Seq<char>>,
    due_color: Seq<char>,
    today: (i32, u32, u32),
) -> Seq<char> {
    match due {
        None => "label=\""@ + dot_label(content) + "\""@,
        Some(date) => {
            let (text, overdue) = match iso_date(encode_utf8(date)) {
                Some(d) => (due_text((d.0 as i32, d.1 as u32, d.2 as u32), today), date_before(d, today)),
                None => (date, false),
            };
            let color = if overdue {
                OVERDUE_COLOR@
            } else {
                due_color
            };
            let name = join_with(html_lines(wrap_lines(content, WRAP_COLS as nat)), "<BR/>"@);
            let html = name + "<BR/><FONT POINT-SIZE=\"10\" COLOR=\""@ + color + "\">due "@ + html_escape(text)
                + "</FONT>"@;
            "label=&lt;"@ + html_escape(html) + "&gt;"@
        },
    }
}

/// The task is in project `pid` with id `id`.
pub open spec fn is_member(ts: Seq<Task>, pid: Seq<char>, id: Seq<char>) -> bool {
    exists|i: int| 0 <= i < ts.len() && #[trigger] ts[i].id@ == id && ts[i].project_id@ == pid
}

/// The last task with this id.
pub open spec fn task_by_id(ts: Seq<Task>, id: Seq<char>) -> Option<Task>
    decreases ts.len(),
{
    if ts.len() == 0 {
        None
    } else if ts.last().id@ == id {
        Some(ts.last())
    } else {
        task_by_id(ts.drop_last(), id)
    }
}

/// Display name of the last project with this id.
pub open spec fn project_name(ps: Seq<Project>, id: Seq<char>) -> Option<Seq<char>>
    decreases ps.len(),
{
    if ps.len() == 0 {
        None
    } else if ps.last().id@ == id {
        Some(display_name(ps.last()))
    } else {
        project_name(ps.drop_last(), id)
    }
}

/// "Task name (Project name)" for a ghost node, as a DOT label; None if
/// the task is unknown. A project id without a project stands for its
/// name.
pub open spec fn ghost_label_text(ts: Seq<Task>, ps: Seq<Project>, id: Seq<char>) -> Option<Seq<char>> {
    match task_by_id(ts, id) {
        Some(t) => {
            let project = match project_name(ps, t.project_id@) {
                Some(n) => n,
                None => t.project_id@,
            };
            Some(dot_label(t.content@ + " ("@ + project + ")"@))
        },
        None => None,
    }
}

/// (prerequisite, dependent) pairs of one adjacency entry.
pub open spec fn entry_edges(task: Seq<char>, ps: Seq<Seq<char>>) -> Seq<(Seq<char>, Seq<char>)>
    decreases ps.len(),
{
    if ps.len() == 0 {
        Seq::<(Seq<char>, Seq<char>)>::empty()
    } else {
        entry_edges(task, ps.drop_last()).push((ps.last(), task))
    }
}

/// Every (prerequisite, dependent) pair of the adjacency list.
pub open spec fn all_edges(d: Seq<(String, Vec<String>)>) -> Seq<(Seq<char>, Seq<char>)>
    decreases d.len(),
{
    if d.len() == 0 {
        Seq::<(Seq<char>, Seq<char>)>::empty()
    } else {
        all_edges(d.drop_last()) + entry_edges(d.last().0@, strs(d.last().1@))
    }
}

/// Every prerequisite of every task of the graph becomes one
/// (prerequisite, dependent) edge of the chart's edge list.
pub proof fn law_every_prereq_is_an_edge(d: Seq<(String, Vec<String>)>)
    ensures
        forall|i: int, j: int|
            0 <= i < d.len() && 0 <= j < d[i].1@.len() ==> all_edges(d).contains(
                (#[trigger] d[i].1@[j]@, d[i].0@),
            ),
    decreases d.len(),
{
    if d.len() > 0 {
        let prev = d.drop_last();
        law_every_prereq_is_an_edge(prev);
        let a = all_edges(prev);
        let ps = strs(d.last().1@);
        lemma_entry_edges(d.last().0@, ps);
        let b = entry_edges(d.last().0@, ps);
        assert forall|i: int, j: int|
            0 <= i < d.len() && 0 <= j < d[i].1@.len() implies all_edges(d).contains((#[trigger] d[i].1@[j]@, d[i].0@)) by {
            let e = (d[i].1@[j]@, d[i].0@);
            if i < prev.len() {
                assert(prev[i] == d[i]);
                assert(a.contains(e));
                let w = choose|w: int| 0 <= w < a.len() && a[w] == e;
                assert(all_edges(d)[w] == e);
            } else {
                assert(d[i] == d.last());
                assert(ps[j] == d[i].1@[j]@);
                assert(b[j] == e);
                assert(all_edges(d)[a.len() + j] == e);
            }
        }
    }
}

proof fn lemma_entry_edges(task: Seq<char>, ps: Seq<Seq<char>>)
    ensures
        entry_edges(task, ps).len() == ps.len(),
        forall|j: int| 0 <= j < ps.len() ==> #[trigger] entry_edges(task, ps)[j] == (ps[j], task),
    decreases ps.len(),
{
    if ps.len() > 0 {
        lemma_entry_edges(task, ps.drop_last());
        assert forall|j: int| 0 <= j < ps.len() implies #[trigger] entry_edges(task, ps)[j] == (ps[j], task) by {
            if j < ps.len() - 1 {
                assert(entry_edges(task, ps)[j] == entry_edges(task, ps.drop_last())[j]);
            }
        }
    }
}

/// The edges of the adjacency list in ascending order.
pub open spec fn sorted_edges(d: Seq<(String, Vec<String>)>) -> Seq<(Seq<char>, Seq<char>)> {
    choose|s: Seq<(Seq<char>, Seq<char>)>| edges_sorted(s) && s.to_multiset() == all_edges(d).to_multiset()
}

pub open spec fn ghost_decl(id: Seq<char>, label: Seq<char>) -> Seq<char> {
    "  G"@ + id + " [label=\""@ + label + "\", "@ + GHOST_ATTRS@ + "]\n"@
}

/// What one edge adds to a project's chart, given the ghost nodes
/// declared so far, and the ghost nodes declared after it. Edges inside
/// the project are solid; an edge with one endpoint outside becomes
/// dashed, to a ghost node for that endpoint, declared once; edges whose
/// outside endpoint is unknown, and edges wholly outside, add nothing.
pub open spec fn edge_piece(
    ghosts: Set<Seq<char>>,
    e: (Seq<char>, Seq<char>),
    ts: Seq<Task>,
    ps: Seq<Project>,
    pid: Seq<char>,
) -> (Seq<char>, Set<Seq<char>>) {
    let (p, t) = e;
    let p_in = is_member(ts, pid, p);
    let t_in = is_member(ts, pid, t);
    if p_in && t_in {
        ("  T"@ + p + " -> T"@ + t + "\n"@, ghosts)
    } else if p_in {
        match ghost_label_text(ts, ps, t) {
            Some(l) => (
                (if ghosts.contains(t) {
                    Seq::<char>::empty()
                } else {
                    ghost_decl(t, l)
                }) + "  T"@ + p + " -> G"@ + t + " [style=dashed]\n"@,
                ghosts.insert(t),
            ),
            None => (Seq::<char>::empty(), ghosts),
        }
    } else if t_in {
        match ghost_label_text(ts, ps, p) {
            Some(l) => (
                (if ghosts.contains(p) {
                    Seq::<char>::empty()
                } else {
                    ghost_decl(p, l)
                }) + "  G"@ + p + " -> T"@ + t + " [style=dashed]\n"@,
                ghosts.insert(p),
            ),
            None => (Seq::<char>::empty(), ghosts),
        }
    } else {
        (Seq::<char>::empty(), ghosts)
    }
}

/// The edge section of a project's chart, edge by edge, and the ghost
/// nodes it declares.
pub open spec fn edges_text(
    es: Seq<(Seq<char>, Seq<char>)>,
    ts: Seq<Task>,
    ps: Seq<Project>,
    pid: Seq<char>,
) -> (Seq<char>, Set<Seq<char>>)
    decreases es.len(),
{
    if es.len() == 0 {
        (Seq::<char>::empty(), Set::<Seq<char>>::empty())
    } else {
        let (out, ghosts) = edges_text(es.drop_last(), ts, ps, pid);
        let (piece, after) = edge_piece(ghosts, es.last(), ts, ps, pid);
        (out + piece, after)
    }
}

/// Every prerequisite edge between two tasks of the project is drawn, as
/// a solid arrow from the prerequisite to the dependent.
pub proof fn law_chart_draws_project_edges(
    es: Seq<(Seq<char>, Seq<char>)>,
    ts: Seq<Task>,
    ps: Seq<Project>,
    pid: Seq<char>,
)
    ensures
        forall|k: int|
            0 <= k < es.len() && is_member(ts, pid, es[k].0) && is_member(ts, pid, es[k].1) ==> occurs_in(
                edges_text(es, ts, ps, pid).0,
                "  T"@ + (#[trigger] es[k]).0 + " -> T"@ + es[k].1 + "\n"@,
            ),
    decreases es.len(),
{
    if es.len() > 0 {
        let prev = es.drop_last();
        law_chart_draws_project_edges(prev, ts, ps, pid);
        let (out, ghosts) = edges_text(prev, ts, ps, pid);
        let (piece, after) = edge_piece(ghosts, es.last(), ts, ps, pid);
        assert forall|k: int|
            0 <= k < es.len() && is_member(ts, pid, es[k].0) && is_member(ts, pid, es[k].1) implies occurs_in(
                edges_text(es, ts, ps, pid).0,
                "  T"@ + (#[trigger] es[k]).0 + " -> T"@ + es[k].1 + "\n"@,
            ) by {
            let line = "  T"@ + es[k].0 + " -> T"@ + es[k].1 + "\n"@;
            if k < prev.len() {
                assert(prev[k] == es[k]);
                lemma_occurs_extend(out, piece, line);
            } else {
                assert(es[k] == es.last());
                assert(piece == line);
                lemma_occurs_self(line);
                lemma_occurs_extend(out, piece, line);
            }
        }
    }
}

/// The node line of one task of the project.
pub open spec fn node_line(t: Task, classes: Seq<(String, &'static str)>, today: (i32, u32, u32)) -> Seq<char> {
    let next = class_of(classes, t.id@) == Some(LABEL_NEXT@);
    let color = if next {
        NEXT_DUE_COLOR@
    } else {
        BLOCKED_DUE_COLOR@
    };
    let attrs = if next {
        NEXT_ATTRS@
    } else {
        BLOCKED_ATTRS@
    };
    "  T"@ + t.id@ + " ["@ + node_label_text(t.content@, due_view(t.due), color, today) + ", "@ + attrs
        + "]\n"@
}

/// Node lines of the tasks of project `pid`, in task order.
pub open spec fn nodes_text(
    ts: Seq<Task>,
    pid: Seq<char>,
    classes: Seq<(String, &'static str)>,
    today: (i32, u32, u32),
) -> Seq<char>
    decreases ts.len(),
{
    if ts.len() == 0 {
        Seq::<char>::empty()
    } else if ts.last().project_id@ == pid {
        nodes_text(ts.drop_last(), pid, classes, today) + node_line(ts.last(), classes, today)
    } else {
        nodes_text(ts.drop_last(), pid, classes, today)
    }
}

/// Every task of the project gets its node, in the colors of its class.
pub proof fn law_chart_draws_every_task(
    ts: Seq<Task>,
    pid: Seq<char>,
    classes: Seq<(String, &'static str)>,
    today: (i32, u32, u32),
)
    ensures
        forall|i: int|
            0 <= i < ts.len() && (#[trigger] ts[i]).project_id@ == pid ==> occurs_in(
                nodes_text(ts, pid, classes, today),
                node_line(ts[i], classes, today),
            ),
    decreases ts.len(),
{
    if ts.len() > 0 {
        let prev = ts.drop_last();
        law_chart_draws_every_task(prev, pid, classes, today);
        let n0 = nodes_text(prev, pid, classes, today);
        assert forall|i: int| 0 <= i < ts.len() && (#[trigger] ts[i]).project_id@ == pid implies occurs_in(
            nodes_text(ts, pid, classes, today),
            node_line(ts[i], classes, today),
        ) by {
            let l = node_line(ts[i], classes, today);
            if i < prev.len() {
                assert(prev[i] == ts[i]);
                if ts.last().project_id@ == pid {
                    lemma_occurs_extend(n0, node_line(ts.last(), classes, today), l);
                }
            } else {
                assert(ts[i] == ts.last());
                lemma_occurs_self(l);
                lemma_occurs_extend(n0, l, l);
            }
        }
    }
}

pub open spec fn has_member(ts: Seq<Task>, pid: Seq<char>) -> bool {
    exists|i: int| 0 <= i < ts.len() && #[trigger] ts[i].project_id@ == pid
}

/// Graphviz DOT digraph for one project, or None if it has no tasks.
pub open spec fn chart_text(
    project: Project,
    projects: Seq<Project>,
    ts: Seq<Task>,
    d: Dag,
    classes: Seq<(String, &'static str)>,
    today: (i32, u32, u32),
) -> Option<Seq<char>> {
    if has_member(ts, project.id@) {
        Some(
            CHART_HEAD@ + nodes_text(ts, project.id@, classes, today) + edges_text(
                sorted_edges(d.prereqs@),
                ts,
                projects,
                project.id@,
            ).0 + "}\n"@,
        )
    } else {
        None
    }
}


// ---------------------------------------------------------------------------
// Building the chart
// ---------------------------------------------------------------------------

/// The class recorded for `id` in `classes` (the last entry for it).
pub fn lookup_class(classes: &[(String, &'static str)], id: &String) -> (r: Option<&'static str>)
    ensures
        match r {
            Some(c) => class_of(classes@, id@) == Some(c@),
            None => class_of(classes@, id@) is None,
        },
{
    let mut i = classes.len();
    assert(classes@.take(i as int) =~= classes@);
    while i > 0
        invariant
            i <= classes@.len(),
            class_of(classes@, id@) == class_of(classes@.take(i as int), id@),
        decreases i,
    {
        assert(classes@.take(i as int).drop_last() == classes@.take(i - 1));
        assert(classes@.take(i as int).last() == classes@[i - 1]);
        if classes[i - 1].0 == *id {
            return Some(classes[i - 1].1);
        }
        i = i - 1;
    }
    None
}

fn is_next(c: Option<&'static str>) -> (r: bool)
    ensures
        r == (match c {
            Some(c) => Some(c@),
            None => None::<Seq<char>>,
        } == Some(LABEL_NEXT@)),
{
    match c {
        Some(c) => {
            let a = chars_of(c);
            let b = chars_of(LABEL_NEXT);
            eq_chars(a.as_slice(), b.as_slice())
        },
        None => false,
    }
}

fn date_before_exec(a: (i32, u32, u32), b: (i32, u32, u32)) -> (r: bool)
    ensures
        r == date_before((a.0 as int, a.1 as int, a.2 as int), b),
{
    a.0 < b.0 || (a.0 == b.0 && (a.1 < b.1 || (a.1 == b.1 && a.2 < b.2)))
}

/// Appends the `label=...` attribute of a task node to `out`.
pub fn push_node_label(
    out: &mut Vec<char>,
    content: &String,
    due: &Option<Due>,
    due_color: &str,
    today: (i32, u32, u32),
)
    ensures
        final(out)@ == old(out)@ + node_label_text(content@, due_view(*due), due_color@, today),
{
    let cs = chars_of(content.as_str());
    match due {
        None => {
            extend_str(out, "label=\"");
            push_dot_label(out, cs.as_slice());
            extend_str(out, "\"");
        },
        Some(due) => {
            let mut text: Vec<char> = Vec::new();
            let overdue = match parse_iso_date(due.date.as_str()) {
                Some(d) => {
                    push_due_text(&mut text, d, today);
                    date_before_exec(d, today)
                },
                None => {
                    let dc = chars_of(due.date.as_str());
                    extend_chars(&mut text, dc.as_slice());
                    false
                },
            };
            let ghost tv = text@;
            let mut html: Vec<char> = Vec::new();
            push_html_lines(&mut html, cs.as_slice(), "<BR/>");
            extend_str(&mut html, "<BR/><FONT POINT-SIZE=\"10\" COLOR=\"");
            if overdue {
                extend_str(&mut html, OVERDUE_COLOR);
            } else {
                extend_str(&mut html, due_color);
            }
            extend_str(&mut html, "\">due ");
            push_html_escaped(&mut html, text.as_slice());
            extend_str(&mut html, "</FONT>");
            extend_str(out, "label=&lt;");
            push_html_escaped(out, html.as_slice());
            extend_str(out, "&gt;");
            proof {
                let b = encode_utf8(due.date@);
                match iso_date(b) {
                    Some(d) => {
                        assert(tv == due_text((d.0 as i32, d.1 as u32, d.2 as u32), today));
                    },
                    None => {
                        assert(tv == due.date@);
                    },
                }
            }
        },
    }
}

/// Position of the last task with this id.
fn task_position(ts: &[Task], id: &[char]) -> (r: Option<usize>)
    ensures
        match r {
            Some(i) => i < ts@.len() && task_by_id(ts@, id@) == Some(ts@[i as int]),
            None => task_by_id(ts@, id@) is None,
        },
{
    let mut i = ts.len();
    assert(ts@.take(i as int) =~= ts@);
    while i > 0
        invariant
            i <= ts@.len(),
            task_by_id(ts@, id@) == task_by_id(ts@.take(i as int), id@),
        decreases i,
    {
        assert(ts@.take(i as int).drop_last() == ts@.take(i - 1));
        assert(ts@.take(i as int).last() == ts@[i - 1]);
        let tid = chars_of(ts[i - 1].id.as_str());
        if eq_chars(tid.as_slice(), id) {
            return Some(i - 1);
        }
        i = i - 1;
    }
    None
}

/// Appends the display name of a project to `out`.
fn push_display_name(out: &mut Vec<char>, p: &Project)
    ensures
        final(out)@ == old(out)@ + display_name(*p),
{
    if p.name.as_str().is_empty() {
        extend_str(out, p.id.as_str());
    } else {
        extend_str(out, p.name.as_str());
    }
}

/// Display name of the last project with this id, if any.
fn project_name_of(ps: &[Project], id: &String) -> (r: Option<Vec<char>>)
    ensures
        match r {
            Some(n) => project_name(ps@, id@) == Some(n@),
            None => project_name(ps@, id@) is None,
        },
{
    let mut i = ps.len();
    assert(ps@.take(i as int) =~= ps@);
    while i > 0
        invariant
            i <= ps@.len(),
            project_name(ps@, id@) == project_name(ps@.take(i as int), id@),
        decreases i,
    {
        assert(ps@.take(i as int).drop_last() == ps@.take(i - 1));
        assert(ps@.take(i as int).last() == ps@[i - 1]);
        if ps[i - 1].id == *id {
            let mut n: Vec<char> = Vec::new();
            push_display_name(&mut n, &ps[i - 1]);
            return Some(n);
        }
        i = i - 1;
    }
    None
}

/// "Task name (Project name)" for a ghost node, as a DOT label; None if
/// the task is unknown.
fn ghost_label(ts: &[Task], ps: &[Project], id: &[char]) -> (r: Option<Vec<char>>)
    ensures
        match r {
            Some(l) => ghost_label_text(ts@, ps@, id@) == Some(l@),
            None => ghost_label_text(ts@, ps@, id@) is None,
        },
{
    match task_position(ts, id) {
        None => None,
        Some(i) => {
            let t = &ts[i];
            let mut raw = chars_of(t.content.as_str());
            extend_str(&mut raw, " (");
            match project_name_of(ps, &t.project_id) {
                Some(n) => extend_chars(&mut raw, n.as_slice()),
                None => extend_str(&mut raw, t.project_id.as_str()),
            }
            extend_str(&mut raw, ")");
            let mut l: Vec<char> = Vec::new();
            push_dot_label(&mut l, raw.as_slice());
            Some(l)
        },
    }
}

/// Whether some task of project `pid` has this id.
fn member(ts: &[Task], pid: &String, id: &[char]) -> (r: bool)
    ensures
        r == is_member(ts@, pid@, id@),
{
    let mut i: usize = 0;
    while i < ts.len()
        invariant
            i <= ts@.len(),
            forall|k: int| 0 <= k < i ==> !(#[trigger] ts@[k].id@ == id@ && ts@[k].project_id@ == pid@),
        decreases ts@.len() - i,
    {
        if ts[i].project_id == *pid {
            let tid = chars_of(ts[i].id.as_str());
            if eq_chars(tid.as_slice(), id) {
                return true;
            }
        }
        i = i + 1;
    }
    false
}

/// Whether some task belongs to project `pid`.
fn any_member(ts: &[Task], pid: &String) -> (r: bool)
    ensures
        r == has_member(ts@, pid@),
{
    let mut i: usize = 0;
    while i < ts.len()
        invariant
            i <= ts@.len(),
            forall|k: int| 0 <= k < i ==> #[trigger] ts@[k].project_id@ != pid@,
        decreases ts@.len() - i,
    {
        if ts[i].project_id == *pid {
            assert(ts@[i as int].project_id@ == pid@);
            return true;
        }
        i = i + 1;
    }
    false
}

/// Every (prerequisite, dependent) pair of the adjacency list.
fn collect_edges(d: &Vec<(String, Vec<String>)>) -> (r: Vec<(Vec<char>, Vec<char>)>)
    ensures
        edge_views(r@) == all_edges(d@),
{
    let mut r: Vec<(Vec<char>, Vec<char>)> = Vec::new();
    let mut i: usize = 0;
    while i < d.len()
        invariant
            i <= d@.len(),
            edge_views(r@) == all_edges(d@.take(i as int)),
        decreases d@.len() - i,
    {
        let task = &d[i].0;
        let list = &d[i].1;
        let ghost base = edge_views(r@);
        let mut j: usize = 0;
        while j < list.len()
            invariant
                j <= list@.len(),
                edge_views(r@) == base + entry_edges(task@, strs(list@).take(j as int)),
            decreases list@.len() - j,
        {
            let ghost before = edge_views(r@);
            r.push((chars_of(list[j].as_str()), chars_of(task.as_str())));
            assert(strs(list@).take(j + 1).drop_last() == strs(list@).take(j as int));
            assert(strs(list@).take(j + 1).last() == list@[j as int]@);
            assert(edge_views(r@) =~= before.push((list@[j as int]@, task@)));
            j = j + 1;
        }
        assert(strs(list@).take(list@.len() as int) == strs(list@));
        assert(d@.take(i + 1).drop_last() == d@.take(i as int));
        assert(d@.take(i + 1).last() == d@[i as int]);
        i = i + 1;
    }
    assert(d@.take(d@.len() as int) == d@);
    r
}

/// Whether `x` is among `v`.
fn contains_word(v: &Vec<Vec<char>>, x: &[char]) -> (r: bool)
    ensures
        r == char_vecs(v@).contains(x@),
{
    let mut i: usize = 0;
    while i < v.len()
        invariant
            i <= v@.len(),
            forall|k: int| 0 <= k < i ==> #[trigger] v@[k]@ != x@,
        decreases v@.len() - i,
    {
        if eq_chars(v[i].as_slice(), x) {
            assert(char_vecs(v@)[i as int] == x@);
            return true;
        }
        i = i + 1;
    }
    proof {
        if char_vecs(v@).contains(x@) {
            let k = choose|k: int| 0 <= k < char_vecs(v@).len() && char_vecs(v@)[k] == x@;
            assert(v@[k]@ == x@);
        }
    }
    false
}

/// Appends the declaration of ghost node `id`, unless already declared,
/// and records it.
fn push_ghost_decl(out: &mut Vec<char>, ghosts: &mut Vec<Vec<char>>, id: &[char], label: &[char])
    ensures
        final(out)@ == old(out)@ + (if char_vecs(old(ghosts)@).contains(id@) {
            Seq::<char>::empty()
        } else {
            ghost_decl(id@, label@)
        }),
        forall|k: Seq<char>| #[trigger] char_vecs(final(ghosts)@).contains(k) <==> (char_vecs(old(ghosts)@).contains(k) || k == id@),
{
    if contains_word(ghosts, id) {
        assert(out@ == old(out)@ + Seq::<char>::empty());
    } else {
        extend_str(out, "  G");
        extend_chars(out, id);
        extend_str(out, " [label=\"");
        extend_chars(out, label);
        extend_str(out, "\", ");
        extend_str(out, GHOST_ATTRS);
        extend_str(out, "]\n");
        let mut copy: Vec<char> = Vec::new();
        extend_chars(&mut copy, id);
        let ghost g0 = char_vecs(ghosts@);
        ghosts.push(copy);
        assert(char_vecs(ghosts@) =~= g0.push(id@));
        assert forall|k: Seq<char>| #[trigger] char_vecs(ghosts@).contains(k) <==> (g0.contains(k) || k == id@) by {
            if char_vecs(ghosts@).contains(k) {
                let m = choose|m: int| 0 <= m < char_vecs(ghosts@).len() && char_vecs(ghosts@)[m] == k;
                if m < g0.len() {
                    assert(g0[m] == k);
                }
            }
            if g0.contains(k) {
                let m = choose|m: int| 0 <= m < g0.len() && g0[m] == k;
                assert(char_vecs(ghosts@)[m] == k);
            }
            if k == id@ {
                assert(char_vecs(ghosts@)[g0.len() as int] == k);
            }
        }
    }
}

/// Appends what edge `(p, t)` adds to a project's chart and records the
/// ghost node it declares.
fn push_edge(
    out: &mut Vec<char>,
    ghosts: &mut Vec<Vec<char>>,
    tasks: &[Task],
    projects: &[Project],
    pid: &String,
    p: &[char],
    t: &[char],
    Ghost(gs): Ghost<Set<Seq<char>>>,
)
    requires
        forall|g: Seq<char>| #[trigger] char_vecs(old(ghosts)@).contains(g) <==> gs.contains(g),
    ensures
        final(out)@ == old(out)@ + edge_piece(gs, (p@, t@), tasks@, projects@, pid@).0,
        forall|g: Seq<char>|
            #[trigger] char_vecs(final(ghosts)@).contains(g) <==> edge_piece(gs, (p@, t@), tasks@, projects@, pid@).1.contains(g),
{
    let p_in = member(tasks, pid, p);
    let t_in = member(tasks, pid, t);
    if p_in && t_in {
        extend_str(out, "  T");
        extend_chars(out, p);
        extend_str(out, " -> T");
        extend_chars(out, t);
        extend_str(out, "\n");
    } else if p_in {
        match ghost_label(tasks, projects, t) {
            Some(l) => {
                push_ghost_decl(out, ghosts, t, l.as_slice());
                extend_str(out, "  T");
                extend_chars(out, p);
                extend_str(out, " -> G");
                extend_chars(out, t);
                extend_str(out, " [style=dashed]\n");
            },
            None => {
                assert(out@ == old(out)@ + Seq::<char>::empty());
            },
        }
    } else if t_in {
        match ghost_label(tasks, projects, p) {
            Some(l) => {
                push_ghost_decl(out, ghosts, p, l.as_slice());
                extend_str(out, "  G");
                extend_chars(out, p);
                extend_str(out, " -> T");
                extend_chars(out, t);
                extend_str(out, " [style=dashed]\n");
            },
            None => {
                assert(out@ == old(out)@ + Seq::<char>::empty());
            },
        }
    } else {
        assert(out@ == old(out)@ + Seq::<char>::empty());
    }
}

/// Graphviz DOT digraph for one project, or None if it has no tasks.
///
/// Cross-project edges keep their prereq → dependent direction but the
/// external endpoint becomes a dashed ghost node labeled with the task's
/// name and project, so each tab stays self-contained.
#[verifier::spinoff_prover]
#[verifier::rlimit(40)]
pub fn project_chart(
    project: &Project,
    projects: &[Project],
    tasks: &[Task],
    dag: &Dag,
    classes: &[(String, &'static str)],
    today: (i32, u32, u32),
) -> (r: Option<String>)
    ensures
        match r {
            Some(c) => chart_text(*project, projects@, tasks@, *dag, classes@, today) == Some(c@),
            None => chart_text(*project, projects@, tasks@, *dag, classes@, today) is None,
        },
{
    let pid = &project.id;
    if !any_member(tasks, pid) {
        return None;
    }
    let mut out: Vec<char> = Vec::new();
    extend_str(&mut out, CHART_HEAD);
    let ghost head = out@;
    let mut i: usize = 0;
    while i < tasks.len()
        invariant
            i <= tasks@.len(),
            out@ == head + nodes_text(tasks@.take(i as int), pid@, classes@, today),
        decreases tasks@.len() - i,
    {
        let t = &tasks[i];
        assert(tasks@.take(i + 1).drop_last() == tasks@.take(i as int));
        assert(tasks@.take(i + 1).last() == *t);
        if t.project_id == *pid {
            let next = is_next(lookup_class(classes, &t.id));
            extend_str(&mut out, "  T");
            extend_str(&mut out, t.id.as_str());
            extend_str(&mut out, " [");
            if next {
                push_node_label(&mut out, &t.content, &t.due, NEXT_DUE_COLOR, today);
            } else {
                push_node_label(&mut out, &t.content, &t.due, BLOCKED_DUE_COLOR, today);
            }
            extend_str(&mut out, ", ");
            if next {
                extend_str(&mut out, NEXT_ATTRS);
            } else {
                extend_str(&mut out, BLOCKED_ATTRS);
            }
            extend_str(&mut out, "]\n");
        }
        i = i + 1;
    }
    assert(tasks@.take(tasks@.len() as int) == tasks@);
    let ghost nodes_end = out@;
    let edges = sort_edges(collect_edges(&dag.prereqs));
    let ghost es = edge_views(edges@);
    proof {
        let chosen = sorted_edges(dag.prereqs@);
        assert(edges_sorted(es) && es.to_multiset() == all_edges(dag.prereqs@).to_multiset());
        lemma_sorted_unique(chosen, es);
    }
    let mut ghosts: Vec<Vec<char>> = Vec::new();
    let mut k: usize = 0;
    while k < edges.len()
        invariant
            k <= edges@.len(),
            es == edge_views(edges@),
            out@ == nodes_end + edges_text(es.take(k as int), tasks@, projects@, pid@).0,
            forall|g: Seq<char>| #[trigger] char_vecs(ghosts@).contains(g) <==> edges_text(es.take(k as int), tasks@, projects@, pid@).1.contains(g),
        decreases edges@.len() - k,
    {
        let (p, t) = (&edges[k].0, &edges[k].1);
        assert(es.take(k + 1).drop_last() == es.take(k as int));
        assert(es.take(k + 1).last() == (p@, t@));
        let ghost prev = edges_text(es.take(k as int), tasks@, projects@, pid@);
        push_edge(&mut out, &mut ghosts, tasks, projects, pid, p.as_slice(), t.as_slice(), Ghost(prev.1));
        assert(out@ == nodes_end + prev.0 + edge_piece(prev.1, (p@, t@), tasks@, projects@, pid@).0);
        k = k + 1;
    }
    assert(es.take(edges@.len() as int) == es);
    extend_str(&mut out, "}\n");
    Some(string_of(out.as_slice()))
}


// ---------------------------------------------------------------------------
// The page
// ---------------------------------------------------------------------------

/// Tab buttons and panes of the first projects, one of each per project
/// whose chart is not empty.
pub open spec fn page_parts(
    ps: Seq<Project>,
    projects: Seq<Project>,
    ts: Seq<Task>,
    d: Dag,
    classes: Seq<(String, &'static str)>,
    today: (i32, u32, u32),
) -> (Seq<char>, Seq<char>)
    decreases ps.len(),
{
    if ps.len() == 0 {
        (Seq::<char>::empty(), Seq::<char>::empty())
    } else {
        let (tabs, panes) = page_parts(ps.drop_last(), projects, ts, d, classes, today);
        let p = ps.last();
        match chart_text(p, projects, ts, d, classes, today) {
            None => (tabs, panes),
            Some(chart) => (
                tabs + "<button class=\"tab\" data-tab=\""@ + html_escape(p.id@) + "\">"@ + html_escape(
                    display_name(p),
                ) + "</button>"@,
                panes + "<div class=\"pane\" id=\"pane-"@ + html_escape(p.id@)
                    + "\"><pre class=\"chart\">\n"@ + chart + "</pre></div>\n"@,
            ),
        }
    }
}

/// The whole page: one tab and one pane per project with tasks, the
/// pane holding the project's DOT source until the viewer renders it.
pub open spec fn page_text(
    projects: Seq<Project>,
    ts: Seq<Task>,
    d: Dag,
    classes: Seq<(String, &'static str)>,
    today: (i32, u32, u32),
) -> Seq<char> {
    let (tabs, panes) = page_parts(projects, projects, ts, d, classes, today);
    PAGE_HEAD@ + tabs + PAGE_MID@ + panes + PAGE_TAIL@
}

/// The page as of the given UTC date.
pub fn page_at(
    projects: &[Project],
    tasks: &[Task],
    dag: &Dag,
    classes: &[(String, &'static str)],
    today: (i32, u32, u32),
) -> (r: String)
    ensures
        r@ == page_text(projects@, tasks@, *dag, classes@, today),
{
    let mut tabs: Vec<char> = Vec::new();
    let mut panes: Vec<char> = Vec::new();
    let mut i: usize = 0;
    while i < projects.len()
        invariant
            i <= projects@.len(),
            (tabs@, panes@) == page_parts(projects@.take(i as int), projects@, tasks@, *dag, classes@, today),
        decreases projects@.len() - i,
    {
        let p = &projects[i];
        assert(projects@.take(i + 1).drop_last() == projects@.take(i as int));
        assert(projects@.take(i + 1).last() == *p);
        match project_chart(p, projects, tasks, dag, classes, today) {
            None => {},
            Some(chart) => {
                let id = chars_of(p.id.as_str());
                let mut name: Vec<char> = Vec::new();
                push_display_name(&mut name, p);
                extend_str(&mut tabs, "<button class=\"tab\" data-tab=\"");
                push_html_escaped(&mut tabs, id.as_slice());
                extend_str(&mut tabs, "\">");
                push_html_escaped(&mut tabs, name.as_slice());
                extend_str(&mut tabs, "</button>");
                extend_str(&mut panes, "<div class=\"pane\" id=\"pane-");
                push_html_escaped(&mut panes, id.as_slice());
                extend_str(&mut panes, "\"><pre class=\"chart\">\n");
                extend_str(&mut panes, chart.as_str());
                extend_str(&mut panes, "</pre></div>\n");
            },
        }
        i = i + 1;
    }
    assert(projects@.take(projects@.len() as int) == projects@);
    let mut out: Vec<char> = Vec::new();
    extend_str(&mut out, PAGE_HEAD);
    extend_chars(&mut out, tabs.as_slice());
    extend_str(&mut out, PAGE_MID);
    extend_chars(&mut out, panes.as_slice());
    extend_str(&mut out, PAGE_TAIL);
    string_of(out.as_slice())
}

/// The system clock's reading, `std::time::SystemTime`.
#[verifier::external_type_specification]
#[verifier::external_body]
pub struct ExSystemTime(std::time::SystemTime);

/// `SystemTime::now`: the system clock's current reading. Nothing is
/// stated of it: it is whatever the clock says.
#[verifier::external_body]
fn system_now() -> std::time::SystemTime {
    std::time::SystemTime::now()
}

/// `SystemTime::duration_since(UNIX_EPOCH)`: the time elapsed since the
/// Unix epoch, None when the reading lies before the epoch. Nothing is
/// stated of the duration.
#[verifier::external_body]
fn since_unix_epoch(t: &std::time::SystemTime) -> Option<std::time::Duration> {
    t.duration_since(std::time::UNIX_EPOCH).ok()
}

/// `Duration::as_secs`: the whole seconds of a duration. Nothing is
/// stated of the value, as nothing is known of the duration.
#[verifier::external_body]
fn whole_secs(d: &std::time::Duration) -> u64 {
    d.as_secs()
}

/// Today's UTC civil date.
pub fn today_utc() -> (r: (i32, u32, u32))
    ensures
        exists|secs: u64| #[trigger] is_civil_date_of((secs / 86_400) as int, r),
{
    let now = system_now();
    let secs = match since_unix_epoch(&now) {
        Some(d) => whole_secs(&d),
        None => 0,
    };
    date_of_unix_secs(secs)
}

/// The page as of today (UTC); the date is read from the system clock.
pub fn page(
    projects: &[Project],
    tasks: &[Task],
    dag: &Dag,
    classes: &[(String, &'static str)],
) -> (r: String)
    ensures
        exists|today: (i32, u32, u32)|
            r@ == page_text(projects@, tasks@, *dag, classes@, today) && exists|secs: u64|
                #[trigger] is_civil_date_of((secs / 86_400) as int, today),
{
    let today = today_utc();
    page_at(projects, tasks, dag, classes, today)
}

/// The full `label=...` attribute for a task node.
pub fn node_label(content: &str, due: Option<&Due>, due_color: &str, today: (i32, u32, u32)) -> (r: String)
    ensures
        r@ == node_label_text(content@, match due {
            Some(d) => Some(d.date@),
            None => None,
        }, due_color@, today),
{
    let c = String::from_str(content);
    let owned: Option<Due> = match due {
        Some(d) => Some(Due { date: d.date.clone() }),
        None => None,
    };
    let mut out: Vec<char> = Vec::new();
    push_node_label(&mut out, &c, &owned, due_color, today);
    string_of(out.as_slice())
}

/// Wrap + escape for a DOT double-quoted label inside a `<pre>` block.
///
/// Wrapping happens first, on the raw text, so line widths count real
/// characters rather than entity expansions. Each line is then escaped in
/// two layers: backslash-escaping for DOT, entity-escaping of `&`, `<`,
/// `>` for the surrounding HTML. Lines join with a literal `\n`.
pub fn label(s: &str) -> (r: String)
    ensures
        r@ == dot_label(s@),
{
    let cs = chars_of(s);
    let mut out: Vec<char> = Vec::new();
    push_dot_label(&mut out, cs.as_slice());
    string_of(out.as_slice())
}

/// Greedy word wrap at `cols` characters. Words longer than a whole line
/// stand alone unbroken; runs of whitespace collapse to one space.
pub fn wrap(s: &str, cols: usize) -> (r: Vec<String>)
    ensures
        strs(r@) == wrap_lines(s@, cols as nat),
{
    let cs = chars_of(s);
    let lines = wrap_chars(cs.as_slice(), cols);
    let mut r: Vec<String> = Vec::new();
    let mut i: usize = 0;
    while i < lines.len()
        invariant
            i <= lines@.len(),
            strs(r@) == char_vecs(lines@).take(i as int),
        decreases lines@.len() - i,
    {
        let ghost before = strs(r@);
        r.push(string_of(lines[i].as_slice()));
        assert(strs(r@) =~= before.push(lines@[i as int]@));
        assert(char_vecs(lines@).take(i + 1) =~= char_vecs(lines@).take(i as int).push(lines@[i as int]@));
        i = i + 1;
    }
    assert(char_vecs(lines@).take(lines@.len() as int) == char_vecs(lines@));
    r
}

/// Escape for HTML text and attribute values (tab titles, pane ids).
pub fn escape(s: &str) -> (r: String)
    ensures
        r@ == html_escape(s@),
{
    let cs = chars_of(s);
    let mut out: Vec<char> = Vec::new();
    push_html_escaped(&mut out, cs.as_slice());
    string_of(out.as_slice())
}

/// "Aug 5", or "Aug 5 2027" when the year isn't today's — the common
/// case stays terse and cross-year dates stay unambiguous.
pub fn format_due(due: (i32, u32, u32), today: (i32, u32, u32)) -> (r: String)
    requires
        1 <= due.1 <= 12,
    ensures
        r@ == due_text(due, today),
{
    let mut out: Vec<char> = Vec::new();
    push_due_text(&mut out, due, today);
    string_of(out.as_slice())
}

} // verus!
