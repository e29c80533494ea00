# tache

Task dependencies (a DAG) layered over Todoist. Edges live in Todoist
itself as `after:` lines in a task's description, resolved by task id,
exact name, or unique substring within the same project. A webhook-driven
server recomputes the unblocked frontier on every change and maintains two
labels: `next` (every prerequisite is complete) and `blocked` (waiting on
an active prerequisite, an ambiguous reference, or a cycle).

## Layout

- `src/` — the verified library (Verus). Every function states its
  behaviour in `requires`/`ensures` over spec functions on `Seq`, `int`
  and views, and Verus proves it, except a few small trusted wrappers
  whose contracts are believed: `String::push`, `str::to_lowercase`, the
  system clock (`SystemTime::now`, `duration_since`, `Duration::as_secs`),
  base64 decoding, and the HMAC-SHA256 check.
  - `dag.rs` — `after:` parsing, reference resolution, the graph and the
    frontier rule; `cycles.rs` — exact cycle membership.
  - `sync.rs` — project opt-in (`#dag`), label normalisation, the
    reconcile plan and its report, the frontier listing.
  - `graph.rs`, `labels.rs`, `order.rs`, `dates.rs` — the HTML/Graphviz
    page: escaping, word wrap, edge ordering, due dates and the civil
    calendar.
  - `cli.rs` — task lookup, the `graph`/`doctor` listings, and editing
    `after:` lines for `dep`.
  - `webhook.rs` — HMAC-SHA256 webhook authentication (base64 and HMAC
    come from the `base64`, `hmac` and `sha2` crates behind trusted
    wrappers).
  - `worker.rs` — the webhook worker's debouncing, as a step function
    from state and event to next state and action.
  - `todoist.rs` — the task and project records, and the bookkeeping of
    a paginated listing.
  - `text.rs` — string helpers and their specifications.
- `app/` — the program around it: the command line, the Todoist HTTP
  requests, the webhook server, and the loops that perform what the
  library decides (label writes, page fetches, debounce waits).
- `tests/` — tests of the library.

## CLI

```
tache serve       # webhook server (deployment mode)
tache sync        # one-shot reconcile
tache frontier    # list actionable tasks
tache graph       # print dependency edges
tache doctor      # unresolved / ambiguous refs, cycles
tache dep "stain shelves" "buy lumber"        # add edge
tache dep "stain shelves" "buy lumber" --rm   # remove edge
```
