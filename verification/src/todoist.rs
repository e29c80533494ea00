//! The Todoist records the library reasons about: tasks, their due
//! dates, and projects, and the bookkeeping of a paginated listing. The
//! HTTP requests themselves are the application's business.

use vstd::prelude::*;

verus! {

/// An active Todoist task.
#[derive(Debug, Clone)]
pub struct Task {
    pub id: String,
    pub content: String,
    pub description: String,
    pub labels: Vec<String>,
    pub project_id: String,
    pub due: Option<Due>,
}

/// A task's due date as Todoist reports it: `YYYY-MM-DD`, possibly with
/// a `THH:MM:SS` tail.
#[derive(Debug, Clone)]
pub struct Due {
    pub date: String,
}

/// A Todoist project.
#[derive(Debug, Clone)]
pub struct Project {
    pub id: String,
    pub name: String,
    pub description: String,
}

/// One page of a cursor-paginated listing has arrived: its items join
/// the ones gathered so far, in order, and the cursor it carries, if any,
/// is the page to ask for next (None: the listing is complete).
pub fn after_page<T>(acc: &mut Vec<T>, results: Vec<T>, next_cursor: Option<String>) -> (next: Option<String>)
    ensures
        final(acc)@ == old(acc)@ + results@,
        next == next_cursor,
{
    let mut results = results;
    acc.append(&mut results);
    next_cursor
}

} // verus!
