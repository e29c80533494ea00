use base64::Engine;
use hmac::{Hmac, Mac};
use sha2::Sha256;
use tache::cli::{
    add_dependency, doctor_report, find_unique, graph_listing, remove_dependency, task_name, DepError, FindError,
};
use tache::dag::{parse_refs, Dag, LABEL_BLOCKED, LABEL_NEXT};
use tache::dates::{civil_from_days, date_of_unix_secs, parse_iso_date};
use tache::graph::{escape, format_due, lookup_class, page_at, wrap};
use tache::sync::{desired_labels, enabled_ids, format_frontier, plan_reconcile, Report, Scope};
use tache::text::lower_chars;
use tache::todoist::{after_page, Due, Project, Task};
use tache::worker::{on_kick_event, KickAction, KickEvent};
use tache::webhook::{verify, verify_decoded, webhook_status};

fn task(id: &str, content: &str, description: &str, project_id: &str) -> Task {
    Task {
        id: id.into(),
        content: content.into(),
        description: description.into(),
        labels: vec![],
        project_id: project_id.into(),
        due: None,
    }
}

fn labeled(id: &str, content: &str, description: &str, project_id: &str, labels: &[&str]) -> Task {
    let mut t = task(id, content, description, project_id);
    t.labels = labels.iter().map(|l| l.to_string()).collect();
    t
}

fn sign(secret: &str, body: &[u8]) -> (Vec<u8>, String) {
    let mut mac = Hmac::<Sha256>::new_from_slice(secret.as_bytes()).unwrap();
    mac.update(body);
    let raw = mac.finalize().into_bytes().to_vec();
    let b64 = base64::engine::general_purpose::STANDARD.encode(&raw);
    (raw, b64)
}

// --- the dependency graph ---------------------------------------------------

#[test]
fn refs_are_trimmed_and_empty_pieces_dropped() {
    assert_eq!(
        parse_refs("  After:  a ,, b  \nafter:\nbefore: c\nAFTER: e\nafter: d"),
        vec!["a", "b", "d"]
    );
    for r in parse_refs("after: x , ,y\n after:z ") {
        assert_eq!(r.trim(), r);
        assert!(!r.is_empty());
    }
}

#[test]
fn every_cycle_member_is_found() {
    // a waits on x and y, x on y, y on z, z on a: all four lie on a cycle
    let tasks = vec![
        task("a", "alpha", "after: yankee, xray", "p"),
        task("x", "xray", "after: yankee", "p"),
        task("y", "yankee", "after: zulu", "p"),
        task("z", "zulu", "after: alpha", "p"),
    ];
    let dag = Dag::build(&tasks);
    let mut members = dag.cycle_members();
    members.sort();
    assert_eq!(members, vec!["a", "x", "y", "z"]);
}

#[test]
fn tasks_downstream_of_a_cycle_are_not_members() {
    let tasks = vec![
        task("1", "one", "after: two", "p"),
        task("2", "two", "after: one", "p"),
        task("3", "three", "after: two", "p"),
    ];
    let dag = Dag::build(&tasks);
    let mut members = dag.cycle_members();
    members.sort();
    assert_eq!(members, vec!["1", "2"]);
    let classes = dag.classify(&tasks);
    assert_eq!(classes.len(), 3);
    assert_eq!(lookup_class(&classes, &"3".to_string()), Some(LABEL_BLOCKED));
}

#[test]
fn self_reference_is_no_edge() {
    let tasks = vec![task("1", "paint shed", "after: paint shed", "p")];
    let dag = Dag::build(&tasks);
    assert!(dag.cycle_members().is_empty());
    assert!(dag.prereqs.iter().all(|(_, ps)| ps.is_empty()));
    assert_eq!(dag.unresolved, vec![("1".to_string(), "paint shed".to_string())]);
    let classes = dag.classify(&tasks);
    assert_eq!(lookup_class(&classes, &"1".to_string()), Some(LABEL_NEXT));
}

#[test]
fn empty_task_list_builds_empty_graph() {
    let dag = Dag::build(&[]);
    assert!(dag.prereqs.is_empty() && dag.unresolved.is_empty() && dag.ambiguous.is_empty());
    assert!(dag.classify(&[]).is_empty());
    let d = Dag::default();
    assert!(d.prereqs.is_empty() && d.unresolved.is_empty() && d.ambiguous.is_empty());
}

#[test]
fn ambiguous_reference_is_reported() {
    let tasks = vec![
        task("1", "paint door", "", "p"),
        task("2", "paint wall", "", "p"),
        task("3", "hang art", "after: paint", "p"),
    ];
    let dag = Dag::build(&tasks);
    assert_eq!(dag.ambiguous, vec![("3".to_string(), "paint".to_string())]);
    let classes = dag.classify(&tasks);
    assert_eq!(lookup_class(&classes, &"3".to_string()), Some(LABEL_BLOCKED));
}

// --- the command line -------------------------------------------------------

#[test]
fn find_unique_prefers_ids_then_unique_names() {
    let tasks = vec![
        task("1", "Buy milk", "", "p"),
        task("2", "buy bread", "", "p"),
        task("3", "Sand boards", "", "p"),
    ];
    assert_eq!(find_unique(&tasks, "1").unwrap().content, "Buy milk");
    assert_eq!(find_unique(&tasks, "SAND").unwrap().id, "3");
    let paint = find_unique(&tasks, "paint");
    assert!(matches!(paint, Err(FindError::NoMatch)));
    if let Err(e) = paint {
        assert_eq!(e.describe("paint"), "no active task matches 'paint'");
    }
    match find_unique(&tasks, "BUY") {
        Err(e @ FindError::Ambiguous(_)) => {
            assert_eq!(e.describe("BUY"), "'BUY' is ambiguous, matches: Buy milk | buy bread");
        }
        _ => panic!("expected an ambiguous match"),
    }
}

#[test]
fn task_names_fall_back_to_ids() {
    let tasks = vec![task("1", "Buy milk", "", "p")];
    assert_eq!(task_name(&tasks, "1"), "Buy milk");
    assert_eq!(task_name(&tasks, "9"), "9");
}

#[test]
fn adding_a_dependency_appends_an_after_line() {
    let target = task("1", "sand", "", "p1");
    let prereq = task("2", "buy lumber", "", "p1");
    assert_eq!(add_dependency(&target, &prereq).unwrap(), "after: buy lumber");
    let noted = task("1", "sand", "notes\nafter: measure", "p1");
    let desc = add_dependency(&noted, &prereq).unwrap();
    assert_eq!(desc, "notes\nafter: measure\nafter: buy lumber");
    let mut expected = parse_refs(&noted.description);
    expected.push("buy lumber".to_string());
    assert_eq!(parse_refs(&desc), expected);
}

#[test]
fn dependencies_stay_within_a_project() {
    let target = task("1", "sand", "", "p1");
    let prereq = task("2", "buy lumber", "", "p2");
    match add_dependency(&target, &prereq) {
        Err(e @ DepError::DifferentProjects(..)) => {
            assert!(matches!(&e, DepError::DifferentProjects(a, b) if a == "sand" && b == "buy lumber"));
            assert_eq!(e.describe(), "'sand' and 'buy lumber' are in different projects");
        }
        Ok(_) => panic!("expected a refusal"),
    }
}

#[test]
fn removing_a_dependency_drops_matching_after_lines() {
    let desc = "notes\nafter: buy lumber\nAfter: Paint, BUY LUMBER\nafter: sand\r\n";
    let out = remove_dependency(desc, "Buy Lumber");
    assert_eq!(out, "notes\nafter: sand");
    assert!(parse_refs(&out).iter().all(|r| r.to_lowercase() != "buy lumber"));
    assert_eq!(remove_dependency("notes about lumber", "lumber"), "notes about lumber");
    assert_eq!(remove_dependency("", "x"), "");
}

#[test]
fn graph_listing_shows_edges_by_name() {
    let tasks = vec![
        task("1", "buy lumber", "", "p"),
        task("2", "sand", "after: buy lumber", "p"),
        task("3", "paint", "after: 2, gone", "p"),
    ];
    let dag = Dag::build(&tasks);
    assert_eq!(graph_listing(&tasks, &dag), "sand  <-  buy lumber\npaint  <-  sand\n");
    assert_eq!(
        doctor_report(&tasks, &dag),
        "unresolved  paint: after: gone  (completed prereq or typo)\n"
    );
}

#[test]
fn doctor_lists_ambiguities_and_cycles() {
    let tasks = vec![
        task("1", "one", "after: two", "p"),
        task("2", "two", "after: one", "p"),
        task("3", "paint door", "", "p"),
        task("4", "paint wall", "", "p"),
        task("5", "hang art", "after: paint", "p"),
    ];
    let dag = Dag::build(&tasks);
    let report = doctor_report(&tasks, &dag);
    let lines: Vec<&str> = report.lines().collect();
    assert_eq!(lines[0], "ambiguous   hang art: after: paint  (matches multiple tasks)");
    let mut cycle_lines = lines[1..].to_vec();
    cycle_lines.sort();
    assert_eq!(cycle_lines, vec!["cycle       one", "cycle       two"]);
}

// --- reconciling labels -----------------------------------------------------

#[test]
fn enabled_ids_are_listed_once() {
    let projects = vec![
        Project { id: "p1".into(), name: "a".into(), description: "#dag".into() },
        Project { id: "p1".into(), name: "b".into(), description: "#DAG again".into() },
        Project { id: "p2".into(), name: "c".into(), description: "#da g".into() },
    ];
    assert_eq!(enabled_ids(&projects), vec!["p1".to_string()]);
}

#[test]
fn scope_keeps_tasks_of_enabled_projects_in_order() {
    let scope = Scope {
        tasks: vec![task("1", "a", "", "p1"), task("2", "b", "", "p2"), task("3", "c", "", "p1")],
        enabled_projects: vec!["p1".to_string()],
    };
    let ids: Vec<String> = scope.enabled_tasks().into_iter().map(|t| t.id).collect();
    assert_eq!(ids, vec!["1", "3"]);
}

#[test]
fn relabeling_twice_changes_nothing() {
    let t = labeled("1", "t", "", "p", &["errand", "next", "home", "blocked"]);
    let once = desired_labels(&t, Some(LABEL_BLOCKED));
    assert_eq!(once, vec!["errand", "home", "blocked"]);
    let again = labeled("1", "t", "", "p", &["errand", "home", "blocked"]);
    assert_eq!(desired_labels(&again, Some(LABEL_BLOCKED)), once);
    assert_eq!(desired_labels(&again, None), vec!["errand", "home"]);
}

#[test]
fn plan_writes_only_tasks_whose_labels_disagree() {
    let scope = Scope {
        tasks: vec![
            labeled("1", "buy lumber", "", "p1", &["errand", "blocked"]),
            labeled("2", "sand", "after: buy lumber", "p1", &["blocked"]),
            labeled("3", "elsewhere", "", "p2", &["next"]),
            labeled("4", "untouched", "", "p2", &["home"]),
        ],
        enabled_projects: vec!["p1".to_string()],
    };
    let plan = plan_reconcile(&scope);
    let r = &plan.report;
    assert_eq!((r.projects, r.scoped, r.next, r.blocked), (1, 2, 1, 1));
    assert_eq!((r.relabeled, r.stripped, r.cycles), (1, 1, 0));
    assert!(r.unresolved.is_empty() && r.ambiguous.is_empty());
    assert_eq!(plan.updates.len(), 2);
    assert_eq!(plan.updates[0].task, 0);
    assert_eq!(plan.updates[0].labels, vec!["errand", "next"]);
    assert_eq!(plan.updates[0].class, Some(LABEL_NEXT));
    assert_eq!(plan.updates[1].task, 2);
    assert!(plan.updates[1].labels.is_empty());
    assert_eq!(plan.updates[1].class, None);
}

#[test]
fn summary_points_to_doctor_on_warnings() {
    let mut r = Report {
        projects: 1,
        scoped: 3,
        next: 1,
        blocked: 2,
        relabeled: 1,
        stripped: 0,
        unresolved: vec![],
        ambiguous: vec![],
        cycles: 0,
    };
    assert_eq!(r.summary(), "3 tasks: 1 next, 2 blocked, 1 relabeled\n");
    r.cycles = 2;
    assert_eq!(
        r.summary(),
        "3 tasks: 1 next, 2 blocked, 1 relabeled\nrun `tache doctor` — graph has warnings\n"
    );
}

#[test]
fn frontier_lists_next_tasks_with_due_dates() {
    let mut first = task("1", "buy lumber", "", "p");
    first.due = Some(Due { date: "2026-08-05".into() });
    let tasks = vec![first, task("2", "sand", "after: buy lumber", "p"), task("3", "call mom", "", "p")];
    let dag = Dag::build(&tasks);
    let classes = dag.classify(&tasks);
    assert_eq!(
        format_frontier(&tasks, &classes),
        "• buy lumber  (due 2026-08-05)\n• call mom\n"
    );
}

// --- rendering --------------------------------------------------------------

#[test]
fn html_escape_leaves_no_markup() {
    let out = escape("<a href=\"x\">&amp;</a>");
    assert_eq!(out, "&lt;a href=&quot;x&quot;&gt;&amp;amp;&lt;/a&gt;");
    assert!(!out.contains('<') && !out.contains('>') && !out.contains('"'));
}

#[test]
fn wrap_keeps_one_empty_line_for_blank_text() {
    assert_eq!(wrap("", 10), vec![""]);
    assert_eq!(wrap("   ", 10), vec![""]);
    assert_eq!(wrap("a  b\tc", 3), vec!["a b", "c"]);
}

#[test]
fn due_text_formats_every_month() {
    let months = ["Jan", "Feb", "Mar", "Apr", "May", "Jun", "Jul", "Aug", "Sep", "Oct", "Nov", "Dec"];
    for (i, m) in months.iter().enumerate() {
        let month = (i + 1) as u32;
        assert_eq!(format_due((2026, month, 9), (2026, 1, 1)), format!("{m} 9"));
    }
    assert_eq!(format_due((-44, 3, 15), (2026, 1, 1)), "Mar 15 -44");
}

#[test]
fn iso_dates_reject_malformed_input() {
    assert_eq!(parse_iso_date("2026-12-31"), Some((2026, 12, 31)));
    assert_eq!(parse_iso_date("0999-08-05"), Some((999, 8, 5)));
    assert_eq!(parse_iso_date("+999-08-05"), None);
    assert_eq!(parse_iso_date("-999-08-05"), None);
    assert_eq!(parse_iso_date("-026-08-05"), None);
    assert_eq!(parse_iso_date("2026-+8-05"), None);
    assert_eq!(parse_iso_date("2026-08-+5"), None);
    assert_eq!(parse_iso_date("2026-08- 5"), None);
    assert_eq!(parse_iso_date("2026-13-01"), None);
    assert_eq!(parse_iso_date("2026-00-10"), None);
    assert_eq!(parse_iso_date("2026-01-32"), None);
    assert_eq!(parse_iso_date("2026-1-01"), None);
    assert_eq!(parse_iso_date("2026-01-0x"), None);
    assert_eq!(parse_iso_date("2026-01"), None);
    assert_eq!(parse_iso_date(""), None);
}

#[test]
fn civil_dates_before_the_epoch() {
    assert_eq!(civil_from_days(-1), (1969, 12, 31));
    assert_eq!(civil_from_days(-719_468), (0, 3, 1));
    assert_eq!(civil_from_days(11_016), (2000, 2, 29));
    assert_eq!(civil_from_days(-25_508), (1900, 3, 1));
}

#[test]
fn page_at_a_fixed_date_is_deterministic() {
    let projects = vec![Project { id: "p1".into(), name: "Shop".into(), description: "#dag".into() }];
    let tasks = vec![task("1", "buy lumber", "", "p1")];
    let dag = Dag::build(&tasks);
    let classes = dag.classify(&tasks);
    let a = page_at(&projects, &tasks, &dag, &classes, (2026, 8, 1));
    let b = page_at(&projects, &tasks, &dag, &classes, (2026, 8, 1));
    assert_eq!(a, b);
    assert!(a.contains("data-tab=\"p1\""));
    assert!(a.contains("buy lumber"));
}

#[test]
fn lowercasing_handles_non_ascii() {
    assert_eq!(lower_chars("ÉCOLE Straße"), "école straße".chars().collect::<Vec<_>>());
    let tasks = vec![task("1", "Réparer la porte", "", "p")];
    assert_eq!(find_unique(&tasks, "RÉPARER").unwrap().id, "1");
}

// --- webhooks ---------------------------------------------------------------

#[test]
fn webhook_status_follows_the_signature() {
    let body = br#"{"event_name":"item:added"}"#;
    let (raw, b64) = sign("secret", body);
    assert_eq!(webhook_status("secret", body, &b64), 200);
    assert_eq!(webhook_status("secret", b"tampered", &b64), 403);
    assert_eq!(webhook_status("secret", body, "not base64!"), 403);
    assert!(verify_decoded("secret", body, Some(raw)));
    assert!(!verify_decoded("secret", body, None));
}

#[test]
fn empty_secret_rejects_everything() {
    let body = b"{}";
    let (raw, b64) = sign("", body);
    assert!(!verify("", body, &b64));
    assert_eq!(webhook_status("", body, &b64), 403);
    assert!(!verify_decoded("", body, Some(raw)));
}

#[test]
fn second_reconcile_pass_writes_nothing() {
    let mut scope = Scope {
        tasks: vec![
            labeled("1", "buy lumber", "", "p1", &["blocked", "errand"]),
            labeled("2", "sand", "after: buy lumber", "p1", &["next", "next"]),
            labeled("3", "elsewhere", "", "p2", &["blocked", "home"]),
        ],
        enabled_projects: vec!["p1".to_string()],
    };
    let plan = plan_reconcile(&scope);
    assert_eq!(plan.updates.len(), 3);
    for u in &plan.updates {
        scope.tasks[u.task].labels = u.labels.clone();
    }
    assert_eq!(scope.tasks[0].labels, vec!["errand", "next"]);
    assert_eq!(scope.tasks[1].labels, vec!["blocked"]);
    assert_eq!(scope.tasks[2].labels, vec!["home"]);
    let again = plan_reconcile(&scope);
    assert!(again.updates.is_empty());
    assert_eq!((again.report.relabeled, again.report.stripped), (0, 0));
    assert_eq!((again.report.next, again.report.blocked), (plan.report.next, plan.report.blocked));
}

#[test]
fn wrapped_lines_fit_unless_a_word_is_too_long() {
    let text = "a bb ccc  dddddddddd e ff";
    let lines = wrap(text, 4);
    assert_eq!(lines, vec!["a bb", "ccc", "dddddddddd", "e ff"]);
    for l in &lines {
        assert!(l.chars().count() <= 4 || !l.contains(' '));
    }
    assert_eq!(lines.join(" "), text.split_whitespace().collect::<Vec<_>>().join(" "));
}

#[test]
fn default_report_is_empty() {
    let r = Report::default();
    assert_eq!((r.projects, r.scoped, r.next, r.blocked, r.relabeled, r.stripped, r.cycles), (0, 0, 0, 0, 0, 0, 0));
    assert!(r.unresolved.is_empty() && r.ambiguous.is_empty());
    assert_eq!(r.summary(), "0 tasks: 0 next, 0 blocked, 0 relabeled\n");
}

#[test]
fn clock_seconds_map_to_utc_dates() {
    assert_eq!(date_of_unix_secs(0), (1970, 1, 1));
    assert_eq!(date_of_unix_secs(86_399), (1970, 1, 1));
    assert_eq!(date_of_unix_secs(86_400), (1970, 1, 2));
    assert_eq!(date_of_unix_secs(20_666 * 86_400 + 3_600), (2026, 8, 1));
    assert_eq!(date_of_unix_secs(19_782 * 86_400), (2024, 2, 29));
}

#[test]
fn pages_accumulate_in_order_until_the_cursor_runs_out() {
    let mut acc: Vec<Task> = Vec::new();
    let next = after_page(&mut acc, vec![task("1", "a", "", "p"), task("2", "b", "", "p")], Some("c2".to_string()));
    assert_eq!(next, Some("c2".to_string()));
    let next = after_page(&mut acc, vec![task("3", "c", "", "p")], None);
    assert_eq!(next, None);
    let ids: Vec<&str> = acc.iter().map(|t| t.id.as_str()).collect();
    assert_eq!(ids, vec!["1", "2", "3"]);
}

#[test]
fn a_burst_of_kicks_reconciles_once() {
    let mut open = false;
    let mut actions = Vec::new();
    for e in [KickEvent::Kick, KickEvent::Kick, KickEvent::Kick, KickEvent::WindowClosed] {
        let (o, a) = on_kick_event(open, e);
        open = o;
        actions.push(a);
    }
    assert_eq!(
        actions,
        vec![KickAction::StartWindow, KickAction::Wait, KickAction::Wait, KickAction::Reconcile]
    );
    assert!(!open);
    assert_eq!(on_kick_event(false, KickEvent::WindowClosed), (false, KickAction::Wait));
}

fn html_unescape(t: &str) -> String {
    t.replace("&lt;", "<").replace("&gt;", ">").replace("&quot;", "\"").replace("&amp;", "&")
}

#[test]
fn html_escape_round_trips() {
    let s = r#"A <b>&"quoted"</b> &amp;"#;
    let out = escape(s);
    assert_eq!(out, "A &lt;b&gt;&amp;&quot;quoted&quot;&lt;/b&gt; &amp;amp;");
    for (i, _) in out.match_indices('&') {
        let rest = &out[i..];
        assert!(["&amp;", "&lt;", "&gt;", "&quot;"].iter().any(|e| rest.starts_with(e)));
    }
    assert_eq!(html_unescape(&out), s);
}

fn next_day(d: (i32, u32, u32)) -> (i32, u32, u32) {
    let (y, m, day) = d;
    let leap = (y % 4 == 0 && y % 100 != 0) || y % 400 == 0;
    let len = match m {
        2 => if leap { 29 } else { 28 },
        4 | 6 | 9 | 11 => 30,
        _ => 31,
    };
    if day < len {
        (y, m, day + 1)
    } else if m < 12 {
        (y, m + 1, 1)
    } else {
        (y + 1, 1, 1)
    }
}

#[test]
fn consecutive_day_counts_are_consecutive_dates() {
    for days in [-25_510i64, -25_509, -1, 0, 58, 59, 10_956, 11_015, 11_016, 19_781, 19_782, 20_666, 2_932_896] {
        assert_eq!(civil_from_days(days + 1), next_day(civil_from_days(days)), "day {days}");
    }
    assert_eq!(civil_from_days(-1), (1969, 12, 31));
    assert_eq!(civil_from_days(0), (1970, 1, 1));
}

#[test]
fn ascii_lowercasing_maps_only_letters() {
    assert_eq!(lower_chars("Buy MILK #DAG 42!"), "buy milk #dag 42!".chars().collect::<Vec<_>>());
}
