use tache::dag::Dag;
use tache::dates::{civil_from_days, parse_iso_date};
use tache::graph::{format_due, label, node_label, page, project_chart, wrap};
use tache::todoist::{Due, Project, Task};

const TODAY: (i32, u32, u32) = (2026, 8, 1);

fn task(id: &str, content: &str, description: &str, project_id: &str) -> Task {
    Task {
        id: id.into(),
        content: content.into(),
        description: description.into(),
        labels: vec![],
        project_id: project_id.into(),
        due: None,
    }
}

fn due_task(id: &str, content: &str, description: &str, project_id: &str, date: &str) -> Task {
    let mut t = task(id, content, description, project_id);
    t.due = Some(Due { date: date.into() });
    t
}

fn project(id: &str, name: &str) -> Project {
    Project {
        id: id.into(),
        name: name.into(),
        description: "#dag".into(),
    }
}

#[test]
fn renders_nodes_and_edges_per_project() {
    let projects = vec![project("p1", "Shop")];
    let tasks = vec![
        task("1", "buy lumber", "", "p1"),
        task("2", "sand \"rough\" boards", "after: buy lumber", "p1"),
    ];
    let dag = Dag::build(&tasks);
    let classes = dag.classify(&tasks);
    let chart = project_chart(&projects[0], &projects, &tasks, &dag, &classes, TODAY).unwrap();
    assert!(chart.starts_with("digraph {"));
    assert!(chart.trim_end().ends_with('}'));
    assert!(chart.contains("rankdir=LR"));
    assert!(chart.contains("T1 [label=\"buy lumber\", class=\"next\""));
    assert!(chart.contains("T2 [label=\"sand \\\"rough\\\" boards\", class=\"blocked\""));
    assert!(chart.contains("T1 -> T2"));
    // Sizing is a client-side -G default; the DOT must not pin it.
    assert!(!chart.contains("ratio"));
    assert!(!chart.contains(" size="));
}

#[test]
fn labels_escape_dot_and_html() {
    let projects = vec![project("p1", "Shop")];
    let tasks = vec![task("1", "glue A\\B <&> \"joints\"", "", "p1")];
    let dag = Dag::build(&tasks);
    let classes = dag.classify(&tasks);
    let chart = project_chart(&projects[0], &projects, &tasks, &dag, &classes, TODAY).unwrap();
    // Backslash and quote are DOT-escaped; &, <, > are HTML entities
    // (the browser decodes them back before viz parses the DOT).
    assert!(chart.contains(r#"label="glue A\\B &lt;&amp;&gt; \"joints\"""#));
}

#[test]
fn long_labels_wrap_at_word_boundaries() {
    let projects = vec![project("p1", "Shop")];
    let tasks = vec![task(
        "1",
        "Apply second finish coat to the corner-lower cabinet carcass",
        "",
        "p1",
    )];
    let dag = Dag::build(&tasks);
    let classes = dag.classify(&tasks);
    let chart = project_chart(&projects[0], &projects, &tasks, &dag, &classes, TODAY).unwrap();
    // Greedy 30-col wrap; the literal \n survives to graphviz.
    assert!(
        chart.contains(
            r#"label="Apply second finish coat to\nthe corner-lower cabinet\ncarcass""#
        )
    );
}

#[test]
fn short_labels_stay_on_one_line() {
    assert_eq!(label("sand the panel"), "sand the panel");
    assert_eq!(wrap("sand the panel", 30), vec!["sand the panel"]);
    // Exactly at the limit: still one line.
    assert_eq!(wrap(&"x".repeat(30), 30), vec!["x".repeat(30)]);
    // A single overlong word is never broken mid-word.
    assert_eq!(wrap(&"y".repeat(40), 30), vec!["y".repeat(40)]);
}

#[test]
fn wrapping_counts_raw_chars_not_escaped_entities() {
    // Widths are measured before escaping, so quotes count as one
    // char and &/< don't balloon into entity-length "words"; the
    // join's \n lands outside any escape sequence.
    let name = r#"sand the "extra-long" panels & <braces> before glue-up"#;
    assert_eq!(
        label(name),
        "sand the \\\"extra-long\\\" panels &amp;\\n&lt;braces&gt; before glue-up"
    );
}

#[test]
fn due_dates_render_as_smaller_second_line() {
    let projects = vec![project("p1", "Shop")];
    let tasks = vec![
        due_task("1", "buy lumber", "", "p1", "2026-08-05"),
        task("2", "sand boards", "after: buy lumber", "p1"),
    ];
    let dag = Dag::build(&tasks);
    let classes = dag.classify(&tasks);
    let chart = project_chart(&projects[0], &projects, &tasks, &dag, &classes, TODAY).unwrap();
    // HTML-like label, double-escaped for the <pre> transport: the
    // `label=<...>` delimiters and tags arrive entity-escaped, the
    // due line sits in a smaller status-colored FONT span.
    assert!(chart.contains(
        "T1 [label=&lt;buy lumber&lt;BR/&gt;&lt;FONT POINT-SIZE=&quot;10&quot; \
         COLOR=&quot;#558b2f&quot;&gt;due Aug 5&lt;/FONT&gt;&gt;, class=\"next\""
    ));
    // Due-less tasks keep the plain quoted label.
    assert!(chart.contains("T2 [label=\"sand boards\", class=\"blocked\""));
}

#[test]
fn overdue_dates_render_red() {
    let projects = vec![project("p1", "Shop")];
    let tasks = vec![due_task("1", "buy lumber", "", "p1", "2026-07-20")];
    let dag = Dag::build(&tasks);
    let classes = dag.classify(&tasks);
    let chart = project_chart(&projects[0], &projects, &tasks, &dag, &classes, TODAY).unwrap();
    assert!(chart.contains("COLOR=&quot;#c62828&quot;&gt;due Jul 20&lt;"));
}

#[test]
fn due_line_color_tracks_blocked_status() {
    let projects = vec![project("p1", "Shop")];
    let tasks = vec![
        task("1", "buy lumber", "", "p1"),
        due_task("2", "sand boards", "after: buy lumber", "p1", "2026-08-09"),
    ];
    let dag = Dag::build(&tasks);
    let classes = dag.classify(&tasks);
    let chart = project_chart(&projects[0], &projects, &tasks, &dag, &classes, TODAY).unwrap();
    assert!(chart.contains("COLOR=&quot;#90a4ae&quot;&gt;due Aug 9&lt;"));
}

#[test]
fn due_dates_outside_current_year_show_the_year() {
    assert_eq!(format_due((2027, 1, 15), TODAY), "Jan 15 2027");
    assert_eq!(format_due((2026, 8, 5), TODAY), "Aug 5");
}

#[test]
fn due_content_is_double_escaped_in_html_labels() {
    let out = node_label(
        "glue & clamp",
        Some(&Due {
            date: "2026-08-05".into(),
        }),
        "#558b2f",
        TODAY,
    );
    // & escapes once for graphviz's entity decoding, once more for
    // the <pre> transport.
    assert!(out.contains("glue &amp;amp; clamp"));
}

#[test]
fn unparseable_due_dates_fall_back_to_raw_text() {
    let out = node_label(
        "buy lumber",
        Some(&Due {
            date: "someday".into(),
        }),
        "#558b2f",
        TODAY,
    );
    assert!(out.contains("due someday"));
    assert!(!out.contains("#c62828"));
}

#[test]
fn iso_dates_parse_with_and_without_time() {
    assert_eq!(parse_iso_date("2026-08-05"), Some((2026, 8, 5)));
    assert_eq!(parse_iso_date("2026-08-05T14:30:00"), Some((2026, 8, 5)));
    assert_eq!(parse_iso_date("someday"), None);
    assert_eq!(parse_iso_date("2026/08/05"), None);
    assert_eq!(parse_iso_date("2026-13-05"), None);
}

#[test]
fn civil_from_days_matches_known_dates() {
    assert_eq!(civil_from_days(0), (1970, 1, 1));
    assert_eq!(civil_from_days(20666), (2026, 8, 1));
    // Leap day.
    assert_eq!(civil_from_days(19782), (2024, 2, 29));
}

#[test]
fn skips_projects_without_tasks() {
    let projects = vec![project("empty", "Empty")];
    assert!(
        project_chart(
            &projects[0],
            &projects,
            &[],
            &Dag::default(),
            &[],
            TODAY
        )
        .is_none()
    );
}

#[test]
fn cross_project_edges_become_ghost_nodes_in_both_tabs() {
    let projects = vec![project("p1", "Shop"), project("p2", "House")];
    let tasks = vec![
        task("1", "build cabinet", "", "p1"),
        task("2", "install cabinet", "after: 1", "p2"),
    ];
    let dag = Dag::build(&tasks);
    let classes = dag.classify(&tasks);

    // Prereq's tab: dependent appears as a ghost.
    let shop = project_chart(&projects[0], &projects, &tasks, &dag, &classes, TODAY).unwrap();
    assert!(shop.contains("T1 [label=\"build cabinet\", class=\"next\""));
    assert!(shop.contains("G2 [label=\"install cabinet (House)\", class=\"ghost\""));
    assert!(shop.contains("T1 -> G2 [style=dashed]"));
    assert!(!shop.contains("T2 [label=\"install cabinet\""));

    // Dependent's tab: prerequisite appears as a ghost.
    let house = project_chart(&projects[1], &projects, &tasks, &dag, &classes, TODAY).unwrap();
    assert!(house.contains("T2 [label=\"install cabinet\", class=\"blocked\""));
    assert!(house.contains("G1 [label=\"build cabinet (Shop)\", class=\"ghost\""));
    assert!(house.contains("G1 -> T2 [style=dashed]"));
    assert!(!house.contains("T1 [label=\"build cabinet\""));
}

#[test]
fn ghost_nodes_are_deduplicated() {
    let projects = vec![project("p1", "Shop"), project("p2", "House")];
    let tasks = vec![
        task("1", "build cabinet", "", "p1"),
        task("2", "build shelf", "", "p1"),
        task("3", "install everything", "after: 1\nafter: 2", "p2"),
    ];
    let dag = Dag::build(&tasks);
    let classes = dag.classify(&tasks);
    let shop = project_chart(&projects[0], &projects, &tasks, &dag, &classes, TODAY).unwrap();
    assert_eq!(shop.matches("G3 [label=").count(), 1);
    assert!(shop.contains("T1 -> G3 [style=dashed]"));
    assert!(shop.contains("T2 -> G3 [style=dashed]"));
}

#[test]
fn page_has_one_tab_and_pane_per_nonempty_project() {
    let projects = vec![
        project("p1", "Shop"),
        project("p2", "House"),
        project("p3", "Empty"),
    ];
    let tasks = vec![
        task("1", "build cabinet", "", "p1"),
        task("2", "install cabinet", "after: 1", "p2"),
    ];
    let dag = Dag::build(&tasks);
    let classes = dag.classify(&tasks);
    let html = page(&projects, &tasks, &dag, &classes);
    assert!(html.contains("<button class=\"tab\" data-tab=\"p1\">Shop</button>"));
    assert!(html.contains("<button class=\"tab\" data-tab=\"p2\">House</button>"));
    assert!(!html.contains("Empty"));
    assert!(html.contains("id=\"pane-p1\""));
    assert!(html.contains("id=\"pane-p2\""));
    assert_eq!(html.matches("digraph {").count(), 2);
    assert!(html.contains("@viz-js/viz"));
    assert!(html.contains("renderSVGElement"));
    assert!(!html.contains("mermaid"));
}

#[test]
fn linear_chains_render_every_task_individually() {
    let projects = vec![project("p1", "Shop")];
    let tasks = vec![
        task("1", "assemble", "", "p1"),
        task("2", "sand", "after: 1", "p1"),
        task("3", "first coat", "after: 2", "p1"),
        task("4", "buff", "after: 3", "p1"),
    ];
    let dag = Dag::build(&tasks);
    let classes = dag.classify(&tasks);
    let chart = project_chart(&projects[0], &projects, &tasks, &dag, &classes, TODAY).unwrap();
    // No run-collapsing: every task in a blocked chain gets its own node.
    assert!(chart.contains("T1 [label=\"assemble\", class=\"next\""));
    assert!(chart.contains("T2 [label=\"sand\", class=\"blocked\""));
    assert!(chart.contains("T3 [label=\"first coat\", class=\"blocked\""));
    assert!(chart.contains("T4 [label=\"buff\", class=\"blocked\""));
    assert!(chart.contains("T1 -> T2"));
    assert!(chart.contains("T2 -> T3"));
    assert!(chart.contains("T3 -> T4"));
    assert!(!chart.contains("class=\"run\""));
}

#[test]
fn many_incoming_edges_all_draw() {
    let projects = vec![project("p1", "Shop")];
    let n = 20;
    let mut tasks: Vec<Task> = (1..=n)
        .map(|i| task(&i.to_string(), &format!("part {i}"), "", "p1"))
        .collect();
    let after: Vec<String> = (1..=n).map(|i| i.to_string()).collect();
    tasks.push(task(
        "99",
        "install",
        &format!("after: {}", after.join(", ")),
        "p1",
    ));
    let dag = Dag::build(&tasks);
    let classes = dag.classify(&tasks);
    let chart = project_chart(&projects[0], &projects, &tasks, &dag, &classes, TODAY).unwrap();
    assert!(chart.contains("T99 [label=\"install\", class=\"blocked\""));
    assert_eq!(chart.matches("-> T99").count(), n);
}

#[test]
fn page_escapes_project_names() {
    let projects = vec![project("p1", "A <b>&\"quoted\"</b>")];
    let tasks = vec![task("1", "t", "", "p1")];
    let dag = Dag::build(&tasks);
    let classes = dag.classify(&tasks);
    let html = page(&projects, &tasks, &dag, &classes);
    assert!(html.contains("A &lt;b&gt;&amp;&quot;quoted&quot;&lt;/b&gt;"));
    assert!(!html.contains("<b>&\"quoted\"</b>"));
}
