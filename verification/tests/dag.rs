use tache::dag::{parse_refs, Dag, LABEL_BLOCKED, LABEL_NEXT};
use tache::graph::lookup_class;
use tache::todoist::Task;

fn task(id: &str, content: &str, description: &str) -> Task {
    Task {
        id: id.into(),
        content: content.into(),
        description: description.into(),
        labels: vec![],
        project_id: "p1".into(),
        due: None,
    }
}

fn class(classes: &[(String, &'static str)], id: &str) -> &'static str {
    lookup_class(classes, &id.to_string()).expect("task is classified")
}

#[test]
fn parses_refs() {
    assert_eq!(
        parse_refs("notes\nafter: buy lumber, sand boards\nAfter: paint"),
        vec!["buy lumber", "sand boards", "paint"]
    );
    assert!(parse_refs("no deps here").is_empty());
}

#[test]
fn frontier_includes_dep_free_and_satisfied_tasks() {
    let tasks = vec![
        task("1", "buy lumber", ""),
        task("2", "sand boards", "after: buy lumber"),
        task("3", "stain shelves", "after: sand boards"),
        task("4", "unrelated errand", ""),
        // prerequisite already completed -> not in active set -> unresolved, but next
        task("5", "hang shelves", "after: order brackets"),
    ];
    let dag = Dag::build(&tasks);
    let classes = dag.classify(&tasks);
    assert_eq!(class(&classes, "1"), LABEL_NEXT);
    assert_eq!(class(&classes, "2"), LABEL_BLOCKED);
    assert_eq!(class(&classes, "3"), LABEL_BLOCKED);
    assert_eq!(class(&classes, "4"), LABEL_NEXT);
    assert_eq!(class(&classes, "5"), LABEL_NEXT);
    assert_eq!(
        dag.unresolved,
        vec![("5".to_string(), "order brackets".to_string())]
    );
}

#[test]
fn resolves_by_unique_substring_and_id() {
    let tasks = vec![
        task("10", "Write launch blog post", ""),
        task("11", "Publish site", "after: blog"),
        task("12", "Tweet about it", "after: 10"),
    ];
    let dag = Dag::build(&tasks);
    let classes = dag.classify(&tasks);
    assert_eq!(class(&classes, "11"), LABEL_BLOCKED);
    assert_eq!(class(&classes, "12"), LABEL_BLOCKED);
    assert!(dag.unresolved.is_empty());
}

#[test]
fn resolves_id_across_projects() {
    let mut prereq = task("40", "install cabinets", "");
    prereq.project_id = "p2".into();
    let tasks = vec![prereq, task("41", "game hutch", "after: 40")];
    let dag = Dag::build(&tasks);
    let classes = dag.classify(&tasks);
    assert_eq!(class(&classes, "41"), LABEL_BLOCKED);
    assert!(dag.unresolved.is_empty());
}

#[test]
fn name_reference_stays_project_scoped() {
    let mut other = task("50", "paint fence", "");
    other.project_id = "p2".into();
    let tasks = vec![other, task("51", "hang gate", "after: paint fence")];
    let dag = Dag::build(&tasks);
    let classes = dag.classify(&tasks);
    assert_eq!(class(&classes, "51"), LABEL_NEXT);
    assert_eq!(dag.unresolved.len(), 1);
}

#[test]
fn ambiguous_reference_blocks() {
    let tasks = vec![
        task("20", "Call plumber", ""),
        task("21", "Call electrician", ""),
        task("22", "Move in", "after: call"),
    ];
    let dag = Dag::build(&tasks);
    let classes = dag.classify(&tasks);
    assert_eq!(class(&classes, "22"), LABEL_BLOCKED);
    assert_eq!(dag.ambiguous.len(), 1);
}

#[test]
fn cycles_block_their_members_only() {
    let tasks = vec![
        task("30", "a", "after: b"),
        task("31", "b", "after: a"),
        task("32", "c", ""),
    ];
    let dag = Dag::build(&tasks);
    let classes = dag.classify(&tasks);
    assert_eq!(class(&classes, "30"), LABEL_BLOCKED);
    assert_eq!(class(&classes, "31"), LABEL_BLOCKED);
    assert_eq!(class(&classes, "32"), LABEL_NEXT);
    assert_eq!(dag.cycle_members().len(), 2);
}
