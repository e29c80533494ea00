use tache::sync::{desired_labels, enabled_ids};
use tache::todoist::{Project, Task};

fn project(id: &str, description: &str) -> Project {
    Project {
        id: id.into(),
        name: String::new(),
        description: description.into(),
    }
}

#[test]
fn marker_in_description_enables_project() {
    let projects = vec![
        project("p1", "#dag"),
        project("p2", "planning stuff #DAG here"),
        project("p3", ""),
        project("p4", "dag"), // no marker: needs the #
    ];
    let enabled = enabled_ids(&projects);
    assert!(enabled.contains(&"p1".to_string()));
    assert!(enabled.contains(&"p2".to_string()));
    assert!(!enabled.contains(&"p3".to_string()));
    assert!(!enabled.contains(&"p4".to_string()));
}

#[test]
fn out_of_scope_tasks_get_labels_stripped() {
    let task = Task {
        id: "1".into(),
        content: "t".into(),
        description: String::new(),
        labels: vec!["errand".into(), "next".into()],
        project_id: "p3".into(),
        due: None,
    };
    assert_eq!(desired_labels(&task, None), vec!["errand".to_string()]);
    assert_eq!(
        desired_labels(&task, Some("blocked")),
        vec!["errand".to_string(), "blocked".to_string()]
    );
}
