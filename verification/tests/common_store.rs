use todo_cli::model::{Task, TaskStore};

fn task(id: i32, parent: Option<i32>, title: &str, priority: Option<&str>, completed: i32) -> Task {
    Task {
        id,
        parent_id: parent,
        title: title.to_string(),
        priority: priority.map(|p| p.to_string()),
        deadline: None,
        completed,
    }
}

#[test]
fn from_tasks_refuses_duplicate_ids() {
    let tasks = vec![task(1, None, "a", None, 0), task(1, None, "b", None, 0)];
    assert!(TaskStore::from_tasks(tasks).is_none());
    let tasks = vec![task(1, None, "a", None, 0), task(2, None, "b", None, 0)];
    assert_eq!(TaskStore::from_tasks(tasks).unwrap().len(), 2);
}
