use todo_cli::csv_io::export_csv_bytes;
use todo_cli::model::{Task, TaskStore};
use todo_cli::render::markdown_export;

fn setup_test_db() -> TaskStore {
    let a = Task {
        id: 1,
        parent_id: None,
        title: "Task A".to_string(),
        priority: Some("high".to_string()),
        deadline: None,
        completed: 0,
    };
    let b = Task {
        id: 2,
        parent_id: Some(1),
        title: "Subtask B".to_string(),
        priority: None,
        deadline: None,
        completed: 1,
    };
    TaskStore::from_tasks(vec![a, b]).unwrap()
}

#[test]
fn test_export_csv() {
    let store = setup_test_db();
    let content = String::from_utf8(export_csv_bytes(&store)).unwrap();
    assert!(content.contains("Task A"));
    assert!(content.contains("Subtask B"));
    assert!(content.contains("high"));
}

#[test]
fn test_export_markdown() {
    let store = setup_test_db();
    let content = markdown_export(&store);
    assert!(content.contains("- [ ] Task A"));
    assert!(content.contains("  - [x] Subtask B"));
}

#[test]
fn export_csv_exact_content() {
    let store = setup_test_db();
    let content = String::from_utf8(export_csv_bytes(&store)).unwrap();
    assert_eq!(
        content,
        "title,parent_title,priority,deadline,completed\nTask A,,high,,0\nSubtask B,Task A,,,1\n"
    );
}

#[test]
fn export_markdown_exact_content() {
    let store = setup_test_db();
    assert_eq!(markdown_export(&store), "# Todo List\n\n- [ ] Task A\n  - [x] Subtask B\n");
}

#[test]
fn export_markdown_empty_table() {
    let store = TaskStore::from_tasks(vec![]).unwrap();
    assert_eq!(markdown_export(&store), "# Todo List\n\n");
}
