use todo_cli::csv_io::{export_csv_bytes, import_csv_plan};
use todo_cli::model::{Task, TaskStore};
use todo_cli::tui::{AppState, Key};

fn task(id: i32, parent: Option<i32>, title: &str) -> Task {
    Task { id, parent_id: parent, title: title.to_string(), priority: None, deadline: None, completed: 0 }
}

#[test]
fn export_then_import_keeps_titles_and_parents() {
    let store = TaskStore::from_tasks(vec![
        task(1, None, "Plan, \"big\" trip"),
        task(2, Some(1), "Book flights"),
        task(3, Some(7), "Orphan"),
        task(4, Some(2), "Seat 12A"),
    ])
    .unwrap();
    let bytes = export_csv_bytes(&store);
    let (plan, err) = import_csv_plan(&bytes);
    assert!(err.is_none());
    let got: Vec<(String, Option<String>)> =
        plan.into_iter().map(|r| (r.title, r.parent_title)).collect();
    assert_eq!(
        got,
        vec![
            ("Plan, \"big\" trip".to_string(), None),
            ("Book flights".to_string(), Some("Plan, \"big\" trip".to_string())),
            ("Orphan".to_string(), None),
            ("Seat 12A".to_string(), Some("Book flights".to_string())),
        ]
    );
}

#[test]
fn down_then_up_returns_to_the_same_row() {
    let store = TaskStore::from_tasks(vec![task(1, None, "a"), task(2, None, "b"), task(3, Some(2), "c")]).unwrap();
    let mut app = AppState::new(&store);
    for _ in 0..5 {
        let before = app.selected();
        app.handle_key(Key::Char('j'), &store);
        app.handle_key(Key::Char('k'), &store);
        assert_eq!(app.selected(), before);
        app.handle_key(Key::Up, &store);
        app.handle_key(Key::Down, &store);
        assert_eq!(app.selected(), before);
        app.handle_key(Key::Down, &store);
    }
}
