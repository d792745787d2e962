use todo_cli::model::{Task, TaskStore};
use todo_cli::tui::{parents_completion_ops, AppMode, AppState, DbOp, Key};

fn task(id: i32, parent: Option<i32>, title: &str, completed: i32) -> Task {
    Task { id, parent_id: parent, title: title.to_string(), priority: None, deadline: None, completed }
}

fn store() -> TaskStore {
    TaskStore::from_tasks(vec![
        task(1, None, "Groceries", 0),
        task(2, Some(1), "Milk", 0),
        task(3, Some(1), "Bread", 1),
        task(4, None, "Taxes", 0),
    ])
    .unwrap()
}

fn ids(app: &AppState) -> Vec<i32> {
    app.tasks().iter().map(|t| t.id).collect()
}

fn set_ops(op: &Vec<DbOp>) -> Vec<(i32, i32)> {
    op.iter()
        .map(|o| match o {
            DbOp::SetCompleted { id, value } => (*id, *value),
            _ => panic!("unexpected statement"),
        })
        .collect()
}

#[test]
fn new_lists_everything() {
    let app = AppState::new(&store());
    assert_eq!(ids(&app), vec![1, 2, 3, 4]);
    assert_eq!(app.tasks()[1].level, 1);
    assert_eq!(app.selected(), 0);
    assert_eq!(app.list_selected(), Some(0));
}

#[test]
fn navigation_wraps() {
    let s = store();
    let mut app = AppState::new(&s);
    app.handle_key(Key::Char('k'), &s);
    assert_eq!(app.selected(), 3);
    app.handle_key(Key::Down, &s);
    assert_eq!(app.selected(), 0);
    app.handle_key(Key::Char('G'), &s);
    assert_eq!(app.selected(), 3);
    app.handle_key(Key::Char('g'), &s);
    assert_eq!(app.selected(), 3);
    app.handle_key(Key::Char('g'), &s);
    assert_eq!(app.selected(), 0);
}

#[test]
fn quit_keys() {
    let s = store();
    let mut app = AppState::new(&s);
    assert!(app.handle_key(Key::Char('q'), &s).quit);
    assert!(app.handle_key(Key::Esc, &s).quit);
}

#[test]
fn add_subtask_marks_ancestors_undone() {
    let s = store();
    let mut app = AppState::new(&s);
    app.handle_key(Key::Down, &s); // Milk
    app.handle_key(Key::Char('a'), &s);
    assert!(app.mode() == AppMode::InputAdd(Some(2)));
    for c in "Oat".chars() {
        app.handle_key(Key::Char(c), &s);
    }
    let out = app.handle_key(Key::Enter, &s);
    assert!(out.reload && !out.quit);
    assert_eq!(out.batches.len(), 2);
    match &out.batches[0][0] {
        DbOp::Insert { parent, title } => {
            assert_eq!(*parent, Some(2));
            assert_eq!(title, "Oat");
        },
        _ => panic!("expected an insert"),
    }
    assert_eq!(set_ops(&out.batches[1]), vec![(1, 0)]);
    assert!(app.mode() == AppMode::Normal);
}

#[test]
fn empty_title_adds_nothing() {
    let s = store();
    let mut app = AppState::new(&s);
    app.handle_key(Key::Char('A'), &s);
    let out = app.handle_key(Key::Enter, &s);
    assert!(out.reload);
    assert!(out.batches.is_empty());
}

#[test]
fn toggle_with_children_asks_then_completes_subtree() {
    let s = store();
    let mut app = AppState::new(&s);
    let out = app.handle_key(Key::Char('x'), &s);
    assert!(out.batches.is_empty());
    assert!(app.mode() == AppMode::ConfirmComplete(1));
    let out = app.handle_key(Key::Char('y'), &s);
    assert_eq!(set_ops(&out.batches[0]), vec![(2, 1), (3, 1), (1, 1)]);
    assert!(matches!(out.batches[1][..], [DbOp::CompleteParents { id: 1 }]));
    assert!(app.mode() == AppMode::Normal);
}

#[test]
fn toggle_leaf_completes_parent_when_all_done() {
    let s = store();
    let mut app = AppState::new(&s);
    app.handle_key(Key::Down, &s); // Milk, whose sibling Bread is done
    let out = app.handle_key(Key::Char(' '), &s);
    assert_eq!(set_ops(&out.batches[0]), vec![(2, 1)]);
    assert!(matches!(out.batches[1][..], [DbOp::CompleteParents { id: 2 }]));
    // After the first batch, the table has Milk done: Groceries follows.
    let after = TaskStore::from_tasks(vec![
        task(1, None, "Groceries", 0),
        task(2, Some(1), "Milk", 1),
        task(3, Some(1), "Bread", 1),
        task(4, None, "Taxes", 0),
    ])
    .unwrap();
    assert_eq!(set_ops(&parents_completion_ops(&after, 2)), vec![(1, 1)]);
    // Had the first batch failed, nothing would follow.
    assert!(parents_completion_ops(&s, 2).is_empty());
}

#[test]
fn completion_follow_up_climbs_while_children_are_done() {
    let s = TaskStore::from_tasks(vec![
        task(1, None, "A", 0),
        task(2, Some(1), "B", 0),
        task(3, Some(2), "C", 1),
        task(4, Some(1), "D", 1),
    ])
    .unwrap();
    assert_eq!(set_ops(&parents_completion_ops(&s, 3)), vec![(2, 1), (1, 1)]);
    assert!(parents_completion_ops(&s, 1).is_empty());
    assert!(parents_completion_ops(&s, 99).is_empty());
}

#[test]
fn toggle_done_task_marks_ancestors_undone() {
    let s = store();
    let mut app = AppState::new(&s);
    app.handle_key(Key::Down, &s);
    app.handle_key(Key::Down, &s); // Bread, done
    let out = app.handle_key(Key::Char('x'), &s);
    assert_eq!(set_ops(&out.batches[0]), vec![(3, 0)]);
    assert_eq!(set_ops(&out.batches[1]), vec![(1, 0)]);
}

#[test]
fn delete_asks_then_removes_subtree() {
    let s = store();
    let mut app = AppState::new(&s);
    app.handle_key(Key::Char('d'), &s);
    assert!(app.mode() == AppMode::ConfirmDelete(1));
    let out = app.handle_key(Key::Char('n'), &s);
    assert!(out.batches.is_empty());
    app.handle_key(Key::Delete, &s);
    let out = app.handle_key(Key::Char('Y'), &s);
    let deleted: Vec<i32> = out.batches[0]
        .iter()
        .map(|o| match o {
            DbOp::Delete { id } => *id,
            _ => panic!("unexpected statement"),
        })
        .collect();
    assert_eq!(deleted, vec![2, 3, 1]);
}

#[test]
fn rename_starts_with_title_and_cursor_at_end() {
    let s = store();
    let mut app = AppState::new(&s);
    app.handle_key(Key::Char('r'), &s);
    assert!(app.mode() == AppMode::InputRename(1));
    assert_eq!(app.input_text(), "Groceries");
    assert_eq!(app.input_cursor(), 9);
    app.handle_key(Key::Backspace, &s);
    app.handle_key(Key::Home, &s);
    app.handle_key(Key::Delete, &s);
    app.handle_key(Key::Char('g'), &s);
    assert_eq!(app.input_text(), "grocerie");
    let out = app.handle_key(Key::Enter, &s);
    match &out.batches[0][0] {
        DbOp::Rename { id, title } => {
            assert_eq!(*id, 1);
            assert_eq!(title, "grocerie");
        },
        _ => panic!("expected a rename"),
    }
}

#[test]
fn byte_cursor_refuses_what_string_refuses() {
    let s = store();
    let mut app = AppState::new(&s);
    app.handle_key(Key::Char('A'), &s);
    app.handle_key(Key::Char('é'), &s);
    // The cursor moved one byte, into the middle of 'é'.
    assert_eq!(app.input_cursor(), 1);
    assert!(app.refuses(Key::Char('x')));
    assert!(!app.refuses(Key::Backspace));
    assert!(app.refuses(Key::Delete));
    assert!(!app.refuses(Key::Right));
    app.handle_key(Key::Right, &s);
    assert_eq!(app.input_cursor(), 2);
    assert!(!app.refuses(Key::Char('x')));
    app.handle_key(Key::Char('x'), &s);
    assert_eq!(app.input_text(), "éx");
}

#[test]
fn search_filters_and_clears() {
    let s = store();
    let mut app = AppState::new(&s);
    app.handle_key(Key::Char('/'), &s);
    let out = app.handle_key(Key::Char('m'), &s);
    assert!(out.reload);
    assert_eq!(app.search_text(), "m");
    // The table says that only "Milk" matches.
    app.reload(&s, &vec![2]);
    assert_eq!(ids(&app), vec![1, 2]);
    let out = app.handle_key(Key::Enter, &s);
    assert!(out.reload);
    assert!(app.mode() == AppMode::Normal);
    // A match on a parent shows its whole subtree.
    app.reload(&s, &vec![1]);
    assert_eq!(ids(&app), vec![1, 2, 3]);
    let out = app.handle_key(Key::Esc, &s);
    assert!(out.reload && !out.quit);
    assert_eq!(app.search_text(), "");
    app.reload(&s, &vec![]);
    assert_eq!(ids(&app), vec![1, 2, 3, 4]);
}

#[test]
fn reload_clamps_selection() {
    let s = store();
    let mut app = AppState::new(&s);
    app.handle_key(Key::Char('G'), &s);
    let smaller = TaskStore::from_tasks(vec![task(1, None, "Groceries", 0)]).unwrap();
    app.reload(&smaller, &vec![]);
    assert_eq!(app.selected(), 0);
    app.reload_failed();
    assert!(app.tasks().is_empty());
    assert_eq!(app.list_selected(), Some(0));
}

#[test]
fn orphans_are_listed_and_highlight_follows_selection() {
    let s = TaskStore::from_tasks(vec![task(5, Some(99), "Orphan", 0), task(1, None, "Root", 0)]).unwrap();
    let mut app = AppState::new(&s);
    assert_eq!(ids(&app), vec![5, 1]);
    assert_eq!(app.list_selected(), Some(0));
    app.handle_key(Key::Down, &s);
    assert_eq!(app.list_selected(), Some(app.selected()));
    assert_eq!(app.selected(), 1);
}
