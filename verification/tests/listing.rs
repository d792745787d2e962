use todo_cli::model::{Task, TaskStore};
use todo_cli::render::{table_listing, tree_listing};
use todo_cli::tree::{listing_rows, Row};

fn task(id: i32, parent: Option<i32>, title: &str, completed: i32) -> Task {
    Task { id, parent_id: parent, title: title.to_string(), priority: None, deadline: None, completed }
}

fn setup_test_db() -> TaskStore {
    let mut parent = task(1, None, "Parent", 0);
    parent.priority = Some("high".to_string());
    TaskStore::from_tasks(vec![parent, task(2, Some(1), "Child", 1)]).unwrap()
}

#[test]
fn test_print_tasks_tree_plain() {
    let store = setup_test_db();
    let output = tree_listing(&store, false);
    println!("Output: {:?}", output);
    assert!(output.contains("[ ] (ID: 1) Parent"));
    assert!(output.contains("└──  [x] (ID: 2) Child"));
}

#[test]
fn test_print_tasks_tree_emoji() {
    let store = setup_test_db();
    let output = tree_listing(&store, true);
    println!("Output: {:?}", output);
    assert!(output.contains("❌ (ID: 1) Parent"));
    assert!(output.contains("└──  ✅ (ID: 2) Child"));
}

#[test]
fn tree_listing_exact() {
    let store = TaskStore::from_tasks(vec![
        task(1, None, "A", 0),
        task(2, Some(1), "B", 0),
        task(3, Some(2), "C", 1),
        task(4, None, "D", 1),
        task(5, Some(9), "orphan", 0),
    ])
    .unwrap();
    assert_eq!(
        tree_listing(&store, false),
        " [ ] (ID: 1) A\n└──  [ ] (ID: 2) B\n  └──  [x] (ID: 3) C\n [x] (ID: 4) D\n [ ] (ID: 5) orphan\n"
    );
}

#[test]
fn table_listing_all_and_completed() {
    let store = TaskStore::from_tasks(vec![
        task(1, None, "A", 0),
        task(2, Some(1), "B", 0),
        task(3, Some(1), "C", 1),
        task(4, None, "D", 1),
    ])
    .unwrap();
    let all = table_listing(&store, false);
    let expected = format!(
        "{:<5} {:<30} {:<10}\n{:<5} {:<30} {:<10}\n{:<5} {:<30} {:<10}\n{:<5} {:<30} {:<10}\n{:<5} {:<30} {:<10}\n",
        "ID", "Title", "Status", 1, "A", "Pending", 2, "  B", "Pending", 3, "  C", "Done", 4, "D", "Done"
    );
    assert_eq!(all, expected);
    // The completed task C is listed though its parent A is pending.
    let done = table_listing(&store, true);
    let expected = format!(
        "{:<5} {:<30} {:<10}\n{:<5} {:<30} {:<10}\n{:<5} {:<30} {:<10}\n",
        "ID", "Title", "Status", 3, "  C", "Done", 4, "D", "Done"
    );
    assert_eq!(done, expected);
}

#[test]
fn table_listing_shows_completed_root_without_flag() {
    let store = TaskStore::from_tasks(vec![task(1, None, "A", 1)]).unwrap();
    let expected = format!("{:<5} {:<30} {:<10}\n{:<5} {:<30} {:<10}\n", "ID", "Title", "Status", 1, "A", "Done");
    assert_eq!(table_listing(&store, false), expected);
    assert_eq!(table_listing(&store, true), expected);
}

#[test]
fn table_listing_empty_has_no_header() {
    let store = TaskStore::from_tasks(vec![task(1, None, "A", 0)]).unwrap();
    assert_eq!(table_listing(&store, true), "");
    assert_eq!(table_listing(&TaskStore::new(), false), "");
}

#[test]
fn table_listing_long_title_is_not_cut() {
    let long = "x".repeat(40);
    let store = TaskStore::from_tasks(vec![task(123456, None, &long, 0)]).unwrap();
    assert_eq!(table_listing(&store, false).lines().nth(1).unwrap(), format!("123456 {} Pending   ", long));
}

#[test]
fn listing_rows_skip_cycles() {
    // 3 and 4 are each other's parent: unreachable from a root.
    let store = TaskStore::from_tasks(vec![
        task(3, Some(4), "x", 0),
        task(4, Some(3), "y", 0),
        task(1, None, "root", 0),
        task(2, Some(1), "kid", 0),
    ])
    .unwrap();
    let rows = listing_rows(&store);
    assert!(rows == vec![Row { index: 2, level: 0 }, Row { index: 3, level: 1 }]);
}

#[test]
fn listing_rows_list_orphans_as_roots() {
    // 7's parent 99 is not in the table (deleted, or never there).
    let store = TaskStore::from_tasks(vec![
        task(8, Some(7), "under orphan", 0),
        task(1, None, "root", 0),
        task(7, Some(99), "orphan", 1),
    ])
    .unwrap();
    let rows = listing_rows(&store);
    assert!(rows == vec![Row { index: 1, level: 0 }, Row { index: 2, level: 0 }, Row { index: 0, level: 1 }]);
    let expected = format!(
        "{:<5} {:<30} {:<10}\n{:<5} {:<30} {:<10}\n",
        "ID", "Title", "Status", 7, "orphan", "Done"
    );
    assert_eq!(table_listing(&store, true), expected);
}
