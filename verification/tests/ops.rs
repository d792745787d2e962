use todo_cli::model::{Task, TaskStore};
use todo_cli::ops::{ancestor_ids, completion_column, has_children, parents_to_complete, subtree_post_order, with_completions};

fn task(id: i32, parent: Option<i32>, completed: i32) -> Task {
    Task { id, parent_id: parent, title: format!("t{}", id), priority: None, deadline: None, completed }
}

fn forest() -> TaskStore {
    // 1 ─ 2 ─ 4
    //   └ 3
    // 5 (orphan of 9)
    TaskStore::from_tasks(vec![
        task(1, None, 0),
        task(2, Some(1), 0),
        task(3, Some(1), 1),
        task(4, Some(2), 0),
        task(5, Some(9), 0),
    ])
    .unwrap()
}

#[test]
fn subtree_order_children_first() {
    let store = forest();
    assert_eq!(subtree_post_order(&store, 1), vec![4, 2, 3, 1]);
    assert_eq!(subtree_post_order(&store, 4), vec![4]);
    // A missing id still takes the tasks that name it as parent.
    assert_eq!(subtree_post_order(&store, 9), vec![5, 9]);
}

#[test]
fn has_children_checks_parent_links() {
    let store = forest();
    assert!(has_children(&store, 1));
    assert!(has_children(&store, 9));
    assert!(!has_children(&store, 3));
}

#[test]
fn ancestors_nearest_first() {
    let store = forest();
    assert_eq!(ancestor_ids(&store, 4), vec![2, 1]);
    assert_eq!(ancestor_ids(&store, 1), Vec::<i32>::new());
    // The parent of 5 is not a task: it is named, and the walk stops there.
    assert_eq!(ancestor_ids(&store, 5), vec![9]);
    assert_eq!(ancestor_ids(&store, 77), Vec::<i32>::new());
}

#[test]
fn completing_rises_while_siblings_are_done() {
    let store = forest();
    let col = completion_column(&store);
    assert_eq!(col, vec![0, 0, 1, 0, 0]);
    // Completing 4 completes 2 (its only child), then 1 (2 and 3 now done).
    let col = with_completions(&store, &col, &vec![4], 1);
    assert_eq!(parents_to_complete(&store, &col, 4), vec![2, 1]);
    // With 3 pending, completing 4 stops at 2.
    let col = with_completions(&store, &col, &vec![3], 0);
    assert_eq!(parents_to_complete(&store, &col, 4), vec![2]);
}

#[test]
fn cyclic_parents_do_not_hang() {
    let store = TaskStore::from_tasks(vec![task(1, Some(2), 0), task(2, Some(1), 0)]).unwrap();
    assert_eq!(ancestor_ids(&store, 1).len(), 2);
    assert_eq!(subtree_post_order(&store, 1).len(), 3);
}

#[test]
fn completing_twice_changes_nothing() {
    let store = forest();
    let col = completion_column(&store);
    let ids = subtree_post_order(&store, 1);
    let once = with_completions(&store, &col, &ids, 1);
    let twice = with_completions(&store, &once, &ids, 1);
    assert_eq!(once, vec![1, 1, 1, 1, 0]);
    assert_eq!(twice, once);
}
