use todo_cli::csv_io::{import_csv_plan, import_plan_of_records};
use todo_cli::markdown::{markdown_import_plan, planned_parent_id, plan_of_events, MdEvent};

#[test]
fn test_import_markdown_nested() {
    let text = "- [ ] Parent\n  - [ ] Child\n    - [ ] Grandchild\n";
    let plan = markdown_import_plan(text);
    // The table numbers the inserted rows 1, 2, 3.
    let mut ids: Vec<i32> = Vec::new();
    let mut results: Vec<(String, Option<i32>)> = Vec::new();
    for k in 0..plan.len() {
        let parent = planned_parent_id(&plan, k, &ids);
        results.push((plan[k].title.clone(), parent));
        ids.push(k as i32 + 1);
    }
    assert_eq!(results.len(), 3);
    assert_eq!(results[0].0, "Parent");
    assert_eq!(results[1].0, "Child");
    assert_eq!(results[1].1, Some(1));
    assert_eq!(results[2].0, "Grandchild");
    assert_eq!(results[2].1, Some(2));
}

#[test]
fn test_import_csv() {
    let (plan, err) = import_csv_plan(b"title,parent_title\nTask 1,\nTask 2,Task 1\n");
    assert!(err.is_none());
    assert_eq!(plan.len(), 2);
}

#[test]
fn import_csv_rows_and_parents() {
    let (plan, err) = import_csv_plan(b"title,parent_title\nTask 1,\nTask 2,Task 1\n,Task 1\nTask 3\n");
    assert!(err.is_none());
    assert_eq!(plan.len(), 3);
    assert_eq!(plan[0].title, "Task 1");
    assert_eq!(plan[0].parent_title, None);
    assert_eq!(plan[1].title, "Task 2");
    assert_eq!(plan[1].parent_title, Some("Task 1".to_string()));
    assert_eq!(plan[2].title, "Task 3");
    assert_eq!(plan[2].parent_title, None);
}

#[test]
fn import_csv_stops_at_bad_bytes() {
    let (plan, err) = import_csv_plan(b"title,parent_title\nTask 1,\n\xff\xfe,x\nTask 2,\n");
    assert!(err.is_some());
    assert_eq!(plan.len(), 1);
    assert_eq!(plan[0].title, "Task 1");
}

#[test]
fn import_plan_skips_empty_titles() {
    let recs = vec![
        vec!["".to_string(), "p".to_string()],
        vec![],
        vec!["a".to_string(), "".to_string()],
        vec!["b".to_string()],
    ];
    let plan = import_plan_of_records(&recs);
    assert_eq!(plan.len(), 2);
    assert_eq!(plan[0].title, "a");
    assert_eq!(plan[0].parent_title, None);
    assert_eq!(plan[1].title, "b");
}

#[test]
fn markdown_siblings_and_blank_items() {
    let text = "# Todo List\n\n- [ ] A\n  - [x] B\n  - [ ] C\n- [ ] D\n-   \n";
    let plan = markdown_import_plan(text);
    let titles: Vec<&str> = plan.iter().map(|p| p.title.as_str()).collect();
    assert_eq!(titles, vec!["A", "B", "C", "D"]);
    assert_eq!(plan[0].parent, None);
    assert_eq!(plan[1].parent, Some(0));
    assert_eq!(plan[2].parent, Some(0));
    assert_eq!(plan[3].parent, None);
}

#[test]
fn markdown_events_state_machine() {
    let events = vec![
        MdEvent::ListStart,
        MdEvent::ItemStart,
        MdEvent::Text("  Outer ".to_string()),
        MdEvent::ListStart,
        MdEvent::ItemStart,
        MdEvent::Text("Inner".to_string()),
        MdEvent::ItemEnd,
        MdEvent::ListEnd,
        MdEvent::ItemEnd,
        MdEvent::Other,
        MdEvent::Text("ignored".to_string()),
        MdEvent::ListEnd,
    ];
    let plan = plan_of_events(&events);
    assert_eq!(plan.len(), 2);
    assert_eq!(plan[0].title, "Outer");
    assert_eq!(plan[0].parent, None);
    assert_eq!(plan[1].title, "Inner");
    assert_eq!(plan[1].parent, Some(0));
}

#[test]
fn planned_parent_id_maps_positions_to_ids() {
    let plan = markdown_import_plan("- a\n  - b\n");
    assert_eq!(planned_parent_id(&plan, 0, &vec![]), None);
    assert_eq!(planned_parent_id(&plan, 1, &vec![42]), Some(42));
}

#[test]
fn csv_template_from_help() {
    let (plan, err) = import_csv_plan(b"title,parent_title\n\"Parent Task\",\n\"Subtask\",\"Parent Task\"\n");
    assert!(err.is_none());
    assert_eq!(plan.len(), 2);
    assert_eq!(plan[0].title, "Parent Task");
    assert_eq!(plan[0].parent_title, None);
    assert_eq!(plan[1].title, "Subtask");
    assert_eq!(plan[1].parent_title, Some("Parent Task".to_string()));
}

#[test]
fn markdown_template_from_help() {
    let plan = markdown_import_plan("# Todo List\n- [ ] Parent Task\n  - [ ] Subtask\n");
    assert_eq!(plan.len(), 2);
    assert_eq!(plan[0].title, "Parent Task");
    assert_eq!(plan[0].parent, None);
    assert_eq!(plan[1].title, "Subtask");
    assert_eq!(plan[1].parent, Some(0));
}
