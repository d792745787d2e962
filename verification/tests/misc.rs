use todo_cli::cli::{file_format, FileFormat};
use todo_cli::deadline::{due_today, parse_pid, reminder_body};
use todo_cli::model::{Task, TaskStore};
use todo_cli::text::{int_to_string, trim_str};

#[test]
fn int_to_string_matches_display() {
    for x in [0, 7, 10, 99, 100, -1, -45, 2147483647, -2147483648] {
        assert_eq!(int_to_string(x), x.to_string());
    }
}

#[test]
fn trim_matches_std() {
    for s in ["", "  a b  ", "\t\nx\u{3000}", "\u{a0}", "abc", " \u{2003}y \u{85}"] {
        assert_eq!(trim_str(s), s.trim());
    }
}

#[test]
fn file_format_by_suffix() {
    assert!(file_format("tasks.csv") == Some(FileFormat::Csv));
    assert!(file_format("notes/list.md") == Some(FileFormat::Markdown));
    assert!(file_format("list.txt").is_none());
    assert!(file_format("md").is_none());
    assert!(file_format(".csv.md") == Some(FileFormat::Markdown));
}

#[test]
fn parse_pid_like_std() {
    for s in ["123\n", "  -5 ", "+7", "", "-", "+", "12a", "2147483647", "2147483648", "-2147483648", "-2147483649", "00042", "99999999999999999999"] {
        assert_eq!(parse_pid(s), s.trim().parse::<i32>().ok(), "input {:?}", s);
    }
}

#[test]
fn reminders_for_today() {
    let mk = |id: i32, deadline: Option<&str>, completed: i32| Task {
        id,
        parent_id: None,
        title: format!("job {}", id),
        priority: None,
        deadline: deadline.map(|d| d.to_string()),
        completed,
    };
    let store = TaskStore::from_tasks(vec![
        mk(1, Some("2024-05-01"), 0),
        mk(2, Some("2024-05-01"), 1),
        mk(3, Some("2024-05-02"), 0),
        mk(4, None, 0),
        mk(5, Some("2024-05-01"), 0),
    ])
    .unwrap();
    let due = due_today(&store, "2024-05-01");
    assert_eq!(due, vec![(1, "job 1".to_string()), (5, "job 5".to_string())]);
    assert_eq!(reminder_body(1, "job 1"), "Task 1: job 1");
    assert_eq!(reminder_body(-3, ""), "Task -3: ");
}
