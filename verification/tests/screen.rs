use todo_cli::screen::{item_look, item_prefix, list_title, panel_text, panel_title, ItemLook};
use todo_cli::tui::{AppMode, TaskRow};

fn row(completed: i32, level: usize) -> TaskRow {
    TaskRow { id: 1, title: "T".to_string(), completed, level }
}

#[test]
fn item_prefix_indents_and_marks() {
    assert_eq!(item_prefix(&row(0, 0)), "[ ] ");
    assert_eq!(item_prefix(&row(1, 2)), "    [X] ");
}

#[test]
fn panel_text_by_mode() {
    assert_eq!(panel_text(AppMode::Search, "milk", ""), "milk");
    assert_eq!(
        panel_text(AppMode::Normal, "", "milk"),
        " FILTER: 'milk' | Nav: j/k, gg/G | Delete: d | Search: / | Esc: Clear Filter "
    );
    assert_eq!(
        panel_text(AppMode::Normal, "", ""),
        " Nav: j/k, gg/G | Subtask/Task: a/A | Rename: r | Delete: d | Toggle: x/Space | Search: / | Quit: q "
    );
    assert!(panel_text(AppMode::ConfirmDelete(3), "", "").contains("WARNING"));
}

#[test]
fn titles_by_mode() {
    assert_eq!(panel_title(AppMode::ConfirmComplete(1)), " Bulk Action ");
    assert_eq!(panel_title(AppMode::InputAdd(None)), " New Task Title (Enter to save, Esc to cancel) ");
    assert_eq!(list_title(AppMode::Search), " Search / Filter (Enter to finish, Esc to clear) ");
}

#[test]
fn item_look_selected_done_pending() {
    assert!(item_look(&row(1, 0), 2, 2) == ItemLook::Selected);
    assert!(item_look(&row(1, 0), 1, 2) == ItemLook::Done);
    assert!(item_look(&row(0, 3), 0, 2) == ItemLook::Pending);
}
