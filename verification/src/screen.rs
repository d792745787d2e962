//! What the terminal interface draws: the look and prefix of each listed
//! task, the title of the task panel, and the title and text of the panel
//! below it.

use vstd::prelude::*;
use crate::text::{push_spaces, spaces};
use crate::tui::{AppMode, TaskRow};

verus! {

/// The prefix of a listed task: two spaces per level, its mark, a space.
pub open spec fn item_prefix_text(t: TaskRow) -> Seq<char> {
    spaces(2 * t.level as nat) + (if t.completed == 1 { "[X]"@ } else { "[ ]"@ }) + " "@
}

/// The prefix drawn before the title of a listed task.
pub fn item_prefix(t: &TaskRow) -> (r: String)
    ensures
        r@ == item_prefix_text(*t),
{
    let mut out = String::new();
    push_spaces(&mut out, t.level);
    push_spaces(&mut out, t.level);
    assert(out@ =~= spaces(2 * t.level as nat));
    if t.completed == 1 {
        out.append("[X]");
    } else {
        out.append("[ ]");
    }
    out.append(" ");
    assert(out@ =~= item_prefix_text(*t));
    out
}

/// How a listed task is drawn: highlighted when selected, dimmed and struck
/// through when completed, plain when pending.
#[derive(Clone, Copy, PartialEq, Eq, Structural)]
pub enum ItemLook {
    Selected,
    Done,
    Pending,
}

/// The look of the listed task at row `i` when row `selected` is selected.
pub open spec fn item_look_of(t: TaskRow, i: usize, selected: usize) -> ItemLook {
    if i == selected {
        ItemLook::Selected
    } else if t.completed == 1 {
        ItemLook::Done
    } else {
        ItemLook::Pending
    }
}

/// The look of the listed task `t` at row `i`, the selection being at row
/// `selected`.
pub fn item_look(t: &TaskRow, i: usize, selected: usize) -> (r: ItemLook)
    ensures
        r == item_look_of(*t, i, selected),
{
    if i == selected {
        ItemLook::Selected
    } else if t.completed == 1 {
        ItemLook::Done
    } else {
        ItemLook::Pending
    }
}

/// The title of the task panel in each mode.
pub open spec fn list_title_text(mode: AppMode) -> Seq<char> {
    match mode {
        AppMode::Normal => " Tasks (a: subtask, A: main task, r: rename, d: delete, x/space: toggle, q: quit) "@,
        AppMode::InputAdd(_) => " Add Task (Esc to cancel, Enter to save) "@,
        AppMode::InputRename(_) => " Rename Task (Esc to cancel, Enter to save) "@,
        AppMode::ConfirmDelete(_) => " CONFIRM DELETE? (y/n) All tasks and subtasks will be removed! "@,
        AppMode::ConfirmComplete(_) => " CONFIRM DONE? (y/n) All subtasks will be marked as done! "@,
        AppMode::Search => " Search / Filter (Enter to finish, Esc to clear) "@,
    }
}

/// The title of the task panel.
pub fn list_title(mode: AppMode) -> (r: String)
    ensures
        r@ == list_title_text(mode),
{
    let mut out = String::new();
    match mode {
        AppMode::Normal => out.append(" Tasks (a: subtask, A: main task, r: rename, d: delete, x/space: toggle, q: quit) "),
        AppMode::InputAdd(_) => out.append(" Add Task (Esc to cancel, Enter to save) "),
        AppMode::InputRename(_) => out.append(" Rename Task (Esc to cancel, Enter to save) "),
        AppMode::ConfirmDelete(_) => out.append(" CONFIRM DELETE? (y/n) All tasks and subtasks will be removed! "),
        AppMode::ConfirmComplete(_) => out.append(" CONFIRM DONE? (y/n) All subtasks will be marked as done! "),
        AppMode::Search => out.append(" Search / Filter (Enter to finish, Esc to clear) "),
    }
    out
}

/// The title of the lower panel in each mode.
pub open spec fn panel_title_text(mode: AppMode) -> Seq<char> {
    match mode {
        AppMode::Normal => " Legend "@,
        AppMode::InputAdd(_) => " New Task Title (Enter to save, Esc to cancel) "@,
        AppMode::InputRename(_) => " Rename Task (Enter to save, Esc to cancel) "@,
        AppMode::ConfirmDelete(_) => " Danger Zone "@,
        AppMode::ConfirmComplete(_) => " Bulk Action "@,
        AppMode::Search => " Search Query (Enter/Esc to finish) "@,
    }
}

/// The title of the lower panel.
pub fn panel_title(mode: AppMode) -> (r: String)
    ensures
        r@ == panel_title_text(mode),
{
    let mut out = String::new();
    match mode {
        AppMode::Normal => out.append(" Legend "),
        AppMode::InputAdd(_) => out.append(" New Task Title (Enter to save, Esc to cancel) "),
        AppMode::InputRename(_) => out.append(" Rename Task (Enter to save, Esc to cancel) "),
        AppMode::ConfirmDelete(_) => out.append(" Danger Zone "),
        AppMode::ConfirmComplete(_) => out.append(" Bulk Action "),
        AppMode::Search => out.append(" Search Query (Enter/Esc to finish) "),
    }
    out
}

/// The text of the lower panel: the edited text while typing, a warning
/// while confirming, and the key legend otherwise, with the current search
/// when there is one.
pub open spec fn panel_text_of(mode: AppMode, input: Seq<char>, search: Seq<char>) -> Seq<char> {
    match mode {
        AppMode::InputAdd(_) | AppMode::InputRename(_) | AppMode::Search => input,
        AppMode::ConfirmDelete(_) =>
            "   !!! WARNING: This will delete the task and ALL its nested subtasks. Press 'y' to confirm or 'n' to cancel. !!!"@,
        AppMode::ConfirmComplete(_) =>
            "   >>> MARK AS DONE? Press 'y' to confirm marking all subtasks as complete or 'n' to cancel. <<<"@,
        AppMode::Normal => if search.len() > 0 {
            " FILTER: '"@ + search + "' | Nav: j/k, gg/G | Delete: d | Search: / | Esc: Clear Filter "@
        } else {
            " Nav: j/k, gg/G | Subtask/Task: a/A | Rename: r | Delete: d | Toggle: x/Space | Search: / | Quit: q "@
        },
    }
}

/// The text of the lower panel, for the mode, the edited text and the
/// search.
pub fn panel_text(mode: AppMode, input: &str, search: &str) -> (r: String)
    ensures
        r@ == panel_text_of(mode, input@, search@),
{
    let mut out = String::new();
    match mode {
        AppMode::InputAdd(_) | AppMode::InputRename(_) | AppMode::Search => out.append(input),
        AppMode::ConfirmDelete(_) => out.append(
            "   !!! WARNING: This will delete the task and ALL its nested subtasks. Press 'y' to confirm or 'n' to cancel. !!!",
        ),
        AppMode::ConfirmComplete(_) => out.append(
            "   >>> MARK AS DONE? Press 'y' to confirm marking all subtasks as complete or 'n' to cancel. <<<",
        ),
        AppMode::Normal => {
            if search.unicode_len() > 0 {
                out.append(" FILTER: '");
                out.append(search);
                out.append("' | Nav: j/k, gg/G | Delete: d | Search: / | Esc: Clear Filter ");
            } else {
                out.append(" Nav: j/k, gg/G | Subtask/Task: a/A | Rename: r | Delete: d | Toggle: x/Space | Search: / | Quit: q ");
            }
        },
    }
    assert(out@ =~= panel_text_of(mode, input@, search@));
    out
}

} // verus!
