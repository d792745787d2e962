//! The state machine of the terminal interface: the listed rows, the
//! selection, the mode, the line editor and the search. A key press gives
//! the next state and what the table must undergo; the caller runs the
//! statements, reloads when asked, and draws.

use vstd::prelude::*;
use crate::model::{Task, TaskStore, ids_unique, index_of};
use crate::tree::{Row, listing, listing_rows, rows_valid};
use crate::search::{search_listing, search_listing_rows};
use crate::ops::{
    subtree_post, subtree_post_order, ancestors, ancestor_ids, has_child, has_children, parents_done,
    parents_to_complete, completions, completion_column, set_completions, all_children_done,
};
use crate::edit::{
    byte_len, boundary, insert_at, remove_at, char_width, byte_count, find_boundary, chars_of,
    string_of, vec_insert_at, vec_remove_at, width_of, lemma_edit_bytes, lemma_boundary_unique,
};

verus! {

/// One listed task: its id, title, completion and depth.
pub struct TaskRow {
    pub id: i32,
    pub title: String,
    pub completed: i32,
    pub level: usize,
}

/// What the interface is doing.
#[derive(Clone, Copy, PartialEq, Eq, Structural)]
pub enum AppMode {
    Normal,
    /// Typing the title of a new task, under the given parent.
    InputAdd(Option<i32>),
    /// Typing the new title of a task.
    InputRename(i32),
    /// Asking whether to delete a task and its subtree.
    ConfirmDelete(i32),
    /// Asking whether to complete a task and its subtree.
    ConfirmComplete(i32),
    /// Typing a search.
    Search,
}

/// A key press.
#[derive(Clone, Copy, PartialEq, Eq, Structural)]
pub enum Key {
    Char(char),
    Esc,
    Enter,
    Backspace,
    Delete,
    Left,
    Right,
    Up,
    Down,
    Home,
    End,
    Other,
}

/// One statement on the task table.
pub enum DbOp {
    /// `INSERT INTO tasks (list_id, parent_id, title) VALUES (1, parent, title)`
    Insert { parent: Option<i32>, title: String },
    /// `UPDATE tasks SET title = title WHERE id = id`
    Rename { id: i32, title: String },
    /// `UPDATE tasks SET completed = value WHERE id = id`
    SetCompleted { id: i32, value: i32 },
    /// `DELETE FROM tasks WHERE id = id`
    Delete { id: i32 },
    /// Completing, nearest first, each ancestor of `id` whose children are
    /// then all done, decided against the table as it stands when this
    /// statement runs: the caller reads the table and runs the statements
    /// of `parents_completion_ops`.
    CompleteParents { id: i32 },
}

/// The view of a statement.
pub enum OpView {
    Insert { parent: Option<i32>, title: Seq<char> },
    Rename { id: i32, title: Seq<char> },
    SetCompleted { id: i32, value: i32 },
    Delete { id: i32 },
    CompleteParents { id: i32 },
}

impl View for DbOp {
    type V = OpView;

    open spec fn view(&self) -> OpView {
        match self {
            DbOp::Insert { parent, title } => OpView::Insert { parent: *parent, title: title@ },
            DbOp::Rename { id, title } => OpView::Rename { id: *id, title: title@ },
            DbOp::SetCompleted { id, value } => OpView::SetCompleted { id: *id, value: *value },
            DbOp::Delete { id } => OpView::Delete { id: *id },
            DbOp::CompleteParents { id } => OpView::CompleteParents { id: *id },
        }
    }
}

/// What a key press asks of the caller: to quit, to run batches of
/// statements (each batch stops at its first failing statement, and the
/// failure is otherwise ignored), and to reload the listing afterwards.
pub struct KeyOutcome {
    pub quit: bool,
    pub batches: Vec<Vec<DbOp>>,
    pub reload: bool,
}

/// The view of an outcome.
pub struct OutcomeView {
    pub quit: bool,
    pub batches: Seq<Seq<OpView>>,
    pub reload: bool,
}

impl View for KeyOutcome {
    type V = OutcomeView;

    open spec fn view(&self) -> OutcomeView {
        OutcomeView {
            quit: self.quit,
            batches: self.batches@.map_values(|b: Vec<DbOp>| b@.map_values(|o: DbOp| o@)),
            reload: self.reload,
        }
    }
}

/// The state of the interface.
pub struct AppState {
    tasks: Vec<TaskRow>,
    selected: usize,
    list_selected: Option<usize>,
    mode: AppMode,
    input: Vec<char>,
    input_cursor: usize,
    search_query: Vec<char>,
    g_pressed: bool,
}

/// The view of the state.
pub struct AppView {
    pub tasks: Seq<TaskRow>,
    pub selected: usize,
    pub list_selected: Option<usize>,
    pub mode: AppMode,
    pub input: Seq<char>,
    pub cursor: usize,
    pub search: Seq<char>,
    pub g_pressed: bool,
}

impl View for AppState {
    type V = AppView;

    closed spec fn view(&self) -> AppView {
        AppView {
            tasks: self.tasks@,
            selected: self.selected,
            list_selected: self.list_selected,
            mode: self.mode,
            input: self.input@,
            cursor: self.input_cursor,
            search: self.search_query@,
            g_pressed: self.g_pressed,
        }
    }
}

/// A state that the interface can be in: the selection is on a row when
/// there are rows, and the edited text fits in a `String`.
pub open spec fn view_wf(v: AppView) -> bool {
    &&& v.tasks.len() > 0 ==> v.selected < v.tasks.len()
    &&& byte_len(v.input) <= isize::MAX
}

/// The listed row of a table row.
pub open spec fn row_of(s: Seq<Task>, r: Row) -> TaskRow {
    TaskRow {
        id: s[r.index as int].id,
        title: s[r.index as int].title,
        completed: s[r.index as int].completed,
        level: r.level,
    }
}

/// The state after a reload from table `s` with the matching ids `m` of the
/// current search: all reachable tasks when there is no search, else the
/// filtered listing; the selection is moved onto the last row when it is
/// past the end.
pub open spec fn reload_view(v: AppView, s: Seq<Task>, m: Set<i32>) -> AppView {
    let rows = if v.search.len() == 0 { listing(s) } else { search_listing(s, m) };
    let tasks = rows.map_values(|r: Row| row_of(s, r));
    let sel = if v.selected >= tasks.len() && tasks.len() > 0 { (tasks.len() - 1) as usize } else { v.selected };
    AppView {
        tasks,
        selected: sel,
        list_selected: if tasks.len() > 0 { Some(sel) } else { None },
        ..v
    }
}

/// Selection moved one row down, wrapping around.
pub open spec fn next_view(v: AppView) -> AppView {
    if v.tasks.len() > 0 {
        let sel = ((v.selected + 1) % (v.tasks.len() as int)) as usize;
        AppView { selected: sel, list_selected: Some(sel), ..v }
    } else {
        v
    }
}

/// Selection moved one row up, wrapping around.
pub open spec fn previous_view(v: AppView) -> AppView {
    if v.tasks.len() > 0 {
        let sel = if v.selected == 0 { (v.tasks.len() - 1) as usize } else { (v.selected - 1) as usize };
        AppView { selected: sel, list_selected: Some(sel), ..v }
    } else {
        v
    }
}

/// Keys that edit the line: characters, deletions and cursor moves.
pub open spec fn is_edit_key(key: Key) -> bool {
    ||| key is Char
    ||| key is Backspace
    ||| key is Delete
    ||| key is Left
    ||| key is Right
    ||| key is Home
    ||| key is End
}

/// An edit on which `String` panics: inserting at an offset that is not a
/// character boundary (or past the length the string can hold), removing at
/// one that is not a boundary or at the end.
pub open spec fn edit_panics(input: Seq<char>, cursor: usize, key: Key) -> bool {
    match key {
        Key::Char(c) => boundary(input, cursor as int) is None || byte_len(input) + char_width(c)
            > isize::MAX,
        Key::Backspace => cursor > 0 && (boundary(input, cursor - 1) is None || boundary(input, cursor - 1)
            == Some(input.len() as int)),
        Key::Delete => cursor < byte_len(input) && boundary(input, cursor as int) is None,
        _ => false,
    }
}

/// The text after an edit: a character inserted at the cursor, the one
/// before the cursor removed, or the one at the cursor removed.
pub open spec fn edit_text(input: Seq<char>, cursor: usize, key: Key) -> Seq<char> {
    match key {
        Key::Char(c) => insert_at(input, boundary(input, cursor as int).unwrap(), c),
        Key::Backspace => if cursor > 0 {
            remove_at(input, boundary(input, cursor - 1).unwrap())
        } else {
            input
        },
        Key::Delete => if cursor < byte_len(input) {
            remove_at(input, boundary(input, cursor as int).unwrap())
        } else {
            input
        },
        _ => input,
    }
}

/// The cursor after an edit; it moves by one byte at a time.
pub open spec fn edit_cursor(input: Seq<char>, cursor: usize, key: Key) -> usize {
    match key {
        Key::Char(_) => (cursor + 1) as usize,
        Key::Backspace => if cursor > 0 { (cursor - 1) as usize } else { cursor },
        Key::Left => if cursor > 0 { (cursor - 1) as usize } else { cursor },
        Key::Right => if cursor < byte_len(input) { (cursor + 1) as usize } else { cursor },
        Key::Home => 0,
        Key::End => byte_len(input) as usize,
        _ => cursor,
    }
}

/// Whether an edit changes the text.
pub open spec fn edit_changes_text(input: Seq<char>, cursor: usize, key: Key) -> bool {
    match key {
        Key::Char(_) => true,
        Key::Backspace => cursor > 0,
        Key::Delete => cursor < byte_len(input),
        _ => false,
    }
}

/// A key press that the interface cannot take: an edit on which `String`
/// panics, or renaming a task whose title is longer than a `String` can be.
pub open spec fn key_refused(v: AppView, key: Key) -> bool {
    match v.mode {
        AppMode::Normal => key == Key::Char('r') && v.tasks.len() > 0 && byte_len(
            v.tasks[v.selected as int].title@,
        ) > isize::MAX,
        AppMode::InputAdd(_) => is_edit_key(key) && edit_panics(v.input, v.cursor, key),
        AppMode::InputRename(_) => is_edit_key(key) && edit_panics(v.input, v.cursor, key),
        AppMode::Search => is_edit_key(key) && edit_panics(v.input, v.cursor, key),
        _ => false,
    }
}

/// Every character of `s` is ASCII, one byte long.
pub open spec fn is_ascii_text(s: Seq<char>) -> bool {
    forall|i: int| 0 <= i < s.len() ==> (#[trigger] s[i] as u32) < 0x80
}

proof fn lemma_ascii_bytes(s: Seq<char>)
    requires
        is_ascii_text(s),
    ensures
        byte_len(s) == s.len(),
        forall|k: int| 0 <= k <= s.len() ==> byte_len(#[trigger] s.take(k)) == k,
    decreases s.len(),
{
    if s.len() > 0 {
        let t = s.drop_last();
        assert(is_ascii_text(t)) by {
            assert forall|i: int| 0 <= i < t.len() implies (#[trigger] t[i] as u32) < 0x80 by {
                assert(t[i] == s[i]);
            }
        }
        lemma_ascii_bytes(t);
        assert((s.last() as u32) < 0x80) by {
            assert(s[s.len() - 1] == s.last());
        }
        assert forall|k: int| 0 <= k <= s.len() implies byte_len(#[trigger] s.take(k)) == k by {
            if k < s.len() {
                assert(s.take(k) =~= t.take(k));
            } else {
                assert(s.take(k) =~= s);
            }
        }
    } else {
        assert forall|k: int| 0 <= k <= s.len() implies byte_len(#[trigger] s.take(k)) == k by {
            assert(s.take(k) =~= Seq::<char>::empty());
        }
    }
}

proof fn lemma_ascii_boundary(s: Seq<char>, b: int)
    requires
        is_ascii_text(s),
        0 <= b <= s.len(),
    ensures
        boundary(s, b) == Some(b),
{
    lemma_ascii_bytes(s);
    assert(byte_len(s.take(b)) == b);
    lemma_boundary_unique(s, b);
}

/// Law of the line editor on ASCII text: byte offsets are character
/// positions, no edit panics, and each key is the plain character edit: a
/// typed character goes in at the cursor, Backspace removes the character
/// before it, Delete the one at it, Left and Right move by one within the
/// text, Home and End go to its ends; the cursor stays within the text and
/// the text stays ASCII.
pub proof fn lemma_ascii_edits(input: Seq<char>, cursor: usize, key: Key)
    requires
        is_ascii_text(input),
        cursor <= input.len(),
        input.len() < isize::MAX,
        is_edit_key(key),
        key matches Key::Char(c) ==> (c as u32) < 0x80,
    ensures
        !edit_panics(input, cursor, key),
        edit_text(input, cursor, key) == match key {
            Key::Char(c) => input.take(cursor as int).push(c) + input.skip(cursor as int),
            Key::Backspace => if cursor > 0 {
                input.take(cursor - 1) + input.skip(cursor as int)
            } else {
                input
            },
            Key::Delete => if cursor < input.len() {
                input.take(cursor as int) + input.skip(cursor + 1)
            } else {
                input
            },
            _ => input,
        },
        edit_cursor(input, cursor, key) == match key {
            Key::Char(_) => cursor + 1,
            Key::Backspace => if cursor > 0 { cursor - 1 } else { cursor as int },
            Key::Left => if cursor > 0 { cursor - 1 } else { cursor as int },
            Key::Right => if cursor < input.len() { cursor + 1 } else { cursor as int },
            Key::Home => 0,
            Key::End => input.len() as int,
            _ => cursor as int,
        },
        is_ascii_text(edit_text(input, cursor, key)),
        edit_cursor(input, cursor, key) <= edit_text(input, cursor, key).len(),
{
    lemma_ascii_bytes(input);
    lemma_ascii_boundary(input, cursor as int);
    if cursor > 0 {
        lemma_ascii_boundary(input, cursor - 1);
    }
    let out = edit_text(input, cursor, key);
    match key {
        Key::Char(c) => {
            assert(char_width(c) == 1);
            let a = input.take(cursor as int).push(c) + input.skip(cursor as int);
            assert(out == a);
            assert forall|i: int| 0 <= i < a.len() implies (#[trigger] a[i] as u32) < 0x80 by {
                if i < cursor {
                    assert(a[i] == input[i]);
                } else if i > cursor {
                    assert(a[i] == input[i - 1]);
                }
            }
        },
        Key::Backspace => {
            if cursor > 0 {
                let a = input.take(cursor - 1) + input.skip(cursor as int);
                assert forall|i: int| 0 <= i < a.len() implies (#[trigger] a[i] as u32) < 0x80 by {
                    if i < cursor - 1 {
                        assert(a[i] == input[i]);
                    } else {
                        assert(a[i] == input[i + 1]);
                    }
                }
            }
        },
        Key::Delete => {
            if cursor < input.len() {
                let a = input.take(cursor as int) + input.skip(cursor + 1);
                assert forall|i: int| 0 <= i < a.len() implies (#[trigger] a[i] as u32) < 0x80 by {
                    if i < cursor {
                        assert(a[i] == input[i]);
                    } else {
                        assert(a[i] == input[i + 1]);
                    }
                }
            }
        },
        _ => {},
    }
}

/// Nothing to do.
pub open spec fn no_outcome() -> OutcomeView {
    OutcomeView { quit: false, batches: seq![], reload: false }
}

/// Quit.
pub open spec fn quit_outcome() -> OutcomeView {
    OutcomeView { quit: true, batches: seq![], reload: false }
}

/// Run `batches`, then reload.
pub open spec fn run_outcome(batches: Seq<Seq<OpView>>) -> OutcomeView {
    OutcomeView { quit: false, batches, reload: true }
}

/// Setting the completion of each of `ids` to `v`.
pub open spec fn set_ops(ids: Seq<i32>, v: i32) -> Seq<OpView> {
    ids.map_values(|id: i32| OpView::SetCompleted { id, value: v })
}

/// Deleting each of `ids`.
pub open spec fn delete_ops(ids: Seq<i32>) -> Seq<OpView> {
    ids.map_values(|id: i32| OpView::Delete { id })
}

/// Toggling the selected task `t` against table `s`: undoing it marks its
/// ancestors undone; completing one with children asks first; completing
/// one without then completes each ancestor whose children are all done,
/// decided once the first batch has run.
pub open spec fn toggle_step(v: AppView, t: TaskRow, s: Seq<Task>) -> (AppView, OutcomeView) {
    if t.completed == 1 {
        (v, run_outcome(seq![seq![OpView::SetCompleted { id: t.id, value: 0 }], set_ops(ancestors(s, t.id, s.len()), 0)]))
    } else if has_child(s, t.id) {
        (AppView { mode: AppMode::ConfirmComplete(t.id), ..v }, no_outcome())
    } else {
        (v, run_outcome(seq![
            seq![OpView::SetCompleted { id: t.id, value: 1 }],
            seq![OpView::CompleteParents { id: t.id }],
        ]))
    }
}

/// A key in normal mode.
pub open spec fn normal_step(v: AppView, key: Key, s: Seq<Task>) -> (AppView, OutcomeView) {
    let v0 = AppView { g_pressed: false, ..v };
    let has = v.tasks.len() > 0;
    if key == Key::Char('q') {
        (v, quit_outcome())
    } else if key == Key::Esc {
        if v.search.len() > 0 {
            (AppView { search: seq![], ..v0 }, run_outcome(seq![]))
        } else {
            (v0, quit_outcome())
        }
    } else if key == Key::Char('j') || key == Key::Down {
        (next_view(v0), no_outcome())
    } else if key == Key::Char('k') || key == Key::Up {
        (previous_view(v0), no_outcome())
    } else if key == Key::Char('g') {
        if v.g_pressed {
            if has {
                (AppView { selected: 0, list_selected: Some(0), ..v0 }, no_outcome())
            } else {
                (v0, no_outcome())
            }
        } else {
            (AppView { g_pressed: true, ..v }, no_outcome())
        }
    } else if key == Key::Char('G') {
        if has {
            let sel = (v.tasks.len() - 1) as usize;
            (AppView { selected: sel, list_selected: Some(sel), ..v0 }, no_outcome())
        } else {
            (v0, no_outcome())
        }
    } else if key == Key::Char('/') {
        (AppView { mode: AppMode::Search, input: seq![], cursor: 0, ..v0 }, no_outcome())
    } else if key == Key::Char('a') {
        if has {
            (AppView {
                mode: AppMode::InputAdd(Some(v.tasks[v.selected as int].id)),
                input: seq![],
                cursor: 0,
                ..v0
            }, no_outcome())
        } else {
            (v0, no_outcome())
        }
    } else if key == Key::Char('A') {
        (AppView { mode: AppMode::InputAdd(None), input: seq![], cursor: 0, ..v0 }, no_outcome())
    } else if key == Key::Char('r') {
        if has {
            let t = v.tasks[v.selected as int];
            (AppView {
                mode: AppMode::InputRename(t.id),
                input: t.title@,
                cursor: byte_len(t.title@) as usize,
                ..v0
            }, no_outcome())
        } else {
            (v0, no_outcome())
        }
    } else if key == Key::Char('d') || key == Key::Delete {
        if has {
            (AppView { mode: AppMode::ConfirmDelete(v.tasks[v.selected as int].id), ..v0 }, no_outcome())
        } else {
            (v0, no_outcome())
        }
    } else if key == Key::Char('x') || key == Key::Char(' ') {
        if has {
            toggle_step(v0, v.tasks[v.selected as int], s)
        } else {
            (v0, no_outcome())
        }
    } else {
        (v, no_outcome())
    }
}

/// A key while typing a title: Enter saves a non-empty text (a new task,
/// whose parent's ancestors become undone, or a new title) and goes back to
/// normal mode; Esc goes back without saving; editing keys edit.
pub open spec fn input_step(v: AppView, key: Key, s: Seq<Task>) -> (AppView, OutcomeView) {
    let back = AppView { mode: AppMode::Normal, cursor: 0, ..v };
    if key == Key::Enter {
        let batches = if v.input.len() > 0 {
            match v.mode {
                AppMode::InputAdd(p) => seq![seq![OpView::Insert { parent: p, title: v.input }]] + match p {
                    Some(pid) => seq![set_ops(ancestors(s, pid, s.len()), 0)],
                    None => seq![],
                },
                AppMode::InputRename(id) => seq![seq![OpView::Rename { id, title: v.input }]],
                _ => seq![],
            }
        } else {
            seq![]
        };
        (back, run_outcome(batches))
    } else if key == Key::Esc {
        (back, no_outcome())
    } else if is_edit_key(key) {
        (AppView {
            input: edit_text(v.input, v.cursor, key),
            cursor: edit_cursor(v.input, v.cursor, key),
            ..v
        }, no_outcome())
    } else {
        (v, no_outcome())
    }
}

/// A key while confirming: `y` deletes (or completes) the task with its
/// subtree, completion then rising to the ancestors whose children are all
/// done; `n` or Esc cancels.
pub open spec fn confirm_step(v: AppView, key: Key, s: Seq<Task>) -> (AppView, OutcomeView) {
    let back = AppView { mode: AppMode::Normal, ..v };
    if key == Key::Char('y') || key == Key::Char('Y') {
        match v.mode {
            AppMode::ConfirmDelete(id) => (back, run_outcome(seq![delete_ops(subtree_post(s, id, s.len()))])),
            AppMode::ConfirmComplete(id) => {
                (back, run_outcome(seq![
                    set_ops(subtree_post(s, id, s.len()), 1),
                    seq![OpView::CompleteParents { id }],
                ]))
            },
            _ => (v, no_outcome()),
        }
    } else if key == Key::Char('n') || key == Key::Char('N') || key == Key::Esc {
        (back, no_outcome())
    } else {
        (v, no_outcome())
    }
}

/// A key while searching: Enter or Esc keeps the typed text as the search
/// and goes back to normal mode; an edit that changes the text searches for
/// it at once.
pub open spec fn search_step(v: AppView, key: Key) -> (AppView, OutcomeView) {
    if key == Key::Enter || key == Key::Esc {
        (AppView { mode: AppMode::Normal, search: v.input, input: seq![], cursor: 0, ..v }, run_outcome(seq![]))
    } else if is_edit_key(key) {
        let inp = edit_text(v.input, v.cursor, key);
        let cur = edit_cursor(v.input, v.cursor, key);
        if edit_changes_text(v.input, v.cursor, key) {
            (AppView { input: inp, cursor: cur, search: inp, ..v }, run_outcome(seq![]))
        } else {
            (AppView { input: inp, cursor: cur, ..v }, no_outcome())
        }
    } else {
        (v, no_outcome())
    }
}

/// The effect of a key press in state `v`, against table `s`.
pub open spec fn transition(v: AppView, key: Key, s: Seq<Task>) -> (AppView, OutcomeView) {
    match v.mode {
        AppMode::Normal => normal_step(v, key, s),
        AppMode::InputAdd(_) => input_step(v, key, s),
        AppMode::InputRename(_) => input_step(v, key, s),
        AppMode::ConfirmDelete(_) => confirm_step(v, key, s),
        AppMode::ConfirmComplete(_) => confirm_step(v, key, s),
        AppMode::Search => search_step(v, key),
    }
}

/// The highlighted row of the drawn list is the selected row, and nothing
/// is highlighted when nothing is listed.
pub open spec fn selection_shown(v: AppView) -> bool {
    v.list_selected == (if v.tasks.len() > 0 { Some(v.selected) } else { None::<usize> })
}

/// Law of the highlight: every key press, and every reload, keeps the
/// highlighted row on the selection (a reload that fails empties the list
/// and leaves the highlight as it was, as the interface always did).
pub proof fn lemma_selection_shown_kept(v: AppView, key: Key, s: Seq<Task>, m: Set<i32>)
    requires
        view_wf(v),
        selection_shown(v),
    ensures
        selection_shown(transition(v, key, s).0),
        selection_shown(reload_view(v, s, m)),
{
    match v.mode {
        AppMode::Normal => {
            let v0 = AppView { g_pressed: false, ..v };
            assert(selection_shown(v0));
            if v.tasks.len() > 0 {
                assert(selection_shown(toggle_step(v0, v.tasks[v.selected as int], s).0));
            }
        },
        _ => {},
    }
}

/// Law of completing a task with subtasks: in normal mode, `x` (or space) on
/// a pending task that has children only asks; then `y` completes the task
/// and its whole subtree, children first, and afterwards the ancestors whose
/// children are then all done; `n` or Esc gives up; any other key keeps
/// asking; nothing else is run.
pub proof fn lemma_complete_subtree_keys(v: AppView, key: Key, answer: Key, s: Seq<Task>)
    requires
        view_wf(v),
        v.mode == AppMode::Normal,
        v.tasks.len() > 0,
        v.tasks[v.selected as int].completed != 1,
        has_child(s, v.tasks[v.selected as int].id),
        key == Key::Char('x') || key == Key::Char(' '),
    ensures
        ({
            let id = v.tasks[v.selected as int].id;
            let (v1, o1) = transition(v, key, s);
            let (v2, o2) = transition(v1, answer, s);
            &&& v1.mode == AppMode::ConfirmComplete(id)
            &&& o1 == no_outcome()
            &&& (answer == Key::Char('y') || answer == Key::Char('Y')) ==> v2.mode == AppMode::Normal && o2
                == run_outcome(seq![set_ops(subtree_post(s, id, s.len()), 1), seq![OpView::CompleteParents { id }]])
            &&& (answer == Key::Char('n') || answer == Key::Char('N') || answer == Key::Esc) ==> v2.mode
                == AppMode::Normal && o2 == no_outcome()
            &&& !(answer == Key::Char('y') || answer == Key::Char('Y') || answer == Key::Char('n') || answer
                == Key::Char('N') || answer == Key::Esc) ==> v2 == v1 && o2 == no_outcome()
        }),
{
}

/// Law of deleting a task: in normal mode, `d` (or Delete) on a listed task
/// only asks; then `y` deletes the task and its whole subtree, children
/// first; `n` or Esc gives up; any other key keeps asking.
pub proof fn lemma_delete_subtree_keys(v: AppView, key: Key, answer: Key, s: Seq<Task>)
    requires
        view_wf(v),
        v.mode == AppMode::Normal,
        v.tasks.len() > 0,
        key == Key::Char('d') || key == Key::Delete,
    ensures
        ({
            let id = v.tasks[v.selected as int].id;
            let (v1, o1) = transition(v, key, s);
            let (v2, o2) = transition(v1, answer, s);
            &&& v1.mode == AppMode::ConfirmDelete(id)
            &&& o1 == no_outcome()
            &&& (answer == Key::Char('y') || answer == Key::Char('Y')) ==> v2.mode == AppMode::Normal && o2
                == run_outcome(seq![delete_ops(subtree_post(s, id, s.len()))])
            &&& (answer == Key::Char('n') || answer == Key::Char('N') || answer == Key::Esc) ==> v2.mode
                == AppMode::Normal && o2 == no_outcome()
            &&& !(answer == Key::Char('y') || answer == Key::Char('Y') || answer == Key::Char('n') || answer
                == Key::Char('N') || answer == Key::Esc) ==> v2 == v1 && o2 == no_outcome()
        }),
{
}

/// A statement deletes a task.
pub open spec fn deletes(o: OpView) -> bool {
    o is Delete
}

/// Law of deletion: the only key press that deletes anything is `y` (or
/// `Y`) while confirming a deletion.
pub proof fn lemma_only_confirmed_delete(v: AppView, key: Key, s: Seq<Task>, i: int, j: int)
    requires
        0 <= i < transition(v, key, s).1.batches.len(),
        0 <= j < transition(v, key, s).1.batches[i].len(),
        deletes(transition(v, key, s).1.batches[i][j]),
    ensures
        v.mode is ConfirmDelete,
        key == Key::Char('y') || key == Key::Char('Y'),
{
    let o = transition(v, key, s).1;
    match v.mode {
        AppMode::Normal => {
            if v.tasks.len() > 0 && (key == Key::Char('x') || key == Key::Char(' ')) {
                let t = v.tasks[v.selected as int];
                if t.completed == 1 {
                    let b = set_ops(ancestors(s, t.id, s.len()), 0);
                    if i == 1 {
                        assert(b[j] == OpView::SetCompleted { id: ancestors(s, t.id, s.len())[j], value: 0 });
                    }
                }
            }
        },
        AppMode::InputAdd(p) => {
            if key == Key::Enter && v.input.len() > 0 {
                if let Some(pid) = p {
                    let b = set_ops(ancestors(s, pid, s.len()), 0);
                    if i == 1 {
                        assert(b[j] == OpView::SetCompleted { id: ancestors(s, pid, s.len())[j], value: 0 });
                    }
                }
            }
        },
        AppMode::ConfirmComplete(id) => {
            if key == Key::Char('y') || key == Key::Char('Y') {
                let post = subtree_post(s, id, s.len());
                if i == 0 {
                    assert(set_ops(post, 1)[j] == OpView::SetCompleted { id: post[j], value: 1 });
                }
            }
        },
        _ => {},
    }
}


/// Law of adding tasks: in normal mode, `A` starts typing a new top-level
/// task, whatever the rows and the selection, and `a` a subtask of the
/// selected task (nothing when no task is listed); either starts from an
/// empty line with the cursor at 0, keeps the rows and the selection, and
/// runs nothing yet.
pub proof fn lemma_add_keys(v: AppView, s: Seq<Task>)
    requires
        v.mode == AppMode::Normal,
    ensures
        ({
            let (v1, o1) = transition(v, Key::Char('A'), s);
            &&& v1.mode == AppMode::InputAdd(None)
            &&& v1.input.len() == 0
            &&& v1.cursor == 0
            &&& v1.tasks == v.tasks
            &&& v1.selected == v.selected
            &&& v1.search == v.search
            &&& o1 == no_outcome()
        }),
        ({
            let (v1, o1) = transition(v, Key::Char('a'), s);
            &&& v.tasks.len() > 0 ==> v1.mode == AppMode::InputAdd(Some(v.tasks[v.selected as int].id))
                && v1.input.len() == 0 && v1.cursor == 0
            &&& v.tasks.len() == 0 ==> v1.mode == AppMode::Normal
            &&& v1.tasks == v.tasks
            &&& v1.selected == v.selected
            &&& o1 == no_outcome()
        }),
{
}

/// Law of saving a new task: Enter with a non-empty line inserts exactly
/// one task, under the parent chosen when typing began (none for a
/// top-level task), with the typed text as its title; for a subtask the
/// parent's ancestors are then marked undone. An empty line inserts
/// nothing. Either way typing ends.
pub proof fn lemma_add_enter(v: AppView, s: Seq<Task>, p: Option<i32>)
    requires
        v.mode == AppMode::InputAdd(p),
    ensures
        ({
            let (v1, o1) = transition(v, Key::Enter, s);
            &&& v1.mode == AppMode::Normal
            &&& o1.reload
            &&& !o1.quit
            &&& v.input.len() == 0 ==> o1.batches.len() == 0
            &&& v.input.len() > 0 ==> o1.batches[0] == seq![OpView::Insert { parent: p, title: v.input }]
            &&& v.input.len() > 0 && p is None ==> o1.batches.len() == 1
            &&& v.input.len() > 0 && p is Some ==> o1.batches.len() == 2 && o1.batches[1] == set_ops(
                ancestors(s, p.unwrap(), s.len()),
                0,
            )
        }),
{
}

/// Law of navigation: moving down then up, or up then down, comes back to
/// the same row.
pub proof fn lemma_next_previous_inverse(v: AppView)
    requires
        view_wf(v),
        v.tasks.len() <= usize::MAX,
    ensures
        previous_view(next_view(v)).selected == v.selected,
        next_view(previous_view(v)).selected == v.selected,
{
    if v.tasks.len() > 0 {
        let n = v.tasks.len() as int;
        if v.selected + 1 < n {
            vstd::arithmetic::div_mod::lemma_small_mod((v.selected + 1) as nat, n as nat);
        } else {
            vstd::arithmetic::div_mod::lemma_mod_self_0(n);
        }
        if v.selected == 0 {
            vstd::arithmetic::div_mod::lemma_mod_self_0(n);
        } else {
            vstd::arithmetic::div_mod::lemma_small_mod(v.selected as nat, n as nat);
        }
    }
}

impl AppState {
    pub open spec fn wf(&self) -> bool {
        view_wf(self@)
    }

    fn rows_to_tasks(tasks: &Vec<Task>, rows: &Vec<Row>) -> (r: Vec<TaskRow>)
        requires
            rows_valid(tasks@, rows@),
        ensures
            r@ == rows@.map_values(|x: Row| row_of(tasks@, x)),
    {
        let mut out: Vec<TaskRow> = Vec::new();
        let mut i: usize = 0;
        while i < rows.len()
            invariant
                i <= rows@.len(),
                rows_valid(tasks@, rows@),
                out@ =~= rows@.map_values(|x: Row| row_of(tasks@, x)).take(i as int),
            decreases rows@.len() - i,
        {
            let r = rows[i];
            assert(r.index < tasks@.len());
            let t = &tasks[r.index];
            out.push(TaskRow { id: t.id, title: t.title.clone(), completed: t.completed, level: r.level });
            i = i + 1;
        }
        assert(rows@.map_values(|x: Row| row_of(tasks@, x)).take(rows@.len() as int) =~= rows@.map_values(
            |x: Row| row_of(tasks@, x),
        ));
        out
    }

    /// Relists the table `store`; `matches` are the ids whose
    /// title matches the current search (unused when there is none).
    pub fn reload(&mut self, store: &TaskStore, matches: &Vec<i32>)
        requires
            old(self).wf(),
        ensures
            final(self).wf(),
            final(self)@ == reload_view(old(self)@, store@, matches@.to_set()),
    {
        let tasks = store.tasks();
        let rows = if self.search_query.len() == 0 {
            listing_rows(store)
        } else {
            search_listing_rows(store, matches)
        };
        self.tasks = Self::rows_to_tasks(tasks, &rows);
        if self.selected >= self.tasks.len() && self.tasks.len() > 0 {
            self.selected = self.tasks.len() - 1;
        }
        if self.tasks.len() > 0 {
            self.list_selected = Some(self.selected);
        } else {
            self.list_selected = None;
        }
        assert(self@ =~= reload_view(old(self)@, store@, matches@.to_set()));
    }

    /// A reload that failed part way: the listing is left empty, nothing
    /// else changes.
    pub fn reload_failed(&mut self)
        requires
            old(self).wf(),
        ensures
            final(self).wf(),
            final(self)@ == (AppView { tasks: seq![], ..old(self)@ }),
    {
        self.tasks = Vec::new();
        assert(self@ =~= (AppView { tasks: seq![], ..old(self)@ }));
    }

    /// The starting state: normal mode, nothing typed, no search, the first row
    /// selected, listing the table.
    pub fn new(store: &TaskStore) -> (r: AppState)
        ensures
            r.wf(),
            r@ == reload_view(
                AppView {
                    tasks: seq![],
                    selected: 0,
                    list_selected: None,
                    mode: AppMode::Normal,
                    input: seq![],
                    cursor: 0,
                    search: seq![],
                    g_pressed: false,
                },
                store@,
                Set::empty(),
            ),
    {
        let mut app = AppState {
            tasks: Vec::new(),
            selected: 0,
            list_selected: None,
            mode: AppMode::Normal,
            input: Vec::new(),
            input_cursor: 0,
            search_query: Vec::new(),
            g_pressed: false,
        };
        let empty: Vec<i32> = Vec::new();
        assert(byte_len(app.input@) == 0);
        app.reload(store, &empty);
        assert(empty@.to_set() =~= Set::<i32>::empty());
        app
    }

    /// Moves the selection one row down, wrapping around.
    pub fn next(&mut self)
        requires
            old(self).wf(),
        ensures
            final(self).wf(),
            final(self)@ == next_view(old(self)@),
    {
        if self.tasks.len() > 0 {
            self.selected = (self.selected + 1) % self.tasks.len();
            self.list_selected = Some(self.selected);
        }
        assert(self@ =~= next_view(old(self)@));
    }

    /// Moves the selection one row up, wrapping around.
    pub fn previous(&mut self)
        requires
            old(self).wf(),
        ensures
            final(self).wf(),
            final(self)@ == previous_view(old(self)@),
    {
        if self.tasks.len() > 0 {
            if self.selected == 0 {
                self.selected = self.tasks.len() - 1;
            } else {
                self.selected = self.selected - 1;
            }
            self.list_selected = Some(self.selected);
        }
        assert(self@ =~= previous_view(old(self)@));
    }

    /// The listed rows.
    pub fn tasks(&self) -> (r: &Vec<TaskRow>)
        ensures
            r@ == self@.tasks,
    {
        &self.tasks
    }

    /// The selected row index.
    pub fn selected(&self) -> (r: usize)
        ensures
            r == self@.selected,
    {
        self.selected
    }

    /// The row highlighted in the list widget.
    pub fn list_selected(&self) -> (r: Option<usize>)
        ensures
            r == self@.list_selected,
    {
        self.list_selected
    }

    /// The mode.
    pub fn mode(&self) -> (r: AppMode)
        ensures
            r == self@.mode,
    {
        self.mode
    }

    /// The edited text.
    pub fn input_text(&self) -> (r: String)
        ensures
            r@ == self@.input,
    {
        string_of(&self.input)
    }

    /// The cursor, a byte offset into the edited text.
    pub fn input_cursor(&self) -> (r: usize)
        ensures
            r == self@.cursor,
    {
        self.input_cursor
    }

    /// The current search (empty when there is none).
    pub fn search_text(&self) -> (r: String)
        ensures
            r@ == self@.search,
    {
        string_of(&self.search_query)
    }
}


fn set_ops_of(ids: &Vec<i32>, v: i32) -> (r: Vec<DbOp>)
    ensures
        r@.map_values(|o: DbOp| o@) == set_ops(ids@, v),
{
    let mut out: Vec<DbOp> = Vec::new();
    let mut i: usize = 0;
    while i < ids.len()
        invariant
            i <= ids@.len(),
            out@.map_values(|o: DbOp| o@) =~= set_ops(ids@, v).take(i as int),
        decreases ids@.len() - i,
    {
        let ghost before = out@.map_values(|o: DbOp| o@);
        out.push(DbOp::SetCompleted { id: ids[i], value: v });
        assert(out@.map_values(|o: DbOp| o@) =~= before.push(OpView::SetCompleted { id: ids@[i as int], value: v }));
        i = i + 1;
    }
    assert(set_ops(ids@, v).take(ids@.len() as int) =~= set_ops(ids@, v));
    out
}

fn delete_ops_of(ids: &Vec<i32>) -> (r: Vec<DbOp>)
    ensures
        r@.map_values(|o: DbOp| o@) == delete_ops(ids@),
{
    let mut out: Vec<DbOp> = Vec::new();
    let mut i: usize = 0;
    while i < ids.len()
        invariant
            i <= ids@.len(),
            out@.map_values(|o: DbOp| o@) =~= delete_ops(ids@).take(i as int),
        decreases ids@.len() - i,
    {
        let ghost before = out@.map_values(|o: DbOp| o@);
        out.push(DbOp::Delete { id: ids[i] });
        assert(out@.map_values(|o: DbOp| o@) =~= before.push(OpView::Delete { id: ids@[i as int] }));
        i = i + 1;
    }
    assert(delete_ops(ids@).take(ids@.len() as int) =~= delete_ops(ids@));
    out
}

fn no_op() -> (r: KeyOutcome)
    ensures
        r@ == no_outcome(),
{
    let r = KeyOutcome { quit: false, batches: Vec::new(), reload: false };
    assert(r.batches@.map_values(|b: Vec<DbOp>| b@.map_values(|o: DbOp| o@)) =~= Seq::<Seq<OpView>>::empty());
    assert(r@ =~= no_outcome());
    r
}

fn quit_op() -> (r: KeyOutcome)
    ensures
        r@ == quit_outcome(),
{
    let r = KeyOutcome { quit: true, batches: Vec::new(), reload: false };
    assert(r.batches@.map_values(|b: Vec<DbOp>| b@.map_values(|o: DbOp| o@)) =~= Seq::<Seq<OpView>>::empty());
    assert(r@ =~= quit_outcome());
    r
}

fn run_op(batches: Vec<Vec<DbOp>>) -> (r: KeyOutcome)
    ensures
        r@ == run_outcome(batches@.map_values(|b: Vec<DbOp>| b@.map_values(|o: DbOp| o@))),
{
    KeyOutcome { quit: false, batches, reload: true }
}

fn two_batches(a: Vec<DbOp>, b: Vec<DbOp>) -> (r: Vec<Vec<DbOp>>)
    ensures
        r@.map_values(|x: Vec<DbOp>| x@.map_values(|o: DbOp| o@)) == seq![
            a@.map_values(|o: DbOp| o@),
            b@.map_values(|o: DbOp| o@),
        ],
{
    let mut r: Vec<Vec<DbOp>> = Vec::new();
    r.push(a);
    r.push(b);
    assert(r@.map_values(|x: Vec<DbOp>| x@.map_values(|o: DbOp| o@)) =~= seq![
        a@.map_values(|o: DbOp| o@),
        b@.map_values(|o: DbOp| o@),
    ]);
    r
}

fn one_batch(a: Vec<DbOp>) -> (r: Vec<Vec<DbOp>>)
    ensures
        r@.map_values(|x: Vec<DbOp>| x@.map_values(|o: DbOp| o@)) == seq![a@.map_values(|o: DbOp| o@)],
{
    let mut r: Vec<Vec<DbOp>> = Vec::new();
    r.push(a);
    assert(r@.map_values(|x: Vec<DbOp>| x@.map_values(|o: DbOp| o@)) =~= seq![a@.map_values(|o: DbOp| o@)]);
    r
}

fn single(op: DbOp) -> (r: Vec<DbOp>)
    ensures
        r@.map_values(|o: DbOp| o@) == seq![op@],
{
    let mut r: Vec<DbOp> = Vec::new();
    r.push(op);
    assert(r@.map_values(|o: DbOp| o@) =~= seq![op@]);
    r
}

fn no_batches() -> (r: Vec<Vec<DbOp>>)
    ensures
        r@.map_values(|x: Vec<DbOp>| x@.map_values(|o: DbOp| o@)) == Seq::<Seq<OpView>>::empty(),
{
    let r: Vec<Vec<DbOp>> = Vec::new();
    assert(r@.map_values(|x: Vec<DbOp>| x@.map_values(|o: DbOp| o@)) =~= Seq::<Seq<OpView>>::empty());
    r
}

/// The statements of `DbOp::CompleteParents { id }` against the table as it
/// stands now: completing, nearest first, each ancestor of `id` whose
/// children are all done (see `lemma_parents_done_complete`).
pub fn parents_completion_ops(store: &TaskStore, id: i32) -> (r: Vec<DbOp>)
    ensures
        r@.map_values(|o: DbOp| o@) == set_ops(parents_done(store@, completions(store@), id, store@.len()), 1),
{
    let col = completion_column(store);
    let ups = parents_to_complete(store, &col, id);
    set_ops_of(&ups, 1)
}

/// Two tables with the same tasks in the same places, whatever their
/// titles and completion.
pub open spec fn same_shape(s: Seq<Task>, s2: Seq<Task>) -> bool {
    &&& s.len() == s2.len()
    &&& forall|i: int| 0 <= i < s.len() ==> #[trigger] s[i].id == s2[i].id && s[i].parent_id == s2[i].parent_id
}

proof fn lemma_parents_done_shape(s: Seq<Task>, s2: Seq<Task>, c: Seq<i32>, id: i32, fuel: nat)
    requires
        ids_unique(s),
        same_shape(s, s2),
        c.len() == s.len(),
    ensures
        parents_done(s, c, id, fuel) == parents_done(s2, c, id, fuel),
    decreases fuel,
{
    assert(ids_unique(s2)) by {
        assert forall|i: int, j: int| 0 <= i < s2.len() && 0 <= j < s2.len() && i != j implies
            s2[i].id != s2[j].id by {
            assert(s[i].id == s2[i].id);
            assert(s[j].id == s2[j].id);
        }
    }
    if fuel > 0 {
        if exists|i: int| 0 <= i < s.len() && s[i].id == id {
            let i = choose|i: int| 0 <= i < s.len() && s[i].id == id;
            assert(s2[i].id == id);
            let i2 = choose|i: int| 0 <= i < s2.len() && s2[i].id == id;
            assert(s[i2].id == s2[i2].id);
            assert(index_of(s, id) == Some(i));
            assert(index_of(s2, id) == Some(i2));
            assert(i == i2);
            assert(s[i].parent_id == s2[i].parent_id);
            match s[i].parent_id {
                Some(p) => {
                    assert(all_children_done(s, c, p) == all_children_done(s2, c, p)) by {
                        assert forall|j: int| 0 <= j < s.len() implies
                            (#[trigger] s[j].parent_id == Some(p)) == (s2[j].parent_id == Some(p)) by {
                            assert(s[j].id == s2[j].id);
                        }
                    }
                    let c1 = set_completions(s, c, seq![p], 1);
                    assert(c1 =~= set_completions(s2, c, seq![p], 1)) by {
                        assert forall|j: int| 0 <= j < c.len() implies c1[j] == set_completions(s2, c, seq![p], 1)[j] by {
                            assert(s[j].id == s2[j].id);
                        }
                    }
                    lemma_parents_done_shape(s, s2, c1, p, (fuel - 1) as nat);
                },
                None => {},
            }
        } else {
            assert(!(exists|i: int| 0 <= i < s2.len() && s2[i].id == id)) by {
                if exists|i: int| 0 <= i < s2.len() && s2[i].id == id {
                    let i = choose|i: int| 0 <= i < s2.len() && s2[i].id == id;
                    assert(s[i].id == s2[i].id);
                }
            }
        }
    }
}

/// Law of the completion follow-up: once the first batch has completed the
/// tasks `ids` (the table `s2` has the same tasks in the same places as
/// `s`, with those tasks now done), the follow-up statements complete
/// exactly the ancestors that completing them makes complete in `s`.
pub proof fn lemma_followup_after_first_batch(s: Seq<Task>, s2: Seq<Task>, ids: Seq<i32>, id: i32)
    requires
        ids_unique(s),
        same_shape(s, s2),
        completions(s2) == set_completions(s, completions(s), ids, 1),
    ensures
        parents_done(s2, completions(s2), id, s2.len()) == parents_done(
            s,
            set_completions(s, completions(s), ids, 1),
            id,
            s.len(),
        ),
{
    lemma_parents_done_shape(s, s2, completions(s2), id, s.len());
}

impl AppState {
    /// Whether the interface cannot take `key` (see `key_refused`): the
    /// edit would panic on a `String`, and the program stops there.
    pub fn refuses(&self, key: Key) -> (r: bool)
        requires
            self.wf(),
        ensures
            r == key_refused(self@, key),
    {
        match self.mode {
            AppMode::Normal => {
                if key == Key::Char('r') && self.tasks.len() > 0 {
                    let t = chars_of(self.tasks[self.selected].title.as_str());
                    byte_count(&t) > (isize::MAX as u128)
                } else {
                    false
                }
            },
            AppMode::InputAdd(_) | AppMode::InputRename(_) | AppMode::Search => self.edit_refused(key),
            _ => false,
        }
    }

    fn edit_refused(&self, key: Key) -> (r: bool)
        requires
            self.wf(),
        ensures
            r == (is_edit_key(key) && edit_panics(self@.input, self@.cursor, key)),
    {
        match key {
            Key::Char(c) => {
                match find_boundary(&self.input, self.input_cursor) {
                    None => true,
                    Some(_) => byte_count(&self.input) + width_of(c) as u128 > (isize::MAX as u128),
                }
            },
            Key::Backspace => {
                if self.input_cursor > 0 {
                    match find_boundary(&self.input, self.input_cursor - 1) {
                        None => true,
                        Some(k) => k == self.input.len(),
                    }
                } else {
                    false
                }
            },
            Key::Delete => {
                if (self.input_cursor as u128) < byte_count(&self.input) {
                    find_boundary(&self.input, self.input_cursor).is_none()
                } else {
                    false
                }
            },
            _ => false,
        }
    }

    fn apply_edit(&mut self, key: Key)
        requires
            old(self).wf(),
            is_edit_key(key),
            !edit_panics(old(self)@.input, old(self)@.cursor, key),
        ensures
            final(self).wf(),
            final(self)@ == (AppView {
                input: edit_text(old(self)@.input, old(self)@.cursor, key),
                cursor: edit_cursor(old(self)@.input, old(self)@.cursor, key),
                ..old(self)@
            }),
    {
        let ghost inp = self.input@;
        let ghost cur = self.input_cursor;
        match key {
            Key::Char(c) => {
                match find_boundary(&self.input, self.input_cursor) {
                    Some(k) => {
                        proof {
                            lemma_edit_bytes(inp, k as int, c);
                        }
                        vec_insert_at(&mut self.input, k, c);
                        self.input_cursor = self.input_cursor + 1;
                    },
                    None => {},
                }
            },
            Key::Backspace => {
                if self.input_cursor > 0 {
                    match find_boundary(&self.input, self.input_cursor - 1) {
                        Some(k) => {
                            proof {
                                lemma_edit_bytes(inp, k as int, ' ');
                            }
                            vec_remove_at(&mut self.input, k);
                            self.input_cursor = self.input_cursor - 1;
                        },
                        None => {},
                    }
                }
            },
            Key::Delete => {
                if (self.input_cursor as u128) < byte_count(&self.input) {
                    match find_boundary(&self.input, self.input_cursor) {
                        Some(k) => {
                            proof {
                                lemma_edit_bytes(inp, k as int, ' ');
                                if k == inp.len() {
                                    assert(inp.take(k as int) =~= inp);
                                }
                            }
                            vec_remove_at(&mut self.input, k);
                        },
                        None => {},
                    }
                }
            },
            Key::Left => {
                if self.input_cursor > 0 {
                    self.input_cursor = self.input_cursor - 1;
                }
            },
            Key::Right => {
                if (self.input_cursor as u128) < byte_count(&self.input) {
                    self.input_cursor = self.input_cursor + 1;
                }
            },
            Key::Home => {
                self.input_cursor = 0;
            },
            Key::End => {
                self.input_cursor = byte_count(&self.input) as usize;
            },
            _ => {},
        }
        assert(self@ =~= (AppView {
            input: edit_text(old(self)@.input, old(self)@.cursor, key),
            cursor: edit_cursor(old(self)@.input, old(self)@.cursor, key),
            ..old(self)@
        }));
    }
}


impl AppState {
    fn toggle(&mut self, store: &TaskStore) -> (r: KeyOutcome)
        requires
            old(self).wf(),
            old(self)@.tasks.len() > 0,
        ensures
            final(self).wf(),
            (final(self)@, r@) == toggle_step(old(self)@, old(self)@.tasks[old(self)@.selected as int], store@),
    {
        let id = self.tasks[self.selected].id;
        let completed = self.tasks[self.selected].completed;
        if completed == 1 {
            let anc = ancestor_ids(store, id);
            let first = single(DbOp::SetCompleted { id, value: 0 });
            let r = run_op(two_batches(first, set_ops_of(&anc, 0)));
            assert(r@ =~= toggle_step(old(self)@, old(self)@.tasks[old(self)@.selected as int], store@).1);
            r
        } else if has_children(store, id) {
            self.mode = AppMode::ConfirmComplete(id);
            assert(self@ =~= toggle_step(old(self)@, old(self)@.tasks[old(self)@.selected as int], store@).0);
            no_op()
        } else {
            let first = single(DbOp::SetCompleted { id, value: 1 });
            let r = run_op(two_batches(first, single(DbOp::CompleteParents { id })));
            assert(r@ =~= toggle_step(old(self)@, old(self)@.tasks[old(self)@.selected as int], store@).1);
            r
        }
    }

    fn handle_normal(&mut self, key: Key, store: &TaskStore) -> (r: KeyOutcome)
        requires
            old(self).wf(),
            old(self)@.mode == AppMode::Normal,
            !key_refused(old(self)@, key),
        ensures
            final(self).wf(),
            (final(self)@, r@) == normal_step(old(self)@, key, store@),
    {
        let has = self.tasks.len() > 0;
        if key == Key::Char('q') {
            return quit_op();
        }
        if key == Key::Esc {
            self.g_pressed = false;
            if self.search_query.len() > 0 {
                self.search_query = Vec::new();
                assert(self@ =~= normal_step(old(self)@, key, store@).0);
                let r = run_op(no_batches());
                assert(r@ =~= normal_step(old(self)@, key, store@).1);
                return r;
            } else {
                assert(self@ =~= normal_step(old(self)@, key, store@).0);
                return quit_op();
            }
        }
        if key == Key::Char('j') || key == Key::Down {
            self.g_pressed = false;
            self.next();
            return no_op();
        }
        if key == Key::Char('k') || key == Key::Up {
            self.g_pressed = false;
            self.previous();
            return no_op();
        }
        if key == Key::Char('g') {
            if self.g_pressed {
                if has {
                    self.selected = 0;
                    self.list_selected = Some(0);
                }
                self.g_pressed = false;
            } else {
                self.g_pressed = true;
            }
            assert(self@ =~= normal_step(old(self)@, key, store@).0);
            return no_op();
        }
        if key == Key::Char('G') {
            self.g_pressed = false;
            if has {
                self.selected = self.tasks.len() - 1;
                self.list_selected = Some(self.selected);
            }
            assert(self@ =~= normal_step(old(self)@, key, store@).0);
            return no_op();
        }
        if key == Key::Char('/') {
            self.g_pressed = false;
            self.mode = AppMode::Search;
            self.input = Vec::new();
            self.input_cursor = 0;
            assert(byte_len(self.input@) == 0);
            assert(self@ =~= normal_step(old(self)@, key, store@).0);
            return no_op();
        }
        if key == Key::Char('a') {
            self.g_pressed = false;
            if has {
                self.mode = AppMode::InputAdd(Some(self.tasks[self.selected].id));
                self.input = Vec::new();
                self.input_cursor = 0;
                assert(byte_len(self.input@) == 0);
            }
            assert(self@ =~= normal_step(old(self)@, key, store@).0);
            return no_op();
        }
        if key == Key::Char('A') {
            self.g_pressed = false;
            self.mode = AppMode::InputAdd(None);
            self.input = Vec::new();
            self.input_cursor = 0;
            assert(byte_len(self.input@) == 0);
            assert(self@ =~= normal_step(old(self)@, key, store@).0);
            return no_op();
        }
        if key == Key::Char('r') {
            self.g_pressed = false;
            if has {
                let id = self.tasks[self.selected].id;
                let chars = chars_of(self.tasks[self.selected].title.as_str());
                let n = byte_count(&chars);
                self.mode = AppMode::InputRename(id);
                self.input = chars;
                self.input_cursor = n as usize;
            }
            assert(self@ =~= normal_step(old(self)@, key, store@).0);
            return no_op();
        }
        if key == Key::Char('d') || key == Key::Delete {
            self.g_pressed = false;
            if has {
                self.mode = AppMode::ConfirmDelete(self.tasks[self.selected].id);
            }
            assert(self@ =~= normal_step(old(self)@, key, store@).0);
            return no_op();
        }
        if key == Key::Char('x') || key == Key::Char(' ') {
            self.g_pressed = false;
            if has {
                return self.toggle(store);
            }
            assert(self@ =~= normal_step(old(self)@, key, store@).0);
            return no_op();
        }
        no_op()
    }

    fn handle_input(&mut self, key: Key, store: &TaskStore) -> (r: KeyOutcome)
        requires
            old(self).wf(),
            old(self)@.mode is InputAdd || old(self)@.mode is InputRename,
            !key_refused(old(self)@, key),
        ensures
            final(self).wf(),
            (final(self)@, r@) == input_step(old(self)@, key, store@),
    {
        if key == Key::Enter {
            let batches = if self.input.len() > 0 {
                let title = string_of(&self.input);
                match self.mode {
                    AppMode::InputAdd(p) => {
                        let mut b = one_batch(single(DbOp::Insert { parent: p, title }));
                        match p {
                            Some(pid) => {
                                let anc = ancestor_ids(store, pid);
                                let ghost before = b@.map_values(|x: Vec<DbOp>| x@.map_values(|o: DbOp| o@));
                                let ops = set_ops_of(&anc, 0);
                                b.push(ops);
                                assert(b@.map_values(|x: Vec<DbOp>| x@.map_values(|o: DbOp| o@)) =~= before + seq![set_ops(ancestors(store@, pid, store@.len()), 0)]);
                            },
                            None => {
                                assert(b@.map_values(|x: Vec<DbOp>| x@.map_values(|o: DbOp| o@)) =~= b@.map_values(|x: Vec<DbOp>| x@.map_values(|o: DbOp| o@)) + Seq::<Seq<OpView>>::empty());
                            },
                        }
                        b
                    },
                    AppMode::InputRename(id) => one_batch(single(DbOp::Rename { id, title })),
                    _ => no_batches(),
                }
            } else {
                no_batches()
            };
            self.mode = AppMode::Normal;
            self.input_cursor = 0;
            assert(self@ =~= input_step(old(self)@, key, store@).0);
            let r = run_op(batches);
            assert(r@ =~= input_step(old(self)@, key, store@).1);
            return r;
        }
        if key == Key::Esc {
            self.mode = AppMode::Normal;
            self.input_cursor = 0;
            assert(self@ =~= input_step(old(self)@, key, store@).0);
            return no_op();
        }
        match key {
            Key::Char(_) | Key::Backspace | Key::Delete | Key::Left | Key::Right | Key::Home | Key::End => {
                self.apply_edit(key);
            },
            _ => {},
        }
        no_op()
    }

    fn handle_confirm(&mut self, key: Key, store: &TaskStore) -> (r: KeyOutcome)
        requires
            old(self).wf(),
            old(self)@.mode is ConfirmDelete || old(self)@.mode is ConfirmComplete,
        ensures
            final(self).wf(),
            (final(self)@, r@) == confirm_step(old(self)@, key, store@),
    {
        if key == Key::Char('y') || key == Key::Char('Y') {
            match self.mode {
                AppMode::ConfirmDelete(id) => {
                    let post = subtree_post_order(store, id);
                    self.mode = AppMode::Normal;
                    assert(self@ =~= confirm_step(old(self)@, key, store@).0);
                    let r = run_op(one_batch(delete_ops_of(&post)));
                    assert(r@ =~= confirm_step(old(self)@, key, store@).1);
                    r
                },
                AppMode::ConfirmComplete(id) => {
                    let post = subtree_post_order(store, id);
                    self.mode = AppMode::Normal;
                    assert(self@ =~= confirm_step(old(self)@, key, store@).0);
                    let r = run_op(two_batches(set_ops_of(&post, 1), single(DbOp::CompleteParents { id })));
                    assert(r@ =~= confirm_step(old(self)@, key, store@).1);
                    r
                },
                _ => no_op(),
            }
        } else if key == Key::Char('n') || key == Key::Char('N') || key == Key::Esc {
            self.mode = AppMode::Normal;
            assert(self@ =~= confirm_step(old(self)@, key, store@).0);
            no_op()
        } else {
            no_op()
        }
    }

    fn handle_search(&mut self, key: Key) -> (r: KeyOutcome)
        requires
            old(self).wf(),
            old(self)@.mode is Search,
            !key_refused(old(self)@, key),
        ensures
            final(self).wf(),
            (final(self)@, r@) == search_step(old(self)@, key),
    {
        if key == Key::Enter || key == Key::Esc {
            self.mode = AppMode::Normal;
            self.search_query = self.input.clone();
            self.input = Vec::new();
            self.input_cursor = 0;
            assert(byte_len(self.input@) == 0);
            assert(self@ =~= search_step(old(self)@, key).0);
            let r = run_op(no_batches());
            assert(r@ =~= search_step(old(self)@, key).1);
            return r;
        }
        match key {
            Key::Char(_) | Key::Backspace | Key::Delete | Key::Left | Key::Right | Key::Home | Key::End => {
                let changes = match key {
                    Key::Char(_) => true,
                    Key::Backspace => self.input_cursor > 0,
                    Key::Delete => (self.input_cursor as u128) < byte_count(&self.input),
                    _ => false,
                };
                self.apply_edit(key);
                if changes {
                    self.search_query = self.input.clone();
                    assert(self@ =~= search_step(old(self)@, key).0);
                    let r = run_op(no_batches());
                    assert(r@ =~= search_step(old(self)@, key).1);
                    r
                } else {
                    no_op()
                }
            },
            _ => no_op(),
        }
    }

    /// The effect of a key press against the table `store` as it is now:
    /// the next state, and the statements to run. Keys that the interface
    /// refuses (`refuses`) are left out.
    pub fn handle_key(&mut self, key: Key, store: &TaskStore) -> (r: KeyOutcome)
        requires
            old(self).wf(),
            !key_refused(old(self)@, key),
        ensures
            final(self).wf(),
            (final(self)@, r@) == transition(old(self)@, key, store@),
    {
        match self.mode {
            AppMode::Normal => self.handle_normal(key, store),
            AppMode::InputAdd(_) | AppMode::InputRename(_) => self.handle_input(key, store),
            AppMode::ConfirmDelete(_) | AppMode::ConfirmComplete(_) => self.handle_confirm(key, store),
            AppMode::Search => self.handle_search(key),
        }
    }
}

} // verus!
