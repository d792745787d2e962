//! The command line of the program: its commands, and which file format a
//! path names.

use vstd::prelude::*;

verus! {

/// The parsed command line.
pub struct Cli {
    pub command: Commands,
}

/// The commands of the program.
pub enum Commands {
    /// Add a new task (optionally under a parent, with a priority and a
    /// `YYYY-MM-DD` deadline).
    Add { title: String, parent: Option<i32>, priority: Option<String>, deadline: Option<String> },
    /// List all tasks as a table (only the completed ones with `completed`),
    /// or as a tree (with emoji marks if asked).
    List { completed: bool, tree: bool, emoji: bool },
    /// Mark a task as done.
    Done { id: i32 },
    /// Delete a task.
    Delete { id: i32 },
    /// Create a new list.
    ListCreate { name: String },
    /// Import tasks from a `.csv` or `.md` file.
    Import { path: String },
    /// Export tasks to a `.csv` or `.md` file.
    Export { path: String },
    /// Manage the background daemon.
    Daemon { action: DaemonAction },
    /// Start the terminal interface.
    Tui,
    /// Mark a task as undone.
    Undone { id: i32 },
}

/// What to do with the background daemon.
#[derive(Clone, Copy, PartialEq, Eq, Structural)]
pub enum DaemonAction {
    Start,
    Stop,
}

/// The file formats of import and export.
#[derive(Clone, Copy, PartialEq, Eq, Structural)]
pub enum FileFormat {
    Csv,
    Markdown,
}

/// `s` ends with `suffix`.
pub open spec fn ends_with(s: Seq<char>, suffix: Seq<char>) -> bool {
    s.len() >= suffix.len() && s.skip(s.len() - suffix.len()) == suffix
}

/// The format a path names: `.csv` first, then `.md`; any other path is
/// refused ("Unsupported file format").
pub open spec fn format_of(path: Seq<char>) -> Option<FileFormat> {
    if ends_with(path, ".csv"@) {
        Some(FileFormat::Csv)
    } else if ends_with(path, ".md"@) {
        Some(FileFormat::Markdown)
    } else {
        None
    }
}

/// `s.ends_with(suffix)`.
pub fn str_ends_with(s: &str, suffix: &str) -> (r: bool)
    ensures
        r == ends_with(s@, suffix@),
{
    let n = s.unicode_len();
    let m = suffix.unicode_len();
    if m > n {
        return false;
    }
    let mut i: usize = 0;
    while i < m
        invariant
            n == s@.len(),
            m == suffix@.len(),
            m <= n,
            i <= m,
            forall|j: int| 0 <= j < i ==> s@[n - m + j] == suffix@[j],
        decreases m - i,
    {
        if s.get_char(n - m + i) != suffix.get_char(i) {
            assert(s@.skip(n - m)[i as int] != suffix@[i as int]);
            return false;
        }
        i = i + 1;
    }
    assert(s@.skip(n - m) =~= suffix@);
    true
}

/// The format that `path` names, if any.
pub fn file_format(path: &str) -> (r: Option<FileFormat>)
    ensures
        r == format_of(path@),
{
    if str_ends_with(path, ".csv") {
        Some(FileFormat::Csv)
    } else if str_ends_with(path, ".md") {
        Some(FileFormat::Markdown)
    } else {
        None
    }
}

} // verus!
