//! Text views of the task forest: the plain table listing, the tree listing,
//! the Markdown export and the rows of the CSV export.

use vstd::prelude::*;
use crate::model::{Task, TaskStore, ids_unique};
use crate::text::{push_char, push_int, push_padded, int_chars, pad_right, spaces};
use crate::tree::{
    Row, listing, listing_rows, rows_valid, is_down_path, lemma_listing_shows_reachable, lemma_listing_distinct,
    lemma_listing_has_every_task, no_parent_cycle,
};

verus! {

/// How one task line is laid out.
#[derive(Clone, Copy, PartialEq, Eq, Structural)]
pub enum Style {
    /// `"{indentation} {mark} (ID: {id}) {title}"`, with `└── ` below the roots.
    Tree { emoji: bool },
    /// `"{indentation}- [x] {title}"`.
    Markdown,
    /// Columns `ID`, indented `Title` and `Status`, 5, 30 and 10 wide.
    Table,
}

/// The completion mark of a task.
pub open spec fn status_mark(completed: i32, emoji: bool) -> Seq<char> {
    if emoji {
        if completed == 1 { "✅"@ } else { "❌"@ }
    } else {
        if completed == 1 { "[x]"@ } else { "[ ]"@ }
    }
}

/// Indentation of a tree line: nothing for a root, else two spaces per
/// level above the parent and a branch.
pub open spec fn tree_indent(level: nat) -> Seq<char> {
    if level == 0 {
        seq![]
    } else {
        spaces((2 * (level - 1)) as nat) + "└── "@
    }
}

/// `Done` or `Pending`.
pub open spec fn status_word(completed: i32) -> Seq<char> {
    if completed == 1 { "Done"@ } else { "Pending"@ }
}

/// One line of a listing, with its line break.
pub open spec fn line(style: Style, t: Task, level: nat) -> Seq<char> {
    match style {
        Style::Tree { emoji } => tree_indent(level) + " "@ + status_mark(t.completed, emoji) + " (ID: "@
            + int_chars(t.id as int) + ") "@ + t.title@ + "\n"@,
        Style::Markdown => spaces(2 * level) + "- "@ + status_mark(t.completed, false) + " "@ + t.title@
            + "\n"@,
        Style::Table => pad_right(int_chars(t.id as int), 5) + " "@ + pad_right(
            spaces(2 * level) + t.title@,
            30,
        ) + " "@ + pad_right(status_word(t.completed), 10) + "\n"@,
    }
}

/// The lines of `rows`, one after the other.
pub open spec fn render_rows(s: Seq<Task>, rows: Seq<Row>, style: Style) -> Seq<char>
    decreases rows.len(),
{
    if rows.len() == 0 {
        seq![]
    } else {
        render_rows(s, rows.drop_last(), style) + line(
            style,
            s[rows.last().index as int],
            rows.last().level as nat,
        )
    }
}

/// The header of the table listing.
pub open spec fn table_header() -> Seq<char> {
    pad_right("ID"@, 5) + " "@ + pad_right("Title"@, 30) + " "@ + pad_right("Status"@, 10) + "\n"@
}

/// The completed tasks among `rows`, in order.
pub open spec fn done_rows(s: Seq<Task>, rows: Seq<Row>) -> Seq<Row>
    decreases rows.len(),
{
    if rows.len() == 0 {
        seq![]
    } else {
        done_rows(s, rows.drop_last()) + if s[rows.last().index as int].completed == 1 {
            seq![rows.last()]
        } else {
            seq![]
        }
    }
}

/// The rows of the table listing: every task reachable from a root (a task
/// whose parent is missing is a root, see `is_root`), each
/// below its parent; with `completed`, only the completed ones, each where
/// it stands in the whole listing and indented by its depth in the forest
/// (so a completed task under a pending parent follows its nearest listed
/// ancestor, without its pending parent).
pub open spec fn table_rows(s: Seq<Task>, completed: bool) -> Seq<Row> {
    if completed {
        done_rows(s, listing(s))
    } else {
        listing(s)
    }
}

proof fn lemma_done_rows_has(s: Seq<Task>, rows: Seq<Row>, x: int)
    ensures
        (exists|k: int| 0 <= k < done_rows(s, rows).len() && #[trigger] done_rows(s, rows)[k].index == x)
            <==> ((exists|k: int| 0 <= k < rows.len() && #[trigger] rows[k].index == x) && s[x].completed == 1),
    decreases rows.len(),
{
    if rows.len() > 0 {
        let d = done_rows(s, rows.drop_last());
        let r = rows.last();
        let tail: Seq<Row> = if s[r.index as int].completed == 1 { seq![r] } else { seq![] };
        lemma_done_rows_has(s, rows.drop_last(), x);
        assert(done_rows(s, rows) == d + tail);
        if exists|k: int| 0 <= k < (d + tail).len() && #[trigger] (d + tail)[k].index == x {
            let k = choose|k: int| 0 <= k < (d + tail).len() && #[trigger] (d + tail)[k].index == x;
            if k < d.len() {
                assert((d + tail)[k] == d[k]);
                let j = choose|j: int| 0 <= j < rows.drop_last().len() && #[trigger] rows.drop_last()[j].index == x;
                assert(rows[j] == rows.drop_last()[j]);
            } else {
                assert((d + tail)[k] == r);
                assert(rows[rows.len() - 1] == r);
            }
        }
        if (exists|k: int| 0 <= k < rows.len() && #[trigger] rows[k].index == x) && s[x].completed == 1 {
            let k = choose|k: int| 0 <= k < rows.len() && #[trigger] rows[k].index == x;
            if k < rows.len() - 1 {
                assert(rows.drop_last()[k] == rows[k]);
                let j = choose|j: int| 0 <= j < d.len() && #[trigger] d[j].index == x;
                assert((d + tail)[j] == d[j]);
            } else {
                assert(tail.len() == 1);
                assert((d + tail)[d.len() as int] == r);
            }
        }
    }
}

/// Law of the table listing: `list` shows exactly the tasks reachable from
/// a root through their chain of parents, and `list --completed` exactly
/// those of them that are completed.
pub proof fn lemma_table_rows_shows(s: Seq<Task>, completed: bool, x: int)
    requires
        ids_unique(s),
        s.len() <= usize::MAX,
    ensures
        (exists|k: int| 0 <= k < table_rows(s, completed).len() && #[trigger] table_rows(s, completed)[k].index == x)
            <==> ((exists|path: Seq<int>| is_down_path(s, None, path) && path.last() == x)
                && (completed ==> s[x].completed == 1)),
{
    let l = listing(s);
    let reach = exists|path: Seq<int>| is_down_path(s, None, path) && path.last() == x;
    let in_l = exists|k: int| 0 <= k < l.len() && #[trigger] l[k].index == x;
    assert(in_l <==> reach) by {
        lemma_listing_shows_reachable(s, x);
    }
    if completed {
        let d = done_rows(s, l);
        assert((exists|k: int| 0 <= k < d.len() && #[trigger] d[k].index == x) <==> (in_l && s[x].completed == 1)) by {
            lemma_done_rows_has(s, l, x);
        }
        assert(table_rows(s, completed) == d);
    } else {
        assert(table_rows(s, completed) == l);
    }
}

/// Law of the table listing: where the parent links form no cycle (the
/// commands cannot make one), `list` shows every task of the table, and
/// `list --completed` every completed one.
pub proof fn lemma_table_lists_every_task(s: Seq<Task>, completed: bool, x: int)
    requires
        ids_unique(s),
        s.len() <= usize::MAX,
        no_parent_cycle(s),
        0 <= x < s.len(),
        completed ==> s[x].completed == 1,
    ensures
        exists|k: int| 0 <= k < table_rows(s, completed).len() && #[trigger] table_rows(s, completed)[k].index == x,
{
    let l = listing(s);
    assert(exists|k: int| 0 <= k < l.len() && #[trigger] l[k].index == x) by {
        lemma_listing_has_every_task(s, x);
    }
    assert(exists|path: Seq<int>| is_down_path(s, None, path) && path.last() == x) by {
        lemma_listing_shows_reachable(s, x);
    }
    lemma_table_rows_shows(s, completed, x);
}

/// No two rows name the same task.
pub open spec fn distinct_indices(rows: Seq<Row>) -> bool {
    forall|i: int, j: int| 0 <= i < rows.len() && 0 <= j < rows.len() && i != j ==> #[trigger] rows[i].index
        != #[trigger] rows[j].index
}

proof fn lemma_done_rows_distinct(s: Seq<Task>, rows: Seq<Row>)
    requires
        distinct_indices(rows),
    ensures
        distinct_indices(done_rows(s, rows)),
    decreases rows.len(),
{
    if rows.len() > 0 {
        let t = rows.drop_last();
        assert(distinct_indices(t)) by {
            assert forall|i: int, j: int| 0 <= i < t.len() && 0 <= j < t.len() && i != j implies #[trigger] t[i].index
                != #[trigger] t[j].index by {
                assert(t[i] == rows[i] && t[j] == rows[j]);
            }
        }
        lemma_done_rows_distinct(s, t);
        let d = done_rows(s, t);
        let r = rows.last();
        if s[r.index as int].completed == 1 {
            let e = d + seq![r];
            assert(done_rows(s, rows) == e);
            assert(!(exists|k: int| 0 <= k < d.len() && #[trigger] d[k].index == r.index)) by {
                lemma_done_rows_has(s, t, r.index as int);
                if exists|k: int| 0 <= k < t.len() && #[trigger] t[k].index == r.index {
                    let k = choose|k: int| 0 <= k < t.len() && #[trigger] t[k].index == r.index;
                    assert(rows[k] == t[k]);
                    assert(rows[rows.len() - 1] == r);
                }
            }
            assert forall|i: int, j: int| 0 <= i < e.len() && 0 <= j < e.len() && i != j implies #[trigger] e[i].index
                != #[trigger] e[j].index by {
                if i < d.len() && j < d.len() {
                    assert(e[i] == d[i] && e[j] == d[j]);
                } else if i < d.len() {
                    assert(e[i] == d[i] && e[j] == r);
                } else {
                    assert(e[j] == d[j] && e[i] == r);
                }
            }
        } else {
            assert(done_rows(s, rows) =~= d);
        }
    }
}

/// Law of the table listing: it shows no task twice.
pub proof fn lemma_table_rows_distinct(s: Seq<Task>, completed: bool)
    requires
        ids_unique(s),
        s.len() <= usize::MAX,
    ensures
        distinct_indices(table_rows(s, completed)),
{
    let l = listing(s);
    assert forall|i: int, j: int| 0 <= i < l.len() && 0 <= j < l.len() && i != j implies #[trigger] l[i].index
        != #[trigger] l[j].index by {
        lemma_listing_distinct(s, i, j);
    }
    if completed {
        lemma_done_rows_distinct(s, l);
    }
}

/// The table listing: a header, then one line per row of `table_rows`;
/// nothing at all when there is no row.
pub open spec fn table_text(s: Seq<Task>, completed: bool) -> Seq<char> {
    let rows = table_rows(s, completed);
    if rows.len() == 0 {
        seq![]
    } else {
        table_header() + render_rows(s, rows, Style::Table)
    }
}

/// The tree listing of every task reachable from a root.
pub open spec fn tree_text(s: Seq<Task>, emoji: bool) -> Seq<char> {
    render_rows(s, listing(s), Style::Tree { emoji })
}

/// The Markdown export: a title line, a blank line, then one checklist item
/// per task, nested under its parent.
pub open spec fn markdown_text(s: Seq<Task>) -> Seq<char> {
    "# Todo List\n\n"@ + render_rows(s, listing(s), Style::Markdown)
}

/// Law of the Markdown export's lines: the line of a task at depth `d`
/// begins with exactly `2 * d` spaces, then `- [`, its completion mark
/// (`x` when completed, a space otherwise), `] `, and its title, and ends
/// with a line break.
pub proof fn lemma_markdown_line_shape(t: Task, d: nat)
    ensures
        ({
            let l = line(Style::Markdown, t, d);
            let b = (2 * d) as int;
            &&& l.len() == b + 6 + t.title@.len() + 1
            &&& forall|i: int| 0 <= i < b ==> l[i] == ' '
            &&& l[b] == '-' && l[b + 1] == ' ' && l[b + 2] == '[' && l[b + 4] == ']' && l[b + 5] == ' '
            &&& l[b + 3] == (if t.completed == 1 { 'x' } else { ' ' })
            &&& l.subrange(b + 6, l.len() - 1) == t.title@
            &&& l[l.len() - 1] == '\n'
        }),
{
    reveal_strlit("- ");
    reveal_strlit(" ");
    reveal_strlit("\n");
    reveal_strlit("[x]");
    reveal_strlit("[ ]");
    let l = line(Style::Markdown, t, d);
    let ind = spaces(2 * d);
    let mark = status_mark(t.completed, false);
    assert(l == ind + "- "@ + mark + " "@ + t.title@ + "\n"@);
    assert(l.subrange(2 * d + 6 as int, l.len() - 1) =~= t.title@);
    assert(forall|i: int| 0 <= i < 2 * d ==> l[i] == ind[i]);
}

/// Law of the Markdown export: after the title line and a blank line comes
/// one line per listed task, in listing order, each indented by two spaces
/// per level of its depth in the forest (see `lemma_listing_levels`).
pub proof fn lemma_markdown_export_lines(s: Seq<Task>)
    ensures
        markdown_text(s) == "# Todo List\n\n"@ + render_rows(s, listing(s), Style::Markdown),
        forall|k: int| 0 <= k < listing(s).len() ==> #[trigger] render_rows(s, listing(s).take(k + 1), Style::Markdown)
            == render_rows(s, listing(s).take(k), Style::Markdown) + line(
            Style::Markdown,
            s[listing(s)[k].index as int],
            listing(s)[k].level as nat,
        ),
{
    assert forall|k: int| 0 <= k < listing(s).len() implies #[trigger] render_rows(s, listing(s).take(k + 1), Style::Markdown)
        == render_rows(s, listing(s).take(k), Style::Markdown) + line(
        Style::Markdown,
        s[listing(s)[k].index as int],
        listing(s)[k].level as nat,
    ) by {
        assert(listing(s).take(k + 1).drop_last() =~= listing(s).take(k));
        assert(listing(s).take(k + 1).last() == listing(s)[k]);
    }
}

/// Law of the tree listing's lines: the line of a task at depth `d > 0`
/// begins with `2 * (d - 1)` spaces and the branch `└── `, a root's line
/// with no indentation; then come a space, the task's mark, ` (ID: `, its
/// id in decimal, `) ` and its title, and a line break ends it.
pub proof fn lemma_tree_line_shape(t: Task, d: nat, emoji: bool)
    ensures
        ({
            let l = line(Style::Tree { emoji }, t, d);
            let b: int = if d > 0 { 2 * (d - 1) + 4 } else { 0 };
            let m = status_mark(t.completed, emoji);
            let id = int_chars(t.id as int);
            &&& forall|i: int| 0 <= i < b - 4 ==> l[i] == ' '
            &&& d > 0 ==> l.subrange(b - 4, b) == "└── "@
            &&& l.subrange(b, l.len() as int) == " "@ + m + " (ID: "@ + id + ") "@ + t.title@ + "\n"@
        }),
{
    let l = line(Style::Tree { emoji }, t, d);
    let b: int = if d > 0 { 2 * (d - 1) + 4 } else { 0 };
    let rest = " "@ + status_mark(t.completed, emoji) + " (ID: "@ + int_chars(t.id as int) + ") "@ + t.title@ + "\n"@;
    reveal_strlit("└── ");
    assert(l =~= tree_indent(d) + rest);
    assert(tree_indent(d).len() == b);
    assert(l.subrange(b, l.len() as int) =~= rest);
    if d > 0 {
        assert(tree_indent(d) == spaces((2 * (d - 1)) as nat) + "└── "@);
        assert(l.subrange(b - 4, b) =~= "└── "@);
        assert(forall|i: int| 0 <= i < b - 4 ==> l[i] == tree_indent(d)[i]);
    }
}

fn push_indent(out: &mut String, levels: usize)
    ensures
        final(out)@ == old(out)@ + spaces(2 * levels as nat),
{
    let mut i: usize = 0;
    while i < levels
        invariant
            i <= levels,
            out@ == old(out)@ + spaces(2 * i as nat),
        decreases levels - i,
    {
        push_char(out, ' ');
        push_char(out, ' ');
        i = i + 1;
        assert(out@ =~= old(out)@ + spaces(2 * i as nat));
    }
}

fn push_mark(out: &mut String, completed: i32, emoji: bool)
    ensures
        final(out)@ == old(out)@ + status_mark(completed, emoji),
{
    if emoji {
        if completed == 1 {
            out.append("✅");
        } else {
            out.append("❌");
        }
    } else {
        if completed == 1 {
            out.append("[x]");
        } else {
            out.append("[ ]");
        }
    }
}

fn push_tree_line(out: &mut String, t: &Task, level: usize, emoji: bool)
    ensures
        final(out)@ == old(out)@ + line(Style::Tree { emoji }, *t, level as nat),
{
    let ghost o = out@;
    if level > 0 {
        push_indent(out, level - 1);
        out.append("└── ");
    }
    let ghost o1 = out@;
    assert(o1 == o + tree_indent(level as nat));
    out.append(" ");
    push_mark(out, t.completed, emoji);
    out.append(" (ID: ");
    push_int(out, t.id);
    out.append(") ");
    out.append(t.title.as_str());
    out.append("\n");
    assert(final(out)@ =~= o1 + (" "@ + status_mark(t.completed, emoji) + " (ID: "@ + int_chars(
        t.id as int,
    ) + ") "@ + t.title@ + "\n"@));
}

fn push_markdown_line(out: &mut String, t: &Task, level: usize)
    ensures
        final(out)@ == old(out)@ + line(Style::Markdown, *t, level as nat),
{
    push_indent(out, level);
    out.append("- ");
    push_mark(out, t.completed, false);
    out.append(" ");
    out.append(t.title.as_str());
    out.append("\n");
    assert(final(out)@ =~= old(out)@ + line(Style::Markdown, *t, level as nat));
}

fn push_table_line(out: &mut String, t: &Task, level: usize)
    ensures
        final(out)@ == old(out)@ + line(Style::Table, *t, level as nat),
{
    let mut id_text = String::new();
    push_int(&mut id_text, t.id);
    assert(id_text@ =~= int_chars(t.id as int));
    let mut title_text = String::new();
    push_indent(&mut title_text, level);
    title_text.append(t.title.as_str());
    assert(title_text@ =~= spaces(2 * level as nat) + t.title@);
    let ghost o = out@;
    push_padded(out, id_text.as_str(), 5);
    out.append(" ");
    push_padded(out, title_text.as_str(), 30);
    out.append(" ");
    let ghost o2 = out@;
    if t.completed == 1 {
        push_padded(out, "Done", 10);
    } else {
        push_padded(out, "Pending", 10);
    }
    assert(out@ == o2 + pad_right(status_word(t.completed), 10));
    out.append("\n");
    assert(final(out)@ =~= old(out)@ + line(Style::Table, *t, level as nat));
}

/// Appends the line of task `t` at depth `level`.
pub fn push_line(out: &mut String, t: &Task, level: usize, style: Style)
    ensures
        final(out)@ == old(out)@ + line(style, *t, level as nat),
{
    match style {
        Style::Tree { emoji } => push_tree_line(out, t, level, emoji),
        Style::Markdown => push_markdown_line(out, t, level),
        Style::Table => push_table_line(out, t, level),
    }
}

/// Appends the lines of `rows`.
pub fn push_rows(out: &mut String, tasks: &Vec<Task>, rows: &Vec<Row>, style: Style)
    requires
        rows_valid(tasks@, rows@),
    ensures
        final(out)@ == old(out)@ + render_rows(tasks@, rows@, style),
{
    let n = rows.len();
    let mut i: usize = 0;
    while i < n
        invariant
            n == rows@.len(),
            i <= n,
            rows_valid(tasks@, rows@),
            out@ == old(out)@ + render_rows(tasks@, rows@.take(i as int), style),
        decreases n - i,
    {
        let r = rows[i];
        assert(r.index < tasks@.len());
        push_line(out, &tasks[r.index], r.level, style);
        i = i + 1;
        assert(rows@.take(i as int).drop_last() =~= rows@.take(i - 1));
        assert(out@ =~= old(out)@ + render_rows(tasks@, rows@.take(i as int), style));
    }
    assert(rows@.take(n as int) =~= rows@);
}

/// The tree listing of the table (`list --tree`, with `--emoji` for
/// emoji marks).
pub fn tree_listing(store: &TaskStore, use_emoji: bool) -> (r: String)
    ensures
        r@ == tree_text(store@, use_emoji),
{
    let tasks = store.tasks();
    let rows = listing_rows(store);
    let mut out = String::new();
    push_rows(&mut out, tasks, &rows, Style::Tree { emoji: use_emoji });
    assert(out@ =~= tree_text(store@, use_emoji));
    out
}

/// The completed tasks among `rows`, in order.
pub fn completed_rows(tasks: &Vec<Task>, rows: &Vec<Row>) -> (r: Vec<Row>)
    requires
        rows_valid(tasks@, rows@),
    ensures
        r@ == done_rows(tasks@, rows@),
        rows_valid(tasks@, r@),
{
    let mut out: Vec<Row> = Vec::new();
    let mut i: usize = 0;
    while i < rows.len()
        invariant
            i <= rows@.len(),
            rows_valid(tasks@, rows@),
            out@ == done_rows(tasks@, rows@.take(i as int)),
            rows_valid(tasks@, out@),
        decreases rows@.len() - i,
    {
        let r = rows[i];
        assert(rows@.take(i + 1).drop_last() =~= rows@.take(i as int));
        assert(rows@.take(i + 1).last() == r);
        if tasks[r.index].completed == 1 {
            out.push(r);
        }
        i = i + 1;
        assert(out@ =~= done_rows(tasks@, rows@.take(i as int)));
    }
    assert(rows@.take(rows@.len() as int) =~= rows@);
    out
}

/// The table listing (`list`): every task reachable from a root, each below
/// its parent; with `completed` (`list --completed`), only the completed
/// tasks (see `table_rows`).
pub fn table_listing(store: &TaskStore, completed: bool) -> (r: String)
    ensures
        r@ == table_text(store@, completed),
{
    let tasks = store.tasks();
    let all = listing_rows(store);
    let rows = if completed { completed_rows(tasks, &all) } else { all };
    let mut out = String::new();
    if rows.len() > 0 {
        push_padded(&mut out, "ID", 5);
        out.append(" ");
        push_padded(&mut out, "Title", 30);
        out.append(" ");
        push_padded(&mut out, "Status", 10);
        out.append("\n");
        assert(out@ =~= table_header());
        push_rows(&mut out, tasks, &rows, Style::Table);
    }
    assert(out@ =~= table_text(store@, completed));
    out
}

/// The Markdown export of the table.
pub fn markdown_export(store: &TaskStore) -> (r: String)
    ensures
        r@ == markdown_text(store@),
{
    let tasks = store.tasks();
    let rows = listing_rows(store);
    let mut out = String::new();
    out.append("# Todo List\n\n");
    push_rows(&mut out, tasks, &rows, Style::Markdown);
    assert(out@ =~= markdown_text(store@));
    out
}

} // verus!
