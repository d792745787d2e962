//! The background reminders: which tasks are due on a day, what their
//! notification says, and the process id in the daemon's pid file.

use vstd::prelude::*;
use crate::model::{Task, TaskStore};
use crate::text::{int_chars, push_int, trim, trim_str};

verus! {

/// The task is pending and its deadline is `today`.
pub open spec fn due_on(t: Task, today: Seq<char>) -> bool {
    t.completed == 0 && (t.deadline matches Some(d) && d@ == today)
}

/// The pending tasks whose deadline is `today`, in table order.
pub open spec fn due_tasks(s: Seq<Task>, today: Seq<char>) -> Seq<(i32, Seq<char>)>
    decreases s.len(),
{
    if s.len() == 0 {
        seq![]
    } else {
        due_tasks(s.drop_last(), today) + if due_on(s.last(), today) {
            seq![(s.last().id, s.last().title@)]
        } else {
            seq![]
        }
    }
}

/// The task is pending, and its deadline is the text `today`.
pub open spec fn pending_due(t: Task, today: Seq<char>) -> bool {
    &&& t.completed == 0
    &&& t.deadline is Some
    &&& t.deadline.unwrap()@ == today
}

/// Reminder `e` is that of a pending task of `s` whose deadline is `today`:
/// its id and its title.
pub open spec fn reminder_of_due_task(s: Seq<Task>, today: Seq<char>, e: (i32, Seq<char>)) -> bool {
    exists|i: int| 0 <= i < s.len() && pending_due(#[trigger] s[i], today) && e.0 == s[i].id && e.1 == s[i].title@
}

/// Law of the reminders: the tasks reminded of on `today` are exactly the
/// pending tasks whose deadline is `today`, each given by its id and title,
/// and there are no more reminders than tasks.
pub proof fn lemma_due_tasks_exact(s: Seq<Task>, today: Seq<char>)
    ensures
        forall|k: int| 0 <= k < due_tasks(s, today).len() ==> reminder_of_due_task(s, today, #[trigger] due_tasks(s, today)[k]),
        forall|i: int|
            0 <= i < s.len() && pending_due(#[trigger] s[i], today) ==> exists|k: int|
                0 <= k < due_tasks(s, today).len() && due_tasks(s, today)[k] == (s[i].id, s[i].title@),
        due_tasks(s, today).len() <= s.len(),
    decreases s.len(),
{
    if s.len() > 0 {
        let t = s.drop_last();
        lemma_due_tasks_exact(t, today);
        let d = due_tasks(t, today);
        let last = s.last();
        let tail: Seq<(i32, Seq<char>)> = if due_on(last, today) { seq![(last.id, last.title@)] } else { seq![] };
        let r = due_tasks(s, today);
        assert(r == d + tail);
        assert(due_on(last, today) == pending_due(last, today));
        assert forall|k: int| 0 <= k < r.len() implies reminder_of_due_task(s, today, #[trigger] r[k]) by {
            if k < d.len() {
                assert(r[k] == d[k]);
                assert(reminder_of_due_task(t, today, d[k]));
                let i = choose|i: int| 0 <= i < t.len() && pending_due(#[trigger] t[i], today) && d[k].0 == t[i].id && d[k].1 == t[i].title@;
                assert(s[i] == t[i]);
                assert(pending_due(s[i], today));
            } else {
                assert(s[s.len() - 1] == last);
                assert(pending_due(s[s.len() - 1], today));
                assert(r[k] == (last.id, last.title@));
            }
        }
        assert forall|i: int| 0 <= i < s.len() && pending_due(#[trigger] s[i], today) implies exists|k: int|
            0 <= k < r.len() && r[k] == (s[i].id, s[i].title@) by {
            if i < s.len() - 1 {
                assert(t[i] == s[i]);
                assert(pending_due(t[i], today));
                let k = choose|k: int| 0 <= k < d.len() && d[k] == (t[i].id, t[i].title@);
                assert(r[k] == d[k]);
            } else {
                assert(s[i] == last);
                assert(r[d.len() as int] == (last.id, last.title@));
            }
        }
    }
}

/// The ids and titles of the pending tasks due on `today` (a `YYYY-MM-DD`
/// date, compared as text).
pub fn due_today(store: &TaskStore, today: &str) -> (r: Vec<(i32, String)>)
    ensures
        r@.map_values(|x: (i32, String)| (x.0, x.1@)) == due_tasks(store@, today@),
{
    let tasks = store.tasks();
    let today_s = today.to_owned();
    let mut out: Vec<(i32, String)> = Vec::new();
    let mut i: usize = 0;
    while i < tasks.len()
        invariant
            i <= tasks@.len(),
            tasks@ == store@,
            today_s@ == today@,
            out@.map_values(|x: (i32, String)| (x.0, x.1@)) == due_tasks(store@.take(i as int), today@),
        decreases tasks@.len() - i,
    {
        let t = &tasks[i];
        let ghost before = out@.map_values(|x: (i32, String)| (x.0, x.1@));
        assert(store@.take(i + 1).drop_last() =~= store@.take(i as int));
        let due = t.completed == 0 && match &t.deadline {
            Some(d) => *d == today_s,
            None => false,
        };
        if due {
            out.push((t.id, t.title.clone()));
            assert(out@.map_values(|x: (i32, String)| (x.0, x.1@)) =~= before.push((t.id, t.title@)));
        } else {
            assert(out@.map_values(|x: (i32, String)| (x.0, x.1@)) =~= before);
        }
        i = i + 1;
    }
    assert(store@.take(tasks@.len() as int) =~= store@);
    out
}

/// The body of the reminder of a task: `Task {id}: {title}`.
pub open spec fn reminder_text(id: i32, title: Seq<char>) -> Seq<char> {
    "Task "@ + int_chars(id as int) + ": "@ + title
}

/// The body of the reminder of a task.
pub fn reminder_body(id: i32, title: &str) -> (r: String)
    ensures
        r@ == reminder_text(id, title@),
{
    let mut s = String::new();
    s.append("Task ");
    push_int(&mut s, id);
    s.append(": ");
    s.append(title);
    assert(s@ =~= reminder_text(id, title@));
    s
}

/// The value of a decimal digit character.
pub open spec fn digit_value(c: char) -> int {
    (c as int) - 48
}

/// All characters are ASCII digits.
pub open spec fn all_digits(d: Seq<char>) -> bool {
    forall|i: int| 0 <= i < d.len() ==> '0' <= #[trigger] d[i] && d[i] <= '9'
}

/// The value of a string of decimal digits.
pub open spec fn digits_value(d: Seq<char>) -> int
    decreases d.len(),
{
    if d.len() == 0 {
        0
    } else {
        digits_value(d.drop_last()) * 10 + digit_value(d.last())
    }
}

/// `s.parse::<i32>()`: an optional `+` or `-` sign, then at least one ASCII
/// digit, and a value that fits in an `i32`.
pub open spec fn parse_i32(s: Seq<char>) -> Option<i32> {
    let neg = s.len() > 0 && s[0] == '-';
    let d = if s.len() > 0 && (s[0] == '-' || s[0] == '+') { s.skip(1) } else { s };
    if d.len() > 0 && all_digits(d) {
        let v = if neg { -digits_value(d) } else { digits_value(d) };
        if i32::MIN <= v <= i32::MAX {
            Some(v as i32)
        } else {
            None
        }
    } else {
        None
    }
}

proof fn lemma_digits_value_grows(d: Seq<char>, j: int)
    requires
        all_digits(d),
        0 <= j <= d.len(),
    ensures
        digits_value(d.take(j)) <= digits_value(d),
        0 <= digits_value(d.take(j)),
    decreases d.len() - j,
{
    if j < d.len() {
        assert(d.take(j + 1).drop_last() =~= d.take(j));
        assert(d.take(j + 1).last() == d[j]);
        lemma_digits_value_grows(d, j + 1);
        lemma_digits_nonneg(d.take(j));
    } else {
        assert(d.take(j) =~= d);
        lemma_digits_nonneg(d);
    }
}

proof fn lemma_digits_nonneg(d: Seq<char>)
    requires
        all_digits(d),
    ensures
        0 <= digits_value(d),
    decreases d.len(),
{
    if d.len() > 0 {
        assert(all_digits(d.drop_last())) by {
            assert forall|i: int| 0 <= i < d.drop_last().len() implies '0' <= #[trigger] d.drop_last()[i] && d.drop_last()[i] <= '9' by {
                assert(d.drop_last()[i] == d[i]);
            }
        }
        lemma_digits_nonneg(d.drop_last());
    }
}

/// `s.trim().parse::<i32>().ok()`: the process id written in a pid file.
pub fn parse_pid(s: &str) -> (r: Option<i32>)
    ensures
        r == parse_i32(trim(s@)),
{
    let t = trim_str(s);
    let n = t.unicode_len();
    let ghost ts = t@;
    let neg = n > 0 && t.get_char(0) == '-';
    let start: usize = if n > 0 && (t.get_char(0) == '-' || t.get_char(0) == '+') { 1 } else { 0 };
    let ghost d = if ts.len() > 0 && (ts[0] == '-' || ts[0] == '+') { ts.skip(1) } else { ts };
    assert(d =~= ts.skip(start as int));
    if start >= n {
        return None;
    }
    let mut acc: i64 = 0;
    let mut i: usize = start;
    while i < n
        invariant
            n == ts.len(),
            t@ == ts,
            ts == trim(s@),
            d == (if ts.len() > 0 && (ts[0] == '-' || ts[0] == '+') { ts.skip(1) } else { ts }),
            neg == (ts.len() > 0 && ts[0] == '-'),
            start <= i <= n,
            d == ts.skip(start as int),
            all_digits(d.take(i - start)),
            acc == digits_value(d.take(i - start)),
            0 <= acc <= 2147483648,
        decreases n - i,
    {
        let c = t.get_char(i);
        assert(d[i - start] == c);
        if c < '0' || c > '9' {
            assert(!('0' <= d[i - start] && d[i - start] <= '9'));
            assert(!all_digits(d));
            return None;
        }
        let v: i64 = (c as u32 - 48) as i64;
        assert(d.take(i + 1 - start).drop_last() =~= d.take(i - start));
        assert(all_digits(d.take(i + 1 - start)));
        let next = acc * 10 + v;
        assert(d.take(i + 1 - start).last() == c);
        assert(digit_value(c) == v);
        assert(digits_value(d.take(i + 1 - start)) == next);
        if next > 2147483648 {
            proof {
                if all_digits(d) {
                    lemma_digits_value_grows(d, i + 1 - start);
                }
            }
            return None;
        }
        acc = next;
        i = i + 1;
    }
    assert(d.take(n - start) =~= d);
    if neg {
        Some((0 - acc) as i32)
    } else if acc <= 2147483647 {
        Some(acc as i32)
    } else {
        None
    }
}

} // verus!
