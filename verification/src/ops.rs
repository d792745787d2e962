//! Operations on subtrees and on the chain of ancestors of a task: what to
//! delete, what to mark done or undone. Each function lists the ids that the
//! corresponding statements touch, in the order in which they touch them.
//!
//! The walks take a `fuel` bound; the functions pass the number of tasks,
//! which every walk that terminates at all stays within.

use vstd::prelude::*;
use crate::model::{Task, TaskStore, index_of, find_index, ids_unique};
use crate::tree::{same_parent, child_of, is_child_of, fuel_ok, is_down_path, own_descendant, lemma_fuel_enough, lemma_down_path_distinct, lemma_distinct_indices_bound};

verus! {

/// Post-order of the tasks below `p`, candidates from index `start` on:
/// each child's own subtree first, then the child.
pub open spec fn post_desc(s: Seq<Task>, p: Option<i32>, start: int, fuel: nat) -> Seq<i32>
    decreases fuel, s.len() - start,
{
    if fuel == 0 || start < 0 || start >= s.len() {
        seq![]
    } else if child_of(s, s[start], p) {
        post_desc(s, Some(s[start].id), 0, (fuel - 1) as nat) + seq![s[start].id] + post_desc(
            s,
            p,
            start + 1,
            fuel,
        )
    } else {
        post_desc(s, p, start + 1, fuel)
    }
}

/// The ids that deleting (or marking) task `id` with its whole subtree
/// touches, children before parents and `id` last.
pub open spec fn subtree_post(s: Seq<Task>, id: i32, fuel: nat) -> Seq<i32> {
    post_desc(s, Some(id), 0, fuel) + seq![id]
}

fn collect_post(tasks: &Vec<Task>, p: Option<i32>, fuel: usize, out: &mut Vec<i32>)
    ensures
        final(out)@ == old(out)@ + post_desc(tasks@, p, 0, fuel as nat),
    decreases fuel,
{
    if fuel == 0 {
        return;
    }
    let n = tasks.len();
    let mut i: usize = 0;
    while i < n
        invariant
            n == tasks@.len(),
            i <= n,
            fuel > 0,
            old(out)@ + post_desc(tasks@, p, 0, fuel as nat) == out@ + post_desc(tasks@, p, i as int, fuel as nat),
        decreases n - i,
    {
        if is_child_of(tasks, &tasks[i], p) {
            let ghost before = out@;
            collect_post(tasks, Some(tasks[i].id), fuel - 1, out);
            out.push(tasks[i].id);
            proof {
                assert(before + post_desc(tasks@, p, i as int, fuel as nat) =~= out@ + post_desc(
                    tasks@,
                    p,
                    i + 1,
                    fuel as nat,
                ));
            }
        }
        i = i + 1;
    }
}

/// The ids that deleting task `id` with its subtree deletes, and that
/// completing it with its subtree updates, in statement order: every task
/// below `id`, children before their parents and siblings in table order,
/// then `id` itself. A task that is its own descendant has no end below it;
/// the walk then stops after as many levels as there are tasks (see
/// `lemma_subtree_exact` for the tasks that are not).
pub fn subtree_post_order(store: &TaskStore, id: i32) -> (r: Vec<i32>)
    ensures
        r@ == subtree_post(store@, id, store@.len()),
{
    let tasks = store.tasks();
    let mut out: Vec<i32> = Vec::new();
    collect_post(tasks, Some(id), tasks.len(), &mut out);
    out.push(id);
    assert(out@ =~= subtree_post(store@, id, store@.len()));
    out
}

/// Whether some task has `id` as its parent.
pub open spec fn has_child(s: Seq<Task>, id: i32) -> bool {
    exists|j: int| 0 <= j < s.len() && s[j].parent_id == Some(id)
}

/// Whether some task is a child of `id`.
pub fn has_children(store: &TaskStore, id: i32) -> (r: bool)
    ensures
        r == has_child(store@, id),
{
    let tasks = store.tasks();
    let n = tasks.len();
    let mut i: usize = 0;
    while i < n
        invariant
            n == tasks@.len(),
            i <= n,
            tasks@ == store@,
            forall|j: int| 0 <= j < i ==> tasks@[j].parent_id != Some(id),
        decreases n - i,
    {
        if same_parent(tasks[i].parent_id, Some(id)) {
            assert(store@[i as int].parent_id == Some(id));
            return true;
        }
        i = i + 1;
    }
    false
}

/// The ancestors of `id`, nearest first: the parent of `id` (when `id` is a
/// task and has one), then the parent of that parent, and so on.
pub open spec fn ancestors(s: Seq<Task>, id: i32, fuel: nat) -> Seq<i32>
    decreases fuel,
{
    if fuel == 0 {
        seq![]
    } else {
        match index_of(s, id) {
            Some(i) => match s[i].parent_id {
                Some(p) => seq![p] + ancestors(s, p, (fuel - 1) as nat),
                None => seq![],
            },
            None => seq![],
        }
    }
}

/// The ids that marking task `id` undone marks undone in turn, in order:
/// the ancestors of `id`, nearest first. On a chain of parents that comes
/// back on itself the walk stops after as many steps as there are tasks
/// (see `lemma_ancestors_complete` for the chains that end).
pub fn ancestor_ids(store: &TaskStore, id: i32) -> (r: Vec<i32>)
    ensures
        r@ == ancestors(store@, id, store@.len()),
{
    let tasks = store.tasks();
    let n = tasks.len();
    let mut out: Vec<i32> = Vec::new();
    let mut cur = id;
    let mut fuel: usize = n;
    while fuel > 0
        invariant
            n == tasks@.len(),
            tasks@ == store@,
            ids_unique(store@),
            fuel <= n,
            out@ + ancestors(store@, cur, fuel as nat) == ancestors(store@, id, n as nat),
        decreases fuel,
    {
        match find_index(tasks, cur) {
            Some(i) => match tasks[i].parent_id {
                Some(p) => {
                    let ghost before = out@;
                    out.push(p);
                    assert(out@ + ancestors(store@, p, (fuel - 1) as nat) =~= before + ancestors(
                        store@,
                        cur,
                        fuel as nat,
                    ));
                    cur = p;
                    fuel = fuel - 1;
                },
                None => {
                    assert(out@ =~= out@ + ancestors(store@, cur, fuel as nat));
                    return out;
                },
            },
            None => {
                assert(out@ =~= out@ + ancestors(store@, cur, fuel as nat));
                return out;
            },
        }
    }
    assert(out@ =~= out@ + ancestors(store@, cur, 0));
    out
}

/// The completion column of the table.
pub open spec fn completions(s: Seq<Task>) -> Seq<i32> {
    Seq::new(s.len(), |i: int| s[i].completed)
}

/// The completion column after setting the tasks with an id in `ids` to `v`.
pub open spec fn set_completions(s: Seq<Task>, c: Seq<i32>, ids: Seq<i32>, v: i32) -> Seq<i32> {
    Seq::new(c.len(), |i: int| if ids.contains(s[i].id) { v } else { c[i] })
}

/// No child of `p` is pending under the completion column `c`
/// (`SELECT COUNT(*) FROM tasks WHERE parent_id = p AND completed = 0` is 0).
pub open spec fn all_children_done(s: Seq<Task>, c: Seq<i32>, p: i32) -> bool {
    forall|j: int| 0 <= j < s.len() && s[j].parent_id == Some(p) ==> c[j] != 0
}

/// The ancestors that completing `id` completes in turn, nearest first,
/// under the completion column `c`: the parent of `id` is completed when
/// none of its children is pending, and then the same is asked of its own
/// parent, with the parent now counted as done.
pub open spec fn parents_done(s: Seq<Task>, c: Seq<i32>, id: i32, fuel: nat) -> Seq<i32>
    decreases fuel,
{
    if fuel == 0 {
        seq![]
    } else {
        match index_of(s, id) {
            Some(i) => match s[i].parent_id {
                Some(p) => if all_children_done(s, c, p) {
                    seq![p] + parents_done(s, set_completions(s, c, seq![p], 1), p, (fuel - 1) as nat)
                } else {
                    seq![]
                },
                None => seq![],
            },
            None => seq![],
        }
    }
}

fn vec_contains(v: &Vec<i32>, x: i32) -> (r: bool)
    ensures
        r == v@.contains(x),
{
    let mut i: usize = 0;
    while i < v.len()
        invariant
            i <= v@.len(),
            forall|j: int| 0 <= j < i ==> v@[j] != x,
        decreases v@.len() - i,
    {
        if v[i] == x {
            assert(v@[i as int] == x);
            return true;
        }
        i = i + 1;
    }
    false
}

/// The completion column of the table.
pub fn completion_column(store: &TaskStore) -> (r: Vec<i32>)
    ensures
        r@ == completions(store@),
{
    let tasks = store.tasks();
    let mut out: Vec<i32> = Vec::new();
    let mut i: usize = 0;
    while i < tasks.len()
        invariant
            i <= tasks@.len(),
            tasks@ == store@,
            out@ =~= completions(store@).take(i as int),
        decreases tasks@.len() - i,
    {
        out.push(tasks[i].completed);
        i = i + 1;
    }
    assert(completions(store@).take(tasks@.len() as int) =~= completions(store@));
    out
}

/// The completion column `c` after setting the tasks with an id in `ids`
/// to `v`.
pub fn with_completions(store: &TaskStore, c: &Vec<i32>, ids: &Vec<i32>, v: i32) -> (r: Vec<i32>)
    requires
        c@.len() == store@.len(),
    ensures
        r@ == set_completions(store@, c@, ids@, v),
{
    let tasks = store.tasks();
    let mut out: Vec<i32> = Vec::new();
    let mut i: usize = 0;
    while i < c.len()
        invariant
            i <= c@.len(),
            c@.len() == tasks@.len(),
            tasks@ == store@,
            out@ =~= set_completions(store@, c@, ids@, v).take(i as int),
        decreases c@.len() - i,
    {
        if vec_contains(ids, tasks[i].id) {
            out.push(v);
        } else {
            out.push(c[i]);
        }
        i = i + 1;
    }
    assert(set_completions(store@, c@, ids@, v).take(c@.len() as int) =~= set_completions(
        store@,
        c@,
        ids@,
        v,
    ));
    out
}

fn children_all_done(tasks: &Vec<Task>, c: &Vec<i32>, p: i32) -> (r: bool)
    requires
        c@.len() == tasks@.len(),
    ensures
        r == all_children_done(tasks@, c@, p),
{
    let mut i: usize = 0;
    while i < tasks.len()
        invariant
            i <= tasks@.len(),
            c@.len() == tasks@.len(),
            forall|j: int| 0 <= j < i && tasks@[j].parent_id == Some(p) ==> c@[j] != 0,
        decreases tasks@.len() - i,
    {
        if same_parent(tasks[i].parent_id, Some(p)) && c[i] == 0 {
            return false;
        }
        i = i + 1;
    }
    true
}

/// The ids that completing task `id` completes in turn, nearest first, when
/// the completion column is `c` (see `lemma_parents_done_complete`).
pub fn parents_to_complete(store: &TaskStore, c: &Vec<i32>, id: i32) -> (r: Vec<i32>)
    requires
        c@.len() == store@.len(),
    ensures
        r@ == parents_done(store@, c@, id, store@.len()),
{
    let tasks = store.tasks();
    let n = tasks.len();
    let mut out: Vec<i32> = Vec::new();
    let mut cur = id;
    let mut col: Vec<i32> = c.clone();
    let mut fuel: usize = n;
    assert(col@ == c@);
    while fuel > 0
        invariant
            n == tasks@.len(),
            tasks@ == store@,
            ids_unique(store@),
            col@.len() == n,
            fuel <= n,
            out@ + parents_done(store@, col@, cur, fuel as nat) == parents_done(store@, c@, id, n as nat),
        decreases fuel,
    {
        match find_index(tasks, cur) {
            Some(i) => match tasks[i].parent_id {
                Some(p) => {
                    if children_all_done(tasks, &col, p) {
                        let ghost before = out@;
                        let ghost col0 = col@;
                        out.push(p);
                        let mut one: Vec<i32> = Vec::new();
                        one.push(p);
                        assert(one@ =~= seq![p]);
                        col = with_completions(store, &col, &one, 1);
                        assert(out@ + parents_done(store@, col@, p, (fuel - 1) as nat) =~= before
                            + parents_done(store@, col0, cur, fuel as nat));
                        cur = p;
                        fuel = fuel - 1;
                    } else {
                        assert(out@ =~= out@ + parents_done(store@, col@, cur, fuel as nat));
                        return out;
                    }
                },
                None => {
                    assert(out@ =~= out@ + parents_done(store@, col@, cur, fuel as nat));
                    return out;
                },
            },
            None => {
                assert(out@ =~= out@ + parents_done(store@, col@, cur, fuel as nat));
                return out;
            },
        }
    }
    assert(out@ =~= out@ + parents_done(store@, col@, cur, 0));
    out
}


/// Once the fuel is enough, more fuel changes no post-order.
pub proof fn lemma_post_stable(s: Seq<Task>, p: Option<i32>, start: int, f: nat, g: nat)
    requires
        fuel_ok(s, p, start, f),
        f <= g,
        0 <= start,
    ensures
        post_desc(s, p, start, f) == post_desc(s, p, start, g),
    decreases f, s.len() - start,
{
    if start < s.len() {
        lemma_post_stable(s, p, start + 1, f, g);
        if child_of(s, s[start], p) {
            lemma_post_stable(s, Some(s[start].id), 0, (f - 1) as nat, (g - 1) as nat);
        }
    }
}

/// `x` is the id of the last task of a downward path from `p` that starts
/// at index `start` or later and has at most `f` tasks.
pub open spec fn reaches(s: Seq<Task>, p: Option<i32>, start: int, f: nat, x: i32) -> bool {
    exists|path: Seq<int>|
        is_down_path(s, p, path) && path[0] >= start && path.len() <= f && s[path.last()].id == x
}

proof fn lemma_post_sound(s: Seq<Task>, p: Option<i32>, start: int, f: nat, x: i32)
    requires
        0 <= start,
        post_desc(s, p, start, f).contains(x),
    ensures
        reaches(s, p, start, f, x),
    decreases f, s.len() - start,
{
    if f == 0 || start >= s.len() {
    } else if child_of(s, s[start], p) {
        let a = post_desc(s, Some(s[start].id), 0, (f - 1) as nat);
        let c = post_desc(s, p, start + 1, f);
        assert(post_desc(s, p, start, f) == a + seq![s[start].id] + c);
        let k = choose|k: int| 0 <= k < (a + seq![s[start].id] + c).len() && (a + seq![s[start].id] + c)[k] == x;
        if k < a.len() {
            assert(a[k] == x);
            lemma_post_sound(s, Some(s[start].id), 0, (f - 1) as nat, x);
            let q = choose|q: Seq<int>|
                is_down_path(s, Some(s[start].id), q) && q[0] >= 0 && q.len() <= (f - 1) as nat && s[q.last()].id == x;
            let path = seq![start] + q;
            assert forall|j: int| 1 <= j < path.len() implies s[#[trigger] path[j]].parent_id == Some(s[path[j - 1]].id) by {
                assert(path[j] == q[j - 1]);
                if j > 1 {
                    assert(path[j - 1] == q[j - 2]);
                }
            }
            assert forall|j: int| 0 <= j < path.len() implies 0 <= #[trigger] path[j] < s.len() by {
                if j > 0 {
                    assert(path[j] == q[j - 1]);
                }
            }
            assert(path.last() == q.last());
            assert(is_down_path(s, p, path) && path[0] >= start && path.len() <= f && s[path.last()].id == x);
        } else if k == a.len() {
            let path = seq![start];
            assert(is_down_path(s, p, path) && path[0] >= start && path.len() <= f && s[path.last()].id == x);
        } else {
            assert(c[k - a.len() - 1] == x);
            lemma_post_sound(s, p, start + 1, f, x);
        }
    } else {
        lemma_post_sound(s, p, start + 1, f, x);
    }
}

proof fn lemma_post_complete(s: Seq<Task>, p: Option<i32>, start: int, f: nat, path: Seq<int>)
    requires
        0 <= start,
        is_down_path(s, p, path),
        path[0] >= start,
        path.len() <= f,
    ensures
        post_desc(s, p, start, f).contains(s[path.last()].id),
    decreases f, s.len() - start,
{
    let x = s[path.last()].id;
    if child_of(s, s[start], p) {
        let a = post_desc(s, Some(s[start].id), 0, (f - 1) as nat);
        let c = post_desc(s, p, start + 1, f);
        assert(post_desc(s, p, start, f) == a + seq![s[start].id] + c);
        if path[0] == start {
            if path.len() == 1 {
                assert((a + seq![s[start].id] + c)[a.len() as int] == x);
            } else {
                let q = path.drop_first();
                assert forall|j: int| 1 <= j < q.len() implies s[#[trigger] q[j]].parent_id == Some(s[q[j - 1]].id) by {
                    assert(q[j] == path[j + 1]);
                    assert(q[j - 1] == path[j]);
                }
                assert(q[0] == path[1]);
                assert(s[q[0]].parent_id == Some(s[path[0]].id));
                assert(q.last() == path.last());
                lemma_post_complete(s, Some(s[start].id), 0, (f - 1) as nat, q);
                let k = choose|k: int| 0 <= k < a.len() && a[k] == x;
                assert((a + seq![s[start].id] + c)[k] == x);
            }
        } else {
            lemma_post_complete(s, p, start + 1, f, path);
            let k = choose|k: int| 0 <= k < c.len() && c[k] == x;
            assert((a + seq![s[start].id] + c)[a.len() + 1 + k] == x);
        }
    } else {
        lemma_post_complete(s, p, start + 1, f, path);
    }
}

/// Law of subtree deletion (and completion): for a task that is not its own
/// descendant, the ids touched are exactly the task itself and every task
/// below it, however deep, and asking for more depth than there are tasks
/// adds nothing.
pub proof fn lemma_subtree_exact(s: Seq<Task>, id: i32, f: nat, x: i32)
    requires
        ids_unique(s),
        !own_descendant(s, id),
        f >= s.len(),
    ensures
        subtree_post(s, id, f) == subtree_post(s, id, s.len()),
        subtree_post(s, id, s.len()).contains(x) <==> (x == id || exists|path: Seq<int>|
            is_down_path(s, Some(id), path) && s[path.last()].id == x),
{
    lemma_fuel_enough(s, Some(id));
    lemma_post_stable(s, Some(id), 0, s.len(), f);
    let whole = subtree_post(s, id, s.len());
    let below = post_desc(s, Some(id), 0, s.len());
    assert(whole == below + seq![id]);
    if whole.contains(x) && x != id {
        let k = choose|k: int| 0 <= k < whole.len() && whole[k] == x;
        assert(below[k] == x);
        lemma_post_sound(s, Some(id), 0, s.len(), x);
    }
    if exists|path: Seq<int>| is_down_path(s, Some(id), path) && s[path.last()].id == x {
        let path = choose|path: Seq<int>| is_down_path(s, Some(id), path) && s[path.last()].id == x;
        lemma_down_path_distinct(s, Some(id), path);
        lemma_distinct_indices_bound(path, s.len());
        lemma_post_complete(s, Some(id), 0, s.len(), path);
        let k = choose|k: int| 0 <= k < below.len() && below[k] == x;
        assert(whole[k] == x);
    }
    if x == id {
        assert(whole[below.len() as int] == id);
    }
}


/// The walk up from `id` ends (at a task without parent, or at a parent id
/// that is no task) within `f` steps.
pub open spec fn up_ok(s: Seq<Task>, id: i32, f: nat) -> bool
    decreases f,
{
    match index_of(s, id) {
        Some(i) => match s[i].parent_id {
            Some(p) => f > 0 && up_ok(s, p, (f - 1) as nat),
            None => true,
        },
        None => true,
    }
}

/// The index of the task reached after `k` steps up from `id`.
pub open spec fn chain(s: Seq<Task>, id: i32, k: nat) -> Option<int>
    decreases k,
{
    if k == 0 {
        index_of(s, id)
    } else {
        match index_of(s, id) {
            Some(i) => match s[i].parent_id {
                Some(p) => chain(s, p, (k - 1) as nat),
                None => None,
            },
            None => None,
        }
    }
}

/// One step up from an index.
pub open spec fn next_up(s: Seq<Task>, o: Option<int>) -> Option<int> {
    match o {
        Some(i) => match s[i].parent_id {
            Some(p) => index_of(s, p),
            None => None,
        },
        None => None,
    }
}

/// The walk has ended by step `k`.
pub open spec fn stopped(s: Seq<Task>, id: i32, k: nat) -> bool {
    match chain(s, id, k) {
        Some(i) => s[i].parent_id is None,
        None => true,
    }
}

proof fn lemma_chain_step(s: Seq<Task>, id: i32, k: nat)
    ensures
        chain(s, id, k + 1) == next_up(s, chain(s, id, k)),
    decreases k,
{
    match index_of(s, id) {
        Some(i) => match s[i].parent_id {
            Some(p) => {
                if k > 0 {
                    lemma_chain_step(s, p, (k - 1) as nat);
                } else {
                    assert(chain(s, p, 0) == index_of(s, p));
                }
            },
            None => {},
        },
        None => {},
    }
}

proof fn lemma_up_ok_stopped(s: Seq<Task>, id: i32, f: nat)
    ensures
        up_ok(s, id, f) == stopped(s, id, f),
    decreases f,
{
    match index_of(s, id) {
        Some(i) => match s[i].parent_id {
            Some(p) => {
                if f > 0 {
                    lemma_up_ok_stopped(s, p, (f - 1) as nat);
                }
            },
            None => {},
        },
        None => {},
    }
}

proof fn lemma_stopped_stays(s: Seq<Task>, id: i32, k: nat, l: nat)
    requires
        stopped(s, id, k),
        k <= l,
    ensures
        stopped(s, id, l),
    decreases l - k,
{
    if k < l {
        lemma_chain_step(s, id, k);
        lemma_stopped_stays(s, id, k + 1, l);
    }
}

proof fn lemma_index_of_valid(s: Seq<Task>, id: i32)
    ensures
        index_of(s, id) matches Some(i) ==> 0 <= i < s.len() && s[i].id == id,
{
    if exists|i: int| 0 <= i < s.len() && s[i].id == id {
    }
}

proof fn lemma_chain_valid(s: Seq<Task>, id: i32, k: nat)
    ensures
        chain(s, id, k) matches Some(i) ==> 0 <= i < s.len(),
    decreases k,
{
    lemma_index_of_valid(s, id);
    if k > 0 {
        match index_of(s, id) {
            Some(i) => match s[i].parent_id {
                Some(p) => lemma_chain_valid(s, p, (k - 1) as nat),
                None => {},
            },
            None => {},
        }
    }
}

proof fn lemma_chain_shift(s: Seq<Task>, id: i32, a: nat, d: nat, x: nat)
    requires
        chain(s, id, a) == chain(s, id, a + d),
        a <= x,
    ensures
        chain(s, id, x) == chain(s, id, x + d),
    decreases x - a,
{
    if x > a {
        lemma_chain_shift(s, id, a, d, (x - 1) as nat);
        lemma_chain_step(s, id, (x - 1) as nat);
        lemma_chain_step(s, id, (x - 1 + d) as nat);
    }
}

proof fn lemma_never_stops(s: Seq<Task>, id: i32, a: nat, b: nat, k: nat)
    requires
        a < b,
        chain(s, id, a) == chain(s, id, b),
        forall|j: nat| j <= b ==> !#[trigger] stopped(s, id, j),
    ensures
        !stopped(s, id, k),
    decreases k,
{
    if k > b {
        let d = (b - a) as nat;
        lemma_chain_shift(s, id, a, d, (k - d) as nat);
        lemma_never_stops(s, id, a, b, (k - d) as nat);
    }
}

/// Law of the walk up: when the walk up from `id` ends at all, it ends
/// within as many steps as there are tasks, so `ancestor_ids` lists every
/// ancestor, and more steps add nothing.
pub proof fn lemma_ancestors_complete(s: Seq<Task>, id: i32, f: nat, g: nat)
    requires
        ids_unique(s),
        up_ok(s, id, f),
        g >= s.len(),
    ensures
        up_ok(s, id, s.len()),
        ancestors(s, id, g) == ancestors(s, id, s.len()),
        ancestors(s, id, f) == ancestors(s, id, s.len()),
{
    let n = s.len();
    lemma_up_ok_stopped(s, id, f);
    lemma_up_ok_stopped(s, id, n);
    if !stopped(s, id, n) {
        assert forall|j: nat| j <= n implies !#[trigger] stopped(s, id, j) by {
            if stopped(s, id, j) {
                lemma_stopped_stays(s, id, j, n);
            }
        }
        assert forall|j: nat| j <= n implies (#[trigger] chain(s, id, j)) is Some by {
            assert(!stopped(s, id, j));
        }
        let q = Seq::new((n + 1) as nat, |k: int| chain(s, id, k as nat).unwrap());
        assert forall|k: int| 0 <= k < q.len() implies 0 <= #[trigger] q[k] < n by {
            lemma_chain_valid(s, id, k as nat);
            assert(chain(s, id, k as nat) is Some);
        }
        if q.no_duplicates() {
            crate::tree::lemma_distinct_indices_bound(q, n);
        } else {
            let (a, b) = choose|a: int, b: int| 0 <= a < q.len() && 0 <= b < q.len() && a != b && q[a] == q[b];
            let (lo, hi) = if a < b { (a, b) } else { (b, a) };
            assert(chain(s, id, lo as nat) is Some);
            assert(chain(s, id, hi as nat) is Some);
            assert(chain(s, id, lo as nat) == chain(s, id, hi as nat));
            lemma_never_stops(s, id, lo as nat, hi as nat, f);
        }
    }
    lemma_up_stable(s, id, n, g);
    if f <= n {
        lemma_up_stable(s, id, f, n);
    } else {
        lemma_up_stable(s, id, n, f);
    }
}

proof fn lemma_up_stable(s: Seq<Task>, id: i32, f: nat, g: nat)
    requires
        up_ok(s, id, f),
        f <= g,
    ensures
        ancestors(s, id, f) == ancestors(s, id, g),
    decreases f,
{
    match index_of(s, id) {
        Some(i) => match s[i].parent_id {
            Some(p) => {
                lemma_up_stable(s, p, (f - 1) as nat, (g - 1) as nat);
            },
            None => {},
        },
        None => {},
    }
}


/// The completion walk from `id` under column `c` ends within `f` steps:
/// at a task without parent, at a parent id that is no task, or at a parent
/// with a pending child.
pub open spec fn pd_ok(s: Seq<Task>, c: Seq<i32>, id: i32, f: nat) -> bool
    decreases f,
{
    match index_of(s, id) {
        Some(i) => match s[i].parent_id {
            Some(p) => if all_children_done(s, c, p) {
                f > 0 && pd_ok(s, set_completions(s, c, seq![p], 1), p, (f - 1) as nat)
            } else {
                true
            },
            None => true,
        },
        None => true,
    }
}

/// The completion walk ends at `id` under column `c`.
pub open spec fn pd_stops_here(s: Seq<Task>, c: Seq<i32>, id: i32) -> bool {
    match index_of(s, id) {
        Some(i) => match s[i].parent_id {
            Some(p) => !all_children_done(s, c, p),
            None => true,
        },
        None => true,
    }
}

/// The column and the task id after `d` steps of the completion walk, if
/// it does not end before.
pub open spec fn pd_seg(s: Seq<Task>, c: Seq<i32>, id: i32, d: nat) -> Option<(Seq<i32>, i32)>
    decreases d,
{
    if d == 0 {
        Some((c, id))
    } else if pd_stops_here(s, c, id) {
        None
    } else {
        let p = s[index_of(s, id).unwrap()].parent_id.unwrap();
        pd_seg(s, set_completions(s, c, seq![p], 1), p, (d - 1) as nat)
    }
}

/// Every task done under `c1` is done under `c2`.
pub open spec fn more_done(c1: Seq<i32>, c2: Seq<i32>) -> bool {
    c1.len() == c2.len() && forall|j: int| 0 <= j < c1.len() && c1[j] != 0 ==> #[trigger] c2[j] != 0
}

proof fn lemma_pd_stable(s: Seq<Task>, c: Seq<i32>, id: i32, f: nat, g: nat)
    requires
        pd_ok(s, c, id, f),
        f <= g,
    ensures
        pd_ok(s, c, id, g),
        parents_done(s, c, id, f) == parents_done(s, c, id, g),
    decreases f,
{
    match index_of(s, id) {
        Some(i) => match s[i].parent_id {
            Some(p) => if all_children_done(s, c, p) {
                lemma_pd_stable(s, set_completions(s, c, seq![p], 1), p, (f - 1) as nat, (g - 1) as nat);
            },
            None => {},
        },
        None => {},
    }
}

proof fn lemma_pd_seg_compose(s: Seq<Task>, c: Seq<i32>, id: i32, d: nat, g: nat)
    requires
        pd_seg(s, c, id, d) is Some,
    ensures
        g < d ==> !pd_ok(s, c, id, g),
        g >= d ==> pd_ok(s, c, id, g) == pd_ok(s, pd_seg(s, c, id, d).unwrap().0, pd_seg(s, c, id, d).unwrap().1, (g - d) as nat),
    decreases d,
{
    if d > 0 {
        let i = index_of(s, id).unwrap();
        let p = s[i].parent_id.unwrap();
        if g > 0 {
            lemma_pd_seg_compose(s, set_completions(s, c, seq![p], 1), p, (d - 1) as nat, (g - 1) as nat);
        }
    }
}

proof fn lemma_pd_seg_split(s: Seq<Task>, c: Seq<i32>, id: i32, a: nat, d: nat)
    requires
        pd_seg(s, c, id, a + d) is Some,
    ensures
        pd_seg(s, c, id, a) is Some,
        pd_seg(s, pd_seg(s, c, id, a).unwrap().0, pd_seg(s, c, id, a).unwrap().1, d) == pd_seg(s, c, id, a + d),
    decreases a,
{
    if a > 0 {
        let i = index_of(s, id).unwrap();
        let p = s[i].parent_id.unwrap();
        lemma_pd_seg_split(s, set_completions(s, c, seq![p], 1), p, (a - 1) as nat, d);
    }
}

proof fn lemma_set_more_done(s: Seq<Task>, c1: Seq<i32>, c2: Seq<i32>, p: i32)
    requires
        more_done(c1, c2),
    ensures
        more_done(set_completions(s, c1, seq![p], 1), set_completions(s, c2, seq![p], 1)),
        more_done(c1, set_completions(s, c1, seq![p], 1)),
{
}

proof fn lemma_pd_seg_monotone(s: Seq<Task>, c1: Seq<i32>, c2: Seq<i32>, id: i32, d: nat)
    requires
        pd_seg(s, c1, id, d) is Some,
        more_done(c1, c2),
        c1.len() == s.len(),
    ensures
        pd_seg(s, c2, id, d) is Some,
        pd_seg(s, c2, id, d).unwrap().1 == pd_seg(s, c1, id, d).unwrap().1,
        more_done(pd_seg(s, c1, id, d).unwrap().0, pd_seg(s, c2, id, d).unwrap().0),
        more_done(c1, pd_seg(s, c1, id, d).unwrap().0),
    decreases d,
{
    if d > 0 {
        let i = index_of(s, id).unwrap();
        let p = s[i].parent_id.unwrap();
        assert(all_children_done(s, c1, p));
        assert forall|j: int| 0 <= j < s.len() && s[j].parent_id == Some(p) implies c2[j] != 0 by {
            assert(c1[j] != 0);
        }
        assert(!pd_stops_here(s, c2, id));
        lemma_set_more_done(s, c1, c2, p);
        lemma_pd_seg_monotone(s, set_completions(s, c1, seq![p], 1), set_completions(s, c2, seq![p], 1), p, (d - 1) as nat);
    }
}

proof fn lemma_pd_loops(s: Seq<Task>, ca: Seq<i32>, x: i32, d: nat, e: Seq<i32>, g: nat)
    requires
        d > 0,
        pd_seg(s, ca, x, d) matches Some((cb, y)) && y == x,
        more_done(ca, e),
        ca.len() == s.len(),
    ensures
        !pd_ok(s, e, x, g),
    decreases g,
{
    lemma_pd_seg_monotone(s, ca, e, x, d);
    let (e2, y) = pd_seg(s, e, x, d).unwrap();
    lemma_pd_seg_compose(s, e, x, d, g);
    if g >= d {
        let cb = pd_seg(s, ca, x, d).unwrap().0;
        assert(more_done(ca, e2)) by {
            assert forall|j: int| 0 <= j < ca.len() && ca[j] != 0 implies #[trigger] e2[j] != 0 by {
                assert(cb[j] != 0);
            }
        }
        lemma_pd_loops(s, ca, x, d, e2, (g - d) as nat);
    }
}

proof fn lemma_pd_seg_exists(s: Seq<Task>, c: Seq<i32>, id: i32, f: nat, k: nat)
    requires
        !pd_ok(s, c, id, f),
        k <= f,
    ensures
        pd_seg(s, c, id, k) matches Some((ck, idk)) && !pd_stops_here(s, ck, idk),
    decreases k,
{
    let i = index_of(s, id).unwrap();
    let p = s[i].parent_id.unwrap();
    if k > 0 {
        lemma_pd_seg_exists(s, set_completions(s, c, seq![p], 1), p, (f - 1) as nat, (k - 1) as nat);
    }
}

/// Law of the completion walk: when the walk that completes ancestors ends
/// at all, it ends within as many steps as there are tasks, so
/// `parents_to_complete` lists every ancestor it completes, and more steps
/// add nothing.
pub proof fn lemma_parents_done_complete(s: Seq<Task>, c: Seq<i32>, id: i32, f: nat, g: nat)
    requires
        ids_unique(s),
        c.len() == s.len(),
        pd_ok(s, c, id, f),
        g >= s.len(),
    ensures
        pd_ok(s, c, id, s.len()),
        parents_done(s, c, id, g) == parents_done(s, c, id, s.len()),
        parents_done(s, c, id, f) == parents_done(s, c, id, s.len()),
{
    let n = s.len();
    if !pd_ok(s, c, id, n) {
        if f <= n {
            lemma_pd_stable(s, c, id, f, n);
        }
        let q = Seq::new((n + 1) as nat, |k: int| index_of(s, pd_seg(s, c, id, k as nat).unwrap().1).unwrap());
        assert forall|k: int| 0 <= k < q.len() implies 0 <= #[trigger] q[k] < n by {
            lemma_pd_seg_exists(s, c, id, n, k as nat);
            lemma_index_of_valid(s, pd_seg(s, c, id, k as nat).unwrap().1);
        }
        if q.no_duplicates() {
            crate::tree::lemma_distinct_indices_bound(q, n);
        } else {
            let (a, b) = choose|a: int, b: int| 0 <= a < q.len() && 0 <= b < q.len() && a != b && q[a] == q[b];
            let (lo, hi) = if a < b { (a as nat, b as nat) } else { (b as nat, a as nat) };
            lemma_pd_seg_exists(s, c, id, n, lo);
            lemma_pd_seg_exists(s, c, id, n, hi);
            let (ca, xa) = pd_seg(s, c, id, lo).unwrap();
            let (cb, xb) = pd_seg(s, c, id, hi).unwrap();
            lemma_index_of_valid(s, xa);
            lemma_index_of_valid(s, xb);
            assert(xa == xb);
            let d = (hi - lo) as nat;
            lemma_pd_seg_split(s, c, id, lo, d);
            lemma_pd_seg_compose(s, c, id, lo, f);
            assert(more_done(c, c));
            lemma_pd_seg_monotone(s, c, c, id, lo);
            assert(more_done(ca, ca));
            lemma_pd_loops(s, ca, xa, d, ca, (f - lo) as nat);
        }
    }
    lemma_pd_stable(s, c, id, n, g);
    if f <= n {
        lemma_pd_stable(s, c, id, f, n);
    } else {
        lemma_pd_stable(s, c, id, n, f);
    }
}

/// Law of the completion statements: setting the same tasks to the same
/// value again changes nothing, and only the tasks named are touched.
pub proof fn lemma_set_completions_idempotent(s: Seq<Task>, c: Seq<i32>, ids: Seq<i32>, v: i32)
    requires
        c.len() == s.len(),
    ensures
        set_completions(s, set_completions(s, c, ids, v), ids, v) == set_completions(s, c, ids, v),
        forall|i: int| 0 <= i < c.len() && !ids.contains(#[trigger] s[i].id) ==> set_completions(s, c, ids, v)[i] == c[i],
        forall|i: int| 0 <= i < c.len() && ids.contains(#[trigger] s[i].id) ==> set_completions(s, c, ids, v)[i] == v,
{
    assert(set_completions(s, set_completions(s, c, ids, v), ids, v) =~= set_completions(s, c, ids, v));
}

} // verus!
