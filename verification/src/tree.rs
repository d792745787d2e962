//! The forest structure of the task table: depth-first, pre-order listings
//! of the tasks under a parent, children in table order.
//!
//! The listings take a `fuel` argument that bounds their depth; the
//! functions that compute them pass the number of tasks, which is enough on
//! every table (see `lemma_fuel_enough`).

use vstd::prelude::*;
use crate::model::{Task, TaskStore, ids_unique};
use vstd::set_lib::{set_int_range, lemma_int_range, lemma_len_subset};

verus! {

/// One line of a listing: the index of a task in the table and its depth.
#[derive(Clone, Copy, PartialEq, Eq, Structural)]
pub struct Row {
    pub index: usize,
    pub level: usize,
}

/// `a == b` for optional ids.
pub fn same_parent(a: Option<i32>, b: Option<i32>) -> (r: bool)
    ensures
        r == (a == b),
{
    match (a, b) {
        (None, None) => true,
        (Some(x), Some(y)) => x == y,
        _ => false,
    }
}

/// A task that starts the listing: it has no parent, or its parent is not
/// in the table (its row was deleted, or it never existed), so that no task
/// drops out of the listings.
pub open spec fn is_root(s: Seq<Task>, t: Task) -> bool {
    match t.parent_id {
        None => true,
        Some(q) => !(exists|i: int| 0 <= i < s.len() && #[trigger] s[i].id == q),
    }
}

/// `t` is listed right below `p`: below a task `Some(x)` when its parent is
/// `x`, at the top (`None`) when it is a root.
pub open spec fn child_of(s: Seq<Task>, t: Task, p: Option<i32>) -> bool {
    match p {
        Some(x) => t.parent_id == Some(x),
        None => is_root(s, t),
    }
}

/// Whether `t` is listed right below `p` (see `child_of`).
pub fn is_child_of(tasks: &Vec<Task>, t: &Task, p: Option<i32>) -> (r: bool)
    ensures
        r == child_of(tasks@, *t, p),
{
    match p {
        Some(x) => same_parent(t.parent_id, Some(x)),
        None => match t.parent_id {
            None => true,
            Some(q) => {
                let mut i: usize = 0;
                while i < tasks.len()
                    invariant
                        i <= tasks@.len(),
                        t.parent_id == Some(q),
                        p is None,
                        forall|j: int| 0 <= j < i ==> #[trigger] tasks@[j].id != q,
                    decreases tasks@.len() - i,
                {
                    if tasks[i].id == q {
                        assert(0 <= i < tasks@.len() && tasks@[i as int].id == q);
                        return false;
                    }
                    i = i + 1;
                }
                true
            },
        },
    }
}

/// The pre-order listing of the tasks below `p` (the roots when `p` is
/// `None`), looking at the candidates from index `start` on: each child of
/// `p`, at depth `level`, followed by its own listing one level deeper.
pub open spec fn preorder(
    s: Seq<Task>,
    p: Option<i32>,
    start: int,
    level: nat,
    fuel: nat,
) -> Seq<Row>
    decreases fuel, s.len() - start,
{
    if fuel == 0 || start < 0 || start >= s.len() {
        seq![]
    } else if child_of(s, s[start], p) {
        seq![Row { index: start as usize, level: level as usize }] + preorder(
            s,
            Some(s[start].id),
            0,
            level + 1,
            (fuel - 1) as nat,
        ) + preorder(s, p, start + 1, level, fuel)
    } else {
        preorder(s, p, start + 1, level, fuel)
    }
}

/// Every row of a listing names a task of the table, and no row is deeper
/// than `level + fuel`.
pub proof fn lemma_preorder_rows_valid(
    s: Seq<Task>,
    p: Option<i32>,
    start: int,
    level: nat,
    fuel: nat,
)
    requires
        level + fuel <= s.len(),
    ensures
        forall|k: int|
            0 <= k < preorder(s, p, start, level, fuel).len() ==> {
                let r = #[trigger] preorder(s, p, start, level, fuel)[k];
                &&& r.index < s.len()
                &&& r.level < level + fuel
            },
    decreases fuel, s.len() - start,
{
    if fuel == 0 || start < 0 || start >= s.len() {
    } else if child_of(s, s[start], p) {
        lemma_preorder_rows_valid(s, Some(s[start].id), 0, level + 1, (fuel - 1) as nat);
        lemma_preorder_rows_valid(s, p, start + 1, level, fuel);
        let a = seq![Row { index: start as usize, level: level as usize }];
        let b = preorder(s, Some(s[start].id), 0, level + 1, (fuel - 1) as nat);
        let c = preorder(s, p, start + 1, level, fuel);
        assert(preorder(s, p, start, level, fuel) == a + b + c);
        assert forall|k: int|
            0 <= k < (a + b + c).len() implies (a + b + c)[k].index < s.len() && (a + b
                + c)[k].level < level + fuel by {
            if k < 1 {
            } else if k < 1 + b.len() {
                assert((a + b + c)[k] == b[k - 1]);
            } else {
                assert((a + b + c)[k] == c[k - 1 - b.len()]);
            }
        }
    } else {
        lemma_preorder_rows_valid(s, p, start + 1, level, fuel);
    }
}

/// Every row names a task of `s` and is at most `s.len()` deep.
pub open spec fn rows_valid(s: Seq<Task>, rows: Seq<Row>) -> bool {
    forall|k: int| 0 <= k < rows.len() ==> #[trigger] rows[k].index < s.len() && rows[k].level < s.len()
}

/// The listing of the whole table: all tasks reachable from a root, a root
/// being a task without a parent or whose parent is missing.
pub open spec fn listing(s: Seq<Task>) -> Seq<Row> {
    preorder(s, None, 0, 0, s.len())
}

fn collect_preorder(
    tasks: &Vec<Task>,
    p: Option<i32>,
    level: usize,
    fuel: usize,
    out: &mut Vec<Row>,
)
    requires
        level + fuel <= tasks@.len(),
    ensures
        final(out)@ == old(out)@ + preorder(tasks@, p, 0, level as nat, fuel as nat),
    decreases fuel,
{
    if fuel == 0 {
        return;
    }
    let n = tasks.len();
    let mut i: usize = 0;
    while i < n
        invariant
            n == tasks@.len(),
            i <= n,
            fuel > 0,
            level + fuel <= n,
            old(out)@ + preorder(tasks@, p, 0, level as nat, fuel as nat) == out@
                + preorder(tasks@, p, i as int, level as nat, fuel as nat),
        decreases n - i,
    {
        let t = &tasks[i];
        if is_child_of(tasks, t, p) {
            let ghost before = out@;
            out.push(Row { index: i, level });
            collect_preorder(tasks, Some(t.id), level + 1, fuel - 1, out);
            proof {
                assert(before + preorder(tasks@, p, i as int, level as nat, fuel as nat)
                    =~= out@ + preorder(tasks@, p, i + 1, level as nat, fuel as nat));
            }
        }
        i = i + 1;
    }
}

/// The rows of the tasks reachable from a root, depth first, children in
/// table order.
pub fn listing_rows(store: &TaskStore) -> (r: Vec<Row>)
    ensures
        r@ == listing(store@),
        rows_valid(store@, r@),
{
    let tasks = store.tasks();
    let mut out: Vec<Row> = Vec::new();
    collect_preorder(tasks, None, 0, tasks.len(), &mut out);
    proof {
        assert(out@ =~= listing(store@));
        lemma_preorder_rows_valid(store@, None, 0, 0, store@.len());
    }
    out
}


/// A downward path from `p`: indices of tasks, the first a child of `p` and
/// each next one a child of the one before.
pub open spec fn is_down_path(s: Seq<Task>, p: Option<i32>, path: Seq<int>) -> bool {
    &&& path.len() > 0
    &&& forall|k: int| 0 <= k < path.len() ==> 0 <= #[trigger] path[k] < s.len()
    &&& child_of(s, s[path[0]], p)
    &&& forall|k: int| 1 <= k < path.len() ==> s[#[trigger] path[k]].parent_id == Some(s[path[k - 1]].id)
}

/// Task `x` lies below itself: a downward path from `x` reaches a task with
/// id `x`. The recursions below such a task never end.
pub open spec fn own_descendant(s: Seq<Task>, x: i32) -> bool {
    exists|path: Seq<int>| is_down_path(s, Some(x), path) && s[path.last()].id == x
}

/// `f` levels are enough below `p` for the candidates from `start` on:
/// every downward path from `p` through them has at most `f` tasks.
pub open spec fn fuel_ok(s: Seq<Task>, p: Option<i32>, start: int, f: nat) -> bool
    decreases f, s.len() - start,
{
    if start < 0 || start >= s.len() {
        true
    } else {
        (child_of(s, s[start], p) ==> (f > 0 && fuel_ok(s, Some(s[start].id), 0, (f - 1) as nat)))
            && fuel_ok(s, p, start + 1, f)
    }
}

/// Once the fuel is enough, more fuel changes no listing.
pub proof fn lemma_preorder_stable(
    s: Seq<Task>,
    p: Option<i32>,
    start: int,
    level: nat,
    f: nat,
    g: nat,
)
    requires
        fuel_ok(s, p, start, f),
        f <= g,
        0 <= start,
    ensures
        preorder(s, p, start, level, f) == preorder(s, p, start, level, g),
    decreases f, s.len() - start,
{
    if start >= s.len() {
    } else {
        lemma_preorder_stable(s, p, start + 1, level, f, g);
        if child_of(s, s[start], p) {
            lemma_preorder_stable(s, Some(s[start].id), 0, level + 1, (f - 1) as nat, (g - 1) as nat);
        } else if f == 0 {
        }
    }
}

/// Where the fuel runs short, there is a downward path one task longer than it.
pub proof fn lemma_path_of_shortage(s: Seq<Task>, p: Option<i32>, start: int, f: nat) -> (path: Seq<int>)
    requires
        !fuel_ok(s, p, start, f),
        0 <= start,
    ensures
        is_down_path(s, p, path),
        path.len() == f + 1,
    decreases f, s.len() - start,
{
    if child_of(s, s[start], p) && !(f > 0 && fuel_ok(s, Some(s[start].id), 0, (f - 1) as nat)) {
        if f == 0 {
            seq![start]
        } else {
            let rest = lemma_path_of_shortage(s, Some(s[start].id), 0, (f - 1) as nat);
            let path = seq![start] + rest;
            assert forall|k: int| 1 <= k < path.len() implies s[#[trigger] path[k]].parent_id == Some(s[path[k - 1]].id) by {
                assert(path[k] == rest[k - 1]);
                if k > 1 {
                    assert(path[k - 1] == rest[k - 2]);
                }
            }
            assert forall|k: int| 0 <= k < path.len() implies 0 <= #[trigger] path[k] < s.len() by {
                if k > 0 {
                    assert(path[k] == rest[k - 1]);
                }
            }
            path
        }
    } else {
        lemma_path_of_shortage(s, p, start + 1, f)
    }
}

/// A downward path that visits a task twice comes back to its start.
proof fn lemma_repeat_goes_back(s: Seq<Task>, p: Option<i32>, path: Seq<int>, a: int, b: int)
    requires
        ids_unique(s),
        is_down_path(s, p, path),
        0 <= a < b < path.len(),
        path[a] == path[b],
    ensures
        path[0] == path[b - a],
    decreases a,
{
    if a > 0 {
        assert(s[path[a]].parent_id == Some(s[path[a - 1]].id));
        assert(s[path[b]].parent_id == Some(s[path[b - 1]].id));
        assert(s[path[a - 1]].id == s[path[b - 1]].id);
        assert(path[a - 1] == path[b - 1]);
        lemma_repeat_goes_back(s, p, path, a - 1, b - 1);
    }
}

/// Below the roots, or below a task that is not its own descendant, a
/// downward path never visits a task twice.
pub proof fn lemma_down_path_distinct(s: Seq<Task>, p: Option<i32>, path: Seq<int>)
    requires
        ids_unique(s),
        is_down_path(s, p, path),
        p matches Some(x) ==> !own_descendant(s, x),
    ensures
        path.no_duplicates(),
{
    assert forall|a: int, b: int| 0 <= a < path.len() && 0 <= b < path.len() && a != b implies path[a] != path[b] by {
        if path[a] == path[b] {
            let (lo, hi) = if a < b { (a, b) } else { (b, a) };
            lemma_repeat_goes_back(s, p, path, lo, hi);
            let d = hi - lo;
            assert(s[path[d]].parent_id == Some(s[path[d - 1]].id));
            assert(child_of(s, s[path[0]], p));
            match p {
                Some(x) => {
                    let back = path.take(d);
                    assert(is_down_path(s, Some(x), back)) by {
                        assert forall|k: int| 1 <= k < back.len() implies s[#[trigger] back[k]].parent_id == Some(s[back[k - 1]].id) by {
                            assert(back[k] == path[k]);
                            assert(back[k - 1] == path[k - 1]);
                        }
                    }
                    assert(s[back.last()].id == x);
                    assert(own_descendant(s, x));
                },
                None => {},
            }
        }
    }
}

/// A sequence of distinct indices into `s` is no longer than `s`.
pub proof fn lemma_distinct_indices_bound(path: Seq<int>, n: nat)
    requires
        path.no_duplicates(),
        forall|k: int| 0 <= k < path.len() ==> 0 <= #[trigger] path[k] < n,
    ensures
        path.len() <= n,
{
    lemma_int_range(0, n as int);
    assert(path.to_set().subset_of(set_int_range(0, n as int)));
    lemma_len_subset(path.to_set(), set_int_range(0, n as int));
    path.unique_seq_to_set();
}

/// As many levels as there are tasks are enough below the roots, and below
/// any task that is not its own descendant.
pub proof fn lemma_fuel_enough(s: Seq<Task>, p: Option<i32>)
    requires
        ids_unique(s),
        p matches Some(x) ==> !own_descendant(s, x),
    ensures
        fuel_ok(s, p, 0, s.len()),
{
    if !fuel_ok(s, p, 0, s.len()) {
        let path = lemma_path_of_shortage(s, p, 0, s.len());
        lemma_down_path_distinct(s, p, path);
        lemma_distinct_indices_bound(path, s.len());
    }
}

/// Law of the listings: the listing of the table is the whole depth-first
/// traversal from the roots; letting it go deeper than the number of tasks
/// adds nothing.
pub proof fn lemma_listing_complete(s: Seq<Task>, f: nat)
    requires
        ids_unique(s),
        f >= s.len(),
    ensures
        preorder(s, None, 0, 0, f) == listing(s),
{
    lemma_fuel_enough(s, None);
    lemma_preorder_stable(s, None, 0, 0, s.len(), f);
}


/// Some downward path from `p`, starting at a child at index `start` or
/// later, with at most `f` tasks, ends at task `x` (an index).
pub open spec fn reaches_index(s: Seq<Task>, p: Option<i32>, start: int, f: nat, x: int) -> bool {
    exists|path: Seq<int>| is_down_path(s, p, path) && path[0] >= start && path.len() <= f && path.last() == x
}

proof fn lemma_preorder_sound(s: Seq<Task>, p: Option<i32>, start: int, level: nat, f: nat, k: int)
    requires
        0 <= start,
        s.len() <= usize::MAX,
        0 <= k < preorder(s, p, start, level, f).len(),
    ensures
        reaches_index(s, p, start, f, preorder(s, p, start, level, f)[k].index as int),
    decreases f, s.len() - start,
{
    let x = preorder(s, p, start, level, f)[k].index as int;
    if f == 0 || start >= s.len() {
    } else if child_of(s, s[start], p) {
        let a = seq![Row { index: start as usize, level: level as usize }];
        let b = preorder(s, Some(s[start].id), 0, level + 1, (f - 1) as nat);
        let c = preorder(s, p, start + 1, level, f);
        assert(preorder(s, p, start, level, f) == a + b + c);
        if k == 0 {
            let path = seq![start];
            assert(is_down_path(s, p, path) && path[0] >= start && path.len() <= f && path.last() == x);
        } else if k < 1 + b.len() {
            assert((a + b + c)[k] == b[k - 1]);
            lemma_preorder_sound(s, Some(s[start].id), 0, level + 1, (f - 1) as nat, k - 1);
            let q = choose|q: Seq<int>|
                is_down_path(s, Some(s[start].id), q) && q[0] >= 0 && q.len() <= (f - 1) as nat && q.last() == x;
            let path = seq![start] + q;
            assert forall|j: int| 1 <= j < path.len() implies s[#[trigger] path[j]].parent_id == Some(s[path[j - 1]].id) by {
                assert(path[j] == q[j - 1]);
                if j > 1 {
                    assert(path[j - 1] == q[j - 2]);
                }
            }
            assert forall|j: int| 0 <= j < path.len() implies 0 <= #[trigger] path[j] < s.len() by {
                if j > 0 {
                    assert(path[j] == q[j - 1]);
                }
            }
            assert(path.last() == q.last());
            assert(is_down_path(s, p, path) && path[0] >= start && path.len() <= f && path.last() == x);
        } else {
            assert((a + b + c)[k] == c[k - 1 - b.len()]);
            lemma_preorder_sound(s, p, start + 1, level, f, k - 1 - b.len());
        }
    } else {
        lemma_preorder_sound(s, p, start + 1, level, f, k);
    }
}

#[verifier::rlimit(50)]
proof fn lemma_preorder_complete(s: Seq<Task>, p: Option<i32>, start: int, level: nat, f: nat, path: Seq<int>)
    requires
        0 <= start,
        s.len() <= usize::MAX,
        is_down_path(s, p, path),
        path[0] >= start,
        path.len() <= f,
    ensures
        exists|k: int|
            0 <= k < preorder(s, p, start, level, f).len() && #[trigger] preorder(
                s,
                p,
                start,
                level,
                f)[k].index == path.last(),
    decreases f, s.len() - start,
{
    let all = preorder(s, p, start, level, f);
    if child_of(s, s[start], p) {
        let a = seq![Row { index: start as usize, level: level as usize }];
        let b = preorder(s, Some(s[start].id), 0, level + 1, (f - 1) as nat);
        let c = preorder(s, p, start + 1, level, f);
        assert(all == a + b + c);
        if path[0] == start {
            if path.len() == 1 {
                assert(all[0].index == path.last());
            } else {
                let q = path.drop_first();
                assert forall|j: int| 1 <= j < q.len() implies s[#[trigger] q[j]].parent_id == Some(s[q[j - 1]].id) by {
                    assert(q[j] == path[j + 1]);
                    assert(q[j - 1] == path[j]);
                }
                assert(q[0] == path[1]);
                assert(s[q[0]].parent_id == Some(s[path[0]].id));
                assert(q.last() == path.last());
                lemma_preorder_complete(s, Some(s[start].id), 0, level + 1, (f - 1) as nat, q);
                let k = choose|k: int| 0 <= k < b.len() && #[trigger] b[k].index == q.last();
                assert(all[1 + k] == b[k]);
            }
        } else {
            lemma_preorder_complete(s, p, start + 1, level, f, path);
            let k = choose|k: int| 0 <= k < c.len() && #[trigger] c[k].index == path.last();
            assert(all[1 + b.len() + k] == c[k]);
        }
    } else {
        lemma_preorder_complete(s, p, start + 1, level, f, path);
    }
}

/// Law of the tree listing: it shows a task exactly when the task is
/// reachable from a root through its chain of parents.
pub proof fn lemma_listing_shows_reachable(s: Seq<Task>, x: int)
    requires
        ids_unique(s),
        s.len() <= usize::MAX,
    ensures
        (exists|k: int| 0 <= k < listing(s).len() && #[trigger] listing(s)[k].index == x)
            <==> (exists|path: Seq<int>| is_down_path(s, None, path) && path.last() == x),
{
    let l = listing(s);
    if exists|k: int| 0 <= k < l.len() && #[trigger] l[k].index == x {
        let k = choose|k: int| 0 <= k < l.len() && #[trigger] l[k].index == x;
        lemma_preorder_sound(s, None, 0, 0, s.len(), k);
    }
    if exists|path: Seq<int>| is_down_path(s, None, path) && path.last() == x {
        let path = choose|path: Seq<int>| is_down_path(s, None, path) && path.last() == x;
        lemma_down_path_distinct(s, None, path);
        lemma_distinct_indices_bound(path, s.len());
        lemma_preorder_complete(s, None, 0, 0, s.len(), path);
    }
}

/// Two downward paths from the roots that end at the same task are the same
/// path: each task has one parent, and ids are unique.
pub proof fn lemma_root_path_unique(s: Seq<Task>, p1: Seq<int>, p2: Seq<int>)
    requires
        ids_unique(s),
        is_down_path(s, None, p1),
        is_down_path(s, None, p2),
        p1.last() == p2.last(),
    ensures
        p1 == p2,
    decreases p1.len() + p2.len(),
{
    let n1 = p1.len() as int;
    let n2 = p2.len() as int;
    let x = p1.last();
    assert(p1[n1 - 1] == x && p2[n2 - 1] == x);
    if n1 == 1 && n2 == 1 {
        assert(p1 =~= p2);
    } else if n1 == 1 {
        // x is a root, yet its parent is the task p2[n2 - 2] of the table.
        assert(s[p2[n2 - 1]].parent_id == Some(s[p2[n2 - 2]].id));
        assert(0 <= p2[n2 - 2] < s.len());
    } else if n2 == 1 {
        assert(s[p1[n1 - 1]].parent_id == Some(s[p1[n1 - 2]].id));
        assert(0 <= p1[n1 - 2] < s.len());
    } else {
        assert(s[p1[n1 - 1]].parent_id == Some(s[p1[n1 - 2]].id));
        assert(s[p2[n2 - 1]].parent_id == Some(s[p2[n2 - 2]].id));
        assert(0 <= p1[n1 - 2] < s.len() && 0 <= p2[n2 - 2] < s.len());
        assert(p1[n1 - 2] == p2[n2 - 2]);
        let q1 = p1.drop_last();
        let q2 = p2.drop_last();
        assert forall|k: int| 1 <= k < q1.len() implies s[#[trigger] q1[k]].parent_id == Some(s[q1[k - 1]].id) by {
            assert(q1[k] == p1[k] && q1[k - 1] == p1[k - 1]);
        }
        assert forall|k: int| 1 <= k < q2.len() implies s[#[trigger] q2[k]].parent_id == Some(s[q2[k - 1]].id) by {
            assert(q2[k] == p2[k] && q2[k - 1] == p2[k - 1]);
        }
        assert forall|k: int| 0 <= k < q1.len() implies 0 <= #[trigger] q1[k] < s.len() by {
            assert(q1[k] == p1[k]);
        }
        assert forall|k: int| 0 <= k < q2.len() implies 0 <= #[trigger] q2[k] < s.len() by {
            assert(q2[k] == p2[k]);
        }
        assert(q1[0] == p1[0] && q2[0] == p2[0]);
        lemma_root_path_unique(s, q1, q2);
        assert(p1 =~= q1.push(x));
        assert(p2 =~= q2.push(x));
    }
}

/// The downward path from `p` along which the listing reaches its row `k`.
pub open spec fn row_path(s: Seq<Task>, p: Option<i32>, start: int, level: nat, fuel: nat, k: int) -> Seq<int>
    decreases fuel, s.len() - start,
{
    if fuel == 0 || start < 0 || start >= s.len() {
        seq![]
    } else if child_of(s, s[start], p) {
        let b = preorder(s, Some(s[start].id), 0, level + 1, (fuel - 1) as nat);
        if k == 0 {
            seq![start]
        } else if k < 1 + b.len() {
            seq![start] + row_path(s, Some(s[start].id), 0, level + 1, (fuel - 1) as nat, k - 1)
        } else {
            row_path(s, p, start + 1, level, fuel, k - 1 - b.len())
        }
    } else {
        row_path(s, p, start + 1, level, fuel, k)
    }
}

proof fn lemma_row_path(s: Seq<Task>, p: Option<i32>, start: int, level: nat, fuel: nat, k: int)
    requires
        0 <= start,
        s.len() <= usize::MAX,
        0 <= k < preorder(s, p, start, level, fuel).len(),
    ensures
        is_down_path(s, p, row_path(s, p, start, level, fuel, k)),
        row_path(s, p, start, level, fuel, k)[0] >= start,
        row_path(s, p, start, level, fuel, k).last() == preorder(s, p, start, level, fuel)[k].index as int,
    decreases fuel, s.len() - start,
{
    let q = row_path(s, p, start, level, fuel, k);
    if child_of(s, s[start], p) {
        let a = seq![Row { index: start as usize, level: level as usize }];
        let b = preorder(s, Some(s[start].id), 0, level + 1, (fuel - 1) as nat);
        let c = preorder(s, p, start + 1, level, fuel);
        assert(preorder(s, p, start, level, fuel) == a + b + c);
        if k == 0 {
            assert(q =~= seq![start]);
        } else if k < 1 + b.len() {
            lemma_row_path(s, Some(s[start].id), 0, level + 1, (fuel - 1) as nat, k - 1);
            let r = row_path(s, Some(s[start].id), 0, level + 1, (fuel - 1) as nat, k - 1);
            assert(q == seq![start] + r);
            assert((a + b + c)[k] == b[k - 1]);
            assert forall|j: int| 1 <= j < q.len() implies s[#[trigger] q[j]].parent_id == Some(s[q[j - 1]].id) by {
                assert(q[j] == r[j - 1]);
                if j > 1 {
                    assert(q[j - 1] == r[j - 2]);
                }
            }
            assert forall|j: int| 0 <= j < q.len() implies 0 <= #[trigger] q[j] < s.len() by {
                if j > 0 {
                    assert(q[j] == r[j - 1]);
                }
            }
            assert(q.last() == r.last());
        } else {
            assert((a + b + c)[k] == c[k - 1 - b.len()]);
            lemma_row_path(s, p, start + 1, level, fuel, k - 1 - b.len());
        }
    } else {
        lemma_row_path(s, p, start + 1, level, fuel, k);
    }
}

proof fn lemma_row_path_injective(s: Seq<Task>, p: Option<i32>, start: int, level: nat, fuel: nat, k1: int, k2: int)
    requires
        0 <= start,
        s.len() <= usize::MAX,
        0 <= k1 < preorder(s, p, start, level, fuel).len(),
        0 <= k2 < preorder(s, p, start, level, fuel).len(),
        row_path(s, p, start, level, fuel, k1) == row_path(s, p, start, level, fuel, k2),
    ensures
        k1 == k2,
    decreases fuel, s.len() - start,
{
    if child_of(s, s[start], p) {
        let a = seq![Row { index: start as usize, level: level as usize }];
        let b = preorder(s, Some(s[start].id), 0, level + 1, (fuel - 1) as nat);
        let c = preorder(s, p, start + 1, level, fuel);
        assert(preorder(s, p, start, level, fuel) == a + b + c);
        let q1 = row_path(s, p, start, level, fuel, k1);
        let in_c1 = k1 >= 1 + b.len();
        let in_c2 = k2 >= 1 + b.len();
        if in_c1 {
            lemma_row_path(s, p, start + 1, level, fuel, k1 - 1 - b.len());
        }
        if in_c2 {
            lemma_row_path(s, p, start + 1, level, fuel, k2 - 1 - b.len());
        }
        if in_c1 && in_c2 {
            lemma_row_path_injective(s, p, start + 1, level, fuel, k1 - 1 - b.len(), k2 - 1 - b.len());
        } else if !in_c1 && !in_c2 {
            if k1 > 0 && k2 > 0 {
                let r1 = row_path(s, Some(s[start].id), 0, level + 1, (fuel - 1) as nat, k1 - 1);
                let r2 = row_path(s, Some(s[start].id), 0, level + 1, (fuel - 1) as nat, k2 - 1);
                lemma_row_path(s, Some(s[start].id), 0, level + 1, (fuel - 1) as nat, k1 - 1);
                lemma_row_path(s, Some(s[start].id), 0, level + 1, (fuel - 1) as nat, k2 - 1);
                assert(r1 =~= (seq![start] + r1).drop_first());
                assert(r2 =~= (seq![start] + r2).drop_first());
                lemma_row_path_injective(s, Some(s[start].id), 0, level + 1, (fuel - 1) as nat, k1 - 1, k2 - 1);
            } else if k1 > 0 {
                lemma_row_path(s, Some(s[start].id), 0, level + 1, (fuel - 1) as nat, k1 - 1);
                assert(q1.len() > 1);
            } else if k2 > 0 {
                lemma_row_path(s, Some(s[start].id), 0, level + 1, (fuel - 1) as nat, k2 - 1);
                let q2 = row_path(s, p, start, level, fuel, k2);
                assert(q2.len() > 1);
            }
        } else {
            assert(q1[0] == row_path(s, p, start, level, fuel, k2)[0]);
            if in_c1 {
                assert(row_path(s, p, start, level, fuel, k2)[0] == start);
            } else {
                assert(q1[0] == start);
            }
        }
    } else {
        lemma_row_path_injective(s, p, start + 1, level, fuel, k1, k2);
    }
}

/// Law of the listing: it shows no task twice.
pub proof fn lemma_listing_distinct(s: Seq<Task>, k1: int, k2: int)
    requires
        ids_unique(s),
        s.len() <= usize::MAX,
        0 <= k1 < listing(s).len(),
        0 <= k2 < listing(s).len(),
        k1 != k2,
    ensures
        listing(s)[k1].index != listing(s)[k2].index,
{
    let n = s.len();
    lemma_row_path(s, None, 0, 0, n, k1);
    lemma_row_path(s, None, 0, 0, n, k2);
    if listing(s)[k1].index == listing(s)[k2].index {
        lemma_root_path_unique(s, row_path(s, None, 0, 0, n, k1), row_path(s, None, 0, 0, n, k2));
        lemma_row_path_injective(s, None, 0, 0, n, k1, k2);
    }
}

/// No task lies below itself: the parent links form no cycle.
pub open spec fn no_parent_cycle(s: Seq<Task>) -> bool {
    forall|i: int| 0 <= i < s.len() ==> !own_descendant(s, #[trigger] s[i].id)
}

proof fn lemma_parent_not_on_path(s: Seq<Task>, q: Seq<int>, z: int)
    requires
        no_parent_cycle(s),
        q.len() > 0,
        0 <= z < s.len(),
        s[q[0]].parent_id == Some(s[z].id),
        forall|k: int| 0 <= k < q.len() ==> 0 <= #[trigger] q[k] < s.len(),
        forall|k: int| 1 <= k < q.len() ==> s[#[trigger] q[k]].parent_id == Some(s[q[k - 1]].id),
    ensures
        !q.contains(z),
{
    if q.contains(z) {
        let j = choose|j: int| 0 <= j < q.len() && q[j] == z;
        let t = q.take(j + 1);
        assert forall|k: int| 1 <= k < t.len() implies s[#[trigger] t[k]].parent_id == Some(s[t[k - 1]].id) by {
            assert(t[k] == q[k] && t[k - 1] == q[k - 1]);
        }
        assert forall|k: int| 0 <= k < t.len() implies 0 <= #[trigger] t[k] < s.len() by {
            assert(t[k] == q[k]);
        }
        assert(t[0] == q[0]);
        assert(t.last() == z);
        assert(is_down_path(s, Some(s[z].id), t));
        assert(own_descendant(s, s[z].id));
    }
}

/// The upward chain `q` (each task the parent of the next) grows by the
/// parent `z` of its first task.
proof fn lemma_extend_up(s: Seq<Task>, q: Seq<int>, z: int)
    requires
        no_parent_cycle(s),
        q.len() > 0,
        q.no_duplicates(),
        0 <= z < s.len(),
        s[q[0]].parent_id == Some(s[z].id),
        forall|k: int| 0 <= k < q.len() ==> 0 <= #[trigger] q[k] < s.len(),
        forall|k: int| 1 <= k < q.len() ==> s[#[trigger] q[k]].parent_id == Some(s[q[k - 1]].id),
    ensures
        (seq![z] + q).no_duplicates(),
        (seq![z] + q).len() == q.len() + 1,
        (seq![z] + q).last() == q.last(),
        forall|k: int| 0 <= k < (seq![z] + q).len() ==> 0 <= #[trigger] (seq![z] + q)[k] < s.len(),
        forall|k: int| 1 <= k < (seq![z] + q).len() ==> s[#[trigger] (seq![z] + q)[k]].parent_id == Some(s[(seq![z] + q)[k - 1]].id),
{
    lemma_parent_not_on_path(s, q, z);
    let q2 = seq![z] + q;
    assert forall|a: int, b: int| 0 <= a < q2.len() && 0 <= b < q2.len() && a != b implies q2[a] != q2[b] by {
        if a > 0 && b > 0 {
            assert(q2[a] == q[a - 1] && q2[b] == q[b - 1]);
        } else if a == 0 {
            assert(q2[b] == q[b - 1]);
        } else {
            assert(q2[a] == q[a - 1]);
        }
    }
    assert forall|k: int| 1 <= k < q2.len() implies s[#[trigger] q2[k]].parent_id == Some(s[q2[k - 1]].id) by {
        assert(q2[k] == q[k - 1]);
        if k > 1 {
            assert(q2[k - 1] == q[k - 2]);
        }
    }
    assert forall|k: int| 0 <= k < q2.len() implies 0 <= #[trigger] q2[k] < s.len() by {
        if k > 0 {
            assert(q2[k] == q[k - 1]);
        }
    }
}

proof fn lemma_up_to_root(s: Seq<Task>, q: Seq<int>)
    requires
        ids_unique(s),
        no_parent_cycle(s),
        q.len() > 0,
        q.no_duplicates(),
        forall|k: int| 0 <= k < q.len() ==> 0 <= #[trigger] q[k] < s.len(),
        forall|k: int| 1 <= k < q.len() ==> s[#[trigger] q[k]].parent_id == Some(s[q[k - 1]].id),
    ensures
        exists|path: Seq<int>| #[trigger] is_down_path(s, None, path) && path.last() == q.last(),
    decreases s.len() - q.len(),
{
    let y = q[0];
    if is_root(s, s[y]) {
        assert(is_down_path(s, None, q));
    } else {
        let pid = s[y].parent_id.unwrap();
        let z = choose|i: int| 0 <= i < s.len() && #[trigger] s[i].id == pid;
        lemma_extend_up(s, q, z);
        let q2 = seq![z] + q;
        lemma_distinct_indices_bound(q2, s.len());
        lemma_up_to_root(s, q2);
    }
}

/// Law of the listing: where the parent links form no cycle, every task of
/// the table is listed (a task whose parent is missing starts a tree).
pub proof fn lemma_listing_has_every_task(s: Seq<Task>, x: int)
    requires
        ids_unique(s),
        s.len() <= usize::MAX,
        no_parent_cycle(s),
        0 <= x < s.len(),
    ensures
        exists|k: int| 0 <= k < listing(s).len() && #[trigger] listing(s)[k].index == x,
{
    let q = seq![x];
    assert(q.no_duplicates());
    lemma_up_to_root(s, q);
    lemma_listing_shows_reachable(s, x);
}

/// Row `k` of `rows` sits right below an earlier row holding its parent.
pub open spec fn below_parent_row(s: Seq<Task>, rows: Seq<Row>, k: int) -> bool {
    exists|j: int|
        0 <= j < k && #[trigger] rows[j].level + 1 == rows[k].level && s[rows[k].index as int].parent_id == Some(
            s[rows[j].index as int].id,
        )
}

proof fn lemma_preorder_levels(s: Seq<Task>, p: Option<i32>, start: int, level: nat, f: nat, k: int)
    requires
        0 <= start,
        s.len() <= usize::MAX,
        level + f <= s.len(),
        0 <= k < preorder(s, p, start, level, f).len(),
    ensures
        ({
            let po = preorder(s, p, start, level, f);
            (po[k].level == level && child_of(s, s[po[k].index as int], p)) || below_parent_row(s, po, k)
        }),
    decreases f, s.len() - start,
{
    let po = preorder(s, p, start, level, f);
    if child_of(s, s[start], p) {
        let id = s[start].id;
        let a = seq![Row { index: start as usize, level: level as usize }];
        let b = preorder(s, Some(id), 0, level + 1, (f - 1) as nat);
        let c = preorder(s, p, start + 1, level, f);
        assert(po == a + b + c);
        if k == 0 {
        } else if k < 1 + b.len() {
            assert(po[k] == b[k - 1]);
            lemma_preorder_levels(s, Some(id), 0, level + 1, (f - 1) as nat, k - 1);
            if below_parent_row(s, b, k - 1) {
                let j = choose|j: int|
                    0 <= j < k - 1 && #[trigger] b[j].level + 1 == b[k - 1].level && s[b[k - 1].index as int].parent_id
                        == Some(s[b[j].index as int].id);
                assert(po[j + 1] == b[j]);
                assert(po[j + 1].level + 1 == po[k].level);
            } else {
                assert(po[0].level + 1 == po[k].level);
            }
        } else {
            let k2 = k - 1 - b.len();
            assert(po[k] == c[k2]);
            lemma_preorder_levels(s, p, start + 1, level, f, k2);
            if below_parent_row(s, c, k2) {
                let j = choose|j: int|
                    0 <= j < k2 && #[trigger] c[j].level + 1 == c[k2].level && s[c[k2].index as int].parent_id
                        == Some(s[c[j].index as int].id);
                assert(po[1 + b.len() + j] == c[j]);
                assert(po[1 + b.len() + j].level + 1 == po[k].level);
            }
        }
    } else {
        lemma_preorder_levels(s, p, start + 1, level, f, k);
    }
}

/// Law of the listing's nesting: a row at depth 0 is a root, and every
/// deeper row comes after a row holding its parent, one level up; so each
/// task's depth is the number of its ancestors.
pub proof fn lemma_listing_levels(s: Seq<Task>, k: int)
    requires
        s.len() <= usize::MAX,
        0 <= k < listing(s).len(),
    ensures
        listing(s)[k].level == 0 ==> is_root(s, s[listing(s)[k].index as int]),
        listing(s)[k].level > 0 ==> below_parent_row(s, listing(s), k),
{
    lemma_preorder_levels(s, None, 0, 0, s.len(), k);
}

} // verus!
