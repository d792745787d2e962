//! The filtered listing of the terminal interface: with a search, a task is
//! shown when it matches, lies below a matching task, or has a matching task
//! below it. Which titles match is decided by the table's `LIKE`; the
//! matching ids come in as an argument.

use vstd::prelude::*;
use crate::model::{Task, TaskStore};
use crate::tree::{
    Row, is_child_of, child_of, rows_valid, preorder, listing, fuel_ok, lemma_fuel_enough, is_down_path, lemma_down_path_distinct,
    lemma_distinct_indices_bound,
};
use crate::model::ids_unique;

verus! {

/// Some task below `p` (a child from index `start` on, or anything under
/// such a child) is in `m`.
pub open spec fn match_below(s: Seq<Task>, p: Option<i32>, start: int, fuel: nat, m: Set<i32>) -> bool
    decreases fuel, s.len() - start,
{
    if fuel == 0 || start < 0 || start >= s.len() {
        false
    } else {
        (child_of(s, s[start], p) && (m.contains(s[start].id) || match_below(
            s,
            Some(s[start].id),
            0,
            (fuel - 1) as nat,
            m,
        ))) || match_below(s, p, start + 1, fuel, m)
    }
}

/// The pre-order listing of the shown tasks below `p`: a child is shown
/// when a task on its path from the root (itself included) is in `m`
/// (`anc` says whether one above it is), or when a task below it is; the
/// subtree of a hidden task is hidden.
pub open spec fn search_rows(
    s: Seq<Task>,
    p: Option<i32>,
    start: int,
    level: nat,
    fuel: nat,
    anc: bool,
    m: Set<i32>,
) -> Seq<Row>
    decreases fuel, s.len() - start,
{
    if fuel == 0 || start < 0 || start >= s.len() {
        seq![]
    } else if child_of(s, s[start], p) && (anc || m.contains(s[start].id) || match_below(
        s,
        Some(s[start].id),
        0,
        (fuel - 1) as nat,
        m,
    )) {
        seq![Row { index: start as usize, level: level as usize }] + search_rows(
            s,
            Some(s[start].id),
            0,
            level + 1,
            (fuel - 1) as nat,
            anc || m.contains(s[start].id),
            m,
        ) + search_rows(s, p, start + 1, level, fuel, anc, m)
    } else {
        search_rows(s, p, start + 1, level, fuel, anc, m)
    }
}

/// The filtered listing of the whole table for the matching ids `m`.
pub open spec fn search_listing(s: Seq<Task>, m: Set<i32>) -> Seq<Row> {
    search_rows(s, None, 0, 0, s.len(), false, m)
}

fn contains_id(v: &Vec<i32>, x: i32) -> (r: bool)
    ensures
        r == v@.to_set().contains(x),
{
    let mut i: usize = 0;
    while i < v.len()
        invariant
            i <= v@.len(),
            forall|j: int| 0 <= j < i ==> v@[j] != x,
        decreases v@.len() - i,
    {
        if v[i] == x {
            assert(v@.contains(x));
            return true;
        }
        i = i + 1;
    }
    assert(!v@.contains(x));
    false
}

fn any_match_below(tasks: &Vec<Task>, p: Option<i32>, fuel: usize, m: &Vec<i32>) -> (r: bool)
    ensures
        r == match_below(tasks@, p, 0, fuel as nat, m@.to_set()),
    decreases fuel,
{
    if fuel == 0 {
        return false;
    }
    let n = tasks.len();
    let mut i: usize = 0;
    while i < n
        invariant
            n == tasks@.len(),
            i <= n,
            fuel > 0,
            match_below(tasks@, p, 0, fuel as nat, m@.to_set()) == match_below(tasks@, p, i as int, fuel as nat, m@.to_set()),
        decreases n - i,
    {
        if is_child_of(tasks, &tasks[i], p) {
            if contains_id(m, tasks[i].id) || any_match_below(tasks, Some(tasks[i].id), fuel - 1, m) {
                return true;
            }
        }
        i = i + 1;
    }
    false
}

fn collect_search(
    tasks: &Vec<Task>,
    p: Option<i32>,
    level: usize,
    fuel: usize,
    anc: bool,
    m: &Vec<i32>,
    out: &mut Vec<Row>,
)
    requires
        level + fuel <= tasks@.len(),
    ensures
        final(out)@ == old(out)@ + search_rows(tasks@, p, 0, level as nat, fuel as nat, anc, m@.to_set()),
    decreases fuel,
{
    if fuel == 0 {
        return;
    }
    let n = tasks.len();
    let mut i: usize = 0;
    while i < n
        invariant
            n == tasks@.len(),
            i <= n,
            fuel > 0,
            level + fuel <= n,
            old(out)@ + search_rows(tasks@, p, 0, level as nat, fuel as nat, anc, m@.to_set()) == out@
                + search_rows(tasks@, p, i as int, level as nat, fuel as nat, anc, m@.to_set()),
        decreases n - i,
    {
        if is_child_of(tasks, &tasks[i], p) {
            let hit = contains_id(m, tasks[i].id);
            if anc || hit || any_match_below(tasks, Some(tasks[i].id), fuel - 1, m) {
                let ghost before = out@;
                out.push(Row { index: i, level });
                collect_search(tasks, Some(tasks[i].id), level + 1, fuel - 1, anc || hit, m, out);
                proof {
                    assert(before + search_rows(tasks@, p, i as int, level as nat, fuel as nat, anc, m@.to_set())
                        =~= out@ + search_rows(tasks@, p, i + 1, level as nat, fuel as nat, anc, m@.to_set()));
                }
            }
        }
        i = i + 1;
    }
}

/// Every row of a filtered listing names a task and is less than
/// `level + fuel` deep.
pub proof fn lemma_search_rows_valid(
    s: Seq<Task>,
    p: Option<i32>,
    start: int,
    level: nat,
    fuel: nat,
    anc: bool,
    m: Set<i32>,
)
    requires
        level + fuel <= s.len(),
    ensures
        forall|k: int|
            0 <= k < search_rows(s, p, start, level, fuel, anc, m).len() ==> {
                let r = #[trigger] search_rows(s, p, start, level, fuel, anc, m)[k];
                &&& r.index < s.len()
                &&& r.level < level + fuel
            },
    decreases fuel, s.len() - start,
{
    if fuel == 0 || start < 0 || start >= s.len() {
    } else {
        let c = search_rows(s, p, start + 1, level, fuel, anc, m);
        lemma_search_rows_valid(s, p, start + 1, level, fuel, anc, m);
        if child_of(s, s[start], p) && (anc || m.contains(s[start].id) || match_below(
            s,
            Some(s[start].id),
            0,
            (fuel - 1) as nat,
            m,
        )) {
            let a = seq![Row { index: start as usize, level: level as usize }];
            let b = search_rows(s, Some(s[start].id), 0, level + 1, (fuel - 1) as nat, anc || m.contains(s[start].id), m);
            lemma_search_rows_valid(s, Some(s[start].id), 0, level + 1, (fuel - 1) as nat, anc || m.contains(s[start].id), m);
            assert(search_rows(s, p, start, level, fuel, anc, m) == a + b + c);
            assert forall|k: int|
                0 <= k < (a + b + c).len() implies (a + b + c)[k].index < s.len() && (a + b
                    + c)[k].level < level + fuel by {
                if k < 1 {
                } else if k < 1 + b.len() {
                    assert((a + b + c)[k] == b[k - 1]);
                } else {
                    assert((a + b + c)[k] == c[k - 1 - b.len()]);
                }
            }
        }
    }
}

/// The rows of the filtered listing for the matching ids `matches`.
pub fn search_listing_rows(store: &TaskStore, matches: &Vec<i32>) -> (r: Vec<Row>)
    ensures
        r@ == search_listing(store@, matches@.to_set()),
        rows_valid(store@, r@),
{
    let tasks = store.tasks();
    let mut out: Vec<Row> = Vec::new();
    collect_search(tasks, None, 0, tasks.len(), false, matches, &mut out);
    proof {
        assert(out@ =~= search_listing(store@, matches@.to_set()));
        lemma_search_rows_valid(store@, None, 0, 0, store@.len(), false, matches@.to_set());
    }
    out
}


proof fn lemma_match_below_stable(s: Seq<Task>, p: Option<i32>, start: int, f: nat, g: nat, m: Set<i32>)
    requires
        fuel_ok(s, p, start, f),
        f <= g,
        0 <= start,
    ensures
        match_below(s, p, start, f, m) == match_below(s, p, start, g, m),
    decreases f, s.len() - start,
{
    if start < s.len() {
        lemma_match_below_stable(s, p, start + 1, f, g, m);
        if child_of(s, s[start], p) {
            lemma_match_below_stable(s, Some(s[start].id), 0, (f - 1) as nat, (g - 1) as nat, m);
        }
    }
}

proof fn lemma_search_rows_stable(
    s: Seq<Task>,
    p: Option<i32>,
    start: int,
    level: nat,
    f: nat,
    g: nat,
    anc: bool,
    m: Set<i32>,
)
    requires
        fuel_ok(s, p, start, f),
        f <= g,
        0 <= start,
    ensures
        search_rows(s, p, start, level, f, anc, m) == search_rows(s, p, start, level, g, anc, m),
    decreases f, s.len() - start,
{
    if start < s.len() {
        lemma_search_rows_stable(s, p, start + 1, level, f, g, anc, m);
        if child_of(s, s[start], p) {
            let id = s[start].id;
            lemma_match_below_stable(s, Some(id), 0, (f - 1) as nat, (g - 1) as nat, m);
            lemma_search_rows_stable(s, Some(id), 0, level + 1, (f - 1) as nat, (g - 1) as nat, anc || m.contains(id), m);
        }
    }
}

/// Law of the search listing: it is the whole filtered traversal from the
/// roots; letting it (or the look-ahead for matches below a task) go deeper
/// than the number of tasks adds nothing.
pub proof fn lemma_search_listing_complete(s: Seq<Task>, m: Set<i32>, f: nat)
    requires
        ids_unique(s),
        f >= s.len(),
    ensures
        search_rows(s, None, 0, 0, f, false, m) == search_listing(s, m),
{
    lemma_fuel_enough(s, None);
    lemma_search_rows_stable(s, None, 0, 0, s.len(), f, false, m);
}

/// A task in `m` lies below `p`, on a downward path from `p` of at most
/// `g` tasks that starts at index `start` or later.
pub open spec fn match_path_below(s: Seq<Task>, p: Option<i32>, start: int, g: nat, m: Set<i32>) -> bool {
    exists|r: Seq<int>| #[trigger] is_down_path(s, p, r) && r[0] >= start && r.len() <= g && m.contains(s[r.last()].id)
}

proof fn lemma_prepend_path(s: Seq<Task>, p: Option<i32>, i: int, r: Seq<int>)
    requires
        0 <= i < s.len(),
        child_of(s, s[i], p),
        is_down_path(s, Some(s[i].id), r),
    ensures
        is_down_path(s, p, seq![i] + r),
        (seq![i] + r).last() == r.last(),
        (seq![i] + r).drop_first() == r,
{
    let q = seq![i] + r;
    assert forall|j: int| 1 <= j < q.len() implies s[#[trigger] q[j]].parent_id == Some(s[q[j - 1]].id) by {
        assert(q[j] == r[j - 1]);
        if j > 1 {
            assert(q[j - 1] == r[j - 2]);
        }
    }
    assert forall|j: int| 0 <= j < q.len() implies 0 <= #[trigger] q[j] < s.len() by {
        if j > 0 {
            assert(q[j] == r[j - 1]);
        }
    }
    assert(q.drop_first() =~= r);
}

proof fn lemma_tail_path(s: Seq<Task>, p: Option<i32>, q: Seq<int>)
    requires
        is_down_path(s, p, q),
        q.len() > 1,
    ensures
        is_down_path(s, Some(s[q[0]].id), q.drop_first()),
        q.drop_first().last() == q.last(),
{
    let r = q.drop_first();
    assert forall|j: int| 1 <= j < r.len() implies s[#[trigger] r[j]].parent_id == Some(s[r[j - 1]].id) by {
        assert(r[j] == q[j + 1] && r[j - 1] == q[j]);
    }
    assert forall|j: int| 0 <= j < r.len() implies 0 <= #[trigger] r[j] < s.len() by {
        assert(r[j] == q[j + 1]);
    }
    assert(s[q[1]].parent_id == Some(s[q[0]].id));
}

/// `match_below` is the search for a matching task below `p`.
proof fn lemma_match_below_paths(s: Seq<Task>, p: Option<i32>, start: int, g: nat, m: Set<i32>)
    requires
        0 <= start,
    ensures
        match_below(s, p, start, g, m) == match_path_below(s, p, start, g, m),
    decreases g, s.len() - start,
{
    if g == 0 || start >= s.len() {
        if match_path_below(s, p, start, g, m) {
            let r = choose|r: Seq<int>| #[trigger] is_down_path(s, p, r) && r[0] >= start && r.len() <= g && m.contains(s[r.last()].id);
            assert(0 <= r[0] < s.len());
        }
    } else {
        lemma_match_below_paths(s, p, start + 1, g, m);
        if child_of(s, s[start], p) {
            lemma_match_below_paths(s, Some(s[start].id), 0, (g - 1) as nat, m);
        }
        if match_below(s, p, start, g, m) {
            if child_of(s, s[start], p) && m.contains(s[start].id) {
                let r = seq![start];
                assert(is_down_path(s, p, r) && r[0] >= start && r.len() <= g && m.contains(s[r.last()].id));
            } else if child_of(s, s[start], p) && match_below(s, Some(s[start].id), 0, (g - 1) as nat, m) {
                let r = choose|r: Seq<int>| #[trigger] is_down_path(s, Some(s[start].id), r) && r[0] >= 0 && r.len() <= (g - 1) as nat && m.contains(s[r.last()].id);
                lemma_prepend_path(s, p, start, r);
                let q = seq![start] + r;
                assert(is_down_path(s, p, q) && q[0] >= start && q.len() <= g && m.contains(s[q.last()].id));
            } else {
                let r = choose|r: Seq<int>| #[trigger] is_down_path(s, p, r) && r[0] >= start + 1 && r.len() <= g && m.contains(s[r.last()].id);
                assert(is_down_path(s, p, r) && r[0] >= start);
            }
        }
        if match_path_below(s, p, start, g, m) {
            let r = choose|r: Seq<int>| #[trigger] is_down_path(s, p, r) && r[0] >= start && r.len() <= g && m.contains(s[r.last()].id);
            if r[0] == start {
                if r.len() == 1 {
                    assert(r.last() == start);
                } else {
                    lemma_tail_path(s, p, r);
                    let t = r.drop_first();
                    assert(is_down_path(s, Some(s[start].id), t) && t[0] >= 0 && t.len() <= (g - 1) as nat && m.contains(s[t.last()].id));
                }
            } else {
                assert(is_down_path(s, p, r) && r[0] >= start + 1);
            }
        }
    }
}

/// A task on `q` is in `m`.
pub open spec fn path_hits(s: Seq<Task>, q: Seq<int>, m: Set<i32>) -> bool {
    exists|j: int| 0 <= j < q.len() && m.contains(s[#[trigger] q[j]].id)
}

#[verifier::rlimit(50)]
proof fn lemma_search_rows_sound(
    s: Seq<Task>,
    p: Option<i32>,
    start: int,
    level: nat,
    f: nat,
    anc: bool,
    m: Set<i32>,
    k: int,
) -> (q: Seq<int>)
    requires
        0 <= start,
        s.len() <= usize::MAX,
        0 <= k < search_rows(s, p, start, level, f, anc, m).len(),
    ensures
        is_down_path(s, p, q),
        q[0] >= start,
        q.len() <= f,
        q.last() == search_rows(s, p, start, level, f, anc, m)[k].index as int,
        anc || path_hits(s, q, m) || match_below(s, Some(s[q.last()].id), 0, (f - q.len()) as nat, m),
    decreases f, s.len() - start,
{
    let id = s[start].id;
    if child_of(s, s[start], p) && (anc || m.contains(id) || match_below(s, Some(id), 0, (f - 1) as nat, m)) {
        let a = seq![Row { index: start as usize, level: level as usize }];
        let b = search_rows(s, Some(id), 0, level + 1, (f - 1) as nat, anc || m.contains(id), m);
        let c = search_rows(s, p, start + 1, level, f, anc, m);
        assert(search_rows(s, p, start, level, f, anc, m) == a + b + c);
        if k == 0 {
            let q = seq![start];
            if m.contains(id) {
                assert(m.contains(s[q[0]].id));
            }
            q
        } else if k < 1 + b.len() {
            assert((a + b + c)[k] == b[k - 1]);
            let r = lemma_search_rows_sound(s, Some(id), 0, level + 1, (f - 1) as nat, anc || m.contains(id), m, k - 1);
            lemma_prepend_path(s, p, start, r);
            let q = seq![start] + r;
            if m.contains(id) {
                assert(m.contains(s[q[0]].id));
            }
            if path_hits(s, r, m) {
                let j = choose|j: int| 0 <= j < r.len() && m.contains(s[#[trigger] r[j]].id);
                assert(q[j + 1] == r[j]);
            }
            q
        } else {
            assert((a + b + c)[k] == c[k - 1 - b.len()]);
            lemma_search_rows_sound(s, p, start + 1, level, f, anc, m, k - 1 - b.len())
        }
    } else {
        lemma_search_rows_sound(s, p, start + 1, level, f, anc, m, k)
    }
}

#[verifier::rlimit(50)]
proof fn lemma_search_rows_complete(
    s: Seq<Task>,
    p: Option<i32>,
    start: int,
    level: nat,
    f: nat,
    anc: bool,
    m: Set<i32>,
    q: Seq<int>,
)
    requires
        0 <= start,
        s.len() <= usize::MAX,
        is_down_path(s, p, q),
        q[0] >= start,
        q.len() <= f,
        anc || path_hits(s, q, m) || match_below(s, Some(s[q.last()].id), 0, (f - q.len()) as nat, m),
    ensures
        exists|k: int|
            0 <= k < search_rows(s, p, start, level, f, anc, m).len() && #[trigger] search_rows(
                s,
                p,
                start,
                level,
                f,
                anc,
                m,
            )[k].index == q.last(),
    decreases f, s.len() - start,
{
    let id = s[start].id;
    let all = search_rows(s, p, start, level, f, anc, m);
    let shown = anc || m.contains(id) || match_below(s, Some(id), 0, (f - 1) as nat, m);
    if q[0] == start {
        if q.len() > 1 {
            lemma_tail_path(s, p, q);
        }
        let r = q.drop_first();
        assert(shown) by {
            if !anc && !m.contains(id) {
                lemma_match_below_paths(s, Some(id), 0, (f - 1) as nat, m);
                if path_hits(s, q, m) {
                    let j = choose|j: int| 0 <= j < q.len() && m.contains(s[#[trigger] q[j]].id);
                    assert(j > 0);
                    let t = r.take(j);
                    assert(is_down_path(s, Some(id), t)) by {
                        assert forall|i: int| 1 <= i < t.len() implies s[#[trigger] t[i]].parent_id == Some(s[t[i - 1]].id) by {
                            assert(t[i] == r[i] && t[i - 1] == r[i - 1]);
                        }
                        assert forall|i: int| 0 <= i < t.len() implies 0 <= #[trigger] t[i] < s.len() by {
                            assert(t[i] == r[i]);
                        }
                        assert(t[0] == r[0]);
                    }
                    assert(t.last() == q[j]);
                    assert(is_down_path(s, Some(id), t) && t[0] >= 0 && t.len() <= (f - 1) as nat && m.contains(s[t.last()].id));
                } else {
                    lemma_match_below_paths(s, Some(s[q.last()].id), 0, (f - q.len()) as nat, m);
                    let u = choose|u: Seq<int>| #[trigger] is_down_path(s, Some(s[q.last()].id), u) && u[0] >= 0 && u.len() <= (f - q.len()) as nat && m.contains(s[u.last()].id);
                    if q.len() == 1 {
                        assert(is_down_path(s, Some(id), u) && u[0] >= 0 && u.len() <= (f - 1) as nat && m.contains(s[u.last()].id));
                    } else {
                        let t = r + u;
                        assert(is_down_path(s, Some(id), t)) by {
                            assert forall|i: int| 1 <= i < t.len() implies s[#[trigger] t[i]].parent_id == Some(s[t[i - 1]].id) by {
                                if i < r.len() {
                                    assert(t[i] == r[i] && t[i - 1] == r[i - 1]);
                                } else if i == r.len() {
                                    assert(t[i] == u[0] && t[i - 1] == r.last());
                                } else {
                                    assert(t[i] == u[i - r.len()] && t[i - 1] == u[i - 1 - r.len()]);
                                }
                            }
                            assert forall|i: int| 0 <= i < t.len() implies 0 <= #[trigger] t[i] < s.len() by {
                                if i < r.len() {
                                    assert(t[i] == r[i]);
                                } else {
                                    assert(t[i] == u[i - r.len()]);
                                }
                            }
                            assert(t[0] == r[0]);
                        }
                        assert(t.last() == u.last());
                        assert(is_down_path(s, Some(id), t) && t[0] >= 0 && t.len() <= (f - 1) as nat && m.contains(s[t.last()].id));
                    }
                }
            }
        }
        let a = seq![Row { index: start as usize, level: level as usize }];
        let b = search_rows(s, Some(id), 0, level + 1, (f - 1) as nat, anc || m.contains(id), m);
        let c = search_rows(s, p, start + 1, level, f, anc, m);
        assert(all == a + b + c);
        if q.len() == 1 {
            assert(all[0].index == q.last());
        } else {
            let anc2 = anc || m.contains(id);
            if path_hits(s, q, m) && !m.contains(id) {
                let j = choose|j: int| 0 <= j < q.len() && m.contains(s[#[trigger] q[j]].id);
                assert(j > 0);
                assert(r[j - 1] == q[j]);
            }
            lemma_search_rows_complete(s, Some(id), 0, level + 1, (f - 1) as nat, anc2, m, r);
            let k = choose|k: int| 0 <= k < b.len() && #[trigger] b[k].index == r.last();
            assert(all[1 + k] == b[k]);
        }
    } else {
        lemma_search_rows_complete(s, p, start + 1, level, f, anc, m, q);
        if child_of(s, s[start], p) && shown {
            let a = seq![Row { index: start as usize, level: level as usize }];
            let b = search_rows(s, Some(id), 0, level + 1, (f - 1) as nat, anc || m.contains(id), m);
            let c = search_rows(s, p, start + 1, level, f, anc, m);
            assert(all == a + b + c);
            let k = choose|k: int| 0 <= k < c.len() && #[trigger] c[k].index == q.last();
            assert(all[1 + b.len() + k] == c[k]);
        }
    }
}

/// Task `x` is shown by a search for `m`: on its path from a root, it or a
/// task above it is in `m`, or a task below it is.
pub open spec fn search_shows(s: Seq<Task>, m: Set<i32>, x: int) -> bool {
    exists|path: Seq<int>|
        #[trigger] is_down_path(s, None, path) && path.last() == x && (path_hits(s, path, m) || exists|r: Seq<int>|
            #[trigger] is_down_path(s, Some(s[x].id), r) && m.contains(s[r.last()].id))
}

/// Law of the search listing: it shows exactly the tasks reachable from a
/// root that match, lie below a match, or have a match below them.
pub proof fn lemma_search_listing_shows(s: Seq<Task>, m: Set<i32>, x: int)
    requires
        ids_unique(s),
        s.len() <= usize::MAX,
    ensures
        (exists|k: int| 0 <= k < search_listing(s, m).len() && #[trigger] search_listing(s, m)[k].index == x)
            <==> search_shows(s, m, x),
{
    let n = s.len();
    let l = search_listing(s, m);
    if exists|k: int| 0 <= k < l.len() && #[trigger] l[k].index == x {
        let k = choose|k: int| 0 <= k < l.len() && #[trigger] l[k].index == x;
        let q = lemma_search_rows_sound(s, None, 0, 0, n, false, m, k);
        if !path_hits(s, q, m) {
            lemma_match_below_paths(s, Some(s[x].id), 0, (n - q.len()) as nat, m);
            let r = choose|r: Seq<int>| #[trigger] is_down_path(s, Some(s[x].id), r) && r[0] >= 0 && r.len() <= (n - q.len()) as nat && m.contains(s[r.last()].id);
            assert(is_down_path(s, Some(s[x].id), r) && m.contains(s[r.last()].id));
        }
        assert(is_down_path(s, None, q) && q.last() == x);
    }
    if search_shows(s, m, x) {
        let path = choose|path: Seq<int>|
            #[trigger] is_down_path(s, None, path) && path.last() == x && (path_hits(s, path, m) || exists|r: Seq<int>|
                #[trigger] is_down_path(s, Some(s[x].id), r) && m.contains(s[r.last()].id));
        lemma_down_path_distinct(s, None, path);
        lemma_distinct_indices_bound(path, n);
        if !path_hits(s, path, m) {
            let r = choose|r: Seq<int>| #[trigger] is_down_path(s, Some(s[x].id), r) && m.contains(s[r.last()].id);
            let t = path + r;
            assert(is_down_path(s, None, t)) by {
                assert forall|i: int| 1 <= i < t.len() implies s[#[trigger] t[i]].parent_id == Some(s[t[i - 1]].id) by {
                    if i < path.len() {
                        assert(t[i] == path[i] && t[i - 1] == path[i - 1]);
                    } else if i == path.len() {
                        assert(t[i] == r[0] && t[i - 1] == path.last());
                    } else {
                        assert(t[i] == r[i - path.len()] && t[i - 1] == r[i - 1 - path.len()]);
                    }
                }
                assert forall|i: int| 0 <= i < t.len() implies 0 <= #[trigger] t[i] < s.len() by {
                    if i < path.len() {
                        assert(t[i] == path[i]);
                    } else {
                        assert(t[i] == r[i - path.len()]);
                    }
                }
                assert(t[0] == path[0]);
            }
            lemma_down_path_distinct(s, None, t);
            lemma_distinct_indices_bound(t, n);
            lemma_match_below_paths(s, Some(s[x].id), 0, (n - path.len()) as nat, m);
            assert(is_down_path(s, Some(s[x].id), r) && r[0] >= 0 && r.len() <= (n - path.len()) as nat && m.contains(s[r.last()].id));
        }
        lemma_search_rows_complete(s, None, 0, 0, n, false, m, path);
    }
}

proof fn lemma_search_rows_in_preorder(
    s: Seq<Task>,
    p: Option<i32>,
    start: int,
    level: nat,
    f: nat,
    anc: bool,
    m: Set<i32>,
    k: int,
)
    requires
        0 <= start,
        0 <= k < search_rows(s, p, start, level, f, anc, m).len(),
    ensures
        exists|j: int|
            0 <= j < preorder(s, p, start, level, f).len() && #[trigger] preorder(s, p, start, level, f)[j]
                == search_rows(s, p, start, level, f, anc, m)[k],
    decreases f, s.len() - start,
{
    let sr = search_rows(s, p, start, level, f, anc, m);
    let po = preorder(s, p, start, level, f);
    if child_of(s, s[start], p) {
        let id = s[start].id;
        let a = seq![Row { index: start as usize, level: level as usize }];
        let b = preorder(s, Some(id), 0, level + 1, (f - 1) as nat);
        let c = preorder(s, p, start + 1, level, f);
        assert(po == a + b + c);
        let c2 = search_rows(s, p, start + 1, level, f, anc, m);
        if anc || m.contains(id) || match_below(s, Some(id), 0, (f - 1) as nat, m) {
            let b2 = search_rows(s, Some(id), 0, level + 1, (f - 1) as nat, anc || m.contains(id), m);
            assert(sr == a + b2 + c2);
            if k == 0 {
                assert(po[0] == sr[0]);
            } else if k < 1 + b2.len() {
                assert(sr[k] == b2[k - 1]);
                lemma_search_rows_in_preorder(s, Some(id), 0, level + 1, (f - 1) as nat, anc || m.contains(id), m, k - 1);
                let j = choose|j: int| 0 <= j < b.len() && #[trigger] b[j] == b2[k - 1];
                assert(po[1 + j] == b[j]);
            } else {
                assert(sr[k] == c2[k - 1 - b2.len()]);
                lemma_search_rows_in_preorder(s, p, start + 1, level, f, anc, m, k - 1 - b2.len());
                let j = choose|j: int| 0 <= j < c.len() && #[trigger] c[j] == c2[k - 1 - b2.len()];
                assert(po[1 + b.len() + j] == c[j]);
            }
        } else {
            assert(sr == c2);
            lemma_search_rows_in_preorder(s, p, start + 1, level, f, anc, m, k);
            let j = choose|j: int| 0 <= j < c.len() && #[trigger] c[j] == c2[k];
            assert(po[1 + b.len() + j] == c[j]);
        }
    } else {
        lemma_search_rows_in_preorder(s, p, start + 1, level, f, anc, m, k);
    }
}

/// Law of the search listing's nesting: every row it shows is a row of the
/// unfiltered listing, the same task at the same depth, so the filtered
/// tree is drawn nested exactly as the whole tree is.
pub proof fn lemma_search_rows_keep_levels(s: Seq<Task>, m: Set<i32>, k: int)
    requires
        0 <= k < search_listing(s, m).len(),
    ensures
        exists|j: int| 0 <= j < listing(s).len() && #[trigger] listing(s)[j] == search_listing(s, m)[k],
{
    lemma_search_rows_in_preorder(s, None, 0, 0, s.len(), false, m, k);
    let po = preorder(s, None, 0, 0, s.len());
    assert(listing(s) == po);
    let j = choose|j: int| 0 <= j < po.len() && #[trigger] po[j] == search_listing(s, m)[k];
    assert(listing(s)[j] == search_listing(s, m)[k]);
}

} // verus!
