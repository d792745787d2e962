//! The task table as the library sees it: a sequence of tasks with distinct ids,
//! each pointing at most at one parent id.

use vstd::prelude::*;

verus! {

/// One row of the task table.
pub struct Task {
    pub id: i32,
    pub parent_id: Option<i32>,
    pub title: String,
    pub priority: Option<String>,
    pub deadline: Option<String>,
    pub completed: i32,
}

/// No two tasks of `s` share an id.
pub open spec fn ids_unique(s: Seq<Task>) -> bool {
    forall|i: int, j: int|
        0 <= i < s.len() && 0 <= j < s.len() && i != j ==> #[trigger] s[i].id != #[trigger] s[j].id
}

/// The tasks of the table, in the order in which the table lists them
/// (ascending id when loaded with `ORDER BY id`).
pub struct TaskStore {
    tasks: Vec<Task>,
}

impl View for TaskStore {
    type V = Seq<Task>;

    closed spec fn view(&self) -> Seq<Task> {
        self.tasks@
    }
}

impl TaskStore {
    #[verifier::type_invariant]
    closed spec fn inv(&self) -> bool {
        ids_unique(self.tasks@)
    }

    /// The empty table.
    pub fn new() -> (r: TaskStore)
        ensures
            r@ == Seq::<Task>::empty(),
    {
        TaskStore { tasks: Vec::new() }
    }

    /// Builds a table from rows; refused (`None`) exactly when two rows share an id.
    pub fn from_tasks(tasks: Vec<Task>) -> (r: Option<TaskStore>)
        ensures
            r is Some <==> ids_unique(tasks@),
            r matches Some(st) ==> st@ == tasks@,
    {
        let n = tasks.len();
        let mut i: usize = 0;
        while i < n
            invariant
                n == tasks@.len(),
                i <= n,
                forall|a: int, b: int|
                    0 <= a < i && 0 <= b < n && a != b ==> #[trigger] tasks@[a].id
                        != #[trigger] tasks@[b].id,
            decreases n - i,
        {
            let mut j: usize = 0;
            while j < n
                invariant
                    n == tasks@.len(),
                    i < n,
                    j <= n,
                    forall|b: int| 0 <= b < j && b != i ==> tasks@[i as int].id != #[trigger] tasks@[b].id,
                decreases n - j,
            {
                if j != i && tasks[i].id == tasks[j].id {
                    return None;
                }
                j = j + 1;
            }
            i = i + 1;
        }
        Some(TaskStore { tasks })
    }

    /// The rows, in table order; their ids are distinct.
    pub fn tasks(&self) -> (r: &Vec<Task>)
        ensures
            r@ == self@,
            ids_unique(self@),
    {
        proof {
            use_type_invariant(self);
        }
        &self.tasks
    }

    /// Number of rows.
    pub fn len(&self) -> (n: usize)
        ensures
            n == self@.len(),
    {
        self.tasks.len()
    }
}

/// Index of the task with id `id`, if there is one.
pub open spec fn index_of(s: Seq<Task>, id: i32) -> Option<int> {
    if exists|i: int| 0 <= i < s.len() && s[i].id == id {
        Some(choose|i: int| 0 <= i < s.len() && s[i].id == id)
    } else {
        None
    }
}

/// Finds the index of the task with id `id`.
pub fn find_index(tasks: &Vec<Task>, id: i32) -> (r: Option<usize>)
    requires
        ids_unique(tasks@),
    ensures
        match r {
            Some(i) => index_of(tasks@, id) == Some(i as int) && i < tasks@.len(),
            None => index_of(tasks@, id) is None,
        },
{
    let n = tasks.len();
    let mut i: usize = 0;
    while i < n
        invariant
            n == tasks@.len(),
            i <= n,
            ids_unique(tasks@),
            forall|k: int| 0 <= k < i ==> #[trigger] tasks@[k].id != id,
        decreases n - i,
    {
        if tasks[i].id == id {
            proof {
                assert(0 <= i < tasks@.len() && tasks@[i as int].id == id);
                let c = choose|k: int| 0 <= k < tasks@.len() && tasks@[k].id == id;
                assert(0 <= c < tasks@.len() && tasks@[c].id == id);
                assert(c == i);
            }
            return Some(i);
        }
        i = i + 1;
    }
    None
}

} // verus!
