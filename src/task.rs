//! Task descriptors and the table that holds them.

use vstd::prelude::*;

verus! {

/// Number of bytes in a task's command-name field.
pub const TASK_COMM_LEN: usize = 16;

/// One task descriptor: its pid, its command name, the index of its parent in
/// the table and the indices of its children, in the order the host keeps them.
pub struct Task {
    pub pid: i32,
    pub comm: [u8; 16],
    pub parent: usize,
    pub children: Vec<usize>,
}

/// Why a task could not be resolved.
#[derive(Debug, Clone, Copy, PartialEq, Eq, Structural)]
pub enum TreeError {
    /// The requested pid is zero or negative.
    ParameterOutOfRange,
    /// No task holds the requested pid.
    NotFound,
}

/// Index one past the command name: the first NUL at or after `k`, or the
/// field's length.
pub open spec fn name_end(comm: Seq<u8>, k: int) -> int
    decreases comm.len() - k,
{
    if k >= comm.len() || comm[k] == 0 {
        k
    } else {
        name_end(comm, k + 1)
    }
}

/// The command name held in a `comm` field: its bytes up to the first NUL.
pub open spec fn comm_name(comm: Seq<u8>) -> Seq<u8> {
    comm.take(name_end(comm, 0))
}

impl Task {
    /// The command name: the bytes of `comm` before its first NUL, all
    /// sixteen where it holds none.
    pub fn command_name(&self) -> (r: Vec<u8>)
        ensures
            r@ == comm_name(self.comm@),
    {
        let mut n: usize = 0;
        while n < TASK_COMM_LEN && self.comm[n] != 0
            invariant
                0 <= n <= TASK_COMM_LEN,
                name_end(self.comm@, n as int) == name_end(self.comm@, 0),
            decreases TASK_COMM_LEN - n,
        {
            n = n + 1;
        }
        let mut r: Vec<u8> = Vec::new();
        let mut i: usize = 0;
        while i < n
            invariant
                i <= n <= TASK_COMM_LEN,
                name_end(self.comm@, n as int) == n,
                name_end(self.comm@, n as int) == name_end(self.comm@, 0),
                r@ == self.comm@.take(i as int),
            decreases n - i,
        {
            r.push(self.comm[i]);
            i = i + 1;
            assert(r@ =~= self.comm@.take(i as int));
        }
        r
    }
}

/// The task table. Index 0 holds the root task (pid 0, its own parent);
/// every other task has a positive pid and comes after its parent, and each
/// task lists as children only tasks whose parent it is.
pub struct TaskTable {
    pub tasks: Vec<Task>,
}

impl TaskTable {
    pub open spec fn size(&self) -> int {
        self.tasks@.len() as int
    }

    pub open spec fn pid_of(&self, i: int) -> int {
        self.tasks@[i].pid as int
    }

    pub open spec fn parent_of(&self, i: int) -> int {
        self.tasks@[i].parent as int
    }

    pub open spec fn children_of(&self, i: int) -> Seq<usize> {
        self.tasks@[i].children@
    }

    pub open spec fn child_of(&self, i: int, k: int) -> int {
        self.children_of(i)[k] as int
    }

    /// Task `i` sits where a well-formed table wants it.
    pub open spec fn task_wf(&self, i: int) -> bool {
        &&& if i == 0 {
            self.pid_of(0) == 0 && self.parent_of(0) == 0
        } else {
            self.pid_of(i) > 0 && self.parent_of(i) < i
        }
        &&& forall|k: int|
            0 <= k < self.children_of(i).len() ==> 0 < #[trigger] self.child_of(i, k) < self.size()
                && self.parent_of(self.child_of(i, k)) == i
    }

    pub open spec fn wf(&self) -> bool {
        &&& self.size() > 0
        &&& forall|i: int| 0 <= i < self.size() ==> #[trigger] self.task_wf(i)
    }

    /// The first index at or after `k` whose task has `pid`, or the size.
    pub open spec fn find_pid(&self, pid: int, k: int) -> int
        decreases self.size() - k,
    {
        if k >= self.size() {
            self.size()
        } else if self.pid_of(k) == pid {
            k
        } else {
            self.find_pid(pid, k + 1)
        }
    }

    /// What resolving `pid` gives: the index of the first task with that pid.
    pub open spec fn resolve_spec(&self, pid: int) -> Result<int, TreeError> {
        if pid <= 0 {
            Err(TreeError::ParameterOutOfRange)
        } else if self.find_pid(pid, 0) < self.size() {
            Ok(self.find_pid(pid, 0))
        } else {
            Err(TreeError::NotFound)
        }
    }

    /// Builds a table from its tasks, or `None` where they do not form a
    /// well-formed table.
    pub fn from_tasks(tasks: Vec<Task>) -> (r: Option<TaskTable>)
        ensures
            r is Some <==> (TaskTable { tasks }).wf(),
            r matches Some(t) ==> t.tasks@ == tasks@,
    {
        let ghost whole = TaskTable { tasks };
        let n = tasks.len();
        if n == 0 {
            return None;
        }
        let mut i: usize = 0;
        while i < n
            invariant
                n == tasks.len() == whole.size(),
                whole == (TaskTable { tasks }),
                0 <= i <= n,
                forall|j: int| 0 <= j < i ==> #[trigger] whole.task_wf(j),
            decreases n - i,
        {
            let t = &tasks[i];
            let placed = if i == 0 {
                t.pid == 0 && t.parent == 0
            } else {
                t.pid > 0 && t.parent < i
            };
            if !placed {
                assert(!whole.task_wf(i as int));
                assert(!whole.wf());
                return None;
            }
            let mut k: usize = 0;
            while k < t.children.len()
                invariant
                    n == tasks.len() == whole.size(),
                    whole == (TaskTable { tasks }),
                    i < n,
                    *t == tasks@[i as int],
                    0 <= k <= t.children.len(),
                    forall|m: int|
                        0 <= m < k ==> 0 < #[trigger] whole.child_of(i as int, m) < whole.size()
                            && whole.parent_of(whole.child_of(i as int, m)) == i,
                decreases t.children.len() - k,
            {
                let c = t.children[k];
                if c == 0 || c >= n || tasks[c].parent != i {
                    assert(!(0 < whole.child_of(i as int, k as int) < whole.size()
                        && whole.parent_of(whole.child_of(i as int, k as int)) == i));
                    assert(!whole.task_wf(i as int));
                    assert(!whole.wf());
                    return None;
                }
                k = k + 1;
            }
            assert(whole.task_wf(i as int));
            i = i + 1;
        }
        Some(TaskTable { tasks })
    }

    /// Looks a task up by pid: its index, `ParameterOutOfRange` for a pid
    /// that is not positive, `NotFound` where no task has it.
    pub fn resolve(&self, pid: i32) -> (r: Result<usize, TreeError>)
        ensures
            r matches Ok(i) ==> self.resolve_spec(pid as int) == Ok::<int, TreeError>(i as int),
            r matches Err(e) ==> self.resolve_spec(pid as int) == Err::<int, TreeError>(e),
    {
        if pid <= 0 {
            return Err(TreeError::ParameterOutOfRange);
        }
        let n = self.tasks.len();
        let mut i: usize = 0;
        while i < n
            invariant
                n == self.size(),
                pid > 0,
                0 <= i <= n,
                self.find_pid(pid as int, i as int) == self.find_pid(pid as int, 0),
            decreases n - i,
        {
            if self.tasks[i].pid == pid {
                assert(self.find_pid(pid as int, i as int) == i);
                return Ok(i);
            }
            i = i + 1;
        }
        Err(TreeError::NotFound)
    }
}

/// Two tables hold the same tasks: equal pids, names, parents and children.
pub open spec fn same_tasks(t1: TaskTable, t2: TaskTable) -> bool {
    &&& t1.size() == t2.size()
    &&& forall|i: int|
        #![trigger t1.tasks@[i]]
        0 <= i < t1.size() ==> t1.tasks@[i].pid == t2.tasks@[i].pid && t1.tasks@[i].comm@
            == t2.tasks@[i].comm@ && t1.tasks@[i].parent == t2.tasks@[i].parent
            && t1.tasks@[i].children@ == t2.tasks@[i].children@
}

pub(crate) proof fn lemma_same_find_pid(t1: TaskTable, t2: TaskTable, pid: int, k: int)
    requires
        same_tasks(t1, t2),
        0 <= k,
    ensures
        t1.find_pid(pid, k) == t2.find_pid(pid, k),
    decreases t1.size() - k,
{
    if k < t1.size() {
        assert(t1.tasks@[k].pid == t2.tasks@[k].pid);
        lemma_same_find_pid(t1, t2, pid, k + 1);
    }
}

/// A pid that resolves names a task that holds it, and no earlier task does.
pub proof fn lemma_find_pid(t: TaskTable, pid: int, k: int)
    requires
        0 <= k,
    ensures
        k <= t.find_pid(pid, k) <= t.size() || (k > t.size() && t.find_pid(pid, k) == t.size()),
        t.find_pid(pid, k) < t.size() ==> t.pid_of(t.find_pid(pid, k)) == pid,
        forall|j: int| k <= j < t.find_pid(pid, k) ==> t.pid_of(j) != pid,
    decreases t.size() - k,
{
    if k < t.size() && t.pid_of(k) != pid {
        lemma_find_pid(t, pid, k + 1);
    }
}

} // verus!
