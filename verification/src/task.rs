//! Tasks and the identity-sorted task store.

use vstd::prelude::*;
use vstd::slice::slice_index_get;
use vstd::string::StringExecFns;

use crate::clock::now_micros;
use crate::ident::fresh_identity;
use crate::store::{sorted_keys, Keyed};
use crate::store::{lemma_key_unique, lemma_sorted_insert, lemma_sorted_remove,
    lemma_sorted_same_members, lemma_sorted_update};

verus! {

/// The classification of a task: carrying a deadline, or repeating.
#[derive(Clone, Copy, Debug, PartialEq, Eq, Structural)]
pub enum TaskType {
    Deadline,
    Repeated,
}

/// How often a repeating task recurs.
#[derive(Clone, Copy, Debug, PartialEq, Eq, Structural)]
pub enum RepeatType {
    Daily,
    Weekly,
    Monthly,
}

/// A task record. The identity and creation time are fixed at construction;
/// only the dependency set grows afterwards.
#[derive(Debug, Clone)]
pub struct Task {
    /// The 128-bit identity that orders and distinguishes records.
    pub id: u128,
    /// Lower values are more urgent.
    pub priority: u32,
    /// Creation time, microseconds since the Unix epoch, UTC.
    pub created: i64,
    /// Optional due time, microseconds since the Unix epoch, UTC.
    pub due: Option<i64>,
    /// Free text.
    pub content: String,
    /// Present exactly when a due date or a repetition was supplied.
    pub task_type: Option<TaskType>,
    /// Present only when the classification is `Repeated`.
    pub repeat: Option<RepeatType>,
    /// Identities of the tasks this one depends on, strictly ascending.
    pub depends: Vec<u128>,
}

/// The mathematical shape of a task.
pub struct TaskView {
    pub id: u128,
    pub priority: u32,
    pub created: i64,
    pub due: Option<i64>,
    pub content: Seq<char>,
    pub task_type: Option<TaskType>,
    pub repeat: Option<RepeatType>,
    pub depends: Seq<u128>,
}

impl View for Task {
    type V = TaskView;

    open spec fn view(&self) -> TaskView {
        TaskView {
            id: self.id,
            priority: self.priority,
            created: self.created,
            due: self.due,
            content: self.content@,
            task_type: self.task_type,
            repeat: self.repeat,
            depends: self.depends@,
        }
    }
}

impl Keyed for TaskView {
    open spec fn key(self) -> u128 {
        self.id
    }
}

impl TaskView {
    /// The dependency set is strictly ascending, hence duplicate-free.
    pub open spec fn wf(self) -> bool {
        sorted_keys(self.depends)
    }
}

/// The views of a sequence of tasks.
pub open spec fn task_views(s: Seq<Task>) -> Seq<TaskView> {
    Seq::new(s.len(), |i: int| s[i]@)
}

/// The classification a task receives from its optional due date and
/// repetition: repeating tasks are `Repeated`, dated ones `Deadline`,
/// plain ones carry no classification.
pub open spec fn spec_classify(due: Option<i64>, repeat: Option<RepeatType>) -> Option<TaskType> {
    if repeat is Some {
        Some(TaskType::Repeated)
    } else if due is Some {
        Some(TaskType::Deadline)
    } else {
        None
    }
}

/// Picks the classification for a task built from an optional due date and
/// an optional repetition.
pub fn classify(due: Option<i64>, repeat: Option<RepeatType>) -> (r: Option<TaskType>)
    ensures
        r == spec_classify(due, repeat),
{
    match repeat {
        Some(_) => Some(TaskType::Repeated),
        None => match due {
            Some(_) => Some(TaskType::Deadline),
            None => None,
        },
    }
}

/// The colour a display layer gives a priority: the colour of the first
/// threshold the priority falls under, or white.
pub open spec fn spec_color(p: u32, m: Seq<(u32, &str)>) -> Seq<char>
    decreases m.len(),
{
    if m.len() == 0 {
        "white"@
    } else if p < m[0].0 {
        m[0].1@
    } else {
        spec_color(p, m.drop_first())
    }
}

impl Task {
    /// A fresh plain task: new identity, creation time now, no due date,
    /// no classification, no dependencies.
    pub fn new(content: String, priority: u32) -> (t: Task)
        ensures
            t@.wf(),
            t@.priority == priority,
            t@.content == content@,
            t@.due is None,
            t@.task_type is None,
            t@.repeat is None,
            t@.depends.len() == 0,
    {
        Task {
            id: fresh_identity(),
            priority,
            created: now_micros(),
            due: None,
            content,
            task_type: None,
            repeat: None,
            depends: Vec::new(),
        }
    }

    /// A fresh classified task: new identity, creation time now, the given
    /// due date, classification and repetition, no dependencies.
    pub fn new_date(
        content: String,
        priority: u32,
        due: Option<i64>,
        task_type: TaskType,
        repeat: Option<RepeatType>,
    ) -> (t: Task)
        ensures
            t@.wf(),
            t@.priority == priority,
            t@.content == content@,
            t@.due == due,
            t@.task_type == Some(task_type),
            t@.repeat == repeat,
            t@.depends.len() == 0,
    {
        Task {
            id: fresh_identity(),
            priority,
            created: now_micros(),
            due,
            content,
            task_type: Some(task_type),
            repeat,
            depends: Vec::new(),
        }
    }

    /// The display text of the task and the colour its priority earns from
    /// the given thresholds.
    pub fn fmt<'a>(&self, priority_map: &[(u32, &'a str)]) -> (r: (String, &'a str))
        ensures
            r.0@ == "* "@ + self@.content,
            r.1@ == spec_color(self.priority, priority_map@),
    {
        let text = String::from_str("* ").concat(self.content.as_str());
        assert(text@ == "* "@ + self@.content);
        proof {
            assert(priority_map@.skip(0) =~= priority_map@);
        }
        let n = priority_map.len();
        let mut i: usize = 0;
        while i < n
            invariant
                i <= n,
                n == priority_map@.len(),
                text@ == "* "@ + self@.content,
                spec_color(self.priority, priority_map@) == spec_color(
                    self.priority,
                    priority_map@.skip(i as int),
                ),
            decreases n - i,
        {
            let entry = slice_index_get(priority_map, i);
            if self.priority < entry.0 {
                assert(priority_map@.skip(i as int)[0] == priority_map@[i as int]);
                return (text, entry.1);
            }
            proof {
                assert(priority_map@.skip(i as int)[0] == priority_map@[i as int]);
                assert(priority_map@.skip(i as int).drop_first() =~= priority_map@.skip(
                    i as int + 1,
                ));
            }
            i += 1;
        }
        (text, "white")
    }

    /// Inserts an identity into the dependency set; a second insertion of
    /// the same identity changes nothing, the dependencies form a set.
    pub fn add_dependency(&mut self, task_id: u128)
        requires
            old(self)@.wf(),
        ensures
            final(self)@.wf(),
            forall|d: u128| #[trigger]
                final(self)@.depends.contains(d) <==> old(self)@.depends.contains(d) || d
                    == task_id,
            final(self)@ == (TaskView { depends: final(self)@.depends, ..old(self)@ }),
    {
        let ghost pre = self.depends@;
        let (found, i) = find_id(&self.depends, task_id);
        if !found {
            self.depends.insert(i, task_id);
            proof {
                lemma_sorted_insert(pre, i as int, task_id);
            }
        }
    }
}

/// Lower-bound binary search over a strictly ascending identity sequence.
/// Returns whether the identity is present and the first position whose
/// identity is not below it.
fn find_id(v: &Vec<u128>, key: u128) -> (r: (bool, usize))
    requires
        sorted_keys(v@),
    ensures
        r.1 <= v@.len(),
        r.0 <==> (r.1 < v@.len() && v@[r.1 as int] == key),
        forall|k: int| 0 <= k < r.1 ==> #[trigger] v@[k] < key,
        forall|k: int| r.1 <= k < v@.len() ==> #[trigger] v@[k] >= key,
        !r.0 ==> forall|k: int| r.1 <= k < v@.len() ==> #[trigger] v@[k] > key,
{
    let mut lo: usize = 0;
    let mut hi: usize = v.len();
    while lo < hi
        invariant
            lo <= hi <= v@.len(),
            sorted_keys(v@),
            forall|k: int| 0 <= k < lo ==> #[trigger] v@[k] < key,
            forall|k: int| hi <= k < v@.len() ==> #[trigger] v@[k] >= key,
        decreases hi - lo,
    {
        let mid = lo + (hi - lo) / 2;
        if v[mid] < key {
            assert forall|k: int| 0 <= k < mid + 1 implies #[trigger] v@[k] < key by {
                if k < mid {
                    assert(v@[k].key() < v@[mid as int].key());
                }
            }
            lo = mid + 1;
        } else {
            assert forall|k: int| mid <= k < v@.len() implies #[trigger] v@[k] >= key by {
                if k > mid {
                    assert(v@[mid as int].key() < v@[k].key());
                }
            }
            hi = mid;
        }
    }
    let found = lo < v.len() && v[lo] == key;
    proof {
        if !found {
            assert forall|k: int| lo <= k < v@.len() implies #[trigger] v@[k] > key by {
                if k > lo {
                    assert(v@[lo as int].key() < v@[k].key());
                }
            }
        }
    }
    (found, lo)
}

/// Lower-bound binary search over a task store's strictly ascending
/// sequence.
fn find_task(v: &Vec<Task>, key: u128) -> (r: (bool, usize))
    requires
        sorted_keys(task_views(v@)),
    ensures
        r.1 <= v@.len(),
        r.0 <==> (r.1 < v@.len() && task_views(v@)[r.1 as int].id == key),
        forall|k: int| 0 <= k < r.1 ==> #[trigger] task_views(v@)[k].id < key,
        forall|k: int| r.1 <= k < v@.len() ==> #[trigger] task_views(v@)[k].id >= key,
        !r.0 ==> forall|k: int| r.1 <= k < v@.len() ==> #[trigger] task_views(v@)[k].id > key,
{
    let ghost vs = task_views(v@);
    let mut lo: usize = 0;
    let mut hi: usize = v.len();
    while lo < hi
        invariant
            lo <= hi <= v@.len(),
            vs == task_views(v@),
            vs.len() == v@.len(),
            sorted_keys(vs),
            forall|k: int| 0 <= k < lo ==> #[trigger] vs[k].id < key,
            forall|k: int| hi <= k < vs.len() ==> #[trigger] vs[k].id >= key,
        decreases hi - lo,
    {
        let mid = lo + (hi - lo) / 2;
        let probe = v[mid].id;
        assert(probe == vs[mid as int].id);
        if probe < key {
            assert forall|k: int| 0 <= k < mid + 1 implies #[trigger] vs[k].id < key by {
                if k < mid {
                    assert(vs[k].key() < vs[mid as int].key());
                }
            }
            lo = mid + 1;
        } else {
            assert forall|k: int| mid <= k < vs.len() implies #[trigger] vs[k].id >= key by {
                if k > mid {
                    assert(vs[mid as int].key() < vs[k].key());
                }
            }
            hi = mid;
        }
    }
    let found = lo < v.len() && v[lo].id == key;
    proof {
        assert(lo < v@.len() ==> task_views(v@)[lo as int].id == v@[lo as int]@.id);
        if !found {
            assert forall|k: int| lo <= k < v@.len() implies #[trigger] vs[k].id > key by {
                if k > lo {
                    assert(vs[lo as int].key() < vs[k].key());
                }
            }
        }
    }
    (found, lo)
}

/// The task store: a group identity, a group name, and the tasks in
/// strictly ascending identity order.
#[derive(Debug, Clone)]
pub struct Tasks {
    pub(crate) id: u128,
    pub(crate) group_name: String,
    pub(crate) tasks: Vec<Task>,
}

/// The mathematical shape of a task store.
pub struct TasksView {
    pub id: u128,
    pub group_name: Seq<char>,
    pub tasks: Seq<TaskView>,
}

impl View for Tasks {
    type V = TasksView;

    open(crate) spec fn view(&self) -> TasksView {
        TasksView { id: self.id, group_name: self.group_name@, tasks: task_views(self.tasks@) }
    }
}

impl TasksView {
    /// The store invariant: strictly ascending identities, and every task
    /// well formed.
    pub open spec fn wf(self) -> bool {
        &&& sorted_keys(self.tasks)
        &&& forall|k: int| 0 <= k < self.tasks.len() ==> (#[trigger] self.tasks[k]).wf()
    }

    /// Whether some task in the sequence carries the identity.
    pub open spec fn has_id(self, id: u128) -> bool {
        exists|k: int| 0 <= k < self.tasks.len() && (#[trigger] self.tasks[k]).id == id
    }
}

impl Tasks {
    /// The store invariant, on the executable value.
    pub open spec fn wf(self) -> bool {
        self@.wf()
    }
}

impl Default for Tasks {
    /// A fresh empty store named "root" under a new group identity.
    fn default() -> (r: Tasks)
        ensures
            r.wf(),
            r@.group_name == "root"@,
            r@.tasks.len() == 0,
    {
        Tasks { id: fresh_identity(), group_name: String::from_str("root"), tasks: Vec::new() }
    }
}

impl Tasks {
    /// The full ordered sequence of tasks, a read-only view: in a
    /// well-formed store it comes back in strictly ascending identity
    /// order, whatever sequence of insertions built it.
    pub fn get_tasks(&self) -> (r: &Vec<Task>)
        ensures
            task_views(r@) == self@.tasks,
            self.wf() ==> sorted_keys(task_views(r@)),
    {
        &self.tasks
    }

    /// Looks the identity up by binary search; returns the task that
    /// carries it, or nothing when no task does.
    pub fn get_task(&self, id: u128) -> (r: Option<&Task>)
        requires
            self.wf(),
        ensures
            match r {
                Some(t) => self@.tasks.contains(t@) && t@.id == id,
                None => !self@.has_id(id),
            },
    {
        let (found, i) = find_task(&self.tasks, id);
        if found {
            let t = &self.tasks[i];
            assert(self@.tasks[i as int] == t@);
            assert(self@.tasks.contains(t@));
            Some(t)
        } else {
            proof {
                if self@.has_id(id) {
                    let k = choose|k: int|
                        0 <= k < self@.tasks.len() && (#[trigger] self@.tasks[k]).id == id;
                    assert(task_views(self.tasks@)[k].id == id);
                }
            }
            None
        }
    }

    /// Inserts the task, keeping ascending identity order. A task already
    /// carrying the same identity is replaced; every other task stays.
    pub fn add(&mut self, task: Task)
        requires
            old(self).wf(),
            task@.wf(),
        ensures
            final(self).wf(),
            final(self)@.id == old(self)@.id,
            final(self)@.group_name == old(self)@.group_name,
            forall|v: TaskView| #[trigger]
                final(self)@.tasks.contains(v) <==> (old(self)@.tasks.contains(v) && v.id
                    != task@.id) || v == task@,
    {
        let ghost pre = task_views(self.tasks@);
        let ghost tv = task@;
        let (found, i) = find_task(&self.tasks, task.id);
        if found {
            let ghost pre_vec = self.tasks@;
            self.tasks.remove(i);
            let ghost mid_vec = self.tasks@;
            self.tasks.insert(i, task);
            proof {
                pre_vec.remove_ensures(i as int);
                mid_vec.insert_ensures(i as int, task);
                assert forall|k: int| 0 <= k < pre.len() implies task_views(self.tasks@)[k]
                    == pre.update(i as int, tv)[k] by {
                    if k > i {
                        assert(mid_vec[k - 1] == pre_vec[k]);
                    }
                }
                assert(task_views(self.tasks@) =~= pre.update(i as int, tv));
                lemma_sorted_update(pre, i as int, tv);
                self.lemma_members_wf(pre, tv);
            }
        } else {
            let ghost pre_vec = self.tasks@;
            self.tasks.insert(i, task);
            proof {
                pre_vec.insert_ensures(i as int, task);
                assert(task_views(self.tasks@) =~= pre.insert(i as int, tv));
                lemma_sorted_insert(pre, i as int, tv);
                assert forall|v: TaskView| #[trigger] pre.contains(v) implies v.id != tv.id by {
                    let k = choose|k: int| 0 <= k < pre.len() && pre[k] == v;
                }
                self.lemma_members_wf(pre, tv);
            }
        }
    }

    /// Every task in a store whose members come from a well-formed store
    /// plus one well-formed task is itself well formed.
    proof fn lemma_members_wf(&self, pre: Seq<TaskView>, tv: TaskView)
        requires
            forall|k: int| 0 <= k < pre.len() ==> (#[trigger] pre[k]).wf(),
            tv.wf(),
            forall|v: TaskView| #[trigger]
                self@.tasks.contains(v) ==> pre.contains(v) || v == tv,
        ensures
            forall|k: int| 0 <= k < self@.tasks.len() ==> (#[trigger] self@.tasks[k]).wf(),
    {
        assert forall|k: int| 0 <= k < self@.tasks.len() implies (
        #[trigger] self@.tasks[k]).wf() by {
            let v = self@.tasks[k];
            assert(self@.tasks.contains(v));
            if v != tv {
                let j = choose|j: int| 0 <= j < pre.len() && pre[j] == v;
                assert(pre[j].wf());
            }
        }
    }

    /// Removes the task carrying the identity, preserving the order of the
    /// rest; when no task carries it, the store is left unchanged.
    pub fn remove(&mut self, task_id: u128)
        requires
            old(self).wf(),
        ensures
            final(self).wf(),
            final(self)@.id == old(self)@.id,
            final(self)@.group_name == old(self)@.group_name,
            forall|v: TaskView| #[trigger]
                final(self)@.tasks.contains(v) <==> old(self)@.tasks.contains(v) && v.id
                    != task_id,
            !old(self)@.has_id(task_id) ==> final(self)@ == old(self)@,
    {
        let ghost pre = task_views(self.tasks@);
        let (found, i) = find_task(&self.tasks, task_id);
        if found {
            let ghost pre_vec = self.tasks@;
            self.tasks.remove(i);
            proof {
                pre_vec.remove_ensures(i as int);
                assert(task_views(self.tasks@) =~= pre.remove(i as int));
                lemma_sorted_remove(pre, i as int);
                assert(pre[i as int].id == task_id);
                self.lemma_members_wf(pre, pre[i as int]);
            }
        } else {
            proof {
                assert forall|v: TaskView| #[trigger]
                    pre.contains(v) implies v.id != task_id by {
                    let k = choose|k: int| 0 <= k < pre.len() && pre[k] == v;
                }
                if old(self)@.has_id(task_id) {
                    let k = choose|k: int|
                        0 <= k < pre.len() && (#[trigger] pre[k]).id == task_id;
                    assert(pre.contains(pre[k]));
                }
            }
        }
    }
}

/// Looking up an identity right after adding a record with it yields that
/// record: in a strictly sorted store two members with one identity are one
/// member.
pub proof fn lemma_get_after_add(s: Seq<TaskView>, t: TaskView, r: TaskView)
    requires
        sorted_keys(s),
        s.contains(t),
        s.contains(r),
        r.id == t.id,
    ensures
        r == t,
{
    let i = choose|i: int| 0 <= i < s.len() && s[i] == t;
    let j = choose|j: int| 0 <= j < s.len() && s[j] == r;
    lemma_key_unique(s, i, j);
}

/// Adding the same dependency twice yields the same dependency set as
/// adding it once: the second insertion finds its identity present and
/// leaves the strictly sorted set unchanged.
pub proof fn lemma_add_dependency_idempotent(once: Seq<u128>, twice: Seq<u128>, x: u128)
    requires
        sorted_keys(once),
        sorted_keys(twice),
        once.contains(x),
        forall|d: u128| #[trigger] twice.contains(d) <==> once.contains(d) || d == x,
    ensures
        twice == once,
{
    assert forall|d: u128| twice.contains(d) <==> #[trigger] once.contains(d) by {
        assert(twice.contains(d) <==> once.contains(d) || d == x);
    }
    lemma_sorted_same_members(twice, once);
}

} // verus!
