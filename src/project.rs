use vstd::prelude::*;

verus! {

/// An indivisible piece of work that occupies `duration` consecutive time units.
pub struct Task {
    pub id: u16,
    pub name: String,
    pub duration: u16,
}

impl Task {
    pub fn new(id: u16, name: String, duration: u16) -> (r: Self)
        ensures
            r.id == id,
            r.name@ == name@,
            r.duration == duration,
    {
        Self { id, name, duration }
    }
}

/// A worker able to carry out tasks one after another.
pub struct Member {
    pub id: u16,
    pub name: String,
}

impl Member {
    pub fn new(id: u16, name: String) -> (r: Self)
        ensures
            r.id == id,
            r.name@ == name@,
    {
        Self { id, name }
    }
}

/// The tasks and members to be scheduled, with the horizon that timelines
/// are padded to.
pub struct Project {
    pub tasks: Vec<Task>,
    pub members: Vec<Member>,
    pub duration: u16,
}

/// Total duration of the first `i` tasks.
pub open spec fn work_before(tasks: Seq<Task>, i: int) -> int
    decreases i,
{
    if i <= 0 {
        0
    } else {
        work_before(tasks, i - 1) + tasks[i - 1].duration
    }
}

/// Total duration of all tasks.
pub open spec fn total_work(tasks: Seq<Task>) -> int {
    work_before(tasks, tasks.len() as int)
}

/// Prefix sums of durations never decrease.
pub proof fn lemma_work_before_monotonic(tasks: Seq<Task>, i: int, k: int)
    requires
        0 <= i <= k <= tasks.len(),
    ensures
        work_before(tasks, i) <= work_before(tasks, k),
    decreases k - i,
{
    if i < k {
        lemma_work_before_monotonic(tasks, i, k - 1);
    }
}

impl Project {
    /// Task ids and member ids are their positions, and every task takes time.
    pub open spec fn wf(&self) -> bool {
        &&& forall|k: int| 0 <= k < self.tasks@.len() ==> #[trigger] self.tasks@[k].id == k
        &&& forall|k: int| 0 <= k < self.tasks@.len() ==> #[trigger] self.tasks@[k].duration >= 1
        &&& forall|j: int| 0 <= j < self.members@.len() ==> #[trigger] self.members@[j].id == j
    }

    pub fn new(duration: u16) -> (r: Self)
        ensures
            r.tasks@.len() == 0,
            r.members@.len() == 0,
            r.duration == duration,
            r.wf(),
    {
        Self { tasks: Vec::new(), members: Vec::new(), duration }
    }

    /// Appends a task whose id is the number of tasks before it, and returns that id.
    pub fn add_task(&mut self, name: String, duration: u16) -> (id: u16)
        requires
            old(self).tasks@.len() <= u16::MAX,
            duration >= 1,
        ensures
            id == old(self).tasks@.len(),
            final(self).tasks@.len() == old(self).tasks@.len() + 1,
            final(self).tasks@.drop_last() == old(self).tasks@,
            final(self).tasks@.last().id == id,
            final(self).tasks@.last().name@ == name@,
            final(self).tasks@.last().duration == duration,
            final(self).members@ == old(self).members@,
            final(self).duration == old(self).duration,
            old(self).wf() ==> final(self).wf(),
    {
        let id = self.tasks.len() as u16;
        let task = Task::new(id, name, duration);
        self.tasks.push(task);
        proof {
            assert(self.tasks@.drop_last() =~= old(self).tasks@);
        }
        id
    }

    /// Appends a member whose id is the number of members before it, and returns that id.
    pub fn add_member(&mut self, name: String) -> (id: u16)
        requires
            old(self).members@.len() <= u16::MAX,
        ensures
            id == old(self).members@.len(),
            final(self).members@.len() == old(self).members@.len() + 1,
            final(self).members@.drop_last() == old(self).members@,
            final(self).members@.last().id == id,
            final(self).members@.last().name@ == name@,
            final(self).tasks@ == old(self).tasks@,
            final(self).duration == old(self).duration,
            old(self).wf() ==> final(self).wf(),
    {
        let id = self.members.len() as u16;
        let member = Member::new(id, name);
        self.members.push(member);
        proof {
            assert(self.members@.drop_last() =~= old(self).members@);
        }
        id
    }
}

} // verus!
