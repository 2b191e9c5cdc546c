use vstd::prelude::*;

use crate::project::{lemma_work_before_monotonic, total_work, work_before, Member, Project, Task};

verus! {

/// Where and when one task runs. The member, start and finish are either all
/// unset or all set, with `finish_time` the last time unit the task occupies.
#[derive(Clone, Copy, Debug)]
pub struct TaskSchedule {
    pub task_id: u16,
    pub duration: u16,
    pub assigned_member: Option<u16>,
    pub start_time: Option<u16>,
    pub finish_time: Option<u16>,
}

impl TaskSchedule {
    /// The task as yet unassigned.
    pub fn from(task: &Task) -> (r: Self)
        ensures
            r.task_id == task.id,
            r.duration == task.duration,
            r.is_unassigned(),
    {
        Self {
            task_id: task.id,
            duration: task.duration,
            assigned_member: None,
            start_time: None,
            finish_time: None,
        }
    }

    pub open spec fn is_unassigned(&self) -> bool {
        &&& self.assigned_member is None
        &&& self.start_time is None
        &&& self.finish_time is None
    }

    pub open spec fn is_assigned(&self) -> bool {
        &&& self.assigned_member is Some
        &&& self.start_time is Some
        &&& self.finish_time is Some
        &&& self.finish_time->0 == self.start_time->0 + self.duration - 1
    }

    /// The task was given to member `j`.
    pub open spec fn assigned_to(&self, j: int) -> bool {
        self.assigned_member is Some && self.assigned_member->0 == j
    }
}

/// The tasks given to one member, in the order they were given, and the
/// first time unit at which the member is free.
#[derive(Debug)]
pub struct MemberSchedule {
    pub member_id: u16,
    pub assigned_tasks: Vec<u16>,
    pub assignable_from: u16,
}

impl MemberSchedule {
    /// The member with nothing to do yet.
    pub fn from(member: &Member) -> (r: Self)
        ensures
            r.member_id == member.id,
            r.assigned_tasks@.len() == 0,
            r.assignable_from == 0,
    {
        Self { member_id: member.id, assigned_tasks: Vec::new(), assignable_from: 0 }
    }
}

/// Why no schedule could be made.
#[derive(Clone, Copy, Debug, PartialEq, Eq, Structural)]
pub enum ScheduleError {
    /// The project has no member to give tasks to.
    NoMembers,
    /// The tasks together last longer than a time unit count can hold.
    TimeOverflow,
}

/// A schedule for every task and member of a project.
#[derive(Debug)]
pub struct ProjectSchedule {
    pub task_schedules: Vec<TaskSchedule>,
    pub member_schedules: Vec<MemberSchedule>,
    pub duration: u16,
}

/// Total duration of those of the first `k` tasks that went to member `j`:
/// how busy `j` was when task `k` came up for assignment.
pub open spec fn member_load(ts: Seq<TaskSchedule>, j: int, k: int) -> int
    decreases k,
{
    if k <= 0 {
        0
    } else {
        member_load(ts, j, k - 1) + if ts[k - 1].assigned_to(j) {
            ts[k - 1].duration as int
        } else {
            0
        }
    }
}

/// Each task id is its position, each member id is its position, and every
/// task is either wholly assigned or wholly unassigned.
pub open spec fn consistent(ts: Seq<TaskSchedule>, ms: Seq<MemberSchedule>) -> bool {
    &&& forall|k: int| 0 <= k < ts.len() ==> #[trigger] ts[k].task_id == k
    &&& forall|k: int| 0 <= k < ts.len() ==> #[trigger] ts[k].duration >= 1
    &&& forall|k: int| 0 <= k < ts.len() ==> #[trigger] ts[k].is_assigned() || ts[k].is_unassigned()
    &&& forall|j: int| 0 <= j < ms.len() ==> #[trigger] ms[j].member_id == j
}

/// Every task has its member, start and finish.
pub open spec fn covers_all(ts: Seq<TaskSchedule>) -> bool {
    forall|k: int| 0 <= k < ts.len() ==> #[trigger] ts[k].is_assigned()
}

/// The member lists hold exactly the assigned tasks, each once, in the list of
/// the member the task names.
pub open spec fn conserves(ts: Seq<TaskSchedule>, ms: Seq<MemberSchedule>) -> bool {
    &&& forall|j: int, x: int|
        0 <= j < ms.len() && 0 <= x < ms[j].assigned_tasks@.len() ==> {
            let k = #[trigger] ms[j].assigned_tasks@[x];
            k < ts.len() && ts[k as int].assigned_to(j)
        }
    &&& forall|j: int| 0 <= j < ms.len() ==> #[trigger] ms[j].assigned_tasks@.no_duplicates()
    &&& forall|k: int|
        0 <= k < ts.len() && #[trigger] ts[k].assigned_member is Some ==> {
            let j = ts[k].assigned_member->0;
            j < ms.len() && ms[j as int].assigned_tasks@.contains(k as u16)
        }
}

/// A member's tasks run back to back from time 0, in list order, and the
/// member is free right after the last one.
pub open spec fn member_no_gaps(ts: Seq<TaskSchedule>, m: MemberSchedule) -> bool {
    let ids = m.assigned_tasks@;
    &&& ids.len() == 0 ==> m.assignable_from == 0
    &&& ids.len() > 0 ==> ts[ids[0] as int].start_time == Some(0u16)
    &&& ids.len() > 0 ==> m.assignable_from == ts[ids.last() as int].finish_time->0 + 1
    &&& forall|x: int|
        0 < x < ids.len() ==> #[trigger] ts[ids[x] as int].start_time->0 == ts[ids[x
            - 1] as int].finish_time->0 + 1
}

pub open spec fn no_gaps(ts: Seq<TaskSchedule>, ms: Seq<MemberSchedule>) -> bool {
    forall|j: int| 0 <= j < ms.len() ==> member_no_gaps(ts, #[trigger] ms[j])
}

/// Task `k` went to a least-loaded member of the `nm` members at its step,
/// the lowest id among equally loaded ones, and starts when that member was free.
pub open spec fn chosen_greedily(ts: Seq<TaskSchedule>, nm: int, k: int) -> bool {
    let j = ts[k].assigned_member->0 as int;
    &&& ts[k].start_time->0 == member_load(ts, j, k)
    &&& forall|j2: int|
        0 <= j2 < nm ==> member_load(ts, j, k) <= #[trigger] member_load(ts, j2, k)
    &&& forall|j2: int|
        0 <= j2 < j ==> member_load(ts, j, k) < #[trigger] member_load(ts, j2, k)
}

pub open spec fn greedy(ts: Seq<TaskSchedule>, nm: int) -> bool {
    forall|k: int| 0 <= k < ts.len() ==> #[trigger] chosen_greedily(ts, nm, k)
}

impl ProjectSchedule {
    pub open spec fn wf(&self) -> bool {
        &&& consistent(self.task_schedules@, self.member_schedules@)
        &&& conserves(self.task_schedules@, self.member_schedules@)
        &&& no_gaps(self.task_schedules@, self.member_schedules@)
    }

    /// The greedy schedule of `project`: its tasks and members copied in
    /// order, every task assigned, each member's tasks back to back, and
    /// each task given to the least-loaded member at its turn.
    pub open spec fn schedules(&self, project: &Project) -> bool {
        let ts = self.task_schedules@;
        let ms = self.member_schedules@;
        &&& self.wf()
        &&& self.duration == project.duration
        &&& ts.len() == project.tasks@.len()
        &&& forall|k: int|
            0 <= k < ts.len() ==> #[trigger] ts[k].duration == project.tasks@[k].duration
        &&& ms.len() == project.members@.len()
        &&& covers_all(ts)
        &&& greedy(ts, ms.len() as int)
    }
}

/// Task `k` stands in the list of some member.
pub open spec fn listed_somewhere(ms: Seq<MemberSchedule>, k: int) -> bool {
    exists|j: int| 0 <= j < ms.len() && #[trigger] ms[j].assigned_tasks@.contains(k as u16)
}

/// Once every task is assigned, the members' task lists together hold each
/// task id of the schedule exactly once, and nothing else.
pub proof fn lemma_each_task_once(s: ProjectSchedule)
    requires
        s.wf(),
        covers_all(s.task_schedules@),
    ensures
        ({
            let ts = s.task_schedules@;
            let ms = s.member_schedules@;
            &&& forall|k: int| 0 <= k < ts.len() ==> #[trigger] listed_somewhere(ms, k)
            &&& forall|j1: int, j2: int, k: u16|
                0 <= j1 < ms.len() && 0 <= j2 < ms.len()
                    && #[trigger] ms[j1].assigned_tasks@.contains(k)
                    && #[trigger] ms[j2].assigned_tasks@.contains(k) ==> j1 == j2
            &&& forall|j: int, x: int|
                0 <= j < ms.len() && 0 <= x < ms[j].assigned_tasks@.len()
                    ==> #[trigger] ms[j].assigned_tasks@[x] < ts.len()
            &&& forall|j: int| 0 <= j < ms.len() ==> #[trigger] ms[j].assigned_tasks@.no_duplicates()
        }),
{
    let ts = s.task_schedules@;
    let ms = s.member_schedules@;
    assert forall|k: int| 0 <= k < ts.len() implies #[trigger] listed_somewhere(ms, k) by {
        assert(ts[k].is_assigned());
        let j = ts[k].assigned_member->0 as int;
        assert(ms[j].assigned_tasks@.contains(k as u16));
    }
    assert forall|j1: int, j2: int, k: u16|
        0 <= j1 < ms.len() && 0 <= j2 < ms.len()
            && #[trigger] ms[j1].assigned_tasks@.contains(k)
            && #[trigger] ms[j2].assigned_tasks@.contains(k) implies j1 == j2 by {
        let x1 = choose|x: int| 0 <= x < ms[j1].assigned_tasks@.len() && ms[j1].assigned_tasks@[x] == k;
        let x2 = choose|x: int| 0 <= x < ms[j2].assigned_tasks@.len() && ms[j2].assigned_tasks@[x] == k;
        assert(ts[ms[j1].assigned_tasks@[x1] as int].assigned_to(j1));
        assert(ts[ms[j2].assigned_tasks@[x2] as int].assigned_to(j2));
    }
}

/// The listed tasks exist, are assigned, and run back to back from time 0.
pub open spec fn back_to_back(ts: Seq<TaskSchedule>, ids: Seq<u16>) -> bool {
    &&& forall|x: int|
        0 <= x < ids.len() ==> {
            let k = #[trigger] ids[x] as int;
            k < ts.len() && ts[k].is_assigned() && ts[k].task_id == k
        }
    &&& ids.len() > 0 ==> ts[ids[0] as int].start_time == Some(0u16)
    &&& forall|x: int|
        0 < x < ids.len() ==> #[trigger] ts[ids[x] as int].start_time->0 == ts[ids[x
            - 1] as int].finish_time->0 + 1
}

/// In a back-to-back list every task finishes before the last one finishes.
pub proof fn lemma_finish_before_last(ts: Seq<TaskSchedule>, ids: Seq<u16>, x: int)
    requires
        back_to_back(ts, ids),
        0 <= x < ids.len(),
    ensures
        ts[ids[x] as int].finish_time->0 <= ts[ids.last() as int].finish_time->0,
        x < ids.len() - 1 ==> ts[ids[x] as int].finish_time->0 < ts[ids[ids.len() - 2] as int].finish_time->0 + 1,
    decreases ids.len() - x,
{
    if x < ids.len() - 1 {
        assert(ts[ids[x + 1] as int].start_time->0 == ts[ids[x] as int].finish_time->0 + 1);
        lemma_finish_before_last(ts, ids, x + 1);
        if x + 1 < ids.len() - 1 {
            assert(ts[ids[x + 2] as int].start_time->0 == ts[ids[x + 1] as int].finish_time->0 + 1);
        }
    }
}

/// A member's list is in start-time order: starts strictly increase along
/// it, the first task starts at time 0, and each next task starts one unit
/// after the one before it finishes.
pub proof fn lemma_list_in_start_order(s: ProjectSchedule, j: int)
    requires
        s.wf(),
        0 <= j < s.member_schedules@.len(),
    ensures
        ({
            let ts = s.task_schedules@;
            let ids = s.member_schedules@[j].assigned_tasks@;
            &&& ids.len() > 0 ==> ts[ids[0] as int].start_time == Some(0u16)
            &&& forall|x: int|
                0 < x < ids.len() ==> #[trigger] ts[ids[x] as int].start_time->0 == ts[ids[x
                    - 1] as int].finish_time->0 + 1
            &&& forall|x: int, y: int|
                0 <= x < y < ids.len() ==> #[trigger] ts[ids[x] as int].start_time->0
                    < #[trigger] ts[ids[y] as int].start_time->0
        }),
{
    let ts = s.task_schedules@;
    let ids = s.member_schedules@[j].assigned_tasks@;
    lemma_member_back_to_back(s, j);
    assert forall|x: int, y: int| 0 <= x < y < ids.len() implies #[trigger] ts[ids[x] as int].start_time->0
        < #[trigger] ts[ids[y] as int].start_time->0 by {
        let pre = ids.take(y);
        assert forall|z: int| 0 <= z < pre.len() implies pre[z] == ids[z] by {}
        assert(back_to_back(ts, pre));
        lemma_finish_before_last(ts, pre, x);
        assert(ts[ids[x] as int].is_assigned());
    }
}

/// In a well-formed schedule each member's task list is back to back.
pub proof fn lemma_member_back_to_back(s: ProjectSchedule, j: int)
    requires
        s.wf(),
        0 <= j < s.member_schedules@.len(),
    ensures
        back_to_back(s.task_schedules@, s.member_schedules@[j].assigned_tasks@),
{
    let ts = s.task_schedules@;
    let m = s.member_schedules@[j];
    let ids = m.assigned_tasks@;
    assert(member_no_gaps(ts, m));
    assert forall|x: int| 0 <= x < ids.len() implies {
        let k = #[trigger] ids[x] as int;
        k < ts.len() && ts[k].is_assigned() && ts[k].task_id == k
    } by {
        let k = ids[x] as int;
        assert(k < ts.len() && ts[k].assigned_to(j));
        assert(ts[k].is_assigned() || ts[k].is_unassigned());
    }
}

/// Prefix agreement on members and durations gives equal loads.
proof fn lemma_load_frame(a: Seq<TaskSchedule>, b: Seq<TaskSchedule>, j: int, k: int)
    requires
        0 <= k <= a.len(),
        k <= b.len(),
        forall|t: int|
            0 <= t < k ==> a[t].assigned_member == b[t].assigned_member && a[t].duration
                == b[t].duration,
    ensures
        member_load(a, j, k) == member_load(b, j, k),
    decreases k,
{
    if k > 0 {
        lemma_load_frame(a, b, j, k - 1);
    }
}

pub struct Scheduler {}

impl Scheduler {
    /// Gives each task, in id order, to the first of the least-loaded
    /// members; fails when there is no member, or when the tasks together
    /// would run past the last time unit a `u16` can name.
    pub fn create_schedule(project: &Project) -> (r: Result<ProjectSchedule, ScheduleError>)
        requires
            project.wf(),
        ensures
            r is Err <==> (project.members@.len() == 0 || total_work(project.tasks@) > u16::MAX),
            project.members@.len() == 0 ==> r matches Err(ScheduleError::NoMembers),
            project.members@.len() > 0 && total_work(project.tasks@) > u16::MAX ==> r matches Err(
                ScheduleError::TimeOverflow,
            ),
            r matches Ok(s) ==> s.schedules(project),
    {
        let n = project.tasks.len();
        let nm = project.members.len();
        if nm == 0 {
            return Err(ScheduleError::NoMembers);
        }
        let mut total: u32 = 0;
        let mut i: usize = 0;
        while i < n
            invariant
                n == project.tasks@.len(),
                nm == project.members@.len(),
                nm > 0,
                i <= n,
                total == work_before(project.tasks@, i as int),
                total <= u16::MAX,
            decreases n - i,
        {
            total = total + project.tasks[i].duration as u32;
            i = i + 1;
            if total > u16::MAX as u32 {
                proof {
                    lemma_work_before_monotonic(project.tasks@, i as int, n as int);
                }
                return Err(ScheduleError::TimeOverflow);
            }
        }

        let mut task_schedules: Vec<TaskSchedule> = Vec::new();
        let mut i: usize = 0;
        while i < n
            invariant
                n == project.tasks@.len(),
                i <= n,
                project.wf(),
                task_schedules@.len() == i,
                forall|k: int|
                    0 <= k < i ==> (#[trigger] task_schedules@[k]).task_id == k
                        && task_schedules@[k].duration == project.tasks@[k].duration
                        && task_schedules@[k].is_unassigned(),
            decreases n - i,
        {
            task_schedules.push(TaskSchedule::from(&project.tasks[i]));
            i = i + 1;
        }
        let mut member_schedules: Vec<MemberSchedule> = Vec::new();
        let mut j: usize = 0;
        while j < nm
            invariant
                nm == project.members@.len(),
                j <= nm,
                project.wf(),
                n == project.tasks@.len(),
                task_schedules@.len() == n,
                forall|k: int|
                    0 <= k < n ==> (#[trigger] task_schedules@[k]).task_id == k
                        && task_schedules@[k].duration == project.tasks@[k].duration
                        && task_schedules@[k].is_unassigned(),
                member_schedules@.len() == j,
                forall|x: int|
                    0 <= x < j ==> (#[trigger] member_schedules@[x]).member_id == x
                        && member_schedules@[x].assigned_tasks@.len() == 0
                        && member_schedules@[x].assignable_from == 0,
            decreases nm - j,
        {
            member_schedules.push(MemberSchedule::from(&project.members[j]));
            j = j + 1;
        }

        let mut i: usize = 0;
        while i < n
            invariant
                n == project.tasks@.len(),
                nm == project.members@.len(),
                nm > 0,
                i <= n,
                project.wf(),
                total_work(project.tasks@) <= u16::MAX,
                task_schedules@.len() == n,
                member_schedules@.len() == nm,
                consistent(task_schedules@, member_schedules@),
                forall|k: int|
                    0 <= k < n ==> #[trigger] task_schedules@[k].duration
                        == project.tasks@[k].duration,
                forall|k: int|
                    0 <= k < i ==> #[trigger] task_schedules@[k].is_assigned(),
                forall|k: int|
                    i <= k < n ==> #[trigger] task_schedules@[k].is_unassigned(),
                conserves(task_schedules@, member_schedules@),
                forall|j2: int, x: int|
                    0 <= j2 < nm && 0 <= x < member_schedules@[j2].assigned_tasks@.len()
                        ==> #[trigger] member_schedules@[j2].assigned_tasks@[x] < i,
                no_gaps(task_schedules@, member_schedules@),
                forall|j2: int|
                    0 <= j2 < nm ==> #[trigger] member_schedules@[j2].assignable_from
                        == member_load(task_schedules@, j2, i as int),
                forall|j2: int|
                    0 <= j2 < nm ==> #[trigger] member_schedules@[j2].assignable_from
                        <= work_before(project.tasks@, i as int),
                forall|k: int|
                    0 <= k < i ==> #[trigger] chosen_greedily(task_schedules@, nm as int, k),
            decreases n - i,
        {
            let j = Self::least_loaded(&member_schedules);
            let ghost prev_ts = task_schedules@;
            let ghost prev_ms = member_schedules@;
            proof {
                lemma_work_before_monotonic(project.tasks@, i + 1, n as int);
                assert(member_schedules@[j as int].assignable_from + task_schedules@[i as int].duration
                    <= work_before(project.tasks@, i + 1));
            }
            Self::assign(&mut task_schedules[i], &mut member_schedules[j]);
            proof {
                let ts = task_schedules@;
                let ms = member_schedules@;
                assert(ts == prev_ts.update(i as int, ts[i as int]));
                assert(ms == prev_ms.update(j as int, ms[j as int]));
                assert forall|k: int, j2: int| 0 <= k <= i implies member_load(ts, j2, k)
                    == member_load(prev_ts, j2, k) by {
                    lemma_load_frame(ts, prev_ts, j2, k);
                }
                assert forall|j2: int| 0 <= j2 < nm implies #[trigger] ms[j2].assignable_from
                    == member_load(ts, j2, i + 1) by {
                    assert(member_load(ts, j2, i + 1) == member_load(ts, j2, i as int) + if ts[i as int].assigned_to(j2) {
                        ts[i as int].duration as int
                    } else {
                        0
                    });
                }
                assert forall|k: int| 0 <= k < i + 1 implies #[trigger] chosen_greedily(ts, nm as int, k) by {
                    if k < i {
                        assert(chosen_greedily(prev_ts, nm as int, k));
                        assert(ts[k] == prev_ts[k]);
                    } else {
                        assert(prev_ms[j as int].assignable_from == member_load(prev_ts, j as int, k));
                        assert forall|j2: int| 0 <= j2 < nm implies member_load(ts, j as int, k) <= #[trigger] member_load(ts, j2, k) by {
                            assert(prev_ms[j2].assignable_from == member_load(prev_ts, j2, k));
                        }
                        assert forall|j2: int| 0 <= j2 < j implies member_load(ts, j as int, k) < #[trigger] member_load(ts, j2, k) by {
                            assert(prev_ms[j2].assignable_from == member_load(prev_ts, j2, k));
                        }
                    }
                }
                assert forall|j2: int, x: int|
                    0 <= j2 < nm && 0 <= x < ms[j2].assigned_tasks@.len() implies {
                        let k = #[trigger] ms[j2].assigned_tasks@[x];
                        k < ts.len() && ts[k as int].assigned_to(j2) && k < i + 1
                    } by {
                    if j2 != j || x < prev_ms[j2].assigned_tasks@.len() {
                        assert(prev_ms[j2].assigned_tasks@[x] == ms[j2].assigned_tasks@[x]);
                    }
                }
                assert forall|j2: int| 0 <= j2 < nm implies #[trigger] ms[j2].assigned_tasks@.no_duplicates() by {
                    if j2 == j {
                        let a = prev_ms[j2].assigned_tasks@;
                        assert(a.no_duplicates());
                        assert forall|x: int| 0 <= x < a.len() implies a[x] != i as u16 by {
                            assert(a[x] < i);
                        }
                        assert(ms[j2].assigned_tasks@ == a.push(i as u16));
                    }
                }
                assert forall|k: int|
                    0 <= k < ts.len() && #[trigger] ts[k].assigned_member is Some implies {
                        let j3 = ts[k].assigned_member->0;
                        j3 < ms.len() && ms[j3 as int].assigned_tasks@.contains(k as u16)
                    } by {
                    if k != i {
                        let j3 = ts[k].assigned_member->0;
                        assert(prev_ms[j3 as int].assigned_tasks@.contains(k as u16));
                        if j3 == j {
                            let x = choose|x: int| 0 <= x < prev_ms[j3 as int].assigned_tasks@.len() && prev_ms[j3 as int].assigned_tasks@[x] == k as u16;
                            assert(ms[j3 as int].assigned_tasks@[x] == k as u16);
                        }
                    } else {
                        assert(ms[j as int].assigned_tasks@.last() == k as u16);
                    }
                }
                assert forall|j2: int| 0 <= j2 < nm implies member_no_gaps(ts, #[trigger] ms[j2]) by {
                    assert(member_no_gaps(prev_ts, prev_ms[j2]));
                    let ids = prev_ms[j2].assigned_tasks@;
                    assert forall|x: int| 0 <= x < ids.len() implies ts[ids[x] as int] == prev_ts[ids[x] as int] by {
                        assert(ids[x] < i);
                    }
                    if j2 == j {
                        let ids2 = ms[j2].assigned_tasks@;
                        assert forall|x: int| 0 < x < ids2.len() implies #[trigger] ts[ids2[x] as int].start_time->0 == ts[ids2[x - 1] as int].finish_time->0 + 1 by {
                            if x < ids.len() {
                                assert(ids2[x] == ids[x]);
                                assert(ids2[x - 1] == ids[x - 1]);
                            } else {
                                assert(ids2[x - 1] == ids.last());
                            }
                        }
                        if ids.len() > 0 {
                            assert(ids2[0] == ids[0]);
                        }
                    }
                }
            }
            i = i + 1;
        }
        Ok(ProjectSchedule { task_schedules, member_schedules, duration: project.duration })
    }

    /// The first of the least-loaded members.
    fn least_loaded(members: &Vec<MemberSchedule>) -> (j: usize)
        requires
            members@.len() > 0,
        ensures
            j < members@.len(),
            forall|j2: int|
                0 <= j2 < members@.len() ==> members@[j as int].assignable_from
                    <= #[trigger] members@[j2].assignable_from,
            forall|j2: int|
                0 <= j2 < j ==> members@[j as int].assignable_from
                    < #[trigger] members@[j2].assignable_from,
    {
        let mut best: usize = 0;
        let mut i: usize = 1;
        while i < members.len()
            invariant
                0 <= best < i <= members@.len(),
                forall|j2: int|
                    0 <= j2 < i ==> members@[best as int].assignable_from
                        <= #[trigger] members@[j2].assignable_from,
                forall|j2: int|
                    0 <= j2 < best ==> members@[best as int].assignable_from
                        < #[trigger] members@[j2].assignable_from,
            decreases members@.len() - i,
        {
            if members[i].assignable_from < members[best].assignable_from {
                best = i;
            }
            i = i + 1;
        }
        best
    }

    /// Gives `task` to `member`, starting when the member is free.
    fn assign(task: &mut TaskSchedule, member: &mut MemberSchedule)
        requires
            old(task).duration >= 1,
            old(member).assignable_from + old(task).duration <= u16::MAX,
        ensures
            final(task).task_id == old(task).task_id,
            final(task).duration == old(task).duration,
            final(task).assigned_member == Some(old(member).member_id),
            final(task).start_time == Some(old(member).assignable_from),
            final(task).finish_time == Some(
                (old(member).assignable_from + old(task).duration - 1) as u16,
            ),
            final(member).member_id == old(member).member_id,
            final(member).assigned_tasks@ == old(member).assigned_tasks@.push(old(task).task_id),
            final(member).assignable_from == old(member).assignable_from + old(task).duration,
    {
        task.assigned_member = Some(member.member_id);
        member.assigned_tasks.push(task.task_id);

        let start_time: u16 = member.assignable_from;
        let finish_time: u16 = start_time + task.duration - 1;

        task.start_time = Some(start_time);
        task.finish_time = Some(finish_time);

        member.assignable_from = finish_time + 1;
    }
}

} // verus!
