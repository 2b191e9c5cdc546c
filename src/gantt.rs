use vstd::prelude::*;

use crate::schedule::{
    back_to_back, lemma_finish_before_last, lemma_member_back_to_back, member_no_gaps,
    MemberSchedule, ProjectSchedule, TaskSchedule,
};

verus! {

/// `line` followed by idle units up to length `n`; unchanged if it is at least that long.
pub open spec fn pad_to(line: Seq<Option<u16>>, n: int) -> Seq<Option<u16>> {
    if line.len() >= n {
        line
    } else {
        line + Seq::new((n - line.len()) as nat, |_t: int| None::<u16>)
    }
}

/// `id` once for each of `d` time units.
pub open spec fn run_of(id: u16, d: nat) -> Seq<Option<u16>> {
    Seq::new(d, |_t: int| Some(id))
}

/// The listed tasks laid out in order, each after idle units up to its start.
pub open spec fn lay_out(ts: Seq<TaskSchedule>, ids: Seq<u16>) -> Seq<Option<u16>>
    decreases ids.len(),
{
    if ids.len() == 0 {
        seq![]
    } else {
        let t = ts[ids.last() as int];
        pad_to(lay_out(ts, ids.drop_last()), t.start_time->0 as int) + run_of(
            t.task_id,
            t.duration as nat,
        )
    }
}

/// The timeline of member `m`: its tasks laid out, then idle units up to `horizon`.
pub open spec fn timeline(ts: Seq<TaskSchedule>, m: MemberSchedule, horizon: int) -> Seq<
    Option<u16>,
> {
    pad_to(lay_out(ts, m.assigned_tasks@), horizon)
}

/// Each listed task's id repeated once per unit of its duration, in list order.
pub open spec fn runs(ts: Seq<TaskSchedule>, ids: Seq<u16>) -> Seq<Option<u16>>
    decreases ids.len(),
{
    if ids.len() == 0 {
        seq![]
    } else {
        runs(ts, ids.drop_last()) + run_of(ids.last(), ts[ids.last() as int].duration as nat)
    }
}

/// Total duration of the listed tasks.
pub open spec fn assigned_work(ts: Seq<TaskSchedule>, ids: Seq<u16>) -> int
    decreases ids.len(),
{
    if ids.len() == 0 {
        0
    } else {
        assigned_work(ts, ids.drop_last()) + ts[ids.last() as int].duration
    }
}

/// Tasks laid out back to back leave no idle unit: the layout is their runs,
/// as long as their total work, and each task's run covers its start to finish.
proof fn lemma_lay_out_runs(ts: Seq<TaskSchedule>, ids: Seq<u16>)
    requires
        back_to_back(ts, ids),
    ensures
        lay_out(ts, ids) == runs(ts, ids),
        runs(ts, ids).len() == assigned_work(ts, ids),
        ids.len() > 0 ==> assigned_work(ts, ids) == ts[ids.last() as int].finish_time->0 + 1,
        forall|x: int, t: int|
            0 <= x < ids.len() && ts[ids[x] as int].start_time->0 <= t <= ts[ids[x] as int].finish_time->0
                ==> #[trigger] runs(ts, ids)[t] == Some(#[trigger] ids[x]),
    decreases ids.len(),
{
    if ids.len() > 0 {
        let prev = ids.drop_last();
        assert forall|x: int| 0 <= x < prev.len() implies prev[x] == ids[x] by {}
        assert(back_to_back(ts, prev));
        lemma_lay_out_runs(ts, prev);
        let last = ids.last() as int;
        let t = ts[last];
        if prev.len() > 0 {
            assert(ts[last].start_time->0 == ts[prev.last() as int].finish_time->0 + 1);
        }
        assert(pad_to(lay_out(ts, prev), t.start_time->0 as int) == lay_out(ts, prev));
        let r = runs(ts, ids);
        assert forall|x: int, u: int|
            0 <= x < ids.len() && ts[ids[x] as int].start_time->0 <= u <= ts[ids[x] as int].finish_time->0
                implies #[trigger] r[u] == Some(#[trigger] ids[x]) by {
            if x < prev.len() {
                assert(prev[x] == ids[x]);
                assert(runs(ts, prev)[u] == Some(prev[x]));
                if prev.len() > 0 && x < prev.len() - 1 {
                    lemma_finish_before_last(ts, ids, x);
                }
            }
        }
    }
}

/// In a well-formed schedule each member's timeline is the runs of its
/// tasks, and its total work is the time from which the member is free.
proof fn lemma_member_runs(s: ProjectSchedule, j: int)
    requires
        s.wf(),
        0 <= j < s.member_schedules@.len(),
    ensures
        lay_out(s.task_schedules@, s.member_schedules@[j].assigned_tasks@) == runs(
            s.task_schedules@,
            s.member_schedules@[j].assigned_tasks@,
        ),
        runs(s.task_schedules@, s.member_schedules@[j].assigned_tasks@).len() == assigned_work(
            s.task_schedules@,
            s.member_schedules@[j].assigned_tasks@,
        ),
        assigned_work(s.task_schedules@, s.member_schedules@[j].assigned_tasks@)
            == s.member_schedules@[j].assignable_from,
{
    let ts = s.task_schedules@;
    let m = s.member_schedules@[j];
    lemma_member_back_to_back(s, j);
    assert(member_no_gaps(ts, m));
    lemma_lay_out_runs(ts, m.assigned_tasks@);
}

/// Every timeline is at least as long as the horizon; it is exactly as long
/// as the horizon or the member's total work, whichever is longer, and so
/// exactly the horizon when that work fits in it.
pub proof fn lemma_timeline_length(s: ProjectSchedule, j: int)
    requires
        s.wf(),
        0 <= j < s.member_schedules@.len(),
    ensures
        ({
            let ts = s.task_schedules@;
            let m = s.member_schedules@[j];
            let len = timeline(ts, m, s.duration as int).len();
            let work = assigned_work(ts, m.assigned_tasks@);
            &&& len >= s.duration
            &&& len == if work > s.duration { work } else { s.duration as int }
            &&& work <= s.duration ==> len == s.duration
        }),
{
    lemma_member_runs(s, j);
}

/// A timeline reads as each of the member's tasks, in the order given, its
/// id repeated once per unit of its duration over the units from its start
/// to its finish, followed by idle units only.
pub proof fn lemma_timeline_content(s: ProjectSchedule, j: int)
    requires
        s.wf(),
        0 <= j < s.member_schedules@.len(),
    ensures
        ({
            let ts = s.task_schedules@;
            let m = s.member_schedules@[j];
            let ids = m.assigned_tasks@;
            let line = timeline(ts, m, s.duration as int);
            &&& line == pad_to(runs(ts, ids), s.duration as int)
            &&& forall|x: int, t: int|
                0 <= x < ids.len() && ts[ids[x] as int].start_time->0 <= t
                    <= ts[ids[x] as int].finish_time->0 ==> #[trigger] line[t] == Some(
                    #[trigger] ids[x],
                )
            &&& forall|t: int| assigned_work(ts, ids) <= t < line.len() ==> #[trigger] line[t] is None
        }),
{
    let ts = s.task_schedules@;
    let ids = s.member_schedules@[j].assigned_tasks@;
    lemma_member_runs(s, j);
    lemma_lay_out_runs(ts, ids);
    let line = timeline(ts, s.member_schedules@[j], s.duration as int);
    assert forall|x: int, t: int|
        0 <= x < ids.len() && ts[ids[x] as int].start_time->0 <= t <= ts[ids[x] as int].finish_time->0
            implies #[trigger] line[t] == Some(#[trigger] ids[x]) by {
        assert(runs(ts, ids)[t] == Some(ids[x]));
        lemma_finish_before_last(ts, ids, x);
    }
}

/// One timeline per member, in member order. A timeline holds, for each
/// time unit, the id of the task the member is on, or `None` when idle.
pub struct GanttChart {
    pub timelines: Vec<Vec<Option<u16>>>,
}

impl GanttChart {
    /// Appends idle units to `line` until it is `n` long.
    fn pad(line: &mut Vec<Option<u16>>, n: usize)
        ensures
            final(line)@ == pad_to(old(line)@, n as int),
    {
        let ghost start = line@;
        while line.len() < n
            invariant
                start.len() <= line@.len(),
                line@.len() <= n || line@.len() == start.len(),
                line@ == start + Seq::new((line@.len() - start.len()) as nat, |_t: int| None::<u16>),
            decreases n - line@.len(),
        {
            line.push(None);
        }
        assert(line@ == pad_to(start, n as int));
    }

    /// Appends `id` to `line` once for each of `d` time units.
    fn fill(line: &mut Vec<Option<u16>>, id: u16, d: u16)
        ensures
            final(line)@ == old(line)@ + run_of(id, d as nat),
    {
        let ghost start = line@;
        let mut i: u16 = 0;
        while i < d
            invariant
                i <= d,
                line@ == start + run_of(id, i as nat),
            decreases d - i,
        {
            line.push(Some(id));
            i = i + 1;
        }
    }

    /// Lays out each member's tasks at their start times and pads every
    /// timeline with idle units up to the schedule's horizon.
    pub fn from(schedule: &ProjectSchedule) -> (r: GanttChart)
        requires
            schedule.wf(),
        ensures
            r.timelines@.len() == schedule.member_schedules@.len(),
            forall|j: int|
                0 <= j < r.timelines@.len() ==> (#[trigger] r.timelines@[j])@ == timeline(
                    schedule.task_schedules@,
                    schedule.member_schedules@[j],
                    schedule.duration as int,
                ),
    {
        let ghost ts = schedule.task_schedules@;
        let mut timelines: Vec<Vec<Option<u16>>> = Vec::new();
        let mut j: usize = 0;
        while j < schedule.member_schedules.len()
            invariant
                schedule.wf(),
                ts == schedule.task_schedules@,
                j <= schedule.member_schedules@.len(),
                timelines@.len() == j,
                forall|x: int|
                    0 <= x < j ==> (#[trigger] timelines@[x])@ == timeline(
                        ts,
                        schedule.member_schedules@[x],
                        schedule.duration as int,
                    ),
            decreases schedule.member_schedules@.len() - j,
        {
            let member = &schedule.member_schedules[j];
            let ghost ids = member.assigned_tasks@;
            let mut line: Vec<Option<u16>> = Vec::new();
            let mut x: usize = 0;
            while x < member.assigned_tasks.len()
                invariant
                    schedule.wf(),
                    ts == schedule.task_schedules@,
                    j < schedule.member_schedules@.len(),
                    *member == schedule.member_schedules@[j as int],
                    ids == member.assigned_tasks@,
                    x <= ids.len(),
                    line@ == lay_out(ts, ids.take(x as int)),
                decreases ids.len() - x,
            {
                let k = member.assigned_tasks[x];
                assert(k < ts.len() && ts[k as int].assigned_to(j as int));
                assert(ts[k as int].is_assigned() || ts[k as int].is_unassigned());
                let task = &schedule.task_schedules[k as usize];
                let start = match task.start_time {
                    Some(s) => s,
                    None => 0,
                };
                Self::pad(&mut line, start as usize);
                Self::fill(&mut line, task.task_id, task.duration);
                proof {
                    assert(ids.take(x + 1).drop_last() == ids.take(x as int));
                    assert(ids.take(x + 1).last() == k);
                    assert(start == ts[k as int].start_time->0);
                    assert(lay_out(ts, ids.take(x + 1)) == pad_to(lay_out(ts, ids.take(x as int)), start as int)
                        + run_of(task.task_id, task.duration as nat));
                }
                x = x + 1;
            }
            proof {
                assert(ids.take(x as int) == ids);
            }
            Self::pad(&mut line, schedule.duration as usize);
            timelines.push(line);
            j = j + 1;
        }
        GanttChart { timelines }
    }
}

} // verus!
