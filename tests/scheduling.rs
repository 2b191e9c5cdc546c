use gantt_schedule::{
    GanttChart, Member, MemberSchedule, Project, ProjectSchedule, ScheduleError, Scheduler, Task,
    TaskSchedule,
};

fn project_with(durations: &[u16], members: usize, horizon: u16) -> Project {
    let mut project = Project::new(horizon);
    for (k, d) in durations.iter().enumerate() {
        project.add_task(format!("task{}", k), *d);
    }
    for j in 0..members {
        project.add_member(format!("member{}", j));
    }
    project
}

fn schedule_of(durations: &[u16], members: usize, horizon: u16) -> ProjectSchedule {
    match Scheduler::create_schedule(&project_with(durations, members, horizon)) {
        Ok(s) => s,
        Err(e) => panic!("no schedule: {:?}", e),
    }
}

fn placement(s: &ProjectSchedule, k: usize) -> (u16, u16, u16) {
    let t = &s.task_schedules[k];
    (t.assigned_member.unwrap(), t.start_time.unwrap(), t.finish_time.unwrap())
}

#[test]
fn task_new_keeps_fields() {
    let t = Task::new(4, "write".to_string(), 7);
    assert_eq!(t.id, 4);
    assert_eq!(t.name, "write");
    assert_eq!(t.duration, 7);
}

#[test]
fn member_new_keeps_fields() {
    let m = Member::new(2, "ann".to_string());
    assert_eq!(m.id, 2);
    assert_eq!(m.name, "ann");
}

#[test]
fn project_ids_are_sequential() {
    let mut project = Project::new(10);
    assert_eq!(project.duration, 10);
    assert!(project.tasks.is_empty());
    assert!(project.members.is_empty());
    assert_eq!(project.add_task("a".to_string(), 3), 0);
    assert_eq!(project.add_task("b".to_string(), 2), 1);
    assert_eq!(project.add_member("x".to_string()), 0);
    assert_eq!(project.add_member("y".to_string()), 1);
    assert_eq!(project.add_member("z".to_string()), 2);
    assert_eq!(project.tasks[1].id, 1);
    assert_eq!(project.tasks[1].name, "b");
    assert_eq!(project.tasks[1].duration, 2);
    assert_eq!(project.members[2].id, 2);
    assert_eq!(project.members[2].name, "z");
}

#[test]
fn task_schedule_starts_unassigned() {
    let ts = TaskSchedule::from(&Task::new(3, "t".to_string(), 5));
    assert_eq!(ts.task_id, 3);
    assert_eq!(ts.duration, 5);
    assert_eq!(ts.assigned_member, None);
    assert_eq!(ts.start_time, None);
    assert_eq!(ts.finish_time, None);
}

#[test]
fn member_schedule_starts_free() {
    let ms = MemberSchedule::from(&Member::new(1, "m".to_string()));
    assert_eq!(ms.member_id, 1);
    assert!(ms.assigned_tasks.is_empty());
    assert_eq!(ms.assignable_from, 0);
}

#[test]
fn five_tasks_three_members() {
    let s = schedule_of(&[3, 2, 1, 1, 3], 3, 10);
    assert_eq!(s.duration, 10);
    assert_eq!(placement(&s, 0), (0, 0, 2));
    assert_eq!(placement(&s, 1), (1, 0, 1));
    assert_eq!(placement(&s, 2), (2, 0, 0));
    assert_eq!(placement(&s, 3), (2, 1, 1));
    // members 1 and 2 are both free at 2; the lower id wins
    assert_eq!(placement(&s, 4), (1, 2, 4));
    assert_eq!(s.member_schedules[0].assigned_tasks, vec![0]);
    assert_eq!(s.member_schedules[1].assigned_tasks, vec![1, 4]);
    assert_eq!(s.member_schedules[2].assigned_tasks, vec![2, 3]);
    assert_eq!(s.member_schedules[0].assignable_from, 3);
    assert_eq!(s.member_schedules[1].assignable_from, 5);
    assert_eq!(s.member_schedules[2].assignable_from, 2);

    let chart = GanttChart::from(&s);
    let n = None;
    assert_eq!(chart.timelines.len(), 3);
    assert_eq!(chart.timelines[0], vec![Some(0), Some(0), Some(0), n, n, n, n, n, n, n]);
    assert_eq!(chart.timelines[1], vec![Some(1), Some(1), Some(4), Some(4), Some(4), n, n, n, n, n]);
    assert_eq!(chart.timelines[2], vec![Some(2), Some(3), n, n, n, n, n, n, n, n]);
}

#[test]
fn no_members_is_refused() {
    let project = project_with(&[3, 2], 0, 10);
    assert!(matches!(Scheduler::create_schedule(&project), Err(ScheduleError::NoMembers)));
    let empty = Project::new(0);
    assert!(matches!(Scheduler::create_schedule(&empty), Err(ScheduleError::NoMembers)));
}

#[test]
fn too_much_work_is_refused() {
    let project = project_with(&[40000, 30000], 2, 10);
    assert!(matches!(Scheduler::create_schedule(&project), Err(ScheduleError::TimeOverflow)));
}

#[test]
fn work_up_to_the_limit_is_scheduled() {
    let s = schedule_of(&[65000, 535], 1, 10);
    assert_eq!(placement(&s, 0), (0, 0, 64999));
    assert_eq!(placement(&s, 1), (0, 65000, 65534));
    assert_eq!(s.member_schedules[0].assignable_from, 65535);
}

#[test]
fn no_tasks_gives_idle_timelines() {
    let s = schedule_of(&[], 2, 4);
    assert!(s.task_schedules.is_empty());
    assert!(s.member_schedules.iter().all(|m| m.assigned_tasks.is_empty()));
    let chart = GanttChart::from(&s);
    assert_eq!(chart.timelines, vec![vec![None; 4], vec![None; 4]]);
}

#[test]
fn every_task_is_placed() {
    let s = schedule_of(&[4, 1, 7, 2, 2, 5, 1, 3], 3, 12);
    for t in s.task_schedules.iter() {
        let start = t.start_time.unwrap();
        assert!(t.assigned_member.unwrap() < 3);
        assert_eq!(t.finish_time.unwrap(), start + t.duration - 1);
    }
}

#[test]
fn member_tasks_run_back_to_back() {
    let s = schedule_of(&[4, 1, 7, 2, 2, 5, 1, 3], 3, 12);
    for m in s.member_schedules.iter() {
        let mut tasks: Vec<&TaskSchedule> =
            m.assigned_tasks.iter().map(|k| &s.task_schedules[*k as usize]).collect();
        tasks.sort_by_key(|t| t.start_time.unwrap());
        let mut free = 0;
        for t in tasks {
            assert_eq!(t.start_time.unwrap(), free);
            free = t.finish_time.unwrap() + 1;
        }
        assert_eq!(m.assignable_from, free);
    }
}

#[test]
fn each_task_is_listed_once() {
    let s = schedule_of(&[4, 1, 7, 2, 2, 5, 1, 3], 3, 12);
    let mut listed: Vec<u16> =
        s.member_schedules.iter().flat_map(|m| m.assigned_tasks.iter().copied()).collect();
    listed.sort();
    assert_eq!(listed, (0..8).collect::<Vec<u16>>());
    for (j, m) in s.member_schedules.iter().enumerate() {
        for k in m.assigned_tasks.iter() {
            assert_eq!(s.task_schedules[*k as usize].assigned_member, Some(j as u16));
        }
    }
}

#[test]
fn each_task_goes_to_a_least_loaded_member() {
    let durations = [4, 1, 7, 2, 2, 5, 1, 3];
    let s = schedule_of(&durations, 3, 12);
    let mut loads = [0u16; 3];
    for (k, d) in durations.iter().enumerate() {
        let (j, start, _) = placement(&s, k);
        let j = j as usize;
        assert_eq!(start, loads[j]);
        for (other, load) in loads.iter().enumerate() {
            assert!(loads[j] <= *load);
            if other < j {
                assert!(loads[j] < *load);
            }
        }
        loads[j] += d;
    }
}

#[test]
fn timeline_runs_past_a_short_horizon() {
    let s = schedule_of(&[5, 1], 1, 3);
    let chart = GanttChart::from(&s);
    assert_eq!(chart.timelines[0], vec![Some(0), Some(0), Some(0), Some(0), Some(0), Some(1)]);
}

#[test]
fn timeline_is_padded_to_the_horizon() {
    let s = schedule_of(&[2, 3, 1], 2, 7);
    let chart = GanttChart::from(&s);
    for line in chart.timelines.iter() {
        assert_eq!(line.len(), 7);
    }
    assert_eq!(chart.timelines[0], vec![Some(0), Some(0), Some(2), None, None, None, None]);
    assert_eq!(chart.timelines[1], vec![Some(1), Some(1), Some(1), None, None, None, None]);
}

#[test]
fn timeline_repeats_each_task_for_its_duration() {
    let durations = [4, 1, 7, 2, 2, 5, 1, 3];
    let s = schedule_of(&durations, 3, 6);
    let chart = GanttChart::from(&s);
    for (j, m) in s.member_schedules.iter().enumerate() {
        let line = &chart.timelines[j];
        let mut expected: Vec<Option<u16>> = vec![];
        for k in m.assigned_tasks.iter() {
            for _ in 0..durations[*k as usize] {
                expected.push(Some(*k));
            }
        }
        while expected.len() < 6 {
            expected.push(None);
        }
        assert_eq!(*line, expected);
        assert!(line.len() >= 6);
    }
}
