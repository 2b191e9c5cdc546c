//! Greedy assignment of fixed-length tasks to interchangeable members, and
//! the per-member Gantt timelines that a finished schedule lays out.

pub mod gantt;
pub mod project;
pub mod schedule;

pub use gantt::GanttChart;
pub use project::{Member, Project, Task};
pub use schedule::{MemberSchedule, ProjectSchedule, ScheduleError, Scheduler, TaskSchedule};
