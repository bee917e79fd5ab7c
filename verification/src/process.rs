//! The process descriptor, the execution-segment record, and the error
//! taxonomy shared by every scheduling discipline.
//!
//! All simulated times are integers counting hundredths of a time unit, so
//! every comparison and every metric is exact.

use vstd::prelude::*;

verus! {

/// One simulated process: identity, workload, and the scheduling state that
/// the engines fill in while it runs.
#[derive(Clone, Copy, PartialEq, Eq, Structural, Debug)]
pub struct Process {
    /// Unique identifier, assigned at creation and never mutated.
    pub pid: u64,
    /// Time at which the process becomes ready, in hundredths.
    pub arrival_time: u64,
    /// Total CPU time the process needs, in hundredths; always positive.
    pub burst_time: u64,
    /// CPU time still owed; starts at `burst_time` and reaches zero when the
    /// process finishes.
    pub remaining_time: u64,
    /// Time spent ready but not running; filled in when the process finishes.
    pub waiting_time: u64,
    /// Time from arrival to completion; filled in when the process finishes.
    pub turn_around_time: u64,
    /// Scheduling priority; lower value means higher priority.
    pub priority: u64,
    /// The simulated time at which this process last stopped running.
    pub section_finish_time: u64,
    /// Time of the first dispatch of this process.
    pub start_time: u64,
    /// Time at which the process completed.
    pub finish_time: u64,
}

/// One contiguous interval during which a single process occupied the CPU,
/// or an idle gap (`name == None`).
#[derive(Clone, Copy, PartialEq, Eq, Structural, Debug)]
pub struct Event {
    /// The pid of the process that ran, or `None` for an idle interval.
    pub name: Option<u64>,
    pub start_time: u64,
    pub finish_time: u64,
}

/// The errors a scheduling run can report; all are fatal to that run.
#[derive(Clone, Copy, PartialEq, Eq, Structural, Debug)]
pub enum SchedulerError {
    /// A process was constructed with a zero burst time.
    InvalidProcessParameters,
    /// A round-robin quantum of zero was supplied.
    InvalidQuantum,
    /// A scheduling run was asked for on an empty process set.
    EmptyWorkload,
}

/// A freshly constructed process: the whole burst is still owed and no
/// metric has been computed yet.
pub open spec fn fresh_process(p: Process, pid: u64, arrival_time: u64, burst_time: u64, priority: u64) -> bool {
    &&& p.pid == pid
    &&& p.arrival_time == arrival_time
    &&& p.burst_time == burst_time
    &&& p.remaining_time == burst_time
    &&& p.waiting_time == 0
    &&& p.turn_around_time == 0
    &&& p.priority == priority
    &&& p.section_finish_time == 0
    &&& p.start_time == 0
    &&& p.finish_time == 0
}

/// The construction-time validation: a zero burst is meaningless, since such
/// a process would never occupy the CPU.
pub fn time_check(arrival_time: u64, burst_time: u64) -> (ok: bool)
    ensures
        ok == (burst_time > 0),
{
    let _ = arrival_time;
    burst_time > 0
}

impl Process {
    /// Constructs a process with the default (highest) priority, rejecting a
    /// zero burst time.
    pub fn new(pid: u64, arrival_time: u64, burst_time: u64) -> (r: Result<Process, SchedulerError>)
        ensures
            burst_time == 0 ==> r == Err::<Process, SchedulerError>(SchedulerError::InvalidProcessParameters),
            burst_time > 0 ==> (r is Ok && fresh_process(r->Ok_0, pid, arrival_time, burst_time, 0)),
    {
        Process::new_with_priority(pid, arrival_time, burst_time, 0)
    }

    /// Constructs a process with an explicit priority, rejecting a zero
    /// burst time.
    pub fn new_with_priority(pid: u64, arrival_time: u64, burst_time: u64, priority: u64) -> (r: Result<Process, SchedulerError>)
        ensures
            burst_time == 0 ==> r == Err::<Process, SchedulerError>(SchedulerError::InvalidProcessParameters),
            burst_time > 0 ==> (r is Ok && fresh_process(r->Ok_0, pid, arrival_time, burst_time, priority)),
    {
        if !time_check(arrival_time, burst_time) {
            return Err(SchedulerError::InvalidProcessParameters);
        }
        Ok(Process {
            pid,
            arrival_time,
            burst_time,
            remaining_time: burst_time,
            waiting_time: 0,
            turn_around_time: 0,
            priority,
            section_finish_time: 0,
            start_time: 0,
            finish_time: 0,
        })
    }
}

} // verus!
