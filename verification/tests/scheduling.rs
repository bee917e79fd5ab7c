// Scenario tests for the scheduling engines.  All times are in hundredths
// of a time unit, so one simulated unit is written as 100.

use cpu_schedulers::nonpreemptive::NonpreemptiveScheduler;
use cpu_schedulers::preemptive::PreemptiveScheduler;
use cpu_schedulers::process::{Event, Process, SchedulerError};

fn p(pid: u64, arrival: u64, burst: u64) -> Process {
    Process::new(pid, arrival, burst).unwrap()
}

fn pp(pid: u64, arrival: u64, burst: u64, priority: u64) -> Process {
    Process::new_with_priority(pid, arrival, burst, priority).unwrap()
}

#[test]
fn test() {
    let mut scheduler: NonpreemptiveScheduler = NonpreemptiveScheduler::new(vec![
        p(1, 0, 300),
        p(2, 100, 1),
        p(3, 100, 1),
        p(4, 100, 1),
    ]);
    scheduler.sjf().unwrap();
}

#[test]
fn fcfs_three_processes() {
    let mut s = NonpreemptiveScheduler::new(vec![p(1, 0, 500), p(2, 100, 300), p(3, 200, 800)]);
    s.fcfs().unwrap();
    let fins = &s.finished_processes;
    assert_eq!(fins.len(), 3);
    assert_eq!(fins[0].pid, 1);
    assert_eq!(fins[0].finish_time, 500);
    assert_eq!(fins[0].waiting_time, 0);
    assert_eq!(fins[0].turn_around_time, 500);
    assert_eq!(fins[1].pid, 2);
    assert_eq!(fins[1].finish_time, 800);
    assert_eq!(fins[1].waiting_time, 400);
    assert_eq!(fins[1].turn_around_time, 700);
    assert_eq!(fins[2].pid, 3);
    assert_eq!(fins[2].finish_time, 1600);
    assert_eq!(fins[2].waiting_time, 600);
    assert_eq!(fins[2].turn_around_time, 1400);
}

#[test]
fn sjf_idle_gap() {
    let mut s = NonpreemptiveScheduler::new(vec![p(1, 0, 200), p(2, 500, 100)]);
    s.sjf().unwrap();
    let fins = &s.finished_processes;
    assert_eq!(fins.len(), 2);
    assert_eq!(fins[0].pid, 1);
    assert_eq!(fins[0].finish_time, 200);
    assert_eq!(fins[0].waiting_time, 0);
    assert_eq!(fins[1].pid, 2);
    assert_eq!(fins[1].start_time, 500);
    assert_eq!(fins[1].finish_time, 600);
    assert_eq!(fins[1].waiting_time, 0);
    // The timeline makes the idle jump visible.
    let report = s.print();
    assert_eq!(report.total_waiting_time, 0);
    assert_eq!(report.total_turn_around_time, 300);
    assert_eq!(report.count, 2);
    assert_eq!(
        report.timeline,
        vec![
            Event { name: Some(1), start_time: 0, finish_time: 200 },
            Event { name: None, start_time: 200, finish_time: 500 },
            Event { name: Some(2), start_time: 500, finish_time: 600 },
        ]
    );
}

#[test]
fn sjf_picks_shortest_among_arrived() {
    let mut s = NonpreemptiveScheduler::new(vec![p(1, 0, 800), p(2, 100, 300), p(3, 200, 100)]);
    s.sjf().unwrap();
    let fins = &s.finished_processes;
    // P1 runs first (alone at time 0); then the shorter P3 overtakes P2.
    assert_eq!(fins[0].pid, 1);
    assert_eq!(fins[1].pid, 3);
    assert_eq!(fins[2].pid, 2);
    assert_eq!(fins[0].finish_time, 800);
    assert_eq!(fins[1].finish_time, 900);
    assert_eq!(fins[2].finish_time, 1200);
}

#[test]
fn priority_equal_keys_fall_back_to_arrival_then_pid() {
    // All priorities equal: the tie-break is arrival order, then pid order,
    // not burst length.
    let mut s = NonpreemptiveScheduler::new(vec![
        pp(5, 0, 300, 2),
        pp(3, 0, 300, 2),
        pp(4, 0, 100, 2),
    ]);
    s.ps().unwrap();
    let fins = &s.finished_processes;
    assert_eq!(fins[0].pid, 3);
    assert_eq!(fins[1].pid, 4);
    assert_eq!(fins[2].pid, 5);
    assert_eq!(fins[0].finish_time, 300);
    assert_eq!(fins[1].finish_time, 400);
    assert_eq!(fins[2].finish_time, 700);
}

#[test]
fn priority_prefers_smaller_value() {
    let mut s = NonpreemptiveScheduler::new(vec![
        pp(1, 0, 400, 3),
        pp(2, 100, 400, 2),
        pp(3, 200, 400, 1),
    ]);
    s.ps().unwrap();
    let fins = &s.finished_processes;
    // P1 is alone at time 0; afterwards the smallest priority value wins.
    assert_eq!(fins[0].pid, 1);
    assert_eq!(fins[1].pid, 3);
    assert_eq!(fins[2].pid, 2);
}

#[test]
fn rr_quantum_two() {
    let mut s = PreemptiveScheduler::new(vec![p(1, 0, 500), p(2, 100, 300)]);
    s.rr(200).unwrap();
    assert_eq!(
        s.event_list,
        vec![
            Event { name: Some(1), start_time: 0, finish_time: 200 },
            Event { name: Some(2), start_time: 200, finish_time: 400 },
            Event { name: Some(1), start_time: 400, finish_time: 600 },
            Event { name: Some(2), start_time: 600, finish_time: 700 },
            Event { name: Some(1), start_time: 700, finish_time: 800 },
        ]
    );
    let fins = &s.finished_processes;
    assert_eq!(fins.len(), 2);
    assert_eq!(fins[0].pid, 2);
    assert_eq!(fins[0].finish_time, 700);
    assert_eq!(fins[0].waiting_time, 300);
    assert_eq!(fins[1].pid, 1);
    assert_eq!(fins[1].finish_time, 800);
    assert_eq!(fins[1].waiting_time, 300);
}

#[test]
fn rr_segment_durations_sum_to_burst() {
    let mut s = PreemptiveScheduler::new(vec![p(1, 0, 500), p(2, 100, 300), p(3, 150, 250)]);
    s.rr(200).unwrap();
    for proc in &s.finished_processes {
        let total: u64 = s
            .event_list
            .iter()
            .filter(|e| e.name == Some(proc.pid))
            .map(|e| e.finish_time - e.start_time)
            .sum();
        assert_eq!(total, proc.burst_time);
    }
    // Segments never overlap: each one ends before the next begins.
    for w in s.event_list.windows(2) {
        assert!(w[0].finish_time <= w[1].start_time);
    }
}

#[test]
fn srtf_preempts_on_shorter_remaining() {
    let mut s = PreemptiveScheduler::new(vec![p(1, 0, 800), p(2, 100, 400), p(3, 200, 100)]);
    s.srtf().unwrap();
    assert_eq!(
        s.event_list,
        vec![
            Event { name: Some(1), start_time: 0, finish_time: 100 },
            Event { name: Some(2), start_time: 100, finish_time: 200 },
            Event { name: Some(3), start_time: 200, finish_time: 300 },
            Event { name: Some(2), start_time: 300, finish_time: 600 },
            Event { name: Some(1), start_time: 600, finish_time: 1300 },
        ]
    );
    let fins = &s.finished_processes;
    assert_eq!(fins[0].pid, 3);
    assert_eq!(fins[0].finish_time, 300);
    assert_eq!(fins[0].waiting_time, 0);
    assert_eq!(fins[1].pid, 2);
    assert_eq!(fins[1].finish_time, 600);
    assert_eq!(fins[1].waiting_time, 100);
    assert_eq!(fins[2].pid, 1);
    assert_eq!(fins[2].finish_time, 1300);
    assert_eq!(fins[2].waiting_time, 500);
}

#[test]
fn srtf_uninterrupted_run_is_one_segment() {
    // P2 arrives while P1 runs but does not undercut it, so P1's segment
    // runs through the arrival event unbroken.
    let mut s = PreemptiveScheduler::new(vec![p(1, 0, 500), p(2, 100, 600)]);
    s.srtf().unwrap();
    assert_eq!(
        s.event_list,
        vec![
            Event { name: Some(1), start_time: 0, finish_time: 500 },
            Event { name: Some(2), start_time: 500, finish_time: 1100 },
        ]
    );
}

#[test]
fn preemptive_priority_preempts_on_smaller_value() {
    let mut s = PreemptiveScheduler::new(vec![pp(1, 0, 500, 5), pp(2, 100, 300, 1)]);
    s.ps().unwrap();
    assert_eq!(
        s.event_list,
        vec![
            Event { name: Some(1), start_time: 0, finish_time: 100 },
            Event { name: Some(2), start_time: 100, finish_time: 400 },
            Event { name: Some(1), start_time: 400, finish_time: 800 },
        ]
    );
    assert_eq!(s.finished_processes[0].pid, 2);
    assert_eq!(s.finished_processes[0].finish_time, 400);
    assert_eq!(s.finished_processes[1].pid, 1);
    assert_eq!(s.finished_processes[1].finish_time, 800);
}

#[test]
fn metric_identities_hold_for_every_policy() {
    let workload = vec![p(1, 0, 500), p(2, 100, 300), p(3, 200, 800)];
    let runs: Vec<Vec<Process>> = vec![
        {
            let mut s = NonpreemptiveScheduler::new(workload.clone());
            s.fcfs().unwrap();
            s.finished_processes
        },
        {
            let mut s = NonpreemptiveScheduler::new(workload.clone());
            s.sjf().unwrap();
            s.finished_processes
        },
        {
            let mut s = NonpreemptiveScheduler::new(workload.clone());
            s.ps().unwrap();
            s.finished_processes
        },
        {
            let mut s = PreemptiveScheduler::new(workload.clone());
            s.rr(200).unwrap();
            s.finished_processes
        },
        {
            let mut s = PreemptiveScheduler::new(workload.clone());
            s.srtf().unwrap();
            s.finished_processes
        },
    ];
    for fins in runs {
        assert_eq!(fins.len(), 3);
        for f in fins {
            assert_eq!(f.turn_around_time, f.finish_time - f.arrival_time);
            assert_eq!(f.waiting_time, f.turn_around_time - f.burst_time);
        }
    }
}

#[test]
fn identical_input_gives_identical_output() {
    let workload = vec![p(2, 100, 300), p(1, 0, 500), p(3, 100, 300)];
    let mut a = PreemptiveScheduler::new(workload.clone());
    let mut b = PreemptiveScheduler::new(workload.clone());
    a.rr(200).unwrap();
    b.rr(200).unwrap();
    assert_eq!(a.event_list, b.event_list);
    assert_eq!(a.finished_processes, b.finished_processes);
    let mut c = NonpreemptiveScheduler::new(workload.clone());
    let mut d = NonpreemptiveScheduler::new(workload);
    c.sjf().unwrap();
    d.sjf().unwrap();
    assert_eq!(c.finished_processes, d.finished_processes);
}

#[test]
fn zero_burst_is_rejected() {
    assert_eq!(Process::new(1, 0, 0), Err(SchedulerError::InvalidProcessParameters));
    assert_eq!(
        Process::new_with_priority(1, 5, 0, 2),
        Err(SchedulerError::InvalidProcessParameters)
    );
    assert!(Process::new(1, 0, 1).is_ok());
}

#[test]
fn zero_quantum_is_rejected() {
    let mut s = PreemptiveScheduler::new(vec![p(1, 0, 100)]);
    assert_eq!(s.rr(0), Err(SchedulerError::InvalidQuantum));
}

#[test]
fn empty_workload_is_rejected() {
    let mut n = NonpreemptiveScheduler::new(Vec::new());
    assert_eq!(n.fcfs(), Err(SchedulerError::EmptyWorkload));
    let mut n2 = NonpreemptiveScheduler::new(Vec::new());
    assert_eq!(n2.sjf(), Err(SchedulerError::EmptyWorkload));
    let mut n3 = NonpreemptiveScheduler::new(Vec::new());
    assert_eq!(n3.ps(), Err(SchedulerError::EmptyWorkload));
    let mut q = PreemptiveScheduler::new(Vec::new());
    assert_eq!(q.rr(100), Err(SchedulerError::EmptyWorkload));
    let mut q2 = PreemptiveScheduler::new(Vec::new());
    assert_eq!(q2.srtf(), Err(SchedulerError::EmptyWorkload));
    let mut q3 = PreemptiveScheduler::new(Vec::new());
    assert_eq!(q3.ps(), Err(SchedulerError::EmptyWorkload));
}

#[test]
fn preemptive_report_totals() {
    let mut s = PreemptiveScheduler::new(vec![p(1, 0, 500), p(2, 100, 300)]);
    s.rr(200).unwrap();
    let report = s.print();
    assert_eq!(report.count, 2);
    assert_eq!(report.total_waiting_time, 600);
    assert_eq!(report.total_turn_around_time, 1400);
    assert_eq!(report.rows, s.finished_processes);
    // No idle gap in this run, so the timeline is the segment list itself.
    assert_eq!(report.timeline, s.event_list);
}
