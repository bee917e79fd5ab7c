//! The preemptive engines: round-robin time sharing and the event-driven
//! shortest-remaining-time-first and preemptive-priority disciplines.  A
//! process may be interrupted and resumed, so a run yields a sequence of
//! execution segments besides the finished records.

use vstd::prelude::*;

use crate::model::{
    burst_sum, can_admit, first_unarrived, init_preempt,
    init_preempt_seq, key_at, key_exec, lemma_burst_suffix_le, lemma_first_unarrived,
    lemma_pe_admits, lemma_pe_dispatch, lemma_qsum_rem_nonneg,
    lemma_qsum_rem_remove, lemma_qsum_rem_split, lemma_rem_suffix_as_burst,
    lemma_rem_suffix_split, lemma_rr_admits, lemma_rr_dispatch, lex4_le, lex4_lt_exec,
    merge_adjacent, ok_workload, pe_run, pe_wf, qsum_rem, range_seq, rem_suffix, rr_finish,
    rr_run, rr_touch, rr_wf, sorted_by_arr_pid, Policy,
};
use crate::process::{Event, Process, SchedulerError};
use crate::sorting::{lemma_ok_workload_sort, lemma_sort_spec_props, sort_processes, sort_spec};

verus! {

/// A preemptive scheduling run: the workload, the execution segments in
/// order, and the finished records in completion order.
pub struct PreemptiveScheduler {
    pub processes: Vec<Process>,
    pub event_list: Vec<Event>,
    pub finished_processes: Vec<Process>,
}

/// The bookkeeping a preemptive engine maintains for every admitted,
/// unfinished process: its last stop lies between arrival and now, it has
/// consumed part of its burst, and its accrued waiting time is exactly the
/// time it has spent present but neither running nor finished.
pub open spec fn rr_tracked(p: Process, t: int) -> bool {
    &&& p.arrival_time <= p.section_finish_time <= t
    &&& p.remaining_time <= p.burst_time
    &&& p.waiting_time == p.section_finish_time - p.arrival_time - (p.burst_time
        - p.remaining_time)
}

// Common methods
impl PreemptiveScheduler {
    pub fn new(processes: Vec<Process>) -> (s: PreemptiveScheduler)
        ensures
            s.processes == processes,
            s.event_list@ == Seq::<Event>::empty(),
            s.finished_processes@ == Seq::<Process>::empty(),
    {
        PreemptiveScheduler { processes, finished_processes: Vec::new(), event_list: Vec::new() }
    }

    /// Puts the workload into the canonical arrival order (ties by pid).
    pub fn sort_by_arrival_time(&mut self)
        ensures
            final(self).processes@ == sort_spec(old(self).processes@),
            final(self).finished_processes == old(self).finished_processes,
            final(self).event_list == old(self).event_list,
    {
        sort_processes(&mut self.processes);
    }

    /// The metrics of running `process` to completion in one slice starting
    /// at `current_time`: start, finish, waiting and turnaround time.
    pub fn calculate_time(&self, current_time: u64, process: &Process) -> (r: (u64, u64, u64, u64))
        requires
            process.arrival_time <= current_time,
            current_time + process.burst_time <= u64::MAX,
        ensures
            r.0 == current_time,
            r.1 == current_time + process.burst_time,
            r.2 == current_time - process.arrival_time,
            r.3 == current_time + process.burst_time - process.arrival_time,
    {
        let start_time: u64 = current_time;
        let finish_time: u64 = start_time + process.burst_time;
        let turn_around_time: u64 = finish_time - process.arrival_time;
        let waiting_time: u64 = finish_time - process.arrival_time - process.burst_time;
        (start_time, finish_time, waiting_time, turn_around_time)
    }

    /// Writes the computed metrics into a finished process record.
    pub fn update_process(
        &mut self,
        process: &mut Process,
        start_time: u64,
        finish_time: u64,
        waiting_time: u64,
        turn_around_time: u64,
    )
        ensures
            *final(self) == *old(self),
            *final(process) == (Process {
                start_time,
                finish_time,
                waiting_time,
                turn_around_time,
                remaining_time: 0,
                section_finish_time: finish_time,
                ..*old(process)
            }),
    {
        process.start_time = start_time;
        process.finish_time = finish_time;
        process.waiting_time = waiting_time;
        process.turn_around_time = turn_around_time;
        process.remaining_time = 0;
        process.section_finish_time = finish_time;
    }
}

// Round Robin
impl PreemptiveScheduler {
    /// Round-robin time sharing with the given quantum: the queue head runs
    /// for at most one quantum, processes arriving during the slice join the
    /// queue ahead of the requeued head, and an idle engine jumps to the
    /// next arrival.
    #[verifier::rlimit(100)]
    pub fn rr(&mut self, time_quantum: u64) -> (r: Result<(), SchedulerError>)
        requires
            ok_workload(old(self).processes@),
        ensures
            time_quantum == 0 ==> r == Err::<(), SchedulerError>(SchedulerError::InvalidQuantum)
                && *final(self) == *old(self),
            time_quantum >= 1 && old(self).processes@.len() == 0 ==> r == Err::<(
            ),
            SchedulerError,
            >(SchedulerError::EmptyWorkload) && *final(self) == *old(self),
            time_quantum >= 1 && old(self).processes@.len() > 0 ==> r == Ok::<(
            ),
            SchedulerError,
            >(()) && final(self).processes@ == Seq::<Process>::empty() && final(self).event_list@
                == old(self).event_list@ + rr_run(
                init_preempt_seq(sort_spec(old(self).processes@)),
                Seq::empty(),
                0,
                0,
                time_quantum as int,
            ).0 && final(self).finished_processes@ == old(self).finished_processes@ + rr_run(
                init_preempt_seq(sort_spec(old(self).processes@)),
                Seq::empty(),
                0,
                0,
                time_quantum as int,
            ).1,
    {
        if time_quantum == 0 {
            return Err(SchedulerError::InvalidQuantum);
        }
        if self.processes.len() == 0 {
            return Err(SchedulerError::EmptyWorkload);
        }
        let ghost orig: Seq<Process> = self.processes@;
        let ghost ev0: Seq<Event> = self.event_list@;
        let ghost fin0: Seq<Process> = self.finished_processes@;
        self.sort_by_arrival_time();
        let ghost ss: Seq<Process> = self.processes@;
        proof {
            lemma_sort_spec_props(orig);
            lemma_ok_workload_sort(orig);
        }
        let n = self.processes.len();
        // Reset the scheduling state of each working copy: the whole burst
        // remains and the last stop is the arrival itself.
        let mut i: usize = 0;
        while i < n
            invariant
                n == self.processes@.len() == ss.len(),
                i <= n,
                self.event_list@ == ev0,
                self.finished_processes@ == fin0,
                forall|k: int| 0 <= k < i ==> self.processes@[k] == init_preempt(#[trigger] ss[k]),
                forall|k: int| i <= k < n ==> #[trigger] self.processes@[k] == ss[k],
            decreases n - i,
        {
            let p = self.processes[i];
            let p2 = Process {
                remaining_time: p.burst_time,
                waiting_time: 0,
                turn_around_time: 0,
                section_finish_time: p.arrival_time,
                start_time: 0,
                finish_time: 0,
                ..p
            };
            self.processes[i] = p2;
            i += 1;
        }
        let ghost st0: Seq<Process> = init_preempt_seq(ss);
        let quantum = time_quantum;
        let mut qv: Vec<usize> = Vec::new();
        let mut idx: usize = 0;
        let mut t: u64 = 0;
        let ghost mut q: Seq<int> = Seq::empty();
        let ghost mut st: Seq<Process> = st0;
        let ghost target: (Seq<Event>, Seq<Process>) = rr_run(
            st0,
            Seq::empty(),
            0,
            0,
            quantum as int,
        );
        proof {
            assert(self.processes@ =~= st0);
            assert(qsum_rem(st, q) == 0);
            lemma_rem_suffix_as_burst(st0, ss, 0);
            lemma_burst_suffix_le(ss, 0);
            assert(ss.subrange(0, ss.len() as int) =~= ss);
            assert(ss[0].arrival_time + burst_sum(ss) <= u64::MAX);
        }
        while idx < n || qv.len() > 0
            invariant
                self.processes@ == st,
                n == st.len() == ss.len() == st0.len(),
                sorted_by_arr_pid(ss),
                ok_workload(ss),
                st0 == init_preempt_seq(ss),
                quantum >= 1,
                idx <= n,
                qv@.len() == q.len(),
                forall|k: int| 0 <= k < q.len() ==> qv@[k] as int == #[trigger] q[k],
                rr_wf(st, q, idx as int),
                forall|k: int| 0 <= k < q.len() ==> rr_tracked(st[#[trigger] q[k]], t as int),
                forall|k: int| idx <= k < n ==> #[trigger] st[k] == st0[k],
                t + qsum_rem(st, q) + rem_suffix(st, idx as int) <= u64::MAX,
                self.event_list@ + rr_run(st, q, idx as int, t as int, quantum as int).0 == ev0
                    + target.0,
                self.finished_processes@ + rr_run(st, q, idx as int, t as int, quantum as int).1
                    == fin0 + target.1,
            decreases qsum_rem(st, q) + rem_suffix(st, idx as int), n - idx, qv.len(),
        {
            let ghost idx_a: int = idx as int;
            let ghost q_in: Seq<int> = q;
            admit_vec(&self.processes, &mut qv, &mut idx, t, Ghost(q));
            proof {
                lemma_rr_admits(st, q, idx_a, t as int, quantum as int, idx as int);
                lemma_qsum_rem_split(st, q, range_seq(idx_a, idx as int));
                lemma_rem_suffix_split(st, idx_a, idx as int);
                q = q + range_seq(idx_a, idx as int);
                assert forall|k: int| 0 <= k < q.len() implies rr_tracked(
                    st[#[trigger] q[k]],
                    t as int,
                ) by {
                    if k >= q_in.len() {
                        let v = q[k];
                        assert(v == idx_a + (k - q_in.len()));
                        assert(st[v] == st0[v]);
                        assert(st0[v] == init_preempt(ss[v]));
                        assert(st[v].arrival_time <= t);
                    }
                }
            }
            if qv.len() == 0 {
                // Idle: jump straight to the next arrival.
                proof {
                    reveal(rr_run);
                    assert(q.len() == 0);
                    assert(qsum_rem(st, q) == 0);
                    assert(rr_run(st, q, idx as int, t as int, quantum as int) == rr_run(
                        st,
                        q,
                        idx as int,
                        st[idx as int].arrival_time as int,
                        quantum as int,
                    ));
                    lemma_rem_suffix_as_burst(st, ss, idx as int);
                    lemma_burst_suffix_le(ss, idx as int);
                }
                let ghost idx_b: int = idx as int;
                t = self.processes[idx].arrival_time;
                admit_vec(&self.processes, &mut qv, &mut idx, t, Ghost(q));
                proof {
                    lemma_rr_admits(st, q, idx_b, t as int, quantum as int, idx as int);
                    lemma_qsum_rem_split(st, q, range_seq(idx_b, idx as int));
                    lemma_rem_suffix_split(st, idx_b, idx as int);
                    q = q + range_seq(idx_b, idx as int);
                    if idx as int == idx_b {
                        assert(can_admit(st, idx_b, t as int));
                        assert(false);
                    }
                    assert forall|k: int| 0 <= k < q.len() implies rr_tracked(
                        st[#[trigger] q[k]],
                        t as int,
                    ) by {
                        let v = q[k];
                        assert(v == idx_b + k);
                        assert(st[v] == st0[v]);
                        assert(st0[v] == init_preempt(ss[v]));
                        assert(st[v].arrival_time <= t);
                    }
                }
            }
            // One slice for the queue head.
            let ghost q_d: Seq<int> = q;
            let ghost st_d: Seq<Process> = st;
            let ghost evp: Seq<Event> = self.event_list@;
            let ghost fnp: Seq<Process> = self.finished_processes@;
            let i = qv.remove(0);
            proof {
                assert(i as int == q[0]);
                assert(0 <= q[0] < idx as int);
                lemma_qsum_rem_nonneg(st, q.drop_first());
                lemma_qsum_rem_nonneg(st, range_seq(idx as int, n as int));
                assert(qsum_rem(st, q) == st[q[0]].remaining_time + qsum_rem(st, q.drop_first()))
                    by {
                    crate::model::lemma_qsum_rem_first(st, q);
                }
            }
            let p = self.processes[i];
            let run = if p.remaining_time <= quantum {
                p.remaining_time
            } else {
                quantum
            };
            let t2 = t + run;
            let ghost j: int = first_unarrived(st, idx as int, t2 as int);
            proof {
                lemma_rr_dispatch(
                    st,
                    q,
                    idx as int,
                    t as int,
                    quantum as int,
                    run as int,
                    t2 as int,
                    j,
                );
            }
            self.event_list.push(Event { name: Some(p.pid), start_time: t, finish_time: t2 });
            let finished = p.remaining_time <= quantum;
            let started = p.section_finish_time == p.arrival_time;
            if finished {
                let fp = Process {
                    remaining_time: 0,
                    waiting_time: t2 - p.arrival_time - p.burst_time,
                    turn_around_time: t2 - p.arrival_time,
                    section_finish_time: t2,
                    start_time: if started {
                        t
                    } else {
                        p.start_time
                    },
                    finish_time: t2,
                    ..p
                };
                proof {
                    assert(fp == rr_finish(st[q[0]], t as int, t2 as int));
                }
                self.processes[i] = fp;
                self.finished_processes.push(fp);
                proof {
                    st = st.update(i as int, fp);
                }
            } else {
                let p2 = Process {
                    remaining_time: p.remaining_time - run,
                    waiting_time: p.waiting_time + (t - p.section_finish_time),
                    section_finish_time: t2,
                    start_time: if started {
                        t
                    } else {
                        p.start_time
                    },
                    ..p
                };
                proof {
                    assert(p2 == rr_touch(st[q[0]], t as int, t2 as int, run as int));
                }
                self.processes[i] = p2;
                proof {
                    st = st.update(i as int, p2);
                }
            }
            let ghost qh: int = q[0];
            proof {
                q = q.drop_first();
            }
            let ghost idx_c: int = idx as int;
            admit_vec(&self.processes, &mut qv, &mut idx, t2, Ghost(q));
            proof {
                q = q + range_seq(idx_c, idx as int);
                lemma_first_unarrived(st_d, idx_c, t2 as int);
                // The admission loop stops exactly at the machine's boundary.
                assert(forall|k: int|
                    idx_c <= k < n ==> #[trigger] st[k].arrival_time == st_d[k].arrival_time);
                if (idx as int) < j {
                    assert(st_d[idx as int].arrival_time <= t2);
                    assert(!can_admit(st, idx as int, t2 as int));
                    assert(false);
                }
                if j < (idx as int) {
                    assert(st_d[j].arrival_time > t2);
                    assert(st[j].arrival_time <= t2);
                    assert(false);
                }
            }
            if !finished {
                qv.push(i);
                proof {
                    assert(q.push(qh) =~= q + seq![qh]);
                    q = q.push(qh);
                }
            }
            proof {
                assert forall|k: int| 0 <= k < q.len() implies rr_tracked(
                    st[#[trigger] q[k]],
                    t2 as int,
                ) by {
                    let v = q[k];
                    if k < q_d.len() - 1 {
                        assert(v == q_d[k + 1]);
                        assert(v != q_d[0]);
                        assert(st[v] == st_d[v]);
                        assert(rr_tracked(st_d[v], t as int));
                    } else if k < q_d.len() - 1 + (idx as int - idx_c) {
                        assert(v == idx_c + (k - (q_d.len() - 1)));
                        assert(st[v] == st0[v]);
                        assert(st0[v] == init_preempt(ss[v]));
                        assert(st[v].arrival_time <= t2);
                    } else {
                        assert(v == qh);
                        assert(st[v] == rr_touch(st_d[qh], t as int, t2 as int, run as int));
                    }
                }
                assert(evp.push(
                    Event { name: Some(st_d[qh].pid), start_time: t, finish_time: t2 },
                ) + rr_run(st, q, idx as int, t2 as int, quantum as int).0 =~= evp + (seq![
                    Event { name: Some(st_d[qh].pid), start_time: t, finish_time: t2 },
                ] + rr_run(st, q, idx as int, t2 as int, quantum as int).0));
                if finished {
                    let fp = rr_finish(st_d[qh], t as int, t2 as int);
                    assert(fnp.push(fp) + rr_run(st, q, idx as int, t2 as int, quantum as int).1
                        =~= fnp + (seq![fp] + rr_run(st, q, idx as int, t2 as int, quantum as int).1));
                }
            }
            t = t2;
        }
        self.processes.clear();
        proof {
            reveal(rr_run);
            assert(q.len() == 0);
            assert(rr_run(st, q, idx as int, t as int, quantum as int).0 =~= Seq::<Event>::empty());
            assert(rr_run(st, q, idx as int, t as int, quantum as int).1 =~= Seq::<
                Process,
            >::empty());
            assert(self.event_list@ =~= ev0 + target.0);
            assert(self.finished_processes@ =~= fin0 + target.1);
        }
        Ok(())
    }
}

// Event-driven preemptive disciplines
impl PreemptiveScheduler {
    /// Shortest remaining time first: at every arrival or completion event
    /// the ready process with the least remaining time runs, preempting the
    /// current one if a newcomer undercuts it (ties by arrival, then pid).
    pub fn srtf(&mut self) -> (r: Result<(), SchedulerError>)
        requires
            ok_workload(old(self).processes@),
        ensures
            old(self).processes@.len() == 0 ==> r == Err::<(), SchedulerError>(
                SchedulerError::EmptyWorkload,
            ) && *final(self) == *old(self),
            old(self).processes@.len() > 0 ==> r == Ok::<(), SchedulerError>(())
                && final(self).processes@ == Seq::<Process>::empty() && final(self).event_list@
                == old(self).event_list@ + merge_adjacent(
                pe_run(
                    Policy::Srtf,
                    init_preempt_seq(sort_spec(old(self).processes@)),
                    Seq::empty(),
                    0,
                    0,
                ).0,
            ) && final(self).finished_processes@ == old(self).finished_processes@ + pe_run(
                Policy::Srtf,
                init_preempt_seq(sort_spec(old(self).processes@)),
                Seq::empty(),
                0,
                0,
            ).1,
    {
        self.run_preemptive(Policy::Srtf)
    }

    /// Preemptive priority scheduling: at every arrival or completion event
    /// the ready process with the smallest priority value runs, preempting
    /// the current one if a newcomer has a smaller one (ties by arrival,
    /// then pid).
    pub fn ps(&mut self) -> (r: Result<(), SchedulerError>)
        requires
            ok_workload(old(self).processes@),
        ensures
            old(self).processes@.len() == 0 ==> r == Err::<(), SchedulerError>(
                SchedulerError::EmptyWorkload,
            ) && *final(self) == *old(self),
            old(self).processes@.len() > 0 ==> r == Ok::<(), SchedulerError>(())
                && final(self).processes@ == Seq::<Process>::empty() && final(self).event_list@
                == old(self).event_list@ + merge_adjacent(
                pe_run(
                    Policy::PreemptivePriority,
                    init_preempt_seq(sort_spec(old(self).processes@)),
                    Seq::empty(),
                    0,
                    0,
                ).0,
            ) && final(self).finished_processes@ == old(self).finished_processes@ + pe_run(
                Policy::PreemptivePriority,
                init_preempt_seq(sort_spec(old(self).processes@)),
                Seq::empty(),
                0,
                0,
            ).1,
    {
        self.run_preemptive(Policy::PreemptivePriority)
    }

    /// The shared event-driven loop: admit the arrived processes, jump over
    /// idle gaps, run the smallest key until the next event, and join the
    /// raw segments of an uninterrupted run as they are emitted.
    #[verifier::rlimit(100)]
    fn run_preemptive(&mut self, pol: Policy) -> (r: Result<(), SchedulerError>)
        requires
            ok_workload(old(self).processes@),
        ensures
            old(self).processes@.len() == 0 ==> r == Err::<(), SchedulerError>(
                SchedulerError::EmptyWorkload,
            ) && *final(self) == *old(self),
            old(self).processes@.len() > 0 ==> r == Ok::<(), SchedulerError>(())
                && final(self).processes@ == Seq::<Process>::empty() && final(self).event_list@
                == old(self).event_list@ + merge_adjacent(
                pe_run(
                    pol,
                    init_preempt_seq(sort_spec(old(self).processes@)),
                    Seq::empty(),
                    0,
                    0,
                ).0,
            ) && final(self).finished_processes@ == old(self).finished_processes@ + pe_run(
                pol,
                init_preempt_seq(sort_spec(old(self).processes@)),
                Seq::empty(),
                0,
                0,
            ).1,
    {
        if self.processes.len() == 0 {
            return Err(SchedulerError::EmptyWorkload);
        }
        let ghost orig: Seq<Process> = self.processes@;
        let ghost ev0: Seq<Event> = self.event_list@;
        let ghost fin0: Seq<Process> = self.finished_processes@;
        let base = self.event_list.len();
        self.sort_by_arrival_time();
        let ghost ss: Seq<Process> = self.processes@;
        proof {
            lemma_sort_spec_props(orig);
            lemma_ok_workload_sort(orig);
        }
        let n = self.processes.len();
        let mut i0: usize = 0;
        while i0 < n
            invariant
                n == self.processes@.len() == ss.len(),
                i0 <= n,
                self.event_list@ == ev0,
                self.finished_processes@ == fin0,
                forall|k: int| 0 <= k < i0 ==> self.processes@[k] == init_preempt(#[trigger] ss[k]),
                forall|k: int| i0 <= k < n ==> #[trigger] self.processes@[k] == ss[k],
            decreases n - i0,
        {
            let p = self.processes[i0];
            let p2 = Process {
                remaining_time: p.burst_time,
                waiting_time: 0,
                turn_around_time: 0,
                section_finish_time: p.arrival_time,
                start_time: 0,
                finish_time: 0,
                ..p
            };
            self.processes[i0] = p2;
            i0 += 1;
        }
        let ghost st0: Seq<Process> = init_preempt_seq(ss);
        let mut qv: Vec<usize> = Vec::new();
        let mut idx: usize = 0;
        let mut t: u64 = 0;
        let ghost mut q: Seq<int> = Seq::empty();
        let ghost mut st: Seq<Process> = st0;
        let ghost mut raw: Seq<Event> = Seq::empty();
        let ghost ptarget: (Seq<Event>, Seq<Process>) = pe_run(pol, st0, Seq::empty(), 0, 0);
        proof {
            assert(self.processes@ =~= st0);
            assert(qsum_rem(st, q) == 0);
            lemma_rem_suffix_as_burst(st0, ss, 0);
            lemma_burst_suffix_le(ss, 0);
            assert(ss.subrange(0, ss.len() as int) =~= ss);
            assert(ss[0].arrival_time + burst_sum(ss) <= u64::MAX);
            assert(merge_adjacent(raw) =~= Seq::<Event>::empty());
            assert(self.event_list@ =~= ev0 + merge_adjacent(raw));
        }
        while idx < n || qv.len() > 0
            invariant
                self.processes@ == st,
                n == st.len() == ss.len() == st0.len(),
                sorted_by_arr_pid(ss),
                ok_workload(ss),
                st0 == init_preempt_seq(ss),
                idx <= n,
                qv@.len() == q.len(),
                forall|k: int| 0 <= k < q.len() ==> qv@[k] as int == #[trigger] q[k],
                pe_wf(st, q, idx as int),
                forall|k: int| 0 <= k < q.len() ==> rr_tracked(st[#[trigger] q[k]], t as int),
                forall|k: int| idx <= k < n ==> #[trigger] st[k] == st0[k],
                t + qsum_rem(st, q) + rem_suffix(st, idx as int) <= u64::MAX,
                base as int == ev0.len(),
                self.event_list@ == ev0 + merge_adjacent(raw),
                raw + pe_run(pol, st, q, idx as int, t as int).0 == ptarget.0,
                self.finished_processes@ + pe_run(pol, st, q, idx as int, t as int).1 == fin0
                    + ptarget.1,
            decreases qsum_rem(st, q) + rem_suffix(st, idx as int), n - idx, qv.len(),
        {
            let qg = pe_admit_ready(
                &self.processes,
                &mut qv,
                &mut idx,
                &mut t,
                pol,
                Ghost(st),
                Ghost(st0),
                Ghost(ss),
                Ghost(q),
            );
            proof {
                q = qg@;
            }
            let res = pe_step(
                &mut self.processes,
                &mut self.event_list,
                &mut self.finished_processes,
                &mut qv,
                &mut idx,
                t,
                base,
                pol,
                Ghost(st),
                Ghost(st0),
                Ghost(ss),
                Ghost(q),
                Ghost(ev0),
                Ghost(raw),
            );
            proof {
                q = res.1@.0;
                st = res.1@.1;
                raw = res.1@.2;
            }
            t = res.0;
        }
        self.processes.clear();
        proof {
            reveal(pe_run);
            assert(q.len() == 0);
            assert(pe_run(pol, st, q, idx as int, t as int).0 =~= Seq::<Event>::empty());
            assert(pe_run(pol, st, q, idx as int, t as int).1 =~= Seq::<Process>::empty());
            assert(raw =~= ptarget.0);
            assert(self.finished_processes@ =~= fin0 + ptarget.1);
        }
        Ok(())
    }
}

/// Makes the event-driven ready set non-empty: admits every arrived
/// process, and if none is ready jumps the clock to the next arrival and
/// admits again.  The run's value and the engine's bookkeeping carry over.
#[verifier::rlimit(60)]
fn pe_admit_ready(
    processes: &Vec<Process>,
    qv: &mut Vec<usize>,
    idx: &mut usize,
    t: &mut u64,
    pol: Policy,
    Ghost(st): Ghost<Seq<Process>>,
    Ghost(st0): Ghost<Seq<Process>>,
    Ghost(ss): Ghost<Seq<Process>>,
    Ghost(q0): Ghost<Seq<int>>,
) -> (qg: Ghost<Seq<int>>)
    requires
        processes@ == st,
        st.len() == ss.len() == st0.len(),
        ok_workload(ss),
        st0 == init_preempt_seq(ss),
        *old(idx) <= st.len(),
        *old(idx) < st.len() || q0.len() > 0,
        old(qv)@.len() == q0.len(),
        forall|k: int| 0 <= k < q0.len() ==> old(qv)@[k] as int == #[trigger] q0[k],
        pe_wf(st, q0, *old(idx) as int),
        forall|k: int| 0 <= k < q0.len() ==> rr_tracked(st[#[trigger] q0[k]], *old(t) as int),
        forall|k: int| *old(idx) <= k < st.len() ==> #[trigger] st[k] == st0[k],
        *old(t) + qsum_rem(st, q0) + rem_suffix(st, *old(idx) as int) <= u64::MAX,
    ensures
        *old(idx) <= *final(idx) <= st.len(),
        *old(t) <= *final(t),
        qg@.len() >= 1,
        qg@.len() == q0.len() + (*final(idx) - *old(idx)),
        qsum_rem(st, qg@) + rem_suffix(st, *final(idx) as int) == qsum_rem(st, q0) + rem_suffix(
            st,
            *old(idx) as int,
        ),
        final(qv)@.len() == qg@.len(),
        forall|k: int| 0 <= k < qg@.len() ==> final(qv)@[k] as int == #[trigger] qg@[k],
        pe_wf(st, qg@, *final(idx) as int),
        forall|k: int| 0 <= k < qg@.len() ==> rr_tracked(st[#[trigger] qg@[k]], *final(t) as int),
        forall|k: int| *final(idx) <= k < st.len() ==> #[trigger] st[k] == st0[k],
        !can_admit(st, *final(idx) as int, *final(t) as int),
        *final(t) + qsum_rem(st, qg@) + rem_suffix(st, *final(idx) as int) <= u64::MAX,
        pe_run(pol, st, qg@, *final(idx) as int, *final(t) as int) == pe_run(
            pol,
            st,
            q0,
            *old(idx) as int,
            *old(t) as int,
        ),
{
    let ghost idx_a: int = *idx as int;
    let ghost q_in: Seq<int> = q0;
    let ghost mut q: Seq<int> = q0;
    admit_vec(processes, qv, idx, *t, Ghost(q0));
    proof {
        lemma_pe_admits(pol, st, q0, idx_a, *t as int, *idx as int);
        lemma_qsum_rem_split(st, q0, range_seq(idx_a, *idx as int));
        lemma_rem_suffix_split(st, idx_a, *idx as int);
        q = q0 + range_seq(idx_a, *idx as int);
        assert forall|k: int| 0 <= k < q.len() implies rr_tracked(st[#[trigger] q[k]], *t as int) by {
            if k >= q_in.len() {
                let v = q[k];
                assert(v == idx_a + (k - q_in.len()));
                assert(st[v] == st0[v]);
                assert(st0[v] == init_preempt(ss[v]));
                assert(st[v].arrival_time <= *t);
            }
        }
    }
    if qv.len() == 0 {
        // Idle: jump straight to the next arrival.
        proof {
            reveal(pe_run);
            assert(q.len() == 0);
            assert(qsum_rem(st, q) == 0);
            assert(pe_run(pol, st, q, *idx as int, *t as int) == pe_run(
                pol,
                st,
                q,
                *idx as int,
                st[*idx as int].arrival_time as int,
            ));
            lemma_rem_suffix_as_burst(st, ss, *idx as int);
            lemma_burst_suffix_le(ss, *idx as int);
            assert(st[*idx as int].arrival_time == ss[*idx as int].arrival_time);
        }
        let ghost idx_b: int = *idx as int;
        let tj = processes[*idx].arrival_time;
        *t = tj;
        admit_vec(processes, qv, idx, tj, Ghost(q));
        proof {
            lemma_pe_admits(pol, st, q, idx_b, tj as int, *idx as int);
            lemma_qsum_rem_split(st, q, range_seq(idx_b, *idx as int));
            lemma_rem_suffix_split(st, idx_b, *idx as int);
            q = q + range_seq(idx_b, *idx as int);
            if *idx as int == idx_b {
                assert(can_admit(st, idx_b, tj as int));
                assert(false);
            }
            assert forall|k: int| 0 <= k < q.len() implies rr_tracked(
                st[#[trigger] q[k]],
                tj as int,
            ) by {
                let v = q[k];
                assert(v == idx_b + k);
                assert(st[v] == st0[v]);
                assert(st0[v] == init_preempt(ss[v]));
                assert(st[v].arrival_time <= tj);
            }
        }
    }
    Ghost(q)
}

/// One dispatch of the event-driven machine: run the smallest key until it
/// finishes or the next arrival preempts it, emit the segment, update the
/// records, and admit what arrived meanwhile.  Returns the time the slice
/// ended and the new ghost state.
#[verifier::rlimit(100)]
fn pe_step(
    processes: &mut Vec<Process>,
    events: &mut Vec<Event>,
    finished: &mut Vec<Process>,
    qv: &mut Vec<usize>,
    idx: &mut usize,
    t: u64,
    base: usize,
    pol: Policy,
    Ghost(st_in): Ghost<Seq<Process>>,
    Ghost(st0): Ghost<Seq<Process>>,
    Ghost(ss): Ghost<Seq<Process>>,
    Ghost(q0): Ghost<Seq<int>>,
    Ghost(ev0): Ghost<Seq<Event>>,
    Ghost(raw0): Ghost<Seq<Event>>,
) -> (res: (u64, Ghost<(Seq<int>, Seq<Process>, Seq<Event>)>))
    requires
        old(processes)@ == st_in,
        st_in.len() == ss.len() == st0.len(),
        ok_workload(ss),
        st0 == init_preempt_seq(ss),
        *old(idx) <= st_in.len(),
        old(qv)@.len() == q0.len(),
        forall|k: int| 0 <= k < q0.len() ==> old(qv)@[k] as int == #[trigger] q0[k],
        pe_wf(st_in, q0, *old(idx) as int),
        q0.len() >= 1,
        !can_admit(st_in, *old(idx) as int, t as int),
        forall|k: int| 0 <= k < q0.len() ==> rr_tracked(st_in[#[trigger] q0[k]], t as int),
        forall|k: int| *old(idx) <= k < st_in.len() ==> #[trigger] st_in[k] == st0[k],
        t + qsum_rem(st_in, q0) + rem_suffix(st_in, *old(idx) as int) <= u64::MAX,
        base as int == ev0.len(),
        old(events)@ == ev0 + merge_adjacent(raw0),
    ensures
        ({
            let t2 = res.0;
            let q = res.1@.0;
            let st = res.1@.1;
            let raw = res.1@.2;
            &&& final(processes)@ == st
            &&& st.len() == st_in.len()
            &&& *old(idx) <= *final(idx) <= st_in.len()
            &&& t <= t2
            &&& final(qv)@.len() == q.len()
            &&& (forall|k: int| 0 <= k < q.len() ==> final(qv)@[k] as int == #[trigger] q[k])
            &&& pe_wf(st, q, *final(idx) as int)
            &&& (forall|k: int| 0 <= k < q.len() ==> rr_tracked(st[#[trigger] q[k]], t2 as int))
            &&& (forall|k: int| *final(idx) <= k < st.len() ==> #[trigger] st[k] == st0[k])
            &&& t2 + qsum_rem(st, q) + rem_suffix(st, *final(idx) as int) <= u64::MAX
            &&& qsum_rem(st, q) + rem_suffix(st, *final(idx) as int) >= 0
            &&& final(events)@ == ev0 + merge_adjacent(raw)
            &&& raw + pe_run(pol, st, q, *final(idx) as int, t2 as int).0 == raw0 + pe_run(
                pol,
                st_in,
                q0,
                *old(idx) as int,
                t as int,
            ).0
            &&& final(finished)@ + pe_run(pol, st, q, *final(idx) as int, t2 as int).1 == old(
                finished,
            )@ + pe_run(pol, st_in, q0, *old(idx) as int, t as int).1
            &&& (qsum_rem(st, q) + rem_suffix(st, *final(idx) as int) < qsum_rem(st_in, q0)
                + rem_suffix(st_in, *old(idx) as int) || (qsum_rem(st, q) + rem_suffix(
                st,
                *final(idx) as int,
            ) == qsum_rem(st_in, q0) + rem_suffix(st_in, *old(idx) as int) && (*final(idx) > *old(
                idx,
            ) || (*final(idx) == *old(idx) && q.len() < q0.len()))))
        }),
{
    let n = processes.len();
    let ghost mut q: Seq<int> = q0;
    let ghost mut st: Seq<Process> = st_in;
    let ghost mut raw: Seq<Event> = raw0;
            // Select the ready process with the smallest dispatch key.
            let best = select_min(&processes, qv, pol, Ghost(st), Ghost(q), Ghost(*idx as int));
            let ghost m: int = best as int;
            // One slice for the selected process, up to the next arrival.
            let ghost q_d: Seq<int> = q;
            let ghost st_d: Seq<Process> = st;
            let ghost fnp: Seq<Process> = finished@;
            let i = qv[best];
            let p = processes[i];
            proof {
                assert(i as int == q[m]);
                lemma_qsum_rem_remove(st, q, m);
                lemma_qsum_rem_nonneg(st, q.remove(m));
                lemma_qsum_rem_nonneg(st, range_seq(*idx as int, n as int));
            }
            let rem = p.remaining_time;
            let t2 = if *idx < n && processes[*idx].arrival_time < t + rem {
                processes[*idx].arrival_time
            } else {
                t + rem
            };
            let run = t2 - t;
            let ghost j: int = first_unarrived(st, *idx as int, t2 as int);
            proof {
                lemma_pe_dispatch(
                    pol,
                    st,
                    q,
                    *idx as int,
                    t as int,
                    m,
                    run as int,
                    t2 as int,
                    j,
                );
            }
            // Emit the raw segment, joining it to an uninterrupted run.
            let seg = Event { name: Some(p.pid), start_time: t, finish_time: t2 };
            let ghost rawp: Seq<Event> = raw;
            let rg = emit_segment(events, base, seg, Ghost(ev0), Ghost(raw));
            proof {
                raw = rg@;
            }
            let done = run == rem;
            let started = p.section_finish_time == p.arrival_time;
            if done {
                let fp = Process {
                    remaining_time: 0,
                    waiting_time: t2 - p.arrival_time - p.burst_time,
                    turn_around_time: t2 - p.arrival_time,
                    section_finish_time: t2,
                    start_time: if started {
                        t
                    } else {
                        p.start_time
                    },
                    finish_time: t2,
                    ..p
                };
                proof {
                    assert(fp == rr_finish(st_d[q_d[m]], t as int, t2 as int));
                }
                processes[i] = fp;
                finished.push(fp);
                qv.remove(best);
                proof {
                    st = st.update(i as int, fp);
                    q = q.remove(m);
                }
            } else {
                let p2 = Process {
                    remaining_time: p.remaining_time - run,
                    waiting_time: p.waiting_time + (t - p.section_finish_time),
                    section_finish_time: t2,
                    start_time: if started {
                        t
                    } else {
                        p.start_time
                    },
                    ..p
                };
                proof {
                    assert(p2 == rr_touch(st_d[q_d[m]], t as int, t2 as int, run as int));
                }
                processes[i] = p2;
                proof {
                    st = st.update(i as int, p2);
                }
            }
            let ghost idx_c: int = *idx as int;
            admit_vec(&processes, qv, idx, t2, Ghost(q));
            proof {
                q = q + range_seq(idx_c, *idx as int);
                lemma_first_unarrived(st_d, idx_c, t2 as int);
                // The admission loop stops exactly at the machine's boundary.
                assert(forall|k: int|
                    idx_c <= k < n ==> #[trigger] st[k].arrival_time == st_d[k].arrival_time);
                if (*idx as int) < j {
                    assert(st_d[*idx as int].arrival_time <= t2);
                    assert(!can_admit(st, *idx as int, t2 as int));
                    assert(false);
                }
                if j < (*idx as int) {
                    assert(st_d[j].arrival_time > t2);
                    assert(st[j].arrival_time <= t2);
                    assert(false);
                }
                assert forall|k: int| 0 <= k < q.len() implies rr_tracked(
                    st[#[trigger] q[k]],
                    t2 as int,
                ) by {
                    let v = q[k];
                    if done {
                        if k < q_d.len() - 1 {
                            let l: int = if k < m {
                                k
                            } else {
                                k + 1
                            };
                            assert(v == q_d[l]);
                            assert(v != q_d[m]);
                            assert(st[v] == st_d[v]);
                            assert(rr_tracked(st_d[v], t as int));
                        } else {
                            assert(v == idx_c + (k - (q_d.len() - 1)));
                            assert(st[v] == st0[v]);
                            assert(st0[v] == init_preempt(ss[v]));
                            assert(st[v].arrival_time <= t2);
                        }
                    } else {
                        if k < q_d.len() {
                            assert(v == q_d[k]);
                            if k != m {
                                assert(st[v] == st_d[v]);
                                assert(rr_tracked(st_d[v], t as int));
                            } else {
                                assert(st[v] == rr_touch(
                                    st_d[q_d[m]],
                                    t as int,
                                    t2 as int,
                                    run as int,
                                ));
                            }
                        } else {
                            assert(v == idx_c + (k - q_d.len()));
                            assert(st[v] == st0[v]);
                            assert(st0[v] == init_preempt(ss[v]));
                            assert(st[v].arrival_time <= t2);
                        }
                    }
                }
                if done {
                    let fp = rr_finish(st_d[q_d[m]], t as int, t2 as int);
                    assert(fnp.push(fp) + pe_run(pol, st, q, *idx as int, t2 as int).1 =~= fnp + (
                    seq![fp] + pe_run(pol, st, q, *idx as int, t2 as int).1));
                }
                assert(rawp.push(seg) + pe_run(pol, st, q, *idx as int, t2 as int).0 =~= rawp + (
                seq![seg] + pe_run(pol, st, q, *idx as int, t2 as int).0));
                lemma_qsum_rem_nonneg(st, q);
                lemma_qsum_rem_nonneg(st, range_seq(*idx as int, st.len() as int));
                assert(rem_suffix(st, *idx as int) == qsum_rem(
                    st,
                    range_seq(*idx as int, st.len() as int),
                ));
                if !done {
                    assert(run >= 1);
                }
            }
    (t2, Ghost((q, st, raw)))
}

/// Picks the position of the ready process with the smallest dispatch key.
fn select_min(
    processes: &Vec<Process>,
    qv: &Vec<usize>,
    pol: Policy,
    Ghost(st): Ghost<Seq<Process>>,
    Ghost(q): Ghost<Seq<int>>,
    Ghost(idx): Ghost<int>,
) -> (best: usize)
    requires
        processes@ == st,
        qv@.len() == q.len(),
        forall|k: int| 0 <= k < q.len() ==> qv@[k] as int == #[trigger] q[k],
        pe_wf(st, q, idx),
        q.len() >= 1,
    ensures
        (best as int) < q.len(),
        forall|l: int|
            0 <= l < q.len() ==> lex4_le(
                key_at(pol, st, q[best as int]),
                key_at(pol, st, #[trigger] q[l]),
            ),
{
    proof {
        assert(qv@[0] as int == q[0]);
        assert(0 <= q[0] < idx);
    }
    let mut best: usize = 0;
    let mut bkey = key_exec(pol, &processes[qv[0]], qv[0]);
    proof {
        assert(bkey == key_at(pol, st, q[0]));
    }
    let mut sc: usize = 1;
    while sc < qv.len()
        invariant
            processes@ == st,
            qv@.len() == q.len(),
            forall|k: int| 0 <= k < q.len() ==> qv@[k] as int == #[trigger] q[k],
            pe_wf(st, q, idx),
            q.len() >= 1,
            sc <= qv@.len(),
            (best as int) < q.len(),
            bkey == key_at(pol, st, q[best as int]),
            forall|l: int|
                0 <= l < sc ==> lex4_le(
                    key_at(pol, st, q[best as int]),
                    key_at(pol, st, #[trigger] q[l]),
                ),
        decreases qv@.len() - sc,
    {
        proof {
            assert(qv@[sc as int] as int == q[sc as int]);
            assert(0 <= q[sc as int] < idx);
        }
        let cand = key_exec(pol, &processes[qv[sc]], qv[sc]);
        proof {
            assert(cand == key_at(pol, st, q[sc as int]));
        }
        if lex4_lt_exec(cand, bkey) {
            best = sc;
            bkey = cand;
        }
        sc += 1;
    }
    best
}

/// Appends one raw segment to the event list, extending the previous entry
/// instead when this run's last segment belongs to the same process and the
/// new one continues it without a gap: exactly `merge_adjacent`.
fn emit_segment(
    events: &mut Vec<Event>,
    base: usize,
    seg: Event,
    Ghost(ev0): Ghost<Seq<Event>>,
    Ghost(raw0): Ghost<Seq<Event>>,
) -> (rg: Ghost<Seq<Event>>)
    requires
        base as int == ev0.len(),
        old(events)@ == ev0 + merge_adjacent(raw0),
        seg.name is Some,
    ensures
        rg@ == raw0.push(seg),
        final(events)@ == ev0 + merge_adjacent(raw0.push(seg)),
{
    let ghost mpre: Seq<Event> = merge_adjacent(raw0);
    let el = events.len();
    let mut joined = false;
    if el > base {
        proof {
            assert(mpre.len() == el - ev0.len());
        }
        let last = events[el - 1];
        proof {
            assert(last == mpre.last());
        }
        let same = match (last.name, seg.name) {
            (Some(x), Some(y)) => x == y,
            _ => false,
        };
        if same && last.finish_time == seg.start_time {
            events[el - 1] = Event {
                name: last.name,
                start_time: last.start_time,
                finish_time: seg.finish_time,
            };
            joined = true;
        }
    }
    if !joined {
        events.push(seg);
    }
    proof {
        let raw = raw0.push(seg);
        assert(raw.drop_last() =~= raw0);
        assert(raw.last() == seg);
        if joined {
            assert(merge_adjacent(raw) == mpre.update(
                mpre.len() - 1,
                Event {
                    name: seg.name,
                    start_time: mpre.last().start_time,
                    finish_time: seg.finish_time,
                },
            ));
            assert(events@ =~= ev0 + merge_adjacent(raw));
        } else {
            assert(merge_adjacent(raw) == mpre.push(seg));
            assert(events@ =~= ev0 + merge_adjacent(raw));
        }
    }
    Ghost(raw0.push(seg))
}

/// Appends to the ready queue every process that has arrived by `t`, in
/// index order, advancing the admission index.
fn admit_vec(
    processes: &Vec<Process>,
    qv: &mut Vec<usize>,
    idx: &mut usize,
    t: u64,
    Ghost(q0): Ghost<Seq<int>>,
)
    requires
        *old(idx) <= processes@.len(),
        old(qv)@.len() == q0.len(),
        forall|k: int| 0 <= k < q0.len() ==> old(qv)@[k] as int == #[trigger] q0[k],
    ensures
        *old(idx) <= *final(idx) <= processes@.len(),
        final(qv)@.len() == q0.len() + (*final(idx) - *old(idx)),
        forall|k: int|
            0 <= k < final(qv)@.len() ==> final(qv)@[k] as int == #[trigger] (q0 + range_seq(
                *old(idx) as int,
                *final(idx) as int,
            ))[k],
        forall|k: int|
            *old(idx) <= k < *final(idx) as int ==> #[trigger] processes@[k].arrival_time <= t,
        !can_admit(processes@, *final(idx) as int, t as int),
{
    let n = processes.len();
    while *idx < n && processes[*idx].arrival_time <= t
        invariant
            n == processes@.len(),
            *old(idx) <= *idx <= n,
            qv@.len() == q0.len() + (*idx - *old(idx)),
            forall|k: int|
                0 <= k < qv@.len() ==> qv@[k] as int == #[trigger] (q0 + range_seq(
                    *old(idx) as int,
                    *idx as int,
                ))[k],
            forall|k: int|
                *old(idx) <= k < *idx as int ==> #[trigger] processes@[k].arrival_time <= t,
        decreases n - *idx,
    {
        qv.push(*idx);
        proof {
            assert(q0 + range_seq(*old(idx) as int, *idx as int + 1) =~= (q0 + range_seq(
                *old(idx) as int,
                *idx as int,
            )).push(*idx as int));
        }
        *idx += 1;
    }
}

} // verus!
