//! The run-to-completion engine: first-come-first-served, shortest job
//! first, and priority scheduling.  Each discipline dispatches one process
//! at a time to completion, so every finished process gets exactly one
//! execution segment.

use vstd::prelude::*;

use crate::model::{
    burst_suffix, burst_sum, can_admit, finish_np, inc_indices, key_at, lemma_burst_suffix_le,
    lemma_burst_suffix_step, lex4_le, np_run, ok_workload, range_seq, sel_pos_in,
    sorted_by_arr_pid, Policy,
};
use crate::model::{
    key_exec, lemma_inc_indices_bounds, lemma_qsum_burst_nonneg, lemma_qsum_burst_remove,
    lemma_sel_pos_unique, qsum_burst,
};
use crate::process::{Process, SchedulerError};
use crate::queue::{dpq_contents, dpq_new, dpq_pop_min, dpq_push, no_contents, DispatchKey, ReadyQueue};
use crate::sorting::{lemma_ok_workload_sort, lemma_sort_spec_props, sort_processes, sort_spec};

verus! {

/// A non-preemptive scheduling run: the workload still to dispatch, and the
/// finished records in dispatch order.
pub struct NonpreemptiveScheduler {
    pub processes: Vec<Process>,
    pub finished_processes: Vec<Process>,
}

// Common methods
impl NonpreemptiveScheduler {
    pub fn new(processes: Vec<Process>) -> (s: NonpreemptiveScheduler)
        ensures
            s.processes == processes,
            s.finished_processes@ == Seq::<Process>::empty(),
    {
        NonpreemptiveScheduler { processes, finished_processes: Vec::new() }
    }

    /// Puts the workload into the canonical arrival order (ties by pid).
    pub fn sort_by_arrival_time(&mut self)
        ensures
            final(self).processes@ == sort_spec(old(self).processes@),
            final(self).finished_processes == old(self).finished_processes,
    {
        sort_processes(&mut self.processes);
    }

    /// The metrics of dispatching `process` to completion at `current_time`:
    /// start, finish, waiting and turnaround time, in that order.
    pub fn calculate_time(&self, current_time: u64, process: &Process) -> (r: (u64, u64, u64, u64))
        requires
            process.arrival_time <= current_time,
            current_time + process.burst_time <= u64::MAX,
        ensures
            r.0 == current_time,
            r.1 == current_time + process.burst_time,
            r.2 == current_time - process.arrival_time,
            r.3 == current_time + process.burst_time - process.arrival_time,
    {
        let start_time: u64 = current_time;
        let finish_time: u64 = start_time + process.burst_time;
        let turn_around_time: u64 = finish_time - process.arrival_time;
        let waiting_time: u64 = finish_time - process.arrival_time - process.burst_time;
        (start_time, finish_time, waiting_time, turn_around_time)
    }

    /// Writes the computed metrics into a finished process record.
    pub fn update_process(
        &mut self,
        process: &mut Process,
        start_time: u64,
        finish_time: u64,
        waiting_time: u64,
        turn_around_time: u64,
    )
        ensures
            *final(self) == *old(self),
            *final(process) == (Process {
                start_time,
                finish_time,
                waiting_time,
                turn_around_time,
                remaining_time: 0,
                section_finish_time: finish_time,
                ..*old(process)
            }),
    {
        process.start_time = start_time;
        process.finish_time = finish_time;
        process.waiting_time = waiting_time;
        process.turn_around_time = turn_around_time;
        process.remaining_time = 0;
        process.section_finish_time = finish_time;
    }
}

// Algorithms
impl NonpreemptiveScheduler {
    /// First come, first served: dispatches the workload in arrival order
    /// (ties by pid), jumping over idle gaps to the next arrival.
    pub fn fcfs(&mut self) -> (r: Result<(), SchedulerError>)
        requires
            ok_workload(old(self).processes@),
        ensures
            old(self).processes@.len() == 0 ==> r == Err::<(), SchedulerError>(
                SchedulerError::EmptyWorkload,
            ) && *final(self) == *old(self),
            old(self).processes@.len() > 0 ==> r == Ok::<(), SchedulerError>(())
                && final(self).processes@ == Seq::<Process>::empty()
                && final(self).finished_processes@ == old(self).finished_processes@ + np_run(
                Policy::Fcfs,
                sort_spec(old(self).processes@),
                Seq::empty(),
                0,
                0,
            ),
    {
        if self.processes.len() == 0 {
            return Err(SchedulerError::EmptyWorkload);
        }
        let ghost orig: Seq<Process> = self.processes@;
        let ghost fin0: Seq<Process> = self.finished_processes@;
        self.sort_by_arrival_time();
        let ghost s: Seq<Process> = self.processes@;
        proof {
            lemma_sort_spec_props(orig);
            lemma_ok_workload_sort(orig);
        }
        let n = self.processes.len();
        let mut d: usize = 0;
        let mut idx: usize = 0;
        let mut t: u64 = 0;
        proof {
            assert(range_seq(0, 0) =~= Seq::<int>::empty());
            lemma_burst_suffix_le(s, 0);
            assert(s.subrange(0, s.len() as int) =~= s);
            assert(s[0].arrival_time + burst_sum(s) <= u64::MAX);
        }
        while d < n
            invariant
                self.processes@ == s,
                n == s.len(),
                sorted_by_arr_pid(s),
                ok_workload(s),
                d <= idx <= n,
                forall|k: int| d <= k < idx ==> #[trigger] s[k].arrival_time <= t,
                t + burst_suffix(s, d as int) <= u64::MAX,
                self.finished_processes@ + np_run(
                    Policy::Fcfs,
                    s,
                    range_seq(d as int, idx as int),
                    idx as int,
                    t as int,
                ) == fin0 + np_run(Policy::Fcfs, s, Seq::empty(), 0, 0),
            decreases n - d,
        {
            admit_range(&self.processes, Ghost(s), Ghost(d as int), &mut idx, t, Ghost(Policy::Fcfs));
            if d == idx {
                // The queue is empty and a process remains, so the engine is
                // idle: jump straight to the next arrival.
                proof {
                    reveal(np_run);
                    assert(can_admit(s, idx as int, t as int) == false);
                    assert(range_seq(d as int, idx as int).len() == 0);
                    assert(np_run(Policy::Fcfs, s, range_seq(d as int, idx as int), idx as int, t as int)
                        == np_run(
                        Policy::Fcfs,
                        s,
                        range_seq(d as int, idx as int),
                        idx as int,
                        s[idx as int].arrival_time as int,
                    ));
                    lemma_burst_suffix_le(s, d as int);
                }
                let ghost pre_idx: int = idx as int;
                t = self.processes[idx].arrival_time;
                admit_range(&self.processes, Ghost(s), Ghost(d as int), &mut idx, t, Ghost(Policy::Fcfs));
                proof {
                    if idx as int == pre_idx {
                        assert(can_admit(s, pre_idx, t as int));
                        assert(false);
                    }
                }
            }
            // Dispatch the earliest admitted process: in a sorted workload
            // the head of the contiguous ready range has the smallest key.
            let ghost q: Seq<int> = range_seq(d as int, idx as int);
            proof {
                assert(q.len() >= 1);
                assert(inc_indices(q, s.len() as int));
                assert forall|k: int| 0 <= k < q.len() implies lex4_le(
                    key_at(Policy::Fcfs, s, q[0]),
                    key_at(Policy::Fcfs, s, #[trigger] q[k]),
                ) by {
                    assert(q[k] == d + k);
                }
                lemma_sel_pos_unique(Policy::Fcfs, s, q, 0);
                assert(sel_pos_in(Policy::Fcfs, s, q) == 0);
                lemma_burst_suffix_step(s, d as int);
                lemma_burst_suffix_le(s, d as int + 1);
            }
            let p = self.processes[d];
            let times = self.calculate_time(t, &p);
            let mut fp = p;
            self.update_process(&mut fp, times.0, times.1, times.2, times.3);
            proof {
                reveal(np_run);
                assert(fp == finish_np(s[d as int], t as int));
                assert(can_admit(s, idx as int, t as int) == false);
                assert(q.remove(0) =~= range_seq(d as int + 1, idx as int));
                assert(np_run(Policy::Fcfs, s, q, idx as int, t as int) == seq![fp] + np_run(
                    Policy::Fcfs,
                    s,
                    q.remove(0),
                    idx as int,
                    t as int + s[d as int].burst_time,
                ));
            }
            self.finished_processes.push(fp);
            t = times.1;
            d += 1;
        }
        self.processes.clear();
        proof {
            reveal(np_run);
            assert(range_seq(d as int, idx as int).len() == 0);
            assert(np_run(Policy::Fcfs, s, range_seq(d as int, idx as int), idx as int, t as int)
                =~= Seq::<Process>::empty());
            assert(self.finished_processes@ =~= fin0 + np_run(
                Policy::Fcfs,
                s,
                Seq::empty(),
                0,
                0,
            ));
        }
        Ok(())
    }
}

// Greedy smallest-key-first disciplines
impl NonpreemptiveScheduler {
    /// Shortest job first: among the arrived processes, always dispatch the
    /// one with the smallest burst time (ties by arrival, then pid).
    pub fn sjf(&mut self) -> (r: Result<(), SchedulerError>)
        requires
            ok_workload(old(self).processes@),
        ensures
            old(self).processes@.len() == 0 ==> r == Err::<(), SchedulerError>(
                SchedulerError::EmptyWorkload,
            ) && *final(self) == *old(self),
            old(self).processes@.len() > 0 ==> r == Ok::<(), SchedulerError>(())
                && final(self).processes@ == Seq::<Process>::empty()
                && final(self).finished_processes@ == old(self).finished_processes@ + np_run(
                Policy::Sjf,
                sort_spec(old(self).processes@),
                Seq::empty(),
                0,
                0,
            ),
    {
        self.run_greedy(Policy::Sjf)
    }

    /// Priority scheduling: among the arrived processes, always dispatch the
    /// one with the smallest priority value (ties by arrival, then pid).
    pub fn ps(&mut self) -> (r: Result<(), SchedulerError>)
        requires
            ok_workload(old(self).processes@),
        ensures
            old(self).processes@.len() == 0 ==> r == Err::<(), SchedulerError>(
                SchedulerError::EmptyWorkload,
            ) && *final(self) == *old(self),
            old(self).processes@.len() > 0 ==> r == Ok::<(), SchedulerError>(())
                && final(self).processes@ == Seq::<Process>::empty()
                && final(self).finished_processes@ == old(self).finished_processes@ + np_run(
                Policy::Priority,
                sort_spec(old(self).processes@),
                Seq::empty(),
                0,
                0,
            ),
    {
        self.run_greedy(Policy::Priority)
    }

    /// The shared greedy dispatch loop: admit the arrived processes into the
    /// ready queue, jump over idle gaps, and dispatch the smallest key.
    #[verifier::rlimit(100)]
    fn run_greedy(&mut self, pol: Policy) -> (r: Result<(), SchedulerError>)
        requires
            ok_workload(old(self).processes@),
        ensures
            old(self).processes@.len() == 0 ==> r == Err::<(), SchedulerError>(
                SchedulerError::EmptyWorkload,
            ) && *final(self) == *old(self),
            old(self).processes@.len() > 0 ==> r == Ok::<(), SchedulerError>(())
                && final(self).processes@ == Seq::<Process>::empty()
                && final(self).finished_processes@ == old(self).finished_processes@ + np_run(
                pol,
                sort_spec(old(self).processes@),
                Seq::empty(),
                0,
                0,
            ),
    {
        if self.processes.len() == 0 {
            return Err(SchedulerError::EmptyWorkload);
        }
        let ghost orig: Seq<Process> = self.processes@;
        let ghost fin0: Seq<Process> = self.finished_processes@;
        self.sort_by_arrival_time();
        let ghost s: Seq<Process> = self.processes@;
        proof {
            lemma_sort_spec_props(orig);
            lemma_ok_workload_sort(orig);
        }
        let n = self.processes.len();
        let mut queue: ReadyQueue = dpq_new();
        let mut qlen: usize = 0;
        let mut idx: usize = 0;
        let mut t: u64 = 0;
        let ghost mut q: Seq<int> = Seq::empty();
        proof {
            lemma_burst_suffix_le(s, 0);
            assert(s.subrange(0, s.len() as int) =~= s);
            assert(s[0].arrival_time + burst_sum(s) <= u64::MAX);
            assert(qsum_burst(s, q) == 0);
        }
        while idx < n || qlen > 0
            invariant
                self.processes@ == s,
                n == s.len(),
                sorted_by_arr_pid(s),
                ok_workload(s),
                idx <= n,
                qlen == q.len(),
                inc_indices(q, n as int),
                forall|k: int| 0 <= k < q.len() ==> #[trigger] q[k] < idx,
                forall|k: int| 0 <= k < q.len() ==> s[#[trigger] q[k]].arrival_time <= t,
                queue_matches(pol, s, q, dpq_contents(queue)),
                t + qsum_burst(s, q) + burst_suffix(s, idx as int) <= u64::MAX,
                self.finished_processes@ + np_run(pol, s, q, idx as int, t as int) == fin0
                    + np_run(pol, s, Seq::empty(), 0, 0),
            decreases qlen + (n - idx),
        {
            let qg = admit_ready(
                &self.processes,
                &mut queue,
                &mut idx,
                &mut qlen,
                &mut t,
                pol,
                Ghost(s),
                Ghost(q),
            );
            proof {
                q = qg@;
            }
            // Dispatch: the queue pops a pair whose key is minimal, which is
            // exactly the process the dispatch machine selects.
            let ghost mc: Map<usize, DispatchKey> = dpq_contents(queue);
            proof {
                assert(mc.dom().contains(q[0] as usize));
            }
            let popped = dpq_pop_min(&mut queue);
            proof {
                if popped is None {
                    assert(mc == no_contents());
                    assert(false);
                }
            }
            let (item, pr) = popped.unwrap();
            proof {
                let kpos = lemma_greedy_dispatch(pol, s, q, idx as int, t as int, item, pr, mc);
                lemma_burst_suffix_le(s, idx as int);
                q = q.remove(kpos);
            }
            let p = self.processes[item];
            let times = self.calculate_time(t, &p);
            let mut fp = p;
            self.update_process(&mut fp, times.0, times.1, times.2, times.3);
            proof {
                assert(fp == finish_np(s[item as int], t as int));
            }
            self.finished_processes.push(fp);
            t = times.1;
            qlen -= 1;
        }
        self.processes.clear();
        proof {
            reveal(np_run);
            assert(q.len() == 0);
            assert(np_run(pol, s, q, idx as int, t as int) =~= Seq::<Process>::empty());
            assert(self.finished_processes@ =~= fin0 + np_run(pol, s, Seq::empty(), 0, 0));
        }
        Ok(())
    }
}

/// A minimal pair popped from the ready queue is exactly the dispatch the
/// machine takes: it stands at the selected position, and removing it keeps
/// the queue mirroring the machine's state.
proof fn lemma_greedy_dispatch(
    pol: Policy,
    s: Seq<Process>,
    q: Seq<int>,
    idx: int,
    t: int,
    item: usize,
    pr: DispatchKey,
    mc: Map<usize, DispatchKey>,
) -> (kpos: int)
    requires
        s.len() <= u64::MAX as int + 1,
        inc_indices(q, s.len() as int),
        q.len() >= 1,
        queue_matches(pol, s, q, mc),
        mc.contains_pair(item, pr),
        forall|j: usize| mc.dom().contains(j) ==> lex4_le(pr, #[trigger] mc[j]),
        !can_admit(s, idx, t),
    ensures
        0 <= kpos < q.len(),
        q[kpos] == item as int,
        np_run(pol, s, q, idx, t) == seq![finish_np(s[item as int], t)] + np_run(
            pol,
            s,
            q.remove(kpos),
            idx,
            t + s[item as int].burst_time,
        ),
        inc_indices(q.remove(kpos), s.len() as int),
        queue_matches(pol, s, q.remove(kpos), mc.remove(item)),
        qsum_burst(s, q.remove(kpos)) == qsum_burst(s, q) - s[item as int].burst_time,
        qsum_burst(s, q.remove(kpos)) >= 0,
{
    assert(mc.dom().contains(item));
    let kpos = choose|k: int| 0 <= k < q.len() && q[k] == item as int;
    assert(0 <= kpos < q.len() && q[kpos] == item as int);
    assert forall|l: int| 0 <= l < q.len() implies lex4_le(
        key_at(pol, s, q[kpos]),
        key_at(pol, s, #[trigger] q[l]),
    ) by {
        assert(mc.dom().contains(q[l] as usize));
        assert(mc[q[l] as usize] == key_at(pol, s, q[l]));
        assert(lex4_le(pr, mc[q[l] as usize]));
        assert(pr == mc[item] && mc[item] == key_at(pol, s, q[kpos]));
    }
    lemma_sel_pos_unique(pol, s, q, kpos);
    assert(sel_pos_in(pol, s, q) == kpos);
    let q2 = q.remove(kpos);
    reveal(np_run);
    assert(np_run(pol, s, q, idx, t) == seq![finish_np(s[item as int], t)] + np_run(
        pol,
        s,
        q2,
        idx,
        t + s[item as int].burst_time,
    ));
    assert(forall|l: int|
        0 <= l < q2.len() ==> #[trigger] q2[l] == (if l < kpos {
            q[l]
        } else {
            q[l + 1]
        }));
    assert(inc_indices(q2, s.len() as int));
    lemma_qsum_burst_remove(s, q, kpos);
    lemma_qsum_burst_nonneg(s, q2);
    assert forall|x: usize| #[trigger]
        mc.remove(item).dom().contains(x) implies exists|k: int|
        0 <= k < q2.len() && q2[k] == x as int by {
        let l = choose|l: int| 0 <= l < q.len() && q[l] == x as int;
        assert(x != item);
        assert(l != kpos);
        if l < kpos {
            assert(q2[l] == x as int);
        } else {
            assert(q2[l - 1] == x as int);
        }
    }
    assert forall|k: int| 0 <= k < q2.len() implies mc.remove(item).dom().contains(
        #[trigger] q2[k] as usize,
    ) && mc.remove(item)[q2[k] as usize] == key_at(pol, s, q2[k]) by {
        assert(q2[k] != item as int);
        assert(mc.dom().contains(q2[k] as usize));
    }
    kpos
}

/// The ready queue of the greedy engines mirrors the dispatch machine's
/// queue: the queued items are exactly the queue sequence's indices, each
/// keyed by its dispatch key.
pub open spec fn queue_matches(
    pol: Policy,
    s: Seq<Process>,
    q: Seq<int>,
    m: Map<usize, DispatchKey>,
) -> bool {
    &&& forall|k: int|
        0 <= k < q.len() ==> m.dom().contains(#[trigger] q[k] as usize) && m[q[k] as usize]
            == key_at(pol, s, q[k])
    &&& forall|x: usize| #[trigger]
        m.dom().contains(x) ==> exists|k: int| 0 <= k < q.len() && q[k] == x as int
}

/// Makes the ready queue non-empty: admits every process that has arrived,
/// and if the queue is still empty jumps the clock to the next arrival and
/// admits again.  Both are steps of `np_run`, so the run's value is
/// unchanged.
#[verifier::rlimit(60)]
fn admit_ready(
    processes: &Vec<Process>,
    queue: &mut ReadyQueue,
    idx: &mut usize,
    qlen: &mut usize,
    t: &mut u64,
    pol: Policy,
    Ghost(s): Ghost<Seq<Process>>,
    Ghost(q0): Ghost<Seq<int>>,
) -> (qg: Ghost<Seq<int>>)
    requires
        processes@ == s,
        ok_workload(s),
        *old(idx) <= s.len(),
        *old(idx) < s.len() || q0.len() > 0,
        *old(qlen) == q0.len(),
        inc_indices(q0, s.len() as int),
        forall|k: int| 0 <= k < q0.len() ==> #[trigger] q0[k] < *old(idx) as int,
        forall|k: int| 0 <= k < q0.len() ==> s[#[trigger] q0[k]].arrival_time <= *old(t),
        queue_matches(pol, s, q0, dpq_contents(*old(queue))),
        *old(t) + qsum_burst(s, q0) + burst_suffix(s, *old(idx) as int) <= u64::MAX,
    ensures
        *old(idx) <= *final(idx) <= s.len(),
        *final(qlen) == qg@.len(),
        qg@.len() >= 1,
        qg@.len() + (s.len() - *final(idx) as int) == q0.len() + (s.len() - *old(idx) as int),
        inc_indices(qg@, s.len() as int),
        forall|k: int| 0 <= k < qg@.len() ==> #[trigger] qg@[k] < *final(idx) as int,
        forall|k: int| 0 <= k < qg@.len() ==> s[#[trigger] qg@[k]].arrival_time <= *final(t),
        queue_matches(pol, s, qg@, dpq_contents(*final(queue))),
        !can_admit(s, *final(idx) as int, *final(t) as int),
        *final(t) + qsum_burst(s, qg@) + burst_suffix(s, *final(idx) as int) <= u64::MAX,
        np_run(pol, s, qg@, *final(idx) as int, *final(t) as int) == np_run(
            pol,
            s,
            q0,
            *old(idx) as int,
            *old(t) as int,
        ),
{
    let qg1 = admit_into_queue(processes, queue, idx, qlen, *t, pol, Ghost(s), Ghost(q0));
    let ghost mut q: Seq<int> = qg1@;
    if *qlen == 0 {
        // The ready queue is empty and a process remains unarrived: jump
        // straight to the next arrival.
        proof {
            reveal(np_run);
            assert(q.len() == 0);
            assert(np_run(pol, s, q, *idx as int, *t as int) == np_run(
                pol,
                s,
                q,
                *idx as int,
                s[*idx as int].arrival_time as int,
            ));
            lemma_burst_suffix_le(s, *idx as int);
            assert(qsum_burst(s, q) == 0);
        }
        let ghost pre_idx: int = *idx as int;
        let tj = processes[*idx].arrival_time;
        *t = tj;
        let qg2 = admit_into_queue(processes, queue, idx, qlen, tj, pol, Ghost(s), Ghost(q));
        proof {
            q = qg2@;
            if *idx as int == pre_idx {
                assert(can_admit(s, pre_idx, tj as int));
                assert(false);
            }
        }
    }
    Ghost(q)
}

/// Admits every process that has arrived by time `t` into the greedy ready
/// queue, advancing the admission index; each admission is one step of
/// `np_run`, so the run's value is unchanged.
#[verifier::rlimit(30)]
fn admit_into_queue(
    processes: &Vec<Process>,
    queue: &mut ReadyQueue,
    idx: &mut usize,
    qlen: &mut usize,
    t: u64,
    pol: Policy,
    Ghost(s): Ghost<Seq<Process>>,
    Ghost(q0): Ghost<Seq<int>>,
) -> (qg: Ghost<Seq<int>>)
    requires
        processes@ == s,
        *old(idx) <= s.len(),
        *old(qlen) == q0.len(),
        inc_indices(q0, s.len() as int),
        forall|k: int| 0 <= k < q0.len() ==> #[trigger] q0[k] < *old(idx) as int,
        forall|k: int| 0 <= k < q0.len() ==> s[#[trigger] q0[k]].arrival_time <= t,
        queue_matches(pol, s, q0, dpq_contents(*old(queue))),
        t + qsum_burst(s, q0) + burst_suffix(s, *old(idx) as int) <= u64::MAX,
    ensures
        *old(idx) <= *final(idx) <= s.len(),
        *final(qlen) == qg@.len(),
        qg@.len() == q0.len() + (*final(idx) - *old(idx)),
        inc_indices(qg@, s.len() as int),
        forall|k: int| 0 <= k < qg@.len() ==> #[trigger] qg@[k] < *final(idx) as int,
        forall|k: int| 0 <= k < qg@.len() ==> s[#[trigger] qg@[k]].arrival_time <= t,
        queue_matches(pol, s, qg@, dpq_contents(*final(queue))),
        !can_admit(s, *final(idx) as int, t as int),
        t + qsum_burst(s, qg@) + burst_suffix(s, *final(idx) as int) <= u64::MAX,
        np_run(pol, s, qg@, *final(idx) as int, t as int) == np_run(
            pol,
            s,
            q0,
            *old(idx) as int,
            t as int,
        ),
{
    let n = processes.len();
    let ghost mut q: Seq<int> = q0;
    while *idx < n && processes[*idx].arrival_time <= t
        invariant
            processes@ == s,
            n == s.len(),
            *old(idx) <= *idx <= s.len(),
            *qlen == q.len(),
            q.len() == q0.len() + (*idx - *old(idx)),
            inc_indices(q, n as int),
            forall|k: int| 0 <= k < q.len() ==> #[trigger] q[k] < *idx as int,
            forall|k: int| 0 <= k < q.len() ==> s[#[trigger] q[k]].arrival_time <= t,
            queue_matches(pol, s, q, dpq_contents(*queue)),
            t + qsum_burst(s, q) + burst_suffix(s, *idx as int) <= u64::MAX,
            np_run(pol, s, q, *idx as int, t as int) == np_run(
                pol,
                s,
                q0,
                *old(idx) as int,
                t as int,
            ),
        decreases n - *idx,
    {
        let i = *idx;
        let p = processes[i];
        let key = key_exec(pol, &p, i);
        proof {
            reveal(np_run);
            lemma_inc_indices_bounds(q, i as int);
            assert(can_admit(s, i as int, t as int));
            assert(np_run(pol, s, q, i as int, t as int) == np_run(
                pol,
                s,
                q.push(i as int),
                i as int + 1,
                t as int,
            ));
            assert(q.push(i as int).drop_last() =~= q);
            lemma_burst_suffix_step(s, i as int);
            assert(key == key_at(pol, s, i as int));
        }
        dpq_push(queue, i, key);
        proof {
            let q2 = q.push(i as int);
            assert forall|x: usize| #[trigger]
                dpq_contents(*queue).dom().contains(x) implies exists|k: int|
                0 <= k < q2.len() && q2[k] == x as int by {
                if x == i {
                    assert(q2[q2.len() - 1] == x as int);
                } else {
                    let l = choose|l: int| 0 <= l < q.len() && q[l] == x as int;
                    assert(q2[l] == x as int);
                }
            }
            q = q2;
        }
        *qlen += 1;
        *idx += 1;
    }
    Ghost(q)
}

/// Admits every process that has arrived by time `t` into the ready queue of
/// the dispatch machine, advancing the admission index; each admission is one
/// step of `np_run`, so the run's value is unchanged.
fn admit_range(
    processes: &Vec<Process>,
    Ghost(s): Ghost<Seq<Process>>,
    Ghost(d): Ghost<int>,
    idx: &mut usize,
    t: u64,
    Ghost(pol): Ghost<Policy>,
)
    requires
        processes@ == s,
        0 <= d <= *old(idx) as int <= s.len(),
        forall|k: int| d <= k < *old(idx) as int ==> #[trigger] s[k].arrival_time <= t,
    ensures
        *old(idx) <= *final(idx) <= s.len(),
        forall|k: int| d <= k < *final(idx) as int ==> #[trigger] s[k].arrival_time <= t,
        can_admit(s, *final(idx) as int, t as int) == false,
        np_run(pol, s, range_seq(d, *final(idx) as int), *final(idx) as int, t as int) == np_run(
            pol,
            s,
            range_seq(d, *old(idx) as int),
            *old(idx) as int,
            t as int,
        ),
{
    let n = processes.len();
    while *idx < n && processes[*idx].arrival_time <= t
        invariant
            processes@ == s,
            n == s.len(),
            0 <= d <= *idx as int <= s.len(),
            forall|k: int| d <= k < *idx as int ==> #[trigger] s[k].arrival_time <= t,
            np_run(pol, s, range_seq(d, *idx as int), *idx as int, t as int) == np_run(
                pol,
                s,
                range_seq(d, *old(idx) as int),
                *old(idx) as int,
                t as int,
            ),
        decreases n - *idx,
    {
        proof {
            reveal(np_run);
            let i = *idx as int;
            assert(can_admit(s, i, t as int));
            assert(range_seq(d, i).push(i) =~= range_seq(d, i + 1));
            assert(np_run(pol, s, range_seq(d, i), i, t as int) == np_run(
                pol,
                s,
                range_seq(d, i + 1),
                i + 1,
                t as int,
            ));
        }
        *idx += 1;
    }
}

} // verus!
