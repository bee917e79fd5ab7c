//! The mathematical model of the scheduling disciplines.
//!
//! Each engine's contract equates its output with a recursive specification
//! function over the engine's state: the working copy of the processes, the
//! ready queue (a sequence of indices into that copy), the index of the next
//! process not yet admitted, and the current simulated time.  Admission,
//! idle jumps and dispatches are each one step of the recursion, so the
//! executable loops can mirror it step by step.

use vstd::prelude::*;

use crate::process::{Event, Process};

verus! {

/// The scheduling disciplines, named by the key each one dispatches on.
#[derive(Clone, Copy, PartialEq, Eq, Structural, Debug)]
pub enum Policy {
    /// First-come-first-served: earliest arrival first.
    Fcfs,
    /// Shortest job first: smallest burst among the arrived.
    Sjf,
    /// Priority scheduling: smallest priority value among the arrived.
    Priority,
    /// Shortest remaining time first: preemptive, smallest remaining time.
    Srtf,
    /// Preemptive priority scheduling: smallest priority value, preemptive.
    PreemptivePriority,
}

/// Clamps an integer to be non-negative; used in termination measures.
pub open spec fn non_neg(x: int) -> int {
    if x >= 0 {
        x
    } else {
        0
    }
}

/// Lexicographic order on dispatch keys, matching the ordering std derives
/// for 4-tuples.
pub open spec fn lex4_le(a: (u64, u64, u64, u64), b: (u64, u64, u64, u64)) -> bool {
    ||| a.0 < b.0
    ||| (a.0 == b.0 && (a.1 < b.1 || (a.1 == b.1 && (a.2 < b.2 || (a.2 == b.2 && a.3 <= b.3)))))
}

/// The primary dispatch key of a process under a policy.
pub open spec fn policy_key(pol: Policy, p: Process) -> u64 {
    match pol {
        Policy::Fcfs => p.arrival_time,
        Policy::Sjf => p.burst_time,
        Policy::Priority => p.priority,
        Policy::Srtf => p.remaining_time,
        Policy::PreemptivePriority => p.priority,
    }
}

/// The full dispatch key of the process at index `i`: the policy key, then
/// arrival time, then pid, then the index itself, which makes every key in a
/// queue of distinct indices unique and every tie-break total.
pub open spec fn key_at(pol: Policy, s: Seq<Process>, i: int) -> (u64, u64, u64, u64) {
    (policy_key(pol, s[i]), s[i].arrival_time, s[i].pid, i as u64)
}

/// The position in `q` of the index whose process has the smallest dispatch
/// key; the leftmost such position if keys were ever to repeat.
pub open spec fn sel_pos(pol: Policy, s: Seq<Process>, q: Seq<int>) -> int
    decreases q.len(),
{
    if q.len() <= 1 {
        0
    } else {
        let rest = 1 + sel_pos(pol, s, q.drop_first());
        if lex4_le(key_at(pol, s, q[0]), key_at(pol, s, q[rest])) {
            0
        } else {
            rest
        }
    }
}

/// `sel_pos`, clamped into the queue's range so that every use is a valid
/// position; the clamp never fires, as `lemma_sel_pos_min` shows.
pub open spec fn sel_pos_in(pol: Policy, s: Seq<Process>, q: Seq<int>) -> int {
    let m = sel_pos(pol, s, q);
    if 0 <= m < q.len() {
        m
    } else {
        0
    }
}

/// `sel_pos` lands inside the queue and its key is minimal.
pub proof fn lemma_sel_pos_min(pol: Policy, s: Seq<Process>, q: Seq<int>)
    requires
        q.len() >= 1,
    ensures
        0 <= sel_pos(pol, s, q) < q.len(),
        forall|k: int|
            0 <= k < q.len() ==> lex4_le(key_at(pol, s, q[sel_pos(pol, s, q)]), key_at(pol, s, #[trigger] q[k])),
    decreases q.len(),
{
    if q.len() > 1 {
        lemma_sel_pos_min(pol, s, q.drop_first());
        let rest = 1 + sel_pos(pol, s, q.drop_first());
        assert(forall|k: int| 1 <= k < q.len() ==> q.drop_first()[k - 1] == #[trigger] q[k]);
        assert(forall|k: int|
            1 <= k < q.len() ==> lex4_le(key_at(pol, s, q[rest]), key_at(pol, s, #[trigger] q[k])));
    }
}

/// A strictly increasing sequence of indices into `[0, bound)`: the shape of
/// every ready queue of the non-preemptive and event-driven engines.
pub open spec fn inc_indices(q: Seq<int>, bound: int) -> bool {
    &&& forall|k: int| 0 <= k < q.len() ==> 0 <= #[trigger] q[k] < bound
    &&& forall|k: int, l: int| 0 <= k < l < q.len() ==> q[k] < q[l]
}

/// With distinct in-range indices the minimal key is unique, so any position
/// whose key is minimal is the selected one.
pub proof fn lemma_sel_pos_unique(pol: Policy, s: Seq<Process>, q: Seq<int>, m: int)
    requires
        s.len() <= u64::MAX as int + 1,
        inc_indices(q, s.len() as int),
        0 <= m < q.len(),
        forall|k: int|
            0 <= k < q.len() ==> lex4_le(key_at(pol, s, q[m]), key_at(pol, s, #[trigger] q[k])),
    ensures
        sel_pos(pol, s, q) == m,
{
    let ms = sel_pos(pol, s, q);
    lemma_sel_pos_min(pol, s, q);
    let a = key_at(pol, s, q[ms]);
    let b = key_at(pol, s, q[m]);
    assert(lex4_le(a, b) && lex4_le(b, a));
    assert(a.3 == b.3);
    assert(q[ms] == q[m]);
    if ms < m {
        assert(q[ms] < q[m]);
    }
    if m < ms {
        assert(q[m] < q[ms]);
    }
}

/// A strictly increasing index sequence sits above the diagonal, so it can
/// hold at most `bound` indices.
pub proof fn lemma_inc_indices_bounds(q: Seq<int>, bound: int)
    requires
        0 <= bound,
        inc_indices(q, bound),
    ensures
        forall|k: int| 0 <= k < q.len() ==> #[trigger] q[k] >= k,
        q.len() <= bound,
    decreases q.len(),
{
    if q.len() > 0 {
        let qd = q.drop_last();
        assert(inc_indices(qd, bound));
        lemma_inc_indices_bounds(qd, bound);
        assert(forall|k: int| 0 <= k < q.len() - 1 ==> q[k] == #[trigger] qd[k]);
        let k1 = q.len() - 1;
        assert(q[k1] >= k1) by {
            if k1 >= 1 {
                assert(qd[k1 - 1] >= k1 - 1);
                assert(q[k1 - 1] < q[k1]);
            }
        }
        assert forall|k: int| 0 <= k < q.len() implies #[trigger] q[k] >= k by {
            if k < k1 {
                assert(qd[k] >= k);
            }
        }
        assert(q.len() <= bound) by {
            assert(q[k1] < bound);
        }
    }
}

/// Computes the dispatch key of the process `p` standing at index `i`.
pub fn key_exec(pol: Policy, p: &Process, i: usize) -> (k: (u64, u64, u64, u64))
    ensures
        k == (policy_key(pol, *p), p.arrival_time, p.pid, i as u64),
{
    let primary: u64 = match pol {
        Policy::Fcfs => p.arrival_time,
        Policy::Sjf => p.burst_time,
        Policy::Priority => p.priority,
        Policy::Srtf => p.remaining_time,
        Policy::PreemptivePriority => p.priority,
    };
    (primary, p.arrival_time, p.pid, i as u64)
}

/// The sum of the burst times of a sequence of processes.
pub open spec fn burst_sum(s: Seq<Process>) -> int
    decreases s.len(),
{
    if s.len() == 0 {
        0
    } else {
        burst_sum(s.drop_last()) + s.last().burst_time
    }
}

pub proof fn lemma_burst_sum_nonneg(s: Seq<Process>)
    ensures
        burst_sum(s) >= 0,
    decreases s.len(),
{
    if s.len() > 0 {
        lemma_burst_sum_nonneg(s.drop_last());
    }
}

/// Removing one process removes exactly its burst from the sum.
pub proof fn lemma_burst_sum_remove(s: Seq<Process>, i: int)
    requires
        0 <= i < s.len(),
    ensures
        burst_sum(s.remove(i)) == burst_sum(s) - s[i].burst_time,
    decreases s.len(),
{
    if i == s.len() - 1 {
        assert(s.remove(i) =~= s.drop_last());
    } else {
        lemma_burst_sum_remove(s.drop_last(), i);
        assert(s.remove(i).drop_last() =~= s.drop_last().remove(i));
        assert(s.remove(i).last() == s.last());
    }
}

/// Two sequences whose processes agree pointwise on burst time have the same
/// burst sum.
pub proof fn lemma_burst_sum_pointwise(s1: Seq<Process>, s2: Seq<Process>)
    requires
        s1.len() == s2.len(),
        forall|i: int| 0 <= i < s1.len() ==> s1[i].burst_time == #[trigger] s2[i].burst_time,
    ensures
        burst_sum(s1) == burst_sum(s2),
    decreases s1.len(),
{
    if s1.len() > 0 {
        lemma_burst_sum_pointwise(s1.drop_last(), s2.drop_last());
    }
}

/// The sum of the burst times of the processes named by an index sequence.
pub open spec fn qsum_burst(s: Seq<Process>, q: Seq<int>) -> int
    decreases q.len(),
{
    if q.len() == 0 {
        0
    } else {
        qsum_burst(s, q.drop_last()) + s[q.last()].burst_time
    }
}

pub proof fn lemma_qsum_burst_remove(s: Seq<Process>, q: Seq<int>, m: int)
    requires
        0 <= m < q.len(),
    ensures
        qsum_burst(s, q.remove(m)) == qsum_burst(s, q) - s[q[m]].burst_time,
    decreases q.len(),
{
    if m == q.len() - 1 {
        assert(q.remove(m) =~= q.drop_last());
    } else {
        lemma_qsum_burst_remove(s, q.drop_last(), m);
        assert(q.remove(m).drop_last() =~= q.drop_last().remove(m));
        assert(q.remove(m).last() == q.last());
    }
}

pub proof fn lemma_qsum_burst_nonneg(s: Seq<Process>, q: Seq<int>)
    requires
        forall|k: int| 0 <= k < q.len() ==> 0 <= #[trigger] q[k] < s.len() && s[q[k]].burst_time >= 0,
    ensures
        qsum_burst(s, q) >= 0,
    decreases q.len(),
{
    if q.len() > 0 {
        lemma_qsum_burst_nonneg(s, q.drop_last());
    }
}

/// How many processes in `s` carry the pid `x`.
pub open spec fn pid_count(s: Seq<Process>, x: u64) -> int
    decreases s.len(),
{
    if s.len() == 0 {
        0
    } else {
        pid_count(s.drop_last(), x) + (if s.last().pid == x {
            1int
        } else {
            0int
        })
    }
}

/// The contiguous index sequence `lo, lo + 1, ..., hi - 1`.
pub open spec fn range_seq(lo: int, hi: int) -> Seq<int> {
    Seq::new(non_neg(hi - lo) as nat, |k: int| lo + k)
}

/// `burst_sum` can also be unfolded from the front.
pub proof fn lemma_burst_sum_first(s: Seq<Process>)
    requires
        s.len() > 0,
    ensures
        burst_sum(s) == s[0].burst_time + burst_sum(s.drop_first()),
    decreases s.len(),
{
    if s.len() == 1 {
        assert(s.drop_last() =~= Seq::<Process>::empty());
        assert(s.drop_first() =~= Seq::<Process>::empty());
        assert(burst_sum(Seq::<Process>::empty()) == 0);
    } else {
        lemma_burst_sum_first(s.drop_last());
        assert(s.drop_last().drop_first() =~= s.drop_first().drop_last());
        assert(s.drop_first().last() == s.last());
        assert(burst_sum(s.drop_first()) == burst_sum(s.drop_first().drop_last())
            + s.last().burst_time);
    }
}

/// The total burst of the processes from index `k` on.
pub open spec fn burst_suffix(s: Seq<Process>, k: int) -> int {
    burst_sum(s.subrange(k, s.len() as int))
}

/// Peeling one process off the front of a suffix.
pub proof fn lemma_burst_suffix_step(s: Seq<Process>, k: int)
    requires
        0 <= k < s.len(),
    ensures
        burst_suffix(s, k) == s[k].burst_time + burst_suffix(s, k + 1),
{
    let sub = s.subrange(k, s.len() as int);
    lemma_burst_sum_first(sub);
    assert(sub.drop_first() =~= s.subrange(k + 1, s.len() as int));
}

/// A suffix never sums to more than the whole workload.
pub proof fn lemma_burst_suffix_le(s: Seq<Process>, k: int)
    requires
        0 <= k <= s.len(),
    ensures
        0 <= burst_suffix(s, k) <= burst_sum(s),
    decreases k,
{
    if k == 0 {
        assert(s.subrange(0, s.len() as int) =~= s);
        lemma_burst_sum_nonneg(s);
    } else {
        lemma_burst_suffix_le(s, k - 1);
        lemma_burst_suffix_step(s, k - 1);
        lemma_burst_sum_nonneg(s.subrange(k, s.len() as int));
    }
}

/// The machine limit on a workload: every finish time stays representable,
/// because no simulated instant can exceed some arrival plus the total burst.
pub open spec fn ok_workload(s: Seq<Process>) -> bool {
    forall|i: int| 0 <= i < s.len() ==> #[trigger] s[i].arrival_time + burst_sum(s) <= u64::MAX
}

/// The processes are ordered by arrival time, ties broken by pid.
pub open spec fn arr_pid_le(a: Process, b: Process) -> bool {
    a.arrival_time < b.arrival_time || (a.arrival_time == b.arrival_time && a.pid <= b.pid)
}

pub open spec fn sorted_by_arr_pid(s: Seq<Process>) -> bool {
    forall|i: int, j: int| 0 <= i < j < s.len() ==> arr_pid_le(#[trigger] s[i], #[trigger] s[j])
}

/// Whether the next not-yet-admitted process has arrived by time `t`.
pub open spec fn can_admit(s: Seq<Process>, idx: int, t: int) -> bool {
    0 <= idx < s.len() && s[idx].arrival_time <= t
}

/// The finished record of a process dispatched to completion at time `t`:
/// one contiguous run, so every metric follows from `t` and the burst.
pub open spec fn finish_np(p: Process, t: int) -> Process {
    Process {
        remaining_time: 0,
        waiting_time: (t - p.arrival_time) as u64,
        turn_around_time: (t + p.burst_time - p.arrival_time) as u64,
        section_finish_time: (t + p.burst_time) as u64,
        start_time: t as u64,
        finish_time: (t + p.burst_time) as u64,
        ..p
    }
}

/// No index occurs twice: the shape of the round-robin ready queue.
pub open spec fn distinct_seq(q: Seq<int>) -> bool {
    forall|k: int, l: int| 0 <= k < l < q.len() ==> q[k] != q[l]
}

/// The sum of the remaining times of the processes named by an index
/// sequence.
pub open spec fn qsum_rem(s: Seq<Process>, q: Seq<int>) -> int
    decreases q.len(),
{
    if q.len() == 0 {
        0
    } else {
        qsum_rem(s, q.drop_last()) + s[q.last()].remaining_time
    }
}

pub proof fn lemma_qsum_rem_nonneg(s: Seq<Process>, q: Seq<int>)
    ensures
        qsum_rem(s, q) >= 0,
    decreases q.len(),
{
    if q.len() > 0 {
        lemma_qsum_rem_nonneg(s, q.drop_last());
    }
}

/// `qsum_rem` can also be unfolded from the front.
pub proof fn lemma_qsum_rem_first(s: Seq<Process>, q: Seq<int>)
    requires
        q.len() > 0,
    ensures
        qsum_rem(s, q) == s[q[0]].remaining_time + qsum_rem(s, q.drop_first()),
    decreases q.len(),
{
    if q.len() == 1 {
        assert(q.drop_last() =~= Seq::<int>::empty());
        assert(q.drop_first() =~= Seq::<int>::empty());
        assert(qsum_rem(s, Seq::<int>::empty()) == 0);
    } else {
        lemma_qsum_rem_first(s, q.drop_last());
        assert(q.drop_last().drop_first() =~= q.drop_first().drop_last());
        assert(q.drop_first().last() == q.last());
        assert(qsum_rem(s, q.drop_first()) == qsum_rem(s, q.drop_first().drop_last())
            + s[q.last()].remaining_time);
    }
}

/// Appending an index adds its remaining time to the sum.
pub proof fn lemma_qsum_rem_push(s: Seq<Process>, q: Seq<int>, i: int)
    ensures
        qsum_rem(s, q.push(i)) == qsum_rem(s, q) + s[i].remaining_time,
{
    assert(q.push(i).drop_last() =~= q);
}

/// Removing one index removes exactly its remaining time from the sum.
pub proof fn lemma_qsum_rem_remove(s: Seq<Process>, q: Seq<int>, m: int)
    requires
        0 <= m < q.len(),
    ensures
        qsum_rem(s, q.remove(m)) == qsum_rem(s, q) - s[q[m]].remaining_time,
    decreases q.len(),
{
    if m == q.len() - 1 {
        assert(q.remove(m) =~= q.drop_last());
    } else {
        lemma_qsum_rem_remove(s, q.drop_last(), m);
        assert(q.remove(m).drop_last() =~= q.drop_last().remove(m));
        assert(q.remove(m).last() == q.last());
    }
}

/// The total remaining time of the processes from index `k` on.
pub open spec fn rem_suffix(s: Seq<Process>, k: int) -> int {
    qsum_rem(s, range_seq(k, s.len() as int))
}

/// Splitting a suffix at `b`: the indices in `[a, b)` plus the suffix at `b`.
pub proof fn lemma_rem_suffix_split(s: Seq<Process>, a: int, b: int)
    requires
        0 <= a <= b <= s.len(),
    ensures
        rem_suffix(s, a) == qsum_rem(s, range_seq(a, b)) + rem_suffix(s, b),
    decreases s.len() - a,
{
    if a == b {
        assert(range_seq(a, b) =~= Seq::<int>::empty());
    } else {
        lemma_rem_suffix_split(s, a + 1, b);
        lemma_qsum_rem_first(s, range_seq(a, s.len() as int));
        assert(range_seq(a, s.len() as int).drop_first() =~= range_seq(a + 1, s.len() as int));
        lemma_qsum_rem_first(s, range_seq(a, b));
        assert(range_seq(a, b).drop_first() =~= range_seq(a + 1, b));
    }
}

/// The first index at or after `idx` whose process has not arrived by `t`.
pub open spec fn first_unarrived(s: Seq<Process>, idx: int, t: int) -> int
    decreases non_neg(s.len() - idx),
{
    if !(0 <= idx < s.len()) {
        idx
    } else if s[idx].arrival_time > t {
        idx
    } else {
        first_unarrived(s, idx + 1, t)
    }
}

pub proof fn lemma_first_unarrived(s: Seq<Process>, idx: int, t: int)
    requires
        0 <= idx <= s.len(),
    ensures
        idx <= first_unarrived(s, idx, t) <= s.len(),
        forall|k: int| idx <= k < first_unarrived(s, idx, t) ==> #[trigger] s[k].arrival_time <= t,
        first_unarrived(s, idx, t) < s.len() ==> s[first_unarrived(s, idx, t)].arrival_time > t,
    decreases s.len() - idx,
{
    if 0 <= idx < s.len() && s[idx].arrival_time <= t {
        lemma_first_unarrived(s, idx + 1, t);
    }
}

/// A process after one more time slice: the remaining time shrinks by the
/// slice, the waiting time grows by the gap since it last stopped, and a
/// process that had never run records its start.
pub open spec fn rr_touch(p: Process, t: int, t2: int, run: int) -> Process {
    Process {
        remaining_time: (p.remaining_time - run) as u64,
        waiting_time: (p.waiting_time + (t - p.section_finish_time)) as u64,
        section_finish_time: t2 as u64,
        start_time: if p.section_finish_time == p.arrival_time {
            t as u64
        } else {
            p.start_time
        },
        ..p
    }
}

/// A process that completes at `t2`, having started its final slice at `t`.
pub open spec fn rr_finish(p: Process, t: int, t2: int) -> Process {
    Process {
        remaining_time: 0,
        waiting_time: (t2 - p.arrival_time - p.burst_time) as u64,
        turn_around_time: (t2 - p.arrival_time) as u64,
        section_finish_time: t2 as u64,
        start_time: if p.section_finish_time == p.arrival_time {
            t as u64
        } else {
            p.start_time
        },
        finish_time: t2 as u64,
        ..p
    }
}

/// A process as a preemptive run first sees it: the whole burst remaining,
/// no waiting accrued, and its last stop set to its arrival.
pub open spec fn init_preempt(p: Process) -> Process {
    Process {
        remaining_time: p.burst_time,
        waiting_time: 0,
        turn_around_time: 0,
        section_finish_time: p.arrival_time,
        start_time: 0,
        finish_time: 0,
        ..p
    }
}

/// The queue and admission index are in shape: every queued index is a
/// distinct admitted position of the workload.
pub open spec fn rr_wf(st: Seq<Process>, q: Seq<int>, idx: int) -> bool {
    &&& 0 <= idx <= st.len()
    &&& distinct_seq(q)
    &&& forall|k: int| 0 <= k < q.len() ==> 0 <= #[trigger] q[k] < idx
}

/// The round-robin dispatch machine.  One recursive step admits an arrival,
/// jumps an idle engine to the next arrival, or pops the queue head, runs it
/// for one slice (at most the quantum), admits everything that arrived
/// during the slice, and then either finishes the process or requeues it
/// behind those arrivals.  The result is the segments in execution order and
/// the finished records in completion order.
#[verifier::opaque]
pub open spec fn rr_run(st: Seq<Process>, q: Seq<int>, idx: int, t: int, quantum: int) -> (Seq<
    Event,
>, Seq<Process>)
    decreases
            non_neg(qsum_rem(st, q) + rem_suffix(st, idx)),
            non_neg(st.len() - idx),
            q.len(),
            (if can_admit(st, idx, t) {
                0int
            } else {
                1int
            }),
    via rr_run_decreases
{
    if quantum < 1 || !rr_wf(st, q, idx) {
        (Seq::empty(), Seq::empty())
    } else if can_admit(st, idx, t) {
        rr_run(st, q.push(idx), idx + 1, t, quantum)
    } else if q.len() == 0 {
        if idx < st.len() {
            rr_run(st, q, idx, st[idx].arrival_time as int, quantum)
        } else {
            (Seq::empty(), Seq::empty())
        }
    } else {
        let i = q[0];
        let p = st[i];
        let run = if p.remaining_time <= quantum {
            p.remaining_time as int
        } else {
            quantum
        };
        let t2 = t + run;
        let j = first_unarrived(st, idx, t2);
        let seg = Event { name: Some(p.pid), start_time: t as u64, finish_time: t2 as u64 };
        if p.remaining_time <= quantum {
            let fp = rr_finish(p, t, t2);
            let st2 = st.update(i, fp);
            let rest = rr_run(st2, q.drop_first() + range_seq(idx, j), j, t2, quantum);
            (seq![seg] + rest.0, seq![fp] + rest.1)
        } else {
            let p2 = rr_touch(p, t, t2, run);
            let st2 = st.update(i, p2);
            let rest = rr_run(st2, q.drop_first() + range_seq(idx, j) + seq![i], j, t2, quantum);
            (seq![seg] + rest.0, rest.1)
        }
    }
}

#[via_fn]
proof fn rr_run_decreases(st: Seq<Process>, q: Seq<int>, idx: int, t: int, quantum: int) {
    if quantum >= 1 && rr_wf(st, q, idx) {
        lemma_qsum_rem_nonneg(st, q);
        if can_admit(st, idx, t) {
            lemma_qsum_rem_push(st, q, idx);
            lemma_rem_suffix_split(st, idx, idx + 1);
            lemma_qsum_rem_first(st, range_seq(idx, idx + 1));
            assert(range_seq(idx, idx + 1).drop_first() =~= Seq::<int>::empty());
            assert(qsum_rem(st, Seq::<int>::empty()) == 0);
            lemma_qsum_rem_nonneg(st, range_seq(idx + 1, st.len() as int));
        } else if q.len() == 0 {
        } else {
            let i = q[0];
            let p = st[i];
            let run = if p.remaining_time <= quantum {
                p.remaining_time as int
            } else {
                quantum
            };
            let t2 = t + run;
            let j = first_unarrived(st, idx, t2);
            lemma_first_unarrived(st, idx, t2);
            let qd = q.drop_first();
            assert(forall|k: int| 0 <= k < qd.len() ==> #[trigger] qd[k] == q[k + 1]);
            assert(forall|k: int| 0 <= k < qd.len() ==> #[trigger] qd[k] != i);
            lemma_qsum_rem_first(st, q);
            lemma_rem_suffix_split(st, idx, j);
            if p.remaining_time <= quantum {
                let fp = rr_finish(p, t, t2);
                let st2 = st.update(i, fp);
                rr_step_sums(st, st2, q, i, idx, j);
                let q2 = qd + range_seq(idx, j);
                lemma_qsum_rem_split(st2, qd, range_seq(idx, j));
                lemma_qsum_rem_nonneg(st2, q2);
                lemma_qsum_rem_nonneg(st2, range_seq(j, st2.len() as int));
            } else {
                let p2 = rr_touch(p, t, t2, run);
                let st2 = st.update(i, p2);
                rr_step_sums(st, st2, q, i, idx, j);
                let q2 = qd + range_seq(idx, j) + seq![i];
                lemma_qsum_rem_split(st2, qd + range_seq(idx, j), seq![i]);
                lemma_qsum_rem_split(st2, qd, range_seq(idx, j));
                assert(qsum_rem(st2, seq![i]) == st2[i].remaining_time) by {
                    assert(seq![i].drop_last() =~= Seq::<int>::empty());
                    assert(qsum_rem(st2, Seq::<int>::empty()) == 0);
                }
                assert(st2[i].remaining_time == p.remaining_time - run);
                lemma_qsum_rem_nonneg(st2, q2);
                lemma_qsum_rem_nonneg(st2, range_seq(j, st2.len() as int));
            }
        }
    }
}

/// Concatenation splits a remaining-time sum.
pub proof fn lemma_qsum_rem_split(s: Seq<Process>, a: Seq<int>, b: Seq<int>)
    ensures
        qsum_rem(s, a + b) == qsum_rem(s, a) + qsum_rem(s, b),
    decreases b.len(),
{
    if b.len() == 0 {
        assert(a + b =~= a);
    } else {
        lemma_qsum_rem_split(s, a, b.drop_last());
        assert((a + b).drop_last() =~= a + b.drop_last());
        assert((a + b).last() == b.last());
    }
}

/// The shared sum accounting of one dispatch step: the updated process is
/// not in the rest of the queue nor in the unadmitted suffix, so only its
/// own contribution changes.
proof fn rr_step_sums(st: Seq<Process>, st2: Seq<Process>, q: Seq<int>, i: int, idx: int, j: int)
    requires
        rr_wf(st, q, idx),
        q.len() >= 1,
        i == q[0],
        idx <= j <= st.len(),
        st2.len() == st.len(),
        forall|k: int| 0 <= k < st.len() && k != i ==> st2[k] == st[k],
    ensures
        qsum_rem(st2, q.drop_first()) == qsum_rem(st, q.drop_first()),
        qsum_rem(st2, range_seq(idx, j)) == qsum_rem(st, range_seq(idx, j)),
        rem_suffix(st2, j) == rem_suffix(st, j),
        rem_suffix(st, idx) == qsum_rem(st, range_seq(idx, j)) + rem_suffix(st, j),
{
    let qd = q.drop_first();
    assert(forall|k: int| 0 <= k < qd.len() ==> #[trigger] qd[k] == q[k + 1]);
    lemma_qsum_rem_same(st, st2, qd);
    lemma_qsum_rem_same(st, st2, range_seq(idx, j));
    lemma_qsum_rem_same(st, st2, range_seq(j, st.len() as int));
    lemma_rem_suffix_split(st, idx, j);
}

/// Two workloads that agree on every index a queue names give it the same
/// remaining-time sum.
proof fn lemma_qsum_rem_same(s1: Seq<Process>, s2: Seq<Process>, q: Seq<int>)
    requires
        forall|k: int| 0 <= k < q.len() ==> s1[#[trigger] q[k]] == s2[q[k]],
    ensures
        qsum_rem(s1, q) == qsum_rem(s2, q),
    decreases q.len(),
{
    if q.len() > 0 {
        lemma_qsum_rem_same(s1, s2, q.drop_last());
    }
}

/// A whole workload as a preemptive run first sees it.
pub open spec fn init_preempt_seq(s: Seq<Process>) -> Seq<Process> {
    s.map_values(|p: Process| init_preempt(p))
}

/// Peeling one process off the front of a remaining-time suffix.
pub proof fn lemma_rem_suffix_step(st: Seq<Process>, k: int)
    requires
        0 <= k < st.len(),
    ensures
        rem_suffix(st, k) == st[k].remaining_time + rem_suffix(st, k + 1),
{
    lemma_rem_suffix_split(st, k, k + 1);
    lemma_qsum_rem_first(st, range_seq(k, k + 1));
    assert(range_seq(k, k + 1).drop_first() =~= Seq::<int>::empty());
    assert(qsum_rem(st, Seq::<int>::empty()) == 0);
}

/// Where every process from `k` on still has its whole burst remaining, the
/// remaining-time suffix is the burst-time suffix.
pub proof fn lemma_rem_suffix_as_burst(st: Seq<Process>, s: Seq<Process>, k: int)
    requires
        st.len() == s.len(),
        0 <= k <= s.len(),
        forall|j: int| k <= j < s.len() ==> #[trigger] st[j].remaining_time == s[j].burst_time,
    ensures
        rem_suffix(st, k) == burst_suffix(s, k),
    decreases s.len() - k,
{
    if k == s.len() {
        assert(range_seq(k, st.len() as int) =~= Seq::<int>::empty());
        assert(s.subrange(k, s.len() as int) =~= Seq::<Process>::empty());
        assert(burst_sum(Seq::<Process>::empty()) == 0);
    } else {
        lemma_rem_suffix_as_burst(st, s, k + 1);
        lemma_rem_suffix_step(st, k);
        lemma_burst_suffix_step(s, k);
    }
}

/// Admitting a stretch of arrived processes, one step at a time, does not
/// change the round-robin run.
pub proof fn lemma_rr_admits(st: Seq<Process>, q: Seq<int>, idx: int, t: int, quantum: int, j: int)
    requires
        quantum >= 1,
        rr_wf(st, q, idx),
        idx <= j <= st.len(),
        forall|k: int| idx <= k < j ==> #[trigger] st[k].arrival_time <= t,
    ensures
        rr_run(st, q, idx, t, quantum) == rr_run(st, q + range_seq(idx, j), j, t, quantum),
    decreases j - idx,
{
    reveal(rr_run);
    if idx == j {
        assert(q + range_seq(idx, j) =~= q);
    } else {
        assert(can_admit(st, idx, t));
        assert(rr_run(st, q, idx, t, quantum) == rr_run(st, q.push(idx), idx + 1, t, quantum));
        assert(rr_wf(st, q.push(idx), idx + 1));
        lemma_rr_admits(st, q.push(idx), idx + 1, t, quantum, j);
        assert(q.push(idx) + range_seq(idx + 1, j) =~= q + range_seq(idx, j));
    }
}

/// One dispatch step of the round-robin machine, as the executable loop
/// takes it: the head of the queue runs for `run`, the arrivals during the
/// slice are admitted, and the head either finishes or is requeued behind
/// them.
pub proof fn lemma_rr_dispatch(
    st: Seq<Process>,
    q: Seq<int>,
    idx: int,
    t: int,
    quantum: int,
    run: int,
    t2: int,
    j: int,
)
    requires
        quantum >= 1,
        rr_wf(st, q, idx),
        q.len() >= 1,
        !can_admit(st, idx, t),
        run == (if st[q[0]].remaining_time <= quantum {
            st[q[0]].remaining_time as int
        } else {
            quantum
        }),
        t2 == t + run,
        j == first_unarrived(st, idx, t2),
    ensures
        idx <= j <= st.len(),
        forall|k: int| idx <= k < j ==> #[trigger] st[k].arrival_time <= t2,
        j < st.len() ==> st[j].arrival_time > t2,
        qsum_rem(st, q) == st[q[0]].remaining_time + qsum_rem(st, q.drop_first()),
        qsum_rem(st, q.drop_first()) >= 0,
        st[q[0]].remaining_time <= quantum ==> ({
            let fp = rr_finish(st[q[0]], t, t2);
            let st2 = st.update(q[0], fp);
            let q2 = q.drop_first() + range_seq(idx, j);
            let seg = (Event {
                name: Some(st[q[0]].pid),
                start_time: t as u64,
                finish_time: t2 as u64,
            });
            &&& rr_run(st, q, idx, t, quantum).0 == seq![seg] + rr_run(st2, q2, j, t2, quantum).0
            &&& rr_run(st, q, idx, t, quantum).1 == seq![fp] + rr_run(st2, q2, j, t2, quantum).1
            &&& rr_wf(st2, q2, j)
            &&& qsum_rem(st2, q2) + rem_suffix(st2, j) == qsum_rem(st, q) + rem_suffix(st, idx)
                - run
        }),
        st[q[0]].remaining_time > quantum ==> ({
            let p2 = rr_touch(st[q[0]], t, t2, run);
            let st2 = st.update(q[0], p2);
            let q2 = q.drop_first() + range_seq(idx, j) + seq![q[0]];
            let seg = (Event {
                name: Some(st[q[0]].pid),
                start_time: t as u64,
                finish_time: t2 as u64,
            });
            &&& rr_run(st, q, idx, t, quantum).0 == seq![seg] + rr_run(st2, q2, j, t2, quantum).0
            &&& rr_run(st, q, idx, t, quantum).1 == rr_run(st2, q2, j, t2, quantum).1
            &&& rr_wf(st2, q2, j)
            &&& qsum_rem(st2, q2) + rem_suffix(st2, j) == qsum_rem(st, q) + rem_suffix(st, idx)
                - run
        }),
{
    reveal(rr_run);
    lemma_first_unarrived(st, idx, t2);
    lemma_qsum_rem_first(st, q);
    lemma_qsum_rem_nonneg(st, q.drop_first());
    let i = q[0];
    let p = st[i];
    let qd = q.drop_first();
    assert(forall|k: int| 0 <= k < qd.len() ==> #[trigger] qd[k] == q[k + 1]);
    if p.remaining_time <= quantum {
        let fp = rr_finish(p, t, t2);
        let st2 = st.update(i, fp);
        let q2 = qd + range_seq(idx, j);
        rr_step_sums(st, st2, q, i, idx, j);
        lemma_qsum_rem_split(st2, qd, range_seq(idx, j));
        assert(st2[i].remaining_time == 0);
        assert(rr_wf(st2, q2, j)) by {
            assert(forall|k: int| 0 <= k < q2.len() ==> 0 <= #[trigger] q2[k] < j);
        }
    } else {
        let p2 = rr_touch(p, t, t2, run);
        let st2 = st.update(i, p2);
        let q2 = qd + range_seq(idx, j) + seq![i];
        rr_step_sums(st, st2, q, i, idx, j);
        lemma_qsum_rem_split(st2, qd + range_seq(idx, j), seq![i]);
        lemma_qsum_rem_split(st2, qd, range_seq(idx, j));
        assert(qsum_rem(st2, seq![i]) == st2[i].remaining_time) by {
            assert(seq![i].drop_last() =~= Seq::<int>::empty());
            assert(qsum_rem(st2, Seq::<int>::empty()) == 0);
        }
        assert(st2[i].remaining_time == p.remaining_time - run);
        assert(rr_wf(st2, q2, j)) by {
            assert(forall|k: int| 0 <= k < q2.len() ==> 0 <= #[trigger] q2[k] < j);
            assert(forall|k: int| 0 <= k < qd.len() ==> #[trigger] q2[k] == qd[k]);
        }
    }
}

/// The queue and admission index of the event-driven machine are in shape:
/// the ready set holds strictly increasing admitted positions.
pub open spec fn pe_wf(st: Seq<Process>, q: Seq<int>, idx: int) -> bool {
    &&& 0 <= idx <= st.len()
    &&& inc_indices(q, idx)
}

/// The event-driven preemptive machine behind shortest-remaining-time-first
/// and preemptive priority.  At each step the ready process with the
/// smallest key runs until it completes or the next process arrives,
/// whichever comes first; at an arrival the choice is re-evaluated, which
/// preempts the running process exactly when the newcomer has a smaller key.
/// Each step emits one raw segment; `merge_adjacent` joins the segments of
/// an uninterrupted run afterwards.
#[verifier::opaque]
pub open spec fn pe_run(pol: Policy, st: Seq<Process>, q: Seq<int>, idx: int, t: int) -> (Seq<
    Event,
>, Seq<Process>)
    decreases
            non_neg(qsum_rem(st, q) + rem_suffix(st, idx)),
            non_neg(st.len() - idx),
            q.len(),
            (if can_admit(st, idx, t) {
                0int
            } else {
                1int
            }),
    via pe_run_decreases
{
    if !pe_wf(st, q, idx) {
        (Seq::empty(), Seq::empty())
    } else if can_admit(st, idx, t) {
        pe_run(pol, st, q.push(idx), idx + 1, t)
    } else if q.len() == 0 {
        if idx < st.len() {
            pe_run(pol, st, q, idx, st[idx].arrival_time as int)
        } else {
            (Seq::empty(), Seq::empty())
        }
    } else {
        let m = sel_pos_in(pol, st, q);
        let i = q[m];
        let p = st[i];
        let t2 = if idx < st.len() && (st[idx].arrival_time as int) < t + p.remaining_time {
            st[idx].arrival_time as int
        } else {
            t + p.remaining_time
        };
        let run = t2 - t;
        let j = first_unarrived(st, idx, t2);
        let seg = Event { name: Some(p.pid), start_time: t as u64, finish_time: t2 as u64 };
        if run == p.remaining_time {
            let fp = rr_finish(p, t, t2);
            let st2 = st.update(i, fp);
            let rest = pe_run(pol, st2, q.remove(m) + range_seq(idx, j), j, t2);
            (seq![seg] + rest.0, seq![fp] + rest.1)
        } else {
            let p2 = rr_touch(p, t, t2, run);
            let st2 = st.update(i, p2);
            let rest = pe_run(pol, st2, q + range_seq(idx, j), j, t2);
            (seq![seg] + rest.0, rest.1)
        }
    }
}

#[via_fn]
proof fn pe_run_decreases(pol: Policy, st: Seq<Process>, q: Seq<int>, idx: int, t: int) {
    if pe_wf(st, q, idx) {
        lemma_qsum_rem_nonneg(st, q);
        if can_admit(st, idx, t) {
            lemma_qsum_rem_push(st, q, idx);
            lemma_rem_suffix_step(st, idx);
            lemma_qsum_rem_nonneg(st, range_seq(idx + 1, st.len() as int));
        } else if q.len() == 0 {
        } else {
            lemma_sel_pos_min(pol, st, q);
            let m = sel_pos_in(pol, st, q);
            let i = q[m];
            let p = st[i];
            let t2 = if idx < st.len() && (st[idx].arrival_time as int) < t + p.remaining_time {
                st[idx].arrival_time as int
            } else {
                t + p.remaining_time
            };
            let run = t2 - t;
            let j = first_unarrived(st, idx, t2);
            lemma_first_unarrived(st, idx, t2);
            lemma_qsum_rem_remove(st, q, m);
            lemma_rem_suffix_split(st, idx, j);
            if run == p.remaining_time {
                let fp = rr_finish(p, t, t2);
                let st2 = st.update(i, fp);
                let qr = q.remove(m);
                assert(forall|k: int|
                    0 <= k < qr.len() ==> #[trigger] qr[k] == (if k < m {
                        q[k]
                    } else {
                        q[k + 1]
                    }));
                lemma_qsum_rem_same(st, st2, qr);
                lemma_qsum_rem_same(st, st2, range_seq(idx, j));
                lemma_qsum_rem_same(st, st2, range_seq(j, st.len() as int));
                lemma_qsum_rem_split(st2, qr, range_seq(idx, j));
                lemma_qsum_rem_nonneg(st2, qr + range_seq(idx, j));
                lemma_qsum_rem_nonneg(st2, range_seq(j, st2.len() as int));
            } else {
                let p2 = rr_touch(p, t, t2, run);
                let st2 = st.update(i, p2);
                lemma_qsum_rem_remove(st2, q, m);
                let qr = q.remove(m);
                assert(forall|k: int|
                    0 <= k < qr.len() ==> #[trigger] qr[k] == (if k < m {
                        q[k]
                    } else {
                        q[k + 1]
                    }));
                lemma_qsum_rem_same(st, st2, qr);
                lemma_qsum_rem_same(st, st2, range_seq(idx, j));
                lemma_qsum_rem_same(st, st2, range_seq(j, st.len() as int));
                assert(qsum_rem(st2, q) == qsum_rem(st, q) - run) by {
                    assert(st2[i].remaining_time == p.remaining_time - run);
                }
                lemma_qsum_rem_split(st2, q, range_seq(idx, j));
                lemma_qsum_rem_nonneg(st2, q + range_seq(idx, j));
                lemma_qsum_rem_nonneg(st2, range_seq(j, st2.len() as int));
            }
        }
    }
}

/// Admitting a stretch of arrived processes, one step at a time, does not
/// change the event-driven run.
pub proof fn lemma_pe_admits(pol: Policy, st: Seq<Process>, q: Seq<int>, idx: int, t: int, j: int)
    requires
        pe_wf(st, q, idx),
        idx <= j <= st.len(),
        forall|k: int| idx <= k < j ==> #[trigger] st[k].arrival_time <= t,
    ensures
        pe_run(pol, st, q, idx, t) == pe_run(pol, st, q + range_seq(idx, j), j, t),
    decreases j - idx,
{
    reveal(pe_run);
    if idx == j {
        assert(q + range_seq(idx, j) =~= q);
    } else {
        assert(can_admit(st, idx, t));
        assert(pe_run(pol, st, q, idx, t) == pe_run(pol, st, q.push(idx), idx + 1, t));
        assert(pe_wf(st, q.push(idx), idx + 1));
        lemma_pe_admits(pol, st, q.push(idx), idx + 1, t, j);
        assert(q.push(idx) + range_seq(idx + 1, j) =~= q + range_seq(idx, j));
    }
}

/// One dispatch step of the event-driven machine, as the executable loop
/// takes it: the ready process with the smallest key runs until it finishes
/// or the next arrival preempts the choice.
pub proof fn lemma_pe_dispatch(
    pol: Policy,
    st: Seq<Process>,
    q: Seq<int>,
    idx: int,
    t: int,
    m: int,
    run: int,
    t2: int,
    j: int,
)
    requires
        st.len() <= u64::MAX as int + 1,
        pe_wf(st, q, idx),
        q.len() >= 1,
        !can_admit(st, idx, t),
        0 <= m < q.len(),
        forall|l: int|
            0 <= l < q.len() ==> lex4_le(key_at(pol, st, q[m]), key_at(pol, st, #[trigger] q[l])),
        t2 == (if idx < st.len() && (st[idx].arrival_time as int) < t + st[q[m]].remaining_time {
            st[idx].arrival_time as int
        } else {
            t + st[q[m]].remaining_time
        }),
        run == t2 - t,
        j == first_unarrived(st, idx, t2),
    ensures
        sel_pos_in(pol, st, q) == m,
        idx <= j <= st.len(),
        forall|k: int| idx <= k < j ==> #[trigger] st[k].arrival_time <= t2,
        j < st.len() ==> st[j].arrival_time > t2,
        0 <= run <= st[q[m]].remaining_time,
        st[q[m]].remaining_time <= qsum_rem(st, q),
        run == st[q[m]].remaining_time ==> ({
            let fp = rr_finish(st[q[m]], t, t2);
            let st2 = st.update(q[m], fp);
            let q2 = q.remove(m) + range_seq(idx, j);
            let seg = (Event {
                name: Some(st[q[m]].pid),
                start_time: t as u64,
                finish_time: t2 as u64,
            });
            &&& pe_run(pol, st, q, idx, t).0 == seq![seg] + pe_run(pol, st2, q2, j, t2).0
            &&& pe_run(pol, st, q, idx, t).1 == seq![fp] + pe_run(pol, st2, q2, j, t2).1
            &&& pe_wf(st2, q2, j)
            &&& qsum_rem(st2, q2) + rem_suffix(st2, j) == qsum_rem(st, q) + rem_suffix(st, idx)
                - run
        }),
        run < st[q[m]].remaining_time ==> ({
            let p2 = rr_touch(st[q[m]], t, t2, run);
            let st2 = st.update(q[m], p2);
            let q2 = q + range_seq(idx, j);
            let seg = (Event {
                name: Some(st[q[m]].pid),
                start_time: t as u64,
                finish_time: t2 as u64,
            });
            &&& pe_run(pol, st, q, idx, t).0 == seq![seg] + pe_run(pol, st2, q2, j, t2).0
            &&& pe_run(pol, st, q, idx, t).1 == pe_run(pol, st2, q2, j, t2).1
            &&& pe_wf(st2, q2, j)
            &&& qsum_rem(st2, q2) + rem_suffix(st2, j) == qsum_rem(st, q) + rem_suffix(st, idx)
                - run
        }),
{
    reveal(pe_run);
    lemma_sel_pos_unique(pol, st, q, m);
    lemma_first_unarrived(st, idx, t2);
    lemma_qsum_rem_remove(st, q, m);
    lemma_qsum_rem_nonneg(st, q.remove(m));
    lemma_rem_suffix_split(st, idx, j);
    let i = q[m];
    let p = st[i];
    let qr = q.remove(m);
    assert(forall|k: int|
        0 <= k < qr.len() ==> #[trigger] qr[k] == (if k < m {
            q[k]
        } else {
            q[k + 1]
        }));
    if run == p.remaining_time {
        let fp = rr_finish(p, t, t2);
        let st2 = st.update(i, fp);
        lemma_qsum_rem_same(st, st2, qr);
        lemma_qsum_rem_same(st, st2, range_seq(idx, j));
        lemma_qsum_rem_same(st, st2, range_seq(j, st.len() as int));
        lemma_qsum_rem_split(st2, qr, range_seq(idx, j));
        assert(pe_wf(st2, qr + range_seq(idx, j), j)) by {
            assert(forall|k: int|
                0 <= k < (qr + range_seq(idx, j)).len() ==> 0 <= #[trigger] (qr + range_seq(
                    idx,
                    j,
                ))[k] < j);
        }
    } else {
        let p2 = rr_touch(p, t, t2, run);
        let st2 = st.update(i, p2);
        lemma_qsum_rem_remove(st2, q, m);
        lemma_qsum_rem_same(st, st2, qr);
        lemma_qsum_rem_same(st, st2, range_seq(idx, j));
        lemma_qsum_rem_same(st, st2, range_seq(j, st.len() as int));
        assert(qsum_rem(st2, q) == qsum_rem(st, q) - run) by {
            assert(st2[i].remaining_time == p.remaining_time - run);
        }
        lemma_qsum_rem_split(st2, q, range_seq(idx, j));
        assert(pe_wf(st2, q + range_seq(idx, j), j)) by {
            assert(forall|k: int|
                0 <= k < (q + range_seq(idx, j)).len() ==> 0 <= #[trigger] (q + range_seq(
                    idx,
                    j,
                ))[k] < j);
        }
    }
}

/// Compares two dispatch keys strictly, in the lexicographic order std
/// derives for 4-tuples.
pub fn lex4_lt_exec(a: (u64, u64, u64, u64), b: (u64, u64, u64, u64)) -> (r: bool)
    ensures
        r == (lex4_le(a, b) && a != b),
{
    a.0 < b.0 || (a.0 == b.0 && (a.1 < b.1 || (a.1 == b.1 && (a.2 < b.2 || (a.2 == b.2 && a.3
        < b.3)))))
}

/// Joins adjacent segments of the same process into one: the shape of an
/// uninterrupted run across arrival events that do not preempt.
pub open spec fn merge_adjacent(segs: Seq<Event>) -> Seq<Event>
    decreases segs.len(),
{
    if segs.len() == 0 {
        Seq::empty()
    } else {
        let m = merge_adjacent(segs.drop_last());
        let e = segs.last();
        if m.len() > 0 && m.last().name == e.name && m.last().finish_time == e.start_time {
            m.update(
                m.len() - 1,
                Event { name: e.name, start_time: m.last().start_time, finish_time: e.finish_time },
            )
        } else {
            m.push(e)
        }
    }
}

/// The non-preemptive dispatch machine.  One recursive step either admits
/// the next arrived process into the ready queue, jumps an idle engine to
/// the next arrival, or dispatches the ready process with the smallest key
/// to completion.  The result is the finished records in dispatch order.
#[verifier::opaque]
pub open spec fn np_run(pol: Policy, s: Seq<Process>, q: Seq<int>, idx: int, t: int) -> Seq<Process>
    decreases q.len() + non_neg(s.len() - idx), non_neg(s.len() - idx), (if can_admit(s, idx, t) { 0int } else { 1int }),
{
    if can_admit(s, idx, t) {
        np_run(pol, s, q.push(idx), idx + 1, t)
    } else if q.len() == 0 {
        if 0 <= idx < s.len() {
            np_run(pol, s, q, idx, s[idx].arrival_time as int)
        } else {
            Seq::empty()
        }
    } else {
        let m = sel_pos_in(pol, s, q);
        let i = q[m];
        seq![finish_np(s[i], t)] + np_run(pol, s, q.remove(m), idx, t + s[i].burst_time)
    }
}

} // verus!
