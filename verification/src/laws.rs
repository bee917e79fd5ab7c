//! The laws of the scheduling disciplines, proved once over the dispatch
//! machines that the engines' contracts are stated with: the exact metric
//! identities of every finished process, and the ordering of the execution
//! segments of a preemptive run.

use vstd::prelude::*;

use crate::model::{
    burst_sum, burst_suffix, can_admit, first_unarrived, inc_indices, lemma_burst_suffix_le,
    lemma_burst_suffix_step, lemma_qsum_burst_nonneg, lemma_qsum_burst_remove,
    lemma_qsum_rem_nonneg, lemma_qsum_rem_push, lemma_rem_suffix_split, lemma_rem_suffix_step,
    lemma_rr_dispatch, lemma_sel_pos_min, non_neg, np_run, ok_workload, qsum_burst, qsum_rem,
    range_seq, rem_suffix, rr_finish, rr_run, rr_touch, rr_wf, sel_pos_in, Policy,
};
use crate::preemptive::rr_tracked;
use crate::process::Process;

verus! {

/// The exact metric identities of a finished record: turnaround is finish
/// minus arrival, and waiting is turnaround minus burst.
pub open spec fn metrics_exact(r: Process) -> bool {
    &&& r.turn_around_time == r.finish_time - r.arrival_time
    &&& r.waiting_time == r.turn_around_time - r.burst_time
}

/// Under any non-preemptive policy, every finished record satisfies the
/// exact metric identities: the machine dispatches only arrived processes,
/// and the workload bound keeps every finish time representable.
pub proof fn law_np_metrics(pol: Policy, s: Seq<Process>, q: Seq<int>, idx: int, t: int)
    requires
        ok_workload(s),
        inc_indices(q, s.len() as int),
        0 <= idx <= s.len(),
        forall|k: int| 0 <= k < q.len() ==> #[trigger] q[k] < idx,
        forall|k: int| 0 <= k < q.len() ==> s[#[trigger] q[k]].arrival_time <= t,
        0 <= t,
        t + qsum_burst(s, q) + burst_suffix(s, idx) <= u64::MAX,
    ensures
        forall|k: int|
            0 <= k < np_run(pol, s, q, idx, t).len() ==> metrics_exact(
                #[trigger] np_run(pol, s, q, idx, t)[k],
            ),
    decreases q.len() + non_neg(s.len() - idx), non_neg(s.len() - idx), (if can_admit(s, idx, t) {
        0int
    } else {
        1int
    }),
{
    reveal(np_run);
    lemma_qsum_burst_nonneg(s, q);
    lemma_burst_suffix_le(s, idx);
    if can_admit(s, idx, t) {
        assert(qsum_burst(s, q.push(idx)) == qsum_burst(s, q) + s[idx].burst_time) by {
            assert(q.push(idx).drop_last() =~= q);
        }
        lemma_burst_suffix_step(s, idx);
        law_np_metrics(pol, s, q.push(idx), idx + 1, t);
        let out = np_run(pol, s, q, idx, t);
        let out2 = np_run(pol, s, q.push(idx), idx + 1, t);
        assert(out == out2);
        assert forall|k: int| 0 <= k < out.len() implies metrics_exact(#[trigger] out[k]) by {
            assert(out[k] == out2[k]);
        }
    } else if q.len() == 0 {
        if idx < s.len() {
            assert(s[idx].arrival_time + burst_sum(s) <= u64::MAX);
            assert(qsum_burst(s, q) == 0);
            law_np_metrics(pol, s, q, idx, s[idx].arrival_time as int);
            let out = np_run(pol, s, q, idx, t);
            let out2 = np_run(pol, s, q, idx, s[idx].arrival_time as int);
            assert(out == out2);
            assert forall|k: int| 0 <= k < out.len() implies metrics_exact(#[trigger] out[k]) by {
                assert(out[k] == out2[k]);
            }
        }
    } else {
        lemma_sel_pos_min(pol, s, q);
        let m = sel_pos_in(pol, s, q);
        let i = q[m];
        lemma_qsum_burst_remove(s, q, m);
        let q2 = q.remove(m);
        assert(forall|l: int|
            0 <= l < q2.len() ==> #[trigger] q2[l] == (if l < m {
                q[l]
            } else {
                q[l + 1]
            }));
        lemma_qsum_burst_nonneg(s, q2);
        let rec = crate::model::finish_np(s[i], t);
        assert(metrics_exact(rec));
        law_np_metrics(pol, s, q2, idx, t + s[i].burst_time);
        let out = np_run(pol, s, q, idx, t);
        let rest = np_run(pol, s, q2, idx, t + s[i].burst_time);
        assert(out == seq![rec] + rest);
        assert forall|k: int| 0 <= k < out.len() implies metrics_exact(#[trigger] out[k]) by {
            if k >= 1 {
                assert(out[k] == rest[k - 1]);
            }
        }
    }
}

/// The state of a running round-robin machine as its laws see it: faithful
/// waiting-time bookkeeping and a positive remaining time for every queued
/// process, untouched state and a positive burst for every unarrived one,
/// and representable times throughout.
pub open spec fn rr_law_state(st: Seq<Process>, q: Seq<int>, idx: int, t: int) -> bool {
    &&& rr_wf(st, q, idx)
    &&& (forall|k: int|
        0 <= k < q.len() ==> rr_tracked(st[#[trigger] q[k]], t) && st[q[k]].remaining_time >= 1)
    &&& (forall|j: int|
        idx <= j < st.len() ==> (#[trigger] st[j].remaining_time) == st[j].burst_time && st[
            j
        ].section_finish_time == st[j].arrival_time && st[j].waiting_time == 0 && st[
            j
        ].burst_time >= 1 && st[j].arrival_time + rem_suffix(st, idx) <= u64::MAX)
    &&& 0 <= t
    &&& t + qsum_rem(st, q) + rem_suffix(st, idx) <= u64::MAX
}

/// The laws of a round-robin run: every finished record satisfies the exact
/// metric identities, and the execution segments are non-empty, start no
/// earlier than the current time, and never overlap — later segments begin
/// no earlier than earlier ones end, whether or not they belong to the same
/// process.
pub proof fn law_rr_run(st: Seq<Process>, q: Seq<int>, idx: int, t: int, quantum: int)
    requires
        quantum >= 1,
        rr_law_state(st, q, idx, t),
    ensures
        forall|k: int|
            0 <= k < rr_run(st, q, idx, t, quantum).1.len() ==> metrics_exact(
                #[trigger] rr_run(st, q, idx, t, quantum).1[k],
            ),
        forall|k: int|
            0 <= k < rr_run(st, q, idx, t, quantum).0.len() ==> (#[trigger] rr_run(
                st,
                q,
                idx,
                t,
                quantum,
            ).0[k]).start_time < rr_run(st, q, idx, t, quantum).0[k].finish_time && rr_run(
                st,
                q,
                idx,
                t,
                quantum,
            ).0[k].start_time >= t,
        forall|k: int, l: int|
            0 <= k < l < rr_run(st, q, idx, t, quantum).0.len() ==> (#[trigger] rr_run(
                st,
                q,
                idx,
                t,
                quantum,
            ).0[k]).finish_time <= (#[trigger] rr_run(st, q, idx, t, quantum).0[l]).start_time,
    decreases
            non_neg(qsum_rem(st, q) + rem_suffix(st, idx)),
            non_neg(st.len() - idx),
            q.len(),
            (if can_admit(st, idx, t) {
                0int
            } else {
                1int
            }),
{
    reveal(rr_run);
    lemma_qsum_rem_nonneg(st, q);
    let out = rr_run(st, q, idx, t, quantum);
    if can_admit(st, idx, t) {
        lemma_qsum_rem_push(st, q, idx);
        lemma_rem_suffix_step(st, idx);
        lemma_qsum_rem_nonneg(st, range_seq(idx + 1, st.len() as int));
        assert(rr_law_state(st, q.push(idx), idx + 1, t)) by {
            assert(forall|j: int|
                idx + 1 <= j < st.len() ==> st[j].arrival_time + rem_suffix(st, idx + 1) <= st[
                    j
                ].arrival_time + rem_suffix(st, idx));
        }
        law_rr_run(st, q.push(idx), idx + 1, t, quantum);
    } else if q.len() == 0 {
        if idx < st.len() {
            let t2 = st[idx].arrival_time as int;
            assert(qsum_rem(st, q) == 0);
            assert(st[idx].remaining_time == st[idx].burst_time);
            assert(rr_law_state(st, q, idx, t2));
            law_rr_run(st, q, idx, t2, quantum);
            assert forall|k: int| 0 <= k < out.0.len() implies (#[trigger] out.0[k]).start_time
                < out.0[k].finish_time && out.0[k].start_time >= t by {
                assert(out.0[k].start_time >= t2 >= t);
            }
        }
    } else {
        let i = q[0];
        let p = st[i];
        let run: int = if p.remaining_time <= quantum {
            p.remaining_time as int
        } else {
            quantum as int
        };
        let t2 = t + run;
        let j = first_unarrived(st, idx, t2);
        lemma_rr_dispatch(st, q, idx, t, quantum, run, t2, j);
        proof_nonneg_sums(st, q, idx);
        let qd = q.drop_first();
        assert(forall|k: int| 0 <= k < qd.len() ==> #[trigger] qd[k] == q[k + 1]);
        if p.remaining_time <= quantum {
            let fp = rr_finish(p, t, t2);
            let st2 = st.update(i, fp);
            let q2 = qd + range_seq(idx, j);
            assert(metrics_exact(fp)) by {
                assert(rr_tracked(st[q[0]], t));
                assert(p.burst_time - p.remaining_time <= t - p.arrival_time);
                assert(t2 <= u64::MAX);
            }
            assert(!q2.contains(i)) by {
                assert(forall|k: int| 0 <= k < q2.len() ==> #[trigger] q2[k] != i);
            }
            assert(forall|k: int|
                0 <= k < q2.len() ==> (#[trigger] q2[k] == i || qd.contains(q2[k]) || (idx <= q2[k]
                    < j))) by {
                assert(forall|k: int| 0 <= k < qd.len() ==> qd.contains(#[trigger] qd[k]));
            }
            law_rr_step(st, st2, q, q2, idx, j, t, t2, quantum);
            proof_nonneg_sums(st2, q2, j);
            law_rr_run(st2, q2, j, t2, quantum);
            let rest = rr_run(st2, q2, j, t2, quantum);
            assert(out.1 == seq![fp] + rest.1);
            assert forall|k: int| 0 <= k < out.1.len() implies metrics_exact(#[trigger] out.1[k]) by {
                if k >= 1 {
                    assert(out.1[k] == rest.1[k - 1]);
                }
            }
            law_rr_segments_glue(out.0, rest.0, t, t2);
        } else {
            let p2 = rr_touch(p, t, t2, run);
            let st2 = st.update(i, p2);
            let q2 = qd + range_seq(idx, j) + seq![i];
            assert(rr_tracked(p2, t2)) by {
                assert(rr_tracked(st[q[0]], t));
                assert(p.burst_time - p.remaining_time <= t - p.arrival_time);
                assert(t2 <= u64::MAX);
            }
            assert(q2.contains(i)) by {
                assert(q2[q2.len() - 1] == i);
            }
            assert(forall|k: int|
                0 <= k < q2.len() ==> (#[trigger] q2[k] == i || qd.contains(q2[k]) || (idx <= q2[k]
                    < j))) by {
                assert(forall|k: int| 0 <= k < qd.len() ==> qd.contains(#[trigger] qd[k]));
            }
            law_rr_step(st, st2, q, q2, idx, j, t, t2, quantum);
            proof_nonneg_sums(st2, q2, j);
            law_rr_run(st2, q2, j, t2, quantum);
            let rest = rr_run(st2, q2, j, t2, quantum);
            assert(out.1 == rest.1);
            law_rr_segments_glue(out.0, rest.0, t, t2);
        }
    }
}

/// The measure of a machine state is non-negative.
proof fn proof_nonneg_sums(st: Seq<Process>, q: Seq<int>, idx: int)
    ensures
        qsum_rem(st, q) >= 0,
        rem_suffix(st, idx) >= 0,
{
    lemma_qsum_rem_nonneg(st, q);
    lemma_qsum_rem_nonneg(st, range_seq(idx, st.len() as int));
}

/// One dispatch step preserves the law state and yields the laws of the
/// rest of the run.
proof fn law_rr_step(
    st: Seq<Process>,
    st2: Seq<Process>,
    q: Seq<int>,
    q2: Seq<int>,
    idx: int,
    j: int,
    t: int,
    t2: int,
    quantum: int,
)
    requires
        quantum >= 1,
        rr_law_state(st, q, idx, t),
        q.len() >= 1,
        t <= t2,
        idx <= j <= st.len(),
        forall|k: int| idx <= k < j ==> #[trigger] st[k].arrival_time <= t2,
        st2.len() == st.len(),
        forall|k: int| 0 <= k < st.len() && k != q[0] ==> #[trigger] st2[k] == st[k],
        st2[q[0]].pid == st[q[0]].pid,
        st2[q[0]].remaining_time >= 1 || !q2.contains(q[0]),
        q2.contains(q[0]) ==> rr_tracked(st2[q[0]], t2),
        rr_wf(st2, q2, j),
        forall|k: int| 0 <= k < q2.len() ==> (#[trigger] q2[k] == q[0] || q.drop_first().contains(
            q2[k],
        ) || (idx <= q2[k] < j)),
        qsum_rem(st2, q2) + rem_suffix(st2, j) <= qsum_rem(st, q) + rem_suffix(st, idx) - 1,
        t2 + qsum_rem(st2, q2) + rem_suffix(st2, j) <= t + qsum_rem(st, q) + rem_suffix(st, idx),
    ensures
        rr_law_state(st2, q2, j, t2),
{
    assert forall|k: int| 0 <= k < q2.len() implies rr_tracked(st2[#[trigger] q2[k]], t2) && st2[
        q2[k]
    ].remaining_time >= 1 by {
        let v = q2[k];
        if v == q[0] {
            assert(q2.contains(v));
        } else if idx <= v < j {
            assert(st2[v] == st[v]);
        } else {
            let l = choose|l: int| 0 <= l < q.drop_first().len() && q.drop_first()[l] == v;
            assert(q.drop_first()[l] == q[l + 1]);
            assert(rr_tracked(st[v], t));
            assert(st2[v] == st[v]);
        }
    }
    assert forall|jj: int| j <= jj < st2.len() implies (#[trigger] st2[jj].remaining_time)
        == st2[jj].burst_time && st2[jj].section_finish_time == st2[jj].arrival_time && st2[
        jj
    ].waiting_time == 0 && st2[jj].burst_time >= 1 && st2[jj].arrival_time + rem_suffix(st2, j)
        <= u64::MAX by {
        assert(st2[jj] == st[jj]);
        assert(st[jj].remaining_time == st[jj].burst_time);
        assert(rem_suffix(st2, j) == rem_suffix(st, j)) by {
            lemma_rem_suffix_same(st, st2, j, q[0]);
        }
        lemma_rem_suffix_split(st, idx, j);
        lemma_qsum_rem_nonneg(st, range_seq(idx, j));
        assert(st[jj].arrival_time + rem_suffix(st, idx) <= u64::MAX);
    }
}

/// An update below `k` leaves the remaining-time suffix at `k` unchanged.
proof fn lemma_rem_suffix_same(st: Seq<Process>, st2: Seq<Process>, k: int, i: int)
    requires
        st2.len() == st.len(),
        forall|l: int| 0 <= l < st.len() && l != i ==> #[trigger] st2[l] == st[l],
        0 <= k <= st.len(),
        i < k,
    ensures
        rem_suffix(st2, k) == rem_suffix(st, k),
    decreases rem_suffix_len(st, k),
{
    assert(range_seq(k, st.len() as int) == range_seq(k, st2.len() as int));
    lemma_qsum_rem_range_same(st, st2, range_seq(k, st.len() as int), i);
}

/// A measure helper for the suffix lemma.
pub open spec fn rem_suffix_len(st: Seq<Process>, k: int) -> int {
    non_neg(st.len() - k)
}

proof fn lemma_qsum_rem_range_same(st: Seq<Process>, st2: Seq<Process>, r: Seq<int>, i: int)
    requires
        st2.len() == st.len(),
        forall|l: int| 0 <= l < st.len() && l != i ==> #[trigger] st2[l] == st[l],
        forall|k: int| 0 <= k < r.len() ==> #[trigger] r[k] != i && 0 <= r[k] < st.len(),
    ensures
        qsum_rem(st2, r) == qsum_rem(st, r),
    decreases r.len(),
{
    if r.len() > 0 {
        lemma_qsum_rem_range_same(st, st2, r.drop_last(), i);
        assert(st2[r.last()] == st[r.last()]);
    }
}

/// The state of a running event-driven machine as its laws see it; like
/// `rr_law_state`, with the ready set an increasing index sequence.
pub open spec fn pe_law_state(st: Seq<Process>, q: Seq<int>, idx: int, t: int) -> bool {
    &&& crate::model::pe_wf(st, q, idx)
    &&& st.len() <= u64::MAX as int + 1
    &&& (forall|k: int|
        0 <= k < q.len() ==> rr_tracked(st[#[trigger] q[k]], t) && st[q[k]].remaining_time >= 1)
    &&& (forall|j: int|
        idx <= j < st.len() ==> (#[trigger] st[j].remaining_time) == st[j].burst_time && st[
            j
        ].section_finish_time == st[j].arrival_time && st[j].waiting_time == 0 && st[
            j
        ].burst_time >= 1 && st[j].arrival_time + rem_suffix(st, idx) <= u64::MAX)
    &&& 0 <= t
    &&& t + qsum_rem(st, q) + rem_suffix(st, idx) <= u64::MAX
}

/// Every finished record of a shortest-remaining-time-first or preemptive
/// priority run satisfies the exact metric identities.
#[verifier::rlimit(100)]
pub proof fn law_pe_metrics(pol: Policy, st: Seq<Process>, q: Seq<int>, idx: int, t: int)
    requires
        pe_law_state(st, q, idx, t),
    ensures
        forall|k: int|
            0 <= k < crate::model::pe_run(pol, st, q, idx, t).1.len() ==> metrics_exact(
                #[trigger] crate::model::pe_run(pol, st, q, idx, t).1[k],
            ),
    decreases
            non_neg(qsum_rem(st, q) + rem_suffix(st, idx)),
            non_neg(st.len() - idx),
            q.len(),
            (if can_admit(st, idx, t) {
                0int
            } else {
                1int
            }),
{
    reveal(crate::model::pe_run);
    lemma_qsum_rem_nonneg(st, q);
    let out = crate::model::pe_run(pol, st, q, idx, t);
    if can_admit(st, idx, t) {
        lemma_qsum_rem_push(st, q, idx);
        lemma_rem_suffix_step(st, idx);
        lemma_qsum_rem_nonneg(st, range_seq(idx + 1, st.len() as int));
        assert(pe_law_state(st, q.push(idx), idx + 1, t)) by {
            assert(forall|j: int|
                idx + 1 <= j < st.len() ==> st[j].arrival_time + rem_suffix(st, idx + 1) <= st[
                    j
                ].arrival_time + rem_suffix(st, idx));
        }
        law_pe_metrics(pol, st, q.push(idx), idx + 1, t);
        let out2 = crate::model::pe_run(pol, st, q.push(idx), idx + 1, t);
        assert(out == out2);
        assert forall|k: int| 0 <= k < out.1.len() implies metrics_exact(#[trigger] out.1[k]) by {
            assert(out.1[k] == out2.1[k]);
        }
    } else if q.len() == 0 {
        if idx < st.len() {
            let t2 = st[idx].arrival_time as int;
            assert(qsum_rem(st, q) == 0);
            assert(st[idx].remaining_time == st[idx].burst_time);
            assert(pe_law_state(st, q, idx, t2));
            law_pe_metrics(pol, st, q, idx, t2);
            let out2 = crate::model::pe_run(pol, st, q, idx, t2);
            assert(out == out2);
            assert forall|k: int| 0 <= k < out.1.len() implies metrics_exact(#[trigger] out.1[k])
                by {
                assert(out.1[k] == out2.1[k]);
            }
        }
    } else {
        proof_nonneg_sums(st, q, idx);
        let (m, run, t2, j, st2, q2) = law_pe_one_step(pol, st, q, idx, t);
        proof_nonneg_sums(st2, q2, j);
        law_pe_metrics(pol, st2, q2, j, t2);
        let rest = crate::model::pe_run(pol, st2, q2, j, t2);
        if run == st[q[m]].remaining_time {
            let fp = rr_finish(st[q[m]], t, t2);
            assert(out.1 == seq![fp] + rest.1);
            assert forall|k: int| 0 <= k < out.1.len() implies metrics_exact(#[trigger] out.1[k]) by {
                if k >= 1 {
                    assert(out.1[k] == rest.1[k - 1]);
                }
            }
        } else {
            assert(out.1 == rest.1);
        }
    }
}

/// The raw segments of a shortest-remaining-time-first or preemptive
/// priority run are non-empty, chronological and non-overlapping.
#[verifier::rlimit(100)]
pub proof fn law_pe_segments(pol: Policy, st: Seq<Process>, q: Seq<int>, idx: int, t: int)
    requires
        pe_law_state(st, q, idx, t),
    ensures
        forall|k: int|
            0 <= k < crate::model::pe_run(pol, st, q, idx, t).0.len() ==> (
            #[trigger] crate::model::pe_run(pol, st, q, idx, t).0[k]).start_time
                < crate::model::pe_run(pol, st, q, idx, t).0[k].finish_time
                && crate::model::pe_run(pol, st, q, idx, t).0[k].start_time >= t,
        forall|k: int, l: int|
            0 <= k < l < crate::model::pe_run(pol, st, q, idx, t).0.len() ==> (
            #[trigger] crate::model::pe_run(pol, st, q, idx, t).0[k]).finish_time <= (
            #[trigger] crate::model::pe_run(pol, st, q, idx, t).0[l]).start_time,
    decreases
            non_neg(qsum_rem(st, q) + rem_suffix(st, idx)),
            non_neg(st.len() - idx),
            q.len(),
            (if can_admit(st, idx, t) {
                0int
            } else {
                1int
            }),
{
    reveal(crate::model::pe_run);
    lemma_qsum_rem_nonneg(st, q);
    let out = crate::model::pe_run(pol, st, q, idx, t);
    if can_admit(st, idx, t) {
        lemma_qsum_rem_push(st, q, idx);
        lemma_rem_suffix_step(st, idx);
        lemma_qsum_rem_nonneg(st, range_seq(idx + 1, st.len() as int));
        assert(pe_law_state(st, q.push(idx), idx + 1, t)) by {
            assert(forall|j: int|
                idx + 1 <= j < st.len() ==> st[j].arrival_time + rem_suffix(st, idx + 1) <= st[
                    j
                ].arrival_time + rem_suffix(st, idx));
        }
        law_pe_segments(pol, st, q.push(idx), idx + 1, t);
        let out2 = crate::model::pe_run(pol, st, q.push(idx), idx + 1, t);
        assert(out == out2);
        assert forall|k: int| 0 <= k < out.0.len() implies (#[trigger] out.0[k]).start_time
            < out.0[k].finish_time && out.0[k].start_time >= t by {
            assert(out.0[k] == out2.0[k]);
        }
        assert forall|k: int, l: int| 0 <= k < l < out.0.len() implies (
        #[trigger] out.0[k]).finish_time <= (#[trigger] out.0[l]).start_time by {
            assert(out.0[k] == out2.0[k]);
            assert(out.0[l] == out2.0[l]);
        }
    } else if q.len() == 0 {
        if idx < st.len() {
            let t2 = st[idx].arrival_time as int;
            assert(qsum_rem(st, q) == 0);
            assert(st[idx].remaining_time == st[idx].burst_time);
            assert(pe_law_state(st, q, idx, t2));
            law_pe_segments(pol, st, q, idx, t2);
            let out2 = crate::model::pe_run(pol, st, q, idx, t2);
            assert(out == out2);
            assert forall|k: int| 0 <= k < out.0.len() implies (#[trigger] out.0[k]).start_time
                < out.0[k].finish_time && out.0[k].start_time >= t by {
                assert(out.0[k] == out2.0[k]);
                assert(out.0[k].start_time >= t2 >= t);
            }
            assert forall|k: int, l: int| 0 <= k < l < out.0.len() implies (
            #[trigger] out.0[k]).finish_time <= (#[trigger] out.0[l]).start_time by {
                assert(out.0[k] == out2.0[k]);
                assert(out.0[l] == out2.0[l]);
            }
        }
    } else {
        proof_nonneg_sums(st, q, idx);
        let (m, run, t2, j, st2, q2) = law_pe_one_step(pol, st, q, idx, t);
        proof_nonneg_sums(st2, q2, j);
        law_pe_segments(pol, st2, q2, j, t2);
        let rest = crate::model::pe_run(pol, st2, q2, j, t2);
        law_rr_segments_glue(out.0, rest.0, t, t2);
    }
}

/// The shared dispatch reasoning of the event-driven laws: identifies the
/// selection, unfolds one step of the machine, and shows the successor state
/// is again a law state, handing the successor back to the caller.
#[verifier::rlimit(100)]
proof fn law_pe_one_step(pol: Policy, st: Seq<Process>, q: Seq<int>, idx: int, t: int) -> (r: (
    int,
    int,
    int,
    int,
    Seq<Process>,
    Seq<int>,
))
    requires
        pe_law_state(st, q, idx, t),
        !can_admit(st, idx, t),
        q.len() >= 1,
    ensures
        ({
            let (m, run, t2, j, st2, q2) = r;
            &&& 0 <= m < q.len()
            &&& t2 == t + run
            &&& 1 <= run <= st[q[m]].remaining_time
            &&& pe_law_state(st2, q2, j, t2)
            &&& qsum_rem(st2, q2) + rem_suffix(st2, j) <= qsum_rem(st, q) + rem_suffix(st, idx)
                - run
            &&& non_neg(st2.len() - j) <= non_neg(st.len() - idx)
            &&& crate::model::pe_run(pol, st, q, idx, t).0 == seq![
                (crate::process::Event {
                    name: Some(st[q[m]].pid),
                    start_time: t as u64,
                    finish_time: t2 as u64,
                }),
            ] + crate::model::pe_run(pol, st2, q2, j, t2).0
            &&& (run == st[q[m]].remaining_time ==> crate::model::pe_run(pol, st, q, idx, t).1
                == seq![rr_finish(st[q[m]], t, t2)] + crate::model::pe_run(pol, st2, q2, j, t2).1
                && metrics_exact(rr_finish(st[q[m]], t, t2)))
            &&& (run < st[q[m]].remaining_time ==> crate::model::pe_run(pol, st, q, idx, t).1
                == crate::model::pe_run(pol, st2, q2, j, t2).1)
        }),
{
    reveal(crate::model::pe_run);
    lemma_qsum_rem_nonneg(st, q);
    lemma_sel_pos_min(pol, st, q);
    let m = sel_pos_in(pol, st, q);
    let i = q[m];
    let p = st[i];
    let t2: int = if idx < st.len() && (st[idx].arrival_time as int) < t + p.remaining_time {
        st[idx].arrival_time as int
    } else {
        t + p.remaining_time
    };
    let run = t2 - t;
    let j = first_unarrived(st, idx, t2);
    crate::model::lemma_pe_dispatch(pol, st, q, idx, t, m, run, t2, j);
    proof_nonneg_sums(st, q, idx);
    let qr = q.remove(m);
    assert(forall|l: int|
        0 <= l < qr.len() ==> #[trigger] qr[l] == (if l < m {
            q[l]
        } else {
            q[l + 1]
        }));
    assert(run >= 1) by {
        if t2 != t + p.remaining_time {
            assert(st[idx].arrival_time > t);
        }
    }
    if run == p.remaining_time {
        let fp = rr_finish(p, t, t2);
        let st2 = st.update(i, fp);
        let q2 = qr + range_seq(idx, j);
        assert(metrics_exact(fp)) by {
            assert(rr_tracked(st[q[m]], t));
            assert(p.burst_time - p.remaining_time <= t - p.arrival_time);
            assert(t2 <= u64::MAX);
        }
        assert(!q2.contains(i)) by {
            assert(forall|k: int| 0 <= k < q2.len() ==> #[trigger] q2[k] != i);
        }
        assert forall|k: int|
            0 <= k < q2.len() implies (#[trigger] q2[k] == i || q.contains(q2[k]) || (idx <= q2[k]
                < j)) by {
            if k < qr.len() {
                if k < m {
                    assert(q2[k] == q[k]);
                    assert(q.contains(q[k]));
                } else {
                    assert(q2[k] == q[k + 1]);
                    assert(q.contains(q[k + 1]));
                }
            }
        }
        law_pe_step(st, st2, q, q2, i, m, idx, j, t, t2);
        (m, run, t2, j, st2, q2)
    } else {
        let p2 = rr_touch(p, t, t2, run);
        let st2 = st.update(i, p2);
        let q2 = q + range_seq(idx, j);
        assert(rr_tracked(p2, t2)) by {
            assert(rr_tracked(st[q[m]], t));
            assert(p.burst_time - p.remaining_time <= t - p.arrival_time);
            assert(t2 <= u64::MAX);
        }
        assert(q2.contains(i)) by {
            assert(q2[m] == i);
        }
        assert forall|k: int|
            0 <= k < q2.len() implies (#[trigger] q2[k] == i || q.contains(q2[k]) || (idx <= q2[k]
                < j)) by {
            if k < q.len() {
                assert(q2[k] == q[k]);
                assert(q.contains(q[k]));
            }
        }
        law_pe_step(st, st2, q, q2, i, m, idx, j, t, t2);
        (m, run, t2, j, st2, q2)
    }
}

/// One dispatch step of the event-driven machine preserves its law state.
proof fn law_pe_step(
    st: Seq<Process>,
    st2: Seq<Process>,
    q: Seq<int>,
    q2: Seq<int>,
    i: int,
    m: int,
    idx: int,
    j: int,
    t: int,
    t2: int,
)
    requires
        pe_law_state(st, q, idx, t),
        0 <= m < q.len(),
        i == q[m],
        t <= t2,
        idx <= j <= st.len(),
        forall|k: int| idx <= k < j ==> #[trigger] st[k].arrival_time <= t2,
        st2.len() == st.len(),
        forall|k: int| 0 <= k < st.len() && k != i ==> #[trigger] st2[k] == st[k],
        st2[i].pid == st[i].pid,
        st2[i].remaining_time >= 1 || !q2.contains(i),
        q2.contains(i) ==> rr_tracked(st2[i], t2),
        crate::model::pe_wf(st2, q2, j),
        forall|k: int| 0 <= k < q2.len() ==> (#[trigger] q2[k] == i || q.contains(q2[k]) || (idx
            <= q2[k] < j)),
        t2 + qsum_rem(st2, q2) + rem_suffix(st2, j) <= t + qsum_rem(st, q) + rem_suffix(st, idx),
    ensures
        pe_law_state(st2, q2, j, t2),
{
    let qr = q.remove(m);
    assert(forall|l: int|
        0 <= l < qr.len() ==> #[trigger] qr[l] == (if l < m {
            q[l]
        } else {
            q[l + 1]
        }));
    assert forall|k: int| 0 <= k < q2.len() implies rr_tracked(st2[#[trigger] q2[k]], t2) && st2[
        q2[k]
    ].remaining_time >= 1 by {
        let v = q2[k];
        if v == i {
            assert(q2.contains(v));
        } else if idx <= v < j {
            assert(st2[v] == st[v]);
        } else {
            let l = choose|l: int| 0 <= l < q.len() && q[l] == v;
            assert(rr_tracked(st[#[trigger] q[l]], t));
            assert(st2[v] == st[v]);
        }
    }
    assert forall|jj: int| j <= jj < st2.len() implies (#[trigger] st2[jj].remaining_time)
        == st2[jj].burst_time && st2[jj].section_finish_time == st2[jj].arrival_time && st2[
        jj
    ].waiting_time == 0 && st2[jj].burst_time >= 1 && st2[jj].arrival_time + rem_suffix(st2, j)
        <= u64::MAX by {
        assert(st2[jj] == st[jj]);
        assert(st[jj].remaining_time == st[jj].burst_time);
        assert(rem_suffix(st2, j) == rem_suffix(st, j)) by {
            lemma_rem_suffix_same(st, st2, j, i);
        }
        lemma_rem_suffix_split(st, idx, j);
        lemma_qsum_rem_nonneg(st, range_seq(idx, j));
        assert(st[jj].arrival_time + rem_suffix(st, idx) <= u64::MAX);
    }
}

/// Joining adjacent same-process segments keeps the timeline non-empty per
/// entry, chronological and non-overlapping; each joined entry ends where
/// the last raw segment it absorbed ended.
pub proof fn law_merge_keeps_order(segs: Seq<crate::process::Event>)
    requires
        forall|k: int|
            0 <= k < segs.len() ==> (#[trigger] segs[k]).start_time < segs[k].finish_time,
        forall|k: int, l: int|
            0 <= k < l < segs.len() ==> (#[trigger] segs[k]).finish_time <= (#[trigger] segs[l]).start_time,
    ensures
        forall|k: int|
            0 <= k < crate::model::merge_adjacent(segs).len() ==> (
            #[trigger] crate::model::merge_adjacent(segs)[k]).start_time
                < crate::model::merge_adjacent(segs)[k].finish_time,
        forall|k: int, l: int|
            0 <= k < l < crate::model::merge_adjacent(segs).len() ==> (
            #[trigger] crate::model::merge_adjacent(segs)[k]).finish_time <= (
            #[trigger] crate::model::merge_adjacent(segs)[l]).start_time,
        segs.len() > 0 ==> crate::model::merge_adjacent(segs).len() > 0
            && crate::model::merge_adjacent(segs).last().finish_time == segs.last().finish_time,
    decreases segs.len(),
{
    if segs.len() > 0 {
        let sd = segs.drop_last();
        assert(forall|k: int| 0 <= k < sd.len() ==> #[trigger] sd[k] == segs[k]);
        law_merge_keeps_order(sd);
        let mp = crate::model::merge_adjacent(sd);
        let e = segs.last();
        let out = crate::model::merge_adjacent(segs);
        if mp.len() > 0 && mp.last().name == e.name && mp.last().finish_time == e.start_time {
            let ix = mp.len() - 1;
            let joined = crate::process::Event {
                name: e.name,
                start_time: mp.last().start_time,
                finish_time: e.finish_time,
            };
            assert(out == mp.update(ix, joined));
            assert(sd.len() > 0);
            assert forall|k: int| 0 <= k < out.len() implies (#[trigger] out[k]).start_time
                < out[k].finish_time by {
                if k < ix {
                    assert(out[k] == mp[k]);
                } else {
                    assert(out[k] == joined);
                }
            }
            assert forall|k: int, l: int| 0 <= k < l < out.len() implies (
            #[trigger] out[k]).finish_time <= (#[trigger] out[l]).start_time by {
                assert(out[k] == mp[k]);
                if l < ix {
                    assert(out[l] == mp[l]);
                } else {
                    assert(out[l] == joined);
                    assert(mp[k].finish_time <= mp[ix].start_time);
                }
            }
        } else {
            assert(out == mp.push(e));
            if sd.len() > 0 {
                assert(mp.last().finish_time == sd.last().finish_time);
                assert(sd.last().finish_time <= e.start_time) by {
                    assert(segs[segs.len() - 2].finish_time <= segs[segs.len() - 1].start_time);
                }
            }
            assert forall|k: int| 0 <= k < out.len() implies (#[trigger] out[k]).start_time
                < out[k].finish_time by {
                if k < mp.len() {
                    assert(out[k] == mp[k]);
                } else {
                    assert(out[k] == e);
                }
            }
            assert forall|k: int, l: int| 0 <= k < l < out.len() implies (
            #[trigger] out[k]).finish_time <= (#[trigger] out[l]).start_time by {
                assert(out[k] == mp[k]);
                if l < mp.len() {
                    assert(out[l] == mp[l]);
                } else {
                    assert(out[l] == e);
                    assert(mp[k].finish_time <= mp[mp.len() - 1].finish_time) by {
                        if k < mp.len() - 1 {
                            assert(mp[k].finish_time <= mp[mp.len() - 1].start_time);
                            assert(mp[mp.len() - 1].start_time < mp[mp.len() - 1].finish_time);
                        }
                    }
                }
            }
        }
    }
}

/// Glues one fresh segment `[t, t2)` onto the laws of the rest of the run.
proof fn law_rr_segments_glue(
    out: Seq<crate::process::Event>,
    rest: Seq<crate::process::Event>,
    t: int,
    t2: int,
)
    requires
        out.len() == rest.len() + 1,
        out[0].start_time == t,
        out[0].finish_time == t2,
        t < t2,
        forall|k: int| 1 <= k < out.len() ==> #[trigger] out[k] == rest[k - 1],
        forall|k: int|
            0 <= k < rest.len() ==> (#[trigger] rest[k]).start_time < rest[k].finish_time && rest[
                k
            ].start_time >= t2,
        forall|k: int, l: int|
            0 <= k < l < rest.len() ==> (#[trigger] rest[k]).finish_time <= (#[trigger] rest[l]).start_time,
    ensures
        forall|k: int|
            0 <= k < out.len() ==> (#[trigger] out[k]).start_time < out[k].finish_time && out[
                k
            ].start_time >= t,
        forall|k: int, l: int|
            0 <= k < l < out.len() ==> (#[trigger] out[k]).finish_time <= (#[trigger] out[l]).start_time,
{
    assert forall|k: int| 0 <= k < out.len() implies (#[trigger] out[k]).start_time
        < out[k].finish_time && out[k].start_time >= t by {
        if k >= 1 {
            assert(out[k] == rest[k - 1]);
        }
    }
    assert forall|k: int, l: int| 0 <= k < l < out.len() implies (#[trigger] out[k]).finish_time
        <= (#[trigger] out[l]).start_time by {
        if k >= 1 {
            assert(out[k] == rest[k - 1]);
            assert(out[l] == rest[l - 1]);
        } else {
            assert(out[l] == rest[l - 1]);
            assert(rest[l - 1].start_time >= t2);
        }
    }
}

} // verus!
