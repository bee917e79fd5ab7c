//! Ordering processes by arrival time (ties by pid): the specification-level
//! insertion sort that the engines' contracts are stated over, and the
//! verified executable sort that realises it.

use vstd::prelude::*;

use crate::model::{arr_pid_le, burst_sum, pid_count, sorted_by_arr_pid};
use crate::process::Process;

verus! {

/// Strict version of the arrival-then-pid order.
pub open spec fn arr_pid_lt(a: Process, b: Process) -> bool {
    a.arrival_time < b.arrival_time || (a.arrival_time == b.arrival_time && a.pid < b.pid)
}

/// Inserts `p` into `s` before the first strictly greater element, so equal
/// keys keep their existing order (a stable insertion).
pub open spec fn insert_sorted(p: Process, s: Seq<Process>) -> Seq<Process>
    decreases s.len(),
{
    if s.len() == 0 {
        seq![p]
    } else if arr_pid_lt(p, s[0]) {
        seq![p] + s
    } else {
        seq![s[0]] + insert_sorted(p, s.drop_first())
    }
}

/// The canonical arrival-ordered arrangement of a workload: a stable
/// insertion sort by (arrival time, pid).
pub open spec fn sort_spec(s: Seq<Process>) -> Seq<Process>
    decreases s.len(),
{
    if s.len() == 0 {
        Seq::empty()
    } else {
        insert_sorted(s.last(), sort_spec(s.drop_last()))
    }
}

/// What a stable insertion preserves: length, the multiset of records, the
/// burst sum, the pid counts, membership, and sortedness.
pub proof fn lemma_insert_sorted_props(p: Process, s: Seq<Process>)
    ensures
        insert_sorted(p, s).len() == s.len() + 1,
        insert_sorted(p, s).to_multiset() == s.to_multiset().insert(p),
        burst_sum(insert_sorted(p, s)) == burst_sum(s) + p.burst_time,
        forall|x: u64| pid_count(insert_sorted(p, s), x) == pid_count(s, x) + (if p.pid == x { 1int } else { 0int }),
        forall|k: int|
            0 <= k < insert_sorted(p, s).len() ==> (insert_sorted(p, s)[k] == p || s.contains(#[trigger] insert_sorted(p, s)[k])),
        sorted_by_arr_pid(s) ==> sorted_by_arr_pid(insert_sorted(p, s)),
    decreases s.len(),
{
    broadcast use vstd::seq_lib::group_to_multiset_ensures;

    if s.len() == 0 {
        let r = insert_sorted(p, s);
        assert(r =~= s.push(p));
        assert(r.drop_last() =~= s);
        assert(r.to_multiset() =~= s.to_multiset().insert(p));
        assert forall|x: u64|
            pid_count(r, x) == pid_count(s, x) + (if p.pid == x { 1int } else { 0int }) by {
            assert(pid_count(r.drop_last(), x) == pid_count(s, x));
        }
    } else if arr_pid_lt(p, s[0]) {
        let r = seq![p] + s;
        assert(insert_sorted(p, s) == r);
        lemma_cons_props(p, s);
        assert(r.to_multiset() =~= s.to_multiset().insert(p));
        if sorted_by_arr_pid(s) {
            assert(forall|k: int| 0 <= k < s.len() ==> arr_pid_le(p, #[trigger] s[k])) by {
                assert(forall|k: int| 1 <= k < s.len() ==> arr_pid_le(s[0], #[trigger] s[k]));
            }
            assert(forall|k: int| 1 <= k < r.len() ==> r[k] == s[k - 1]);
            assert(sorted_by_arr_pid(r));
        }
        assert(forall|k: int| 1 <= k < r.len() ==> s.contains(#[trigger] r[k])) by {
            assert(forall|k: int| 1 <= k < r.len() ==> r[k] == s[k - 1]);
        }
    } else {
        let tail = insert_sorted(p, s.drop_first());
        let r = seq![s[0]] + tail;
        assert(insert_sorted(p, s) == r);
        lemma_insert_sorted_props(p, s.drop_first());
        lemma_cons_props(s[0], tail);
        lemma_cons_props(s[0], s.drop_first());
        assert(seq![s[0]] + s.drop_first() =~= s);
        assert(r.to_multiset() =~= s.to_multiset().insert(p)) by {
            assert(tail.to_multiset() =~= s.drop_first().to_multiset().insert(p));
            assert(r.to_multiset() =~= tail.to_multiset().insert(s[0]));
            assert(s.to_multiset() =~= s.drop_first().to_multiset().insert(s[0]));
        }
        assert(burst_sum(r) == burst_sum(s) + p.burst_time) by {
            assert(burst_sum(r) == burst_sum(tail) + s[0].burst_time);
            assert(burst_sum(seq![s[0]] + s.drop_first()) == burst_sum(s.drop_first()) + s[0].burst_time);
        }
        assert forall|x: u64|
            pid_count(r, x) == pid_count(s, x) + (if p.pid == x { 1int } else { 0int }) by {
            assert(pid_count(r, x) == pid_count(tail, x) + (if s[0].pid == x { 1int } else { 0int }));
            assert(pid_count(tail, x) == pid_count(s.drop_first(), x) + (if p.pid == x { 1int } else { 0int }));
            assert(pid_count(seq![s[0]] + s.drop_first(), x) == pid_count(s.drop_first(), x) + (if s[0].pid == x { 1int } else { 0int }));
        }
        assert(forall|k: int| 1 <= k < r.len() ==> r[k] == #[trigger] tail[k - 1]);
        assert(forall|k: int|
            0 <= k < r.len() ==> (r[k] == p || s.contains(#[trigger] r[k]))) by {
            assert(s.contains(s[0]));
            assert(forall|k: int| 0 <= k < s.drop_first().len() ==> #[trigger] s.drop_first()[k] == s[k + 1]);
        }
        if sorted_by_arr_pid(s) {
            assert(forall|k: int, l: int|
                0 <= k < l < s.drop_first().len() ==> arr_pid_le(
                    #[trigger] s.drop_first()[k],
                    #[trigger] s.drop_first()[l],
                ));
            assert(sorted_by_arr_pid(tail));
            assert(arr_pid_le(s[0], p));
            assert(forall|k: int| 0 <= k < tail.len() ==> arr_pid_le(s[0], #[trigger] tail[k])) by {
                assert(forall|k: int|
                    0 <= k < s.drop_first().len() ==> arr_pid_le(s[0], #[trigger] s.drop_first()[k]));
            }
            assert(sorted_by_arr_pid(r));
        }
    }
}

/// Prepending an element: the effect on length, burst sum and pid counts.
proof fn lemma_cons_props(p: Process, s: Seq<Process>)
    ensures
        (seq![p] + s).len() == s.len() + 1,
        (seq![p] + s).to_multiset() == s.to_multiset().insert(p),
        burst_sum(seq![p] + s) == burst_sum(s) + p.burst_time,
        forall|x: u64| pid_count(seq![p] + s, x) == pid_count(s, x) + (if p.pid == x { 1int } else { 0int }),
    decreases s.len(),
{
    broadcast use vstd::seq_lib::group_to_multiset_ensures;

    let r = seq![p] + s;
    if s.len() == 0 {
        assert(r =~= s.push(p));
        assert(r.drop_last() =~= s);
        assert(r.to_multiset() =~= s.to_multiset().insert(p));
        assert(r.last() == p);
        assert(burst_sum(r) == burst_sum(s) + p.burst_time);
        assert forall|x: u64|
            pid_count(r, x) == pid_count(s, x) + (if p.pid == x { 1int } else { 0int }) by {
            assert(pid_count(r.drop_last(), x) == pid_count(s, x));
        }
    } else {
        lemma_cons_props(p, s.drop_last());
        let rd = seq![p] + s.drop_last();
        assert(r.drop_last() =~= rd);
        assert(r.last() == s.last());
        assert(r =~= rd.push(s.last()));
        assert(s =~= s.drop_last().push(s.last()));
        assert(r.to_multiset() =~= s.to_multiset().insert(p)) by {
            assert(r.to_multiset() =~= rd.to_multiset().insert(s.last()));
            assert(rd.to_multiset() =~= s.drop_last().to_multiset().insert(p));
            assert(s.to_multiset() =~= s.drop_last().to_multiset().insert(s.last()));
        }
        assert(burst_sum(r) == burst_sum(rd) + s.last().burst_time);
        assert(burst_sum(s) == burst_sum(s.drop_last()) + s.last().burst_time);
        assert forall|x: u64|
            pid_count(r, x) == pid_count(s, x) + (if p.pid == x { 1int } else { 0int }) by {
            assert(pid_count(r, x) == pid_count(rd, x) + (if s.last().pid == x { 1int } else { 0int }));
            assert(pid_count(rd, x) == pid_count(s.drop_last(), x) + (if p.pid == x { 1int } else { 0int }));
            assert(pid_count(s, x) == pid_count(s.drop_last(), x) + (if s.last().pid == x { 1int } else { 0int }));
        }
    }
}

/// What the canonical sort preserves, and that its result is sorted.
pub proof fn lemma_sort_spec_props(s: Seq<Process>)
    ensures
        sort_spec(s).len() == s.len(),
        sort_spec(s).to_multiset() == s.to_multiset(),
        burst_sum(sort_spec(s)) == burst_sum(s),
        forall|x: u64| pid_count(sort_spec(s), x) == pid_count(s, x),
        forall|k: int| 0 <= k < sort_spec(s).len() ==> s.contains(#[trigger] sort_spec(s)[k]),
        sorted_by_arr_pid(sort_spec(s)),
    decreases s.len(),
{
    broadcast use vstd::seq_lib::group_to_multiset_ensures;

    if s.len() > 0 {
        lemma_sort_spec_props(s.drop_last());
        lemma_insert_sorted_props(s.last(), sort_spec(s.drop_last()));
        assert(s =~= s.drop_last().push(s.last()));
        assert(s.to_multiset() =~= s.drop_last().to_multiset().insert(s.last()));
        assert forall|x: u64| pid_count(sort_spec(s), x) == pid_count(s, x) by {
            assert(pid_count(sort_spec(s), x) == pid_count(sort_spec(s.drop_last()), x) + (
            if s.last().pid == x {
                1int
            } else {
                0int
            }));
            assert(pid_count(s, x) == pid_count(s.drop_last(), x) + (if s.last().pid == x {
                1int
            } else {
                0int
            }));
        }
        assert(forall|k: int|
            0 <= k < sort_spec(s).len() ==> s.contains(#[trigger] sort_spec(s)[k])) by {
            assert(forall|k: int|
                0 <= k < s.drop_last().len() ==> s.contains(#[trigger] s.drop_last()[k]));
            assert(s.contains(s.last()));
        }
    }
}

/// Sorting keeps the workload's machine-limit bound: the burst sum is
/// unchanged and every arrival in the result is an arrival of the input.
pub proof fn lemma_ok_workload_sort(s: Seq<Process>)
    requires
        crate::model::ok_workload(s),
    ensures
        crate::model::ok_workload(sort_spec(s)),
{
    lemma_sort_spec_props(s);
    let ss = sort_spec(s);
    assert forall|i: int| 0 <= i < ss.len() implies #[trigger] ss[i].arrival_time + burst_sum(ss)
        <= u64::MAX by {
        assert(s.contains(ss[i]));
        let j = choose|j: int| 0 <= j < s.len() && s[j] == ss[i];
        assert(s[j].arrival_time + burst_sum(s) <= u64::MAX);
    }
}

/// Inserting at the first strictly greater position is exactly the stable
/// insertion.
proof fn lemma_insert_sorted_at(p: Process, s: Seq<Process>, j: int)
    requires
        0 <= j <= s.len(),
        forall|k: int| 0 <= k < j ==> !arr_pid_lt(p, #[trigger] s[k]),
        j < s.len() ==> arr_pid_lt(p, s[j]),
    ensures
        insert_sorted(p, s) == s.insert(j, p),
    decreases s.len(),
{
    if s.len() == 0 {
        assert(insert_sorted(p, s) =~= s.insert(0, p));
    } else if j == 0 {
        assert(arr_pid_lt(p, s[0]));
        assert(insert_sorted(p, s) =~= s.insert(0, p));
    } else {
        assert(!arr_pid_lt(p, s[0]));
        assert(forall|k: int| 0 <= k < j - 1 ==> !arr_pid_lt(p, #[trigger] s.drop_first()[k]));
        assert(j - 1 < s.drop_first().len() ==> arr_pid_lt(p, s.drop_first()[j - 1]));
        lemma_insert_sorted_at(p, s.drop_first(), j - 1);
        assert(seq![s[0]] + s.drop_first().insert(j - 1, p) =~= s.insert(j, p));
    }
}

/// Compares two processes by (arrival time, pid).
fn lt_exec(a: &Process, b: &Process) -> (r: bool)
    ensures
        r == arr_pid_lt(*a, *b),
{
    a.arrival_time < b.arrival_time || (a.arrival_time == b.arrival_time && a.pid < b.pid)
}

/// Sorts the processes into the canonical arrival order.
pub fn sort_processes(v: &mut Vec<Process>)
    ensures
        final(v)@ == sort_spec(old(v)@),
{
    let ghost orig: Seq<Process> = v@;
    let mut out: Vec<Process> = Vec::new();
    let mut i: usize = 0;
    while i < v.len()
        invariant
            v@ == orig,
            i <= orig.len(),
            out@ == sort_spec(orig.subrange(0, i as int)),
        decreases orig.len() - i,
    {
        let p = v[i];
        let mut j: usize = 0;
        while j < out.len() && !lt_exec(&p, &out[j])
            invariant
                j <= out.len(),
                forall|k: int| 0 <= k < j ==> !arr_pid_lt(p, #[trigger] out@[k]),
            decreases out.len() - j,
        {
            j += 1;
        }
        let ghost pre: Seq<Process> = out@;
        out.insert(j, p);
        proof {
            lemma_insert_sorted_at(p, pre, j as int);
            assert(orig.subrange(0, i as int).push(orig[i as int]) =~= orig.subrange(0, i + 1 as int));
            assert(orig.subrange(0, i + 1 as int).drop_last() =~= orig.subrange(0, i as int));
        }
        i += 1;
    }
    proof {
        assert(orig.subrange(0, orig.len() as int) =~= orig);
    }
    *v = out;
}

} // verus!
