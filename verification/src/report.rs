//! The timeline and report builder: turns a finished-process set (and, for
//! preemptive runs, the segment sequence) into per-process rows, totals for
//! the averages, and a gap-annotated timeline of the run.

use vstd::prelude::*;

use crate::nonpreemptive::NonpreemptiveScheduler;
use crate::preemptive::PreemptiveScheduler;
use crate::process::{Event, Process};

verus! {

/// What a scheduling run reports: one row per finished process, the totals
/// from which the caller derives the average waiting and turnaround times,
/// and the ordered timeline of the run.
pub struct Report {
    pub rows: Vec<Process>,
    pub total_waiting_time: u64,
    pub total_turn_around_time: u64,
    pub count: usize,
    pub timeline: Vec<Event>,
}

/// The sum of the waiting times of a sequence of processes.
pub open spec fn wait_sum(s: Seq<Process>) -> int
    decreases s.len(),
{
    if s.len() == 0 {
        0
    } else {
        wait_sum(s.drop_last()) + s.last().waiting_time
    }
}

/// The sum of the turnaround times of a sequence of processes.
pub open spec fn tat_sum(s: Seq<Process>) -> int
    decreases s.len(),
{
    if s.len() == 0 {
        0
    } else {
        tat_sum(s.drop_last()) + s.last().turn_around_time
    }
}

/// A prefix never sums to more than the whole.
pub proof fn lemma_sums_prefix_le(s: Seq<Process>, i: int)
    requires
        0 <= i <= s.len(),
    ensures
        0 <= wait_sum(s.subrange(0, i)) <= wait_sum(s),
        0 <= tat_sum(s.subrange(0, i)) <= tat_sum(s),
    decreases s.len() - i,
{
    if i == s.len() {
        assert(s.subrange(0, i) =~= s);
        lemma_sums_nonneg(s);
    } else {
        lemma_sums_prefix_le(s, i + 1);
        assert(s.subrange(0, i + 1).drop_last() =~= s.subrange(0, i));
        lemma_sums_nonneg(s.subrange(0, i));
    }
}

proof fn lemma_sums_nonneg(s: Seq<Process>)
    ensures
        wait_sum(s) >= 0,
        tat_sum(s) >= 0,
    decreases s.len(),
{
    if s.len() > 0 {
        lemma_sums_nonneg(s.drop_last());
    }
}

/// The one execution segment of a process a non-preemptive run finished.
pub open spec fn np_segments(s: Seq<Process>) -> Seq<Event> {
    s.map_values(
        |p: Process|
            Event { name: Some(p.pid), start_time: p.start_time, finish_time: p.finish_time },
    )
}

/// The timeline: the given segments in order, with an idle entry inserted
/// wherever the next segment starts after the previous one ended.
pub open spec fn with_gaps(segs: Seq<Event>, prev: u64) -> Seq<Event>
    decreases segs.len(),
{
    if segs.len() == 0 {
        Seq::empty()
    } else {
        let e = segs[0];
        let rest = with_gaps(segs.drop_first(), e.finish_time);
        if e.start_time > prev {
            seq![Event { name: None, start_time: prev, finish_time: e.start_time }, e] + rest
        } else {
            seq![e] + rest
        }
    }
}

/// Builds the timeline from a segment sequence, starting the clock at the
/// first segment.
pub fn build_timeline(segs: &Vec<Event>) -> (r: Vec<Event>)
    ensures
        segs@.len() == 0 ==> r@ == Seq::<Event>::empty(),
        segs@.len() > 0 ==> r@ == with_gaps(segs@, segs@[0].start_time),
{
    let mut out: Vec<Event> = Vec::new();
    if segs.len() == 0 {
        return out;
    }
    let mut prev: u64 = segs[0].start_time;
    let mut i: usize = 0;
    proof {
        assert(segs@.subrange(0, segs@.len() as int) =~= segs@);
    }
    while i < segs.len()
        invariant
            i <= segs@.len(),
            segs@.len() > 0,
            out@ + with_gaps(segs@.subrange(i as int, segs@.len() as int), prev) == with_gaps(
                segs@,
                segs@[0].start_time,
            ),
        decreases segs@.len() - i,
    {
        let e = segs[i];
        proof {
            assert(segs@.subrange(i as int, segs@.len() as int)[0] == e);
            assert(segs@.subrange(i as int, segs@.len() as int).drop_first() =~= segs@.subrange(
                i + 1 as int,
                segs@.len() as int,
            ));
        }
        if e.start_time > prev {
            out.push(Event { name: None, start_time: prev, finish_time: e.start_time });
        }
        out.push(e);
        proof {
            assert(out@ + with_gaps(
                segs@.subrange(i + 1 as int, segs@.len() as int),
                e.finish_time,
            ) =~= with_gaps(segs@, segs@[0].start_time));
        }
        prev = e.finish_time;
        i += 1;
    }
    proof {
        assert(segs@.subrange(segs@.len() as int, segs@.len() as int) =~= Seq::<Event>::empty());
        assert(out@ =~= with_gaps(segs@, segs@[0].start_time));
    }
    out
}

/// Sums the waiting and turnaround times of the finished rows.
fn sum_metrics(rows: &Vec<Process>) -> (r: (u64, u64))
    requires
        wait_sum(rows@) <= u64::MAX,
        tat_sum(rows@) <= u64::MAX,
    ensures
        r.0 == wait_sum(rows@),
        r.1 == tat_sum(rows@),
{
    let mut tw: u64 = 0;
    let mut tt: u64 = 0;
    let mut i: usize = 0;
    while i < rows.len()
        invariant
            i <= rows@.len(),
            wait_sum(rows@) <= u64::MAX,
            tat_sum(rows@) <= u64::MAX,
            tw == wait_sum(rows@.subrange(0, i as int)),
            tt == tat_sum(rows@.subrange(0, i as int)),
        decreases rows@.len() - i,
    {
        proof {
            lemma_sums_prefix_le(rows@, i + 1 as int);
            assert(rows@.subrange(0, i + 1 as int).drop_last() =~= rows@.subrange(0, i as int));
            assert(rows@.subrange(0, i + 1 as int).last() == rows@[i as int]);
        }
        tw = tw + rows[i].waiting_time;
        tt = tt + rows[i].turn_around_time;
        i += 1;
    }
    proof {
        assert(rows@.subrange(0, rows@.len() as int) =~= rows@);
    }
    (tw, tt)
}

/// Copies a vector of plain records.
fn copy_rows(rows: &Vec<Process>) -> (r: Vec<Process>)
    ensures
        r@ == rows@,
{
    let mut out: Vec<Process> = Vec::new();
    let mut i: usize = 0;
    while i < rows.len()
        invariant
            i <= rows@.len(),
            out@ == rows@.subrange(0, i as int),
        decreases rows@.len() - i,
    {
        out.push(rows[i]);
        proof {
            assert(rows@.subrange(0, i + 1 as int) =~= rows@.subrange(0, i as int).push(
                rows@[i as int],
            ));
        }
        i += 1;
    }
    proof {
        assert(rows@.subrange(0, rows@.len() as int) =~= rows@);
    }
    out
}

impl NonpreemptiveScheduler {
    /// The run's report: per-process rows, the totals behind the average
    /// waiting and turnaround times, and the timeline derived from each
    /// process's single execution segment.
    pub fn print(&self) -> (r: Report)
        requires
            wait_sum(self.finished_processes@) <= u64::MAX,
            tat_sum(self.finished_processes@) <= u64::MAX,
        ensures
            r.rows@ == self.finished_processes@,
            r.total_waiting_time == wait_sum(self.finished_processes@),
            r.total_turn_around_time == tat_sum(self.finished_processes@),
            r.count == self.finished_processes@.len(),
            r.timeline@ == self.gantt_view(),
    {
        let rows = copy_rows(&self.finished_processes);
        let totals = sum_metrics(&self.finished_processes);
        let timeline = self.gantt_chart(&self.finished_processes);
        proof {
            assert(self.finished_processes@.map_values(
                |p: Process|
                    Event {
                        name: Some(p.pid),
                        start_time: p.start_time,
                        finish_time: p.finish_time,
                    },
            ) =~= np_segments(self.finished_processes@));
        }
        Report {
            rows,
            total_waiting_time: totals.0,
            total_turn_around_time: totals.1,
            count: self.finished_processes.len(),
            timeline,
        }
    }

    /// The timeline this scheduler's report shows.
    pub open spec fn gantt_view(self) -> Seq<Event> {
        let segs = np_segments(self.finished_processes@);
        if segs.len() == 0 {
            Seq::<Event>::empty()
        } else {
            with_gaps(segs, segs[0].start_time)
        }
    }

    /// The timeline of a finished non-preemptive run: one segment per
    /// process in dispatch order, idle gaps made explicit.
    pub fn gantt_chart(&self, processes: &Vec<Process>) -> (r: Vec<Event>)
        ensures
            processes@.len() == 0 ==> r@ == Seq::<Event>::empty(),
            processes@.len() > 0 ==> r@ == with_gaps(
                np_segments(processes@),
                np_segments(processes@)[0].start_time,
            ),
    {
        let mut segs: Vec<Event> = Vec::new();
        let mut i: usize = 0;
        while i < processes.len()
            invariant
                i <= processes@.len(),
                segs@ == np_segments(processes@.subrange(0, i as int)),
            decreases processes@.len() - i,
        {
            let p = processes[i];
            segs.push(Event { name: Some(p.pid), start_time: p.start_time, finish_time: p.finish_time });
            proof {
                assert(segs@ =~= np_segments(processes@.subrange(0, i + 1 as int)));
            }
            i += 1;
        }
        proof {
            assert(processes@.subrange(0, processes@.len() as int) =~= processes@);
            assert(segs@ =~= np_segments(processes@));
        }
        build_timeline(&segs)
    }
}

impl PreemptiveScheduler {
    /// The run's report: per-process rows, the totals behind the average
    /// waiting and turnaround times, and the timeline derived from the
    /// recorded execution segments.
    pub fn print(&self) -> (r: Report)
        requires
            wait_sum(self.finished_processes@) <= u64::MAX,
            tat_sum(self.finished_processes@) <= u64::MAX,
        ensures
            r.rows@ == self.finished_processes@,
            r.total_waiting_time == wait_sum(self.finished_processes@),
            r.total_turn_around_time == tat_sum(self.finished_processes@),
            r.count == self.finished_processes@.len(),
            r.timeline@ == self.gantt_view(),
    {
        let rows = copy_rows(&self.finished_processes);
        let totals = sum_metrics(&self.finished_processes);
        let timeline = self.gantt_chart();
        Report {
            rows,
            total_waiting_time: totals.0,
            total_turn_around_time: totals.1,
            count: self.finished_processes.len(),
            timeline,
        }
    }

    /// The timeline this scheduler's report shows.
    pub open spec fn gantt_view(self) -> Seq<Event> {
        if self.event_list@.len() == 0 {
            Seq::<Event>::empty()
        } else {
            with_gaps(self.event_list@, self.event_list@[0].start_time)
        }
    }

    /// The timeline of a finished preemptive run: the recorded segments in
    /// execution order, idle gaps made explicit.
    pub fn gantt_chart(&self) -> (r: Vec<Event>)
        ensures
            r@ == self.gantt_view(),
    {
        build_timeline(&self.event_list)
    }
}

} // verus!
