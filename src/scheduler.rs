//! The CPU scheduler: a ready queue of process identifiers, the running
//! process, and a policy that decides which ready process runs next.
use std::collections::VecDeque;

use vstd::multiset::Multiset;
use vstd::prelude::*;

use crate::process::{demoted, dispatched, lemma_without_excludes, ticked, without, Process, ProcessTable};

verus! {

/// How the next process is chosen from the ready queue.
#[derive(Clone, Copy, Debug, PartialEq, Eq, Structural)]
pub enum SchedulingAlgorithm {
    /// First come, first served, with preemption after each quantum.
    RoundRobin,
    /// Highest priority first; equal priorities in queue order.
    Priority,
    /// Least CPU time used so far first; equal times in queue order.
    ShortestJobFirst,
}

/// The scheduler. Time is counted in ticks.
pub struct CPUScheduler {
    pub algorithm: SchedulingAlgorithm,
    pub ready_queue: VecDeque<u128>,
    pub running_process: Option<u128>,
    pub time_quantum: u64,
    pub current_time_slice: u64,
    pub clock: u64,
}

/// The scheduler as a mathematical value.
pub struct SchedState {
    pub algorithm: SchedulingAlgorithm,
    pub queue: Seq<u128>,
    pub running: Option<u128>,
    pub quantum: u64,
    pub slice: u64,
    pub clock: u64,
}

impl View for CPUScheduler {
    type V = SchedState;

    open spec fn view(&self) -> SchedState {
        SchedState {
            algorithm: self.algorithm,
            queue: self.ready_queue@,
            running: self.running_process,
            quantum: self.time_quantum,
            slice: self.current_time_slice,
            clock: self.clock,
        }
    }
}

/// `x + 1`, saturating.
pub open spec fn inc(x: u64) -> u64 {
    if x == u64::MAX {
        x
    } else {
        (x + 1) as u64
    }
}

/// How urgent a process is under `algorithm`: a higher rank runs first.
pub open spec fn rank(p: Process, algorithm: SchedulingAlgorithm) -> int {
    match algorithm {
        SchedulingAlgorithm::ShortestJobFirst => -(p.cpu_time as int),
        _ => p.priority as int,
    }
}

/// The rank of the first process of `t` with identifier `id`; 0 when there is none.
pub open spec fn rank_of(t: Seq<Process>, id: u128, algorithm: SchedulingAlgorithm) -> int
    decreases t.len(),
{
    if t.len() == 0 {
        0
    } else if t[0].id == id {
        rank(t[0], algorithm)
    } else {
        rank_of(t.drop_first(), id, algorithm)
    }
}

/// The index of the first element of `q` with the highest rank.
pub open spec fn first_best(q: Seq<u128>, t: Seq<Process>, algorithm: SchedulingAlgorithm) -> int
    decreases q.len(),
{
    if q.len() <= 1 {
        0
    } else {
        let b = first_best(q.drop_last(), t, algorithm);
        if rank_of(t, q.last(), algorithm) > rank_of(t, q[b], algorithm) {
            q.len() - 1
        } else {
            b
        }
    }
}

/// `q` sorted by descending rank, stably: the first element of highest rank,
/// followed by the rest sorted likewise.
#[verifier::opaque]
pub open spec fn stable_sorted(q: Seq<u128>, t: Seq<Process>, algorithm: SchedulingAlgorithm) -> Seq<u128>
    decreases q.len(),
{
    let b = first_best(q, t, algorithm);
    if q.len() == 0 || !(0 <= b < q.len()) {
        q
    } else {
        seq![q[b]] + stable_sorted(q.remove(b), t, algorithm)
    }
}

/// The ready queue as the policy orders it before the head is taken.
pub open spec fn reordered(q: Seq<u128>, t: Seq<Process>, algorithm: SchedulingAlgorithm) -> Seq<u128> {
    match algorithm {
        SchedulingAlgorithm::RoundRobin => q,
        _ => stable_sorted(q, t, algorithm),
    }
}

/// One tick: the running process, if any, is charged one unit of CPU time and
/// its slice grows by one; the clock advances.
pub open spec fn tick_spec(s: SchedState, t: Seq<Process>) -> (SchedState, Seq<Process>) {
    match s.running {
        Some(id) => (SchedState { slice: inc(s.slice), clock: inc(s.clock), ..s }, ticked(t, id)),
        None => (SchedState { clock: inc(s.clock), ..s }, t),
    }
}

/// The state after preemption: a running process whose slice has reached the
/// quantum goes back to Ready at the end of the queue.
pub open spec fn preempt_spec(s: SchedState, t: Seq<Process>) -> (SchedState, Seq<Process>) {
    match s.running {
        Some(id) => if s.slice >= s.quantum {
            (SchedState { queue: s.queue.push(id), running: None, slice: 0, ..s }, demoted(t, id))
        } else {
            (s, t)
        },
        None => (s, t),
    }
}

/// One scheduling decision: preempt, reorder the queue by policy, and when
/// nothing runs, run the head of the queue. Returns the process that runs.
pub open spec fn schedule_spec(s: SchedState, t: Seq<Process>) -> (SchedState, Seq<Process>, Option<u128>) {
    let (s1, t1) = preempt_spec(s, t);
    let q = reordered(s1.queue, t1, s1.algorithm);
    if s1.running is Some {
        (SchedState { queue: q, ..s1 }, t1, s1.running)
    } else if q.len() > 0 {
        (SchedState { queue: q.drop_first(), running: Some(q[0]), ..s1 }, dispatched(t1, q[0], s1.clock), Some(q[0]))
    } else {
        (SchedState { queue: q, ..s1 }, t1, None)
    }
}

/// One step of the stable sort.
proof fn lemma_stable_sorted_step(q: Seq<u128>, t: Seq<Process>, algorithm: SchedulingAlgorithm)
    requires
        q.len() > 0,
    ensures
        0 <= first_best(q, t, algorithm) < q.len(),
        stable_sorted(q, t, algorithm) == seq![q[first_best(q, t, algorithm)]] + stable_sorted(
            q.remove(first_best(q, t, algorithm)),
            t,
            algorithm,
        ),
{
    lemma_first_best_in_range(q, t, algorithm);
    reveal(stable_sorted);
}

/// The stable sort of nothing is nothing.
proof fn lemma_stable_sorted_empty(q: Seq<u128>, t: Seq<Process>, algorithm: SchedulingAlgorithm)
    requires
        q.len() == 0,
    ensures
        stable_sorted(q, t, algorithm) == q,
{
    reveal(stable_sorted);
}

proof fn lemma_first_best_in_range(q: Seq<u128>, t: Seq<Process>, algorithm: SchedulingAlgorithm)
    requires
        q.len() > 0,
    ensures
        0 <= first_best(q, t, algorithm) < q.len(),
    decreases q.len(),
{
    if q.len() > 1 {
        lemma_first_best_in_range(q.drop_last(), t, algorithm);
    }
}

/// The first best element has the highest rank, and every element before it
/// a lower one.
proof fn lemma_first_best_is_best(q: Seq<u128>, t: Seq<Process>, algorithm: SchedulingAlgorithm)
    requires
        q.len() > 0,
    ensures
        forall|k: int|
            0 <= k < q.len() ==> rank_of(t, #[trigger] q[k], algorithm) <= rank_of(
                t,
                q[first_best(q, t, algorithm)],
                algorithm,
            ),
        forall|k: int|
            0 <= k < first_best(q, t, algorithm) ==> rank_of(t, #[trigger] q[k], algorithm) < rank_of(
                t,
                q[first_best(q, t, algorithm)],
                algorithm,
            ),
    decreases q.len(),
{
    if q.len() > 1 {
        let p = q.drop_last();
        lemma_first_best_is_best(p, t, algorithm);
        lemma_first_best_in_range(p, t, algorithm);
        assert(forall|k: int| 0 <= k < p.len() ==> p[k] == q[k]);
    }
}

/// The stable sort keeps the elements: it is a permutation.
pub proof fn lemma_stable_sorted_permutes(q: Seq<u128>, t: Seq<Process>, algorithm: SchedulingAlgorithm)
    ensures
        stable_sorted(q, t, algorithm).to_multiset() == q.to_multiset(),
    decreases q.len(),
{
    broadcast use vstd::seq_lib::group_to_multiset_ensures;
    broadcast use vstd::multiset::group_multiset_properties;

    if q.len() == 0 {
        lemma_stable_sorted_empty(q, t, algorithm);
    } else {
        lemma_stable_sorted_step(q, t, algorithm);
        let b = first_best(q, t, algorithm);
        let rest = q.remove(b);
        lemma_stable_sorted_permutes(rest, t, algorithm);
        vstd::seq_lib::lemma_multiset_commutative(seq![q[b]], stable_sorted(rest, t, algorithm));
        assert(seq![q[b]].to_multiset() =~= Multiset::<u128>::empty().insert(q[b])) by {
            assert(seq![q[b]] == Seq::<u128>::empty().push(q[b]));
            assert(Seq::<u128>::empty().to_multiset() =~= Multiset::<u128>::empty());
        }
        assert(stable_sorted(q, t, algorithm).to_multiset() =~= q.to_multiset());
    }
}

/// The stable sort orders by descending rank.
pub proof fn lemma_stable_sorted_sorted(q: Seq<u128>, t: Seq<Process>, algorithm: SchedulingAlgorithm)
    ensures
        forall|i: int, j: int|
            0 <= i < j < stable_sorted(q, t, algorithm).len() ==> rank_of(
                t,
                #[trigger] stable_sorted(q, t, algorithm)[i],
                algorithm,
            ) >= rank_of(t, #[trigger] stable_sorted(q, t, algorithm)[j], algorithm),
    decreases q.len(),
{
    broadcast use vstd::seq_lib::group_to_multiset_ensures;

    if q.len() == 0 {
        lemma_stable_sorted_empty(q, t, algorithm);
    }
    if q.len() > 0 {
        lemma_stable_sorted_step(q, t, algorithm);
        lemma_first_best_is_best(q, t, algorithm);
        let b = first_best(q, t, algorithm);
        let rest = q.remove(b);
        let sr = stable_sorted(rest, t, algorithm);
        let out = stable_sorted(q, t, algorithm);
        lemma_stable_sorted_sorted(rest, t, algorithm);
        lemma_stable_sorted_permutes(rest, t, algorithm);
        assert forall|i: int, j: int| 0 <= i < j < out.len() implies rank_of(t, #[trigger] out[i], algorithm) >= rank_of(
            t,
            #[trigger] out[j],
            algorithm,
        ) by {
            assert(out[j] == sr[j - 1]);
            if i == 0 {
                assert(out[0] == q[b]);
                assert(sr.to_multiset().count(sr[j - 1]) > 0);
                assert(rest.contains(sr[j - 1]));
                let k = choose|k: int| 0 <= k < rest.len() && rest[k] == sr[j - 1];
                let src = if k < b { k } else { k + 1 };
                assert(rest[k] == q[src]);
            } else {
                assert(out[i] == sr[i - 1]);
            }
        }
    }
}

/// The elements of `q` whose rank is `v`, in order.
pub open spec fn with_rank(q: Seq<u128>, t: Seq<Process>, algorithm: SchedulingAlgorithm, v: int) -> Seq<u128> {
    q.filter(|y: u128| rank_of(t, y, algorithm) == v)
}

/// The stable sort is stable: the elements of each rank keep their order.
pub proof fn lemma_stable_sorted_stable(q: Seq<u128>, t: Seq<Process>, algorithm: SchedulingAlgorithm, v: int)
    ensures
        with_rank(stable_sorted(q, t, algorithm), t, algorithm, v) == with_rank(q, t, algorithm, v),
    decreases q.len(),
{
    let p = |y: u128| rank_of(t, y, algorithm) == v;
    if q.len() == 0 {
        lemma_stable_sorted_empty(q, t, algorithm);
    } else {
        lemma_stable_sorted_step(q, t, algorithm);
        lemma_first_best_is_best(q, t, algorithm);
        let b = first_best(q, t, algorithm);
        let x = q[b];
        let rest = q.remove(b);
        lemma_stable_sorted_stable(rest, t, algorithm, v);
        let a = q.take(b);
        let c = q.skip(b + 1);
        assert(q =~= a + seq![x] + c);
        assert(rest =~= a + c);
        Seq::filter_distributes_over_add(a, seq![x], p);
        Seq::filter_distributes_over_add(a + seq![x], c, p);
        Seq::filter_distributes_over_add(a, c, p);
        Seq::filter_distributes_over_add(seq![x], stable_sorted(rest, t, algorithm), p);
        assert(seq![x].filter(p) == if p(x) { seq![x] } else { Seq::<u128>::empty() }) by {
            Seq::<u128>::empty().lemma_filter_push(x, p);
            assert(Seq::<u128>::empty().push(x) =~= seq![x]);
            reveal(Seq::filter);
        }
        if p(x) {
            assert(a.all(|y: u128| !p(y))) by {
                assert forall|k: int| 0 <= k < a.len() implies !p(#[trigger] a[k]) by {
                    assert(a[k] == q[k]);
                }
            }
            a.lemma_all_neg_filter_empty(p);
            assert(a.filter(p) =~= Seq::<u128>::empty());
            assert(Seq::<u128>::empty() + seq![x] + c.filter(p) =~= seq![x] + c.filter(p));
            assert(Seq::<u128>::empty() + c.filter(p) =~= c.filter(p));
        } else {
            assert(a.filter(p) + Seq::<u128>::empty() =~= a.filter(p));
            assert(Seq::<u128>::empty() + stable_sorted(rest, t, algorithm).filter(p) =~= stable_sorted(
                rest,
                t,
                algorithm,
            ).filter(p));
        }
    }
}

/// The rank of process `id` in the table.
fn rank_in(table: &ProcessTable, id: u128, algorithm: SchedulingAlgorithm) -> (r: i128)
    ensures
        r == rank_of(table.processes@, id, algorithm),
{
    let ghost t = table.processes@;
    let mut i: usize = 0;
    assert(t.skip(0) =~= t);
    while i < table.processes.len()
        invariant
            0 <= i <= t.len(),
            t == table.processes@,
            rank_of(t, id, algorithm) == rank_of(t.skip(i as int), id, algorithm),
        decreases t.len() - i,
    {
        proof {
            assert(t.skip(i as int)[0] == t[i as int]);
            assert(t.skip(i as int).drop_first() =~= t.skip(i + 1));
        }
        if table.processes[i].id == id {
            return match algorithm {
                SchedulingAlgorithm::ShortestJobFirst => -(table.processes[i].cpu_time as i128),
                _ => table.processes[i].priority as i128,
            };
        }
        i = i + 1;
    }
    0
}

/// The index of the first element of `q` with the highest rank.
fn find_first_best(q: &Vec<u128>, table: &ProcessTable, algorithm: SchedulingAlgorithm) -> (r: usize)
    requires
        q@.len() > 0,
    ensures
        r == first_best(q@, table.processes@, algorithm),
        r < q@.len(),
{
    let ghost t = table.processes@;
    let mut b: usize = 0;
    let mut best = rank_in(table, q[0], algorithm);
    let mut i: usize = 1;
    proof {
        assert(q@.take(1).len() == 1);
    }
    while i < q.len()
        invariant
            1 <= i <= q@.len(),
            t == table.processes@,
            b < i,
            b as int == first_best(q@.take(i as int), t, algorithm),
            best == rank_of(t, q@[b as int], algorithm),
        decreases q@.len() - i,
    {
        let k = rank_in(table, q[i], algorithm);
        proof {
            let p = q@.take(i + 1);
            assert(p.drop_last() =~= q@.take(i as int));
            assert(p.last() == q@[i as int]);
            assert(p[b as int] == q@[b as int]);
        }
        if k > best {
            b = i;
            best = k;
        }
        i = i + 1;
    }
    proof {
        assert(q@.take(q@.len() as int) =~= q@);
    }
    b
}

impl CPUScheduler {
    /// An idle scheduler with an empty queue.
    pub fn new(algorithm: SchedulingAlgorithm, time_quantum: u64) -> (r: Self)
        ensures
            r@ == (SchedState {
                algorithm,
                queue: Seq::<u128>::empty(),
                running: None,
                quantum: time_quantum,
                slice: 0,
                clock: 0,
            }),
    {
        CPUScheduler {
            algorithm,
            ready_queue: VecDeque::new(),
            running_process: None,
            time_quantum,
            current_time_slice: 0,
            clock: 0,
        }
    }

    /// Appends `process_id` to the back of the ready queue.
    pub fn add_process(&mut self, process_id: u128)
        ensures
            final(self)@ == (SchedState { queue: old(self)@.queue.push(process_id), ..old(self)@ }),
    {
        self.ready_queue.push_back(process_id);
    }

    /// Takes `process_id` out of the ready queue, and off the processor if it runs.
    pub fn remove_process(&mut self, process_id: u128)
        ensures
            !final(self)@.queue.contains(process_id),
            final(self)@.queue == without(old(self)@.queue, process_id),
            old(self)@.running == Some(process_id) ==> final(self)@.running is None && final(self)@.slice == 0,
            old(self)@.running != Some(process_id) ==> final(self)@.running == old(self)@.running
                && final(self)@.slice == old(self)@.slice,
            final(self)@.algorithm == old(self)@.algorithm,
            final(self)@.quantum == old(self)@.quantum,
            final(self)@.clock == old(self)@.clock,
    {
        let ghost q0 = self.ready_queue@;
        let mut kept: VecDeque<u128> = VecDeque::new();
        let mut i: usize = 0;
        while i < self.ready_queue.len()
            invariant
                0 <= i <= q0.len(),
                self.ready_queue@ == q0,
                kept@ == without(q0.take(i as int), process_id),
            decreases q0.len() - i,
        {
            let x = self.ready_queue[i];
            proof {
                let p = q0.take(i + 1);
                assert(p.drop_last() =~= q0.take(i as int));
                assert(p.last() == x);
            }
            if x != process_id {
                kept.push_back(x);
            }
            i = i + 1;
        }
        proof {
            assert(q0.take(q0.len() as int) =~= q0);
            lemma_without_excludes(q0, process_id);
        }
        self.ready_queue = kept;
        if self.running_process == Some(process_id) {
            self.running_process = None;
            self.current_time_slice = 0;
        }
    }

    /// Advances time by one tick.
    pub fn tick(&mut self, processes: &mut ProcessTable)
        requires
            old(processes).wf(),
        ensures
            final(processes).wf(),
            (final(self)@, final(processes).processes@) == tick_spec(old(self)@, old(processes).processes@),
    {
        self.clock = self.clock.saturating_add(1);
        if let Some(id) = self.running_process {
            self.current_time_slice = self.current_time_slice.saturating_add(1);
            processes.charge_tick(id);
        }
    }

    /// Sends the running process back to the queue when its slice is used up.
    fn preempt_expired(&mut self, processes: &mut ProcessTable)
        requires
            old(processes).wf(),
        ensures
            final(processes).wf(),
            (final(self)@, final(processes).processes@) == preempt_spec(old(self)@, old(processes).processes@),
    {
        if let Some(id) = self.running_process {
            if self.current_time_slice >= self.time_quantum {
                processes.demote(id);
                self.ready_queue.push_back(id);
                self.running_process = None;
                self.current_time_slice = 0;
            }
        }
    }

    /// Orders the ready queue by the policy, stably.
    fn reorder_ready_queue(&mut self, processes: &ProcessTable)
        ensures
            final(self)@ == (SchedState {
                queue: reordered(old(self)@.queue, processes.processes@, old(self)@.algorithm),
                ..old(self)@
            }),
    {
        if self.algorithm == SchedulingAlgorithm::RoundRobin {
            return;
        }
        let ghost t = processes.processes@;
        let ghost q0 = self.ready_queue@;
        let mut rest: Vec<u128> = Vec::new();
        let mut i: usize = 0;
        while i < self.ready_queue.len()
            invariant
                0 <= i <= self.ready_queue@.len(),
                self.ready_queue@ == q0,
                rest@ == q0.take(i as int),
            decreases q0.len() - i,
        {
            rest.push(self.ready_queue[i]);
            i = i + 1;
        }
        proof {
            assert(q0.take(q0.len() as int) =~= q0);
        }
        let mut sorted: VecDeque<u128> = VecDeque::new();
        while rest.len() > 0
            invariant
                sorted@ + stable_sorted(rest@, t, self.algorithm) == stable_sorted(q0, t, self.algorithm),
                t == processes.processes@,
            decreases rest@.len(),
        {
            let b = find_first_best(&rest, processes, self.algorithm);
            proof {
                lemma_stable_sorted_step(rest@, t, self.algorithm);
            }
            let x = rest.remove(b);
            proof {
                assert(sorted@.push(x) + stable_sorted(rest@, t, self.algorithm) =~= sorted@ + (seq![x]
                    + stable_sorted(rest@, t, self.algorithm)));
            }
            sorted.push_back(x);
        }
        proof {
            lemma_stable_sorted_empty(rest@, t, self.algorithm);
            assert(sorted@ =~= sorted@ + rest@);
        }
        self.ready_queue = sorted;
    }

    /// Runs the head of the ready queue when nothing is running.
    fn dispatch_next(&mut self, processes: &mut ProcessTable) -> (r: Option<u128>)
        requires
            old(processes).wf(),
        ensures
            final(processes).wf(),
            old(self).running_process is Some ==> r == old(self).running_process && final(self)@ == old(self)@
                && final(processes).processes@ == old(processes).processes@,
            old(self).running_process is None && old(self).ready_queue@.len() > 0 ==> {
                let next = old(self).ready_queue@[0];
                &&& r == Some(next)
                &&& final(self)@ == (SchedState {
                    queue: old(self)@.queue.drop_first(),
                    running: Some(next),
                    ..old(self)@
                })
                &&& final(processes).processes@ == dispatched(old(processes).processes@, next, old(self).clock)
            },
            old(self).running_process is None && old(self).ready_queue@.len() == 0 ==> r is None && final(self)@
                == old(self)@ && final(processes).processes@ == old(processes).processes@,
    {
        if self.running_process.is_some() {
            return self.running_process;
        }
        match self.ready_queue.pop_front() {
            Some(next) => {
                processes.dispatch(next, self.clock);
                self.running_process = Some(next);
                Some(next)
            },
            None => None,
        }
    }

    /// Preempts the running process if its quantum is used up, orders the
    /// ready queue by the policy, and runs the head of the queue if nothing
    /// runs. Returns the process that now runs.
    pub fn schedule(&mut self, processes: &mut ProcessTable) -> (r: Option<u128>)
        requires
            old(processes).wf(),
        ensures
            final(processes).wf(),
            (final(self)@, final(processes).processes@, r) == schedule_spec(old(self)@, old(processes).processes@),
    {
        self.preempt_expired(processes);
        self.reorder_ready_queue(processes);
        self.dispatch_next(processes)
    }
}

} // verus!

verus! {

/// One step of the background loop: a tick, then a scheduling decision.
pub open spec fn step_spec(s: SchedState, t: Seq<Process>) -> (SchedState, Seq<Process>) {
    let (s1, t1) = tick_spec(s, t);
    let (s2, t2, _) = schedule_spec(s1, t1);
    (s2, t2)
}

/// `n` steps of the background loop.
pub open spec fn run_spec(s: SchedState, t: Seq<Process>, n: nat) -> (SchedState, Seq<Process>)
    decreases n,
{
    if n == 0 {
        (s, t)
    } else {
        let (s1, t1) = run_spec(s, t, (n - 1) as nat);
        step_spec(s1, t1)
    }
}

/// The CPU time process `id` has gained, `r` ticks into the quantum of
/// `ids[j]`: a quantum for each earlier process of the queue, `r` for `ids[j]`,
/// none for the others.
pub open spec fn rr_gain(ids: Seq<u128>, q: u64, j: int, r: int, id: u128) -> int {
    if ids.take(j).contains(id) {
        q as int
    } else if id == ids[j] {
        r
    } else {
        0
    }
}

/// Round robin over `ids`, `r` ticks into the quantum of `ids[j]`.
pub open spec fn rr_phase(
    s: SchedState,
    t: Seq<Process>,
    t0: Seq<Process>,
    ids: Seq<u128>,
    q: u64,
    j: int,
    r: int,
) -> bool {
    &&& 0 <= j < ids.len()
    &&& 0 <= r < q
    &&& s.algorithm == SchedulingAlgorithm::RoundRobin
    &&& s.quantum == q
    &&& s.running == Some(ids[j])
    &&& s.slice == r
    &&& s.queue == ids.skip(j + 1) + ids.take(j)
    &&& t.len() == t0.len()
    &&& forall|x: int|
        0 <= x < t0.len() ==> (#[trigger] t[x]).id == t0[x].id && t[x].cpu_time == t0[x].cpu_time + rr_gain(
            ids,
            q,
            j,
            r,
            t0[x].id,
        )
}

/// The conditions under which the round-robin law is stated: the queue holds
/// `ids`, without repetition, nothing runs, the table has distinct
/// identifiers, and no queued process's CPU time can saturate within one
/// quantum.
pub open spec fn rr_start(s0: SchedState, t0: Seq<Process>, ids: Seq<u128>) -> bool {
    &&& s0.algorithm == SchedulingAlgorithm::RoundRobin
    &&& s0.quantum >= 1
    &&& s0.queue == ids
    &&& ids.no_duplicates()
    &&& s0.running is None
    &&& s0.slice == 0
    &&& ids.len() >= 1
    &&& crate::process::ids_distinct(t0)
    &&& forall|x: int|
        0 <= x < t0.len() && ids.contains(#[trigger] t0[x].id) ==> t0[x].cpu_time + s0.quantum <= u64::MAX
}

proof fn lemma_rr_step(s: SchedState, t: Seq<Process>, t0: Seq<Process>, ids: Seq<u128>, q: u64, j: int, r: int)
    requires
        rr_phase(s, t, t0, ids, q, j, r),
        ids.no_duplicates(),
        crate::process::ids_distinct(t0),
        forall|x: int| 0 <= x < t0.len() && ids.contains(#[trigger] t0[x].id) ==> t0[x].cpu_time + q <= u64::MAX,
    ensures
        r + 1 < q ==> rr_phase(step_spec(s, t).0, step_spec(s, t).1, t0, ids, q, j, r + 1),
        r + 1 == q && j + 1 < ids.len() ==> rr_phase(step_spec(s, t).0, step_spec(s, t).1, t0, ids, q, j + 1, 0),
        r + 1 == q && j + 1 == ids.len() ==> {
            let t2 = step_spec(s, t).1;
            &&& t2.len() == t0.len()
            &&& forall|x: int|
                0 <= x < t0.len() ==> (#[trigger] t2[x]).cpu_time == t0[x].cpu_time + if ids.contains(t0[x].id) {
                    q as int
                } else {
                    0
                }
            &&& step_spec(s, t).0.running == Some(ids[0])
        },
{
    let id = ids[j];
    let (s1, t1) = tick_spec(s, t);
    assert(s1.slice == r + 1);
    assert(!ids.take(j).contains(id)) by {
        if ids.take(j).contains(id) {
            let k = choose|k: int| 0 <= k < j && #[trigger] ids.take(j)[k] == id;
            assert(ids[k] == ids[j]);
        }
    }
    assert forall|x: int| 0 <= x < t0.len() implies (#[trigger] t1[x]).id == t0[x].id && t1[x].cpu_time == t[x].cpu_time
        + (if t0[x].id == id { 1int } else { 0int }) by {
        if t0[x].id == id {
            assert(ids.contains(id)) by {
                assert(ids[j] == id);
            }
            assert(t[x].cpu_time == t0[x].cpu_time + r);
        }
    }
    let (s2, t2, _) = schedule_spec(s1, t1);
    if r + 1 < q {
        assert(s2.queue == s1.queue);
        assert(t2 == t1);
    } else {
        let (sp, tp) = preempt_spec(s1, t1);
        assert(sp.queue == s.queue.push(id));
        assert(forall|x: int| 0 <= x < t0.len() ==> (#[trigger] tp[x]).id == t1[x].id && tp[x].cpu_time == t1[x].cpu_time);
        let qq = sp.queue;
        assert(qq =~= ids.skip(j + 1) + ids.take(j + 1));
        if j + 1 < ids.len() {
            assert(qq[0] == ids[j + 1]);
            assert(qq.drop_first() =~= ids.skip(j + 2) + ids.take(j + 1));
        } else {
            assert(qq =~= ids);
            assert(qq[0] == ids[0]);
        }
        assert(forall|x: int| 0 <= x < t0.len() ==> (#[trigger] t2[x]).id == tp[x].id && t2[x].cpu_time == tp[x].cpu_time);
        assert forall|x: int| 0 <= x < t0.len() implies ids.take(j + 1).contains(#[trigger] t0[x].id) == (ids.take(
            j,
        ).contains(t0[x].id) || t0[x].id == id) by {
            let v = t0[x].id;
            assert(ids.take(j + 1) == ids.take(j).push(id));
            if ids.take(j + 1).contains(v) && v != id {
                let k = choose|k: int| 0 <= k < j + 1 && #[trigger] ids.take(j + 1)[k] == v;
                assert(ids.take(j)[k] == v);
            }
            if ids.take(j).contains(v) {
                let k = choose|k: int| 0 <= k < j && #[trigger] ids.take(j)[k] == v;
                assert(ids.take(j + 1)[k] == v);
            }
            if v == id {
                assert(ids.take(j + 1)[j] == v);
            }
        }
        if j + 1 == ids.len() {
            assert(ids.take(j + 1) =~= ids);
        } else {
            assert forall|x: int| 0 <= x < t0.len() && t0[x].id == ids[j + 1] implies !ids.take(j + 1).contains(
                #[trigger] t0[x].id,
            ) by {
                if ids.take(j + 1).contains(ids[j + 1]) {
                    let k = choose|k: int| 0 <= k < j + 1 && #[trigger] ids.take(j + 1)[k] == ids[j + 1];
                    assert(ids[k] == ids[j + 1]);
                }
            }
        }
    }
}

proof fn lemma_rr_run(s1: SchedState, t1: Seq<Process>, t0: Seq<Process>, ids: Seq<u128>, q: u64, j: int, r: int)
    requires
        rr_phase(s1, t1, t0, ids, q, 0, 0),
        ids.no_duplicates(),
        crate::process::ids_distinct(t0),
        forall|x: int| 0 <= x < t0.len() && ids.contains(#[trigger] t0[x].id) ==> t0[x].cpu_time + q <= u64::MAX,
        0 <= j < ids.len(),
        0 <= r < q,
    ensures
        rr_phase(run_spec(s1, t1, (j * q + r) as nat).0, run_spec(s1, t1, (j * q + r) as nat).1, t0, ids, q, j, r),
    decreases j, r,
{
    assert(j * q >= 0) by (nonlinear_arith)
        requires
            j >= 0,
            q >= 0,
    ;
    if r > 0 {
        lemma_rr_run(s1, t1, t0, ids, q, j, r - 1);
        let n = (j * q + r - 1) as nat;
        assert((j * q + r) as nat == n + 1);
        let (sa, ta) = run_spec(s1, t1, n);
        lemma_rr_step(sa, ta, t0, ids, q, j, r - 1);
        assert(run_spec(s1, t1, n + 1) == step_spec(sa, ta));
    } else if j > 0 {
        lemma_rr_run(s1, t1, t0, ids, q, j - 1, q - 1);
        let n = ((j - 1) * q + q - 1) as nat;
        assert(j * q + r == n + 1) by (nonlinear_arith)
            requires
                r == 0,
                n == (j - 1) * q + q - 1,
                j >= 1,
                q >= 1,
        ;
        let (sa, ta) = run_spec(s1, t1, n);
        lemma_rr_step(sa, ta, t0, ids, q, j - 1, q - 1);
        assert(run_spec(s1, t1, n + 1) == step_spec(sa, ta));
    } else {
        assert(j * q == 0) by (nonlinear_arith)
            requires
                j == 0,
        ;
        assert(run_spec(s1, t1, 0) == (s1, t1));
    }
}

/// Round robin is fair: with `N` distinct processes queued and quantum `Q`,
/// after the first scheduling decision and then `N * Q` steps of tick and
/// schedule, the queue's `j`-th process runs during steps `j * Q` to
/// `j * Q + Q - 1`, in queue order, every queued process has been charged
/// exactly `Q` ticks, and every other process none.
pub proof fn lemma_round_robin_fairness(s0: SchedState, t0: Seq<Process>, ids: Seq<u128>)
    requires
        rr_start(s0, t0, ids),
    ensures
        ({
            let (s1, t1, first) = schedule_spec(s0, t0);
            let q = s0.quantum as int;
            &&& first == Some(ids[0])
            &&& forall|j: int, r: int|
                0 <= j < ids.len() && 0 <= r < q ==> (#[trigger] run_spec(s1, t1, (j * q + r) as nat)).0.running
                    == Some(ids[j])
            &&& run_spec(s1, t1, (ids.len() * q) as nat).1.len() == t0.len()
            &&& forall|x: int|
                0 <= x < t0.len() ==> (#[trigger] run_spec(s1, t1, (ids.len() * q) as nat).1[x]).cpu_time
                    == t0[x].cpu_time + if ids.contains(t0[x].id) {
                    q
                } else {
                    0
                }
        }),
{
    let q = s0.quantum;
    let (s1, t1, first) = schedule_spec(s0, t0);
    assert(s1.queue =~= ids.skip(1) + ids.take(0));
    assert(forall|x: int| 0 <= x < t0.len() ==> (#[trigger] t1[x]).id == t0[x].id && t1[x].cpu_time == t0[x].cpu_time);
    assert(forall|x: int| 0 <= x < t0.len() ==> !ids.take(0).contains(#[trigger] t0[x].id));
    assert forall|x: int| 0 <= x < t0.len() implies (#[trigger] t1[x]).cpu_time == t0[x].cpu_time + rr_gain(
        ids,
        q,
        0,
        0,
        t0[x].id,
    ) by {
        assert(!ids.take(0).contains(t0[x].id));
    }
    assert(rr_phase(s1, t1, t0, ids, q, 0, 0));
    assert forall|j: int, r: int| 0 <= j < ids.len() && 0 <= r < q implies (#[trigger] run_spec(
        s1,
        t1,
        (j * q + r) as nat,
    )).0.running == Some(ids[j]) by {
        lemma_rr_run(s1, t1, t0, ids, q, j, r);
    }
    let n = ids.len() as int;
    lemma_rr_run(s1, t1, t0, ids, q, n - 1, q - 1);
    let k = ((n - 1) * q + q - 1) as nat;
    assert(n * q == k + 1) by (nonlinear_arith)
        requires
            k == (n - 1) * q + q - 1,
            n >= 1,
            q >= 1,
    ;
    let (sa, ta) = run_spec(s1, t1, k);
    lemma_rr_step(sa, ta, t0, ids, q, n - 1, q - 1);
    assert(run_spec(s1, t1, k + 1) == step_spec(sa, ta));
}

} // verus!
