//! Processes and the table that owns them.
use vstd::prelude::*;

use crate::ids::{pick_fresh_id, random_id};
use crate::memory::{
    allocate_post, allocated_blocks, deallocate_post, holds_allocated, lemma_filter_agree, released, MemoryBlock, MemoryError,
    MemoryManager,
};

verus! {

/// Where a process stands in its lifecycle.
#[derive(Clone, Copy, Debug, PartialEq, Eq, Structural)]
pub enum ProcessState {
    Ready,
    Running,
    Blocked,
    Terminated,
}

/// Why a process operation failed.
#[derive(Clone, Copy, Debug, PartialEq, Eq, Structural)]
pub enum ProcessError {
    ProcessNotFound,
}

/// Scheduling and ownership data of one process. Times are counted in
/// scheduler ticks.
#[derive(Debug)]
pub struct Process {
    pub id: u128,
    pub name: String,
    pub priority: u8,
    pub state: ProcessState,
    pub memory_blocks: Vec<u128>,
    pub cpu_time: u64,
    pub creation_time: u64,
    pub last_run_time: Option<u64>,
}

/// `ids` without the occurrences of `x`.
pub open spec fn without(ids: Seq<u128>, x: u128) -> Seq<u128>
    decreases ids.len(),
{
    if ids.len() == 0 {
        ids
    } else if ids.last() == x {
        without(ids.drop_last(), x)
    } else {
        without(ids.drop_last(), x).push(ids.last())
    }
}

/// `without(ids, x)` does not hold `x`.
pub proof fn lemma_without_excludes(ids: Seq<u128>, x: u128)
    ensures
        !without(ids, x).contains(x),
    decreases ids.len(),
{
    if ids.len() > 0 {
        lemma_without_excludes(ids.drop_last(), x);
        let w = without(ids.drop_last(), x);
        if ids.last() != x {
            assert forall|k: int| 0 <= k < w.len() + 1 implies w.push(ids.last())[k] != x by {
                if k < w.len() {
                    assert(w.push(ids.last())[k] == w[k]);
                }
            }
        }
    }
}

/// The allocated blocks of `s` whose identifiers are not among `ids`.
pub open spec fn kept_blocks(s: Seq<MemoryBlock>, ids: Seq<u128>) -> Seq<MemoryBlock> {
    s.filter(|b: MemoryBlock| b.allocated && !ids.contains(b.id))
}

/// Filtering twice is filtering once by both conditions.
proof fn lemma_filter_filter(
    s: Seq<MemoryBlock>,
    p: spec_fn(MemoryBlock) -> bool,
    q: spec_fn(MemoryBlock) -> bool,
    r: spec_fn(MemoryBlock) -> bool,
)
    requires
        forall|x: MemoryBlock| #[trigger] r(x) == (p(x) && q(x)),
    ensures
        s.filter(p).filter(q) == s.filter(r),
    decreases s.len(),
{
    reveal(Seq::filter);
    if s.len() > 0 {
        lemma_filter_filter(s.drop_last(), p, q, r);
        let e = s.last();
        if p(e) {
            s.drop_last().filter(p).lemma_filter_push(e, q);
            assert(s.filter(p) == s.drop_last().filter(p).push(e));
        }
    }
}

/// Releasing one more block of `ids` extends the kept-blocks relation.
proof fn lemma_release_step(old_blocks: Seq<MemoryBlock>, cur: Seq<MemoryBlock>, ids: Seq<u128>, i: int)
    requires
        0 <= i < ids.len(),
        allocated_blocks(cur) == kept_blocks(old_blocks, ids.take(i)),
    ensures
        released(cur, ids[i]) == kept_blocks(old_blocks, ids.take(i + 1)),
{
    let x = ids[i];
    let pa = |b: MemoryBlock| b.allocated;
    let qx = |b: MemoryBlock| b.id != x;
    let rel = |b: MemoryBlock| b.allocated && b.id != x;
    lemma_filter_filter(cur, pa, qx, rel);
    let ki = |b: MemoryBlock| b.allocated && !ids.take(i).contains(b.id);
    let kj = |b: MemoryBlock| b.allocated && !ids.take(i + 1).contains(b.id);
    assert forall|b: MemoryBlock| #[trigger] kj(b) == (ki(b) && qx(b)) by {
        assert(ids.take(i + 1) == ids.take(i).push(x));
        if ids.take(i + 1).contains(b.id) && b.id != x {
            let k = choose|k: int| 0 <= k < i + 1 && #[trigger] ids.take(i + 1)[k] == b.id;
            assert(ids.take(i)[k] == b.id);
        }
        if ids.take(i).contains(b.id) {
            let k = choose|k: int| 0 <= k < i && #[trigger] ids.take(i)[k] == b.id;
            assert(ids.take(i + 1)[k] == b.id);
        }
        if b.id == x {
            assert(ids.take(i + 1)[i] == x);
        }
    }
    lemma_filter_filter(old_blocks, ki, qx, kj);
}

/// The two processes agree on everything but the state and the owned blocks.
pub open spec fn same_record(p: Process, q: Process) -> bool {
    &&& p.id == q.id
    &&& p.name@ == q.name@
    &&& p.priority == q.priority
    &&& p.cpu_time == q.cpu_time
    &&& p.creation_time == q.creation_time
    &&& p.last_run_time == q.last_run_time
}

impl Process {
    /// A new ready process with a random identifier, no memory and no CPU time.
    pub fn new(name: String, priority: u8) -> (r: Self)
        ensures
            r.name@ == name@,
            r.priority == priority,
            r.state == ProcessState::Ready,
            r.memory_blocks@.len() == 0,
            r.cpu_time == 0,
            r.creation_time == 0,
            r.last_run_time is None,
    {
        Process {
            id: random_id(),
            name,
            priority,
            state: ProcessState::Ready,
            memory_blocks: Vec::new(),
            cpu_time: 0,
            creation_time: 0,
            last_run_time: None,
        }
    }

    /// Allocates `size` units for this process and records the block, only
    /// when the allocation succeeds.
    pub fn allocate_memory(&mut self, memory_manager: &mut MemoryManager, size: usize) -> (r: Result<u128, MemoryError>)
        requires
            old(memory_manager).wf(),
            old(self).state != ProcessState::Terminated,
        ensures
            allocate_post(*old(memory_manager), *final(memory_manager), size as nat, old(self).id, r),
            same_record(*final(self), *old(self)),
            final(self).state == old(self).state,
            r is Ok ==> final(self).memory_blocks@ == old(self).memory_blocks@.push(r->Ok_0),
            r is Err ==> *final(self) == *old(self),
    {
        let block_id = memory_manager.allocate(size, self.id)?;
        self.memory_blocks.push(block_id);
        Ok(block_id)
    }

    /// Frees block `block_id` and, when that succeeds, forgets it.
    pub fn deallocate_memory(&mut self, memory_manager: &mut MemoryManager, block_id: u128) -> (r: Result<(), MemoryError>)
        requires
            old(memory_manager).wf(),
        ensures
            deallocate_post(*old(memory_manager), *final(memory_manager), block_id, r),
            same_record(*final(self), *old(self)),
            final(self).state == old(self).state,
            r is Ok ==> final(self).memory_blocks@ == without(old(self).memory_blocks@, block_id),
            r is Err ==> *final(self) == *old(self),
    {
        memory_manager.deallocate(block_id)?;
        let mut kept: Vec<u128> = Vec::new();
        let mut i: usize = 0;
        while i < self.memory_blocks.len()
            invariant
                0 <= i <= self.memory_blocks@.len(),
                kept@ == without(self.memory_blocks@.take(i as int), block_id),
            decreases self.memory_blocks@.len() - i,
        {
            proof {
                let t = self.memory_blocks@.take(i + 1);
                assert(t.drop_last() == self.memory_blocks@.take(i as int));
                assert(t.last() == self.memory_blocks@[i as int]);
            }
            let x = self.memory_blocks[i];
            if x != block_id {
                kept.push(x);
            }
            i = i + 1;
        }
        proof {
            assert(self.memory_blocks@.take(self.memory_blocks@.len() as int) =~= self.memory_blocks@);
        }
        self.memory_blocks = kept;
        Ok(())
    }

    /// Frees every block of the process, in order, stopping at the first that
    /// cannot be freed. Either way the process ends Terminated with no blocks.
    pub fn terminate(&mut self, memory_manager: &mut MemoryManager) -> (r: Result<(), MemoryError>)
        requires
            old(memory_manager).wf(),
        ensures
            final(memory_manager).wf(),
            final(memory_manager).total_size == old(memory_manager).total_size,
            same_record(*final(self), *old(self)),
            final(self).state == ProcessState::Terminated,
            final(self).memory_blocks@.len() == 0,
            r is Ok ==> allocated_blocks(final(memory_manager).blocks@) == kept_blocks(
                old(memory_manager).blocks@,
                old(self).memory_blocks@,
            ),
            r is Err ==> r == Err::<(), MemoryError>(MemoryError::BlockNotFound),
            r is Err ==> exists|k: int|
                0 <= k < old(self).memory_blocks@.len() && allocated_blocks(final(memory_manager).blocks@)
                    == #[trigger] kept_blocks(old(memory_manager).blocks@, old(self).memory_blocks@.take(k))
                    && !holds_allocated(final(memory_manager).blocks@, old(self).memory_blocks@[k]),
    {
        let ghost m0 = *memory_manager;
        let ghost ids = self.memory_blocks@;
        let mut result: Result<(), MemoryError> = Ok(());
        let mut i: usize = 0;
        proof {
            let none = ids.take(0);
            assert(none.len() == 0);
            lemma_filter_agree(
                m0.blocks@,
                |b: MemoryBlock| b.allocated,
                |b: MemoryBlock| b.allocated && !none.contains(b.id),
            );
        }
        while i < self.memory_blocks.len() && result.is_ok()
            invariant
                self.memory_blocks@ == ids,
                0 <= i <= ids.len(),
                memory_manager.wf(),
                memory_manager.total_size == m0.total_size,
                allocated_blocks(memory_manager.blocks@) == kept_blocks(m0.blocks@, ids.take(i as int)),
                result is Err ==> {
                    &&& i < ids.len()
                    &&& result == Err::<(), MemoryError>(MemoryError::BlockNotFound)
                    &&& !holds_allocated(memory_manager.blocks@, ids[i as int])
                },
            decreases ids.len() - i + (if result is Ok { 1int } else { 0int }),
        {
            let ghost before = *memory_manager;
            match memory_manager.deallocate(self.memory_blocks[i]) {
                Ok(()) => {
                    proof {
                        lemma_release_step(m0.blocks@, before.blocks@, ids, i as int);
                    }
                    i = i + 1;
                },
                Err(e) => {
                    proof {
                        assert(*memory_manager == before);
                    }
                    result = Err(e);
                },
            }
        }
        proof {
            if result is Ok {
                assert(ids.take(ids.len() as int) =~= ids);
            } else {
                assert(allocated_blocks(memory_manager.blocks@) == kept_blocks(m0.blocks@, ids.take(i as int)));
            }
        }
        self.memory_blocks = Vec::new();
        self.state = ProcessState::Terminated;
        result
    }
}

} // verus!

verus! {

/// Owns the processes, keyed by their distinct identifiers.
pub struct ProcessTable {
    pub processes: Vec<Process>,
}

/// No two processes share an identifier.
pub open spec fn ids_distinct(t: Seq<Process>) -> bool {
    forall|i: int, j: int|
        0 <= i < t.len() && 0 <= j < t.len() && i != j ==> (#[trigger] t[i]).id != (#[trigger] t[j]).id
}

/// Some process of `t` has identifier `id`.
pub open spec fn has_process(t: Seq<Process>, id: u128) -> bool {
    exists|i: int| 0 <= i < t.len() && (#[trigger] t[i]).id == id
}

/// `p` with its state, and the time it was last scheduled, replaced.
pub open spec fn with_state(p: Process, state: ProcessState, last_run_time: Option<u64>) -> Process {
    Process {
        id: p.id,
        name: p.name,
        priority: p.priority,
        state,
        memory_blocks: p.memory_blocks,
        cpu_time: p.cpu_time,
        creation_time: p.creation_time,
        last_run_time,
    }
}

/// `p` with one more tick of CPU time, saturating.
pub open spec fn with_one_more_tick(p: Process) -> Process {
    Process {
        id: p.id,
        name: p.name,
        priority: p.priority,
        state: p.state,
        memory_blocks: p.memory_blocks,
        cpu_time: if p.cpu_time == u64::MAX { p.cpu_time } else { (p.cpu_time + 1) as u64 },
        creation_time: p.creation_time,
        last_run_time: p.last_run_time,
    }
}

/// The table with the process `id` (if any) demoted to Ready.
pub open spec fn demoted(t: Seq<Process>, id: u128) -> Seq<Process> {
    Seq::new(t.len(), |k: int| if t[k].id == id { with_state(t[k], ProcessState::Ready, t[k].last_run_time) } else { t[k] })
}

/// The table with the process `id` (if any) Running since `now`.
pub open spec fn dispatched(t: Seq<Process>, id: u128, now: u64) -> Seq<Process> {
    Seq::new(t.len(), |k: int| if t[k].id == id { with_state(t[k], ProcessState::Running, Some(now)) } else { t[k] })
}

/// The table with one more tick of CPU time for the process `id` (if any).
pub open spec fn ticked(t: Seq<Process>, id: u128) -> Seq<Process> {
    Seq::new(t.len(), |k: int| if t[k].id == id { with_one_more_tick(t[k]) } else { t[k] })
}

impl ProcessTable {
    pub open spec fn wf(&self) -> bool {
        ids_distinct(self.processes@)
    }

    /// An empty table.
    pub fn new() -> (r: Self)
        ensures
            r.wf(),
            r.processes@.len() == 0,
    {
        ProcessTable { processes: Vec::new() }
    }

    /// The number of processes.
    pub fn len(&self) -> (r: usize)
        ensures
            r == self.processes@.len(),
    {
        self.processes.len()
    }

    /// The index of process `id`.
    pub fn position(&self, id: u128) -> (r: Option<usize>)
        ensures
            r is Some ==> r->Some_0 < self.processes@.len() && self.processes@[r->Some_0 as int].id == id,
            r is None ==> !has_process(self.processes@, id),
    {
        let mut i: usize = 0;
        while i < self.processes.len()
            invariant
                0 <= i <= self.processes@.len(),
                forall|j: int| 0 <= j < i ==> (#[trigger] self.processes@[j]).id != id,
            decreases self.processes@.len() - i,
        {
            if self.processes[i].id == id {
                return Some(i);
            }
            i = i + 1;
        }
        None
    }

    /// The process `id`.
    pub fn get(&self, id: u128) -> (r: Option<&Process>)
        ensures
            r is Some ==> has_process(self.processes@, id) && r->Some_0.id == id && self.processes@.contains(
                *r->Some_0,
            ),
            r is None ==> !has_process(self.processes@, id),
    {
        match self.position(id) {
            Some(i) => Some(&self.processes[i]),
            None => None,
        }
    }

    /// An identifier that no process of the table carries.
    pub(crate) fn fresh_process_id(&self, candidate: u128) -> (r: u128)
        ensures
            !has_process(self.processes@, r),
    {
        let mut ids: Vec<u128> = Vec::new();
        let mut i: usize = 0;
        while i < self.processes.len()
            invariant
                0 <= i <= self.processes@.len(),
                ids@.len() == i,
                forall|j: int| 0 <= j < i ==> ids@[j] == (#[trigger] self.processes@[j]).id,
            decreases self.processes@.len() - i,
        {
            ids.push(self.processes[i].id);
            i = i + 1;
        }
        let r = pick_fresh_id(candidate, &ids);
        assert forall|j: int| 0 <= j < self.processes@.len() implies (#[trigger] self.processes@[j]).id != r by {
            assert(ids@[j] == self.processes@[j].id);
        }
        r
    }

    /// Adds `process` under an identifier that no other process has: its own
    /// when that is free. Returns the identifier.
    pub fn insert(&mut self, process: Process) -> (r: u128)
        requires
            old(self).wf(),
        ensures
            final(self).wf(),
            !has_process(old(self).processes@, r),
            !has_process(old(self).processes@, process.id) ==> r == process.id,
            final(self).processes@.len() == old(self).processes@.len() + 1,
            final(self).processes@.drop_last() == old(self).processes@,
            final(self).processes@.last().id == r,
            final(self).processes@.last() == (Process { id: r, ..process }),
    {
        let mut process = process;
        let id = match self.position(process.id) {
            None => process.id,
            Some(_) => self.fresh_process_id(process.id),
        };
        process.id = id;
        self.processes.push(process);
        assert(self.processes@.drop_last() =~= old(self).processes@);
        id
    }

    /// Removes and returns the process `id`.
    pub fn remove(&mut self, id: u128) -> (r: Option<Process>)
        requires
            old(self).wf(),
        ensures
            final(self).wf(),
            r is None <==> !has_process(old(self).processes@, id),
            r is None ==> *final(self) == *old(self),
            r is Some ==> exists|i: int|
                0 <= i < old(self).processes@.len() && (#[trigger] old(self).processes@[i]).id == id
                    && final(self).processes@ == old(self).processes@.remove(i) && r->Some_0
                    == old(self).processes@[i],
    {
        match self.position(id) {
            None => None,
            Some(i) => {
                let p = self.processes.remove(i);
                proof {
                    let t = self.processes@;
                    let s = old(self).processes@;
                    assert forall|x: int, y: int|
                        0 <= x < t.len() && 0 <= y < t.len() && x != y implies (#[trigger] t[x]).id
                        != (#[trigger] t[y]).id by {
                        let sx = if x < i { x } else { x + 1 };
                        let sy = if y < i { y } else { y + 1 };
                        assert(s[sx].id == t[x].id && s[sy].id == t[y].id);
                    }
                }
                Some(p)
            },
        }
    }

    /// Demotes the process `id`, if present, to Ready.
    pub fn demote(&mut self, id: u128)
        requires
            old(self).wf(),
        ensures
            final(self).wf(),
            final(self).processes@ == demoted(old(self).processes@, id),
    {
        if let Some(i) = self.position(id) {
            self.processes[i].state = ProcessState::Ready;
        }
        proof {
            self.lemma_single_change(*old(self), id, demoted(old(self).processes@, id));
        }
    }

    /// Marks the process `id`, if present, Running since `now`.
    pub fn dispatch(&mut self, id: u128, now: u64)
        requires
            old(self).wf(),
        ensures
            final(self).wf(),
            final(self).processes@ == dispatched(old(self).processes@, id, now),
    {
        if let Some(i) = self.position(id) {
            self.processes[i].state = ProcessState::Running;
            self.processes[i].last_run_time = Some(now);
            proof {
                let e = dispatched(old(self).processes@, id, now)[i as int];
                assert(self.processes@[i as int] == e);
                assert(self.processes@ =~= old(self).processes@.update(i as int, e));
            }
        }
        proof {
            self.lemma_single_change(*old(self), id, dispatched(old(self).processes@, id, now));
        }
    }

    /// Adds one tick of CPU time, saturating, to the process `id`, if present.
    pub fn charge_tick(&mut self, id: u128)
        requires
            old(self).wf(),
        ensures
            final(self).wf(),
            final(self).processes@ == ticked(old(self).processes@, id),
    {
        if let Some(i) = self.position(id) {
            let c = self.processes[i].cpu_time;
            self.processes[i].cpu_time = c.saturating_add(1);
        }
        proof {
            self.lemma_single_change(*old(self), id, ticked(old(self).processes@, id));
        }
    }

    proof fn lemma_single_change(&self, before: ProcessTable, id: u128, expected: Seq<Process>)
        requires
            before.wf(),
            expected.len() == before.processes@.len(),
            forall|k: int| 0 <= k < expected.len() ==> (#[trigger] expected[k]).id == before.processes@[k].id,
            forall|k: int| 0 <= k < expected.len() && before.processes@[k].id != id ==> #[trigger] expected[k] == before.processes@[k],
            !has_process(before.processes@, id) ==> self.processes@ == before.processes@,
            has_process(before.processes@, id) ==> exists|i: int|
                0 <= i < before.processes@.len() && (#[trigger] before.processes@[i]).id == id && self.processes@
                    == before.processes@.update(i, expected[i]),
        ensures
            self.wf(),
            self.processes@ == expected,
    {
        let s = before.processes@;
        if has_process(s, id) {
            let i = choose|i: int| 0 <= i < s.len() && (#[trigger] s[i]).id == id && self.processes@ == s.update(i, expected[i]);
            assert forall|k: int| 0 <= k < s.len() && k != i implies (#[trigger] s[k]).id != id by {
            }
            assert(self.processes@ =~= expected);
        } else {
            assert(self.processes@ =~= expected);
        }
        let t = self.processes@;
        assert forall|x: int, y: int|
            0 <= x < t.len() && 0 <= y < t.len() && x != y implies (#[trigger] t[x]).id != (#[trigger] t[y]).id by {
            assert(s[x].id == t[x].id && s[y].id == t[y].id);
        }
    }

    /// The first process, in table order, that is Running.
    pub fn running(&self) -> (r: Option<usize>)
        ensures
            r is Some ==> ({
                let i = r->Some_0 as int;
                &&& 0 <= i < self.processes@.len()
                &&& self.processes@[i].state == ProcessState::Running
                &&& forall|j: int| 0 <= j < i ==> (#[trigger] self.processes@[j]).state != ProcessState::Running
            }),
            r is None ==> forall|j: int|
                0 <= j < self.processes@.len() ==> (#[trigger] self.processes@[j]).state != ProcessState::Running,
    {
        let mut i: usize = 0;
        while i < self.processes.len()
            invariant
                0 <= i <= self.processes@.len(),
                forall|j: int| 0 <= j < i ==> (#[trigger] self.processes@[j]).state != ProcessState::Running,
            decreases self.processes@.len() - i,
        {
            if self.processes[i].state == ProcessState::Running {
                return Some(i);
            }
            i = i + 1;
        }
        None
    }
}

} // verus!
