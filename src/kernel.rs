//! The kernel: the memory manager, the process table and the scheduler behind
//! one system-call entry point.
use vstd::prelude::*;

use crate::memory::{
    allocate_post, allocated_blocks, deallocate_post, fits, holds_allocated, stats_of, MemoryError, MemoryManager,
    MemoryStats,
};
use crate::process::{has_process, ids_distinct, kept_blocks, same_record, without, Process, ProcessState, ProcessTable};
use crate::scheduler::{preempt_spec, schedule_spec, tick_spec, CPUScheduler, SchedState, SchedulingAlgorithm};

verus! {

/// The memory every new process receives when it is forked.
pub const INITIAL_PROCESS_MEMORY: usize = 1024;

/// The scheduler's quantum, in ticks.
pub const DEFAULT_TIME_QUANTUM: u64 = 100;

/// A request to the kernel.
#[derive(Debug)]
pub enum SystemCall {
    Fork { name: String, priority: u8 },
    Exit { process_id: u128 },
    AllocateMemory { size: usize },
    DeallocateMemory { block_id: u128 },
    GetProcessInfo { process_id: u128 },
    GetMemoryInfo,
}

/// Why a system call failed.
#[derive(Clone, Copy, Debug, PartialEq, Eq, Structural)]
pub enum CallError {
    /// The memory for the request could not be allocated.
    AllocationFailed(MemoryError),
    /// A block of the exiting process could not be freed.
    TerminationFailed(MemoryError),
    /// The block could not be freed.
    DeallocationFailed(MemoryError),
    ProcessNotFound,
    NoRunningProcess,
    BlockNotFound,
}

/// A copy of a process record.
#[derive(Debug)]
pub struct ProcessInfo {
    pub id: u128,
    pub name: String,
    pub priority: u8,
    pub state: ProcessState,
    pub memory_blocks: Vec<u128>,
    pub cpu_time: u64,
    pub creation_time: u64,
    pub last_run_time: Option<u64>,
}

/// What a successful system call hands back.
#[derive(Debug)]
pub enum CallData {
    ProcessId(u128),
    BlockId(u128),
    Process(ProcessInfo),
    Memory(MemoryStats),
}

/// The answer to every system call.
#[derive(Debug)]
pub struct SystemCallResult {
    pub success: bool,
    pub data: Option<CallData>,
    pub error: Option<CallError>,
}

/// A summary of the whole kernel.
#[derive(Debug)]
pub struct KernelStats {
    pub memory_stats: MemoryStats,
    pub process_count: usize,
    pub running_count: usize,
    pub cpu_cores: usize,
    pub scheduler_algorithm: SchedulingAlgorithm,
}

/// The kernel state.
pub struct Kernel {
    pub memory_manager: MemoryManager,
    pub processes: ProcessTable,
    pub scheduler: CPUScheduler,
    pub cpu_cores: usize,
}

/// A failed result carrying `error`.
pub open spec fn failed(r: SystemCallResult, error: CallError) -> bool {
    !r.success && r.data is None && r.error == Some(error)
}

/// Some free block can serve `size` and the free total suffices.
pub open spec fn can_allocate(m: MemoryManager, size: nat) -> bool {
    size <= m.free_space && exists|j: int| 0 <= j < m.blocks@.len() && fits(#[trigger] m.blocks@[j], size)
}

/// What `Fork { name, priority }` does, from `k` to `n`.
pub open spec fn fork_post(k: Kernel, n: Kernel, name: Seq<char>, priority: u8, r: SystemCallResult) -> bool {
    &&& n.wf()
    &&& n.cpu_cores == k.cpu_cores
    &&& r.success <==> can_allocate(k.memory_manager, INITIAL_PROCESS_MEMORY as nat)
    &&& !r.success ==> {
        &&& r.data is None
        &&& r.error is Some
        &&& n.processes.processes@ == k.processes.processes@
        &&& n.scheduler@ == k.scheduler@
        &&& n.memory_manager == k.memory_manager
    }
    &&& r.success ==> {
        let p = n.processes.processes@.last();
        &&& r.error is None
        &&& r.data == Some(CallData::ProcessId(p.id))
        &&& !has_process(k.processes.processes@, p.id)
        &&& n.processes.processes@.drop_last() == k.processes.processes@
        &&& p.name@ == name
        &&& p.priority == priority
        &&& p.state == ProcessState::Ready
        &&& p.cpu_time == 0
        &&& p.creation_time == k.scheduler.clock
        &&& p.last_run_time is None
        &&& p.memory_blocks@.len() == 1
        &&& allocate_post(
            k.memory_manager,
            n.memory_manager,
            INITIAL_PROCESS_MEMORY as nat,
            p.id,
            Ok(p.memory_blocks@[0]),
        )
        &&& n.scheduler@.queue == k.scheduler@.queue.push(p.id)
        &&& n.scheduler@.running == k.scheduler@.running
        &&& n.scheduler@.slice == k.scheduler@.slice
        &&& n.scheduler@.clock == k.scheduler@.clock
    }
}

/// `i` is the first Running process of `t`.
pub open spec fn is_first_running(t: Seq<Process>, i: int) -> bool {
    &&& 0 <= i < t.len()
    &&& t[i].state == ProcessState::Running
    &&& forall|j: int| 0 <= j < i ==> (#[trigger] t[j]).state != ProcessState::Running
}

/// `i` is the first process of `t` that owns block `block_id`.
pub open spec fn is_first_owner(t: Seq<Process>, block_id: u128, i: int) -> bool {
    &&& 0 <= i < t.len()
    &&& t[i].memory_blocks@.contains(block_id)
    &&& forall|j: int| 0 <= j < i ==> !(#[trigger] t[j]).memory_blocks@.contains(block_id)
}

/// The outcome of a memory request, read back from a call result.
pub open spec fn memory_outcome(r: SystemCallResult) -> Result<u128, MemoryError> {
    match r.data {
        Some(CallData::BlockId(b)) => Ok(b),
        _ => match r.error {
            Some(CallError::AllocationFailed(e)) => Err(e),
            Some(CallError::DeallocationFailed(e)) => Err(e),
            _ => Err(MemoryError::BlockNotFound),
        },
    }
}

/// The outcome of a deallocation, read back from a call result.
pub open spec fn release_outcome(r: SystemCallResult) -> Result<(), MemoryError> {
    if r.success {
        Ok(())
    } else {
        match r.error {
            Some(CallError::DeallocationFailed(e)) => Err(e),
            _ => Err(MemoryError::BlockNotFound),
        }
    }
}

/// The Running processes of `t`, in table order.
pub open spec fn running_processes(t: Seq<Process>) -> Seq<Process> {
    t.filter(|p: Process| p.state == ProcessState::Running)
}

/// What `Exit { process_id }` does, from `k` to `n`: the process leaves the
/// table and the scheduler, and its blocks are freed in order; the call fails
/// exactly when one of them is no longer allocated when its turn comes.
pub open spec fn exit_post(k: Kernel, n: Kernel, process_id: u128, r: SystemCallResult) -> bool {
    &&& n.wf()
    &&& !has_process(k.processes.processes@, process_id) ==> failed(r, CallError::ProcessNotFound) && n == k
    &&& has_process(k.processes.processes@, process_id) ==> exists|i: int|
        0 <= i < k.processes.processes@.len() && (#[trigger] k.processes.processes@[i]).id == process_id
            && exit_removed(k, n, process_id, k.processes.processes@[i].memory_blocks@, i, r)
}

/// `Exit` of the process at index `i`, which owned `blocks`.
pub open spec fn exit_removed(
    k: Kernel,
    n: Kernel,
    process_id: u128,
    blocks: Seq<u128>,
    i: int,
    r: SystemCallResult,
) -> bool {
    &&& n.processes.processes@ == k.processes.processes@.remove(i)
    &&& !has_process(n.processes.processes@, process_id)
    &&& n.cpu_cores == k.cpu_cores
    &&& n.memory_manager.total_size == k.memory_manager.total_size
    &&& n.scheduler@.queue == without(k.scheduler@.queue, process_id)
    &&& !n.scheduler@.queue.contains(process_id)
    &&& n.scheduler@.running != Some(process_id)
    &&& k.scheduler@.running != Some(process_id) ==> n.scheduler@.running == k.scheduler@.running
        && n.scheduler@.slice == k.scheduler@.slice
    &&& n.scheduler@.algorithm == k.scheduler@.algorithm
    &&& n.scheduler@.quantum == k.scheduler@.quantum
    &&& n.scheduler@.clock == k.scheduler@.clock
    &&& r.data is None
    &&& r.success ==> r.error is None && allocated_blocks(n.memory_manager.blocks@) == kept_blocks(
        k.memory_manager.blocks@,
        blocks,
    )
    &&& !r.success ==> r.error == Some(CallError::TerminationFailed(MemoryError::BlockNotFound)) && exists|j: int|
        0 <= j < blocks.len() && allocated_blocks(n.memory_manager.blocks@) == #[trigger] kept_blocks(
            k.memory_manager.blocks@,
            blocks.take(j),
        ) && !holds_allocated(n.memory_manager.blocks@, blocks[j])
}

/// What `AllocateMemory { size }` does, from `k` to `n`: the first Running
/// process gets the block, or the call fails and nothing changes.
pub open spec fn allocate_call_post(k: Kernel, n: Kernel, size: nat, r: SystemCallResult) -> bool {
    &&& n.wf()
    &&& n.cpu_cores == k.cpu_cores
    &&& n.scheduler@ == k.scheduler@
    &&& (forall|j: int| 0 <= j < k.processes.processes@.len()
        ==> (#[trigger] k.processes.processes@[j]).state != ProcessState::Running) ==> failed(
        r,
        CallError::NoRunningProcess,
    ) && n.processes.processes@ == k.processes.processes@ && n.memory_manager == k.memory_manager
    &&& forall|i: int| #[trigger] is_first_running(k.processes.processes@, i) ==> {
        let t0 = k.processes.processes@;
        let t1 = n.processes.processes@;
        &&& allocate_post(k.memory_manager, n.memory_manager, size, t0[i].id, memory_outcome(r))
        &&& r.success <==> memory_outcome(r) is Ok
        &&& !r.success ==> r.data is None && t1 == t0
        &&& r.success ==> r.error is None && t1.len() == t0.len() && (forall|x: int|
            0 <= x < t0.len() && x != i ==> t1[x] == t0[x]) && t1[i].memory_blocks@ == t0[i].memory_blocks@.push(
            memory_outcome(r)->Ok_0,
        ) && same_record(t1[i], t0[i]) && t1[i].state == t0[i].state
    }
}

/// What `DeallocateMemory { block_id }` does, from `k` to `n`: the first
/// process that lists the block frees it and forgets it, or the call fails
/// and nothing changes.
pub open spec fn deallocate_call_post(k: Kernel, n: Kernel, block_id: u128, r: SystemCallResult) -> bool {
    &&& n.wf()
    &&& n.cpu_cores == k.cpu_cores
    &&& n.scheduler@ == k.scheduler@
    &&& r.data is None
    &&& (forall|j: int| 0 <= j < k.processes.processes@.len()
        ==> !(#[trigger] k.processes.processes@[j]).memory_blocks@.contains(block_id)) ==> failed(
        r,
        CallError::BlockNotFound,
    ) && n.processes.processes@ == k.processes.processes@ && n.memory_manager == k.memory_manager
    &&& forall|i: int| #[trigger] is_first_owner(k.processes.processes@, block_id, i) ==> {
        let t0 = k.processes.processes@;
        let t1 = n.processes.processes@;
        &&& deallocate_post(k.memory_manager, n.memory_manager, block_id, release_outcome(r))
        &&& !r.success ==> t1 == t0 && r.error == Some(CallError::DeallocationFailed(MemoryError::BlockNotFound))
        &&& r.success ==> r.error is None && t1.len() == t0.len() && (forall|x: int|
            0 <= x < t0.len() && x != i ==> t1[x] == t0[x]) && t1[i].memory_blocks@ == without(
            t0[i].memory_blocks@,
            block_id,
        ) && same_record(t1[i], t0[i]) && t1[i].state == t0[i].state
    }
}

/// `info` is a copy of the record of `p`.
pub open spec fn info_of(info: ProcessInfo, p: Process) -> bool {
    &&& info.id == p.id
    &&& info.name@ == p.name@
    &&& info.priority == p.priority
    &&& info.state == p.state
    &&& info.memory_blocks@ == p.memory_blocks@
    &&& info.cpu_time == p.cpu_time
    &&& info.creation_time == p.creation_time
    &&& info.last_run_time == p.last_run_time
}

/// What `GetProcessInfo { process_id }` answers in `k`.
pub open spec fn process_info_post(k: Kernel, process_id: u128, r: SystemCallResult) -> bool {
    &&& !has_process(k.processes.processes@, process_id) ==> failed(r, CallError::ProcessNotFound)
    &&& has_process(k.processes.processes@, process_id) ==> r.success && r.error is None && match r.data {
        Some(CallData::Process(info)) => exists|i: int|
            0 <= i < k.processes.processes@.len() && (#[trigger] k.processes.processes@[i]).id == process_id
                && info_of(info, k.processes.processes@[i]),
        _ => false,
    }
}

/// What `GetMemoryInfo` answers in `k`.
pub open spec fn memory_info_post(k: Kernel, r: SystemCallResult) -> bool {
    &&& r.success
    &&& r.error is None
    &&& match r.data {
        Some(CallData::Memory(stats)) => stats_of(k.memory_manager, stats),
        _ => false,
    }
}

/// Only the process the scheduler runs is in state Running.
pub open spec fn running_tracked(t: Seq<Process>, running: Option<u128>) -> bool {
    forall|i: int| 0 <= i < t.len() && (#[trigger] t[i]).state == ProcessState::Running ==> running == Some(t[i].id)
}

/// With distinct identifiers, at most one process is Running.
pub proof fn lemma_at_most_one_running(t: Seq<Process>, running: Option<u128>)
    requires
        ids_distinct(t),
        running_tracked(t, running),
    ensures
        running_processes(t).len() <= 1,
    decreases t.len(),
{
    if t.len() > 0 {
        let p = t.drop_last();
        assert(forall|i: int| 0 <= i < p.len() ==> p[i] == t[i]);
        lemma_at_most_one_running(p, running);
        t.drop_last().lemma_filter_push(t.last(), |q: Process| q.state == ProcessState::Running);
        assert(p.push(t.last()) =~= t);
        if t.last().state == ProcessState::Running {
            let is_running = |q: Process| q.state == ProcessState::Running;
            assert(p.all(|q: Process| !is_running(q))) by {
                assert forall|k: int| 0 <= k < p.len() implies !is_running(#[trigger] p[k]) by {
                    assert(t[k].id != t[t.len() - 1].id);
                }
            }
            p.lemma_all_neg_filter_empty(is_running);
        }
    }
}

/// Tick and scheduling decisions keep only the scheduled process Running.
proof fn lemma_step_tracks(s: SchedState, t: Seq<Process>)
    requires
        ids_distinct(t),
        running_tracked(t, s.running),
    ensures
        ({
            let (s1, t1) = tick_spec(s, t);
            let (s2, t2, _) = schedule_spec(s1, t1);
            running_tracked(t2, s2.running)
        }),
{
    let (s1, t1) = tick_spec(s, t);
    assert(forall|i: int| 0 <= i < t.len() ==> (#[trigger] t1[i]).state == t[i].state && t1[i].id == t[i].id);
    assert(s1.running == s.running);
    let (sp, tp) = preempt_spec(s1, t1);
    assert(running_tracked(tp, sp.running)) by {
        if s1.running is Some && s1.slice >= s1.quantum {
            assert forall|i: int| 0 <= i < tp.len() && (#[trigger] tp[i]).state == ProcessState::Running implies sp.running
                == Some(tp[i].id) by {
                assert(t1[i].state == ProcessState::Running);
            }
        }
    }
    assert(forall|i: int| 0 <= i < tp.len() ==> (#[trigger] tp[i]).id == t[i].id);
    let (s2, t2, _) = schedule_spec(s1, t1);
    assert forall|i: int| 0 <= i < t2.len() && (#[trigger] t2[i]).state == ProcessState::Running implies s2.running
        == Some(t2[i].id) by {
        if sp.running is None {
            assert(tp[i].state != ProcessState::Running);
        }
    }
}

/// A copy of the identifiers.
fn copy_ids(v: &Vec<u128>) -> (r: Vec<u128>)
    ensures
        r@ == v@,
{
    let mut r: Vec<u128> = Vec::new();
    let mut i: usize = 0;
    while i < v.len()
        invariant
            0 <= i <= v@.len(),
            r@ == v@.take(i as int),
        decreases v@.len() - i,
    {
        r.push(v[i]);
        proof {
            assert(v@.take(i + 1) =~= v@.take(i as int).push(v@[i as int]));
        }
        i = i + 1;
    }
    proof {
        assert(v@.take(v@.len() as int) =~= v@);
    }
    r
}

impl ProcessInfo {
    /// A copy of the record of `p`.
    pub fn of(p: &Process) -> (r: Self)
        ensures
            r.id == p.id,
            r.name@ == p.name@,
            r.priority == p.priority,
            r.state == p.state,
            r.memory_blocks@ == p.memory_blocks@,
            r.cpu_time == p.cpu_time,
            r.creation_time == p.creation_time,
            r.last_run_time == p.last_run_time,
    {
        ProcessInfo {
            id: p.id,
            name: p.name.clone(),
            priority: p.priority,
            state: p.state,
            memory_blocks: copy_ids(&p.memory_blocks),
            cpu_time: p.cpu_time,
            creation_time: p.creation_time,
            last_run_time: p.last_run_time,
        }
    }
}

impl SystemCallResult {
    fn ok(data: Option<CallData>) -> (r: Self)
        ensures
            r.success,
            r.data == data,
            r.error is None,
    {
        SystemCallResult { success: true, data, error: None }
    }

    fn fail(error: CallError) -> (r: Self)
        ensures
            failed(r, error),
    {
        SystemCallResult { success: false, data: None, error: Some(error) }
    }
}

impl Kernel {
    pub open spec fn wf(&self) -> bool {
        &&& self.memory_manager.wf()
        &&& self.processes.wf()
        &&& running_tracked(self.processes.processes@, self.scheduler@.running)
    }

    /// A kernel with `memory_size` units of free memory, no processes and a
    /// round-robin scheduler.
    pub fn new(memory_size: usize, cpu_cores: usize) -> (r: Self)
        ensures
            r.wf(),
            r.memory_manager.total_size == memory_size,
            r.memory_manager.free_space == memory_size,
            r.memory_manager.blocks@.len() == 1,
            r.memory_manager.blocks@[0].start == 0,
            r.memory_manager.blocks@[0].size == memory_size,
            !r.memory_manager.blocks@[0].allocated,
            r.processes.processes@.len() == 0,
            r.scheduler@ == (SchedState {
                algorithm: SchedulingAlgorithm::RoundRobin,
                queue: Seq::<u128>::empty(),
                running: None,
                quantum: DEFAULT_TIME_QUANTUM,
                slice: 0,
                clock: 0,
            }),
            r.cpu_cores == cpu_cores,
    {
        Kernel {
            memory_manager: MemoryManager::new(memory_size),
            processes: ProcessTable::new(),
            scheduler: CPUScheduler::new(SchedulingAlgorithm::RoundRobin, DEFAULT_TIME_QUANTUM),
            cpu_cores,
        }
    }

    /// Creates a process with its initial memory and queues it, all or nothing.
    pub fn fork(&mut self, name: String, priority: u8) -> (r: SystemCallResult)
        requires
            old(self).wf(),
        ensures
            fork_post(*old(self), *final(self), name@, priority, r),
    {
        let mut process = Process::new(name, priority);
        process.id = self.processes.fresh_process_id(process.id);
        process.creation_time = self.scheduler.clock;
        let ghost m0 = self.memory_manager;
        match process.allocate_memory(&mut self.memory_manager, INITIAL_PROCESS_MEMORY) {
            Err(e) => {
                proof {
                    if can_allocate(m0, INITIAL_PROCESS_MEMORY as nat) {
                        let j = choose|j: int| 0 <= j < m0.blocks@.len() && fits(#[trigger] m0.blocks@[j], INITIAL_PROCESS_MEMORY as nat);
                        crate::memory::lemma_first_fit_exists(m0.blocks@, INITIAL_PROCESS_MEMORY as nat, j);
                    }
                }
                SystemCallResult::fail(CallError::AllocationFailed(e))
            },
            Ok(_) => {
                assert(process.memory_blocks@ =~= seq![process.memory_blocks@[0]]);
                let ghost t0 = self.processes.processes@;
                let id = self.processes.insert(process);
                self.scheduler.add_process(id);
                proof {
                    let t = self.processes.processes@;
                    assert forall|i: int| 0 <= i < t.len() && (#[trigger] t[i]).state == ProcessState::Running implies self.scheduler@.running
                        == Some(t[i].id) by {
                        if i < t0.len() {
                            assert(t[i] == t0[i]);
                        }
                    }
                }
                SystemCallResult::ok(Some(CallData::ProcessId(id)))
            },
        }
    }

    /// Removes process `process_id` from the table and the scheduler and frees
    /// its memory.
    pub fn exit(&mut self, process_id: u128) -> (r: SystemCallResult)
        requires
            old(self).wf(),
        ensures
            exit_post(*old(self), *final(self), process_id, r),
    {
        match self.processes.remove(process_id) {
            None => SystemCallResult::fail(CallError::ProcessNotFound),
            Some(mut process) => {
                let ghost gi = choose|i: int|
                    0 <= i < old(self).processes.processes@.len()
                        && (#[trigger] old(self).processes.processes@[i]).id == process_id
                        && self.processes.processes@ == old(self).processes.processes@.remove(i)
                        && process == old(self).processes.processes@[i];
                proof {
                    let t = self.processes.processes@;
                    let s = old(self).processes.processes@;
                    let i = gi;
                    assert forall|k: int| 0 <= k < t.len() implies (#[trigger] t[k]).id != process_id by {
                        let sk = if k < i { k } else { k + 1 };
                        assert(t[k] == s[sk]);
                    }
                }
                self.scheduler.remove_process(process_id);
                let ghost blocks = process.memory_blocks@;
                let result = match process.terminate(&mut self.memory_manager) {
                    Ok(()) => SystemCallResult::ok(None),
                    Err(e) => SystemCallResult::fail(CallError::TerminationFailed(e)),
                };
                proof {
                    assert(old(self).processes.processes@[gi].memory_blocks@ == blocks);
                }
                result
            },
        }
    }

    /// Allocates `size` units for the running process.
    pub fn allocate_memory(&mut self, size: usize) -> (r: SystemCallResult)
        requires
            old(self).wf(),
        ensures
            allocate_call_post(*old(self), *final(self), size as nat, r),
    {
        match self.processes.running() {
            None => SystemCallResult::fail(CallError::NoRunningProcess),
            Some(i) => {
                let ghost t0 = self.processes.processes@;
                proof {
                    assert forall|k: int| #[trigger] is_first_running(t0, k) implies k == i by {
                        if k < i { assert(t0[k].state != ProcessState::Running); }
                        if k > i { assert(t0[i as int].state != ProcessState::Running); }
                    }
                }
                let res = self.processes.processes[i].allocate_memory(&mut self.memory_manager, size);
                proof {
                    let t1 = self.processes.processes@;
                    assert forall|x: int, y: int|
                        0 <= x < t1.len() && 0 <= y < t1.len() && x != y implies (#[trigger] t1[x]).id
                        != (#[trigger] t1[y]).id by {
                        assert(t0[x].id == t1[x].id && t0[y].id == t1[y].id);
                    }
                }
                match res {
                    Ok(block_id) => SystemCallResult::ok(Some(CallData::BlockId(block_id))),
                    Err(e) => {
                        proof {
                            assert(self.processes.processes@ =~= t0);
                        }
                        SystemCallResult::fail(CallError::AllocationFailed(e))
                    },
                }
            },
        }
    }

    /// The index of the first process that owns block `block_id`.
    fn owner_of(&self, block_id: u128) -> (r: Option<usize>)
        ensures
            r is Some ==> is_first_owner(self.processes.processes@, block_id, r->Some_0 as int),
            r is None ==> forall|j: int|
                0 <= j < self.processes.processes@.len() ==> !(#[trigger] self.processes.processes@[j]).memory_blocks@.contains(block_id),
    {
        let mut i: usize = 0;
        while i < self.processes.processes.len()
            invariant
                0 <= i <= self.processes.processes@.len(),
                forall|j: int| 0 <= j < i ==> !(#[trigger] self.processes.processes@[j]).memory_blocks@.contains(block_id),
            decreases self.processes.processes@.len() - i,
        {
            if crate::ids::contains_id(&self.processes.processes[i].memory_blocks, block_id) {
                return Some(i);
            }
            i = i + 1;
        }
        None
    }

    /// Frees block `block_id` on behalf of the process that owns it.
    pub fn deallocate_memory(&mut self, block_id: u128) -> (r: SystemCallResult)
        requires
            old(self).wf(),
        ensures
            deallocate_call_post(*old(self), *final(self), block_id, r),
    {
        match self.owner_of(block_id) {
            None => SystemCallResult::fail(CallError::BlockNotFound),
            Some(i) => {
                let ghost t0 = self.processes.processes@;
                proof {
                    assert forall|k: int| #[trigger] is_first_owner(t0, block_id, k) implies k == i by {
                        if k < i { assert(!t0[k].memory_blocks@.contains(block_id)); }
                        if k > i { assert(!t0[i as int].memory_blocks@.contains(block_id)); }
                    }
                }
                let res = self.processes.processes[i].deallocate_memory(&mut self.memory_manager, block_id);
                proof {
                    let t1 = self.processes.processes@;
                    assert forall|x: int, y: int|
                        0 <= x < t1.len() && 0 <= y < t1.len() && x != y implies (#[trigger] t1[x]).id
                        != (#[trigger] t1[y]).id by {
                        assert(t0[x].id == t1[x].id && t0[y].id == t1[y].id);
                    }
                }
                match res {
                    Ok(()) => SystemCallResult::ok(None),
                    Err(e) => {
                        proof {
                            assert(self.processes.processes@ =~= t0);
                        }
                        SystemCallResult::fail(CallError::DeallocationFailed(e))
                    },
                }
            },
        }
    }

    /// A copy of the record of process `process_id`.
    pub fn get_process_info(&self, process_id: u128) -> (r: SystemCallResult)
        ensures
            process_info_post(*self, process_id, r),
    {
        match self.processes.position(process_id) {
            Some(i) => SystemCallResult::ok(Some(CallData::Process(ProcessInfo::of(&self.processes.processes[i])))),
            None => SystemCallResult::fail(CallError::ProcessNotFound),
        }
    }

    /// The memory statistics.
    pub fn get_memory_info(&self) -> (r: SystemCallResult)
        requires
            self.wf(),
        ensures
            memory_info_post(*self, r),
    {
        SystemCallResult::ok(Some(CallData::Memory(self.memory_manager.get_stats())))
    }

    /// Serves one system call.
    pub fn handle_system_call(&mut self, call: SystemCall) -> (r: SystemCallResult)
        requires
            old(self).wf(),
        ensures
            final(self).wf(),
            match call {
                SystemCall::Fork { name, priority } => fork_post(*old(self), *final(self), name@, priority, r),
                SystemCall::Exit { process_id } => exit_post(*old(self), *final(self), process_id, r),
                SystemCall::AllocateMemory { size } => allocate_call_post(*old(self), *final(self), size as nat, r),
                SystemCall::DeallocateMemory { block_id } => deallocate_call_post(
                    *old(self),
                    *final(self),
                    block_id,
                    r,
                ),
                SystemCall::GetProcessInfo { process_id } => *final(self) == *old(self) && process_info_post(
                    *old(self),
                    process_id,
                    r,
                ),
                SystemCall::GetMemoryInfo => *final(self) == *old(self) && memory_info_post(*old(self), r),
            },
    {
        match call {
            SystemCall::Fork { name, priority } => self.fork(name, priority),
            SystemCall::Exit { process_id } => self.exit(process_id),
            SystemCall::AllocateMemory { size } => self.allocate_memory(size),
            SystemCall::DeallocateMemory { block_id } => self.deallocate_memory(block_id),
            SystemCall::GetProcessInfo { process_id } => self.get_process_info(process_id),
            SystemCall::GetMemoryInfo => self.get_memory_info(),
        }
    }

    /// One step of the background scheduler: a tick, then a scheduling decision.
    pub fn run_scheduler_step(&mut self) -> (r: Option<u128>)
        requires
            old(self).wf(),
        ensures
            final(self).wf(),
            final(self).memory_manager == old(self).memory_manager,
            final(self).cpu_cores == old(self).cpu_cores,
            ({
                let (s1, t1) = tick_spec(old(self).scheduler@, old(self).processes.processes@);
                (final(self).scheduler@, final(self).processes.processes@, r) == schedule_spec(s1, t1)
            }),
    {
        proof {
            lemma_step_tracks(self.scheduler@, self.processes.processes@);
        }
        self.scheduler.tick(&mut self.processes);
        self.scheduler.schedule(&mut self.processes)
    }

    /// A summary of memory, processes and scheduler.
    pub fn get_kernel_stats(&self) -> (r: KernelStats)
        requires
            self.wf(),
        ensures
            r.process_count == self.processes.processes@.len(),
            r.running_count == running_processes(self.processes.processes@).len(),
            r.running_count <= 1,
            r.cpu_cores == self.cpu_cores,
            r.scheduler_algorithm == self.scheduler.algorithm,
            stats_of(self.memory_manager, r.memory_stats),
    {
        let ghost t = self.processes.processes@;
        proof {
            lemma_at_most_one_running(t, self.scheduler@.running);
        }
        let mut running: usize = 0;
        let mut i: usize = 0;
        while i < self.processes.processes.len()
            invariant
                0 <= i <= t.len(),
                t == self.processes.processes@,
                running == running_processes(t.take(i as int)).len(),
                running <= i,
            decreases t.len() - i,
        {
            proof {
                assert(t.take(i + 1) =~= t.take(i as int).push(t[i as int]));
                t.take(i as int).lemma_filter_push(t[i as int], |p: Process| p.state == ProcessState::Running);
            }
            if self.processes.processes[i].state == ProcessState::Running {
                running = running + 1;
            }
            i = i + 1;
        }
        proof {
            assert(t.take(t.len() as int) =~= t);
        }
        KernelStats {
            memory_stats: self.memory_manager.get_stats(),
            process_count: self.processes.len(),
            running_count: running,
            cpu_cores: self.cpu_cores,
            scheduler_algorithm: self.scheduler.algorithm,
        }
    }
}

} // verus!

verus! {

/// A fork for which there is not enough free memory fails and leaves the
/// number of processes and the length of the ready queue unchanged.
pub proof fn lemma_fork_is_atomic(k: Kernel, n: Kernel, name: Seq<char>, priority: u8, r: SystemCallResult)
    requires
        k.wf(),
        fork_post(k, n, name, priority, r),
        INITIAL_PROCESS_MEMORY > k.memory_manager.free_space,
    ensures
        !r.success,
        n.processes.processes@.len() == k.processes.processes@.len(),
        n.scheduler@.queue.len() == k.scheduler@.queue.len(),
{
}

} // verus!
