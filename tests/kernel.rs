use os_kernel::ids::pick_fresh_id;
use os_kernel::kernel::{CallData, CallError, Kernel, SystemCall, INITIAL_PROCESS_MEMORY};
use os_kernel::memory::{MemoryError, MemoryManager};
use os_kernel::process::{Process, ProcessState, ProcessTable};
use os_kernel::scheduler::{CPUScheduler, SchedulingAlgorithm};

fn layout(m: &MemoryManager) -> Vec<(usize, usize, bool)> {
    m.blocks.iter().map(|b| (b.start, b.size, b.allocated)).collect()
}

#[test]
fn test_memory_allocation() {
    let mut memory_manager = MemoryManager::new(1024);
    let process_id = uuid::Uuid::new_v4().as_u128();

    let block_id = memory_manager.allocate(512, process_id).unwrap();
    assert_eq!(memory_manager.free_space, 512);

    memory_manager.deallocate(block_id).unwrap();
    assert_eq!(memory_manager.free_space, 1024);
}

#[test]
fn test_process_creation() {
    let process = Process::new("test".to_string(), 5);
    assert_eq!(process.name, "test");
    assert_eq!(process.priority, 5);
    assert!(matches!(process.state, ProcessState::Ready));
}

#[test]
fn test_scheduler() {
    let mut scheduler = CPUScheduler::new(SchedulingAlgorithm::RoundRobin, 100);
    let mut processes = ProcessTable::new();

    let process = Process::new("test".to_string(), 1);
    let process_id = processes.insert(process);

    scheduler.add_process(process_id);
    let scheduled = scheduler.schedule(&mut processes);

    assert!(scheduled.is_some());
    assert_eq!(scheduled.unwrap(), process_id);
}

#[test]
fn first_fit_reuses_freed_region() {
    let mut m = MemoryManager::new(1024);
    let a = m.allocate(300, 1).unwrap();
    let b = m.allocate(200, 2).unwrap();
    assert_eq!(layout(&m), vec![(0, 300, true), (300, 200, true), (500, 524, false)]);
    assert_ne!(a, b);
    m.deallocate(a).unwrap();
    let c = m.allocate(100, 3).unwrap();
    assert_eq!(c, a);
    assert_eq!(
        layout(&m),
        vec![(0, 100, true), (100, 200, false), (300, 200, true), (500, 524, false)]
    );
    assert_eq!(m.blocks[0].process_id, Some(3));
    assert_eq!(m.free_space, 724);
}

#[test]
fn out_of_memory_when_free_total_is_short() {
    let mut m = MemoryManager::new(100);
    m.allocate(60, 1).unwrap();
    assert_eq!(m.allocate(50, 1), Err(MemoryError::OutOfMemory));
    assert_eq!(m.free_space, 40);
}

#[test]
fn no_fit_when_fragmented() {
    let mut m = MemoryManager::new(100);
    let a = m.allocate(30, 1).unwrap();
    let _b = m.allocate(30, 1).unwrap();
    let c = m.allocate(30, 1).unwrap();
    m.deallocate(a).unwrap();
    m.deallocate(c).unwrap();
    // 30 + 40 free, in two pieces
    assert_eq!(m.free_space, 70);
    assert_eq!(m.allocate(50, 1), Err(MemoryError::NoFit));
    assert_eq!(m.free_space, 70);
}

#[test]
fn exact_fit_takes_block_in_place() {
    let mut m = MemoryManager::new(64);
    let a = m.allocate(64, 9).unwrap();
    assert_eq!(layout(&m), vec![(0, 64, true)]);
    assert_eq!(m.free_space, 0);
    m.deallocate(a).unwrap();
    assert_eq!(layout(&m), vec![(0, 64, false)]);
}

#[test]
fn double_free_is_block_not_found() {
    let mut m = MemoryManager::new(256);
    let a = m.allocate(16, 1).unwrap();
    assert_eq!(m.deallocate(a), Ok(()));
    assert_eq!(m.deallocate(a), Err(MemoryError::BlockNotFound));
    assert_eq!(m.deallocate(12345), Err(MemoryError::BlockNotFound));
    assert_eq!(m.free_space, 256);
}

#[test]
fn freeing_middle_block_merges_three() {
    let mut m = MemoryManager::new(90);
    let a = m.allocate(30, 1).unwrap();
    let b = m.allocate(30, 1).unwrap();
    let c = m.allocate(30, 1).unwrap();
    m.deallocate(a).unwrap();
    m.deallocate(c).unwrap();
    assert_eq!(layout(&m), vec![(0, 30, false), (30, 30, true), (60, 30, false)]);
    m.deallocate(b).unwrap();
    assert_eq!(layout(&m), vec![(0, 90, false)]);
    assert_eq!(m.free_space, 90);
}

#[test]
fn round_trip_restores_free_space() {
    let mut m = MemoryManager::new(1000);
    m.allocate(123, 1).unwrap();
    let before = m.free_space;
    let id = m.allocate(77, 2).unwrap();
    m.deallocate(id).unwrap();
    assert_eq!(m.free_space, before);
    let total: usize = m.blocks.iter().map(|b| b.size).sum();
    assert_eq!(total, 1000);
}

#[test]
fn memory_stats_counts_blocks() {
    let mut m = MemoryManager::new(1000);
    m.allocate(100, 1).unwrap();
    m.allocate(100, 1).unwrap();
    let s = m.get_stats();
    assert_eq!(s.total_size, 1000);
    assert_eq!(s.allocated_space, 200);
    assert_eq!(s.free_space, 800);
    assert_eq!(s.total_blocks, 3);
    assert_eq!(s.allocated_blocks, 2);
    assert_eq!(s.free_blocks, 1);
}

#[test]
fn fresh_id_avoids_used_values() {
    assert_eq!(pick_fresh_id(42, &vec![1, 2, 3]), 42);
    assert_eq!(pick_fresh_id(2, &vec![0, 1, 2, 3]), 4);
    assert_eq!(pick_fresh_id(1, &vec![1, 3]), 0);
}

#[test]
fn process_memory_is_recorded_only_on_success() {
    let mut m = MemoryManager::new(100);
    let mut p = Process::new("p".to_string(), 1);
    let b = p.allocate_memory(&mut m, 40).unwrap();
    assert_eq!(p.memory_blocks, vec![b]);
    assert_eq!(p.allocate_memory(&mut m, 80), Err(MemoryError::OutOfMemory));
    assert_eq!(p.memory_blocks, vec![b]);
    p.deallocate_memory(&mut m, b).unwrap();
    assert!(p.memory_blocks.is_empty());
    assert_eq!(m.free_space, 100);
}

#[test]
fn terminate_frees_everything() {
    let mut m = MemoryManager::new(100);
    let mut p = Process::new("p".to_string(), 1);
    p.allocate_memory(&mut m, 10).unwrap();
    p.allocate_memory(&mut m, 20).unwrap();
    assert_eq!(p.terminate(&mut m), Ok(()));
    assert_eq!(p.state, ProcessState::Terminated);
    assert!(p.memory_blocks.is_empty());
    assert_eq!(m.free_space, 100);
}

#[test]
fn terminate_with_dangling_block_still_terminates() {
    let mut m = MemoryManager::new(100);
    let mut p = Process::new("p".to_string(), 1);
    let b = p.allocate_memory(&mut m, 10).unwrap();
    p.allocate_memory(&mut m, 20).unwrap();
    m.deallocate(b).unwrap();
    assert_eq!(p.terminate(&mut m), Err(MemoryError::BlockNotFound));
    assert_eq!(p.state, ProcessState::Terminated);
    assert!(p.memory_blocks.is_empty());
    assert_eq!(m.free_space, 80);
}

fn table_with(names: &[(&str, u8)]) -> (ProcessTable, Vec<u128>) {
    let mut t = ProcessTable::new();
    let mut ids = Vec::new();
    for (name, priority) in names {
        ids.push(t.insert(Process::new(name.to_string(), *priority)));
    }
    (t, ids)
}

#[test]
fn round_robin_gives_each_one_quantum_in_order() {
    let (mut t, ids) = table_with(&[("a", 1), ("b", 1), ("c", 1)]);
    let mut s = CPUScheduler::new(SchedulingAlgorithm::RoundRobin, 2);
    for id in &ids {
        s.add_process(*id);
    }
    assert_eq!(s.schedule(&mut t), Some(ids[0]));
    let mut seen = Vec::new();
    for _ in 0..6 {
        seen.push(s.running_process.unwrap());
        s.tick(&mut t);
        s.schedule(&mut t);
    }
    assert_eq!(seen, vec![ids[0], ids[0], ids[1], ids[1], ids[2], ids[2]]);
    for p in &t.processes {
        assert_eq!(p.cpu_time, 2);
    }
    assert_eq!(s.running_process, Some(ids[0]));
}

#[test]
fn priority_picks_highest_first_stably() {
    let (mut t, ids) = table_with(&[("low", 1), ("high", 5), ("high2", 5), ("mid", 3)]);
    let mut s = CPUScheduler::new(SchedulingAlgorithm::Priority, 10);
    for id in &ids {
        s.add_process(*id);
    }
    assert_eq!(s.schedule(&mut t), Some(ids[1]));
    let queue: Vec<u128> = s.ready_queue.iter().copied().collect();
    assert_eq!(queue, vec![ids[2], ids[3], ids[0]]);
    let p = t.get(ids[1]).unwrap();
    assert_eq!(p.state, ProcessState::Running);
    assert_eq!(p.last_run_time, Some(0));
}

#[test]
fn shortest_job_first_prefers_least_cpu_time() {
    let (mut t, ids) = table_with(&[("a", 1), ("b", 1)]);
    t.processes[0].cpu_time = 7;
    t.processes[1].cpu_time = 3;
    let mut s = CPUScheduler::new(SchedulingAlgorithm::ShortestJobFirst, 10);
    s.add_process(ids[0]);
    s.add_process(ids[1]);
    assert_eq!(s.schedule(&mut t), Some(ids[1]));
}

#[test]
fn idle_scheduler_yields_nothing() {
    let mut t = ProcessTable::new();
    let mut s = CPUScheduler::new(SchedulingAlgorithm::RoundRobin, 10);
    s.tick(&mut t);
    assert_eq!(s.schedule(&mut t), None);
    assert_eq!(s.current_time_slice, 0);
}

fn fork(k: &mut Kernel, name: &str, priority: u8) -> u128 {
    let r = k.handle_system_call(SystemCall::Fork { name: name.to_string(), priority });
    assert!(r.success);
    match r.data {
        Some(CallData::ProcessId(id)) => id,
        _ => panic!("fork returned no process id"),
    }
}

#[test]
fn fork_without_memory_changes_nothing() {
    let mut k = Kernel::new(INITIAL_PROCESS_MEMORY + 10, 1);
    fork(&mut k, "init", 1);
    let r = k.handle_system_call(SystemCall::Fork { name: "shell".to_string(), priority: 2 });
    assert!(!r.success);
    assert!(r.data.is_none());
    assert_eq!(r.error, Some(CallError::AllocationFailed(MemoryError::OutOfMemory)));
    assert_eq!(k.processes.len(), 1);
    assert_eq!(k.scheduler.ready_queue.len(), 1);
}

#[test]
fn fork_records_process_and_memory() {
    let mut k = Kernel::new(4096, 2);
    let id = fork(&mut k, "init", 3);
    let p = k.processes.get(id).unwrap();
    assert_eq!(p.name, "init");
    assert_eq!(p.memory_blocks.len(), 1);
    assert_eq!(k.memory_manager.free_space, 4096 - INITIAL_PROCESS_MEMORY);
    assert_eq!(k.scheduler.ready_queue.len(), 1);
}

#[test]
fn exit_twice_fails_with_process_not_found() {
    let mut k = Kernel::new(4096, 1);
    let id = fork(&mut k, "init", 1);
    let r = k.handle_system_call(SystemCall::Exit { process_id: id });
    assert!(r.success);
    assert_eq!(k.memory_manager.free_space, 4096);
    assert!(k.scheduler.ready_queue.is_empty());
    let r = k.handle_system_call(SystemCall::Exit { process_id: id });
    assert!(!r.success);
    assert_eq!(r.error, Some(CallError::ProcessNotFound));
}

#[test]
fn allocate_needs_a_running_process() {
    let mut k = Kernel::new(8192, 1);
    let id = fork(&mut k, "init", 1);
    let r = k.handle_system_call(SystemCall::AllocateMemory { size: 100 });
    assert_eq!(r.error, Some(CallError::NoRunningProcess));
    assert_eq!(k.run_scheduler_step(), Some(id));
    let r = k.handle_system_call(SystemCall::AllocateMemory { size: 100 });
    assert!(r.success);
    let block = match r.data {
        Some(CallData::BlockId(b)) => b,
        _ => panic!("no block id"),
    };
    assert_eq!(k.processes.get(id).unwrap().memory_blocks.len(), 2);
    let r = k.handle_system_call(SystemCall::DeallocateMemory { block_id: block });
    assert!(r.success);
    assert_eq!(k.processes.get(id).unwrap().memory_blocks.len(), 1);
    let r = k.handle_system_call(SystemCall::DeallocateMemory { block_id: block });
    assert_eq!(r.error, Some(CallError::BlockNotFound));
}

#[test]
fn process_and_memory_info() {
    let mut k = Kernel::new(8192, 4);
    let id = fork(&mut k, "shell", 2);
    let r = k.handle_system_call(SystemCall::GetProcessInfo { process_id: id });
    match r.data {
        Some(CallData::Process(info)) => {
            assert_eq!(info.id, id);
            assert_eq!(info.name, "shell");
            assert_eq!(info.priority, 2);
            assert_eq!(info.state, ProcessState::Ready);
        }
        _ => panic!("no process info"),
    }
    let r = k.handle_system_call(SystemCall::GetProcessInfo { process_id: id.wrapping_add(1) });
    assert_eq!(r.error, Some(CallError::ProcessNotFound));
    let r = k.handle_system_call(SystemCall::GetMemoryInfo);
    match r.data {
        Some(CallData::Memory(stats)) => {
            assert_eq!(stats.total_size, 8192);
            assert_eq!(stats.allocated_space, INITIAL_PROCESS_MEMORY);
        }
        _ => panic!("no memory info"),
    }
    k.run_scheduler_step();
    let stats = k.get_kernel_stats();
    assert_eq!(stats.process_count, 1);
    assert_eq!(stats.running_count, 1);
    assert_eq!(stats.cpu_cores, 4);
    assert_eq!(stats.scheduler_algorithm, SchedulingAlgorithm::RoundRobin);
}

#[test]
fn release_keeps_zero_size_block_between_allocated_ones() {
    let mut m = MemoryManager::new(100);
    m.allocate(30, 1).unwrap();
    let z = m.allocate(0, 1).unwrap();
    m.allocate(70, 1).unwrap();
    assert_eq!(layout(&m), vec![(0, 30, true), (30, 0, true), (30, 70, true)]);
    m.deallocate(z).unwrap();
    assert_eq!(layout(&m), vec![(0, 30, true), (30, 0, false), (30, 70, true)]);
    assert_eq!(m.blocks[1].process_id, None);
}

#[test]
fn allocate_then_free_restores_exact_blocks() {
    let mut m = MemoryManager::new(500);
    let a = m.allocate(100, 1).unwrap();
    m.allocate(100, 2).unwrap();
    m.deallocate(a).unwrap();
    let before: Vec<_> = m.blocks.clone();
    let c = m.allocate(60, 3).unwrap();
    m.deallocate(c).unwrap();
    assert_eq!(m.blocks, before);
}
