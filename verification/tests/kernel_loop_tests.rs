use kernel_core::elf::{load_segment, loaded_segments, ElfProgramHeader};
use kernel_core::interrupts::{create_options, InterruptTable, IDT_SIZE};
use kernel_core::scheduler::{scheduler_step, Context, CpuData, ProcTable, SchedulerAction};
use kernel_core::trap::{kernel_trap, sched_resume, user_trap, ResumeAction, TrapAction};
use kernel_core::memory::paging::switch_to_page_table;

fn ctx(a7: u64, a3: u64, a4: u64) -> Context {
    Context { pc: 0x1000, a3, a4, a7, ra: 0, sp: 0, gp: 0, tp: 0, t0: 0, t1: 0, t2: 0, s0: 0, s1: 0, a0: 0, a1: 0, a2: 0, a5: 0, a6: 0, s2: 0, s3: 0, s4: 0, s5: 0, s6: 0, s7: 0, s8: 0, s9: 0, s10: 0, s11: 0, t3: 0, t4: 0, t5: 0, t6: 0, kernel_hartid: 0 }
}

#[test]
fn timer_trap_moves_to_next_slot() {
    let mut cpu = CpuData { was_last_interrupt_external: true, curr_pid: 15, last_pid: 3 };
    let mut c = ctx(0, 0, 0);
    let r = user_trap(&mut cpu, &mut c, 0x8000_0000_0000_0001, 0);
    assert_eq!(r, TrapAction::Timer { count_tick: true });
    assert_eq!(cpu.curr_pid, 0);
    assert_eq!(cpu.last_pid, 3);
    assert!(!cpu.was_last_interrupt_external);
    assert_eq!(c.pc, 0x1000);
    let r = user_trap(&mut cpu, &mut c, 0x8000_0000_0000_0001, 2);
    assert_eq!(r, TrapAction::Timer { count_tick: false });
    assert_eq!(cpu.curr_pid, 1);
}

#[test]
fn syscall_trap_skips_call_instruction() {
    let mut cpu = CpuData { was_last_interrupt_external: false, curr_pid: 4, last_pid: 4 };
    let mut c = ctx(1, 0, 0);
    let r = user_trap(&mut cpu, &mut c, 8, 1);
    assert_eq!(r, TrapAction::Syscall);
    assert_eq!(c.pc, 0x1004);
    assert!(cpu.was_last_interrupt_external);
    assert_eq!(cpu.curr_pid, 4);
}

#[test]
fn device_and_unknown_traps() {
    let mut cpu = CpuData { was_last_interrupt_external: true, curr_pid: 4, last_pid: 4 };
    let mut c = ctx(0, 0, 0);
    assert_eq!(user_trap(&mut cpu, &mut c, 0x8000_0000_0000_0009, 0), TrapAction::Device);
    assert!(!cpu.was_last_interrupt_external);
    assert_eq!(user_trap(&mut cpu, &mut c, 13, 0), TrapAction::Unknown);
    assert_eq!(c.pc, 0x1000);
    assert_eq!(cpu.curr_pid, 4);
}

fn table_with_running(n: usize) -> ProcTable {
    let mut t = ProcTable::new();
    for _ in 0..n {
        let p = t.add_process();
        t.mark_process_ready(p);
    }
    t
}

#[test]
fn resume_serves_system_calls() {
    let mut t = table_with_running(2);
    let cpu = CpuData { was_last_interrupt_external: true, curr_pid: 1, last_pid: 1 };

    let mut c = ctx(1, 0x2000, 5);
    assert_eq!(sched_resume(&mut t, &cpu, &mut c, 7), ResumeAction::Print { addr: 0x2000, len: 5 });

    let mut c = ctx(2, 0, 0);
    assert_eq!(sched_resume(&mut t, &cpu, &mut c, 77), ResumeAction::Nothing);
    assert_eq!(c.a2, 77);

    let mut c = ctx(3, 0, 0);
    assert_eq!(sched_resume(&mut t, &cpu, &mut c, 77), ResumeAction::Nothing);
    assert_eq!(c.a2, 1);

    let mut c = ctx(5, 0x4000, 1);
    assert_eq!(sched_resume(&mut t, &cpu, &mut c, 0), ResumeAction::AllocPage { addr: 0x4000, ignore_if_exists: true });

    let mut c = ctx(6, 0x4000, 0);
    assert_eq!(sched_resume(&mut t, &cpu, &mut c, 0), ResumeAction::FreePage { addr: 0x4000 });

    let mut c = ctx(99, 0, 0);
    assert_eq!(sched_resume(&mut t, &cpu, &mut c, 0), ResumeAction::UnknownCall { code: 99 });

    let mut c = ctx(7, 10, 0);
    assert_eq!(sched_resume(&mut t, &cpu, &mut c, 5), ResumeAction::Nothing);
    assert!(!t.try_schedule(1, 14));
    assert!(t.try_schedule(1, 15));

    assert_eq!(t.get_num_processes(), 2);
    let mut c = ctx(4, 0, 0);
    assert_eq!(sched_resume(&mut t, &cpu, &mut c, 0), ResumeAction::Nothing);
    assert_eq!(t.get_num_processes(), 1);
    assert_eq!(t.get_free_proc(), 1);
}

#[test]
fn resume_after_timer_makes_process_ready() {
    let mut t = table_with_running(1);
    assert!(t.try_schedule(0, 0));
    assert!(!t.try_schedule(0, 0));
    let cpu = CpuData { was_last_interrupt_external: false, curr_pid: 0, last_pid: 0 };
    let mut c = ctx(4, 0, 0);
    assert_eq!(sched_resume(&mut t, &cpu, &mut c, 0), ResumeAction::Nothing);
    assert_eq!(t.get_num_processes(), 1);
    assert!(t.try_schedule(0, 0));
}

#[test]
fn scheduler_runs_ready_process_and_refreshes_once() {
    let mut t = table_with_running(1);
    let mut cpu = CpuData { was_last_interrupt_external: false, curr_pid: 0, last_pid: 1000 };
    let mut misses = 0usize;
    let (waits, action) = scheduler_step(&mut t, &mut cpu, &mut misses, 0, 2, true);
    assert!(!waits);
    assert_eq!(action, SchedulerAction::Run { pid: 0, refresh: true });
    assert_eq!(cpu.last_pid, 0);
    assert_eq!(misses, 0);

    let cpu_resume = CpuData { was_last_interrupt_external: false, curr_pid: 0, last_pid: 0 };
    let mut c = ctx(0, 0, 0);
    sched_resume(&mut t, &cpu_resume, &mut c, 0);
    let (_, action) = scheduler_step(&mut t, &mut cpu, &mut misses, 0, 2, true);
    assert_eq!(action, SchedulerAction::Run { pid: 0, refresh: false });
}

#[test]
fn scheduler_skips_and_waits_after_full_turn() {
    let mut t = ProcTable::new();
    let mut cpu = CpuData { was_last_interrupt_external: false, curr_pid: 15, last_pid: 1000 };
    let mut misses = 15usize;
    let (waits, action) = scheduler_step(&mut t, &mut cpu, &mut misses, 0, 0, true);
    assert!(!waits);
    assert_eq!(action, SchedulerAction::Skip);
    assert_eq!(misses, 16);
    assert_eq!(cpu.curr_pid, 0);
    let (waits, action) = scheduler_step(&mut t, &mut cpu, &mut misses, 0, 0, true);
    assert!(waits);
    assert_eq!(action, SchedulerAction::Skip);
    assert_eq!(misses, 1);
    assert_eq!(cpu.curr_pid, 1);
    assert_eq!(cpu.last_pid, 1000);
}

#[test]
fn interrupt_table_gates() {
    let mut table = InterruptTable::new();
    assert_eq!(table.entries.len(), IDT_SIZE);
    assert_eq!(table.entries[3].options, 0x0f00);
    let handlers: Vec<u64> = (0..32u64).map(|i| 0x1234_5678_9abc_0000 + i * 16).collect();
    table.set_exception_handlers(&handlers);
    let e = table.entries[31];
    assert_eq!(e.pointer_low, 0x01f0);
    assert_eq!(e.pointer_middle, 0x9abc);
    assert_eq!(e.pointer_high, 0x1234_5678);
    assert_eq!(e.selector, 0x08);
    assert_eq!(e.options, create_options(true, false));
    assert_eq!(e.options, 0x8e00);
    assert_eq!(table.entries[32].options, 0x0f00);
    table.set_idt_entry(40, 0xdead_beef);
    assert_eq!(table.entries[40].pointer_low, 0xbeef);
    assert_eq!(table.entries[40].pointer_middle, 0xdead);
    assert_eq!(table.entries[40].pointer_high, 0);
}

fn ph(p_type: u32, offset: u64, file_size: u64, memory_size: u64) -> ElfProgramHeader {
    ElfProgramHeader { p_type, flags: 0, offset, vaddr: 0x1000, paddr: 0, file_size, memory_size, align: 0x1000 }
}

#[test]
fn only_loadable_segments_with_memory_are_loaded() {
    let phs = vec![ph(1, 0, 4, 8), ph(2, 0, 4, 8), ph(1, 0, 0, 0), ph(1, 4, 2, 2)];
    let l = loaded_segments(&phs);
    assert_eq!(l.len(), 2);
    assert_eq!(l[0].memory_size, 8);
    assert_eq!(l[1].offset, 4);
}

#[test]
fn segment_image_is_file_bytes_then_zeros() {
    let program: Vec<u8> = vec![1, 2, 3, 4, 5, 6, 7, 8];
    assert_eq!(load_segment(&program, &ph(1, 2, 3, 6)), vec![3, 4, 5, 0, 0, 0]);
    assert_eq!(load_segment(&program, &ph(1, 0, 0, 2)), vec![0, 0]);
    assert_eq!(load_segment(&program, &ph(1, 6, 2, 2)), vec![7, 8]);
}

#[test]
fn kernel_traps() {
    let mut cpu = CpuData { was_last_interrupt_external: true, curr_pid: 3, last_pid: 2 };
    assert_eq!(kernel_trap(&mut cpu, 0x8000_0000_0000_0001, 1), TrapAction::Timer { count_tick: false });
    assert_eq!(cpu.curr_pid, 4);
    assert!(cpu.was_last_interrupt_external);
    assert_eq!(kernel_trap(&mut cpu, 0x8000_0000_0000_0009, 0), TrapAction::Device);
    assert_eq!(kernel_trap(&mut cpu, 8, 0), TrapAction::Unknown);
    assert_eq!(cpu.curr_pid, 4);
}

#[test]
fn page_table_switches_once_per_core() {
    let mut current = [0u64; 4];
    assert_eq!(switch_to_page_table(&mut current, 2, 0x8020_0000), Some((0x8020_0000 / 4096) | (8 << 60)));
    assert_eq!(current, [0, 0, 0x8020_0000, 0]);
    assert_eq!(switch_to_page_table(&mut current, 2, 0x8020_0000), None);
    assert_eq!(switch_to_page_table(&mut current, 0, 0x8020_0000), Some(0x8000_0000_0008_0200));
}

#[test]
fn switched_off_scheduler_only_waits() {
    let mut t = table_with_running(1);
    let mut cpu = CpuData { was_last_interrupt_external: false, curr_pid: 0, last_pid: 1000 };
    let mut misses = 3usize;
    let (waits, action) = scheduler_step(&mut t, &mut cpu, &mut misses, 0, 2, false);
    assert!(waits);
    assert_eq!(action, SchedulerAction::Paused);
    assert_eq!(misses, 3);
    assert_eq!(cpu.curr_pid, 0);
    assert_eq!(cpu.last_pid, 1000);
    let (_, action) = scheduler_step(&mut t, &mut cpu, &mut misses, 0, 2, true);
    assert_eq!(action, SchedulerAction::Run { pid: 0, refresh: true });
}
