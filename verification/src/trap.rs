use vstd::prelude::*;

verus! {

use crate::scheduler::{Context, CpuData, NUM_PROC, Process, ProcessState, ProcTable, scheduler_next_proc};

/// What caused a trap, read from `scause`.
#[derive(Clone, Copy, PartialEq, Eq, Structural, Debug)]
pub enum InterruptType {
    Unknown,
    Timer,
    User,
    OtherDevice,
}

/// `scause` has the interrupt bit (63) set and exception code 9 (supervisor external).
pub open spec fn is_external_interrupt(scause: u64) -> bool {
    scause >= 0x8000_0000_0000_0000u64 && scause % 256 == 9
}

/// The kind of trap that `scause` reports.
pub open spec fn spec_interrupt_type(scause: u64) -> InterruptType {
    if is_external_interrupt(scause) {
        InterruptType::OtherDevice
    } else if scause == 0x8000_0000_0000_0001u64 {
        InterruptType::Timer
    } else if scause == 8 {
        InterruptType::User
    } else {
        InterruptType::Unknown
    }
}

/// The kind of trap that `scause` reports.
pub fn get_interrupt_type(scause: u64) -> (r: InterruptType)
    ensures
        r == spec_interrupt_type(scause),
{
    let external = (scause & 0x8000_0000_0000_0000u64) != 0 && (scause & 0xffu64) == 9;
    assert(external == is_external_interrupt(scause)) by (bit_vector)
        requires
            external == ((scause & 0x8000_0000_0000_0000u64) != 0 && (scause & 0xffu64) == 9),
    ;
    if external {
        InterruptType::OtherDevice
    } else if scause == 0x8000_0000_0000_0001u64 {
        InterruptType::Timer
    } else if scause == 8 {
        InterruptType::User
    } else {
        InterruptType::Unknown
    }
}

/// A system call, by the code a program leaves in `a7`.
#[derive(Clone, Copy, PartialEq, Eq, Structural, Debug)]
pub enum Syscall {
    PrintStr,
    GetTicks,
    GetPid,
    Exit,
    AllocPage,
    DeallocPage,
    Sleep,
    Unknown,
}

/// The system call that code `code` asks for.
pub open spec fn spec_decode_syscall(code: u64) -> Syscall {
    if code == 1 {
        Syscall::PrintStr
    } else if code == 2 {
        Syscall::GetTicks
    } else if code == 3 {
        Syscall::GetPid
    } else if code == 4 {
        Syscall::Exit
    } else if code == 5 {
        Syscall::AllocPage
    } else if code == 6 {
        Syscall::DeallocPage
    } else if code == 7 {
        Syscall::Sleep
    } else {
        Syscall::Unknown
    }
}

/// The system call that code `code` asks for.
pub fn decode_syscall(code: u64) -> (r: Syscall)
    ensures
        r == spec_decode_syscall(code),
{
    match code {
        1 => Syscall::PrintStr,
        2 => Syscall::GetTicks,
        3 => Syscall::GetPid,
        4 => Syscall::Exit,
        5 => Syscall::AllocPage,
        6 => Syscall::DeallocPage,
        7 => Syscall::Sleep,
        _ => Syscall::Unknown,
    }
}


/// What the kernel does for a trap from user code, besides what `user_trap` changes.
#[derive(PartialEq, Eq, Structural, Debug)]
pub enum TrapAction {
    /// A timer tick: core 0 counts it; the software interrupt is acknowledged.
    Timer { count_tick: bool },
    /// A device interrupt: the interrupt controller names the device to serve.
    Device,
    /// A system call, to be served when the process is resumed.
    Syscall,
    /// A trap of unknown cause, with nothing to do but stop.
    Unknown,
}

/// Handles a trap from user code on core `core`, `scause` saying its cause: a timer
/// tick passes the core on to the next slot; a system call moves the program counter
/// past the call instruction and is noted as the last interrupt.
pub fn user_trap(cpu: &mut CpuData, ctx: &mut Context, scause: u64, core: u64) -> (r: TrapAction)
    requires
        old(cpu).curr_pid < usize::MAX,
        old(ctx).pc <= u64::MAX - 4,
    ensures
        match spec_interrupt_type(scause) {
            InterruptType::Timer => {
                &&& r == TrapAction::Timer { count_tick: core == 0 }
                &&& final(cpu).curr_pid == (old(cpu).curr_pid + 1) % (NUM_PROC as int)
                &&& !final(cpu).was_last_interrupt_external
                &&& *final(ctx) == *old(ctx)
            },
            InterruptType::OtherDevice => {
                &&& r == TrapAction::Device
                &&& final(cpu).curr_pid == old(cpu).curr_pid
                &&& !final(cpu).was_last_interrupt_external
                &&& *final(ctx) == *old(ctx)
            },
            InterruptType::User => {
                &&& r == TrapAction::Syscall
                &&& final(cpu).curr_pid == old(cpu).curr_pid
                &&& final(cpu).was_last_interrupt_external
                &&& *final(ctx) == Context { pc: (old(ctx).pc + 4) as u64, ..*old(ctx) }
            },
            InterruptType::Unknown => {
                &&& r == TrapAction::Unknown
                &&& final(cpu).curr_pid == old(cpu).curr_pid
                &&& !final(cpu).was_last_interrupt_external
                &&& *final(ctx) == *old(ctx)
            },
        },
        final(cpu).last_pid == old(cpu).last_pid,
{
    let ty = get_interrupt_type(scause);
    cpu.was_last_interrupt_external = false;
    match ty {
        InterruptType::Timer => {
            scheduler_next_proc(cpu);
            TrapAction::Timer { count_tick: core == 0 }
        },
        InterruptType::OtherDevice => TrapAction::Device,
        InterruptType::User => {
            ctx.pc = ctx.pc + 4;
            cpu.was_last_interrupt_external = true;
            TrapAction::Syscall
        },
        InterruptType::Unknown => TrapAction::Unknown,
    }
}

/// What resuming after a trap asks of the rest of the kernel.
#[derive(PartialEq, Eq, Structural, Debug)]
pub enum ResumeAction {
    /// Nothing more.
    Nothing,
    /// Print the `len` bytes of the process at `addr`.
    Print { addr: u64, len: u64 },
    /// Map a new page at `addr` for the process.
    AllocPage { addr: u64, ignore_if_exists: bool },
    /// Give back the page at `addr`.
    FreePage { addr: u64 },
    /// Report an unknown system call.
    UnknownCall { code: u64 },
}

/// The slot of process `pid` made ready to run again.
pub open spec fn made_ready(t: Seq<Option<Process>>, pid: int) -> Seq<Option<Process>> {
    t.update(pid, Some(Process { state: ProcessState::Ready, needs_paging_refresh: t[pid]->0.needs_paging_refresh }))
}

/// Resumes after a trap at tick `ticks`: serves the system call of the last process
/// where the last interrupt was one, and makes the process ready again (it exits, or
/// sleeps for `a3` ticks, where the call asks so).
pub fn sched_resume(table: &mut ProcTable, cpu: &CpuData, ctx: &mut Context, ticks: u64) -> (r: ResumeAction)
    requires
        old(table).wf(),
        cpu.last_pid < NUM_PROC,
        old(table)@[cpu.last_pid as int] is Some,
        cpu.was_last_interrupt_external && old(ctx).a7 == 7 ==> ticks + old(ctx).a3 <= u64::MAX,
    ensures
        final(table).wf(),
        ({
            let pid = cpu.last_pid as int;
            let t = old(table)@;
            if !cpu.was_last_interrupt_external {
                r == ResumeAction::Nothing && final(table)@ == made_ready(t, pid) && *final(ctx) == *old(ctx)
            } else {
                match spec_decode_syscall(old(ctx).a7) {
                    Syscall::PrintStr => r == ResumeAction::Print { addr: old(ctx).a3, len: old(ctx).a4 } && final(table)@
                        == made_ready(t, pid) && *final(ctx) == *old(ctx),
                    Syscall::GetTicks => r == ResumeAction::Nothing && final(table)@ == made_ready(t, pid) && *final(ctx)
                        == Context { a2: ticks, ..*old(ctx) },
                    Syscall::GetPid => r == ResumeAction::Nothing && final(table)@ == made_ready(t, pid) && *final(ctx)
                        == Context { a2: cpu.last_pid as u64, ..*old(ctx) },
                    Syscall::Exit => r == ResumeAction::Nothing && final(table)@ == t.update(pid, None) && *final(ctx)
                        == *old(ctx),
                    Syscall::AllocPage => r == ResumeAction::AllocPage { addr: old(ctx).a3, ignore_if_exists: old(ctx).a4 != 0 }
                        && final(table)@ == made_ready(t, pid) && *final(ctx) == *old(ctx),
                    Syscall::DeallocPage => r == ResumeAction::FreePage { addr: old(ctx).a3 } && final(table)@ == t.update(
                        pid,
                        Some(Process { state: ProcessState::Ready, needs_paging_refresh: [true, true, true, true] }),
                    ) && *final(ctx) == *old(ctx),
                    Syscall::Sleep => r == ResumeAction::Nothing && final(table)@ == t.update(
                        pid,
                        Some(Process { state: ProcessState::Sleeping((ticks + old(ctx).a3) as u64), needs_paging_refresh: t[pid]->0.needs_paging_refresh }),
                    ) && *final(ctx) == *old(ctx),
                    Syscall::Unknown => r == ResumeAction::UnknownCall { code: old(ctx).a7 } && final(table)@ == t
                        && *final(ctx) == *old(ctx),
                }
            }
        }),
{
    proof {
        old(table).lemma_len();
    }
    let pid = cpu.last_pid;
    if !cpu.was_last_interrupt_external {
        table.mark_process_ready(pid);
        return ResumeAction::Nothing;
    }
    match decode_syscall(ctx.a7) {
        Syscall::PrintStr => {
            table.mark_process_ready(pid);
            ResumeAction::Print { addr: ctx.a3, len: ctx.a4 }
        },
        Syscall::GetTicks => {
            ctx.a2 = ticks;
            table.mark_process_ready(pid);
            ResumeAction::Nothing
        },
        Syscall::GetPid => {
            ctx.a2 = pid as u64;
            table.mark_process_ready(pid);
            ResumeAction::Nothing
        },
        Syscall::Exit => {
            table.terminate_process(pid);
            ResumeAction::Nothing
        },
        Syscall::AllocPage => {
            table.mark_process_ready(pid);
            ResumeAction::AllocPage { addr: ctx.a3, ignore_if_exists: ctx.a4 != 0 }
        },
        Syscall::DeallocPage => {
            table.refresh_paging_for_proc(pid);
            table.mark_process_ready(pid);
            assert(table@ =~= old(table)@.update(
                pid as int,
                Some(Process { state: ProcessState::Ready, needs_paging_refresh: [true, true, true, true] }),
            ));
            ResumeAction::FreePage { addr: ctx.a3 }
        },
        Syscall::Sleep => {
            let until = ticks + ctx.a3;
            table.put_process_to_sleep(pid, until);
            ResumeAction::Nothing
        },
        Syscall::Unknown => ResumeAction::UnknownCall { code: ctx.a7 },
    }
}

/// Handles a trap taken while the kernel runs on core `core`, `scause` saying its
/// cause: a timer tick passes the core on to the next slot; a system call or an
/// unknown cause is not expected there and is reported as unknown.
pub fn kernel_trap(cpu: &mut CpuData, scause: u64, core: u64) -> (r: TrapAction)
    requires
        old(cpu).curr_pid < usize::MAX,
    ensures
        match spec_interrupt_type(scause) {
            InterruptType::Timer => {
                &&& r == TrapAction::Timer { count_tick: core == 0 }
                &&& final(cpu).curr_pid == (old(cpu).curr_pid + 1) % (NUM_PROC as int)
            },
            InterruptType::OtherDevice => r == TrapAction::Device && final(cpu).curr_pid == old(cpu).curr_pid,
            _ => r == TrapAction::Unknown && final(cpu).curr_pid == old(cpu).curr_pid,
        },
        final(cpu).last_pid == old(cpu).last_pid,
        final(cpu).was_last_interrupt_external == old(cpu).was_last_interrupt_external,
{
    match get_interrupt_type(scause) {
        InterruptType::Timer => {
            scheduler_next_proc(cpu);
            TrapAction::Timer { count_tick: core == 0 }
        },
        InterruptType::OtherDevice => TrapAction::Device,
        _ => TrapAction::Unknown,
    }
}

} // verus!
