use vstd::prelude::*;

verus! {

/// Cores of the machine.
pub const NUM_CORES: usize = 4;
/// Slots of the process table.
pub const NUM_PROC: usize = 16;

/// The registers of a process saved when it traps into the kernel, with the program
/// counter and the number of the core that runs it.
#[derive(Clone, Copy, Debug)]
pub struct Context {
    pub ra: u64,
    pub sp: u64,
    pub gp: u64,
    pub tp: u64,
    pub t0: u64,
    pub t1: u64,
    pub t2: u64,
    pub s0: u64,
    pub s1: u64,
    pub a0: u64,
    pub a1: u64,
    pub a2: u64,
    pub a3: u64,
    pub a4: u64,
    pub a5: u64,
    pub a6: u64,
    pub a7: u64,
    pub s2: u64,
    pub s3: u64,
    pub s4: u64,
    pub s5: u64,
    pub s6: u64,
    pub s7: u64,
    pub s8: u64,
    pub s9: u64,
    pub s10: u64,
    pub s11: u64,
    pub t3: u64,
    pub t4: u64,
    pub t5: u64,
    pub t6: u64,
    pub pc: u64,
    pub kernel_hartid: u64,
}

/// What a core remembers about scheduling.
#[derive(Clone, Copy, Debug)]
pub struct CpuData {
    pub was_last_interrupt_external: bool,
    pub curr_pid: usize,
    pub last_pid: usize,
}

impl CpuData {
    /// The state a core starts in.
    pub fn new() -> (r: CpuData)
        ensures
            !r.was_last_interrupt_external,
            r.curr_pid == 1000,
            r.last_pid == 1000,
    {
        CpuData { was_last_interrupt_external: false, curr_pid: 1000, last_pid: 1000 }
    }
}

/// Moves the core's round-robin pointer to the next process slot.
pub fn scheduler_next_proc(cpu: &mut CpuData)
    requires
        old(cpu).curr_pid < usize::MAX,
    ensures
        final(cpu).curr_pid == (old(cpu).curr_pid + 1) % (NUM_PROC as int),
        final(cpu).last_pid == old(cpu).last_pid,
        final(cpu).was_last_interrupt_external == old(cpu).was_last_interrupt_external,
{
    cpu.curr_pid = cpu.curr_pid + 1;
    cpu.curr_pid = cpu.curr_pid % NUM_PROC;
}

/// The life cycle of a process.
#[derive(Clone, Copy, PartialEq, Eq, Structural, Debug)]
pub enum ProcessState {
    /// Its program is being loaded.
    Loading,
    /// It can be run by a core.
    Ready,
    /// A core runs it.
    Running,
    /// It waits until the tick count reaches the value.
    Sleeping(u64),
}

/// A process.
#[derive(Clone, Copy, Debug)]
pub struct Process {
    pub state: ProcessState,
    pub needs_paging_refresh: [bool; 4],
}

/// The process table and the count of live processes.
pub struct ProcTable {
    procs: Vec<Option<Process>>,
    num_processes: usize,
}

/// Number of occupied slots among the first `n`.
pub open spec fn occupied(procs: Seq<Option<Process>>, n: int) -> nat
    decreases n,
{
    if n <= 0 {
        0
    } else {
        occupied(procs, n - 1) + (if procs[n - 1] is Some { 1nat } else { 0nat })
    }
}

proof fn lemma_occupied_update(procs: Seq<Option<Process>>, i: int, p: Option<Process>, n: int)
    requires
        0 <= i < n <= procs.len(),
    ensures
        occupied(procs.update(i, p), n) == occupied(procs, n) - (if procs[i] is Some { 1int } else { 0int }) + (if p is Some {
            1int
        } else {
            0int
        }),
    decreases n,
{
    if n - 1 > i {
        lemma_occupied_update(procs, i, p, n - 1);
    } else {
        lemma_occupied_same(procs, procs.update(i, p), n - 1);
    }
}

proof fn lemma_occupied_same(a: Seq<Option<Process>>, b: Seq<Option<Process>>, n: int)
    requires
        0 <= n <= a.len(),
        n <= b.len(),
        forall|k: int| 0 <= k < n ==> (a[k] is Some) == (b[k] is Some),
    ensures
        occupied(a, n) == occupied(b, n),
    decreases n,
{
    if n > 0 {
        lemma_occupied_same(a, b, n - 1);
    }
}

proof fn lemma_occupied_bound(procs: Seq<Option<Process>>, n: int)
    requires
        0 <= n <= procs.len(),
    ensures
        occupied(procs, n) <= n,
    decreases n,
{
    if n > 0 {
        lemma_occupied_bound(procs, n - 1);
    }
}

impl View for ProcTable {
    type V = Seq<Option<Process>>;

    closed spec fn view(&self) -> Seq<Option<Process>> {
        self.procs@
    }
}

impl ProcTable {
    /// The table has `NUM_PROC` slots and the count matches the occupied slots.
    pub closed spec fn wf(&self) -> bool {
        &&& self.procs.len() == NUM_PROC
        &&& self.num_processes == occupied(self.procs@, NUM_PROC as int)
    }

    /// Number of live processes.
    pub open spec fn live(&self) -> nat {
        occupied(self@, NUM_PROC as int)
    }

    /// An empty table.
    pub fn new() -> (r: ProcTable)
        ensures
            r.wf(),
            r@ == Seq::new(NUM_PROC as nat, |i: int| None::<Process>),
    {
        let mut procs: Vec<Option<Process>> = Vec::new();
        let mut k: usize = 0;
        while k < NUM_PROC
            invariant
                k <= NUM_PROC,
                procs@ == Seq::new(k as nat, |i: int| None::<Process>),
            decreases NUM_PROC - k,
        {
            procs.push(None);
            assert(procs@ =~= Seq::new((k + 1) as nat, |i: int| None::<Process>));
            k = k + 1;
        }
        proof {
            lemma_occupied_same(procs@, procs@, NUM_PROC as int);
            assert(occupied(procs@, NUM_PROC as int) == 0) by {
                reveal_with_fuel(occupied, 17);
            }
        }
        ProcTable { procs, num_processes: 0 }
    }

    /// The first free slot; the table must have one.
    pub fn get_free_proc(&self) -> (r: usize)
        requires
            self.wf(),
            exists|i: int| 0 <= i < NUM_PROC && #[trigger] self@[i] is None,
        ensures
            r < NUM_PROC,
            self@[r as int] is None,
            forall|j: int| 0 <= j < r ==> self@[j] is Some,
    {
        let mut i: usize = 0;
        while i < NUM_PROC
            invariant
                self.wf(),
                i <= NUM_PROC,
                forall|j: int| 0 <= j < i ==> self@[j] is Some,
                exists|k: int| 0 <= k < NUM_PROC && #[trigger] self@[k] is None,
            decreases NUM_PROC - i,
        {
            if self.procs[i].is_none() {
                return i;
            }
            i = i + 1;
        }
        proof {
            let k = choose|k: int| 0 <= k < NUM_PROC && #[trigger] self@[k] is None;
            assert(self@[k] is Some);
        }
        0
    }

    /// Puts a new process, still loading, in the first free slot and returns the slot.
    pub fn add_process(&mut self) -> (r: usize)
        requires
            old(self).wf(),
            exists|i: int| 0 <= i < NUM_PROC && #[trigger] old(self)@[i] is None,
        ensures
            final(self).wf(),
            r < NUM_PROC,
            old(self)@[r as int] is None,
            forall|j: int| 0 <= j < r ==> old(self)@[j] is Some,
            final(self)@ == old(self)@.update(
                r as int,
                Some(Process { state: ProcessState::Loading, needs_paging_refresh: [true, true, true, true] }),
            ),
            final(self).live() == old(self).live() + 1,
    {
        let slot = self.get_free_proc();
        let p = Process { state: ProcessState::Loading, needs_paging_refresh: [true, true, true, true] };
        proof {
            lemma_occupied_update(self.procs@, slot as int, Some(p), NUM_PROC as int);
            lemma_occupied_bound(self.procs@.update(slot as int, Some(p)), NUM_PROC as int);
        }
        self.procs.set(slot, Some(p));
        self.num_processes = self.num_processes + 1;
        slot
    }

    /// The table has one slot per process number.
    pub proof fn lemma_len(&self)
        requires
            self.wf(),
        ensures
            self@.len() == NUM_PROC,
    {
    }

    /// Sets the state of the process in slot `pid`.
    pub fn set_state(&mut self, pid: usize, state: ProcessState)
        requires
            old(self).wf(),
            pid < NUM_PROC,
            old(self)@[pid as int] is Some,
        ensures
            final(self).wf(),
            final(self)@ == old(self)@.update(
                pid as int,
                Some(Process { state, needs_paging_refresh: old(self)@[pid as int]->0.needs_paging_refresh }),
            ),
            final(self).live() == old(self).live(),
    {
        let mut p = self.procs[pid].unwrap();
        p.state = state;
        proof {
            lemma_occupied_update(self.procs@, pid as int, Some(p), NUM_PROC as int);
        }
        self.procs.set(pid, Some(p));
    }

    /// Makes the process in slot `pid` ready to run.
    pub fn mark_process_ready(&mut self, pid: usize)
        requires
            old(self).wf(),
            pid < NUM_PROC,
            old(self)@[pid as int] is Some,
        ensures
            final(self).wf(),
            final(self)@ == old(self)@.update(
                pid as int,
                Some(Process { state: ProcessState::Ready, needs_paging_refresh: old(self)@[pid as int]->0.needs_paging_refresh }),
            ),
    {
        self.set_state(pid, ProcessState::Ready);
    }

    /// Puts the process in slot `pid` to sleep until tick `until`.
    pub fn put_process_to_sleep(&mut self, pid: usize, until: u64)
        requires
            old(self).wf(),
            pid < NUM_PROC,
            old(self)@[pid as int] is Some,
        ensures
            final(self).wf(),
            final(self)@ == old(self)@.update(
                pid as int,
                Some(Process { state: ProcessState::Sleeping(until), needs_paging_refresh: old(self)@[pid as int]->0.needs_paging_refresh }),
            ),
    {
        self.set_state(pid, ProcessState::Sleeping(until));
    }

    /// Frees slot `pid`.
    pub fn terminate_process(&mut self, pid: usize)
        requires
            old(self).wf(),
            pid < NUM_PROC,
            old(self)@[pid as int] is Some,
        ensures
            final(self).wf(),
            final(self)@ == old(self)@.update(pid as int, None),
            final(self).live() == old(self).live() - 1,
    {
        proof {
            lemma_occupied_update(self.procs@, pid as int, None, NUM_PROC as int);
        }
        self.procs.set(pid, None);
        self.num_processes = self.num_processes - 1;
    }

    /// Asks every core to refresh its paging before running the process in slot `pid`.
    pub fn refresh_paging_for_proc(&mut self, pid: usize)
        requires
            old(self).wf(),
            pid < NUM_PROC,
            old(self)@[pid as int] is Some,
        ensures
            final(self).wf(),
            final(self)@ == old(self)@.update(
                pid as int,
                Some(Process { state: old(self)@[pid as int]->0.state, needs_paging_refresh: [true, true, true, true] }),
            ),
    {
        let mut p = self.procs[pid].unwrap();
        p.needs_paging_refresh = [true, true, true, true];
        proof {
            lemma_occupied_update(self.procs@, pid as int, Some(p), NUM_PROC as int);
        }
        self.procs.set(pid, Some(p));
    }

    /// Number of live processes.
    pub fn get_num_processes(&self) -> (r: usize)
        requires
            self.wf(),
        ensures
            r == self.live(),
    {
        self.num_processes
    }

    /// One scheduling decision for slot `pid` at tick `ticks`: a sleeper whose time has
    /// come becomes ready; a ready process is taken to run (it becomes running and the
    /// result says so), anything else is passed over.
    pub fn try_schedule(&mut self, pid: usize, ticks: u64) -> (r: bool)
        requires
            old(self).wf(),
            pid < NUM_PROC,
        ensures
            final(self).wf(),
            final(self).live() == old(self).live(),
            r == (old(self)@[pid as int] matches Some(p) && (p.state == ProcessState::Ready || (p.state matches ProcessState::Sleeping(u) && u <= ticks))),
            r ==> final(self)@ == old(self)@.update(
                pid as int,
                Some(Process { state: ProcessState::Running, needs_paging_refresh: old(self)@[pid as int]->0.needs_paging_refresh }),
            ),
            !r ==> final(self)@ == old(self)@,
    {
        match self.procs[pid] {
            None => false,
            Some(p) => {
                let wakes = match p.state {
                    ProcessState::Sleeping(until) => until <= ticks,
                    _ => false,
                };
                if wakes || p.state == ProcessState::Ready {
                    self.set_state(pid, ProcessState::Running);
                    true
                } else {
                    false
                }
            },
        }
    }
}

/// `q` is `p` with its request for a paging refresh on core `core` taken back.
pub open spec fn refresh_taken(p: Process, q: Process, core: int) -> bool {
    q.state == p.state && q.needs_paging_refresh@ == p.needs_paging_refresh@.update(core, false)
}

impl ProcTable {
    /// Whether the process in slot `pid` must refresh its paging on core `core`
    /// before it runs; the request is taken back.
    pub fn take_paging_refresh(&mut self, pid: usize, core: usize) -> (r: bool)
        requires
            old(self).wf(),
            pid < NUM_PROC,
            core < 4,
            old(self)@[pid as int] is Some,
        ensures
            final(self).wf(),
            final(self).live() == old(self).live(),
            r == old(self)@[pid as int]->0.needs_paging_refresh[core as int],
            final(self)@ == old(self)@.update(pid as int, final(self)@[pid as int]),
            final(self)@[pid as int] matches Some(q) && refresh_taken(old(self)@[pid as int]->0, q, core as int),
    {
        let mut p = self.procs[pid].unwrap();
        let r = p.needs_paging_refresh[core];
        let ghost before = p.needs_paging_refresh;
        p.needs_paging_refresh[core] = false;
        proof {
            assert(p.needs_paging_refresh@ =~= before@.update(core as int, false));
            lemma_occupied_update(self.procs@, pid as int, Some(p), NUM_PROC as int);
        }
        self.procs.set(pid, Some(p));
        r
    }
}

/// What the scheduler does with the slot it looks at.
#[derive(PartialEq, Eq, Structural, Debug)]
pub enum SchedulerAction {
    /// The scheduler is switched off: the core waits for an interrupt and looks at no slot.
    Paused,
    /// Passes over the slot, which holds no process ready to run.
    Skip,
    /// Runs the process in the slot, refreshing the paging of the core first where
    /// asked.
    Run { pid: usize, refresh: bool },
}

/// One round of the scheduler on core `core` at tick `ticks`, `misses` slots having
/// been passed over since it last waited: first whether it waits for an interrupt
/// (after a whole turn of slots passed over; the count starts again), then what it
/// does with slot `curr_pid`: a process ready to run (or a sleeper whose time has
/// come) runs there, else the slot is passed over and the next one comes up. While the
/// scheduler is switched off (`enabled` false) the core only waits.
pub fn scheduler_step(
    table: &mut ProcTable,
    cpu: &mut CpuData,
    misses: &mut usize,
    ticks: u64,
    core: usize,
    enabled: bool,
) -> (r: (bool, SchedulerAction))
    requires
        old(table).wf(),
        old(cpu).curr_pid < NUM_PROC,
        *old(misses) <= NUM_PROC,
        core < 4,
    ensures
        final(table).wf(),
        final(table).live() == old(table).live(),
        !enabled ==> r.0,
        enabled ==> r.0 == (*old(misses) == NUM_PROC),
        (r.1 == SchedulerAction::Paused) <==> !enabled,
        ({
            let pid = old(cpu).curr_pid;
            let m = if r.0 { 0 } else { *old(misses) };
            match r.1 {
                SchedulerAction::Paused => {
                    &&& final(table)@ == old(table)@
                    &&& *final(misses) == *old(misses)
                    &&& *final(cpu) == *old(cpu)
                },
                SchedulerAction::Skip => {
                    &&& !(old(table)@[pid as int] matches Some(p) && (p.state == ProcessState::Ready || (p.state matches ProcessState::Sleeping(u) && u <= ticks)))
                    &&& final(table)@ == old(table)@
                    &&& *final(misses) == m + 1
                    &&& final(cpu).curr_pid == (pid + 1) % (NUM_PROC as int)
                    &&& final(cpu).last_pid == old(cpu).last_pid
                },
                SchedulerAction::Run { pid: run, refresh } => {
                    &&& run == pid
                    &&& old(table)@[pid as int] matches Some(p) && (p.state == ProcessState::Ready || (p.state matches ProcessState::Sleeping(u) && u <= ticks))
                    &&& refresh == old(table)@[pid as int]->0.needs_paging_refresh[core as int]
                    &&& final(table)@ == old(table)@.update(pid as int, final(table)@[pid as int])
                    &&& final(table)@[pid as int] matches Some(q) && q.state == ProcessState::Running
                        && q.needs_paging_refresh@ == old(table)@[pid as int]->0.needs_paging_refresh@.update(core as int, false)
                    &&& *final(misses) == m
                    &&& final(cpu).curr_pid == pid
                    &&& final(cpu).last_pid == pid
                },
            }
        }),
        final(cpu).was_last_interrupt_external == old(cpu).was_last_interrupt_external,
{
    if !enabled {
        return (true, SchedulerAction::Paused);
    }
    let waits = *misses == NUM_PROC;
    if waits {
        *misses = 0;
    }
    let pid = cpu.curr_pid;
    if !table.try_schedule(pid, ticks) {
        *misses = *misses + 1;
        scheduler_next_proc(cpu);
        return (waits, SchedulerAction::Skip);
    }
    let refresh = table.take_paging_refresh(pid, core);
    cpu.last_pid = pid;
    (waits, SchedulerAction::Run { pid, refresh })
}

} // verus!
