use crate::context::{Context, CpuState, WORD_BYTES};
use vstd::prelude::*;

verus! {

/// Hands out task identifiers: each is one more than the one before, and
/// none is handed out twice. The first one is 1; 0 is the kernel's own task.
pub struct PidCounter {
    last: usize,
}

impl PidCounter {
    /// The identifier handed out last, 0 before the first.
    pub closed spec fn last(&self) -> nat {
        self.last as nat
    }

    pub fn new() -> (r: PidCounter)
        ensures
            r.last() == 0,
    {
        PidCounter { last: 0 }
    }

    /// The next identifier; `None` once every identifier was handed out.
    pub fn next_pid(&mut self) -> (r: Option<usize>)
        ensures
            old(self).last() < usize::MAX ==> r == Some((old(self).last() + 1) as usize) && final(self).last() == old(self).last() + 1,
            old(self).last() == usize::MAX ==> r.is_none() && final(self).last() == old(self).last(),
    {
        if self.last == usize::MAX {
            None
        } else {
            self.last = self.last + 1;
            Some(self.last)
        }
    }
}

/// The code segment selector of the kernel.
pub const KERNEL_CODE_SELECTOR: usize = 8;

/// The frame an interrupt return pops: where to resume, with which flags,
/// segment and stack.
#[derive(Clone, Copy, Debug, PartialEq, Eq, Structural)]
pub struct IretFrame {
    pub ss: usize,
    pub rsp: usize,
    pub rflags: usize,
    pub cs: usize,
    pub rip: usize,
}

/// The state that the kernel's tasks share: the source of task identifiers
/// and the identifier of the task that is running. The running task is only
/// named here, never owned.
pub struct KernelState {
    pids: PidCounter,
    active: usize,
}

impl KernelState {
    /// The identifier of the running task.
    pub closed spec fn active_view(&self) -> nat {
        self.active as nat
    }

    /// The identifiers handed out so far end at this one.
    pub closed spec fn last_pid(&self) -> nat {
        self.pids.last()
    }

    /// Kernel state with the kernel's own task, identifier 0, running.
    pub fn new() -> (r: KernelState)
        ensures
            r.active_view() == 0,
            r.last_pid() == 0,
    {
        KernelState { pids: PidCounter::new(), active: 0 }
    }

    /// The identifier of the running task.
    pub fn active(&self) -> (r: usize)
        ensures
            r == self.active_view(),
    {
        self.active
    }

    /// A new task with the next identifier; see `Process::new`.
    pub fn spawn(&mut self, cr3: usize, stack_end: usize, stack: Vec<u8>) -> (r: Option<Process>)
        requires
            stack@.len() <= stack_end,
        ensures
            final(self).active_view() == old(self).active_view(),
            old(self).last_pid() < usize::MAX ==> r.is_some() && final(self).last_pid() == old(self).last_pid() + 1
                && r.unwrap().pid_view() == final(self).last_pid() && r.unwrap().context_view().wf()
                && r.unwrap().context_view().registers().cr3 == cr3
                && r.unwrap().context_view().registers().rsp == stack_end
                && r.unwrap().context_view().base() + stack@.len() == stack_end,
            old(self).last_pid() == usize::MAX ==> r.is_none() && final(self).last_pid() == old(self).last_pid(),
    {
        Process::new(&mut self.pids, cr3, stack_end, stack)
    }
}

/// A task: an identifier and the saved state it resumes from.
pub struct Process {
    pid: usize,
    context: Context,
}

impl Process {
    pub closed spec fn pid_view(&self) -> nat {
        self.pid as nat
    }

    pub closed spec fn context_view(&self) -> &Context {
        &self.context
    }

    /// A task with the next identifier of `pids`, running on page table `cr3`,
    /// whose stack buffer `stack` ends at address `stack_end`. `None` when no
    /// identifier is left.
    pub fn new(pids: &mut PidCounter, cr3: usize, stack_end: usize, stack: Vec<u8>) -> (r: Option<Process>)
        requires
            stack@.len() <= stack_end,
        ensures
            old(pids).last() < usize::MAX ==> r.is_some() && final(pids).last() == old(pids).last() + 1
                && r.unwrap().pid_view() == final(pids).last() && r.unwrap().context_view().wf()
                && r.unwrap().context_view().registers() == (CpuState {
                    cr3,
                    rflags: 0,
                    rbx: 0,
                    r12: 0,
                    r13: 0,
                    r14: 0,
                    r15: 0,
                    rbp: stack_end,
                    rsp: stack_end,
                }) && r.unwrap().context_view().stack_bytes() == stack@
                && r.unwrap().context_view().base() + stack@.len() == stack_end,
            old(pids).last() == usize::MAX ==> r.is_none() && final(pids).last() == old(pids).last(),
    {
        match pids.next_pid() {
            Some(pid) => Some(Process { pid, context: Context::new(cr3, stack_end, stack) }),
            None => None,
        }
    }

    pub fn pid(&self) -> (r: usize)
        ensures
            r == self.pid_view(),
    {
        self.pid
    }

    pub fn context(&self) -> (r: &Context)
        ensures
            r == self.context_view(),
    {
        &self.context
    }

    /// Primes the stack so that the first switch here returns into
    /// `start`, which returns into `entry`, which returns into `shutdown`.
    #[verifier::spinoff_prover]
    #[verifier::rlimit(40)]
    pub fn set_context(&mut self, entry: usize, start: usize, shutdown: usize)
        requires
            old(self).context_view().wf(),
            old(self).context_view().base() + 4 * WORD_BYTES <= old(self).context_view().registers().rsp,
            old(self).context_view().registers().rsp <= old(self).context_view().base()
                + old(self).context_view().stack_bytes().len(),
        ensures
            final(self).context_view().wf(),
            final(self).pid_view() == old(self).pid_view(),
            final(self).context_view().registers() == (CpuState {
                rsp: (old(self).context_view().registers().rsp - 4 * WORD_BYTES) as usize,
                ..old(self).context_view().registers()
            }),
            final(self).context_view().base() == old(self).context_view().base(),
            ({
                let c = final(self).context_view();
                let off = c.registers().rsp - c.base();
                &&& c.stack_bytes().subrange(off, off + 8) == crate::context::word_bytes(start as u64)
                &&& c.stack_bytes().subrange(off + 8, off + 16) == crate::context::word_bytes(entry as u64)
                &&& c.stack_bytes().subrange(off + 16, off + 24) == crate::context::word_bytes(shutdown as u64)
                &&& c.stack_bytes().subrange(off + 24, off + 32) == crate::context::word_bytes(0)
            }),
    {
        let ghost b0 = self.context.stack_bytes();
        self.context.push_stack(0);
        let ghost b1 = self.context.stack_bytes();
        self.context.push_stack(shutdown);
        let ghost b2 = self.context.stack_bytes();
        self.context.push_stack(entry);
        let ghost b3 = self.context.stack_bytes();
        self.context.push_stack(start);
        proof {
            let c = self.context;
            let off = c.registers().rsp - c.base();
            assert(c.stack_bytes().subrange(off, off + 8) =~= crate::context::word_bytes(start as u64));
            assert(c.stack_bytes().subrange(off + 8, off + 16) =~= b3.subrange(off + 8, off + 16));
            assert(b3.subrange(off + 8, off + 16) =~= crate::context::word_bytes(entry as u64));
            assert(c.stack_bytes().subrange(off + 16, off + 24) =~= b2.subrange(off + 16, off + 24));
            assert(b2.subrange(off + 16, off + 24) =~= crate::context::word_bytes(shutdown as u64));
            assert(c.stack_bytes().subrange(off + 24, off + 32) =~= b1.subrange(off + 24, off + 32));
            assert(b1.subrange(off + 24, off + 32) =~= crate::context::word_bytes(0));
        }
    }

    /// What a dispatch from `cur` to `next` does: `cur` saves the processor
    /// state, the processor takes `next`'s, and the word on top of `next`'s
    /// saved stack is popped as the address to resume at.
    pub open spec fn dispatched(
        cur: &Process,
        cur_post: &Process,
        next: &Process,
        next_post: &Process,
        cpu_pre: CpuState,
        cpu_post: CpuState,
        frame: IretFrame,
    ) -> bool {
        let c = next.context_view();
        let off = c.registers().rsp - c.base();
        &&& cur_post.context_view().registers() == cpu_pre
        &&& cpu_post == c.registers()
        &&& next_post.context_view().registers().rsp == c.registers().rsp + WORD_BYTES
        &&& frame == (IretFrame {
            ss: 0,
            rsp: (c.registers().rsp + WORD_BYTES) as usize,
            rflags: c.registers().rflags,
            cs: KERNEL_CODE_SELECTOR,
            rip: crate::context::word_of(c.stack_bytes().subrange(off, off + 8)) as usize,
        })
    }

    /// The kernel's own task, identifier 0, with the processor state `cpu`
    /// captured into its context.
    pub fn kernel(cpu: &CpuState) -> (r: Process)
        ensures
            r.pid_view() == 0,
            r.context_view().wf(),
            r.context_view().registers() == *cpu,
    {
        Process { pid: 0, context: Context::save_current_context(cpu) }
    }

    /// Makes `next` the running task in `state` when `self` is the running
    /// task: switches the processor from `self` to `next` and builds the
    /// interrupt-return frame that resumes `next` at the address on top of
    /// its saved stack. `None`, with nothing changed, when `self` is not the
    /// running task, both have one identifier, or `next` has no word on its
    /// stack.
    pub fn dispatch_to(&mut self, next: &mut Process, state: &mut KernelState, cpu: &mut CpuState) -> (r: Option<IretFrame>)
        requires
            old(next).context_view().wf(),
        ensures
            r.is_some() == (old(self).pid_view() == old(state).active_view() && old(self).pid_view()
                != old(next).pid_view() && old(next).context_view().can_pop()),
            r.is_some() ==> final(state).active_view() == old(next).pid_view() && Process::dispatched(
                old(self),
                final(self),
                old(next),
                final(next),
                *old(cpu),
                *final(cpu),
                r.unwrap(),
            ),
            r.is_none() ==> final(state).active_view() == old(state).active_view() && *final(cpu) == *old(cpu)
                && final(self).context_view().registers() == old(self).context_view().registers()
                && final(next).context_view().registers() == old(next).context_view().registers(),
            final(state).last_pid() == old(state).last_pid(),
            final(self).pid_view() == old(self).pid_view(),
            final(next).pid_view() == old(next).pid_view(),
            final(next).context_view().wf(),
    {
        if self.pid != state.active {
            return None;
        }
        let r = self.switch_for_resume(next, cpu);
        if r.is_some() {
            state.active = next.pid;
        }
        r
    }

    /// Switches the processor from the running task `self` to `next` and
    /// builds the interrupt-return frame that resumes `next` at the address
    /// on top of its saved stack. `None`, with nothing switched, when both
    /// have one identifier or `next` has no word on its stack.
    fn switch_for_resume(&mut self, next: &mut Process, cpu: &mut CpuState) -> (r: Option<IretFrame>)
        requires
            old(next).context_view().wf(),
        ensures
            r.is_some() == (old(self).pid_view() != old(next).pid_view() && old(next).context_view().can_pop()),
            r.is_some() ==> Process::dispatched(old(self), final(self), old(next), final(next), *old(cpu), *final(cpu), r.unwrap()),
            r.is_none() ==> *final(cpu) == *old(cpu) && final(self).context_view().registers() == old(self).context_view().registers()
                && final(next).context_view().registers() == old(next).context_view().registers(),
            final(self).pid_view() == old(self).pid_view(),
            final(next).pid_view() == old(next).pid_view(),
            final(next).context_view().wf(),
    {
        if self.pid == next.pid || !next.context.has_word() {
            return None;
        }
        self.context.switch_to(&next.context, cpu);
        let ghost before = next.context;
        let rip = next.context.pop_stack();
        let frame = IretFrame {
            ss: 0,
            rsp: next.context.get_rsp(),
            rflags: next.context.get_rflags(),
            cs: KERNEL_CODE_SELECTOR,
            rip,
        };
        proof {
            let c = old(next).context_view();
            assert(before == *c);
            let off = c.registers().rsp - c.base();
            assert(rip == crate::context::word_of(c.stack_bytes().subrange(off, off + 8)) as usize);
            assert(frame.rsp == c.registers().rsp + WORD_BYTES);
            assert(frame.rflags == c.registers().rflags);
        }
        Some(frame)
    }

    /// Switches the processor from `self` to `next`, unless both have one
    /// identifier; tells whether it switched.
    pub fn switch_process(&mut self, next: &Process, cpu: &mut CpuState) -> (r: bool)
        ensures
            r == (old(self).pid_view() != next.pid_view()),
            r ==> final(self).context_view().registers() == *old(cpu) && *final(cpu)
                == next.context_view().registers(),
            !r ==> *final(cpu) == *old(cpu) && final(self).context_view().registers() == old(self).context_view().registers(),
            final(self).pid_view() == old(self).pid_view(),
            final(self).context_view().stack_bytes() == old(self).context_view().stack_bytes(),
            final(self).context_view().base() == old(self).context_view().base(),
            final(self).context_view().wf() == old(self).context_view().wf(),
    {
        if self.pid != next.pid {
            self.context.switch_to(&next.context, cpu);
            true
        } else {
            false
        }
    }
}

/// A kernel thread: an identifier and the saved state it resumes from. A
/// thread runs on the page table of the task that made it; its own root is
/// left at zero.
pub struct Thread {
    init: bool,
    tid: usize,
    context: Context,
}

impl Thread {
    pub closed spec fn tid_view(&self) -> nat {
        self.tid as nat
    }

    pub closed spec fn context_view(&self) -> &Context {
        &self.context
    }

    /// A thread with the next identifier of `tids`, whose stack buffer `stack`
    /// ends at address `stack_end`. `None` when no identifier is left.
    pub fn new(tids: &mut PidCounter, stack_end: usize, stack: Vec<u8>) -> (r: Option<Thread>)
        requires
            stack@.len() <= stack_end,
        ensures
            old(tids).last() < usize::MAX ==> r.is_some() && final(tids).last() == old(tids).last() + 1
                && r.unwrap().tid_view() == final(tids).last() && r.unwrap().context_view().wf()
                && r.unwrap().context_view().registers() == (CpuState {
                    cr3: 0,
                    rflags: 0,
                    rbx: 0,
                    r12: 0,
                    r13: 0,
                    r14: 0,
                    r15: 0,
                    rbp: stack_end,
                    rsp: stack_end,
                }) && r.unwrap().context_view().stack_bytes() == stack@
                && !r.unwrap().started_view(),
            old(tids).last() == usize::MAX ==> r.is_none() && final(tids).last() == old(tids).last(),
    {
        match tids.next_pid() {
            Some(tid) => {
                let cr3 = Thread::init_page_table();
                Some(Thread { init: false, tid, context: Context::new(cr3, stack_end, stack) })
            },
            None => None,
        }
    }

    /// The page-table root of a new thread.
    pub fn init_page_table() -> (r: usize)
        ensures
            r == 0,
    {
        0
    }

    pub fn tid(&self) -> (r: usize)
        ensures
            r == self.tid_view(),
    {
        self.tid
    }

    pub closed spec fn started_view(&self) -> bool {
        self.init
    }

    /// Whether the thread has been started.
    pub fn is_started(&self) -> (r: bool)
        ensures
            r == self.started_view(),
    {
        self.init
    }
}

} // verus!
