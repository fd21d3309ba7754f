use vstd::prelude::*;

verus! {

/// The bytes of a machine word.
pub const WORD_BYTES: usize = 8;

/// The bytes a context's stack buffer has when none is given.
pub const DEFAULT_STACK_BYTES: usize = 4096;

/// The little-endian bytes of `v`.
pub open spec fn word_bytes(v: u64) -> Seq<u8> {
    seq![
        (v & 0xff) as u8,
        ((v >> 8u64) & 0xff) as u8,
        ((v >> 16u64) & 0xff) as u8,
        ((v >> 24u64) & 0xff) as u8,
        ((v >> 32u64) & 0xff) as u8,
        ((v >> 40u64) & 0xff) as u8,
        ((v >> 48u64) & 0xff) as u8,
        ((v >> 56u64) & 0xff) as u8,
    ]
}

/// The word whose little-endian bytes are the first eight of `b`.
pub open spec fn word_of(b: Seq<u8>) -> u64 {
    (b[0] as u64) | ((b[1] as u64) << 8u64) | ((b[2] as u64) << 16u64) | ((b[3] as u64) << 24u64)
        | ((b[4] as u64) << 32u64) | ((b[5] as u64) << 40u64) | ((b[6] as u64) << 48u64) | ((
    b[7] as u64) << 56u64)
}

/// Reading back the bytes of a word gives the word.
pub proof fn lemma_word_round_trip(v: u64)
    ensures
        word_of(word_bytes(v)) == v,
{
    let b = word_bytes(v);
    assert(b[0] as u64 == v & 0xff) by {
        assert(v & 0xff < 256) by (bit_vector);
    }
    assert(b[1] as u64 == (v >> 8u64) & 0xff) by {
        assert((v >> 8u64) & 0xff < 256) by (bit_vector);
    }
    assert(b[2] as u64 == (v >> 16u64) & 0xff) by {
        assert((v >> 16u64) & 0xff < 256) by (bit_vector);
    }
    assert(b[3] as u64 == (v >> 24u64) & 0xff) by {
        assert((v >> 24u64) & 0xff < 256) by (bit_vector);
    }
    assert(b[4] as u64 == (v >> 32u64) & 0xff) by {
        assert((v >> 32u64) & 0xff < 256) by (bit_vector);
    }
    assert(b[5] as u64 == (v >> 40u64) & 0xff) by {
        assert((v >> 40u64) & 0xff < 256) by (bit_vector);
    }
    assert(b[6] as u64 == (v >> 48u64) & 0xff) by {
        assert((v >> 48u64) & 0xff < 256) by (bit_vector);
    }
    assert(b[7] as u64 == (v >> 56u64) & 0xff) by {
        assert((v >> 56u64) & 0xff < 256) by (bit_vector);
    }
    assert(((v & 0xff) | (((v >> 8u64) & 0xff) << 8u64) | (((v >> 16u64) & 0xff) << 16u64) | (((v
        >> 24u64) & 0xff) << 24u64) | (((v >> 32u64) & 0xff) << 32u64) | (((v >> 40u64) & 0xff)
        << 40u64) | (((v >> 48u64) & 0xff) << 48u64) | (((v >> 56u64) & 0xff) << 56u64)) == v)
        by (bit_vector);
}

/// Popping right after a push reads back the pushed word.
pub proof fn lemma_push_then_pop(bytes: Seq<u8>, off: int, v: usize)
    requires
        0 <= off,
        off + WORD_BYTES <= bytes.len(),
    ensures
        word_of(bytes.take(off).add(word_bytes(v as u64)).add(bytes.skip(off + WORD_BYTES)).subrange(
            off,
            off + WORD_BYTES,
        )) as usize == v,
{
    let after = bytes.take(off).add(word_bytes(v as u64)).add(bytes.skip(off + WORD_BYTES));
    assert(after.subrange(off, off + WORD_BYTES) =~= word_bytes(v as u64));
    lemma_word_round_trip(v as u64);
}

/// The register state of the processor that a task switch exchanges: the
/// page-table root, the flags, the callee-saved registers and the stack and
/// frame pointers.
#[derive(Clone, Copy, Debug, PartialEq, Eq, Structural)]
pub struct CpuState {
    pub cr3: usize,
    pub rflags: usize,
    pub rbx: usize,
    pub r12: usize,
    pub r13: usize,
    pub r14: usize,
    pub r15: usize,
    pub rbp: usize,
    pub rsp: usize,
}

/// The saved state of a task: its registers and its own stack buffer, which
/// occupies the addresses from `stack_base` on.
#[derive(Debug)]
pub struct Context {
    cr3: usize,
    rflags: usize,
    rbx: usize,
    r12: usize,
    r13: usize,
    r14: usize,
    r15: usize,
    rbp: usize,
    rsp: usize,
    stack_base: usize,
    stack: Vec<u8>,
}

impl Context {
    /// The saved registers.
    pub closed spec fn registers(&self) -> CpuState {
        CpuState {
            cr3: self.cr3,
            rflags: self.rflags,
            rbx: self.rbx,
            r12: self.r12,
            r13: self.r13,
            r14: self.r14,
            r15: self.r15,
            rbp: self.rbp,
            rsp: self.rsp,
        }
    }

    /// The bytes of the stack buffer.
    pub closed spec fn stack_bytes(&self) -> Seq<u8> {
        self.stack@
    }

    /// The address of the first byte of the stack buffer.
    pub closed spec fn base(&self) -> nat {
        self.stack_base as nat
    }

    pub closed spec fn wf(&self) -> bool {
        self.stack_base + self.stack@.len() <= usize::MAX
    }

    /// A word can be pushed: the stack pointer stays inside the buffer.
    pub open spec fn can_push(&self) -> bool {
        &&& self.base() + WORD_BYTES <= self.registers().rsp
        &&& self.registers().rsp <= self.base() + self.stack_bytes().len()
    }

    /// A word can be popped: it lies wholly inside the buffer.
    pub open spec fn can_pop(&self) -> bool {
        &&& self.base() <= self.registers().rsp
        &&& self.registers().rsp + WORD_BYTES <= self.base() + self.stack_bytes().len()
    }

    /// A context for a task whose stack buffer `stack` ends at address `rsp`,
    /// running on page table `cr3`; both stack pointers start at `rsp`.
    pub fn new(cr3: usize, rsp: usize, stack: Vec<u8>) -> (r: Context)
        requires
            stack@.len() <= rsp,
        ensures
            r.wf(),
            r.registers() == (CpuState {
                cr3,
                rflags: 0,
                rbx: 0,
                r12: 0,
                r13: 0,
                r14: 0,
                r15: 0,
                rbp: rsp,
                rsp,
            }),
            r.stack_bytes() == stack@,
            r.base() + stack@.len() == rsp,
    {
        let stack_base = rsp - stack.len();
        Context {
            cr3,
            rflags: 0,
            rbx: 0,
            r12: 0,
            r13: 0,
            r14: 0,
            r15: 0,
            rbp: rsp,
            rsp,
            stack_base,
            stack,
        }
    }

    /// Captures the processor's registers `cpu` into a new context with a
    /// zeroed stack buffer of its own, placed at address zero.
    pub fn save_current_context(cpu: &CpuState) -> (r: Context)
        ensures
            r.wf(),
            r.registers() == *cpu,
            r.stack_bytes() == Seq::new(DEFAULT_STACK_BYTES as nat, |i: int| 0u8),
            r.base() == 0,
    {
        let stack = vec![0u8; DEFAULT_STACK_BYTES];
        proof {
            assert(stack@ =~= Seq::new(DEFAULT_STACK_BYTES as nat, |i: int| 0u8));
        }
        Context {
            cr3: cpu.cr3,
            rflags: cpu.rflags,
            rbx: cpu.rbx,
            r12: cpu.r12,
            r13: cpu.r13,
            r14: cpu.r14,
            r15: cpu.r15,
            rbp: cpu.rbp,
            rsp: cpu.rsp,
            stack_base: 0,
            stack,
        }
    }

    pub fn set_stack(&mut self, addr: usize)
        ensures
            final(self).registers() == (CpuState { rsp: addr, ..old(self).registers() }),
            final(self).stack_bytes() == old(self).stack_bytes(),
            final(self).base() == old(self).base(),
            final(self).wf() == old(self).wf(),
    {
        self.rsp = addr;
    }

    pub fn set_cr3(&mut self, addr: usize)
        ensures
            final(self).registers() == (CpuState { cr3: addr, ..old(self).registers() }),
            final(self).stack_bytes() == old(self).stack_bytes(),
            final(self).base() == old(self).base(),
            final(self).wf() == old(self).wf(),
    {
        self.cr3 = addr;
    }

    pub fn get_cr3(&self) -> (r: usize)
        ensures
            r == self.registers().cr3,
    {
        self.cr3
    }

    pub fn get_rflags(&self) -> (r: usize)
        ensures
            r == self.registers().rflags,
    {
        self.rflags
    }

    /// Whether a word can be popped.
    pub fn has_word(&self) -> (r: bool)
        requires
            self.wf(),
        ensures
            r == self.can_pop(),
    {
        self.stack_base <= self.rsp && self.rsp - self.stack_base <= self.stack.len() && self.stack.len() - (self.rsp - self.stack_base) >= WORD_BYTES
    }

    pub fn get_rsp(&self) -> (r: usize)
        ensures
            r == self.registers().rsp,
    {
        self.rsp
    }

    /// Moves the stack pointer down one word and writes `value` there.
    pub fn push_stack(&mut self, value: usize)
        requires
            old(self).wf(),
            old(self).can_push(),
        ensures
            final(self).wf(),
            final(self).registers() == (CpuState { rsp: (old(self).registers().rsp - WORD_BYTES) as usize, ..old(self).registers() }),
            final(self).base() == old(self).base(),
            ({
                let off = final(self).registers().rsp - final(self).base();
                final(self).stack_bytes() == old(self).stack_bytes().take(off).add(word_bytes(value as u64)).add(
                    old(self).stack_bytes().skip(off + WORD_BYTES),
                )
            }),
    {
        self.rsp = self.rsp - WORD_BYTES;
        let off = self.rsp - self.stack_base;
        let v = value as u64;
        let ghost before = self.stack@;
        self.stack.set(off, (v & 0xff) as u8);
        self.stack.set(off + 1, ((v >> 8u64) & 0xff) as u8);
        self.stack.set(off + 2, ((v >> 16u64) & 0xff) as u8);
        self.stack.set(off + 3, ((v >> 24u64) & 0xff) as u8);
        self.stack.set(off + 4, ((v >> 32u64) & 0xff) as u8);
        self.stack.set(off + 5, ((v >> 40u64) & 0xff) as u8);
        self.stack.set(off + 6, ((v >> 48u64) & 0xff) as u8);
        self.stack.set(off + 7, ((v >> 56u64) & 0xff) as u8);
        proof {
            assert(self.stack@ =~= before.take(off as int).add(word_bytes(v)).add(before.skip(off + WORD_BYTES)));
        }
    }

    /// Reads the word at the stack pointer and moves the stack pointer up one word.
    pub fn pop_stack(&mut self) -> (r: usize)
        requires
            old(self).wf(),
            old(self).can_pop(),
        ensures
            final(self).wf(),
            r == word_of(old(self).stack_bytes().subrange(
                old(self).registers().rsp - old(self).base(),
                old(self).registers().rsp - old(self).base() + WORD_BYTES,
            )) as usize,
            final(self).registers() == (CpuState { rsp: (old(self).registers().rsp + WORD_BYTES) as usize, ..old(self).registers() }),
            final(self).registers().rsp == old(self).registers().rsp + WORD_BYTES,
            final(self).base() == old(self).base(),
            final(self).stack_bytes() == old(self).stack_bytes(),
    {
        let off = self.rsp - self.stack_base;
        let value = (self.stack[off] as u64) | ((self.stack[off + 1] as u64) << 8u64) | ((
        self.stack[off + 2] as u64) << 16u64) | ((self.stack[off + 3] as u64) << 24u64) | ((
        self.stack[off + 4] as u64) << 32u64) | ((self.stack[off + 5] as u64) << 40u64) | ((
        self.stack[off + 6] as u64) << 48u64) | ((self.stack[off + 7] as u64) << 56u64);
        self.rsp = self.rsp + WORD_BYTES;
        proof {
            let w = self.stack@.subrange(off as int, off + WORD_BYTES);
            assert(w[0] == self.stack@[off as int]);
            assert(w[7] == self.stack@[off + 7]);
        }
        value as usize
    }

    /// What a switch from `pre` to `next` does: `post`, the context switched
    /// away from, holds the processor state `cpu_pre` it left; the processor
    /// then holds the state saved in `next`.
    pub open spec fn switched(pre: &Context, post: &Context, next: &Context, cpu_pre: CpuState, cpu_post: CpuState) -> bool {
        &&& post.registers() == cpu_pre
        &&& cpu_post == next.registers()
        &&& post.stack_bytes() == pre.stack_bytes()
        &&& post.base() == pre.base()
    }

    /// Saves the processor state `cpu` into this context and loads the state
    /// saved in `next`; the page-table root is written only when it changes.
    pub fn switch_to(&mut self, next: &Context, cpu: &mut CpuState)
        ensures
            Context::switched(old(self), final(self), next, *old(cpu), *final(cpu)),
            final(self).wf() == old(self).wf(),
    {
        self.cr3 = cpu.cr3;
        if next.cr3 != self.cr3 {
            cpu.cr3 = next.cr3;
        }
        self.rflags = cpu.rflags;
        cpu.rflags = next.rflags;
        self.rbx = cpu.rbx;
        cpu.rbx = next.rbx;
        self.r12 = cpu.r12;
        cpu.r12 = next.r12;
        self.r13 = cpu.r13;
        cpu.r13 = next.r13;
        self.r14 = cpu.r14;
        cpu.r14 = next.r14;
        self.r15 = cpu.r15;
        cpu.r15 = next.r15;
        self.rsp = cpu.rsp;
        cpu.rsp = next.rsp;
        self.rbp = cpu.rbp;
        cpu.rbp = next.rbp;
    }
}

/// Switching from a task to another and back restores the processor state
/// the first task left: after the first switch the page-table root is the
/// second task's, after the second it is the first task's again.
pub proof fn lemma_switch_there_and_back(
    a0: &Context,
    a1: &Context,
    b0: &Context,
    b1: &Context,
    cpu0: CpuState,
    cpu1: CpuState,
    cpu2: CpuState,
)
    requires
        Context::switched(a0, a1, b0, cpu0, cpu1),
        Context::switched(b0, b1, a1, cpu1, cpu2),
    ensures
        cpu1.cr3 == b0.registers().cr3,
        cpu2.cr3 == cpu0.cr3,
        cpu2 == cpu0,
        b1.registers() == b0.registers(),
{
}

} // verus!
