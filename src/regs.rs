use vstd::prelude::*;

verus! {

/// Number of general-purpose registers (eax, ebx, ecx, edx, esi, edi, ebp).
pub const NUM_GP: usize = 7;

/// Number of vector registers (xmm0 to xmm7).
pub const NUM_XMM: usize = 8;

/// Number of stack slots that one saved register file takes.
pub const FRAME_LEN: usize = 15;

/// Index of eax, the return-value register.
pub const EAX: usize = 0;

/// The register state of the host thread: the general-purpose registers
/// in the order eax, ebx, ecx, edx, esi, edi, ebp, and xmm0 to xmm7.
#[derive(Clone, Copy, Debug, PartialEq, Eq)]
pub struct RegisterFile {
    pub gp: [u32; 7],
    pub xmm: [u128; 8],
}

impl View for RegisterFile {
    type V = (Seq<u32>, Seq<u128>);

    open spec fn view(&self) -> (Seq<u32>, Seq<u128>) {
        (self.gp@, self.xmm@)
    }
}

/// Registers that the calling convention lets a callee overwrite:
/// eax, ecx and edx, and all vector registers.
pub open spec fn is_scratch_gp(i: int) -> bool {
    i == 0 || i == 2 || i == 3
}

/// The registers after an ordinary call returns: scratch registers hold
/// what the callee left (`c`), the others are as before (`r`).
pub open spec fn after_call(r: (Seq<u32>, Seq<u128>), c: (Seq<u32>, Seq<u128>)) -> (
    Seq<u32>,
    Seq<u128>,
) {
    (Seq::new(NUM_GP as nat, |i: int| if is_scratch_gp(i) { c.0[i] } else { r.0[i] }), c.1)
}

/// The stack slots that hold a saved register file: the general-purpose
/// registers widened to a slot, then the vector registers.
pub open spec fn frame(r: (Seq<u32>, Seq<u128>)) -> Seq<u128> {
    Seq::new(NUM_GP as nat, |i: int| r.0[i] as u128) + r.1
}

/// The register file read back from fifteen stack slots.
pub open spec fn unframe(s: Seq<u128>) -> (Seq<u32>, Seq<u128>) {
    (Seq::new(NUM_GP as nat, |i: int| s[i] as u32), s.subrange(NUM_GP as int, FRAME_LEN as int))
}

/// A saved register file reads back as the registers that were saved.
pub proof fn lemma_unframe_frame(r: RegisterFile)
    ensures
        unframe(frame(r@)) == r@,
{
    assert(unframe(frame(r@)).0 =~= r@.0);
    assert(unframe(frame(r@)).1 =~= r@.1);
}

/// Pushes every register onto the stack.
pub fn push_all(regs: &RegisterFile, stack: &mut Vec<u128>)
    ensures
        final(stack)@ == old(stack)@ + frame(regs@),
{
    let ghost start = stack@;
    let mut i: usize = 0;
    while i < NUM_GP
        invariant
            0 <= i <= NUM_GP,
            stack@ == start + Seq::new(i as nat, |k: int| regs.gp@[k] as u128),
        decreases NUM_GP - i,
    {
        stack.push(regs.gp[i] as u128);
        i = i + 1;
        assert(stack@ =~= start + Seq::new(i as nat, |k: int| regs.gp@[k] as u128));
    }
    let mut j: usize = 0;
    while j < NUM_XMM
        invariant
            0 <= j <= NUM_XMM,
            stack@ == start + Seq::new(NUM_GP as nat, |k: int| regs.gp@[k] as u128)
                + regs.xmm@.subrange(0, j as int),
        decreases NUM_XMM - j,
    {
        stack.push(regs.xmm[j]);
        j = j + 1;
        assert(stack@ =~= start + Seq::new(NUM_GP as nat, |k: int| regs.gp@[k] as u128)
            + regs.xmm@.subrange(0, j as int));
    }
    assert(regs.xmm@.subrange(0, NUM_XMM as int) =~= regs.xmm@);
}

/// Pops a register file that `push_all` saved, in reverse order.
pub fn pop_all(stack: &mut Vec<u128>) -> (r: RegisterFile)
    requires
        old(stack)@.len() >= FRAME_LEN,
    ensures
        final(stack)@ == old(stack)@.subrange(0, old(stack)@.len() - FRAME_LEN),
        r@ == unframe(old(stack)@.subrange(old(stack)@.len() - FRAME_LEN, old(stack)@.len() as int)),
{
    let ghost start = stack@;
    let ghost base = start.len() - FRAME_LEN;
    let ghost top = start.subrange(base, start.len() as int);
    let mut r = RegisterFile { gp: [0u32; 7], xmm: [0u128; 8] };
    let mut j: usize = NUM_XMM;
    while j > 0
        invariant
            0 <= j <= NUM_XMM,
            start.len() >= FRAME_LEN,
            base == start.len() - FRAME_LEN,
            top == start.subrange(base, start.len() as int),
            stack@ == start.subrange(0, base + NUM_GP + j),
            forall|k: int| j <= k < NUM_XMM ==> r.xmm@[k] == top[NUM_GP + k],
        decreases j,
    {
        let v = stack.pop().unwrap();
        j = j - 1;
        r.xmm[j] = v;
    }
    let mut i: usize = NUM_GP;
    while i > 0
        invariant
            0 <= i <= NUM_GP,
            start.len() >= FRAME_LEN,
            base == start.len() - FRAME_LEN,
            top == start.subrange(base, start.len() as int),
            stack@ == start.subrange(0, base + i),
            forall|k: int| 0 <= k < NUM_XMM ==> r.xmm@[k] == top[NUM_GP + k],
            forall|k: int| i <= k < NUM_GP ==> r.gp@[k] == top[k] as u32,
        decreases i,
    {
        let v = stack.pop().unwrap();
        i = i - 1;
        r.gp[i] = v as u32;
    }
    assert(r@.0 =~= unframe(top).0);
    assert(r@.1 =~= unframe(top).1);
    r
}

/// Restoring right after saving gives back every register and leaves the
/// stack as it was.
pub proof fn lemma_save_restore(regs: RegisterFile, stack: Seq<u128>)
    ensures
        ({
            let s = stack + frame(regs@);
            &&& s.subrange(0, s.len() - FRAME_LEN) == stack
            &&& unframe(s.subrange(s.len() - FRAME_LEN, s.len() as int)) == regs@
        }),
{
    let s = stack + frame(regs@);
    assert(s.subrange(0, s.len() - FRAME_LEN) =~= stack);
    assert(s.subrange(s.len() - FRAME_LEN, s.len() as int) =~= frame(regs@));
    lemma_unframe_frame(regs);
}

} // verus!
