use vstd::prelude::*;

use crate::error::HookError;
use crate::memory::{splice, CodeMemory, PAGE_SIZE};
use crate::patch::{
    decode_redirect, lemma_install_uninstall_restores, lemma_redirect_entry_unique, redirect_seq,
    HookSite, REDIRECT_LEN,
};
use crate::regs::{
    after_call, frame, lemma_save_restore, pop_all, push_all, unframe, RegisterFile, EAX, FRAME_LEN,
    NUM_GP,
};

verus! {

/// When a hook's interceptor runs, and whether the hook stays in place.
#[derive(Clone, Copy, Debug, PartialEq, Eq, Structural)]
pub enum Policy {
    /// The interceptor runs on the first call only, then the hook removes
    /// itself for good and control goes on into the original function.
    FireOnce,
    /// On every call the interceptor runs, then the original function.
    AlwaysBefore,
    /// On every call the original function runs, then the interceptor.
    AlwaysAfter,
}

/// What ran during a call of the hooked function, in order.
#[derive(Clone, Copy, Debug, PartialEq, Eq, Structural)]
pub enum CallEvent {
    Interceptor,
    Original,
}

/// The registers that the caller sees after a plain call of the original
/// function: it returns in eax the value that register `ret_from` held on
/// entry, leaves the other scratch registers as `c` holds them, and keeps
/// the rest.
pub open spec fn direct_call(r: (Seq<u32>, Seq<u128>), c: (Seq<u32>, Seq<u128>), ret_from: int) -> (
    Seq<u32>,
    Seq<u128>,
) {
    let a = after_call(r, c);
    (a.0.update(EAX as int, r.0[ret_from]), a.1)
}

/// What runs during one call of the target function.
pub open spec fn call_events(policy: Policy, hooked: bool) -> Seq<CallEvent> {
    if !hooked {
        seq![CallEvent::Original]
    } else {
        match policy {
            Policy::AlwaysAfter => seq![CallEvent::Original, CallEvent::Interceptor],
            _ => seq![CallEvent::Interceptor, CallEvent::Original],
        }
    }
}

/// Whether the site is hooked after one call.
pub open spec fn hooked_after_call(policy: Policy, hooked: bool) -> bool {
    hooked && policy != Policy::FireOnce
}

/// What runs during `n` calls in a row.
pub open spec fn events_of_calls(policy: Policy, hooked: bool, n: nat) -> Seq<CallEvent>
    decreases n,
{
    if n == 0 {
        seq![]
    } else {
        call_events(policy, hooked) + events_of_calls(
            policy,
            hooked_after_call(policy, hooked),
            (n - 1) as nat,
        )
    }
}

/// Whether the site is hooked after `n` calls in a row.
pub open spec fn hooked_after_calls(policy: Policy, hooked: bool, n: nat) -> bool
    decreases n,
{
    if n == 0 {
        hooked
    } else {
        hooked_after_calls(policy, hooked_after_call(policy, hooked), (n - 1) as nat)
    }
}

/// `n` pairs of events, `first` then `second` in each.
pub open spec fn alternating(first: CallEvent, second: CallEvent, n: nat) -> Seq<CallEvent> {
    Seq::new(2 * n, |i: int| if i % 2 == 0 { first } else { second })
}

proof fn lemma_unhooked_calls(policy: Policy, n: nat)
    ensures
        events_of_calls(policy, false, n) == Seq::new(n, |i: int| CallEvent::Original),
        !hooked_after_calls(policy, false, n),
    decreases n,
{
    if n > 0 {
        lemma_unhooked_calls(policy, (n - 1) as nat);
    }
    assert(events_of_calls(policy, false, n) =~= Seq::new(n, |i: int| CallEvent::Original));
}

proof fn lemma_always_calls(policy: Policy, n: nat)
    requires
        policy != Policy::FireOnce,
    ensures
        events_of_calls(policy, true, n) == alternating(
            call_events(policy, true)[0],
            call_events(policy, true)[1],
            n,
        ),
        hooked_after_calls(policy, true, n),
    decreases n,
{
    let first = call_events(policy, true)[0];
    let second = call_events(policy, true)[1];
    if n > 0 {
        lemma_always_calls(policy, (n - 1) as nat);
        let rest = alternating(first, second, (n - 1) as nat);
        assert forall|i: int| 2 <= i < 2 * n implies #[trigger] alternating(first, second, n)[i]
            == rest[i - 2] by {
            assert((i - 2) % 2 == i % 2);
        }
        assert(events_of_calls(policy, true, n) =~= alternating(first, second, n));
    } else {
        assert(events_of_calls(policy, true, n) =~= alternating(first, second, n));
    }
}

/// A fire-once hook in place runs its interceptor on the first of `n`
/// calls only and the original function on every call; after the first
/// call the site is unhooked, so the code holds the original bytes again.
pub proof fn lemma_fire_once_runs_interceptor_once(n: nat)
    requires
        n >= 1,
    ensures
        events_of_calls(Policy::FireOnce, true, n) == seq![CallEvent::Interceptor] + Seq::new(
            n,
            |i: int| CallEvent::Original,
        ),
        !hooked_after_calls(Policy::FireOnce, true, n),
{
    lemma_unhooked_calls(Policy::FireOnce, (n - 1) as nat);
    assert(events_of_calls(Policy::FireOnce, true, n) =~= seq![CallEvent::Interceptor] + Seq::new(
        n,
        |i: int| CallEvent::Original,
    ));
}

/// Over `n` calls of a function under a fire-always hook that intercepts
/// before the original, the interceptor runs `n` times, each run just
/// before a run of the original function, and the hook stays in place.
pub proof fn lemma_fire_always_before_calls(n: nat)
    ensures
        events_of_calls(Policy::AlwaysBefore, true, n) == alternating(
            CallEvent::Interceptor,
            CallEvent::Original,
            n,
        ),
        hooked_after_calls(Policy::AlwaysBefore, true, n),
{
    lemma_always_calls(Policy::AlwaysBefore, n);
}

/// Over `n` calls of a function under a fire-always hook that intercepts
/// after the original, the interceptor runs `n` times, each run just after
/// a run of the original function and before the next call, and the hook
/// stays in place.
pub proof fn lemma_fire_always_after_calls(n: nat)
    ensures
        events_of_calls(Policy::AlwaysAfter, true, n) == alternating(
            CallEvent::Original,
            CallEvent::Interceptor,
            n,
        ),
        hooked_after_calls(Policy::AlwaysAfter, true, n),
{
    lemma_always_calls(Policy::AlwaysAfter, n);
}

/// A host process reduced to what hooking one function touches: its code
/// memory, the hook site, the policy of the site's trampoline, the thread's
/// registers and stack, and a record of what ran. The original function
/// returns the value of register `ret_from`; every routine that the
/// trampoline calls leaves the values of `clobber` in the registers that it
/// may overwrite (the interceptor in all of them).
pub struct Machine {
    mem: CodeMemory,
    site: HookSite,
    policy: Policy,
    pristine: Ghost<Seq<u8>>,
    regs: RegisterFile,
    stack: Vec<u128>,
    trace: Vec<CallEvent>,
    ret_from: usize,
    clobber: RegisterFile,
}

impl Machine {
    pub closed spec fn spec_code(&self) -> Seq<u8> {
        self.mem.bytes()
    }

    pub closed spec fn spec_pages(&self) -> Seq<bool> {
        self.mem.pages()
    }

    /// The code as it is with no hook in place.
    pub closed spec fn spec_pristine(&self) -> Seq<u8> {
        self.pristine@
    }

    pub closed spec fn spec_target(&self) -> int {
        self.site.spec_target() as int
    }

    pub closed spec fn spec_entry(&self) -> u32 {
        self.site.spec_entry()
    }

    pub closed spec fn spec_hooked(&self) -> bool {
        self.site.spec_hooked()
    }

    pub closed spec fn spec_policy(&self) -> Policy {
        self.policy
    }

    pub closed spec fn spec_trace(&self) -> Seq<CallEvent> {
        self.trace@
    }

    pub closed spec fn spec_stack(&self) -> Seq<u128> {
        self.stack@
    }

    pub closed spec fn spec_ret_from(&self) -> int {
        self.ret_from as int
    }

    pub closed spec fn spec_clobber(&self) -> (Seq<u32>, Seq<u128>) {
        self.clobber@
    }

    /// The code holds the redirect exactly while the site is hooked, and is
    /// otherwise as it was before any install.
    pub open spec fn code_consistent(&self) -> bool {
        if self.spec_hooked() {
            self.spec_code() == splice(
                self.spec_pristine(),
                self.spec_target(),
                redirect_seq(self.spec_entry()),
            )
        } else {
            self.spec_code() == self.spec_pristine()
        }
    }

    /// No page is left writable.
    pub open spec fn pages_executable(&self) -> bool {
        forall|p: int| 0 <= p < self.spec_pages().len() ==> !#[trigger] self.spec_pages()[p]
    }

    pub open spec fn same_setup(&self, other: &Machine) -> bool {
        &&& self.spec_pristine() == other.spec_pristine()
        &&& self.spec_target() == other.spec_target()
        &&& self.spec_entry() == other.spec_entry()
        &&& self.spec_policy() == other.spec_policy()
        &&& self.spec_ret_from() == other.spec_ret_from()
        &&& self.spec_clobber() == other.spec_clobber()
        &&& self.spec_pages().len() == other.spec_pages().len()
    }

    pub closed spec fn wf(&self) -> bool {
        &&& self.mem.wf()
        &&& self.site.wf()
        &&& self.mem.all_executable()
        &&& self.ret_from < NUM_GP
        &&& self.mem.mapped(self.site.spec_target() as int, REDIRECT_LEN as int)
        &&& self.pristine@.len() == self.mem.bytes().len()
        &&& self.pristine@.subrange(
            self.spec_target(),
            self.spec_target() + REDIRECT_LEN,
        ) != redirect_seq(self.spec_entry())
        &&& self.site.spec_hooked() ==> self.site.spec_saved() == self.pristine@.subrange(
            self.spec_target(),
            self.spec_target() + REDIRECT_LEN,
        )
        &&& self.code_consistent()
    }

    proof fn lemma_wf_facts(&self)
        requires
            self.wf(),
        ensures
            self.code_consistent(),
            self.pages_executable(),
    {
    }

    /// Loads `code` as the process's code and sets up an unhooked site at
    /// `target` whose trampoline starts at `entry`. `None` where the
    /// redirect would not fit inside `code`, where `ret_from` names no
    /// general-purpose register, or where the bytes at `target` already are
    /// the redirect to `entry`.
    pub fn new(
        code: Vec<u8>,
        target: usize,
        entry: u32,
        policy: Policy,
        ret_from: usize,
        clobber: RegisterFile,
    ) -> (r: Option<Machine>)
        requires
            code@.len() + PAGE_SIZE <= usize::MAX,
        ensures
            r is None <==> (ret_from >= NUM_GP || target + REDIRECT_LEN > code@.len()
                || code@.subrange(target as int, target + REDIRECT_LEN) == redirect_seq(entry)),
            r matches Some(m) ==> {
                &&& m.wf()
                &&& !m.spec_hooked()
                &&& m.spec_code().subrange(0, code@.len() as int) == code@
                &&& m.spec_pristine() == m.spec_code()
                &&& m.spec_target() == target
                &&& m.spec_entry() == entry
                &&& m.spec_policy() == policy
                &&& m.spec_ret_from() == ret_from
                &&& m.spec_clobber() == clobber@
                &&& m.spec_trace().len() == 0
                &&& m.spec_stack().len() == 0
                &&& m.pages_executable()
            },
    {
        if ret_from >= NUM_GP || target > code.len() || REDIRECT_LEN > code.len() - target {
            return None;
        }
        let ghost code_v = code@;
        let mem = CodeMemory::from_code(code);
        let head = mem.read(target, REDIRECT_LEN);
        assert(mem.bytes().subrange(0, code_v.len() as int) =~= code_v);
        assert(head@ =~= code_v.subrange(target as int, target + REDIRECT_LEN));
        match decode_redirect(&head) {
            Some(e) => {
                if e == entry {
                    return None;
                }
                proof {
                    if head@ == redirect_seq(entry) {
                        lemma_redirect_entry_unique(e, entry);
                    }
                }
            },
            None => {
                assert(head@ != redirect_seq(entry));
            },
        }
        let pristine = Ghost(mem.bytes());
        let m = Machine {
            mem,
            site: HookSite::new(target, entry),
            policy,
            pristine,
            regs: RegisterFile { gp: [0u32; 7], xmm: [0u128; 8] },
            stack: Vec::new(),
            trace: Vec::new(),
            ret_from,
            clobber,
        };
        Some(m)
    }

    pub fn is_hooked(&self) -> (r: bool)
        ensures
            r == self.spec_hooked(),
    {
        self.site.is_hooked()
    }

    /// The code memory of the process.
    pub fn memory(&self) -> (r: &CodeMemory)
        ensures
            r.bytes() == self.spec_code(),
            r.pages() == self.spec_pages(),
    {
        &self.mem
    }

    /// What has run so far, in order.
    pub fn trace(&self) -> (r: Vec<CallEvent>)
        ensures
            r@ == self.spec_trace(),
    {
        let mut r: Vec<CallEvent> = Vec::new();
        let mut i: usize = 0;
        while i < self.trace.len()
            invariant
                0 <= i <= self.trace@.len(),
                r@ == self.trace@.subrange(0, i as int),
            decreases self.trace@.len() - i,
        {
            r.push(self.trace[i]);
            i = i + 1;
            assert(r@ =~= self.trace@.subrange(0, i as int));
        }
        assert(r@ =~= self.trace@);
        r
    }

    /// The bytes at the target's entry.
    pub fn code_at_target(&self) -> (r: Vec<u8>)
        requires
            self.wf(),
        ensures
            r@ == self.spec_code().subrange(self.spec_target(), self.spec_target() + REDIRECT_LEN),
    {
        self.mem.read(self.site.target(), REDIRECT_LEN)
    }

    /// Installs the hook. Refused with `DoubleInstall`, changing nothing,
    /// where it is already installed.
    pub fn install(&mut self) -> (r: Result<(), HookError>)
        requires
            old(self).wf(),
        ensures
            final(self).wf(),
            final(self).same_setup(&*old(self)),
            final(self).spec_trace() == old(self).spec_trace(),
            final(self).spec_stack() == old(self).spec_stack(),
            final(self).pages_executable(),
            old(self).spec_hooked() ==> r == Err::<(), HookError>(HookError::DoubleInstall)
                && final(self).spec_code() == old(self).spec_code() && final(self).spec_hooked(),
            !old(self).spec_hooked() ==> r is Ok && final(self).spec_hooked() && final(self).spec_code()
                == splice(
                old(self).spec_pristine(),
                old(self).spec_target(),
                redirect_seq(old(self).spec_entry()),
            ),
    {
        let r = self.arm();
        proof {
            self.lemma_wf_facts();
        }
        r
    }

    /// Removes the hook, restoring the original code. Refused with
    /// `DoubleUninstall`, changing nothing, where it is not installed.
    pub fn uninstall(&mut self) -> (r: Result<(), HookError>)
        requires
            old(self).wf(),
        ensures
            final(self).wf(),
            final(self).same_setup(&*old(self)),
            final(self).spec_trace() == old(self).spec_trace(),
            final(self).spec_stack() == old(self).spec_stack(),
            final(self).pages_executable(),
            !old(self).spec_hooked() ==> r == Err::<(), HookError>(HookError::DoubleUninstall)
                && final(self).spec_code() == old(self).spec_code() && !final(self).spec_hooked(),
            old(self).spec_hooked() ==> r is Ok && !final(self).spec_hooked() && final(self).spec_code()
                == old(self).spec_pristine(),
    {
        let r = self.disarm();
        proof {
            self.lemma_wf_facts();
        }
        r
    }

    fn arm(&mut self) -> (r: Result<(), HookError>)
        requires
            old(self).wf(),
        ensures
            final(self).wf(),
            final(self).same_setup(&*old(self)),
            final(self).regs == old(self).regs,
            final(self).trace@ == old(self).trace@,
            final(self).stack@ == old(self).stack@,
            old(self).spec_hooked() ==> r == Err::<(), HookError>(HookError::DoubleInstall)
                && final(self).mem == old(self).mem && final(self).spec_hooked(),
            !old(self).spec_hooked() ==> r is Ok && final(self).spec_hooked(),
    {
        let ghost mem0 = self.mem;
        let r = self.site.install(&mut self.mem);
        proof {
            if r is Ok {
                assert forall|p: int| 0 <= p < self.mem.pages().len() implies !#[trigger] self.mem.pages()[p] by {
                    assert(!mem0.pages()[p]);
                }
            }
        }
        r
    }

    fn disarm(&mut self) -> (r: Result<(), HookError>)
        requires
            old(self).wf(),
        ensures
            final(self).wf(),
            final(self).same_setup(&*old(self)),
            final(self).regs == old(self).regs,
            final(self).trace@ == old(self).trace@,
            final(self).stack@ == old(self).stack@,
            !old(self).spec_hooked() ==> r == Err::<(), HookError>(HookError::DoubleUninstall)
                && final(self).mem == old(self).mem && !final(self).spec_hooked(),
            old(self).spec_hooked() ==> r is Ok && !final(self).spec_hooked(),
    {
        let ghost mem0 = self.mem;
        let r = self.site.uninstall(&mut self.mem);
        proof {
            if r is Ok {
                assert forall|p: int| 0 <= p < self.mem.pages().len() implies !#[trigger] self.mem.pages()[p] by {
                    assert(!mem0.pages()[p]);
                }
                lemma_install_uninstall_restores(
                    self.pristine@,
                    self.site.spec_target() as int,
                    self.site.spec_entry(),
                );
            }
        }
        r
    }

    /// The registers after a compiled routine returns: scratch registers
    /// hold the values of `clobber`.
    fn clobber_scratch(&mut self)
        ensures
            final(self).regs@ == after_call(old(self).regs@, old(self).clobber@),
            final(self).mem == old(self).mem,
            final(self).site == old(self).site,
            final(self).pristine == old(self).pristine,
            final(self).policy == old(self).policy,
            final(self).clobber == old(self).clobber,
            final(self).ret_from == old(self).ret_from,
            final(self).trace@ == old(self).trace@,
            final(self).stack@ == old(self).stack@,
    {
        let mut r = self.clobber;
        r.gp[1] = self.regs.gp[1];
        r.gp[4] = self.regs.gp[4];
        r.gp[5] = self.regs.gp[5];
        r.gp[6] = self.regs.gp[6];
        self.regs = r;
        assert(self.regs@.0 =~= after_call(old(self).regs@, old(self).clobber@).0);
    }

    /// The original function runs with the registers as they are.
    fn run_original(&mut self)
        requires
            old(self).ret_from < NUM_GP,
        ensures
            final(self).regs@ == direct_call(old(self).regs@, old(self).clobber@, old(self).ret_from as int),
            final(self).trace@ == old(self).trace@.push(CallEvent::Original),
            final(self).mem == old(self).mem,
            final(self).site == old(self).site,
            final(self).pristine == old(self).pristine,
            final(self).policy == old(self).policy,
            final(self).clobber == old(self).clobber,
            final(self).ret_from == old(self).ret_from,
            final(self).stack@ == old(self).stack@,
    {
        let v = self.regs.gp[self.ret_from];
        self.clobber_scratch();
        self.regs.gp[EAX] = v;
        self.trace.push(CallEvent::Original);
    }

    /// The interceptor runs; it may overwrite every register.
    fn run_interceptor(&mut self)
        ensures
            final(self).regs@ == old(self).clobber@,
            final(self).trace@ == old(self).trace@.push(CallEvent::Interceptor),
            final(self).mem == old(self).mem,
            final(self).site == old(self).site,
            final(self).pristine == old(self).pristine,
            final(self).policy == old(self).policy,
            final(self).clobber == old(self).clobber,
            final(self).ret_from == old(self).ret_from,
            final(self).stack@ == old(self).stack@,
    {
        self.regs = self.clobber;
        self.trace.push(CallEvent::Interceptor);
    }

    fn save_registers(&mut self)
        ensures
            final(self).stack@ == old(self).stack@ + frame(old(self).regs@),
            final(self).regs == old(self).regs,
            final(self).mem == old(self).mem,
            final(self).site == old(self).site,
            final(self).pristine == old(self).pristine,
            final(self).policy == old(self).policy,
            final(self).clobber == old(self).clobber,
            final(self).ret_from == old(self).ret_from,
            final(self).trace@ == old(self).trace@,
    {
        push_all(&self.regs, &mut self.stack);
    }

    fn restore_registers(&mut self)
        requires
            old(self).stack@.len() >= FRAME_LEN,
        ensures
            final(self).stack@ == old(self).stack@.subrange(0, old(self).stack@.len() - FRAME_LEN),
            final(self).regs@ == unframe(
                old(self).stack@.subrange(
                    old(self).stack@.len() - FRAME_LEN,
                    old(self).stack@.len() as int,
                ),
            ),
            final(self).mem == old(self).mem,
            final(self).site == old(self).site,
            final(self).pristine == old(self).pristine,
            final(self).policy == old(self).policy,
            final(self).clobber == old(self).clobber,
            final(self).ret_from == old(self).ret_from,
            final(self).trace@ == old(self).trace@,
    {
        self.regs = pop_all(&mut self.stack);
    }

    /// Keeps the return value on the stack across a call.
    fn push_return(&mut self)
        ensures
            final(self).stack@ == old(self).stack@.push(old(self).regs.gp@[EAX as int] as u128),
            final(self).regs == old(self).regs,
            final(self).mem == old(self).mem,
            final(self).site == old(self).site,
            final(self).pristine == old(self).pristine,
            final(self).policy == old(self).policy,
            final(self).clobber == old(self).clobber,
            final(self).ret_from == old(self).ret_from,
            final(self).trace@ == old(self).trace@,
    {
        self.stack.push(self.regs.gp[EAX] as u128);
    }

    fn pop_return(&mut self)
        requires
            old(self).stack@.len() >= 1,
        ensures
            final(self).stack@ == old(self).stack@.drop_last(),
            final(self).regs@ == (
                old(self).regs@.0.update(EAX as int, old(self).stack@.last() as u32),
                old(self).regs@.1,
            ),
            final(self).mem == old(self).mem,
            final(self).site == old(self).site,
            final(self).pristine == old(self).pristine,
            final(self).policy == old(self).policy,
            final(self).clobber == old(self).clobber,
            final(self).ret_from == old(self).ret_from,
            final(self).trace@ == old(self).trace@,
    {
        let v = self.stack.pop().unwrap();
        self.regs.gp[EAX] = v as u32;
        assert(self.regs@.0 =~= old(self).regs@.0.update(EAX as int, v as u32));
    }

    /// The trampoline calls the compiled uninstall routine.
    fn call_uninstall(&mut self)
        requires
            old(self).wf(),
            old(self).spec_hooked(),
        ensures
            final(self).wf(),
            !final(self).spec_hooked(),
            final(self).same_setup(&*old(self)),
            final(self).regs@ == after_call(old(self).regs@, old(self).clobber@),
            final(self).trace@ == old(self).trace@,
            final(self).stack@ == old(self).stack@,
    {
        let _ = self.disarm();
        self.clobber_scratch();
    }

    /// The trampoline calls the compiled install routine.
    fn call_install(&mut self)
        requires
            old(self).wf(),
            !old(self).spec_hooked(),
        ensures
            final(self).wf(),
            final(self).spec_hooked(),
            final(self).same_setup(&*old(self)),
            final(self).regs@ == after_call(old(self).regs@, old(self).clobber@),
            final(self).trace@ == old(self).trace@,
            final(self).stack@ == old(self).stack@,
    {
        let _ = self.arm();
        self.clobber_scratch();
    }

    /// Save the registers, run the interceptor, unhook, restore the
    /// registers, and jump into the now unpatched original function.
    fn fire_once(&mut self)
        requires
            old(self).wf(),
            old(self).spec_hooked(),
        ensures
            final(self).wf(),
            !final(self).spec_hooked(),
            final(self).same_setup(&*old(self)),
            final(self).regs@ == direct_call(old(self).regs@, old(self).clobber@, old(self).ret_from as int),
            final(self).trace@ == old(self).trace@ + seq![CallEvent::Interceptor, CallEvent::Original],
            final(self).stack@ == old(self).stack@,
    {
        let ghost r0 = self.regs;
        let ghost s0 = self.stack@;
        proof {
            lemma_save_restore(r0, s0);
        }
        self.save_registers();
        self.run_interceptor();
        self.call_uninstall();
        self.restore_registers();
        assert(self.regs@ == r0@);
        self.run_original();
        assert(self.trace@ =~= old(self).trace@ + seq![CallEvent::Interceptor, CallEvent::Original]);
    }

    /// Save the registers, run the interceptor, unhook, restore the
    /// registers, call the original function, keep its return value while
    /// hooking again, and return to the caller.
    fn fire_before(&mut self)
        requires
            old(self).wf(),
            old(self).spec_hooked(),
        ensures
            final(self).wf(),
            final(self).spec_hooked(),
            final(self).same_setup(&*old(self)),
            final(self).regs@ == direct_call(old(self).regs@, old(self).clobber@, old(self).ret_from as int),
            final(self).trace@ == old(self).trace@ + seq![CallEvent::Interceptor, CallEvent::Original],
            final(self).stack@ == old(self).stack@,
    {
        let ghost r0 = self.regs;
        let ghost s0 = self.stack@;
        proof {
            lemma_save_restore(r0, s0);
        }
        self.save_registers();
        self.run_interceptor();
        self.call_uninstall();
        self.restore_registers();
        assert(self.regs@ == r0@);
        self.run_original();
        let ghost d = self.regs@;
        self.push_return();
        self.call_install();
        self.pop_return();
        assert(self.stack@ =~= s0);
        assert(self.regs@.0 =~= d.0);
        assert(self.trace@ =~= old(self).trace@ + seq![CallEvent::Interceptor, CallEvent::Original]);
    }

    /// Save the registers, unhook, restore the registers, call the original
    /// function, keep its return value while hooking again and running the
    /// interceptor between a save and a restore of the registers, and
    /// return to the caller.
    fn fire_after(&mut self)
        requires
            old(self).wf(),
            old(self).spec_hooked(),
        ensures
            final(self).wf(),
            final(self).spec_hooked(),
            final(self).same_setup(&*old(self)),
            final(self).regs@ == direct_call(old(self).regs@, old(self).clobber@, old(self).ret_from as int),
            final(self).trace@ == old(self).trace@ + seq![CallEvent::Original, CallEvent::Interceptor],
            final(self).stack@ == old(self).stack@,
    {
        let ghost r0 = self.regs;
        let ghost s0 = self.stack@;
        proof {
            lemma_save_restore(r0, s0);
        }
        self.save_registers();
        self.call_uninstall();
        self.restore_registers();
        assert(self.regs@ == r0@);
        self.run_original();
        let ghost d = self.regs@;
        self.push_return();
        let ghost s1 = self.stack@;
        self.call_install();
        let ghost r1 = self.regs;
        proof {
            lemma_save_restore(r1, s1);
        }
        self.save_registers();
        self.run_interceptor();
        self.restore_registers();
        assert(self.regs@ == r1@);
        assert(self.stack@ == s1);
        self.pop_return();
        assert(self.stack@ =~= s0);
        assert(self.regs@.0 =~= d.0);
        assert(self.trace@ =~= old(self).trace@ + seq![CallEvent::Original, CallEvent::Interceptor]);
    }

    /// Calls the target function with the caller's registers `caller` and
    /// returns the registers that the caller sees afterwards. Where the
    /// redirect is in place control goes through the trampoline, else
    /// straight into the original function. Either way the caller sees
    /// what a plain call of the original function would leave.
    pub fn call_target(&mut self, caller: RegisterFile) -> (r: RegisterFile)
        requires
            old(self).wf(),
        ensures
            final(self).wf(),
            final(self).same_setup(&*old(self)),
            r@ == direct_call(caller@, old(self).spec_clobber(), old(self).spec_ret_from()),
            final(self).spec_trace() == old(self).spec_trace() + call_events(
                old(self).spec_policy(),
                old(self).spec_hooked(),
            ),
            final(self).spec_hooked() == hooked_after_call(
                old(self).spec_policy(),
                old(self).spec_hooked(),
            ),
            final(self).spec_stack() == old(self).spec_stack(),
            final(self).code_consistent(),
            final(self).pages_executable(),
    {
        self.regs = caller;
        let head = self.mem.read(self.site.target(), REDIRECT_LEN);
        let decoded = decode_redirect(&head);
        let redirected = match decoded {
            Some(e) => e == self.site.entry(),
            None => false,
        };
        proof {
            if self.site.spec_hooked() {
                assert(head@ =~= redirect_seq(self.site.spec_entry()));
                if let Some(e) = decoded {
                    lemma_redirect_entry_unique(e, self.site.spec_entry());
                }
            } else {
                assert(head@ =~= self.pristine@.subrange(
                    self.spec_target(),
                    self.spec_target() + REDIRECT_LEN,
                ));
            }
        }
        if redirected {
            match self.policy {
                Policy::FireOnce => self.fire_once(),
                Policy::AlwaysBefore => self.fire_before(),
                Policy::AlwaysAfter => self.fire_after(),
            }
        } else {
            self.run_original();
            assert(self.trace@ =~= old(self).trace@ + seq![CallEvent::Original]);
        }
        proof {
            self.lemma_wf_facts();
        }
        self.regs
    }
}

} // verus!
