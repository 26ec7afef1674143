use rtil::{pop_all, push_all, CallEvent, Machine, Policy, RegisterFile, FRAME_LEN};

const TARGET: usize = 16;
const ENTRY: u32 = 0x0040_3000;

fn code() -> Vec<u8> {
    (0u8..48).map(|b| b.wrapping_mul(13).wrapping_add(1)).collect()
}

fn clobber() -> RegisterFile {
    RegisterFile {
        gp: [0xdead_0000, 0xdead_0001, 0xdead_0002, 0xdead_0003, 0xdead_0004, 0xdead_0005, 0xdead_0006],
        xmm: [0xbad0, 0xbad1, 0xbad2, 0xbad3, 0xbad4, 0xbad5, 0xbad6, 0xbad7],
    }
}

fn caller(seed: u32) -> RegisterFile {
    let mut gp = [0u32; 7];
    for (i, g) in gp.iter_mut().enumerate() {
        *g = seed * 100 + i as u32;
    }
    let mut xmm = [0u128; 8];
    for (i, x) in xmm.iter_mut().enumerate() {
        *x = ((seed as u128) << 64) | (i as u128 + 1);
    }
    RegisterFile { gp, xmm }
}

/// What the caller sees after a plain call of the original function that
/// returns register `ret_from`.
fn expected(c: &RegisterFile, ret_from: usize) -> RegisterFile {
    let k = clobber();
    RegisterFile {
        gp: [c.gp[ret_from], c.gp[1], k.gp[2], k.gp[3], c.gp[4], c.gp[5], c.gp[6]],
        xmm: k.xmm,
    }
}

fn machine(policy: Policy, ret_from: usize) -> Machine {
    Machine::new(code(), TARGET, ENTRY, policy, ret_from, clobber()).unwrap()
}

fn count(trace: &[CallEvent], e: CallEvent) -> usize {
    trace.iter().filter(|x| **x == e).count()
}

#[test]
fn push_then_pop_gives_back_registers() {
    let regs = caller(7);
    let mut stack = vec![11u128, 12];
    push_all(&regs, &mut stack);
    assert_eq!(stack.len(), 2 + FRAME_LEN);
    assert_eq!(stack[2], regs.gp[0] as u128);
    assert_eq!(stack[2 + 7], regs.xmm[0]);
    assert_eq!(pop_all(&mut stack), regs);
    assert_eq!(stack, vec![11u128, 12]);
}

#[test]
fn machine_rejects_bad_setups() {
    assert!(Machine::new(code(), 42, ENTRY, Policy::FireOnce, 0, clobber()).is_none());
    assert!(Machine::new(code(), 41, ENTRY, Policy::FireOnce, 0, clobber()).is_some());
    assert!(Machine::new(code(), TARGET, ENTRY, Policy::FireOnce, 7, clobber()).is_none());
    let mut patched = code();
    patched[TARGET..TARGET + 7].copy_from_slice(&[0xb8, 0x00, 0x30, 0x40, 0x00, 0xff, 0xe0]);
    assert!(Machine::new(patched.clone(), TARGET, ENTRY, Policy::FireOnce, 0, clobber()).is_none());
    assert!(Machine::new(patched, TARGET, ENTRY + 1, Policy::FireOnce, 0, clobber()).is_some());
}

#[test]
fn unhooked_call_runs_only_the_original() {
    let mut m = machine(Policy::AlwaysBefore, 4);
    let c = caller(3);
    assert_eq!(m.call_target(c), expected(&c, 4));
    assert_eq!(m.trace(), vec![CallEvent::Original]);
    assert!(!m.is_hooked());
}

#[test]
fn fire_once_intercepts_first_call_only() {
    let mut m = machine(Policy::FireOnce, 1);
    let original = m.code_at_target();
    assert_eq!(m.install(), Ok(()));
    assert_ne!(m.code_at_target(), original);
    for seed in 1..=4 {
        let c = caller(seed);
        assert_eq!(m.call_target(c), expected(&c, 1));
        assert!(!m.is_hooked());
        assert_eq!(m.code_at_target(), original);
    }
    let trace = m.trace();
    assert_eq!(count(&trace, CallEvent::Interceptor), 1);
    assert_eq!(
        trace,
        vec![
            CallEvent::Interceptor,
            CallEvent::Original,
            CallEvent::Original,
            CallEvent::Original,
            CallEvent::Original
        ]
    );
}

#[test]
fn fire_always_before_intercepts_every_call_first() {
    let mut m = machine(Policy::AlwaysBefore, 5);
    assert_eq!(m.install(), Ok(()));
    let patched = m.code_at_target();
    for seed in 1..=3 {
        let c = caller(seed);
        assert_eq!(m.call_target(c), expected(&c, 5));
        assert!(m.is_hooked());
        assert_eq!(m.code_at_target(), patched);
    }
    let trace = m.trace();
    assert_eq!(count(&trace, CallEvent::Interceptor), 3);
    for pair in trace.chunks(2) {
        assert_eq!(pair, [CallEvent::Interceptor, CallEvent::Original]);
    }
}

#[test]
fn fire_always_after_intercepts_every_call_last() {
    let mut m = machine(Policy::AlwaysAfter, 0);
    assert_eq!(m.install(), Ok(()));
    for seed in 1..=3 {
        let c = caller(seed);
        assert_eq!(m.call_target(c), expected(&c, 0));
        assert!(m.is_hooked());
    }
    let trace = m.trace();
    assert_eq!(trace.len(), 6);
    assert_eq!(count(&trace, CallEvent::Interceptor), 3);
    for pair in trace.chunks(2) {
        assert_eq!(pair, [CallEvent::Original, CallEvent::Interceptor]);
    }
}

#[test]
fn hooked_and_unhooked_calls_leave_the_same_registers() {
    for policy in [Policy::FireOnce, Policy::AlwaysBefore, Policy::AlwaysAfter] {
        for ret_from in 0..7 {
            let mut plain = machine(policy, ret_from);
            let mut hooked = machine(policy, ret_from);
            assert_eq!(hooked.install(), Ok(()));
            for seed in 1..=3 {
                let c = caller(seed);
                assert_eq!(hooked.call_target(c), plain.call_target(c));
            }
        }
    }
}

#[test]
fn counter_interceptor_before_five_calls() {
    let mut m = machine(Policy::AlwaysBefore, 6);
    assert_eq!(m.install(), Ok(()));
    let mut returns = Vec::new();
    for seed in 1..=5 {
        let c = caller(seed);
        let r = m.call_target(c);
        assert_eq!(r, expected(&c, 6));
        returns.push(r.gp[0]);
    }
    let trace = m.trace();
    assert_eq!(count(&trace, CallEvent::Interceptor), 5);
    assert_eq!(returns, vec![106, 206, 306, 406, 506]);
    let mut order = Vec::new();
    for _ in 0..5 {
        order.push(CallEvent::Interceptor);
        order.push(CallEvent::Original);
    }
    assert_eq!(trace, order);
}

#[test]
fn machine_install_and_uninstall_misuse() {
    let mut m = machine(Policy::AlwaysBefore, 0);
    let original = m.code_at_target();
    assert_eq!(m.uninstall(), Err(rtil::HookError::DoubleUninstall));
    assert_eq!(m.install(), Ok(()));
    let patched = m.code_at_target();
    assert_eq!(patched, rtil::redirect_bytes(ENTRY));
    assert_eq!(m.install(), Err(rtil::HookError::DoubleInstall));
    assert_eq!(m.code_at_target(), patched);
    assert_eq!(m.uninstall(), Ok(()));
    assert_eq!(m.code_at_target(), original);
    assert!(!m.memory().page_is_writable(0));
}
