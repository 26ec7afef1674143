use vstd::prelude::*;

use crate::error::HookError;
use crate::memory::{protect, splice, CodeMemory};

verus! {

/// Length of the redirect sequence written over a hooked function's entry.
pub const REDIRECT_LEN: usize = 7;

/// The redirect sequence: `mov eax, entry` (opcode 0xb8 and the address in
/// little-endian order), then `jmp eax` (0xff 0xe0).
pub open spec fn redirect_seq(entry: u32) -> Seq<u8> {
    seq![
        0xb8u8,
        entry as u8,
        (entry >> 8u32) as u8,
        (entry >> 16u32) as u8,
        (entry >> 24u32) as u8,
        0xffu8,
        0xe0u8,
    ]
}

/// Whether `code` is a redirect sequence, to some entry.
pub open spec fn is_redirect(code: Seq<u8>) -> bool {
    exists|e: u32| code == #[trigger] redirect_seq(e)
}

/// The redirect sequence that transfers control to `entry`.
pub fn redirect_bytes(entry: u32) -> (r: Vec<u8>)
    ensures
        r@ == redirect_seq(entry),
{
    let r = vec![
        0xb8u8,
        entry as u8,
        (entry >> 8u32) as u8,
        (entry >> 16u32) as u8,
        (entry >> 24u32) as u8,
        0xffu8,
        0xe0u8,
    ];
    assert(r@ =~= redirect_seq(entry));
    r
}

/// Distinct entries have distinct redirect sequences.
pub proof fn lemma_redirect_entry_unique(e: u32, f: u32)
    requires
        redirect_seq(e) == redirect_seq(f),
    ensures
        e == f,
{
    assert(redirect_seq(e)[1] == redirect_seq(f)[1]);
    assert(redirect_seq(e)[2] == redirect_seq(f)[2]);
    assert(redirect_seq(e)[3] == redirect_seq(f)[3]);
    assert(redirect_seq(e)[4] == redirect_seq(f)[4]);
    assert(e == f) by (bit_vector)
        requires
            e as u8 == f as u8,
            (e >> 8u32) as u8 == (f >> 8u32) as u8,
            (e >> 16u32) as u8 == (f >> 16u32) as u8,
            (e >> 24u32) as u8 == (f >> 24u32) as u8,
    ;
}

/// The entry that `code` redirects to, or `None` where `code` is no
/// redirect sequence.
pub fn decode_redirect(code: &Vec<u8>) -> (r: Option<u32>)
    ensures
        r matches Some(e) ==> code@ == redirect_seq(e),
        r is None ==> !is_redirect(code@),
        forall|e: u32| #[trigger] redirect_seq(e) == code@ ==> r == Some(e),
{
    if code.len() != REDIRECT_LEN || code[0] != 0xb8u8 || code[5] != 0xffu8 || code[6] != 0xe0u8 {
        proof {
            if is_redirect(code@) {
                let e = choose|e: u32| code@ == redirect_seq(e);
                assert(code@[0] == redirect_seq(e)[0]);
            }
        }
        return None;
    }
    let b1 = code[1];
    let b2 = code[2];
    let b3 = code[3];
    let b4 = code[4];
    let e: u32 = (b1 as u32) | ((b2 as u32) << 8u32) | ((b3 as u32) << 16u32) | ((b4 as u32) << 24u32);
    assert(e as u8 == b1 && (e >> 8u32) as u8 == b2 && (e >> 16u32) as u8 == b3 && (e >> 24u32) as u8
        == b4) by (bit_vector)
        requires
            e == (b1 as u32) | ((b2 as u32) << 8u32) | ((b3 as u32) << 16u32) | ((b4 as u32) << 24u32),
    ;
    assert(code@ =~= redirect_seq(e));
    assert forall|f: u32| #[trigger] redirect_seq(f) == code@ implies Some(e) == Some(f) by {
        lemma_redirect_entry_unique(e, f);
    }
    Some(e)
}

/// One hooked function: where its entry is, where its trampoline starts,
/// whether the redirect is in place, and the bytes that the redirect
/// overwrote.
pub struct HookSite {
    target: usize,
    entry: u32,
    armed: bool,
    saved: Vec<u8>,
}

impl HookSite {
    pub closed spec fn spec_target(&self) -> usize {
        self.target
    }

    pub closed spec fn spec_entry(&self) -> u32 {
        self.entry
    }

    pub closed spec fn spec_hooked(&self) -> bool {
        self.armed
    }

    /// The original bytes captured by the last install.
    pub closed spec fn spec_saved(&self) -> Seq<u8> {
        self.saved@
    }

    pub open spec fn wf(&self) -> bool {
        self.spec_hooked() ==> self.spec_saved().len() == REDIRECT_LEN
    }

    /// An unhooked site for the function at `target`, whose trampoline
    /// starts at `entry`.
    pub fn new(target: usize, entry: u32) -> (r: HookSite)
        ensures
            r.wf(),
            r.spec_target() == target,
            r.spec_entry() == entry,
            !r.spec_hooked(),
            r.spec_saved().len() == 0,
    {
        HookSite { target, entry, armed: false, saved: Vec::new() }
    }

    pub fn target(&self) -> (r: usize)
        ensures
            r == self.spec_target(),
    {
        self.target
    }

    pub fn entry(&self) -> (r: u32)
        ensures
            r == self.spec_entry(),
    {
        self.entry
    }

    pub fn is_hooked(&self) -> (r: bool)
        ensures
            r == self.spec_hooked(),
    {
        self.armed
    }

    /// A copy of the saved original bytes.
    pub fn saved_bytes(&self) -> (r: Vec<u8>)
        ensures
            r@ == self.spec_saved(),
    {
        let mut r: Vec<u8> = Vec::new();
        let mut i: usize = 0;
        while i < self.saved.len()
            invariant
                0 <= i <= self.saved@.len(),
                r@ == self.saved@.subrange(0, i as int),
            decreases self.saved@.len() - i,
        {
            r.push(self.saved[i]);
            i = i + 1;
            assert(r@ =~= self.saved@.subrange(0, i as int));
        }
        assert(r@ =~= self.saved@);
        r
    }

    /// Writes the redirect to the trampoline over the target's entry,
    /// having first saved the bytes there. Refused on a hooked site
    /// (`DoubleInstall`) and where the entry is not mapped
    /// (`ProtectionChangeFailed`); then nothing changes. The pages under
    /// the patch are left executable.
    pub fn install(&mut self, mem: &mut CodeMemory) -> (r: Result<(), HookError>)
        requires
            old(self).wf(),
            old(mem).wf(),
        ensures
            final(self).wf(),
            final(mem).wf(),
            final(self).spec_target() == old(self).spec_target(),
            final(self).spec_entry() == old(self).spec_entry(),
            old(self).spec_hooked() ==> r == Err::<(), HookError>(HookError::DoubleInstall),
            !old(self).spec_hooked() && !old(mem).mapped(
                old(self).spec_target() as int,
                REDIRECT_LEN as int,
            ) ==> r == Err::<(), HookError>(HookError::ProtectionChangeFailed),
            r is Err ==> *final(self) == *old(self) && *final(mem) == *old(mem),
            !old(self).spec_hooked() && old(mem).mapped(
                old(self).spec_target() as int,
                REDIRECT_LEN as int,
            ) ==> {
                &&& r is Ok
                &&& final(self).spec_hooked()
                &&& final(self).spec_saved() == old(mem).bytes().subrange(
                    old(self).spec_target() as int,
                    old(self).spec_target() + REDIRECT_LEN,
                )
                &&& final(mem).bytes() == splice(
                    old(mem).bytes(),
                    old(self).spec_target() as int,
                    redirect_seq(old(self).spec_entry()),
                )
                &&& final(mem).pages() == protect(
                    old(mem).pages(),
                    old(self).spec_target() as int,
                    REDIRECT_LEN as int,
                    false,
                )
            },
    {
        if self.armed {
            return Err(HookError::DoubleInstall);
        }
        let ghost mem0 = *mem;
        match mem.make_writable(self.target, REDIRECT_LEN) {
            Err(e) => {
                return Err(e);
            },
            Ok(()) => {},
        }
        let saved = mem.read(self.target, REDIRECT_LEN);
        let patch = redirect_bytes(self.entry);
        mem.write(self.target, &patch);
        let ghost mem1 = *mem;
        let done = mem.make_executable(self.target, REDIRECT_LEN);
        proof {
            assert(mem1.mapped(self.target as int, REDIRECT_LEN as int));
            assert(protect(protect(mem0.pages(), self.target as int, REDIRECT_LEN as int, true), self.target as int, REDIRECT_LEN as int, false)
                =~= protect(mem0.pages(), self.target as int, REDIRECT_LEN as int, false));
        }
        self.saved = saved;
        self.armed = true;
        Ok(())
    }

    /// Copies the saved bytes back over the target's entry. Refused on an
    /// unhooked site (`DoubleUninstall`) and where the entry is not mapped
    /// (`ProtectionChangeFailed`); then nothing changes. The pages under
    /// the patch are left executable.
    pub fn uninstall(&mut self, mem: &mut CodeMemory) -> (r: Result<(), HookError>)
        requires
            old(self).wf(),
            old(mem).wf(),
        ensures
            final(self).wf(),
            final(mem).wf(),
            final(self).spec_target() == old(self).spec_target(),
            final(self).spec_entry() == old(self).spec_entry(),
            final(self).spec_saved() == old(self).spec_saved(),
            !old(self).spec_hooked() ==> r == Err::<(), HookError>(HookError::DoubleUninstall),
            old(self).spec_hooked() && !old(mem).mapped(
                old(self).spec_target() as int,
                REDIRECT_LEN as int,
            ) ==> r == Err::<(), HookError>(HookError::ProtectionChangeFailed),
            r is Err ==> *final(self) == *old(self) && *final(mem) == *old(mem),
            old(self).spec_hooked() && old(mem).mapped(
                old(self).spec_target() as int,
                REDIRECT_LEN as int,
            ) ==> {
                &&& r is Ok
                &&& !final(self).spec_hooked()
                &&& final(mem).bytes() == splice(
                    old(mem).bytes(),
                    old(self).spec_target() as int,
                    old(self).spec_saved(),
                )
                &&& final(mem).pages() == protect(
                    old(mem).pages(),
                    old(self).spec_target() as int,
                    REDIRECT_LEN as int,
                    false,
                )
            },
    {
        if !self.armed {
            return Err(HookError::DoubleUninstall);
        }
        let ghost mem0 = *mem;
        match mem.make_writable(self.target, REDIRECT_LEN) {
            Err(e) => {
                return Err(e);
            },
            Ok(()) => {},
        }
        mem.write(self.target, &self.saved);
        let ghost mem1 = *mem;
        let done = mem.make_executable(self.target, REDIRECT_LEN);
        proof {
            assert(mem1.mapped(self.target as int, REDIRECT_LEN as int));
            assert(protect(protect(mem0.pages(), self.target as int, REDIRECT_LEN as int, true), self.target as int, REDIRECT_LEN as int, false)
                =~= protect(mem0.pages(), self.target as int, REDIRECT_LEN as int, false));
        }
        self.armed = false;
        Ok(())
    }
}

/// Installing a redirect at `target` and then uninstalling it gives back
/// the code exactly as it was before the install.
pub proof fn lemma_install_uninstall_restores(code: Seq<u8>, target: int, entry: u32)
    requires
        0 <= target,
        target + REDIRECT_LEN <= code.len(),
    ensures
        splice(
            splice(code, target, redirect_seq(entry)),
            target,
            code.subrange(target, target + REDIRECT_LEN),
        ) == code,
{
    let patched = splice(code, target, redirect_seq(entry));
    assert(patched.len() == code.len());
    assert(splice(patched, target, code.subrange(target, target + REDIRECT_LEN)) =~= code);
}

} // verus!
