use vstd::prelude::*;
use vstd::arithmetic::div_mod::{lemma_div_is_ordered, lemma_fundamental_div_mod, lemma_multiply_divide_lt};

use crate::error::HookError;

verus! {

/// Size of one page of code memory; protection is changed page by page.
pub const PAGE_SIZE: usize = 4096;

/// The page that holds address `i`.
pub open spec fn page_of(i: int) -> int {
    i / PAGE_SIZE as int
}

/// Whether page `p` lies under the range `[addr, addr + len)`.
pub open spec fn covers(addr: int, len: int, p: int) -> bool {
    page_of(addr) <= p <= page_of(addr + len - 1)
}

/// Page protections after the pages under `[addr, addr + len)` are set to
/// `writable`.
pub open spec fn protect(pages: Seq<bool>, addr: int, len: int, writable: bool) -> Seq<bool> {
    Seq::new(pages.len(), |p: int| if covers(addr, len, p) { writable } else { pages[p] })
}

/// `bytes` with the bytes from `addr` on replaced by `data`.
pub open spec fn splice(bytes: Seq<u8>, addr: int, data: Seq<u8>) -> Seq<u8> {
    bytes.subrange(0, addr) + data + bytes.subrange(addr + data.len(), bytes.len() as int)
}

/// Executable memory of the host process, addressed from 0. Each page is
/// either writable or executable, never both. Bytes change only through
/// `write`, which asks that the pages under the range were made writable.
pub struct CodeMemory {
    bytes: Vec<u8>,
    writable: Vec<bool>,
}

impl CodeMemory {
    /// The bytes of memory.
    pub closed spec fn bytes(&self) -> Seq<u8> {
        self.bytes@
    }

    /// For each page, whether it is writable (else executable).
    pub closed spec fn pages(&self) -> Seq<bool> {
        self.writable@
    }

    pub open spec fn wf(&self) -> bool {
        self.bytes().len() == self.pages().len() * PAGE_SIZE
    }

    /// Whether `[addr, addr + len)` is a nonempty range of mapped memory.
    pub open spec fn mapped(&self, addr: int, len: int) -> bool {
        0 <= addr && 0 < len && addr + len <= self.bytes().len()
    }

    /// Whether the page that holds address `i` is writable.
    pub open spec fn writable_at(&self, i: int) -> bool {
        self.pages()[page_of(i)]
    }

    pub open spec fn range_writable(&self, addr: int, len: int) -> bool {
        forall|i: int| addr <= i < addr + len ==> #[trigger] self.writable_at(i)
    }

    pub open spec fn all_executable(&self) -> bool {
        forall|p: int| 0 <= p < self.pages().len() ==> !#[trigger] self.pages()[p]
    }

    /// Maps `code` at address 0, padded with zero bytes to whole pages, all
    /// of them executable.
    pub fn from_code(code: Vec<u8>) -> (r: CodeMemory)
        requires
            code@.len() + PAGE_SIZE <= usize::MAX,
        ensures
            r.wf(),
            r.all_executable(),
            r.bytes().len() as int % PAGE_SIZE as int == 0,
            code@.len() <= r.bytes().len() < code@.len() + PAGE_SIZE,
            r.bytes() == code@ + Seq::new((r.bytes().len() - code@.len()) as nat, |i: int| 0u8),
    {
        let ghost code_v = code@;
        let n = code.len();
        let rem = n % PAGE_SIZE;
        let pad: usize = if rem == 0 { 0 } else { PAGE_SIZE - rem };
        let npages: usize = if rem == 0 { n / PAGE_SIZE } else { n / PAGE_SIZE + 1 };
        proof {
            lemma_fundamental_div_mod(n as int, PAGE_SIZE as int);
            assert(n + pad == npages * PAGE_SIZE) by (nonlinear_arith)
                requires
                    n == PAGE_SIZE * (n / PAGE_SIZE) + rem,
                    pad == (if rem == 0 { 0usize } else { (PAGE_SIZE - rem) as usize }),
                    npages == (if rem == 0 { n / PAGE_SIZE } else { (n / PAGE_SIZE + 1) as usize }),
            ;
        }
        let mut bytes = code;
        let mut k: usize = 0;
        while k < pad
            invariant
                0 <= k <= pad,
                pad < PAGE_SIZE,
                n == code_v.len(),
                bytes@ == code_v + Seq::new(k as nat, |i: int| 0u8),
            decreases pad - k,
        {
            bytes.push(0u8);
            k = k + 1;
            assert(bytes@ =~= code_v + Seq::new(k as nat, |i: int| 0u8));
        }
        let mut writable: Vec<bool> = Vec::new();
        let mut p: usize = 0;
        while p < npages
            invariant
                0 <= p <= npages,
                writable@ == Seq::new(p as nat, |i: int| false),
            decreases npages - p,
        {
            writable.push(false);
            p = p + 1;
            assert(writable@ =~= Seq::new(p as nat, |i: int| false));
        }
        proof {
            assert((npages * PAGE_SIZE) as int % PAGE_SIZE as int == 0) by (nonlinear_arith)
                requires
                    PAGE_SIZE > 0,
            ;
        }
        CodeMemory { bytes, writable }
    }

    /// Number of mapped bytes.
    pub fn len(&self) -> (r: usize)
        ensures
            r == self.bytes().len(),
    {
        self.bytes.len()
    }

    /// Number of mapped pages.
    pub fn page_count(&self) -> (r: usize)
        ensures
            r == self.pages().len(),
    {
        self.writable.len()
    }

    /// Whether page `p` is writable (else executable).
    pub fn page_is_writable(&self, p: usize) -> (r: bool)
        requires
            p < self.pages().len(),
        ensures
            r == self.pages()[p as int],
    {
        self.writable[p]
    }

    /// Copies out `len` bytes from `addr`.
    pub fn read(&self, addr: usize, len: usize) -> (r: Vec<u8>)
        requires
            addr + len <= self.bytes().len(),
        ensures
            r@ == self.bytes().subrange(addr as int, addr + len),
    {
        let n = self.bytes.len();
        let mut r: Vec<u8> = Vec::new();
        let mut i: usize = 0;
        while i < len
            invariant
                0 <= i <= len,
                n == self.bytes@.len(),
                addr + len <= n,
                r@ == self.bytes@.subrange(addr as int, addr + i),
            decreases len - i,
        {
            r.push(self.bytes[addr + i]);
            i = i + 1;
            assert(r@ =~= self.bytes@.subrange(addr as int, addr + i));
        }
        r
    }

    fn set_protection(&mut self, addr: usize, len: usize, writable: bool) -> (r: Result<(), HookError>)
        requires
            old(self).wf(),
        ensures
            final(self).wf(),
            r is Ok <==> old(self).mapped(addr as int, len as int),
            r is Err ==> r == Err::<(), HookError>(HookError::ProtectionChangeFailed) && *final(self)
                == *old(self),
            r is Ok ==> final(self).bytes() == old(self).bytes() && final(self).pages() == protect(
                old(self).pages(),
                addr as int,
                len as int,
                writable,
            ),
    {
        if len == 0 || addr > self.bytes.len() || len > self.bytes.len() - addr {
            return Err(HookError::ProtectionChangeFailed);
        }
        let ghost old_pages = self.writable@;
        let first = addr / PAGE_SIZE;
        let last = (addr + len - 1) / PAGE_SIZE;
        proof {
            lemma_div_is_ordered(addr as int, (addr + len - 1) as int, PAGE_SIZE as int);
            lemma_multiply_divide_lt((addr + len - 1) as int, PAGE_SIZE as int, old_pages.len() as int);
            assert(PAGE_SIZE * old_pages.len() == old_pages.len() * PAGE_SIZE) by (nonlinear_arith);
        }
        let np = self.writable.len();
        let mut p = first;
        while p <= last
            invariant
                first <= p <= last + 1,
                np == old_pages.len(),
                last < np,
                self.bytes@ == old(self).bytes@,
                self.writable@.len() == old_pages.len(),
                forall|q: int|
                    0 <= q < old_pages.len() ==> #[trigger] self.writable@[q] == if first <= q < p {
                        writable
                    } else {
                        old_pages[q]
                    },
            decreases last + 1 - p,
        {
            self.writable[p] = writable;
            p = p + 1;
        }
        assert(self.writable@ =~= protect(old_pages, addr as int, len as int, writable));
        Ok(())
    }

    /// Makes the pages under `[addr, addr + len)` writable, and no longer
    /// executable. Fails, changing nothing, where the range is empty or not
    /// mapped.
    pub fn make_writable(&mut self, addr: usize, len: usize) -> (r: Result<(), HookError>)
        requires
            old(self).wf(),
        ensures
            final(self).wf(),
            r is Ok <==> old(self).mapped(addr as int, len as int),
            r is Err ==> r == Err::<(), HookError>(HookError::ProtectionChangeFailed) && *final(self)
                == *old(self),
            r is Ok ==> final(self).bytes() == old(self).bytes() && final(self).pages() == protect(
                old(self).pages(),
                addr as int,
                len as int,
                true,
            ) && final(self).range_writable(addr as int, len as int),
    {
        let r = self.set_protection(addr, len, true);
        proof {
            if r is Ok {
                assert forall|i: int| addr <= i < addr + len implies #[trigger] self.writable_at(i) by {
                    lemma_div_is_ordered(addr as int, i, PAGE_SIZE as int);
                    lemma_div_is_ordered(i, (addr + len - 1) as int, PAGE_SIZE as int);
                    lemma_multiply_divide_lt(i, PAGE_SIZE as int, self.writable@.len() as int);
                    assert(PAGE_SIZE * self.writable@.len() == self.writable@.len() * PAGE_SIZE) by (nonlinear_arith);
                }
            }
        }
        r
    }

    /// Makes the pages under `[addr, addr + len)` executable, and no longer
    /// writable. Fails, changing nothing, where the range is empty or not
    /// mapped.
    pub fn make_executable(&mut self, addr: usize, len: usize) -> (r: Result<(), HookError>)
        requires
            old(self).wf(),
        ensures
            final(self).wf(),
            r is Ok <==> old(self).mapped(addr as int, len as int),
            r is Err ==> r == Err::<(), HookError>(HookError::ProtectionChangeFailed) && *final(self)
                == *old(self),
            r is Ok ==> final(self).bytes() == old(self).bytes() && final(self).pages() == protect(
                old(self).pages(),
                addr as int,
                len as int,
                false,
            ),
    {
        self.set_protection(addr, len, false)
    }

    /// Writes `data` at `addr`; every page under the range must be writable.
    pub fn write(&mut self, addr: usize, data: &Vec<u8>)
        requires
            addr + data@.len() <= old(self).bytes().len(),
            old(self).range_writable(addr as int, data@.len() as int),
        ensures
            final(self).bytes() == splice(old(self).bytes(), addr as int, data@),
            final(self).pages() == old(self).pages(),
    {
        let ghost start = self.bytes@;
        let n = self.bytes.len();
        let mut i: usize = 0;
        while i < data.len()
            invariant
                0 <= i <= data@.len(),
                n == start.len(),
                addr + data@.len() <= n,
                self.writable@ == old(self).writable@,
                self.bytes@ == start.subrange(0, addr as int) + data@.subrange(0, i as int)
                    + start.subrange(addr + i, start.len() as int),
            decreases data@.len() - i,
        {
            self.bytes[addr + i] = data[i];
            i = i + 1;
            assert(self.bytes@ =~= start.subrange(0, addr as int) + data@.subrange(0, i as int)
                + start.subrange(addr + i, start.len() as int));
        }
        assert(data@.subrange(0, data@.len() as int) =~= data@);
    }
}

} // verus!
