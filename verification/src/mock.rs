//! An in-memory flash device for tests and demos: a byte array that ANDs
//! programmed bytes in and fills sectors with 0xFF on erase.

use vstd::prelude::*;

use crate::engine::{spec_blank_state, Eeprom};
use crate::flash::{erased, programmed, sector_start, Flash, FlashError, FlashGeometry};
use crate::layout::{lemma_blank_sector_header, SECTOR_HDR_SIZE};
use crate::EepromError;

verus! {

/// A simulated flash device backed by a byte vector.
pub struct MockFlash {
    geom: FlashGeometry,
    mem: Vec<u8>,
}

impl MockFlash {
    /// Creates a device of `mem_size` bytes, all erased, with the given page
    /// and sector granularities.
    pub fn new(mem_size: u32, page_size: u32, sector_size: u32) -> (r: MockFlash)
        ensures
            r.contents() == Seq::new(mem_size as nat, |i: int| 0xFFu8),
            r.erase_size() == sector_size as nat,
            page_size > 0 && sector_size > 0 ==> r.inv(),
    {
        let geom = FlashGeometry { mem_size, page_size, sector_size };
        let mem: Vec<u8> = vec![0xFF; mem_size as usize];
        let r = MockFlash { geom, mem };
        proof {
            assert forall|i: int| 0 <= i < mem_size as int implies r.mem@[i] == 0xFFu8 by {
                assert(cloned(0xFFu8, r.mem@[i]));
            }
            assert(r.contents() =~= Seq::new(mem_size as nat, |i: int| 0xFFu8));
        }
        r
    }
}

/// Opens an engine over a fresh two-sector simulated flash device with
/// 256-byte pages. Since the device is never-written, the engine formats it
/// and presents an all-0xFF logical array.
pub fn new_mock(base: u32, sector_size: u32, size: u32) -> (r: Result<
    Eeprom<MockFlash>,
    EepromError,
>)
    ensures
        (r is Ok) <==> (0 < size && SECTOR_HDR_SIZE as int <= sector_size as int
            && sector_size as int % 4 == 0 && size as int <= 2 * sector_size as int
            && 2 * sector_size as int <= 0xFFFF_FFFF && base == 0),
        r is Err ==> (r == Err::<Eeprom<MockFlash>, EepromError>(EepromError::Config)),
        r matches Ok(ee) ==> (ee.wf() && ee.spec_base() == 0 && ee.spec_size() == size
            && ee.spec_sector_size() == sector_size && ee@ == spec_blank_state(size as nat)
            && ee.spec_wptr() == SECTOR_HDR_SIZE as u32 && ee.spec_seq() == 1
            && ee.spec_tail_clean()),
{
    if sector_size == 0 || (sector_size as u64) * 2 > 0xFFFF_FFFFu64 {
        return Err(EepromError::Config);
    }
    let flash = MockFlash::new(sector_size * 2, 256, sector_size);
    proof {
        if base == 0 && SECTOR_HDR_SIZE as int <= sector_size as int {
            let mem = flash.contents();
            let a = mem.subrange(0, SECTOR_HDR_SIZE as int);
            lemma_blank_sector_header(a);
            let b = mem.subrange(
                sector_size as int,
                sector_size as int + SECTOR_HDR_SIZE as int,
            );
            lemma_blank_sector_header(b);
        }
    }
    Eeprom::new_with_flash(flash, base, sector_size, size)
}

impl Flash for MockFlash {
    closed spec fn inv(&self) -> bool {
        &&& self.geom.page_size > 0
        &&& self.geom.sector_size > 0
        &&& self.mem@.len() == self.geom.mem_size as nat
    }

    closed spec fn contents(&self) -> Seq<u8> {
        self.mem@
    }

    closed spec fn erase_size(&self) -> nat {
        self.geom.sector_size as nat
    }

    closed spec fn page_size(&self) -> nat {
        self.geom.page_size as nat
    }

    fn geometry(&self) -> (g: FlashGeometry) {
        self.geom
    }

    fn read(&mut self, addr: u32, buf: &mut Vec<u8>) -> (r: Result<(), FlashError>) {
        let n = self.mem.len();
        if buf.len() > n || (addr as u64) + (buf.len() as u64) > (n as u64) {
            return Err(FlashError::OutOfRange);
        }
        let len = buf.len();
        let mut i: usize = 0;
        while i < len
            invariant
                self == old(self),
                len == old(buf)@.len(),
                self.mem@.len() <= usize::MAX,
                addr as int + len as int <= self.mem@.len(),
                i <= len,
                buf@.len() == len,
                forall|j: int| 0 <= j < i ==> buf@[j] == self.mem@[addr as int + j],
            decreases len - i,
        {
            let b = self.mem[addr as usize + i];
            buf.set(i, b);
            i += 1;
        }
        proof {
            assert(buf@ =~= self.mem@.subrange(addr as int, addr as int + len as int));
        }
        Ok(())
    }

    fn program(&mut self, addr: u32, data: &Vec<u8>) -> (r: Result<(), FlashError>) {
        // Split at page boundaries, as a real device would; the page-sized
        // chunks before the first out-of-range one are committed even when
        // the call fails.
        let n = self.mem.len();
        let page = self.geom.page_size as usize;
        let len = data.len();
        let mut off: usize = 0;
        while off < len
            invariant
                old(self).inv(),
                self.geom == old(self).geom,
                self.geom.page_size > 0,
                self.mem@.len() == old(self).mem@.len(),
                self.mem@.len() <= usize::MAX,
                n == self.mem@.len(),
                n <= 0xFFFF_FFFF,
                page == self.geom.page_size as int,
                len == data@.len(),
                off <= len,
                off == 0 || addr as int + off <= n,
                forall|j: int|
                    0 <= j < self.mem@.len() ==> self.mem@[j] == (if addr as int <= j < addr as int
                        + off {
                        old(self).mem@[j] & data@[j - addr as int]
                    } else {
                        old(self).mem@[j]
                    }),
            decreases len - off,
        {
            let a: u64 = addr as u64 + off as u64;
            let page_off = (a % page as u64) as usize;
            let room = page - page_off;
            let chunk = if room < len - off {
                room
            } else {
                len - off
            };
            if a + chunk as u64 > n as u64 {
                return Err(FlashError::OutOfRange);
            }
            let base = a as usize;
            let mut i: usize = 0;
            while i < chunk
                invariant
                    old(self).inv(),
                    self.geom == old(self).geom,
                    self.mem@.len() == old(self).mem@.len(),
                    self.mem@.len() <= usize::MAX,
                    n == self.mem@.len(),
                    n <= 0xFFFF_FFFF,
                    len == data@.len(),
                    off + chunk <= len,
                    base == addr as int + off,
                    base + chunk <= n,
                    i <= chunk,
                    forall|j: int|
                        0 <= j < self.mem@.len() ==> self.mem@[j] == (if addr as int <= j
                            < addr as int + off + i {
                            old(self).mem@[j] & data@[j - addr as int]
                        } else {
                            old(self).mem@[j]
                        }),
                decreases chunk - i,
            {
                let idx = base + i;
                let b = self.mem[idx] & data[off + i];
                self.mem.set(idx, b);
                i += 1;
            }
            off += chunk;
        }
        proof {
            assert(self.mem@ =~= programmed(old(self).mem@, addr as int, data@));
        }
        Ok(())
    }

    fn sector_erase(&mut self, addr: u32) -> (r: Result<(), FlashError>) {
        let n = self.mem.len();
        if addr as u64 >= n as u64 {
            return Err(FlashError::OutOfRange);
        }
        let ss = self.geom.sector_size as u64;
        let q = (addr as u64) / ss;
        proof {
            assert(q * ss <= addr as u64) by (nonlinear_arith)
                requires
                    ss > 0,
                    q == (addr as u64) / ss,
            ;
        }
        let base = q * ss;
        let end = if base + ss > n as u64 {
            n as u64
        } else {
            base + ss
        };
        proof {
            assert(base == sector_start(addr as int, self.geom.sector_size as int));
        }
        let mut i: usize = base as usize;
        while i < end as usize
            invariant
                self.geom == old(self).geom,
                self.mem@.len() == old(self).mem@.len(),
                base <= i as u64 <= end,
                end <= self.mem@.len(),
                forall|j: int|
                    0 <= j < self.mem@.len() ==> self.mem@[j] == (if base as int <= j < i as int {
                        0xFFu8
                    } else {
                        old(self).mem@[j]
                    }),
            decreases end as int - i as int,
        {
            self.mem.set(i, 0xFF);
            i += 1;
        }
        proof {
            assert(self.mem@ =~= erased(
                old(self).mem@,
                sector_start(addr as int, old(self).erase_size() as int),
                vstd::math::min(
                    sector_start(addr as int, old(self).erase_size() as int) + old(
                        self,
                    ).erase_size() as int,
                    old(self).mem@.len() as int,
                ),
            ));
        }
        Ok(())
    }
}

} // verus!

