//! The flash device capability the engine is layered on.
//!
//! The model: a device is a flat byte array. Erased bytes read as 0xFF.
//! Programming can only clear bits (it ANDs the new bytes into the stored
//! ones), and erase works on whole sectors. Out-of-range accesses fail; a
//! failed program may already have committed the page-sized chunks that
//! preceded the first out-of-range one.

use vstd::prelude::*;

verus! {

/// Error returned by a flash device.
#[derive(Clone, Copy, Debug, PartialEq, Eq, Structural)]
pub enum FlashError {
    /// The access reaches past the end of the device.
    OutOfRange,
}

/// Size and granularity of a flash device.
#[derive(Clone, Copy, Debug, PartialEq, Eq, Structural)]
pub struct FlashGeometry {
    pub mem_size: u32,
    pub page_size: u32,
    pub sector_size: u32,
}

/// The device contents after programming `data` at `addr`: programming can
/// only clear bits, so each targeted byte is ANDed with the matching new byte.
pub open spec fn programmed(mem: Seq<u8>, addr: int, data: Seq<u8>) -> Seq<u8> {
    Seq::new(
        mem.len(),
        |i: int|
            if addr <= i < addr + data.len() {
                mem[i] & data[i - addr]
            } else {
                mem[i]
            },
    )
}

/// The device contents after erasing the byte range `[lo, hi)` to 0xFF.
pub open spec fn erased(mem: Seq<u8>, lo: int, hi: int) -> Seq<u8> {
    Seq::new(
        mem.len(),
        |i: int|
            if lo <= i < hi {
                0xFFu8
            } else {
                mem[i]
            },
    )
}

/// The start of the sector that contains byte address `addr`, for sectors of
/// `sector_size` bytes.
pub open spec fn sector_start(addr: int, sector_size: int) -> int
    recommends
        sector_size > 0,
{
    (addr / sector_size) * sector_size
}

/// A flash-like backing store.
///
/// `contents` is the stored byte array, `erase_size` the sector size (the
/// erase granularity), and `inv` the device handle's own well-formedness.
/// Reads return the stored bytes; programming ANDs bytes in; erasing fills
/// the sector containing the given address with 0xFF. In-range accesses
/// succeed, out-of-range accesses fail without changing the contents.
pub trait Flash: Sized {
    /// Well-formedness of the device handle.
    spec fn inv(&self) -> bool;

    /// The bytes currently stored by the device.
    spec fn contents(&self) -> Seq<u8>;

    /// The sector size: the unit of erase, in bytes.
    spec fn erase_size(&self) -> nat;

    /// The page size: the unit of programming, in bytes.
    spec fn page_size(&self) -> nat;

    /// Reports the device's size and granularities.
    fn geometry(&self) -> (g: FlashGeometry)
        requires
            self.inv(),
        ensures
            g.mem_size as nat == self.contents().len(),
            g.sector_size as nat == self.erase_size(),
            g.sector_size > 0,
            g.page_size as nat == self.page_size(),
    ;

    /// Fills `buf` with the stored bytes starting at `addr`.
    fn read(&mut self, addr: u32, buf: &mut Vec<u8>) -> (r: Result<(), FlashError>)
        requires
            old(self).inv(),
        ensures
            final(self).inv(),
            final(self).contents() == old(self).contents(),
            final(self).erase_size() == old(self).erase_size(),
            final(self).page_size() == old(self).page_size(),
            final(buf)@.len() == old(buf)@.len(),
            (r is Ok) <==> addr as int + old(buf)@.len() <= old(self).contents().len(),
            r is Ok ==> final(buf)@ == old(self).contents().subrange(
                addr as int,
                addr as int + old(buf)@.len(),
            ),
            r is Err ==> final(buf)@ == old(buf)@,
    ;

    /// Programs `data` at `addr`: ANDs each byte into the stored one. A
    /// device may split the data at page boundaries, so a failed call can
    /// have programmed a leading part of the range; bytes outside the range
    /// are untouched, and a touched byte is at most ANDed with its new value.
    fn program(&mut self, addr: u32, data: &Vec<u8>) -> (r: Result<(), FlashError>)
        requires
            old(self).inv(),
        ensures
            final(self).inv(),
            final(self).erase_size() == old(self).erase_size(),
            final(self).page_size() == old(self).page_size(),
            final(self).contents().len() == old(self).contents().len(),
            (r is Ok) <==> (data@.len() == 0 || addr as int + data@.len() <= old(
                self,
            ).contents().len()),
            r is Ok ==> final(self).contents() == programmed(
                old(self).contents(),
                addr as int,
                data@,
            ),
            r is Err ==> (forall|j: int|
                0 <= j < old(self).contents().len() && !(addr as int <= j < addr as int
                    + data@.len()) ==> final(self).contents()[j] == old(self).contents()[j]),
            r is Err ==> (forall|j: int|
                addr as int <= j < addr as int + data@.len() && 0 <= j < old(
                    self,
                ).contents().len() ==> (final(self).contents()[j] == old(self).contents()[j]
                    || final(self).contents()[j] == (old(self).contents()[j] & data@[j
                    - addr as int]))),
    ;

    /// Erases the whole sector containing `addr` to 0xFF.
    fn sector_erase(&mut self, addr: u32) -> (r: Result<(), FlashError>)
        requires
            old(self).inv(),
        ensures
            final(self).inv(),
            final(self).erase_size() == old(self).erase_size(),
            final(self).page_size() == old(self).page_size(),
            final(self).contents().len() == old(self).contents().len(),
            (r is Ok) <==> (addr as int) < old(self).contents().len(),
            r is Ok ==> final(self).contents() == erased(
                old(self).contents(),
                sector_start(addr as int, old(self).erase_size() as int),
                vstd::math::min(
                    sector_start(addr as int, old(self).erase_size() as int)
                        + old(self).erase_size() as int,
                    old(self).contents().len() as int,
                ),
            ),
            r is Err ==> final(self).contents() == old(self).contents(),
    ;

    /// Reads the device status register; devices without one report zero.
    fn rdsr(&mut self) -> (r: Result<u8, FlashError>)
        requires
            old(self).inv(),
        ensures
            final(self).inv(),
            final(self).contents() == old(self).contents(),
            final(self).erase_size() == old(self).erase_size(),
            final(self).page_size() == old(self).page_size(),
    {
        Ok(0)
    }
}

} // verus!
