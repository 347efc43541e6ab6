//! Executable memory, as the operating system hands it out: a region is
//! mapped writable, filled, and then made executable and read-only.
//!
//! Nothing here is proved. Each function states what the mapping library
//! and the operating system are trusted to do.

use memmap2::{Mmap, MmapMut};
use vstd::prelude::*;

verus! {

/// `memmap2::MmapMut`: a writable memory map. Nothing is known of its
/// inside but the bytes that it holds.
#[verifier::external_type_specification]
#[verifier::external_body]
pub struct ExMmapMut(memmap2::MmapMut);

/// `memmap2::Mmap`: a memory map that cannot be written to. Nothing is
/// known of its inside but the bytes that it holds.
#[verifier::external_type_specification]
#[verifier::external_body]
pub struct ExMmap(memmap2::Mmap);

/// `std::io::Error`: why the operating system refused. Nothing is read
/// from it.
#[verifier::external_type_specification]
#[verifier::external_body]
pub struct ExIoError(std::io::Error);

/// The bytes that a writable region holds.
pub uninterp spec fn writable_bytes(region: MmapMut) -> Seq<u8>;

/// The bytes that an executable region holds.
pub uninterp spec fn executable_bytes(region: Mmap) -> Seq<u8>;

/// `memmap2::MmapMut::map_anon`: asks the operating system for an
/// anonymous writable region. A region that is granted has exactly the
/// length asked for; whether one is granted is not said.
#[verifier::external_body]
pub(crate) fn map_anon(length: usize) -> (r: Result<MmapMut, std::io::Error>)
    ensures
        r matches Ok(region) ==> writable_bytes(region).len() == length,
{
    MmapMut::map_anon(length)
}

/// `<[u8]>::copy_from_slice` on the slice that `memmap2::MmapMut` gives by
/// `DerefMut`: the region is overwritten with `bytes`. The two must have
/// the same length, or the copy panics.
#[verifier::external_body]
pub(crate) fn fill(region: &mut MmapMut, bytes: &[u8])
    requires
        writable_bytes(*old(region)).len() == bytes@.len(),
    ensures
        writable_bytes(*final(region)) == bytes@,
{
    region.copy_from_slice(bytes);
}

/// `memmap2::MmapMut::make_exec`: changes the protection of the region
/// from writable to executable. Where that succeeds, the region holds the
/// bytes that it held; whether it succeeds is not said.
#[verifier::external_body]
pub(crate) fn make_exec(region: MmapMut) -> (r: Result<Mmap, std::io::Error>)
    ensures
        r matches Ok(executable) ==> executable_bytes(executable) == writable_bytes(region),
{
    region.make_exec()
}

/// `Vec::as_ptr`: the address at which the cells of the tape lie. Nothing
/// is known of it.
#[verifier::external_body]
pub(crate) fn address_of(tape: &Vec<u8>) -> (address: u64) {
    tape.as_ptr() as u64
}

} // verus!
