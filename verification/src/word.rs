//! Free-list links as they are stored in the region: eight bytes, least
//! significant first.

use vstd::prelude::*;

verus! {

/// Number of bytes a stored link occupies at the start of a free slot.
pub const LINK_SIZE: usize = 8;

/// The number that the eight bytes of `mem` starting at index `at` encode,
/// least significant byte first.
pub open spec fn word_at(mem: Seq<u8>, at: int) -> int {
    mem[at] as int
        + mem[at + 1] as int * 0x100
        + mem[at + 2] as int * 0x1_0000
        + mem[at + 3] as int * 0x100_0000
        + mem[at + 4] as int * 0x1_0000_0000
        + mem[at + 5] as int * 0x100_0000_0000
        + mem[at + 6] as int * 0x1_0000_0000_0000
        + mem[at + 7] as int * 0x100_0000_0000_0000
}

/// Reads the link stored at `at`.
pub fn read_word(buffer: &[u8], at: usize) -> (value: u64)
    requires
        at + LINK_SIZE <= buffer@.len(),
    ensures
        value == word_at(buffer@, at as int),
{
    let b0: u64 = buffer[at] as u64;
    let b1: u64 = buffer[at + 1] as u64;
    let b2: u64 = buffer[at + 2] as u64;
    let b3: u64 = buffer[at + 3] as u64;
    let b4: u64 = buffer[at + 4] as u64;
    let b5: u64 = buffer[at + 5] as u64;
    let b6: u64 = buffer[at + 6] as u64;
    let b7: u64 = buffer[at + 7] as u64;
    b0 + b1 * 0x100 + b2 * 0x1_0000 + b3 * 0x100_0000 + b4 * 0x1_0000_0000 + b5
        * 0x100_0000_0000 + b6 * 0x1_0000_0000_0000 + b7 * 0x100_0000_0000_0000
}

/// Stores `value` as the link at `at`, touching no other byte.
pub fn write_word(buffer: &mut [u8], at: usize, value: u64)
    requires
        at + LINK_SIZE <= old(buffer)@.len(),
    ensures
        final(buffer)@.len() == old(buffer)@.len(),
        word_at(final(buffer)@, at as int) == value,
        forall|j: int|
            0 <= j < old(buffer)@.len() && !(at <= j < at + LINK_SIZE) ==> final(buffer)@[j]
                == old(buffer)@[j],
{
    let q1: u64 = value / 0x100;
    let q2: u64 = q1 / 0x100;
    let q3: u64 = q2 / 0x100;
    let q4: u64 = q3 / 0x100;
    let q5: u64 = q4 / 0x100;
    let q6: u64 = q5 / 0x100;
    let q7: u64 = q6 / 0x100;
    buffer[at] = (value % 0x100) as u8;
    buffer[at + 1] = (q1 % 0x100) as u8;
    buffer[at + 2] = (q2 % 0x100) as u8;
    buffer[at + 3] = (q3 % 0x100) as u8;
    buffer[at + 4] = (q4 % 0x100) as u8;
    buffer[at + 5] = (q5 % 0x100) as u8;
    buffer[at + 6] = (q6 % 0x100) as u8;
    buffer[at + 7] = q7 as u8;
}

} // verus!
