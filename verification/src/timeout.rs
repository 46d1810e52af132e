//! How long to wait for the network.

use vstd::prelude::*;

verus! {

/// Seconds to wait for operations on the network (store or retrieve) before their size counts.
pub const DHT_TIMEOUT: u64 = 30;

/// Bytes in a block of stored data (256 KiB).
pub const DEFAULT_BLOCK_SIZE: usize = 262144;

/// The number of blocks that `len` bytes fill, the last one perhaps in part.
pub open spec fn blocks(len: nat) -> nat {
    (len + DEFAULT_BLOCK_SIZE as nat - 1) as nat / (DEFAULT_BLOCK_SIZE as nat)
}

/// `secs`, but at most ten minutes.
pub open spec fn capped(secs: nat) -> nat {
    if secs < 600 {
        secs
    } else {
        600
    }
}

/// The number of blocks that `len` bytes fill.
pub fn block_count(len: usize) -> (r: usize)
    ensures
        r == blocks(len as nat),
{
    if len % DEFAULT_BLOCK_SIZE == 0 {
        len / DEFAULT_BLOCK_SIZE
    } else {
        len / DEFAULT_BLOCK_SIZE + 1
    }
}

/// Seconds to wait for a store of `data_len` bytes: 30, and 2 more per block, at most 600.
pub fn store_timeout(data_len: usize) -> (secs: u64)
    ensures
        secs == capped(30 + 2 * blocks(data_len as nat)),
{
    let n: usize = block_count(data_len);
    if n < 285 {
        30 + n as u64 * 2
    } else {
        600
    }
}

/// Seconds to wait for a retrieval of `num_chunks` chunks: 30, and 1 more per chunk, at most 600.
pub fn retrieve_timeout(num_chunks: usize) -> (secs: u64)
    ensures
        secs == capped(30 + num_chunks as nat),
{
    if num_chunks < 570 {
        30 + num_chunks as u64
    } else {
        600
    }
}

/// More data never gets less time, and every timeout is between 30 and 600 seconds.
pub proof fn timeouts_grow_within_bounds(a: nat, b: nat)
    requires
        a <= b,
    ensures
        30 <= capped(30 + 2 * blocks(a)) <= capped(30 + 2 * blocks(b)) <= 600,
        30 <= capped(30 + a) <= capped(30 + b) <= 600,
{
    assert(blocks(a) <= blocks(b)) by {
        vstd::arithmetic::div_mod::lemma_div_is_ordered(
            a + DEFAULT_BLOCK_SIZE as int - 1,
            b + DEFAULT_BLOCK_SIZE as int - 1,
            DEFAULT_BLOCK_SIZE as int,
        );
    }
}

} // verus!
