//! Per-cell, per-player hash keys and the incremental position hash.
//!
//! Each (row, column, player) triple owns a fixed 64-bit key; the hash of a
//! position is the XOR of the keys of all occupied cells, so placing or
//! removing a stone updates the hash in O(1) by XOR-ing one key in or out.

use vstd::prelude::*;

use crate::MAX_SIZE;

verus! {

/// The splitmix64 output mix over a 64-bit word: two multiplicative
/// rounds, so that no key is an XOR combination of a few others.
pub open spec fn mix_step(z: u64) -> u64 {
    let a = vstd::wrapping::u64_specs::wrapping_add(z, 0x9E37_79B9_7F4A_7C15);
    let b = vstd::wrapping::u64_specs::wrapping_mul(a ^ (a >> 30), 0xBF58_476D_1CE4_E5B9);
    let c = vstd::wrapping::u64_specs::wrapping_mul(b ^ (b >> 27), 0x94D0_49BB_1331_11EB);
    c ^ (c >> 31)
}

/// The key stored at slot `n` of a key table.
pub open spec fn key_spec(n: int) -> u64 {
    mix_step((n + 1) as u64)
}

/// Slot number of the key for (row `r`, column `c`, player `p`) on a board
/// of edge `size`.
pub open spec fn key_index(size: int, r: int, c: int, p: i8) -> int {
    (r * size + c) * 2 + (p - 1)
}

/// The key for (row `r`, column `c`, player `p`) on a board of edge `size`.
pub open spec fn key_at(size: int, r: int, c: int, p: i8) -> u64 {
    key_spec(key_index(size, r, c, p))
}

fn mix(z: u64) -> (r: u64)
    ensures
        r == mix_step(z),
{
    let a = z.wrapping_add(0x9E37_79B9_7F4A_7C15);
    let b = (a ^ (a >> 30u64)).wrapping_mul(0xBF58_476D_1CE4_E5B9);
    let c = (b ^ (b >> 27u64)).wrapping_mul(0x94D0_49BB_1331_11EB);
    c ^ (c >> 31u64)
}

fn key_for(n: usize) -> (k: u64)
    requires
        n < 0x1000_0000,
    ensures
        k == key_spec(n as int),
{
    mix((n as u64) + 1)
}

/// The key table of one board together with the running hash of the stones
/// currently on it.
pub struct ZobristHash {
    pub(crate) table: Vec<u64>,
    pub(crate) hash: u64,
    pub(crate) size: usize,
}

/// The key table holds exactly the `key_spec` keys for a board of edge `size`.
pub(crate) open spec fn zob_wf(z: ZobristHash, size: int) -> bool {
    &&& z.size as int == size
    &&& z.table@.len() == size * size * 2
    &&& forall|n: int| 0 <= n < z.table@.len() ==> z.table@[n] == key_spec(n)
}

impl ZobristHash {
    pub(crate) fn new(size: usize) -> (z: ZobristHash)
        requires
            1 <= size <= MAX_SIZE,
        ensures
            zob_wf(z, size as int),
            z.hash == 0,
    {
        proof {
            assert((size as int) * (size as int) <= (MAX_SIZE as int) * (MAX_SIZE as int))
                by (nonlinear_arith)
                requires
                    1 <= (size as int) && (size as int) <= MAX_SIZE as int,
            ;
        }
        let count: usize = size * size * 2;
        let mut table: Vec<u64> = Vec::new();
        let mut n: usize = 0;
        while n < count
            invariant
                n <= count,
                count == size * size * 2,
                count <= 0x20_0000,
                size <= MAX_SIZE,
                table@.len() == n,
                forall|k: int| 0 <= k < n ==> table@[k] == key_spec(k),
            decreases count - n,
        {
            table.push(key_for(n));
            n = n + 1;
        }
        ZobristHash { table, hash: 0, size }
    }

    pub(crate) fn toggle(&mut self, row: usize, col: usize, player: i8)
        requires
            zob_wf(*old(self), old(self).size as int),
            old(self).size <= MAX_SIZE,
            row < old(self).size,
            col < old(self).size,
            player == 1 || player == 2,
        ensures
            zob_wf(*final(self), old(self).size as int),
            final(self).size == old(self).size,
            final(self).table == old(self).table,
            final(self).hash == old(self).hash ^ key_at(
                old(self).size as int,
                row as int,
                col as int,
                player,
            ),
    {
        proof {
            let s = self.size as int;
            assert((row as int) * s + (col as int) < s * s) by (nonlinear_arith)
                requires
                    0 <= (row as int) && (row as int) < s,
                    0 <= (col as int) && (col as int) < s,
            ;
            assert(s * s <= MAX_SIZE * MAX_SIZE) by (nonlinear_arith)
                requires
                    0 < s && s <= MAX_SIZE as int,
            ;
        }
        let idx: usize = (row * self.size + col) * 2 + ((player - 1) as usize);
        proof {
            let s = self.size as int;
            assert(idx as int == key_index(s, row as int, col as int, player));
        }
        self.hash = self.hash ^ self.table[idx];
    }

    pub(crate) fn get_hash(&self) -> (h: u64)
        ensures
            h == self.hash,
    {
        self.hash
    }
}

} // verus!
