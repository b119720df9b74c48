//! The random words of the position hash. Each (cell, bug, color) slot gets a fixed
//! word from a xorshift mix of its index; a tile's height rotates its word.

use vstd::prelude::*;

verus! {

/// Seed folded into every table index before mixing.
pub const SEED: u64 = 0x9e37_79b9_7f4a_7c15;

/// One xorshift round: a bijection on 64-bit words.
pub open spec fn spec_xorshift(x: u64) -> u64 {
    let a = x ^ (x << 13u64);
    let b = a ^ (a >> 7u64);
    b ^ (b << 17u64)
}

/// The random word of table slot `index`.
pub open spec fn spec_word(index: u64) -> u64 {
    spec_xorshift(spec_xorshift(spec_xorshift(index ^ SEED)))
}

/// Rotation of a word to the left by `k` bits, for `k < 64`.
pub open spec fn spec_rotl(w: u64, k: u64) -> u64 {
    if k == 0 {
        w
    } else {
        (w << k) | (w >> (64 - k) as u64)
    }
}

/// The hash contribution of a tile: the word of (cell, bug, color) rotated by the
/// tile's height in its stack.
pub open spec fn zob(id: u8, bug: u8, color: u8, height: nat) -> u64 {
    spec_rotl(
        spec_word(((id as u64) * 16 + (bug as u64) * 2 + (color as u64)) as u64),
        (height % 64) as u64,
    )
}

fn xorshift(x: u64) -> (r: u64)
    ensures
        r == spec_xorshift(x),
{
    let a = x ^ (x << 13u64);
    let b = a ^ (a >> 7u64);
    b ^ (b << 17u64)
}

fn rotl(w: u64, k: u64) -> (r: u64)
    requires
        k < 64,
    ensures
        r == spec_rotl(w, k),
{
    if k == 0 {
        w
    } else {
        (w << k) | (w >> (64 - k))
    }
}

/// The hash contribution of `bug` (index 0..5) of `color` (0 or 1) at `height` on cell `id`.
pub fn zobrist(id: u8, bug: u8, color: u8, height: u32) -> (r: u64)
    requires
        bug < 5,
        color < 2,
    ensures
        r == zob(id, bug, color, height as nat),
{
    let index: u64 = (id as u64) * 16 + (bug as u64) * 2 + (color as u64);
    let w = xorshift(xorshift(xorshift(index ^ SEED)));
    rotl(w, (height % 64) as u64)
}

} // verus!
