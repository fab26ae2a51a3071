use vstd::prelude::*;
use crate::types::{Block, Key};

verus! {

/// Rotation right by eight bits.
pub open spec fn ror8(x: u64) -> u64 {
    (x >> 8u64) | (x << 56u64)
}

/// Rotation left by three bits.
pub open spec fn rol3(x: u64) -> u64 {
    (x << 3u64) | (x >> 61u64)
}

pub open spec fn add64(a: u64, b: u64) -> u64 {
    vstd::wrapping::u64_specs::wrapping_add(a, b)
}

/// The key schedule of Speck128/128: the round key and the schedule word
/// after `i` steps.
pub open spec fn schedule(key: Key, i: nat) -> (u64, u64)
    decreases i,
{
    if i == 0 {
        (key[0], key[1])
    } else {
        let prev = schedule(key, (i - 1) as nat);
        let l = add64(prev.0, ror8(prev.1)) ^ ((i - 1) as u64);
        (rol3(prev.0) ^ l, l)
    }
}

/// The cipher state `(x, y)` after `i` rounds.
pub open spec fn rounds(key: Key, x: u64, y: u64, i: nat) -> (u64, u64)
    decreases i,
{
    if i == 0 {
        (x, y)
    } else {
        let prev = rounds(key, x, y, (i - 1) as nat);
        let k = schedule(key, (i - 1) as nat).0;
        let x1 = add64(ror8(prev.0), prev.1) ^ k;
        (x1, rol3(prev.1) ^ x1)
    }
}

/// The little-endian word stored at bytes `o .. o + 8`.
pub open spec fn word_at(b: Seq<u8>, o: int) -> u64 {
    (b[o] as u64) | ((b[o + 1] as u64) << 8u64) | ((b[o + 2] as u64) << 16u64) | ((b[o + 3] as u64)
        << 24u64) | ((b[o + 4] as u64) << 32u64) | ((b[o + 5] as u64) << 40u64) | ((b[o + 6] as u64)
        << 48u64) | ((b[o + 7] as u64) << 56u64)
}

/// The eight little-endian bytes of a word.
pub open spec fn word_bytes(w: u64) -> Seq<u8> {
    seq![
        w as u8,
        (w >> 8u64) as u8,
        (w >> 16u64) as u8,
        (w >> 24u64) as u8,
        (w >> 32u64) as u8,
        (w >> 40u64) as u8,
        (w >> 48u64) as u8,
        (w >> 56u64) as u8,
    ]
}

/// Speck128/128 applied to one block: the low word is `y`, the high word `x`.
#[verifier::opaque]
pub open spec fn cipher(key: Key, b: Seq<u8>) -> Seq<u8> {
    let r = rounds(key, word_at(b, 8), word_at(b, 0), 32);
    word_bytes(r.1) + word_bytes(r.0)
}

pub fn read_word(b: &Block, o: usize) -> (r: u64)
    requires
        o + 8 <= 16,
    ensures
        r == word_at(b@, o as int),
{
    (b[o] as u64) | ((b[o + 1] as u64) << 8u64) | ((b[o + 2] as u64) << 16u64) | ((b[o + 3] as u64)
        << 24u64) | ((b[o + 4] as u64) << 32u64) | ((b[o + 5] as u64) << 40u64) | ((b[o + 6] as u64)
        << 48u64) | ((b[o + 7] as u64) << 56u64)
}

/// The block whose low eight bytes hold `lo` and high eight bytes hold `hi`.
pub fn block_of_words(lo: u64, hi: u64) -> (r: Block)
    ensures
        r@ == word_bytes(lo) + word_bytes(hi),
{
    let r: Block = [
        lo as u8,
        (lo >> 8u64) as u8,
        (lo >> 16u64) as u8,
        (lo >> 24u64) as u8,
        (lo >> 32u64) as u8,
        (lo >> 40u64) as u8,
        (lo >> 48u64) as u8,
        (lo >> 56u64) as u8,
        hi as u8,
        (hi >> 8u64) as u8,
        (hi >> 16u64) as u8,
        (hi >> 24u64) as u8,
        (hi >> 32u64) as u8,
        (hi >> 40u64) as u8,
        (hi >> 48u64) as u8,
        (hi >> 56u64) as u8,
    ];
    assert(r@ =~= word_bytes(lo) + word_bytes(hi));
    r
}

/// Encrypts one block under the key.
pub fn encrypt_block(key: &Key, b: &Block) -> (r: Block)
    ensures
        r@ == cipher(*key, b@),
{
    let mut x = read_word(b, 8);
    let mut y = read_word(b, 0);
    let mut k = key[0];
    let mut l = key[1];
    let ghost x0 = x;
    let ghost y0 = y;
    let mut i: u64 = 0;
    while i < 32
        invariant
            i <= 32,
            (x, y) == rounds(*key, x0, y0, i as nat),
            (k, l) == schedule(*key, i as nat),
        decreases 32 - i,
    {
        x = ((x >> 8u64) | (x << 56u64)).wrapping_add(y) ^ k;
        y = ((y << 3u64) | (y >> 61u64)) ^ x;
        l = k.wrapping_add((l >> 8u64) | (l << 56u64)) ^ i;
        k = ((k << 3u64) | (k >> 61u64)) ^ l;
        i = i + 1;
    }
    reveal(cipher);
    block_of_words(y, x)
}

} // verus!
