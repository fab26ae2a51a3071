use vstd::prelude::*;
use crate::types::{Block, Key, ErrorKind};
use crate::cipher::{cipher, word_at, word_bytes, add64, read_word, block_of_words, encrypt_block};

verus! {

pub open spec fn xor16(a: Seq<u8>, b: Seq<u8>) -> Seq<u8> {
    Seq::new(16, |i: int| a[i] ^ b[i])
}

/// The counter block for the `j`-th block of a section: the nonce with `j`
/// added to its low word.
pub open spec fn counter(nonce: Seq<u8>, j: int) -> Seq<u8> {
    word_bytes(add64(word_at(nonce, 0), j as u64)) + word_bytes(word_at(nonce, 8))
}

/// The key stream that masks the `j`-th block of a section.
pub open spec fn keystream(key: Key, nonce: Seq<u8>, j: int) -> Seq<u8> {
    cipher(key, counter(nonce, j))
}

/// The blocks `b` masked with the key stream of `nonce`: this both encrypts
/// and decrypts.
pub open spec fn masked(key: Key, nonce: Seq<u8>, b: Seq<Block>, c: Seq<Block>) -> bool {
    &&& c.len() == b.len()
    &&& forall|j: int| 0 <= j < b.len() ==> (#[trigger] c[j])@ == xor16(b[j]@, keystream(key, nonce, j))
}

/// The first MAC state: the section's block count, then the nonce.
pub open spec fn mac_start(key: Key, size: u32, nonce: Seq<u8>) -> Seq<u8> {
    cipher(key, xor16(cipher(key, word_bytes(size as u64) + word_bytes(0)), nonce))
}

/// CBC-MAC over the ciphertext blocks, starting from `start`.
pub open spec fn mac_chain(key: Key, start: Seq<u8>, c: Seq<Block>) -> Seq<u8>
    decreases c.len(),
{
    if c.len() == 0 {
        start
    } else {
        cipher(key, xor16(mac_chain(key, start, c.drop_last()), c.last()@))
    }
}

/// The tag that authenticates ciphertext `c` of a section of `size` blocks.
pub open spec fn mac_of(key: Key, size: u32, nonce: Seq<u8>, c: Seq<Block>) -> Seq<u8> {
    mac_chain(key, mac_start(key, size, nonce), c)
}

pub proof fn lemma_xor_twice(a: Seq<u8>, k: Seq<u8>)
    requires
        a.len() == 16,
    ensures
        xor16(xor16(a, k), k) == a,
{
    assert forall|i: int| 0 <= i < 16 implies xor16(xor16(a, k), k)[i] == a[i] by {
        let x = a[i];
        let y = k[i];
        assert((x ^ y) ^ y == x) by (bit_vector);
    }
    assert(xor16(xor16(a, k), k) =~= a);
}

/// Masking twice with the same key stream gives the blocks back.
pub proof fn lemma_masked_twice(key: Key, nonce: Seq<u8>, b: Seq<Block>, c: Seq<Block>, d: Seq<Block>)
    requires
        masked(key, nonce, b, c),
        masked(key, nonce, c, d),
    ensures
        d == b,
{
    assert forall|j: int| 0 <= j < b.len() implies d[j] == b[j] by {
        lemma_xor_twice(b[j]@, keystream(key, nonce, j));
        assert(d[j]@ == b[j]@);
        assert(d[j] =~= b[j]);
    }
    assert(d =~= b);
}

pub fn xor_block(a: &Block, b: &Block) -> (r: Block)
    ensures
        r@ == xor16(a@, b@),
{
    let mut r: Block = [0u8; 16];
    let mut i: usize = 0;
    while i < 16
        invariant
            i <= 16,
            forall|t: int| 0 <= t < i ==> r@[t] == a@[t] ^ b@[t],
        decreases 16 - i,
    {
        r[i] = a[i] ^ b[i];
        i = i + 1;
    }
    assert(r@ =~= xor16(a@, b@));
    r
}

pub fn blocks_eq(a: &Block, b: &Block) -> (r: bool)
    ensures
        r == (a@ == b@),
{
    let mut i: usize = 0;
    while i < 16
        invariant
            i <= 16,
            forall|t: int| 0 <= t < i ==> a@[t] == b@[t],
        decreases 16 - i,
    {
        if a[i] != b[i] {
            return false;
        }
        i = i + 1;
    }
    assert(a@ =~= b@);
    true
}

/// Relies on getrandom::getrandom: on success the buffer holds bytes from the
/// operating system's secure source. Nothing is promised of their values.
#[verifier::external_body]
fn random_block() -> (r: Option<Block>) {
    let mut b: Block = [0u8; 16];
    match getrandom::getrandom(&mut b) {
        Ok(()) => Some(b),
        Err(_) => None,
    }
}

/// Draws a fresh nonce; fails with `Io` when no secure randomness is available.
pub fn fresh_nonce() -> (r: Result<Block, ErrorKind>)
    ensures
        r is Err ==> r == Err::<Block, ErrorKind>(ErrorKind::Io),
{
    match random_block() {
        Some(b) => Ok(b),
        None => Err(ErrorKind::Io),
    }
}

/// Masks the blocks in place with the key stream of `nonce`.
pub fn apply_keystream(blocks: &mut Vec<Block>, nonce: &Block, key: &Key)
    ensures
        masked(*key, nonce@, old(blocks)@, final(blocks)@),
{
    let lo = read_word(nonce, 0);
    let hi = read_word(nonce, 8);
    let ghost orig = blocks@;
    let mut j: usize = 0;
    while j < blocks.len()
        invariant
            j <= blocks@.len(),
            blocks@.len() == orig.len(),
            lo == word_at(nonce@, 0),
            hi == word_at(nonce@, 8),
            forall|t: int| j <= t < orig.len() ==> blocks@[t] == orig[t],
            forall|t: int|
                0 <= t < j ==> (#[trigger] blocks@[t])@ == xor16(orig[t]@, keystream(*key, nonce@, t)),
        decreases blocks@.len() - j,
    {
        let ctr = block_of_words(lo.wrapping_add(j as u64), hi);
        assert(ctr@ == counter(nonce@, j as int));
        let ks = encrypt_block(key, &ctr);
        let m = xor_block(&blocks[j], &ks);
        blocks.set(j, m);
        j = j + 1;
    }
}

/// Computes the tag of ciphertext blocks.
pub fn compute_mac(blocks: &Vec<Block>, size: u32, nonce: &Block, key: &Key) -> (r: Block)
    ensures
        r@ == mac_of(*key, size, nonce@, blocks@),
{
    let b0 = block_of_words(size as u64, 0);
    let first = encrypt_block(key, &b0);
    let mut m = encrypt_block(key, &xor_block(&first, nonce));
    let mut j: usize = 0;
    while j < blocks.len()
        invariant
            j <= blocks@.len(),
            m@ == mac_chain(*key, mac_start(*key, size, nonce@), blocks@.take(j as int)),
        decreases blocks@.len() - j,
    {
        assert(blocks@.take(j + 1).drop_last() =~= blocks@.take(j as int));
        m = encrypt_block(key, &xor_block(&m, &blocks[j]));
        j = j + 1;
    }
    assert(blocks@.take(j as int) =~= blocks@);
    m
}

/// Encrypts blocks in place under `nonce` and returns the tag, which binds
/// the ciphertext to `size` (the extent's block count).
pub fn seal_with(blocks: &mut Vec<Block>, size: u32, nonce: &Block, key: &Key) -> (mac: Block)
    ensures
        masked(*key, nonce@, old(blocks)@, final(blocks)@),
        mac@ == mac_of(*key, size, nonce@, final(blocks)@),
{
    apply_keystream(blocks, nonce, key);
    compute_mac(blocks, size, nonce, key)
}

/// Checks the tag of ciphertext blocks and, when it matches, decrypts them in
/// place. On a mismatch the blocks are left as they were.
pub fn unseal(blocks: &mut Vec<Block>, size: u32, nonce: &Block, mac: &Block, key: &Key) -> (r: bool)
    ensures
        r == (mac@ == mac_of(*key, size, nonce@, old(blocks)@)),
        r ==> masked(*key, nonce@, old(blocks)@, final(blocks)@),
        !r ==> final(blocks)@ == old(blocks)@,
{
    let m = compute_mac(blocks, size, nonce, key);
    if !blocks_eq(&m, mac) {
        return false;
    }
    apply_keystream(blocks, nonce, key);
    true
}

} // verus!
