use vstd::prelude::*;
use crate::types::{Block, Name, Descriptor, Section};
use crate::cipher::{word_at, word_bytes, read_word, block_of_words};

verus! {

pub open spec fn pack32(lo: u32, hi: u32) -> u64 {
    (lo as u64) | ((hi as u64) << 32u64)
}

pub open spec fn low32(w: u64) -> u32 {
    (w & 0xffff_ffffu64) as u32
}

pub open spec fn high32(w: u64) -> u32 {
    (w >> 32u64) as u32
}

pub proof fn lemma_pack32(lo: u32, hi: u32)
    ensures
        low32(pack32(lo, hi)) == lo,
        high32(pack32(lo, hi)) == hi,
        (pack32(lo as u32, hi) & 0xffu64) as u8 == (lo & 0xffu32) as u8,
{
    assert(((lo as u64) | ((hi as u64) << 32u64)) & 0xffff_ffffu64 == lo as u64) by (bit_vector);
    assert(((lo as u64) | ((hi as u64) << 32u64)) >> 32u64 == hi as u64) by (bit_vector);
    assert((((lo as u64) | ((hi as u64) << 32u64)) & 0xffu64) as u8 == (lo & 0xffu32) as u8)
        by (bit_vector);
}

pub proof fn lemma_word_round_trip(w: u64, v: u64)
    ensures
        word_at(word_bytes(w) + word_bytes(v), 0) == w,
        word_at(word_bytes(w) + word_bytes(v), 8) == v,
{
    assert(((w as u8) as u64) | ((((w >> 8u64) as u8) as u64) << 8u64) | ((((w >> 16u64) as u8) as u64)
        << 16u64) | ((((w >> 24u64) as u8) as u64) << 24u64) | ((((w >> 32u64) as u8) as u64)
        << 32u64) | ((((w >> 40u64) as u8) as u64) << 40u64) | ((((w >> 48u64) as u8) as u64)
        << 48u64) | ((((w >> 56u64) as u8) as u64) << 56u64) == w) by (bit_vector);
    assert(((v as u8) as u64) | ((((v >> 8u64) as u8) as u64) << 8u64) | ((((v >> 16u64) as u8) as u64)
        << 16u64) | ((((v >> 24u64) as u8) as u64) << 24u64) | ((((v >> 32u64) as u8) as u64)
        << 32u64) | ((((v >> 40u64) as u8) as u64) << 40u64) | ((((v >> 48u64) as u8) as u64)
        << 48u64) | ((((v >> 56u64) as u8) as u64) << 56u64) == v) by (bit_vector);
}

/// The descriptor stored in blocks `4i .. 4i + 4`.
pub open spec fn decode_desc(b: Seq<Block>, i: int) -> Descriptor {
    let w0 = word_at(b[4 * i + 1]@, 0);
    let w1 = word_at(b[4 * i + 1]@, 8);
    Descriptor {
        name: Name { bytes: b[4 * i] },
        content_type: (w0 & 0xffu64) as u8,
        content_size: high32(w0),
        section: Section { offset: low32(w1), size: high32(w1), nonce: b[4 * i + 2], mac: b[4 * i + 3] },
    }
}

/// Blocks `4i .. 4i + 4` hold `d`: its name, then its type and size with the
/// section's extent, then the section's nonce and MAC.
pub open spec fn encodes_desc(b: Seq<Block>, i: int, d: Descriptor) -> bool {
    &&& b[4 * i] == d.name.bytes
    &&& b[4 * i + 1]@ == word_bytes(pack32(d.content_type as u32, d.content_size)) + word_bytes(
        pack32(d.section.offset, d.section.size),
    )
    &&& b[4 * i + 2] == d.section.nonce
    &&& b[4 * i + 3] == d.section.mac
}

/// The directory stored in a run of blocks, four per descriptor.
pub open spec fn decode_dir(b: Seq<Block>) -> Seq<Descriptor> {
    Seq::new(b.len() / 4, |i: int| decode_desc(b, i))
}

pub open spec fn encodes_dir(b: Seq<Block>, d: Seq<Descriptor>) -> bool {
    &&& b.len() == 4 * d.len()
    &&& forall|i: int| 0 <= i < d.len() ==> encodes_desc(b, i, #[trigger] d[i])
}

pub proof fn lemma_decode_encoded_desc(b: Seq<Block>, i: int, d: Descriptor)
    requires
        0 <= i,
        4 * i + 4 <= b.len(),
        encodes_desc(b, i, d),
    ensures
        decode_desc(b, i) == d,
{
    lemma_word_round_trip(
        pack32(d.content_type as u32, d.content_size),
        pack32(d.section.offset, d.section.size),
    );
    lemma_pack32(d.content_type as u32, d.content_size);
    lemma_pack32(d.section.offset, d.section.size);
    let c = d.content_type;
    assert(((c as u32) & 0xffu32) as u8 == c) by (bit_vector);
}

/// Decoding an encoded directory gives it back.
pub proof fn lemma_decode_encoded_dir(b: Seq<Block>, d: Seq<Descriptor>)
    requires
        encodes_dir(b, d),
    ensures
        decode_dir(b) == d,
{
    assert forall|i: int| 0 <= i < d.len() implies decode_dir(b)[i] == d[i] by {
        lemma_decode_encoded_desc(b, i, d[i]);
    }
    assert(decode_dir(b) =~= d);
}

pub fn encode_desc(d: &Descriptor, out: &mut Vec<Block>)
    ensures
        final(out)@.len() == old(out)@.len() + 4,
        final(out)@.take(old(out)@.len() as int) == old(out)@,
        encodes_desc(final(out)@, (old(out)@.len() / 4) as int, *d) || old(out)@.len() % 4 != 0,
{
    let ghost n = out@.len();
    out.push(d.name.bytes);
    out.push(
        block_of_words(
            (d.content_type as u64) | ((d.content_size as u64) << 32u64),
            (d.section.offset as u64) | ((d.section.size as u64) << 32u64),
        ),
    );
    out.push(d.section.nonce);
    out.push(d.section.mac);
    assert(out@.take(n as int) =~= old(out)@);
}

/// The directory as blocks, four per descriptor.
pub fn encode_dir(d: &Vec<Descriptor>) -> (r: Vec<Block>)
    requires
        d@.len() * 4 <= usize::MAX,
    ensures
        encodes_dir(r@, d@),
{
    let mut r: Vec<Block> = Vec::new();
    let mut i: usize = 0;
    while i < d.len()
        invariant
            i <= d@.len(),
            d@.len() * 4 <= usize::MAX,
            r@.len() == 4 * i,
            forall|t: int| 0 <= t < i ==> encodes_desc(r@, t, #[trigger] d@[t]),
        decreases d@.len() - i,
    {
        let ghost before = r@;
        encode_desc(&d[i], &mut r);
        assert forall|t: int| 0 <= t < i + 1 implies encodes_desc(r@, t, #[trigger] d@[t]) by {
            if t < i {
                assert(r@[4 * t] == before[4 * t]);
                assert(r@[4 * t + 1] == before[4 * t + 1]);
                assert(r@[4 * t + 2] == before[4 * t + 2]);
                assert(r@[4 * t + 3] == before[4 * t + 3]);
            }
        }
        i = i + 1;
    }
    r
}

pub fn decode_desc_at(b: &Vec<Block>, i: usize) -> (r: Descriptor)
    requires
        4 * i + 4 <= b@.len(),
    ensures
        r == decode_desc(b@, i as int),
{
    let _n = b.len();
    let w0 = read_word(&b[4 * i + 1], 0);
    let w1 = read_word(&b[4 * i + 1], 8);
    Descriptor {
        name: Name { bytes: b[4 * i] },
        content_type: #[verifier::truncate] ((w0 & 0xffu64) as u8),
        content_size: #[verifier::truncate] ((w0 >> 32u64) as u32),
        section: Section {
            offset: #[verifier::truncate] ((w1 & 0xffff_ffffu64) as u32),
            size: #[verifier::truncate] ((w1 >> 32u64) as u32),
            nonce: b[4 * i + 2],
            mac: b[4 * i + 3],
        },
    }
}

/// The directory held by a run of blocks; trailing blocks short of a whole
/// descriptor are ignored.
pub fn decode_dir_blocks(b: &Vec<Block>) -> (r: Vec<Descriptor>)
    ensures
        r@ == decode_dir(b@),
{
    let n = b.len() / 4;
    let mut r: Vec<Descriptor> = Vec::new();
    let mut i: usize = 0;
    while i < n
        invariant
            n == b@.len() / 4,
            i <= n,
            r@.len() == i,
            forall|t: int| 0 <= t < i ==> r@[t] == decode_desc(b@, t),
        decreases n - i,
    {
        r.push(decode_desc_at(b, i));
        i = i + 1;
    }
    assert(r@ =~= decode_dir(b@));
    r
}

/// The bytes of a run of blocks, in order.
pub open spec fn flat(b: Seq<Block>) -> Seq<u8> {
    Seq::new(16 * b.len(), |t: int| b[t / 16][t % 16])
}

/// The number of blocks that `n` bytes fill.
pub open spec fn blocks_for(n: int) -> int {
    (n + 15) / 16
}

/// Blocks holding `data`, zero-padded to whole blocks.
pub open spec fn holds_bytes(b: Seq<Block>, data: Seq<u8>) -> bool {
    &&& b.len() == blocks_for(data.len() as int)
    &&& forall|t: int| 0 <= t < 16 * b.len() ==> #[trigger] flat(b)[t] == if t < data.len() { data[t] } else { 0 }
}

/// Packs bytes into zero-padded blocks.
pub fn blocks_from_bytes(data: &[u8]) -> (r: Vec<Block>)
    ensures
        holds_bytes(r@, data@),
{
    let dl = data.len();
    let n = dl / 16 + if dl % 16 == 0 { 0 } else { 1 };
    let mut r: Vec<Block> = Vec::new();
    let mut j: usize = 0;
    while j < n
        invariant
            n == blocks_for(data@.len() as int),
            dl == data@.len(),
            j <= n,
            r@.len() == j,
            forall|t: int| 0 <= t < 16 * j ==> #[trigger] r@[t / 16][t % 16] == if t < data@.len() { data@[t] } else { 0 },
        decreases n - j,
    {
        let mut b: Block = [0u8; 16];
        assert(16 * j < data@.len()) by (nonlinear_arith)
            requires
                j < n,
                n == (data@.len() + 15) / 16,
        ;
        let base = 16 * j;
        let mut k: usize = 0;
        while k < 16
            invariant
                j < n,
                n == blocks_for(data@.len() as int),
                base == 16 * j,
                base < data@.len(),
                k <= 16,
                forall|s: int| 0 <= s < k ==> b@[s] == if 16 * j + s < data@.len() { data@[16 * j + s] } else { 0 },
            decreases 16 - k,
        {
            if k < data.len() - base {
                b[k] = data[base + k];
            } else {
                b[k] = 0;
            }
            k = k + 1;
        }
        let ghost before = r@;
        r.push(b);
        assert forall|t: int| 0 <= t < 16 * (j + 1) implies #[trigger] r@[t / 16][t % 16] == if t < data@.len() { data@[t] } else { 0 } by {
            if t < 16 * j {
                assert(r@[t / 16] == before[t / 16]);
            } else {
                assert(t / 16 == j as int);
                assert(t % 16 == t - 16 * j);
            }
        }
        j = j + 1;
    }
    r
}

/// The first `len` bytes of a run of blocks, or all of them when fewer.
pub fn bytes_from_blocks(b: &Vec<Block>, len: usize) -> (r: Vec<u8>)
    ensures
        r@ == flat(b@).take(if len <= 16 * b@.len() { len as int } else { 16 * b@.len() as int }),
{
    let n = if b.len() > len / 16 { len } else { 16 * b.len() };
    assert(n == if len <= 16 * b@.len() { len as int } else { 16 * b@.len() as int });
    let mut r: Vec<u8> = Vec::new();
    let mut t: usize = 0;
    while t < n
        invariant
            n <= 16 * b@.len(),
            t <= n,
            r@ == flat(b@).take(t as int),
        decreases n - t,
    {
        r.push(b[t / 16][t % 16]);
        assert(flat(b@).take(t + 1) =~= flat(b@).take(t as int).push(flat(b@)[t as int]));
        t = t + 1;
    }
    r
}

} // verus!
