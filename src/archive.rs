use vstd::prelude::*;
use crate::types::{Block, Key, ErrorKind, Section, Descriptor, InfoHeader, HEADER_BLOCKS, VERSION, zero_block};
use crate::cipher::{word_at, word_bytes, read_word, block_of_words};
use crate::codec::{pack32, low32, high32, flat, bytes_from_blocks, lemma_pack32, lemma_word_round_trip};
use crate::crypt::{masked, mac_of, seal_with, unseal};

verus! {

/// The ciphertext of `section` inside `blocks`, when it lies inside.
pub open spec fn extent(blocks: Seq<Block>, section: Section) -> Seq<Block> {
    blocks.subrange(section.offset as int, section.end())
}

/// What reading `section` from `blocks` under `key` gives.
pub open spec fn reads_section(blocks: Seq<Block>, section: Section, key: Key, r: Result<Seq<Block>, ErrorKind>) -> bool {
    if section.end() > blocks.len() {
        r == Err::<Seq<Block>, ErrorKind>(ErrorKind::InvalidInput)
    } else if section.mac@ != mac_of(key, section.size, section.nonce@, extent(blocks, section)) {
        r == Err::<Seq<Block>, ErrorKind>(ErrorKind::InvalidData)
    } else {
        r matches Ok(p) && masked(key, section.nonce@, extent(blocks, section), p)
    }
}

pub open spec fn res_view(r: Result<Vec<Block>, ErrorKind>) -> Result<Seq<Block>, ErrorKind> {
    match r {
        Ok(v) => Ok(v@),
        Err(e) => Err(e),
    }
}

/// The bytes of a file's payload: its first `content_size` plaintext bytes.
pub open spec fn payload(plain: Seq<Block>, desc: Descriptor) -> Seq<u8> {
    flat(plain).take(if desc.content_size <= 16 * plain.len() { desc.content_size as int } else { 16 * plain.len() as int })
}

/// What reading the file `desc` from `blocks` gives.
pub open spec fn reads_data(blocks: Seq<Block>, desc: Descriptor, key: Key, r: Result<Vec<u8>, ErrorKind>) -> bool {
    if desc.is_dir_spec() {
        r == Err::<Vec<u8>, ErrorKind>(ErrorKind::InvalidInput)
    } else if desc.section.end() > blocks.len() {
        r == Err::<Vec<u8>, ErrorKind>(ErrorKind::InvalidInput)
    } else if desc.section.mac@ != mac_of(key, desc.section.size, desc.section.nonce@, extent(blocks, desc.section)) {
        r == Err::<Vec<u8>, ErrorKind>(ErrorKind::InvalidData)
    } else {
        r matches Ok(v) && exists|p: Seq<Block>| masked(key, desc.section.nonce@, extent(blocks, desc.section), p) && v@ == payload(p, desc)
    }
}

/// Copies the extent of `section` out of `blocks`, checks its MAC and decrypts it.
pub fn read_section(blocks: &Vec<Block>, section: &Section, key: &Key) -> (r: Result<Vec<Block>, ErrorKind>)
    ensures
        reads_section(blocks@, *section, *key, res_view(r)),
{
    let start = section.offset as usize;
    let n = section.size as usize;
    if n > blocks.len() || start > blocks.len() - n {
        return Err(ErrorKind::InvalidInput);
    }
    let bl = blocks.len();
    let mut c: Vec<Block> = Vec::new();
    let mut j: usize = 0;
    while j < n
        invariant
            j <= n,
            bl == blocks@.len(),
            start + n <= blocks@.len(),
            c@ == blocks@.subrange(start as int, start + j),
        decreases n - j,
    {
        c.push(blocks[start + j]);
        assert(blocks@.subrange(start as int, start + j + 1) =~= blocks@.subrange(start as int, start + j).push(blocks@[start + j]));
        j = j + 1;
    }
    if unseal(&mut c, section.size, &section.nonce, &section.mac, key) {
        Ok(c)
    } else {
        Err(ErrorKind::InvalidData)
    }
}

/// Decrypts the payload of a file descriptor and returns its bytes.
pub fn read_data(blocks: &Vec<Block>, desc: &Descriptor, key: &Key) -> (r: Result<Vec<u8>, ErrorKind>)
    ensures
        reads_data(blocks@, *desc, *key, r),
{
    if desc.is_dir() {
        return Err(ErrorKind::InvalidInput);
    }
    let plain = match read_section(blocks, &desc.section, key) {
        Ok(p) => p,
        Err(e) => {
            return Err(e);
        },
    };
    assert(plain@.len() == desc.section.size);
    let v = bytes_from_blocks(&plain, desc.content_size as usize);
    assert(v@ == payload(plain@, *desc));
    Ok(v)
}

/// Decrypts the payload of a file descriptor and copies the bytes from
/// `byte_offset` on into all of `dest`.
pub fn read_data_into(blocks: &Vec<Block>, desc: &Descriptor, key: &Key, byte_offset: usize, dest: &mut [u8]) -> (r: Result<(), ErrorKind>)
    ensures
        ({
            let rd = if desc.is_dir_spec() {
                Err::<Seq<Block>, ErrorKind>(ErrorKind::InvalidInput)
            } else if desc.section.end() > blocks@.len() {
                Err::<Seq<Block>, ErrorKind>(ErrorKind::InvalidInput)
            } else if desc.section.mac@ != mac_of(*key, desc.section.size, desc.section.nonce@, extent(blocks@, desc.section)) {
                Err::<Seq<Block>, ErrorKind>(ErrorKind::InvalidData)
            } else {
                Ok::<Seq<Block>, ErrorKind>(Seq::empty())
            };
            match rd {
                Err(e) => r == Err::<(), ErrorKind>(e) && final(dest)@ == old(dest)@,
                Ok(_) => if byte_offset + old(dest)@.len() > 16 * desc.section.size {
                    r == Err::<(), ErrorKind>(ErrorKind::InvalidInput) && final(dest)@ == old(dest)@
                } else {
                    r is Ok && exists|p: Seq<Block>| masked(*key, desc.section.nonce@, extent(blocks@, desc.section), p)
                        && final(dest)@ == flat(p).subrange(byte_offset as int, byte_offset + old(dest)@.len())
                },
            }
        }),
{
    if desc.is_dir() {
        return Err(ErrorKind::InvalidInput);
    }
    let plain = match read_section(blocks, &desc.section, key) {
        Ok(p) => p,
        Err(e) => {
            return Err(e);
        },
    };
    assert(plain@.len() == desc.section.size);
    let n = dest.len();
    if byte_offset as u128 + n as u128 > 16 * plain.len() as u128 {
        return Err(ErrorKind::InvalidInput);
    }
    let mut t: usize = 0;
    while t < n
        invariant
            t <= n == dest@.len(),
            byte_offset + n <= 16 * plain@.len(),
            forall|s: int| 0 <= s < t ==> dest@[s] == flat(plain@)[byte_offset + s],
        decreases n - t,
    {
        let b: u128 = byte_offset as u128 + t as u128;
        let bi = (b / 16) as usize;
        let bo = (b % 16) as usize;
        dest[t] = plain[bi][bo];
        t = t + 1;
    }
    assert(dest@ =~= flat(plain@).subrange(byte_offset as int, byte_offset + n));
    Ok(())
}

/// The info header held by the plaintext of a header's last six blocks.
pub open spec fn decode_info(b: Seq<Block>) -> InfoHeader {
    let w0 = word_at(b[0]@, 0);
    let w1 = word_at(b[0]@, 8);
    InfoHeader {
        version: low32(w0),
        reserved: high32(w0),
        directory: Section { offset: low32(w1), size: high32(w1), nonce: b[1], mac: b[2] },
    }
}

/// Six blocks that hold `info`: version, reserved word and the directory's
/// extent, then its nonce and MAC, then zeros.
pub open spec fn encodes_info(b: Seq<Block>, info: InfoHeader) -> bool {
    &&& b.len() == 6
    &&& b[0]@ == word_bytes(pack32(info.version, info.reserved)) + word_bytes(pack32(info.directory.offset, info.directory.size))
    &&& b[1] == info.directory.nonce
    &&& b[2] == info.directory.mac
    &&& b[3] == zero_block() && b[4] == zero_block() && b[5] == zero_block()
}

pub proof fn lemma_decode_info(b: Seq<Block>, info: InfoHeader)
    requires
        encodes_info(b, info),
    ensures
        decode_info(b) == info,
{
    lemma_word_round_trip(pack32(info.version, info.reserved), pack32(info.directory.offset, info.directory.size));
    lemma_pack32(info.version, info.reserved);
    lemma_pack32(info.directory.offset, info.directory.size);
}

pub fn encode_info(info: &InfoHeader) -> (r: Vec<Block>)
    ensures
        encodes_info(r@, *info),
{
    let mut r: Vec<Block> = Vec::new();
    r.push(block_of_words(
        (info.version as u64) | ((info.reserved as u64) << 32u64),
        (info.directory.offset as u64) | ((info.directory.size as u64) << 32u64),
    ));
    r.push(info.directory.nonce);
    r.push(info.directory.mac);
    r.push([0u8; 16]);
    r.push([0u8; 16]);
    r.push([0u8; 16]);
    r
}

pub fn decode_info_blocks(b: &Vec<Block>) -> (r: InfoHeader)
    requires
        b@.len() >= 3,
    ensures
        r == decode_info(b@),
{
    let w0 = read_word(&b[0], 0);
    let w1 = read_word(&b[0], 8);
    InfoHeader {
        version: #[verifier::truncate] ((w0 & 0xffff_ffffu64) as u32),
        reserved: #[verifier::truncate] ((w0 >> 32u64) as u32),
        directory: Section {
            offset: #[verifier::truncate] ((w1 & 0xffff_ffffu64) as u32),
            size: #[verifier::truncate] ((w1 >> 32u64) as u32),
            nonce: b[1],
            mac: b[2],
        },
    }
}

/// An encrypted header: nonce, MAC, then the sealed info blocks. The MAC
/// binds the header's own extent of eight blocks.
pub open spec fn seals_header(h: Seq<Block>, info: InfoHeader, key: Key) -> bool {
    &&& h.len() == HEADER_BLOCKS
    &&& exists|plain: Seq<Block>| encodes_info(plain, info) && masked(key, h[0]@, plain, h.subrange(2, 8))
    &&& h[1]@ == mac_of(key, HEADER_BLOCKS as u32, h[0]@, h.subrange(2, 8))
}

/// Encrypts `info` into an eight-block header under `nonce`.
pub fn header_sealed(info: &InfoHeader, nonce: &Block, key: &Key) -> (h: Vec<Block>)
    ensures
        seals_header(h@, *info, *key),
        h@[0] == *nonce,
{
    let mut body = encode_info(info);
    let ghost plain = body@;
    let mac = seal_with(&mut body, HEADER_BLOCKS as u32, nonce, key);
    let mut h: Vec<Block> = Vec::new();
    h.push(*nonce);
    h.push(mac);
    let mut j: usize = 0;
    while j < 6
        invariant
            j <= 6,
            body@.len() == 6,
            h@.len() == 2 + j,
            h@[0] == *nonce,
            h@[1] == mac,
            h@.subrange(2, 2 + j) == body@.take(j as int),
        decreases 6 - j,
    {
        h.push(body[j]);
        assert(h@.subrange(2, 2 + j + 1) =~= body@.take(j + 1));
        j = j + 1;
    }
    assert(h@.subrange(2, 8) =~= body@);
    assert(encodes_info(plain, *info));
    h
}

/// What opening the header at the start of `blocks` gives.
pub open spec fn opens_header(blocks: Seq<Block>, key: Key, r: Result<InfoHeader, ErrorKind>) -> bool {
    if blocks.len() < HEADER_BLOCKS {
        r == Err::<InfoHeader, ErrorKind>(ErrorKind::InvalidData)
    } else if blocks[1]@ != mac_of(key, HEADER_BLOCKS as u32, blocks[0]@, blocks.subrange(2, 8)) {
        r == Err::<InfoHeader, ErrorKind>(ErrorKind::InvalidData)
    } else {
        exists|plain: Seq<Block>| {
            &&& masked(key, blocks[0]@, blocks.subrange(2, 8), plain)
            &&& if decode_info(plain).version == VERSION {
                r == Ok::<InfoHeader, ErrorKind>(decode_info(plain))
            } else {
                r == Err::<InfoHeader, ErrorKind>(ErrorKind::InvalidData)
            }
        }
    }
}

/// Authenticates and decrypts the header at the start of `blocks`.
///
/// Fails with `InvalidData` when there is no room for a header, its MAC does
/// not verify under `key`, or its version is not the one this library writes.
pub fn open_header(blocks: &Vec<Block>, key: &Key) -> (r: Result<InfoHeader, ErrorKind>)
    ensures
        opens_header(blocks@, *key, r),
{
    if blocks.len() < HEADER_BLOCKS {
        return Err(ErrorKind::InvalidData);
    }
    let mut body: Vec<Block> = Vec::new();
    let mut j: usize = 2;
    while j < 8
        invariant
            2 <= j <= 8,
            blocks@.len() >= 8,
            body@ == blocks@.subrange(2, j as int),
        decreases 8 - j,
    {
        body.push(blocks[j]);
        assert(blocks@.subrange(2, j + 1) =~= blocks@.subrange(2, j as int).push(blocks@[j as int]));
        j = j + 1;
    }
    if !unseal(&mut body, HEADER_BLOCKS as u32, &blocks[0], &blocks[1], key) {
        return Err(ErrorKind::InvalidData);
    }
    let info = decode_info_blocks(&body);
    if info.version != VERSION {
        return Err(ErrorKind::InvalidData);
    }
    Ok(info)
}

} // verus!
