use vstd::prelude::*;
use vstd::utf8::{valid_utf8, decode_utf8};
use crate::types::{Block, Key, ErrorKind, Section, Descriptor, InfoHeader, HEADER_BLOCKS, BLOCK_SIZE, VERSION};
use crate::codec::{decode_dir, encodes_dir, encode_dir, decode_dir_blocks, blocks_from_bytes, holds_bytes, blocks_for, flat};
use crate::crypt::{masked, mac_of, seal_with, unseal, fresh_nonce};
use crate::archive::{opens_header, open_header, seals_header, header_sealed, reads_data, reads_section, res_view, extent, read_section, read_data, read_data_into};
use crate::dir::{locate, Located, lemma_creates_unique, creates, create, find_path, find_file, find_desc, walk_top, Walk, is_chain, removes, remove, opt_view, links, create_link, moves, move_file};
use crate::text::utf8_string;
use crate::fsck::{fsck, fsck_ok};
use crate::display::{DirFmt, TreeArt, display_children, displays};

verus! {

/// Where the directory of an archive lies: from the offset that its header
/// gives, four blocks per descriptor.
pub open spec fn dir_end(info: InfoHeader) -> int {
    info.directory.offset + 4 * info.directory.size
}

/// What opening `blocks` as an archive gives: the blocks without a trailing
/// directory, and the decrypted directory; or the blocks handed back.
pub open spec fn opens_archive(blocks: Seq<Block>, key: Key, r: Result<(Seq<Block>, Seq<Descriptor>), Seq<Block>>) -> bool {
    if r is Ok {
        let b = r->Ok_0.0;
        let d = r->Ok_0.1;
        &&& b.len() >= HEADER_BLOCKS
        &&& b.len() <= u32::MAX
        &&& exists|info: InfoHeader, plain: Seq<Block>| #[trigger] opened_with(blocks, key, info, plain, b, d)
    } else {
        &&& r->Err_0 == blocks
        &&& forall|info: InfoHeader| #[trigger] opens_header(blocks, key, Ok(info)) ==> {
            ||| dir_end(info) > blocks.len()
            ||| blocks.len() > u32::MAX
            ||| info.directory.mac@ != mac_of(key, info.directory.size, info.directory.nonce@,
                blocks.subrange(info.directory.offset as int, dir_end(info)))
        }
    }
}

/// `blocks` open under `key` with header `info` and directory plaintext `plain`,
/// giving the blocks `b` and the directory `d`.
pub open spec fn opened_with(blocks: Seq<Block>, key: Key, info: InfoHeader, plain: Seq<Block>, b: Seq<Block>, d: Seq<Descriptor>) -> bool {
            &&& opens_header(blocks, key, Ok(info))
            &&& dir_end(info) <= blocks.len() <= u32::MAX
            &&& info.directory.mac@ == mac_of(key, info.directory.size, info.directory.nonce@,
                blocks.subrange(info.directory.offset as int, dir_end(info)))
            &&& masked(key, info.directory.nonce@, blocks.subrange(info.directory.offset as int, dir_end(info)), plain)
            &&& d == decode_dir(plain)
            &&& b == if blocks.len() == dir_end(info) && info.directory.offset >= HEADER_BLOCKS {
                blocks.take(info.directory.offset as int)
            } else {
                blocks
            }
}

pub open spec fn opened_view(r: Result<(Vec<Block>, Vec<Descriptor>), Vec<Block>>) -> Result<(Seq<Block>, Seq<Descriptor>), Seq<Block>> {
    match r {
        Ok((b, d)) => Ok((b@, d@)),
        Err(b) => Err(b@),
    }
}

/// Authenticates and decrypts the header and the directory of an archive.
/// When the directory is the last thing in the blocks it is cut off, so that
/// new data goes where it was. On any failure the blocks are handed back.
#[verifier::rlimit(60)]
pub fn open_blocks(blocks: Vec<Block>, key: &Key) -> (r: Result<(Vec<Block>, Vec<Descriptor>), Vec<Block>>)
    ensures
        opens_archive(blocks@, *key, opened_view(r)),
{
    let mut blocks = blocks;
    let info = match open_header(&blocks, key) {
        Ok(info) => info,
        Err(_) => {
            return Err(blocks);
        },
    };
    if blocks.len() as u64 > u32::MAX as u64 {
        return Err(blocks);
    }
    let start = info.directory.offset as u64;
    let end = start + 4 * info.directory.size as u64;
    if end > blocks.len() as u64 {
        return Err(blocks);
    }
    let start = start as usize;
    let end = end as usize;
    let mut c: Vec<Block> = Vec::new();
    let mut j = start;
    while j < end
        invariant
            start <= j <= end <= blocks@.len(),
            c@ == blocks@.subrange(start as int, j as int),
        decreases end - j,
    {
        c.push(blocks[j]);
        assert(blocks@.subrange(start as int, j + 1) =~= blocks@.subrange(start as int, j as int).push(blocks@[j as int]));
        j = j + 1;
    }
    if !unseal(&mut c, info.directory.size, &info.directory.nonce, &info.directory.mac, key) {
        return Err(blocks);
    }
    let directory = decode_dir_blocks(&c);
    let ghost orig = blocks@;
    let ghost dplain = c@;
    if blocks.len() == end && start >= HEADER_BLOCKS {
        blocks.truncate(start);
        assert(blocks@ == orig.take(start as int));
    }
    let ghost rr = Ok::<(Seq<Block>, Seq<Descriptor>), Seq<Block>>((blocks@, directory@));
    assert(opened_with(orig, *key, info, dplain, rr->Ok_0.0, rr->Ok_0.1));
    assert(opens_archive(orig, *key, rr));
    Ok((blocks, directory))
}

/// Splits bytes into blocks; `None` unless the length is a whole number of blocks.
pub fn blocks_of_bytes(bytes: &[u8]) -> (r: Option<Vec<Block>>)
    ensures
        bytes@.len() % 16 != 0 ==> r is None,
        bytes@.len() % 16 == 0 ==> (r matches Some(b) && b@.len() == bytes@.len() / 16 && flat(b@) == bytes@),
{
    if bytes.len() % BLOCK_SIZE != 0 {
        return None;
    }
    let b = blocks_from_bytes(bytes);
    assert(flat(b@) =~= bytes@);
    Some(b)
}

/// What finishing gives: the archive whose header names the encrypted
/// directory, placed after the data blocks that it keeps.
pub open spec fn finishes(blocks: Seq<Block>, dir: Seq<Descriptor>, key: Key, out: Seq<Block>) -> bool {
    exists|info: InfoHeader, plain: Seq<Block>| #[trigger] finished_with(blocks, dir, key, out, info, plain)
}

/// `out` is `blocks` finished with header `info` and directory plaintext `plain`.
pub open spec fn finished_with(blocks: Seq<Block>, dir: Seq<Descriptor>, key: Key, out: Seq<Block>, info: InfoHeader, plain: Seq<Block>) -> bool {
    let high = if blocks.len() < HEADER_BLOCKS { HEADER_BLOCKS as int } else { blocks.len() as int };
    {
        &&& info.version == VERSION && info.reserved == 0
        &&& info.directory.offset == high && info.directory.size == dir.len()
        &&& out.len() == high + 4 * dir.len()
        &&& seals_header(out.take(HEADER_BLOCKS as int), info, key)
        &&& forall|t: int| HEADER_BLOCKS <= t < blocks.len() ==> out[t] == blocks[t]
        &&& encodes_dir(plain, dir)
        &&& masked(key, info.directory.nonce@, plain, out.skip(high))
        &&& info.directory.mac@ == mac_of(key, info.directory.size, info.directory.nonce@, out.skip(high))
    }
}

/// `out` finishes `blocks` and `dir` with the directory sealed under `dn` and
/// the header under `hn`.
pub open spec fn finishes_under(blocks: Seq<Block>, dir: Seq<Descriptor>, key: Key, out: Seq<Block>, dn: Block, hn: Block) -> bool {
    &&& out.len() >= HEADER_BLOCKS
    &&& out[0] == hn
    &&& exists|info: InfoHeader, plain: Seq<Block>| #[trigger] finished_with(blocks, dir, key, out, info, plain) && info.directory.nonce == dn
}

/// The block where finishing places the directory: after the data, and never
/// inside the header.
pub open spec fn finish_mark(blocks: Seq<Block>) -> int {
    if blocks.len() < HEADER_BLOCKS { HEADER_BLOCKS as int } else { blocks.len() as int }
}

/// Encrypts the directory, places it after the blocks and writes a header that
/// names it. Fails with `InvalidInput` when an offset would not fit in 32 bits,
/// and with `Io` when no nonce can be drawn.
pub fn finish_blocks(blocks: Vec<Block>, dir: &Vec<Descriptor>, key: &Key) -> (r: Result<Vec<Block>, ErrorKind>)
    ensures
        finish_mark(blocks@) + 4 * dir@.len() > u32::MAX ==> r == Err::<Vec<Block>, ErrorKind>(ErrorKind::InvalidInput),
        finish_mark(blocks@) + 4 * dir@.len() <= u32::MAX ==> match r {
            Ok(out) => finishes(blocks@, dir@, *key, out@) && exists|dn: Block, hn: Block| finishes_under(blocks@, dir@, *key, out@, dn, hn),
            Err(e) => e == ErrorKind::Io,
        },
{
    if (if blocks.len() < HEADER_BLOCKS { HEADER_BLOCKS } else { blocks.len() }) as u128 + 4 * dir.len() as u128 > u32::MAX as u128 {
        return Err(ErrorKind::InvalidInput);
    }
    let dn = match fresh_nonce() {
        Ok(n) => n,
        Err(e) => {
            return Err(e);
        },
    };
    let hn = match fresh_nonce() {
        Ok(n) => n,
        Err(e) => {
            return Err(e);
        },
    };
    let ghost b0 = blocks@;
    let r = finish_sealed(blocks, dir, key, &dn, &hn);
    match r {
        Ok(out) => {
            assert(finishes_under(b0, dir@, *key, out@, dn, hn));
            Ok(out)
        },
        Err(e) => Err(e),
    }
}

/// Encrypts the directory under `dn`, places it after the blocks and writes a
/// header under `hn` that names it. Fails with `InvalidInput` exactly when an
/// offset would not fit in 32 bits.
#[verifier::rlimit(60)]
pub fn finish_sealed(blocks: Vec<Block>, dir: &Vec<Descriptor>, key: &Key, dn: &Block, hn: &Block) -> (r: Result<Vec<Block>, ErrorKind>)
    ensures
        finish_mark(blocks@) + 4 * dir@.len() > u32::MAX ==> r == Err::<Vec<Block>, ErrorKind>(ErrorKind::InvalidInput),
        finish_mark(blocks@) + 4 * dir@.len() <= u32::MAX ==> (r matches Ok(out) && finishes(blocks@, dir@, *key, out@)
            && finishes_under(blocks@, dir@, *key, out@, *dn, *hn)),
{
    let mut blocks = blocks;
    let ghost orig = blocks@;
    while blocks.len() < HEADER_BLOCKS
        invariant
            blocks@.len() <= HEADER_BLOCKS || blocks@.len() == orig.len(),
            blocks@.take(orig.len() as int) == orig || orig.len() > blocks@.len(),
            orig.len() <= blocks@.len(),
            forall|t: int| orig.len() <= t < blocks@.len() ==> blocks@[t] == crate::types::zero_block(),
            blocks@.take(orig.len() as int) == orig,
        decreases HEADER_BLOCKS - blocks@.len(),
    {
        blocks.push([0u8; 16]);
    }
    let high = blocks.len();
    if high as u128 + 4 * dir.len() as u128 > u32::MAX as u128 {
        return Err(ErrorKind::InvalidInput);
    }
    let mut c = encode_dir(dir);
    let ghost plain = c@;
    let mac = seal_with(&mut c, dir.len() as u32, dn, key);
    let nonce = *dn;
    let info = InfoHeader {
        version: VERSION,
        reserved: 0,
        directory: Section { offset: high as u32, size: dir.len() as u32, nonce, mac },
    };
    let h = header_sealed(&info, hn, key);
    let mut out: Vec<Block> = Vec::new();
    let mut t: usize = 0;
    while t < high + c.len()
        invariant
            t <= high + c@.len(),
            h@.len() == HEADER_BLOCKS,
            blocks@.len() == high,
            HEADER_BLOCKS <= high,
            high + c@.len() <= u32::MAX,
            out@.len() == t,
            forall|s: int| 0 <= s < t ==> #[trigger] out@[s] == if s < HEADER_BLOCKS { h@[s] } else if s < high { blocks@[s] } else { c@[s - high] },
        decreases high + c@.len() - t,
    {
        if t < HEADER_BLOCKS {
            out.push(h[t]);
        } else if t < high {
            out.push(blocks[t]);
        } else {
            out.push(c[t - high]);
        }
        t = t + 1;
    }
    assert(out@.take(HEADER_BLOCKS as int) =~= h@);
    assert(out@.skip(high as int) =~= c@);
    assert(out@.len() == high + 4 * dir@.len());
    assert(seals_header(out@.take(HEADER_BLOCKS as int), info, *key));
    assert(forall|t: int| HEADER_BLOCKS <= t < orig.len() ==> out@[t] == orig[t]);
    assert(encodes_dir(plain, dir@));
    assert(masked(*key, info.directory.nonce@, plain, out@.skip(high as int)));
    assert(finished_with(orig, dir@, *key, out@, info, plain));
    assert(out@[0] == h@[0]);
    assert(finishes_under(orig, dir@, *key, out@, *dn, *hn));
    Ok(out)
}

/// An archive held entirely in memory, open for editing.
#[derive(Clone, Debug)]
pub struct MemoryEditor {
    blocks: Vec<Block>,
    directory: Vec<Descriptor>,
}

impl MemoryEditor {
    /// The archive's blocks: the header's room and the data written so far.
    pub closed spec fn blocks(&self) -> Seq<Block> {
        self.blocks@
    }

    /// The decrypted directory.
    pub closed spec fn dir(&self) -> Seq<Descriptor> {
        self.directory@
    }

    /// Room for the header comes first, and every offset fits in 32 bits.
    pub open spec fn wf(&self) -> bool {
        HEADER_BLOCKS <= self.blocks().len() <= u32::MAX
    }

    /// An empty archive: room for the header and an empty directory.
    pub fn new() -> (r: MemoryEditor)
        ensures
            r.wf(),
            r.blocks().len() == HEADER_BLOCKS,
            r.dir().len() == 0,
    {
        let mut blocks: Vec<Block> = Vec::new();
        while blocks.len() < HEADER_BLOCKS
            invariant
                blocks@.len() <= HEADER_BLOCKS,
            decreases HEADER_BLOCKS - blocks@.len(),
        {
            blocks.push([0u8; 16]);
        }
        MemoryEditor { blocks, directory: Vec::new() }
    }

    /// Opens an archive held as blocks for editing; hands them back when they
    /// do not open under `key`.
    pub fn from_blocks(blocks: Vec<Block>, key: &Key) -> (r: Result<MemoryEditor, Vec<Block>>)
        ensures
            match r {
                Ok(e) => e.wf() && opens_archive(blocks@, *key, Ok((e.blocks(), e.dir()))),
                Err(b) => opens_archive(blocks@, *key, Err(b@)),
            },
    {
        match open_blocks(blocks, key) {
            Ok((b, d)) => Ok(MemoryEditor { blocks: b, directory: d }),
            Err(b) => Err(b),
        }
    }
}

impl MemoryEditor {
    /// The number of blocks before the directory: where new data goes.
    pub fn high_mark(&self) -> (r: u32)
        requires
            self.wf(),
        ensures
            r == self.blocks().len(),
    {
        self.blocks.len() as u32
    }

    /// The directory.
    pub fn directory(&self) -> (r: &Vec<Descriptor>)
        ensures
            r@ == self.dir(),
    {
        &self.directory
    }

    /// Creates the descriptor at `path`, with any missing parent directories,
    /// and returns its index; see `create`.
    pub fn edit_file(&mut self, path: &[u8]) -> (r: Result<usize, ErrorKind>)
        ensures
            creates(old(self).dir(), path@, final(self).dir(), r),
            final(self).blocks() == old(self).blocks(),
    {
        create(&mut self.directory, path)
    }

    /// Creates the directory at `path`, with any missing parents.
    pub fn create_dir(&mut self, path: &[u8]) -> (r: Result<usize, ErrorKind>)
        ensures
            creates(old(self).dir(), path@, final(self).dir(), r),
            final(self).blocks() == old(self).blocks(),
    {
        create(&mut self.directory, path)
    }

    /// Writes `data` as the file at `path`: the bytes are padded to whole
    /// blocks, encrypted under a fresh nonce and appended, and the descriptor
    /// (created with any missing parents, or overwritten) names them.
    ///
    /// Fails with `InvalidInput` when the length or the new end of the data
    /// would not fit in 32 bits, with `Io` when no nonce can be drawn, and
    /// otherwise as `create_file_sealed` does. On failure nothing changes.
    pub fn create_file(&mut self, path: &[u8], data: &[u8], key: &Key) -> (r: Result<Descriptor, ErrorKind>)
        requires
            old(self).wf(),
        ensures
            final(self).wf(),
            file_fits(old(self).blocks(), data@) ==> {
                ||| r == Err::<Descriptor, ErrorKind>(ErrorKind::Io) && *final(self) == *old(self)
                ||| exists|nonce: Block| #[trigger] writes_file(old(self).blocks(), old(self).dir(), path@, data@, *key, nonce,
                    final(self).blocks(), final(self).dir(), r)
            },
            !file_fits(old(self).blocks(), data@) ==> r == Err::<Descriptor, ErrorKind>(ErrorKind::InvalidInput)
                && final(self).blocks() == old(self).blocks() && final(self).dir() == old(self).dir(),
            walk_top(old(self).dir(), path@) is Blocked ==> r == Err::<Descriptor, ErrorKind>(ErrorKind::InvalidInput)
                && final(self).blocks() == old(self).blocks() && final(self).dir() == old(self).dir(),
    {
        if data.len() > u32::MAX as usize || blocks_count(data.len()) > u32::MAX as usize - self.blocks.len() {
            return Err(ErrorKind::InvalidInput);
        }
        if let Located::Blocked(_, _) = locate(self.directory.as_slice(), path) {
            let ghost od = self.directory@;
            assert(creates(od, path@, od, Err(ErrorKind::InvalidInput)));
            assert(writes_file(self.blocks@, od, path@, data@, *key, crate::types::zero_block(), self.blocks@, od,
                Err(ErrorKind::InvalidInput)));
            return Err(ErrorKind::InvalidInput);
        }
        let nonce = match fresh_nonce() {
            Ok(n) => n,
            Err(e) => {
                return Err(e);
            },
        };
        self.create_file_sealed(path, data, key, &nonce)
    }

    /// Writes `data` as the file at `path`, encrypted under `nonce`; see
    /// `writes_file` for the outcome, which the nonce does not decide.
    pub fn create_file_sealed(&mut self, path: &[u8], data: &[u8], key: &Key, nonce: &Block) -> (r: Result<Descriptor, ErrorKind>)
        requires
            old(self).wf(),
        ensures
            final(self).wf(),
            writes_file(old(self).blocks(), old(self).dir(), path@, data@, *key, *nonce, final(self).blocks(), final(self).dir(), r),
    {
        let ghost od = self.directory@;
        let ghost ob = self.blocks@;
        if data.len() > u32::MAX as usize {
            return Err(ErrorKind::InvalidInput);
        }
        let mut payload = blocks_from_bytes(data);
        let ghost plain = payload@;
        let offset = self.blocks.len();
        if payload.len() > u32::MAX as usize - offset {
            return Err(ErrorKind::InvalidInput);
        }
        let size = payload.len() as u32;
        let mac = seal_with(&mut payload, size, nonce, key);
        let r0 = create(&mut self.directory, path);
        let ghost mid = self.directory@;
        let i = match r0 {
            Ok(i) => i,
            Err(e) => {
                assert forall|m2: Seq<Descriptor>, r2: Result<usize, ErrorKind>| #[trigger] creates(od, path@, m2, r2) implies r2 == r0 by {
                    lemma_creates_unique(od, path@, mid, r0, m2, r2);
                }
                return Err(e);
            },
        };
        if self.directory[i].content_type == 0 && self.directory[i].content_size != 0 {
            proof {
                lemma_created_nonempty_dir_was_there(od, path@, mid, i);
            }
            assert forall|m2: Seq<Descriptor>, r2: Result<usize, ErrorKind>| #[trigger] creates(od, path@, m2, r2) implies r2 == r0 && m2 == mid by {
                lemma_creates_unique(od, path@, mid, r0, m2, r2);
            }
            return Err(ErrorKind::InvalidInput);
        }
        let desc = Descriptor {
            name: self.directory[i].name,
            content_type: 1,
            content_size: data.len() as u32,
            section: Section { offset: offset as u32, size, nonce: *nonce, mac },
        };
        let ghost old_blocks = self.blocks@;
        let mut j: usize = 0;
        while j < payload.len()
            invariant
                j <= payload@.len(),
                self.blocks@ == old_blocks + payload@.take(j as int),
                old_blocks.len() + payload@.len() <= u32::MAX,
                self.directory@ == mid,
                i < mid.len(),
            decreases payload@.len() - j,
        {
            self.blocks.push(payload[j]);
            assert(payload@.take(j + 1) =~= payload@.take(j as int).push(payload@[j as int]));
            j = j + 1;
        }
        assert(payload@.take(payload@.len() as int) =~= payload@);
        self.directory.set(i, desc);
        assert(self.blocks@.skip(old_blocks.len() as int) =~= payload@);
        assert(self.blocks@.take(old_blocks.len() as int) =~= old_blocks);
        assert(holds_bytes(plain, data@));
        assert(masked(*key, desc.section.nonce@, plain, self.blocks@.skip(old_blocks.len() as int)));
        assert(desc.section.size == blocks_for(data@.len() as int));
        assert(stores(old_blocks, self.blocks@, data@, *key, desc));
        assert forall|m2: Seq<Descriptor>, r2: Result<usize, ErrorKind>| #[trigger] creates(od, path@, m2, r2) implies r2 == r0 && m2 == mid by {
            lemma_creates_unique(od, path@, mid, r0, m2, r2);
        }
        assert(creates(od, path@, mid, r0));
        Ok(desc)
    }

    /// Reads the file at `path`.
    ///
    /// Fails with `NotFound` when `path` names nothing, and as `read_data`
    /// fails: `InvalidInput` for a directory.
    pub fn read(&self, path: &[u8], key: &Key) -> (r: Result<Vec<u8>, ErrorKind>)
        ensures
            match find_path(self.dir(), path@) {
                Some(i) => reads_data(self.blocks(), self.dir()[i], *key, r),
                None => r == Err::<Vec<u8>, ErrorKind>(ErrorKind::NotFound),
            },
    {
        match find_desc(self.directory.as_slice(), path) {
            Some(desc) => read_data(&self.blocks, desc, key),
            None => Err(ErrorKind::NotFound),
        }
    }

    /// Reads the file at `path` as UTF-8 text; `InvalidData` when it is not.
    pub fn read_to_string(&self, path: &[u8], key: &Key) -> (r: Result<String, ErrorKind>)
        ensures
            match find_path(self.dir(), path@) {
                Some(i) => text_of_read(self.blocks(), self.dir()[i], *key, r),
                None => r == Err::<String, ErrorKind>(ErrorKind::NotFound),
            },
    {
        match find_desc(self.directory.as_slice(), path) {
            Some(desc) => read_string(&self.blocks, desc, key),
            None => Err(ErrorKind::NotFound),
        }
    }

    /// Decrypts the extent of `section`; the key need not be the archive's.
    pub fn read_section(&self, section: &Section, key: &Key) -> (r: Result<Vec<Block>, ErrorKind>)
        ensures
            reads_section(self.blocks(), *section, *key, res_view(r)),
    {
        read_section(&self.blocks, section, key)
    }

    /// Decrypts the payload of a file descriptor.
    pub fn read_data(&self, desc: &Descriptor, key: &Key) -> (r: Result<Vec<u8>, ErrorKind>)
        ensures
            reads_data(self.blocks(), *desc, *key, r),
    {
        read_data(&self.blocks, desc, key)
    }

    /// Decrypts the payload of a file descriptor into `dest`, from `byte_offset` on.
    pub fn read_data_into(&self, desc: &Descriptor, key: &Key, byte_offset: usize, dest: &mut [u8]) -> (r: Result<(), ErrorKind>)
        ensures
            reads_into(self.blocks(), *desc, *key, byte_offset as int, old(dest)@, final(dest)@, r),
    {
        read_data_into(&self.blocks, desc, key, byte_offset, dest)
    }
}

/// The blocks `n` bytes fill, computed.
pub fn blocks_count(n: usize) -> (r: usize)
    ensures
        r == blocks_for(n as int),
{
    n / 16 + if n % 16 == 0 { 0 } else { 1 }
}

/// A payload of `data` fits after `blocks` with 32-bit lengths and offsets.
pub open spec fn file_fits(blocks: Seq<Block>, data: Seq<u8>) -> bool {
    data.len() <= u32::MAX && blocks.len() + blocks_for(data.len() as int) <= u32::MAX
}

/// Where `create` puts the descriptor for `p`, when it succeeds and that
/// descriptor is not a directory with contents.
pub open spec fn nonempty_dir(x: Descriptor) -> bool {
    x.is_dir_spec() && x.content_size != 0
}

/// What writing `data` as the file at `path`, encrypted under `nonce`, does:
/// `InvalidInput` when it does not fit; otherwise as `create` decides, with
/// `InvalidInput` for a directory with contents; on success the payload is
/// appended and the descriptor names it. On failure nothing changes.
pub open spec fn writes_file(ob: Seq<Block>, od: Seq<Descriptor>, path: Seq<u8>, data: Seq<u8>, key: Key, nonce: Block,
    nb: Seq<Block>, nd: Seq<Descriptor>, r: Result<Descriptor, ErrorKind>) -> bool {
    &&& r is Err ==> nb == ob && nd == od
    &&& !file_fits(ob, data) ==> r == Err::<Descriptor, ErrorKind>(ErrorKind::InvalidInput)
    &&& file_fits(ob, data) ==> exists|mid: Seq<Descriptor>, r0: Result<usize, ErrorKind>| #[trigger] creates(od, path, mid, r0)
    &&& file_fits(ob, data) ==> forall|mid: Seq<Descriptor>, r0: Result<usize, ErrorKind>| #[trigger] creates(od, path, mid, r0) ==> match r0 {
        Err(e) => r == Err::<Descriptor, ErrorKind>(e),
        Ok(i) => if nonempty_dir(mid[i as int]) {
            r == Err::<Descriptor, ErrorKind>(ErrorKind::InvalidInput)
        } else {
            r matches Ok(desc) && {
                &&& desc.section.nonce == nonce
                &&& desc.name == mid[i as int].name
                &&& stores(ob, nb, data, key, desc)
                &&& nd == mid.update(i as int, desc)
            }
        },
    }
}

/// `new` is `old` with the encrypted payload of `data` appended, and `desc`
/// is the file descriptor for it.
pub open spec fn stores(old: Seq<Block>, new: Seq<Block>, data: Seq<u8>, key: Key, desc: Descriptor) -> bool {
    &&& desc.content_type == 1
    &&& desc.content_size == data.len()
    &&& desc.section.offset == old.len()
    &&& desc.section.size == blocks_for(data.len() as int)
    &&& new.len() == old.len() + desc.section.size
    &&& new.take(old.len() as int) == old
    &&& exists|plain: Seq<Block>| holds_bytes(plain, data) && #[trigger] masked(key, desc.section.nonce@, plain, new.skip(old.len() as int))
    &&& desc.section.mac@ == mac_of(key, desc.section.size, desc.section.nonce@, new.skip(old.len() as int))
}

/// A descriptor that a successful `create` hands back as a directory with
/// contents was there before: new directories are empty.
pub proof fn lemma_created_nonempty_dir_was_there(d: Seq<Descriptor>, p: Seq<u8>, d2: Seq<Descriptor>, i: usize)
    requires
        creates(d, p, d2, Ok(i)),
        i < d2.len(),
        d2[i as int].is_dir_spec() && d2[i as int].content_size != 0,
    ensures
        d2 == d,
{
    match walk_top(d, p) {
        Walk::Missing(at, anc, rest) => {
            match crate::dir::chain_names(rest) {
                Some(names) => {
                    if crate::dir::fits(d, anc, names.len() as int) {
                        crate::dir::lemma_chain_nonempty(rest);
                        crate::dir::lemma_walk_bounds(d, 0, d.len() as int, p, Seq::empty());
                        let k = names.len() as int;
                        let c = d2.subrange(at, at + k);
                        assert(is_chain(c, names));
                        assert(c[k - 1] == d2[i as int]);
                        assert(c[k - 1].content_size == 0);
                    }
                },
                None => {},
            }
        },
        _ => {},
    }
}

/// What reading a file as text gives.
pub open spec fn text_of_read(blocks: Seq<Block>, desc: Descriptor, key: Key, r: Result<String, ErrorKind>) -> bool {
    exists|rd: Result<Vec<u8>, ErrorKind>| {
        &&& #[trigger] reads_data(blocks, desc, key, rd)
        &&& match rd {
            Err(e) => r == Err::<String, ErrorKind>(e),
            Ok(v) => if valid_utf8(v@) {
                r matches Ok(s) && s@ == decode_utf8(v@)
            } else {
                r == Err::<String, ErrorKind>(ErrorKind::InvalidData)
            },
        }
    }
}

/// Reads a file's bytes as UTF-8 text.
pub fn read_string(blocks: &Vec<Block>, desc: &Descriptor, key: &Key) -> (r: Result<String, ErrorKind>)
    ensures
        text_of_read(blocks@, *desc, *key, r),
{
    let rd = read_data(blocks, desc, key);
    match rd {
        Err(e) => Err(e),
        Ok(v) => match utf8_string(v) {
            Some(s) => Ok(s),
            None => Err(ErrorKind::InvalidData),
        },
    }
}

/// What reading a file into a buffer does.
pub open spec fn reads_into(blocks: Seq<Block>, desc: Descriptor, key: Key, byte_offset: int, before: Seq<u8>, after: Seq<u8>, r: Result<(), ErrorKind>) -> bool {
    if desc.is_dir_spec() || desc.section.end() > blocks.len() {
        r == Err::<(), ErrorKind>(ErrorKind::InvalidInput) && after == before
    } else if desc.section.mac@ != mac_of(key, desc.section.size, desc.section.nonce@, extent(blocks, desc.section)) {
        r == Err::<(), ErrorKind>(ErrorKind::InvalidData) && after == before
    } else if byte_offset + before.len() > 16 * desc.section.size {
        r == Err::<(), ErrorKind>(ErrorKind::InvalidInput) && after == before
    } else {
        r is Ok && exists|p: Seq<Block>| #[trigger] masked(key, desc.section.nonce@, extent(blocks, desc.section), p)
            && after == flat(p).subrange(byte_offset, byte_offset + before.len())
    }
}

/// A file whose section lies inside the blocks: its payload survives collection.
pub open spec fn live(blocks: Seq<Block>, x: Descriptor) -> bool {
    !x.is_dir_spec() && x.section.end() <= blocks.len()
}

pub open spec fn same_extent(a: Descriptor, b: Descriptor) -> bool {
    a.section.offset == b.section.offset && a.section.size == b.section.size
}

/// An earlier live descriptor has the same extent as the one at `i`.
pub open spec fn shared_before(blocks: Seq<Block>, d: Seq<Descriptor>, i: int) -> bool {
    exists|j: int| 0 <= j < i && live(blocks, #[trigger] d[j]) && same_extent(d[j], d[i])
}

/// The blocks that the live extents among the first `n` descriptors take,
/// each extent counted once.
pub open spec fn packed_len(blocks: Seq<Block>, d: Seq<Descriptor>, n: int) -> int
    decreases n,
{
    if n <= 0 {
        0
    } else {
        packed_len(blocks, d, n - 1) + if live(blocks, d[n - 1]) && !shared_before(blocks, d, n - 1) {
            d[n - 1].section.size as int
        } else {
            0
        }
    }
}

pub proof fn lemma_packed_monotone(blocks: Seq<Block>, d: Seq<Descriptor>, m: int, n: int)
    requires
        0 <= m <= n,
    ensures
        packed_len(blocks, d, m) <= packed_len(blocks, d, n),
    decreases n - m,
{
    if m < n {
        lemma_packed_monotone(blocks, d, m, n - 1);
    }
}

/// `nb`, `nd` are the blocks and directory after collecting the first `n`
/// descriptors of `ob`, `od`.
pub open spec fn collected(ob: Seq<Block>, od: Seq<Descriptor>, nb: Seq<Block>, nd: Seq<Descriptor>, n: int) -> bool {
    &&& nb.len() == HEADER_BLOCKS + packed_len(ob, od, n)
    &&& nd.len() == n
    &&& forall|t: int| 0 <= t < HEADER_BLOCKS ==> nb[t] == crate::types::zero_block()
    &&& forall|t: int| 0 <= t < n ==> {
        &&& (#[trigger] nd[t]).name == od[t].name
        &&& nd[t].content_type == od[t].content_type
        &&& nd[t].content_size == od[t].content_size
        &&& if od[t].is_dir_spec() {
            nd[t].section == od[t].section
        } else if !live(ob, od[t]) {
            nd[t].section == crate::types::empty_section()
        } else {
            &&& nd[t].section.size == od[t].section.size
            &&& nd[t].section.nonce == od[t].section.nonce
            &&& nd[t].section.mac == od[t].section.mac
            &&& nd[t].section.end() <= nb.len()
            &&& extent(nb, nd[t].section) == extent(ob, od[t].section)
            &&& !shared_before(ob, od, t) ==> nd[t].section.offset == HEADER_BLOCKS + packed_len(ob, od, t)
        }
    }
    &&& forall|s: int, t: int| 0 <= s < t < n && live(ob, od[s]) && live(ob, od[t]) && same_extent(od[s], od[t])
        ==> (#[trigger] nd[s]).section.offset == (#[trigger] nd[t]).section.offset
}

/// The first earlier live descriptor with the same extent as `x`.
fn first_shared(ob: &Vec<Block>, od: &Vec<Descriptor>, i: usize) -> (r: Option<usize>)
    requires
        i < od@.len(),
        live(ob@, od@[i as int]),
    ensures
        match r {
            Some(j) => j < i && live(ob@, od@[j as int]) && same_extent(od@[j as int], od@[i as int]) && !shared_before(ob@, od@, j as int),
            None => !shared_before(ob@, od@, i as int),
        },
{
    let x = od[i];
    let mut j: usize = 0;
    while j < i
        invariant
            j <= i < od@.len(),
            x == od@[i as int],
            forall|s: int| 0 <= s < j ==> !(live(ob@, #[trigger] od@[s]) && same_extent(od@[s], x)),
        decreases i - j,
    {
        let y = od[j];
        if y.content_type != 0 && (y.section.offset as u64 + y.section.size as u64) <= ob.len() as u64
            && y.section.offset == x.section.offset && y.section.size == x.section.size {
            assert(!shared_before(ob@, od@, j as int)) by {
                if shared_before(ob@, od@, j as int) {
                    let s = choose|s: int| 0 <= s < j && live(ob@, #[trigger] od@[s]) && same_extent(od@[s], od@[j as int]);
                    assert(same_extent(od@[s], x));
                }
            }
            return Some(j);
        }
        j = j + 1;
    }
    None
}

impl MemoryEditor {
    /// Compacts the data: the payload of every live file is copied, in
    /// directory order, right after the header's room, and each extent that
    /// several descriptors share is copied once. Files whose section lies
    /// outside the blocks lose it. Payloads are not re-encrypted: nonces and
    /// MACs stay valid.
    ///
    /// Fails with `InvalidInput`, changing nothing, when the compacted data
    /// would not fit in 32-bit offsets.
    pub fn gc(&mut self) -> (r: Result<(), ErrorKind>)
        requires
            old(self).wf(),
        ensures
            final(self).wf(),
            HEADER_BLOCKS + packed_len(old(self).blocks(), old(self).dir(), old(self).dir().len() as int) > u32::MAX
                ==> r == Err::<(), ErrorKind>(ErrorKind::InvalidInput) && *final(self) == *old(self),
            HEADER_BLOCKS + packed_len(old(self).blocks(), old(self).dir(), old(self).dir().len() as int) <= u32::MAX
                ==> r is Ok && collected(old(self).blocks(), old(self).dir(), final(self).blocks(), final(self).dir(), old(self).dir().len() as int),
    {
        let ghost ob = self.blocks@;
        let ghost od = self.directory@;
        let mut nb: Vec<Block> = Vec::new();
        while nb.len() < HEADER_BLOCKS
            invariant
                nb@.len() <= HEADER_BLOCKS,
                forall|t: int| 0 <= t < nb@.len() ==> nb@[t] == crate::types::zero_block(),
            decreases HEADER_BLOCKS - nb@.len(),
        {
            nb.push([0u8; 16]);
        }
        let mut nd: Vec<Descriptor> = Vec::new();
        let n = self.directory.len();
        let mut i: usize = 0;
        while i < n
            invariant
                n == od.len(),
                i <= n,
                self.blocks@ == ob,
                self.directory@ == od,
                HEADER_BLOCKS <= ob.len() <= u32::MAX,
                HEADER_BLOCKS <= nb@.len() <= u32::MAX,
                collected(ob, od, nb@, nd@, i as int),
            decreases n - i,
        {
            let mut x = self.directory[i];
            let ghost nb0 = nb@;
            let ghost nd0 = nd@;
            let ghost li = live(ob, od[i as int]);
            let ghost sh = shared_before(ob, od, i as int);
            if x.content_type != 0 {
                if (x.section.offset as u64 + x.section.size as u64) <= self.blocks.len() as u64 {
                    match first_shared(&self.blocks, &self.directory, i) {
                        Some(j) => {
                            x.section.offset = nd[j].section.offset;
                            assert(sh);
                            assert(packed_len(ob, od, i + 1) == packed_len(ob, od, i as int));
                            assert(extent(nb@, x.section) == extent(ob, od[i as int].section)) by {
                                assert(extent(nb@, nd@[j as int].section) == extent(ob, od[j as int].section));
                            }
                        },
                        None => {
                            let start = x.section.offset as usize;
                            let size = x.section.size as usize;
                            if size > u32::MAX as usize - nb.len() {
                                proof {
                                    lemma_packed_monotone(ob, od, i + 1, n as int);
                                }
                                return Err(ErrorKind::InvalidInput);
                            }
                            x.section.offset = nb.len() as u32;
                            let bl = self.blocks.len();
                            let mut k: usize = 0;
                            while k < size
                                invariant
                                    k <= size,
                                    bl == ob.len(),
                                    start + size <= ob.len(),
                                    self.blocks@ == ob,
                                    nb@ == nb0 + ob.subrange(start as int, start + k),
                                decreases size - k,
                            {
                                nb.push(self.blocks[start + k]);
                                assert(ob.subrange(start as int, start + k + 1) =~= ob.subrange(start as int, start + k).push(ob[start + k]));
                                k = k + 1;
                            }
                            assert(extent(nb@, x.section) =~= extent(ob, od[i as int].section));
                            assert(!sh);
                            assert(packed_len(ob, od, i + 1) == packed_len(ob, od, i as int) + size);
                        },
                    }
                } else {
                    x.section = Section::default();
                    assert(packed_len(ob, od, i + 1) == packed_len(ob, od, i as int));
                }
            } else {
                assert(packed_len(ob, od, i + 1) == packed_len(ob, od, i as int));
            }
            assert forall|t: int| 0 <= t < i implies (#[trigger] nd@[t]).section.end() <= nb@.len() || !live(ob, od[t]) || od[t].is_dir_spec() by {}
            nd.push(x);
            assert forall|t: int| 0 <= t < i + 1 && live(ob, od[t]) implies extent(nb@, (#[trigger] nd@[t]).section) == extent(ob, od[t].section) by {
                if t < i {
                    assert(extent(nb@, nd@[t].section) =~= extent(nb0, nd@[t].section));
                }
            }
            assert forall|a: int, b: int| 0 <= a < b < i + 1 && live(ob, od[a]) && live(ob, od[b]) && same_extent(od[a], od[b])
                implies (#[trigger] nd@[a]).section.offset == (#[trigger] nd@[b]).section.offset by {
                if b == i {
                    if !sh {
                        assert(shared_before(ob, od, i as int));
                    } else {
                        let j = choose|j: int| 0 <= j < i && live(ob, #[trigger] od[j]) && same_extent(od[j], od[i as int]);
                        if a != j && (a < j) {
                            assert(nd0[a].section.offset == nd0[j].section.offset);
                        }
                    }
                }
            }
            i = i + 1;
        }
        self.blocks = nb;
        self.directory = nd;
        Ok(())
    }
}

impl MemoryEditor {
    /// Parses bytes as an archive for editing.
    ///
    /// Fails with `InvalidInput` when the length is not a whole number of
    /// blocks, and with `InvalidData` when the archive does not open under `key`.
    pub fn from_bytes(bytes: &[u8], key: &Key) -> (r: Result<MemoryEditor, ErrorKind>)
        ensures
            bytes@.len() % 16 != 0 ==> r == Err::<MemoryEditor, ErrorKind>(ErrorKind::InvalidInput),
            bytes@.len() % 16 == 0 ==> exists|b: Seq<Block>| {
                &&& flat(b) == bytes@
                &&& #[trigger] b.len() == bytes@.len() / 16
                &&& match r {
                    Ok(e) => e.wf() && opens_archive(b, *key, Ok((e.blocks(), e.dir()))),
                    Err(err) => err == ErrorKind::InvalidData && opens_archive(b, *key, Err(b)),
                }
            },
    {
        let blocks = match blocks_of_bytes(bytes) {
            Some(b) => b,
            None => {
                return Err(ErrorKind::InvalidInput);
            },
        };
        match MemoryEditor::from_blocks(blocks, key) {
            Ok(e) => Ok(e),
            Err(_) => Err(ErrorKind::InvalidData),
        }
    }

    /// Encrypts the directory after the data and writes the header that names
    /// it; returns the archive's blocks and the plaintext directory.
    ///
    /// Fails with `InvalidInput` when the archive would outgrow 32-bit offsets,
    /// and with `Io` when no nonce can be drawn.
    pub fn finish(self, key: &Key) -> (r: Result<(Vec<Block>, Vec<Descriptor>), ErrorKind>)
        requires
            self.wf(),
        ensures
            self.blocks().len() + 4 * self.dir().len() > u32::MAX ==> r == Err::<(Vec<Block>, Vec<Descriptor>), ErrorKind>(ErrorKind::InvalidInput),
            self.blocks().len() + 4 * self.dir().len() <= u32::MAX ==> match r {
                Ok((out, d)) => d@ == self.dir() && finishes(self.blocks(), self.dir(), *key, out@),
                Err(e) => e == ErrorKind::Io,
            },
    {
        let MemoryEditor { blocks, directory } = self;
        match finish_blocks(blocks, &directory, key) {
            Ok(out) => Ok((out, directory)),
            Err(e) => Err(e),
        }
    }

    /// Checks the directory for data below `high_mark`; see `fsck`.
    pub fn fsck(&self, high_mark: u32, log: &mut String) -> (r: bool)
        ensures
            r == fsck_ok(self.dir(), high_mark),
            r <==> final(log)@ == old(log)@,
    {
        fsck(self.directory.as_slice(), high_mark, log)
    }

    /// A drawing of the directory at `path`; see `display_children`.
    pub fn display_children<'a>(&'a self, path: Option<&'a str>, art: &TreeArt) -> (r: Option<DirFmt<'a>>)
        ensures
            displays(self.dir(), path, *art, r),
    {
        display_children(self.directory.as_slice(), path, art)
    }

    /// The descriptor that `path` names.
    pub fn find_desc(&self, path: &[u8]) -> (r: Option<&Descriptor>)
        ensures
            match find_path(self.dir(), path@) {
                Some(i) => r == Some(&self.dir()[i]),
                None => r is None,
            },
    {
        find_desc(self.directory.as_slice(), path)
    }

    /// The file descriptor that `path` names.
    pub fn find_file(&self, path: &[u8]) -> (r: Option<&Descriptor>)
        ensures
            match find_path(self.dir(), path@) {
                Some(i) => if self.dir()[i].is_dir_spec() { r is None } else { r == Some(&self.dir()[i]) },
                None => r is None,
            },
    {
        find_file(self.directory.as_slice(), path)
    }

    /// Removes the subtree at `path`; see `remove`.
    pub fn remove(&mut self, path: &[u8]) -> (r: Option<Vec<Descriptor>>)
        ensures
            removes(old(self).dir(), path@, final(self).dir(), opt_view(r)),
            final(self).blocks() == old(self).blocks(),
    {
        remove(&mut self.directory, path)
    }

    /// Moves the subtree at `src` to `dst`; see `move_file`.
    pub fn move_file(&mut self, src: &[u8], dst: &[u8]) -> (r: Result<(), ErrorKind>)
        ensures
            moves(old(self).dir(), src@, dst@, final(self).dir(), r),
            final(self).blocks() == old(self).blocks(),
    {
        move_file(&mut self.directory, src, dst)
    }

    /// Links `path` to the payload of `src`; see `create_link`.
    pub fn create_link(&mut self, path: &[u8], src: &Descriptor) -> (r: Result<usize, ErrorKind>)
        ensures
            links(old(self).dir(), path@, *src, final(self).dir(), r),
            final(self).blocks() == old(self).blocks(),
    {
        create_link(&mut self.directory, path, src)
    }
}

/// An archive held entirely in memory, open for reading.
pub struct MemoryReader {
    blocks: Vec<Block>,
    directory: Vec<Descriptor>,
}

impl MemoryReader {
    pub closed spec fn blocks(&self) -> Seq<Block> {
        self.blocks@
    }

    pub closed spec fn dir(&self) -> Seq<Descriptor> {
        self.directory@
    }

    /// Opens an archive held as blocks for reading; hands them back when they
    /// do not open under `key`.
    pub fn from_blocks(blocks: Vec<Block>, key: &Key) -> (r: Result<MemoryReader, Vec<Block>>)
        ensures
            match r {
                Ok(m) => opens_archive(blocks@, *key, Ok((m.blocks(), m.dir()))),
                Err(b) => opens_archive(blocks@, *key, Err(b@)),
            },
    {
        match open_blocks(blocks, key) {
            Ok((b, d)) => Ok(MemoryReader { blocks: b, directory: d }),
            Err(b) => Err(b),
        }
    }

    /// Parses bytes as an archive for reading.
    ///
    /// Fails with `InvalidInput` when the length is not a whole number of
    /// blocks, and with `InvalidData` when the archive does not open under `key`.
    pub fn from_bytes(bytes: &[u8], key: &Key) -> (r: Result<MemoryReader, ErrorKind>)
        ensures
            bytes@.len() % 16 != 0 ==> r == Err::<MemoryReader, ErrorKind>(ErrorKind::InvalidInput),
            bytes@.len() % 16 == 0 ==> exists|b: Seq<Block>| {
                &&& flat(b) == bytes@
                &&& #[trigger] b.len() == bytes@.len() / 16
                &&& match r {
                    Ok(m) => opens_archive(b, *key, Ok((m.blocks(), m.dir()))),
                    Err(err) => err == ErrorKind::InvalidData && opens_archive(b, *key, Err(b)),
                }
            },
    {
        let blocks = match blocks_of_bytes(bytes) {
            Some(b) => b,
            None => {
                return Err(ErrorKind::InvalidInput);
            },
        };
        match MemoryReader::from_blocks(blocks, key) {
            Ok(m) => Ok(m),
            Err(_) => Err(ErrorKind::InvalidData),
        }
    }

    /// The directory.
    pub fn directory(&self) -> (r: &Vec<Descriptor>)
        ensures
            r@ == self.dir(),
    {
        &self.directory
    }

    /// Checks the directory for data below `high_mark`; see `fsck`.
    pub fn fsck(&self, high_mark: u32, log: &mut String) -> (r: bool)
        ensures
            r == fsck_ok(self.dir(), high_mark),
            r <==> final(log)@ == old(log)@,
    {
        fsck(self.directory.as_slice(), high_mark, log)
    }

    /// A drawing of the directory at `path`; see `display_children`.
    pub fn display_children<'a>(&'a self, path: Option<&'a str>, art: &TreeArt) -> (r: Option<DirFmt<'a>>)
        ensures
            displays(self.dir(), path, *art, r),
    {
        display_children(self.directory.as_slice(), path, art)
    }

    /// The descriptor that `path` names.
    pub fn find_desc(&self, path: &[u8]) -> (r: Option<&Descriptor>)
        ensures
            match find_path(self.dir(), path@) {
                Some(i) => r == Some(&self.dir()[i]),
                None => r is None,
            },
    {
        find_desc(self.directory.as_slice(), path)
    }

    /// The file descriptor that `path` names.
    pub fn find_file(&self, path: &[u8]) -> (r: Option<&Descriptor>)
        ensures
            match find_path(self.dir(), path@) {
                Some(i) => if self.dir()[i].is_dir_spec() { r is None } else { r == Some(&self.dir()[i]) },
                None => r is None,
            },
    {
        find_file(self.directory.as_slice(), path)
    }

    /// Reads the file at `path`.
    pub fn read(&self, path: &[u8], key: &Key) -> (r: Result<Vec<u8>, ErrorKind>)
        ensures
            match find_path(self.dir(), path@) {
                Some(i) => reads_data(self.blocks(), self.dir()[i], *key, r),
                None => r == Err::<Vec<u8>, ErrorKind>(ErrorKind::NotFound),
            },
    {
        match find_desc(self.directory.as_slice(), path) {
            Some(desc) => read_data(&self.blocks, desc, key),
            None => Err(ErrorKind::NotFound),
        }
    }

    /// Reads the file at `path` as UTF-8 text; `InvalidData` when it is not.
    pub fn read_to_string(&self, path: &[u8], key: &Key) -> (r: Result<String, ErrorKind>)
        ensures
            match find_path(self.dir(), path@) {
                Some(i) => text_of_read(self.blocks(), self.dir()[i], *key, r),
                None => r == Err::<String, ErrorKind>(ErrorKind::NotFound),
            },
    {
        match find_desc(self.directory.as_slice(), path) {
            Some(desc) => read_string(&self.blocks, desc, key),
            None => Err(ErrorKind::NotFound),
        }
    }

    /// Decrypts the extent of `section`; the key need not be the archive's.
    pub fn read_section(&self, section: &Section, key: &Key) -> (r: Result<Vec<Block>, ErrorKind>)
        ensures
            reads_section(self.blocks(), *section, *key, res_view(r)),
    {
        read_section(&self.blocks, section, key)
    }

    /// Decrypts the payload of a file descriptor.
    pub fn read_data(&self, desc: &Descriptor, key: &Key) -> (r: Result<Vec<u8>, ErrorKind>)
        ensures
            reads_data(self.blocks(), *desc, *key, r),
    {
        read_data(&self.blocks, desc, key)
    }

    /// Decrypts the payload of a file descriptor into `dest`, from `byte_offset` on.
    pub fn read_data_into(&self, desc: &Descriptor, key: &Key, byte_offset: usize, dest: &mut [u8]) -> (r: Result<(), ErrorKind>)
        ensures
            reads_into(self.blocks(), *desc, *key, byte_offset as int, old(dest)@, final(dest)@, r),
    {
        read_data_into(&self.blocks, desc, key, byte_offset, dest)
    }
}

} // verus!
