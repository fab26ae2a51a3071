use vstd::prelude::*;
use crate::types::{Block, Key, ErrorKind, Section, Descriptor, InfoHeader, HEADER_BLOCKS, VERSION};
use crate::codec::{decode_dir, decode_dir_blocks, encodes_dir, encode_dir, blocks_from_bytes, holds_bytes, blocks_for, flat, bytes_from_blocks};
use crate::crypt::{masked, mac_of, seal_with, unseal, fresh_nonce};
use crate::archive::{seals_header, header_sealed, payload};
use crate::fsck::{fsck, fsck_ok};
use crate::text::utf8_string;
use vstd::utf8::{valid_utf8, decode_utf8};
use crate::display::{DirFmt, TreeArt, display_children, displays};
use crate::dir::{creates, create, find_path, find_file, find_desc, removes, remove, opt_view, links, create_link, moves, move_file, lemma_creates_unique, walk_top};

verus! {

/// The block just past the directory that `info` names, and never inside the
/// header: where new data may go without touching the archive as it stands.
pub open spec fn end_of(info: InfoHeader) -> int {
    let e = info.directory.offset + 4 * info.directory.size;
    if e < HEADER_BLOCKS { HEADER_BLOCKS as int } else { e }
}

/// What decrypting ciphertext read from the extent of `section` gives.
pub open spec fn opens_extent(c: Seq<Block>, section: Section, key: Key, r: Result<Seq<Block>, ErrorKind>) -> bool {
    if c.len() != section.size {
        r == Err::<Seq<Block>, ErrorKind>(ErrorKind::InvalidInput)
    } else if section.mac@ != mac_of(key, section.size, section.nonce@, c) {
        r == Err::<Seq<Block>, ErrorKind>(ErrorKind::InvalidData)
    } else {
        r matches Ok(p) && masked(key, section.nonce@, c, p)
    }
}

pub open spec fn res_seq(r: Result<Vec<Block>, ErrorKind>) -> Result<Seq<Block>, ErrorKind> {
    match r {
        Ok(v) => Ok(v@),
        Err(e) => Err(e),
    }
}

/// Checks and decrypts ciphertext that was read from the extent of `section`.
pub fn open_extent(c: Vec<Block>, section: &Section, key: &Key) -> (r: Result<Vec<Block>, ErrorKind>)
    ensures
        opens_extent(c@, *section, *key, res_seq(r)),
{
    let mut c = c;
    if c.len() != section.size as usize {
        return Err(ErrorKind::InvalidInput);
    }
    if unseal(&mut c, section.size, &section.nonce, &section.mac, key) {
        Ok(c)
    } else {
        Err(ErrorKind::InvalidData)
    }
}

/// What decrypting a file's payload from its ciphertext into a buffer does.
pub open spec fn opens_into(c: Seq<Block>, desc: Descriptor, key: Key, byte_offset: int, before: Seq<u8>, after: Seq<u8>, r: Result<(), ErrorKind>) -> bool {
    if desc.is_dir_spec() || c.len() != desc.section.size {
        r == Err::<(), ErrorKind>(ErrorKind::InvalidInput) && after == before
    } else if desc.section.mac@ != mac_of(key, desc.section.size, desc.section.nonce@, c) {
        r == Err::<(), ErrorKind>(ErrorKind::InvalidData) && after == before
    } else if byte_offset + before.len() > 16 * desc.section.size {
        r == Err::<(), ErrorKind>(ErrorKind::InvalidInput) && after == before
    } else {
        r is Ok && exists|p: Seq<Block>| #[trigger] masked(key, desc.section.nonce@, c, p)
            && after == flat(p).subrange(byte_offset, byte_offset + before.len())
    }
}

/// Checks and decrypts a file's payload from the ciphertext of its section,
/// and copies the bytes from `byte_offset` on into all of `dest`.
pub fn open_data_into(c: Vec<Block>, desc: &Descriptor, key: &Key, byte_offset: usize, dest: &mut [u8]) -> (r: Result<(), ErrorKind>)
    ensures
        opens_into(c@, *desc, *key, byte_offset as int, old(dest)@, final(dest)@, r),
{
    if desc.is_dir() {
        return Err(ErrorKind::InvalidInput);
    }
    let p = match open_extent(c, &desc.section, key) {
        Ok(p) => p,
        Err(e) => {
            return Err(e);
        },
    };
    let n = dest.len();
    if byte_offset as u128 + n as u128 > 16 * p.len() as u128 {
        return Err(ErrorKind::InvalidInput);
    }
    let mut t: usize = 0;
    while t < n
        invariant
            t <= n == dest@.len(),
            byte_offset + n <= 16 * p@.len(),
            forall|u: int| 0 <= u < t ==> dest@[u] == flat(p@)[byte_offset + u],
        decreases n - t,
    {
        let b: u128 = byte_offset as u128 + t as u128;
        let bi = (b / 16) as usize;
        let bo = (b % 16) as usize;
        dest[t] = p[bi][bo];
        t = t + 1;
    }
    assert(dest@ =~= flat(p@).subrange(byte_offset as int, byte_offset + n));
    Ok(())
}

/// The blocks of an archive read as a stream: its header and everything up
/// to the end of the directory that the header names.
pub open spec fn stream_len_spec(info: InfoHeader) -> int {
    end_of(info)
}

/// How many blocks to read from a stream whose header is `info`: at least
/// the header, and through the end of the directory.
pub fn stream_len(info: &InfoHeader) -> (r: u64)
    ensures
        r == stream_len_spec(*info),
{
    let e = info.directory.offset as u64 + 4 * info.directory.size as u64;
    if e < HEADER_BLOCKS as u64 { HEADER_BLOCKS as u64 } else { e }
}

/// What decrypting a file's payload from its ciphertext as UTF-8 text gives.
pub open spec fn opens_text(c: Seq<Block>, desc: Descriptor, key: Key, r: Result<String, ErrorKind>) -> bool {
    exists|rd: Result<Vec<u8>, ErrorKind>| {
        &&& #[trigger] opens_data(c, desc, key, rd)
        &&& match rd {
            Err(e) => r == Err::<String, ErrorKind>(e),
            Ok(v) => if valid_utf8(v@) {
                r matches Ok(s) && s@ == decode_utf8(v@)
            } else {
                r == Err::<String, ErrorKind>(ErrorKind::InvalidData)
            },
        }
    }
}

/// Checks and decrypts a file's payload from the ciphertext of its section
/// and reads it as UTF-8 text; `InvalidData` when it is not.
pub fn open_text(c: Vec<Block>, desc: &Descriptor, key: &Key) -> (r: Result<String, ErrorKind>)
    ensures
        opens_text(c@, *desc, *key, r),
{
    let rd = open_data(c, desc, key);
    match rd {
        Err(e) => Err(e),
        Ok(v) => match utf8_string(v) {
            Some(s) => Ok(s),
            None => Err(ErrorKind::InvalidData),
        },
    }
}

/// What decrypting a file's payload from its ciphertext gives.
pub open spec fn opens_data(c: Seq<Block>, desc: Descriptor, key: Key, r: Result<Vec<u8>, ErrorKind>) -> bool {
    if desc.is_dir_spec() || c.len() != desc.section.size {
        r == Err::<Vec<u8>, ErrorKind>(ErrorKind::InvalidInput)
    } else if desc.section.mac@ != mac_of(key, desc.section.size, desc.section.nonce@, c) {
        r == Err::<Vec<u8>, ErrorKind>(ErrorKind::InvalidData)
    } else {
        r matches Ok(v) && exists|p: Seq<Block>| #[trigger] masked(key, desc.section.nonce@, c, p) && v@ == payload(p, desc)
    }
}

/// Checks and decrypts a file's payload from the ciphertext of its section.
pub fn open_data(c: Vec<Block>, desc: &Descriptor, key: &Key) -> (r: Result<Vec<u8>, ErrorKind>)
    ensures
        opens_data(c@, *desc, *key, r),
{
    if desc.is_dir() {
        return Err(ErrorKind::InvalidInput);
    }
    let p = match open_extent(c, &desc.section, key) {
        Ok(p) => p,
        Err(e) => {
            return Err(e);
        },
    };
    let v = bytes_from_blocks(&p, desc.content_size as usize);
    assert(v@ == payload(p@, *desc));
    Ok(v)
}

/// What opening a directory from its ciphertext gives.
pub open spec fn opens_directory(info: InfoHeader, c: Seq<Block>, key: Key, r: Result<Seq<Descriptor>, ErrorKind>) -> bool {
    if c.len() != 4 * info.directory.size || end_of(info) > u32::MAX {
        r == Err::<Seq<Descriptor>, ErrorKind>(ErrorKind::InvalidData)
    } else if info.directory.mac@ != mac_of(key, info.directory.size, info.directory.nonce@, c) {
        r == Err::<Seq<Descriptor>, ErrorKind>(ErrorKind::InvalidData)
    } else {
        exists|p: Seq<Block>| #[trigger] masked(key, info.directory.nonce@, c, p) && r == Ok::<Seq<Descriptor>, ErrorKind>(decode_dir(p))
    }
}

pub open spec fn dir_res(r: Result<Vec<Descriptor>, ErrorKind>) -> Result<Seq<Descriptor>, ErrorKind> {
    match r {
        Ok(v) => Ok(v@),
        Err(e) => Err(e),
    }
}

/// Checks and decrypts the directory that `info` names from its ciphertext.
pub fn open_directory(info: &InfoHeader, c: Vec<Block>, key: &Key) -> (r: Result<Vec<Descriptor>, ErrorKind>)
    ensures
        opens_directory(*info, c@, *key, dir_res(r)),
{
    let mut c = c;
    let e = info.directory.offset as u64 + 4 * info.directory.size as u64;
    if c.len() as u64 != 4 * info.directory.size as u64 || e > u32::MAX as u64 {
        return Err(ErrorKind::InvalidData);
    }
    let ghost ct = c@;
    if !unseal(&mut c, info.directory.size, &info.directory.nonce, &info.directory.mac, key) {
        return Err(ErrorKind::InvalidData);
    }
    let d = decode_dir_blocks(&c);
    assert(masked(*key, info.directory.nonce@, ct, c@));
    Ok(d)
}

/// `h` is the sealed header of an archive whose directory is empty and starts
/// right after it.
pub open spec fn empty_archive_header(h: Seq<Block>, key: Key) -> bool {
    exists|info: InfoHeader| #[trigger] empty_header_with(h, key, info)
}

pub open spec fn empty_header_with(h: Seq<Block>, key: Key, info: InfoHeader) -> bool {
    &&& seals_header(h, info, key)
    &&& info.version == VERSION && info.reserved == 0
    &&& info.directory.offset == HEADER_BLOCKS && info.directory.size == 0
    &&& info.directory.mac@ == mac_of(key, 0, info.directory.nonce@, Seq::empty())
}

/// The header of an archive with an empty directory right after it.
pub fn empty_header(key: &Key) -> (r: Result<Vec<Block>, ErrorKind>)
    ensures
        r is Err ==> r == Err::<Vec<Block>, ErrorKind>(ErrorKind::Io),
        r matches Ok(h) ==> empty_archive_header(h@, *key),
{
    let dn = match fresh_nonce() {
        Ok(n) => n,
        Err(e) => {
            return Err(e);
        },
    };
    let hn = match fresh_nonce() {
        Ok(n) => n,
        Err(e) => {
            return Err(e);
        },
    };
    Ok(empty_header_sealed(key, &dn, &hn))
}

/// The header of an archive with an empty directory right after it, the
/// directory sealed under `dn` and the header under `hn`.
pub fn empty_header_sealed(key: &Key, dn: &Block, hn: &Block) -> (h: Vec<Block>)
    ensures
        h@[0] == *hn,
        exists|info: InfoHeader| #[trigger] empty_header_with(h@, *key, info) && info.directory.nonce == *dn,
        empty_archive_header(h@, *key),
{
    let mut empty: Vec<Block> = Vec::new();
    let mac = seal_with(&mut empty, 0, dn, key);
    assert(empty@ =~= Seq::<Block>::empty());
    let info = InfoHeader {
        version: VERSION,
        reserved: 0,
        directory: Section { offset: HEADER_BLOCKS as u32, size: 0, nonce: *dn, mac },
    };
    let h = header_sealed(&info, hn, key);
    assert(empty_header_with(h@, *key, info));
    h
}

/// A payload of `data` fits after block `mark` with 32-bit lengths and offsets.
pub open spec fn payload_fits(mark: u32, data: Seq<u8>) -> bool {
    data.len() <= u32::MAX && mark + blocks_for(data.len() as int) <= u32::MAX
}

pub open spec fn res_pair(r: Result<(Descriptor, Vec<Block>), ErrorKind>) -> Result<(Descriptor, Seq<Block>), ErrorKind> {
    match r {
        Ok((d, c)) => Ok((d, c@)),
        Err(e) => Err(e),
    }
}

/// `c` is `data` padded and encrypted under `nonce` for the extent at `mark`,
/// and `desc` is the file descriptor for it.
pub open spec fn sealed_payload(mark: u32, data: Seq<u8>, key: Key, nonce: Block, desc: Descriptor, c: Seq<Block>) -> bool {
    &&& desc.content_type == 1
    &&& desc.content_size == data.len()
    &&& desc.section.offset == mark
    &&& desc.section.nonce == nonce
    &&& desc.section.size == blocks_for(data.len() as int) == c.len()
    &&& exists|plain: Seq<Block>| holds_bytes(plain, data) && #[trigger] masked(key, nonce@, plain, c)
    &&& desc.section.mac@ == mac_of(key, desc.section.size, nonce@, c)
}

/// What writing `data` as the file at `path` under `nonce` does to an editor
/// with mark `om` and directory `od`: `InvalidInput` when it does not fit;
/// otherwise as `create` decides, with `InvalidInput` for a directory with
/// contents; on success the ciphertext to write at the old mark, which moves
/// past it. On failure nothing changes.
pub open spec fn places_file(om: u32, od: Seq<Descriptor>, path: Seq<u8>, data: Seq<u8>, key: Key, nonce: Block,
    nm: u32, nd: Seq<Descriptor>, r: Result<(Descriptor, Seq<Block>), ErrorKind>) -> bool {
    &&& r is Err ==> nm == om && nd == od
    &&& !payload_fits(om, data) ==> r == Err::<(Descriptor, Seq<Block>), ErrorKind>(ErrorKind::InvalidInput)
    &&& payload_fits(om, data) ==> exists|mid: Seq<Descriptor>, r0: Result<usize, ErrorKind>| #[trigger] creates(od, path, mid, r0)
    &&& payload_fits(om, data) ==> forall|mid: Seq<Descriptor>, r0: Result<usize, ErrorKind>| #[trigger] creates(od, path, mid, r0) ==> match r0 {
        Err(e) => r == Err::<(Descriptor, Seq<Block>), ErrorKind>(e),
        Ok(i) => if crate::memory::nonempty_dir(mid[i as int]) {
            r == Err::<(Descriptor, Seq<Block>), ErrorKind>(ErrorKind::InvalidInput)
        } else {
            r matches Ok((desc, c)) && {
                &&& sealed_payload(om, data, key, nonce, desc, c)
                &&& desc.name == mid[i as int].name
                &&& nd == mid.update(i as int, desc)
                &&& nm == om + c.len()
            }
        },
    }
}

/// A reader of an archive kept in a file: the decrypted directory and header.
/// The host reads blocks from the file and hands them in.
pub struct FileReader {
    info: InfoHeader,
    directory: Vec<Descriptor>,
}

impl FileReader {
    pub closed spec fn info_spec(&self) -> InfoHeader {
        self.info
    }

    pub closed spec fn dir(&self) -> Seq<Descriptor> {
        self.directory@
    }

    /// Opens the archive whose header `info` (see `open_header`) names the
    /// directory read as `dir_blocks`.
    pub fn open(info: &InfoHeader, dir_blocks: Vec<Block>, key: &Key) -> (r: Result<FileReader, ErrorKind>)
        ensures
            match r {
                Ok(f) => f.info_spec() == *info && opens_directory(*info, dir_blocks@, *key, Ok(f.dir())),
                Err(e) => opens_directory(*info, dir_blocks@, *key, Err(e)),
            },
    {
        match open_directory(info, dir_blocks, key) {
            Ok(d) => Ok(FileReader { info: *info, directory: d }),
            Err(e) => Err(e),
        }
    }

    /// The header.
    pub fn info(&self) -> (r: &InfoHeader)
        ensures
            *r == self.info_spec(),
    {
        &self.info
    }

    /// The first block of the directory: data lies before it.
    pub fn high_mark(&self) -> (r: u32)
        ensures
            r == self.info_spec().directory.offset,
    {
        self.info.directory.offset
    }

    /// The directory.
    pub fn directory(&self) -> (r: &Vec<Descriptor>)
        ensures
            r@ == self.dir(),
    {
        &self.directory
    }

    /// Checks the directory for data below `high_mark`; see `fsck`.
    pub fn fsck(&self, high_mark: u32, log: &mut String) -> (r: bool)
        ensures
            r == fsck_ok(self.dir(), high_mark),
            r <==> final(log)@ == old(log)@,
    {
        fsck(self.directory.as_slice(), high_mark, log)
    }

    /// A drawing of the directory at `path`; see `display_children`.
    pub fn display_children<'a>(&'a self, path: Option<&'a str>, art: &TreeArt) -> (r: Option<DirFmt<'a>>)
        ensures
            displays(self.dir(), path, *art, r),
    {
        display_children(self.directory.as_slice(), path, art)
    }

    /// The descriptor that `path` names.
    pub fn find_desc(&self, path: &[u8]) -> (r: Option<&Descriptor>)
        ensures
            match find_path(self.dir(), path@) {
                Some(i) => r == Some(&self.dir()[i]),
                None => r is None,
            },
    {
        find_desc(self.directory.as_slice(), path)
    }

    /// The file descriptor that `path` names.
    pub fn find_file(&self, path: &[u8]) -> (r: Option<&Descriptor>)
        ensures
            match find_path(self.dir(), path@) {
                Some(i) => if self.dir()[i].is_dir_spec() { r is None } else { r == Some(&self.dir()[i]) },
                None => r is None,
            },
    {
        find_file(self.directory.as_slice(), path)
    }

    /// Decrypts ciphertext read from the extent of `section`; the key need not
    /// be the archive's.
    pub fn read_section(&self, section: &Section, c: Vec<Block>, key: &Key) -> (r: Result<Vec<Block>, ErrorKind>)
        ensures
            opens_extent(c@, *section, *key, res_seq(r)),
    {
        open_extent(c, section, key)
    }

    /// Decrypts a file's payload from the ciphertext of its section into
    /// `dest`, from `byte_offset` on.
    pub fn read_data_into(&self, desc: &Descriptor, c: Vec<Block>, key: &Key, byte_offset: usize, dest: &mut [u8]) -> (r: Result<(), ErrorKind>)
        ensures
            opens_into(c@, *desc, *key, byte_offset as int, old(dest)@, final(dest)@, r),
    {
        open_data_into(c, desc, key, byte_offset, dest)
    }

    /// Decrypts a file's payload from the ciphertext of its section and reads
    /// it as UTF-8 text.
    pub fn read_to_string(&self, desc: &Descriptor, c: Vec<Block>, key: &Key) -> (r: Result<String, ErrorKind>)
        ensures
            opens_text(c@, *desc, *key, r),
    {
        open_text(c, desc, key)
    }

    /// Decrypts a file's payload from the ciphertext of its section.
    pub fn read_data(&self, desc: &Descriptor, c: Vec<Block>, key: &Key) -> (r: Result<Vec<u8>, ErrorKind>)
        ensures
            opens_data(c@, *desc, *key, r),
    {
        open_data(c, desc, key)
    }
}

/// An editor of an archive kept in a file: the decrypted directory and the
/// high-water mark, the block where the next payload goes. Payloads are
/// written past the directory that the file's header names, so the archive as
/// it stands stays whole until `finish`'s header is written.
pub struct FileEditor {
    directory: Vec<Descriptor>,
    high_mark: u32,
}

/// The blocks to write at `offset`, in order, when finishing an edit: first the
/// directory, then (after the directory is on disk) the header at block zero.
pub struct Commit {
    pub offset: u32,
    pub directory: Vec<Block>,
    pub header: Vec<Block>,
}

/// `commit` writes directory `d` at `mark`, sealed under `dn`, named by a
/// header sealed under `hn`.
pub open spec fn commits_under(d: Seq<Descriptor>, mark: u32, key: Key, commit: Commit, dn: Block, hn: Block) -> bool {
    &&& commit.header@.len() >= 1
    &&& commit.header@[0] == hn
    &&& exists|info: InfoHeader, plain: Seq<Block>| #[trigger] commits_with(d, mark, key, commit, info, plain) && info.directory.nonce == dn
}

pub open spec fn commits_with(d: Seq<Descriptor>, mark: u32, key: Key, commit: Commit, info: InfoHeader, plain: Seq<Block>) -> bool {
    &&& seals_header(commit.header@, info, key)
    &&& info.version == VERSION && info.reserved == 0
    &&& commit.offset == mark
    &&& info.directory.offset == mark && info.directory.size == d.len()
    &&& encodes_dir(plain, d)
    &&& masked(key, info.directory.nonce@, plain, commit.directory@)
    &&& info.directory.mac@ == mac_of(key, info.directory.size, info.directory.nonce@, commit.directory@)
}

impl FileEditor {
    pub closed spec fn dir(&self) -> Seq<Descriptor> {
        self.directory@
    }

    pub closed spec fn mark(&self) -> u32 {
        self.high_mark
    }

    pub open spec fn wf(&self) -> bool {
        self.mark() >= HEADER_BLOCKS
    }

    /// A new, empty archive: the editor and the header to write to the new file.
    pub fn create_new(key: &Key) -> (r: Result<(FileEditor, Vec<Block>), ErrorKind>)
        ensures
            r is Err ==> r == Err::<(FileEditor, Vec<Block>), ErrorKind>(ErrorKind::Io),
            r matches Ok((e, h)) ==> e.wf() && e.mark() == HEADER_BLOCKS && e.dir().len() == 0 && empty_archive_header(h@, *key),
    {
        let h = match empty_header(key) {
            Ok(h) => h,
            Err(e) => {
                return Err(e);
            },
        };
        let e = FileEditor { directory: Vec::new(), high_mark: HEADER_BLOCKS as u32 };
        assert(empty_archive_header(h@, *key));
        Ok((e, h))
    }

    /// The header of an empty archive, to write over a file.
    pub fn create_empty(key: &Key) -> (r: Result<Vec<Block>, ErrorKind>)
        ensures
            r is Err ==> r == Err::<Vec<Block>, ErrorKind>(ErrorKind::Io),
            r matches Ok(h) ==> empty_archive_header(h@, *key),
    {
        empty_header(key)
    }

    /// Opens the archive whose header `info` names the directory read as
    /// `dir_blocks`; new data will go right after that directory.
    pub fn open(info: &InfoHeader, dir_blocks: Vec<Block>, key: &Key) -> (r: Result<FileEditor, ErrorKind>)
        ensures
            match r {
                Ok(e) => e.wf() && e.mark() == end_of(*info) && opens_directory(*info, dir_blocks@, *key, Ok(e.dir())),
                Err(err) => opens_directory(*info, dir_blocks@, *key, Err(err)),
            },
    {
        let d = match open_directory(info, dir_blocks, key) {
            Ok(d) => d,
            Err(e) => {
                return Err(e);
            },
        };
        let e = info.directory.offset as u64 + 4 * info.directory.size as u64;
        let high_mark: u32 = if e < HEADER_BLOCKS as u64 { HEADER_BLOCKS as u32 } else { e as u32 };
        Ok(FileEditor { directory: d, high_mark })
    }

    /// Opens the archive as `open` does, for a host that will not write to it.
    pub fn read_only(info: &InfoHeader, dir_blocks: Vec<Block>, key: &Key) -> (r: Result<FileEditor, ErrorKind>)
        ensures
            match r {
                Ok(e) => e.wf() && e.mark() == end_of(*info) && opens_directory(*info, dir_blocks@, *key, Ok(e.dir())),
                Err(err) => opens_directory(*info, dir_blocks@, *key, Err(err)),
            },
    {
        FileEditor::open(info, dir_blocks, key)
    }

    /// The block where the next payload goes.
    pub fn high_mark(&self) -> (r: u32)
        ensures
            r == self.mark(),
    {
        self.high_mark
    }

    /// The directory.
    pub fn directory(&self) -> (r: &Vec<Descriptor>)
        ensures
            r@ == self.dir(),
    {
        &self.directory
    }

    /// Creates the descriptor at `path`, with any missing parents; see `create`.
    pub fn edit_file(&mut self, path: &[u8]) -> (r: Result<usize, ErrorKind>)
        ensures
            creates(old(self).dir(), path@, final(self).dir(), r),
            final(self).mark() == old(self).mark(),
    {
        create(&mut self.directory, path)
    }

    /// Creates the directory at `path`, with any missing parents.
    pub fn create_dir(&mut self, path: &[u8]) -> (r: Result<usize, ErrorKind>)
        ensures
            creates(old(self).dir(), path@, final(self).dir(), r),
            final(self).mark() == old(self).mark(),
    {
        create(&mut self.directory, path)
    }

    /// Writes `data` as the file at `path`: returns the descriptor and the
    /// ciphertext that the host writes at the high-water mark, which moves
    /// past it.
    ///
    /// Fails with `InvalidInput` when the length or the new mark would not fit
    /// in 32 bits or `path` names a directory with contents, with `Io` when no
    /// nonce can be drawn, and as `create` fails. On failure nothing changes.
    pub fn create_file(&mut self, path: &[u8], data: &[u8], key: &Key) -> (r: Result<(Descriptor, Vec<Block>), ErrorKind>)
        ensures
            payload_fits(old(self).mark(), data@) ==> {
                ||| r == Err::<(Descriptor, Vec<Block>), ErrorKind>(ErrorKind::Io) && final(self).dir() == old(self).dir()
                    && final(self).mark() == old(self).mark()
                ||| exists|nonce: Block| #[trigger] places_file(old(self).mark(), old(self).dir(), path@, data@, *key, nonce,
                    final(self).mark(), final(self).dir(), res_pair(r))
            },
            !payload_fits(old(self).mark(), data@) ==> r == Err::<(Descriptor, Vec<Block>), ErrorKind>(ErrorKind::InvalidInput)
                && final(self).dir() == old(self).dir() && final(self).mark() == old(self).mark(),
            walk_top(old(self).dir(), path@) is Blocked ==> r == Err::<(Descriptor, Vec<Block>), ErrorKind>(ErrorKind::InvalidInput)
                && final(self).dir() == old(self).dir() && final(self).mark() == old(self).mark(),
    {
        if data.len() > u32::MAX as usize || crate::memory::blocks_count(data.len()) > (u32::MAX - self.high_mark) as usize {
            return Err(ErrorKind::InvalidInput);
        }
        if let crate::dir::Located::Blocked(_, _) = crate::dir::locate(self.directory.as_slice(), path) {
            let ghost od = self.directory@;
            assert(creates(od, path@, od, Err(ErrorKind::InvalidInput)));
            assert(places_file(self.high_mark, od, path@, data@, *key, crate::types::zero_block(), self.high_mark, od,
                Err(ErrorKind::InvalidInput)));
            return Err(ErrorKind::InvalidInput);
        }
        let nonce = match fresh_nonce() {
            Ok(n) => n,
            Err(e) => {
                return Err(e);
            },
        };
        self.create_file_sealed(path, data, key, &nonce)
    }

    /// Writes `data` as the file at `path`, encrypted under `nonce`; see
    /// `places_file` for the outcome, which the nonce does not decide.
    pub fn create_file_sealed(&mut self, path: &[u8], data: &[u8], key: &Key, nonce: &Block) -> (r: Result<(Descriptor, Vec<Block>), ErrorKind>)
        ensures
            places_file(old(self).mark(), old(self).dir(), path@, data@, *key, *nonce, final(self).mark(), final(self).dir(), res_pair(r)),
    {
        let ghost od = self.directory@;
        if data.len() > u32::MAX as usize {
            return Err(ErrorKind::InvalidInput);
        }
        let mut c = blocks_from_bytes(data);
        let ghost plain = c@;
        if c.len() > (u32::MAX - self.high_mark) as usize {
            return Err(ErrorKind::InvalidInput);
        }
        let size = c.len() as u32;
        let mac = seal_with(&mut c, size, nonce, key);
        let r0 = create(&mut self.directory, path);
        let ghost mid = self.directory@;
        let i = match r0 {
            Ok(i) => i,
            Err(e) => {
                assert forall|m2: Seq<Descriptor>, r2: Result<usize, ErrorKind>| #[trigger] creates(od, path@, m2, r2) implies r2 == r0 by {
                    lemma_creates_unique(od, path@, mid, r0, m2, r2);
                }
                return Err(e);
            },
        };
        if self.directory[i].content_type == 0 && self.directory[i].content_size != 0 {
            proof {
                crate::memory::lemma_created_nonempty_dir_was_there(od, path@, mid, i);
            }
            assert forall|m2: Seq<Descriptor>, r2: Result<usize, ErrorKind>| #[trigger] creates(od, path@, m2, r2) implies r2 == r0 && m2 == mid by {
                lemma_creates_unique(od, path@, mid, r0, m2, r2);
            }
            return Err(ErrorKind::InvalidInput);
        }
        let desc = Descriptor {
            name: self.directory[i].name,
            content_type: 1,
            content_size: data.len() as u32,
            section: Section { offset: self.high_mark, size, nonce: *nonce, mac },
        };
        self.directory.set(i, desc);
        self.high_mark = self.high_mark + size;
        assert(masked(*key, desc.section.nonce@, plain, c@));
        assert(holds_bytes(plain, data@));
        assert(self.directory@ == mid.update(i as int, desc));
        assert forall|m2: Seq<Descriptor>, r2: Result<usize, ErrorKind>| #[trigger] creates(od, path@, m2, r2) implies r2 == r0 && m2 == mid by {
            lemma_creates_unique(od, path@, mid, r0, m2, r2);
        }
        assert(creates(od, path@, mid, r0));
        assert(sealed_payload(old(self).mark(), data@, *key, *nonce, desc, c@));
        Ok((desc, c))
    }

    /// Decrypts ciphertext read from the extent of `section`.
    pub fn read_section(&self, section: &Section, c: Vec<Block>, key: &Key) -> (r: Result<Vec<Block>, ErrorKind>)
        ensures
            opens_extent(c@, *section, *key, res_seq(r)),
    {
        open_extent(c, section, key)
    }

    /// Decrypts a file's payload from the ciphertext of its section into
    /// `dest`, from `byte_offset` on.
    pub fn read_data_into(&self, desc: &Descriptor, c: Vec<Block>, key: &Key, byte_offset: usize, dest: &mut [u8]) -> (r: Result<(), ErrorKind>)
        ensures
            opens_into(c@, *desc, *key, byte_offset as int, old(dest)@, final(dest)@, r),
    {
        open_data_into(c, desc, key, byte_offset, dest)
    }

    /// Decrypts a file's payload from the ciphertext of its section and reads
    /// it as UTF-8 text.
    pub fn read_to_string(&self, desc: &Descriptor, c: Vec<Block>, key: &Key) -> (r: Result<String, ErrorKind>)
        ensures
            opens_text(c@, *desc, *key, r),
    {
        open_text(c, desc, key)
    }

    /// Decrypts a file's payload from the ciphertext of its section.
    pub fn read_data(&self, desc: &Descriptor, c: Vec<Block>, key: &Key) -> (r: Result<Vec<u8>, ErrorKind>)
        ensures
            opens_data(c@, *desc, *key, r),
    {
        open_data(c, desc, key)
    }

    /// Checks the directory for data below `high_mark`; see `fsck`.
    pub fn fsck(&self, high_mark: u32, log: &mut String) -> (r: bool)
        ensures
            r == fsck_ok(self.dir(), high_mark),
            r <==> final(log)@ == old(log)@,
    {
        fsck(self.directory.as_slice(), high_mark, log)
    }

    /// A drawing of the directory at `path`; see `display_children`.
    pub fn display_children<'a>(&'a self, path: Option<&'a str>, art: &TreeArt) -> (r: Option<DirFmt<'a>>)
        ensures
            displays(self.dir(), path, *art, r),
    {
        display_children(self.directory.as_slice(), path, art)
    }

    /// The descriptor that `path` names.
    pub fn find_desc(&self, path: &[u8]) -> (r: Option<&Descriptor>)
        ensures
            match find_path(self.dir(), path@) {
                Some(i) => r == Some(&self.dir()[i]),
                None => r is None,
            },
    {
        find_desc(self.directory.as_slice(), path)
    }

    /// The file descriptor that `path` names.
    pub fn find_file(&self, path: &[u8]) -> (r: Option<&Descriptor>)
        ensures
            match find_path(self.dir(), path@) {
                Some(i) => if self.dir()[i].is_dir_spec() { r is None } else { r == Some(&self.dir()[i]) },
                None => r is None,
            },
    {
        find_file(self.directory.as_slice(), path)
    }

    /// Removes the subtree at `path`; see `remove`.
    pub fn remove(&mut self, path: &[u8]) -> (r: Option<Vec<Descriptor>>)
        ensures
            removes(old(self).dir(), path@, final(self).dir(), opt_view(r)),
            final(self).mark() == old(self).mark(),
    {
        remove(&mut self.directory, path)
    }

    /// Moves the subtree at `src` to `dst`; see `move_file`.
    pub fn move_file(&mut self, src: &[u8], dst: &[u8]) -> (r: Result<(), ErrorKind>)
        ensures
            moves(old(self).dir(), src@, dst@, final(self).dir(), r),
            final(self).mark() == old(self).mark(),
    {
        move_file(&mut self.directory, src, dst)
    }

    /// Links `path` to the payload of `src`; see `create_link`.
    pub fn create_link(&mut self, path: &[u8], src: &Descriptor) -> (r: Result<usize, ErrorKind>)
        ensures
            links(old(self).dir(), path@, *src, final(self).dir(), r),
            final(self).mark() == old(self).mark(),
    {
        create_link(&mut self.directory, path, src)
    }

    /// Encrypts the directory for the high-water mark and seals a header that
    /// names it. The host writes `directory` at `offset`, makes it durable,
    /// and only then writes `header` at block zero: until that last write the
    /// file's old header still names the old, untouched directory.
    ///
    /// Fails with `InvalidInput` when the directory's end would not fit in 32
    /// bits, and with `Io` when no nonce can be drawn.
    pub fn finish(self, key: &Key) -> (r: Result<Commit, ErrorKind>)
        ensures
            self.mark() + 4 * self.dir().len() > u32::MAX ==> r == Err::<Commit, ErrorKind>(ErrorKind::InvalidInput),
            self.mark() + 4 * self.dir().len() <= u32::MAX ==> match r {
                Ok(commit) => exists|dn: Block, hn: Block| #[trigger] commits_under(self.dir(), self.mark(), *key, commit, dn, hn),
                Err(e) => e == ErrorKind::Io,
            },
    {
        if self.high_mark as u128 + 4 * self.directory.len() as u128 > u32::MAX as u128 {
            return Err(ErrorKind::InvalidInput);
        }
        let dn = match fresh_nonce() {
            Ok(n) => n,
            Err(e) => {
                return Err(e);
            },
        };
        let hn = match fresh_nonce() {
            Ok(n) => n,
            Err(e) => {
                return Err(e);
            },
        };
        let ghost d = self.dir();
        let ghost m = self.mark();
        match self.finish_sealed(key, &dn, &hn) {
            Ok(commit) => {
                assert(commits_under(d, m, *key, commit, dn, hn));
                Ok(commit)
            },
            Err(e) => Err(e),
        }
    }

    /// Encrypts the directory under `dn` for the high-water mark and seals a
    /// header under `hn` that names it; see `finish`. Fails with
    /// `InvalidInput` exactly when the directory's end would not fit in 32 bits.
    pub fn finish_sealed(self, key: &Key, dn: &Block, hn: &Block) -> (r: Result<Commit, ErrorKind>)
        ensures
            self.mark() + 4 * self.dir().len() > u32::MAX ==> r == Err::<Commit, ErrorKind>(ErrorKind::InvalidInput),
            self.mark() + 4 * self.dir().len() <= u32::MAX ==> (r matches Ok(commit) && commits_under(self.dir(), self.mark(), *key, commit, *dn, *hn)),
    {
        if self.high_mark as u128 + 4 * self.directory.len() as u128 > u32::MAX as u128 {
            return Err(ErrorKind::InvalidInput);
        }
        let mut c = encode_dir(&self.directory);
        let ghost plain = c@;
        let n = self.directory.len() as u32;
        let mac = seal_with(&mut c, n, dn, key);
        let info = InfoHeader {
            version: VERSION,
            reserved: 0,
            directory: Section { offset: self.high_mark, size: n, nonce: *dn, mac },
        };
        let header = header_sealed(&info, hn, key);
        let commit = Commit { offset: self.high_mark, directory: c, header };
        assert(seals_header(commit.header@, info, *key));
        assert(masked(*key, info.directory.nonce@, plain, commit.directory@));
        assert(info.directory.size == self.dir().len());
        assert(encodes_dir(plain, self.dir()));
        assert(info.directory.mac@ == mac_of(*key, info.directory.size, info.directory.nonce@, commit.directory@));
        assert(commits_with(self.dir(), self.mark(), *key, commit, info, plain));
        assert(commit.header@[0] == *hn);
        assert(commits_under(self.dir(), self.mark(), *key, commit, *dn, *hn));
        Ok(commit)
    }
}

} // verus!
