use vstd::prelude::*;

verus! {

/// The unit of every offset, size, nonce and MAC: sixteen bytes.
pub type Block = [u8; 16];

/// A 128-bit archive key, as two 64-bit words (low, high).
pub type Key = [u64; 2];

/// Size of a block in bytes.
pub const BLOCK_SIZE: usize = 16;

/// Capacity of a descriptor's name in bytes.
pub const NAME_LEN: usize = 16;

/// Blocks taken by the header at the start of an archive.
pub const HEADER_BLOCKS: usize = 8;

/// Blocks taken by one directory descriptor.
pub const DESC_BLOCKS: usize = 4;

/// The format version written into every header.
pub const VERSION: u32 = 0x0001_0000;

/// What went wrong in an archive operation.
#[derive(Copy, Clone, Debug, PartialEq, Eq, Structural)]
pub enum ErrorKind {
    /// A path does not name anything in the directory.
    NotFound,
    /// An argument is unusable: not a file, misaligned, out of bounds.
    InvalidInput,
    /// Authentication, version or encoding checks failed.
    InvalidData,
    /// The host could not provide I/O or randomness.
    Io,
}

pub open spec fn zero_block() -> Block {
    vstd::array::spec_array_fill_for_copy_type::<u8, 16>(0u8)
}

/// A run of encrypted blocks with the nonce and MAC that authenticate it.
#[derive(Copy, Clone, Debug, PartialEq, Eq)]
pub struct Section {
    pub offset: u32,
    pub size: u32,
    pub nonce: Block,
    pub mac: Block,
}

pub open spec fn empty_section() -> Section {
    Section { offset: 0, size: 0, nonce: zero_block(), mac: zero_block() }
}

impl Default for Section {
    fn default() -> (r: Section)
        ensures
            r == empty_section(),
    {
        Section { offset: 0, size: 0, nonce: [0u8; 16], mac: [0u8; 16] }
    }
}

impl Section {
    /// One past the last block of the section.
    pub open spec fn end(self) -> int {
        self.offset + self.size
    }

    /// The section that the header itself forms: its first eight blocks.
    pub fn header() -> (r: Section)
        ensures
            r == (Section { offset: 0, size: HEADER_BLOCKS as u32, nonce: zero_block(), mac: zero_block() }),
    {
        Section { offset: 0, size: HEADER_BLOCKS as u32, nonce: [0u8; 16], mac: [0u8; 16] }
    }
}

} // verus!

verus! {

/// Position of the first NUL at or after `i`, or the length when none.
pub open spec fn first_nul(b: Seq<u8>, i: int) -> int
    decreases b.len() - i,
{
    if i >= b.len() || i < 0 || b[i] == 0 {
        if i < 0 { 0 } else if i > b.len() { b.len() as int } else { i }
    } else {
        first_nul(b, i + 1)
    }
}

/// A zero-padded name of at most `NAME_LEN` bytes.
#[derive(Copy, Clone, Debug, PartialEq, Eq)]
pub struct Name {
    pub bytes: [u8; 16],
}

impl Name {
    /// The name: its bytes up to the first NUL.
    pub open spec fn view(self) -> Seq<u8> {
        self.bytes@.take(first_nul(self.bytes@, 0))
    }

    /// The bytes `n` followed by zero padding.
    pub open spec fn holds(self, n: Seq<u8>) -> bool {
        &&& n.len() <= 16
        &&& self.bytes@.take(n.len() as int) == n
        &&& forall|i: int| n.len() <= i < 16 ==> self.bytes@[i] == 0
    }

    /// Stores `name`, zero-padded; bytes beyond `NAME_LEN` are dropped.
    pub fn set(&mut self, name: &[u8])
        ensures
            final(self).holds(name@.take(if name@.len() <= 16 { name@.len() as int } else { 16 })),
    {
        let n: usize = if name.len() <= 16 { name.len() } else { 16 };
        let mut i: usize = 0;
        while i < 16
            invariant
                i <= 16,
                n <= 16,
                n <= name@.len(),
                n == (if name@.len() <= 16 { name@.len() as int } else { 16 }),
                forall|t: int| 0 <= t < i && t < n ==> self.bytes@[t] == name@[t],
                forall|t: int| n <= t < i ==> self.bytes@[t] == 0,
            decreases 16 - i,
        {
            if i < n {
                self.bytes[i] = name[i];
            } else {
                self.bytes[i] = 0;
            }
            i = i + 1;
        }
        assert(self.bytes@.take(n as int) =~= name@.take(n as int));
    }

    /// The length of the name: the position of its first NUL.
    pub fn len(&self) -> (r: usize)
        ensures
            r == first_nul(self.bytes@, 0),
            r <= 16,
    {
        let mut i: usize = 0;
        while i < 16 && self.bytes[i] != 0
            invariant
                i <= 16,
                first_nul(self.bytes@, 0) == first_nul(self.bytes@, i as int),
            decreases 16 - i,
        {
            i = i + 1;
        }
        i
    }

    /// The name's bytes.
    pub fn to_vec(&self) -> (r: Vec<u8>)
        ensures
            r@ == self.view(),
    {
        let n = self.len();
        let mut r: Vec<u8> = Vec::new();
        let mut i: usize = 0;
        while i < n
            invariant
                i <= n <= 16,
                r@ == self.bytes@.take(i as int),
            decreases n - i,
        {
            r.push(self.bytes[i]);
            assert(self.bytes@.take(i + 1) =~= self.bytes@.take(i as int).push(self.bytes@[i as int]));
            i = i + 1;
        }
        r
    }
}

/// One directory entry: a file, or a directory followed by its descendants.
#[derive(Copy, Clone, Debug, PartialEq, Eq)]
pub struct Descriptor {
    pub name: Name,
    /// `0` for a directory; any other value is a kind of file.
    pub content_type: u8,
    /// A file's length in bytes, or the number of a directory's descendants.
    pub content_size: u32,
    /// A file's encrypted payload; empty for a directory.
    pub section: Section,
}

impl Default for Descriptor {
    fn default() -> (r: Descriptor)
        ensures
            r.name.bytes == zero_block(),
            r.content_type == 0,
            r.content_size == 0,
            r.section == empty_section(),
    {
        Descriptor { name: Name { bytes: [0u8; 16] }, content_type: 0, content_size: 0, section: Section::default() }
    }
}

impl Descriptor {
    pub open spec fn is_dir_spec(&self) -> bool {
        self.content_type == 0
    }

    /// Blocks taken by the descriptor and its subtree.
    pub open spec fn span(self) -> int {
        if self.content_type == 0 { self.content_size + 1 } else { 1 }
    }

    #[verifier::when_used_as_spec(is_dir_spec)]
    pub fn is_dir(&self) -> (r: bool)
        ensures
            r == self.is_dir_spec(),
    {
        self.content_type == 0
    }

    pub fn is_file(&self) -> (r: bool)
        ensures
            r == !self.is_dir_spec(),
    {
        self.content_type != 0
    }

    /// The descriptor's name bytes.
    pub fn name(&self) -> (r: Vec<u8>)
        ensures
            r@ == self.name.view(),
    {
        self.name.to_vec()
    }

    /// A directory descriptor owning the `len` descriptors that follow it.
    pub fn dir(name: &[u8], len: u32) -> (r: Descriptor)
        ensures
            r.name.holds(name@.take(if name@.len() <= 16 { name@.len() as int } else { 16 })),
            r.content_type == 0,
            r.content_size == len,
            r.section == empty_section(),
    {
        let mut d = Descriptor::default();
        d.name.set(name);
        d.content_size = len;
        d
    }

    /// An empty file descriptor.
    pub fn file(name: &[u8]) -> (r: Descriptor)
        ensures
            r.name.holds(name@.take(if name@.len() <= 16 { name@.len() as int } else { 16 })),
            r.content_type == 1,
            r.content_size == 0,
            r.section == empty_section(),
    {
        let mut d = Descriptor::default();
        d.name.set(name);
        d.content_type = 1;
        d
    }
}

/// The part of the header that is encrypted: the version and the directory's section.
#[derive(Copy, Clone, Debug, PartialEq, Eq)]
pub struct InfoHeader {
    pub version: u32,
    pub reserved: u32,
    pub directory: Section,
}

} // verus!
