//! An encrypted single-file archive: a flat, pre-order directory of
//! descriptors, authenticated sections and the editors that maintain them.
//!
//! Every function is verified against its contract. The general properties
//! of the format are proof functions: `laws` for sealing, reading back,
//! reopening and collecting, `tree` for the directory's structure.

pub mod types;
pub mod cipher;
pub mod crypt;
pub mod codec;
pub mod dir;
pub mod archive;
pub mod text;
pub mod memory;
pub mod file_io;
pub mod display;
pub mod fsck;
pub mod laws;
pub mod tree;
pub mod key;

pub use types::{Block, Key, ErrorKind, Section, Name, Descriptor, InfoHeader, BLOCK_SIZE, NAME_LEN, HEADER_BLOCKS, DESC_BLOCKS, VERSION};
pub use dir::{name_eq, next_sibling, find, find_desc, find_file, create, remove, create_link, move_file};
pub use archive::{open_header, read_section, read_data, read_data_into};
pub use memory::{MemoryEditor, MemoryReader};
pub use file_io::{FileEditor, FileReader, Commit, stream_len};
pub use display::{DirFmt, TreeArt, display_children};
pub use fsck::fsck;
pub use key::parse_key;
pub use codec::{blocks_from_bytes, bytes_from_blocks};
