use paks::{open_header, Block, Descriptor, ErrorKind, FileEditor, FileReader, Key, MemoryEditor, MemoryReader, HEADER_BLOCKS};

fn to_bytes(blocks: &[Block]) -> Vec<u8> {
	blocks.iter().flat_map(|b| b.iter().copied()).collect()
}

#[test]
fn round_trip_sub_foo() {
	let key: Key = [0, 0];
	let data = [0xCFu8; 65];
	let mut edit = MemoryEditor::new();
	let desc = edit.create_file(b"sub/foo", &data, &key).unwrap();
	assert_eq!(desc.content_size, 65);
	assert_eq!(desc.section.size, 5);
	assert_eq!(desc.section.offset, 8);
	let (blocks, dir) = edit.finish(&key).unwrap();
	assert_eq!(dir.len(), 2);
	assert_eq!(blocks.len(), 8 + 5 + 2 * 4);
	let read = MemoryReader::from_blocks(blocks, &key).unwrap();
	assert_eq!(read.read(b"sub/foo", &key).unwrap(), &data[..]);
}

#[test]
fn round_trip_readme_key() {
	let key: Key = [13, 42];
	let data = [0xCFu8; 65];
	let mut edit = MemoryEditor::new();
	edit.create_file(b"sub/foo", &data, &key).unwrap();
	let (blocks, _) = edit.finish(&key).unwrap();
	let bytes = to_bytes(&blocks);
	let read = MemoryReader::from_bytes(&bytes, &key).unwrap();
	assert_eq!(read.read(b"sub/foo", &key).unwrap(), &data[..]);
}

#[test]
fn round_trip_empty_and_block_sized() {
	let key: Key = [1, 2];
	let mut edit = MemoryEditor::new();
	edit.create_file(b"e", b"", &key).unwrap();
	edit.create_file(b"s", &[7u8; 16], &key).unwrap();
	let (blocks, _) = edit.finish(&key).unwrap();
	let read = MemoryReader::from_blocks(blocks, &key).unwrap();
	assert_eq!(read.read(b"e", &key).unwrap(), Vec::<u8>::new());
	assert_eq!(read.read(b"s", &key).unwrap(), vec![7u8; 16]);
}

#[test]
fn last_write_wins() {
	let key: Key = [5, 6];
	let mut edit = MemoryEditor::new();
	edit.create_file(b"p", b"first", &key).unwrap();
	edit.create_file(b"p", b"second!", &key).unwrap();
	assert_eq!(edit.read(b"p", &key).unwrap(), b"second!");
	assert_eq!(edit.directory().len(), 1);
}

#[test]
fn reopen_twice_keeps_contents() {
	let key: Key = [9, 9];
	let mut edit = MemoryEditor::new();
	edit.create_file(b"d/a", b"alpha", &key).unwrap();
	edit.create_file(b"b", b"beta", &key).unwrap();
	let (blocks, dir1) = edit.finish(&key).unwrap();
	let edit2 = MemoryEditor::from_blocks(blocks, &key).unwrap();
	let (blocks2, dir2) = edit2.finish(&key).unwrap();
	let read = MemoryReader::from_blocks(blocks2, &key).unwrap();
	assert_eq!(dir1, dir2);
	assert_eq!(read.directory(), &dir1);
	assert_eq!(read.read(b"d/a", &key).unwrap(), b"alpha");
	assert_eq!(read.read(b"b", &key).unwrap(), b"beta");
}

#[test]
fn remove_then_find_parents() {
	let key: Key = [0, 0];
	let mut edit = MemoryEditor::new();
	edit.create_dir(b"a/b/c").unwrap();
	assert!(edit.remove(b"a/b/c").is_some());
	let b = edit.find_desc(b"a/b").unwrap();
	assert!(b.is_dir());
	assert_eq!(b.content_size, 0);
	let a = edit.find_desc(b"a").unwrap();
	assert!(a.is_dir());
	assert_eq!(a.content_size, 1);
	assert!(edit.read(b"a/b/c", &key).is_err());
}

#[test]
fn link_survives_removal() {
	let key: Key = [3, 4];
	let mut edit = MemoryEditor::new();
	let x = edit.create_file(b"x", b"hello", &key).unwrap();
	edit.create_link(b"y", &x).unwrap();
	assert_eq!(edit.read(b"y", &key).unwrap(), b"hello");
	assert!(edit.remove(b"x").is_some());
	assert_eq!(edit.read(b"y", &key).unwrap(), b"hello");
	assert_eq!(edit.read(b"x", &key), Err(ErrorKind::NotFound));
}

#[test]
fn move_in_editor() {
	let key: Key = [0, 1];
	let mut edit = MemoryEditor::new();
	edit.create_file(b"foo/bar", b"1", &key).unwrap();
	edit.create_file(b"foo/baz", b"2", &key).unwrap();
	edit.move_file(b"foo", b"qux").unwrap();
	assert!(edit.find_desc(b"qux/bar").is_some());
	assert!(edit.find_desc(b"qux/baz").is_some());
	assert!(edit.find_desc(b"foo").is_none());
	assert_eq!(edit.read(b"qux/baz", &key).unwrap(), b"2");
}

#[test]
fn gc_shrinks_archive() {
	let key: Key = [11, 12];
	let mut edit = MemoryEditor::new();
	edit.create_file(b"gone", &[1u8; 40], &key).unwrap();
	edit.create_file(b"kept", &[2u8; 20], &key).unwrap();
	assert!(edit.remove(b"gone").is_some());
	assert_eq!(edit.high_mark(), 8 + 3 + 2);
	edit.gc().unwrap();
	assert_eq!(edit.high_mark(), 8 + 2);
	assert_eq!(edit.find_desc(b"kept").unwrap().section.offset, 8);
	let (blocks, dir) = edit.finish(&key).unwrap();
	assert_eq!(blocks.len(), 8 + 2 + 4 * dir.len());
	let read = MemoryReader::from_blocks(blocks, &key).unwrap();
	assert_eq!(read.read(b"kept", &key).unwrap(), vec![2u8; 20]);
}

#[test]
fn gc_keeps_shared_extent_once() {
	let key: Key = [1, 1];
	let mut edit = MemoryEditor::new();
	edit.create_file(b"junk", &[9u8; 16], &key).unwrap();
	let x = edit.create_file(b"x", b"shared bytes", &key).unwrap();
	edit.create_link(b"y", &x).unwrap();
	edit.create_link(b"z/w", &x).unwrap();
	assert!(edit.remove(b"junk").is_some());
	let before: Vec<Vec<u8>> = [&b"x"[..], b"y", b"z/w"].iter().map(|p| edit.read(p, &key).unwrap()).collect();
	edit.gc().unwrap();
	assert_eq!(edit.high_mark(), 8 + 1);
	let after: Vec<Vec<u8>> = [&b"x"[..], b"y", b"z/w"].iter().map(|p| edit.read(p, &key).unwrap()).collect();
	assert_eq!(before, after);
}

#[test]
fn gc_clears_out_of_range_sections() {
	let key: Key = [1, 1];
	let mut edit = MemoryEditor::new();
	let mut bogus = Descriptor::file(b"b");
	bogus.section.offset = 1000;
	bogus.section.size = 2;
	edit.create_link(b"b", &bogus).unwrap();
	edit.gc().unwrap();
	assert_eq!(edit.find_desc(b"b").unwrap().section, paks::Section::default());
	assert_eq!(edit.high_mark(), 8);
}

#[test]
fn flipped_directory_byte_is_invalid_data() {
	let key: Key = [21, 22];
	let mut edit = MemoryEditor::new();
	edit.create_file(b"f", b"payload", &key).unwrap();
	let (blocks, _) = edit.finish(&key).unwrap();
	let mut bytes = to_bytes(&blocks);
	let dir_start = (8 + 1) * 16;
	bytes[dir_start + 40] ^= 0x10;
	assert!(matches!(MemoryEditor::from_bytes(&bytes, &key), Err(ErrorKind::InvalidData)));
	assert!(matches!(MemoryReader::from_bytes(&bytes, &key), Err(ErrorKind::InvalidData)));
}

#[test]
fn flipped_bits_are_detected() {
	let key: Key = [21, 22];
	let mut edit = MemoryEditor::new();
	edit.create_file(b"f", b"payload", &key).unwrap();
	let (blocks, _) = edit.finish(&key).unwrap();
	// In the payload: the read fails.
	let mut b = blocks.clone();
	b[8][3] ^= 1;
	let read = MemoryReader::from_blocks(b, &key).unwrap();
	assert_eq!(read.read(b"f", &key), Err(ErrorKind::InvalidData));
	// In the header: nothing opens.
	for i in 0..HEADER_BLOCKS {
		let mut h = blocks.clone();
		h[i][7] ^= 0x80;
		assert!(MemoryReader::from_blocks(h, &key).is_err());
	}
}

#[test]
fn wrong_key_is_invalid_data() {
	let key: Key = [1, 2];
	let (blocks, _) = MemoryEditor::new().finish(&key).unwrap();
	let bytes = to_bytes(&blocks);
	assert!(matches!(MemoryReader::from_bytes(&bytes, &[2, 1]), Err(ErrorKind::InvalidData)));
	assert_eq!(open_header(&blocks, &[2, 1]), Err(ErrorKind::InvalidData));
	assert!(MemoryReader::from_bytes(&bytes, &key).is_ok());
}

#[test]
fn misaligned_bytes_are_invalid_input() {
	let key: Key = [0, 0];
	assert!(matches!(MemoryReader::from_bytes(&[0u8; 17], &key), Err(ErrorKind::InvalidInput)));
	assert!(matches!(MemoryEditor::from_bytes(&[0u8; 17], &key), Err(ErrorKind::InvalidInput)));
}

#[test]
fn read_errors() {
	let key: Key = [0, 0];
	let mut edit = MemoryEditor::new();
	edit.create_file(b"d/f", b"text", &key).unwrap();
	assert_eq!(edit.read(b"d", &key), Err(ErrorKind::InvalidInput));
	assert_eq!(edit.read(b"nope", &key), Err(ErrorKind::NotFound));
	let d = *edit.find_desc(b"d").unwrap();
	assert_eq!(edit.read_data(&d, &key), Err(ErrorKind::InvalidInput));
	let mut far = *edit.find_desc(b"d/f").unwrap();
	far.section.offset = 500;
	assert_eq!(edit.read_data(&far, &key), Err(ErrorKind::InvalidInput));
	assert_eq!(edit.read_to_string(b"d/f", &key).unwrap(), "text");
	assert_eq!(edit.create_file(b"d", b"x", &key), Err(ErrorKind::InvalidInput));
}

#[test]
fn read_to_string_rejects_bad_utf8() {
	let key: Key = [0, 0];
	let mut edit = MemoryEditor::new();
	edit.create_file(b"bin", &[0xff, 0xfe], &key).unwrap();
	assert_eq!(edit.read_to_string(b"bin", &key), Err(ErrorKind::InvalidData));
}

#[test]
fn read_into_buffer() {
	let key: Key = [4, 4];
	let mut edit = MemoryEditor::new();
	let desc = edit.create_file(b"f", b"0123456789abcdefXYZ", &key).unwrap();
	let mut buf = [0u8; 4];
	edit.read_data_into(&desc, &key, 14, &mut buf).unwrap();
	assert_eq!(&buf, b"efXY");
	let mut big = [0u8; 40];
	assert_eq!(edit.read_data_into(&desc, &key, 0, &mut big), Err(ErrorKind::InvalidInput));
	let plain = edit.read_section(&desc.section, &key).unwrap();
	assert_eq!(plain.len(), 2);
	assert_eq!(&plain[0], b"0123456789abcdef");
	assert_ne!(edit.read_section(&desc.section, &[1, 0]), Ok(plain));
}

fn write_at(disk: &mut Vec<Block>, offset: u32, blocks: &[Block]) {
	let offset = offset as usize;
	if disk.len() < offset + blocks.len() {
		disk.resize(offset + blocks.len(), [0u8; 16]);
	}
	disk[offset..offset + blocks.len()].copy_from_slice(blocks);
}

fn open_reader(disk: &[Block], key: &Key) -> FileReader {
	let info = open_header(&disk.to_vec(), key).unwrap();
	let start = info.directory.offset as usize;
	let end = start + 4 * info.directory.size as usize;
	FileReader::open(&info, disk[start..end].to_vec(), key).unwrap()
}

fn open_editor(disk: &[Block], key: &Key) -> FileEditor {
	let info = open_header(&disk.to_vec(), key).unwrap();
	let start = info.directory.offset as usize;
	let end = start + 4 * info.directory.size as usize;
	FileEditor::open(&info, disk[start..end].to_vec(), key).unwrap()
}

fn read_file(disk: &[Block], reader: &FileReader, path: &[u8], key: &Key) -> Result<Vec<u8>, ErrorKind> {
	let desc = reader.find_file(path).ok_or(ErrorKind::NotFound)?;
	let start = desc.section.offset as usize;
	let end = start + desc.section.size as usize;
	reader.read_data(desc, disk[start..end].to_vec(), key)
}

#[test]
fn test_corrupt1() {
	let key: Key = [0, 0];
	let mut disk = FileEditor::create_empty(&key).unwrap();
	assert_eq!(disk.len(), 8);
	let mut edit = open_editor(&disk, &key);
	assert_eq!(edit.high_mark(), 8);
	let (desc, c) = edit.create_file(b"example", b"abcdefghijklmnopqrstuvwxyzabcdefghijklmnopqrstuvwxyz", &key).unwrap();
	write_at(&mut disk, desc.section.offset, &c);
	let commit = edit.finish(&key).unwrap();
	write_at(&mut disk, commit.offset, &commit.directory);
	write_at(&mut disk, 0, &commit.header);
	let reader = open_reader(&disk, &key);
	assert_eq!(reader.high_mark(), 8 + 4);
	assert_eq!(read_file(&disk, &reader, b"example", &key).unwrap(), b"abcdefghijklmnopqrstuvwxyzabcdefghijklmnopqrstuvwxyz");
}

#[test]
fn crash_before_finish_keeps_old_archive() {
	let key: Key = [7, 7];
	let (mut edit, header) = FileEditor::create_new(&key).unwrap();
	let mut disk = header;
	let (desc, c) = edit.create_file(b"a", b"old", &key).unwrap();
	write_at(&mut disk, desc.section.offset, &c);
	let commit = edit.finish(&key).unwrap();
	write_at(&mut disk, commit.offset, &commit.directory);
	write_at(&mut disk, 0, &commit.header);

	// A second session writes a payload and dies before finishing.
	let mut edit = open_editor(&disk, &key);
	let old_end = disk.len() as u32;
	assert_eq!(edit.high_mark(), old_end);
	let (desc, c) = edit.create_file(b"b", b"new", &key).unwrap();
	assert!(desc.section.offset >= old_end);
	write_at(&mut disk, desc.section.offset, &c);
	let reader = open_reader(&disk, &key);
	assert_eq!(read_file(&disk, &reader, b"a", &key).unwrap(), b"old");
	assert_eq!(read_file(&disk, &reader, b"b", &key), Err(ErrorKind::NotFound));

	// It then writes its directory but dies before the header.
	let commit = edit.finish(&key).unwrap();
	assert!(commit.offset >= old_end);
	write_at(&mut disk, commit.offset, &commit.directory);
	let reader = open_reader(&disk, &key);
	assert_eq!(read_file(&disk, &reader, b"a", &key).unwrap(), b"old");
	assert_eq!(read_file(&disk, &reader, b"b", &key), Err(ErrorKind::NotFound));

	// Once the header lands, the new state is visible.
	write_at(&mut disk, 0, &commit.header);
	let reader = open_reader(&disk, &key);
	assert_eq!(read_file(&disk, &reader, b"b", &key).unwrap(), b"new");
	assert_eq!(read_file(&disk, &reader, b"a", &key).unwrap(), b"old");
}

#[test]
fn file_reader_rejects_tampered_directory() {
	let key: Key = [1, 3];
	let (mut edit, mut disk) = FileEditor::create_new(&key).unwrap();
	edit.create_dir(b"x/y").unwrap();
	let commit = edit.finish(&key).unwrap();
	write_at(&mut disk, commit.offset, &commit.directory);
	write_at(&mut disk, 0, &commit.header);
	let info = open_header(&disk, &key).unwrap();
	assert_eq!(info.version, paks::VERSION);
	let start = info.directory.offset as usize;
	let mut dir = disk[start..].to_vec();
	dir[1][0] ^= 4;
	assert!(matches!(FileReader::open(&info, dir, &key), Err(ErrorKind::InvalidData)));
	assert!(matches!(FileReader::open(&info, disk[start..start + 4].to_vec(), &key), Err(ErrorKind::InvalidData)));
}

#[test]
fn file_reader_reads_into_buffer() {
	let key: Key = [2, 5];
	let (mut edit, mut disk) = FileEditor::create_new(&key).unwrap();
	let (desc, c) = edit.create_file(b"t", b"0123456789abcdefXYZ", &key).unwrap();
	write_at(&mut disk, desc.section.offset, &c);
	let commit = edit.finish(&key).unwrap();
	write_at(&mut disk, commit.offset, &commit.directory);
	write_at(&mut disk, 0, &commit.header);
	let reader = open_reader(&disk, &key);
	let desc = *reader.find_file(b"t").unwrap();
	let start = desc.section.offset as usize;
	let blocks = disk[start..start + desc.section.size as usize].to_vec();
	let mut buf = [0u8; 5];
	reader.read_data_into(&desc, blocks.clone(), &key, 13, &mut buf).unwrap();
	assert_eq!(&buf, b"defXY");
	let mut big = [0u8; 33];
	assert_eq!(reader.read_data_into(&desc, blocks.clone(), &key, 0, &mut big), Err(ErrorKind::InvalidInput));
	assert_eq!(reader.read_data_into(&desc, blocks[..1].to_vec(), &key, 0, &mut buf), Err(ErrorKind::InvalidInput));
	let plain = reader.read_section(&desc.section, blocks, &key).unwrap();
	assert_eq!(&plain[1][..3], b"XYZ");
}

#[test]
fn sealed_writes_are_fixed_by_the_nonce() {
	let key: Key = [8, 9];
	let nonce: Block = [7u8; 16];
	let mut a = MemoryEditor::new();
	let mut b = MemoryEditor::new();
	let da = a.create_file_sealed(b"d/f", b"same bytes", &key, &nonce).unwrap();
	let db = b.create_file_sealed(b"d/f", b"same bytes", &key, &nonce).unwrap();
	assert_eq!(da, db);
	assert_eq!(da.section.nonce, nonce);
	assert_eq!(a.read(b"d/f", &key).unwrap(), b"same bytes");
	assert_eq!(a.create_file_sealed(b"d/f/g", b"x", &key, &nonce), Err(ErrorKind::InvalidInput));
	assert_eq!(a.create_file_sealed(b"d", b"x", &key, &nonce), Err(ErrorKind::InvalidInput));
	let (ba, _) = a.finish(&key).unwrap();
	let out = paks::memory::finish_sealed(ba.clone(), b.directory(), &key, &[1u8; 16], &[2u8; 16]).unwrap();
	assert_eq!(out[0], [2u8; 16]);
	assert_eq!(out.len(), ba.len() + 4 * 2);
	let read = MemoryReader::from_blocks(out, &key).unwrap();
	assert_eq!(read.read(b"d/f", &key).unwrap(), b"same bytes");
}

#[test]
fn file_editor_errors_and_text() {
	let key: Key = [3, 3];
	let (mut edit, mut disk) = FileEditor::create_new(&key).unwrap();
	let (desc, c) = edit.create_file(b"f", b"text", &key).unwrap();
	write_at(&mut disk, desc.section.offset, &c);
	let mark = edit.high_mark();
	assert!(matches!(edit.create_file(b"f/x", b"y", &key), Err(ErrorKind::InvalidInput)));
	assert_eq!(edit.high_mark(), mark);
	let commit = edit.finish_sealed(&key, &[4u8; 16], &[5u8; 16]).unwrap();
	assert_eq!(commit.header[0], [5u8; 16]);
	write_at(&mut disk, commit.offset, &commit.directory);
	write_at(&mut disk, 0, &commit.header);
	let info = open_header(&disk, &key).unwrap();
	assert_eq!(paks::stream_len(&info), disk.len() as u64);
	let reader = open_reader(&disk, &key);
	let d = *reader.find_file(b"f").unwrap();
	let start = d.section.offset as usize;
	let blocks = disk[start..start + d.section.size as usize].to_vec();
	assert_eq!(reader.read_to_string(&d, blocks, &key).unwrap(), "text");
	let h = paks::file_io::empty_header_sealed(&key, &[1u8; 16], &[2u8; 16]);
	let empty = paks::open_header(&h, &key).unwrap();
	assert_eq!(paks::stream_len(&empty), 8);
}
