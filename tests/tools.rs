use paks::{create, display_children, fsck, parse_key, Descriptor, TreeArt};

#[test]
fn parse_key_values() {
	assert_eq!(parse_key(b"0"), Some([0, 0]));
	assert_eq!(parse_key(b"1f"), Some([31, 0]));
	assert_eq!(parse_key(b"+FF"), Some([255, 0]));
	assert_eq!(parse_key(b"0123456789abcdef0011223344556677"), Some([0x0011223344556677, 0x0123456789abcdef]));
	assert_eq!(parse_key(b"ffffffffffffffffffffffffffffffff"), Some([u64::MAX, u64::MAX]));
	assert_eq!(parse_key(b"0000000000000000000000000000000000000001"), Some([1, 0]));
}

#[test]
fn parse_key_rejects() {
	assert_eq!(parse_key(b""), None);
	assert_eq!(parse_key(b"+"), None);
	assert_eq!(parse_key(b"xyz"), None);
	assert_eq!(parse_key(b"-1"), None);
	assert_eq!(parse_key(b"1ffffffffffffffffffffffffffffffff"), None);
}

#[test]
fn fsck_accepts_sound_directory() {
	let mut dir = Vec::new();
	create(&mut dir, b"a/b").unwrap();
	create(&mut dir, b"c").unwrap();
	let mut log = String::new();
	assert!(fsck(&dir, 8, &mut log));
	assert!(log.is_empty());
}

#[test]
fn fsck_reports_problems() {
	let dup = [Descriptor::file(b"x"), Descriptor::file(b"x")];
	let mut log = String::new();
	assert!(!fsck(&dup, 8, &mut log));
	assert!(!log.is_empty());

	let overrun = [Descriptor::dir(b"d", 3), Descriptor::file(b"y")];
	let mut log = String::new();
	assert!(!fsck(&overrun, 8, &mut log));
	assert!(!log.is_empty());

	let mut far = Descriptor::file(b"f");
	far.section.offset = 8;
	far.section.size = 4;
	let mut log = String::new();
	assert!(!fsck(&[far], 10, &mut log));
	assert!(fsck(&[far], 12, &mut String::new()));

	let mut big = Descriptor::file(b"g");
	big.section.offset = 8;
	big.section.size = 1;
	big.content_size = 17;
	assert!(!fsck(&[big], 100, &mut String::new()));

	let sep = [Descriptor::file(b"a/b")];
	assert!(!fsck(&sep, 8, &mut String::new()));
}

#[test]
fn display_subdirectory() {
	let dir = [Descriptor::dir(b"d", 2), Descriptor::file(b"e"), Descriptor::file(b"f"), Descriptor::file(b"g")];
	let sub = display_children(&dir, Some("d"), &TreeArt::ASCII).unwrap();
	assert_eq!(sub.to_string(), "d/\n|  e\n`  f\n");
	assert!(display_children(&dir, Some("g"), &TreeArt::ASCII).is_none());
	assert!(display_children(&dir, Some("nope"), &TreeArt::ASCII).is_none());
	let all = display_children(&dir, None, &TreeArt::ASCII).unwrap();
	assert_eq!(all.to_string(), "./\n+- d/\n|  |  e\n|  `  f\n|  \n`  g\n");
}
