use std::ptr;

use paks::{create, find, find_desc, name_eq, next_sibling, remove, move_file, create_link};
use paks::{Descriptor, DirFmt, ErrorKind, Section, TreeArt};

#[test]
fn name_eq_example() {
	// Create an empty descriptor with name "test"
	let mut desc = Descriptor::default();
	desc.name.set(b"test");

	assert_eq!(name_eq(&desc, b"test"), Some(&b""[..]));
	assert_eq!(name_eq(&desc, b"test/a/b"), Some(&b"a/b"[..]));
	assert_eq!(name_eq(&desc, b"testing"), None);
	assert_eq!(name_eq(&desc, b"te"), None);
}

#[test]
fn next_sibling_example() {
	let dir = [
		Descriptor::dir(b"Foo", 2),
		Descriptor::file(b"Bar"),
		Descriptor::file(b"Baz"),
		Descriptor::dir(b"Sub", 1),
		Descriptor::dir(b"Dir", 0),
		Descriptor::file(b"File"),
	];
	let results = [true, false, false, true, false, true];

	let mut i = 0;
	let end = dir.len();
	while i < end {
		let desc = &dir[i];
		let next_i = next_sibling(desc, i, end);

		// Process the descriptor
		println!("processing dir[{}] out of {}", i, end);
		assert!(results[i]);

		// Advance the iteration
		i = next_i;
	}
}

#[test]
fn test_to_string() {
	let dir = [
		Descriptor::dir(b"Foo", 2),
		Descriptor::file(b"Bar"),
		Descriptor::file(b"Baz"),
		Descriptor::dir(b"Sub", 1),
		Descriptor::dir(b"Dir", 0),
		Descriptor::file(b"File"),
	];

	let expected = "\
./
+- Foo/
|  |  Bar
|  `  Baz
|  
+- Sub/
|  `- Dir/
|  
`  File
";

	let result = DirFmt::new(".", &dir, &TreeArt::ASCII).to_string();
	println!("\n{}", result);
	assert_eq!(expected, result);
}

#[test]
fn test_find_empty() {
	assert_eq!(find(&[], b"path"), &[]);
}

#[test]
fn test_find_desc01() {
	let mut dir = Vec::new();
	create(&mut dir, b"A/B/C").unwrap();

	let result1 = find_desc(&dir, b"A/B/C");
	let result2 = find_desc(&dir, b"A/B/D");

	assert_eq!(result1.unwrap().name(), b"C");
	assert!(result2.is_none());
}

#[test]
fn test_find() {
	let dir = [
		Descriptor::file(b"before"),
		Descriptor::dir(b"a", 3),
		Descriptor::dir(b"b", 2),
		Descriptor::dir(b"c", 1),
		Descriptor::file(b"file"),
	];

	assert!(ptr::eq(find(&dir, b"before"), &dir[0..1]));
	assert!(ptr::eq(find(&dir, b"a"), &dir[1..]));

	assert!(ptr::eq(find(&dir[2..], b"b"), &dir[2..]));

	assert_eq!(find(&dir, "file".as_ref()).len(), 0);
	assert!(ptr::eq(find(&dir[4..], b"file"), &dir[4..]));

	assert!(ptr::eq(find_desc(&dir, b"a\\b\\c\\file").unwrap(), &dir[4]));
}

#[test]
fn test_create_simple() {
	let path = b"stuff.txt";

	let mut dir = Vec::new();
	create(&mut dir, path).unwrap();

	assert_eq!(dir.len(), 1);
	let file = &dir[0];

	assert_eq!(file.content_type, 0);
	assert_eq!(file.content_size, 0);
	assert_eq!(file.section, Section::default());
	assert_eq!(file.name(), path);
}

#[test]
fn test_create_simple_dirs() {
	let path1 = b"A/FOO";
	let path2 = b"A/BAR";

	let mut dir = Vec::new();
	create(&mut dir, path1).unwrap();
	create(&mut dir, path2).unwrap();

	let result = [
		Descriptor::dir(b"A", 2),
		Descriptor::dir(b"FOO", 0),
		Descriptor::dir(b"BAR", 0),
	];
	assert_eq!(dir, result);
}

#[test]
fn create_existing_returns_it() {
	let mut dir = Vec::new();
	let i = create(&mut dir, b"a/b").unwrap();
	let before = dir.clone();
	assert_eq!(create(&mut dir, b"a/b"), Ok(i));
	assert_eq!(dir, before);
}

#[test]
fn create_below_file_is_invalid() {
	let mut dir = vec![Descriptor::file(b"f")];
	assert_eq!(create(&mut dir, b"f/x"), Err(ErrorKind::InvalidInput));
	assert_eq!(dir.len(), 1);
}

#[test]
fn create_rejects_bad_names() {
	let mut dir = Vec::new();
	assert_eq!(create(&mut dir, b""), Err(ErrorKind::InvalidInput));
	assert_eq!(create(&mut dir, b"a//b"), Err(ErrorKind::InvalidInput));
	assert_eq!(create(&mut dir, b"seventeen_bytes_x"), Err(ErrorKind::InvalidInput));
	assert!(dir.is_empty());
	assert!(create(&mut dir, b"sixteen_bytes_xx").is_ok());
}

#[test]
fn child_counts_match_windows() {
	let mut dir = Vec::new();
	for p in [&b"x/y/z"[..], b"x/w", b"v", b"x/y/u", b"t/s"] {
		create(&mut dir, p).unwrap();
	}
	// Every directory's window ends where its next sibling starts.
	let mut stack: Vec<usize> = Vec::new();
	let mut i = 0;
	while i < dir.len() {
		let end = next_sibling(&dir[i], i, dir.len());
		assert_eq!(end, i + 1 + dir[i].content_size as usize);
		while let Some(&top) = stack.last() {
			if i >= top { stack.pop(); } else { break; }
		}
		if let Some(&top) = stack.last() {
			assert!(end <= top);
		}
		stack.push(end);
		i += 1;
	}
	let mut top = 0;
	let mut total = 0;
	while top < dir.len() {
		total += 1 + dir[top].content_size as usize;
		top = next_sibling(&dir[top], top, dir.len());
	}
	assert_eq!(total, dir.len());
}

#[test]
fn sibling_names_stay_unique() {
	let mut dir = Vec::new();
	create(&mut dir, b"a/b").unwrap();
	create(&mut dir, b"a/b").unwrap();
	create(&mut dir, b"a\\b").unwrap();
	create(&mut dir, b"a/c").unwrap();
	assert_eq!(dir.len(), 3);
	assert_eq!(dir[0].content_size, 2);
}

#[test]
fn remove_shrinks_ancestors() {
	let mut dir = Vec::new();
	create(&mut dir, b"a/b/c").unwrap();
	let removed = remove(&mut dir, b"a/b/c").unwrap();
	assert_eq!(removed.len(), 1);
	assert_eq!(find_desc(&dir, b"a/b").unwrap().content_size, 0);
	assert_eq!(find_desc(&dir, b"a").unwrap().content_size, 1);
	assert!(find_desc(&dir, b"a/b/c").is_none());
	assert!(remove(&mut dir, b"a/b/c").is_none());
}

#[test]
fn remove_takes_whole_subtree() {
	let mut dir = Vec::new();
	create(&mut dir, b"r/a/x").unwrap();
	create(&mut dir, b"r/a/y").unwrap();
	create(&mut dir, b"r/b").unwrap();
	let removed = remove(&mut dir, b"r/a").unwrap();
	assert_eq!(removed.len(), 3);
	assert_eq!(dir.len(), 2);
	assert_eq!(dir[0].content_size, 1);
	assert!(find_desc(&dir, b"r/a").is_none());
	assert!(find_desc(&dir, b"r/a/x").is_none());
	assert!(find_desc(&dir, b"r/b").is_some());
}

#[test]
fn move_directory() {
	let mut dir = Vec::new();
	create(&mut dir, b"foo/bar").unwrap();
	create(&mut dir, b"foo/baz").unwrap();
	assert_eq!(move_file(&mut dir, b"foo", b"qux"), Ok(()));
	assert!(find_desc(&dir, b"qux/bar").is_some());
	assert!(find_desc(&dir, b"qux/baz").is_some());
	assert!(find_desc(&dir, b"foo").is_none());
	assert_eq!(find_desc(&dir, b"qux").unwrap().content_size, 2);
	assert_eq!(dir.len(), 3);
}

#[test]
fn move_into_new_parent_and_replace() {
	let mut dir = Vec::new();
	create(&mut dir, b"a").unwrap();
	create(&mut dir, b"b/c").unwrap();
	assert_eq!(move_file(&mut dir, b"a", b"b/c"), Ok(()));
	assert!(find_desc(&dir, b"a").is_none());
	assert_eq!(find_desc(&dir, b"b").unwrap().content_size, 1);
	assert_eq!(dir.len(), 2);
	assert_eq!(move_file(&mut dir, b"b", b"x/y/z"), Ok(()));
	assert!(find_desc(&dir, b"x/y/z/c").is_some());
	assert_eq!(find_desc(&dir, b"x").unwrap().content_size, 3);
}

#[test]
fn move_errors() {
	let mut dir = Vec::new();
	create(&mut dir, b"a/b").unwrap();
	let before = dir.clone();
	assert_eq!(move_file(&mut dir, b"nope", b"x"), Err(ErrorKind::NotFound));
	assert_eq!(move_file(&mut dir, b"a", b"a/b/c"), Err(ErrorKind::InvalidInput));
	assert_eq!(move_file(&mut dir, b"a", b"a"), Err(ErrorKind::InvalidInput));
	assert_eq!(dir, before);
}

#[test]
fn link_copies_payload_fields() {
	let mut dir = Vec::new();
	let mut src = Descriptor::file(b"x");
	src.content_size = 5;
	src.section.offset = 8;
	src.section.size = 1;
	let i = create_link(&mut dir, b"d/y", &src).unwrap();
	assert_eq!(dir[i].content_size, 5);
	assert_eq!(dir[i].section, src.section);
	assert_eq!(dir[i].name(), b"y");
	assert_eq!(create_link(&mut dir, b"z", &Descriptor::dir(b"q", 0)), Err(ErrorKind::InvalidInput));
}

#[test]
fn unicode_art() {
	let dir = [Descriptor::dir(b"A", 1), Descriptor::file(b"b"), Descriptor::file(b"c")];
	let s = DirFmt::new("r", &dir, &TreeArt::UNICODE).to_string();
	assert_eq!(s, "r/\n\u{251c}\u{2500} A/\n\u{2502}  \u{2514}  b\n\u{2502}  \n\u{2514}  c\n");
}

#[test]
fn move_into_own_subtree_past_a_file() {
	let mut dir = Vec::new();
	create(&mut dir, b"a/f").unwrap();
	dir[1].content_type = 1;
	let before = dir.clone();
	assert_eq!(move_file(&mut dir, b"a", b"a/f/x"), Err(ErrorKind::InvalidInput));
	assert_eq!(dir, before);
}
