use git_starter_rust::entry::build_tree_entry_file;
use git_starter_rust::entry::build_tree_entry_from_dir;
use git_starter_rust::entry::create_tree_file;
use git_starter_rust::entry::get_tree_mode_by_path;
use git_starter_rust::entry::is_ignored;
use git_starter_rust::entry::parse_tree_entries;
use git_starter_rust::entry::parse_tree_object;
use git_starter_rust::entry::save_to_disk;
use git_starter_rust::entry::sort_by_filename;
use git_starter_rust::entry::tree_as_bytes;
use git_starter_rust::entry::Entry;
use git_starter_rust::error::GitError;
use std::io::Read;
use std::io::Write;

fn zlib(data: &[u8]) -> Vec<u8> {
    let mut e = flate2::write::ZlibEncoder::new(Vec::new(), flate2::Compression::default());
    e.write_all(data).unwrap();
    e.finish().unwrap()
}

fn entry(mode: &str, name: &str, sha: Vec<u8>) -> Entry {
    Entry { mode: mode.to_string(), filename: name.to_string(), sha }
}

fn sha20(b: u8) -> Vec<u8> {
    (0..20).map(|i| b.wrapping_add(i)).collect()
}

#[test]
fn tree_entry_bytes() {
    let e = entry("100644", "a.txt", vec![1, 2, 3]);
    assert_eq!(tree_as_bytes(&e), b"100644 a.txt\0\x01\x02\x03".to_vec());
}

#[test]
fn tree_file_has_header_and_body() {
    let mut es = vec![entry("100644", "a", vec![7; 20]), entry("40000", "d", vec![8; 20])];
    let t = create_tree_file(&mut es).unwrap();
    let mut expected = b"tree 57\0".to_vec();
    expected.extend(b"100644 a\0");
    expected.extend(vec![7; 20]);
    expected.extend(b"40000 d\0");
    expected.extend(vec![8; 20]);
    assert_eq!(t, expected);
    assert_eq!(es.len(), 2);
    assert_eq!(es[0].filename, "a");
}

#[test]
fn empty_tree_file() {
    let mut es: Vec<Entry> = Vec::new();
    assert_eq!(create_tree_file(&mut es).unwrap(), b"tree 0\0".to_vec());
    assert_eq!(parse_tree_entries(b"tree 0\0").unwrap().len(), 0);
}

#[test]
fn written_tree_reads_back() {
    let mut es = vec![
        entry("100644", "file.txt", sha20(1)),
        entry("40000", "dir name", sha20(100)),
        entry("100755", "ünï", sha20(200)),
    ];
    let t = create_tree_file(&mut es).unwrap();
    let back = parse_tree_entries(&t).unwrap();
    assert_eq!(back.len(), 3);
    for (a, b) in back.iter().zip(es.iter()) {
        assert_eq!(a.mode, b.mode);
        assert_eq!(a.filename, b.filename);
        assert_eq!(a.sha, b.sha);
    }
    let stored = parse_tree_object(&zlib(&t)).unwrap();
    assert_eq!(stored.len(), 3);
    assert_eq!(stored[1].filename, "dir name");
}

#[test]
fn parse_tree_rejects_malformed() {
    assert!(parse_tree_entries(b"tree 0").is_none());
    assert!(parse_tree_entries(b"tree 5\0100644").is_none());
    assert!(parse_tree_entries(b"tree 5\0100644 name").is_none());
    assert!(parse_tree_entries(b"tree 5\0100644 name\0short").is_none());
    let mut bad = b"tree 1\0\xff\xfe name\0".to_vec();
    bad.extend(vec![0; 20]);
    assert!(parse_tree_entries(&bad).is_none());
}

#[test]
fn parse_tree_object_errors() {
    assert_eq!(parse_tree_object(b"garbage").unwrap_err(), GitError::ReadFailed);
    assert_eq!(parse_tree_object(&zlib(b"tree 3 no nul")).unwrap_err(), GitError::Malformed);
}

#[test]
fn sort_orders_by_name_bytes_and_is_stable() {
    let mut es = vec![
        entry("1", "b", vec![1]),
        entry("2", "ab", vec![2]),
        entry("3", "B", vec![3]),
        entry("4", "a", vec![4]),
        entry("5", "b", vec![5]),
        entry("6", "", vec![6]),
    ];
    sort_by_filename(&mut es);
    let names: Vec<&str> = es.iter().map(|e| e.filename.as_str()).collect();
    assert_eq!(names, vec!["", "B", "a", "ab", "b", "b"]);
    assert_eq!(es[4].mode, "1");
    assert_eq!(es[5].mode, "5");
}

#[test]
fn sort_empty_and_single() {
    let mut es: Vec<Entry> = Vec::new();
    sort_by_filename(&mut es);
    assert!(es.is_empty());
    let mut one = vec![entry("1", "x", vec![])];
    sort_by_filename(&mut one);
    assert_eq!(one[0].filename, "x");
}

#[test]
fn tree_modes() {
    assert_eq!(get_tree_mode_by_path(0o755, true, false, false), "100755");
    assert_eq!(get_tree_mode_by_path(0o644, true, false, false), "100644");
    assert_eq!(get_tree_mode_by_path(0o644, false, true, false), "40000");
    assert_eq!(get_tree_mode_by_path(0o755, false, true, false), "100755");
    assert_eq!(get_tree_mode_by_path(0o644, false, false, true), "120000");
}

#[test]
fn only_git_is_ignored() {
    assert!(is_ignored(".git"));
    assert!(!is_ignored(".gitignore"));
    assert!(!is_ignored("git"));
    assert!(!is_ignored(""));
}

#[test]
fn entries_for_files_and_dirs() {
    let e = build_tree_entry_file("a".to_string(), "100644".to_string(), "ab12".to_string());
    assert_eq!(e.sha, b"ab12".to_vec());
    assert_eq!(e.mode, "100644");
    let d = build_tree_entry_from_dir("d".to_string(), "40000".to_string(), vec![9, 9]);
    assert_eq!(d.sha, vec![9, 9]);
    assert_eq!(d.filename, "d");
}

#[test]
fn save_to_disk_hashes_and_compresses() {
    let saved = save_to_disk(b"tree 0\0").unwrap();
    let expected = git_starter_rust::git_object_utils::Object::hash("tree 0\0").unwrap();
    assert_eq!(saved.sha, expected.clone().into_bytes());
    assert_eq!(saved.dir, expected[..2].to_string());
    assert_eq!(saved.file, expected[2..].to_string());
    let mut d = flate2::read::ZlibDecoder::new(&saved.compressed[..]);
    let mut out = Vec::new();
    d.read_to_end(&mut out).unwrap();
    assert_eq!(out, b"tree 0\0".to_vec());
}

#[test]
fn save_to_disk_needs_utf8() {
    assert_eq!(save_to_disk(&[0xff, 0x00]).err(), Some(GitError::NotUtf8));
}

#[test]
fn sort_ignores_listing_order() {
    let listing = |order: &[usize]| {
        let all = [("100644", "b.txt", 1u8), ("40000", "a", 2), ("100755", "C", 3), ("100644", "ab", 4)];
        order.iter().map(|&i| entry(all[i].0, all[i].1, vec![all[i].2])).collect::<Vec<Entry>>()
    };
    let mut first = listing(&[0, 1, 2, 3]);
    let mut second = listing(&[3, 2, 0, 1]);
    sort_by_filename(&mut first);
    sort_by_filename(&mut second);
    let a = create_tree_file(&mut first).unwrap();
    let b = create_tree_file(&mut second).unwrap();
    assert_eq!(a, b);
    let names: Vec<&str> = first.iter().map(|e| e.filename.as_str()).collect();
    assert_eq!(names, vec!["C", "a", "ab", "b.txt"]);
}

#[test]
fn saved_tree_hash_is_forty_hex_digits() {
    let saved = save_to_disk(b"tree 0\0").unwrap();
    assert_eq!(saved.sha.len(), 40);
    assert!(saved.sha.iter().all(|b| b.is_ascii_digit() || (b'a'..=b'f').contains(b)));
}
