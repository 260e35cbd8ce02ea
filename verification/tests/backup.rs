use git_starter_rust::backup_files::tree::Tree;
use git_starter_rust::backup_files::utils::compress_object;
use git_starter_rust::backup_files::utils::hash;
use git_starter_rust::backup_files::utils::object_name;
use git_starter_rust::backup_files::utils::read_dir;
use git_starter_rust::backup_files::utils::tree_line_for_file;
use git_starter_rust::backup_files::utils::TreeMap;
use std::io::Read;

fn unzlib(data: &[u8]) -> Vec<u8> {
    let mut d = flate2::read::ZlibDecoder::new(data);
    let mut out = Vec::new();
    d.read_to_end(&mut out).unwrap();
    out
}

fn hex(bytes: &[u8]) -> String {
    bytes.iter().map(|b| format!("{:02x}", b)).collect()
}

#[test]
fn tree_lines() {
    let t = Tree::new("100644".to_string(), "test.txt".to_string(), "83baae61".to_string());
    assert_eq!(t.mode, "100644");
    assert_eq!(t.to_string(), "100644 blob 83baae61\ttest.txt");
    assert_eq!(t.to_tree_object_string(), "100644 blob 83baae61\ttest.txt 83baae61\0");
}

#[test]
fn digest_of_content() {
    let d = hash("hello world");
    assert_eq!(d.len(), 32);
    assert_eq!(hex(&d), "b94d27b9934d3e08a52e52d7da7dabfac484efe37a5380ee9088f7ace2efcde9");
}

#[test]
fn object_name_of_digest() {
    let n = object_name(&hash("hello world"));
    assert_eq!(n.hex, "b94d27b9934d3e08a52e52d7da7dabfac484efe3");
    assert_eq!(n.dir, "b9");
    assert_eq!(n.file, "4d27b9934d3e08a52e52d7da7dabfac484efe3");
}

#[test]
fn compressed_object_decompresses() {
    let c = compress_object("some content").unwrap();
    assert_ne!(c, b"some content".to_vec());
    assert_eq!(unzlib(&c), b"some content".to_vec());
}

#[test]
fn file_line_hashes_twice_in_hex() {
    let line = tree_line_for_file("f.txt".to_string(), "hello world", 0o644);
    let inner = hex(&hash("hello world"));
    let outer = hex(inner.as_bytes());
    let h = &outer[..40];
    assert_eq!(line, format!("100644 blob {}\tf.txt {}\0", h, h));
    let exec = tree_line_for_file("run".to_string(), "", 0o700);
    assert!(exec.starts_with("100755 blob "));
}

#[test]
fn map_keeps_names_in_order_and_replaces() {
    let mut m = TreeMap::new();
    m.insert("b".to_string(), "B1".to_string());
    m.insert("a".to_string(), "A".to_string());
    m.insert("c".to_string(), "C".to_string());
    m.insert("b".to_string(), "B2".to_string());
    m.insert("B".to_string(), "Z".to_string());
    assert_eq!(m.values_in_order(), "ZAB2C");
}

#[test]
fn read_dir_hashes_and_compresses_the_lines() {
    let mut m = TreeMap::new();
    m.insert("y".to_string(), "second".to_string());
    m.insert("x".to_string(), "first".to_string());
    let w = read_dir(&m).unwrap();
    let expected = object_name(&hash("firstsecond"));
    assert_eq!(w.hex, expected.hex);
    assert_eq!(w.dir, expected.dir);
    assert_eq!(w.file, expected.file);
    assert_eq!(unzlib(&w.compressed), b"firstsecond".to_vec());
}

#[test]
fn read_dir_of_empty_map() {
    let m = TreeMap::new();
    let w = read_dir(&m).unwrap();
    assert_eq!(w.hex, "e3b0c44298fc1c149afbf4c8996fb92427ae41e4");
    assert_eq!(unzlib(&w.compressed), Vec::<u8>::new());
}

#[test]
fn read_dir_hash_is_forty_hex_digits() {
    let mut m = TreeMap::new();
    m.insert("n".to_string(), "line".to_string());
    let w = read_dir(&m).unwrap();
    assert_eq!(w.hex.len(), 40);
    assert!(w.hex.chars().all(|c| c.is_ascii_digit() || ('a'..='f').contains(&c)));
    assert_eq!(unzlib(&w.compressed), b"line".to_vec());
}
