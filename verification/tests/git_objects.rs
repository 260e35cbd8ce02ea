use git_starter_rust::error::GitError;
use git_starter_rust::git_object_utils::GitObjectType;
use git_starter_rust::git_object_utils::Object;
use git_starter_rust::utils::decode;
use git_starter_rust::utils::object_path_parts;
use std::io::Read;
use std::io::Write;

fn zlib(data: &[u8]) -> Vec<u8> {
    let mut e = flate2::write::ZlibEncoder::new(Vec::new(), flate2::Compression::default());
    e.write_all(data).unwrap();
    e.finish().unwrap()
}

fn unzlib(data: &[u8]) -> Vec<u8> {
    let mut d = flate2::read::ZlibDecoder::new(data);
    let mut out = Vec::new();
    d.read_to_end(&mut out).unwrap();
    out
}

#[test]
fn hash_of_hello_world_is_its_sha256_prefix() {
    let h = Object::hash("hello world").unwrap();
    assert_eq!(h, "b94d27b9934d3e08a52e52d7da7dabfac484efe3");
}

#[test]
fn hash_of_empty_content() {
    let h = Object::hash("").unwrap();
    assert_eq!(h, "e3b0c44298fc1c149afbf4c8996fb92427ae41e4");
    assert_eq!(h.len(), 40);
}

#[test]
fn hash_object_names_and_compresses_the_blob() {
    let stored = Object::hash_object("hello world").unwrap();
    assert_eq!(stored.sha, "b94d27b9934d3e08a52e52d7da7dabfac484efe3");
    assert_eq!(stored.dir, "b9");
    assert_eq!(stored.file, "4d27b9934d3e08a52e52d7da7dabfac484efe3");
    assert_eq!(unzlib(&stored.compressed), b"blob 11\0hello world".to_vec());
    assert_ne!(stored.compressed, b"blob 11\0hello world".to_vec());
}

#[test]
fn hash_object_counts_utf8_bytes() {
    let stored = Object::hash_object("héllo").unwrap();
    assert_eq!(unzlib(&stored.compressed), "blob 6\0héllo".as_bytes().to_vec());
}

#[test]
fn stored_blob_reads_back() {
    for content in ["hello world", "", "a\0b with a nul", "ünïcödé ✓", "line\nline\n"] {
        let stored = Object::hash_object(content).unwrap();
        let object = Object::from_compressed(&stored.compressed).unwrap();
        assert_eq!(object.kind, GitObjectType::Blob);
        assert_eq!(object.size, content.len());
        assert_eq!(object.data, content);
    }
}

#[test]
fn from_text_reads_size_and_data() {
    let o = Object::from_text("blob 5\0hello").unwrap();
    assert_eq!(o.kind, GitObjectType::Blob);
    assert_eq!(o.size, 5);
    assert_eq!(o.data, "hello");
}

#[test]
fn from_text_reads_every_kind_as_blob() {
    let o = Object::from_text("commit 3\0abc").unwrap();
    assert_eq!(o.kind, GitObjectType::Blob);
    assert_eq!(o.size, 3);
}

#[test]
fn from_text_size_as_usize_from_str() {
    assert_eq!(Object::from_text("blob +7\0x").unwrap().size, 7);
    assert_eq!(Object::from_text("blob 007\0x").unwrap().size, 7);
    assert_eq!(Object::from_text("blob 18446744073709551615\0").unwrap().size, usize::MAX);
    assert!(Object::from_text("blob 18446744073709551616\0").is_none());
    assert!(Object::from_text("blob +\0x").is_none());
    assert!(Object::from_text("blob -1\0x").is_none());
    assert!(Object::from_text("blob \0x").is_none());
    assert!(Object::from_text("blob 1 2\0x").is_none());
}

#[test]
fn from_text_size_after_first_space() {
    assert!(Object::from_text("a b 3\0x").is_none());
    let o = Object::from_text("a 3\0x\0y").unwrap();
    assert_eq!(o.size, 3);
    assert_eq!(o.data, "x\0y");
}

#[test]
fn from_text_rejects_missing_parts() {
    assert!(Object::from_text("blob 5 hello").is_none());
    assert!(Object::from_text("blob5\0hello").is_none());
    assert!(Object::from_text("").is_none());
}

#[test]
fn from_compressed_errors() {
    assert_eq!(Object::from_compressed(b"not zlib").unwrap_err(), GitError::ReadFailed);
    assert_eq!(Object::from_compressed(&zlib(&[0x62, 0xff, 0x00])).unwrap_err(), GitError::ReadFailed);
    assert_eq!(Object::from_compressed(&zlib(b"no header at all")).unwrap_err(), GitError::Malformed);
}

#[test]
fn decode_gives_the_text() {
    assert_eq!(decode(&zlib(b"blob 3\0abc")), Some("blob 3\0abc".to_string()));
    assert_eq!(decode(b"plain"), None);
    assert_eq!(decode(&zlib(&[0xc3])), None);
}

#[test]
fn object_path_splits_after_two_bytes() {
    let (dir, file) = object_path_parts("b94d27b9934d3e08");
    assert_eq!(dir, "b9");
    assert_eq!(file, "4d27b9934d3e08");
    let (dir, file) = object_path_parts("ab");
    assert_eq!(dir, "ab");
    assert_eq!(file, "");
}

#[test]
fn hash_is_forty_lower_hex_digits() {
    for content in ["", "x", "ünïcödé"] {
        let h = Object::hash(content).unwrap();
        assert_eq!(h.len(), 40);
        assert!(h.chars().all(|c| c.is_ascii_digit() || ('a'..='f').contains(&c)));
    }
}
