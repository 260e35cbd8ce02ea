//! Git objects: reading a stored object back, hashing content, and
//! preparing a blob for the object database.

use vstd::prelude::*;
use vstd::utf8::*;
use vstd::string::*;
use vstd::slice::slice_subrange;
use vstd::slice::slice_to_vec;
use crate::codec::sha256;
use crate::codec::sha256_digest;
use crate::codec::zlib_inflated;
use crate::codec::zlib_deflated;
use crate::codec::zlib_decode;
use crate::codec::zlib_encode;
use crate::codec::string_from_utf8;
use crate::codec::digest_input_ok;
use crate::error::GitError;
use crate::text::ascii_chars;
use crate::text::ascii_string;
use crate::text::is_ascii_bytes;
use crate::text::is_lower_hex_byte;
use crate::text::is_lower_hex_text;
use crate::text::lemma_lower_hex_text;
use crate::text::push_bytes;
use crate::text::decimal;
use crate::text::decimal_bytes;
use crate::text::lemma_decimal_value;
use crate::text::lemma_parse_decimal;
use crate::text::parse_usize;
use crate::text::parse_usize_chars;
use crate::text::hex_lower;
use crate::text::hex_encode;
use crate::text::lemma_hex_lower;
use crate::text::first_index_of;
use crate::text::lemma_first_index_of;
use crate::text::find_char;
use crate::text::chars_of;

verus! {

/// Types of git objects.
#[derive(Debug, Clone, Copy, PartialEq, Eq, Structural)]
pub enum GitObjectType {
    Blob,
    Tree,
    Commit,
}

/// A git object as read from the object database.
#[derive(Debug, Clone)]
pub struct Object {
    pub kind: GitObjectType,
    pub size: usize,
    pub data: String,
}

impl View for Object {
    type V = (GitObjectType, usize, Seq<char>);

    open spec fn view(&self) -> Self::V {
        (self.kind, self.size, self.data@)
    }
}

/// What is kept of a blob once it is hashed: its hash, the directory and
/// file name that the hash gives it under the object directory, and its
/// compressed text.
pub struct StoredObject {
    pub sha: String,
    pub dir: String,
    pub file: String,
    pub compressed: Vec<u8>,
}

/// What the decompressed text of an object gives: up to the first NUL is
/// the header, whose part after its first space is the size; after the
/// NUL is the data. `None` where there is no NUL, no space in the header,
/// or the size is not a `usize` numeral.
pub open spec fn parse_object_text(t: Seq<char>) -> Option<(usize, Seq<char>)> {
    match first_index_of(t, '\0') {
        None => None,
        Some(nul) => {
            let header = t.take(nul);
            match first_index_of(header, ' ') {
                None => None,
                Some(sp) => match parse_usize(header.skip(sp + 1)) {
                    None => None,
                    Some(size) => Some((size, t.skip(nul + 1))),
                },
            }
        },
    }
}

/// The size and data that reading a stored (compressed) object gives,
/// or why it fails: the bytes do not decompress, or the text is not
/// UTF-8 (`ReadFailed`); the text does not parse (`Malformed`).
pub open spec fn read_object(compressed: Seq<u8>) -> Result<(usize, Seq<char>), GitError> {
    match zlib_inflated(compressed) {
        None => Err(GitError::ReadFailed),
        Some(bytes) => if !valid_utf8(bytes) {
            Err(GitError::ReadFailed)
        } else {
            match parse_object_text(decode_utf8(bytes)) {
                None => Err(GitError::Malformed),
                Some(parsed) => Ok(parsed),
            }
        },
    }
}

/// The hash that names content: the first 40 lower-case hexadecimal
/// digits of its SHA-256 digest.
pub open spec fn short_hash(data: Seq<u8>) -> Seq<char> {
    ascii_chars(hex_lower(sha256(data))).take(40)
}

/// `blob <size>` and a NUL, as ASCII bytes.
pub open spec fn blob_header(size: nat) -> Seq<u8> {
    seq![98u8, 108u8, 111u8, 98u8, 32u8] + decimal(size) + seq![0u8]
}

/// The text stored for a blob: its header, with the content's length in
/// UTF-8 bytes, then the content.
pub open spec fn blob_text(content: Seq<char>) -> Seq<char> {
    ascii_chars(blob_header(encode_utf8(content).len())) + content
}

/// The first 40 hexadecimal digits of the SHA-256 digest of `data`.
pub(crate) fn short_hash_bytes(data: &[u8]) -> (h: Vec<u8>)
    requires
        digest_input_ok(data@.len()),
    ensures
        is_ascii_bytes(h@),
        h@.len() == 40,
        forall|i: int| 0 <= i < h@.len() ==> is_lower_hex_byte(#[trigger] h@[i]),
        ascii_chars(h@) == short_hash(data@),
{
    let digest = sha256_digest(data);
    let mut hex = hex_encode(digest.as_slice());
    proof {
        lemma_hex_lower(digest@);
    }
    let ghost full = hex@;
    hex.truncate(40);
    assert(ascii_chars(hex@) =~= ascii_chars(full).take(40));
    assert(forall|i: int| 0 <= i < hex@.len() ==> hex@[i] == full[i]);
    hex
}

impl Object {
    /// Reads an object from its decompressed text. Every object is read as
    /// a blob; `None` where the text does not parse.
    pub fn from_text(text: &str) -> (r: Option<Object>)
        ensures
            match parse_object_text(text@) {
                None => r is None,
                Some(parsed) => r matches Some(o) && o@ == (GitObjectType::Blob, parsed.0, parsed.1),
            },
    {
        let chars = chars_of(text);
        let n = chars.len();
        assert(chars@.subrange(0, n as int) =~= text@);
        let nul = match find_char(chars.as_slice(), 0, n, '\0') {
            Some(i) => i,
            None => {
                return None;
            },
        };
        proof {
            lemma_first_index_of(text@, '\0');
        }
        let ghost header = text@.take(nul as int);
        assert(chars@.subrange(0, nul as int) =~= header);
        let sp = match find_char(chars.as_slice(), 0, nul, ' ') {
            Some(i) => i,
            None => {
                return None;
            },
        };
        proof {
            lemma_first_index_of(header, ' ');
        }
        assert(chars@.subrange(sp + 1, nul as int) =~= header.skip(sp + 1));
        let size = match parse_usize_chars(chars.as_slice(), sp + 1, nul) {
            Some(v) => v,
            None => {
                return None;
            },
        };
        let data = String::from_str(text.substring_char(nul + 1, n));
        assert(data@ =~= text@.skip(nul + 1));
        Some(Object { kind: GitObjectType::Blob, size, data })
    }

    /// Reads an object from the bytes stored for it: decompresses them,
    /// takes them as UTF-8 text and parses the text.
    pub fn from_compressed(compressed: &[u8]) -> (r: Result<Object, GitError>)
        ensures
            match read_object(compressed@) {
                Ok(parsed) => r matches Ok(o) && o@ == (GitObjectType::Blob, parsed.0, parsed.1),
                Err(e) => r == Err::<Object, GitError>(e),
            },
    {
        let bytes = match zlib_decode(compressed) {
            Some(b) => b,
            None => {
                return Err(GitError::ReadFailed);
            },
        };
        let text = match string_from_utf8(bytes) {
            Some(t) => t,
            None => {
                return Err(GitError::ReadFailed);
            },
        };
        match Object::from_text(text.as_str()) {
            Some(o) => Ok(o),
            None => Err(GitError::Malformed),
        }
    }

    /// Hashes content: the first 40 lower-case hexadecimal digits of the
    /// SHA-256 digest of its UTF-8 bytes.
    pub fn hash(file_content: &str) -> (r: Result<String, GitError>)
        requires
            digest_input_ok(encode_utf8(file_content@).len()),
        ensures
            r matches Ok(h) && h@ == short_hash(encode_utf8(file_content@)) && h@.len() == 40
                && is_lower_hex_text(h@),
    {
        let h = short_hash_bytes(file_content.as_bytes());
        proof {
            lemma_lower_hex_text(h@);
        }
        Ok(ascii_string(h))
    }

    /// Prepares content for the object database: its hash, the directory
    /// (the hash's first two digits) and file name (the rest) it is stored
    /// under, and its blob text compressed. Fails only where compression
    /// fails.
    pub fn hash_object(file_content: &str) -> (r: Result<StoredObject, GitError>)
        requires
            digest_input_ok(encode_utf8(file_content@).len()),
        ensures
            match zlib_deflated(encode_utf8(blob_text(file_content@))) {
                None => r == Err::<StoredObject, GitError>(GitError::CompressFailed),
                Some(c) => r matches Ok(o) && {
                    &&& o.sha@ == short_hash(encode_utf8(file_content@))
                    &&& o.sha@.len() == 40
                    &&& is_lower_hex_text(o.sha@)
                    &&& o.dir@ == o.sha@.take(2)
                    &&& o.file@ == o.sha@.skip(2)
                    &&& o.compressed@ == c
                    &&& zlib_inflated(o.compressed@) == Some(encode_utf8(blob_text(file_content@)))
                    &&& read_object(o.compressed@) == Ok::<(usize, Seq<char>), GitError>(
                        (encode_utf8(file_content@).len() as usize, file_content@),
                    )
                },
            },
    {
        let content_bytes = file_content.as_bytes();
        let h = short_hash_bytes(content_bytes);
        let dir = ascii_string(slice_to_vec(slice_subrange(h.as_slice(), 0, 2)));
        let file = ascii_string(slice_to_vec(slice_subrange(h.as_slice(), 2, 40)));
        proof {
            lemma_lower_hex_text(h@);
        }
        let sha = ascii_string(h);
        assert(dir@ =~= sha@.take(2));
        assert(file@ =~= sha@.skip(2));
        let mut header: Vec<u8> = Vec::new();
        header.push(98u8);
        header.push(108u8);
        header.push(111u8);
        header.push(98u8);
        header.push(32u8);
        let size = decimal_bytes(content_bytes.len());
        push_bytes(&mut header, size.as_slice());
        header.push(0u8);
        proof {
            lemma_blob_header_ascii(encode_utf8(file_content@).len());
        }
        assert(header@ =~= blob_header(encode_utf8(file_content@).len()));
        let mut text = ascii_string(header);
        text.append(file_content);
        assert(text@ =~= blob_text(file_content@));
        let compressed = match zlib_encode(text.as_str().as_bytes()) {
            Some(c) => c,
            None => {
                return Err(GitError::CompressFailed);
            },
        };
        proof {
            law_stored_blob_reads_back(file_content@, compressed@);
        }
        Ok(StoredObject { sha, dir, file, compressed })
    }
}

/// The blob header is ASCII and holds no NUL before its last byte.
proof fn lemma_blob_header_ascii(size: nat)
    ensures
        is_ascii_bytes(blob_header(size)),
        blob_header(size).len() == decimal(size).len() + 6,
        blob_header(size)[decimal(size).len() + 5int] == 0u8,
        forall|i: int| 0 <= i < decimal(size).len() + 5 ==> #[trigger] blob_header(size)[i] != 0u8,
        forall|i: int| 0 <= i < decimal(size).len() ==> #[trigger] blob_header(size)[5 + i] == decimal(size)[i],
{
    lemma_decimal_value(size);
    let h = blob_header(size);
    let d = decimal(size);
    assert forall|i: int| 0 <= i < d.len() implies #[trigger] h[5 + i] == d[i] by {}
    assert forall|i: int| 0 <= i < d.len() + 5 implies #[trigger] h[i] != 0u8 by {
        if i >= 5 {
            assert(h[i] == d[i - 5]);
            assert(crate::text::is_digit_char(ascii_chars(d)[i - 5]));
        }
    }
    assert forall|i: int| 0 <= i < h.len() implies #[trigger] h[i] < 128 by {
        if 5 <= i < d.len() + 5 {
            assert(h[i] == d[i - 5]);
        }
    }
}

/// The text stored for a blob parses back to the blob: its size is the
/// content's length in UTF-8 bytes and its data is the content.
pub proof fn law_blob_text_parses_back(content: Seq<char>)
    requires
        encode_utf8(content).len() <= usize::MAX,
    ensures
        parse_object_text(blob_text(content)) == Some((encode_utf8(content).len() as usize, content)),
{
    let n = encode_utf8(content).len();
    let d = decimal(n);
    let h = blob_header(n);
    let t = blob_text(content);
    lemma_blob_header_ascii(n);
    let nul: int = d.len() + 5int;
    assert(t[nul] == '\0');
    assert(forall|j: int| 0 <= j < nul ==> t[j] == h[j] as char);
    lemma_first_index_of(t, '\0');
    let k = first_index_of(t, '\0');
    assert(k == Some(nul)) by {
        let kk = k->0;
        if kk < nul {
            assert(t[kk] == h[kk] as char);
        }
        if kk > nul {
        }
    }
    let header = t.take(nul);
    assert(header[4] == ' ');
    lemma_first_index_of(header, ' ');
    assert(first_index_of(header, ' ') == Some(4int)) by {
        let kk = first_index_of(header, ' ')->0;
        if kk < 4 {
            assert(header[kk] == h[kk] as char);
        }
    }
    assert(header.skip(5) =~= ascii_chars(d));
    lemma_parse_decimal(n as usize);
    assert(t.skip(nul + 1) =~= content);
}

/// What is stored for a blob reads back as that blob, once the stored
/// bytes decompress to its UTF-8 text.
pub proof fn law_stored_blob_reads_back(content: Seq<char>, compressed: Seq<u8>)
    requires
        encode_utf8(content).len() <= usize::MAX,
        zlib_inflated(compressed) == Some(encode_utf8(blob_text(content))),
    ensures
        read_object(compressed) == Ok::<(usize, Seq<char>), GitError>(
            (encode_utf8(content).len() as usize, content),
        ),
{
    encode_utf8_valid_utf8(blob_text(content));
    encode_utf8_decode_utf8(blob_text(content));
    law_blob_text_parses_back(content);
}

} // verus!
