//! Reading stored objects as text, and where an object is stored.

use vstd::prelude::*;
use vstd::utf8::*;
use vstd::string::*;
use crate::codec::zlib_inflated;
use crate::codec::zlib_decode;
use crate::codec::string_from_utf8;

verus! {

/// The text of a stored (compressed) object: `None` where it does not
/// decompress or is not UTF-8.
pub open spec fn decoded_text(compressed: Seq<u8>) -> Option<Seq<char>> {
    match zlib_inflated(compressed) {
        None => None,
        Some(bytes) => if valid_utf8(bytes) {
            Some(decode_utf8(bytes))
        } else {
            None
        },
    }
}

/// Decompresses a stored object and reads it as text.
pub fn decode(compressed: &[u8]) -> (r: Option<String>)
    ensures
        match decoded_text(compressed@) {
            None => r is None,
            Some(t) => r matches Some(s) && s@ == t,
        },
{
    match zlib_decode(compressed) {
        Some(bytes) => string_from_utf8(bytes),
        None => None,
    }
}

/// Where an object named by `sha` is stored: the directory is the text of
/// its first two bytes, the file name the text of the rest. The split
/// must fall on a character boundary.
pub fn object_path_parts(sha: &str) -> (r: (String, String))
    requires
        is_char_boundary(encode_utf8(sha@), 2),
    ensures
        r.0@ == decode_utf8(encode_utf8(sha@).take(2)),
        r.1@ == decode_utf8(encode_utf8(sha@).skip(2)),
        r.0@ + r.1@ == sha@,
{
    let (dir, file) = sha.split_at(2);
    proof {
        encode_utf8_decode_utf8(dir@);
        encode_utf8_decode_utf8(file@);
        encode_utf8_decode_utf8(sha@);
        assert(encode_utf8(sha@).subrange(0, 2) =~= encode_utf8(sha@).take(2));
        assert(encode_utf8(sha@).subrange(2, encode_utf8(sha@).len() as int) =~= encode_utf8(sha@).skip(2));
        encode_utf8_valid_utf8(sha@);
        decode_utf8_split(encode_utf8(sha@), 2);
    }
    (String::from_str(dir), String::from_str(file))
}

/// `decode` gives the whole decompressed text: the text it gives encodes
/// to exactly the decompressed bytes, and it gives a text whenever those
/// bytes are UTF-8.
pub proof fn law_decode_gives_whole_text(compressed: Seq<u8>)
    ensures
        decoded_text(compressed) matches Some(t) ==> zlib_inflated(compressed) == Some(encode_utf8(t)),
        (zlib_inflated(compressed) matches Some(b) && valid_utf8(b)) ==> decoded_text(compressed) is Some,
        zlib_inflated(compressed) is None ==> decoded_text(compressed) is None,
{
    if let Some(b) = zlib_inflated(compressed) {
        if valid_utf8(b) {
            decode_utf8_encode_utf8(b);
        }
    }
}

/// A stored object whose bytes decompress to the UTF-8 of a text decodes to
/// that very text.
pub proof fn law_decode_of_encoded_text(compressed: Seq<u8>, t: Seq<char>)
    requires
        zlib_inflated(compressed) == Some(encode_utf8(t)),
    ensures
        decoded_text(compressed) == Some(t),
{
    encode_utf8_valid_utf8(t);
    encode_utf8_decode_utf8(t);
}

} // verus!
