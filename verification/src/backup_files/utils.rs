//! Hashing, compressing and collecting the lines of a text tree.

use vstd::prelude::*;
use vstd::utf8::*;
use vstd::string::*;
use vstd::slice::slice_subrange;
use vstd::slice::slice_to_vec;
use crate::codec::sha256;
use crate::codec::sha256_digest;
use crate::codec::zlib_deflated;
use crate::codec::zlib_encode;
use crate::codec::digest_input_ok;
use crate::error::GitError;
use crate::git_object_utils::short_hash;
use crate::order::lex_lt;
use crate::order::lemma_lex_order;
use crate::order::bytes_lt;
use crate::text::ascii_chars;
use crate::text::ascii_string;
use crate::text::hex_lower;
use crate::text::hex_encode;
use crate::text::lemma_hex_lower;
use crate::text::is_lower_hex_text;
use crate::text::lemma_lower_hex_text;
use crate::codec::zlib_inflated;
use crate::backup_files::tree::Tree;
use crate::backup_files::tree::tree_object_text;

verus! {

/// The SHA-256 digest of content's UTF-8 bytes.
pub fn hash(file_content: &str) -> (d: Vec<u8>)
    requires
        digest_input_ok(encode_utf8(file_content@).len()),
    ensures
        d@ == sha256(encode_utf8(file_content@)),
        d@.len() == 32,
{
    sha256_digest(file_content.as_bytes())
}

/// The name an object gets from a digest: the first 40 hexadecimal digits
/// of the digest, the directory (their first two) and the file name (the
/// rest).
pub struct ObjectName {
    pub hex: String,
    pub dir: String,
    pub file: String,
}

/// The first 40 lower-case hexadecimal digits of a digest of at least 20
/// bytes, split after the second digit.
pub fn object_name(digest: &[u8]) -> (n: ObjectName)
    requires
        digest@.len() >= 20,
    ensures
        n.hex@ == ascii_chars(hex_lower(digest@)).take(40),
        n.hex@.len() == 40,
        is_lower_hex_text(n.hex@),
        n.dir@ == n.hex@.take(2),
        n.file@ == n.hex@.skip(2),
{
    let mut hex = hex_encode(digest);
    proof {
        lemma_hex_lower(digest@);
    }
    let ghost full = hex@;
    hex.truncate(40);
    assert(ascii_chars(hex@) =~= ascii_chars(full).take(40));
    let dir = ascii_string(slice_to_vec(slice_subrange(hex.as_slice(), 0, 2)));
    let file = ascii_string(slice_to_vec(slice_subrange(hex.as_slice(), 2, 40)));
    proof {
        assert(forall|i: int| 0 <= i < hex@.len() ==> hex@[i] == full[i]);
        lemma_lower_hex_text(hex@);
    }
    let hex = ascii_string(hex);
    assert(dir@ =~= hex@.take(2));
    assert(file@ =~= hex@.skip(2));
    ObjectName { hex, dir, file }
}

/// Compresses content's UTF-8 bytes for the object database.
pub fn compress_object(content: &str) -> (c: Option<Vec<u8>>)
    ensures
        match zlib_deflated(encode_utf8(content@)) {
            None => c is None,
            Some(z) => c matches Some(v) && v@ == z && zlib_inflated(v@) == Some(encode_utf8(content@)),
        },
{
    zlib_encode(content.as_bytes())
}

/// The hash a file's line carries: the first 40 hexadecimal digits of the
/// hexadecimal text of the hexadecimal digest of its content.
pub open spec fn line_hash(content: Seq<char>) -> Seq<char> {
    ascii_chars(hex_lower(hex_lower(sha256(encode_utf8(content))))).take(40)
}

/// `100755` where a permission bit to execute is set, else `100644`.
pub open spec fn line_mode(permission_bits: u32) -> Seq<char> {
    if permission_bits & 0o111 != 0 {
        seq!['1', '0', '0', '7', '5', '5']
    } else {
        seq!['1', '0', '0', '6', '4', '4']
    }
}

/// The line a file contributes to a text tree.
pub open spec fn file_line(file_name: Seq<char>, content: Seq<char>, permission_bits: u32) -> Seq<char> {
    tree_object_text(line_mode(permission_bits), file_name, line_hash(content))
}

/// The line for a file with the given name, content and permission bits.
pub fn tree_line_for_file(file_name: String, blob_content: &str, permission_bits: u32) -> (s: String)
    requires
        digest_input_ok(encode_utf8(blob_content@).len()),
    ensures
        s@ == file_line(file_name@, blob_content@, permission_bits),
{
    let blob_hash = hash(blob_content);
    let hex = hex_encode(blob_hash.as_slice());
    proof {
        lemma_hex_lower(blob_hash@);
    }
    let mut hex2 = hex_encode(hex.as_slice());
    proof {
        lemma_hex_lower(hex@);
    }
    let ghost full = hex2@;
    hex2.truncate(40);
    assert(ascii_chars(hex2@) =~= ascii_chars(full).take(40));
    let hex_hash = ascii_string(hex2);
    let mut mode: Vec<u8> = Vec::new();
    mode.push(49u8);
    mode.push(48u8);
    mode.push(48u8);
    if permission_bits & 0o111 != 0 {
        mode.push(55u8);
        mode.push(53u8);
        mode.push(53u8);
    } else {
        mode.push(54u8);
        mode.push(52u8);
        mode.push(52u8);
    }
    let mode = ascii_string(mode);
    assert(mode@ =~= line_mode(permission_bits));
    Tree::new(mode, file_name, hex_hash).to_tree_object_string()
}

/// Pairs of name and line whose names' bytes strictly increase: the order
/// in which a `BTreeMap<String, String>` holds its entries.
pub open spec fn keys_increasing(s: Seq<(Seq<char>, Seq<char>)>) -> bool {
    forall|i: int, j: int|
        0 <= i < j < s.len() ==> lex_lt(encode_utf8(#[trigger] s[i].0), encode_utf8(#[trigger] s[j].0))
}

/// No name occurs twice.
pub open spec fn keys_distinct(s: Seq<(Seq<char>, Seq<char>)>) -> bool {
    forall|i: int, j: int| 0 <= i < j < s.len() ==> #[trigger] s[i].0 != #[trigger] s[j].0
}

/// The map from each name to its line.
pub open spec fn assoc_map(s: Seq<(Seq<char>, Seq<char>)>) -> Map<Seq<char>, Seq<char>> {
    Map::new(
        |k: Seq<char>| exists|i: int| 0 <= i < s.len() && s[i].0 == k,
        |k: Seq<char>| s[choose|i: int| 0 <= i < s.len() && s[i].0 == k].1,
    )
}

/// The lines one after the other, in the order held.
pub open spec fn concat_values(s: Seq<(Seq<char>, Seq<char>)>) -> Seq<char>
    decreases s.len(),
{
    if s.len() == 0 {
        seq![]
    } else {
        concat_values(s.drop_last()) + s.last().1
    }
}

proof fn lemma_increasing_distinct(s: Seq<(Seq<char>, Seq<char>)>)
    requires
        keys_increasing(s),
    ensures
        keys_distinct(s),
{
    assert forall|i: int, j: int| 0 <= i < j < s.len() implies #[trigger] s[i].0 != #[trigger] s[j].0 by {
        lemma_lex_order(encode_utf8(s[i].0), encode_utf8(s[j].0), encode_utf8(s[i].0));
    }
}

/// With distinct names, each pair is found in the map.
proof fn lemma_assoc_map_at(s: Seq<(Seq<char>, Seq<char>)>, i: int)
    requires
        keys_distinct(s),
        0 <= i < s.len(),
    ensures
        assoc_map(s).dom().contains(s[i].0),
        assoc_map(s)[s[i].0] == s[i].1,
{
    let k = s[i].0;
    assert(exists|j: int| 0 <= j < s.len() && s[j].0 == k);
    let c = choose|j: int| 0 <= j < s.len() && s[j].0 == k;
    if c < i {
        assert(s[c].0 != s[i].0);
    } else if c > i {
        assert(s[i].0 != s[c].0);
    }
}

/// The lines of a text tree, keyed by file name, held in the order of the
/// names' bytes.
pub struct TreeMap {
    entries: Vec<(String, String)>,
}

impl View for TreeMap {
    type V = Seq<(Seq<char>, Seq<char>)>;

    closed spec fn view(&self) -> Self::V {
        self.entries@.map_values(|p: (String, String)| (p.0@, p.1@))
    }
}

impl TreeMap {
    /// Names increase along the entries.
    pub open spec fn wf(&self) -> bool {
        keys_increasing(self@)
    }

    /// An empty map.
    pub fn new() -> (m: Self)
        ensures
            m.wf(),
            m@ == Seq::<(Seq<char>, Seq<char>)>::empty(),
    {
        let m = TreeMap { entries: Vec::new() };
        assert(m@ =~= Seq::<(Seq<char>, Seq<char>)>::empty());
        m
    }

    /// Sets the line of `key` to `value`, in place of any line it had.
    pub fn insert(&mut self, key: String, value: String)
        requires
            old(self).wf(),
        ensures
            final(self).wf(),
            assoc_map(final(self)@) == assoc_map(old(self)@).insert(key@, value@),
    {
        let ghost s = self@;
        proof {
            lemma_increasing_distinct(s);
        }
        let n = self.entries.len();
        let mut j: usize = 0;
        while j < n && bytes_lt(self.entries[j].0.as_str().as_bytes(), key.as_str().as_bytes())
            invariant
                n == self.entries@.len(),
                s == self@,
                j <= n,
                forall|i: int| 0 <= i < j ==> lex_lt(encode_utf8(#[trigger] s[i].0), encode_utf8(key@)),
            decreases n - j,
        {
            assert(s[j as int].0 == self.entries@[j as int].0@);
            j = j + 1;
        }
        let ghost kb = encode_utf8(key@);
        if j < n && !bytes_lt(key.as_str().as_bytes(), self.entries[j].0.as_str().as_bytes()) {
            proof {
                let kj = encode_utf8(s[j as int].0);
                assert(s[j as int].0 == self.entries@[j as int].0@);
                lemma_lex_order(kj, kb, kj);
                encode_utf8_decode_utf8(key@);
                encode_utf8_decode_utf8(s[j as int].0);
                assert(s[j as int].0 == key@);
            }
            self.entries.set(j, (key, value));
            let ghost t = self@;
            assert(t =~= s.update(j as int, (key@, value@)));
            proof {
                assert(keys_increasing(t)) by {
                    assert forall|a: int, b: int| 0 <= a < b < t.len() implies lex_lt(
                        encode_utf8(#[trigger] t[a].0),
                        encode_utf8(#[trigger] t[b].0),
                    ) by {
                        assert(t[a].0 == s[a].0);
                        assert(t[b].0 == s[b].0);
                    }
                }
                lemma_increasing_distinct(t);
                let m1 = assoc_map(t);
                let m2 = assoc_map(s).insert(key@, value@);
                assert forall|q: Seq<char>| m1.dom().contains(q) <==> m2.dom().contains(q) by {
                    if m1.dom().contains(q) {
                        let i = choose|i: int| 0 <= i < t.len() && t[i].0 == q;
                        assert(t[i].0 == s[i].0);
                        assert(0 <= i < s.len() && s[i].0 == q);
                    }
                    if m2.dom().contains(q) {
                        if q == key@ {
                            assert(0 <= j < t.len() && t[j as int].0 == q);
                        } else {
                            let i = choose|i: int| 0 <= i < s.len() && s[i].0 == q;
                            assert(t[i].0 == s[i].0);
                            assert(0 <= i < t.len() && t[i].0 == q);
                        }
                    }
                }
                assert forall|q: Seq<char>| #[trigger] m1.dom().contains(q) implies m1[q] == m2[q] by {
                    let i = choose|i: int| 0 <= i < t.len() && t[i].0 == q;
                    lemma_assoc_map_at(t, i);
                    if i != j {
                        assert(t[i] == s[i]);
                        lemma_assoc_map_at(s, i);
                    }
                }
                assert(m1 =~= m2);
            }
        } else {
            proof {
                assert forall|i: int| j <= i < s.len() implies lex_lt(kb, encode_utf8(#[trigger] s[i].0)) by {
                    let kj = encode_utf8(s[j as int].0);
                    assert(s[j as int].0 == self.entries@[j as int].0@);
                    lemma_lex_order(kj, kb, encode_utf8(s[i].0));
                    lemma_lex_order(kb, kj, encode_utf8(s[i].0));
                }
            }
            self.entries.insert(j, (key, value));
            let ghost t = self@;
            assert(t =~= s.insert(j as int, (key@, value@)));
            proof {
                assert(keys_increasing(t)) by {
                    assert forall|a: int, b: int| 0 <= a < b < t.len() implies lex_lt(
                        encode_utf8(#[trigger] t[a].0),
                        encode_utf8(#[trigger] t[b].0),
                    ) by {
                        if a < j && b > j {
                            lemma_lex_order(encode_utf8(s[a].0), kb, encode_utf8(s[b - 1].0));
                        } else if a > j {
                            assert(t[a] == s[a - 1]);
                        }
                    }
                }
                lemma_increasing_distinct(t);
                let m1 = assoc_map(t);
                let m2 = assoc_map(s).insert(key@, value@);
                assert forall|q: Seq<char>| m1.dom().contains(q) <==> m2.dom().contains(q) by {
                    if m1.dom().contains(q) && q != key@ {
                        let i = choose|i: int| 0 <= i < t.len() && t[i].0 == q;
                        if i < j {
                            assert(t[i] == s[i]);
                            assert(0 <= i < s.len() && s[i].0 == q);
                        } else {
                            assert(t[i] == s[i - 1]);
                            assert(0 <= i - 1 < s.len() && s[i - 1].0 == q);
                        }
                    }
                    if m2.dom().contains(q) {
                        if q == key@ {
                            assert(t[j as int].0 == key@);
                            assert(0 <= j < t.len() && t[j as int].0 == q);
                        } else {
                            let i = choose|i: int| 0 <= i < s.len() && s[i].0 == q;
                            if i < j {
                                assert(t[i] == s[i]);
                                assert(0 <= i < t.len() && t[i].0 == q);
                            } else {
                                assert(t[i + 1] == s[i]);
                                assert(0 <= i + 1 < t.len() && t[i + 1].0 == q);
                            }
                        }
                    }
                }
                assert forall|q: Seq<char>| #[trigger] m1.dom().contains(q) implies m1[q] == m2[q] by {
                    let i = choose|i: int| 0 <= i < t.len() && t[i].0 == q;
                    lemma_assoc_map_at(t, i);
                    assert(t[j as int].0 == key@);
                    if i < j {
                        assert(t[i].0 != t[j as int].0);
                        assert(t[i] == s[i]);
                        lemma_assoc_map_at(s, i);
                    } else if i > j {
                        assert(t[j as int].0 != t[i].0);
                        assert(t[i] == s[i - 1]);
                        lemma_assoc_map_at(s, i - 1);
                    }
                }
                assert(m1 =~= m2);
            }
        }
    }

    /// The lines one after the other, in the order of their names.
    pub fn values_in_order(&self) -> (s: String)
        ensures
            s@ == concat_values(self@),
    {
        let mut out = String::new();
        let mut i: usize = 0;
        while i < self.entries.len()
            invariant
                i <= self@.len(),
                self@.len() == self.entries@.len(),
                out@ == concat_values(self@.take(i as int)),
            decreases self@.len() - i,
        {
            out.append(self.entries[i].1.as_str());
            let ghost t = self@.take(i + 1);
            assert(t.drop_last() =~= self@.take(i as int));
            assert(t.last().1 == self.entries@[i as int].1@);
            i = i + 1;
        }
        assert(self@.take(i as int) =~= self@);
        out
    }
}

/// A text tree ready for the object database: its hash's first 40
/// hexadecimal digits, the directory and file name they give it, and its
/// compressed bytes.
pub struct TreeWrite {
    pub hex: String,
    pub dir: String,
    pub file: String,
    pub compressed: Vec<u8>,
}

/// Prepares the collected lines as one text tree: the lines in the order
/// of their names, hashed and compressed. Fails only where compression
/// fails.
pub fn read_dir(tree_map: &TreeMap) -> (r: Result<TreeWrite, GitError>)
    requires
        digest_input_ok(encode_utf8(concat_values(tree_map@)).len()),
    ensures
        match zlib_deflated(encode_utf8(concat_values(tree_map@))) {
            None => r == Err::<TreeWrite, GitError>(GitError::CompressFailed),
            Some(c) => r matches Ok(w) && {
                &&& w.hex@ == short_hash(encode_utf8(concat_values(tree_map@)))
                &&& w.hex@.len() == 40
                &&& is_lower_hex_text(w.hex@)
                &&& w.dir@ == w.hex@.take(2)
                &&& w.file@ == w.hex@.skip(2)
                &&& w.compressed@ == c
                &&& zlib_inflated(w.compressed@) == Some(encode_utf8(concat_values(tree_map@)))
            },
        },
{
    let tree_content = tree_map.values_in_order();
    let tree_hash = hash(tree_content.as_str());
    let name = object_name(tree_hash.as_slice());
    let compressed = match compress_object(tree_content.as_str()) {
        Some(c) => c,
        None => {
            return Err(GitError::CompressFailed);
        },
    };
    Ok(TreeWrite { hex: name.hex, dir: name.dir, file: name.file, compressed })
}

/// Dropping the last pair of a list with distinct names drops that name
/// from the map.
proof fn lemma_assoc_map_drop_last(s: Seq<(Seq<char>, Seq<char>)>)
    requires
        keys_distinct(s),
        s.len() > 0,
    ensures
        assoc_map(s.drop_last()) == assoc_map(s).remove(s.last().0),
{
    let t = s.drop_last();
    let k = s.last().0;
    assert(keys_distinct(t)) by {
        assert forall|i: int, j: int| 0 <= i < j < t.len() implies #[trigger] t[i].0 != #[trigger] t[j].0 by {
            assert(t[i] == s[i]);
            assert(t[j] == s[j]);
        }
    }
    let m1 = assoc_map(t);
    let m2 = assoc_map(s).remove(k);
    assert forall|q: Seq<char>| m1.dom().contains(q) <==> m2.dom().contains(q) by {
        if m1.dom().contains(q) {
            let i = choose|i: int| 0 <= i < t.len() && t[i].0 == q;
            assert(t[i] == s[i]);
            assert(0 <= i < s.len() && s[i].0 == q);
            assert(s[i].0 != s[s.len() - 1].0);
        }
        if m2.dom().contains(q) {
            let i = choose|i: int| 0 <= i < s.len() && s[i].0 == q;
            assert(i != s.len() - 1);
            assert(t[i] == s[i]);
            assert(0 <= i < t.len() && t[i].0 == q);
        }
    }
    assert forall|q: Seq<char>| #[trigger] m1.dom().contains(q) implies m1[q] == m2[q] by {
        let i = choose|i: int| 0 <= i < t.len() && t[i].0 == q;
        assert(t[i] == s[i]);
        lemma_assoc_map_at(t, i);
        lemma_assoc_map_at(s, i);
        assert(s[i].0 != s[s.len() - 1].0);
    }
    assert(m1 =~= m2);
}

/// The pairs held in name order are fixed by the map from names to lines:
/// two lists with increasing names and the same map are the same list.
pub proof fn law_pairs_determined_by_map(s1: Seq<(Seq<char>, Seq<char>)>, s2: Seq<(Seq<char>, Seq<char>)>)
    requires
        keys_increasing(s1),
        keys_increasing(s2),
        assoc_map(s1) == assoc_map(s2),
    ensures
        s1 == s2,
    decreases s1.len() + s2.len(),
{
    lemma_increasing_distinct(s1);
    lemma_increasing_distinct(s2);
    if s1.len() == 0 || s2.len() == 0 {
        if s1.len() > 0 {
            lemma_assoc_map_at(s1, 0);
        }
        if s2.len() > 0 {
            lemma_assoc_map_at(s2, 0);
        }
        assert(s1 =~= s2);
    } else {
        let n1 = s1.len() - 1;
        let n2 = s2.len() - 1;
        let k1 = s1[n1].0;
        let k2 = s2[n2].0;
        lemma_assoc_map_at(s1, n1);
        lemma_assoc_map_at(s2, n2);
        let i = choose|i: int| 0 <= i < s2.len() && s2[i].0 == k1;
        let j = choose|j: int| 0 <= j < s1.len() && s1[j].0 == k2;
        lemma_lex_order(encode_utf8(k1), encode_utf8(k2), encode_utf8(k1));
        if i < n2 {
            assert(lex_lt(encode_utf8(s2[i].0), encode_utf8(s2[n2].0)));
        }
        if j < n1 {
            assert(lex_lt(encode_utf8(s1[j].0), encode_utf8(s1[n1].0)));
        }
        encode_utf8_decode_utf8(k1);
        encode_utf8_decode_utf8(k2);
        assert(k1 == k2);
        assert(s1[n1] == s2[n2]);
        lemma_assoc_map_drop_last(s1);
        lemma_assoc_map_drop_last(s2);
        let t1 = s1.drop_last();
        let t2 = s2.drop_last();
        assert(keys_increasing(t1)) by {
            assert forall|a: int, b: int| 0 <= a < b < t1.len() implies lex_lt(
                encode_utf8(#[trigger] t1[a].0),
                encode_utf8(#[trigger] t1[b].0),
            ) by {
                assert(t1[a] == s1[a]);
                assert(t1[b] == s1[b]);
            }
        }
        assert(keys_increasing(t2)) by {
            assert forall|a: int, b: int| 0 <= a < b < t2.len() implies lex_lt(
                encode_utf8(#[trigger] t2[a].0),
                encode_utf8(#[trigger] t2[b].0),
            ) by {
                assert(t2[a] == s2[a]);
                assert(t2[b] == s2[b]);
            }
        }
        law_pairs_determined_by_map(t1, t2);
        assert(s1 =~= t1.push(s1[n1]));
        assert(s2 =~= t2.push(s2[n2]));
    }
}

/// A line's mode is `100755` exactly when an execute bit (owner, group or
/// other) is set, and `100644` otherwise; no other bit matters.
pub proof fn law_line_mode_execute_bits(permission_bits: u32)
    ensures
        ((permission_bits / 64) % 2 == 1 || (permission_bits / 8) % 2 == 1 || permission_bits % 2 == 1)
            ==> line_mode(permission_bits) == seq!['1', '0', '0', '7', '5', '5'],
        !((permission_bits / 64) % 2 == 1 || (permission_bits / 8) % 2 == 1 || permission_bits % 2 == 1)
            ==> line_mode(permission_bits) == seq!['1', '0', '0', '6', '4', '4'],
{
    assert((permission_bits & 0o111u32 != 0) <==> ((permission_bits / 64) % 2 == 1 || (permission_bits / 8)
        % 2 == 1 || permission_bits % 2 == 1)) by (bit_vector);
}

} // verus!
