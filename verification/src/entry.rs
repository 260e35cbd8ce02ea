//! Tree objects: their entries, reading a tree back, and writing one.

use vstd::prelude::*;
use vstd::utf8::*;
use vstd::string::*;
use vstd::slice::slice_subrange;
use vstd::slice::slice_to_vec;
use crate::codec::zlib_inflated;
use crate::codec::zlib_decode;
use crate::codec::string_from_utf8;
use crate::codec::zlib_deflated;
use crate::codec::zlib_encode;
use crate::codec::digest_input_ok;
use crate::git_object_utils::short_hash;
use crate::git_object_utils::short_hash_bytes;
use crate::text::ascii_chars;
use crate::text::ascii_string;
use crate::text::is_lower_hex_byte;
use crate::error::GitError;
use crate::text::decimal;
use crate::text::decimal_bytes;
use crate::text::push_bytes;
use crate::text::first_index_of;
use crate::text::lemma_first_index_of;
use crate::text::lemma_first_index_at;
use crate::text::lemma_decimal_value;
use crate::text::find_byte;
use crate::order::lex_lt;
use crate::order::lemma_lex_order;
use crate::order::bytes_lt;

verus! {

/// One entry of a tree: the mode, the file name and the hash of the
/// object it names.
#[derive(Debug)]
pub struct Entry {
    pub mode: String,
    pub filename: String,
    pub sha: Vec<u8>,
}

/// The value an entry holds.
pub struct SpecEntry {
    pub mode: Seq<char>,
    pub filename: Seq<char>,
    pub sha: Seq<u8>,
}

impl View for Entry {
    type V = SpecEntry;

    open spec fn view(&self) -> SpecEntry {
        SpecEntry { mode: self.mode@, filename: self.filename@, sha: self.sha@ }
    }
}

/// The values held by a list of entries.
pub open spec fn entries_view(v: Seq<Entry>) -> Seq<SpecEntry> {
    v.map_values(|e: Entry| e@)
}

/// The bytes of one entry in a tree: mode, a space, file name, a NUL,
/// then the hash as it is held.
pub open spec fn entry_bytes(e: SpecEntry) -> Seq<u8> {
    encode_utf8(e.mode) + seq![32u8] + encode_utf8(e.filename) + seq![0u8] + e.sha
}

/// The entries' bytes one after the other.
pub open spec fn tree_body(es: Seq<SpecEntry>) -> Seq<u8>
    decreases es.len(),
{
    if es.len() == 0 {
        seq![]
    } else {
        tree_body(es.drop_last()) + entry_bytes(es.last())
    }
}

/// A whole tree: `tree <size of the body>`, a NUL, then the body.
pub open spec fn tree_file(es: Seq<SpecEntry>) -> Seq<u8> {
    seq![116u8, 114u8, 101u8, 101u8, 32u8] + decimal(tree_body(es).len()) + seq![0u8] + tree_body(es)
}

/// The entries read from what follows the header of a tree: each is a
/// mode up to the first space, a file name up to the next NUL, and the 20
/// bytes after it. `None` where a space or NUL is missing, the mode or
/// name is not UTF-8, or fewer than 20 bytes follow the name.
pub open spec fn parse_entries(rest: Seq<u8>) -> Option<Seq<SpecEntry>>
    decreases rest.len(),
{
    if rest.len() == 0 {
        Some(seq![])
    } else {
        match first_index_of(rest, 32u8) {
            None => None,
            Some(sp) => {
                let mode = rest.take(sp);
                let after = rest.skip(sp + 1);
                match first_index_of(after, 0u8) {
                    None => None,
                    Some(nul) => {
                        if !valid_utf8(mode) || !valid_utf8(after.take(nul)) || after.len() < nul + 21 {
                            None
                        } else {
                            proof {
                                lemma_first_index_of(rest, 32u8);
                                lemma_first_index_of(after, 0u8);
                            }
                            match parse_entries(after.skip(nul + 21)) {
                                None => None,
                                Some(es) => Some(
                                    seq![
                                        SpecEntry {
                                            mode: decode_utf8(mode),
                                            filename: decode_utf8(after.take(nul)),
                                            sha: after.subrange(nul + 1, nul + 21),
                                        },
                                    ] + es,
                                ),
                            }
                        }
                    },
                }
            },
        }
    }
}

/// The entries of a decompressed tree: what follows its first NUL.
pub open spec fn parse_tree(d: Seq<u8>) -> Option<Seq<SpecEntry>> {
    match first_index_of(d, 0u8) {
        None => None,
        Some(nul) => parse_entries(d.skip(nul + 1)),
    }
}

/// The entries that reading a stored (compressed) tree gives, or why it
/// fails: the bytes do not decompress (`ReadFailed`), or the tree does not
/// parse (`Malformed`).
pub open spec fn read_tree(compressed: Seq<u8>) -> Result<Seq<SpecEntry>, GitError> {
    match zlib_inflated(compressed) {
        None => Err(GitError::ReadFailed),
        Some(d) => match parse_tree(d) {
            None => Err(GitError::Malformed),
            Some(es) => Ok(es),
        },
    }
}

/// The UTF-8 text of `d[from..to]`, if it is UTF-8.
fn utf8_slice(d: &[u8], from: usize, to: usize) -> (r: Option<String>)
    requires
        from <= to <= d@.len(),
    ensures
        r is Some <==> valid_utf8(d@.subrange(from as int, to as int)),
        r matches Some(s) ==> s@ == decode_utf8(d@.subrange(from as int, to as int)),
{
    string_from_utf8(slice_to_vec(slice_subrange(d, from, to)))
}

/// Reads the entries of a decompressed tree.
pub fn parse_tree_entries(d: &[u8]) -> (r: Option<Vec<Entry>>)
    ensures
        match parse_tree(d@) {
            None => r is None,
            Some(es) => r matches Some(v) && entries_view(v@) == es,
        },
{
    assert(d@.skip(0) =~= d@);
    let n = d.len();
    let first = match find_byte(d, 0, 0u8) {
        Some(i) => i,
        None => {
            return None;
        },
    };
    proof {
        lemma_first_index_of(d@, 0u8);
    }
    let ghost body = d@.skip(first + 1);
    let mut out: Vec<Entry> = Vec::new();
    let mut pos: usize = first + 1;
    while pos < d.len()
        invariant
            first < pos <= d@.len(),
            body == d@.skip(first + 1),
            parse_tree(d@) == parse_entries(body),
            parse_entries(body) == match parse_entries(d@.skip(pos as int)) {
                Some(es) => Some(entries_view(out@) + es),
                None => None::<Seq<SpecEntry>>,
            },
        decreases d@.len() - pos,
    {
        let ghost rest = d@.skip(pos as int);
        let sp = match find_byte(d, pos, 32u8) {
            Some(i) => i,
            None => {
                return None;
            },
        };
        proof {
            lemma_first_index_of(rest, 32u8);
        }
        let ghost rsp = sp - pos;
        let ghost after = rest.skip(rsp + 1);
        assert(after =~= d@.skip(sp + 1));
        let nul = match find_byte(d, sp + 1, 0u8) {
            Some(i) => i,
            None => {
                return None;
            },
        };
        proof {
            lemma_first_index_of(after, 0u8);
        }
        let ghost rnul = nul - sp - 1;
        assert(rest.take(rsp) =~= d@.subrange(pos as int, sp as int));
        assert(after.take(rnul) =~= d@.subrange(sp + 1, nul as int));
        let mode = match utf8_slice(d, pos, sp) {
            Some(m) => m,
            None => {
                return None;
            },
        };
        let filename = match utf8_slice(d, sp + 1, nul) {
            Some(f) => f,
            None => {
                return None;
            },
        };
        if d.len() - nul < 21 {
            return None;
        }
        let sha = slice_to_vec(slice_subrange(d, nul + 1, nul + 21));
        assert(after.subrange(rnul + 1, rnul + 21) =~= sha@);
        assert(after.skip(rnul + 21) =~= d@.skip(nul + 21));
        let ghost before = entries_view(out@);
        let entry = Entry { mode, filename, sha };
        out.push(entry);
        assert(entries_view(out@) =~= before + seq![entry@]);
        pos = nul + 21;
    }
    assert(d@.skip(pos as int) =~= Seq::<u8>::empty());
    assert(entries_view(out@) + Seq::<SpecEntry>::empty() =~= entries_view(out@));
    Some(out)
}

/// Reads the entries of a stored (compressed) tree.
pub fn parse_tree_object(compressed: &[u8]) -> (r: Result<Vec<Entry>, GitError>)
    ensures
        match read_tree(compressed@) {
            Ok(es) => r matches Ok(v) && entries_view(v@) == es,
            Err(e) => r matches Err(e2) && e2 == e,
        },
{
    let d = match zlib_decode(compressed) {
        Some(d) => d,
        None => {
            return Err(GitError::ReadFailed);
        },
    };
    match parse_tree_entries(d.as_slice()) {
        Some(v) => Ok(v),
        None => Err(GitError::Malformed),
    }
}

/// The bytes of one tree entry.
pub fn tree_as_bytes(tree_entry: &Entry) -> (v: Vec<u8>)
    ensures
        v@ == entry_bytes(tree_entry@),
{
    let mut v: Vec<u8> = Vec::new();
    push_bytes(&mut v, tree_entry.mode.as_str().as_bytes());
    v.push(32u8);
    push_bytes(&mut v, tree_entry.filename.as_str().as_bytes());
    v.push(0u8);
    push_bytes(&mut v, tree_entry.sha.as_slice());
    assert(v@ =~= entry_bytes(tree_entry@));
    v
}

/// The whole tree for the entries, in the order given.
pub fn create_tree_file(entries: &mut Vec<Entry>) -> (r: Result<Vec<u8>, GitError>)
    ensures
        final(entries)@ == old(entries)@,
        r matches Ok(t) && t@ == tree_file(entries_view(old(entries)@)),
{
    let mut body: Vec<u8> = Vec::new();
    let mut i: usize = 0;
    while i < entries.len()
        invariant
            i <= entries@.len(),
            body@ == tree_body(entries_view(entries@.take(i as int))),
        decreases entries@.len() - i,
    {
        let object = tree_as_bytes(&entries[i]);
        push_bytes(&mut body, object.as_slice());
        let ghost t = entries_view(entries@.take(i + 1));
        assert(t.drop_last() =~= entries_view(entries@.take(i as int)));
        assert(t.last() == entries@[i as int]@);
        i = i + 1;
    }
    assert(entries@.take(i as int) =~= entries@);
    let mut index: Vec<u8> = Vec::new();
    index.push(116u8);
    index.push(114u8);
    index.push(101u8);
    index.push(101u8);
    index.push(32u8);
    let size = decimal_bytes(body.len());
    push_bytes(&mut index, size.as_slice());
    index.push(0u8);
    push_bytes(&mut index, body.as_slice());
    assert(index@ =~= tree_file(entries_view(entries@)));
    Ok(index)
}

/// The key by which entries sort: the UTF-8 bytes of the file name, the
/// bytes by which `String`s compare.
pub open spec fn name_key(e: Entry) -> Seq<u8> {
    encode_utf8(e.filename@)
}

/// No entry has a file name that sorts before an earlier one's.
pub open spec fn sorted_by_name(s: Seq<Entry>) -> bool {
    forall|i: int, j: int|
        0 <= i < j < s.len() ==> !lex_lt(#[trigger] name_key(s[j]), #[trigger] name_key(s[i]))
}

/// The entries of `s` whose file name has the bytes `k`, in their order in
/// `s`.
pub open spec fn named(s: Seq<Entry>, k: Seq<u8>) -> Seq<Entry> {
    s.filter(|e: Entry| name_key(e) == k)
}

/// A sequence none of whose entries has the key `k` holds no entry named
/// `k`.
proof fn lemma_named_none(s: Seq<Entry>, k: Seq<u8>)
    requires
        forall|i: int| 0 <= i < s.len() ==> name_key(#[trigger] s[i]) != k,
    ensures
        named(s, k) == Seq::<Entry>::empty(),
{
    let pred = |e: Entry| name_key(e) == k;
    assert(s.all(|e: Entry| !pred(e))) by {
        assert forall|i: int| 0 <= i < s.len() implies !pred(#[trigger] s[i]) by {}
    }
    s.lemma_all_neg_filter_empty(pred);
    assert(named(s, k) =~= Seq::<Entry>::empty());
}

/// Inserting `x` into a sorted sequence after every entry that does not
/// sort after it, and before every one that does, keeps it sorted and adds
/// `x` last among the entries of its name.
proof fn lemma_insert_sorted(s: Seq<Entry>, j: int, x: Entry)
    requires
        sorted_by_name(s),
        0 <= j <= s.len(),
        forall|i: int| 0 <= i < j ==> !lex_lt(name_key(x), #[trigger] name_key(s[i])),
        forall|i: int| j <= i < s.len() ==> lex_lt(name_key(x), #[trigger] name_key(s[i])),
    ensures
        sorted_by_name(s.insert(j, x)),
        forall|k: Seq<u8>|
            #[trigger] named(s.insert(j, x), k) == if name_key(x) == k {
                named(s, k).push(x)
            } else {
                named(s, k)
            },
{
    let t = s.insert(j, x);
    assert forall|a: int, b: int| 0 <= a < b < t.len() implies !lex_lt(
        #[trigger] name_key(t[b]),
        #[trigger] name_key(t[a]),
    ) by {
        if a < j && b == j {
        } else if a == j && b > j {
            lemma_lex_order(name_key(x), name_key(s[b - 1]), name_key(x));
        } else if a < j && b > j {
            assert(t[b] == s[b - 1]);
        } else if a > j {
            assert(t[a] == s[a - 1]);
            assert(t[b] == s[b - 1]);
        }
    }
    assert forall|k: Seq<u8>|
        #[trigger] named(t, k) == if name_key(x) == k {
            named(s, k).push(x)
        } else {
            named(s, k)
        } by {
        let pred = |e: Entry| name_key(e) == k;
        let front = s.take(j);
        let back = s.skip(j);
        assert(t =~= front + seq![x] + back);
        assert(s =~= front + back);
        Seq::filter_distributes_over_add(front + seq![x], back, pred);
        Seq::filter_distributes_over_add(front, seq![x], pred);
        Seq::filter_distributes_over_add(front, back, pred);
        assert(seq![x] =~= Seq::<Entry>::empty().push(x));
        Seq::<Entry>::empty().lemma_filter_push(x, pred);
        assert(Seq::<Entry>::empty().filter(pred) =~= Seq::<Entry>::empty()) by {
            reveal(Seq::filter);
        }
        if name_key(x) == k {
            assert forall|i: int| 0 <= i < back.len() implies name_key(#[trigger] back[i]) != k by {
                assert(back[i] == s[j + i]);
                lemma_lex_order(name_key(x), name_key(x), name_key(x));
            }
            lemma_named_none(back, k);
            assert(named(t, k) =~= named(s, k).push(x));
        } else {
            assert(named(t, k) =~= named(s, k));
        }
    }
}

/// The index at which `x` goes into sorted `out`: after every entry whose
/// name does not sort after `x`'s.
fn insertion_point(out: &Vec<Entry>, x: &Entry) -> (j: usize)
    requires
        sorted_by_name(out@),
    ensures
        j <= out@.len(),
        forall|i: int| 0 <= i < j ==> !lex_lt(name_key(*x), #[trigger] name_key(out@[i])),
        forall|i: int| j <= i < out@.len() ==> lex_lt(name_key(*x), #[trigger] name_key(out@[i])),
{
    let mut j: usize = 0;
    while j < out.len()
        invariant
            j <= out@.len(),
            sorted_by_name(out@),
            forall|i: int| 0 <= i < j ==> !lex_lt(name_key(*x), #[trigger] name_key(out@[i])),
        decreases out@.len() - j,
    {
        if bytes_lt(x.filename.as_str().as_bytes(), out[j].filename.as_str().as_bytes()) {
            assert forall|i: int| j <= i < out@.len() implies lex_lt(
                name_key(*x),
                #[trigger] name_key(out@[i]),
            ) by {
                if i > j {
                    lemma_lex_order(name_key(*x), name_key(out@[j as int]), name_key(out@[i]));
                    lemma_lex_order(name_key(out@[i]), name_key(out@[j as int]), name_key(out@[i]));
                }
            }
            return j;
        }
        j = j + 1;
    }
    j
}

/// Sorts entries by file name, as `sort_by` with `String::cmp` on the
/// names does: in byte order, entries of equal name keeping their order.
pub fn sort_by_filename(entries: &mut Vec<Entry>)
    ensures
        sorted_by_name(final(entries)@),
        forall|k: Seq<u8>| #[trigger] named(final(entries)@, k) == named(old(entries)@, k),
{
    let ghost orig = entries@;
    let mut out: Vec<Entry> = Vec::new();
    assert(forall|k: Seq<u8>| #[trigger] named(out@, k) == named(orig.take(0), k)) by {
        assert forall|k: Seq<u8>| #[trigger] named(out@, k) == named(orig.take(0), k) by {
            assert(out@ =~= orig.take(0));
        }
    }
    assert(entries@ =~= orig.skip(0));
    while entries.len() > 0
        invariant
            entries@.len() <= orig.len(),
            entries@ == orig.skip(orig.len() - entries@.len()),
            sorted_by_name(out@),
            forall|k: Seq<u8>|
                #[trigger] named(out@, k) == named(orig.take(orig.len() - entries@.len()), k),
        decreases entries@.len(),
    {
        let ghost m = orig.len() - entries@.len();
        let x = entries.remove(0);
        assert(x == orig[m]);
        assert(entries@ =~= orig.skip(m + 1));
        let j = insertion_point(&out, &x);
        let ghost before = out@;
        proof {
            lemma_insert_sorted(before, j as int, x);
        }
        out.insert(j, x);
        assert forall|k: Seq<u8>|
            #[trigger] named(out@, k) == named(orig.take(m + 1), k) by {
            assert(orig.take(m + 1) =~= orig.take(m).push(x));
            orig.take(m).lemma_filter_push(x, |e: Entry| name_key(e) == k);
            assert(named(before.insert(j as int, x), k) == named(out@, k));
        }
    }
    assert(orig.take(orig.len() as int) =~= orig);
    *entries = out;
}

/// The mode a tree gives a path from its metadata: executable (any
/// execute bit set) first, then regular file, directory, symbolic link.
pub open spec fn tree_mode(permission_bits: u32, is_file: bool, is_dir: bool) -> Seq<u8> {
    if permission_bits & 0o111 != 0 {
        seq![49u8, 48u8, 48u8, 55u8, 53u8, 53u8]
    } else if is_file {
        seq![49u8, 48u8, 48u8, 54u8, 52u8, 52u8]
    } else if is_dir {
        seq![52u8, 48u8, 48u8, 48u8, 48u8]
    } else {
        seq![49u8, 50u8, 48u8, 48u8, 48u8, 48u8]
    }
}

/// The tree mode for a path with the given permission bits and file type.
/// A path that is none of executable, file, directory or link has no mode.
pub fn get_tree_mode_by_path(permission_bits: u32, is_file: bool, is_dir: bool, is_symlink: bool) -> (m: String)
    requires
        permission_bits & 0o111 != 0 || is_file || is_dir || is_symlink,
    ensures
        m@ == ascii_chars(tree_mode(permission_bits, is_file, is_dir)),
{
    let mut v: Vec<u8> = Vec::new();
    if permission_bits & 0o111 != 0 {
        v.push(49u8);
        v.push(48u8);
        v.push(48u8);
        v.push(55u8);
        v.push(53u8);
        v.push(53u8);
    } else if is_file {
        v.push(49u8);
        v.push(48u8);
        v.push(48u8);
        v.push(54u8);
        v.push(52u8);
        v.push(52u8);
    } else if is_dir {
        v.push(52u8);
        v.push(48u8);
        v.push(48u8);
        v.push(48u8);
        v.push(48u8);
    } else {
        v.push(49u8);
        v.push(50u8);
        v.push(48u8);
        v.push(48u8);
        v.push(48u8);
        v.push(48u8);
    }
    assert(v@ =~= tree_mode(permission_bits, is_file, is_dir));
    ascii_string(v)
}

/// The name of the directory that a tree leaves out: `.git`.
pub open spec fn git_dir_name() -> Seq<char> {
    seq!['.', 'g', 'i', 't']
}

/// Whether a directory entry is left out of a tree: only `.git` is.
pub fn is_ignored(filename: &str) -> (r: bool)
    ensures
        r == (filename@ == git_dir_name()),
{
    let chars = crate::text::chars_of(filename);
    if chars.len() == 4 && chars[0] == '.' && chars[1] == 'g' && chars[2] == 'i' && chars[3] == 't' {
        assert(chars@ =~= git_dir_name());
        true
    } else {
        false
    }
}

/// The entry for a file: its name, its mode and, as the hash, the bytes
/// of its hash's text.
pub fn build_tree_entry_file(filename: String, mode: String, path_hash: String) -> (e: Entry)
    ensures
        e@ == (SpecEntry { mode: mode@, filename: filename@, sha: encode_utf8(path_hash@) }),
{
    let sha = slice_to_vec(path_hash.as_str().as_bytes());
    Entry { mode, filename, sha }
}

/// The entry for a directory: its name, its mode and the hash of its tree.
pub fn build_tree_entry_from_dir(filename: String, mode: String, dir_hash: Vec<u8>) -> (e: Entry)
    ensures
        e@ == (SpecEntry { mode: mode@, filename: filename@, sha: dir_hash@ }),
{
    Entry { mode, filename, sha: dir_hash }
}

/// A tree ready for the object database: its hash as text bytes, the
/// directory and file name the hash gives it, and its compressed bytes.
pub struct SavedObject {
    pub sha: Vec<u8>,
    pub dir: String,
    pub file: String,
    pub compressed: Vec<u8>,
}

/// Prepares a tree's bytes for the object database. The bytes are hashed
/// as text, so they must be UTF-8 (else `NotUtf8`); then they are
/// compressed (else `CompressFailed`).
pub fn save_to_disk(content: &[u8]) -> (r: Result<SavedObject, GitError>)
    requires
        digest_input_ok(content@.len()),
    ensures
        !valid_utf8(content@) ==> r == Err::<SavedObject, GitError>(GitError::NotUtf8),
        valid_utf8(content@) && zlib_deflated(content@) is None ==> r == Err::<SavedObject, GitError>(
            GitError::CompressFailed,
        ),
        valid_utf8(content@) && zlib_deflated(content@) is Some ==> (r matches Ok(o) && {
            &&& ascii_chars(o.sha@) == short_hash(content@)
            &&& o.sha@.len() == 40
            &&& forall|i: int| 0 <= i < o.sha@.len() ==> is_lower_hex_byte(#[trigger] o.sha@[i])
            &&& o.dir@ == ascii_chars(o.sha@).take(2)
            &&& o.file@ == ascii_chars(o.sha@).skip(2)
            &&& zlib_deflated(content@) == Some(o.compressed@)
            &&& zlib_inflated(o.compressed@) == Some(content@)
        }),
{
    if string_from_utf8(slice_to_vec(content)).is_none() {
        return Err(GitError::NotUtf8);
    }
    let h = short_hash_bytes(content);
    let dir = ascii_string(slice_to_vec(slice_subrange(h.as_slice(), 0, 2)));
    let file = ascii_string(slice_to_vec(slice_subrange(h.as_slice(), 2, 40)));
    assert(dir@ =~= ascii_chars(h@).take(2));
    assert(file@ =~= ascii_chars(h@).skip(2));
    let compressed = match zlib_encode(content) {
        Some(c) => c,
        None => {
            return Err(GitError::CompressFailed);
        },
    };
    Ok(SavedObject { sha: h, dir, file, compressed })
}

/// An entry that a tree can hold and give back: no space in the bytes of
/// its mode, no NUL in those of its name, and a 20-byte hash.
pub open spec fn entry_well_formed(e: SpecEntry) -> bool {
    &&& !encode_utf8(e.mode).contains(32u8)
    &&& !encode_utf8(e.filename).contains(0u8)
    &&& e.sha.len() == 20
}

/// A tree body is its first entry's bytes followed by the body of the rest.
proof fn lemma_tree_body_cons(e: SpecEntry, es: Seq<SpecEntry>)
    ensures
        tree_body(seq![e] + es) == entry_bytes(e) + tree_body(es),
    decreases es.len(),
{
    let all = seq![e] + es;
    if es.len() == 0 {
        assert(all.drop_last() =~= Seq::<SpecEntry>::empty());
        assert(tree_body(Seq::<SpecEntry>::empty()) == Seq::<u8>::empty());
        assert(tree_body(all) =~= entry_bytes(e) + tree_body(es));
    } else {
        lemma_tree_body_cons(e, es.drop_last());
        assert(all.drop_last() =~= seq![e] + es.drop_last());
        assert(all.last() == es.last());
        assert(tree_body(all) =~= entry_bytes(e) + tree_body(es));
    }
}

/// Reading entries takes one well-formed entry off the front.
proof fn lemma_parse_entry_step(e: SpecEntry, rest: Seq<u8>)
    requires
        entry_well_formed(e),
    ensures
        parse_entries(entry_bytes(e) + rest) == match parse_entries(rest) {
            Some(r) => Some(seq![e] + r),
            None => None::<Seq<SpecEntry>>,
        },
{
    let m = encode_utf8(e.mode);
    let f = encode_utf8(e.filename);
    let b = entry_bytes(e) + rest;
    let ml = m.len() as int;
    let fl = f.len() as int;
    assert(b[ml] == 32u8);
    assert forall|j: int| 0 <= j < ml implies b[j] != 32u8 by {
        assert(b[j] == m[j]);
    }
    lemma_first_index_at(b, 32u8, ml);
    let after = b.skip(ml + 1);
    assert(after =~= f + seq![0u8] + e.sha + rest);
    assert(after[fl] == 0u8);
    assert forall|j: int| 0 <= j < fl implies after[j] != 0u8 by {
        assert(after[j] == f[j]);
    }
    lemma_first_index_at(after, 0u8, fl);
    assert(b.take(ml) =~= m);
    assert(after.take(fl) =~= f);
    assert(after.subrange(fl + 1, fl + 21) =~= e.sha);
    assert(after.skip(fl + 21) =~= rest);
    encode_utf8_valid_utf8(e.mode);
    encode_utf8_valid_utf8(e.filename);
    encode_utf8_decode_utf8(e.mode);
    encode_utf8_decode_utf8(e.filename);
}

/// The body of well-formed entries reads back as those entries.
proof fn lemma_tree_body_parses_back(es: Seq<SpecEntry>)
    requires
        forall|i: int| 0 <= i < es.len() ==> entry_well_formed(#[trigger] es[i]),
    ensures
        parse_entries(tree_body(es)) == Some(es),
    decreases es.len(),
{
    if es.len() == 0 {
        assert(tree_body(es) =~= Seq::<u8>::empty());
    } else {
        let rest = es.drop_first();
        assert(es =~= seq![es[0]] + rest);
        lemma_tree_body_cons(es[0], rest);
        assert forall|i: int| 0 <= i < rest.len() implies entry_well_formed(#[trigger] rest[i]) by {
            assert(rest[i] == es[i + 1]);
        }
        lemma_tree_body_parses_back(rest);
        lemma_parse_entry_step(es[0], tree_body(rest));
    }
}

/// A tree written from well-formed entries reads back as those entries, in
/// the same order.
pub proof fn law_tree_file_parses_back(es: Seq<SpecEntry>)
    requires
        forall|i: int| 0 <= i < es.len() ==> entry_well_formed(#[trigger] es[i]),
    ensures
        parse_tree(tree_file(es)) == Some(es),
{
    let body = tree_body(es);
    let d = decimal(body.len());
    let t = tree_file(es);
    lemma_decimal_value(body.len());
    let nul = d.len() + 5int;
    assert(t[nul] == 0u8);
    assert forall|j: int| 0 <= j < nul implies t[j] != 0u8 by {
        if j >= 5 {
            assert(t[j] == d[j - 5]);
            assert(crate::text::is_digit_char(ascii_chars(d)[j - 5]));
        }
    }
    lemma_first_index_at(t, 0u8, nul);
    assert(t.skip(nul + 1) =~= body);
    lemma_tree_body_parses_back(es);
}

/// A stored tree that decompresses to the tree written from well-formed
/// entries reads back as those entries.
pub proof fn law_stored_tree_reads_back(es: Seq<SpecEntry>, compressed: Seq<u8>)
    requires
        forall|i: int| 0 <= i < es.len() ==> entry_well_formed(#[trigger] es[i]),
        zlib_inflated(compressed) == Some(tree_file(es)),
    ensures
        read_tree(compressed) == Ok::<Seq<SpecEntry>, GitError>(es),
{
    law_tree_file_parses_back(es);
}

/// No two entries have the same file name.
pub open spec fn names_unique(s: Seq<Entry>) -> bool {
    forall|i: int, j: int| 0 <= i < j < s.len() ==> name_key(#[trigger] s[i]) != name_key(#[trigger] s[j])
}

/// The entries named `k` in `s`, after dropping the last entry of `s`.
proof fn lemma_named_drop_last(s: Seq<Entry>, k: Seq<u8>)
    requires
        s.len() > 0,
    ensures
        named(s, k) == if name_key(s.last()) == k {
            named(s.drop_last(), k).push(s.last())
        } else {
            named(s.drop_last(), k)
        },
{
    assert(s =~= s.drop_last().push(s.last()));
    s.drop_last().lemma_filter_push(s.last(), |e: Entry| name_key(e) == k);
}

/// Where `s` holds an entry named `k`, gives the index of one.
proof fn lemma_named_some(s: Seq<Entry>, k: Seq<u8>) -> (i: int)
    requires
        named(s, k).len() > 0,
    ensures
        0 <= i < s.len(),
        name_key(s[i]) == k,
{
    if forall|i: int| 0 <= i < s.len() ==> name_key(#[trigger] s[i]) != k {
        lemma_named_none(s, k);
        assert(false);
        0
    } else {
        choose|i: int| 0 <= i < s.len() && name_key(#[trigger] s[i]) == k
    }
}

/// A sorted list is fixed by the entries it holds under each name: two
/// sorted lists that hold, name by name, the same entries in the same order
/// are the same list.
pub proof fn law_sorted_determined_by_names(s1: Seq<Entry>, s2: Seq<Entry>)
    requires
        sorted_by_name(s1),
        sorted_by_name(s2),
        forall|k: Seq<u8>| #[trigger] named(s1, k) == named(s2, k),
    ensures
        s1 == s2,
    decreases s1.len() + s2.len(),
{
    if s1.len() == 0 || s2.len() == 0 {
        if s1.len() > 0 {
            lemma_named_drop_last(s1, name_key(s1.last()));
            assert(named(s2, name_key(s1.last())) == named(s1, name_key(s1.last())));
            lemma_named_none(s2, name_key(s1.last()));
        }
        if s2.len() > 0 {
            lemma_named_drop_last(s2, name_key(s2.last()));
            assert(named(s1, name_key(s2.last())) == named(s2, name_key(s2.last())));
            lemma_named_none(s1, name_key(s2.last()));
        }
        assert(s1 =~= s2);
    } else {
        let x = s1.last();
        let y = s2.last();
        let kx = name_key(x);
        let ky = name_key(y);
        lemma_named_drop_last(s1, kx);
        lemma_named_drop_last(s2, ky);
        assert(named(s2, kx) == named(s1, kx));
        assert(named(s1, ky) == named(s2, ky));
        let j2 = lemma_named_some(s2, kx);
        let j1 = lemma_named_some(s1, ky);
        if j2 < s2.len() - 1 {
            assert(!lex_lt(name_key(s2[s2.len() - 1]), name_key(s2[j2])));
        }
        if j1 < s1.len() - 1 {
            assert(!lex_lt(name_key(s1[s1.len() - 1]), name_key(s1[j1])));
        }
        lemma_lex_order(kx, ky, kx);
        assert(kx == ky);
        lemma_named_drop_last(s1, kx);
        lemma_named_drop_last(s2, kx);
        assert(named(s1, kx).last() == x);
        assert(named(s2, kx).last() == y);
        assert(x == y);
        let t1 = s1.drop_last();
        let t2 = s2.drop_last();
        assert forall|k: Seq<u8>| #[trigger] named(t1, k) == named(t2, k) by {
            lemma_named_drop_last(s1, k);
            lemma_named_drop_last(s2, k);
            assert(named(s1, k) == named(s2, k));
            if kx == k {
                assert(named(t1, k) =~= named(s1, k).drop_last());
                assert(named(t2, k) =~= named(s2, k).drop_last());
            }
        }
        assert(sorted_by_name(t1)) by {
            assert forall|i: int, j: int| 0 <= i < j < t1.len() implies !lex_lt(
                #[trigger] name_key(t1[j]),
                #[trigger] name_key(t1[i]),
            ) by {
                assert(t1[i] == s1[i] && t1[j] == s1[j]);
            }
        }
        assert(sorted_by_name(t2)) by {
            assert forall|i: int, j: int| 0 <= i < j < t2.len() implies !lex_lt(
                #[trigger] name_key(t2[j]),
                #[trigger] name_key(t2[i]),
            ) by {
                assert(t2[i] == s2[i] && t2[j] == s2[j]);
            }
        }
        law_sorted_determined_by_names(t1, t2);
        assert(s1 =~= t1.push(x));
        assert(s2 =~= t2.push(y));
    }
}

/// In a list with unique names, the entry at `i` is all that is named as
/// it is.
proof fn lemma_named_unique(s: Seq<Entry>, i: int)
    requires
        names_unique(s),
        0 <= i < s.len(),
    ensures
        named(s, name_key(s[i])) == seq![s[i]],
{
    let k = name_key(s[i]);
    let pred = |e: Entry| name_key(e) == k;
    let front = s.take(i);
    let back = s.skip(i + 1);
    assert(s =~= front + seq![s[i]] + back);
    assert forall|j: int| 0 <= j < front.len() implies name_key(#[trigger] front[j]) != k by {
        assert(front[j] == s[j]);
    }
    assert forall|j: int| 0 <= j < back.len() implies name_key(#[trigger] back[j]) != k by {
        assert(back[j] == s[i + 1 + j]);
    }
    lemma_named_none(front, k);
    lemma_named_none(back, k);
    Seq::filter_distributes_over_add(front + seq![s[i]], back, pred);
    Seq::filter_distributes_over_add(front, seq![s[i]], pred);
    assert(seq![s[i]] =~= Seq::<Entry>::empty().push(s[i]));
    Seq::<Entry>::empty().lemma_filter_push(s[i], pred);
    assert(Seq::<Entry>::empty().filter(pred) =~= Seq::<Entry>::empty()) by {
        reveal(Seq::filter);
    }
    assert(named(s, k) =~= seq![s[i]]);
}

/// Sorting does not depend on the order in which entries are listed: two
/// listings of the same entries, no name occurring twice in either, sort to
/// the same list. `ra` and `rb` are what `sort_by_filename` gives for `a`
/// and `b`.
pub proof fn law_sort_ignores_listing_order(a: Seq<Entry>, b: Seq<Entry>, ra: Seq<Entry>, rb: Seq<Entry>)
    requires
        names_unique(a),
        names_unique(b),
        forall|e: Entry| a.contains(e) <==> b.contains(e),
        sorted_by_name(ra),
        sorted_by_name(rb),
        forall|k: Seq<u8>| #[trigger] named(ra, k) == named(a, k),
        forall|k: Seq<u8>| #[trigger] named(rb, k) == named(b, k),
    ensures
        ra == rb,
{
    assert forall|k: Seq<u8>| #[trigger] named(ra, k) == named(rb, k) by {
        assert(named(ra, k) == named(a, k));
        assert(named(rb, k) == named(b, k));
        if exists|i: int| 0 <= i < a.len() && name_key(a[i]) == k {
            let i = choose|i: int| 0 <= i < a.len() && name_key(a[i]) == k;
            lemma_named_unique(a, i);
            assert(a.contains(a[i]));
            assert(b.contains(a[i]));
            let j = choose|j: int| 0 <= j < b.len() && b[j] == a[i];
            lemma_named_unique(b, j);
        } else {
            lemma_named_none(a, k);
            assert forall|j: int| 0 <= j < b.len() implies name_key(#[trigger] b[j]) != k by {
                assert(b.contains(b[j]));
                if name_key(b[j]) == k {
                    assert(a.contains(b[j]));
                    let i = choose|i: int| 0 <= i < a.len() && a[i] == b[j];
                    assert(name_key(a[i]) == k);
                }
            }
            lemma_named_none(b, k);
        }
    }
    law_sorted_determined_by_names(ra, rb);
}

/// The size of an entry's record, counted from its parts: mode, a space,
/// name, a NUL, and every byte of the hash.
pub open spec fn record_size(e: SpecEntry) -> nat {
    encode_utf8(e.mode).len() + encode_utf8(e.filename).len() + 2 + e.sha.len()
}

/// The records' sizes added up.
pub open spec fn records_size(es: Seq<SpecEntry>) -> nat
    decreases es.len(),
{
    if es.len() == 0 {
        0
    } else {
        records_size(es.drop_last()) + record_size(es.last())
    }
}

/// An entry's record is its mode's bytes, a space, its name's bytes, a NUL,
/// then its hash in full, whatever the hash's length.
pub proof fn law_entry_record_layout(e: SpecEntry)
    ensures
        entry_bytes(e).len() == record_size(e),
        entry_bytes(e).take((encode_utf8(e.mode).len() as int)) == encode_utf8(e.mode),
        entry_bytes(e)[(encode_utf8(e.mode).len() as int)] == 32u8,
        entry_bytes(e).subrange(
            (encode_utf8(e.mode).len() as int) + 1,
            (encode_utf8(e.mode).len() as int) + 1 + (encode_utf8(e.filename).len() as int),
        ) == encode_utf8(e.filename),
        entry_bytes(e)[(encode_utf8(e.mode).len() as int) + 1 + (encode_utf8(e.filename).len() as int)] == 0u8,
        entry_bytes(e).skip((encode_utf8(e.mode).len() as int) + (encode_utf8(e.filename).len() as int) + 2) == e.sha,
{
    let m = encode_utf8(e.mode);
    let f = encode_utf8(e.filename);
    let ml = m.len() as int;
    let fl = f.len() as int;
    let b = entry_bytes(e);
    assert(b.take(ml) =~= m);
    assert(b.subrange(ml + 1, ml + 1 + fl) =~= f);
    assert(b.skip(ml + fl + 2) =~= e.sha);
}

/// A tree body holds each record in full: its length is the records'
/// sizes added up, and appending an entry appends its whole record, so
/// the body ends with that entry's full hash.
pub proof fn law_tree_body_size(es: Seq<SpecEntry>, e: SpecEntry)
    ensures
        tree_body(es).len() == records_size(es),
        tree_body(es.push(e)).take(tree_body(es).len() as int) == tree_body(es),
        tree_body(es.push(e)).len() == tree_body(es).len() + record_size(e),
        tree_body(es.push(e)).skip(tree_body(es.push(e)).len() - e.sha.len()) == e.sha,
    decreases es.len(),
{
    lemma_tree_body_size(es);
    law_entry_record_layout(e);
    let t = es.push(e);
    assert(t.drop_last() =~= es);
    assert(tree_body(t).take(tree_body(es).len() as int) =~= tree_body(es));
    assert(tree_body(t).skip(tree_body(t).len() - e.sha.len()) =~= entry_bytes(e).skip(
        (encode_utf8(e.mode).len() as int) + (encode_utf8(e.filename).len() as int) + 2,
    ));
}

proof fn lemma_tree_body_size(es: Seq<SpecEntry>)
    ensures
        tree_body(es).len() == records_size(es),
    decreases es.len(),
{
    if es.len() > 0 {
        lemma_tree_body_size(es.drop_last());
        law_entry_record_layout(es.last());
    }
}

/// Any execute bit (owner, group or other) makes the mode `100755`;
/// without one, a regular file is `100644`, a directory `40000` and
/// anything else `120000`.
pub proof fn law_tree_mode_execute_bits(permission_bits: u32, is_file: bool, is_dir: bool)
    ensures
        ((permission_bits / 64) % 2 == 1 || (permission_bits / 8) % 2 == 1 || permission_bits % 2 == 1)
            ==> ascii_chars(tree_mode(permission_bits, is_file, is_dir)) == seq!['1', '0', '0', '7', '5', '5'],
        !((permission_bits / 64) % 2 == 1 || (permission_bits / 8) % 2 == 1 || permission_bits % 2 == 1)
            ==> ascii_chars(tree_mode(permission_bits, is_file, is_dir)) == (if is_file {
            seq!['1', '0', '0', '6', '4', '4']
        } else if is_dir {
            seq!['4', '0', '0', '0', '0']
        } else {
            seq!['1', '2', '0', '0', '0', '0']
        }),
{
    assert((permission_bits & 0o111u32 != 0) <==> ((permission_bits / 64) % 2 == 1 || (permission_bits / 8)
        % 2 == 1 || permission_bits % 2 == 1)) by (bit_vector);
    assert(ascii_chars(tree_mode(permission_bits, is_file, is_dir)) =~= (if permission_bits & 0o111 != 0 {
        seq!['1', '0', '0', '7', '5', '5']
    } else if is_file {
        seq!['1', '0', '0', '6', '4', '4']
    } else if is_dir {
        seq!['4', '0', '0', '0', '0']
    } else {
        seq!['1', '2', '0', '0', '0', '0']
    }));
}

} // verus!
