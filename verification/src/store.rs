//! Content-addressed blob store.
//!
//! Bytes are stored under their full SHA1, sharded two levels deep
//! (`<root>/ab/cd/<sha1>`). Because the path is derived from content, writing the
//! same bytes twice is idempotent — which is exactly what makes exact
//! deduplication automatic: identical uploads resolve to one blob.

use vstd::prelude::*;

use crate::identity::{hash_bytes, Hashes};
use crate::text::{append_text, chars_of, owned, string_of};

verus! {

/// A content-addressed store rooted at a directory.
#[derive(Debug, Clone)]
pub struct BlobStore {
    pub root: String,
}

/// A path below another: a slash between them unless one stands there already. An
/// absolute path stands for itself, and nothing comes before a path that is below
/// the empty one.
pub open spec fn below(base: Seq<char>, part: Seq<char>) -> Seq<char> {
    if part.len() > 0 && part[0] == '/' || base.len() == 0 {
        part
    } else if base.last() == '/' {
        base + part
    } else {
        base.push('/') + part
    }
}

/// Whether the first two bytes of a SHA1, and the two after them, are whole
/// characters.
pub open spec fn shards(sha1: Seq<char>) -> bool {
    let b = vstd::utf8::encode_utf8(sha1);
    &&& b.len() >= 4
    &&& vstd::utf8::is_char_boundary(b, 2)
    &&& vstd::utf8::is_char_boundary(b.subrange(2, b.len() as int), 2)
}

/// The first two bytes of a SHA1.
pub open spec fn first_shard(sha1: Seq<char>) -> Seq<char> {
    vstd::utf8::decode_utf8(vstd::utf8::encode_utf8(sha1).subrange(0, 2))
}

/// The third and fourth byte of a SHA1.
pub open spec fn second_shard(sha1: Seq<char>) -> Seq<char> {
    vstd::utf8::decode_utf8(vstd::utf8::encode_utf8(sha1).subrange(2, 4))
}

/// The directory of a SHA1's blob.
pub open spec fn blob_dir(root: Seq<char>, sha1: Seq<char>) -> Seq<char> {
    below(below(root, first_shard(sha1)), second_shard(sha1))
}

/// The path of a SHA1's blob.
pub open spec fn blob_path(root: Seq<char>, sha1: Seq<char>) -> Seq<char> {
    below(blob_dir(root, sha1), sha1)
}

/// A path below another.
fn join_path(base: &str, part: &str) -> (r: String)
    ensures
        r@ == below(base@, part@),
{
    let mut b = chars_of(base);
    let p = chars_of(part);
    let size = b.len();
    if p.len() > 0 && p[0] == '/' || size == 0 {
        owned(part)
    } else {
        if b[size - 1] != '/' {
            b.push('/');
        }
        append_text(&mut b, part);
        string_of(&b)
    }
}

/// A hex SHA1 of four digits or more can be sharded: by its first two characters and
/// the two after them.
pub proof fn lemma_ascii_shards(sha1: Seq<char>)
    requires
        crate::identity::is_ascii(sha1),
        sha1.len() >= 4,
    ensures
        shards(sha1),
        first_shard(sha1) == sha1.subrange(0, 2),
        second_shard(sha1) == sha1.subrange(2, 4),
{
    let b = vstd::utf8::encode_utf8(sha1);
    crate::identity::lemma_ascii_prefix(sha1, 2);
    assert(sha1.take(2) =~= sha1.subrange(0, 2));
    let rest = sha1.skip(2);
    assert(crate::identity::is_ascii(rest));
    vstd::utf8::is_ascii_chars_encode_utf8(sha1);
    vstd::utf8::is_ascii_chars_encode_utf8(rest);
    assert(vstd::utf8::encode_utf8(rest) =~= b.subrange(2, b.len() as int));
    crate::identity::lemma_ascii_prefix(rest, 2);
    assert(rest.take(2) =~= sha1.subrange(2, 4));
    assert(b.subrange(2, b.len() as int).subrange(0, 2) =~= b.subrange(2, 4));
}

/// What to do to store bytes.
#[derive(Debug, Clone, PartialEq, Eq)]
pub enum PutStep {
    /// A blob of these bytes is stored already.
    Keep,
    /// Make the directory where it is missing, then write the bytes.
    Write { dir: String, path: String },
}

/// Whether `is_file` may give this answer for a path.
pub open spec fn answers<F: Fn(&str) -> bool>(is_file: F, path: Seq<char>, answer: bool) -> bool {
    exists|p: &str| p@ == path && #[trigger] call_ensures(is_file, (p,), answer)
}

/// The path of the blob of bytes.
pub open spec fn path_of(root: Seq<char>, bytes: Seq<u8>) -> Seq<char> {
    blob_path(root, crate::identity::hashes_of(bytes).sha1)
}

/// Whether bytes are stored by this step, and are new or not, given whether a file stands
/// at a path.
pub open spec fn is_put<F: Fn(&str) -> bool>(
    root: Seq<char>,
    bytes: Seq<u8>,
    is_file: F,
    is_new: bool,
    step: PutStep,
) -> bool {
    &&& answers(is_file, path_of(root, bytes), !is_new)
    &&& match step {
        PutStep::Keep => !is_new,
        PutStep::Write { dir, path } => is_new && dir@ == blob_dir(
            root,
            crate::identity::hashes_of(bytes).sha1,
        ) && path@ == path_of(root, bytes),
    }
}

impl BlobStore {
    /// The on-disk path for a given SHA1 (whether or not it exists yet).
    pub fn path_for(&self, sha1: &str) -> (r: String)
        requires
            shards(sha1@),
        ensures
            r@ == blob_path(self.root@, sha1@),
    {
        let dir = self.dir_for(sha1);
        join_path(&dir, sha1)
    }

    /// The on-disk directory for a given SHA1.
    fn dir_for(&self, sha1: &str) -> (r: String)
        requires
            shards(sha1@),
        ensures
            r@ == blob_dir(self.root@, sha1@),
    {
        let (a, rest) = sha1.split_at(2);
        let (b, tail) = rest.split_at(2);
        proof {
            let all = vstd::utf8::encode_utf8(sha1@);
            vstd::utf8::encode_utf8_decode_utf8(a@);
            vstd::utf8::encode_utf8_decode_utf8(b@);
            assert(vstd::utf8::encode_utf8(a@) =~= all.subrange(0, 2));
            assert(vstd::utf8::encode_utf8(b@) =~= all.subrange(2, 4));
        }
        let dir = join_path(&self.root, a);
        join_path(&dir, b)
    }

    /// True if a blob with this SHA1 is already stored, given whether a file stands at
    /// a path.
    pub fn is_stored<F: Fn(&str) -> bool>(&self, sha1: &str, is_file: F) -> (r: bool)
        requires
            shards(sha1@),
            forall|p: &str| #[trigger] call_requires(is_file, (p,)),
        ensures
            answers(is_file, blob_path(self.root@, sha1@), r),
    {
        let path = self.path_for(sha1);
        is_file(&path)
    }

    /// Decide how to store `bytes`, given whether a file stands at a path.
    /// Idempotent: identical bytes are written once. Returns `(hashes, is_new)` with
    /// the step to take.
    pub fn put<F: Fn(&str) -> bool>(&self, bytes: &[u8], is_file: F) -> (r: (Hashes, bool, PutStep))
        requires
            forall|p: &str| #[trigger] call_requires(is_file, (p,)),
        ensures
            (r.0)@ == crate::identity::hashes_of(bytes@),
            is_put(self.root@, bytes@, is_file, r.1, r.2),
    {
        let hashes = hash_bytes(bytes);
        proof {
            lemma_ascii_shards(hashes@.sha1);
        }
        let path = self.path_for(&hashes.sha1);
        let present = is_file(&path);
        if present {
            (hashes, false, PutStep::Keep)
        } else {
            let dir = self.dir_for(&hashes.sha1);
            (hashes, true, PutStep::Write { dir, path })
        }
    }
}

// --- Laws -------------------------------------------------------------------

/// What is below a path ends in the part that was put below it.
proof fn lemma_below_ends(base: Seq<char>, part: Seq<char>)
    ensures
        below(base, part).len() >= part.len(),
        below(base, part).skip(below(base, part).len() - part.len()) == part,
{
    let r = below(base, part);
    assert(r.skip(r.len() - part.len()) =~= part);
}

/// Distinct content is stored at distinct paths: two SHA1s of one length never
/// share one.
pub proof fn distinct_sha1_distinct_path(root: Seq<char>, a: Seq<char>, b: Seq<char>)
    requires
        a.len() == b.len(),
        blob_path(root, a) == blob_path(root, b),
    ensures
        a == b,
{
    lemma_below_ends(blob_dir(root, a), a);
    lemma_below_ends(blob_dir(root, b), b);
}

/// The files of a store: what stands at each path.
pub type Files = Map<Seq<char>, Seq<u8>>;

/// Whether `is_file` tells of these files.
pub open spec fn tells<F: Fn(&str) -> bool>(is_file: F, files: Files) -> bool {
    forall|p: &str, there: bool| #[trigger]
        call_ensures(is_file, (p,), there) ==> there == files.contains_key(p@)
}

/// The files once a step to store bytes is taken.
pub open spec fn performed(files: Files, step: PutStep, bytes: Seq<u8>) -> Files {
    match step {
        PutStep::Keep => files,
        PutStep::Write { dir, path } => files.insert(path@, bytes),
    }
}

/// The bytes that are read for a SHA1, if a blob is stored for it.
pub open spec fn read(files: Files, root: Seq<char>, sha1: Seq<char>) -> Option<Seq<u8>> {
    if files.contains_key(blob_path(root, sha1)) {
        Some(files[blob_path(root, sha1)])
    } else {
        None
    }
}

/// Bytes are new exactly where nothing is stored under their SHA1. New bytes are read back
/// under it, and every other path keeps what it held; bytes that are not new change nothing.
pub proof fn put_bytes_are_read_back<F: Fn(&str) -> bool>(
    root: Seq<char>,
    files: Files,
    bytes: Seq<u8>,
    is_file: F,
    is_new: bool,
    step: PutStep,
)
    requires
        tells(is_file, files),
        is_put(root, bytes, is_file, is_new, step),
    ensures
        ({
            let sha1 = crate::identity::hashes_of(bytes).sha1;
            let after = performed(files, step, bytes);
            &&& is_new <==> read(files, root, sha1) is None
            &&& is_new ==> read(after, root, sha1) == Some(bytes) && after == files.insert(
                blob_path(root, sha1),
                bytes,
            )
            &&& !is_new ==> after == files
        }),
{
}

/// Storing is idempotent: bytes that were stored are not new when they are stored again.
/// The second time changes no file, and what was new the first time is still read back.
pub proof fn second_put_is_not_new<F: Fn(&str) -> bool, G: Fn(&str) -> bool>(
    root: Seq<char>,
    files: Files,
    bytes: Seq<u8>,
    is_file: F,
    is_new: bool,
    step: PutStep,
    is_file_now: G,
    is_new_again: bool,
    step_again: PutStep,
)
    requires
        tells(is_file, files),
        is_put(root, bytes, is_file, is_new, step),
        tells(is_file_now, performed(files, step, bytes)),
        is_put(root, bytes, is_file_now, is_new_again, step_again),
    ensures
        ({
            let sha1 = crate::identity::hashes_of(bytes).sha1;
            let once = performed(files, step, bytes);
            let twice = performed(once, step_again, bytes);
            &&& !is_new_again
            &&& twice == once
            &&& read(twice, root, sha1) is Some
            &&& is_new ==> read(twice, root, sha1) == Some(bytes)
        }),
{
    put_bytes_are_read_back(root, files, bytes, is_file, is_new, step);
    put_bytes_are_read_back(
        root,
        performed(files, step, bytes),
        bytes,
        is_file_now,
        is_new_again,
        step_again,
    );
}

/// A SHA1 counts as stored exactly where bytes are read for it.
pub proof fn stored_means_readable<F: Fn(&str) -> bool>(
    root: Seq<char>,
    files: Files,
    sha1: Seq<char>,
    is_file: F,
    stored: bool,
)
    requires
        tells(is_file, files),
        answers(is_file, blob_path(root, sha1), stored),
    ensures
        stored <==> read(files, root, sha1) is Some,
{
}

/// Whether every file of a store stands at the path of what it holds.
pub open spec fn is_addressed(root: Seq<char>, files: Files) -> bool {
    forall|p: Seq<char>| #[trigger] files.contains_key(p) ==> p == path_of(root, files[p])
}

/// A store stays content-addressed, from the empty one on: each file stands at the path of
/// what it holds, whatever is stored.
pub proof fn store_stays_addressed<F: Fn(&str) -> bool>(
    root: Seq<char>,
    files: Files,
    bytes: Seq<u8>,
    is_file: F,
    is_new: bool,
    step: PutStep,
)
    requires
        is_addressed(root, files),
        is_put(root, bytes, is_file, is_new, step),
    ensures
        is_addressed(root, Map::empty()),
        is_addressed(root, performed(files, step, bytes)),
{
}

/// A blob stands two levels below the root: `<root>/ab/cd/<sha1>`.
pub proof fn blob_is_sharded_twice(root: Seq<char>, sha1: Seq<char>)
    requires
        crate::text::all_hex(sha1),
        sha1.len() >= 4,
        root.len() > 0,
        root.last() != '/',
    ensures
        blob_path(root, sha1) == root + seq!['/'] + sha1.subrange(0, 2) + seq!['/']
            + sha1.subrange(2, 4) + seq!['/'] + sha1,
{
    crate::identity::lemma_hex_is_ascii(sha1);
    lemma_ascii_shards(sha1);
    let a = sha1.subrange(0, 2);
    let b = sha1.subrange(2, 4);
    assert(crate::text::is_hex(sha1[0]) && crate::text::is_hex(sha1[1]));
    assert(crate::text::is_hex(sha1[2]) && crate::text::is_hex(sha1[3]));
    let d1 = below(root, a);
    assert(d1.last() == sha1[1]);
    let d2 = below(d1, b);
    assert(d2.last() == sha1[3]);
    assert(blob_path(root, sha1) =~= root + seq!['/'] + a + seq!['/'] + b + seq!['/'] + sha1);
}

/// A part is put below a base with one slash between them; a part that is absolute stands
/// alone, and so does one below nothing.
pub proof fn parts_are_joined_by_one_slash(base: Seq<char>, part: Seq<char>)
    ensures
        part.len() > 0 && part[0] == '/' ==> below(base, part) == part,
        base.len() == 0 ==> below(base, part) == part,
        base.len() > 0 && base.last() != '/' && (part.len() == 0 || part[0] != '/') ==> below(
            base,
            part,
        ) == base + "/"@ + part,
        (part.len() == 0 || part[0] != '/') ==> below(base.push('/'), part) == base + "/"@ + part,
{
    reveal_strlit("/");
    assert("/"@ =~= seq!['/']);
    assert(base.push('/') + part =~= base + "/"@ + part);
}

} // verus!
