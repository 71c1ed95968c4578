//! Content hashing and the content-derived UID.
//!
//! Every stored ADF is identified by the SHA1, CRC32 and MD5 of its bytes. The
//! public, human-facing identity is `uid = sha1[:10]` — portable, self-verifying,
//! and the same key used for exact deduplication.

use md5::Md5;
use sha1::{Digest, Sha1};
use vstd::prelude::*;

use crate::text::{owned, same, string_of};

verus! {

/// The default display length of a UID (hex characters of the SHA1 prefix).
pub const UID_LEN: usize = 10;

// --- Hex --------------------------------------------------------------------

/// The lowercase hex digit of a value below 16.
pub open spec fn hex_char(v: nat) -> char {
    if v < 10 {
        ('0' as nat + v) as char
    } else {
        ('a' as nat + v - 10) as char
    }
}

/// A number in lowercase hex, `width` digits long, leading zeroes kept.
pub open spec fn hex_fixed(n: nat, width: nat) -> Seq<char>
    decreases width,
{
    if width == 0 {
        Seq::empty()
    } else {
        hex_fixed(n / 16, (width - 1) as nat).push(hex_char(n % 16))
    }
}

/// Bytes in lowercase hex, two digits each.
pub open spec fn hex_text(bytes: Seq<u8>) -> Seq<char>
    decreases bytes.len(),
{
    if bytes.len() == 0 {
        Seq::empty()
    } else {
        hex_text(bytes.drop_last()) + hex_fixed(bytes.last() as nat, 2)
    }
}

/// The lowercase hex digit of a value below 16.
fn hex_digit_char(v: u32) -> (c: char)
    requires
        v < 16,
    ensures
        c == hex_char(v as nat),
{
    if v < 10 {
        (48 + v as u8) as char
    } else {
        (87 + v as u8) as char
    }
}

/// A number in lowercase hex, `width` digits long.
fn hex_number(n: u32, width: u32) -> (r: Vec<char>)
    ensures
        r@ == hex_fixed(n as nat, width as nat),
    decreases width,
{
    if width == 0 {
        Vec::new()
    } else {
        let mut r = hex_number(n / 16, width - 1);
        r.push(hex_digit_char(n % 16));
        r
    }
}

/// A fixed-width hex number is as long as it is wide, all hex digits.
pub proof fn lemma_hex_fixed(n: nat, width: nat)
    ensures
        hex_fixed(n, width).len() == width,
        crate::text::all_hex(hex_fixed(n, width)),
    decreases width,
{
    if width > 0 {
        lemma_hex_fixed(n / 16, (width - 1) as nat);
    }
}

/// Hex text is twice as long as its bytes, all hex digits.
pub proof fn lemma_hex_text(bytes: Seq<u8>)
    ensures
        hex_text(bytes).len() == 2 * bytes.len(),
        crate::text::all_hex(hex_text(bytes)),
    decreases bytes.len(),
{
    if bytes.len() > 0 {
        lemma_hex_text(bytes.drop_last());
        lemma_hex_fixed(bytes.last() as nat, 2);
    }
}

/// Calls `hex::encode`: each byte becomes its two lowercase hex digits, the high
/// half first.
#[verifier::external_body]
fn hex_encode(bytes: &[u8]) -> (r: String)
    ensures
        r@ == hex_text(bytes@),
{
    hex::encode(bytes)
}

// --- Digests ----------------------------------------------------------------

/// The SHA1 digest of bytes.
pub uninterp spec fn sha1_of(bytes: Seq<u8>) -> Seq<u8>;

/// Calls `Sha1::new`, `update` and `finalize`: the SHA1 digest of the bytes, which
/// is 20 bytes long.
#[verifier::external_body]
fn sha1_digest(bytes: &[u8]) -> (r: Vec<u8>)
    ensures
        r@ == sha1_of(bytes@),
        r@.len() == 20,
{
    let mut h = Sha1::new();
    h.update(bytes);
    h.finalize().to_vec()
}

/// The MD5 digest of bytes.
pub uninterp spec fn md5_of(bytes: Seq<u8>) -> Seq<u8>;

/// Calls `Md5::new`, `update` and `finalize`: the MD5 digest of the bytes, which is
/// 16 bytes long.
#[verifier::external_body]
fn md5_digest(bytes: &[u8]) -> (r: Vec<u8>)
    ensures
        r@ == md5_of(bytes@),
        r@.len() == 16,
{
    let mut h = Md5::new();
    h.update(bytes);
    h.finalize().to_vec()
}

/// The CRC32 checksum of bytes.
pub uninterp spec fn crc32_of(bytes: Seq<u8>) -> u32;

/// Calls `crc32fast::hash`: the CRC32 checksum of the bytes.
#[verifier::external_body]
fn crc32_checksum(bytes: &[u8]) -> (r: u32)
    ensures
        r == crc32_of(bytes@),
{
    crc32fast::hash(bytes)
}

/// The three content hashes of an artifact, as lowercase hex strings.
#[derive(Debug, Clone, PartialEq, Eq)]
pub struct Hashes {
    pub sha1: String,
    pub crc32: String,
    pub md5: String,
}

/// What a [`Hashes`] holds.
#[verifier::ext_equal]
pub struct HashFields {
    pub sha1: Seq<char>,
    pub crc32: Seq<char>,
    pub md5: Seq<char>,
}

impl View for Hashes {
    type V = HashFields;

    open spec fn view(&self) -> HashFields {
        HashFields { sha1: self.sha1@, crc32: self.crc32@, md5: self.md5@ }
    }
}

impl Default for Hashes {
    fn default() -> (r: Hashes)
        ensures
            r@ == (HashFields { sha1: Seq::empty(), crc32: Seq::empty(), md5: Seq::empty() }),
    {
        Hashes { sha1: String::new(), crc32: String::new(), md5: String::new() }
    }
}

/// The hashes of bytes.
pub open spec fn hashes_of(bytes: Seq<u8>) -> HashFields {
    digest_texts(sha1_of(bytes), crc32_of(bytes), md5_of(bytes))
}

/// The hashes that digests are written as.
pub open spec fn digest_texts(sha1: Seq<u8>, crc32: u32, md5: Seq<u8>) -> HashFields {
    HashFields { sha1: hex_text(sha1), crc32: hex_fixed(crc32 as nat, 8), md5: hex_text(md5) }
}

/// Write digests as lowercase hex.
pub fn hashes_from_digests(sha1: &[u8], crc32: u32, md5: &[u8]) -> (r: Hashes)
    ensures
        r@ == digest_texts(sha1@, crc32, md5@),
        r@.sha1.len() == 2 * sha1@.len(),
        r@.crc32.len() == 8,
        r@.md5.len() == 2 * md5@.len(),
        crate::text::all_hex(r@.sha1),
        crate::text::all_hex(r@.crc32),
        crate::text::all_hex(r@.md5),
{
    proof {
        lemma_hex_text(sha1@);
        lemma_hex_text(md5@);
        lemma_hex_fixed(crc32 as nat, 8);
    }
    Hashes {
        sha1: hex_encode(sha1),
        crc32: string_of(&hex_number(crc32, 8)),
        md5: hex_encode(md5),
    }
}

/// Compute the SHA1, CRC32 and MD5 of `bytes`.
pub fn hash_bytes(bytes: &[u8]) -> (r: Hashes)
    ensures
        r@ == hashes_of(bytes@),
        r@.sha1.len() == 40,
        r@.crc32.len() == 8,
        r@.md5.len() == 32,
        crate::text::all_hex(r@.sha1),
        crate::text::all_hex(r@.crc32),
        crate::text::all_hex(r@.md5),
        is_ascii(r@.sha1),
        forall|len: nat| #[trigger] cuts_cleanly(r@.sha1, len),
{
    let sha1 = sha1_digest(bytes);
    let md5 = md5_digest(bytes);
    let crc32 = crc32_checksum(bytes);
    let r = hashes_from_digests(&sha1, crc32, &md5);
    proof {
        lemma_hex_is_ascii(r@.sha1);
        assert forall|len: nat| #[trigger] cuts_cleanly(r@.sha1, len) by {
            lemma_ascii_prefix(r@.sha1, len);
        }
    }
    r
}

// --- UIDs -------------------------------------------------------------------

/// The length of a text in bytes.
pub open spec fn byte_len(s: Seq<char>) -> nat {
    vstd::utf8::encode_utf8(s).len()
}

/// The length at which a prefix of up to `len` bytes ends.
pub open spec fn cut(s: Seq<char>, len: nat) -> nat {
    if len < byte_len(s) {
        len
    } else {
        byte_len(s)
    }
}

/// The first `len` bytes of a text, or all of it where it is shorter.
pub open spec fn prefix(s: Seq<char>, len: nat) -> Seq<char> {
    vstd::utf8::decode_utf8(vstd::utf8::encode_utf8(s).subrange(0, cut(s, len) as int))
}

/// Whether a character ends at the end of the first `len` bytes.
pub open spec fn cuts_cleanly(s: Seq<char>, len: nat) -> bool {
    vstd::utf8::is_char_boundary(vstd::utf8::encode_utf8(s), cut(s, len) as int)
}

/// Whether a text is ASCII.
pub open spec fn is_ascii(s: Seq<char>) -> bool {
    vstd::utf8::is_ascii_chars(s)
}

/// Hex digits are ASCII.
pub proof fn lemma_hex_is_ascii(s: Seq<char>)
    requires
        crate::text::all_hex(s),
    ensures
        is_ascii(s),
{
}

/// An ASCII text can be cut anywhere, and its prefixes are its first characters.
pub proof fn lemma_ascii_prefix(s: Seq<char>, len: nat)
    requires
        is_ascii(s),
    ensures
        byte_len(s) == s.len(),
        cuts_cleanly(s, len),
        prefix(s, len) == s.take(cut(s, len) as int),
{
    let b = vstd::utf8::encode_utf8(s);
    vstd::utf8::is_ascii_chars_encode_utf8(s);
    vstd::utf8::encode_utf8_valid_utf8(s);
    let n = cut(s, len) as int;
    if n < b.len() {
        vstd::utf8::is_char_boundary_iff_not_is_continuation_byte(b, n);
        let v = b[n];
        assert(v == s[n] as u8);
        assert(v <= 0x7f);
        assert(!vstd::utf8::is_continuation_byte(v)) by (bit_vector)
            requires
                v <= 0x7f,
        ;
    } else {
        vstd::utf8::is_char_boundary_start_end_of_seq(b);
    }
    let p = s.take(n);
    assert(is_ascii(p));
    vstd::utf8::is_ascii_chars_encode_utf8(p);
    assert(vstd::utf8::encode_utf8(p) =~= b.subrange(0, n));
    vstd::utf8::encode_utf8_decode_utf8(p);
}

impl Hashes {
    /// The default display UID: the first [`UID_LEN`] hex chars of the SHA1.
    pub fn uid(&self) -> (r: String)
        requires
            cuts_cleanly(self@.sha1, UID_LEN as nat),
        ensures
            r@ == prefix(self@.sha1, UID_LEN as nat),
            is_ascii(self@.sha1) && self@.sha1.len() >= UID_LEN ==> r@ == self@.sha1.take(
                UID_LEN as int,
            ),
    {
        uid_from_sha1(&self.sha1, UID_LEN)
    }
}

/// Derive a UID of `len` hex chars from a full SHA1 hex string.
pub fn uid_from_sha1(sha1: &str, len: usize) -> (r: String)
    requires
        cuts_cleanly(sha1@, len as nat),
    ensures
        r@ == prefix(sha1@, len as nat),
        is_ascii(sha1@) ==> r@ == sha1@.take(
            if len < sha1@.len() {
                len as int
            } else {
                sha1@.len() as int
            },
        ),
{
    let all = sha1.as_bytes().len();
    let n = if len < all {
        len
    } else {
        all
    };
    let (head, tail) = sha1.split_at(n);
    proof {
        vstd::utf8::encode_utf8_decode_utf8(head@);
        assert(vstd::utf8::encode_utf8(head@) =~= vstd::utf8::encode_utf8(sha1@).subrange(
            0,
            n as int,
        ));
        if is_ascii(sha1@) {
            lemma_ascii_prefix(sha1@, len as nat);
        }
    }
    owned(head)
}

/// What to do with a UID candidate.
#[derive(Debug, Clone, PartialEq, Eq)]
pub enum UidStep {
    /// The candidate is free, or is this SHA1's already: use it.
    Take,
    /// Another SHA1 owns the candidate: try the next longer one.
    Extend,
}

/// Whether an owner of a UID is another SHA1 than `sha1`.
pub open spec fn collides(sha1: Seq<char>, owner: Option<Seq<char>>) -> bool {
    owner is Some && owner->0 != sha1
}

/// Decide on the UID candidate of `len` hex chars, given the SHA1 that owns it, if
/// any. A full SHA1 is used as it is.
pub fn uid_step(sha1: &str, len: usize, owner: Option<&str>) -> (r: UidStep)
    ensures
        r is Extend <==> collides(sha1@, crate::text::opt_str_view(owner)) && len < byte_len(sha1@),
{
    match owner {
        Some(o) => {
            if !same(o, sha1) && len < sha1.as_bytes().len() {
                UidStep::Extend
            } else {
                UidStep::Take
            }
        },
        None => UidStep::Take,
    }
}

/// Whether `owner_of` gives, for a UID, an owner that collides with `sha1`.
pub open spec fn may_collide<'a, F: Fn(&str) -> Option<&'a str>>(
    owner_of: F,
    sha1: Seq<char>,
    uid: Seq<char>,
) -> bool {
    exists|u: &str, o: Option<&'a str>|
        u@ == uid && #[trigger] call_ensures(owner_of, (u,), o) && collides(
            sha1,
            crate::text::opt_str_view(o),
        )
}

/// Whether `owner_of` gives, for a UID, no owner or `sha1` itself.
pub open spec fn may_be_free<'a, F: Fn(&str) -> Option<&'a str>>(
    owner_of: F,
    sha1: Seq<char>,
    uid: Seq<char>,
) -> bool {
    exists|u: &str, o: Option<&'a str>|
        u@ == uid && #[trigger] call_ensures(owner_of, (u,), o) && !collides(
            sha1,
            crate::text::opt_str_view(o),
        )
}

/// Whether the prefix of `len` bytes is the UID to use: the shortest, from
/// [`UID_LEN`] on, that no other SHA1 owns, or the full SHA1.
pub open spec fn is_unique_uid<'a, F: Fn(&str) -> Option<&'a str>>(
    owner_of: F,
    sha1: Seq<char>,
    len: nat,
) -> bool {
    &&& UID_LEN <= len
    &&& forall|k: nat|
        UID_LEN <= k < len ==> k < byte_len(sha1) && may_collide(
            owner_of,
            sha1,
            #[trigger] prefix(sha1, k),
        )
    &&& may_be_free(owner_of, sha1, prefix(sha1, len)) || (len >= byte_len(sha1) && may_collide(
        owner_of,
        sha1,
        prefix(sha1, len),
    ))
}

/// Resolve a unique UID for `sha1` given the prefixes already in use.
///
/// Starts at [`UID_LEN`] and extends the prefix one hex char at a time until it
/// no longer collides with a *different* SHA1. `owner_of` maps an in-use UID to
/// the full SHA1 that owns it; a UID already owned by `sha1` is not a collision.
pub fn unique_uid<'a, F: Fn(&str) -> Option<&'a str>>(sha1: &str, owner_of: F) -> (r: String)
    requires
        forall|u: &str| #[trigger] call_requires(owner_of, (u,)),
        forall|len: nat| UID_LEN <= len ==> #[trigger] cuts_cleanly(sha1@, len),
    ensures
        exists|len: nat| #[trigger]
            is_unique_uid(owner_of, sha1@, len) && r@ == prefix(sha1@, len),
{
    let mut len = UID_LEN;
    let ghost total = byte_len(sha1@);
    loop
        invariant
            UID_LEN <= len,
            total == byte_len(sha1@),
            len == UID_LEN || len <= total,
            forall|u: &str| #[trigger] call_requires(owner_of, (u,)),
            forall|k: nat| UID_LEN <= k ==> #[trigger] cuts_cleanly(sha1@, k),
            forall|k: nat|
                UID_LEN <= k < len ==> k < byte_len(sha1@) && may_collide(
                    owner_of,
                    sha1@,
                    #[trigger] prefix(sha1@, k),
                ),
        decreases total + UID_LEN - len,
    {
        assert(cuts_cleanly(sha1@, len as nat));
        let candidate = uid_from_sha1(sha1, len);
        let owner = owner_of(&candidate);
        match uid_step(sha1, len, owner) {
            UidStep::Extend => {
                assert(may_collide(owner_of, sha1@, prefix(sha1@, len as nat)));
                let size = sha1.as_bytes().len();
                len += 1;
            },
            UidStep::Take => {
                proof {
                    if collides(sha1@, crate::text::opt_str_view(owner)) {
                        assert(may_collide(owner_of, sha1@, prefix(sha1@, len as nat)));
                    } else {
                        assert(may_be_free(owner_of, sha1@, prefix(sha1@, len as nat)));
                    }
                    assert(is_unique_uid(owner_of, sha1@, len as nat));
                }
                return candidate;
            },
        }
    }
}

// --- Laws -------------------------------------------------------------------

/// A UID that is free, or is this SHA1's already, keeps the short form.
pub proof fn free_uid_keeps_short_form<'a, F: Fn(&str) -> Option<&'a str>>(
    owner_of: F,
    sha1: Seq<char>,
    len: nat,
)
    requires
        is_unique_uid(owner_of, sha1, len),
        !may_collide(owner_of, sha1, prefix(sha1, UID_LEN as nat)),
    ensures
        len == UID_LEN,
{
    if len > UID_LEN {
        assert(may_collide(owner_of, sha1, prefix(sha1, UID_LEN as nat)));
    }
}

/// A UID short of the full SHA1 that another SHA1 owns is never used.
pub proof fn owned_uid_is_never_taken<'a, F: Fn(&str) -> Option<&'a str>>(
    owner_of: F,
    sha1: Seq<char>,
    len: nat,
)
    requires
        is_unique_uid(owner_of, sha1, len),
        len < byte_len(sha1),
    ensures
        may_be_free(owner_of, sha1, prefix(sha1, len)),
{
}

/// The UID of an ASCII SHA1 is its beginning.
pub proof fn uid_begins_sha1(sha1: Seq<char>, len: nat)
    requires
        is_ascii(sha1),
    ensures
        crate::text::starts_with(sha1, prefix(sha1, len)),
        prefix(sha1, len).len() == if len < sha1.len() {
            len
        } else {
            sha1.len()
        },
{
    lemma_ascii_prefix(sha1, len);
    assert(sha1.take(cut(sha1, len) as int) =~= sha1.subrange(0, cut(sha1, len) as int));
}

/// The number that hex digits denote, most significant first.
pub open spec fn hex_value(s: Seq<char>) -> nat
    decreases s.len(),
{
    if s.len() == 0 {
        0
    } else {
        let c = s.last() as nat;
        let d = if c < 0x61 {
            c - 0x30
        } else {
            c - 0x61 + 10
        };
        (hex_value(s.drop_last()) * 16 + d) as nat
    }
}

/// 16 to a power.
pub open spec fn hex_range(width: nat) -> nat
    decreases width,
{
    if width == 0 {
        1
    } else {
        16 * hex_range((width - 1) as nat)
    }
}

/// Hex digits are in small letters and read back as the number that they were made of, where
/// that fits their width.
pub proof fn hex_digits_read_back(n: nat, width: nat)
    ensures
        n < hex_range(width) ==> hex_value(hex_fixed(n, width)) == n,
        hex_fixed(n, width).len() == width,
        forall|i: int|
            0 <= i < width ==> 0x30 <= (#[trigger] hex_fixed(n, width)[i]) as int <= 0x39 || 0x61
                <= hex_fixed(n, width)[i] as int <= 0x66,
    decreases width,
{
    if width > 0 {
        let m = (width - 1) as nat;
        let s = hex_fixed(n, width);
        hex_digits_read_back(n / 16, m);
        assert(s.drop_last() =~= hex_fixed(n / 16, m));
        assert(s.last() == hex_char(n % 16));
        if n < hex_range(width) {
            assert(n / 16 < hex_range(m));
        }
        assert forall|i: int| 0 <= i < width implies 0x30 <= (#[trigger] s[i]) as int <= 0x39 || 0x61
            <= s[i] as int <= 0x66 by {
            if i < m {
                assert(s[i] == hex_fixed(n / 16, m)[i]);
            }
        }
    }
}

/// Bytes are written one after the other, two hex digits each, so that texts of different
/// bytes differ.
pub proof fn bytes_are_written_in_order(a: Seq<u8>, b: Seq<u8>, x: u8)
    ensures
        hex_text(a + b) == hex_text(a) + hex_text(b),
        hex_text(seq![x]) == hex_fixed(x as nat, 2),
        hex_value(hex_text(seq![x])) == x,
        hex_text(Seq::empty()).len() == 0,
    decreases b.len(),
{
    assert(seq![x].drop_last() =~= Seq::<u8>::empty());
    reveal_with_fuel(hex_text, 2);
    assert(hex_text(seq![x]) =~= hex_fixed(x as nat, 2));
    reveal_with_fuel(hex_range, 3);
    hex_digits_read_back(x as nat, 2);
    if b.len() == 0 {
        assert(a + b =~= a);
        assert(hex_text(a) + hex_text(b) =~= hex_text(a));
    } else {
        bytes_are_written_in_order(a, b.drop_last(), x);
        assert((a + b).drop_last() =~= a + b.drop_last());
        assert((a + b).last() == b.last());
        assert(hex_text(a + b) =~= hex_text(a) + hex_text(b));
    }
}

/// Bytes with the same hex text are the same bytes.
pub proof fn hex_text_is_faithful(a: Seq<u8>, b: Seq<u8>)
    requires
        hex_text(a) == hex_text(b),
    ensures
        a == b,
    decreases a.len(),
{
    lemma_hex_text(a);
    lemma_hex_text(b);
    if a.len() > 0 {
        let p = hex_text(a.drop_last());
        let q = hex_text(b.drop_last());
        lemma_hex_text(a.drop_last());
        lemma_hex_text(b.drop_last());
        let x = hex_fixed(a.last() as nat, 2);
        let y = hex_fixed(b.last() as nat, 2);
        reveal_with_fuel(hex_range, 3);
        hex_digits_read_back(a.last() as nat, 2);
        hex_digits_read_back(b.last() as nat, 2);
        assert(p =~= hex_text(a).take(p.len() as int));
        assert(q =~= hex_text(b).take(q.len() as int));
        assert(x =~= hex_text(a).skip(p.len() as int));
        assert(y =~= hex_text(b).skip(q.len() as int));
        hex_text_is_faithful(a.drop_last(), b.drop_last());
        assert(a =~= a.drop_last().push(a.last()));
        assert(b =~= b.drop_last().push(b.last()));
    } else {
        assert(a =~= b);
    }
}

/// Each hash is the text of its own digest: the CRC-32 in eight digits, the others two digits
/// to a byte.
pub proof fn hashes_are_of_their_digests(bytes: Seq<u8>)
    ensures
        hashes_of(bytes).sha1 == hex_text(sha1_of(bytes)),
        hashes_of(bytes).md5 == hex_text(md5_of(bytes)),
        hashes_of(bytes).crc32 == hex_fixed(crc32_of(bytes) as nat, 8),
        hex_value(hashes_of(bytes).crc32) == crc32_of(bytes),
{
    reveal_with_fuel(hex_range, 9);
    hex_digits_read_back(crc32_of(bytes) as nat, 8);
}

/// The short form of a UID is the first ten characters of the SHA-1.
pub proof fn short_uid_is_ten_characters(sha1: Seq<char>)
    requires
        is_ascii(sha1),
        sha1.len() >= 10,
    ensures
        prefix(sha1, UID_LEN as nat) == sha1.take(10),
{
    lemma_ascii_prefix(sha1, UID_LEN as nat);
}

/// A UID collides exactly where the bytes that own it have another SHA-1: not where it is free,
/// nor where the same bytes own it.
pub proof fn only_other_bytes_collide(sha1: Seq<char>, other: Seq<char>)
    ensures
        !collides(sha1, None),
        !collides(sha1, Some(sha1)),
        other != sha1 ==> collides(sha1, Some(other)),
{
}

/// Against a table of owners: every form of a UID shorter than the one taken is owned by other
/// bytes, and the one taken is not, unless it is the SHA-1 as a whole.
pub proof fn uid_is_the_shortest_free<'a, F: Fn(&str) -> Option<&'a str>>(
    owner_of: F,
    table: spec_fn(Seq<char>) -> Option<Seq<char>>,
    sha1: Seq<char>,
    len: nat,
    k: nat,
)
    requires
        is_unique_uid(owner_of, sha1, len),
        forall|u: &str, o: Option<&'a str>| #[trigger]
            call_ensures(owner_of, (u,), o) ==> crate::text::opt_str_view(o) == table(u@),
    ensures
        len >= 10,
        10 <= k < len ==> table(prefix(sha1, k)) is Some && table(prefix(sha1, k)) != Some(sha1),
        len < byte_len(sha1) ==> table(prefix(sha1, len)) is None || table(prefix(sha1, len))
            == Some(sha1),
{
    assert(prefix(sha1, k) == prefix(sha1, k));
}

} // verus!
