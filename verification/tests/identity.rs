//! Hashes, identifiers and the blob store.

use std::cell::RefCell;
use std::collections::{HashMap, HashSet};

use amiga_game_vault::identity::{
    hash_bytes, hashes_from_digests, uid_from_sha1, uid_step, unique_uid, Hashes, UidStep, UID_LEN,
};
use amiga_game_vault::store::{BlobStore, PutStep};

#[test]
fn hashes_are_stable_and_hex() {
    let h = hash_bytes(b"amiga");
    // Deterministic: hashing the same bytes twice yields the same digests.
    assert_eq!(h, hash_bytes(b"amiga"));
    assert_eq!(h.sha1.len(), 40);
    assert_eq!(h.md5.len(), 32);
    assert_eq!(h.crc32.len(), 8);
    assert!(h.sha1.chars().all(|c| c.is_ascii_hexdigit()));
    assert!(h.md5.chars().all(|c| c.is_ascii_hexdigit()));
    assert!(h.crc32.chars().all(|c| c.is_ascii_hexdigit()));
}

#[test]
fn identical_bytes_same_uid() {
    let a = hash_bytes(b"the same disk");
    let b = hash_bytes(b"the same disk");
    assert_eq!(a.uid(), b.uid());
    assert_eq!(a.uid().len(), UID_LEN);
}

#[test]
fn different_bytes_different_hash() {
    let a = hash_bytes(b"disk one");
    let b = hash_bytes(b"disk two");
    assert_ne!(a.sha1, b.sha1);
}

#[test]
fn uid_extends_on_prefix_collision() {
    // Two distinct SHA1s that share the first UID_LEN chars.
    let sha_a = "abcdef0123456789000000000000000000000000";
    let sha_b = "abcdef0123999999999999999999999999999999";
    let mut owners: HashMap<String, String> = HashMap::new();

    let uid_a = unique_uid(sha_a, |u: &str| owners.get(u).map(|s| s.as_str()));
    owners.insert(uid_a.clone(), sha_a.to_string());
    assert_eq!(uid_a, "abcdef0123");

    let uid_b = unique_uid(sha_b, |u: &str| owners.get(u).map(|s| s.as_str()));
    owners.insert(uid_b.clone(), sha_b.to_string());
    // Must extend past the shared 10-char prefix.
    assert!(uid_b.len() > UID_LEN, "expected extension, got {uid_b}");
    assert_ne!(uid_a, uid_b);
}

#[test]
fn uid_stable_for_same_sha() {
    let sha = "abcdef0123456789000000000000000000000000";
    let owners: HashMap<String, String> = [("abcdef0123".to_string(), sha.to_string())]
        .into_iter()
        .collect();
    // Same owner -> not a collision -> keeps the short form.
    let uid = unique_uid(sha, |u: &str| owners.get(u).map(|s| s.as_str()));
    assert_eq!(uid, "abcdef0123");
}

#[test]
fn known_digests() {
    let h = hash_bytes(b"abc");
    assert_eq!(h.sha1, "a9993e364706816aba3e25717850c26c9cd0d89d");
    assert_eq!(h.md5, "900150983cd24fb0d6963f7d28e17f72");
    assert_eq!(h.crc32, "352441c2");
    assert_eq!(h.uid(), "a9993e3647");
    let none = hash_bytes(b"");
    assert_eq!(none.sha1, "da39a3ee5e6b4b0d3255bfef95601890afd80709");
    assert_eq!(none.md5, "d41d8cd98f00b204e9800998ecf8427e");
    assert_eq!(none.crc32, "00000000");
}

#[test]
fn digests_are_written_in_lowercase_hex() {
    let h = hashes_from_digests(&[0x00, 0xab, 0xff], 0x0000_1f0a, &[0x10]);
    assert_eq!(h.sha1, "00abff");
    assert_eq!(h.crc32, "00001f0a");
    assert_eq!(h.md5, "10");
}

#[test]
fn a_uid_is_no_longer_than_the_hash() {
    assert_eq!(uid_from_sha1("abcdef", 4), "abcd");
    assert_eq!(uid_from_sha1("abcdef", 40), "abcdef");
    assert_eq!(
        Hashes {
            sha1: "0123456789abcdef".into(),
            crc32: "c".into(),
            md5: "m".into()
        }
        .uid(),
        "0123456789"
    );
}

#[test]
fn a_uid_extends_one_character_at_a_time() {
    assert_eq!(uid_step("abcdef", 3, None), UidStep::Take);
    assert_eq!(uid_step("abcdef", 3, Some("abcdef")), UidStep::Take);
    assert_eq!(uid_step("abcdef", 3, Some("abcxyz")), UidStep::Extend);
    assert_eq!(uid_step("abcdef", 6, Some("abcxyz")), UidStep::Take);

    let sha = "abcdef0123499999999999999999999999999999";
    let taken: HashSet<&str> = ["abcdef0123", "abcdef01234", "abcdef012349"].into();
    let uid = unique_uid(sha, |u: &str| {
        if taken.contains(u) {
            Some("another")
        } else {
            None
        }
    });
    assert_eq!(uid, "abcdef0123499");
}

/// A store whose files are kept in memory.
struct Files {
    store: BlobStore,
    kept: RefCell<HashMap<String, Vec<u8>>>,
}

impl Files {
    fn open() -> Files {
        Files {
            store: BlobStore {
                root: "/vault/blobs".to_string(),
            },
            kept: RefCell::new(HashMap::new()),
        }
    }

    fn put(&self, bytes: &[u8]) -> (Hashes, bool) {
        let (hashes, is_new, step) = {
            let kept = self.kept.borrow();
            self.store.put(bytes, |p: &str| kept.contains_key(p))
        };
        match step {
            PutStep::Write { dir, path } => {
                assert!(path.starts_with(&dir));
                self.kept.borrow_mut().insert(path, bytes.to_vec());
            }
            PutStep::Keep => {}
        }
        (hashes, is_new)
    }

    fn holds(&self, sha1: &str) -> bool {
        let kept = self.kept.borrow();
        self.store.is_stored(sha1, |p: &str| kept.contains_key(p))
    }

    fn get(&self, sha1: &str) -> Vec<u8> {
        self.kept.borrow()[&self.store.path_for(sha1)].clone()
    }
}

#[test]
fn put_is_idempotent_for_identical_bytes() {
    let store = Files::open();

    let (h1, new1) = store.put(b"the same disk bytes");
    assert!(new1, "first write is new");
    let (h2, new2) = store.put(b"the same disk bytes");
    assert!(!new2, "second identical write is not new");
    assert_eq!(h1, h2);

    assert!(store.holds(&h1.sha1));
    assert_eq!(store.get(&h1.sha1), b"the same disk bytes");
}

#[test]
fn distinct_bytes_distinct_blobs() {
    let store = Files::open();
    let (a, _) = store.put(b"disk one");
    let (b, _) = store.put(b"disk two");
    assert_ne!(a.sha1, b.sha1);
    assert!(store.holds(&a.sha1) && store.holds(&b.sha1));
}

#[test]
fn blobs_are_sharded_by_their_hash() {
    let store = BlobStore {
        root: "/vault/blobs".to_string(),
    };
    assert_eq!(
        store.path_for("a9993e364706816aba3e25717850c26c9cd0d89d"),
        "/vault/blobs/a9/99/a9993e364706816aba3e25717850c26c9cd0d89d"
    );
    let (hashes, is_new, step) = store.put(b"abc", |_: &str| false);
    assert!(is_new);
    assert_eq!(
        step,
        PutStep::Write {
            dir: "/vault/blobs/a9/99".to_string(),
            path: store.path_for(&hashes.sha1),
        }
    );
    let (_, is_new, step) = store.put(b"abc", |_: &str| true);
    assert!(!is_new);
    assert_eq!(step, PutStep::Keep);
}
