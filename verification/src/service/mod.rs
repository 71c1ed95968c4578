//! The Vault's decisions: what ties together the blob store, database, ingest
//! pipeline, identification engines, deduplication and normalization.
//!
//! Ingest flow per decoded ADF: store bytes (exact-dedup for free) -> identify
//! (hash->DAT, else filename parse, else quarantine) -> group into an Edition ->
//! recompute the non-destructive primary.
//!
//! - [`primaries`]: which artifact is each Edition's primary.
//! - [`sets`]: the lineages of a release, and its export.
//! - [`listing`]: releases rolled up from their disks.
//! - [`works`]: releases grouped by title.
//! - [`playable`]: the variations of a game that can be downloaded.
//! - [`reidentify`]: re-grouping artifacts from their retained names.

pub mod listing;
pub mod playable;
pub mod primaries;
pub mod reidentify;
pub mod sets;
pub mod works;

use vstd::prelude::*;

use crate::dat::DatEntry;
use crate::db::{unique_uid_for, NewArtifact};
use crate::edition::{
    edition_key, infer_category, interpret_flags, Category, DumpInfo, EditionKey,
};
use crate::error::Error;
use crate::identity::Hashes;
use crate::ingest::{detect_container, DecodedAdf, DiskImage, Tools};
use crate::naming::{parse_tosec, TosecName};
use crate::text::{as_str_opt, clone_opt, owned, trim_string};

verus! {

// --- Identification ---------------------------------------------------------

/// A resolved identity: parsed name, interpreted dump info, the authoritative
/// canonical name to retain, and the inferred category.
#[derive(Debug, Clone)]
pub struct Identity {
    pub parsed: TosecName,
    pub info: DumpInfo,
    pub canonical_name: String,
    pub category: Category,
}

/// What an [`Identity`] holds.
#[verifier::ext_equal]
pub struct IdentityFields {
    pub parsed: crate::naming::TosecFields,
    pub info: crate::edition::DumpFields,
    pub canonical_name: Seq<char>,
    pub category: Category,
}

impl View for Identity {
    type V = IdentityFields;

    open spec fn view(&self) -> IdentityFields {
        IdentityFields {
            parsed: self.parsed@,
            info: self.info@,
            canonical_name: self.canonical_name@,
            category: self.category,
        }
    }
}

/// The minimal name of a DAT entry.
pub open spec fn name_of_entry(e: crate::dat::DatFields) -> crate::naming::TosecFields {
    crate::naming::TosecFields {
        title: match e.title {
            Some(t) => t,
            None => e.name,
        },
        version: e.version,
        language: e.language,
        publisher: e.publisher,
        qualifier: None,
        year: e.year,
        disk_no: e.disk_no,
        disk_count: e.disk_count,
        flags: Seq::empty(),
    }
}

/// Build a minimal [`TosecName`] from a DAT entry when its name failed to parse.
pub fn dat_to_name(entry: &DatEntry) -> (r: TosecName)
    ensures
        r@ == name_of_entry(entry@),
{
    let title = match &entry.title {
        Some(t) => owned(t),
        None => owned(&entry.name),
    };
    let flags: Vec<String> = Vec::new();
    assert(crate::text::views(flags@) =~= Seq::empty());
    TosecName {
        title,
        version: clone_opt(&entry.version),
        language: clone_opt(&entry.language),
        publisher: clone_opt(&entry.publisher),
        qualifier: None,
        year: entry.year,
        disk_no: entry.disk_no,
        disk_count: entry.disk_count,
        flags,
    }
}

/// The identity that a parsed name gives, with the name to retain and the DAT
/// source, if any.
pub open spec fn identity_from(
    parsed: crate::naming::TosecFields,
    name: Seq<char>,
    source: Option<Seq<char>>,
) -> IdentityFields {
    IdentityFields {
        parsed,
        info: crate::edition::dump_of(parsed.flags),
        canonical_name: name,
        category: crate::edition::category_of(parsed.qualifier, source),
    }
}

/// The identity of an upload: by the DAT entry that its hashes match, else by its
/// filename.
pub open spec fn identity_of(name: Seq<char>, entry: Option<crate::dat::DatFields>) -> Option<
    IdentityFields,
> {
    match entry {
        Some(e) => Some(
            identity_from(
                match crate::naming::tosec(e.name) {
                    Some(n) => n,
                    None => name_of_entry(e),
                },
                e.name,
                Some(e.source),
            ),
        ),
        None => match crate::naming::tosec(name) {
            Some(n) => Some(identity_from(n, name, None)),
            None => None,
        },
    }
}

/// What an optional identity holds.
pub open spec fn identity_view(i: Option<Identity>) -> Option<IdentityFields> {
    match i {
        Some(x) => Some(x@),
        None => None,
    }
}

/// What an optional DAT entry holds.
pub open spec fn entry_view(e: Option<DatEntry>) -> Option<crate::dat::DatFields> {
    match e {
        Some(x) => Some(x@),
        None => None,
    }
}

/// Resolve identity: prefer a verified hash match, else a filename parse.
/// Returns the parsed name, interpreted dump info, and the authoritative
/// canonical name to retain, and whether it is verified.
pub fn identify(name: &str, entry: &Option<DatEntry>) -> (r: (Option<Identity>, bool))
    ensures
        identity_view(r.0) == identity_of(name@, entry_view(*entry)),
        r.1 == (entry is Some),
{
    match entry {
        Some(e) => {
            // Authoritative: build identity from the DAT's canonical name.
            let parsed = match parse_tosec(&e.name) {
                Some(n) => n,
                None => dat_to_name(e),
            };
            let info = interpret_flags(&parsed.flags);
            let category = infer_category(as_str_opt(&parsed.qualifier), Some(&e.source));
            (Some(Identity { parsed, info, canonical_name: owned(&e.name), category }), true)
        },
        None => match parse_tosec(name) {
            Some(parsed) => {
                let info = interpret_flags(&parsed.flags);
                let category = infer_category(as_str_opt(&parsed.qualifier), None);
                (Some(Identity { parsed, info, canonical_name: owned(name), category }), false)
            },
            None => (None, false),
        },
    }
}

/// A record with dump info on it.
pub open spec fn with_dump(
    rec: crate::db::NewFields,
    info: crate::edition::DumpFields,
) -> crate::db::NewFields {
    crate::db::NewFields {
        dump_type: Some(crate::edition::dump_label(info.dump_type)),
        crack_group: info.crack_group,
        trainer: info.trainer,
        bad: info.bad,
        virus: info.virus,
        over: info.over,
        under: info.under,
        alt_index: info.alt_index,
        modifications: info.modifications,
        verified_good: info.verified_good,
        lineage: info.lineage,
        ..rec
    }
}

/// Copy interpreted dump info onto a new artifact record.
pub fn apply_dump_info(rec: &mut NewArtifact, info: &DumpInfo)
    ensures
        final(rec)@ == with_dump(old(rec)@, info@),
{
    rec.dump_type = Some(owned(info.dump_type.as_str()));
    rec.crack_group = clone_opt(&info.crack_group);
    rec.trainer = clone_opt(&info.trainer);
    rec.bad = info.bad;
    rec.virus = info.virus;
    rec.over = info.over;
    rec.under = info.under;
    rec.alt_index = info.alt_index;
    rec.modifications = info.modifications;
    rec.verified_good = info.verified_good;
    rec.lineage = clone_opt(&info.lineage);
}

// --- Ingest -----------------------------------------------------------------

/// The outcome of ingesting one decoded ADF.
#[derive(Debug, Clone, PartialEq, Eq)]
pub enum IngestOutcome {
    /// A newly stored artifact.
    Stored { uid: String, verified: bool, quarantined: bool },
    /// Byte-identical to an existing artifact; nothing new stored.
    Duplicate { uid: String },
}

/// What to do with one decoded ADF whose bytes are stored.
#[derive(Debug, Clone)]
pub enum IngestPlan {
    /// Nothing: these bytes are an artifact already.
    Duplicate { uid: String },
    /// Make sure that the Edition exists, insert the record under it, and recompute
    /// the primaries of its set.
    Identified { record: NewArtifact, category: Category, key: EditionKey },
    /// Insert the record bare, and quarantine it.
    Unidentified { record: NewArtifact, reason: String },
}

/// Why an upload is quarantined.
pub open spec fn quarantine_reason() -> Seq<char> {
    "no DAT match and unparseable filename"@
}

/// The record of an upload before it is identified.
pub open spec fn bare_record(
    name: Seq<char>,
    hashes: crate::identity::HashFields,
    container: Seq<char>,
    uid: Seq<char>,
    verified: bool,
) -> crate::db::NewFields {
    crate::db::NewFields {
        uid,
        hashes,
        container,
        blob_sha1: hashes.sha1,
        orig_filename: Some(name),
        verified,
        ..crate::db::blank_artifact()
    }
}

/// The record of an upload under its identity.
pub open spec fn identified_record(
    bare: crate::db::NewFields,
    id: IdentityFields,
) -> crate::db::NewFields {
    with_dump(
        crate::db::NewFields {
            display_title: Some(id.parsed.title),
            year: id.parsed.year,
            tosec_name: Some(id.canonical_name),
            ..bare
        },
        id.info,
    )
}

/// Whether this is what to do with an upload that is no duplicate.
pub open spec fn is_plan(
    name: Seq<char>,
    hashes: crate::identity::HashFields,
    container: Seq<char>,
    uid: Seq<char>,
    entry: Option<crate::dat::DatFields>,
    plan: IngestPlan,
) -> bool {
    let bare = bare_record(name, hashes, container, uid, entry is Some);
    match identity_of(name, entry) {
        Some(id) => plan matches IngestPlan::Identified { record, category, key } && record@
            == identified_record(bare, id) && category == id.category && key@
            == crate::edition::key_of(id.parsed),
        None => plan matches IngestPlan::Unidentified { record, reason } && record@ == bare
            && reason@ == quarantine_reason(),
    }
}

/// Plan what to do with an upload that is no duplicate, given its UID and the DAT
/// entry that its hashes match, if any.
pub fn plan_artifact(
    name: &str,
    hashes: &Hashes,
    container: &str,
    uid: &str,
    entry: &Option<DatEntry>,
) -> (plan: IngestPlan)
    ensures
        is_plan(name@, hashes@, container@, uid@, entry_view(*entry), plan),
{
    // Identify: hash->DAT (verified) wins over filename parse (unverified).
    let (identity, verified) = identify(name, entry);
    let mut rec = NewArtifact::default();
    rec.uid = owned(uid);
    rec.hashes = Hashes {
        sha1: owned(&hashes.sha1),
        crc32: owned(&hashes.crc32),
        md5: owned(&hashes.md5),
    };
    rec.container = owned(container);
    rec.blob_sha1 = owned(&hashes.sha1);
    rec.orig_filename = Some(owned(name));
    rec.verified = verified;
    assert(rec@ =~= bare_record(name@, hashes@, container@, uid@, entry is Some));
    match identity {
        Some(id) => {
            rec.display_title = Some(owned(&id.parsed.title));
            rec.year = id.parsed.year;
            // Retain the authoritative canonical name: the DAT entry name when
            // hash-verified, else the (parseable) upload filename.
            rec.tosec_name = Some(id.canonical_name);
            apply_dump_info(&mut rec, &id.info);
            let key = edition_key(&id.parsed);
            IngestPlan::Identified { record: rec, category: id.category, key }
        },
        None => IngestPlan::Unidentified {
            record: rec,
            reason: owned("no DAT match and unparseable filename"),
        },
    }
}

/// Whether a lookup by text may give this.
pub open spec fn may_find<F: Fn(&str) -> Result<Option<String>, Error>>(
    lookup: F,
    key: Seq<char>,
    found: Result<Option<String>, Error>,
) -> bool {
    exists|k: &str| k@ == key && #[trigger] call_ensures(lookup, (k,), found)
}

/// Whether a lookup by hashes may give this.
pub open spec fn may_match<F: Fn(&Hashes) -> Result<Option<DatEntry>, Error>>(
    lookup: F,
    hashes: Hashes,
    found: Result<Option<DatEntry>, Error>,
) -> bool {
    call_ensures(lookup, (&hashes,), found)
}

/// Whether this is what an upload comes to once its UID is known: the plan that the
/// DAT lookup gives, or the error that it ended in.
pub open spec fn is_matched<D: Fn(&Hashes) -> Result<Option<DatEntry>, Error>>(
    name: Seq<char>,
    hashes: Hashes,
    container: Seq<char>,
    uid: Seq<char>,
    match_dat: D,
    r: Result<IngestPlan, Error>,
) -> bool {
    exists|found: Result<Option<DatEntry>, Error>| #[trigger]
        may_match(match_dat, hashes, found) && match found {
            Err(e) => r == Err::<IngestPlan, Error>(e),
            Ok(entry) => r is Ok && is_plan(
                name,
                hashes@,
                container,
                uid,
                entry_view(entry),
                r->Ok_0,
            ),
        }
}

/// Whether this is what an upload that is no duplicate comes to.
pub open spec fn is_new<
    O: Fn(&str) -> Result<Option<String>, Error>,
    D: Fn(&Hashes) -> Result<Option<DatEntry>, Error>,
>(
    name: Seq<char>,
    hashes: Hashes,
    container: Seq<char>,
    owner_of: O,
    match_dat: D,
    r: Result<IngestPlan, Error>,
) -> bool {
    exists|len: nat, uid: Result<String, Error>| #[trigger]
        crate::db::is_uid_found(owner_of, hashes@.sha1, len, uid) && match uid {
            Err(e) => r == Err::<IngestPlan, Error>(e),
            Ok(u) => is_matched(name, hashes, container, u@, match_dat, r),
        }
}

/// Whether this is what an upload comes to: a duplicate where its SHA1 is an
/// artifact's, else what a new one comes to.
pub open spec fn is_ingested<
    B: Fn(&str) -> Result<Option<String>, Error>,
    O: Fn(&str) -> Result<Option<String>, Error>,
    D: Fn(&Hashes) -> Result<Option<DatEntry>, Error>,
>(
    name: Seq<char>,
    hashes: Hashes,
    container: Seq<char>,
    uid_by_sha1: B,
    owner_of: O,
    match_dat: D,
    r: Result<IngestPlan, Error>,
) -> bool {
    exists|found: Result<Option<String>, Error>| #[trigger]
        may_find(uid_by_sha1, hashes@.sha1, found) && match found {
            Err(e) => r == Err::<IngestPlan, Error>(e),
            Ok(Some(uid)) => r == Ok::<IngestPlan, Error>(IngestPlan::Duplicate { uid }),
            Ok(None) => is_new(name, hashes, container, owner_of, match_dat, r),
        }
}

/// Plan what to do with one decoded ADF whose bytes are stored under `hashes`.
///
/// `uid_by_sha1` looks up the artifact with a SHA1, `owner_of` the SHA1 of the
/// artifact with a UID, and `match_dat` the DAT entry that hashes match.
pub fn ingest_one<
    B: Fn(&str) -> Result<Option<String>, Error>,
    O: Fn(&str) -> Result<Option<String>, Error>,
    D: Fn(&Hashes) -> Result<Option<DatEntry>, Error>,
>(
    name: &str,
    hashes: &Hashes,
    container: &str,
    uid_by_sha1: B,
    owner_of: O,
    match_dat: D,
) -> (r: Result<IngestPlan, Error>)
    requires
        forall|k: &str| #[trigger] call_requires(uid_by_sha1, (k,)),
        forall|u: &str| #[trigger] call_requires(owner_of, (u,)),
        call_requires(match_dat, (hashes,)),
        forall|len: nat|
            crate::identity::UID_LEN <= len ==> #[trigger] crate::identity::cuts_cleanly(
                hashes@.sha1,
                len,
            ),
    ensures
        is_ingested(name@, *hashes, container@, uid_by_sha1, owner_of, match_dat, r),
{
    // Exact duplicate: identical bytes already stored.
    let found = uid_by_sha1(&hashes.sha1);
    assert(may_find(uid_by_sha1, hashes@.sha1, found));
    match found {
        Err(e) => Err(e),
        Ok(Some(uid)) => Ok(IngestPlan::Duplicate { uid }),
        Ok(None) => {
            let uid = unique_uid_for(&hashes.sha1, owner_of);
            match uid {
                Err(e) => Err(e),
                Ok(u) => {
                    let entry = match_dat(hashes);
                    assert(may_match(match_dat, *hashes, entry));
                    let r = match entry {
                        Err(e) => Err(e),
                        Ok(entry) => Ok(plan_artifact(name, hashes, container, &u, &entry)),
                    };
                    assert(is_matched(name@, *hashes, container@, u@, match_dat, r));
                    assert(is_new(name@, *hashes, container@, owner_of, match_dat, r));
                    r
                },
            }
        },
    }
}

/// Whether this is the outcome of carrying out a plan.
pub open spec fn is_outcome(plan: IngestPlan, r: IngestOutcome) -> bool {
    match plan {
        IngestPlan::Duplicate { uid } => r matches IngestOutcome::Duplicate { uid: u } && u@ == uid@,
        IngestPlan::Identified { record, .. } => r matches IngestOutcome::Stored {
            uid,
            verified,
            quarantined,
        } && uid@ == record@.uid && verified == record.verified && !quarantined,
        IngestPlan::Unidentified { record, .. } => r matches IngestOutcome::Stored {
            uid,
            verified,
            quarantined,
        } && uid@ == record@.uid && !verified && quarantined,
    }
}

impl IngestPlan {
    /// The outcome of carrying out this plan.
    pub fn outcome(&self) -> (r: IngestOutcome)
        ensures
            is_outcome(*self, r),
    {
        match self {
            IngestPlan::Duplicate { uid } => IngestOutcome::Duplicate { uid: owned(uid) },
            IngestPlan::Identified { record, category, key } => IngestOutcome::Stored {
                uid: owned(&record.uid),
                verified: record.verified,
                quarantined: false,
            },
            IngestPlan::Unidentified { record, reason } => IngestOutcome::Stored {
                uid: owned(&record.uid),
                verified: false,
                quarantined: true,
            },
        }
    }
}

/// Decode an upload into the ADFs to ingest, one outcome to come of each.
pub fn decode_upload(filename: &str, bytes: &[u8], tools: &Tools) -> (r: Result<
    Vec<DecodedAdf>,
    Error,
>)
    ensures
        match crate::ingest::container_of(filename@, bytes@) {
            Some(c) => crate::ingest::adfs_or_fault(r) == crate::ingest::decoded(
                c,
                bytes@,
                filename@,
                tools.xdms,
            ),
            None => r matches Err(e) && e@ == crate::ingest::unknown_type(
                crate::ingest::debug_of(crate::ingest::extension(filename@)),
                bytes@.len(),
            ),
        },
{
    match detect_container(filename, bytes) {
        Err(e) => Err(e),
        Ok(c) => tools.decode(c, bytes, filename),
    }
}

// --- Quarantine -------------------------------------------------------------

/// Metadata supplied when a user resolves a quarantined artifact.
#[derive(Debug, Clone)]
pub struct ResolveMeta {
    pub title: String,
    pub category: String,
    pub version: Option<String>,
    pub language: Option<String>,
    pub publisher: Option<String>,
    pub disk_no: Option<u32>,
    pub disk_count: Option<u32>,
}

impl Default for ResolveMeta {
    fn default() -> (r: ResolveMeta)
        ensures
            r.title@ == Seq::<char>::empty(),
            r.category@ == Seq::<char>::empty(),
            r.version is None,
            r.language is None,
            r.publisher is None,
            r.disk_no is None,
            r.disk_count is None,
    {
        ResolveMeta {
            title: String::new(),
            category: String::new(),
            version: None,
            language: None,
            publisher: None,
            disk_no: None,
            disk_count: None,
        }
    }
}

/// How a quarantined artifact is resolved: its Edition, and its title as given.
#[derive(Debug, Clone)]
pub struct Resolution {
    pub category: String,
    pub key: EditionKey,
    pub display_title: String,
}

/// Resolve a quarantined artifact by assigning identity metadata.
pub fn resolve_quarantine(meta: &ResolveMeta) -> (r: Resolution)
    ensures
        r.category@ == (if meta.category@.len() == 0 {
            "game"@
        } else {
            meta.category@
        }),
        r.key@ == (crate::edition::KeyFields {
            title: crate::text::trim(meta.title@),
            version: crate::text::opt_view(meta.version),
            language: crate::text::opt_view(meta.language),
            publisher: crate::text::opt_view(meta.publisher),
            qualifier: None,
            disk_no: meta.disk_no,
            disk_count: meta.disk_count,
        }),
        r.display_title@ == meta.title@,
{
    let key = EditionKey {
        title: trim_string(&meta.title),
        version: clone_opt(&meta.version),
        language: clone_opt(&meta.language),
        publisher: clone_opt(&meta.publisher),
        qualifier: None,
        disk_no: meta.disk_no,
        disk_count: meta.disk_count,
    };
    let category = if meta.category.as_str().is_empty() {
        owned("game")
    } else {
        owned(&meta.category)
    };
    Resolution { category, key, display_title: owned(&meta.title) }
}

// --- Laws -------------------------------------------------------------------

/// What is stored of a dump reads back as it was: the columns of a record with dump
/// info on it give that info.
pub proof fn stored_dump_reads_back(
    rec: crate::db::NewFields,
    info: crate::edition::DumpFields,
)
    ensures
        crate::db::dump_from(crate::db::dump_columns_of(with_dump(rec, info))) == info,
{
    crate::edition::dump_label_round_trip(info.dump_type);
}

/// The UID of the artifact with a SHA1, among the records of all artifacts.
pub open spec fn uid_of_sha1(table: Seq<crate::db::NewFields>, sha1: Seq<char>) -> Option<Seq<char>>
    decreases table.len(),
{
    if table.len() == 0 {
        None
    } else if table[0].hashes.sha1 == sha1 {
        Some(table[0].uid)
    } else {
        uid_of_sha1(table.skip(1), sha1)
    }
}

/// The record that a plan inserts, under the Edition it is given.
pub open spec fn inserted(plan: IngestPlan, edition_id: Option<i64>) -> Option<
    crate::db::NewFields,
> {
    match plan {
        IngestPlan::Duplicate { .. } => None,
        IngestPlan::Identified { record, .. } => Some(
            crate::db::NewFields { edition_id, ..record@ },
        ),
        IngestPlan::Unidentified { record, .. } => Some(record@),
    }
}

/// Exact deduplication: once an upload is stored, its SHA1 is found among the
/// artifacts under its UID, so that the same bytes are a duplicate of it from then on.
pub proof fn stored_upload_is_found_again(
    table: Seq<crate::db::NewFields>,
    name: Seq<char>,
    hashes: crate::identity::HashFields,
    container: Seq<char>,
    uid: Seq<char>,
    entry: Option<crate::dat::DatFields>,
    plan: IngestPlan,
    edition_id: Option<i64>,
)
    requires
        is_plan(name, hashes, container, uid, entry, plan),
        uid_of_sha1(table, hashes.sha1) is None,
    ensures
        inserted(plan, edition_id) is Some,
        uid_of_sha1(table.push(inserted(plan, edition_id)->0), hashes.sha1) == Some(uid),
    decreases table.len(),
{
    let rec = inserted(plan, edition_id)->0;
    if table.len() == 0 {
        assert(table.push(rec)[0] == rec);
    } else {
        assert(table.push(rec).skip(1) =~= table.skip(1).push(rec));
        stored_upload_is_found_again(
            table.skip(1),
            name,
            hashes,
            container,
            uid,
            entry,
            plan,
            edition_id,
        );
    }
}

/// Nothing is ever lost for want of a name: an upload that is no duplicate is stored
/// whether or not it is identified, under its own hashes, and it is quarantined
/// exactly where no DAT entry matches and its filename cannot be parsed.
pub proof fn every_upload_is_stored(
    name: Seq<char>,
    hashes: crate::identity::HashFields,
    container: Seq<char>,
    uid: Seq<char>,
    entry: Option<crate::dat::DatFields>,
    plan: IngestPlan,
)
    requires
        is_plan(name, hashes, container, uid, entry, plan),
    ensures
        inserted(plan, None) matches Some(rec) && rec.hashes == hashes && rec.uid == uid
            && rec.blob_sha1 == hashes.sha1,
        plan is Unidentified <==> entry is None && crate::naming::tosec(name) is None,
{
}

/// A hash match is authoritative: with a DAT entry, the identity does not depend on
/// the filename of the upload.
pub proof fn hash_match_outranks_filename(
    name: Seq<char>,
    other: Seq<char>,
    entry: crate::dat::DatFields,
)
    ensures
        identity_of(name, Some(entry)) == identity_of(other, Some(entry)),
        identity_of(name, Some(entry)) is Some,
{
}

/// What is uploaded is recorded as it came: with its name, hashes, container and UID, verified
/// exactly where the DAT knows it, and with neither Edition nor decoded form yet.
pub proof fn upload_is_recorded_as_it_came(
    name: Seq<char>,
    hashes: crate::identity::HashFields,
    container: Seq<char>,
    uid: Seq<char>,
    entry: Option<crate::dat::DatFields>,
    plan: IngestPlan,
)
    requires
        is_plan(name, hashes, container, uid, entry, plan),
    ensures
        inserted(plan, None) matches Some(rec) && {
            &&& rec.uid == uid
            &&& rec.hashes.sha1 == hashes.sha1
            &&& rec.hashes.crc32 == hashes.crc32
            &&& rec.hashes.md5 == hashes.md5
            &&& rec.blob_sha1 == hashes.sha1
            &&& rec.container == container
            &&& rec.orig_filename == Some(name)
            &&& rec.verified == entry is Some
            &&& rec.edition_id is None
            &&& rec.decoded_sha1 is None
        },
        plan is Duplicate ==> false,
{
}

/// An upload that the DAT knows takes its title, year and name from the DAT's name, and from
/// the DAT's own fields where that name does not read; one it does not know takes them from
/// the uploaded name. Its dump facts are those of the flags of the name it took.
pub proof fn record_takes_the_name_that_reads(
    name: Seq<char>,
    hashes: crate::identity::HashFields,
    container: Seq<char>,
    uid: Seq<char>,
    entry: Option<crate::dat::DatFields>,
    plan: IngestPlan,
    record: crate::db::NewArtifact,
    category: Category,
    key: crate::edition::EditionKey,
)
    requires
        is_plan(name, hashes, container, uid, entry, plan),
        plan == (IngestPlan::Identified { record, category, key }),
    ensures
        entry matches Some(e) ==> {
            &&& record@.tosec_name == Some(e.name)
            &&& crate::naming::tosec(e.name) matches Some(n) ==> record_is_of(record@, n)
                && category == crate::edition::category_of(n.qualifier, Some(e.source)) && key@
                == crate::edition::key_of(n)
            &&& crate::naming::tosec(e.name) is None ==> {
                &&& record@.display_title == Some(
                    if e.title is Some {
                        e.title->0
                    } else {
                        e.name
                    },
                )
                &&& record@.year == e.year
                &&& record@.dump_type == Some(crate::edition::dump_label(crate::edition::DumpType::Original))
                &&& record@.modifications == 0
                &&& category == crate::edition::category_of(None, Some(e.source))
                &&& key@.version == e.version
                &&& key@.language == e.language
                &&& key@.publisher == e.publisher
                &&& key@.qualifier is None
                &&& key@.disk_no == e.disk_no
                &&& key@.disk_count == e.disk_count
            }
        },
        entry is None ==> {
            &&& record@.tosec_name == Some(name)
            &&& crate::naming::tosec(name) matches Some(n) && record_is_of(record@, n) && category
                == crate::edition::category_of(n.qualifier, None) && key@
                == crate::edition::key_of(n)
        },
{
    reveal_with_fuel(crate::edition::scene_of, 2);
}

/// Whether a record has the title, year and dump facts of a parsed name.
pub open spec fn record_is_of(
    rec: crate::db::NewFields,
    n: crate::naming::TosecFields,
) -> bool {
    let info = crate::edition::dump_of(n.flags);
    &&& rec.display_title == Some(n.title)
    &&& rec.year == n.year
    &&& rec.dump_type == Some(crate::edition::dump_label(info.dump_type))
    &&& rec.crack_group == info.crack_group
    &&& rec.trainer == info.trainer
    &&& rec.bad == info.bad
    &&& rec.virus == info.virus
    &&& rec.over == info.over
    &&& rec.under == info.under
    &&& rec.alt_index == info.alt_index
    &&& rec.modifications == info.modifications
    &&& rec.verified_good == info.verified_good
    &&& rec.lineage == info.lineage
}

/// What is answered of an upload: the UID it is found by, that it is verified exactly where
/// the DAT knows it, and that it is quarantined exactly where neither the DAT nor its name
/// tells what it is; of a duplicate, the UID that it is already found by.
pub proof fn answer_follows_the_upload(
    name: Seq<char>,
    hashes: crate::identity::HashFields,
    container: Seq<char>,
    uid: Seq<char>,
    entry: Option<crate::dat::DatFields>,
    plan: IngestPlan,
    r: IngestOutcome,
)
    requires
        is_plan(name, hashes, container, uid, entry, plan),
        is_outcome(plan, r),
    ensures
        r matches IngestOutcome::Stored { uid: u, verified, quarantined } && u@ == uid && verified
            == entry is Some && quarantined == (entry is None && crate::naming::tosec(name) is None),
{
}

/// The artifact of a SHA-1 is the first one with it.
pub proof fn sha1_finds_the_first(table: Seq<crate::db::NewFields>, k: int)
    requires
        0 <= k < table.len(),
        forall|j: int|
            0 <= j < k ==> (#[trigger] table[j]).hashes.sha1 != table[k].hashes.sha1,
    ensures
        uid_of_sha1(table, table[k].hashes.sha1) == Some(table[k].uid),
    decreases k,
{
    if k > 0 {
        assert(table[0].hashes.sha1 != table[k].hashes.sha1);
        let rest = table.skip(1);
        assert(rest[k - 1] == table[k]);
        assert forall|j: int| 0 <= j < k - 1 implies (#[trigger] rest[j]).hashes.sha1
            != rest[k - 1].hashes.sha1 by {
            assert(rest[j] == table[j + 1]);
        }
        sha1_finds_the_first(rest, k - 1);
    }
}

/// Bytes that are stored already are a duplicate of the artifact found by their SHA-1, and
/// bytes that are not are never one; a failing lookup fails the upload.
pub proof fn stored_bytes_are_duplicates<
    B: Fn(&str) -> Result<Option<String>, Error>,
    O: Fn(&str) -> Result<Option<String>, Error>,
    D: Fn(&Hashes) -> Result<Option<DatEntry>, Error>,
>(
    name: Seq<char>,
    hashes: Hashes,
    container: Seq<char>,
    uid_by_sha1: B,
    owner_of: O,
    match_dat: D,
    answer: Result<Option<String>, Error>,
    r: Result<IngestPlan, Error>,
)
    requires
        is_ingested(name, hashes, container, uid_by_sha1, owner_of, match_dat, r),
        forall|k: &str, found: Result<Option<String>, Error>| #[trigger]
            call_ensures(uid_by_sha1, (k,), found) && k@ == hashes@.sha1 ==> found == answer,
    ensures
        answer matches Ok(Some(uid)) ==> r == Ok::<IngestPlan, Error>(IngestPlan::Duplicate { uid }),
        answer matches Ok(None) ==> !(r matches Ok(IngestPlan::Duplicate { .. })),
        answer matches Err(e) ==> r == Err::<IngestPlan, Error>(e),
{
}

} // verus!
