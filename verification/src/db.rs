//! What the database holds: rows, the views that are read from them, and which of them
//! are browsed.
//!
//! The database is the authoritative source of full metadata, keyed by UID; the
//! filename is only a projection of it.

use vstd::prelude::*;

use crate::edition::{DumpInfo, DumpType};
use crate::error::Error;
use crate::identity::{uid_from_sha1, uid_step, Hashes, UidStep, UID_LEN};
use crate::naming::build_canonical;
use crate::order::{sorted_positions, Ordered};
use crate::text::{
    append_text, as_str_opt, clone_opt, lists_text, opt_num_before, opt_text_before, owned, same,
    same_opt, string_of, text_before,
};

verus! {

/// A new artifact row to insert.
#[derive(Debug, Clone)]
pub struct NewArtifact {
    pub uid: String,
    pub hashes: Hashes,
    pub edition_id: Option<i64>,
    pub display_title: Option<String>,
    pub year: Option<i32>,
    pub dump_type: Option<String>,
    pub crack_group: Option<String>,
    pub trainer: Option<String>,
    pub bad: bool,
    pub virus: bool,
    pub over: bool,
    pub under: bool,
    pub alt_index: u32,
    pub modifications: u32,
    pub verified_good: bool,
    pub lineage: Option<String>,
    pub verified: bool,
    pub tosec_name: Option<String>,
    pub orig_filename: Option<String>,
    pub container: String,
    pub decoded_sha1: Option<String>,
    pub blob_sha1: String,
}

/// What a [`NewArtifact`] holds.
#[verifier::ext_equal]
pub struct NewFields {
    pub uid: Seq<char>,
    pub hashes: crate::identity::HashFields,
    pub edition_id: Option<i64>,
    pub display_title: Option<Seq<char>>,
    pub year: Option<i32>,
    pub dump_type: Option<Seq<char>>,
    pub crack_group: Option<Seq<char>>,
    pub trainer: Option<Seq<char>>,
    pub bad: bool,
    pub virus: bool,
    pub over: bool,
    pub under: bool,
    pub alt_index: u32,
    pub modifications: u32,
    pub verified_good: bool,
    pub lineage: Option<Seq<char>>,
    pub verified: bool,
    pub tosec_name: Option<Seq<char>>,
    pub orig_filename: Option<Seq<char>>,
    pub container: Seq<char>,
    pub decoded_sha1: Option<Seq<char>>,
    pub blob_sha1: Seq<char>,
}

impl View for NewArtifact {
    type V = NewFields;

    open spec fn view(&self) -> NewFields {
        NewFields {
            uid: self.uid@,
            hashes: self.hashes@,
            edition_id: self.edition_id,
            display_title: crate::text::opt_view(self.display_title),
            year: self.year,
            dump_type: crate::text::opt_view(self.dump_type),
            crack_group: crate::text::opt_view(self.crack_group),
            trainer: crate::text::opt_view(self.trainer),
            bad: self.bad,
            virus: self.virus,
            over: self.over,
            under: self.under,
            alt_index: self.alt_index,
            modifications: self.modifications,
            verified_good: self.verified_good,
            lineage: crate::text::opt_view(self.lineage),
            verified: self.verified,
            tosec_name: crate::text::opt_view(self.tosec_name),
            orig_filename: crate::text::opt_view(self.orig_filename),
            container: self.container@,
            decoded_sha1: crate::text::opt_view(self.decoded_sha1),
            blob_sha1: self.blob_sha1@,
        }
    }
}

/// An artifact row that says nothing.
pub open spec fn blank_artifact() -> NewFields {
    NewFields {
        uid: Seq::empty(),
        hashes: crate::identity::HashFields {
            sha1: Seq::empty(),
            crc32: Seq::empty(),
            md5: Seq::empty(),
        },
        edition_id: None,
        display_title: None,
        year: None,
        dump_type: None,
        crack_group: None,
        trainer: None,
        bad: false,
        virus: false,
        over: false,
        under: false,
        alt_index: 0,
        modifications: 0,
        verified_good: false,
        lineage: None,
        verified: false,
        tosec_name: None,
        orig_filename: None,
        container: Seq::empty(),
        decoded_sha1: None,
        blob_sha1: Seq::empty(),
    }
}

impl Default for NewArtifact {
    fn default() -> (r: NewArtifact)
        ensures
            r@ == blank_artifact(),
    {
        NewArtifact {
            uid: String::new(),
            hashes: Hashes::default(),
            edition_id: None,
            display_title: None,
            year: None,
            dump_type: None,
            crack_group: None,
            trainer: None,
            bad: false,
            virus: false,
            over: false,
            under: false,
            alt_index: 0,
            modifications: 0,
            verified_good: false,
            lineage: None,
            verified: false,
            tosec_name: None,
            orig_filename: None,
            container: String::new(),
            decoded_sha1: None,
            blob_sha1: String::new(),
        }
    }
}

/// A view of an Edition for browsing.
#[derive(Debug, Clone)]
pub struct EditionView {
    pub edition_id: i64,
    /// The logical work this Edition belongs to.
    pub title_id: i64,
    pub title: String,
    pub category: String,
    pub version: Option<String>,
    pub language: Option<String>,
    pub publisher: Option<String>,
    pub qualifier: Option<String>,
    pub year: Option<i32>,
    pub disk_no: Option<u32>,
    pub disk_count: Option<u32>,
    pub primary_uid: Option<String>,
    pub variant_count: i64,
}

/// What a [`EditionView`] holds.
#[verifier::ext_equal]
pub struct EditionFields {
    pub edition_id: i64,
    pub title_id: i64,
    pub title: Seq<char>,
    pub category: Seq<char>,
    pub version: Option<Seq<char>>,
    pub language: Option<Seq<char>>,
    pub publisher: Option<Seq<char>>,
    pub qualifier: Option<Seq<char>>,
    pub year: Option<i32>,
    pub disk_no: Option<u32>,
    pub disk_count: Option<u32>,
    pub primary_uid: Option<Seq<char>>,
    pub variant_count: i64,
}

impl View for EditionView {
    type V = EditionFields;

    open spec fn view(&self) -> EditionFields {
        EditionFields {
            edition_id: self.edition_id,
            title_id: self.title_id,
            title: self.title@,
            category: self.category@,
            version: crate::text::opt_view(self.version),
            language: crate::text::opt_view(self.language),
            publisher: crate::text::opt_view(self.publisher),
            qualifier: crate::text::opt_view(self.qualifier),
            year: self.year,
            disk_no: self.disk_no,
            disk_count: self.disk_count,
            primary_uid: crate::text::opt_view(self.primary_uid),
            variant_count: self.variant_count,
        }
    }
}

/// What Editions hold.
pub open spec fn edition_views(s: Seq<EditionView>) -> Seq<EditionFields> {
    s.map_values(|x: EditionView| x@)
}

impl EditionView {
    /// A copy of this record.
    pub fn copy(&self) -> (r: EditionView)
        ensures
            r@ == self@,
    {
        EditionView {
            edition_id: self.edition_id,
            title_id: self.title_id,
            title: owned(&self.title),
            category: owned(&self.category),
            version: clone_opt(&self.version),
            language: clone_opt(&self.language),
            publisher: clone_opt(&self.publisher),
            qualifier: clone_opt(&self.qualifier),
            year: self.year,
            disk_no: self.disk_no,
            disk_count: self.disk_count,
            primary_uid: clone_opt(&self.primary_uid),
            variant_count: self.variant_count,
        }
    }
}

/// A view of a single artifact (variant).
#[derive(Debug, Clone)]
pub struct ArtifactView {
    pub uid: String,
    pub display_title: Option<String>,
    pub canonical_name: String,
    pub dump_type: Option<String>,
    pub crack_group: Option<String>,
    pub trainer: Option<String>,
    pub year: Option<i32>,
    pub verified: bool,
    pub is_primary: bool,
    pub tosec_name: Option<String>,
    pub blob_sha1: String,
    pub crc32: String,
    pub md5: String,
    pub alt_index: u32,
    /// Blob size in bytes; a computed (non-column) field filled by the service
    /// layer from the blob store, like `is_primary`. `None` when unavailable.
    pub byte_len: Option<u64>,
    pub version: Option<String>,
    pub language: Option<String>,
    pub disk_no: Option<u32>,
    pub disk_count: Option<u32>,
}

/// What a [`ArtifactView`] holds.
#[verifier::ext_equal]
pub struct ArtifactFields {
    pub uid: Seq<char>,
    pub display_title: Option<Seq<char>>,
    pub canonical_name: Seq<char>,
    pub dump_type: Option<Seq<char>>,
    pub crack_group: Option<Seq<char>>,
    pub trainer: Option<Seq<char>>,
    pub year: Option<i32>,
    pub verified: bool,
    pub is_primary: bool,
    pub tosec_name: Option<Seq<char>>,
    pub blob_sha1: Seq<char>,
    pub crc32: Seq<char>,
    pub md5: Seq<char>,
    pub alt_index: u32,
    pub byte_len: Option<u64>,
    pub version: Option<Seq<char>>,
    pub language: Option<Seq<char>>,
    pub disk_no: Option<u32>,
    pub disk_count: Option<u32>,
}

impl View for ArtifactView {
    type V = ArtifactFields;

    open spec fn view(&self) -> ArtifactFields {
        ArtifactFields {
            uid: self.uid@,
            display_title: crate::text::opt_view(self.display_title),
            canonical_name: self.canonical_name@,
            dump_type: crate::text::opt_view(self.dump_type),
            crack_group: crate::text::opt_view(self.crack_group),
            trainer: crate::text::opt_view(self.trainer),
            year: self.year,
            verified: self.verified,
            is_primary: self.is_primary,
            tosec_name: crate::text::opt_view(self.tosec_name),
            blob_sha1: self.blob_sha1@,
            crc32: self.crc32@,
            md5: self.md5@,
            alt_index: self.alt_index,
            byte_len: self.byte_len,
            version: crate::text::opt_view(self.version),
            language: crate::text::opt_view(self.language),
            disk_no: self.disk_no,
            disk_count: self.disk_count,
        }
    }
}

/// The canonical filename of an artifact: a disk field where both numbers are known.
pub open spec fn canonical_of(v: ArtifactFields) -> Seq<char> {
    crate::naming::canonical_text(
        match v.display_title {
            Some(t) => t,
            None => "Unknown"@,
        },
        v.version,
        v.language,
        if v.disk_no is Some && v.disk_count is Some {
            Some((v.disk_no->0, v.disk_count->0))
        } else {
            None
        },
        v.uid,
    )
}

impl ArtifactView {
    /// The canonical filename projected from this artifact's metadata.
    pub fn canonical(&self) -> (r: String)
        ensures
            r@ == canonical_of(self@),
    {
        let title = match &self.display_title {
            Some(t) => owned(t),
            None => owned("Unknown"),
        };
        let disk = match (self.disk_no, self.disk_count) {
            (Some(n), Some(m)) => Some((n, m)),
            _ => None,
        };
        build_canonical(
            &title,
            as_str_opt(&self.version),
            as_str_opt(&self.language),
            disk,
            &self.uid,
        )
    }
}

/// The columns of an artifact row, joined with its Edition's.
#[derive(Debug, Clone)]
pub struct ArtifactRow {
    pub uid: String,
    pub display_title: Option<String>,
    pub dump_type: Option<String>,
    pub crack_group: Option<String>,
    pub trainer: Option<String>,
    pub year: Option<i32>,
    pub verified: i32,
    pub tosec_name: Option<String>,
    pub blob_sha1: String,
    pub version: Option<String>,
    pub language: Option<String>,
    pub disk_no: Option<u32>,
    pub disk_count: Option<u32>,
    pub crc32: String,
    pub md5: String,
    pub alt_index: u32,
}

/// What a [`ArtifactRow`] holds.
#[verifier::ext_equal]
pub struct RowFields {
    pub uid: Seq<char>,
    pub display_title: Option<Seq<char>>,
    pub dump_type: Option<Seq<char>>,
    pub crack_group: Option<Seq<char>>,
    pub trainer: Option<Seq<char>>,
    pub year: Option<i32>,
    pub verified: i32,
    pub tosec_name: Option<Seq<char>>,
    pub blob_sha1: Seq<char>,
    pub version: Option<Seq<char>>,
    pub language: Option<Seq<char>>,
    pub disk_no: Option<u32>,
    pub disk_count: Option<u32>,
    pub crc32: Seq<char>,
    pub md5: Seq<char>,
    pub alt_index: u32,
}

impl View for ArtifactRow {
    type V = RowFields;

    open spec fn view(&self) -> RowFields {
        RowFields {
            uid: self.uid@,
            display_title: crate::text::opt_view(self.display_title),
            dump_type: crate::text::opt_view(self.dump_type),
            crack_group: crate::text::opt_view(self.crack_group),
            trainer: crate::text::opt_view(self.trainer),
            year: self.year,
            verified: self.verified,
            tosec_name: crate::text::opt_view(self.tosec_name),
            blob_sha1: self.blob_sha1@,
            version: crate::text::opt_view(self.version),
            language: crate::text::opt_view(self.language),
            disk_no: self.disk_no,
            disk_count: self.disk_count,
            crc32: self.crc32@,
            md5: self.md5@,
            alt_index: self.alt_index,
        }
    }
}

/// What is read from a row: its columns and its canonical name. Whether it is a
/// primary, and its size, are filled in later.
pub open spec fn artifact_of(r: RowFields) -> ArtifactFields {
    let v = ArtifactFields {
        uid: r.uid,
        display_title: r.display_title,
        canonical_name: Seq::empty(),
        dump_type: r.dump_type,
        crack_group: r.crack_group,
        trainer: r.trainer,
        year: r.year,
        verified: r.verified != 0,
        is_primary: false,
        tosec_name: r.tosec_name,
        blob_sha1: r.blob_sha1,
        crc32: r.crc32,
        md5: r.md5,
        alt_index: r.alt_index,
        byte_len: None,
        version: r.version,
        language: r.language,
        disk_no: r.disk_no,
        disk_count: r.disk_count,
    };
    ArtifactFields { canonical_name: canonical_of(v), ..v }
}

/// Read an artifact from its row.
pub fn map_artifact(r: ArtifactRow) -> (v: ArtifactView)
    ensures
        v@ == artifact_of(r@),
{
    let mut v = ArtifactView {
        uid: r.uid,
        display_title: r.display_title,
        canonical_name: String::new(),
        dump_type: r.dump_type,
        crack_group: r.crack_group,
        trainer: r.trainer,
        year: r.year,
        verified: r.verified != 0,
        is_primary: false,
        tosec_name: r.tosec_name,
        blob_sha1: r.blob_sha1,
        crc32: r.crc32,
        md5: r.md5,
        alt_index: r.alt_index,
        byte_len: None,
        version: r.version,
        language: r.language,
        disk_no: r.disk_no,
        disk_count: r.disk_count,
    };
    v.canonical_name = v.canonical();
    v
}

/// An artifact marked as primary where it is the one.
pub open spec fn marked(v: ArtifactFields, primary: Option<Seq<char>>) -> ArtifactFields {
    ArtifactFields { is_primary: primary == Some(v.uid), ..v }
}

/// Read an Edition's variants from their rows, the primary marked.
pub fn edition_variants(rows: Vec<ArtifactRow>, primary: Option<&str>) -> (r: Vec<ArtifactView>)
    ensures
        r@.len() == rows@.len(),
        forall|i: int|
            0 <= i < r@.len() ==> (#[trigger] r@[i])@ == marked(
                artifact_of(rows@[i]@),
                crate::text::opt_str_view(primary),
            ),
{
    let ghost all = rows@;
    let mut rows = rows;
    let mut r: Vec<ArtifactView> = Vec::new();
    while rows.len() > 0
        invariant
            r@.len() + rows@.len() == all.len(),
            rows@ == all.skip(r@.len() as int),
            forall|i: int|
                0 <= i < r@.len() ==> (#[trigger] r@[i])@ == marked(
                    artifact_of(all[i]@),
                    crate::text::opt_str_view(primary),
                ),
        decreases rows@.len(),
    {
        assert(rows@[0] == all[r@.len() as int]);
        let row = rows.remove(0);
        let mut v = map_artifact(row);
        v.is_primary = match primary {
            Some(p) => same(p, &v.uid),
            None => false,
        };
        r.push(v);
    }
    r
}

/// The dump columns of an artifact row.
#[derive(Debug, Clone)]
pub struct DumpRow {
    pub dump_type: Option<String>,
    pub crack_group: Option<String>,
    pub trainer: Option<String>,
    pub bad: i32,
    pub virus: i32,
    pub over: i32,
    pub under: i32,
    pub alt_index: u32,
    pub modifications: u32,
    pub verified_good: i32,
    pub lineage: Option<String>,
}

/// What a [`DumpRow`] holds.
#[verifier::ext_equal]
pub struct DumpRowFields {
    pub dump_type: Option<Seq<char>>,
    pub crack_group: Option<Seq<char>>,
    pub trainer: Option<Seq<char>>,
    pub bad: i32,
    pub virus: i32,
    pub over: i32,
    pub under: i32,
    pub alt_index: u32,
    pub modifications: u32,
    pub verified_good: i32,
    pub lineage: Option<Seq<char>>,
}

impl View for DumpRow {
    type V = DumpRowFields;

    open spec fn view(&self) -> DumpRowFields {
        DumpRowFields {
            dump_type: crate::text::opt_view(self.dump_type),
            crack_group: crate::text::opt_view(self.crack_group),
            trainer: crate::text::opt_view(self.trainer),
            bad: self.bad,
            virus: self.virus,
            over: self.over,
            under: self.under,
            alt_index: self.alt_index,
            modifications: self.modifications,
            verified_good: self.verified_good,
            lineage: crate::text::opt_view(self.lineage),
        }
    }
}

/// The dump that is read from its columns.
pub open spec fn dump_from(r: DumpRowFields) -> crate::edition::DumpFields {
    crate::edition::DumpFields {
        dump_type: crate::edition::dump_of_label(
            match r.dump_type {
                Some(t) => t,
                None => Seq::empty(),
            },
        ),
        crack_group: r.crack_group,
        trainer: r.trainer,
        bad: r.bad != 0,
        virus: r.virus != 0,
        over: r.over != 0,
        under: r.under != 0,
        alt_index: r.alt_index,
        verified_good: r.verified_good != 0,
        modifications: r.modifications,
        lineage: r.lineage,
    }
}

/// Reconstruct a [`DumpInfo`] from the persisted columns (no filename re-parsing).
pub fn info_from_row(r: DumpRow) -> (info: DumpInfo)
    ensures
        info@ == dump_from(r@),
{
    let dump_type = match &r.dump_type {
        Some(t) => DumpType::from_label(t),
        None => {
            let none = String::new();
            assert(none@ =~= Seq::<char>::empty());
            DumpType::from_label(&none)
        },
    };
    DumpInfo {
        dump_type,
        crack_group: r.crack_group,
        trainer: r.trainer,
        bad: r.bad != 0,
        virus: r.virus != 0,
        over: r.over != 0,
        under: r.under != 0,
        alt_index: r.alt_index,
        verified_good: r.verified_good != 0,
        modifications: r.modifications,
        lineage: r.lineage,
    }
}

/// A truth value as a column holds it.
pub open spec fn flag_column(b: bool) -> i32 {
    if b {
        1
    } else {
        0
    }
}

/// The dump columns of a new artifact.
pub open spec fn dump_columns_of(a: NewFields) -> DumpRowFields {
    DumpRowFields {
        dump_type: a.dump_type,
        crack_group: a.crack_group,
        trainer: a.trainer,
        bad: flag_column(a.bad),
        virus: flag_column(a.virus),
        over: flag_column(a.over),
        under: flag_column(a.under),
        alt_index: a.alt_index,
        modifications: a.modifications,
        verified_good: flag_column(a.verified_good),
        lineage: a.lineage,
    }
}

/// A truth value as a column holds it.
fn column(b: bool) -> (r: i32)
    ensures
        r == flag_column(b),
{
    if b {
        1
    } else {
        0
    }
}

/// The dump columns of a new artifact, as they are inserted.
pub fn dump_columns(a: &NewArtifact) -> (r: DumpRow)
    ensures
        r@ == dump_columns_of(a@),
{
    DumpRow {
        dump_type: clone_opt(&a.dump_type),
        crack_group: clone_opt(&a.crack_group),
        trainer: clone_opt(&a.trainer),
        bad: column(a.bad),
        virus: column(a.virus),
        over: column(a.over),
        under: column(a.under),
        alt_index: a.alt_index,
        modifications: a.modifications,
        verified_good: column(a.verified_good),
        lineage: clone_opt(&a.lineage),
    }
}

// --- Browsing ---------------------------------------------------------------

/// What browsing reads of an artifact.
#[derive(Debug, Clone, Copy, PartialEq, Eq)]
pub struct BrowseArtifact {
    pub year: Option<i32>,
    /// 1 where a reference DAT lists the artifact.
    pub verified: i32,
    /// Whether the artifact is in quarantine.
    pub quarantined: bool,
}

/// An Edition that is browsed, with the name and the category of its Title, and its
/// artifacts.
#[derive(Debug, Clone)]
pub struct BrowseRow {
    pub edition_id: i64,
    pub title_id: i64,
    pub title: String,
    pub category: String,
    pub version: Option<String>,
    pub language: Option<String>,
    pub publisher: Option<String>,
    pub qualifier: Option<String>,
    pub disk_no: Option<u32>,
    pub disk_count: Option<u32>,
    pub primary_uid: Option<String>,
    pub artifacts: Vec<BrowseArtifact>,
}

/// What a [`BrowseRow`] holds.
#[verifier::ext_equal]
pub struct BrowseFields {
    pub edition_id: i64,
    pub title_id: i64,
    pub title: Seq<char>,
    pub category: Seq<char>,
    pub version: Option<Seq<char>>,
    pub language: Option<Seq<char>>,
    pub publisher: Option<Seq<char>>,
    pub qualifier: Option<Seq<char>>,
    pub disk_no: Option<u32>,
    pub disk_count: Option<u32>,
    pub primary_uid: Option<Seq<char>>,
    pub artifacts: Seq<BrowseArtifact>,
}

impl View for BrowseRow {
    type V = BrowseFields;

    open spec fn view(&self) -> BrowseFields {
        BrowseFields {
            edition_id: self.edition_id,
            title_id: self.title_id,
            title: self.title@,
            category: self.category@,
            version: crate::text::opt_view(self.version),
            language: crate::text::opt_view(self.language),
            publisher: crate::text::opt_view(self.publisher),
            qualifier: crate::text::opt_view(self.qualifier),
            disk_no: self.disk_no,
            disk_count: self.disk_count,
            primary_uid: crate::text::opt_view(self.primary_uid),
            artifacts: self.artifacts@,
        }
    }
}

/// What rows hold.
pub open spec fn browse_views(rows: Seq<BrowseRow>) -> Seq<BrowseFields> {
    rows.map_values(|r: BrowseRow| r@)
}

/// A text, or the empty one where it is absent.
pub open spec fn or_empty(s: Option<Seq<char>>) -> Seq<char> {
    match s {
        Some(t) => t,
        None => Seq::empty(),
    }
}

/// The pattern of titles that hold `q`; every title where nothing is asked for.
pub open spec fn like_pattern(q: Option<Seq<char>>) -> Seq<char> {
    match q {
        Some(t) => seq!['%'] + t + seq!['%'],
        None => seq!['%'],
    }
}

/// The pattern that the title of a browsed Edition is to be like.
pub fn title_pattern(q: Option<&str>) -> (r: String)
    ensures
        r@ == like_pattern(crate::text::opt_str_view(q)),
{
    let mut like: Vec<char> = Vec::new();
    like.push('%');
    if let Some(t) = q {
        append_text(&mut like, t);
        like.push('%');
        assert(like@ =~= seq!['%'] + t@ + seq!['%']);
    }
    assert(like@ =~= like_pattern(crate::text::opt_str_view(q)));
    string_of(&like)
}

/// The earliest year of artifacts, of those that have one.
pub open spec fn earliest_year(a: Seq<BrowseArtifact>) -> Option<i32>
    decreases a.len(),
{
    if a.len() == 0 {
        None
    } else {
        match (earliest_year(a.drop_last()), a.last().year) {
            (Some(x), Some(y)) => Some(
                if y < x {
                    y
                } else {
                    x
                },
            ),
            (None, y) => y,
            (x, None) => x,
        }
    }
}

/// Whether some artifact is verified.
pub open spec fn has_verified(a: Seq<BrowseArtifact>) -> bool {
    exists|i: int| 0 <= i < a.len() && (#[trigger] a[i]).verified == 1
}

/// Whether some artifact is in quarantine.
pub open spec fn has_quarantined(a: Seq<BrowseArtifact>) -> bool {
    exists|i: int| 0 <= i < a.len() && (#[trigger] a[i]).quarantined
}

/// How an Edition is shown: with the earliest year and the number of its artifacts.
pub open spec fn shown_as(row: BrowseFields) -> EditionFields {
    EditionFields {
        edition_id: row.edition_id,
        title_id: row.title_id,
        title: row.title,
        category: row.category,
        version: row.version,
        language: row.language,
        publisher: row.publisher,
        qualifier: row.qualifier,
        year: earliest_year(row.artifacts),
        disk_no: row.disk_no,
        disk_count: row.disk_count,
        primary_uid: row.primary_uid,
        variant_count: row.artifacts.len() as i64,
    }
}

/// Whether a value is the one asked for; nothing, or the empty text, asks for none.
pub open spec fn is_asked_for(asked: Option<Seq<char>>, value: Option<Seq<char>>) -> bool {
    or_empty(asked).len() == 0 || value == Some(or_empty(asked))
}

/// Whether an Edition has an identification status: `verified` where some artifact is
/// verified, `unverified` where none is, `quarantined` where some is in quarantine. Any
/// other status is every Edition's.
pub open spec fn has_status(row: BrowseFields, status: Option<Seq<char>>) -> bool {
    if status == Some("verified"@) {
        has_verified(row.artifacts)
    } else if status == Some("unverified"@) {
        !has_verified(row.artifacts)
    } else if status == Some("quarantined"@) {
        has_quarantined(row.artifacts)
    } else {
        true
    }
}

/// Whether an Edition is shown.
pub open spec fn is_shown(
    row: BrowseFields,
    category: Option<Seq<char>>,
    language: Option<Seq<char>>,
    status: Option<Seq<char>>,
) -> bool {
    &&& is_asked_for(category, Some(row.category))
    &&& is_asked_for(language, row.language)
    &&& has_status(row, status)
}

/// The Editions that are shown, in the order of the rows.
pub open spec fn shown(
    rows: Seq<BrowseFields>,
    category: Option<Seq<char>>,
    language: Option<Seq<char>>,
    status: Option<Seq<char>>,
) -> Seq<EditionFields>
    decreases rows.len(),
{
    if rows.len() == 0 {
        Seq::empty()
    } else {
        let rest = shown(rows.drop_last(), category, language, status);
        if is_shown(rows.last(), category, language, status) {
            rest.push(shown_as(rows.last()))
        } else {
            rest
        }
    }
}

/// What browsed Editions are sorted by.
pub struct BrowseKey {
    pub title: String,
    pub language: Option<String>,
    pub disk_no: Option<u32>,
}

/// What a [`BrowseKey`] holds.
#[verifier::ext_equal]
pub struct BrowseKeyFields {
    pub title: Seq<char>,
    pub language: Option<Seq<char>>,
    pub disk_no: Option<u32>,
}

impl View for BrowseKey {
    type V = BrowseKeyFields;

    open spec fn view(&self) -> BrowseKeyFields {
        BrowseKeyFields {
            title: self.title@,
            language: crate::text::opt_view(self.language),
            disk_no: self.disk_no,
        }
    }
}

/// The order of browsed Editions: by title, language and disk; one without a language or a
/// disk number comes first.
pub open spec fn browse_key_lt(a: BrowseKeyFields, b: BrowseKeyFields) -> bool {
    ||| crate::text::text_lt(a.title, b.title)
    ||| a.title == b.title && {
        ||| crate::text::opt_text_lt(a.language, b.language)
        ||| a.language == b.language && crate::text::opt_num_lt(a.disk_no, b.disk_no)
    }
}

impl Ordered for BrowseKey {
    open spec fn lt(a: BrowseKeyFields, b: BrowseKeyFields) -> bool {
        browse_key_lt(a, b)
    }

    proof fn asymmetric(a: BrowseKeyFields, b: BrowseKeyFields) {
        crate::text::lemma_text_lt_asym(a.title, b.title);
        crate::text::lemma_text_lt_asym(b.title, a.title);
        crate::order::lemma_opt_text_order(a.language, b.language, a.language);
        crate::order::lemma_opt_text_order(b.language, a.language, b.language);
    }

    proof fn transitive(a: BrowseKeyFields, b: BrowseKeyFields, c: BrowseKeyFields) {
        if crate::text::text_lt(a.title, b.title) && crate::text::text_lt(b.title, c.title) {
            crate::text::lemma_text_lt_trans(a.title, b.title, c.title);
        }
        crate::order::lemma_opt_text_order(a.language, b.language, c.language);
    }

    proof fn total(a: BrowseKeyFields, b: BrowseKeyFields) {
        crate::text::lemma_text_lt_total(a.title, b.title);
        crate::order::lemma_opt_text_order(a.language, b.language, a.language);
    }

    fn before(&self, other: &Self) -> (r: bool) {
        proof {
            crate::text::lemma_text_lt_asym(self.title@, other.title@);
            crate::order::lemma_opt_text_order(self@.language, other@.language, self@.language);
        }
        if !same(&self.title, &other.title) {
            return text_before(&self.title, &other.title);
        }
        if !same_opt(&self.language, &other.language) {
            return opt_text_before(&self.language, &other.language);
        }
        opt_num_before(self.disk_no, other.disk_no)
    }
}

/// What an Edition is sorted by.
pub open spec fn browse_key_of(e: EditionFields) -> BrowseKeyFields {
    BrowseKeyFields { title: e.title, language: e.language, disk_no: e.disk_no }
}

/// The order of browsed Editions.
pub open spec fn browse_lt() -> spec_fn(EditionFields, EditionFields) -> bool {
    |a: EditionFields, b: EditionFields| browse_key_lt(browse_key_of(a), browse_key_of(b))
}

/// Whether these are the Editions that browsing rows gives.
pub open spec fn is_browsed(
    rows: Seq<BrowseFields>,
    category: Option<Seq<char>>,
    language: Option<Seq<char>>,
    status: Option<Seq<char>>,
    list: Seq<EditionFields>,
) -> bool {
    crate::order::is_stable_sort(browse_lt(), shown(rows, category, language, status), list)
}

/// Whether a value is the one asked for.
fn asked_for(asked: Option<&str>, value: Option<&str>) -> (r: bool)
    ensures
        r == is_asked_for(crate::text::opt_str_view(asked), crate::text::opt_str_view(value)),
{
    match asked {
        None => true,
        Some(a) => {
            proof {
                reveal_strlit("");
                if a@.len() == 0 {
                    assert(a@ =~= ""@);
                }
            }
            same(a, "") || match value {
                Some(v) => same(v, a),
                None => false,
            }
        },
    }
}

/// The earliest year of artifacts, whether some is verified, and whether some is in
/// quarantine.
fn artifact_facts(a: &[BrowseArtifact]) -> (r: (Option<i32>, bool, bool))
    ensures
        r.0 == earliest_year(a@),
        r.1 == has_verified(a@),
        r.2 == has_quarantined(a@),
{
    let mut year: Option<i32> = None;
    let mut verified = false;
    let mut quarantined = false;
    let mut i: usize = 0;
    assert(a@.take(0) =~= Seq::empty());
    while i < a.len()
        invariant
            i <= a@.len(),
            year == earliest_year(a@.take(i as int)),
            verified <==> exists|j: int| 0 <= j < i && (#[trigger] a@[j]).verified == 1,
            quarantined <==> exists|j: int| 0 <= j < i && (#[trigger] a@[j]).quarantined,
        decreases a@.len() - i,
    {
        let x = a[i];
        assert(a@.take(i + 1).drop_last() =~= a@.take(i as int));
        assert(a@[i as int] == x);
        year = match (year, x.year) {
            (Some(m), Some(y)) => Some(
                if y < m {
                    y
                } else {
                    m
                },
            ),
            (None, y) => y,
            (m, None) => m,
        };
        verified = verified || x.verified == 1;
        quarantined = quarantined || x.quarantined;
        i += 1;
    }
    assert(a@.take(i as int) =~= a@);
    (year, verified, quarantined)
}

/// An Edition as it is shown, unless it is not.
fn show(
    row: &BrowseRow,
    category: Option<&str>,
    language: Option<&str>,
    status: Option<&str>,
) -> (r: Option<EditionView>)
    requires
        row.artifacts@.len() <= i64::MAX,
    ensures
        match r {
            Some(e) => is_shown(
                row@,
                crate::text::opt_str_view(category),
                crate::text::opt_str_view(language),
                crate::text::opt_str_view(status),
            ) && e@ == shown_as(row@),
            None => !is_shown(
                row@,
                crate::text::opt_str_view(category),
                crate::text::opt_str_view(language),
                crate::text::opt_str_view(status),
            ),
        },
{
    let (year, verified, quarantined) = artifact_facts(&row.artifacts);
    let of_status = match status {
        Some(s) => {
            if same(s, "verified") {
                verified
            } else if same(s, "unverified") {
                !verified
            } else if same(s, "quarantined") {
                quarantined
            } else {
                true
            }
        },
        None => true,
    };
    if !asked_for(category, Some(row.category.as_str())) || !asked_for(
        language,
        as_str_opt(&row.language),
    ) || !of_status {
        return None;
    }
    Some(
        EditionView {
            edition_id: row.edition_id,
            title_id: row.title_id,
            title: owned(&row.title),
            category: owned(&row.category),
            version: clone_opt(&row.version),
            language: clone_opt(&row.language),
            publisher: clone_opt(&row.publisher),
            qualifier: clone_opt(&row.qualifier),
            year,
            disk_no: row.disk_no,
            disk_count: row.disk_count,
            primary_uid: clone_opt(&row.primary_uid),
            variant_count: row.artifacts.len() as i64,
        },
    )
}

/// Browse Editions: those of the rows that have the category, the language and the
/// identification status (`verified` | `unverified` | `quarantined`) asked for, by title,
/// language and disk.
pub fn browse(
    rows: &[BrowseRow],
    category: Option<&str>,
    language: Option<&str>,
    status: Option<&str>,
) -> (r: Vec<EditionView>)
    requires
        forall|i: int| 0 <= i < rows@.len() ==> (#[trigger] rows@[i]).artifacts@.len() <= i64::MAX,
    ensures
        is_browsed(
            browse_views(rows@),
            crate::text::opt_str_view(category),
            crate::text::opt_str_view(language),
            crate::text::opt_str_view(status),
            edition_views(r@),
        ),
{
    let ghost rv = browse_views(rows@);
    let ghost c = crate::text::opt_str_view(category);
    let ghost l = crate::text::opt_str_view(language);
    let ghost s = crate::text::opt_str_view(status);
    let mut views: Vec<EditionView> = Vec::new();
    let mut keys: Vec<BrowseKey> = Vec::new();
    let mut n: usize = 0;
    assert(rv.take(0) =~= Seq::empty());
    assert(edition_views(views@) =~= Seq::empty());
    while n < rows.len()
        invariant
            n <= rows@.len(),
            rv == browse_views(rows@),
            c == crate::text::opt_str_view(category),
            l == crate::text::opt_str_view(language),
            s == crate::text::opt_str_view(status),
            forall|i: int|
                0 <= i < rows@.len() ==> (#[trigger] rows@[i]).artifacts@.len() <= i64::MAX,
            edition_views(views@) == shown(rv.take(n as int), c, l, s),
            keys@.len() == views@.len(),
            forall|k: int|
                0 <= k < keys@.len() ==> (#[trigger] keys@[k])@ == browse_key_of(views@[k]@),
        decreases rows@.len() - n,
    {
        proof {
            assert(rv.take(n + 1).drop_last() =~= rv.take(n as int));
            assert(rv.take(n + 1).last() == rows@[n as int]@);
        }
        let ghost had = views@;
        match show(&rows[n], category, language, status) {
            Some(e) => {
                keys.push(
                    BrowseKey {
                        title: owned(&e.title),
                        language: clone_opt(&e.language),
                        disk_no: e.disk_no,
                    },
                );
                views.push(e);
                assert(edition_views(views@) =~= edition_views(had).push(e@));
            },
            None => {},
        }
        n += 1;
    }
    assert(rv.take(n as int) =~= rv);
    let ghost items = edition_views(views@);
    let order = sorted_positions(&keys);
    let mut r: Vec<EditionView> = Vec::new();
    let mut k: usize = 0;
    while k < order.len()
        invariant
            k <= order@.len(),
            items == edition_views(views@),
            keys@.len() == views@.len(),
            crate::order::is_stable_order(keys@, order@),
            r@.len() == k,
            forall|q: int| 0 <= q < k ==> (#[trigger] r@[q])@ == items[order@[q] as int],
        decreases order@.len() - k,
    {
        assert(order@[k as int] < keys@.len());
        let v = &views[order[k]];
        assert(items[order@[k as int] as int] == v@);
        r.push(v.copy());
        k += 1;
    }
    proof {
        let out = edition_views(r@);
        assert forall|i: int, j: int|
            0 <= i < items.len() && 0 <= j < items.len() implies browse_lt()(
            #[trigger] items[i],
            #[trigger] items[j],
        ) == crate::order::key_lt::<BrowseKey>(keys@[i]@, keys@[j]@) by {
            assert(keys@[i]@ == browse_key_of(items[i]) && keys@[j]@ == browse_key_of(items[j]));
        }
        assert forall|i: int| 0 <= i < out.len() implies (#[trigger] order@[i]) < items.len()
            && out[i] == items[order@[i] as int] by {
            assert(r@[i]@ == items[order@[i] as int]);
        }
        crate::order::lemma_stable_sort(browse_lt(), items, keys@, order@, out);
    }
    r
}

// --- The schema -------------------------------------------------------------

/// Whether an `edition` table with these columns was created before `qualifier`, so
/// that it must be rebuilt. Current tables already have the column.
pub fn lacks_qualifier(columns: &[String]) -> (r: bool)
    ensures
        r <==> !crate::text::views(columns@).contains("qualifier"@),
{
    !lists_text(columns, "qualifier")
}

// --- UIDs -------------------------------------------------------------------

/// What an optional owner is.
pub open spec fn owner_view(o: Option<String>) -> Option<Seq<char>> {
    crate::text::opt_view(o)
}

/// Whether looking up the owner of a UID may give this.
pub open spec fn may_own<F: Fn(&str) -> Result<Option<String>, Error>>(
    owner_of: F,
    uid: Seq<char>,
    owner: Result<Option<String>, Error>,
) -> bool {
    exists|u: &str| u@ == uid && #[trigger] call_ensures(owner_of, (u,), owner)
}

/// Whether looking up a UID may give an owner that collides with `sha1`.
pub open spec fn may_be_taken<F: Fn(&str) -> Result<Option<String>, Error>>(
    owner_of: F,
    sha1: Seq<char>,
    uid: Seq<char>,
) -> bool {
    exists|o: Option<String>| #[trigger]
        may_own(owner_of, uid, Ok(o)) && crate::identity::collides(sha1, owner_view(o))
}

/// Whether every prefix from [`UID_LEN`] up to `len` bytes may be taken.
pub open spec fn taken_up_to<F: Fn(&str) -> Result<Option<String>, Error>>(
    owner_of: F,
    sha1: Seq<char>,
    len: nat,
) -> bool {
    forall|k: nat|
        UID_LEN <= k < len ==> k < crate::identity::byte_len(sha1) && may_be_taken(
            owner_of,
            sha1,
            #[trigger] crate::identity::prefix(sha1, k),
        )
}

/// Whether the prefix of `len` bytes ends the search: it is free, or is the full SHA1.
pub open spec fn ends_search<F: Fn(&str) -> Result<Option<String>, Error>>(
    owner_of: F,
    sha1: Seq<char>,
    len: nat,
) -> bool {
    exists|o: Option<String>| #[trigger]
        may_own(owner_of, crate::identity::prefix(sha1, len), Ok(o)) && (
        !crate::identity::collides(sha1, owner_view(o)) || len >= crate::identity::byte_len(sha1))
}

/// Whether this is what looking for a UID gives: the shortest prefix that no other
/// SHA1 owns, or the error that looking up a prefix ended in.
pub open spec fn is_uid_found<F: Fn(&str) -> Result<Option<String>, Error>>(
    owner_of: F,
    sha1: Seq<char>,
    len: nat,
    r: Result<String, Error>,
) -> bool {
    &&& UID_LEN <= len
    &&& taken_up_to(owner_of, sha1, len)
    &&& match r {
        Ok(uid) => uid@ == crate::identity::prefix(sha1, len) && ends_search(owner_of, sha1, len),
        Err(e) => may_own(owner_of, crate::identity::prefix(sha1, len), Err(e)),
    }
}

/// Resolve a unique UID for `sha1`, extending the prefix past any collision
/// with a *different* artifact. `owner_of` looks up the SHA1 of the artifact that has
/// a UID.
pub fn unique_uid_for<F: Fn(&str) -> Result<Option<String>, Error>>(sha1: &str, owner_of: F) -> (r:
    Result<String, Error>)
    requires
        forall|u: &str| #[trigger] call_requires(owner_of, (u,)),
        forall|len: nat| UID_LEN <= len ==> #[trigger] crate::identity::cuts_cleanly(sha1@, len),
    ensures
        exists|len: nat| #[trigger] is_uid_found(owner_of, sha1@, len, r),
{
    let mut len = UID_LEN;
    let ghost total = crate::identity::byte_len(sha1@);
    loop
        invariant
            UID_LEN <= len,
            total == crate::identity::byte_len(sha1@),
            len == UID_LEN || len <= total,
            forall|u: &str| #[trigger] call_requires(owner_of, (u,)),
            forall|k: nat|
                UID_LEN <= k ==> #[trigger] crate::identity::cuts_cleanly(sha1@, k),
            taken_up_to(owner_of, sha1@, len as nat),
        decreases total + UID_LEN - len,
    {
        assert(crate::identity::cuts_cleanly(sha1@, len as nat));
        let candidate = uid_from_sha1(sha1, len);
        let found = owner_of(&candidate);
        assert(may_own(owner_of, candidate@, found));
        match found {
            Err(e) => {
                let r: Result<String, Error> = Err(e);
                assert(is_uid_found(owner_of, sha1@, len as nat, r));
                return r;
            },
            Ok(owner) => {
                match uid_step(sha1, len, as_str_opt(&owner)) {
                    UidStep::Extend => {
                        assert(may_own(owner_of, candidate@, Ok(owner)));
                        assert(may_be_taken(
                            owner_of,
                            sha1@,
                            crate::identity::prefix(sha1@, len as nat),
                        ));
                        let size = sha1.as_bytes().len();
                        len += 1;
                    },
                    UidStep::Take => {
                        assert(may_own(owner_of, candidate@, Ok(owner)));
                        assert(ends_search(owner_of, sha1@, len as nat));
                        let r: Result<String, Error> = Ok(candidate);
                        assert(is_uid_found(owner_of, sha1@, len as nat, r));
                        return r;
                    },
                }
            },
        }
    }
}

// --- Laws -------------------------------------------------------------------

/// Whether a lookup tells the SHA1 of the artifact that has a UID, by a table of them.
pub open spec fn looks_up<F: Fn(&str) -> Result<Option<String>, Error>>(
    owner_of: F,
    table: spec_fn(Seq<char>) -> Option<Seq<char>>,
) -> bool {
    forall|u: &str, r: Result<Option<String>, Error>| #[trigger]
        call_ensures(owner_of, (u,), r) && r is Ok ==> owner_view(r->Ok_0) == table(u@)
}

/// Whether the UIDs in a table begin the SHA1s of their artifacts, which are `n` long.
pub open spec fn holds_prefixes(table: spec_fn(Seq<char>) -> Option<Seq<char>>, n: nat) -> bool {
    forall|u: Seq<char>| #[trigger]
        table(u) is Some ==> (table(u)->0).len() == n && crate::text::starts_with(table(u)->0, u)
}

/// UIDs stay unique: the UID that is found for a SHA1 is no other artifact's.
pub proof fn found_uid_is_unique<F: Fn(&str) -> Result<Option<String>, Error>>(
    owner_of: F,
    table: spec_fn(Seq<char>) -> Option<Seq<char>>,
    sha1: Seq<char>,
    len: nat,
    uid: String,
)
    requires
        crate::identity::is_ascii(sha1),
        looks_up(owner_of, table),
        holds_prefixes(table, sha1.len()),
        is_uid_found(owner_of, sha1, len, Ok(uid)),
    ensures
        !crate::identity::collides(sha1, table(uid@)),
        crate::text::starts_with(sha1, uid@),
{
    crate::identity::uid_begins_sha1(sha1, len);
    crate::identity::lemma_ascii_prefix(sha1, len);
    let o = choose|o: Option<String>| #[trigger]
        may_own(owner_of, crate::identity::prefix(sha1, len), Ok(o)) && (
        !crate::identity::collides(sha1, owner_view(o)) || len >= crate::identity::byte_len(sha1));
    let u = choose|u: &str|
        u@ == crate::identity::prefix(sha1, len) && #[trigger] call_ensures(
            owner_of,
            (u,),
            Ok(o),
        );
    assert(owner_view(o) == table(u@));
    if len >= crate::identity::byte_len(sha1) {
        assert(sha1.take(sha1.len() as int) =~= sha1);
        if table(sha1) is Some {
            let x = table(sha1)->0;
            assert(x.subrange(0, x.len() as int) =~= x);
        }
    }
}

/// Each Edition that is shown is that of a row, and each row that is to be shown is.
proof fn lemma_shown(
    rows: Seq<BrowseFields>,
    category: Option<Seq<char>>,
    language: Option<Seq<char>>,
    status: Option<Seq<char>>,
)
    ensures
        shown(rows, category, language, status).len() <= rows.len(),
        forall|e: EditionFields| #[trigger]
            shown(rows, category, language, status).contains(e) <==> exists|i: int|
                0 <= i < rows.len() && is_shown(#[trigger] rows[i], category, language, status)
                    && e == shown_as(rows[i]),
    decreases rows.len(),
{
    if rows.len() > 0 {
        let init = rows.drop_last();
        let rest = shown(init, category, language, status);
        let all = shown(rows, category, language, status);
        let n = rows.len() - 1;
        lemma_shown(init, category, language, status);
        assert forall|e: EditionFields| #[trigger]
            all.contains(e) <==> exists|i: int|
                0 <= i < rows.len() && is_shown(#[trigger] rows[i], category, language, status)
                    && e == shown_as(rows[i]) by {
            assert(rest.contains(e) <==> exists|i: int|
                0 <= i < init.len() && is_shown(#[trigger] init[i], category, language, status)
                    && e == shown_as(init[i]));
            if all.contains(e) {
                let k = choose|k: int| 0 <= k < all.len() && all[k] == e;
                if k < rest.len() {
                    assert(rest[k] == e);
                    let i = choose|i: int|
                        0 <= i < init.len() && is_shown(
                            #[trigger] init[i],
                            category,
                            language,
                            status,
                        ) && e == shown_as(init[i]);
                    assert(rows[i] == init[i]);
                } else {
                    assert(is_shown(rows[n], category, language, status));
                }
            }
            if exists|i: int|
                0 <= i < rows.len() && is_shown(#[trigger] rows[i], category, language, status)
                    && e == shown_as(rows[i]) {
                let i = choose|i: int|
                    0 <= i < rows.len() && is_shown(
                        #[trigger] rows[i],
                        category,
                        language,
                        status,
                    ) && e == shown_as(rows[i]);
                if i < n {
                    assert(init[i] == rows[i]);
                    assert(rest.contains(e));
                    let k = choose|k: int| 0 <= k < rest.len() && rest[k] == e;
                    assert(all[k] == e);
                } else {
                    assert(all[rest.len() as int] == e);
                }
            }
        }
    }
}

/// Browsing shows exactly the Editions that have the category, the language and the status
/// asked for, each with the number of its artifacts, by title, language and disk.
pub proof fn browsing_is_exact(
    rows: Seq<BrowseFields>,
    category: Option<Seq<char>>,
    language: Option<Seq<char>>,
    status: Option<Seq<char>>,
    list: Seq<EditionFields>,
)
    requires
        rows.len() <= usize::MAX,
        is_browsed(rows, category, language, status, list),
    ensures
        forall|e: EditionFields| #[trigger]
            list.contains(e) <==> exists|i: int|
                0 <= i < rows.len() && is_shown(#[trigger] rows[i], category, language, status)
                    && e == shown_as(rows[i]),
        forall|i: int, j: int|
            0 <= i < j < list.len() ==> !browse_key_lt(
                browse_key_of(#[trigger] list[j]),
                browse_key_of(#[trigger] list[i]),
            ),
        forall|i: int|
            0 <= i < list.len() ==> is_asked_for(category, Some((#[trigger] list[i]).category))
                && is_asked_for(language, list[i].language),
{
    let items = shown(rows, category, language, status);
    lemma_shown(rows, category, language, status);
    crate::order::lemma_sorted_has(browse_lt(), items, list);
    assert forall|i: int, j: int| 0 <= i < j < list.len() implies !browse_key_lt(
        browse_key_of(#[trigger] list[j]),
        browse_key_of(#[trigger] list[i]),
    ) by {
        BrowseKey::asymmetric(browse_key_of(list[i]), browse_key_of(list[j]));
        assert(browse_lt()(list[i], list[j]) || !browse_lt()(list[j], list[i]));
    }
    assert forall|e: EditionFields| #[trigger]
        list.contains(e) <==> exists|i: int|
            0 <= i < rows.len() && is_shown(#[trigger] rows[i], category, language, status) && e
                == shown_as(rows[i]) by {
        assert(list.contains(e) <==> items.contains(e));
    }
    assert forall|i: int| 0 <= i < list.len() implies is_asked_for(
        category,
        Some((#[trigger] list[i]).category),
    ) && is_asked_for(language, list[i].language) by {
        assert(list.contains(list[i]));
        let k = choose|k: int|
            0 <= k < rows.len() && is_shown(#[trigger] rows[k], category, language, status)
                && list[i] == shown_as(rows[k]);
    }
}

/// The statuses are different texts.
proof fn lemma_statuses_differ()
    ensures
        "verified"@ != "unverified"@,
{
    reveal_strlit("verified");
    reveal_strlit("unverified");
    assert("verified"@.len() != "unverified"@.len());
}

/// As many Editions are shown as are verified and unverified.
proof fn lemma_shown_counts(
    rows: Seq<BrowseFields>,
    category: Option<Seq<char>>,
    language: Option<Seq<char>>,
)
    ensures
        shown(rows, category, language, None).len() == shown(
            rows,
            category,
            language,
            Some("verified"@),
        ).len() + shown(rows, category, language, Some("unverified"@)).len(),
    decreases rows.len(),
{
    lemma_statuses_differ();
    if rows.len() > 0 {
        lemma_shown_counts(rows.drop_last(), category, language);
    }
}

/// The verified and the unverified Editions make up the whole list, and no Edition is both:
/// one is verified exactly where it has a verified artifact.
pub proof fn verified_and_unverified_make_up_all(
    rows: Seq<BrowseFields>,
    category: Option<Seq<char>>,
    language: Option<Seq<char>>,
    all: Seq<EditionFields>,
    verified: Seq<EditionFields>,
    unverified: Seq<EditionFields>,
)
    requires
        rows.len() <= usize::MAX,
        forall|i: int, j: int|
            0 <= i < j < rows.len() ==> (#[trigger] rows[i]).edition_id != (
            #[trigger] rows[j]).edition_id,
        is_browsed(rows, category, language, None, all),
        is_browsed(rows, category, language, Some("verified"@), verified),
        is_browsed(rows, category, language, Some("unverified"@), unverified),
    ensures
        all.len() == verified.len() + unverified.len(),
        forall|e: EditionFields| #[trigger]
            all.contains(e) <==> verified.contains(e) || unverified.contains(e),
        forall|e: EditionFields| !(#[trigger] verified.contains(e) && unverified.contains(e)),
        forall|i: int|
            0 <= i < rows.len() && all.contains(shown_as(#[trigger] rows[i])) ==> (
            verified.contains(shown_as(rows[i])) <==> has_verified(rows[i].artifacts)),
{
    lemma_statuses_differ();
    lemma_shown(rows, category, language, None);
    lemma_shown(rows, category, language, Some("verified"@));
    lemma_shown(rows, category, language, Some("unverified"@));
    lemma_shown_counts(rows, category, language);
    browsing_is_exact(rows, category, language, None, all);
    browsing_is_exact(rows, category, language, Some("verified"@), verified);
    browsing_is_exact(rows, category, language, Some("unverified"@), unverified);
    crate::order::lemma_sorted_has(browse_lt(), shown(rows, category, language, None), all);
    crate::order::lemma_sorted_has(
        browse_lt(),
        shown(rows, category, language, Some("verified"@)),
        verified,
    );
    crate::order::lemma_sorted_has(
        browse_lt(),
        shown(rows, category, language, Some("unverified"@)),
        unverified,
    );
    assert forall|e: EditionFields| #[trigger]
        all.contains(e) <==> verified.contains(e) || unverified.contains(e) by {
        if all.contains(e) {
            let i = choose|i: int|
                0 <= i < rows.len() && is_shown(#[trigger] rows[i], category, language, None) && e
                    == shown_as(rows[i]);
            assert(is_shown(rows[i], category, language, Some("verified"@)) || is_shown(
                rows[i],
                category,
                language,
                Some("unverified"@),
            ));
        }
        if verified.contains(e) {
            let i = choose|i: int|
                0 <= i < rows.len() && is_shown(
                    #[trigger] rows[i],
                    category,
                    language,
                    Some("verified"@),
                ) && e == shown_as(rows[i]);
            assert(is_shown(rows[i], category, language, None));
        }
        if unverified.contains(e) {
            let i = choose|i: int|
                0 <= i < rows.len() && is_shown(
                    #[trigger] rows[i],
                    category,
                    language,
                    Some("unverified"@),
                ) && e == shown_as(rows[i]);
            assert(is_shown(rows[i], category, language, None));
        }
    }
    assert forall|e: EditionFields| !(#[trigger] verified.contains(e) && unverified.contains(e)) by {
        if verified.contains(e) && unverified.contains(e) {
            let i = choose|i: int|
                0 <= i < rows.len() && is_shown(
                    #[trigger] rows[i],
                    category,
                    language,
                    Some("verified"@),
                ) && e == shown_as(rows[i]);
            let j = choose|j: int|
                0 <= j < rows.len() && is_shown(
                    #[trigger] rows[j],
                    category,
                    language,
                    Some("unverified"@),
                ) && e == shown_as(rows[j]);
            assert(rows[i].edition_id == rows[j].edition_id);
            assert(i == j);
        }
    }
    assert forall|i: int|
        0 <= i < rows.len() && all.contains(shown_as(#[trigger] rows[i])) implies (
    verified.contains(shown_as(rows[i])) <==> has_verified(rows[i].artifacts)) by {
        let e = shown_as(rows[i]);
        let k = choose|k: int|
            0 <= k < rows.len() && is_shown(#[trigger] rows[k], category, language, None) && e
                == shown_as(rows[k]);
        assert(rows[i].edition_id == rows[k].edition_id);
        assert(i == k);
        if has_verified(rows[i].artifacts) {
            assert(is_shown(rows[i], category, language, Some("verified"@)));
        } else {
            assert(is_shown(rows[i], category, language, Some("unverified"@)));
            assert(unverified.contains(e));
        }
    }
}

/// An artifact is shown with the columns of its row, its canonical name made of them; it is
/// verified exactly where its column is not zero. Its title is `Unknown` in the name where the
/// row has none, and its disk stands in the name where the row has both of its numbers.
pub proof fn artifact_shows_its_row(r: RowFields)
    ensures
        artifact_of(r).uid == r.uid,
        artifact_of(r).display_title == r.display_title,
        artifact_of(r).dump_type == r.dump_type,
        artifact_of(r).crack_group == r.crack_group,
        artifact_of(r).trainer == r.trainer,
        artifact_of(r).year == r.year,
        artifact_of(r).verified <==> r.verified != 0,
        !artifact_of(r).is_primary,
        artifact_of(r).tosec_name == r.tosec_name,
        artifact_of(r).blob_sha1 == r.blob_sha1,
        artifact_of(r).crc32 == r.crc32,
        artifact_of(r).md5 == r.md5,
        artifact_of(r).alt_index == r.alt_index,
        artifact_of(r).byte_len is None,
        artifact_of(r).version == r.version,
        artifact_of(r).language == r.language,
        artifact_of(r).disk_no == r.disk_no,
        artifact_of(r).disk_count == r.disk_count,
        r.disk_no is Some && r.disk_count is Some && r.display_title is Some ==> artifact_of(
            r,
        ).canonical_name == crate::naming::canonical_text(
            r.display_title->0,
            r.version,
            r.language,
            Some((r.disk_no->0, r.disk_count->0)),
            r.uid,
        ),
        (r.disk_no is None || r.disk_count is None) && r.display_title is Some ==> artifact_of(
            r,
        ).canonical_name == crate::naming::canonical_text(
            r.display_title->0,
            r.version,
            r.language,
            None,
            r.uid,
        ),
        r.display_title is None ==> artifact_of(r).canonical_name == artifact_of(
            RowFields { display_title: Some("Unknown"@), ..r },
        ).canonical_name,
{
}

/// An artifact is marked primary exactly where its UID is the Edition's, and marking changes
/// nothing else.
pub proof fn primary_mark_is_by_uid(v: ArtifactFields, primary: Option<Seq<char>>)
    ensures
        marked(v, primary).is_primary <==> primary == Some(v.uid),
        marked(v, primary) == (ArtifactFields { is_primary: marked(v, primary).is_primary, ..v }),
{
}

/// Dump facts are read off their columns: a flag is set exactly where its column is not zero.
pub proof fn dump_facts_are_read_off_columns(r: DumpRowFields)
    ensures
        dump_from(r).bad <==> r.bad != 0,
        dump_from(r).virus <==> r.virus != 0,
        dump_from(r).over <==> r.over != 0,
        dump_from(r).under <==> r.under != 0,
        dump_from(r).verified_good <==> r.verified_good != 0,
        dump_from(r).crack_group == r.crack_group,
        dump_from(r).trainer == r.trainer,
        dump_from(r).alt_index == r.alt_index,
        dump_from(r).modifications == r.modifications,
        dump_from(r).lineage == r.lineage,
        r.dump_type matches Some(t) ==> dump_from(r).dump_type == crate::edition::dump_of_label(t),
{
}

/// The year of an Edition is the earliest that one of its artifacts has; it has none exactly
/// where none of them has.
pub proof fn year_is_the_earliest(a: Seq<BrowseArtifact>)
    ensures
        match earliest_year(a) {
            None => forall|i: int| 0 <= i < a.len() ==> (#[trigger] a[i]).year is None,
            Some(y) => (exists|i: int| 0 <= i < a.len() && (#[trigger] a[i]).year == Some(y))
                && forall|i: int|
                0 <= i < a.len() ==> ((#[trigger] a[i]).year matches Some(z) ==> y <= z),
        },
    decreases a.len(),
{
    if a.len() > 0 {
        let init = a.drop_last();
        let n = init.len() as int;
        year_is_the_earliest(init);
        assert(forall|i: int| 0 <= i < n ==> #[trigger] a[i] == init[i]);
        assert(a[n] == a.last());
        if let Some(y) = earliest_year(init) {
            let i = choose|i: int| 0 <= i < n && (#[trigger] init[i]).year == Some(y);
            assert(a[i].year == Some(y));
        }
    }
}

/// An Edition is shown with the columns of its row, the earliest year of its artifacts and the
/// number of them.
pub proof fn edition_shows_its_row(row: BrowseFields)
    requires
        row.artifacts.len() <= i64::MAX,
    ensures
        shown_as(row).edition_id == row.edition_id,
        shown_as(row).title_id == row.title_id,
        shown_as(row).title == row.title,
        shown_as(row).category == row.category,
        shown_as(row).version == row.version,
        shown_as(row).language == row.language,
        shown_as(row).publisher == row.publisher,
        shown_as(row).qualifier == row.qualifier,
        shown_as(row).year == earliest_year(row.artifacts),
        shown_as(row).disk_no == row.disk_no,
        shown_as(row).disk_count == row.disk_count,
        shown_as(row).primary_uid == row.primary_uid,
        shown_as(row).variant_count == row.artifacts.len(),
{
}

/// An Edition is listed exactly where it is of the category and the language asked for, if
/// any, and has the status asked for: `verified` where an artifact of it is verified,
/// `unverified` where none is, `quarantined` where one is quarantined. Any other status, or
/// none, is no condition.
pub proof fn filters_are_conditions(
    row: BrowseFields,
    category: Option<Seq<char>>,
    language: Option<Seq<char>>,
    status: Option<Seq<char>>,
)
    ensures
        is_shown(row, category, language, status) <==> {
            &&& category is None || category->0.len() == 0 || row.category == category->0
            &&& language is None || language->0.len() == 0 || row.language == language
            &&& status == Some("verified"@) ==> exists|i: int|
                0 <= i < row.artifacts.len() && (#[trigger] row.artifacts[i]).verified == 1
            &&& status == Some("unverified"@) ==> forall|i: int|
                0 <= i < row.artifacts.len() ==> (#[trigger] row.artifacts[i]).verified != 1
            &&& status == Some("quarantined"@) ==> exists|i: int|
                0 <= i < row.artifacts.len() && (#[trigger] row.artifacts[i]).quarantined
        },
{
    reveal_strlit("verified");
    reveal_strlit("unverified");
    reveal_strlit("quarantined");
    assert("verified"@.len() == 8 && "unverified"@.len() == 10 && "quarantined"@.len() == 11);
}

/// Editions are listed by title, then language, then disk: the first of these that differs
/// decides. Absence comes first.
pub proof fn first_different_field_orders_editions(a: BrowseKeyFields, b: BrowseKeyFields)
    ensures
        !browse_key_lt(a, a),
        crate::text::text_lt(a.title, b.title) ==> browse_key_lt(a, b),
        a.title == b.title && a.language is None && b.language is Some ==> browse_key_lt(a, b),
        a.title == b.title && a.language is Some && b.language is Some && crate::text::text_lt(
            a.language->0,
            b.language->0,
        ) ==> browse_key_lt(a, b),
        a.title == b.title && a.language == b.language && (a.disk_no is None && b.disk_no is Some
            || (a.disk_no is Some && b.disk_no is Some && a.disk_no->0 < b.disk_no->0))
            ==> browse_key_lt(a, b),
{
    BrowseKey::asymmetric(a, a);
}

/// A search text is looked for anywhere: with anything before it and anything after it.
pub proof fn search_looks_anywhere(q: Seq<char>)
    ensures
        like_pattern(Some(q)) == "%"@ + q + "%"@,
        like_pattern(None) == "%"@,
{
    reveal_strlit("%");
    assert("%"@ =~= seq!['%']);
}

/// A UID is ten characters long where no other bytes can own those, and no longer than it has
/// to be: every shorter form from ten characters on can be owned by other bytes.
pub proof fn uid_is_as_short_as_can_be<F: Fn(&str) -> Result<Option<String>, Error>>(
    owner_of: F,
    sha1: Seq<char>,
    len: nat,
    r: Result<String, Error>,
    k: nat,
)
    requires
        is_uid_found(owner_of, sha1, len, r),
    ensures
        len >= 10,
        10 <= k < len ==> may_be_taken(owner_of, sha1, crate::identity::prefix(sha1, k)),
        !may_be_taken(owner_of, sha1, crate::identity::prefix(sha1, 10)) ==> len == 10,
        r matches Ok(uid) ==> uid@ == crate::identity::prefix(sha1, len),
{
    assert(crate::identity::prefix(sha1, k) == crate::identity::prefix(sha1, k));
    assert(crate::identity::prefix(sha1, 10) == crate::identity::prefix(sha1, 10));
}

/// Against a table of owners: every form of a UID shorter than the one found, from ten
/// characters on, is owned by other bytes.
pub proof fn shorter_uids_are_taken<F: Fn(&str) -> Result<Option<String>, Error>>(
    owner_of: F,
    table: spec_fn(Seq<char>) -> Option<Seq<char>>,
    sha1: Seq<char>,
    len: nat,
    r: Result<String, Error>,
    k: nat,
)
    requires
        is_uid_found(owner_of, sha1, len, r),
        looks_up(owner_of, table),
        10 <= k < len,
    ensures
        table(crate::identity::prefix(sha1, k)) is Some,
        table(crate::identity::prefix(sha1, k)) != Some(sha1),
{
    let uid = crate::identity::prefix(sha1, k);
    assert(may_be_taken(owner_of, sha1, uid));
    let o = choose|o: Option<String>| #[trigger]
        may_own(owner_of, uid, Ok(o)) && crate::identity::collides(sha1, owner_view(o));
    let u = choose|u: &str| u@ == uid && #[trigger] call_ensures(owner_of, (u,), Ok(o));
    assert(owner_view(o) == table(u@));
}

/// A blank artifact has nothing: no Edition, no title, no dump facts, no mark, and no hashes.
pub proof fn blank_artifact_has_nothing()
    ensures
        ({
            let b = blank_artifact();
            &&& b.uid.len() == 0 && b.container.len() == 0 && b.blob_sha1.len() == 0
            &&& b.hashes.sha1.len() == 0 && b.hashes.crc32.len() == 0 && b.hashes.md5.len() == 0
            &&& b.edition_id is None && b.display_title is None && b.year is None
            &&& b.dump_type is None && b.crack_group is None && b.trainer is None && b.lineage is None
            &&& !b.bad && !b.virus && !b.over && !b.under && !b.verified_good && !b.verified
            &&& b.alt_index == 0 && b.modifications == 0
            &&& b.tosec_name is None && b.orig_filename is None && b.decoded_sha1 is None
        }),
{
}

/// Editions that are shown with one title, language and disk come in the order of their rows.
pub proof fn browsing_keeps_the_order_of_equals(
    rows: Seq<BrowseFields>,
    category: Option<Seq<char>>,
    language: Option<Seq<char>>,
    status: Option<Seq<char>>,
    list: Seq<EditionFields>,
    a: int,
    b: int,
) -> (at: (int, int))
    requires
        is_browsed(rows, category, language, status, list),
        shown(rows, category, language, status).len() <= usize::MAX,
        0 <= a < b < shown(rows, category, language, status).len(),
        shown(rows, category, language, status)[a].title == shown(
            rows,
            category,
            language,
            status,
        )[b].title,
        shown(rows, category, language, status)[a].language == shown(
            rows,
            category,
            language,
            status,
        )[b].language,
        shown(rows, category, language, status)[a].disk_no == shown(
            rows,
            category,
            language,
            status,
        )[b].disk_no,
    ensures
        0 <= at.0 < at.1 < list.len(),
        list[at.0] == shown(rows, category, language, status)[a],
        list[at.1] == shown(rows, category, language, status)[b],
{
    let items = shown(rows, category, language, status);
    let k = browse_key_of(items[a]);
    BrowseKey::asymmetric(k, k);
    assert(browse_key_of(items[b]) == k);
    crate::order::sorting_keeps_the_order_of_equals(browse_lt(), items, list, a, b)
}

/// What is shown goes row by row: of two lists of rows together, what is shown of the one and
/// then what is shown of the other.
pub proof fn rows_are_shown_one_by_one(
    a: Seq<BrowseFields>,
    b: Seq<BrowseFields>,
    row: BrowseFields,
    category: Option<Seq<char>>,
    language: Option<Seq<char>>,
    status: Option<Seq<char>>,
)
    ensures
        shown(a + b, category, language, status) == shown(a, category, language, status) + shown(
            b,
            category,
            language,
            status,
        ),
        is_shown(row, category, language, status) ==> shown(seq![row], category, language, status)
            == seq![shown_as(row)],
        !is_shown(row, category, language, status) ==> shown(
            seq![row],
            category,
            language,
            status,
        ).len() == 0,
    decreases b.len(),
{
    let one = seq![row];
    assert(one.drop_last() =~= Seq::<BrowseFields>::empty());
    reveal_with_fuel(shown, 2);
    if is_shown(row, category, language, status) {
        assert(shown(one, category, language, status) =~= seq![shown_as(row)]);
    }
    let sa = shown(a, category, language, status);
    let sb = shown(b, category, language, status);
    if b.len() == 0 {
        assert(a + b =~= a);
        assert(sa + sb =~= sa);
    } else {
        rows_are_shown_one_by_one(a, b.drop_last(), row, category, language, status);
        assert((a + b).drop_last() =~= a + b.drop_last());
        assert((a + b).last() == b.last());
        assert(shown(a + b, category, language, status) =~= sa + sb);
    }
}

} // verus!
