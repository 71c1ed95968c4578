//! Browsing releases: multi-disk Editions rolled up into Sets.

use vstd::prelude::*;

use crate::db::EditionView;
use crate::naming::version_key;
use crate::order::{group_by, sorted_positions, DiskKey, Ordered};
use crate::ranking::{copy_disks, lineage_coverage, DiskMember, LineageCoverage};
use crate::service::primaries::SetRows;
use crate::service::sets::{gather_set, lineage_class};
use crate::text::{
    clone_opt, opt_num_before, opt_text_before, owned, same, same_opt, text_before,
};

verus! {

// --- What is listed ---------------------------------------------------------

/// A stored screenshot of a title.
#[derive(Debug, Clone, PartialEq, Eq)]
pub struct Screenshot {
    pub sha1: String,
    pub caption: Option<String>,
}

/// What a [`Screenshot`] holds.
#[verifier::ext_equal]
pub struct ShotFields {
    pub sha1: Seq<char>,
    pub caption: Option<Seq<char>>,
}

impl View for Screenshot {
    type V = ShotFields;

    open spec fn view(&self) -> ShotFields {
        ShotFields {
            sha1: self.sha1@,
            caption: crate::text::opt_view(self.caption),
        }
    }
}

impl Screenshot {
    /// A copy of this record.
    pub fn copy(&self) -> (r: Screenshot)
        ensures
            r@ == self@,
    {
        Screenshot {
            sha1: owned(&self.sha1),
            caption: clone_opt(&self.caption),
        }
    }
}

/// What screenshots hold.
pub open spec fn shot_views(s: Seq<Screenshot>) -> Seq<ShotFields> {
    s.map_values(|x: Screenshot| x@)
}

/// A copy of screenshots.
fn copy_shots(s: &[Screenshot]) -> (r: Vec<Screenshot>)
    ensures
        shot_views(r@) == shot_views(s@),
{
    let mut r: Vec<Screenshot> = Vec::new();
    let mut i: usize = 0;
    while i < s.len()
        invariant
            i <= s@.len(),
            r@.len() == i,
            forall|k: int| 0 <= k < i ==> (#[trigger] r@[k])@ == s@[k]@,
        decreases s@.len() - i,
    {
        r.push(s[i].copy());
        i += 1;
    }
    assert(shot_views(r@) =~= shot_views(s@));
    r
}

/// Merged online metadata of a title.
#[derive(Debug, Clone, PartialEq, Eq)]
pub struct TitleMeta {
    pub genre: Option<String>,
    pub description: Option<String>,
    pub year: Option<i32>,
    pub sources: Option<String>,
    pub external_url: Option<String>,
    pub cover_sha1: Option<String>,
    pub screenshots: Vec<Screenshot>,
}

/// What a [`TitleMeta`] holds.
#[verifier::ext_equal]
pub struct MetaFields {
    pub genre: Option<Seq<char>>,
    pub description: Option<Seq<char>>,
    pub year: Option<i32>,
    pub sources: Option<Seq<char>>,
    pub external_url: Option<Seq<char>>,
    pub cover_sha1: Option<Seq<char>>,
    pub screenshots: Seq<ShotFields>,
}

impl View for TitleMeta {
    type V = MetaFields;

    open spec fn view(&self) -> MetaFields {
        MetaFields {
            genre: crate::text::opt_view(self.genre),
            description: crate::text::opt_view(self.description),
            year: self.year,
            sources: crate::text::opt_view(self.sources),
            external_url: crate::text::opt_view(self.external_url),
            cover_sha1: crate::text::opt_view(self.cover_sha1),
            screenshots: shot_views(self.screenshots@),
        }
    }
}

impl TitleMeta {
    /// A copy of this record.
    pub fn copy(&self) -> (r: TitleMeta)
        ensures
            r@ == self@,
    {
        TitleMeta {
            genre: clone_opt(&self.genre),
            description: clone_opt(&self.description),
            year: self.year,
            sources: clone_opt(&self.sources),
            external_url: clone_opt(&self.external_url),
            cover_sha1: clone_opt(&self.cover_sha1),
            screenshots: copy_shots(&self.screenshots),
        }
    }
}

/// The cover of a title: its first screenshot, if it has one.
pub open spec fn cover_of(screenshots: Seq<ShotFields>) -> Option<Seq<char>> {
    if screenshots.len() > 0 {
        Some(screenshots[0].sha1)
    } else {
        None
    }
}

/// Metadata with the screenshots of its title, the first of them as cover.
pub fn with_screenshots(meta: TitleMeta, screenshots: Vec<Screenshot>) -> (r: TitleMeta)
    ensures
        r@ == (MetaFields {
            cover_sha1: cover_of(shot_views(screenshots@)),
            screenshots: shot_views(screenshots@),
            ..meta@
        }),
{
    let cover_sha1 = if screenshots.len() > 0 {
        assert(shot_views(screenshots@)[0] == screenshots@[0]@);
        Some(owned(&screenshots[0].sha1))
    } else {
        None
    };
    TitleMeta {
        genre: meta.genre,
        description: meta.description,
        year: meta.year,
        sources: meta.sources,
        external_url: meta.external_url,
        cover_sha1,
        screenshots,
    }
}

/// What optional metadata hold.
pub open spec fn meta_view(m: Option<TitleMeta>) -> Option<MetaFields> {
    match m {
        Some(x) => Some(x@),
        None => None,
    }
}

/// A copy of optional metadata.
fn copy_meta(m: &Option<TitleMeta>) -> (r: Option<TitleMeta>)
    ensures
        meta_view(r) == meta_view(*m),
{
    match m {
        Some(x) => Some(x.copy()),
        None => None,
    }
}

/// A release (Set): the disks that form one game, rolled up from the Editions
/// sharing a set key. `multi` is false for a trivial single-disk title.
#[derive(Debug, Clone)]
pub struct SetView {
    pub rep_edition_id: i64,
    /// The logical work this release belongs to; the key for enrichment.
    pub title_id: i64,
    pub multi: bool,
    pub title: String,
    pub category: String,
    pub publisher: Option<String>,
    pub year: Option<i32>,
    pub version: Option<String>,
    /// Sortable natural-version key (see [`crate::naming::version_key`]); `None`
    /// when the release has no version. Drives the browse version timeline.
    pub version_key: Option<String>,
    pub language: Option<String>,
    pub qualifier: Option<String>,
    pub disk_count: Option<u32>,
    pub disks_present: Vec<u32>,
    pub complete_lineages: usize,
    pub primary_lineage: Option<String>,
    pub variant_count: i64,
    /// Count of this release's lineages that fold to each browse type class (by
    /// lineage, the class of its cleanest dump). Drives the colour-coded summary chips.
    pub original_count: usize,
    pub cracked_count: usize,
    pub hacked_count: usize,
    /// Merged online metadata for the work (description/genre/screenshots), or
    /// `None` when the title has not been enriched.
    pub meta: Option<TitleMeta>,
}

/// What a [`SetView`] holds.
#[verifier::ext_equal]
pub struct SetFields {
    pub rep_edition_id: i64,
    pub title_id: i64,
    pub multi: bool,
    pub title: Seq<char>,
    pub category: Seq<char>,
    pub publisher: Option<Seq<char>>,
    pub year: Option<i32>,
    pub version: Option<Seq<char>>,
    pub version_key: Option<Seq<char>>,
    pub language: Option<Seq<char>>,
    pub qualifier: Option<Seq<char>>,
    pub disk_count: Option<u32>,
    pub disks_present: Seq<u32>,
    pub complete_lineages: usize,
    pub primary_lineage: Option<Seq<char>>,
    pub variant_count: i64,
    pub original_count: usize,
    pub cracked_count: usize,
    pub hacked_count: usize,
    pub meta: Option<MetaFields>,
}

impl View for SetView {
    type V = SetFields;

    open spec fn view(&self) -> SetFields {
        SetFields {
            rep_edition_id: self.rep_edition_id,
            title_id: self.title_id,
            multi: self.multi,
            title: self.title@,
            category: self.category@,
            publisher: crate::text::opt_view(self.publisher),
            year: self.year,
            version: crate::text::opt_view(self.version),
            version_key: crate::text::opt_view(self.version_key),
            language: crate::text::opt_view(self.language),
            qualifier: crate::text::opt_view(self.qualifier),
            disk_count: self.disk_count,
            disks_present: self.disks_present@,
            complete_lineages: self.complete_lineages,
            primary_lineage: crate::text::opt_view(self.primary_lineage),
            variant_count: self.variant_count,
            original_count: self.original_count,
            cracked_count: self.cracked_count,
            hacked_count: self.hacked_count,
            meta: meta_view(self.meta),
        }
    }
}

impl SetView {
    /// A copy of this record.
    pub fn copy(&self) -> (r: SetView)
        ensures
            r@ == self@,
    {
        SetView {
            rep_edition_id: self.rep_edition_id,
            title_id: self.title_id,
            multi: self.multi,
            title: owned(&self.title),
            category: owned(&self.category),
            publisher: clone_opt(&self.publisher),
            year: self.year,
            version: clone_opt(&self.version),
            version_key: clone_opt(&self.version_key),
            language: clone_opt(&self.language),
            qualifier: clone_opt(&self.qualifier),
            disk_count: self.disk_count,
            disks_present: copy_disks(&self.disks_present),
            complete_lineages: self.complete_lineages,
            primary_lineage: clone_opt(&self.primary_lineage),
            variant_count: self.variant_count,
            original_count: self.original_count,
            cracked_count: self.cracked_count,
            hacked_count: self.hacked_count,
            meta: copy_meta(&self.meta),
        }
    }
}

/// What releases hold.
pub open spec fn set_views(s: Seq<SetView>) -> Seq<SetFields> {
    s.map_values(|x: SetView| x@)
}

/// What one release is made of.
#[derive(Debug, Clone)]
pub struct SetSource {
    /// The Editions of the release, the representative (the lowest disk) first.
    pub editions: Vec<EditionView>,
    /// The disks of the representative's set.
    pub rows: SetRows,
    /// Merged online metadata of the representative's title, if any.
    pub meta: Option<TitleMeta>,
}

/// What a [`SetSource`] holds.
#[verifier::ext_equal]
pub struct SourceFields {
    pub editions: Seq<crate::db::EditionFields>,
    pub rows: crate::service::primaries::RowsFields,
    pub meta: Option<MetaFields>,
}

impl View for SetSource {
    type V = SourceFields;

    open spec fn view(&self) -> SourceFields {
        SourceFields {
            editions: crate::db::edition_views(self.editions@),
            rows: self.rows@,
            meta: meta_view(self.meta),
        }
    }
}

/// What sources hold.
pub open spec fn source_views(s: Seq<SetSource>) -> Seq<SourceFields> {
    s.map_values(|x: SetSource| x@)
}

// --- Grouping Editions into releases ----------------------------------------

/// What the Editions of one release share.
#[derive(Debug, Clone)]
pub struct SetKey {
    pub title: String,
    pub category: String,
    pub version: Option<String>,
    pub language: Option<String>,
    pub publisher: Option<String>,
    pub qualifier: Option<String>,
    pub disk_count: Option<u32>,
}

/// What a [`SetKey`] holds.
#[verifier::ext_equal]
pub struct SetKeyFields {
    pub title: Seq<char>,
    pub category: Seq<char>,
    pub version: Option<Seq<char>>,
    pub language: Option<Seq<char>>,
    pub publisher: Option<Seq<char>>,
    pub qualifier: Option<Seq<char>>,
    pub disk_count: Option<u32>,
}

impl View for SetKey {
    type V = SetKeyFields;

    open spec fn view(&self) -> SetKeyFields {
        SetKeyFields {
            title: self.title@,
            category: self.category@,
            version: crate::text::opt_view(self.version),
            language: crate::text::opt_view(self.language),
            publisher: crate::text::opt_view(self.publisher),
            qualifier: crate::text::opt_view(self.qualifier),
            disk_count: self.disk_count,
        }
    }
}

/// The order of set keys: field by field, the first that differs decides.
pub open spec fn set_key_lt(a: SetKeyFields, b: SetKeyFields) -> bool {
    ||| crate::text::text_lt(a.title, b.title)
    ||| a.title == b.title && {
        ||| crate::text::text_lt(a.category, b.category)
        ||| a.category == b.category && {
            ||| crate::text::opt_text_lt(a.version, b.version)
            ||| a.version == b.version && {
                ||| crate::text::opt_text_lt(a.language, b.language)
                ||| a.language == b.language && {
                    ||| crate::text::opt_text_lt(a.publisher, b.publisher)
                    ||| a.publisher == b.publisher && {
                        ||| crate::text::opt_text_lt(a.qualifier, b.qualifier)
                        ||| a.qualifier == b.qualifier && crate::text::opt_num_lt(
                            a.disk_count,
                            b.disk_count,
                        )
                    }
                }
            }
        }
    }
}

/// The order of texts is a strict total order.
proof fn lemma_text_order(a: Seq<char>, b: Seq<char>, c: Seq<char>)
    ensures
        crate::text::text_lt(a, b) ==> !crate::text::text_lt(b, a),
        crate::text::text_lt(a, b) ==> a != b,
        crate::text::text_lt(a, b) && crate::text::text_lt(b, c) ==> crate::text::text_lt(a, c),
        crate::text::text_lt(a, b) || crate::text::text_lt(b, a) || a == b,
{
    crate::text::lemma_text_lt_asym(a, b);
    crate::text::lemma_text_lt_total(a, b);
    if crate::text::text_lt(a, b) && crate::text::text_lt(b, c) {
        crate::text::lemma_text_lt_trans(a, b, c);
    }
}

/// The order of set keys is a strict total order.
proof fn lemma_set_key_order(a: SetKeyFields, b: SetKeyFields, c: SetKeyFields)
    ensures
        set_key_lt(a, b) ==> !set_key_lt(b, a),
        set_key_lt(a, b) && set_key_lt(b, c) ==> set_key_lt(a, c),
        set_key_lt(a, b) || set_key_lt(b, a) || a == b,
{
    lemma_text_order(a.title, b.title, c.title);
    lemma_text_order(b.title, a.title, c.title);
    lemma_text_order(a.category, b.category, c.category);
    lemma_text_order(b.category, a.category, c.category);
    crate::order::lemma_opt_text_order(a.version, b.version, c.version);
    crate::order::lemma_opt_text_order(b.version, a.version, c.version);
    crate::order::lemma_opt_text_order(a.language, b.language, c.language);
    crate::order::lemma_opt_text_order(b.language, a.language, c.language);
    crate::order::lemma_opt_text_order(a.publisher, b.publisher, c.publisher);
    crate::order::lemma_opt_text_order(b.publisher, a.publisher, c.publisher);
    crate::order::lemma_opt_text_order(a.qualifier, b.qualifier, c.qualifier);
    crate::order::lemma_opt_text_order(b.qualifier, a.qualifier, c.qualifier);
}

impl Ordered for SetKey {
    open spec fn lt(a: SetKeyFields, b: SetKeyFields) -> bool {
        set_key_lt(a, b)
    }

    proof fn asymmetric(a: SetKeyFields, b: SetKeyFields) {
        lemma_set_key_order(a, b, a);
    }

    proof fn transitive(a: SetKeyFields, b: SetKeyFields, c: SetKeyFields) {
        lemma_set_key_order(a, b, c);
    }

    proof fn total(a: SetKeyFields, b: SetKeyFields) {
        lemma_set_key_order(a, b, a);
    }

    fn before(&self, other: &Self) -> (r: bool) {
        proof {
            lemma_text_order(self.title@, other.title@, self.title@);
            lemma_text_order(self.category@, other.category@, self.category@);
            crate::order::lemma_opt_text_order(self@.version, other@.version, self@.version);
            crate::order::lemma_opt_text_order(self@.language, other@.language, self@.language);
            crate::order::lemma_opt_text_order(self@.publisher, other@.publisher, self@.publisher);
            crate::order::lemma_opt_text_order(self@.qualifier, other@.qualifier, self@.qualifier);
        }
        if !same(&self.title, &other.title) {
            return text_before(&self.title, &other.title);
        }
        if !same(&self.category, &other.category) {
            return text_before(&self.category, &other.category);
        }
        if !same_opt(&self.version, &other.version) {
            return opt_text_before(&self.version, &other.version);
        }
        if !same_opt(&self.language, &other.language) {
            return opt_text_before(&self.language, &other.language);
        }
        if !same_opt(&self.publisher, &other.publisher) {
            return opt_text_before(&self.publisher, &other.publisher);
        }
        if !same_opt(&self.qualifier, &other.qualifier) {
            return opt_text_before(&self.qualifier, &other.qualifier);
        }
        opt_num_before(self.disk_count, other.disk_count)
    }
}

/// The set key of an Edition.
pub open spec fn set_key_of(e: crate::db::EditionFields) -> SetKeyFields {
    SetKeyFields {
        title: e.title,
        category: e.category,
        version: e.version,
        language: e.language,
        publisher: e.publisher,
        qualifier: e.qualifier,
        disk_count: e.disk_count,
    }
}

/// The disk of an Edition, 0 where it has no number.
pub open spec fn edition_disk(e: crate::db::EditionFields) -> u32 {
    match e.disk_no {
        Some(d) => d,
        None => 0,
    }
}

/// The order of Editions by disk.
pub open spec fn edition_disk_lt() -> spec_fn(
    crate::db::EditionFields,
    crate::db::EditionFields,
) -> bool {
    |a: crate::db::EditionFields, b: crate::db::EditionFields| edition_disk(a) < edition_disk(b)
}

/// The set keys of Editions.
pub open spec fn set_keys() -> spec_fn(crate::db::EditionFields) -> SetKeyFields {
    |e: crate::db::EditionFields| set_key_of(e)
}

/// Those of the Editions that are of one release, in order.
pub open spec fn of_release(
    editions: Seq<crate::db::EditionFields>,
    key: SetKeyFields,
) -> Seq<crate::db::EditionFields> {
    crate::order::with_key(editions, set_keys(), key)
}

/// Whether some release has this key.
pub open spec fn has_release(
    groups: Seq<Seq<crate::db::EditionFields>>,
    key: SetKeyFields,
) -> bool {
    exists|g: int| 0 <= g < groups.len() && set_key_of((#[trigger] groups[g])[0]) == key
}

/// Whether one group holds the Editions of one release, by disk.
pub open spec fn is_release(
    editions: Seq<crate::db::EditionFields>,
    group: Seq<crate::db::EditionFields>,
) -> bool {
    &&& group.len() > 0
    &&& crate::order::is_stable_sort(
        edition_disk_lt(),
        of_release(editions, set_key_of(group[0])),
        group,
    )
}

/// Whether `groups` are the releases that Editions form, in the order of their keys,
/// each with its Editions by disk.
pub open spec fn are_releases(
    editions: Seq<crate::db::EditionFields>,
    groups: Seq<Seq<crate::db::EditionFields>>,
) -> bool {
    &&& forall|g: int| 0 <= g < groups.len() ==> is_release(editions, #[trigger] groups[g])
    &&& forall|g: int, h: int|
        0 <= g < h < groups.len() ==> set_key_lt(
            set_key_of((#[trigger] groups[g])[0]),
            set_key_of((#[trigger] groups[h])[0]),
        )
    &&& forall|j: int|
        0 <= j < editions.len() ==> has_release(groups, set_key_of(#[trigger] editions[j]))
}

/// What groups of Editions hold.
pub open spec fn group_views(groups: Seq<Vec<EditionView>>) -> Seq<
    Seq<crate::db::EditionFields>,
> {
    groups.map_values(|g: Vec<EditionView>| crate::db::edition_views(g@))
}

/// The set key of an Edition.
fn edition_set_key(e: &EditionView) -> (r: SetKey)
    ensures
        r@ == set_key_of(e@),
{
    SetKey {
        title: owned(&e.title),
        category: owned(&e.category),
        version: clone_opt(&e.version),
        language: clone_opt(&e.language),
        publisher: clone_opt(&e.publisher),
        qualifier: clone_opt(&e.qualifier),
        disk_count: e.disk_count,
    }
}

/// Editions picked by position, sorted by disk.
fn sort_by_disk(editions: &[EditionView], picked: &[usize]) -> (r: Vec<EditionView>)
    requires
        forall|i: int| 0 <= i < picked@.len() ==> (#[trigger] picked@[i]) < editions@.len(),
    ensures
        crate::order::is_stable_sort(
            edition_disk_lt(),
            Seq::new(picked@.len(), |i: int| editions@[picked@[i] as int]@),
            crate::db::edition_views(r@),
        ),
        r@.len() == picked@.len(),
{
    let ghost items = Seq::new(picked@.len(), |i: int| editions@[picked@[i] as int]@);
    let mut keys: Vec<DiskKey> = Vec::new();
    let mut n: usize = 0;
    while n < picked.len()
        invariant
            n <= picked@.len(),
            forall|i: int| 0 <= i < picked@.len() ==> (#[trigger] picked@[i]) < editions@.len(),
            items == Seq::new(picked@.len(), |i: int| editions@[picked@[i] as int]@),
            keys@.len() == n,
            forall|k: int| 0 <= k < n ==> (#[trigger] keys@[k])@ == edition_disk(items[k]),
        decreases picked@.len() - n,
    {
        assert(picked@[n as int] < editions@.len());
        let disk_no = match editions[picked[n]].disk_no {
            Some(d) => d,
            None => 0,
        };
        keys.push(DiskKey { disk_no });
        n += 1;
    }
    let order = sorted_positions(&keys);
    let mut r: Vec<EditionView> = Vec::new();
    let mut k: usize = 0;
    while k < order.len()
        invariant
            k <= order@.len(),
            forall|i: int| 0 <= i < picked@.len() ==> (#[trigger] picked@[i]) < editions@.len(),
            items == Seq::new(picked@.len(), |i: int| editions@[picked@[i] as int]@),
            keys@.len() == picked@.len(),
            crate::order::is_stable_order(keys@, order@),
            r@.len() == k,
            forall|q: int| 0 <= q < k ==> (#[trigger] r@[q])@ == items[order@[q] as int],
        decreases order@.len() - k,
    {
        assert(order@[k as int] < keys@.len());
        let i = picked[order[k]];
        assert(picked@[order@[k as int] as int] < editions@.len());
        r.push(editions[i].copy());
        k += 1;
    }
    proof {
        let out = crate::db::edition_views(r@);
        assert forall|i: int, j: int|
            0 <= i < items.len() && 0 <= j < items.len() implies edition_disk_lt()(
            #[trigger] items[i],
            #[trigger] items[j],
        ) == crate::order::key_lt::<DiskKey>(keys@[i]@, keys@[j]@) by {
            assert(keys@[i]@ == edition_disk(items[i]) && keys@[j]@ == edition_disk(items[j]));
        }
        assert forall|i: int| 0 <= i < out.len() implies (#[trigger] order@[i]) < items.len()
            && out[i] == items[order@[i] as int] by {
            assert(r@[i]@ == items[order@[i] as int]);
        }
        crate::order::lemma_stable_sort(edition_disk_lt(), items, keys@, order@, out);
    }
    r
}

/// Roll up Editions into releases: those that share a set key, the lowest disk first.
pub fn group_sets(editions: &[EditionView]) -> (groups: Vec<Vec<EditionView>>)
    ensures
        are_releases(crate::db::edition_views(editions@), group_views(groups@)),
{
    let ghost ev = crate::db::edition_views(editions@);
    let mut keys: Vec<Option<SetKey>> = Vec::new();
    let mut n: usize = 0;
    while n < editions.len()
        invariant
            n <= editions@.len(),
            ev == crate::db::edition_views(editions@),
            keys@.len() == n,
            forall|j: int|
                0 <= j < n ==> (#[trigger] keys@[j]) is Some && keys@[j]->0@ == set_key_of(ev[j]),
        decreases editions@.len() - n,
    {
        assert(ev[n as int] == editions@[n as int]@);
        keys.push(Some(edition_set_key(&editions[n])));
        n += 1;
    }
    let picked = group_by(&keys);
    let total = editions.len();
    let mut groups: Vec<Vec<EditionView>> = Vec::new();
    let mut g: usize = 0;
    while g < picked.len()
        invariant
            g <= picked@.len(),
            total == editions@.len(),
            ev == crate::db::edition_views(editions@),
            keys@.len() == editions@.len(),
            forall|j: int|
                0 <= j < keys@.len() ==> (#[trigger] keys@[j]) is Some && keys@[j]->0@
                    == set_key_of(ev[j]),
            crate::order::is_grouping(keys@, picked@),
            groups@.len() == g,
            forall|h: int|
                0 <= h < g ==> is_release(ev, crate::db::edition_views((#[trigger] groups@[h])@))
                    && set_key_of(crate::db::edition_views(groups@[h]@)[0]) == crate::order::group_key(
                    keys@,
                    picked@[h]@,
                ),
        decreases picked@.len() - g,
    {
        let ghost p = picked@[g as int]@;
        let ghost key = crate::order::group_key(keys@, p);
        proof {
            assert(crate::order::is_group(keys@, p));
            assert forall|i: int| 0 <= i < p.len() implies (#[trigger] p[i]) < ev.len()
                && set_key_of(ev[p[i] as int]) == key by {
                assert(keys@[p[i] as int] is Some);
            }
            assert forall|k: usize|
                k < ev.len() && set_key_of(#[trigger] ev[k as int]) == key implies p.contains(k) by {
                assert(keys@[k as int] is Some);
                let i = crate::order::lemma_in_group(keys@, picked@, g as int, k as int);
                assert(p[i] == k);
            }
            crate::order::lemma_with_key(ev, set_keys(), key, p);
        }
        let group = sort_by_disk(editions, &picked[g]);
        proof {
            let gv = crate::db::edition_views(group@);
            let items = Seq::new(p.len(), |i: int| editions@[p[i] as int]@);
            assert(items =~= of_release(ev, key));
            lemma_sorted_first(ev, key, p, gv);
        }
        groups.push(group);
        g += 1;
    }
    proof {
        let gv = group_views(groups@);
        assert forall|g: int| 0 <= g < gv.len() implies is_release(ev, #[trigger] gv[g]) by {
            assert(is_release(ev, crate::db::edition_views(groups@[g]@)));
        }
        assert forall|g: int, h: int| 0 <= g < h < gv.len() implies set_key_lt(
            set_key_of((#[trigger] gv[g])[0]),
            set_key_of((#[trigger] gv[h])[0]),
        ) by {
            assert(is_release(ev, crate::db::edition_views(groups@[g]@)));
            assert(is_release(ev, crate::db::edition_views(groups@[h]@)));
            assert(crate::order::key_lt::<SetKey>(
                crate::order::group_key(keys@, picked@[g]@),
                crate::order::group_key(keys@, picked@[h]@),
            ));
        }
        assert forall|j: int| 0 <= j < ev.len() implies has_release(
            gv,
            set_key_of(#[trigger] ev[j]),
        ) by {
            assert(keys@[j] is Some);
            assert(crate::order::grouped(picked@, j));
            let (h, i) = choose|h: int, i: int|
                0 <= h < picked@.len() && 0 <= i < picked@[h]@.len() && #[trigger] picked@[h]@[i]
                    == j;
            assert(crate::order::is_group(keys@, picked@[h]@));
            assert(picked@[h]@[i] < keys@.len());
            assert(is_release(ev, crate::db::edition_views(groups@[h]@)));
            assert(gv[h] == crate::db::edition_views(groups@[h]@));
        }
    }
    groups
}

/// Every Edition of a release has its key, whichever comes first.
proof fn lemma_sorted_first(
    editions: Seq<crate::db::EditionFields>,
    key: SetKeyFields,
    picked: Seq<usize>,
    group: Seq<crate::db::EditionFields>,
)
    requires
        picked.len() > 0,
        forall|i: int|
            0 <= i < picked.len() ==> (#[trigger] picked[i]) < editions.len() && set_key_of(
                editions[picked[i] as int],
            ) == key,
        of_release(editions, key) == Seq::new(
            picked.len(),
            |i: int| editions[picked[i] as int],
        ),
        crate::order::is_stable_sort(edition_disk_lt(), of_release(editions, key), group),
    ensures
        group.len() > 0,
        set_key_of(group[0]) == key,
        is_release(editions, group),
{
    let items = of_release(editions, key);
    let order = choose|order: Seq<usize>| #[trigger]
        crate::order::arranges(edition_disk_lt(), items, order, group);
    assert(order[0] < items.len() && group[0] == items[order[0] as int]);
    assert(picked[order[0] as int] < editions.len());
}

// --- One release ------------------------------------------------------------

/// How many of `tags` have a property.
pub open spec fn count_where(tags: Seq<Seq<char>>, p: spec_fn(Seq<char>) -> bool) -> nat
    decreases tags.len(),
{
    if tags.len() == 0 {
        0
    } else {
        count_where(tags.drop_last(), p) + if p(tags.last()) {
            1nat
        } else {
            0nat
        }
    }
}

/// Counting each tag once counts the set of them.
proof fn lemma_count_is_len(
    tags: Seq<Seq<char>>,
    p: spec_fn(Seq<char>) -> bool,
    s: Set<Seq<char>>,
)
    requires
        tags.no_duplicates(),
        forall|t: Seq<char>| #[trigger] s.contains(t) <==> tags.contains(t) && p(t),
    ensures
        s.finite(),
        s.len() == count_where(tags, p),
    decreases tags.len(),
{
    if tags.len() == 0 {
        assert(s =~= Set::empty());
    } else {
        let init = tags.drop_last();
        let last = tags.last();
        let fewer = s.remove(last);
        assert forall|t: Seq<char>| #[trigger] fewer.contains(t) <==> init.contains(t) && p(t) by {
            if fewer.contains(t) {
                assert(s.contains(t));
                let i = choose|i: int| 0 <= i < tags.len() && tags[i] == t;
                assert(i < init.len());
                assert(init[i] == t);
            }
            if init.contains(t) && p(t) {
                let i = choose|i: int| 0 <= i < init.len() && init[i] == t;
                assert(tags[i] == t);
                assert(s.contains(t));
                assert(tags[tags.len() - 1] == last);
                assert(t != last);
            }
        }
        lemma_count_is_len(init, p, fewer);
        if p(last) {
            assert(tags[tags.len() - 1] == last);
            assert(s.contains(last));
            assert(s =~= fewer.insert(last));
        } else {
            assert(!s.contains(last));
            assert(s =~= fewer);
        }
    }
}

/// The complete lineages of a set.
pub open spec fn complete_tags(
    members: Seq<crate::ranking::MemberFields>,
    disk_count: u32,
) -> Set<Seq<char>> {
    Set::new(
        |t: Seq<char>|
            crate::ranking::has_lineage(members, t) && crate::ranking::is_complete(
                members,
                t,
                disk_count,
            ),
    )
}

/// The lineages of a set that are of one display class.
pub open spec fn class_tags(
    members: Seq<crate::ranking::MemberFields>,
    class: Seq<char>,
) -> Set<Seq<char>> {
    Set::new(
        |t: Seq<char>|
            crate::ranking::has_lineage(members, t) && crate::service::sets::class_of(members, t)
                == class,
    )
}

/// The tags of rows.
pub open spec fn row_tags(rows: Seq<LineageCoverage>) -> Seq<Seq<char>> {
    rows.map_values(|r: LineageCoverage| crate::ranking::row_tag(r))
}

/// The rows of a coverage name each lineage once.
proof fn lemma_row_tags(
    members: Seq<crate::ranking::MemberFields>,
    disk_count: u32,
    rows: Seq<LineageCoverage>,
)
    requires
        crate::ranking::is_coverage(members, disk_count, rows),
    ensures
        row_tags(rows).no_duplicates(),
        forall|t: Seq<char>| #[trigger]
            row_tags(rows).contains(t) <==> crate::ranking::has_lineage(members, t),
{
    let tags = row_tags(rows);
    assert forall|i: int, j: int| 0 <= i < tags.len() && 0 <= j < tags.len() && i != j implies tags[i]
        != tags[j] by {
        let a = if i < j { i } else { j };
        let b = if i < j { j } else { i };
        let sa = crate::ranking::score(members, disk_count, crate::ranking::row_tag(rows[a]));
        let sb = crate::ranking::score(members, disk_count, crate::ranking::row_tag(rows[b]));
        assert(crate::ranking::score_lt(sa, sb));
        crate::ranking::lemma_score_irreflexive(sa);
    }
    assert forall|t: Seq<char>| #[trigger]
        tags.contains(t) <==> crate::ranking::has_lineage(members, t) by {
        if tags.contains(t) {
            let i = choose|i: int| 0 <= i < tags.len() && tags[i] == t;
            assert(crate::ranking::is_coverage_row(members, disk_count, rows[i]));
        }
        if crate::ranking::has_lineage(members, t) {
            assert(crate::ranking::has_row(rows, t));
            let k = choose|k: int|
                0 <= k < rows.len() && crate::ranking::row_tag(#[trigger] rows[k]) == t;
            assert(tags[k] == t);
        }
    }
}

/// How many of the rows are complete.
fn count_complete(rows: &[LineageCoverage]) -> (r: usize)
    ensures
        r == count_complete_of(rows@),
{
    let mut count: usize = 0;
    let mut k: usize = 0;
    assert(rows@.take(0) =~= Seq::empty());
    while k < rows.len()
        invariant
            k <= rows@.len(),
            count == count_complete_of(rows@.take(k as int)),
            count <= k,
        decreases rows@.len() - k,
    {
        assert(rows@.take(k + 1).drop_last() =~= rows@.take(k as int));
        let total = rows.len();
        if rows[k].complete {
            count += 1;
        }
        k += 1;
    }
    assert(rows@.take(k as int) =~= rows@);
    count
}

/// How many of the rows are complete.
pub open spec fn count_complete_of(rows: Seq<LineageCoverage>) -> nat
    decreases rows.len(),
{
    if rows.len() == 0 {
        0
    } else {
        count_complete_of(rows.drop_last()) + if rows.last().complete {
            1nat
        } else {
            0nat
        }
    }
}

/// As many rows are complete as lineages are.
proof fn lemma_count_complete(
    members: Seq<crate::ranking::MemberFields>,
    disk_count: u32,
    rows: Seq<LineageCoverage>,
)
    requires
        crate::ranking::is_coverage(members, disk_count, rows),
    ensures
        count_complete_of(rows) == complete_tags(members, disk_count).len(),
        count_complete_of(rows) > 0 <==> exists|t: Seq<char>| #[trigger]
            complete_tags(members, disk_count).contains(t),
{
    let p = |t: Seq<char>| crate::ranking::is_complete(members, t, disk_count);
    lemma_row_tags(members, disk_count, rows);
    let s = complete_tags(members, disk_count);
    lemma_count_is_len(row_tags(rows), p, s);
    lemma_complete_by_tag(members, disk_count, rows, rows.len() as int);
    assert(rows.take(rows.len() as int) =~= rows);
    assert(row_tags(rows).take(rows.len() as int) =~= row_tags(rows));
    if count_complete_of(rows) > 0 {
        assert(s.len() > 0);
        assert(s.contains(s.choose()));
    }
    if exists|t: Seq<char>| #[trigger] s.contains(t) {
        let t = choose|t: Seq<char>| #[trigger] s.contains(t);
        if s.len() == 0 {
            assert(s =~= Set::empty());
        }
    }
}

/// Counting the complete rows counts the complete lineages.
proof fn lemma_complete_by_tag(
    members: Seq<crate::ranking::MemberFields>,
    disk_count: u32,
    rows: Seq<LineageCoverage>,
    k: int,
)
    requires
        crate::ranking::is_coverage(members, disk_count, rows),
        0 <= k <= rows.len(),
    ensures
        count_complete_of(rows.take(k)) == count_where(
            row_tags(rows).take(k),
            |t: Seq<char>| crate::ranking::is_complete(members, t, disk_count),
        ),
    decreases k,
{
    let p = |t: Seq<char>| crate::ranking::is_complete(members, t, disk_count);
    if k > 0 {
        lemma_complete_by_tag(members, disk_count, rows, k - 1);
        assert(rows.take(k).drop_last() =~= rows.take(k - 1));
        assert(row_tags(rows).take(k).drop_last() =~= row_tags(rows).take(k - 1));
        assert(crate::ranking::is_coverage_row(members, disk_count, rows[k - 1]));
        assert(row_tags(rows)[k - 1] == crate::ranking::row_tag(rows[k - 1]));
    }
}

/// How many lineages are of each display class: original, cracked, hacked.
fn count_classes(rows: &[LineageCoverage], members: &[DiskMember]) -> (r: (usize, usize, usize))
    ensures
        r.0 == count_where(
            row_tags(rows@),
            |t: Seq<char>|
                crate::service::sets::class_of(crate::ranking::member_views(members@), t)
                    == "original"@,
        ),
        r.1 == count_where(
            row_tags(rows@),
            |t: Seq<char>|
                crate::service::sets::class_of(crate::ranking::member_views(members@), t)
                    == "cracked"@,
        ),
        r.2 == count_where(
            row_tags(rows@),
            |t: Seq<char>|
                crate::service::sets::class_of(crate::ranking::member_views(members@), t)
                    == "hacked"@,
        ),
{
    let ghost mv = crate::ranking::member_views(members@);
    let ghost tags = row_tags(rows@);
    let ghost po = |t: Seq<char>| crate::service::sets::class_of(mv, t) == "original"@;
    let ghost pc = |t: Seq<char>| crate::service::sets::class_of(mv, t) == "cracked"@;
    let ghost ph = |t: Seq<char>| crate::service::sets::class_of(mv, t) == "hacked"@;
    let mut original: usize = 0;
    let mut cracked: usize = 0;
    let mut hacked: usize = 0;
    let mut k: usize = 0;
    assert(tags.take(0) =~= Seq::empty());
    while k < rows.len()
        invariant
            k <= rows@.len(),
            mv == crate::ranking::member_views(members@),
            tags == row_tags(rows@),
            po == (|t: Seq<char>| crate::service::sets::class_of(mv, t) == "original"@),
            pc == (|t: Seq<char>| crate::service::sets::class_of(mv, t) == "cracked"@),
            ph == (|t: Seq<char>| crate::service::sets::class_of(mv, t) == "hacked"@),
            original == count_where(tags.take(k as int), po),
            cracked == count_where(tags.take(k as int), pc),
            hacked == count_where(tags.take(k as int), ph),
            original <= k,
            cracked <= k,
            hacked <= k,
        decreases rows@.len() - k,
    {
        let total = rows.len();
        let tag = match &rows[k].lineage {
            Some(t) => owned(t),
            None => {
                let none = String::new();
                assert(none@ =~= Seq::<char>::empty());
                none
            },
        };
        let class = lineage_class(&tag, members);
        proof {
            assert(tags.take(k + 1).drop_last() =~= tags.take(k as int));
            assert(tags.take(k + 1).last() == tag@);
            lemma_classes_differ();
            lemma_class_is_one_of_three(mv, tag@);
        }
        if same(class, "original") {
            original += 1;
        } else if same(class, "cracked") {
            cracked += 1;
        } else {
            hacked += 1;
        }
        k += 1;
    }
    assert(tags.take(k as int) =~= tags);
    (original, cracked, hacked)
}

/// The display classes are different texts.
proof fn lemma_classes_differ()
    ensures
        "original"@ != "cracked"@,
        "original"@ != "hacked"@,
        "cracked"@ != "hacked"@,
{
    reveal_strlit("original");
    reveal_strlit("cracked");
    reveal_strlit("hacked");
    assert("original"@[0] == 'o' && "cracked"@[0] == 'c' && "hacked"@[0] == 'h');
}

/// A lineage is of one of the three display classes.
proof fn lemma_class_is_one_of_three(
    members: Seq<crate::ranking::MemberFields>,
    tag: Seq<char>,
)
    ensures
        ({
            let c = crate::service::sets::class_of(members, tag);
            c == "original"@ || c == "cracked"@ || c == "hacked"@
        }),
{
}

/// Counting rows by class counts lineages by class.
proof fn lemma_count_class(
    members: Seq<crate::ranking::MemberFields>,
    disk_count: u32,
    rows: Seq<LineageCoverage>,
    class: Seq<char>,
)
    requires
        crate::ranking::is_coverage(members, disk_count, rows),
    ensures
        count_where(
            row_tags(rows),
            |t: Seq<char>| crate::service::sets::class_of(members, t) == class,
        ) == class_tags(members, class).len(),
{
    let p = |t: Seq<char>| crate::service::sets::class_of(members, t) == class;
    lemma_row_tags(members, disk_count, rows);
    lemma_count_is_len(row_tags(rows), p, class_tags(members, class));
}

/// Whether an Edition is of disk `d`.
pub open spec fn has_disk(editions: Seq<crate::db::EditionFields>, d: u32) -> bool {
    exists|i: int| 0 <= i < editions.len() && (#[trigger] editions[i]).disk_no == Some(d)
}

/// Whether `d` holds the disk numbers of Editions, each once, ascending.
pub open spec fn lists_present(editions: Seq<crate::db::EditionFields>, d: Seq<u32>) -> bool {
    &&& forall|i: int, j: int| 0 <= i < j < d.len() ==> d[i] < d[j]
    &&& forall|k: u32| #[trigger] d.contains(k) <==> has_disk(editions, k)
}

/// The disk numbers of Editions, each once, ascending.
fn disks_present(editions: &[EditionView]) -> (d: Vec<u32>)
    ensures
        lists_present(crate::db::edition_views(editions@), d@),
{
    let ghost ev = crate::db::edition_views(editions@);
    let mut keys: Vec<Option<DiskKey>> = Vec::new();
    let mut n: usize = 0;
    while n < editions.len()
        invariant
            n <= editions@.len(),
            ev == crate::db::edition_views(editions@),
            keys@.len() == n,
            forall|j: int|
                0 <= j < n ==> ((#[trigger] keys@[j]) is Some <==> ev[j].disk_no is Some) && (
                keys@[j] is Some ==> keys@[j]->0@ == ev[j].disk_no->0),
        decreases editions@.len() - n,
    {
        assert(ev[n as int] == editions@[n as int]@);
        match editions[n].disk_no {
            Some(disk_no) => keys.push(Some(DiskKey { disk_no })),
            None => keys.push(None),
        }
        n += 1;
    }
    let groups = group_by(&keys);
    let mut d: Vec<u32> = Vec::new();
    let mut g: usize = 0;
    while g < groups.len()
        invariant
            g <= groups@.len(),
            d@.len() == g,
            crate::order::is_grouping(keys@, groups@),
            forall|h: int|
                0 <= h < g ==> #[trigger] d@[h] == crate::order::group_key(keys@, groups@[h]@),
        decreases groups@.len() - g,
    {
        assert(crate::order::is_group(keys@, groups@[g as int]@));
        let first = groups[g][0];
        assert(keys@[first as int] is Some);
        match &keys[first] {
            Some(k) => d.push(k.disk_no),
            None => {},
        }
        g += 1;
    }
    proof {
        assert forall|i: int, j: int| 0 <= i < j < d@.len() implies d@[i] < d@[j] by {
            assert(crate::order::key_lt::<DiskKey>(
                crate::order::group_key(keys@, groups@[i]@),
                crate::order::group_key(keys@, groups@[j]@),
            ));
        }
        assert forall|k: u32| #[trigger] d@.contains(k) <==> has_disk(ev, k) by {
            if d@.contains(k) {
                let h = choose|h: int| 0 <= h < d@.len() && d@[h] == k;
                assert(crate::order::is_group(keys@, groups@[h]@));
                let first = groups@[h]@[0] as int;
                assert(keys@[first] is Some);
                assert(ev[first].disk_no == Some(k));
            }
            if has_disk(ev, k) {
                let i = choose|i: int|
                    0 <= i < ev.len() && (#[trigger] ev[i]).disk_no == Some(k);
                assert(keys@[i] is Some);
                assert(crate::order::grouped(groups@, i));
                let (h, p) = choose|h: int, p: int|
                    0 <= h < groups@.len() && 0 <= p < groups@[h]@.len()
                        && #[trigger] groups@[h]@[p] == i;
                assert(crate::order::is_group(keys@, groups@[h]@));
                assert(groups@[h]@[p] < keys@.len());
                assert(d@[h] == k);
            }
        }
    }
    d
}

/// How many variants Editions have, all together.
pub open spec fn variant_total(editions: Seq<crate::db::EditionFields>) -> int
    decreases editions.len(),
{
    if editions.len() == 0 {
        0
    } else {
        variant_total(editions.drop_last()) + editions.last().variant_count
    }
}

/// Whether counting the variants of Editions one after the other never leaves the
/// range of a count.
pub open spec fn counts_fit(editions: Seq<crate::db::EditionFields>) -> bool {
    forall|k: int|
        0 <= k <= editions.len() ==> i64::MIN <= variant_total(#[trigger] editions.take(k))
            <= i64::MAX
}

/// Whether the variants of Editions can be counted.
pub fn variants_fit(editions: &[EditionView]) -> (r: bool)
    ensures
        r == counts_fit(crate::db::edition_views(editions@)),
{
    let ghost ev = crate::db::edition_views(editions@);
    let mut sum: i64 = 0;
    let mut n: usize = 0;
    assert(ev.take(0) =~= Seq::empty());
    while n < editions.len()
        invariant
            n <= editions@.len(),
            ev == crate::db::edition_views(editions@),
            sum == variant_total(ev.take(n as int)),
            forall|k: int|
                0 <= k <= n ==> i64::MIN <= variant_total(#[trigger] ev.take(k)) <= i64::MAX,
        decreases editions@.len() - n,
    {
        proof {
            assert(ev.take(n + 1).drop_last() =~= ev.take(n as int));
            assert(ev[n as int] == editions@[n as int]@);
        }
        match sum.checked_add(editions[n].variant_count) {
            Some(s) => {
                sum = s;
            },
            None => {
                assert(!(i64::MIN <= variant_total(ev.take(n + 1)) <= i64::MAX));
                return false;
            },
        }
        n += 1;
    }
    true
}

/// How many variants Editions have, all together.
fn count_variants(editions: &[EditionView]) -> (r: i64)
    requires
        counts_fit(crate::db::edition_views(editions@)),
    ensures
        r == variant_total(crate::db::edition_views(editions@)),
{
    let ghost ev = crate::db::edition_views(editions@);
    let mut sum: i64 = 0;
    let mut n: usize = 0;
    assert(ev.take(0) =~= Seq::empty());
    while n < editions.len()
        invariant
            n <= editions@.len(),
            ev == crate::db::edition_views(editions@),
            counts_fit(ev),
            sum == variant_total(ev.take(n as int)),
        decreases editions@.len() - n,
    {
        proof {
            assert(ev.take(n + 1).drop_last() =~= ev.take(n as int));
            assert(ev[n as int] == editions@[n as int]@);
            assert(i64::MIN <= variant_total(ev.take(n + 1)) <= i64::MAX);
        }
        sum = sum + editions[n].variant_count;
        n += 1;
    }
    assert(ev.take(n as int) =~= ev);
    sum
}

/// Whether this is the primary lineage as it is shown: its group, and nothing for the
/// no-group lineage or where no member qualifies.
pub open spec fn is_primary_label(
    members: Seq<crate::ranking::MemberFields>,
    disk_count: u32,
    label: Option<Seq<char>>,
) -> bool {
    &&& forall|tag: Seq<char>| #[trigger]
        crate::ranking::is_primary_lineage(members, disk_count, tag) ==> label
            == crate::edition::unless_empty(tag)
    &&& (forall|tag: Seq<char>| !#[trigger] crate::ranking::has_lineage(members, tag)) ==> label
        is None
}

/// The primary lineage as it is shown.
fn primary_label(rows: &[LineageCoverage]) -> (r: Option<String>)
    ensures
        forall|members: Seq<crate::ranking::MemberFields>, disk_count: u32| #[trigger]
            crate::ranking::is_coverage(members, disk_count, rows@) ==> is_primary_label(
                members,
                disk_count,
                crate::text::opt_view(r),
            ),
{
    let r = if rows.len() > 0 {
        clone_opt(&rows[0].lineage)
    } else {
        None
    };
    proof {
        assert forall|members: Seq<crate::ranking::MemberFields>, disk_count: u32| #[trigger]
            crate::ranking::is_coverage(members, disk_count, rows@) implies is_primary_label(
            members,
            disk_count,
            crate::text::opt_view(r),
        ) by {
            lemma_primary_label(members, disk_count, rows@);
        }
    }
    r
}

/// The first row names the primary lineage.
proof fn lemma_primary_label(
    members: Seq<crate::ranking::MemberFields>,
    disk_count: u32,
    rows: Seq<LineageCoverage>,
)
    requires
        crate::ranking::is_coverage(members, disk_count, rows),
    ensures
        is_primary_label(
            members,
            disk_count,
            if rows.len() > 0 {
                crate::text::opt_view(rows[0].lineage)
            } else {
                None
            },
        ),
{
    if rows.len() > 0 {
        crate::ranking::first_row_is_primary_lineage(members, disk_count, rows);
        assert(crate::ranking::is_coverage_row(members, disk_count, rows[0]));
    } else {
        assert forall|tag: Seq<char>| !#[trigger] crate::ranking::has_lineage(members, tag) by {
            if crate::ranking::has_lineage(members, tag) {
                assert(crate::ranking::has_row(rows, tag));
            }
        }
    }
}

/// An optional version as it sorts.
pub open spec fn version_label(version: Option<Seq<char>>) -> Option<Seq<char>> {
    match version {
        Some(v) => Some(crate::naming::version_key_of(v)),
        None => None,
    }
}

/// Whether this is the release of a source.
pub open spec fn is_set_view(src: SourceFields, v: SetFields) -> bool {
    let rep = src.editions[0];
    let members = crate::service::sets::set_members(src.rows);
    let dc = crate::service::sets::set_disk_count(src.rows);
    &&& v.rep_edition_id == rep.edition_id
    &&& v.title_id == rep.title_id
    &&& v.multi == (rep.disk_count is Some && rep.disk_count->0 > 1 || src.editions.len() > 1)
    &&& v.title == rep.title
    &&& v.category == rep.category
    &&& v.publisher == rep.publisher
    &&& v.year == rep.year
    &&& v.version == rep.version
    &&& v.version_key == version_label(rep.version)
    &&& v.language == rep.language
    &&& v.qualifier == rep.qualifier
    &&& v.disk_count == rep.disk_count
    &&& lists_present(src.editions, v.disks_present)
    &&& v.complete_lineages == complete_tags(members, dc).len()
    &&& is_primary_label(members, dc, v.primary_lineage)
    &&& v.variant_count == variant_total(src.editions)
    &&& v.original_count == class_tags(members, "original"@).len()
    &&& v.cracked_count == class_tags(members, "cracked"@).len()
    &&& v.hacked_count == class_tags(members, "hacked"@).len()
    &&& v.meta == src.meta
}

/// Whether a source can be listed: it has an Edition, and its variants can be counted.
pub open spec fn can_list(src: SourceFields) -> bool {
    &&& src.editions.len() > 0
    &&& counts_fit(src.editions)
}

/// The release of a source, given its members and their coverage.
fn set_view(source: &SetSource, members: &[DiskMember], rows: &[LineageCoverage]) -> (v: SetView)
    requires
        can_list(source@),
        crate::ranking::member_views(members@) == crate::service::sets::set_members(source@.rows),
        crate::ranking::is_coverage(
            crate::ranking::member_views(members@),
            crate::service::sets::set_disk_count(source@.rows),
            rows@,
        ),
    ensures
        is_set_view(source@, v@),
{
    let ghost mv = crate::ranking::member_views(members@);
    let ghost dc = crate::service::sets::set_disk_count(source@.rows);
    let rep = &source.editions[0];
    assert(source@.editions[0] == rep@);
    let present = disks_present(&source.editions);
    let complete_lineages = count_complete(rows);
    let primary_lineage = primary_label(rows);
    let (original_count, cracked_count, hacked_count) = count_classes(rows, members);
    proof {
        lemma_count_complete(mv, dc, rows@);
        lemma_count_class(mv, dc, rows@, "original"@);
        lemma_count_class(mv, dc, rows@, "cracked"@);
        lemma_count_class(mv, dc, rows@, "hacked"@);
    }
    let declared = match rep.disk_count {
        Some(d) => d > 1,
        None => false,
    };
    let sort_version = match &rep.version {
        Some(v) => Some(version_key(v)),
        None => None,
    };
    SetView {
        rep_edition_id: rep.edition_id,
        title_id: rep.title_id,
        multi: declared || source.editions.len() > 1,
        title: owned(&rep.title),
        category: owned(&rep.category),
        publisher: clone_opt(&rep.publisher),
        year: rep.year,
        version: clone_opt(&rep.version),
        version_key: sort_version,
        language: clone_opt(&rep.language),
        qualifier: clone_opt(&rep.qualifier),
        disk_count: rep.disk_count,
        disks_present: present,
        complete_lineages,
        primary_lineage,
        variant_count: count_variants(&source.editions),
        original_count,
        cracked_count,
        hacked_count,
        meta: copy_meta(&source.meta),
    }
}

// --- The list ---------------------------------------------------------------

/// Whether a source has a complete lineage.
pub open spec fn has_complete(src: SourceFields) -> bool {
    exists|t: Seq<char>| #[trigger]
        complete_tags(
            crate::service::sets::set_members(src.rows),
            crate::service::sets::set_disk_count(src.rows),
        ).contains(t)
}

/// The sources that are listed: all, or only those with no complete lineage.
pub open spec fn kept(sources: Seq<SourceFields>, incomplete_only: bool) -> Seq<SourceFields>
    decreases sources.len(),
{
    if sources.len() == 0 {
        Seq::empty()
    } else {
        let rest = kept(sources.drop_last(), incomplete_only);
        if incomplete_only && has_complete(sources.last()) {
            rest
        } else {
            rest.push(sources.last())
        }
    }
}

/// What the list of releases is sorted by.
pub struct ListKey {
    pub title: String,
    pub category: String,
    pub qualifier: Option<String>,
    pub disk_count: Option<u32>,
}

/// What a [`ListKey`] holds.
#[verifier::ext_equal]
pub struct ListFields {
    pub title: Seq<char>,
    pub category: Seq<char>,
    pub qualifier: Option<Seq<char>>,
    pub disk_count: Option<u32>,
}

impl View for ListKey {
    type V = ListFields;

    open spec fn view(&self) -> ListFields {
        ListFields {
            title: self.title@,
            category: self.category@,
            qualifier: crate::text::opt_view(self.qualifier),
            disk_count: self.disk_count,
        }
    }
}

/// The order of the list: by title, category, qualifier and disk count.
pub open spec fn list_lt(a: ListFields, b: ListFields) -> bool {
    ||| crate::text::text_lt(a.title, b.title)
    ||| a.title == b.title && {
        ||| crate::text::text_lt(a.category, b.category)
        ||| a.category == b.category && {
            ||| crate::text::opt_text_lt(a.qualifier, b.qualifier)
            ||| a.qualifier == b.qualifier && crate::text::opt_num_lt(a.disk_count, b.disk_count)
        }
    }
}

/// The order of the list is a strict total order.
proof fn lemma_list_order(a: ListFields, b: ListFields, c: ListFields)
    ensures
        list_lt(a, b) ==> !list_lt(b, a),
        list_lt(a, b) && list_lt(b, c) ==> list_lt(a, c),
        list_lt(a, b) || list_lt(b, a) || a == b,
{
    lemma_text_order(a.title, b.title, c.title);
    lemma_text_order(b.title, a.title, c.title);
    lemma_text_order(a.category, b.category, c.category);
    lemma_text_order(b.category, a.category, c.category);
    crate::order::lemma_opt_text_order(a.qualifier, b.qualifier, c.qualifier);
    crate::order::lemma_opt_text_order(b.qualifier, a.qualifier, c.qualifier);
}

impl Ordered for ListKey {
    open spec fn lt(a: ListFields, b: ListFields) -> bool {
        list_lt(a, b)
    }

    proof fn asymmetric(a: ListFields, b: ListFields) {
        lemma_list_order(a, b, a);
    }

    proof fn transitive(a: ListFields, b: ListFields, c: ListFields) {
        lemma_list_order(a, b, c);
    }

    proof fn total(a: ListFields, b: ListFields) {
        lemma_list_order(a, b, a);
    }

    fn before(&self, other: &Self) -> (r: bool) {
        proof {
            lemma_text_order(self.title@, other.title@, self.title@);
            lemma_text_order(self.category@, other.category@, self.category@);
            crate::order::lemma_opt_text_order(self@.qualifier, other@.qualifier, self@.qualifier);
        }
        if !same(&self.title, &other.title) {
            return text_before(&self.title, &other.title);
        }
        if !same(&self.category, &other.category) {
            return text_before(&self.category, &other.category);
        }
        if !same_opt(&self.qualifier, &other.qualifier) {
            return opt_text_before(&self.qualifier, &other.qualifier);
        }
        opt_num_before(self.disk_count, other.disk_count)
    }
}

/// What a release is sorted by.
pub open spec fn list_key_of(v: SetFields) -> ListFields {
    ListFields {
        title: v.title,
        category: v.category,
        qualifier: v.qualifier,
        disk_count: v.disk_count,
    }
}

/// The order of releases in the list.
pub open spec fn set_lt() -> spec_fn(SetFields, SetFields) -> bool {
    |a: SetFields, b: SetFields| list_lt(list_key_of(a), list_key_of(b))
}

/// Whether these are the releases of sources, in order.
pub open spec fn are_set_views(sources: Seq<SourceFields>, v: Seq<SetFields>) -> bool {
    &&& v.len() == sources.len()
    &&& forall|i: int| 0 <= i < v.len() ==> is_set_view(sources[i], #[trigger] v[i])
}

/// Whether this is the list of releases of sources.
pub open spec fn is_listing(
    sources: Seq<SourceFields>,
    incomplete_only: bool,
    listing: Seq<SetFields>,
) -> bool {
    exists|v: Seq<SetFields>| #[trigger]
        are_set_views(kept(sources, incomplete_only), v) && crate::order::is_stable_sort(
            set_lt(),
            v,
            listing,
        )
}

/// The releases that are kept, in the order of the sources.
fn kept_views(sources: &[SetSource], incomplete_only: bool) -> (r: Vec<SetView>)
    requires
        forall|i: int| 0 <= i < sources@.len() ==> can_list((#[trigger] sources@[i])@),
    ensures
        are_set_views(kept(source_views(sources@), incomplete_only), set_views(r@)),
{
    let ghost sv = source_views(sources@);
    let mut r: Vec<SetView> = Vec::new();
    let mut n: usize = 0;
    assert(sv.take(0) =~= Seq::empty());
    assert(set_views(r@) =~= Seq::empty());
    while n < sources.len()
        invariant
            n <= sources@.len(),
            sv == source_views(sources@),
            forall|i: int| 0 <= i < sources@.len() ==> can_list((#[trigger] sources@[i])@),
            are_set_views(kept(sv.take(n as int), incomplete_only), set_views(r@)),
        decreases sources@.len() - n,
    {
        let source = &sources[n];
        let (dc, members) = gather_set(&source.rows);
        let rows = lineage_coverage(&members, dc);
        proof {
            assert(sv.take(n + 1).drop_last() =~= sv.take(n as int));
            assert(sv.take(n + 1).last() == source@);
            lemma_count_complete(crate::ranking::member_views(members@), dc, rows@);
        }
        let ghost had = r@;
        let ghost hv = kept(sv.take(n as int), incomplete_only);
        if !(incomplete_only && count_complete(&rows) > 0) {
            let v = set_view(source, &members, &rows);
            r.push(v);
            proof {
                assert(set_views(r@) =~= set_views(had).push(v@));
                assert(kept(sv.take(n + 1), incomplete_only) == hv.push(source@));
                assert forall|i: int| 0 <= i < set_views(r@).len() implies is_set_view(
                    hv.push(source@)[i],
                    #[trigger] set_views(r@)[i],
                ) by {
                    if i < had.len() {
                        assert(is_set_view(hv[i], set_views(had)[i]));
                    }
                }
            }
        }
        n += 1;
    }
    assert(sv.take(n as int) =~= sv);
    r
}

/// Browse releases: multi-disk Editions rolled up into Sets (representative = the
/// lowest disk). `incomplete_only` keeps only Sets with no complete lineage.
///
/// Completeness is computed the same way for every set, so a single-disk title whose
/// only variants are disqualified reports 0, like the multi-disk case.
pub fn list_sets(sources: &[SetSource], incomplete_only: bool) -> (r: Vec<SetView>)
    requires
        forall|i: int| 0 <= i < sources@.len() ==> can_list((#[trigger] sources@[i])@),
    ensures
        is_listing(source_views(sources@), incomplete_only, set_views(r@)),
{
    let views = kept_views(sources, incomplete_only);
    let ghost items = set_views(views@);
    let mut keys: Vec<ListKey> = Vec::new();
    let mut n: usize = 0;
    while n < views.len()
        invariant
            n <= views@.len(),
            items == set_views(views@),
            keys@.len() == n,
            forall|k: int| 0 <= k < n ==> (#[trigger] keys@[k])@ == list_key_of(items[k]),
        decreases views@.len() - n,
    {
        let v = &views[n];
        assert(items[n as int] == v@);
        keys.push(
            ListKey {
                title: owned(&v.title),
                category: owned(&v.category),
                qualifier: clone_opt(&v.qualifier),
                disk_count: v.disk_count,
            },
        );
        n += 1;
    }
    let order = sorted_positions(&keys);
    let mut r: Vec<SetView> = Vec::new();
    let mut k: usize = 0;
    while k < order.len()
        invariant
            k <= order@.len(),
            items == set_views(views@),
            keys@.len() == views@.len(),
            crate::order::is_stable_order(keys@, order@),
            r@.len() == k,
            forall|q: int| 0 <= q < k ==> (#[trigger] r@[q])@ == items[order@[q] as int],
        decreases order@.len() - k,
    {
        assert(order@[k as int] < keys@.len());
        let v = &views[order[k]];
        assert(items[order@[k as int] as int] == v@);
        r.push(v.copy());
        k += 1;
    }
    proof {
        let out = set_views(r@);
        assert forall|i: int, j: int| 0 <= i < items.len() && 0 <= j < items.len() implies set_lt()(
            #[trigger] items[i],
            #[trigger] items[j],
        ) == crate::order::key_lt::<ListKey>(keys@[i]@, keys@[j]@) by {
            assert(keys@[i]@ == list_key_of(items[i]) && keys@[j]@ == list_key_of(items[j]));
        }
        assert forall|i: int| 0 <= i < out.len() implies (#[trigger] order@[i]) < items.len()
            && out[i] == items[order@[i] as int] by {
            assert(r@[i]@ == items[order@[i] as int]);
        }
        crate::order::lemma_stable_sort(set_lt(), items, keys@, order@, out);
        assert(are_set_views(kept(source_views(sources@), incomplete_only), items));
    }
    r
}

// --- Laws -------------------------------------------------------------------

/// The classes of a release's lineages add up: every lineage with a member that
/// qualifies is counted under one class, and under one only.
pub proof fn classes_partition_lineages(
    members: Seq<crate::ranking::MemberFields>,
    tag: Seq<char>,
)
    ensures
        crate::ranking::has_lineage(members, tag) <==> class_tags(members, "original"@).contains(
            tag,
        ) || class_tags(members, "cracked"@).contains(tag) || class_tags(
            members,
            "hacked"@,
        ).contains(tag),
        !(class_tags(members, "original"@).contains(tag) && class_tags(
            members,
            "cracked"@,
        ).contains(tag)),
        !(class_tags(members, "original"@).contains(tag) && class_tags(
            members,
            "hacked"@,
        ).contains(tag)),
        !(class_tags(members, "cracked"@).contains(tag) && class_tags(
            members,
            "hacked"@,
        ).contains(tag)),
{
    lemma_classes_differ();
    lemma_class_is_one_of_three(members, tag);
}

/// No Edition is lost in rolling up: each stands in a release.
pub proof fn releases_keep_every_edition(
    editions: Seq<crate::db::EditionFields>,
    groups: Seq<Seq<crate::db::EditionFields>>,
    j: int,
) -> (g: int)
    requires
        are_releases(editions, groups),
        0 <= j < editions.len(),
        editions.len() <= usize::MAX,
    ensures
        0 <= g < groups.len(),
        groups[g].contains(editions[j]),
{
    let key = set_key_of(editions[j]);
    assert(has_release(groups, key));
    let g = choose|g: int| 0 <= g < groups.len() && set_key_of((#[trigger] groups[g])[0]) == key;
    assert(is_release(editions, groups[g]));
    let items = of_release(editions, key);
    let i = crate::order::lemma_with_key_has(editions, set_keys(), key, j);
    let order = choose|order: Seq<usize>| #[trigger]
        crate::order::arranges(edition_disk_lt(), items, order, groups[g]);
    crate::order::lemma_with_key_only(editions, set_keys(), key);
    assert(order.contains(i as usize));
    let p = choose|p: int| 0 <= p < order.len() && order[p] == i as usize;
    assert(groups[g][p] == items[order[p] as int]);
    g
}

/// Keeping only the incomplete releases keeps none with a complete lineage.
pub proof fn incomplete_list_has_no_complete_set(sources: Seq<SourceFields>, i: int)
    requires
        0 <= i < kept(sources, true).len(),
    ensures
        !has_complete(kept(sources, true)[i]),
    decreases sources.len(),
{
    if sources.len() > 0 {
        let rest = kept(sources.drop_last(), true);
        if i < rest.len() {
            incomplete_list_has_no_complete_set(sources.drop_last(), i);
        }
    }
}

/// The sources that are kept stand in the order of the sources: which of them each is.
proof fn lemma_kept(sources: Seq<SourceFields>, incomplete_only: bool) -> (at: Seq<int>)
    ensures
        at.len() == kept(sources, incomplete_only).len(),
        forall|i: int|
            0 <= i < at.len() ==> 0 <= #[trigger] at[i] < sources.len() && kept(
                sources,
                incomplete_only,
            )[i] == sources[at[i]] && !(incomplete_only && has_complete(sources[at[i]])),
        forall|i: int, j: int| 0 <= i < j < at.len() ==> #[trigger] at[i] < #[trigger] at[j],
        forall|j: int|
            0 <= j < sources.len() && !(incomplete_only && has_complete(sources[j]))
                ==> #[trigger] at.contains(j),
    decreases sources.len(),
{
    if sources.len() == 0 {
        Seq::empty()
    } else {
        let init = sources.drop_last();
        let n = sources.len() - 1;
        let had = lemma_kept(init, incomplete_only);
        let at = if incomplete_only && has_complete(sources.last()) {
            had
        } else {
            had.push(n)
        };
        assert forall|i: int| 0 <= i < at.len() implies 0 <= #[trigger] at[i] < sources.len()
            && kept(sources, incomplete_only)[i] == sources[at[i]] && !(incomplete_only
            && has_complete(sources[at[i]])) by {
            if i < had.len() {
                assert(at[i] == had[i]);
                assert(init[had[i]] == sources[at[i]]);
            }
        }
        assert forall|i: int, j: int| 0 <= i < j < at.len() implies #[trigger] at[i]
            < #[trigger] at[j] by {
            assert(at[i] == had[i]);
            if j < had.len() {
                assert(at[j] == had[j]);
            }
        }
        assert forall|j: int|
            0 <= j < sources.len() && !(incomplete_only && has_complete(sources[j])) implies #[trigger] at.contains(j) by {
            if j < n {
                assert(init[j] == sources[j]);
                assert(had.contains(j));
                let i = choose|i: int| 0 <= i < had.len() && had[i] == j;
                assert(at[i] == j);
            } else {
                assert(at[had.len() as int] == j);
            }
        }
        at
    }
}

/// The rows of a list: which source each is the release of. No two are of one source, and
/// every source that is kept has its row.
proof fn lemma_rows(
    sources: Seq<SourceFields>,
    incomplete_only: bool,
    listing: Seq<SetFields>,
) -> (of: Seq<int>)
    requires
        is_listing(sources, incomplete_only, listing),
        sources.len() <= usize::MAX,
    ensures
        of.len() == listing.len(),
        forall|i: int|
            0 <= i < of.len() ==> 0 <= #[trigger] of[i] < sources.len() && is_set_view(
                sources[of[i]],
                listing[i],
            ) && !(incomplete_only && has_complete(sources[of[i]])),
        forall|i: int, j: int| 0 <= i < j < of.len() ==> #[trigger] of[i] != #[trigger] of[j],
        forall|j: int|
            0 <= j < sources.len() && !(incomplete_only && has_complete(sources[j]))
                ==> #[trigger] of.contains(j),
{
    let k = kept(sources, incomplete_only);
    let v = choose|v: Seq<SetFields>| #[trigger]
        are_set_views(k, v) && crate::order::is_stable_sort(set_lt(), v, listing);
    let order = choose|order: Seq<usize>| #[trigger]
        crate::order::arranges(set_lt(), v, order, listing);
    let at = lemma_kept(sources, incomplete_only);
    let of = Seq::new(listing.len(), |i: int| at[order[i] as int]);
    assert forall|i: int| 0 <= i < of.len() implies 0 <= #[trigger] of[i] < sources.len()
        && is_set_view(sources[of[i]], listing[i]) && !(incomplete_only && has_complete(
        sources[of[i]],
    )) by {
        assert(order[i] < v.len() && listing[i] == v[order[i] as int]);
        assert(is_set_view(k[order[i] as int], v[order[i] as int]));
        assert(0 <= at[order[i] as int] < sources.len());
    }
    assert forall|i: int, j: int| 0 <= i < j < of.len() implies #[trigger] of[i]
        != #[trigger] of[j] by {
        assert(order[i] < v.len() && listing[i] == v[order[i] as int]);
        assert(order[j] < v.len() && listing[j] == v[order[j] as int]);
        if order[i] == order[j] {
            ListKey::asymmetric(list_key_of(listing[i]), list_key_of(listing[j]));
            assert(set_lt()(listing[i], listing[j]) || order[i] < order[j]);
        } else if order[i] < order[j] {
            assert(at[order[i] as int] < at[order[j] as int]);
        } else {
            assert(at[order[j] as int] < at[order[i] as int]);
        }
    }
    assert forall|j: int|
        0 <= j < sources.len() && !(incomplete_only && has_complete(sources[j])) implies #[trigger] of.contains(j) by {
        assert(at.contains(j));
        let q = choose|q: int| 0 <= q < at.len() && at[q] == j;
        lemma_at_most(at, sources.len() as int);
        assert(order.contains(q as usize));
        let i = choose|i: int| 0 <= i < order.len() && order[i] == q as usize;
        assert(of[i] == j);
    }
    of
}

/// There are at most `n` ascending numbers below `n`.
proof fn lemma_at_most(at: Seq<int>, n: int)
    requires
        forall|i: int| 0 <= i < at.len() ==> 0 <= #[trigger] at[i] < n,
        forall|i: int, j: int| 0 <= i < j < at.len() ==> #[trigger] at[i] < #[trigger] at[j],
        0 <= n,
    ensures
        at.len() <= n,
    decreases at.len(),
{
    if at.len() > 0 {
        let init = at.drop_last();
        assert forall|i: int| 0 <= i < init.len() implies 0 <= #[trigger] init[i] < at.last() by {
            assert(at[i] < at[at.len() - 1]);
        }
        assert(0 <= at[at.len() - 1] < n);
        lemma_at_most(init, at.last());
    }
}

/// Taking one Edition out takes its variants out of the total.
proof fn lemma_total_without(editions: Seq<crate::db::EditionFields>, p: int)
    requires
        0 <= p < editions.len(),
    ensures
        variant_total(editions) == variant_total(editions.remove(p)) + editions[p].variant_count,
    decreases editions.len(),
{
    let less = editions.remove(p);
    if p == editions.len() - 1 {
        assert(less =~= editions.drop_last());
    } else {
        let init = editions.drop_last();
        lemma_total_without(init, p);
        assert(less.drop_last() =~= init.remove(p));
        assert(less.last() == editions.last());
    }
}

/// The total does not depend on the order.
proof fn lemma_total_arranged(
    items: Seq<crate::db::EditionFields>,
    order: Seq<usize>,
    out: Seq<crate::db::EditionFields>,
)
    requires
        order.len() == items.len(),
        out.len() == items.len(),
        forall|i: int|
            0 <= i < out.len() ==> (#[trigger] order[i]) < items.len() && out[i]
                == items[order[i] as int],
        forall|i: int, j: int|
            0 <= i < j < order.len() ==> #[trigger] order[i] != #[trigger] order[j],
        forall|k: usize| k < items.len() ==> #[trigger] order.contains(k),
        items.len() <= usize::MAX,
    ensures
        variant_total(out) == variant_total(items),
    decreases items.len(),
{
    if items.len() > 0 {
        let n = (items.len() - 1) as usize;
        let init = items.drop_last();
        assert(order.contains(n));
        let p = choose|p: int| 0 <= p < order.len() && order[p] == n;
        let fewer = order.remove(p);
        let less = out.remove(p);
        assert forall|i: int| 0 <= i < less.len() implies (#[trigger] fewer[i]) < init.len()
            && less[i] == init[fewer[i] as int] by {
            let q = if i < p {
                i
            } else {
                i + 1
            };
            assert(fewer[i] == order[q] && less[i] == out[q]);
            if q < p {
                assert(order[q] != order[p]);
            } else {
                assert(order[p] != order[q]);
            }
        }
        assert forall|i: int, j: int| 0 <= i < j < fewer.len() implies #[trigger] fewer[i]
            != #[trigger] fewer[j] by {
            let a = if i < p {
                i
            } else {
                i + 1
            };
            let b = if j < p {
                j
            } else {
                j + 1
            };
            assert(fewer[i] == order[a] && fewer[j] == order[b]);
        }
        assert forall|k: usize| k < init.len() implies #[trigger] fewer.contains(k) by {
            assert(order.contains(k));
            let q = choose|q: int| 0 <= q < order.len() && order[q] == k;
            if q < p {
                assert(fewer[q] == k);
            } else {
                assert(fewer[q - 1] == k);
            }
        }
        lemma_total_arranged(init, fewer, less);
        lemma_total_without(out, p);
    }
}

/// What the Editions of a row's release share.
pub open spec fn row_key(v: SetFields) -> SetKeyFields {
    SetKeyFields {
        title: v.title,
        category: v.category,
        version: v.version,
        language: v.language,
        publisher: v.publisher,
        qualifier: v.qualifier,
        disk_count: v.disk_count,
    }
}

/// Whether the Edition at `i` represents Editions: it has the lowest disk, and is the first
/// that has it.
pub open spec fn represents(editions: Seq<crate::db::EditionFields>, i: int) -> bool {
    &&& 0 <= i < editions.len()
    &&& forall|j: int|
        0 <= j < editions.len() ==> edition_disk(editions[i]) <= edition_disk(
            #[trigger] editions[j],
        ) && (j < i ==> edition_disk(editions[i]) < edition_disk(editions[j]))
}

/// Whether a row says of its release what the Editions of that release make of it: its
/// representative, the disks that are there, each once and ascending, and how many variants
/// they have together.
pub open spec fn is_row_of(editions: Seq<crate::db::EditionFields>, v: SetFields) -> bool {
    let release = of_release(editions, row_key(v));
    &&& exists|i: int| #[trigger]
        represents(release, i) && v.rep_edition_id == release[i].edition_id && v.title_id
            == release[i].title_id && v.year == release[i].year
    &&& lists_present(release, v.disks_present)
    &&& v.variant_count == variant_total(release)
}

/// A release of a source that holds a group of Editions is a row of that group.
proof fn lemma_row_of_release(
    editions: Seq<crate::db::EditionFields>,
    src: SourceFields,
    v: SetFields,
)
    requires
        editions.len() <= usize::MAX,
        is_release(editions, src.editions),
        is_set_view(src, v),
    ensures
        row_key(v) == set_key_of(src.editions[0]),
        is_row_of(editions, v),
{
    let group = src.editions;
    let key = set_key_of(group[0]);
    assert(row_key(v) =~= key);
    let items = of_release(editions, key);
    let order = choose|order: Seq<usize>| #[trigger]
        crate::order::arranges(edition_disk_lt(), items, order, group);
    crate::order::lemma_with_key_only(editions, set_keys(), key);
    let first = order[0] as int;
    assert(order[0] < items.len() && group[0] == items[first]);
    assert forall|j: int| 0 <= j < items.len() implies edition_disk(items[first]) <= edition_disk(
        #[trigger] items[j],
    ) && (j < first ==> edition_disk(items[first]) < edition_disk(items[j])) by {
        assert(order.contains(j as usize));
        let p = choose|p: int| 0 <= p < order.len() && order[p] == j as usize;
        assert(group[p] == items[order[p] as int]);
        if p > 0 {
            assert(edition_disk_lt()(group[0], group[p]) || (!edition_disk_lt()(group[p], group[0])
                && order[0] < order[p]));
        }
    }
    assert(represents(items, first));
    assert forall|k: u32| #[trigger] v.disks_present.contains(k) <==> has_disk(items, k) by {
        assert(v.disks_present.contains(k) <==> has_disk(group, k));
        if has_disk(group, k) {
            let p = choose|p: int|
                0 <= p < group.len() && (#[trigger] group[p]).disk_no == Some(k);
            assert(order[p] < items.len());
            assert(items[order[p] as int].disk_no == Some(k));
        }
        if has_disk(items, k) {
            let j = choose|j: int|
                0 <= j < items.len() && (#[trigger] items[j]).disk_no == Some(k);
            assert(order.contains(j as usize));
            let p = choose|p: int| 0 <= p < order.len() && order[p] == j as usize;
            assert(group[p] == items[order[p] as int]);
            assert(group[p].disk_no == Some(k));
        }
    }
    assert forall|i: int, j: int| 0 <= i < j < order.len() implies #[trigger] order[i]
        != #[trigger] order[j] by {
        assert(group[i] == items[order[i] as int] && group[j] == items[order[j] as int]);
        assert(edition_disk_lt()(group[i], group[j]) || order[i] < order[j]);
    }
    lemma_total_arranged(items, order, group);
}

/// Whether sources are made of groups of Editions, in order.
pub open spec fn are_sources(
    groups: Seq<Seq<crate::db::EditionFields>>,
    sources: Seq<SourceFields>,
) -> bool {
    &&& sources.len() == groups.len()
    &&& forall|g: int| 0 <= g < sources.len() ==> (#[trigger] sources[g]).editions == groups[g]
}

/// Whether a row of the list is of the release with this key.
pub open spec fn has_row_of(listing: Seq<SetFields>, key: SetKeyFields) -> bool {
    exists|i: int| 0 <= i < listing.len() && row_key(#[trigger] listing[i]) == key
}

/// The list has one row for each release that Editions form, with its lowest disk as
/// representative, sorted by title, category, qualifier and disk count. Where only the
/// incomplete releases are listed there is no second row of a release either.
pub proof fn one_row_per_release(
    editions: Seq<crate::db::EditionFields>,
    groups: Seq<Seq<crate::db::EditionFields>>,
    sources: Seq<SourceFields>,
    incomplete_only: bool,
    listing: Seq<SetFields>,
)
    requires
        editions.len() <= usize::MAX,
        sources.len() <= usize::MAX,
        are_releases(editions, groups),
        are_sources(groups, sources),
        is_listing(sources, incomplete_only, listing),
    ensures
        forall|i: int|
            0 <= i < listing.len() ==> is_row_of(editions, #[trigger] listing[i]),
        forall|i: int, j: int|
            0 <= i < j < listing.len() ==> row_key(#[trigger] listing[i]) != row_key(
                #[trigger] listing[j],
            ) && !list_lt(list_key_of(listing[j]), list_key_of(listing[i])),
        !incomplete_only ==> forall|j: int|
            0 <= j < editions.len() ==> has_row_of(listing, set_key_of(#[trigger] editions[j])),
{
    let of = lemma_rows(sources, incomplete_only, listing);
    assert forall|i: int| 0 <= i < listing.len() implies is_row_of(editions, #[trigger] listing[i])
        && row_key(listing[i]) == set_key_of(groups[of[i]][0]) by {
        assert(0 <= of[i] < sources.len());
        assert(is_release(editions, groups[of[i]]));
        lemma_row_of_release(editions, sources[of[i]], listing[i]);
    }
    let v = choose|v: Seq<SetFields>| #[trigger]
        are_set_views(kept(sources, incomplete_only), v) && crate::order::is_stable_sort(
            set_lt(),
            v,
            listing,
        );
    let order = choose|order: Seq<usize>| #[trigger]
        crate::order::arranges(set_lt(), v, order, listing);
    assert forall|i: int, j: int| 0 <= i < j < listing.len() implies row_key(
        #[trigger] listing[i],
    ) != row_key(#[trigger] listing[j]) && !list_lt(
        list_key_of(listing[j]),
        list_key_of(listing[i]),
    ) by {
        assert(of[i] != of[j]);
        let a = set_key_of(groups[of[i]][0]);
        let b = set_key_of(groups[of[j]][0]);
        assert(row_key(listing[i]) == a && row_key(listing[j]) == b);
        if of[i] < of[j] {
            assert(set_key_lt(a, b));
            SetKey::asymmetric(a, b);
        } else {
            assert(set_key_lt(b, a));
            SetKey::asymmetric(b, a);
        }
        assert(set_lt()(listing[i], listing[j]) || !set_lt()(listing[j], listing[i]));
        if list_lt(list_key_of(listing[i]), list_key_of(listing[j])) {
            ListKey::asymmetric(list_key_of(listing[i]), list_key_of(listing[j]));
        }
    }
    if !incomplete_only {
        assert forall|j: int| 0 <= j < editions.len() implies has_row_of(
            listing,
            set_key_of(#[trigger] editions[j]),
        ) by {
            let key = set_key_of(editions[j]);
            assert(has_release(groups, key));
            let g = choose|g: int|
                0 <= g < groups.len() && set_key_of((#[trigger] groups[g])[0]) == key;
            assert(sources[g].editions == groups[g]);
            assert(of.contains(g));
            let i = choose|i: int| 0 <= i < of.len() && of[i] == g;
            assert(row_key(listing[i]) == key);
        }
    }
}

/// Ascending numbers are determined by which they are.
proof fn lemma_ascending_unique(a: Seq<u32>, b: Seq<u32>)
    requires
        forall|i: int, j: int| 0 <= i < j < a.len() ==> a[i] < a[j],
        forall|i: int, j: int| 0 <= i < j < b.len() ==> b[i] < b[j],
        forall|k: u32| #[trigger] a.contains(k) <==> b.contains(k),
    ensures
        a == b,
    decreases a.len(),
{
    if a.len() == 0 {
        if b.len() > 0 {
            assert(b.contains(b[0]));
            assert(a.contains(b[0]));
        }
        assert(a =~= b);
    } else {
        assert(a.contains(a[0]));
        assert(b.contains(a[0]));
        let x = a.last();
        let y = b.last();
        assert(a.contains(a[a.len() - 1]) && b.contains(b[b.len() - 1]));
        assert(b.contains(x) && a.contains(y));
        let i = choose|i: int| 0 <= i < b.len() && b[i] == x;
        let j = choose|j: int| 0 <= j < a.len() && a[j] == y;
        assert(x == y);
        let ai = a.drop_last();
        let bi = b.drop_last();
        assert forall|k: u32| #[trigger] ai.contains(k) <==> bi.contains(k) by {
            if ai.contains(k) {
                let q = choose|q: int| 0 <= q < ai.len() && ai[q] == k;
                assert(a[q] == k && a[q] < a[a.len() - 1]);
                assert(a.contains(k));
                assert(b.contains(k));
                let p = choose|p: int| 0 <= p < b.len() && b[p] == k;
                assert(bi[p] == k);
            }
            if bi.contains(k) {
                let q = choose|q: int| 0 <= q < bi.len() && bi[q] == k;
                assert(b[q] == k && b[q] < b[b.len() - 1]);
                assert(b.contains(k));
                assert(a.contains(k));
                let p = choose|p: int| 0 <= p < a.len() && a[p] == k;
                assert(ai[p] == k);
            }
        }
        lemma_ascending_unique(ai, bi);
        assert(a =~= ai.push(x));
        assert(b =~= bi.push(y));
    }
}

/// A source has one release: everything in a row is determined by its source.
pub proof fn release_is_determined(src: SourceFields, a: SetFields, b: SetFields)
    requires
        is_set_view(src, a),
        is_set_view(src, b),
    ensures
        a == b,
{
    let members = crate::service::sets::set_members(src.rows);
    let dc = crate::service::sets::set_disk_count(src.rows);
    assert forall|k: u32| #[trigger] a.disks_present.contains(k) <==> b.disks_present.contains(
        k,
    ) by {
        assert(a.disks_present.contains(k) <==> has_disk(src.editions, k));
        assert(b.disks_present.contains(k) <==> has_disk(src.editions, k));
    }
    lemma_ascending_unique(a.disks_present, b.disks_present);
    if exists|t: Seq<char>| #[trigger] crate::ranking::has_lineage(members, t) {
        let t = choose|t: Seq<char>| #[trigger] crate::ranking::has_lineage(members, t);
        let tag = crate::ranking::primary_lineage_exists(members, dc, t);
        assert(a.primary_lineage == crate::edition::unless_empty(tag));
        assert(b.primary_lineage == crate::edition::unless_empty(tag));
    }
    assert(a =~= b);
}

/// A release counts no complete lineage exactly where none of its lineages is complete.
proof fn lemma_none_complete(src: SourceFields, v: SetFields)
    requires
        is_set_view(src, v),
    ensures
        v.complete_lineages == 0 <==> !has_complete(src),
{
    let members = crate::service::sets::set_members(src.rows);
    let dc = crate::service::sets::set_disk_count(src.rows);
    let s = complete_tags(members, dc);
    let tags = members.map_values(|m: crate::ranking::MemberFields| crate::ranking::tag_of(m));
    assert forall|t: Seq<char>| s.contains(t) implies tags.to_set().contains(t) by {
        let i = choose|i: int| crate::ranking::of_lineage(members, t, i);
        assert(tags[i] == t);
    }
    vstd::seq_lib::seq_to_set_is_finite(tags);
    vstd::set_lib::lemma_set_subset_finite(tags.to_set(), s);
    if s.len() == 0 {
        assert(s =~= Set::empty());
    } else {
        assert(s.contains(s.choose()));
    }
    if !has_complete(src) {
        assert(s =~= Set::empty());
    }
}

/// The list of the incomplete releases holds exactly those rows of the whole list that count
/// no complete lineage.
pub proof fn incomplete_list_is_exact(
    sources: Seq<SourceFields>,
    all: Seq<SetFields>,
    incomplete: Seq<SetFields>,
)
    requires
        sources.len() <= usize::MAX,
        is_listing(sources, false, all),
        is_listing(sources, true, incomplete),
    ensures
        forall|v: SetFields| #[trigger]
            incomplete.contains(v) <==> all.contains(v) && v.complete_lineages == 0,
{
    let every = lemma_rows(sources, false, all);
    let some = lemma_rows(sources, true, incomplete);
    assert forall|v: SetFields| #[trigger]
        incomplete.contains(v) <==> all.contains(v) && v.complete_lineages == 0 by {
        if incomplete.contains(v) {
            let i = choose|i: int| 0 <= i < incomplete.len() && incomplete[i] == v;
            let j = some[i];
            assert(0 <= j < sources.len() && is_set_view(sources[j], v));
            lemma_none_complete(sources[j], v);
            assert(every.contains(j));
            let k = choose|k: int| 0 <= k < every.len() && every[k] == j;
            assert(is_set_view(sources[every[k]], all[k]));
            release_is_determined(sources[j], v, all[k]);
            assert(all[k] == v);
        }
        if all.contains(v) && v.complete_lineages == 0 {
            let k = choose|k: int| 0 <= k < all.len() && all[k] == v;
            let j = every[k];
            assert(0 <= j < sources.len() && is_set_view(sources[j], v));
            lemma_none_complete(sources[j], v);
            assert(some.contains(j));
            let i = choose|i: int| 0 <= i < some.len() && some[i] == j;
            assert(is_set_view(sources[some[i]], incomplete[i]));
            release_is_determined(sources[j], v, incomplete[i]);
            assert(incomplete[i] == v);
        }
    }
}

/// The variants of a release add up over its Editions.
pub proof fn variants_add_up(
    a: Seq<crate::db::EditionFields>,
    b: Seq<crate::db::EditionFields>,
    e: crate::db::EditionFields,
)
    ensures
        variant_total(a + b) == variant_total(a) + variant_total(b),
        variant_total(seq![e]) == e.variant_count,
        variant_total(Seq::empty()) == 0,
    decreases b.len(),
{
    assert(seq![e].drop_last() =~= Seq::<crate::db::EditionFields>::empty());
    reveal_with_fuel(variant_total, 2);
    if b.len() == 0 {
        assert(a + b =~= a);
    } else {
        variants_add_up(a, b.drop_last(), e);
        assert((a + b).drop_last() =~= a + b.drop_last());
        assert((a + b).last() == b.last());
    }
}

/// A row shows what its first Edition says of the release. It is of several disks exactly
/// where that says more than one, or there is more than one Edition; it lists the disk numbers
/// of its Editions, each once and in order, and counts their variants together.
pub proof fn row_shows_its_first_edition(src: SourceFields, v: SetFields)
    requires
        src.editions.len() > 0,
        is_set_view(src, v),
    ensures
        v.rep_edition_id == src.editions[0].edition_id,
        v.title_id == src.editions[0].title_id,
        v.title == src.editions[0].title,
        v.category == src.editions[0].category,
        v.publisher == src.editions[0].publisher,
        v.year == src.editions[0].year,
        v.version == src.editions[0].version,
        v.version is None <==> v.version_key is None,
        v.version matches Some(x) ==> v.version_key == Some(crate::naming::version_key_of(x)),
        v.language == src.editions[0].language,
        v.qualifier == src.editions[0].qualifier,
        v.disk_count == src.editions[0].disk_count,
        v.multi <==> (src.editions[0].disk_count matches Some(d) && d >= 2) || src.editions.len()
            >= 2,
        forall|d: u32| #[trigger]
            v.disks_present.contains(d) <==> exists|i: int|
                0 <= i < src.editions.len() && (#[trigger] src.editions[i]).disk_no == Some(d),
        forall|i: int, j: int|
            0 <= i < j < v.disks_present.len() ==> v.disks_present[i] < v.disks_present[j],
        v.variant_count == variant_total(src.editions),
        v.meta == src.meta,
{
}

/// A lineage of a release is complete exactly where some member counts for it and every disk
/// from 1 to the disk count is one of them; a row counts its complete lineages, and its
/// lineages of each class.
pub proof fn row_counts_its_lineages(src: SourceFields, v: SetFields, tag: Seq<char>)
    requires
        is_set_view(src, v),
    ensures
        ({
            let m = crate::service::sets::set_members(src.rows);
            let dc = crate::service::sets::set_disk_count(src.rows);
            &&& complete_tags(m, dc).contains(tag) <==> (exists|i: int|
                0 <= i < m.len() && crate::ranking::belongs(#[trigger] m[i], tag)) && forall|
                d: u32,
            |
                1 <= d <= dc ==> #[trigger] crate::ranking::covers(m, tag, d)
            &&& class_tags(m, "original"@).contains(tag) <==> (exists|i: int|
                0 <= i < m.len() && crate::ranking::belongs(#[trigger] m[i], tag))
                && crate::service::sets::class_of(m, tag) == "original"@
            &&& class_tags(m, "cracked"@).contains(tag) <==> (exists|i: int|
                0 <= i < m.len() && crate::ranking::belongs(#[trigger] m[i], tag))
                && crate::service::sets::class_of(m, tag) == "cracked"@
            &&& class_tags(m, "hacked"@).contains(tag) <==> (exists|i: int|
                0 <= i < m.len() && crate::ranking::belongs(#[trigger] m[i], tag))
                && crate::service::sets::class_of(m, tag) == "hacked"@
            &&& v.complete_lineages == complete_tags(m, dc).len()
            &&& v.original_count == class_tags(m, "original"@).len()
            &&& v.cracked_count == class_tags(m, "cracked"@).len()
            &&& v.hacked_count == class_tags(m, "hacked"@).len()
        }),
{
    let m = crate::service::sets::set_members(src.rows);
    crate::ranking::coverage_is_by_members(m, tag, 1);
}

/// A row names its primary lineage: where some member is sound, there is one, and the row
/// shows its name, or nothing where it has none; where no member is sound, it shows nothing.
pub proof fn row_names_its_primary_lineage(src: SourceFields, v: SetFields)
    requires
        is_set_view(src, v),
    ensures
        ({
            let m = crate::service::sets::set_members(src.rows);
            let dc = crate::service::sets::set_disk_count(src.rows);
            &&& v.primary_lineage matches Some(t) ==> t.len() > 0
                && crate::ranking::is_primary_lineage(m, dc, t)
            &&& v.primary_lineage is None ==> crate::ranking::is_primary_lineage(m, dc, seq![])
                || forall|i: int| 0 <= i < m.len() ==> (#[trigger] m[i]).info.disqualified()
        }),
{
    let m = crate::service::sets::set_members(src.rows);
    let dc = crate::service::sets::set_disk_count(src.rows);
    if exists|i: int| 0 <= i < m.len() && !(#[trigger] m[i]).info.disqualified() {
        let i = choose|i: int| 0 <= i < m.len() && !(#[trigger] m[i]).info.disqualified();
        let other = crate::ranking::tag_of(m[i]);
        assert(crate::ranking::of_lineage(m, other, i));
        let tag = crate::ranking::primary_lineage_exists(m, dc, other);
        if tag.len() == 0 {
            assert(tag =~= Seq::<char>::empty());
        }
    } else {
        assert forall|tag: Seq<char>| !#[trigger] crate::ranking::has_lineage(m, tag) by {
            if crate::ranking::has_lineage(m, tag) {
                let i = choose|i: int| crate::ranking::of_lineage(m, tag, i);
                assert(!m[i].info.disqualified());
            }
        }
    }
}

/// What is listed goes release by release: asked for everything, every release is kept; asked
/// for what is incomplete, one is kept exactly where no lineage of it is complete.
pub proof fn listing_keeps_releases_one_by_one(
    a: Seq<SourceFields>,
    b: Seq<SourceFields>,
    s: SourceFields,
)
    ensures
        kept(a, false) == a,
        kept(a + b, true) == kept(a, true) + kept(b, true),
        has_complete(s) ==> kept(seq![s], true).len() == 0,
        !has_complete(s) ==> kept(seq![s], true) == seq![s],
{
    let one = seq![s];
    assert(one.drop_last() =~= Seq::<SourceFields>::empty());
    reveal_with_fuel(kept, 2);
    if !has_complete(s) {
        assert(kept(one, true) =~= one);
    }
    lemma_all_kept(a);
    lemma_kept_add(a, b);
}

/// Everything is kept where everything is asked for.
proof fn lemma_all_kept(a: Seq<SourceFields>)
    ensures
        kept(a, false) == a,
    decreases a.len(),
{
    if a.len() > 0 {
        lemma_all_kept(a.drop_last());
        assert(a.drop_last().push(a.last()) =~= a);
    } else {
        assert(kept(a, false) =~= a);
    }
}

/// What is kept of two lists together.
proof fn lemma_kept_add(a: Seq<SourceFields>, b: Seq<SourceFields>)
    ensures
        kept(a + b, true) == kept(a, true) + kept(b, true),
    decreases b.len(),
{
    if b.len() == 0 {
        assert(a + b =~= a);
        assert(kept(a, true) + kept(b, true) =~= kept(a, true));
    } else {
        lemma_kept_add(a, b.drop_last());
        assert((a + b).drop_last() =~= a + b.drop_last());
        assert((a + b).last() == b.last());
        assert(kept(a + b, true) =~= kept(a, true) + kept(b, true));
    }
}

/// Releases are ordered by title, then category, version, language, publisher, qualifier and
/// disk count: the first of these that differs decides. Absence comes first.
pub proof fn first_different_field_orders_releases(a: SetKeyFields, b: SetKeyFields)
    ensures
        !set_key_lt(a, a),
        crate::text::text_lt(a.title, b.title) ==> set_key_lt(a, b),
        a.title == b.title && crate::text::text_lt(a.category, b.category) ==> set_key_lt(a, b),
        a.title == b.title && a.category == b.category ==> {
            &&& opt_before(a.version, b.version) ==> set_key_lt(a, b)
            &&& a.version == b.version ==> {
                &&& opt_before(a.language, b.language) ==> set_key_lt(a, b)
                &&& a.language == b.language ==> {
                    &&& opt_before(a.publisher, b.publisher) ==> set_key_lt(a, b)
                    &&& a.publisher == b.publisher ==> {
                        &&& opt_before(a.qualifier, b.qualifier) ==> set_key_lt(a, b)
                        &&& a.qualifier == b.qualifier && (a.disk_count is None && b.disk_count is Some
                            || (a.disk_count is Some && b.disk_count is Some && a.disk_count->0
                            < b.disk_count->0)) ==> set_key_lt(a, b)
                    }
                }
            }
        },
{
    lemma_set_key_order(a, a, a);
}

/// Whether an optional text is before another: absence before presence, texts by their order.
pub open spec fn opt_before(a: Option<Seq<char>>, b: Option<Seq<char>>) -> bool {
    b is Some && (a is None || crate::text::text_lt(a->0, b->0))
}

/// Rows are ordered by title, then category, qualifier and disk count: the first of these that
/// differs decides. Absence comes first.
pub proof fn first_different_field_orders_rows(a: ListFields, b: ListFields)
    ensures
        !list_lt(a, a),
        crate::text::text_lt(a.title, b.title) ==> list_lt(a, b),
        a.title == b.title && crate::text::text_lt(a.category, b.category) ==> list_lt(a, b),
        a.title == b.title && a.category == b.category ==> {
            &&& opt_before(a.qualifier, b.qualifier) ==> list_lt(a, b)
            &&& a.qualifier == b.qualifier && (a.disk_count is None && b.disk_count is Some || (
            a.disk_count is Some && b.disk_count is Some && a.disk_count->0 < b.disk_count->0))
                ==> list_lt(a, b)
        },
{
    lemma_list_order(a, a, a);
}

/// The Editions of a release come in the order of their disks, those without a disk number
/// first, and share its title, category, version, language, publisher, qualifier and disk
/// count.
pub proof fn editions_of_a_release_come_by_disk(
    editions: Seq<crate::db::EditionFields>,
    group: Seq<crate::db::EditionFields>,
    i: int,
    j: int,
)
    requires
        editions.len() <= usize::MAX,
        is_release(editions, group),
        0 <= i < j < group.len(),
    ensures
        group[i].disk_no is Some && group[i].disk_no->0 > 0 ==> group[j].disk_no is Some
            && group[i].disk_no->0 <= group[j].disk_no->0,
        group[i].title == group[j].title,
        group[i].category == group[j].category,
        group[i].version == group[j].version,
        group[i].language == group[j].language,
        group[i].publisher == group[j].publisher,
        group[i].qualifier == group[j].qualifier,
        group[i].disk_count == group[j].disk_count,
        editions.contains(group[i]),
{
    let key = set_key_of(group[0]);
    let items = of_release(editions, key);
    lemma_release_size(editions, key);
    crate::order::lemma_sorted_has(edition_disk_lt(), items, group);
    crate::order::lemma_with_key_only(editions, set_keys(), key);
    assert(edition_disk_lt()(group[i], group[j]) || !edition_disk_lt()(group[j], group[i]));
    assert(group.contains(group[i]) && group.contains(group[j]));
    assert(items.contains(group[i]) && items.contains(group[j]));
    let p = choose|p: int| 0 <= p < items.len() && items[p] == group[i];
    let q = choose|q: int| 0 <= q < items.len() && items[q] == group[j];
    assert(set_keys()(items[p]) == key && set_keys()(items[q]) == key);
    lemma_release_within(editions, key, p);
}

/// The Editions of a release are no more than all Editions.
proof fn lemma_release_size(editions: Seq<crate::db::EditionFields>, key: SetKeyFields)
    ensures
        of_release(editions, key).len() <= editions.len(),
    decreases editions.len(),
{
    if editions.len() > 0 {
        lemma_release_size(editions.drop_last(), key);
    }
}

/// The Editions of a release are among all Editions.
proof fn lemma_release_within(editions: Seq<crate::db::EditionFields>, key: SetKeyFields, k: int)
    requires
        0 <= k < of_release(editions, key).len(),
    ensures
        editions.contains(of_release(editions, key)[k]),
    decreases editions.len(),
{
    let init = editions.drop_last();
    let rest = of_release(init, key);
    if k < rest.len() {
        lemma_release_within(init, key, k);
        let j = choose|j: int| 0 <= j < init.len() && init[j] == rest[k];
        assert(editions[j] == rest[k]);
    } else {
        assert(editions[editions.len() - 1] == of_release(editions, key)[k]);
    }
}

/// The cover of a title is its first screenshot.
pub proof fn cover_is_the_first_screenshot(shots: Seq<ShotFields>)
    ensures
        cover_of(shots) is None <==> shots.len() == 0,
        shots.len() > 0 ==> cover_of(shots) == Some(shots[0].sha1),
{
}

/// Editions of a release with one disk number come in the order that they were in.
pub proof fn editions_with_one_disk_keep_their_order(
    editions: Seq<crate::db::EditionFields>,
    group: Seq<crate::db::EditionFields>,
    a: int,
    b: int,
) -> (at: (int, int))
    requires
        editions.len() <= usize::MAX,
        is_release(editions, group),
        0 <= a < b < of_release(editions, set_key_of(group[0])).len(),
        of_release(editions, set_key_of(group[0]))[a].disk_no == of_release(
            editions,
            set_key_of(group[0]),
        )[b].disk_no,
    ensures
        0 <= at.0 < at.1 < group.len(),
        group[at.0] == of_release(editions, set_key_of(group[0]))[a],
        group[at.1] == of_release(editions, set_key_of(group[0]))[b],
{
    let items = of_release(editions, set_key_of(group[0]));
    lemma_release_size(editions, set_key_of(group[0]));
    assert(!edition_disk_lt()(items[a], items[b]) && !edition_disk_lt()(items[b], items[a]));
    crate::order::sorting_keeps_the_order_of_equals(edition_disk_lt(), items, group, a, b)
}

/// The variants of Editions can be counted together where no sum along the way leaves the range
/// of a 64-bit count.
pub proof fn variants_fit_where_every_sum_does(editions: Seq<crate::db::EditionFields>)
    ensures
        counts_fit(editions) <==> forall|k: int|
            0 <= k <= editions.len() ==> -0x8000_0000_0000_0000 <= variant_total(
                #[trigger] editions.take(k),
            ) <= 0x7fff_ffff_ffff_ffff,
{
}

/// What is listed for a title goes with its releases: the Editions of two lists together are, for
/// each release, those of the one and then those of the other.
pub proof fn releases_join(
    a: Seq<crate::db::EditionFields>,
    b: Seq<crate::db::EditionFields>,
    e: crate::db::EditionFields,
    key: SetKeyFields,
)
    ensures
        of_release(a + b, key) == of_release(a, key) + of_release(b, key),
        e.title == key.title && e.category == key.category && e.version == key.version && e.language
            == key.language && e.publisher == key.publisher && e.qualifier == key.qualifier
            && e.disk_count == key.disk_count ==> of_release(seq![e], key) == seq![e],
        !(e.title == key.title && e.category == key.category && e.version == key.version
            && e.language == key.language && e.publisher == key.publisher && e.qualifier
            == key.qualifier && e.disk_count == key.disk_count) ==> of_release(seq![e], key).len()
            == 0,
{
    crate::order::picking_by_key_is_itemwise(a, b, e, set_keys(), key);
}

} // verus!
