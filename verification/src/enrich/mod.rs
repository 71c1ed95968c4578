//! Enrichment: pull editorial metadata (description, genre, screenshots) for a
//! logical work from online Amiga libraries and attach it to its title.
//!
//! Each source is queried in turn; results are fuzzy-matched by title name, merged
//! (Amiga-native sources first), and persisted — screenshot bytes into the
//! content-addressed blob store.
//!
//! - [`matching`]: how alike two titles are.
//! - [`openretro`]: what is read off the pages of one source.

pub mod matching;
pub mod openretro;

use vstd::prelude::*;

use crate::error::Error;
use crate::text::{
    append_text, begins, chars_of, clone_opt, cut_before, join_strings, lists_text, owned, same,
    string_of, trimmed,
};

verus! {

// --- What is looked up and found --------------------------------------------

/// A title to look up, with matching hints.
#[derive(Debug, Clone)]
pub struct TitleQuery {
    pub title_id: i64,
    pub name: String,
    pub year: Option<i32>,
    pub category: String,
}

/// What a [`TitleQuery`] holds.
#[verifier::ext_equal]
pub struct QueryFields {
    pub title_id: i64,
    pub name: Seq<char>,
    pub year: Option<i32>,
    pub category: Seq<char>,
}

impl View for TitleQuery {
    type V = QueryFields;

    open spec fn view(&self) -> QueryFields {
        QueryFields {
            title_id: self.title_id,
            name: self.name@,
            year: self.year,
            category: self.category@,
        }
    }
}

/// One screenshot reference returned by a provider (a remote image URL).
#[derive(Debug, Clone)]
pub struct Shot {
    pub url: String,
    pub caption: Option<String>,
    pub source: String,
}

/// What a [`Shot`] holds.
#[verifier::ext_equal]
pub struct LinkFields {
    pub url: Seq<char>,
    pub caption: Option<Seq<char>>,
    pub source: Seq<char>,
}

impl View for Shot {
    type V = LinkFields;

    open spec fn view(&self) -> LinkFields {
        LinkFields {
            url: self.url@,
            caption: crate::text::opt_view(self.caption),
            source: self.source@,
        }
    }
}

impl Shot {
    /// A copy of this record.
    pub fn copy(&self) -> (r: Shot)
        ensures
            r@ == self@,
    {
        Shot {
            url: owned(&self.url),
            caption: clone_opt(&self.caption),
            source: owned(&self.source),
        }
    }
}

/// What screenshot references hold.
pub open spec fn link_views(s: Seq<Shot>) -> Seq<LinkFields> {
    s.map_values(|x: Shot| x@)
}

/// A single provider's result for a title.
#[derive(Debug, Clone)]
pub struct ProviderResult {
    pub source: String,
    pub external_url: Option<String>,
    pub description: Option<String>,
    pub genre: Option<String>,
    pub year: Option<i32>,
    pub shots: Vec<Shot>,
    /// Fuzzy name-match confidence of this result (0..1), as the bits of a
    /// single-precision number.
    pub score: u32,
}

/// What a [`ProviderResult`] holds.
#[verifier::ext_equal]
pub struct ResultFields {
    pub source: Seq<char>,
    pub external_url: Option<Seq<char>>,
    pub description: Option<Seq<char>>,
    pub genre: Option<Seq<char>>,
    pub year: Option<i32>,
    pub shots: Seq<LinkFields>,
    pub score: u32,
}

impl View for ProviderResult {
    type V = ResultFields;

    open spec fn view(&self) -> ResultFields {
        ResultFields {
            source: self.source@,
            external_url: crate::text::opt_view(self.external_url),
            description: crate::text::opt_view(self.description),
            genre: crate::text::opt_view(self.genre),
            year: self.year,
            shots: link_views(self.shots@),
            score: self.score,
        }
    }
}

/// What results hold.
pub open spec fn result_views(s: Seq<ProviderResult>) -> Seq<ResultFields> {
    s.map_values(|x: ProviderResult| x@)
}

/// The merged editorial record for a title, ready to persist.
#[derive(Debug, Clone)]
pub struct Merged {
    pub genre: Option<String>,
    pub description: Option<String>,
    pub year: Option<i32>,
    pub sources: String,
    pub external_url: Option<String>,
    /// The best score, as the bits of a single-precision number.
    pub score: u32,
    pub shots: Vec<Shot>,
}

/// What a [`Merged`] holds.
#[verifier::ext_equal]
pub struct MergedFields {
    pub genre: Option<Seq<char>>,
    pub description: Option<Seq<char>>,
    pub year: Option<i32>,
    pub sources: Seq<char>,
    pub external_url: Option<Seq<char>>,
    pub score: u32,
    pub shots: Seq<LinkFields>,
}

impl View for Merged {
    type V = MergedFields;

    open spec fn view(&self) -> MergedFields {
        MergedFields {
            genre: crate::text::opt_view(self.genre),
            description: crate::text::opt_view(self.description),
            year: self.year,
            sources: self.sources@,
            external_url: crate::text::opt_view(self.external_url),
            score: self.score,
            shots: link_views(self.shots@),
        }
    }
}

/// A downloaded screenshot ready to persist: `(bytes, mime, caption, source, ord)`.
pub type ScreenshotBytes = (Vec<u8>, String, Option<String>, String, i64);

// --- Scores -----------------------------------------------------------------

/// Minimum name-match score for a provider result to be accepted: the bits of 0.55 as
/// a single-precision number.
pub const SCORE_FLOOR: u32 = 0x3f0c_cccd;

/// Cap on screenshots stored per title.
pub const MAX_SHOTS: usize = 6;

/// The bits of a single-precision number without its sign.
pub open spec fn magnitude(bits: u32) -> int {
    if bits >= 0x8000_0000 {
        bits - 0x8000_0000
    } else {
        bits as int
    }
}

/// Whether bits are those of no number.
pub open spec fn is_nan(bits: u32) -> bool {
    magnitude(bits) > 0x7f80_0000
}

/// Where bits stand among the single-precision numbers: as those do, and both zeroes
/// at the same place.
pub open spec fn rank(bits: u32) -> int {
    if bits >= 0x8000_0000 {
        -magnitude(bits)
    } else {
        magnitude(bits)
    }
}

/// Whether one score is higher than another; what is no number is neither higher nor
/// lower than anything.
pub open spec fn higher(a: u32, b: u32) -> bool {
    !is_nan(a) && !is_nan(b) && rank(a) > rank(b)
}

/// Whether a score is accepted.
pub open spec fn clears_floor(score: u32) -> bool {
    !is_nan(score) && rank(score) >= rank(SCORE_FLOOR)
}

/// Whether one score is higher than another.
pub fn is_higher(a: u32, b: u32) -> (r: bool)
    ensures
        r == higher(a, b),
{
    let ma: i64 = if a >= 0x8000_0000 {
        a as i64 - 0x8000_0000
    } else {
        a as i64
    };
    let mb: i64 = if b >= 0x8000_0000 {
        b as i64 - 0x8000_0000
    } else {
        b as i64
    };
    if ma > 0x7f80_0000 || mb > 0x7f80_0000 {
        return false;
    }
    let ra: i64 = if a >= 0x8000_0000 {
        0 - ma
    } else {
        ma
    };
    let rb: i64 = if b >= 0x8000_0000 {
        0 - mb
    } else {
        mb
    };
    ra > rb
}

/// Whether a score is accepted.
pub fn is_accepted(score: u32) -> (r: bool)
    ensures
        r == clears_floor(score),
{
    SCORE_FLOOR <= score && score <= 0x7f80_0000
}

// --- Merging ----------------------------------------------------------------

/// The results that are accepted, in order.
pub open spec fn accepted(results: Seq<ResultFields>) -> Seq<ResultFields>
    decreases results.len(),
{
    if results.len() == 0 {
        results
    } else {
        let rest = accepted(results.drop_last());
        if clears_floor(results.last().score) {
            rest.push(results.last())
        } else {
            rest
        }
    }
}

/// A text, where it is there and not empty.
pub open spec fn filled_text(t: Option<Seq<char>>) -> Option<Seq<char>> {
    match t {
        Some(x) => if x.len() > 0 {
            Some(x)
        } else {
            None
        },
        None => None,
    }
}

/// The first text that is not empty.
pub open spec fn first_text(s: Seq<Option<Seq<char>>>) -> Option<Seq<char>>
    decreases s.len(),
{
    if s.len() == 0 {
        None
    } else {
        match first_text(s.drop_last()) {
            Some(t) => Some(t),
            None => filled_text(s.last()),
        }
    }
}

/// The first year that is there.
pub open spec fn first_year(s: Seq<ResultFields>) -> Option<i32>
    decreases s.len(),
{
    if s.len() == 0 {
        None
    } else {
        match first_year(s.drop_last()) {
            Some(y) => Some(y),
            None => s.last().year,
        }
    }
}

/// The highest score.
pub open spec fn best_score(s: Seq<ResultFields>) -> u32
    decreases s.len(),
{
    if s.len() == 0 {
        0
    } else {
        let rest = best_score(s.drop_last());
        if higher(s.last().score, rest) {
            s.last().score
        } else {
            rest
        }
    }
}

/// Texts, each once, at its first place.
pub open spec fn unique_texts(s: Seq<Seq<char>>) -> Seq<Seq<char>>
    decreases s.len(),
{
    if s.len() == 0 {
        s
    } else {
        let rest = unique_texts(s.drop_last());
        if rest.contains(s.last()) {
            rest
        } else {
            rest.push(s.last())
        }
    }
}

/// The screenshots of results, one after the other.
pub open spec fn all_links(s: Seq<ResultFields>) -> Seq<LinkFields>
    decreases s.len(),
{
    if s.len() == 0 {
        Seq::empty()
    } else {
        all_links(s.drop_last()) + s.last().shots
    }
}

/// Whether a screenshot has this URL.
pub open spec fn has_url(s: Seq<LinkFields>, url: Seq<char>) -> bool {
    exists|i: int| 0 <= i < s.len() && (#[trigger] s[i]).url == url
}

/// Screenshots, each URL once, at its first place.
pub open spec fn unique_links(s: Seq<LinkFields>) -> Seq<LinkFields>
    decreases s.len(),
{
    if s.len() == 0 {
        s
    } else {
        let rest = unique_links(s.drop_last());
        if has_url(rest, s.last().url) {
            rest
        } else {
            rest.push(s.last())
        }
    }
}

/// The record that results are merged to; nothing where none is accepted.
pub open spec fn merged_of(results: Seq<ResultFields>) -> Option<MergedFields> {
    let k = accepted(results);
    if k.len() == 0 {
        None
    } else {
        Some(
            MergedFields {
                genre: first_text(k.map_values(|r: ResultFields| r.genre)),
                description: first_text(k.map_values(|r: ResultFields| r.description)),
                year: first_year(k),
                sources: crate::text::join(
                    unique_texts(k.map_values(|r: ResultFields| r.source)),
                    ","@,
                ),
                external_url: first_text(k.map_values(|r: ResultFields| r.external_url)),
                score: best_score(k),
                shots: unique_links(all_links(k)),
            },
        )
    }
}

/// The results that are accepted, in order.
fn keep_accepted(results: Vec<ProviderResult>) -> (kept: Vec<ProviderResult>)
    ensures
        result_views(kept@) == accepted(result_views(results@)),
{
    let ghost all = results@;
    let ghost rv = result_views(all);
    let mut results = results;
    let mut kept: Vec<ProviderResult> = Vec::new();
    let ghost mut n: int = 0;
    assert(rv.take(0) =~= Seq::empty());
    assert(result_views(kept@) =~= Seq::empty());
    while results.len() > 0
        invariant
            0 <= n <= all.len(),
            rv == result_views(all),
            results@ == all.skip(n),
            result_views(kept@) == accepted(rv.take(n)),
        decreases results@.len(),
    {
        let ghost had = kept@;
        assert(results@[0] == all[n]);
        let r = results.remove(0);
        proof {
            assert(results@ =~= all.skip(n + 1));
            assert(rv.take(n + 1).drop_last() =~= rv.take(n));
            assert(rv[n] == r@);
        }
        if is_accepted(r.score) {
            kept.push(r);
            assert(result_views(kept@) =~= result_views(had).push(r@));
        }
        proof {
            n = n + 1;
        }
    }
    assert(rv.take(n) =~= rv);
    kept
}

/// Which text of a result to look at.
#[derive(Debug, Clone, Copy, PartialEq, Eq, Structural)]
pub enum Field {
    Genre,
    Description,
    ExternalUrl,
}

/// A text of a result.
pub open spec fn field_of(r: ResultFields, f: Field) -> Option<Seq<char>> {
    match f {
        Field::Genre => r.genre,
        Field::Description => r.description,
        Field::ExternalUrl => r.external_url,
    }
}

/// A copy of a text, where it is there and not empty.
fn filled_copy(t: &Option<String>) -> (r: Option<String>)
    ensures
        crate::text::opt_view(r) == filled_text(crate::text::opt_view(*t)),
{
    match t {
        Some(x) => {
            if same(x, "") {
                proof {
                    reveal_strlit("");
                }
                None
            } else {
                proof {
                    reveal_strlit("");
                    if x@.len() == 0 {
                        assert(x@ =~= ""@);
                    }
                }
                Some(owned(x))
            }
        },
        None => None,
    }
}

/// The first such text that is not empty.
fn first_field(kept: &[ProviderResult], f: Field) -> (r: Option<String>)
    ensures
        crate::text::opt_view(r) == first_text(
            result_views(kept@).map_values(|r: ResultFields| field_of(r, f)),
        ),
{
    let ghost fv = result_views(kept@).map_values(|r: ResultFields| field_of(r, f));
    let mut found: Option<String> = None;
    let mut i: usize = 0;
    assert(fv.take(0) =~= Seq::empty());
    while i < kept.len()
        invariant
            i <= kept@.len(),
            fv == result_views(kept@).map_values(|r: ResultFields| field_of(r, f)),
            crate::text::opt_view(found) == first_text(fv.take(i as int)),
        decreases kept@.len() - i,
    {
        proof {
            assert(fv.take(i + 1).drop_last() =~= fv.take(i as int));
            assert(fv[i as int] == field_of(kept@[i as int]@, f));
        }
        if found.is_none() {
            found = match f {
                Field::Genre => filled_copy(&kept[i].genre),
                Field::Description => filled_copy(&kept[i].description),
                Field::ExternalUrl => filled_copy(&kept[i].external_url),
            };
        }
        i += 1;
    }
    assert(fv.take(i as int) =~= fv);
    found
}

/// The first year, and the highest score.
fn year_and_score(kept: &[ProviderResult]) -> (r: (Option<i32>, u32))
    ensures
        r.0 == first_year(result_views(kept@)),
        r.1 == best_score(result_views(kept@)),
{
    let ghost kv = result_views(kept@);
    let mut year: Option<i32> = None;
    let mut score: u32 = 0;
    let mut i: usize = 0;
    assert(kv.take(0) =~= Seq::empty());
    while i < kept.len()
        invariant
            i <= kept@.len(),
            kv == result_views(kept@),
            year == first_year(kv.take(i as int)),
            score == best_score(kv.take(i as int)),
        decreases kept@.len() - i,
    {
        proof {
            assert(kv.take(i + 1).drop_last() =~= kv.take(i as int));
            assert(kv[i as int] == kept@[i as int]@);
        }
        if year.is_none() {
            year = kept[i].year;
        }
        if is_higher(kept[i].score, score) {
            score = kept[i].score;
        }
        i += 1;
    }
    assert(kv.take(i as int) =~= kv);
    (year, score)
}

/// The sources of results, each once.
fn unique_sources(kept: &[ProviderResult]) -> (r: Vec<String>)
    ensures
        crate::text::views(r@) == unique_texts(
            result_views(kept@).map_values(|r: ResultFields| r.source),
        ),
{
    let ghost sv = result_views(kept@).map_values(|r: ResultFields| r.source);
    let mut r: Vec<String> = Vec::new();
    let mut i: usize = 0;
    assert(sv.take(0) =~= Seq::empty());
    assert(crate::text::views(r@) =~= Seq::empty());
    while i < kept.len()
        invariant
            i <= kept@.len(),
            sv == result_views(kept@).map_values(|r: ResultFields| r.source),
            crate::text::views(r@) == unique_texts(sv.take(i as int)),
        decreases kept@.len() - i,
    {
        let ghost had = r@;
        proof {
            assert(sv.take(i + 1).drop_last() =~= sv.take(i as int));
            assert(sv[i as int] == kept@[i as int]@.source);
        }
        if !lists_text(&r, &kept[i].source) {
            let s = owned(&kept[i].source);
            r.push(s);
            assert(crate::text::views(r@) =~= crate::text::views(had).push(s@));
        }
        i += 1;
    }
    assert(sv.take(i as int) =~= sv);
    r
}

/// Whether a screenshot has this URL.
fn knows_url(s: &[Shot], url: &str) -> (r: bool)
    ensures
        r == has_url(link_views(s@), url@),
{
    let mut i: usize = 0;
    while i < s.len()
        invariant
            i <= s@.len(),
            forall|j: int| 0 <= j < i ==> (#[trigger] s@[j]).url@ != url@,
        decreases s@.len() - i,
    {
        if same(&s[i].url, url) {
            assert(link_views(s@)[i as int].url == url@);
            return true;
        }
        i += 1;
    }
    assert forall|j: int| 0 <= j < s@.len() implies (#[trigger] link_views(s@)[j]).url != url@ by {
        assert(s@[j].url@ != url@);
    }
    false
}

/// Screenshots, and more after them, each URL once.
proof fn lemma_unique_more(a: Seq<LinkFields>, b: Seq<LinkFields>, k: int)
    requires
        0 <= k < b.len(),
    ensures
        unique_links(a + b.take(k + 1)) == (if has_url(unique_links(a + b.take(k)), b[k].url) {
            unique_links(a + b.take(k))
        } else {
            unique_links(a + b.take(k)).push(b[k])
        }),
{
    let more = a + b.take(k + 1);
    assert(more.drop_last() =~= a + b.take(k));
    assert(more.last() == b[k]);
}

/// The screenshots of results, each URL once.
fn union_shots(kept: &[ProviderResult]) -> (r: Vec<Shot>)
    ensures
        link_views(r@) == unique_links(all_links(result_views(kept@))),
{
    let ghost kv = result_views(kept@);
    let mut r: Vec<Shot> = Vec::new();
    let mut i: usize = 0;
    assert(kv.take(0) =~= Seq::empty());
    assert(link_views(r@) =~= Seq::empty());
    while i < kept.len()
        invariant
            i <= kept@.len(),
            kv == result_views(kept@),
            link_views(r@) == unique_links(all_links(kv.take(i as int))),
        decreases kept@.len() - i,
    {
        let ghost had = all_links(kv.take(i as int));
        let shots = &kept[i].shots;
        let ghost mine = link_views(shots@);
        let mut j: usize = 0;
        assert(had + mine.take(0) =~= had);
        while j < shots.len()
            invariant
                j <= shots@.len(),
                mine == link_views(shots@),
                link_views(r@) == unique_links(had + mine.take(j as int)),
            decreases shots@.len() - j,
        {
            let ghost before = r@;
            proof {
                lemma_unique_more(had, mine, j as int);
                assert(mine[j as int] == shots@[j as int]@);
            }
            if !knows_url(&r, &shots[j].url) {
                let s = shots[j].copy();
                r.push(s);
                assert(link_views(r@) =~= link_views(before).push(s@));
            }
            j += 1;
        }
        proof {
            assert(mine.take(j as int) =~= mine);
            assert(kv.take(i + 1).drop_last() =~= kv.take(i as int));
            assert(kv[i as int] == kept@[i as int]@);
        }
        i += 1;
    }
    assert(kv.take(i as int) =~= kv);
    r
}

/// What an optional record holds.
pub open spec fn merged_view(m: Option<Merged>) -> Option<MergedFields> {
    match m {
        Some(x) => Some(x@),
        None => None,
    }
}

/// Merge provider results (already in priority order) into one record. Takes the
/// first non-empty field per attribute and unions screenshots (deduped by URL).
/// Returns `None` when no result clears [`SCORE_FLOOR`].
pub fn merge(results: Vec<ProviderResult>) -> (r: Option<Merged>)
    ensures
        merged_view(r) == merged_of(result_views(results@)),
{
    let kept = keep_accepted(results);
    let ghost kv = result_views(kept@);
    if kept.len() == 0 {
        return None;
    }
    let genre = first_field(&kept, Field::Genre);
    let description = first_field(&kept, Field::Description);
    let external_url = first_field(&kept, Field::ExternalUrl);
    let (year, score) = year_and_score(&kept);
    let sources = unique_sources(&kept);
    let shots = union_shots(&kept);
    proof {
        assert(kv.map_values(|r: ResultFields| field_of(r, Field::Genre)) =~= kv.map_values(
            |r: ResultFields| r.genre,
        ));
        assert(kv.map_values(|r: ResultFields| field_of(r, Field::Description))
            =~= kv.map_values(|r: ResultFields| r.description));
        assert(kv.map_values(|r: ResultFields| field_of(r, Field::ExternalUrl))
            =~= kv.map_values(|r: ResultFields| r.external_url));
    }
    Some(
        Merged {
            genre,
            description,
            year,
            sources: join_strings(&sources, ","),
            external_url,
            score,
            shots,
        },
    )
}

// --- A run ------------------------------------------------------------------

/// Summary of an enrichment run.
#[derive(Debug, Clone, PartialEq, Eq)]
pub struct EnrichReport {
    /// Titles that got a merged record written.
    pub enriched: usize,
    /// Titles considered but with no confident match.
    pub skipped: usize,
}

impl Default for EnrichReport {
    fn default() -> (r: EnrichReport)
        ensures
            r.enriched == 0,
            r.skipped == 0,
    {
        EnrichReport { enriched: 0, skipped: 0 }
    }
}

/// What to do for a title whose results are in.
#[derive(Debug, Clone)]
pub enum EnrichStep {
    /// No confident match: go on to the next title.
    Skip,
    /// Download these screenshots, then save the record with those that came.
    Save { merged: Merged, downloads: Vec<Shot> },
}

/// The first screenshots of a record, as many as are stored.
pub open spec fn to_download(shots: Seq<LinkFields>) -> Seq<LinkFields> {
    if shots.len() <= MAX_SHOTS {
        shots
    } else {
        shots.take(MAX_SHOTS as int)
    }
}

/// The first screenshots, as many as are stored.
fn first_shots(shots: &[Shot]) -> (r: Vec<Shot>)
    ensures
        link_views(r@) == to_download(link_views(shots@)),
{
    let ghost lv = link_views(shots@);
    let mut r: Vec<Shot> = Vec::new();
    let mut i: usize = 0;
    assert(link_views(r@) =~= lv.take(0));
    while i < shots.len() && i < MAX_SHOTS
        invariant
            i <= shots@.len(),
            i <= MAX_SHOTS,
            lv == link_views(shots@),
            link_views(r@) == lv.take(i as int),
        decreases shots@.len() - i,
    {
        let ghost had = r@;
        let s = shots[i].copy();
        r.push(s);
        assert(link_views(r@) =~= link_views(had).push(s@));
        assert(lv.take(i + 1) =~= lv.take(i as int).push(lv[i as int]));
        i += 1;
    }
    assert(lv.take(i as int) =~= to_download(lv));
    r
}

/// Take what a provider's lookup gave for a title. A lookup that failed, as one that found
/// nothing, adds no result; the failure is handed back, and the run goes on.
pub fn take_lookup(
    results: &mut Vec<ProviderResult>,
    found: Result<Option<ProviderResult>, Error>,
) -> (failure: Option<Error>)
    ensures
        match found {
            Ok(Some(r)) => failure is None && final(results)@ == old(results)@.push(r),
            Ok(None) => failure is None && final(results)@ == old(results)@,
            Err(e) => failure == Some(e) && final(results)@ == old(results)@,
        },
{
    match found {
        Ok(Some(r)) => {
            results.push(r);
            None
        },
        Ok(None) => None,
        Err(e) => Some(e),
    }
}

/// Whether `after` are the counts that taking a title's results leads to. A title that no
/// result is accepted for is counted as skipped.
pub open spec fn taken(
    before: EnrichReport,
    results: Seq<ResultFields>,
    after: EnrichReport,
) -> bool {
    &&& after.enriched == before.enriched
    &&& after.skipped == before.skipped + if merged_of(results) is None {
        1int
    } else {
        0int
    }
}

/// Whether `after` are the counts that saving a title's record leads to.
pub open spec fn saved(before: EnrichReport, after: EnrichReport) -> bool {
    &&& after.enriched == before.enriched + 1
    &&& after.skipped == before.skipped
}

/// Take the results of the providers for one title: skip it where none is accepted.
pub fn enrich_title(report: &mut EnrichReport, results: Vec<ProviderResult>) -> (step: EnrichStep)
    requires
        old(report).skipped < usize::MAX,
    ensures
        taken(*old(report), result_views(results@), *final(report)),
        match merged_of(result_views(results@)) {
            None => step is Skip,
            Some(m) => step matches EnrichStep::Save { merged, downloads } && merged@ == m
                && link_views(downloads@) == to_download(m.shots),
        },
{
    match merge(results) {
        None => {
            report.skipped = report.skipped + 1;
            EnrichStep::Skip
        },
        Some(merged) => {
            let downloads = first_shots(&merged.shots);
            EnrichStep::Save { merged, downloads }
        },
    }
}

/// What a downloaded screenshot holds.
#[verifier::ext_equal]
pub struct ImageFields {
    pub bytes: Seq<u8>,
    pub mime: Seq<char>,
    pub caption: Option<Seq<char>>,
    pub source: Seq<char>,
    pub ord: i64,
}

/// What a downloaded screenshot holds.
pub open spec fn image_view(i: ScreenshotBytes) -> ImageFields {
    ImageFields {
        bytes: i.0@,
        mime: i.1@,
        caption: crate::text::opt_view(i.2),
        source: i.3@,
        ord: i.4,
    }
}

/// Take what the download of a title's screenshot at `ord` gave. A download that failed
/// adds no image; the failure is handed back, and the run goes on.
pub fn take_image(
    images: &mut Vec<ScreenshotBytes>,
    shot: &Shot,
    ord: usize,
    got: Result<(Vec<u8>, String), Error>,
) -> (failure: Option<Error>)
    requires
        ord < MAX_SHOTS,
    ensures
        match got {
            Ok((bytes, mime)) => failure is None && final(images)@.len() == old(images)@.len() + 1
                && final(images)@.drop_last() == old(images)@ && image_view(final(images)@.last())
                == (ImageFields {
                bytes: bytes@,
                mime: mime@,
                caption: shot@.caption,
                source: shot@.source,
                ord: ord as i64,
            }),
            Err(e) => failure == Some(e) && final(images)@ == old(images)@,
        },
{
    match got {
        Ok((bytes, mime)) => {
            let ghost had = images@;
            images.push((bytes, mime, clone_opt(&shot.caption), owned(&shot.source), ord as i64));
            assert(images@.drop_last() =~= had);
            None
        },
        Err(e) => Some(e),
    }
}

/// Count a title whose record was saved.
pub fn title_saved(report: &mut EnrichReport)
    requires
        old(report).enriched < usize::MAX,
    ensures
        saved(*old(report), *final(report)),
{
    report.enriched = report.enriched + 1;
}

/// Whether the stored screenshots of a title are to be replaced: when some were
/// downloaded, or when the merge found none at all. If the merge expected screenshots
/// but every download failed (a transient image-CDN error), the existing ones are kept
/// rather than wiped.
pub fn replaces_shots(merged: &Merged, downloaded: usize) -> (r: bool)
    ensures
        r <==> downloaded > 0 || merged@.shots.len() == 0,
{
    downloaded > 0 || merged.shots.len() == 0
}

// --- Replies ----------------------------------------------------------------

/// Whether a status says that a request succeeded.
pub open spec fn is_success(status: u16) -> bool {
    200 <= status <= 299
}

/// What is said of a request that failed with a status.
pub open spec fn bad_status(what: Seq<char>, url: Seq<char>, shown: Seq<char>) -> crate::error::Fault {
    crate::error::Fault {
        kind: crate::error::ErrorKind::Invalid,
        text: what + url + ": HTTP "@ + shown,
    }
}

/// The error for a request that failed with a status.
fn status_error(what: &str, url: &str, shown: &str) -> (e: Error)
    ensures
        e@ == bad_status(what@, url@, shown@),
{
    let mut c = chars_of(what);
    append_text(&mut c, url);
    append_text(&mut c, ": HTTP ");
    append_text(&mut c, shown);
    Error::Invalid(string_of(&c))
}

/// Judge the reply to a request for a page: whether there is a page. A missing page
/// (404) is not an error.
pub fn page_status(url: &str, status: u16, shown: &str) -> (r: Result<bool, Error>)
    ensures
        match r {
            Ok(there) => if there {
                is_success(status)
            } else {
                status == 404
            },
            Err(e) => !is_success(status) && status != 404 && e@ == bad_status(
                "GET "@,
                url@,
                shown@,
            ),
        },
{
    if status == 404 {
        Ok(false)
    } else if 200 <= status && status <= 299 {
        Ok(true)
    } else {
        Err(status_error("GET ", url, shown))
    }
}

/// Judge the reply to a request for an image.
pub fn image_status(url: &str, status: u16, shown: &str) -> (r: Result<(), Error>)
    ensures
        match r {
            Ok(_) => is_success(status),
            Err(e) => !is_success(status) && e@ == bad_status("GET image "@, url@, shown@),
        },
{
    if 200 <= status && status <= 299 {
        Ok(())
    } else {
        Err(status_error("GET image ", url, shown))
    }
}

/// The type of an image, by the content type of the reply: what stands before its
/// parameters, where that is an image type; `image/jpeg` else.
pub open spec fn mime_of(content_type: Option<Seq<char>>) -> Seq<char> {
    match content_type {
        None => "image/jpeg"@,
        Some(t) => {
            let m = crate::text::trim(crate::text::before(t, ';'));
            if crate::text::starts_with(m, "image/"@) {
                m
            } else {
                "image/jpeg"@
            }
        },
    }
}

/// The type of an image, by the content type of the reply.
pub fn image_mime(content_type: Option<&str>) -> (r: String)
    ensures
        r@ == mime_of(crate::text::opt_str_view(content_type)),
{
    match content_type {
        None => owned("image/jpeg"),
        Some(t) => {
            let m = trimmed(&cut_before(&chars_of(t), ';'));
            if begins(&m, "image/") {
                string_of(&m)
            } else {
                owned("image/jpeg")
            }
        },
    }
}

// --- Laws -------------------------------------------------------------------

/// Whether `after` are the counts once a title is done: its results were taken, and its
/// record, where it has one, was saved.
pub open spec fn title_done(
    before: EnrichReport,
    results: Seq<ResultFields>,
    after: EnrichReport,
) -> bool {
    if merged_of(results) is None {
        taken(before, results, after)
    } else {
        exists|mid: EnrichReport| #[trigger] taken(before, results, mid) && saved(mid, after)
    }
}

/// Whether `reports` are the counts of a run over titles with these results: none at first,
/// then those once each title in turn is done.
pub open spec fn is_run(titles: Seq<Seq<ResultFields>>, reports: Seq<EnrichReport>) -> bool {
    &&& reports.len() == titles.len() + 1
    &&& reports[0].enriched == 0 && reports[0].skipped == 0
    &&& forall|i: int|
        0 <= i < titles.len() ==> title_done(reports[i], #[trigger] titles[i], reports[i + 1])
}

/// How many titles have no result that is accepted.
pub open spec fn unmatched(titles: Seq<Seq<ResultFields>>) -> nat {
    titles.filter(|r: Seq<ResultFields>| merged_of(r) is None).len()
}

/// How many titles have a merged record.
pub open spec fn matched(titles: Seq<Seq<ResultFields>>) -> nat {
    titles.filter(|r: Seq<ResultFields>| merged_of(r) is Some).len()
}

/// The report of a run counts every title once: as skipped those that no result was
/// accepted for, as enriched the others, whose records were saved.
pub proof fn report_counts_every_title(titles: Seq<Seq<ResultFields>>, reports: Seq<EnrichReport>)
    requires
        is_run(titles, reports),
    ensures
        reports.last().skipped == unmatched(titles),
        reports.last().enriched == matched(titles),
        reports.last().skipped + reports.last().enriched == titles.len(),
    decreases titles.len(),
{
    reveal(Seq::filter);
    if titles.len() > 0 {
        let init = titles.drop_last();
        let before = reports.drop_last();
        assert forall|i: int| 0 <= i < init.len() implies title_done(
            before[i],
            #[trigger] init[i],
            before[i + 1],
        ) by {
            assert(title_done(reports[i], titles[i], reports[i + 1]));
        }
        report_counts_every_title(init, before);
        let n = titles.len() - 1;
        assert(title_done(reports[n], titles[n], reports[n + 1]));
    }
}

/// At most [`MAX_SHOTS`] screenshots of a title are downloaded, the first of the merged ones.
pub proof fn downloads_are_capped(shots: Seq<LinkFields>)
    ensures
        to_download(shots).len() <= MAX_SHOTS,
        to_download(shots).is_prefix_of(shots),
        shots.len() <= MAX_SHOTS ==> to_download(shots) == shots,
{
}

/// Only results that clear the floor are merged, and there is a record exactly where
/// one does.
pub proof fn weak_results_are_rejected(results: Seq<ResultFields>)
    ensures
        merged_of(results) is Some <==> exists|i: int|
            0 <= i < results.len() && clears_floor((#[trigger] results[i]).score),
{
    lemma_accepted(results);
    let k = accepted(results);
    if k.len() > 0 {
        assert(results.contains(k[0]));
        let i = choose|i: int| 0 <= i < results.len() && results[i] == k[0];
        assert(clears_floor(results[i].score));
    }
    if exists|i: int| 0 <= i < results.len() && clears_floor((#[trigger] results[i]).score) {
        let i = choose|i: int|
            0 <= i < results.len() && clears_floor((#[trigger] results[i]).score);
        assert(k.contains(results[i]));
    }
}

/// The accepted results are those of the results that clear the floor.
proof fn lemma_accepted(results: Seq<ResultFields>)
    ensures
        forall|i: int|
            0 <= i < accepted(results).len() ==> clears_floor(
                (#[trigger] accepted(results)[i]).score,
            ) && results.contains(accepted(results)[i]),
        forall|i: int|
            0 <= i < results.len() && clears_floor((#[trigger] results[i]).score) ==> accepted(
                results,
            ).contains(results[i]),
    decreases results.len(),
{
    if results.len() > 0 {
        let init = results.drop_last();
        let rest = accepted(init);
        let k = accepted(results);
        lemma_accepted(init);
        assert forall|i: int| 0 <= i < k.len() implies clears_floor((#[trigger] k[i]).score)
            && results.contains(k[i]) by {
            if i < rest.len() {
                assert(k[i] == rest[i]);
                assert(init.contains(rest[i]));
                let j = choose|j: int| 0 <= j < init.len() && init[j] == rest[i];
                assert(results[j] == k[i]);
            } else {
                assert(results[results.len() - 1] == k[i]);
            }
        }
        assert forall|i: int|
            0 <= i < results.len() && clears_floor((#[trigger] results[i]).score) implies k.contains(
        results[i]) by {
            if i < init.len() {
                assert(init[i] == results[i]);
                assert(rest.contains(results[i]));
                let j = choose|j: int| 0 <= j < rest.len() && rest[j] == results[i];
                assert(k[j] == results[i]);
            } else {
                assert(k[rest.len() as int] == results[i]);
            }
        }
    }
}

/// Priority decides: where the first accepted result has a genre, a description or a
/// URL that is not empty, that is the merged one, whatever comes after it.
pub proof fn first_source_wins(results: Seq<ResultFields>)
    requires
        accepted(results).len() > 0,
    ensures
        merged_of(results) matches Some(m) && ({
            let first = accepted(results)[0];
            (filled_text(first.genre) is Some ==> m.genre == first.genre) && (filled_text(
                first.description,
            ) is Some ==> m.description == first.description) && (filled_text(
                first.external_url,
            ) is Some ==> m.external_url == first.external_url) && (first.year is Some ==> m.year
                == first.year)
        }),
{
    let k = accepted(results);
    let genres = k.map_values(|r: ResultFields| r.genre);
    let descriptions = k.map_values(|r: ResultFields| r.description);
    let urls = k.map_values(|r: ResultFields| r.external_url);
    if filled_text(k[0].genre) is Some {
        lemma_first_text(genres, 0);
    }
    if filled_text(k[0].description) is Some {
        lemma_first_text(descriptions, 0);
    }
    if filled_text(k[0].external_url) is Some {
        lemma_first_text(urls, 0);
    }
    if k[0].year is Some {
        lemma_first_year(k);
    }
}

/// Empty texts are passed over: the merged genre, description and URL is the first of the
/// accepted results that is not empty, and is missing only where all are.
pub proof fn empty_texts_are_passed_over(results: Seq<ResultFields>, f: Field)
    requires
        accepted(results).len() > 0,
    ensures
        merged_of(results) matches Some(m) && ({
            let k = accepted(results);
            let t = match f {
                Field::Genre => m.genre,
                Field::Description => m.description,
                Field::ExternalUrl => m.external_url,
            };
            match t {
                Some(x) => x.len() > 0 && exists|i: int|
                    0 <= i < k.len() && field_of(#[trigger] k[i], f) == Some(x) && forall|j: int|
                        0 <= j < i ==> filled_text(field_of(#[trigger] k[j], f)) is None,
                None => forall|j: int|
                    0 <= j < k.len() ==> filled_text(field_of(#[trigger] k[j], f)) is None,
            }
        }),
{
    let k = accepted(results);
    let m = merged_of(results)->0;
    let texts = k.map_values(|r: ResultFields| field_of(r, f));
    assert(k.map_values(|r: ResultFields| r.genre) =~= texts || f != Field::Genre);
    assert(k.map_values(|r: ResultFields| r.description) =~= texts || f != Field::Description);
    assert(k.map_values(|r: ResultFields| r.external_url) =~= texts || f != Field::ExternalUrl);
    let i = lemma_first_filled(texts);
    assert forall|j: int| 0 <= j < i implies filled_text(field_of(#[trigger] k[j], f)) is None by {
        assert(filled_text(texts[j]) is None);
    }
    if i < k.len() {
        assert(field_of(k[i], f) == texts[i]);
    }
}

/// Where the first text that is not empty stands: behind empty ones only. Where there is
/// none, behind all.
proof fn lemma_first_filled(s: Seq<Option<Seq<char>>>) -> (i: int)
    ensures
        0 <= i <= s.len(),
        forall|j: int| 0 <= j < i ==> filled_text(#[trigger] s[j]) is None,
        i < s.len() ==> filled_text(s[i]) is Some && first_text(s) == s[i],
        i == s.len() ==> first_text(s) is None,
    decreases s.len(),
{
    if s.len() == 0 {
        0
    } else {
        let init = s.drop_last();
        let i = lemma_first_filled(init);
        assert forall|j: int| 0 <= j < i implies filled_text(#[trigger] s[j]) is None by {
            assert(filled_text(init[j]) is None);
        }
        if i < init.len() {
            assert(init[i] == s[i]);
            i
        } else if filled_text(s.last()) is Some {
            i
        } else {
            i + 1
        }
    }
}

/// The first text that is not empty is the one at `i`, where those before it are empty.
proof fn lemma_first_text(s: Seq<Option<Seq<char>>>, i: int)
    requires
        0 <= i < s.len(),
        filled_text(s[i]) is Some,
        forall|j: int| 0 <= j < i ==> filled_text(#[trigger] s[j]) is None,
    ensures
        first_text(s) == s[i],
{
    let k = lemma_first_filled(s);
    if k < i {
        assert(filled_text(s[k]) is None);
    } else if i < k {
        assert(filled_text(s[i]) is None);
    }
}

/// The first year that is there is the first, where that is there.
proof fn lemma_first_year(k: Seq<ResultFields>)
    requires
        k.len() > 0,
        k[0].year is Some,
    ensures
        first_year(k) == k[0].year,
    decreases k.len(),
{
    if k.len() > 1 {
        lemma_first_year(k.drop_last());
    } else {
        reveal_with_fuel(first_year, 2);
    }
}

/// The merged screenshots hold every URL of the results once.
pub proof fn screenshots_are_unique(s: Seq<LinkFields>)
    ensures
        forall|i: int, j: int|
            0 <= i < j < unique_links(s).len() ==> (#[trigger] unique_links(s)[i]).url != (
            #[trigger] unique_links(s)[j]).url,
        forall|url: Seq<char>| #[trigger] has_url(unique_links(s), url) <==> has_url(s, url),
    decreases s.len(),
{
    if s.len() > 0 {
        let init = s.drop_last();
        let rest = unique_links(init);
        let u = unique_links(s);
        screenshots_are_unique(init);
        assert forall|i: int, j: int| 0 <= i < j < u.len() implies (#[trigger] u[i]).url != (
        #[trigger] u[j]).url by {
            if j == rest.len() {
                assert(rest[i].url == u[i].url);
                assert(!has_url(rest, s.last().url));
            } else {
                assert(rest[i].url != rest[j].url);
            }
        }
        assert forall|url: Seq<char>| #[trigger] has_url(u, url) <==> has_url(s, url) by {
            assert(has_url(rest, url) <==> has_url(init, url));
            if has_url(u, url) {
                let i = choose|i: int| 0 <= i < u.len() && (#[trigger] u[i]).url == url;
                if i < rest.len() {
                    assert(rest[i].url == url);
                    let j = choose|j: int| 0 <= j < init.len() && (#[trigger] init[j]).url == url;
                    assert(s[j].url == url);
                } else {
                    assert(s[s.len() - 1].url == url);
                }
            }
            if has_url(s, url) {
                let j = choose|j: int| 0 <= j < s.len() && (#[trigger] s[j]).url == url;
                if j < init.len() {
                    assert(init[j].url == url);
                    assert(has_url(rest, url));
                    let i = choose|i: int| 0 <= i < rest.len() && (#[trigger] rest[i]).url == url;
                    assert(u[i].url == url);
                } else if has_url(rest, url) {
                    let i = choose|i: int| 0 <= i < rest.len() && (#[trigger] rest[i]).url == url;
                    assert(u[i].url == url);
                } else {
                    assert(u[rest.len() as int].url == url);
                }
            }
        }
    }
}

/// Scores are ordered as the numbers that they are: of two that are not negative the one with
/// the larger pattern is higher, a negative one is never higher than one that is not, and what
/// is no number is neither higher nor lower than anything.
pub proof fn scores_are_ordered_as_numbers(a: u32, b: u32)
    ensures
        a <= 0x7f80_0000 && b <= 0x7f80_0000 ==> (higher(a, b) <==> a > b),
        0x8000_0000 <= a <= 0xff80_0000 && 0x8000_0000 <= b <= 0xff80_0000 ==> (higher(a, b) <==> a
            < b),
        0x8000_0000 <= a <= 0xff80_0000 && b <= 0x7f80_0000 ==> !higher(a, b),
        0x8000_0000 < a <= 0xff80_0000 && b <= 0x7f80_0000 ==> higher(b, a),
        is_nan(a) ==> !higher(a, b) && !higher(b, a) && !clears_floor(a),
        is_nan(a) <==> 0x7f80_0000 < a < 0x8000_0000 || 0xff80_0000 < a,
{
}

/// A score from one half up to one clears the floor exactly where it is at least 55 hundredths;
/// any higher number does, and none below one half does. The fraction of such a score is in
/// its low 23 bits, with the leading bit left out.
pub proof fn floor_is_55_hundredths(fraction: u32, score: u32)
    requires
        fraction < 0x80_0000,
    ensures
        clears_floor((0x3f00_0000 + fraction) as u32) <==> (0x80_0000 + fraction) * 100 >= 55
            * 0x100_0000,
        0x3f80_0000 <= score <= 0x7f80_0000 ==> clears_floor(score),
        score < 0x3f00_0000 ==> !clears_floor(score),
        score >= 0x8000_0000 ==> !clears_floor(score),
{
}

/// Results are taken or left one by one: of two sequences together those of the one and then
/// those of the other, and one result exactly where its score clears the floor.
pub proof fn results_are_accepted_one_by_one(
    a: Seq<ResultFields>,
    b: Seq<ResultFields>,
    r: ResultFields,
)
    ensures
        accepted(a + b) == accepted(a) + accepted(b),
        clears_floor(r.score) ==> accepted(seq![r]) == seq![r],
        !clears_floor(r.score) ==> accepted(seq![r]).len() == 0,
    decreases b.len(),
{
    let one = seq![r];
    assert(one.drop_last() =~= Seq::<ResultFields>::empty());
    reveal_with_fuel(accepted, 2);
    if clears_floor(r.score) {
        assert(accepted(one) =~= one);
    }
    if b.len() == 0 {
        assert(a + b =~= a);
        assert(accepted(a) + accepted(b) =~= accepted(a));
    } else {
        results_are_accepted_one_by_one(a, b.drop_last(), r);
        assert((a + b).drop_last() =~= a + b.drop_last());
        assert((a + b).last() == b.last());
        assert(accepted(a + b) =~= accepted(a) + accepted(b));
    }
}

/// The year of merged results is that of the first that has one, and the score the highest.
pub proof fn first_year_and_highest_score(results: Seq<ResultFields>)
    requires
        accepted(results).len() > 0,
    ensures
        merged_of(results) matches Some(m) && ({
            let k = accepted(results);
            &&& match m.year {
                Some(y) => exists|i: int|
                    0 <= i < k.len() && (#[trigger] k[i]).year == Some(y) && forall|j: int|
                        0 <= j < i ==> (#[trigger] k[j]).year is None,
                None => forall|j: int| 0 <= j < k.len() ==> (#[trigger] k[j]).year is None,
            }
            &&& exists|i: int| 0 <= i < k.len() && (#[trigger] k[i]).score == m.score
            &&& forall|j: int| 0 <= j < k.len() ==> !higher((#[trigger] k[j]).score, m.score)
        }),
{
    let k = accepted(results);
    lemma_earliest_year(k);
    lemma_accepted(results);
    assert forall|i: int| 0 <= i < k.len() implies clears_floor((#[trigger] k[i]).score) by {
        lemma_accepted_clears(results, i);
    }
    lemma_best_score(k);
    if forall|i: int| 0 <= i < k.len() ==> (#[trigger] k[i]).score != best_score(k) {
        assert(!higher(k[0].score, best_score(k)));
        assert(clears_floor(k[0].score));
    }
}

/// What is accepted clears the floor.
proof fn lemma_accepted_clears(results: Seq<ResultFields>, i: int)
    requires
        0 <= i < accepted(results).len(),
    ensures
        clears_floor(accepted(results)[i].score),
    decreases results.len(),
{
    let rest = accepted(results.drop_last());
    if i < rest.len() {
        lemma_accepted_clears(results.drop_last(), i);
    }
}

/// The first year among results.
proof fn lemma_earliest_year(k: Seq<ResultFields>)
    ensures
        match first_year(k) {
            Some(y) => exists|i: int|
                0 <= i < k.len() && (#[trigger] k[i]).year == Some(y) && forall|j: int|
                    0 <= j < i ==> (#[trigger] k[j]).year is None,
            None => forall|j: int| 0 <= j < k.len() ==> (#[trigger] k[j]).year is None,
        },
    decreases k.len(),
{
    if k.len() > 0 {
        let init = k.drop_last();
        let n = init.len() as int;
        lemma_earliest_year(init);
        assert(forall|j: int| 0 <= j < n ==> #[trigger] k[j] == init[j]);
        assert(k[n] == k.last());
        match first_year(init) {
            Some(y) => {
                let i = choose|i: int|
                    0 <= i < init.len() && (#[trigger] init[i]).year == Some(y) && forall|j: int|
                        0 <= j < i ==> (#[trigger] init[j]).year is None;
                assert(k[i].year == Some(y));
            },
            None => {
                assert forall|j: int| 0 <= j < n implies (#[trigger] k[j]).year is None by {
                    assert(init[j] == k[j]);
                }
            },
        }
    }
}

/// The best score among results: none is higher, and it is one of theirs, or zero.
proof fn lemma_best_score(k: Seq<ResultFields>)
    requires
        forall|i: int| 0 <= i < k.len() ==> clears_floor((#[trigger] k[i]).score),
    ensures
        !is_nan(best_score(k)),
        best_score(k) == 0 || exists|i: int|
            0 <= i < k.len() && (#[trigger] k[i]).score == best_score(k),
        forall|i: int| 0 <= i < k.len() ==> !higher((#[trigger] k[i]).score, best_score(k)),
    decreases k.len(),
{
    if k.len() > 0 {
        let init = k.drop_last();
        let n = init.len() as int;
        assert forall|i: int| 0 <= i < n implies clears_floor((#[trigger] init[i]).score) by {
            assert(init[i] == k[i]);
        }
        assert(clears_floor(k[n].score));
        lemma_best_score(init);
        assert(forall|i: int| 0 <= i < n ==> #[trigger] k[i] == init[i]);
        if higher(k.last().score, best_score(init)) {
            assert(k[n].score == best_score(k));
        } else if best_score(init) != 0 {
            let i = choose|i: int| 0 <= i < n && (#[trigger] init[i]).score == best_score(init);
            assert(k[i].score == best_score(k));
        }
    }
}

/// Texts are listed once each, where they first come: one that has come before adds nothing.
pub proof fn texts_are_listed_once(s: Seq<Seq<char>>, t: Seq<char>)
    ensures
        unique_texts(Seq::empty()).len() == 0,
        s.contains(t) ==> unique_texts(s.push(t)) == unique_texts(s),
        !s.contains(t) ==> unique_texts(s.push(t)) == unique_texts(s).push(t),
        forall|x: Seq<char>| #[trigger] unique_texts(s).contains(x) <==> s.contains(x),
{
    lemma_listed(s);
    assert(s.push(t).drop_last() =~= s);
}

/// What is listed is what came.
proof fn lemma_listed(s: Seq<Seq<char>>)
    ensures
        forall|x: Seq<char>| #[trigger] unique_texts(s).contains(x) <==> s.contains(x),
    decreases s.len(),
{
    if s.len() > 0 {
        let init = s.drop_last();
        lemma_listed(init);
        let r = unique_texts(s);
        let rest = unique_texts(init);
        assert forall|x: Seq<char>| #[trigger] r.contains(x) <==> s.contains(x) by {
            if s.contains(x) {
                let i = choose|i: int| 0 <= i < s.len() && s[i] == x;
                if i < init.len() {
                    assert(init[i] == x);
                    assert(init.contains(x));
                    assert(rest.contains(x));
                }
                if rest.contains(x) {
                    let k = choose|k: int| 0 <= k < rest.len() && rest[k] == x;
                    assert(r[k] == x);
                } else {
                    assert(r[rest.len() as int] == x);
                }
            }
            if r.contains(x) {
                let k = choose|k: int| 0 <= k < r.len() && r[k] == x;
                if k < rest.len() {
                    assert(rest[k] == x);
                    assert(rest.contains(x));
                    let i = choose|i: int| 0 <= i < init.len() && init[i] == x;
                    assert(s[i] == x);
                } else {
                    assert(s[s.len() - 1] == x);
                }
            }
        }
    }
}

/// Screenshots are those of the results in order, and of two with one address the first is
/// kept, with its caption and source.
pub proof fn first_screenshot_of_an_address_is_kept(
    a: Seq<ResultFields>,
    b: Seq<ResultFields>,
    r: ResultFields,
    s: Seq<LinkFields>,
    link: LinkFields,
)
    ensures
        all_links(a + b) == all_links(a) + all_links(b),
        all_links(seq![r]) == r.shots,
        unique_links(Seq::empty()).len() == 0,
        has_url(s, link.url) ==> unique_links(s.push(link)) == unique_links(s),
        !has_url(s, link.url) ==> unique_links(s.push(link)) == unique_links(s).push(link),
    decreases b.len(),
{
    let one = seq![r];
    assert(one.drop_last() =~= Seq::<ResultFields>::empty());
    reveal_with_fuel(all_links, 2);
    assert(all_links(one) =~= r.shots);
    screenshots_are_unique(s);
    assert(has_url(unique_links(s), link.url) <==> has_url(s, link.url));
    assert(s.push(link).drop_last() =~= s);
    if b.len() == 0 {
        assert(a + b =~= a);
        assert(all_links(a) + all_links(b) =~= all_links(a));
    } else {
        first_screenshot_of_an_address_is_kept(a, b.drop_last(), r, s, link);
        assert((a + b).drop_last() =~= a + b.drop_last());
        assert((a + b).last() == b.last());
        assert(all_links(a + b) =~= all_links(a) + all_links(b));
    }
}

/// What results merge into names the sources of those accepted, once each and in order, with
/// commas between them, and shows their screenshots, one to an address.
pub proof fn merged_results_name_their_sources(results: Seq<ResultFields>)
    requires
        accepted(results).len() > 0,
    ensures
        merged_of(results) matches Some(m) && m.sources == crate::text::join(
            unique_texts(accepted(results).map_values(|r: ResultFields| r.source)),
            ","@,
        ) && m.shots == unique_links(all_links(accepted(results))),
{
}

/// At most six screenshots are downloaded, the first ones.
pub proof fn six_screenshots_are_downloaded(shots: Seq<LinkFields>)
    ensures
        shots.len() <= 6 ==> to_download(shots) == shots,
        shots.len() > 6 ==> to_download(shots) == shots.take(6),
{
}

/// An image is of the type that is said, without its parameters, where that is an image type;
/// otherwise it is taken for a JPEG.
pub proof fn image_type_is_what_is_said(t: Seq<char>, params: Seq<char>)
    requires
        !t.contains(';'),
    ensures
        mime_of(None) == "image/jpeg"@,
        mime_of(Some(t)) == mime_of(Some(t.push(';') + params)),
        (exists|rest: Seq<char>| crate::text::trim(t) == #[trigger] ("image/"@ + rest)) ==> mime_of(
            Some(t),
        ) == crate::text::trim(t),
        !(exists|rest: Seq<char>| crate::text::trim(t) == #[trigger] ("image/"@ + rest))
            ==> mime_of(Some(t)) == "image/jpeg"@,
{
    crate::text::splitting_cuts_at_the_first(t, ';', params);
    crate::text::beginnings_and_ends(crate::text::trim(t), "image/"@);
}

/// A text counts where it is there and not empty, and then as it is.
pub proof fn only_filled_texts_count(x: Seq<char>)
    ensures
        filled_text(None) is None,
        x.len() == 0 ==> filled_text(Some(x)) is None,
        x.len() > 0 ==> filled_text(Some(x)) == Some(x),
{
}

/// A page is had where its status is one of success: 200 to 299. Any other is told with what
/// was asked for and where.
pub proof fn success_is_two_hundred_and_some(status: u16, what: Seq<char>, url: Seq<char>, shown: Seq<char>)
    ensures
        is_success(status) <==> status / 100 == 2,
        bad_status(what, url, shown).kind is Invalid,
        bad_status(what, url, shown).text == what + url + ": HTTP "@ + shown,
{
}

} // verus!
