//! The catalog's rows: which row a Title or an Edition is, which rows form one set, and
//! which are left without anything that belongs to them.

use vstd::prelude::*;

use crate::edition::EditionKey;
use crate::order::{sorted_positions, Ordered};
use crate::text::{opt_num_before, same, same_opt};

verus! {

/// A stored Edition.
#[derive(Debug, Clone, PartialEq, Eq)]
pub struct EditionRow {
    pub id: i64,
    pub title_id: i64,
    pub version: Option<String>,
    pub language: Option<String>,
    pub publisher: Option<String>,
    pub qualifier: Option<String>,
    pub disk_no: Option<u32>,
    pub disk_count: Option<u32>,
}

/// What an [`EditionRow`] holds.
#[verifier::ext_equal]
pub struct EditionRowFields {
    pub id: i64,
    pub title_id: i64,
    pub version: Option<Seq<char>>,
    pub language: Option<Seq<char>>,
    pub publisher: Option<Seq<char>>,
    pub qualifier: Option<Seq<char>>,
    pub disk_no: Option<u32>,
    pub disk_count: Option<u32>,
}

impl View for EditionRow {
    type V = EditionRowFields;

    open spec fn view(&self) -> EditionRowFields {
        EditionRowFields {
            id: self.id,
            title_id: self.title_id,
            version: crate::text::opt_view(self.version),
            language: crate::text::opt_view(self.language),
            publisher: crate::text::opt_view(self.publisher),
            qualifier: crate::text::opt_view(self.qualifier),
            disk_no: self.disk_no,
            disk_count: self.disk_count,
        }
    }
}

/// What rows hold.
pub open spec fn row_views(rows: Seq<EditionRow>) -> Seq<EditionRowFields> {
    rows.map_values(|r: EditionRow| r@)
}

// --- The row of a Title -----------------------------------------------------

/// A stored Title.
#[derive(Debug, Clone, PartialEq, Eq)]
pub struct TitleRow {
    pub id: i64,
    pub name: String,
    pub category: String,
}

/// What a [`TitleRow`] holds.
#[verifier::ext_equal]
pub struct TitleRowFields {
    pub id: i64,
    pub name: Seq<char>,
    pub category: Seq<char>,
}

impl View for TitleRow {
    type V = TitleRowFields;

    open spec fn view(&self) -> TitleRowFields {
        TitleRowFields { id: self.id, name: self.name@, category: self.category@ }
    }
}

/// What rows hold.
pub open spec fn title_views(rows: Seq<TitleRow>) -> Seq<TitleRowFields> {
    rows.map_values(|r: TitleRow| r@)
}

/// The Title of this name and category: the first row that is, if any.
pub open spec fn title_of(
    rows: Seq<TitleRowFields>,
    name: Seq<char>,
    category: Seq<char>,
) -> Option<i64>
    decreases rows.len(),
{
    if rows.len() == 0 {
        None
    } else if rows[0].name == name && rows[0].category == category {
        Some(rows[0].id)
    } else {
        title_of(rows.skip(1), name, category)
    }
}

/// The row of the Title of this name and category. `None` where the Title is new, and a row
/// is to be inserted for it.
pub fn upsert_title(rows: &[TitleRow], name: &str, category: &str) -> (r: Option<i64>)
    ensures
        r == title_of(title_views(rows@), name@, category@),
{
    let ghost rv = title_views(rows@);
    let mut i: usize = 0;
    assert(rv.skip(0) =~= rv);
    while i < rows.len()
        invariant
            i <= rows@.len(),
            rv == title_views(rows@),
            title_of(rv.skip(i as int), name@, category@) == title_of(rv, name@, category@),
        decreases rows@.len() - i,
    {
        assert(rv.skip(i as int)[0] == rows@[i as int]@);
        assert(rv.skip(i as int).skip(1) =~= rv.skip(i + 1));
        if same(&rows[i].name, name) && same(&rows[i].category, category) {
            return Some(rows[i].id);
        }
        i += 1;
    }
    None
}

// --- The row of an Edition --------------------------------------------------

/// Whether a row is the Edition of a title that has this key. An absent field is a
/// value like any other: it is the same as an absent one, and as nothing else.
pub open spec fn is_edition(
    row: EditionRowFields,
    title_id: i64,
    key: crate::edition::KeyFields,
) -> bool {
    &&& row.title_id == title_id
    &&& row.version == key.version
    &&& row.language == key.language
    &&& row.publisher == key.publisher
    &&& row.qualifier == key.qualifier
    &&& row.disk_no == key.disk_no
    &&& row.disk_count == key.disk_count
}

/// The Edition of a title that has this key: the first row that is, if any.
pub open spec fn edition_of(
    rows: Seq<EditionRowFields>,
    title_id: i64,
    key: crate::edition::KeyFields,
) -> Option<i64>
    decreases rows.len(),
{
    if rows.len() == 0 {
        None
    } else if is_edition(rows[0], title_id, key) {
        Some(rows[0].id)
    } else {
        edition_of(rows.skip(1), title_id, key)
    }
}

/// Whether `row` is the Edition of `title_id` that has this key.
fn matches_key(row: &EditionRow, title_id: i64, key: &EditionKey) -> (r: bool)
    ensures
        r == is_edition(row@, title_id, key@),
{
    row.title_id == title_id && same_opt(&row.version, &key.version) && same_opt(
        &row.language,
        &key.language,
    ) && same_opt(&row.publisher, &key.publisher) && same_opt(&row.qualifier, &key.qualifier)
        && row.disk_no == key.disk_no && row.disk_count == key.disk_count
}

/// The row that a new artifact of this Edition belongs to. `None` where the Edition is
/// new, and a row is to be inserted for it.
pub fn upsert_edition(rows: &[EditionRow], title_id: i64, key: &EditionKey) -> (r: Option<i64>)
    ensures
        r == edition_of(row_views(rows@), title_id, key@),
{
    let ghost rv = row_views(rows@);
    let mut i: usize = 0;
    assert(rv.skip(0) =~= rv);
    while i < rows.len()
        invariant
            i <= rows@.len(),
            rv == row_views(rows@),
            edition_of(rv.skip(i as int), title_id, key@) == edition_of(rv, title_id, key@),
        decreases rows@.len() - i,
    {
        assert(rv.skip(i as int)[0] == rows@[i as int]@);
        assert(rv.skip(i as int).skip(1) =~= rv.skip(i + 1));
        if matches_key(&rows[i], title_id, key) {
            return Some(rows[i].id);
        }
        i += 1;
    }
    None
}

// --- The rows of a set ------------------------------------------------------

/// What the Editions of one set share: everything but the disk.
#[verifier::ext_equal]
pub struct SetFields {
    pub title_id: i64,
    pub version: Option<Seq<char>>,
    pub language: Option<Seq<char>>,
    pub publisher: Option<Seq<char>>,
    pub qualifier: Option<Seq<char>>,
    pub disk_count: Option<u32>,
}

/// The set that an Edition belongs to.
pub open spec fn set_of(row: EditionRowFields) -> SetFields {
    SetFields {
        title_id: row.title_id,
        version: row.version,
        language: row.language,
        publisher: row.publisher,
        qualifier: row.qualifier,
        disk_count: row.disk_count,
    }
}

/// [`set_of`] as a key.
pub open spec fn by_set() -> spec_fn(EditionRowFields) -> SetFields {
    |row: EditionRowFields| set_of(row)
}

/// The first row with this id, if any.
pub open spec fn row_of(rows: Seq<EditionRowFields>, id: i64) -> Option<EditionRowFields>
    decreases rows.len(),
{
    if rows.len() == 0 {
        None
    } else if rows[0].id == id {
        Some(rows[0])
    } else {
        row_of(rows.skip(1), id)
    }
}

/// The id and the disk of each row.
pub open spec fn disks_of(rows: Seq<EditionRowFields>) -> Seq<(i64, Option<u32>)> {
    rows.map_values(|row: EditionRowFields| (row.id, row.disk_no))
}

/// The order of Editions by disk; one without a number comes first.
pub open spec fn by_disk() -> spec_fn((i64, Option<u32>), (i64, Option<u32>)) -> bool {
    |a: (i64, Option<u32>), b: (i64, Option<u32>)| crate::text::opt_num_lt(a.1, b.1)
}

/// Whether these are the disk count and the disks of the set that an Edition belongs to.
pub open spec fn are_siblings(
    rows: Seq<EditionRowFields>,
    own: EditionRowFields,
    disk_count: Option<u32>,
    siblings: Seq<(i64, Option<u32>)>,
) -> bool {
    &&& disk_count == own.disk_count
    &&& crate::order::is_stable_sort(
        by_disk(),
        disks_of(crate::order::with_key(rows, by_set(), set_of(own))),
        siblings,
    )
}

/// A disk number that may be absent, as a key; absence comes first.
#[derive(Clone, Copy)]
struct OptDiskKey {
    disk_no: Option<u32>,
}

impl View for OptDiskKey {
    type V = Option<u32>;

    closed spec fn view(&self) -> Option<u32> {
        self.disk_no
    }
}

impl Ordered for OptDiskKey {
    open spec fn lt(a: Option<u32>, b: Option<u32>) -> bool {
        crate::text::opt_num_lt(a, b)
    }

    proof fn asymmetric(a: Option<u32>, b: Option<u32>) {
    }

    proof fn transitive(a: Option<u32>, b: Option<u32>, c: Option<u32>) {
    }

    proof fn total(a: Option<u32>, b: Option<u32>) {
    }

    fn before(&self, other: &Self) -> (r: bool) {
        opt_num_before(self.disk_no, other.disk_no)
    }
}

/// Whether two rows are of one set.
fn same_set(a: &EditionRow, b: &EditionRow) -> (r: bool)
    ensures
        r == (set_of(a@) == set_of(b@)),
{
    a.title_id == b.title_id && same_opt(&a.version, &b.version) && same_opt(
        &a.language,
        &b.language,
    ) && same_opt(&a.publisher, &b.publisher) && same_opt(&a.qualifier, &b.qualifier)
        && a.disk_count == b.disk_count
}

/// The position of the first row with this id.
fn row_at(rows: &[EditionRow], id: i64) -> (r: Option<usize>)
    ensures
        match r {
            Some(i) => i < rows@.len() && row_of(row_views(rows@), id) == Some(rows@[i as int]@),
            None => row_of(row_views(rows@), id) is None,
        },
{
    let ghost rv = row_views(rows@);
    let mut i: usize = 0;
    assert(rv.skip(0) =~= rv);
    while i < rows.len()
        invariant
            i <= rows@.len(),
            rv == row_views(rows@),
            row_of(rv.skip(i as int), id) == row_of(rv, id),
        decreases rows@.len() - i,
    {
        assert(rv.skip(i as int)[0] == rows@[i as int]@);
        assert(rv.skip(i as int).skip(1) =~= rv.skip(i + 1));
        if rows[i].id == id {
            return Some(i);
        }
        i += 1;
    }
    None
}

/// The ids and disks of the rows of one set, in the order of the rows.
fn set_members(rows: &[EditionRow], own: &EditionRow) -> (r: Vec<(i64, Option<u32>)>)
    ensures
        r@ == disks_of(crate::order::with_key(row_views(rows@), by_set(), set_of(own@))),
{
    let ghost rv = row_views(rows@);
    let ghost key = set_of(own@);
    let mut r: Vec<(i64, Option<u32>)> = Vec::new();
    let mut i: usize = 0;
    assert(r@ =~= disks_of(crate::order::with_key(rv.take(0), by_set(), key)));
    while i < rows.len()
        invariant
            i <= rows@.len(),
            rv == row_views(rows@),
            key == set_of(own@),
            r@ == disks_of(crate::order::with_key(rv.take(i as int), by_set(), key)),
        decreases rows@.len() - i,
    {
        let ghost had = crate::order::with_key(rv.take(i as int), by_set(), key);
        let ghost next = rv.take(i + 1);
        assert(next.drop_last() =~= rv.take(i as int));
        assert(next.last() == rows@[i as int]@);
        let row = &rows[i];
        if same_set(row, own) {
            r.push((row.id, row.disk_no));
            assert(disks_of(had.push(row@)) =~= disks_of(had).push((row.id, row.disk_no)));
        }
        i += 1;
    }
    assert(rv.take(i as int) =~= rv);
    r
}

/// The disks of a set in order.
fn in_disk_order(disks: &[(i64, Option<u32>)]) -> (r: Vec<(i64, Option<u32>)>)
    ensures
        crate::order::is_stable_sort(by_disk(), disks@, r@),
{
    let mut keys: Vec<OptDiskKey> = Vec::new();
    let mut n: usize = 0;
    while n < disks.len()
        invariant
            n <= disks@.len(),
            keys@.len() == n,
            forall|k: int| 0 <= k < n ==> (#[trigger] keys@[k])@ == disks@[k].1,
        decreases disks@.len() - n,
    {
        keys.push(OptDiskKey { disk_no: disks[n].1 });
        n += 1;
    }
    let order = sorted_positions(&keys);
    let mut r: Vec<(i64, Option<u32>)> = Vec::new();
    let mut k: usize = 0;
    while k < order.len()
        invariant
            k <= order@.len(),
            keys@.len() == disks@.len(),
            crate::order::is_stable_order(keys@, order@),
            r@.len() == k,
            forall|q: int| 0 <= q < k ==> #[trigger] r@[q] == disks@[order@[q] as int],
        decreases order@.len() - k,
    {
        let i = order[k];
        assert(order@[k as int] < keys@.len());
        r.push(disks[i]);
        k += 1;
    }
    proof {
        assert forall|i: int, j: int|
            0 <= i < disks@.len() && 0 <= j < disks@.len() implies by_disk()(
            #[trigger] disks@[i],
            #[trigger] disks@[j],
        ) == crate::order::key_lt::<OptDiskKey>(keys@[i]@, keys@[j]@) by {
            assert(keys@[i]@ == disks@[i].1 && keys@[j]@ == disks@[j].1);
        }
        assert forall|i: int| 0 <= i < r@.len() implies (#[trigger] order@[i]) < disks@.len()
            && r@[i] == disks@[order@[i] as int] by {
            assert(r@[i] == disks@[order@[i] as int]);
        }
        crate::order::lemma_stable_sort(by_disk(), disks@, keys@, order@, r@);
    }
    r
}

/// The disk count of an Edition and every sibling Edition in the same set (same
/// title/version/language/publisher/qualifier, any disk number), by disk. `None` where
/// there is no such Edition.
pub fn set_siblings(rows: &[EditionRow], edition_id: i64) -> (r: Option<
    (Option<u32>, Vec<(i64, Option<u32>)>),
>)
    ensures
        match r {
            None => row_of(row_views(rows@), edition_id) is None,
            Some(s) => row_of(row_views(rows@), edition_id) is Some && are_siblings(
                row_views(rows@),
                row_of(row_views(rows@), edition_id)->0,
                s.0,
                s.1@,
            ),
        },
{
    match row_at(rows, edition_id) {
        None => None,
        Some(i) => {
            let members = set_members(rows, &rows[i]);
            Some((rows[i].disk_count, in_disk_order(&members)))
        },
    }
}

// --- Rows that nothing belongs to -------------------------------------------

/// The Editions that are in use, in order.
pub open spec fn used_editions(rows: Seq<EditionRowFields>, used: Set<i64>) -> Seq<EditionRowFields>
    decreases rows.len(),
{
    if rows.len() == 0 {
        Seq::empty()
    } else if used.contains(rows[0].id) {
        seq![rows[0]] + used_editions(rows.skip(1), used)
    } else {
        used_editions(rows.skip(1), used)
    }
}

/// The ids of the Editions that are not in use, in order.
pub open spec fn unused_editions(rows: Seq<EditionRowFields>, used: Set<i64>) -> Seq<i64>
    decreases rows.len(),
{
    if rows.len() == 0 {
        Seq::empty()
    } else if used.contains(rows[0].id) {
        unused_editions(rows.skip(1), used)
    } else {
        seq![rows[0].id] + unused_editions(rows.skip(1), used)
    }
}

/// The Titles that are in use, in order.
pub open spec fn used_titles(rows: Seq<TitleRowFields>, used: Set<i64>) -> Seq<TitleRowFields>
    decreases rows.len(),
{
    if rows.len() == 0 {
        Seq::empty()
    } else if used.contains(rows[0].id) {
        seq![rows[0]] + used_titles(rows.skip(1), used)
    } else {
        used_titles(rows.skip(1), used)
    }
}

/// The ids of the Titles that are not in use, in order.
pub open spec fn unused_titles(rows: Seq<TitleRowFields>, used: Set<i64>) -> Seq<i64>
    decreases rows.len(),
{
    if rows.len() == 0 {
        Seq::empty()
    } else if used.contains(rows[0].id) {
        unused_titles(rows.skip(1), used)
    } else {
        seq![rows[0].id] + unused_titles(rows.skip(1), used)
    }
}

/// Whether a list of ids holds `id`.
fn lists_id(ids: &[i64], id: i64) -> (r: bool)
    ensures
        r == ids@.to_set().contains(id),
{
    let mut i: usize = 0;
    while i < ids.len()
        invariant
            i <= ids@.len(),
            forall|j: int| 0 <= j < i ==> ids@[j] != id,
        decreases ids@.len() - i,
    {
        if ids[i] == id {
            assert(ids@.contains(id));
            return true;
        }
        i += 1;
    }
    false
}

/// The Editions that no longer have any artifacts, given the Editions that artifacts are of:
/// those to delete.
pub fn empty_editions(rows: &[EditionRow], used: &[i64]) -> (r: Vec<i64>)
    ensures
        r@ == unused_editions(row_views(rows@), used@.to_set()),
{
    let ghost rv = row_views(rows@);
    let ghost set = used@.to_set();
    let mut r: Vec<i64> = Vec::new();
    let mut i: usize = 0;
    assert(rv.skip(0) =~= rv);
    assert(r@ + unused_editions(rv, set) =~= unused_editions(rv, set));
    while i < rows.len()
        invariant
            i <= rows@.len(),
            rv == row_views(rows@),
            set == used@.to_set(),
            r@ + unused_editions(rv.skip(i as int), set) == unused_editions(rv, set),
        decreases rows@.len() - i,
    {
        let ghost had = r@;
        let id = rows[i].id;
        proof {
            assert(rv.skip(i as int)[0] == rows@[i as int]@);
            assert(rv.skip(i as int).skip(1) =~= rv.skip(i + 1));
        }
        if !lists_id(used, id) {
            r.push(id);
            assert(r@ + unused_editions(rv.skip(i + 1), set) =~= had + (seq![id] + unused_editions(
                rv.skip(i + 1),
                set,
            )));
        }
        i += 1;
    }
    assert(r@ + unused_editions(rv.skip(i as int), set) =~= r@);
    r
}

/// The Titles that no longer have any Editions, given the Titles that Editions are of: those
/// to delete.
pub fn empty_titles(rows: &[TitleRow], used: &[i64]) -> (r: Vec<i64>)
    ensures
        r@ == unused_titles(title_views(rows@), used@.to_set()),
{
    let ghost rv = title_views(rows@);
    let ghost set = used@.to_set();
    let mut r: Vec<i64> = Vec::new();
    let mut i: usize = 0;
    assert(rv.skip(0) =~= rv);
    assert(r@ + unused_titles(rv, set) =~= unused_titles(rv, set));
    while i < rows.len()
        invariant
            i <= rows@.len(),
            rv == title_views(rows@),
            set == used@.to_set(),
            r@ + unused_titles(rv.skip(i as int), set) == unused_titles(rv, set),
        decreases rows@.len() - i,
    {
        let ghost had = r@;
        let id = rows[i].id;
        proof {
            assert(rv.skip(i as int)[0] == rows@[i as int]@);
            assert(rv.skip(i as int).skip(1) =~= rv.skip(i + 1));
        }
        if !lists_id(used, id) {
            r.push(id);
            assert(r@ + unused_titles(rv.skip(i + 1), set) =~= had + (seq![id] + unused_titles(
                rv.skip(i + 1),
                set,
            )));
        }
        i += 1;
    }
    assert(r@ + unused_titles(rv.skip(i as int), set) =~= r@);
    r
}

// --- Laws -------------------------------------------------------------------

/// An Edition that is inserted where there was none is found from then on.
pub proof fn inserted_edition_is_found(
    rows: Seq<EditionRowFields>,
    row: EditionRowFields,
    title_id: i64,
    key: crate::edition::KeyFields,
)
    requires
        edition_of(rows, title_id, key) is None,
        is_edition(row, title_id, key),
    ensures
        edition_of(rows.push(row), title_id, key) == Some(row.id),
    decreases rows.len(),
{
    if rows.len() > 0 {
        assert(rows.push(row).skip(1) =~= rows.skip(1).push(row));
        inserted_edition_is_found(rows.skip(1), row, title_id, key);
    }
}

/// An Edition that is there stays the one that is found, whatever is inserted later.
pub proof fn found_edition_stays(
    rows: Seq<EditionRowFields>,
    row: EditionRowFields,
    title_id: i64,
    key: crate::edition::KeyFields,
)
    requires
        edition_of(rows, title_id, key) is Some,
    ensures
        edition_of(rows.push(row), title_id, key) == edition_of(rows, title_id, key),
    decreases rows.len(),
{
    if !is_edition(rows[0], title_id, key) {
        assert(rows.push(row).skip(1) =~= rows.skip(1).push(row));
        found_edition_stays(rows.skip(1), row, title_id, key);
    }
}

/// Two keys of one title find one Edition only where they are the same but for the
/// title, if no two rows share an id.
pub proof fn editions_do_not_merge(
    rows: Seq<EditionRowFields>,
    title_id: i64,
    a: crate::edition::KeyFields,
    b: crate::edition::KeyFields,
)
    requires
        ids_differ(rows),
        edition_of(rows, title_id, a) is Some,
        edition_of(rows, title_id, a) == edition_of(rows, title_id, b),
    ensures
        a == (crate::edition::KeyFields { title: a.title, ..b }),
{
    let i = lemma_found_row(rows, title_id, a);
    let j = lemma_found_row(rows, title_id, b);
    assert(i == j);
}

/// Whether no two rows share an id.
pub open spec fn ids_differ(rows: Seq<EditionRowFields>) -> bool {
    forall|i: int, j: int| 0 <= i < j < rows.len() ==> #[trigger] rows[i].id != #[trigger] rows[j].id
}

/// An Edition that is found is one of the rows.
pub proof fn lemma_found_row(
    rows: Seq<EditionRowFields>,
    title_id: i64,
    key: crate::edition::KeyFields,
) -> (i: int)
    requires
        edition_of(rows, title_id, key) is Some,
    ensures
        0 <= i < rows.len(),
        is_edition(rows[i], title_id, key),
        edition_of(rows, title_id, key) == Some(rows[i].id),
    decreases rows.len(),
{
    if is_edition(rows[0], title_id, key) {
        0
    } else {
        let i = lemma_found_row(rows.skip(1), title_id, key);
        assert(rows.skip(1)[i] == rows[i + 1]);
        i + 1
    }
}

/// A row is the one of its id, if no two rows share one.
pub proof fn lemma_row_of(rows: Seq<EditionRowFields>, i: int)
    requires
        ids_differ(rows),
        0 <= i < rows.len(),
    ensures
        row_of(rows, rows[i].id) == Some(rows[i]),
    decreases rows.len(),
{
    if i > 0 {
        assert(rows[0].id != rows[i].id);
        let rest = rows.skip(1);
        assert forall|a: int, b: int| 0 <= a < b < rest.len() implies #[trigger] rest[a].id
            != #[trigger] rest[b].id by {
            assert(rows[a + 1].id != rows[b + 1].id);
        }
        assert(rest[i - 1] == rows[i]);
        lemma_row_of(rest, i - 1);
    }
}

/// Every Edition of a set gives the same set: the disks of one are those of the others.
pub proof fn siblings_share_their_set(rows: Seq<EditionRowFields>, i: int, j: int)
    requires
        ids_differ(rows),
        0 <= i < rows.len(),
        0 <= j < rows.len(),
        set_of(rows[i]) == set_of(rows[j]),
    ensures
        row_of(rows, rows[i].id) == Some(rows[i]),
        row_of(rows, rows[j].id) == Some(rows[j]),
        forall|dc: Option<u32>, s: Seq<(i64, Option<u32>)>|
            are_siblings(rows, rows[i], dc, s) == #[trigger] are_siblings(rows, rows[j], dc, s),
{
    lemma_row_of(rows, i);
    lemma_row_of(rows, j);
    assert(rows[i].disk_count == set_of(rows[i]).disk_count);
    assert(rows[j].disk_count == set_of(rows[j]).disk_count);
}

/// A set holds exactly the Editions that share everything but the disk with it.
pub proof fn set_holds_its_editions(
    rows: Seq<EditionRowFields>,
    own: EditionRowFields,
    dc: Option<u32>,
    siblings: Seq<(i64, Option<u32>)>,
    id: i64,
    disk_no: Option<u32>,
)
    requires
        rows.len() <= usize::MAX,
        are_siblings(rows, own, dc, siblings),
    ensures
        siblings.contains((id, disk_no)) <==> exists|k: int|
            0 <= k < rows.len() && set_of(#[trigger] rows[k]) == set_of(own) && rows[k].id == id
                && rows[k].disk_no == disk_no,
{
    let picked = crate::order::with_key(rows, by_set(), set_of(own));
    let items = disks_of(picked);
    let order = choose|order: Seq<usize>| #[trigger]
        crate::order::arranges(by_disk(), items, order, siblings);
    let x = (id, disk_no);
    if siblings.contains(x) {
        let p = choose|p: int| 0 <= p < siblings.len() && siblings[p] == x;
        let q = order[p] as int;
        assert(order[p] < items.len());
        assert(items[q] == x);
        let k = lemma_with_key_from(rows, set_of(own), q);
        assert(rows[k].id == id && rows[k].disk_no == disk_no);
    }
    if exists|k: int|
        0 <= k < rows.len() && set_of(#[trigger] rows[k]) == set_of(own) && rows[k].id == id
            && rows[k].disk_no == disk_no {
        let k = choose|k: int|
            0 <= k < rows.len() && set_of(#[trigger] rows[k]) == set_of(own) && rows[k].id == id
                && rows[k].disk_no == disk_no;
        let q = crate::order::lemma_with_key_has(rows, by_set(), set_of(own), k);
        assert(items[q] == x);
        crate::order::lemma_with_key_only(rows, by_set(), set_of(own));
        assert(siblings.len() == items.len());
        crate::order::lemma_sorted_has(by_disk(), items, siblings);
        assert(items.contains(x));
    }
}

/// Each of the rows of a set is one of the rows, and of that set.
proof fn lemma_with_key_from(rows: Seq<EditionRowFields>, key: SetFields, q: int) -> (k: int)
    requires
        0 <= q < crate::order::with_key(rows, by_set(), key).len(),
    ensures
        0 <= k < rows.len(),
        rows[k] == crate::order::with_key(rows, by_set(), key)[q],
        set_of(rows[k]) == key,
    decreases rows.len(),
{
    let rest = crate::order::with_key(rows.drop_last(), by_set(), key);
    if set_of(rows.last()) == key && q == rest.len() {
        rows.len() - 1
    } else {
        lemma_with_key_from(rows.drop_last(), key, q)
    }
}

/// A Title that is inserted where there was none is found from then on, and one that is
/// there stays the one that is found, whatever is inserted later.
pub proof fn inserted_title_is_found(
    rows: Seq<TitleRowFields>,
    row: TitleRowFields,
    name: Seq<char>,
    category: Seq<char>,
)
    ensures
        title_of(rows, name, category) is Some ==> title_of(rows.push(row), name, category)
            == title_of(rows, name, category),
        title_of(rows, name, category) is None && row.name == name && row.category == category
            ==> title_of(rows.push(row), name, category) == Some(row.id),
    decreases rows.len(),
{
    if rows.len() == 0 {
        assert(rows.push(row)[0] == row);
    } else {
        assert(rows.push(row)[0] == rows[0]);
        assert(rows.push(row).skip(1) =~= rows.skip(1).push(row));
        inserted_title_is_found(rows.skip(1), row, name, category);
    }
}

/// The first row of a Title with this id, if any.
pub open spec fn title_row_of(rows: Seq<TitleRowFields>, id: i64) -> Option<TitleRowFields>
    decreases rows.len(),
{
    if rows.len() == 0 {
        None
    } else if rows[0].id == id {
        Some(rows[0])
    } else {
        title_row_of(rows.skip(1), id)
    }
}

/// Whether no two Titles share an id.
pub open spec fn title_ids_differ(rows: Seq<TitleRowFields>) -> bool {
    forall|i: int, j: int| 0 <= i < j < rows.len() ==> #[trigger] rows[i].id != #[trigger] rows[j].id
}

/// A Title that is found is one of the rows.
pub proof fn lemma_found_title(
    rows: Seq<TitleRowFields>,
    name: Seq<char>,
    category: Seq<char>,
) -> (i: int)
    requires
        title_of(rows, name, category) is Some,
    ensures
        0 <= i < rows.len(),
        rows[i].name == name,
        rows[i].category == category,
        title_of(rows, name, category) == Some(rows[i].id),
    decreases rows.len(),
{
    if rows[0].name == name && rows[0].category == category {
        0
    } else {
        let i = lemma_found_title(rows.skip(1), name, category);
        assert(rows.skip(1)[i] == rows[i + 1]);
        i + 1
    }
}

/// A Title is the one of its id, if no two share one.
pub proof fn lemma_title_row_of(rows: Seq<TitleRowFields>, i: int)
    requires
        title_ids_differ(rows),
        0 <= i < rows.len(),
    ensures
        title_row_of(rows, rows[i].id) == Some(rows[i]),
    decreases rows.len(),
{
    if i > 0 {
        assert(rows[0].id != rows[i].id);
        let rest = rows.skip(1);
        assert forall|a: int, b: int| 0 <= a < b < rest.len() implies #[trigger] rest[a].id
            != #[trigger] rest[b].id by {
            assert(rows[a + 1].id != rows[b + 1].id);
        }
        assert(rest[i - 1] == rows[i]);
        lemma_title_row_of(rest, i - 1);
    }
}

/// A row with an id that is there is found whatever is inserted later.
pub proof fn lemma_row_stays(rows: Seq<EditionRowFields>, row: EditionRowFields, id: i64)
    requires
        row_of(rows, id) is Some,
    ensures
        row_of(rows.push(row), id) == row_of(rows, id),
    decreases rows.len(),
{
    assert(rows.push(row)[0] == rows[0]);
    if rows[0].id != id {
        assert(rows.push(row).skip(1) =~= rows.skip(1).push(row));
        lemma_row_stays(rows.skip(1), row, id);
    }
}

/// A Title with an id that is there is found whatever is inserted later.
pub proof fn lemma_title_row_stays(rows: Seq<TitleRowFields>, row: TitleRowFields, id: i64)
    requires
        title_row_of(rows, id) is Some,
    ensures
        title_row_of(rows.push(row), id) == title_row_of(rows, id),
    decreases rows.len(),
{
    assert(rows.push(row)[0] == rows[0]);
    if rows[0].id != id {
        assert(rows.push(row).skip(1) =~= rows.skip(1).push(row));
        lemma_title_row_stays(rows.skip(1), row, id);
    }
}

/// Deleting the Editions that are not in use keeps the others: each is found by its id and,
/// where it was the one found by its key, by its key. Those that are kept are all in use, so
/// that deleting once more deletes nothing.
pub proof fn used_editions_are_kept(rows: Seq<EditionRowFields>, used: Set<i64>)
    ensures
        forall|id: i64|
            used.contains(id) ==> #[trigger] row_of(used_editions(rows, used), id) == row_of(rows, id),
        forall|title_id: i64, key: crate::edition::KeyFields|
            (edition_of(rows, title_id, key) matches Some(id) && used.contains(id))
                ==> #[trigger] edition_of(used_editions(rows, used), title_id, key) == edition_of(
                rows,
                title_id,
                key,
            ),
        forall|k: int|
            0 <= k < used_editions(rows, used).len() ==> used.contains(
                (#[trigger] used_editions(rows, used)[k]).id,
            ) && rows.contains(used_editions(rows, used)[k]),
        ids_differ(rows) ==> ids_differ(used_editions(rows, used)),
        used_editions(used_editions(rows, used), used) == used_editions(rows, used),
        unused_editions(rows, used).len() == rows.len() - used_editions(rows, used).len(),
    decreases rows.len(),
{
    if rows.len() > 0 {
        let rest = rows.skip(1);
        let kept = used_editions(rows, used);
        let fewer = used_editions(rest, used);
        used_editions_are_kept(rest, used);
        if used.contains(rows[0].id) {
            assert(kept.skip(1) =~= fewer);
            assert(kept[0] == rows[0]);
            assert(used_editions(kept, used) =~= kept);
        }
        assert forall|k: int| 0 <= k < kept.len() implies used.contains((#[trigger] kept[k]).id)
            && rows.contains(kept[k]) by {
            let q = if used.contains(rows[0].id) {
                k - 1
            } else {
                k
            };
            if q >= 0 {
                assert(kept[k] == fewer[q]);
                assert(rest.contains(fewer[q]));
                let j = choose|j: int| 0 <= j < rest.len() && rest[j] == fewer[q];
                assert(rows[j + 1] == kept[k]);
            } else {
                assert(rows[0] == kept[k]);
            }
        }
        assert forall|title_id: i64, key: crate::edition::KeyFields|
            (edition_of(rows, title_id, key) matches Some(id) && used.contains(
                id,
            )) implies #[trigger] edition_of(kept, title_id, key) == edition_of(
            rows,
            title_id,
            key,
        ) by {
            if !is_edition(rows[0], title_id, key) {
                assert(edition_of(fewer, title_id, key) == edition_of(rest, title_id, key));
            }
        }
        if ids_differ(rows) {
            assert forall|a: int, b: int| 0 <= a < b < rest.len() implies #[trigger] rest[a].id
                != #[trigger] rest[b].id by {
                assert(rows[a + 1].id != rows[b + 1].id);
            }
            assert(ids_differ(fewer));
            if used.contains(rows[0].id) {
                assert forall|a: int, b: int| 0 <= a < b < kept.len() implies #[trigger] kept[a].id
                    != #[trigger] kept[b].id by {
                    assert(kept[b] == fewer[b - 1]);
                    if a == 0 {
                        assert(rest.contains(fewer[b - 1]));
                        let j = choose|j: int| 0 <= j < rest.len() && rest[j] == fewer[b - 1];
                        assert(rows[0].id != rows[j + 1].id);
                    } else {
                        assert(kept[a] == fewer[a - 1]);
                    }
                }
            }
        }
    } else {
        assert(used_editions(rows, used) =~= Seq::empty());
    }
}

/// Deleting the Titles that are not in use keeps the others: each is found by its id and,
/// where it was the one found by its name and category, by these. Deleting once more
/// deletes nothing.
pub proof fn used_titles_are_kept(rows: Seq<TitleRowFields>, used: Set<i64>)
    ensures
        forall|id: i64|
            used.contains(id) ==> #[trigger] title_row_of(used_titles(rows, used), id)
                == title_row_of(rows, id),
        forall|name: Seq<char>, category: Seq<char>|
            (title_of(rows, name, category) matches Some(id) && used.contains(id))
                ==> #[trigger] title_of(used_titles(rows, used), name, category) == title_of(
                rows,
                name,
                category,
            ),
        forall|k: int|
            0 <= k < used_titles(rows, used).len() ==> used.contains(
                (#[trigger] used_titles(rows, used)[k]).id,
            ) && rows.contains(used_titles(rows, used)[k]),
        title_ids_differ(rows) ==> title_ids_differ(used_titles(rows, used)),
        used_titles(used_titles(rows, used), used) == used_titles(rows, used),
        unused_titles(rows, used).len() == rows.len() - used_titles(rows, used).len(),
    decreases rows.len(),
{
    if rows.len() > 0 {
        let rest = rows.skip(1);
        let kept = used_titles(rows, used);
        let fewer = used_titles(rest, used);
        used_titles_are_kept(rest, used);
        if used.contains(rows[0].id) {
            assert(kept.skip(1) =~= fewer);
            assert(kept[0] == rows[0]);
            assert(used_titles(kept, used) =~= kept);
        }
        assert forall|k: int| 0 <= k < kept.len() implies used.contains((#[trigger] kept[k]).id)
            && rows.contains(kept[k]) by {
            let q = if used.contains(rows[0].id) {
                k - 1
            } else {
                k
            };
            if q >= 0 {
                assert(kept[k] == fewer[q]);
                assert(rest.contains(fewer[q]));
                let j = choose|j: int| 0 <= j < rest.len() && rest[j] == fewer[q];
                assert(rows[j + 1] == kept[k]);
            } else {
                assert(rows[0] == kept[k]);
            }
        }
        assert forall|name: Seq<char>, category: Seq<char>|
            (title_of(rows, name, category) matches Some(id) && used.contains(
                id,
            )) implies #[trigger] title_of(kept, name, category) == title_of(
            rows,
            name,
            category,
        ) by {
            if !(rows[0].name == name && rows[0].category == category) {
                assert(title_of(fewer, name, category) == title_of(rest, name, category));
            }
        }
        if title_ids_differ(rows) {
            assert forall|a: int, b: int| 0 <= a < b < rest.len() implies #[trigger] rest[a].id
                != #[trigger] rest[b].id by {
                assert(rows[a + 1].id != rows[b + 1].id);
            }
            assert(title_ids_differ(fewer));
            if used.contains(rows[0].id) {
                assert forall|a: int, b: int| 0 <= a < b < kept.len() implies #[trigger] kept[a].id
                    != #[trigger] kept[b].id by {
                    assert(kept[b] == fewer[b - 1]);
                    if a == 0 {
                        assert(rest.contains(fewer[b - 1]));
                        let j = choose|j: int| 0 <= j < rest.len() && rest[j] == fewer[b - 1];
                        assert(rows[0].id != rows[j + 1].id);
                    } else {
                        assert(kept[a] == fewer[a - 1]);
                    }
                }
            }
        }
    } else {
        assert(used_titles(rows, used) =~= Seq::empty());
    }
}

/// A title is found by its name and category, the first with both; there is none exactly where
/// no row has both.
pub proof fn title_is_the_first_of_its_name(
    rows: Seq<TitleRowFields>,
    name: Seq<char>,
    category: Seq<char>,
)
    ensures
        match title_of(rows, name, category) {
            None => forall|i: int|
                0 <= i < rows.len() ==> !((#[trigger] rows[i]).name == name && rows[i].category
                    == category),
            Some(id) => exists|i: int|
                0 <= i < rows.len() && (#[trigger] rows[i]).id == id && rows[i].name == name
                    && rows[i].category == category && forall|j: int|
                    0 <= j < i ==> !((#[trigger] rows[j]).name == name && rows[j].category
                        == category),
        },
    decreases rows.len(),
{
    if rows.len() > 0 && !(rows[0].name == name && rows[0].category == category) {
        let rest = rows.skip(1);
        title_is_the_first_of_its_name(rest, name, category);
        match title_of(rest, name, category) {
            None => {
                assert forall|i: int| 0 <= i < rows.len() implies !((#[trigger] rows[i]).name == name
                    && rows[i].category == category) by {
                    if i > 0 {
                        assert(rest[i - 1] == rows[i]);
                    }
                }
            },
            Some(id) => {
                let i = choose|i: int|
                    0 <= i < rest.len() && (#[trigger] rest[i]).id == id && rest[i].name == name
                        && rest[i].category == category && forall|j: int|
                        0 <= j < i ==> !((#[trigger] rest[j]).name == name && rest[j].category
                            == category);
                assert(rows[i + 1].id == id);
                assert forall|j: int| 0 <= j < i + 1 implies !((#[trigger] rows[j]).name == name
                    && rows[j].category == category) by {
                    if j > 0 {
                        assert(rest[j - 1] == rows[j]);
                    }
                }
            },
        }
    } else if rows.len() > 0 {
        assert(rows[0].id == title_of(rows, name, category)->0);
    }
}

/// Whether a row is of a title and has the version, language, publisher, qualifier, disk number
/// and disk count of a key.
pub open spec fn has_key(
    row: EditionRowFields,
    title_id: i64,
    key: crate::edition::KeyFields,
) -> bool {
    row.title_id == title_id && row.version == key.version && row.language == key.language
        && row.publisher == key.publisher && row.qualifier == key.qualifier && row.disk_no
        == key.disk_no && row.disk_count == key.disk_count
}

/// An Edition is found by its title and key, the first with both; there is none exactly where
/// no row has both.
pub proof fn edition_is_the_first_of_its_key(
    rows: Seq<EditionRowFields>,
    title_id: i64,
    key: crate::edition::KeyFields,
)
    ensures
        match edition_of(rows, title_id, key) {
            None => forall|i: int|
                0 <= i < rows.len() ==> !has_key(#[trigger] rows[i], title_id, key),
            Some(id) => exists|i: int|
                0 <= i < rows.len() && (#[trigger] rows[i]).id == id && has_key(
                    rows[i],
                    title_id,
                    key,
                ) && forall|j: int| 0 <= j < i ==> !has_key(#[trigger] rows[j], title_id, key),
        },
    decreases rows.len(),
{
    if rows.len() > 0 && !has_key(rows[0], title_id, key) {
        let rest = rows.skip(1);
        edition_is_the_first_of_its_key(rest, title_id, key);
        match edition_of(rest, title_id, key) {
            None => {
                assert forall|i: int| 0 <= i < rows.len() implies !has_key(
                    #[trigger] rows[i],
                    title_id,
                    key,
                ) by {
                    if i > 0 {
                        assert(rest[i - 1] == rows[i]);
                    }
                }
            },
            Some(id) => {
                let i = choose|i: int|
                    0 <= i < rest.len() && (#[trigger] rest[i]).id == id && has_key(
                        rest[i],
                        title_id,
                        key,
                    ) && forall|j: int| 0 <= j < i ==> !has_key(#[trigger] rest[j], title_id, key);
                assert(rows[i + 1].id == id);
                assert forall|j: int| 0 <= j < i + 1 implies !has_key(
                    #[trigger] rows[j],
                    title_id,
                    key,
                ) by {
                    if j > 0 {
                        assert(rest[j - 1] == rows[j]);
                    }
                }
            },
        }
    } else if rows.len() > 0 {
        assert(rows[0].id == edition_of(rows, title_id, key)->0);
    }
}

/// A row is found by its identifier, the first with it.
pub proof fn row_is_the_first_of_its_id(rows: Seq<EditionRowFields>, k: int)
    requires
        0 <= k < rows.len(),
        forall|j: int| 0 <= j < k ==> (#[trigger] rows[j]).id != rows[k].id,
    ensures
        row_of(rows, rows[k].id) == Some(rows[k]),
    decreases k,
{
    if k > 0 {
        assert(rows[0].id != rows[k].id);
        let rest = rows.skip(1);
        assert(rest[k - 1] == rows[k]);
        assert forall|j: int| 0 <= j < k - 1 implies (#[trigger] rest[j]).id != rest[k - 1].id by {
            assert(rest[j] == rows[j + 1]);
        }
        row_is_the_first_of_its_id(rest, k - 1);
    }
}

/// Editions are of one release exactly where they share title, version, language, publisher,
/// qualifier and disk count.
pub proof fn release_is_all_but_the_disk(a: EditionRowFields, b: EditionRowFields)
    ensures
        set_of(a) == set_of(b) <==> a.title_id == b.title_id && a.version == b.version && a.language
            == b.language && a.publisher == b.publisher && a.qualifier == b.qualifier
            && a.disk_count == b.disk_count,
{
}

/// The siblings of an Edition come in the order of their disks, those without a disk number
/// first, and its disk count is its own.
pub proof fn siblings_come_by_disk(
    rows: Seq<EditionRowFields>,
    own: EditionRowFields,
    dc: Option<u32>,
    siblings: Seq<(i64, Option<u32>)>,
    i: int,
    j: int,
)
    requires
        rows.len() <= usize::MAX,
        are_siblings(rows, own, dc, siblings),
        0 <= i < j < siblings.len(),
    ensures
        dc == own.disk_count,
        siblings[i].1 is Some ==> siblings[j].1 is Some && siblings[i].1->0 <= siblings[j].1->0,
{
    let items = disks_of(crate::order::with_key(rows, by_set(), set_of(own)));
    lemma_siblings_size(rows, own);
    crate::order::lemma_sorted_has(by_disk(), items, siblings);
    assert(by_disk()(siblings[i], siblings[j]) || !by_disk()(siblings[j], siblings[i]));
}

/// Siblings are no more than all rows.
proof fn lemma_siblings_size(rows: Seq<EditionRowFields>, own: EditionRowFields)
    ensures
        crate::order::with_key(rows, by_set(), set_of(own)).len() <= rows.len(),
    decreases rows.len(),
{
    if rows.len() > 0 {
        lemma_siblings_size(rows.drop_last(), own);
    }
}

/// A row is removed exactly where its identifier is not in use: what is kept and what is
/// removed go row by row.
pub proof fn unused_rows_are_removed_one_by_one(
    rows: Seq<EditionRowFields>,
    row: EditionRowFields,
    titles: Seq<TitleRowFields>,
    title: TitleRowFields,
    used: Set<i64>,
)
    ensures
        used.contains(row.id) ==> used_editions(seq![row] + rows, used) == seq![row]
            + used_editions(rows, used) && unused_editions(seq![row] + rows, used)
            == unused_editions(rows, used),
        !used.contains(row.id) ==> used_editions(seq![row] + rows, used) == used_editions(
            rows,
            used,
        ) && unused_editions(seq![row] + rows, used) == seq![row.id] + unused_editions(rows, used),
        used.contains(title.id) ==> used_titles(seq![title] + titles, used) == seq![title]
            + used_titles(titles, used) && unused_titles(seq![title] + titles, used)
            == unused_titles(titles, used),
        !used.contains(title.id) ==> used_titles(seq![title] + titles, used) == used_titles(
            titles,
            used,
        ) && unused_titles(seq![title] + titles, used) == seq![title.id] + unused_titles(
            titles,
            used,
        ),
        used_editions(Seq::empty(), used).len() == 0,
        unused_editions(Seq::empty(), used).len() == 0,
        used_titles(Seq::empty(), used).len() == 0,
        unused_titles(Seq::empty(), used).len() == 0,
{
    assert((seq![row] + rows).skip(1) =~= rows);
    assert((seq![title] + titles).skip(1) =~= titles);
}

/// Siblings with one disk number come in the order of their rows.
pub proof fn siblings_with_one_disk_keep_their_order(
    rows: Seq<EditionRowFields>,
    own: EditionRowFields,
    dc: Option<u32>,
    siblings: Seq<(i64, Option<u32>)>,
    a: int,
    b: int,
) -> (at: (int, int))
    requires
        rows.len() <= usize::MAX,
        are_siblings(rows, own, dc, siblings),
        0 <= a < b < crate::order::with_key(rows, by_set(), set_of(own)).len(),
        crate::order::with_key(rows, by_set(), set_of(own))[a].disk_no == crate::order::with_key(
            rows,
            by_set(),
            set_of(own),
        )[b].disk_no,
    ensures
        0 <= at.0 < at.1 < siblings.len(),
        siblings[at.0].0 == crate::order::with_key(rows, by_set(), set_of(own))[a].id,
        siblings[at.1].0 == crate::order::with_key(rows, by_set(), set_of(own))[b].id,
{
    let items = disks_of(crate::order::with_key(rows, by_set(), set_of(own)));
    lemma_siblings_size(rows, own);
    assert(!by_disk()(items[a], items[b]) && !by_disk()(items[b], items[a]));
    crate::order::sorting_keeps_the_order_of_equals(by_disk(), items, siblings, a, b)
}

} // verus!
