//! Sets: the disks that form one release, their lineages, and their export.

use vstd::prelude::*;

use crate::error::Error;
use crate::order::{sorted_positions, DiskKey};
use crate::ranking::{
    lineage_coverage, primary_set_for_lineage, rank_before, rank_key, DiskMember, LineageCoverage,
};
use crate::service::primaries::{gather_members, SetRows};
use crate::text::{append_text, chars_of, owned, same, string_of};

verus! {

// --- Gathering --------------------------------------------------------------

/// The largest disk number among Editions, if any has one.
pub open spec fn max_disk(siblings: Seq<crate::service::primaries::SiblingFields>) -> Option<u32>
    decreases siblings.len(),
{
    if siblings.len() == 0 {
        None
    } else {
        let rest = max_disk(siblings.drop_last());
        match siblings.last().disk_no {
            None => rest,
            Some(d) => match rest {
                Some(m) => if m > d {
                    Some(m)
                } else {
                    Some(d)
                },
                None => Some(d),
            },
        }
    }
}

/// How many disks a set has: as many as the release says, else as the largest disk
/// held; one at least.
pub open spec fn set_disk_count(rows: crate::service::primaries::RowsFields) -> u32 {
    let n = match rows.disk_count {
        Some(d) => d,
        None => match max_disk(rows.siblings) {
            Some(m) => m,
            None => 1,
        },
    };
    if n > 1 {
        n
    } else {
        1
    }
}

/// The members of a set; a single-disk release with no "Disk N" is its own disk 1.
pub open spec fn set_members(rows: crate::service::primaries::RowsFields) -> Seq<
    crate::ranking::MemberFields,
> {
    crate::service::primaries::gathered(rows.siblings, 1)
}

/// Gather every disk member of a set, with the set's disk count. When the release
/// doesn't declare "of N", it must cover every disk that is held, so a lineage that
/// misses a present disk isn't complete.
pub fn gather_set(rows: &SetRows) -> (r: (u32, Vec<DiskMember>))
    ensures
        r.0 == set_disk_count(rows@),
        crate::ranking::member_views(r.1@) == set_members(rows@),
{
    let (members, _owned_by) = gather_members(&rows.siblings, 1);
    let ghost sv = rows@.siblings;
    let mut largest: Option<u32> = None;
    let mut n: usize = 0;
    assert(sv.take(0) =~= Seq::empty());
    while n < rows.siblings.len()
        invariant
            n <= rows.siblings@.len(),
            sv == rows@.siblings,
            largest == max_disk(sv.take(n as int)),
        decreases rows.siblings@.len() - n,
    {
        proof {
            assert(sv.take(n + 1).drop_last() =~= sv.take(n as int));
            assert(sv[n as int] == rows.siblings@[n as int]@);
        }
        if let Some(d) = rows.siblings[n].disk_no {
            largest = match largest {
                Some(m) => if m > d {
                    Some(m)
                } else {
                    Some(d)
                },
                None => Some(d),
            };
        }
        n += 1;
    }
    assert(sv.take(n as int) =~= sv);
    let count = match rows.disk_count {
        Some(d) => d,
        None => match largest {
            Some(m) => m,
            None => 1,
        },
    };
    (if count > 1 { count } else { 1 }, members)
}

// --- The class of a lineage -------------------------------------------------

/// The position of the best-ranked member of a lineage among the first `n`, the
/// earliest of several as good.
pub open spec fn best_ranked(
    members: Seq<crate::ranking::MemberFields>,
    tag: Seq<char>,
    n: nat,
) -> Option<int>
    decreases n,
{
    if n == 0 {
        None
    } else {
        let i = n - 1;
        let rest = best_ranked(members, tag, (n - 1) as nat);
        if !crate::ranking::of_lineage(members, tag, i) {
            rest
        } else {
            match rest {
                None => Some(i),
                Some(b) => if crate::ranking::rank_lt(
                    crate::ranking::rank_of(members[i].info),
                    crate::ranking::rank_of(members[b].info),
                ) {
                    Some(i)
                } else {
                    rest
                },
            }
        }
    }
}

/// The browse display class of a lineage.
pub open spec fn class_of(members: Seq<crate::ranking::MemberFields>, tag: Seq<char>) -> Seq<char> {
    match best_ranked(members, tag, members.len()) {
        Some(i) => crate::edition::dump_class(members[i].info.dump_type),
        None => "original"@,
    }
}

/// The browse display class of one lineage of a set: the 5→3 fold
/// ([`crate::edition::DumpType::class3`]) of the lineage's best-ranked member —
/// i.e. the dump the set actually downloads (`rank_key` prefers the cleanest,
/// verified/original, trainer-free variant). So a bucket that holds only a
/// hack/trainer reads as `hacked`, while one that also holds a clean dump reads
/// as `original`; the no-group (`""`) lineage is not special-cased. Empty (all
/// members disqualified) falls back to `original`.
pub fn lineage_class(tag: &str, members: &[DiskMember]) -> (r: &'static str)
    ensures
        r@ == class_of(crate::ranking::member_views(members@), tag@),
{
    let ghost mv = crate::ranking::member_views(members@);
    let mut best: Option<usize> = None;
    let mut n: usize = 0;
    while n < members.len()
        invariant
            n <= members@.len(),
            mv == crate::ranking::member_views(members@),
            crate::text::at(best) == best_ranked(mv, tag@, n as nat),
            best matches Some(b) ==> b < n,
        decreases members@.len() - n,
    {
        assert(mv[n as int] == members@[n as int]@);
        if crate::ranking::is_of_lineage(members, tag, n) {
            best = match best {
                None => Some(n),
                Some(b) => {
                    assert(mv[b as int] == members@[b as int]@);
                    if rank_before(rank_key(&members[n].info), rank_key(&members[b].info)) {
                        Some(n)
                    } else {
                        Some(b)
                    }
                },
            };
        }
        n += 1;
    }
    match best {
        Some(b) => {
            assert(mv[b as int] == members@[b as int]@);
            members[b].info.dump_type.class3()
        },
        None => "original",
    }
}

// --- Lineages, disks, export ------------------------------------------------

/// Candidate lineages of a Set (complete/partial coverage), best-first.
pub fn set_lineages(rows: &SetRows) -> (r: Vec<LineageCoverage>)
    ensures
        crate::ranking::is_coverage(set_members(rows@), set_disk_count(rows@), r@),
{
    let (dc, members) = gather_set(rows);
    lineage_coverage(&members, dc)
}

/// The disks of Editions: their numbers, 0 where they have none, with the Editions.
pub open spec fn numbered(siblings: Seq<(i64, Option<u32>)>) -> Seq<(u32, i64)> {
    siblings.map_values(
        |s: (i64, Option<u32>)|
            (
                match s.1 {
                    Some(d) => d,
                    None => 0,
                },
                s.0,
            ),
    )
}

/// The order of disks by number.
pub open spec fn disk_lt() -> spec_fn((u32, i64), (u32, i64)) -> bool {
    |a: (u32, i64), b: (u32, i64)| a.0 < b.0
}

/// The Set's disks as `(disk_no, edition_id)`, so the UI can always reach the
/// disks held even when no lineage is complete.
pub fn set_disks(siblings: &[(i64, Option<u32>)]) -> (r: Vec<(u32, i64)>)
    ensures
        crate::order::is_stable_sort(disk_lt(), numbered(siblings@), r@),
{
    let ghost items = numbered(siblings@);
    let mut keys: Vec<DiskKey> = Vec::new();
    let mut n: usize = 0;
    while n < siblings.len()
        invariant
            n <= siblings@.len(),
            items == numbered(siblings@),
            keys@.len() == n,
            forall|k: int| 0 <= k < n ==> (#[trigger] keys@[k])@ == items[k].0,
        decreases siblings@.len() - n,
    {
        let disk_no = match siblings[n].1 {
            Some(d) => d,
            None => 0,
        };
        keys.push(DiskKey { disk_no });
        n += 1;
    }
    let order = sorted_positions(&keys);
    let mut r: Vec<(u32, i64)> = Vec::new();
    let mut k: usize = 0;
    while k < order.len()
        invariant
            k <= order@.len(),
            items == numbered(siblings@),
            keys@.len() == siblings@.len(),
            forall|k: int| 0 <= k < keys@.len() ==> (#[trigger] keys@[k])@ == items[k].0,
            crate::order::is_stable_order(keys@, order@),
            r@.len() == k,
            forall|q: int| 0 <= q < k ==> #[trigger] r@[q] == items[order@[q] as int],
        decreases order@.len() - k,
    {
        let i = order[k];
        assert(order@[k as int] < keys@.len());
        assert(keys@[i as int]@ == items[i as int].0);
        r.push((keys[i].disk_no, siblings[i].0));
        k += 1;
    }
    proof {
        assert forall|i: int, j: int|
            0 <= i < items.len() && 0 <= j < items.len() implies disk_lt()(
            #[trigger] items[i],
            #[trigger] items[j],
        ) == crate::order::key_lt::<DiskKey>(keys@[i]@, keys@[j]@) by {
            assert(keys@[i]@ == items[i].0 && keys@[j]@ == items[j].0);
        }
        assert forall|i: int| 0 <= i < r@.len() implies (#[trigger] order@[i]) < items.len()
            && r@[i] == items[order@[i] as int] by {
            assert(r@[i] == items[order@[i] as int]);
        }
        crate::order::lemma_stable_sort(disk_lt(), items, keys@, order@, r@);
    }
    r
}

/// The disks and UIDs of members, by their positions.
pub open spec fn files_of(members: Seq<crate::ranking::MemberFields>, set: Seq<usize>) -> Seq<
    (u32, Seq<char>),
> {
    Seq::new(
        set.len(),
        |k: int| (members[set[k] as int].disk_no, members[set[k] as int].tiebreak),
    )
}

/// What disks with UIDs hold.
pub open spec fn file_views(files: Seq<(u32, String)>) -> Seq<(u32, Seq<char>)> {
    files.map_values(|f: (u32, String)| (f.0, f.1@))
}

/// Whether these are the best variant of each disk that a lineage covers, by disk.
pub open spec fn is_resolved(
    members: Seq<crate::ranking::MemberFields>,
    lineage: Seq<char>,
    files: Seq<(u32, Seq<char>)>,
) -> bool {
    exists|set: Seq<usize>| #[trigger]
        crate::ranking::is_primary_set(members, lineage, set) && files == files_of(members, set)
}

/// The best variant of each disk that a lineage covers, by disk.
pub fn lineage_files(members: &[DiskMember], lineage: &str) -> (files: Vec<(u32, String)>)
    ensures
        is_resolved(crate::ranking::member_views(members@), lineage@, file_views(files@)),
{
    let ghost mv = crate::ranking::member_views(members@);
    let set = primary_set_for_lineage(members, lineage);
    let mut files: Vec<(u32, String)> = Vec::new();
    let mut k: usize = 0;
    while k < set.len()
        invariant
            k <= set@.len(),
            mv == crate::ranking::member_views(members@),
            crate::ranking::is_primary_set(mv, lineage@, set@),
            files@.len() == k,
            forall|q: int|
                0 <= q < k ==> (#[trigger] files@[q]).0 == mv[set@[q] as int].disk_no
                    && files@[q].1@ == mv[set@[q] as int].tiebreak,
        decreases set@.len() - k,
    {
        let i = set[k];
        assert(crate::ranking::is_disk_choice(mv, lineage@, set@[k as int] as int));
        assert(crate::ranking::of_lineage(mv, lineage@, i as int));
        assert(mv[i as int] == members@[i as int]@);
        files.push((members[i].disk_no, owned(&members[i].tiebreak)));
        k += 1;
    }
    assert(file_views(files@) =~= files_of(mv, set@));
    files
}

/// Resolve a lineage to one coherent set: the best variant of each disk in it,
/// as `(disk_no, uid)` sorted by disk.
pub fn resolve_set(rows: &SetRows, lineage: &str) -> (files: Vec<(u32, String)>)
    ensures
        is_resolved(set_members(rows@), lineage@, file_views(files@)),
{
    let (_dc, members) = gather_set(rows);
    lineage_files(&members, lineage)
}

/// Whether a lineage is a complete set.
pub open spec fn is_complete_set(
    rows: crate::service::primaries::RowsFields,
    lineage: Seq<char>,
) -> bool {
    &&& crate::ranking::has_lineage(set_members(rows), lineage)
    &&& crate::ranking::is_complete(set_members(rows), lineage, set_disk_count(rows))
}

/// What is said of a lineage that is no complete set.
pub open spec fn incomplete_set(lineage: Seq<char>) -> crate::error::Fault {
    crate::error::Fault {
        kind: crate::error::ErrorKind::Invalid,
        text: "lineage '"@ + lineage + "' is not a complete set"@,
    }
}

/// Whether a UID is a variant of the lineage on disk `disk` that qualifies.
pub open spec fn is_boot_variant(
    members: Seq<crate::ranking::MemberFields>,
    lineage: Seq<char>,
    disk: u32,
    uid: Seq<char>,
) -> bool {
    exists|i: int| #[trigger]
        crate::ranking::of_lineage(members, lineage, i) && members[i].disk_no == disk
            && members[i].tiebreak == uid
}

/// The UIDs to export: those of the resolved set, with the boot disk (the lowest)
/// overridden where the override is a variant of the lineage on that disk.
pub open spec fn exported(
    members: Seq<crate::ranking::MemberFields>,
    lineage: Seq<char>,
    files: Seq<(u32, Seq<char>)>,
    boot_uid: Option<Seq<char>>,
) -> Seq<Seq<char>> {
    Seq::new(
        files.len(),
        |k: int|
            if k == 0 && boot_uid is Some && is_boot_variant(
                members,
                lineage,
                files[0].0,
                boot_uid->0,
            ) {
                boot_uid->0
            } else {
                files[k].1
            },
    )
}

/// Whether this is what exporting a set gives.
pub open spec fn is_export(
    rows: crate::service::primaries::RowsFields,
    lineage: Seq<char>,
    boot_uid: Option<Seq<char>>,
    r: Result<Vec<String>, Error>,
) -> bool {
    if is_complete_set(rows, lineage) {
        r matches Ok(uids) && exists|files: Seq<(u32, Seq<char>)>| #[trigger]
            is_resolved(set_members(rows), lineage, files) && files.len() > 0
                && crate::text::views(uids@) == exported(
                set_members(rows),
                lineage,
                files,
                boot_uid,
            )
    } else {
        r matches Err(e) && e@ == incomplete_set(lineage)
    }
}

/// Whether one of the rows is this lineage, complete.
fn has_complete_row(rows: &[LineageCoverage], lineage: &str) -> (r: bool)
    ensures
        r <==> exists|k: int|
            0 <= k < rows@.len() && crate::ranking::row_tag(#[trigger] rows@[k]) == lineage@
                && rows@[k].complete,
{
    let mut k: usize = 0;
    while k < rows.len()
        invariant
            k <= rows@.len(),
            forall|q: int|
                0 <= q < k ==> !(crate::ranking::row_tag(#[trigger] rows@[q]) == lineage@
                    && rows@[q].complete),
        decreases rows@.len() - k,
    {
        let row = &rows[k];
        let found = match &row.lineage {
            Some(t) => same(t, lineage),
            None => lineage.is_empty(),
        };
        proof {
            if row.lineage is None && lineage@.len() == 0 {
                assert(lineage@ =~= Seq::<char>::empty());
            }
        }
        if found && row.complete {
            assert(crate::ranking::row_tag(rows@[k as int]) == lineage@);
            return true;
        }
        k += 1;
    }
    false
}

/// Whether a UID is a variant of the lineage on disk `disk` that qualifies.
fn boots(members: &[DiskMember], lineage: &str, disk: u32, uid: &str) -> (r: bool)
    ensures
        r == is_boot_variant(crate::ranking::member_views(members@), lineage@, disk, uid@),
{
    let ghost mv = crate::ranking::member_views(members@);
    let mut i: usize = 0;
    while i < members.len()
        invariant
            i <= members@.len(),
            mv == crate::ranking::member_views(members@),
            forall|q: int|
                0 <= q < i ==> !(#[trigger] crate::ranking::of_lineage(mv, lineage@, q)
                    && mv[q].disk_no == disk && mv[q].tiebreak == uid@),
        decreases members@.len() - i,
    {
        assert(mv[i as int] == members@[i as int]@);
        if crate::ranking::is_of_lineage(members, lineage, i) && members[i].disk_no == disk && same(
            &members[i].tiebreak,
            uid,
        ) {
            assert(crate::ranking::of_lineage(mv, lineage@, i as int));
            return true;
        }
        i += 1;
    }
    false
}

/// Export a coherent set (best-per-disk of `lineage`), as the UIDs of its disks.
pub fn export_set(rows: &SetRows, lineage: &str) -> (r: Result<Vec<String>, Error>)
    ensures
        is_export(rows@, lineage@, None, r),
{
    export_set_with(rows, lineage, None)
}

/// Export a coherent set, optionally overriding the boot disk with `boot_uid`
/// (a chosen trainer variant), as the UIDs of its disks. Refuses an incomplete or
/// unknown lineage, and ignores a boot override that isn't a valid boot-disk variant
/// of the lineage. `lineage` is the empty string for the original (no-group) set.
pub fn export_set_with(rows: &SetRows, lineage: &str, boot_uid: Option<&str>) -> (r: Result<
    Vec<String>,
    Error,
>)
    ensures
        is_export(rows@, lineage@, crate::text::opt_str_view(boot_uid), r),
{
    let (dc, members) = gather_set(rows);
    let ghost mv = set_members(rows@);
    let coverage = lineage_coverage(&members, dc);
    let complete = has_complete_row(&coverage, lineage);
    proof {
        lemma_complete_row(mv, dc, coverage@, lineage@);
    }
    if !complete {
        let mut c = chars_of("lineage '");
        append_text(&mut c, lineage);
        append_text(&mut c, "' is not a complete set");
        return Err(Error::Invalid(string_of(&c)));
    }
    let files = lineage_files(&members, lineage);
    let ghost fv = file_views(files@);
    proof {
        lemma_complete_has_files(mv, dc, lineage@, fv);
        assert(fv.len() > 0);
    }
    let mut uids: Vec<String> = Vec::new();
    let boot_disk = files[0].0;
    let first = match boot_uid {
        Some(b) => {
            if boots(&members, lineage, boot_disk, b) {
                owned(b)
            } else {
                owned(&files[0].1)
            }
        },
        None => owned(&files[0].1),
    };
    uids.push(first);
    let mut k: usize = 1;
    let ghost ev = exported(mv, lineage@, fv, crate::text::opt_str_view(boot_uid));
    assert(fv[0] == (files@[0].0, files@[0].1@));
    while k < files.len()
        invariant
            1 <= k <= files@.len(),
            fv == file_views(files@),
            ev == exported(mv, lineage@, fv, crate::text::opt_str_view(boot_uid)),
            uids@.len() == k,
            forall|q: int| 0 <= q < k ==> (#[trigger] uids@[q])@ == ev[q],
        decreases files@.len() - k,
    {
        assert(fv[k as int] == (files@[k as int].0, files@[k as int].1@));
        uids.push(owned(&files[k].1));
        k += 1;
    }
    assert(crate::text::views(uids@) =~= ev);
    Ok(uids)
}

/// A lineage is a complete row exactly where it is a complete set.
proof fn lemma_complete_row(
    members: Seq<crate::ranking::MemberFields>,
    disk_count: u32,
    rows: Seq<LineageCoverage>,
    lineage: Seq<char>,
)
    requires
        crate::ranking::is_coverage(members, disk_count, rows),
    ensures
        (exists|k: int|
            0 <= k < rows.len() && crate::ranking::row_tag(#[trigger] rows[k]) == lineage
                && rows[k].complete) <==> crate::ranking::has_lineage(members, lineage)
            && crate::ranking::is_complete(members, lineage, disk_count),
{
    if exists|k: int|
        0 <= k < rows.len() && crate::ranking::row_tag(#[trigger] rows[k]) == lineage
            && rows[k].complete {
        let k = choose|k: int|
            0 <= k < rows.len() && crate::ranking::row_tag(#[trigger] rows[k]) == lineage
                && rows[k].complete;
        assert(crate::ranking::is_coverage_row(members, disk_count, rows[k]));
    }
    if crate::ranking::has_lineage(members, lineage) && crate::ranking::is_complete(
        members,
        lineage,
        disk_count,
    ) {
        assert(crate::ranking::has_row(rows, lineage));
        let k = choose|k: int|
            0 <= k < rows.len() && crate::ranking::row_tag(#[trigger] rows[k]) == lineage;
        assert(crate::ranking::is_coverage_row(members, disk_count, rows[k]));
    }
}

/// A complete set has files: one for disk 1 at least.
pub proof fn lemma_complete_has_files(
    members: Seq<crate::ranking::MemberFields>,
    disk_count: u32,
    lineage: Seq<char>,
    files: Seq<(u32, Seq<char>)>,
)
    requires
        disk_count >= 1,
        crate::ranking::is_complete(members, lineage, disk_count),
        is_resolved(members, lineage, files),
    ensures
        files.len() > 0,
{
    let set = choose|set: Seq<usize>| #[trigger]
        crate::ranking::is_primary_set(members, lineage, set) && files == files_of(members, set);
    assert(crate::ranking::covers(members, lineage, 1));
    assert(crate::ranking::chooses_disk(members, set, 1));
}

// --- Laws -------------------------------------------------------------------

/// The class of a lineage is that of its cleanest dump: no member of it that
/// qualifies ranks before the one whose class it is.
pub proof fn class_is_of_cleanest_dump(
    members: Seq<crate::ranking::MemberFields>,
    tag: Seq<char>,
    n: nat,
)
    requires
        n <= members.len(),
    ensures
        match best_ranked(members, tag, n) {
            None => forall|j: int| 0 <= j < n ==> !#[trigger] crate::ranking::of_lineage(members, tag, j),
            Some(i) => i < n && crate::ranking::of_lineage(members, tag, i) && forall|j: int|
                0 <= j < n && #[trigger] crate::ranking::of_lineage(members, tag, j)
                    ==> !crate::ranking::rank_lt(
                    crate::ranking::rank_of(members[j].info),
                    crate::ranking::rank_of(members[i].info),
                ),
        },
    decreases n,
{
    if n > 0 {
        class_is_of_cleanest_dump(members, tag, (n - 1) as nat);
    }
}

/// What is resolved of a lineage is of that lineage alone, one file to a disk, the
/// disks ascending; where the lineage is a complete set, every disk has one.
pub proof fn resolved_set_is_coherent(
    rows: crate::service::primaries::RowsFields,
    lineage: Seq<char>,
    files: Seq<(u32, Seq<char>)>,
)
    requires
        is_resolved(set_members(rows), lineage, files),
    ensures
        forall|a: int, b: int| 0 <= a < b < files.len() ==> (#[trigger] files[a]).0 < (
        #[trigger] files[b]).0,
        forall|k: int|
            0 <= k < files.len() ==> is_boot_variant(
                set_members(rows),
                lineage,
                (#[trigger] files[k]).0,
                files[k].1,
            ),
        is_complete_set(rows, lineage) ==> forall|d: u32|
            1 <= d <= set_disk_count(rows) ==> #[trigger] holds_disk(files, d),
{
    let m = set_members(rows);
    let set = choose|set: Seq<usize>| #[trigger]
        crate::ranking::is_primary_set(m, lineage, set) && files == files_of(m, set);
    crate::ranking::primary_set_is_coherent(m, set_disk_count(rows), lineage, set);
    assert forall|a: int, b: int| 0 <= a < b < files.len() implies (#[trigger] files[a]).0 < (
    #[trigger] files[b]).0 by {
        assert(m[set[a] as int].disk_no < m[set[b] as int].disk_no);
    }
    assert forall|k: int| 0 <= k < files.len() implies is_boot_variant(
        m,
        lineage,
        (#[trigger] files[k]).0,
        files[k].1,
    ) by {
        assert(crate::ranking::is_disk_choice(m, lineage, set[k] as int));
        assert(crate::ranking::of_lineage(m, lineage, set[k] as int));
    }
    if is_complete_set(rows, lineage) {
        assert forall|d: u32| 1 <= d <= set_disk_count(rows) implies #[trigger] holds_disk(
            files,
            d,
        ) by {
            assert(crate::ranking::covers(m, lineage, d));
            assert(crate::ranking::chooses_disk(m, set, d));
            let k = choose|k: int|
                0 <= k < set.len() && m[(#[trigger] set[k]) as int].disk_no == d;
            assert(files[k].0 == d);
        }
    }
}

/// Whether one of the files is of disk `d`.
pub open spec fn holds_disk(files: Seq<(u32, Seq<char>)>, d: u32) -> bool {
    exists|k: int| 0 <= k < files.len() && (#[trigger] files[k]).0 == d
}

/// A boot override that is no variant of the lineage on the boot disk changes
/// nothing, and one that is changes the boot disk alone.
pub proof fn boot_override_is_checked(
    members: Seq<crate::ranking::MemberFields>,
    lineage: Seq<char>,
    files: Seq<(u32, Seq<char>)>,
    uid: Seq<char>,
)
    requires
        files.len() > 0,
    ensures
        !is_boot_variant(members, lineage, files[0].0, uid) ==> exported(
            members,
            lineage,
            files,
            Some(uid),
        ) == exported(members, lineage, files, None),
        is_boot_variant(members, lineage, files[0].0, uid) ==> exported(
            members,
            lineage,
            files,
            Some(uid),
        ) == exported(members, lineage, files, None).update(0, uid),
{
    assert(!is_boot_variant(members, lineage, files[0].0, uid) ==> exported(
        members,
        lineage,
        files,
        Some(uid),
    ) =~= exported(members, lineage, files, None));
    assert(is_boot_variant(members, lineage, files[0].0, uid) ==> exported(
        members,
        lineage,
        files,
        Some(uid),
    ) =~= exported(members, lineage, files, None).update(0, uid));
}

/// The largest disk number of siblings is one of theirs, and none is larger; there is none
/// exactly where no sibling has a disk number.
pub proof fn max_disk_is_the_largest(siblings: Seq<crate::service::primaries::SiblingFields>)
    ensures
        match max_disk(siblings) {
            None => forall|i: int|
                0 <= i < siblings.len() ==> (#[trigger] siblings[i]).disk_no is None,
            Some(m) => (exists|i: int|
                0 <= i < siblings.len() && (#[trigger] siblings[i]).disk_no == Some(m)) && forall|
                i: int,
            |
                0 <= i < siblings.len() ==> ((#[trigger] siblings[i]).disk_no matches Some(d)
                    ==> d <= m),
        },
    decreases siblings.len(),
{
    if siblings.len() > 0 {
        let init = siblings.drop_last();
        let n = init.len() as int;
        max_disk_is_the_largest(init);
        assert(forall|i: int| 0 <= i < n ==> #[trigger] siblings[i] == init[i]);
        match max_disk(init) {
            None => {},
            Some(m) => {
                let i = choose|i: int| 0 <= i < n && (#[trigger] init[i]).disk_no == Some(m);
                assert(siblings[i].disk_no == Some(m));
            },
        }
        if let Some(d) = siblings.last().disk_no {
            assert(siblings[n].disk_no == Some(d));
        }
    }
}

/// A release has as many disks as it says, and at least one. One that does not say has as many
/// as the largest disk number among its siblings.
pub proof fn disk_count_is_said_or_seen(rows: crate::service::primaries::RowsFields)
    ensures
        set_disk_count(rows) >= 1,
        rows.disk_count matches Some(d) ==> (d >= 1 ==> set_disk_count(rows) == d) && (d == 0
            ==> set_disk_count(rows) == 1),
        rows.disk_count is None ==> {
            &&& forall|i: int|
                0 <= i < rows.siblings.len() ==> ((#[trigger] rows.siblings[i]).disk_no matches Some(
                    d,
                ) ==> d <= set_disk_count(rows))
            &&& set_disk_count(rows) > 1 ==> exists|i: int|
                0 <= i < rows.siblings.len() && (#[trigger] rows.siblings[i]).disk_no == Some(
                    set_disk_count(rows),
                )
        },
{
    max_disk_is_the_largest(rows.siblings);
}

/// The members of a release are the variants of its siblings; one whose sibling has no disk
/// number is disk 1.
pub proof fn members_without_disk_are_disk_one(
    rows: crate::service::primaries::RowsFields,
    s: crate::service::primaries::SiblingFields,
    i: int,
)
    requires
        rows.siblings == seq![s],
        0 <= i < s.variants.len(),
    ensures
        set_members(rows).len() == s.variants.len(),
        s.disk_no is None ==> set_members(rows)[i].disk_no == 1,
        s.disk_no matches Some(d) ==> set_members(rows)[i].disk_no == d,
        set_members(rows)[i].tiebreak == s.variants[i].0,
        set_members(rows)[i].info == s.variants[i].1,
{
    crate::service::primaries::gathering_is_itemwise(seq![s], seq![], s, 1);
    assert(crate::service::primaries::gathered(seq![s], 1)[i].info == s.variants[i].1);
}

/// The class of a lineage is read off a member that counts for it and that no other is better
/// than, the first such: `original` for an original dump, `cracked` for a cracked one, `hacked`
/// for any other. A lineage without members is `original`.
pub proof fn class_is_that_of_the_best_member(
    members: Seq<crate::ranking::MemberFields>,
    tag: Seq<char>,
)
    ensures
        (forall|j: int|
            0 <= j < members.len() ==> !crate::ranking::belongs(#[trigger] members[j], tag))
            ==> class_of(members, tag) == "original"@,
        (exists|j: int| 0 <= j < members.len() && crate::ranking::belongs(#[trigger] members[j], tag))
            ==> exists|i: int|
            0 <= i < members.len() && crate::ranking::belongs(#[trigger] members[i], tag) && {
                let d = members[i].info;
                &&& d.dump_type is Original ==> class_of(members, tag) == "original"@
                &&& d.dump_type is Cracked ==> class_of(members, tag) == "cracked"@
                &&& !(d.dump_type is Original) && !(d.dump_type is Cracked) ==> class_of(
                    members,
                    tag,
                ) == "hacked"@
                &&& forall|j: int|
                    0 <= j < members.len() && crate::ranking::belongs(#[trigger] members[j], tag)
                        ==> crate::ranking::at_least_as_good(d, seq![], members[j].info, seq![])
                        && (j < i ==> !crate::ranking::at_least_as_good(
                        members[j].info,
                        seq![],
                        d,
                        seq![],
                    ))
            },
{
    let n = members.len();
    lemma_best_is_first(members, tag, n);
    assert forall|j: int|
        0 <= j < n implies (crate::ranking::of_lineage(members, tag, j)
        <==> crate::ranking::belongs(#[trigger] members[j], tag)) by {
        if tag.len() == 0 {
            assert(tag =~= Seq::<char>::empty());
        }
    }
    match best_ranked(members, tag, n) {
        None => {
            assert forall|j: int| 0 <= j < n implies !crate::ranking::belongs(
                #[trigger] members[j],
                tag,
            ) by {
                assert(!crate::ranking::of_lineage(members, tag, j));
            }
        },
        Some(i) => {
            crate::text::lemma_text_lt_asym(seq![], seq![]);
            let d = members[i].info;
            assert forall|j: int|
                0 <= j < n && crate::ranking::belongs(
                    #[trigger] members[j],
                    tag,
                ) implies crate::ranking::at_least_as_good(d, seq![], members[j].info, seq![]) && (j
                < i ==> !crate::ranking::at_least_as_good(
                members[j].info,
                seq![],
                d,
                seq![],
            )) by {
                assert(crate::ranking::of_lineage(members, tag, j));
            }
            assert(crate::ranking::belongs(members[i], tag));
        },
    }
}

/// The best-ranked member is the first of those that none ranks before.
proof fn lemma_best_is_first(
    members: Seq<crate::ranking::MemberFields>,
    tag: Seq<char>,
    n: nat,
)
    requires
        n <= members.len(),
    ensures
        match best_ranked(members, tag, n) {
            None => forall|j: int|
                0 <= j < n ==> !#[trigger] crate::ranking::of_lineage(members, tag, j),
            Some(i) => i < n && crate::ranking::of_lineage(members, tag, i) && forall|j: int|
                0 <= j < n && #[trigger] crate::ranking::of_lineage(members, tag, j)
                    ==> !crate::ranking::rank_lt(
                    crate::ranking::rank_of(members[j].info),
                    crate::ranking::rank_of(members[i].info),
                ) && (j < i ==> crate::ranking::rank_lt(
                    crate::ranking::rank_of(members[i].info),
                    crate::ranking::rank_of(members[j].info),
                )),
        },
    decreases n,
{
    if n > 0 {
        lemma_best_is_first(members, tag, (n - 1) as nat);
    }
}

/// What is resolved of a lineage has, for each disk that a member counting for the lineage is,
/// the UID of such a member that is at least as good.
pub proof fn resolved_files_are_the_best(
    members: Seq<crate::ranking::MemberFields>,
    lineage: Seq<char>,
    files: Seq<(u32, Seq<char>)>,
    j: int,
)
    requires
        is_resolved(members, lineage, files),
        0 <= j < members.len(),
        crate::ranking::belongs(members[j], lineage),
    ensures
        exists|k: int, i: int|
            #![trigger files[k], members[i]]
            0 <= k < files.len() && 0 <= i < members.len() && files[k] == (
                members[j].disk_no,
                members[i].tiebreak,
            ) && members[i].disk_no == members[j].disk_no && crate::ranking::belongs(
                members[i],
                lineage,
            ) && crate::ranking::at_least_as_good(
                members[i].info,
                members[i].tiebreak,
                members[j].info,
                members[j].tiebreak,
            ),
{
    let set = choose|set: Seq<usize>| #[trigger]
        crate::ranking::is_primary_set(members, lineage, set) && files == files_of(members, set);
    crate::ranking::set_holds_the_best_of_each_disk(members, lineage, set, j);
    let k = choose|k: int|
        #![trigger set[k]]
        0 <= k < set.len() && set[k] < members.len() && ({
            let m = members[set[k] as int];
            &&& m.disk_no == members[j].disk_no
            &&& crate::ranking::belongs(m, lineage)
            &&& crate::ranking::at_least_as_good(
                m.info,
                m.tiebreak,
                members[j].info,
                members[j].tiebreak,
            )
        });
    assert(files[k] == (members[j].disk_no, members[set[k] as int].tiebreak));
}

/// A release is exported exactly where some member counts for the lineage and every disk from
/// 1 to the disk count is one of them; what is exported is one UID to a disk, each that of a
/// member that counts for the lineage.
pub proof fn only_complete_sets_are_exported(
    rows: crate::service::primaries::RowsFields,
    lineage: Seq<char>,
    boot_uid: Option<Seq<char>>,
    r: Result<Vec<String>, Error>,
)
    requires
        is_export(rows, lineage, boot_uid, r),
    ensures
        r is Ok <==> {
            &&& exists|i: int|
                0 <= i < set_members(rows).len() && crate::ranking::belongs(
                    #[trigger] set_members(rows)[i],
                    lineage,
                )
            &&& forall|d: u32|
                1 <= d <= set_disk_count(rows) ==> #[trigger] crate::ranking::covers(
                    set_members(rows),
                    lineage,
                    d,
                )
        },
        r matches Ok(uids) ==> {
            &&& uids@.len() == crate::ranking::disk_set(set_members(rows), lineage).len()
            &&& forall|k: int|
                0 <= k < uids@.len() ==> exists|i: int|
                    0 <= i < set_members(rows).len() && crate::ranking::belongs(
                        #[trigger] set_members(rows)[i],
                        lineage,
                    ) && set_members(rows)[i].tiebreak == (#[trigger] uids@[k])@
        },
        r matches Err(e) ==> e@.kind is Invalid,
{
    let m = set_members(rows);
    crate::ranking::coverage_is_by_members(m, lineage, 1);
    if let Ok(uids) = r {
        let files = choose|files: Seq<(u32, Seq<char>)>| #[trigger]
            is_resolved(m, lineage, files) && files.len() > 0 && crate::text::views(uids@)
                == exported(m, lineage, files, boot_uid);
        let set = choose|set: Seq<usize>| #[trigger]
            crate::ranking::is_primary_set(m, lineage, set) && files == files_of(m, set);
        crate::ranking::primary_set_is_coherent(m, set_disk_count(rows), lineage, set);
        assert(crate::text::views(uids@).len() == uids@.len());
        resolved_set_is_coherent(rows, lineage, files);
        assert forall|k: int| 0 <= k < uids@.len() implies exists|i: int|
            0 <= i < m.len() && crate::ranking::belongs(#[trigger] m[i], lineage) && m[i].tiebreak
                == (#[trigger] uids@[k])@ by {
            let uid = crate::text::views(uids@)[k];
            assert(uid == uids@[k]@);
            assert(is_boot_variant(m, lineage, files[k].0, files[k].1));
            assert(is_boot_variant(m, lineage, files[k].0, uid));
            let i = choose|i: int| #[trigger]
                crate::ranking::of_lineage(m, lineage, i) && m[i].disk_no == files[k].0
                    && m[i].tiebreak == uid;
            if lineage.len() == 0 {
                assert(lineage =~= Seq::<char>::empty());
            }
            assert(crate::ranking::belongs(m[i], lineage));
        }
    }
}

/// The disks of a release come in the order of their numbers, one without a number as 0 and so
/// first; each is listed with its Edition.
pub proof fn disks_come_in_order(
    siblings: Seq<(i64, Option<u32>)>,
    r: Seq<(u32, i64)>,
    k: int,
    l: int,
)
    requires
        siblings.len() <= usize::MAX,
        crate::order::is_stable_sort(disk_lt(), numbered(siblings), r),
        0 <= k < l < r.len(),
    ensures
        r.len() == siblings.len(),
        r[k].0 <= r[l].0,
        forall|d: u32, e: i64| #[trigger]
            r.contains((d, e)) <==> exists|i: int|
                0 <= i < siblings.len() && (#[trigger] siblings[i]).0 == e && (siblings[i].1
                    == Some(d) || siblings[i].1 is None && d == 0),
{
    let items = numbered(siblings);
    crate::order::lemma_sorted_has(disk_lt(), items, r);
    assert(disk_lt()(r[k], r[l]) || !disk_lt()(r[l], r[k]));
    assert forall|d: u32, e: i64| #[trigger] r.contains((d, e)) <==> exists|i: int|
        0 <= i < siblings.len() && (#[trigger] siblings[i]).0 == e && (siblings[i].1 == Some(d)
            || siblings[i].1 is None && d == 0) by {
        assert(r.contains((d, e)) <==> items.contains((d, e)));
        if items.contains((d, e)) {
            let i = choose|i: int| 0 <= i < items.len() && items[i] == (d, e);
            assert(siblings[i].0 == e);
        }
        if exists|i: int|
            0 <= i < siblings.len() && (#[trigger] siblings[i]).0 == e && (siblings[i].1 == Some(d)
                || siblings[i].1 is None && d == 0) {
            let i = choose|i: int|
                0 <= i < siblings.len() && (#[trigger] siblings[i]).0 == e && (siblings[i].1
                    == Some(d) || siblings[i].1 is None && d == 0);
            assert(items[i] == (d, e));
        }
    }
}

/// Disks with one number come in the order their Editions came in.
pub proof fn disks_with_one_number_keep_their_order(
    siblings: Seq<(i64, Option<u32>)>,
    r: Seq<(u32, i64)>,
    a: int,
    b: int,
) -> (at: (int, int))
    requires
        siblings.len() <= usize::MAX,
        crate::order::is_stable_sort(disk_lt(), numbered(siblings), r),
        0 <= a < b < siblings.len(),
        siblings[a].1 == siblings[b].1,
    ensures
        0 <= at.0 < at.1 < r.len(),
        r[at.0].1 == siblings[a].0,
        r[at.1].1 == siblings[b].0,
        r[at.0].0 == r[at.1].0,
{
    let items = numbered(siblings);
    assert(items[a].0 == items[b].0);
    assert(!disk_lt()(items[a], items[b]) && !disk_lt()(items[b], items[a]));
    crate::order::sorting_keeps_the_order_of_equals(disk_lt(), items, r, a, b)
}

/// A set that is not complete is refused by the name of its lineage.
pub proof fn refusal_names_the_lineage(lineage: Seq<char>)
    ensures
        incomplete_set(lineage).kind is Invalid,
        incomplete_set(lineage).text == "lineage '"@ + lineage + "' is not a complete set"@,
{
}

} // verus!
