//! Playable sets: the variations of a game release that can be downloaded.

use vstd::prelude::*;

use crate::order::{group_by, OptKey};
use crate::ranking::{best_of, is_of_lineage, lineage_coverage, lists, DiskMember, LineageCoverage};
use crate::service::primaries::SetRows;
use crate::service::sets::{gather_set, lineage_class, lineage_files};
use crate::text::{clone_opt, owned, same};

verus! {

/// A boot-disk (trainer) option for a playable set.
#[derive(Debug, Clone)]
pub struct TrainerOption {
    pub uid: String,
    /// Trainer text (e.g. "+9 TLPI"), or `None` for the plain boot disk.
    pub trainer: Option<String>,
    /// Whether this is the ranking-default boot disk.
    pub is_default: bool,
}

/// What a [`TrainerOption`] holds.
#[verifier::ext_equal]
pub struct OptionFields {
    pub uid: Seq<char>,
    pub trainer: Option<Seq<char>>,
    pub is_default: bool,
}

impl View for TrainerOption {
    type V = OptionFields;

    open spec fn view(&self) -> OptionFields {
        OptionFields {
            uid: self.uid@,
            trainer: crate::text::opt_view(self.trainer),
            is_default: self.is_default,
        }
    }
}

/// What options hold.
pub open spec fn option_views(s: Seq<TrainerOption>) -> Seq<OptionFields> {
    s.map_values(|x: TrainerOption| x@)
}

/// A playable variation of a game: a complete coherent set the user can download.
#[derive(Debug, Clone)]
pub struct PlayableSet {
    pub rep_edition_id: i64,
    /// The crack/hack group, or `None` for the original.
    pub lineage: Option<String>,
    /// Browse type class of this lineage: that of its cleanest dump.
    pub kind: String,
    /// Trainer text (e.g. "+3 DC") if any member of this lineage carries one, so
    /// the UI can show a trainer chip even when there is no plain/trained *choice*
    /// (which is all `trainer_options` captures). `None` if the lineage is untrained.
    pub trainer: Option<String>,
    pub complete: bool,
    pub missing_disks: Vec<u32>,
    pub is_recommended: bool,
    /// Coherent `(disk_no, uid)` (best per disk); empty for an incomplete variation.
    /// Internal only (drives trainer options) — not shipped to the client.
    pub disks: Vec<(u32, String)>,
    /// Boot-disk trainer choices for this lineage.
    pub trainer_options: Vec<TrainerOption>,
}

/// What a [`PlayableSet`] holds.
#[verifier::ext_equal]
pub struct PlayableFields {
    pub rep_edition_id: i64,
    pub lineage: Option<Seq<char>>,
    pub kind: Seq<char>,
    pub trainer: Option<Seq<char>>,
    pub complete: bool,
    pub missing_disks: Seq<u32>,
    pub is_recommended: bool,
    pub disks: Seq<(u32, Seq<char>)>,
    pub trainer_options: Seq<OptionFields>,
}

impl View for PlayableSet {
    type V = PlayableFields;

    open spec fn view(&self) -> PlayableFields {
        PlayableFields {
            rep_edition_id: self.rep_edition_id,
            lineage: crate::text::opt_view(self.lineage),
            kind: self.kind@,
            trainer: crate::text::opt_view(self.trainer),
            complete: self.complete,
            missing_disks: self.missing_disks@,
            is_recommended: self.is_recommended,
            disks: crate::service::sets::file_views(self.disks@),
            trainer_options: option_views(self.trainer_options@),
        }
    }
}

/// What playable sets hold.
pub open spec fn playable_views(s: Seq<PlayableSet>) -> Seq<PlayableFields> {
    s.map_values(|x: PlayableSet| x@)
}

// --- Trainer options --------------------------------------------------------

/// The lowest disk of files, if there are any.
pub open spec fn boot_disk_of(files: Seq<(u32, Seq<char>)>) -> Option<u32>
    decreases files.len(),
{
    if files.len() == 0 {
        None
    } else {
        let d = files.last().0;
        match boot_disk_of(files.drop_last()) {
            Some(m) => if m <= d {
                Some(m)
            } else {
                Some(d)
            },
            None => Some(d),
        }
    }
}

/// The UID of the first file of a disk.
pub open spec fn uid_on_disk(files: Seq<(u32, Seq<char>)>, disk: u32) -> Option<Seq<char>>
    decreases files.len(),
{
    if files.len() == 0 {
        None
    } else if files[0].0 == disk {
        Some(files[0].1)
    } else {
        uid_on_disk(files.skip(1), disk)
    }
}

/// Whether the member at `i` qualifies, is of the lineage, and is on a disk.
pub open spec fn on_disk(
    members: Seq<crate::ranking::MemberFields>,
    lineage: Seq<char>,
    disk: u32,
    i: int,
) -> bool {
    crate::ranking::of_lineage(members, lineage, i) && members[i].disk_no == disk
}

/// Whether the member at `i` is the one to take for its trainer: no member on the
/// disk with that trainer is better, and it is better than the earlier ones.
pub open spec fn is_trainer_choice(
    members: Seq<crate::ranking::MemberFields>,
    lineage: Seq<char>,
    disk: u32,
    i: int,
) -> bool {
    &&& on_disk(members, lineage, disk, i)
    &&& forall|j: int| #[trigger]
        on_disk(members, lineage, disk, j) && members[j].info.trainer == members[i].info.trainer
            ==> !crate::ranking::member_better(members, j, i) && (j < i
            ==> crate::ranking::member_better(members, i, j))
}

/// Whether one of the choices has this trainer.
pub open spec fn chooses_trainer(
    members: Seq<crate::ranking::MemberFields>,
    choice: Seq<usize>,
    trainer: Option<Seq<char>>,
) -> bool {
    exists|k: int|
        0 <= k < choice.len() && members[(#[trigger] choice[k]) as int].info.trainer == trainer
}

/// Whether `choice` holds one member for each trainer on the disk, the one to take for
/// it, in the order of the trainers, the plain one first.
pub open spec fn are_trainer_choices(
    members: Seq<crate::ranking::MemberFields>,
    lineage: Seq<char>,
    disk: u32,
    choice: Seq<usize>,
) -> bool {
    &&& forall|k: int|
        0 <= k < choice.len() ==> is_trainer_choice(
            members,
            lineage,
            disk,
            #[trigger] choice[k] as int,
        )
    &&& forall|k: int, l: int|
        0 <= k < l < choice.len() ==> crate::text::opt_text_lt(
            members[(#[trigger] choice[k]) as int].info.trainer,
            members[(#[trigger] choice[l]) as int].info.trainer,
        )
    &&& forall|i: int| #[trigger]
        on_disk(members, lineage, disk, i) ==> chooses_trainer(
            members,
            choice,
            members[i].info.trainer,
        )
}

/// The options that choices give: none unless there is a real choice.
pub open spec fn options_of(
    members: Seq<crate::ranking::MemberFields>,
    choice: Seq<usize>,
    default_uid: Option<Seq<char>>,
) -> Seq<OptionFields> {
    if choice.len() < 2 {
        Seq::empty()
    } else {
        Seq::new(
            choice.len(),
            |k: int|
                OptionFields {
                    uid: members[choice[k] as int].tiebreak,
                    trainer: members[choice[k] as int].info.trainer,
                    is_default: default_uid == Some(members[choice[k] as int].tiebreak),
                },
        )
    }
}

/// Whether these are the trainer options of a lineage with these files.
pub open spec fn are_trainer_options(
    members: Seq<crate::ranking::MemberFields>,
    lineage: Seq<char>,
    files: Seq<(u32, Seq<char>)>,
    options: Seq<OptionFields>,
) -> bool {
    match boot_disk_of(files) {
        None => options.len() == 0,
        Some(disk) => exists|choice: Seq<usize>| #[trigger]
            are_trainer_choices(members, lineage, disk, choice) && options == options_of(
                members,
                choice,
                uid_on_disk(files, disk),
            ),
    }
}

/// The lowest disk of files, if there are any.
fn boot_disk(files: &[(u32, String)]) -> (r: Option<u32>)
    ensures
        r == boot_disk_of(crate::service::sets::file_views(files@)),
{
    let ghost fv = crate::service::sets::file_views(files@);
    let mut lowest: Option<u32> = None;
    let mut n: usize = 0;
    assert(fv.take(0) =~= Seq::empty());
    while n < files.len()
        invariant
            n <= files@.len(),
            fv == crate::service::sets::file_views(files@),
            lowest == boot_disk_of(fv.take(n as int)),
        decreases files@.len() - n,
    {
        proof {
            assert(fv.take(n + 1).drop_last() =~= fv.take(n as int));
            assert(fv[n as int] == (files@[n as int].0, files@[n as int].1@));
        }
        let d = files[n].0;
        lowest = match lowest {
            Some(m) => if m <= d {
                Some(m)
            } else {
                Some(d)
            },
            None => Some(d),
        };
        n += 1;
    }
    assert(fv.take(n as int) =~= fv);
    lowest
}

/// Whether this UID is that of the first file of a disk.
fn is_default_uid(files: &[(u32, String)], disk: u32, uid: &str) -> (r: bool)
    ensures
        r == (uid_on_disk(crate::service::sets::file_views(files@), disk) == Some(uid@)),
{
    let ghost fv = crate::service::sets::file_views(files@);
    let mut n: usize = 0;
    assert(fv.skip(0) =~= fv);
    while n < files.len()
        invariant
            n <= files@.len(),
            fv == crate::service::sets::file_views(files@),
            uid_on_disk(fv, disk) == uid_on_disk(fv.skip(n as int), disk),
        decreases files@.len() - n,
    {
        proof {
            assert(fv.skip(n as int)[0] == fv[n as int]);
            assert(fv[n as int] == (files@[n as int].0, files@[n as int].1@));
            assert(fv.skip(n as int).skip(1) =~= fv.skip(n + 1));
        }
        if files[n].0 == disk {
            return same(&files[n].1, uid);
        }
        n += 1;
    }
    assert(fv.skip(n as int) =~= Seq::empty());
    false
}

/// One member for each trainer on a disk.
fn trainer_choices(members: &[DiskMember], lineage: &str, disk: u32) -> (choice: Vec<usize>)
    ensures
        are_trainer_choices(crate::ranking::member_views(members@), lineage@, disk, choice@),
{
    let ghost mv = crate::ranking::member_views(members@);
    let mut keys: Vec<Option<OptKey>> = Vec::new();
    let mut n: usize = 0;
    while n < members.len()
        invariant
            n <= members@.len(),
            mv == crate::ranking::member_views(members@),
            keys@.len() == n,
            forall|j: int|
                0 <= j < n ==> ((#[trigger] keys@[j]) is Some <==> on_disk(mv, lineage@, disk, j))
                    && (keys@[j] is Some ==> keys@[j]->0@ == mv[j].info.trainer),
        decreases members@.len() - n,
    {
        assert(mv[n as int] == members@[n as int]@);
        if is_of_lineage(members, lineage, n) && members[n].disk_no == disk {
            keys.push(Some(OptKey { text: clone_opt(&members[n].info.trainer) }));
        } else {
            keys.push(None);
        }
        n += 1;
    }
    let groups = group_by(&keys);
    let mut choice: Vec<usize> = Vec::new();
    let mut g: usize = 0;
    while g < groups.len()
        invariant
            g <= groups@.len(),
            choice@.len() == g,
            mv == crate::ranking::member_views(members@),
            keys@.len() == members@.len(),
            crate::order::is_grouping(keys@, groups@),
            forall|j: int|
                0 <= j < keys@.len() ==> ((#[trigger] keys@[j]) is Some <==> on_disk(
                    mv,
                    lineage@,
                    disk,
                    j,
                )) && (keys@[j] is Some ==> keys@[j]->0@ == mv[j].info.trainer),
            forall|h: int|
                0 <= h < g ==> is_trainer_choice(mv, lineage@, disk, #[trigger] choice@[h] as int)
                    && mv[choice@[h] as int].info.trainer == crate::order::group_key(
                    keys@,
                    groups@[h]@,
                ),
        decreases groups@.len() - g,
    {
        let ghost q = groups@[g as int]@;
        assert(crate::order::is_group(keys@, q));
        let r = best_of(members, &groups[g]);
        proof {
            let p = choose|p: int| 0 <= p < q.len() && q[p] == r;
            assert(q[p] < keys@.len());
            assert(keys@[r as int] is Some);
            assert forall|j: int| #[trigger]
                on_disk(mv, lineage@, disk, j) && mv[j].info.trainer
                    == mv[r as int].info.trainer implies !crate::ranking::member_better(
                mv,
                j,
                r as int,
            ) && (j < r ==> crate::ranking::member_better(mv, r as int, j)) by {
                assert(keys@[j] is Some);
                let t = crate::order::lemma_in_group(keys@, groups@, g as int, j);
                assert(q[t] == j);
            }
        }
        choice.push(r);
        g += 1;
    }
    proof {
        assert forall|k: int, l: int| 0 <= k < l < choice@.len() implies crate::text::opt_text_lt(
            mv[(#[trigger] choice@[k]) as int].info.trainer,
            mv[(#[trigger] choice@[l]) as int].info.trainer,
        ) by {
            assert(crate::order::key_lt::<OptKey>(
                crate::order::group_key(keys@, groups@[k]@),
                crate::order::group_key(keys@, groups@[l]@),
            ));
        }
        assert forall|i: int| #[trigger] on_disk(mv, lineage@, disk, i) implies chooses_trainer(
            mv,
            choice@,
            mv[i].info.trainer,
        ) by {
            assert(keys@[i] is Some);
            assert(crate::order::grouped(groups@, i));
            let (h, p) = choose|h: int, p: int|
                0 <= h < groups@.len() && 0 <= p < groups@[h]@.len() && #[trigger] groups@[h]@[p]
                    == i;
            assert(crate::order::is_group(keys@, groups@[h]@));
            assert(groups@[h]@[p] < keys@.len());
            assert(mv[choice@[h] as int].info.trainer == mv[i].info.trainer);
        }
    }
    choice
}

/// The boot-disk trainer choices for a lineage: the best variant per distinct
/// trainer on the set's boot (lowest) disk. Empty unless there's a real choice.
pub fn trainer_options(members: &[DiskMember], lineage: &str, disks: &[(u32, String)]) -> (r: Vec<
    TrainerOption,
>)
    ensures
        are_trainer_options(
            crate::ranking::member_views(members@),
            lineage@,
            crate::service::sets::file_views(disks@),
            option_views(r@),
        ),
{
    let ghost mv = crate::ranking::member_views(members@);
    let ghost fv = crate::service::sets::file_views(disks@);
    let mut r: Vec<TrainerOption> = Vec::new();
    let disk = match boot_disk(disks) {
        None => {
            return r;
        },
        Some(d) => d,
    };
    let choice = trainer_choices(members, lineage, disk);
    let ghost default_uid = uid_on_disk(fv, disk);
    if choice.len() < 2 {
        // No real choice.
        assert(option_views(r@) =~= options_of(mv, choice@, default_uid));
        return r;
    }
    let mut k: usize = 0;
    while k < choice.len()
        invariant
            k <= choice@.len(),
            mv == crate::ranking::member_views(members@),
            fv == crate::service::sets::file_views(disks@),
            default_uid == uid_on_disk(fv, disk),
            are_trainer_choices(mv, lineage@, disk, choice@),
            r@.len() == k,
            forall|q: int|
                0 <= q < k ==> (#[trigger] r@[q])@ == (OptionFields {
                    uid: mv[choice@[q] as int].tiebreak,
                    trainer: mv[choice@[q] as int].info.trainer,
                    is_default: default_uid == Some(mv[choice@[q] as int].tiebreak),
                }),
        decreases choice@.len() - k,
    {
        let i = choice[k];
        assert(is_trainer_choice(mv, lineage@, disk, choice@[k as int] as int));
        assert(on_disk(mv, lineage@, disk, i as int));
        assert(mv[i as int] == members@[i as int]@);
        let m = &members[i];
        r.push(
            TrainerOption {
                uid: owned(&m.tiebreak),
                trainer: clone_opt(&m.info.trainer),
                is_default: is_default_uid(disks, disk, &m.tiebreak),
            },
        );
        k += 1;
    }
    assert(option_views(r@) =~= options_of(mv, choice@, default_uid));
    r
}

// --- Playable sets ----------------------------------------------------------

/// The first trainer among the members of a lineage from position `i` on.
pub open spec fn first_trainer(
    members: Seq<crate::ranking::MemberFields>,
    lineage: Seq<char>,
    i: int,
) -> Option<Seq<char>>
    decreases members.len() - i,
{
    if i < 0 || i >= members.len() {
        None
    } else if crate::ranking::of_lineage(members, lineage, i) && members[i].info.trainer is Some {
        members[i].info.trainer
    } else {
        first_trainer(members, lineage, i + 1)
    }
}

/// The first trainer among the members of a lineage.
fn find_trainer(members: &[DiskMember], lineage: &str) -> (r: Option<String>)
    ensures
        crate::text::opt_view(r) == first_trainer(
            crate::ranking::member_views(members@),
            lineage@,
            0,
        ),
{
    let ghost mv = crate::ranking::member_views(members@);
    let mut i: usize = 0;
    while i < members.len()
        invariant
            i <= members@.len(),
            mv == crate::ranking::member_views(members@),
            first_trainer(mv, lineage@, 0) == first_trainer(mv, lineage@, i as int),
        decreases members@.len() - i,
    {
        assert(mv[i as int] == members@[i as int]@);
        if is_of_lineage(members, lineage, i) && members[i].info.trainer.is_some() {
            return clone_opt(&members[i].info.trainer);
        }
        i += 1;
    }
    None
}

/// Whether `d` holds the disks `1..=disk_count` that a lineage misses, ascending.
pub open spec fn lists_missing(
    members: Seq<crate::ranking::MemberFields>,
    lineage: Seq<char>,
    disk_count: u32,
    d: Seq<u32>,
) -> bool {
    &&& forall|i: int, j: int| 0 <= i < j < d.len() ==> d[i] < d[j]
    &&& forall|k: u32| #[trigger]
        d.contains(k) <==> 1 <= k <= disk_count && !crate::ranking::covers(members, lineage, k)
}

/// The disks `1..=disk_count` that are not covered, ascending.
fn missing_disks(covered: &[u32], disk_count: u32) -> (d: Vec<u32>)
    ensures
        forall|i: int, j: int| 0 <= i < j < d@.len() ==> d@[i] < d@[j],
        forall|k: u32| #[trigger]
            d@.contains(k) <==> 1 <= k <= disk_count && !covered@.contains(k),
{
    let mut d: Vec<u32> = Vec::new();
    let mut k: u32 = 0;
    while k < disk_count
        invariant
            k <= disk_count,
            forall|i: int, j: int| 0 <= i < j < d@.len() ==> d@[i] < d@[j],
            forall|i: int| 0 <= i < d@.len() ==> #[trigger] d@[i] <= k,
            forall|q: u32| #[trigger]
                d@.contains(q) <==> 1 <= q <= k && !covered@.contains(q),
        decreases disk_count - k,
    {
        let ghost had = d@;
        k += 1;
        if !lists(covered, k) {
            d.push(k);
            proof {
                assert forall|q: u32| #[trigger]
                    d@.contains(q) <==> 1 <= q <= k && !covered@.contains(q) by {
                    if d@.contains(q) {
                        let i = choose|i: int| 0 <= i < d@.len() && d@[i] == q;
                        if i < had.len() {
                            assert(had[i] == q);
                            assert(had.contains(q));
                        }
                    }
                    if 1 <= q <= k && !covered@.contains(q) {
                        if q < k {
                            assert(had.contains(q));
                            let i = choose|i: int| 0 <= i < had.len() && had[i] == q;
                            assert(d@[i] == q);
                        } else {
                            assert(d@[had.len() as int] == q);
                        }
                    }
                }
            }
        }
    }
    d
}

/// Whether this is the playable set of a lineage.
pub open spec fn is_playable(
    edition_id: i64,
    members: Seq<crate::ranking::MemberFields>,
    disk_count: u32,
    row: LineageCoverage,
    p: PlayableFields,
) -> bool {
    let tag = crate::ranking::row_tag(row);
    &&& p.rep_edition_id == edition_id
    &&& p.lineage == crate::text::opt_view(row.lineage)
    &&& p.kind == crate::service::sets::class_of(members, tag)
    &&& p.trainer == first_trainer(members, tag, 0)
    &&& p.complete == row.complete
    &&& lists_missing(members, tag, disk_count, p.missing_disks)
    &&& p.is_recommended == row.is_primary
    &&& if row.complete {
        crate::service::sets::is_resolved(members, tag, p.disks)
    } else {
        p.disks.len() == 0
    }
    &&& are_trainer_options(members, tag, p.disks, p.trainer_options)
}

/// Whether these are the playable sets of lineages, in order.
pub open spec fn are_playable(
    edition_id: i64,
    members: Seq<crate::ranking::MemberFields>,
    disk_count: u32,
    rows: Seq<LineageCoverage>,
    sets: Seq<PlayableFields>,
) -> bool {
    &&& sets.len() == rows.len()
    &&& forall|k: int|
        0 <= k < sets.len() ==> is_playable(
            edition_id,
            members,
            disk_count,
            rows[k],
            #[trigger] sets[k],
        )
}

/// Whether these are the playable sets of a release, best first.
pub open spec fn is_playable_list(
    edition_id: i64,
    rows: crate::service::primaries::RowsFields,
    sets: Seq<PlayableFields>,
) -> bool {
    let members = crate::service::sets::set_members(rows);
    let dc = crate::service::sets::set_disk_count(rows);
    exists|cov: Seq<LineageCoverage>| #[trigger]
        crate::ranking::is_coverage(members, dc, cov) && are_playable(
            edition_id,
            members,
            dc,
            cov,
            sets,
        )
}

/// The playable set of a lineage.
fn playable_set(edition_id: i64, members: &[DiskMember], disk_count: u32, row: &LineageCoverage) -> (
p: PlayableSet)
    requires
        crate::ranking::is_coverage_row(
            crate::ranking::member_views(members@),
            disk_count,
            *row,
        ),
    ensures
        is_playable(
            edition_id,
            crate::ranking::member_views(members@),
            disk_count,
            *row,
            p@,
        ),
{
    let ghost mv = crate::ranking::member_views(members@);
    let tag = match &row.lineage {
        Some(t) => owned(t),
        None => {
            let none = String::new();
            assert(none@ =~= Seq::<char>::empty());
            none
        },
    };
    assert(tag@ == crate::ranking::row_tag(*row));
    let missing = missing_disks(&row.disks_covered, disk_count);
    proof {
        assert forall|k: u32| #[trigger]
            missing@.contains(k) <==> 1 <= k <= disk_count && !crate::ranking::covers(
                mv,
                tag@,
                k,
            ) by {
            assert(row.disks_covered@.contains(k) <==> crate::ranking::covers(mv, tag@, k));
        }
    }
    let disks: Vec<(u32, String)> = if row.complete {
        lineage_files(members, &tag)
    } else {
        Vec::new()
    };
    let options = trainer_options(members, &tag, &disks);
    PlayableSet {
        rep_edition_id: edition_id,
        lineage: clone_opt(&row.lineage),
        kind: owned(lineage_class(&tag, members)),
        trainer: find_trainer(members, &tag),
        complete: row.complete,
        missing_disks: missing,
        is_recommended: row.is_primary,
        disks,
        trainer_options: options,
    }
}

/// Playable variations of a game release: complete coherent sets to download,
/// plus incomplete ones (marked), each with its boot-disk trainer options.
pub fn playable_sets(edition_id: i64, rows: &SetRows) -> (r: Vec<PlayableSet>)
    ensures
        is_playable_list(edition_id, rows@, playable_views(r@)),
{
    let (dc, members) = gather_set(rows);
    let ghost mv = crate::service::sets::set_members(rows@);
    let coverage = lineage_coverage(&members, dc);
    let mut r: Vec<PlayableSet> = Vec::new();
    let mut k: usize = 0;
    while k < coverage.len()
        invariant
            k <= coverage@.len(),
            mv == crate::ranking::member_views(members@),
            crate::ranking::is_coverage(mv, dc, coverage@),
            r@.len() == k,
            forall|q: int|
                0 <= q < k ==> is_playable(edition_id, mv, dc, coverage@[q], (#[trigger] r@[q])@),
        decreases coverage@.len() - k,
    {
        assert(crate::ranking::is_coverage_row(mv, dc, coverage@[k as int]));
        r.push(playable_set(edition_id, &members, dc, &coverage[k]));
        k += 1;
    }
    proof {
        let pv = playable_views(r@);
        assert forall|q: int| 0 <= q < pv.len() implies is_playable(
            edition_id,
            mv,
            dc,
            coverage@[q],
            #[trigger] pv[q],
        ) by {
            assert(is_playable(edition_id, mv, dc, coverage@[q], r@[q]@));
        }
        assert(are_playable(edition_id, mv, dc, coverage@, pv));
    }
    r
}

// --- Laws -------------------------------------------------------------------

/// One variation is recommended, the first, and where any variation is complete it is.
pub proof fn first_variation_is_recommended(
    edition_id: i64,
    rows: crate::service::primaries::RowsFields,
    sets: Seq<PlayableFields>,
    k: int,
)
    requires
        is_playable_list(edition_id, rows, sets),
        0 <= k < sets.len(),
    ensures
        sets[k].is_recommended <==> k == 0,
        sets[k].complete ==> sets[0].complete,
{
    let members = crate::service::sets::set_members(rows);
    let dc = crate::service::sets::set_disk_count(rows);
    let cov = choose|cov: Seq<LineageCoverage>| #[trigger]
        crate::ranking::is_coverage(members, dc, cov) && are_playable(
            edition_id,
            members,
            dc,
            cov,
            sets,
        );
    assert(is_playable(edition_id, members, dc, cov[k], sets[k]));
    assert(is_playable(edition_id, members, dc, cov[0], sets[0]));
    assert(crate::ranking::is_coverage_row(members, dc, cov[k]));
    assert(crate::ranking::is_coverage_row(members, dc, cov[0]));
}

/// A variation is complete exactly when it misses no disk, and only then can it be
/// downloaded: an incomplete one has no files and no trainer options.
pub proof fn complete_variations_miss_nothing(
    edition_id: i64,
    rows: crate::service::primaries::RowsFields,
    sets: Seq<PlayableFields>,
    k: int,
)
    requires
        is_playable_list(edition_id, rows, sets),
        0 <= k < sets.len(),
    ensures
        sets[k].complete <==> sets[k].missing_disks.len() == 0,
        sets[k].complete <==> sets[k].disks.len() > 0,
        !sets[k].complete ==> sets[k].trainer_options.len() == 0,
{
    let members = crate::service::sets::set_members(rows);
    let dc = crate::service::sets::set_disk_count(rows);
    let cov = choose|cov: Seq<LineageCoverage>| #[trigger]
        crate::ranking::is_coverage(members, dc, cov) && are_playable(
            edition_id,
            members,
            dc,
            cov,
            sets,
        );
    assert(is_playable(edition_id, members, dc, cov[k], sets[k]));
    assert(crate::ranking::is_coverage_row(members, dc, cov[k]));
    let tag = crate::ranking::row_tag(cov[k]);
    let d = sets[k].missing_disks;
    if sets[k].complete {
        if d.len() > 0 {
            assert(d.contains(d[0]));
            assert(crate::ranking::covers(members, tag, d[0]));
        }
        crate::service::sets::lemma_complete_has_files(members, dc, tag, sets[k].disks);
    } else {
        let q = choose|q: u32| 1 <= q <= dc && !#[trigger] crate::ranking::covers(members, tag, q);
        assert(d.contains(q));
    }
}

/// The tag of a lineage: the empty one where it has no name.
pub open spec fn lineage_tag(p: PlayableFields) -> Seq<char> {
    match p.lineage {
        Some(t) => t,
        None => Seq::empty(),
    }
}

/// The coverage row that a playable set of a release is made from.
proof fn lemma_row_of(
    edition_id: i64,
    rows: crate::service::primaries::RowsFields,
    sets: Seq<PlayableFields>,
    k: int,
) -> (cov: Seq<LineageCoverage>)
    requires
        is_playable_list(edition_id, rows, sets),
        0 <= k < sets.len(),
    ensures
        cov.len() == sets.len(),
        crate::ranking::is_coverage(
            crate::service::sets::set_members(rows),
            crate::service::sets::set_disk_count(rows),
            cov,
        ),
        crate::ranking::row_tag(cov[k]) == lineage_tag(sets[k]),
        is_playable(
            edition_id,
            crate::service::sets::set_members(rows),
            crate::service::sets::set_disk_count(rows),
            cov[k],
            sets[k],
        ),
{
    let members = crate::service::sets::set_members(rows);
    let dc = crate::service::sets::set_disk_count(rows);
    let cov = choose|cov: Seq<LineageCoverage>| #[trigger]
        crate::ranking::is_coverage(members, dc, cov) && are_playable(
            edition_id,
            members,
            dc,
            cov,
            sets,
        );
    assert(is_playable(edition_id, members, dc, cov[k], sets[k]));
    cov
}

/// A trainer is found from a position on exactly where a member at or after it that counts
/// for the lineage carries one, and it is that of the first such.
proof fn lemma_first_trainer(
    members: Seq<crate::ranking::MemberFields>,
    lineage: Seq<char>,
    from: int,
)
    requires
        0 <= from <= members.len(),
    ensures
        match first_trainer(members, lineage, from) {
            None => forall|i: int|
                from <= i < members.len() && crate::ranking::belongs(#[trigger] members[i], lineage)
                    ==> members[i].info.trainer is None,
            Some(t) => exists|i: int|
                from <= i < members.len() && crate::ranking::belongs(#[trigger] members[i], lineage)
                    && members[i].info.trainer == Some(t) && forall|j: int|
                    from <= j < i && crate::ranking::belongs(#[trigger] members[j], lineage)
                        ==> members[j].info.trainer is None,
        },
    decreases members.len() - from,
{
    if from < members.len() {
        lemma_first_trainer(members, lineage, from + 1);
        if lineage.len() == 0 {
            assert(lineage =~= Seq::<char>::empty());
        }
        let here = members[from];
        assert(crate::ranking::of_lineage(members, lineage, from) <==> crate::ranking::belongs(
            here,
            lineage,
        ));
        if crate::ranking::of_lineage(members, lineage, from) && here.info.trainer is Some {
            assert(crate::ranking::belongs(members[from], lineage));
        } else if let Some(t) = first_trainer(members, lineage, from + 1) {
            let i = choose|i: int|
                from + 1 <= i < members.len() && crate::ranking::belongs(
                    #[trigger] members[i],
                    lineage,
                ) && members[i].info.trainer == Some(t) && forall|j: int|
                    from + 1 <= j < i && crate::ranking::belongs(#[trigger] members[j], lineage)
                        ==> members[j].info.trainer is None;
            assert(crate::ranking::belongs(members[i], lineage));
        }
    }
}

/// The trainer of a playable set is absent exactly where no member that counts for its lineage
/// carries a trainer; where one does, it is that of the first member that does.
pub proof fn trainer_is_the_first_carried(
    edition_id: i64,
    rows: crate::service::primaries::RowsFields,
    sets: Seq<PlayableFields>,
    k: int,
)
    requires
        is_playable_list(edition_id, rows, sets),
        0 <= k < sets.len(),
    ensures
        sets[k].trainer is None <==> forall|i: int|
            0 <= i < crate::service::sets::set_members(rows).len() && crate::ranking::belongs(
                #[trigger] crate::service::sets::set_members(rows)[i],
                lineage_tag(sets[k]),
            ) ==> crate::service::sets::set_members(rows)[i].info.trainer is None,
        sets[k].trainer matches Some(t) ==> exists|i: int|
            0 <= i < crate::service::sets::set_members(rows).len() && crate::ranking::belongs(
                #[trigger] crate::service::sets::set_members(rows)[i],
                lineage_tag(sets[k]),
            ) && crate::service::sets::set_members(rows)[i].info.trainer == Some(t) && forall|
                j: int,
            |
                0 <= j < i && crate::ranking::belongs(
                    #[trigger] crate::service::sets::set_members(rows)[j],
                    lineage_tag(sets[k]),
                ) ==> crate::service::sets::set_members(rows)[j].info.trainer is None,
{
    let cov = lemma_row_of(edition_id, rows, sets, k);
    lemma_first_trainer(crate::service::sets::set_members(rows), lineage_tag(sets[k]), 0);
}

/// A playable set misses a disk exactly where the disk is from 1 to the disk count and no
/// member that counts for the lineage is that disk; the missing disks come in order. It is the
/// set's Edition that it was asked for, and its kind is the class of its lineage.
pub proof fn missing_disks_are_exact(
    edition_id: i64,
    rows: crate::service::primaries::RowsFields,
    sets: Seq<PlayableFields>,
    k: int,
)
    requires
        is_playable_list(edition_id, rows, sets),
        0 <= k < sets.len(),
    ensures
        forall|d: u32| #[trigger]
            sets[k].missing_disks.contains(d) <==> 1 <= d <= crate::service::sets::set_disk_count(
                rows,
            ) && !exists|i: int|
                0 <= i < crate::service::sets::set_members(rows).len() && crate::ranking::belongs(
                    #[trigger] crate::service::sets::set_members(rows)[i],
                    lineage_tag(sets[k]),
                ) && crate::service::sets::set_members(rows)[i].disk_no == d,
        forall|p: int, q: int|
            0 <= p < q < sets[k].missing_disks.len() ==> sets[k].missing_disks[p]
                < sets[k].missing_disks[q],
        sets[k].rep_edition_id == edition_id,
        sets[k].kind == crate::service::sets::class_of(
            crate::service::sets::set_members(rows),
            lineage_tag(sets[k]),
        ),
{
    let cov = lemma_row_of(edition_id, rows, sets, k);
    let m = crate::service::sets::set_members(rows);
    let tag = lineage_tag(sets[k]);
    assert forall|d: u32| #[trigger] sets[k].missing_disks.contains(d) <==> 1 <= d
        <= crate::service::sets::set_disk_count(rows) && !exists|i: int|
        0 <= i < m.len() && crate::ranking::belongs(#[trigger] m[i], tag) && m[i].disk_no == d by {
        crate::ranking::coverage_is_by_members(m, tag, d);
    }
}

/// A release has one playable set for each lineage that a sound member has, and no other.
pub proof fn one_playable_set_per_lineage(
    edition_id: i64,
    rows: crate::service::primaries::RowsFields,
    sets: Seq<PlayableFields>,
    k: int,
)
    requires
        is_playable_list(edition_id, rows, sets),
        0 <= k < sets.len(),
    ensures
        exists|i: int|
            0 <= i < crate::service::sets::set_members(rows).len() && crate::ranking::belongs(
                #[trigger] crate::service::sets::set_members(rows)[i],
                lineage_tag(sets[k]),
            ),
        sets[k].lineage matches Some(t) ==> t.len() > 0,
        forall|l: int|
            0 <= l < sets.len() && l != k ==> lineage_tag(#[trigger] sets[l]) != lineage_tag(sets[k]),
        forall|i: int|
            0 <= i < crate::service::sets::set_members(rows).len() && !(
            #[trigger] crate::service::sets::set_members(rows)[i]).info.disqualified() ==> exists|
                l: int,
            |
                0 <= l < sets.len() && lineage_tag(#[trigger] sets[l]) == crate::ranking::tag_of(
                    crate::service::sets::set_members(rows)[i],
                ),
{
    let cov = lemma_row_of(edition_id, rows, sets, k);
    let m = crate::service::sets::set_members(rows);
    let dc = crate::service::sets::set_disk_count(rows);
    let tag = lineage_tag(sets[k]);
    assert(crate::ranking::is_coverage_row(m, dc, cov[k]));
    crate::ranking::coverage_is_by_members(m, tag, 1);
    let all = choose|all: Seq<LineageCoverage>| #[trigger]
        crate::ranking::is_coverage(m, dc, all) && are_playable(edition_id, m, dc, all, sets);
    assert(forall|l: int|
        0 <= l < sets.len() ==> crate::ranking::row_tag(all[l]) == lineage_tag(#[trigger] sets[l]))
        by {
        assert forall|l: int| 0 <= l < sets.len() implies crate::ranking::row_tag(all[l])
            == lineage_tag(#[trigger] sets[l]) by {
            assert(is_playable(edition_id, m, dc, all[l], sets[l]));
        }
    }
    crate::ranking::coverage_rows_are_exact(m, dc, all, k);
    assert forall|l: int| 0 <= l < sets.len() && l != k implies lineage_tag(#[trigger] sets[l])
        != tag by {
        assert(crate::ranking::row_tag(all[l]) != crate::ranking::row_tag(all[k]));
    }
    assert forall|i: int|
        0 <= i < m.len() && !(#[trigger] m[i]).info.disqualified() implies exists|l: int|
        0 <= l < sets.len() && lineage_tag(#[trigger] sets[l]) == crate::ranking::tag_of(m[i]) by {
        assert(crate::ranking::has_row(all, crate::ranking::tag_of(m[i])));
        let l = choose|l: int|
            0 <= l < all.len() && crate::ranking::row_tag(#[trigger] all[l])
                == crate::ranking::tag_of(m[i]);
        assert(lineage_tag(sets[l]) == crate::ranking::tag_of(m[i]));
    }
}

/// The boot disk of files is the lowest disk among them; there is none exactly where there are
/// no files.
pub proof fn boot_disk_is_the_lowest(files: Seq<(u32, Seq<char>)>)
    ensures
        boot_disk_of(files) is None <==> files.len() == 0,
        boot_disk_of(files) matches Some(d) ==> (exists|k: int|
            0 <= k < files.len() && (#[trigger] files[k]).0 == d) && forall|k: int|
            0 <= k < files.len() ==> d <= (#[trigger] files[k]).0,
    decreases files.len(),
{
    if files.len() > 0 {
        let init = files.drop_last();
        let n = init.len() as int;
        boot_disk_is_the_lowest(init);
        assert(forall|k: int| 0 <= k < n ==> #[trigger] files[k] == init[k]);
        if let Some(m) = boot_disk_of(init) {
            let k = choose|k: int| 0 <= k < n && (#[trigger] init[k]).0 == m;
            assert(files[k].0 == m);
        }
        assert(files[n].0 == files.last().0);
    }
}

/// The UID on a disk is that of the first file of the disk.
pub proof fn uid_on_disk_is_the_first(files: Seq<(u32, Seq<char>)>, k: int)
    requires
        0 <= k < files.len(),
        forall|j: int| 0 <= j < k ==> (#[trigger] files[j]).0 != files[k].0,
    ensures
        uid_on_disk(files, files[k].0) == Some(files[k].1),
    decreases k,
{
    if k > 0 {
        assert(files[0].0 != files[k].0);
        let rest = files.skip(1);
        assert(rest[k - 1] == files[k]);
        assert forall|j: int| 0 <= j < k - 1 implies (#[trigger] rest[j]).0 != rest[k - 1].0 by {
            assert(rest[j] == files[j + 1]);
        }
        uid_on_disk_is_the_first(rest, k - 1);
    }
}

/// Whether a member that counts for a lineage is a given disk.
pub open spec fn counts_on(
    members: Seq<crate::ranking::MemberFields>,
    lineage: Seq<char>,
    disk: u32,
    i: int,
) -> bool {
    0 <= i < members.len() && crate::ranking::belongs(members[i], lineage) && members[i].disk_no
        == disk
}

/// The choices that trainer options are made from.
proof fn lemma_choices(
    members: Seq<crate::ranking::MemberFields>,
    lineage: Seq<char>,
    files: Seq<(u32, Seq<char>)>,
    options: Seq<OptionFields>,
    disk: u32,
) -> (choice: Seq<usize>)
    requires
        are_trainer_options(members, lineage, files, options),
        boot_disk_of(files) == Some(disk),
    ensures
        are_trainer_choices(members, lineage, disk, choice),
        options == options_of(members, choice, uid_on_disk(files, disk)),
        forall|i: int|
            counts_on(members, lineage, disk, i) == #[trigger] on_disk(members, lineage, disk, i),
        forall|k: int|
            0 <= k < choice.len() ==> counts_on(
                members,
                lineage,
                disk,
                (#[trigger] choice[k]) as int,
            ),
{
    let choice = choose|choice: Seq<usize>| #[trigger]
        are_trainer_choices(members, lineage, disk, choice) && options == options_of(
            members,
            choice,
            uid_on_disk(files, disk),
        );
    if lineage.len() == 0 {
        assert(lineage =~= Seq::<char>::empty());
    }
    assert forall|i: int|
        counts_on(members, lineage, disk, i) == #[trigger] on_disk(members, lineage, disk, i) by {}
    assert forall|k: int| 0 <= k < choice.len() implies counts_on(
        members,
        lineage,
        disk,
        (#[trigger] choice[k]) as int,
    ) by {
        assert(is_trainer_choice(members, lineage, disk, choice[k] as int));
    }
    choice
}

/// Trainer options are offered exactly where the members that count for the lineage on the
/// boot disk differ in their trainer, and where they are, every such trainer, absence
/// included, is offered.
pub proof fn differing_trainers_are_offered(
    members: Seq<crate::ranking::MemberFields>,
    lineage: Seq<char>,
    files: Seq<(u32, Seq<char>)>,
    options: Seq<OptionFields>,
    disk: u32,
)
    requires
        are_trainer_options(members, lineage, files, options),
        boot_disk_of(files) == Some(disk),
    ensures
        options.len() == 0 <==> forall|i: int, j: int|
            #![trigger counts_on(members, lineage, disk, i), counts_on(members, lineage, disk, j)]
            counts_on(members, lineage, disk, i) && counts_on(members, lineage, disk, j)
                ==> members[i].info.trainer == members[j].info.trainer,
        options.len() > 0 ==> forall|i: int| #[trigger]
            counts_on(members, lineage, disk, i) ==> exists|k: int|
                0 <= k < options.len() && (#[trigger] options[k]).trainer
                    == members[i].info.trainer,
{
    let choice = lemma_choices(members, lineage, files, options, disk);
    if choice.len() >= 2 {
        let a = choice[0] as int;
        let b = choice[1] as int;
        assert(crate::text::opt_text_lt(members[a].info.trainer, members[b].info.trainer));
        crate::order::lemma_opt_text_order(
            members[a].info.trainer,
            members[b].info.trainer,
            members[a].info.trainer,
        );
        assert(counts_on(members, lineage, disk, a) && counts_on(members, lineage, disk, b));
        assert forall|i: int| #[trigger] counts_on(members, lineage, disk, i) implies exists|k: int|
            0 <= k < options.len() && (#[trigger] options[k]).trainer == members[i].info.trainer by {
            assert(on_disk(members, lineage, disk, i));
            assert(chooses_trainer(members, choice, members[i].info.trainer));
            let k = choose|k: int|
                0 <= k < choice.len() && members[(#[trigger] choice[k]) as int].info.trainer
                    == members[i].info.trainer;
            assert(options[k].trainer == members[i].info.trainer);
        }
    } else {
        assert forall|i: int, j: int|
            #![trigger counts_on(members, lineage, disk, i), counts_on(members, lineage, disk, j)]
            counts_on(members, lineage, disk, i) && counts_on(
                members,
                lineage,
                disk,
                j,
            ) implies members[i].info.trainer == members[j].info.trainer by {
            assert(on_disk(members, lineage, disk, i) && on_disk(members, lineage, disk, j));
            assert(chooses_trainer(members, choice, members[i].info.trainer));
            assert(chooses_trainer(members, choice, members[j].info.trainer));
        }
    }
}

/// A trainer option is a member that counts for the lineage on the boot disk, with that
/// member's UID and trainer, and at least as good as every other with the trainer. It is the
/// default exactly where its UID is the one on the boot disk.
pub proof fn trainer_option_is_the_best(
    members: Seq<crate::ranking::MemberFields>,
    lineage: Seq<char>,
    files: Seq<(u32, Seq<char>)>,
    options: Seq<OptionFields>,
    disk: u32,
    k: int,
)
    requires
        are_trainer_options(members, lineage, files, options),
        boot_disk_of(files) == Some(disk),
        0 <= k < options.len(),
    ensures
        exists|i: int| #[trigger]
            counts_on(members, lineage, disk, i) && options[k].uid == members[i].tiebreak
                && options[k].trainer == members[i].info.trainer && forall|j: int| #[trigger]
                counts_on(members, lineage, disk, j) && members[j].info.trainer
                    == members[i].info.trainer ==> crate::ranking::at_least_as_good(
                    members[i].info,
                    members[i].tiebreak,
                    members[j].info,
                    members[j].tiebreak,
                ),
        options[k].is_default <==> uid_on_disk(files, disk) == Some(options[k].uid),
{
    let choice = lemma_choices(members, lineage, files, options, disk);
    let i = choice[k] as int;
    assert(is_trainer_choice(members, lineage, disk, choice[k] as int));
    assert(counts_on(members, lineage, disk, i));
    assert forall|j: int| #[trigger]
        counts_on(members, lineage, disk, j) && members[j].info.trainer
            == members[i].info.trainer implies crate::ranking::at_least_as_good(
        members[i].info,
        members[i].tiebreak,
        members[j].info,
        members[j].tiebreak,
    ) by {
        assert(on_disk(members, lineage, disk, j));
        assert(!crate::ranking::member_better(members, j, i));
    }
}

/// Trainer options come in the order of their trainers, each once, absence first.
pub proof fn trainer_options_are_ordered(
    members: Seq<crate::ranking::MemberFields>,
    lineage: Seq<char>,
    files: Seq<(u32, Seq<char>)>,
    options: Seq<OptionFields>,
    disk: u32,
    k: int,
    l: int,
)
    requires
        are_trainer_options(members, lineage, files, options),
        boot_disk_of(files) == Some(disk),
        0 <= k < l < options.len(),
    ensures
        options[l].trainer is Some,
        options[k].trainer matches Some(t) ==> crate::text::text_lt(t, options[l].trainer->0),
{
    let choice = lemma_choices(members, lineage, files, options, disk);
    assert(crate::text::opt_text_lt(
        members[choice[k] as int].info.trainer,
        members[choice[l] as int].info.trainer,
    ));
}

/// A complete playable set holds, for each disk that a member counting for its lineage is, the
/// UID of such a member that is at least as good; one that is not complete holds nothing.
pub proof fn complete_variation_holds_the_best_files(
    edition_id: i64,
    rows: crate::service::primaries::RowsFields,
    sets: Seq<PlayableFields>,
    k: int,
    j: int,
)
    requires
        is_playable_list(edition_id, rows, sets),
        0 <= k < sets.len(),
        0 <= j < crate::service::sets::set_members(rows).len(),
        crate::ranking::belongs(
            crate::service::sets::set_members(rows)[j],
            lineage_tag(sets[k]),
        ),
    ensures
        !sets[k].complete ==> sets[k].disks.len() == 0,
        sets[k].complete ==> ({
            let m = crate::service::sets::set_members(rows);
            exists|f: int, i: int|
                #![trigger sets[k].disks[f], m[i]]
                0 <= f < sets[k].disks.len() && 0 <= i < m.len() && sets[k].disks[f] == (
                    m[j].disk_no,
                    m[i].tiebreak,
                ) && m[i].disk_no == m[j].disk_no && crate::ranking::belongs(
                    m[i],
                    lineage_tag(sets[k]),
                ) && crate::ranking::at_least_as_good(
                    m[i].info,
                    m[i].tiebreak,
                    m[j].info,
                    m[j].tiebreak,
                )
        }),
        sets[k].complete ==> are_trainer_options(
            crate::service::sets::set_members(rows),
            lineage_tag(sets[k]),
            sets[k].disks,
            sets[k].trainer_options,
        ),
{
    let cov = lemma_row_of(edition_id, rows, sets, k);
    if sets[k].complete {
        crate::service::sets::resolved_files_are_the_best(
            crate::service::sets::set_members(rows),
            lineage_tag(sets[k]),
            sets[k].disks,
            j,
        );
    }
}

} // verus!
