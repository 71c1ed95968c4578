//! Which artifact is each Edition's primary.
//!
//! Baseline: each Edition (one disk) gets its own best primary. For multi-disk
//! sets, a single coherent crack-lineage is then chosen across all disks and
//! overrides the baseline for the disks it covers.

use vstd::prelude::*;

use crate::edition::DumpInfo;
use crate::ranking::{
    primary_set_for_lineage, select_primary, select_primary_lineage, DiskMember,
};
use crate::text::{clone_opt, owned};

verus! {

/// An Edition of a set with its variants: their UIDs and what is stored of their
/// dumps.
#[derive(Debug, Clone)]
pub struct Sibling {
    pub edition_id: i64,
    pub disk_no: Option<u32>,
    pub variants: Vec<(String, DumpInfo)>,
}

/// What a [`Sibling`] holds.
#[verifier::ext_equal]
pub struct SiblingFields {
    pub edition_id: i64,
    pub disk_no: Option<u32>,
    pub variants: Seq<(Seq<char>, crate::edition::DumpFields)>,
}

impl View for Sibling {
    type V = SiblingFields;

    open spec fn view(&self) -> SiblingFields {
        SiblingFields {
            edition_id: self.edition_id,
            disk_no: self.disk_no,
            variants: self.variants@.map_values(|v: (String, DumpInfo)| (v.0@, v.1@)),
        }
    }
}

/// The Editions of a set, and how many disks the release says it has.
#[derive(Debug, Clone)]
pub struct SetRows {
    pub disk_count: Option<u32>,
    pub siblings: Vec<Sibling>,
}

/// What a [`SetRows`] holds.
#[verifier::ext_equal]
pub struct RowsFields {
    pub disk_count: Option<u32>,
    pub siblings: Seq<SiblingFields>,
}

impl View for SetRows {
    type V = RowsFields;

    open spec fn view(&self) -> RowsFields {
        RowsFields {
            disk_count: self.disk_count,
            siblings: self.siblings@.map_values(|s: Sibling| s@),
        }
    }
}

/// The disk of an Edition, or `default` where it has no disk number.
pub open spec fn disk_of(s: SiblingFields, default: u32) -> u32 {
    match s.disk_no {
        Some(d) => d,
        None => default,
    }
}

/// The members that an Edition contributes to its set: its variants, in order.
pub open spec fn members_of(s: SiblingFields, default: u32) -> Seq<crate::ranking::MemberFields> {
    Seq::new(
        s.variants.len(),
        |i: int|
            crate::ranking::MemberFields {
                disk_no: disk_of(s, default),
                lineage: s.variants[i].1.lineage,
                info: s.variants[i].1,
                tiebreak: s.variants[i].0,
            },
    )
}

/// The members of a set, Edition by Edition.
pub open spec fn gathered(siblings: Seq<SiblingFields>, default: u32) -> Seq<
    crate::ranking::MemberFields,
>
    decreases siblings.len(),
{
    if siblings.len() == 0 {
        Seq::empty()
    } else {
        gathered(siblings.drop_last(), default) + members_of(siblings.last(), default)
    }
}

/// The Edition that each member of a set belongs to.
pub open spec fn owners(siblings: Seq<SiblingFields>) -> Seq<i64>
    decreases siblings.len(),
{
    if siblings.len() == 0 {
        Seq::empty()
    } else {
        owners(siblings.drop_last()) + Seq::new(
            siblings.last().variants.len(),
            |i: int| siblings.last().edition_id,
        )
    }
}

/// Gather every disk member of a set, with the Edition that each belongs to. A member
/// without a disk number counts as disk `default`.
pub fn gather_members(siblings: &[Sibling], default: u32) -> (r: (Vec<DiskMember>, Vec<i64>))
    ensures
        crate::ranking::member_views(r.0@) == gathered(
            siblings@.map_values(|s: Sibling| s@),
            default,
        ),
        r.1@ == owners(siblings@.map_values(|s: Sibling| s@)),
        r.0@.len() == r.1@.len(),
{
    let ghost sv = siblings@.map_values(|s: Sibling| s@);
    let mut members: Vec<DiskMember> = Vec::new();
    let mut owned_by: Vec<i64> = Vec::new();
    let mut n: usize = 0;
    assert(sv.take(0) =~= Seq::empty());
    assert(crate::ranking::member_views(members@) =~= Seq::empty());
    assert(owned_by@ =~= Seq::empty());
    while n < siblings.len()
        invariant
            n <= siblings@.len(),
            sv == siblings@.map_values(|s: Sibling| s@),
            crate::ranking::member_views(members@) == gathered(sv.take(n as int), default),
            owned_by@ == owners(sv.take(n as int)),
            members@.len() == owned_by@.len(),
        decreases siblings@.len() - n,
    {
        let s = &siblings[n];
        let ghost had = members@;
        let ghost had_owners = owned_by@;
        assert(sv[n as int] == s@);
        let disk_no = match s.disk_no {
            Some(d) => d,
            None => default,
        };
        let ghost mine = members_of(s@, default);
        let ghost ids = Seq::new(s@.variants.len(), |i: int| s@.edition_id);
        let mut i: usize = 0;
        assert(crate::ranking::member_views(members@) =~= crate::ranking::member_views(had)
            + mine.take(0));
        assert(owned_by@ =~= had_owners + ids.take(0));
        while i < s.variants.len()
            invariant
                i <= s.variants@.len(),
                disk_no == disk_of(s@, default),
                mine == members_of(s@, default),
                ids == Seq::new(s@.variants.len(), |i: int| s@.edition_id),
                crate::ranking::member_views(members@) == crate::ranking::member_views(had)
                    + mine.take(i as int),
                owned_by@ == had_owners + ids.take(i as int),
                had.len() == had_owners.len(),
                members@.len() == owned_by@.len(),
            decreases s.variants@.len() - i,
        {
            let ghost before = members@;
            let ghost before_owners = owned_by@;
            let v = &s.variants[i];
            let m = DiskMember {
                disk_no,
                lineage: clone_opt(&v.1.lineage),
                info: v.1.copy(),
                tiebreak: owned(&v.0),
            };
            members.push(m);
            owned_by.push(s.edition_id);
            proof {
                assert(s@.variants[i as int] == (v.0@, v.1@));
                assert(m@ =~= mine[i as int]);
                assert(crate::ranking::member_views(members@)
                    =~= crate::ranking::member_views(before).push(m@));
                assert(mine.take(i + 1) =~= mine.take(i as int).push(mine[i as int]));
                assert(crate::ranking::member_views(members@)
                    =~= crate::ranking::member_views(had) + mine.take(i + 1));
                assert(owned_by@ =~= had_owners + ids.take(i + 1));
            }
            i += 1;
        }
        proof {
            assert(mine.take(i as int) =~= mine);
            assert(ids.take(i as int) =~= ids);
            assert(sv.take(n + 1).drop_last() =~= sv.take(n as int));
            assert(sv.take(n + 1).last() == s@);
        }
        n += 1;
    }
    assert(sv.take(n as int) =~= sv);
    (members, owned_by)
}

/// A primary to set: the Edition, and the UID of its primary, if it has one.
#[derive(Debug, Clone, PartialEq, Eq)]
pub struct Assignment {
    pub edition_id: i64,
    pub primary: Option<String>,
}

/// What an [`Assignment`] holds.
#[verifier::ext_equal]
pub struct AssignFields {
    pub edition_id: i64,
    pub primary: Option<Seq<char>>,
}

impl View for Assignment {
    type V = AssignFields;

    open spec fn view(&self) -> AssignFields {
        AssignFields { edition_id: self.edition_id, primary: crate::text::opt_view(self.primary) }
    }
}

/// What assignments hold.
pub open spec fn assign_views(a: Seq<Assignment>) -> Seq<AssignFields> {
    a.map_values(|x: Assignment| x@)
}

/// The variants of an Edition as dumps with their tie-break keys.
pub open spec fn ranked(s: SiblingFields) -> Seq<(crate::edition::DumpFields, Seq<char>)> {
    Seq::new(s.variants.len(), |i: int| (s.variants[i].1, s.variants[i].0))
}

/// Whether this is an Edition's own best primary.
pub open spec fn is_baseline(s: SiblingFields, primary: Option<Seq<char>>) -> bool {
    exists|c: Option<usize>| #[trigger]
        crate::ranking::is_choice(ranked(s), c) && primary == match c {
            Some(i) => Some(s.variants[i as int].0),
            None => None,
        }
}

/// An Edition's own best primary.
fn baseline(s: &Sibling) -> (r: Option<String>)
    ensures
        is_baseline(s@, crate::text::opt_view(r)),
{
    let mut variants: Vec<(DumpInfo, String)> = Vec::new();
    let mut i: usize = 0;
    while i < s.variants.len()
        invariant
            i <= s.variants@.len(),
            crate::ranking::variant_views(variants@) == ranked(s@).take(i as int),
            variants@.len() == i,
        decreases s.variants@.len() - i,
    {
        let v = &s.variants[i];
        let ghost had = variants@;
        assert(s@.variants[i as int] == (v.0@, v.1@));
        let w = (v.1.copy(), owned(&v.0));
        variants.push(w);
        i += 1;
        assert(crate::ranking::variant_views(variants@) =~= ranked(s@).take(i as int));
    }
    assert(ranked(s@).take(i as int) =~= ranked(s@));
    let c = select_primary(&variants);
    assert(crate::ranking::is_choice(ranked(s@), c));
    match c {
        Some(i) => Some(owned(&s.variants[i].0)),
        None => None,
    }
}

/// Whether these are the primaries that one lineage gives: for each disk it covers,
/// the member to take for that disk.
pub open spec fn is_lineage_plan(
    rows: RowsFields,
    tag: Seq<char>,
    set: Seq<usize>,
    plan: Seq<AssignFields>,
) -> bool {
    let m = gathered(rows.siblings, 0);
    &&& crate::ranking::is_primary_set(m, tag, set)
    &&& plan.len() == set.len()
    &&& forall|k: int|
        0 <= k < plan.len() ==> #[trigger] plan[k] == (AssignFields {
            edition_id: owners(rows.siblings)[set[k] as int],
            primary: Some(m[set[k] as int].tiebreak),
        })
}

/// Whether one lineage is to be chosen across all disks: the release says that it has
/// several disks, and a member qualifies.
pub open spec fn wants_lineage(rows: RowsFields) -> bool {
    &&& rows.disk_count is Some
    &&& rows.disk_count->0 > 1
    &&& exists|tag: Seq<char>| crate::ranking::has_lineage(gathered(rows.siblings, 0), tag)
}

/// Whether these are the primaries that override the baseline.
pub open spec fn is_override(rows: RowsFields, plan: Seq<AssignFields>) -> bool {
    if wants_lineage(rows) {
        exists|tag: Seq<char>, set: Seq<usize>|
            #![trigger is_lineage_plan(rows, tag, set, plan)]
            crate::ranking::is_primary_lineage(
                gathered(rows.siblings, 0),
                rows.disk_count->0,
                tag,
            ) && is_lineage_plan(rows, tag, set, plan)
    } else {
        plan.len() == 0
    }
}

/// Whether these are the primaries to set, in order: each Edition's own best, then
/// those of one coherent lineage.
pub open spec fn is_primary_plan(rows: RowsFields, plan: Seq<AssignFields>) -> bool {
    let n = rows.siblings.len();
    &&& plan.len() >= n
    &&& forall|k: int|
        0 <= k < n ==> (#[trigger] plan[k]).edition_id == rows.siblings[k].edition_id
            && is_baseline(rows.siblings[k], plan[k].primary)
    &&& is_override(rows, plan.skip(n as int))
}

/// Recompute primaries for a whole set, using what is stored of its dumps (never
/// re-parsing filenames, so no variant is ever dropped). Non-destructive: only which
/// artifact is primary changes. The primaries are to be set in the order given.
pub fn recompute_set_primaries(rows: &SetRows) -> (plan: Vec<Assignment>)
    ensures
        is_primary_plan(rows@, assign_views(plan@)),
{
    let ghost rv = rows@;
    let ghost n0 = rv.siblings.len();
    let mut plan: Vec<Assignment> = Vec::new();
    let mut n: usize = 0;
    while n < rows.siblings.len()
        invariant
            n <= rows.siblings@.len(),
            rv == rows@,
            plan@.len() == n,
            forall|k: int|
                0 <= k < n ==> (#[trigger] plan@[k]).edition_id == rv.siblings[k].edition_id
                    && is_baseline(rv.siblings[k], plan@[k]@.primary),
        decreases rows.siblings@.len() - n,
    {
        let s = &rows.siblings[n];
        assert(rv.siblings[n as int] == s@);
        // Baseline per-Edition primary.
        plan.push(Assignment { edition_id: s.edition_id, primary: baseline(s) });
        n += 1;
    }
    let ghost base = assign_views(plan@);
    // Multi-disk coherence: pick one lineage spanning all disks and override.
    let over = lineage_override(rows);
    let mut i: usize = 0;
    let ghost ov = assign_views(over@);
    assert(assign_views(plan@) =~= base + ov.take(0));
    while i < over.len()
        invariant
            i <= over@.len(),
            ov == assign_views(over@),
            assign_views(plan@) == base + ov.take(i as int),
        decreases over@.len() - i,
    {
        let ghost had = plan@;
        let a = &over[i];
        let b = Assignment { edition_id: a.edition_id, primary: clone_opt(&a.primary) };
        plan.push(b);
        proof {
            assert(assign_views(plan@) =~= assign_views(had).push(b@));
            assert(ov.take(i + 1) =~= ov.take(i as int).push(ov[i as int]));
            assert(assign_views(plan@) =~= base + ov.take(i + 1));
        }
        i += 1;
    }
    proof {
        let all = assign_views(plan@);
        assert(ov.take(i as int) =~= ov);
        assert(all == base + ov);
        assert(all.skip(n0 as int) =~= ov);
        assert forall|k: int| 0 <= k < n0 implies (#[trigger] all[k]).edition_id
            == rv.siblings[k].edition_id && is_baseline(rv.siblings[k], all[k].primary) by {
            assert(all[k] == base[k]);
        }
    }
    plan
}

/// The primaries that override the baseline.
fn lineage_override(rows: &SetRows) -> (plan: Vec<Assignment>)
    ensures
        is_override(rows@, assign_views(plan@)),
{
    let ghost rv = rows@;
    let ghost gv = gathered(rv.siblings, 0);
    let mut plan: Vec<Assignment> = Vec::new();
    match rows.disk_count {
        None => plan,
        Some(dc) => {
            if dc <= 1 {
                return plan;
            }
            let (members, owned_by) = gather_members(&rows.siblings, 0);
            assert(crate::ranking::member_views(members@) == gv);
            match select_primary_lineage(&members, dc) {
                None => {
                    proof {
                        assert forall|tag: Seq<char>| !crate::ranking::has_lineage(gv, tag) by {
                            if crate::ranking::has_lineage(gv, tag) {
                                let i = choose|i: int| crate::ranking::of_lineage(gv, tag, i);
                                assert(gv[i] == members@[i]@);
                                assert(members@[i].info@.disqualified());
                            }
                        }
                    }
                    plan
                },
                Some(tag) => {
                    let set = primary_set_for_lineage(&members, &tag);
                    let mut k: usize = 0;
                    while k < set.len()
                        invariant
                            k <= set@.len(),
                            plan@.len() == k,
                            members@.len() == owned_by@.len(),
                            crate::ranking::member_views(members@) == gv,
                            owned_by@ == owners(rv.siblings),
                            crate::ranking::is_primary_set(gv, tag@, set@),
                            forall|q: int|
                                0 <= q < k ==> (#[trigger] plan@[q])@ == (AssignFields {
                                    edition_id: owned_by@[set@[q] as int],
                                    primary: Some(gv[set@[q] as int].tiebreak),
                                }),
                        decreases set@.len() - k,
                    {
                        let idx = set[k];
                        assert(crate::ranking::is_disk_choice(gv, tag@, set@[k as int] as int));
                        assert(crate::ranking::of_lineage(gv, tag@, idx as int));
                        assert(gv[idx as int] == members@[idx as int]@);
                        plan.push(
                            Assignment {
                                edition_id: owned_by[idx],
                                primary: Some(owned(&members[idx].tiebreak)),
                            },
                        );
                        k += 1;
                    }
                    proof {
                        assert(crate::ranking::has_lineage(gv, tag@));
                        assert(is_lineage_plan(rv, tag@, set@, assign_views(plan@)));
                    }
                    plan
                },
            }
        },
    }
}

// --- Laws -------------------------------------------------------------------

/// A member of a set comes from one of its Editions.
proof fn lemma_member_origin(siblings: Seq<SiblingFields>, default: u32, j: int) -> (r: (int, int))
    requires
        0 <= j < gathered(siblings, default).len(),
    ensures
        0 <= r.0 < siblings.len(),
        0 <= r.1 < siblings[r.0].variants.len(),
        gathered(siblings, default)[j] == members_of(siblings[r.0], default)[r.1],
        j < owners(siblings).len(),
        owners(siblings)[j] == siblings[r.0].edition_id,
    decreases siblings.len(),
{
    let init = siblings.drop_last();
    let head = gathered(init, default);
    lemma_gathered_len(init, default);
    if j < head.len() {
        let r = lemma_member_origin(init, default, j);
        r
    } else {
        (siblings.len() - 1, j - head.len())
    }
}

/// There is one owner for each member.
proof fn lemma_gathered_len(siblings: Seq<SiblingFields>, default: u32)
    ensures
        gathered(siblings, default).len() == owners(siblings).len(),
    decreases siblings.len(),
{
    if siblings.len() > 0 {
        lemma_gathered_len(siblings.drop_last(), default);
    }
}

/// Whether `uid` is a variant of the Edition `s` that qualifies.
pub open spec fn is_qualified_variant(s: SiblingFields, uid: Seq<char>) -> bool {
    exists|i: int|
        0 <= i < s.variants.len() && (#[trigger] s.variants[i]).0 == uid
            && !s.variants[i].1.disqualified()
}

/// Every primary is a variant of its own Edition, and is never a bad, infected,
/// over- or underdumped one.
pub proof fn primaries_qualify(rows: RowsFields, plan: Seq<AssignFields>, k: int) -> (q: int)
    requires
        is_primary_plan(rows, plan),
        0 <= k < plan.len(),
        plan[k].primary is Some,
    ensures
        0 <= q < rows.siblings.len(),
        rows.siblings[q].edition_id == plan[k].edition_id,
        is_qualified_variant(rows.siblings[q], plan[k].primary->0),
{
    let n = rows.siblings.len();
    if k < n {
        let s = rows.siblings[k];
        let c = choose|c: Option<usize>| #[trigger]
            crate::ranking::is_choice(ranked(s), c) && plan[k].primary == match c {
                Some(i) => Some(s.variants[i as int].0),
                None => None,
            };
        let i = c->0 as int;
        assert(crate::ranking::is_primary_of(ranked(s), i));
        assert(s.variants[i].0 == plan[k].primary->0);
        k
    } else {
        let over = plan.skip(n as int);
        let m = gathered(rows.siblings, 0);
        assert(over.len() > 0);
        let (tag, set) = choose|tag: Seq<char>, set: Seq<usize>|
            #![trigger is_lineage_plan(rows, tag, set, over)]
            crate::ranking::is_primary_lineage(m, rows.disk_count->0, tag) && is_lineage_plan(
                rows,
                tag,
                set,
                over,
            );
        assert(over[k - n] == plan[k]);
        let j = set[k - n] as int;
        assert(crate::ranking::is_disk_choice(m, tag, set[k - n] as int));
        assert(crate::ranking::of_lineage(m, tag, j));
        let r = lemma_member_origin(rows.siblings, 0, j);
        let s = rows.siblings[r.0];
        assert(s.variants[r.1].0 == plan[k].primary->0);
        r.0
    }
}

/// The last primary that is set for an Edition.
pub open spec fn final_primary(plan: Seq<AssignFields>, edition_id: i64) -> Option<Seq<char>>
    decreases plan.len(),
{
    if plan.len() == 0 {
        None
    } else if plan.last().edition_id == edition_id {
        plan.last().primary
    } else {
        final_primary(plan.drop_last(), edition_id)
    }
}

/// The last of several assignments to an Edition is its final primary.
proof fn lemma_final_primary(plan: Seq<AssignFields>, edition_id: i64, k: int)
    requires
        0 <= k < plan.len(),
        plan[k].edition_id == edition_id,
        forall|l: int| k < l < plan.len() ==> (#[trigger] plan[l]).edition_id != edition_id,
    ensures
        final_primary(plan, edition_id) == plan[k].primary,
    decreases plan.len(),
{
    if k < plan.len() - 1 {
        lemma_final_primary(plan.drop_last(), edition_id, k);
    }
}

/// The last assignment to an Edition that has one.
proof fn lemma_last_assignment(plan: Seq<AssignFields>, edition_id: i64, from: int) -> (k: int)
    requires
        0 <= from < plan.len(),
        plan[from].edition_id == edition_id,
    ensures
        from <= k < plan.len(),
        plan[k].edition_id == edition_id,
        forall|l: int| k < l < plan.len() ==> (#[trigger] plan[l]).edition_id != edition_id,
    decreases plan.len(),
{
    if plan.last().edition_id == edition_id {
        plan.len() - 1
    } else {
        let k = lemma_last_assignment(plan.drop_last(), edition_id, from);
        assert forall|l: int| k < l < plan.len() implies (#[trigger] plan[l]).edition_id
            != edition_id by {
            if l < plan.len() - 1 {
                assert(plan.drop_last()[l].edition_id != edition_id);
            }
        }
        k
    }
}

/// Whether the Editions of a set are different ones.
pub open spec fn editions_differ(siblings: Seq<SiblingFields>) -> bool {
    forall|a: int, b: int|
        0 <= a < b < siblings.len() ==> (#[trigger] siblings[a]).edition_id != (
        #[trigger] siblings[b]).edition_id
}

/// Every Edition ends with one primary, a variant of its own that qualifies, unless none
/// does: no Edition with a good dump is left without.
pub proof fn good_editions_have_a_primary(rows: RowsFields, plan: Seq<AssignFields>, q: int)
    requires
        is_primary_plan(rows, plan),
        editions_differ(rows.siblings),
        0 <= q < rows.siblings.len(),
    ensures
        match final_primary(plan, rows.siblings[q].edition_id) {
            Some(uid) => is_qualified_variant(rows.siblings[q], uid),
            None => forall|i: int|
                0 <= i < rows.siblings[q].variants.len() ==> (
                #[trigger] rows.siblings[q].variants[i]).1.disqualified(),
        },
{
    let n = rows.siblings.len() as int;
    let s = rows.siblings[q];
    let k = lemma_last_assignment(plan, s.edition_id, q);
    lemma_final_primary(plan, s.edition_id, k);
    if plan[k].primary is Some {
        let p = primaries_qualify(rows, plan, k);
        assert(p == q);
    } else {
        let over = plan.skip(n);
        if k >= n {
            assert(over[k - n] == plan[k]);
            let (tag, set) = choose|tag: Seq<char>, set: Seq<usize>|
                #![trigger is_lineage_plan(rows, tag, set, over)]
                crate::ranking::is_primary_lineage(
                    gathered(rows.siblings, 0),
                    rows.disk_count->0,
                    tag,
                ) && is_lineage_plan(rows, tag, set, over);
            assert(over[k - n].primary is Some);
        }
        assert(k == q);
        let c = choose|c: Option<usize>| #[trigger]
            crate::ranking::is_choice(ranked(s), c) && plan[k].primary == match c {
                Some(i) => Some(s.variants[i as int].0),
                None => None,
            };
        assert(c is None);
        assert forall|i: int| 0 <= i < s.variants.len() implies (
        #[trigger] s.variants[i]).1.disqualified() by {
            assert(ranked(s)[i].0.disqualified());
        }
    }
}

/// Whether the Editions of a set are as many different disks.
pub open spec fn one_edition_per_disk(siblings: Seq<SiblingFields>) -> bool {
    forall|a: int, b: int|
        0 <= a < b < siblings.len() ==> (#[trigger] siblings[a]).edition_id != (
        #[trigger] siblings[b]).edition_id && disk_of(siblings[a], 0) != disk_of(siblings[b], 0)
}

/// Whether `uid` is the choice of the lineage `tag` for the disk of the Edition `s`.
pub open spec fn is_lineage_primary(
    rows: RowsFields,
    tag: Seq<char>,
    s: SiblingFields,
    uid: Seq<char>,
) -> bool {
    let m = gathered(rows.siblings, 0);
    exists|j: int| #[trigger]
        crate::ranking::is_disk_choice(m, tag, j) && m[j].disk_no == disk_of(s, 0) && m[j].tiebreak
            == uid
}

/// Multi-disk coherence: every disk that the primary lineage covers ends with a
/// primary of that lineage, so the primaries of a set that it covers whole never mix
/// lineages.
pub proof fn covered_disks_share_a_lineage(
    rows: RowsFields,
    plan: Seq<AssignFields>,
    tag: Seq<char>,
    q: int,
)
    requires
        is_primary_plan(rows, plan),
        one_edition_per_disk(rows.siblings),
        wants_lineage(rows),
        crate::ranking::is_primary_lineage(gathered(rows.siblings, 0), rows.disk_count->0, tag),
        0 <= q < rows.siblings.len(),
        crate::ranking::covers(gathered(rows.siblings, 0), tag, disk_of(rows.siblings[q], 0)),
    ensures
        final_primary(plan, rows.siblings[q].edition_id) matches Some(uid) && is_lineage_primary(
            rows,
            tag,
            rows.siblings[q],
            uid,
        ),
{
    let n = rows.siblings.len();
    let m = gathered(rows.siblings, 0);
    let s = rows.siblings[q];
    let over = plan.skip(n as int);
    let (t, set) = choose|t: Seq<char>, set: Seq<usize>|
        #![trigger is_lineage_plan(rows, t, set, over)]
        crate::ranking::is_primary_lineage(m, rows.disk_count->0, t) && is_lineage_plan(
            rows,
            t,
            set,
            over,
        );
    crate::ranking::primary_lineage_is_unique(m, rows.disk_count->0, t, tag);
    assert(crate::ranking::chooses_disk(m, set, disk_of(s, 0)));
    let k = choose|k: int|
        0 <= k < set.len() && m[(#[trigger] set[k]) as int].disk_no == disk_of(s, 0);
    assert(crate::ranking::is_disk_choice(m, tag, set[k] as int));
    let r = lemma_member_origin(rows.siblings, 0, set[k] as int);
    assert(r.0 == q) by {
        if r.0 < q {
            assert(rows.siblings[r.0].edition_id != rows.siblings[q].edition_id);
        } else if q < r.0 {
            assert(rows.siblings[q].edition_id != rows.siblings[r.0].edition_id);
        }
    }
    assert(plan[n + k] == over[k]);
    assert(plan[n + k].edition_id == s.edition_id);
    assert forall|l: int| n + k < l < plan.len() implies (#[trigger] plan[l]).edition_id
        != s.edition_id by {
        let j = l - n;
        assert(plan[l] == over[j]);
        assert(crate::ranking::is_disk_choice(m, tag, set[j] as int));
        assert(m[set[k] as int].disk_no < m[set[j] as int].disk_no);
        let o = lemma_member_origin(rows.siblings, 0, set[j] as int);
        if o.0 < q {
            assert(rows.siblings[o.0].edition_id != rows.siblings[q].edition_id);
        } else if q < o.0 {
            assert(rows.siblings[q].edition_id != rows.siblings[o.0].edition_id);
        }
    }
    lemma_final_primary(plan, s.edition_id, n + k);
    assert(is_lineage_primary(rows, tag, s, m[set[k] as int].tiebreak));
}

/// The variants of releases are gathered sibling by sibling, in order. Each becomes a member
/// with its own lineage, dump facts and UID, on its sibling's disk, or on the default one
/// where the sibling has no disk number; and its owner is its sibling's Edition.
pub proof fn gathering_is_itemwise(
    a: Seq<SiblingFields>,
    b: Seq<SiblingFields>,
    s: SiblingFields,
    default: u32,
)
    ensures
        gathered(a + b, default) == gathered(a, default) + gathered(b, default),
        owners(a + b) == owners(a) + owners(b),
        gathered(seq![s], default).len() == s.variants.len(),
        owners(seq![s]).len() == s.variants.len(),
        forall|i: int|
            0 <= i < s.variants.len() ==> ({
                let m = #[trigger] gathered(seq![s], default)[i];
                &&& s.disk_no matches Some(d) ==> m.disk_no == d
                &&& s.disk_no is None ==> m.disk_no == default
                &&& m.lineage == s.variants[i].1.lineage
                &&& m.info == s.variants[i].1
                &&& m.tiebreak == s.variants[i].0
            }),
        forall|i: int|
            0 <= i < s.variants.len() ==> #[trigger] owners(seq![s])[i] == s.edition_id,
    decreases b.len(),
{
    let one = seq![s];
    assert(one.drop_last() =~= Seq::<SiblingFields>::empty());
    reveal_with_fuel(gathered, 2);
    reveal_with_fuel(owners, 2);
    assert(gathered(one, default) =~= members_of(s, default));
    if b.len() == 0 {
        assert(a + b =~= a);
        assert(gathered(a, default) + gathered(b, default) =~= gathered(a, default));
        assert(owners(a) + owners(b) =~= owners(a));
    } else {
        gathering_is_itemwise(a, b.drop_last(), s, default);
        assert((a + b).drop_last() =~= a + b.drop_last());
        assert((a + b).last() == b.last());
        assert(gathered(a + b, default) =~= gathered(a, default) + gathered(b, default));
        assert(owners(a + b) =~= owners(a) + owners(b));
    }
}

/// The baseline primary of an Edition is the UID of a sound variant that is at least as good
/// as every sound variant of it; there is none exactly where no variant is sound.
pub proof fn baseline_is_the_best_variant(s: SiblingFields, primary: Option<Seq<char>>)
    requires
        is_baseline(s, primary),
    ensures
        primary is None <==> forall|j: int|
            0 <= j < s.variants.len() ==> !crate::ranking::sound((#[trigger] s.variants[j]).1),
        primary matches Some(uid) ==> exists|i: int|
            0 <= i < s.variants.len() && (#[trigger] s.variants[i]).0 == uid
                && crate::ranking::sound(s.variants[i].1) && forall|j: int|
                0 <= j < s.variants.len() && crate::ranking::sound((#[trigger] s.variants[j]).1)
                    ==> crate::ranking::at_least_as_good(
                    s.variants[i].1,
                    s.variants[i].0,
                    s.variants[j].1,
                    s.variants[j].0,
                ),
{
    let v = ranked(s);
    let c = choose|c: Option<usize>| #[trigger]
        crate::ranking::is_choice(v, c) && primary == match c {
            Some(i) => Some(s.variants[i as int].0),
            None => None,
        };
    crate::ranking::primary_needs_a_sound_variant(v, c);
    match c {
        None => {
            assert forall|j: int| 0 <= j < s.variants.len() implies !crate::ranking::sound(
                (#[trigger] s.variants[j]).1,
            ) by {
                assert(v[j].0 == s.variants[j].1);
            }
        },
        Some(i) => {
            let i = i as int;
            crate::ranking::primary_is_the_best(v, i, i);
            assert forall|j: int|
                0 <= j < s.variants.len() && crate::ranking::sound(
                    (#[trigger] s.variants[j]).1,
                ) implies crate::ranking::at_least_as_good(
                s.variants[i].1,
                s.variants[i].0,
                s.variants[j].1,
                s.variants[j].0,
            ) by {
                assert(v[j].0 == s.variants[j].1);
                crate::ranking::primary_is_the_best(v, i, j);
            }
            assert(crate::ranking::sound(s.variants[i].1));
        },
    }
}

/// A plan starts with a baseline for every Edition, in order, and goes on past them only for
/// a release of several disks with a sound variant.
pub proof fn plan_covers_every_edition(rows: RowsFields, plan: Seq<AssignFields>)
    requires
        is_primary_plan(rows, plan),
    ensures
        plan.len() >= rows.siblings.len(),
        forall|k: int|
            0 <= k < rows.siblings.len() ==> (#[trigger] plan[k]).edition_id
                == rows.siblings[k].edition_id,
        plan.len() > rows.siblings.len() ==> (rows.disk_count matches Some(d) && d > 1),
        (rows.disk_count matches Some(d) && d > 1) && (exists|i: int|
            0 <= i < gathered(rows.siblings, 0).len() && crate::ranking::sound(
                (#[trigger] gathered(rows.siblings, 0)[i]).info,
            )) ==> plan.len() > rows.siblings.len(),
{
    let n = rows.siblings.len() as int;
    let m = gathered(rows.siblings, 0);
    let rest = plan.skip(n);
    if (rows.disk_count matches Some(d) && d > 1) && (exists|i: int|
        0 <= i < m.len() && crate::ranking::sound((#[trigger] m[i]).info)) {
        let i = choose|i: int| 0 <= i < m.len() && crate::ranking::sound((#[trigger] m[i]).info);
        assert(crate::ranking::of_lineage(m, crate::ranking::tag_of(m[i]), i));
        assert(crate::ranking::has_lineage(m, crate::ranking::tag_of(m[i])));
        assert(wants_lineage(rows));
        let (tag, set) = choose|tag: Seq<char>, set: Seq<usize>|
            #![trigger is_lineage_plan(rows, tag, set, rest)]
            crate::ranking::is_primary_lineage(m, rows.disk_count->0, tag) && is_lineage_plan(
                rows,
                tag,
                set,
                rest,
            );
        let q = choose|q: int| crate::ranking::of_lineage(m, tag, q);
        assert(crate::ranking::covers(m, tag, m[q].disk_no));
        assert(crate::ranking::chooses_disk(m, set, m[q].disk_no));
    }
}

/// What an Edition is finally given is the last thing the plan says of it.
pub proof fn last_assignment_counts(plan: Seq<AssignFields>, k: int)
    requires
        0 <= k < plan.len(),
        forall|j: int| k < j < plan.len() ==> (#[trigger] plan[j]).edition_id != plan[k].edition_id,
    ensures
        final_primary(plan, plan[k].edition_id) == plan[k].primary,
    decreases plan.len(),
{
    if k < plan.len() - 1 {
        assert(plan[plan.len() - 1].edition_id != plan[k].edition_id);
        let init = plan.drop_last();
        assert(init[k] == plan[k]);
        assert forall|j: int| k < j < init.len() implies (#[trigger] init[j]).edition_id
            != init[k].edition_id by {
            assert(init[j] == plan[j]);
        }
        last_assignment_counts(init, k);
    }
}

/// What a plan assigns past the baselines is one lineage, the primary one: each such assignment
/// is of a member that counts for it and that is at least as good as every other on its disk,
/// to the Edition that the member is of.
pub proof fn overrides_are_of_the_primary_lineage(
    rows: RowsFields,
    plan: Seq<AssignFields>,
    k: int,
)
    requires
        is_primary_plan(rows, plan),
        rows.siblings.len() <= k < plan.len(),
    ensures
        ({
            let m = gathered(rows.siblings, 0);
            exists|tag: Seq<char>, i: int|
                #![trigger crate::ranking::belongs(m[i], tag)]
                0 <= i < m.len() && crate::ranking::is_primary_lineage(m, rows.disk_count->0, tag)
                    && crate::ranking::belongs(m[i], tag) && plan[k].primary == Some(m[i].tiebreak)
                    && plan[k].edition_id == owners(rows.siblings)[i] && forall|j: int|
                    0 <= j < m.len() && crate::ranking::belongs(#[trigger] m[j], tag)
                        && m[j].disk_no == m[i].disk_no ==> crate::ranking::at_least_as_good(
                        m[i].info,
                        m[i].tiebreak,
                        m[j].info,
                        m[j].tiebreak,
                    )
        }),
{
    let n = rows.siblings.len() as int;
    let m = gathered(rows.siblings, 0);
    let rest = plan.skip(n);
    assert(rest[k - n] == plan[k]);
    let (tag, set) = choose|tag: Seq<char>, set: Seq<usize>|
        #![trigger is_lineage_plan(rows, tag, set, rest)]
        crate::ranking::is_primary_lineage(m, rows.disk_count->0, tag) && is_lineage_plan(
            rows,
            tag,
            set,
            rest,
        );
    let i = set[k - n] as int;
    assert(crate::ranking::is_disk_choice(m, tag, set[k - n] as int));
    if tag.len() == 0 {
        assert(tag =~= Seq::<char>::empty());
    }
    assert(crate::ranking::belongs(m[i], tag));
    assert forall|j: int|
        0 <= j < m.len() && crate::ranking::belongs(#[trigger] m[j], tag) && m[j].disk_no
            == m[i].disk_no implies crate::ranking::at_least_as_good(
        m[i].info,
        m[i].tiebreak,
        m[j].info,
        m[j].tiebreak,
    ) by {
        assert(crate::ranking::of_lineage(m, tag, j));
        assert(!crate::ranking::member_better(m, j, i));
    }
}

} // verus!
