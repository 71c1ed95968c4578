//! Primary selection within an Edition — a non-destructive, deterministic policy.
//!
//! Selection is *disqualify-then-rank*: bad/virus/over/under dumps can never be
//! primary; among the survivors the least-modified, verified/original,
//! trainer-free, base (non-alternate) variant wins, with a stable tie-break.
//! Nothing here mutates or removes artifacts — it only chooses a flag.

use vstd::prelude::*;

use crate::edition::DumpInfo;
use crate::order::{group_by, sorted_positions, DiskKey, Ordered};
use crate::text::{owned, same, text_before};

verus! {

// --- Ranking one variant against another ------------------------------------

/// The comparable ranking key of a dump: whether it is neither verified nor
/// original, its modifications, whether it has a trainer, and its alternate index.
pub open spec fn rank_of(info: crate::edition::DumpFields) -> (bool, u32, bool, u32) {
    (
        !(info.verified_good || info.modifications == 0),
        info.modifications,
        info.trainer is Some,
        info.alt_index,
    )
}

/// The order of ranking keys, the smaller the better: the first part that differs
/// decides, and `false` is smaller than `true`.
pub open spec fn rank_lt(a: (bool, u32, bool, u32), b: (bool, u32, bool, u32)) -> bool {
    ||| !a.0 && b.0
    ||| a.0 == b.0 && a.1 < b.1
    ||| a.0 == b.0 && a.1 == b.1 && !a.2 && b.2
    ||| a.0 == b.0 && a.1 == b.1 && a.2 == b.2 && a.3 < b.3
}

/// Whether a dump with one tie-break key is better than another: by rank, then by
/// tie-break key.
pub open spec fn better(
    a: crate::edition::DumpFields,
    ta: Seq<char>,
    b: crate::edition::DumpFields,
    tb: Seq<char>,
) -> bool {
    ||| rank_lt(rank_of(a), rank_of(b))
    ||| rank_of(a) == rank_of(b) && crate::text::text_lt(ta, tb)
}

/// The comparable ranking key (ascending = better).
pub fn rank_key(info: &DumpInfo) -> (r: (bool, u32, bool, u32))
    ensures
        r == rank_of(info@),
{
    let is_clean = info.verified_good || info.modifications == 0;
    (!is_clean, info.modifications, info.trainer.is_some(), info.alt_index)
}

/// Whether one ranking key is smaller than another.
pub fn rank_before(a: (bool, u32, bool, u32), b: (bool, u32, bool, u32)) -> (r: bool)
    ensures
        r == rank_lt(a, b),
{
    if a.0 != b.0 {
        !a.0
    } else if a.1 != b.1 {
        a.1 < b.1
    } else if a.2 != b.2 {
        !a.2
    } else {
        a.3 < b.3
    }
}

/// Whether a dump with one tie-break key is better than another.
fn is_better(a: &DumpInfo, ta: &str, b: &DumpInfo, tb: &str) -> (r: bool)
    ensures
        r == better(a@, ta@, b@, tb@),
{
    let ka = rank_key(a);
    let kb = rank_key(b);
    if rank_before(ka, kb) {
        true
    } else if rank_before(kb, ka) {
        false
    } else {
        text_before(ta, tb)
    }
}

/// Being better is a strict order, total up to the rank and the tie-break key.
proof fn lemma_better(
    a: crate::edition::DumpFields,
    ta: Seq<char>,
    b: crate::edition::DumpFields,
    tb: Seq<char>,
    c: crate::edition::DumpFields,
    tc: Seq<char>,
)
    ensures
        better(a, ta, b, tb) ==> !better(b, tb, a, ta),
        better(a, ta, b, tb) && better(b, tb, c, tc) ==> better(a, ta, c, tc),
        better(a, ta, b, tb) || better(b, tb, a, ta) || rank_of(a) == rank_of(b) && ta == tb,
{
    crate::text::lemma_text_lt_asym(ta, tb);
    crate::text::lemma_text_lt_total(ta, tb);
    if crate::text::text_lt(ta, tb) && crate::text::text_lt(tb, tc) {
        crate::text::lemma_text_lt_trans(ta, tb, tc);
    }
}

// --- The primary of an Edition ----------------------------------------------

/// What variants hold: their dumps with their tie-break keys.
pub open spec fn variant_views(variants: Seq<(DumpInfo, String)>) -> Seq<
    (crate::edition::DumpFields, Seq<char>),
> {
    variants.map_values(|v: (DumpInfo, String)| (v.0@, v.1@))
}

/// Whether the variant at `a` is better than the one at `b`.
pub open spec fn variant_better(
    variants: Seq<(crate::edition::DumpFields, Seq<char>)>,
    a: int,
    b: int,
) -> bool {
    better(variants[a].0, variants[a].1, variants[b].0, variants[b].1)
}

/// Whether the variant at `i` is the primary: it qualifies, no variant that
/// qualifies is better, and it is better than all earlier ones.
pub open spec fn is_primary_of(
    variants: Seq<(crate::edition::DumpFields, Seq<char>)>,
    i: int,
) -> bool {
    &&& 0 <= i < variants.len()
    &&& !variants[i].0.disqualified()
    &&& forall|j: int|
        0 <= j < variants.len() && !(#[trigger] variants[j]).0.disqualified() ==> !variant_better(
            variants,
            j,
            i,
        ) && (j < i ==> variant_better(variants, i, j))
}

/// Whether every variant is disqualified.
pub open spec fn none_qualifies(variants: Seq<(crate::edition::DumpFields, Seq<char>)>) -> bool {
    forall|j: int| 0 <= j < variants.len() ==> (#[trigger] variants[j]).0.disqualified()
}

/// Whether `r` is the choice among variants: the primary, or nothing where none
/// qualifies.
pub open spec fn is_choice(
    variants: Seq<(crate::edition::DumpFields, Seq<char>)>,
    r: Option<usize>,
) -> bool {
    match r {
        None => none_qualifies(variants),
        Some(i) => is_primary_of(variants, i as int),
    }
}

/// Select the primary among an Edition's variants.
///
/// `variants` pairs each variant's [`DumpInfo`] with a stable tie-break key
/// (e.g. the artifact UID). Returns the index of the chosen primary, or `None`
/// if every variant is disqualified.
pub fn select_primary(variants: &[(DumpInfo, String)]) -> (r: Option<usize>)
    ensures
        is_choice(variant_views(variants@), r),
{
    let ghost vv = variant_views(variants@);
    let mut best: Option<usize> = None;
    let mut n: usize = 0;
    while n < variants.len()
        invariant
            n <= variants@.len(),
            vv == variant_views(variants@),
            is_choice(vv.take(n as int), best),
        decreases variants@.len() - n,
    {
        let ghost had = vv.take(n as int);
        let ghost now = vv.take(n + 1);
        let ghost was = best;
        let v = &variants[n];
        assert(now[n as int] == (v.0@, v.1@));
        assert(forall|j: int| 0 <= j < n ==> now[j] == had[j]);
        proof {
            lemma_better(v.0@, v.1@, v.0@, v.1@, v.0@, v.1@);
        }
        if !v.0.disqualified() {
            match best {
                None => {
                    best = Some(n);
                    assert forall|j: int| 0 <= j < now.len() && !(
                    #[trigger] now[j]).0.disqualified() implies j == n by {
                        if j < n {
                            assert(had[j].0.disqualified());
                        }
                    }
                },
                Some(i) => {
                    let w = &variants[i];
                    assert(had[i as int] == (w.0@, w.1@));
                    let wins = is_better(&v.0, &v.1, &w.0, &w.1);
                    proof {
                        lemma_better(v.0@, v.1@, w.0@, w.1@, v.0@, v.1@);
                        assert forall|j: int| 0 <= j < now.len() && !(
                        #[trigger] now[j]).0.disqualified() implies {
                            let b = if wins { n as int } else { i as int };
                            !variant_better(now, j, b) && (j < b ==> variant_better(now, b, j))
                        } by {
                            let u = now[j];
                            if j < n {
                                assert(!had[j].0.disqualified());
                                assert(!variant_better(had, j, i as int));
                            }
                            lemma_better(v.0@, v.1@, w.0@, w.1@, u.0, u.1);
                            lemma_better(u.0, u.1, v.0@, v.1@, w.0@, w.1@);
                            lemma_better(v.0@, v.1@, u.0, u.1, v.0@, v.1@);
                            lemma_better(u.0, u.1, w.0@, w.1@, v.0@, v.1@);
                        }
                    }
                    if wins {
                        best = Some(n);
                    }
                },
            }
        } else {
            proof {
                assert forall|j: int| 0 <= j < now.len() && !(
                #[trigger] now[j]).0.disqualified() implies j < n && !had[j].0.disqualified() by {}
                if let Some(i) = was {
                    assert(had[i as int] == now[i as int]);
                    assert forall|j: int| 0 <= j < now.len() && !(
                    #[trigger] now[j]).0.disqualified() implies !variant_better(now, j, i as int)
                        && (j < i ==> variant_better(now, i as int, j)) by {
                        assert(!had[j].0.disqualified());
                        assert(!variant_better(had, j, i as int));
                    }
                }
            }
        }
        n += 1;
    }
    assert(vv.take(n as int) =~= vv);
    best
}

// --- Multi-disk sets --------------------------------------------------------

/// One disk of a multi-disk release.
#[derive(Debug, Clone)]
pub struct DiskMember {
    pub disk_no: u32,
    pub lineage: Option<String>,
    pub info: DumpInfo,
    pub tiebreak: String,
}

/// What a [`DiskMember`] holds.
#[verifier::ext_equal]
pub struct MemberFields {
    pub disk_no: u32,
    pub lineage: Option<Seq<char>>,
    pub info: crate::edition::DumpFields,
    pub tiebreak: Seq<char>,
}

impl View for DiskMember {
    type V = MemberFields;

    open spec fn view(&self) -> MemberFields {
        MemberFields {
            disk_no: self.disk_no,
            lineage: crate::text::opt_view(self.lineage),
            info: self.info@,
            tiebreak: self.tiebreak@,
        }
    }
}

/// What members hold.
pub open spec fn member_views(members: Seq<DiskMember>) -> Seq<MemberFields> {
    members.map_values(|m: DiskMember| m@)
}

/// The tag of a member's lineage; the no-group lineage has the empty tag.
pub open spec fn tag_of(m: MemberFields) -> Seq<char> {
    match m.lineage {
        Some(t) => t,
        None => Seq::empty(),
    }
}

/// Whether the member at `i` qualifies and is of the lineage `tag`.
pub open spec fn of_lineage(members: Seq<MemberFields>, tag: Seq<char>, i: int) -> bool {
    &&& 0 <= i < members.len()
    &&& !members[i].info.disqualified()
    &&& tag_of(members[i]) == tag
}

/// Whether some member qualifies and is of the lineage `tag`.
pub open spec fn has_lineage(members: Seq<MemberFields>, tag: Seq<char>) -> bool {
    exists|i: int| of_lineage(members, tag, i)
}

/// Whether the lineage `tag` covers disk `d`.
pub open spec fn covers(members: Seq<MemberFields>, tag: Seq<char>, d: u32) -> bool {
    exists|i: int| #[trigger] of_lineage(members, tag, i) && members[i].disk_no == d
}

/// The disks that the lineage `tag` covers.
pub open spec fn disk_set(members: Seq<MemberFields>, tag: Seq<char>) -> Set<u32> {
    Set::new(|d: u32| covers(members, tag, d))
}

/// Whether the lineage `tag` covers every disk `1..=disk_count`.
pub open spec fn is_complete(members: Seq<MemberFields>, tag: Seq<char>, disk_count: u32) -> bool {
    forall|d: u32| 1 <= d <= disk_count ==> #[trigger] covers(members, tag, d)
}

/// The modifications of the lineage `tag`, all members together.
pub open spec fn total_mods(members: Seq<MemberFields>, tag: Seq<char>) -> nat
    decreases members.len(),
{
    if members.len() == 0 {
        0
    } else {
        let rest = total_mods(members.drop_last(), tag);
        if of_lineage(members, tag, members.len() - 1) {
            rest + members.last().info.modifications as nat
        } else {
            rest
        }
    }
}

/// What a lineage is scored by.
#[verifier::ext_equal]
pub struct ScoreFields {
    pub complete: bool,
    pub coverage: nat,
    pub mods: nat,
    pub tag: Seq<char>,
}

/// The score of the lineage `tag`.
pub open spec fn score(members: Seq<MemberFields>, disk_count: u32, tag: Seq<char>) -> ScoreFields {
    ScoreFields {
        complete: is_complete(members, tag, disk_count),
        coverage: disk_set(members, tag).len(),
        mods: total_mods(members, tag),
        tag,
    }
}

/// The order of scores, the smaller the better: complete before partial. Among complete
/// lineages the fewer modifications count, then the tag; among partial ones the wider
/// coverage counts before both. The lineages of a set have different tags; what is said
/// of complete scores with the same tag only makes the order total.
pub open spec fn score_lt(a: ScoreFields, b: ScoreFields) -> bool {
    ||| a.complete && !b.complete
    ||| a.complete && b.complete && fewer_mods(a, b)
    ||| a.complete && b.complete && a.mods == b.mods && a.tag == b.tag && a.coverage > b.coverage
    ||| !a.complete && !b.complete && a.coverage > b.coverage
    ||| !a.complete && !b.complete && a.coverage == b.coverage && fewer_mods(a, b)
}

/// Whether `a` has fewer modifications than `b`, or as many and the earlier tag.
pub open spec fn fewer_mods(a: ScoreFields, b: ScoreFields) -> bool {
    a.mods < b.mods || a.mods == b.mods && crate::text::text_lt(a.tag, b.tag)
}

/// The score of a lineage, ordered best first.
pub struct Score {
    pub complete: bool,
    pub coverage: usize,
    pub mods: u128,
    pub tag: String,
}

impl View for Score {
    type V = ScoreFields;

    open spec fn view(&self) -> ScoreFields {
        ScoreFields {
            complete: self.complete,
            coverage: self.coverage as nat,
            mods: self.mods as nat,
            tag: self.tag@,
        }
    }
}

impl Ordered for Score {
    open spec fn lt(a: ScoreFields, b: ScoreFields) -> bool {
        score_lt(a, b)
    }

    proof fn asymmetric(a: ScoreFields, b: ScoreFields) {
        crate::text::lemma_text_lt_asym(a.tag, b.tag);
    }

    proof fn transitive(a: ScoreFields, b: ScoreFields, c: ScoreFields) {
        if crate::text::text_lt(a.tag, b.tag) && crate::text::text_lt(b.tag, c.tag) {
            crate::text::lemma_text_lt_trans(a.tag, b.tag, c.tag);
        }
    }

    proof fn total(a: ScoreFields, b: ScoreFields) {
        crate::text::lemma_text_lt_total(a.tag, b.tag);
    }

    fn before(&self, other: &Self) -> (r: bool) {
        if self.complete != other.complete {
            self.complete
        } else if !self.complete && self.coverage != other.coverage {
            self.coverage > other.coverage
        } else if self.mods != other.mods {
            self.mods < other.mods
        } else if same(&self.tag, &other.tag) {
            proof {
                crate::text::lemma_text_lt_asym(self.tag@, other.tag@);
            }
            self.complete && self.coverage > other.coverage
        } else {
            text_before(&self.tag, &other.tag)
        }
    }
}

/// A member's lineage tag.
fn tag_text(m: &DiskMember) -> (r: String)
    ensures
        r@ == tag_of(m@),
{
    match &m.lineage {
        Some(t) => owned(t),
        None => {
            let r = String::new();
            assert(r@ =~= Seq::<char>::empty());
            r
        },
    }
}

/// Whether a member qualifies and is of the lineage `tag`.
pub fn is_of_lineage(members: &[DiskMember], tag: &str, i: usize) -> (r: bool)
    requires
        i < members@.len(),
    ensures
        r == of_lineage(member_views(members@), tag@, i as int),
{
    let m = &members[i];
    assert(member_views(members@)[i as int] == m@);
    if m.info.disqualified() {
        false
    } else {
        let t = tag_text(m);
        same(&t, tag)
    }
}

/// Whether `d` holds the disks of the lineage `tag`, each once, ascending.
pub open spec fn lists_disks(members: Seq<MemberFields>, tag: Seq<char>, d: Seq<u32>) -> bool {
    &&& forall|i: int, j: int| 0 <= i < j < d.len() ==> d[i] < d[j]
    &&& forall|k: u32| #[trigger] d.contains(k) <==> covers(members, tag, k)
}

/// The keys by which the members of the lineage `tag` group: their disk numbers.
/// Members that do not qualify or are of another lineage have none.
fn disk_keys(members: &[DiskMember], tag: &str) -> (keys: Vec<Option<DiskKey>>)
    ensures
        keys@.len() == members@.len(),
        forall|j: int|
            0 <= j < keys@.len() ==> ((#[trigger] keys@[j]) is Some <==> of_lineage(
                member_views(members@),
                tag@,
                j,
            )) && (keys@[j] is Some ==> keys@[j]->0@ == members@[j].disk_no),
{
    let mut keys: Vec<Option<DiskKey>> = Vec::new();
    let mut n: usize = 0;
    while n < members.len()
        invariant
            n <= members@.len(),
            keys@.len() == n,
            forall|j: int|
                0 <= j < keys@.len() ==> ((#[trigger] keys@[j]) is Some <==> of_lineage(
                    member_views(members@),
                    tag@,
                    j,
                )) && (keys@[j] is Some ==> keys@[j]->0@ == members@[j].disk_no),
        decreases members@.len() - n,
    {
        if is_of_lineage(members, tag, n) {
            keys.push(Some(DiskKey { disk_no: members[n].disk_no }));
        } else {
            keys.push(None);
        }
        n += 1;
    }
    keys
}

/// The disks that a lineage covers, ascending.
fn disks_of(members: &[DiskMember], tag: &str) -> (d: Vec<u32>)
    ensures
        lists_disks(member_views(members@), tag@, d@),
{
    let ghost mv = member_views(members@);
    let keys = disk_keys(members, tag);
    let groups = group_by(&keys);
    let mut d: Vec<u32> = Vec::new();
    let mut g: usize = 0;
    while g < groups.len()
        invariant
            g <= groups@.len(),
            d@.len() == g,
            keys@.len() == members@.len(),
            crate::order::is_grouping(keys@, groups@),
            forall|j: int|
                0 <= j < keys@.len() ==> ((#[trigger] keys@[j]) is Some ==> keys@[j]->0@
                    == members@[j].disk_no),
            forall|h: int|
                0 <= h < g ==> #[trigger] d@[h] == crate::order::group_key(keys@, groups@[h]@),
        decreases groups@.len() - g,
    {
        assert(crate::order::is_group(keys@, groups@[g as int]@));
        let first = groups[g][0];
        assert(keys@[first as int] is Some);
        d.push(members[first].disk_no);
        g += 1;
    }
    proof {
        assert forall|i: int, j: int| 0 <= i < j < d@.len() implies d@[i] < d@[j] by {
            assert(DiskKey::lt(
                crate::order::group_key(keys@, groups@[i]@),
                crate::order::group_key(keys@, groups@[j]@),
            ));
        }
        assert forall|k: u32| #[trigger] d@.contains(k) <==> covers(mv, tag@, k) by {
            if d@.contains(k) {
                let h = choose|h: int| 0 <= h < d@.len() && d@[h] == k;
                assert(crate::order::is_group(keys@, groups@[h]@));
                let first = groups@[h]@[0] as int;
                assert(keys@[first] is Some);
                assert(mv[first] == members@[first]@);
                assert(of_lineage(mv, tag@, first) && mv[first].disk_no == k);
            }
            if covers(mv, tag@, k) {
                let i = choose|i: int| #[trigger] of_lineage(mv, tag@, i) && mv[i].disk_no == k;
                assert(mv[i] == members@[i]@);
                assert(keys@[i] is Some);
                assert(crate::order::grouped(groups@, i));
                let (h, p) = choose|h: int, p: int|
                    0 <= h < groups@.len() && 0 <= p < groups@[h]@.len()
                        && #[trigger] groups@[h]@[p] == i;
                assert(crate::order::is_group(keys@, groups@[h]@));
                assert(groups@[h]@[p] < keys@.len());
                assert(d@[h] == k);
            }
        }
    }
    d
}

/// Whether a list of disks holds disk `k`.
pub fn lists(d: &[u32], k: u32) -> (r: bool)
    ensures
        r == d@.contains(k),
{
    let mut i: usize = 0;
    while i < d.len()
        invariant
            i <= d@.len(),
            forall|j: int| 0 <= j < i ==> d@[j] != k,
        decreases d@.len() - i,
    {
        if d[i] == k {
            return true;
        }
        i += 1;
    }
    false
}

/// Whether a list of disks holds every disk `1..=disk_count`.
fn covers_all(d: &[u32], disk_count: u32) -> (r: bool)
    ensures
        r <==> forall|k: u32| 1 <= k <= disk_count ==> #[trigger] d@.contains(k),
{
    let mut k: u32 = 0;
    while k < disk_count
        invariant
            k <= disk_count,
            forall|q: u32| 1 <= q <= k ==> #[trigger] d@.contains(q),
        decreases disk_count - k,
    {
        k += 1;
        if !lists(d, k) {
            return false;
        }
    }
    true
}

/// The modifications of a lineage, all members together.
fn mods_of(members: &[DiskMember], tag: &str) -> (r: u128)
    ensures
        r == total_mods(member_views(members@), tag@),
{
    let ghost mv = member_views(members@);
    let mut sum: u128 = 0;
    let mut n: usize = 0;
    assert(mv.take(0) =~= Seq::empty());
    while n < members.len()
        invariant
            n <= members@.len(),
            mv == member_views(members@),
            sum == total_mods(mv.take(n as int), tag@),
            sum <= n * 0xffff_ffff,
        decreases members@.len() - n,
    {
        proof {
            assert(mv.take(n + 1).drop_last() =~= mv.take(n as int));
            assert(mv.take(n + 1).last() == mv[n as int]);
            assert(of_lineage(mv.take(n + 1), tag@, n as int) == of_lineage(mv, tag@, n as int));
            assert(mv[n as int] == members@[n as int]@);
        }
        if is_of_lineage(members, tag, n) {
            sum += members[n].info.modifications as u128;
        }
        n += 1;
    }
    assert(mv.take(n as int) =~= mv);
    sum
}

/// A list of disks is as long as the set of them is large.
proof fn lemma_coverage(members: Seq<MemberFields>, tag: Seq<char>, d: Seq<u32>)
    requires
        lists_disks(members, tag, d),
    ensures
        d.len() == disk_set(members, tag).len(),
{
    assert(d.no_duplicates());
    d.unique_seq_to_set();
    assert(d.to_set() =~= disk_set(members, tag)) by {
        assert forall|k: u32| d.to_set().contains(k) <==> disk_set(members, tag).contains(k) by {
            assert(d.contains(k) <==> covers(members, tag, k));
        }
    }
}

/// A lineage of a set with its score and its disks.
struct Lineage {
    score: Score,
    disks: Vec<u32>,
}

/// Whether `l` is the lineage `tag`.
spec fn is_lineage(
    members: Seq<MemberFields>,
    disk_count: u32,
    tag: Seq<char>,
    l: Lineage,
) -> bool {
    &&& has_lineage(members, tag)
    &&& l.score@ == score(members, disk_count, tag)
    &&& lists_disks(members, tag, l.disks@)
}

/// Whether `ls` are the lineages of a set, each once.
spec fn are_lineages(members: Seq<MemberFields>, disk_count: u32, ls: Seq<Lineage>) -> bool {
    &&& forall|g: int|
        0 <= g < ls.len() ==> is_lineage(members, disk_count, (#[trigger] ls[g]).score.tag@, ls[g])
    &&& forall|g: int, h: int|
        0 <= g < h < ls.len() ==> (#[trigger] ls[g]).score.tag@ != (#[trigger] ls[h]).score.tag@
    &&& forall|tag: Seq<char>| #[trigger] has_lineage(members, tag) ==> lists_tag(ls, tag)
}

/// Whether one of `ls` is the lineage `tag`.
spec fn lists_tag(ls: Seq<Lineage>, tag: Seq<char>) -> bool {
    exists|g: int| 0 <= g < ls.len() && (#[trigger] ls[g]).score.tag@ == tag
}

/// Score one lineage.
fn score_lineage(members: &[DiskMember], disk_count: u32, tag: &str) -> (l: Lineage)
    requires
        has_lineage(member_views(members@), tag@),
    ensures
        is_lineage(member_views(members@), disk_count, tag@, l),
        l.score.tag@ == tag@,
{
    let ghost mv = member_views(members@);
    let disks = disks_of(members, tag);
    let complete = covers_all(&disks, disk_count);
    let mods = mods_of(members, tag);
    proof {
        lemma_coverage(mv, tag@, disks@);
        if complete {
            assert forall|d: u32| 1 <= d <= disk_count implies #[trigger] covers(mv, tag@, d) by {
                assert(disks@.contains(d));
            }
        } else {
            let d = choose|d: u32| 1 <= d <= disk_count && !disks@.contains(d);
            assert(!covers(mv, tag@, d));
        }
    }
    Lineage { score: Score { complete, coverage: disks.len(), mods, tag: owned(tag) }, disks }
}

/// The lineages of a set, scored. Disqualified members do not count.
fn lineages_of(members: &[DiskMember], disk_count: u32) -> (ls: Vec<Lineage>)
    ensures
        are_lineages(member_views(members@), disk_count, ls@),
{
    let ghost mv = member_views(members@);
    let mut keys: Vec<Option<String>> = Vec::new();
    let mut n: usize = 0;
    while n < members.len()
        invariant
            n <= members@.len(),
            keys@.len() == n,
            forall|j: int|
                0 <= j < n ==> ((#[trigger] keys@[j]) is Some <==> !members@[j].info@.disqualified())
                    && (keys@[j] is Some ==> keys@[j]->0@ == tag_of(members@[j]@)),
        decreases members@.len() - n,
    {
        if members[n].info.disqualified() {
            keys.push(None);
        } else {
            keys.push(Some(tag_text(&members[n])));
        }
        n += 1;
    }
    let groups = group_by(&keys);
    let mut ls: Vec<Lineage> = Vec::new();
    let mut g: usize = 0;
    while g < groups.len()
        invariant
            g <= groups@.len(),
            ls@.len() == g,
            mv == member_views(members@),
            keys@.len() == members@.len(),
            crate::order::is_grouping(keys@, groups@),
            forall|j: int|
                0 <= j < keys@.len() ==> ((#[trigger] keys@[j]) is Some
                    <==> !members@[j].info@.disqualified()) && (keys@[j] is Some ==> keys@[j]->0@
                    == tag_of(members@[j]@)),
            forall|h: int|
                0 <= h < g ==> is_lineage(
                    mv,
                    disk_count,
                    (#[trigger] ls@[h]).score.tag@,
                    ls@[h],
                ) && ls@[h].score.tag@ == crate::order::group_key(keys@, groups@[h]@),
        decreases groups@.len() - g,
    {
        assert(crate::order::is_group(keys@, groups@[g as int]@));
        let first = groups[g][0];
        assert(keys@[first as int] is Some);
        let tag = tag_text(&members[first]);
        assert(mv[first as int] == members@[first as int]@);
        assert(of_lineage(mv, tag@, first as int));
        ls.push(score_lineage(members, disk_count, &tag));
        g += 1;
    }
    proof {
        assert forall|g: int, h: int| 0 <= g < h < ls@.len() implies (#[trigger] ls@[g]).score.tag@
            != (#[trigger] ls@[h]).score.tag@ by {
            if ls@[g].score.tag@ == ls@[h].score.tag@ {
                crate::order::lemma_group_keys_differ(keys@, groups@, g, h);
            }
        }
        assert forall|tag: Seq<char>| #[trigger] has_lineage(mv, tag) implies lists_tag(ls@, tag) by {
            let i = choose|i: int| of_lineage(mv, tag, i);
            assert(mv[i] == members@[i]@);
            assert(keys@[i] is Some);
            assert(crate::order::grouped(groups@, i));
            let (h, p) = choose|h: int, p: int|
                0 <= h < groups@.len() && 0 <= p < groups@[h]@.len() && #[trigger] groups@[h]@[p]
                    == i;
            assert(crate::order::is_group(keys@, groups@[h]@));
            assert(groups@[h]@[p] < keys@.len());
            assert(ls@[h].score.tag@ == tag);
        }
    }
    ls
}

/// Whether `tag` is the primary lineage: no other lineage scores as well.
pub open spec fn is_primary_lineage(
    members: Seq<MemberFields>,
    disk_count: u32,
    tag: Seq<char>,
) -> bool {
    &&& has_lineage(members, tag)
    &&& forall|t: Seq<char>| #[trigger]
        has_lineage(members, t) && t != tag ==> score_lt(
            score(members, disk_count, tag),
            score(members, disk_count, t),
        )
}

/// Select the primary *lineage* for a multi-disk Edition set.
///
/// Prefers a coherent single crack-lineage that covers all `disk_count` disks;
/// among complete lineages, the one with the fewest total modifications wins,
/// with a stable tie-break by lineage tag. Disqualified members do not count
/// toward a lineage's coverage. Returns the chosen lineage tag (empty string
/// denotes the no-group/original lineage), or `None` if nothing qualifies.
pub fn select_primary_lineage(members: &[DiskMember], disk_count: u32) -> (r: Option<String>)
    ensures
        match r {
            None => forall|i: int|
                0 <= i < members@.len() ==> (#[trigger] members@[i]).info@.disqualified(),
            Some(tag) => is_primary_lineage(member_views(members@), disk_count, tag@),
        },
{
    let ghost mv = member_views(members@);
    let ls = lineages_of(members, disk_count);
    if ls.len() == 0 {
        proof {
            assert forall|i: int| 0 <= i < members@.len() implies (
            #[trigger] members@[i]).info@.disqualified() by {
                if !members@[i].info@.disqualified() {
                    assert(mv[i] == members@[i]@);
                    assert(of_lineage(mv, tag_of(mv[i]), i));
                    assert(has_lineage(mv, tag_of(mv[i])));
                    assert(lists_tag(ls@, tag_of(mv[i])));
                }
            }
        }
        return None;
    }
    let mut best: usize = 0;
    let mut n: usize = 1;
    while n < ls.len()
        invariant
            best < n <= ls@.len(),
            are_lineages(mv, disk_count, ls@),
            forall|h: int|
                0 <= h < n && h != best ==> score_lt(
                    ls@[best as int].score@,
                    (#[trigger] ls@[h]).score@,
                ),
        decreases ls@.len() - n,
    {
        let ghost was = best;
        proof {
            Score::total(ls@[n as int].score@, ls@[best as int].score@);
            assert(ls@[best as int].score.tag@ != ls@[n as int].score.tag@);
        }
        if ls[n].score.before(&ls[best].score) {
            best = n;
            proof {
                assert forall|h: int| 0 <= h < n implies score_lt(
                    ls@[n as int].score@,
                    (#[trigger] ls@[h]).score@,
                ) by {
                    if h != was {
                        Score::transitive(
                            ls@[n as int].score@,
                            ls@[was as int].score@,
                            ls@[h].score@,
                        );
                    }
                }
            }
        }
        n += 1;
    }
    let tag = owned(&ls[best].score.tag);
    proof {
        assert forall|t: Seq<char>| #[trigger] has_lineage(mv, t) && t != tag@ implies score_lt(
            score(mv, disk_count, tag@),
            score(mv, disk_count, t),
        ) by {
            assert(lists_tag(ls@, t));
            let h = choose|h: int| 0 <= h < ls@.len() && (#[trigger] ls@[h]).score.tag@ == t;
            assert(is_lineage(mv, disk_count, ls@[h].score.tag@, ls@[h]));
            assert(is_lineage(mv, disk_count, ls@[best as int].score.tag@, ls@[best as int]));
        }
    }
    Some(tag)
}

/// A candidate lineage of a Set: which disks it covers and whether it is complete.
#[derive(Debug, Clone, PartialEq, Eq)]
pub struct LineageCoverage {
    /// The crack/hack group; `None` for the no-group/orphan lineage.
    pub lineage: Option<String>,
    /// Disk numbers this lineage covers, ascending.
    pub disks_covered: Vec<u32>,
    /// Covers every disk `1..=disk_count`.
    pub complete: bool,
    /// The lineage the vault auto-selects as the coherent primary set.
    pub is_primary: bool,
}

/// The tag of a row's lineage; the no-group lineage has the empty tag.
pub open spec fn row_tag(row: LineageCoverage) -> Seq<char> {
    match row.lineage {
        Some(t) => t@,
        None => Seq::empty(),
    }
}

/// Whether `row` says of its lineage what `members` make of it.
pub open spec fn is_coverage_row(
    members: Seq<MemberFields>,
    disk_count: u32,
    row: LineageCoverage,
) -> bool {
    &&& has_lineage(members, row_tag(row))
    &&& row.lineage is Some <==> row_tag(row).len() > 0
    &&& lists_disks(members, row_tag(row), row.disks_covered@)
    &&& row.complete == is_complete(members, row_tag(row), disk_count)
}

/// Whether one of `rows` is the lineage `tag`.
pub open spec fn has_row(rows: Seq<LineageCoverage>, tag: Seq<char>) -> bool {
    exists|k: int| 0 <= k < rows.len() && row_tag(#[trigger] rows[k]) == tag
}

/// Whether `rows` hold every lineage of `members` that qualifies, each once, in
/// the order of their scores, the first marked primary.
pub open spec fn is_coverage(
    members: Seq<MemberFields>,
    disk_count: u32,
    rows: Seq<LineageCoverage>,
) -> bool {
    &&& forall|k: int|
        0 <= k < rows.len() ==> is_coverage_row(members, disk_count, #[trigger] rows[k])
            && rows[k].is_primary == (k == 0)
    &&& forall|k: int, l: int|
        0 <= k < l < rows.len() ==> score_lt(
            score(members, disk_count, row_tag(#[trigger] rows[k])),
            score(members, disk_count, row_tag(#[trigger] rows[l])),
        )
    &&& forall|tag: Seq<char>| #[trigger] has_lineage(members, tag) ==> has_row(rows, tag)
}

/// Enumerate every candidate lineage of a set with its coverage, sorted best-first
/// (complete before partial, then by the primary-selection ranking). Disqualified
/// members do not count toward coverage — a bad-dump disk does not complete a set.
pub fn lineage_coverage(members: &[DiskMember], disk_count: u32) -> (rows: Vec<LineageCoverage>)
    ensures
        is_coverage(member_views(members@), disk_count, rows@),
{
    let ghost mv = member_views(members@);
    let ls = lineages_of(members, disk_count);
    let mut scores: Vec<Score> = Vec::new();
    let mut n: usize = 0;
    while n < ls.len()
        invariant
            n <= ls@.len(),
            scores@.len() == n,
            forall|h: int| 0 <= h < n ==> (#[trigger] scores@[h])@ == ls@[h].score@,
        decreases ls@.len() - n,
    {
        let s = &ls[n].score;
        scores.push(
            Score {
                complete: s.complete,
                coverage: s.coverage,
                mods: s.mods,
                tag: owned(&s.tag),
            },
        );
        n += 1;
    }
    let order = sorted_positions(&scores);
    let mut rows: Vec<LineageCoverage> = Vec::new();
    let mut k: usize = 0;
    while k < order.len()
        invariant
            k <= order@.len(),
            rows@.len() == k,
            scores@.len() == ls@.len(),
            are_lineages(mv, disk_count, ls@),
            crate::order::is_stable_order(scores@, order@),
            forall|q: int|
                0 <= q < k ==> is_coverage_row(mv, disk_count, #[trigger] rows@[q])
                    && rows@[q].is_primary == (q == 0) && row_tag(rows@[q])
                    == ls@[order@[q] as int].score.tag@,
        decreases order@.len() - k,
    {
        assert(order@[k as int] < scores@.len());
        let l = &ls[order[k]];
        assert(is_lineage(mv, disk_count, l.score.tag@, *l));
        let row = coverage_row(l, k == 0);
        rows.push(row);
        k += 1;
    }
    proof {
        assert forall|a: int, b: int| 0 <= a < b < rows@.len() implies score_lt(
            score(mv, disk_count, row_tag(#[trigger] rows@[a])),
            score(mv, disk_count, row_tag(#[trigger] rows@[b])),
        ) by {
            let i = order@[a];
            let j = order@[b];
            assert(i < scores@.len() && j < scores@.len());
            assert(crate::order::sorts_before(scores@, i, j));
            assert(is_lineage(mv, disk_count, ls@[i as int].score.tag@, ls@[i as int]));
            assert(is_lineage(mv, disk_count, ls@[j as int].score.tag@, ls@[j as int]));
            if scores@[i as int]@ == scores@[j as int]@ {
                Score::asymmetric(scores@[i as int]@, scores@[j as int]@);
                assert(ls@[i as int].score.tag@ != ls@[j as int].score.tag@);
            }
        }
        assert forall|tag: Seq<char>| #[trigger] has_lineage(mv, tag) implies has_row(rows@, tag) by {
            assert(lists_tag(ls@, tag));
            let h = choose|h: int| 0 <= h < ls@.len() && (#[trigger] ls@[h]).score.tag@ == tag;
            assert(order@.contains(h as usize));
            let q = choose|q: int| 0 <= q < order@.len() && order@[q] == h as usize;
            assert(row_tag(rows@[q]) == tag);
        }
    }
    rows
}

/// The row of a lineage.
fn coverage_row(l: &Lineage, is_primary: bool) -> (row: LineageCoverage)
    ensures
        row_tag(row) == l.score.tag@,
        row.lineage is Some <==> row_tag(row).len() > 0,
        row.disks_covered@ == l.disks@,
        row.complete == l.score.complete,
        row.is_primary == is_primary,
{
    let lineage = if same(&l.score.tag, "") {
        proof {
            reveal_strlit("");
            assert(l.score.tag@ =~= Seq::<char>::empty());
        }
        None
    } else {
        proof {
            reveal_strlit("");
            if l.score.tag@.len() == 0 {
                assert(l.score.tag@ =~= ""@);
            }
        }
        Some(owned(&l.score.tag))
    };
    let disks_covered = copy_disks(&l.disks);
    LineageCoverage { lineage, disks_covered, complete: l.score.complete, is_primary }
}

/// A copy of a list of disks.
pub fn copy_disks(d: &[u32]) -> (r: Vec<u32>)
    ensures
        r@ == d@,
{
    let mut r: Vec<u32> = Vec::new();
    let mut i: usize = 0;
    while i < d.len()
        invariant
            i <= d@.len(),
            r@ == d@.take(i as int),
        decreases d@.len() - i,
    {
        r.push(d[i]);
        i += 1;
        assert(r@ =~= d@.take(i as int));
    }
    assert(r@ =~= d@);
    r
}

/// Whether the member at `a` is better than the one at `b`.
pub open spec fn member_better(members: Seq<MemberFields>, a: int, b: int) -> bool {
    better(members[a].info, members[a].tiebreak, members[b].info, members[b].tiebreak)
}

/// Whether the member at `i` is the one to take for its disk: it qualifies and is of
/// the lineage `tag`, no such member of that disk is better, and it is better than
/// the earlier ones.
pub open spec fn is_disk_choice(members: Seq<MemberFields>, tag: Seq<char>, i: int) -> bool {
    &&& of_lineage(members, tag, i)
    &&& forall|j: int| #[trigger]
        of_lineage(members, tag, j) && members[j].disk_no == members[i].disk_no ==> !member_better(
            members,
            j,
            i,
        ) && (j < i ==> member_better(members, i, j))
}

/// Whether `set` holds one member for each disk that the lineage `tag` covers, the
/// one to take for it, in the order of the disks.
pub open spec fn is_primary_set(
    members: Seq<MemberFields>,
    tag: Seq<char>,
    set: Seq<usize>,
) -> bool {
    &&& forall|k: int| 0 <= k < set.len() ==> is_disk_choice(members, tag, #[trigger] set[k] as int)
    &&& forall|k: int, l: int|
        0 <= k < l < set.len() ==> members[(#[trigger] set[k]) as int].disk_no
            < members[(#[trigger] set[l]) as int].disk_no
    &&& forall|d: u32| #[trigger] covers(members, tag, d) ==> chooses_disk(members, set, d)
}

/// Whether one of `set` is of disk `d`.
pub open spec fn chooses_disk(members: Seq<MemberFields>, set: Seq<usize>, d: u32) -> bool {
    exists|k: int| 0 <= k < set.len() && members[(#[trigger] set[k]) as int].disk_no == d
}

/// The best of a group of members, the earliest where several are as good.
pub fn best_of(members: &[DiskMember], group: &[usize]) -> (r: usize)
    requires
        group@.len() > 0,
        forall|p: int| 0 <= p < group@.len() ==> (#[trigger] group@[p]) < members@.len(),
        forall|p: int, q: int| 0 <= p < q < group@.len() ==> group@[p] < group@[q],
    ensures
        group@.contains(r),
        forall|p: int|
            0 <= p < group@.len() ==> !member_better(
                member_views(members@),
                (#[trigger] group@[p]) as int,
                r as int,
            ) && (group@[p] < r ==> member_better(
                member_views(members@),
                r as int,
                group@[p] as int,
            )),
{
    let ghost mv = member_views(members@);
    let mut at: usize = 0;
    let mut n: usize = 1;
    proof {
        let m = members@[group@[0] as int]@;
        lemma_better(m.info, m.tiebreak, m.info, m.tiebreak, m.info, m.tiebreak);
    }
    while n < group.len()
        invariant
            at < n <= group@.len(),
            mv == member_views(members@),
            forall|p: int| 0 <= p < group@.len() ==> (#[trigger] group@[p]) < members@.len(),
            forall|p: int, q: int| 0 <= p < q < group@.len() ==> group@[p] < group@[q],
            forall|p: int|
                0 <= p < n ==> !member_better(
                    mv,
                    (#[trigger] group@[p]) as int,
                    group@[at as int] as int,
                ) && (group@[p] < group@[at as int] ==> member_better(
                    mv,
                    group@[at as int] as int,
                    group@[p] as int,
                )),
        decreases group@.len() - n,
    {
        assert(group@[n as int] < members@.len() && group@[at as int] < members@.len());
        let a = &members[group[n]];
        let b = &members[group[at]];
        let ghost was = at;
        let wins = is_better(&a.info, &a.tiebreak, &b.info, &b.tiebreak);
        proof {
            assert(mv[group@[n as int] as int] == a@ && mv[group@[was as int] as int] == b@);
            lemma_better(a@.info, a@.tiebreak, a@.info, a@.tiebreak, a@.info, a@.tiebreak);
            assert(group@[was as int] < group@[n as int]);
            if wins {
                assert forall|p: int| 0 <= p < n implies !member_better(
                    mv,
                    (#[trigger] group@[p]) as int,
                    group@[n as int] as int,
                ) && member_better(mv, group@[n as int] as int, group@[p] as int) by {
                    assert(group@[p] < members@.len());
                    let c = mv[group@[p] as int];
                    lemma_better(a@.info, a@.tiebreak, b@.info, b@.tiebreak, c.info, c.tiebreak);
                    lemma_better(c.info, c.tiebreak, a@.info, a@.tiebreak, b@.info, b@.tiebreak);
                    lemma_better(a@.info, a@.tiebreak, c.info, c.tiebreak, b@.info, b@.tiebreak);
                    lemma_better(c.info, c.tiebreak, b@.info, b@.tiebreak, a@.info, a@.tiebreak);
                }
            }
        }
        if wins {
            at = n;
        }
        n += 1;
    }
    let r = group[at];
    assert(group@[at as int] == r);
    r
}

/// Pick the best non-disqualified member of a given lineage for each disk.
pub fn primary_set_for_lineage(members: &[DiskMember], lineage: &str) -> (set: Vec<usize>)
    ensures
        is_primary_set(member_views(members@), lineage@, set@),
{
    let ghost mv = member_views(members@);
    let keys = disk_keys(members, lineage);
    let groups = group_by(&keys);
    let mut set: Vec<usize> = Vec::new();
    let mut g: usize = 0;
    while g < groups.len()
        invariant
            g <= groups@.len(),
            set@.len() == g,
            mv == member_views(members@),
            keys@.len() == members@.len(),
            crate::order::is_grouping(keys@, groups@),
            forall|j: int|
                0 <= j < keys@.len() ==> ((#[trigger] keys@[j]) is Some <==> of_lineage(
                    mv,
                    lineage@,
                    j,
                )) && (keys@[j] is Some ==> keys@[j]->0@ == members@[j].disk_no),
            forall|h: int|
                0 <= h < g ==> is_disk_choice(mv, lineage@, #[trigger] set@[h] as int)
                    && mv[set@[h] as int].disk_no == crate::order::group_key(keys@, groups@[h]@),
        decreases groups@.len() - g,
    {
        let ghost q = groups@[g as int]@;
        assert(crate::order::is_group(keys@, q));
        let r = best_of(members, &groups[g]);
        proof {
            let p = choose|p: int| 0 <= p < q.len() && q[p] == r;
            assert(q[p] < keys@.len());
            assert(mv[r as int] == members@[r as int]@);
            assert forall|j: int| #[trigger]
                of_lineage(mv, lineage@, j) && mv[j].disk_no == mv[r as int].disk_no implies !member_better(
                mv,
                j,
                r as int,
            ) && (j < r ==> member_better(mv, r as int, j)) by {
                assert(keys@[j] is Some);
                assert(mv[j] == members@[j]@);
                let t = crate::order::lemma_in_group(keys@, groups@, g as int, j);
                assert(q[t] == j);
            }
        }
        set.push(r);
        g += 1;
    }
    proof {
        assert forall|k: int, l: int| 0 <= k < l < set@.len() implies mv[(
        #[trigger] set@[k]) as int].disk_no < mv[(#[trigger] set@[l]) as int].disk_no by {
            assert(DiskKey::lt(
                crate::order::group_key(keys@, groups@[k]@),
                crate::order::group_key(keys@, groups@[l]@),
            ));
        }
        assert forall|d: u32| #[trigger] covers(mv, lineage@, d) implies chooses_disk(
            mv,
            set@,
            d,
        ) by {
            let i = choose|i: int| #[trigger] of_lineage(mv, lineage@, i) && mv[i].disk_no == d;
            assert(mv[i] == members@[i]@);
            assert(keys@[i] is Some);
            assert(crate::order::grouped(groups@, i));
            let (h, p) = choose|h: int, p: int|
                0 <= h < groups@.len() && 0 <= p < groups@[h]@.len() && #[trigger] groups@[h]@[p]
                    == i;
            assert(crate::order::is_group(keys@, groups@[h]@));
            assert(groups@[h]@[p] < keys@.len());
            assert(mv[set@[h] as int].disk_no == d);
        }
    }
    set
}

// --- Laws -------------------------------------------------------------------

/// The primary is determined by the variants: two primaries are the same.
pub proof fn primary_is_unique(
    variants: Seq<(crate::edition::DumpFields, Seq<char>)>,
    i: int,
    j: int,
)
    requires
        is_primary_of(variants, i),
        is_primary_of(variants, j),
    ensures
        i == j,
{
    assert(!variants[i].0.disqualified() && !variants[j].0.disqualified());
}

/// Whichever order the variants come in, the same one wins: where no two variants
/// share a tie-break key, a primary of one arrangement is the primary of any other.
pub proof fn primary_ignores_order(
    variants: Seq<(crate::edition::DumpFields, Seq<char>)>,
    other: Seq<(crate::edition::DumpFields, Seq<char>)>,
    i: int,
    j: int,
)
    requires
        forall|a: int, b: int|
            0 <= a < b < variants.len() ==> (#[trigger] variants[a]).1 != (
            #[trigger] variants[b]).1,
        forall|a: int| 0 <= a < variants.len() ==> other.contains(#[trigger] variants[a]),
        forall|a: int| 0 <= a < other.len() ==> variants.contains(#[trigger] other[a]),
        is_primary_of(variants, i),
        is_primary_of(other, j),
    ensures
        variants[i] == other[j],
{
    let v = variants[i];
    let w = other[j];
    assert(other.contains(v) && variants.contains(w));
    let a = choose|a: int| 0 <= a < other.len() && other[a] == v;
    let b = choose|b: int| 0 <= b < variants.len() && variants[b] == w;
    assert(!variant_better(other, a, j));
    assert(!variant_better(variants, b, i));
    lemma_better(v.0, v.1, w.0, w.1, v.0, v.1);
    if b < i {
        assert(variants[b].1 != variants[i].1);
    } else if i < b {
        assert(variants[i].1 != variants[b].1);
    }
}

/// A disqualified dump is never primary, and there is a primary unless every dump
/// is disqualified.
pub proof fn disqualified_is_never_primary(
    variants: Seq<(crate::edition::DumpFields, Seq<char>)>,
    r: Option<usize>,
)
    requires
        is_choice(variants, r),
    ensures
        r matches Some(i) ==> i < variants.len() && !variants[i as int].0.disqualified(),
        r is None <==> none_qualifies(variants),
{
}

/// The first row of the coverage is the primary lineage, and no other lineage is.
pub proof fn first_row_is_primary_lineage(
    members: Seq<MemberFields>,
    disk_count: u32,
    rows: Seq<LineageCoverage>,
)
    requires
        is_coverage(members, disk_count, rows),
        rows.len() > 0,
    ensures
        is_primary_lineage(members, disk_count, row_tag(rows[0])),
        forall|tag: Seq<char>| #[trigger]
            is_primary_lineage(members, disk_count, tag) ==> tag == row_tag(rows[0]),
{
    let first = row_tag(rows[0]);
    assert(is_coverage_row(members, disk_count, rows[0]));
    assert forall|t: Seq<char>| #[trigger] has_lineage(members, t) && t != first implies score_lt(
        score(members, disk_count, first),
        score(members, disk_count, t),
    ) by {
        assert(has_row(rows, t));
        let k = choose|k: int| 0 <= k < rows.len() && row_tag(#[trigger] rows[k]) == t;
        assert(0 < k);
    }
    assert forall|tag: Seq<char>| #[trigger]
        is_primary_lineage(members, disk_count, tag) implies tag == first by {
        primary_lineage_is_unique(members, disk_count, tag, first);
    }
}

/// No score is better than itself.
pub proof fn lemma_score_irreflexive(s: ScoreFields)
    ensures
        !score_lt(s, s),
{
    Score::asymmetric(s, s);
}

/// There is one primary lineage.
pub proof fn primary_lineage_is_unique(
    members: Seq<MemberFields>,
    disk_count: u32,
    a: Seq<char>,
    b: Seq<char>,
)
    requires
        is_primary_lineage(members, disk_count, a),
        is_primary_lineage(members, disk_count, b),
    ensures
        a == b,
{
    if a != b {
        assert(has_lineage(members, a) && has_lineage(members, b));
        Score::asymmetric(score(members, disk_count, a), score(members, disk_count, b));
    }
}

/// The best lineage among those of the first `n` members; none where all of these are
/// disqualified.
proof fn lemma_best_of_first(members: Seq<MemberFields>, disk_count: u32, n: int) -> (r: Option<
    Seq<char>,
>)
    requires
        0 <= n <= members.len(),
    ensures
        r is None ==> forall|i: int|
            0 <= i < n ==> (#[trigger] members[i]).info.disqualified(),
        r matches Some(t) ==> has_lineage(members, t) && forall|i: int|
            0 <= i < n && !(#[trigger] members[i]).info.disqualified() && tag_of(members[i]) != t
                ==> score_lt(
                score(members, disk_count, t),
                score(members, disk_count, tag_of(members[i])),
            ),
    decreases n,
{
    if n == 0 {
        None
    } else {
        let r = lemma_best_of_first(members, disk_count, n - 1);
        let m = members[n - 1];
        let tag = tag_of(m);
        if m.info.disqualified() {
            r
        } else {
            assert(of_lineage(members, tag, n - 1));
            match r {
                None => Some(tag),
                Some(t) => {
                    let st = score(members, disk_count, t);
                    let sm = score(members, disk_count, tag);
                    Score::total(st, sm);
                    if tag != t && score_lt(sm, st) {
                        assert forall|i: int|
                            0 <= i < n && !(#[trigger] members[i]).info.disqualified() && tag_of(
                                members[i],
                            ) != tag implies score_lt(
                            sm,
                            score(members, disk_count, tag_of(members[i])),
                        ) by {
                            if tag_of(members[i]) != t {
                                Score::transitive(
                                    sm,
                                    st,
                                    score(members, disk_count, tag_of(members[i])),
                                );
                            }
                        }
                        Some(tag)
                    } else {
                        Some(t)
                    }
                },
            }
        }
    }
}

/// Where some member qualifies, there is a primary lineage.
pub proof fn primary_lineage_exists(
    members: Seq<MemberFields>,
    disk_count: u32,
    other: Seq<char>,
) -> (tag: Seq<char>)
    requires
        has_lineage(members, other),
    ensures
        is_primary_lineage(members, disk_count, tag),
{
    let r = lemma_best_of_first(members, disk_count, members.len() as int);
    let k = choose|k: int| of_lineage(members, other, k);
    assert(!members[k].info.disqualified());
    let tag = r->0;
    assert forall|t: Seq<char>| #[trigger] has_lineage(members, t) && t != tag implies score_lt(
        score(members, disk_count, tag),
        score(members, disk_count, t),
    ) by {
        let i = choose|i: int| of_lineage(members, t, i);
        assert(!members[i].info.disqualified() && tag_of(members[i]) == t);
    }
    tag
}

/// Complete lineages come before partial ones, so where any lineage is complete,
/// the primary one is.
pub proof fn complete_lineage_wins(
    members: Seq<MemberFields>,
    disk_count: u32,
    tag: Seq<char>,
    other: Seq<char>,
)
    requires
        is_primary_lineage(members, disk_count, tag),
        has_lineage(members, other),
        is_complete(members, other, disk_count),
    ensures
        is_complete(members, tag, disk_count),
{
}

/// Among complete lineages the one with the fewest modifications wins, and among those
/// with as few the one whose tag comes first.
pub proof fn fewest_modifications_win(
    members: Seq<MemberFields>,
    disk_count: u32,
    tag: Seq<char>,
    other: Seq<char>,
)
    requires
        is_primary_lineage(members, disk_count, tag),
        has_lineage(members, other),
        is_complete(members, other, disk_count),
    ensures
        total_mods(members, tag) <= total_mods(members, other),
        total_mods(members, tag) == total_mods(members, other) && tag != other
            ==> crate::text::text_lt(tag, other),
{
}

/// The set of a lineage never mixes lineages, never holds a disqualified dump, and
/// has one member for each disk that the lineage covers and for no other; where the
/// lineage is complete that is every disk `1..=disk_count`.
pub proof fn primary_set_is_coherent(
    members: Seq<MemberFields>,
    disk_count: u32,
    tag: Seq<char>,
    set: Seq<usize>,
)
    requires
        is_primary_set(members, tag, set),
    ensures
        forall|k: int|
            0 <= k < set.len() ==> (#[trigger] set[k]) < members.len() && tag_of(
                members[set[k] as int],
            ) == tag && !members[set[k] as int].info.disqualified(),
        forall|d: u32| #[trigger] chooses_disk(members, set, d) <==> covers(members, tag, d),
        is_complete(members, tag, disk_count) ==> forall|d: u32|
            1 <= d <= disk_count ==> #[trigger] chooses_disk(members, set, d),
        set.len() == disk_set(members, tag).len(),
{
    assert forall|k: int| 0 <= k < set.len() implies (#[trigger] set[k]) < members.len() && tag_of(
        members[set[k] as int],
    ) == tag && !members[set[k] as int].info.disqualified() by {
        assert(is_disk_choice(members, tag, set[k] as int));
    }
    assert forall|d: u32| #[trigger] chooses_disk(members, set, d) <==> covers(members, tag, d) by {
        if chooses_disk(members, set, d) {
            let k = choose|k: int|
                0 <= k < set.len() && members[(#[trigger] set[k]) as int].disk_no == d;
            assert(is_disk_choice(members, tag, set[k] as int));
            assert(of_lineage(members, tag, set[k] as int));
        }
    }
    let d = Seq::new(set.len(), |k: int| members[set[k] as int].disk_no);
    assert(lists_disks(members, tag, d)) by {
        assert forall|i: int, j: int| 0 <= i < j < d.len() implies d[i] < d[j] by {
            assert(members[set[i] as int].disk_no < members[set[j] as int].disk_no);
        }
        assert forall|k: u32| #[trigger] d.contains(k) <==> covers(members, tag, k) by {
            assert(chooses_disk(members, set, k) <==> covers(members, tag, k));
            if d.contains(k) {
                let i = choose|i: int| 0 <= i < d.len() && d[i] == k;
                assert(members[set[i] as int].disk_no == k);
            }
            if chooses_disk(members, set, k) {
                let i = choose|i: int|
                    0 <= i < set.len() && members[(#[trigger] set[i]) as int].disk_no == k;
                assert(d[i] == k);
            }
        }
    }
    lemma_coverage(members, tag, d);
}

/// Whether a member counts for a lineage: nothing marks it bad, infected, overdumped or
/// underdumped, and its lineage is the tag; the empty tag is that of members without lineage.
pub open spec fn belongs(m: MemberFields, tag: Seq<char>) -> bool {
    &&& !m.info.bad && !m.info.virus && !m.info.over && !m.info.under
    &&& m.lineage == Some(tag) || m.lineage is None && tag.len() == 0
}

/// A member is of a lineage exactly where it counts for it.
proof fn lemma_belongs(members: Seq<MemberFields>, tag: Seq<char>, i: int)
    ensures
        of_lineage(members, tag, i) <==> 0 <= i < members.len() && belongs(members[i], tag),
{
    if tag.len() == 0 {
        assert(tag =~= Seq::<char>::empty());
    }
}

/// The modifications of a lineage add up: those of two sequences of members together are
/// those of the one and those of the other; one member that counts for the lineage adds its
/// own modifications, and any other adds none.
pub proof fn modifications_add_up(
    a: Seq<MemberFields>,
    b: Seq<MemberFields>,
    m: MemberFields,
    tag: Seq<char>,
)
    ensures
        total_mods(a + b, tag) == total_mods(a, tag) + total_mods(b, tag),
        belongs(m, tag) ==> total_mods(seq![m], tag) == m.info.modifications,
        !belongs(m, tag) ==> total_mods(seq![m], tag) == 0,
        total_mods(Seq::empty(), tag) == 0,
    decreases b.len(),
{
    let one = seq![m];
    lemma_belongs(one, tag, 0);
    assert(one.drop_last() =~= Seq::<MemberFields>::empty());
    reveal_with_fuel(total_mods, 2);
    if b.len() == 0 {
        assert(a + b =~= a);
    } else {
        let c = a + b;
        modifications_add_up(a, b.drop_last(), m, tag);
        assert(c.drop_last() =~= a + b.drop_last());
        assert(c.last() == b.last());
        lemma_belongs(c, tag, c.len() - 1);
        lemma_belongs(b, tag, b.len() - 1);
    }
}

/// A complete lineage with fewer modifications in all than another complete lineage is
/// never beaten by it: the other is not primary.
pub proof fn more_modifications_never_win(
    members: Seq<MemberFields>,
    disk_count: u32,
    tag: Seq<char>,
    other: Seq<char>,
)
    requires
        has_lineage(members, tag),
        has_lineage(members, other),
        is_complete(members, tag, disk_count),
        is_complete(members, other, disk_count),
        total_mods(members, tag) < total_mods(members, other),
    ensures
        score_lt(score(members, disk_count, tag), score(members, disk_count, other)),
        !score_lt(score(members, disk_count, other), score(members, disk_count, tag)),
        !is_primary_lineage(members, disk_count, other),
{
}

/// A lineage covers a disk exactly where a member that counts for it is that disk, and is
/// there at all where some member counts for it.
pub proof fn coverage_is_by_members(members: Seq<MemberFields>, tag: Seq<char>, d: u32)
    ensures
        covers(members, tag, d) <==> exists|i: int|
            0 <= i < members.len() && belongs(#[trigger] members[i], tag) && members[i].disk_no
                == d,
        disk_set(members, tag).contains(d) <==> covers(members, tag, d),
        has_lineage(members, tag) <==> exists|i: int|
            0 <= i < members.len() && belongs(#[trigger] members[i], tag),
{
    if covers(members, tag, d) {
        let i = choose|i: int| #[trigger] of_lineage(members, tag, i) && members[i].disk_no == d;
        lemma_belongs(members, tag, i);
        assert(belongs(members[i], tag));
    }
    if exists|i: int|
        0 <= i < members.len() && belongs(#[trigger] members[i], tag) && members[i].disk_no == d {
        let i = choose|i: int|
            0 <= i < members.len() && belongs(#[trigger] members[i], tag) && members[i].disk_no
                == d;
        lemma_belongs(members, tag, i);
        assert(of_lineage(members, tag, i));
    }
    if has_lineage(members, tag) {
        let i = choose|i: int| of_lineage(members, tag, i);
        lemma_belongs(members, tag, i);
        assert(belongs(members[i], tag));
    }
    if exists|i: int| 0 <= i < members.len() && belongs(#[trigger] members[i], tag) {
        let i = choose|i: int| 0 <= i < members.len() && belongs(#[trigger] members[i], tag);
        lemma_belongs(members, tag, i);
        assert(of_lineage(members, tag, i));
    }
}

/// A row of the coverage lists the disks of the members that count for its lineage, each
/// once and in order, and is complete exactly where these include every disk from 1 to the
/// disk count. The first row, and no other, is primary, and each lineage has one row.
pub proof fn coverage_rows_are_exact(
    members: Seq<MemberFields>,
    disk_count: u32,
    rows: Seq<LineageCoverage>,
    k: int,
)
    requires
        is_coverage(members, disk_count, rows),
        0 <= k < rows.len(),
    ensures
        forall|d: u32| #[trigger]
            rows[k].disks_covered@.contains(d) <==> exists|i: int|
                0 <= i < members.len() && belongs(#[trigger] members[i], row_tag(rows[k]))
                    && members[i].disk_no == d,
        forall|p: int, q: int|
            0 <= p < q < rows[k].disks_covered@.len() ==> rows[k].disks_covered@[p]
                < rows[k].disks_covered@[q],
        rows[k].complete <==> forall|d: u32|
            1 <= d <= disk_count ==> #[trigger] rows[k].disks_covered@.contains(d),
        rows[k].is_primary <==> k == 0,
        rows[k].lineage matches Some(t) ==> t@.len() > 0,
        forall|l: int| 0 <= l < rows.len() && l != k ==> row_tag(#[trigger] rows[l]) != row_tag(
            rows[k],
        ),
        forall|i: int|
            0 <= i < members.len() && !(#[trigger] members[i]).info.disqualified() ==> has_row(
                rows,
                tag_of(members[i]),
            ),
{
    let tag = row_tag(rows[k]);
    assert(is_coverage_row(members, disk_count, rows[k]));
    assert forall|d: u32| #[trigger] rows[k].disks_covered@.contains(d) <==> exists|i: int|
        0 <= i < members.len() && belongs(#[trigger] members[i], tag) && members[i].disk_no == d by {
        coverage_is_by_members(members, tag, d);
    }
    if forall|d: u32| 1 <= d <= disk_count ==> #[trigger] rows[k].disks_covered@.contains(d) {
        assert forall|d: u32| 1 <= d <= disk_count implies #[trigger] covers(members, tag, d) by {
            assert(rows[k].disks_covered@.contains(d));
        }
    }
    if rows[k].complete {
        assert forall|d: u32| 1 <= d <= disk_count implies #[trigger] rows[k].disks_covered@.contains(
            d,
        ) by {
            assert(covers(members, tag, d));
        }
    }
    assert forall|l: int| 0 <= l < rows.len() && l != k implies row_tag(#[trigger] rows[l])
        != tag by {
        let here = score(members, disk_count, tag);
        lemma_score_irreflexive(here);
        if l < k {
            assert(score_lt(score(members, disk_count, row_tag(rows[l])), here));
        } else {
            assert(score_lt(here, score(members, disk_count, row_tag(rows[l]))));
        }
    }
    assert forall|i: int|
        0 <= i < members.len() && !(#[trigger] members[i]).info.disqualified() implies has_row(
        rows,
        tag_of(members[i]),
    ) by {
        assert(of_lineage(members, tag_of(members[i]), i));
        assert(has_lineage(members, tag_of(members[i])));
    }
}

/// Where no lineage is complete, the one that covers most disks is primary; among those that
/// cover as many, the one with the fewest modifications, and then the one whose tag comes
/// first.
pub proof fn widest_partial_lineage_wins(
    members: Seq<MemberFields>,
    disk_count: u32,
    tag: Seq<char>,
    other: Seq<char>,
)
    requires
        is_primary_lineage(members, disk_count, tag),
        has_lineage(members, other),
        !is_complete(members, tag, disk_count),
        tag != other,
    ensures
        !is_complete(members, other, disk_count),
        disk_set(members, tag).len() >= disk_set(members, other).len(),
        disk_set(members, tag).len() == disk_set(members, other).len() ==> {
            ||| total_mods(members, tag) < total_mods(members, other)
            ||| total_mods(members, tag) == total_mods(members, other) && crate::text::text_lt(
                tag,
                other,
            )
        },
{
}

/// Whether a dump is clean: it is marked good, or nothing modifies it.
pub open spec fn clean(d: crate::edition::DumpFields) -> bool {
    d.verified_good || d.modifications == 0
}

/// Whether nothing marks a dump bad, infected, overdumped or underdumped.
pub open spec fn sound(d: crate::edition::DumpFields) -> bool {
    !d.bad && !d.virus && !d.over && !d.under
}

/// Whether the first of two dumps, each with its tie-break key, is at least as good as the
/// second: clean before modified, then fewer modifications, then no trainer before a trainer,
/// then the lower alternate, then the key that comes first.
pub open spec fn at_least_as_good(
    a: crate::edition::DumpFields,
    ta: Seq<char>,
    b: crate::edition::DumpFields,
    tb: Seq<char>,
) -> bool {
    &&& clean(b) ==> clean(a)
    &&& clean(a) == clean(b) ==> a.modifications <= b.modifications
    &&& clean(a) == clean(b) && a.modifications == b.modifications ==> {
        &&& b.trainer is None ==> a.trainer is None
        &&& a.trainer is Some == b.trainer is Some ==> a.alt_index <= b.alt_index
        &&& a.trainer is Some == b.trainer is Some && a.alt_index == b.alt_index
            ==> !crate::text::text_lt(tb, ta)
    }
}

/// The primary is sound, and at least as good as every sound variant; a sound variant that
/// comes before it is never as good.
pub proof fn primary_is_the_best(
    variants: Seq<(crate::edition::DumpFields, Seq<char>)>,
    i: int,
    j: int,
)
    requires
        is_primary_of(variants, i),
        0 <= j < variants.len(),
        sound(variants[j].0),
    ensures
        0 <= i < variants.len(),
        sound(variants[i].0),
        at_least_as_good(variants[i].0, variants[i].1, variants[j].0, variants[j].1),
        j < i ==> !at_least_as_good(variants[j].0, variants[j].1, variants[i].0, variants[i].1),
{
    assert(!variants[j].0.disqualified());
    assert(!variant_better(variants, j, i));
}

/// There is a primary exactly where some variant is sound.
pub proof fn primary_needs_a_sound_variant(
    variants: Seq<(crate::edition::DumpFields, Seq<char>)>,
    r: Option<usize>,
)
    requires
        is_choice(variants, r),
    ensures
        r is Some <==> exists|j: int| 0 <= j < variants.len() && sound((#[trigger] variants[j]).0),
{
    if exists|j: int| 0 <= j < variants.len() && sound((#[trigger] variants[j]).0) {
        let j = choose|j: int| 0 <= j < variants.len() && sound((#[trigger] variants[j]).0);
        assert(!variants[j].0.disqualified());
    }
    if let Some(i) = r {
        assert(sound(variants[i as int].0));
    }
}

/// Each disk of a lineage's set is the best of the members that count for the lineage on
/// that disk, and the set has one for each such disk, in the order of the disks.
pub proof fn set_holds_the_best_of_each_disk(
    members: Seq<MemberFields>,
    tag: Seq<char>,
    set: Seq<usize>,
    j: int,
)
    requires
        is_primary_set(members, tag, set),
        0 <= j < members.len(),
        belongs(members[j], tag),
    ensures
        exists|k: int|
            #![trigger set[k]]
            0 <= k < set.len() && set[k] < members.len() && ({
                let m = members[set[k] as int];
                &&& m.disk_no == members[j].disk_no
                &&& belongs(m, tag)
                &&& at_least_as_good(m.info, m.tiebreak, members[j].info, members[j].tiebreak)
            }),
        forall|k: int, l: int|
            0 <= k < l < set.len() ==> members[(#[trigger] set[k]) as int].disk_no
                < members[(#[trigger] set[l]) as int].disk_no,
        forall|k: int|
            0 <= k < set.len() ==> (#[trigger] set[k]) < members.len() && belongs(
                members[set[k] as int],
                tag,
            ),
{
    lemma_belongs(members, tag, j);
    assert(of_lineage(members, tag, j));
    assert(covers(members, tag, members[j].disk_no));
    assert(chooses_disk(members, set, members[j].disk_no));
    let k = choose|k: int|
        0 <= k < set.len() && members[(#[trigger] set[k]) as int].disk_no == members[j].disk_no;
    assert(is_disk_choice(members, tag, set[k] as int));
    assert(!member_better(members, j, set[k] as int));
    lemma_belongs(members, tag, set[k] as int);
    let m = members[set[k] as int];
    assert(at_least_as_good(m.info, m.tiebreak, members[j].info, members[j].tiebreak));
    assert forall|k: int| 0 <= k < set.len() implies (#[trigger] set[k]) < members.len() && belongs(
        members[set[k] as int],
        tag,
    ) by {
        assert(is_disk_choice(members, tag, set[k] as int));
        lemma_belongs(members, tag, set[k] as int);
    }
}

} // verus!
