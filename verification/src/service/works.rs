//! Works: everything that shares a title name.

use vstd::prelude::*;

use crate::order::group_by;
use crate::service::listing::SetView;
use crate::text::{same, trim_string};

verus! {

/// A Work: everything sharing a title name (the game release(s) and demos),
/// grouped at read time.
#[derive(Debug, Clone)]
pub struct WorkView {
    pub name: String,
    pub release_count: usize,
    pub game_count: usize,
    pub demo_count: usize,
    pub tool_count: usize,
    /// Work-level totals of each browse type class, summed across releases, so the
    /// card header can show summary chips without re-summing on the client.
    pub original_count: usize,
    pub cracked_count: usize,
    pub hacked_count: usize,
    pub releases: Vec<SetView>,
}

/// What a [`WorkView`] holds.
#[verifier::ext_equal]
pub struct WorkFields {
    pub name: Seq<char>,
    pub release_count: usize,
    pub game_count: usize,
    pub demo_count: usize,
    pub tool_count: usize,
    pub original_count: usize,
    pub cracked_count: usize,
    pub hacked_count: usize,
    pub releases: Seq<crate::service::listing::SetFields>,
}

impl View for WorkView {
    type V = WorkFields;

    open spec fn view(&self) -> WorkFields {
        WorkFields {
            name: self.name@,
            release_count: self.release_count,
            game_count: self.game_count,
            demo_count: self.demo_count,
            tool_count: self.tool_count,
            original_count: self.original_count,
            cracked_count: self.cracked_count,
            hacked_count: self.hacked_count,
            releases: crate::service::listing::set_views(self.releases@),
        }
    }
}

/// What works hold.
pub open spec fn work_views(w: Seq<WorkView>) -> Seq<WorkFields> {
    w.map_values(|x: WorkView| x@)
}

/// The names of works that releases belong to: their titles, trimmed.
pub open spec fn work_names() -> spec_fn(crate::service::listing::SetFields) -> Seq<char> {
    |s: crate::service::listing::SetFields| crate::text::trim(s.title)
}

/// Those of the releases that belong to a work, in order.
pub open spec fn of_work(
    sets: Seq<crate::service::listing::SetFields>,
    name: Seq<char>,
) -> Seq<crate::service::listing::SetFields> {
    crate::order::with_key(sets, work_names(), name)
}

/// How many releases are of one category.
pub open spec fn count_category(
    sets: Seq<crate::service::listing::SetFields>,
    category: Seq<char>,
) -> nat
    decreases sets.len(),
{
    if sets.len() == 0 {
        0
    } else {
        count_category(sets.drop_last(), category) + if sets.last().category == category {
            1nat
        } else {
            0nat
        }
    }
}

/// The lineages of releases by class, summed: original, cracked, hacked.
pub open spec fn class_sums(sets: Seq<crate::service::listing::SetFields>) -> (nat, nat, nat)
    decreases sets.len(),
{
    if sets.len() == 0 {
        (0, 0, 0)
    } else {
        let rest = class_sums(sets.drop_last());
        let s = sets.last();
        (
            rest.0 + s.original_count as nat,
            rest.1 + s.cracked_count as nat,
            rest.2 + s.hacked_count as nat,
        )
    }
}

/// Whether sums are in the range of a count.
pub open spec fn sums_fit(sums: (nat, nat, nat)) -> bool {
    sums.0 <= usize::MAX && sums.1 <= usize::MAX && sums.2 <= usize::MAX
}

/// Whether the sums of every work are in the range of a count.
pub open spec fn works_fit(sets: Seq<crate::service::listing::SetFields>) -> bool {
    forall|j: int|
        0 <= j < sets.len() ==> sums_fit(
            class_sums(of_work(sets, crate::text::trim((#[trigger] sets[j]).title))),
        )
}

/// Whether this is the work of a name.
pub open spec fn is_work(sets: Seq<crate::service::listing::SetFields>, w: WorkFields) -> bool {
    &&& w.releases == of_work(sets, w.name)
    &&& w.releases.len() > 0
    &&& w.release_count == w.releases.len()
    &&& w.game_count == count_category(w.releases, "game"@)
    &&& w.demo_count == count_category(w.releases, "demo"@)
    &&& w.tool_count == count_category(w.releases, "tool"@)
    &&& w.original_count == class_sums(w.releases).0
    &&& w.cracked_count == class_sums(w.releases).1
    &&& w.hacked_count == class_sums(w.releases).2
}

/// Whether one of the works has this name.
pub open spec fn has_work(works: Seq<WorkFields>, name: Seq<char>) -> bool {
    exists|g: int| 0 <= g < works.len() && (#[trigger] works[g]).name == name
}

/// Whether these are the works that releases belong to, by name.
pub open spec fn are_works(
    sets: Seq<crate::service::listing::SetFields>,
    works: Seq<WorkFields>,
) -> bool {
    &&& forall|g: int| 0 <= g < works.len() ==> is_work(sets, #[trigger] works[g])
    &&& forall|g: int, h: int|
        0 <= g < h < works.len() ==> crate::text::text_lt(
            (#[trigger] works[g]).name,
            (#[trigger] works[h]).name,
        )
    &&& forall|j: int|
        0 <= j < sets.len() ==> has_work(works, crate::text::trim((#[trigger] sets[j]).title))
}

/// How many releases are of one category.
fn count_of(sets: &[SetView], category: &str) -> (r: usize)
    ensures
        r == count_category(crate::service::listing::set_views(sets@), category@),
{
    let ghost sv = crate::service::listing::set_views(sets@);
    let mut count: usize = 0;
    let mut n: usize = 0;
    assert(sv.take(0) =~= Seq::empty());
    while n < sets.len()
        invariant
            n <= sets@.len(),
            sv == crate::service::listing::set_views(sets@),
            count == count_category(sv.take(n as int), category@),
            count <= n,
        decreases sets@.len() - n,
    {
        proof {
            assert(sv.take(n + 1).drop_last() =~= sv.take(n as int));
            assert(sv[n as int] == sets@[n as int]@);
        }
        let total = sets.len();
        if same(&sets[n].category, category) {
            count += 1;
        }
        n += 1;
    }
    assert(sv.take(n as int) =~= sv);
    count
}

/// Sums only grow.
proof fn lemma_sums_grow(sets: Seq<crate::service::listing::SetFields>, k: int)
    requires
        0 <= k <= sets.len(),
    ensures
        class_sums(sets.take(k)).0 <= class_sums(sets).0,
        class_sums(sets.take(k)).1 <= class_sums(sets).1,
        class_sums(sets.take(k)).2 <= class_sums(sets).2,
    decreases sets.len() - k,
{
    if k < sets.len() {
        lemma_sums_grow(sets, k + 1);
        assert(sets.take(k + 1).drop_last() =~= sets.take(k));
    } else {
        assert(sets.take(k) =~= sets);
    }
}

/// The lineages of releases by class, summed.
fn sum_classes(sets: &[SetView]) -> (r: (usize, usize, usize))
    requires
        sums_fit(class_sums(crate::service::listing::set_views(sets@))),
    ensures
        r.0 == class_sums(crate::service::listing::set_views(sets@)).0,
        r.1 == class_sums(crate::service::listing::set_views(sets@)).1,
        r.2 == class_sums(crate::service::listing::set_views(sets@)).2,
{
    let ghost sv = crate::service::listing::set_views(sets@);
    let mut a: usize = 0;
    let mut b: usize = 0;
    let mut c: usize = 0;
    let mut n: usize = 0;
    assert(sv.take(0) =~= Seq::empty());
    while n < sets.len()
        invariant
            n <= sets@.len(),
            sv == crate::service::listing::set_views(sets@),
            sums_fit(class_sums(sv)),
            class_sums(sv.take(n as int)) == (a as nat, b as nat, c as nat),
        decreases sets@.len() - n,
    {
        proof {
            assert(sv.take(n + 1).drop_last() =~= sv.take(n as int));
            assert(sv[n as int] == sets@[n as int]@);
            lemma_sums_grow(sv, n + 1);
        }
        a += sets[n].original_count;
        b += sets[n].cracked_count;
        c += sets[n].hacked_count;
        n += 1;
    }
    assert(sv.take(n as int) =~= sv);
    (a, b, c)
}

/// Whether the sums of these releases are in the range of a count.
fn sums_in_range(sets: &[SetView]) -> (r: bool)
    ensures
        r == sums_fit(class_sums(crate::service::listing::set_views(sets@))),
{
    let ghost sv = crate::service::listing::set_views(sets@);
    let mut a: usize = 0;
    let mut b: usize = 0;
    let mut c: usize = 0;
    let mut n: usize = 0;
    assert(sv.take(0) =~= Seq::empty());
    while n < sets.len()
        invariant
            n <= sets@.len(),
            sv == crate::service::listing::set_views(sets@),
            class_sums(sv.take(n as int)) == (a as nat, b as nat, c as nat),
        decreases sets@.len() - n,
    {
        proof {
            assert(sv.take(n + 1).drop_last() =~= sv.take(n as int));
            assert(sv[n as int] == sets@[n as int]@);
            lemma_sums_grow(sv, n + 1);
        }
        let s = &sets[n];
        match (
            a.checked_add(s.original_count),
            b.checked_add(s.cracked_count),
            c.checked_add(s.hacked_count),
        ) {
            (Some(x), Some(y), Some(z)) => {
                a = x;
                b = y;
                c = z;
            },
            _ => {
                return false;
            },
        }
        n += 1;
    }
    assert(sv.take(n as int) =~= sv);
    true
}

/// The positions of releases, grouped by the work they belong to.
fn work_groups(sets: &[SetView]) -> (r: (Vec<Option<String>>, Vec<Vec<usize>>))
    ensures
        (r.0)@.len() == sets@.len(),
        forall|j: int|
            0 <= j < sets@.len() ==> (#[trigger] (r.0)@[j]) is Some && (r.0)@[j]->0@
                == crate::text::trim(sets@[j].title@),
        crate::order::is_grouping((r.0)@, (r.1)@),
{
    let mut keys: Vec<Option<String>> = Vec::new();
    let mut n: usize = 0;
    while n < sets.len()
        invariant
            n <= sets@.len(),
            keys@.len() == n,
            forall|j: int|
                0 <= j < n ==> (#[trigger] keys@[j]) is Some && keys@[j]->0@ == crate::text::trim(
                    sets@[j].title@,
                ),
        decreases sets@.len() - n,
    {
        keys.push(Some(trim_string(&sets[n].title)));
        n += 1;
    }
    let groups = group_by(&keys);
    (keys, groups)
}

/// A group of positions picks out the releases of its work.
proof fn lemma_group_is_work(
    sets: Seq<crate::service::listing::SetFields>,
    keys: Seq<Option<String>>,
    groups: Seq<Vec<usize>>,
    g: int,
)
    requires
        sets.len() <= usize::MAX,
        keys.len() == sets.len(),
        forall|j: int|
            0 <= j < keys.len() ==> (#[trigger] keys[j]) is Some && keys[j]->0@
                == crate::text::trim(sets[j].title),
        crate::order::is_grouping(keys, groups),
        0 <= g < groups.len(),
    ensures
        of_work(sets, crate::order::group_key(keys, groups[g]@)) == Seq::new(
            groups[g]@.len(),
            |i: int| sets[groups[g]@[i] as int],
        ),
{
    let p = groups[g]@;
    let name = crate::order::group_key(keys, p);
    assert(crate::order::is_group(keys, p));
    assert forall|i: int| 0 <= i < p.len() implies (#[trigger] p[i]) < sets.len()
        && work_names()(sets[p[i] as int]) == name by {
        assert(keys[p[i] as int] is Some);
    }
    assert forall|k: usize|
        k < sets.len() && work_names()(#[trigger] sets[k as int]) == name implies p.contains(k) by {
        assert(keys[k as int] is Some);
        let i = crate::order::lemma_in_group(keys, groups, g, k as int);
        assert(p[i] == k);
    }
    crate::order::lemma_with_key(sets, work_names(), name, p);
}

/// Releases picked by position.
fn pick(sets: &[SetView], picked: &[usize]) -> (r: Vec<SetView>)
    requires
        forall|i: int| 0 <= i < picked@.len() ==> (#[trigger] picked@[i]) < sets@.len(),
    ensures
        crate::service::listing::set_views(r@) == Seq::new(
            picked@.len(),
            |i: int| crate::service::listing::set_views(sets@)[picked@[i] as int],
        ),
{
    let mut r: Vec<SetView> = Vec::new();
    let mut i: usize = 0;
    while i < picked.len()
        invariant
            i <= picked@.len(),
            forall|k: int| 0 <= k < picked@.len() ==> (#[trigger] picked@[k]) < sets@.len(),
            r@.len() == i,
            forall|k: int| 0 <= k < i ==> (#[trigger] r@[k])@ == sets@[picked@[k] as int]@,
        decreases picked@.len() - i,
    {
        assert(picked@[i as int] < sets@.len());
        r.push(sets[picked[i]].copy());
        i += 1;
    }
    assert(crate::service::listing::set_views(r@) =~= Seq::new(
        picked@.len(),
        |i: int| crate::service::listing::set_views(sets@)[picked@[i] as int],
    ));
    r
}

/// Whether the works of releases can be summed up.
pub fn totals_fit(sets: &[SetView]) -> (r: bool)
    ensures
        r == works_fit(crate::service::listing::set_views(sets@)),
{
    let ghost sv = crate::service::listing::set_views(sets@);
    let (keys, groups) = work_groups(sets);
    let total = sets.len();
    proof {
        assert forall|j: int| 0 <= j < keys@.len() implies (#[trigger] keys@[j]) is Some
            && keys@[j]->0@ == crate::text::trim(sv[j].title) by {}
    }
    let mut g: usize = 0;
    while g < groups.len()
        invariant
            g <= groups@.len(),
            total == sets@.len(),
            sv == crate::service::listing::set_views(sets@),
            keys@.len() == sv.len(),
            forall|j: int|
                0 <= j < keys@.len() ==> (#[trigger] keys@[j]) is Some && keys@[j]->0@
                    == crate::text::trim(sv[j].title),
            crate::order::is_grouping(keys@, groups@),
            forall|h: int|
                0 <= h < g ==> sums_fit(
                    class_sums(
                        of_work(sv, crate::order::group_key(keys@, (#[trigger] groups@[h])@)),
                    ),
                ),
        decreases groups@.len() - g,
    {
        proof {
            lemma_group_is_work(sv, keys@, groups@, g as int);
            assert(crate::order::is_group(keys@, groups@[g as int]@));
        }
        let releases = pick(sets, &groups[g]);
        if !sums_in_range(&releases) {
            proof {
                let first = groups@[g as int]@[0] as int;
                assert(first < keys@.len());
                assert(crate::text::trim(sv[first].title) == crate::order::group_key(
                    keys@,
                    groups@[g as int]@,
                ));
            }
            return false;
        }
        g += 1;
    }
    proof {
        assert forall|j: int| 0 <= j < sv.len() implies sums_fit(
            class_sums(of_work(sv, crate::text::trim((#[trigger] sv[j]).title))),
        ) by {
            assert(keys@[j] is Some);
            assert(crate::order::grouped(groups@, j));
            let (h, i) = choose|h: int, i: int|
                0 <= h < groups@.len() && 0 <= i < groups@[h]@.len() && #[trigger] groups@[h]@[i]
                    == j;
            assert(crate::order::is_group(keys@, groups@[h]@));
            assert(groups@[h]@[i] < keys@.len());
        }
    }
    true
}

/// Group releases into Works by title name (across category).
pub fn list_works(sets: &[SetView]) -> (works: Vec<WorkView>)
    requires
        works_fit(crate::service::listing::set_views(sets@)),
    ensures
        are_works(crate::service::listing::set_views(sets@), work_views(works@)),
{
    let ghost sv = crate::service::listing::set_views(sets@);
    let (keys, groups) = work_groups(sets);
    let total = sets.len();
    let mut works: Vec<WorkView> = Vec::new();
    let mut g: usize = 0;
    proof {
        assert forall|j: int| 0 <= j < keys@.len() implies (#[trigger] keys@[j]) is Some
            && keys@[j]->0@ == crate::text::trim(sv[j].title) by {}
    }
    while g < groups.len()
        invariant
            g <= groups@.len(),
            total == sets@.len(),
            sv == crate::service::listing::set_views(sets@),
            works_fit(sv),
            keys@.len() == sv.len(),
            forall|j: int|
                0 <= j < keys@.len() ==> (#[trigger] keys@[j]) is Some && keys@[j]->0@
                    == crate::text::trim(sv[j].title),
            crate::order::is_grouping(keys@, groups@),
            works@.len() == g,
            forall|h: int|
                0 <= h < g ==> is_work(sv, (#[trigger] works@[h])@) && works@[h]@.name
                    == crate::order::group_key(keys@, groups@[h]@),
        decreases groups@.len() - g,
    {
        let ghost p = groups@[g as int]@;
        proof {
            lemma_group_is_work(sv, keys@, groups@, g as int);
            assert(crate::order::is_group(keys@, p));
            assert(p[0] < keys@.len());
            assert(keys@[p[0] as int] is Some);
            assert(sums_fit(class_sums(of_work(sv, crate::text::trim(sv[p[0] as int].title)))));
        }
        let releases = pick(sets, &groups[g]);
        assert(crate::service::listing::set_views(releases@) =~= of_work(
            sv,
            crate::order::group_key(keys@, p),
        ));
        let name = trim_string(&sets[groups[g][0]].title);
        let (original_count, cracked_count, hacked_count) = sum_classes(&releases);
        works.push(
            WorkView {
                name,
                release_count: releases.len(),
                game_count: count_of(&releases, "game"),
                demo_count: count_of(&releases, "demo"),
                tool_count: count_of(&releases, "tool"),
                original_count,
                cracked_count,
                hacked_count,
                releases,
            },
        );
        g += 1;
    }
    proof {
        let wv = work_views(works@);
        assert forall|g: int, h: int| 0 <= g < h < wv.len() implies crate::text::text_lt(
            (#[trigger] wv[g]).name,
            (#[trigger] wv[h]).name,
        ) by {
            assert(works@[g]@.name == crate::order::group_key(keys@, groups@[g]@));
            assert(works@[h]@.name == crate::order::group_key(keys@, groups@[h]@));
            assert(crate::order::key_lt::<String>(
                crate::order::group_key(keys@, groups@[g]@),
                crate::order::group_key(keys@, groups@[h]@),
            ));
        }
        assert forall|j: int| 0 <= j < sv.len() implies has_work(
            wv,
            crate::text::trim((#[trigger] sv[j]).title),
        ) by {
            assert(keys@[j] is Some);
            assert(crate::order::grouped(groups@, j));
            let (h, i) = choose|h: int, i: int|
                0 <= h < groups@.len() && 0 <= i < groups@[h]@.len() && #[trigger] groups@[h]@[i]
                    == j;
            assert(crate::order::is_group(keys@, groups@[h]@));
            assert(groups@[h]@[i] < keys@.len());
            assert(wv[h] == works@[h]@);
        }
    }
    works
}

// --- Laws -------------------------------------------------------------------

/// Every release belongs to one work, whatever its category.
pub proof fn release_belongs_to_its_work(
    sets: Seq<crate::service::listing::SetFields>,
    works: Seq<WorkFields>,
    j: int,
) -> (g: int)
    requires
        are_works(sets, works),
        0 <= j < sets.len(),
    ensures
        0 <= g < works.len(),
        works[g].releases.contains(sets[j]),
        forall|h: int|
            0 <= h < works.len() && h != g ==> !(#[trigger] works[h]).releases.contains(sets[j]),
{
    let name = crate::text::trim(sets[j].title);
    assert(has_work(works, name));
    let g = choose|g: int| 0 <= g < works.len() && (#[trigger] works[g]).name == name;
    assert(is_work(sets, works[g]));
    let i = crate::order::lemma_with_key_has(sets, work_names(), name, j);
    assert(works[g].releases[i] == sets[j]);
    assert forall|h: int| 0 <= h < works.len() && h != g implies !(
    #[trigger] works[h]).releases.contains(sets[j]) by {
        if works[h].releases.contains(sets[j]) {
            assert(is_work(sets, works[h]));
            crate::order::lemma_with_key_only(sets, work_names(), works[h].name);
            let k = choose|k: int|
                0 <= k < works[h].releases.len() && works[h].releases[k] == sets[j];
            assert(work_names()(works[h].releases[k]) == works[h].name);
            if g < h {
                crate::text::lemma_text_lt_asym(works[g].name, works[h].name);
            } else {
                crate::text::lemma_text_lt_asym(works[h].name, works[g].name);
            }
        }
    }
    g
}

/// The class totals of releases add up: those of two sequences of releases together are those
/// of the one and those of the other, class by class, and those of one release are its own
/// three counts.
pub proof fn class_totals_add_up(
    a: Seq<crate::service::listing::SetFields>,
    b: Seq<crate::service::listing::SetFields>,
    s: crate::service::listing::SetFields,
)
    ensures
        class_sums(a + b).0 == class_sums(a).0 + class_sums(b).0,
        class_sums(a + b).1 == class_sums(a).1 + class_sums(b).1,
        class_sums(a + b).2 == class_sums(a).2 + class_sums(b).2,
        class_sums(seq![s]).0 == s.original_count,
        class_sums(seq![s]).1 == s.cracked_count,
        class_sums(seq![s]).2 == s.hacked_count,
        class_sums(Seq::empty()) == (0nat, 0nat, 0nat),
    decreases b.len(),
{
    assert(seq![s].drop_last() =~= Seq::<crate::service::listing::SetFields>::empty());
    reveal_with_fuel(class_sums, 2);
    if b.len() == 0 {
        assert(a + b =~= a);
    } else {
        class_totals_add_up(a, b.drop_last(), s);
        assert((a + b).drop_last() =~= a + b.drop_last());
        assert((a + b).last() == b.last());
    }
}

/// The releases of a category add up, and one release counts exactly where it is of the
/// category.
pub proof fn category_counts_add_up(
    a: Seq<crate::service::listing::SetFields>,
    b: Seq<crate::service::listing::SetFields>,
    s: crate::service::listing::SetFields,
    category: Seq<char>,
)
    ensures
        count_category(a + b, category) == count_category(a, category) + count_category(
            b,
            category,
        ),
        s.category == category ==> count_category(seq![s], category) == 1,
        s.category != category ==> count_category(seq![s], category) == 0,
        count_category(Seq::empty(), category) == 0,
    decreases b.len(),
{
    assert(seq![s].drop_last() =~= Seq::<crate::service::listing::SetFields>::empty());
    reveal_with_fuel(count_category, 2);
    if b.len() == 0 {
        assert(a + b =~= a);
    } else {
        category_counts_add_up(a, b.drop_last(), s, category);
        assert((a + b).drop_last() =~= a + b.drop_last());
        assert((a + b).last() == b.last());
    }
}

/// A work holds the releases whose trimmed title is its name, and no others; it counts them,
/// and counts its games, demos and tools, and its original, cracked and hacked lineages, over
/// them. Works come in the order of their names, each name once.
pub proof fn work_counts_its_releases(
    sets: Seq<crate::service::listing::SetFields>,
    works: Seq<WorkFields>,
    g: int,
)
    requires
        are_works(sets, works),
        0 <= g < works.len(),
    ensures
        works[g].releases.len() > 0,
        works[g].release_count == works[g].releases.len(),
        forall|s: crate::service::listing::SetFields| #[trigger]
            works[g].releases.contains(s) <==> sets.contains(s) && crate::text::trim(s.title)
                == works[g].name,
        works[g].game_count == count_category(works[g].releases, "game"@),
        works[g].demo_count == count_category(works[g].releases, "demo"@),
        works[g].tool_count == count_category(works[g].releases, "tool"@),
        works[g].original_count == class_sums(works[g].releases).0,
        works[g].cracked_count == class_sums(works[g].releases).1,
        works[g].hacked_count == class_sums(works[g].releases).2,
        forall|h: int|
            g < h < works.len() ==> crate::text::text_lt(works[g].name, (#[trigger] works[h]).name),
{
    let name = works[g].name;
    assert(is_work(sets, works[g]));
    crate::order::lemma_with_key_only(sets, work_names(), name);
    assert forall|s: crate::service::listing::SetFields| #[trigger]
        works[g].releases.contains(s) <==> sets.contains(s) && crate::text::trim(s.title)
            == name by {
        if works[g].releases.contains(s) {
            let k = choose|k: int| 0 <= k < works[g].releases.len() && works[g].releases[k] == s;
            assert(work_names()(works[g].releases[k]) == name);
            lemma_of_work_within(sets, name, k);
        }
        if sets.contains(s) && crate::text::trim(s.title) == name {
            let j = choose|j: int| 0 <= j < sets.len() && sets[j] == s;
            assert(work_names()(sets[j]) == name);
            let i = crate::order::lemma_with_key_has(sets, work_names(), name, j);
            assert(works[g].releases[i] == s);
        }
    }
}

/// The releases of a work are among all releases.
proof fn lemma_of_work_within(
    sets: Seq<crate::service::listing::SetFields>,
    name: Seq<char>,
    k: int,
)
    requires
        0 <= k < of_work(sets, name).len(),
    ensures
        sets.contains(of_work(sets, name)[k]),
    decreases sets.len(),
{
    let init = sets.drop_last();
    let rest = of_work(init, name);
    let s = of_work(sets, name)[k];
    if k < rest.len() {
        lemma_of_work_within(init, name, k);
        let j = choose|j: int| 0 <= j < init.len() && init[j] == rest[k];
        assert(sets[j] == s);
    } else {
        assert(sets[sets.len() - 1] == s);
    }
}

/// The works of two lists of releases together hold, for each name, the releases of the one
/// and then those of the other; one release is held exactly where its trimmed title is the
/// name.
pub proof fn works_join(
    a: Seq<crate::service::listing::SetFields>,
    b: Seq<crate::service::listing::SetFields>,
    s: crate::service::listing::SetFields,
    name: Seq<char>,
)
    ensures
        of_work(a + b, name) == of_work(a, name) + of_work(b, name),
        crate::text::trim(s.title) == name ==> of_work(seq![s], name) == seq![s],
        crate::text::trim(s.title) != name ==> of_work(seq![s], name).len() == 0,
{
    crate::order::picking_by_key_is_itemwise(a, b, s, work_names(), name);
}

} // verus!
