//! Re-identification: re-grouping artifacts from their retained names.

use vstd::prelude::*;

use crate::edition::{edition_key, infer_category, Category, EditionKey};
use crate::naming::parse_tosec;
use crate::text::{as_str_opt, same};

verus! {

/// The result of a re-identification pass.
#[derive(Debug, Clone, PartialEq, Eq)]
pub struct ReidentifyReport {
    pub scanned: usize,
    pub moved: usize,
    pub editions_removed: usize,
    pub titles_removed: usize,
}

/// The category of an artifact, given its name's qualifier and its current category.
/// The name only gives a definitive demo signal, so it only upgrades to demo.
pub open spec fn kept_category(
    qualifier: Option<Seq<char>>,
    current: Option<Seq<char>>,
) -> Category {
    if crate::edition::category_of(qualifier, None) is Demo {
        Category::Demo
    } else if current == Some("tool"@) {
        Category::Tool
    } else if current == Some("demo"@) {
        Category::Demo
    } else {
        Category::Game
    }
}

/// Where an artifact belongs, by its retained name and its current category; nothing
/// where the name cannot be parsed.
pub open spec fn target_of(name: Seq<char>, current: Option<Seq<char>>) -> Option<
    (Category, crate::edition::KeyFields),
> {
    match crate::naming::tosec(name) {
        None => None,
        Some(n) => Some((kept_category(n.qualifier, current), crate::edition::key_of(n))),
    }
}

/// What an optional target holds.
pub open spec fn target_view(t: Option<(Category, EditionKey)>) -> Option<
    (Category, crate::edition::KeyFields),
> {
    match t {
        Some(x) => Some((x.0, x.1@)),
        None => None,
    }
}

/// Find where an artifact belongs, by its retained name and its current category.
///
/// The DAT-source signal used at ingest isn't stored per artifact. So the name only
/// *upgrades* to demo, and otherwise the artifact's current category is preserved
/// rather than downgrading a DAT-classified tool/demo to game.
pub fn reidentify_target(tosec_name: &str, current: Option<&str>) -> (r: Option<
    (Category, EditionKey),
>)
    ensures
        target_view(r) == target_of(tosec_name@, crate::text::opt_str_view(current)),
{
    match parse_tosec(tosec_name) {
        None => None,
        Some(parsed) => {
            let category = match infer_category(as_str_opt(&parsed.qualifier), None) {
                Category::Demo => Category::Demo,
                _ => match current {
                    Some(c) => {
                        if same(c, "tool") {
                            Category::Tool
                        } else if same(c, "demo") {
                            Category::Demo
                        } else {
                            Category::Game
                        }
                    },
                    None => Category::Game,
                },
            };
            Some((category, edition_key(&parsed)))
        },
    }
}

/// Whether `s` is ascending.
pub open spec fn ascends(s: Seq<i64>) -> bool {
    forall|i: int, j: int| 0 <= i < j < s.len() ==> s[i] < s[j]
}

/// A re-identification pass so far: how many artifacts moved, and the Editions that
/// they left and joined, ascending, whose primaries have to be recomputed.
#[derive(Debug, Clone, PartialEq, Eq)]
pub struct Reidentify {
    pub moved: usize,
    pub affected: Vec<i64>,
}

/// Put a number among ascending ones, unless it stands there already.
fn insert_once(s: &mut Vec<i64>, x: i64)
    requires
        ascends(old(s)@),
    ensures
        ascends(final(s)@),
        forall|y: i64| #[trigger] final(s)@.contains(y) <==> old(s)@.contains(y) || y == x,
{
    let ghost had = s@;
    let mut p: usize = 0;
    while p < s.len() && s[p] < x
        invariant
            p <= s@.len(),
            s@ == had,
            ascends(had),
            forall|i: int| 0 <= i < p ==> had[i] < x,
        decreases s@.len() - p,
    {
        p += 1;
    }
    if p < s.len() && s[p] == x {
        assert(had[p as int] == x);
        return;
    }
    s.insert(p, x);
    proof {
        let now = s@;
        assert forall|i: int| 0 <= i < now.len() implies #[trigger] now[i] == (if i < p {
            had[i]
        } else if i == p {
            x
        } else {
            had[i - 1]
        }) by {}
        assert forall|i: int, j: int| 0 <= i < j < now.len() implies now[i] < now[j] by {
            if i >= p {
                if p < had.len() {
                    assert(x < had[p as int]);
                }
            }
        }
        assert forall|y: i64| #[trigger] now.contains(y) <==> had.contains(y) || y == x by {
            if now.contains(y) {
                let i = choose|i: int| 0 <= i < now.len() && now[i] == y;
                if i < p {
                    assert(had[i] == y);
                } else if i > p {
                    assert(had[i - 1] == y);
                }
            }
            if had.contains(y) {
                let i = choose|i: int| 0 <= i < had.len() && had[i] == y;
                if i < p {
                    assert(now[i] == y);
                } else {
                    assert(now[i + 1] == y);
                }
            }
            if y == x {
                assert(now[p as int] == y);
            }
        }
    }
}

/// Whether an artifact that is of Edition `current` has to be moved to `target`.
pub open spec fn has_to_move(current: Option<i64>, target: i64) -> bool {
    current != Some(target)
}

/// Whether `after` is a pass that has taken in, after `before`, an artifact that is of
/// Edition `current` and belongs to `target`.
pub open spec fn has_placed(
    before: Reidentify,
    current: Option<i64>,
    target: i64,
    after: Reidentify,
) -> bool {
    if has_to_move(current, target) {
        after.moved == before.moved + 1 && forall|e: i64| #[trigger]
            after.affected@.contains(e) <==> before.affected@.contains(e) || e == target || current
                == Some(e)
    } else {
        after == before
    }
}

impl Reidentify {
    /// Whether the Editions that are affected ascend.
    pub open spec fn wf(self) -> bool {
        ascends(self.affected@)
    }

    /// A pass that has moved nothing.
    pub fn new() -> (r: Reidentify)
        ensures
            r.wf(),
            r.moved == 0,
            r.affected@.len() == 0,
    {
        Reidentify { moved: 0, affected: Vec::new() }
    }

    /// Take in an artifact that is of Edition `current` and belongs to `target`: whether
    /// it has to be moved there.
    pub fn place(&mut self, current: Option<i64>, target: i64) -> (moves: bool)
        requires
            old(self).wf(),
            old(self).moved < usize::MAX,
        ensures
            final(self).wf(),
            moves == has_to_move(current, target),
            has_placed(*old(self), current, target, *final(self)),
    {
        let stays = match current {
            Some(c) => c == target,
            None => false,
        };
        if stays {
            return false;
        }
        if let Some(c) = current {
            insert_once(&mut self.affected, c);
        }
        insert_once(&mut self.affected, target);
        self.moved = self.moved + 1;
        true
    }

    /// The report of this pass.
    pub fn report(&self, scanned: usize, editions_removed: usize, titles_removed: usize) -> (r:
        ReidentifyReport)
        ensures
            r.scanned == scanned,
            r.moved == self.moved,
            r.editions_removed == editions_removed,
            r.titles_removed == titles_removed,
    {
        ReidentifyReport { scanned, moved: self.moved, editions_removed, titles_removed }
    }
}

// --- Laws -------------------------------------------------------------------

/// The categories are stored as different texts.
proof fn lemma_categories_differ()
    ensures
        "tool"@ != "demo"@,
        "tool"@ != "game"@,
        "demo"@ != "game"@,
{
    reveal_strlit("tool");
    reveal_strlit("demo");
    reveal_strlit("game");
    assert("tool"@[0] == 't' && "demo"@[0] == 'd' && "game"@[0] == 'g');
}

/// An artifact that was moved where it belongs belongs there still: a second pass finds the
/// same Edition of the same Title for it.
pub proof fn second_pass_finds_the_same_target(name: Seq<char>, current: Option<Seq<char>>)
    requires
        target_of(name, current) is Some,
    ensures
        ({
            let t = target_of(name, current)->0;
            target_of(name, Some(crate::edition::category_label(t.0))) == Some(t)
        }),
{
    lemma_categories_differ();
}

/// A pass never downgrades: a tool or a demo stays what it is unless the name says
/// that it is a demo.
pub proof fn categories_are_preserved(name: Seq<char>, current: Seq<char>)
    requires
        target_of(name, Some(current)) is Some,
        current == "tool"@ || current == "demo"@,
    ensures
        crate::edition::category_label((target_of(name, Some(current))->0).0) == current
            || (target_of(name, Some(current))->0).0 is Demo,
{
    lemma_categories_differ();
}

// --- A whole pass -----------------------------------------------------------

/// What a pass reads and writes of an artifact: its retained name and its Edition.
#[verifier::ext_equal]
pub struct ArtifactFields {
    pub name: Option<Seq<char>>,
    pub edition: Option<i64>,
}

/// What a pass works on: the Titles, the Editions and the artifacts.
#[verifier::ext_equal]
pub struct Holdings {
    pub titles: Seq<crate::catalog::TitleRowFields>,
    pub editions: Seq<crate::catalog::EditionRowFields>,
    pub artifacts: Seq<ArtifactFields>,
}

/// The category of the Title that an Edition belongs to, if any.
pub open spec fn edition_category(h: Holdings, edition: Option<i64>) -> Option<Seq<char>> {
    match edition {
        None => None,
        Some(e) => match crate::catalog::row_of(h.editions, e) {
            None => None,
            Some(row) => match crate::catalog::title_row_of(h.titles, row.title_id) {
                None => None,
                Some(t) => Some(t.category),
            },
        },
    }
}

/// The category of the Title that an artifact belongs to, if any.
pub open spec fn category_at(h: Holdings, i: int) -> Option<Seq<char>> {
    edition_category(h, h.artifacts[i].edition)
}

/// Where an artifact belongs; nothing where it has no name that can be parsed.
pub open spec fn target_at(h: Holdings, i: int) -> Option<(Category, crate::edition::KeyFields)> {
    match h.artifacts[i].name {
        None => None,
        Some(name) => target_of(name, category_at(h, i)),
    }
}

/// Whether `after` are the Titles once there is one of this name and category: it is
/// inserted, under an id of its own, where there was none.
pub open spec fn with_title(
    before: Seq<crate::catalog::TitleRowFields>,
    name: Seq<char>,
    category: Seq<char>,
    after: Seq<crate::catalog::TitleRowFields>,
) -> bool {
    if crate::catalog::title_of(before, name, category) is Some {
        after == before
    } else {
        &&& after.len() > 0
        &&& after.drop_last() == before
        &&& after.last().name == name
        &&& after.last().category == category
        &&& forall|k: int| 0 <= k < before.len() ==> (#[trigger] before[k]).id != after.last().id
    }
}

/// Whether `after` are the Editions once there is one of this Title with this key: it is
/// inserted, under an id of its own, where there was none.
pub open spec fn with_edition(
    before: Seq<crate::catalog::EditionRowFields>,
    title_id: i64,
    key: crate::edition::KeyFields,
    after: Seq<crate::catalog::EditionRowFields>,
) -> bool {
    if crate::catalog::edition_of(before, title_id, key) is Some {
        after == before
    } else {
        &&& after.len() > 0
        &&& after.drop_last() == before
        &&& crate::catalog::is_edition(after.last(), title_id, key)
        &&& forall|k: int| 0 <= k < before.len() ==> (#[trigger] before[k]).id != after.last().id
    }
}

/// The Title that a target names.
pub open spec fn target_title(
    h: Holdings,
    t: (Category, crate::edition::KeyFields),
) -> Option<i64> {
    crate::catalog::title_of(h.titles, t.1.title, crate::edition::category_label(t.0))
}

/// The Edition that a target names.
pub open spec fn target_edition(
    h: Holdings,
    t: (Category, crate::edition::KeyFields),
) -> Option<i64> {
    match target_title(h, t) {
        None => None,
        Some(title_id) => crate::catalog::edition_of(h.editions, title_id, t.1),
    }
}

/// Whether `next` is what is held once the artifact at `i` was re-identified, and `q` the
/// pass that has taken it in.
pub open spec fn is_step(h: Holdings, p: Reidentify, i: int, next: Holdings, q: Reidentify) -> bool {
    match target_at(h, i) {
        None => next == h && q == p,
        Some(t) => {
            let at = h.artifacts[i];
            let title_id = target_title(next, t)->0;
            let target = target_edition(next, t)->0;
            &&& with_title(
                h.titles,
                t.1.title,
                crate::edition::category_label(t.0),
                next.titles,
            )
            &&& with_edition(h.editions, title_id, t.1, next.editions)
            &&& next.artifacts == if has_to_move(at.edition, target) {
                h.artifacts.update(i, ArtifactFields { name: at.name, edition: Some(target) })
            } else {
                h.artifacts
            }
            &&& has_placed(p, at.edition, target, q)
        },
    }
}

/// Whether some artifact is of this Edition.
pub open spec fn holds_edition(artifacts: Seq<ArtifactFields>, e: i64) -> bool {
    exists|i: int| 0 <= i < artifacts.len() && (#[trigger] artifacts[i]).edition == Some(e)
}

/// Whether some Edition is of this Title.
pub open spec fn holds_title(editions: Seq<crate::catalog::EditionRowFields>, t: i64) -> bool {
    exists|i: int| 0 <= i < editions.len() && (#[trigger] editions[i]).title_id == t
}

/// The Editions that artifacts are of.
pub open spec fn editions_in_use(artifacts: Seq<ArtifactFields>) -> Set<i64> {
    Set::new(|e: i64| holds_edition(artifacts, e))
}

/// The Titles that Editions are of.
pub open spec fn titles_in_use(editions: Seq<crate::catalog::EditionRowFields>) -> Set<i64> {
    Set::new(|t: i64| holds_title(editions, t))
}

/// What is held once the Editions and then the Titles left empty are dropped.
pub open spec fn cleaned(h: Holdings) -> Holdings {
    let editions = crate::catalog::used_editions(h.editions, editions_in_use(h.artifacts));
    Holdings {
        titles: crate::catalog::used_titles(h.titles, titles_in_use(editions)),
        editions,
        artifacts: h.artifacts,
    }
}

/// How many artifacts have a retained name.
pub open spec fn named(artifacts: Seq<ArtifactFields>) -> nat {
    artifacts.filter(|a: ArtifactFields| a.name is Some).len()
}

/// Whether this is a pass: over each artifact in turn, from what is held at first to `after`,
/// with its report.
pub open spec fn is_pass(
    held: Seq<Holdings>,
    pass: Seq<Reidentify>,
    after: Holdings,
    report: ReidentifyReport,
) -> bool {
    let n = held[0].artifacts.len();
    let end = held[n as int];
    &&& held.len() == n + 1
    &&& pass.len() == n + 1
    &&& pass[0].moved == 0 && pass[0].affected@.len() == 0
    &&& forall|i: int|
        0 <= i < n ==> is_step(#[trigger] held[i], pass[i], i, held[i + 1], pass[i + 1])
    &&& after == cleaned(end)
    &&& report.scanned == named(held[0].artifacts)
    &&& report.moved == pass[n as int].moved
    &&& report.editions_removed == crate::catalog::unused_editions(
        end.editions,
        editions_in_use(end.artifacts),
    ).len()
    &&& report.titles_removed == crate::catalog::unused_titles(
        end.titles,
        titles_in_use(after.editions),
    ).len()
}

/// Whether what is held fits together: ids are of one row each, every artifact's Edition is
/// there, and so is every Edition's Title.
pub open spec fn fits(h: Holdings) -> bool {
    &&& crate::catalog::ids_differ(h.editions)
    &&& crate::catalog::title_ids_differ(h.titles)
    &&& forall|i: int|
        0 <= i < h.artifacts.len() ==> ((#[trigger] h.artifacts[i]).edition matches Some(e)
            ==> crate::catalog::row_of(h.editions, e) is Some)
    &&& forall|k: int|
        0 <= k < h.editions.len() ==> crate::catalog::title_row_of(
            h.titles,
            (#[trigger] h.editions[k]).title_id,
        ) is Some
}

/// Whether an artifact stands in the Edition that it belongs to.
pub open spec fn is_settled(h: Holdings, i: int) -> bool {
    target_at(h, i) matches Some(t) ==> target_edition(h, t) is Some && h.artifacts[i].edition
        == target_edition(h, t)
}

/// A row of an id is one of the rows.
proof fn lemma_row_is_there(rows: Seq<crate::catalog::EditionRowFields>, id: i64) -> (k: int)
    requires
        crate::catalog::row_of(rows, id) is Some,
    ensures
        0 <= k < rows.len(),
        rows[k].id == id,
        crate::catalog::row_of(rows, id) == Some(rows[k]),
    decreases rows.len(),
{
    if rows[0].id == id {
        0
    } else {
        let k = lemma_row_is_there(rows.skip(1), id);
        assert(rows.skip(1)[k] == rows[k + 1]);
        k + 1
    }
}

/// A step keeps what is held together, leaves every Edition in its category, and settles its
/// artifact; it neither adds nor drops an artifact, nor changes the name of one, nor the
/// Edition of another.
proof fn lemma_step(h: Holdings, p: Reidentify, i: int, next: Holdings, q: Reidentify)
    requires
        fits(h),
        0 <= i < h.artifacts.len(),
        is_step(h, p, i, next, q),
    ensures
        fits(next),
        next.artifacts.len() == h.artifacts.len(),
        forall|j: int|
            0 <= j < h.artifacts.len() ==> (#[trigger] next.artifacts[j]).name
                == h.artifacts[j].name && (j != i ==> next.artifacts[j] == h.artifacts[j]),
        forall|j: int|
            0 <= j < h.artifacts.len() && j != i ==> #[trigger] category_at(next, j)
                == category_at(h, j),
        forall|j: int|
            0 <= j < h.artifacts.len() && j != i && is_settled(h, j) ==> #[trigger] is_settled(
                next,
                j,
            ),
        is_settled(next, i),
        target_at(h, i) matches Some(t) ==> category_at(next, i) == Some(
            crate::edition::category_label(t.0),
        ),
        target_at(h, i) is None ==> category_at(next, i) == category_at(h, i),
{
    if target_at(h, i) is Some {
        let t = target_at(h, i)->0;
        let label = crate::edition::category_label(t.0);
        let name = t.1.title;
        lemma_titles_grow(h.titles, name, label, next.titles);
        let title_id = target_title(next, t)->0;
        lemma_editions_grow(h.editions, title_id, t.1, next.editions);
        let target = target_edition(next, t)->0;
        // What stands at the target.
        let r = crate::catalog::lemma_found_row(next.editions, title_id, t.1);
        crate::catalog::lemma_row_of(next.editions, r);
        let q = crate::catalog::lemma_found_title(next.titles, name, label);
        crate::catalog::lemma_title_row_of(next.titles, q);
        assert(edition_category(next, Some(target)) == Some(label));
        assert(next.artifacts[i].edition == Some(target));
        assert forall|k: int| 0 <= k < next.editions.len() implies crate::catalog::title_row_of(
            next.titles,
            (#[trigger] next.editions[k]).title_id,
        ) is Some by {
            if k < h.editions.len() {
                assert(next.editions[k] == h.editions[k]);
            } else {
                assert(next.editions[k].title_id == title_id);
            }
        }
        assert forall|j: int| 0 <= j < next.artifacts.len() implies ((
        #[trigger] next.artifacts[j]).edition matches Some(e) ==> crate::catalog::row_of(
            next.editions,
            e,
        ) is Some) by {
            if j != i {
                assert(next.artifacts[j] == h.artifacts[j]);
            }
        }
        assert forall|j: int| 0 <= j < h.artifacts.len() && j != i implies #[trigger] category_at(
            next,
            j,
        ) == category_at(h, j) by {
            assert(next.artifacts[j] == h.artifacts[j]);
            lemma_category_stays(h, next, h.artifacts[j].edition);
        }
        assert forall|j: int|
            0 <= j < h.artifacts.len() && j != i && is_settled(
                h,
                j,
            ) implies #[trigger] is_settled(next, j) by {
            assert(category_at(next, j) == category_at(h, j));
            assert(next.artifacts[j] == h.artifacts[j]);
            assert(target_at(next, j) == target_at(h, j));
        }
        let retained = h.artifacts[i].name->0;
        second_pass_finds_the_same_target(retained, category_at(h, i));
        assert(target_at(next, i) == Some(t));
    }
}

/// Titles only grow: those that were found, by id or by name, are found as before, and the
/// one that was asked for is found.
proof fn lemma_titles_grow(
    before: Seq<crate::catalog::TitleRowFields>,
    name: Seq<char>,
    category: Seq<char>,
    after: Seq<crate::catalog::TitleRowFields>,
)
    requires
        crate::catalog::title_ids_differ(before),
        with_title(before, name, category, after),
    ensures
        crate::catalog::title_ids_differ(after),
        crate::catalog::title_of(after, name, category) is Some,
        forall|n: Seq<char>, c: Seq<char>|
            crate::catalog::title_of(before, n, c) is Some ==> #[trigger] crate::catalog::title_of(
                after,
                n,
                c,
            ) == crate::catalog::title_of(before, n, c),
        forall|id: i64|
            crate::catalog::title_row_of(before, id) is Some
                ==> #[trigger] crate::catalog::title_row_of(after, id)
                == crate::catalog::title_row_of(before, id),
{
    if crate::catalog::title_of(before, name, category) is None {
        let row = after.last();
        assert(after =~= before.push(row));
        crate::catalog::inserted_title_is_found(before, row, name, category);
        assert forall|n: Seq<char>, c: Seq<char>|
            crate::catalog::title_of(
                before,
                n,
                c,
            ) is Some implies #[trigger] crate::catalog::title_of(after, n, c)
            == crate::catalog::title_of(before, n, c) by {
            crate::catalog::inserted_title_is_found(before, row, n, c);
        }
        assert forall|id: i64|
            crate::catalog::title_row_of(
                before,
                id,
            ) is Some implies #[trigger] crate::catalog::title_row_of(after, id)
            == crate::catalog::title_row_of(before, id) by {
            crate::catalog::lemma_title_row_stays(before, row, id);
        }
        assert forall|a: int, b: int| 0 <= a < b < after.len() implies #[trigger] after[a].id
            != #[trigger] after[b].id by {
            assert(after[a] == before[a]);
            if b < before.len() {
                assert(after[b] == before[b]);
                assert(before[a].id != before[b].id);
            }
        }
    }
}

/// Editions only grow: those that were found, by id or by key, are found as before, and the
/// one that was asked for is found.
proof fn lemma_editions_grow(
    before: Seq<crate::catalog::EditionRowFields>,
    title_id: i64,
    key: crate::edition::KeyFields,
    after: Seq<crate::catalog::EditionRowFields>,
)
    requires
        crate::catalog::ids_differ(before),
        with_edition(before, title_id, key, after),
    ensures
        crate::catalog::ids_differ(after),
        crate::catalog::edition_of(after, title_id, key) is Some,
        before.len() <= after.len(),
        forall|k: int| 0 <= k < before.len() ==> #[trigger] after[k] == before[k],
        forall|k: int|
            before.len() <= k < after.len() ==> (#[trigger] after[k]).title_id == title_id,
        forall|t: i64, u: crate::edition::KeyFields|
            crate::catalog::edition_of(before, t, u) is Some ==> #[trigger] crate::catalog::edition_of(
                after,
                t,
                u,
            ) == crate::catalog::edition_of(before, t, u),
        forall|id: i64|
            crate::catalog::row_of(before, id) is Some ==> #[trigger] crate::catalog::row_of(
                after,
                id,
            ) == crate::catalog::row_of(before, id),
{
    if crate::catalog::edition_of(before, title_id, key) is None {
        let row = after.last();
        assert(after =~= before.push(row));
        crate::catalog::inserted_edition_is_found(before, row, title_id, key);
        assert forall|t: i64, u: crate::edition::KeyFields|
            crate::catalog::edition_of(
                before,
                t,
                u,
            ) is Some implies #[trigger] crate::catalog::edition_of(after, t, u)
            == crate::catalog::edition_of(before, t, u) by {
            crate::catalog::found_edition_stays(before, row, t, u);
        }
        assert forall|id: i64|
            crate::catalog::row_of(before, id) is Some implies #[trigger] crate::catalog::row_of(
            after,
            id,
        ) == crate::catalog::row_of(before, id) by {
            crate::catalog::lemma_row_stays(before, row, id);
        }
        assert forall|a: int, b: int| 0 <= a < b < after.len() implies #[trigger] after[a].id
            != #[trigger] after[b].id by {
            assert(after[a] == before[a]);
            if b < before.len() {
                assert(after[b] == before[b]);
                assert(before[a].id != before[b].id);
            }
        }
    }
}

/// An Edition that is there stays in its category as Titles and Editions grow.
proof fn lemma_category_stays(h: Holdings, next: Holdings, edition: Option<i64>)
    requires
        fits(h),
        edition matches Some(e) ==> crate::catalog::row_of(h.editions, e) is Some,
        forall|id: i64|
            crate::catalog::row_of(h.editions, id) is Some ==> #[trigger] crate::catalog::row_of(
                next.editions,
                id,
            ) == crate::catalog::row_of(h.editions, id),
        forall|id: i64|
            crate::catalog::title_row_of(h.titles, id) is Some
                ==> #[trigger] crate::catalog::title_row_of(next.titles, id)
                == crate::catalog::title_row_of(h.titles, id),
    ensures
        edition_category(next, edition) == edition_category(h, edition),
{
    if edition is Some {
        let k = lemma_row_is_there(h.editions, edition->0);
        assert(crate::catalog::title_row_of(h.titles, h.editions[k].title_id) is Some);
    }
}

/// Dropping what is left empty keeps what is held together, each artifact in its category,
/// and settled artifacts settled; dropping it once more drops nothing.
proof fn lemma_cleaned(h: Holdings)
    requires
        fits(h),
    ensures
        fits(cleaned(h)),
        cleaned(cleaned(h)) == cleaned(h),
        forall|i: int|
            0 <= i < h.artifacts.len() ==> #[trigger] category_at(cleaned(h), i) == category_at(
                h,
                i,
            ),
        forall|i: int|
            0 <= i < h.artifacts.len() && is_settled(h, i) ==> #[trigger] is_settled(cleaned(h), i),
{
    let c = cleaned(h);
    let used = editions_in_use(h.artifacts);
    let shown = titles_in_use(c.editions);
    crate::catalog::used_editions_are_kept(h.editions, used);
    crate::catalog::used_titles_are_kept(h.titles, shown);
    assert forall|i: int| 0 <= i < c.artifacts.len() implies ((
    #[trigger] c.artifacts[i]).edition matches Some(e) ==> crate::catalog::row_of(
        c.editions,
        e,
    ) is Some) by {
        if c.artifacts[i].edition is Some {
            let e = c.artifacts[i].edition->0;
            assert(holds_edition(h.artifacts, e));
            assert(used.contains(e));
            assert(h.artifacts[i].edition == Some(e));
        }
    }
    assert forall|k: int| 0 <= k < c.editions.len() implies crate::catalog::title_row_of(
        c.titles,
        (#[trigger] c.editions[k]).title_id,
    ) is Some by {
        let t = c.editions[k].title_id;
        assert(holds_title(c.editions, t));
        assert(shown.contains(t));
        assert(h.editions.contains(c.editions[k]));
        let j = choose|j: int| 0 <= j < h.editions.len() && h.editions[j] == c.editions[k];
        assert(crate::catalog::title_row_of(h.titles, h.editions[j].title_id) is Some);
    }
    assert forall|i: int| 0 <= i < h.artifacts.len() implies #[trigger] category_at(c, i)
        == category_at(h, i) by {
        if h.artifacts[i].edition is Some {
            let e = h.artifacts[i].edition->0;
            assert(holds_edition(h.artifacts, e));
            assert(used.contains(e));
            assert(crate::catalog::row_of(c.editions, e) == crate::catalog::row_of(h.editions, e));
            let k = lemma_row_is_there(c.editions, e);
            assert(holds_title(c.editions, c.editions[k].title_id));
            assert(shown.contains(c.editions[k].title_id));
        }
    }
    assert forall|i: int| 0 <= i < h.artifacts.len() && is_settled(
        h,
        i,
    ) implies #[trigger] is_settled(c, i) by {
        assert(category_at(c, i) == category_at(h, i));
        if target_at(h, i) is Some {
            let t = target_at(h, i)->0;
            let title_id = target_title(h, t)->0;
            let e = target_edition(h, t)->0;
            assert(h.artifacts[i].edition == Some(e));
            assert(holds_edition(h.artifacts, e));
            assert(used.contains(e));
            assert(crate::catalog::edition_of(c.editions, title_id, t.1) == Some(e));
            let k = crate::catalog::lemma_found_row(c.editions, title_id, t.1);
            assert(holds_title(c.editions, title_id));
            assert(shown.contains(title_id));
            assert(target_title(c, t) == Some(title_id));
        }
    }
    assert(cleaned(c).editions == c.editions);
}

/// What the first `n` steps of a pass lead to: what is held fits together, and their
/// artifacts are settled; the category of each other artifact, and the name of each, is what
/// it was.
proof fn lemma_steps(held: Seq<Holdings>, pass: Seq<Reidentify>, n: int)
    requires
        held.len() == held[0].artifacts.len() + 1,
        fits(held[0]),
        0 <= n < held.len(),
        forall|i: int|
            0 <= i < held[0].artifacts.len() ==> is_step(
                #[trigger] held[i],
                pass[i],
                i,
                held[i + 1],
                pass[i + 1],
            ),
    ensures
        fits(held[n]),
        held[n].artifacts.len() == held[0].artifacts.len(),
        forall|j: int|
            0 <= j < held[0].artifacts.len() ==> (#[trigger] held[n].artifacts[j]).name
                == held[0].artifacts[j].name,
        forall|j: int| 0 <= j < n ==> #[trigger] is_settled(held[n], j),
        forall|j: int|
            0 <= j < held[0].artifacts.len() ==> #[trigger] category_at(held[n], j)
                == expected_category(held[0], j, j < n),
    decreases n,
{
    if n > 0 {
        lemma_steps(held, pass, n - 1);
        let h = held[n - 1];
        let next = held[n];
        assert(is_step(held[n - 1], pass[n - 1], n - 1, held[n - 1 + 1], pass[n - 1 + 1]));
        lemma_step(h, pass[n - 1], n - 1, next, pass[n]);
        assert(category_at(h, n - 1) == category_at(held[0], n - 1));
        assert(h.artifacts[n - 1].name == held[0].artifacts[n - 1].name);
        assert forall|j: int| 0 <= j < n implies #[trigger] is_settled(next, j) by {
            if j < n - 1 {
                assert(is_settled(h, j));
            }
        }
        assert forall|j: int| 0 <= j < held[0].artifacts.len() implies (
        #[trigger] next.artifacts[j]).name == held[0].artifacts[j].name by {
            assert(h.artifacts[j].name == held[0].artifacts[j].name);
        }
        assert forall|j: int| 0 <= j < held[0].artifacts.len() implies #[trigger] category_at(
            next,
            j,
        ) == expected_category(held[0], j, j < n) by {
            if j != n - 1 {
                assert(category_at(h, j) == expected_category(held[0], j, j < n - 1));
            }
        }
    }
}

/// The category of an artifact once a pass has come to it: that of its target, where it has
/// one.
pub open spec fn expected_category(h: Holdings, i: int, done: bool) -> Option<Seq<char>> {
    match target_at(h, i) {
        Some(t) => if done {
            Some(crate::edition::category_label(t.0))
        } else {
            category_at(h, i)
        },
        None => category_at(h, i),
    }
}

/// A pass is non-destructive: it neither adds nor deletes an artifact, every artifact keeps
/// its name, and each ends in the Edition and the category that its name asks for. What is
/// held still fits together.
pub proof fn pass_settles_every_artifact(
    held: Seq<Holdings>,
    pass: Seq<Reidentify>,
    after: Holdings,
    report: ReidentifyReport,
)
    requires
        fits(held[0]),
        is_pass(held, pass, after, report),
    ensures
        fits(after),
        after.artifacts.len() == held[0].artifacts.len(),
        forall|i: int|
            0 <= i < after.artifacts.len() ==> (#[trigger] after.artifacts[i]).name
                == held[0].artifacts[i].name,
        forall|i: int| 0 <= i < after.artifacts.len() ==> #[trigger] is_settled(after, i),
        forall|i: int|
            0 <= i < after.artifacts.len() ==> #[trigger] category_at(after, i)
                == expected_category(held[0], i, true),
{
    let n = held[0].artifacts.len() as int;
    lemma_steps(held, pass, n);
    lemma_cleaned(held[n]);
    assert forall|i: int| 0 <= i < after.artifacts.len() implies (
    #[trigger] after.artifacts[i]).name == held[0].artifacts[i].name by {
        assert(held[n].artifacts[i].name == held[0].artifacts[i].name);
    }
    assert forall|i: int| 0 <= i < after.artifacts.len() implies #[trigger] is_settled(after, i) by {
        assert(is_settled(held[n], i));
    }
    assert forall|i: int| 0 <= i < after.artifacts.len() implies #[trigger] category_at(after, i)
        == expected_category(held[0], i, true) by {
        assert(category_at(held[n], i) == expected_category(held[0], i, i < n));
    }
}

/// A pass never takes an artifact out of its category unless its name says that it is a
/// demo.
pub proof fn pass_keeps_categories(
    held: Seq<Holdings>,
    pass: Seq<Reidentify>,
    after: Holdings,
    report: ReidentifyReport,
    i: int,
)
    requires
        fits(held[0]),
        is_pass(held, pass, after, report),
        0 <= i < held[0].artifacts.len(),
        category_at(held[0], i) == Some("game"@) || category_at(held[0], i) == Some("tool"@)
            || category_at(held[0], i) == Some("demo"@),
    ensures
        category_at(after, i) == category_at(held[0], i) || (held[0].artifacts[i].name matches Some(
            name,
        ) && crate::naming::tosec(name) matches Some(n) && crate::edition::category_of(
            n.qualifier,
            None,
        ) is Demo && category_at(after, i) == Some("demo"@)),
{
    lemma_categories_differ();
    pass_settles_every_artifact(held, pass, after, report);
    assert(category_at(after, i) == expected_category(held[0], i, true));
}

/// A pass over settled artifacts moves none, and changes nothing of what is held.
proof fn lemma_settled_pass(held: Seq<Holdings>, pass: Seq<Reidentify>, n: int)
    requires
        held.len() == held[0].artifacts.len() + 1,
        0 <= n < held.len(),
        forall|i: int| 0 <= i < held[0].artifacts.len() ==> #[trigger] is_settled(held[0], i),
        forall|i: int|
            0 <= i < held[0].artifacts.len() ==> is_step(
                #[trigger] held[i],
                pass[i],
                i,
                held[i + 1],
                pass[i + 1],
            ),
    ensures
        held[n] == held[0],
        pass[n] == pass[0],
    decreases n,
{
    if n > 0 {
        lemma_settled_pass(held, pass, n - 1);
        let h = held[0];
        assert(is_step(held[n - 1], pass[n - 1], n - 1, held[n - 1 + 1], pass[n - 1 + 1]));
        assert(is_settled(h, n - 1));
        if target_at(h, n - 1) is Some {
            let t = target_at(h, n - 1)->0;
            assert(held[n].titles == h.titles);
            assert(target_title(held[n], t) == target_title(h, t));
            assert(held[n].editions == h.editions);
            assert(held[n].artifacts == h.artifacts);
            assert(held[n] =~= h);
        }
    }
}

/// Idempotence of a whole pass: a second one, right after the first, moves no artifact,
/// touches no Edition, removes no Edition and no Title, and leaves what is held as it is.
pub proof fn second_pass_changes_nothing(
    held: Seq<Holdings>,
    pass: Seq<Reidentify>,
    after: Holdings,
    report: ReidentifyReport,
    held_again: Seq<Holdings>,
    pass_again: Seq<Reidentify>,
    after_again: Holdings,
    report_again: ReidentifyReport,
)
    requires
        fits(held[0]),
        is_pass(held, pass, after, report),
        held_again[0] == after,
        is_pass(held_again, pass_again, after_again, report_again),
    ensures
        report_again.moved == 0,
        report_again.editions_removed == 0,
        report_again.titles_removed == 0,
        pass_again.last().affected@.len() == 0,
        after_again == after,
{
    let n = held[0].artifacts.len() as int;
    pass_settles_every_artifact(held, pass, after, report);
    lemma_settled_pass(held_again, pass_again, n);
    lemma_steps(held, pass, n);
    lemma_cleaned(held[n]);
    assert(cleaned(after) == after);
    crate::catalog::used_editions_are_kept(after.editions, editions_in_use(after.artifacts));
    crate::catalog::used_titles_are_kept(after.titles, titles_in_use(after.editions));
}

/// A name with a demo qualifier makes a demo; any other keeps the category of a tool or a demo,
/// and makes a game of everything else.
pub proof fn category_is_kept_but_for_demos(
    qualifier: Option<Seq<char>>,
    current: Option<Seq<char>>,
)
    ensures
        (qualifier matches Some(q) && (crate::edition::holds(q, "demo"@) || q == "preview"@))
            ==> kept_category(qualifier, current) is Demo,
        !(qualifier matches Some(q) && (crate::edition::holds(q, "demo"@) || q == "preview"@)) ==> {
            &&& kept_category(qualifier, current) is Tool <==> current == Some("tool"@)
            &&& kept_category(qualifier, current) is Demo <==> current == Some("demo"@)
        },
{
    crate::edition::category_follows_qualifier_then_source(qualifier, None);
    reveal_strlit("tool");
    reveal_strlit("demo");
    assert("tool"@[0] == 't' && "demo"@[0] == 'd');
}

/// An artifact belongs to the Edition that its name tells, in the category it has or its
/// qualifier gives; one whose name does not read belongs nowhere.
pub proof fn target_is_what_the_name_tells(name: Seq<char>, current: Option<Seq<char>>)
    ensures
        target_of(name, current) is Some <==> crate::naming::tosec(name) is Some,
        crate::naming::tosec(name) matches Some(n) ==> {
            let t = target_of(name, current)->0;
            &&& t.0 == kept_category(n.qualifier, current)
            &&& t.1.title == crate::text::trim(n.title)
            &&& t.1.version == n.version
            &&& t.1.language == n.language
            &&& t.1.publisher == n.publisher
            &&& t.1.qualifier == n.qualifier
            &&& t.1.disk_no == n.disk_no
            &&& t.1.disk_count == n.disk_count
        },
{
}

/// How many of the first artifacts are of another Edition than they were.
pub open spec fn moves(before: Seq<ArtifactFields>, after: Seq<ArtifactFields>, n: nat) -> nat
    decreases n,
{
    if n == 0 {
        0
    } else {
        moves(before, after, (n - 1) as nat) + if before[n - 1].edition != after[n - 1].edition {
            1nat
        } else {
            0nat
        }
    }
}

/// Whether one of the first artifacts went from or to an Edition.
pub open spec fn moved_over(
    before: Seq<ArtifactFields>,
    after: Seq<ArtifactFields>,
    n: int,
    e: i64,
) -> bool {
    exists|i: int|
        #![trigger before[i]]
        0 <= i < n && before[i].edition != after[i].edition && (before[i].edition == Some(e)
            || after[i].edition == Some(e))
}

/// What changed among the first artifacts goes by these alone.
proof fn lemma_moves_same(
    before: Seq<ArtifactFields>,
    after: Seq<ArtifactFields>,
    other: Seq<ArtifactFields>,
    n: nat,
)
    requires
        forall|i: int| 0 <= i < n ==> #[trigger] after[i] == other[i],
    ensures
        moves(before, after, n) == moves(before, other, n),
    decreases n,
{
    if n > 0 {
        lemma_moves_same(before, after, other, (n - 1) as nat);
        assert(after[n - 1] == other[n - 1]);
    }
}

/// What a pass has counted and noted after some of its steps.
proof fn lemma_counted(held: Seq<Holdings>, pass: Seq<Reidentify>, n: int)
    requires
        0 <= n < held.len(),
        held.len() == held[0].artifacts.len() + 1,
        pass.len() == held.len(),
        pass[0].moved == 0 && pass[0].affected@.len() == 0,
        forall|i: int|
            0 <= i < n ==> is_step(#[trigger] held[i], pass[i], i, held[i + 1], pass[i + 1]),
    ensures
        held[n].artifacts.len() == held[0].artifacts.len(),
        forall|i: int|
            n <= i < held[0].artifacts.len() ==> #[trigger] held[n].artifacts[i]
                == held[0].artifacts[i],
        pass[n].moved == moves(held[0].artifacts, held[n].artifacts, n as nat),
        forall|e: i64| #[trigger]
            pass[n].affected@.contains(e) <==> moved_over(
                held[0].artifacts,
                held[n].artifacts,
                n,
                e,
            ),
    decreases n,
{
    if n > 0 {
        let m = n - 1;
        lemma_counted(held, pass, m);
        assert(is_step(held[m], pass[m], m, held[m + 1], pass[m + 1]));
        let before = held[0].artifacts;
        let mid = held[m].artifacts;
        let after = held[n].artifacts;
        assert(mid[m] == before[m]);
        assert(after.len() == mid.len());
        assert forall|i: int| 0 <= i < after.len() && i != m implies #[trigger] after[i]
            == mid[i] by {}
        lemma_moves_same(before, mid, after, m as nat);
        assert forall|e: i64| #[trigger] pass[n].affected@.contains(e) <==> moved_over(
            before,
            after,
            n,
            e,
        ) by {
            assert(pass[m].affected@.contains(e) <==> moved_over(before, mid, m, e));
            if moved_over(before, mid, m, e) {
                let i = choose|i: int|
                    #![trigger before[i]]
                    0 <= i < m && before[i].edition != mid[i].edition && (before[i].edition
                        == Some(e) || mid[i].edition == Some(e));
                assert(after[i] == mid[i]);
                assert(before[i].edition != after[i].edition);
            }
            if moved_over(before, after, n, e) {
                let i = choose|i: int|
                    #![trigger before[i]]
                    0 <= i < n && before[i].edition != after[i].edition && (before[i].edition
                        == Some(e) || after[i].edition == Some(e));
                if i < m {
                    assert(after[i] == mid[i]);
                    assert(before[i].edition != mid[i].edition);
                }
            }
            assert(before[m] == mid[m]);
        }
    }
}

/// A pass reports as moved exactly the artifacts that are of another Edition than they were,
/// and notes exactly the Editions that one went from or to.
pub proof fn report_counts_the_moves(
    held: Seq<Holdings>,
    pass: Seq<Reidentify>,
    after: Holdings,
    report: ReidentifyReport,
    e: i64,
)
    requires
        is_pass(held, pass, after, report),
    ensures
        report.moved == moves(
            held[0].artifacts,
            after.artifacts,
            held[0].artifacts.len(),
        ),
        pass.last().affected@.contains(e) <==> moved_over(
            held[0].artifacts,
            after.artifacts,
            held[0].artifacts.len() as int,
            e,
        ),
        report.scanned == held[0].artifacts.filter(|a: ArtifactFields| a.name is Some).len(),
{
    lemma_counted(held, pass, held[0].artifacts.len() as int);
}

/// After a pass an Edition is held exactly where it was there and an artifact is of it, and a
/// Title exactly where it was there and an Edition that is held is of it.
pub proof fn what_is_left_empty_is_dropped(
    h: Holdings,
    row: crate::catalog::EditionRowFields,
    title: crate::catalog::TitleRowFields,
)
    ensures
        cleaned(h).artifacts == h.artifacts,
        cleaned(h).editions.contains(row) <==> h.editions.contains(row) && exists|i: int|
            0 <= i < h.artifacts.len() && (#[trigger] h.artifacts[i]).edition == Some(row.id),
        cleaned(h).titles.contains(title) <==> h.titles.contains(title) && exists|i: int|
            0 <= i < cleaned(h).editions.len() && (#[trigger] cleaned(h).editions[i]).title_id
                == title.id,
{
    lemma_used_editions(h.editions, editions_in_use(h.artifacts), row);
    lemma_used_titles(h.titles, titles_in_use(cleaned(h).editions), title);
}

/// A row is kept exactly where it was there and is in use.
proof fn lemma_used_editions(
    rows: Seq<crate::catalog::EditionRowFields>,
    used: Set<i64>,
    row: crate::catalog::EditionRowFields,
)
    ensures
        crate::catalog::used_editions(rows, used).contains(row) <==> rows.contains(row)
            && used.contains(row.id),
    decreases rows.len(),
{
    if rows.len() > 0 {
        let rest = rows.skip(1);
        let kept = crate::catalog::used_editions(rest, used);
        let all = crate::catalog::used_editions(rows, used);
        lemma_used_editions(rest, used, row);
        if all.contains(row) {
            let k = choose|k: int| 0 <= k < all.len() && all[k] == row;
            if used.contains(rows[0].id) {
                if k == 0 {
                    assert(rows[0] == row);
                } else {
                    assert(kept[k - 1] == row);
                }
            }
            if kept.contains(row) {
                let i = choose|i: int| 0 <= i < rest.len() && rest[i] == row;
                assert(rows[i + 1] == row);
            }
        }
        if rows.contains(row) && used.contains(row.id) {
            let i = choose|i: int| 0 <= i < rows.len() && rows[i] == row;
            if i == 0 {
                assert(all[0] == row);
            } else {
                assert(rest[i - 1] == row);
                let k = choose|k: int| 0 <= k < kept.len() && kept[k] == row;
                if used.contains(rows[0].id) {
                    assert(all[k + 1] == row);
                }
            }
        }
    }
}

/// A Title is kept exactly where it was there and is in use.
proof fn lemma_used_titles(
    rows: Seq<crate::catalog::TitleRowFields>,
    used: Set<i64>,
    row: crate::catalog::TitleRowFields,
)
    ensures
        crate::catalog::used_titles(rows, used).contains(row) <==> rows.contains(row)
            && used.contains(row.id),
    decreases rows.len(),
{
    if rows.len() > 0 {
        let rest = rows.skip(1);
        let kept = crate::catalog::used_titles(rest, used);
        let all = crate::catalog::used_titles(rows, used);
        lemma_used_titles(rest, used, row);
        if all.contains(row) {
            let k = choose|k: int| 0 <= k < all.len() && all[k] == row;
            if used.contains(rows[0].id) {
                if k == 0 {
                    assert(rows[0] == row);
                } else {
                    assert(kept[k - 1] == row);
                }
            }
            if kept.contains(row) {
                let i = choose|i: int| 0 <= i < rest.len() && rest[i] == row;
                assert(rows[i + 1] == row);
            }
        }
        if rows.contains(row) && used.contains(row.id) {
            let i = choose|i: int| 0 <= i < rows.len() && rows[i] == row;
            if i == 0 {
                assert(all[0] == row);
            } else {
                assert(rest[i - 1] == row);
                let k = choose|k: int| 0 <= k < kept.len() && kept[k] == row;
                if used.contains(rows[0].id) {
                    assert(all[k + 1] == row);
                }
            }
        }
    }
}

} // verus!
