//! Orders, grouping by key, and stable sorting.
//!
//! The vault's lists are deterministic: variants group by key in key order, and
//! equal entries keep the order they came in.

use vstd::prelude::*;

use crate::text::{opt_text_before, text_before};

verus! {

/// A key with a strict total order on what it holds.
pub trait Ordered: Sized + View {
    /// Whether a key that holds `a` is before one that holds `b`.
    spec fn lt(a: Self::V, b: Self::V) -> bool;

    /// No two keys are each before the other.
    proof fn asymmetric(a: Self::V, b: Self::V)
        ensures
            Self::lt(a, b) ==> !Self::lt(b, a),
    ;

    /// The order is transitive.
    proof fn transitive(a: Self::V, b: Self::V, c: Self::V)
        ensures
            Self::lt(a, b) && Self::lt(b, c) ==> Self::lt(a, c),
    ;

    /// Two keys that hold different things are in order one way or the other.
    proof fn total(a: Self::V, b: Self::V)
        ensures
            Self::lt(a, b) || Self::lt(b, a) || a == b,
    ;

    /// Whether this key is before `other`.
    fn before(&self, other: &Self) -> (r: bool)
        ensures
            r == Self::lt(self@, other@),
    ;
}

impl Ordered for String {
    open spec fn lt(a: Seq<char>, b: Seq<char>) -> bool {
        crate::text::text_lt(a, b)
    }

    proof fn asymmetric(a: Seq<char>, b: Seq<char>) {
        crate::text::lemma_text_lt_asym(a, b);
    }

    proof fn transitive(a: Seq<char>, b: Seq<char>, c: Seq<char>) {
        if crate::text::text_lt(a, b) && crate::text::text_lt(b, c) {
            crate::text::lemma_text_lt_trans(a, b, c);
        }
    }

    proof fn total(a: Seq<char>, b: Seq<char>) {
        crate::text::lemma_text_lt_total(a, b);
    }

    fn before(&self, other: &Self) -> (r: bool) {
        text_before(self, other)
    }
}

/// A disk number as a key.
#[derive(Clone, Copy)]
pub struct DiskKey {
    pub disk_no: u32,
}

impl View for DiskKey {
    type V = u32;

    open spec fn view(&self) -> u32 {
        self.disk_no
    }
}

impl Ordered for DiskKey {
    open spec fn lt(a: u32, b: u32) -> bool {
        a < b
    }

    proof fn asymmetric(a: u32, b: u32) {
    }

    proof fn transitive(a: u32, b: u32, c: u32) {
    }

    proof fn total(a: u32, b: u32) {
    }

    fn before(&self, other: &Self) -> (r: bool) {
        self.disk_no < other.disk_no
    }
}

/// An optional text as a key; absence comes first.
pub struct OptKey {
    pub text: Option<String>,
}

impl View for OptKey {
    type V = Option<Seq<char>>;

    open spec fn view(&self) -> Option<Seq<char>> {
        crate::text::opt_view(self.text)
    }
}

/// The order of optional texts is a strict total order.
pub proof fn lemma_opt_text_order(
    a: Option<Seq<char>>,
    b: Option<Seq<char>>,
    c: Option<Seq<char>>,
)
    ensures
        crate::text::opt_text_lt(a, b) ==> !crate::text::opt_text_lt(b, a),
        crate::text::opt_text_lt(a, b) ==> a != b,
        crate::text::opt_text_lt(a, b) && crate::text::opt_text_lt(b, c)
            ==> crate::text::opt_text_lt(a, c),
        crate::text::opt_text_lt(a, b) || crate::text::opt_text_lt(b, a) || a == b,
{
    if a is Some && b is Some {
        crate::text::lemma_text_lt_asym(a->0, b->0);
        crate::text::lemma_text_lt_total(a->0, b->0);
        if c is Some && crate::text::text_lt(a->0, b->0) && crate::text::text_lt(b->0, c->0) {
            crate::text::lemma_text_lt_trans(a->0, b->0, c->0);
        }
    }
}

impl Ordered for OptKey {
    open spec fn lt(a: Option<Seq<char>>, b: Option<Seq<char>>) -> bool {
        crate::text::opt_text_lt(a, b)
    }

    proof fn asymmetric(a: Option<Seq<char>>, b: Option<Seq<char>>) {
        lemma_opt_text_order(a, b, a);
    }

    proof fn transitive(a: Option<Seq<char>>, b: Option<Seq<char>>, c: Option<Seq<char>>) {
        lemma_opt_text_order(a, b, c);
    }

    proof fn total(a: Option<Seq<char>>, b: Option<Seq<char>>) {
        lemma_opt_text_order(a, b, a);
    }

    fn before(&self, other: &Self) -> (r: bool) {
        opt_text_before(&self.text, &other.text)
    }
}

// --- Grouping ---------------------------------------------------------------

/// The key of the group `g`: that of its first member.
pub open spec fn group_key<K: Ordered>(keys: Seq<Option<K>>, g: Seq<usize>) -> K::V {
    keys[g[0] as int]->0@
}

/// Whether `g` is a group: positions with a key, all of one key, in ascending order.
pub open spec fn is_group<K: Ordered>(keys: Seq<Option<K>>, g: Seq<usize>) -> bool {
    &&& g.len() > 0
    &&& forall|i: int|
        0 <= i < g.len() ==> (#[trigger] g[i]) < keys.len() && keys[g[i] as int] is Some
            && keys[g[i] as int]->0@ == group_key(keys, g)
    &&& forall|i: int, j: int| 0 <= i < j < g.len() ==> g[i] < g[j]
}

/// Whether position `j` is in one of the groups.
pub open spec fn grouped(groups: Seq<Vec<usize>>, j: int) -> bool {
    exists|g: int, i: int|
        0 <= g < groups.len() && 0 <= i < groups[g]@.len() && #[trigger] groups[g]@[i] == j
}

/// Whether `groups` are the positions of `keys` grouped by key, in key order;
/// positions without a key are left out.
pub open spec fn is_grouping<K: Ordered>(keys: Seq<Option<K>>, groups: Seq<Vec<usize>>) -> bool {
    &&& forall|g: int| 0 <= g < groups.len() ==> is_group(keys, #[trigger] groups[g]@)
    &&& forall|g: int, h: int|
        0 <= g < h < groups.len() ==> K::lt(
            group_key(keys, #[trigger] groups[g]@),
            group_key(keys, #[trigger] groups[h]@),
        )
    &&& forall|j: int| 0 <= j < keys.len() && keys[j] is Some ==> #[trigger] grouped(groups, j)
}

/// Two groups of one grouping never share a key.
pub proof fn lemma_group_keys_differ<K: Ordered>(
    keys: Seq<Option<K>>,
    groups: Seq<Vec<usize>>,
    g: int,
    h: int,
)
    requires
        is_grouping(keys, groups),
        0 <= g < groups.len(),
        0 <= h < groups.len(),
        group_key(keys, groups[g]@) == group_key(keys, groups[h]@),
    ensures
        g == h,
{
    if g < h {
        K::asymmetric(group_key(keys, groups[g]@), group_key(keys, groups[h]@));
    } else if h < g {
        K::asymmetric(group_key(keys, groups[h]@), group_key(keys, groups[g]@));
    }
}

/// A position is in the group of its key.
pub proof fn lemma_in_group<K: Ordered>(
    keys: Seq<Option<K>>,
    groups: Seq<Vec<usize>>,
    g: int,
    j: int,
) -> (i: int)
    requires
        is_grouping(keys, groups),
        0 <= g < groups.len(),
        0 <= j < keys.len(),
        keys[j] is Some,
        keys[j]->0@ == group_key(keys, groups[g]@),
    ensures
        0 <= i < groups[g]@.len(),
        groups[g]@[i] == j,
{
    assert(grouped(groups, j));
    let (h, i) = choose|h: int, i: int|
        0 <= h < groups.len() && 0 <= i < groups[h]@.len() && #[trigger] groups[h]@[i] == j;
    assert(is_group(keys, groups[h]@));
    lemma_group_keys_differ(keys, groups, g, h);
    i
}

/// The groups of the first `n` keys, with position `n` put in its place.
fn place<K: Ordered>(keys: &[Option<K>], groups: &mut Vec<Vec<usize>>, n: usize)
    requires
        n < keys@.len(),
        keys@[n as int] is Some,
        is_grouping(keys@.take(n as int), old(groups)@),
    ensures
        is_grouping(keys@.take(n + 1), final(groups)@),
{
    let ghost had = groups@;
    let ghost sub = keys@.take(n as int);
    let ghost all = keys@.take(n + 1);
    let ghost kn = keys@[n as int]->0@;
    proof {
        assert forall|g: int| 0 <= g < had.len() implies is_group(all, #[trigger] had[g]@)
            && group_key(all, had[g]@) == group_key(sub, had[g]@) by {
            let q = had[g]@;
            assert(is_group(sub, q));
            assert(q[0] < sub.len());
            assert forall|i: int| 0 <= i < q.len() implies (#[trigger] q[i]) < all.len()
                && all[q[i] as int] is Some && all[q[i] as int]->0@ == group_key(all, q) by {
                assert(sub[q[i] as int] == all[q[i] as int]);
            }
        }
    }
    let mut p: usize = 0;
    while p < groups.len()
        invariant
            p <= groups@.len(),
            groups@ == had,
            n < keys@.len(),
            keys@[n as int] is Some,
            kn == keys@[n as int]->0@,
            sub == keys@.take(n as int),
            all == keys@.take(n + 1),
            is_grouping(sub, had),
            forall|g: int|
                0 <= g < had.len() ==> is_group(all, #[trigger] had[g]@) && group_key(
                    all,
                    had[g]@,
                ) == group_key(sub, had[g]@),
            forall|g: int| 0 <= g < p ==> K::lt(group_key(sub, #[trigger] had[g]@), kn),
        ensures
            p < had.len() ==> K::lt(kn, group_key(sub, had[p as int]@)),
        decreases groups@.len() - p,
    {
        assert(is_group(sub, had[p as int]@));
        let first = groups[p][0];
        assert(keys@[first as int] == sub[first as int]);
        let kp = keys[first].as_ref().unwrap();
        let k = keys[n].as_ref().unwrap();
        let ghost gk = group_key(sub, had[p as int]@);
        if k.before(kp) {
            break ;
        }
        if !kp.before(k) {
            // The same key: the position joins this group.
            proof {
                K::total(gk, kn);
            }
            let mut g = groups.remove(p);
            let ghost old_g = g@;
            g.push(n);
            groups.insert(p, g);
            proof {
                let now = groups@;
                assert(now.len() == had.len());
                assert forall|h: int| 0 <= h < now.len() && h != p implies #[trigger] now[h]
                    == had[h] by {}
                assert(now[p as int]@ == old_g.push(n));
                assert(is_group(all, now[p as int]@)) by {
                    let q = now[p as int]@;
                    assert(group_key(all, q) == gk);
                    assert(is_group(sub, old_g));
                    assert forall|i: int| 0 <= i < q.len() implies (#[trigger] q[i]) < all.len()
                        && all[q[i] as int] is Some && all[q[i] as int]->0@ == group_key(all, q) by {
                        if i < old_g.len() {
                            assert(q[i] == old_g[i]);
                            assert(sub[q[i] as int] == all[q[i] as int]);
                        }
                    }
                    assert forall|i: int, j: int| 0 <= i < j < q.len() implies q[i] < q[j] by {
                        assert(q[i] == old_g[i]);
                        assert(old_g[i] < sub.len());
                    }
                }
                assert forall|h: int| 0 <= h < now.len() implies is_group(
                    all,
                    #[trigger] now[h]@,
                ) && group_key(all, now[h]@) == group_key(sub, had[h]@) by {
                    if h != p {
                        assert(now[h] == had[h]);
                    }
                }
                assert forall|j: int| 0 <= j < all.len() && all[j] is Some implies #[trigger] grouped(
                    now,
                    j,
                ) by {
                    if j == n {
                        assert(now[p as int]@[old_g.len() as int] == j);
                    } else {
                        assert(sub[j] == all[j]);
                        assert(grouped(had, j));
                        let (h, i) = choose|h: int, i: int|
                            0 <= h < had.len() && 0 <= i < had[h]@.len() && #[trigger] had[h]@[i]
                                == j;
                        assert(now[h]@[i] == j);
                    }
                }
                assert forall|g1: int, g2: int| 0 <= g1 < g2 < now.len() implies K::lt(
                    group_key(all, #[trigger] now[g1]@),
                    group_key(all, #[trigger] now[g2]@),
                ) by {
                    assert(K::lt(group_key(sub, had[g1]@), group_key(sub, had[g2]@)));
                }
            }
            return ;
        }
        p += 1;
    }
    // A new key: the position opens a group between the smaller keys and the
    // larger ones.
    let mut g: Vec<usize> = Vec::new();
    g.push(n);
    groups.insert(p, g);
    proof {
        let now = groups@;
        assert(is_group(all, g@));
        assert(group_key(all, g@) == kn);
        assert forall|h: int| 0 <= h < now.len() implies #[trigger] now[h] == (if h < p {
            had[h]
        } else if h == p {
            g
        } else {
            had[h - 1]
        }) by {}
        if p < had.len() {
            assert(K::lt(kn, group_key(sub, had[p as int]@)));
        }
        assert forall|h: int| 0 <= h < now.len() implies is_group(all, #[trigger] now[h]@) by {
            if h < p {
                assert(now[h] == had[h]);
            } else if h > p {
                assert(now[h] == had[h - 1]);
            }
        }
        assert forall|g1: int, g2: int| 0 <= g1 < g2 < now.len() implies K::lt(
            group_key(all, #[trigger] now[g1]@),
            group_key(all, #[trigger] now[g2]@),
        ) by {
            let a1 = if g1 < p { g1 } else { g1 - 1 };
            let a2 = if g2 < p { g2 } else { g2 - 1 };
            if g1 == p {
                assert(now[g2] == had[g2 - 1]);
                if g2 - 1 > p {
                    assert(K::lt(group_key(sub, had[p as int]@), group_key(sub, had[g2 - 1]@)));
                    K::transitive(
                        kn,
                        group_key(sub, had[p as int]@),
                        group_key(sub, had[g2 - 1]@),
                    );
                }
            } else if g2 == p {
                assert(now[g1] == had[g1]);
                assert(K::lt(group_key(sub, had[g1]@), kn));
            } else {
                assert(now[g1] == had[a1] && now[g2] == had[a2]);
                assert(K::lt(group_key(sub, had[a1]@), group_key(sub, had[a2]@)));
            }
        }
        assert forall|j: int| 0 <= j < all.len() && all[j] is Some implies #[trigger] grouped(
            now,
            j,
        ) by {
            if j == n {
                assert(now[p as int]@[0] == j);
            } else {
                assert(sub[j] == all[j]);
                assert(grouped(had, j));
                let (h, i) = choose|h: int, i: int|
                    0 <= h < had.len() && 0 <= i < had[h]@.len() && #[trigger] had[h]@[i] == j;
                if h < p {
                    assert(now[h]@[i] == j);
                } else {
                    assert(now[h + 1]@[i] == j);
                }
            }
        }
    }
}

/// Group positions by key, in key order; positions without a key are left out.
pub fn group_by<K: Ordered>(keys: &[Option<K>]) -> (groups: Vec<Vec<usize>>)
    ensures
        is_grouping(keys@, groups@),
{
    let mut groups: Vec<Vec<usize>> = Vec::new();
    let mut n: usize = 0;
    while n < keys.len()
        invariant
            n <= keys@.len(),
            is_grouping(keys@.take(n as int), groups@),
        decreases keys@.len() - n,
    {
        if keys[n].is_some() {
            place(keys, &mut groups, n);
        } else {
            proof {
                lemma_skip_keyless(keys@, groups@, n as int);
            }
        }
        n += 1;
    }
    assert(keys@.take(n as int) =~= keys@);
    groups
}

/// A position without a key changes no group.
proof fn lemma_skip_keyless<K: Ordered>(keys: Seq<Option<K>>, groups: Seq<Vec<usize>>, n: int)
    requires
        0 <= n < keys.len(),
        keys[n] is None,
        is_grouping(keys.take(n), groups),
    ensures
        is_grouping(keys.take(n + 1), groups),
{
    let sub = keys.take(n);
    let all = keys.take(n + 1);
    assert forall|g: int| 0 <= g < groups.len() implies is_group(all, #[trigger] groups[g]@)
        && group_key(all, groups[g]@) == group_key(sub, groups[g]@) by {
        let q = groups[g]@;
        assert(is_group(sub, q));
        assert(q[0] < sub.len());
        assert forall|i: int| 0 <= i < q.len() implies (#[trigger] q[i]) < all.len()
            && all[q[i] as int] is Some && all[q[i] as int]->0@ == group_key(all, q) by {
            assert(sub[q[i] as int] == all[q[i] as int]);
        }
    }
    assert forall|j: int| 0 <= j < all.len() && all[j] is Some implies #[trigger] grouped(
        groups,
        j,
    ) by {
        assert(sub[j] == all[j]);
    }
}

/// Those of the items that have this key, in order.
pub open spec fn with_key<A, K>(items: Seq<A>, key_of: spec_fn(A) -> K, key: K) -> Seq<A>
    decreases items.len(),
{
    if items.len() == 0 {
        Seq::empty()
    } else {
        let rest = with_key(items.drop_last(), key_of, key);
        if key_of(items.last()) == key {
            rest.push(items.last())
        } else {
            rest
        }
    }
}

/// Positions in ascending order that are exactly those of one key pick out its items
/// in order.
pub proof fn lemma_with_key<A, K>(
    items: Seq<A>,
    key_of: spec_fn(A) -> K,
    key: K,
    picked: Seq<usize>,
)
    requires
        forall|i: int|
            0 <= i < picked.len() ==> (#[trigger] picked[i]) < items.len() && key_of(
                items[picked[i] as int],
            ) == key,
        forall|i: int, j: int| 0 <= i < j < picked.len() ==> picked[i] < picked[j],
        forall|k: usize|
            k < items.len() && key_of(#[trigger] items[k as int]) == key ==> picked.contains(k),
        items.len() <= usize::MAX,
    ensures
        with_key(items, key_of, key) == Seq::new(picked.len(), |i: int| items[picked[i] as int]),
    decreases items.len(),
{
    if items.len() == 0 {
        if picked.len() > 0 {
            assert(picked[0] < items.len());
        }
        assert(with_key(items, key_of, key) =~= Seq::new(
            picked.len(),
            |i: int| items[picked[i] as int],
        ));
    } else {
        let last = (items.len() - 1) as usize;
        let init = items.drop_last();
        if key_of(items.last()) == key {
            assert(key_of(items[last as int]) == key);
            assert(picked.contains(last));
            let p = choose|p: int| 0 <= p < picked.len() && picked[p] == last;
            assert(p == picked.len() - 1) by {
                if p < picked.len() - 1 {
                    assert(picked[p] < picked[picked.len() - 1]);
                    assert(picked[picked.len() - 1] < items.len());
                }
            }
            let fewer = picked.drop_last();
            assert forall|i: int| 0 <= i < fewer.len() implies (#[trigger] fewer[i]) < init.len()
                && key_of(init[fewer[i] as int]) == key by {
                assert(picked[i] < picked[p]);
            }
            assert forall|k: usize|
                k < init.len() && key_of(#[trigger] init[k as int]) == key implies fewer.contains(
            k) by {
                assert(key_of(items[k as int]) == key);
                assert(picked.contains(k));
                let q = choose|q: int| 0 <= q < picked.len() && picked[q] == k;
                assert(fewer[q] == k);
            }
            lemma_with_key(init, key_of, key, fewer);
        } else {
            assert forall|i: int| 0 <= i < picked.len() implies (#[trigger] picked[i])
                < init.len() && key_of(init[picked[i] as int]) == key by {
                assert(key_of(items[picked[i] as int]) == key);
            }
            assert forall|k: usize|
                k < init.len() && key_of(#[trigger] init[k as int]) == key implies picked.contains(
            k) by {
                assert(key_of(items[k as int]) == key);
            }
            lemma_with_key(init, key_of, key, picked);
        }
        assert(with_key(items, key_of, key) =~= Seq::new(
            picked.len(),
            |i: int| items[picked[i] as int],
        ));
    }
}

/// An item stands among those of its key.
pub proof fn lemma_with_key_has<A, K>(
    items: Seq<A>,
    key_of: spec_fn(A) -> K,
    key: K,
    j: int,
) -> (i: int)
    requires
        0 <= j < items.len(),
        key_of(items[j]) == key,
    ensures
        0 <= i < with_key(items, key_of, key).len(),
        with_key(items, key_of, key)[i] == items[j],
    decreases items.len(),
{
    if j == items.len() - 1 {
        with_key(items, key_of, key).len() - 1
    } else {
        lemma_with_key_has(items.drop_last(), key_of, key, j)
    }
}

/// There are no more items of one key than items, and each has that key.
pub proof fn lemma_with_key_only<A, K>(items: Seq<A>, key_of: spec_fn(A) -> K, key: K)
    ensures
        with_key(items, key_of, key).len() <= items.len(),
        forall|i: int|
            0 <= i < with_key(items, key_of, key).len() ==> key_of(
                #[trigger] with_key(items, key_of, key)[i],
            ) == key,
    decreases items.len(),
{
    if items.len() > 0 {
        lemma_with_key_only(items.drop_last(), key_of, key);
    }
}

// --- Stable sorting ---------------------------------------------------------

/// Whether position `a` comes before position `b` in a stable sort of `keys`:
/// by key, and in the given order where the keys are the same.
pub open spec fn sorts_before<K: Ordered>(keys: Seq<K>, a: usize, b: usize) -> bool {
    ||| K::lt(keys[a as int]@, keys[b as int]@)
    ||| keys[a as int]@ == keys[b as int]@ && a < b
}

/// Whether `r` holds the positions of `keys`, each once, in the order of a stable
/// sort.
pub open spec fn is_stable_order<K: Ordered>(keys: Seq<K>, r: Seq<usize>) -> bool {
    &&& r.len() == keys.len()
    &&& forall|i: int| 0 <= i < r.len() ==> #[trigger] r[i] < keys.len()
    &&& forall|i: int, j: int|
        0 <= i < j < r.len() ==> sorts_before(keys, #[trigger] r[i], #[trigger] r[j])
    &&& forall|k: usize| k < keys.len() ==> #[trigger] r.contains(k)
}

/// The positions of `keys` in the order of a stable sort.
pub fn sorted_positions<K: Ordered>(keys: &[K]) -> (r: Vec<usize>)
    ensures
        is_stable_order(keys@, r@),
{
    let mut r: Vec<usize> = Vec::new();
    let mut n: usize = 0;
    while n < keys.len()
        invariant
            n <= keys@.len(),
            is_stable_order(keys@.take(n as int), r@),
        decreases keys@.len() - n,
    {
        let ghost had = r@;
        let ghost sub = keys@.take(n as int);
        let ghost all = keys@.take(n + 1);
        let ghost kn = keys@[n as int]@;
        let mut p: usize = 0;
        while p < r.len()
            invariant
                p <= r@.len(),
                r@ == had,
                n < keys@.len(),
                sub == keys@.take(n as int),
                kn == keys@[n as int]@,
                is_stable_order(sub, had),
                forall|q: int|
                    0 <= q < p ==> !K::lt(kn, keys@[#[trigger] had[q] as int]@),
            ensures
                p < had.len() ==> K::lt(kn, keys@[had[p as int] as int]@),
            decreases r@.len() - p,
        {
            assert(had[p as int] < sub.len());
            if keys[n].before(&keys[r[p]]) {
                break ;
            }
            p += 1;
        }
        r.insert(p, n);
        proof {
            let now = r@;
            assert forall|i: int| 0 <= i < now.len() implies #[trigger] now[i] == (if i < p {
                had[i]
            } else if i == p {
                n
            } else {
                had[i - 1]
            }) by {}
            assert forall|i: int| 0 <= i < now.len() implies #[trigger] now[i] < all.len() by {
                if i < p {
                    assert(had[i] < sub.len());
                } else if i > p {
                    assert(had[i - 1] < sub.len());
                }
            }
            assert forall|i: int, j: int| 0 <= i < j < now.len() implies sorts_before(
                all,
                #[trigger] now[i],
                #[trigger] now[j],
            ) by {
                if j == p {
                    assert(had[i] < sub.len());
                    K::total(kn, keys@[had[i] as int]@);
                } else if i == p {
                    let h = had[j - 1];
                    assert(h < sub.len());
                    if j - 1 > p {
                        assert(sorts_before(sub, had[p as int], h));
                        assert(had[p as int] < sub.len());
                        K::transitive(kn, keys@[had[p as int] as int]@, keys@[h as int]@);
                    }
                } else {
                    let a = if i < p { i } else { i - 1 };
                    let b = if j < p { j } else { j - 1 };
                    assert(had[a] < sub.len() && had[b] < sub.len());
                    assert(sorts_before(sub, had[a], had[b]));
                }
            }
            assert forall|k: usize| k < all.len() implies #[trigger] now.contains(k) by {
                if k == n {
                    assert(now[p as int] == k);
                } else {
                    assert(had.contains(k));
                    let i = choose|i: int| 0 <= i < had.len() && had[i] == k;
                    if i < p {
                        assert(now[i] == k);
                    } else {
                        assert(now[i + 1] == k);
                    }
                }
            }
        }
        n += 1;
    }
    assert(keys@.take(n as int) =~= keys@);
    r
}

/// The order of a key type.
pub open spec fn key_lt<K: Ordered>(a: K::V, b: K::V) -> bool {
    K::lt(a, b)
}

/// Whether `out` holds `items`, each once, in the order of a stable sort by `lt`,
/// where `order` says which item stands at each place.
pub open spec fn arranges<A>(
    lt: spec_fn(A, A) -> bool,
    items: Seq<A>,
    order: Seq<usize>,
    out: Seq<A>,
) -> bool {
    &&& order.len() == items.len()
    &&& out.len() == items.len()
    &&& forall|i: int|
        0 <= i < out.len() ==> (#[trigger] order[i]) < items.len() && out[i]
            == items[order[i] as int]
    &&& forall|k: usize| k < items.len() ==> #[trigger] order.contains(k)
    &&& forall|i: int, j: int|
        0 <= i < j < out.len() ==> lt(#[trigger] out[i], #[trigger] out[j]) || (!lt(
            out[j],
            out[i],
        ) && order[i] < order[j])
}

/// Whether `out` is a stable sort of `items` by `lt`.
pub open spec fn is_stable_sort<A>(
    lt: spec_fn(A, A) -> bool,
    items: Seq<A>,
    out: Seq<A>,
) -> bool {
    exists|order: Seq<usize>| #[trigger] arranges(lt, items, order, out)
}

/// A stable sort of keys is one of the items that they are the keys of.
pub proof fn lemma_stable_sort<A, K: Ordered>(
    lt: spec_fn(A, A) -> bool,
    items: Seq<A>,
    keys: Seq<K>,
    order: Seq<usize>,
    out: Seq<A>,
)
    requires
        is_stable_order(keys, order),
        keys.len() == items.len(),
        out.len() == items.len(),
        forall|i: int|
            0 <= i < out.len() ==> (#[trigger] order[i]) < items.len() && out[i]
                == items[order[i] as int],
        forall|i: int, j: int|
            0 <= i < items.len() && 0 <= j < items.len() ==> lt(
                #[trigger] items[i],
                #[trigger] items[j],
            ) == key_lt::<K>(keys[i]@, keys[j]@),
    ensures
        is_stable_sort(lt, items, out),
{
    assert forall|i: int, j: int| 0 <= i < j < out.len() implies lt(
        #[trigger] out[i],
        #[trigger] out[j],
    ) || (!lt(out[j], out[i]) && order[i] < order[j]) by {
        let a = order[i];
        let b = order[j];
        assert(sorts_before(keys, a, b));
        assert(a < items.len() && b < items.len());
        K::asymmetric(keys[a as int]@, keys[b as int]@);
    }
    assert(arranges(lt, items, order, out));
}

/// Sorting keeps the items: what comes out is what went in, in order.
pub proof fn lemma_sorted_has<A>(lt: spec_fn(A, A) -> bool, items: Seq<A>, out: Seq<A>)
    requires
        is_stable_sort(lt, items, out),
        items.len() <= usize::MAX,
    ensures
        out.len() == items.len(),
        forall|x: A| #[trigger] out.contains(x) <==> items.contains(x),
        forall|i: int, j: int|
            0 <= i < j < out.len() ==> lt(#[trigger] out[i], #[trigger] out[j]) || !lt(
                out[j],
                out[i],
            ),
{
    let order = choose|order: Seq<usize>| #[trigger] arranges(lt, items, order, out);
    assert forall|x: A| #[trigger] out.contains(x) <==> items.contains(x) by {
        if out.contains(x) {
            let p = choose|p: int| 0 <= p < out.len() && out[p] == x;
            assert(order[p] < items.len());
            assert(items[order[p] as int] == x);
        }
        if items.contains(x) {
            let q = choose|q: int| 0 <= q < items.len() && items[q] == x;
            assert(order.contains(q as usize));
            let p = choose|p: int| 0 <= p < order.len() && order[p] == q as usize;
            assert(out[p] == items[order[p] as int]);
        }
    }
}

// --- Laws -------------------------------------------------------------------

/// Picking out the items of one key goes item by item: those of two sequences together are
/// those of the one, then those of the other; one item is picked exactly where it has the key.
pub proof fn picking_by_key_is_itemwise<A, K>(
    a: Seq<A>,
    b: Seq<A>,
    item: A,
    key_of: spec_fn(A) -> K,
    key: K,
)
    ensures
        with_key(a + b, key_of, key) == with_key(a, key_of, key) + with_key(b, key_of, key),
        key_of(item) == key ==> with_key(seq![item], key_of, key) == seq![item],
        key_of(item) != key ==> with_key(seq![item], key_of, key) == Seq::<A>::empty(),
    decreases b.len(),
{
    let one = seq![item];
    assert(one.drop_last() =~= Seq::<A>::empty());
    reveal_with_fuel(with_key, 2);
    if key_of(item) == key {
        assert(with_key(one, key_of, key) =~= one);
    }
    if b.len() == 0 {
        assert(a + b =~= a);
        assert(with_key(b, key_of, key) =~= Seq::<A>::empty());
        assert(with_key(a, key_of, key) + with_key(b, key_of, key) =~= with_key(a, key_of, key));
    } else {
        picking_by_key_is_itemwise(a, b.drop_last(), item, key_of, key);
        assert((a + b).drop_last() =~= a + b.drop_last());
        assert((a + b).last() == b.last());
        assert(with_key(a + b, key_of, key) =~= with_key(a, key_of, key) + with_key(
            b,
            key_of,
            key,
        ));
    }
}

/// A stable sort is in order, holds what came, and keeps items that neither comes before the
/// other in the order they came in.
pub proof fn sorting_keeps_the_order_of_equals<A>(
    lt: spec_fn(A, A) -> bool,
    items: Seq<A>,
    out: Seq<A>,
    a: int,
    b: int,
) -> (r: (int, int))
    requires
        is_stable_sort(lt, items, out),
        items.len() <= usize::MAX,
        0 <= a < b < items.len(),
        !lt(items[a], items[b]),
        !lt(items[b], items[a]),
    ensures
        out.len() == items.len(),
        0 <= r.0 < r.1 < out.len(),
        out[r.0] == items[a],
        out[r.1] == items[b],
{
    let order = choose|order: Seq<usize>| #[trigger] arranges(lt, items, order, out);
    assert(order.contains(a as usize) && order.contains(b as usize));
    let p = choose|p: int| 0 <= p < order.len() && order[p] == a as usize;
    let q = choose|q: int| 0 <= q < order.len() && order[q] == b as usize;
    assert(out[p] == items[a] && out[q] == items[b]);
    (p, q)
}

} // verus!
