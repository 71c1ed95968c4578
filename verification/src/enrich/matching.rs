//! Name matching: how alike two titles are.

use vstd::prelude::*;

use crate::naming::sanitize_title;
use crate::text::{
    chars_of, dropped_char, is_text, join_chars, lowered, same_chars, slice_of, split_on_char,
    string_of,
};

verus! {

// --- Normalization ----------------------------------------------------------

/// Those of the parts that are not empty.
pub open spec fn filled(parts: Seq<Seq<char>>) -> Seq<Seq<char>>
    decreases parts.len(),
{
    if parts.len() == 0 {
        parts
    } else {
        let rest = filled(parts.drop_last());
        if parts.last().len() == 0 {
            rest
        } else {
            rest.push(parts.last())
        }
    }
}

/// The words of a title: those of its sanitized form, in lowercase.
pub open spec fn title_words(name: Seq<char>) -> Seq<Seq<char>> {
    filled(
        crate::text::split_char(crate::text::lower(crate::naming::sanitized(name)), '-'),
    )
}

/// Words without a leading `the`, unless it is the only one.
pub open spec fn without_article(words: Seq<Seq<char>>) -> Seq<Seq<char>> {
    if words.len() > 1 && words[0] == "the"@ {
        words.skip(1)
    } else {
        words
    }
}

/// A title as it is compared.
pub open spec fn normalized(name: Seq<char>) -> Seq<char> {
    crate::text::join(without_article(title_words(name)), " "@)
}

/// Those of the parts that are not empty.
fn keep_filled(parts: &[Vec<char>]) -> (r: Vec<Vec<char>>)
    ensures
        crate::text::parts_view(r@) == filled(crate::text::parts_view(parts@)),
{
    let ghost pv = crate::text::parts_view(parts@);
    let mut r: Vec<Vec<char>> = Vec::new();
    let mut i: usize = 0;
    assert(pv.take(0) =~= Seq::empty());
    assert(crate::text::parts_view(r@) =~= Seq::empty());
    while i < parts.len()
        invariant
            i <= parts@.len(),
            pv == crate::text::parts_view(parts@),
            crate::text::parts_view(r@) == filled(pv.take(i as int)),
        decreases parts@.len() - i,
    {
        let ghost had = r@;
        proof {
            assert(pv.take(i + 1).drop_last() =~= pv.take(i as int));
            assert(pv[i as int] == parts@[i as int]@);
        }
        let n = parts[i].len();
        if n > 0 {
            let w = slice_of(&parts[i], 0, n);
            assert(w@ =~= parts@[i as int]@);
            r.push(w);
            assert(crate::text::parts_view(r@) =~= crate::text::parts_view(had).push(w@));
        }
        i += 1;
    }
    assert(pv.take(i as int) =~= pv);
    r
}

/// Normalize a title for comparison: lowercase, alphanumeric words only, with a
/// leading `"the"` dropped. Reuses the vault's title sanitizer as the base.
///
/// Only `"the"` is stripped — never `"a"`/`"an"`, which are part of real titles
/// (`A-10`, `A-Train`) far more often than they are articles here.
pub fn normalize(name: &str) -> (r: String)
    ensures
        r@ == normalized(name@),
{
    let kebab = sanitize_title(name);
    let lower = lowered(&chars_of(&kebab));
    let parts = split_on_char(&lower, '-');
    let mut words = keep_filled(&parts);
    let ghost wv = crate::text::parts_view(words@);
    if words.len() > 1 && is_text(&words[0], "the") {
        let _article = words.remove(0);
        assert(crate::text::parts_view(words@) =~= wv.skip(1));
    }
    string_of(&join_chars(&words, " "))
}

/// Text with a space for each dash.
pub open spec fn spaced(s: Seq<char>) -> Seq<char> {
    s.map_values(
        |c: char|
            if c == '-' {
                ' '
            } else {
                c
            },
    )
}

/// The words of a title as one text: its sanitized form in lowercase, with a space for each
/// dash.
pub open spec fn words_text(name: Seq<char>) -> Seq<char> {
    spaced(crate::text::lower(crate::naming::sanitized(name)))
}

/// Joined parts begin with the first of them.
proof fn lemma_join_first(parts: Seq<Seq<char>>, sep: Seq<char>)
    requires
        parts.len() > 1,
    ensures
        crate::text::join(parts, sep) == parts[0] + sep + crate::text::join(parts.skip(1), sep),
    decreases parts.len(),
{
    let rest = parts.skip(1);
    if parts.len() == 2 {
        reveal_with_fuel(crate::text::join, 3);
        assert(parts.drop_last()[0] == parts[0]);
    } else {
        let init = parts.drop_last();
        lemma_join_first(init, sep);
        assert(init.skip(1) =~= rest.drop_last());
        assert(rest.last() == parts.last());
        assert(crate::text::join(parts, sep) =~= parts[0] + sep + crate::text::join(rest, sep));
    }
}

/// Splitting at dashes and joining with spaces puts a space for each dash.
proof fn lemma_split_joined(s: Seq<char>)
    ensures
        crate::text::split_char(s, '-').len() > 0,
        crate::text::join(crate::text::split_char(s, '-'), " "@) == spaced(s),
    decreases s.len(),
{
    reveal_strlit(" ");
    crate::text::lemma_find_char(s, '-', 0);
    let parts = crate::text::split_char(s, '-');
    match crate::text::find_char(s, '-') {
        None => {
            assert(spaced(s) =~= s);
        },
        Some(i) => {
            let rest = s.skip(i + 1);
            lemma_split_joined(rest);
            assert(parts.skip(1) =~= crate::text::split_char(rest, '-'));
            lemma_join_first(parts, " "@);
            assert(spaced(s) =~= s.take(i) + " "@ + spaced(rest));
        },
    }
}

/// Between single inner dashes there are no empty parts.
proof fn lemma_parts_filled(s: Seq<char>)
    requires
        s.len() > 0,
        s[0] != '-',
        s.last() != '-',
        crate::naming::single_dashes(s),
    ensures
        forall|j: int|
            0 <= j < crate::text::split_char(s, '-').len() ==> (#[trigger] crate::text::split_char(
                s,
                '-',
            )[j]).len() > 0,
    decreases s.len(),
{
    crate::text::lemma_find_char(s, '-', 0);
    let parts = crate::text::split_char(s, '-');
    match crate::text::find_char(s, '-') {
        None => {},
        Some(i) => {
            let rest = s.skip(i + 1);
            assert(i + 1 < s.len());
            assert(!(s[i] == '-' && s[i + 1] == '-'));
            assert(rest.last() == s.last());
            assert forall|k: int| 0 < k < rest.len() implies !(rest[k - 1] == '-'
                && #[trigger] rest[k] == '-') by {
                assert(!(s[i + k] == '-' && s[i + 1 + k] == '-'));
            }
            lemma_parts_filled(rest);
            assert forall|j: int| 0 <= j < parts.len() implies (#[trigger] parts[j]).len() > 0 by {
                if j > 0 {
                    assert(parts[j] == crate::text::split_char(rest, '-')[j - 1]);
                }
            }
        },
    }
}

/// Where no part is empty, all are kept.
proof fn lemma_all_filled(parts: Seq<Seq<char>>)
    requires
        forall|j: int| 0 <= j < parts.len() ==> (#[trigger] parts[j]).len() > 0,
    ensures
        filled(parts) == parts,
    decreases parts.len(),
{
    if parts.len() > 0 {
        let init = parts.drop_last();
        assert forall|j: int| 0 <= j < init.len() implies (#[trigger] init[j]).len() > 0 by {
            assert(init[j] == parts[j]);
        }
        lemma_all_filled(init);
        assert(filled(parts) =~= parts);
    }
}

/// A sanitized title in lowercase has no spaces, its dashes stand alone and inside, and its
/// words are the parts between them.
proof fn lemma_title_words(name: Seq<char>)
    requires
        crate::naming::sanitized(name).len() > 0,
    ensures
        title_words(name) == crate::text::split_char(
            crate::text::lower(crate::naming::sanitized(name)),
            '-',
        ),
        title_words(name).len() > 0,
        crate::text::join(title_words(name), " "@) == words_text(name),
        !crate::text::lower(crate::naming::sanitized(name)).contains(' '),
{
    let k = crate::naming::sanitized(name);
    let m = crate::text::lower(k);
    crate::naming::lemma_sanitized_is_kebab(name);
    assert forall|i: int| 0 <= i < m.len() implies (#[trigger] m[i] == '-' <==> k[i] == '-')
        && m[i] != ' ' by {
        assert(crate::text::is_alnum(k[i]) || k[i] == '-');
        assert(m[i] == crate::text::lower_char(k[i]));
    }
    assert forall|i: int| 0 < i < m.len() implies !(m[i - 1] == '-' && #[trigger] m[i] == '-') by {
        assert(!(k[i - 1] == '-' && k[i] == '-'));
        assert(m[i - 1] == '-' <==> k[i - 1] == '-');
    }
    lemma_parts_filled(m);
    lemma_all_filled(crate::text::split_char(m, '-'));
    lemma_split_joined(m);
}

/// One leading `the` is dropped and nothing else: a title is compared by its words, without
/// the first where that is `the` and another follows it.
pub proof fn only_a_leading_the_is_dropped(name: Seq<char>)
    ensures
        normalized(name) == if crate::text::starts_with(words_text(name), "the "@) {
            words_text(name).skip(4)
        } else {
            words_text(name)
        },
{
    reveal_strlit("the ");
    reveal_strlit("the");
    reveal_strlit(" ");
    let k = crate::naming::sanitized(name);
    let m = crate::text::lower(k);
    let w = words_text(name);
    if k.len() == 0 {
        crate::text::lemma_find_char(m, '-', 0);
        assert(crate::text::split_char(m, '-') =~= seq![m]);
        reveal_with_fuel(filled, 2);
        assert(seq![m].drop_last() =~= Seq::empty());
        assert(title_words(name) =~= Seq::empty());
        assert(normalized(name) =~= w);
    } else {
        lemma_title_words(name);
        let parts = title_words(name);
        crate::text::lemma_find_char(m, '-', 0);
        let first = parts[0];
        assert forall|i: int| 0 <= i < first.len() implies #[trigger] first[i] != ' ' by {
            assert(first[i] == m[i]);
            assert(m.contains(m[i]));
        }
        if crate::text::starts_with(w, "the "@) {
            let head = w.subrange(0, 4);
            assert(head == "the "@);
            assert(head[0] == w[0] && head[1] == w[1] && head[2] == w[2] && head[3] == w[3]);
        }
        if parts.len() > 1 {
            lemma_join_first(parts, " "@);
            let rest = crate::text::join(parts.skip(1), " "@);
            assert(w == first + " "@ + rest);
            assert(w[first.len() as int] == ' ');
            assert forall|i: int| 0 <= i < first.len() implies w[i] == #[trigger] first[i] by {}
            if first == "the"@ {
                assert(w.subrange(0, 4) =~= "the "@);
                assert(w.skip(4) =~= rest);
            } else if crate::text::starts_with(w, "the "@) {
                if first.len() > 3 {
                    assert(w[3] == first[3]);
                }
                assert(first =~= "the"@);
            }
        } else {
            assert(w == first);
        }
    }
}

/// A leading `The` is no part of what a title is compared by.
pub proof fn leading_the_is_ignored(name: Seq<char>)
    requires
        crate::naming::sanitized(name).len() > 0,
    ensures
        normalized("The "@ + name) == words_text(name),
{
    reveal_strlit("The ");
    reveal_strlit("the ");
    let the = seq!['T', 'h', 'e'];
    assert("The "@ =~= the.push(' '));
    crate::naming::first_word_stays_first(the, name);
    let k = crate::naming::sanitized(name);
    let w = words_text("The "@ + name);
    assert(w =~= "the "@ + words_text(name)) by {
        let long = the.push('-') + k;
        assert(crate::text::lower(long) =~= seq!['t', 'h', 'e', '-'] + crate::text::lower(k));
    }
    assert(w.subrange(0, 4) =~= "the "@);
    assert(w.skip(4) =~= words_text(name));
    only_a_leading_the_is_dropped("The "@ + name);
}

// --- Edit distance ----------------------------------------------------------

/// The smaller of two numbers.
pub open spec fn least(a: nat, b: nat) -> nat {
    if a <= b {
        a
    } else {
        b
    }
}

/// The edit distance of two texts: how many characters have to be inserted, removed
/// or replaced to make one the other.
pub open spec fn distance(a: Seq<char>, b: Seq<char>) -> nat
    decreases a.len(), b.len(),
{
    if a.len() == 0 {
        b.len()
    } else if b.len() == 0 {
        a.len()
    } else {
        least(
            least(distance(a.drop_last(), b) + 1, distance(a, b.drop_last()) + 1),
            distance(a.drop_last(), b.drop_last()) + if a.last() == b.last() {
                0nat
            } else {
                1nat
            },
        )
    }
}

/// Two texts are never further apart than the longer one is long.
pub proof fn distance_is_at_most_the_longer(a: Seq<char>, b: Seq<char>)
    ensures
        distance(a, b) <= if a.len() >= b.len() {
            a.len()
        } else {
            b.len()
        },
    decreases a.len(), b.len(),
{
    if a.len() > 0 && b.len() > 0 {
        distance_is_at_most_the_longer(a.drop_last(), b.drop_last());
    }
}

/// A text has no distance from itself.
pub proof fn distance_to_itself_is_none(a: Seq<char>)
    ensures
        distance(a, a) == 0,
    decreases a.len(),
{
    if a.len() > 0 {
        distance_to_itself_is_none(a.drop_last());
    }
}

/// The distance is the same both ways.
pub proof fn distance_is_symmetric(a: Seq<char>, b: Seq<char>)
    ensures
        distance(a, b) == distance(b, a),
    decreases a.len(), b.len(),
{
    if a.len() > 0 && b.len() > 0 {
        distance_is_symmetric(a.drop_last(), b);
        distance_is_symmetric(a, b.drop_last());
        distance_is_symmetric(a.drop_last(), b.drop_last());
    }
}

/// Texts without a distance are the same.
pub proof fn no_distance_means_equal(a: Seq<char>, b: Seq<char>)
    requires
        distance(a, b) == 0,
    ensures
        a == b,
    decreases a.len(), b.len(),
{
    if a.len() == 0 {
        assert(a =~= b);
    } else if b.len() == 0 {
        assert(a =~= b);
    } else {
        no_distance_means_equal(a.drop_last(), b.drop_last());
        assert(a =~= a.drop_last().push(a.last()));
        assert(b =~= b.drop_last().push(b.last()));
    }
}

/// The distances of one text to every beginning of another.
pub open spec fn distance_row(a: Seq<char>, b: Seq<char>) -> Seq<nat> {
    Seq::new(b.len() + 1, |j: int| distance(a, b.take(j)))
}

/// What a row of distances holds.
pub open spec fn row_view(row: Seq<usize>) -> Seq<nat> {
    row.map_values(|x: usize| x as nat)
}

/// The row of distances for one more character of the first text.
fn next_row(a: &[char], i: usize, b: &[char], prev: &[usize]) -> (cur: Vec<usize>)
    requires
        i < a@.len(),
        row_view(prev@) == distance_row(a@.take(i as int), b@),
    ensures
        row_view(cur@) == distance_row(a@.take(i + 1), b@),
{
    let ghost head = a@.take(i as int);
    let ghost more = a@.take(i + 1);
    let n = a.len();
    assert(more.drop_last() =~= head);
    assert(more.last() == a@[i as int]);
    let mut cur: Vec<usize> = Vec::new();
    cur.push(i + 1);
    proof {
        assert(b@.take(0) =~= Seq::empty());
        assert(row_view(cur@) =~= distance_row(more, b@).take(1));
        assert(row_view(prev@).len() == distance_row(head, b@).len());
    }
    let mut j: usize = 0;
    while j < b.len()
        invariant
            i < a@.len(),
            n == a@.len(),
            j <= b@.len(),
            head == a@.take(i as int),
            more == a@.take(i + 1),
            more.drop_last() == head,
            more.last() == a@[i as int],
            row_view(prev@) == distance_row(head, b@),
            prev@.len() == b@.len() + 1,
            cur@.len() == j + 1,
            row_view(cur@) == distance_row(more, b@).take(j + 1),
        decreases b@.len() - j,
    {
        let total = b.len();
        let ghost row = distance_row(head, b@);
        let ghost full = distance_row(more, b@);
        proof {
            assert(b@.take(j + 1).drop_last() =~= b@.take(j as int));
            assert(b@.take(j + 1).last() == b@[j as int]);
            assert(row_view(prev@)[j as int] == row[j as int]);
            assert(row_view(prev@)[j + 1] == row[j + 1]);
            assert(row_view(cur@)[j as int] == full.take(j + 1)[j as int]);
            assert(prev@[j as int] == distance(head, b@.take(j as int)));
            assert(prev@[j + 1] == distance(head, b@.take(j + 1)));
            assert(cur@[j as int] == distance(more, b@.take(j as int)));
            distance_is_at_most_the_longer(more, b@.take(j + 1));
        }
        let up = prev[j + 1];
        let left = cur[j];
        let diagonal = prev[j];
        let step = if up < left {
            up
        } else {
            left
        };
        let d = if a[i] == b[j] {
            if step < diagonal {
                step + 1
            } else {
                diagonal
            }
        } else if step < diagonal {
            step + 1
        } else {
            diagonal + 1
        };
        let ghost had = cur@;
        cur.push(d);
        proof {
            assert(d == full[j + 1]);
            assert(full.take(j + 2) =~= full.take(j + 1).push(full[j + 1]));
            assert(row_view(cur@) =~= row_view(had).push(d as nat));
        }
        j += 1;
    }
    assert(distance_row(more, b@).take(j + 1) =~= distance_row(more, b@));
    cur
}

/// Classic Levenshtein edit distance (character-wise).
pub fn levenshtein(a: &str, b: &str) -> (r: usize)
    ensures
        r == distance(a@, b@),
{
    let a = chars_of(a);
    let b = chars_of(b);
    let mut prev: Vec<usize> = Vec::new();
    prev.push(0);
    let ghost none = a@.take(0);
    assert(none =~= Seq::empty());
    let mut k: usize = 0;
    proof {
        assert(b@.take(0) =~= Seq::empty());
        assert(row_view(prev@) =~= distance_row(none, b@).take(1));
    }
    while k < b.len()
        invariant
            k <= b@.len(),
            none.len() == 0,
            prev@.len() == k + 1,
            row_view(prev@) == distance_row(none, b@).take(k + 1),
        decreases b@.len() - k,
    {
        let total = b.len();
        let ghost had = prev@;
        let ghost full = distance_row(none, b@);
        k += 1;
        prev.push(k);
        proof {
            assert(b@.take(k as int).len() == k);
            assert(full[k as int] == k);
            assert(full.take(k + 1) =~= full.take(k as int).push(full[k as int]));
            assert(row_view(prev@) =~= row_view(had).push(k as nat));
        }
    }
    assert(distance_row(none, b@).take(k + 1) =~= distance_row(none, b@));
    let mut i: usize = 0;
    while i < a.len()
        invariant
            i <= a@.len(),
            row_view(prev@) == distance_row(a@.take(i as int), b@),
        decreases a@.len() - i,
    {
        prev = next_row(&a, i, &b, &prev);
        i += 1;
    }
    proof {
        assert(a@.take(i as int) =~= a@);
        assert(b@.take(b@.len() as int) =~= b@);
        assert(row_view(prev@).len() == b@.len() + 1);
        assert(row_view(prev@)[b@.len() as int] == distance_row(a@, b@)[b@.len() as int]);
    }
    prev[b.len()]
}

// --- Similarity -------------------------------------------------------------

/// What the similarity of two titles is made of.
#[derive(Debug, Clone, Copy, PartialEq, Eq, Structural)]
pub enum SimilarityParts {
    /// One of the titles has no words: they are not alike at all.
    Nothing,
    /// The titles are the same but for their separators.
    Same,
    /// Half token-Jaccard over the words (shared words over all words), half
    /// edit-distance ratio over the separator-collapsed forms (one less the distance
    /// over the length of the longer).
    Mixed { shared: usize, all: u128, distance: usize, longer: usize },
}

/// The words of a normalized title.
pub open spec fn tokens(normal: Seq<char>) -> Set<Seq<char>> {
    crate::text::split_char(normal, ' ').to_set()
}

/// What the similarity of two normalized titles is made of.
pub open spec fn parts_of(na: Seq<char>, nb: Seq<char>) -> SimilarityParts {
    let sa = crate::text::without_char(na, ' ');
    let sb = crate::text::without_char(nb, ' ');
    if na.len() == 0 || nb.len() == 0 {
        SimilarityParts::Nothing
    } else if sa == sb {
        SimilarityParts::Same
    } else {
        SimilarityParts::Mixed {
            shared: tokens(na).intersect(tokens(nb)).len() as usize,
            all: tokens(na).union(tokens(nb)).len() as u128,
            distance: distance(sa, sb) as usize,
            longer: (if sa.len() >= sb.len() {
                sa.len()
            } else {
                sb.len()
            }) as usize,
        }
    }
}

/// Whether `w` is one of the words.
fn has_word(words: &[Vec<char>], w: &[char]) -> (r: bool)
    ensures
        r == crate::text::parts_view(words@).contains(w@),
{
    let mut i: usize = 0;
    while i < words.len()
        invariant
            i <= words@.len(),
            forall|j: int| 0 <= j < i ==> (#[trigger] words@[j])@ != w@,
        decreases words@.len() - i,
    {
        if same_chars(&words[i], w) {
            assert(crate::text::parts_view(words@)[i as int] == w@);
            return true;
        }
        i += 1;
    }
    assert forall|j: int| 0 <= j < words@.len() implies crate::text::parts_view(words@)[j] != w@ by {
        assert(words@[j]@ != w@);
    }
    false
}

/// Whether `d` holds the words of `all`, each once.
spec fn are_distinct(all: Seq<Seq<char>>, d: Seq<Seq<char>>) -> bool {
    &&& d.no_duplicates()
    &&& d.to_set() == all.to_set()
}

/// Words, each once.
fn distinct(words: &[Vec<char>]) -> (d: Vec<Vec<char>>)
    ensures
        are_distinct(crate::text::parts_view(words@), crate::text::parts_view(d@)),
        d@.len() <= words@.len(),
{
    let ghost wv = crate::text::parts_view(words@);
    let mut d: Vec<Vec<char>> = Vec::new();
    let mut i: usize = 0;
    assert(wv.take(0) =~= Seq::empty());
    assert(crate::text::parts_view(d@) =~= Seq::empty());
    while i < words.len()
        invariant
            i <= words@.len(),
            d@.len() <= i,
            wv == crate::text::parts_view(words@),
            are_distinct(wv.take(i as int), crate::text::parts_view(d@)),
        decreases words@.len() - i,
    {
        let ghost had = crate::text::parts_view(d@);
        let ghost w = words@[i as int]@;
        let found = has_word(&d, &words[i]);
        proof {
            assert(wv[i as int] == w);
            lemma_set_grows(wv, i as int);
            if found {
                assert(had.to_set().contains(w));
                assert(had.to_set().insert(w) =~= had.to_set());
            }
        }
        if !found {
            let n = words[i].len();
            let x = slice_of(&words[i], 0, n);
            assert(x@ =~= w);
            d.push(x);
            proof {
                assert(crate::text::parts_view(d@) =~= had.push(w));
                lemma_push_set(had, w);
            }
        }
        i += 1;
    }
    assert(wv.take(i as int) =~= wv);
    d
}

/// One more word makes the set of words larger by it.
proof fn lemma_push_set(s: Seq<Seq<char>>, w: Seq<char>)
    ensures
        s.push(w).to_set() == s.to_set().insert(w),
        s.no_duplicates() && !s.contains(w) ==> s.push(w).no_duplicates(),
{
    let p = s.push(w);
    assert forall|x: Seq<char>| p.to_set().contains(x) <==> s.to_set().insert(w).contains(x) by {
        if p.contains(x) {
            let i = choose|i: int| 0 <= i < p.len() && p[i] == x;
            if i < s.len() {
                assert(s[i] == x);
            }
        }
        if s.contains(x) {
            let i = choose|i: int| 0 <= i < s.len() && s[i] == x;
            assert(p[i] == x);
        }
        if x == w {
            assert(p[s.len() as int] == w);
        }
    }
    assert(p.to_set() =~= s.to_set().insert(w));
}

/// The words up to one more.
proof fn lemma_set_grows(s: Seq<Seq<char>>, i: int)
    requires
        0 <= i < s.len(),
    ensures
        s.take(i + 1).to_set() == s.take(i).to_set().insert(s[i]),
{
    assert(s.take(i + 1) =~= s.take(i).push(s[i]));
    lemma_push_set(s.take(i), s[i]);
}

/// How many of the words of `a` are words of `b`.
fn count_shared(a: &[Vec<char>], b: &[Vec<char>]) -> (r: usize)
    requires
        crate::text::parts_view(a@).no_duplicates(),
    ensures
        r == crate::text::parts_view(a@).to_set().intersect(
            crate::text::parts_view(b@).to_set(),
        ).len(),
        r <= a@.len(),
{
    let ghost av = crate::text::parts_view(a@);
    let ghost bs = crate::text::parts_view(b@).to_set();
    let mut count: usize = 0;
    let mut i: usize = 0;
    proof {
        assert(av.take(0) =~= Seq::empty());
        assert(av.take(0).to_set().intersect(bs) =~= Set::empty());
    }
    while i < a.len()
        invariant
            i <= a@.len(),
            av == crate::text::parts_view(a@),
            bs == crate::text::parts_view(b@).to_set(),
            av.no_duplicates(),
            count == av.take(i as int).to_set().intersect(bs).len(),
            av.take(i as int).to_set().intersect(bs).finite(),
            count <= i,
        decreases a@.len() - i,
    {
        let total = a.len();
        let ghost w = av[i as int];
        let found = has_word(b, &a[i]);
        proof {
            let had = av.take(i as int).to_set().intersect(bs);
            let now = av.take(i + 1).to_set().intersect(bs);
            lemma_set_grows(av, i as int);
            assert(a@[i as int]@ == w);
            assert(!av.take(i as int).contains(w)) by {
                if av.take(i as int).contains(w) {
                    let k = choose|k: int| 0 <= k < i && av.take(i as int)[k] == w;
                    assert(av[k] == av[i as int]);
                }
            }
            if found {
                assert(now =~= had.insert(w));
            } else {
                assert(now =~= had);
            }
        }
        if found {
            count += 1;
        }
        i += 1;
    }
    assert(av.take(i as int) =~= av);
    count
}

/// The union of two sets of words, by how many they share.
proof fn lemma_union_len(a: Seq<Seq<char>>, b: Seq<Seq<char>>)
    requires
        a.no_duplicates(),
        b.no_duplicates(),
    ensures
        a.to_set().union(b.to_set()).len() == a.len() + b.len() - a.to_set().intersect(
            b.to_set(),
        ).len(),
        a.to_set().intersect(b.to_set()).len() <= b.len(),
{
    a.unique_seq_to_set();
    b.unique_seq_to_set();
    vstd::set_lib::lemma_set_intersect_union_lens(a.to_set(), b.to_set());
    vstd::set_lib::lemma_len_intersect(b.to_set(), a.to_set());
    assert(a.to_set().intersect(b.to_set()) =~= b.to_set().intersect(a.to_set()));
}

/// Compare two titles: what their similarity in `0..1` is made of.
pub fn similarity_parts(a: &str, b: &str) -> (r: SimilarityParts)
    ensures
        r == parts_of(normalized(a@), normalized(b@)),
{
    let na = chars_of(&normalize(a));
    let nb = chars_of(&normalize(b));
    if na.len() == 0 || nb.len() == 0 {
        return SimilarityParts::Nothing;
    }
    let sa = dropped_char(&na, ' ');
    let sb = dropped_char(&nb, ' ');
    if same_chars(&sa, &sb) {
        return SimilarityParts::Same;
    }
    let wa = split_on_char(&na, ' ');
    let wb = split_on_char(&nb, ' ');
    let ta = distinct(&wa);
    let tb = distinct(&wb);
    let shared = count_shared(&ta, &tb);
    proof {
        lemma_union_len(crate::text::parts_view(ta@), crate::text::parts_view(tb@));
        distance_is_at_most_the_longer(sa@, sb@);
    }
    let all = ta.len() as u128 + (tb.len() - shared) as u128;
    let longer = if sa.len() >= sb.len() {
        sa.len()
    } else {
        sb.len()
    };
    let distance = levenshtein(&string_of(&sa), &string_of(&sb));
    SimilarityParts::Mixed { shared, all, distance, longer }
}

// --- Laws -------------------------------------------------------------------

/// The similarity of two titles lies in `0..1`: no more words are shared than there
/// are, the distance is no more than the longer length, and neither is divided by
/// nothing.
pub proof fn similarity_is_a_ratio(na: Seq<char>, nb: Seq<char>)
    requires
        na.len() > 0,
        nb.len() > 0,
        crate::text::without_char(na, ' ') != crate::text::without_char(nb, ' '),
    ensures
        tokens(na).intersect(tokens(nb)).len() <= tokens(na).union(tokens(nb)).len(),
        tokens(na).union(tokens(nb)).len() > 0,
        ({
            let sa = crate::text::without_char(na, ' ');
            let sb = crate::text::without_char(nb, ' ');
            let longer = if sa.len() >= sb.len() {
                sa.len()
            } else {
                sb.len()
            };
            longer > 0 && distance(sa, sb) <= longer
        }),
{
    let sa = crate::text::without_char(na, ' ');
    let sb = crate::text::without_char(nb, ' ');
    distance_is_at_most_the_longer(sa, sb);
    if sa.len() == 0 && sb.len() == 0 {
        assert(sa =~= sb);
    }
    let wa = crate::text::split_char(na, ' ');
    let ta = tokens(na);
    let tb = tokens(nb);
    assert(wa.contains(wa[0]));
    assert(ta.contains(wa[0]));
    assert(ta.union(tb).contains(wa[0]));
    vstd::seq_lib::seq_to_set_is_finite(wa);
    vstd::seq_lib::seq_to_set_is_finite(crate::text::split_char(nb, ' '));
    vstd::set_lib::lemma_len_subset(ta.intersect(tb), ta.union(tb));
    if ta.union(tb).len() == 0 {
        assert(ta.union(tb) =~= Set::empty());
    }
}

/// The similarity is the same both ways.
pub proof fn similarity_is_symmetric(na: Seq<char>, nb: Seq<char>)
    ensures
        parts_of(na, nb) == parts_of(nb, na),
{
    let sa = crate::text::without_char(na, ' ');
    let sb = crate::text::without_char(nb, ' ');
    distance_is_symmetric(sa, sb);
    assert(tokens(na).intersect(tokens(nb)) =~= tokens(nb).intersect(tokens(na)));
    assert(tokens(na).union(tokens(nb)) =~= tokens(nb).union(tokens(na)));
}

/// Whether one text is another with one character put in, taken out or put in place of one.
pub open spec fn is_edit(a: Seq<char>, b: Seq<char>) -> bool {
    exists|p: Seq<char>, s: Seq<char>| #[trigger] edits_between(a, b, p, s)
}

/// Whether two texts differ in one character between a front and an end.
pub open spec fn edits_between(a: Seq<char>, b: Seq<char>, p: Seq<char>, s: Seq<char>) -> bool {
    ||| a == p + s && b.len() == a.len() + 1 && b == p.push(b[p.len() as int]) + s
    ||| b == p + s && a.len() == b.len() + 1 && a == p.push(a[p.len() as int]) + s
    ||| a.len() == b.len() == p.len() + 1 + s.len() && a == p.push(a[p.len() as int]) + s && b
        == p.push(b[p.len() as int]) + s
}

/// A step of the distance: each of its three ways bounds it.
proof fn lemma_steps(a: Seq<char>, b: Seq<char>)
    requires
        a.len() > 0,
    ensures
        distance(a, b) <= distance(a.drop_last(), b) + 1,
        b.len() > 0 ==> distance(a, b) <= distance(a, b.drop_last()) + 1,
        b.len() > 0 ==> distance(a, b) <= distance(a.drop_last(), b.drop_last()) + 1,
        b.len() > 0 && a.last() == b.last() ==> distance(a, b) <= distance(
            a.drop_last(),
            b.drop_last(),
        ),
{
}

/// One character more or less, or another, at the end changes the distance by at most one.
proof fn lemma_last_edit(a: Seq<char>, b: Seq<char>, x: char, y: char)
    ensures
        distance(a, b.push(x)) <= distance(a, b) + 1,
        distance(a, b) <= distance(a, b.push(x)) + 1,
        distance(a, b.push(y)) <= distance(a, b.push(x)) + 1,
    decreases a.len(),
{
    assert(b.push(x).drop_last() =~= b);
    assert(b.push(y).drop_last() =~= b);
    if a.len() > 0 {
        lemma_last_edit(a.drop_last(), b, x, y);
        lemma_steps(a, b.push(x));
        lemma_steps(a, b.push(y));
        lemma_steps(a, b);
    }
}

/// One character more or less, or another, anywhere changes the distance by at most one.
proof fn lemma_edit(a: Seq<char>, p: Seq<char>, s: Seq<char>, x: char, y: char)
    ensures
        distance(a, p.push(x) + s) <= distance(a, p + s) + 1,
        distance(a, p + s) <= distance(a, p.push(x) + s) + 1,
        distance(a, p.push(y) + s) <= distance(a, p.push(x) + s) + 1,
    decreases s.len(), a.len(),
{
    let b = p + s;
    let bx = p.push(x) + s;
    let by = p.push(y) + s;
    if s.len() == 0 {
        assert(b =~= p);
        assert(bx =~= p.push(x));
        assert(by =~= p.push(y));
        lemma_last_edit(a, p, x, y);
    } else {
        let t = s.drop_last();
        assert(b.drop_last() =~= p + t);
        assert(bx.drop_last() =~= p.push(x) + t);
        assert(by.drop_last() =~= p.push(y) + t);
        assert(b.last() == s.last() && bx.last() == s.last() && by.last() == s.last());
        if a.len() > 0 {
            lemma_edit(a.drop_last(), p, s, x, y);
            lemma_edit(a, p, t, x, y);
            lemma_edit(a.drop_last(), p, t, x, y);
        }
    }
}

/// One edit changes the distance by at most one.
pub proof fn one_edit_is_one_step(a: Seq<char>, b: Seq<char>, c: Seq<char>)
    requires
        is_edit(b, c),
    ensures
        distance(a, c) <= distance(a, b) + 1,
        distance(a, b) <= distance(a, c) + 1,
{
    let (p, s) = choose|p: Seq<char>, s: Seq<char>| #[trigger] edits_between(b, c, p, s);
    let n = p.len() as int;
    let x = if b.len() > n { b[n] } else { 'x' };
    let y = if c.len() > n { c[n] } else { 'x' };
    lemma_edit(a, p, s, x, y);
    lemma_edit(a, p, s, y, x);
}

/// The distance is at least the difference in length.
proof fn lemma_length_difference(a: Seq<char>, b: Seq<char>)
    ensures
        distance(a, b) >= a.len() - b.len(),
        distance(a, b) >= b.len() - a.len(),
    decreases a.len(), b.len(),
{
    if a.len() > 0 && b.len() > 0 {
        lemma_length_difference(a.drop_last(), b);
        lemma_length_difference(a, b.drop_last());
        lemma_length_difference(a.drop_last(), b.drop_last());
    }
}

/// A distance is made of edits: where there is one, some text is one edit nearer. So the
/// distance of two texts is the least number of edits that lead from the one to the other.
pub proof fn distance_is_made_of_edits(a: Seq<char>, b: Seq<char>) -> (c: Seq<char>)
    requires
        distance(a, b) > 0,
    ensures
        is_edit(c, b),
        distance(a, c) == distance(a, b) - 1,
    decreases a.len(), b.len(),
{
    if a.len() == 0 {
        let c = b.drop_last();
        assert(b =~= c.push(b[c.len() as int]) + Seq::<char>::empty());
        assert(c =~= c + Seq::<char>::empty());
        assert(edits_between(c, b, c, Seq::empty()));
        c
    } else if b.len() == 0 {
        let c = seq![a.last()];
        assert(c.drop_last() =~= Seq::<char>::empty());
        assert(b =~= Seq::<char>::empty() + Seq::<char>::empty());
        assert(c =~= Seq::<char>::empty().push(c[0]) + Seq::<char>::empty());
        assert(edits_between(c, b, Seq::empty(), Seq::empty()));
        lemma_steps(a, c);
        lemma_length_difference(a, c);
        c
    } else {
        let u = a.drop_last();
        let v = b.drop_last();
        let x = a.last();
        let y = b.last();
        assert(v.push(y) =~= b);
        if distance(a, b) == distance(u, b) + 1 {
            let c = b.push(x);
            assert(c.drop_last() =~= b);
            assert(b =~= b + Seq::<char>::empty());
            assert(c =~= b.push(c[b.len() as int]) + Seq::<char>::empty());
            assert(edits_between(c, b, b, Seq::empty()));
            lemma_steps(a, c);
            one_edit_is_one_step(a, c, b);
            c
        } else if distance(a, b) == distance(a, v) + 1 {
            assert(v =~= v + Seq::<char>::empty());
            assert(b =~= v.push(b[v.len() as int]) + Seq::<char>::empty());
            assert(edits_between(v, b, v, Seq::empty()));
            v
        } else if x != y {
            let c = v.push(x);
            assert(c.drop_last() =~= v);
            assert(c =~= v.push(c[v.len() as int]) + Seq::<char>::empty());
            assert(b =~= v.push(b[v.len() as int]) + Seq::<char>::empty());
            assert(edits_between(c, b, v, Seq::empty()));
            lemma_steps(a, c);
            one_edit_is_one_step(a, c, b);
            c
        } else {
            let d = distance_is_made_of_edits(u, v);
            let (p, s) = choose|p: Seq<char>, s: Seq<char>| #[trigger] edits_between(d, v, p, s);
            let c = d.push(y);
            assert(c.drop_last() =~= d);
            let n = p.len() as int;
            assert(p + s.push(y) =~= (p + s).push(y));
            if d.len() > n {
                assert(p.push(d[n]) + s.push(y) =~= (p.push(d[n]) + s).push(y));
            }
            if v.len() > n {
                assert(p.push(v[n]) + s.push(y) =~= (p.push(v[n]) + s).push(y));
            }
            assert(edits_between(c, b, p, s.push(y)));
            lemma_steps(a, c);
            one_edit_is_one_step(a, c, b);
            c
        }
    }
}

/// How alike two normalized names are: not at all where either is blank, the same where they
/// differ in spaces alone, and otherwise by the words they share out of all their words, and by
/// their distance, spaces left out, against the longer.
pub proof fn similarity_compares_words_and_letters(na: Seq<char>, nb: Seq<char>)
    requires
        na.len() < 0x1_0000,
        nb.len() < 0x1_0000,
    ensures
        ({
            let sa = crate::text::without_char(na, ' ');
            let sb = crate::text::without_char(nb, ' ');
            &&& na.len() == 0 || nb.len() == 0 ==> parts_of(na, nb) is Nothing
            &&& na.len() > 0 && nb.len() > 0 ==> (parts_of(na, nb) is Same <==> sa == sb)
            &&& parts_of(na, nb) matches SimilarityParts::Mixed { shared, all, distance: d, longer }
                ==> {
                &&& d == distance(sa, sb)
                &&& longer == if sa.len() >= sb.len() {
                    sa.len()
                } else {
                    sb.len()
                }
                &&& shared == tokens(na).intersect(tokens(nb)).len()
                &&& all == tokens(na).union(tokens(nb)).len()
            }
        }),
{
    if na.len() > 0 && nb.len() > 0 {
        let sa = crate::text::without_char(na, ' ');
        let sb = crate::text::without_char(nb, ' ');
        lemma_without_shrinks(na);
        lemma_without_shrinks(nb);
        distance_is_at_most_the_longer(sa, sb);
        lemma_token_count(na);
        lemma_token_count(nb);
        let ta = tokens(na);
        let tb = tokens(nb);
        vstd::set_lib::lemma_len_intersect(ta, tb);
        vstd::set_lib::lemma_len_union(ta, tb);
    }
}

/// Leaving a character out makes no text longer.
proof fn lemma_without_shrinks(s: Seq<char>)
    ensures
        crate::text::without_char(s, ' ').len() <= s.len(),
    decreases s.len(),
{
    if s.len() > 0 {
        lemma_without_shrinks(s.drop_last());
    }
}

/// A text has at most one word more than characters.
proof fn lemma_token_count(s: Seq<char>)
    ensures
        tokens(s).finite(),
        tokens(s).len() <= s.len() + 1,
{
    lemma_split_count(s);
    let parts = crate::text::split_char(s, ' ');
    parts.lemma_cardinality_of_set();
    vstd::seq_lib::seq_to_set_is_finite(parts);
}

/// Splitting cuts at most once per character.
proof fn lemma_split_count(s: Seq<char>)
    ensures
        crate::text::split_char(s, ' ').len() <= s.len() + 1,
    decreases s.len(),
{
    crate::text::lemma_find_char(s, ' ', 0);
    if let Some(i) = crate::text::find_char(s, ' ') {
        lemma_split_count(s.skip(i + 1));
    }
}

/// The words of a name are its sanitized form in small letters, with a space for every dash,
/// and a name's tokens are what stands between its spaces.
pub proof fn names_are_compared_by_words(name: Seq<char>, normal: Seq<char>, w: Seq<char>)
    ensures
        words_text(name) == crate::text::replace_char(
            crate::text::lower(crate::naming::sanitized(name)),
            '-',
            ' ',
        ),
        tokens(normal).contains(w) <==> crate::text::split_char(normal, ' ').contains(w),
{
    let l = crate::text::lower(crate::naming::sanitized(name));
    assert(words_text(name) =~= crate::text::replace_char(l, '-', ' '));
}

} // verus!
