//! TOSEC filename parsing, title sanitization, and the canonical filename schema.
//!
//! Canonical schema: `<Title-Kebab>[_v<Ver>][_<lang>][_d<NN>of<MM>]_<uid>.adf`
//! where `_` separates fields and `-` separates words inside the title. Optional
//! fields are omitted when unknown and recovered on read by their shape.

use vstd::prelude::*;

use crate::identity::UID_LEN;
use crate::text::{
    alnum, append_chars, append_text, begins, chars_of, digit, ends, find_text,
    is_text, lowered, only_alnum, only_hex, only_lower, parse_u32, rfind_char_at, slice_of,
    split_on_char, string_of, substring, trim_end_at, trimmed, two_digit_chars,
};

verus! {

/// A parsed TOSEC-style filename. Free-form and best-effort: absent fields are
/// left `None`, and unrecognized parenthesized groups fall through to publisher.
#[derive(Debug, Clone, Default, PartialEq, Eq)]
pub struct TosecName {
    pub title: String,
    pub version: Option<String>,
    pub language: Option<String>,
    pub publisher: Option<String>,
    /// Release qualifier, e.g. `"demo-playable"`, `"preview"`.
    pub qualifier: Option<String>,
    pub year: Option<i32>,
    pub disk_no: Option<u32>,
    pub disk_count: Option<u32>,
    /// Raw bracket contents, e.g. `"cr QTX"`, `"t +9 TLPI"`, `"a2 highscore"`, `"b corrupt file"`.
    pub flags: Vec<String>,
}

/// What a [`TosecName`] holds.
#[verifier::ext_equal]
pub struct TosecFields {
    pub title: Seq<char>,
    pub version: Option<Seq<char>>,
    pub language: Option<Seq<char>>,
    pub publisher: Option<Seq<char>>,
    pub qualifier: Option<Seq<char>>,
    pub year: Option<i32>,
    pub disk_no: Option<u32>,
    pub disk_count: Option<u32>,
    pub flags: Seq<Seq<char>>,
}

impl View for TosecName {
    type V = TosecFields;

    open spec fn view(&self) -> TosecFields {
        TosecFields {
            title: self.title@,
            version: crate::text::opt_view(self.version),
            language: crate::text::opt_view(self.language),
            publisher: crate::text::opt_view(self.publisher),
            qualifier: crate::text::opt_view(self.qualifier),
            year: self.year,
            disk_no: self.disk_no,
            disk_count: self.disk_count,
            flags: crate::text::views(self.flags@),
        }
    }
}

// --- Tokens -----------------------------------------------------------------

/// ISO-639-1 / common region codes accepted as a language slot.
pub open spec fn is_lang_code(s: Seq<char>) -> bool {
    ||| s == "en"@
    ||| s == "de"@
    ||| s == "fr"@
    ||| s == "es"@
    ||| s == "it"@
    ||| s == "nl"@
    ||| s == "se"@
    ||| s == "da"@
    ||| s == "pl"@
    ||| s == "cs"@
    ||| s == "pt"@
    ||| s == "fi"@
    ||| s == "no"@
    ||| s == "gr"@
    ||| s == "hu"@
    ||| s == "ru"@
    ||| s == "us"@
    ||| s == "uk"@
    ||| s == "au"@
    ||| s == "jp"@
    ||| s == "mul"@
}

/// A language code in either case.
pub open spec fn is_lang(t: Seq<char>) -> bool {
    is_lang_code(crate::text::lower(t))
}

/// Whether `t` is a language code, in either case.
pub fn is_lang_token(t: &[char]) -> (r: bool)
    ensures
        r == is_lang(t@),
{
    let l = lowered(t);
    is_text(&l, "en") || is_text(&l, "de") || is_text(&l, "fr") || is_text(&l, "es") || is_text(
        &l,
        "it",
    ) || is_text(&l, "nl") || is_text(&l, "se") || is_text(&l, "da") || is_text(&l, "pl")
        || is_text(&l, "cs") || is_text(&l, "pt") || is_text(&l, "fi") || is_text(&l, "no")
        || is_text(&l, "gr") || is_text(&l, "hu") || is_text(&l, "ru") || is_text(&l, "us")
        || is_text(&l, "uk") || is_text(&l, "au") || is_text(&l, "jp") || is_text(&l, "mul")
}

/// A release qualifier in either case: `demo`, `demo-<kind>` or `preview`.
pub open spec fn is_qualifier(t: Seq<char>) -> bool {
    let l = crate::text::lower(t);
    l == "demo"@ || crate::text::starts_with(l, "demo-"@) || l == "preview"@
}

/// Whether `t` is a release qualifier.
pub fn is_qualifier_token(t: &[char]) -> (r: bool)
    ensures
        r == is_qualifier(t@),
{
    let l = lowered(t);
    is_text(&l, "demo") || begins(&l, "demo-") || is_text(&l, "preview")
}

/// A version token: `v` or `V`, then a digit, then anything.
pub open spec fn is_version(t: Seq<char>) -> bool {
    t.len() >= 2 && (t[0] == 'v' || t[0] == 'V') && crate::text::is_digit(t[1])
}

/// Whether `t` is a version token.
pub fn is_version_token(t: &[char]) -> (r: bool)
    ensures
        r == is_version(t@),
{
    t.len() >= 2 && (t[0] == 'v' || t[0] == 'V') && digit(t[1])
}

/// How many digits `s` begins with.
pub open spec fn digit_run(s: Seq<char>) -> nat
    decreases s.len(),
{
    if s.len() > 0 && crate::text::is_digit(s[0]) {
        1 + digit_run(s.skip(1))
    } else {
        0
    }
}

/// The digits that `s` begins with are its first `digit_run(s)` characters.
pub proof fn lemma_digit_run(s: Seq<char>)
    ensures
        digit_run(s) <= s.len(),
        crate::text::all_digits(s.take(digit_run(s) as int)),
        digit_run(s) < s.len() ==> !crate::text::is_digit(s[digit_run(s) as int]),
    decreases s.len(),
{
    if s.len() > 0 && crate::text::is_digit(s[0]) {
        lemma_digit_run(s.skip(1));
        let k = digit_run(s) as int;
        assert forall|i: int| 0 <= i < k implies crate::text::is_digit(#[trigger] s.take(k)[i]) by {
            if i > 0 {
                assert(s.skip(1).take(k - 1)[i - 1] == s[i]);
            }
        }
    }
}

/// How many digits stand in `s` at `from`.
pub fn count_digits(s: &[char], from: usize) -> (n: usize)
    requires
        from <= s@.len(),
    ensures
        n == digit_run(s@.skip(from as int)),
        from + n <= s@.len(),
{
    let mut i: usize = from;
    while i < s.len() && digit(s[i])
        invariant
            from <= i <= s@.len(),
            digit_run(s@.skip(from as int)) == (i - from) + digit_run(s@.skip(i as int)),
        decreases s@.len() - i,
    {
        assert(s@.skip(i as int).skip(1) =~= s@.skip(i + 1));
        i += 1;
    }
    i - from
}

/// The year a group gives: exactly four leading digits.
pub open spec fn year_of(s: Seq<char>) -> Option<i32> {
    if digit_run(s) == 4 {
        Some(crate::text::number(s.take(4)) as i32)
    } else {
        None
    }
}

/// Extract a 4-digit leading year (handles `1992` and `1992-04-27`).
pub fn parse_year(s: &[char]) -> (r: Option<i32>)
    ensures
        r == year_of(s@),
{
    assert(s@.skip(0) =~= s@);
    if count_digits(s, 0) != 4 {
        return None;
    }
    proof {
        lemma_digit_run(s@);
        let d = s@.take(4);
        assert(crate::text::is_digit(d[0]) && crate::text::is_digit(d[1]) && crate::text::is_digit(
            d[2],
        ) && crate::text::is_digit(d[3]));
        reveal_with_fuel(crate::text::number, 5);
        assert(d.drop_last().drop_last().drop_last().drop_last().len() == 0);
    }
    let y: i32 = (s[0] as i32 - 48) * 1000 + (s[1] as i32 - 48) * 100 + (s[2] as i32 - 48) * 10 + (
    s[3] as i32 - 48);
    Some(y)
}

/// The disk a group gives: `Disk N of M`, in either case.
pub open spec fn disk_of(s: Seq<char>) -> Option<(u32, u32)> {
    let l = crate::text::lower(s);
    if !crate::text::starts_with(l, "disk "@) {
        None
    } else {
        let rest = l.skip("disk "@.len() as int);
        match crate::text::find(rest, " of "@) {
            None => None,
            Some(i) => match (
                crate::text::as_u32(crate::text::trim(rest.take(i))),
                crate::text::as_u32(crate::text::trim(rest.skip(i + " of "@.len()))),
            ) {
                (Some(n), Some(m)) => Some((n, m)),
                _ => None,
            },
        }
    }
}

/// Parse `Disk N of M` (case-insensitive) into `(N, M)`.
pub fn parse_disk(s: &[char]) -> (r: Option<(u32, u32)>)
    ensures
        r == disk_of(s@),
{
    let l = lowered(s);
    if !begins(&l, "disk ") {
        return None;
    }
    proof {
        reveal_strlit("disk ");
        reveal_strlit(" of ");
    }
    let rest = slice_of(&l, 5, l.len());
    assert(rest@ =~= l@.skip(5));
    match find_text(&rest, " of ") {
        None => None,
        Some(i) => {
            let head = slice_of(&rest, 0, i);
            let tail = slice_of(&rest, i + 4, rest.len());
            assert(head@ =~= rest@.take(i as int));
            assert(tail@ =~= rest@.skip(i + 4));
            let h = trimmed(&head);
            let t = trimmed(&tail);
            match (parse_u32(&h), parse_u32(&t)) {
                (Some(n), Some(m)) => Some((n, m)),
                _ => None,
            }
        },
    }
}

// --- Groups -----------------------------------------------------------------

/// A character that opens a group.
pub open spec fn is_marker(c: char) -> bool {
    c == '(' || c == '['
}

/// The character that closes a group.
pub open spec fn closer(open: char) -> char {
    if open == '(' {
        ')'
    } else {
        ']'
    }
}

/// Where the group whose content starts at `i` closes, `depth` levels deep: the
/// matching close character, or the end of `s` if it is missing.
pub open spec fn close_at(s: Seq<char>, open: char, i: int, depth: int) -> int
    decreases s.len() - i,
{
    if i < 0 || i >= s.len() {
        s.len() as int
    } else if s[i] == open {
        close_at(s, open, i + 1, depth + 1)
    } else if s[i] == closer(open) {
        if depth <= 1 {
            i
        } else {
            close_at(s, open, i + 1, depth - 1)
        }
    } else {
        close_at(s, open, i + 1, depth)
    }
}

/// A group closes at or after its start and within `s`.
pub proof fn lemma_close_at(s: Seq<char>, open: char, i: int, depth: int)
    requires
        0 <= i <= s.len(),
    ensures
        i <= close_at(s, open, i, depth) <= s.len(),
    decreases s.len() - i,
{
    if i < s.len() {
        if s[i] == open {
            lemma_close_at(s, open, i + 1, depth + 1);
        } else if s[i] == closer(open) {
            if depth > 1 {
                lemma_close_at(s, open, i + 1, depth - 1);
            }
        } else {
            lemma_close_at(s, open, i + 1, depth);
        }
    }
}

/// The `(...)` and `[...]` groups of `s` from position `i` on, in order, each as
/// its opening character, its closing character and what stands between.
pub open spec fn groups_from(s: Seq<char>, i: int) -> Seq<(char, char, Seq<char>)>
    decreases s.len() + 1 - i,
{
    if i < 0 || i >= s.len() {
        Seq::empty()
    } else if !is_marker(s[i]) {
        groups_from(s, i + 1)
    } else {
        let end = close_at(s, s[i], i + 1, 1);
        proof {
            lemma_close_at(s, s[i], i + 1, 1);
        }
        seq![(s[i], closer(s[i]), s.subrange(i + 1, end))] + groups_from(s, end + 1)
    }
}

/// The views of groups.
pub open spec fn group_views(g: Seq<(char, char, String)>) -> Seq<(char, char, Seq<char>)> {
    g.map_values(|t: (char, char, String)| (t.0, t.1, t.2@))
}

/// Iterate `(...)` and `[...]` groups in order, yielding `(open, close, inner)`.
pub fn group_iter(s: &[char]) -> (r: Vec<(char, char, String)>)
    ensures
        group_views(r@) == groups_from(s@, 0),
{
    let mut out: Vec<(char, char, String)> = Vec::new();
    let mut i: usize = 0;
    assert(group_views(out@) + groups_from(s@, 0) =~= groups_from(s@, 0));
    while i < s.len()
        invariant
            group_views(out@) + groups_from(s@, i as int) == groups_from(s@, 0),
        decreases s@.len() - i,
    {
        let open = s[i];
        if open != '(' && open != '[' {
            i += 1;
            continue;
        }
        let close: char = if open == '(' {
            ')'
        } else {
            ']'
        };
        let mut depth: usize = 1;
        let mut j: usize = i + 1;
        let ghost end = close_at(s@, open, i + 1, 1);
        proof {
            lemma_close_at(s@, open, i + 1, 1);
        }
        while j < s.len()
            invariant_except_break
                i < j <= s@.len(),
                1 <= depth <= j - i,
                is_marker(open),
                close == closer(open),
                close_at(s@, open, j as int, depth as int) == end,
                i < s@.len(),
            ensures
                i < j <= s@.len(),
                j == end,
            decreases s@.len() - j,
        {
            if s[j] == open {
                depth += 1;
            } else if s[j] == close {
                if depth == 1 {
                    break;
                }
                depth -= 1;
            }
            j += 1;
        }
        let inner = substring(s, i + 1, j);
        let ghost before = out@;
        out.push((open, close, inner));
        proof {
            let g = (open, close, inner@);
            assert(group_views(out@) =~= group_views(before).push(g));
            assert(groups_from(s@, i as int) == seq![g] + groups_from(s@, end + 1));
            assert(group_views(before) + (seq![g] + groups_from(s@, end + 1)) =~= group_views(out@)
                + groups_from(s@, end + 1));
        }
        if j == s.len() {
            assert(groups_from(s@, end + 1) =~= Seq::empty());
            assert(group_views(out@) + Seq::empty() =~= group_views(out@));
            return out;
        }
        i = j + 1;
    }
    assert(groups_from(s@, i as int) =~= Seq::empty());
    assert(group_views(out@) + Seq::empty() =~= group_views(out@));
    out
}

// --- TOSEC names ------------------------------------------------------------

/// The name without its extension: up to four letters or digits after the last dot.
pub open spec fn stem_of(s: Seq<char>) -> Seq<char> {
    match crate::text::rfind_char(s, '.') {
        None => s,
        Some(i) => if s.len() - i - 1 <= 4 && crate::text::all_alnum(s.skip(i + 1)) {
            s.take(i)
        } else {
            s
        },
    }
}

/// The first position at or after `i` that opens a group.
pub open spec fn marker_from(s: Seq<char>, i: int) -> Option<int>
    decreases s.len() - i,
{
    if i < 0 || i >= s.len() {
        None
    } else if is_marker(s[i]) {
        Some(i)
    } else {
        marker_from(s, i + 1)
    }
}

/// The title text without a trailing version token, and that token.
pub open spec fn split_version(t: Seq<char>) -> (Seq<char>, Option<Seq<char>>) {
    match crate::text::rfind_char(t, ' ') {
        None => (t, None),
        Some(i) => if is_version(t.skip(i + 1)) {
            (crate::text::trim_end(t.take(i)), Some(t.skip(i + 1)))
        } else {
            (t, None)
        },
    }
}

/// What one group adds to a parsed name. Brackets hold flags. A parenthesized
/// group is, in this order, a disk, a year, a language, a qualifier, or else the
/// publisher, of which only the first counts.
pub open spec fn add_group(t: TosecFields, g: (char, char, Seq<char>)) -> TosecFields {
    let c = crate::text::trim(g.2);
    if g.0 == '[' {
        TosecFields { flags: t.flags.push(c), ..t }
    } else if disk_of(c) is Some {
        TosecFields { disk_no: Some((disk_of(c)->0).0), disk_count: Some((disk_of(c)->0).1), ..t }
    } else if year_of(c) is Some {
        TosecFields { year: year_of(c), ..t }
    } else if is_lang(c) {
        TosecFields { language: Some(crate::text::lower(c)), ..t }
    } else if is_qualifier(c) {
        TosecFields { qualifier: Some(crate::text::lower(c)), ..t }
    } else if t.publisher is None {
        TosecFields { publisher: Some(c), ..t }
    } else {
        t
    }
}

/// What groups add to a parsed name, one after the other.
pub open spec fn add_groups(
    t: TosecFields,
    gs: Seq<(char, char, Seq<char>)>,
) -> TosecFields
    decreases gs.len(),
{
    if gs.len() == 0 {
        t
    } else {
        add_group(add_groups(t, gs.drop_last()), gs.last())
    }
}

/// A name with a title and version and nothing else.
pub open spec fn bare_name(title: Seq<char>, version: Option<Seq<char>>) -> TosecFields {
    TosecFields {
        title,
        version,
        language: None,
        publisher: None,
        qualifier: None,
        year: None,
        disk_no: None,
        disk_count: None,
        flags: Seq::empty(),
    }
}

/// The fields of a stem: the title is what precedes the first group.
pub open spec fn tosec_stem(st: Seq<char>) -> Option<TosecFields> {
    match marker_from(st, 0) {
        None => None,
        Some(m) => {
            let t = crate::text::trim(st.take(m));
            if t.len() == 0 {
                None
            } else {
                let tv = split_version(t);
                Some(add_groups(bare_name(tv.0, tv.1), groups_from(st.skip(m), 0)))
            }
        },
    }
}

/// The fields of a TOSEC-style filename; `None` if it has no group or no title.
pub open spec fn tosec(filename: Seq<char>) -> Option<TosecFields> {
    tosec_stem(stem_of(filename))
}

/// Where the first group of `s` opens.
pub fn first_marker(s: &[char]) -> (r: Option<usize>)
    ensures
        crate::text::at(r) == marker_from(s@, 0),
        r matches Some(k) ==> k < s@.len(),
{
    let mut i: usize = 0;
    while i < s.len()
        invariant
            i <= s@.len(),
            marker_from(s@, i as int) == marker_from(s@, 0),
        decreases s@.len() - i,
    {
        if s[i] == '(' || s[i] == '[' {
            return Some(i);
        }
        i += 1;
    }
    None
}

/// The stem of a filename.
pub fn stem_chars(c: &[char]) -> (r: Vec<char>)
    ensures
        r@ == stem_of(c@),
{
    let n = c.len();
    match rfind_char_at(c, '.') {
        Some(i) => {
            let ext = slice_of(c, i + 1, n);
            assert(ext@ =~= c@.skip(i + 1));
            if ext.len() <= 4 && only_alnum(&ext) {
                let r = slice_of(c, 0, i);
                assert(r@ =~= c@.take(i as int));
                return r;
            }
        },
        None => {},
    }
    let r = slice_of(c, 0, c.len());
    assert(r@ =~= c@);
    r
}

/// File one group under the field it belongs to.
pub fn file_group(out: &mut TosecName, open: char, inner: &str)
    requires
        is_marker(open),
    ensures
        final(out)@ == add_group(old(out)@, (open, closer(open), inner@)),
{
    let raw = chars_of(inner);
    let c = trimmed(&raw);
    if open == '[' {
        let ghost before = out.flags@;
        let flag = string_of(&c);
        out.flags.push(flag);
        assert(crate::text::views(out.flags@) =~= crate::text::views(before).push(flag@));
        return;
    }
    if let Some((n, m)) = parse_disk(&c) {
        out.disk_no = Some(n);
        out.disk_count = Some(m);
    } else if let Some(y) = parse_year(&c) {
        out.year = Some(y);
    } else if is_lang_token(&c) {
        let l = lowered(&c);
        out.language = Some(string_of(&l));
    } else if is_qualifier_token(&c) {
        let l = lowered(&c);
        out.qualifier = Some(string_of(&l));
    } else if out.publisher.is_none() {
        out.publisher = Some(string_of(&c));
    }
}

/// Parse a TOSEC-style filename (with or without extension) into its fields.
///
/// Returns `None` for a name without any group, or without a title before the first.
pub fn parse_tosec(filename: &str) -> (r: Option<TosecName>)
    ensures
        r matches Some(n) ==> tosec(filename@) == Some(n@),
        r is None ==> tosec(filename@) is None,
{
    let all = chars_of(filename);
    let stem = stem_chars(&all);
    let m = match first_marker(&stem) {
        None => {
            return None;
        },
        Some(m) => m,
    };
    let head = slice_of(&stem, 0, m);
    assert(head@ =~= stem@.take(m as int));
    let t = trimmed(&head);
    if t.len() == 0 {
        return None;
    }
    let mut version: Option<String> = None;
    let mut title: String = string_of(&t);
    match rfind_char_at(&t, ' ') {
        Some(i) => {
            let last = slice_of(&t, i + 1, t.len());
            assert(last@ =~= t@.skip(i + 1));
            if is_version_token(&last) {
                version = Some(string_of(&last));
                let before = slice_of(&t, 0, i);
                assert(before@ =~= t@.take(i as int));
                let e = trim_end_at(&before, 0);
                assert(before@.skip(0) =~= before@);
                title = substring(&before, 0, e);
            }
        },
        None => {},
    }
    let mut out = TosecName {
        title,
        version,
        language: None,
        publisher: None,
        qualifier: None,
        year: None,
        disk_no: None,
        disk_count: None,
        flags: Vec::new(),
    };
    let ghost base = out@;
    assert(base =~= bare_name(split_version(t@).0, split_version(t@).1));
    let rest = slice_of(&stem, m, stem.len());
    assert(rest@ =~= stem@.skip(m as int));
    let groups = group_iter(&rest);
    let ghost gv = group_views(groups@);
    proof {
        lemma_groups_marked(rest@, 0);
    }
    let mut k: usize = 0;
    while k < groups.len()
        invariant
            k <= groups@.len(),
            gv == group_views(groups@),
            well_marked(gv),
            out@ == add_groups(base, gv.take(k as int)),
        decreases groups@.len() - k,
    {
        assert(gv.take(k + 1).drop_last() =~= gv.take(k as int));
        assert(gv[k as int].0 == groups@[k as int].0);
        file_group(&mut out, groups[k].0, &groups[k].2);
        k += 1;
    }
    assert(gv.take(k as int) =~= gv);
    Some(out)
}

/// Every group opens with a marker and closes with the matching character.
pub open spec fn well_marked(gs: Seq<(char, char, Seq<char>)>) -> bool {
    forall|k: int| 0 <= k < gs.len() ==> is_marker((#[trigger] gs[k]).0) && gs[k].1 == closer(gs[k].0)
}

/// The groups of a text are well marked.
pub proof fn lemma_groups_marked(s: Seq<char>, i: int)
    ensures
        well_marked(groups_from(s, i)),
    decreases s.len() + 1 - i,
{
    if 0 <= i < s.len() {
        if !is_marker(s[i]) {
            lemma_groups_marked(s, i + 1);
        } else {
            let end = close_at(s, s[i], i + 1, 1);
            lemma_close_at(s, s[i], i + 1, 1);
            lemma_groups_marked(s, end + 1);
            let tail = groups_from(s, end + 1);
            let all = groups_from(s, i);
            assert forall|k: int| 0 <= k < all.len() implies is_marker((#[trigger] all[k]).0)
                && all[k].1 == closer(all[k].0) by {
                if k > 0 {
                    assert(all[k] == tail[k - 1]);
                }
            }
        }
    }
}

// --- Sanitization -----------------------------------------------------------

/// What one character of a title becomes: ASCII letters and digits stay, spaces
/// and `_` become `-`, `&` becomes `and`, the common German and Latin-1 letters
/// are transliterated with their case, and everything else is dropped.
pub open spec fn kebab_char(c: char) -> Seq<char> {
    if c == '&' {
        seq!['-', 'a', 'n', 'd', '-']
    } else if crate::text::is_alnum(c) {
        seq![c]
    } else if c == ' ' || c == '_' || c == '-' {
        seq!['-']
    } else if c == 'ä' {
        seq!['a', 'e']
    } else if c == 'Ä' {
        seq!['A', 'e']
    } else if c == 'ö' {
        seq!['o', 'e']
    } else if c == 'Ö' {
        seq!['O', 'e']
    } else if c == 'ü' {
        seq!['u', 'e']
    } else if c == 'Ü' {
        seq!['U', 'e']
    } else if c == 'ß' {
        seq!['s', 's']
    } else if c == 'é' || c == 'è' || c == 'ê' {
        seq!['e']
    } else if c == 'É' || c == 'È' || c == 'Ê' {
        seq!['E']
    } else if c == 'á' || c == 'à' || c == 'â' {
        seq!['a']
    } else if c == 'Á' || c == 'À' || c == 'Â' {
        seq!['A']
    } else if c == 'ó' || c == 'ò' || c == 'ô' {
        seq!['o']
    } else if c == 'Ó' || c == 'Ò' || c == 'Ô' {
        seq!['O']
    } else if c == 'í' || c == 'ì' || c == 'î' {
        seq!['i']
    } else if c == 'ú' || c == 'ù' || c == 'û' {
        seq!['u']
    } else if c == 'ñ' {
        seq!['n']
    } else if c == 'Ñ' {
        seq!['N']
    } else {
        Seq::empty()
    }
}

/// What the characters of a title become, one after the other.
pub open spec fn kebab_chars(s: Seq<char>) -> Seq<char>
    decreases s.len(),
{
    if s.len() == 0 {
        Seq::empty()
    } else {
        kebab_chars(s.drop_last()) + kebab_char(s.last())
    }
}

/// `s` with every run of `-` collapsed to one.
pub open spec fn collapse(s: Seq<char>) -> Seq<char>
    decreases s.len(),
{
    if s.len() == 0 {
        Seq::empty()
    } else {
        let r = collapse(s.drop_last());
        if s.last() == '-' && r.len() > 0 && r.last() == '-' {
            r
        } else {
            r.push(s.last())
        }
    }
}

/// `s` without its leading `c`s.
pub open spec fn strip_front(s: Seq<char>, c: char) -> Seq<char>
    decreases s.len(),
{
    if s.len() > 0 && s[0] == c {
        strip_front(s.skip(1), c)
    } else {
        s
    }
}

/// `s` without its trailing `c`s.
pub open spec fn strip_back(s: Seq<char>, c: char) -> Seq<char>
    decreases s.len(),
{
    if s.len() > 0 && s.last() == c {
        strip_back(s.drop_last(), c)
    } else {
        s
    }
}

/// `s` without `c`s at either end.
pub open spec fn strip_ends(s: Seq<char>, c: char) -> Seq<char> {
    strip_back(strip_front(s, c), c)
}

/// The kebab title segment of a display title.
pub open spec fn sanitized(title: Seq<char>) -> Seq<char> {
    strip_ends(collapse(kebab_chars(title)), '-')
}

/// Nothing but ASCII letters, digits and dashes.
pub open spec fn dashed_alnum(s: Seq<char>) -> bool {
    forall|i: int| 0 <= i < s.len() ==> crate::text::is_alnum(#[trigger] s[i]) || s[i] == '-'
}

/// No two dashes side by side.
pub open spec fn single_dashes(s: Seq<char>) -> bool {
    forall|i: int| 0 < i < s.len() ==> !(s[i - 1] == '-' && #[trigger] s[i] == '-')
}

/// A kebab title segment: ASCII letters, digits and single inner dashes.
pub open spec fn is_kebab(s: Seq<char>) -> bool {
    &&& dashed_alnum(s)
    &&& single_dashes(s)
    &&& s.len() > 0 ==> s[0] != '-' && s.last() != '-'
}

/// Append what one character of a title becomes.
pub fn push_kebab(out: &mut Vec<char>, ch: char)
    ensures
        final(out)@ == old(out)@ + kebab_char(ch),
{
    let ghost before = out@;
    if ch == '&' {
        out.push('-');
        out.push('a');
        out.push('n');
        out.push('d');
        out.push('-');
    } else if alnum(ch) {
        out.push(ch);
    } else {
        match ch {
            ' ' | '_' | '-' => out.push('-'),
            'ä' => {
                out.push('a');
                out.push('e');
            },
            'Ä' => {
                out.push('A');
                out.push('e');
            },
            'ö' => {
                out.push('o');
                out.push('e');
            },
            'Ö' => {
                out.push('O');
                out.push('e');
            },
            'ü' => {
                out.push('u');
                out.push('e');
            },
            'Ü' => {
                out.push('U');
                out.push('e');
            },
            'ß' => {
                out.push('s');
                out.push('s');
            },
            'é' | 'è' | 'ê' => out.push('e'),
            'É' | 'È' | 'Ê' => out.push('E'),
            'á' | 'à' | 'â' => out.push('a'),
            'Á' | 'À' | 'Â' => out.push('A'),
            'ó' | 'ò' | 'ô' => out.push('o'),
            'Ó' | 'Ò' | 'Ô' => out.push('O'),
            'í' | 'ì' | 'î' => out.push('i'),
            'ú' | 'ù' | 'û' => out.push('u'),
            'ñ' => out.push('n'),
            'Ñ' => out.push('N'),
            _ => {},
        }
    }
    assert(out@ =~= before + kebab_char(ch));
}

/// Where `c` starts and ends once `x`s are dropped at both ends.
pub fn strip_bounds(c: &[char], x: char) -> (r: (usize, usize))
    ensures
        r.0 <= r.1 <= c@.len(),
        c@.subrange(r.0 as int, r.1 as int) == strip_ends(c@, x),
{
    let mut from: usize = 0;
    assert(c@.skip(0) =~= c@);
    while from < c.len() && c[from] == x
        invariant
            from <= c@.len(),
            strip_front(c@.skip(from as int), x) == strip_front(c@, x),
        decreases c@.len() - from,
    {
        assert(c@.skip(from as int).skip(1) =~= c@.skip(from + 1));
        from += 1;
    }
    let ghost front = strip_front(c@, x);
    let mut to: usize = c.len();
    assert(c@.subrange(from as int, to as int) =~= front);
    while to > from && c[to - 1] == x
        invariant
            from <= to <= c@.len(),
            strip_back(c@.subrange(from as int, to as int), x) == strip_back(front, x),
        decreases to,
    {
        assert(c@.subrange(from as int, to as int).drop_last() =~= c@.subrange(
            from as int,
            to - 1,
        ));
        to -= 1;
    }
    (from, to)
}

/// The kebab title segment, as characters.
pub fn sanitize_chars(title: &str) -> (r: Vec<char>)
    ensures
        r@ == sanitized(title@),
{
    let t = chars_of(title);
    let mut out: Vec<char> = Vec::new();
    let mut i: usize = 0;
    while i < t.len()
        invariant
            i <= t@.len(),
            out@ == kebab_chars(t@.take(i as int)),
        decreases t@.len() - i,
    {
        assert(t@.take(i + 1).drop_last() =~= t@.take(i as int));
        push_kebab(&mut out, t[i]);
        i += 1;
    }
    assert(t@.take(i as int) =~= t@);
    // Collapse runs of '-' and trim.
    let mut collapsed: Vec<char> = Vec::new();
    let mut prev_dash = false;
    let mut k: usize = 0;
    while k < out.len()
        invariant
            k <= out@.len(),
            collapsed@ == collapse(out@.take(k as int)),
            prev_dash == (collapsed@.len() > 0 && collapsed@.last() == '-'),
        decreases out@.len() - k,
    {
        assert(out@.take(k + 1).drop_last() =~= out@.take(k as int));
        let c = out[k];
        if c == '-' {
            if !prev_dash {
                collapsed.push('-');
            }
            prev_dash = true;
        } else {
            collapsed.push(c);
            prev_dash = false;
        }
        k += 1;
    }
    assert(out@.take(k as int) =~= out@);
    let b = strip_bounds(&collapsed, '-');
    slice_of(&collapsed, b.0, b.1)
}

/// Sanitize a display title into the kebab title segment.
///
/// Spaces/`_` become `-`; `&` becomes `and`; reserved and punctuation chars are
/// dropped; obvious non-ASCII is transliterated; runs of `-` collapse; case is
/// preserved.
pub fn sanitize_title(title: &str) -> (r: String)
    ensures
        r@ == sanitized(title@),
        is_kebab(r@),
{
    let c = sanitize_chars(title);
    proof {
        lemma_sanitized_is_kebab(title@);
    }
    string_of(&c)
}

/// Titles are made of letters, digits and dashes before collapsing.
proof fn lemma_kebab_chars(s: Seq<char>)
    ensures
        dashed_alnum(kebab_chars(s)),
    decreases s.len(),
{
    if s.len() > 0 {
        lemma_kebab_chars(s.drop_last());
        let head = kebab_chars(s.drop_last());
        let tail = kebab_char(s.last());
        assert(dashed_alnum(tail));
        assert forall|i: int| 0 <= i < kebab_chars(s).len() implies crate::text::is_alnum(
            #[trigger] kebab_chars(s)[i],
        ) || kebab_chars(s)[i] == '-' by {
            if i < head.len() {
                assert(kebab_chars(s)[i] == head[i]);
            } else {
                assert(kebab_chars(s)[i] == tail[i - head.len()]);
            }
        }
    }
}

/// Collapsing leaves no two dashes side by side and adds no character.
proof fn lemma_collapse(s: Seq<char>)
    requires
        dashed_alnum(s),
    ensures
        dashed_alnum(collapse(s)),
        single_dashes(collapse(s)),
    decreases s.len(),
{
    if s.len() > 0 {
        assert(dashed_alnum(s.drop_last()));
        lemma_collapse(s.drop_last());
        let r = collapse(s.drop_last());
        let c = collapse(s);
        assert(crate::text::is_alnum(s[s.len() - 1]) || s[s.len() - 1] == '-');
        assert forall|i: int| 0 <= i < c.len() implies crate::text::is_alnum(#[trigger] c[i])
            || c[i] == '-' by {
            if i < r.len() {
                assert(c[i] == r[i]);
            }
        }
        assert forall|i: int| 0 < i < c.len() implies !(c[i - 1] == '-' && #[trigger] c[i] == '-') by {
            if i < r.len() {
                assert(c[i] == r[i] && c[i - 1] == r[i - 1]);
            }
        }
    }
}

/// Dropping leading characters leaves a tail.
proof fn lemma_strip_front(s: Seq<char>, c: char)
    ensures
        strip_front(s, c).len() <= s.len(),
        strip_front(s, c) == s.skip(s.len() - strip_front(s, c).len()),
        strip_front(s, c).len() > 0 ==> strip_front(s, c)[0] != c,
    decreases s.len(),
{
    if s.len() > 0 && s[0] == c {
        lemma_strip_front(s.skip(1), c);
        let n = strip_front(s, c).len() as int;
        assert(s.skip(1).skip(s.len() - 1 - n) =~= s.skip(s.len() - n));
    } else {
        assert(s.skip(0) =~= s);
    }
}

/// Dropping trailing characters leaves a head.
proof fn lemma_strip_back(s: Seq<char>, c: char)
    ensures
        strip_back(s, c).len() <= s.len(),
        strip_back(s, c) == s.take(strip_back(s, c).len() as int),
        strip_back(s, c).len() > 0 ==> strip_back(s, c).last() != c,
    decreases s.len(),
{
    if s.len() > 0 && s.last() == c {
        lemma_strip_back(s.drop_last(), c);
        let n = strip_back(s, c).len() as int;
        assert(s.drop_last().take(n) =~= s.take(n));
    } else {
        assert(s.take(s.len() as int) =~= s);
    }
}

/// A sanitized title is a kebab segment: safe in any filename, and free of the
/// `_` that separates the fields of a canonical name.
pub proof fn lemma_sanitized_is_kebab(title: Seq<char>)
    ensures
        is_kebab(sanitized(title)),
{
    let k = kebab_chars(title);
    lemma_kebab_chars(title);
    lemma_collapse(k);
    let c = collapse(k);
    lemma_strip_front(c, '-');
    let f = strip_front(c, '-');
    lemma_strip_back(f, '-');
    let r = strip_back(f, '-');
    let off = c.len() - f.len();
    assert forall|i: int| 0 <= i < r.len() implies r[i] == c[off + i] by {}
    assert forall|i: int| 0 < i < r.len() implies !(r[i - 1] == '-' && #[trigger] r[i] == '-') by {
        assert(r[i] == c[off + i] && r[i - 1] == c[off + i - 1]);
    }
    if r.len() > 0 {
        assert(r[0] == f[0]);
    }
}

/// Sanitizing a kebab segment leaves it as it is.
pub proof fn lemma_kebab_is_fixed(s: Seq<char>)
    requires
        is_kebab(s),
    ensures
        sanitized(s) == s,
{
    lemma_kebab_chars_fixed(s);
    lemma_collapse_fixed(s);
}

proof fn lemma_kebab_chars_fixed(s: Seq<char>)
    requires
        dashed_alnum(s),
    ensures
        kebab_chars(s) == s,
    decreases s.len(),
{
    if s.len() > 0 {
        assert(dashed_alnum(s.drop_last()));
        lemma_kebab_chars_fixed(s.drop_last());
        assert(crate::text::is_alnum(s[s.len() - 1]) || s[s.len() - 1] == '-');
        assert(kebab_chars(s) =~= s);
    } else {
        assert(kebab_chars(s) =~= s);
    }
}

proof fn lemma_collapse_fixed(s: Seq<char>)
    requires
        single_dashes(s),
    ensures
        collapse(s) == s,
    decreases s.len(),
{
    if s.len() > 0 {
        assert(single_dashes(s.drop_last()));
        lemma_collapse_fixed(s.drop_last());
        if s.len() > 1 {
            assert(!(s[s.len() - 2] == '-' && s[s.len() - 1] == '-'));
        }
        assert(collapse(s) =~= s);
    } else {
        assert(collapse(s) =~= s);
    }
}

/// Sanitizing is idempotent: an already-sanitized title and a raw one give the
/// same segment.
pub proof fn sanitize_is_idempotent(title: Seq<char>)
    ensures
        sanitized(sanitized(title)) == sanitized(title),
{
    lemma_sanitized_is_kebab(title);
    lemma_kebab_is_fixed(sanitized(title));
}

/// What characters become does not depend on what stands before them.
proof fn lemma_kebab_chars_add(a: Seq<char>, b: Seq<char>)
    ensures
        kebab_chars(a + b) == kebab_chars(a) + kebab_chars(b),
    decreases b.len(),
{
    if b.len() == 0 {
        assert(a + b =~= a);
        assert(kebab_chars(a + b) =~= kebab_chars(a) + kebab_chars(b));
    } else {
        lemma_kebab_chars_add(a, b.drop_last());
        assert((a + b).drop_last() =~= a + b.drop_last());
        assert(kebab_chars(a + b) =~= kebab_chars(a) + kebab_chars(b));
    }
}

/// A character that stays at the end is no matter to what is dropped at the front.
proof fn lemma_strip_front_push(s: Seq<char>, c: char, x: char)
    requires
        x != c || strip_front(s, c).len() > 0,
    ensures
        strip_front(s.push(x), c) == strip_front(s, c).push(x),
    decreases s.len(),
{
    if s.len() > 0 && s[0] == c {
        assert(s.push(x).skip(1) =~= s.skip(1).push(x));
        lemma_strip_front_push(s.skip(1), c, x);
    } else if s.len() == 0 {
        assert(s.push(x)[0] == x);
    }
}

/// Only dashes are dropped at the front: where nothing is left, dashes were all there was.
proof fn lemma_strip_front_none(s: Seq<char>, c: char)
    requires
        strip_front(s, c).len() == 0,
    ensures
        s.len() > 0 ==> s.last() == c,
    decreases s.len(),
{
    if s.len() > 1 {
        lemma_strip_front_none(s.skip(1), c);
    }
}

/// Behind a dash, leading dashes collapse into it.
proof fn lemma_collapse_behind_dash(p: Seq<char>, x: Seq<char>)
    requires
        p.len() > 0,
        p.last() == '-',
        single_dashes(p),
    ensures
        collapse(p + x) == p + strip_front(collapse(x), '-'),
    decreases x.len(),
{
    if x.len() == 0 {
        assert(p + x =~= p);
        lemma_collapse_fixed(p);
        assert(strip_front(collapse(x), '-') =~= Seq::empty());
        assert(p + strip_front(collapse(x), '-') =~= p);
    } else {
        let init = x.drop_last();
        let c = x.last();
        let r = collapse(init);
        let f = strip_front(r, '-');
        lemma_collapse_behind_dash(p, init);
        assert((p + x).drop_last() =~= p + init);
        assert((p + x).last() == c);
        lemma_strip_front(r, '-');
        if f.len() > 0 {
            assert((p + f).last() == f.last());
            assert(f.last() == r.last());
            lemma_strip_front_push(r, '-', c);
            assert(p + f.push(c) =~= (p + f).push(c));
        } else {
            assert(p + f =~= p);
            lemma_strip_front_none(r, '-');
            if c != '-' {
                lemma_strip_front_push(r, '-', c);
                assert(p + f.push(c) =~= (p + f).push(c));
            } else if r.len() == 0 {
                assert(collapse(x) =~= seq!['-']);
                assert(seq!['-'].skip(1) =~= Seq::empty());
                reveal_with_fuel(strip_front, 3);
                assert(strip_front(collapse(x), '-') =~= f);
            }
        }
    }
}

/// What is dropped at the back does not depend on what stands before what is left.
proof fn lemma_strip_back_add(a: Seq<char>, b: Seq<char>, c: char)
    requires
        strip_back(b, c).len() > 0,
    ensures
        strip_back(a + b, c) == a + strip_back(b, c),
    decreases b.len(),
{
    assert((a + b).last() == b.last());
    if b.last() == c {
        assert((a + b).drop_last() =~= a + b.drop_last());
        lemma_strip_back_add(a, b.drop_last(), c);
    }
}

/// A word before a title stays the first word: a dash takes the place of the space between
/// them.
pub proof fn first_word_stays_first(word: Seq<char>, title: Seq<char>)
    requires
        is_kebab(word),
        word.len() > 0,
        sanitized(title).len() > 0,
    ensures
        sanitized(word.push(' ') + title) == word.push('-') + sanitized(title),
{
    let p = word.push('-');
    let x = kebab_chars(title);
    lemma_kebab_chars_add(word.push(' '), title);
    assert(word.push(' ').drop_last() =~= word);
    lemma_kebab_chars_fixed(word);
    assert(kebab_chars(word.push(' ')) =~= p);
    assert(single_dashes(p)) by {
        assert forall|i: int| 0 < i < p.len() implies !(p[i - 1] == '-' && #[trigger] p[i] == '-') by {
            if i < word.len() {
                assert(p[i] == word[i] && p[i - 1] == word[i - 1]);
            } else {
                assert(p[i - 1] == word.last());
            }
        }
    }
    lemma_collapse_behind_dash(p, x);
    let f = strip_front(collapse(x), '-');
    assert((p + f)[0] == word[0]);
    lemma_strip_back_add(p, f, '-');
}

// --- Versions ---------------------------------------------------------------

/// A version that starts with a lowercase `v`.
pub open spec fn normal_version(v: Seq<char>) -> Seq<char> {
    let t = crate::text::trim(v);
    if t.len() > 0 && (t[0] == 'v' || t[0] == 'V') {
        seq!['v'] + t.skip(1)
    } else {
        seq!['v'] + t
    }
}

/// Normalize a version token to always start with a lowercase `v`.
pub fn normalize_version(v: &[char]) -> (r: Vec<char>)
    ensures
        r@ == normal_version(v@),
{
    let t = trimmed(v);
    let mut r: Vec<char> = Vec::new();
    r.push('v');
    if t.len() > 0 && (t[0] == 'v' || t[0] == 'V') {
        let rest = slice_of(&t, 1, t.len());
        assert(rest@ =~= t@.skip(1));
        append_chars(&mut r, &rest);
        assert(r@ =~= normal_version(v@));
    } else {
        append_chars(&mut r, &t);
        assert(r@ =~= normal_version(v@));
    }
    r
}

/// `n` zeros.
pub open spec fn zeros(n: nat) -> Seq<char> {
    Seq::new(n, |i: int| '0')
}

/// How wide a number is written in a version key.
pub const KEY_WIDTH: usize = 8;

/// `s` with every run of digits padded with zeros to the key width, so that comparing
/// keys compares the numbers in them that have no more digits than that.
pub open spec fn padded_runs(s: Seq<char>) -> Seq<char>
    decreases s.len(),
{
    if s.len() == 0 {
        Seq::empty()
    } else if crate::text::is_digit(s[0]) {
        let k = digit_run(s);
        proof {
            lemma_digit_run(s);
        }
        zeros((if k < KEY_WIDTH { KEY_WIDTH - k } else { 0 }) as nat) + s.take(k as int)
            + padded_runs(s.skip(k as int))
    } else {
        seq![s[0]] + padded_runs(s.skip(1))
    }
}

/// A version as its key is made of it: normalized, in lowercase.
pub open spec fn plain_version(v: Seq<char>) -> Seq<char> {
    crate::text::lower(normal_version(v))
}

/// The sortable key of a version.
pub open spec fn version_key_of(v: Seq<char>) -> Seq<char> {
    padded_runs(plain_version(v))
}

/// Sortable natural-version key: the normalized version in lowercase, every number in it
/// padded to one width (`v1.10` sorts after `v1.9`). Numbers of more than [`KEY_WIDTH`]
/// digits stay as they are, and sort as texts.
pub fn version_key(v: &str) -> (r: String)
    ensures
        r@ == version_key_of(v@),
{
    let c = chars_of(v);
    let n = normalize_version(&c);
    let l = lowered(&n);
    let mut out: Vec<char> = Vec::new();
    let mut i: usize = 0;
    assert(l@.skip(0) =~= l@);
    assert(out@ + padded_runs(l@) =~= padded_runs(l@));
    while i < l.len()
        invariant
            i <= l@.len(),
            out@ + padded_runs(l@.skip(i as int)) == padded_runs(l@),
        decreases l@.len() - i,
    {
        let ghost rest = l@.skip(i as int);
        let ghost before = out@;
        if digit(l[i]) {
            let k = count_digits(&l, i);
            proof {
                lemma_digit_run(rest);
            }
            let mut z: usize = 0;
            while z + k < KEY_WIDTH
                invariant
                    z <= KEY_WIDTH,
                    k <= l@.len() <= usize::MAX - KEY_WIDTH || k < KEY_WIDTH || z == 0,
                    z > 0 ==> z + k <= KEY_WIDTH,
                    out@ == before + zeros(z as nat),
                decreases KEY_WIDTH - z,
            {
                out.push('0');
                assert(zeros((z + 1) as nat) =~= zeros(z as nat).push('0'));
                z += 1;
            }
            let run = slice_of(&l, i, i + k);
            assert(run@ =~= rest.take(k as int));
            append_chars(&mut out, &run);
            assert(rest.skip(k as int) =~= l@.skip(i + k));
            assert(out@ + padded_runs(l@.skip(i + k)) =~= before + padded_runs(rest));
            i += k;
        } else {
            out.push(l[i]);
            assert(rest.skip(1) =~= l@.skip(i + 1));
            assert(out@ + padded_runs(l@.skip(i + 1)) =~= before + padded_runs(rest));
            i += 1;
        }
    }
    assert(l@.skip(i as int) =~= Seq::<char>::empty());
    assert(out@ =~= padded_runs(l@));
    string_of(&out)
}

/// Whether no number in `s` has more digits than the key width.
pub open spec fn short_numbers(s: Seq<char>) -> bool
    decreases s.len(),
{
    if s.len() == 0 {
        true
    } else if crate::text::is_digit(s[0]) {
        let k = digit_run(s);
        proof {
            lemma_digit_run(s);
        }
        k <= KEY_WIDTH && short_numbers(s.skip(k as int))
    } else {
        short_numbers(s.skip(1))
    }
}

/// Natural order: where both texts have a number, by the numbers, elsewhere character by
/// character; a text that ends comes first.
pub open spec fn natural_lt(a: Seq<char>, b: Seq<char>) -> bool
    decreases a.len(),
{
    if b.len() == 0 {
        false
    } else if a.len() == 0 {
        true
    } else if crate::text::is_digit(a[0]) && crate::text::is_digit(b[0]) {
        let k = digit_run(a) as int;
        let l = digit_run(b) as int;
        proof {
            lemma_digit_run(a);
        }
        let m = crate::text::number(a.take(k));
        let n = crate::text::number(b.take(l));
        m < n || m == n && natural_lt(a.skip(k), b.skip(l))
    } else {
        a[0] < b[0] || a[0] == b[0] && natural_lt(a.skip(1), b.skip(1))
    }
}

/// A run of digits padded with zeros to the key width.
spec fn padded(x: Seq<char>) -> Seq<char> {
    zeros((if x.len() < KEY_WIDTH { KEY_WIDTH - x.len() } else { 0 }) as nat) + x
}

/// Zeros before a number do not change it.
proof fn lemma_padded(x: Seq<char>)
    requires
        crate::text::all_digits(x),
        x.len() <= KEY_WIDTH,
    ensures
        padded(x).len() == KEY_WIDTH,
        crate::text::all_digits(padded(x)),
        crate::text::number(padded(x)) == crate::text::number(x),
{
    let n = (KEY_WIDTH - x.len()) as nat;
    lemma_zeros_before(n, x);
    assert forall|i: int| 0 <= i < padded(x).len() implies crate::text::is_digit(
        #[trigger] padded(x)[i],
    ) by {
        if i >= n {
            assert(padded(x)[i] == x[i - n]);
        }
    }
}

/// Zeros before a number do not change it.
proof fn lemma_zeros_before(n: nat, x: Seq<char>)
    ensures
        crate::text::number(zeros(n) + x) == crate::text::number(x),
    decreases n + x.len(),
{
    let s = zeros(n) + x;
    if x.len() > 0 {
        lemma_zeros_before(n, x.drop_last());
        assert(s.drop_last() =~= zeros(n) + x.drop_last());
    } else if n > 0 {
        lemma_zeros_before((n - 1) as nat, x);
        assert(s.drop_last() =~= zeros((n - 1) as nat) + x);
    } else {
        assert(s =~= x);
    }
}

/// Texts that begin alike are in the order of what follows.
proof fn lemma_text_lt_behind(p: Seq<char>, a: Seq<char>, b: Seq<char>)
    ensures
        crate::text::text_lt(p + a, p + b) == crate::text::text_lt(a, b),
    decreases p.len(),
{
    if p.len() == 0 {
        assert(p + a =~= a);
        assert(p + b =~= b);
    } else {
        assert((p + a).skip(1) =~= p.skip(1) + a);
        assert((p + b).skip(1) =~= p.skip(1) + b);
        lemma_text_lt_behind(p.skip(1), a, b);
    }
}

/// Texts of one length are in order whatever follows them.
proof fn lemma_text_lt_before(x: Seq<char>, y: Seq<char>, a: Seq<char>, b: Seq<char>)
    requires
        x.len() == y.len(),
        crate::text::text_lt(x, y),
    ensures
        crate::text::text_lt(x + a, y + b),
    decreases x.len(),
{
    if x.len() > 0 && x[0] == y[0] {
        lemma_text_lt_before(x.skip(1), y.skip(1), a, b);
        assert((x + a).skip(1) =~= x.skip(1) + a);
        assert((y + b).skip(1) =~= y.skip(1) + b);
    }
}

/// One more character at the end decides only between texts that are the same before it.
proof fn lemma_text_lt_last(x: Seq<char>, y: Seq<char>)
    requires
        x.len() == y.len(),
        x.len() > 0,
    ensures
        crate::text::text_lt(x, y) <==> crate::text::text_lt(x.drop_last(), y.drop_last())
            || x.drop_last() == y.drop_last() && x.last() < y.last(),
    decreases x.len(),
{
    let a = x.drop_last();
    let b = y.drop_last();
    if x.len() == 1 {
        reveal_with_fuel(crate::text::text_lt, 2);
        assert(a =~= b);
    } else if x[0] == y[0] {
        lemma_text_lt_last(x.skip(1), y.skip(1));
        assert(x.skip(1).drop_last() =~= a.skip(1));
        assert(y.skip(1).drop_last() =~= b.skip(1));
        if a.skip(1) == b.skip(1) {
            assert(a =~= seq![a[0]] + a.skip(1));
            assert(b =~= seq![b[0]] + b.skip(1));
        }
    } else {
        assert(a[0] != b[0]);
    }
}

/// Numbers written with the same count of digits are in the order of the texts.
proof fn lemma_number_order(x: Seq<char>, y: Seq<char>)
    requires
        crate::text::all_digits(x),
        crate::text::all_digits(y),
        x.len() == y.len(),
    ensures
        crate::text::text_lt(x, y) <==> crate::text::number(x) < crate::text::number(y),
        x == y <==> crate::text::number(x) == crate::text::number(y),
    decreases x.len(),
{
    if x.len() == 0 {
        assert(x =~= y);
    } else {
        let a = x.drop_last();
        let b = y.drop_last();
        assert forall|i: int| 0 <= i < a.len() implies crate::text::is_digit(#[trigger] a[i]) by {
            assert(a[i] == x[i]);
        }
        assert forall|i: int| 0 <= i < b.len() implies crate::text::is_digit(#[trigger] b[i]) by {
            assert(b[i] == y[i]);
        }
        lemma_number_order(a, b);
        lemma_text_lt_last(x, y);
        assert(crate::text::is_digit(x[x.len() - 1]) && crate::text::is_digit(y[y.len() - 1]));
        if a == b && x.last() == y.last() {
            assert(x =~= a.push(x.last()));
            assert(y =~= b.push(y.last()));
        }
    }
}

/// Two numbers at the same place of two keys, and what follows them.
proof fn lemma_padded_order(x: Seq<char>, y: Seq<char>, a: Seq<char>, b: Seq<char>)
    requires
        crate::text::all_digits(x),
        crate::text::all_digits(y),
        x.len() <= KEY_WIDTH,
        y.len() <= KEY_WIDTH,
    ensures
        crate::text::text_lt(padded(x) + a, padded(y) + b) <==> crate::text::number(x)
            < crate::text::number(y) || crate::text::number(x) == crate::text::number(y)
            && crate::text::text_lt(a, b),
{
    lemma_padded(x);
    lemma_padded(y);
    let p = padded(x);
    let q = padded(y);
    lemma_number_order(p, q);
    lemma_number_order(q, p);
    if p == q {
        lemma_text_lt_behind(p, a, b);
    } else if crate::text::text_lt(p, q) {
        lemma_text_lt_before(p, q, a, b);
    } else {
        crate::text::lemma_text_lt_total(p, q);
        lemma_text_lt_before(q, p, b, a);
        crate::text::lemma_text_lt_asym(q + b, p + a);
    }
}

/// What a key begins with: a digit where the version has a number, its character elsewhere.
proof fn lemma_key_first(s: Seq<char>)
    requires
        s.len() > 0,
    ensures
        padded_runs(s).len() > 0,
        crate::text::is_digit(s[0]) ==> crate::text::is_digit(padded_runs(s)[0]) && ({
            let k = digit_run(s) as int;
            &&& 0 < k <= s.len()
            &&& crate::text::all_digits(s.take(k))
            &&& padded_runs(s) == padded(s.take(k)) + padded_runs(s.skip(k))
        }),
        !crate::text::is_digit(s[0]) ==> padded_runs(s)[0] == s[0] && padded_runs(s).skip(1)
            == padded_runs(s.skip(1)),
{
    lemma_digit_run(s);
    if crate::text::is_digit(s[0]) {
        let k = digit_run(s) as int;
        let x = s.take(k);
        assert(padded_runs(s) =~= padded(x) + padded_runs(s.skip(k)));
        assert(x[0] == s[0]);
        if x.len() < KEY_WIDTH {
            assert(padded_runs(s)[0] == '0');
        } else {
            assert(padded(x) =~= x);
            assert(padded_runs(s)[0] == x[0]);
        }
    } else {
        assert(padded_runs(s).skip(1) =~= padded_runs(s.skip(1)));
    }
}

/// Keys are in the natural order of what they are made of.
proof fn lemma_keys_natural(a: Seq<char>, b: Seq<char>)
    requires
        short_numbers(a),
        short_numbers(b),
    ensures
        crate::text::text_lt(padded_runs(a), padded_runs(b)) <==> natural_lt(a, b),
    decreases a.len(),
{
    if a.len() > 0 {
        lemma_key_first(a);
    }
    if b.len() > 0 {
        lemma_key_first(b);
    }
    if a.len() > 0 && b.len() > 0 {
        if crate::text::is_digit(a[0]) && crate::text::is_digit(b[0]) {
            let k = digit_run(a) as int;
            let l = digit_run(b) as int;
            lemma_padded_order(
                a.take(k),
                b.take(l),
                padded_runs(a.skip(k)),
                padded_runs(b.skip(l)),
            );
            lemma_keys_natural(a.skip(k), b.skip(l));
        } else if a[0] == b[0] {
            lemma_keys_natural(a.skip(1), b.skip(1));
        }
    }
}

/// Version keys sort in natural order: `v1.9` before `v1.10`. So it is of all versions whose
/// numbers have at most [`KEY_WIDTH`] digits.
pub proof fn version_keys_sort_naturally(v: Seq<char>, w: Seq<char>)
    requires
        short_numbers(plain_version(v)),
        short_numbers(plain_version(w)),
    ensures
        crate::text::text_lt(version_key_of(v), version_key_of(w)) <==> natural_lt(
            plain_version(v),
            plain_version(w),
        ),
{
    lemma_keys_natural(plain_version(v), plain_version(w));
}

/// The digits that a text begins with where a run of digits is followed by something else.
pub proof fn lemma_run_is(x: Seq<char>, rest: Seq<char>)
    requires
        crate::text::all_digits(x),
        rest.len() > 0 ==> !crate::text::is_digit(rest[0]),
    ensures
        digit_run(x + rest) == x.len(),
    decreases x.len(),
{
    if x.len() == 0 {
        assert(x + rest =~= rest);
    } else {
        assert((x + rest)[0] == x[0]);
        assert((x + rest).skip(1) =~= x.skip(1) + rest);
        assert forall|i: int| 0 <= i < x.skip(1).len() implies crate::text::is_digit(
            #[trigger] x.skip(1)[i],
        ) by {
            assert(x.skip(1)[i] == x[i + 1]);
        }
        lemma_run_is(x.skip(1), rest);
    }
}

/// What follows a text that does not end in a digit has a key of its own.
proof fn lemma_keys_add(p: Seq<char>, rest: Seq<char>)
    requires
        p.len() > 0 ==> !crate::text::is_digit(p.last()),
    ensures
        padded_runs(p + rest) == padded_runs(p) + padded_runs(rest),
    decreases p.len(),
{
    let s = p + rest;
    if p.len() == 0 {
        assert(s =~= rest);
        assert(padded_runs(p) + padded_runs(rest) =~= padded_runs(rest));
    } else {
        assert(s[0] == p[0]);
        lemma_key_first(s);
        lemma_key_first(p);
        if crate::text::is_digit(p[0]) {
            lemma_digit_run(p);
            let k = digit_run(p) as int;
            if k == p.len() {
                assert(p.take(k)[k - 1] == p.last());
            }
            let tail = p.skip(k);
            assert(s =~= p.take(k) + (tail + rest));
            lemma_run_is(p.take(k), tail + rest);
            assert(s.take(k) =~= p.take(k));
            assert(s.skip(k) =~= tail + rest);
            lemma_keys_add(tail, rest);
            assert(padded_runs(s) =~= padded_runs(p) + padded_runs(rest));
        } else {
            assert(s.skip(1) =~= p.skip(1) + rest);
            lemma_keys_add(p.skip(1), rest);
            assert(padded_runs(s) =~= padded_runs(p) + padded_runs(rest));
        }
    }
}

/// Two versions that are the same up to a number are in the order of that number, whatever
/// stands before and after it, where the number has at most [`KEY_WIDTH`] digits.
pub proof fn first_different_number_decides(
    v: Seq<char>,
    w: Seq<char>,
    start: Seq<char>,
    x: Seq<char>,
    y: Seq<char>,
    v_end: Seq<char>,
    w_end: Seq<char>,
)
    requires
        plain_version(v) == start + x + v_end,
        plain_version(w) == start + y + w_end,
        crate::text::all_digits(x),
        crate::text::all_digits(y),
        0 < x.len() <= KEY_WIDTH,
        0 < y.len() <= KEY_WIDTH,
        start.len() > 0 ==> !crate::text::is_digit(start.last()),
        v_end.len() > 0 ==> !crate::text::is_digit(v_end[0]),
        w_end.len() > 0 ==> !crate::text::is_digit(w_end[0]),
        crate::text::number(x) != crate::text::number(y),
    ensures
        crate::text::text_lt(version_key_of(v), version_key_of(w)) <==> crate::text::number(x)
            < crate::text::number(y),
{
    let a = x + v_end;
    let b = y + w_end;
    assert(plain_version(v) =~= start + a);
    assert(plain_version(w) =~= start + b);
    lemma_keys_add(start, a);
    lemma_keys_add(start, b);
    lemma_text_lt_behind(padded_runs(start), padded_runs(a), padded_runs(b));
    assert(a[0] == x[0] && b[0] == y[0]);
    lemma_key_first(a);
    lemma_key_first(b);
    lemma_run_is(x, v_end);
    lemma_run_is(y, w_end);
    assert(a.take(x.len() as int) =~= x);
    assert(b.take(y.len() as int) =~= y);
    lemma_padded_order(
        x,
        y,
        padded_runs(a.skip(x.len() as int)),
        padded_runs(b.skip(y.len() as int)),
    );
}

// --- Canonical filenames ----------------------------------------------------

/// The fields that make up a canonical filename.
#[derive(Debug, Clone, PartialEq, Eq)]
pub struct Canonical {
    pub title: String,
    pub version: Option<String>,
    pub language: Option<String>,
    pub disk: Option<(u32, u32)>,
    pub uid: String,
}

/// What a [`Canonical`] holds.
#[verifier::ext_equal]
pub struct CanonicalFields {
    pub title: Seq<char>,
    pub version: Option<Seq<char>>,
    pub language: Option<Seq<char>>,
    pub disk: Option<(u32, u32)>,
    pub uid: Seq<char>,
}

impl View for Canonical {
    type V = CanonicalFields;

    open spec fn view(&self) -> CanonicalFields {
        CanonicalFields {
            title: self.title@,
            version: crate::text::opt_view(self.version),
            language: crate::text::opt_view(self.language),
            disk: self.disk,
            uid: self.uid@,
        }
    }
}

/// The version field of a canonical name, with its separator.
pub open spec fn version_field(version: Option<Seq<char>>) -> Seq<char> {
    match version {
        Some(v) => seq!['_'] + normal_version(v),
        None => Seq::empty(),
    }
}

/// The language field of a canonical name, with its separator.
pub open spec fn language_field(language: Option<Seq<char>>) -> Seq<char> {
    match language {
        Some(l) => seq!['_'] + crate::text::lower(l),
        None => Seq::empty(),
    }
}

/// The text of a disk field.
pub open spec fn disk_text(n: u32, m: u32) -> Seq<char> {
    seq!['d'] + crate::text::two_digits(n as nat) + seq!['o', 'f'] + crate::text::two_digits(
        m as nat,
    )
}

/// The disk field of a canonical name, with its separator.
pub open spec fn disk_field(disk: Option<(u32, u32)>) -> Seq<char> {
    match disk {
        Some((n, m)) => seq!['_'] + disk_text(n, m),
        None => Seq::empty(),
    }
}

/// The extension of a canonical name.
pub open spec fn adf_suffix() -> Seq<char> {
    seq!['.', 'a', 'd', 'f']
}

/// The canonical filename:
/// `<Title-Kebab>[_v<Ver>][_<lang>][_d<NN>of<MM>]_<uid>.adf`.
pub open spec fn canonical_text(
    title: Seq<char>,
    version: Option<Seq<char>>,
    language: Option<Seq<char>>,
    disk: Option<(u32, u32)>,
    uid: Seq<char>,
) -> Seq<char> {
    sanitized(title) + version_field(version) + language_field(language) + disk_field(disk) + seq![
        '_',
    ] + uid + adf_suffix()
}

/// Build a canonical filename from an already-sanitized (or raw) display title.
pub fn build_canonical(
    display_title: &str,
    version: Option<&str>,
    language: Option<&str>,
    disk: Option<(u32, u32)>,
    uid: &str,
) -> (r: String)
    ensures
        r@ == canonical_text(
            display_title@,
            crate::text::opt_str_view(version),
            crate::text::opt_str_view(language),
            disk,
            uid@,
        ),
{
    let mut s = sanitize_chars(display_title);
    let vf = version_chars(version);
    append_chars(&mut s, &vf);
    let lf = language_chars(language);
    append_chars(&mut s, &lf);
    let df = disk_chars(disk);
    append_chars(&mut s, &df);
    append_text(&mut s, "_");
    append_text(&mut s, uid);
    append_text(&mut s, ".adf");
    proof {
        reveal_strlit("_");
        reveal_strlit(".adf");
        assert("_"@ =~= seq!['_']);
        assert(".adf"@ =~= adf_suffix());
    }
    string_of(&s)
}

/// The version field, with its separator.
fn version_chars(version: Option<&str>) -> (r: Vec<char>)
    ensures
        r@ == version_field(crate::text::opt_str_view(version)),
{
    let mut r: Vec<char> = Vec::new();
    if let Some(v) = version {
        r.push('_');
        let c = chars_of(v);
        let n = normalize_version(&c);
        append_chars(&mut r, &n);
    }
    assert(r@ =~= version_field(crate::text::opt_str_view(version)));
    r
}

/// The language field, with its separator.
fn language_chars(language: Option<&str>) -> (r: Vec<char>)
    ensures
        r@ == language_field(crate::text::opt_str_view(language)),
{
    let mut r: Vec<char> = Vec::new();
    if let Some(l) = language {
        r.push('_');
        let c = chars_of(l);
        let n = lowered(&c);
        append_chars(&mut r, &n);
    }
    assert(r@ =~= language_field(crate::text::opt_str_view(language)));
    r
}

/// The disk field, with its separator.
fn disk_chars(disk: Option<(u32, u32)>) -> (r: Vec<char>)
    ensures
        r@ == disk_field(disk),
{
    let mut r: Vec<char> = Vec::new();
    if let Some((n, m)) = disk {
        r.push('_');
        r.push('d');
        let dn = two_digit_chars(n);
        append_chars(&mut r, &dn);
        r.push('o');
        r.push('f');
        let dm = two_digit_chars(m);
        append_chars(&mut r, &dm);
        assert(r@ =~= seq!['_'] + disk_text(n, m));
    }
    assert(r@ =~= disk_field(disk));
    r
}

/// The disk numbers that a field of the shape `d<N>of<M>` holds.
pub open spec fn disk_field_of(t: Seq<char>) -> Option<(u32, u32)> {
    if t.len() == 0 || t[0] != 'd' {
        None
    } else {
        let rest = t.skip(1);
        match crate::text::find(rest, seq!['o', 'f']) {
            None => None,
            Some(i) => match (
                crate::text::as_u32(rest.take(i)),
                crate::text::as_u32(rest.skip(i + 2)),
            ) {
                (Some(n), Some(m)) => Some((n, m)),
                _ => None,
            },
        }
    }
}

/// The disk numbers of a field, if it is a disk field.
pub fn is_disk_field(t: &[char]) -> (r: Option<(u32, u32)>)
    ensures
        r == disk_field_of(t@),
{
    if t.len() == 0 || t[0] != 'd' {
        return None;
    }
    let rest = slice_of(t, 1, t.len());
    assert(rest@ =~= t@.skip(1));
    proof {
        reveal_strlit("of");
        assert("of"@ =~= seq!['o', 'f']);
    }
    match find_text(&rest, "of") {
        None => None,
        Some(i) => {
            let head = slice_of(&rest, 0, i);
            let tail = slice_of(&rest, i + 2, rest.len());
            assert(head@ =~= rest@.take(i as int));
            assert(tail@ =~= rest@.skip(i + 2));
            match (parse_u32(&head), parse_u32(&tail)) {
                (Some(n), Some(m)) => Some((n, m)),
                _ => None,
            }
        },
    }
}

/// A field of the shape of a language: two lowercase letters, or `mul`.
pub open spec fn is_language_field(p: Seq<char>) -> bool {
    (p.len() == 2 && crate::text::all_lower(p)) || p == seq!['m', 'u', 'l']
}

/// A field of the shape of a UID: hexadecimal, at least the default length.
pub open spec fn is_uid(t: Seq<char>) -> bool {
    t.len() >= UID_LEN && crate::text::all_hex(t)
}

/// Whether a field has the shape of a UID.
pub fn is_uid_field(t: &[char]) -> (r: bool)
    ensures
        r == is_uid(t@),
{
    t.len() >= UID_LEN && only_hex(t)
}

/// What has been read of a canonical name besides its title.
#[verifier::ext_equal]
pub struct Shapes {
    pub version: Option<Seq<char>>,
    pub language: Option<Seq<char>>,
    pub disk: Option<(u32, u32)>,
    pub uid: Option<Seq<char>>,
}

/// Nothing read yet.
pub open spec fn no_shapes() -> Shapes {
    Shapes { version: None, language: None, disk: None, uid: None }
}

/// What one field gives by its shape: a version, else a disk, else a language,
/// else a UID; any other field is skipped.
pub open spec fn add_field(s: Shapes, p: Seq<char>) -> Shapes {
    if is_version(p) {
        Shapes { version: Some(normal_version(p)), ..s }
    } else if disk_field_of(p) is Some {
        Shapes { disk: disk_field_of(p), ..s }
    } else if is_language_field(p) {
        Shapes { language: Some(p), ..s }
    } else if is_uid(p) {
        Shapes { uid: Some(p), ..s }
    } else {
        s
    }
}

/// What fields give, one after the other.
pub open spec fn add_fields(s: Shapes, ps: Seq<Seq<char>>) -> Shapes
    decreases ps.len(),
{
    if ps.len() == 0 {
        s
    } else {
        add_field(add_fields(s, ps.drop_last()), ps.last())
    }
}

/// A canonical name without its extension.
pub open spec fn canonical_stem(s: Seq<char>) -> Seq<char> {
    if crate::text::ends_with(s, adf_suffix()) {
        s.take(s.len() - 4)
    } else {
        s
    }
}

/// The fields of a canonical filename; `None` if it has no UID field.
pub open spec fn canonical_fields(filename: Seq<char>) -> Option<CanonicalFields> {
    let parts = crate::text::split_char(canonical_stem(filename), '_');
    let f = add_fields(no_shapes(), parts.skip(1));
    match f.uid {
        None => None,
        Some(uid) => Some(
            CanonicalFields {
                title: parts[0],
                version: f.version,
                language: f.language,
                disk: f.disk,
                uid,
            },
        ),
    }
}

/// Splitting always gives a first field.
proof fn lemma_split_nonempty(s: Seq<char>, c: char)
    ensures
        crate::text::split_char(s, c).len() > 0,
{
}

/// Parse a canonical filename back into fields by field shape, tolerating omitted
/// optional fields. Returns `None` if no UID field is present.
pub fn parse_canonical(filename: &str) -> (r: Option<Canonical>)
    ensures
        r matches Some(c) ==> canonical_fields(filename@) == Some(c@),
        r is None ==> canonical_fields(filename@) is None,
{
    let all = chars_of(filename);
    proof {
        reveal_strlit(".adf");
        assert(".adf"@ =~= adf_suffix());
        reveal_strlit("mul");
        assert("mul"@ =~= seq!['m', 'u', 'l']);
    }
    let n: usize = if ends(&all, ".adf") {
        all.len() - 4
    } else {
        all.len()
    };
    let stem = slice_of(&all, 0, n);
    assert(stem@ =~= canonical_stem(filename@));
    let parts = split_on_char(&stem, '_');
    let ghost pv = crate::text::parts_view(parts@);
    proof {
        lemma_split_nonempty(stem@, '_');
    }
    let title = string_of(&parts[0]);
    assert(title@ == pv[0]);
    let mut version: Option<String> = None;
    let mut language: Option<String> = None;
    let mut disk: Option<(u32, u32)> = None;
    let mut uid: Option<String> = None;
    let mut i: usize = 1;
    let ghost tail = pv.skip(1);
    assert(tail.take(0) =~= Seq::empty());
    while i < parts.len()
        invariant
            1 <= i <= parts@.len(),
            pv == crate::text::parts_view(parts@),
            tail == pv.skip(1),
            "mul"@ == seq!['m', 'u', 'l'],
            (Shapes {
                version: crate::text::opt_view(version),
                language: crate::text::opt_view(language),
                disk,
                uid: crate::text::opt_view(uid),
            }) == add_fields(no_shapes(), tail.take(i - 1)),
        decreases parts@.len() - i,
    {
        assert(tail.take(i as int).drop_last() =~= tail.take(i - 1));
        assert(tail.take(i as int).last() == parts@[i as int]@);
        let p = &parts[i];
        if is_version_token(p) {
            let v = normalize_version(p);
            version = Some(string_of(&v));
        } else if let Some(d) = is_disk_field(p) {
            disk = Some(d);
        } else if (p.len() == 2 && only_lower(p)) || is_text(p, "mul") {
            language = Some(string_of(p));
        } else if is_uid_field(p) {
            uid = Some(string_of(p));
        }
        i += 1;
    }
    assert(tail.take(i - 1) =~= tail);
    match uid {
        None => None,
        Some(uid) => Some(Canonical { title, version, language, disk, uid }),
    }
}

// --- Reading back what was written ------------------------------------------

/// `s` holds no field separator.
pub open spec fn no_separator(s: Seq<char>) -> bool {
    forall|i: int| 0 <= i < s.len() ==> #[trigger] s[i] != '_'
}

/// A field followed by a separator is the first field.
proof fn lemma_split_field(a: Seq<char>, b: Seq<char>)
    requires
        no_separator(a),
    ensures
        crate::text::split_char(a + seq!['_'] + b, '_') == seq![a] + crate::text::split_char(b, '_'),
{
    let s = a + seq!['_'] + b;
    crate::text::lemma_find_char_is(s, '_', 0, a.len() as int);
    assert(s.take(a.len() as int) =~= a);
    assert(s.skip(a.len() as int + 1) =~= b);
}

/// A text without a separator is one field.
proof fn lemma_split_one(a: Seq<char>)
    requires
        no_separator(a),
    ensures
        crate::text::split_char(a, '_') == seq![a],
{
    crate::text::lemma_find_char_none(a, '_', 0);
}

/// Digits hold no letter, so the digits of the first number of a disk field end
/// where `of` stands.
proof fn lemma_disk_round_trip(n: u32, m: u32)
    ensures
        disk_field_of(disk_text(n, m)) == Some((n, m)),
        no_separator(disk_text(n, m)),
        !is_version(disk_text(n, m)),
{
    let a = crate::text::two_digits(n as nat);
    let b = crate::text::two_digits(m as nat);
    crate::text::lemma_two_digits(n as nat);
    crate::text::lemma_two_digits(m as nat);
    let t = disk_text(n, m);
    let rest = t.skip(1);
    let of = seq!['o', 'f'];
    assert(rest =~= a + of + b);
    let k = a.len() as int;
    assert(rest.subrange(k, k + 2) =~= of);
    assert forall|j: int| 0 <= j < k implies !#[trigger] crate::text::stands_at(rest, of, j) by {
        assert(rest[j] == a[j]);
        assert(crate::text::is_digit(a[j]));
        if crate::text::stands_at(rest, of, j) {
            assert(rest.subrange(j, j + 2)[0] == 'o');
        }
    }
    crate::text::lemma_find_is(rest, of, 0, k);
    assert(rest.take(k) =~= a);
    assert(rest.skip(k + 2) =~= b);
    assert(crate::text::is_digit(a[0]) && crate::text::is_digit(b[0]));
    assert forall|i: int| 0 <= i < t.len() implies #[trigger] t[i] != '_' by {
        if 1 <= i < 1 + k {
            assert(t[i] == a[i - 1]);
        } else if i >= 1 + k + 2 {
            assert(t[i] == b[i - 1 - k - 2]);
        }
    }
}

/// A version that can be recovered from a canonical name: once normalized it has
/// the shape of a version and holds no separator.
pub open spec fn recoverable_version(v: Option<Seq<char>>) -> bool {
    v matches Some(t) ==> is_version(normal_version(t)) && no_separator(normal_version(t))
}

/// A normalized version that has the shape of a version has no space to trim.
proof fn lemma_normal_version_trimmed(v: Seq<char>)
    requires
        is_version(normal_version(v)),
    ensures
        crate::text::trim(normal_version(v)) == normal_version(v),
        normal_version(v)[0] == 'v',
{
    let t = crate::text::trim(v);
    let nv = normal_version(v);
    crate::text::lemma_trim_end_last(crate::text::trim_start(v));
    assert(nv[0] == 'v');
    assert(nv.last() == t.last());
}

/// A language that can be recovered from a canonical name.
pub open spec fn recoverable_language(l: Option<Seq<char>>) -> bool {
    l matches Some(t) ==> is_language_field(crate::text::lower(t))
}

/// A language field is no version, no disk and holds no separator.
proof fn lemma_language_shape(p: Seq<char>)
    requires
        is_language_field(p),
    ensures
        !is_version(p),
        disk_field_of(p) is None,
        no_separator(p),
{
    if p == seq!['m', 'u', 'l'] {
        assert(p[0] == 'm');
    } else {
        assert(crate::text::is_lower(p[0]) && crate::text::is_lower(p[1]));
        if p[0] == 'd' {
            let rest = p.skip(1);
            crate::text::lemma_find(rest, seq!['o', 'f'], 0);
        }
    }
    assert forall|i: int| 0 <= i < p.len() implies #[trigger] p[i] != '_' by {
        if p.len() == 2 {
            assert(crate::text::is_lower(p[i]));
        }
    }
}

/// A UID is no version, no disk and no language, and holds no separator.
proof fn lemma_uid_shape(p: Seq<char>)
    requires
        is_uid(p),
    ensures
        !is_version(p),
        disk_field_of(p) is None,
        !is_language_field(p),
        no_separator(p),
{
    assert(crate::text::is_hex(p[0]));
    if p[0] == 'd' {
        let rest = p.skip(1);
        let of = seq!['o', 'f'];
        crate::text::lemma_find(rest, of, 0);
        if crate::text::find(rest, of) is Some {
            let k = crate::text::find(rest, of)->0;
            assert(rest.subrange(k, k + 2)[0] == 'o');
            assert(rest[k] == p[k + 1]);
            assert(crate::text::is_hex(p[k + 1]));
        }
    }
    assert forall|i: int| 0 <= i < p.len() implies #[trigger] p[i] != '_' by {
        assert(crate::text::is_hex(p[i]));
    }
}

/// A canonical name reads back as what it was built from: the sanitized title,
/// the normalized version, the lowercase language, the disk and the UID. Optional
/// fields that were omitted come back as absent. It holds for every title; the
/// other fields must have the shape that they are recognized by.
#[verifier::rlimit(60)]
#[verifier::spinoff_prover]
pub proof fn canonical_round_trip(
    title: Seq<char>,
    version: Option<Seq<char>>,
    language: Option<Seq<char>>,
    disk: Option<(u32, u32)>,
    uid: Seq<char>,
)
    requires
        recoverable_version(version),
        recoverable_language(language),
        is_uid(uid),
    ensures
        canonical_fields(canonical_text(title, version, language, disk, uid)) == Some(
            CanonicalFields {
                title: sanitized(title),
                version: match version {
                    Some(v) => Some(normal_version(v)),
                    None => None,
                },
                language: match language {
                    Some(l) => Some(crate::text::lower(l)),
                    None => None,
                },
                disk,
                uid,
            },
        ),
{
    let text = canonical_text(title, version, language, disk, uid);
    let kebab = sanitized(title);
    lemma_sanitized_is_kebab(title);
    assert(no_separator(kebab)) by {
        assert forall|i: int| 0 <= i < kebab.len() implies #[trigger] kebab[i] != '_' by {
            assert(crate::text::is_alnum(kebab[i]) || kebab[i] == '-');
        }
    }
    lemma_uid_shape(uid);
    let fv: Option<Seq<char>> = match version {
        Some(v) => Some(normal_version(v)),
        None => None,
    };
    let fl: Option<Seq<char>> = match language {
        Some(l) => Some(crate::text::lower(l)),
        None => None,
    };
    let fd: Option<Seq<char>> = match disk {
        Some((n, m)) => Some(disk_text(n, m)),
        None => None,
    };
    if disk is Some {
        lemma_disk_round_trip((disk->0).0, (disk->0).1);
    }
    if language is Some {
        lemma_language_shape(fl->0);
    }
    if version is Some {
        lemma_normal_version_trimmed(version->0);
        assert(seq!['v'] + (fv->0).skip(1) =~= fv->0);
    }
    // The stem, and its fields.
    let r0 = uid;
    let r1 = field_then(fd, r0);
    let r2 = field_then(fl, r1);
    let r3 = field_then(fv, r2);
    lemma_split_one(uid);
    lemma_split_optional(fd, r0);
    lemma_split_optional(fl, r1);
    lemma_split_optional(fv, r2);
    lemma_split_field(kebab, r3);
    let stem = kebab + seq!['_'] + r3;
    assert(text =~= stem + adf_suffix()) by {
        lemma_stem_text(kebab, version, language, disk, uid);
    }
    assert(text.subrange(text.len() - 4, text.len() as int) =~= adf_suffix());
    assert(canonical_stem(text) =~= stem);
    let parts = crate::text::split_char(stem, '_');
    let p0 = seq![uid];
    let p1 = parts_then(fd, p0);
    let p2 = parts_then(fl, p1);
    let p3 = parts_then(fv, p2);
    assert(parts == seq![kebab] + p3);
    assert(parts.skip(1) =~= p3);
    // What the fields give.
    let s0 = no_shapes();
    lemma_add_optional(s0, fv, p2);
    let s1 = field_given(s0, fv);
    lemma_add_optional(s1, fl, p1);
    let s2 = field_given(s1, fl);
    lemma_add_optional(s2, fd, p0);
    let s3 = field_given(s2, fd);
    lemma_add_fields_first(s3, p0);
    assert(p0.skip(1) =~= Seq::empty());
    assert(add_fields(s0, p3) == add_field(s3, uid));
}

/// An optional field with its separator, and what follows it.
spec fn field_then(f: Option<Seq<char>>, rest: Seq<char>) -> Seq<char> {
    match f {
        Some(x) => x + seq!['_'] + rest,
        None => rest,
    }
}

/// An optional field in front of other fields.
spec fn parts_then(f: Option<Seq<char>>, rest: Seq<Seq<char>>) -> Seq<Seq<char>> {
    match f {
        Some(x) => seq![x] + rest,
        None => rest,
    }
}

/// What an optional field gives.
spec fn field_given(s: Shapes, f: Option<Seq<char>>) -> Shapes {
    match f {
        Some(x) => add_field(s, x),
        None => s,
    }
}

proof fn lemma_split_optional(f: Option<Seq<char>>, rest: Seq<char>)
    requires
        f matches Some(x) ==> no_separator(x),
    ensures
        crate::text::split_char(field_then(f, rest), '_') == parts_then(
            f,
            crate::text::split_char(rest, '_'),
        ),
{
    if f is Some {
        lemma_split_field(f->0, rest);
    }
}

proof fn lemma_add_optional(s: Shapes, f: Option<Seq<char>>, rest: Seq<Seq<char>>)
    ensures
        add_fields(s, parts_then(f, rest)) == add_fields(field_given(s, f), rest),
{
    if f is Some {
        lemma_add_fields_first(s, parts_then(f, rest));
        assert(parts_then(f, rest).skip(1) =~= rest);
    }
}

/// The fields of a canonical name, regrouped from the left.
proof fn lemma_stem_text(
    kebab: Seq<char>,
    version: Option<Seq<char>>,
    language: Option<Seq<char>>,
    disk: Option<(u32, u32)>,
    uid: Seq<char>,
)
    ensures
        kebab + version_field(version) + language_field(language) + disk_field(disk) + seq!['_']
            + uid == kebab + seq!['_'] + field_then(
            match version {
                Some(v) => Some(normal_version(v)),
                None => None,
            },
            field_then(
                match language {
                    Some(l) => Some(crate::text::lower(l)),
                    None => None,
                },
                field_then(
                    match disk {
                        Some((n, m)) => Some(disk_text(n, m)),
                        None => None,
                    },
                    uid,
                ),
            ),
        ),
{
    let us = seq!['_'];
    let fd: Option<Seq<char>> = match disk {
        Some((n, m)) => Some(disk_text(n, m)),
        None => None,
    };
    let fl: Option<Seq<char>> = match language {
        Some(l) => Some(crate::text::lower(l)),
        None => None,
    };
    let fv: Option<Seq<char>> = match version {
        Some(v) => Some(normal_version(v)),
        None => None,
    };
    let d = disk_field(disk);
    let l = language_field(language);
    let v = version_field(version);
    lemma_field_moves(fd, d, uid);
    lemma_field_moves(fl, l, field_then(fd, uid));
    lemma_field_moves(fv, v, field_then(fl, field_then(fd, uid)));
    lemma_regroup(kebab, v, l, d, us, uid);
    assert(kebab + us + field_then(fv, field_then(fl, field_then(fd, uid))) =~= kebab + (us
        + field_then(fv, field_then(fl, field_then(fd, uid)))));
}

/// A field with its separator in front of it, then a separator: the separator moves
/// to the front.
proof fn lemma_field_moves(f: Option<Seq<char>>, text: Seq<char>, rest: Seq<char>)
    requires
        text == (match f {
            Some(x) => seq!['_'] + x,
            None => Seq::empty(),
        }),
    ensures
        text + (seq!['_'] + rest) == seq!['_'] + field_then(f, rest),
{
    assert(text + (seq!['_'] + rest) =~= seq!['_'] + field_then(f, rest));
}

/// Six texts in a row, grouped from the right.
proof fn lemma_regroup(
    a: Seq<char>,
    b: Seq<char>,
    c: Seq<char>,
    d: Seq<char>,
    e: Seq<char>,
    f: Seq<char>,
)
    ensures
        a + b + c + d + e + f == a + (b + (c + (d + (e + f)))),
{
    assert(a + b + c + d + e + f =~= a + (b + (c + (d + (e + f)))));
}

/// Fields may be read from the first one on.
proof fn lemma_add_fields_first(s: Shapes, ps: Seq<Seq<char>>)
    requires
        ps.len() > 0,
    ensures
        add_fields(s, ps) == add_fields(add_field(s, ps[0]), ps.skip(1)),
    decreases ps.len(),
{
    if ps.len() == 1 {
        assert(ps.drop_last() =~= Seq::empty());
        assert(ps.skip(1) =~= Seq::empty());
        reveal_with_fuel(add_fields, 2);
    } else {
        lemma_add_fields_first(s, ps.drop_last());
        assert(ps.drop_last().skip(1) =~= ps.skip(1).drop_last());
    }
}

// --- Scene flags ------------------------------------------------------------

/// Every group of `s` from position `i` on is closed.
pub open spec fn closed_from(s: Seq<char>, i: int) -> bool
    decreases s.len() + 1 - i,
{
    if i < 0 || i >= s.len() {
        true
    } else if !is_marker(s[i]) {
        closed_from(s, i + 1)
    } else {
        let end = close_at(s, s[i], i + 1, 1);
        proof {
            lemma_close_at(s, s[i], i + 1, 1);
        }
        end < s.len() && closed_from(s, end + 1)
    }
}

/// A bracket group that holds `f`.
pub open spec fn flag_group(f: Seq<char>) -> Seq<char> {
    seq!['['] + f + seq![']']
}

/// `f` holds no bracket.
pub open spec fn no_brackets(f: Seq<char>) -> bool {
    forall|i: int| 0 <= i < f.len() ==> #[trigger] f[i] != '[' && f[i] != ']'
}

/// A group that is closed stays closed, at the same place, when text follows.
proof fn lemma_close_at_append(s: Seq<char>, t: Seq<char>, open: char, i: int, depth: int)
    requires
        0 <= i <= s.len(),
        close_at(s, open, i, depth) < s.len(),
    ensures
        close_at(s + t, open, i, depth) == close_at(s, open, i, depth),
    decreases s.len() - i,
{
    if i < s.len() {
        assert((s + t)[i] == s[i]);
        if s[i] == open {
            lemma_close_at_append(s, t, open, i + 1, depth + 1);
        } else if s[i] == closer(open) {
            if depth > 1 {
                lemma_close_at_append(s, t, open, i + 1, depth - 1);
            }
        } else {
            lemma_close_at_append(s, t, open, i + 1, depth);
        }
    }
}

/// Text after closed groups adds its own groups behind them.
proof fn lemma_groups_append(s: Seq<char>, t: Seq<char>, i: int)
    requires
        0 <= i <= s.len(),
        closed_from(s, i),
    ensures
        groups_from(s + t, i) == groups_from(s, i) + groups_from(s + t, s.len() as int),
    decreases s.len() + 1 - i,
{
    let all = s + t;
    let tail = groups_from(all, s.len() as int);
    if i == s.len() {
        assert(groups_from(s, i) + tail =~= tail);
    } else {
        assert(all[i] == s[i]);
        if !is_marker(s[i]) {
            lemma_groups_append(s, t, i + 1);
        } else {
            let end = close_at(s, s[i], i + 1, 1);
            lemma_close_at(s, s[i], i + 1, 1);
            lemma_close_at_append(s, t, s[i], i + 1, 1);
            lemma_groups_append(s, t, end + 1);
            assert(all.subrange(i + 1, end) =~= s.subrange(i + 1, end));
            let g = seq![(s[i], closer(s[i]), s.subrange(i + 1, end))];
            assert(g + (groups_from(s, end + 1) + tail) =~= (g + groups_from(s, end + 1)) + tail);
        }
    }
}

/// Inside a bracket group without further brackets, the group closes at its end.
proof fn lemma_close_at_flag(s: Seq<char>, i: int, k: int)
    requires
        0 <= i <= k < s.len(),
        s[k] == ']',
        forall|j: int| i <= j < k ==> #[trigger] s[j] != '[' && s[j] != ']',
    ensures
        close_at(s, '[', i, 1) == k,
    decreases k - i,
{
    if i < k {
        lemma_close_at_flag(s, i + 1, k);
    }
}

/// The first marker stays the first marker when text follows.
proof fn lemma_marker_append(s: Seq<char>, t: Seq<char>, i: int)
    requires
        0 <= i,
        marker_from(s, i) is Some,
    ensures
        marker_from(s + t, i) == marker_from(s, i),
        i <= marker_from(s, i)->0 < s.len(),
    decreases s.len() - i,
{
    if i < s.len() {
        assert((s + t)[i] == s[i]);
        if !is_marker(s[i]) {
            lemma_marker_append(s, t, i + 1);
        }
    }
}

/// A scene flag at the end of a name adds that flag and changes nothing else:
/// title, version, language, publisher, qualifier, year and disk stay as they were.
pub proof fn trailing_flag_only_adds_flag(st: Seq<char>, f: Seq<char>)
    requires
        tosec_stem(st) is Some,
        closed_from(st.skip(marker_from(st, 0)->0), 0),
        no_brackets(f),
    ensures
        tosec_stem(st + flag_group(f)) == Some(
            TosecFields {
                flags: tosec_stem(st)->0.flags.push(crate::text::trim(f)),
                ..tosec_stem(st)->0
            },
        ),
{
    let g = flag_group(f);
    lemma_marker_append(st, g, 0);
    let m = marker_from(st, 0)->0;
    assert((st + g).take(m) =~= st.take(m));
    let rest = st.skip(m);
    assert((st + g).skip(m) =~= rest + g);
    lemma_groups_append(rest, g, 0);
    let all = rest + g;
    let n = rest.len() as int;
    let k = all.len() - 1;
    assert(all[n] == '[');
    assert(all[k] == ']');
    assert forall|j: int| n + 1 <= j < k implies #[trigger] all[j] != '[' && all[j] != ']' by {
        assert(all[j] == f[j - n - 1]);
    }
    lemma_close_at_flag(all, n + 1, k);
    assert(all.subrange(n + 1, k) =~= f);
    assert(groups_from(all, k + 1) =~= Seq::empty());
    let gs = groups_from(rest, 0);
    let last = ('[', ']', f);
    assert(groups_from(all, n) =~= seq![last]);
    assert(groups_from(all, 0) =~= gs.push(last));
    assert(gs.push(last).drop_last() =~= gs);
}

/// The `.adf` extension of a name is not part of its stem.
pub proof fn adf_extension_is_dropped(st: Seq<char>)
    ensures
        stem_of(st + adf_suffix()) == st,
{
    let s = st + adf_suffix();
    let n = st.len() as int;
    reveal_with_fuel(crate::text::rfind_char_before, 5);
    assert(s[n] == '.' && s[n + 1] == 'a' && s[n + 2] == 'd' && s[n + 3] == 'f');
    assert(s.skip(n + 1) =~= seq!['a', 'd', 'f']);
    assert(s.take(n) =~= st);
}

/// The groups of a name's stem: what stands in round or square brackets, from the first on.
pub open spec fn groups_of(st: Seq<char>) -> Seq<(char, char, Seq<char>)> {
    groups_from(st.skip(marker_from(st, 0)->0), 0)
}

/// Whether a group is in square brackets.
pub open spec fn is_flag_group(g: (char, char, Seq<char>)) -> bool {
    g.0 == '['
}

/// Whether a group gives the disk: it is in round brackets, and reads `Disk n of m`.
pub open spec fn gives_disk(g: (char, char, Seq<char>)) -> bool {
    !is_flag_group(g) && disk_of(crate::text::trim(g.2)) is Some
}

/// Whether a group gives the year: it is in round brackets, gives no disk, and begins with a
/// year.
pub open spec fn gives_year(g: (char, char, Seq<char>)) -> bool {
    !is_flag_group(g) && !gives_disk(g) && year_of(crate::text::trim(g.2)) is Some
}

/// Whether a group gives the language: it is in round brackets, gives neither disk nor year,
/// and is a language code.
pub open spec fn gives_language(g: (char, char, Seq<char>)) -> bool {
    !is_flag_group(g) && !gives_disk(g) && !gives_year(g) && is_lang(crate::text::trim(g.2))
}

/// Whether a group gives the qualifier: it is in round brackets, gives neither disk nor year
/// nor language, and is a demo or preview qualifier.
pub open spec fn gives_qualifier(g: (char, char, Seq<char>)) -> bool {
    !is_flag_group(g) && !gives_disk(g) && !gives_year(g) && !gives_language(g) && is_qualifier(
        crate::text::trim(g.2),
    )
}

/// Whether a group is plain: in round brackets, and no disk, year, language or qualifier.
pub open spec fn is_plain(g: (char, char, Seq<char>)) -> bool {
    !is_flag_group(g) && !gives_disk(g) && !gives_year(g) && !gives_language(g)
        && !gives_qualifier(g)
}

/// Once a name has a publisher, a further plain group leaves every field as it was. A plain
/// group of a name without one is its publisher, and changes nothing else.
pub proof fn later_plain_groups_change_nothing(t: TosecFields, g: (char, char, Seq<char>))
    requires
        is_plain(g),
    ensures
        t.publisher is Some ==> add_group(t, g) == t,
        t.publisher is None ==> add_group(t, g) == (TosecFields {
            publisher: Some(crate::text::trim(g.2)),
            ..t
        }),
{
}

/// What is read off a sequence of groups, added to a name without any.
proof fn lemma_added_groups(title: Seq<char>, version: Option<Seq<char>>, gs: Seq<
    (char, char, Seq<char>),
>)
    ensures
        add_groups(bare_name(title, version), gs).title == title,
        add_groups(bare_name(title, version), gs).version == version,
        match add_groups(bare_name(title, version), gs).publisher {
            Some(p) => exists|k: int|
                0 <= k < gs.len() && is_plain(#[trigger] gs[k]) && p == crate::text::trim(gs[k].2)
                    && forall|j: int| 0 <= j < k ==> !is_plain(#[trigger] gs[j]),
            None => forall|j: int| 0 <= j < gs.len() ==> !is_plain(#[trigger] gs[j]),
        },
    decreases gs.len(),
{
    if gs.len() > 0 {
        let init = gs.drop_last();
        let n = init.len() as int;
        lemma_added_groups(title, version, init);
        let t = add_groups(bare_name(title, version), init);
        assert(forall|j: int| 0 <= j < n ==> #[trigger] gs[j] == init[j]);
        match t.publisher {
            Some(p) => {
                let k = choose|k: int|
                    0 <= k < init.len() && is_plain(#[trigger] init[k]) && p == crate::text::trim(
                        init[k].2,
                    ) && forall|j: int| 0 <= j < k ==> !is_plain(#[trigger] init[j]);
                assert(is_plain(gs[k]));
            },
            None => {
                assert forall|j: int| 0 <= j < n implies !is_plain(#[trigger] gs[j]) by {
                    assert(gs[j] == init[j]);
                }
                if is_plain(gs.last()) {
                    assert(is_plain(gs[n]));
                }
            },
        }
    }
}

/// The publisher of a name is the trimmed content of its first plain group; it has none
/// exactly where no group is plain.
pub proof fn publisher_is_the_first_plain_group(st: Seq<char>)
    requires
        tosec_stem(st) is Some,
    ensures
        match (tosec_stem(st)->0).publisher {
            Some(p) => exists|k: int|
                0 <= k < groups_of(st).len() && is_plain(#[trigger] groups_of(st)[k]) && p
                    == crate::text::trim(groups_of(st)[k].2) && forall|j: int|
                    0 <= j < k ==> !is_plain(#[trigger] groups_of(st)[j]),
            None => forall|j: int|
                0 <= j < groups_of(st).len() ==> !is_plain(#[trigger] groups_of(st)[j]),
        },
{
    let tv = split_version(crate::text::trim(st.take(marker_from(st, 0)->0)));
    lemma_added_groups(tv.0, tv.1, groups_of(st));
}

/// The flags of a name are the trimmed contents of its square brackets, in order.
pub proof fn flags_are_the_square_brackets(st: Seq<char>)
    requires
        tosec_stem(st) is Some,
    ensures
        (tosec_stem(st)->0).flags == groups_of(st).filter(
            |g: (char, char, Seq<char>)| is_flag_group(g),
        ).map_values(|g: (char, char, Seq<char>)| crate::text::trim(g.2)),
{
    let tv = split_version(crate::text::trim(st.take(marker_from(st, 0)->0)));
    lemma_added_flags(bare_name(tv.0, tv.1), groups_of(st));
}

/// Groups add the flags among them.
proof fn lemma_added_flags(t: TosecFields, gs: Seq<(char, char, Seq<char>)>)
    ensures
        add_groups(t, gs).flags == t.flags + gs.filter(
            |g: (char, char, Seq<char>)| is_flag_group(g),
        ).map_values(|g: (char, char, Seq<char>)| crate::text::trim(g.2)),
    decreases gs.len(),
{
    reveal(Seq::filter);
    let is = |g: (char, char, Seq<char>)| is_flag_group(g);
    let to = |g: (char, char, Seq<char>)| crate::text::trim(g.2);
    if gs.len() == 0 {
        assert(add_groups(t, gs).flags =~= t.flags + gs.filter(is).map_values(to));
    } else {
        let init = gs.drop_last();
        lemma_added_flags(t, init);
        if is(gs.last()) {
            assert(gs.filter(is) =~= init.filter(is).push(gs.last()));
            assert(gs.filter(is).map_values(to) =~= init.filter(is).map_values(to).push(
                crate::text::trim(gs.last().2),
            ));
        } else {
            assert(gs.filter(is) =~= init.filter(is));
        }
        assert(add_groups(t, gs).flags =~= t.flags + gs.filter(is).map_values(to));
    }
}

/// Whether the last group of a kind is the one at `k`, or none is where `k` is below zero.
pub open spec fn is_last_of(
    kind: spec_fn((char, char, Seq<char>)) -> bool,
    gs: Seq<(char, char, Seq<char>)>,
    k: int,
) -> bool {
    &&& -1 <= k < gs.len()
    &&& k >= 0 ==> kind(gs[k])
    &&& forall|j: int| k < j < gs.len() ==> !kind(#[trigger] gs[j])
}

/// The last group of a kind stays so without the group at the end, where that is of another
/// kind.
proof fn lemma_last_of_init(
    kind: spec_fn((char, char, Seq<char>)) -> bool,
    gs: Seq<(char, char, Seq<char>)>,
    k: int,
)
    requires
        is_last_of(kind, gs, k),
        gs.len() > 0,
    ensures
        k < gs.len() - 1 ==> !kind(gs.last()) && is_last_of(kind, gs.drop_last(), k),
        k == gs.len() - 1 ==> kind(gs.last()),
{
    let init = gs.drop_last();
    if k < gs.len() - 1 {
        assert(!kind(gs[gs.len() - 1]));
        assert forall|j: int| k < j < init.len() implies !kind(#[trigger] init[j]) by {
            assert(init[j] == gs[j]);
        }
        if k >= 0 {
            assert(init[k] == gs[k]);
        }
    }
}

/// What the last groups of each kind give.
proof fn lemma_last_groups(
    title: Seq<char>,
    version: Option<Seq<char>>,
    gs: Seq<(char, char, Seq<char>)>,
    d: int,
    y: int,
    l: int,
    q: int,
)
    requires
        is_last_of(|g: (char, char, Seq<char>)| gives_disk(g), gs, d),
        is_last_of(|g: (char, char, Seq<char>)| gives_year(g), gs, y),
        is_last_of(|g: (char, char, Seq<char>)| gives_language(g), gs, l),
        is_last_of(|g: (char, char, Seq<char>)| gives_qualifier(g), gs, q),
    ensures
        ({
            let t = add_groups(bare_name(title, version), gs);
            &&& d < 0 ==> t.disk_no is None && t.disk_count is None
            &&& d >= 0 ==> disk_of(crate::text::trim(gs[d].2)) == Some(
                (t.disk_no->0, t.disk_count->0),
            ) && t.disk_no is Some && t.disk_count is Some
            &&& y < 0 ==> t.year is None
            &&& y >= 0 ==> t.year == year_of(crate::text::trim(gs[y].2))
            &&& l < 0 ==> t.language is None
            &&& l >= 0 ==> t.language == Some(crate::text::lower(crate::text::trim(gs[l].2)))
            &&& q < 0 ==> t.qualifier is None
            &&& q >= 0 ==> t.qualifier == Some(crate::text::lower(crate::text::trim(gs[q].2)))
        }),
    decreases gs.len(),
{
    if gs.len() > 0 {
        let init = gs.drop_last();
        let n = init.len() as int;
        let kd = |g: (char, char, Seq<char>)| gives_disk(g);
        let ky = |g: (char, char, Seq<char>)| gives_year(g);
        let kl = |g: (char, char, Seq<char>)| gives_language(g);
        let kq = |g: (char, char, Seq<char>)| gives_qualifier(g);
        lemma_last_of_init(kd, gs, d);
        lemma_last_of_init(ky, gs, y);
        lemma_last_of_init(kl, gs, l);
        lemma_last_of_init(kq, gs, q);
        let d2 = lemma_last_exists(kd, init);
        let y2 = lemma_last_exists(ky, init);
        let l2 = lemma_last_exists(kl, init);
        let q2 = lemma_last_exists(kq, init);
        let d3 = if d == n { d2 } else { d };
        let y3 = if y == n { y2 } else { y };
        let l3 = if l == n { l2 } else { l };
        let q3 = if q == n { q2 } else { q };
        lemma_last_groups(title, version, init, d3, y3, l3, q3);
        assert(forall|j: int| 0 <= j < n ==> #[trigger] gs[j] == init[j]);
    }
}

/// There is a last group of a kind, or none of the kind.
proof fn lemma_last_exists(
    kind: spec_fn((char, char, Seq<char>)) -> bool,
    gs: Seq<(char, char, Seq<char>)>,
) -> (k: int)
    ensures
        is_last_of(kind, gs, k),
    decreases gs.len(),
{
    if gs.len() == 0 {
        -1
    } else if kind(gs.last()) {
        gs.len() - 1
    } else {
        let init = gs.drop_last();
        let k = lemma_last_exists(kind, init);
        assert forall|j: int| k < j < gs.len() implies !kind(#[trigger] gs[j]) by {
            if j < init.len() {
                assert(init[j] == gs[j]);
            }
        }
        if k >= 0 {
            assert(init[k] == gs[k]);
        }
        k
    }
}

/// Disk, year, language and qualifier of a name are each what its last group of that kind
/// gives, the language and the qualifier in small letters; a name without a group of a kind
/// has nothing there.
pub proof fn last_group_of_a_kind_counts(st: Seq<char>, d: int, y: int, l: int, q: int)
    requires
        tosec_stem(st) is Some,
        is_last_of(|g: (char, char, Seq<char>)| gives_disk(g), groups_of(st), d),
        is_last_of(|g: (char, char, Seq<char>)| gives_year(g), groups_of(st), y),
        is_last_of(|g: (char, char, Seq<char>)| gives_language(g), groups_of(st), l),
        is_last_of(|g: (char, char, Seq<char>)| gives_qualifier(g), groups_of(st), q),
    ensures
        ({
            let t = tosec_stem(st)->0;
            let gs = groups_of(st);
            &&& d < 0 ==> t.disk_no is None && t.disk_count is None
            &&& d >= 0 ==> t.disk_no is Some && t.disk_count is Some && disk_of(
                crate::text::trim(gs[d].2),
            ) == Some((t.disk_no->0, t.disk_count->0))
            &&& y < 0 ==> t.year is None
            &&& y >= 0 ==> t.year == year_of(crate::text::trim(gs[y].2))
            &&& l < 0 ==> t.language is None
            &&& l >= 0 ==> t.language == Some(crate::text::lower(crate::text::trim(gs[l].2)))
            &&& q < 0 ==> t.qualifier is None
            &&& q >= 0 ==> t.qualifier == Some(crate::text::lower(crate::text::trim(gs[q].2)))
        }),
{
    let tv = split_version(crate::text::trim(st.take(marker_from(st, 0)->0)));
    lemma_last_groups(tv.0, tv.1, groups_of(st), d, y, l, q);
}

/// Whether a text holds no opening bracket, round or square.
pub open spec fn no_markers(s: Seq<char>) -> bool {
    forall|i: int| 0 <= i < s.len() ==> #[trigger] s[i] != '(' && s[i] != '['
}

/// No marker is found in a text without one.
proof fn lemma_no_marker(s: Seq<char>, i: int)
    requires
        0 <= i,
        no_markers(s),
    ensures
        marker_from(s, i) is None,
    decreases s.len() - i,
{
    if i < s.len() {
        lemma_no_marker(s, i + 1);
    }
}

/// The first marker is found behind a text without one.
proof fn lemma_marker_behind(head: Seq<char>, rest: Seq<char>, i: int)
    requires
        0 <= i <= head.len(),
        no_markers(head),
        rest.len() > 0,
        rest[0] == '(' || rest[0] == '[',
    ensures
        marker_from(head + rest, i) == Some(head.len() as int),
    decreases head.len() - i,
{
    if i < head.len() {
        assert((head + rest)[i] == head[i]);
        lemma_marker_behind(head, rest, i + 1);
    } else {
        assert((head + rest)[i] == rest[0]);
    }
}

/// A name without brackets does not read. One with brackets reads exactly where something
/// stands before them: that, trimmed, is its title, but for a last word that is a version (a
/// `v` of either case and a digit to begin with), which is its version.
pub proof fn title_and_version_stand_before_the_groups(head: Seq<char>, rest: Seq<char>)
    requires
        no_markers(head),
        rest.len() > 0 ==> rest[0] == '(' || rest[0] == '[',
    ensures
        tosec_stem(head + rest) is Some <==> rest.len() > 0 && crate::text::trim(head).len() > 0,
        tosec_stem(head + rest) matches Some(t) ==> {
            let name = crate::text::trim(head);
            &&& groups_of(head + rest) == groups_from(rest, 0)
            &&& !name.contains(' ') ==> t.title == name && t.version is None
            &&& forall|a: Seq<char>, v: Seq<char>|
                name == #[trigger] (a.push(' ') + v) && !v.contains(' ') ==> if v.len() >= 2 && (
                v[0] == 'v' || v[0] == 'V') && '0' <= v[1] <= '9' {
                    t.title == crate::text::trim_end(a) && t.version == Some(v)
                } else {
                    t.title == name && t.version is None
                }
        },
{
    let st = head + rest;
    if rest.len() == 0 {
        assert(st =~= head);
        lemma_no_marker(st, 0);
    } else {
        lemma_marker_behind(head, rest, 0);
        let m = head.len() as int;
        assert(st.take(m) =~= head);
        assert(st.skip(m) =~= rest);
        let name = crate::text::trim(head);
        if name.len() > 0 {
            let tv = split_version(name);
            lemma_added_groups(tv.0, tv.1, groups_from(rest, 0));
            if !name.contains(' ') {
                crate::text::finding_a_character(name, ' ', seq![]);
            }
            assert forall|a: Seq<char>, v: Seq<char>|
                name == #[trigger] (a.push(' ') + v) && !v.contains(' ') implies ({
                let t = tosec_stem(st)->0;
                if v.len() >= 2 && (v[0] == 'v' || v[0] == 'V') && '0' <= v[1] <= '9' {
                    t.title == crate::text::trim_end(a) && t.version == Some(v)
                } else {
                    t.title == name && t.version is None
                }
            }) by {
                crate::text::finding_a_character(a, ' ', v);
                assert(name.take(a.len() as int) =~= a);
                assert(name.skip(a.len() + 1int) =~= v);
            }
        }
    }
}

/// A search for the end of a group goes past what holds neither of its brackets.
proof fn lemma_close_past(s: Seq<char>, open: char, i: int, k: int, depth: int)
    requires
        0 <= i <= k <= s.len(),
        forall|j: int| i <= j < k ==> #[trigger] s[j] != open && s[j] != closer(open),
    ensures
        close_at(s, open, i, depth) == close_at(s, open, k, depth),
    decreases k - i,
{
    if i < k {
        assert(s[i] != open && s[i] != closer(open));
        lemma_close_past(s, open, i + 1, k, depth);
    }
}

/// A search for the end of a group goes by what follows alone.
proof fn lemma_close_shift(p: Seq<char>, s: Seq<char>, open: char, i: int, depth: int)
    requires
        0 <= i <= s.len(),
    ensures
        close_at(p + s, open, p.len() + i, depth) == p.len() + close_at(s, open, i, depth),
    decreases s.len() - i,
{
    let all = p + s;
    if i < s.len() {
        assert(all[p.len() + i] == s[i]);
        if s[i] == open {
            lemma_close_shift(p, s, open, i + 1, depth + 1);
        } else if s[i] == closer(open) {
            if depth > 1 {
                lemma_close_shift(p, s, open, i + 1, depth - 1);
            }
        } else {
            lemma_close_shift(p, s, open, i + 1, depth);
        }
    }
}

/// The groups from a place on go by what follows alone.
proof fn lemma_groups_shift(p: Seq<char>, s: Seq<char>, i: int)
    requires
        0 <= i,
    ensures
        groups_from(p + s, p.len() + i) == groups_from(s, i),
    decreases s.len() + 1 - i,
{
    let all = p + s;
    let at = p.len() + i;
    if i < s.len() {
        assert(all[at] == s[i]);
        if is_marker(s[i]) {
            let end = close_at(s, s[i], i + 1, 1);
            lemma_close_at(s, s[i], i + 1, 1);
            lemma_close_shift(p, s, s[i], i + 1, 1);
            assert(all.subrange(at + 1, p.len() + end) =~= s.subrange(i + 1, end));
            lemma_groups_shift(p, s, end + 1);
        } else {
            lemma_groups_shift(p, s, i + 1);
        }
    }
}

/// Groups begin at the first marker.
proof fn lemma_groups_past(s: Seq<char>, i: int, k: int)
    requires
        0 <= i <= k <= s.len(),
        forall|j: int| i <= j < k ==> #[trigger] s[j] != '(' && s[j] != '[',
    ensures
        groups_from(s, i) == groups_from(s, k),
    decreases k - i,
{
    if i < k {
        assert(s[i] != '(' && s[i] != '[');
        lemma_groups_past(s, i + 1, k);
    }
}

/// Whether a text holds neither bracket of a kind.
pub open spec fn free_of(s: Seq<char>, open: char, close: char) -> bool {
    forall|i: int| 0 <= i < s.len() ==> #[trigger] s[i] != open && s[i] != close
}

/// The closing bracket that belongs to an opening one.
pub open spec fn are_brackets(open: char, close: char) -> bool {
    open == '(' && close == ')' || open == '[' && close == ']'
}

/// A group is what stands between its brackets. What stands between groups is skipped; a pair
/// of the same brackets inside a group belongs to the group; and a group that is not closed
/// goes on to the end.
pub proof fn groups_stand_between_brackets(
    a: Seq<char>,
    open: char,
    c: Seq<char>,
    inner: Seq<char>,
    d: Seq<char>,
    close: char,
    rest: Seq<char>,
)
    requires
        no_markers(a),
        are_brackets(open, close),
        free_of(c, open, close),
        free_of(inner, open, close),
        free_of(d, open, close),
    ensures
        groups_from(a, 0).len() == 0,
        groups_from(a.push(open) + c, 0) == seq![(open, close, c)],
        groups_from(a.push(open) + c.push(close) + rest, 0) == seq![(open, close, c)]
            + groups_from(rest, 0),
        groups_from(
            a.push(open) + (c.push(open) + inner.push(close) + d).push(close) + rest,
            0,
        ) == seq![(open, close, c.push(open) + inner.push(close) + d)] + groups_from(rest, 0),
{
    let n = a.len() as int;
    lemma_groups_past(a, 0, n);
    // A group that is not closed.
    let s1 = a.push(open) + c;
    assert forall|j: int| 0 <= j < n implies #[trigger] s1[j] != '(' && s1[j] != '[' by {
        assert(s1[j] == a[j]);
    }
    lemma_groups_past(s1, 0, n);
    assert(s1[n] == open);
    assert forall|j: int| n + 1 <= j < s1.len() implies #[trigger] s1[j] != open && s1[j]
        != closer(open) by {
        assert(s1[j] == c[j - n - 1]);
    }
    lemma_close_past(s1, open, n + 1, s1.len() as int, 1);
    assert(s1.subrange(n + 1, s1.len() as int) =~= c);
    assert(groups_from(s1, s1.len() as int + 1) =~= Seq::empty());
    assert(groups_from(s1, 0) =~= seq![(open, close, c)]);
    // A group that is closed.
    lemma_closed_group(a, open, c, close, rest);
    // A group with a pair of brackets inside.
    let body = c.push(open) + inner.push(close) + d;
    let s = a.push(open) + body.push(close) + rest;
    let k = c.len() as int;
    let m = inner.len() as int;
    let at = n + 1;
    assert forall|j: int| at <= j < at + k implies #[trigger] s[j] != open && s[j] != closer(
        open,
    ) by {
        assert(s[j] == c[j - at]);
    }
    lemma_close_past(s, open, at, at + k, 1);
    assert(s[at + k] == open);
    assert forall|j: int| at + k + 1 <= j < at + k + 1 + m implies #[trigger] s[j] != open && s[j]
        != closer(open) by {
        assert(s[j] == inner[j - at - k - 1]);
    }
    lemma_close_past(s, open, at + k + 1, at + k + 1 + m, 2);
    assert(s[at + k + 1 + m] == close);
    let e = at + k + m + 2;
    let end = e + d.len();
    assert forall|j: int| e <= j < end implies #[trigger] s[j] != open && s[j] != closer(open) by {
        assert(s[j] == d[j - e]);
    }
    lemma_close_past(s, open, e, end, 1);
    assert(s[end] == close);
    assert(close_at(s, open, at, 1) == end);
    lemma_group_then_rest(a, open, body, close, rest);
}

/// A closed group whose end is known, and the groups behind it.
proof fn lemma_group_then_rest(
    a: Seq<char>,
    open: char,
    body: Seq<char>,
    close: char,
    rest: Seq<char>,
)
    requires
        no_markers(a),
        are_brackets(open, close),
        close_at(a.push(open) + body.push(close) + rest, open, a.len() as int + 1, 1) == a.len() + 1
            + body.len(),
    ensures
        groups_from(a.push(open) + body.push(close) + rest, 0) == seq![(open, close, body)]
            + groups_from(rest, 0),
{
    let n = a.len() as int;
    let s = a.push(open) + body.push(close) + rest;
    let front = a.push(open) + body.push(close);
    assert forall|j: int| 0 <= j < n implies #[trigger] s[j] != '(' && s[j] != '[' by {
        assert(s[j] == a[j]);
    }
    lemma_groups_past(s, 0, n);
    assert(s[n] == open);
    let end = n + 1 + body.len();
    assert(s.subrange(n + 1, end) =~= body);
    lemma_groups_shift(front, rest, 0);
    assert(front.len() == end + 1);
}

/// A closed group without further brackets of its kind, and the groups behind it.
proof fn lemma_closed_group(
    a: Seq<char>,
    open: char,
    c: Seq<char>,
    close: char,
    rest: Seq<char>,
)
    requires
        no_markers(a),
        are_brackets(open, close),
        free_of(c, open, close),
    ensures
        groups_from(a.push(open) + c.push(close) + rest, 0) == seq![(open, close, c)]
            + groups_from(rest, 0),
{
    let n = a.len() as int;
    let k = c.len() as int;
    let s = a.push(open) + c.push(close) + rest;
    assert forall|j: int| n + 1 <= j < n + 1 + k implies #[trigger] s[j] != open && s[j] != closer(
        open,
    ) by {
        assert(s[j] == c[j - n - 1]);
    }
    lemma_close_past(s, open, n + 1, n + 1 + k, 1);
    assert(s[n + 1 + k] == close);
    lemma_group_then_rest(a, open, c, close, rest);
}

/// A group begins with a year exactly where it begins with four digits and no fifth, and the
/// year is the number that they are.
pub proof fn years_have_four_digits(c: Seq<char>)
    ensures
        year_of(c) is Some <==> {
            &&& c.len() >= 4
            &&& '0' <= c[0] <= '9' && '0' <= c[1] <= '9' && '0' <= c[2] <= '9' && '0' <= c[3] <= '9'
            &&& c.len() == 4 || !('0' <= c[4] <= '9')
        },
        year_of(c) matches Some(y) ==> y == 1000 * (c[0] as int - 0x30) + 100 * (c[1] as int - 0x30)
            + 10 * (c[2] as int - 0x30) + (c[3] as int - 0x30),
{
    lemma_digit_run(c);
    let k = digit_run(c) as int;
    if k >= 4 {
        assert(crate::text::is_digit(c.take(k)[0]));
        assert(crate::text::is_digit(c.take(k)[1]));
        assert(crate::text::is_digit(c.take(k)[2]));
        assert(crate::text::is_digit(c.take(k)[3]));
        if k >= 5 {
            assert(crate::text::is_digit(c.take(k)[4]));
        }
        let t = c.take(4);
        assert(t.drop_last() =~= c.take(3));
        assert(c.take(3).drop_last() =~= c.take(2));
        assert(c.take(2).drop_last() =~= c.take(1));
        assert(c.take(1).drop_last() =~= c.take(0));
        reveal_with_fuel(crate::text::number, 6);
        assert(crate::text::number(c.take(0)) == 0);
        assert(crate::text::number(c.take(1)) == c[0] as int - 0x30);
        assert(crate::text::number(c.take(2)) == 10 * (c[0] as int - 0x30) + (c[1] as int - 0x30));
        assert(crate::text::number(c.take(3)) == 100 * (c[0] as int - 0x30) + 10 * (c[1] as int
            - 0x30) + (c[2] as int - 0x30));
        assert(crate::text::number(t) == 1000 * (c[0] as int - 0x30) + 100 * (c[1] as int - 0x30)
            + 10 * (c[2] as int - 0x30) + (c[3] as int - 0x30));
    }
}

/// Digits have no white space around them.
proof fn lemma_digits_trimmed(s: Seq<char>)
    requires
        crate::text::all_digits(s),
    ensures
        crate::text::trim(s) == s,
        crate::text::lower(s) == s,
{
    if s.len() > 0 {
        assert(crate::text::is_digit(s[0]) && crate::text::is_digit(s[s.len() - 1]));
    }
    crate::text::trimming_is_exact(seq![], s, seq![]);
    assert(Seq::<char>::empty() + s + Seq::<char>::empty() =~= s);
    assert forall|i: int| 0 <= i < s.len() implies crate::text::lower(s)[i] == s[i] by {
        assert(crate::text::is_digit(s[i]));
    }
    assert(crate::text::lower(s) =~= s);
}

/// What stands around the first ` of ` between two numbers.
proof fn lemma_disk_parts(dn: Seq<char>, dm: Seq<char>)
    requires
        crate::text::all_digits(dn),
    ensures
        crate::text::find(dn + " of "@ + dm, " of "@) == Some(dn.len() as int),
        (dn + " of "@ + dm).take(dn.len() as int) == dn,
        (dn + " of "@ + dm).skip(dn.len() as int + 4) == dm,
        " of "@.len() == 4,
{
    reveal_strlit(" of ");
    let rest = dn + " of "@ + dm;
    let k = dn.len() as int;
    assert(rest.subrange(k, k + 4) =~= " of "@);
    assert(crate::text::stands_at(rest, " of "@, k));
    assert forall|j: int| 0 <= j < k implies !#[trigger] crate::text::stands_at(
        rest,
        " of "@,
        j,
    ) by {
        if crate::text::stands_at(rest, " of "@, j) {
            assert(rest.subrange(j, j + 4)[0] == ' ');
            assert(rest[j] == dn[j]);
            assert(crate::text::is_digit(dn[j]));
        }
    }
    crate::text::lemma_find_is(rest, " of "@, 0, k);
    assert(rest.take(k) =~= dn);
    assert(rest.skip(k + 4) =~= dm);
}

/// A disk in small letters and digits.
proof fn lemma_disk_lowered(w: Seq<char>, dn: Seq<char>, o: Seq<char>, dm: Seq<char>)
    requires
        crate::text::all_digits(dn),
        crate::text::all_digits(dm),
        crate::text::lower(w) == "disk "@,
        crate::text::lower(o) == " of "@,
    ensures
        crate::text::lower(w + dn + o + dm) == "disk "@ + (dn + " of "@ + dm),
{
    crate::text::lowering_is_charwise(w, dn);
    crate::text::lowering_is_charwise(w + dn, o);
    crate::text::lowering_is_charwise(w + dn + o, dm);
    lemma_digits_trimmed(dn);
    lemma_digits_trimmed(dm);
    assert("disk "@ + dn + " of "@ + dm =~= "disk "@ + (dn + " of "@ + dm));
}

/// `Disk n of m`, in any case, gives disk `n` of `m`, and nothing gives a disk that does not
/// begin with `disk ` in some case.
pub proof fn disks_are_counted(w: Seq<char>, o: Seq<char>, n: u32, m: u32, s: Seq<char>)
    requires
        crate::text::lower(w) == "disk "@,
        crate::text::lower(o) == " of "@,
    ensures
        disk_of(w + crate::text::decimal(n as nat) + o + crate::text::decimal(m as nat)) == Some(
            (n, m),
        ),
        disk_of(s) is Some ==> exists|rest: Seq<char>|
            crate::text::lower(s) == #[trigger] ("disk "@ + rest),
{
    let dn = crate::text::decimal(n as nat);
    let dm = crate::text::decimal(m as nat);
    crate::text::lemma_decimal(n as nat);
    crate::text::lemma_decimal(m as nat);
    assert(crate::text::as_u32(dn) == Some(n)) by {
        crate::text::numbers_read_back(dn, '0', n);
    }
    assert(crate::text::as_u32(dm) == Some(m)) by {
        crate::text::numbers_read_back(dm, '0', m);
    }
    lemma_disk_lowered(w, dn, o, dm);
    lemma_disk_parts(dn, dm);
    lemma_digits_trimmed(dn);
    lemma_digits_trimmed(dm);
    let rest = dn + " of "@ + dm;
    let l = "disk "@ + rest;
    assert("disk "@.len() == 5) by {
        reveal_strlit("disk ");
    }
    assert(l.subrange(0, 5) =~= "disk "@);
    assert(l.skip(5) =~= rest);
    crate::text::beginnings_and_ends(crate::text::lower(s), "disk "@);
}

/// The language codes.
pub open spec fn language_codes() -> Seq<Seq<char>> {
    seq![
        "en"@,
        "de"@,
        "fr"@,
        "es"@,
        "it"@,
        "nl"@,
        "se"@,
        "da"@,
        "pl"@,
        "cs"@,
        "pt"@,
        "fi"@,
        "no"@,
        "gr"@,
        "hu"@,
        "ru"@,
        "us"@,
        "uk"@,
        "au"@,
        "jp"@,
        "mul"@,
    ]
}

/// A language is one of the codes, in any case. A qualifier is `demo`, something that begins
/// with `demo-`, or `preview`, in any case.
pub proof fn languages_and_qualifiers(t: Seq<char>)
    ensures
        is_lang(t) <==> language_codes().contains(crate::text::lower(t)),
        is_lang(t) == is_lang(crate::text::lower(t)),
        is_qualifier(t) <==> crate::text::lower(t) == "demo"@ || crate::text::lower(t)
            == "preview"@ || exists|rest: Seq<char>|
            crate::text::lower(t) == #[trigger] ("demo-"@ + rest),
        is_qualifier(t) == is_qualifier(crate::text::lower(t)),
{
    let l = crate::text::lower(t);
    let c = language_codes();
    crate::text::lowering_is_charwise(t, t);
    crate::text::beginnings_and_ends(l, "demo-"@);
    assert(c[0] == "en"@ && c[1] == "de"@ && c[2] == "fr"@ && c[3] == "es"@ && c[4] == "it"@ && c[5]
        == "nl"@ && c[6] == "se"@ && c[7] == "da"@ && c[8] == "pl"@ && c[9] == "cs"@ && c[10]
        == "pt"@ && c[11] == "fi"@ && c[12] == "no"@ && c[13] == "gr"@ && c[14] == "hu"@ && c[15]
        == "ru"@ && c[16] == "us"@ && c[17] == "uk"@ && c[18] == "au"@ && c[19] == "jp"@ && c[20]
        == "mul"@);
    assert(c.len() == 21);
}

/// An extension of up to four letters and digits is no part of a name's stem; a name without a
/// dot is its own stem, and so is one whose last dot is followed by anything else.
pub proof fn short_extensions_are_dropped(st: Seq<char>, ext: Seq<char>)
    requires
        !ext.contains('.'),
    ensures
        !st.contains('.') ==> stem_of(st) == st,
        ext.len() <= 4 && crate::text::all_alnum(ext) ==> stem_of(st.push('.') + ext) == st,
        !(ext.len() <= 4 && crate::text::all_alnum(ext)) ==> stem_of(st.push('.') + ext) == st.push(
            '.',
        ) + ext,
{
    let s = st.push('.') + ext;
    crate::text::finding_a_character(st, '.', ext);
    assert(s.skip(st.len() + 1int) =~= ext);
    assert(s.take(st.len() as int) =~= st);
}

/// The letters and digits of a text.
pub open spec fn letters(s: Seq<char>) -> Seq<char> {
    s.filter(|c: char| crate::text::is_alnum(c))
}

/// The letters and digits of two texts together.
proof fn lemma_letters_add(a: Seq<char>, b: Seq<char>)
    ensures
        letters(a + b) == letters(a) + letters(b),
{
    Seq::filter_distributes_over_add(a, b, |c: char| crate::text::is_alnum(c));
}

/// One character is a letter or digit, or adds none.
proof fn lemma_letters_one(s: Seq<char>, c: char)
    ensures
        letters(seq![c]) == if crate::text::is_alnum(c) {
            seq![c]
        } else {
            Seq::empty()
        },
        letters(s.push(c)) == letters(s) + letters(seq![c]),
{
    reveal(Seq::filter);
    let one = seq![c];
    let p = |x: char| crate::text::is_alnum(x);
    assert(one.drop_last() =~= Seq::<char>::empty());
    assert(one.drop_last().filter(p) =~= Seq::<char>::empty());
    assert(one.filter(p) =~= if p(c) { seq![c] } else { Seq::empty() });
    assert(s.push(c) =~= s + one);
    lemma_letters_add(s, one);
}

/// Collapsing dashes takes no letter or digit away.
proof fn lemma_collapse_letters(s: Seq<char>)
    ensures
        letters(collapse(s)) == letters(s),
    decreases s.len(),
{
    if s.len() > 0 {
        let init = s.drop_last();
        lemma_collapse_letters(init);
        assert(init.push(s.last()) =~= s);
        lemma_letters_one(init, s.last());
        lemma_letters_one(collapse(init), s.last());
        assert(letters(init) + Seq::<char>::empty() =~= letters(init));
    }
}

/// Stripping dashes takes no letter or digit away.
proof fn lemma_strip_letters(s: Seq<char>)
    ensures
        letters(strip_front(s, '-')) == letters(s),
        letters(strip_back(s, '-')) == letters(s),
    decreases s.len(),
{
    if s.len() > 0 {
        if s[0] == '-' {
            lemma_strip_letters(s.skip(1));
            assert(s =~= seq!['-'] + s.skip(1));
            lemma_letters_one(s, '-');
            lemma_letters_add(seq!['-'], s.skip(1));
            assert(Seq::<char>::empty() + letters(s.skip(1)) =~= letters(s.skip(1)));
        }
        if s.last() == '-' {
            lemma_strip_letters(s.drop_last());
            assert(s.drop_last().push('-') =~= s);
            lemma_letters_one(s.drop_last(), '-');
            assert(letters(s.drop_last()) + Seq::<char>::empty() =~= letters(s.drop_last()));
        }
    }
}

/// A sanitized title keeps the letters and digits of its title, in order, where the title is
/// ASCII and holds no ampersand.
pub proof fn sanitizing_keeps_letters_and_digits(title: Seq<char>)
    requires
        forall|i: int|
            0 <= i < title.len() ==> (#[trigger] title[i]) as int <= 0x7f && title[i] != '&',
    ensures
        letters(sanitized(title)) == letters(title),
{
    lemma_kebab_letters(title);
    lemma_collapse_letters(kebab_chars(title));
    let c = collapse(kebab_chars(title));
    lemma_strip_letters(c);
    lemma_strip_letters(strip_front(c, '-'));
}

/// What ASCII characters become keeps their letters and digits.
proof fn lemma_kebab_letters(s: Seq<char>)
    requires
        forall|i: int| 0 <= i < s.len() ==> (#[trigger] s[i]) as int <= 0x7f && s[i] != '&',
    ensures
        letters(kebab_chars(s)) == letters(s),
    decreases s.len(),
{
    if s.len() > 0 {
        let init = s.drop_last();
        let c = s.last();
        assert(s[s.len() - 1] == c);
        assert forall|i: int| 0 <= i < init.len() implies (#[trigger] init[i]) as int <= 0x7f
            && init[i] != '&' by {
            assert(init[i] == s[i]);
        }
        lemma_kebab_letters(init);
        assert(init.push(c) =~= s);
        lemma_letters_one(init, c);
        lemma_letters_add(kebab_chars(init), kebab_char(c));
        lemma_letters_one(init, '-');
        reveal(Seq::filter);
        assert(letters(Seq::<char>::empty()) =~= Seq::<char>::empty());
        assert(letters(kebab_char(c)) =~= letters(seq![c]));
    }
}

/// An ampersand between a word and a title is spelled out between dashes; a space, an
/// underscore or a dash becomes one dash.
pub proof fn separators_become_dashes(word: Seq<char>, c: char, title: Seq<char>)
    requires
        is_kebab(word),
        word.len() > 0,
        sanitized(title).len() > 0,
        c == ' ' || c == '_' || c == '-' || c == '&',
    ensures
        c != '&' ==> sanitized(word.push(c) + title) == word.push('-') + sanitized(title),
        c == '&' ==> sanitized(word.push(c) + title) == word + "-and-"@ + sanitized(title),
{
    reveal_strlit("-and-");
    assert("-and-"@ =~= seq!['-', 'a', 'n', 'd', '-']);
    let p = word + kebab_char(c);
    let x = kebab_chars(title);
    lemma_kebab_chars_add(word.push(c), title);
    assert(word.push(c).drop_last() =~= word);
    lemma_kebab_chars_fixed(word);
    assert(kebab_chars(word.push(c)) =~= p);
    if c != '&' {
        assert(p =~= word.push('-'));
    }
    assert(single_dashes(p)) by {
        assert forall|i: int| 0 < i < p.len() implies !(p[i - 1] == '-' && #[trigger] p[i] == '-') by {
            if i < word.len() {
                assert(p[i] == word[i] && p[i - 1] == word[i - 1]);
            } else if i == word.len() {
                assert(p[i - 1] == word.last());
            } else {
                assert(p[i] == kebab_char(c)[i - word.len()]);
                assert(p[i - 1] == kebab_char(c)[i - 1 - word.len()]);
            }
        }
    }
    lemma_collapse_behind_dash(p, x);
    let f = strip_front(collapse(x), '-');
    assert((p + f)[0] == word[0]);
    lemma_strip_back_add(p, f, '-');
}

/// Accented letters are spelled without their accents wherever they stand: umlauts and the
/// sharp s as two letters, others as the bare letter.
pub proof fn accents_are_spelled_out(s: Seq<char>)
    ensures
        kebab_chars(s.push('ä')) == kebab_chars(s) + seq!['a', 'e'],
        kebab_chars(s.push('Ä')) == kebab_chars(s) + seq!['A', 'e'],
        kebab_chars(s.push('ö')) == kebab_chars(s) + seq!['o', 'e'],
        kebab_chars(s.push('Ö')) == kebab_chars(s) + seq!['O', 'e'],
        kebab_chars(s.push('ü')) == kebab_chars(s) + seq!['u', 'e'],
        kebab_chars(s.push('Ü')) == kebab_chars(s) + seq!['U', 'e'],
        kebab_chars(s.push('ß')) == kebab_chars(s) + seq!['s', 's'],
        kebab_chars(s.push('é')) == kebab_chars(s).push('e'),
        kebab_chars(s.push('è')) == kebab_chars(s).push('e'),
        kebab_chars(s.push('ê')) == kebab_chars(s).push('e'),
        kebab_chars(s.push('É')) == kebab_chars(s).push('E'),
        kebab_chars(s.push('È')) == kebab_chars(s).push('E'),
        kebab_chars(s.push('Ê')) == kebab_chars(s).push('E'),
        kebab_chars(s.push('á')) == kebab_chars(s).push('a'),
        kebab_chars(s.push('à')) == kebab_chars(s).push('a'),
        kebab_chars(s.push('â')) == kebab_chars(s).push('a'),
        kebab_chars(s.push('Á')) == kebab_chars(s).push('A'),
        kebab_chars(s.push('À')) == kebab_chars(s).push('A'),
        kebab_chars(s.push('Â')) == kebab_chars(s).push('A'),
        kebab_chars(s.push('ó')) == kebab_chars(s).push('o'),
        kebab_chars(s.push('ò')) == kebab_chars(s).push('o'),
        kebab_chars(s.push('ô')) == kebab_chars(s).push('o'),
        kebab_chars(s.push('Ó')) == kebab_chars(s).push('O'),
        kebab_chars(s.push('Ò')) == kebab_chars(s).push('O'),
        kebab_chars(s.push('Ô')) == kebab_chars(s).push('O'),
        kebab_chars(s.push('í')) == kebab_chars(s).push('i'),
        kebab_chars(s.push('ì')) == kebab_chars(s).push('i'),
        kebab_chars(s.push('î')) == kebab_chars(s).push('i'),
        kebab_chars(s.push('ú')) == kebab_chars(s).push('u'),
        kebab_chars(s.push('ù')) == kebab_chars(s).push('u'),
        kebab_chars(s.push('û')) == kebab_chars(s).push('u'),
        kebab_chars(s.push('ñ')) == kebab_chars(s).push('n'),
        kebab_chars(s.push('Ñ')) == kebab_chars(s).push('N'),
{
    assert forall|c: char| #[trigger] kebab_chars(s.push(c)) == kebab_chars(s) + kebab_char(c) by {
        assert(s.push(c).drop_last() =~= s);
    }
}

/// A version is written with one small `v` in front, whichever way it came.
pub proof fn versions_start_with_a_small_v(v: Seq<char>, x: Seq<char>)
    ensures
        crate::text::trim(v) == seq!['v'] + x ==> normal_version(v) == seq!['v'] + x,
        crate::text::trim(v) == seq!['V'] + x ==> normal_version(v) == seq!['v'] + x,
        crate::text::trim(v) == x && (x.len() == 0 || x[0] != 'v' && x[0] != 'V')
            ==> normal_version(v) == seq!['v'] + x,
{
    assert((seq!['v'] + x).skip(1) =~= x);
    assert((seq!['V'] + x).skip(1) =~= x);
}

/// A canonical name is the sanitized title, then, each after an underscore, the version, the
/// language in small letters, the disk as `dNNofMM` and the UID, of which those that are
/// absent leave nothing behind, and `.adf`.
pub proof fn canonical_names_list_their_fields(
    title: Seq<char>,
    version: Seq<char>,
    language: Seq<char>,
    n: u32,
    m: u32,
    uid: Seq<char>,
)
    ensures
        canonical_text(title, None, None, None, uid) == sanitized(title) + "_"@ + uid + ".adf"@,
        canonical_text(title, Some(version), None, None, uid) == sanitized(title) + "_"@
            + normal_version(version) + "_"@ + uid + ".adf"@,
        canonical_text(title, None, Some(language), None, uid) == sanitized(title) + "_"@
            + crate::text::lower(language) + "_"@ + uid + ".adf"@,
        canonical_text(title, None, None, Some((n, m)), uid) == sanitized(title) + "_d"@
            + crate::text::two_digits(n as nat) + "of"@ + crate::text::two_digits(m as nat) + "_"@
            + uid + ".adf"@,
        canonical_text(title, Some(version), Some(language), Some((n, m)), uid) == sanitized(title)
            + "_"@ + normal_version(version) + "_"@ + crate::text::lower(language) + "_d"@
            + crate::text::two_digits(n as nat) + "of"@ + crate::text::two_digits(m as nat) + "_"@
            + uid + ".adf"@,
{
    reveal_strlit("_");
    reveal_strlit("_d");
    reveal_strlit("of");
    reveal_strlit(".adf");
    assert("_"@ =~= seq!['_']);
    assert("_d"@ =~= seq!['_', 'd']);
    assert("of"@ =~= seq!['o', 'f']);
    assert(".adf"@ =~= adf_suffix());
    let t = sanitized(title);
    let a = crate::text::two_digits(n as nat);
    let b = crate::text::two_digits(m as nat);
    assert(canonical_text(title, None, None, None, uid) =~= t + "_"@ + uid + ".adf"@);
    assert(canonical_text(title, Some(version), None, None, uid) =~= t + "_"@ + normal_version(
        version,
    ) + "_"@ + uid + ".adf"@);
    assert(canonical_text(title, None, Some(language), None, uid) =~= t + "_"@ + crate::text::lower(
        language,
    ) + "_"@ + uid + ".adf"@);
    assert(canonical_text(title, None, None, Some((n, m)), uid) =~= t + "_d"@ + a + "of"@ + b + "_"@
        + uid + ".adf"@);
    assert(canonical_text(title, Some(version), Some(language), Some((n, m)), uid) =~= t + "_"@
        + normal_version(version) + "_"@ + crate::text::lower(language) + "_d"@ + a + "of"@ + b
        + "_"@ + uid + ".adf"@);
}

/// A field is taken for a UID where it is at least ten hex digits, for a language where it is
/// two small letters or `mul`, and for a version where it begins with a `v` of either case and
/// a digit.
pub proof fn field_shapes(p: Seq<char>)
    ensures
        is_uid(p) <==> p.len() >= 10 && crate::text::all_hex(p),
        is_language_field(p) <==> p.len() == 2 && 'a' <= p[0] <= 'z' && 'a' <= p[1] <= 'z' || p
            == "mul"@,
        is_version(p) <==> p.len() >= 2 && (p[0] == 'v' || p[0] == 'V') && '0' <= p[1] <= '9',
{
    reveal_strlit("mul");
    assert("mul"@ =~= seq!['m', 'u', 'l']);
    if p.len() == 2 && crate::text::all_lower(p) {
        assert(crate::text::is_lower(p[0]) && crate::text::is_lower(p[1]));
    }
}

/// A canonical name reads exactly where one of its fields behind the first is a UID and is of
/// no other shape, and the last such is its UID; its title is its first field.
pub proof fn canonical_names_need_a_uid(filename: Seq<char>)
    ensures
        ({
            let parts = crate::text::split_char(canonical_stem(filename), '_');
            match canonical_fields(filename) {
                Some(f) => f.title == parts[0] && exists|k: int|
                    1 <= k < parts.len() && #[trigger] parts[k] == f.uid && names_uid(parts[k])
                        && forall|j: int| k < j < parts.len() ==> !names_uid(#[trigger] parts[j]),
                None => forall|k: int| 1 <= k < parts.len() ==> !names_uid(#[trigger] parts[k]),
            }
        }),
{
    let parts = crate::text::split_char(canonical_stem(filename), '_');
    lemma_split_nonempty(canonical_stem(filename), '_');
    let ps = parts.skip(1);
    lemma_last_uid(ps);
    let f = add_fields(no_shapes(), ps);
    match f.uid {
        None => {
            assert forall|k: int| 1 <= k < parts.len() implies !names_uid(#[trigger] parts[k]) by {
                assert(ps[k - 1] == parts[k]);
            }
        },
        Some(uid) => {
            let k = choose|k: int|
                0 <= k < ps.len() && #[trigger] ps[k] == uid && names_uid(ps[k]) && forall|j: int|
                    k < j < ps.len() ==> !names_uid(#[trigger] ps[j]);
            assert(parts[k + 1] == uid);
            assert forall|j: int| k + 1 < j < parts.len() implies !names_uid(#[trigger] parts[j]) by {
                assert(ps[j - 1] == parts[j]);
            }
        },
    }
}

/// Whether a field is a UID and is of no other shape.
pub open spec fn names_uid(p: Seq<char>) -> bool {
    is_uid(p) && !is_version(p) && disk_field_of(p) is None && !is_language_field(p)
}

/// The last UID among fields counts.
proof fn lemma_last_uid(ps: Seq<Seq<char>>)
    ensures
        match add_fields(no_shapes(), ps).uid {
            Some(uid) => exists|k: int|
                0 <= k < ps.len() && #[trigger] ps[k] == uid && names_uid(ps[k]) && forall|j: int|
                    k < j < ps.len() ==> !names_uid(#[trigger] ps[j]),
            None => forall|k: int| 0 <= k < ps.len() ==> !names_uid(#[trigger] ps[k]),
        },
    decreases ps.len(),
{
    if ps.len() > 0 {
        let init = ps.drop_last();
        let n = init.len() as int;
        lemma_last_uid(init);
        assert(forall|j: int| 0 <= j < n ==> #[trigger] ps[j] == init[j]);
        assert(ps[n] == ps.last());
        if !names_uid(ps.last()) {
            match add_fields(no_shapes(), init).uid {
                Some(uid) => {
                    let k = choose|k: int|
                        0 <= k < init.len() && #[trigger] init[k] == uid && names_uid(init[k])
                            && forall|j: int| k < j < init.len() ==> !names_uid(#[trigger] init[j]);
                    assert(ps[k] == uid);
                    assert forall|j: int| k < j < ps.len() implies !names_uid(#[trigger] ps[j]) by {
                        if j < n {
                            assert(init[j] == ps[j]);
                        }
                    }
                },
                None => {
                    assert forall|k: int| 0 <= k < ps.len() implies !names_uid(#[trigger] ps[k]) by {
                        if k < n {
                            assert(init[k] == ps[k]);
                        }
                    }
                },
            }
        }
    }
}

/// A number of up to eight digits in a version sorts by its value: any such number is short
/// enough for the key, wherever it stands.
pub proof fn eight_digits_are_short(digits: Seq<char>, rest: Seq<char>, c: char)
    requires
        0 < digits.len() <= 8,
        crate::text::all_digits(digits),
        rest.len() > 0 ==> !crate::text::is_digit(rest[0]),
        short_numbers(rest),
        !crate::text::is_digit(c),
    ensures
        short_numbers(Seq::empty()),
        short_numbers(digits + rest),
        short_numbers(seq![c] + rest),
{
    lemma_run_is(digits, rest);
    assert((digits + rest)[0] == digits[0]);
    assert(crate::text::is_digit(digits[0]));
    assert((digits + rest).skip(digits.len() as int) =~= rest);
    assert((seq![c] + rest).skip(1) =~= rest);
}

/// Whether a field gives the disk: it is no version and reads `dNofM`.
pub open spec fn names_disk(p: Seq<char>) -> bool {
    !is_version(p) && disk_field_of(p) is Some
}

/// Whether a field gives the language: it is no version and no disk, and has the shape of a
/// language.
pub open spec fn names_language(p: Seq<char>) -> bool {
    !is_version(p) && disk_field_of(p) is None && is_language_field(p)
}

/// Whether the last field of a kind is the one at `k`, or none is where `k` is below zero.
pub open spec fn is_last_field(
    kind: spec_fn(Seq<char>) -> bool,
    ps: Seq<Seq<char>>,
    k: int,
) -> bool {
    &&& -1 <= k < ps.len()
    &&& k >= 0 ==> kind(ps[k])
    &&& forall|j: int| k < j < ps.len() ==> !kind(#[trigger] ps[j])
}

/// There is a last field of a kind, or none of the kind.
proof fn lemma_last_field_exists(kind: spec_fn(Seq<char>) -> bool, ps: Seq<Seq<char>>) -> (k: int)
    ensures
        is_last_field(kind, ps, k),
    decreases ps.len(),
{
    if ps.len() == 0 {
        -1
    } else if kind(ps.last()) {
        ps.len() - 1
    } else {
        let init = ps.drop_last();
        let k = lemma_last_field_exists(kind, init);
        assert forall|j: int| k < j < ps.len() implies !kind(#[trigger] ps[j]) by {
            if j < init.len() {
                assert(init[j] == ps[j]);
            }
        }
        if k >= 0 {
            assert(init[k] == ps[k]);
        }
        k
    }
}

/// The last field of a kind stays so without the field at the end, where that is of another
/// kind.
proof fn lemma_last_field_init(kind: spec_fn(Seq<char>) -> bool, ps: Seq<Seq<char>>, k: int)
    requires
        is_last_field(kind, ps, k),
        ps.len() > 0,
    ensures
        k < ps.len() - 1 ==> !kind(ps.last()) && is_last_field(kind, ps.drop_last(), k),
        k == ps.len() - 1 ==> kind(ps.last()),
{
    let init = ps.drop_last();
    if k < ps.len() - 1 {
        assert(!kind(ps[ps.len() - 1]));
        assert forall|j: int| k < j < init.len() implies !kind(#[trigger] init[j]) by {
            assert(init[j] == ps[j]);
        }
        if k >= 0 {
            assert(init[k] == ps[k]);
        }
    }
}

/// Version, disk and language of a canonical name are each what its last field of that shape
/// gives; a name without a field of a shape has nothing there.
pub proof fn last_field_of_a_shape_counts(ps: Seq<Seq<char>>, v: int, d: int, l: int)
    requires
        is_last_field(|p: Seq<char>| is_version(p), ps, v),
        is_last_field(|p: Seq<char>| names_disk(p), ps, d),
        is_last_field(|p: Seq<char>| names_language(p), ps, l),
    ensures
        ({
            let f = add_fields(no_shapes(), ps);
            &&& v < 0 ==> f.version is None
            &&& v >= 0 ==> f.version == Some(normal_version(ps[v]))
            &&& d < 0 ==> f.disk is None
            &&& d >= 0 ==> f.disk == disk_field_of(ps[d])
            &&& l < 0 ==> f.language is None
            &&& l >= 0 ==> f.language == Some(ps[l])
        }),
    decreases ps.len(),
{
    if ps.len() > 0 {
        let init = ps.drop_last();
        let n = init.len() as int;
        let kv = |p: Seq<char>| is_version(p);
        let kd = |p: Seq<char>| names_disk(p);
        let kl = |p: Seq<char>| names_language(p);
        lemma_last_field_init(kv, ps, v);
        lemma_last_field_init(kd, ps, d);
        lemma_last_field_init(kl, ps, l);
        let v2 = lemma_last_field_exists(kv, init);
        let d2 = lemma_last_field_exists(kd, init);
        let l2 = lemma_last_field_exists(kl, init);
        let v3 = if v == n { v2 } else { v };
        let d3 = if d == n { d2 } else { d };
        let l3 = if l == n { l2 } else { l };
        last_field_of_a_shape_counts(init, v3, d3, l3);
        assert(forall|j: int| 0 <= j < n ==> #[trigger] ps[j] == init[j]);
    }
}

/// A canonical name has the version, disk, language and UID of its fields behind the first, each
/// field being what stands between underscores once `.adf` is taken off.
pub proof fn canonical_names_read_their_fields(filename: Seq<char>)
    ensures
        canonical_fields(filename) matches Some(c) ==> {
            let parts = crate::text::split_char(
                crate::text::strip_suffix(filename, ".adf"@),
                '_',
            );
            let f = add_fields(no_shapes(), parts.skip(1));
            c.title == parts[0] && c.version == f.version && c.language == f.language && c.disk
                == f.disk && Some(c.uid) == f.uid
        },
{
    reveal_strlit(".adf");
    assert(".adf"@ =~= adf_suffix());
}

} // verus!
