//! Text as sequences of characters.
//!
//! The vault reads file names, scene tags and XML. Every rule about them is
//! stated over `Seq<char>`, the view of `str` and `String`; the functions here
//! are the executable side of those statements.

use vstd::prelude::*;

verus! {

// --- Strings and character vectors ----------------------------------------

/// `String::push` of the standard library: it appends one character.
pub assume_specification[ String::push ](s: &mut String, c: char)
    ensures
        final(s)@ == old(s)@.push(c),
;

/// The view of an optional string.
pub open spec fn opt_view(o: Option<String>) -> Option<Seq<char>> {
    match o {
        Some(s) => Some(s@),
        None => None,
    }
}

/// The view of an optional string slice.
pub open spec fn opt_str_view(o: Option<&str>) -> Option<Seq<char>> {
    match o {
        Some(s) => Some(s@),
        None => None,
    }
}

/// The views of a sequence of strings.
pub open spec fn views(s: Seq<String>) -> Seq<Seq<char>> {
    s.map_values(|t: String| t@)
}

/// The characters of a string.
pub fn chars_of(s: &str) -> (r: Vec<char>)
    ensures
        r@ == s@,
{
    let mut r: Vec<char> = Vec::new();
    for c in it: s.chars()
        invariant
            it.seq() == s@,
            r@ == s@.take(it.index() as int),
    {
        r.push(c);
    }
    r
}

/// The string made of the characters `c[from..to]`.
pub fn substring(c: &[char], from: usize, to: usize) -> (r: String)
    requires
        from <= to <= c@.len(),
    ensures
        r@ == c@.subrange(from as int, to as int),
{
    let mut r = String::new();
    let mut i: usize = from;
    while i < to
        invariant
            from <= i <= to <= c@.len(),
            r@ == c@.subrange(from as int, i as int),
        decreases to - i,
    {
        r.push(c[i]);
        i += 1;
    }
    r
}

/// The string made of the given characters.
pub fn string_of(c: &[char]) -> (r: String)
    ensures
        r@ == c@,
{
    let r = substring(c, 0, c.len());
    assert(c@.subrange(0, c@.len() as int) =~= c@);
    r
}

/// The characters `c[from..to]` as a vector of their own.
pub fn slice_of(c: &[char], from: usize, to: usize) -> (r: Vec<char>)
    requires
        from <= to <= c@.len(),
    ensures
        r@ == c@.subrange(from as int, to as int),
{
    let mut r: Vec<char> = Vec::new();
    let mut i: usize = from;
    while i < to
        invariant
            from <= i <= to <= c@.len(),
            r@ == c@.subrange(from as int, i as int),
        decreases to - i,
    {
        r.push(c[i]);
        i += 1;
    }
    r
}

/// An owned copy of a string slice.
pub fn owned(s: &str) -> (r: String)
    ensures
        r@ == s@,
{
    s.to_owned()
}

/// Whether two character sequences are the same.
pub fn same_chars(a: &[char], b: &[char]) -> (r: bool)
    ensures
        r == (a@ == b@),
{
    if a.len() != b.len() {
        return false;
    }
    let mut i: usize = 0;
    while i < a.len()
        invariant
            i <= a@.len() == b@.len(),
            a@.take(i as int) == b@.take(i as int),
        decreases a@.len() - i,
    {
        if a[i] != b[i] {
            return false;
        }
        assert(a@.take(i + 1) =~= a@.take(i as int).push(a@[i as int]));
        assert(b@.take(i + 1) =~= b@.take(i as int).push(b@[i as int]));
        i += 1;
    }
    assert(a@.take(i as int) =~= a@);
    assert(b@.take(i as int) =~= b@);
    true
}

/// Whether a character sequence spells `lit`.
pub fn is_text(a: &[char], lit: &str) -> (r: bool)
    ensures
        r == (a@ == lit@),
{
    let b = chars_of(lit);
    same_chars(a, &b)
}

/// Whether two strings are the same.
pub fn same(a: &str, b: &str) -> (r: bool)
    ensures
        r == (a@ == b@),
{
    let ca = chars_of(a);
    let cb = chars_of(b);
    same_chars(&ca, &cb)
}

// --- Character classes ------------------------------------------------------

/// The `White_Space` property of the Unicode character database.
pub open spec fn is_space(c: char) -> bool {
    ||| '\u{9}' <= c <= '\u{d}'
    ||| c == ' '
    ||| c == '\u{85}'
    ||| c == '\u{a0}'
    ||| c == '\u{1680}'
    ||| '\u{2000}' <= c <= '\u{200a}'
    ||| c == '\u{2028}'
    ||| c == '\u{2029}'
    ||| c == '\u{202f}'
    ||| c == '\u{205f}'
    ||| c == '\u{3000}'
}

/// Whether `c` is white space.
pub fn space(c: char) -> (r: bool)
    ensures
        r == is_space(c),
{
    ('\u{9}' <= c && c <= '\u{d}') || c == ' ' || c == '\u{85}' || c == '\u{a0}' || c == '\u{1680}'
        || ('\u{2000}' <= c && c <= '\u{200a}') || c == '\u{2028}' || c == '\u{2029}'
        || c == '\u{202f}' || c == '\u{205f}' || c == '\u{3000}'
}

/// An ASCII decimal digit.
pub open spec fn is_digit(c: char) -> bool {
    '0' <= c <= '9'
}

/// An ASCII lowercase letter.
pub open spec fn is_lower(c: char) -> bool {
    'a' <= c <= 'z'
}

/// An ASCII uppercase letter.
pub open spec fn is_upper(c: char) -> bool {
    'A' <= c <= 'Z'
}

/// An ASCII letter or digit.
pub open spec fn is_alnum(c: char) -> bool {
    is_digit(c) || is_lower(c) || is_upper(c)
}

/// An ASCII hexadecimal digit, in either case.
pub open spec fn is_hex(c: char) -> bool {
    is_digit(c) || 'a' <= c <= 'f' || 'A' <= c <= 'F'
}

/// Whether `c` is a decimal digit.
pub fn digit(c: char) -> (r: bool)
    ensures
        r == is_digit(c),
{
    '0' <= c && c <= '9'
}

/// Whether `c` is an ASCII letter or digit.
pub fn alnum(c: char) -> (r: bool)
    ensures
        r == is_alnum(c),
{
    ('0' <= c && c <= '9') || ('a' <= c && c <= 'z') || ('A' <= c && c <= 'Z')
}

/// Whether `c` is a hexadecimal digit.
pub fn hex_digit(c: char) -> (r: bool)
    ensures
        r == is_hex(c),
{
    ('0' <= c && c <= '9') || ('a' <= c && c <= 'f') || ('A' <= c && c <= 'F')
}

/// The lowercase form of an ASCII letter; every other character is itself.
pub open spec fn lower_char(c: char) -> char {
    if is_upper(c) {
        (c as u8 + 32) as char
    } else {
        c
    }
}

/// ASCII lowercase, character by character.
pub open spec fn lower(s: Seq<char>) -> Seq<char> {
    s.map_values(|c: char| lower_char(c))
}

/// The lowercase form of `c`.
pub fn to_lower_char(c: char) -> (r: char)
    ensures
        r == lower_char(c),
{
    if 'A' <= c && c <= 'Z' {
        (c as u8 + 32) as char
    } else {
        c
    }
}

/// ASCII lowercase of a character sequence.
pub fn lowered(c: &[char]) -> (r: Vec<char>)
    ensures
        r@ == lower(c@),
{
    let mut r: Vec<char> = Vec::new();
    let mut i: usize = 0;
    while i < c.len()
        invariant
            i <= c@.len(),
            r@ == lower(c@).take(i as int),
        decreases c@.len() - i,
    {
        r.push(to_lower_char(c[i]));
        i += 1;
    }
    assert(lower(c@).take(i as int) =~= lower(c@));
    r
}

/// ASCII lowercase of a string.
pub fn lower_string(s: &str) -> (r: String)
    ensures
        r@ == lower(s@),
{
    let c = chars_of(s);
    let l = lowered(&c);
    string_of(&l)
}

/// Every character of `s` is an ASCII digit.
pub open spec fn all_digits(s: Seq<char>) -> bool {
    forall|i: int| 0 <= i < s.len() ==> is_digit(#[trigger] s[i])
}

/// Every character of `s` is an ASCII letter or digit.
pub open spec fn all_alnum(s: Seq<char>) -> bool {
    forall|i: int| 0 <= i < s.len() ==> is_alnum(#[trigger] s[i])
}

/// Every character of `s` is a hexadecimal digit.
pub open spec fn all_hex(s: Seq<char>) -> bool {
    forall|i: int| 0 <= i < s.len() ==> is_hex(#[trigger] s[i])
}

/// Every character of `s` is an ASCII lowercase letter.
pub open spec fn all_lower(s: Seq<char>) -> bool {
    forall|i: int| 0 <= i < s.len() ==> is_lower(#[trigger] s[i])
}

/// Whether every character is an ASCII letter or digit.
pub fn only_alnum(c: &[char]) -> (r: bool)
    ensures
        r == all_alnum(c@),
{
    let mut i: usize = 0;
    while i < c.len()
        invariant
            i <= c@.len(),
            forall|k: int| 0 <= k < i ==> is_alnum(#[trigger] c@[k]),
        decreases c@.len() - i,
    {
        if !alnum(c[i]) {
            return false;
        }
        i += 1;
    }
    true
}

/// Whether every character is a hexadecimal digit.
pub fn only_hex(c: &[char]) -> (r: bool)
    ensures
        r == all_hex(c@),
{
    let mut i: usize = 0;
    while i < c.len()
        invariant
            i <= c@.len(),
            forall|k: int| 0 <= k < i ==> is_hex(#[trigger] c@[k]),
        decreases c@.len() - i,
    {
        if !hex_digit(c[i]) {
            return false;
        }
        i += 1;
    }
    true
}

/// Whether every character is an ASCII lowercase letter.
pub fn only_lower(c: &[char]) -> (r: bool)
    ensures
        r == all_lower(c@),
{
    let mut i: usize = 0;
    while i < c.len()
        invariant
            i <= c@.len(),
            forall|k: int| 0 <= k < i ==> is_lower(#[trigger] c@[k]),
        decreases c@.len() - i,
    {
        if !('a' <= c[i] && c[i] <= 'z') {
            return false;
        }
        i += 1;
    }
    true
}

// --- Trimming ---------------------------------------------------------------

/// `s` without its leading white space.
pub open spec fn trim_start(s: Seq<char>) -> Seq<char>
    decreases s.len(),
{
    if s.len() > 0 && is_space(s[0]) {
        trim_start(s.skip(1))
    } else {
        s
    }
}

/// `s` without its trailing white space.
pub open spec fn trim_end(s: Seq<char>) -> Seq<char>
    decreases s.len(),
{
    if s.len() > 0 && is_space(s.last()) {
        trim_end(s.drop_last())
    } else {
        s
    }
}

/// `s` without white space at either end.
pub open spec fn trim(s: Seq<char>) -> Seq<char> {
    trim_end(trim_start(s))
}

/// The end of `c[from..]` once trailing white space is dropped.
pub fn trim_end_at(c: &[char], from: usize) -> (to: usize)
    requires
        from <= c@.len(),
    ensures
        from <= to <= c@.len(),
        c@.subrange(from as int, to as int) == trim_end(c@.skip(from as int)),
{
    let mut to: usize = c.len();
    assert(c@.subrange(from as int, to as int) =~= c@.skip(from as int));
    while to > from && space(c[to - 1])
        invariant
            from <= to <= c@.len(),
            trim_end(c@.subrange(from as int, to as int)) == trim_end(c@.skip(from as int)),
        decreases to,
    {
        assert(c@.subrange(from as int, to as int).drop_last() =~= c@.subrange(
            from as int,
            to - 1,
        ));
        to -= 1;
    }
    to
}

/// Where `c` starts and ends once white space is dropped at both ends.
pub fn trim_bounds(c: &[char]) -> (r: (usize, usize))
    ensures
        r.0 <= r.1 <= c@.len(),
        c@.subrange(r.0 as int, r.1 as int) == trim(c@),
{
    let mut from: usize = 0;
    assert(c@.skip(0) =~= c@);
    while from < c.len() && space(c[from])
        invariant
            from <= c@.len(),
            trim_start(c@.skip(from as int)) == trim_start(c@),
        decreases c@.len() - from,
    {
        assert(c@.skip(from as int).skip(1) =~= c@.skip(from + 1));
        from += 1;
    }
    let to = trim_end_at(c, from);
    (from, to)
}

/// The trimmed characters.
pub fn trimmed(c: &[char]) -> (r: Vec<char>)
    ensures
        r@ == trim(c@),
{
    let b = trim_bounds(c);
    slice_of(c, b.0, b.1)
}

/// The trimmed string.
pub fn trim_string(s: &str) -> (r: String)
    ensures
        r@ == trim(s@),
{
    let c = chars_of(s);
    let b = trim_bounds(&c);
    substring(&c, b.0, b.1)
}

/// What trimming the end leaves does not end in white space.
pub proof fn lemma_trim_end_last(s: Seq<char>)
    ensures
        trim_end(s).len() > 0 ==> !is_space(trim_end(s).last()),
    decreases s.len(),
{
    if s.len() > 0 && is_space(s.last()) {
        lemma_trim_end_last(s.drop_last());
    }
}

// --- Searching --------------------------------------------------------------

/// The first position at or after `i` that holds `c`.
pub open spec fn find_char_from(s: Seq<char>, c: char, i: int) -> Option<int>
    decreases s.len() - i,
{
    if i < 0 || i >= s.len() {
        None
    } else if s[i] == c {
        Some(i)
    } else {
        find_char_from(s, c, i + 1)
    }
}

/// The first position that holds `c`.
pub open spec fn find_char(s: Seq<char>, c: char) -> Option<int> {
    find_char_from(s, c, 0)
}

/// The last position before `i` that holds `c`.
pub open spec fn rfind_char_before(s: Seq<char>, c: char, i: int) -> Option<int>
    decreases i,
{
    if i <= 0 || i > s.len() {
        None
    } else if s[i - 1] == c {
        Some(i - 1)
    } else {
        rfind_char_before(s, c, i - 1)
    }
}

/// The last position that holds `c`.
pub open spec fn rfind_char(s: Seq<char>, c: char) -> Option<int> {
    rfind_char_before(s, c, s.len() as int)
}

/// Whether `pat` stands in `s` at position `i`.
pub open spec fn stands_at(s: Seq<char>, pat: Seq<char>, i: int) -> bool {
    0 <= i && i + pat.len() <= s.len() && s.subrange(i, i + pat.len()) == pat
}

/// The first position at or after `i` where `pat` stands.
pub open spec fn find_from(s: Seq<char>, pat: Seq<char>, i: int) -> Option<int>
    decreases s.len() + 1 - i,
{
    if i < 0 || i > s.len() {
        None
    } else if stands_at(s, pat, i) {
        Some(i)
    } else {
        find_from(s, pat, i + 1)
    }
}

/// The first position where `pat` stands in `s`.
pub open spec fn find(s: Seq<char>, pat: Seq<char>) -> Option<int> {
    find_from(s, pat, 0)
}

/// Whether `pat` stands anywhere in `s`.
pub open spec fn contains_text(s: Seq<char>, pat: Seq<char>) -> bool {
    find(s, pat) is Some
}

/// Whether `s` begins with `pat`.
pub open spec fn starts_with(s: Seq<char>, pat: Seq<char>) -> bool {
    stands_at(s, pat, 0)
}

/// Whether `s` ends with `pat`.
pub open spec fn ends_with(s: Seq<char>, pat: Seq<char>) -> bool {
    stands_at(s, pat, s.len() - pat.len())
}

/// What a search for a position found, as a machine integer.
pub open spec fn at(o: Option<usize>) -> Option<int> {
    match o {
        Some(i) => Some(i as int),
        None => None,
    }
}

/// A position that `find_char_from` reports is in range and holds `c`.
pub proof fn lemma_find_char(s: Seq<char>, c: char, i: int)
    ensures
        find_char_from(s, c, i) matches Some(k) ==> i <= k < s.len() && s[k] == c,
        find_char_from(s, c, i) matches Some(k) ==> forall|j: int| i <= j < k ==> s[j] != c,
        find_char_from(s, c, i) is None && 0 <= i ==> forall|j: int| i <= j < s.len() ==> s[j] != c,
    decreases s.len() - i,
{
    if 0 <= i < s.len() && s[i] != c {
        lemma_find_char(s, c, i + 1);
    }
}

/// The first position that holds `c`, given what precedes it.
pub proof fn lemma_find_char_is(s: Seq<char>, c: char, i: int, k: int)
    requires
        0 <= i <= k < s.len(),
        s[k] == c,
        forall|j: int| i <= j < k ==> s[j] != c,
    ensures
        find_char_from(s, c, i) == Some(k),
    decreases k - i,
{
    if i < k {
        lemma_find_char_is(s, c, i + 1, k);
    }
}

/// No position holds `c`.
pub proof fn lemma_find_char_none(s: Seq<char>, c: char, i: int)
    requires
        0 <= i,
        forall|j: int| i <= j < s.len() ==> s[j] != c,
    ensures
        find_char_from(s, c, i) is None,
    decreases s.len() - i,
{
    if i < s.len() {
        lemma_find_char_none(s, c, i + 1);
    }
}

/// A position that `find_from` reports is one where `pat` stands.
pub proof fn lemma_find(s: Seq<char>, pat: Seq<char>, i: int)
    ensures
        find_from(s, pat, i) matches Some(k) ==> i <= k && stands_at(s, pat, k),
        find_from(s, pat, i) matches Some(k) ==> forall|j: int|
            i <= j < k ==> !#[trigger] stands_at(s, pat, j),
        find_from(s, pat, i) is None && 0 <= i ==> forall|j: int|
            i <= j <= s.len() ==> !#[trigger] stands_at(s, pat, j),
    decreases s.len() + 1 - i,
{
    if 0 <= i <= s.len() && !stands_at(s, pat, i) {
        lemma_find(s, pat, i + 1);
    }
}

/// The first position where `pat` stands, given that it stands nowhere before.
pub proof fn lemma_find_is(s: Seq<char>, pat: Seq<char>, i: int, k: int)
    requires
        0 <= i <= k,
        stands_at(s, pat, k),
        forall|j: int| i <= j < k ==> !#[trigger] stands_at(s, pat, j),
    ensures
        find_from(s, pat, i) == Some(k),
    decreases k - i,
{
    if i < k {
        lemma_find_is(s, pat, i + 1, k);
    }
}

/// The first position of `c` in `s`.
pub fn find_char_at(s: &[char], c: char) -> (r: Option<usize>)
    ensures
        at(r) == find_char(s@, c),
        r matches Some(k) ==> k < s@.len() && s@[k as int] == c,
{
    let mut i: usize = 0;
    while i < s.len()
        invariant
            i <= s@.len(),
            find_char_from(s@, c, i as int) == find_char(s@, c),
        decreases s@.len() - i,
    {
        if s[i] == c {
            return Some(i);
        }
        i += 1;
    }
    None
}

/// The last position of `c` in `s`.
pub fn rfind_char_at(s: &[char], c: char) -> (r: Option<usize>)
    ensures
        at(r) == rfind_char(s@, c),
        r matches Some(k) ==> k < s@.len() && s@[k as int] == c,
{
    let mut i: usize = s.len();
    while i > 0
        invariant
            i <= s@.len(),
            rfind_char_before(s@, c, i as int) == rfind_char(s@, c),
        decreases i,
    {
        if s[i - 1] == c {
            return Some(i - 1);
        }
        i -= 1;
    }
    None
}

/// Whether `pat` stands in `s` at position `i`.
pub fn stands(s: &[char], pat: &[char], i: usize) -> (r: bool)
    ensures
        r == stands_at(s@, pat@, i as int),
{
    if i > s.len() || pat.len() > s.len() - i {
        return false;
    }
    let mut k: usize = 0;
    while k < pat.len()
        invariant
            k <= pat@.len(),
            i + pat@.len() <= s@.len() <= usize::MAX,
            forall|j: int| 0 <= j < k ==> s@[i + j] == #[trigger] pat@[j],
        decreases pat@.len() - k,
    {
        if s[i + k] != pat[k] {
            assert(s@.subrange(i as int, i + pat@.len())[k as int] != pat@[k as int]);
            return false;
        }
        k += 1;
    }
    assert(s@.subrange(i as int, i + pat@.len()) =~= pat@);
    true
}

/// The first position at or after `from` where `pat` stands in `s`.
pub fn find_at_from(s: &[char], pat: &[char], from: usize) -> (r: Option<usize>)
    requires
        from <= s@.len(),
    ensures
        at(r) == find_from(s@, pat@, from as int),
        r matches Some(k) ==> from <= k && k + pat@.len() <= s@.len(),
{
    let mut i: usize = from;
    loop
        invariant
            from <= i <= s@.len(),
            find_from(s@, pat@, i as int) == find_from(s@, pat@, from as int),
        decreases s@.len() - i,
    {
        if stands(s, pat, i) {
            return Some(i);
        }
        if i == s.len() {
            assert(find_from(s@, pat@, i + 1) is None);
            return None;
        }
        i += 1;
    }
}

/// The first position where `pat` stands in `s`.
pub fn find_text(s: &[char], pat: &str) -> (r: Option<usize>)
    ensures
        at(r) == find(s@, pat@),
        r matches Some(k) ==> k + pat@.len() <= s@.len(),
{
    let p = chars_of(pat);
    find_at_from(s, &p, 0)
}

/// Whether `pat` stands anywhere in `s`.
pub fn has_text(s: &[char], pat: &str) -> (r: bool)
    ensures
        r == contains_text(s@, pat@),
{
    find_text(s, pat).is_some()
}

/// Whether `s` begins with `pat`.
pub fn begins(s: &[char], pat: &str) -> (r: bool)
    ensures
        r == starts_with(s@, pat@),
{
    let p = chars_of(pat);
    stands(s, &p, 0)
}

/// Whether `s` ends with `pat`.
pub fn ends(s: &[char], pat: &str) -> (r: bool)
    ensures
        r == ends_with(s@, pat@),
{
    let p = chars_of(pat);
    if p.len() > s.len() {
        return false;
    }
    stands(s, &p, s.len() - p.len())
}

// --- Splitting and joining --------------------------------------------------

/// The views of a sequence of character vectors.
pub open spec fn parts_view(p: Seq<Vec<char>>) -> Seq<Seq<char>> {
    p.map_values(|v: Vec<char>| v@)
}

/// The fields of `s` between the separators `c`; always at least one.
pub open spec fn split_char(s: Seq<char>, c: char) -> Seq<Seq<char>>
    decreases s.len(),
{
    match find_char(s, c) {
        None => seq![s],
        Some(i) => {
            proof {
                lemma_find_char(s, c, 0);
            }
            seq![s.take(i)] + split_char(s.skip(i + 1), c)
        },
    }
}

/// The pieces of `s` between the occurrences of `pat`, found from the left and
/// not overlapping; an empty pattern splits nothing.
pub open spec fn split_text(s: Seq<char>, pat: Seq<char>) -> Seq<Seq<char>>
    decreases s.len(),
{
    match find(s, pat) {
        None => seq![s],
        Some(i) => if pat.len() == 0 {
            seq![s]
        } else {
            proof {
                lemma_find(s, pat, 0);
            }
            seq![s.take(i)] + split_text(s.skip(i + pat.len()), pat)
        },
    }
}

/// `parts` with `sep` between neighbours.
pub open spec fn join(parts: Seq<Seq<char>>, sep: Seq<char>) -> Seq<char>
    decreases parts.len(),
{
    if parts.len() == 0 {
        Seq::empty()
    } else if parts.len() == 1 {
        parts[0]
    } else {
        join(parts.drop_last(), sep) + sep + parts.last()
    }
}

/// Splitting `s` at the separator `c`.
pub fn split_on_char(s: &[char], c: char) -> (r: Vec<Vec<char>>)
    ensures
        parts_view(r@) == split_char(s@, c),
{
    let mut r: Vec<Vec<char>> = Vec::new();
    let mut from: usize = 0;
    assert(s@.skip(0) =~= s@);
    assert(parts_view(r@) + split_char(s@, c) =~= split_char(s@, c));
    loop
        invariant
            from <= s@.len(),
            parts_view(r@) + split_char(s@.skip(from as int), c) == split_char(s@, c),
        decreases s@.len() - from,
    {
        let rest = slice_of(s, from, s.len());
        assert(rest@ =~= s@.skip(from as int));
        match find_char_at(&rest, c) {
            None => {
                let ghost before = r@;
                r.push(rest);
                assert(parts_view(r@) =~= parts_view(before) + seq![rest@]);
                return r;
            },
            Some(i) => {
                let ghost before = r@;
                let head = slice_of(&rest, 0, i);
                r.push(head);
                assert(head@ =~= rest@.take(i as int));
                assert(rest@.skip(i + 1) =~= s@.skip(from + i + 1));
                assert(parts_view(r@) =~= parts_view(before) + seq![head@]);
                assert(parts_view(before) + (seq![head@] + split_char(rest@.skip(i + 1), c))
                    =~= parts_view(r@) + split_char(rest@.skip(i + 1), c));
                from = from + i + 1;
            },
        }
    }
}

/// Splitting `s` at the occurrences of `pat`.
pub fn split_on_text(s: &[char], pat: &str) -> (r: Vec<Vec<char>>)
    ensures
        parts_view(r@) == split_text(s@, pat@),
{
    let p = chars_of(pat);
    let mut r: Vec<Vec<char>> = Vec::new();
    let mut from: usize = 0;
    assert(s@.skip(0) =~= s@);
    assert(parts_view(r@) + split_text(s@, pat@) =~= split_text(s@, pat@));
    loop
        invariant
            p@ == pat@,
            from <= s@.len(),
            parts_view(r@) + split_text(s@.skip(from as int), pat@) == split_text(s@, pat@),
        decreases s@.len() - from,
    {
        let rest = slice_of(s, from, s.len());
        assert(rest@ =~= s@.skip(from as int));
        let hit = find_at_from(&rest, &p, 0);
        if p.len() > 0 && hit.is_some() {
            let i = hit.unwrap();
            let ghost before = r@;
            let head = slice_of(&rest, 0, i);
            r.push(head);
            assert(head@ =~= rest@.take(i as int));
            assert(rest@.skip(i + p@.len()) =~= s@.skip(from + i + p@.len()));
            assert(parts_view(r@) =~= parts_view(before) + seq![head@]);
            assert(parts_view(before) + (seq![head@] + split_text(rest@.skip(i + p@.len()), pat@))
                =~= parts_view(r@) + split_text(rest@.skip(i + p@.len()), pat@));
            from = from + i + p.len();
        } else {
            let ghost before = r@;
            r.push(rest);
            assert(parts_view(r@) =~= parts_view(before) + seq![rest@]);
            return r;
        }
    }
}

/// `a` followed by `b`.
pub fn append_chars(a: &mut Vec<char>, b: &[char])
    ensures
        final(a)@ == old(a)@ + b@,
{
    let mut i: usize = 0;
    while i < b.len()
        invariant
            i <= b@.len(),
            a@ == old(a)@ + b@.take(i as int),
        decreases b@.len() - i,
    {
        a.push(b[i]);
        assert(b@.take(i + 1) =~= b@.take(i as int).push(b@[i as int]));
        i += 1;
    }
    assert(b@.take(i as int) =~= b@);
}

/// `a` followed by the characters of `b`.
pub fn append_text(a: &mut Vec<char>, b: &str)
    ensures
        final(a)@ == old(a)@ + b@,
{
    let c = chars_of(b);
    append_chars(a, &c);
}

/// Two texts, one after the other.
pub fn concat(a: &str, b: &str) -> (r: String)
    ensures
        r@ == a@ + b@,
{
    let mut c = chars_of(a);
    append_text(&mut c, b);
    string_of(&c)
}

/// Joining `parts` with `sep` between neighbours.
pub fn join_chars(parts: &[Vec<char>], sep: &str) -> (r: Vec<char>)
    ensures
        r@ == join(parts_view(parts@), sep@),
{
    let mut r: Vec<char> = Vec::new();
    let mut i: usize = 0;
    let ghost pv = parts_view(parts@);
    while i < parts.len()
        invariant
            i <= parts@.len(),
            pv == parts_view(parts@),
            r@ == join(pv.take(i as int), sep@),
        decreases parts@.len() - i,
    {
        assert(pv.take(i + 1).drop_last() =~= pv.take(i as int));
        assert(pv.take(i + 1).last() == parts@[i as int]@);
        if i > 0 {
            append_text(&mut r, sep);
        }
        append_chars(&mut r, &parts[i]);
        i += 1;
    }
    assert(pv.take(i as int) =~= pv);
    r
}

/// Joining `texts` with `sep` between neighbours.
pub fn join_strings(texts: &[String], sep: &str) -> (r: String)
    ensures
        r@ == join(views(texts@), sep@),
{
    let mut parts: Vec<Vec<char>> = Vec::new();
    let mut i: usize = 0;
    while i < texts.len()
        invariant
            i <= texts@.len(),
            parts_view(parts@) == views(texts@).take(i as int),
        decreases texts@.len() - i,
    {
        let c = chars_of(&texts[i]);
        let ghost before = parts@;
        parts.push(c);
        assert(parts_view(parts@) =~= parts_view(before).push(c@));
        assert(views(texts@).take(i + 1) =~= views(texts@).take(i as int).push(texts@[i as int]@));
        i += 1;
    }
    assert(views(texts@).take(i as int) =~= views(texts@));
    let j = join_chars(&parts, sep);
    string_of(&j)
}

// --- Numbers ----------------------------------------------------------------

/// The value of a decimal digit.
pub open spec fn digit_value(c: char) -> int {
    c as int - '0' as int
}

/// The number that a sequence of decimal digits denotes.
pub open spec fn number(s: Seq<char>) -> int
    decreases s.len(),
{
    if s.len() == 0 {
        0
    } else {
        number(s.drop_last()) * 10 + digit_value(s.last())
    }
}

/// `s` without one leading `+`.
pub open spec fn unsigned(s: Seq<char>) -> Seq<char> {
    if s.len() > 0 && s[0] == '+' {
        s.skip(1)
    } else {
        s
    }
}

/// The number that `s` denotes: an optional `+`, then decimal digits and nothing
/// else, with a value that fits in 32 bits.
pub open spec fn as_u32(s: Seq<char>) -> Option<u32> {
    let d = unsigned(s);
    if d.len() > 0 && all_digits(d) && number(d) <= u32::MAX {
        Some(number(d) as u32)
    } else {
        None
    }
}

/// The decimal digits of `n`, without leading zeros.
pub open spec fn decimal(n: nat) -> Seq<char>
    decreases n,
{
    if n < 10 {
        seq![('0' as u8 + n) as char]
    } else {
        decimal(n / 10).push(('0' as u8 + n % 10) as char)
    }
}

/// The decimal digits of `n`, at least two of them.
pub open spec fn two_digits(n: nat) -> Seq<char> {
    if n < 10 {
        seq!['0'] + decimal(n)
    } else {
        decimal(n)
    }
}

/// A number never falls below zero, and grows with each digit appended.
pub proof fn lemma_number_bounds(s: Seq<char>, k: int)
    requires
        all_digits(s),
        0 <= k <= s.len(),
    ensures
        0 <= number(s.take(k)) <= number(s),
    decreases s.len() - k, s.len(),
{
    if k == s.len() {
        assert(s.take(k) =~= s);
        if s.len() > 0 {
            assert(all_digits(s.drop_last()));
            lemma_number_bounds(s.drop_last(), s.len() - 1);
            assert(s.drop_last().take(s.len() - 1) =~= s.drop_last());
        }
    } else {
        assert(s.drop_last().take(k) =~= s.take(k));
        lemma_number_bounds(s.drop_last(), k);
    }
}

/// Decimal digits read back as the number they were made from.
pub proof fn lemma_decimal(n: nat)
    ensures
        decimal(n).len() > 0,
        all_digits(decimal(n)),
        number(decimal(n)) == n,
    decreases n,
{
    reveal_with_fuel(number, 2);
    if n >= 10 {
        lemma_decimal(n / 10);
        assert(decimal(n).drop_last() =~= decimal(n / 10));
    } else {
        assert(decimal(n).drop_last() =~= Seq::<char>::empty());
    }
}

/// Two-digit numbers read back as the number they were made from.
pub proof fn lemma_two_digits(n: nat)
    ensures
        two_digits(n).len() > 0,
        all_digits(two_digits(n)),
        number(two_digits(n)) == n,
{
    lemma_decimal(n);
    if n < 10 {
        reveal_with_fuel(number, 3);
        assert(two_digits(n).drop_last() =~= seq!['0']);
        assert(seq!['0'].drop_last() =~= Seq::<char>::empty());
    }
}

/// Reading an unsigned number.
pub fn parse_u32(s: &[char]) -> (r: Option<u32>)
    ensures
        r == as_u32(s@),
{
    let from: usize = if s.len() > 0 && s[0] == '+' {
        1
    } else {
        0
    };
    let ghost d = unsigned(s@);
    assert(d =~= s@.skip(from as int));
    if from == s.len() {
        return None;
    }
    let mut v: u32 = 0;
    let mut i: usize = from;
    while i < s.len()
        invariant
            from <= i <= s@.len(),
            d == s@.skip(from as int),
            d == unsigned(s@),
            all_digits(d.take(i - from)),
            v == number(d.take(i - from)),
        decreases s@.len() - i,
    {
        let c = s[i];
        let ghost k = i - from;
        assert(d[k] == c);
        if !digit(c) {
            assert(!is_digit(d[k]));
            return None;
        }
        assert(d.take(k + 1).drop_last() =~= d.take(k));
        let x: u32 = c as u32 - '0' as u32;
        let wide: u64 = v as u64 * 10 + x as u64;
        assert(wide == number(d.take(k + 1)));
        if wide > u32::MAX as u64 {
            proof {
                if all_digits(d) {
                    lemma_number_bounds(d, k + 1);
                }
            }
            return None;
        }
        v = wide as u32;
        assert(all_digits(d.take(k + 1))) by {
            assert forall|j: int| 0 <= j < k + 1 implies is_digit(#[trigger] d.take(k + 1)[j]) by {
                if j < k {
                    assert(d.take(k)[j] == d[j]);
                }
            }
        }
        i += 1;
    }
    assert(d.take(i - from) =~= d);
    Some(v)
}

/// Writing a number in decimal.
pub fn decimal_chars(n: u64) -> (r: Vec<char>)
    ensures
        r@ == decimal(n as nat),
    decreases n,
{
    let d = (48u8 + (n % 10) as u8) as char;
    if n < 10 {
        let mut r: Vec<char> = Vec::new();
        r.push(d);
        assert(r@ =~= decimal(n as nat));
        r
    } else {
        let mut r = decimal_chars(n / 10);
        r.push(d);
        r
    }
}

/// Writing a number with at least two decimal digits.
pub fn two_digit_chars(n: u32) -> (r: Vec<char>)
    ensures
        r@ == two_digits(n as nat),
{
    let mut r: Vec<char> = Vec::new();
    if n < 10 {
        r.push('0');
    }
    let d = decimal_chars(n as u64);
    append_chars(&mut r, &d);
    assert(r@ =~= two_digits(n as nat));
    r
}

// --- Order ------------------------------------------------------------------

/// The order of strings: by the first character that differs, the shorter
/// string first where there is none.
pub open spec fn text_lt(a: Seq<char>, b: Seq<char>) -> bool
    decreases a.len(),
{
    if b.len() == 0 {
        false
    } else if a.len() == 0 {
        true
    } else if a[0] != b[0] {
        a[0] < b[0]
    } else {
        text_lt(a.skip(1), b.skip(1))
    }
}

/// The order of optional strings: `None` first.
pub open spec fn opt_text_lt(a: Option<Seq<char>>, b: Option<Seq<char>>) -> bool {
    match (a, b) {
        (None, Some(_)) => true,
        (Some(x), Some(y)) => text_lt(x, y),
        _ => false,
    }
}

/// The order of optional numbers: `None` first.
pub open spec fn opt_num_lt(a: Option<u32>, b: Option<u32>) -> bool {
    match (a, b) {
        (None, Some(_)) => true,
        (Some(x), Some(y)) => x < y,
        _ => false,
    }
}

/// Nothing is before itself, and two strings are never each before the other.
pub proof fn lemma_text_lt_asym(a: Seq<char>, b: Seq<char>)
    ensures
        text_lt(a, b) ==> !text_lt(b, a),
        text_lt(a, b) ==> a != b,
        !text_lt(a, a),
    decreases a.len(),
{
    if a.len() > 0 {
        if b.len() > 0 {
            lemma_text_lt_asym(a.skip(1), b.skip(1));
        }
        lemma_text_lt_asym(a.skip(1), a.skip(1));
    }
}

/// Two different strings are in order one way or the other.
pub proof fn lemma_text_lt_total(a: Seq<char>, b: Seq<char>)
    ensures
        text_lt(a, b) || text_lt(b, a) || a == b,
    decreases a.len(),
{
    if a.len() == 0 && b.len() == 0 {
        assert(a =~= b);
    } else if a.len() > 0 && b.len() > 0 && a[0] == b[0] {
        lemma_text_lt_total(a.skip(1), b.skip(1));
        if a.skip(1) == b.skip(1) {
            assert(a =~= seq![a[0]] + a.skip(1));
            assert(b =~= seq![b[0]] + b.skip(1));
        }
    }
}

/// The order of strings is transitive.
pub proof fn lemma_text_lt_trans(a: Seq<char>, b: Seq<char>, c: Seq<char>)
    requires
        text_lt(a, b),
        text_lt(b, c),
    ensures
        text_lt(a, c),
    decreases a.len(),
{
    if a.len() > 0 && a[0] == b[0] && b[0] == c[0] {
        lemma_text_lt_trans(a.skip(1), b.skip(1), c.skip(1));
    }
}

/// Whether `a` is before `b`.
pub fn chars_before(a: &[char], b: &[char]) -> (r: bool)
    ensures
        r == text_lt(a@, b@),
{
    let mut i: usize = 0;
    assert(a@.skip(0) =~= a@);
    assert(b@.skip(0) =~= b@);
    while i < a.len() && i < b.len()
        invariant
            i <= a@.len(),
            i <= b@.len(),
            text_lt(a@, b@) == text_lt(a@.skip(i as int), b@.skip(i as int)),
        decreases a@.len() - i,
    {
        if a[i] != b[i] {
            return a[i] < b[i];
        }
        assert(a@.skip(i as int).skip(1) =~= a@.skip(i + 1));
        assert(b@.skip(i as int).skip(1) =~= b@.skip(i + 1));
        i += 1;
    }
    i < b.len()
}

/// Whether the string `a` is before the string `b`.
pub fn text_before(a: &str, b: &str) -> (r: bool)
    ensures
        r == text_lt(a@, b@),
{
    let ca = chars_of(a);
    let cb = chars_of(b);
    chars_before(&ca, &cb)
}

/// Whether two optional strings are the same.
pub fn same_opt(a: &Option<String>, b: &Option<String>) -> (r: bool)
    ensures
        r == (opt_view(*a) == opt_view(*b)),
{
    match (a, b) {
        (None, None) => true,
        (Some(x), Some(y)) => same(x, y),
        _ => false,
    }
}

/// Whether the optional string `a` is before `b`.
pub fn opt_text_before(a: &Option<String>, b: &Option<String>) -> (r: bool)
    ensures
        r == opt_text_lt(opt_view(*a), opt_view(*b)),
{
    match (a, b) {
        (None, Some(_)) => true,
        (Some(x), Some(y)) => text_before(x, y),
        _ => false,
    }
}

/// Whether the optional number `a` is before `b`.
pub fn opt_num_before(a: Option<u32>, b: Option<u32>) -> (r: bool)
    ensures
        r == opt_num_lt(a, b),
{
    match (a, b) {
        (None, Some(_)) => true,
        (Some(x), Some(y)) => x < y,
        _ => false,
    }
}

/// Whether a text is among texts.
pub fn lists_text(texts: &[String], t: &str) -> (r: bool)
    ensures
        r == views(texts@).contains(t@),
{
    let mut i: usize = 0;
    while i < texts.len()
        invariant
            i <= texts@.len(),
            forall|j: int| 0 <= j < i ==> (#[trigger] texts@[j])@ != t@,
        decreases texts@.len() - i,
    {
        if same(&texts[i], t) {
            assert(views(texts@)[i as int] == t@);
            return true;
        }
        i += 1;
    }
    assert forall|j: int| 0 <= j < texts@.len() implies views(texts@)[j] != t@ by {
        assert(texts@[j]@ != t@);
    }
    false
}

/// A copy of an optional string.
pub fn clone_opt(o: &Option<String>) -> (r: Option<String>)
    ensures
        opt_view(r) == opt_view(*o),
        r == *o,
{
    match o {
        Some(s) => Some(s.clone()),
        None => None,
    }
}

/// An optional text, borrowed.
pub fn as_str_opt(o: &Option<String>) -> (r: Option<&str>)
    ensures
        opt_str_view(r) == opt_view(*o),
{
    match o {
        Some(s) => Some(s.as_str()),
        None => None,
    }
}

// --- Words and affixes ------------------------------------------------------

/// The words of `s`: its runs of characters that are no white space.
pub open spec fn words(s: Seq<char>) -> Seq<Seq<char>>
    decreases s.len(),
{
    if s.len() == 0 {
        Seq::empty()
    } else {
        let w = words(s.drop_last());
        let c = s.last();
        if is_space(c) {
            w
        } else if s.len() >= 2 && !is_space(s[s.len() - 2]) && w.len() > 0 {
            w.drop_last().push(w.last().push(c))
        } else {
            w.push(seq![c])
        }
    }
}

/// The words of `s`.
pub fn split_words(s: &[char]) -> (r: Vec<Vec<char>>)
    ensures
        parts_view(r@) == words(s@),
{
    let mut r: Vec<Vec<char>> = Vec::new();
    let mut i: usize = 0;
    assert(s@.take(0) =~= Seq::empty());
    assert(parts_view(r@) =~= Seq::empty());
    while i < s.len()
        invariant
            i <= s@.len(),
            parts_view(r@) == words(s@.take(i as int)),
        decreases s@.len() - i,
    {
        let ghost had = r@;
        proof {
            assert(s@.take(i + 1).drop_last() =~= s@.take(i as int));
            assert(s@.take(i + 1).last() == s@[i as int]);
        }
        if !space(s[i]) {
            if i > 0 && !space(s[i - 1]) && r.len() > 0 {
                let last = r.len() - 1;
                let mut w = r.remove(last);
                let ghost old_w = w@;
                w.push(s[i]);
                r.push(w);
                proof {
                    assert(parts_view(r@) =~= parts_view(had).drop_last().push(
                        parts_view(had).last().push(s@[i as int]),
                    ));
                }
            } else {
                let mut w: Vec<char> = Vec::new();
                w.push(s[i]);
                r.push(w);
                assert(w@ =~= seq![s@[i as int]]);
                assert(parts_view(r@) =~= parts_view(had).push(seq![s@[i as int]]));
            }
        }
        i += 1;
    }
    assert(s@.take(i as int) =~= s@);
    r
}

/// `s` without white space in front.
pub fn trimmed_start(s: &[char]) -> (r: Vec<char>)
    ensures
        r@ == trim_start(s@),
{
    let mut from: usize = 0;
    assert(s@.skip(0) =~= s@);
    while from < s.len() && space(s[from])
        invariant
            from <= s@.len(),
            trim_start(s@.skip(from as int)) == trim_start(s@),
        decreases s@.len() - from,
    {
        assert(s@.skip(from as int).skip(1) =~= s@.skip(from + 1));
        from += 1;
    }
    let r = slice_of(s, from, s.len());
    assert(r@ =~= s@.skip(from as int));
    r
}

/// `s` without `pat` in front, as often as it stands there.
pub open spec fn strip_all(s: Seq<char>, pat: Seq<char>) -> Seq<char>
    decreases s.len(),
{
    if pat.len() > 0 && starts_with(s, pat) {
        strip_all(s.skip(pat.len() as int), pat)
    } else {
        s
    }
}

/// `s` without `pat` in front, as often as it stands there.
pub fn stripped_all(s: &[char], pat: &str) -> (r: Vec<char>)
    ensures
        r@ == strip_all(s@, pat@),
{
    let p = chars_of(pat);
    let mut from: usize = 0;
    assert(s@.skip(0) =~= s@);
    while p.len() > 0 && from <= s.len() && stands(s, &p, from)
        invariant
            from <= s@.len(),
            p@ == pat@,
            strip_all(s@.skip(from as int), pat@) == strip_all(s@, pat@),
        decreases s@.len() - from,
    {
        proof {
            let rest = s@.skip(from as int);
            assert(rest.subrange(0, p@.len() as int) =~= s@.subrange(
                from as int,
                from + p@.len(),
            ));
            assert(starts_with(rest, pat@));
            assert(rest.skip(p@.len() as int) =~= s@.skip(from + p@.len()));
        }
        from += p.len();
    }
    proof {
        let rest = s@.skip(from as int);
        if p@.len() > 0 && starts_with(rest, pat@) {
            assert(s@.subrange(from as int, from + p@.len()) =~= rest.subrange(
                0,
                p@.len() as int,
            ));
        }
    }
    let r = slice_of(s, from, s.len());
    assert(r@ =~= s@.skip(from as int));
    r
}

/// `s` without the character `c` in front.
pub open spec fn strip_char_start(s: Seq<char>, c: char) -> Seq<char>
    decreases s.len(),
{
    if s.len() > 0 && s[0] == c {
        strip_char_start(s.skip(1), c)
    } else {
        s
    }
}

/// `s` without the character `c` at its end.
pub open spec fn strip_char_end(s: Seq<char>, c: char) -> Seq<char>
    decreases s.len(),
{
    if s.len() > 0 && s.last() == c {
        strip_char_end(s.drop_last(), c)
    } else {
        s
    }
}

/// `s` without the character `c` at either end.
pub fn stripped_char(s: &[char], c: char) -> (r: Vec<char>)
    ensures
        r@ == strip_char_end(strip_char_start(s@, c), c),
{
    let mut from: usize = 0;
    assert(s@.skip(0) =~= s@);
    while from < s.len() && s[from] == c
        invariant
            from <= s@.len(),
            strip_char_start(s@.skip(from as int), c) == strip_char_start(s@, c),
        decreases s@.len() - from,
    {
        assert(s@.skip(from as int).skip(1) =~= s@.skip(from + 1));
        from += 1;
    }
    let ghost head = s@.skip(from as int);
    let mut to: usize = s.len();
    assert(s@.subrange(from as int, to as int) =~= head);
    while to > from && s[to - 1] == c
        invariant
            from <= to <= s@.len(),
            strip_char_end(s@.subrange(from as int, to as int), c) == strip_char_end(head, c),
        decreases to,
    {
        assert(s@.subrange(from as int, to as int).drop_last() =~= s@.subrange(
            from as int,
            to - 1,
        ));
        to -= 1;
    }
    slice_of(s, from, to)
}

/// `s` with every `a` replaced by `b`.
pub open spec fn replace_char(s: Seq<char>, a: char, b: char) -> Seq<char> {
    Seq::new(
        s.len(),
        |i: int|
            if s[i] == a {
                b
            } else {
                s[i]
            },
    )
}

/// `s` with every `a` replaced by `b`.
pub fn replaced_char(s: &[char], a: char, b: char) -> (r: Vec<char>)
    ensures
        r@ == replace_char(s@, a, b),
{
    let mut r: Vec<char> = Vec::new();
    let mut i: usize = 0;
    while i < s.len()
        invariant
            i <= s@.len(),
            r@ == replace_char(s@, a, b).take(i as int),
        decreases s@.len() - i,
    {
        r.push(
            if s[i] == a {
                b
            } else {
                s[i]
            },
        );
        i += 1;
        assert(r@ =~= replace_char(s@, a, b).take(i as int));
    }
    assert(r@ =~= replace_char(s@, a, b));
    r
}

/// `s` without any `c`.
pub open spec fn without_char(s: Seq<char>, c: char) -> Seq<char>
    decreases s.len(),
{
    if s.len() == 0 {
        s
    } else {
        let rest = without_char(s.drop_last(), c);
        if s.last() == c {
            rest
        } else {
            rest.push(s.last())
        }
    }
}

/// `s` without any `c`.
pub fn dropped_char(s: &[char], c: char) -> (r: Vec<char>)
    ensures
        r@ == without_char(s@, c),
{
    let mut r: Vec<char> = Vec::new();
    let mut i: usize = 0;
    assert(s@.take(0) =~= Seq::empty());
    while i < s.len()
        invariant
            i <= s@.len(),
            r@ == without_char(s@.take(i as int), c),
        decreases s@.len() - i,
    {
        assert(s@.take(i + 1).drop_last() =~= s@.take(i as int));
        if s[i] != c {
            r.push(s[i]);
        }
        i += 1;
    }
    assert(s@.take(i as int) =~= s@);
    r
}

/// `s` without `pat` at its end, where it stands there.
pub open spec fn strip_suffix(s: Seq<char>, pat: Seq<char>) -> Seq<char> {
    if ends_with(s, pat) {
        s.take(s.len() - pat.len())
    } else {
        s
    }
}

/// `s` without `pat` at its end, where it stands there.
pub fn stripped_suffix(s: &[char], pat: &str) -> (r: Vec<char>)
    ensures
        r@ == strip_suffix(s@, pat@),
{
    let p = chars_of(pat);
    let total = s.len();
    if ends(s, pat) {
        let r = slice_of(s, 0, total - p.len());
        assert(r@ =~= s@.take(s@.len() - pat@.len()));
        r
    } else {
        let r = slice_of(s, 0, total);
        assert(r@ =~= s@);
        r
    }
}

/// What stands in `s` before the first `c`, or all of it.
pub open spec fn before(s: Seq<char>, c: char) -> Seq<char> {
    match find_char(s, c) {
        None => s,
        Some(i) => s.take(i),
    }
}

/// What stands in `s` before the first `c`, or all of it.
pub fn cut_before(s: &[char], c: char) -> (r: Vec<char>)
    ensures
        r@ == before(s@, c),
{
    match find_char_at(s, c) {
        None => {
            let r = slice_of(s, 0, s.len());
            assert(r@ =~= s@);
            r
        },
        Some(i) => {
            let r = slice_of(s, 0, i);
            assert(r@ =~= s@.take(i as int));
            r
        },
    }
}

/// A whole number in decimal digits, with a minus sign where it is negative.
pub open spec fn integer(n: int) -> Seq<char> {
    if n < 0 {
        seq!['-'] + decimal((-n) as nat)
    } else {
        decimal(n as nat)
    }
}

/// A whole number in decimal digits.
pub fn integer_chars(n: i64) -> (r: Vec<char>)
    ensures
        r@ == integer(n as int),
{
    if n < 0 {
        let below: i64 = -(n + 1);
        let size: u64 = below as u64 + 1;
        let mut r: Vec<char> = Vec::new();
        r.push('-');
        append_chars(&mut r, &decimal_chars(size));
        assert(r@ =~= seq!['-'] + decimal((-n) as nat));
        r
    } else {
        decimal_chars(n as u64)
    }
}

// --- Laws -------------------------------------------------------------------

/// The kinds of characters, by their code points. Digits and letters are those of ASCII;
/// white space is what Unicode calls so.
pub proof fn characters_by_code_point(c: char)
    ensures
        is_digit(c) <==> 0x30 <= c as int <= 0x39,
        is_upper(c) <==> 0x41 <= c as int <= 0x5a,
        is_lower(c) <==> 0x61 <= c as int <= 0x7a,
        is_alnum(c) <==> is_digit(c) || is_upper(c) || is_lower(c),
        is_hex(c) <==> is_digit(c) || 0x41 <= c as int <= 0x46 || 0x61 <= c as int <= 0x66,
        (c as int) < 0x80 ==> (is_space(c) <==> 9 <= c as int <= 13 || c as int == 0x20),
        c as int >= 0x80 ==> (is_space(c) <==> c as int == 0x85 || c as int == 0xa0 || c as int
            == 0x1680 || 0x2000 <= c as int <= 0x200a || c as int == 0x2028 || c as int == 0x2029
            || c as int == 0x202f || c as int == 0x205f || c as int == 0x3000),
        is_upper(c) ==> lower_char(c) as int == c as int + 32,
        !is_upper(c) ==> lower_char(c) == c,
{
    if is_upper(c) {
        assert(c as u8 as int == c as int);
    }
}

/// Lowering changes capital letters alone, each to its small letter, and doing it twice
/// changes nothing more.
pub proof fn lowering_is_charwise(a: Seq<char>, b: Seq<char>)
    ensures
        lower(a).len() == a.len(),
        forall|i: int|
            0 <= i < a.len() ==> (#[trigger] lower(a)[i]) as int == if 0x41 <= a[i] as int <= 0x5a {
                a[i] as int + 32
            } else {
                a[i] as int
            },
        lower(a + b) == lower(a) + lower(b),
        lower(lower(a)) == lower(a),
{
    assert forall|i: int| 0 <= i < a.len() implies (#[trigger] lower(a)[i]) as int == if 0x41
        <= a[i] as int <= 0x5a {
        a[i] as int + 32
    } else {
        a[i] as int
    } by {
        characters_by_code_point(a[i]);
    }
    assert(lower(a + b) =~= lower(a) + lower(b));
    assert forall|i: int| 0 <= i < a.len() implies lower(lower(a))[i] == lower(a)[i] by {
        characters_by_code_point(a[i]);
        characters_by_code_point(lower(a)[i]);
    }
    assert(lower(lower(a)) =~= lower(a));
}

/// Whether a text is white space all through.
pub open spec fn all_space(s: Seq<char>) -> bool {
    forall|i: int| 0 <= i < s.len() ==> is_space(#[trigger] s[i])
}

/// Whether a text neither begins nor ends with white space.
pub open spec fn no_outer_space(s: Seq<char>) -> bool {
    s.len() > 0 ==> !is_space(s[0]) && !is_space(s.last())
}

/// Trimming the front takes away the white space there and nothing else.
proof fn lemma_trim_start_is(a: Seq<char>, t: Seq<char>)
    requires
        all_space(a),
        t.len() > 0 ==> !is_space(t[0]),
    ensures
        trim_start(a + t) == t,
    decreases a.len(),
{
    if a.len() == 0 {
        assert(a + t =~= t);
    } else {
        assert((a + t)[0] == a[0]);
        assert((a + t).skip(1) =~= a.skip(1) + t);
        assert forall|i: int| 0 <= i < a.skip(1).len() implies is_space(#[trigger] a.skip(1)[i]) by {
            assert(a.skip(1)[i] == a[i + 1]);
        }
        lemma_trim_start_is(a.skip(1), t);
    }
}

/// Trimming the end takes away the white space there and nothing else.
pub proof fn trimming_the_end_is_exact(t: Seq<char>, b: Seq<char>)
    requires
        all_space(b),
        t.len() > 0 ==> !is_space(t.last()),
    ensures
        trim_end(t + b) == t,
    decreases b.len(),
{
    if b.len() == 0 {
        assert(t + b =~= t);
    } else {
        assert((t + b).last() == b.last());
        assert((t + b).drop_last() =~= t + b.drop_last());
        assert(is_space(b[b.len() - 1]));
        trimming_the_end_is_exact(t, b.drop_last());
    }
}

/// Trimming takes away the white space at both ends and nothing else.
pub proof fn trimming_is_exact(a: Seq<char>, t: Seq<char>, b: Seq<char>)
    requires
        all_space(a),
        no_outer_space(t),
        all_space(b),
    ensures
        trim(a + t + b) == t,
{
    if t.len() == 0 {
        let w = a + b;
        assert(all_space(w));
        assert(a + t + b =~= w + Seq::<char>::empty());
        lemma_trim_start_is(w, Seq::empty());
        assert(trim_end(Seq::<char>::empty()) =~= t);
    } else {
        assert(a + t + b =~= a + (t + b));
        assert((t + b)[0] == t[0]);
        lemma_trim_start_is(a, t + b);
        trimming_the_end_is_exact(t, b);
    }
}

/// What is trimmed has no white space at its ends, and is all of the text but white space.
pub proof fn trimmed_parts(s: Seq<char>) -> (r: (Seq<char>, Seq<char>))
    ensures
        s == r.0 + trim(s) + r.1,
        all_space(r.0),
        all_space(r.1),
        no_outer_space(trim(s)),
{
    let a = lemma_trim_start_parts(s);
    let t = trim_start(s);
    let b = lemma_trim_end_parts(t);
    assert(s =~= a + trim(s) + b);
    if trim(s).len() > 0 {
        assert(t[0] == trim(s)[0]);
    }
    (a, b)
}

/// What trimming the front takes away.
proof fn lemma_trim_start_parts(s: Seq<char>) -> (a: Seq<char>)
    ensures
        s == a + trim_start(s),
        all_space(a),
        trim_start(s).len() > 0 ==> !is_space(trim_start(s)[0]),
    decreases s.len(),
{
    if s.len() > 0 && is_space(s[0]) {
        let a = lemma_trim_start_parts(s.skip(1));
        let r = seq![s[0]] + a;
        assert(s =~= seq![s[0]] + s.skip(1));
        assert(s =~= r + trim_start(s));
        assert(all_space(r));
        r
    } else {
        assert(s =~= Seq::<char>::empty() + s);
        Seq::empty()
    }
}

/// What trimming the end takes away.
proof fn lemma_trim_end_parts(s: Seq<char>) -> (b: Seq<char>)
    ensures
        s == trim_end(s) + b,
        all_space(b),
        trim_end(s).len() > 0 ==> !is_space(trim_end(s).last()),
    decreases s.len(),
{
    if s.len() > 0 && is_space(s.last()) {
        let b = lemma_trim_end_parts(s.drop_last());
        let r = b.push(s.last());
        assert(s =~= s.drop_last().push(s.last()));
        assert(s =~= trim_end(s) + r);
        assert forall|i: int| 0 <= i < r.len() implies is_space(#[trigger] r[i]) by {
            if i < b.len() {
                assert(r[i] == b[i]);
            }
        }
        r
    } else {
        assert(s =~= s + Seq::<char>::empty());
        Seq::empty()
    }
}

/// A text is found at the first place where it stands, and nowhere exactly where it stands
/// nowhere.
pub proof fn finding_gives_the_first_place(s: Seq<char>, pat: Seq<char>)
    ensures
        match find(s, pat) {
            Some(k) => 0 <= k <= s.len() - pat.len() && s == s.take(k) + pat + s.skip(
                k + pat.len(),
            ) && forall|p: Seq<char>, q: Seq<char>|
                s == #[trigger] (p + pat + q) ==> k <= p.len(),
            None => forall|p: Seq<char>, q: Seq<char>| s != #[trigger] (p + pat + q),
        },
        contains_text(s, pat) <==> exists|p: Seq<char>, q: Seq<char>|
            s == #[trigger] (p + pat + q),
{
    lemma_find(s, pat, 0);
    assert forall|p: Seq<char>, q: Seq<char>| s == #[trigger] (p + pat + q) implies stands_at(
        s,
        pat,
        p.len() as int,
    ) by {
        assert(s.subrange(p.len() as int, (p.len() + pat.len()) as int) =~= pat);
    }
    if let Some(k) = find(s, pat) {
        assert(s =~= s.take(k) + pat + s.skip(k + pat.len()));
    }
}

/// A text begins with another exactly where it is that text and a rest, and ends with it
/// exactly where it is a front and that text.
pub proof fn beginnings_and_ends(s: Seq<char>, pat: Seq<char>)
    ensures
        starts_with(s, pat) <==> exists|rest: Seq<char>| s == #[trigger] (pat + rest),
        ends_with(s, pat) <==> exists|front: Seq<char>| s == #[trigger] (front + pat),
{
    let n = pat.len() as int;
    if starts_with(s, pat) {
        assert(s =~= pat + s.skip(n));
    }
    if exists|rest: Seq<char>| s == #[trigger] (pat + rest) {
        assert(s.subrange(0, n) =~= pat);
    }
    if ends_with(s, pat) {
        assert(s =~= s.take(s.len() - n) + pat);
    }
    if exists|front: Seq<char>| s == #[trigger] (front + pat) {
        assert(s.subrange(s.len() - n, s.len() as int) =~= pat);
    }
}

/// A character is found at its first place from the front, and at its last from the back.
pub proof fn finding_a_character(a: Seq<char>, c: char, b: Seq<char>)
    ensures
        !a.contains(c) ==> find_char(a.push(c) + b, c) == Some(a.len() as int),
        !b.contains(c) ==> rfind_char(a.push(c) + b, c) == Some(a.len() as int),
        !a.contains(c) ==> find_char(a, c) is None && rfind_char(a, c) is None,
{
    let s = a.push(c) + b;
    let n = a.len() as int;
    assert(s[n] == c);
    if !a.contains(c) {
        assert forall|j: int| 0 <= j < n implies s[j] != c && a[j] != c by {
            assert(a.contains(a[j]));
            assert(s[j] == a[j]);
        }
        lemma_find_char_is(s, c, 0, n);
        lemma_find_char_none(a, c, 0);
        lemma_rfind(a, c, n);
    }
    if !b.contains(c) {
        assert forall|j: int| n < j < s.len() implies s[j] != c by {
            assert(b.contains(b[j - n - 1]));
        }
        lemma_rfind(s, c, s.len() as int);
    }
}

/// Searching backwards stops at the last place before the start.
proof fn lemma_rfind(s: Seq<char>, c: char, i: int)
    requires
        0 <= i <= s.len(),
    ensures
        match rfind_char_before(s, c, i) {
            Some(k) => 0 <= k < i && s[k] == c && forall|j: int| k < j < i ==> s[j] != c,
            None => forall|j: int| 0 <= j < i ==> s[j] != c,
        },
    decreases i,
{
    if i > 0 && s[i - 1] != c {
        lemma_rfind(s, c, i - 1);
    }
}

/// Splitting at a character cuts at its first place, and leaves a text without it whole.
pub proof fn splitting_cuts_at_the_first(a: Seq<char>, c: char, b: Seq<char>)
    requires
        !a.contains(c),
    ensures
        split_char(a, c) == seq![a],
        split_char(a.push(c) + b, c) == seq![a] + split_char(b, c),
        before(a, c) == a,
        before(a.push(c) + b, c) == a,
{
    let s = a.push(c) + b;
    finding_a_character(a, c, b);
    assert(s.take(a.len() as int) =~= a);
    assert(s.skip(a.len() as int + 1) =~= b);
}

/// Splitting at a text cuts at its first place, and leaves a text without it whole.
pub proof fn splitting_by_text_cuts_at_the_first(s: Seq<char>, pat: Seq<char>)
    requires
        pat.len() > 0,
    ensures
        find(s, pat) is None ==> split_text(s, pat) == seq![s],
        find(s, pat) matches Some(k) ==> split_text(s, pat) == seq![s.take(k)] + split_text(
            s.skip(k + pat.len()),
            pat,
        ),
{
}

/// Joining the parts that a text was split into gives the text back.
pub proof fn splitting_is_undone_by_joining(s: Seq<char>, c: char)
    ensures
        split_char(s, c).len() > 0,
        join(split_char(s, c), seq![c]) == s,
        forall|i: int| 0 <= i < split_char(s, c).len() ==> !(#[trigger] split_char(s, c)[i]).contains(c),
    decreases s.len(),
{
    lemma_find_char(s, c, 0);
    let parts = split_char(s, c);
    match find_char(s, c) {
        None => {
            assert(parts =~= seq![s]);
            assert forall|i: int| 0 <= i < parts.len() implies !(#[trigger] parts[i]).contains(c) by {}
        },
        Some(i) => {
            let rest = s.skip(i + 1);
            splitting_is_undone_by_joining(rest, c);
            lemma_join_first(s.take(i), split_char(rest, c), seq![c]);
            assert(s =~= s.take(i) + seq![c] + rest);
            assert forall|k: int| 0 <= k < parts.len() implies !(#[trigger] parts[k]).contains(c) by {
                if k > 0 {
                    assert(parts[k] == split_char(rest, c)[k - 1]);
                } else {
                    assert(parts[0] == s.take(i));
                }
            }
        },
    }
}

/// Joining with one more part in front.
proof fn lemma_join_first(first: Seq<char>, parts: Seq<Seq<char>>, sep: Seq<char>)
    requires
        parts.len() > 0,
    ensures
        join(seq![first] + parts, sep) == first + sep + join(parts, sep),
    decreases parts.len(),
{
    let all = seq![first] + parts;
    assert(all.drop_last() =~= seq![first] + parts.drop_last());
    assert(all.last() == parts.last());
    if parts.len() == 1 {
        assert(parts.drop_last() =~= Seq::<Seq<char>>::empty());
        assert(all.drop_last() =~= seq![first]);
        assert(join(all.drop_last(), sep) == first);
    } else {
        lemma_join_first(first, parts.drop_last(), sep);
        assert(join(all, sep) =~= first + sep + join(parts, sep));
    }
}

/// Joined parts stand one after the other with the separator between them.
pub proof fn joining_is_partwise(first: Seq<char>, parts: Seq<Seq<char>>, sep: Seq<char>)
    ensures
        join(Seq::empty(), sep) == Seq::<char>::empty(),
        join(seq![first], sep) == first,
        parts.len() > 0 ==> join(seq![first] + parts, sep) == first + sep + join(parts, sep),
{
    if parts.len() > 0 {
        lemma_join_first(first, parts, sep);
    }
}

/// A number is read digit by digit, most significant first, and its decimal digits read back
/// as the number; what is no number of digits, with or without a plus in front, or is too
/// large, does not read.
pub proof fn numbers_read_back(s: Seq<char>, d: char, n: u32)
    ensures
        number(Seq::empty()) == 0,
        number(s.push(d)) == 10 * number(s) + (d as int - 0x30),
        as_u32(decimal(n as nat)) == Some(n),
        as_u32(seq!['+'] + decimal(n as nat)) == Some(n),
        as_u32(two_digits(n as nat)) == Some(n),
        as_u32(s) matches Some(m) ==> number(if s[0] == '+' {
            s.skip(1)
        } else {
            s
        }) == m,
        as_u32(s) is Some <==> {
            let t = if s.len() > 0 && s[0] == '+' {
                s.skip(1)
            } else {
                s
            };
            t.len() > 0 && all_digits(t) && number(t) <= 0xffff_ffff
        },
        (n as nat) < 10 ==> two_digits(n as nat) == seq!['0', (0x30 + n) as char],
        n >= 10 ==> two_digits(n as nat) == decimal(n as nat),
{
    assert(s.push(d).drop_last() =~= s);
    lemma_decimal(n as nat);
    lemma_two_digits(n as nat);
    let dn = decimal(n as nat);
    assert(is_digit(dn[0]));
    assert((seq!['+'] + dn).skip(1) =~= dn);
    assert(is_digit(two_digits(n as nat)[0]));
    let t = unsigned(s);
    if all_digits(t) {
        lemma_number_bounds(t, t.len() as int);
    }
    if (n as nat) < 10 {
        assert(two_digits(n as nat) =~= seq!['0', (0x30 + n) as char]);
    }
}

/// Decimal digits come without leading zeros, and a negative number has a minus in front.
pub proof fn decimals_are_plain(n: nat)
    ensures
        number(decimal(n)) == n,
        all_digits(decimal(n)),
        n > 0 ==> decimal(n)[0] != '0',
        decimal(0) == seq!['0'],
        integer(n as int) == decimal(n),
        n > 0 ==> integer(-(n as int)) == seq!['-'] + decimal(n),
    decreases n,
{
    lemma_decimal(n);
    if n >= 10 {
        decimals_are_plain(n / 10);
        assert(decimal(n)[0] == decimal(n / 10)[0]);
    } else if n > 0 {
        assert(decimal(n) =~= seq![('0' as u8 + n) as char]);
    }
    assert(decimal(0) =~= seq!['0']);
}

/// Texts are in the order of their first different character; a text comes before every
/// longer one that begins with it, and what two texts begin with in common does not matter.
pub proof fn first_difference_decides(p: Seq<char>, a: Seq<char>, b: Seq<char>)
    ensures
        text_lt(p + a, p + b) <==> text_lt(a, b),
        a.len() > 0 ==> text_lt(p, p + a),
        !text_lt(p + a, p),
        a.len() > 0 && b.len() > 0 && (a[0] as int) < b[0] as int ==> text_lt(p + a, p + b),
    decreases p.len(),
{
    if p.len() == 0 {
        assert(p + a =~= a);
        assert(p + b =~= b);
    } else {
        let q = p.skip(1);
        first_difference_decides(q, a, b);
        assert((p + a).skip(1) =~= q + a);
        assert((p + b).skip(1) =~= q + b);
        assert((p + a)[0] == p[0] && (p + b)[0] == p[0]);
    }
}

/// The words of a text are what stands between its white space: a word after white space is
/// one word more, white space at the end adds none, and a text without white space is one
/// word.
pub proof fn words_stand_between_spaces(s: Seq<char>, c: char, w: Seq<char>)
    ensures
        words(Seq::empty()).len() == 0,
        is_space(c) ==> words(s.push(c)) == words(s),
        w.len() > 0 && (forall|i: int| 0 <= i < w.len() ==> !is_space(#[trigger] w[i])) ==> {
            &&& words(w) == seq![w]
            &&& is_space(c) ==> words(s.push(c) + w) == words(s).push(w)
        },
    decreases w.len(),
{
    let t = s.push(c);
    assert(t.drop_last() =~= s);
    if w.len() > 0 && (forall|i: int| 0 <= i < w.len() ==> !is_space(#[trigger] w[i])) {
        let v = w.drop_last();
        let x = w.last();
        assert(!is_space(w[w.len() - 1]));
        assert forall|i: int| 0 <= i < v.len() implies !is_space(#[trigger] v[i]) by {
            assert(v[i] == w[i]);
        }
        if v.len() > 0 {
            words_stand_between_spaces(s, c, v);
            assert(w[w.len() - 2] == v[v.len() - 1]);
            assert(words(w) =~= seq![w]) by {
                assert(words(v) =~= seq![v]);
                assert(v.push(x) =~= w);
            }
        } else {
            assert(v =~= Seq::<char>::empty());
            assert(w =~= seq![x]);
            assert(words(v).len() == 0);
            assert(words(w) =~= seq![w]);
        }
        if is_space(c) {
            let all = t + w;
            assert(all.drop_last() =~= t + v);
            assert(all.last() == x);
            if v.len() > 0 {
                assert(all[all.len() - 2] == v[v.len() - 1]);
                assert(words(t + v) =~= words(s).push(v));
                assert(words(s).push(v).drop_last() =~= words(s));
                assert(v.push(x) =~= w);
                assert(words(all) =~= words(s).push(w));
            } else {
                assert(t + v =~= t);
                assert(w =~= seq![x]);
                assert(words(t) == words(s));
                assert(all[all.len() - 2] == c);
                assert(words(all) =~= words(s).push(w));
            }
        }
    }
}

/// Stripping takes away every copy of a text in front and stops where there is none; a
/// character is stripped from either end in the same way.
pub proof fn stripping_takes_every_copy(s: Seq<char>, pat: Seq<char>, c: char)
    ensures
        pat.len() > 0 ==> strip_all(pat + s, pat) == strip_all(s, pat),
        !starts_with(s, pat) ==> strip_all(s, pat) == s,
        strip_char_start(seq![c] + s, c) == strip_char_start(s, c),
        s.len() > 0 && s[0] != c ==> strip_char_start(s, c) == s,
        strip_char_end(s.push(c), c) == strip_char_end(s, c),
        s.len() > 0 && s.last() != c ==> strip_char_end(s, c) == s,
        strip_suffix(s + pat, pat) == s,
        !ends_with(s, pat) ==> strip_suffix(s, pat) == s,
{
    let t = pat + s;
    assert(t.subrange(0, pat.len() as int) =~= pat);
    assert(t.skip(pat.len() as int) =~= s);
    assert((seq![c] + s).skip(1) =~= s);
    assert(s.push(c).drop_last() =~= s);
    let u = s + pat;
    assert(u.subrange(u.len() - pat.len(), u.len() as int) =~= pat);
    assert(u.take(s.len() as int) =~= s);
}

/// Replacing a character changes it wherever it stands and nothing else; leaving one out goes
/// character by character.
pub proof fn replacing_is_charwise(s: Seq<char>, a: char, b: char, x: char)
    ensures
        replace_char(s, a, b).len() == s.len(),
        forall|i: int|
            0 <= i < s.len() ==> (#[trigger] replace_char(s, a, b)[i]) == if s[i] == a {
                b
            } else {
                s[i]
            },
        without_char(Seq::empty(), a).len() == 0,
        without_char(s.push(a), a) == without_char(s, a),
        x != a ==> without_char(s.push(x), a) == without_char(s, a).push(x),
{
    assert(s.push(a).drop_last() =~= s);
    assert(s.push(x).drop_last() =~= s);
}

/// A text is all of one kind where its first character is of the kind and the rest all is; a
/// text without characters is all of every kind.
pub proof fn kinds_go_character_by_character(c: char, s: Seq<char>)
    ensures
        all_digits(Seq::empty()) && all_alnum(Seq::empty()) && all_hex(Seq::empty()) && all_lower(
            Seq::empty(),
        ),
        all_digits(seq![c] + s) <==> is_digit(c) && all_digits(s),
        all_alnum(seq![c] + s) <==> is_alnum(c) && all_alnum(s),
        all_hex(seq![c] + s) <==> is_hex(c) && all_hex(s),
        all_lower(seq![c] + s) <==> is_lower(c) && all_lower(s),
{
    let t = seq![c] + s;
    assert(t[0] == c);
    assert(forall|i: int| 0 <= i < s.len() ==> #[trigger] s[i] == t[i + 1]);
    assert(forall|i: int| 0 < i < t.len() ==> #[trigger] t[i] == s[i - 1]);
}

} // verus!
