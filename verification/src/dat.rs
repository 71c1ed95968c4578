//! Reference DAT import and hash lookup.
//!
//! DATs (TOSEC, WHDLoad) are the authoritative source of canonical identity. We
//! parse the Logiqx XML form (`<game name="..."><rom crc sha1 md5 .../></game>`)
//! into [`DatEntry`] records, deriving structured metadata from each canonical
//! name, and match ingested artifacts against them by content hash.

use vstd::prelude::*;

use crate::edition::interpret_flags;
use crate::identity::Hashes;
use crate::naming::parse_tosec;
use crate::text::{
    append_text, chars_of, cut_before, find_char_at, find_text, lowered, owned, same, slice_of,
    split_on_text, string_of, trimmed,
};

verus! {

/// One reference entry: a canonical name plus its content hashes and derived
/// metadata.
#[derive(Debug, Clone, PartialEq, Eq)]
pub struct DatEntry {
    pub source: String,
    pub name: String,
    pub sha1: Option<String>,
    pub crc32: Option<String>,
    pub md5: Option<String>,
    pub title: Option<String>,
    pub version: Option<String>,
    pub language: Option<String>,
    pub publisher: Option<String>,
    pub year: Option<i32>,
    pub disk_no: Option<u32>,
    pub disk_count: Option<u32>,
    pub dump_type: Option<String>,
    pub crack_group: Option<String>,
}

/// What a [`DatEntry`] holds.
#[verifier::ext_equal]
pub struct DatFields {
    pub source: Seq<char>,
    pub name: Seq<char>,
    pub sha1: Option<Seq<char>>,
    pub crc32: Option<Seq<char>>,
    pub md5: Option<Seq<char>>,
    pub title: Option<Seq<char>>,
    pub version: Option<Seq<char>>,
    pub language: Option<Seq<char>>,
    pub publisher: Option<Seq<char>>,
    pub year: Option<i32>,
    pub disk_no: Option<u32>,
    pub disk_count: Option<u32>,
    pub dump_type: Option<Seq<char>>,
    pub crack_group: Option<Seq<char>>,
}

impl View for DatEntry {
    type V = DatFields;

    open spec fn view(&self) -> DatFields {
        DatFields {
            source: self.source@,
            name: self.name@,
            sha1: crate::text::opt_view(self.sha1),
            crc32: crate::text::opt_view(self.crc32),
            md5: crate::text::opt_view(self.md5),
            title: crate::text::opt_view(self.title),
            version: crate::text::opt_view(self.version),
            language: crate::text::opt_view(self.language),
            publisher: crate::text::opt_view(self.publisher),
            year: self.year,
            disk_no: self.disk_no,
            disk_count: self.disk_count,
            dump_type: crate::text::opt_view(self.dump_type),
            crack_group: crate::text::opt_view(self.crack_group),
        }
    }
}

/// An entry that says nothing.
pub open spec fn blank_entry() -> DatFields {
    DatFields {
        source: Seq::empty(),
        name: Seq::empty(),
        sha1: None,
        crc32: None,
        md5: None,
        title: None,
        version: None,
        language: None,
        publisher: None,
        year: None,
        disk_no: None,
        disk_count: None,
        dump_type: None,
        crack_group: None,
    }
}

impl Default for DatEntry {
    fn default() -> (r: DatEntry)
        ensures
            r@ == blank_entry(),
    {
        DatEntry {
            source: String::new(),
            name: String::new(),
            sha1: None,
            crc32: None,
            md5: None,
            title: None,
            version: None,
            language: None,
            publisher: None,
            year: None,
            disk_no: None,
            disk_count: None,
            dump_type: None,
            crack_group: None,
        }
    }
}

/// The value of the first `key="..."` in a tag fragment.
pub open spec fn attr_of(fragment: Seq<char>, key: Seq<char>) -> Option<Seq<char>> {
    let needle = key + "=\""@;
    match crate::text::find(fragment, needle) {
        None => None,
        Some(i) => {
            let rest = fragment.skip(i + needle.len());
            match crate::text::find_char(rest, '"') {
                None => None,
                Some(end) => Some(rest.take(end)),
            }
        },
    }
}

/// A hash as stored: trimmed and lowercase, absent where nothing is left.
pub open spec fn hash_value(h: Option<Seq<char>>) -> Option<Seq<char>> {
    match h {
        None => None,
        Some(s) => crate::edition::unless_empty(crate::text::lower(crate::text::trim(s))),
    }
}

/// What a canonical name adds to an entry.
pub open spec fn with_name(e: DatFields) -> DatFields {
    match crate::naming::tosec(e.name) {
        None => e,
        Some(n) => {
            let info = crate::edition::dump_of(n.flags);
            DatFields {
                title: Some(n.title),
                version: n.version,
                language: n.language,
                publisher: n.publisher,
                year: n.year,
                disk_no: n.disk_no,
                disk_count: n.disk_count,
                dump_type: Some(crate::edition::dump_label(info.dump_type)),
                crack_group: info.crack_group,
                ..e
            }
        },
    }
}

/// The entry of a game block, given what follows its `<game`: nothing where the
/// block has no name or no rom.
pub open spec fn entry_of(chunk: Seq<char>, source: Seq<char>) -> Option<DatFields> {
    match attr_of(crate::text::before(chunk, '>'), "name"@) {
        None => None,
        Some(name) => match crate::text::find(chunk, "<rom"@) {
            None => None,
            Some(at) => {
                let rom = crate::text::before(chunk.skip(at), '>');
                Some(
                    with_name(
                        DatFields {
                            source,
                            name,
                            sha1: hash_value(attr_of(rom, "sha1"@)),
                            crc32: hash_value(attr_of(rom, "crc"@)),
                            md5: hash_value(attr_of(rom, "md5"@)),
                            ..blank_entry()
                        },
                    ),
                )
            },
        },
    }
}

/// The entries of game blocks, in order.
pub open spec fn entries_of(chunks: Seq<Seq<char>>, source: Seq<char>) -> Seq<DatFields>
    decreases chunks.len(),
{
    if chunks.len() == 0 {
        Seq::empty()
    } else {
        let rest = entries_of(chunks.drop_last(), source);
        match entry_of(chunks.last(), source) {
            None => rest,
            Some(e) => rest.push(e),
        }
    }
}

/// The entries of a DAT: one for each `<game` block that has a name and a rom.
pub open spec fn dat_entries(xml: Seq<char>, source: Seq<char>) -> Seq<DatFields> {
    entries_of(crate::text::split_text(xml, "<game"@).skip(1), source)
}

/// What entries hold.
pub open spec fn entry_views(entries: Seq<DatEntry>) -> Seq<DatFields> {
    entries.map_values(|e: DatEntry| e@)
}

/// Extract the value of `key="..."` from a tag fragment.
fn attr(fragment: &[char], key: &str) -> (r: Option<String>)
    ensures
        crate::text::opt_view(r) == attr_of(fragment@, key@),
{
    let mut needle = chars_of(key);
    append_text(&mut needle, "=\"");
    let needle_text = string_of(&needle);
    match find_text(fragment, &needle_text) {
        None => None,
        Some(i) => {
            proof {
                crate::text::lemma_find(fragment@, needle@, 0);
            }
            let size = fragment.len();
            let rest = slice_of(fragment, i + needle.len(), size);
            assert(rest@ =~= fragment@.skip(i + needle@.len()));
            match find_char_at(&rest, '"') {
                None => None,
                Some(end) => {
                    let value = slice_of(&rest, 0, end);
                    assert(value@ =~= rest@.take(end as int));
                    Some(string_of(&value))
                },
            }
        },
    }
}

/// A hash as stored.
fn norm_hash(h: Option<String>) -> (r: Option<String>)
    ensures
        crate::text::opt_view(r) == hash_value(crate::text::opt_view(h)),
{
    match h {
        None => None,
        Some(s) => {
            let c = chars_of(&s);
            let t = trimmed(&c);
            let l = lowered(&t);
            if l.len() == 0 {
                None
            } else {
                Some(string_of(&l))
            }
        },
    }
}

/// Add what a canonical name says to an entry.
fn derive_metadata(e: DatEntry) -> (r: DatEntry)
    ensures
        r@ == with_name(e@),
{
    match parse_tosec(&e.name) {
        None => e,
        Some(parsed) => {
            let info = interpret_flags(&parsed.flags);
            DatEntry {
                source: e.source,
                name: e.name,
                sha1: e.sha1,
                crc32: e.crc32,
                md5: e.md5,
                title: Some(parsed.title),
                version: parsed.version,
                language: parsed.language,
                publisher: parsed.publisher,
                year: parsed.year,
                disk_no: parsed.disk_no,
                disk_count: parsed.disk_count,
                dump_type: Some(owned(info.dump_type.as_str())),
                crack_group: info.crack_group,
            }
        },
    }
}

/// The entry of a game block, given what follows its `<game`.
fn parse_game(chunk: &[char], source: &str) -> (r: Option<DatEntry>)
    ensures
        match r {
            None => entry_of(chunk@, source@) is None,
            Some(e) => entry_of(chunk@, source@) == Some(e@),
        },
{
    let head = cut_before(chunk, '>');
    match attr(&head, "name") {
        None => None,
        Some(name) => {
            // Find the first <rom ...> in this game block.
            match find_text(chunk, "<rom") {
                None => None,
                Some(at) => {
                    proof {
                        crate::text::lemma_find(chunk@, "<rom"@, 0);
                    }
                    let tail = slice_of(chunk, at, chunk.len());
                    assert(tail@ =~= chunk@.skip(at as int));
                    let rom = cut_before(&tail, '>');
                    let sha1 = norm_hash(attr(&rom, "sha1"));
                    let crc32 = norm_hash(attr(&rom, "crc"));
                    let md5 = norm_hash(attr(&rom, "md5"));
                    let e = DatEntry {
                        source: owned(source),
                        name,
                        sha1,
                        crc32,
                        md5,
                        ..DatEntry::default()
                    };
                    Some(derive_metadata(e))
                },
            }
        },
    }
}

/// Parse a Logiqx-format DAT into entries, tagging them with `source`.
pub fn parse_dat(xml: &str, source: &str) -> (r: Vec<DatEntry>)
    ensures
        entry_views(r@) == dat_entries(xml@, source@),
{
    let c = chars_of(xml);
    // Each "<game ...>...</game>" holds a name and one rom.
    let chunks = split_on_text(&c, "<game");
    let ghost cv = crate::text::parts_view(chunks@).skip(1);
    let mut entries: Vec<DatEntry> = Vec::new();
    let mut i: usize = 1;
    assert(cv.take(0) =~= Seq::empty());
    assert(entry_views(entries@) =~= Seq::empty());
    while i < chunks.len()
        invariant
            1 <= i,
            chunks@.len() >= 1,
            i <= chunks@.len(),
            cv == crate::text::parts_view(chunks@).skip(1),
            entry_views(entries@) == entries_of(cv.take(i - 1), source@),
        decreases chunks@.len() - i,
    {
        proof {
            assert(cv.take(i as int).drop_last() =~= cv.take(i - 1));
            assert(cv[i - 1] == chunks@[i as int]@);
        }
        let ghost had = entries@;
        if let Some(e) = parse_game(&chunks[i], source) {
            entries.push(e);
            assert(entry_views(entries@) =~= entry_views(had).push(e@));
        }
        i += 1;
    }
    assert(cv.take(i - 1) =~= cv);
    entries
}

/// Whether the optional hash is `h`.
pub open spec fn is_hash(o: Option<Seq<char>>, h: Seq<char>) -> bool {
    o == Some(h)
}

/// Whether the optional hash is `h`.
fn hash_is(o: &Option<String>, h: &str) -> (r: bool)
    ensures
        r == is_hash(crate::text::opt_view(*o), h@),
{
    match o {
        Some(s) => same(s, h),
        None => false,
    }
}

/// Which of an entry's hashes to go by.
#[derive(Debug, Clone, Copy, PartialEq, Eq, Structural)]
pub enum HashKind {
    Sha1,
    Md5,
    Crc32,
}

/// Whether an entry has the hash of this kind.
pub open spec fn agrees(e: DatFields, hashes: crate::identity::HashFields, kind: HashKind) -> bool {
    match kind {
        HashKind::Sha1 => is_hash(e.sha1, hashes.sha1),
        HashKind::Md5 => is_hash(e.md5, hashes.md5),
        HashKind::Crc32 => is_hash(e.crc32, hashes.crc32),
    }
}

/// Whether position `i` is the first whose entry has the hash of this kind.
pub open spec fn first_agreeing(
    entries: Seq<DatFields>,
    hashes: crate::identity::HashFields,
    kind: HashKind,
    i: int,
) -> bool {
    &&& 0 <= i < entries.len()
    &&& agrees(entries[i], hashes, kind)
    &&& forall|j: int| 0 <= j < i ==> !agrees(#[trigger] entries[j], hashes, kind)
}

/// Whether no entry has the hash of this kind.
pub open spec fn none_agrees(
    entries: Seq<DatFields>,
    hashes: crate::identity::HashFields,
    kind: HashKind,
) -> bool {
    forall|j: int| 0 <= j < entries.len() ==> !agrees(#[trigger] entries[j], hashes, kind)
}

/// Whether position `i` is the match: the first by SHA1, else by MD5, else by CRC32.
pub open spec fn is_match(
    entries: Seq<DatFields>,
    hashes: crate::identity::HashFields,
    i: int,
) -> bool {
    ||| first_agreeing(entries, hashes, HashKind::Sha1, i)
    ||| none_agrees(entries, hashes, HashKind::Sha1) && first_agreeing(
        entries,
        hashes,
        HashKind::Md5,
        i,
    )
    ||| none_agrees(entries, hashes, HashKind::Sha1) && none_agrees(entries, hashes, HashKind::Md5)
        && first_agreeing(entries, hashes, HashKind::Crc32, i)
}

/// Whether no entry has any of the hashes.
pub open spec fn no_match(entries: Seq<DatFields>, hashes: crate::identity::HashFields) -> bool {
    &&& none_agrees(entries, hashes, HashKind::Sha1)
    &&& none_agrees(entries, hashes, HashKind::Md5)
    &&& none_agrees(entries, hashes, HashKind::Crc32)
}

/// The first entry that has the hash of this kind.
fn find_agreeing(entries: &[DatEntry], hashes: &Hashes, kind: HashKind) -> (r: Option<usize>)
    ensures
        match r {
            None => none_agrees(entry_views(entries@), hashes@, kind),
            Some(i) => first_agreeing(entry_views(entries@), hashes@, kind, i as int),
        },
{
    let mut i: usize = 0;
    while i < entries.len()
        invariant
            i <= entries@.len(),
            forall|j: int|
                0 <= j < i ==> !agrees(#[trigger] entry_views(entries@)[j], hashes@, kind),
        decreases entries@.len() - i,
    {
        let e = &entries[i];
        assert(entry_views(entries@)[i as int] == e@);
        let found = match kind {
            HashKind::Sha1 => hash_is(&e.sha1, &hashes.sha1),
            HashKind::Md5 => hash_is(&e.md5, &hashes.md5),
            HashKind::Crc32 => hash_is(&e.crc32, &hashes.crc32),
        };
        if found {
            return Some(i);
        }
        i += 1;
    }
    None
}

/// Find the position of the reference entry whose hash matches `hashes`,
/// preferring SHA1, then MD5, then CRC32.
pub fn match_index(entries: &[DatEntry], hashes: &Hashes) -> (r: Option<usize>)
    ensures
        match r {
            None => no_match(entry_views(entries@), hashes@),
            Some(i) => is_match(entry_views(entries@), hashes@, i as int),
        },
{
    match find_agreeing(entries, hashes, HashKind::Sha1) {
        Some(i) => Some(i),
        None => match find_agreeing(entries, hashes, HashKind::Md5) {
            Some(i) => Some(i),
            None => find_agreeing(entries, hashes, HashKind::Crc32),
        },
    }
}

/// Find the reference entry whose hash matches `hashes`, preferring SHA1, then
/// MD5, then CRC32.
pub fn match_entry<'a>(entries: &'a [DatEntry], hashes: &Hashes) -> (r: Option<&'a DatEntry>)
    ensures
        match r {
            None => no_match(entry_views(entries@), hashes@),
            Some(e) => exists|i: int| #[trigger]
                is_match(entry_views(entries@), hashes@, i) && *e == entries@[i],
        },
{
    match match_index(entries, hashes) {
        Some(i) => Some(&entries[i]),
        None => None,
    }
}

// --- Laws -------------------------------------------------------------------

/// The match is determined by the entries and the hashes.
pub proof fn match_is_unique(
    entries: Seq<DatFields>,
    hashes: crate::identity::HashFields,
    i: int,
    j: int,
)
    requires
        is_match(entries, hashes, i),
        is_match(entries, hashes, j),
    ensures
        i == j,
{
}

/// Every hash of a parsed entry is lowercase, trimmed and not empty, so a match by
/// hash never depends on how a DAT writes it.
pub proof fn parsed_hashes_are_normal(h: Option<Seq<char>>)
    ensures
        hash_value(h) is Some ==> (hash_value(h)->0).len() > 0 && forall|i: int|
            0 <= i < (hash_value(h)->0).len() ==> !crate::text::is_upper(
                #[trigger] (hash_value(h)->0)[i],
            ),
{
}

/// An attribute has the value between the quotes that follow its name, at the first place
/// where the name stands with an equals sign and a quote behind it; it has none where the name
/// so stands nowhere, or no quote closes it.
pub proof fn attribute_is_between_its_quotes(
    a: Seq<char>,
    key: Seq<char>,
    v: Seq<char>,
    b: Seq<char>,
)
    requires
        !v.contains('"'),
        forall|p: Seq<char>, q: Seq<char>|
            a + (key + "=\""@) + (v.push('"') + b) == #[trigger] (p + (key + "=\""@) + q) ==> a.len()
                <= p.len(),
    ensures
        attr_of(a + (key + "=\""@) + (v.push('"') + b), key) == Some(v),
{
    let needle = key + "=\""@;
    let rest = v.push('"') + b;
    let s = a + needle + rest;
    crate::text::finding_gives_the_first_place(s, needle);
    let k = crate::text::find(s, needle)->0;
    assert(s == s.take(k) + needle + s.skip(k + needle.len()));
    assert(k == a.len());
    assert(s.skip(k + needle.len()) =~= rest);
    crate::text::finding_a_character(v, '"', b);
    assert(rest.take(v.len() as int) =~= v);
}

/// An attribute that is not named, or not closed, has no value.
pub proof fn attribute_needs_its_name_and_quotes(fragment: Seq<char>, key: Seq<char>)
    ensures
        attr_of(fragment, key) is Some ==> exists|p: Seq<char>, v: Seq<char>, q: Seq<char>|
            #![trigger p + (key + "=\""@) + (v.push('"') + q)]
            fragment == p + (key + "=\""@) + (v.push('"') + q) && attr_of(fragment, key) == Some(v)
                && !v.contains('"'),
{
    let needle = key + "=\""@;
    crate::text::finding_gives_the_first_place(fragment, needle);
    if let Some(v) = attr_of(fragment, key) {
        let k = crate::text::find(fragment, needle)->0;
        let rest = fragment.skip(k + needle.len());
        crate::text::lemma_find_char(rest, '"', 0);
        let end = crate::text::find_char(rest, '"')->0;
        let q = rest.skip(end + 1);
        assert(rest =~= v.push('"') + q);
        assert(fragment =~= fragment.take(k) + needle + (v.push('"') + q));
    }
}

/// A hash is kept trimmed and in small letters; one that is blank, or absent, is none.
pub proof fn hashes_are_kept_in_small_letters(s: Seq<char>)
    ensures
        hash_value(None) is None,
        crate::text::trim(s).len() == 0 ==> hash_value(Some(s)) is None,
        crate::text::trim(s).len() > 0 ==> hash_value(Some(s)) == Some(
            crate::text::lower(crate::text::trim(s)),
        ),
{
    crate::text::lowering_is_charwise(crate::text::trim(s), s);
}

/// The entries of games go game by game: those of two sequences together are those of the one,
/// then those of the other; a game that is no entry is left out.
pub proof fn entries_go_game_by_game(
    a: Seq<Seq<char>>,
    b: Seq<Seq<char>>,
    chunk: Seq<char>,
    source: Seq<char>,
)
    ensures
        entries_of(a + b, source) == entries_of(a, source) + entries_of(b, source),
        entry_of(chunk, source) is None ==> entries_of(seq![chunk], source).len() == 0,
        entry_of(chunk, source) matches Some(e) ==> entries_of(seq![chunk], source) == seq![e],
    decreases b.len(),
{
    let one = seq![chunk];
    assert(one.drop_last() =~= Seq::<Seq<char>>::empty());
    reveal_with_fuel(entries_of, 2);
    if let Some(e) = entry_of(chunk, source) {
        assert(entries_of(one, source) =~= seq![e]);
    }
    if b.len() == 0 {
        assert(a + b =~= a);
        assert(entries_of(a, source) + entries_of(b, source) =~= entries_of(a, source));
    } else {
        entries_go_game_by_game(a, b.drop_last(), chunk, source);
        assert((a + b).drop_last() =~= a + b.drop_last());
        assert((a + b).last() == b.last());
        assert(entries_of(a + b, source) =~= entries_of(a, source) + entries_of(b, source));
    }
}

/// A DAT without games has no entries; the entries of one with games are those of what stands
/// behind each `<game`, and what stands before the first is no entry.
pub proof fn games_begin_with_their_tag(xml: Seq<char>, source: Seq<char>)
    ensures
        (forall|p: Seq<char>, q: Seq<char>| xml != #[trigger] (p + "<game"@ + q)) ==> dat_entries(
            xml,
            source,
        ).len() == 0,
        crate::text::find(xml, "<game"@) matches Some(k) ==> dat_entries(xml, source) == entries_of(
            crate::text::split_text(xml.skip(k + 5), "<game"@),
            source,
        ),
{
    reveal_strlit("<game");
    assert("<game"@.len() == 5);
    crate::text::finding_gives_the_first_place(xml, "<game"@);
    crate::text::splitting_by_text_cuts_at_the_first(xml, "<game"@);
    let parts = crate::text::split_text(xml, "<game"@);
    match crate::text::find(xml, "<game"@) {
        None => {
            assert(parts.skip(1) =~= Seq::<Seq<char>>::empty());
        },
        Some(k) => {
            let rest = crate::text::split_text(xml.skip(k + 5), "<game"@);
            assert(parts =~= seq![xml.take(k)] + rest);
            assert(parts.skip(1) =~= rest);
            assert(xml == xml.take(k) + "<game"@ + xml.skip(k + 5));
        },
    }
}

/// A game is an entry exactly where its tag has a name and a `<rom` stands in it. The entry has
/// the game's name and the hashes of the first rom, and what the name says where it reads.
pub proof fn entry_tells_its_game(chunk: Seq<char>, source: Seq<char>)
    ensures
        entry_of(chunk, source) is Some <==> attr_of(crate::text::before(chunk, '>'), "name"@) is Some
            && exists|p: Seq<char>, q: Seq<char>| chunk == #[trigger] (p + "<rom"@ + q),
        entry_of(chunk, source) matches Some(e) ==> {
            let rom = crate::text::before(
                chunk.skip(crate::text::find(chunk, "<rom"@)->0),
                '>',
            );
            &&& e.source == source
            &&& Some(e.name) == attr_of(crate::text::before(chunk, '>'), "name"@)
            &&& e.sha1 == hash_value(attr_of(rom, "sha1"@))
            &&& e.crc32 == hash_value(attr_of(rom, "crc"@))
            &&& e.md5 == hash_value(attr_of(rom, "md5"@))
            &&& crate::naming::tosec(e.name) is None ==> e.title is None && e.version is None
                && e.language is None && e.publisher is None && e.year is None && e.disk_no is None
                && e.disk_count is None && e.dump_type is None && e.crack_group is None
            &&& crate::naming::tosec(e.name) matches Some(n) ==> e.title == Some(n.title)
                && e.version == n.version && e.language == n.language && e.publisher == n.publisher
                && e.year == n.year && e.disk_no == n.disk_no && e.disk_count == n.disk_count
                && e.dump_type == Some(
                crate::edition::dump_label(crate::edition::dump_of(n.flags).dump_type),
            ) && e.crack_group == crate::edition::dump_of(n.flags).crack_group
        },
{
    crate::text::finding_gives_the_first_place(chunk, "<rom"@);
    if let Some(k) = crate::text::find(chunk, "<rom"@) {
        assert(chunk == chunk.take(k) + "<rom"@ + chunk.skip(k + "<rom"@.len()));
    }
}

/// A match is by SHA-1 where any entry has that SHA-1, else by MD5 where any has that, else by
/// CRC-32; the first entry with the hash is the match, and there is none exactly where no entry
/// has any of the three.
pub proof fn sha1_outranks_md5_outranks_crc32(
    entries: Seq<DatFields>,
    hashes: crate::identity::HashFields,
    i: int,
    j: int,
)
    requires
        is_match(entries, hashes, i),
        0 <= j < entries.len(),
    ensures
        0 <= i < entries.len(),
        !no_match(entries, hashes),
        entries[j].sha1 == Some(hashes.sha1) ==> entries[i].sha1 == Some(hashes.sha1) && i <= j,
        entries[j].md5 == Some(hashes.md5) ==> entries[i].sha1 == Some(hashes.sha1)
            || entries[i].md5 == Some(hashes.md5) && i <= j,
        entries[j].crc32 == Some(hashes.crc32) ==> entries[i].sha1 == Some(hashes.sha1)
            || entries[i].md5 == Some(hashes.md5) || entries[i].crc32 == Some(hashes.crc32) && i
            <= j,
        entries[i].sha1 == Some(hashes.sha1) || entries[i].md5 == Some(hashes.md5)
            || entries[i].crc32 == Some(hashes.crc32),
{
    assert(agrees(entries[j], hashes, HashKind::Sha1) <==> entries[j].sha1 == Some(hashes.sha1));
    assert(agrees(entries[j], hashes, HashKind::Md5) <==> entries[j].md5 == Some(hashes.md5));
    assert(agrees(entries[j], hashes, HashKind::Crc32) <==> entries[j].crc32 == Some(
        hashes.crc32,
    ));
}

/// Nothing matches exactly where no entry has the SHA-1, the MD5 or the CRC-32.
pub proof fn no_match_means_no_hash(entries: Seq<DatFields>, hashes: crate::identity::HashFields)
    ensures
        no_match(entries, hashes) <==> forall|j: int|
            0 <= j < entries.len() ==> (#[trigger] entries[j]).sha1 != Some(hashes.sha1)
                && entries[j].md5 != Some(hashes.md5) && entries[j].crc32 != Some(hashes.crc32),
{
    if no_match(entries, hashes) {
        assert forall|j: int| 0 <= j < entries.len() implies (#[trigger] entries[j]).sha1 != Some(
            hashes.sha1,
        ) && entries[j].md5 != Some(hashes.md5) && entries[j].crc32 != Some(hashes.crc32) by {
            assert(!agrees(entries[j], hashes, HashKind::Sha1));
            assert(!agrees(entries[j], hashes, HashKind::Md5));
            assert(!agrees(entries[j], hashes, HashKind::Crc32));
        }
    }
}

} // verus!
