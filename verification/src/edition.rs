//! The Title -> Edition -> Artifact identity model.
//!
//! Scene "dump flags" (`[cr GROUP]`, `[t +N]`, `[h]`, `[f]`, `[b]`, `[a2]`, ...)
//! are interpreted into a [`DumpInfo`]. The [`EditionKey`] is the dedup grouping
//! key: it keeps version, language, publisher and disk number but strips all
//! scene flags, so crack/trainer/hack variants of one logical disk collapse into
//! a single Edition.

use vstd::prelude::*;

use crate::naming::{count_digits, TosecName};
use crate::order::{group_by, Ordered};
use crate::text::{
    chars_of, clone_opt, find_char_at, has_text, is_text, lowered, opt_num_before,
    opt_text_before, parse_u32, same, same_opt, slice_of, string_of, text_before,
    trim_string, trimmed,
};

verus! {

/// The base nature of a dump.
#[derive(Debug, Clone, Copy, PartialEq, Eq, Structural)]
pub enum DumpType {
    Original,
    Cracked,
    Hacked,
    Modified,
    Trainer,
}

/// The stored form of a dump type.
pub open spec fn dump_label(d: DumpType) -> Seq<char> {
    match d {
        DumpType::Original => "original"@,
        DumpType::Cracked => "cracked"@,
        DumpType::Hacked => "hacked"@,
        DumpType::Modified => "modified"@,
        DumpType::Trainer => "trainer"@,
    }
}

/// The dump type of a stored form; anything unknown is an original.
pub open spec fn dump_of_label(s: Seq<char>) -> DumpType {
    if s == "cracked"@ {
        DumpType::Cracked
    } else if s == "hacked"@ {
        DumpType::Hacked
    } else if s == "modified"@ {
        DumpType::Modified
    } else if s == "trainer"@ {
        DumpType::Trainer
    } else {
        DumpType::Original
    }
}

/// The display class of a dump type.
pub open spec fn dump_class(d: DumpType) -> Seq<char> {
    match d {
        DumpType::Original => "original"@,
        DumpType::Cracked => "cracked"@,
        DumpType::Hacked | DumpType::Modified | DumpType::Trainer => "hacked"@,
    }
}

impl DumpType {
    /// The stored string form.
    pub fn as_str(&self) -> (r: &'static str)
        ensures
            r@ == dump_label(*self),
    {
        match self {
            DumpType::Original => "original",
            DumpType::Cracked => "cracked",
            DumpType::Hacked => "hacked",
            DumpType::Modified => "modified",
            DumpType::Trainer => "trainer",
        }
    }

    /// Parse the stored string form; unknown values fall back to `Original`.
    pub fn from_label(s: &str) -> (r: DumpType)
        ensures
            r == dump_of_label(s@),
    {
        if same(s, "cracked") {
            DumpType::Cracked
        } else if same(s, "hacked") {
            DumpType::Hacked
        } else if same(s, "modified") {
            DumpType::Modified
        } else if same(s, "trainer") {
            DumpType::Trainer
        } else {
            DumpType::Original
        }
    }

    /// Fold the five stored dump types into the three classes the browse UI
    /// colour-codes by: `original`, `cracked`, `hacked`. `Modified` and `Trainer`
    /// both read as `hacked` (a modified game); the "+N TRAINER" chip re-surfaces
    /// `Trainer` separately from this class.
    pub fn class3(&self) -> (r: &'static str)
        ensures
            r@ == dump_class(*self),
    {
        match self {
            DumpType::Original => "original",
            DumpType::Cracked => "cracked",
            DumpType::Hacked => "hacked",
            DumpType::Modified => "hacked",
            DumpType::Trainer => "hacked",
        }
    }
}

/// The stored form of a dump type reads back as that dump type.
pub proof fn dump_label_round_trip(d: DumpType)
    ensures
        dump_of_label(dump_label(d)) == d,
{
    reveal_strlit("original");
    reveal_strlit("cracked");
    reveal_strlit("hacked");
    reveal_strlit("modified");
    reveal_strlit("trainer");
    assert("original"@[0] == 'o' && "cracked"@[0] == 'c' && "hacked"@[0] == 'h' && "modified"@[0]
        == 'm' && "trainer"@[0] == 't');
}

/// The category of a Title.
#[derive(Debug, Clone, Copy, PartialEq, Eq, Structural)]
pub enum Category {
    Game,
    Tool,
    Demo,
}

/// The stored form of a category.
pub open spec fn category_label(c: Category) -> Seq<char> {
    match c {
        Category::Game => "game"@,
        Category::Tool => "tool"@,
        Category::Demo => "demo"@,
    }
}

impl Category {
    /// The stored string form.
    pub fn as_str(&self) -> (r: &'static str)
        ensures
            r@ == category_label(*self),
    {
        match self {
            Category::Game => "game",
            Category::Tool => "tool",
            Category::Demo => "demo",
        }
    }
}

/// A qualifier that denotes a demo release.
pub open spec fn is_demo_qualifier(q: Seq<char>) -> bool {
    crate::text::contains_text(q, "demo"@) || q == "preview"@
}

/// True when a qualifier denotes a demo release.
pub fn qualifier_is_demo(q: &str) -> (r: bool)
    ensures
        r == is_demo_qualifier(q@),
{
    let c = chars_of(q);
    has_text(&c, "demo") || is_text(&c, "preview")
}

/// The category that a qualifier and a DAT source give.
pub open spec fn category_of(qualifier: Option<Seq<char>>, source: Option<Seq<char>>) -> Category {
    if qualifier is Some && is_demo_qualifier(qualifier->0) {
        Category::Demo
    } else if source is Some {
        let s = crate::text::lower(source->0);
        if crate::text::contains_text(s, "demo"@) {
            Category::Demo
        } else if crate::text::contains_text(s, "application"@) || crate::text::contains_text(
            s,
            "tool"@,
        ) || crate::text::contains_text(s, "util"@) {
            Category::Tool
        } else {
            Category::Game
        }
    } else {
        Category::Game
    }
}

/// Infer a Title's category: a demo qualifier wins, then a DAT source that
/// denotes demos/tools, else `Game`.
pub fn infer_category(qualifier: Option<&str>, dat_source: Option<&str>) -> (r: Category)
    ensures
        r == category_of(
            crate::text::opt_str_view(qualifier),
            crate::text::opt_str_view(dat_source),
        ),
{
    if let Some(q) = qualifier {
        if qualifier_is_demo(q) {
            return Category::Demo;
        }
    }
    if let Some(src) = dat_source {
        let c = chars_of(src);
        let s = lowered(&c);
        if has_text(&s, "demo") {
            return Category::Demo;
        }
        if has_text(&s, "application") || has_text(&s, "tool") || has_text(&s, "util") {
            return Category::Tool;
        }
    }
    Category::Game
}

// --- Dump flags -------------------------------------------------------------

/// Interpreted scene attributes for a single artifact.
#[derive(Debug, Clone, PartialEq, Eq)]
pub struct DumpInfo {
    pub dump_type: DumpType,
    pub crack_group: Option<String>,
    pub trainer: Option<String>,
    pub bad: bool,
    pub virus: bool,
    pub over: bool,
    pub under: bool,
    /// 0 = base dump, 1 = `[a]`, 2 = `[a2]`, ...
    pub alt_index: u32,
    /// `[!]` verified-good marker.
    pub verified_good: bool,
    /// Number of modifying flags (cr/h/f/m/t) — used by primary ranking.
    pub modifications: u32,
    /// Crack lineage tag (the crack/hack group), for multi-disk set coherence.
    pub lineage: Option<String>,
}

/// What a [`DumpInfo`] holds.
#[verifier::ext_equal]
pub struct DumpFields {
    pub dump_type: DumpType,
    pub crack_group: Option<Seq<char>>,
    pub trainer: Option<Seq<char>>,
    pub bad: bool,
    pub virus: bool,
    pub over: bool,
    pub under: bool,
    pub alt_index: u32,
    pub verified_good: bool,
    pub modifications: u32,
    pub lineage: Option<Seq<char>>,
}

impl View for DumpInfo {
    type V = DumpFields;

    open spec fn view(&self) -> DumpFields {
        DumpFields {
            dump_type: self.dump_type,
            crack_group: crate::text::opt_view(self.crack_group),
            trainer: crate::text::opt_view(self.trainer),
            bad: self.bad,
            virus: self.virus,
            over: self.over,
            under: self.under,
            alt_index: self.alt_index,
            verified_good: self.verified_good,
            modifications: self.modifications,
            lineage: crate::text::opt_view(self.lineage),
        }
    }
}

impl DumpFields {
    /// Markers that permanently disqualify an artifact from being primary.
    pub open spec fn disqualified(self) -> bool {
        self.bad || self.virus || self.over || self.under
    }
}

impl DumpInfo {
    /// True for markers that permanently disqualify an artifact from being primary.
    pub fn disqualified(&self) -> (r: bool)
        ensures
            r == self@.disqualified(),
    {
        self.bad || self.virus || self.over || self.under
    }

    /// A copy of this record.
    pub fn copy(&self) -> (r: DumpInfo)
        ensures
            r@ == self@,
    {
        DumpInfo {
            dump_type: self.dump_type,
            crack_group: clone_opt(&self.crack_group),
            trainer: clone_opt(&self.trainer),
            bad: self.bad,
            virus: self.virus,
            over: self.over,
            under: self.under,
            alt_index: self.alt_index,
            verified_good: self.verified_good,
            modifications: self.modifications,
            lineage: clone_opt(&self.lineage),
        }
    }
}

/// The tag of a flag: what stands before the first space.
pub open spec fn flag_tag(raw: Seq<char>) -> Seq<char> {
    let t = crate::text::trim(raw);
    match crate::text::find_char(t, ' ') {
        None => t,
        Some(i) => t.take(i),
    }
}

/// The argument of a flag: what follows the first space, trimmed.
pub open spec fn flag_arg(raw: Seq<char>) -> Seq<char> {
    let t = crate::text::trim(raw);
    match crate::text::find_char(t, ' ') {
        None => Seq::empty(),
        Some(i) => crate::text::trim(t.skip(i + 1)),
    }
}

/// A text, unless it is empty.
pub open spec fn unless_empty(s: Seq<char>) -> Option<Seq<char>> {
    if s.len() == 0 {
        None
    } else {
        Some(s)
    }
}

/// `a`, or `b` where `a` is absent.
pub open spec fn or_else(a: Option<Seq<char>>, b: Option<Seq<char>>) -> Option<Seq<char>> {
    match a {
        Some(_) => a,
        None => b,
    }
}

/// One more, up to the largest count.
pub open spec fn one_more(n: u32) -> u32 {
    if n == u32::MAX {
        n
    } else {
        (n + 1) as u32
    }
}

/// The number an alternate tag (`a`, `a2`, `a3`, ...) carries: 1 where it carries
/// none, or none that fits.
pub open spec fn alt_number(tag: Seq<char>) -> u32 {
    let rest = tag.skip(1);
    let digits = rest.take(crate::naming::digit_run(rest) as int);
    match crate::text::as_u32(digits) {
        Some(n) => n,
        None => 1,
    }
}

/// What the flags seen so far say.
#[verifier::ext_equal]
pub struct SceneFields {
    pub saw_crack: bool,
    pub saw_hack: bool,
    pub saw_modified: bool,
    pub saw_trainer: bool,
    pub crack_group: Option<Seq<char>>,
    pub trainer: Option<Seq<char>>,
    pub bad: bool,
    pub virus: bool,
    pub over: bool,
    pub under: bool,
    pub alt_index: u32,
    pub verified_good: bool,
    pub modifications: u32,
    pub lineage: Option<Seq<char>>,
}

/// No flag seen.
pub open spec fn no_flags() -> SceneFields {
    SceneFields {
        saw_crack: false,
        saw_hack: false,
        saw_modified: false,
        saw_trainer: false,
        crack_group: None,
        trainer: None,
        bad: false,
        virus: false,
        over: false,
        under: false,
        alt_index: 0,
        verified_good: false,
        modifications: 0,
        lineage: None,
    }
}

/// What a flag's tag stands for.
#[derive(Debug, Clone, Copy, PartialEq, Eq, Structural)]
pub enum FlagKind {
    Crack,
    Hack,
    Fix,
    Modified,
    Trainer,
    Bad,
    Virus,
    Over,
    Under,
    Good,
    /// An alternate dump (`a`, `a2`, ...), by its number.
    Alternate(u32),
    Other,
}

/// What a tag stands for.
pub open spec fn kind_of(tag: Seq<char>) -> FlagKind {
    if tag == "cr"@ {
        FlagKind::Crack
    } else if tag == "h"@ {
        FlagKind::Hack
    } else if tag == "f"@ {
        FlagKind::Fix
    } else if tag == "m"@ {
        FlagKind::Modified
    } else if tag == "t"@ {
        FlagKind::Trainer
    } else if tag == "b"@ {
        FlagKind::Bad
    } else if tag == "v"@ {
        FlagKind::Virus
    } else if tag == "o"@ {
        FlagKind::Over
    } else if tag == "u"@ {
        FlagKind::Under
    } else if tag == "!"@ {
        FlagKind::Good
    } else if tag.len() > 0 && tag[0] == 'a' {
        FlagKind::Alternate(alt_number(tag))
    } else {
        FlagKind::Other
    }
}

/// What one more flag says.
pub open spec fn add_flag(s: SceneFields, raw: Seq<char>) -> SceneFields {
    add_kind(s, kind_of(flag_tag(raw)), flag_arg(raw))
}

/// What one more flag says, of its kind and its argument.
pub open spec fn add_kind(s: SceneFields, kind: FlagKind, arg: Seq<char>) -> SceneFields {
    match kind {
        FlagKind::Crack => SceneFields {
            saw_crack: true,
            modifications: one_more(s.modifications),
            crack_group: or_else(s.crack_group, unless_empty(arg)),
            lineage: or_else(s.lineage, unless_empty(arg)),
            ..s
        },
        FlagKind::Hack => SceneFields {
            saw_hack: true,
            modifications: one_more(s.modifications),
            lineage: or_else(s.lineage, unless_empty(arg)),
            ..s
        },
        FlagKind::Fix => SceneFields {
            saw_modified: true,
            modifications: one_more(s.modifications),
            lineage: or_else(s.lineage, unless_empty(arg)),
            ..s
        },
        FlagKind::Modified => SceneFields {
            saw_modified: true,
            modifications: one_more(s.modifications),
            ..s
        },
        FlagKind::Trainer => SceneFields {
            saw_trainer: true,
            modifications: one_more(s.modifications),
            trainer: Some(arg),
            ..s
        },
        FlagKind::Bad => SceneFields { bad: true, ..s },
        FlagKind::Virus => SceneFields { virus: true, ..s },
        FlagKind::Over => SceneFields { over: true, ..s },
        FlagKind::Under => SceneFields { under: true, ..s },
        FlagKind::Good => SceneFields { verified_good: true, ..s },
        FlagKind::Alternate(n) => SceneFields { alt_index: n, ..s },
        FlagKind::Other => s,
    }
}

/// What flags say, one after the other.
pub open spec fn scene_of(flags: Seq<Seq<char>>) -> SceneFields
    decreases flags.len(),
{
    if flags.len() == 0 {
        no_flags()
    } else {
        add_flag(scene_of(flags.drop_last()), flags.last())
    }
}

/// The nature of a dump: a crack outranks a hack, a hack a modification, and that
/// a trainer.
pub open spec fn dump_type_of(s: SceneFields) -> DumpType {
    if s.saw_crack {
        DumpType::Cracked
    } else if s.saw_hack {
        DumpType::Hacked
    } else if s.saw_modified {
        DumpType::Modified
    } else if s.saw_trainer {
        DumpType::Trainer
    } else {
        DumpType::Original
    }
}

/// The scene attributes that flags give.
pub open spec fn dump_of(flags: Seq<Seq<char>>) -> DumpFields {
    let s = scene_of(flags);
    DumpFields {
        dump_type: dump_type_of(s),
        crack_group: s.crack_group,
        trainer: s.trainer,
        bad: s.bad,
        virus: s.virus,
        over: s.over,
        under: s.under,
        alt_index: s.alt_index,
        verified_good: s.verified_good,
        modifications: s.modifications,
        lineage: s.lineage,
    }
}

/// The tag and the argument of a flag.
fn split_flag(raw: &str) -> (r: (Vec<char>, Vec<char>))
    ensures
        r.0@ == flag_tag(raw@),
        r.1@ == flag_arg(raw@),
{
    let c = chars_of(raw);
    let t = trimmed(&c);
    match find_char_at(&t, ' ') {
        None => {
            let tag = slice_of(&t, 0, t.len());
            assert(tag@ =~= t@);
            (tag, Vec::new())
        },
        Some(i) => {
            let end = t.len();
            let tag = slice_of(&t, 0, i);
            let rest = slice_of(&t, i + 1, end);
            assert(tag@ =~= t@.take(i as int));
            assert(rest@ =~= t@.skip(i + 1));
            (tag, trimmed(&rest))
        },
    }
}

/// What a tag stands for.
fn flag_kind(tag: &[char]) -> (r: FlagKind)
    ensures
        r == kind_of(tag@),
{
    if is_text(tag, "cr") {
        FlagKind::Crack
    } else if is_text(tag, "h") {
        FlagKind::Hack
    } else if is_text(tag, "f") {
        FlagKind::Fix
    } else if is_text(tag, "m") {
        FlagKind::Modified
    } else if is_text(tag, "t") {
        FlagKind::Trainer
    } else if is_text(tag, "b") {
        FlagKind::Bad
    } else if is_text(tag, "v") {
        FlagKind::Virus
    } else if is_text(tag, "o") {
        FlagKind::Over
    } else if is_text(tag, "u") {
        FlagKind::Under
    } else if is_text(tag, "!") {
        FlagKind::Good
    } else if tag.len() > 0 && tag[0] == 'a' {
        FlagKind::Alternate(alternate_number(tag))
    } else {
        FlagKind::Other
    }
}

/// The number an alternate tag carries.
fn alternate_number(tag: &[char]) -> (r: u32)
    requires
        tag@.len() > 0,
    ensures
        r == alt_number(tag@),
{
    let len = tag.len();
    let n = count_digits(tag, 1);
    assert(1 + n <= len);
    let digits = slice_of(tag, 1, 1 + n);
    assert(digits@ =~= tag@.skip(1).take(n as int));
    match parse_u32(&digits) {
        Some(k) => k,
        None => 1,
    }
}

/// The flags seen so far.
struct Scene {
    saw_crack: bool,
    saw_hack: bool,
    saw_modified: bool,
    saw_trainer: bool,
    info: DumpInfo,
}

impl Scene {
    spec fn fields(self) -> SceneFields {
        SceneFields {
            saw_crack: self.saw_crack,
            saw_hack: self.saw_hack,
            saw_modified: self.saw_modified,
            saw_trainer: self.saw_trainer,
            crack_group: crate::text::opt_view(self.info.crack_group),
            trainer: crate::text::opt_view(self.info.trainer),
            bad: self.info.bad,
            virus: self.info.virus,
            over: self.info.over,
            under: self.info.under,
            alt_index: self.info.alt_index,
            verified_good: self.info.verified_good,
            modifications: self.info.modifications,
            lineage: crate::text::opt_view(self.info.lineage),
        }
    }

    /// Count one more modifying flag.
    fn counted(self) -> (r: Scene)
        ensures
            r.fields() == (SceneFields {
                modifications: one_more(self.fields().modifications),
                ..self.fields()
            }),
    {
        let mut s = self;
        if s.info.modifications < u32::MAX {
            s.info.modifications = s.info.modifications + 1;
        }
        s
    }

    /// Count one more modifying flag, and remember the first group that is named.
    fn counted_for(self, group: &[char]) -> (r: Scene)
        ensures
            r.fields() == (SceneFields {
                modifications: one_more(self.fields().modifications),
                lineage: or_else(self.fields().lineage, unless_empty(group@)),
                ..self.fields()
            }),
    {
        let mut s = self.counted();
        if s.info.lineage.is_none() && group.len() > 0 {
            s.info.lineage = Some(string_of(group));
        }
        s
    }

    /// Take in one crack flag.
    fn cracked(self, group: &[char]) -> (r: Scene)
        ensures
            r.fields() == add_kind(self.fields(), FlagKind::Crack, group@),
    {
        let mut s = self.counted_for(group);
        s.saw_crack = true;
        if s.info.crack_group.is_none() && group.len() > 0 {
            s.info.crack_group = Some(string_of(group));
        }
        s
    }

    /// Take in one flag that modifies.
    fn modified(self, kind: FlagKind, arg: &[char]) -> (r: Scene)
        requires
            kind is Hack || kind is Fix || kind is Modified || kind is Trainer,
        ensures
            r.fields() == add_kind(self.fields(), kind, arg@),
    {
        match kind {
            FlagKind::Hack => {
                let mut s = self.counted_for(arg);
                s.saw_hack = true;
                s
            },
            FlagKind::Fix => {
                let mut s = self.counted_for(arg);
                s.saw_modified = true;
                s
            },
            FlagKind::Modified => {
                let mut s = self.counted();
                s.saw_modified = true;
                s
            },
            _ => {
                let mut s = self.counted();
                s.saw_trainer = true;
                s.info.trainer = Some(string_of(arg));
                s
            },
        }
    }

    /// Take in one flag that marks.
    fn marked(self, kind: FlagKind) -> (r: Scene)
        requires
            kind is Bad || kind is Virus || kind is Over || kind is Under || kind is Good
                || kind is Alternate || kind is Other,
        ensures
            r.fields() == add_kind(self.fields(), kind, Seq::empty()),
    {
        let mut s = self;
        match kind {
            FlagKind::Bad => {
                s.info.bad = true;
            },
            FlagKind::Virus => {
                s.info.virus = true;
            },
            FlagKind::Over => {
                s.info.over = true;
            },
            FlagKind::Under => {
                s.info.under = true;
            },
            FlagKind::Good => {
                s.info.verified_good = true;
            },
            FlagKind::Alternate(n) => {
                s.info.alt_index = n;
            },
            _ => {},
        }
        s
    }

    /// Take in one flag.
    fn taken(self, raw: &str) -> (r: Scene)
        ensures
            r.fields() == add_flag(self.fields(), raw@),
    {
        let (tag, arg) = split_flag(raw);
        let kind = flag_kind(&tag);
        match kind {
            FlagKind::Crack => self.cracked(&arg),
            FlagKind::Hack => self.modified(kind, &arg),
            FlagKind::Fix => self.modified(kind, &arg),
            FlagKind::Modified => self.modified(kind, &arg),
            FlagKind::Trainer => self.modified(kind, &arg),
            _ => self.marked(kind),
        }
    }
}

/// Interpret raw bracket flag tokens into a [`DumpInfo`].
pub fn interpret_flags(flags: &[String]) -> (r: DumpInfo)
    ensures
        r@ == dump_of(crate::text::views(flags@)),
{
    let mut scene = Scene {
        saw_crack: false,
        saw_hack: false,
        saw_modified: false,
        saw_trainer: false,
        info: DumpInfo {
            dump_type: DumpType::Original,
            crack_group: None,
            trainer: None,
            bad: false,
            virus: false,
            over: false,
            under: false,
            alt_index: 0,
            verified_good: false,
            modifications: 0,
            lineage: None,
        },
    };
    let ghost fv = crate::text::views(flags@);
    let mut i: usize = 0;
    while i < flags.len()
        invariant
            i <= flags@.len(),
            fv == crate::text::views(flags@),
            scene.fields() == scene_of(fv.take(i as int)),
        decreases flags@.len() - i,
    {
        assert(fv.take(i + 1).drop_last() =~= fv.take(i as int));
        scene = scene.taken(&flags[i]);
        i += 1;
    }
    assert(fv.take(i as int) =~= fv);
    let mut info = scene.info;
    info.dump_type = if scene.saw_crack {
        DumpType::Cracked
    } else if scene.saw_hack {
        DumpType::Hacked
    } else if scene.saw_modified {
        DumpType::Modified
    } else if scene.saw_trainer {
        DumpType::Trainer
    } else {
        DumpType::Original
    };
    info
}

// --- Edition keys -----------------------------------------------------------

/// The Edition grouping key. Scene flags are deliberately absent; version,
/// language, publisher and disk number are retained.
#[derive(Debug, Clone, PartialEq, Eq, PartialOrd, Ord)]
pub struct EditionKey {
    pub title: String,
    pub version: Option<String>,
    pub language: Option<String>,
    pub publisher: Option<String>,
    pub qualifier: Option<String>,
    pub disk_no: Option<u32>,
    pub disk_count: Option<u32>,
}

/// What an [`EditionKey`] holds.
#[verifier::ext_equal]
pub struct KeyFields {
    pub title: Seq<char>,
    pub version: Option<Seq<char>>,
    pub language: Option<Seq<char>>,
    pub publisher: Option<Seq<char>>,
    pub qualifier: Option<Seq<char>>,
    pub disk_no: Option<u32>,
    pub disk_count: Option<u32>,
}

impl View for EditionKey {
    type V = KeyFields;

    open spec fn view(&self) -> KeyFields {
        KeyFields {
            title: self.title@,
            version: crate::text::opt_view(self.version),
            language: crate::text::opt_view(self.language),
            publisher: crate::text::opt_view(self.publisher),
            qualifier: crate::text::opt_view(self.qualifier),
            disk_no: self.disk_no,
            disk_count: self.disk_count,
        }
    }
}

/// The order of Edition keys: field by field, the first that differs decides.
pub open spec fn key_lt(a: KeyFields, b: KeyFields) -> bool {
    ||| crate::text::text_lt(a.title, b.title)
    ||| a.title == b.title && {
        ||| crate::text::opt_text_lt(a.version, b.version)
        ||| a.version == b.version && {
            ||| crate::text::opt_text_lt(a.language, b.language)
            ||| a.language == b.language && {
                ||| crate::text::opt_text_lt(a.publisher, b.publisher)
                ||| a.publisher == b.publisher && {
                    ||| crate::text::opt_text_lt(a.qualifier, b.qualifier)
                    ||| a.qualifier == b.qualifier && {
                        ||| crate::text::opt_num_lt(a.disk_no, b.disk_no)
                        ||| a.disk_no == b.disk_no && crate::text::opt_num_lt(
                            a.disk_count,
                            b.disk_count,
                        )
                    }
                }
            }
        }
    }
}

/// The order of Edition keys is a strict total order.
proof fn lemma_key_order(a: KeyFields, b: KeyFields, c: KeyFields)
    ensures
        key_lt(a, b) ==> !key_lt(b, a),
        key_lt(a, b) && key_lt(b, c) ==> key_lt(a, c),
        key_lt(a, b) || key_lt(b, a) || a == b,
{
    crate::text::lemma_text_lt_asym(a.title, b.title);
    crate::text::lemma_text_lt_asym(b.title, a.title);
    crate::text::lemma_text_lt_total(a.title, b.title);
    if crate::text::text_lt(a.title, b.title) && crate::text::text_lt(b.title, c.title) {
        crate::text::lemma_text_lt_trans(a.title, b.title, c.title);
    }
    crate::order::lemma_opt_text_order(a.version, b.version, c.version);
    crate::order::lemma_opt_text_order(b.version, a.version, c.version);
    crate::order::lemma_opt_text_order(a.language, b.language, c.language);
    crate::order::lemma_opt_text_order(b.language, a.language, c.language);
    crate::order::lemma_opt_text_order(a.publisher, b.publisher, c.publisher);
    crate::order::lemma_opt_text_order(b.publisher, a.publisher, c.publisher);
    crate::order::lemma_opt_text_order(a.qualifier, b.qualifier, c.qualifier);
    crate::order::lemma_opt_text_order(b.qualifier, a.qualifier, c.qualifier);
}

impl Ordered for EditionKey {
    open spec fn lt(a: KeyFields, b: KeyFields) -> bool {
        key_lt(a, b)
    }

    proof fn asymmetric(a: KeyFields, b: KeyFields) {
        lemma_key_order(a, b, a);
    }

    proof fn transitive(a: KeyFields, b: KeyFields, c: KeyFields) {
        lemma_key_order(a, b, c);
    }

    proof fn total(a: KeyFields, b: KeyFields) {
        lemma_key_order(a, b, a);
    }

    fn before(&self, other: &Self) -> (r: bool) {
        if !same(&self.title, &other.title) {
            proof {
                crate::text::lemma_text_lt_asym(self.title@, other.title@);
            }
            return text_before(&self.title, &other.title);
        }
        proof {
            crate::text::lemma_text_lt_asym(self.title@, other.title@);
            crate::order::lemma_opt_text_order(self@.version, other@.version, self@.version);
            crate::order::lemma_opt_text_order(self@.language, other@.language, self@.language);
            crate::order::lemma_opt_text_order(self@.publisher, other@.publisher, self@.publisher);
            crate::order::lemma_opt_text_order(self@.qualifier, other@.qualifier, self@.qualifier);
        }
        if !same_opt(&self.version, &other.version) {
            return opt_text_before(&self.version, &other.version);
        }
        if !same_opt(&self.language, &other.language) {
            return opt_text_before(&self.language, &other.language);
        }
        if !same_opt(&self.publisher, &other.publisher) {
            return opt_text_before(&self.publisher, &other.publisher);
        }
        if !same_opt(&self.qualifier, &other.qualifier) {
            return opt_text_before(&self.qualifier, &other.qualifier);
        }
        if self.disk_no != other.disk_no {
            return opt_num_before(self.disk_no, other.disk_no);
        }
        opt_num_before(self.disk_count, other.disk_count)
    }
}

/// The Edition key of a parsed name: its flags and year are dropped.
pub open spec fn key_of(n: crate::naming::TosecFields) -> KeyFields {
    KeyFields {
        title: crate::text::trim(n.title),
        version: n.version,
        language: n.language,
        publisher: n.publisher,
        qualifier: n.qualifier,
        disk_no: n.disk_no,
        disk_count: n.disk_count,
    }
}

/// The key of a whole multi-disk set.
pub open spec fn set_key_of(n: crate::naming::TosecFields) -> KeyFields {
    KeyFields { disk_no: None, ..key_of(n) }
}

/// Derive the Edition key for a parsed name (flags dropped).
pub fn edition_key(name: &TosecName) -> (r: EditionKey)
    ensures
        r@ == key_of(name@),
{
    EditionKey {
        title: trim_string(&name.title),
        version: clone_opt(&name.version),
        language: clone_opt(&name.language),
        publisher: clone_opt(&name.publisher),
        qualifier: clone_opt(&name.qualifier),
        disk_no: name.disk_no,
        disk_count: name.disk_count,
    }
}

/// The Edition key used for grouping *whole multi-disk sets* — like [`edition_key`]
/// but ignoring the individual disk number, so all disks of one release share it.
pub fn set_key(name: &TosecName) -> (r: EditionKey)
    ensures
        r@ == set_key_of(name@),
{
    let mut k = edition_key(name);
    k.disk_no = None;
    k
}

/// Whether `groups` maps each Edition key to the positions of its members: keys in
/// order, each with at least one member, members in ascending order, and every
/// position of `items` under its own key.
pub open spec fn groups_editions(
    items: Seq<TosecName>,
    groups: Seq<(EditionKey, Vec<usize>)>,
) -> bool {
    &&& forall|g: int, h: int|
        0 <= g < h < groups.len() ==> key_lt((#[trigger] groups[g]).0@, (#[trigger] groups[h]).0@)
    &&& forall|g: int| 0 <= g < groups.len() ==> (#[trigger] groups[g]).1@.len() > 0
    &&& forall|g: int, i: int|
        0 <= g < groups.len() && 0 <= i < groups[g].1@.len() ==> (#[trigger] groups[g].1@[i])
            < items.len() && key_of(items[groups[g].1@[i] as int]@) == groups[g].0@
    &&& forall|g: int, i: int, j: int|
        0 <= g < groups.len() && 0 <= i < j < groups[g].1@.len() ==> (#[trigger] groups[g].1@[i])
            < (#[trigger] groups[g].1@[j])
    &&& forall|j: int| 0 <= j < items.len() ==> #[trigger] has_member(groups, j)
}

/// Whether position `j` stands in one of the groups.
pub open spec fn has_member(groups: Seq<(EditionKey, Vec<usize>)>, j: int) -> bool {
    exists|g: int, i: int|
        0 <= g < groups.len() && 0 <= i < groups[g].1@.len() && #[trigger] groups[g].1@[i] == j
}

/// Group parsed names by Edition, returning the keys in order, each with the
/// indices of its members within `items`.
pub fn group_by_edition(items: &[TosecName]) -> (r: Vec<(EditionKey, Vec<usize>)>)
    ensures
        groups_editions(items@, r@),
{
    let mut keys: Vec<Option<EditionKey>> = Vec::new();
    let mut n: usize = 0;
    while n < items.len()
        invariant
            n <= items@.len(),
            keys@.len() == n,
            forall|j: int|
                0 <= j < n ==> (#[trigger] keys@[j]) is Some && keys@[j]->0@ == key_of(items@[j]@),
        decreases items@.len() - n,
    {
        keys.push(Some(edition_key(&items[n])));
        n += 1;
    }
    let mut groups = group_by(&keys);
    let ghost all = groups@;
    let mut out: Vec<(EditionKey, Vec<usize>)> = Vec::new();
    while groups.len() > 0
        invariant
            groups@.len() + out@.len() == all.len(),
            groups@ == all.skip(out@.len() as int),
            keys@.len() == items@.len(),
            forall|j: int|
                0 <= j < items@.len() ==> (#[trigger] keys@[j]) is Some && keys@[j]->0@ == key_of(
                    items@[j]@,
                ),
            crate::order::is_grouping(keys@, all),
            forall|g: int|
                0 <= g < out@.len() ==> (#[trigger] out@[g]).1 == all[g] && out@[g].0@
                    == crate::order::group_key(keys@, all[g]@),
        decreases groups@.len(),
    {
        let ghost g = out@.len() as int;
        assert(groups@[0] == all[g]);
        assert(crate::order::is_group(keys@, all[g]@));
        let members = groups.remove(0);
        assert(members@[0] < keys@.len());
        let key = edition_key(&items[members[0]]);
        out.push((key, members));
    }
    proof {
        assert(out@.len() == all.len());
        assert forall|g: int, h: int| 0 <= g < h < out@.len() implies key_lt(
            (#[trigger] out@[g]).0@,
            (#[trigger] out@[h]).0@,
        ) by {
            assert(out@[g].1 == all[g] && out@[h].1 == all[h]);
            let ka = crate::order::group_key(keys@, all[g]@);
            let kb = crate::order::group_key(keys@, all[h]@);
            assert(<EditionKey as Ordered>::lt(ka, kb));
        }
        assert forall|g: int| 0 <= g < out@.len() implies (#[trigger] out@[g]).1@.len() > 0 by {
            assert(crate::order::is_group(keys@, all[g]@));
        }
        assert forall|g: int, i: int|
            0 <= g < out@.len() && 0 <= i < out@[g].1@.len() implies (#[trigger] out@[g].1@[i])
            < items@.len() && key_of(items@[out@[g].1@[i] as int]@) == out@[g].0@ by {
            assert(crate::order::is_group(keys@, all[g]@));
            assert(all[g]@[i] < keys@.len());
            assert(keys@[all[g]@[i] as int] is Some);
        }
        assert forall|g: int, i: int, j: int|
            0 <= g < out@.len() && 0 <= i < j < out@[g].1@.len() implies (#[trigger] out@[g].1@[i])
            < (#[trigger] out@[g].1@[j]) by {
            assert(crate::order::is_group(keys@, all[g]@));
        }
        assert forall|j: int| 0 <= j < items@.len() implies #[trigger] has_member(out@, j) by {
            assert(keys@[j] is Some);
            assert(crate::order::grouped(all, j));
            let (g, i) = choose|g: int, i: int|
                0 <= g < all.len() && 0 <= i < all[g]@.len() && #[trigger] all[g]@[i] == j;
            assert(out@[g].1@[i] == j);
        }
    }
    out
}

// --- Laws -------------------------------------------------------------------

/// Scene flags never reach the Edition key: a trailing flag on a name leaves its
/// Edition and its set as they were, so crack, trainer and hack variants of one
/// logical disk collapse into a single Edition.
pub proof fn scene_flags_do_not_split_editions(st: Seq<char>, f: Seq<char>)
    requires
        crate::naming::tosec_stem(st) is Some,
        crate::naming::closed_from(st.skip(crate::naming::marker_from(st, 0)->0), 0),
        crate::naming::no_brackets(f),
    ensures
        crate::naming::tosec(st + crate::naming::adf_suffix()) is Some,
        crate::naming::tosec(st + crate::naming::flag_group(f) + crate::naming::adf_suffix()) is Some,
        key_of(
            crate::naming::tosec(
                st + crate::naming::flag_group(f) + crate::naming::adf_suffix(),
            )->0,
        ) == key_of(crate::naming::tosec(st + crate::naming::adf_suffix())->0),
        set_key_of(
            crate::naming::tosec(
                st + crate::naming::flag_group(f) + crate::naming::adf_suffix(),
            )->0,
        ) == set_key_of(crate::naming::tosec(st + crate::naming::adf_suffix())->0),
{
    crate::naming::adf_extension_is_dropped(st);
    crate::naming::adf_extension_is_dropped(st + crate::naming::flag_group(f));
    crate::naming::trailing_flag_only_adds_flag(st, f);
}

/// Names that differ in nothing but their flags and year share an Edition.
pub proof fn edition_ignores_flags_and_year(
    a: crate::naming::TosecFields,
    b: crate::naming::TosecFields,
)
    requires
        a == (crate::naming::TosecFields { flags: a.flags, year: a.year, ..b }),
    ensures
        key_of(a) == key_of(b),
{
}

/// Names that differ in version, language, publisher, qualifier or disk never
/// share an Edition.
pub proof fn distinct_releases_do_not_merge(
    a: crate::naming::TosecFields,
    b: crate::naming::TosecFields,
)
    requires
        a.version != b.version || a.language != b.language || a.publisher != b.publisher
            || a.qualifier != b.qualifier || a.disk_no != b.disk_no || a.disk_count
            != b.disk_count,
    ensures
        key_of(a) != key_of(b),
{
}

/// All disks of one release share its set key.
pub proof fn set_key_ignores_disk_number(n: crate::naming::TosecFields, disk_no: Option<u32>)
    ensures
        set_key_of(crate::naming::TosecFields { disk_no, ..n }) == set_key_of(n),
{
}

/// Whether a flag is tagged with `tag`: trimmed, it is the tag alone, or the tag followed by
/// a space.
pub open spec fn tagged(raw: Seq<char>, tag: Seq<char>) -> bool {
    let t = crate::text::trim(raw);
    t == tag || crate::text::starts_with(t, tag.push(' '))
}

/// What follows the tag of a flag, trimmed; empty where nothing does.
pub open spec fn told(raw: Seq<char>, tag: Seq<char>) -> Seq<char> {
    let t = crate::text::trim(raw);
    if t == tag {
        Seq::empty()
    } else {
        crate::text::trim(t.skip(tag.len() as int + 1))
    }
}

/// Whether a flag modifies: it is a crack (`cr`), a hack (`h`), a fix (`f`), a modification
/// (`m`) or a trainer (`t`).
pub open spec fn modifying(raw: Seq<char>) -> bool {
    tagged(raw, "cr"@) || tagged(raw, "h"@) || tagged(raw, "f"@) || tagged(raw, "m"@) || tagged(
        raw,
        "t"@,
    )
}

/// Whether some flag is tagged with `tag`.
pub open spec fn has_tag(flags: Seq<Seq<char>>, tag: Seq<char>) -> bool {
    exists|i: int| 0 <= i < flags.len() && tagged(#[trigger] flags[i], tag)
}

/// How many flags modify.
pub open spec fn modifying_count(flags: Seq<Seq<char>>) -> nat {
    flags.filter(|f: Seq<char>| modifying(f)).len()
}

/// The tags as characters.
proof fn lemma_tags()
    ensures
        "cr"@ == seq!['c', 'r'],
        "h"@ == seq!['h'],
        "f"@ == seq!['f'],
        "m"@ == seq!['m'],
        "t"@ == seq!['t'],
        "b"@ == seq!['b'],
        "v"@ == seq!['v'],
        "o"@ == seq!['o'],
        "u"@ == seq!['u'],
        "!"@ == seq!['!'],
{
    reveal_strlit("cr");
    reveal_strlit("h");
    reveal_strlit("f");
    reveal_strlit("m");
    reveal_strlit("t");
    reveal_strlit("b");
    reveal_strlit("v");
    reveal_strlit("o");
    reveal_strlit("u");
    reveal_strlit("!");
    assert("cr"@ =~= seq!['c', 'r']);
    assert("h"@ =~= seq!['h']);
    assert("f"@ =~= seq!['f']);
    assert("m"@ =~= seq!['m']);
    assert("t"@ =~= seq!['t']);
    assert("b"@ =~= seq!['b']);
    assert("v"@ =~= seq!['v']);
    assert("o"@ =~= seq!['o']);
    assert("u"@ =~= seq!['u']);
    assert("!"@ =~= seq!['!']);
}

/// A flag is tagged with what stands before its first space.
proof fn lemma_tagged(raw: Seq<char>, tag: Seq<char>)
    requires
        !tag.contains(' '),
    ensures
        tagged(raw, tag) <==> flag_tag(raw) == tag,
        tagged(raw, tag) ==> told(raw, tag) == flag_arg(raw),
{
    let t = crate::text::trim(raw);
    crate::text::lemma_find_char(t, ' ', 0);
    if t == tag {
        assert forall|j: int| 0 <= j < t.len() implies t[j] != ' ' by {
            assert(tag.contains(tag[j]));
        }
        crate::text::lemma_find_char_none(t, ' ', 0);
    } else if crate::text::starts_with(t, tag.push(' ')) {
        let n = tag.len() as int;
        let head = t.subrange(0, n + 1);
        assert(head == tag.push(' '));
        assert(t[n] == head[n]);
        assert forall|j: int| 0 <= j < n implies t[j] != ' ' by {
            assert(t[j] == head[j]);
            assert(tag.contains(tag[j]));
        }
        crate::text::lemma_find_char_is(t, ' ', 0, n);
        assert(t.take(n) =~= tag);
    } else {
        match crate::text::find_char(t, ' ') {
            None => {},
            Some(i) => {
                if t.take(i) == tag {
                    assert(t.subrange(0, i + 1) =~= tag.push(' '));
                }
            },
        }
    }
}

/// What each flag does, by its tag.
proof fn lemma_kind(raw: Seq<char>)
    ensures
        kind_of(flag_tag(raw)) is Crack <==> tagged(raw, "cr"@),
        kind_of(flag_tag(raw)) is Hack <==> tagged(raw, "h"@),
        kind_of(flag_tag(raw)) is Fix <==> tagged(raw, "f"@),
        kind_of(flag_tag(raw)) is Modified <==> tagged(raw, "m"@),
        kind_of(flag_tag(raw)) is Trainer <==> tagged(raw, "t"@),
        kind_of(flag_tag(raw)) is Bad <==> tagged(raw, "b"@),
        kind_of(flag_tag(raw)) is Virus <==> tagged(raw, "v"@),
        kind_of(flag_tag(raw)) is Over <==> tagged(raw, "o"@),
        kind_of(flag_tag(raw)) is Under <==> tagged(raw, "u"@),
        kind_of(flag_tag(raw)) is Good <==> tagged(raw, "!"@),
        kind_of(flag_tag(raw)) is Alternate <==> crate::text::trim(raw).len() > 0
            && crate::text::trim(raw)[0] == 'a',
        tagged(raw, "cr"@) ==> told(raw, "cr"@) == flag_arg(raw),
        tagged(raw, "h"@) ==> told(raw, "h"@) == flag_arg(raw),
        tagged(raw, "f"@) ==> told(raw, "f"@) == flag_arg(raw),
        tagged(raw, "t"@) ==> told(raw, "t"@) == flag_arg(raw),
{
    lemma_tags();
    lemma_tagged(raw, "cr"@);
    lemma_tagged(raw, "h"@);
    lemma_tagged(raw, "f"@);
    lemma_tagged(raw, "m"@);
    lemma_tagged(raw, "t"@);
    lemma_tagged(raw, "b"@);
    lemma_tagged(raw, "v"@);
    lemma_tagged(raw, "o"@);
    lemma_tagged(raw, "u"@);
    lemma_tagged(raw, "!"@);
    let tag = flag_tag(raw);
    assert("cr"@[0] == 'c' && "h"@[0] == 'h' && "f"@[0] == 'f' && "m"@[0] == 'm' && "t"@[0] == 't'
        && "b"@[0] == 'b' && "v"@[0] == 'v' && "o"@[0] == 'o' && "u"@[0] == 'u' && "!"@[0] == '!');
    assert("cr"@.len() == 2);
    let t = crate::text::trim(raw);
    crate::text::lemma_find_char(t, ' ', 0);
    if t.len() > 0 {
        match crate::text::find_char(t, ' ') {
            None => {},
            Some(i) => {
                if i > 0 {
                    assert(t.take(i)[0] == t[0]);
                }
            },
        }
    }
}

/// The modifications of a dump are the number of its flags that modify (`cr`, `h`, `f`, `m`,
/// `t`), up to the largest count.
pub proof fn modifications_are_counted(flags: Seq<Seq<char>>)
    ensures
        dump_of(flags).modifications == if modifying_count(flags) <= u32::MAX {
            modifying_count(flags) as int
        } else {
            u32::MAX as int
        },
    decreases flags.len(),
{
    reveal(Seq::filter);
    if flags.len() > 0 {
        modifications_are_counted(flags.drop_last());
        lemma_kind(flags.last());
    }
}

/// A tag is among flags where it is among the first of them, or is the last one's.
proof fn lemma_has_tag(flags: Seq<Seq<char>>, tag: Seq<char>)
    requires
        flags.len() > 0,
    ensures
        has_tag(flags, tag) <==> has_tag(flags.drop_last(), tag) || tagged(flags.last(), tag),
{
    let init = flags.drop_last();
    if has_tag(flags, tag) {
        let i = choose|i: int| 0 <= i < flags.len() && tagged(#[trigger] flags[i], tag);
        if i < init.len() {
            assert(init[i] == flags[i]);
        }
    }
    if has_tag(init, tag) {
        let i = choose|i: int| 0 <= i < init.len() && tagged(#[trigger] init[i], tag);
        assert(flags[i] == init[i]);
    }
    if tagged(flags.last(), tag) {
        assert(tagged(flags[flags.len() - 1], tag));
    }
}

/// What was seen among flags, by their tags.
proof fn lemma_seen(flags: Seq<Seq<char>>)
    ensures
        scene_of(flags).saw_crack <==> has_tag(flags, "cr"@),
        scene_of(flags).saw_hack <==> has_tag(flags, "h"@),
        scene_of(flags).saw_modified <==> has_tag(flags, "f"@) || has_tag(flags, "m"@),
        scene_of(flags).saw_trainer <==> has_tag(flags, "t"@),
        scene_of(flags).bad <==> has_tag(flags, "b"@),
        scene_of(flags).virus <==> has_tag(flags, "v"@),
        scene_of(flags).over <==> has_tag(flags, "o"@),
        scene_of(flags).under <==> has_tag(flags, "u"@),
        scene_of(flags).verified_good <==> has_tag(flags, "!"@),
        scene_of(flags).trainer is Some <==> has_tag(flags, "t"@),
    decreases flags.len(),
{
    if flags.len() > 0 {
        lemma_seen(flags.drop_last());
        lemma_kind(flags.last());
        lemma_has_tag(flags, "cr"@);
        lemma_has_tag(flags, "h"@);
        lemma_has_tag(flags, "f"@);
        lemma_has_tag(flags, "m"@);
        lemma_has_tag(flags, "t"@);
        lemma_has_tag(flags, "b"@);
        lemma_has_tag(flags, "v"@);
        lemma_has_tag(flags, "o"@);
        lemma_has_tag(flags, "u"@);
        lemma_has_tag(flags, "!"@);
    }
}

/// The nature of a dump follows from its flags: a crack is cracked, whatever else is done to
/// it; a hack that is no crack is hacked; a fix or a modification that is neither is modified;
/// what is only trained is a trainer; and a dump is original exactly where no flag modifies.
pub proof fn dump_type_follows_flags(flags: Seq<Seq<char>>)
    ensures
        dump_of(flags).dump_type is Cracked <==> has_tag(flags, "cr"@),
        dump_of(flags).dump_type is Hacked <==> has_tag(flags, "h"@) && !has_tag(flags, "cr"@),
        dump_of(flags).dump_type is Modified <==> (has_tag(flags, "f"@) || has_tag(flags, "m"@))
            && !has_tag(flags, "cr"@) && !has_tag(flags, "h"@),
        dump_of(flags).dump_type is Trainer <==> has_tag(flags, "t"@) && !has_tag(flags, "cr"@)
            && !has_tag(flags, "h"@) && !has_tag(flags, "f"@) && !has_tag(flags, "m"@),
        dump_of(flags).dump_type is Original <==> forall|i: int|
            0 <= i < flags.len() ==> !modifying(#[trigger] flags[i]),
{
    lemma_seen(flags);
    if exists|i: int| 0 <= i < flags.len() && modifying(#[trigger] flags[i]) {
        let i = choose|i: int| 0 <= i < flags.len() && modifying(#[trigger] flags[i]);
        assert(has_tag(flags, "cr"@) || has_tag(flags, "h"@) || has_tag(flags, "f"@) || has_tag(
            flags,
            "m"@,
        ) || has_tag(flags, "t"@));
    } else {
        assert forall|i: int| 0 <= i < flags.len() implies !modifying(#[trigger] flags[i]) by {}
        if !(dump_of(flags).dump_type is Original) {
            let tag = if has_tag(flags, "cr"@) {
                "cr"@
            } else if has_tag(flags, "h"@) {
                "h"@
            } else if has_tag(flags, "f"@) {
                "f"@
            } else if has_tag(flags, "m"@) {
                "m"@
            } else {
                "t"@
            };
            let i = choose|i: int| 0 <= i < flags.len() && tagged(#[trigger] flags[i], tag);
            assert(modifying(flags[i]));
        }
    }
}

/// Each marker is set exactly where a flag sets it: `b`, `v`, `o`, `u` and `!`. A dump has a
/// trainer exactly where a flag is tagged `t`.
pub proof fn markers_follow_flags(flags: Seq<Seq<char>>)
    ensures
        dump_of(flags).bad <==> has_tag(flags, "b"@),
        dump_of(flags).virus <==> has_tag(flags, "v"@),
        dump_of(flags).over <==> has_tag(flags, "o"@),
        dump_of(flags).under <==> has_tag(flags, "u"@),
        dump_of(flags).verified_good <==> has_tag(flags, "!"@),
        dump_of(flags).trainer is Some <==> has_tag(flags, "t"@),
{
    lemma_seen(flags);
}

/// A dump is disqualified exactly when one of its flags marks it bad (`b`),
/// infected (`v`), overdumped (`o`) or underdumped (`u`).
pub proof fn disqualified_by_marker(flags: Seq<Seq<char>>)
    ensures
        dump_of(flags).disqualified() <==> exists|i: int|
            0 <= i < flags.len() && disqualifying(#[trigger] flags[i]),
{
    lemma_seen(flags);
    let d = dump_of(flags);
    if d.disqualified() {
        let tag = if d.bad {
            "b"@
        } else if d.virus {
            "v"@
        } else if d.over {
            "o"@
        } else {
            "u"@
        };
        let i = choose|i: int| 0 <= i < flags.len() && tagged(#[trigger] flags[i], tag);
        assert(disqualifying(flags[i]));
    }
}

/// A flag that disqualifies: it is tagged `b`, `v`, `o` or `u`.
pub open spec fn disqualifying(raw: Seq<char>) -> bool {
    tagged(raw, "b"@) || tagged(raw, "v"@) || tagged(raw, "o"@) || tagged(raw, "u"@)
}

/// A dump is disqualified by any one of its four markers, and by nothing else.
pub proof fn any_marker_disqualifies(d: DumpFields)
    ensures
        d.bad ==> d.disqualified(),
        d.virus ==> d.disqualified(),
        d.over ==> d.disqualified(),
        d.under ==> d.disqualified(),
        d.disqualified() ==> d.bad || d.virus || d.over || d.under,
{
}

/// Whether a flag names a group: it is a crack, a hack or a fix, and something follows its
/// tag.
pub open spec fn names_group(raw: Seq<char>, group: Seq<char>) -> bool {
    &&& group.len() > 0
    &&& tagged(raw, "cr"@) && told(raw, "cr"@) == group || tagged(raw, "h"@) && told(raw, "h"@)
        == group || tagged(raw, "f"@) && told(raw, "f"@) == group
}

/// The lineage of a dump is the group that the first of its `cr`, `h` and `f` flags with a
/// group names, and its crack group the one that the first `cr` flag with a group names.
pub proof fn first_named_group_is_the_lineage(flags: Seq<Seq<char>>)
    ensures
        match dump_of(flags).lineage {
            Some(g) => exists|i: int|
                0 <= i < flags.len() && names_group(#[trigger] flags[i], g) && forall|j: int|
                    0 <= j < i ==> forall|h: Seq<char>| !names_group(#[trigger] flags[j], h),
            None => forall|j: int|
                0 <= j < flags.len() ==> forall|h: Seq<char>| !names_group(#[trigger] flags[j], h),
        },
        match dump_of(flags).crack_group {
            Some(g) => g.len() > 0 && exists|i: int|
                0 <= i < flags.len() && tagged(#[trigger] flags[i], "cr"@) && told(flags[i], "cr"@)
                    == g && forall|j: int|
                    0 <= j < i && tagged(#[trigger] flags[j], "cr"@) ==> told(flags[j], "cr"@).len()
                        == 0,
            None => forall|j: int|
                0 <= j < flags.len() && tagged(#[trigger] flags[j], "cr"@) ==> told(
                    flags[j],
                    "cr"@,
                ).len() == 0,
        },
    decreases flags.len(),
{
    if flags.len() > 0 {
        let init = flags.drop_last();
        let n = init.len() as int;
        let last = flags.last();
        first_named_group_is_the_lineage(init);
        lemma_kind(last);
        lemma_tags();
        assert(forall|j: int| 0 <= j < n ==> #[trigger] flags[j] == init[j]);
        assert(flags[n] == last);
        match dump_of(init).lineage {
            Some(g) => {
                let i = choose|i: int|
                    0 <= i < init.len() && names_group(#[trigger] init[i], g) && forall|j: int|
                        0 <= j < i ==> forall|h: Seq<char>| !names_group(#[trigger] init[j], h);
                assert(names_group(flags[i], g));
                assert forall|j: int| 0 <= j < i implies forall|h: Seq<char>|
                    !names_group(#[trigger] flags[j], h) by {
                    assert(flags[j] == init[j]);
                }
            },
            None => {
                assert forall|j: int| 0 <= j < n implies forall|h: Seq<char>|
                    !names_group(#[trigger] flags[j], h) by {
                    assert(flags[j] == init[j]);
                }
                match dump_of(flags).lineage {
                    Some(g) => {
                        assert(names_group(flags[n], g));
                    },
                    None => {
                        assert forall|h: Seq<char>| !names_group(last, h) by {}
                    },
                }
            },
        }
        match dump_of(init).crack_group {
            Some(g) => {
                let i = choose|i: int|
                    0 <= i < init.len() && tagged(#[trigger] init[i], "cr"@) && told(
                        init[i],
                        "cr"@,
                    ) == g && forall|j: int|
                        0 <= j < i && tagged(#[trigger] init[j], "cr"@) ==> told(
                            init[j],
                            "cr"@,
                        ).len() == 0;
                assert(tagged(flags[i], "cr"@) && told(flags[i], "cr"@) == g);
                assert forall|j: int| 0 <= j < i && tagged(#[trigger] flags[j], "cr"@) implies told(
                    flags[j],
                    "cr"@,
                ).len() == 0 by {
                    assert(flags[j] == init[j]);
                }
            },
            None => {
                assert forall|j: int| 0 <= j < n && tagged(#[trigger] flags[j], "cr"@) implies told(
                    flags[j],
                    "cr"@,
                ).len() == 0 by {
                    assert(flags[j] == init[j]);
                }
                match dump_of(flags).crack_group {
                    Some(g) => {
                        assert(tagged(flags[n], "cr"@) && told(flags[n], "cr"@) == g);
                    },
                    None => {},
                }
            },
        }
    }
}

/// The trainer of a dump is what its last `t` flag tells.
pub proof fn last_trainer_flag_counts(flags: Seq<Seq<char>>, i: int)
    requires
        0 <= i < flags.len(),
        tagged(flags[i], "t"@),
        forall|j: int| i < j < flags.len() ==> !tagged(#[trigger] flags[j], "t"@),
    ensures
        dump_of(flags).trainer == Some(told(flags[i], "t"@)),
    decreases flags.len(),
{
    lemma_kind(flags.last());
    if i < flags.len() - 1 {
        assert(!tagged(flags[flags.len() - 1], "t"@));
        let init = flags.drop_last();
        assert(init[i] == flags[i]);
        assert forall|j: int| i < j < init.len() implies !tagged(#[trigger] init[j], "t"@) by {
            assert(init[j] == flags[j]);
        }
        last_trainer_flag_counts(init, i);
    }
}

/// Whether a flag marks an alternate: trimmed, it begins with `a`.
pub open spec fn alternate(raw: Seq<char>) -> bool {
    crate::text::trim(raw).len() > 0 && crate::text::trim(raw)[0] == 'a'
}

/// A dump without an alternate flag is a base dump. The last alternate flag counts: `a` alone,
/// or followed by no digit, is the first alternate, and `a` followed by a number that one.
pub proof fn last_alternate_flag_counts(flags: Seq<Seq<char>>, i: int)
    requires
        -1 <= i < flags.len(),
        i >= 0 ==> alternate(flags[i]),
        forall|j: int| i < j < flags.len() ==> !alternate(#[trigger] flags[j]),
    ensures
        i < 0 ==> dump_of(flags).alt_index == 0,
        i >= 0 ==> ({
            let rest = flag_tag(flags[i]).skip(1);
            (rest.len() == 0 || !crate::text::is_digit(rest[0]) ==> dump_of(flags).alt_index == 1)
                && forall|digits: Seq<char>, more: Seq<char>|
                rest == #[trigger] (digits + more) && digits.len() > 0 && crate::text::all_digits(
                    digits,
                ) && (more.len() == 0 || !crate::text::is_digit(more[0]))
                    && crate::text::number(digits) <= u32::MAX ==> dump_of(flags).alt_index
                    == crate::text::number(digits)
        }),
    decreases flags.len(),
{
    if flags.len() > 0 {
        let n = flags.len() - 1;
        lemma_kind(flags.last());
        if i < n {
            assert(!alternate(flags[n]));
            let init = flags.drop_last();
            if i >= 0 {
                assert(init[i] == flags[i]);
            }
            assert forall|j: int| i < j < init.len() implies !alternate(#[trigger] init[j]) by {
                assert(init[j] == flags[j]);
            }
            last_alternate_flag_counts(init, i);
        } else {
            let rest = flag_tag(flags[i]).skip(1);
            crate::naming::lemma_digit_run(rest);
            let run = rest.take(crate::naming::digit_run(rest) as int);
            if rest.len() == 0 || !crate::text::is_digit(rest[0]) {
                assert(run =~= Seq::empty());
            }
            assert forall|digits: Seq<char>, more: Seq<char>|
                rest == #[trigger] (digits + more) && digits.len() > 0 && crate::text::all_digits(
                    digits,
                ) && (more.len() == 0 || !crate::text::is_digit(more[0]))
                    && crate::text::number(digits) <= u32::MAX implies dump_of(flags).alt_index
                == crate::text::number(digits) by {
                crate::naming::lemma_run_is(digits, more);
                assert(run =~= digits);
                assert(crate::text::is_digit(digits[0]));
                assert(crate::text::unsigned(digits) == digits);
                crate::text::lemma_number_bounds(digits, digits.len() as int);
            }
        }
    }
}

/// A demo qualifier makes a demo whatever the source; otherwise the source decides, in any
/// case: one that holds `demo` makes a demo, one that holds `application`, `tool` or `util` a
/// tool. Everything else is a game.
pub proof fn category_follows_qualifier_then_source(
    qualifier: Option<Seq<char>>,
    source: Option<Seq<char>>,
)
    ensures
        (qualifier matches Some(q) && (holds(q, "demo"@) || q == "preview"@)) ==> category_of(
            qualifier,
            source,
        ) is Demo,
        !(qualifier matches Some(q) && (holds(q, "demo"@) || q == "preview"@)) ==> {
            &&& source is None ==> category_of(qualifier, source) is Game
            &&& source matches Some(s) ==> {
                let l = crate::text::lower(s);
                let tool = holds(l, "application"@) || holds(l, "tool"@) || holds(l, "util"@);
                &&& category_of(qualifier, source) is Demo <==> holds(l, "demo"@)
                &&& category_of(qualifier, source) is Tool <==> !holds(l, "demo"@) && tool
            }
        },
{
    if let Some(q) = qualifier {
        lemma_holds(q, "demo"@);
    }
    if let Some(s) = source {
        let l = crate::text::lower(s);
        lemma_holds(l, "demo"@);
        lemma_holds(l, "application"@);
        lemma_holds(l, "tool"@);
        lemma_holds(l, "util"@);
    }
}

/// Whether a text holds another: it is that text with something, or nothing, around it.
pub open spec fn holds(s: Seq<char>, part: Seq<char>) -> bool {
    exists|before: Seq<char>, after: Seq<char>| s == #[trigger] (before + part + after)
}

/// Searching finds a text exactly where it is held.
proof fn lemma_holds(s: Seq<char>, part: Seq<char>)
    ensures
        crate::text::contains_text(s, part) <==> holds(s, part),
{
    crate::text::lemma_find(s, part, 0);
    match crate::text::find(s, part) {
        Some(k) => {
            let before = s.take(k);
            let after = s.skip(k + part.len());
            assert(s =~= before + part + after);
        },
        None => {
            if holds(s, part) {
                let (before, after) = choose|before: Seq<char>, after: Seq<char>|
                    s == #[trigger] (before + part + after);
                let k = before.len() as int;
                assert(s.subrange(k, k + part.len()) =~= part);
                assert(crate::text::stands_at(s, part, k));
            }
        },
    }
}

/// The Edition key of a name has its fields, the title trimmed; the set key has them too, but
/// for the disk.
pub proof fn keys_keep_the_fields(n: crate::naming::TosecFields)
    ensures
        key_of(n).title == crate::text::trim(n.title),
        key_of(n).version == n.version,
        key_of(n).language == n.language,
        key_of(n).publisher == n.publisher,
        key_of(n).qualifier == n.qualifier,
        key_of(n).disk_no == n.disk_no,
        key_of(n).disk_count == n.disk_count,
        set_key_of(n) == (KeyFields { disk_no: None, ..key_of(n) }),
{
}

/// Dump types and categories are stored by their names, in small letters, and what is stored
/// under any other name is read as an original. Of the display classes, cracked is for cracked
/// dumps alone, original for original ones alone, and hacked for all others.
pub proof fn types_are_stored_by_name(d: DumpType, c: Category, s: Seq<char>)
    ensures
        d is Original ==> dump_label(d) == "original"@,
        d is Cracked ==> dump_label(d) == "cracked"@,
        d is Hacked ==> dump_label(d) == "hacked"@,
        d is Modified ==> dump_label(d) == "modified"@,
        d is Trainer ==> dump_label(d) == "trainer"@,
        c is Game ==> category_label(c) == "game"@,
        c is Tool ==> category_label(c) == "tool"@,
        c is Demo ==> category_label(c) == "demo"@,
        dump_of_label(dump_label(d)) == d,
        s != "cracked"@ && s != "hacked"@ && s != "modified"@ && s != "trainer"@
            ==> dump_of_label(s) is Original,
        d is Original ==> dump_class(d) == "original"@,
        d is Cracked ==> dump_class(d) == "cracked"@,
        d is Hacked || d is Modified || d is Trainer ==> dump_class(d) == "hacked"@,
{
    dump_label_round_trip(d);
}

/// Edition keys are ordered by title, then version, language, publisher, qualifier, disk number
/// and disk count: the first of these that differs decides. Absence comes first.
pub proof fn first_different_field_orders_keys(a: KeyFields, b: KeyFields)
    ensures
        !key_lt(a, a),
        crate::text::text_lt(a.title, b.title) ==> key_lt(a, b),
        a.title == b.title ==> {
            &&& comes_before(a.version, b.version) ==> key_lt(a, b)
            &&& a.version == b.version ==> {
                &&& comes_before(a.language, b.language) ==> key_lt(a, b)
                &&& a.language == b.language ==> {
                    &&& comes_before(a.publisher, b.publisher) ==> key_lt(a, b)
                    &&& a.publisher == b.publisher ==> {
                        &&& comes_before(a.qualifier, b.qualifier) ==> key_lt(a, b)
                        &&& a.qualifier == b.qualifier ==> {
                            &&& number_before(a.disk_no, b.disk_no) ==> key_lt(a, b)
                            &&& a.disk_no == b.disk_no && number_before(a.disk_count, b.disk_count)
                                ==> key_lt(a, b)
                        }
                    }
                }
            }
        },
{
    lemma_key_order(a, a, a);
}

/// Whether an optional text is before another: absence before presence, texts by their order.
pub open spec fn comes_before(a: Option<Seq<char>>, b: Option<Seq<char>>) -> bool {
    b is Some && (a is None || crate::text::text_lt(a->0, b->0))
}

/// Whether an optional number is before another: absence before presence, numbers by size.
pub open spec fn number_before(a: Option<u32>, b: Option<u32>) -> bool {
    b is Some && (a is None || a->0 < b->0)
}

/// Names are grouped by Edition: two are in one group exactly where they are of one Edition,
/// every name is in a group, and the names of a group come in the order they were in.
pub proof fn groups_are_editions(
    items: Seq<TosecName>,
    groups: Seq<(EditionKey, Vec<usize>)>,
    g: int,
    i: int,
    h: int,
    j: int,
    k: int,
)
    requires
        groups_editions(items, groups),
        0 <= g < groups.len(),
        0 <= i < groups[g].1@.len(),
        0 <= h < groups.len(),
        0 <= j < groups[h].1@.len(),
    ensures
        groups[g].1@[i] < items.len(),
        g == h <==> key_of(items[groups[g].1@[i] as int]@) == key_of(
            items[groups[h].1@[j] as int]@,
        ),
        g == h && i < j ==> groups[g].1@[i] < groups[h].1@[j],
        g < h ==> key_lt(
            key_of(items[groups[g].1@[i] as int]@),
            key_of(items[groups[h].1@[j] as int]@),
        ),
        0 <= k < items.len() ==> exists|a: int, b: int|
            0 <= a < groups.len() && 0 <= b < groups[a].1@.len() && #[trigger] groups[a].1@[b] == k,
{
    assert(key_of(items[groups[g].1@[i] as int]@) == groups[g].0@);
    assert(key_of(items[groups[h].1@[j] as int]@) == groups[h].0@);
    lemma_key_order(groups[g].0@, groups[h].0@, groups[g].0@);
    lemma_key_order(groups[h].0@, groups[g].0@, groups[h].0@);
    if g < h {
        assert(key_lt(groups[g].0@, groups[h].0@));
    } else if h < g {
        assert(key_lt(groups[h].0@, groups[g].0@));
    }
    if 0 <= k < items.len() {
        assert(has_member(groups, k));
    }
}

} // verus!
