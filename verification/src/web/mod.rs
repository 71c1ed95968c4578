//! What the HTTP layer answers: statuses, names of downloads, and archives.
//!
//! Single-user and self-hosted, so there is no auth.

pub mod page;

use std::io::Write;

use vstd::prelude::*;

use crate::error::{Error, ErrorKind};
use crate::text::{
    alnum, append_chars, append_text, chars_of, concat, integer_chars, owned, same, string_of,
};

verus! {

// --- Errors -----------------------------------------------------------------

/// The status of a reply to a request that failed: not found, bad request, else
/// internal error.
pub open spec fn status_of(kind: ErrorKind) -> u16 {
    match kind {
        ErrorKind::NotFound => 404,
        ErrorKind::UnsupportedType => 400,
        ErrorKind::Invalid => 400,
        _ => 500,
    }
}

/// The status of a reply to a request that failed.
pub fn status_code(e: &Error) -> (r: u16)
    ensures
        r == status_of(e@.kind),
{
    match e.kind() {
        ErrorKind::NotFound => 404,
        ErrorKind::UnsupportedType => 400,
        ErrorKind::Invalid => 400,
        _ => 500,
    }
}

/// The error for something that does not exist: what it is, and its name.
pub fn not_found(what: &str, name: &str) -> (e: Error)
    ensures
        e@ == (crate::error::Fault {
            kind: ErrorKind::NotFound,
            text: what@ + seq![' '] + name@,
        }),
{
    let mut c = chars_of(what);
    c.push(' ');
    append_text(&mut c, name);
    assert(c@ =~= what@ + seq![' '] + name@);
    Error::NotFound(string_of(&c))
}

// --- Requests ---------------------------------------------------------------

/// Whether the list of releases is to keep the incomplete ones only.
pub fn wants_incomplete(status: Option<&str>) -> (r: bool)
    ensures
        r == (crate::text::opt_str_view(status) == Some("incomplete"@)),
{
    match status {
        Some(s) => same(s, "incomplete"),
        None => false,
    }
}

/// The source that an imported DAT is tagged with: `TOSEC` where none is named.
pub fn import_source(source: Option<&str>) -> (r: String)
    ensures
        r@ == (match crate::text::opt_str_view(source) {
            Some(s) => s,
            None => "TOSEC"@,
        }),
{
    match source {
        Some(s) => owned(s),
        None => owned("TOSEC"),
    }
}

/// The lineage that a path segment names.
pub open spec fn tag_of_segment(segment: Seq<char>) -> Seq<char> {
    if segment == "-"@ {
        Seq::empty()
    } else {
        segment
    }
}

/// The lineage that a path segment names. "-" is the reserved segment for the original
/// (no-group) set — its stored lineage tag is the empty string, which can't be an empty
/// path segment.
pub fn set_tag(segment: &str) -> (r: String)
    ensures
        r@ == tag_of_segment(segment@),
{
    if same(segment, "-") {
        let none = String::new();
        assert(none@ =~= Seq::<char>::empty());
        none
    } else {
        owned(segment)
    }
}

// --- Names of downloads -----------------------------------------------------

/// A lineage as it stands in a filename.
pub open spec fn safe_tag(tag: Seq<char>) -> Seq<char> {
    if tag.len() == 0 {
        "original"@
    } else {
        Seq::new(
            tag.len(),
            |i: int|
                if crate::text::is_alnum(tag[i]) {
                    tag[i]
                } else {
                    '_'
                },
        )
    }
}

/// A lineage as it stands in a filename: what is not alphanumeric becomes `_`, and the
/// no-group lineage is `original`.
fn safe_name(tag: &str) -> (r: Vec<char>)
    ensures
        r@ == safe_tag(tag@),
{
    let c = chars_of(tag);
    if c.len() == 0 {
        return chars_of("original");
    }
    let mut r: Vec<char> = Vec::new();
    let mut i: usize = 0;
    while i < c.len()
        invariant
            i <= c@.len(),
            c@ == tag@,
            c@.len() > 0,
            r@ == safe_tag(tag@).take(i as int),
        decreases c@.len() - i,
    {
        r.push(
            if alnum(c[i]) {
                c[i]
            } else {
                '_'
            },
        );
        i += 1;
        assert(r@ =~= safe_tag(tag@).take(i as int));
    }
    assert(r@ =~= safe_tag(tag@));
    r
}

/// How a download is named.
pub open spec fn attachment_of(name: Seq<char>) -> Seq<char> {
    "attachment; filename=\""@ + name + "\""@
}

/// How a download is named.
pub fn attachment(name: &str) -> (r: String)
    ensures
        r@ == attachment_of(name@),
{
    let head = concat("attachment; filename=\"", name);
    concat(&head, "\"")
}

/// How the archive of a set is named: `set-{id}-{lineage}.zip`.
pub fn set_attachment(id: i64, tag: &str) -> (r: String)
    ensures
        r@ == attachment_of(
            "set-"@ + crate::text::integer(id as int) + "-"@ + safe_tag(tag@) + ".zip"@,
        ),
{
    let mut c = chars_of("set-");
    append_chars(&mut c, &integer_chars(id));
    append_text(&mut c, "-");
    append_chars(&mut c, &safe_name(tag));
    append_text(&mut c, ".zip");
    attachment(&string_of(&c))
}

/// How the archive of an Edition is named: `edition-{id}.zip`.
pub fn edition_attachment(id: i64) -> (r: String)
    ensures
        r@ == attachment_of("edition-"@ + crate::text::integer(id as int) + ".zip"@),
{
    let mut c = chars_of("edition-");
    append_chars(&mut c, &integer_chars(id));
    append_text(&mut c, ".zip");
    attachment(&string_of(&c))
}

// --- Archives ---------------------------------------------------------------

/// A zip archive that is being written.
#[verifier::external_body]
pub struct ZipBuilder {
    inner: zip::ZipWriter<std::io::Cursor<Vec<u8>>>,
}

/// The files that an archive holds so far: their names and their data.
pub uninterp spec fn zip_files(b: ZipBuilder) -> Seq<(Seq<char>, Seq<u8>)>;

/// Calls `zip::ZipWriter::new`: an archive that holds nothing yet.
#[verifier::external_body]
fn zip_new() -> (b: ZipBuilder)
    ensures
        zip_files(b).len() == 0,
{
    ZipBuilder { inner: zip::ZipWriter::new(std::io::Cursor::new(Vec::new())) }
}

/// Whether an archive with these files takes a file of this name, or the text of the
/// error.
pub uninterp spec fn zip_started(
    files: Seq<(Seq<char>, Seq<u8>)>,
    name: Seq<char>,
) -> Result<(), Seq<char>>;

/// Whether a name is none of those that the files have.
pub open spec fn is_new_name(files: Seq<(Seq<char>, Seq<u8>)>, name: Seq<char>) -> bool {
    forall|i: int| 0 <= i < files.len() ==> (#[trigger] files[i]).0 != name
}

/// Calls `zip::ZipWriter::start_file`, without compression: the archive then holds one
/// more file, which is empty, or says why not. A name that the archive already holds is
/// refused. A name of more than 65535 bytes does not fit its header, and the call
/// panics on it.
#[verifier::external_body]
fn zip_start(b: &mut ZipBuilder, name: &str) -> (r: Result<(), String>)
    requires
        crate::identity::byte_len(name@) <= 0xffff,
    ensures
        match r {
            Ok(_) => zip_started(zip_files(*old(b)), name@) is Ok && is_new_name(
                zip_files(*old(b)),
                name@,
            ) && zip_files(*final(b)) == zip_files(*old(b)).push((name@, Seq::empty())),
            Err(t) => zip_started(zip_files(*old(b)), name@) == Err::<(), Seq<char>>(t@),
        },
{
    let opts = zip::write::SimpleFileOptions::default()
        .compression_method(zip::CompressionMethod::Stored);
    match b.inner.start_file(name, opts) {
        Ok(_) => Ok(()),
        Err(e) => Err(e.to_string()),
    }
}

/// Whether the last file of an archive takes this data, or the text of the error.
pub uninterp spec fn zip_written(
    files: Seq<(Seq<char>, Seq<u8>)>,
    data: Seq<u8>,
) -> Result<(), Seq<char>>;

/// Calls `write_all` of `zip::ZipWriter`: the file that was started last then holds the
/// data too, or the call says why not.
#[verifier::external_body]
fn zip_write(b: &mut ZipBuilder, data: &[u8]) -> (r: Result<(), String>)
    requires
        zip_files(*old(b)).len() > 0,
    ensures
        match r {
            Ok(_) => zip_written(zip_files(*old(b)), data@) is Ok && zip_files(*final(b))
                == zip_files(*old(b)).drop_last().push(
                (zip_files(*old(b)).last().0, zip_files(*old(b)).last().1 + data@),
            ),
            Err(t) => zip_written(zip_files(*old(b)), data@) == Err::<(), Seq<char>>(t@),
        },
{
    match b.inner.write_all(data) {
        Ok(_) => Ok(()),
        Err(e) => Err(e.to_string()),
    }
}

/// The bytes of an archive with these files, or the text of the error.
pub uninterp spec fn zip_finished(files: Seq<(Seq<char>, Seq<u8>)>) -> Result<Seq<u8>, Seq<char>>;

/// Calls `zip::ZipWriter::finish`: the bytes of the archive, or why there are none.
/// They depend on its files alone: entries carry a fixed date, as the crate's `time`
/// feature is off.
#[verifier::external_body]
fn zip_finish(b: ZipBuilder) -> (r: Result<Vec<u8>, String>)
    ensures
        crate::ingest::bytes_or_text(r) == zip_finished(zip_files(b)),
{
    match b.inner.finish() {
        Ok(c) => Ok(c.into_inner()),
        Err(e) => Err(e.to_string()),
    }
}

/// What files hold.
pub open spec fn archive_views(files: Seq<(String, Vec<u8>)>) -> Seq<(Seq<char>, Seq<u8>)> {
    files.map_values(|f: (String, Vec<u8>)| (f.0@, f.1@))
}

/// What an archive comes to when the first `n` files are added to it one after the
/// other, up to the first error.
pub open spec fn archived(files: Seq<(Seq<char>, Seq<u8>)>, n: nat) -> Result<
    Seq<(Seq<char>, Seq<u8>)>,
    crate::error::Fault,
>
    decreases n,
{
    if n == 0 {
        Ok(Seq::empty())
    } else {
        let f = files[n - 1];
        match archived(files, (n - 1) as nat) {
            Err(e) => Err(e),
            Ok(had) => match zip_started(had, f.0) {
                Err(t) => Err(crate::error::Fault { kind: ErrorKind::Zip, text: t }),
                Ok(_) => match zip_written(had.push((f.0, Seq::empty())), f.1) {
                    Err(t) => Err(crate::error::Fault { kind: ErrorKind::Io, text: t }),
                    Ok(_) => Ok(had.push(f)),
                },
            },
        }
    }
}

/// The archive of files, or the first error.
pub open spec fn archive_of(files: Seq<(Seq<char>, Seq<u8>)>) -> Result<
    Seq<u8>,
    crate::error::Fault,
> {
    match archived(files, files.len()) {
        Err(e) => Err(e),
        Ok(all) => match zip_finished(all) {
            Err(t) => Err(crate::error::Fault { kind: ErrorKind::Zip, text: t }),
            Ok(b) => Ok(b),
        },
    }
}

/// The first error is what an archive ends in.
proof fn lemma_archive_error(files: Seq<(Seq<char>, Seq<u8>)>, k: nat, n: nat)
    requires
        k <= n,
        archived(files, k) is Err,
    ensures
        archived(files, n) == archived(files, k),
    decreases n,
{
    if k < n {
        lemma_archive_error(files, k, (n - 1) as nat);
    }
}

/// Whether every name fits the header of an archive's entry.
pub open spec fn names_fit(files: Seq<(Seq<char>, Seq<u8>)>) -> bool {
    forall|i: int|
        0 <= i < files.len() ==> crate::identity::byte_len((#[trigger] files[i]).0) <= 0xffff
}

/// Whether every name fits the header of an archive's entry.
pub fn can_archive(files: &[(String, Vec<u8>)]) -> (r: bool)
    ensures
        r == names_fit(archive_views(files@)),
{
    let ghost fv = archive_views(files@);
    let mut i: usize = 0;
    while i < files.len()
        invariant
            i <= files@.len(),
            fv == archive_views(files@),
            forall|j: int|
                0 <= j < i ==> crate::identity::byte_len((#[trigger] fv[j]).0) <= 0xffff,
        decreases files@.len() - i,
    {
        assert(fv[i as int].0 == files@[i as int].0@);
        if files[i].0.as_str().as_bytes().len() > 0xffff {
            return false;
        }
        i += 1;
    }
    true
}

/// Build an in-memory zip of `(name, bytes)` files, each already canonically named.
pub fn build_zip(files: &[(String, Vec<u8>)]) -> (r: Result<Vec<u8>, Error>)
    requires
        names_fit(archive_views(files@)),
    ensures
        crate::ingest::bytes_or_fault(r) == archive_of(archive_views(files@)),
{
    let ghost fv = archive_views(files@);
    let mut b = zip_new();
    let mut i: usize = 0;
    assert(zip_files(b) =~= Seq::empty());
    while i < files.len()
        invariant
            i <= files@.len(),
            fv == archive_views(files@),
            names_fit(fv),
            archived(fv, i as nat) == Ok::<Seq<(Seq<char>, Seq<u8>)>, crate::error::Fault>(
                zip_files(b),
            ),
        decreases files@.len() - i,
    {
        let f = &files[i];
        let ghost had = zip_files(b);
        assert(fv[i as int] == (f.0@, f.1@));
        match zip_start(&mut b, &f.0) {
            Err(t) => {
                proof {
                    lemma_archive_error(fv, (i + 1) as nat, fv.len());
                }
                return Err(Error::Zip(t));
            },
            Ok(_) => {},
        }
        match zip_write(&mut b, &f.1) {
            Err(t) => {
                proof {
                    lemma_archive_error(fv, (i + 1) as nat, fv.len());
                }
                return Err(Error::Io(t));
            },
            Ok(_) => {},
        }
        proof {
            let started = had.push((f.0@, Seq::<u8>::empty()));
            assert(started.drop_last() =~= had);
            assert(Seq::<u8>::empty() + f.1@ =~= f.1@);
            assert(zip_files(b) =~= had.push((f.0@, f.1@)));
        }
        i += 1;
    }
    match zip_finish(b) {
        Ok(bytes) => Ok(bytes),
        Err(t) => Err(Error::Zip(t)),
    }
}

// --- Laws -------------------------------------------------------------------

/// An archive that is built holds the files it was given, in order, and nothing else.
pub proof fn archive_holds_its_files(files: Seq<(Seq<char>, Seq<u8>)>, n: nat)
    requires
        n <= files.len(),
    ensures
        archived(files, n) matches Ok(all) ==> all == files.take(n as int),
    decreases n,
{
    if n > 0 {
        archive_holds_its_files(files, (n - 1) as nat);
        assert(files.take(n as int) =~= files.take(n - 1).push(files[n - 1]));
    } else {
        assert(files.take(0) =~= Seq::empty());
    }
}

/// The reserved segment names the original set, and every other segment names itself.
pub proof fn segments_name_lineages(tag: Seq<char>)
    ensures
        tag_of_segment("-"@).len() == 0,
        tag != "-"@ ==> tag_of_segment(tag) == tag,
{
}

/// What is not found is answered 404, what is asked for wrongly 400, and everything else 500.
pub proof fn errors_are_answered_by_kind(kind: ErrorKind)
    ensures
        status_of(kind) == 404 <==> kind is NotFound,
        status_of(kind) == 400 <==> kind is UnsupportedType || kind is Invalid,
        status_of(kind) == 500 <==> kind is Io || kind is Db || kind is Zip || kind is Decode,
{
}

/// A lineage's tag in a file name keeps its letters and digits, with an underscore for every
/// other character; the lineage without a tag is called original.
pub proof fn file_names_hold_letters_and_digits(tag: Seq<char>)
    ensures
        tag.len() == 0 ==> safe_tag(tag) == "original"@,
        tag.len() > 0 ==> safe_tag(tag).len() == tag.len() && forall|i: int|
            0 <= i < tag.len() ==> (crate::text::is_alnum(tag[i]) ==> #[trigger] safe_tag(tag)[i]
                == tag[i]) && (!crate::text::is_alnum(tag[i]) ==> safe_tag(tag)[i] == '_'),
        crate::text::all_alnum(tag) && tag.len() > 0 ==> safe_tag(tag) == tag,
{
    if crate::text::all_alnum(tag) && tag.len() > 0 {
        assert(safe_tag(tag) =~= tag);
    }
}

/// A download is named by the quoted name of its file.
pub proof fn downloads_are_named(name: Seq<char>)
    ensures
        attachment_of(name) == "attachment; filename=\""@ + name + "\""@,
{
}

} // verus!
