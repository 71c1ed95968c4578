//! Container decoding and the ingest pipeline.
//!
//! Uploads arrive as raw `.adf` or as containers (`.adz` gzip, `.dms` DiskMasher,
//! `.zip`). The [`DiskImage`] trait is the subprocess boundary: raw formats are
//! handled in-process, while `.dms` decoding and filesystem walking are delegated
//! to external tools and degrade gracefully when those are absent.

use std::io::Read;

use vstd::prelude::*;

use crate::error::Error;
use crate::identity::{hash_bytes, Hashes};
use crate::text::{
    append_chars, append_text, chars_of, concat, decimal_chars, ends, is_text, lowered, owned,
    rfind_char_at, slice_of, string_of,
};

verus! {

/// A recognized upload container format.
#[derive(Debug, Clone, Copy, PartialEq, Eq, Structural)]
pub enum Container {
    Adf,
    Adz,
    Dms,
    Zip,
}

/// The stored form of a container.
pub open spec fn container_label(c: Container) -> Seq<char> {
    match c {
        Container::Adf => "adf"@,
        Container::Adz => "adz"@,
        Container::Dms => "dms"@,
        Container::Zip => "zip"@,
    }
}

impl Container {
    /// The stored string form.
    pub fn as_str(&self) -> (r: &'static str)
        ensures
            r@ == container_label(*self),
    {
        match self {
            Container::Adf => "adf",
            Container::Adz => "adz",
            Container::Dms => "dms",
            Container::Zip => "zip",
        }
    }
}

/// One raw ADF produced by decoding an upload.
#[derive(Debug, Clone)]
pub struct DecodedAdf {
    /// Raw ADF bytes.
    pub adf: Vec<u8>,
    /// The top-level container the upload arrived in.
    pub container: Container,
    /// A per-image name (the entry name for zips, else the upload filename).
    pub name: String,
}

/// What a [`DecodedAdf`] holds.
#[verifier::ext_equal]
pub struct AdfFields {
    pub adf: Seq<u8>,
    pub container: Container,
    pub name: Seq<char>,
}

impl View for DecodedAdf {
    type V = AdfFields;

    open spec fn view(&self) -> AdfFields {
        AdfFields { adf: self.adf@, container: self.container, name: self.name@ }
    }
}

/// A file entry found inside an ADF filesystem (for the deferred fuzzy matcher).
#[derive(Debug, Clone, PartialEq, Eq)]
pub struct InnerFile {
    pub path: String,
    pub size: u64,
    pub sha1: String,
}

/// The subprocess boundary: decode containers, hash, and walk filesystems.
pub trait DiskImage {
    /// Decode a container's bytes into one or more raw ADFs.
    fn decode(&self, container: Container, bytes: &[u8], name: &str) -> Result<
        Vec<DecodedAdf>,
        Error,
    >;

    /// Compute the content hashes of a raw ADF.
    fn hash(&self, adf: &[u8]) -> Hashes;

    /// Walk an ADF's filesystem via an external tool; empty when unavailable.
    fn walk_files(&self, adf: &[u8]) -> Result<Vec<InnerFile>, Error>;
}

// --- Detection --------------------------------------------------------------

/// The byte length of a standard double-density ADF.
pub const ADF_LEN: usize = 901_120;

/// The lowercase extension of a filename, empty where it has none.
pub open spec fn extension(filename: Seq<char>) -> Seq<char> {
    match crate::text::rfind_char(filename, '.') {
        None => Seq::empty(),
        Some(i) => crate::text::lower(filename.skip(i + 1)),
    }
}

/// The container of an upload: by extension, else by magic bytes, else by the
/// length of a raw disk image.
pub open spec fn container_of(filename: Seq<char>, bytes: Seq<u8>) -> Option<Container> {
    let ext = extension(filename);
    if ext == "adf"@ {
        Some(Container::Adf)
    } else if ext == "adz"@ {
        Some(Container::Adz)
    } else if ext == "dms"@ {
        Some(Container::Dms)
    } else if ext == "zip"@ {
        Some(Container::Zip)
    } else if bytes.len() >= 2 && bytes[0] == 0x1f && bytes[1] == 0x8b {
        Some(Container::Adz)
    } else if bytes.len() >= 2 && bytes[0] == 0x50 && bytes[1] == 0x4b {
        Some(Container::Zip)
    } else if bytes.len() >= 4 && bytes[0] == 0x44 && bytes[1] == 0x4d && bytes[2] == 0x53
        && bytes[3] == 0x21 {
        Some(Container::Dms)
    } else if bytes.len() == ADF_LEN {
        Some(Container::Adf)
    } else {
        None
    }
}

/// A text as the debug format writes it.
pub uninterp spec fn debug_of(s: Seq<char>) -> Seq<char>;

/// Formats a `str` with `{:?}`: the text in double quotes, escaped.
#[verifier::external_body]
fn debug_text(s: &str) -> (r: String)
    ensures
        r@ == debug_of(s@),
{
    format!("{:?}", s)
}

/// What is said of an upload of no known type, given its extension as the debug
/// format writes it.
pub open spec fn unknown_type(shown: Seq<char>, len: nat) -> crate::error::Fault {
    crate::error::Fault {
        kind: crate::error::ErrorKind::UnsupportedType,
        text: shown + " ("@ + crate::text::decimal(len) + " bytes)"@,
    }
}

/// The error for an upload of no known type, given its extension as the debug
/// format writes it.
pub fn unsupported(shown: &str, len: usize) -> (r: Error)
    ensures
        r@ == unknown_type(shown@, len as nat),
{
    let mut c = chars_of(shown);
    append_text(&mut c, " (");
    append_chars(&mut c, &decimal_chars(len as u64));
    append_text(&mut c, " bytes)");
    Error::UnsupportedType(string_of(&c))
}

/// Detect the container of an upload from its filename extension and magic bytes.
pub fn detect_container(filename: &str, bytes: &[u8]) -> (r: Result<Container, Error>)
    ensures
        match r {
            Ok(c) => container_of(filename@, bytes@) == Some(c),
            Err(e) => container_of(filename@, bytes@) is None && e@ == unknown_type(
                debug_of(extension(filename@)),
                bytes@.len(),
            ),
        },
{
    let f = chars_of(filename);
    let ext: Vec<char> = match rfind_char_at(&f, '.') {
        None => Vec::new(),
        Some(i) => {
            let size = f.len();
            let e = slice_of(&f, i + 1, size);
            assert(e@ =~= f@.skip(i + 1));
            lowered(&e)
        },
    };
    assert(ext@ =~= extension(filename@));
    let n = bytes.len();
    if is_text(&ext, "adf") {
        Ok(Container::Adf)
    } else if is_text(&ext, "adz") {
        Ok(Container::Adz)
    } else if is_text(&ext, "dms") {
        Ok(Container::Dms)
    } else if is_text(&ext, "zip") {
        Ok(Container::Zip)
    } else if n >= 2 && bytes[0] == 0x1f && bytes[1] == 0x8b {
        Ok(Container::Adz)
    } else if n >= 2 && bytes[0] == 0x50 && bytes[1] == 0x4b {
        Ok(Container::Zip)
    } else if n >= 4 && bytes[0] == 0x44 && bytes[1] == 0x4d && bytes[2] == 0x53 && bytes[3]
        == 0x21 {
        Ok(Container::Dms)
    } else if n == ADF_LEN {
        // A raw ADF is a headerless sector dump; accept the standard DD size.
        Ok(Container::Adf)
    } else {
        let shown = debug_text(&string_of(&ext));
        Err(unsupported(&shown, n))
    }
}

// --- Gzip -------------------------------------------------------------------

/// What bytes, or the text of an error, hold.
pub open spec fn bytes_or_text(r: Result<Vec<u8>, String>) -> Result<Seq<u8>, Seq<char>> {
    match r {
        Ok(b) => Ok(b@),
        Err(t) => Err(t@),
    }
}

/// What bytes, or an error, hold.
pub open spec fn bytes_or_fault(r: Result<Vec<u8>, Error>) -> Result<Seq<u8>, crate::error::Fault> {
    match r {
        Ok(b) => Ok(b@),
        Err(e) => Err(e@),
    }
}

/// What reading bytes to the end as a gzip stream gives: the data, or the text of
/// the error.
pub uninterp spec fn gunzipped(bytes: Seq<u8>) -> Result<Seq<u8>, Seq<char>>;

/// Calls `read_to_end` of `flate2::read::GzDecoder`: the uncompressed data, or the
/// text of the error that reading ended in.
#[verifier::external_body]
fn gunzip_stream(bytes: &[u8]) -> (r: Result<Vec<u8>, String>)
    ensures
        bytes_or_text(r) == gunzipped(bytes@),
{
    let mut out = Vec::new();
    match flate2::read::GzDecoder::new(bytes).read_to_end(&mut out) {
        Ok(_) => Ok(out),
        Err(e) => Err(e.to_string()),
    }
}

/// What decoding gives of what a gzip stream gave.
pub open spec fn gunzip_result(r: Result<Seq<u8>, Seq<char>>) -> Result<Seq<u8>, crate::error::Fault> {
    match r {
        Ok(b) => Ok(b),
        Err(t) => Err(
            crate::error::Fault { kind: crate::error::ErrorKind::Decode, text: "adz gunzip failed: "@ + t },
        ),
    }
}

/// Take what a gzip stream gave: its data, or a decoding error.
pub fn gunzip_outcome(r: Result<Vec<u8>, String>) -> (o: Result<Vec<u8>, Error>)
    ensures
        bytes_or_fault(o) == gunzip_result(bytes_or_text(r)),
{
    match r {
        Ok(b) => Ok(b),
        Err(t) => Err(Error::Decode(concat("adz gunzip failed: ", &t))),
    }
}

/// Gunzip `.adz` bytes into a raw ADF.
fn gunzip(bytes: &[u8]) -> (r: Result<Vec<u8>, Error>)
    ensures
        bytes_or_fault(r) == gunzip_result(gunzipped(bytes@)),
{
    gunzip_outcome(gunzip_stream(bytes))
}

// --- Zip --------------------------------------------------------------------

/// What a count, or the text of an error, holds.
pub open spec fn count_or_text(r: Result<usize, String>) -> Result<usize, Seq<char>> {
    match r {
        Ok(n) => Ok(n),
        Err(t) => Err(t@),
    }
}

/// What an archive entry, or the text of an error, holds.
pub open spec fn entry_or_text(r: Result<(bool, String), String>) -> Result<
    (bool, Seq<char>),
    Seq<char>,
> {
    match r {
        Ok(e) => Ok((e.0, e.1@)),
        Err(t) => Err(t@),
    }
}

/// How many entries bytes have as a zip archive, or the text of the error.
pub uninterp spec fn zip_count_of(bytes: Seq<u8>) -> Result<usize, Seq<char>>;

/// Calls `zip::ZipArchive::new` and `len`: the number of entries, or the text of the
/// error that opening the archive ended in.
#[verifier::external_body]
fn zip_count(bytes: &[u8]) -> (r: Result<usize, String>)
    ensures
        count_or_text(r) == zip_count_of(bytes@),
{
    match zip::ZipArchive::new(std::io::Cursor::new(bytes)) {
        Ok(zip) => Ok(zip.len()),
        Err(e) => Err(e.to_string()),
    }
}

/// Whether the entry at `i` of a zip archive is a file, and its name, or the text
/// of the error.
pub uninterp spec fn zip_entry_of(bytes: Seq<u8>, i: usize) -> Result<(bool, Seq<char>), Seq<char>>;

/// Calls `zip::ZipArchive::by_index`, and `is_file` and `name` of the entry: whether
/// it is a file, and its name, or the text of the error that opening ended in.
#[verifier::external_body]
fn zip_entry(bytes: &[u8], i: usize) -> (r: Result<(bool, String), String>)
    ensures
        entry_or_text(r) == zip_entry_of(bytes@, i),
{
    let opened = zip::ZipArchive::new(std::io::Cursor::new(bytes));
    let mut zip = match opened {
        Ok(zip) => zip,
        Err(e) => return Err(e.to_string()),
    };
    let found = zip.by_index(i);
    match found {
        Ok(entry) => Ok((entry.is_file(), entry.name().to_string())),
        Err(e) => Err(e.to_string()),
    }
}

/// The data of the entry at `i` of a zip archive, or the text of the error.
pub uninterp spec fn zip_data_of(bytes: Seq<u8>, i: usize) -> Result<Seq<u8>, Seq<char>>;

/// Calls `zip::ZipArchive::by_index`, and `read_to_end` of the entry: its data, or
/// the text of the error that opening or reading ended in.
#[verifier::external_body]
fn zip_data(bytes: &[u8], i: usize) -> (r: Result<Vec<u8>, String>)
    ensures
        bytes_or_text(r) == zip_data_of(bytes@, i),
{
    let opened = zip::ZipArchive::new(std::io::Cursor::new(bytes));
    let mut zip = match opened {
        Ok(zip) => zip,
        Err(e) => return Err(e.to_string()),
    };
    let found = zip.by_index(i);
    let mut data = Vec::new();
    match found {
        Ok(mut entry) => match entry.read_to_end(&mut data) {
            Ok(_) => Ok(data),
            Err(e) => Err(e.to_string()),
        },
        Err(e) => Err(e.to_string()),
    }
}

/// What to do with an archive entry.
#[derive(Debug, Clone, Copy, PartialEq, Eq, Structural)]
pub enum EntryKind {
    /// A raw disk image.
    Adf,
    /// A gzipped disk image.
    Adz,
    /// Nothing of interest.
    Other,
}

/// What to do with an archive entry, by whether it is a file and by its name.
pub open spec fn kind_of_entry(is_file: bool, name: Seq<char>) -> EntryKind {
    let lower = crate::text::lower(name);
    if is_file && crate::text::ends_with(lower, ".adf"@) {
        EntryKind::Adf
    } else if is_file && crate::text::ends_with(lower, ".adz"@) {
        EntryKind::Adz
    } else {
        EntryKind::Other
    }
}

/// Decide what to do with an archive entry.
pub fn entry_kind(is_file: bool, name: &str) -> (r: EntryKind)
    ensures
        r == kind_of_entry(is_file, name@),
{
    let c = chars_of(name);
    let lower = lowered(&c);
    if !is_file {
        EntryKind::Other
    } else if ends(&lower, ".adf") {
        EntryKind::Adf
    } else if ends(&lower, ".adz") {
        EntryKind::Adz
    } else {
        EntryKind::Other
    }
}

/// What images hold.
pub open spec fn adf_views(adfs: Seq<DecodedAdf>) -> Seq<AdfFields> {
    adfs.map_values(|a: DecodedAdf| a@)
}

/// What images, or an error, hold.
pub open spec fn adfs_or_fault(r: Result<Vec<DecodedAdf>, Error>) -> Result<Seq<AdfFields>, crate::error::Fault> {
    match r {
        Ok(v) => Ok(adf_views(v@)),
        Err(e) => Err(e@),
    }
}

/// The image of an archive entry, given its data and what that is as a gzip stream;
/// nothing for an entry that is no image. The data counts only where the entry is an
/// image, and the stream only where it is a gzipped one.
pub open spec fn image_of(
    entry: Result<(bool, Seq<char>), Seq<char>>,
    data: Result<Seq<u8>, Seq<char>>,
    stream: Result<Seq<u8>, Seq<char>>,
) -> Result<Option<AdfFields>, crate::error::Fault> {
    match entry {
        Err(t) => Err(crate::error::Fault { kind: crate::error::ErrorKind::Zip, text: t }),
        Ok(e) => match (kind_of_entry(e.0, e.1), data) {
            (EntryKind::Other, _) => Ok(None),
            (_, Err(t)) => Err(
                crate::error::Fault { kind: crate::error::ErrorKind::Io, text: t },
            ),
            (EntryKind::Adf, Ok(d)) => Ok(
                Some(AdfFields { adf: d, container: Container::Zip, name: e.1 }),
            ),
            (EntryKind::Adz, Ok(_)) => match gunzip_result(stream) {
                Err(f) => Err(f),
                Ok(g) => Ok(Some(AdfFields { adf: g, container: Container::Zip, name: e.1 })),
            },
        },
    }
}

/// What data that could be read is as a gzip stream.
pub open spec fn stream_of(data: Result<Seq<u8>, Seq<char>>) -> Result<Seq<u8>, Seq<char>> {
    match data {
        Ok(d) => gunzipped(d),
        Err(_) => Ok(Seq::empty()),
    }
}

/// The image of the entry at `i` of an archive.
pub open spec fn image_at(bytes: Seq<u8>, i: usize) -> Result<
    Option<AdfFields>,
    crate::error::Fault,
> {
    let data = zip_data_of(bytes, i);
    image_of(zip_entry_of(bytes, i), data, stream_of(data))
}

/// What an image, if there is one, or an error holds.
pub open spec fn image_or_fault(r: Result<Option<DecodedAdf>, Error>) -> Result<
    Option<AdfFields>,
    crate::error::Fault,
> {
    match r {
        Ok(Some(a)) => Ok(Some(a@)),
        Ok(None) => Ok(None),
        Err(e) => Err(e@),
    }
}

/// The images of the first `n` entries of an archive, up to the first error.
pub open spec fn images_of(bytes: Seq<u8>, n: nat) -> Result<Seq<AdfFields>, crate::error::Fault>
    decreases n,
{
    if n == 0 {
        Ok(Seq::empty())
    } else {
        let i = (n - 1) as usize;
        match images_of(bytes, (n - 1) as nat) {
            Err(f) => Err(f),
            Ok(had) => match image_at(bytes, i) {
                Err(f) => Err(f),
                Ok(None) => Ok(had),
                Ok(Some(a)) => Ok(had.push(a)),
            },
        }
    }
}

/// What decoding an archive gives of its images: an archive without any is refused.
pub open spec fn zip_result(r: Seq<AdfFields>) -> Result<Seq<AdfFields>, crate::error::Fault> {
    if r.len() == 0 {
        Err(
            crate::error::Fault {
                kind: crate::error::ErrorKind::Decode,
                text: "zip archive contained no ADF files"@,
            },
        )
    } else {
        Ok(r)
    }
}

/// What decoding an archive gives.
pub open spec fn unzipped(bytes: Seq<u8>) -> Result<Seq<AdfFields>, crate::error::Fault> {
    match zip_count_of(bytes) {
        Err(t) => Err(crate::error::Fault { kind: crate::error::ErrorKind::Zip, text: t }),
        Ok(n) => match images_of(bytes, n as nat) {
            Err(f) => Err(f),
            Ok(v) => zip_result(v),
        },
    }
}

/// Take the images of an archive: an archive without any is refused.
pub fn zip_outcome(images: Vec<DecodedAdf>) -> (r: Result<Vec<DecodedAdf>, Error>)
    ensures
        adfs_or_fault(r) == zip_result(adf_views(images@)),
{
    if images.len() == 0 {
        Err(Error::Decode(owned("zip archive contained no ADF files")))
    } else {
        Ok(images)
    }
}

/// Take an archive entry, its data and what that is as a gzip stream: the image, nothing
/// for an entry that is no image, or the error.
pub fn entry_outcome(
    entry: Result<(bool, String), String>,
    data: Result<Vec<u8>, String>,
    stream: Result<Vec<u8>, String>,
) -> (r: Result<Option<DecodedAdf>, Error>)
    ensures
        image_or_fault(r) == image_of(
            entry_or_text(entry),
            bytes_or_text(data),
            bytes_or_text(stream),
        ),
{
    let (is_file, name) = match entry {
        Err(t) => {
            return Err(Error::Zip(t));
        },
        Ok(e) => e,
    };
    let kind = entry_kind(is_file, &name);
    match kind {
        EntryKind::Other => Ok(None),
        EntryKind::Adf => match data {
            Err(t) => Err(Error::Io(t)),
            Ok(adf) => Ok(Some(DecodedAdf { adf, container: Container::Zip, name })),
        },
        EntryKind::Adz => match data {
            Err(t) => Err(Error::Io(t)),
            Ok(_) => match gunzip_outcome(stream) {
                Err(e) => Err(e),
                Ok(adf) => Ok(Some(DecodedAdf { adf, container: Container::Zip, name })),
            },
        },
    }
}

/// The image of the entry at `i`; nothing for an entry that is no image. An entry is
/// read only where it is one.
fn decode_entry(bytes: &[u8], i: usize) -> (r: Result<Option<DecodedAdf>, Error>)
    ensures
        image_or_fault(r) == image_at(bytes@, i),
{
    let entry = zip_entry(bytes, i);
    let kind = match &entry {
        Err(_) => EntryKind::Other,
        Ok(e) => entry_kind(e.0, &e.1),
    };
    match kind {
        EntryKind::Other => entry_outcome(entry, Ok(Vec::new()), Ok(Vec::new())),
        EntryKind::Adf => entry_outcome(entry, zip_data(bytes, i), Ok(Vec::new())),
        EntryKind::Adz => {
            let data = zip_data(bytes, i);
            let stream = match &data {
                Ok(d) => gunzip_stream(d),
                Err(_) => Ok(Vec::new()),
            };
            entry_outcome(entry, data, stream)
        },
    }
}

/// Expand a zip archive, decoding each ADF/ADZ entry to a raw ADF.
fn decode_zip(bytes: &[u8]) -> (r: Result<Vec<DecodedAdf>, Error>)
    ensures
        adfs_or_fault(r) == unzipped(bytes@),
{
    let n = match zip_count(bytes) {
        Err(t) => {
            return Err(Error::Zip(t));
        },
        Ok(n) => n,
    };
    let mut out: Vec<DecodedAdf> = Vec::new();
    let mut i: usize = 0;
    assert(adf_views(out@) =~= Seq::empty());
    while i < n
        invariant
            i <= n,
            zip_count_of(bytes@) == Ok::<usize, Seq<char>>(n),
            images_of(bytes@, i as nat) == Ok::<Seq<AdfFields>, crate::error::Fault>(adf_views(out@)),
        decreases n - i,
    {
        let ghost had = out@;
        match decode_entry(bytes, i) {
            Err(e) => {
                assert(images_of(bytes@, (i + 1) as nat) is Err);
                proof {
                    lemma_error_stays(bytes@, (i + 1) as nat, n as nat);
                }
                return Err(e);
            },
            Ok(None) => {},
            Ok(Some(a)) => {
                out.push(a);
                assert(adf_views(out@) =~= adf_views(had).push(a@));
            },
        }
        i += 1;
    }
    zip_outcome(out)
}

/// The first error is what an archive ends in.
proof fn lemma_error_stays(bytes: Seq<u8>, k: nat, n: nat)
    requires
        k <= n,
        images_of(bytes, k) is Err,
    ensures
        images_of(bytes, n) == images_of(bytes, k),
    decreases n,
{
    if k < n {
        lemma_error_stays(bytes, k, (n - 1) as nat);
    }
}

// --- External tools ---------------------------------------------------------

/// How a run of the external `xdms` tool on an upload ended.
#[derive(Debug, Clone, PartialEq, Eq)]
pub enum XdmsRun {
    /// It wrote an image.
    Adf(Vec<u8>),
    /// It succeeded, but what it wrote could not be read.
    Unreadable(String),
    /// It ended with another status than success.
    Failed(String),
    /// It could not be started.
    Unavailable(String),
    /// Its input could not be set up.
    NotSetUp(String),
}

/// What decoding a `.dms` gives of a run of `xdms`.
pub open spec fn xdms_result(run: XdmsRun) -> Result<Seq<u8>, crate::error::Fault> {
    match run {
        XdmsRun::Adf(b) => Ok(b@),
        XdmsRun::Unreadable(e) => Err(
            crate::error::Fault {
                kind: crate::error::ErrorKind::Decode,
                text: "xdms produced no readable ADF: "@ + e@,
            },
        ),
        XdmsRun::Failed(s) => Err(
            crate::error::Fault {
                kind: crate::error::ErrorKind::Decode,
                text: "xdms exited with status "@ + s@,
            },
        ),
        XdmsRun::Unavailable(e) => Err(
            crate::error::Fault {
                kind: crate::error::ErrorKind::Decode,
                text: "xdms not available to decode .dms ("@ + e@
                    + "); install xdms to ingest DiskMasher archives"@,
            },
        ),
        XdmsRun::NotSetUp(e) => Err(crate::error::Fault { kind: crate::error::ErrorKind::Io, text: e@ }),
    }
}

/// A copy of bytes.
pub fn copy_bytes(b: &[u8]) -> (r: Vec<u8>)
    ensures
        r@ == b@,
{
    let mut r: Vec<u8> = Vec::new();
    let mut i: usize = 0;
    while i < b.len()
        invariant
            i <= b@.len(),
            r@ == b@.take(i as int),
        decreases b@.len() - i,
    {
        r.push(b[i]);
        i += 1;
        assert(r@ =~= b@.take(i as int));
    }
    assert(r@ =~= b@);
    r
}

/// Decode a `.dms` (DiskMasher) archive, given how the external `xdms` tool fared
/// on it.
///
/// Preserving the original container is the caller's job; this only produces the
/// raw ADF. Returns a clear error if `xdms` is not installed.
pub fn decode_dms(run: &XdmsRun) -> (r: Result<Vec<u8>, Error>)
    ensures
        bytes_or_fault(r) == xdms_result(*run),
{
    match run {
        XdmsRun::Adf(b) => Ok(copy_bytes(b)),
        XdmsRun::Unreadable(e) => Err(Error::Decode(concat("xdms produced no readable ADF: ", e))),
        XdmsRun::Failed(s) => Err(Error::Decode(concat("xdms exited with status ", s))),
        XdmsRun::Unavailable(e) => {
            let head = concat("xdms not available to decode .dms (", e);
            Err(
                Error::Decode(
                    concat(&head, "); install xdms to ingest DiskMasher archives"),
                ),
            )
        },
        XdmsRun::NotSetUp(e) => Err(Error::Io(owned(e))),
    }
}

/// How a run of the external `xdftool` on an image ended.
#[derive(Debug, Clone, PartialEq, Eq)]
pub enum WalkRun {
    /// It listed the image.
    Listed,
    /// It is absent, or ended with another status than success.
    Unavailable,
    /// Its input could not be set up.
    NotSetUp(String),
}

/// Walk an ADF filesystem, given how `xdftool` fared on it. Returns an empty list
/// (not an error) when the tool is absent, so ingestion still succeeds without it.
/// The listing itself is not read.
pub fn walk_with_xdftool(run: &WalkRun) -> (r: Result<Vec<InnerFile>, Error>)
    ensures
        match *run {
            WalkRun::NotSetUp(t) => r matches Err(e) && e@ == (crate::error::Fault {
                kind: crate::error::ErrorKind::Io,
                text: t@,
            }),
            _ => r matches Ok(v) && v@.len() == 0,
        },
{
    match run {
        WalkRun::NotSetUp(t) => Err(Error::Io(owned(t))),
        WalkRun::Listed => Ok(Vec::new()),
        WalkRun::Unavailable => Ok(Vec::new()),
    }
}

/// The default [`DiskImage`] implementation: in-process for raw/gzip/zip, and by
/// how the external tools (`xdms`, `xdftool`) fared for DMS and filesystem walking.
#[derive(Debug, Clone)]
pub struct Tools {
    /// How `xdms` fared on the upload; it is run for `.dms` only.
    pub xdms: XdmsRun,
    /// How `xdftool` fared on the image.
    pub xdftool: WalkRun,
}

impl Default for Tools {
    /// No external tool is there.
    fn default() -> (r: Tools)
        ensures
            r.xdms matches XdmsRun::Unavailable(e) && e@ == "not run"@,
            r.xdftool is Unavailable,
    {
        Tools { xdms: XdmsRun::Unavailable(owned("not run")), xdftool: WalkRun::Unavailable }
    }
}

/// What one image, or an error, decodes to.
pub open spec fn one_image(r: Result<Seq<u8>, crate::error::Fault>, container: Container, name: Seq<char>) -> Result<
    Seq<AdfFields>,
    crate::error::Fault,
> {
    match r {
        Ok(adf) => Ok(seq![AdfFields { adf, container, name }]),
        Err(f) => Err(f),
    }
}

/// What an upload decodes to: a raw image to itself, a zip archive to the images in
/// it, another container to the one image in it.
pub open spec fn decoded(
    container: Container,
    bytes: Seq<u8>,
    name: Seq<char>,
    xdms: XdmsRun,
) -> Result<Seq<AdfFields>, crate::error::Fault> {
    match container {
        Container::Adf => one_image(Ok(bytes), container, name),
        Container::Adz => one_image(gunzip_result(gunzipped(bytes)), container, name),
        Container::Dms => one_image(xdms_result(xdms), container, name),
        Container::Zip => unzipped(bytes),
    }
}

/// Take one image, or an error.
pub fn image_outcome(adf: Result<Vec<u8>, Error>, container: Container, name: &str) -> (r: Result<
    Vec<DecodedAdf>,
    Error,
>)
    ensures
        adfs_or_fault(r) == one_image(bytes_or_fault(adf), container, name@),
{
    match adf {
        Err(e) => Err(e),
        Ok(adf) => {
            let mut v: Vec<DecodedAdf> = Vec::new();
            v.push(DecodedAdf { adf, container, name: owned(name) });
            assert(adf_views(v@) =~= seq![v@[0]@]);
            Ok(v)
        },
    }
}

impl DiskImage for Tools {
    fn decode(&self, container: Container, bytes: &[u8], name: &str) -> (r: Result<
        Vec<DecodedAdf>,
        Error,
    >)
        ensures
            adfs_or_fault(r) == decoded(container, bytes@, name@, self.xdms),
    {
        match container {
            Container::Adf => image_outcome(Ok(copy_bytes(bytes)), container, name),
            Container::Adz => image_outcome(gunzip(bytes), container, name),
            Container::Dms => image_outcome(decode_dms(&self.xdms), container, name),
            Container::Zip => decode_zip(bytes),
        }
    }

    fn hash(&self, adf: &[u8]) -> (r: Hashes)
        ensures
            r@ == crate::identity::hashes_of(adf@),
    {
        hash_bytes(adf)
    }

    fn walk_files(&self, adf: &[u8]) -> (r: Result<Vec<InnerFile>, Error>)
        ensures
            match self.xdftool {
                WalkRun::NotSetUp(t) => r matches Err(e) && e@ == (crate::error::Fault {
                    kind: crate::error::ErrorKind::Io,
                    text: t@,
                }),
                _ => r matches Ok(v) && v@.len() == 0,
            },
    {
        walk_with_xdftool(&self.xdftool)
    }
}

// --- Laws -------------------------------------------------------------------

/// A raw disk image is decoded to its own bytes, under its own name.
pub proof fn raw_image_passes_through(bytes: Seq<u8>, name: Seq<char>, xdms: XdmsRun)
    ensures
        decoded(Container::Adf, bytes, name, xdms) == Ok::<Seq<AdfFields>, crate::error::Fault>(
            seq![AdfFields { adf: bytes, container: Container::Adf, name }],
        ),
{
}

/// Decoding never succeeds with nothing, and every image says the container that
/// the upload arrived in.
pub proof fn decoding_yields_images(
    container: Container,
    bytes: Seq<u8>,
    name: Seq<char>,
    xdms: XdmsRun,
)
    ensures
        decoded(container, bytes, name, xdms) matches Ok(v) ==> v.len() > 0 && forall|i: int|
            0 <= i < v.len() ==> (#[trigger] v[i]).container == container,
{
    if container is Zip {
        if zip_count_of(bytes) is Ok {
            lemma_zip_images(bytes, (zip_count_of(bytes)->Ok_0) as nat);
        }
    }
}

/// Every image of an archive says that it came in one, and carries the name of an
/// entry that is an image.
pub proof fn lemma_zip_images(bytes: Seq<u8>, n: nat)
    ensures
        images_of(bytes, n) matches Ok(v) ==> v.len() <= n && forall|i: int|
            0 <= i < v.len() ==> (#[trigger] v[i]).container is Zip && !(kind_of_entry(
                true,
                v[i].name,
            ) is Other),
    decreases n,
{
    if n > 0 {
        lemma_zip_images(bytes, (n - 1) as nat);
    }
}

/// The extension decides: an upload named as one of the four containers is taken as
/// that container, whatever its bytes.
pub proof fn extension_wins(filename: Seq<char>, bytes: Seq<u8>, other: Seq<u8>)
    requires
        extension(filename) == "adf"@ || extension(filename) == "adz"@ || extension(filename)
            == "dms"@ || extension(filename) == "zip"@,
    ensures
        container_of(filename, bytes) is Some,
        container_of(filename, bytes) == container_of(filename, other),
{
}

/// What an upload is in goes by its extension, in any case: `adf`, `adz`, `dms` or `zip`. With
/// any other extension, or none, it goes by its first bytes: those of gzip, `PK` or `DMS!`; and
/// what is exactly as long as a disk image is one. Anything else is unknown.
pub proof fn container_goes_by_extension_then_bytes(
    stem: Seq<char>,
    ext: Seq<char>,
    bytes: Seq<u8>,
)
    requires
        !ext.contains('.'),
    ensures
        ({
            let name = stem.push('.') + ext;
            let l = crate::text::lower(ext);
            &&& l == "adf"@ ==> container_of(name, bytes) == Some(Container::Adf)
            &&& l == "adz"@ ==> container_of(name, bytes) == Some(Container::Adz)
            &&& l == "dms"@ ==> container_of(name, bytes) == Some(Container::Dms)
            &&& l == "zip"@ ==> container_of(name, bytes) == Some(Container::Zip)
            &&& l != "adf"@ && l != "adz"@ && l != "dms"@ && l != "zip"@ ==> container_of(
                name,
                bytes,
            ) == by_bytes(bytes)
            &&& !stem.contains('.') ==> container_of(stem, bytes) == by_bytes(bytes)
        }),
{
    reveal_strlit("adf");
    reveal_strlit("adz");
    reveal_strlit("dms");
    reveal_strlit("zip");
    let name = stem.push('.') + ext;
    crate::text::finding_a_character(stem, '.', ext);
    assert(name.skip(stem.len() + 1int) =~= ext);
    assert("adf"@[2] == 'f' && "adz"@[2] == 'z' && "dms"@[0] == 'd' && "zip"@[0] == 'z' && "adf"@[0]
        == 'a' && "adz"@[0] == 'a');
    assert("adf"@.len() == 3 && "adz"@.len() == 3 && "dms"@.len() == 3 && "zip"@.len() == 3);
}

/// What bytes alone tell: gzip begins with 1f 8b, zip with `PK`, DMS with `DMS!`; a disk image
/// is 901120 bytes long.
pub open spec fn by_bytes(bytes: Seq<u8>) -> Option<Container> {
    if bytes.len() >= 2 && bytes[0] == 31 && bytes[1] == 139 {
        Some(Container::Adz)
    } else if bytes.len() >= 2 && bytes[0] as char == 'P' && bytes[1] as char == 'K' {
        Some(Container::Zip)
    } else if bytes.len() >= 4 && bytes[0] as char == 'D' && bytes[1] as char == 'M'
        && bytes[2] as char == 'S' && bytes[3] as char == '!' {
        Some(Container::Dms)
    } else if bytes.len() == 80 * 2 * 11 * 512 {
        Some(Container::Adf)
    } else {
        None
    }
}

/// An entry of an archive is an image where it is a file whose name ends in `.adf` or `.adz`,
/// in any case; the data of the first is the image, that of the second is uncompressed into it.
/// Any other entry is passed over, whatever is in it.
pub proof fn archive_entries_by_name(
    is_file: bool,
    name: Seq<char>,
    data: Result<Seq<u8>, Seq<char>>,
    stream: Result<Seq<u8>, Seq<char>>,
)
    ensures
        ({
            let l = crate::text::lower(name);
            let r = image_of(Ok((is_file, name)), data, stream);
            let adf = is_file && exists|p: Seq<char>| l == #[trigger] (p + ".adf"@);
            let adz = is_file && exists|p: Seq<char>| l == #[trigger] (p + ".adz"@);
            &&& !adf && !adz ==> r == Ok::<Option<AdfFields>, crate::error::Fault>(None)
            &&& adf && data is Ok ==> r == Ok::<Option<AdfFields>, crate::error::Fault>(
                Some(AdfFields { adf: data->Ok_0, container: Container::Zip, name }),
            )
            &&& adz && data is Ok && stream is Ok ==> r == Ok::<
                Option<AdfFields>,
                crate::error::Fault,
            >(Some(AdfFields { adf: stream->Ok_0, container: Container::Zip, name }))
            &&& (adf || adz) && data is Err ==> r == Err::<Option<AdfFields>, crate::error::Fault>(
                crate::error::Fault { kind: crate::error::ErrorKind::Io, text: data->Err_0 },
            )
            &&& adz && data is Ok && stream is Err ==> r == Err::<
                Option<AdfFields>,
                crate::error::Fault,
            >(
                crate::error::Fault {
                    kind: crate::error::ErrorKind::Decode,
                    text: "adz gunzip failed: "@ + stream->Err_0,
                },
            )
        }),
{
    let l = crate::text::lower(name);
    crate::text::beginnings_and_ends(l, ".adf"@);
    crate::text::beginnings_and_ends(l, ".adz"@);
    reveal_strlit(".adf");
    reveal_strlit(".adz");
    assert(".adf"@.len() == 4 && ".adz"@.len() == 4);
    assert(".adf"@[3] == 'f' && ".adz"@[3] == 'z');
    if crate::text::ends_with(l, ".adf"@) && crate::text::ends_with(l, ".adz"@) {
        assert(l.subrange(l.len() - 4, l.len() as int)[3] == 'f');
        assert(l.subrange(l.len() - 4, l.len() as int)[3] == 'z');
    }
}

/// The images of an archive are those of its entries, in order. The first entry that fails
/// fails the archive.
pub proof fn images_come_in_archive_order(bytes: Seq<u8>, n: nat) -> (at: Seq<int>)
    requires
        n <= usize::MAX,
    ensures
        images_of(bytes, n) matches Ok(v) ==> {
            &&& at.len() == v.len()
            &&& forall|k: int|
                0 <= k < at.len() ==> 0 <= (#[trigger] at[k]) < n && image_at(
                    bytes,
                    at[k] as usize,
                ) == Ok::<Option<AdfFields>, crate::error::Fault>(Some(v[k]))
            &&& forall|k: int, l: int| 0 <= k < l < at.len() ==> at[k] < at[l]
            &&& forall|i: int|
                0 <= i < n ==> {
                    let r = #[trigger] image_at(bytes, i as usize);
                    r is Ok && (r->Ok_0 is Some ==> at.contains(i))
                }
        },
        images_of(bytes, n) matches Err(f) ==> exists|i: int|
            0 <= i < n && #[trigger] image_at(bytes, i as usize) == Err::<
                Option<AdfFields>,
                crate::error::Fault,
            >(f) && forall|j: int| 0 <= j < i ==> #[trigger] image_at(bytes, j as usize) is Ok,
    decreases n,
{
    if n == 0 {
        Seq::empty()
    } else {
        let m = (n - 1) as nat;
        let had = images_come_in_archive_order(bytes, m);
        match images_of(bytes, m) {
            Err(f) => had,
            Ok(v) => {
                let r = image_at(bytes, m as usize);
                if r is Ok && r->Ok_0 is Some {
                    let at = had.push(m as int);
                    assert forall|i: int| 0 <= i < n implies ({
                        let r = #[trigger] image_at(bytes, i as usize);
                        r is Ok && (r->Ok_0 is Some ==> at.contains(i))
                    }) by {
                        if i == m {
                            assert(at[had.len() as int] == i);
                        } else {
                            let r = image_at(bytes, i as usize);
                            if r->Ok_0 is Some {
                                assert(had.contains(i));
                                let k = choose|k: int| 0 <= k < had.len() && had[k] == i;
                                assert(at[k] == i);
                            }
                        }
                    }
                    at
                } else {
                    assert(r is Ok ==> images_of(bytes, n) == Ok::<
                        Seq<AdfFields>,
                        crate::error::Fault,
                    >(v));
                    had
                }
            },
        }
    }
}

/// An upload decodes to what its container holds: a raw or compressed image, or one that xdms
/// unpacks, to one image under the upload's own name, an archive to those in it, and an archive
/// without any to an error.
pub proof fn decoding_goes_by_container(bytes: Seq<u8>, name: Seq<char>, xdms: XdmsRun)
    ensures
        gunzipped(bytes) matches Ok(adf) ==> decoded(Container::Adz, bytes, name, xdms) == Ok::<
            Seq<AdfFields>,
            crate::error::Fault,
        >(seq![AdfFields { adf, container: Container::Adz, name }]),
        gunzipped(bytes) matches Err(t) ==> decoded(Container::Adz, bytes, name, xdms) == Err::<
            Seq<AdfFields>,
            crate::error::Fault,
        >(
            crate::error::Fault {
                kind: crate::error::ErrorKind::Decode,
                text: "adz gunzip failed: "@ + t,
            },
        ),
        xdms matches XdmsRun::Adf(b) ==> decoded(Container::Dms, bytes, name, xdms) == Ok::<
            Seq<AdfFields>,
            crate::error::Fault,
        >(seq![AdfFields { adf: b@, container: Container::Dms, name }]),
        !(xdms is Adf) ==> decoded(Container::Dms, bytes, name, xdms) is Err,
        zip_count_of(bytes) matches Ok(n) ==> {
            &&& (images_of(bytes, n as nat) matches Ok(v) && v.len() > 0) ==> decoded(
                Container::Zip,
                bytes,
                name,
                xdms,
            ) == images_of(bytes, n as nat)
            &&& (images_of(bytes, n as nat) matches Ok(v) && v.len() == 0) ==> decoded(
                Container::Zip,
                bytes,
                name,
                xdms,
            ) == Err::<Seq<AdfFields>, crate::error::Fault>(
                crate::error::Fault {
                    kind: crate::error::ErrorKind::Decode,
                    text: "zip archive contained no ADF files"@,
                },
            )
            &&& images_of(bytes, n as nat) is Err ==> decoded(Container::Zip, bytes, name, xdms)
                == images_of(bytes, n as nat)
        },
        zip_count_of(bytes) matches Err(t) ==> decoded(Container::Zip, bytes, name, xdms) == Err::<
            Seq<AdfFields>,
            crate::error::Fault,
        >(crate::error::Fault { kind: crate::error::ErrorKind::Zip, text: t }),
{
}

/// A run of xdms that does not give an image fails with what went wrong, and what kind of
/// upload it was is told by its name and length where nothing tells what it is in.
pub proof fn failures_tell_what_went_wrong(e: String, shown: Seq<char>, len: nat)
    ensures
        xdms_result(XdmsRun::Unreadable(e)) == Err::<Seq<u8>, crate::error::Fault>(
            crate::error::Fault {
                kind: crate::error::ErrorKind::Decode,
                text: "xdms produced no readable ADF: "@ + e@,
            },
        ),
        xdms_result(XdmsRun::Failed(e)) == Err::<Seq<u8>, crate::error::Fault>(
            crate::error::Fault {
                kind: crate::error::ErrorKind::Decode,
                text: "xdms exited with status "@ + e@,
            },
        ),
        xdms_result(XdmsRun::Unavailable(e)) == Err::<Seq<u8>, crate::error::Fault>(
            crate::error::Fault {
                kind: crate::error::ErrorKind::Decode,
                text: "xdms not available to decode .dms ("@ + e@
                    + "); install xdms to ingest DiskMasher archives"@,
            },
        ),
        xdms_result(XdmsRun::NotSetUp(e)) == Err::<Seq<u8>, crate::error::Fault>(
            crate::error::Fault { kind: crate::error::ErrorKind::Io, text: e@ },
        ),
        unknown_type(shown, len).kind is UnsupportedType,
        unknown_type(shown, len).text == shown + " ("@ + crate::text::decimal(len) + " bytes)"@,
{
}

/// Containers are stored by their names.
pub proof fn containers_are_stored_by_name(c: Container)
    ensures
        c is Adf ==> container_label(c) == "adf"@,
        c is Adz ==> container_label(c) == "adz"@,
        c is Dms ==> container_label(c) == "dms"@,
        c is Zip ==> container_label(c) == "zip"@,
{
}

} // verus!
