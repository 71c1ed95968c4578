//! Containers and what they decode to.

use std::io::Write;

use amiga_game_vault::error::{Error, ErrorKind};
use amiga_game_vault::identity::hash_bytes;
use amiga_game_vault::ingest::{
    decode_dms, detect_container, entry_kind, entry_outcome, unsupported, walk_with_xdftool, Container, DiskImage,
    EntryKind, Tools, WalkRun, XdmsRun, ADF_LEN,
};
use amiga_game_vault::service::decode_upload;

fn gzip(bytes: &[u8]) -> Vec<u8> {
    let mut enc = flate2::write::GzEncoder::new(Vec::new(), flate2::Compression::default());
    enc.write_all(bytes).unwrap();
    enc.finish().unwrap()
}

fn pack(files: &[(&str, &[u8])]) -> Vec<u8> {
    let mut buf = Vec::new();
    {
        let mut zw = zip::ZipWriter::new(std::io::Cursor::new(&mut buf));
        let opts = zip::write::SimpleFileOptions::default()
            .compression_method(zip::CompressionMethod::Deflated);
        for (name, bytes) in files {
            zw.start_file(*name, opts).unwrap();
            zw.write_all(bytes).unwrap();
        }
        zw.finish().unwrap();
    }
    buf
}

#[test]
fn detect_by_extension_and_magic() {
    assert_eq!(
        detect_container("x.adf", &[0u8; 10]).unwrap(),
        Container::Adf
    );
    assert_eq!(
        detect_container("x.adz", &[0x1f, 0x8b, 0, 0]).unwrap(),
        Container::Adz
    );
    assert_eq!(
        detect_container("x.dms", b"DMS!....").unwrap(),
        Container::Dms
    );
    assert_eq!(
        detect_container("x.zip", b"PK\x03\x04").unwrap(),
        Container::Zip
    );
    // Magic wins when the extension is unknown.
    assert_eq!(
        detect_container("mystery", &[0x1f, 0x8b]).unwrap(),
        Container::Adz
    );
    assert!(detect_container("mystery.txt", b"hello").is_err());
}

#[test]
fn decode_raw_adf_passthrough() {
    let tools = Tools::default();
    let out = tools
        .decode(Container::Adf, b"raw-adf-bytes", "Game.adf")
        .unwrap();
    assert_eq!(out.len(), 1);
    assert_eq!(out[0].adf, b"raw-adf-bytes");
    assert_eq!(out[0].container, Container::Adf);
}

#[test]
fn decode_adz_gunzips() {
    let mut enc = flate2::write::GzEncoder::new(Vec::new(), flate2::Compression::default());
    enc.write_all(b"decoded adf payload").unwrap();
    let gz = enc.finish().unwrap();

    let tools = Tools::default();
    let out = tools.decode(Container::Adz, &gz, "Game.adz").unwrap();
    assert_eq!(out[0].adf, b"decoded adf payload");
    assert_eq!(out[0].container, Container::Adz);
}

#[test]
fn decode_zip_extracts_adf_entries() {
    // Build an in-memory zip with one .adf and one ignored .txt.
    let mut buf = Vec::new();
    {
        let mut zw = zip::ZipWriter::new(std::io::Cursor::new(&mut buf));
        let opts = zip::write::SimpleFileOptions::default()
            .compression_method(zip::CompressionMethod::Deflated);
        zw.start_file("A-10.adf", opts).unwrap();
        zw.write_all(b"adf-in-zip").unwrap();
        zw.start_file("readme.txt", opts).unwrap();
        zw.write_all(b"ignore me").unwrap();
        zw.finish().unwrap();
    }
    let tools = Tools::default();
    let out = tools.decode(Container::Zip, &buf, "pack.zip").unwrap();
    assert_eq!(out.len(), 1);
    assert_eq!(out[0].adf, b"adf-in-zip");
    assert_eq!(out[0].name, "A-10.adf");
}

#[test]
fn a_raw_image_is_known_by_its_length() {
    assert_eq!(ADF_LEN, 901_120);
    assert_eq!(
        detect_container("unnamed", &vec![0u8; ADF_LEN]).unwrap(),
        Container::Adf
    );
    assert!(detect_container("unnamed", &vec![0u8; ADF_LEN - 1]).is_err());
    assert_eq!(
        detect_container("unnamed", b"PK\x03\x04").unwrap(),
        Container::Zip
    );
    assert_eq!(
        detect_container("unnamed", b"DMS!").unwrap(),
        Container::Dms
    );
}

#[test]
fn the_extension_wins_over_the_content() {
    assert_eq!(
        detect_container("X.ADF", &[0x1f, 0x8b]).unwrap(),
        Container::Adf
    );
    assert_eq!(detect_container("a.b.Zip", b"").unwrap(), Container::Zip);
}

#[test]
fn an_unknown_upload_is_described_in_the_error() {
    let e = detect_container("mystery.txt", b"hello").unwrap_err();
    assert_eq!(e.kind(), ErrorKind::UnsupportedType);
    assert_eq!(e.text(), "\"txt\" (5 bytes)");
    assert_eq!(e, unsupported("\"txt\"", 5));
}

#[test]
fn container_labels() {
    assert_eq!(Container::Adf.as_str(), "adf");
    assert_eq!(Container::Adz.as_str(), "adz");
    assert_eq!(Container::Dms.as_str(), "dms");
    assert_eq!(Container::Zip.as_str(), "zip");
}

#[test]
fn zips_hold_raw_and_gzipped_images() {
    let gz = gzip(b"second");
    let buf = pack(&[
        ("disks/One.ADF", b"first"),
        ("notes.txt", b"no"),
        ("Two.adz", &gz),
    ]);
    let out = Tools::default()
        .decode(Container::Zip, &buf, "pack.zip")
        .unwrap();
    assert_eq!(out.len(), 2);
    assert_eq!(out[0].adf, b"first");
    assert_eq!(out[0].name, "disks/One.ADF");
    assert_eq!(out[1].adf, b"second");
    assert_eq!(out[1].name, "Two.adz");
    assert!(out.iter().all(|a| a.container == Container::Zip));
}

#[test]
fn a_zip_without_images_is_refused() {
    let buf = pack(&[("notes.txt", b"no")]);
    let e = Tools::default()
        .decode(Container::Zip, &buf, "pack.zip")
        .unwrap_err();
    assert_eq!(e.kind(), ErrorKind::Decode);
}

#[test]
fn broken_containers_are_refused() {
    let tools = Tools::default();
    let e = tools
        .decode(Container::Zip, b"PK\x03\x04 not a zip", "x.zip")
        .unwrap_err();
    assert_eq!(e.kind(), ErrorKind::Zip);
    let e = tools
        .decode(Container::Adz, b"no gzip here", "x.adz")
        .unwrap_err();
    assert_eq!(e.kind(), ErrorKind::Decode);
    let gz = gzip(b"cut short, cut short, cut short");
    assert!(tools
        .decode(Container::Adz, &gz[..gz.len() - 6], "x.adz")
        .is_err());
}

#[test]
fn dms_follows_the_external_tool() {
    assert_eq!(decode_dms(&XdmsRun::Adf(vec![1, 2])).unwrap(), vec![1, 2]);
    assert_eq!(
        decode_dms(&XdmsRun::Unreadable("gone".into()))
            .unwrap_err()
            .kind(),
        ErrorKind::Decode
    );
    assert_eq!(
        decode_dms(&XdmsRun::Failed("exit 1".into()))
            .unwrap_err()
            .kind(),
        ErrorKind::Decode
    );
    assert_eq!(
        decode_dms(&XdmsRun::Unavailable("no xdms".into()))
            .unwrap_err()
            .kind(),
        ErrorKind::Decode
    );
    assert_eq!(
        decode_dms(&XdmsRun::NotSetUp("no temp".into())).unwrap_err(),
        Error::Io("no temp".into())
    );
    let tools = Tools {
        xdms: XdmsRun::Adf(b"unpacked".to_vec()),
        xdftool: WalkRun::Unavailable,
    };
    let out = tools.decode(Container::Dms, b"DMS!", "Game.dms").unwrap();
    assert_eq!(out[0].adf, b"unpacked");
    assert_eq!(out[0].container, Container::Dms);
    assert_eq!(out[0].name, "Game.dms");
}

#[test]
fn walking_degrades_to_nothing() {
    assert_eq!(walk_with_xdftool(&WalkRun::Listed).unwrap(), vec![]);
    assert_eq!(walk_with_xdftool(&WalkRun::Unavailable).unwrap(), vec![]);
    assert!(walk_with_xdftool(&WalkRun::NotSetUp("no temp".into())).is_err());
    let tools = Tools::default();
    assert_eq!(tools.walk_files(b"adf").unwrap(), vec![]);
    assert_eq!(tools.hash(b"adf"), hash_bytes(b"adf"));
}

#[test]
fn entry_kinds() {
    assert_eq!(entry_kind(true, "a.ADF"), EntryKind::Adf);
    assert_eq!(entry_kind(true, "a.adz"), EntryKind::Adz);
    assert_eq!(entry_kind(true, "a.txt"), EntryKind::Other);
    assert_eq!(entry_kind(false, "a.adf"), EntryKind::Other);
}

#[test]
fn entries_become_images() {
    let entry = |name: &str| Ok((true, name.to_string()));
    let image = entry_outcome(entry("A.ADF"), Ok(vec![1]), Ok(vec![9]))
        .unwrap()
        .unwrap();
    assert_eq!((image.adf, image.name.as_str()), (vec![1], "A.ADF"));
    let image = entry_outcome(entry("B.adz"), Ok(vec![1]), Ok(vec![9]))
        .unwrap()
        .unwrap();
    assert_eq!((image.adf, image.name.as_str()), (vec![9], "B.adz"));
    assert!(entry_outcome(entry("c.txt"), Err("x".into()), Ok(vec![]))
        .unwrap()
        .is_none());
    assert!(entry_outcome(Ok((false, "d.adf/".into())), Ok(vec![]), Ok(vec![]))
        .unwrap()
        .is_none());
    assert_eq!(
        entry_outcome(Err("broken".into()), Ok(vec![]), Ok(vec![])).unwrap_err(),
        Error::Zip("broken".into())
    );
    assert_eq!(
        entry_outcome(entry("a.adf"), Err("cut".into()), Ok(vec![])).unwrap_err(),
        Error::Io("cut".into())
    );
    assert_eq!(
        entry_outcome(entry("a.adz"), Ok(vec![1]), Err("no gzip".into())).unwrap_err(),
        Error::Decode("adz gunzip failed: no gzip".into())
    );
}

#[test]
fn uploads_are_decoded_by_what_they_are() {
    let tools = Tools::default();
    let out = decode_upload("Game.adz", &gzip(b"payload"), &tools).unwrap();
    assert_eq!(out[0].adf, b"payload");
    assert_eq!(out[0].name, "Game.adz");
    assert!(decode_upload("readme.txt", b"hello", &tools).is_err());
}
