//! Replies, downloads and the page.

use std::io::Read;

use amiga_game_vault::error::{Error, ErrorKind};
use amiga_game_vault::web::page::index_html;
use amiga_game_vault::web::{
    attachment, build_zip, can_archive, edition_attachment, import_source, not_found,
    set_attachment, set_tag, status_code, wants_incomplete,
};

#[test]
fn index_html_surfaces_type_badges_and_preserves_features() {
    let page = index_html();
    // Type surfacing (summary chips, per-lineage badge, trainer chip, segmented
    // filter) and every other surface are in the served UI.
    for marker in [
        "typeChips",        // per-Work summary chips
        "kindBadge",        // per-lineage type badge
        "trainerChip",      // "+N TRAINER" chip
        "seg-btn",          // segmented type filter
        "setType(",         // filter behaviour
        "renderPlayable",   // playable multi-disk sets
        "renderVariants",   // per-variant fingerprint inspect
        "loadQuarantine",   // quarantine
        "reidentify",       // re-identify
        "filesFromDrop",    // drag-drop upload
        "class=\"legend\"", // original/cracked/hacked legend
        "--original",
        "--cracked",
        "--hacked",
        "metaBlock",           // enrichment block (genre/description/screenshots)
        "enrichWork(",         // per-work enrich action
        "enrichAll(",          // bulk enrich action
        "/media/",             // local screenshot route
        "setView(",            // grid/list view toggle
        "renderGrid",          // cover grid renderer
        "id=\"gridControls\"", // grid options bar
        "tile-art",            // portrait cover tile
        "tile-fallback",       // generated coverless tile
        "openWorkOverlay",     // tile-click detail overlay
    ] {
        assert!(page.contains(marker), "served index missing `{marker}`");
    }
}

#[test]
fn index_html_upload_uses_progress_bar_with_exceptions_only() {
    let page = index_html();
    // The upload panel drives a <progress> bar + processed/total counter...
    for marker in [
        "<progress", // the bar element
        "class=\"u-bar\"",
        "id=\"uCount\"", // the processed/total counter
        "setBar(",       // the bar update
        "review quarantine",
    ] {
        assert!(page.contains(marker), "served index missing `{marker}`");
    }
    // ...and only exception outcomes render a row: successes advance the bar
    // without a pending row.
    assert!(
        !page.contains("'pending'"),
        "upload should no longer create pending rows"
    );
    assert!(
        !page.contains("function setRow"),
        "setRow is orphaned once rows are added only on the final outcome"
    );
}

#[test]
fn index_html_is_self_contained() {
    let page = index_html();
    // No external/CDN dependency: styles, scripts, icons and fonts are inline
    // or served locally, so the binary embeds the entire UI.
    for forbidden in ["http://", "https://", "cdn.", "<script src", "<link "] {
        assert!(
            !page.contains(forbidden),
            "served index has an external reference: `{forbidden}`"
        );
    }
}

#[test]
fn the_page_is_one_document() {
    let page = index_html();
    assert!(page.starts_with("<!doctype html>"));
    assert!(page.trim_end().ends_with("</html>"));
    assert_eq!(page.matches("<script>").count(), 1);
    assert_eq!(page.matches("</script>").count(), 1);
    assert_eq!(page.matches("<style>").count(), 1);
}

#[test]
fn errors_have_statuses() {
    let t = || "t".to_string();
    assert_eq!(status_code(&Error::NotFound(t())), 404);
    assert_eq!(status_code(&Error::UnsupportedType(t())), 400);
    assert_eq!(status_code(&Error::Invalid(t())), 400);
    assert_eq!(status_code(&Error::Io(t())), 500);
    assert_eq!(status_code(&Error::Db(t())), 500);
    assert_eq!(status_code(&Error::Zip(t())), 500);
    assert_eq!(status_code(&Error::Decode(t())), 500);
    let e = not_found("artifact", "abcdef0123");
    assert_eq!(e.kind(), ErrorKind::NotFound);
    assert_eq!(e.text(), "artifact abcdef0123");
}

#[test]
fn requests_are_read() {
    assert!(wants_incomplete(Some("incomplete")));
    assert!(!wants_incomplete(Some("complete")));
    assert!(!wants_incomplete(None));
    assert_eq!(import_source(None), "TOSEC");
    assert_eq!(import_source(Some("Amiga - Demos")), "Amiga - Demos");
    assert_eq!(set_tag("-"), "");
    assert_eq!(set_tag("CSL"), "CSL");
    assert_eq!(set_tag("--"), "--");
}

#[test]
fn downloads_are_named() {
    assert_eq!(attachment("a.adf"), "attachment; filename=\"a.adf\"");
    assert_eq!(
        set_attachment(12, "Paradox & co"),
        "attachment; filename=\"set-12-Paradox___co.zip\""
    );
    assert_eq!(
        set_attachment(-3, ""),
        "attachment; filename=\"set--3-original.zip\""
    );
    assert_eq!(
        set_attachment(i64::MIN, "Ü"),
        "attachment; filename=\"set--9223372036854775808-_.zip\""
    );
    assert_eq!(
        edition_attachment(0),
        "attachment; filename=\"edition-0.zip\""
    );
}

#[test]
fn archives_read_back() {
    let files = vec![
        ("One_d01of02.adf".to_string(), vec![1u8, 2, 3]),
        ("Two_d02of02.adf".to_string(), vec![]),
    ];
    assert!(can_archive(&files));
    let bytes = build_zip(&files).unwrap();
    let mut archive = zip::ZipArchive::new(std::io::Cursor::new(&bytes)).unwrap();
    assert_eq!(archive.len(), 2);
    for (i, (name, data)) in files.iter().enumerate() {
        let mut entry = archive.by_index(i).unwrap();
        assert_eq!(entry.name(), name);
        assert_eq!(entry.compression(), zip::CompressionMethod::Stored);
        let mut got = Vec::new();
        entry.read_to_end(&mut got).unwrap();
        assert_eq!(&got, data);
    }
    // The same files give the same archive.
    assert_eq!(build_zip(&files).unwrap(), bytes);
    assert!(build_zip(&[]).is_ok());
}

#[test]
fn archives_refuse_a_name_twice() {
    let files = vec![
        ("Same.adf".to_string(), vec![1u8]),
        ("Same.adf".to_string(), vec![2u8]),
    ];
    assert_eq!(build_zip(&files).unwrap_err().kind(), ErrorKind::Zip);
}

#[test]
fn names_have_a_limit() {
    assert!(can_archive(&[("x".repeat(65535), vec![])]));
    assert!(!can_archive(&[("x".repeat(65536), vec![])]));
    assert!(!can_archive(&[("é".repeat(32768), vec![])]));
}
