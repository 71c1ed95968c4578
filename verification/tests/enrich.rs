//! Titles matched, providers' pages read and their results merged.

use amiga_game_vault::enrich::matching::{
    levenshtein, normalize, similarity_parts, SimilarityParts,
};
use amiga_game_vault::enrich::openretro::{
    best_match_slug, extract_description, extract_genre, extract_page_title, extract_shots,
    index_letter, parse_game_page, pick_slug, screenshot_hash, slug, slug_of_link, LookupState,
    LookupStep, OpenRetro,
};
use amiga_game_vault::enrich::{
    enrich_title, image_mime, image_status, is_accepted, is_higher, merge, page_status,
    replaces_shots, take_image, take_lookup, title_saved, EnrichReport, EnrichStep,
    ProviderResult, ScreenshotBytes, Shot, MAX_SHOTS, SCORE_FLOOR,
};
use amiga_game_vault::error::{Error, ErrorKind};

/// The similarity of two titles: half the share of common words, half the share of
/// characters that need no edit.
fn similarity(a: &str, b: &str) -> f32 {
    match similarity_parts(a, b) {
        SimilarityParts::Nothing => 0.0,
        SimilarityParts::Same => 1.0,
        SimilarityParts::Mixed {
            shared,
            all,
            distance,
            longer,
        } => {
            let words = shared as f32 / all as f32;
            let edits = 1.0 - distance as f32 / longer as f32;
            0.5 * words + 0.5 * edits.max(0.0)
        }
    }
}

fn score(a: &str, b: &str) -> u32 {
    similarity(a, b).to_bits()
}

#[test]
fn normalize_drops_articles_and_punctuation() {
    assert_eq!(normalize("The Addams Family"), "addams family");
    assert_eq!(normalize("A-10 Tank Killer"), "a 10 tank killer");
    assert_eq!(normalize("Bubble Bobble!"), "bubble bobble");
}

#[test]
fn similarity_scores_matches_high_and_mismatches_low() {
    assert!((similarity("A-10 Tank Killer", "A-10 Tank Killer") - 1.0).abs() < 1e-6);
    assert!(similarity("A-10 Tank Killer", "A10 Tank Killer") > 0.8);
    assert!(similarity("Turrican", "Turrican II") > 0.55);
    assert!(similarity("Turrican", "Lemmings") < 0.4);
}

#[test]
fn merge_prefers_priority_order_and_unions_shots() {
    let r1 = ProviderResult {
        source: "openretro".into(),
        external_url: Some("u1".into()),
        description: Some("desc1".into()),
        genre: None,
        year: Some(1990),
        shots: vec![Shot {
            url: "a".into(),
            caption: None,
            source: "openretro".into(),
        }],
        score: 0.9f32.to_bits(),
    };
    let r2 = ProviderResult {
        source: "hol".into(),
        external_url: Some("u2".into()),
        description: Some("desc2".into()),
        genre: Some("shooter".into()),
        year: Some(1991),
        shots: vec![
            Shot {
                url: "a".into(),
                caption: None,
                source: "hol".into(),
            },
            Shot {
                url: "b".into(),
                caption: None,
                source: "hol".into(),
            },
        ],
        score: 0.7f32.to_bits(),
    };
    let m = merge(vec![r1, r2]).expect("merged");
    assert_eq!(m.description.as_deref(), Some("desc1")); // priority first
    assert_eq!(m.genre.as_deref(), Some("shooter")); // first non-empty
    assert_eq!(m.year, Some(1990));
    assert_eq!(m.sources, "openretro,hol");
    assert_eq!(m.shots.len(), 2); // "a" deduped, "b" added
    assert_eq!(f32::from_bits(m.score), 0.9);
    assert_eq!(m.external_url.as_deref(), Some("u1"));
}

#[test]
fn merge_rejects_below_floor() {
    let weak = ProviderResult {
        source: "openretro".into(),
        external_url: None,
        description: Some("d".into()),
        genre: None,
        year: None,
        shots: vec![],
        score: 0.2f32.to_bits(),
    };
    assert!(merge(vec![weak]).is_none());
}

#[test]
fn slug_matches_openretro_convention() {
    assert_eq!(slug("A-10 Tank Killer"), "a-10-tank-killer");
    assert_eq!(slug("The Addams Family"), "the-addams-family");
    assert_eq!(slug("Zool 2"), "zool-2");
}

const PAGE: &str = r##"<!doctype html><html><head>
            <title>A-10 Tank Killer Amiga | OpenRetro Game Database</title>
            </head><body>
            <h1>A-10 Tank Killer</h1>
            <div class="game-info-row"><span>Publisher:</span><a href="/browse/dynamix">Dynamix</a></div>
            <div class="game-info-row"><span>Tags:</span><a href="/browse/flight">flight</a>,
                 <a href="/browse/simulation">simulation</a>, <a href="/browse/war">war</a></div>
            <a href="/browse/amiga/a">back to A</a>
            <div class="game-about"><p>This simulation puts you in the cockpit of the
                 A-10 Thunderbolt II, also known as the "Warthog".</p></div>
            <a href="/image/cover0001?s=512&f=jpg"><img src="/image/cover0001?w=200&h=266&t=lbcover" alt="front image"></a>
            <a href="/image/shot0001?s=2x"><img src="/image/shot0001?w=332&h=208" alt=""></a>
            <a href="/image/shot0002?s=2x"><img src="/image/shot0002?w=332&h=208" alt=""></a>
            <p>Page generated in 0.05 seconds. All times are in UTC. By submitting information you
               disclaim copyright to your work related to preparing this database entry footer.</p>
            </body></html>"##;

#[test]
fn parses_a_representative_game_page() {
    // A trimmed page mirroring OpenRetro's real structure: a `Tags:` info row
    // (genres), a decoy `Publisher:` row that is ALSO a /browse/ link, the
    // `.game-about` blurb, a cover (lightbox `s=512`) + screenshots (lightbox
    // `s=2x`), and a footer paragraph the description must NOT pick up.
    let r = parse_game_page(
        PAGE,
        "https://openretro.org",
        "A-10 Tank Killer",
        "u",
        &score,
    )
    .expect("parsed");
    assert_eq!(
        r.genre.as_deref(),
        Some("flight, simulation, war"),
        "only the Tags row, not the Publisher /browse/ link"
    );
    let desc = r.description.as_ref().unwrap();
    assert!(desc.contains("Warthog"), "took the game blurb");
    assert!(
        !desc.contains("Page generated"),
        "not the footer boilerplate"
    );
    assert_eq!(
        r.shots.len(),
        2,
        "cover (s=512) excluded, two screenshots (s=2x) kept"
    );
    assert_eq!(r.shots[0].url, "https://openretro.org/image/shot0001");
    assert!(f32::from_bits(r.score) > 0.9);
}

#[test]
fn rejects_a_wrong_title_page() {
    let html =
        "<html><head><title>Lemmings Amiga</title></head><body><h1>Lemmings</h1></body></html>";
    assert!(parse_game_page(
        html,
        "https://openretro.org",
        "A-10 Tank Killer",
        "u",
        &score
    )
    .is_none());
}

#[test]
fn browse_index_picks_best_slug() {
    let html = r#"<html><body>
            <a href="/amiga/a-320-airbus">A-320 Airbus</a>
            <a href="/amiga/a-10-tank-killer">A-10 Tank Killer</a>
            <a href="/amiga/aaargh">Aaargh</a>
            </body></html>"#;
    assert_eq!(
        best_match_slug(html, "A-10 Tank Killer", &score).as_deref(),
        Some("a-10-tank-killer")
    );
}

#[test]
fn the_parts_of_a_page() {
    assert_eq!(extract_page_title(PAGE), "A-10 Tank Killer");
    assert_eq!(
        extract_genre(PAGE).as_deref(),
        Some("flight, simulation, war")
    );
    assert_eq!(
        extract_description(PAGE).as_deref(),
        Some(
            "This simulation puts you in the cockpit of the A-10 Thunderbolt II, \
             also known as the \"Warthog\"."
        )
    );
    let shots = extract_shots(PAGE, "https://openretro.org");
    assert_eq!(shots.len(), 2);
    assert_eq!(shots[1].url, "https://openretro.org/image/shot0002");
    assert_eq!(shots[1].source, "openretro");
    // Without a heading the title comes from the head, up to the site's name.
    let bare = "<html><head><title>Zool Amiga | OpenRetro</title></head><body></body></html>";
    assert_eq!(extract_page_title(bare), "Zool");
    assert_eq!(extract_genre(bare), None);
    assert_eq!(extract_description(bare), None);
}

#[test]
fn links_name_screenshots_and_slugs() {
    assert_eq!(
        screenshot_hash("/image/shot0001?s=2x").as_deref(),
        Some("shot0001")
    );
    assert_eq!(screenshot_hash("/image/cover0001?s=512&f=jpg"), None);
    assert_eq!(screenshot_hash("/browse/flight"), None);
    assert_eq!(slug_of_link("/amiga/zool").as_deref(), Some("zool"));
    assert_eq!(slug_of_link("/browse/amiga/a"), None);
    assert_eq!(index_letter("Zool"), 'z');
    assert_eq!(index_letter("1943"), '0');
}

#[test]
fn edit_distances() {
    assert_eq!(levenshtein("kitten", "sitting"), 3);
    assert_eq!(levenshtein("", "abc"), 3);
    assert_eq!(levenshtein("abc", "abc"), 0);
    assert_eq!(levenshtein("flaw", "lawn"), levenshtein("lawn", "flaw"));
}

#[test]
fn similarity_is_made_of_words_and_edits() {
    assert_eq!(similarity_parts("", "Zool"), SimilarityParts::Nothing);
    assert_eq!(similarity_parts("The Zool!", "zool"), SimilarityParts::Same);
    assert_eq!(
        similarity_parts("Turrican", "Turrican II"),
        SimilarityParts::Mixed {
            shared: 1,
            all: 2,
            distance: 2,
            longer: 10,
        }
    );
    assert_eq!(
        similarity_parts("Turrican II", "Turrican"),
        similarity_parts("Turrican", "Turrican II")
    );
}

#[test]
fn scores_order_as_numbers_do() {
    assert_eq!(SCORE_FLOOR, 0.55f32.to_bits());
    for a in [0.0f32, 0.2, 0.55, 0.551, 0.9, 1.0] {
        assert_eq!(is_accepted(a.to_bits()), a >= 0.55);
        for b in [0.0f32, 0.2, 0.55, 0.551, 0.9, 1.0] {
            assert_eq!(is_higher(a.to_bits(), b.to_bits()), a > b);
        }
    }
}

#[test]
fn no_more_than_six_screenshots_are_downloaded() {
    let shot = |i: usize| Shot {
        url: format!("shot{i}"),
        caption: None,
        source: "openretro".into(),
    };
    let r = ProviderResult {
        source: "openretro".into(),
        external_url: None,
        description: None,
        genre: None,
        year: None,
        shots: (0..9).map(shot).collect(),
        score: 1.0f32.to_bits(),
    };
    assert_eq!(MAX_SHOTS, 6);
    let mut report = EnrichReport::default();
    match enrich_title(&mut report, vec![r]) {
        EnrichStep::Save { merged, downloads } => {
            assert_eq!(merged.shots.len(), 9);
            assert_eq!(downloads.len(), 6);
            assert_eq!(downloads[5].url, "shot5");
        }
        EnrichStep::Skip => panic!("a strong match is kept"),
    }
}

#[test]
fn a_report_counts_every_title() {
    let strong = |name: &str| ProviderResult {
        source: name.into(),
        external_url: None,
        description: Some("d".into()),
        genre: None,
        year: None,
        shots: vec![Shot {
            url: "a".into(),
            caption: Some("c".into()),
            source: name.into(),
        }],
        score: 0.8f32.to_bits(),
    };
    let mut report = EnrichReport::default();
    match enrich_title(&mut report, vec![strong("openretro")]) {
        EnrichStep::Save { merged, downloads } => {
            assert_eq!(merged.sources, "openretro");
            assert_eq!(downloads.len(), 1);
            assert_eq!(downloads[0].url, "a");
            assert!(replaces_shots(&merged, 1));
            assert!(!replaces_shots(&merged, 0));
        }
        EnrichStep::Skip => panic!("a strong match is kept"),
    }
    assert_eq!((report.enriched, report.skipped), (0, 0));
    title_saved(&mut report);
    assert_eq!((report.enriched, report.skipped), (1, 0));
    assert!(matches!(
        enrich_title(&mut report, vec![]),
        EnrichStep::Skip
    ));
    assert_eq!((report.enriched, report.skipped), (1, 1));
}

fn result(source: &str, genre: Option<&str>) -> ProviderResult {
    ProviderResult {
        source: source.into(),
        external_url: Some(String::new()),
        description: None,
        genre: genre.map(|g| g.to_string()),
        year: None,
        shots: vec![],
        score: 0.8f32.to_bits(),
    }
}

#[test]
fn a_run_counts_skipped_and_enriched_titles() {
    let weak = ProviderResult {
        score: 0.5f32.to_bits(),
        ..result("openretro", None)
    };
    let titles: Vec<Vec<ProviderResult>> = vec![
        vec![result("openretro", None)],
        vec![],
        vec![weak.clone()],
        vec![weak, result("hol", None)],
    ];
    let total = titles.len();
    let mut report = EnrichReport::default();
    for results in titles {
        if let EnrichStep::Save { .. } = enrich_title(&mut report, results) {
            title_saved(&mut report);
        }
    }
    assert_eq!((report.enriched, report.skipped), (2, 2));
    assert_eq!(report.enriched + report.skipped, total);
}

#[test]
fn merge_passes_over_empty_texts() {
    let m = merge(vec![
        result("a", Some("")),
        result("b", None),
        result("c", Some("puzzle")),
        result("d", Some("shooter")),
    ])
    .expect("merged");
    assert_eq!(m.genre.as_deref(), Some("puzzle"));
    assert_eq!(m.external_url, None);
    assert_eq!(m.description, None);
    assert_eq!(m.sources, "a,b,c,d");
}

#[test]
fn a_failed_lookup_counts_as_absent() {
    let mut results: Vec<ProviderResult> = Vec::new();
    assert_eq!(take_lookup(&mut results, Ok(None)), None);
    let failure = take_lookup(&mut results, Err(Error::Invalid("GET x: HTTP 500".into())));
    assert_eq!(failure, Some(Error::Invalid("GET x: HTTP 500".into())));
    assert!(results.is_empty());
    assert_eq!(take_lookup(&mut results, Ok(Some(result("hol", None)))), None);
    assert_eq!(results.len(), 1);
    assert_eq!(results[0].source, "hol");
}

#[test]
fn a_failed_download_leaves_its_place_empty() {
    let shot = Shot {
        url: "a".into(),
        caption: Some("title screen".into()),
        source: "openretro".into(),
    };
    let mut images: Vec<ScreenshotBytes> = Vec::new();
    let got = Ok((vec![1, 2], "image/png".to_string()));
    assert_eq!(take_image(&mut images, &shot, 0, got), None);
    let failed = Err(Error::Invalid("GET image a: HTTP 404".into()));
    assert!(take_image(&mut images, &shot, 1, failed).is_some());
    let got = Ok((vec![3], "image/jpeg".to_string()));
    assert_eq!(take_image(&mut images, &shot, 2, got), None);
    let caption = Some("title screen".to_string());
    assert_eq!(
        images,
        vec![
            (vec![1, 2], "image/png".into(), caption.clone(), "openretro".into(), 0),
            (vec![3], "image/jpeg".into(), caption, "openretro".into(), 2),
        ]
    );
}

#[test]
fn one_leading_article_is_dropped() {
    assert_eq!(normalize("The"), "the");
    assert_eq!(normalize("the THE Game"), "the game");
    assert_eq!(normalize("Theme Park"), "theme park");
    assert_eq!(normalize("Battle of the Planets"), "battle of the planets");
    assert_eq!(normalize("The Ünited & Co."), "uenited and co");
    assert_eq!(normalize("The !"), "the");
    assert_eq!(normalize(""), "");
}

#[test]
fn replies_are_read_by_their_status() {
    assert!(page_status("u", 200, "200 OK").unwrap());
    assert!(!page_status("u", 404, "404 Not Found").unwrap());
    let e = page_status("u", 500, "500 Internal Server Error").unwrap_err();
    assert!(e.text().contains("500"));
    assert!(image_status("u", 200, "200 OK").is_ok());
    assert!(image_status("u", 404, "404 Not Found").is_err());
    assert_eq!(
        image_mime(Some("image/png; charset=binary")),
        "image/png".to_string()
    );
    assert_eq!(image_mime(None), "image/jpeg".to_string());
    assert_eq!(
        image_status("u", 500, "500").unwrap_err().kind(),
        page_status("u", 500, "500").unwrap_err().kind()
    );
    assert_ne!(e.kind(), ErrorKind::NotFound);
}

#[test]
fn a_lookup_falls_back_to_the_index() {
    let site = OpenRetro::default();
    assert_eq!(site.name(), "openretro");
    assert!(site.available());
    let first = site.lookup("A-10 Tank Killer");
    assert_eq!(first.url(), "https://openretro.org/amiga/a-10-tank-killer");

    // Found at once.
    match site.next_step("A-10 Tank Killer", &first, Some(PAGE), &score) {
        LookupStep::Done(Some(r)) => assert_eq!(
            r.external_url.as_deref(),
            Some("https://openretro.org/amiga/a-10-tank-killer")
        ),
        _ => panic!("the page is the game's"),
    }

    // Not found: the index, then the best link in it.
    let index = match site.next_step("A-10 Tank Killer", &first, None, &score) {
        LookupStep::Fetch(s) => s,
        LookupStep::Done(_) => panic!("the index comes next"),
    };
    assert_eq!(index.url(), "https://openretro.org/browse/amiga/a");
    assert!(matches!(index, LookupState::Browse { .. }));
    let links = r#"<a href="/amiga/a-10-tank-killer-v2">A-10 Tank Killer</a>"#;
    let best = match site.next_step("A-10 Tank Killer", &index, Some(links), &score) {
        LookupStep::Fetch(s) => s,
        LookupStep::Done(_) => panic!("the best link comes next"),
    };
    assert_eq!(
        best.url(),
        "https://openretro.org/amiga/a-10-tank-killer-v2"
    );
    assert!(matches!(
        site.next_step("A-10 Tank Killer", &best, None, &score),
        LookupStep::Done(None)
    ));
    assert!(matches!(
        site.next_step("A-10 Tank Killer", &index, None, &score),
        LookupStep::Done(None)
    ));
}

#[test]
fn the_first_of_the_best_candidates_is_picked() {
    let c = |t: &str, s: &str| (t.to_string(), s.to_string());
    let two = [c("zool", "Zool"), c("zool-2", "Zool 2")];
    let high = 0.9f32.to_bits();
    let low = 0.6f32.to_bits();
    let none = 0.1f32.to_bits();
    assert_eq!(pick_slug(&two, &[low, high]).as_deref(), Some("zool-2"));
    assert_eq!(pick_slug(&two, &[none, none]), None);
    assert_eq!(pick_slug(&[], &[]), None);
}
