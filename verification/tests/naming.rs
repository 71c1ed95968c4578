//! Filenames: the TOSEC grammar and the canonical names.

use amiga_game_vault::naming::{
    build_canonical, parse_canonical, parse_tosec, sanitize_title, version_key,
};

#[test]
fn parse_a10_variant() {
    let n =
        parse_tosec("A-10 Tank Killer v1.0 (1990)(Dynamix)(Disk 1 of 2)[h QTX][a2 highscore].adf")
            .unwrap();
    assert_eq!(n.title, "A-10 Tank Killer");
    assert_eq!(n.version.as_deref(), Some("v1.0"));
    assert_eq!(n.year, Some(1990));
    assert_eq!(n.publisher.as_deref(), Some("Dynamix"));
    assert_eq!(n.disk_no, Some(1));
    assert_eq!(n.disk_count, Some(2));
    assert_eq!(
        n.flags,
        vec!["h QTX".to_string(), "a2 highscore".to_string()]
    );
}

#[test]
fn parse_mi2_language_editions() {
    let it = parse_tosec(
        "Monkey Island 2 - LeChuck's Revenge v1.0 (1992)(C.T.O.)(IT)(Disk 1 of 11)[cr IBB].adf",
    )
    .unwrap();
    assert_eq!(it.language.as_deref(), Some("it"));
    assert_eq!(it.disk_count, Some(11));
    assert_eq!(it.publisher.as_deref(), Some("C.T.O."));

    let us = parse_tosec("Monkey Island 2 - LeChuck's Revenge v1.0 (1992)(LucasArts - U.S. Gold)(Disk 1 of 11)[cr DTC].adf").unwrap();
    assert_eq!(us.language, None); // implicit English -> no lang token
    assert_eq!(us.publisher.as_deref(), Some("LucasArts - U.S. Gold"));
}

#[test]
fn sanitize_handles_reserved_and_punctuation() {
    assert_eq!(
        sanitize_title("Monkey Island 2 - LeChuck's Revenge"),
        "Monkey-Island-2-LeChucks-Revenge"
    );
    assert_eq!(
        sanitize_title("Turrican II: The Final Fight"),
        "Turrican-II-The-Final-Fight"
    );
    assert_eq!(sanitize_title("A-10 Tank Killer"), "A-10-Tank-Killer");
    assert_eq!(
        sanitize_title("Rick Dangerous & Friends"),
        "Rick-Dangerous-and-Friends"
    );
}

#[test]
fn sanitize_transliterates() {
    assert_eq!(sanitize_title("Über Wing"), "Ueber-Wing");
}

#[test]
fn sanitizing_twice_changes_nothing() {
    for t in ["Über  Wing", "--A & B__c--", "Turrican II: The Final Fight", "!!!", ""] {
        let once = sanitize_title(t);
        assert_eq!(sanitize_title(&once), once);
    }
    assert_eq!(sanitize_title("--A & B__c--"), "A-and-B-c");
    assert_eq!(sanitize_title("!!!"), "");
}

#[test]
fn build_full_and_minimal() {
    assert_eq!(
        build_canonical(
            "A-10 Tank Killer",
            Some("v1.0"),
            Some("en"),
            Some((1, 2)),
            "a1b2c3d4e5"
        ),
        "A-10-Tank-Killer_v1.0_en_d01of02_a1b2c3d4e5.adf"
    );
    assert_eq!(
        build_canonical("State of the Art", None, None, None, "9f8e7d6c5b"),
        "State-of-the-Art_9f8e7d6c5b.adf"
    );
}

#[test]
fn round_trip_canonical() {
    let built = build_canonical(
        "A-10 Tank Killer",
        Some("v1.0"),
        Some("en"),
        Some((1, 2)),
        "a1b2c3d4e5",
    );
    let parsed = parse_canonical(&built).unwrap();
    assert_eq!(parsed.title, "A-10-Tank-Killer");
    assert_eq!(parsed.version.as_deref(), Some("v1.0"));
    assert_eq!(parsed.language.as_deref(), Some("en"));
    assert_eq!(parsed.disk, Some((1, 2)));
    assert_eq!(parsed.uid, "a1b2c3d4e5");
}

#[test]
fn parse_canonical_with_omitted_fields() {
    let c = parse_canonical("State-of-the-Art_9f8e7d6c5b.adf").unwrap();
    assert_eq!(c.title, "State-of-the-Art");
    assert_eq!(c.version, None);
    assert_eq!(c.language, None);
    assert_eq!(c.disk, None);
    assert_eq!(c.uid, "9f8e7d6c5b");
}

#[test]
fn names_without_a_group_are_not_parsed() {
    assert!(parse_tosec("disk047.adf").is_none());
    assert!(parse_tosec("").is_none());
    assert!(parse_canonical("no-uid.adf").is_none());
}

#[test]
fn a_trailing_flag_only_adds_a_flag() {
    let plain = parse_tosec("Zool v1.1 (1992)(Gremlin)(de)[cr PDX].adf").unwrap();
    let mut flagged = parse_tosec("Zool v1.1 (1992)(Gremlin)(de)[cr PDX][ a2 ].adf").unwrap();
    assert_eq!(flagged.flags.pop().as_deref(), Some("a2"));
    assert_eq!(flagged, plain);
}

#[test]
fn groups_may_nest_or_stay_open() {
    let n = parse_tosec("A (x (y) z)[b").unwrap();
    assert_eq!(n.publisher.as_deref(), Some("x (y) z"));
    assert_eq!(n.flags, vec!["b".to_string()]);
    let n = parse_tosec("A (1990-04-27)(Disk 01 OF 3)").unwrap();
    assert_eq!((n.year, n.disk_no, n.disk_count), (Some(1990), Some(1), Some(3)));
}

#[test]
fn demo_qualifier_is_no_publisher() {
    let n = parse_tosec("Agony (demo-playable) (1991)(Psygnosis)[h PRD].adf").unwrap();
    assert_eq!(n.title, "Agony");
    assert_eq!(n.qualifier.as_deref(), Some("demo-playable"));
    assert_eq!(n.publisher.as_deref(), Some("Psygnosis"));
    assert_eq!(n.year, Some(1991));
    assert_eq!(n.version, None);
    assert_eq!(n.disk_no, None);
}

#[test]
fn every_field_of_a_canonical_name_comes_back() {
    for version in [None, Some("v2.0")] {
        for language in [None, Some("de")] {
            for disk in [None, Some((3, 11))] {
                let built = build_canonical("Zool 2", version, language, disk, "0123456789");
                let c = parse_canonical(&built).unwrap();
                assert_eq!(c.title, "Zool-2");
                assert_eq!(c.version.as_deref(), version);
                assert_eq!(c.language.as_deref(), language);
                assert_eq!(c.disk, disk);
                assert_eq!(c.uid, "0123456789");
            }
        }
    }
}

#[test]
fn disk_numbers_are_padded_to_two_digits() {
    assert_eq!(
        build_canonical("X", None, None, Some((7, 100)), "abcdef0123"),
        "X_d07of100_abcdef0123.adf"
    );
}

#[test]
fn versions_sort_by_their_numbers() {
    assert!(version_key("v1.9") < version_key("v1.10"));
    assert!(version_key("v1.0") < version_key("v2.0"));
    assert_eq!(version_key("v1.0"), version_key("V1.0"));
    assert_eq!(version_key("1.10b"), "v00000001.00000010b");
    assert_eq!(version_key("v1.01"), version_key("v1.1"));
    assert!(version_key("v1.2") < version_key("v1.2a"));
    assert!(version_key("v1.99999998x") < version_key("v1.99999999"));
    // Longer numbers sort as texts.
    assert!(version_key("v1000000000") < version_key("v999999999"));
}
