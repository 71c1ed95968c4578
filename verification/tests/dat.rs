//! DAT catalogues.

use amiga_game_vault::dat::{match_entry, match_index, parse_dat};
use amiga_game_vault::identity::Hashes;

const SAMPLE: &str = r#"
    <datafile>
      <game name="A-10 Tank Killer v1.0 (1990)(Dynamix)(Disk 1 of 2)[cr QTX]">
        <rom name="A-10 Tank Killer.adf" size="901120" crc="A1B2C3D4" md5="00112233445566778899aabbccddeeff" sha1="abcdef0123456789abcdef0123456789abcdef01"/>
      </game>
      <game name="Monkey Island 2 - LeChuck's Revenge v1.0 (1992)(LucasArts)(ES)(Disk 1 of 11)[cr Crucial]">
        <rom name="mi2.adf" size="901120" crc="deadbeef" sha1="1111111111111111111111111111111111111111"/>
      </game>
    </datafile>"#;

#[test]
fn parse_and_derive_metadata() {
    let entries = parse_dat(SAMPLE, "TOSEC");
    assert_eq!(entries.len(), 2);

    let a10 = &entries[0];
    assert_eq!(a10.title.as_deref(), Some("A-10 Tank Killer"));
    assert_eq!(a10.version.as_deref(), Some("v1.0"));
    assert_eq!(a10.year, Some(1990));
    assert_eq!(a10.disk_count, Some(2));
    assert_eq!(a10.crc32.as_deref(), Some("a1b2c3d4")); // lowercased
    assert_eq!(a10.dump_type.as_deref(), Some("cracked"));
    assert_eq!(a10.crack_group.as_deref(), Some("QTX"));

    let mi2 = &entries[1];
    assert_eq!(mi2.language.as_deref(), Some("es"));
    assert_eq!(mi2.disk_count, Some(11));
}

#[test]
fn match_by_sha1_then_crc() {
    let entries = parse_dat(SAMPLE, "TOSEC");
    let hit = Hashes {
        sha1: "abcdef0123456789abcdef0123456789abcdef01".into(),
        crc32: "ffffffff".into(),
        md5: "zz".into(),
    };
    assert_eq!(
        match_entry(&entries, &hit).unwrap().title.as_deref(),
        Some("A-10 Tank Killer")
    );

    // No sha1/md5 match, but crc32 matches the second entry.
    let by_crc = Hashes {
        sha1: "no".into(),
        crc32: "deadbeef".into(),
        md5: "no".into(),
    };
    assert_eq!(match_entry(&entries, &by_crc).unwrap().disk_count, Some(11));

    let miss = Hashes {
        sha1: "x".into(),
        crc32: "y".into(),
        md5: "z".into(),
    };
    assert!(match_entry(&entries, &miss).is_none());
}

#[test]
fn a_stronger_hash_wins_over_an_earlier_entry() {
    let entries = parse_dat(SAMPLE, "TOSEC");
    let both = Hashes {
        sha1: "1111111111111111111111111111111111111111".into(),
        crc32: "a1b2c3d4".into(),
        md5: "00112233445566778899aabbccddeeff".into(),
    };
    assert_eq!(match_index(&entries, &both), Some(1));
    let md5 = Hashes {
        sha1: "no".into(),
        crc32: "deadbeef".into(),
        md5: "00112233445566778899aabbccddeeff".into(),
    };
    assert_eq!(match_index(&entries, &md5), Some(0));
}

#[test]
fn entries_carry_their_source() {
    let entries = parse_dat(SAMPLE, "Amiga - Games");
    assert!(entries.iter().all(|e| e.source == "Amiga - Games"));
    assert_eq!(
        entries[0].sha1.as_deref(),
        Some("abcdef0123456789abcdef0123456789abcdef01")
    );
    assert_eq!(entries[1].md5, None);
    assert!(parse_dat("", "TOSEC").is_empty());
    assert!(parse_dat("<datafile></datafile>", "TOSEC").is_empty());
}
