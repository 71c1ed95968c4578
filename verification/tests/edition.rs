//! Editions: flags, categories and grouping.

use amiga_game_vault::edition::{
    edition_key, group_by_edition, infer_category, interpret_flags, qualifier_is_demo, set_key,
    Category, DumpType,
};
use amiga_game_vault::naming::{parse_tosec, TosecName};

fn p(s: &str) -> TosecName {
    parse_tosec(s).unwrap()
}

#[test]
fn interpret_crack_and_trainer() {
    let n = p("Agony (1992)(Psygnosis)(Disk 1 of 3)[cr CSL][t +9 TLPI].adf");
    let info = interpret_flags(&n.flags);
    assert_eq!(info.dump_type, DumpType::Cracked);
    assert_eq!(info.crack_group.as_deref(), Some("CSL"));
    assert_eq!(info.trainer.as_deref(), Some("+9 TLPI"));
    assert_eq!(info.lineage.as_deref(), Some("CSL"));
    assert_eq!(info.modifications, 2);
    assert!(!info.disqualified());
}

#[test]
fn dump_type_folds_to_three_display_classes() {
    // The browse UI colour-codes by three classes; Modified and Trainer both
    // read as "hacked" (a modified game).
    assert_eq!(DumpType::Original.class3(), "original");
    assert_eq!(DumpType::Cracked.class3(), "cracked");
    assert_eq!(DumpType::Hacked.class3(), "hacked");
    assert_eq!(DumpType::Modified.class3(), "hacked");
    assert_eq!(DumpType::Trainer.class3(), "hacked");
}

#[test]
fn interpret_bad_and_virus_disqualify() {
    let bad = interpret_flags(
        &p("Agony (1992)(Psygnosis)(Disk 1 of 3)[cr CSL][b corrupt file].adf").flags,
    );
    assert!(bad.bad && bad.disqualified());
    let vir =
        interpret_flags(&p("Monkey Island 2 (1992)(x)(Disk 1 of 11)[h GF][v Saddam 1].adf").flags);
    assert!(vir.virus && vir.disqualified());
}

#[test]
fn interpret_alt_index() {
    let a2 = interpret_flags(
        &p("A-10 Tank Killer v1.0 (1990)(Dynamix)(Disk 1 of 2)[h QTX][a2 highscore].adf").flags,
    );
    assert_eq!(a2.alt_index, 2);
    let base =
        interpret_flags(&p("A-10 Tank Killer v1.0 (1990)(Dynamix)(Disk 1 of 2)[h QTX].adf").flags);
    assert_eq!(base.alt_index, 0);
}

#[test]
fn a10_variants_collapse_to_one_edition() {
    let names: Vec<TosecName> = [
        "A-10 Tank Killer v1.0 (1990)(Dynamix)(Disk 1 of 2)[h PDX].adf",
        "A-10 Tank Killer v1.0 (1990)(Dynamix)(Disk 1 of 2)[h PDX][a2].adf",
        "A-10 Tank Killer v1.0 (1990)(Dynamix)(Disk 1 of 2)[h QTX].adf",
        "A-10 Tank Killer v1.0 (1990)(Dynamix)(Disk 1 of 2)[h QTX][a2 highscore].adf",
        "A-10 Tank Killer v1.0 (1990)(Dynamix)(Disk 1 of 2)[h SR].adf",
        "A-10 Tank Killer v1.0 (1990)(Dynamix)(Disk 1 of 2)[h TAH].adf",
    ]
    .iter()
    .map(|s| p(s))
    .collect();
    let groups = group_by_edition(&names);
    assert_eq!(groups.len(), 1, "all A-10 disk-1 variants are one Edition");
    assert_eq!(groups[0].1.len(), names.len());
}

#[test]
fn category_inference() {
    assert_eq!(infer_category(Some("demo-playable"), None), Category::Demo);
    assert_eq!(infer_category(Some("preview"), None), Category::Demo);
    assert_eq!(infer_category(None, Some("Amiga - Demos")), Category::Demo);
    assert_eq!(
        infer_category(None, Some("Amiga - Applications")),
        Category::Tool
    );
    assert_eq!(infer_category(None, Some("TOSEC")), Category::Game);
    assert_eq!(infer_category(None, None), Category::Game);
}

#[test]
fn distinct_qualifiers_do_not_merge() {
    let names: Vec<TosecName> = [
        "Agony (demo-playable) (1991)(Psygnosis).adf",
        "Agony (demo-rolling) (1991)(Psygnosis).adf",
        "Agony (demo-rolling) (1991)(Psygnosis)[h TRSI].adf",
    ]
    .iter()
    .map(|s| p(s))
    .collect();
    let groups = group_by_edition(&names);
    assert_eq!(
        groups.len(),
        2,
        "playable and rolling demos are two Editions"
    );
    // Publisher preserved, not eaten by the demo token.
    assert!(names
        .iter()
        .all(|n| n.publisher.as_deref() == Some("Psygnosis")));
}

#[test]
fn mi2_languages_are_separate_editions() {
    let names: Vec<TosecName> = [
        "Monkey Island 2 - LeChuck's Revenge v1.0 (1992)(C.T.O.)(IT)(Disk 1 of 11)[cr IBB].adf",
        "Monkey Island 2 - LeChuck's Revenge v1.0 (1992)(LucasArts - U.S. Gold)(Disk 1 of 11)[cr DTC].adf",
        "Monkey Island 2 - LeChuck's Revenge v1.0 (1992)(LucasArts)(ES)(Disk 1 of 11)[cr Crucial].adf",
    ]
    .iter()
    .map(|s| p(s))
    .collect();
    let groups = group_by_edition(&names);
    assert_eq!(groups.len(), 3, "IT / US / ES are three Editions");
}

#[test]
fn labels_read_back() {
    for d in [
        DumpType::Original,
        DumpType::Cracked,
        DumpType::Hacked,
        DumpType::Modified,
        DumpType::Trainer,
    ] {
        assert_eq!(DumpType::from_label(d.as_str()), d);
    }
    assert_eq!(DumpType::from_label("anything"), DumpType::Original);
    assert_eq!(Category::Game.as_str(), "game");
    assert_eq!(Category::Tool.as_str(), "tool");
    assert_eq!(Category::Demo.as_str(), "demo");
}

#[test]
fn each_marker_is_read() {
    let flags = |s: &[&str]| s.iter().map(|f| f.to_string()).collect::<Vec<_>>();
    assert!(interpret_flags(&flags(&["b"])).bad);
    assert!(interpret_flags(&flags(&["v"])).virus);
    assert!(interpret_flags(&flags(&["o"])).over);
    assert!(interpret_flags(&flags(&["u"])).under);
    assert!(interpret_flags(&flags(&["!"])).verified_good);
    assert_eq!(interpret_flags(&flags(&["a"])).alt_index, 1);
    assert_eq!(interpret_flags(&flags(&["a3"])).alt_index, 3);
    assert_eq!(
        interpret_flags(&flags(&["h SR"])).dump_type,
        DumpType::Hacked
    );
    assert_eq!(
        interpret_flags(&flags(&["m save"])).dump_type,
        DumpType::Modified
    );
    assert_eq!(
        interpret_flags(&flags(&["t +3"])).dump_type,
        DumpType::Trainer
    );
    let none = interpret_flags(&flags(&[]));
    assert_eq!(none.dump_type, DumpType::Original);
    assert_eq!(none.modifications, 0);
    assert!(none.lineage.is_none() && !none.disqualified());
}

#[test]
fn the_set_key_leaves_the_disk_out() {
    let one = p("Agony (1992)(Psygnosis)(Disk 1 of 3)[cr CSL].adf");
    let two = p("Agony (1992)(Psygnosis)(Disk 2 of 3)[h Bobic].adf");
    assert_eq!(set_key(&one), set_key(&two));
    assert_ne!(edition_key(&one), edition_key(&two));
    assert_eq!(edition_key(&one).disk_no, Some(1));
}

#[test]
fn demo_qualifiers() {
    assert!(qualifier_is_demo("demo"));
    assert!(qualifier_is_demo("demo-rolling"));
    assert!(!qualifier_is_demo("alt"));
}
