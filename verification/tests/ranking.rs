//! Which dump of a disk, and which lineage of a set, comes first.

use amiga_game_vault::edition::{interpret_flags, DumpInfo};
use amiga_game_vault::naming::parse_tosec;
use amiga_game_vault::ranking::{
    lineage_coverage, primary_set_for_lineage, rank_before, rank_key, select_primary,
    select_primary_lineage, DiskMember,
};

fn info(name: &str) -> DumpInfo {
    interpret_flags(&parse_tosec(name).unwrap().flags)
}

fn member(disk_no: u32, lineage: Option<&str>, name: &str, tiebreak: &str) -> DiskMember {
    DiskMember {
        disk_no,
        lineage: lineage.map(|l| l.to_string()),
        info: info(name),
        tiebreak: tiebreak.to_string(),
    }
}

#[test]
fn disqualified_never_primary() {
    let variants: Vec<(DumpInfo, String)> = vec![
        (
            info("Agony (1992)(P)(Disk 1 of 3)[cr CSL][b corrupt file].adf"),
            "uid_bad".into(),
        ),
        (
            info("Agony (1992)(P)(Disk 1 of 3)[cr CSL].adf"),
            "uid_ok".into(),
        ),
    ];
    let idx = select_primary(&variants).unwrap();
    assert_eq!(variants[idx].1, "uid_ok");
}

#[test]
fn prefers_least_modified() {
    let variants: Vec<(DumpInfo, String)> = vec![
        (
            info("A-10 (1990)(D)(Disk 1 of 2)[cr QTX][t +5][h SR].adf"),
            "uid_heavy".into(),
        ),
        (
            info("A-10 (1990)(D)(Disk 1 of 2)[cr QTX].adf"),
            "uid_light".into(),
        ),
    ];
    let idx = select_primary(&variants).unwrap();
    assert_eq!(variants[idx].1, "uid_light");
}

#[test]
fn prefers_verified_original() {
    let variants: Vec<(DumpInfo, String)> = vec![
        (
            info("A-10 (1990)(D)(Disk 1 of 2)[cr QTX].adf"),
            "uid_crack".into(),
        ),
        (
            info("A-10 (1990)(D)(Disk 1 of 2)[!].adf"),
            "uid_verified".into(),
        ),
    ];
    let idx = select_primary(&variants).unwrap();
    assert_eq!(variants[idx].1, "uid_verified");
}

#[test]
fn base_before_alternate_and_deterministic() {
    let variants: Vec<(DumpInfo, String)> = vec![
        (
            info("A-10 (1990)(D)(Disk 1 of 2)[cr QTX][a2].adf"),
            "uid_a2".into(),
        ),
        (
            info("A-10 (1990)(D)(Disk 1 of 2)[cr QTX].adf"),
            "uid_base".into(),
        ),
    ];
    assert_eq!(variants[select_primary(&variants).unwrap()].1, "uid_base");
    // Deterministic: reversing input order yields the same winner.
    let mut rev = variants.clone();
    rev.reverse();
    assert_eq!(rev[select_primary(&rev).unwrap()].1, "uid_base");
}

#[test]
fn all_disqualified_returns_none() {
    let variants: Vec<(DumpInfo, String)> = vec![
        (
            info("A-10 (1990)(D)(Disk 1 of 2)[cr X][b].adf"),
            "uid1".into(),
        ),
        (
            info("A-10 (1990)(D)(Disk 1 of 2)[h Y][v virus].adf"),
            "uid2".into(),
        ),
    ];
    assert!(select_primary(&variants).is_none());
}

#[test]
fn complete_lineage_preferred_over_partial() {
    let mut members = Vec::new();
    // DTC: complete 1..3
    for d in 1..=3 {
        members.push(DiskMember {
            disk_no: d,
            lineage: Some("DTC".into()),
            info: info("X (1992)(L)(Disk 1 of 3)[cr DTC].adf"),
            tiebreak: format!("dtc{d}"),
        });
    }
    // Conet: only disk 1
    members.push(DiskMember {
        disk_no: 1,
        lineage: Some("Conet".into()),
        info: info("X (1992)(L)(Disk 1 of 3)[cr Conet].adf"),
        tiebreak: "conet1".into(),
    });

    let lineage = select_primary_lineage(&members, 3).unwrap();
    assert_eq!(lineage, "DTC");
    let set = primary_set_for_lineage(&members, &lineage);
    assert_eq!(
        set.len(),
        3,
        "primary set spans all three disks of one lineage"
    );
}

#[test]
fn lineage_coverage_enumerates_complete_and_partial() {
    let mut members = Vec::new();
    let mut push = |disk: u32, lin: &str, tag: &str| {
        members.push(DiskMember {
            disk_no: disk,
            lineage: Some(lin.into()),
            info: info(&format!("Agony (1992)(P)(Disk {disk} of 3)[cr {lin}].adf")),
            tiebreak: tag.into(),
        });
    };
    // Bobic: complete (a plain crack, fewest mods → the auto-primary)
    for d in 1..=3 {
        push(d, "Bobic", &format!("bobic{d}"));
    }
    // CSL: complete, with several variants on disk 1
    for d in 1..=3 {
        push(d, "CSL", &format!("csl{d}"));
    }
    push(1, "CSL", "csl1b");
    push(1, "CSL", "csl1c");
    // A-Team: partial — missing disk 3
    push(1, "A-Team", "at1");
    push(2, "A-Team", "at2");

    let cov = lineage_coverage(&members, 3);
    let by: std::collections::HashMap<_, _> = cov
        .iter()
        .map(|c| (c.lineage.clone().unwrap(), c))
        .collect();

    assert!(by["Bobic"].complete && by["CSL"].complete);
    assert!(!by["A-Team"].complete);
    assert_eq!(by["A-Team"].disks_covered, vec![1, 2]);
    // Complete lineages sort before the partial one.
    assert!(cov.last().unwrap().lineage.as_deref() == Some("A-Team"));
    // Exactly one lineage is marked the auto-primary, and it is complete.
    let primaries: Vec<_> = cov.iter().filter(|c| c.is_primary).collect();
    assert_eq!(primaries.len(), 1);
    assert!(primaries[0].complete);
}

#[test]
fn equal_dumps_fall_back_to_the_tiebreak() {
    let name = "A-10 (1990)(D)(Disk 1 of 2)[cr QTX].adf";
    let variants: Vec<(DumpInfo, String)> = vec![
        (info(name), "bbb".into()),
        (info(name), "aaa".into()),
        (info(name), "ccc".into()),
    ];
    assert_eq!(select_primary(&variants), Some(1));
    assert_eq!(select_primary(&[]), None);
}

#[test]
fn rank_keys_order_dumps() {
    let plain = rank_key(&info("A (1990)(D).adf"));
    assert_eq!(plain, (false, 0, false, 0));
    let good = rank_key(&info("A (1990)(D)[cr X][!].adf"));
    assert_eq!(good, (false, 1, false, 0));
    let crack = rank_key(&info("A (1990)(D)[cr X].adf"));
    assert_eq!(crack, (true, 1, false, 0));
    let trained = rank_key(&info("A (1990)(D)[t +3][a2].adf"));
    assert_eq!(trained, (true, 1, true, 2));
    assert!(rank_before(plain, good));
    assert!(rank_before(good, crack));
    assert!(rank_before(crack, trained));
    assert!(!rank_before(crack, plain));
    assert!(!rank_before(plain, plain));
}

#[test]
fn coverage_marks_what_select_primary_lineage_picks() {
    let members = vec![
        member(1, Some("CSL"), "A (1992)(P)(Disk 1 of 2)[cr CSL].adf", "a"),
        member(2, Some("CSL"), "A (1992)(P)(Disk 2 of 2)[cr CSL].adf", "b"),
        member(1, None, "A (1992)(P)(Disk 1 of 2).adf", "c"),
    ];
    let cov = lineage_coverage(&members, 2);
    assert_eq!(cov.len(), 2);
    assert_eq!(cov[0].lineage.as_deref(), Some("CSL"));
    assert!(cov[0].complete && cov[0].is_primary);
    assert_eq!(cov[1].lineage, None);
    assert!(!cov[1].complete && !cov[1].is_primary);
    assert_eq!(select_primary_lineage(&members, 2).as_deref(), Some("CSL"));
}

#[test]
fn the_least_modified_complete_lineage_is_primary() {
    let members = vec![
        member(1, Some("A"), "X (1992)(P)(Disk 1 of 2)[cr A][t +1].adf", "a1"),
        member(2, Some("A"), "X (1992)(P)(Disk 2 of 2)[cr A].adf", "a2"),
        member(1, Some("B"), "X (1992)(P)(Disk 1 of 2)[cr B].adf", "b1"),
        member(2, Some("B"), "X (1992)(P)(Disk 2 of 2)[cr B].adf", "b2"),
        member(1, Some("C"), "X (1992)(P)(Disk 1 of 2)[cr C].adf", "c1"),
        member(2, Some("C"), "X (1992)(P)(Disk 2 of 2)[cr C].adf", "c2"),
    ];
    // B and C have fewer modifications than A, and B comes before C.
    assert_eq!(select_primary_lineage(&members, 2).as_deref(), Some("B"));
    let order: Vec<Option<String>> = lineage_coverage(&members, 2)
        .into_iter()
        .map(|c| c.lineage)
        .collect();
    assert_eq!(
        order,
        vec![Some("B".into()), Some("C".into()), Some("A".into())]
    );
}

#[test]
fn a_bad_dump_covers_no_disk() {
    let members = vec![
        member(1, Some("X"), "A (1992)(P)(Disk 1 of 2)[cr X].adf", "a"),
        member(2, Some("X"), "A (1992)(P)(Disk 2 of 2)[cr X][b].adf", "b"),
    ];
    let cov = lineage_coverage(&members, 2);
    assert_eq!(cov[0].disks_covered, vec![1]);
    assert!(!cov[0].complete);
    assert_eq!(primary_set_for_lineage(&members, "X"), vec![0]);
}

#[test]
fn a_set_holds_the_best_dump_of_each_disk() {
    let members = vec![
        member(2, Some("X"), "A (1992)(P)(Disk 2 of 2)[cr X].adf", "d"),
        member(1, Some("X"), "A (1992)(P)(Disk 1 of 2)[cr X][t +1].adf", "a"),
        member(1, Some("X"), "A (1992)(P)(Disk 1 of 2)[cr X].adf", "b"),
        member(1, Some("Y"), "A (1992)(P)(Disk 1 of 2)[!].adf", "c"),
    ];
    assert_eq!(primary_set_for_lineage(&members, "X"), vec![2, 0]);
    assert_eq!(primary_set_for_lineage(&members, "Z"), Vec::<usize>::new());
}

#[test]
fn disks_beyond_the_count_do_not_outweigh_modifications() {
    let members = vec![
        member(1, Some("A"), "X (1992)(P)[cr A].adf", "A"),
        member(1, Some("B"), "X (1992)(P)[cr B].adf", "B"),
        member(2, Some("B"), "X (1992)(P)[cr B].adf", "B"),
    ];
    // Both lineages cover disk 1; A has one modification, B has two.
    assert_eq!(select_primary_lineage(&members, 1).as_deref(), Some("A"));
    let order: Vec<Option<String>> = lineage_coverage(&members, 1)
        .into_iter()
        .map(|c| c.lineage)
        .collect();
    assert_eq!(order, vec![Some("A".into()), Some("B".into())]);
    // Of three disks both are partial, and the wider coverage counts first.
    assert_eq!(select_primary_lineage(&members, 3).as_deref(), Some("B"));
    assert_eq!(select_primary_lineage(&[], 1), None);
}
