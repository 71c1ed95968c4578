//! The vault end to end, on rows that are kept in memory: A-10 Tank Killer's crack /
//! trainer variants collapsing into one Edition, Monkey Island 2 splitting into three
//! language Editions, sets, works, exports and re-identification.

use std::cell::{Cell, RefCell};
use std::collections::HashMap;

use amiga_game_vault::catalog::{
    empty_editions, empty_titles, set_siblings, upsert_edition, upsert_title, EditionRow, TitleRow,
};
use amiga_game_vault::dat::{match_entry, parse_dat, DatEntry};
use amiga_game_vault::db::{
    browse, dump_columns, edition_variants, info_from_row, lacks_qualifier, map_artifact,
    title_pattern, unique_uid_for, ArtifactRow, ArtifactView, BrowseArtifact, BrowseRow,
    EditionView, NewArtifact,
};
use amiga_game_vault::edition::{DumpInfo, EditionKey};
use amiga_game_vault::error::Error;
use amiga_game_vault::identity::{Hashes, UID_LEN};
use amiga_game_vault::ingest::Tools;
use amiga_game_vault::ranking::LineageCoverage;
use amiga_game_vault::service::listing::{
    group_sets, list_sets, variants_fit, with_screenshots, Screenshot, SetSource, SetView,
    TitleMeta,
};
use amiga_game_vault::service::playable::{playable_sets, PlayableSet};
use amiga_game_vault::service::primaries::{recompute_set_primaries, SetRows, Sibling};
use amiga_game_vault::service::reidentify::{reidentify_target, Reidentify, ReidentifyReport};
use amiga_game_vault::service::sets::{
    export_set, export_set_with, resolve_set, set_disks, set_lineages,
};
use amiga_game_vault::service::works::{list_works, totals_fit, WorkView};
use amiga_game_vault::service::{
    decode_upload, ingest_one, resolve_quarantine, IngestOutcome, IngestPlan, ResolveMeta,
};
use amiga_game_vault::store::{BlobStore, PutStep};

struct Edition {
    id: i64,
    title_id: i64,
    key: EditionKey,
    primary: Option<String>,
}

#[derive(Default)]
struct Vault {
    titles: RefCell<Vec<TitleRow>>,
    editions: RefCell<Vec<Edition>>,
    artifacts: RefCell<Vec<NewArtifact>>,
    quarantine: RefCell<Vec<(String, String)>>,
    dat: RefCell<Vec<DatEntry>>,
    blobs: RefCell<HashMap<String, Vec<u8>>>,
    last_id: Cell<i64>,
}

impl Vault {
    fn new() -> Vault {
        Vault::default()
    }

    fn store(&self) -> BlobStore {
        BlobStore {
            root: "blobs".to_string(),
        }
    }

    fn fresh_id(&self) -> i64 {
        self.last_id.set(self.last_id.get() + 1);
        self.last_id.get()
    }

    // --- Rows ---------------------------------------------------------------

    fn upsert_title(&self, name: &str, category: &str) -> i64 {
        let mut titles = self.titles.borrow_mut();
        if let Some(id) = upsert_title(&titles, name, category) {
            return id;
        }
        let id = self.fresh_id();
        titles.push(TitleRow {
            id,
            name: name.to_string(),
            category: category.to_string(),
        });
        id
    }

    fn upsert_edition(&self, title_id: i64, key: &EditionKey) -> i64 {
        if let Some(id) = upsert_edition(&self.rows(), title_id, key) {
            return id;
        }
        let id = self.fresh_id();
        self.editions.borrow_mut().push(Edition {
            id,
            title_id,
            key: key.clone(),
            primary: None,
        });
        id
    }

    fn ensure_edition(&self, category: &str, key: &EditionKey) -> i64 {
        let title_id = self.upsert_title(&key.title, category);
        self.upsert_edition(title_id, key)
    }

    fn set_primary(&self, edition_id: i64, uid: Option<&str>) {
        for e in self.editions.borrow_mut().iter_mut() {
            if e.id == edition_id {
                e.primary = uid.map(|u| u.to_string());
            }
        }
    }

    fn insert_artifact(&self, rec: NewArtifact) {
        self.artifacts.borrow_mut().push(rec);
    }

    fn variant_infos(&self, edition_id: i64) -> Vec<(String, DumpInfo)> {
        let mut rows: Vec<(String, DumpInfo)> = self
            .artifacts
            .borrow()
            .iter()
            .filter(|a| a.edition_id == Some(edition_id))
            .map(|a| (a.uid.clone(), info_from_row(dump_columns(a))))
            .collect();
        rows.sort_by(|a, b| a.0.cmp(&b.0));
        rows
    }

    fn rows(&self) -> Vec<EditionRow> {
        self.editions
            .borrow()
            .iter()
            .map(|e| EditionRow {
                id: e.id,
                title_id: e.title_id,
                version: e.key.version.clone(),
                language: e.key.language.clone(),
                publisher: e.key.publisher.clone(),
                qualifier: e.key.qualifier.clone(),
                disk_no: e.key.disk_no,
                disk_count: e.key.disk_count,
            })
            .collect()
    }

    fn set_rows(&self, edition_id: i64) -> SetRows {
        let (disk_count, rows) = set_siblings(&self.rows(), edition_id).unwrap();
        SetRows {
            disk_count,
            siblings: rows
                .into_iter()
                .map(|(edition_id, disk_no)| Sibling {
                    edition_id,
                    disk_no,
                    variants: self.variant_infos(edition_id),
                })
                .collect(),
        }
    }

    fn row(&self, a: &NewArtifact) -> ArtifactRow {
        let editions = self.editions.borrow();
        let key = editions
            .iter()
            .find(|e| Some(e.id) == a.edition_id)
            .map(|e| e.key.clone());
        ArtifactRow {
            uid: a.uid.clone(),
            display_title: a.display_title.clone(),
            dump_type: a.dump_type.clone(),
            crack_group: a.crack_group.clone(),
            trainer: a.trainer.clone(),
            year: a.year,
            verified: a.verified as i32,
            tosec_name: a.tosec_name.clone(),
            blob_sha1: a.blob_sha1.clone(),
            version: key.as_ref().and_then(|k| k.version.clone()),
            language: key.as_ref().and_then(|k| k.language.clone()),
            disk_no: key.as_ref().and_then(|k| k.disk_no),
            disk_count: key.as_ref().and_then(|k| k.disk_count),
            crc32: a.hashes.crc32.clone(),
            md5: a.hashes.md5.clone(),
            alt_index: a.alt_index,
        }
    }

    // --- Actions ------------------------------------------------------------

    fn ingest(&self, filename: &str, bytes: &[u8]) -> Result<Vec<IngestOutcome>, Error> {
        let mut outcomes = Vec::new();
        for d in decode_upload(filename, bytes, &Tools::default())? {
            let (hashes, _, step) = {
                let blobs = self.blobs.borrow();
                self.store().put(&d.adf, |p: &str| blobs.contains_key(p))
            };
            if let PutStep::Write { path, .. } = step {
                self.blobs.borrow_mut().insert(path, d.adf.clone());
            }
            let plan = self.plan(&d.name, &hashes, d.container.as_str())?;
            let outcome = plan.outcome();
            match plan {
                IngestPlan::Duplicate { .. } => {}
                IngestPlan::Identified {
                    mut record,
                    category,
                    key,
                } => {
                    let edition_id = self.ensure_edition(category.as_str(), &key);
                    record.edition_id = Some(edition_id);
                    self.insert_artifact(record);
                    self.recompute(edition_id);
                }
                IngestPlan::Unidentified { record, reason } => {
                    self.quarantine
                        .borrow_mut()
                        .push((record.uid.clone(), reason));
                    self.insert_artifact(record);
                }
            }
            outcomes.push(outcome);
        }
        Ok(outcomes)
    }

    fn plan(&self, name: &str, hashes: &Hashes, container: &str) -> Result<IngestPlan, Error> {
        let artifacts = self.artifacts.borrow();
        let dat = self.dat.borrow();
        ingest_one(
            name,
            hashes,
            container,
            |sha1: &str| {
                Ok(artifacts
                    .iter()
                    .find(|a| a.hashes.sha1 == sha1)
                    .map(|a| a.uid.clone()))
            },
            |uid: &str| {
                Ok(artifacts
                    .iter()
                    .find(|a| a.uid == uid)
                    .map(|a| a.hashes.sha1.clone()))
            },
            |h: &Hashes| Ok(match_entry(&dat, h).cloned()),
        )
    }

    fn recompute(&self, edition_id: i64) {
        for a in recompute_set_primaries(&self.set_rows(edition_id)) {
            self.set_primary(a.edition_id, a.primary.as_deref());
        }
    }

    fn resolve(&self, uid: &str, meta: &ResolveMeta) {
        let r = resolve_quarantine(meta);
        let edition_id = self.ensure_edition(&r.category, &r.key);
        for a in self.artifacts.borrow_mut().iter_mut() {
            if a.uid == uid {
                a.edition_id = Some(edition_id);
                a.display_title = Some(r.display_title.clone());
            }
        }
        self.quarantine.borrow_mut().retain(|(u, _)| u != uid);
        self.recompute(edition_id);
    }

    fn reidentify(&self) -> ReidentifyReport {
        let mut named: Vec<(String, String)> = self
            .artifacts
            .borrow()
            .iter()
            .filter_map(|a| a.tosec_name.clone().map(|n| (a.uid.clone(), n)))
            .collect();
        named.sort();
        let mut pass = Reidentify::new();
        for (uid, name) in &named {
            let current = self
                .artifacts
                .borrow()
                .iter()
                .find(|a| &a.uid == uid)
                .and_then(|a| a.edition_id);
            let category = current.map(|id| {
                let editions = self.editions.borrow();
                let e = editions.iter().find(|e| e.id == id).unwrap();
                self.titles
                    .borrow()
                    .iter()
                    .find(|t| t.id == e.title_id)
                    .unwrap()
                    .category
                    .clone()
            });
            let Some((category, key)) = reidentify_target(name, category.as_deref()) else {
                continue;
            };
            let target = self.ensure_edition(category.as_str(), &key);
            if pass.place(current, target) {
                for a in self.artifacts.borrow_mut().iter_mut() {
                    if &a.uid == uid {
                        a.edition_id = Some(target);
                    }
                }
            }
        }
        for id in &pass.affected {
            self.recompute(*id);
        }
        let used: Vec<i64> = self
            .artifacts
            .borrow()
            .iter()
            .filter_map(|a| a.edition_id)
            .collect();
        let empty = empty_editions(&self.rows(), &used);
        self.editions.borrow_mut().retain(|e| !empty.contains(&e.id));
        let editions_removed = empty.len();
        let used: Vec<i64> = self.editions.borrow().iter().map(|e| e.title_id).collect();
        let empty = empty_titles(&self.titles.borrow(), &used);
        self.titles.borrow_mut().retain(|t| !empty.contains(&t.id));
        let titles_removed = empty.len();
        pass.report(named.len(), editions_removed, titles_removed)
    }

    // --- Reads --------------------------------------------------------------

    fn browse(
        &self,
        q: Option<&str>,
        category: Option<&str>,
        language: Option<&str>,
    ) -> Vec<EditionView> {
        self.browse_status(q, category, language, None)
    }

    fn browse_status(
        &self,
        q: Option<&str>,
        category: Option<&str>,
        language: Option<&str>,
        status: Option<&str>,
    ) -> Vec<EditionView> {
        let pattern = title_pattern(q);
        let wanted = pattern.trim_matches('%').to_lowercase();
        let titles = self.titles.borrow();
        let artifacts = self.artifacts.borrow();
        let quarantine = self.quarantine.borrow();
        let mut rows: Vec<BrowseRow> = Vec::new();
        for e in self.editions.borrow().iter() {
            let t = titles.iter().find(|t| t.id == e.title_id).unwrap();
            if !t.name.to_lowercase().contains(&wanted) {
                continue;
            }
            rows.push(BrowseRow {
                edition_id: e.id,
                title_id: t.id,
                title: t.name.clone(),
                category: t.category.clone(),
                version: e.key.version.clone(),
                language: e.key.language.clone(),
                publisher: e.key.publisher.clone(),
                qualifier: e.key.qualifier.clone(),
                disk_no: e.key.disk_no,
                disk_count: e.key.disk_count,
                primary_uid: e.primary.clone(),
                artifacts: artifacts
                    .iter()
                    .filter(|a| a.edition_id == Some(e.id))
                    .map(|a| BrowseArtifact {
                        year: a.year,
                        verified: a.verified as i32,
                        quarantined: quarantine.iter().any(|(u, _)| u == &a.uid),
                    })
                    .collect(),
            });
        }
        browse(&rows, category, language, status)
    }

    fn variants(&self, edition_id: i64) -> Vec<ArtifactView> {
        let artifacts = self.artifacts.borrow();
        let mut rows: Vec<ArtifactRow> = artifacts
            .iter()
            .filter(|a| a.edition_id == Some(edition_id))
            .map(|a| self.row(a))
            .collect();
        rows.sort_by(|a, b| a.uid.cmp(&b.uid));
        let primary = self
            .editions
            .borrow()
            .iter()
            .find(|e| e.id == edition_id)
            .and_then(|e| e.primary.clone());
        edition_variants(rows, primary.as_deref())
    }

    fn get_artifact(&self, uid: &str) -> Option<ArtifactView> {
        self.artifacts
            .borrow()
            .iter()
            .find(|a| a.uid == uid)
            .map(|a| map_artifact(self.row(a)))
    }

    fn blob_for(&self, uid: &str) -> Option<(String, Vec<u8>)> {
        let v = self.get_artifact(uid)?;
        let path = self.store().path_for(&v.blob_sha1);
        Some((v.canonical_name, self.blobs.borrow()[&path].clone()))
    }

    fn list_sets(
        &self,
        q: Option<&str>,
        category: Option<&str>,
        language: Option<&str>,
        incomplete_only: bool,
    ) -> Vec<SetView> {
        let editions = self.browse(q, category, language);
        let sources: Vec<SetSource> = group_sets(&editions)
            .into_iter()
            .map(|editions| {
                assert!(variants_fit(&editions));
                SetSource {
                    rows: self.set_rows(editions[0].edition_id),
                    editions,
                    meta: None,
                }
            })
            .collect();
        list_sets(&sources, incomplete_only)
    }

    fn list_works(&self, q: Option<&str>) -> Vec<WorkView> {
        let sets = self.list_sets(q, None, None, false);
        assert!(totals_fit(&sets));
        list_works(&sets)
    }

    fn set_lineages(&self, edition_id: i64) -> Vec<LineageCoverage> {
        set_lineages(&self.set_rows(edition_id))
    }

    fn resolve_set(&self, edition_id: i64, lineage: &str) -> Vec<(u32, String)> {
        resolve_set(&self.set_rows(edition_id), lineage)
    }

    fn playable_sets(&self, edition_id: i64) -> Vec<PlayableSet> {
        playable_sets(edition_id, &self.set_rows(edition_id))
    }

    fn files(&self, uids: Vec<String>) -> Vec<(String, Vec<u8>)> {
        uids.iter().filter_map(|u| self.blob_for(u)).collect()
    }

    fn export_set(
        &self,
        edition_id: i64,
        lineage: &str,
    ) -> Result<Vec<(String, Vec<u8>)>, Error> {
        Ok(self.files(export_set(&self.set_rows(edition_id), lineage)?))
    }

    fn export_set_with(
        &self,
        edition_id: i64,
        lineage: &str,
        boot: Option<&str>,
    ) -> Result<Vec<(String, Vec<u8>)>, Error> {
        Ok(self.files(export_set_with(&self.set_rows(edition_id), lineage, boot)?))
    }
}

/// Distinct ADF bytes per variant, so each is a separate artifact.
fn adf_for(name: &str) -> Vec<u8> {
    let mut v = vec![0u8; 1024];
    v.extend_from_slice(name.as_bytes());
    v
}

fn adf(marker: &str) -> Vec<u8> {
    // Distinct bytes per marker so each is a different artifact.
    let mut v = vec![0u8; 512];
    v.extend_from_slice(marker.as_bytes());
    v
}

fn ingest(v: &Vault, name: &str) -> Vec<IngestOutcome> {
    v.ingest(name, &adf_for(name)).unwrap()
}

#[test]
fn a10_variants_collapse_and_pick_clean_primary() {
    let vault = Vault::new();

    let names = [
        "A-10 Tank Killer v1.0 (1990)(Dynamix)(Disk 1 of 2)[h PDX].adf",
        "A-10 Tank Killer v1.0 (1990)(Dynamix)(Disk 1 of 2)[h QTX][a2 highscore].adf",
        "A-10 Tank Killer v1.0 (1990)(Dynamix)(Disk 1 of 2)[h SR].adf",
        "A-10 Tank Killer v1.0 (1990)(Dynamix)(Disk 1 of 2)[cr QTX].adf",
        "A-10 Tank Killer v1.0 (1990)(Dynamix)(Disk 1 of 2)[cr QTX][b corrupt file].adf",
        "A-10 Tank Killer v1.0 (1990)(Dynamix)(Disk 1 of 2)[!].adf", // verified/original
    ];
    for n in names {
        assert!(matches!(ingest(&vault, n)[0], IngestOutcome::Stored { .. }));
    }

    // All six variants land in a single Edition.
    let editions = vault.browse(Some("A-10"), None, None);
    assert_eq!(
        editions.len(),
        1,
        "all A-10 disk-1 variants form one Edition"
    );
    let ed = &editions[0];
    assert_eq!(ed.title, "A-10 Tank Killer");
    assert_eq!(ed.disk_no, Some(1));
    assert_eq!(ed.disk_count, Some(2));
    assert_eq!(ed.variant_count, 6);

    let variants = vault.variants(ed.edition_id);
    let primaries: Vec<_> = variants.iter().filter(|v| v.is_primary).collect();
    assert_eq!(primaries.len(), 1, "exactly one primary");

    let primary = primaries[0];
    // The verified/original [!] dump must win over crack/hack variants...
    assert_eq!(primary.dump_type.as_deref(), Some("original"));
    // ...and it must never be the corrupt/bad dump.
    let bad = variants
        .iter()
        .find(|v| {
            v.tosec_name
                .as_deref()
                .map(|n| n.contains("corrupt"))
                .unwrap_or(false)
        })
        .unwrap();
    assert!(!bad.is_primary, "a bad dump is never primary");

    // Normalization: the primary's canonical filename is clean and self-identifying.
    assert!(
        primary.canonical_name.starts_with("A-10-Tank-Killer_v1.0"),
        "unexpected canonical name: {}",
        primary.canonical_name
    );
    assert!(primary
        .canonical_name
        .ends_with(&format!("_{}.adf", primary.uid)));

    // Download serves the stored bytes under the canonical name (bytes unchanged).
    let (name, bytes) = vault.blob_for(&primary.uid).unwrap();
    assert_eq!(name, primary.canonical_name);
    assert_eq!(bytes, adf_for(names[5]));
}

#[test]
fn mi2_splits_into_three_language_editions() {
    let vault = Vault::new();

    let names = [
        "Monkey Island 2 - LeChuck's Revenge v1.0 (1992)(C.T.O.)(IT)(Disk 1 of 11)[cr IBB].adf",
        "Monkey Island 2 - LeChuck's Revenge v1.0 (1992)(LucasArts - U.S. Gold)(Disk 1 of 11)[cr DTC].adf",
        "Monkey Island 2 - LeChuck's Revenge v1.0 (1992)(LucasArts)(ES)(Disk 1 of 11)[cr Crucial].adf",
    ];
    for n in names {
        ingest(&vault, n);
    }

    let editions = vault.browse(Some("Monkey Island 2"), None, None);
    assert_eq!(
        editions.len(),
        3,
        "IT / US / ES are three distinct Editions"
    );

    // Filtering by language narrows to the Spanish edition only.
    let es = vault.browse(Some("Monkey Island 2"), None, Some("es"));
    assert_eq!(es.len(), 1);
    assert_eq!(es[0].language.as_deref(), Some("es"));
}

#[test]
fn exact_duplicate_is_collapsed() {
    let vault = Vault::new();
    let name = "Agony (1992)(Psygnosis)(Disk 1 of 3)[cr CSL].adf";
    let bytes = adf_for(name);

    let first = vault.ingest(name, &bytes).unwrap();
    let second = vault.ingest(name, &bytes).unwrap();
    assert!(matches!(first[0], IngestOutcome::Stored { .. }));
    assert!(matches!(second[0], IngestOutcome::Duplicate { .. }));

    // Only one artifact exists for those bytes.
    let editions = vault.browse(Some("Agony"), None, None);
    assert_eq!(editions[0].variant_count, 1);
}

#[test]
fn unidentifiable_upload_is_quarantined_then_resolvable() {
    let vault = Vault::new();

    let out = vault
        .ingest("mystery-disk-047.adf", &adf_for("mystery"))
        .unwrap();
    let uid = match &out[0] {
        IngestOutcome::Stored {
            uid,
            quarantined: true,
            ..
        } => uid.clone(),
        other => panic!("expected quarantine, got {other:?}"),
    };
    assert_eq!(vault.quarantine.borrow().len(), 1);

    // Resolving it assigns identity and removes it from quarantine.
    vault.resolve(
        &uid,
        &ResolveMeta {
            title: "Lost Patrol".into(),
            category: "game".into(),
            version: Some("v1.0".into()),
            language: Some("en".into()),
            disk_no: Some(1),
            disk_count: Some(1),
            ..Default::default()
        },
    );

    assert_eq!(vault.quarantine.borrow().len(), 0);
    let editions = vault.browse(Some("Lost Patrol"), None, None);
    assert_eq!(editions.len(), 1);
    // The resolved artifact becomes the Edition's primary, rather than being
    // dropped and leaving the Edition with none.
    assert_eq!(editions[0].primary_uid.as_deref(), Some(uid.as_str()));
    // After resolution the artifact has a clean canonical name.
    let art = vault.get_artifact(&uid).unwrap();
    assert!(art
        .canonical_name
        .starts_with("Lost-Patrol_v1.0_en_d01of01_"));
}

#[test]
fn multidisk_set_picks_one_coherent_lineage() {
    // A 3-disk game where only lineage "DTC" spans all disks; "Conet" exists only
    // for disk 1. Every disk's primary must be DTC so the set is coherent (never
    // disk 1 = Conet while disk 2 = DTC).
    let vault = Vault::new();

    for n in [
        "Triple Quest (1992)(Acme)(Disk 1 of 3)[cr DTC].adf",
        "Triple Quest (1992)(Acme)(Disk 1 of 3)[cr Conet].adf",
        "Triple Quest (1992)(Acme)(Disk 2 of 3)[cr DTC].adf",
        "Triple Quest (1992)(Acme)(Disk 3 of 3)[cr DTC].adf",
    ] {
        ingest(&vault, n);
    }

    let editions = vault.browse(Some("Triple Quest"), None, None);
    assert_eq!(editions.len(), 3, "one Edition per disk");

    for ed in &editions {
        let variants = vault.variants(ed.edition_id);
        let primary = variants
            .iter()
            .find(|v| v.is_primary)
            .expect("each disk has a primary");
        assert_eq!(
            primary.crack_group.as_deref(),
            Some("DTC"),
            "disk {:?} primary must be the coherent DTC lineage, not a mixed one",
            ed.disk_no
        );
    }
}

#[test]
fn agony_demos_and_game_are_categorized_and_distinct() {
    // The 3-disk full game plus 1991 playable/rolling demos. Demos become category
    // `demo` with publisher `Psygnosis` preserved, and the two demo types stay
    // distinct via their qualifier.
    let vault = Vault::new();

    for n in [
        "Agony (demo-playable) (1991)(Psygnosis)[h PRD].adf",
        "Agony (demo-rolling) (1991)(Psygnosis).adf",
        "Agony (demo-rolling) (1991)(Psygnosis)[h TRSI].adf",
        "Agony (1992)(Psygnosis)(Disk 1 of 3)[cr CSL].adf",
    ] {
        ingest(&vault, n);
    }

    let eds = vault.browse(Some("Agony"), None, None);
    assert_eq!(
        eds.len(),
        3,
        "playable demo, rolling demo, and the game disk"
    );

    let demos: Vec<_> = eds.iter().filter(|e| e.category == "demo").collect();
    assert_eq!(demos.len(), 2, "two demo editions");
    assert!(
        demos
            .iter()
            .all(|e| e.publisher.as_deref() == Some("Psygnosis")),
        "publisher restored, not eaten by the demo token"
    );
    let mut quals: Vec<_> = demos.iter().filter_map(|e| e.qualifier.clone()).collect();
    quals.sort();
    assert_eq!(quals, vec!["demo-playable", "demo-rolling"]);

    let game: Vec<_> = eds.iter().filter(|e| e.category == "game").collect();
    assert_eq!(game.len(), 1);
    assert_eq!(game[0].disk_no, Some(1));
    assert_eq!(game[0].disk_count, Some(3));
    assert_eq!(game[0].publisher.as_deref(), Some("Psygnosis"));

    // The category filter is now meaningful.
    assert_eq!(vault.browse(Some("Agony"), Some("demo"), None).len(), 2);
    assert_eq!(vault.browse(Some("Agony"), Some("game"), None).len(), 1);
}

#[test]
fn agony_multi_disk_set_candidate_lineages_and_export() {
    // A 3-disk release with two complete lineages (Bobic all-3, CSL all-3) and a
    // partial one (A-Team missing disk 3). Verify set enumeration, coherence, and
    // coherent export.
    let vault = Vault::new();

    let mut names = vec![];
    for d in 1..=3 {
        names.push(format!(
            "Agony (1992)(Psygnosis)(Disk {d} of 3)[h Bobic][HD].adf"
        ));
        names.push(format!(
            "Agony (1992)(Psygnosis)(Disk {d} of 3)[cr CSL][t +9 TLPI].adf"
        ));
    }
    // extra CSL variant on disk 1, and a partial A-Team (disks 1 & 2 only)
    names.push("Agony (1992)(Psygnosis)(Disk 1 of 3)[cr CSL].adf".into());
    names.push("Agony (1992)(Psygnosis)(Disk 1 of 3)[cr A-Team][t +5 Access].adf".into());
    names.push("Agony (1992)(Psygnosis)(Disk 2 of 3)[cr A-Team].adf".into());
    for n in &names {
        ingest(&vault, n);
    }

    // One Set card, multi-disk, all 3 disks present.
    let sets = vault.list_sets(Some("Agony"), Some("game"), None, false);
    assert_eq!(sets.len(), 1);
    let s = &sets[0];
    assert!(s.multi);
    assert_eq!(s.disk_count, Some(3));
    assert_eq!(s.disks_present, vec![1, 2, 3]);
    assert_eq!(s.complete_lineages, 2, "Bobic and CSL are complete");

    // Candidate lineages: Bobic & CSL complete, A-Team partial (missing disk 3).
    let cov = vault.set_lineages(s.rep_edition_id);
    let by = |lin: &str| {
        cov.iter()
            .find(|c| c.lineage.as_deref() == Some(lin))
            .unwrap()
    };
    assert!(by("Bobic").complete && by("CSL").complete);
    assert!(!by("A-Team").complete);
    assert_eq!(by("A-Team").disks_covered, vec![1, 2]);
    assert_eq!(cov.iter().filter(|c| c.is_primary).count(), 1);

    // Resolve CSL to a coherent set: one file per disk, all CSL, never mixed.
    let resolved = vault.resolve_set(s.rep_edition_id, "CSL");
    assert_eq!(
        resolved.iter().map(|(d, _)| *d).collect::<Vec<_>>(),
        vec![1, 2, 3]
    );
    for (_disk, uid) in &resolved {
        let a = vault.get_artifact(uid).unwrap();
        assert!(a.tosec_name.unwrap().contains("[cr CSL]"));
    }

    // Coherent export = 3 files.
    let files = vault.export_set(s.rep_edition_id, "CSL").unwrap();
    assert_eq!(files.len(), 3);
}

#[test]
fn incomplete_set_is_flagged_and_single_disk_is_trivial() {
    let vault = Vault::new();
    // A 2-disk release with only disk 1 present.
    ingest(
        &vault,
        "Lemmings (1991)(Psygnosis)(Disk 1 of 2)[cr QTX].adf",
    );
    // A single-disk title.
    ingest(&vault, "Zool (1992)(Gremlin)[cr PDX].adf");

    let all = vault.list_sets(None, None, None, false);
    let lem = all.iter().find(|s| s.title == "Lemmings").unwrap();
    assert!(
        lem.multi && lem.complete_lineages == 0,
        "missing disk 2 => no complete set"
    );
    let zool = all.iter().find(|s| s.title == "Zool").unwrap();
    assert!(!zool.multi, "single-disk title is a trivial set");

    // Incomplete filter surfaces Lemmings, not the complete single-disk Zool.
    let incomplete = vault.list_sets(None, None, None, true);
    assert!(incomplete.iter().any(|s| s.title == "Lemmings"));
    assert!(!incomplete.iter().any(|s| s.title == "Zool"));
}

#[test]
fn export_set_refuses_incomplete_lineage() {
    // A-Team covers only disks 1 & 2 of a 3-disk set; exporting it must error
    // rather than silently produce a partial (unbootable) zip.
    let vault = Vault::new();
    for d in 1..=3 {
        ingest(
            &vault,
            &format!("Agony (1992)(Psygnosis)(Disk {d} of 3)[cr CSL].adf"),
        );
    }
    ingest(
        &vault,
        "Agony (1992)(Psygnosis)(Disk 1 of 3)[cr A-Team].adf",
    );
    ingest(
        &vault,
        "Agony (1992)(Psygnosis)(Disk 2 of 3)[cr A-Team].adf",
    );

    let sets = vault.list_sets(Some("Agony"), None, None, false);
    let rep = sets[0].rep_edition_id;

    // Complete lineage exports fine.
    assert_eq!(vault.export_set(rep, "CSL").unwrap().len(), 3);
    // Partial and unknown lineages are refused.
    assert!(vault.export_set(rep, "A-Team").is_err());
    assert!(vault.export_set(rep, "Nonexistent").is_err());
    assert_eq!(
        vault.export_set(rep, "Nonexistent").unwrap_err(),
        Error::Invalid("lineage 'Nonexistent' is not a complete set".into())
    );
}

#[test]
fn work_groups_releases_and_playable_sets_with_trainer_override() {
    let vault = Vault::new();
    // Two demos + a 3-disk CSL game whose boot disk has a plain and a trained variant.
    ingest(&vault, "Agony (demo-playable) (1991)(Psygnosis)[h PRD].adf");
    ingest(&vault, "Agony (demo-rolling) (1991)(Psygnosis).adf");
    ingest(&vault, "Agony (1992)(Psygnosis)(Disk 1 of 3)[cr CSL].adf");
    ingest(
        &vault,
        "Agony (1992)(Psygnosis)(Disk 1 of 3)[cr CSL][t +9 TLPI].adf",
    );
    ingest(&vault, "Agony (1992)(Psygnosis)(Disk 2 of 3)[cr CSL].adf");
    ingest(&vault, "Agony (1992)(Psygnosis)(Disk 3 of 3)[cr CSL].adf");

    // The Work gathers the game and both demos.
    let works = vault.list_works(Some("Agony"));
    assert_eq!(works.len(), 1);
    let w = &works[0];
    assert_eq!(w.name, "Agony");
    assert_eq!((w.game_count, w.demo_count), (1, 2));

    let game = w.releases.iter().find(|r| r.category == "game").unwrap();
    let rep = game.rep_edition_id;

    // Playable sets: CSL is a complete, recommended variation with a trainer choice.
    let sets = vault.playable_sets(rep);
    let csl = sets
        .iter()
        .find(|s| s.lineage.as_deref() == Some("CSL"))
        .unwrap();
    assert!(csl.complete && csl.is_recommended && csl.disks.len() == 3);
    assert_eq!(csl.trainer_options.len(), 2);
    let trained = csl
        .trainer_options
        .iter()
        .find(|t| t.trainer.as_deref() == Some("+9 TLPI"))
        .unwrap();
    let plain = csl
        .trainer_options
        .iter()
        .find(|t| t.trainer.is_none())
        .unwrap();
    assert!(
        plain.is_default,
        "ranking prefers the trainer-free boot disk"
    );

    // Default download uses the plain boot; the override swaps in the trained boot.
    let default_files = vault.export_set(rep, "CSL").unwrap();
    assert!(default_files.len() == 3 && default_files.iter().any(|(n, _)| n.contains(&plain.uid)));
    let trained_files = vault
        .export_set_with(rep, "CSL", Some(&trained.uid))
        .unwrap();
    assert!(trained_files.iter().any(|(n, _)| n.contains(&trained.uid)));
    // An invalid boot override falls back to the default (still a complete set).
    assert_eq!(
        vault
            .export_set_with(rep, "CSL", Some("deadbeef00"))
            .unwrap()
            .len(),
        3
    );
}

#[test]
fn single_release_title_is_a_trivial_work() {
    let vault = Vault::new();
    ingest(&vault, "Zool (1992)(Gremlin)[cr PDX].adf");
    let works = vault.list_works(Some("Zool"));
    assert_eq!(works.len(), 1);
    assert_eq!(works[0].release_count, 1);
    assert_eq!(works[0].game_count, 1);
}

#[test]
fn original_uncracked_set_is_downloadable() {
    // A clean uncracked multi-disk game (no [cr]/[h]) is the "original" lineage;
    // its coherent set must be exportable (its lineage tag is empty).
    let vault = Vault::new();
    ingest(&vault, "Lemmings (1991)(Psygnosis)(Disk 1 of 2).adf");
    ingest(&vault, "Lemmings (1991)(Psygnosis)(Disk 2 of 2).adf");

    let works = vault.list_works(Some("Lemmings"));
    let game = works[0]
        .releases
        .iter()
        .find(|r| r.category == "game")
        .unwrap();
    let sets = vault.playable_sets(game.rep_edition_id);
    let orig = sets.iter().find(|s| s.lineage.is_none()).unwrap();
    assert!(orig.complete, "the uncracked original set is complete");
    // The original (empty lineage tag) exports as a coherent 2-disk set.
    assert_eq!(
        vault
            .export_set_with(game.rep_edition_id, "", None)
            .unwrap()
            .len(),
        2
    );
}

#[test]
fn exact_duplicate_collapses() {
    let v = Vault::new();
    let bytes = adf("same");
    let a = v
        .ingest(
            "A-10 Tank Killer v1.0 (1990)(Dynamix)(Disk 1 of 2)[cr QTX].adf",
            &bytes,
        )
        .unwrap();
    let b = v
        .ingest(
            "A-10 Tank Killer v1.0 (1990)(Dynamix)(Disk 1 of 2)[cr QTX].adf",
            &bytes,
        )
        .unwrap();
    assert!(matches!(a[0], IngestOutcome::Stored { .. }));
    assert!(matches!(b[0], IngestOutcome::Duplicate { .. }));
}

#[test]
fn quarantine_on_unidentifiable() {
    let v = Vault::new();
    let out = v.ingest("disk047.adf", &adf("junk")).unwrap();
    assert!(matches!(
        out[0],
        IngestOutcome::Stored {
            quarantined: true,
            ..
        }
    ));
    assert_eq!(v.quarantine.borrow().len(), 1);
    assert_eq!(
        v.quarantine.borrow()[0].1,
        "no DAT match and unparseable filename"
    );
}

#[test]
fn reidentify_heals_mislabeled_demo_and_is_idempotent() {
    let v = Vault::new();

    // Filed as `game` with the demo token as the publisher.
    let title_id = v.upsert_title("Agony", "game");
    let key = EditionKey {
        title: "Agony".into(),
        version: None,
        language: None,
        publisher: Some("demo-playable".into()),
        qualifier: None,
        disk_no: None,
        disk_count: None,
    };
    let old_ed = v.upsert_edition(title_id, &key);
    let rec = NewArtifact {
        uid: "deadbeef01".into(),
        hashes: Hashes {
            sha1: "sha_agony_demo".into(),
            crc32: "c".into(),
            md5: "m".into(),
        },
        edition_id: Some(old_ed),
        display_title: Some("Agony".into()),
        tosec_name: Some("Agony (demo-playable) (1991)(Psygnosis)[h PRD].adf".into()),
        container: "adf".into(),
        blob_sha1: "sha_agony_demo".into(),
        ..Default::default()
    };
    v.insert_artifact(rec);
    v.set_primary(old_ed, Some("deadbeef01"));

    let rep = v.reidentify();
    assert_eq!(rep.moved, 1);
    assert!(rep.editions_removed >= 1 && rep.titles_removed >= 1);

    // Now a demo Title with the real publisher and qualifier; the game Title is gone.
    let demo = v.browse(Some("Agony"), Some("demo"), None);
    assert_eq!(demo.len(), 1);
    assert_eq!(demo[0].publisher.as_deref(), Some("Psygnosis"));
    assert_eq!(demo[0].qualifier.as_deref(), Some("demo-playable"));
    assert!(v.browse(Some("Agony"), Some("game"), None).is_empty());

    // Idempotent: a second pass moves nothing.
    assert_eq!(v.reidentify().moved, 0);
}

#[test]
fn a_second_pass_changes_nothing() {
    let v = Vault::new();
    for n in [
        "Zool (1992)(Gremlin)[cr PDX].adf",
        "Agony (demo-playable) (1991)(Psygnosis)[h PRD].adf",
        "Agony (1992)(Psygnosis)(Disk 1 of 3).adf",
        "junk.adf",
    ] {
        ingest(&v, n);
    }
    // One artifact is filed under a Title of its own that nothing else is of.
    let title_id = v.upsert_title("Wrong", "game");
    let wrong = v.upsert_edition(
        title_id,
        &EditionKey {
            title: "Wrong".into(),
            version: None,
            language: None,
            publisher: None,
            qualifier: None,
            disk_no: None,
            disk_count: None,
        },
    );
    let zool = v.artifacts.borrow()[0].edition_id;
    v.artifacts.borrow_mut()[0].edition_id = Some(wrong);
    let report = v.reidentify();
    assert_eq!(report.scanned, 3);
    assert_eq!(report.moved, 1);
    assert_eq!((report.editions_removed, report.titles_removed), (1, 1));
    assert_eq!(v.artifacts.borrow()[0].edition_id, zool);
    assert_eq!(v.artifacts.borrow().len(), 4);

    let placed: Vec<Option<i64>> = v.artifacts.borrow().iter().map(|a| a.edition_id).collect();
    let again = v.reidentify();
    assert_eq!(again.scanned, 3);
    assert_eq!(
        (again.moved, again.editions_removed, again.titles_removed),
        (0, 0, 0)
    );
    let now: Vec<Option<i64>> = v.artifacts.borrow().iter().map(|a| a.edition_id).collect();
    assert_eq!(now, placed);
}

#[test]
fn each_release_has_one_row() {
    let v = Vault::new();
    for n in [
        "Zool (1992)(Gremlin)(Disk 2 of 2)[cr PDX].adf",
        "Zool (1992)(Gremlin)(Disk 1 of 2)[cr PDX].adf",
        "Zool (1992)(Gremlin)(Disk 1 of 2)[cr QTX].adf",
        "Agony (1992)(Psygnosis)(Disk 3 of 3).adf",
        "Agony (1992)(Psygnosis)(Disk 1 of 3).adf",
        "Lemmings (1991)(Psygnosis)[b].adf",
    ] {
        ingest(&v, n);
    }
    let all = v.list_sets(None, None, None, false);
    let titles: Vec<&str> = all.iter().map(|s| s.title.as_str()).collect();
    assert_eq!(titles, vec!["Agony", "Lemmings", "Zool"]);
    assert_eq!(all[0].disks_present, vec![1, 3]);
    assert_eq!(all[2].disks_present, vec![1, 2]);
    assert_eq!(all[2].variant_count, 3);
    // The lowest disk is the representative.
    let disk_one = v
        .editions
        .borrow()
        .iter()
        .find(|e| e.key.title == "Zool" && e.key.disk_no == Some(1))
        .map(|e| e.id);
    assert_eq!(Some(all[2].rep_edition_id), disk_one);
    // Only those without a complete lineage are incomplete.
    let incomplete: Vec<String> = v
        .list_sets(None, None, None, true)
        .into_iter()
        .map(|s| s.title)
        .collect();
    let expected: Vec<String> = all
        .iter()
        .filter(|s| s.complete_lineages == 0)
        .map(|s| s.title.clone())
        .collect();
    assert_eq!(incomplete, expected);
    assert_eq!(incomplete, vec!["Agony", "Lemmings"]);
}

#[test]
fn titles_and_rows_left_empty_are_found() {
    let title = |id: i64, name: &str, category: &str| TitleRow {
        id,
        name: name.to_string(),
        category: category.to_string(),
    };
    let titles = [title(4, "Agony", "game"), title(9, "Agony", "demo")];
    assert_eq!(upsert_title(&titles, "Agony", "demo"), Some(9));
    assert_eq!(upsert_title(&titles, "Agony", "tool"), None);
    assert_eq!(upsert_title(&titles, "agony", "game"), None);
    assert_eq!(empty_titles(&titles, &[9, 9]), vec![4]);
    assert_eq!(empty_titles(&titles, &[]), vec![4, 9]);
    let row = |id: i64| EditionRow {
        id,
        title_id: 4,
        version: None,
        language: None,
        publisher: None,
        qualifier: None,
        disk_no: None,
        disk_count: None,
    };
    assert_eq!(empty_editions(&[row(1), row(2), row(3)], &[3, 1]), vec![2]);
}

#[test]
fn reidentify_preserves_dat_categorized_tool() {
    // A tool categorized via a DAT source at ingest (no qualifier in the
    // name) must not be downgraded to `game` by re-identify.
    let v = Vault::new();
    let title_id = v.upsert_title("DiskMaster", "tool");
    let key = EditionKey {
        title: "DiskMaster".into(),
        version: None,
        language: None,
        publisher: Some("SomeCorp".into()),
        qualifier: None,
        disk_no: None,
        disk_count: None,
    };
    let ed = v.upsert_edition(title_id, &key);
    let rec = NewArtifact {
        uid: "toolaaaa01".into(),
        hashes: Hashes {
            sha1: "sha_tool".into(),
            crc32: "c".into(),
            md5: "m".into(),
        },
        edition_id: Some(ed),
        display_title: Some("DiskMaster".into()),
        tosec_name: Some("DiskMaster (1990)(SomeCorp).adf".into()),
        container: "adf".into(),
        blob_sha1: "sha_tool".into(),
        ..Default::default()
    };
    v.insert_artifact(rec);
    v.set_primary(ed, Some("toolaaaa01"));

    let rep = v.reidentify();
    assert_eq!(rep.moved, 0, "category preserved, nothing to move");
    assert_eq!(v.browse(Some("DiskMaster"), Some("tool"), None).len(), 1);
    assert!(v.browse(Some("DiskMaster"), Some("game"), None).is_empty());
}

#[test]
fn a_catalogued_dump_is_verified_under_its_catalogue_name() {
    let vault = Vault::new();
    let bytes = adf("catalogued");
    let sha1 = amiga_game_vault::identity::hash_bytes(&bytes).sha1;
    let xml = format!(
        "<game name=\"DiskMaster v2.0 (1990)(SomeCorp)\"><rom name=\"d.adf\" sha1=\"{}\"/></game>",
        sha1.to_uppercase()
    );
    *vault.dat.borrow_mut() = parse_dat(&xml, "Amiga - Applications");
    let out = vault.ingest("whatever.adf", &bytes).unwrap();
    assert!(matches!(
        out[0],
        IngestOutcome::Stored {
            verified: true,
            quarantined: false,
            ..
        }
    ));
    let eds = vault.browse(Some("DiskMaster"), None, None);
    assert_eq!(eds.len(), 1);
    assert_eq!(eds[0].category, "tool");
    assert_eq!(eds[0].version.as_deref(), Some("v2.0"));
    let all = vault.variants(eds[0].edition_id);
    assert!(all[0].verified);
    assert_eq!(
        all[0].tosec_name.as_deref(),
        Some("DiskMaster v2.0 (1990)(SomeCorp)")
    );
}

#[test]
fn migration_and_uid_uniqueness() {
    let v = Vault::new();
    let sha = "abcdef0123456789abcdef0123456789abcdef01";
    let uid = unique_uid_for(sha, |_: &str| Ok(None)).unwrap();
    assert_eq!(uid, &sha[..UID_LEN]);

    let mut a = NewArtifact {
        uid: uid.clone(),
        blob_sha1: sha.to_string(),
        container: "adf".into(),
        ..Default::default()
    };
    a.hashes = Hashes {
        sha1: sha.into(),
        crc32: "c".into(),
        md5: "m".into(),
    };
    v.insert_artifact(a);

    let hashes = v.artifacts.borrow()[0].hashes.clone();
    assert!(matches!(
        v.plan("x.adf", &hashes, "adf").unwrap(),
        IngestPlan::Duplicate { uid: found } if found == uid
    ));
    // A lookup that fails is handed on.
    assert_eq!(
        unique_uid_for(sha, |_: &str| Err(Error::Db("locked".into()))),
        Err(Error::Db("locked".into()))
    );
}

fn browse_row(
    edition_id: i64,
    title: &str,
    language: Option<&str>,
    disk_no: Option<u32>,
    artifacts: Vec<BrowseArtifact>,
) -> BrowseRow {
    BrowseRow {
        edition_id,
        title_id: 1,
        title: title.into(),
        category: if edition_id == 5 { "demo" } else { "game" }.into(),
        version: None,
        language: language.map(|l| l.to_string()),
        publisher: None,
        qualifier: None,
        disk_no,
        disk_count: None,
        primary_uid: None,
        artifacts,
    }
}

fn artifact(year: Option<i32>, verified: i32, quarantined: bool) -> BrowseArtifact {
    BrowseArtifact {
        year,
        verified,
        quarantined,
    }
}

#[test]
fn browsing_filters_and_sorts_editions() {
    let rows = vec![
        browse_row(1, "Zool", None, Some(2), vec![artifact(None, 0, false)]),
        browse_row(
            2,
            "Zool",
            None,
            Some(1),
            vec![
                artifact(Some(1993), 0, true),
                artifact(Some(1992), 1, false),
                artifact(None, 0, false),
            ],
        ),
        browse_row(3, "Agony", Some("de"), None, vec![artifact(Some(1991), 2, true)]),
        browse_row(4, "Agony", None, Some(1), vec![]),
        browse_row(5, "Agony", Some("de"), None, vec![artifact(None, 1, false)]),
    ];
    let ids = |category: Option<&str>, language: Option<&str>, status: Option<&str>| {
        browse(&rows, category, language, status)
            .iter()
            .map(|e| e.edition_id)
            .collect::<Vec<i64>>()
    };
    // By title, language (none first) and disk; equal ones keep their order.
    let all = ids(None, None, None);
    assert_eq!(all, vec![4, 3, 5, 2, 1]);
    assert_eq!(ids(Some(""), Some(""), Some("other")), all);
    assert_eq!(ids(Some("demo"), None, None), vec![5]);
    assert_eq!(ids(None, Some("de"), None), vec![3, 5]);
    assert_eq!(ids(None, Some("fr"), None), Vec::<i64>::new());
    // Verified and unverified make up all.
    let verified = ids(None, None, Some("verified"));
    let unverified = ids(None, None, Some("unverified"));
    assert_eq!(verified, vec![5, 2]);
    assert_eq!(unverified, vec![4, 3, 1]);
    assert_eq!(ids(None, None, Some("quarantined")), vec![3, 2]);
    // The earliest year, and every artifact counted.
    let zool = browse(&rows, None, None, Some("verified")).pop().unwrap();
    assert_eq!((zool.year, zool.variant_count), (Some(1992), 3));
    let empty = &browse(&rows, None, None, None)[0];
    assert_eq!((empty.year, empty.variant_count), (None, 0));
}

#[test]
fn titles_are_asked_for_by_a_pattern() {
    assert_eq!(title_pattern(Some("Ago")), "%Ago%");
    assert_eq!(title_pattern(Some("")), "%%");
    assert_eq!(title_pattern(None), "%");
}

#[test]
fn catalogued_uploads_browse_as_verified() {
    let vault = Vault::new();
    ingest(&vault, "Zool (1992)(Gremlin).adf");
    assert!(vault
        .browse_status(None, None, None, Some("verified"))
        .is_empty());
    assert_eq!(
        vault
            .browse_status(None, None, None, Some("unverified"))
            .len(),
        1
    );
}

#[test]
fn old_tables_lack_the_qualifier() {
    let columns = |names: &[&str]| names.iter().map(|n| n.to_string()).collect::<Vec<String>>();
    assert!(lacks_qualifier(&columns(&["id", "title_id", "publisher"])));
    assert!(!lacks_qualifier(&columns(&["id", "qualifier"])));
    assert!(lacks_qualifier(&[]));
}

#[test]
fn the_first_screenshot_is_the_cover() {
    let shot = |sha1: &str| Screenshot {
        sha1: sha1.into(),
        caption: None,
    };
    let meta = TitleMeta {
        genre: Some("puzzle".into()),
        description: None,
        year: Some(1991),
        sources: None,
        external_url: None,
        cover_sha1: Some("old".into()),
        screenshots: vec![],
    };
    let shown = with_screenshots(meta.clone(), vec![shot("b"), shot("a")]);
    assert_eq!(shown.cover_sha1.as_deref(), Some("b"));
    assert_eq!(shown.screenshots.len(), 2);
    assert_eq!(shown.genre.as_deref(), Some("puzzle"));
    assert_eq!(with_screenshots(meta, vec![]).cover_sha1, None);
}

#[test]
fn editions_are_found_by_their_key() {
    let row = |id: i64, version: Option<&str>, disk_no: Option<u32>| EditionRow {
        id,
        title_id: 1,
        version: version.map(|v| v.to_string()),
        language: None,
        publisher: None,
        qualifier: None,
        disk_no,
        disk_count: Some(2),
    };
    let rows = [
        row(5, None, Some(2)),
        row(6, Some("v1.0"), Some(1)),
        row(7, None, Some(1)),
        row(8, None, None),
    ];
    let key = |version: Option<&str>, disk_no: Option<u32>| EditionKey {
        title: "X".into(),
        version: version.map(|v| v.to_string()),
        language: None,
        publisher: None,
        qualifier: None,
        disk_no,
        disk_count: Some(2),
    };
    assert_eq!(upsert_edition(&rows, 1, &key(None, Some(1))), Some(7));
    assert_eq!(upsert_edition(&rows, 1, &key(Some("v1.0"), Some(1))), Some(6));
    assert_eq!(upsert_edition(&rows, 1, &key(Some("v1.0"), Some(2))), None);
    assert_eq!(upsert_edition(&rows, 2, &key(None, Some(1))), None);

    // A set is the same for each of its Editions; one without a number comes first.
    let set = Some((Some(2), vec![(8, None), (7, Some(1)), (5, Some(2))]));
    assert_eq!(set_siblings(&rows, 5), set);
    assert_eq!(set_siblings(&rows, 7), set);
    assert_eq!(set_siblings(&rows, 6), Some((Some(2), vec![(6, Some(1))])));
    assert_eq!(set_siblings(&rows, 9), None);
}

#[test]
fn the_disks_of_a_set_are_in_order() {
    assert_eq!(
        set_disks(&[(7, Some(2)), (5, None), (6, Some(1))]),
        vec![(0, 5), (1, 6), (2, 7)]
    );
}

#[test]
fn releases_count_their_lineages_by_class() {
    let vault = Vault::new();
    for n in [
        "Zool (1992)(Gremlin)[cr PDX].adf",
        "Zool (1992)(Gremlin)[h SR].adf",
        "Zool (1992)(Gremlin).adf",
        "Zool (1992)(Gremlin)[cr QTX][b].adf",
    ] {
        ingest(&vault, n);
    }
    let works = vault.list_works(Some("zool"));
    assert_eq!(works.len(), 1);
    let w = &works[0];
    assert_eq!(
        (w.original_count, w.cracked_count, w.hacked_count),
        (1, 1, 1)
    );
    assert_eq!(w.releases[0].variant_count, 4);
    assert_eq!(w.releases[0].complete_lineages, 3);
    assert_eq!(w.releases[0].year, Some(1992));
}
