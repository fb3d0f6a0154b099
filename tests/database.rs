use std::sync::Arc;

use objdiff_core::bindings::report::{Measures, Report, ReportUnit};
use progress_store::db::{Database, ReportFile};
use progress_store::models::{Commit, Project};
use progress_store::store::{Store, StoreError};

fn project() -> Project {
    Project {
        id: 42,
        owner: "PrimeDecomp".to_string(),
        repo: "Prime".to_string(),
        name: None,
        short_name: None,
        default_version: None,
        platform: None,
    }
}

fn unit(name: &str, total_code: u64) -> ReportUnit {
    ReportUnit {
        name: name.to_string(),
        measures: Some(Measures { total_code, ..Default::default() }),
        sections: vec![],
        functions: vec![],
        metadata: None,
    }
}

fn sample() -> Report {
    Report {
        measures: Some(Measures { total_code: 30, ..Default::default() }),
        units: vec![unit("main/b.c", 20), unit("main/a.c", 10)],
        version: 2,
        categories: vec![],
    }
}

fn file(sha: &str, version: &str) -> ReportFile {
    ReportFile {
        project: project(),
        commit: Commit { sha: sha.to_string(), timestamp: 1000 },
        version: version.to_string(),
        report: Arc::new(sample()),
    }
}

#[test]
fn inserted_report_reads_back() {
    let mut db = Database::new(Store::new());
    db.insert_report(&file("deadbeef", "GM8E01")).unwrap();
    let got = db.get_report("primedecomp", "prime", "DEADBEEF", "gm8e01").unwrap().unwrap();
    assert_eq!(got.version, "GM8E01");
    assert_eq!(got.commit.sha, "deadbeef");
    assert_eq!(*got.report, sample());
    assert!(db.report_exists("PRIMEDECOMP", "PRIME", "deadbeef"));
}

#[test]
fn report_rebuilt_from_tables_in_order() {
    let mut db = Database::new(Store::new());
    db.insert_report(&file("c0ffee", "v")).unwrap();
    let mut fresh = Database::new(db.store);
    let got = fresh.get_report("PrimeDecomp", "Prime", "c0ffee", "v").unwrap().unwrap();
    let names: Vec<&str> = got.report.units.iter().map(|u| u.name.as_str()).collect();
    assert_eq!(names, vec!["main/b.c", "main/a.c"]);
    assert_eq!(*got.report, sample());
}

#[test]
fn missing_report_is_none() {
    let mut db = Database::new(Store::new());
    db.insert_report(&file("c0ffee", "v")).unwrap();
    assert!(db.get_report("PrimeDecomp", "Prime", "c0ffee", "w").unwrap().is_none());
    assert!(db.get_report("PrimeDecomp", "Echoes", "c0ffee", "v").unwrap().is_none());
}

#[test]
fn tampered_unit_fails_read() {
    let mut db = Database::new(Store::new());
    db.insert_report(&file("c0ffee", "v")).unwrap();
    let mut store = db.store;
    store.units[0].data = progress_store::codec::compress(b"\x0a\x01x");
    let mut fresh = Database::new(store);
    let got = fresh.get_report("PrimeDecomp", "Prime", "c0ffee", "v");
    assert!(matches!(got, Err(StoreError::HashMismatch { index: 0 })));
}

#[test]
fn listing_after_insert() {
    let mut db = Database::new(Store::new());
    db.insert_report(&file("c0ffee", "v1")).unwrap();
    db.insert_report(&file("c0ffee", "v2")).unwrap();
    let list = db.get_projects();
    assert_eq!(list.len(), 1);
    assert_eq!(list[0].project.id, 42);
    assert_eq!(list[0].report_versions, vec!["v1".to_string(), "v2".to_string()]);
    let info = db.get_project_info("primedecomp", "prime", None).unwrap();
    assert_eq!(info.commit.sha, "c0ffee");
    db.fixup_report_units().unwrap();
    assert!(db.store.units.iter().all(|u| u.name.is_some()));
}

#[test]
fn cached_report_served_for_any_case() {
    let mut db = Database::new(Store::new());
    db.insert_report(&file("C0FFEE", "GM8E01")).unwrap();
    // the tables no longer check out, so only the cache can answer
    db.store.units[0].data = progress_store::codec::compress(b"\x0a\x01x");
    let got = db.get_report("PRIMEDECOMP", "prime", "c0ffee", "gm8e01").unwrap().unwrap();
    assert_eq!(*got.report, sample());
    assert_eq!(got.commit.sha, "C0FFEE");
}
