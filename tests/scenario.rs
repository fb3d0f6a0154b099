use std::io::{Cursor, Write};
use std::sync::Arc;

use objdiff_core::bindings::report::{Measures, Report, ReportUnit};
use progress_store::artifact::{artifact_versions, process_artifact};
use progress_store::db::Database;
use progress_store::models::{Commit, Project};
use progress_store::store::Store;
use progress_store::sync::{run_reports, scan_page, RunInfo};
use prost::Message;

fn archive(units: &[&str]) -> Vec<u8> {
    let rep = Report {
        measures: Some(Measures::default()),
        units: units
            .iter()
            .map(|n| ReportUnit { name: n.to_string(), measures: Some(Measures::default()), ..Default::default() })
            .collect(),
        version: 2,
        categories: vec![],
    };
    let mut w = zip::ZipWriter::new(Cursor::new(Vec::new()));
    w.start_file("dist/report.binpb", zip::write::SimpleFileOptions::default()).unwrap();
    w.write_all(&rep.encode_to_vec()).unwrap();
    w.finish().unwrap().into_inner()
}

#[test]
fn bootstrap_sync_lists_project() {
    let project = Project {
        id: 9,
        owner: "doldecomp".to_string(),
        repo: "melee".to_string(),
        name: None,
        short_name: None,
        default_version: None,
        platform: None,
    };
    let mut db = Database::new(Store::new());
    assert!(db.get_project_info("doldecomp", "melee", None).is_none());
    // newest first; the stop run is 101
    let page = vec![
        RunInfo { id: 103, head_sha: "c3".to_string() },
        RunInfo { id: 102, head_sha: "c2".to_string() },
        RunInfo { id: 101, head_sha: "c1".to_string() },
        RunInfo { id: 100, head_sha: "c0".to_string() },
    ];
    let d = scan_page(&page, None, 101);
    assert_eq!((d.take, d.finished), (3, true));
    let names = vec!["GALE01_report".to_string(), "GALE01_maps".to_string()];
    let versions = artifact_versions(&names);
    assert_eq!(versions[0].as_deref(), Some("GALE01"));
    for (t, run) in page[..d.take].iter().enumerate() {
        let commit = Commit { sha: run.head_sha.clone(), timestamp: 1000 - t as i64 };
        assert!(!db.report_exists("doldecomp", "melee", &commit.sha));
        let found = process_artifact(archive(&["a.c", "b.c"]), versions[0].as_deref().unwrap()).unwrap();
        let found: Vec<(String, Arc<Report>)> = found;
        for file in run_reports(&project, &commit, found) {
            db.insert_report(&file).unwrap();
        }
    }
    assert_eq!(db.store.reports.len(), 3);
    assert_eq!(db.store.units.len(), 2);
    assert_eq!(db.store.links.len(), 6);
    let list = db.get_projects();
    assert_eq!(list.len(), 1);
    assert_eq!(list[0].commit.sha, "c3");
    assert_eq!(list[0].report_versions, vec!["GALE01".to_string()]);
    assert!(db.report_exists("DOLDECOMP", "Melee", "C2"));
    assert!(db.store.is_well_formed());
}

#[test]
fn broken_store_is_not_well_formed() {
    let mut s = Store::new();
    assert!(s.is_well_formed());
    s.next_report_id = 0;
    s.reports.push(progress_store::store::ReportRow {
        id: 0,
        project_id: 1,
        version: "v".to_string(),
        git_commit: "c".to_string(),
        timestamp: 0,
        data: vec![],
    });
    assert!(!s.is_well_formed());
    s.next_report_id = 1;
    assert!(s.is_well_formed());
}
