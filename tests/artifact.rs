use std::io::{Cursor, Write};

use objdiff_core::bindings::report::{
    Measures, Report, ReportCategory, ReportUnit, ReportUnitMetadata,
};
use progress_store::artifact::{artifact_versions, process_artifact, ArtifactError};
use prost::Message;

fn names(list: &[&str]) -> Vec<String> {
    list.iter().map(|s| s.to_string()).collect()
}

fn want(list: &[Option<&str>]) -> Vec<Option<String>> {
    list.iter().map(|o| o.map(|s| s.to_string())).collect()
}

#[test]
fn report_artifacts_give_their_label() {
    let got = artifact_versions(&names(&["GALE01_report", "ntsc-u-report_extra", "GZLE01_maps", "build"]));
    assert_eq!(got, want(&[Some("GALE01"), Some("ntsc-u"), None, None]));
}

#[test]
fn greedy_label() {
    let got = artifact_versions(&names(&["a_report_report", "x-report-", "_report", "a.b_report", "a^b_report", "a[b_maps"]));
    assert_eq!(got, want(&[Some("a_report"), Some("x"), None, None, None, None]));
}

#[test]
fn legacy_progress_borrows_maps_label() {
    let got = artifact_versions(&names(&["progress.json", "ntsc-u_maps"]));
    assert_eq!(got, want(&[Some("ntsc-u"), None]));
    let got = artifact_versions(&names(&["progress"]));
    assert_eq!(got, want(&[None]));
}

fn unit(name: &str, categories: &[&str]) -> ReportUnit {
    ReportUnit {
        name: name.to_string(),
        measures: Some(Measures { total_code: 4, ..Default::default() }),
        sections: vec![],
        functions: vec![],
        metadata: Some(ReportUnitMetadata {
            progress_categories: categories.iter().map(|c| c.to_string()).collect(),
            ..Default::default()
        }),
    }
}

fn category(id: &str) -> ReportCategory {
    ReportCategory { id: id.to_string(), name: id.to_string(), measures: Some(Measures::default()) }
}

fn zipped(entry: &str, bytes: &[u8]) -> Vec<u8> {
    let mut w = zip::ZipWriter::new(Cursor::new(Vec::new()));
    w.start_file(entry, zip::write::SimpleFileOptions::default()).unwrap();
    w.write_all(bytes).unwrap();
    w.finish().unwrap().into_inner()
}

#[test]
fn single_report_under_its_label() {
    let rep = Report {
        measures: Some(Measures::default()),
        units: vec![unit("u", &[])],
        version: 2,
        categories: vec![],
    };
    let bytes = zipped("out/report.binpb", &rep.encode_to_vec());
    let got = process_artifact(bytes, "GALE01").unwrap();
    assert_eq!(got.len(), 1);
    assert_eq!(got[0].0, "GALE01");
    assert_eq!(*got[0].1, rep);
}

#[test]
fn combined_report_is_split() {
    let rep = Report {
        measures: Some(Measures::default()),
        units: vec![unit("us/a.c", &["us"]), unit("eu/a.c", &["eu"]), unit("us/b.c", &["us"])],
        version: 2,
        categories: vec![category("us"), category("eu")],
    };
    let bytes = zipped("progress.bin", &rep.encode_to_vec());
    let got = process_artifact(bytes, "Combined").unwrap();
    let versions: Vec<&str> = got.iter().map(|(v, _)| v.as_str()).collect();
    assert_eq!(versions, vec!["us", "eu"]);
    assert_eq!(got[0].1.units.len(), 2);
    assert_eq!(got[0].1.units[0].name, "a.c");
    assert_eq!(got[1].1.units.len(), 1);
}

#[test]
fn archive_without_report_gives_nothing() {
    let bytes = zipped("readme.txt", b"hello");
    assert!(process_artifact(bytes, "v").unwrap().is_empty());
}

#[test]
fn broken_archive_is_an_error() {
    assert_eq!(process_artifact(b"not a zip".to_vec(), "v").unwrap_err(), ArtifactError::Archive);
}

#[test]
fn oversized_old_report_is_refused() {
    let mut u = unit("a.c", &[]);
    u.measures = Some(Measures { total_code: 10, ..Default::default() });
    u.metadata = Some(ReportUnitMetadata { complete: Some(true), ..Default::default() });
    let rep = Report {
        measures: Some(Measures { complete_code: u64::MAX, ..Default::default() }),
        units: vec![u],
        version: 0,
        categories: vec![],
    };
    let bytes = zipped("report.binpb", &rep.encode_to_vec());
    assert_eq!(
        process_artifact(bytes, "v").unwrap_err(),
        ArtifactError::Format(progress_store::report::FormatError::Migrate)
    );
}

#[test]
fn old_report_is_upgraded() {
    let mut u = unit("a.c", &[]);
    u.metadata = Some(ReportUnitMetadata { complete: Some(true), ..Default::default() });
    let rep = Report { measures: Some(Measures::default()), units: vec![u], version: 0, categories: vec![] };
    let got = process_artifact(zipped("report.binpb", &rep.encode_to_vec()), "v").unwrap();
    assert_eq!(got[0].1.version, 2);
    assert_eq!(got[0].1.measures.unwrap().complete_code, 4);
}

#[test]
fn large_project_totals_still_upgrade() {
    let rep = Report {
        measures: Some(Measures { total_functions: 200_000, total_code: 1 << 45, ..Default::default() }),
        units: vec![unit("a.c", &[])],
        version: 1,
        categories: vec![],
    };
    let got = process_artifact(zipped("report.binpb", &rep.encode_to_vec()), "v").unwrap();
    assert_eq!(got[0].1.version, 2);
    assert_eq!(got[0].1.measures.unwrap().total_units, 1);
}
