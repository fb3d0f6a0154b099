use progress_store::codec::{compress, content_hash};
use progress_store::models::{Commit, Project};
use progress_store::store::{EncodedReport, EncodedUnit, Store, StoreError};

fn project(id: u64, owner: &str, repo: &str) -> Project {
    Project {
        id,
        owner: owner.to_string(),
        repo: repo.to_string(),
        name: None,
        short_name: None,
        default_version: None,
        platform: None,
    }
}

fn commit(sha: &str, timestamp: i64) -> Commit {
    Commit { sha: sha.to_string(), timestamp }
}

fn unit(name: &str, data: &[u8]) -> EncodedUnit {
    EncodedUnit { name: name.to_string(), data: data.to_vec() }
}

fn report(header: &[u8], units: Vec<EncodedUnit>) -> EncodedReport {
    EncodedReport { header: header.to_vec(), units }
}

#[test]
fn insert_twice_keeps_one_row() {
    let mut s = Store::new();
    let p = project(1, "Owner", "Repo");
    let enc = report(b"head", vec![unit("a", b"unit a"), unit("b", b"unit b")]);
    let r1 = s.insert_encoded(&p, &commit("abc", 10), "GALE01", &enc).unwrap();
    let r2 = s.insert_encoded(&p, &commit("ABC", 20), "gale01", &enc).unwrap();
    assert_eq!(r1, r2);
    assert_eq!(s.projects.len(), 1);
    assert_eq!(s.reports.len(), 1);
    assert_eq!(s.reports[0].timestamp, 20);
    assert_eq!(s.reports[0].git_commit, "abc");
    assert_eq!(s.reports[0].version, "GALE01");
    assert_eq!(s.units.len(), 2);
    assert_eq!(s.links.len(), 2);
}

#[test]
fn shared_unit_is_stored_once() {
    let mut s = Store::new();
    let p = project(1, "o", "r");
    let a = report(b"h1", vec![unit("shared", b"same bytes"), unit("x", b"only in a")]);
    let b = report(b"h2", vec![unit("y", b"only in b"), unit("shared", b"same bytes")]);
    let ra = s.insert_encoded(&p, &commit("c1", 1), "v", &a).unwrap();
    let rb = s.insert_encoded(&p, &commit("c2", 2), "v", &b).unwrap();
    assert_ne!(ra, rb);
    let key = content_hash(b"same bytes");
    assert_eq!(s.units.iter().filter(|u| u.key == key).count(), 1);
    assert_eq!(s.units.len(), 3);
    let linked: Vec<u64> = s.links.iter().filter(|l| l.unit_key == key).map(|l| l.report_id).collect();
    assert_eq!(linked, vec![ra, rb]);
}

#[test]
fn units_come_back_in_position_order() {
    let mut s = Store::new();
    let p = project(1, "o", "r");
    let first = report(b"h1", vec![unit("c", b"ccc"), unit("a", b"aaa")]);
    s.insert_encoded(&p, &commit("c1", 1), "v", &first).unwrap();
    let second = report(b"h2", vec![unit("a", b"aaa"), unit("b", b"bbb"), unit("c", b"ccc")]);
    let rid = s.insert_encoded(&p, &commit("c2", 2), "v", &second).unwrap();
    let units = s.assemble_units(rid).unwrap();
    assert_eq!(units, vec![b"aaa".to_vec(), b"bbb".to_vec(), b"ccc".to_vec()]);
    assert_eq!(s.units[0].name.as_deref(), Some("c"));
}

#[test]
fn corrupted_unit_is_detected() {
    let mut s = Store::new();
    let p = project(1, "o", "r");
    let enc = report(b"h", vec![unit("a", b"good"), unit("b", b"also good")]);
    let rid = s.insert_encoded(&p, &commit("c", 1), "v", &enc).unwrap();
    s.units[1].data = compress(b"tampered");
    assert_eq!(s.assemble_units(rid), Err(StoreError::HashMismatch { index: 1 }));
}

#[test]
fn missing_position_is_detected() {
    let mut s = Store::new();
    let p = project(1, "o", "r");
    let enc = report(b"h", vec![unit("a", b"one"), unit("b", b"two")]);
    let rid = s.insert_encoded(&p, &commit("c", 1), "v", &enc).unwrap();
    s.links[0].unit_index = 5;
    assert_eq!(s.assemble_units(rid), Err(StoreError::IndexMismatch { index: 0 }));
}

#[test]
fn repeated_unit_in_one_report_keeps_first_link() {
    let mut s = Store::new();
    let p = project(1, "o", "r");
    let enc = report(b"h", vec![unit("a", b"dup"), unit("a", b"dup")]);
    let rid = s.insert_encoded(&p, &commit("c", 1), "v", &enc).unwrap();
    assert_eq!(s.units.len(), 1);
    assert_eq!(s.links.len(), 1);
    assert_eq!(s.assemble_units(rid), Ok(vec![b"dup".to_vec()]));
}

#[test]
fn report_exists_ignores_case() {
    let mut s = Store::new();
    let p = project(7, "Zeldaret", "TWW");
    s.insert_encoded(&p, &commit("AbC123", 5), "GZLE01", &report(b"h", vec![])).unwrap();
    assert!(s.report_exists("zeldaret", "tww", "abc123"));
    assert!(!s.report_exists("zeldaret", "tww", "abc124"));
    assert!(!s.report_exists("other", "tww", "abc123"));
}

#[test]
fn project_info_for_latest_and_given_commit() {
    let mut s = Store::new();
    let p = project(3, "o", "r");
    let h = report(b"h", vec![]);
    s.insert_encoded(&p, &commit("old", 100), "v1", &h).unwrap();
    s.insert_encoded(&p, &commit("mid", 200), "v1", &h).unwrap();
    s.insert_encoded(&p, &commit("mid", 200), "v2", &h).unwrap();
    s.insert_encoded(&p, &commit("new", 300), "v1", &h).unwrap();
    let latest = s.get_project_info("O", "R", None).unwrap();
    assert_eq!(latest.commit.sha, "new");
    assert_eq!(latest.commit.timestamp, 300);
    assert_eq!(latest.report_versions, vec!["v1".to_string()]);
    assert_eq!(latest.prev_commit.as_deref(), Some("mid"));
    assert_eq!(latest.next_commit, None);
    let mid = s.get_project_info("o", "r", Some("MID")).unwrap();
    assert_eq!(mid.report_versions, vec!["v1".to_string(), "v2".to_string()]);
    assert_eq!(mid.prev_commit.as_deref(), Some("old"));
    assert_eq!(mid.next_commit.as_deref(), Some("new"));
    assert!(s.get_project_info("o", "r", Some("none")).is_none());
    assert!(s.get_project_info("x", "r", None).is_none());
}

#[test]
fn projects_listed_newest_first() {
    let mut s = Store::new();
    let h = report(b"h", vec![]);
    s.insert_encoded(&project(1, "a", "one"), &commit("c1", 50), "v", &h).unwrap();
    s.insert_encoded(&project(2, "b", "two"), &commit("c2", 70), "v", &h).unwrap();
    s.insert_encoded(&project(2, "b", "two"), &commit("c2", 70), "w", &h).unwrap();
    s.insert_encoded(&project(3, "c", "three"), &commit("c3", 60), "v", &h).unwrap();
    let list = s.get_projects();
    let order: Vec<u64> = list.iter().map(|i| i.project.id).collect();
    assert_eq!(order, vec![2, 3, 1]);
    assert_eq!(list[0].report_versions, vec!["v".to_string(), "w".to_string()]);
    assert_eq!(list[0].prev_commit, None);
}

#[test]
fn unit_names_are_filled_in() {
    let mut s = Store::new();
    let p = project(1, "o", "r");
    // an encoded unit whose name field (1) is "alpha"
    let bytes = vec![0x0a, 0x05, b'a', b'l', b'p', b'h', b'a'];
    s.insert_encoded(&p, &commit("c", 1), "v", &report(b"", vec![unit("x", &bytes)])).unwrap();
    s.units[0].name = None;
    s.fill_unit_names().unwrap();
    assert_eq!(s.units[0].name.as_deref(), Some("alpha"));
}

#[test]
fn versions_listed_in_order() {
    let mut s = Store::new();
    let p = project(4, "o", "r");
    let h = report(b"h", vec![]);
    s.insert_encoded(&p, &commit("c", 10), "GZLP01", &h).unwrap();
    s.insert_encoded(&p, &commit("c", 10), "GZLE01", &h).unwrap();
    s.insert_encoded(&p, &commit("c", 10), "GZLJ01", &h).unwrap();
    let info = s.get_project_info("o", "r", None).unwrap();
    assert_eq!(info.report_versions, vec!["GZLE01".to_string(), "GZLJ01".to_string(), "GZLP01".to_string()]);
    assert_eq!(info.default_version(), Some("GZLE01"));
}

#[test]
fn undecodable_unit_stops_name_fill() {
    let mut s = Store::new();
    let p = project(1, "o", "r");
    s.insert_encoded(&p, &commit("c", 1), "v", &report(b"", vec![unit("x", &[0xff, 0xff])])).unwrap();
    s.units[0].name = None;
    assert_eq!(s.fill_unit_names(), Err(StoreError::Decode));
    assert_eq!(s.units[0].name, None);
}

#[test]
fn insert_fails_only_without_ids() {
    let mut s = Store::new();
    let p = project(1, "o", "r");
    s.next_report_id = u64::MAX;
    assert_eq!(s.insert_encoded(&p, &commit("c", 1), "v", &report(b"", vec![])), Err(StoreError::IdsExhausted));
    assert!(s.reports.is_empty() && s.projects.is_empty());
}
