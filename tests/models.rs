use progress_store::models::{Commit, Project, ProjectInfo};
use progress_store::params::{extract_extension, ReportParams, ReportQuery, ShieldParams};
use progress_store::paths::join_normalized;

fn project(name: Option<&str>, short: Option<&str>) -> Project {
    Project {
        id: 1,
        owner: "zeldaret".to_string(),
        repo: "tww".to_string(),
        name: name.map(|s| s.to_string()),
        short_name: short.map(|s| s.to_string()),
        default_version: None,
        platform: None,
    }
}

#[test]
fn project_names() {
    let p = project(None, None);
    assert_eq!(p.name(), "zeldaret/tww");
    assert_eq!(p.short_name(), "tww");
    assert_eq!(p.repo_url(), "https://github.com/zeldaret/tww");
    let p = project(Some("The Wind Waker"), None);
    assert_eq!(p.name(), "The Wind Waker");
    assert_eq!(p.short_name(), "The Wind Waker");
    let p = project(Some("The Wind Waker"), Some("TWW"));
    assert_eq!(p.short_name(), "TWW");
}

#[test]
fn default_version_choice() {
    let mut info = ProjectInfo {
        project: project(None, None),
        commit: Commit { sha: "c".to_string(), timestamp: 0 },
        report_versions: vec!["GZLE01".to_string(), "GZLP01".to_string()],
        prev_commit: None,
        next_commit: None,
    };
    assert_eq!(info.default_version(), Some("GZLE01"));
    info.project.default_version = Some("GZLP01".to_string());
    assert_eq!(info.default_version(), Some("GZLP01"));
    info.project.default_version = Some("GZLJ01".to_string());
    assert_eq!(info.default_version(), Some("GZLE01"));
    info.report_versions.clear();
    assert_eq!(info.default_version(), None);
}

#[test]
fn image_size_defaults() {
    let mut q = ReportQuery { mode: None, category: None, w: None, h: None, shield: ShieldParams::default(), unit: None };
    assert_eq!(q.size(), (950, 475));
    q.w = Some(100);
    assert_eq!(q.size(), (100, 475));
}

fn params(repo: &str, version: Option<&str>, commit: Option<&str>) -> ReportParams {
    ReportParams {
        owner: "o".to_string(),
        repo: repo.to_string(),
        version: version.map(|s| s.to_string()),
        commit: commit.map(|s| s.to_string()),
    }
}

#[test]
fn extension_comes_off_the_last_segment() {
    let (p, ext) = extract_extension(params("tww", Some("GZLE01"), Some("abc.svg")));
    assert_eq!((p.commit.as_deref(), ext.as_deref()), (Some("abc"), Some("svg")));
    let (p, ext) = extract_extension(params("tww", Some("GZLE01.v2.png"), None));
    assert_eq!((p.version.as_deref(), ext.as_deref()), (Some("GZLE01.v2"), Some("png")));
    let (p, ext) = extract_extension(params("tww.json", None, None));
    assert_eq!((p.repo.as_str(), ext.as_deref()), ("tww", Some("json")));
    let (p, ext) = extract_extension(params("tww.json", Some("v"), Some("abc")));
    assert_eq!((p.repo.as_str(), p.commit.as_deref(), ext), ("tww.json", Some("abc"), None));
}

fn std_join(base: &str, path: &str) -> String {
    let mut out = std::path::PathBuf::from(base);
    out.extend(
        std::path::Path::new(path)
            .components()
            .filter(|c| matches!(c, std::path::Component::Normal(_))),
    );
    out.to_str().unwrap().to_string()
}

#[test]
fn join_keeps_plain_names() {
    assert_eq!(join_normalized("assets", "../css/./main.css"), "assets/css/main.css");
    assert_eq!(join_normalized("", "/a//b"), "a/b");
    assert_eq!(join_normalized("dir/", "x"), "dir/x");
    for (base, path) in [("assets", "../../etc/passwd"), ("a", "./b/../c/"), ("/srv", "x/y.js"), ("", ""), ("b", ".")] {
        assert_eq!(join_normalized(base, path), std_join(base, path));
    }
}
