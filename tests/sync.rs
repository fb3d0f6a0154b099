use progress_store::sync::{scan_page, PageDecision, RunInfo};

fn runs(list: &[(u64, &str)]) -> Vec<RunInfo> {
    list.iter().map(|(id, sha)| RunInfo { id: *id, head_sha: sha.to_string() }).collect()
}

#[test]
fn steady_state_stops_at_known_commit() {
    let page = runs(&[(30, "abc123"), (29, "fff000")]);
    assert_eq!(scan_page(&page, Some("abc123"), 0), PageDecision { take: 0, finished: true });
    let page = runs(&[(31, "new1"), (30, "abc123"), (29, "fff000")]);
    assert_eq!(scan_page(&page, Some("abc123"), 0), PageDecision { take: 1, finished: true });
    assert_eq!(scan_page(&page, Some("ABC123"), 0), PageDecision { take: 1, finished: true });
}

#[test]
fn bootstrap_stops_at_stop_run() {
    let page = runs(&[(12, "c"), (11, "b"), (10, "a"), (9, "z")]);
    assert_eq!(scan_page(&page, None, 10), PageDecision { take: 3, finished: true });
    let page = runs(&[(12, "c"), (11, "b")]);
    assert_eq!(scan_page(&page, None, 10), PageDecision { take: 2, finished: false });
    assert_eq!(scan_page(&Vec::new(), None, 10), PageDecision { take: 0, finished: true });
}
