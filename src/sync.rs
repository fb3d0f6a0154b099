//! Decisions of the synchronisation loop, which the caller drives: which
//! workflow runs of a page are new, and what to store for a processed run.
use vstd::prelude::*;
use std::sync::Arc;
use objdiff_core::bindings::report::Report;
use crate::db::ReportFile;
use crate::models::{Commit, Project};
use crate::store::copy_project;

verus! {

/// A completed workflow run: its id and the commit it built.
pub struct RunInfo {
    pub id: u64,
    pub head_sha: String,
}

/// How much of a page of runs to keep, and whether to stop paging.
#[derive(Debug, Clone, Copy, PartialEq, Eq, Structural)]
pub struct PageDecision {
    pub take: usize,
    pub finished: bool,
}

/// The run builds the commit that the last sync recorded (commit hashes
/// compare case-insensitively).
pub open spec fn caught_up(r: RunInfo, known: Option<Seq<char>>) -> bool {
    known matches Some(k) && crate::text::eq_nocase(r.head_sha@, k)
}

/// Where scanning a page of runs, newest first, ends: at the first run
/// that builds the known commit (not kept), or the first whose id is the
/// stop id (kept); an empty page ends the history.
pub open spec fn page_decision(runs: Seq<RunInfo>, known: Option<Seq<char>>, stop: u64, d: PageDecision) -> bool {
    if runs.len() == 0 {
        d.take == 0 && d.finished
    } else if exists|j: int| 0 <= j < runs.len() && (caught_up(#[trigger] runs[j], known) || runs[j].id == stop) {
        &&& d.finished
        &&& d.take <= runs.len()
        &&& forall|j: int| 0 <= j < d.take ==> !caught_up(#[trigger] runs[j], known)
        &&& forall|j: int| 0 <= j < d.take - 1 ==> (#[trigger] runs[j]).id != stop
        &&& ((d.take < runs.len() && caught_up(runs[d.take as int], known)) || (d.take >= 1 && runs[d.take - 1].id == stop))
    } else {
        d.take == runs.len() && !d.finished
    }
}

/// Decides how much of one page of runs, newest first, is new: see
/// `page_decision`.
pub fn scan_page(runs: &Vec<RunInfo>, known: Option<&str>, stop_run_id: u64) -> (d: PageDecision)
    ensures
        page_decision(runs@, crate::queries::opt_view(known), stop_run_id, d),
{
    let ghost kv = crate::queries::opt_view(known);
    if runs.len() == 0 {
        return PageDecision { take: 0, finished: true };
    }
    let mut i: usize = 0;
    while i < runs.len()
        invariant
            kv == crate::queries::opt_view(known),
            i <= runs@.len(),
            forall|j: int| 0 <= j < i ==> !caught_up(#[trigger] runs@[j], kv) && runs@[j].id != stop_run_id,
        decreases runs@.len() - i,
    {
        let hit = match known {
            Some(k) => crate::text::equals_nocase(runs[i].head_sha.as_str(), k),
            None => false,
        };
        if hit {
            assert(caught_up(runs@[i as int], kv));
            return PageDecision { take: i, finished: true };
        }
        if runs[i].id == stop_run_id {
            return PageDecision { take: i + 1, finished: true };
        }
        i = i + 1;
    }
    PageDecision { take: runs.len(), finished: false }
}

/// The report files to store for one processed run: one per
/// (version, report) pair, in order, under the run's project and commit.
pub fn run_reports(project: &Project, commit: &Commit, found: Vec<(String, Arc<Report>)>) -> (r: Vec<ReportFile>)
    ensures
        r@.len() == found@.len(),
        forall|i: int| 0 <= i < r@.len() ==> {
            &&& (#[trigger] r@[i]).project == *project
            &&& r@[i].commit.sha@ == commit.sha@
            &&& r@[i].commit.timestamp == commit.timestamp
            &&& r@[i].version@ == found@[i].0@
            &&& r@[i].report == found@[i].1
        },
{
    let mut out: Vec<ReportFile> = Vec::new();
    let mut i: usize = 0;
    while i < found.len()
        invariant
            i <= found@.len(),
            out@.len() == i,
            forall|t: int| 0 <= t < i ==> {
                &&& (#[trigger] out@[t]).project == *project
                &&& out@[t].commit.sha@ == commit.sha@
                &&& out@[t].commit.timestamp == commit.timestamp
                &&& out@[t].version@ == found@[t].0@
                &&& out@[t].report == found@[t].1
            },
        decreases found@.len() - i,
    {
        let (v, rep) = (&found[i].0, &found[i].1);
        out.push(ReportFile {
            project: copy_project(project),
            commit: Commit { sha: commit.sha.clone(), timestamp: commit.timestamp },
            version: v.clone(),
            report: rep.clone(),
        });
        i = i + 1;
    }
    out
}

} // verus!
