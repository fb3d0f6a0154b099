//! Read-only queries over the store: existence checks and project summaries.
use vstd::prelude::*;
use crate::models::{Commit, Project, ProjectInfo};
use crate::store::{copy_project, ReportRow, Store};
use crate::text::{eq_nocase, equals_nocase, text_le, text_le_exec, lemma_text_le_total, lemma_text_le_trans};

verus! {

/// The project is named (owner, repo), case-insensitively.
pub open spec fn project_matches(p: Project, owner: Seq<char>, repo: Seq<char>) -> bool {
    eq_nocase(p.owner@, owner) && eq_nocase(p.repo@, repo)
}

/// The first of the first `n` projects named (owner, repo), case-insensitively.
pub open spec fn first_project(ps: Seq<Project>, owner: Seq<char>, repo: Seq<char>, n: nat) -> Option<int>
    decreases n,
{
    if n == 0 {
        None
    } else {
        match first_project(ps, owner, repo, (n - 1) as nat) {
            Some(j) => Some(j),
            None => if project_matches(ps[n - 1], owner, repo) {
                Some(n - 1)
            } else {
                None
            },
        }
    }
}

/// Some report of a project named (owner, repo) is for `commit`.
pub open spec fn commit_recorded(s: Store, owner: Seq<char>, repo: Seq<char>, commit: Seq<char>) -> bool {
    exists|p: int, i: int|
        0 <= p < s.projects@.len() && 0 <= i < s.reports@.len() && project_matches(
            #[trigger] s.projects@[p],
            owner,
            repo,
        ) && (#[trigger] s.reports@[i]).project_id == s.projects@[p].id && eq_nocase(
            s.reports@[i].git_commit@,
            commit,
        )
}

/// The report rows of project `pid` that a summary lists: those for `commit`
/// where one is given, else those at the project's latest timestamp.
pub open spec fn listed(r: ReportRow, pid: u64, commit: Option<Seq<char>>, latest: i64) -> bool {
    r.project_id == pid && match commit {
        Some(c) => eq_nocase(r.git_commit@, c),
        None => r.timestamp == latest,
    }
}

/// The versions of the listed rows, in table order.
pub open spec fn listed_versions(rs: Seq<ReportRow>, idx: Seq<int>) -> Seq<Seq<char>> {
    idx.map_values(|j: int| rs[j].version@)
}

/// Position `k` of the listed rows is the first with version `v`.
pub open spec fn first_of_version(rs: Seq<ReportRow>, idx: Seq<int>, v: Seq<char>, k: int) -> bool {
    0 <= k < idx.len() && rs[idx[k]].version@ == v && forall|k2: int| 0 <= k2 < k ==> rs[idx[k2]].version@ != v
}

/// The indices, in table order, of the first `n` rows that a summary lists.
pub open spec fn listed_rows(rs: Seq<ReportRow>, pid: u64, commit: Option<Seq<char>>, latest: i64, n: nat) -> Seq<int>
    decreases n,
{
    if n == 0 {
        Seq::empty()
    } else {
        let prev = listed_rows(rs, pid, commit, latest, (n - 1) as nat);
        if listed(rs[n - 1], pid, commit, latest) {
            prev.push(n - 1)
        } else {
            prev
        }
    }
}

/// `t` is the latest timestamp of the reports of project `pid`.
pub open spec fn is_latest(rs: Seq<ReportRow>, pid: u64, t: i64) -> bool {
    &&& exists|i: int| 0 <= i < rs.len() && (#[trigger] rs[i]).project_id == pid && rs[i].timestamp == t
    &&& forall|i: int| 0 <= i < rs.len() && (#[trigger] rs[i]).project_id == pid ==> rs[i].timestamp <= t
}

/// `c` is the commit of a report of project `pid` with the latest timestamp
/// before `t` (or, with `later`, the earliest after `t`); `None` if there is none.
pub open spec fn neighbour(rs: Seq<ReportRow>, pid: u64, t: i64, later: bool, c: Option<String>) -> bool {
    let near = |a: i64| if later { a > t } else { a < t };
    let closer = |a: i64, b: i64| if later { a <= b } else { a >= b };
    match c {
        None => forall|i: int| 0 <= i < rs.len() && (#[trigger] rs[i]).project_id == pid ==> !near(rs[i].timestamp),
        Some(sha) => exists|i: int|
            0 <= i < rs.len() && (#[trigger] rs[i]).project_id == pid && near(rs[i].timestamp) && rs[i].git_commit@ == sha@
                && forall|j: int| 0 <= j < rs.len() && (#[trigger] rs[j]).project_id == pid && near(rs[j].timestamp)
                    ==> closer(rs[i].timestamp, rs[j].timestamp),
    }
}

/// The summary of project `p` that the store gives: the listed versions in
/// table order, the commit of the first listed row, and (with `links`) its
/// neighbours in time.
pub open spec fn summary(s: Store, p: Project, commit: Option<Seq<char>>, links: bool, info: ProjectInfo) -> bool {
    exists|latest: i64| #[trigger] summary_at(s, p, commit, links, info, latest)
}

/// `summary`, with `latest` the project's latest timestamp.
#[verifier::opaque]
pub open spec fn summary_at(s: Store, p: Project, commit: Option<Seq<char>>, links: bool, info: ProjectInfo, latest: i64) -> bool {
    let rs = s.reports@;
    {
        &&& (commit is None ==> is_latest(rs, p.id, latest))
        &&& {
            let idx = listed_rows(rs, p.id, commit, latest, rs.len());
            &&& idx.len() > 0
            &&& info.project == p
            &&& info.report_versions@.len() == idx.len()
            &&& sorted_texts(views(info.report_versions@))
            &&& views(info.report_versions@).to_multiset() == listed_versions(rs, idx).to_multiset()
            &&& exists|k: int| #[trigger] first_of_version(rs, idx, info.report_versions@[0]@, k)
                && info.commit.sha@ == rs[idx[k]].git_commit@ && info.commit.timestamp == rs[idx[k]].timestamp
            &&& if links {
                &&& neighbour(rs, p.id, info.commit.timestamp, false, info.prev_commit)
                &&& neighbour(rs, p.id, info.commit.timestamp, true, info.next_commit)
            } else {
                info.prev_commit is None && info.next_commit is None
            }
        }
    }
}

/// No report row of project `p` is listed.
pub open spec fn nothing_listed(s: Store, p: Project, commit: Option<Seq<char>>) -> bool {
    forall|i: int| 0 <= i < s.reports@.len() ==> match commit {
        Some(c) => !listed(#[trigger] s.reports@[i], p.id, Some(c), 0),
        None => (#[trigger] s.reports@[i]).project_id != p.id,
    }
}

fn opt_str(o: Option<&str>) -> (r: Option<String>)
    ensures
        match (o, r) {
            (Some(a), Some(b)) => a@ == b@,
            (None, None) => true,
            _ => false,
        },
{
    match o {
        Some(s) => Some(s.to_owned()),
        None => None,
    }
}

impl Store {
    /// Whether any report of a project named (owner, repo) is for `commit`;
    /// all three compare case-insensitively.
    pub fn report_exists(&self, owner: &str, repo: &str, commit: &str) -> (r: bool)
        ensures
            r == commit_recorded(*self, owner@, repo@, commit@),
    {
        let mut p: usize = 0;
        while p < self.projects.len()
            invariant
                p <= self.projects@.len(),
                forall|q: int, i: int|
                    0 <= q < p && 0 <= i < self.reports@.len() ==> !(project_matches(
                        #[trigger] self.projects@[q],
                        owner@,
                        repo@,
                    ) && (#[trigger] self.reports@[i]).project_id == self.projects@[q].id
                        && eq_nocase(self.reports@[i].git_commit@, commit@)),
            decreases self.projects@.len() - p,
        {
            let proj = &self.projects[p];
            if equals_nocase(proj.owner.as_str(), owner) && equals_nocase(proj.repo.as_str(), repo) {
                let mut i: usize = 0;
                while i < self.reports.len()
                    invariant
                        p < self.projects@.len(),
                        proj == self.projects@[p as int],
                        project_matches(*proj, owner@, repo@),
                        i <= self.reports@.len(),
                        forall|j: int| 0 <= j < i ==> !((#[trigger] self.reports@[j]).project_id == proj.id
                            && eq_nocase(self.reports@[j].git_commit@, commit@)),
                    decreases self.reports@.len() - i,
                {
                    if self.reports[i].project_id == proj.id && equals_nocase(self.reports[i].git_commit.as_str(), commit) {
                        return true;
                    }
                    i = i + 1;
                }
            }
            p = p + 1;
        }
        false
    }
}

/// The view of an optional string slice.
pub open spec fn opt_view(o: Option<&str>) -> Option<Seq<char>> {
    match o {
        Some(c) => Some(c@),
        None => None,
    }
}

proof fn lemma_listed_rows_bounds(rs: Seq<ReportRow>, pid: u64, commit: Option<Seq<char>>, latest: i64, n: nat)
    requires
        n <= rs.len(),
    ensures
        forall|k: int| 0 <= k < listed_rows(rs, pid, commit, latest, n).len() ==> {
            let j = #[trigger] listed_rows(rs, pid, commit, latest, n)[k];
            0 <= j < n && listed(rs[j], pid, commit, latest)
        },
        listed_rows(rs, pid, commit, latest, n).len() == 0 ==> forall|j: int| 0 <= j < n ==> !listed(#[trigger] rs[j], pid, commit, latest),
    decreases n,
{
    if n > 0 {
        lemma_listed_rows_bounds(rs, pid, commit, latest, (n - 1) as nat);
    }
}

proof fn lemma_listed_rows_prefix(rs: Seq<ReportRow>, pid: u64, commit: Option<Seq<char>>, latest: i64, m: nat, n: nat)
    requires
        m <= n,
    ensures
        listed_rows(rs, pid, commit, latest, m).len() <= listed_rows(rs, pid, commit, latest, n).len(),
        forall|k: int| 0 <= k < listed_rows(rs, pid, commit, latest, m).len() ==> #[trigger] listed_rows(rs, pid, commit, latest, n)[k]
            == listed_rows(rs, pid, commit, latest, m)[k],
    decreases n - m,
{
    if m < n {
        lemma_listed_rows_prefix(rs, pid, commit, latest, m, (n - 1) as nat);
    }
}

impl Store {
    /// The latest timestamp among the reports of project `pid`, if it has any.
    fn latest_time(&self, pid: u64) -> (r: Option<i64>)
        ensures
            match r {
                Some(t) => is_latest(self.reports@, pid, t),
                None => forall|i: int| 0 <= i < self.reports@.len() ==> (#[trigger] self.reports@[i]).project_id != pid,
            },
    {
        let mut best: Option<i64> = None;
        let mut i: usize = 0;
        while i < self.reports.len()
            invariant
                i <= self.reports@.len(),
                match best {
                    Some(t) => (exists|j: int| 0 <= j < i && (#[trigger] self.reports@[j]).project_id == pid && self.reports@[j].timestamp == t)
                        && forall|j: int| 0 <= j < i && (#[trigger] self.reports@[j]).project_id == pid ==> self.reports@[j].timestamp <= t,
                    None => forall|j: int| 0 <= j < i ==> (#[trigger] self.reports@[j]).project_id != pid,
                },
            decreases self.reports@.len() - i,
        {
            let row = &self.reports[i];
            if row.project_id == pid {
                match best {
                    Some(t) => {
                        if row.timestamp > t {
                            best = Some(row.timestamp);
                        }
                    },
                    None => {
                        best = Some(row.timestamp);
                    },
                }
            }
            i = i + 1;
        }
        best
    }

    /// The commit of a report of project `pid` closest in time to `t` on one
    /// side: before it, or with `later` after it.
    fn neighbour_commit(&self, pid: u64, t: i64, later: bool) -> (r: Option<String>)
        ensures
            neighbour(self.reports@, pid, t, later, r),
    {
        let mut best: Option<usize> = None;
        let mut i: usize = 0;
        while i < self.reports.len()
            invariant
                i <= self.reports@.len(),
                match best {
                    Some(b) => b < i && self.reports@[b as int].project_id == pid
                        && (if later { self.reports@[b as int].timestamp > t } else { self.reports@[b as int].timestamp < t })
                        && forall|j: int| 0 <= j < i && (#[trigger] self.reports@[j]).project_id == pid
                            && (if later { self.reports@[j].timestamp > t } else { self.reports@[j].timestamp < t })
                            ==> (if later { self.reports@[b as int].timestamp <= self.reports@[j].timestamp }
                                else { self.reports@[b as int].timestamp >= self.reports@[j].timestamp }),
                    None => forall|j: int| 0 <= j < i && (#[trigger] self.reports@[j]).project_id == pid
                        ==> !(if later { self.reports@[j].timestamp > t } else { self.reports@[j].timestamp < t }),
                },
            decreases self.reports@.len() - i,
        {
            let row = &self.reports[i];
            let near = if later { row.timestamp > t } else { row.timestamp < t };
            if row.project_id == pid && near {
                match best {
                    Some(b) => {
                        let bt = self.reports[b].timestamp;
                        let closer = if later { row.timestamp < bt } else { row.timestamp > bt };
                        if closer {
                            best = Some(i);
                        }
                    },
                    None => {
                        best = Some(i);
                    },
                }
            }
            i = i + 1;
        }
        match best {
            Some(b) => {
                let c = self.reports[b].git_commit.clone();
                proof {
                    let rs = self.reports@;
                    let bi = b as int;
                    assert(rs[bi].git_commit@ == c@);
                }
                Some(c)
            },
            None => None,
        }
    }

    /// The summary of project `p`: the versions reported for `commit`, or
    /// for the latest timestamp where none is given; with `links`, the
    /// commits before and after it.
    pub fn project_summary(&self, p: &Project, commit: Option<&str>, links: bool) -> (r: Option<ProjectInfo>)
        ensures
            match r {
                Some(info) => summary(*self, *p, opt_view(commit), links, info)
                    && !nothing_listed(*self, *p, opt_view(commit)),
                None => nothing_listed(*self, *p, opt_view(commit)),
            },
    {
        let pid = p.id;
        let latest: i64 = match commit {
            Some(_) => 0,
            None => match self.latest_time(pid) {
                Some(t) => t,
                None => return None,
            },
        };
        let ghost c = opt_view(commit);
        let ghost rs = self.reports@;
        let mut versions: Vec<String> = Vec::new();
        let mut first: Option<usize> = None;
        let mut i: usize = 0;
        while i < self.reports.len()
            invariant
                rs == self.reports@,
                c == opt_view(commit),
                pid == p.id,
                i <= rs.len(),
                versions@.len() == listed_rows(rs, pid, c, latest, i as nat).len(),
                forall|k: int| 0 <= k < versions@.len() ==> (#[trigger] versions@[k])@ == rs[listed_rows(rs, pid, c, latest, i as nat)[k]].version@,
                match first {
                    Some(f) => listed_rows(rs, pid, c, latest, i as nat).len() > 0 && listed_rows(rs, pid, c, latest, i as nat)[0] == f,
                    None => listed_rows(rs, pid, c, latest, i as nat).len() == 0,
                },
            decreases rs.len() - i,
        {
            let row = &self.reports[i];
            let hit = row.project_id == pid && match commit {
                Some(cm) => equals_nocase(row.git_commit.as_str(), cm),
                None => row.timestamp == latest,
            };
            let ghost before = listed_rows(rs, pid, c, latest, i as nat);
            assert(hit == listed(rs[i as int], pid, c, latest));
            if hit {
                versions.push(row.version.clone());
                if first.is_none() {
                    first = Some(i);
                }
                proof {
                    let now = listed_rows(rs, pid, c, latest, (i + 1) as nat);
                    assert(now == before.push(i as int));
                    assert forall|k: int| 0 <= k < versions@.len() implies (#[trigger] versions@[k])@ == rs[now[k]].version@ by {
                        if k < before.len() {
                            assert(now[k] == before[k]);
                        }
                    }
                }
            }
            i = i + 1;
        }
        proof { lemma_listed_rows_bounds(rs, pid, c, latest, rs.len()); }
        if first.is_none() {
            proof {
                if commit is None {
                    let w = choose|w: int| 0 <= w < rs.len() && (#[trigger] rs[w]).project_id == pid && rs[w].timestamp == latest;
                    assert(listed(rs[w], pid, c, latest));
                }
            }
            return None;
        }
        let ghost idx = listed_rows(rs, pid, c, latest, rs.len());
        proof {
            assert(views(versions@) =~= listed_versions(rs, idx));
        }
        let sorted = sort_texts(&versions);
        proof {
            vstd::seq_lib::to_multiset_len(views(sorted@));
            vstd::seq_lib::to_multiset_len(views(versions@));
            assert(views(sorted@).len() > 0);
            vstd::seq_lib::to_multiset_contains(views(sorted@), sorted@[0]@);
            assert(views(sorted@).contains(sorted@[0]@)) by {
                assert(views(sorted@)[0] == sorted@[0]@);
            }
            vstd::seq_lib::to_multiset_contains(views(versions@), sorted@[0]@);
            let kk = choose|kk: int| 0 <= kk < views(versions@).len() && views(versions@)[kk] == sorted@[0]@;
            assert(rs[idx[kk]].version@ == sorted@[0]@);
        }
        let target = sorted[0].as_str();
        let mut f: usize = 0;
        let mut seen: usize = 0;
        let mut found = false;
        while f < self.reports.len() && !found
            invariant
                rs == self.reports@,
                seen <= f,
                found ==> f < rs.len() && first_of_version(rs, idx, target@, seen as int) && idx[seen as int] == f,
                c == opt_view(commit),
                pid == p.id,
                idx == listed_rows(rs, pid, c, latest, rs.len()),
                f <= rs.len(),
                seen == listed_rows(rs, pid, c, latest, f as nat).len(),
                forall|k2: int| 0 <= k2 < seen ==> rs[idx[k2]].version@ != target@,
                exists|kk: int| seen <= kk < idx.len() && rs[idx[kk]].version@ == target@,
            decreases (rs.len() - f) * 2 + if found { 0int } else { 1int },
        {
            let row = &self.reports[f];
            let hit = row.project_id == pid && match commit {
                Some(cm) => equals_nocase(row.git_commit.as_str(), cm),
                None => row.timestamp == latest,
            };
            assert(hit == listed(rs[f as int], pid, c, latest));
            proof {
                lemma_listed_rows_prefix(rs, pid, c, latest, (f + 1) as nat, rs.len());
                lemma_listed_rows_bounds(rs, pid, c, latest, rs.len());
            }
            if hit {
                assert(listed_rows(rs, pid, c, latest, (f + 1) as nat)[seen as int] == f);
                assert(idx[seen as int] == f);
                if crate::text::same_text(row.version.as_str(), target) {
                    assert(first_of_version(rs, idx, target@, seen as int));
                    found = true;
                } else {
                    seen = seen + 1;
                    f = f + 1;
                }
            } else {
                f = f + 1;
            }
        }
        if !found {
            proof {
                lemma_listed_rows_prefix(rs, pid, c, latest, f as nat, rs.len());
                assert(false);
            }
            return None;
        }
        let row = &self.reports[f];
        let sha = row.git_commit.clone();
        let t = row.timestamp;
        let (prev_commit, next_commit) = if links {
            (self.neighbour_commit(pid, t, false), self.neighbour_commit(pid, t, true))
        } else {
            (None, None)
        };
        let info = ProjectInfo {
            project: copy_project(p),
            commit: Commit { sha, timestamp: t },
            report_versions: sorted,
            prev_commit,
            next_commit,
        };
        proof {
            assert(first_of_version(rs, idx, info.report_versions@[0]@, seen as int));
            assert(info.project == *p);
            reveal(summary_at);
            assert(summary_at(*self, *p, c, links, info, latest));
            assert(listed(rs[f as int], pid, c, latest));
            assert(!nothing_listed(*self, *p, c)) by {
                if c is Some {
                    assert(!listed(rs[f as int], p.id, c, 0) ==> false);
                } else {
                    assert(rs[f as int].project_id == p.id);
                }
            }
        }
        Some(info)
    }

    /// The first project named (owner, repo), case-insensitively.
    pub fn find_project(&self, owner: &str, repo: &str) -> (r: Option<usize>)
        ensures
            match r {
                Some(j) => first_project(self.projects@, owner@, repo@, self.projects@.len()) == Some(j as int)
                    && j < self.projects@.len(),
                None => first_project(self.projects@, owner@, repo@, self.projects@.len()) is None,
            },
    {
        let mut i: usize = 0;
        while i < self.projects.len()
            invariant
                i <= self.projects@.len(),
                first_project(self.projects@, owner@, repo@, i as nat) is None,
            decreases self.projects@.len() - i,
        {
            let q = &self.projects[i];
            if equals_nocase(q.owner.as_str(), owner) && equals_nocase(q.repo.as_str(), repo) {
                assert(first_project(self.projects@, owner@, repo@, (i + 1) as nat) == Some(i as int));
                proof { lemma_first_project_stays(self.projects@, owner@, repo@, (i + 1) as nat, self.projects@.len()); }
                return Some(i);
            }
            i = i + 1;
        }
        None
    }

    /// The summary of the project named (owner, repo): the report versions
    /// for `commit`, or for its latest timestamp where none is given, with
    /// the commits before and after. `None` if there is no such project or
    /// no such report.
    pub fn get_project_info(&self, owner: &str, repo: &str, commit: Option<&str>) -> (r: Option<ProjectInfo>)
        ensures
            match first_project(self.projects@, owner@, repo@, self.projects@.len()) {
                None => r is None,
                Some(j) => match r {
                    Some(info) => summary(*self, self.projects@[j], opt_view(commit), true, info),
                    None => nothing_listed(*self, self.projects@[j], opt_view(commit)),
                },
            },
    {
        match self.find_project(owner, repo) {
            None => None,
            Some(j) => self.project_summary(&self.projects[j], commit, true),
        }
    }
}

proof fn lemma_first_project_stays(ps: Seq<Project>, owner: Seq<char>, repo: Seq<char>, m: nat, n: nat)
    requires
        m <= n,
        first_project(ps, owner, repo, m) is Some,
    ensures
        first_project(ps, owner, repo, n) == first_project(ps, owner, repo, m),
    decreases n - m,
{
    if m < n {
        lemma_first_project_stays(ps, owner, repo, m, (n - 1) as nat);
    }
}

/// How many of the first `n` projects have reports.
pub open spec fn projects_with_reports(s: Store, n: nat) -> nat
    decreases n,
{
    if n == 0 {
        0
    } else {
        projects_with_reports(s, (n - 1) as nat) + if nothing_listed(s, s.projects@[n - 1], None) {
            0nat
        } else {
            1nat
        }
    }
}

/// `info` is the latest summary of one of the first `n` projects.
pub open spec fn summarised_by(s: Store, info: ProjectInfo, n: nat) -> bool {
    exists|w: int| 0 <= w < n && #[trigger] summary(s, s.projects@[w], None, false, info)
}

/// The summaries are ordered by their commit time, newest first.
pub open spec fn newest_first(v: Seq<ProjectInfo>) -> bool {
    forall|a: int, b: int| 0 <= a < b < v.len() ==> (#[trigger] v[a]).commit.timestamp >= (#[trigger] v[b]).commit.timestamp
}

/// Inserts `info` after every summary that is at least as recent.
fn insert_by_time(out: &mut Vec<ProjectInfo>, info: ProjectInfo)
    requires
        newest_first(old(out)@),
    ensures
        newest_first(final(out)@),
        exists|k: int| 0 <= k <= old(out)@.len() && final(out)@ == old(out)@.insert(k, info),
{
    let t = info.commit.timestamp;
    let mut k: usize = 0;
    while k < out.len() && out[k].commit.timestamp >= t
        invariant
            k <= out@.len(),
            forall|j: int| 0 <= j < k ==> (#[trigger] out@[j]).commit.timestamp >= t,
        decreases out@.len() - k,
    {
        k = k + 1;
    }
    let ghost before = out@;
    let ghost added = info;
    out.insert(k, info);
    proof {
        assert(out@ == before.insert(k as int, added));
        assert forall|a: int, b: int| 0 <= a < b < out@.len() implies (#[trigger] out@[a]).commit.timestamp >= (#[trigger] out@[b]).commit.timestamp by {
            if k < before.len() {
                assert(before[k as int].commit.timestamp < t);
            }
            if a < k && b < k {
                assert(out@[a] == before[a] && out@[b] == before[b]);
            } else if a < k && b == k {
            } else if a < k {
                assert(out@[a] == before[a] && out@[b] == before[b - 1]);
            } else if a == k {
                assert(out@[b] == before[b - 1]);
                assert(before[k as int].commit.timestamp >= before[b - 1].commit.timestamp || b - 1 == k);
            } else {
                assert(out@[a] == before[a - 1] && out@[b] == before[b - 1]);
            }
        }
    }
}

impl Store {
    /// One summary per project that has reports, at its latest timestamp,
    /// most recently updated first.
    pub fn get_projects(&self) -> (r: Vec<ProjectInfo>)
        ensures
            newest_first(r@),
            r@.len() == projects_with_reports(*self, self.projects@.len()),
            forall|k: int| 0 <= k < r@.len() ==> summarised_by(*self, #[trigger] r@[k], self.projects@.len()),
            forall|q: int| 0 <= q < self.projects@.len() && !nothing_listed(*self, #[trigger] self.projects@[q], None)
                ==> exists|k: int| 0 <= k < r@.len() && (#[trigger] r@[k]).project == self.projects@[q],
    {
        let mut out: Vec<ProjectInfo> = Vec::new();
        let mut q: usize = 0;
        while q < self.projects.len()
            invariant
                q <= self.projects@.len(),
                newest_first(out@),
                out@.len() == projects_with_reports(*self, q as nat),
                forall|k: int| 0 <= k < out@.len() ==> summarised_by(*self, #[trigger] out@[k], q as nat),
                forall|w: int| 0 <= w < q && !nothing_listed(*self, #[trigger] self.projects@[w], None)
                    ==> exists|k: int| 0 <= k < out@.len() && (#[trigger] out@[k]).project == self.projects@[w],
            decreases self.projects@.len() - q,
        {
            match self.project_summary(&self.projects[q], None, false) {
                None => {},
                Some(info) => {
                    let ghost before = out@;
                    let ghost added = info;
                    insert_by_time(&mut out, info);
                    proof {
                        let k = choose|k: int| 0 <= k <= before.len() && out@ == before.insert(k, added);
                        assert forall|j: int| 0 <= j < out@.len() implies summarised_by(*self, #[trigger] out@[j], (q + 1) as nat) by {
                            if j < k {
                                assert(out@[j] == before[j]);
                                assert(summarised_by(*self, before[j], q as nat));
                            } else if j == k {
                                assert(summary(*self, self.projects@[q as int], None, false, out@[j]));
                            } else {
                                assert(out@[j] == before[j - 1]);
                                assert(summarised_by(*self, before[j - 1], q as nat));
                            }
                        }
                        assert forall|w: int| 0 <= w < q + 1 && !nothing_listed(*self, #[trigger] self.projects@[w], None)
                            implies exists|j: int| 0 <= j < out@.len() && (#[trigger] out@[j]).project == self.projects@[w] by {
                            if w == q {
                                assert(out@[k].project == self.projects@[w]) by {
                                    let l = choose|l: i64| #[trigger] summary_at(*self, self.projects@[q as int], None, false, added, l);
                                    reveal(summary_at);
                                }
                            } else {
                                let j = choose|j: int| 0 <= j < before.len() && (#[trigger] before[j]).project == self.projects@[w];
                                if j < k {
                                    assert(out@[j] == before[j]);
                                } else {
                                    assert(out@[j + 1] == before[j]);
                                }
                            }
                        }
                    }
                },
            }
            q = q + 1;
        }
        out
    }
}

/// The texts of a sequence of strings.
pub open spec fn views(v: Seq<String>) -> Seq<Seq<char>> {
    v.map_values(|s: String| s@)
}

/// The texts are in ascending code-point order.
pub open spec fn sorted_texts(v: Seq<Seq<char>>) -> bool {
    forall|a: int, b: int| 0 <= a < b < v.len() ==> text_le(#[trigger] v[a], #[trigger] v[b])
}

/// The strings of `v` in ascending order; equal ones keep their order.
fn sort_texts(v: &Vec<String>) -> (r: Vec<String>)
    ensures
        sorted_texts(views(r@)),
        views(r@).to_multiset() == views(v@).to_multiset(),
{
    broadcast use vstd::seq_lib::group_to_multiset_ensures;
    let mut out: Vec<String> = Vec::new();
    let mut i: usize = 0;
    while i < v.len()
        invariant
            i <= v@.len(),
            sorted_texts(views(out@)),
            views(out@).to_multiset() == views(v@.subrange(0, i as int)).to_multiset(),
        decreases v@.len() - i,
    {
        let x = v[i].clone();
        let mut k: usize = 0;
        while k < out.len() && text_le_exec(out[k].as_str(), x.as_str())
            invariant
                k <= out@.len(),
                forall|j: int| 0 <= j < k ==> text_le((#[trigger] out@[j])@, x@),
            decreases out@.len() - k,
        {
            k = k + 1;
        }
        let ghost before = out@;
        let ghost xv = x@;
        out.insert(k, x);
        proof {
            assert(views(out@) =~= views(before).insert(k as int, xv));
            vstd::seq_lib::to_multiset_insert(views(before), k as int, xv);
            assert(views(v@.subrange(0, i + 1)) =~= views(v@.subrange(0, i as int)).push(xv));
            vstd::seq_lib::to_multiset_build(views(v@.subrange(0, i as int)), xv);
            let w = views(out@);
            let wb = views(before);
            if k < before.len() {
                lemma_text_le_total(wb[k as int], xv, 0);
            }
            assert forall|a: int, b: int| 0 <= a < b < w.len() implies text_le(#[trigger] w[a], #[trigger] w[b]) by {
                if b < k {
                    assert(w[a] == wb[a] && w[b] == wb[b]);
                } else if b == k {
                    assert(w[a] == wb[a] && w[b] == xv);
                } else if a < k {
                    assert(w[a] == wb[a] && w[b] == wb[b - 1]);
                    assert(text_le(wb[a], xv));
                    assert(text_le(xv, wb[k as int]));
                    if b - 1 > k {
                        assert(text_le(wb[k as int], wb[b - 1]));
                        lemma_text_le_trans(xv, wb[k as int], wb[b - 1], 0);
                    }
                    lemma_text_le_trans(wb[a], xv, wb[b - 1], 0);
                } else if a == k {
                    assert(w[a] == xv && w[b] == wb[b - 1]);
                    if b - 1 > k {
                        assert(text_le(wb[k as int], wb[b - 1]));
                        lemma_text_le_trans(xv, wb[k as int], wb[b - 1], 0);
                    }
                } else {
                    assert(w[a] == wb[a - 1] && w[b] == wb[b - 1]);
                }
            }
        }
        i = i + 1;
    }
    assert(v@.subrange(0, v@.len() as int) =~= v@);
    out
}

} // verus!
