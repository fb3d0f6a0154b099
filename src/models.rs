//! Projects, commits and the values exchanged with the presentation layers.
use vstd::prelude::*;

verus! {

/// A tracked repository.
#[derive(Debug, Clone, PartialEq, Eq)]
pub struct Project {
    pub id: u64,
    pub owner: String,
    pub repo: String,
    pub name: Option<String>,
    pub short_name: Option<String>,
    pub default_version: Option<String>,
    pub platform: Option<String>,
}

/// `owner/repo`.
pub open spec fn owner_slash_repo(owner: Seq<char>, repo: Seq<char>) -> Seq<char> {
    owner + seq!['/'] + repo
}

/// The address of a repository on the hosting platform.
pub open spec fn repo_address(owner: Seq<char>, repo: Seq<char>) -> Seq<char> {
    "https://github.com/"@ + owner + seq!['/'] + repo
}

impl Project {
    /// The display name: the configured one, else `owner/repo`.
    pub fn name(&self) -> (r: String)
        ensures
            r@ == match self.name {
                Some(n) => n@,
                None => owner_slash_repo(self.owner@, self.repo@),
            },
    {
        match &self.name {
            Some(n) => n.clone(),
            None => {
                let mut s = self.owner.clone();
                s.append("/");
                s.append(self.repo.as_str());
                proof {
                    reveal_strlit("/");
                    assert(s@ =~= owner_slash_repo(self.owner@, self.repo@));
                }
                s
            },
        }
    }

    /// The short name: the configured one, else the display name, else the
    /// repository name.
    pub fn short_name(&self) -> (r: &str)
        ensures
            r@ == match self.short_name {
                Some(s) => s@,
                None => match self.name {
                    Some(n) => n@,
                    None => self.repo@,
                },
            },
    {
        match &self.short_name {
            Some(s) => s.as_str(),
            None => match &self.name {
                Some(n) => n.as_str(),
                None => self.repo.as_str(),
            },
        }
    }

    /// The repository's address on the hosting platform.
    pub fn repo_url(&self) -> (r: String)
        ensures
            r@ == repo_address(self.owner@, self.repo@),
    {
        let mut s = "https://github.com/".to_owned();
        s.append(self.owner.as_str());
        s.append("/");
        s.append(self.repo.as_str());
        proof {
            reveal_strlit("/");
            assert(s@ =~= repo_address(self.owner@, self.repo@));
        }
        s
    }
}

/// A commit, with its time in seconds since the Unix epoch.
#[derive(Debug, Clone, PartialEq, Eq)]
pub struct Commit {
    pub sha: String,
    pub timestamp: i64,
}

/// A project together with one of its commits, the report versions known
/// for that commit, and the neighbouring commits in time.
#[derive(Debug, Clone, PartialEq, Eq)]
pub struct ProjectInfo {
    pub project: Project,
    pub commit: Commit,
    pub report_versions: Vec<String>,
    pub prev_commit: Option<String>,
    pub next_commit: Option<String>,
}

/// Whether `v` is one of `vs`.
pub open spec fn has_version(vs: Seq<String>, v: Seq<char>) -> bool {
    exists|i: int| 0 <= i < vs.len() && (#[trigger] vs[i])@ == v
}

/// The project's default version if it is among `vs`, else the first of `vs`.
pub open spec fn chosen_version(d: Option<String>, vs: Seq<String>) -> Option<Seq<char>> {
    if d is Some && has_version(vs, d->Some_0@) {
        Some(d->Some_0@)
    } else if vs.len() > 0 {
        Some(vs[0]@)
    } else {
        None
    }
}

impl ProjectInfo {
    /// The version to show first: the project's default if a report exists
    /// for it, else the first known version.
    pub fn default_version(&self) -> (r: Option<&str>)
        ensures
            match r {
                Some(s) => chosen_version(self.project.default_version, self.report_versions@)
                    == Some(s@),
                None => chosen_version(self.project.default_version, self.report_versions@)
                    is None,
            },
    {
        if let Some(d) = &self.project.default_version {
            let mut i: usize = 0;
            while i < self.report_versions.len()
                invariant
                    self.project.default_version == Some(*d),
                    i <= self.report_versions@.len(),
                    forall|j: int| 0 <= j < i ==> (#[trigger] self.report_versions@[j])@ != d@,
                decreases self.report_versions@.len() - i,
            {
                if self.report_versions[i] == *d {
                    assert(self.report_versions@[i as int]@ == d@);
                    assert(has_version(self.report_versions@, d@));
                    return Some(d.as_str());
                }
                i = i + 1;
            }
        }
        if self.report_versions.len() > 0 {
            Some(self.report_versions[0].as_str())
        } else {
            None
        }
    }
}

/// The key under which a commit lookup is cached.
#[derive(Debug, Clone, PartialEq, Eq, Hash)]
pub struct GetCommit {
    pub owner: String,
    pub repo: String,
    pub sha: String,
}

/// Service configuration.
#[derive(Debug, Clone)]
pub struct Config {
    pub server: ServerConfig,
    pub app: AppConfig,
}

/// Where the HTTP server listens.
#[derive(Debug, Clone)]
pub struct ServerConfig {
    pub port: u16,
}

/// Where the database lives and how to authenticate to the platform.
#[derive(Debug, Clone)]
pub struct AppConfig {
    pub db_url: String,
    pub github_token: String,
}

} // verus!
