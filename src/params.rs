//! Parameters of report and project requests.
use vstd::prelude::*;

verus! {

/// Badge options given with a request.
#[derive(Debug, Clone, Default)]
pub struct ShieldParams {
    pub label: Option<String>,
    pub label_color: Option<String>,
    pub color: Option<String>,
    pub style: Option<String>,
    pub measure: Option<String>,
}

/// A badge description in the shields.io endpoint format.
#[derive(Debug, Clone)]
pub struct ShieldResponse {
    pub schema_version: u32,
    pub label: String,
    pub message: String,
    pub color: Option<String>,
    pub style: Option<String>,
    pub label_color: Option<String>,
}

/// How to order the project list.
#[derive(Debug, Clone)]
pub struct ProjectsQuery {
    pub sort: Option<String>,
}

/// The path of a report request.
#[derive(Debug, Clone)]
pub struct ReportParams {
    pub owner: String,
    pub repo: String,
    pub version: Option<String>,
    pub commit: Option<String>,
}

/// The query of a report request.
#[derive(Debug, Clone)]
pub struct ReportQuery {
    pub mode: Option<String>,
    pub category: Option<String>,
    pub w: Option<u32>,
    pub h: Option<u32>,
    pub shield: ShieldParams,
    pub unit: Option<String>,
}

pub const DEFAULT_IMAGE_WIDTH: u32 = 950;
pub const DEFAULT_IMAGE_HEIGHT: u32 = 475;

impl ReportQuery {
    /// The requested image size, with the defaults where none is given.
    pub fn size(&self) -> (r: (u32, u32))
        ensures
            r.0 == match self.w { Some(w) => w, None => DEFAULT_IMAGE_WIDTH },
            r.1 == match self.h { Some(h) => h, None => DEFAULT_IMAGE_HEIGHT },
    {
        let w = match self.w {
            Some(w) => w,
            None => DEFAULT_IMAGE_WIDTH,
        };
        let h = match self.h {
            Some(h) => h,
            None => DEFAULT_IMAGE_HEIGHT,
        };
        (w, h)
    }
}

/// `i` is the position of the last `.` in `s`.
pub open spec fn last_dot(s: Seq<char>, i: int) -> bool {
    0 <= i < s.len() && s[i] == '.' && forall|j: int| i < j < s.len() ==> s[j] != '.'
}

/// `s` split at its last `.`: what stands before and after it.
pub open spec fn dot_split(s: Seq<char>, r: Option<(Seq<char>, Seq<char>)>) -> bool {
    match r {
        Some((a, b)) => exists|i: int| #[trigger] last_dot(s, i) && a == s.subrange(0, i) && b == s.subrange(i + 1, s.len() as int),
        None => forall|j: int| 0 <= j < s.len() ==> s[j] != '.',
    }
}

/// Splits `s` at its last `.`.
pub fn split_last_dot(s: &str) -> (r: Option<(String, String)>)
    ensures
        dot_split(s@, match r { Some((a, b)) => Some((a@, b@)), None => None }),
{
    let n = s.unicode_len();
    let mut i: usize = n;
    while i > 0
        invariant
            n == s@.len(),
            i <= n,
            forall|j: int| i <= j < n ==> s@[j] != '.',
        decreases i,
    {
        if s.get_char(i - 1) == '.' {
            let a = s.substring_char(0, i - 1).to_owned();
            let b = s.substring_char(i, n).to_owned();
            assert(last_dot(s@, i - 1));
            return Some((a, b));
        }
        i = i - 1;
    }
    None
}

/// Takes a file extension off a report path: off the commit if one is
/// given, else off the version if one is given, else off the repository.
/// Returns the parameters without it, and the extension.
pub fn extract_extension(params: ReportParams) -> (r: (ReportParams, Option<String>))
    ensures
        r.0.owner@ == params.owner@,
        match (params.commit, params.version) {
            (Some(c), _) => {
                &&& r.0.repo@ == params.repo@
                &&& r.0.version == params.version
                &&& r.0.commit is Some
                &&& dot_split(c@, match r.1 { Some(b) => Some((r.0.commit->Some_0@, b@)), None => None })
                &&& r.1 is None ==> r.0.commit == params.commit
            },
            (None, Some(v)) => {
                &&& r.0.repo@ == params.repo@
                &&& r.0.commit is None
                &&& r.0.version is Some
                &&& dot_split(v@, match r.1 { Some(b) => Some((r.0.version->Some_0@, b@)), None => None })
                &&& r.1 is None ==> r.0.version == params.version
            },
            (None, None) => {
                &&& r.0.commit is None
                &&& r.0.version is None
                &&& dot_split(params.repo@, match r.1 { Some(b) => Some((r.0.repo@, b@)), None => None })
                &&& r.1 is None ==> r.0.repo@ == params.repo@
            },
        },
{
    let ReportParams { owner, repo, version, commit } = params;
    match commit {
        Some(c) => match split_last_dot(c.as_str()) {
            Some((a, b)) => (ReportParams { owner, repo, version, commit: Some(a) }, Some(b)),
            None => (ReportParams { owner, repo, version, commit: Some(c) }, None),
        },
        None => match version {
            Some(v) => match split_last_dot(v.as_str()) {
                Some((a, b)) => (ReportParams { owner, repo, version: Some(a), commit: None }, Some(b)),
                None => (ReportParams { owner, repo, version: Some(v), commit: None }, None),
            },
            None => match split_last_dot(repo.as_str()) {
                Some((a, b)) => (ReportParams { owner, repo: a, version: None, commit: None }, Some(b)),
                None => (ReportParams { owner, repo, version: None, commit: None }, None),
            },
        },
    }
}

} // verus!
