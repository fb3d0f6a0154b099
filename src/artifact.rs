//! Reading build artifacts: which artifacts of a run carry a report and
//! under which version, and the reports inside an artifact's archive.
use vstd::prelude::*;
use std::io::Cursor;
use std::sync::Arc;
use objdiff_core::bindings::report::Report;
use crate::report::{category_ids, migrated, migrates, migration_bounded, parsed_report, parses, read_report, split_report, top_level, FormatError};
use crate::text::{eq_nocase, equals_nocase, same_text};

verus! {

/// `zip::ZipArchive`, an archive being read.
#[verifier::external_type_specification]
#[verifier::external_body]
#[verifier::reject_recursive_types(R)]
pub struct ExZipArchive<R>(zip::ZipArchive<R>);

/// `std::io::Cursor`, which reads an archive from memory.
#[verifier::external_type_specification]
#[verifier::external_body]
#[verifier::reject_recursive_types(T)]
pub struct ExCursor<T>(Cursor<T>);

/// `zip::result::ZipError`, held opaquely.
#[verifier::external_type_specification]
#[verifier::external_body]
pub struct ExZipError(zip::result::ZipError);

/// The view of an optional string.
pub open spec fn opt_seq(o: Option<String>) -> Option<Seq<char>> {
    match o {
        Some(s) => Some(s@),
        None => None,
    }
}

/// A character that may stand in a version label: an ASCII letter or
/// digit, `_` or `-`.
pub open spec fn label_char(c: char) -> bool {
    ('A' <= c && c <= 'Z') || ('a' <= c && c <= 'z') || ('0' <= c && c <= '9') || c == '_' || c == '-'
}

/// A separator between a label and `report`.
pub open spec fn sep_char(c: char) -> bool {
    c == '_' || c == '-'
}

/// `report`.
pub open spec fn report_word() -> Seq<char> {
    seq!['r', 'e', 'p', 'o', 'r', 't']
}

/// Splitting `s` at `i` leaves a label before it and `[_-]report`,
/// optionally followed by `[_-]` and a line without a line break, after it.
pub open spec fn report_split(s: Seq<char>, i: int) -> bool {
    &&& 1 <= i && i + 7 <= s.len()
    &&& forall|j: int| 0 <= j < i ==> label_char(#[trigger] s[j])
    &&& sep_char(s[i])
    &&& s.subrange(i + 1, i + 7) == report_word()
    &&& (s.len() == i + 7 || (sep_char(s[i + 7]) && forall|j: int| i + 8 <= j < s.len() ==> #[trigger] s[j] != '\n'))
}

/// The version label of an artifact named `<label>[_-]report...`: the
/// longest label that leaves a matching tail.
pub open spec fn report_label(s: Seq<char>, v: Option<Seq<char>>) -> bool {
    match v {
        Some(l) => exists|i: int| #[trigger] report_split(s, i) && l == s.subrange(0, i)
            && forall|k: int| i < k ==> !#[trigger] report_split(s, k),
        None => forall|i: int| !#[trigger] report_split(s, i),
    }
}

/// `_maps`.
pub open spec fn maps_suffix() -> Seq<char> {
    seq!['_', 'm', 'a', 'p', 's']
}

/// The version label of an artifact named `<label>_maps`.
pub open spec fn maps_label(s: Seq<char>) -> Option<Seq<char>> {
    if s.len() >= 6 && s.subrange(s.len() - 5, s.len() as int) == maps_suffix()
        && forall|j: int| 0 <= j < s.len() - 5 ==> label_char(#[trigger] s[j]) {
        Some(s.subrange(0, s.len() - 5))
    } else {
        None
    }
}

/// What `Path::file_stem` gives for the path: its last component without
/// the last extension.
pub uninterp spec fn stem_of(path: Seq<char>) -> Option<Seq<char>>;

/// Relies on `regex::Regex` with `^(?P<version>[A-Za-z0-9_\-]+)[_-]report(?:[_-].*)?$`:
/// the group is greedy, so it takes the longest label after which the rest
/// of the name matches; `.` does not match a line break.
#[verifier::external_body]
fn report_regex(name: &str) -> (r: Option<String>)
    ensures
        report_label(name@, opt_seq(r)),
{
    let re = regex::Regex::new(r"^(?P<version>[A-Za-z0-9_\-]+)[_-]report(?:[_-].*)?$").ok()?;
    re.captures(name)?.name("version").map(|m| m.as_str().to_string())
}

/// Relies on `regex::Regex` with `^(?P<version>[A-Za-z0-9_\-]+)_maps$`.
#[verifier::external_body]
fn maps_regex(name: &str) -> (r: Option<String>)
    ensures
        opt_seq(r) == maps_label(name@),
{
    let re = regex::Regex::new(r"^(?P<version>[A-Za-z0-9_\-]+)_maps$").ok()?;
    re.captures(name)?.name("version").map(|m| m.as_str().to_string())
}

/// Relies on `std::path::Path::file_stem`.
#[verifier::external_body]
fn path_stem(path: &str) -> (r: Option<String>)
    ensures
        opt_seq(r) == stem_of(path@),
{
    std::path::Path::new(path).file_stem().and_then(|s| s.to_str()).map(|s| s.to_string())
}

/// Whether `zip::ZipArchive::new` reads a central directory from the bytes.
pub uninterp spec fn archive_opens(b: Seq<u8>) -> bool;

/// An archive read from memory.
pub type Archive = zip::ZipArchive<Cursor<Vec<u8>>>;

/// The bytes that an archive was read from.
pub uninterp spec fn archive_source(a: Archive) -> Seq<u8>;

/// What the archive in the bytes lists: for each entry, its path where the
/// path stays inside the archive and is valid UTF-8.
pub uninterp spec fn zip_paths(b: Seq<u8>) -> Seq<Option<Seq<char>>>;

/// For each entry of the archive in the bytes, whether
/// `ZipArchive::by_index` opens it.
pub uninterp spec fn zip_opens(b: Seq<u8>) -> Seq<bool>;

/// For each entry of the archive in the bytes, its content where it can be
/// read out.
pub uninterp spec fn zip_contents(b: Seq<u8>) -> Seq<Option<Seq<u8>>>;

pub open spec fn entry_paths(a: Archive) -> Seq<Option<Seq<char>>> {
    zip_paths(archive_source(a))
}

pub open spec fn entry_opens(a: Archive) -> Seq<bool> {
    zip_opens(archive_source(a))
}

pub open spec fn entry_contents(a: Archive) -> Seq<Option<Seq<u8>>> {
    zip_contents(archive_source(a))
}

/// Relies on `zip::ZipArchive::new`, which reads the central directory.
#[verifier::external_body]
fn open_archive(bytes: Vec<u8>) -> (r: Result<Archive, zip::result::ZipError>)
    ensures
        r is Ok <==> archive_opens(bytes@),
        r matches Ok(a) ==> archive_source(a) == bytes@,
        r is Ok ==> zip_opens(bytes@).len() == zip_paths(bytes@).len() && zip_contents(bytes@).len() == zip_paths(bytes@).len(),
{
    zip::ZipArchive::new(Cursor::new(bytes))
}

/// Relies on `zip::ZipArchive::len`: the number of entries.
#[verifier::external_body]
fn archive_len(a: &Archive) -> (n: usize)
    ensures
        n == entry_paths(*a).len(),
{
    a.len()
}

/// Relies on `zip::ZipArchive::by_index` and `ZipFile::enclosed_name`: the
/// entry's path, if it stays inside the archive and is valid UTF-8. Reading
/// an entry does not change what the archive holds.
#[verifier::external_body]
fn entry_path(a: &mut Archive, i: usize) -> (r: Result<Option<String>, zip::result::ZipError>)
    requires
        i < entry_paths(*old(a)).len(),
        i < entry_opens(*old(a)).len(),
    ensures
        archive_source(*final(a)) == archive_source(*old(a)),
        r is Ok <==> entry_opens(*old(a))[i as int],
        r matches Ok(p) ==> opt_seq(p) == entry_paths(*old(a))[i as int],
{
    let f = a.by_index(i)?;
    Ok(f.enclosed_name().and_then(|p| p.to_str().map(|s| s.to_string())))
}

/// Relies on `zip::ZipArchive::by_index` and `std::io::Read::read_to_end`.
#[verifier::external_body]
fn entry_bytes(a: &mut Archive, i: usize) -> (r: Result<Vec<u8>, zip::result::ZipError>)
    requires
        i < entry_contents(*old(a)).len(),
    ensures
        archive_source(*final(a)) == archive_source(*old(a)),
        r is Ok <==> entry_contents(*old(a))[i as int] is Some,
        r matches Ok(b) ==> b@ == entry_contents(*old(a))[i as int]->Some_0,
{
    let mut f = a.by_index(i)?;
    let mut out = Vec::new();
    std::io::Read::read_to_end(&mut f, &mut out)?;
    Ok(out)
}

pub open spec fn progress_word() -> Seq<char> {
    seq!['p', 'r', 'o', 'g', 'r', 'e', 's', 's']
}

/// `progress.json`, the other name of a legacy report artifact.
pub open spec fn progress_json_word() -> Seq<char> {
    seq!['p', 'r', 'o', 'g', 'r', 'e', 's', 's', '.', 'j', 's', 'o', 'n']
}

/// `combined`, the version label of a report that bundles several versions.
pub open spec fn combined_word() -> Seq<char> {
    seq!['c', 'o', 'm', 'b', 'i', 'n', 'e', 'd']
}

/// The first of the first `n` names that is `<label>_maps`.
pub open spec fn first_maps(names: Seq<String>, n: nat) -> Option<int>
    decreases n,
{
    if n == 0 {
        None
    } else {
        match first_maps(names, (n - 1) as nat) {
            Some(j) => Some(j),
            None => if maps_label(names[n - 1]@) is Some {
                Some(n - 1)
            } else {
                None
            },
        }
    }
}

/// The version under which the artifact at position `k` is read: the label
/// of a `<label>[_-]report...` name; for a legacy `progress` or
/// `progress.json` artifact, the label of the first `<label>_maps` artifact
/// of the same run; otherwise none, and the artifact is skipped.
pub open spec fn resolved(names: Seq<String>, k: int, v: Option<Seq<char>>) -> bool {
    let s = names[k]@;
    if exists|i: int| #[trigger] report_split(s, i) {
        report_label(s, v)
    } else if s == progress_word() || s == progress_json_word() {
        match first_maps(names, names.len()) {
            Some(j) => v == maps_label(names[j]@),
            None => v is None,
        }
    } else {
        v is None
    }
}

/// The label of the first `<label>_maps` artifact, if any.
fn sibling_maps_label(names: &Vec<String>) -> (r: Option<String>)
    ensures
        match first_maps(names@, names@.len()) {
            Some(j) => opt_seq(r) == maps_label(names@[j]@),
            None => r is None,
        },
{
    let mut i: usize = 0;
    while i < names.len()
        invariant
            i <= names@.len(),
            first_maps(names@, i as nat) is None,
        decreases names@.len() - i,
    {
        let m = maps_regex(names[i].as_str());
        if m.is_some() {
            assert(first_maps(names@, (i + 1) as nat) == Some(i as int));
            proof { lemma_first_maps_stays(names@, (i + 1) as nat, names@.len()); }
            return m;
        }
        i = i + 1;
    }
    None
}

proof fn lemma_first_maps_stays(names: Seq<String>, m: nat, n: nat)
    requires
        m <= n,
        first_maps(names, m) is Some,
    ensures
        first_maps(names, n) == first_maps(names, m),
    decreases n - m,
{
    if m < n {
        lemma_first_maps_stays(names, m, (n - 1) as nat);
    }
}

/// The version under which each artifact of a run is read, by position;
/// `None` for an artifact that carries no report.
pub fn artifact_versions(names: &Vec<String>) -> (r: Vec<Option<String>>)
    ensures
        r@.len() == names@.len(),
        forall|k: int| 0 <= k < names@.len() ==> resolved(names@, k, opt_seq(#[trigger] r@[k])),
{
    let maps = sibling_maps_label(names);
    let mut out: Vec<Option<String>> = Vec::new();
    let mut k: usize = 0;
    while k < names.len()
        invariant
            k <= names@.len(),
            out@.len() == k,
            match first_maps(names@, names@.len()) {
                Some(j) => opt_seq(maps) == maps_label(names@[j]@),
                None => maps is None,
            },
            forall|t: int| 0 <= t < k ==> resolved(names@, t, opt_seq(#[trigger] out@[t])),
        decreases names@.len() - k,
    {
        let name = names[k].as_str();
        let v = match report_regex(name) {
            Some(l) => Some(l),
            None => {
                proof {
                    reveal_strlit("progress");
                    reveal_strlit("progress.json");
                    assert("progress"@ =~= progress_word());
                    assert("progress.json"@ =~= progress_json_word());
                }
                if same_text(name, "progress") || same_text(name, "progress.json") {
                    match &maps {
                        Some(l) => Some(l.clone()),
                        None => None,
                    }
                } else {
                    None
                }
            },
        };
        out.push(v);
        proof {
            assert forall|t: int| 0 <= t < k + 1 implies resolved(names@, t, opt_seq(#[trigger] out@[t])) by {
                if t == k {
                    assert(names@[t]@ == name@);
                }
            }
        }
        k = k + 1;
    }
    out
}

/// Why an artifact gave no report.
#[derive(Debug, Clone, Copy, PartialEq, Eq, Structural)]
pub enum ArtifactError {
    /// The archive or one of its entries could not be read.
    Archive,
    /// The report file could not be parsed or brought up to date.
    Format(FormatError),
}

/// Whether an archive entry at `path` holds the report: its file name,
/// without extension, is `report` or `progress`.
pub open spec fn is_report_entry(path: Seq<char>) -> bool {
    stem_of(path) == Some(report_word()) || stem_of(path) == Some(progress_word())
}

fn report_entry(path: &str) -> (r: bool)
    ensures
        r == is_report_entry(path@),
{
    match path_stem(path) {
        None => false,
        Some(stem) => {
            proof {
                reveal_strlit("report");
                reveal_strlit("progress");
                assert("report"@ =~= report_word());
                assert("progress"@ =~= progress_word());
            }
            same_text(stem.as_str(), "report") || same_text(stem.as_str(), "progress")
        },
    }
}

/// The entry at position `i` holds the report.
pub open spec fn report_at(paths: Seq<Option<Seq<char>>>, i: int) -> bool {
    paths[i] matches Some(p) && is_report_entry(p)
}

/// Among the first `n` entries, the first that cannot be opened or holds
/// the report.
pub open spec fn first_stop(a: Archive, n: nat) -> Option<int>
    decreases n,
{
    if n == 0 {
        None
    } else {
        match first_stop(a, (n - 1) as nat) {
            Some(j) => Some(j),
            None => if !entry_opens(a)[n - 1] || report_at(entry_paths(a), n - 1) {
                Some(n - 1)
            } else {
                None
            },
        }
    }
}

/// What reading the reports of archive `a` under `version` gives.
pub open spec fn archive_result(a: Archive, version: Seq<char>, r: Result<Vec<(String, Arc<Report>)>, ArtifactError>) -> bool {
    match first_stop(a, entry_paths(a).len()) {
        None => r matches Ok(v) && v@.len() == 0,
        Some(i) => if !entry_opens(a)[i] {
            r == Err::<Vec<(String, Arc<Report>)>, ArtifactError>(ArtifactError::Archive)
        } else {
            match entry_contents(a)[i] {
                None => r == Err::<Vec<(String, Arc<Report>)>, ArtifactError>(ArtifactError::Archive),
                Some(c) => if !parses(c) {
                    r == Err::<Vec<(String, Arc<Report>)>, ArtifactError>(ArtifactError::Format(FormatError::Decode))
                } else {
                    let p = parsed_report(c);
                    if !(migration_bounded(p) && migrates(p)) {
                        r == Err::<Vec<(String, Arc<Report>)>, ArtifactError>(ArtifactError::Format(FormatError::Migrate))
                    } else if eq_nocase(version, combined_word()) {
                        let labels = top_level(category_ids(migrated(p)));
                        r matches Ok(v) && v@.len() == labels.len()
                            && forall|k: int| 0 <= k < v@.len() ==> (#[trigger] v@[k]).0@ == labels[k]
                    } else {
                        r matches Ok(v) && v@.len() == 1 && v@[0].0@ == version && *v@[0].1 == migrated(p)
                    }
                },
            }
        },
    }
}

/// The reports in an artifact's archive under `version`: see
/// `reports_in_archive`. Bytes that hold no archive are an error.
pub fn process_artifact(bytes: Vec<u8>, version: &str) -> (r: Result<Vec<(String, Arc<Report>)>, ArtifactError>)
    ensures
        !archive_opens(bytes@) ==> r == Err::<Vec<(String, Arc<Report>)>, ArtifactError>(ArtifactError::Archive),
        archive_opens(bytes@) ==> exists|a: Archive| archive_source(a) == bytes@ && #[trigger] archive_result(a, version@, r),
{
    let mut archive = match open_archive(bytes) {
        Ok(a) => a,
        Err(_) => return Err(ArtifactError::Archive),
    };
    let ghost a0 = archive;
    let r = reports_in_archive(&mut archive, version);
    assert(archive_result(a0, version@, r));
    r
}

/// The reports in an archive under `version`. Entries are taken in order
/// up to the first that holds the report (its file name, without
/// extension, is `report` or `progress`); one that cannot be opened or
/// read on the way is an error. The report is parsed and brought up to
/// date. A `combined` version (in any case) holds one report per version,
/// which are split apart; otherwise the report stands alone under
/// `version`. An archive without such an entry gives no report.
pub fn reports_in_archive(archive: &mut Archive, version: &str) -> (r: Result<Vec<(String, Arc<Report>)>, ArtifactError>)
    requires
        entry_opens(*old(archive)).len() == entry_paths(*old(archive)).len(),
        entry_contents(*old(archive)).len() == entry_paths(*old(archive)).len(),
    ensures
        archive_result(*old(archive), version@, r),
{
    let ghost a0 = *archive;
    let n = archive_len(archive);
    let mut i: usize = 0;
    while i < n
        invariant
            n == entry_paths(a0).len(),
            entry_opens(a0).len() == n,
            entry_contents(a0).len() == n,
            entry_paths(*archive) == entry_paths(a0),
            entry_opens(*archive) == entry_opens(a0),
            entry_contents(*archive) == entry_contents(a0),
            a0 == *old(archive),
            i <= n,
            first_stop(a0, i as nat) is None,
        decreases n - i,
    {
        let path = match entry_path(archive, i) {
            Ok(p) => p,
            Err(_) => {
                assert(first_stop(a0, (i + 1) as nat) == Some(i as int));
                proof { lemma_first_stop_stays(a0, (i + 1) as nat, n as nat); }
                return Err(ArtifactError::Archive);
            },
        };
        let hit = match &path {
            Some(p) => report_entry(p.as_str()),
            None => false,
        };
        if hit {
            assert(first_stop(a0, (i + 1) as nat) == Some(i as int));
            proof { lemma_first_stop_stays(a0, (i + 1) as nat, n as nat); }
            let contents = match entry_bytes(archive, i) {
                Ok(c) => c,
                Err(_) => return Err(ArtifactError::Archive),
            };
            let rep = match read_report(contents.as_slice()) {
                Ok(rep) => rep,
                Err(e) => return Err(ArtifactError::Format(e)),
            };
            proof {
                reveal_strlit("combined");
                assert("combined"@ =~= combined_word());
            }
            if equals_nocase(version, "combined") {
                return Ok(split_report(rep));
            }
            let mut out: Vec<(String, Arc<Report>)> = Vec::new();
            out.push((version.to_owned(), Arc::new(rep)));
            return Ok(out);
        }
        i = i + 1;
    }
    Ok(Vec::new())
}

proof fn lemma_first_stop_stays(a: Archive, m: nat, n: nat)
    requires
        m <= n,
        first_stop(a, m) is Some,
    ensures
        first_stop(a, n) == first_stop(a, m),
    decreases n - m,
{
    if m < n {
        lemma_first_stop_stays(a, m, (n - 1) as nat);
    }
}

} // verus!
