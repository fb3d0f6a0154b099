//! The four logical tables (projects, reports, content-addressed units and
//! the ordered links between reports and units) and the operations on them.
use vstd::prelude::*;
use crate::codec::{compress, content_hash, decompress, decompressed, blake3_digest, CodecError, MAX_CONTENT};
use crate::models::{Commit, Project};
use crate::text::{eq_nocase, equals_nocase, bytes_equal, folded};

verus! {

/// A stored report: its encoding without units, compressed.
#[derive(Debug)]
pub struct ReportRow {
    pub id: u64,
    pub project_id: u64,
    pub version: String,
    pub git_commit: String,
    pub timestamp: i64,
    pub data: Vec<u8>,
}

/// A stored unit, keyed by the BLAKE3 digest of its encoding.
#[derive(Debug)]
pub struct UnitRow {
    pub key: Vec<u8>,
    pub data: Vec<u8>,
    pub name: Option<String>,
}

/// The unit at one position of one report.
#[derive(Debug)]
pub struct LinkRow {
    pub report_id: u64,
    pub unit_key: Vec<u8>,
    pub unit_index: u64,
}

/// One unit of a report, already encoded.
#[derive(Debug)]
pub struct EncodedUnit {
    pub name: String,
    pub data: Vec<u8>,
}

/// A report in encoded form: the report without its units, and each unit.
#[derive(Debug)]
pub struct EncodedReport {
    pub header: Vec<u8>,
    pub units: Vec<EncodedUnit>,
}

#[derive(Debug, Clone, Copy, PartialEq, Eq, Structural)]
pub enum StoreError {
    /// A payload could not be compressed or decompressed.
    Codec(CodecError),
    /// No link gives the unit at this position.
    IndexMismatch { index: u64 },
    /// A link names a unit that is not stored.
    MissingUnit { index: u64 },
    /// The unit at this position no longer hashes to its key.
    HashMismatch { index: u64 },
    /// Every report id has been handed out.
    IdsExhausted,
    /// A stored payload could not be decoded.
    Decode,
    /// A stored report could not be brought to the current format.
    Migrate,
}

/// The tables of the store.
pub struct Store {
    pub projects: Vec<Project>,
    pub reports: Vec<ReportRow>,
    pub units: Vec<UnitRow>,
    pub links: Vec<LinkRow>,
    pub next_report_id: u64,
}

/// Every payload of the report is one that memory can hold (at most
/// `isize::MAX` bytes), as every `Vec` is.
pub open spec fn fits_in_memory(enc: EncodedReport) -> bool {
    &&& enc.header@.len() <= MAX_CONTENT
    &&& forall|i: int| 0 <= i < enc.units@.len() ==> (#[trigger] enc.units@[i]).data@.len() <= MAX_CONTENT
}

/// Inserting would need a new report id and none is left.
pub open spec fn ids_exhausted(s: Store, pid: u64, version: Seq<char>, commit: Seq<char>) -> bool {
    first_report(s.reports@, pid, version, commit, s.reports@.len()) is None && s.next_report_id == u64::MAX
}

/// `name` is the name recorded in the unit encoding that `data`
/// decompresses to.
pub open spec fn named_by_data(data: Seq<u8>, name: Seq<char>) -> bool {
    decompressed(data) matches Ok(c) && crate::report::decoded_name(c) == Some(name)
}

/// The stored data does not decompress to a unit encoding that decodes.
pub open spec fn unnameable(data: Seq<u8>) -> bool {
    match decompressed(data) {
        Err(_) => true,
        Ok(c) => crate::report::decoded_name(c) is None,
    }
}

/// The content key of an encoded unit.
pub open spec fn key_of(u: EncodedUnit) -> Seq<u8> {
    blake3_digest(u.data@)
}

/// The report row is for (project, version, commit); version and commit
/// compare case-insensitively.
pub open spec fn report_matches(r: ReportRow, pid: u64, version: Seq<char>, commit: Seq<char>) -> bool {
    r.project_id == pid && eq_nocase(r.version@, version) && eq_nocase(r.git_commit@, commit)
}

/// The first of the first `n` report rows for (project, version, commit).
pub open spec fn first_report(rs: Seq<ReportRow>, pid: u64, version: Seq<char>, commit: Seq<char>, n: nat)
    -> Option<int>
    decreases n,
{
    if n == 0 {
        None
    } else {
        match first_report(rs, pid, version, commit, (n - 1) as nat) {
            Some(j) => Some(j),
            None => if report_matches(rs[n - 1], pid, version, commit) {
                Some(n - 1)
            } else {
                None
            },
        }
    }
}

/// The first of the first `n` unit rows with this key.
pub open spec fn first_unit(us: Seq<UnitRow>, key: Seq<u8>, n: nat) -> Option<int>
    decreases n,
{
    if n == 0 {
        None
    } else {
        match first_unit(us, key, (n - 1) as nat) {
            Some(j) => Some(j),
            None => if us[n - 1].key@ == key {
                Some(n - 1)
            } else {
                None
            },
        }
    }
}

/// The first of the first `n` links giving position `k` of report `rid`.
pub open spec fn first_link(ls: Seq<LinkRow>, rid: u64, k: int, n: nat) -> Option<int>
    decreases n,
{
    if n == 0 {
        None
    } else {
        match first_link(ls, rid, k, (n - 1) as nat) {
            Some(j) => Some(j),
            None => if ls[n - 1].report_id == rid && ls[n - 1].unit_index == k {
                Some(n - 1)
            } else {
                None
            },
        }
    }
}

/// How many of the first `n` links belong to report `rid`.
pub open spec fn count_links(ls: Seq<LinkRow>, rid: u64, n: nat) -> nat
    decreases n,
{
    if n == 0 {
        0
    } else {
        count_links(ls, rid, (n - 1) as nat) + if ls[n - 1].report_id == rid {
            1nat
        } else {
            0nat
        }
    }
}

/// Some project row has this id.
pub open spec fn has_project_id(ps: Seq<Project>, id: u64) -> bool {
    exists|i: int| 0 <= i < ps.len() && (#[trigger] ps[i]).id == id
}

/// Some unit row has this key.
pub open spec fn has_unit(us: Seq<UnitRow>, key: Seq<u8>) -> bool {
    exists|i: int| 0 <= i < us.len() && (#[trigger] us[i]).key@ == key
}

/// A link for report `rid` already takes position `k` or unit `key`, so a
/// new link (rid, key, k) would be ignored.
pub open spec fn link_taken(ls: Seq<LinkRow>, rid: u64, key: Seq<u8>, k: int) -> bool {
    exists|i: int|
        0 <= i < ls.len() && (#[trigger] ls[i]).report_id == rid && (ls[i].unit_index == k
            || ls[i].unit_key@ == key)
}

/// Some link of report `rid` names the unit `key`.
pub open spec fn has_link_to(ls: Seq<LinkRow>, rid: u64, key: Seq<u8>) -> bool {
    exists|i: int| 0 <= i < ls.len() && (#[trigger] ls[i]).report_id == rid && ls[i].unit_key@ == key
}

/// No two units of the report share a key.
pub open spec fn distinct_keys(us: Seq<EncodedUnit>) -> bool {
    forall|i: int, j: int| 0 <= i < us.len() && 0 <= j < us.len() && i != j ==> key_of(
        #[trigger] us[i],
    ) != key_of(#[trigger] us[j])
}

/// Two report rows are for the same project, version and commit, the
/// latter two compared case-insensitively.
pub open spec fn same_report_key(a: ReportRow, b: ReportRow) -> bool {
    a.project_id == b.project_id && eq_nocase(a.version@, b.version@) && eq_nocase(a.git_commit@, b.git_commit@)
}

/// Two report rows agree in all but their timestamps.
pub open spec fn same_but_time(a: ReportRow, b: ReportRow) -> bool {
    a.id == b.id && a.project_id == b.project_id && a.version@ == b.version@ && a.git_commit@
        == b.git_commit@ && a.data@ == b.data@
}

impl Store {
    /// The store's invariant: project ids, report ids and unit keys are
    /// unique, no two report rows share a project, version and commit (up to
    /// case), and every link belongs to a report id that has been handed out.
    pub open spec fn wf(&self) -> bool {
        &&& forall|i: int, j: int|
            0 <= i < self.projects@.len() && 0 <= j < self.projects@.len() && i != j
                ==> (#[trigger] self.projects@[i]).id != (#[trigger] self.projects@[j]).id
        &&& forall|i: int, j: int|
            0 <= i < self.reports@.len() && 0 <= j < self.reports@.len() && i != j
                ==> !same_report_key(#[trigger] self.reports@[i], #[trigger] self.reports@[j])
        &&& forall|i: int| 0 <= i < self.reports@.len() ==> (#[trigger] self.reports@[i]).id
            < self.next_report_id
        &&& forall|i: int, j: int|
            0 <= i < self.reports@.len() && 0 <= j < self.reports@.len() && i != j
                ==> (#[trigger] self.reports@[i]).id != (#[trigger] self.reports@[j]).id
        &&& forall|i: int, j: int|
            0 <= i < self.units@.len() && 0 <= j < self.units@.len() && i != j
                ==> (#[trigger] self.units@[i]).key@ != (#[trigger] self.units@[j]).key@
        &&& forall|i: int| 0 <= i < self.links@.len() ==> (#[trigger] self.links@[i]).report_id
            < self.next_report_id
        &&& forall|i: int, j: int|
            0 <= i < self.links@.len() && 0 <= j < self.links@.len() && i != j && (
            #[trigger] self.links@[i]).report_id == (#[trigger] self.links@[j]).report_id
                ==> self.links@[i].unit_index != self.links@[j].unit_index && self.links@[i].unit_key@
                != self.links@[j].unit_key@
    }

    /// What inserting a report does to the tables, `rid` being the id of
    /// its report row.
    pub open spec fn inserted(
        old: Store,
        new: Store,
        project: Project,
        commit: Commit,
        version: Seq<char>,
        enc: EncodedReport,
        rid: u64,
    ) -> bool {
        let units = enc.units@;
        let slot = first_report(old.reports@, project.id, version, commit.sha@, old.reports@.len());
        // projects: insert if the id is absent
        &&& (if has_project_id(old.projects@, project.id) {
            new.projects@ == old.projects@
        } else {
            new.projects@ == old.projects@.push(project)
        })
        // reports: an existing row only gets the new timestamp
        &&& match slot {
            Some(i) => {
                &&& rid == old.reports@[i].id
                &&& new.next_report_id == old.next_report_id
                &&& new.reports@.len() == old.reports@.len()
                &&& forall|j: int| 0 <= j < old.reports@.len() && j != i ==> new.reports@[j] == old.reports@[j]
                &&& same_but_time(new.reports@[i], old.reports@[i])
                &&& new.reports@[i].timestamp == commit.timestamp
            },
            None => {
                &&& rid == old.next_report_id
                &&& new.next_report_id == old.next_report_id + 1
                &&& new.reports@.len() == old.reports@.len() + 1
                &&& new.reports@.subrange(0, old.reports@.len() as int) == old.reports@
                &&& new.reports@.last().id == rid
                &&& new.reports@.last().project_id == project.id
                &&& new.reports@.last().version@ == version
                &&& new.reports@.last().git_commit@ == commit.sha@
                &&& new.reports@.last().timestamp == commit.timestamp
                &&& decompressed(new.reports@.last().data@) == Ok::<Seq<u8>, CodecError>(enc.header@)
            },
        }
        // units: only absent keys are added, each holding its unit's bytes
        &&& new.units@.len() >= old.units@.len()
        &&& new.units@.subrange(0, old.units@.len() as int) == old.units@
        &&& forall|j: int| old.units@.len() <= j < new.units@.len() ==> {
            &&& !has_unit(old.units@, (#[trigger] new.units@[j]).key@)
            &&& exists|i: int| 0 <= i < units.len() && (#[trigger] key_of(units[i])) == new.units@[j].key@
                && decompressed(new.units@[j].data@) == Ok::<Seq<u8>, CodecError>(units[i].data@)
                && new.units@[j].name == Some(units[i].name)
        }
        &&& forall|i: int| 0 <= i < units.len() ==> has_unit(new.units@, #[trigger] key_of(units[i]))
        &&& (forall|i: int| 0 <= i < units.len() ==> has_unit(old.units@, #[trigger] key_of(units[i])))
            ==> new.units@ == old.units@
        // links: one per position, ignored where one is already taken
        &&& new.links@.len() >= old.links@.len()
        &&& new.links@.subrange(0, old.links@.len() as int) == old.links@
        &&& forall|i: int| 0 <= i < units.len() ==> link_taken(new.links@, rid, #[trigger] key_of(units[i]), i)
        &&& (forall|i: int| 0 <= i < units.len() ==> link_taken(old.links@, rid, #[trigger] key_of(units[i]), i))
            ==> new.links@ == old.links@
        &&& slot is None ==> forall|i: int| 0 <= i < units.len() ==> has_link_to(new.links@, rid, #[trigger] key_of(units[i]))
        &&& (slot is None && distinct_keys(units)) ==> {
            &&& new.links@.len() == old.links@.len() + units.len()
            &&& forall|i: int| 0 <= i < units.len() ==> {
                &&& (#[trigger] new.links@[old.links@.len() + i]).report_id == rid
                &&& new.links@[old.links@.len() + i].unit_key@ == key_of(units[i])
                &&& new.links@[old.links@.len() + i].unit_index == i
            }
        }
    }
}

impl Store {
    /// An empty store.
    pub fn new() -> (r: Store)
        ensures
            r.wf(),
            r.projects@.len() == 0,
            r.reports@.len() == 0,
            r.units@.len() == 0,
            r.links@.len() == 0,
    {
        Store { projects: Vec::new(), reports: Vec::new(), units: Vec::new(), links: Vec::new(), next_report_id: 1 }
    }

    fn has_project_with_id(&self, id: u64) -> (r: bool)
        ensures
            r == has_project_id(self.projects@, id),
    {
        let mut i: usize = 0;
        while i < self.projects.len()
            invariant
                i <= self.projects@.len(),
                forall|j: int| 0 <= j < i ==> (#[trigger] self.projects@[j]).id != id,
            decreases self.projects@.len() - i,
        {
            if self.projects[i].id == id {
                return true;
            }
            i = i + 1;
        }
        false
    }

    /// The first report row for (project, version, commit), case-insensitively.
    pub fn find_report(&self, pid: u64, version: &str, commit: &str) -> (r: Option<usize>)
        ensures
            match r {
                Some(j) => first_report(self.reports@, pid, version@, commit@, self.reports@.len()) == Some(j as int),
                None => first_report(self.reports@, pid, version@, commit@, self.reports@.len()) is None,
            },
            r matches Some(j) ==> j < self.reports@.len(),
    {
        let mut i: usize = 0;
        while i < self.reports.len()
            invariant
                i <= self.reports@.len(),
                first_report(self.reports@, pid, version@, commit@, i as nat) is None,
            decreases self.reports@.len() - i,
        {
            let row = &self.reports[i];
            if row.project_id == pid && equals_nocase(row.version.as_str(), version)
                && equals_nocase(row.git_commit.as_str(), commit) {
                assert(first_report(self.reports@, pid, version@, commit@, (i + 1) as nat) == Some(i as int));
                proof { lemma_first_report_stays(self.reports@, pid, version@, commit@, (i + 1) as nat, self.reports@.len()); }
                return Some(i);
            }
            i = i + 1;
        }
        None
    }

    /// The first unit row with this key.
    fn find_unit(&self, key: &[u8]) -> (r: Option<usize>)
        ensures
            match r {
                Some(j) => first_unit(self.units@, key@, self.units@.len()) == Some(j as int),
                None => first_unit(self.units@, key@, self.units@.len()) is None,
            },
            r matches Some(j) ==> j < self.units@.len() && self.units@[j as int].key@ == key@,
            r is None <==> !has_unit(self.units@, key@),
    {
        let mut i: usize = 0;
        while i < self.units.len()
            invariant
                i <= self.units@.len(),
                first_unit(self.units@, key@, i as nat) is None,
                forall|j: int| 0 <= j < i ==> (#[trigger] self.units@[j]).key@ != key@,
            decreases self.units@.len() - i,
        {
            if bytes_equal(self.units[i].key.as_slice(), key) {
                assert(first_unit(self.units@, key@, (i + 1) as nat) == Some(i as int));
                proof { lemma_first_unit_stays(self.units@, key@, (i + 1) as nat, self.units@.len()); }
                return Some(i);
            }
            i = i + 1;
        }
        None
    }

    /// The first link giving position `k` of report `rid`.
    fn find_link(&self, rid: u64, k: u64) -> (r: Option<usize>)
        ensures
            match r {
                Some(j) => first_link(self.links@, rid, k as int, self.links@.len()) == Some(j as int),
                None => first_link(self.links@, rid, k as int, self.links@.len()) is None,
            },
            r matches Some(j) ==> j < self.links@.len() && self.links@[j as int].report_id == rid
                && self.links@[j as int].unit_index == k,
    {
        let mut i: usize = 0;
        while i < self.links.len()
            invariant
                i <= self.links@.len(),
                first_link(self.links@, rid, k as int, i as nat) is None,
            decreases self.links@.len() - i,
        {
            if self.links[i].report_id == rid && self.links[i].unit_index == k {
                assert(first_link(self.links@, rid, k as int, (i + 1) as nat) == Some(i as int));
                proof { lemma_first_link_stays(self.links@, rid, k as int, (i + 1) as nat, self.links@.len()); }
                return Some(i);
            }
            i = i + 1;
        }
        None
    }

    /// How many links belong to report `rid`.
    fn links_of_report(&self, rid: u64) -> (r: u64)
        ensures
            r == count_links(self.links@, rid, self.links@.len()),
    {
        let mut i: usize = 0;
        let mut c: u64 = 0;
        while i < self.links.len()
            invariant
                i <= self.links@.len(),
                c == count_links(self.links@, rid, i as nat),
                c <= i,
            decreases self.links@.len() - i,
        {
            if self.links[i].report_id == rid {
                c = c + 1;
            }
            i = i + 1;
        }
        c
    }

    /// Whether a link (rid, key, k) would be ignored.
    fn link_is_taken(&self, rid: u64, key: &[u8], k: u64) -> (r: bool)
        ensures
            r == link_taken(self.links@, rid, key@, k as int),
    {
        let mut i: usize = 0;
        while i < self.links.len()
            invariant
                i <= self.links@.len(),
                forall|j: int| 0 <= j < i ==> !((#[trigger] self.links@[j]).report_id == rid && (
                    self.links@[j].unit_index == k || self.links@[j].unit_key@ == key@)),
            decreases self.links@.len() - i,
        {
            let l = &self.links[i];
            if l.report_id == rid && (l.unit_index == k || bytes_equal(l.unit_key.as_slice(), key)) {
                return true;
            }
            i = i + 1;
        }
        false
    }
}

proof fn lemma_first_report_stays(rs: Seq<ReportRow>, pid: u64, v: Seq<char>, c: Seq<char>, m: nat, n: nat)
    requires
        m <= n,
        first_report(rs, pid, v, c, m) is Some,
    ensures
        first_report(rs, pid, v, c, n) == first_report(rs, pid, v, c, m),
    decreases n - m,
{
    if m < n {
        lemma_first_report_stays(rs, pid, v, c, m, (n - 1) as nat);
    }
}

proof fn lemma_first_unit_stays(us: Seq<UnitRow>, key: Seq<u8>, m: nat, n: nat)
    requires
        m <= n,
        first_unit(us, key, m) is Some,
    ensures
        first_unit(us, key, n) == first_unit(us, key, m),
    decreases n - m,
{
    if m < n {
        lemma_first_unit_stays(us, key, m, (n - 1) as nat);
    }
}

proof fn lemma_first_link_stays(ls: Seq<LinkRow>, rid: u64, k: int, m: nat, n: nat)
    requires
        m <= n,
        first_link(ls, rid, k, m) is Some,
    ensures
        first_link(ls, rid, k, n) == first_link(ls, rid, k, m),
    decreases n - m,
{
    if m < n {
        lemma_first_link_stays(ls, rid, k, m, (n - 1) as nat);
    }
}

/// Keys and compressed payloads computed for the units of `enc`.
pub open spec fn prepared(enc: EncodedReport, keys: Seq<Vec<u8>>, datas: Seq<Vec<u8>>) -> bool {
    &&& keys.len() == enc.units@.len()
    &&& datas.len() == enc.units@.len()
    &&& forall|t: int| 0 <= t < keys.len() ==> (#[trigger] keys[t])@ == key_of(enc.units@[t])
    &&& forall|t: int| 0 <= t < datas.len() ==> decompressed((#[trigger] datas[t])@) == Ok::<Seq<u8>, CodecError>(enc.units@[t].data@)
}

impl Store {
    /// Unit rows are unique by key.
    pub open spec fn units_unique(units: Seq<UnitRow>) -> bool {
        forall|i: int, j: int|
            0 <= i < units.len() && 0 <= j < units.len() && i != j
                ==> (#[trigger] units[i]).key@ != (#[trigger] units[j]).key@
    }

    /// Links are unique by (report, position) and by (report, unit).
    pub open spec fn links_unique(links: Seq<LinkRow>) -> bool {
        forall|i: int, j: int|
            0 <= i < links.len() && 0 <= j < links.len() && i != j && (
            #[trigger] links[i]).report_id == (#[trigger] links[j]).report_id
                ==> links[i].unit_index != links[j].unit_index && links[i].unit_key@
                != links[j].unit_key@
    }

    fn add_units(&mut self, enc: &EncodedReport, keys: &Vec<Vec<u8>>, datas: &Vec<Vec<u8>>)
        requires
            prepared(*enc, keys@, datas@),
            Store::units_unique(old(self).units@),
        ensures
            final(self).projects == old(self).projects,
            final(self).reports == old(self).reports,
            final(self).links == old(self).links,
            final(self).next_report_id == old(self).next_report_id,
            Store::units_unique(final(self).units@),
            final(self).units@.len() >= old(self).units@.len(),
            final(self).units@.subrange(0, old(self).units@.len() as int) == old(self).units@,
            forall|j: int| old(self).units@.len() <= j < final(self).units@.len() ==> {
                &&& !has_unit(old(self).units@, (#[trigger] final(self).units@[j]).key@)
                &&& exists|i: int| 0 <= i < enc.units@.len() && (#[trigger] key_of(enc.units@[i])) == final(self).units@[j].key@
                    && decompressed(final(self).units@[j].data@) == Ok::<Seq<u8>, CodecError>(enc.units@[i].data@)
                    && final(self).units@[j].name == Some(enc.units@[i].name)
            },
            forall|i: int| 0 <= i < enc.units@.len() ==> has_unit(final(self).units@, #[trigger] key_of(enc.units@[i])),
            (forall|i: int| 0 <= i < enc.units@.len() ==> has_unit(old(self).units@, #[trigger] key_of(enc.units@[i])))
                ==> final(self).units@ == old(self).units@,
    {
        let ghost old_units = self.units@;
        let n = enc.units.len();
        let mut i: usize = 0;
        while i < n
            invariant
                n == enc.units@.len(),
                i <= n,
                prepared(*enc, keys@, datas@),
                self.projects == old(self).projects,
                self.reports == old(self).reports,
                self.links == old(self).links,
                self.next_report_id == old(self).next_report_id,
                old_units == old(self).units@,
                Store::units_unique(self.units@),
                self.units@.len() >= old_units.len(),
                self.units@.subrange(0, old_units.len() as int) == old_units,
                forall|j: int| old_units.len() <= j < self.units@.len() ==> {
                    &&& !has_unit(old_units, (#[trigger] self.units@[j]).key@)
                    &&& exists|t: int| 0 <= t < i && (#[trigger] key_of(enc.units@[t])) == self.units@[j].key@
                        && decompressed(self.units@[j].data@) == Ok::<Seq<u8>, CodecError>(enc.units@[t].data@)
                        && self.units@[j].name == Some(enc.units@[t].name)
                },
                forall|t: int| 0 <= t < i ==> has_unit(self.units@, #[trigger] key_of(enc.units@[t])),
                (forall|t: int| 0 <= t < n ==> has_unit(old_units, #[trigger] key_of(enc.units@[t])))
                    ==> self.units@ == old_units,
            decreases n - i,
        {
            let found = self.find_unit(keys[i].as_slice());
            if found.is_none() {
                assert(keys@[i as int]@ == key_of(enc.units@[i as int]));
                let ghost before = self.units@;
                let row = UnitRow {
                    key: vstd::slice::slice_to_vec(keys[i].as_slice()),
                    data: vstd::slice::slice_to_vec(datas[i].as_slice()),
                    name: Some(enc.units[i].name.clone()),
                };
                assert(decompressed(datas@[i as int]@) == Ok::<Seq<u8>, CodecError>(enc.units@[i as int].data@));
                self.units.push(row);
                proof {
                    assert(self.units@ == before.push(row));
                    assert(self.units@.subrange(0, old_units.len() as int) =~= before.subrange(0, old_units.len() as int));
                    assert forall|j: int| old_units.len() <= j < self.units@.len() implies {
                        &&& !has_unit(old_units, (#[trigger] self.units@[j]).key@)
                        &&& exists|t: int| 0 <= t < i + 1 && (#[trigger] key_of(enc.units@[t])) == self.units@[j].key@
                            && decompressed(self.units@[j].data@) == Ok::<Seq<u8>, CodecError>(enc.units@[t].data@)
                            && self.units@[j].name == Some(enc.units@[t].name)
                    } by {
                        if j == before.len() {
                            assert(key_of(enc.units@[i as int]) == self.units@[j].key@);
                            if has_unit(old_units, self.units@[j].key@) {
                                let w = choose|w: int| 0 <= w < old_units.len() && (#[trigger] old_units[w]).key@ == self.units@[j].key@;
                                assert(before[w] == old_units[w]);
                                assert(!has_unit(before, self.units@[j].key@) ==> false) by {
                                    assert(before[w].key@ == self.units@[j].key@);
                                }
                            }
                        } else {
                            assert(self.units@[j] == before[j]);
                        }
                    }
                    assert forall|t: int| 0 <= t < i + 1 implies has_unit(self.units@, #[trigger] key_of(enc.units@[t])) by {
                        if t == i {
                            assert(self.units@[before.len() as int].key@ == key_of(enc.units@[t]));
                        } else {
                            let w = choose|w: int| 0 <= w < before.len() && (#[trigger] before[w]).key@ == key_of(enc.units@[t]);
                            assert(self.units@[w] == before[w]);
                        }
                    }
                    assert forall|a: int, b: int|
                        0 <= a < self.units@.len() && 0 <= b < self.units@.len() && a != b
                            implies (#[trigger] self.units@[a]).key@ != (#[trigger] self.units@[b]).key@ by {
                        if a == before.len() {
                            assert(self.units@[b] == before[b]);
                        } else if b == before.len() {
                            assert(self.units@[a] == before[a]);
                        } else {
                            assert(self.units@[a] == before[a]);
                            assert(self.units@[b] == before[b]);
                        }
                    }
                    if forall|t: int| 0 <= t < n ==> has_unit(old_units, #[trigger] key_of(enc.units@[t])) {
                        assert(has_unit(old_units, key_of(enc.units@[i as int])));
                        assert(before == old_units);
                    }
                }
            } else {
                proof {
                    assert(has_unit(self.units@, key_of(enc.units@[i as int])));
                }
            }
            i = i + 1;
        }
    }
}

impl Store {
    fn add_links(&mut self, rid: u64, enc: &EncodedReport, keys: &Vec<Vec<u8>>, fresh: Ghost<bool>)
        requires
            keys@.len() == enc.units@.len(),
            forall|t: int| 0 <= t < keys@.len() ==> (#[trigger] keys@[t])@ == key_of(enc.units@[t]),
            Store::links_unique(old(self).links@),
            forall|j: int| 0 <= j < old(self).links@.len() ==> (#[trigger] old(self).links@[j]).report_id < old(self).next_report_id,
            rid < old(self).next_report_id,
            fresh@ ==> forall|j: int| 0 <= j < old(self).links@.len() ==> (#[trigger] old(self).links@[j]).report_id != rid,
        ensures
            final(self).projects == old(self).projects,
            final(self).reports == old(self).reports,
            final(self).units == old(self).units,
            final(self).next_report_id == old(self).next_report_id,
            Store::links_unique(final(self).links@),
            forall|j: int| 0 <= j < final(self).links@.len() ==> (#[trigger] final(self).links@[j]).report_id < final(self).next_report_id,
            final(self).links@.len() >= old(self).links@.len(),
            final(self).links@.subrange(0, old(self).links@.len() as int) == old(self).links@,
            forall|i: int| 0 <= i < enc.units@.len() ==> link_taken(final(self).links@, rid, #[trigger] key_of(enc.units@[i]), i),
            (forall|i: int| 0 <= i < enc.units@.len() ==> link_taken(old(self).links@, rid, #[trigger] key_of(enc.units@[i]), i))
                ==> final(self).links@ == old(self).links@,
            fresh@ ==> forall|i: int| 0 <= i < enc.units@.len() ==> has_link_to(final(self).links@, rid, #[trigger] key_of(enc.units@[i])),
            (fresh@ && distinct_keys(enc.units@)) ==> {
                &&& final(self).links@.len() == old(self).links@.len() + enc.units@.len()
                &&& forall|i: int| 0 <= i < enc.units@.len() ==> {
                    &&& (#[trigger] final(self).links@[old(self).links@.len() + i]).report_id == rid
                    &&& final(self).links@[old(self).links@.len() + i].unit_key@ == key_of(enc.units@[i])
                    &&& final(self).links@[old(self).links@.len() + i].unit_index == i
                }
            },
    {
        let ghost old_links = self.links@;
        let n = keys.len();
        let mut i: usize = 0;
        while i < n
            invariant
                n == enc.units@.len(),
                n == keys@.len(),
                i <= n,
                forall|t: int| 0 <= t < keys@.len() ==> (#[trigger] keys@[t])@ == key_of(enc.units@[t]),
                self.projects == old(self).projects,
                self.reports == old(self).reports,
                self.units == old(self).units,
                self.next_report_id == old(self).next_report_id,
                old_links == old(self).links@,
                rid < self.next_report_id,
                Store::links_unique(self.links@),
                forall|j: int| 0 <= j < self.links@.len() ==> (#[trigger] self.links@[j]).report_id < self.next_report_id,
                self.links@.len() >= old_links.len(),
                self.links@.subrange(0, old_links.len() as int) == old_links,
                forall|t: int| 0 <= t < i ==> link_taken(self.links@, rid, #[trigger] key_of(enc.units@[t]), t),
                (forall|t: int| 0 <= t < n ==> link_taken(old_links, rid, #[trigger] key_of(enc.units@[t]), t))
                    ==> self.links@ == old_links,
                fresh@ ==> forall|j: int| 0 <= j < old_links.len() ==> (#[trigger] old_links[j]).report_id != rid,
                fresh@ ==> forall|j: int| old_links.len() <= j < self.links@.len() ==> (#[trigger] self.links@[j]).report_id == rid && self.links@[j].unit_index < i,
                fresh@ ==> forall|t: int| 0 <= t < i ==> has_link_to(self.links@, rid, #[trigger] key_of(enc.units@[t])),
                (fresh@ && distinct_keys(enc.units@)) ==> {
                    &&& self.links@.len() == old_links.len() + i
                    &&& forall|t: int| 0 <= t < i ==> {
                        &&& (#[trigger] self.links@[old_links.len() + t]).report_id == rid
                        &&& self.links@[old_links.len() + t].unit_key@ == key_of(enc.units@[t])
                        &&& self.links@[old_links.len() + t].unit_index == t
                    }
                },
            decreases n - i,
        {
            let taken = self.link_is_taken(rid, keys[i].as_slice(), i as u64);
            let ghost before = self.links@;
            if !taken {
                let link = LinkRow { report_id: rid, unit_key: vstd::slice::slice_to_vec(keys[i].as_slice()), unit_index: i as u64 };
                self.links.push(link);
                proof {
                    assert(self.links@ == before.push(link));
                    assert(self.links@.subrange(0, old_links.len() as int) =~= before.subrange(0, old_links.len() as int));
                    assert(link_taken(self.links@, rid, key_of(enc.units@[i as int]), i as int)) by {
                        assert(self.links@[before.len() as int] == link);
                    }
                    assert forall|t: int| 0 <= t < i implies link_taken(self.links@, rid, #[trigger] key_of(enc.units@[t]), t) by {
                        assert(link_taken(before, rid, key_of(enc.units@[t]), t));
                        let w = choose|w: int| 0 <= w < before.len() && (#[trigger] before[w]).report_id == rid && (before[w].unit_index == t || before[w].unit_key@ == key_of(enc.units@[t]));
                        assert(self.links@[w] == before[w]);
                    }
                    assert forall|a: int, b: int|
                        0 <= a < self.links@.len() && 0 <= b < self.links@.len() && a != b && (
                        #[trigger] self.links@[a]).report_id == (#[trigger] self.links@[b]).report_id
                            implies self.links@[a].unit_index != self.links@[b].unit_index && self.links@[a].unit_key@
                            != self.links@[b].unit_key@ by {
                        if a == before.len() {
                            assert(self.links@[b] == before[b]);
                        } else if b == before.len() {
                            assert(self.links@[a] == before[a]);
                        } else {
                            assert(self.links@[a] == before[a]);
                            assert(self.links@[b] == before[b]);
                        }
                    }
                    if forall|t: int| 0 <= t < n ==> link_taken(old_links, rid, #[trigger] key_of(enc.units@[t]), t) {
                        assert(link_taken(old_links, rid, key_of(enc.units@[i as int]), i as int));
                        let w = choose|w: int| 0 <= w < old_links.len() && (#[trigger] old_links[w]).report_id == rid && (old_links[w].unit_index == i || old_links[w].unit_key@ == key_of(enc.units@[i as int]));
                        assert(before[w] == old_links[w]);
                        assert(false);
                    }
                    if fresh@ {
                        assert forall|t: int| 0 <= t < i + 1 implies has_link_to(self.links@, rid, #[trigger] key_of(enc.units@[t])) by {
                            if t == i {
                                assert(self.links@[before.len() as int] == link);
                            } else {
                                assert(has_link_to(before, rid, key_of(enc.units@[t])));
                                let w = choose|w: int| 0 <= w < before.len() && (#[trigger] before[w]).report_id == rid && before[w].unit_key@ == key_of(enc.units@[t]);
                                assert(self.links@[w] == before[w]);
                            }
                        }
                    }
                    if fresh@ && distinct_keys(enc.units@) {
                        assert forall|t: int| 0 <= t < i + 1 implies {
                            &&& (#[trigger] self.links@[old_links.len() + t]).report_id == rid
                            &&& self.links@[old_links.len() + t].unit_key@ == key_of(enc.units@[t])
                            &&& self.links@[old_links.len() + t].unit_index == t
                        } by {
                            if t < i {
                                assert(self.links@[old_links.len() + t] == before[old_links.len() + t]);
                            }
                        }
                    }
                }
            } else {
                proof {
                    if fresh@ {
                        let w = choose|w: int| 0 <= w < before.len() && (#[trigger] before[w]).report_id == rid && (before[w].unit_index == i || before[w].unit_key@ == key_of(enc.units@[i as int]));
                        assert(w >= old_links.len()) by {
                            if w < old_links.len() {
                                assert(before[w] == old_links[w]);
                            }
                        }
                        assert(before[w].unit_index < i);
                        assert(has_link_to(before, rid, key_of(enc.units@[i as int])));
                        if distinct_keys(enc.units@) {
                            let t = (before[w].unit_index) as int;
                            assert(before[w] == before[old_links.len() + t]) by {
                                if before[w] != before[old_links.len() + t] {
                                    assert(w != old_links.len() + t);
                                }
                            }
                            assert(key_of(enc.units@[t]) != key_of(enc.units@[i as int]));
                            assert(false);
                        }
                    }
                }
            }
            i = i + 1;
        }
    }
}

fn copy_text(o: &Option<String>) -> (r: Option<String>)
    ensures
        r == *o,
{
    match o {
        Some(s) => Some(s.clone()),
        None => None,
    }
}

/// An exact copy of a project row.
pub fn copy_project(p: &Project) -> (r: Project)
    ensures
        r == *p,
{
    Project {
        id: p.id,
        owner: p.owner.clone(),
        repo: p.repo.clone(),
        name: copy_text(&p.name),
        short_name: copy_text(&p.short_name),
        default_version: copy_text(&p.default_version),
        platform: copy_text(&p.platform),
    }
}

/// Content keys and compressed payloads for every unit of `enc`.
fn prepare_units(enc: &EncodedReport) -> (r: (Vec<Vec<u8>>, Vec<Vec<u8>>))
    requires
        fits_in_memory(*enc),
    ensures
        prepared(*enc, r.0@, r.1@),
{
    let n = enc.units.len();
    let mut keys: Vec<Vec<u8>> = Vec::new();
    let mut datas: Vec<Vec<u8>> = Vec::new();
    let mut i: usize = 0;
    while i < n
        invariant
            n == enc.units@.len(),
            fits_in_memory(*enc),
            i <= n,
            keys@.len() == i,
            datas@.len() == i,
            forall|t: int| 0 <= t < i ==> (#[trigger] keys@[t])@ == key_of(enc.units@[t]),
            forall|t: int| 0 <= t < i ==> decompressed((#[trigger] datas@[t])@) == Ok::<Seq<u8>, CodecError>(enc.units@[t].data@),
        decreases n - i,
    {
        let unit = &enc.units[i];
        let key = content_hash(unit.data.as_slice());
        assert(unit.data@.len() <= MAX_CONTENT);
        let data = compress(unit.data.as_slice());
        keys.push(key);
        datas.push(data);
        i = i + 1;
    }
    (keys, datas)
}

impl Store {
    /// Stores a report in one step: the project row if its id is new, the
    /// report row (or, if one exists for the same project, version and
    /// commit, only its new timestamp), every unit whose key is new, and the
    /// link for each position that is not taken yet. It fails only where a
    /// new report id is needed and none is left; then nothing changes.
    pub fn insert_encoded(&mut self, project: &Project, commit: &Commit, version: &str, enc: &EncodedReport) -> (r: Result<u64, StoreError>)
        requires
            old(self).wf(),
            fits_in_memory(*enc),
        ensures
            final(self).wf(),
            r matches Ok(rid) ==> Store::inserted(*old(self), *final(self), *project, *commit, version@, *enc, rid),
            r is Err <==> ids_exhausted(*old(self), project.id, version@, commit.sha@),
            r is Err ==> *final(self) == *old(self) && r == Err::<u64, StoreError>(StoreError::IdsExhausted),
    {
        let slot = self.find_report(project.id, version, commit.sha.as_str());
        if slot.is_none() && self.next_report_id == u64::MAX {
            return Err(StoreError::IdsExhausted);
        }
        let header = compress(enc.header.as_slice());
        let (keys, datas) = prepare_units(enc);
        let ghost s0 = *self;
        if !self.has_project_with_id(project.id) {
            self.projects.push(copy_project(project));
            proof {
                assert forall|a: int, b: int|
                    0 <= a < self.projects@.len() && 0 <= b < self.projects@.len() && a != b
                        implies (#[trigger] self.projects@[a]).id != (#[trigger] self.projects@[b]).id by {
                    if a < s0.projects@.len() && b < s0.projects@.len() {
                        assert(self.projects@[a] == s0.projects@[a] && self.projects@[b] == s0.projects@[b]);
                    } else if a < s0.projects@.len() {
                        assert(self.projects@[a] == s0.projects@[a]);
                    } else {
                        assert(self.projects@[b] == s0.projects@[b]);
                    }
                }
            }
        }
        let rid = match slot {
            Some(i) => {
                let mut row = self.reports.remove(i);
                row.timestamp = commit.timestamp;
                let id = row.id;
                self.reports.insert(i, row);
                proof {
                    assert forall|a: int, b: int|
                        0 <= a < self.reports@.len() && 0 <= b < self.reports@.len() && a != b
                            implies (#[trigger] self.reports@[a]).id != (#[trigger] self.reports@[b]).id by {
                        assert(self.reports@[a].id == s0.reports@[a].id);
                        assert(self.reports@[b].id == s0.reports@[b].id);
                    }
                    assert forall|a: int| 0 <= a < self.reports@.len() implies (#[trigger] self.reports@[a]).id < self.next_report_id by {
                        assert(self.reports@[a].id == s0.reports@[a].id);
                    }
                    assert forall|a: int, b: int|
                        0 <= a < self.reports@.len() && 0 <= b < self.reports@.len() && a != b
                            implies !same_report_key(#[trigger] self.reports@[a], #[trigger] self.reports@[b]) by {
                        assert(same_report_key(self.reports@[a], self.reports@[b]) == same_report_key(s0.reports@[a], s0.reports@[b]));
                    }
                }
                id
            },
            None => {
                let id = self.next_report_id;
                let row = ReportRow {
                    id,
                    project_id: project.id,
                    version: version.to_owned(),
                    git_commit: commit.sha.clone(),
                    timestamp: commit.timestamp,
                    data: header,
                };
                self.reports.push(row);
                self.next_report_id = id + 1;
                proof {
                    assert(self.reports@.subrange(0, s0.reports@.len() as int) =~= s0.reports@);
                    assert forall|a: int, b: int|
                        0 <= a < self.reports@.len() && 0 <= b < self.reports@.len() && a != b
                            implies (#[trigger] self.reports@[a]).id != (#[trigger] self.reports@[b]).id by {
                        if a < s0.reports@.len() {
                            assert(self.reports@[a] == s0.reports@[a]);
                        }
                        if b < s0.reports@.len() {
                            assert(self.reports@[b] == s0.reports@[b]);
                        }
                    }
                    assert forall|a: int| 0 <= a < self.reports@.len() implies (#[trigger] self.reports@[a]).id < self.next_report_id by {
                        if a < s0.reports@.len() {
                            assert(self.reports@[a] == s0.reports@[a]);
                        }
                    }
                    lemma_first_report_none(s0.reports@, project.id, version@, commit.sha@, s0.reports@.len());
                    assert forall|a: int, b: int|
                        0 <= a < self.reports@.len() && 0 <= b < self.reports@.len() && a != b
                            implies !same_report_key(#[trigger] self.reports@[a], #[trigger] self.reports@[b]) by {
                        let last = s0.reports@.len() as int;
                        if a < last && b < last {
                            assert(self.reports@[a] == s0.reports@[a] && self.reports@[b] == s0.reports@[b]);
                        } else if a < last {
                            assert(self.reports@[a] == s0.reports@[a]);
                            assert(!report_matches(s0.reports@[a], project.id, version@, commit.sha@));
                        } else {
                            assert(self.reports@[b] == s0.reports@[b]);
                            assert(!report_matches(s0.reports@[b], project.id, version@, commit.sha@));
                        }
                    }
                }
                id
            },
        };
        let ghost s1 = *self;
        self.add_units(enc, &keys, &datas);
        let ghost s2 = *self;
        proof {
            if slot is None {
                assert forall|j: int| 0 <= j < s2.links@.len() implies (#[trigger] s2.links@[j]).report_id != rid by {
                    assert(s2.links@[j] == s0.links@[j]);
                }
            }
        }
        self.add_links(rid, enc, &keys, Ghost(slot is None));
        Ok(rid)
    }
}

/// The bytes of the unit at position `k` of report `rid`, checked against
/// the key that its link names.
pub open spec fn unit_at(s: Store, rid: u64, k: int) -> Result<Seq<u8>, StoreError> {
    match first_link(s.links@, rid, k, s.links@.len()) {
        None => Err(StoreError::IndexMismatch { index: k as u64 }),
        Some(j) => match first_unit(s.units@, s.links@[j].unit_key@, s.units@.len()) {
            None => Err(StoreError::MissingUnit { index: k as u64 }),
            Some(u) => match decompressed(s.units@[u].data@) {
                Err(e) => Err(StoreError::Codec(e)),
                Ok(c) => if blake3_digest(c) == s.links@[j].unit_key@ {
                    Ok(c)
                } else {
                    Err(StoreError::HashMismatch { index: k as u64 })
                },
            },
        },
    }
}

/// The first `k` units of report `rid`, in position order, or the first
/// failure among them.
pub open spec fn units_upto(s: Store, rid: u64, k: nat) -> Result<Seq<Seq<u8>>, StoreError>
    decreases k,
{
    if k == 0 {
        Ok(Seq::empty())
    } else {
        match units_upto(s, rid, (k - 1) as nat) {
            Err(e) => Err(e),
            Ok(v) => match unit_at(s, rid, k - 1) {
                Err(e) => Err(e),
                Ok(c) => Ok(v.push(c)),
            },
        }
    }
}

/// All units of report `rid` in position order: as many as it has links.
pub open spec fn assembled(s: Store, rid: u64) -> Result<Seq<Seq<u8>>, StoreError> {
    units_upto(s, rid, count_links(s.links@, rid, s.links@.len()))
}

impl Store {
    /// The units of report `rid`, decompressed and checked against their
    /// keys, in the order of their positions.
    pub fn assemble_units(&self, rid: u64) -> (r: Result<Vec<Vec<u8>>, StoreError>)
        ensures
            match (r, assembled(*self, rid)) {
                (Ok(v), Ok(w)) => v@.len() == w.len() && forall|i: int| 0 <= i < w.len() ==> (#[trigger] v@[i])@ == w[i],
                (Err(e), Err(f)) => e == f,
                _ => false,
            },
    {
        let m = self.links_of_report(rid);
        let mut out: Vec<Vec<u8>> = Vec::new();
        let mut k: u64 = 0;
        while k < m
            invariant
                m == count_links(self.links@, rid, self.links@.len()),
                k <= m,
                units_upto(*self, rid, k as nat) matches Ok(w) && out@.len() == w.len()
                    && forall|i: int| 0 <= i < w.len() ==> (#[trigger] out@[i])@ == w[i],
            decreases m - k,
        {
            let step = self.unit_bytes(rid, k);
            match step {
                Err(e) => {
                    proof { lemma_units_upto_err(*self, rid, (k + 1) as nat, m as nat); }
                    return Err(e);
                },
                Ok(c) => {
                    let ghost w = units_upto(*self, rid, k as nat)->Ok_0;
                    out.push(c);
                    proof {
                        assert(units_upto(*self, rid, (k + 1) as nat) == Ok::<Seq<Seq<u8>>, StoreError>(w.push(unit_at(*self, rid, k as int)->Ok_0)));
                    }
                },
            }
            k = k + 1;
        }
        Ok(out)
    }

    /// The checked bytes of the unit at position `k` of report `rid`.
    fn unit_bytes(&self, rid: u64, k: u64) -> (r: Result<Vec<u8>, StoreError>)
        ensures
            match (r, unit_at(*self, rid, k as int)) {
                (Ok(v), Ok(w)) => v@ == w,
                (Err(e), Err(f)) => e == f,
                _ => false,
            },
    {
        let j = match self.find_link(rid, k) {
            None => return Err(StoreError::IndexMismatch { index: k }),
            Some(j) => j,
        };
        let key = self.links[j].unit_key.as_slice();
        let u = match self.find_unit(key) {
            None => return Err(StoreError::MissingUnit { index: k }),
            Some(u) => u,
        };
        let data = match decompress(self.units[u].data.as_slice()) {
            Err(e) => return Err(StoreError::Codec(e)),
            Ok(d) => d,
        };
        let hash = content_hash(data.as_slice());
        if bytes_equal(hash.as_slice(), key) {
            Ok(data)
        } else {
            Err(StoreError::HashMismatch { index: k })
        }
    }
}

proof fn lemma_units_upto_err(s: Store, rid: u64, k: nat, m: nat)
    requires
        k <= m,
        units_upto(s, rid, k) is Err,
    ensures
        units_upto(s, rid, m) == units_upto(s, rid, k),
    decreases m - k,
{
    if k < m {
        lemma_units_upto_err(s, rid, k, (m - 1) as nat);
    }
}

proof fn lemma_first_report_agree(a: Seq<ReportRow>, b: Seq<ReportRow>, pid: u64, v: Seq<char>, c: Seq<char>, n: nat)
    requires
        n <= a.len(),
        n <= b.len(),
        forall|j: int| 0 <= j < n ==> report_matches(#[trigger] a[j], pid, v, c) == report_matches(b[j], pid, v, c),
    ensures
        first_report(a, pid, v, c, n) == first_report(b, pid, v, c, n),
    decreases n,
{
    if n > 0 {
        lemma_first_report_agree(a, b, pid, v, c, (n - 1) as nat);
        assert(report_matches(a[n - 1], pid, v, c) == report_matches(b[n - 1], pid, v, c));
    }
}

proof fn lemma_first_report_none(a: Seq<ReportRow>, pid: u64, v: Seq<char>, c: Seq<char>, n: nat)
    requires
        n <= a.len(),
        first_report(a, pid, v, c, n) is None,
    ensures
        forall|j: int| 0 <= j < n ==> !report_matches(#[trigger] a[j], pid, v, c),
    decreases n,
{
    if n > 0 {
        lemma_first_report_none(a, pid, v, c, (n - 1) as nat);
    }
}

proof fn lemma_first_report_found(a: Seq<ReportRow>, pid: u64, v: Seq<char>, c: Seq<char>, n: nat)
    requires
        n <= a.len(),
    ensures
        first_report(a, pid, v, c, n) matches Some(j) ==> 0 <= j < n && report_matches(a[j], pid, v, c),
    decreases n,
{
    if n > 0 {
        lemma_first_report_found(a, pid, v, c, (n - 1) as nat);
    }
}

proof fn lemma_first_unit_found(us: Seq<UnitRow>, key: Seq<u8>, n: nat)
    requires
        n <= us.len(),
    ensures
        first_unit(us, key, n) matches Some(j) ==> 0 <= j < n && us[j].key@ == key,
        (exists|i: int| 0 <= i < n && (#[trigger] us[i]).key@ == key) ==> first_unit(us, key, n) is Some,
    decreases n,
{
    if n > 0 {
        lemma_first_unit_found(us, key, (n - 1) as nat);
        if exists|i: int| 0 <= i < n && (#[trigger] us[i]).key@ == key {
            let i = choose|i: int| 0 <= i < n && (#[trigger] us[i]).key@ == key;
            if i < n - 1 {
                assert(first_unit(us, key, (n - 1) as nat) is Some);
            }
        }
    }
}

proof fn lemma_first_link_none(ls: Seq<LinkRow>, rid: u64, k: int, n: nat)
    requires
        n <= ls.len(),
        forall|j: int| 0 <= j < n ==> !((#[trigger] ls[j]).report_id == rid && ls[j].unit_index == k),
    ensures
        first_link(ls, rid, k, n) is None,
    decreases n,
{
    if n > 0 {
        lemma_first_link_none(ls, rid, k, (n - 1) as nat);
    }
}

proof fn lemma_count_links_new(ls: Seq<LinkRow>, rid: u64, base: nat, t: nat)
    requires
        base + t <= ls.len(),
        forall|j: int| 0 <= j < base ==> (#[trigger] ls[j]).report_id != rid,
        forall|j: int| base <= j < base + t ==> (#[trigger] ls[j]).report_id == rid,
    ensures
        count_links(ls, rid, base + t) == t,
    decreases base + t,
{
    if t > 0 {
        lemma_count_links_new(ls, rid, base, (t - 1) as nat);
    } else if base > 0 {
        lemma_count_links_new(ls, rid, (base - 1) as nat, 0);
    }
}

/// After a report is inserted, its report row is the first that matches
/// its project, version and commit; a second insertion of it therefore
/// never needs a new report id.
pub proof fn lemma_inserted_row_found(
    s0: Store,
    s1: Store,
    project: Project,
    commit: Commit,
    version: Seq<char>,
    enc: EncodedReport,
    r1: u64,
)
    requires
        s0.wf(),
        Store::inserted(s0, s1, project, commit, version, enc, r1),
    ensures
        first_report(s1.reports@, project.id, version, commit.sha@, s1.reports@.len()) matches Some(i)
            && 0 <= i < s1.reports@.len() && s1.reports@[i].id == r1,
        !ids_exhausted(s1, project.id, version, commit.sha@),
        has_project_id(s1.projects@, project.id),
{
    let pid = project.id;
    let c = commit.sha@;
    let n0 = s0.reports@.len();
    let slot0 = first_report(s0.reports@, pid, version, c, n0);
    assert(has_project_id(s1.projects@, pid)) by {
        if !has_project_id(s0.projects@, pid) {
            assert(s1.projects@[s0.projects@.len() as int] == project);
        }
    }
    lemma_first_report_found(s0.reports@, pid, version, c, n0);
    let i1: int = match slot0 {
        Some(i) => {
            assert forall|j: int| 0 <= j < n0 implies report_matches(#[trigger] s1.reports@[j], pid, version, c)
                == report_matches(s0.reports@[j], pid, version, c) by {
                if j != i {
                    assert(s1.reports@[j] == s0.reports@[j]);
                }
            }
            lemma_first_report_agree(s1.reports@, s0.reports@, pid, version, c, n0);
            i
        },
        None => {
            assert forall|j: int| 0 <= j < n0 implies report_matches(#[trigger] s1.reports@[j], pid, version, c)
                == report_matches(s0.reports@[j], pid, version, c) by {
                assert(s1.reports@.subrange(0, n0 as int)[j] == s1.reports@[j]);
            }
            lemma_first_report_agree(s1.reports@, s0.reports@, pid, version, c, n0);
            assert(folded(version) == folded(version));
            assert(report_matches(s1.reports@[n0 as int], pid, version, c));
            n0 as int
        },
    };
    assert(first_report(s1.reports@, pid, version, c, s1.reports@.len()) == Some(i1));
    assert(s1.reports@[i1].id == r1);
}

/// After a report is inserted, exactly one report row is for its project,
/// version and commit (the latter two up to case).
pub proof fn lemma_one_row_per_report(
    s0: Store,
    s1: Store,
    project: Project,
    commit: Commit,
    version: Seq<char>,
    enc: EncodedReport,
    r1: u64,
)
    requires
        s0.wf(),
        s1.wf(),
        Store::inserted(s0, s1, project, commit, version, enc, r1),
    ensures
        exists|i: int| 0 <= i < s1.reports@.len() && #[trigger] report_matches(s1.reports@[i], project.id, version, commit.sha@)
            && s1.reports@[i].id == r1
            && forall|j: int| 0 <= j < s1.reports@.len() && j != i ==> !report_matches(#[trigger] s1.reports@[j], project.id, version, commit.sha@),
{
    lemma_inserted_row_found(s0, s1, project, commit, version, enc, r1);
    let n = s1.reports@.len();
    lemma_first_report_found(s1.reports@, project.id, version, commit.sha@, n);
    let i = first_report(s1.reports@, project.id, version, commit.sha@, n)->Some_0;
    assert forall|j: int| 0 <= j < n && j != i implies !report_matches(#[trigger] s1.reports@[j], project.id, version, commit.sha@) by {
        if report_matches(s1.reports@[j], project.id, version, commit.sha@) {
            assert(same_report_key(s1.reports@[i], s1.reports@[j]));
        }
    }
}

/// Inserting a report a second time, with any timestamp,
/// changes nothing but the timestamp of its report row: there is still one
/// report row for it, and no unit row or link is added.
pub proof fn lemma_insert_idempotent(
    s0: Store,
    s1: Store,
    s2: Store,
    project: Project,
    commit: Commit,
    again: Commit,
    version: Seq<char>,
    enc: EncodedReport,
    r1: u64,
    r2: u64,
)
    requires
        s0.wf(),
        Store::inserted(s0, s1, project, commit, version, enc, r1),
        Store::inserted(s1, s2, project, again, version, enc, r2),
        again.sha@ == commit.sha@,
    ensures
        r2 == r1,
        s2.projects@ == s1.projects@,
        s2.units@ == s1.units@,
        s2.links@ == s1.links@,
        s2.next_report_id == s1.next_report_id,
        s2.reports@.len() == s1.reports@.len(),
        forall|i: int| 0 <= i < s2.reports@.len() ==> same_but_time(#[trigger] s2.reports@[i], s1.reports@[i]),
        forall|i: int| 0 <= i < s2.reports@.len() && s2.reports@[i].id != r1 ==> #[trigger] s2.reports@[i] == s1.reports@[i],
{
    let pid = project.id;
    let c = commit.sha@;
    lemma_inserted_row_found(s0, s1, project, commit, version, enc, r1);
    lemma_first_report_found(s1.reports@, pid, version, c, s1.reports@.len());
    let i1 = first_report(s1.reports@, pid, version, c, s1.reports@.len())->Some_0;
    assert(again.sha@ == c);
    assert forall|i: int| 0 <= i < enc.units@.len() implies has_unit(s1.units@, #[trigger] key_of(enc.units@[i])) by {}
    assert forall|i: int| 0 <= i < enc.units@.len() implies link_taken(s1.links@, r1, #[trigger] key_of(enc.units@[i]), i) by {}
    assert forall|i: int| 0 <= i < s2.reports@.len() && s2.reports@[i].id != r1 implies #[trigger] s2.reports@[i] == s1.reports@[i] by {
        if i == i1 {
            assert(s2.reports@[i].id == s1.reports@[i1].id);
        }
    }
}

/// Two new reports that share a unit with the same bytes leave exactly one
/// unit row for it, linked from both reports.
pub proof fn lemma_shared_unit_stored_once(
    s0: Store,
    s1: Store,
    s2: Store,
    pa: Project,
    ca: Commit,
    va: Seq<char>,
    ea: EncodedReport,
    ra: u64,
    pb: Project,
    cb: Commit,
    vb: Seq<char>,
    eb: EncodedReport,
    rb: u64,
    ia: int,
    ib: int,
)
    requires
        s0.wf(),
        s1.wf(),
        s2.wf(),
        Store::inserted(s0, s1, pa, ca, va, ea, ra),
        Store::inserted(s1, s2, pb, cb, vb, eb, rb),
        first_report(s0.reports@, pa.id, va, ca.sha@, s0.reports@.len()) is None,
        first_report(s1.reports@, pb.id, vb, cb.sha@, s1.reports@.len()) is None,
        0 <= ia < ea.units@.len(),
        0 <= ib < eb.units@.len(),
        ea.units@[ia].data@ == eb.units@[ib].data@,
    ensures
        ra != rb,
        exists|j: int| 0 <= j < s2.units@.len() && (#[trigger] s2.units@[j]).key@ == key_of(ea.units@[ia])
            && forall|l: int| 0 <= l < s2.units@.len() && l != j ==> (#[trigger] s2.units@[l]).key@ != key_of(ea.units@[ia]),
        has_link_to(s2.links@, ra, key_of(ea.units@[ia])),
        has_link_to(s2.links@, rb, key_of(ea.units@[ia])),
{
    let k = key_of(ea.units@[ia]);
    assert(key_of(eb.units@[ib]) == k);
    assert(has_unit(s2.units@, k));
    let j = choose|j: int| 0 <= j < s2.units@.len() && (#[trigger] s2.units@[j]).key@ == k;
    assert(has_link_to(s1.links@, ra, k));
    let w = choose|w: int| 0 <= w < s1.links@.len() && (#[trigger] s1.links@[w]).report_id == ra && s1.links@[w].unit_key@ == k;
    assert(s2.links@.subrange(0, s1.links@.len() as int)[w] == s2.links@[w]);
    assert(s2.links@[w] == s1.links@[w]);
}

/// Reading back a new report gives its units in the order it listed them,
/// wherever their rows stand in the unit table. This holds where the report
/// lists no unit twice, and no stored unit row with one of its keys holds
/// other bytes.
pub proof fn lemma_units_in_order(
    s0: Store,
    s1: Store,
    project: Project,
    commit: Commit,
    version: Seq<char>,
    enc: EncodedReport,
    rid: u64,
)
    requires
        s0.wf(),
        s1.wf(),
        Store::inserted(s0, s1, project, commit, version, enc, rid),
        first_report(s0.reports@, project.id, version, commit.sha@, s0.reports@.len()) is None,
        distinct_keys(enc.units@),
        forall|j: int, i: int|
            0 <= j < s0.units@.len() && 0 <= i < enc.units@.len() && (#[trigger] s0.units@[j]).key@ == #[trigger] key_of(enc.units@[i])
                ==> decompressed(s0.units@[j].data@) == Ok::<Seq<u8>, CodecError>(enc.units@[i].data@),
    ensures
        assembled(s1, rid) matches Ok(w) && w.len() == enc.units@.len()
            && forall|i: int| 0 <= i < w.len() ==> w[i] == (#[trigger] enc.units@[i]).data@,
{
    let n = enc.units@.len();
    let base = s0.links@.len();
    let ls = s1.links@;
    assert forall|j: int| 0 <= j < base implies (#[trigger] ls[j]).report_id != rid by {
        assert(ls.subrange(0, base as int)[j] == ls[j]);
    }
    assert forall|j: int| base <= j < base + n implies (#[trigger] ls[j]).report_id == rid by {
        assert(ls[base + (j - base)].report_id == rid);
    }
    lemma_count_links_new(ls, rid, base, n);
    assert forall|i: int| 0 <= i < n implies unit_at(s1, rid, i) == Ok::<Seq<u8>, StoreError>(#[trigger] enc.units@[i].data@) by {
        assert forall|j: int| 0 <= j < base + i implies !((#[trigger] ls[j]).report_id == rid && ls[j].unit_index == i) by {
            if j >= base {
                assert(ls[base + (j - base)].unit_index == j - base);
            }
        }
        lemma_first_link_none(ls, rid, i, (base + i) as nat);
        assert(ls[base + i].unit_index == i);
        assert(first_link(ls, rid, i, (base + i + 1) as nat) == Some(base + i));
        lemma_first_link_stays(ls, rid, i, (base + i + 1) as nat, ls.len());
        let key = key_of(enc.units@[i]);
        assert(ls[base + i].unit_key@ == key);
        assert(has_unit(s1.units@, key));
        lemma_first_unit_found(s1.units@, key, s1.units@.len());
        let u = first_unit(s1.units@, key, s1.units@.len())->Some_0;
        if u < s0.units@.len() {
            assert(s1.units@.subrange(0, s0.units@.len() as int)[u] == s1.units@[u]);
            assert(s1.units@[u] == s0.units@[u]);
        } else {
            let i2 = choose|i2: int| 0 <= i2 < n && (#[trigger] key_of(enc.units@[i2])) == s1.units@[u].key@
                && decompressed(s1.units@[u].data@) == Ok::<Seq<u8>, CodecError>(enc.units@[i2].data@)
                && s1.units@[u].name == Some(enc.units@[i2].name);
            if i2 != i {
                assert(key_of(enc.units@[i2]) != key_of(enc.units@[i]));
            }
        }
    }
    lemma_units_upto_prefix(s1, rid, enc, n);
}

proof fn lemma_units_upto_prefix(s: Store, rid: u64, enc: EncodedReport, k: nat)
    requires
        k <= enc.units@.len(),
        forall|i: int| 0 <= i < enc.units@.len() ==> unit_at(s, rid, i) == Ok::<Seq<u8>, StoreError>(#[trigger] enc.units@[i].data@),
    ensures
        units_upto(s, rid, k) matches Ok(w) && w.len() == k
            && forall|i: int| 0 <= i < k ==> w[i] == (#[trigger] enc.units@[i]).data@,
    decreases k,
{
    if k > 0 {
        lemma_units_upto_prefix(s, rid, enc, (k - 1) as nat);
        let w = units_upto(s, rid, (k - 1) as nat)->Ok_0;
        assert(unit_at(s, rid, k - 1) == Ok::<Seq<u8>, StoreError>(enc.units@[k - 1].data@));
        let w2 = w.push(enc.units@[k - 1].data@);
        assert forall|i: int| 0 <= i < k implies w2[i] == (#[trigger] enc.units@[i]).data@ by {
            if i < k - 1 {
                assert(w2[i] == w[i]);
            }
        }
    }
}

/// A unit whose stored bytes no longer hash to the key its link names makes
/// reading back its report fail.
pub proof fn lemma_corruption_detected(s: Store, rid: u64, k: int, c: Seq<u8>)
    requires
        0 <= k < count_links(s.links@, rid, s.links@.len()),
        first_link(s.links@, rid, k, s.links@.len()) matches Some(j)
            && first_unit(s.units@, s.links@[j].unit_key@, s.units@.len()) matches Some(u)
            && decompressed(s.units@[u].data@) == Ok::<Seq<u8>, CodecError>(c)
            && blake3_digest(c) != s.links@[j].unit_key@,
    ensures
        assembled(s, rid) is Err,
{
    assert(unit_at(s, rid, k) is Err);
    assert(units_upto(s, rid, (k + 1) as nat) is Err);
    lemma_units_upto_err(s, rid, (k + 1) as nat, count_links(s.links@, rid, s.links@.len()));
}

impl Store {
    /// Gives every unit row without a name the name recorded in its
    /// encoding. It fails, at the first such row, only where a nameless
    /// row's data does not decompress or decode; rows before it are named.
    pub fn fill_unit_names(&mut self) -> (r: Result<(), StoreError>)
        requires
            old(self).wf(),
        ensures
            final(self).wf(),
            final(self).units@.len() == old(self).units@.len(),
            forall|i: int| 0 <= i < final(self).units@.len() ==> {
                &&& (#[trigger] final(self).units@[i]).key@ == old(self).units@[i].key@
                &&& final(self).units@[i].data@ == old(self).units@[i].data@
                &&& old(self).units@[i].name is Some ==> final(self).units@[i].name == old(self).units@[i].name
                &&& (old(self).units@[i].name is None && final(self).units@[i].name is Some)
                    ==> named_by_data(final(self).units@[i].data@, final(self).units@[i].name->Some_0@)
            },
            r is Ok ==> forall|i: int| 0 <= i < final(self).units@.len() ==> (#[trigger] final(self).units@[i]).name is Some,
            r is Err ==> exists|i: int| 0 <= i < old(self).units@.len() && (#[trigger] old(self).units@[i]).name is None
                && unnameable(old(self).units@[i].data@),
            final(self).reports == old(self).reports,
            final(self).links == old(self).links,
            final(self).projects == old(self).projects,
            final(self).next_report_id == old(self).next_report_id,
    {
        let ghost start = self.units@;
        let mut i: usize = 0;
        while i < self.units.len()
            invariant
                self.wf(),
                i <= self.units@.len(),
                self.units@.len() == start.len(),
                start == old(self).units@,
                self.reports == old(self).reports,
                self.links == old(self).links,
                self.projects == old(self).projects,
                self.next_report_id == old(self).next_report_id,
                forall|j: int| 0 <= j < self.units@.len() ==> {
                    &&& (#[trigger] self.units@[j]).key@ == start[j].key@
                    &&& self.units@[j].data@ == start[j].data@
                    &&& start[j].name is Some ==> self.units@[j].name == start[j].name
                    &&& (start[j].name is None && self.units@[j].name is Some)
                        ==> named_by_data(self.units@[j].data@, self.units@[j].name->Some_0@)
                    &&& j >= i ==> self.units@[j].name == start[j].name
                },
                forall|j: int| 0 <= j < i ==> (#[trigger] self.units@[j]).name is Some,
            decreases self.units@.len() - i,
        {
            if self.units[i].name.is_none() {
                let data = match decompress(self.units[i].data.as_slice()) {
                    Ok(d) => d,
                    Err(e) => {
                        assert(unnameable(start[i as int].data@));
                        return Err(StoreError::Codec(e));
                    },
                };
                let name = match crate::report::decode_unit_name(data.as_slice()) {
                    Some(n) => n,
                    None => {
                        assert(unnameable(start[i as int].data@));
                        return Err(StoreError::Decode);
                    },
                };
                let ghost before = self.units@;
                let mut row = self.units.remove(i);
                row.name = Some(name);
                self.units.insert(i, row);
                proof {
                    assert(self.units@ == before.update(i as int, row));
                    assert forall|a: int, b: int|
                        0 <= a < self.units@.len() && 0 <= b < self.units@.len() && a != b
                            implies (#[trigger] self.units@[a]).key@ != (#[trigger] self.units@[b]).key@ by {
                        assert(self.units@[a].key@ == before[a].key@);
                        assert(self.units@[b].key@ == before[b].key@);
                    }
                }
            }
            i = i + 1;
        }
        Ok(())
    }
}

impl Store {
    /// Whether the tables meet the store's invariant (`wf`).
    pub fn is_well_formed(&self) -> (r: bool)
        ensures
            r == self.wf(),
    {
        let np = self.projects.len();
        let mut i: usize = 0;
        while i < np
            invariant
                np == self.projects@.len(),
                i <= np,
                forall|a: int, b: int| 0 <= a < i && 0 <= b < np && a != b ==> (#[trigger] self.projects@[a]).id != (#[trigger] self.projects@[b]).id,
            decreases np - i,
        {
            let mut j: usize = 0;
            while j < np
                invariant
                    np == self.projects@.len(),
                    i < np,
                    j <= np,
                    forall|b: int| 0 <= b < j && b != i ==> self.projects@[i as int].id != (#[trigger] self.projects@[b]).id,
                decreases np - j,
            {
                if j != i && self.projects[i].id == self.projects[j].id {
                    return false;
                }
                j = j + 1;
            }
            i = i + 1;
        }
        let nr = self.reports.len();
        let mut i: usize = 0;
        while i < nr
            invariant
                nr == self.reports@.len(),
                i <= nr,
                forall|a: int, b: int| 0 <= a < i && 0 <= b < nr && a != b ==> !same_report_key(#[trigger] self.reports@[a], #[trigger] self.reports@[b]),
            decreases nr - i,
        {
            let mut j: usize = 0;
            while j < nr
                invariant
                    nr == self.reports@.len(),
                    i < nr,
                    j <= nr,
                    forall|b: int| 0 <= b < j && b != i ==> !same_report_key(self.reports@[i as int], #[trigger] self.reports@[b]),
                decreases nr - j,
            {
                let x = &self.reports[i];
                let y = &self.reports[j];
                if j != i && x.project_id == y.project_id && equals_nocase(x.version.as_str(), y.version.as_str())
                    && equals_nocase(x.git_commit.as_str(), y.git_commit.as_str()) {
                    return false;
                }
                j = j + 1;
            }
            i = i + 1;
        }
        let n = self.reports.len();
        let mut i: usize = 0;
        while i < n
            invariant
                n == self.reports@.len(),
                i <= n,
                forall|a: int| 0 <= a < i ==> (#[trigger] self.reports@[a]).id < self.next_report_id,
                forall|a: int, b: int| 0 <= a < i && 0 <= b < n && a != b ==> (#[trigger] self.reports@[a]).id != (#[trigger] self.reports@[b]).id,
            decreases n - i,
        {
            if self.reports[i].id >= self.next_report_id {
                return false;
            }
            let mut j: usize = 0;
            while j < n
                invariant
                    n == self.reports@.len(),
                    i < n,
                    j <= n,
                    forall|b: int| 0 <= b < j && b != i ==> self.reports@[i as int].id != (#[trigger] self.reports@[b]).id,
                decreases n - j,
            {
                if j != i && self.reports[i].id == self.reports[j].id {
                    return false;
                }
                j = j + 1;
            }
            i = i + 1;
        }
        let m = self.units.len();
        let mut i: usize = 0;
        while i < m
            invariant
                m == self.units@.len(),
                i <= m,
                forall|a: int, b: int| 0 <= a < i && 0 <= b < m && a != b ==> (#[trigger] self.units@[a]).key@ != (#[trigger] self.units@[b]).key@,
            decreases m - i,
        {
            let mut j: usize = 0;
            while j < m
                invariant
                    m == self.units@.len(),
                    i < m,
                    j <= m,
                    forall|b: int| 0 <= b < j && b != i ==> self.units@[i as int].key@ != (#[trigger] self.units@[b]).key@,
                decreases m - j,
            {
                if j != i && bytes_equal(self.units[i].key.as_slice(), self.units[j].key.as_slice()) {
                    return false;
                }
                j = j + 1;
            }
            i = i + 1;
        }
        let l = self.links.len();
        let mut i: usize = 0;
        while i < l
            invariant
                l == self.links@.len(),
                i <= l,
                forall|a: int| 0 <= a < i ==> (#[trigger] self.links@[a]).report_id < self.next_report_id,
                forall|a: int, b: int|
                    0 <= a < i && 0 <= b < l && a != b && (#[trigger] self.links@[a]).report_id == (#[trigger] self.links@[b]).report_id
                        ==> self.links@[a].unit_index != self.links@[b].unit_index && self.links@[a].unit_key@ != self.links@[b].unit_key@,
            decreases l - i,
        {
            if self.links[i].report_id >= self.next_report_id {
                return false;
            }
            let mut j: usize = 0;
            while j < l
                invariant
                    l == self.links@.len(),
                    i < l,
                    j <= l,
                    forall|b: int| 0 <= b < j && b != i && self.links@[i as int].report_id == (#[trigger] self.links@[b]).report_id
                        ==> self.links@[i as int].unit_index != self.links@[b].unit_index
                            && self.links@[i as int].unit_key@ != self.links@[b].unit_key@,
                decreases l - j,
            {
                if j != i && self.links[i].report_id == self.links[j].report_id && (self.links[i].unit_index
                    == self.links[j].unit_index || bytes_equal(self.links[i].unit_key.as_slice(), self.links[j].unit_key.as_slice())) {
                    return false;
                }
                j = j + 1;
            }
            i = i + 1;
        }
        proof {
            assert forall|a: int, b: int|
                0 <= a < self.reports@.len() && 0 <= b < self.reports@.len() && a != b
                    implies (#[trigger] self.reports@[a]).id != (#[trigger] self.reports@[b]).id by {}
            assert forall|a: int, b: int|
                0 <= a < self.projects@.len() && 0 <= b < self.projects@.len() && a != b
                    implies (#[trigger] self.projects@[a]).id != (#[trigger] self.projects@[b]).id by {}
            assert forall|a: int, b: int|
                0 <= a < self.reports@.len() && 0 <= b < self.reports@.len() && a != b
                    implies !same_report_key(#[trigger] self.reports@[a], #[trigger] self.reports@[b]) by {}
        }
        true
    }
}

} // verus!
