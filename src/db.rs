//! The report database: the store's tables together with a bounded cache of
//! reconstructed reports.
use vstd::prelude::*;
use std::collections::hash_map::RandomState;
use std::sync::Arc;
use objdiff_core::bindings::report::Report;
use crate::codec::{decompress, decompressed, CodecError};
use crate::models::{Commit, Project, ProjectInfo};
use crate::queries::{projects_with_reports, first_project, nothing_listed, opt_view, summarised_by, summary, newest_first, commit_recorded};
use crate::report::{assembled_report, migrated, migrates, migration_bounded, decoded_name, decoded_unit_names, encode_report, encodes, rebuild_report, rebuilt_names, unit_names, FormatError};
use crate::store::{EncodedUnit, distinct_keys, key_of, lemma_units_in_order, assembled, copy_project, first_report, ids_exhausted, named_by_data, unnameable, EncodedReport, Store, StoreError};
use crate::text::{eq_nocase, to_lower};

verus! {

/// `moka::sync::Cache`, a bounded concurrent cache evicting by recency.
#[verifier::external_type_specification]
#[verifier::external_body]
#[verifier::reject_recursive_types(K)]
#[verifier::reject_recursive_types(V)]
#[verifier::reject_recursive_types(S)]
pub struct ExCache<K, V, S>(moka::sync::Cache<K, V, S>);

/// The cache of reconstructed reports, keyed by lower-cased
/// (owner, repo, commit, version).
pub type ReportCache = moka::sync::Cache<(String, String, String, String), Arc<Report>, RandomState>;

/// For each key inserted into a report cache, the unit names of the report
/// last inserted under it. An entry may have been evicted since; none that
/// is not here can be found.
pub uninterp spec fn cached_names(c: ReportCache) -> Map<Seq<Seq<char>>, Seq<Seq<char>>>;

/// How many reports the cache holds at most.
pub const CACHE_CAPACITY: u64 = 100;

/// Relies on `moka::sync::Cache::new`: a cache that holds nothing yet.
#[verifier::external_body]
fn new_cache(capacity: u64) -> (c: ReportCache)
    ensures
        cached_names(c).dom() == Set::<Seq<Seq<char>>>::empty(),
{
    moka::sync::Cache::new(capacity)
}

/// Relies on `moka::sync::Cache::get`: only the value last inserted under
/// the key can be found.
#[verifier::external_body]
fn cache_get(c: &ReportCache, owner: &String, repo: &String, commit: &String, version: &String) -> (r: Option<Arc<Report>>)
    ensures
        r is Some ==> cached_names(*c).contains_key(seq![owner@, repo@, commit@, version@]),
        r matches Some(v) ==> cached_names(*c)[seq![owner@, repo@, commit@, version@]] == unit_names(*v),
{
    c.get(&(owner.clone(), repo.clone(), commit.clone(), version.clone()))
}

/// Relies on `moka::sync::Cache::insert`.
#[verifier::external_body]
fn cache_insert(c: &mut ReportCache, owner: String, repo: String, commit: String, version: String, v: Arc<Report>)
    ensures
        cached_names(*final(c)) == cached_names(*old(c)).insert(seq![owner@, repo@, commit@, version@], unit_names(*v)),
{
    c.insert((owner, repo, commit, version), v)
}

/// A project, commit and version together with the report for them.
pub struct ReportFile {
    pub project: Project,
    pub commit: Commit,
    pub version: String,
    pub report: Arc<Report>,
}

/// A cache key for (owner, repo, commit, version), up to ASCII case.
pub open spec fn key_for(k: Seq<Seq<char>>, owner: Seq<char>, repo: Seq<char>, commit: Seq<char>, version: Seq<char>) -> bool {
    k.len() == 4 && eq_nocase(k[0], owner) && eq_nocase(k[1], repo) && eq_nocase(k[2], commit) && eq_nocase(k[3], version)
}

/// Some key for (owner, repo, commit, version), up to ASCII case, has been cached.
pub open spec fn is_cached(c: ReportCache, owner: Seq<char>, repo: Seq<char>, commit: Seq<char>, version: Seq<char>) -> bool {
    exists|k: Seq<Seq<char>>| #[trigger] cached_names(c).contains_key(k) && key_for(k, owner, repo, commit, version)
}

/// The cache holds, under a key for (owner, repo, commit, version) up to
/// ASCII case, a report with these unit names.
pub open spec fn cache_holds(c: ReportCache, owner: Seq<char>, repo: Seq<char>, commit: Seq<char>, version: Seq<char>, names: Seq<Seq<char>>) -> bool {
    exists|k: Seq<Seq<char>>| #[trigger] cached_names(c).contains_key(k) && key_for(k, owner, repo, commit, version)
        && cached_names(c)[k] == names
}

/// What rebuilding report row `i` from the tables gives: its stored data
/// decompressed, its units assembled and checked (`assembled`), the report
/// decoded with those units appended in position order, then upgraded.
pub open spec fn rebuilt(s: Store, i: int, r: Result<Report, StoreError>) -> bool {
    let row = s.reports@[i];
    match decompressed(row.data@) {
        Err(e) => r == Err::<Report, StoreError>(StoreError::Codec(e)),
        Ok(h) => match assembled(s, row.id) {
            Err(e) => r == Err::<Report, StoreError>(e),
            Ok(us) => match assembled_report(h, us) {
                None => r == Err::<Report, StoreError>(StoreError::Decode),
                Some(pre) => {
                    &&& if migration_bounded(pre) && migrates(pre) {
                        r == Ok::<Report, StoreError>(migrated(pre))
                    } else {
                        r == Err::<Report, StoreError>(StoreError::Migrate)
                    }
                    &&& r matches Ok(rep) ==> Some(unit_names(rep)) == rebuilt_names(h, us)
                },
            },
        },
    }
}

/// Rebuilds the report of row `i` from the tables: see `rebuilt`.
pub fn rebuild(store: &Store, i: usize) -> (r: Result<Report, StoreError>)
    requires
        i < store.reports@.len(),
    ensures
        rebuilt(*store, i as int, r),
{
    let row = &store.reports[i];
    let header = match decompress(row.data.as_slice()) {
        Ok(h) => h,
        Err(e) => return Err(StoreError::Codec(e)),
    };
    let units = match store.assemble_units(row.id) {
        Ok(u) => u,
        Err(e) => return Err(e),
    };
    proof {
        let w = assembled(*store, row.id)->Ok_0;
        assert(units@.map_values(|u: Vec<u8>| u@) =~= w);
    }
    let res = rebuild_report(header.as_slice(), &units);
    proof {
        let w = assembled(*store, row.id)->Ok_0;
        assert(units@.map_values(|u: Vec<u8>| u@) == w);
    }
    match res {
        Ok(rep) => Ok(rep),
        Err(FormatError::Decode) => Err(StoreError::Decode),
        Err(FormatError::Migrate) => Err(StoreError::Migrate),
    }
}

/// The store and its cache of reconstructed reports.
pub struct Database {
    pub store: Store,
    pub cache: ReportCache,
}

impl Database {
    pub open spec fn wf(&self) -> bool {
        self.store.wf()
    }

    /// A database over the given tables, with an empty cache.
    pub fn new(store: Store) -> (r: Database)
        requires
            store.wf(),
        ensures
            r.wf(),
            r.store == store,
            cached_names(r.cache).dom() == Set::<Seq<Seq<char>>>::empty(),
    {
        Database { store, cache: new_cache(CACHE_CAPACITY) }
    }

    /// Stores a report (see `Store::insert_encoded`) and caches it under its
    /// lower-cased key. It fails only where a new report id is needed and
    /// none is left; then neither the tables nor the cache change.
    pub fn insert_report(&mut self, file: &ReportFile) -> (r: Result<(), StoreError>)
        requires
            old(self).wf(),
        ensures
            final(self).wf(),
            r is Err <==> ids_exhausted(old(self).store, file.project.id, file.version@, file.commit.sha@),
            r is Ok ==> exists|enc: EncodedReport, rid: u64|
                encodes(*file.report, enc) && #[trigger] Store::inserted(old(self).store, final(self).store, file.project, file.commit, file.version@, enc, rid),
            r is Ok ==> cache_holds(final(self).cache, file.project.owner@, file.project.repo@, file.commit.sha@, file.version@, unit_names(*file.report)),
            r is Err ==> final(self).store == old(self).store && final(self).cache == old(self).cache,
    {
        let enc = encode_report(&*file.report);
        match self.store.insert_encoded(&file.project, &file.commit, file.version.as_str(), &enc) {
            Err(e) => Err(e),
            Ok(rid) => {
                let o = to_lower(file.project.owner.as_str());
                let p = to_lower(file.project.repo.as_str());
                let c = to_lower(file.commit.sha.as_str());
                let v = to_lower(file.version.as_str());
                let ghost k = seq![o@, p@, c@, v@];
                cache_insert(&mut self.cache, o, p, c, v, file.report.clone());
                proof {
                    assert(cached_names(self.cache).contains_key(k));
                    assert(cached_names(self.cache)[k] == unit_names(*file.report));
                    assert(key_for(k, file.project.owner@, file.project.repo@, file.commit.sha@, file.version@));
                }
                Ok(())
            },
        }
    }

    /// The report for (owner, repo, commit, version), all compared
    /// case-insensitively; `None` if there is none. From the cache where it
    /// is there; else rebuilt from the tables (see `rebuild`) and cached.
    /// A failed read leaves the cache as it was.
    pub fn get_report(&mut self, owner: &str, repo: &str, commit: &str, version: &str) -> (r: Result<Option<ReportFile>, StoreError>)
        requires
            old(self).wf(),
        ensures
            final(self).wf(),
            final(self).store == old(self).store,
            r is Err ==> final(self).cache == old(self).cache,
            match first_project(old(self).store.projects@, owner@, repo@, old(self).store.projects@.len()) {
                None => r == Ok::<Option<ReportFile>, StoreError>(None),
                Some(j) => {
                    let p = old(self).store.projects@[j];
                    match first_report(old(self).store.reports@, p.id, version@, commit@, old(self).store.reports@.len()) {
                        None => r == Ok::<Option<ReportFile>, StoreError>(None),
                        Some(i) => {
                            let row = old(self).store.reports@[i];
                            let hit = is_cached(old(self).cache, owner@, repo@, row.git_commit@, row.version@);
                            &&& r != Ok::<Option<ReportFile>, StoreError>(None)
                            &&& r matches Ok(Some(f)) ==> {
                                &&& f.project == p
                                &&& f.commit.sha@ == row.git_commit@
                                &&& f.commit.timestamp == row.timestamp
                                &&& f.version@ == row.version@
                                &&& (cache_holds(old(self).cache, owner@, repo@, row.git_commit@, row.version@, unit_names(*f.report))
                                    || rebuilt(old(self).store, i, Ok(*f.report)))
                                &&& cache_holds(final(self).cache, owner@, repo@, row.git_commit@, row.version@, unit_names(*f.report))
                            }
                            &&& r matches Err(e) ==> rebuilt(old(self).store, i, Err(e))
                            &&& !hit ==> match r {
                                Ok(Some(f)) => rebuilt(old(self).store, i, Ok(*f.report)),
                                Err(e) => rebuilt(old(self).store, i, Err(e)),
                                Ok(None) => false,
                            }
                        },
                    }
                },
            },
    {
        let j = match self.store.find_project(owner, repo) {
            None => return Ok(None),
            Some(j) => j,
        };
        let pid = self.store.projects[j].id;
        let i = match self.store.find_report(pid, version, commit) {
            None => return Ok(None),
            Some(i) => i,
        };
        let project = copy_project(&self.store.projects[j]);
        let row = &self.store.reports[i];
        let commit_row = Commit { sha: row.git_commit.clone(), timestamp: row.timestamp };
        let version_row = row.version.clone();
        let o = to_lower(owner);
        let p = to_lower(repo);
        let c = to_lower(row.git_commit.as_str());
        let v = to_lower(row.version.as_str());
        match cache_get(&self.cache, &o, &p, &c, &v) {
            Some(rep) => {
                proof {
                    let k = seq![o@, p@, c@, v@];
                    assert(key_for(k, owner@, repo@, row.git_commit@, row.version@));
                    assert(cached_names(self.cache).contains_key(k));
                }
                return Ok(Some(ReportFile { project, commit: commit_row, version: version_row, report: rep }));
            },
            None => {},
        }
        let rep = match rebuild(&self.store, i) {
            Ok(rep) => rep,
            Err(e) => return Err(e),
        };
        let shared = Arc::new(rep);
        let ghost k = seq![o@, p@, c@, v@];
        cache_insert(&mut self.cache, o, p, c, v, shared.clone());
        proof {
            assert(key_for(k, owner@, repo@, row.git_commit@, row.version@));
            assert(cached_names(self.cache).contains_key(k));
            assert(cached_names(self.cache)[k] == unit_names(*shared));
        }
        Ok(Some(ReportFile { project, commit: commit_row, version: version_row, report: shared }))
    }

    /// Whether a report of the project named (owner, repo) exists for
    /// `commit`, all compared case-insensitively.
    pub fn report_exists(&self, owner: &str, repo: &str, commit: &str) -> (r: bool)
        ensures
            r == commit_recorded(self.store, owner@, repo@, commit@),
    {
        self.store.report_exists(owner, repo, commit)
    }

    /// See `Store::get_project_info`.
    pub fn get_project_info(&self, owner: &str, repo: &str, commit: Option<&str>) -> (r: Option<ProjectInfo>)
        ensures
            match first_project(self.store.projects@, owner@, repo@, self.store.projects@.len()) {
                None => r is None,
                Some(j) => match r {
                    Some(info) => summary(self.store, self.store.projects@[j], opt_view(commit), true, info),
                    None => nothing_listed(self.store, self.store.projects@[j], opt_view(commit)),
                },
            },
    {
        self.store.get_project_info(owner, repo, commit)
    }

    /// See `Store::get_projects`.
    pub fn get_projects(&self) -> (r: Vec<ProjectInfo>)
        ensures
            newest_first(r@),
            r@.len() == projects_with_reports(self.store, self.store.projects@.len()),
            forall|k: int| 0 <= k < r@.len() ==> summarised_by(self.store, #[trigger] r@[k], self.store.projects@.len()),
            forall|q: int| 0 <= q < self.store.projects@.len() && !nothing_listed(self.store, #[trigger] self.store.projects@[q], None)
                ==> exists|k: int| 0 <= k < r@.len() && (#[trigger] r@[k]).project == self.store.projects@[q],
    {
        self.store.get_projects()
    }

    /// Gives every stored unit without a name the name recorded in its
    /// encoding (see `Store::fill_unit_names`).
    pub fn fixup_report_units(&mut self) -> (r: Result<(), StoreError>)
        requires
            old(self).wf(),
        ensures
            final(self).wf(),
            final(self).store.units@.len() == old(self).store.units@.len(),
            forall|i: int| 0 <= i < final(self).store.units@.len() ==> {
                &&& (#[trigger] final(self).store.units@[i]).key@ == old(self).store.units@[i].key@
                &&& final(self).store.units@[i].data@ == old(self).store.units@[i].data@
                &&& old(self).store.units@[i].name is Some ==> final(self).store.units@[i].name == old(self).store.units@[i].name
                &&& (old(self).store.units@[i].name is None && final(self).store.units@[i].name is Some)
                    ==> named_by_data(final(self).store.units@[i].data@, final(self).store.units@[i].name->Some_0@)
            },
            r is Ok ==> forall|i: int| 0 <= i < final(self).store.units@.len() ==> (#[trigger] final(self).store.units@[i]).name is Some,
            r is Err ==> exists|i: int| 0 <= i < old(self).store.units@.len() && (#[trigger] old(self).store.units@[i]).name is None
                && unnameable(old(self).store.units@[i].data@),
            final(self).store.reports == old(self).store.reports,
            final(self).store.links == old(self).store.links,
            final(self).store.projects == old(self).store.projects,
            final(self).cache == old(self).cache,
    {
        self.store.fill_unit_names()
    }
}


proof fn lemma_names_rebuilt(h: Seq<u8>, us: Seq<Seq<u8>>, names: Seq<Seq<char>>, k: nat)
    requires
        k <= us.len(),
        us.len() == names.len(),
        decoded_unit_names(h) == Some(Seq::<Seq<char>>::empty()),
        forall|i: int| 0 <= i < us.len() ==> decoded_name(#[trigger] us[i]) == Some(names[i]),
    ensures
        rebuilt_names(h, us.subrange(0, k as int)) == Some(names.subrange(0, k as int)),
    decreases k,
{
    if k > 0 {
        lemma_names_rebuilt(h, us, names, (k - 1) as nat);
        assert(us.subrange(0, k as int).drop_last() =~= us.subrange(0, k - 1));
        assert(names.subrange(0, k as int) =~= names.subrange(0, k - 1).push(names[k - 1]));
    } else {
        assert(names.subrange(0, 0) =~= Seq::<Seq<char>>::empty());
    }
}

proof fn lemma_same_shape(h: Seq<u8>, us: Seq<Seq<u8>>)
    ensures
        (rebuilt_names(h, us) is None) == (assembled_report(h, us) is None),
    decreases us.len(),
{
    if us.len() > 0 {
        lemma_same_shape(h, us.drop_last());
    }
}

/// Reading a newly inserted report back from the tables gives its units in
/// the order the report listed them, whatever order their rows stand in:
/// the rebuilt report has the same unit names in the same order (unless
/// the upgrade step refuses it). This holds where the report lists no unit
/// twice and no stored unit row with one of its keys holds other bytes.
pub proof fn lemma_rebuilt_in_order(
    s0: Store,
    s1: Store,
    rep: Report,
    project: crate::models::Project,
    commit: Commit,
    version: Seq<char>,
    enc: EncodedReport,
    rid: u64,
    i: int,
    r: Result<Report, StoreError>,
)
    requires
        s0.wf(),
        s1.wf(),
        encodes(rep, enc),
        Store::inserted(s0, s1, project, commit, version, enc, rid),
        first_report(s0.reports@, project.id, version, commit.sha@, s0.reports@.len()) is None,
        distinct_keys(enc.units@),
        forall|j: int, k: int|
            0 <= j < s0.units@.len() && 0 <= k < enc.units@.len() && (#[trigger] s0.units@[j]).key@ == #[trigger] key_of(enc.units@[k])
                ==> decompressed(s0.units@[j].data@) == Ok::<Seq<u8>, CodecError>(enc.units@[k].data@),
        0 <= i < s1.reports@.len(),
        s1.reports@[i].id == rid,
        rebuilt(s1, i, r),
    ensures
        assembled_report(enc.header@, enc.units@.map_values(|u: EncodedUnit| u.data@)) matches Some(pre) && (r is Ok
            <==> migration_bounded(pre) && migrates(pre)),
        r is Ok || r == Err::<Report, StoreError>(StoreError::Migrate),
        r matches Ok(back) ==> unit_names(back) == unit_names(rep),
{
    let last = s0.reports@.len() as int;
    assert(s1.reports@[last].id == rid);
    assert(i == last);
    lemma_units_in_order(s0, s1, project, commit, version, enc, rid);
    let w = assembled(s1, rid)->Ok_0;
    let names = unit_names(rep);
    assert forall|k: int| 0 <= k < w.len() implies decoded_name(#[trigger] w[k]) == Some(names[k]) by {
        assert(w[k] == enc.units@[k].data@);
    }
    lemma_names_rebuilt(enc.header@, w, names, w.len());
    assert(w.subrange(0, w.len() as int) =~= w);
    assert(names.subrange(0, w.len() as int) =~= names);
    lemma_same_shape(enc.header@, w);
    assert(enc.units@.map_values(|u: EncodedUnit| u.data@) =~= w);
}

} // verus!
