//! The report format of the decompilation tooling, held opaquely, and its
//! conversion to and from the encoded form that the store keeps.
use vstd::prelude::*;
use std::sync::Arc;
use objdiff_core::bindings::report::{Measures, Report, ReportUnit};
use prost::Message;
use crate::codec::MAX_CONTENT;
use crate::store::{EncodedReport, EncodedUnit};

verus! {

/// `objdiff_core::bindings::report::Report`, held opaquely.
#[verifier::external_type_specification]
#[verifier::external_body]
pub struct ExReport(Report);

/// `objdiff_core::bindings::report::ReportUnit`, held opaquely.
#[verifier::external_type_specification]
#[verifier::external_body]
pub struct ExReportUnit(ReportUnit);

/// `objdiff_core::bindings::report::Measures`, held opaquely.
#[verifier::external_type_specification]
#[verifier::external_body]
pub struct ExMeasures(Measures);

/// `prost::DecodeError`, held opaquely.
#[verifier::external_type_specification]
#[verifier::external_body]
pub struct ExDecodeError(prost::DecodeError);

/// `anyhow::Error`, the error type of the report format's own operations.
#[verifier::external_type_specification]
#[verifier::external_body]
pub struct ExAnyhowError(anyhow::Error);

/// The names of a report's units, in order.
pub uninterp spec fn unit_names(r: Report) -> Seq<Seq<char>>;

/// The protobuf encoding of each of a report's units, in order.
pub uninterp spec fn unit_encodings(r: Report) -> Seq<Seq<u8>>;

/// The protobuf encoding of a report's fields other than its units.
pub uninterp spec fn header_encoding(r: Report) -> Seq<u8>;

/// The ids of a report's progress categories, in order.
pub uninterp spec fn category_ids(r: Report) -> Seq<Seq<char>>;

/// The unit names of the report that the bytes decode to as protobuf, or
/// `None` if they do not decode.
pub uninterp spec fn decoded_unit_names(b: Seq<u8>) -> Option<Seq<Seq<char>>>;

/// The name of the unit that the bytes decode to as protobuf, or `None` if
/// they do not decode.
pub uninterp spec fn decoded_name(b: Seq<u8>) -> Option<Seq<char>>;

/// The report that `Report::parse` reads from the bytes, where it accepts them.
pub uninterp spec fn parsed_report(b: Seq<u8>) -> Report;

/// The report that the bytes decode to as protobuf, where they decode.
pub uninterp spec fn decoded_report(b: Seq<u8>) -> Report;

/// The report with the unit that the bytes decode to appended.
pub uninterp spec fn with_unit(r: Report, b: Seq<u8>) -> Report;

/// The report as `Report::migrate` leaves it, where it succeeds.
pub uninterp spec fn migrated(r: Report) -> Report;

/// Whether `Report::parse` accepts the bytes.
pub uninterp spec fn parses(b: Seq<u8>) -> bool;

/// Whether `Report::migrate` succeeds on the report.
pub uninterp spec fn migrates(r: Report) -> bool;

/// A report's format version.
pub uninterp spec fn format_version(r: Report) -> u32;

/// The integer measures of the report as a whole, if it has measures: the
/// six byte counts, then the four function and unit counts.
pub uninterp spec fn report_measures(r: Report) -> Option<Seq<u64>>;

/// The same for each unit, followed by the number of progress categories
/// that the unit lists.
pub uninterp spec fn unit_measures(r: Report) -> Seq<Option<Seq<u64>>>;

/// The same for each progress category.
pub uninterp spec fn category_measures(r: Report) -> Seq<Option<Seq<u64>>>;

/// Why a report could not be read or brought up to date.
#[derive(Debug, Clone, Copy, PartialEq, Eq, Structural)]
pub enum FormatError {
    /// The bytes are not a valid report or unit encoding.
    Decode,
    /// The report cannot be brought to the current format version.
    Migrate,
}

/// The largest byte count, and the largest function or unit count, for
/// which the sums that an upgrade from an old format version makes stay in
/// range.
pub const MAX_BYTES: u64 = 0x100_0000_0000;
pub const MAX_COUNT: u64 = 0x1_0000;
/// The most units, and the most unit-to-category references, in a report
/// that is upgraded.
pub const MAX_UNITS: u64 = 0x8000;

/// Measures within the bounds above (a unit's last entry is its category
/// count, bounded separately).
pub open spec fn measures_bounded(v: Seq<u64>) -> bool {
    &&& v.len() >= 10
    &&& forall|i: int| 0 <= i < 6 ==> v[i] <= MAX_BYTES
    &&& forall|i: int| 6 <= i < 10 ==> v[i] <= MAX_COUNT
}

/// The measures that an upgrade adds to are within the bounds: the
/// complete code and data bytes, and the unit counts.
pub open spec fn sums_bounded(v: Seq<u64>) -> bool {
    &&& v.len() >= 10
    &&& v[4] <= MAX_BYTES
    &&& v[5] <= MAX_BYTES
    &&& v[8] <= MAX_COUNT
    &&& v[9] <= MAX_COUNT
}

pub open spec fn opt_bounded(o: Option<Seq<u64>>) -> bool {
    match o {
        Some(v) => measures_bounded(v),
        None => true,
    }
}

pub open spec fn opt_sums_bounded(o: Option<Seq<u64>>) -> bool {
    match o {
        Some(v) => sums_bounded(v),
        None => true,
    }
}

/// The category references of the first `n` units.
pub open spec fn category_refs(us: Seq<Option<Seq<u64>>>, n: nat) -> int
    decreases n,
{
    if n == 0 {
        0
    } else {
        category_refs(us, (n - 1) as nat) + match us[n - 1] {
            Some(v) => if v.len() > 10 { v[10] as int } else { 0 },
            None => 0,
        }
    }
}

/// `Report::migrate` adds measures up in fixed-width integers when it
/// upgrades format versions 0 and 1; within these bounds no sum overflows.
/// Version 1 only counts units into the report and its categories;
/// version 0 also adds each unit's measures into its categories and its
/// code and data into the report's complete totals.
pub open spec fn migration_bounded(r: Report) -> bool {
    format_version(r) >= 2 || {
        &&& unit_measures(r).len() <= MAX_UNITS
        &&& category_refs(unit_measures(r), unit_measures(r).len()) <= MAX_UNITS
        &&& opt_sums_bounded(report_measures(r))
        &&& format_version(r) == 0 ==> forall|i: int| 0 <= i < unit_measures(r).len() ==> opt_bounded(#[trigger] unit_measures(r)[i])
        &&& forall|i: int| 0 <= i < category_measures(r).len() ==> if format_version(r) == 0 {
            opt_bounded(#[trigger] category_measures(r)[i])
        } else {
            opt_sums_bounded(category_measures(r)[i])
        }
    }
}

pub open spec fn opt_vec(o: Option<Vec<u64>>) -> Option<Seq<u64>> {
    match o {
        Some(v) => Some(v@),
        None => None,
    }
}

/// Relies on `Report::units`: the number of units.
#[verifier::external_body]
fn unit_count(r: &Report) -> (n: usize)
    ensures
        n == unit_names(*r).len(),
        n == unit_encodings(*r).len(),
        n == unit_measures(*r).len(),
{
    r.units.len()
}

/// Relies on `ReportUnit::name` of the unit at position `i`.
#[verifier::external_body]
fn unit_name(r: &Report, i: usize) -> (s: String)
    requires
        i < unit_names(*r).len(),
    ensures
        s@ == unit_names(*r)[i as int],
{
    r.units[i].name.clone()
}

/// Relies on `prost::Message::encode_to_vec` for the unit at position `i`;
/// decoding the bytes gives a unit of the same name.
#[verifier::external_body]
fn encode_unit(r: &Report, i: usize) -> (b: Vec<u8>)
    requires
        i < unit_encodings(*r).len(),
        i < unit_names(*r).len(),
    ensures
        b@ == unit_encodings(*r)[i as int],
        decoded_name(b@) == Some(unit_names(*r)[i as int]),
        b@.len() <= MAX_CONTENT,
{
    r.units[i].encode_to_vec()
}

/// Relies on the derived `Clone` of `Report`.
#[verifier::external_body]
fn copy_report(r: &Report) -> (c: Report)
    ensures
        header_encoding(c) == header_encoding(*r),
{
    r.clone()
}

/// Relies on `Vec::clear` on `Report::units`; the other fields stay.
#[verifier::external_body]
fn clear_units(r: &mut Report)
    ensures
        unit_names(*final(r)).len() == 0,
        header_encoding(*final(r)) == header_encoding(*old(r)),
{
    r.units.clear()
}

/// Relies on `prost::Message::encode_to_vec` for a report: without units,
/// the encoding is that of its other fields, and it decodes to a report
/// without units.
#[verifier::external_body]
fn encode_message(r: &Report) -> (b: Vec<u8>)
    ensures
        unit_names(*r).len() == 0 ==> b@ == header_encoding(*r),
        unit_names(*r).len() == 0 ==> decoded_unit_names(b@) == Some(Seq::<Seq<char>>::empty()),
        b@.len() <= MAX_CONTENT,
{
    r.encode_to_vec()
}

/// Relies on `prost::Message::decode` for a report.
#[verifier::external_body]
fn decode_report(b: &[u8]) -> (r: Result<Report, prost::DecodeError>)
    ensures
        r is Ok <==> decoded_unit_names(b@) is Some,
        r matches Ok(rep) ==> rep == decoded_report(b@),
        r matches Ok(rep) ==> Some(unit_names(rep)) == decoded_unit_names(b@),
{
    Report::decode(b)
}

/// Relies on `prost::Message::decode` for a unit and `Vec::push` on
/// `Report::units`: a unit that decodes is appended.
#[verifier::external_body]
fn append_unit(r: &mut Report, b: &[u8]) -> (res: Result<(), prost::DecodeError>)
    ensures
        res is Ok <==> decoded_name(b@) is Some,
        res is Ok ==> *final(r) == with_unit(*old(r), b@),
        res is Ok ==> unit_names(*final(r)) == unit_names(*old(r)).push(decoded_name(b@)->Some_0),
        res is Err ==> *final(r) == *old(r),
{
    r.units.push(ReportUnit::decode(b)?);
    Ok(())
}

/// Relies on the derived `Default` of `Report`: no units.
#[verifier::external_body]
fn empty_report() -> (r: Report)
    ensures
        unit_names(r).len() == 0,
{
    Report::default()
}

/// The name recorded in a unit encoding, if it decodes.
pub fn decode_unit_name(b: &[u8]) -> (r: Option<String>)
    ensures
        match r {
            Some(s) => decoded_name(b@) == Some(s@),
            None => decoded_name(b@) is None,
        },
{
    let mut holder = empty_report();
    match append_unit(&mut holder, b) {
        Ok(()) => {
            assert(unit_names(holder)[0] == decoded_name(b@)->Some_0);
            Some(unit_name(&holder, 0))
        },
        Err(_) => None,
    }
}

/// Relies on `Report::parse`, which reads the binary or the JSON form.
#[verifier::external_body]
fn parse_report(b: &[u8]) -> (r: Result<Report, anyhow::Error>)
    ensures
        r is Ok <==> parses(b@),
        r matches Ok(rep) ==> rep == parsed_report(b@),
{
    Report::parse(b)
}

/// Relies on `Report::migrate`, which upgrades older format versions in
/// place and leaves unit names alone. Its sums are in range where the
/// report is `migration_bounded`.
#[verifier::external_body]
fn migrate_report(r: &mut Report) -> (res: Result<(), anyhow::Error>)
    requires
        migration_bounded(*old(r)),
    ensures
        res is Ok <==> migrates(*old(r)),
        res is Ok ==> *final(r) == migrated(*old(r)),
        unit_names(*final(r)) == unit_names(*old(r)),
{
    r.migrate()
}

/// Relies on `Report::version`.
#[verifier::external_body]
fn version_of(r: &Report) -> (v: u32)
    ensures
        v == format_version(*r),
{
    r.version
}

/// Relies on `Report::measures`.
#[verifier::external_body]
fn report_measure_values(r: &Report) -> (v: Option<Vec<u64>>)
    ensures
        opt_vec(v) == report_measures(*r),
{
    r.measures.as_ref().map(|m| vec![m.total_code, m.matched_code, m.total_data, m.matched_data,
        m.complete_code, m.complete_data, m.total_functions as u64, m.matched_functions as u64,
        m.total_units as u64, m.complete_units as u64])
}

/// Relies on `ReportUnit::measures` and `ReportUnitMetadata::progress_categories`
/// of the unit at position `i`.
#[verifier::external_body]
fn unit_measure_values(r: &Report, i: usize) -> (v: Option<Vec<u64>>)
    requires
        i < unit_measures(*r).len(),
    ensures
        opt_vec(v) == unit_measures(*r)[i as int],
{
    let u = &r.units[i];
    let refs = u.metadata.as_ref().map_or(0, |m| m.progress_categories.len() as u64);
    u.measures.as_ref().map(|m| vec![m.total_code, m.matched_code, m.total_data, m.matched_data,
        m.complete_code, m.complete_data, m.total_functions as u64, m.matched_functions as u64,
        m.total_units as u64, m.complete_units as u64, refs])
}

/// Relies on `Report::categories`: how many there are.
#[verifier::external_body]
fn category_count(r: &Report) -> (n: usize)
    ensures
        n == category_measures(*r).len(),
{
    r.categories.len()
}

/// Relies on `ReportCategory::measures` of the category at position `i`.
#[verifier::external_body]
fn category_measure_values(r: &Report, i: usize) -> (v: Option<Vec<u64>>)
    requires
        i < category_measures(*r).len(),
    ensures
        opt_vec(v) == category_measures(*r)[i as int],
{
    r.categories[i].measures.as_ref().map(|m| vec![m.total_code, m.matched_code, m.total_data,
        m.matched_data, m.complete_code, m.complete_data, m.total_functions as u64,
        m.matched_functions as u64, m.total_units as u64, m.complete_units as u64])
}

/// The ids of categories that are not sub-categories (hold no `.`), in order.
pub open spec fn top_level(ids: Seq<Seq<char>>) -> Seq<Seq<char>>
    decreases ids.len(),
{
    if ids.len() == 0 {
        ids
    } else {
        let rest = top_level(ids.drop_last());
        if ids.last().contains('.') {
            rest
        } else {
            rest.push(ids.last())
        }
    }
}

/// Relies on `Report::split`: one report per top-level progress category,
/// labelled with its id, in the order of the categories.
#[verifier::external_body]
pub(crate) fn split_report(r: Report) -> (v: Vec<(String, Arc<Report>)>)
    ensures
        v@.len() == top_level(category_ids(r)).len(),
        forall|i: int| 0 <= i < v@.len() ==> (#[trigger] v@[i]).0@ == top_level(category_ids(r))[i],
{
    r.split().into_iter().map(|(v, rep)| (v, Arc::new(rep))).collect()
}

fn values_bounded(v: &Vec<u64>) -> (b: bool)
    ensures
        b == measures_bounded(v@),
{
    if v.len() < 10 {
        return false;
    }
    let mut i: usize = 0;
    while i < 10
        invariant
            v@.len() >= 10,
            i <= 10,
            forall|j: int| 0 <= j < i ==> if j < 6 { v@[j] <= MAX_BYTES } else { v@[j] <= MAX_COUNT },
        decreases 10 - i,
    {
        let limit = if i < 6 { MAX_BYTES } else { MAX_COUNT };
        if v[i] > limit {
            assert(!measures_bounded(v@)) by {
                if i < 6 {
                    assert(v@[i as int] > MAX_BYTES);
                } else {
                    assert(v@[i as int] > MAX_COUNT);
                }
            }
            return false;
        }
        i = i + 1;
    }
    true
}

fn bounded_values(v: &Option<Vec<u64>>) -> (b: bool)
    ensures
        b == opt_bounded(opt_vec(*v)),
{
    match v {
        None => true,
        Some(vals) => values_bounded(vals),
    }
}

fn sums_within(v: &Option<Vec<u64>>) -> (b: bool)
    ensures
        b == opt_sums_bounded(opt_vec(*v)),
{
    match v {
        None => true,
        Some(vals) => vals.len() >= 10 && vals[4] <= MAX_BYTES && vals[5] <= MAX_BYTES
            && vals[8] <= MAX_COUNT && vals[9] <= MAX_COUNT,
    }
}

/// Whether the report may be upgraded without a sum going out of range.
fn can_migrate(r: &Report) -> (b: bool)
    ensures
        b == migration_bounded(*r),
{
    let version = version_of(r);
    if version >= 2 {
        return true;
    }
    let n = unit_count(r);
    if n as u64 > MAX_UNITS {
        return false;
    }
    if !sums_within(&report_measure_values(r)) {
        return false;
    }
    let mut refs: u64 = 0;
    let mut i: usize = 0;
    while i < n
        invariant
            version == format_version(*r),
            version < 2,
            n == unit_measures(*r).len(),
            n <= MAX_UNITS,
            i <= n,
            refs == category_refs(unit_measures(*r), i as nat),
            refs <= MAX_UNITS,
            version == 0 ==> forall|j: int| 0 <= j < i ==> opt_bounded(#[trigger] unit_measures(*r)[j]),
        decreases n - i,
    {
        let v = unit_measure_values(r, i);
        if version == 0 && !bounded_values(&v) {
            assert(!opt_bounded(unit_measures(*r)[i as int]));
            return false;
        }
        let more: u64 = match &v {
            Some(v) => if v.len() > 10 { v[10] } else { 0 },
            None => 0,
        };
        assert(category_refs(unit_measures(*r), (i + 1) as nat) == refs + more);
        if more > MAX_UNITS - refs {
            proof { lemma_category_refs_grow(unit_measures(*r), (i + 1) as nat, n as nat); }
            return false;
        }
        refs = refs + more;
        i = i + 1;
    }
    let m = category_count(r);
    let mut j: usize = 0;
    while j < m
        invariant
            version == format_version(*r),
            version < 2,
            n == unit_measures(*r).len(),
            n <= MAX_UNITS,
            category_refs(unit_measures(*r), n as nat) <= MAX_UNITS,
            opt_sums_bounded(report_measures(*r)),
            version == 0 ==> forall|k: int| 0 <= k < n ==> opt_bounded(#[trigger] unit_measures(*r)[k]),
            m == category_measures(*r).len(),
            j <= m,
            forall|k: int| 0 <= k < j ==> if version == 0 {
                opt_bounded(#[trigger] category_measures(*r)[k])
            } else {
                opt_sums_bounded(category_measures(*r)[k])
            },
        decreases m - j,
    {
        let v = category_measure_values(r, j);
        let fine = if version == 0 { bounded_values(&v) } else { sums_within(&v) };
        if !fine {
            assert(!(if version == 0 {
                opt_bounded(category_measures(*r)[j as int])
            } else {
                opt_sums_bounded(category_measures(*r)[j as int])
            }));
            return false;
        }
        j = j + 1;
    }
    true
}

proof fn lemma_category_refs_grow(us: Seq<Option<Seq<u64>>>, m: nat, n: nat)
    requires
        m <= n,
    ensures
        category_refs(us, m) <= category_refs(us, n),
    decreases n - m,
{
    if m < n {
        lemma_category_refs_grow(us, m, (n - 1) as nat);
    }
}

/// Brings a report to the current format version: fails where
/// `Report::migrate` fails, or where an upgrade would add measures beyond
/// the bounds of `migration_bounded`.
pub fn migrate(r: &mut Report) -> (res: Result<(), FormatError>)
    ensures
        res is Ok <==> migration_bounded(*old(r)) && migrates(*old(r)),
        res is Err ==> res == Err::<(), FormatError>(FormatError::Migrate),
        res is Ok ==> *final(r) == migrated(*old(r)),
        res is Ok ==> unit_names(*final(r)) == unit_names(*old(r)),
{
    if !can_migrate(r) {
        return Err(FormatError::Migrate);
    }
    match migrate_report(r) {
        Ok(()) => Ok(()),
        Err(_) => Err(FormatError::Migrate),
    }
}

/// The encoded form of `r`: its fields other than units, and each unit
/// under its name, in order.
pub open spec fn encodes(r: Report, enc: EncodedReport) -> bool {
    &&& enc.header@ == header_encoding(r)
    &&& decoded_unit_names(enc.header@) == Some(Seq::<Seq<char>>::empty())
    &&& enc.units@.len() == unit_names(r).len()
    &&& forall|i: int| 0 <= i < enc.units@.len() ==> {
        &&& (#[trigger] enc.units@[i]).name@ == unit_names(r)[i]
        &&& enc.units@[i].data@ == unit_encodings(r)[i]
        &&& decoded_name(enc.units@[i].data@) == Some(unit_names(r)[i])
    }
}

/// Encodes a report for storage: the report without units, and each unit
/// under its name, in order.
pub fn encode_report(r: &Report) -> (enc: EncodedReport)
    ensures
        encodes(*r, enc),
        crate::store::fits_in_memory(enc),
{
    let mut bare = copy_report(r);
    clear_units(&mut bare);
    let header = encode_message(&bare);
    let n = unit_count(r);
    let mut units: Vec<EncodedUnit> = Vec::new();
    let mut i: usize = 0;
    while i < n
        invariant
            n == unit_names(*r).len(),
            n == unit_encodings(*r).len(),
            i <= n,
            units@.len() == i,
            forall|j: int| 0 <= j < i ==> {
                &&& (#[trigger] units@[j]).name@ == unit_names(*r)[j]
                &&& units@[j].data@ == unit_encodings(*r)[j]
                &&& decoded_name(units@[j].data@) == Some(unit_names(*r)[j])
                &&& units@[j].data@.len() <= MAX_CONTENT
            },
        decreases n - i,
    {
        let name = unit_name(r, i);
        let data = encode_unit(r, i);
        units.push(EncodedUnit { name, data });
        i = i + 1;
    }
    EncodedReport { header, units }
}

/// Parses a report from an artifact file and brings it to the current
/// format version.
pub fn read_report(b: &[u8]) -> (r: Result<Report, FormatError>)
    ensures
        r == Err::<Report, FormatError>(FormatError::Decode) <==> !parses(b@),
        r is Ok <==> parses(b@) && migration_bounded(parsed_report(b@)) && migrates(parsed_report(b@)),
        r matches Ok(rep) ==> rep == migrated(parsed_report(b@)),
{
    let mut rep = match parse_report(b) {
        Ok(rep) => rep,
        Err(_) => return Err(FormatError::Decode),
    };
    match migrate(&mut rep) {
        Ok(()) => Ok(rep),
        Err(e) => Err(e),
    }
}

/// The unit names that rebuilding from `header` and `units` gives before
/// the upgrade: the header's own, then the name decoded from each unit.
pub open spec fn rebuilt_names(header: Seq<u8>, units: Seq<Seq<u8>>) -> Option<Seq<Seq<char>>>
    decreases units.len(),
{
    if units.len() == 0 {
        decoded_unit_names(header)
    } else {
        match (rebuilt_names(header, units.drop_last()), decoded_name(units.last())) {
            (Some(ns), Some(n)) => Some(ns.push(n)),
            _ => None,
        }
    }
}

/// The report that decoding `header` and appending the unit decoded from
/// each of `units`, in order, builds; `None` where something does not decode.
pub open spec fn assembled_report(header: Seq<u8>, units: Seq<Seq<u8>>) -> Option<Report>
    decreases units.len(),
{
    if units.len() == 0 {
        if decoded_unit_names(header) is Some {
            Some(decoded_report(header))
        } else {
            None
        }
    } else {
        match (assembled_report(header, units.drop_last()), decoded_name(units.last())) {
            (Some(r), Some(_)) => Some(with_unit(r, units.last())),
            _ => None,
        }
    }
}

/// Rebuilds a report from its stored encoding without units and the
/// encodings of its units, in order, then brings it to the current format
/// version. A decode failure is `Decode`; the units come in the given order.
pub fn rebuild_report(header: &[u8], units: &Vec<Vec<u8>>) -> (r: Result<Report, FormatError>)
    ensures
        r == Err::<Report, FormatError>(FormatError::Decode)
            <==> rebuilt_names(header@, units@.map_values(|u: Vec<u8>| u@)) is None,
        r matches Ok(rep) ==> Some(unit_names(rep)) == rebuilt_names(header@, units@.map_values(|u: Vec<u8>| u@)),
        match assembled_report(header@, units@.map_values(|u: Vec<u8>| u@)) {
            None => r == Err::<Report, FormatError>(FormatError::Decode),
            Some(pre) => {
                &&& (r is Ok <==> migration_bounded(pre) && migrates(pre))
                &&& r matches Ok(rep) ==> rep == migrated(pre)
                &&& r is Err ==> r == Err::<Report, FormatError>(FormatError::Migrate)
            },
        },
{
    let ghost views = units@.map_values(|u: Vec<u8>| u@);
    let mut rep = match decode_report(header) {
        Ok(rep) => rep,
        Err(_) => {
            proof {
                lemma_rebuilt_none(header@, views, 0);
                lemma_assembled_none(header@, views, 0);
            }
            return Err(FormatError::Decode);
        },
    };
    let mut i: usize = 0;
    while i < units.len()
        invariant
            i <= units@.len(),
            views == units@.map_values(|u: Vec<u8>| u@),
            rebuilt_names(header@, views.subrange(0, i as int)) == Some(unit_names(rep)),
            assembled_report(header@, views.subrange(0, i as int)) == Some(rep),
        decreases units@.len() - i,
    {
        proof {
            assert(views.subrange(0, i + 1).drop_last() =~= views.subrange(0, i as int));
            assert(views.subrange(0, i + 1).last() == units@[i as int]@);
        }
        match append_unit(&mut rep, units[i].as_slice()) {
            Ok(()) => {},
            Err(_) => {
                proof {
                    lemma_rebuilt_none(header@, views, (i + 1) as nat);
                    lemma_assembled_none(header@, views, (i + 1) as nat);
                }
                return Err(FormatError::Decode);
            },
        }
        i = i + 1;
    }
    proof { assert(views.subrange(0, units@.len() as int) =~= views); }
    match migrate(&mut rep) {
        Ok(()) => Ok(rep),
        Err(e) => Err(e),
    }
}

proof fn lemma_assembled_none(header: Seq<u8>, units: Seq<Seq<u8>>, k: nat)
    requires
        k <= units.len(),
        assembled_report(header, units.subrange(0, k as int)) is None,
    ensures
        assembled_report(header, units) is None,
    decreases units.len() - k,
{
    if k < units.len() {
        let next = units.subrange(0, k as int + 1);
        assert(next.drop_last() =~= units.subrange(0, k as int));
        lemma_assembled_none(header, units, k + 1);
    } else {
        assert(units.subrange(0, k as int) =~= units);
    }
}

proof fn lemma_rebuilt_none(header: Seq<u8>, units: Seq<Seq<u8>>, k: nat)
    requires
        k <= units.len(),
        rebuilt_names(header, units.subrange(0, k as int)) is None,
    ensures
        rebuilt_names(header, units) is None,
    decreases units.len() - k,
{
    if k < units.len() {
        let next = units.subrange(0, k as int + 1);
        assert(next.drop_last() =~= units.subrange(0, k as int));
        lemma_rebuilt_none(header, units, k + 1);
    } else {
        assert(units.subrange(0, k as int) =~= units);
    }
}

} // verus!
