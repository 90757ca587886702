//! Offline import of the rating history (CSV) against a catalog snapshot.
//!
//! The CSV text is split into records by the `csv` crate; the numeric value
//! of each `rating` field is read by the caller as a binary64 pattern. Every
//! rule of the import (headers, fields, statuses, duplicates, references,
//! ordering and the events derived from each row) is stated and proved here.

use vstd::prelude::*;
use crate::domain::{WorkId, Rating, DropProgress, NormalizedWork, RatingRecord, WatchEvent, range_check};
use crate::ieee::TEN_BITS;
use crate::text::{parsed_u32, decimal_of, decimal_u64};

verus! {

broadcast use vstd::seq_lib::group_to_multiset_ensures;

// ---------------------------------------------------------------- CSV records

/// A CSV failure reported by the reader: its line, when known, and message.
#[derive(Debug, Clone, PartialEq)]
pub struct CsvFailure {
    pub line: Option<u64>,
    pub reason: String,
}

/// One CSV record: its line and its trimmed fields.
#[derive(Debug, Clone, PartialEq)]
pub struct CsvRecord {
    pub line: u64,
    pub fields: Vec<String>,
}

/// The header row and the records of a ratings CSV, in file order.
#[derive(Debug)]
pub struct RatingsTable {
    pub headers: Result<Vec<String>, CsvFailure>,
    pub records: Vec<Result<CsvRecord, CsvFailure>>,
}

/// A CSV failure as plain values.
pub ghost struct FailureView {
    pub line: Option<u64>,
    pub reason: Seq<char>,
}

/// A CSV record as plain values.
pub ghost struct RecordView {
    pub line: u64,
    pub fields: Seq<Seq<char>>,
}

/// A ratings table as plain values.
pub ghost struct TableView {
    pub headers: Result<Seq<Seq<char>>, FailureView>,
    pub records: Seq<Result<RecordView, FailureView>>,
}

/// The texts of a list of strings.
pub open spec fn texts(v: Seq<String>) -> Seq<Seq<char>> {
    v.map_values(|s: String| s@)
}

/// A failure as plain values.
pub open spec fn failure_view(f: CsvFailure) -> FailureView {
    FailureView { line: f.line, reason: f.reason@ }
}

/// A record (or its failure) as plain values.
pub open spec fn record_view(r: Result<CsvRecord, CsvFailure>) -> Result<RecordView, FailureView> {
    match r {
        Ok(rec) => Ok(RecordView { line: rec.line, fields: texts(rec.fields@) }),
        Err(f) => Err(failure_view(f)),
    }
}

/// A table as plain values.
pub open spec fn table_view(t: RatingsTable) -> TableView {
    TableView {
        headers: match t.headers {
            Ok(h) => Ok(texts(h@)),
            Err(f) => Err(failure_view(f)),
        },
        records: t.records@.map_values(|r: Result<CsvRecord, CsvFailure>| record_view(r)),
    }
}

/// What the `csv` reader (all fields trimmed, first row taken as headers,
/// records of equal length) yields for a text.
pub uninterp spec fn csv_table_of(bytes: Seq<u8>) -> TableView;

/// Reads a ratings CSV with the `csv` crate: a reader built by
/// `csv::ReaderBuilder` with `Trim::All`, its `headers()`, then every item of
/// `records()`, each record with the line of its position. The contract claims
/// that the result is a function of the bytes, and, as the crate documents for
/// a reader that is not flexible, that every record read has as many fields as
/// the header row.
#[verifier::external_body]
fn read_ratings_table(bytes: &[u8]) -> (table: RatingsTable)
    ensures
        table_view(table) == csv_table_of(bytes@),
        table.headers matches Ok(h) ==> forall|k: int| 0 <= k < table.records@.len()
            ==> (#[trigger] table.records@[k] matches Ok(r) ==> r.fields@.len() == h@.len()),
{
    let fail = |e: csv::Error| CsvFailure { line: e.position().map(csv::Position::line), reason: e.to_string() };
    let mut reader = csv::ReaderBuilder::new().trim(csv::Trim::All).from_reader(bytes);
    let headers = reader.headers().map(|h| h.iter().map(str::to_owned).collect()).map_err(fail);
    let records = reader.records().map(|r| r.map(|rec| CsvRecord {
        line: rec.position().map_or(0, csv::Position::line),
        fields: rec.iter().map(str::to_owned).collect(),
    }).map_err(fail)).collect();
    RatingsTable { headers, records }
}

// ---------------------------------------------------------------- errors

/// A precise, actionable import diagnostic.
#[derive(Debug, Clone, PartialEq)]
pub enum ImportError {
    CatalogJson { line: usize, column: usize, reason: String },
    DuplicateCatalogWork { work_id: WorkId },
    InvalidHeaders { expected: Vec<String>, found: Vec<String> },
    Csv { line: Option<u64>, reason: String },
    InvalidField { line: u64, field: &'static str, value: String, reason: &'static str },
    DuplicateRating { work_id: WorkId, first_line: u64, duplicate_line: u64 },
    UnknownWork { work_id: WorkId, line: u64 },
}

/// An import diagnostic as plain values.
pub ghost enum ImportFailure {
    CatalogJson { line: usize, column: usize, reason: Seq<char> },
    DuplicateCatalogWork { work_id: WorkId },
    InvalidHeaders { expected: Seq<Seq<char>>, found: Seq<Seq<char>> },
    Csv { line: Option<u64>, reason: Seq<char> },
    InvalidField { line: u64, field: Seq<char>, value: Seq<char>, reason: Seq<char> },
    DuplicateRating { work_id: WorkId, first_line: u64, duplicate_line: u64 },
    UnknownWork { work_id: WorkId, line: u64 },
}

/// An import diagnostic as plain values.
pub open spec fn failure_of(e: ImportError) -> ImportFailure {
    match e {
        ImportError::CatalogJson { line, column, reason } => ImportFailure::CatalogJson { line, column, reason: reason@ },
        ImportError::DuplicateCatalogWork { work_id } => ImportFailure::DuplicateCatalogWork { work_id },
        ImportError::InvalidHeaders { expected, found } => ImportFailure::InvalidHeaders {
            expected: texts(expected@),
            found: texts(found@),
        },
        ImportError::Csv { line, reason } => ImportFailure::Csv { line, reason: reason@ },
        ImportError::InvalidField { line, field, value, reason } => ImportFailure::InvalidField {
            line,
            field: field@,
            value: value@,
            reason: reason@,
        },
        ImportError::DuplicateRating { work_id, first_line, duplicate_line } => ImportFailure::DuplicateRating {
            work_id,
            first_line,
            duplicate_line,
        },
        ImportError::UnknownWork { work_id, line } => ImportFailure::UnknownWork { work_id, line },
    }
}

// ---------------------------------------------------------------- rows

/// The six columns of the ratings CSV, in order.
pub open spec fn expected_headers() -> Seq<Seq<char>> {
    seq!["work_id"@, "rating"@, "status"@, "drop_position"@, "total_episodes"@, "rewatches"@]
}

/// The viewing status of a row.
pub ghost enum StatusView {
    Completed,
    Dropped { position: u32, total: u32 },
}

/// A validated row as plain values.
pub ghost struct EntryView {
    pub work_id: u32,
    pub rating_bits: u64,
    pub status: StatusView,
    pub rewatches: u32,
    pub line: u64,
}

/// A field diagnostic.
pub open spec fn invalid_field(line: u64, field: Seq<char>, value: Seq<char>, reason: Seq<char>) -> ImportFailure {
    ImportFailure::InvalidField { line, field, value, reason }
}

/// The rule for the `status`, `drop_position` and `total_episodes` columns.
pub open spec fn status_outcome(status: Seq<char>, position: Seq<char>, total: Seq<char>, line: u64) -> Result<StatusView, ImportFailure> {
    let both = "drop_position,total_episodes"@;
    if status == "completed"@ {
        if position.len() > 0 || total.len() > 0 {
            Err(invalid_field(line, both, position + seq![','] + total, "must both be empty when status is completed"@))
        } else {
            Ok(StatusView::Completed)
        }
    } else if status == "dropped"@ {
        if position.len() == 0 || total.len() == 0 {
            Err(invalid_field(line, both, position + seq![','] + total, "must both be provided when status is dropped"@))
        } else {
            match parsed_u32(position) {
                None => Err(invalid_field(line, "drop_position"@, position, "must be a non-negative integer"@)),
                Some(p) => match parsed_u32(total) {
                    None => Err(invalid_field(line, "total_episodes"@, total, "must be a non-negative integer"@)),
                    Some(t) => if t > 0 && p < t {
                        Ok(StatusView::Dropped { position: p, total: t })
                    } else {
                        Err(invalid_field(
                            line,
                            both,
                            decimal_of(p as nat) + seq![','] + decimal_of(t as nat),
                            "drop position must be lower than a non-zero total"@,
                        ))
                    },
                },
            }
        }
    } else {
        Err(invalid_field(line, "status"@, status, "must be completed or dropped"@))
    }
}

/// The rule for one row of six fields, given the number read from its
/// `rating` field.
pub open spec fn row_outcome(fields: Seq<Seq<char>>, number: Option<u64>, line: u64) -> Result<EntryView, ImportFailure> {
    match parsed_u32(fields[0]) {
        None => Err(invalid_field(line, "work_id"@, fields[0], "must be a non-negative integer"@)),
        Some(id) => if id == 0 {
            Err(invalid_field(line, "work_id"@, fields[0], "must be greater than zero"@))
        } else {
            match number {
                None => Err(invalid_field(line, "rating"@, fields[1], "must be a number"@)),
                Some(bits) => if range_check("rating", bits, TEN_BITS) is Err {
                    Err(invalid_field(line, "rating"@, fields[1], "must be a finite number between 0 and 10"@))
                } else {
                    match status_outcome(fields[2], fields[3], fields[4], line) {
                        Err(e) => Err(e),
                        Ok(status) => if fields[5].len() == 0 {
                            Ok(EntryView { work_id: id, rating_bits: bits, status, rewatches: 0, line })
                        } else {
                            match parsed_u32(fields[5]) {
                                None => Err(invalid_field(line, "rewatches"@, fields[5], "must be a non-negative integer"@)),
                                Some(r) => Ok(EntryView { work_id: id, rating_bits: bits, status, rewatches: r, line }),
                            }
                        },
                    }
                }
            }
        },
    }
}

/// A row, or the CSV failure in its place.
pub open spec fn record_entry(table: TableView, numbers: Seq<Option<u64>>, k: int) -> Result<EntryView, ImportFailure> {
    match table.records[k] {
        Err(f) => Err(ImportFailure::Csv { line: f.line, reason: f.reason }),
        Ok(r) => row_outcome(r.fields, numbers[k], r.line),
    }
}

/// A catalog holds a work with this identifier.
pub open spec fn catalog_has(catalog: Seq<NormalizedWork>, id: u32) -> bool {
    exists|i: int| 0 <= i < catalog.len() && (#[trigger] catalog[i]).spec_id().spec_value() == id
}

/// Row `j` is a valid row that rates work `id`.
pub open spec fn rates(table: TableView, numbers: Seq<Option<u64>>, j: int, id: u32) -> bool {
    record_entry(table, numbers, j) is Ok && record_entry(table, numbers, j)->Ok_0.work_id == id
}

/// An earlier row rates the same work.
pub open spec fn rated_before(table: TableView, numbers: Seq<Option<u64>>, k: int, id: u32) -> bool {
    exists|j: int| 0 <= j < k && #[trigger] rates(table, numbers, j, id)
}

/// The rule for row `k`, all earlier rows being accepted.
pub open spec fn record_outcome(catalog: Seq<NormalizedWork>, table: TableView, numbers: Seq<Option<u64>>, k: int) -> Result<EntryView, ImportFailure> {
    match record_entry(table, numbers, k) {
        Err(e) => Err(e),
        Ok(e) => if rated_before(table, numbers, k, e.work_id) {
            let j = choose|j: int| 0 <= j < k && #[trigger] rates(table, numbers, j, e.work_id);
            Err(ImportFailure::DuplicateRating {
                work_id: work_id_of(e.work_id),
                first_line: record_entry(table, numbers, j)->Ok_0.line,
                duplicate_line: e.line,
            })
        } else if !catalog_has(catalog, e.work_id) {
            Err(ImportFailure::UnknownWork { work_id: work_id_of(e.work_id), line: e.line })
        } else {
            Ok(e)
        },
    }
}

/// The identifier with a raw value (a positive one).
pub open spec fn work_id_of(value: u32) -> WorkId {
    choose|id: WorkId| id.spec_value() == value
}

proof fn lemma_work_id_of(w: WorkId)
    ensures
        work_id_of(w.spec_value()) == w,
{
    let v = w.spec_value();
    assert(exists|x: WorkId| #[trigger] x.spec_value() == v) by {
        assert(w.spec_value() == v);
    }
    WorkId::lemma_value_injective(w, work_id_of(w.spec_value()));
}

/// Every row before `k` is accepted.
pub open spec fn rows_accepted(catalog: Seq<NormalizedWork>, table: TableView, numbers: Seq<Option<u64>>, k: int) -> bool {
    forall|j: int| 0 <= j < k ==> #[trigger] record_outcome(catalog, table, numbers, j) is Ok
}

// ---------------------------------------------------------------- row parsing

/// The viewing status of an accepted row.
#[derive(Debug, Clone, Copy, PartialEq)]
enum ViewingStatus {
    Completed,
    Dropped(DropProgress),
}

/// An accepted row.
#[derive(Debug, Clone, Copy)]
struct RatingEntry {
    work_id: WorkId,
    rating: Rating,
    status: ViewingStatus,
    rewatches: u32,
    line: u64,
}

spec fn status_view(s: ViewingStatus) -> StatusView {
    match s {
        ViewingStatus::Completed => StatusView::Completed,
        ViewingStatus::Dropped(p) => StatusView::Dropped { position: p.spec_position(), total: p.spec_total() },
    }
}

spec fn entry_view(e: RatingEntry) -> EntryView {
    EntryView {
        work_id: e.work_id.spec_value(),
        rating_bits: e.rating.spec_bits(),
        status: status_view(e.status),
        rewatches: e.rewatches,
        line: e.line,
    }
}

fn invalid(line: u64, field: &'static str, value: String, reason: &'static str) -> (e: ImportError)
    ensures
        failure_of(e) == invalid_field(line, field@, value@, reason@),
{
    ImportError::InvalidField { line, field, value, reason }
}

fn same_text(a: &String, literal: &str) -> (equal: bool)
    ensures
        equal == (a@ == literal@),
{
    crate::text::text_equals(a.as_str(), literal)
}

fn parse_status(status: &String, position: &String, total: &String, line: u64) -> (result: Result<ViewingStatus, ImportError>)
    ensures
        match status_outcome(status@, position@, total@, line) {
            Ok(s) => result matches Ok(v) && status_view(v) == s,
            Err(f) => result matches Err(e) && failure_of(e) == f,
        },
{
    proof {
        reveal_strlit("completed");
        reveal_strlit("dropped");
        reveal_strlit("drop_position,total_episodes");
        reveal_strlit("drop_position");
        reveal_strlit("total_episodes");
        reveal_strlit("status");
    }
    let both = "drop_position,total_episodes";
    if same_text(status, "completed") {
        if !position.as_str().is_empty() || !total.as_str().is_empty() {
            return Err(invalid(line, both, crate::text::comma_join(position.as_str(), total.as_str()), "must both be empty when status is completed"));
        }
        Ok(ViewingStatus::Completed)
    } else if same_text(status, "dropped") {
        if position.as_str().is_empty() || total.as_str().is_empty() {
            return Err(invalid(line, both, crate::text::comma_join(position.as_str(), total.as_str()), "must both be provided when status is dropped"));
        }
        let p = match crate::text::parse_u32(position.as_str()) {
            Some(p) => p,
            None => return Err(invalid(line, "drop_position", position.clone(), "must be a non-negative integer")),
        };
        let t = match crate::text::parse_u32(total.as_str()) {
            Some(t) => t,
            None => return Err(invalid(line, "total_episodes", total.clone(), "must be a non-negative integer")),
        };
        match DropProgress::new(p, t) {
            Ok(progress) => Ok(ViewingStatus::Dropped(progress)),
            Err(_) => {
                let pt = crate::text::decimal(p);
                let tt = crate::text::decimal(t);
                Err(invalid(line, both, crate::text::comma_join(pt.as_str(), tt.as_str()), "drop position must be lower than a non-zero total"))
            },
        }
    } else {
        Err(invalid(line, "status", status.clone(), "must be completed or dropped"))
    }
}

fn parse_row(fields: &Vec<String>, number: Option<u64>, line: u64) -> (result: Result<RatingEntry, ImportError>)
    requires
        fields@.len() == 6,
    ensures
        match row_outcome(texts(fields@), number, line) {
            Ok(e) => result matches Ok(v) && entry_view(v) == e,
            Err(f) => result matches Err(e) && failure_of(e) == f,
        },
{
    proof {
        reveal_strlit("work_id");
        reveal_strlit("rating");
        reveal_strlit("rewatches");
    }
    let raw_id = match crate::text::parse_u32(fields[0].as_str()) {
        Some(v) => v,
        None => return Err(invalid(line, "work_id", fields[0].clone(), "must be a non-negative integer")),
    };
    let work_id = match WorkId::new(raw_id) {
        Ok(id) => id,
        Err(_) => return Err(invalid(line, "work_id", fields[0].clone(), "must be greater than zero")),
    };
    let bits = match number {
        Some(b) => b,
        None => return Err(invalid(line, "rating", fields[1].clone(), "must be a number")),
    };
    let rating = match Rating::new(bits) {
        Ok(r) => r,
        Err(_) => return Err(invalid(line, "rating", fields[1].clone(), "must be a finite number between 0 and 10")),
    };
    let status = parse_status(&fields[2], &fields[3], &fields[4], line)?;
    let rewatches = if fields[5].as_str().is_empty() {
        0
    } else {
        match crate::text::parse_u32(fields[5].as_str()) {
            Some(r) => r,
            None => return Err(invalid(line, "rewatches", fields[5].clone(), "must be a non-negative integer")),
        }
    };
    Ok(RatingEntry { work_id, rating, status, rewatches, line })
}

// ---------------------------------------------------------------- dataset

/// A viewing event as plain values.
pub ghost enum EventView {
    Completed { work_id: u32 },
    Dropped { work_id: u32, position: u32, total: u32 },
    Rewatched { work_id: u32 },
}

/// An event as plain values.
pub open spec fn event_view(e: WatchEvent) -> EventView {
    match e {
        WatchEvent::Completed { work_id } => EventView::Completed { work_id: work_id.spec_value() },
        WatchEvent::Dropped { work_id, progress } => EventView::Dropped {
            work_id: work_id.spec_value(),
            position: progress.spec_position(),
            total: progress.spec_total(),
        },
        WatchEvent::Rewatched { work_id } => EventView::Rewatched { work_id: work_id.spec_value() },
    }
}

/// Events as plain values.
pub open spec fn event_views(events: Seq<WatchEvent>) -> Seq<EventView> {
    events.map_values(|e: WatchEvent| event_view(e))
}

/// The events a row stands for: its status, then one event per rewatch.
pub open spec fn entry_events(e: EntryView) -> Seq<EventView> {
    let first = match e.status {
        StatusView::Completed => EventView::Completed { work_id: e.work_id },
        StatusView::Dropped { position, total } => EventView::Dropped { work_id: e.work_id, position, total },
    };
    seq![first] + Seq::new(e.rewatches as nat, |i: int| EventView::Rewatched { work_id: e.work_id })
}

/// The events of rows, row after row.
pub open spec fn events_of(es: Seq<EntryView>) -> Seq<EventView>
    decreases es.len(),
{
    if es.len() == 0 {
        Seq::empty()
    } else {
        events_of(es.drop_last()) + entry_events(es.last())
    }
}

/// The raw identifiers of works.
pub open spec fn work_ids(works: Seq<NormalizedWork>) -> Seq<u32> {
    works.map_values(|w: NormalizedWork| w.spec_id().spec_value())
}

/// No value repeats.
pub open spec fn distinct_values(s: Seq<u32>) -> bool {
    forall|a: int, b: int| 0 <= a < b < s.len() ==> s[a] != s[b]
}

/// `j` is the first position whose value repeats an earlier one.
pub open spec fn is_first_repeat(s: Seq<u32>, j: int) -> bool {
    &&& 0 <= j < s.len()
    &&& exists|i: int| 0 <= i < j && s[i] == s[j]
    &&& forall|a: int, b: int| 0 <= a < b < j ==> s[a] != s[b]
}

/// Works in strictly increasing identifier order.
pub open spec fn works_by_id(works: Seq<NormalizedWork>) -> bool {
    forall|i: int, j: int| 0 <= i < j < works.len() ==> (#[trigger] works[i]).spec_id().spec_value() < (#[trigger] works[j]).spec_id().spec_value()
}

/// Rows in strictly increasing identifier order.
pub open spec fn entries_by_id(es: Seq<EntryView>) -> bool {
    forall|i: int, j: int| 0 <= i < j < es.len() ==> (#[trigger] es[i]).work_id < (#[trigger] es[j]).work_id
}

/// A rating record is the one a row stands for.
pub open spec fn rating_of_entry(r: RatingRecord, e: EntryView) -> bool {
    &&& r.spec_work_id().spec_value() == e.work_id
    &&& r.spec_rating().spec_bits() == e.rating_bits
    &&& r.spec_aspects().len() == 0
}

/// The accepted rows of a table, in file order.
pub open spec fn accepted_entries(table: TableView, numbers: Seq<Option<u64>>) -> Seq<EntryView> {
    Seq::new(table.records.len(), |k: int| record_entry(table, numbers, k)->Ok_0)
}

/// A ratings table whose records all have as many fields as its header row,
/// as the `csv` reader yields them.
pub open spec fn table_consistent(t: RatingsTable) -> bool {
    t.headers matches Ok(h) ==> forall|k: int| 0 <= k < t.records@.len()
        ==> (#[trigger] t.records@[k] matches Ok(r) ==> r.fields@.len() == h@.len())
}

/// A validated local dataset, ready for the offline engine.
///
/// The catalog, the ratings and the events are ordered by AniList identifier,
/// whatever the order of the CSV rows.
#[derive(Debug, PartialEq)]
pub struct OfflineDataset {
    catalog: Vec<NormalizedWork>,
    ratings: Vec<RatingRecord>,
    events: Vec<WatchEvent>,
}

/// The dataset built from a catalog and accepted rows: the catalog by
/// identifier, one rating without credits per row and the rows' events, both
/// in identifier order.
pub open spec fn built_from(d: OfflineDataset, catalog: Seq<NormalizedWork>, entries: Seq<EntryView>) -> bool {
    &&& works_by_id(d.spec_catalog())
    &&& d.spec_catalog().to_multiset() =~= catalog.to_multiset()
    &&& exists|sorted: Seq<EntryView>| #[trigger] built_with(d, entries, sorted)
}

/// The ratings and events of a dataset are those of `sorted`: the rows in
/// increasing identifier order.
pub open spec fn built_with(d: OfflineDataset, entries: Seq<EntryView>, sorted: Seq<EntryView>) -> bool {
    &&& sorted.to_multiset() =~= entries.to_multiset()
    &&& entries_by_id(sorted)
    &&& d.spec_ratings().len() == sorted.len()
    &&& (forall|i: int| 0 <= i < sorted.len() ==> rating_of_entry(#[trigger] d.spec_ratings()[i], sorted[i]))
    &&& event_views(d.spec_events()) == events_of(sorted)
}

/// What a row says about its work, whatever line it stands on.
pub open spec fn row_content(e: EntryView) -> (u32, u64, StatusView, u32) {
    (e.work_id, e.rating_bits, e.status, e.rewatches)
}

proof fn lemma_events_of_contents(a: Seq<EntryView>, b: Seq<EntryView>)
    requires
        a.len() == b.len(),
        forall|i: int| 0 <= i < a.len() ==> row_content(#[trigger] a[i]) == row_content(b[i]),
    ensures
        events_of(a) == events_of(b),
    decreases a.len(),
{
    if a.len() > 0 {
        assert forall|i: int| 0 <= i < a.drop_last().len() implies row_content(#[trigger] a.drop_last()[i]) == row_content(b.drop_last()[i]) by {
            assert(row_content(a[i]) == row_content(b[i]));
        }
        lemma_events_of_contents(a.drop_last(), b.drop_last());
        assert(row_content(a[a.len() - 1]) == row_content(b[b.len() - 1]));
        assert(entry_events(a.last()) =~= entry_events(b.last()));
    }
}

/// The order of the rows, and the lines they stand on, do not matter: two
/// imports built from the same catalog works and the same rows, each in any
/// order, hold the same catalog, the same ratings and the same events.
pub proof fn lemma_import_order_independent(
    d1: OfflineDataset,
    d2: OfflineDataset,
    catalog1: Seq<NormalizedWork>,
    catalog2: Seq<NormalizedWork>,
    entries1: Seq<EntryView>,
    entries2: Seq<EntryView>,
)
    requires
        built_from(d1, catalog1, entries1),
        built_from(d2, catalog2, entries2),
        catalog1.to_multiset() =~= catalog2.to_multiset(),
        entries1.map_values(|e: EntryView| row_content(e)).to_multiset()
            =~= entries2.map_values(|e: EntryView| row_content(e)).to_multiset(),
    ensures
        d1.spec_catalog() == d2.spec_catalog(),
        d1.spec_ratings().len() == d2.spec_ratings().len(),
        forall|i: int| 0 <= i < d1.spec_ratings().len() ==> {
            &&& (#[trigger] d1.spec_ratings()[i]).spec_work_id() == d2.spec_ratings()[i].spec_work_id()
            &&& d1.spec_ratings()[i].spec_rating().spec_bits() == d2.spec_ratings()[i].spec_rating().spec_bits()
            &&& d1.spec_ratings()[i].spec_aspects() == d2.spec_ratings()[i].spec_aspects()
        },
        event_views(d1.spec_events()) == event_views(d2.spec_events()),
{
    let s1 = choose|s: Seq<EntryView>| #[trigger] built_with(d1, entries1, s);
    let s2 = choose|s: Seq<EntryView>| #[trigger] built_with(d2, entries2, s);
    let f = |e: EntryView| row_content(e);
    crate::sort::lemma_map_multiset(s1, entries1, f);
    crate::sort::lemma_map_multiset(s2, entries2, f);
    let c1 = s1.map_values(f);
    let c2 = s2.map_values(f);
    let key = |c: (u32, u64, StatusView, u32)| c.0 as int;
    assert forall|i: int, j: int| 0 <= i < j < c1.len() implies key(#[trigger] c1[i]) < key(#[trigger] c1[j]) by {
        assert(s1[i].work_id < s1[j].work_id);
    }
    assert forall|i: int, j: int| 0 <= i < j < c2.len() implies key(#[trigger] c2[i]) < key(#[trigger] c2[j]) by {
        assert(s2[i].work_id < s2[j].work_id);
    }
    crate::sort::lemma_strictly_sorted_unique(c1, c2, key);
    let id = |w: NormalizedWork| w.spec_id().spec_value() as int;
    let w1 = d1.spec_catalog();
    let w2 = d2.spec_catalog();
    assert forall|i: int, j: int| 0 <= i < j < w1.len() implies id(#[trigger] w1[i]) < id(#[trigger] w1[j]) by {
        assert(w1[i].spec_id().spec_value() < w1[j].spec_id().spec_value());
    }
    assert forall|i: int, j: int| 0 <= i < j < w2.len() implies id(#[trigger] w2[i]) < id(#[trigger] w2[j]) by {
        assert(w2[i].spec_id().spec_value() < w2[j].spec_id().spec_value());
    }
    crate::sort::lemma_strictly_sorted_unique(w1, w2, id);
    assert forall|i: int| 0 <= i < d1.spec_ratings().len() implies {
        &&& (#[trigger] d1.spec_ratings()[i]).spec_work_id() == d2.spec_ratings()[i].spec_work_id()
        &&& d1.spec_ratings()[i].spec_rating().spec_bits() == d2.spec_ratings()[i].spec_rating().spec_bits()
        &&& d1.spec_ratings()[i].spec_aspects() == d2.spec_ratings()[i].spec_aspects()
    } by {
        assert(c1[i] == c2[i]);
        assert(rating_of_entry(d1.spec_ratings()[i], s1[i]));
        assert(rating_of_entry(d2.spec_ratings()[i], s2[i]));
        WorkId::lemma_value_injective(d1.spec_ratings()[i].spec_work_id(), d2.spec_ratings()[i].spec_work_id());
        assert(d1.spec_ratings()[i].spec_aspects() =~= d2.spec_ratings()[i].spec_aspects());
    }
    assert forall|i: int| 0 <= i < s1.len() implies row_content(#[trigger] s1[i]) == row_content(s2[i]) by {
        assert(c1[i] == c2[i]);
    }
    lemma_events_of_contents(s1, s2);
}

fn same_u32s_ordered_before(ids: &Vec<u32>, j: usize) -> (found: bool)
    requires
        j < ids@.len(),
    ensures
        found == exists|i: int| 0 <= i < j && ids@[i] == ids@[j as int],
{
    let mut i: usize = 0;
    while i < j
        invariant
            j < ids@.len(),
            i <= j,
            forall|x: int| 0 <= x < i ==> ids@[x] != ids@[j as int],
        decreases j - i,
    {
        if ids[i] == ids[j] {
            return true;
        }
        i = i + 1;
    }
    false
}

fn expected_header_texts() -> (headers: Vec<String>)
    ensures
        texts(headers@) == expected_headers(),
{
    proof {
        reveal_strlit("work_id");
        reveal_strlit("rating");
        reveal_strlit("status");
        reveal_strlit("drop_position");
        reveal_strlit("total_episodes");
        reveal_strlit("rewatches");
    }
    let mut v: Vec<String> = Vec::new();
    v.push(String::from_str("work_id"));
    v.push(String::from_str("rating"));
    v.push(String::from_str("status"));
    v.push(String::from_str("drop_position"));
    v.push(String::from_str("total_episodes"));
    v.push(String::from_str("rewatches"));
    assert(texts(v@) =~= expected_headers());
    v
}

fn same_texts(a: &Vec<String>, b: &Vec<String>) -> (equal: bool)
    ensures
        equal == (texts(a@) == texts(b@)),
{
    if a.len() != b.len() {
        assert(texts(a@).len() != texts(b@).len());
        return false;
    }
    let mut i: usize = 0;
    while i < a.len()
        invariant
            a@.len() == b@.len(),
            i <= a@.len(),
            forall|k: int| 0 <= k < i ==> a@[k]@ == b@[k]@,
        decreases a.len() - i,
    {
        if a[i] != b[i] {
            assert(texts(a@)[i as int] != texts(b@)[i as int]);
            return false;
        }
        i = i + 1;
    }
    assert(texts(a@) =~= texts(b@));
    true
}

/// Refuses a catalog in which an identifier repeats, naming the first repeat.
fn check_catalog_ids(catalog: &Vec<NormalizedWork>) -> (result: Result<Vec<u32>, ImportError>)
    ensures
        distinct_values(work_ids(catalog@)) <==> result is Ok,
        result matches Ok(ids) ==> ids@ == work_ids(catalog@),
        !distinct_values(work_ids(catalog@)) ==> exists|j: int| #[trigger] is_first_repeat(work_ids(catalog@), j)
            && (result matches Err(e) && failure_of(e) == (ImportFailure::DuplicateCatalogWork { work_id: catalog@[j].spec_id() })),
{
    let mut ids: Vec<u32> = Vec::new();
    let mut c: usize = 0;
    while c < catalog.len()
        invariant
            c <= catalog@.len(),
            ids@ == work_ids(catalog@).take(c as int),
        decreases catalog.len() - c,
    {
        ids.push(catalog[c].id().get());
        assert(work_ids(catalog@).take(c + 1) =~= work_ids(catalog@).take(c as int).push(work_ids(catalog@)[c as int]));
        c = c + 1;
    }
    assert(work_ids(catalog@).take(catalog@.len() as int) =~= work_ids(catalog@));
    let mut j: usize = 0;
    while j < ids.len()
        invariant
            ids@ == work_ids(catalog@),
            j <= ids@.len(),
            forall|a: int, b: int| 0 <= a < b < j ==> ids@[a] != ids@[b],
        decreases ids.len() - j,
    {
        if same_u32s_ordered_before(&ids, j) {
            assert(is_first_repeat(work_ids(catalog@), j as int));
            return Err(ImportError::DuplicateCatalogWork { work_id: catalog[j].id() });
        }
        j = j + 1;
    }
    assert(distinct_values(work_ids(catalog@)));
    Ok(ids)
}

/// Orders a catalog with distinct identifiers by identifier.
fn order_by_id(catalog: Vec<NormalizedWork>) -> (ordered: Vec<NormalizedWork>)
    requires
        distinct_values(work_ids(catalog@)),
    ensures
        works_by_id(ordered@),
        ordered@.to_multiset() =~= catalog@.to_multiset(),
{
    let ghost original = catalog@;
    let mut catalog = catalog;
    let mut keyed: Vec<((u64, u64, u64), NormalizedWork)> = Vec::new();
    let mut c: usize = 0;
    let n = catalog.len();
    while c < n
        invariant
            n == original.len(),
            c <= n,
            c + catalog@.len() == original.len(),
            catalog@ == original.subrange(c as int, original.len() as int),
            keyed@.len() == c,
            forall|x: int| 0 <= x < c ==> #[trigger] keyed@[x] == ((original[x].spec_id().spec_value() as u64, 0u64, 0u64), original[x]),
        decreases catalog.len(),
    {
        let w = catalog.remove(0);
        let id = w.id().get();
        keyed.push(((id as u64, 0, 0), w));
        assert(catalog@ =~= original.subrange(c + 1, original.len() as int));
        c = c + 1;
    }
    let ghost keyed_view = keyed@;
    assert(crate::sort::items_of(keyed_view) =~= original);
    let sorted_catalog = crate::sort::sort_by_key(keyed);
    let ghost sorted_view = sorted_catalog@;
    proof {
        assert forall|a: int, b: int| 0 <= a < b < keyed_view.len() implies keyed_view[a].0 != keyed_view[b].0 by {
            assert(work_ids(original)[a] != work_ids(original)[b]);
        }
        crate::sort::lemma_sorted_distinct_keys(sorted_view, keyed_view);
        crate::sort::lemma_map_multiset(sorted_view, keyed_view, |p: ((u64, u64, u64), NormalizedWork)| p.1);
    }
    let catalog = crate::sort::strip_keys(sorted_catalog);
    proof {
        assert forall|i: int, j: int| 0 <= i < j < catalog@.len() implies (#[trigger] catalog@[i]).spec_id().spec_value() < (#[trigger] catalog@[j]).spec_id().spec_value() by {
            assert(crate::sort::key_less(sorted_view[i].0, sorted_view[j].0));
            let a = crate::sort::lemma_member_of_permutation(sorted_view, keyed_view, i);
            let b = crate::sort::lemma_member_of_permutation(sorted_view, keyed_view, j);
        }
    }
    catalog
}

proof fn lemma_accepted_ids_distinct(catalog: Seq<NormalizedWork>, table: TableView, numbers: Seq<Option<u64>>, k: int)
    requires
        rows_accepted(catalog, table, numbers, k),
    ensures
        forall|a: int, b: int| 0 <= a < b < k ==> record_entry(table, numbers, a)->Ok_0.work_id != record_entry(table, numbers, b)->Ok_0.work_id,
{
    assert forall|a: int, b: int| 0 <= a < b < k implies record_entry(table, numbers, a)->Ok_0.work_id != record_entry(table, numbers, b)->Ok_0.work_id by {
        assert(record_outcome(catalog, table, numbers, b) is Ok);
        assert(record_outcome(catalog, table, numbers, a) is Ok);
        if record_entry(table, numbers, a)->Ok_0.work_id == record_entry(table, numbers, b)->Ok_0.work_id {
            assert(rates(table, numbers, a, record_entry(table, numbers, b)->Ok_0.work_id));
        }
    }
}

/// Stable counters shown after a successful import.
#[derive(Debug, Clone, Copy, PartialEq, Eq)]
pub struct ImportSummary {
    pub catalog: usize,
    pub ratings: usize,
    pub completed: usize,
    pub dropped: usize,
    pub rewatches: usize,
}

/// The number of events of one kind (`0` completed, `1` dropped, `2` rewatched).
pub open spec fn count_kind(events: Seq<WatchEvent>, kind: int) -> nat
    decreases events.len(),
{
    if events.len() == 0 {
        0
    } else {
        let last = match events.last() {
            WatchEvent::Completed { .. } => 0int,
            WatchEvent::Dropped { .. } => 1int,
            WatchEvent::Rewatched { .. } => 2int,
        };
        count_kind(events.drop_last(), kind) + if last == kind { 1nat } else { 0nat }
    }
}

impl OfflineDataset {
    /// The catalog.
    pub closed spec fn spec_catalog(self) -> Seq<NormalizedWork> {
        self.catalog@
    }

    #[verifier::type_invariant]
    closed spec fn by_identifier(self) -> bool {
        works_by_id(self.catalog@)
    }

    /// Builds a dataset from values already in memory: the catalog is
    /// ordered by identifier, the ratings and the events are kept as given.
    /// A catalog identifier that repeats is refused.
    pub fn from_parts(catalog: Vec<NormalizedWork>, ratings: Vec<RatingRecord>, events: Vec<WatchEvent>) -> (result: Result<OfflineDataset, ImportError>)
        ensures
            !distinct_values(work_ids(catalog@)) ==> exists|j: int| #[trigger] is_first_repeat(work_ids(catalog@), j)
                && (result matches Err(e) && failure_of(e) == (ImportFailure::DuplicateCatalogWork { work_id: catalog@[j].spec_id() })),
            distinct_values(work_ids(catalog@)) ==> (result matches Ok(d)
                && works_by_id(d.spec_catalog())
                && d.spec_catalog().to_multiset() =~= catalog@.to_multiset()
                && d.spec_ratings() == ratings@
                && d.spec_events() == events@),
    {
        let _ = check_catalog_ids(&catalog)?;
        let catalog = order_by_id(catalog);
        Ok(OfflineDataset { catalog, ratings, events })
    }

    /// The ratings.
    pub closed spec fn spec_ratings(self) -> Seq<RatingRecord> {
        self.ratings@
    }

    /// The events.
    pub closed spec fn spec_events(self) -> Seq<WatchEvent> {
        self.events@
    }

    /// Imports the rating history against the catalog snapshot.
    ///
    /// `numbers[k]` is the binary64 pattern of the number written in the
    /// `rating` field of record `k`, or nothing when that field is no number.
    /// The first failing check gives the error: a catalog identifier that
    /// repeats, a CSV failure of the header row, headers other than the six
    /// expected columns, then, row after row, a CSV failure, an invalid field,
    /// a work rated twice or a work absent from the catalog.
    #[verifier::loop_isolation(false)]
    #[verifier::rlimit(40)]
    pub fn import_table(table: &RatingsTable, numbers: &Vec<Option<u64>>, catalog: Vec<NormalizedWork>) -> (result: Result<OfflineDataset, ImportError>)
        requires
            numbers@.len() == table.records@.len(),
            table_consistent(*table),
        ensures
            !distinct_values(work_ids(catalog@)) ==> exists|j: int| #[trigger] is_first_repeat(work_ids(catalog@), j)
                && (result matches Err(e) && failure_of(e) == (ImportFailure::DuplicateCatalogWork { work_id: catalog@[j].spec_id() })),
            distinct_values(work_ids(catalog@)) ==> match table_view(*table).headers {
                Err(f) => result matches Err(e) && failure_of(e) == (ImportFailure::Csv { line: f.line, reason: f.reason }),
                Ok(h) => if h != expected_headers() {
                    result matches Err(e) && failure_of(e) == (ImportFailure::InvalidHeaders { expected: expected_headers(), found: h })
                } else if rows_accepted(catalog@, table_view(*table), numbers@, table.records@.len() as int) {
                    result matches Ok(d) && built_from(d, catalog@, accepted_entries(table_view(*table), numbers@))
                } else {
                    exists|k: int| 0 <= k < table.records@.len() && rows_accepted(catalog@, table_view(*table), numbers@, k)
                        && #[trigger] record_outcome(catalog@, table_view(*table), numbers@, k) is Err
                        && (result matches Err(e) && failure_of(e) == record_outcome(catalog@, table_view(*table), numbers@, k)->Err_0)
                },
            },
    {
        let ghost t = table_view(*table);
        let ids = check_catalog_ids(&catalog)?;
        // headers
        let headers = match &table.headers {
            Err(f) => return Err(ImportError::Csv { line: f.line, reason: f.reason.clone() }),
            Ok(h) => h,
        };
        let expected = expected_header_texts();
        if !same_texts(headers, &expected) {
            return Err(ImportError::InvalidHeaders { expected, found: headers.clone() });
        }
        assert(t.headers == Ok::<Seq<Seq<char>>, FailureView>(expected_headers()));
        assert(headers@.len() == texts(headers@).len());
        // rows
        let mut entries: Vec<RatingEntry> = Vec::new();
        let mut k: usize = 0;
        while k < table.records.len()
            invariant
                t == table_view(*table),
                numbers@.len() == table.records@.len(),
                table_consistent(*table),
                table.headers matches Ok(h) && h@.len() == 6,
                ids@ == work_ids(catalog@),
                k <= table.records@.len(),
                entries@.len() == k,
                rows_accepted(catalog@, t, numbers@, k as int),
                forall|x: int| 0 <= x < k ==> record_entry(t, numbers@, x) is Ok
                    && entry_view(#[trigger] entries@[x]) == record_entry(t, numbers@, x)->Ok_0,
            decreases table.records.len() - k,
        {
            assert(t.records[k as int] == record_view(table.records@[k as int]));
            let record = match &table.records[k] {
                Err(f) => {
                    let e = ImportError::Csv { line: f.line, reason: f.reason.clone() };
                    assert(record_outcome(catalog@, t, numbers@, k as int) is Err);
                    return Err(e);
                },
                Ok(r) => r,
            };
            assert(record.fields@.len() == 6);
            let entry = match parse_row(&record.fields, numbers[k], record.line) {
                Err(e) => {
                    assert(record_outcome(catalog@, t, numbers@, k as int) is Err);
                    return Err(e);
                },
                Ok(v) => v,
            };
            let id = entry.work_id.get();
            assert(record_entry(t, numbers@, k as int) == Ok::<EntryView, ImportFailure>(entry_view(entry)));
            proof { lemma_accepted_ids_distinct(catalog@, t, numbers@, k as int); }
            let mut x: usize = 0;
            while x < k
                invariant
                    x <= k,
                    k == entries@.len(),
                    k < t.records.len(),
                    id == entry_view(entry).work_id,
                    record_entry(t, numbers@, k as int) == Ok::<EntryView, ImportFailure>(entry_view(entry)),
                    forall|y: int| 0 <= y < k ==> record_entry(t, numbers@, y) is Ok
                        && entry_view(#[trigger] entries@[y]) == record_entry(t, numbers@, y)->Ok_0,
                    forall|y: int| 0 <= y < x ==> !rates(t, numbers@, y, id),
                    forall|a: int, b: int| 0 <= a < b < k ==> record_entry(t, numbers@, a)->Ok_0.work_id != record_entry(t, numbers@, b)->Ok_0.work_id,
                decreases k - x,
            {
                if entries[x].work_id.get() == id {
                    let first_line = entries[x].line;
                    proof {
                        assert(rates(t, numbers@, x as int, id));
                        assert(rated_before(t, numbers@, k as int, id));
                        let c = choose|c: int| 0 <= c < k && #[trigger] rates(t, numbers@, c, id);
                        assert(c == x);
                        lemma_work_id_of(entry.work_id);
                    }
                    return Err(ImportError::DuplicateRating { work_id: entry.work_id, first_line, duplicate_line: entry.line });
                }
                assert(!rates(t, numbers@, x as int, id));
                x = x + 1;
            }
            assert(!rated_before(t, numbers@, k as int, id));
            let mut m: usize = 0;
            let mut known = false;
            while m < ids.len()
                invariant
                    ids@ == work_ids(catalog@),
                    m <= ids@.len(),
                    known == exists|z: int| 0 <= z < m && ids@[z] == id,
                decreases ids.len() - m,
            {
                if ids[m] == id {
                    known = true;
                }
                m = m + 1;
            }
            if !known {
                proof {
                    lemma_work_id_of(entry.work_id);
                    if catalog_has(catalog@, id) {
                        let z = choose|z: int| 0 <= z < catalog@.len() && (#[trigger] catalog@[z]).spec_id().spec_value() == id;
                        assert(ids@[z] == id);
                    }
                }
                return Err(ImportError::UnknownWork { work_id: entry.work_id, line: entry.line });
            }
            proof {
                let z = choose|z: int| 0 <= z < m && ids@[z] == id;
                assert(catalog@[z].spec_id().spec_value() == id);
                assert(record_outcome(catalog@, t, numbers@, k as int) is Ok);
                assert forall|y: int| 0 <= y < k + 1 implies #[trigger] record_outcome(catalog@, t, numbers@, y) is Ok by {
                    if y < k {
                        assert(rows_accepted(catalog@, t, numbers@, k as int));
                    }
                }
            }
            entries.push(entry);
            k = k + 1;
        }
        proof {
            assert(accepted_entries(t, numbers@) =~= entries@.map_values(|e: RatingEntry| entry_view(e)));
            lemma_accepted_ids_distinct(catalog@, t, numbers@, k as int);
        }
        Ok(Self::assemble(catalog, entries))
    }

    fn assemble(catalog: Vec<NormalizedWork>, entries: Vec<RatingEntry>) -> (d: OfflineDataset)
        requires
            distinct_values(work_ids(catalog@)),
            forall|a: int, b: int| 0 <= a < b < entries@.len() ==> entries@[a].work_id.spec_value() != entries@[b].work_id.spec_value(),
        ensures
            built_from(d, catalog@, entries@.map_values(|e: RatingEntry| entry_view(e))),
    {
        let catalog = order_by_id(catalog);
        // rows by identifier
        let ghost entry_views = entries@.map_values(|e: RatingEntry| entry_view(e));
        let mut keyed_entries: Vec<((u64, u64, u64), RatingEntry)> = Vec::new();
        let mut e: usize = 0;
        while e < entries.len()
            invariant
                e <= entries@.len(),
                keyed_entries@.len() == e,
                forall|x: int| 0 <= x < e ==> #[trigger] keyed_entries@[x] == ((entries@[x].work_id.spec_value() as u64, 0u64, 0u64), entries@[x]),
            decreases entries.len() - e,
        {
            let id = entries[e].work_id.get();
            keyed_entries.push(((id as u64, 0, 0), entries[e]));
            e = e + 1;
        }
        let ghost keyed_entries_view = keyed_entries@;
        assert(crate::sort::items_of(keyed_entries_view) =~= entries@);
        let sorted_entries = crate::sort::sort_by_key(keyed_entries);
        let ghost sorted_entries_view = sorted_entries@;
        proof {
            crate::sort::lemma_sorted_distinct_keys(sorted_entries_view, keyed_entries_view);
            crate::sort::lemma_map_multiset(sorted_entries_view, keyed_entries_view, |p: ((u64, u64, u64), RatingEntry)| p.1);
        }
        let ordered = crate::sort::strip_keys(sorted_entries);
        let ghost sorted = ordered@.map_values(|x: RatingEntry| entry_view(x));
        proof {
            crate::sort::lemma_map_multiset(ordered@, entries@, |x: RatingEntry| entry_view(x));
            assert forall|i: int, j: int| 0 <= i < j < sorted.len() implies (#[trigger] sorted[i]).work_id < (#[trigger] sorted[j]).work_id by {
                assert(crate::sort::key_less(sorted_entries_view[i].0, sorted_entries_view[j].0));
                let a = crate::sort::lemma_member_of_permutation(sorted_entries_view, keyed_entries_view, i);
                let b = crate::sort::lemma_member_of_permutation(sorted_entries_view, keyed_entries_view, j);
            }
        }
        // ratings and events
        let mut ratings: Vec<RatingRecord> = Vec::new();
        let mut events: Vec<WatchEvent> = Vec::new();
        let mut i: usize = 0;
        while i < ordered.len()
            invariant
                sorted == ordered@.map_values(|x: RatingEntry| entry_view(x)),
                i <= ordered@.len(),
                ratings@.len() == i,
                forall|x: int| 0 <= x < i ==> rating_of_entry(#[trigger] ratings@[x], sorted[x]),
                event_views(events@) == events_of(sorted.take(i as int)),
            decreases ordered.len() - i,
        {
            let entry = ordered[i];
            let record = match RatingRecord::new(entry.work_id, entry.rating, Vec::new()) {
                Ok(r) => r,
                Err(_) => {
                    assert(crate::domain::axes_distinct(Seq::<crate::domain::AspectCredit>::empty()));
                    vstd::pervasive::unreached()
                },
            };
            proof {
                assert(record.spec_aspects().to_multiset().len() == 0);
            }
            ratings.push(record);
            let ghost before = events@;
            let first = match entry.status {
                ViewingStatus::Completed => WatchEvent::completed(entry.work_id),
                ViewingStatus::Dropped(p) => WatchEvent::dropped(entry.work_id, p),
            };
            events.push(first);
            let mut r: u32 = 0;
            while r < entry.rewatches
                invariant
                    r <= entry.rewatches,
                    event_views(events@) == event_views(before) + seq![event_view(first)]
                        + Seq::new(r as nat, |z: int| EventView::Rewatched { work_id: entry.work_id.spec_value() }),
                decreases entry.rewatches - r,
            {
                let ghost prior = events@;
                events.push(WatchEvent::rewatched(entry.work_id));
                assert(event_views(events@) =~= event_views(prior).push(EventView::Rewatched { work_id: entry.work_id.spec_value() }));
                assert(Seq::new((r + 1) as nat, |z: int| EventView::Rewatched { work_id: entry.work_id.spec_value() })
                    =~= Seq::new(r as nat, |z: int| EventView::Rewatched { work_id: entry.work_id.spec_value() }).push(EventView::Rewatched { work_id: entry.work_id.spec_value() }));
                r = r + 1;
            }
            proof {
                assert(sorted.take(i + 1).drop_last() =~= sorted.take(i as int));
                assert(sorted[i as int] == entry_view(entry));
                assert(entry_events(entry_view(entry)) =~= seq![event_view(first)]
                    + Seq::new(entry.rewatches as nat, |z: int| EventView::Rewatched { work_id: entry.work_id.spec_value() }));
                assert(event_views(events@) =~= events_of(sorted.take(i + 1)));
            }
            i = i + 1;
        }
        let d = OfflineDataset { catalog, ratings, events };
        proof {
            assert(sorted.take(sorted.len() as int) =~= sorted);
            assert(sorted.to_multiset() =~= entries@.map_values(|e: RatingEntry| entry_view(e)).to_multiset());
            assert(built_with(d, entries@.map_values(|e: RatingEntry| entry_view(e)), sorted));
        }
        d
    }
}

/// The numbers given for the records, one per record: a record without a
/// number given has none.
pub open spec fn padded(numbers: Seq<Option<u64>>, n: nat) -> Seq<Option<u64>> {
    Seq::new(n, |k: int| if k < numbers.len() { numbers[k] } else { None })
}

/// The text of the `rating` field of a record, when it has one.
pub open spec fn rating_text(record: Result<RecordView, FailureView>) -> Option<Seq<char>> {
    match record {
        Ok(r) => if r.fields.len() > 1 { Some(r.fields[1]) } else { None },
        Err(_) => None,
    }
}

/// The text of the `rating` field of every record of a ratings CSV, in
/// file order, so that the caller can read the number written there.
pub fn rating_texts(ratings_csv: &[u8]) -> (texts: Vec<Option<String>>)
    ensures
        texts@.len() == csv_table_of(ratings_csv@).records.len(),
        forall|k: int| 0 <= k < texts@.len() ==> (match #[trigger] texts@[k] {
            Some(t) => Some(t@),
            None => None,
        }) == rating_text(csv_table_of(ratings_csv@).records[k]),
{
    let table = read_ratings_table(ratings_csv);
    let ghost t = table_view(table);
    let mut found: Vec<Option<String>> = Vec::new();
    let mut k: usize = 0;
    while k < table.records.len()
        invariant
            t == table_view(table),
            t == csv_table_of(ratings_csv@),
            k <= table.records@.len(),
            found@.len() == k,
            forall|x: int| 0 <= x < k ==> (match #[trigger] found@[x] {
                Some(s) => Some(s@),
                None => None,
            }) == rating_text(t.records[x]),
        decreases table.records.len() - k,
    {
        assert(t.records[k as int] == record_view(table.records@[k as int]));
        let text = match &table.records[k] {
            Ok(record) => if record.fields.len() > 1 {
                assert(texts(record.fields@)[1] == record.fields@[1]@);
                Some(record.fields[1].clone())
            } else {
                None
            },
            Err(_) => None,
        };
        found.push(text);
        k = k + 1;
    }
    found
}

impl OfflineDataset {
    /// Imports a rating history, given as the bytes of its CSV, against a
    /// catalog snapshot. `numbers[k]` is the binary64 pattern of the number
    /// written in the `rating` field of record `k` (see [`rating_texts`]),
    /// or nothing when that field is no number. The CSV is split by the
    /// `csv` crate, then the rules of [`OfflineDataset::import_table`] apply.
    pub fn import(ratings_csv: &[u8], numbers: &Vec<Option<u64>>, catalog: Vec<NormalizedWork>) -> (result: Result<OfflineDataset, ImportError>)
        ensures
            ({
                let t = csv_table_of(ratings_csv@);
                let given = padded(numbers@, t.records.len());
                &&& !distinct_values(work_ids(catalog@)) ==> exists|j: int| #[trigger] is_first_repeat(work_ids(catalog@), j)
                    && (result matches Err(e) && failure_of(e) == (ImportFailure::DuplicateCatalogWork { work_id: catalog@[j].spec_id() }))
                &&& distinct_values(work_ids(catalog@)) ==> match t.headers {
                    Err(f) => result matches Err(e) && failure_of(e) == (ImportFailure::Csv { line: f.line, reason: f.reason }),
                    Ok(h) => if h != expected_headers() {
                        result matches Err(e) && failure_of(e) == (ImportFailure::InvalidHeaders { expected: expected_headers(), found: h })
                    } else if rows_accepted(catalog@, t, given, t.records.len() as int) {
                        result matches Ok(d) && built_from(d, catalog@, accepted_entries(t, given))
                    } else {
                        exists|k: int| 0 <= k < t.records.len() && rows_accepted(catalog@, t, given, k)
                            && #[trigger] record_outcome(catalog@, t, given, k) is Err
                            && (result matches Err(e) && failure_of(e) == record_outcome(catalog@, t, given, k)->Err_0)
                    },
                }
            }),
    {
        let table = read_ratings_table(ratings_csv);
        let ghost t = table_view(table);
        let n = table.records.len();
        let mut given: Vec<Option<u64>> = Vec::new();
        let mut k: usize = 0;
        while k < n
            invariant
                n == table.records@.len(),
                k <= n,
                given@ == padded(numbers@, n as nat).take(k as int),
            decreases n - k,
        {
            let number = if k < numbers.len() { numbers[k] } else { None };
            given.push(number);
            assert(given@ =~= padded(numbers@, n as nat).take(k + 1));
            k = k + 1;
        }
        assert(given@ =~= padded(numbers@, n as nat));
        Self::import_table(&table, &given, catalog)
    }
}

impl OfflineDataset {
    /// The catalog, by identifier.
    pub fn catalog(&self) -> (catalog: &[NormalizedWork])
        ensures
            catalog@ == self.spec_catalog(),
            works_by_id(catalog@),
    {
        proof { use_type_invariant(self); }
        self.catalog.as_slice()
    }

    /// The ratings, by identifier.
    pub fn ratings(&self) -> (ratings: &[RatingRecord])
        ensures
            ratings@ == self.spec_ratings(),
    {
        self.ratings.as_slice()
    }

    /// The events.
    pub fn events(&self) -> (events: &[WatchEvent])
        ensures
            events@ == self.spec_events(),
    {
        self.events.as_slice()
    }

    /// Counts the catalog, the ratings and each kind of event.
    pub fn summary(&self) -> (summary: ImportSummary)
        ensures
            summary.catalog == self.spec_catalog().len(),
            summary.ratings == self.spec_ratings().len(),
            summary.completed == count_kind(self.spec_events(), 0),
            summary.dropped == count_kind(self.spec_events(), 1),
            summary.rewatches == count_kind(self.spec_events(), 2),
    {
        let mut completed: usize = 0;
        let mut dropped: usize = 0;
        let mut rewatches: usize = 0;
        let mut i: usize = 0;
        while i < self.events.len()
            invariant
                i <= self.events@.len(),
                completed == count_kind(self.events@.take(i as int), 0),
                dropped == count_kind(self.events@.take(i as int), 1),
                rewatches == count_kind(self.events@.take(i as int), 2),
                completed + dropped + rewatches == i,
            decreases self.events.len() - i,
        {
            assert(self.events@.take(i + 1).drop_last() =~= self.events@.take(i as int));
            match self.events[i] {
                WatchEvent::Completed { .. } => completed = completed + 1,
                WatchEvent::Dropped { .. } => dropped = dropped + 1,
                WatchEvent::Rewatched { .. } => rewatches = rewatches + 1,
            }
            i = i + 1;
        }
        assert(self.events@.take(self.events@.len() as int) =~= self.events@);
        ImportSummary { catalog: self.catalog.len(), ratings: self.ratings.len(), completed, dropped, rewatches }
    }
}

// ---------------------------------------------------------------- messages

/// What `{:?}` writes for a text: the text quoted, with `str::escape_debug`'s escapes.
pub uninterp spec fn debug_text_of(s: Seq<char>) -> Seq<char>;

/// `<str as Debug>::fmt`, through `format!("{:?}")`.
#[verifier::external_body]
fn debug_quoted(s: &str) -> (text: String)
    ensures
        text@ == debug_text_of(s@),
{
    format!("{s:?}")
}

/// Texts joined by commas.
pub open spec fn comma_joined(items: Seq<Seq<char>>) -> Seq<char>
    decreases items.len(),
{
    if items.len() == 0 {
        Seq::empty()
    } else if items.len() == 1 {
        items[0]
    } else {
        comma_joined(items.drop_last()) + ","@ + items.last()
    }
}

fn join_commas(items: &Vec<String>) -> (joined: String)
    ensures
        joined@ == comma_joined(texts(items@)),
{
    let mut joined = String::new();
    if items.len() == 0 {
        return joined;
    }
    let comma = ",";
    joined.append(items[0].as_str());
    assert(texts(items@).take(1) =~= seq![texts(items@)[0]]);
    let mut i: usize = 1;
    while i < items.len()
        invariant
            1 <= i <= items@.len(),
            comma@ == ","@,
            joined@ == comma_joined(texts(items@).take(i as int)),
        decreases items.len() - i,
    {
        joined.append(comma);
        joined.append(items[i].as_str());
        assert(texts(items@).take(i + 1).drop_last() =~= texts(items@).take(i as int));
        i = i + 1;
    }
    assert(texts(items@).take(items@.len() as int) =~= texts(items@));
    joined
}

/// The message of an import diagnostic.
pub open spec fn import_message(f: ImportFailure) -> Seq<char> {
    match f {
        ImportFailure::CatalogJson { line, column, reason } =>
            "catalog.json at line "@ + decimal_of(line as nat) + ", column "@ + decimal_of(column as nat) + ": "@ + reason,
        ImportFailure::DuplicateCatalogWork { work_id } =>
            "catalog.json: duplicate work_id "@ + decimal_of(work_id.spec_value() as nat),
        ImportFailure::InvalidHeaders { expected, found } =>
            "ratings.csv headers: expected "@ + comma_joined(expected) + ", found "@ + comma_joined(found),
        ImportFailure::Csv { line, reason } => match line {
            Some(l) => "ratings.csv at line "@ + decimal_of(l as nat) + ": "@ + reason,
            None => "ratings.csv: "@ + reason,
        },
        ImportFailure::InvalidField { line, field, value, reason } =>
            "ratings.csv at line "@ + decimal_of(line as nat) + ", field "@ + field + ", value "@ + debug_text_of(value) + ": "@ + reason,
        ImportFailure::DuplicateRating { work_id, first_line, duplicate_line } =>
            "ratings.csv at line "@ + decimal_of(duplicate_line as nat) + ": duplicate work_id "@
                + decimal_of(work_id.spec_value() as nat) + " (first seen at line "@ + decimal_of(first_line as nat) + ")"@,
        ImportFailure::UnknownWork { work_id, line } =>
            "ratings.csv at line "@ + decimal_of(line as nat) + ", field work_id, value "@
                + debug_text_of(decimal_of(work_id.spec_value() as nat)) + ": identifier is absent from catalog.json"@,
    }
}

impl ImportError {
    /// The message of the diagnostic, as the CLI prints it.
    pub fn message(&self) -> (text: String)
        ensures
            text@ == import_message(failure_of(*self)),
    {
        match self {
            ImportError::CatalogJson { line, column, reason } => {
                let mut text = String::from_str("catalog.json at line ");
                text.append(decimal_u64(*line as u64).as_str());
                text.append(", column ");
                text.append(decimal_u64(*column as u64).as_str());
                text.append(": ");
                text.append(reason.as_str());
                text
            },
            ImportError::DuplicateCatalogWork { work_id } => {
                let mut text = String::from_str("catalog.json: duplicate work_id ");
                text.append(decimal_u64(work_id.get() as u64).as_str());
                text
            },
            ImportError::InvalidHeaders { expected, found } => {
                let mut text = String::from_str("ratings.csv headers: expected ");
                text.append(join_commas(expected).as_str());
                text.append(", found ");
                text.append(join_commas(found).as_str());
                text
            },
            ImportError::Csv { line, reason } => match line {
                Some(l) => {
                    let mut text = String::from_str("ratings.csv at line ");
                    text.append(decimal_u64(*l).as_str());
                    text.append(": ");
                    text.append(reason.as_str());
                    text
                },
                None => {
                    let mut text = String::from_str("ratings.csv: ");
                    text.append(reason.as_str());
                    text
                },
            },
            ImportError::InvalidField { line, field, value, reason } => {
                let mut text = String::from_str("ratings.csv at line ");
                text.append(decimal_u64(*line).as_str());
                text.append(", field ");
                text.append(field);
                text.append(", value ");
                text.append(debug_quoted(value.as_str()).as_str());
                text.append(": ");
                text.append(reason);
                text
            },
            ImportError::DuplicateRating { work_id, first_line, duplicate_line } => {
                let mut text = String::from_str("ratings.csv at line ");
                text.append(decimal_u64(*duplicate_line).as_str());
                text.append(": duplicate work_id ");
                text.append(decimal_u64(work_id.get() as u64).as_str());
                text.append(" (first seen at line ");
                text.append(decimal_u64(*first_line).as_str());
                text.append(")");
                text
            },
            ImportError::UnknownWork { work_id, line } => {
                let mut text = String::from_str("ratings.csv at line ");
                text.append(decimal_u64(*line).as_str());
                text.append(", field work_id, value ");
                let id = decimal_u64(work_id.get() as u64);
                text.append(debug_quoted(id.as_str()).as_str());
                text.append(": identifier is absent from catalog.json");
                text
            },
        }
    }
}

/// The line printed after a successful import.
pub open spec fn summary_line(s: ImportSummary) -> Seq<char> {
    "import ok: catalog="@ + decimal_of(s.catalog as nat) + " ratings="@ + decimal_of(s.ratings as nat)
        + " completed="@ + decimal_of(s.completed as nat) + " dropped="@ + decimal_of(s.dropped as nat)
        + " rewatches="@ + decimal_of(s.rewatches as nat)
}

impl ImportSummary {
    /// The line printed after a successful import.
    pub fn line(&self) -> (text: String)
        ensures
            text@ == summary_line(*self),
    {
        let mut text = String::from_str("import ok: catalog=");
        text.append(decimal_u64(self.catalog as u64).as_str());
        text.append(" ratings=");
        text.append(decimal_u64(self.ratings as u64).as_str());
        text.append(" completed=");
        text.append(decimal_u64(self.completed as u64).as_str());
        text.append(" dropped=");
        text.append(decimal_u64(self.dropped as u64).as_str());
        text.append(" rewatches=");
        text.append(decimal_u64(self.rewatches as u64).as_str());
        text
    }
}

} // verus!
