//! The operations offered to the shell, over a store that may not exist yet.
use vstd::prelude::*;
use crate::database::{is_source, files_of, is_cross_view, is_type_view, snapshot_ok, Database, FileView, Snapshot};
use crate::error::AppError;
use crate::extractors::Extractors;
use crate::file_processor::{ingest_outcome, sheet_view, FileProcessor, SheetRows};
use crate::models::{AnalysisResult, DatabaseInfo, ExtractedItem, ItemType, ProcessResult, Record, SourceInfo};
use crate::text::{lines, lines_of};
use vstd::string::StringExecFns;

verus! {

/// The texts of some records.
pub open spec fn record_texts(rs: Seq<Record>) -> Seq<Seq<char>> {
    rs.map_values(|r: Record| r.content@)
}

/// Whether a file belongs to the first source (source 1) or, when `first`
/// is false, to any other.
pub open spec fn in_group(f: FileView, first: bool) -> bool {
    (f.2 == 1) == first
}

/// The names of the files of one group, in order.
pub open spec fn group_names(fs: Seq<FileView>, first: bool) -> Seq<Seq<char>>
    decreases fs.len(),
{
    if fs.len() == 0 {
        Seq::empty()
    } else if in_group(fs.last(), first) {
        group_names(fs.drop_last(), first).push(fs.last().1)
    } else {
        group_names(fs.drop_last(), first)
    }
}

/// The content lines of the files of one group, file after file.
pub open spec fn group_lines(fs: Seq<FileView>, first: bool) -> Seq<Seq<char>>
    decreases fs.len(),
{
    if fs.len() == 0 {
        Seq::empty()
    } else if in_group(fs.last(), first) {
        group_lines(fs.drop_last(), first) + lines_of(fs.last().3)
    } else {
        group_lines(fs.drop_last(), first)
    }
}

/// The store, or the failure that there is none.
pub open spec fn usable(state: Option<Database>) -> bool {
    state matches Some(db) ==> db.wf()
}

/// The message of the failure that there is no store.
pub open spec fn not_initialized_text() -> Seq<char> {
    "Database not initialized"@
}

/// The failure that there is no store.
pub open spec fn is_not_initialized(e: AppError) -> bool {
    e is General && e->General_0@ == not_initialized_text()
}

/// A store with nothing in it, as `Database::new_memory` makes.
pub open spec fn is_fresh(db: Database) -> bool {
    db.wf() && db.rows().len() == 0 && db.files().len() == 0 && db.next_id() == 1
}

/// Extractors with the standard patterns, as `Extractors::new` makes.
pub open spec fn is_standard(ex: Extractors) -> bool {
    &&& ex.phone_patterns.deep_view() == seq![
        crate::extractors::PHONE_PARENTHESIZED@,
        crate::extractors::PHONE_CONCATENATED@,
        crate::extractors::PHONE_SEPARATED@,
    ]
    &&& ex.email_pattern@ == crate::extractors::EMAIL@
    &&& ex.ipv4_pattern@ == crate::extractors::IPV4@
    &&& ex.ipv6_pattern@ == crate::extractors::IPV6@
}

/// The values a command's ingestion result carries.
pub open spec fn result_values(r: Result<ProcessResult, AppError>) -> Result<Seq<Seq<char>>, AppError> {
    match r {
        Ok(p) => Ok(record_texts(p.records@)),
        Err(e) => Err(e),
    }
}

fn not_initialized() -> (r: AppError)
    ensures
        is_not_initialized(r),
{
    AppError::General(String::from_str("Database not initialized"))
}

/// Ingests a file under `source_id`, ingested at `processed_at`, creating
/// the store first if there is none; what it does to the store and returns
/// is what `FileProcessor::process_file` does, with the standard extractors.
pub fn process_file(
    file_name: &str,
    file_content: &[u8],
    sheets: &SheetRows,
    source_id: i32,
    processed_at: &str,
    state: &mut Option<Database>,
) -> (r: Result<ProcessResult, AppError>)
    requires
        usable(*old(state)),
        is_source(source_id),
    ensures
        usable(*final(state)),
        (*final(state)) is Some,
        r is Ok ==> r->Ok_0.file_name@ == file_name@,
        exists|ex: Extractors, db0: Database| {
            &&& is_standard(ex)
            &&& match *old(state) {
                Some(d) => db0 == d,
                None => is_fresh(db0),
            }
            &&& ingest_outcome(ex, file_name@, file_content@, sheet_view(*sheets), source_id, processed_at@, db0,
                (*final(state))->Some_0, result_values(r))
        },
{
    if state.is_none() {
        *state = Some(Database::new_memory());
    }
    let mut db = state.take().unwrap();
    let ghost db0 = db;
    let processor = FileProcessor::new();
    let res = processor.process_file(file_name, file_content, sheets, source_id, processed_at, &mut db);
    *state = Some(db);
    let ghost ex = processor.extractors;
    let values = match res {
        Ok(v) => v,
        Err(e) => {
            assert(ingest_outcome(ex, file_name@, file_content@, sheet_view(*sheets), source_id, processed_at@, db0,
                (*state)->Some_0, result_values(Err(e))));
            return Err(e);
        },
    };
    let ghost vals = values.deep_view();
    let mut records: Vec<Record> = Vec::new();
    let mut i: usize = 0;
    while i < values.len()
        invariant
            i <= values.len(),
            record_texts(records@) == values.deep_view().subrange(0, i as int),
            records@.len() == i,
        decreases values.len() - i,
    {
        let ghost before = records@;
        records.push(Record { content: values[i].clone() });
        assert(record_texts(records@) =~= record_texts(before).push(values[i as int]@));
        assert(values.deep_view().subrange(0, i + 1) =~= values.deep_view().subrange(0, i as int).push(values[i as int]@));
        i = i + 1;
    }
    assert(values.deep_view().subrange(0, i as int) =~= vals);
    let r = ProcessResult { file_name: String::from_str(file_name), records };
    assert(result_values(Ok(r)) == Ok::<Seq<Seq<char>>, AppError>(vals));
    assert(is_standard(ex));
    assert(ingest_outcome(ex, file_name@, file_content@, sheet_view(*sheets), source_id, processed_at@, db0,
        (*state)->Some_0, result_values(Ok(r))));
    Ok(r)
}

/// The aggregate views of the three kinds.
pub fn get_analysis(state: &Option<Database>) -> (r: Result<AnalysisResult, AppError>)
    requires
        usable(*state),
    ensures
        r is Ok <==> state is Some,
        r is Err ==> is_not_initialized(r->Err_0),
        r is Ok ==> {
            let rows = state->Some_0.rows();
            &&& is_type_view(rows, ItemType::Phone, r->Ok_0.phones@)
            &&& is_type_view(rows, ItemType::Email, r->Ok_0.emails@)
            &&& is_type_view(rows, ItemType::Ip, r->Ok_0.ips@)
        },
{
    match state {
        Some(db) => Ok(AnalysisResult {
            phones: db.get_extracted_items_by_type(ItemType::Phone),
            emails: db.get_extracted_items_by_type(ItemType::Email),
            ips: db.get_extracted_items_by_type(ItemType::Ip),
        }),
        None => Err(not_initialized()),
    }
}

/// The cross-reference view.
pub fn analyze_cross_reference(state: &Option<Database>) -> (r: Result<Vec<ExtractedItem>, AppError>)
    requires
        usable(*state),
    ensures
        r is Ok <==> state is Some,
        r is Err ==> is_not_initialized(r->Err_0),
        r is Ok ==> is_cross_view(state->Some_0.rows(), r->Ok_0@),
{
    match state {
        Some(db) => Ok(db.get_cross_reference_items()),
        None => Err(not_initialized()),
    }
}

/// Replaces the store by the content of a snapshot.
pub fn load_database(snap: Snapshot, state: &mut Option<Database>) -> (r: Result<(), AppError>)
    requires
        usable(*old(state)),
    ensures
        usable(*final(state)),
        r is Ok <==> snapshot_ok(snap),
        r is Err ==> r->Err_0 is Database,
        r is Ok ==> (*final(state)) is Some && (*final(state))->Some_0.files() == files_of(snap.files@)
            && (*final(state))->Some_0.rows() == crate::database::rows_of(snap.items@),
        r is Err ==> *final(state) == *old(state),
{
    let mut db = Database::new_memory();
    db.load_snapshot(snap)?;
    *state = Some(db);
    Ok(())
}

/// An independent copy of the store's content.
pub fn save_database(state: &Option<Database>) -> (r: Result<Snapshot, AppError>)
    ensures
        r is Ok <==> state is Some,
        r is Err ==> is_not_initialized(r->Err_0),
        r is Ok ==> files_of(r->Ok_0.files@) == state->Some_0.files()
            && crate::database::rows_of(r->Ok_0.items@) == state->Some_0.rows(),
{
    match state {
        Some(db) => Ok(db.save_snapshot()),
        None => Err(not_initialized()),
    }
}

/// Replaces the store by an empty one.
pub fn clear_all(state: &mut Option<Database>) -> (r: Result<(), AppError>)
    ensures
        r is Ok,
        (*final(state)) is Some,
        usable(*final(state)),
        (*final(state))->Some_0.rows().len() == 0,
        (*final(state))->Some_0.files().len() == 0,
{
    *state = Some(Database::new_memory());
    Ok(())
}

/// The files and content lines of each source: source 1, and every other.
pub fn get_database_info(state: &Option<Database>) -> (r: Result<DatabaseInfo, AppError>)
    ensures
        r is Ok <==> state is Some,
        r is Err ==> is_not_initialized(r->Err_0),
        r is Ok ==> {
            let fs = state->Some_0.files();
            let info = r->Ok_0;
            &&& info.source1.files.deep_view() == group_names(fs, true)
            &&& record_texts(info.source1.records@) == group_lines(fs, true)
            &&& info.source2.files.deep_view() == group_names(fs, false)
            &&& record_texts(info.source2.records@) == group_lines(fs, false)
        },
{
    let db = match state {
        Some(db) => db,
        None => {
            return Err(not_initialized());
        },
    };
    let all = db.get_all_files();
    let ghost fs = files_of(all@);
    let mut s1 = SourceInfo { files: Vec::new(), records: Vec::new() };
    let mut s2 = SourceInfo { files: Vec::new(), records: Vec::new() };
    let mut i: usize = 0;
    assert(fs.subrange(0, 0) =~= Seq::<FileView>::empty());
    assert(record_texts(s1.records@) =~= Seq::<Seq<char>>::empty());
    assert(record_texts(s2.records@) =~= Seq::<Seq<char>>::empty());
    while i < all.len()
        invariant
            i <= all.len(),
            fs == files_of(all@),
            s1.files.deep_view() == group_names(fs.subrange(0, i as int), true),
            record_texts(s1.records@) == group_lines(fs.subrange(0, i as int), true),
            s2.files.deep_view() == group_names(fs.subrange(0, i as int), false),
            record_texts(s2.records@) == group_lines(fs.subrange(0, i as int), false),
        decreases all.len() - i,
    {
        let f = &all[i];
        let ghost pre = fs.subrange(0, i as int);
        assert(fs.subrange(0, i + 1).drop_last() =~= pre);
        assert(fs[i as int] == crate::database::file_view(*f));
        let ls = lines(f.content.as_str());
        let mut recs: Vec<Record> = Vec::new();
        let mut j: usize = 0;
        while j < ls.len()
            invariant
                j <= ls.len(),
                record_texts(recs@) == ls.deep_view().subrange(0, j as int),
            decreases ls.len() - j,
        {
            let ghost b = recs@;
            recs.push(Record { content: ls[j].clone() });
            assert(record_texts(recs@) =~= record_texts(b).push(ls[j as int]@));
            assert(ls.deep_view().subrange(0, j + 1) =~= ls.deep_view().subrange(0, j as int).push(ls[j as int]@));
            j = j + 1;
        }
        assert(ls.deep_view().subrange(0, j as int) =~= ls.deep_view());
        if f.source_id == 1 {
            let ghost b = s1.files.deep_view();
            let ghost br = s1.records@;
            s1.files.push(f.file_name.clone());
            assert(s1.files.deep_view() =~= b.push(f.file_name@));
            s1.records.append(&mut recs);
            assert(record_texts(s1.records@) =~= record_texts(br) + lines_of(f.content@));
        } else {
            let ghost b = s2.files.deep_view();
            let ghost br = s2.records@;
            s2.files.push(f.file_name.clone());
            assert(s2.files.deep_view() =~= b.push(f.file_name@));
            s2.records.append(&mut recs);
            assert(record_texts(s2.records@) =~= record_texts(br) + lines_of(f.content@));
        }
        i = i + 1;
    }
    assert(fs.subrange(0, i as int) =~= fs);
    Ok(DatabaseInfo { source1: s1, source2: s2 })
}

} // verus!
