//! Decoding of ingested files into text records, and the chunked ingestion
//! pipeline that extracts entities from them into the store.
use vstd::prelude::*;
use crate::error::AppError;
use crate::database::{is_source, Database, Row, MAX_ROWS};
use crate::extractors::{Extractors, lowered_in_matches, match_found, phone_found, regex_matches};
use crate::models::ItemType;
use crate::text::{chars_of, joined, join_range, lines, lines_of, lower_of, replace, replaced, to_lower, trim, trim_of};
use vstd::string::StringExecFns;

verus! {

/// What `encoding_rs::UTF_8.decode` makes of a byte sequence.
pub uninterp spec fn utf8_decoded(b: Seq<u8>) -> Seq<char>;

/// The fields of each record that a flexible, header-skipping `csv` reader
/// reads from a text, records that fail to parse left out.
pub uninterp spec fn csv_rows_of(text: Seq<char>) -> Seq<Seq<Seq<char>>>;

/// What `regex::Regex::replace_all` makes of `text` with `pattern` and
/// replacement `rep`; `None` when `pattern` does not compile.
pub uninterp spec fn regex_replaced(pattern: Seq<char>, text: Seq<char>, rep: Seq<char>) -> Option<Seq<char>>;

/// Relies on `encoding_rs::Encoding::decode` with UTF-8: the text, invalid
/// sequences replaced.
#[verifier::external_body]
fn decode_utf8(b: &[u8]) -> (r: String)
    ensures
        r@ == utf8_decoded(b@),
{
    let (text, _, _) = encoding_rs::UTF_8.decode(b);
    text.into_owned()
}

/// Relies on `csv::ReaderBuilder` (headers on, flexible) and
/// `Reader::records`: the fields of each record that parses.
#[verifier::external_body]
fn read_csv(text: &str) -> (r: Vec<Vec<String>>)
    ensures
        r.deep_view() == csv_rows_of(text@),
{
    let mut reader = csv::ReaderBuilder::new()
        .has_headers(true)
        .flexible(true)
        .from_reader(text.as_bytes());
    reader.records()
        .filter_map(|rec| rec.ok())
        .map(|rec| rec.iter().map(|f| f.to_string()).collect())
        .collect()
}

/// Relies on `regex::Regex::new` and `Regex::replace_all`.
#[verifier::external_body]
fn regex_replace_all(pattern: &str, text: &str, rep: &str) -> (r: Option<String>)
    ensures
        r.deep_view() == regex_replaced(pattern@, text@, rep@),
{
    let re = regex::Regex::new(pattern).ok()?;
    Some(re.replace_all(text, rep).into_owned())
}

/// The formats that decoding tells apart.
#[derive(Debug, Clone, Copy, PartialEq, Eq, Structural)]
pub enum FileFormat {
    Csv,
    Spreadsheet,
    Html,
    PlainText,
}

/// The part of a character sequence after its last `.`, or all of it when it has none.
pub open spec fn after_last_dot(name: Seq<char>) -> Seq<char>
    decreases name.len(),
{
    if name.len() == 0 {
        Seq::empty()
    } else if name.last() == '.' {
        Seq::empty()
    } else {
        after_last_dot(name.drop_last()).push(name.last())
    }
}

/// The extension of a file name: the part after its last `.`, or nothing
/// when the name has no `.`.
pub open spec fn extension_of(name: Seq<char>) -> Seq<char> {
    if name.contains('.') {
        after_last_dot(name)
    } else {
        Seq::empty()
    }
}

/// The format that a lower-cased extension names; anything unknown is plain text.
pub open spec fn format_of(ext: Seq<char>) -> FileFormat {
    if ext == seq!['c', 's', 'v'] {
        FileFormat::Csv
    } else if ext == seq!['x', 'l', 's', 'x'] || ext == seq!['x', 'l', 's'] {
        FileFormat::Spreadsheet
    } else if ext == seq!['h', 't', 'm', 'l'] {
        FileFormat::Html
    } else {
        FileFormat::PlainText
    }
}

/// The format of a file, by its extension, case-insensitively.
pub open spec fn format_of_name(name: Seq<char>) -> FileFormat {
    format_of(lower_of(extension_of(name)))
}

/// Each row as one record: its fields joined by a space.
pub open spec fn row_records(rows: Seq<Seq<Seq<char>>>) -> Seq<Seq<char>> {
    rows.map_values(|r: Seq<Seq<char>>| joined(r, seq![' ']))
}

/// The lines that are not blank once trimmed, as they are.
pub open spec fn nonblank(ls: Seq<Seq<char>>) -> Seq<Seq<char>>
    decreases ls.len(),
{
    if ls.len() == 0 {
        Seq::empty()
    } else if trim_of(ls.last()).len() > 0 {
        nonblank(ls.drop_last()).push(ls.last())
    } else {
        nonblank(ls.drop_last())
    }
}

/// The lines that are not blank once trimmed, trimmed.
pub open spec fn trimmed_nonblank(ls: Seq<Seq<char>>) -> Seq<Seq<char>>
    decreases ls.len(),
{
    if ls.len() == 0 {
        Seq::empty()
    } else if trim_of(ls.last()).len() > 0 {
        trimmed_nonblank(ls.drop_last()).push(trim_of(ls.last()))
    } else {
        trimmed_nonblank(ls.drop_last())
    }
}

/// A replacement's result, or the text as it was when there is none.
pub open spec fn or_unchanged(r: Option<Seq<char>>, t: Seq<char>) -> Seq<char> {
    match r {
        Some(x) => x,
        None => t,
    }
}

/// Markup tag.
pub const TAG_PATTERN: &'static str = r"<[^>]+>";

/// Named character entity.
pub const ENTITY_PATTERN: &'static str = r"&[a-zA-Z]+;";

/// Markup text with line-break markers turned into line breaks, and tags and
/// entities into spaces.
pub open spec fn html_text(t: Seq<char>) -> Seq<char> {
    let nl = seq!['\n'];
    let a = replaced(t, seq!['<', 'b', 'r', '>'], nl);
    let b = replaced(a, seq!['<', 'b', 'r', '/', '>'], nl);
    let c = replaced(b, seq!['<', 'b', 'r', ' ', '/', '>'], nl);
    let d = replaced(c, seq!['<', '/', 'p', '>'], nl);
    let e = replaced(d, seq!['<', '/', 'd', 'i', 'v', '>'], nl);
    let f = or_unchanged(regex_replaced(TAG_PATTERN@, e, seq![' ']), e);
    or_unchanged(regex_replaced(ENTITY_PATTERN@, f, seq![' ']), f)
}

/// A spreadsheet as its reader hands it over: the cells, as text, of every
/// row of every sheet, or the reason it did not open.
pub type SheetRows = Result<Vec<Vec<String>>, String>;

/// The rows of a spreadsheet that opened; `None` for one that did not.
pub open spec fn sheet_view(w: SheetRows) -> Option<Seq<Seq<Seq<char>>>> {
    match w {
        Ok(rows) => Some(rows.deep_view()),
        Err(_) => None,
    }
}

/// The records that a file decodes to, given what its spreadsheet reader
/// gave when it is a spreadsheet; `None` when a spreadsheet did not open.
pub open spec fn decoded_records(name: Seq<char>, bytes: Seq<u8>, sheets: Option<Seq<Seq<Seq<char>>>>) -> Option<Seq<Seq<char>>> {
    match format_of_name(name) {
        FileFormat::Csv => Some(row_records(csv_rows_of(utf8_decoded(bytes)))),
        FileFormat::Spreadsheet => match sheets {
            Some(rows) => Some(row_records(rows)),
            None => None,
        },
        FileFormat::Html => Some(trimmed_nonblank(lines_of(html_text(utf8_decoded(bytes))))),
        FileFormat::PlainText => Some(nonblank(lines_of(utf8_decoded(bytes)))),
    }
}

/// The extension of `name` (see `extension_of`).
pub fn file_extension(name: &str) -> (r: Vec<char>)
    ensures
        r@ == extension_of(name@),
{
    let cs = chars_of(name);
    let mut cur: Vec<char> = Vec::new();
    let mut seen = false;
    let mut i: usize = 0;
    while i < cs.len()
        invariant
            i <= cs.len(),
            cs@ == name@,
            cur@ == after_last_dot(cs@.subrange(0, i as int)),
            seen == cs@.subrange(0, i as int).contains('.'),
        decreases cs.len() - i,
    {
        let ghost pre = cs@.subrange(0, i as int);
        let ghost post = cs@.subrange(0, i + 1);
        assert(post.drop_last() =~= pre);
        assert(post.last() == cs@[i as int]);
        if cs[i] == '.' {
            cur = Vec::new();
            assert(cur@ =~= Seq::<char>::empty());
            seen = true;
            assert(post[i as int] == '.');
        } else {
            cur.push(cs[i]);
            proof {
                if pre.contains('.') {
                    let k = choose|k: int| 0 <= k < pre.len() && pre[k] == '.';
                    assert(post[k] == '.');
                }
                if post.contains('.') {
                    let k = choose|k: int| 0 <= k < post.len() && post[k] == '.';
                    assert(k < i);
                    assert(pre[k] == '.');
                }
            }
        }
        i = i + 1;
    }
    assert(cs@.subrange(0, i as int) =~= cs@);
    if seen {
        cur
    } else {
        Vec::new()
    }
}

/// The format of a file, by its extension, case-insensitively.
pub fn detect_format(file_name: &str) -> (r: FileFormat)
    ensures
        r == format_of_name(file_name@),
{
    let ext = crate::text::string_of(&file_extension(file_name));
    let low = chars_of(to_lower(ext.as_str()).as_str());
    let n = low.len();
    if n == 3 && low[0] == 'c' && low[1] == 's' && low[2] == 'v' {
        assert(low@ =~= seq!['c', 's', 'v']);
        FileFormat::Csv
    } else if n == 4 && low[0] == 'x' && low[1] == 'l' && low[2] == 's' && low[3] == 'x' {
        assert(low@ =~= seq!['x', 'l', 's', 'x']);
        FileFormat::Spreadsheet
    } else if n == 3 && low[0] == 'x' && low[1] == 'l' && low[2] == 's' {
        assert(low@ =~= seq!['x', 'l', 's']);
        FileFormat::Spreadsheet
    } else if n == 4 && low[0] == 'h' && low[1] == 't' && low[2] == 'm' && low[3] == 'l' {
        assert(low@ =~= seq!['h', 't', 'm', 'l']);
        FileFormat::Html
    } else {
        FileFormat::PlainText
    }
}

/// Each row as one record: its fields joined by a space.
fn join_rows(rows: &Vec<Vec<String>>) -> (r: Vec<String>)
    ensures
        r.deep_view() == row_records(rows.deep_view()),
{
    let mut out: Vec<String> = Vec::new();
    let mut i: usize = 0;
    while i < rows.len()
        invariant
            i <= rows.len(),
            out.deep_view() == row_records(rows.deep_view().subrange(0, i as int)),
        decreases rows.len() - i,
    {
        let row = &rows[i];
        let rec = join_range(row, 0, row.len(), " ");
        proof {
            reveal_strlit(" ");
            assert(" "@ =~= seq![' ']);
            assert(row.deep_view().subrange(0, row.len() as int) =~= row.deep_view());
            assert(rows.deep_view()[i as int] == row.deep_view());
            assert(row_records(rows.deep_view().subrange(0, i + 1)) =~= row_records(
                rows.deep_view().subrange(0, i as int)).push(rec@));
        }
        let ghost before = out.deep_view();
        out.push(rec);
        assert(out.deep_view() =~= before.push(rec@));
        i = i + 1;
    }
    assert(rows.deep_view().subrange(0, i as int) =~= rows.deep_view());
    out
}

/// Keeps the lines that are not blank once trimmed; trims them too when `trimmed`.
fn keep_nonblank(ls: &Vec<String>, trimmed: bool) -> (r: Vec<String>)
    ensures
        r.deep_view() == if trimmed { trimmed_nonblank(ls.deep_view()) } else { nonblank(ls.deep_view()) },
{
    let mut out: Vec<String> = Vec::new();
    let mut i: usize = 0;
    while i < ls.len()
        invariant
            i <= ls.len(),
            out.deep_view() == if trimmed { trimmed_nonblank(ls.deep_view().subrange(0, i as int)) } else {
                nonblank(ls.deep_view().subrange(0, i as int)) },
        decreases ls.len() - i,
    {
        let ghost pre = ls.deep_view().subrange(0, i as int);
        assert(ls.deep_view().subrange(0, i + 1).drop_last() =~= pre);
        assert(ls.deep_view()[i as int] == ls[i as int]@);
        let t = trim(ls[i].as_str());
        let ghost before = out.deep_view();
        if chars_of(t.as_str()).len() > 0 {
            if trimmed {
                out.push(t);
            } else {
                out.push(ls[i].clone());
            }
            assert(out.deep_view() =~= before.push(out.deep_view().last()));
        }
        i = i + 1;
    }
    assert(ls.deep_view().subrange(0, i as int) =~= ls.deep_view());
    out
}

/// Decodes delimited text: each record's fields joined by a space.
pub fn process_csv(content: &[u8]) -> (r: Vec<String>)
    ensures
        r.deep_view() == row_records(csv_rows_of(utf8_decoded(content@))),
{
    let text = decode_utf8(content);
    join_rows(&read_csv(text.as_str()))
}

/// Decodes a spreadsheet, as its reader handed it over: each row of each
/// sheet, its cells joined by a space; a spreadsheet that did not open is a
/// format error with the reader's message.
pub fn process_excel(sheets: &SheetRows) -> (r: Result<Vec<String>, AppError>)
    ensures
        r is Ok <==> sheets is Ok,
        r is Ok ==> Some(row_records(sheet_view(*sheets)->Some_0)) == Some(r->Ok_0.deep_view()),
        r is Err ==> r->Err_0 == AppError::Excel(sheets->Err_0),
{
    match sheets {
        Ok(rows) => Ok(join_rows(rows)),
        Err(e) => Err(AppError::Excel(e.clone())),
    }
}

/// Decodes plain text: its lines that are not blank.
pub fn process_text(content: &[u8]) -> (r: Vec<String>)
    ensures
        r.deep_view() == nonblank(lines_of(utf8_decoded(content@))),
{
    let text = decode_utf8(content);
    keep_nonblank(&lines(text.as_str()), false)
}

/// A replacement's result, or the text as it was.
fn regex_replace_or_keep(pattern: &str, text: String, rep: &str) -> (r: String)
    ensures
        r@ == or_unchanged(regex_replaced(pattern@, text@, rep@), text@),
{
    match regex_replace_all(pattern, text.as_str(), rep) {
        Some(t) => t,
        None => text,
    }
}

/// Decodes markup: line-break markers become line breaks, tags and entities
/// spaces, and the non-blank lines, trimmed, are the records.
pub fn process_html(content: &[u8]) -> (r: Vec<String>)
    ensures
        r.deep_view() == trimmed_nonblank(lines_of(html_text(utf8_decoded(content@)))),
{
    let text = decode_utf8(content);
    proof {
        reveal_strlit("<br>");
        reveal_strlit("<br/>");
        reveal_strlit("<br />");
        reveal_strlit("</p>");
        reveal_strlit("</div>");
        reveal_strlit("\n");
        reveal_strlit(" ");
    }
    let a = replace(text.as_str(), "<br>", "\n");
    let b = replace(a.as_str(), "<br/>", "\n");
    let c = replace(b.as_str(), "<br />", "\n");
    let d = replace(c.as_str(), "</p>", "\n");
    let e = replace(d.as_str(), "</div>", "\n");
    assert("<br>"@ =~= seq!['<', 'b', 'r', '>']);
    assert("<br/>"@ =~= seq!['<', 'b', 'r', '/', '>']);
    assert("<br />"@ =~= seq!['<', 'b', 'r', ' ', '/', '>']);
    assert("</p>"@ =~= seq!['<', '/', 'p', '>']);
    assert("</div>"@ =~= seq!['<', '/', 'd', 'i', 'v', '>']);
    assert("\n"@ =~= seq!['\n']);
    assert(" "@ =~= seq![' ']);
    let f = regex_replace_or_keep(TAG_PATTERN, e, " ");
    let g = regex_replace_or_keep(ENTITY_PATTERN, f, " ");
    keep_nonblank(&lines(g.as_str()), true)
}

/// Decodes a file into its records, by the format its name gives; a
/// spreadsheet's rows come from `sheets`, which other formats ignore. Fails
/// only on a spreadsheet that did not open.
pub fn decode(file_name: &str, content: &[u8], sheets: &SheetRows) -> (r: Result<Vec<String>, AppError>)
    ensures
        r is Ok <==> decoded_records(file_name@, content@, sheet_view(*sheets)) is Some,
        r is Ok ==> decoded_records(file_name@, content@, sheet_view(*sheets)) == Some(r->Ok_0.deep_view()),
        r is Err ==> r->Err_0 is Excel,
{
    match detect_format(file_name) {
        FileFormat::Csv => Ok(process_csv(content)),
        FileFormat::Spreadsheet => process_excel(sheets),
        FileFormat::Html => Ok(process_html(content)),
        FileFormat::PlainText => Ok(process_text(content)),
    }
}

/// The number of records scanned together as one text window.
pub const CHUNK_SIZE: usize = 100;

/// The number of chunks that `n` records make.
pub open spec fn chunk_count(n: int) -> int {
    (n + 99) / 100
}

/// The records of chunk `c`, joined by spaces.
pub open spec fn chunk_window(recs: Seq<Seq<char>>, c: int) -> Seq<char> {
    let lo = c * 100;
    let hi = if lo + 100 <= recs.len() { lo + 100 } else { recs.len() as int };
    joined(recs.subrange(lo, hi), seq![' '])
}

/// Whether the extractor of kind `t` finds value `v` in `text`.
pub open spec fn found_by(ex: Extractors, t: ItemType, text: Seq<char>, v: Seq<char>) -> bool {
    match t {
        ItemType::Phone => exists|k: int| 0 <= k < ex.phone_patterns.len() && phone_found(ex.phone_patterns[k]@, text, v),
        ItemType::Email => match regex_matches(ex.email_pattern@, text) {
            Some(ms) => lowered_in_matches(ms, v),
            None => false,
        },
        ItemType::Ip => match_found(ex.ipv4_pattern@, text, v) || match_found(ex.ipv6_pattern@, text, v),
    }
}

/// The rows that storing `vals` with kind `t`, source `s` and file `f` appends.
pub open spec fn value_rows(vals: Seq<Seq<char>>, t: ItemType, s: i32, f: i64) -> Seq<Row> {
    vals.map_values(|v: Seq<char>| (v, t, s, f))
}

/// The number of rows of `rows` with value `v` and kind `t`.
pub open spec fn count_found(rows: Seq<Row>, t: ItemType, v: Seq<char>) -> nat
    decreases rows.len(),
{
    if rows.len() == 0 {
        0
    } else {
        count_found(rows.drop_last(), t, v) + if rows.last().0 == v && rows.last().1 == t {
            1nat
        } else {
            0nat
        }
    }
}

/// The number of the first `c` chunks of `recs` in which the extractor of
/// kind `t` finds `v`.
pub open spec fn chunks_finding(ex: Extractors, recs: Seq<Seq<char>>, t: ItemType, v: Seq<char>, c: int) -> nat
    decreases c,
{
    if c <= 0 {
        0
    } else {
        chunks_finding(ex, recs, t, v, c - 1) + if found_by(ex, t, chunk_window(recs, c - 1), v) {
            1nat
        } else {
            0nat
        }
    }
}

/// No two rows of `rows` have the same value and kind.
pub open spec fn distinct_pairs(rows: Seq<Row>) -> bool {
    forall|i: int, j: int| 0 <= i < j < rows.len() ==> !((#[trigger] rows[i]).0 == (#[trigger] rows[j]).0 && rows[i].1 == rows[j].1)
}

proof fn lemma_count_found_concat(a: Seq<Row>, b: Seq<Row>, t: ItemType, v: Seq<char>)
    ensures
        count_found(a + b, t, v) == count_found(a, t, v) + count_found(b, t, v),
    decreases b.len(),
{
    if b.len() == 0 {
        assert(a + b =~= a);
    } else {
        assert((a + b).drop_last() =~= a + b.drop_last());
        lemma_count_found_concat(a, b.drop_last(), t, v);
    }
}

proof fn lemma_count_found_none(rows: Seq<Row>, t: ItemType, v: Seq<char>)
    requires
        forall|k: int| 0 <= k < rows.len() ==> !((#[trigger] rows[k]).0 == v && rows[k].1 == t),
    ensures
        count_found(rows, t, v) == 0,
    decreases rows.len(),
{
    if rows.len() > 0 {
        assert(rows.last() == rows[rows.len() - 1]);
        lemma_count_found_none(rows.drop_last(), t, v);
    }
}

/// With distinct pairs, a pair is counted once when present and never otherwise.
proof fn lemma_count_found_distinct(rows: Seq<Row>, t: ItemType, v: Seq<char>)
    requires
        distinct_pairs(rows),
    ensures
        count_found(rows, t, v) == if exists|k: int| 0 <= k < rows.len() && (#[trigger] rows[k]).0 == v && rows[k].1 == t {
            1nat
        } else {
            0nat
        },
{
    if exists|k: int| 0 <= k < rows.len() && (#[trigger] rows[k]).0 == v && rows[k].1 == t {
        let k = choose|k: int| 0 <= k < rows.len() && (#[trigger] rows[k]).0 == v && rows[k].1 == t;
        let a = rows.subrange(0, k);
        let m = rows.subrange(k, k + 1);
        let b = rows.subrange(k + 1, rows.len() as int);
        assert(rows =~= a + m + b);
        assert forall|x: int| 0 <= x < a.len() implies !((#[trigger] a[x]).0 == v && a[x].1 == t) by {
            assert(a[x] == rows[x]);
        }
        assert forall|x: int| 0 <= x < b.len() implies !((#[trigger] b[x]).0 == v && b[x].1 == t) by {
            assert(b[x] == rows[k + 1 + x]);
        }
        lemma_count_found_none(a, t, v);
        lemma_count_found_none(b, t, v);
        lemma_count_found_concat(a, m, t, v);
        lemma_count_found_concat(a + m, b, t, v);
        assert(m.drop_last() =~= Seq::<Row>::empty());
        assert(count_found(m.drop_last(), t, v) == 0);
        assert(m.last() == rows[k]);
        assert(count_found(m, t, v) == 1);
    } else {
        lemma_count_found_none(rows, t, v);
    }
}

/// Bounds that increase step by step increase overall.
proof fn lemma_bounds_le(b: Seq<int>, n: int, i: int, j: int)
    requires
        b.len() == n + 1,
        0 <= i <= j <= n,
        forall|x: int| 0 <= x < n ==> b[x] <= #[trigger] b[x + 1],
    ensures
        b[i] <= b[j],
    decreases j - i,
{
    if i < j {
        assert(b[i] <= b[i + 1]);
        lemma_bounds_le(b, n, i + 1, j);
    }
}

/// Appends one row per value of `values`, and the values to `out`; stops at
/// the first failure of the store.
fn store_values(
    db: &mut Database,
    values: &Vec<String>,
    t: ItemType,
    source_id: i32,
    file_id: i64,
    out: &mut Vec<String>,
) -> (r: Result<(), AppError>)
    requires
        old(db).wf(),
        is_source(source_id),
    ensures
        final(db).wf(),
        final(db).files() == old(db).files(),
        final(db).next_id() == old(db).next_id(),
        old(db).rows().is_prefix_of(final(db).rows()),
        forall|k: int| old(db).rows().len() <= k < final(db).rows().len() ==> (#[trigger] final(db).rows()[k]).2 == source_id
            && final(db).rows()[k].3 == file_id && final(db).rows()[k].1 == t && values.deep_view().contains(final(db).rows()[k].0),
        r is Ok ==> final(db).rows() == old(db).rows() + value_rows(values.deep_view(), t, source_id, file_id),
        r is Ok ==> final(out).deep_view() == old(out).deep_view() + values.deep_view(),
        r is Err ==> final(db).rows().len() == MAX_ROWS && r->Err_0 is Database,
{
    let ghost rows0 = db.rows();
    let ghost out0 = out.deep_view();
    let mut i: usize = 0;
    while i < values.len()
        invariant
            i <= values.len(),
            db.wf(),
            is_source(source_id),
            db.files() == old(db).files(),
            db.next_id() == old(db).next_id(),
            rows0 == old(db).rows(),
            out0 == old(out).deep_view(),
            db.rows() == rows0 + value_rows(values.deep_view().subrange(0, i as int), t, source_id, file_id),
            out.deep_view() == out0 + values.deep_view().subrange(0, i as int),
        decreases values.len() - i,
    {
        let ghost before_rows = db.rows();
        let ghost before_out = out.deep_view();
        match db.insert_extracted_item(values[i].as_str(), t, source_id, file_id) {
            Ok(()) => {},
            Err(e) => {
                assert(rows0.is_prefix_of(db.rows())) by {
                    assert(db.rows().subrange(0, rows0.len() as int) =~= rows0);
                }
                assert forall|k: int| rows0.len() <= k < db.rows().len() implies values.deep_view().contains(
                    (#[trigger] db.rows()[k]).0) by {
                    assert(db.rows()[k] == value_rows(values.deep_view().subrange(0, i as int), t, source_id, file_id)[k - rows0.len()]);
                    assert(values.deep_view()[k - rows0.len()] == db.rows()[k].0);
                }
                assert(forall|k: int| rows0.len() <= k < db.rows().len() ==> #[trigger] db.rows()[k]
                    == value_rows(values.deep_view().subrange(0, i as int), t, source_id, file_id)[k - rows0.len()]);
                return Err(e);
            },
        }
        out.push(values[i].clone());
        proof {
            assert(values.deep_view()[i as int] == values[i as int]@);
            assert(value_rows(values.deep_view().subrange(0, i + 1), t, source_id, file_id) =~= value_rows(
                values.deep_view().subrange(0, i as int), t, source_id, file_id).push((values[i as int]@, t, source_id, file_id)));
            assert(db.rows() =~= rows0 + value_rows(values.deep_view().subrange(0, i + 1), t, source_id, file_id));
            assert(out.deep_view() =~= before_out.push(values[i as int]@));
            assert(out.deep_view() =~= out0 + values.deep_view().subrange(0, i + 1));
        }
        i = i + 1;
    }
    assert(values.deep_view().subrange(0, i as int) =~= values.deep_view());
    assert(db.rows().subrange(0, rows0.len() as int) =~= rows0);
    assert(forall|k: int| rows0.len() <= k < db.rows().len() ==> #[trigger] db.rows()[k]
        == value_rows(values.deep_view(), t, source_id, file_id)[k - rows0.len()]);
    assert forall|k: int| rows0.len() <= k < db.rows().len() implies values.deep_view().contains(
        (#[trigger] db.rows()[k]).0) by {
        assert(values.deep_view()[k - rows0.len()] == db.rows()[k].0);
    }
    Ok(())
}

/// The order in which a window's finds are stored: phones, e-mails, IPs.
pub open spec fn type_rank(t: ItemType) -> int {
    match t {
        ItemType::Phone => 0,
        ItemType::Email => 1,
        ItemType::Ip => 2,
    }
}

/// `w` is what scanning `text` stores: each value that an extractor finds,
/// once per kind, phones first, then e-mails, then IPs.
pub open spec fn window_rows(ex: Extractors, text: Seq<char>, w: Seq<Row>) -> bool {
    &&& distinct_pairs(w)
    &&& forall|i: int, j: int| 0 <= i < j < w.len() ==> type_rank((#[trigger] w[i]).1) <= type_rank((#[trigger] w[j]).1)
    &&& forall|k: int| 0 <= k < w.len() ==> found_by(ex, (#[trigger] w[k]).1, text, w[k].0)
    &&& forall|t: ItemType, v: Seq<char>| #[trigger] found_by(ex, t, text, v) ==> exists|k: int|
        0 <= k < w.len() && (#[trigger] w[k]).0 == v && w[k].1 == t
}

/// `b` splits `seg` into the rows of each chunk of `recs`, in chunk order.
pub open spec fn chunk_bounds(ex: Extractors, recs: Seq<Seq<char>>, seg: Seq<Row>, b: Seq<int>, n: int) -> bool {
    &&& b.len() == n + 1
    &&& b[0] == 0
    &&& b[n] == seg.len()
    &&& forall|i: int| 0 <= i < n ==> b[i] <= #[trigger] b[i + 1]
        && window_rows(ex, chunk_window(recs, i), seg.subrange(b[i], b[i + 1]))
}

/// What ingesting file `name` with content `bytes` under `source_id` at
/// time `ts` does to store `db0`, leaving `db1` and returning `r`.
pub open spec fn ingest_outcome(
    ex: Extractors,
    name: Seq<char>,
    bytes: Seq<u8>,
    sheets: Option<Seq<Seq<Seq<char>>>>,
    source_id: i32,
    ts: Seq<char>,
    db0: Database,
    db1: Database,
    r: Result<Seq<Seq<char>>, AppError>,
) -> bool {
    &&& decoded_records(name, bytes, sheets) is None ==> r is Err && r->Err_0 is Excel && db1 == db0
    &&& decoded_records(name, bytes, sheets) is Some && db0.next_id() == i64::MAX ==> r is Err && r->Err_0 is Database && db1 == db0
    &&& decoded_records(name, bytes, sheets) is Some && db0.next_id() < i64::MAX ==> {
        let recs = decoded_records(name, bytes, sheets)->Some_0;
        let id = db0.next_id();
        let seg = db1.rows().skip(db0.rows().len() as int);
        &&& db1.files() == db0.files().push((Some(id), name, source_id, joined(recs, seq!['\n']), Some(ts)))
        &&& db0.rows().is_prefix_of(db1.rows())
        &&& forall|k: int| 0 <= k < seg.len() ==> {
            &&& (#[trigger] seg[k]).2 == source_id
            &&& seg[k].3 == id
            &&& exists|c: int| 0 <= c < chunk_count(recs.len() as int)
                && #[trigger] found_by(ex, seg[k].1, chunk_window(recs, c), seg[k].0)
        }
        &&& r is Err ==> db1.rows().len() == MAX_ROWS && r->Err_0 is Database
        &&& r is Ok ==> {
            &&& seg.len() == r->Ok_0.len()
            &&& forall|k: int| 0 <= k < seg.len() ==> {
                &&& (#[trigger] seg[k]).0 == r->Ok_0[k]
                &&& exists|c: int| 0 <= c < chunk_count(recs.len() as int)
                    && #[trigger] found_by(ex, seg[k].1, chunk_window(recs, c), seg[k].0)
            }
            &&& forall|c: int, t: ItemType, v: Seq<char>| 0 <= c < chunk_count(recs.len() as int)
                && #[trigger] found_by(ex, t, chunk_window(recs, c), v) ==> exists|k: int|
                0 <= k < seg.len() && (#[trigger] seg[k]).0 == v && seg[k].1 == t
            &&& forall|t: ItemType, v: Seq<char>| #[trigger] count_found(seg, t, v)
                == chunks_finding(ex, recs, t, v, chunk_count(recs.len() as int))
            &&& exists|b: Seq<int>| chunk_bounds(ex, recs, seg, b, chunk_count(recs.len() as int))
        }
    }
}

/// Decodes files and runs the extractors over them, chunk by chunk.
pub struct FileProcessor {
    pub extractors: Extractors,
}

impl FileProcessor {
    /// A processor with the standard extractors.
    pub fn new() -> (r: Self)
        ensures
            r.extractors.phone_patterns.deep_view() == seq![
                crate::extractors::PHONE_PARENTHESIZED@,
                crate::extractors::PHONE_CONCATENATED@,
                crate::extractors::PHONE_SEPARATED@,
            ],
            r.extractors.email_pattern@ == crate::extractors::EMAIL@,
            r.extractors.ipv4_pattern@ == crate::extractors::IPV4@,
            r.extractors.ipv6_pattern@ == crate::extractors::IPV6@,
    {
        FileProcessor { extractors: Extractors::new() }
    }

    /// Runs the three extractors over `window` and stores what they find.
    fn ingest_window(
        &self,
        db: &mut Database,
        window: &str,
        source_id: i32,
        file_id: i64,
        out: &mut Vec<String>,
    ) -> (r: Result<(), AppError>)
        requires
            old(db).wf(),
            is_source(source_id),
        ensures
            final(db).wf(),
            final(db).files() == old(db).files(),
            final(db).next_id() == old(db).next_id(),
            old(db).rows().is_prefix_of(final(db).rows()),
            forall|k: int| old(db).rows().len() <= k < final(db).rows().len() ==> (#[trigger] final(db).rows()[k]).2 == source_id
                && final(db).rows()[k].3 == file_id && found_by(self.extractors, final(db).rows()[k].1, window@, final(db).rows()[k].0),
            r is Err ==> final(db).rows().len() == MAX_ROWS && r->Err_0 is Database,
            r is Ok ==> {
                let seg = final(db).rows().skip(old(db).rows().len() as int);
                &&& distinct_pairs(seg)
                &&& window_rows(self.extractors, window@, seg)
                &&& final(out).deep_view().len() == old(out).deep_view().len() + seg.len()
                &&& final(out).deep_view().subrange(0, old(out).deep_view().len() as int) == old(out).deep_view()
                &&& forall|k: int| 0 <= k < seg.len() ==> {
                    &&& (#[trigger] seg[k]).0 == final(out).deep_view()[old(out).deep_view().len() + k]
                    &&& seg[k].2 == source_id
                    &&& seg[k].3 == file_id
                    &&& found_by(self.extractors, seg[k].1, window@, seg[k].0)
                }
                &&& forall|t: ItemType, v: Seq<char>| #[trigger] found_by(self.extractors, t, window@, v) ==> exists|k: int|
                    0 <= k < seg.len() && (#[trigger] seg[k]).0 == v && seg[k].1 == t
            },
    {
        let ghost rows0 = db.rows();
        let ghost out0 = out.deep_view();
        let ex = &self.extractors;
        let phones = ex.extract_phones(window);
        let emails = ex.extract_emails(window);
        let ips = ex.extract_ips(window);
        let r1 = store_values(db, &phones, ItemType::Phone, source_id, file_id, out);
        let ghost rows1 = db.rows();
        if r1.is_err() {
            assert(rows0.is_prefix_of(db.rows()));
            assert forall|k: int| rows0.len() <= k < rows1.len() implies found_by(self.extractors,
                (#[trigger] rows1[k]).1, window@, rows1[k].0) by {
                assert(phones.deep_view().contains(rows1[k].0));
            }
            return r1;
        }
        let r2 = store_values(db, &emails, ItemType::Email, source_id, file_id, out);
        let ghost rows2 = db.rows();
        proof {
            assert(rows0.is_prefix_of(rows2)) by {
                assert(rows2.subrange(0, rows0.len() as int) =~= rows1.subrange(0, rows0.len() as int));
            }
            assert forall|k: int| rows0.len() <= k < rows2.len() implies (#[trigger] rows2[k]).2 == source_id
                && rows2[k].3 == file_id && found_by(self.extractors, rows2[k].1, window@, rows2[k].0) by {
                if k < rows1.len() {
                    assert(rows2[k] == rows1[k]);
                    assert(phones.deep_view().contains(rows1[k].0));
                } else {
                    assert(emails.deep_view().contains(rows2[k].0));
                }
            }
        }
        if r2.is_err() {
            return r2;
        }
        let r = store_values(db, &ips, ItemType::Ip, source_id, file_id, out);
        proof {
            assert(rows0.is_prefix_of(db.rows())) by {
                assert(db.rows().subrange(0, rows0.len() as int) =~= rows2.subrange(0, rows0.len() as int));
            }
            assert forall|k: int| rows0.len() <= k < db.rows().len() implies (#[trigger] db.rows()[k]).2 == source_id
                && db.rows()[k].3 == file_id && found_by(self.extractors, db.rows()[k].1, window@, db.rows()[k].0) by {
                if k < rows2.len() {
                    assert(db.rows()[k] == rows2[k]);
                } else {
                    assert(ips.deep_view().contains(db.rows()[k].0));
                }
            }
        }
        proof {
            if r is Err {
                assert(rows0.is_prefix_of(db.rows())) by {
                    assert(db.rows().subrange(0, rows0.len() as int) =~= rows0);
                }
            } else {
                let p = value_rows(phones.deep_view(), ItemType::Phone, source_id, file_id);
                let e = value_rows(emails.deep_view(), ItemType::Email, source_id, file_id);
                let i = value_rows(ips.deep_view(), ItemType::Ip, source_id, file_id);
                let seg = db.rows().skip(rows0.len() as int);
                assert(seg =~= p + e + i);
                assert forall|x: int, y: int| 0 <= x < y < seg.len() implies type_rank((#[trigger] seg[x]).1)
                    <= type_rank((#[trigger] seg[y]).1) by {
                    if y < p.len() {
                    } else if y < p.len() + e.len() {
                    } else {
                    }
                }
                assert forall|x: int, y: int| 0 <= x < y < seg.len() implies !((#[trigger] seg[x]).0 == (#[trigger] seg[y]).0
                    && seg[x].1 == seg[y].1) by {
                    if x < p.len() && y < p.len() {
                        assert(phones.deep_view()[x] != phones.deep_view()[y]);
                    } else if p.len() <= x < p.len() + e.len() && p.len() <= y < p.len() + e.len() {
                        assert(emails.deep_view()[x - p.len()] != emails.deep_view()[y - p.len()]);
                    } else if p.len() + e.len() <= x && p.len() + e.len() <= y {
                        assert(ips.deep_view()[x - p.len() - e.len()] != ips.deep_view()[y - p.len() - e.len()]);
                    }
                }
                assert(out.deep_view() =~= out0 + phones.deep_view() + emails.deep_view() + ips.deep_view());
                assert(db.rows().subrange(0, rows0.len() as int) =~= rows0);
                assert(out.deep_view().subrange(0, out0.len() as int) =~= out0);
                assert forall|k: int| 0 <= k < seg.len() implies {
                    &&& (#[trigger] seg[k]).0 == out.deep_view()[out0.len() + k]
                    &&& seg[k].2 == source_id
                    &&& seg[k].3 == file_id
                    &&& found_by(self.extractors, seg[k].1, window@, seg[k].0)
                } by {
                    if k < p.len() {
                        assert(phones.deep_view().contains(phones.deep_view()[k]));
                    } else if k < p.len() + e.len() {
                        assert(emails.deep_view().contains(emails.deep_view()[k - p.len()]));
                    } else {
                        assert(ips.deep_view().contains(ips.deep_view()[k - p.len() - e.len()]));
                    }
                }
                assert forall|t: ItemType, v: Seq<char>| #[trigger] found_by(self.extractors, t, window@, v) implies exists|k: int|
                    0 <= k < seg.len() && (#[trigger] seg[k]).0 == v && seg[k].1 == t by {
                    match t {
                        ItemType::Phone => {
                            assert(phones.deep_view().contains(v));
                            let j = choose|j: int| 0 <= j < phones.deep_view().len() && phones.deep_view()[j] == v;
                            assert(seg[j].0 == v && seg[j].1 == t);
                        },
                        ItemType::Email => {
                            assert(emails.deep_view().contains(v));
                            let j = choose|j: int| 0 <= j < emails.deep_view().len() && emails.deep_view()[j] == v;
                            assert(seg[p.len() + j].0 == v && seg[p.len() + j].1 == t);
                        },
                        ItemType::Ip => {
                            assert(ips.deep_view().contains(v));
                            let j = choose|j: int| 0 <= j < ips.deep_view().len() && ips.deep_view()[j] == v;
                            assert(seg[p.len() + e.len() + j].0 == v && seg[p.len() + e.len() + j].1 == t);
                        },
                    }
                }
            }
        }
        r
    }

    #[verifier::rlimit(100)]
    /// Ingests one file into `db` under `source_id`, ingested at
    /// `processed_at`: decodes it, stores it with its records joined by line
    /// breaks, then scans it chunk by chunk and
    /// stores one row per value that an extractor finds in a chunk. Returns
    /// the values stored, in order.
    pub fn process_file(&self, file_name: &str, file_content: &[u8], sheets: &SheetRows, source_id: i32, processed_at: &str, db: &mut Database) -> (r:
        Result<Vec<String>, AppError>)
        requires
            old(db).wf(),
            is_source(source_id),
        ensures
            final(db).wf(),
            ingest_outcome(self.extractors, file_name@, file_content@, sheet_view(*sheets), source_id, processed_at@, *old(db), *final(db),
                match r {
                    Ok(v) => Ok(v.deep_view()),
                    Err(e) => Err(e),
                }),
    {
        let records = match decode(file_name, file_content, sheets) {
            Ok(recs) => recs,
            Err(e) => {
                return Err(e);
            },
        };
        let ghost recs = records.deep_view();
        let content = join_range(&records, 0, records.len(), "\n");
        proof {
            reveal_strlit("\n");
            reveal_strlit(" ");
            assert("\n"@ =~= seq!['\n']);
            assert(" "@ =~= seq![' ']);
            assert(records.deep_view().subrange(0, records.len() as int) =~= recs);
        }
        let file_id = match db.insert_file(file_name, source_id, content.as_str(), processed_at) {
            Ok(id) => id,
            Err(e) => {
                return Err(e);
            },
        };
        let ghost rows0 = db.rows();
        let ghost files1 = db.files();
        let ghost mut seg: Seq<Row> = Seq::empty();
        let mut out: Vec<String> = Vec::new();
        let n = records.len();
        let mut lo: usize = 0;
        let ghost mut c: int = 0;
        let ghost mut bounds: Seq<int> = seq![0int];
        assert(rows0 + seg =~= rows0);
        assert forall|t: ItemType, v: Seq<char>| #[trigger] count_found(seg, t, v) == chunks_finding(self.extractors, recs, t, v, c) by {}
        while lo < n
            invariant
                is_source(source_id),
                n == records.len(),
                recs == records.deep_view(),
                decoded_records(file_name@, file_content@, sheet_view(*sheets)) == Some(recs),
                old(db).next_id() < i64::MAX,
                file_id == old(db).next_id(),
                rows0 == old(db).rows(),
                files1 == old(db).files().push((Some(file_id), file_name@, source_id, joined(recs, seq!['\n']), Some(processed_at@))),
                lo <= n,
                0 <= c,
                lo < n ==> lo == c * 100 && c < chunk_count(n as int),
                lo == n ==> c == chunk_count(n as int),
                db.wf(),
                db.files() == files1,
                db.rows() == rows0 + seg,
                seg.len() == out.deep_view().len(),
                forall|k: int| 0 <= k < seg.len() ==> {
                    &&& (#[trigger] seg[k]).0 == out.deep_view()[k]
                    &&& seg[k].2 == source_id
                    &&& seg[k].3 == file_id
                    &&& exists|c2: int| 0 <= c2 < c && #[trigger] found_by(self.extractors, seg[k].1, chunk_window(recs, c2), seg[k].0)
                },
                forall|c2: int, t: ItemType, v: Seq<char>| 0 <= c2 < c && #[trigger] found_by(self.extractors, t, chunk_window(recs, c2), v)
                    ==> exists|k: int| 0 <= k < seg.len() && (#[trigger] seg[k]).0 == v && seg[k].1 == t,
                forall|t: ItemType, v: Seq<char>| #[trigger] count_found(seg, t, v) == chunks_finding(self.extractors, recs, t, v, c),
                chunk_bounds(self.extractors, recs, seg, bounds, c),
            decreases n - lo,
        {
            let hi: usize = if n - lo >= CHUNK_SIZE { lo + CHUNK_SIZE } else { n };
            let window = join_range(&records, lo, hi, " ");
            proof {
                reveal_strlit(" ");
                assert(" "@ =~= seq![' ']);
                assert(lo + 100 <= n ==> hi == lo + 100);
            }
            assert(window@ == chunk_window(recs, c));
            let ghost before_rows = db.rows();
            let ghost before_out = out.deep_view();
            let res = self.ingest_window(db, window.as_str(), source_id, file_id, &mut out);
            match res {
                Ok(()) => {},
                Err(e) => {
                    proof {
                        assert(db.rows().subrange(0, before_rows.len() as int) == before_rows);
                        assert(db.rows().subrange(0, rows0.len() as int) =~= rows0);
                        let fin = db.rows().skip(rows0.len() as int);
                        assert forall|k: int| 0 <= k < fin.len() implies (#[trigger] fin[k]).2 == source_id
                            && fin[k].3 == file_id by {
                            if k < seg.len() {
                                assert(fin[k] == db.rows()[rows0.len() + k]);
                                assert(db.rows()[rows0.len() + k] == before_rows[rows0.len() + k]);
                                assert(before_rows[rows0.len() + k] == seg[k]);
                            } else {
                                assert(fin[k] == db.rows()[rows0.len() + k]);
                            }
                        }
                        assert forall|k: int| 0 <= k < fin.len() implies {
                            &&& (#[trigger] fin[k]).2 == source_id
                            &&& fin[k].3 == file_id
                            &&& exists|c2: int| 0 <= c2 < chunk_count(recs.len() as int)
                                && #[trigger] found_by(self.extractors, fin[k].1, chunk_window(recs, c2), fin[k].0)
                        } by {
                            assert(fin[k] == db.rows()[rows0.len() + k]);
                            if k < seg.len() {
                                assert(db.rows()[rows0.len() + k] == before_rows[rows0.len() + k]);
                                assert(before_rows[rows0.len() + k] == seg[k]);
                                let c2 = choose|c2: int| 0 <= c2 < c && #[trigger] found_by(self.extractors, seg[k].1, chunk_window(recs, c2), seg[k].0);
                                assert(found_by(self.extractors, fin[k].1, chunk_window(recs, c2), fin[k].0));
                            } else {
                                assert(found_by(self.extractors, fin[k].1, chunk_window(recs, c), fin[k].0));
                            }
                        }
                        assert(e is Database);
                        assert(db.rows().len() == MAX_ROWS);
                        assert(old(db).rows().is_prefix_of(db.rows()));
                        assert(db.files() == files1);
                        assert(ingest_outcome(self.extractors, file_name@, file_content@, sheet_view(*sheets), source_id,
                            processed_at@, *old(db), *db, Err(e)));
                    }
                    return Err(e);
                },
            }
            proof {
                let w = db.rows().skip(before_rows.len() as int);
                assert(db.rows().subrange(0, before_rows.len() as int) == before_rows);
                assert(db.rows() =~= before_rows + w);
                let new_seg = seg + w;
                assert(db.rows() =~= rows0 + new_seg);
                assert forall|k: int| 0 <= k < new_seg.len() implies {
                    &&& (#[trigger] new_seg[k]).0 == out.deep_view()[k]
                    &&& new_seg[k].2 == source_id
                    &&& new_seg[k].3 == file_id
                    &&& exists|c2: int| 0 <= c2 < c + 1 && #[trigger] found_by(self.extractors, new_seg[k].1, chunk_window(recs, c2), new_seg[k].0)
                } by {
                    if k < seg.len() {
                        assert(new_seg[k] == seg[k]);
                        assert(out.deep_view()[k] == before_out[k]);
                        let c2 = choose|c2: int| 0 <= c2 < c && #[trigger] found_by(self.extractors, seg[k].1, chunk_window(recs, c2), seg[k].0);
                        assert(found_by(self.extractors, new_seg[k].1, chunk_window(recs, c2), new_seg[k].0));
                    } else {
                        assert(new_seg[k] == w[k - seg.len()]);
                        assert(found_by(self.extractors, new_seg[k].1, chunk_window(recs, c), new_seg[k].0));
                    }
                }
                assert forall|c2: int, t: ItemType, v: Seq<char>| 0 <= c2 < c + 1 && #[trigger] found_by(self.extractors, t, chunk_window(recs, c2), v)
                    implies exists|k: int| 0 <= k < new_seg.len() && (#[trigger] new_seg[k]).0 == v && new_seg[k].1 == t by {
                    if c2 < c {
                        let k = choose|k: int| 0 <= k < seg.len() && (#[trigger] seg[k]).0 == v && seg[k].1 == t;
                        assert(new_seg[k] == seg[k]);
                    } else {
                        assert(found_by(self.extractors, t, window@, v));
                        let k = choose|k: int| 0 <= k < w.len() && (#[trigger] w[k]).0 == v && w[k].1 == t;
                        assert(new_seg[seg.len() + k] == w[k]);
                    }
                }
                assert forall|t: ItemType, v: Seq<char>| #[trigger] count_found(new_seg, t, v)
                    == chunks_finding(self.extractors, recs, t, v, c + 1) by {
                    lemma_count_found_concat(seg, w, t, v);
                    lemma_count_found_distinct(w, t, v);
                    if found_by(self.extractors, t, chunk_window(recs, c), v) {
                        assert(found_by(self.extractors, t, window@, v));
                    } else if exists|k: int| 0 <= k < w.len() && (#[trigger] w[k]).0 == v && w[k].1 == t {
                        let k = choose|k: int| 0 <= k < w.len() && (#[trigger] w[k]).0 == v && w[k].1 == t;
                        assert(found_by(self.extractors, w[k].1, window@, w[k].0));
                    }
                }
                let nb = bounds.push(new_seg.len() as int);
                assert forall|x: int| 0 <= x < c + 1 implies nb[x] <= #[trigger] nb[x + 1]
                    && window_rows(self.extractors, chunk_window(recs, x), new_seg.subrange(nb[x], nb[x + 1])) by {
                    if x < c {
                        assert(nb[x] == bounds[x] && nb[x + 1] == bounds[x + 1]);
                        assert(bounds[x] <= bounds[x + 1]);
                        lemma_bounds_le(bounds, c, x + 1, c);
                        lemma_bounds_le(bounds, c, 0, x);
                        assert(new_seg.subrange(nb[x], nb[x + 1]) =~= seg.subrange(bounds[x], bounds[x + 1]));
                    } else {
                        assert(new_seg.subrange(nb[x], nb[x + 1]) =~= w);
                    }
                }
                bounds = nb;
                seg = new_seg;
                let cc = c;
                let nn = n as int;
                if hi < n {
                    assert(hi == (cc + 1) * 100);
                    assert((cc + 1) < (nn + 99) / 100) by (nonlinear_arith)
                        requires (cc + 1) * 100 < nn;
                } else {
                    assert(cc * 100 < nn && nn <= cc * 100 + 100);
                    assert((nn + 99) / 100 == cc + 1) by (nonlinear_arith)
                        requires cc * 100 < nn, nn <= cc * 100 + 100;
                }
                c = c + 1;
            }
            lo = hi;
        }
        proof {
            assert(db.rows().subrange(0, rows0.len() as int) =~= rows0);
            assert(db.rows().skip(rows0.len() as int) =~= seg);
        }
        Ok(out)
    }
}

} // verus!
