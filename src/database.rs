//! The entity store: files and extracted rows, and the aggregate and
//! cross-reference queries over them.
use vstd::prelude::*;
use crate::error::AppError;
use crate::models::{ExtractedItem, FileRecord, ItemType};
use crate::text::{lemma_seq_lt_irreflexive, lemma_seq_lt_total, lemma_seq_lt_transitive, seq_lt, str_lt};
use vstd::string::StringExecFns;

verus! {

/// One extracted row: a normalised value, its kind, its source and its file.
pub struct StoredItem {
    pub value: String,
    pub item_type: ItemType,
    pub source_id: i32,
    pub file_id: i64,
}

/// The model of a stored row.
pub type Row = (Seq<char>, ItemType, i32, i64);

impl View for StoredItem {
    type V = Row;

    open spec fn view(&self) -> Row {
        (self.value@, self.item_type, self.source_id, self.file_id)
    }
}

/// The rows of `items`, in order.
pub open spec fn rows_of(items: Seq<StoredItem>) -> Seq<Row> {
    items.map_values(|i: StoredItem| i@)
}

/// The number of rows of kind `t` with value `v` under source `s`.
pub open spec fn count_key(rows: Seq<Row>, t: ItemType, v: Seq<char>, s: i32) -> nat
    decreases rows.len(),
{
    if rows.len() == 0 {
        0
    } else {
        count_key(rows.drop_last(), t, v, s) + if rows.last().1 == t && rows.last().0 == v
            && rows.last().2 == s {
            1nat
        } else {
            0nat
        }
    }
}

/// The number of rows with value `v`, of any kind and source.
pub open spec fn count_value(rows: Seq<Row>, v: Seq<char>) -> nat
    decreases rows.len(),
{
    if rows.len() == 0 {
        0
    } else {
        count_value(rows.drop_last(), v) + if rows.last().0 == v {
            1nat
        } else {
            0nat
        }
    }
}

/// Whether value `v` occurs under two different sources.
pub open spec fn multi_source(rows: Seq<Row>, v: Seq<char>) -> bool {
    exists|i: int, j: int|
        0 <= i < rows.len() && 0 <= j < rows.len() && (#[trigger] rows[i]).0 == v && (#[trigger] rows[j]).0
            == v && rows[i].2 != rows[j].2
}

/// The order of an analysis view: higher count first, then smaller value,
/// then smaller source.
pub open spec fn ranks_before(a: ExtractedItem, b: ExtractedItem) -> bool {
    a.count > b.count || (a.count == b.count && (seq_lt(a.value@, b.value@) || (a.value@ == b.value@
        && a.source < b.source)))
}

/// Whether two rows of a view have the same value and source.
pub open spec fn same_key(a: ExtractedItem, b: ExtractedItem) -> bool {
    a.value@ == b.value@ && a.source == b.source
}

/// Each row of `s` ranks before the next.
pub open spec fn ranked(s: Seq<ExtractedItem>) -> bool {
    forall|k: int| 0 <= k < s.len() - 1 ==> ranks_before(#[trigger] s[k], s[k + 1])
}

/// No two rows of `s` have the same value and source.
pub open spec fn distinct_keys(s: Seq<ExtractedItem>) -> bool {
    forall|j: int, k: int| 0 <= j < k < s.len() ==> !same_key(#[trigger] s[j], #[trigger] s[k])
}

/// `out` is the aggregate view of kind `t` over `rows`: one row per value
/// and source seen with that kind, with its number of occurrences, in rank order.
pub open spec fn is_type_view(rows: Seq<Row>, t: ItemType, out: Seq<ExtractedItem>) -> bool {
    &&& ranked(out)
    &&& distinct_keys(out)
    &&& forall|k: int| 0 <= k < out.len() ==> {
        &&& (#[trigger] out[k]).item_type == t
        &&& out[k].count >= 1
        &&& out[k].count as int == count_key(rows, t, out[k].value@, out[k].source)
    }
    &&& forall|i: int| 0 <= i < rows.len() && (#[trigger] rows[i]).1 == t ==> exists|k: int|
        0 <= k < out.len() && (#[trigger] out[k]).value@ == rows[i].0 && out[k].source == rows[i].2
}

/// `out` is the cross-reference view over `rows`: one row per value seen
/// under two different sources, with its total number of occurrences, in
/// rank order (source 0, kind `Phone`).
pub open spec fn is_cross_view(rows: Seq<Row>, out: Seq<ExtractedItem>) -> bool {
    &&& ranked(out)
    &&& distinct_keys(out)
    &&& forall|k: int| 0 <= k < out.len() ==> {
        &&& multi_source(rows, (#[trigger] out[k]).value@)
        &&& out[k].count as int == count_value(rows, out[k].value@)
        &&& out[k].source == 0
        &&& out[k].item_type == ItemType::Phone
    }
    &&& forall|v: Seq<char>| multi_source(rows, v) ==> exists|k: int|
        0 <= k < out.len() && (#[trigger] out[k]).value@ == v
}

/// Two distinct keys are ranked one way or the other.
proof fn lemma_rank_total(a: ExtractedItem, b: ExtractedItem)
    requires
        !same_key(a, b),
    ensures
        ranks_before(a, b) || ranks_before(b, a),
{
    if a.value@ != b.value@ {
        lemma_seq_lt_total(a.value@, b.value@);
    }
}

/// Two rows agree on everything a view shows of them.
pub open spec fn same_row(a: ExtractedItem, b: ExtractedItem) -> bool {
    a.value@ == b.value@ && a.source == b.source && a.count == b.count && a.item_type == b.item_type
}

/// Some row of `s` agrees with `x`.
pub open spec fn row_in(x: ExtractedItem, s: Seq<ExtractedItem>) -> bool {
    exists|j: int| 0 <= j < s.len() && same_row(x, #[trigger] s[j])
}

/// Two views agree row by row.
pub open spec fn same_view(a: Seq<ExtractedItem>, b: Seq<ExtractedItem>) -> bool {
    a.len() == b.len() && forall|k: int| 0 <= k < a.len() ==> same_row(#[trigger] a[k], b[k])
}

/// The rank order is transitive.
proof fn lemma_rank_transitive(a: ExtractedItem, b: ExtractedItem, c: ExtractedItem)
    requires
        ranks_before(a, b),
        ranks_before(b, c),
    ensures
        ranks_before(a, c),
{
    if a.count == b.count && b.count == c.count {
        if seq_lt(a.value@, b.value@) && seq_lt(b.value@, c.value@) {
            lemma_seq_lt_transitive(a.value@, b.value@, c.value@);
        }
    }
}

/// The rank order is irreflexive.
proof fn lemma_rank_irreflexive(a: ExtractedItem)
    ensures
        !ranks_before(a, a),
{
    lemma_seq_lt_irreflexive(a.value@);
}

/// In a ranked sequence every row ranks before every later one.
proof fn lemma_ranked_pairwise(s: Seq<ExtractedItem>, i: int, j: int)
    requires
        ranked(s),
        0 <= i < j < s.len(),
    ensures
        ranks_before(s[i], s[j]),
    decreases j - i,
{
    if j > i + 1 {
        lemma_ranked_pairwise(s, i, j - 1);
        lemma_rank_transitive(s[i], s[j - 1], s[j]);
    }
}

/// Two ranked sequences that hold the same rows, up to `same_row`, agree row by row.
#[verifier::spinoff_prover]
#[verifier::rlimit(60)]
proof fn lemma_ranked_unique(a: Seq<ExtractedItem>, b: Seq<ExtractedItem>)
    requires
        ranked(a),
        ranked(b),
        forall|i: int| 0 <= i < a.len() ==> row_in(#[trigger] a[i], b),
        forall|j: int| 0 <= j < b.len() ==> row_in(#[trigger] b[j], a),
    ensures
        same_view(a, b),
    decreases a.len(),
{
    if a.len() == 0 {
        if b.len() > 0 {
            assert(row_in(b[0], a));
            let i = choose|i: int| 0 <= i < a.len() && same_row(b[0], a[i]);
        }
    } else if b.len() == 0 {
        assert(row_in(a[0], b));
        let j = choose|j: int| 0 <= j < b.len() && same_row(a[0], b[j]);
    } else {
        assert(row_in(a[0], b));
        assert(row_in(b[0], a));
        let j = choose|j: int| 0 <= j < b.len() && same_row(a[0], b[j]);
        let i = choose|i: int| 0 <= i < a.len() && same_row(b[0], a[i]);
        if j > 0 && i > 0 {
            lemma_ranked_pairwise(b, 0, j);
            lemma_ranked_pairwise(a, 0, i);
            lemma_rank_transitive(a[0], a[i], a[0]);
            lemma_rank_irreflexive(a[0]);
        } else if j > 0 {
            lemma_ranked_pairwise(b, 0, j);
            lemma_rank_irreflexive(b[0]);
        } else if i > 0 {
            lemma_ranked_pairwise(a, 0, i);
            lemma_rank_irreflexive(a[0]);
        }
        assert(same_row(a[0], b[0]));
        let ta = a.drop_first();
        let tb = b.drop_first();
        assert forall|x: int| 0 <= x < ta.len() implies row_in(#[trigger] ta[x], tb) by {
            assert(row_in(a[x + 1], b));
            let y = choose|y: int| 0 <= y < b.len() && same_row(a[x + 1], b[y]);
            lemma_ranked_pairwise(a, 0, x + 1);
            if y == 0 {
                lemma_rank_irreflexive(a[0]);
            }
            assert(same_row(ta[x], tb[y - 1]));
        }
        assert forall|y: int| 0 <= y < tb.len() implies row_in(#[trigger] tb[y], ta) by {
            assert(row_in(b[y + 1], a));
            let x = choose|x: int| 0 <= x < a.len() && same_row(b[y + 1], a[x]);
            lemma_ranked_pairwise(b, 0, y + 1);
            if x == 0 {
                lemma_rank_irreflexive(b[0]);
            }
            assert(same_row(tb[y], ta[x - 1]));
        }
        lemma_ranked_unique(ta, tb);
        assert forall|k: int| 0 <= k < a.len() implies same_row(#[trigger] a[k], b[k]) by {
            if k > 0 {
                assert(same_row(ta[k - 1], tb[k - 1]));
            }
        }
    }
}

/// The aggregate view of a kind is determined by the rows.
pub proof fn lemma_type_view_unique(rows: Seq<Row>, t: ItemType, a: Seq<ExtractedItem>, b: Seq<ExtractedItem>)
    requires
        is_type_view(rows, t, a),
        is_type_view(rows, t, b),
    ensures
        same_view(a, b),
{
    assert forall|i: int| 0 <= i < a.len() implies row_in(#[trigger] a[i], b) by {
        lemma_count_key_witness(rows, t, a[i].value@, a[i].source);
        let r = choose|r: int| 0 <= r < rows.len() && (#[trigger] rows[r]).1 == t && rows[r].0 == a[i].value@ && rows[r].2 == a[i].source;
        let j = choose|j: int| 0 <= j < b.len() && (#[trigger] b[j]).value@ == rows[r].0 && b[j].source == rows[r].2;
        assert(same_row(a[i], b[j]));
    }
    assert forall|j: int| 0 <= j < b.len() implies row_in(#[trigger] b[j], a) by {
        lemma_count_key_witness(rows, t, b[j].value@, b[j].source);
        let r = choose|r: int| 0 <= r < rows.len() && (#[trigger] rows[r]).1 == t && rows[r].0 == b[j].value@ && rows[r].2 == b[j].source;
        let i = choose|i: int| 0 <= i < a.len() && (#[trigger] a[i]).value@ == rows[r].0 && a[i].source == rows[r].2;
        assert(same_row(b[j], a[i]));
    }
    lemma_ranked_unique(a, b);
}

/// The cross-reference view is determined by the rows.
pub proof fn lemma_cross_view_unique(rows: Seq<Row>, a: Seq<ExtractedItem>, b: Seq<ExtractedItem>)
    requires
        is_cross_view(rows, a),
        is_cross_view(rows, b),
    ensures
        same_view(a, b),
{
    assert forall|i: int| 0 <= i < a.len() implies row_in(#[trigger] a[i], b) by {
        assert(multi_source(rows, a[i].value@));
        let j = choose|j: int| 0 <= j < b.len() && (#[trigger] b[j]).value@ == a[i].value@;
        assert(same_row(a[i], b[j]));
    }
    assert forall|j: int| 0 <= j < b.len() implies row_in(#[trigger] b[j], a) by {
        assert(multi_source(rows, b[j].value@));
        let i = choose|i: int| 0 <= i < a.len() && (#[trigger] a[i]).value@ == b[j].value@;
        assert(same_row(b[j], a[i]));
    }
    lemma_ranked_unique(a, b);
}

/// Whether `a` ranks before `b`.
fn rank_lt(a: &ExtractedItem, b: &ExtractedItem) -> (r: bool)
    ensures
        r == ranks_before(*a, *b),
{
    if a.count != b.count {
        a.count > b.count
    } else if str_lt(a.value.as_str(), b.value.as_str()) {
        true
    } else if a.value == b.value {
        a.source < b.source
    } else {
        false
    }
}

/// Puts rows with distinct keys in rank order.
#[verifier::spinoff_prover]
#[verifier::rlimit(50)]
fn rank_sort(entries: Vec<ExtractedItem>) -> (r: Vec<ExtractedItem>)
    requires
        distinct_keys(entries@),
    ensures
        ranked(r@),
        distinct_keys(r@),
        forall|x: ExtractedItem| r@.contains(x) <==> entries@.contains(x),
{
    let ghost orig = entries@;
    let mut rest = entries;
    let mut out: Vec<ExtractedItem> = Vec::new();
    while rest.len() > 0
        invariant
            rest.len() <= orig.len(),
            rest@ == orig.subrange(0, rest.len() as int),
            distinct_keys(orig),
            ranked(out@),
            distinct_keys(out@),
            forall|x: ExtractedItem| #[trigger] out@.contains(x) <==> exists|j: int|
                rest.len() <= j < orig.len() && orig[j] == x,
        decreases rest.len(),
    {
        let ghost n = rest.len() as int;
        let ghost rest_before = rest@;
        let e = rest.pop().unwrap();
        assert(rest_before[n - 1] == orig[n - 1]);
        assert(rest@ =~= orig.subrange(0, n - 1));
        proof {
            assert forall|k: int| 0 <= k < out@.len() implies !same_key(out@[k], e) by {
                assert(out@.contains(out@[k]));
                let j = choose|j: int| n <= j < orig.len() && orig[j] == out@[k];
                assert(!same_key(orig[n - 1], orig[j]));
            }
        }
        let mut p: usize = 0;
        while p < out.len() && rank_lt(&out[p], &e)
            invariant
                p <= out.len(),
                forall|k: int| 0 <= k < p ==> ranks_before(#[trigger] out@[k], e),
            decreases out.len() - p,
        {
            p = p + 1;
        }
        proof {
            if p < out.len() {
                lemma_rank_total(out@[p as int], e);
            }
        }
        let ghost before = out@;
        assert(forall|x: ExtractedItem| #[trigger] before.contains(x) <==> exists|j: int|
                n <= j < orig.len() && orig[j] == x);
        out.insert(p, e);
        proof {
            assert(out@ == before.insert(p as int, e));
            assert forall|k: int| 0 <= k < out@.len() - 1 implies ranks_before(#[trigger] out@[k], out@[k + 1]) by {
                if k < p - 1 {
                    assert(out@[k] == before[k] && out@[k + 1] == before[k + 1]);
                } else if k == p - 1 {
                } else if k == p {
                } else {
                    assert(out@[k] == before[k - 1] && out@[k + 1] == before[k]);
                }
            }
            assert forall|j: int, k: int| 0 <= j < k < out@.len() implies !same_key(#[trigger] out@[j], #[trigger] out@[k]) by {
                let bj = if j < p { j } else { j - 1 };
                let bk = if k < p { k } else { k - 1 };
                if j != p && k != p {
                    assert(out@[j] == before[bj] && out@[k] == before[bk]);
                } else if j == p {
                    assert(out@[k] == before[bk]);
                } else {
                    assert(out@[j] == before[bj]);
                }
            }
            assert forall|x: ExtractedItem| #[trigger] out@.contains(x) <==> exists|j: int|
                n - 1 <= j < orig.len() && orig[j] == x by {
                if out@.contains(x) {
                    let k = choose|k: int| 0 <= k < out@.len() && out@[k] == x;
                    if k != p {
                        let bk = if k < p { k } else { k - 1 };
                        assert(before[bk] == x);
                        assert(before.contains(x));
                    } else {
                        assert(orig[n - 1] == x);
                    }
                }
                if exists|j: int| n - 1 <= j < orig.len() && orig[j] == x {
                    let j = choose|j: int| n - 1 <= j < orig.len() && orig[j] == x;
                    if j == n - 1 {
                        assert(out@[p as int] == x);
                    } else {
                        assert(exists|j: int| n <= j < orig.len() && orig[j] == x);
                        assert(before.contains(x));
                        let k = choose|k: int| 0 <= k < before.len() && before[k] == x;
                        if k < p {
                            assert(out@[k] == x);
                        } else {
                            assert(out@[k + 1] == x);
                        }
                    }
                }
            }
        }
    }
    proof {
        assert forall|x: ExtractedItem| out@.contains(x) <==> orig.contains(x) by {
            if orig.contains(x) {
                let j = choose|j: int| 0 <= j < orig.len() && orig[j] == x;
            }
        }
    }
    out
}

/// There are no more rows of one key than rows.
proof fn lemma_count_key_bound(rows: Seq<Row>, t: ItemType, v: Seq<char>, s: i32)
    ensures
        count_key(rows, t, v, s) <= rows.len(),
    decreases rows.len(),
{
    if rows.len() > 0 {
        lemma_count_key_bound(rows.drop_last(), t, v, s);
    }
}

/// There are no more rows of one value than rows.
proof fn lemma_count_value_bound(rows: Seq<Row>, v: Seq<char>)
    ensures
        count_value(rows, v) <= rows.len(),
    decreases rows.len(),
{
    if rows.len() > 0 {
        lemma_count_value_bound(rows.drop_last(), v);
    }
}

/// The model of a stored file: identity, name, source, content, time of ingestion.
pub type FileView = (Option<i64>, Seq<char>, i32, Seq<char>, Option<Seq<char>>);

/// The model of a file record.
pub open spec fn file_view(f: FileRecord) -> FileView {
    (f.id, f.file_name@, f.source_id, f.content@, match f.processed_at {
        Some(t) => Some(t@),
        None => None,
    })
}

/// The models of `fs`, in order.
pub open spec fn files_of(fs: Seq<FileRecord>) -> Seq<FileView> {
    fs.map_values(|f: FileRecord| file_view(f))
}

/// Every file has an identity below `i64::MAX`, and identities increase.
pub open spec fn files_ok(fs: Seq<FileView>) -> bool {
    &&& forall|i: int| 0 <= i < fs.len() ==> (#[trigger] fs[i]).0 is Some && fs[i].0->Some_0 < i64::MAX
    &&& forall|i: int, j: int| 0 <= i < j < fs.len() ==> (#[trigger] fs[i]).0->Some_0 < (#[trigger] fs[j]).0->Some_0
}

/// The identity a store gives its next file after holding `fs`: one past
/// the last, or 1 when there is none.
pub open spec fn next_id_after(fs: Seq<FileView>) -> i64 {
    if fs.len() == 0 { 1 } else { (fs.last().0->Some_0 + 1) as i64 }
}

/// One of the two sources.
pub open spec fn is_source(s: i32) -> bool {
    s == 1 || s == 2
}

/// Every file and row belongs to one of the two sources.
pub open spec fn sources_ok(fs: Seq<FileView>, rows: Seq<Row>) -> bool {
    &&& forall|i: int| 0 <= i < fs.len() ==> is_source((#[trigger] fs[i]).2)
    &&& forall|k: int| 0 <= k < rows.len() ==> is_source((#[trigger] rows[k]).2)
}

/// A snapshot that a store can load: no more than `MAX_ROWS` rows, file
/// identities present and increasing, and every file and row under one of
/// the two sources.
pub open spec fn snapshot_ok(snap: Snapshot) -> bool {
    &&& snap.items.len() <= MAX_ROWS
    &&& files_ok(files_of(snap.files@))
    &&& sources_ok(files_of(snap.files@), rows_of(snap.items@))
}

/// Every file and row of a store, as written to and read from a container.
pub struct Snapshot {
    pub files: Vec<FileRecord>,
    pub items: Vec<StoredItem>,
}

/// A copy of a file record.
fn copy_file(f: &FileRecord) -> (r: FileRecord)
    ensures
        file_view(r) == file_view(*f),
{
    FileRecord {
        id: f.id,
        file_name: f.file_name.clone(),
        source_id: f.source_id,
        content: f.content.clone(),
        processed_at: match &f.processed_at {
            Some(t) => Some(t.clone()),
            None => None,
        },
    }
}

/// A copy of every file record, in order.
fn copy_files(fs: &Vec<FileRecord>) -> (r: Vec<FileRecord>)
    ensures
        files_of(r@) == files_of(fs@),
{
    let mut out: Vec<FileRecord> = Vec::new();
    let mut i: usize = 0;
    while i < fs.len()
        invariant
            i <= fs.len(),
            files_of(out@) == files_of(fs@.subrange(0, i as int)),
        decreases fs.len() - i,
    {
        let ghost before = out@;
        out.push(copy_file(&fs[i]));
        assert(files_of(out@) =~= files_of(before).push(file_view(fs@[i as int])));
        assert(files_of(fs@.subrange(0, i + 1)) =~= files_of(fs@.subrange(0, i as int)).push(file_view(fs@[i as int])));
        i = i + 1;
    }
    assert(fs@.subrange(0, i as int) =~= fs@);
    out
}

/// A copy of every row, in order.
fn copy_items(items: &Vec<StoredItem>) -> (r: Vec<StoredItem>)
    ensures
        rows_of(r@) == rows_of(items@),
{
    let mut out: Vec<StoredItem> = Vec::new();
    let mut i: usize = 0;
    while i < items.len()
        invariant
            i <= items.len(),
            rows_of(out@) == rows_of(items@.subrange(0, i as int)),
        decreases items.len() - i,
    {
        let ghost before = out@;
        let it = &items[i];
        out.push(StoredItem { value: it.value.clone(), item_type: it.item_type, source_id: it.source_id, file_id: it.file_id });
        assert(rows_of(out@) =~= rows_of(before).push(items@[i as int]@));
        assert(rows_of(items@.subrange(0, i + 1)) =~= rows_of(items@.subrange(0, i as int)).push(items@[i as int]@));
        i = i + 1;
    }
    assert(items@.subrange(0, i as int) =~= items@);
    out
}

/// A well-formed store's snapshot loads, and the store it loads into has
/// per-kind and cross-reference views that are the same, row by row, as the
/// saved store's own.
pub proof fn lemma_snapshot_round_trip(
    a: Database,
    snap: Snapshot,
    b: Database,
    t: ItemType,
    va: Seq<ExtractedItem>,
    vb: Seq<ExtractedItem>,
    xa: Seq<ExtractedItem>,
    xb: Seq<ExtractedItem>,
)
    requires
        a.wf(),
        files_of(snap.files@) == a.files(),
        rows_of(snap.items@) == a.rows(),
        b.rows() == rows_of(snap.items@),
        is_type_view(a.rows(), t, va),
        is_type_view(b.rows(), t, vb),
        is_cross_view(a.rows(), xa),
        is_cross_view(b.rows(), xb),
    ensures
        snapshot_ok(snap),
        same_view(va, vb),
        same_view(xa, xb),
{
    assert(snap.items@.len() == rows_of(snap.items@).len());
    lemma_type_view_unique(a.rows(), t, va, vb);
    lemma_cross_view_unique(a.rows(), xa, xb);
}

/// The largest number of rows the store holds, so that every count fits in an `i32`.
pub const MAX_ROWS: usize = 2147483647;

/// The store: the files ingested, in order of insertion, and the rows extracted from them.
pub struct Database {
    files: Vec<FileRecord>,
    items: Vec<StoredItem>,
    next_file_id: i64,
}

impl Database {
    /// The rows of the store, in order of insertion.
    pub closed spec fn rows(&self) -> Seq<Row> {
        rows_of(self.items@)
    }

    /// The store holds no more rows than `MAX_ROWS`, its files have
    /// identities in increasing order, and the next identity is above them all.
    pub open spec fn wf(&self) -> bool {
        &&& self.rows().len() <= MAX_ROWS
        &&& files_ok(self.files())
        &&& forall|i: int| 0 <= i < self.files().len() ==> (#[trigger] self.files()[i]).0->Some_0 < self.next_id()
        &&& sources_ok(self.files(), self.rows())
    }

    /// The files of the store, in order of insertion.
    pub closed spec fn files(&self) -> Seq<FileView> {
        files_of(self.files@)
    }

    /// The identity that the next inserted file gets.
    pub closed spec fn next_id(&self) -> i64 {
        self.next_file_id
    }

    /// An empty store.
    pub fn new_memory() -> (r: Database)
        ensures
            r.wf(),
            r.rows() == Seq::<Row>::empty(),
            r.files() == Seq::<FileView>::empty(),
            r.next_id() == 1,
    {
        let r = Database { files: Vec::new(), items: Vec::new(), next_file_id: 1 };
        assert(r.rows() =~= Seq::<Row>::empty());
        assert(r.files() =~= Seq::<FileView>::empty());
        r
    }

    /// Stores a file, ingested at `processed_at`, and returns its identity,
    /// one that no stored file has; fails only when identities are exhausted.
    pub fn insert_file(&mut self, file_name: &str, source_id: i32, content: &str, processed_at: &str) -> (r: Result<i64, AppError>)
        requires
            old(self).wf(),
            is_source(source_id),
        ensures
            final(self).wf(),
            final(self).rows() == old(self).rows(),
            r is Ok <==> old(self).next_id() < i64::MAX,
            r is Ok ==> {
                &&& r->Ok_0 == old(self).next_id()
                &&& forall|i: int| 0 <= i < old(self).files().len() ==> (#[trigger] old(self).files()[i]).0 != Some(r->Ok_0)
                &&& final(self).next_id() == old(self).next_id() + 1
                &&& final(self).files() == old(self).files().push(
                    (Some(r->Ok_0), file_name@, source_id, content@, Some(processed_at@)))
            },
            r is Err ==> *final(self) == *old(self) && r->Err_0 is Database,
    {
        if self.next_file_id == i64::MAX {
            return Err(AppError::Database(String::from_str("file identities exhausted")));
        }
        let id = self.next_file_id;
        let f = FileRecord {
            id: Some(id),
            file_name: String::from_str(file_name),
            source_id,
            content: String::from_str(content),
            processed_at: Some(String::from_str(processed_at)),
        };
        let ghost before = self.files@;
        let ghost old_files = self.files();
        self.files.push(f);
        self.next_file_id = id + 1;
        proof {
            assert(self.files() =~= files_of(before).push(file_view(f)));
            assert forall|i: int, j: int| 0 <= i < j < self.files().len() implies
                (#[trigger] self.files()[i]).0->Some_0 < (#[trigger] self.files()[j]).0->Some_0 by {
                if j < old_files.len() {
                    assert(self.files()[i] == old_files[i] && self.files()[j] == old_files[j]);
                } else {
                    assert(self.files()[i] == old_files[i]);
                }
            }
            assert forall|i: int| 0 <= i < self.files().len() implies (#[trigger] self.files()[i]).0 is Some
                && self.files()[i].0->Some_0 < i64::MAX && self.files()[i].0->Some_0 < self.next_id() by {
                if i < old_files.len() {
                    assert(self.files()[i] == old_files[i]);
                }
            }
            assert forall|i: int| 0 <= i < self.files().len() implies is_source((#[trigger] self.files()[i]).2) by {
                if i < old_files.len() {
                    assert(self.files()[i] == old_files[i]);
                }
            }
            assert forall|i: int| 0 <= i < old_files.len() implies (#[trigger] old_files[i]).0 != Some(id) by {
                assert(old_files[i].0->Some_0 < id);
            }
        }
        Ok(id)
    }

    /// Appends one extracted row; fails only when the store is full.
    pub fn insert_extracted_item(&mut self, value: &str, item_type: ItemType, source_id: i32, file_id: i64) -> (r: Result<(), AppError>)
        requires
            old(self).wf(),
            is_source(source_id),
        ensures
            final(self).wf(),
            final(self).files() == old(self).files(),
            final(self).next_id() == old(self).next_id(),
            r is Ok <==> old(self).rows().len() < MAX_ROWS,
            r is Ok ==> final(self).rows() == old(self).rows().push((value@, item_type, source_id, file_id)),
            r is Err ==> final(self).rows() == old(self).rows() && final(self).rows().len() == MAX_ROWS && r->Err_0 is Database,
    {
        if self.items.len() >= MAX_ROWS {
            return Err(AppError::Database(String::from_str("the store is full")));
        }
        let it = StoredItem { value: String::from_str(value), item_type, source_id, file_id };
        let ghost before = self.items@;
        self.items.push(it);
        assert(self.rows() =~= rows_of(before).push(it@));
        assert forall|k: int| 0 <= k < self.rows().len() implies is_source((#[trigger] self.rows()[k]).2) by {
            if k < before.len() {
                assert(self.rows()[k] == rows_of(before)[k]);
            }
        }
        Ok(())
    }

    /// Every file, in order of insertion.
    pub fn get_all_files(&self) -> (r: Vec<FileRecord>)
        ensures
            files_of(r@) == self.files(),
    {
        copy_files(&self.files)
    }

    /// Removes every file and row.
    pub fn clear_all(&mut self)
        ensures
            final(self).wf(),
            final(self).rows() == Seq::<Row>::empty(),
            final(self).files() == Seq::<FileView>::empty(),
            final(self).next_id() == 1,
    {
        self.files = Vec::new();
        self.items = Vec::new();
        self.next_file_id = 1;
        assert(self.rows() =~= Seq::<Row>::empty());
        assert(self.files() =~= Seq::<FileView>::empty());
    }

    /// An independent copy of every file and row.
    pub fn save_snapshot(&self) -> (r: Snapshot)
        ensures
            files_of(r.files@) == self.files(),
            rows_of(r.items@) == self.rows(),
            self.wf() ==> snapshot_ok(r),
    {
        Snapshot { files: copy_files(&self.files), items: copy_items(&self.items) }
    }

    /// Replaces the whole content of the store by that of `snap`; fails,
    /// leaving the store as it was, when `snap` is not one that a store
    /// saves (see `snapshot_ok`).
    pub fn load_snapshot(&mut self, snap: Snapshot) -> (r: Result<(), AppError>)
        ensures
            r is Ok <==> snapshot_ok(snap),
            r is Ok ==> {
                &&& final(self).wf()
                &&& final(self).files() == files_of(snap.files@)
                &&& final(self).rows() == rows_of(snap.items@)
                &&& final(self).next_id() == next_id_after(files_of(snap.files@))
            },
            r is Err ==> *final(self) == *old(self) && r->Err_0 is Database,
    {
        if snap.items.len() > MAX_ROWS {
            return Err(AppError::Database(String::from_str("the snapshot holds too many rows")));
        }
        let ghost fs = files_of(snap.files@);
        let mut last: i64 = 0;
        let mut i: usize = 0;
        while i < snap.files.len()
            invariant
                i <= snap.files.len(),
                fs == files_of(snap.files@),
                files_ok(fs.subrange(0, i as int)),
                forall|k: int| 0 <= k < i ==> is_source((#[trigger] fs[k]).2),
                i > 0 ==> last == fs[i - 1].0->Some_0,
                forall|k: int| 0 <= k < i ==> (#[trigger] fs[k]).0->Some_0 <= last,
            decreases snap.files.len() - i,
        {
            let src = snap.files[i].source_id;
            let ok = match snap.files[i].id {
                Some(id) => (i == 0 || id > last) && id < i64::MAX && (src == 1 || src == 2),
                None => false,
            };
            if !ok {
                proof {
                    assert(fs[i as int] == file_view(snap.files@[i as int]));
                    assert(!snapshot_ok(snap)) by {
                        if fs[i as int].0 is Some && fs[i as int].0->Some_0 < i64::MAX && i > 0 && is_source(fs[i as int].2) {
                            assert(fs[i - 1].0->Some_0 == last);
                            assert(!(fs[i - 1].0->Some_0 < fs[i as int].0->Some_0));
                        }
                    }
                }
                return Err(AppError::Database(String::from_str("the snapshot's file identities are missing or out of order")));
            }
            let id = snap.files[i].id.unwrap();
            proof {
                assert(fs[i as int] == file_view(snap.files@[i as int]));
                assert(is_source(fs[i as int].2));
                let p = fs.subrange(0, i + 1);
                assert forall|a: int, b: int| 0 <= a < b < p.len() implies
                    (#[trigger] p[a]).0->Some_0 < (#[trigger] p[b]).0->Some_0 by {
                    if b < i {
                        assert(fs.subrange(0, i as int)[a] == p[a] && fs.subrange(0, i as int)[b] == p[b]);
                    } else {
                        assert(p[a] == fs[a]);
                    }
                }
                assert forall|a: int| 0 <= a < p.len() implies (#[trigger] p[a]).0 is Some && p[a].0->Some_0 < i64::MAX by {
                    if a < i {
                        assert(fs.subrange(0, i as int)[a] == p[a]);
                    }
                }
            }
            last = id;
            i = i + 1;
        }
        assert(fs.subrange(0, i as int) =~= fs);
        let ghost rs = rows_of(snap.items@);
        let mut j: usize = 0;
        while j < snap.items.len()
            invariant
                j <= snap.items.len(),
                rs == rows_of(snap.items@),
                forall|k: int| 0 <= k < j ==> is_source((#[trigger] rs[k]).2),
            decreases snap.items.len() - j,
        {
            let src = snap.items[j].source_id;
            if !(src == 1 || src == 2) {
                assert(rs[j as int] == snap.items@[j as int]@);
                return Err(AppError::Database(String::from_str("the snapshot holds a row of an unknown source")));
            }
            assert(rs[j as int] == snap.items@[j as int]@);
            j = j + 1;
        }
        assert(sources_ok(fs, rs));
        self.next_file_id = if i == 0 { 1 } else { last + 1 };
        self.files = snap.files;
        self.items = snap.items;
        Ok(())
    }

    /// The aggregate view of one kind: for each value and source seen with
    /// kind `item_type`, the number of rows, by count descending, then value
    /// and source ascending.
    pub fn get_extracted_items_by_type(&self, item_type: ItemType) -> (r: Vec<ExtractedItem>)
        requires
            self.wf(),
        ensures
            is_type_view(self.rows(), item_type, r@),
    {
        let ghost rows = self.rows();
        let mut groups: Vec<ExtractedItem> = Vec::new();
        let mut i: usize = 0;
        while i < self.items.len()
            invariant
                i <= self.items.len() <= MAX_ROWS,
                rows == self.rows(),
                rows.len() == self.items.len(),
                distinct_keys(groups@),
                forall|k: int| 0 <= k < groups@.len() ==> {
                    &&& (#[trigger] groups@[k]).item_type == item_type
                    &&& groups@[k].count >= 1
                    &&& groups@[k].count as int == count_key(rows.subrange(0, i as int), item_type,
                        groups@[k].value@, groups@[k].source)
                },
                forall|j: int| 0 <= j < i && (#[trigger] rows[j]).1 == item_type ==> exists|k: int|
                    0 <= k < groups@.len() && (#[trigger] groups@[k]).value@ == rows[j].0 && groups@[k].source == rows[j].2,
            decreases self.items.len() - i,
        {
            let ghost pre = rows.subrange(0, i as int);
            let ghost post = rows.subrange(0, i + 1);
            proof {
                assert(post.drop_last() =~= pre);
                assert(post.last() == rows[i as int]);
                assert(rows[i as int] == self.items@[i as int]@);
            }
            let it = &self.items[i];
            if it.item_type == item_type {
                let mut k: usize = 0;
                while k < groups.len() && !(groups[k].value == it.value && groups[k].source == it.source_id)
                    invariant
                        k <= groups.len(),
                        forall|m: int| 0 <= m < k ==> !(#[trigger] groups@[m].value@ == it.value@
                            && groups@[m].source == it.source_id),
                    decreases groups.len() - k,
                {
                    k = k + 1;
                }
                let ghost before = groups@;
                if k < groups.len() {
                    proof {
                        lemma_count_key_bound(pre, item_type, it.value@, it.source_id);
                    }
                    let g = ExtractedItem {
                        value: groups[k].value.clone(),
                        source: groups[k].source,
                        count: groups[k].count + 1,
                        item_type,
                    };
                    groups.set(k, g);
                    proof {
                        assert forall|j: int, m: int| 0 <= j < m < groups@.len() implies !same_key(
                            #[trigger] groups@[j], #[trigger] groups@[m]) by {
                            assert(same_key(groups@[j], before[j]) && same_key(groups@[m], before[m]));
                        }
                        assert forall|j: int| 0 <= j < i + 1 && (#[trigger] rows[j]).1 == item_type implies exists|m: int|
                            0 <= m < groups@.len() && (#[trigger] groups@[m]).value@ == rows[j].0 && groups@[m].source == rows[j].2 by {
                            if j < i {
                                let m = choose|m: int| 0 <= m < before.len() && (#[trigger] before[m]).value@ == rows[j].0 && before[m].source == rows[j].2;
                                assert(same_key(groups@[m], before[m]));
                            } else {
                                assert(same_key(groups@[k as int], before[k as int]));
                            }
                        }
                        assert forall|m: int| 0 <= m < groups@.len() implies
                            (#[trigger] groups@[m]).count as int == count_key(post, item_type, groups@[m].value@, groups@[m].source) by {
                            if m != k {
                                assert(!same_key(before[m], before[k as int]) || m == k);
                            }
                        }
                    }
                } else {
                    groups.push(ExtractedItem {
                        value: it.value.clone(),
                        source: it.source_id,
                        count: 1,
                        item_type,
                    });
                    proof {
                        assert(groups@ == before.push(groups@[before.len() as int]));
                        assert forall|j: int, m: int| 0 <= j < m < groups@.len() implies !same_key(
                            #[trigger] groups@[j], #[trigger] groups@[m]) by {
                            if m == before.len() {
                                assert(groups@[j] == before[j]);
                            } else {
                                assert(groups@[j] == before[j] && groups@[m] == before[m]);
                            }
                        }
                        assert forall|j: int| 0 <= j < i + 1 && (#[trigger] rows[j]).1 == item_type implies exists|m: int|
                            0 <= m < groups@.len() && (#[trigger] groups@[m]).value@ == rows[j].0 && groups@[m].source == rows[j].2 by {
                            if j < i {
                                let m = choose|m: int| 0 <= m < before.len() && (#[trigger] before[m]).value@ == rows[j].0 && before[m].source == rows[j].2;
                                assert(groups@[m] == before[m]);
                            } else {
                                assert(groups@[before.len() as int].value@ == rows[j].0);
                            }
                        }
                        assert forall|m: int| 0 <= m < groups@.len() implies
                            (#[trigger] groups@[m]).count as int == count_key(post, item_type, groups@[m].value@, groups@[m].source) by {
                            if m < before.len() {
                                assert(groups@[m] == before[m]);
                                assert(count_key(pre, item_type, groups@[m].value@, groups@[m].source) >= 1);
                            } else {
                                if count_key(pre, item_type, it.value@, it.source_id) > 0 {
                                    lemma_count_key_witness(pre, item_type, it.value@, it.source_id);
                                    let j = choose|j: int| 0 <= j < pre.len() && (#[trigger] pre[j]).1 == item_type
                                        && pre[j].0 == it.value@ && pre[j].2 == it.source_id;
                                    assert(rows[j] == pre[j]);
                                    let m2 = choose|m2: int| 0 <= m2 < before.len() && (#[trigger] before[m2]).value@ == rows[j].0 && before[m2].source == rows[j].2;
                                    assert(false);
                                }
                            }
                        }
                    }
                }
            } else {
                proof {
                    assert forall|m: int| 0 <= m < groups@.len() implies
                        (#[trigger] groups@[m]).count as int == count_key(post, item_type, groups@[m].value@, groups@[m].source) by {
                    }
                }
            }
            i = i + 1;
        }
        proof {
            assert(rows.subrange(0, i as int) =~= rows);
        }
        let r = rank_sort(groups);
        proof {
            let g = groups@;
            assert forall|k: int| 0 <= k < r@.len() implies {
                &&& (#[trigger] r@[k]).item_type == item_type
                &&& r@[k].count >= 1
                &&& r@[k].count as int == count_key(rows, item_type, r@[k].value@, r@[k].source)
            } by {
                assert(r@.contains(r@[k]));
                let m = choose|m: int| 0 <= m < g.len() && g[m] == r@[k];
            }
            assert forall|j: int| 0 <= j < rows.len() && (#[trigger] rows[j]).1 == item_type implies exists|k: int|
                0 <= k < r@.len() && (#[trigger] r@[k]).value@ == rows[j].0 && r@[k].source == rows[j].2 by {
                let m = choose|m: int| 0 <= m < g.len() && (#[trigger] g[m]).value@ == rows[j].0 && g[m].source == rows[j].2;
                assert(g.contains(g[m]));
                assert(r@.contains(g[m]));
                let k = choose|k: int| 0 <= k < r@.len() && r@[k] == g[m];
            }
        }
        r
    }

    /// The cross-reference view: for each value seen under two different
    /// sources, its total number of rows, by count descending, then value ascending.
    pub fn get_cross_reference_items(&self) -> (r: Vec<ExtractedItem>)
        requires
            self.wf(),
        ensures
            is_cross_view(self.rows(), r@),
    {
        let ghost rows = self.rows();
        let mut groups: Vec<ExtractedItem> = Vec::new();
        let mut first: Vec<i32> = Vec::new();
        let mut multi: Vec<bool> = Vec::new();
        let mut i: usize = 0;
        while i < self.items.len()
            invariant
                i <= self.items.len() <= MAX_ROWS,
                rows == self.rows(),
                rows.len() == self.items.len(),
                value_groups_inv(rows, i as int, groups@, first@, multi@),
            decreases self.items.len() - i,
        {
            proof {
                assert(rows[i as int] == self.items@[i as int]@);
            }
            add_to_value_groups(&mut groups, &mut first, &mut multi, &self.items[i], Ghost(rows), Ghost(i as int));
            i = i + 1;
        }
        proof {
            assert(rows.subrange(0, i as int) =~= rows);
        }
        let mut shared: Vec<ExtractedItem> = Vec::new();
        let mut k: usize = 0;
        while k < groups.len()
            invariant
                k <= groups.len(),
                multi.len() == groups.len(),
                value_groups_inv(rows, rows.len() as int, groups@, first@, multi@),
                distinct_keys(shared@),
                forall|x: ExtractedItem| #[trigger] shared@.contains(x) <==> exists|m: int|
                    0 <= m < k && multi@[m] && groups@[m] == x,
                distinct_keys(groups@),
            decreases groups.len() - k,
        {
            if multi[k] {
                let ghost before = shared@;
                let g = ExtractedItem {
                    value: groups[k].value.clone(),
                    source: groups[k].source,
                    count: groups[k].count,
                    item_type: groups[k].item_type,
                };
                assert(g == groups@[k as int]);
                shared.push(g);
                proof {
                    assert(shared@ == before.push(g));
                    assert forall|j: int, m: int| 0 <= j < m < shared@.len() implies !same_key(
                        #[trigger] shared@[j], #[trigger] shared@[m]) by {
                        if m == before.len() {
                            assert(shared@[j] == before[j]);
                            assert(before.contains(before[j]));
                            let m2 = choose|m2: int| 0 <= m2 < k && multi@[m2] && groups@[m2] == before[j];
                        } else {
                            assert(shared@[j] == before[j] && shared@[m] == before[m]);
                        }
                    }
                    assert forall|x: ExtractedItem| #[trigger] shared@.contains(x) <==> exists|m: int|
                        0 <= m < k + 1 && multi@[m] && groups@[m] == x by {
                        if shared@.contains(x) {
                            let j = choose|j: int| 0 <= j < shared@.len() && shared@[j] == x;
                            if j < before.len() {
                                assert(before[j] == x);
                                assert(before.contains(x));
                            }
                        }
                        if exists|m: int| 0 <= m < k + 1 && multi@[m] && groups@[m] == x {
                            let m = choose|m: int| 0 <= m < k + 1 && multi@[m] && groups@[m] == x;
                            if m < k {
                                assert(before.contains(x));
                                let j = choose|j: int| 0 <= j < before.len() && before[j] == x;
                                assert(shared@[j] == x);
                            } else {
                                assert(shared@[before.len() as int] == x);
                            }
                        }
                    }
                }
            }
            k = k + 1;
        }
        let r = rank_sort(shared);
        proof {
            let g = groups@;
            assert forall|k: int| 0 <= k < r@.len() implies {
                &&& multi_source(rows, (#[trigger] r@[k]).value@)
                &&& r@[k].count as int == count_value(rows, r@[k].value@)
                &&& r@[k].source == 0
                &&& r@[k].item_type == ItemType::Phone
            } by {
                assert(r@.contains(r@[k]));
                assert(shared@.contains(r@[k]));
                let m = choose|m: int| 0 <= m < g.len() && multi@[m] && g[m] == r@[k];
                let j0 = choose|j: int| 0 <= j < rows.len() && (#[trigger] rows[j]).0 == g[m].value@ && rows[j].2 == first@[m];
                let j1 = choose|j: int| 0 <= j < rows.len() && (#[trigger] rows[j]).0 == g[m].value@ && rows[j].2 != first@[m];
                assert(rows[j0].0 == r@[k].value@ && rows[j1].0 == r@[k].value@ && rows[j0].2 != rows[j1].2);
            }
            assert forall|v: Seq<char>| multi_source(rows, v) implies exists|k: int|
                0 <= k < r@.len() && (#[trigger] r@[k]).value@ == v by {
                let (a, b) = choose|a: int, b: int| 0 <= a < rows.len() && 0 <= b < rows.len() && (#[trigger] rows[a]).0 == v
                    && (#[trigger] rows[b]).0 == v && rows[a].2 != rows[b].2;
                assert(has_value_group(g, rows[a].0));
                let m = choose|m: int| 0 <= m < g.len() && (#[trigger] g[m]).value@ == rows[a].0;
                if !multi@[m] {
                    assert(rows[a].2 == first@[m]);
                    assert(rows[b].2 == first@[m]);
                }
                assert(shared@.contains(g[m]));
                assert(r@.contains(g[m]));
                let k = choose|k: int| 0 <= k < r@.len() && r@[k] == g[m];
            }
        }
        r
    }
}

/// The invariant of the value grouping after the first `n` rows: one group
/// per value, with its count, a source it was seen under, and whether it was
/// seen under another.
spec fn value_groups_inv(rows: Seq<Row>, n: int, groups: Seq<ExtractedItem>, first: Seq<i32>, multi: Seq<bool>) -> bool {
    &&& 0 <= n <= rows.len()
    &&& first.len() == groups.len()
    &&& multi.len() == groups.len()
    &&& distinct_keys(groups)
    &&& forall|k: int| 0 <= k < groups.len() ==> {
        &&& (#[trigger] groups[k]).item_type == ItemType::Phone
        &&& groups[k].source == 0
        &&& groups[k].count as int == count_value(rows.subrange(0, n), groups[k].value@)
        &&& exists|j: int| 0 <= j < n && (#[trigger] rows[j]).0 == groups[k].value@ && rows[j].2 == first[k]
        &&& multi[k] == exists|j: int| 0 <= j < n && (#[trigger] rows[j]).0 == groups[k].value@ && rows[j].2 != first[k]
    }
    &&& forall|j: int| 0 <= j < n ==> #[trigger] has_value_group(groups, rows[j].0)
}

/// Some group has value `v`.
spec fn has_value_group(groups: Seq<ExtractedItem>, v: Seq<char>) -> bool {
    exists|k: int| 0 <= k < groups.len() && (#[trigger] groups[k]).value@ == v
}

/// Adds row `n` to the value grouping.
#[verifier::rlimit(50)]
fn add_to_value_groups(
    groups: &mut Vec<ExtractedItem>,
    first: &mut Vec<i32>,
    multi: &mut Vec<bool>,
    it: &StoredItem,
    Ghost(rows): Ghost<Seq<Row>>,
    Ghost(n): Ghost<int>,
)
    requires
        value_groups_inv(rows, n, old(groups)@, old(first)@, old(multi)@),
        0 <= n < rows.len() <= MAX_ROWS,
        rows[n] == it@,
    ensures
        value_groups_inv(rows, n + 1, final(groups)@, final(first)@, final(multi)@),
{
    let ghost pre = rows.subrange(0, n);
    let ghost post = rows.subrange(0, n + 1);
    proof {
        assert(post.drop_last() =~= pre);
        assert(post.last() == rows[n]);
    }
    let mut k: usize = 0;
    while k < groups.len() && !(groups[k].value == it.value)
        invariant
            k <= groups.len(),
            forall|m: int| 0 <= m < k ==> #[trigger] groups@[m].value@ != it.value@,
        decreases groups.len() - k,
    {
        k = k + 1;
    }
    let ghost before = groups@;
    let ghost first_before = first@;
    let ghost multi_before = multi@;
    if k < groups.len() {
        proof {
            lemma_count_value_bound(pre, it.value@);
        }
        let m_new = multi[k] || first[k] != it.source_id;
        let g = ExtractedItem {
            value: groups[k].value.clone(),
            source: 0,
            count: groups[k].count + 1,
            item_type: ItemType::Phone,
        };
        groups.set(k, g);
        multi.set(k, m_new);
        proof {
            assert forall|j: int, m: int| 0 <= j < m < groups@.len() implies !same_key(
                #[trigger] groups@[j], #[trigger] groups@[m]) by {
                assert(same_key(groups@[j], before[j]) && same_key(groups@[m], before[m]));
            }
            assert forall|j: int| 0 <= j < n + 1 implies #[trigger] has_value_group(groups@, rows[j].0) by {
                if j < n {
                    assert(has_value_group(before, rows[j].0));
                    let m = choose|m: int| 0 <= m < before.len() && (#[trigger] before[m]).value@ == rows[j].0;
                    assert(same_key(groups@[m], before[m]));
                } else {
                    assert(same_key(groups@[k as int], before[k as int]));
                }
            }
            assert forall|m: int| 0 <= m < groups@.len() implies {
                &&& (#[trigger] groups@[m]).item_type == ItemType::Phone
                &&& groups@[m].source == 0
                &&& groups@[m].count as int == count_value(post, groups@[m].value@)
                &&& exists|j: int| 0 <= j < n + 1 && (#[trigger] rows[j]).0 == groups@[m].value@ && rows[j].2 == first@[m]
                &&& multi@[m] == exists|j: int| 0 <= j < n + 1 && (#[trigger] rows[j]).0 == groups@[m].value@ && rows[j].2 != first@[m]
            } by {
                assert(same_key(groups@[m], before[m]));
                let j0 = choose|j: int| 0 <= j < n && (#[trigger] rows[j]).0 == before[m].value@ && rows[j].2 == first_before[m];
                assert(0 <= j0 < n + 1 && rows[j0].0 == groups@[m].value@ && rows[j0].2 == first@[m]);
                if m == k {
                    if multi@[m] {
                        if multi_before[m] {
                            let j1 = choose|j: int| 0 <= j < n && (#[trigger] rows[j]).0 == before[m].value@ && rows[j].2 != first_before[m];
                            assert(0 <= j1 < n + 1 && rows[j1].0 == groups@[m].value@ && rows[j1].2 != first@[m]);
                        } else {
                            assert(rows[n].0 == groups@[m].value@ && rows[n].2 != first@[m]);
                        }
                    }
                    if exists|j: int| 0 <= j < n + 1 && (#[trigger] rows[j]).0 == groups@[m].value@ && rows[j].2 != first@[m] {
                        let j1 = choose|j: int| 0 <= j < n + 1 && (#[trigger] rows[j]).0 == groups@[m].value@ && rows[j].2 != first@[m];
                        if j1 < n {
                            assert(multi_before[m]);
                        }
                    }
                } else {
                    if multi@[m] {
                        let j1 = choose|j: int| 0 <= j < n && (#[trigger] rows[j]).0 == before[m].value@ && rows[j].2 != first_before[m];
                        assert(0 <= j1 < n + 1 && rows[j1].0 == groups@[m].value@ && rows[j1].2 != first@[m]);
                    }
                    if exists|j: int| 0 <= j < n + 1 && (#[trigger] rows[j]).0 == groups@[m].value@ && rows[j].2 != first@[m] {
                        let j1 = choose|j: int| 0 <= j < n + 1 && (#[trigger] rows[j]).0 == groups@[m].value@ && rows[j].2 != first@[m];
                        assert(j1 < n);
                    }
                }
            }
        }
    } else {
        groups.push(ExtractedItem {
            value: it.value.clone(),
            source: 0,
            count: 1,
            item_type: ItemType::Phone,
        });
        first.push(it.source_id);
        multi.push(false);
        proof {
            assert(groups@ == before.push(groups@[before.len() as int]));
            assert forall|j: int, m: int| 0 <= j < m < groups@.len() implies !same_key(
                #[trigger] groups@[j], #[trigger] groups@[m]) by {
                if m == before.len() {
                    assert(groups@[j] == before[j]);
                } else {
                    assert(groups@[j] == before[j] && groups@[m] == before[m]);
                }
            }
            assert forall|j: int| 0 <= j < n + 1 implies #[trigger] has_value_group(groups@, rows[j].0) by {
                if j < n {
                    assert(has_value_group(before, rows[j].0));
                    let m = choose|m: int| 0 <= m < before.len() && (#[trigger] before[m]).value@ == rows[j].0;
                    assert(groups@[m] == before[m]);
                } else {
                    assert(groups@[before.len() as int].value@ == rows[j].0);
                }
            }
            assert forall|m: int| 0 <= m < groups@.len() implies {
                &&& (#[trigger] groups@[m]).item_type == ItemType::Phone
                &&& groups@[m].source == 0
                &&& groups@[m].count as int == count_value(post, groups@[m].value@)
                &&& exists|j: int| 0 <= j < n + 1 && (#[trigger] rows[j]).0 == groups@[m].value@ && rows[j].2 == first@[m]
                &&& multi@[m] == exists|j: int| 0 <= j < n + 1 && (#[trigger] rows[j]).0 == groups@[m].value@ && rows[j].2 != first@[m]
            } by {
                if m < before.len() {
                    assert(groups@[m] == before[m]);
                    assert(first@[m] == first_before[m] && multi@[m] == multi_before[m]);
                    let j0 = choose|j: int| 0 <= j < n && (#[trigger] rows[j]).0 == before[m].value@ && rows[j].2 == first_before[m];
                    assert(0 <= j0 < n + 1 && rows[j0].0 == groups@[m].value@ && rows[j0].2 == first@[m]);
                    if exists|j: int| 0 <= j < n + 1 && (#[trigger] rows[j]).0 == groups@[m].value@ && rows[j].2 != first@[m] {
                        let j1 = choose|j: int| 0 <= j < n + 1 && (#[trigger] rows[j]).0 == groups@[m].value@ && rows[j].2 != first@[m];
                        assert(j1 < n);
                    }
                    if multi@[m] {
                        let j1 = choose|j: int| 0 <= j < n && (#[trigger] rows[j]).0 == before[m].value@ && rows[j].2 != first_before[m];
                        assert(0 <= j1 < n + 1 && rows[j1].0 == groups@[m].value@ && rows[j1].2 != first@[m]);
                    }
                } else {
                    assert(rows[n].0 == groups@[m].value@ && rows[n].2 == first@[m]);
                    if count_value(pre, it.value@) > 0 {
                        lemma_count_value_witness(pre, it.value@);
                        let j = choose|j: int| 0 <= j < pre.len() && (#[trigger] pre[j]).0 == it.value@;
                        assert(rows[j] == pre[j]);
                        assert(has_value_group(before, rows[j].0));
                        let m2 = choose|m2: int| 0 <= m2 < before.len() && (#[trigger] before[m2]).value@ == rows[j].0;
                        assert(false);
                    }
                    if exists|j: int| 0 <= j < n + 1 && (#[trigger] rows[j]).0 == groups@[m].value@ && rows[j].2 != first@[m] {
                        let j1 = choose|j: int| 0 <= j < n + 1 && (#[trigger] rows[j]).0 == groups@[m].value@ && rows[j].2 != first@[m];
                        assert(has_value_group(before, rows[j1].0));
                        let m2 = choose|m2: int| 0 <= m2 < before.len() && (#[trigger] before[m2]).value@ == rows[j1].0;
                        assert(false);
                    }
                }
            }
        }
    }
}

/// A positive count has a row that it counts.
proof fn lemma_count_value_witness(rows: Seq<Row>, v: Seq<char>)
    requires
        count_value(rows, v) > 0,
    ensures
        exists|j: int| 0 <= j < rows.len() && (#[trigger] rows[j]).0 == v,
    decreases rows.len(),
{
    let last = rows.last();
    if last.0 != v {
        lemma_count_value_witness(rows.drop_last(), v);
        let j = choose|j: int| 0 <= j < rows.drop_last().len() && (#[trigger] rows.drop_last()[j]).0 == v;
        assert(rows[j] == rows.drop_last()[j]);
    } else {
        assert(rows[rows.len() - 1] == last);
    }
}

/// A positive count has a row that it counts.
proof fn lemma_count_key_witness(rows: Seq<Row>, t: ItemType, v: Seq<char>, s: i32)
    requires
        count_key(rows, t, v, s) > 0,
    ensures
        exists|j: int| 0 <= j < rows.len() && (#[trigger] rows[j]).1 == t && rows[j].0 == v && rows[j].2 == s,
    decreases rows.len(),
{
    let last = rows.last();
    if !(last.1 == t && last.0 == v && last.2 == s) {
        lemma_count_key_witness(rows.drop_last(), t, v, s);
        let j = choose|j: int| 0 <= j < rows.drop_last().len() && (#[trigger] rows.drop_last()[j]).1 == t
            && rows.drop_last()[j].0 == v && rows.drop_last()[j].2 == s;
        assert(rows[j] == rows.drop_last()[j]);
    } else {
        assert(rows[rows.len() - 1] == last);
    }
}

} // verus!
