//! The values that the store hands out and that callers pass around.
use vstd::prelude::*;

verus! {

/// The kind of an extracted entity.
#[derive(Debug, Clone, Copy, PartialEq, Eq, Structural)]
pub enum ItemType {
    Phone,
    Email,
    Ip,
}

/// One row of an analysis view: a value, the source it was seen under (0 in
/// the cross-reference view), and how many times.
#[derive(Debug, Clone)]
pub struct ExtractedItem {
    pub value: String,
    pub source: i32,
    pub count: i32,
    pub item_type: ItemType,
}

/// A file as the store holds it: its decoded records joined by line breaks.
#[derive(Debug, Clone)]
pub struct FileRecord {
    pub id: Option<i64>,
    pub file_name: String,
    pub source_id: i32,
    pub content: String,
    pub processed_at: Option<String>,
}

/// What one ingestion returns: the file name and every value extracted.
#[derive(Debug, Clone)]
pub struct ProcessResult {
    pub file_name: String,
    pub records: Vec<Record>,
}

/// One line of text handed back to the caller.
#[derive(Debug, Clone)]
pub struct Record {
    pub content: String,
}

/// The per-type aggregate views.
#[derive(Debug, Clone)]
pub struct AnalysisResult {
    pub phones: Vec<ExtractedItem>,
    pub emails: Vec<ExtractedItem>,
    pub ips: Vec<ExtractedItem>,
}

/// The files and lines stored under each source.
#[derive(Debug, Clone)]
pub struct DatabaseInfo {
    pub source1: SourceInfo,
    pub source2: SourceInfo,
}

/// The file names and content lines of one source.
#[derive(Debug, Clone)]
pub struct SourceInfo {
    pub files: Vec<String>,
    pub records: Vec<Record>,
}

impl ItemType {
    /// The tag under which the kind is stored: `phone`, `email` or `ip`.
    pub fn as_str(&self) -> (r: &'static str)
        ensures
            r@ == type_tag(*self),
    {
        proof {
            reveal_strlit("phone");
            reveal_strlit("email");
            reveal_strlit("ip");
        }
        match self {
            ItemType::Phone => "phone",
            ItemType::Email => "email",
            ItemType::Ip => "ip",
        }
    }
}

impl ItemType {
    /// The kind stored under `tag`; `None` for a tag that names no kind.
    pub fn from_tag(tag: &str) -> (r: Option<ItemType>)
        ensures
            r matches Some(t) ==> type_tag(t) == tag@,
            r is None ==> forall|t: ItemType| type_tag(t) != tag@,
    {
        let cs = crate::text::chars_of(tag);
        let n = cs.len();
        if n == 5 && cs[0] == 'p' && cs[1] == 'h' && cs[2] == 'o' && cs[3] == 'n' && cs[4] == 'e' {
            assert(cs@ =~= type_tag(ItemType::Phone));
            Some(ItemType::Phone)
        } else if n == 5 && cs[0] == 'e' && cs[1] == 'm' && cs[2] == 'a' && cs[3] == 'i' && cs[4] == 'l' {
            assert(cs@ =~= type_tag(ItemType::Email));
            Some(ItemType::Email)
        } else if n == 2 && cs[0] == 'i' && cs[1] == 'p' {
            assert(cs@ =~= type_tag(ItemType::Ip));
            Some(ItemType::Ip)
        } else {
            assert forall|t: ItemType| type_tag(t) != tag@ by {
                if type_tag(t) == tag@ {
                    assert(cs@[0] == type_tag(t)[0]);
                    assert(cs@[1] == type_tag(t)[1]);
                }
            }
            None
        }
    }
}

/// The tag under which a kind is stored.
pub open spec fn type_tag(t: ItemType) -> Seq<char> {
    match t {
        ItemType::Phone => seq!['p', 'h', 'o', 'n', 'e'],
        ItemType::Email => seq!['e', 'm', 'a', 'i', 'l'],
        ItemType::Ip => seq!['i', 'p'],
    }
}

} // verus!
