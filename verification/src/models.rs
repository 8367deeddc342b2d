use vstd::prelude::*;

verus! {

/// The kind of a registered source: a syndication feed, or a plain web page
/// that is surfaced as a single pseudo-item.
#[derive(Clone, Copy, PartialEq, Eq, Structural, Debug)]
pub enum SourceType {
    Rss,
    Website,
}

/// Integer code under which a source kind is persisted.
pub open spec fn spec_source_type_code(t: SourceType) -> i32 {
    match t {
        SourceType::Rss => 1,
        SourceType::Website => 2,
    }
}

/// Encodes a source kind as its storage code.
pub fn source_type_code(t: SourceType) -> (c: i32)
    ensures
        c == spec_source_type_code(t),
{
    match t {
        SourceType::Rss => 1,
        SourceType::Website => 2,
    }
}

/// Decodes a storage code back into a source kind; unknown codes are rejected.
pub fn source_type_from_code(c: i32) -> (t: Option<SourceType>)
    ensures
        c == 1 ==> t == Some(SourceType::Rss),
        c == 2 ==> t == Some(SourceType::Website),
        c != 1 && c != 2 ==> t is None,
{
    if c == 1 {
        Some(SourceType::Rss)
    } else if c == 2 {
        Some(SourceType::Website)
    } else {
        None
    }
}

/// Mathematical model of a source row.
pub struct SourceModel {
    pub id: int,
    pub s_type: SourceType,
    pub weight: int,
    pub url: Seq<char>,
    pub title: Seq<char>,
    pub last_modified: Option<int>,
    pub etag: Option<Seq<char>>,
    pub added: int,
}

/// One content origin: a feed or a single page, with its reputation weight
/// and the cache validators of the last successful synchronization.
pub struct Source {
    pub id: i32,
    pub s_type: SourceType,
    pub weight: i32,
    pub url: String,
    pub title: String,
    pub last_modified: Option<i64>,
    pub etag: Option<String>,
    pub added: i64,
}

pub open spec fn view_opt_int(o: Option<i64>) -> Option<int> {
    match o {
        Some(t) => Some(t as int),
        None => None,
    }
}

pub open spec fn view_opt_str(o: Option<String>) -> Option<Seq<char>> {
    match o {
        Some(s) => Some(s@),
        None => None,
    }
}

impl View for Source {
    type V = SourceModel;

    open spec fn view(&self) -> SourceModel {
        SourceModel {
            id: self.id as int,
            s_type: self.s_type,
            weight: self.weight as int,
            url: self.url@,
            title: self.title@,
            last_modified: view_opt_int(self.last_modified),
            etag: view_opt_str(self.etag),
            added: self.added as int,
        }
    }
}

impl Clone for Source {
    fn clone(&self) -> (r: Source)
        ensures
            r@ == self@,
            r.id == self.id && r.s_type == self.s_type && r.weight == self.weight,
            r.last_modified == self.last_modified,
            r.added == self.added,
    {
        Source {
            id: self.id,
            s_type: self.s_type,
            weight: self.weight,
            url: self.url.clone(),
            title: self.title.clone(),
            last_modified: self.last_modified,
            etag: clone_opt_string(&self.etag),
            added: self.added,
        }
    }
}

/// Clones an optional string, keeping its abstract value.
pub fn clone_opt_string(o: &Option<String>) -> (r: Option<String>)
    ensures
        view_opt_str(r) == view_opt_str(*o),
        r is Some <==> *o is Some,
{
    match o {
        Some(s) => Some(s.clone()),
        None => None,
    }
}

/// Mathematical model of an item row.
pub struct PageModel {
    pub id: int,
    pub source_id: int,
    pub url: Seq<char>,
    pub title: Seq<char>,
    pub read: Option<int>,
    pub date: int,
    pub added: int,
}

/// One discovered item, owned by exactly one source. `read` is the consumption
/// timestamp; `None` means the item is still unread.
pub struct Page {
    pub id: i32,
    pub source_id: i32,
    pub url: String,
    pub title: String,
    pub read: Option<i64>,
    pub date: i64,
    pub added: i64,
}

impl View for Page {
    type V = PageModel;

    open spec fn view(&self) -> PageModel {
        PageModel {
            id: self.id as int,
            source_id: self.source_id as int,
            url: self.url@,
            title: self.title@,
            read: view_opt_int(self.read),
            date: self.date as int,
            added: self.added as int,
        }
    }
}

impl Clone for Page {
    fn clone(&self) -> (r: Page)
        ensures
            r@ == self@,
            r.id == self.id && r.source_id == self.source_id,
            r.read == self.read && r.date == self.date && r.added == self.added,
    {
        Page {
            id: self.id,
            source_id: self.source_id,
            url: self.url.clone(),
            title: self.title.clone(),
            read: self.read,
            date: self.date,
            added: self.added,
        }
    }
}

/// Mathematical model of a row waiting to be inserted.
pub struct NewPageModel {
    pub source_id: int,
    pub url: Seq<char>,
    pub title: Seq<char>,
    pub read: Option<int>,
    pub date: Option<int>,
}

/// A normalized item that is about to be upserted; `date: None` means the feed
/// gave no publication date and registration time is used instead.
pub struct NewPage {
    pub source_id: i32,
    pub url: String,
    pub title: String,
    pub read: Option<i64>,
    pub date: Option<i64>,
}

impl View for NewPage {
    type V = NewPageModel;

    open spec fn view(&self) -> NewPageModel {
        NewPageModel {
            source_id: self.source_id as int,
            url: self.url@,
            title: self.title@,
            read: view_opt_int(self.read),
            date: view_opt_int(self.date),
        }
    }
}

impl Clone for NewPage {
    fn clone(&self) -> (r: NewPage)
        ensures
            r@ == self@,
    {
        NewPage {
            source_id: self.source_id,
            url: self.url.clone(),
            title: self.title.clone(),
            read: self.read,
            date: self.date,
        }
    }
}

/// A source waiting to be registered.
pub struct NewSource {
    pub url: String,
    pub s_type: SourceType,
    pub title: String,
}

} // verus!
