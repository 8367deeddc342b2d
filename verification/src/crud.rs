use vstd::prelude::*;

use crate::models::{NewPage, NewPageModel, Page, PageModel, Source, SourceModel, SourceType};

verus! {

/// Weight given to a source on registration.
pub const DEFAULT_SOURCE_WEIGHT: i32 = 10;

/// How far back a rediscovered item's publication date is nudged, in seconds
/// (five days), so that it re-enters rotation without burying newer items.
pub const RESET_BACKDATE_SECONDS: i64 = 432000;

/// Mathematical model of the whole store: the two tables and the id counters.
pub struct StoreModel {
    pub sources: Seq<SourceModel>,
    pub pages: Seq<PageModel>,
    pub next_source_id: int,
    pub next_page_id: int,
}

/// The item store: sources and their discovered items, deduplicated by
/// (source id, url). It models the narrow read/write contract that the
/// synchronization pipeline and the selector are verified against.
pub struct Store {
    sources: Vec<Source>,
    pages: Vec<Page>,
    next_source_id: i32,
    next_page_id: i32,
}

impl View for Store {
    type V = StoreModel;

    closed spec fn view(&self) -> StoreModel {
        StoreModel {
            sources: self.sources@.map_values(|s: Source| s@),
            pages: self.pages@.map_values(|p: Page| p@),
            next_source_id: self.next_source_id as int,
            next_page_id: self.next_page_id as int,
        }
    }
}

/// There is a source row with this id.
pub open spec fn has_source_id(m: StoreModel, id: int) -> bool {
    exists|i: int| 0 <= i < m.sources.len() && m.sources[i].id == id
}

/// There is a source row with this url.
pub open spec fn has_source_url(m: StoreModel, url: Seq<char>) -> bool {
    exists|i: int| 0 <= i < m.sources.len() && m.sources[i].url == url
}

/// There is a page row with this id.
pub open spec fn has_page_id(m: StoreModel, id: int) -> bool {
    exists|i: int| 0 <= i < m.pages.len() && m.pages[i].id == id
}

/// There is a page row of this source with this url: the dedup key.
pub open spec fn has_page_key(m: StoreModel, source_id: int, url: Seq<char>) -> bool {
    exists|i: int| 0 <= i < m.pages.len() && m.pages[i].source_id == source_id
        && m.pages[i].url == url
}

/// Index of the source row with this id.
pub open spec fn source_index(m: StoreModel, id: int) -> int {
    choose|i: int| 0 <= i < m.sources.len() && m.sources[i].id == id
}

/// The source row with this id.
pub open spec fn source_by_id(m: StoreModel, id: int) -> SourceModel {
    m.sources[source_index(m, id)]
}

/// Index of the page row with this id.
pub open spec fn page_index(m: StoreModel, id: int) -> int {
    choose|i: int| 0 <= i < m.pages.len() && m.pages[i].id == id
}

/// The page row with this id.
pub open spec fn page_by_id(m: StoreModel, id: int) -> PageModel {
    m.pages[page_index(m, id)]
}

/// Index of the page row with this dedup key.
pub open spec fn page_key_index(m: StoreModel, source_id: int, url: Seq<char>) -> int {
    choose|i: int|
        0 <= i < m.pages.len() && m.pages[i].source_id == source_id && m.pages[i].url == url
}

/// Every source row is well formed: a positive id below the counter and a
/// weight that is never negative.
pub open spec fn sources_valid(m: StoreModel) -> bool {
    forall|i: int| 0 <= i < m.sources.len() ==> {
        &&& 1 <= (#[trigger] m.sources[i]).id < m.next_source_id
        &&& m.sources[i].weight >= 0
    }
}

/// Every page row is well formed: a positive id below the counter and an
/// owning source that exists.
pub open spec fn pages_valid(m: StoreModel) -> bool {
    forall|i: int| 0 <= i < m.pages.len() ==> {
        &&& 1 <= (#[trigger] m.pages[i]).id < m.next_page_id
        &&& has_source_id(m, m.pages[i].source_id)
    }
}

/// Source ids and source urls are unique.
pub open spec fn sources_unique(m: StoreModel) -> bool {
    forall|i: int, j: int| 0 <= i < j < m.sources.len() ==> {
        &&& (#[trigger] m.sources[i]).id != (#[trigger] m.sources[j]).id
        &&& m.sources[i].url != m.sources[j].url
    }
}

/// Page ids are unique and there is at most one page per (source id, url):
/// the store-level statement of the dedup invariant.
pub open spec fn pages_unique(m: StoreModel) -> bool {
    forall|i: int, j: int| 0 <= i < j < m.pages.len() ==> {
        &&& (#[trigger] m.pages[i]).id != (#[trigger] m.pages[j]).id
        &&& !(m.pages[i].source_id == m.pages[j].source_id && m.pages[i].url
            == m.pages[j].url)
    }
}

/// The store invariant.
pub open spec fn wf_model(m: StoreModel) -> bool {
    &&& 1 <= m.next_source_id <= i32::MAX
    &&& 1 <= m.next_page_id <= i32::MAX
    &&& m.sources.len() < m.next_source_id
    &&& m.pages.len() < m.next_page_id
    &&& sources_valid(m)
    &&& pages_valid(m)
    &&& sources_unique(m)
    &&& pages_unique(m)
}

impl Store {
    /// The store invariant, at the model level.
    pub open spec fn wf(&self) -> bool {
        wf_model(self@)
    }

    /// An empty store.
    pub fn new() -> (st: Store)
        ensures
            st.wf(),
            st@.sources == Seq::<SourceModel>::empty(),
            st@.pages == Seq::<PageModel>::empty(),
            st@.next_source_id == 1,
            st@.next_page_id == 1,
    {
        let st = Store { sources: Vec::new(), pages: Vec::new(), next_source_id: 1, next_page_id: 1 };
        proof {
            assert(st@.sources =~= Seq::<SourceModel>::empty());
            assert(st@.pages =~= Seq::<PageModel>::empty());
        }
        st
    }
}

/// If source ids are unique, any row that carries the looked-up id is the row
/// `source_by_id` denotes.
pub proof fn lemma_source_id_unique(m: StoreModel, id: int, k: int)
    requires
        sources_unique(m),
        0 <= k < m.sources.len(),
        m.sources[k].id == id,
    ensures
        has_source_id(m, id),
        source_index(m, id) == k,
        source_by_id(m, id) == m.sources[k],
{
    assert(0 <= k < m.sources.len() && m.sources[k].id == id);
    let i = source_index(m, id);
    assert(0 <= i < m.sources.len() && m.sources[i].id == id);
    if i != k {
        if i < k {
            assert(m.sources[i].id != m.sources[k].id);
        } else {
            assert(m.sources[k].id != m.sources[i].id);
        }
    }
}

/// If page ids are unique, any row that carries the looked-up id is the row
/// `page_by_id` denotes.
pub proof fn lemma_page_id_unique(m: StoreModel, id: int, k: int)
    requires
        pages_unique(m),
        0 <= k < m.pages.len(),
        m.pages[k].id == id,
    ensures
        has_page_id(m, id),
        page_index(m, id) == k,
        page_by_id(m, id) == m.pages[k],
{
    let i = page_index(m, id);
    assert(0 <= i < m.pages.len() && m.pages[i].id == id);
    if i != k {
        if i < k {
            assert(m.pages[i].id != m.pages[k].id);
        } else {
            assert(m.pages[k].id != m.pages[i].id);
        }
    }
}

/// If dedup keys are unique, any row that carries the looked-up key is the row
/// `page_key_index` denotes.
pub proof fn lemma_page_key_unique(m: StoreModel, source_id: int, url: Seq<char>, k: int)
    requires
        pages_unique(m),
        0 <= k < m.pages.len(),
        m.pages[k].source_id == source_id,
        m.pages[k].url == url,
    ensures
        has_page_key(m, source_id, url),
        page_key_index(m, source_id, url) == k,
{
    let i = page_key_index(m, source_id, url);
    assert(0 <= i < m.pages.len() && m.pages[i].source_id == source_id && m.pages[i].url == url);
    if i != k {
        if i < k {
            assert(!(m.pages[i].source_id == m.pages[k].source_id && m.pages[i].url
                == m.pages[k].url));
        } else {
            assert(!(m.pages[k].source_id == m.pages[i].source_id && m.pages[k].url
                == m.pages[i].url));
        }
    }
}

/// Looks a source up by id; `None` exactly when no row has the id.
pub fn get_source_by_id(st: &Store, source_id: i32) -> (r: Option<Source>)
    requires
        st.wf(),
    ensures
        match r {
            Some(s) => has_source_id(st@, source_id as int) && s@ == source_by_id(
                st@,
                source_id as int,
            ) && s@.id == source_id as int,
            None => !has_source_id(st@, source_id as int),
        },
{
    let n = st.sources.len();
    let mut i: usize = 0;
    while i < n
        invariant
            st.wf(),
            n == st.sources.len(),
            0 <= i <= n,
            forall|j: int| 0 <= j < i ==> st@.sources[j].id != source_id as int,
        decreases n - i,
    {
        if st.sources[i].id == source_id {
            let s = st.sources[i].clone();
            proof {
                lemma_source_id_unique(st@, source_id as int, i as int);
            }
            return Some(s);
        }
        i = i + 1;
    }
    None
}

/// Looks a source up by url; `None` exactly when no row has the url.
pub fn get_source_by_url(st: &Store, source_url: &str) -> (r: Option<Source>)
    requires
        st.wf(),
    ensures
        match r {
            Some(s) => has_source_url(st@, source_url@) && exists|i: int|
                0 <= i < st@.sources.len() && s@ == st@.sources[i] && s@.url == source_url@,
            None => !has_source_url(st@, source_url@),
        },
{
    let n = st.sources.len();
    let looked_up = source_url.to_owned();
    let mut i: usize = 0;
    while i < n
        invariant
            st.wf(),
            n == st.sources.len(),
            looked_up@ == source_url@,
            0 <= i <= n,
            forall|j: int| 0 <= j < i ==> st@.sources[j].url != source_url@,
        decreases n - i,
    {
        if st.sources[i].url.eq(&looked_up) {
            let s = st.sources[i].clone();
            proof {
                assert(s@ == st@.sources[i as int] && st@.sources[i as int].url == source_url@);
            }
            return Some(s);
        }
        i = i + 1;
    }
    None
}

/// Looks a page up by id; `None` exactly when no row has the id.
pub fn get_page_by_id(st: &Store, page_id: i32) -> (r: Option<Page>)
    requires
        st.wf(),
    ensures
        match r {
            Some(p) => has_page_id(st@, page_id as int) && p@ == page_by_id(st@, page_id as int)
                && p@.id == page_id as int,
            None => !has_page_id(st@, page_id as int),
        },
{
    let n = st.pages.len();
    let mut i: usize = 0;
    while i < n
        invariant
            st.wf(),
            n == st.pages.len(),
            0 <= i <= n,
            forall|j: int| 0 <= j < i ==> st@.pages[j].id != page_id as int,
        decreases n - i,
    {
        if st.pages[i].id == page_id {
            let p = st.pages[i].clone();
            proof {
                lemma_page_id_unique(st@, page_id as int, i as int);
            }
            return Some(p);
        }
        i = i + 1;
    }
    None
}

/// The row a registration inserts: default weight, no cache validators yet.
pub open spec fn new_source_model(
    id: int,
    s_type: SourceType,
    url: Seq<char>,
    title: Seq<char>,
    now: int,
) -> SourceModel {
    SourceModel {
        id: id,
        s_type: s_type,
        weight: DEFAULT_SOURCE_WEIGHT as int,
        url: url,
        title: title,
        last_modified: None,
        etag: None,
        added: now,
    }
}

/// Registers a source. If a row with the url already exists it is returned
/// unchanged (registration is idempotent per url); otherwise a fresh row with
/// the default weight is appended.
pub fn create_source(st: &mut Store, url: &str, s_type: SourceType, title: String, now: i64) -> (r:
    Source)
    requires
        old(st).wf(),
        old(st)@.next_source_id < i32::MAX,
    ensures
        final(st).wf(),
        final(st)@.pages == old(st)@.pages,
        final(st)@.next_page_id == old(st)@.next_page_id,
        (final(st)@, r@) == spec_create_source(old(st)@, url@, s_type, title@, now as int),
        has_source_id(final(st)@, r@.id),
        r@.id < final(st)@.next_source_id,
{
    match get_source_by_url(st, url) {
        Some(existing) => {
            proof {
                let i = choose|i: int|
                    0 <= i < st@.sources.len() && existing@ == st@.sources[i] && existing@.url
                        == url@;
                lemma_source_url_unique(st@, url@, i);
                lemma_source_id_unique(st@, existing@.id, i);
            }
            existing
        },
        None => {
            let s = Source {
                id: st.next_source_id,
                s_type: s_type,
                weight: DEFAULT_SOURCE_WEIGHT,
                url: url.to_owned(),
                title: title,
                last_modified: None,
                etag: None,
                added: now,
            };
            let stored = s.clone();
            st.sources.push(stored);
            st.next_source_id = st.next_source_id + 1;
            proof {
                assert(st@.sources =~= old(st)@.sources.push(s@));
                assert forall|sid: int| has_source_id(old(st)@, sid) implies has_source_id(
                    st@,
                    sid,
                ) by {
                    let i = choose|i: int|
                        0 <= i < old(st)@.sources.len() && old(st)@.sources[i].id == sid;
                    assert(st@.sources[i].id == sid);
                }
                assert(st@.sources[st@.sources.len() - 1].id == s@.id);
            }
            s
        },
    }
}

/// A source row after a successful synchronization attempt: only the cache
/// validators change.
pub open spec fn synced_source_model(
    s: SourceModel,
    last_modified: Option<int>,
    etag: Option<Seq<char>>,
) -> SourceModel {
    SourceModel { last_modified: last_modified, etag: etag, ..s }
}

/// Persists new cache validators for a source after a successful
/// synchronization attempt. `None` exactly when the source row is gone.
pub fn mark_source_synced(
    st: &mut Store,
    marked_source: &Source,
    i_last_modified: Option<i64>,
    i_etag: Option<String>,
) -> (r: Option<Source>)
    requires
        old(st).wf(),
    ensures
        final(st).wf(),
        final(st)@.pages == old(st)@.pages,
        final(st)@.next_page_id == old(st)@.next_page_id,
        final(st)@.next_source_id == old(st)@.next_source_id,
        match r {
            Some(updated) => {
                &&& has_source_id(old(st)@, marked_source@.id)
                &&& updated@ == synced_source_model(
                    source_by_id(old(st)@, marked_source@.id),
                    crate::models::view_opt_int(i_last_modified),
                    crate::models::view_opt_str(i_etag),
                )
                &&& final(st)@.sources == old(st)@.sources.update(
                    source_index(old(st)@, marked_source@.id),
                    updated@,
                )
            },
            None => !has_source_id(old(st)@, marked_source@.id) && final(st)@ == old(st)@,
        },
{
    let n = st.sources.len();
    let mut i: usize = 0;
    while i < n
        invariant
            st.wf(),
            st@ == old(st)@,
            n == st.sources.len(),
            0 <= i <= n,
            forall|j: int| 0 <= j < i ==> st@.sources[j].id != marked_source@.id,
        decreases n - i,
    {
        if st.sources[i].id == marked_source.id {
            proof {
                lemma_source_id_unique(st@, marked_source@.id, i as int);
            }
            st.sources[i].last_modified = i_last_modified;
            st.sources[i].etag = i_etag;
            let updated = st.sources[i].clone();
            proof {
                assert(st@.sources =~= old(st)@.sources.update(i as int, updated@));
                assert forall|sid: int| has_source_id(old(st)@, sid) implies has_source_id(st@, sid) by {
                    let k = choose|k: int|
                        0 <= k < old(st)@.sources.len() && old(st)@.sources[k].id == sid;
                    assert(st@.sources[k].id == sid);
                }
            }
            return Some(updated);
        }
        i = i + 1;
    }
    None
}

/// A page row reset on rediscovery: unread again, its date nudged back so it
/// re-enters rotation without looking fresh.
pub open spec fn reset_page_model(p: PageModel, now: int) -> PageModel {
    PageModel { read: None, date: now - RESET_BACKDATE_SECONDS as int, ..p }
}

/// The row a first discovery inserts; an absent publication date defaults to
/// registration time.
pub open spec fn inserted_page_model(id: int, p: NewPageModel, now: int) -> PageModel {
    PageModel {
        id: id,
        source_id: p.source_id,
        url: p.url,
        title: p.title,
        read: p.read,
        date: match p.date {
            Some(d) => d,
            None => now,
        },
        added: now,
    }
}

/// One upsert step. A row with the same dedup key is reset; otherwise a fresh
/// row is appended, unless the id space is exhausted. The second component is
/// how many rows were newly inserted (0 or 1).
pub open spec fn spec_upsert_page(m: StoreModel, p: NewPageModel, now: int) -> (StoreModel, int) {
    if has_page_key(m, p.source_id, p.url) {
        let k = page_key_index(m, p.source_id, p.url);
        (StoreModel { pages: m.pages.update(k, reset_page_model(m.pages[k], now)), ..m }, 0)
    } else if m.next_page_id < i32::MAX {
        (
            StoreModel {
                pages: m.pages.push(inserted_page_model(m.next_page_id, p, now)),
                next_page_id: m.next_page_id + 1,
                ..m
            },
            1,
        )
    } else {
        (m, 0)
    }
}

/// Inserts one page, or resets the row that already carries its dedup key.
/// Returns true exactly when a fresh row was inserted.
fn upsert_page(st: &mut Store, new_page: &NewPage, now: i64) -> (inserted: bool)
    requires
        old(st).wf(),
        has_source_id(old(st)@, new_page@.source_id),
        now - RESET_BACKDATE_SECONDS >= i64::MIN,
    ensures
        final(st).wf(),
        final(st)@ == spec_upsert_page(old(st)@, new_page@, now as int).0,
        (if inserted { 1int } else { 0int }) == spec_upsert_page(old(st)@, new_page@, now as int).1,
{
    let n = st.pages.len();
    let mut i: usize = 0;
    while i < n
        invariant
            st.wf(),
            st@ == old(st)@,
            n == st.pages.len(),
            now - RESET_BACKDATE_SECONDS >= i64::MIN,
            0 <= i <= n,
            forall|j: int| 0 <= j < i ==> !(st@.pages[j].source_id == new_page@.source_id
                && st@.pages[j].url == new_page@.url),
        decreases n - i,
    {
        if st.pages[i].source_id == new_page.source_id && st.pages[i].url.eq(&new_page.url) {
            proof {
                lemma_page_key_unique(st@, new_page@.source_id, new_page@.url, i as int);
            }
            st.pages[i].read = None;
            st.pages[i].date = now - RESET_BACKDATE_SECONDS;
            proof {
                let m0 = old(st)@;
                let k = page_key_index(m0, new_page@.source_id, new_page@.url);
                assert(st@.pages =~= m0.pages.update(k, reset_page_model(m0.pages[k], now as int)));
                assert(st@ =~= spec_upsert_page(m0, new_page@, now as int).0);
            }
            return false;
        }
        i = i + 1;
    }
    if st.next_page_id < i32::MAX {
        let date = match new_page.date {
            Some(d) => d,
            None => now,
        };
        let p = Page {
            id: st.next_page_id,
            source_id: new_page.source_id,
            url: new_page.url.clone(),
            title: new_page.title.clone(),
            read: new_page.read,
            date: date,
            added: now,
        };
        st.pages.push(p);
        st.next_page_id = st.next_page_id + 1;
        proof {
            let m0 = old(st)@;
            assert(!has_page_key(m0, new_page@.source_id, new_page@.url));
            assert(st@.pages =~= m0.pages.push(
                inserted_page_model(m0.next_page_id, new_page@, now as int),
            ));
            assert(st@ =~= spec_upsert_page(m0, new_page@, now as int).0);
            assert forall|sid: int| has_source_id(m0, sid) implies has_source_id(st@, sid) by {}
        }
        true
    } else {
        proof {
            assert(!has_page_key(st@, new_page@.source_id, new_page@.url));
        }
        false
    }
}

/// Upserts one page row: the single-page behavior. On first sync the pseudo
/// item is inserted; on every later sync the existing row is reset: its read
/// marker cleared and its date nudged back. Returns the number of rows
/// touched, which is 0 only when a fresh row could not be allocated.
pub fn create_or_reset_page(st: &mut Store, new_page: NewPage, now: i64) -> (r: usize)
    requires
        old(st).wf(),
        has_source_id(old(st)@, new_page@.source_id),
        now - RESET_BACKDATE_SECONDS >= i64::MIN,
    ensures
        final(st).wf(),
        final(st)@ == spec_upsert_page(old(st)@, new_page@, now as int).0,
        r == 1 <==> (has_page_key(old(st)@, new_page@.source_id, new_page@.url)
            || old(st)@.next_page_id < i32::MAX),
        r == 0 || r == 1,
{
    let existed = page_key_exists(st, new_page.source_id, &new_page.url);
    let inserted = upsert_page(st, &new_page, now);
    if existed || inserted {
        1
    } else {
        0
    }
}

/// Does a row with this dedup key exist?
pub fn page_key_exists(st: &Store, source_id: i32, url: &String) -> (r: bool)
    requires
        st.wf(),
    ensures
        r == has_page_key(st@, source_id as int, url@),
{
    let n = st.pages.len();
    let mut i: usize = 0;
    while i < n
        invariant
            st.wf(),
            n == st.pages.len(),
            0 <= i <= n,
            forall|j: int| 0 <= j < i ==> !(st@.pages[j].source_id == source_id as int
                && st@.pages[j].url == url@),
        decreases n - i,
    {
        if st.pages[i].source_id == source_id && st.pages[i].url.eq(url) {
            proof {
                lemma_page_key_unique(st@, source_id as int, url@, i as int);
            }
            return true;
        }
        i = i + 1;
    }
    false
}

/// Folding `spec_upsert_page` over a list of normalized entries, counting the
/// newly inserted rows.
pub open spec fn spec_create_pages(m: StoreModel, entries: Seq<NewPageModel>, now: int) -> (
    StoreModel,
    int,
)
    decreases entries.len(),
{
    if entries.len() == 0 {
        (m, 0)
    } else {
        let step = spec_upsert_page(m, entries[0], now);
        let rest = spec_create_pages(step.0, entries.drop_first(), now);
        (rest.0, step.1 + rest.1)
    }
}

/// The views of a list of rows waiting to be inserted.
pub open spec fn new_pages_view(v: Seq<NewPage>) -> Seq<NewPageModel> {
    v.map_values(|p: NewPage| p@)
}

/// Upserts all normalized entries of one feed body, in order. Entries whose
/// dedup key already exists are not inserted again: they are reset instead and
/// counted as 0 new. Returns how many rows were newly inserted.
pub fn create_pages(st: &mut Store, new_pages: Vec<NewPage>, now: i64) -> (r: usize)
    requires
        old(st).wf(),
        forall|i: int| 0 <= i < new_pages@.len() ==> has_source_id(
            old(st)@,
            (#[trigger] new_pages@[i])@.source_id,
        ),
        now - RESET_BACKDATE_SECONDS >= i64::MIN,
    ensures
        final(st).wf(),
        final(st)@ == spec_create_pages(old(st)@, new_pages_view(new_pages@), now as int).0,
        r as int == spec_create_pages(old(st)@, new_pages_view(new_pages@), now as int).1,
        r <= new_pages@.len(),
{
    let ghost entries = new_pages_view(new_pages@);
    let ghost target = spec_create_pages(old(st)@, entries, now as int);
    let n = new_pages.len();
    let mut count: usize = 0;
    let mut i: usize = 0;
    proof {
        assert(entries.skip(0) =~= entries);
    }
    while i < n
        invariant
            st.wf(),
            n == new_pages@.len(),
            entries == new_pages_view(new_pages@),
            target == spec_create_pages(old(st)@, entries, now as int),
            st@.sources == old(st)@.sources,
            0 <= i <= n,
            count <= i,
            now - RESET_BACKDATE_SECONDS >= i64::MIN,
            forall|j: int| 0 <= j < new_pages@.len() ==> has_source_id(
                old(st)@,
                (#[trigger] new_pages@[j])@.source_id,
            ),
            target.0 == spec_create_pages(st@, entries.skip(i as int), now as int).0,
            target.1 == count + spec_create_pages(st@, entries.skip(i as int), now as int).1,
        decreases n - i,
    {
        let ghost pre = st@;
        let ghost rem = entries.skip(i as int);
        let inserted = upsert_page(st, &new_pages[i], now);
        if inserted {
            count = count + 1;
        }
        proof {
            assert(rem[0] == entries[i as int]);
            assert(rem.drop_first() =~= entries.skip(i as int + 1));
            assert(spec_create_pages(pre, rem, now as int).0 == spec_create_pages(
                st@,
                rem.drop_first(),
                now as int,
            ).0);
        }
        i = i + 1;
    }
    proof {
        assert(entries.skip(n as int) =~= Seq::<NewPageModel>::empty());
    }
    count
}


/// A page row with its read marker set.
pub open spec fn read_page_model(p: PageModel, now: int) -> PageModel {
    PageModel { read: Some(now), ..p }
}

/// A page row with its read marker cleared.
pub open spec fn unread_page_model(p: PageModel) -> PageModel {
    PageModel { read: None, ..p }
}

/// Marks one page as read at the given time. `None` exactly when the page row
/// is gone.
pub fn mark_page_read(st: &mut Store, page: &Page, now: i64) -> (r: Option<Page>)
    requires
        old(st).wf(),
    ensures
        final(st).wf(),
        final(st)@.sources == old(st)@.sources,
        final(st)@.next_page_id == old(st)@.next_page_id,
        final(st)@.next_source_id == old(st)@.next_source_id,
        match r {
            Some(updated) => {
                &&& has_page_id(old(st)@, page@.id)
                &&& updated@ == read_page_model(page_by_id(old(st)@, page@.id), now as int)
                &&& final(st)@.pages == old(st)@.pages.update(
                    page_index(old(st)@, page@.id),
                    updated@,
                )
            },
            None => !has_page_id(old(st)@, page@.id) && final(st)@ == old(st)@,
        },
{
    let n = st.pages.len();
    let mut i: usize = 0;
    while i < n
        invariant
            st.wf(),
            st@ == old(st)@,
            n == st.pages.len(),
            0 <= i <= n,
            forall|j: int| 0 <= j < i ==> st@.pages[j].id != page@.id,
        decreases n - i,
    {
        if st.pages[i].id == page.id {
            proof {
                lemma_page_id_unique(st@, page@.id, i as int);
            }
            st.pages[i].read = Some(now);
            let updated = st.pages[i].clone();
            proof {
                assert(st@.pages =~= old(st)@.pages.update(i as int, updated@));
            }
            return Some(updated);
        }
        i = i + 1;
    }
    None
}

/// Clears one page's read marker. `None` exactly when the page row is gone.
pub fn mark_page_unread(st: &mut Store, page: &Page) -> (r: Option<Page>)
    requires
        old(st).wf(),
    ensures
        final(st).wf(),
        final(st)@.sources == old(st)@.sources,
        final(st)@.next_page_id == old(st)@.next_page_id,
        final(st)@.next_source_id == old(st)@.next_source_id,
        match r {
            Some(updated) => {
                &&& has_page_id(old(st)@, page@.id)
                &&& updated@ == unread_page_model(page_by_id(old(st)@, page@.id))
                &&& final(st)@.pages == old(st)@.pages.update(
                    page_index(old(st)@, page@.id),
                    updated@,
                )
            },
            None => !has_page_id(old(st)@, page@.id) && final(st)@ == old(st)@,
        },
{
    let n = st.pages.len();
    let mut i: usize = 0;
    while i < n
        invariant
            st.wf(),
            st@ == old(st)@,
            n == st.pages.len(),
            0 <= i <= n,
            forall|j: int| 0 <= j < i ==> st@.pages[j].id != page@.id,
        decreases n - i,
    {
        if st.pages[i].id == page.id {
            proof {
                lemma_page_id_unique(st@, page@.id, i as int);
            }
            st.pages[i].read = None;
            let updated = st.pages[i].clone();
            proof {
                assert(st@.pages =~= old(st)@.pages.update(i as int, updated@));
            }
            return Some(updated);
        }
        i = i + 1;
    }
    None
}

/// The page table after every page of one source is marked read.
pub open spec fn all_read_pages(pages: Seq<PageModel>, source_id: int, now: int) -> Seq<
    PageModel,
> {
    pages.map_values(
        |p: PageModel|
            if p.source_id == source_id {
                read_page_model(p, now)
            } else {
                p
            },
    )
}

/// The rows of one source, in table order.
pub open spec fn pages_of_source(pages: Seq<PageModel>, source_id: int) -> Seq<PageModel>
    decreases pages.len(),
{
    if pages.len() == 0 {
        Seq::empty()
    } else {
        let prev = pages_of_source(pages.drop_last(), source_id);
        if pages.last().source_id == source_id {
            prev.push(pages.last())
        } else {
            prev
        }
    }
}

/// Marks every page of one source as read at the given time and returns the
/// updated rows, in table order.
pub fn mark_source_read(st: &mut Store, i_source_id: i32, now: i64) -> (r: Vec<Page>)
    requires
        old(st).wf(),
    ensures
        final(st).wf(),
        final(st)@.sources == old(st)@.sources,
        final(st)@.next_page_id == old(st)@.next_page_id,
        final(st)@.next_source_id == old(st)@.next_source_id,
        final(st)@.pages == all_read_pages(old(st)@.pages, i_source_id as int, now as int),
        r@.map_values(|p: Page| p@) == pages_of_source(
            final(st)@.pages,
            i_source_id as int,
        ),
{
    let n = st.pages.len();
    let mut out: Vec<Page> = Vec::new();
    let mut i: usize = 0;
    proof {
        assert(st@.pages.take(0) =~= Seq::<PageModel>::empty());
        assert(all_read_pages(st@.pages, i_source_id as int, now as int).take(0) =~= Seq::<
            PageModel,
        >::empty());
        assert(out@.map_values(|p: Page| p@) =~= Seq::<PageModel>::empty());
        assert(pages_of_source(Seq::<PageModel>::empty(), i_source_id as int) =~= Seq::<
            PageModel,
        >::empty());
    }
    while i < n
        invariant
            st.wf(),
            n == st.pages.len(),
            st@.sources == old(st)@.sources,
            st@.next_page_id == old(st)@.next_page_id,
            st@.next_source_id == old(st)@.next_source_id,
            st@.pages.len() == old(st)@.pages.len(),
            0 <= i <= n,
            st@.pages.skip(i as int) == old(st)@.pages.skip(i as int),
            st@.pages.take(i as int) == all_read_pages(
                old(st)@.pages,
                i_source_id as int,
                now as int,
            ).take(i as int),
            out@.map_values(|p: Page| p@) == pages_of_source(
                st@.pages.take(i as int),
                i_source_id as int,
            ),
        decreases n - i,
    {
        proof {
            assert(st@.pages[i as int] == st@.pages.skip(i as int)[0]);
            assert(st@.pages[i as int] == old(st)@.pages[i as int]);
        }
        let ghost pre = st@.pages;
        let ghost preout = out@;
        if st.pages[i].source_id == i_source_id {
            st.pages[i].read = Some(now);
            let updated = st.pages[i].clone();
            proof {
                assert(st@.pages =~= pre.update(i as int, updated@));
            }
            out.push(updated);
            proof {
                assert(out@.map_values(|p: Page| p@) =~= preout.map_values(|p: Page| p@).push(
                    updated@,
                ));
            }
        }
        proof {
            let full = all_read_pages(old(st)@.pages, i_source_id as int, now as int);
            assert forall|j: int| i < j < st@.pages.len() implies st@.pages[j] == old(
                st,
            )@.pages[j] by {
                assert(pre.skip(i as int)[j - i] == pre[j]);
                assert(old(st)@.pages.skip(i as int)[j - i] == old(st)@.pages[j]);
            }
            assert(st@.pages.take(i as int) =~= pre.take(i as int));
            assert(st@.pages.take(i + 1) =~= full.take(i + 1));
            assert(st@.pages.skip(i + 1) =~= old(st)@.pages.skip(i + 1));
            assert(st@.pages.take(i + 1).drop_last() =~= st@.pages.take(i as int));
            assert(st@.pages.take(i + 1).last() == st@.pages[i as int]);
            assert(out@.map_values(|p: Page| p@) =~= pages_of_source(
                st@.pages.take(i + 1),
                i_source_id as int,
            ));
        }
        i = i + 1;
    }
    proof {
        assert(st@.pages.take(n as int) =~= st@.pages);
        assert(all_read_pages(old(st)@.pages, i_source_id as int, now as int).take(n as int)
            =~= all_read_pages(old(st)@.pages, i_source_id as int, now as int));
    }
    out
}


/// Read markers of one source's rows, in table order.
pub fn read_status_for_source(st: &Store, i_source_id: i32) -> (r: Vec<Option<i64>>)
    requires
        st.wf(),
    ensures
        r@.map_values(|o: Option<i64>| crate::models::view_opt_int(o)) == pages_of_source(
            st@.pages,
            i_source_id as int,
        ).map_values(|p: PageModel| p.read),
{
    let n = st.pages.len();
    let mut out: Vec<Option<i64>> = Vec::new();
    let mut i: usize = 0;
    proof {
        assert(st@.pages.take(0) =~= Seq::<PageModel>::empty());
        assert(out@.map_values(|o: Option<i64>| crate::models::view_opt_int(o)) =~= Seq::<
            Option<int>,
        >::empty());
        assert(pages_of_source(st@.pages.take(0), i_source_id as int).map_values(
            |p: PageModel| p.read,
        ) =~= Seq::<Option<int>>::empty());
    }
    while i < n
        invariant
            st.wf(),
            n == st.pages.len(),
            0 <= i <= n,
            out@.map_values(|o: Option<i64>| crate::models::view_opt_int(o)) == pages_of_source(
                st@.pages.take(i as int),
                i_source_id as int,
            ).map_values(|p: PageModel| p.read),
        decreases n - i,
    {
        let ghost preout = out@;
        if st.pages[i].source_id == i_source_id {
            out.push(st.pages[i].read);
            proof {
                assert(out@.map_values(|o: Option<i64>| crate::models::view_opt_int(o))
                    =~= preout.map_values(|o: Option<i64>| crate::models::view_opt_int(o)).push(
                    st@.pages[i as int].read,
                ));
            }
        }
        proof {
            assert(st@.pages.take(i + 1).drop_last() =~= st@.pages.take(i as int));
            assert(st@.pages.take(i + 1).last() == st@.pages[i as int]);
            assert(out@.map_values(|o: Option<i64>| crate::models::view_opt_int(o))
                =~= pages_of_source(st@.pages.take(i + 1), i_source_id as int).map_values(
                |p: PageModel| p.read,
            ));
        }
        i = i + 1;
    }
    proof {
        assert(st@.pages.take(n as int) =~= st@.pages);
    }
    out
}

/// A reputation adjustment: the new weight, clamped to zero from below so a
/// run of downvotes can never push it negative, and to the id type's maximum
/// from above.
pub open spec fn spec_adjust_weight(w: int, delta: int) -> int {
    if w + delta < 0 {
        0
    } else if w + delta > i32::MAX {
        i32::MAX as int
    } else {
        w + delta
    }
}

/// Applies an up- or downvote to a source's weight and returns the new weight
/// with the source's url. `None` exactly when the source row is gone.
pub fn set_source_weight(st: &mut Store, source_id: i32, i_weight: i32) -> (r: Option<(
    i32,
    String,
)>)
    requires
        old(st).wf(),
    ensures
        final(st).wf(),
        final(st)@.pages == old(st)@.pages,
        final(st)@.next_page_id == old(st)@.next_page_id,
        final(st)@.next_source_id == old(st)@.next_source_id,
        match r {
            Some(updated) => {
                &&& has_source_id(old(st)@, source_id as int)
                &&& updated.0 as int == spec_adjust_weight(
                    source_by_id(old(st)@, source_id as int).weight,
                    i_weight as int,
                )
                &&& updated.1@ == source_by_id(old(st)@, source_id as int).url
                &&& final(st)@.sources == old(st)@.sources.update(
                    source_index(old(st)@, source_id as int),
                    SourceModel {
                        weight: updated.0 as int,
                        ..source_by_id(old(st)@, source_id as int)
                    },
                )
            },
            None => !has_source_id(old(st)@, source_id as int) && final(st)@ == old(st)@,
        },
{
    let n = st.sources.len();
    let mut i: usize = 0;
    while i < n
        invariant
            st.wf(),
            st@ == old(st)@,
            n == st.sources.len(),
            0 <= i <= n,
            forall|j: int| 0 <= j < i ==> st@.sources[j].id != source_id as int,
        decreases n - i,
    {
        if st.sources[i].id == source_id {
            proof {
                lemma_source_id_unique(st@, source_id as int, i as int);
            }
            let sum: i64 = st.sources[i].weight as i64 + i_weight as i64;
            let new_weight: i32 = if sum < 0 {
                0
            } else if sum > i32::MAX as i64 {
                i32::MAX
            } else {
                sum as i32
            };
            st.sources[i].weight = new_weight;
            let url = st.sources[i].url.clone();
            proof {
                assert(st@.sources =~= old(st)@.sources.update(
                    i as int,
                    SourceModel {
                        weight: new_weight as int,
                        ..source_by_id(old(st)@, source_id as int)
                    },
                ));
                assert forall|sid: int| has_source_id(old(st)@, sid) implies has_source_id(
                    st@,
                    sid,
                ) by {
                    let k = choose|k: int|
                        0 <= k < old(st)@.sources.len() && old(st)@.sources[k].id == sid;
                    assert(st@.sources[k].id == sid);
                }
            }
            return Some((new_weight, url));
        }
        i = i + 1;
    }
    None
}

/// The page table with every row of one source removed: the cascade of a
/// source deletion.
pub open spec fn pages_without_source(pages: Seq<PageModel>, source_id: int) -> Seq<PageModel>
    decreases pages.len(),
{
    if pages.len() == 0 {
        Seq::empty()
    } else {
        let prev = pages_without_source(pages.drop_last(), source_id);
        if pages.last().source_id != source_id {
            prev.push(pages.last())
        } else {
            prev
        }
    }
}

/// Deletes a source and, by cascade, every page it owns. Returns the deleted
/// source's url, or an error when no row has the id.
pub fn delete_source(st: &mut Store, source_id: i32) -> (r: Result<String, String>)
    requires
        old(st).wf(),
    ensures
        final(st).wf(),
        final(st)@.next_page_id == old(st)@.next_page_id,
        final(st)@.next_source_id == old(st)@.next_source_id,
        match r {
            Ok(url) => {
                &&& has_source_id(old(st)@, source_id as int)
                &&& url@ == source_by_id(old(st)@, source_id as int).url
                &&& final(st)@.sources == old(st)@.sources.remove(
                    source_index(old(st)@, source_id as int),
                )
                &&& final(st)@.pages == pages_without_source(old(st)@.pages, source_id as int)
            },
            Err(msg) => {
                &&& !has_source_id(old(st)@, source_id as int)
                &&& final(st)@ == old(st)@
                &&& msg@ == "Source not found"@
            },
        },
{
    let n = st.sources.len();
    let mut i: usize = 0;
    while i < n
        invariant
            st.wf(),
            st@ == old(st)@,
            n == st.sources.len(),
            0 <= i <= n,
            forall|j: int| 0 <= j < i ==> st@.sources[j].id != source_id as int,
        decreases n - i,
    {
        if st.sources[i].id == source_id {
            proof {
                lemma_source_id_unique(st@, source_id as int, i as int);
            }
            let removed = st.sources.remove(i);
            let url = removed.url;
            let m = st.pages.len();
            let mut kept: Vec<Page> = Vec::new();
            proof {
                assert(st@.sources =~= old(st)@.sources.remove(i as int));
                assert(st@.pages.take(0) =~= Seq::<PageModel>::empty());
                assert(kept@.map_values(|p: Page| p@) =~= Seq::<PageModel>::empty());
            }
            let mut j: usize = 0;
            while j < m
                invariant
                    m == st.pages.len(),
                    st@.pages == old(st)@.pages,
                    0 <= j <= m,
                    kept@.map_values(|p: Page| p@) == pages_without_source(
                        st@.pages.take(j as int),
                        source_id as int,
                    ),
                decreases m - j,
            {
                let ghost prekept = kept@;
                if st.pages[j].source_id != source_id {
                    kept.push(st.pages[j].clone());
                }
                proof {
                    assert(st@.pages.take(j + 1).drop_last() =~= st@.pages.take(j as int));
                    assert(st@.pages.take(j + 1).last() == st@.pages[j as int]);
                    assert(kept@.map_values(|p: Page| p@) =~= pages_without_source(
                        st@.pages.take(j + 1),
                        source_id as int,
                    ));
                }
                j = j + 1;
            }
            proof {
                assert(st@.pages.take(m as int) =~= st@.pages);
            }
            st.pages = kept;
            proof {
                lemma_delete_source_wf(old(st)@, i as int, st@);
            }
            return Ok(url);
        }
        i = i + 1;
    }
    Err("Source not found".to_owned())
}

/// Removing a source together with its pages preserves the store invariant.
proof fn lemma_delete_source_wf(m0: StoreModel, k: int, m1: StoreModel)
    requires
        wf_model(m0),
        0 <= k < m0.sources.len(),
        m1.sources == m0.sources.remove(k),
        m1.pages == pages_without_source(m0.pages, m0.sources[k].id),
        m1.next_source_id == m0.next_source_id,
        m1.next_page_id == m0.next_page_id,
    ensures
        wf_model(m1),
{
    let sid = m0.sources[k].id;
    lemma_pages_without_source_sub(m0.pages, sid);
    assert forall|i: int| 0 <= i < m1.pages.len() implies {
        &&& 1 <= (#[trigger] m1.pages[i]).id < m1.next_page_id
        &&& has_source_id(m1, m1.pages[i].source_id)
    } by {
        let p = m1.pages[i];
        let orig = choose|oi: int| 0 <= oi < m0.pages.len() && m0.pages[oi] == p;
        assert(1 <= p.id < m0.next_page_id);
        assert(p.source_id != sid);
        let sk = choose|sk: int|
            0 <= sk < m0.sources.len() && m0.sources[sk].id == p.source_id;
        assert(sk != k);
        if sk < k {
            assert(m1.sources[sk] == m0.sources[sk]);
        } else {
            assert(m1.sources[sk - 1] == m0.sources[sk]);
        }
    }
    assert forall|i: int, j: int| 0 <= i < j < m1.pages.len() implies {
        &&& (#[trigger] m1.pages[i]).id != (#[trigger] m1.pages[j]).id
        &&& !(m1.pages[i].source_id == m1.pages[j].source_id && m1.pages[i].url
            == m1.pages[j].url)
    } by {
        lemma_pages_without_source_pair(m0.pages, sid, i, j);
    }
}

/// Every row kept by the cascade filter is a row of the original table.
proof fn lemma_pages_without_source_sub(pages: Seq<PageModel>, sid: int)
    ensures
        pages_without_source(pages, sid).len() <= pages.len(),
        forall|i: int| 0 <= i < pages_without_source(pages, sid).len() ==> {
            &&& (#[trigger] pages_without_source(pages, sid)[i]).source_id != sid
            &&& exists|oi: int| 0 <= oi < pages.len() && pages[oi] == pages_without_source(
                pages,
                sid,
            )[i]
        },
    decreases pages.len(),
{
    if pages.len() > 0 {
        lemma_pages_without_source_sub(pages.drop_last(), sid);
        assert forall|i: int| 0 <= i < pages_without_source(pages, sid).len() implies {
            &&& (#[trigger] pages_without_source(pages, sid)[i]).source_id != sid
            &&& exists|oi: int| 0 <= oi < pages.len() && pages[oi] == pages_without_source(
                pages,
                sid,
            )[i]
        } by {
            let f = pages_without_source(pages, sid);
            let fprev = pages_without_source(pages.drop_last(), sid);
            if i < fprev.len() {
                assert(f[i] == fprev[i]);
                let oi = choose|oi: int|
                    0 <= oi < pages.drop_last().len() && pages.drop_last()[oi] == fprev[i];
                assert(pages[oi] == fprev[i]);
            } else {
                assert(f[i] == pages.last());
                assert(pages[pages.len() - 1] == f[i]);
            }
        }
    }
}

/// The cascade filter keeps rows distinct: any two of its rows are two
/// different rows of the original table, in order.
proof fn lemma_pages_without_source_pair(pages: Seq<PageModel>, sid: int, i: int, j: int)
    requires
        0 <= i < j < pages_without_source(pages, sid).len(),
    ensures
        exists|oi: int, oj: int|
            0 <= oi < oj < pages.len() && pages[oi] == pages_without_source(pages, sid)[i]
                && pages[oj] == pages_without_source(pages, sid)[j],
    decreases pages.len(),
{
    let f = pages_without_source(pages, sid);
    let fprev = pages_without_source(pages.drop_last(), sid);
    lemma_pages_without_source_sub(pages.drop_last(), sid);
    if j < fprev.len() {
        lemma_pages_without_source_pair(pages.drop_last(), sid, i, j);
        let (oi, oj) = choose|oi: int, oj: int|
            0 <= oi < oj < pages.drop_last().len() && pages.drop_last()[oi] == fprev[i]
                && pages.drop_last()[oj] == fprev[j];
        assert(pages[oi] == f[i] && pages[oj] == f[j]);
    } else {
        assert(f[j] == pages.last());
        assert(i < fprev.len());
        let oi = choose|oi: int|
            0 <= oi < pages.drop_last().len() && pages.drop_last()[oi] == fprev[i];
        assert(pages[oi] == f[i] && pages[pages.len() - 1] == f[j]);
    }
}


/// Moves the rows of `v` into descending order of their `added` timestamp:
/// the presentation order of source and page listings.
fn sort_pages_by_added_desc(v: Vec<Page>) -> (r: Vec<Page>)
    ensures
        r@.len() == v@.len(),
        r@.to_multiset() == v@.to_multiset(),
        forall|i: int, j: int| 0 <= i < j < r@.len() ==> (#[trigger] r@[i]).added >= (
        #[trigger] r@[j]).added,
{
    broadcast use vstd::seq_lib::group_to_multiset_ensures;

    let mut rest = v;
    let mut out: Vec<Page> = Vec::new();
    proof {
        broadcast use vstd::seq_lib::group_to_multiset_ensures;

        assert forall|x: Page| true implies out@.to_multiset().count(x) == 0 by {
            assert(!out@.contains(x));
        }
        assert(out@.to_multiset().add(rest@.to_multiset()) =~= v@.to_multiset());
    }
    while rest.len() > 0
        invariant
            out@.len() + rest@.len() == v@.len(),
            out@.to_multiset().add(rest@.to_multiset()) == v@.to_multiset(),
            forall|i: int, j: int| 0 <= i < j < out@.len() ==> (#[trigger] out@[i]).added >= (
            #[trigger] out@[j]).added,
            forall|i: int, j: int| 0 <= i < out@.len() && 0 <= j < rest@.len() ==> (
            #[trigger] out@[i]).added >= (#[trigger] rest@[j]).added,
        decreases rest@.len(),
    {
        let n = rest.len();
        let mut best: usize = 0;
        let mut k: usize = 1;
        while k < n
            invariant
                n == rest@.len(),
                0 <= best < n,
                1 <= k <= n,
                forall|j: int| 0 <= j < k ==> (#[trigger] rest@[j]).added <= rest@[best as int].added,
            decreases n - k,
        {
            if rest[k].added > rest[best].added {
                best = k;
            }
            k = k + 1;
        }
        let ghost prerest = rest@;
        let ghost preout = out@;
        let x = rest.remove(best);
        out.push(x);
        proof {
            broadcast use vstd::seq_lib::group_to_multiset_ensures;

            assert(prerest.remove(best as int).to_multiset() =~= prerest.to_multiset().remove(x));
            assert(preout.push(x).to_multiset() =~= preout.to_multiset().insert(x));
            assert(prerest.to_multiset().contains(x));
            assert(out@.to_multiset().add(rest@.to_multiset()) =~= v@.to_multiset());
            assert forall|j: int| 0 <= j < rest@.len() implies x.added >= (
            #[trigger] rest@[j]).added by {
                if j < best {
                    assert(rest@[j] == prerest[j]);
                } else {
                    assert(rest@[j] == prerest[j + 1]);
                }
            }
        }
    }
    proof {
        broadcast use vstd::seq_lib::group_to_multiset_ensures;

        assert forall|x: Page| true implies rest@.to_multiset().count(x) == 0 by {
            assert(!rest@.contains(x));
        }
        assert(out@.to_multiset() =~= v@.to_multiset());
    }
    out
}


/// Moves the rows of `v` into descending order of their `added` timestamp.
fn sort_sources_by_added_desc(v: Vec<Source>) -> (r: Vec<Source>)
    ensures
        r@.len() == v@.len(),
        r@.to_multiset() == v@.to_multiset(),
        forall|i: int, j: int| 0 <= i < j < r@.len() ==> (#[trigger] r@[i]).added >= (
        #[trigger] r@[j]).added,
{
    let mut rest = v;
    let mut out: Vec<Source> = Vec::new();
    proof {
        broadcast use vstd::seq_lib::group_to_multiset_ensures;

        assert forall|x: Source| true implies out@.to_multiset().count(x) == 0 by {
            assert(!out@.contains(x));
        }
        assert(out@.to_multiset().add(rest@.to_multiset()) =~= v@.to_multiset());
    }
    while rest.len() > 0
        invariant
            out@.len() + rest@.len() == v@.len(),
            out@.to_multiset().add(rest@.to_multiset()) == v@.to_multiset(),
            forall|i: int, j: int| 0 <= i < j < out@.len() ==> (#[trigger] out@[i]).added >= (
            #[trigger] out@[j]).added,
            forall|i: int, j: int| 0 <= i < out@.len() && 0 <= j < rest@.len() ==> (
            #[trigger] out@[i]).added >= (#[trigger] rest@[j]).added,
        decreases rest@.len(),
    {
        let n = rest.len();
        let mut best: usize = 0;
        let mut k: usize = 1;
        while k < n
            invariant
                n == rest@.len(),
                0 <= best < n,
                1 <= k <= n,
                forall|j: int| 0 <= j < k ==> (#[trigger] rest@[j]).added <= rest@[best as int].added,
            decreases n - k,
        {
            if rest[k].added > rest[best].added {
                best = k;
            }
            k = k + 1;
        }
        let ghost prerest = rest@;
        let ghost preout = out@;
        let x = rest.remove(best);
        out.push(x);
        proof {
            broadcast use vstd::seq_lib::group_to_multiset_ensures;

            assert(prerest.remove(best as int).to_multiset() =~= prerest.to_multiset().remove(x));
            assert(preout.push(x).to_multiset() =~= preout.to_multiset().insert(x));
            assert(prerest.to_multiset().contains(x));
            assert(out@.to_multiset().add(rest@.to_multiset()) =~= v@.to_multiset());
            assert forall|j: int| 0 <= j < rest@.len() implies x.added >= (
            #[trigger] rest@[j]).added by {
                if j < best {
                    assert(rest@[j] == prerest[j]);
                } else {
                    assert(rest@[j] == prerest[j + 1]);
                }
            }
        }
    }
    proof {
        broadcast use vstd::seq_lib::group_to_multiset_ensures;

        assert forall|x: Source| true implies rest@.to_multiset().count(x) == 0 by {
            assert(!rest@.contains(x));
        }
        assert(out@.to_multiset() =~= v@.to_multiset());
    }
    out
}

/// Moves weighted-candidate rows (date, page id, weight) into ascending order
/// of date: oldest first, the order the selector's recency bonus assumes.
fn sort_triples_by_date_asc(v: Vec<(i64, i32, i32)>) -> (r: Vec<(i64, i32, i32)>)
    ensures
        r@.len() == v@.len(),
        r@.to_multiset() == v@.to_multiset(),
        forall|i: int, j: int| 0 <= i < j < r@.len() ==> (#[trigger] r@[i]).0 <= (
        #[trigger] r@[j]).0,
{
    let mut rest = v;
    let mut out: Vec<(i64, i32, i32)> = Vec::new();
    proof {
        broadcast use vstd::seq_lib::group_to_multiset_ensures;

        assert forall|x: (i64, i32, i32)| true implies out@.to_multiset().count(x) == 0 by {
            assert(!out@.contains(x));
        }
        assert(out@.to_multiset().add(rest@.to_multiset()) =~= v@.to_multiset());
    }
    while rest.len() > 0
        invariant
            out@.len() + rest@.len() == v@.len(),
            out@.to_multiset().add(rest@.to_multiset()) == v@.to_multiset(),
            forall|i: int, j: int| 0 <= i < j < out@.len() ==> (#[trigger] out@[i]).0 <= (
            #[trigger] out@[j]).0,
            forall|i: int, j: int| 0 <= i < out@.len() && 0 <= j < rest@.len() ==> (
            #[trigger] out@[i]).0 <= (#[trigger] rest@[j]).0,
        decreases rest@.len(),
    {
        let n = rest.len();
        let mut best: usize = 0;
        let mut k: usize = 1;
        while k < n
            invariant
                n == rest@.len(),
                0 <= best < n,
                1 <= k <= n,
                forall|j: int| 0 <= j < k ==> (#[trigger] rest@[j]).0 >= rest@[best as int].0,
            decreases n - k,
        {
            if rest[k].0 < rest[best].0 {
                best = k;
            }
            k = k + 1;
        }
        let ghost prerest = rest@;
        let ghost preout = out@;
        let x = rest.remove(best);
        out.push(x);
        proof {
            broadcast use vstd::seq_lib::group_to_multiset_ensures;

            assert(prerest.remove(best as int).to_multiset() =~= prerest.to_multiset().remove(x));
            assert(preout.push(x).to_multiset() =~= preout.to_multiset().insert(x));
            assert(prerest.to_multiset().contains(x));
            assert(out@.to_multiset().add(rest@.to_multiset()) =~= v@.to_multiset());
            assert forall|j: int| 0 <= j < rest@.len() implies x.0 <= (#[trigger] rest@[j]).0 by {
                if j < best {
                    assert(rest@[j] == prerest[j]);
                } else {
                    assert(rest@[j] == prerest[j + 1]);
                }
            }
        }
    }
    proof {
        broadcast use vstd::seq_lib::group_to_multiset_ensures;

        assert forall|x: (i64, i32, i32)| true implies rest@.to_multiset().count(x) == 0 by {
            assert(!rest@.contains(x));
        }
        assert(out@.to_multiset() =~= v@.to_multiset());
    }
    out
}

/// `s` is one of the store's source rows.
pub open spec fn is_source_row(m: StoreModel, s: SourceModel) -> bool {
    exists|k: int| 0 <= k < m.sources.len() && m.sources[k] == s
}

/// Some element of `rs` has the view `s`.
pub open spec fn sources_include(rs: Seq<Source>, s: SourceModel) -> bool {
    exists|i: int| 0 <= i < rs.len() && rs[i]@ == s
}

/// All sources, newest registration first.
pub fn get_sources(st: &Store) -> (r: Vec<Source>)
    requires
        st.wf(),
    ensures
        r@.len() == st@.sources.len(),
        forall|i: int| 0 <= i < r@.len() ==> is_source_row(st@, (#[trigger] r@[i])@),
        forall|k: int| 0 <= k < st@.sources.len() ==> sources_include(
            r@,
            #[trigger] st@.sources[k],
        ),
        forall|i: int, j: int| 0 <= i < j < r@.len() ==> (#[trigger] r@[i])@.added >= (
        #[trigger] r@[j])@.added,
{
    let n = st.sources.len();
    let mut all: Vec<Source> = Vec::new();
    let mut i: usize = 0;
    while i < n
        invariant
            st.wf(),
            n == st.sources.len(),
            0 <= i <= n,
            all@.len() == i,
            forall|j: int| 0 <= j < i ==> (#[trigger] all@[j])@ == st@.sources[j],
        decreases n - i,
    {
        all.push(st.sources[i].clone());
        i = i + 1;
    }
    let ghost a = all@;
    proof {
        assert(a.len() == st@.sources.len());
        assert(forall|j: int| 0 <= j < a.len() ==> (#[trigger] a[j])@ == st@.sources[j]);
    }
    let r = sort_sources_by_added_desc(all);
    proof {
        broadcast use vstd::seq_lib::group_to_multiset_ensures;

        assert forall|i: int| 0 <= i < r@.len() implies is_source_row(st@, (#[trigger] r@[i])@)
            by {
            assert(r@.contains(r@[i]));
            assert(r@.to_multiset().count(r@[i]) > 0);
            assert(a.to_multiset().count(r@[i]) > 0);
            assert(a.contains(r@[i]));
            let k = choose|k: int| 0 <= k < a.len() && a[k] == r@[i];
            assert(0 <= k < st@.sources.len() && st@.sources[k] == r@[i]@);
        }
        assert forall|k: int| 0 <= k < st@.sources.len() implies sources_include(
            r@,
            #[trigger] st@.sources[k],
        ) by {
            assert(a.contains(a[k]));
            assert(a.to_multiset().count(a[k]) > 0);
            assert(r@.to_multiset().count(a[k]) > 0);
            assert(r@.contains(a[k]));
            let i = choose|i: int| 0 <= i < r@.len() && r@[i] == a[k];
            assert(0 <= i < r@.len() && r@[i]@ == st@.sources[k]);
        }
    }
    r
}


/// `p` is one of the given rows.
pub open spec fn is_row_of(rows: Seq<PageModel>, p: PageModel) -> bool {
    exists|k: int| 0 <= k < rows.len() && rows[k] == p
}

/// Some element of `rs` has the view `p`.
pub open spec fn pages_include(rs: Seq<Page>, p: PageModel) -> bool {
    exists|i: int| 0 <= i < rs.len() && rs[i]@ == p
}

/// The rows a page listing shows: all of them, or the unread ones only.
pub open spec fn listed_pages(pages: Seq<PageModel>, unread: bool) -> Seq<PageModel>
    decreases pages.len(),
{
    if pages.len() == 0 {
        Seq::empty()
    } else {
        let prev = listed_pages(pages.drop_last(), unread);
        if !unread || pages.last().read is None {
            prev.push(pages.last())
        } else {
            prev
        }
    }
}

/// The unread rows of one source, in table order.
pub open spec fn unread_rows_of_source(pages: Seq<PageModel>, source_id: int) -> Seq<PageModel>
    decreases pages.len(),
{
    if pages.len() == 0 {
        Seq::empty()
    } else {
        let prev = unread_rows_of_source(pages.drop_last(), source_id);
        if pages.last().source_id == source_id && pages.last().read is None {
            prev.push(pages.last())
        } else {
            prev
        }
    }
}

/// All pages, or the unread ones only, newest discovery first.
pub fn get_pages(st: &Store, unread: bool) -> (r: Vec<Page>)
    requires
        st.wf(),
    ensures
        r@.len() == listed_pages(st@.pages, unread).len(),
        forall|i: int| 0 <= i < r@.len() ==> is_row_of(
            listed_pages(st@.pages, unread),
            (#[trigger] r@[i])@,
        ),
        forall|k: int| 0 <= k < listed_pages(st@.pages, unread).len() ==> pages_include(
            r@,
            #[trigger] listed_pages(st@.pages, unread)[k],
        ),
        forall|i: int, j: int| 0 <= i < j < r@.len() ==> (#[trigger] r@[i])@.added >= (
        #[trigger] r@[j])@.added,
{
    let n = st.pages.len();
    let mut all: Vec<Page> = Vec::new();
    let mut i: usize = 0;
    proof {
        assert(st@.pages.take(0) =~= Seq::<PageModel>::empty());
        assert(all@.map_values(|p: Page| p@) =~= Seq::<PageModel>::empty());
    }
    while i < n
        invariant
            st.wf(),
            n == st.pages.len(),
            0 <= i <= n,
            all@.map_values(|p: Page| p@) == listed_pages(st@.pages.take(i as int), unread),
        decreases n - i,
    {
        let ghost preall = all@;
        if !unread || st.pages[i].read.is_none() {
            all.push(st.pages[i].clone());
            proof {
                assert(all@.map_values(|p: Page| p@) =~= preall.map_values(|p: Page| p@).push(
                    st@.pages[i as int],
                ));
            }
        }
        proof {
            assert(st@.pages.take(i + 1).drop_last() =~= st@.pages.take(i as int));
            assert(st@.pages.take(i + 1).last() == st@.pages[i as int]);
            assert(all@.map_values(|p: Page| p@) =~= listed_pages(
                st@.pages.take(i + 1),
                unread,
            ));
        }
        i = i + 1;
    }
    proof {
        assert(st@.pages.take(n as int) =~= st@.pages);
    }
    let ghost a = all@;
    let ghost rows = listed_pages(st@.pages, unread);
    proof {
        assert(a.map_values(|p: Page| p@) == rows);
        assert(a.len() == rows.len());
        assert(forall|j: int| 0 <= j < a.len() ==> (#[trigger] a[j])@ == rows[j]);
    }
    let r = sort_pages_by_added_desc(all);
    proof {
        broadcast use vstd::seq_lib::group_to_multiset_ensures;

        assert forall|i: int| 0 <= i < r@.len() implies is_row_of(rows, (#[trigger] r@[i])@) by {
            assert(r@.contains(r@[i]));
            assert(r@.to_multiset().count(r@[i]) > 0);
            assert(a.to_multiset().count(r@[i]) > 0);
            assert(a.contains(r@[i]));
            let k = choose|k: int| 0 <= k < a.len() && a[k] == r@[i];
            assert(0 <= k < rows.len() && rows[k] == r@[i]@);
        }
        assert forall|k: int| 0 <= k < rows.len() implies pages_include(
            r@,
            #[trigger] rows[k],
        ) by {
            assert(a.contains(a[k]));
            assert(a.to_multiset().count(a[k]) > 0);
            assert(r@.to_multiset().count(a[k]) > 0);
            assert(r@.contains(a[k]));
            let i = choose|i: int| 0 <= i < r@.len() && r@[i] == a[k];
            assert(0 <= i < r@.len() && r@[i]@ == rows[k]);
        }
    }
    r
}

/// The unread pages of one source, newest discovery first.
pub fn get_unread_pages_by_source(st: &Store, i_source_id: i32) -> (r: Vec<Page>)
    requires
        st.wf(),
    ensures
        r@.len() == unread_rows_of_source(st@.pages, i_source_id as int).len(),
        forall|i: int| 0 <= i < r@.len() ==> is_row_of(
            unread_rows_of_source(st@.pages, i_source_id as int),
            (#[trigger] r@[i])@,
        ),
        forall|k: int| 0 <= k < unread_rows_of_source(st@.pages, i_source_id as int).len()
            ==> pages_include(
            r@,
            #[trigger] unread_rows_of_source(st@.pages, i_source_id as int)[k],
        ),
        forall|i: int, j: int| 0 <= i < j < r@.len() ==> (#[trigger] r@[i])@.added >= (
        #[trigger] r@[j])@.added,
{
    let n = st.pages.len();
    let mut all: Vec<Page> = Vec::new();
    let mut i: usize = 0;
    proof {
        assert(st@.pages.take(0) =~= Seq::<PageModel>::empty());
        assert(all@.map_values(|p: Page| p@) =~= Seq::<PageModel>::empty());
    }
    while i < n
        invariant
            st.wf(),
            n == st.pages.len(),
            0 <= i <= n,
            all@.map_values(|p: Page| p@) == unread_rows_of_source(
                st@.pages.take(i as int),
                i_source_id as int,
            ),
        decreases n - i,
    {
        let ghost preall = all@;
        if st.pages[i].source_id == i_source_id && st.pages[i].read.is_none() {
            all.push(st.pages[i].clone());
            proof {
                assert(all@.map_values(|p: Page| p@) =~= preall.map_values(|p: Page| p@).push(
                    st@.pages[i as int],
                ));
            }
        }
        proof {
            assert(st@.pages.take(i + 1).drop_last() =~= st@.pages.take(i as int));
            assert(st@.pages.take(i + 1).last() == st@.pages[i as int]);
            assert(all@.map_values(|p: Page| p@) =~= unread_rows_of_source(
                st@.pages.take(i + 1),
                i_source_id as int,
            ));
        }
        i = i + 1;
    }
    proof {
        assert(st@.pages.take(n as int) =~= st@.pages);
    }
    let ghost a = all@;
    let ghost rows = unread_rows_of_source(st@.pages, i_source_id as int);
    proof {
        assert(a.map_values(|p: Page| p@) == rows);
        assert(a.len() == rows.len());
        assert(forall|j: int| 0 <= j < a.len() ==> (#[trigger] a[j])@ == rows[j]);
    }
    let r = sort_pages_by_added_desc(all);
    proof {
        broadcast use vstd::seq_lib::group_to_multiset_ensures;

        assert forall|i: int| 0 <= i < r@.len() implies is_row_of(rows, (#[trigger] r@[i])@) by {
            assert(r@.contains(r@[i]));
            assert(r@.to_multiset().count(r@[i]) > 0);
            assert(a.to_multiset().count(r@[i]) > 0);
            assert(a.contains(r@[i]));
            let k = choose|k: int| 0 <= k < a.len() && a[k] == r@[i];
            assert(0 <= k < rows.len() && rows[k] == r@[i]@);
        }
        assert forall|k: int| 0 <= k < rows.len() implies pages_include(
            r@,
            #[trigger] rows[k],
        ) by {
            assert(a.contains(a[k]));
            assert(a.to_multiset().count(a[k]) > 0);
            assert(r@.to_multiset().count(a[k]) > 0);
            assert(r@.contains(a[k]));
            let i = choose|i: int| 0 <= i < r@.len() && r@[i] == a[k];
            assert(0 <= i < r@.len() && r@[i]@ == rows[k]);
        }
    }
    r
}



/// A row counted at least twice appears at two positions.
proof fn lemma_count2_gives_dup(s: Seq<(i64, i32, i32)>, x: (i64, i32, i32))
    requires
        s.to_multiset().count(x) >= 2,
    ensures
        exists|i: int, j: int| 0 <= i < j < s.len() && s[i] == x && s[j] == x,
{
    broadcast use vstd::seq_lib::group_to_multiset_ensures;
    broadcast use vstd::multiset::group_multiset_axioms;

    assert(s.contains(x));
    let i = choose|i: int| 0 <= i < s.len() && s[i] == x;
    let s1 = s.remove(i);
    assert(s1.to_multiset() =~= s.to_multiset().remove(s[i]));
    assert(s1.to_multiset().count(x) >= 1);
    assert(s1.contains(x));
    let j1 = choose|j: int| 0 <= j < s1.len() && s1[j] == x;
    if j1 < i {
        assert(s[j1] == x);
        assert(0 <= j1 < i < s.len() && s[j1] == x && s[i] == x);
    } else {
        assert(s[j1 + 1] == x);
        assert(0 <= i < j1 + 1 < s.len() && s[i] == x && s[j1 + 1] == x);
    }
}

/// A row that appears at two positions counts at least twice.
proof fn lemma_dup_gives_count2(s: Seq<(i64, i32, i32)>, i: int, j: int)
    requires
        0 <= i < j < s.len(),
        s[i] == s[j],
    ensures
        s.to_multiset().count(s[i]) >= 2,
{
    broadcast use vstd::seq_lib::group_to_multiset_ensures;
    broadcast use vstd::multiset::group_multiset_axioms;

    let s1 = s.remove(i);
    assert(s1.to_multiset() =~= s.to_multiset().remove(s[i]));
    assert(s1[j - 1] == s[j]);
    assert(s1.contains(s[i]));
    assert(s1.to_multiset().count(s[i]) > 0);
    assert(s.to_multiset().count(s[i]) == s1.to_multiset().count(s[i]) + 1);
}

/// The weight of the source owning a page: what the selection join reads.
pub open spec fn weight_of_page(m: StoreModel, p: PageModel) -> int {
    source_by_id(m, p.source_id).weight
}

/// A candidate row of the selection join: an unread page's id paired with its
/// source's weight, tagged (in the first component) with the page's date.
pub open spec fn is_candidate_row(m: StoreModel, t: (i64, i32, i32)) -> bool {
    exists|pi: int|
        {
            &&& 0 <= pi < m.pages.len()
            &&& (#[trigger] m.pages[pi]).read is None
            &&& t.0 as int == m.pages[pi].date
            &&& t.1 as int == m.pages[pi].id
            &&& t.2 as int == weight_of_page(m, m.pages[pi])
        }
}

/// Some candidate row carries this page id.
pub open spec fn candidates_carry_id(rs: Seq<(i64, i32, i32)>, id: int) -> bool {
    exists|i: int| 0 <= i < rs.len() && (#[trigger] rs[i]).1 == id
}

/// Some weighted pair carries this page id.
pub open spec fn pairs_carry_id(rs: Seq<(i32, i32)>, id: int) -> bool {
    exists|i: int| 0 <= i < rs.len() && (#[trigger] rs[i]).0 == id
}

/// The selection join: every unread page paired with its source's weight,
/// ordered by ascending publication date (oldest first), each page exactly
/// once.
pub fn pages_with_source_weight(st: &Store) -> (r: Vec<(i32, i32)>)
    requires
        st.wf(),
    ensures
        forall|i: int| 0 <= i < r@.len() ==> {
            &&& has_page_id(st@, (#[trigger] r@[i]).0 as int)
            &&& page_by_id(st@, r@[i].0 as int).read is None
            &&& r@[i].1 as int == weight_of_page(st@, page_by_id(st@, r@[i].0 as int))
            &&& r@[i].1 >= 0
        },
        forall|k: int| 0 <= k < st@.pages.len() && (#[trigger] st@.pages[k]).read is None
            ==> pairs_carry_id(r@, st@.pages[k].id),
        forall|i: int, j: int| 0 <= i < j < r@.len() ==> (#[trigger] r@[i]).0 != (
        #[trigger] r@[j]).0,
        forall|i: int, j: int| 0 <= i < j < r@.len() ==> page_by_id(st@, (#[trigger] r@[i]).0 as int).date
            <= page_by_id(st@, (#[trigger] r@[j]).0 as int).date,
{
    let n = st.pages.len();
    let mut cands: Vec<(i64, i32, i32)> = Vec::new();
    let mut i: usize = 0;
    while i < n
        invariant
            st.wf(),
            n == st.pages.len(),
            0 <= i <= n,
            forall|a: int| 0 <= a < cands@.len() ==> is_candidate_row(st@, #[trigger] cands@[a]),
            forall|a: int, b: int| 0 <= a < b < cands@.len() ==> (#[trigger] cands@[a]).1 != (
            #[trigger] cands@[b]).1,
            forall|k: int| 0 <= k < i && (#[trigger] st@.pages[k]).read is None
                ==> candidates_carry_id(cands@, st@.pages[k].id),
            forall|a: int| 0 <= a < cands@.len() ==> exists|pi: int|
                0 <= pi < i && (#[trigger] cands@[a]).1 as int == st@.pages[pi].id,
        decreases n - i,
    {
        if st.pages[i].read.is_none() {
            let weight = match get_source_by_id(st, st.pages[i].source_id) {
                Some(s) => s.weight,
                None => {
                    proof {
                        assert(has_source_id(st@, st@.pages[i as int].source_id));
                        assert(false);
                    }
                    0
                },
            };
            let ghost precands = cands@;
            let t = (st.pages[i].date, st.pages[i].id, weight);
            cands.push(t);
            proof {
                lemma_source_id_unique(
                    st@,
                    st@.pages[i as int].source_id,
                    source_index(st@, st@.pages[i as int].source_id),
                );
                assert(t.2 as int == weight_of_page(st@, st@.pages[i as int]));
                assert(is_candidate_row(st@, t));
                assert forall|a: int, b: int| 0 <= a < b < cands@.len() implies (
                #[trigger] cands@[a]).1 != (#[trigger] cands@[b]).1 by {
                    if b == cands@.len() - 1 {
                        let pa = choose|pi: int|
                            0 <= pi < i && (precands[a]).1 as int == st@.pages[pi].id;
                        assert(st@.pages[pa].id != st@.pages[i as int].id);
                    }
                }
                assert forall|k: int| 0 <= k < i + 1 && (#[trigger] st@.pages[k]).read is None
                    implies candidates_carry_id(cands@, st@.pages[k].id) by {
                    if k < i {
                        let a = choose|a: int|
                            0 <= a < precands.len() && (#[trigger] precands[a]).1
                                == st@.pages[k].id as i32;
                        assert((cands@[a]).1 == st@.pages[k].id as i32);
                    } else {
                        assert((cands@[cands@.len() - 1]).1 == st@.pages[k].id as i32);
                    }
                }
            }
        }
        i = i + 1;
    }
    let ghost c0 = cands@;
    let sorted = sort_triples_by_date_asc(cands);
    proof {
        broadcast use vstd::seq_lib::group_to_multiset_ensures;

        assert forall|a: int| 0 <= a < sorted@.len() implies is_candidate_row(
            st@,
            #[trigger] sorted@[a],
        ) by {
            assert(sorted@.contains(sorted@[a]));
            assert(sorted@.to_multiset().count(sorted@[a]) > 0);
            assert(c0.to_multiset().count(sorted@[a]) > 0);
            assert(c0.contains(sorted@[a]));
            let k = choose|k: int| 0 <= k < c0.len() && c0[k] == sorted@[a];
            assert(is_candidate_row(st@, c0[k]));
        }
        assert forall|a: int, b: int| 0 <= a < b < sorted@.len() implies (
        #[trigger] sorted@[a]).1 != (#[trigger] sorted@[b]).1 by {
            if sorted@[a] == sorted@[b] {
                lemma_dup_gives_count2(sorted@, a, b);
                lemma_count2_gives_dup(c0, sorted@[a]);
                let (x, y) = choose|x: int, y: int|
                    0 <= x < y < c0.len() && c0[x] == sorted@[a] && c0[y] == sorted@[a];
                assert((c0[x]).1 != (c0[y]).1);
                assert(false);
            } else {
                assert(sorted@.contains(sorted@[a]));
                assert(sorted@.to_multiset().count(sorted@[a]) > 0);
                assert(c0.to_multiset().count(sorted@[a]) > 0);
                assert(c0.contains(sorted@[a]));
                assert(sorted@.contains(sorted@[b]));
                assert(sorted@.to_multiset().count(sorted@[b]) > 0);
                assert(c0.to_multiset().count(sorted@[b]) > 0);
                assert(c0.contains(sorted@[b]));
                let x = choose|x: int| 0 <= x < c0.len() && c0[x] == sorted@[a];
                let y = choose|y: int| 0 <= y < c0.len() && c0[y] == sorted@[b];
                if x < y {
                    assert((c0[x]).1 != (c0[y]).1);
                } else {
                    assert(x != y);
                    assert((c0[y]).1 != (c0[x]).1);
                }
            }
        }
        assert forall|k: int| 0 <= k < st@.pages.len() && (#[trigger] st@.pages[k]).read is None
            implies candidates_carry_id(sorted@, st@.pages[k].id) by {
            let a = choose|a: int|
                0 <= a < c0.len() && (#[trigger] c0[a]).1 == st@.pages[k].id as i32;
            assert(c0.contains(c0[a]));
            assert(c0.to_multiset().count(c0[a]) > 0);
            assert(sorted@.to_multiset().count(c0[a]) > 0);
            assert(sorted@.contains(c0[a]));
            let b = choose|b: int| 0 <= b < sorted@.len() && sorted@[b] == c0[a];
            assert((sorted@[b]).1 == st@.pages[k].id as i32);
        }
    }
    let m = sorted.len();
    let mut out: Vec<(i32, i32)> = Vec::new();
    let mut j: usize = 0;
    while j < m
        invariant
            m == sorted@.len(),
            0 <= j <= m,
            out@.len() == j,
            forall|a: int| 0 <= a < j ==> (#[trigger] out@[a]).0 == (sorted@[a]).1 && out@[a].1
                == (sorted@[a]).2,
        decreases m - j,
    {
        out.push((sorted[j].1, sorted[j].2));
        j = j + 1;
    }
    proof {
        assert forall|i: int| 0 <= i < out@.len() implies {
            &&& has_page_id(st@, (#[trigger] out@[i]).0 as int)
            &&& page_by_id(st@, out@[i].0 as int).read is None
            &&& out@[i].1 as int == weight_of_page(st@, page_by_id(st@, out@[i].0 as int))
            &&& out@[i].1 >= 0
            &&& page_by_id(st@, out@[i].0 as int).date == (sorted@[i]).0 as int
        } by {
            assert(is_candidate_row(st@, sorted@[i]));
            let pi = choose|pi: int|
                {
                    &&& 0 <= pi < st@.pages.len()
                    &&& (#[trigger] st@.pages[pi]).read is None
                    &&& (sorted@[i]).0 as int == st@.pages[pi].date
                    &&& (sorted@[i]).1 as int == st@.pages[pi].id
                    &&& (sorted@[i]).2 as int == weight_of_page(st@, st@.pages[pi])
                };
            lemma_page_id_unique(st@, st@.pages[pi].id, pi);
            let si = source_index(st@, st@.pages[pi].source_id);
            assert(has_source_id(st@, st@.pages[pi].source_id));
            assert(0 <= si < st@.sources.len() && st@.sources[si].id == st@.pages[pi].source_id);
            assert(st@.sources[si].weight >= 0);
        }
        assert forall|k: int| 0 <= k < st@.pages.len() && (#[trigger] st@.pages[k]).read is None
            implies pairs_carry_id(out@, st@.pages[k].id) by {
            let a = choose|a: int|
                0 <= a < sorted@.len() && (#[trigger] sorted@[a]).1 == st@.pages[k].id as i32;
            assert((out@[a]).0 == st@.pages[k].id as i32);
        }
        assert forall|i: int, j2: int| 0 <= i < j2 < out@.len() implies page_by_id(
            st@,
            (#[trigger] out@[i]).0 as int,
        ).date <= page_by_id(st@, (#[trigger] out@[j2]).0 as int).date by {
            assert((sorted@[i]).0 <= (sorted@[j2]).0);
        }
    }
    out
}


/// Index of the source row with this url.
pub open spec fn source_url_index(m: StoreModel, url: Seq<char>) -> int {
    choose|i: int| 0 <= i < m.sources.len() && m.sources[i].url == url
}

/// If source urls are unique, any row that carries the looked-up url is the
/// row `source_url_index` denotes.
pub proof fn lemma_source_url_unique(m: StoreModel, url: Seq<char>, k: int)
    requires
        sources_unique(m),
        0 <= k < m.sources.len(),
        m.sources[k].url == url,
    ensures
        has_source_url(m, url),
        source_url_index(m, url) == k,
{
    let i = source_url_index(m, url);
    assert(0 <= i < m.sources.len() && m.sources[i].url == url);
    if i != k {
        if i < k {
            assert(m.sources[i].url != m.sources[k].url);
        } else {
            assert(m.sources[k].url != m.sources[i].url);
        }
    }
}

/// What a registration does: return the row that already carries the url, or
/// append a fresh one with the default weight.
pub open spec fn spec_create_source(
    m: StoreModel,
    url: Seq<char>,
    s_type: SourceType,
    title: Seq<char>,
    now: int,
) -> (StoreModel, SourceModel) {
    if has_source_url(m, url) {
        (m, m.sources[source_url_index(m, url)])
    } else {
        let s = new_source_model(m.next_source_id, s_type, url, title, now);
        (
            StoreModel {
                sources: m.sources.push(s),
                next_source_id: m.next_source_id + 1,
                ..m
            },
            s,
        )
    }
}

/// Upserting entries touches no source row and no source counter, and the
/// count of newly inserted rows is exactly how far the page counter moved.
pub proof fn lemma_create_pages_frame(m: StoreModel, entries: Seq<NewPageModel>, now: int)
    ensures
        spec_create_pages(m, entries, now).0.sources == m.sources,
        spec_create_pages(m, entries, now).0.next_source_id == m.next_source_id,
        spec_create_pages(m, entries, now).1 == spec_create_pages(m, entries, now).0.next_page_id
            - m.next_page_id,
        0 <= spec_create_pages(m, entries, now).1 <= entries.len(),
    decreases entries.len(),
{
    if entries.len() > 0 {
        let step = spec_upsert_page(m, entries[0], now);
        lemma_create_pages_frame(step.0, entries.drop_first(), now);
    }
}


/// Every row the unread-of-source filter keeps is an unread row of that
/// source from the original table.
pub proof fn lemma_unread_rows_sub(pages: Seq<PageModel>, source_id: int)
    ensures
        unread_rows_of_source(pages, source_id).len() <= pages.len(),
        forall|i: int| 0 <= i < unread_rows_of_source(pages, source_id).len() ==> {
            &&& (#[trigger] unread_rows_of_source(pages, source_id)[i]).source_id == source_id
            &&& unread_rows_of_source(pages, source_id)[i].read is None
            &&& is_row_of(pages, unread_rows_of_source(pages, source_id)[i])
        },
    decreases pages.len(),
{
    if pages.len() > 0 {
        lemma_unread_rows_sub(pages.drop_last(), source_id);
        assert forall|i: int| 0 <= i < unread_rows_of_source(pages, source_id).len() implies {
            &&& (#[trigger] unread_rows_of_source(pages, source_id)[i]).source_id == source_id
            &&& unread_rows_of_source(pages, source_id)[i].read is None
            &&& is_row_of(pages, unread_rows_of_source(pages, source_id)[i])
        } by {
            let f = unread_rows_of_source(pages, source_id);
            let fprev = unread_rows_of_source(pages.drop_last(), source_id);
            if i < fprev.len() {
                assert(f[i] == fprev[i]);
                let k = choose|k: int|
                    0 <= k < pages.drop_last().len() && pages.drop_last()[k] == fprev[i];
                assert(pages[k] == f[i]);
            } else {
                assert(f[i] == pages.last());
                assert(pages[pages.len() - 1] == f[i]);
            }
        }
    }
}

/// Every unread row of the source is kept by the unread-of-source filter.
pub proof fn lemma_unread_rows_complete(pages: Seq<PageModel>, source_id: int, k: int)
    requires
        0 <= k < pages.len(),
        pages[k].source_id == source_id,
        pages[k].read is None,
    ensures
        is_row_of(unread_rows_of_source(pages, source_id), pages[k]),
    decreases pages.len(),
{
    let f = unread_rows_of_source(pages, source_id);
    let fprev = unread_rows_of_source(pages.drop_last(), source_id);
    if k == pages.len() - 1 {
        assert(f[f.len() - 1] == pages[k]);
    } else {
        lemma_unread_rows_complete(pages.drop_last(), source_id, k);
        let i = choose|i: int| 0 <= i < fprev.len() && fprev[i] == pages.drop_last()[k];
        if pages.last().source_id == source_id && pages.last().read is None {
            assert(f[i] == fprev[i]);
        } else {
            assert(f[i] == fprev[i]);
        }
        assert(f[i] == pages[k]);
    }
}


/// A run of votes applied one after another.
pub open spec fn spec_apply_votes(w: int, deltas: Seq<int>) -> int
    decreases deltas.len(),
{
    if deltas.len() == 0 {
        w
    } else {
        spec_apply_votes(spec_adjust_weight(w, deltas[0]), deltas.drop_first())
    }
}

/// The weight floor: however many votes are applied, downvotes included and
/// in any order, a weight that starts at or above zero never ends below it.
pub proof fn lemma_weight_never_negative(w: int, deltas: Seq<int>)
    requires
        w >= 0,
    ensures
        spec_apply_votes(w, deltas) >= 0,
    decreases deltas.len(),
{
    if deltas.len() > 0 {
        lemma_weight_never_negative(spec_adjust_weight(w, deltas[0]), deltas.drop_first());
    }
}


/// Some entry carries this dedup key.
pub open spec fn key_among(entries: Seq<NewPageModel>, source_id: int, url: Seq<char>) -> bool {
    exists|i: int|
        0 <= i < entries.len() && (#[trigger] entries[i]).source_id == source_id
            && entries[i].url == url
}

/// First ingestion: when no entry's dedup key exists yet, the keys are
/// pairwise distinct, and the id space has room, every entry is inserted and
/// counted.
pub proof fn lemma_create_pages_all_new(m: StoreModel, entries: Seq<NewPageModel>, now: int)
    requires
        forall|i: int| 0 <= i < entries.len() ==> !has_page_key(
            m,
            (#[trigger] entries[i]).source_id,
            entries[i].url,
        ),
        forall|i: int, j: int| 0 <= i < j < entries.len() ==> !((
        #[trigger] entries[i]).source_id == (#[trigger] entries[j]).source_id && entries[i].url
            == entries[j].url),
        m.next_page_id + entries.len() <= i32::MAX,
    ensures
        spec_create_pages(m, entries, now).1 == entries.len(),
        spec_create_pages(m, entries, now).0.pages.len() == m.pages.len() + entries.len(),
    decreases entries.len(),
{
    if entries.len() > 0 {
        let e = entries[0];
        assert(!has_page_key(m, e.source_id, e.url));
        let step = spec_upsert_page(m, e, now);
        let m1 = step.0;
        assert(m1.pages == m.pages.push(inserted_page_model(m.next_page_id, e, now)));
        let rest = entries.drop_first();
        assert forall|i: int| 0 <= i < rest.len() implies !has_page_key(
            m1,
            (#[trigger] rest[i]).source_id,
            rest[i].url,
        ) by {
            assert(rest[i] == entries[i + 1]);
            assert(!has_page_key(m, entries[i + 1].source_id, entries[i + 1].url));
            if has_page_key(m1, rest[i].source_id, rest[i].url) {
                let k = choose|k: int|
                    0 <= k < m1.pages.len() && m1.pages[k].source_id == rest[i].source_id
                        && m1.pages[k].url == rest[i].url;
                if k < m.pages.len() {
                    assert(has_page_key(m, rest[i].source_id, rest[i].url));
                } else {
                    assert(m1.pages[k] == inserted_page_model(m.next_page_id, e, now));
                    assert(!(entries[0].source_id == entries[i + 1].source_id && entries[0].url
                        == entries[i + 1].url));
                }
            }
        }
        assert forall|i: int, j: int| 0 <= i < j < rest.len() implies !((
        #[trigger] rest[i]).source_id == (#[trigger] rest[j]).source_id && rest[i].url
            == rest[j].url) by {
            assert(rest[i] == entries[i + 1] && rest[j] == entries[j + 1]);
        }
        lemma_create_pages_all_new(m1, rest, now);
    }
}

/// Re-ingestion: when every entry's dedup key already exists, nothing is
/// inserted; every matched row is reset — unread again, back-dated — and no
/// other row changes.
pub proof fn lemma_create_pages_all_existing(m: StoreModel, entries: Seq<NewPageModel>, now: int)
    requires
        pages_unique(m),
        forall|i: int| 0 <= i < entries.len() ==> has_page_key(
            m,
            (#[trigger] entries[i]).source_id,
            entries[i].url,
        ),
    ensures
        spec_create_pages(m, entries, now).1 == 0,
        spec_create_pages(m, entries, now).0.pages.len() == m.pages.len(),
        forall|k: int| 0 <= k < m.pages.len() ==> (#[trigger] spec_create_pages(
            m,
            entries,
            now,
        ).0.pages[k]) == (if key_among(entries, m.pages[k].source_id, m.pages[k].url) {
            reset_page_model(m.pages[k], now)
        } else {
            m.pages[k]
        }),
    decreases entries.len(),
{
    if entries.len() > 0 {
        let e = entries[0];
        assert(has_page_key(m, e.source_id, e.url));
        let k0 = page_key_index(m, e.source_id, e.url);
        assert(0 <= k0 < m.pages.len() && m.pages[k0].source_id == e.source_id && m.pages[k0].url
            == e.url);
        let step = spec_upsert_page(m, e, now);
        let m1 = step.0;
        assert(m1.pages == m.pages.update(k0, reset_page_model(m.pages[k0], now)));
        let rest = entries.drop_first();
        assert(pages_unique(m1));
        assert forall|i: int| 0 <= i < rest.len() implies has_page_key(
            m1,
            (#[trigger] rest[i]).source_id,
            rest[i].url,
        ) by {
            assert(rest[i] == entries[i + 1]);
            assert(has_page_key(m, rest[i].source_id, rest[i].url));
            let k = choose|k: int|
                0 <= k < m.pages.len() && m.pages[k].source_id == rest[i].source_id
                    && m.pages[k].url == rest[i].url;
            assert(m1.pages[k].source_id == rest[i].source_id && m1.pages[k].url == rest[i].url);
        }
        lemma_create_pages_all_existing(m1, rest, now);
        assert forall|k: int| 0 <= k < m.pages.len() implies (#[trigger] spec_create_pages(
            m,
            entries,
            now,
        ).0.pages[k]) == (if key_among(entries, m.pages[k].source_id, m.pages[k].url) {
            reset_page_model(m.pages[k], now)
        } else {
            m.pages[k]
        }) by {
            assert(spec_create_pages(m, entries, now).0 == spec_create_pages(m1, rest, now).0);
            assert(m1.pages[k].source_id == m.pages[k].source_id && m1.pages[k].url
                == m.pages[k].url);
            if key_among(entries, m.pages[k].source_id, m.pages[k].url) {
                let i = choose|i: int|
                    0 <= i < entries.len() && (#[trigger] entries[i]).source_id
                        == m.pages[k].source_id && entries[i].url == m.pages[k].url;
                if i == 0 {
                    assert(k == k0) by {
                        lemma_page_key_unique(m, e.source_id, e.url, k);
                    }
                    assert(m1.pages[k] == reset_page_model(m.pages[k], now));
                    if key_among(rest, m1.pages[k].source_id, m1.pages[k].url) {
                        assert(spec_create_pages(m1, rest, now).0.pages[k] == reset_page_model(
                            m1.pages[k],
                            now,
                        ));
                        assert(reset_page_model(reset_page_model(m.pages[k], now), now)
                            == reset_page_model(m.pages[k], now));
                    } else {
                        assert(spec_create_pages(m1, rest, now).0.pages[k] == m1.pages[k]);
                    }
                } else {
                    assert(rest[i - 1] == entries[i]);
                    assert(key_among(rest, m1.pages[k].source_id, m1.pages[k].url));
                    if k == k0 {
                        assert(m1.pages[k] == reset_page_model(m.pages[k], now));
                        assert(spec_create_pages(m1, rest, now).0.pages[k] == reset_page_model(
                            m1.pages[k],
                            now,
                        ));
                    } else {
                        assert(m1.pages[k] == m.pages[k]);
                        assert(spec_create_pages(m1, rest, now).0.pages[k] == reset_page_model(
                            m.pages[k],
                            now,
                        ));
                    }
                }
            } else {
                assert(!key_among(rest, m1.pages[k].source_id, m1.pages[k].url)) by {
                    if key_among(rest, m1.pages[k].source_id, m1.pages[k].url) {
                        let i = choose|i: int|
                            0 <= i < rest.len() && (#[trigger] rest[i]).source_id
                                == m1.pages[k].source_id && rest[i].url == m1.pages[k].url;
                        assert(entries[i + 1] == rest[i]);
                        assert(key_among(entries, m.pages[k].source_id, m.pages[k].url));
                    }
                }
                assert(k != k0) by {
                    if k == k0 {
                        assert(key_among(entries, m.pages[k].source_id, m.pages[k].url));
                    }
                }
                assert(m1.pages[k] == m.pages[k]);
                assert(spec_create_pages(m1, rest, now).0.pages[k] == m1.pages[k]);
            }
        }
    } else {
        assert forall|k: int| 0 <= k < m.pages.len() implies !key_among(
            entries,
            (#[trigger] m.pages[k]).source_id,
            m.pages[k].url,
        ) by {}
    }
}


/// Rows that can populate a store: positive ids with room above them, unique
/// ids and urls, unique dedup keys, weights at the floor or above, and every
/// page owned by a present source.
pub open spec fn rows_valid(ss: Seq<SourceModel>, ps: Seq<PageModel>) -> bool {
    &&& ss.len() + 1 <= i32::MAX
    &&& ps.len() + 1 <= i32::MAX
    &&& forall|i: int| 0 <= i < ss.len() ==> {
        &&& 1 <= (#[trigger] ss[i]).id <= i32::MAX - 1
        &&& ss[i].weight >= 0
    }
    &&& forall|i: int| 0 <= i < ps.len() ==> {
        &&& 1 <= (#[trigger] ps[i]).id <= i32::MAX - 1
        &&& exists|k: int| 0 <= k < ss.len() && ss[k].id == ps[i].source_id
    }
    &&& forall|i: int, j: int| 0 <= i < j < ss.len() ==> {
        &&& (#[trigger] ss[i]).id != (#[trigger] ss[j]).id
        &&& ss[i].url != ss[j].url
    }
    &&& forall|i: int, j: int| 0 <= i < j < ps.len() ==> {
        &&& (#[trigger] ps[i]).id != (#[trigger] ps[j]).id
        &&& !(ps[i].source_id == ps[j].source_id && ps[i].url == ps[j].url)
    }
}

/// The largest id among the first `n` source rows, at least 0.
fn max_source_id(sources: &Vec<Source>) -> (m: i32)
    requires
        forall|i: int| 0 <= i < sources@.len() ==> (#[trigger] sources@[i])@.id >= 1,
    ensures
        m >= 0,
        forall|i: int| 0 <= i < sources@.len() ==> (#[trigger] sources@[i])@.id <= m as int,
        m == 0 || exists|i: int| 0 <= i < sources@.len() && (#[trigger] sources@[i])@.id
            == m as int,
{
    let n = sources.len();
    let mut m: i32 = 0;
    let mut i: usize = 0;
    while i < n
        invariant
            n == sources@.len(),
            0 <= i <= n,
            m >= 0,
            forall|j: int| 0 <= j < sources@.len() ==> (#[trigger] sources@[j])@.id >= 1,
            forall|j: int| 0 <= j < i ==> (#[trigger] sources@[j])@.id <= m as int,
            m == 0 || exists|j: int| 0 <= j < i && (#[trigger] sources@[j])@.id == m as int,
        decreases n - i,
    {
        if sources[i].id > m {
            m = sources[i].id;
        }
        i = i + 1;
    }
    m
}

/// The largest id among the page rows, at least 0.
fn max_page_id(pages: &Vec<Page>) -> (m: i32)
    requires
        forall|i: int| 0 <= i < pages@.len() ==> (#[trigger] pages@[i])@.id >= 1,
    ensures
        m >= 0,
        forall|i: int| 0 <= i < pages@.len() ==> (#[trigger] pages@[i])@.id <= m as int,
        m == 0 || exists|i: int| 0 <= i < pages@.len() && (#[trigger] pages@[i])@.id == m as int,
{
    let n = pages.len();
    let mut m: i32 = 0;
    let mut i: usize = 0;
    while i < n
        invariant
            n == pages@.len(),
            0 <= i <= n,
            m >= 0,
            forall|j: int| 0 <= j < pages@.len() ==> (#[trigger] pages@[j])@.id >= 1,
            forall|j: int| 0 <= j < i ==> (#[trigger] pages@[j])@.id <= m as int,
            m == 0 || exists|j: int| 0 <= j < i && (#[trigger] pages@[j])@.id == m as int,
        decreases n - i,
    {
        if pages[i].id > m {
            m = pages[i].id;
        }
        i = i + 1;
    }
    m
}

impl Store {
    /// Rebuilds a store from persisted rows, validating every invariant at
    /// run time: `None` exactly when the rows cannot populate a well-formed
    /// store.
    pub fn from_rows(sources: Vec<Source>, pages: Vec<Page>) -> (r: Option<Store>)
        ensures
            match r {
                Some(st) => {
                    &&& st.wf()
                    &&& rows_valid(
                        sources@.map_values(|s: Source| s@),
                        pages@.map_values(|p: Page| p@),
                    )
                    &&& st@.sources == sources@.map_values(|s: Source| s@)
                    &&& st@.pages == pages@.map_values(|p: Page| p@)
                },
                None => !rows_valid(
                    sources@.map_values(|s: Source| s@),
                    pages@.map_values(|p: Page| p@),
                ),
            },
    {
        let ns = sources.len();
        let np = pages.len();
        if ns >= (i32::MAX as usize) || np >= (i32::MAX as usize) {
            proof {
                assert(sources@.map_values(|s: Source| s@).len() == ns);
                assert(pages@.map_values(|p: Page| p@).len() == np);
            }
            return None;
        }
        let mut i: usize = 0;
        while i < ns
            invariant
                ns == sources@.len(),
                0 <= i <= ns,
                forall|j: int| 0 <= j < i ==> 1 <= (#[trigger] sources@[j])@.id <= i32::MAX - 1
                    && sources@[j]@.weight >= 0,
            decreases ns - i,
        {
            if sources[i].id < 1 || sources[i].id > i32::MAX - 1 || sources[i].weight < 0 {
                proof {
                    let ss = sources@.map_values(|s: Source| s@);
                    assert(ss[i as int] == sources@[i as int]@);
                }
                return None;
            }
            i = i + 1;
        }
        let mut i: usize = 0;
        while i < ns
            invariant
                ns == sources@.len(),
                0 <= i <= ns,
                forall|a: int, b: int| 0 <= a < b < ns && b < i ==> (
                #[trigger] sources@[a])@.id != (#[trigger] sources@[b])@.id && sources@[a]@.url
                    != sources@[b]@.url,
            decreases ns - i,
        {
            let mut j: usize = 0;
            while j < i
                invariant
                    ns == sources@.len(),
                    0 <= j <= i < ns,
                    forall|a: int, b: int| 0 <= a < b < ns && b < i ==> (
                    #[trigger] sources@[a])@.id != (#[trigger] sources@[b])@.id
                        && sources@[a]@.url != sources@[b]@.url,
                    forall|a: int| 0 <= a < j ==> (#[trigger] sources@[a])@.id
                        != sources@[i as int]@.id && sources@[a]@.url != sources@[i as int]@.url,
                decreases i - j,
            {
                if sources[j].id == sources[i].id || sources[j].url.eq(&sources[i].url) {
                    proof {
                        let ss = sources@.map_values(|s: Source| s@);
                        assert(ss[j as int] == sources@[j as int]@);
                        assert(ss[i as int] == sources@[i as int]@);
                    }
                    return None;
                }
                j = j + 1;
            }
            i = i + 1;
        }
        let mut i: usize = 0;
        while i < np
            invariant
                ns == sources@.len(),
                np == pages@.len(),
                0 <= i <= np,
                forall|j: int| 0 <= j < i ==> 1 <= (#[trigger] pages@[j])@.id <= i32::MAX - 1
                    && exists|k: int|
                    0 <= k < sources@.len() && (#[trigger] sources@[k])@.id
                        == pages@[j]@.source_id,
            decreases np - i,
        {
            if pages[i].id < 1 || pages[i].id > i32::MAX - 1 {
                proof {
                    let ps = pages@.map_values(|p: Page| p@);
                    assert(ps[i as int] == pages@[i as int]@);
                }
                return None;
            }
            let mut found = false;
            let mut k: usize = 0;
            while k < ns
                invariant
                    ns == sources@.len(),
                    np == pages@.len(),
                    0 <= i < np,
                    0 <= k <= ns,
                    found ==> exists|w: int|
                        0 <= w < sources@.len() && (#[trigger] sources@[w])@.id
                            == pages@[i as int]@.source_id,
                    !found ==> forall|w: int| 0 <= w < k ==> (#[trigger] sources@[w])@.id
                        != pages@[i as int]@.source_id,
                decreases ns - k,
            {
                if sources[k].id == pages[i].source_id {
                    found = true;
                    proof {
                        assert(sources@[k as int]@.id == pages@[i as int]@.source_id);
                    }
                }
                k = k + 1;
            }
            if !found {
                proof {
                    let ss = sources@.map_values(|s: Source| s@);
                    let ps = pages@.map_values(|p: Page| p@);
                    assert(ps[i as int] == pages@[i as int]@);
                    assert(!rows_valid(ss, ps)) by {
                        if rows_valid(ss, ps) {
                            let k = choose|k: int|
                                0 <= k < ss.len() && ss[k].id == ps[i as int].source_id;
                            assert(sources@[k]@.id == pages@[i as int]@.source_id);
                        }
                    }
                }
                return None;
            }
            i = i + 1;
        }
        let mut i: usize = 0;
        while i < np
            invariant
                np == pages@.len(),
                0 <= i <= np,
                forall|a: int, b: int| 0 <= a < b < np && b < i ==> (#[trigger] pages@[a])@.id
                    != (#[trigger] pages@[b])@.id && !(pages@[a]@.source_id
                    == pages@[b]@.source_id && pages@[a]@.url == pages@[b]@.url),
            decreases np - i,
        {
            let mut j: usize = 0;
            while j < i
                invariant
                    np == pages@.len(),
                    0 <= j <= i < np,
                    forall|a: int, b: int| 0 <= a < b < np && b < i ==> (
                    #[trigger] pages@[a])@.id != (#[trigger] pages@[b])@.id && !(
                    pages@[a]@.source_id == pages@[b]@.source_id && pages@[a]@.url
                        == pages@[b]@.url),
                    forall|a: int| 0 <= a < j ==> (#[trigger] pages@[a])@.id
                        != pages@[i as int]@.id && !(pages@[a]@.source_id
                        == pages@[i as int]@.source_id && pages@[a]@.url
                        == pages@[i as int]@.url),
                decreases i - j,
            {
                if pages[j].id == pages[i].id || (pages[j].source_id == pages[i].source_id
                    && pages[j].url.eq(&pages[i].url)) {
                    proof {
                        let ps = pages@.map_values(|p: Page| p@);
                        assert(ps[j as int] == pages@[j as int]@);
                        assert(ps[i as int] == pages@[i as int]@);
                    }
                    return None;
                }
                j = j + 1;
            }
            i = i + 1;
        }
        let max_sid = max_source_id(&sources);
        let max_pid = max_page_id(&pages);
        let next_source_id = if (max_sid as usize) < ns {
            (ns as i32) + 1
        } else {
            max_sid + 1
        };
        let next_page_id = if (max_pid as usize) < np {
            (np as i32) + 1
        } else {
            max_pid + 1
        };
        let st = Store { sources, pages, next_source_id, next_page_id };
        proof {
            assert forall|k: int| 0 <= k < st@.pages.len() implies has_source_id(
                st@,
                (#[trigger] st@.pages[k]).source_id,
            ) by {
                let w = choose|w: int|
                    0 <= w < st.sources@.len() && (#[trigger] st.sources@[w])@.id
                        == st.pages@[k]@.source_id;
                assert(st@.sources[w].id == st@.pages[k].source_id);
            }
        }
        Some(st)
    }
}


/// Whether the store can still hand out a fresh source id: the precondition
/// of registration, testable by callers.
pub fn can_add_source(st: &Store) -> (r: bool)
    ensures
        r == (st@.next_source_id < i32::MAX),
{
    st.next_source_id < i32::MAX
}

} // verus!
