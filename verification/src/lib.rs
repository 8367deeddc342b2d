pub mod crud;
pub mod feed;
pub mod http;
pub mod fetch;
pub mod select;
pub mod models;

pub use crate::select::{find_next_page, find_next_page_by_source_id, select_page,
    select_page_with_draw};

use vstd::prelude::*;

use crate::crud::{
    create_or_reset_page, create_pages, create_source, has_page_key, has_source_id,
    lemma_create_pages_frame, mark_source_synced, page_key_exists, source_by_id, source_index,
    spec_create_pages, spec_create_source, spec_upsert_page, synced_source_model, wf_model, Store,
    StoreModel, RESET_BACKDATE_SECONDS,
};
use crate::feed::{
    normalize_feed, parse_rss, rss_to_newpages, spec_item_page, spec_parse_feed, RawFeedModel,
    RssItemModel,
};
use crate::fetch::{url_host, HttpResponse, HttpResponseModel};
use crate::models::{
    clone_opt_string, view_opt_int, view_opt_str, NewPage, NewPageModel, Source, SourceModel,
    SourceType,
};
use vstd::utf8::encode_utf8;

verus! {

/// Filesystem locations of the application's database and log file, as plain
/// path strings.
pub struct AppDirectories {
    pub database: String,
    pub log: String,
}

/// A failed network retrieval, carrying the transport error's description.
#[derive(Debug)]
pub struct NetworkError {
    message: String,
}

impl NetworkError {
    /// Wraps a transport error description.
    pub fn new(message: String) -> (e: NetworkError)
        ensures
            e@ == message@,
    {
        NetworkError { message }
    }

    /// The error's description.
    pub fn message(&self) -> (m: &String)
        ensures
            m@ == self@,
    {
        &self.message
    }
}

impl View for NetworkError {
    type V = Seq<char>;

    closed spec fn view(&self) -> Seq<char> {
        self.message@
    }
}

impl Clone for NetworkError {
    fn clone(&self) -> (r: NetworkError)
        ensures
            r@ == self@,
    {
        NetworkError { message: self.message.clone() }
    }
}


/// A validator kept across a sync: the origin's new one where it supplied
/// one, the prior one otherwise — never overwritten with nothing.
pub open spec fn or_prior<T>(new_value: Option<T>, prior: Option<T>) -> Option<T> {
    match new_value {
        Some(v) => Some(v),
        None => prior,
    }
}

/// The single pseudo-item a single-page source keeps: the source's own url as
/// both link and title, undated.
pub open spec fn spec_pseudo_page(source: SourceModel) -> NewPageModel {
    NewPageModel {
        source_id: source.id,
        url: source.url,
        title: source.url,
        read: None,
        date: None,
    }
}

/// The rows one parsed feed upserts for its source, in document order.
pub open spec fn spec_feed_entries(raw: RawFeedModel, source_id: int) -> Seq<NewPageModel> {
    normalize_feed(raw).items.map_values(|it: RssItemModel| spec_item_page(it, source_id))
}

/// What persisting new cache validators does to the store.
pub open spec fn spec_mark_synced(
    m: StoreModel,
    source_id: int,
    last_modified: Option<int>,
    etag: Option<Seq<char>>,
) -> StoreModel {
    if has_source_id(m, source_id) {
        StoreModel {
            sources: m.sources.update(
                source_index(m, source_id),
                synced_source_model(source_by_id(m, source_id), last_modified, etag),
            ),
            ..m
        }
    } else {
        m
    }
}

/// The view of a fetch outcome.
pub open spec fn view_fetched(f: Result<HttpResponse, NetworkError>) -> Result<
    HttpResponseModel,
    Seq<char>,
> {
    match f {
        Ok(resp) => Ok(resp@),
        Err(e) => Err(e@),
    }
}

/// One source's synchronization pass, as a function of the store, the source
/// row, the fetch outcome, and the time. A feed-kind source whose fetch
/// failed leaves the store untouched and counts 0; one whose body is empty —
/// an unchanged resource — yields no items but still counts as synced; one
/// whose body is no feed degrades to single-page behavior for this pass and
/// still marks the source synced; a single-page source never fetches and
/// simply upserts its pseudo item. The count is the number of newly inserted
/// rows.
pub open spec fn spec_sync_source(
    m: StoreModel,
    source: SourceModel,
    fetched: Result<HttpResponseModel, Seq<char>>,
    now: int,
) -> (StoreModel, int) {
    match source.s_type {
        SourceType::Website => spec_upsert_page(m, spec_pseudo_page(source), now),
        SourceType::Rss => match fetched {
            Result::Err(_) => (m, 0),
            Result::Ok(resp) => {
                let lm = or_prior(resp.last_modified, source.last_modified);
                let et = or_prior(resp.etag, source.etag);
                match spec_parse_feed(encode_utf8(resp.body)) {
                    Some(raw) => {
                        let step = spec_create_pages(m, spec_feed_entries(raw, source.id), now);
                        (spec_mark_synced(step.0, source.id, lm, et), step.1)
                    },
                    None => {
                        if resp.body.len() == 0 {
                            // an unchanged resource: empty-item outcome, still
                            // a successful sync
                            (spec_mark_synced(m, source.id, lm, et), 0)
                        } else {
                            let step = spec_upsert_page(m, spec_pseudo_page(source), now);
                            (spec_mark_synced(step.0, source.id, lm, et), step.1)
                        }
                    },
                }
            },
        },
    }
}

/// The pseudo-item row of a source, as a value.
fn pseudo_page(source: &Source) -> (p: NewPage)
    ensures
        p@ == spec_pseudo_page(source@),
{
    NewPage {
        source_id: source.id,
        url: source.url.clone(),
        title: source.url.clone(),
        read: None,
        date: None,
    }
}

/// Synchronizes one source from an already-fetched outcome: normalize, upsert,
/// mark synced. A failed fetch is contained here: the store is left unchanged
/// and 0 is returned. Returns the number of newly stored items.
pub fn sync_source(
    st: &mut Store,
    source: &Source,
    fetched: &Result<HttpResponse, NetworkError>,
    now: i64,
) -> (count: usize)
    requires
        old(st).wf(),
        has_source_id(old(st)@, source@.id),
        now - RESET_BACKDATE_SECONDS >= i64::MIN,
    ensures
        final(st).wf(),
        final(st)@ == spec_sync_source(old(st)@, source@, view_fetched(*fetched), now as int).0,
        count as int == spec_sync_source(old(st)@, source@, view_fetched(*fetched), now as int).1,
{
    match source.s_type {
        SourceType::Website => {
            let existed = page_key_exists(st, source.id, &source.url);
            let touched = create_or_reset_page(st, pseudo_page(source), now);
            if existed {
                0
            } else {
                touched
            }
        },
        SourceType::Rss => match fetched {
            Err(_) => 0,
            Ok(resp) => {
                let last_modified = match resp.last_modified {
                    Some(t) => Some(t),
                    None => source.last_modified,
                };
                let etag = match &resp.etag {
                    Some(e) => Some(e.clone()),
                    None => clone_opt_string(&source.etag),
                };
                match parse_rss(resp.body.as_str()) {
                    Ok(feed) => {
                        let ghost raw = spec_parse_feed(encode_utf8(resp@.body)).unwrap();
                        let new_pages = rss_to_newpages(feed.items, source.id);
                        proof {
                            assert(crate::crud::new_pages_view(new_pages@) =~= spec_feed_entries(
                                raw,
                                source@.id,
                            ));
                        }
                        let count = create_pages(st, new_pages, now);
                        proof {
                            lemma_create_pages_frame(
                                old(st)@,
                                spec_feed_entries(raw, source@.id),
                                now as int,
                            );
                            let k = choose|k: int|
                                0 <= k < old(st)@.sources.len() && old(st)@.sources[k].id
                                    == source@.id;
                            assert(st@.sources[k].id == source@.id);
                        }
                        mark_source_synced(st, source, last_modified, etag);
                        proof {
                            lemma_final_sync_state(old(st)@, st@, source@, raw, view_opt_int(last_modified), view_opt_str(etag), now as int);
                        }
                        count
                    },
                    Err(_) => {
                        if resp.body.as_str().is_empty() {
                            mark_source_synced(st, source, last_modified, etag);
                            0
                        } else {
                            let existed = page_key_exists(st, source.id, &source.url);
                            let touched = create_or_reset_page(st, pseudo_page(source), now);
                            proof {
                                let k = choose|k: int|
                                    0 <= k < old(st)@.sources.len() && old(st)@.sources[k].id
                                        == source@.id;
                                assert(st@.sources[k].id == source@.id);
                            }
                            mark_source_synced(st, source, last_modified, etag);
                            if existed {
                                0
                            } else {
                                touched
                            }
                        }
                    },
                }
            },
        },
    }
}

/// After upserting a feed's entries and persisting validators, the store is
/// exactly the feed branch of `spec_sync_source`.
proof fn lemma_final_sync_state(
    m0: StoreModel,
    m2: StoreModel,
    source: SourceModel,
    raw: RawFeedModel,
    lm: Option<int>,
    et: Option<Seq<char>>,
    now: int,
)
    requires
        ({
            let m1 = spec_create_pages(m0, spec_feed_entries(raw, source.id), now).0;
            has_source_id(m1, source.id) && m2.sources == m1.sources.update(
                source_index(m1, source.id),
                synced_source_model(source_by_id(m1, source.id), lm, et),
            ) && m2.pages == m1.pages && m2.next_page_id == m1.next_page_id
                && m2.next_source_id == m1.next_source_id
        }),
    ensures
        m2 == spec_mark_synced(
            spec_create_pages(m0, spec_feed_entries(raw, source.id), now).0,
            source.id,
            lm,
            et,
        ),
{
    let m1 = spec_create_pages(m0, spec_feed_entries(raw, source.id), now).0;
    assert(m2 =~= spec_mark_synced(m1, source.id, lm, et));
}


/// A synchronization pass keeps every source row's identity, moves the page
/// counter exactly as far as it inserts rows, and never counts negatively.
pub proof fn lemma_sync_source_effects(
    m: StoreModel,
    source: SourceModel,
    fetched: Result<HttpResponseModel, Seq<char>>,
    now: int,
)
    ensures
        spec_sync_source(m, source, fetched, now).0.sources.len() == m.sources.len(),
        forall|k: int| 0 <= k < m.sources.len() ==> spec_sync_source(
            m,
            source,
            fetched,
            now,
        ).0.sources[k].id == (#[trigger] m.sources[k]).id,
        spec_sync_source(m, source, fetched, now).0.next_source_id == m.next_source_id,
        spec_sync_source(m, source, fetched, now).1 == spec_sync_source(
            m,
            source,
            fetched,
            now,
        ).0.next_page_id - m.next_page_id,
        spec_sync_source(m, source, fetched, now).1 >= 0,
{
    match source.s_type {
        SourceType::Website => {},
        SourceType::Rss => match fetched {
            Result::Err(_) => {},
            Result::Ok(resp) => {
                match spec_parse_feed(encode_utf8(resp.body)) {
                    Some(raw) => {
                        lemma_create_pages_frame(m, spec_feed_entries(raw, source.id), now);
                    },
                    None => {},
                }
            },
        },
    }
}

/// The whole sync pass folded over a source list with its fetch outcomes,
/// summing the per-source counts of newly stored items.
pub open spec fn spec_sync_sources(
    m: StoreModel,
    sources: Seq<SourceModel>,
    fetches: Seq<Result<HttpResponseModel, Seq<char>>>,
    now: int,
) -> (StoreModel, int)
    decreases sources.len(),
{
    if sources.len() == 0 {
        (m, 0)
    } else {
        let step = spec_sync_source(m, sources[0], fetches[0], now);
        let rest = spec_sync_sources(step.0, sources.drop_first(), fetches.drop_first(), now);
        (rest.0, step.1 + rest.1)
    }
}

/// The views of a source list.
pub open spec fn sources_view(v: Seq<Source>) -> Seq<SourceModel> {
    v.map_values(|s: Source| s@)
}

/// The views of a list of fetch outcomes.
pub open spec fn fetches_view(v: Seq<Result<HttpResponse, NetworkError>>) -> Seq<
    Result<HttpResponseModel, Seq<char>>,
> {
    v.map_values(|f: Result<HttpResponse, NetworkError>| view_fetched(f))
}

/// Synchronizes every source from its already-fetched outcome, in order, and
/// returns the total number of newly stored items. A source whose fetch
/// failed contributes 0 and does not disturb its siblings.
pub fn sync_sources(
    st: &mut Store,
    sources: &Vec<Source>,
    fetches: &Vec<Result<HttpResponse, NetworkError>>,
    now: i64,
) -> (total: usize)
    requires
        old(st).wf(),
        sources@.len() == fetches@.len(),
        forall|i: int| 0 <= i < sources@.len() ==> has_source_id(
            old(st)@,
            (#[trigger] sources@[i])@.id,
        ),
        now - RESET_BACKDATE_SECONDS >= i64::MIN,
    ensures
        final(st).wf(),
        final(st)@ == spec_sync_sources(
            old(st)@,
            sources_view(sources@),
            fetches_view(fetches@),
            now as int,
        ).0,
        total as int == spec_sync_sources(
            old(st)@,
            sources_view(sources@),
            fetches_view(fetches@),
            now as int,
        ).1,
{
    let ghost srcs = sources_view(sources@);
    let ghost fts = fetches_view(fetches@);
    let ghost target = spec_sync_sources(old(st)@, srcs, fts, now as int);
    let n = sources.len();
    let mut total: usize = 0;
    let mut i: usize = 0;
    proof {
        assert(srcs.skip(0) =~= srcs);
        assert(fts.skip(0) =~= fts);
    }
    while i < n
        invariant
            st.wf(),
            n == sources@.len(),
            n == fetches@.len(),
            srcs == sources_view(sources@),
            fts == fetches_view(fetches@),
            target == spec_sync_sources(old(st)@, srcs, fts, now as int),
            now - RESET_BACKDATE_SECONDS >= i64::MIN,
            0 <= i <= n,
            forall|j: int| 0 <= j < n ==> has_source_id(old(st)@, (#[trigger] sources@[j])@.id),
            1 <= old(st)@.next_page_id,
            st@.sources.len() == old(st)@.sources.len(),
            forall|k: int| 0 <= k < st@.sources.len() ==> (#[trigger] st@.sources[k]).id == old(
                st,
            )@.sources[k].id,
            total as int == st@.next_page_id - old(st)@.next_page_id,
            target.0 == spec_sync_sources(st@, srcs.skip(i as int), fts.skip(i as int), now as int).0,
            target.1 == total + spec_sync_sources(
                st@,
                srcs.skip(i as int),
                fts.skip(i as int),
                now as int,
            ).1,
        decreases n - i,
    {
        let ghost pre = st@;
        proof {
            let k = choose|k: int|
                0 <= k < old(st)@.sources.len() && old(st)@.sources[k].id == srcs[i as int].id;
            assert(st@.sources[k].id == srcs[i as int].id);
        }
        let count = sync_source(st, &sources[i], &fetches[i], now);
        proof {
            lemma_sync_source_effects(pre, srcs[i as int], fts[i as int], now as int);
            assert forall|k: int| 0 <= k < st@.sources.len() implies (
            #[trigger] st@.sources[k]).id == old(st)@.sources[k].id by {
                assert(st@.sources[k].id == pre.sources[k].id);
            }
            assert(srcs.skip(i as int)[0] == srcs[i as int]);
            assert(fts.skip(i as int)[0] == fts[i as int]);
            assert(srcs.skip(i as int).drop_first() =~= srcs.skip(i as int + 1));
            assert(fts.skip(i as int).drop_first() =~= fts.skip(i as int + 1));
        }
        proof {
            assert(total as int + count as int == st@.next_page_id - old(st)@.next_page_id);
            assert(st@.next_page_id <= i32::MAX as int);
        }
        total = total + count;
        i = i + 1;
    }
    proof {
        assert(srcs.skip(n as int) =~= Seq::<SourceModel>::empty());
        assert(fts.skip(n as int) =~= Seq::<Result<HttpResponseModel, Seq<char>>>::empty());
    }
    total
}

/// The view of a registration outcome.
pub open spec fn view_added(r: Result<Source, NetworkError>) -> Result<SourceModel, Seq<char>> {
    match r {
        Ok(s) => Ok(s@),
        Err(e) => Err(e@),
    }
}

/// Registering a source from an already-fetched outcome. A body that parses
/// as a feed registers a feed source under the feed's title and ingests its
/// entries; any other body registers a single-page source titled by the given
/// title, the url's host, or the url itself, holding one pseudo item. A
/// failed fetch registers nothing.
pub open spec fn spec_add_source(
    m: StoreModel,
    url: Seq<char>,
    title: Option<Seq<char>>,
    fetched: Result<HttpResponseModel, Seq<char>>,
    now: int,
) -> (StoreModel, Result<SourceModel, Seq<char>>) {
    match fetched {
        Result::Err(e) => (m, Result::Err(e)),
        Result::Ok(resp) => match spec_parse_feed(encode_utf8(resp.body)) {
            Some(raw) => {
                let created = spec_create_source(
                    m,
                    url,
                    SourceType::Rss,
                    normalize_feed(raw).title,
                    now,
                );
                let step = spec_create_pages(
                    created.0,
                    spec_feed_entries(raw, created.1.id),
                    now,
                );
                (
                    spec_mark_synced(
                        step.0,
                        created.1.id,
                        or_prior(resp.last_modified, created.1.last_modified),
                        or_prior(resp.etag, created.1.etag),
                    ),
                    Result::Ok(created.1),
                )
            },
            None => {
                let fallback = match title {
                    Some(t) => t,
                    None => match crate::fetch::spec_url_host(url) {
                        Some(h) => h,
                        None => url,
                    },
                };
                let created = spec_create_source(m, url, SourceType::Website, fallback, now);
                let step = spec_upsert_page(created.0, spec_pseudo_page(created.1), now);
                (step.0, Result::Ok(created.1))
            },
        },
    }
}

/// Registers a source from an already-fetched outcome and ingests what the
/// body holds, as `spec_add_source` describes.
pub fn add_source(
    st: &mut Store,
    url: &str,
    title: Option<String>,
    fetched: &Result<HttpResponse, NetworkError>,
    now: i64,
) -> (r: Result<Source, NetworkError>)
    requires
        old(st).wf(),
        old(st)@.next_source_id < i32::MAX,
        now - RESET_BACKDATE_SECONDS >= i64::MIN,
    ensures
        final(st).wf(),
        final(st)@ == spec_add_source(
            old(st)@,
            url@,
            view_opt_str(title),
            view_fetched(*fetched),
            now as int,
        ).0,
        view_added(r) == spec_add_source(
            old(st)@,
            url@,
            view_opt_str(title),
            view_fetched(*fetched),
            now as int,
        ).1,
{
    let resp = match fetched {
        Ok(resp) => resp,
        Err(e) => {
            return Err(e.clone());
        },
    };
    match parse_rss(resp.body.as_str()) {
        Ok(feed) => {
            let ghost raw = spec_parse_feed(encode_utf8(resp@.body)).unwrap();
            let ghost m0 = st@;
            let source = create_source(st, url, SourceType::Rss, feed.title, now);
            let ghost m1 = st@;
            let new_pages = rss_to_newpages(feed.items, source.id);
            proof {
                assert(crate::crud::new_pages_view(new_pages@) =~= spec_feed_entries(
                    raw,
                    source@.id,
                ));
            }
            let _count = create_pages(st, new_pages, now);
            let last_modified = match resp.last_modified {
                Some(t) => Some(t),
                None => source.last_modified,
            };
            let etag = match &resp.etag {
                Some(e) => Some(e.clone()),
                None => clone_opt_string(&source.etag),
            };
            proof {
                lemma_create_pages_frame(m1, spec_feed_entries(raw, source@.id), now as int);
                let k = choose|k: int|
                    0 <= k < m1.sources.len() && m1.sources[k].id == source@.id;
                assert(st@.sources[k].id == source@.id);
            }
            mark_source_synced(st, &source, last_modified, etag);
            proof {
                let created = spec_create_source(
                    m0,
                    url@,
                    SourceType::Rss,
                    normalize_feed(raw).title,
                    now as int,
                );
                assert(created.0 == m1 && created.1 == source@);
                let m2 = spec_create_pages(
                    m1,
                    spec_feed_entries(raw, source@.id),
                    now as int,
                ).0;
                assert(st@ =~= spec_mark_synced(
                    m2,
                    source@.id,
                    or_prior(resp@.last_modified, source@.last_modified),
                    or_prior(resp@.etag, source@.etag),
                ));
            }
            Ok(source)
        },
        Err(_) => {
            let fallback = match title {
                Some(t) => t,
                None => match url_host(url) {
                    Some(h) => h,
                    None => url.to_owned(),
                },
            };
            let source = create_source(st, url, SourceType::Website, fallback, now);
            let _touched = create_or_reset_page(st, pseudo_page(&source), now);
            Ok(source)
        },
    }
}


/// A run of failed passes over the same source, each from its own transport
/// error.
pub open spec fn spec_failed_passes(
    m: StoreModel,
    source: SourceModel,
    errs: Seq<Seq<char>>,
    now: int,
) -> StoreModel
    decreases errs.len(),
{
    if errs.len() == 0 {
        m
    } else {
        spec_failed_passes(
            spec_sync_source(m, source, Result::Err(errs[0]), now).0,
            source,
            errs.drop_first(),
            now,
        )
    }
}

/// Idempotent failure: one failed fetch of a feed source leaves the store
/// exactly as it was and stores nothing, and so does any whole sequence of
/// failed passes. The failure never escapes: `sync_source` returns normally.
pub proof fn lemma_failed_sync_idempotent(
    m: StoreModel,
    source: SourceModel,
    errs: Seq<Seq<char>>,
    now: int,
)
    requires
        source.s_type == SourceType::Rss,
    ensures
        forall|e: Seq<char>| #[trigger] spec_sync_source(m, source, Result::Err(e), now) == (
            m,
            0int,
        ),
        spec_failed_passes(m, source, errs, now) == m,
    decreases errs.len(),
{
    if errs.len() > 0 {
        lemma_failed_sync_idempotent(m, source, errs.drop_first(), now);
    }
}

/// How many unread rows a read-status listing shows: its `None` entries.
pub open spec fn spec_unread_count(statuses: Seq<Option<int>>) -> int
    decreases statuses.len(),
{
    if statuses.len() == 0 {
        0
    } else {
        spec_unread_count(statuses.drop_last()) + if statuses.last() is None {
            1int
        } else {
            0int
        }
    }
}

/// Counts the unread entries of a read-status listing.
pub fn unread_count(statuses: &Vec<Option<i64>>) -> (count: usize)
    ensures
        count as int == spec_unread_count(
            statuses@.map_values(|o: Option<i64>| view_opt_int(o)),
        ),
        count <= statuses@.len(),
{
    let ghost views = statuses@.map_values(|o: Option<i64>| view_opt_int(o));
    let n = statuses.len();
    let mut count: usize = 0;
    let mut i: usize = 0;
    proof {
        assert(views.take(0) =~= Seq::<Option<int>>::empty());
    }
    while i < n
        invariant
            n == statuses@.len(),
            views == statuses@.map_values(|o: Option<i64>| view_opt_int(o)),
            0 <= i <= n,
            count <= i,
            count as int == spec_unread_count(views.take(i as int)),
        decreases n - i,
    {
        if statuses[i].is_none() {
            count = count + 1;
        }
        proof {
            assert(views.take(i + 1).drop_last() =~= views.take(i as int));
            assert(views.take(i + 1).last() == views[i as int]);
        }
        i = i + 1;
    }
    proof {
        assert(views.take(n as int) =~= views);
    }
    count
}


/// Every row of this source carries the source's own url: what holds of a
/// source that has only ever been synced as a single page.
pub open spec fn single_page_rows_only(m: StoreModel, source: SourceModel) -> bool {
    forall|k: int|
        0 <= k < m.pages.len() && (#[trigger] m.pages[k]).source_id == source.id
            ==> m.pages[k].url == source.url
}

/// The single-page law: one sync pass of a single-page source leaves it with
/// exactly one row — the pseudo item under the source's own url — and that
/// row's read marker cleared, however often the pass is repeated.
pub proof fn lemma_single_page_sync(
    m: StoreModel,
    source: SourceModel,
    fetched: Result<HttpResponseModel, Seq<char>>,
    now: int,
)
    requires
        wf_model(m),
        source.s_type == SourceType::Website,
        single_page_rows_only(m, source),
        m.next_page_id < i32::MAX,
    ensures
        ({
            let m1 = spec_sync_source(m, source, fetched, now).0;
            &&& single_page_rows_only(m1, source)
            &&& crate::crud::has_page_key(m1, source.id, source.url)
            &&& forall|i: int, j: int|
                0 <= i < j < m1.pages.len() ==> !((#[trigger] m1.pages[i]).source_id == source.id
                    && (#[trigger] m1.pages[j]).source_id == source.id)
            &&& forall|i: int|
                0 <= i < m1.pages.len() && (#[trigger] m1.pages[i]).source_id == source.id
                    ==> m1.pages[i].read is None
        }),
{
    let p = spec_pseudo_page(source);
    let m1 = spec_sync_source(m, source, fetched, now).0;
    if crate::crud::has_page_key(m, source.id, source.url) {
        let k = crate::crud::page_key_index(m, source.id, source.url);
        assert(0 <= k < m.pages.len() && m.pages[k].source_id == source.id && m.pages[k].url
            == source.url);
        assert(m1.pages == m.pages.update(k, crate::crud::reset_page_model(m.pages[k], now)));
        assert(m1.pages[k].source_id == source.id && m1.pages[k].url == source.url);
        assert forall|i: int, j: int| 0 <= i < j < m1.pages.len() implies !((
        #[trigger] m1.pages[i]).source_id == source.id && (#[trigger] m1.pages[j]).source_id
            == source.id) by {
            if m1.pages[i].source_id == source.id && m1.pages[j].source_id == source.id {
                assert(m.pages[i].source_id == source.id && m.pages[j].source_id == source.id);
                assert(m.pages[i].url == source.url && m.pages[j].url == source.url);
            }
        }
        assert forall|i: int|
            0 <= i < m1.pages.len() && (#[trigger] m1.pages[i]).source_id == source.id implies
            m1.pages[i].read is None by {
            if i != k {
                assert(m.pages[i].source_id == source.id);
                assert(m.pages[i].url == source.url);
                assert(!(m.pages[k].source_id == m.pages[i].source_id && m.pages[k].url
                    == m.pages[i].url) || !(m.pages[i].source_id == m.pages[k].source_id
                    && m.pages[i].url == m.pages[k].url));
            }
        }
    } else {
        assert(m1.pages == m.pages.push(crate::crud::inserted_page_model(m.next_page_id, p, now)));
        assert forall|i: int|
            0 <= i < m.pages.len() implies (#[trigger] m.pages[i]).source_id != source.id by {
            if m.pages[i].source_id == source.id {
                assert(m.pages[i].url == source.url);
                assert(crate::crud::has_page_key(m, source.id, source.url));
            }
        }
        assert(m1.pages[m1.pages.len() - 1].source_id == source.id);
        assert(m1.pages[m1.pages.len() - 1].url == source.url);
        assert(crate::crud::has_page_key(m1, source.id, source.url));
    }
}


/// First half of the reactivation law: one sync of a feed body whose entries
/// carry pairwise distinct links, none of them stored yet, stores exactly one
/// row per entry and counts them all.
pub proof fn lemma_feed_sync_stores_all(
    m: StoreModel,
    source: SourceModel,
    resp: HttpResponseModel,
    now: int,
)
    requires
        wf_model(m),
        source.s_type == SourceType::Rss,
        spec_parse_feed(encode_utf8(resp.body)) is Some,
        ({
            let entries = spec_feed_entries(
                spec_parse_feed(encode_utf8(resp.body)).unwrap(),
                source.id,
            );
            &&& forall|i: int| 0 <= i < entries.len() ==> !crate::crud::has_page_key(
                m,
                source.id,
                (#[trigger] entries[i]).url,
            )
            &&& forall|i: int, j: int|
                0 <= i < j < entries.len() ==> (#[trigger] entries[i]).url != (
                #[trigger] entries[j]).url
            &&& m.next_page_id + entries.len() <= i32::MAX
        }),
    ensures
        ({
            let entries = spec_feed_entries(
                spec_parse_feed(encode_utf8(resp.body)).unwrap(),
                source.id,
            );
            &&& spec_sync_source(m, source, Result::Ok(resp), now).1 == entries.len()
            &&& spec_sync_source(m, source, Result::Ok(resp), now).0.pages.len() == m.pages.len()
                + entries.len()
        }),
{
    let raw = spec_parse_feed(encode_utf8(resp.body)).unwrap();
    let entries = spec_feed_entries(raw, source.id);
    assert(forall|i: int| 0 <= i < entries.len() ==> (#[trigger] entries[i]).source_id
        == source.id);
    crate::crud::lemma_create_pages_all_new(m, entries, now);
}

/// Second half of the reactivation law: a later sync of the same body stores
/// nothing new; every stored row the body's links match is reset — its read
/// marker cleared, whether or not it had been marked read — and every other
/// row is untouched.
pub proof fn lemma_feed_sync_reactivates(
    m: StoreModel,
    source: SourceModel,
    resp: HttpResponseModel,
    now: int,
)
    requires
        wf_model(m),
        source.s_type == SourceType::Rss,
        spec_parse_feed(encode_utf8(resp.body)) is Some,
        ({
            let entries = spec_feed_entries(
                spec_parse_feed(encode_utf8(resp.body)).unwrap(),
                source.id,
            );
            forall|i: int| 0 <= i < entries.len() ==> crate::crud::has_page_key(
                m,
                source.id,
                (#[trigger] entries[i]).url,
            )
        }),
    ensures
        spec_sync_source(m, source, Result::Ok(resp), now).1 == 0,
        spec_sync_source(m, source, Result::Ok(resp), now).0.pages.len() == m.pages.len(),
        ({
            let entries = spec_feed_entries(
                spec_parse_feed(encode_utf8(resp.body)).unwrap(),
                source.id,
            );
            let after = spec_sync_source(m, source, Result::Ok(resp), now).0;
            forall|k: int| 0 <= k < m.pages.len() ==> (#[trigger] after.pages[k]) == (
            if crate::crud::key_among(entries, m.pages[k].source_id, m.pages[k].url) {
                crate::crud::reset_page_model(m.pages[k], now)
            } else {
                m.pages[k]
            })
        }),
{
    let raw = spec_parse_feed(encode_utf8(resp.body)).unwrap();
    let entries = spec_feed_entries(raw, source.id);
    assert(forall|i: int| 0 <= i < entries.len() ==> (#[trigger] entries[i]).source_id
        == source.id);
    crate::crud::lemma_create_pages_all_existing(m, entries, now);
}


/// How many fresh rows one sync pass can at most claim from the id space.
pub open spec fn spec_sync_demand(
    source: SourceModel,
    fetched: Result<HttpResponseModel, Seq<char>>,
) -> int {
    match source.s_type {
        SourceType::Website => 1,
        SourceType::Rss => match fetched {
            Result::Err(_) => 0,
            Result::Ok(resp) => match spec_parse_feed(encode_utf8(resp.body)) {
                Some(raw) => spec_feed_entries(raw, source.id).len() as int,
                None => 1,
            },
        },
    }
}

/// Two stores offer the same dedup keys for one source.
pub open spec fn same_keys_for(m1: StoreModel, m2: StoreModel, source_id: int) -> bool {
    forall|u: Seq<char>| (#[trigger] has_page_key(m1, source_id, u)) == has_page_key(
        m2,
        source_id,
        u,
    )
}

/// What one upsert does to the key sets: nothing, except that it can add the
/// entry's own key when the id space has room.
proof fn lemma_upsert_keys(m: StoreModel, p: NewPageModel, now: int)
    ensures
        forall|sid: int, u: Seq<char>| #[trigger] has_page_key(
            spec_upsert_page(m, p, now).0,
            sid,
            u,
        ) == (has_page_key(m, sid, u) || (sid == p.source_id && u == p.url && m.next_page_id
            < i32::MAX)),
        m.next_page_id <= spec_upsert_page(m, p, now).0.next_page_id <= m.next_page_id + 1,
{
    let m1 = spec_upsert_page(m, p, now).0;
    if has_page_key(m, p.source_id, p.url) {
        let k = crate::crud::page_key_index(m, p.source_id, p.url);
        assert forall|sid: int, u: Seq<char>| #[trigger] has_page_key(m1, sid, u) == (
        has_page_key(m, sid, u) || (sid == p.source_id && u == p.url && m.next_page_id
            < i32::MAX)) by {
            if has_page_key(m1, sid, u) {
                let w = choose|w: int|
                    0 <= w < m1.pages.len() && m1.pages[w].source_id == sid && m1.pages[w].url
                        == u;
                assert(m.pages[w].source_id == sid && m.pages[w].url == u);
            }
            if has_page_key(m, sid, u) {
                let w = choose|w: int|
                    0 <= w < m.pages.len() && m.pages[w].source_id == sid && m.pages[w].url == u;
                assert(m1.pages[w].source_id == sid && m1.pages[w].url == u);
            }
            if sid == p.source_id && u == p.url {
                assert(m1.pages[k].source_id == sid && m1.pages[k].url == u);
            }
        }
    } else if m.next_page_id < i32::MAX {
        assert forall|sid: int, u: Seq<char>| #[trigger] has_page_key(m1, sid, u) == (
        has_page_key(m, sid, u) || (sid == p.source_id && u == p.url && m.next_page_id
            < i32::MAX)) by {
            if has_page_key(m1, sid, u) {
                let w = choose|w: int|
                    0 <= w < m1.pages.len() && m1.pages[w].source_id == sid && m1.pages[w].url
                        == u;
                if w < m.pages.len() {
                    assert(has_page_key(m, sid, u));
                }
            }
            if has_page_key(m, sid, u) {
                let w = choose|w: int|
                    0 <= w < m.pages.len() && m.pages[w].source_id == sid && m.pages[w].url == u;
                assert(m1.pages[w].source_id == sid && m1.pages[w].url == u);
            }
            if sid == p.source_id && u == p.url {
                assert(m1.pages[m1.pages.len() - 1].source_id == sid && m1.pages[m1.pages.len()
                    - 1].url == u);
            }
        }
    } else {
    }
}

/// Upserting entries that all belong to one source leaves every other
/// source's key set untouched.
proof fn lemma_create_pages_keys_frame(
    m: StoreModel,
    entries: Seq<NewPageModel>,
    owner: int,
    now: int,
)
    requires
        forall|i: int| 0 <= i < entries.len() ==> (#[trigger] entries[i]).source_id == owner,
    ensures
        forall|sid: int, u: Seq<char>|
            sid != owner ==> #[trigger] has_page_key(
                spec_create_pages(m, entries, now).0,
                sid,
                u,
            ) == has_page_key(m, sid, u),
    decreases entries.len(),
{
    if entries.len() > 0 {
        let step = spec_upsert_page(m, entries[0], now);
        lemma_upsert_keys(m, entries[0], now);
        lemma_create_pages_keys_frame(step.0, entries.drop_first(), owner, now);
        assert forall|sid: int, u: Seq<char>|
            sid != owner implies #[trigger] has_page_key(
                spec_create_pages(m, entries, now).0,
                sid,
                u,
            ) == has_page_key(m, sid, u) by {
            assert(spec_create_pages(m, entries, now).0 == spec_create_pages(
                step.0,
                entries.drop_first(),
                now,
            ).0);
            assert(has_page_key(spec_create_pages(step.0, entries.drop_first(), now).0, sid, u)
                == has_page_key(step.0, sid, u));
            assert(has_page_key(step.0, sid, u) == has_page_key(m, sid, u));
        }
    }
}

/// Equal page tables offer equal keys.
proof fn lemma_keys_from_pages(m1: StoreModel, m2: StoreModel)
    requires
        m1.pages == m2.pages,
    ensures
        forall|sid: int, u: Seq<char>| #[trigger] has_page_key(m1, sid, u) == has_page_key(
            m2,
            sid,
            u,
        ),
{
    assert forall|sid: int, u: Seq<char>| #[trigger] has_page_key(m1, sid, u) == has_page_key(
        m2,
        sid,
        u,
    ) by {
        if has_page_key(m1, sid, u) {
            let w = choose|w: int|
                0 <= w < m1.pages.len() && m1.pages[w].source_id == sid && m1.pages[w].url == u;
            assert(m2.pages[w].source_id == sid && m2.pages[w].url == u);
        }
        if has_page_key(m2, sid, u) {
            let w = choose|w: int|
                0 <= w < m2.pages.len() && m2.pages[w].source_id == sid && m2.pages[w].url == u;
            assert(m1.pages[w].source_id == sid && m1.pages[w].url == u);
        }
    }
}

/// One source's sync pass leaves every other source's key set untouched and
/// moves the page counter by at most its demand.
proof fn lemma_sync_keys_frame(
    m: StoreModel,
    source: SourceModel,
    fetched: Result<HttpResponseModel, Seq<char>>,
    now: int,
    other: int,
)
    requires
        other != source.id,
    ensures
        same_keys_for(spec_sync_source(m, source, fetched, now).0, m, other),
        m.next_page_id <= spec_sync_source(m, source, fetched, now).0.next_page_id
            <= m.next_page_id + spec_sync_demand(source, fetched),
{
    let p = spec_pseudo_page(source);
    match source.s_type {
        SourceType::Website => {
            lemma_upsert_keys(m, p, now);
        },
        SourceType::Rss => match fetched {
            Result::Err(_) => {},
            Result::Ok(resp) => {
                let lm = or_prior(resp.last_modified, source.last_modified);
                let et = or_prior(resp.etag, source.etag);
                match spec_parse_feed(encode_utf8(resp.body)) {
                    Some(raw) => {
                        let entries = spec_feed_entries(raw, source.id);
                        let step = spec_create_pages(m, entries, now);
                        lemma_create_pages_keys_frame(m, entries, source.id, now);
                        lemma_create_pages_frame(m, entries, now);
                        lemma_keys_from_pages(
                            spec_mark_synced(step.0, source.id, lm, et),
                            step.0,
                        );
                    },
                    None => {
                        if resp.body.len() == 0 {
                            lemma_keys_from_pages(spec_mark_synced(m, source.id, lm, et), m);
                        } else {
                            let step = spec_upsert_page(m, p, now);
                            lemma_upsert_keys(m, p, now);
                            lemma_keys_from_pages(
                                spec_mark_synced(step.0, source.id, lm, et),
                                step.0,
                            );
                        }
                    },
                }
            },
        },
    }
}

/// Upserting the same entries, all of one source, into two stores that offer
/// that source the same keys and have room inserts the same number of rows.
proof fn lemma_create_pages_count_same(
    m1: StoreModel,
    m2: StoreModel,
    entries: Seq<NewPageModel>,
    owner: int,
    now: int,
)
    requires
        forall|i: int| 0 <= i < entries.len() ==> (#[trigger] entries[i]).source_id == owner,
        same_keys_for(m1, m2, owner),
        m1.next_page_id + entries.len() <= i32::MAX,
        m2.next_page_id + entries.len() <= i32::MAX,
    ensures
        spec_create_pages(m1, entries, now).1 == spec_create_pages(m2, entries, now).1,
    decreases entries.len(),
{
    if entries.len() > 0 {
        let e = entries[0];
        assert(has_page_key(m1, owner, e.url) == has_page_key(m2, owner, e.url));
        let step1 = spec_upsert_page(m1, e, now);
        let step2 = spec_upsert_page(m2, e, now);
        lemma_upsert_keys(m1, e, now);
        lemma_upsert_keys(m2, e, now);
        assert(step1.1 == step2.1);
        assert forall|u: Seq<char>| (#[trigger] has_page_key(step1.0, owner, u))
            == has_page_key(step2.0, owner, u) by {
            assert(has_page_key(m1, owner, u) == has_page_key(m2, owner, u));
        }
        lemma_create_pages_count_same(step1.0, step2.0, entries.drop_first(), owner, now);
    }
}

/// Syncing one source against two stores that offer it the same keys and
/// have room stores the same number of new items.
proof fn lemma_sync_count_same(
    m1: StoreModel,
    m2: StoreModel,
    source: SourceModel,
    fetched: Result<HttpResponseModel, Seq<char>>,
    now: int,
)
    requires
        same_keys_for(m1, m2, source.id),
        m1.next_page_id + spec_sync_demand(source, fetched) <= i32::MAX,
        m2.next_page_id + spec_sync_demand(source, fetched) <= i32::MAX,
    ensures
        spec_sync_source(m1, source, fetched, now).1 == spec_sync_source(
            m2,
            source,
            fetched,
            now,
        ).1,
{
    let p = spec_pseudo_page(source);
    match source.s_type {
        SourceType::Website => {
            assert(has_page_key(m1, source.id, p.url) == has_page_key(m2, source.id, p.url));
        },
        SourceType::Rss => match fetched {
            Result::Err(_) => {},
            Result::Ok(resp) => {
                match spec_parse_feed(encode_utf8(resp.body)) {
                    Some(raw) => {
                        let entries = spec_feed_entries(raw, source.id);
                        assert(forall|i: int| 0 <= i < entries.len() ==> (
                        #[trigger] entries[i]).source_id == source.id);
                        lemma_create_pages_count_same(m1, m2, entries, source.id, now);
                    },
                    None => {
                        assert(has_page_key(m1, source.id, p.url) == has_page_key(
                            m2,
                            source.id,
                            p.url,
                        ));
                    },
                }
            },
        },
    }
}


/// One sync pass moves the page counter forward by at most its demand.
proof fn lemma_sync_next_bound(
    m: StoreModel,
    source: SourceModel,
    fetched: Result<HttpResponseModel, Seq<char>>,
    now: int,
)
    ensures
        m.next_page_id <= spec_sync_source(m, source, fetched, now).0.next_page_id
            <= m.next_page_id + spec_sync_demand(source, fetched),
{
    let p = spec_pseudo_page(source);
    match source.s_type {
        SourceType::Website => {
            lemma_upsert_keys(m, p, now);
        },
        SourceType::Rss => match fetched {
            Result::Err(_) => {},
            Result::Ok(resp) => {
                match spec_parse_feed(encode_utf8(resp.body)) {
                    Some(raw) => {
                        lemma_create_pages_frame(m, spec_feed_entries(raw, source.id), now);
                    },
                    None => {
                        if resp.body.len() == 0 {
                        } else {
                            lemma_upsert_keys(m, p, now);
                        }
                    },
                }
            },
        },
    }
}

/// The per-source sync results computed in isolation on one store, summed.
pub open spec fn spec_isolated_counts(
    m: StoreModel,
    sources: Seq<SourceModel>,
    fetches: Seq<Result<HttpResponseModel, Seq<char>>>,
    now: int,
) -> int
    decreases sources.len(),
{
    if sources.len() == 0 {
        0
    } else {
        spec_sync_source(m, sources[0], fetches[0], now).1 + spec_isolated_counts(
            m,
            sources.drop_first(),
            fetches.drop_first(),
            now,
        )
    }
}

/// The summed demands of a whole pass.
pub open spec fn spec_total_demand(
    sources: Seq<SourceModel>,
    fetches: Seq<Result<HttpResponseModel, Seq<char>>>,
) -> int
    decreases sources.len(),
{
    if sources.len() == 0 {
        0
    } else {
        spec_sync_demand(sources[0], fetches[0]) + spec_total_demand(
            sources.drop_first(),
            fetches.drop_first(),
        )
    }
}

/// Demands never go negative.
proof fn lemma_total_demand_nonneg(
    sources: Seq<SourceModel>,
    fetches: Seq<Result<HttpResponseModel, Seq<char>>>,
)
    requires
        sources.len() <= fetches.len(),
    ensures
        spec_total_demand(sources, fetches) >= 0,
    decreases sources.len(),
{
    if sources.len() > 0 {
        lemma_total_demand_nonneg(sources.drop_first(), fetches.drop_first());
    }
}

/// Two stores that agree on every source's keys and both have room yield the
/// same isolated counts.
proof fn lemma_isolated_counts_same(
    m1: StoreModel,
    m2: StoreModel,
    sources: Seq<SourceModel>,
    fetches: Seq<Result<HttpResponseModel, Seq<char>>>,
    now: int,
)
    requires
        sources.len() == fetches.len(),
        forall|i: int| 0 <= i < sources.len() ==> same_keys_for(
            m1,
            m2,
            (#[trigger] sources[i]).id,
        ),
        m1.next_page_id + spec_total_demand(sources, fetches) <= i32::MAX,
        m2.next_page_id + spec_total_demand(sources, fetches) <= i32::MAX,
    ensures
        spec_isolated_counts(m1, sources, fetches, now) == spec_isolated_counts(
            m2,
            sources,
            fetches,
            now,
        ),
    decreases sources.len(),
{
    if sources.len() > 0 {
        lemma_total_demand_nonneg(sources.drop_first(), fetches.drop_first());
        lemma_sync_count_same(m1, m2, sources[0], fetches[0], now);
        assert forall|i: int| 0 <= i < sources.drop_first().len() implies same_keys_for(
            m1,
            m2,
            (#[trigger] sources.drop_first()[i]).id,
        ) by {
            assert(sources.drop_first()[i] == sources[i + 1]);
        }
        lemma_isolated_counts_same(
            m1,
            m2,
            sources.drop_first(),
            fetches.drop_first(),
            now,
        );
    }
}

/// The fan-out law: syncing sources with pairwise distinct identities in
/// sequence stores exactly as many new items as the sum of each source's
/// sync computed in isolation on the initial store. The fan-out loses no
/// item and double-counts none, whatever each fetch returned.
pub proof fn lemma_sync_sources_independent(
    m: StoreModel,
    sources: Seq<SourceModel>,
    fetches: Seq<Result<HttpResponseModel, Seq<char>>>,
    now: int,
)
    requires
        sources.len() == fetches.len(),
        forall|i: int, j: int| 0 <= i < j < sources.len() ==> (#[trigger] sources[i]).id != (
        #[trigger] sources[j]).id,
        m.next_page_id + spec_total_demand(sources, fetches) <= i32::MAX,
    ensures
        spec_sync_sources(m, sources, fetches, now).1 == spec_isolated_counts(
            m,
            sources,
            fetches,
            now,
        ),
    decreases sources.len(),
{
    if sources.len() > 0 {
        let step = spec_sync_source(m, sources[0], fetches[0], now);
        let m1 = step.0;
        let rest = sources.drop_first();
        let restf = fetches.drop_first();
        lemma_total_demand_nonneg(rest, restf);
        assert forall|i: int| 0 <= i < rest.len() implies same_keys_for(
            m1,
            m,
            (#[trigger] rest[i]).id,
        ) by {
            assert(rest[i] == sources[i + 1]);
            assert(sources[0].id != sources[i + 1].id);
            lemma_sync_keys_frame(m, sources[0], fetches[0], now, rest[i].id);
        }
        lemma_sync_next_bound(m, sources[0], fetches[0], now);
        assert forall|i: int, j: int| 0 <= i < j < rest.len() implies (#[trigger] rest[i]).id
            != (#[trigger] rest[j]).id by {
            assert(rest[i] == sources[i + 1] && rest[j] == sources[j + 1]);
        }
        lemma_sync_sources_independent(m1, rest, restf, now);
        lemma_isolated_counts_same(m1, m, rest, restf, now);
    }
}

} // verus!
