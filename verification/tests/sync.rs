use mwr::crud::{
    create_source, get_page_by_id, get_pages, get_source_by_id, get_source_by_url, get_sources,
    mark_page_read, Store,
};
use mwr::fetch::HttpResponse;
use mwr::models::SourceType;
use mwr::{add_source, sync_source, sync_sources, NetworkError};

const FEED_A: &str = "<?xml version=\"1.0\"?>\n<rss version=\"2.0\"><channel>\
<title>Feed A</title><link>https://a.example</link><description>d</description>\
<item><title>A1</title><link>https://a.example/1</link></item>\
<item><title>A2</title><link>https://a.example/2</link></item>\
</channel></rss>";

const FEED_B: &str = "<?xml version=\"1.0\"?>\n<rss version=\"2.0\"><channel>\
<title>Feed B</title><link>https://b.example</link><description>d</description>\
<item><title>B1</title><link>https://b.example/1</link></item>\
</channel></rss>";

fn ok_response(body: &str) -> Result<HttpResponse, NetworkError> {
    Ok(HttpResponse {
        body: body.to_string(),
        last_modified: Some(1704067200),
        etag: Some("\"v1\"".to_string()),
    })
}

fn failed() -> Result<HttpResponse, NetworkError> {
    Err(NetworkError::new("connection refused".to_string()))
}

#[test]
fn feed_sync_stores_every_entry_once() {
    let mut st = Store::new();
    let s = create_source(&mut st, "https://a.example", SourceType::Rss, "A".to_string(), 1);
    let first = sync_source(&mut st, &s, &ok_response(FEED_A), 10);
    assert_eq!(first, 2);
    assert_eq!(get_pages(&st, false).len(), 2);
    // the new validators are persisted after the upsert
    let synced = get_source_by_id(&st, s.id).unwrap();
    assert_eq!(synced.last_modified, Some(1704067200));
    assert_eq!(synced.etag.as_deref(), Some("\"v1\""));

    let second = sync_source(&mut st, &s, &ok_response(FEED_A), 20);
    assert_eq!(second, 0);
    assert_eq!(get_pages(&st, false).len(), 2);
}

#[test]
fn resyncing_clears_read_markers() {
    let mut st = Store::new();
    let s = create_source(&mut st, "https://a.example", SourceType::Rss, "A".to_string(), 1);
    sync_source(&mut st, &s, &ok_response(FEED_A), 10);
    let page = get_page_by_id(&st, 1).unwrap();
    mark_page_read(&mut st, &page, 50).unwrap();
    assert_eq!(get_pages(&st, true).len(), 1);
    let inserted = sync_source(&mut st, &s, &ok_response(FEED_A), 100);
    assert_eq!(inserted, 0);
    assert_eq!(get_pages(&st, true).len(), 2);
}

#[test]
fn failed_fetches_leave_the_store_unchanged() {
    let mut st = Store::new();
    let s = create_source(&mut st, "https://a.example", SourceType::Rss, "A".to_string(), 1);
    sync_source(&mut st, &s, &ok_response(FEED_A), 10);
    let before = get_pages(&st, false).len();
    for pass in 0..5 {
        let count = sync_source(&mut st, &s, &failed(), 20 + pass);
        assert_eq!(count, 0);
        assert_eq!(get_pages(&st, false).len(), before);
    }
    // a failed pass does not touch the validators either
    let after = get_source_by_id(&st, s.id).unwrap();
    assert_eq!(after.last_modified, Some(1704067200));
}

#[test]
fn unparseable_bodies_degrade_to_single_page() {
    let mut st = Store::new();
    let s = create_source(&mut st, "https://a.example", SourceType::Rss, "A".to_string(), 1);
    let resp = Ok(HttpResponse {
        body: "<html>not a feed</html>".to_string(),
        last_modified: None,
        etag: Some("\"x\"".to_string()),
    });
    let count = sync_source(&mut st, &s, &resp, 10);
    assert_eq!(count, 1);
    let pages = get_pages(&st, false);
    assert_eq!(pages.len(), 1);
    assert_eq!(pages[0].url, "https://a.example");
    // "no parseable feed" is still a successful sync: validators are written
    let synced = get_source_by_id(&st, s.id).unwrap();
    assert_eq!(synced.etag.as_deref(), Some("\"x\""));
    // the declared kind is not permanently changed by the fallback
    assert_eq!(synced.s_type, SourceType::Rss);

    let again = sync_source(&mut st, &s, &resp, 20);
    assert_eq!(again, 0);
    assert_eq!(get_pages(&st, false).len(), 1);
}

#[test]
fn website_sources_keep_one_unread_pseudo_item() {
    let mut st = Store::new();
    let s = create_source(&mut st, "https://a.example", SourceType::Website, "A".to_string(), 1);
    let first = sync_source(&mut st, &s, &failed(), 10);
    assert_eq!(first, 1);
    let page = get_page_by_id(&st, 1).unwrap();
    mark_page_read(&mut st, &page, 50).unwrap();
    let second = sync_source(&mut st, &s, &failed(), 100);
    assert_eq!(second, 0);
    let pages = get_pages(&st, false);
    assert_eq!(pages.len(), 1);
    assert!(pages[0].read.is_none());
}

#[test]
fn fan_out_totals_match_isolated_syncs() {
    // two independent sources synced together...
    let mut st = Store::new();
    let a = create_source(&mut st, "https://a.example", SourceType::Rss, "A".to_string(), 1);
    let b = create_source(&mut st, "https://b.example", SourceType::Rss, "B".to_string(), 2);
    let sources = vec![a.clone(), b.clone()];
    let fetches = vec![ok_response(FEED_A), ok_response(FEED_B)];
    let total = sync_sources(&mut st, &sources, &fetches, 10);

    // ...store exactly as much as each alone on its own fresh store
    let mut alone_a = Store::new();
    let a2 = create_source(&mut alone_a, "https://a.example", SourceType::Rss, "A".to_string(), 1);
    let count_a = sync_source(&mut alone_a, &a2, &ok_response(FEED_A), 10);
    let mut alone_b = Store::new();
    let b2 = create_source(&mut alone_b, "https://b.example", SourceType::Rss, "B".to_string(), 1);
    let count_b = sync_source(&mut alone_b, &b2, &ok_response(FEED_B), 10);

    assert_eq!(total, count_a + count_b);
    assert_eq!(total, 3);
}

#[test]
fn failing_sources_do_not_disturb_siblings() {
    let mut st = Store::new();
    let a = create_source(&mut st, "https://a.example", SourceType::Rss, "A".to_string(), 1);
    let b = create_source(&mut st, "https://b.example", SourceType::Rss, "B".to_string(), 2);
    let total = sync_sources(
        &mut st,
        &vec![a.clone(), b.clone()],
        &vec![failed(), ok_response(FEED_B)],
        10,
    );
    assert_eq!(total, 1);
    let pages = get_pages(&st, false);
    assert_eq!(pages.len(), 1);
    assert_eq!(pages[0].source_id, b.id);
}

#[test]
fn empty_source_lists_sync_to_zero() {
    let mut st = Store::new();
    assert_eq!(sync_sources(&mut st, &vec![], &vec![], 10), 0);
}

#[test]
fn adding_a_feed_source_ingests_it() {
    let mut st = Store::new();
    let added = add_source(&mut st, "https://a.example", None, &ok_response(FEED_A), 10);
    let source = added.ok().unwrap();
    assert_eq!(source.s_type, SourceType::Rss);
    assert_eq!(source.title, "Feed A");
    assert_eq!(get_pages(&st, false).len(), 2);
    let synced = get_source_by_url(&st, "https://a.example").unwrap();
    assert_eq!(synced.last_modified, Some(1704067200));
}

#[test]
fn adding_a_plain_page_falls_back_to_its_host() {
    let mut st = Store::new();
    let resp = Ok(HttpResponse {
        body: "<html>just a page</html>".to_string(),
        last_modified: None,
        etag: None,
    });
    let source = add_source(&mut st, "https://blog.example/post", None, &resp, 10).ok().unwrap();
    assert_eq!(source.s_type, SourceType::Website);
    assert_eq!(source.title, "blog.example");
    let pages = get_pages(&st, false);
    assert_eq!(pages.len(), 1);
    assert_eq!(pages[0].url, "https://blog.example/post");

    // an explicit title wins over the host
    let mut st2 = Store::new();
    let resp2 = Ok(HttpResponse {
        body: "<html>just a page</html>".to_string(),
        last_modified: None,
        etag: None,
    });
    let named = add_source(&mut st2, "https://blog.example/post", Some("My Blog".to_string()), &resp2, 10)
        .ok()
        .unwrap();
    assert_eq!(named.title, "My Blog");
}

#[test]
fn adding_an_unreachable_source_fails() {
    let mut st = Store::new();
    let err = add_source(&mut st, "https://a.example", None, &failed(), 10).err().unwrap();
    assert_eq!(err.message(), "connection refused");
    assert_eq!(get_sources(&st).len(), 0);
}

#[test]
fn unchanged_resources_yield_no_items() {
    // a not-modified retrieval hands back an empty body: no items appear,
    // no pseudo item is created, and the sync still counts as successful
    let mut st = Store::new();
    let s = create_source(&mut st, "https://a.example", SourceType::Rss, "A".to_string(), 1);
    sync_source(&mut st, &s, &ok_response(FEED_A), 10);
    let resp = Ok(HttpResponse {
        body: String::new(),
        last_modified: None,
        etag: Some("\"v2\"".to_string()),
    });
    let current = get_source_by_id(&st, s.id).unwrap();
    let count = sync_source(&mut st, &current, &resp, 20);
    assert_eq!(count, 0);
    assert_eq!(get_pages(&st, false).len(), 2);
    let synced = get_source_by_id(&st, s.id).unwrap();
    assert_eq!(synced.etag.as_deref(), Some("\"v2\""));
    // the prior last-modified is preserved, not overwritten with nothing
    assert_eq!(synced.last_modified, Some(1704067200));
}
