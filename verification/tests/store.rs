use mwr::crud::{
    create_or_reset_page, create_pages, create_source, delete_source, get_page_by_id, get_pages,
    get_source_by_id, get_source_by_url, get_sources, get_unread_pages_by_source, mark_page_read,
    mark_page_unread, mark_source_read, mark_source_synced, pages_with_source_weight,
    read_status_for_source, set_source_weight, Store, RESET_BACKDATE_SECONDS,
};
use mwr::models::{NewPage, SourceType};
use mwr::unread_count;

fn entry(source_id: i32, url: &str, date: i64) -> NewPage {
    NewPage {
        source_id,
        url: url.to_string(),
        title: url.to_string(),
        read: None,
        date: Some(date),
    }
}

#[test]
fn registration_is_idempotent_per_url() {
    let mut st = Store::new();
    let a = create_source(&mut st, "https://a.example", SourceType::Rss, "A".to_string(), 1);
    let b = create_source(&mut st, "https://a.example", SourceType::Rss, "B".to_string(), 2);
    assert_eq!(a.id, b.id);
    assert_eq!(b.title, "A");
    assert_eq!(get_sources(&st).len(), 1);
}

#[test]
fn new_sources_get_default_weight() {
    let mut st = Store::new();
    let a = create_source(&mut st, "https://a.example", SourceType::Rss, "A".to_string(), 1);
    assert_eq!(a.weight, 10);
    assert!(a.last_modified.is_none());
    assert!(a.etag.is_none());
}

#[test]
fn upsert_skips_duplicate_urls() {
    let mut st = Store::new();
    let s = create_source(&mut st, "https://a.example", SourceType::Rss, "A".to_string(), 1);
    let first = create_pages(
        &mut st,
        vec![entry(s.id, "https://a.example/1", 5), entry(s.id, "https://a.example/2", 6)],
        10,
    );
    assert_eq!(first, 2);
    let second = create_pages(
        &mut st,
        vec![entry(s.id, "https://a.example/1", 5), entry(s.id, "https://a.example/3", 7)],
        20,
    );
    assert_eq!(second, 1);
    assert_eq!(get_pages(&st, false).len(), 3);
}

#[test]
fn upsert_reactivates_read_duplicates() {
    let mut st = Store::new();
    let s = create_source(&mut st, "https://a.example", SourceType::Rss, "A".to_string(), 1);
    create_pages(&mut st, vec![entry(s.id, "https://a.example/1", 5)], 10);
    let page = get_page_by_id(&st, 1).unwrap();
    mark_page_read(&mut st, &page, 50).unwrap();
    assert_eq!(get_pages(&st, true).len(), 0);
    let inserted = create_pages(&mut st, vec![entry(s.id, "https://a.example/1", 5)], 100);
    assert_eq!(inserted, 0);
    let unread = get_pages(&st, true);
    assert_eq!(unread.len(), 1);
    assert_eq!(unread[0].date, 100 - RESET_BACKDATE_SECONDS);
}

#[test]
fn single_page_resets_instead_of_duplicating() {
    let mut st = Store::new();
    let s = create_source(&mut st, "https://a.example", SourceType::Website, "A".to_string(), 1);
    let p = entry(s.id, "https://a.example", 5);
    create_or_reset_page(&mut st, p.clone(), 10);
    assert_eq!(get_pages(&st, false).len(), 1);
    let page = get_page_by_id(&st, 1).unwrap();
    mark_page_read(&mut st, &page, 50).unwrap();
    create_or_reset_page(&mut st, p.clone(), 100);
    let all = get_pages(&st, false);
    assert_eq!(all.len(), 1);
    assert!(all[0].read.is_none());
    assert_eq!(all[0].date, 100 - RESET_BACKDATE_SECONDS);
}

#[test]
fn undated_entries_default_to_registration_time() {
    let mut st = Store::new();
    let s = create_source(&mut st, "https://a.example", SourceType::Rss, "A".to_string(), 1);
    let mut p = entry(s.id, "https://a.example/1", 0);
    p.date = None;
    create_pages(&mut st, vec![p], 777);
    assert_eq!(get_page_by_id(&st, 1).unwrap().date, 777);
    assert_eq!(get_page_by_id(&st, 1).unwrap().added, 777);
}

#[test]
fn weight_never_drops_below_zero() {
    let mut st = Store::new();
    let s = create_source(&mut st, "https://a.example", SourceType::Rss, "A".to_string(), 1);
    assert_eq!(s.weight, 10);
    for _ in 0..25 {
        let (w, url) = set_source_weight(&mut st, s.id, -1).unwrap();
        assert!(w >= 0);
        assert_eq!(url, "https://a.example");
    }
    assert_eq!(get_source_by_id(&st, s.id).unwrap().weight, 0);
    let (w, _) = set_source_weight(&mut st, s.id, 3).unwrap();
    assert_eq!(w, 3);
}

#[test]
fn weight_adjustment_of_missing_source_is_refused() {
    let mut st = Store::new();
    assert!(set_source_weight(&mut st, 42, 1).is_none());
}

#[test]
fn delete_cascades_to_pages() {
    let mut st = Store::new();
    let a = create_source(&mut st, "https://a.example", SourceType::Rss, "A".to_string(), 1);
    let b = create_source(&mut st, "https://b.example", SourceType::Rss, "B".to_string(), 2);
    create_pages(
        &mut st,
        vec![entry(a.id, "https://a.example/1", 5), entry(b.id, "https://b.example/1", 6)],
        10,
    );
    let url = delete_source(&mut st, a.id).unwrap();
    assert_eq!(url, "https://a.example");
    let pages = get_pages(&st, false);
    assert_eq!(pages.len(), 1);
    assert_eq!(pages[0].source_id, b.id);
    assert!(get_source_by_url(&st, "https://a.example").is_none());
}

#[test]
fn delete_of_missing_source_is_an_error() {
    let mut st = Store::new();
    assert_eq!(delete_source(&mut st, 9).unwrap_err(), "Source not found");
}

#[test]
fn read_markers_round_trip() {
    let mut st = Store::new();
    let s = create_source(&mut st, "https://a.example", SourceType::Rss, "A".to_string(), 1);
    create_pages(
        &mut st,
        vec![entry(s.id, "https://a.example/1", 5), entry(s.id, "https://a.example/2", 6)],
        10,
    );
    let page = get_page_by_id(&st, 1).unwrap();
    let read = mark_page_read(&mut st, &page, 99).unwrap();
    assert_eq!(read.read, Some(99));
    assert_eq!(get_unread_pages_by_source(&st, s.id).len(), 1);
    let back = mark_page_unread(&mut st, &read).unwrap();
    assert!(back.read.is_none());
    assert_eq!(get_unread_pages_by_source(&st, s.id).len(), 2);
    let marked = mark_source_read(&mut st, s.id, 120);
    assert_eq!(marked.len(), 2);
    assert_eq!(get_unread_pages_by_source(&st, s.id).len(), 0);
}

#[test]
fn read_status_counts_unread_rows() {
    let mut st = Store::new();
    let s = create_source(&mut st, "https://a.example", SourceType::Rss, "A".to_string(), 1);
    create_pages(
        &mut st,
        vec![entry(s.id, "https://a.example/1", 5), entry(s.id, "https://a.example/2", 6)],
        10,
    );
    let page = get_page_by_id(&st, 1).unwrap();
    mark_page_read(&mut st, &page, 99).unwrap();
    let statuses = read_status_for_source(&st, s.id);
    assert_eq!(statuses.len(), 2);
    assert_eq!(unread_count(&statuses), 1);
}

#[test]
fn validators_are_persisted_by_mark_synced() {
    let mut st = Store::new();
    let s = create_source(&mut st, "https://a.example", SourceType::Rss, "A".to_string(), 1);
    let updated =
        mark_source_synced(&mut st, &s, Some(123), Some("\"tag\"".to_string())).unwrap();
    assert_eq!(updated.last_modified, Some(123));
    assert_eq!(updated.etag.as_deref(), Some("\"tag\""));
    let stored = get_source_by_id(&st, s.id).unwrap();
    assert_eq!(stored.last_modified, Some(123));
}

#[test]
fn sources_are_listed_newest_first() {
    let mut st = Store::new();
    create_source(&mut st, "https://a.example", SourceType::Rss, "A".to_string(), 10);
    create_source(&mut st, "https://b.example", SourceType::Rss, "B".to_string(), 30);
    create_source(&mut st, "https://c.example", SourceType::Rss, "C".to_string(), 20);
    let urls: Vec<String> = get_sources(&st).into_iter().map(|s| s.url).collect();
    assert_eq!(urls, vec!["https://b.example", "https://c.example", "https://a.example"]);
}

#[test]
fn candidates_are_ordered_by_date_ascending() {
    let mut st = Store::new();
    let a = create_source(&mut st, "https://a.example", SourceType::Rss, "A".to_string(), 1);
    let b = create_source(&mut st, "https://b.example", SourceType::Rss, "B".to_string(), 2);
    set_source_weight(&mut st, b.id, -3).unwrap();
    create_pages(
        &mut st,
        vec![
            entry(a.id, "https://a.example/new", 300),
            entry(b.id, "https://b.example/old", 100),
            entry(a.id, "https://a.example/mid", 200),
        ],
        10,
    );
    let cands = pages_with_source_weight(&st);
    // oldest first; weights come from the owning source (10, and 10-3=7)
    assert_eq!(cands, vec![(2, 7), (3, 10), (1, 10)]);
}

#[test]
fn stores_round_trip_through_their_rows() {
    let mut st = Store::new();
    let a = create_source(&mut st, "https://a.example", SourceType::Rss, "A".to_string(), 1);
    create_pages(
        &mut st,
        vec![entry(a.id, "https://a.example/1", 5), entry(a.id, "https://a.example/2", 6)],
        10,
    );
    let page = get_page_by_id(&st, 1).unwrap();
    mark_page_read(&mut st, &page, 99).unwrap();

    let rebuilt = Store::from_rows(get_sources(&st), get_pages(&st, false)).unwrap();
    assert_eq!(get_sources(&rebuilt).len(), 1);
    let pages = get_pages(&rebuilt, false);
    assert_eq!(pages.len(), 2);
    assert_eq!(get_page_by_id(&rebuilt, 1).unwrap().read, Some(99));
    // fresh ids are handed out above the rebuilt rows
    let b = create_source(&mut Store::from_rows(get_sources(&st), get_pages(&st, false)).unwrap(),
        "https://b.example", SourceType::Rss, "B".to_string(), 2);
    assert!(b.id > a.id);
}

#[test]
fn invalid_rows_are_rejected() {
    let mut st = Store::new();
    let a = create_source(&mut st, "https://a.example", SourceType::Rss, "A".to_string(), 1);
    create_pages(&mut st, vec![entry(a.id, "https://a.example/1", 5)], 10);
    let sources = get_sources(&st);
    let pages = get_pages(&st, false);

    // a duplicated source row
    let mut dup = sources.clone();
    dup.push(sources[0].clone());
    assert!(Store::from_rows(dup, pages.clone()).is_none());

    // a page owned by nobody
    let mut orphan = pages.clone();
    orphan[0].source_id = 999;
    assert!(Store::from_rows(sources.clone(), orphan).is_none());

    // a weight below the floor
    let mut negative = sources.clone();
    negative[0].weight = -1;
    assert!(Store::from_rows(negative, pages.clone()).is_none());
}
