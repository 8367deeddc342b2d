use mwr::feed::{parse_rss, rss_to_newpages};
use mwr::fetch::{extract_validators, format_rfc2822, parse_rfc2822, request_headers, url_host};
use mwr::http::{
    build_redirect_response, serialize_response_to_bytes, wants_reload, write_body,
    write_headers, write_status_line, Response,
};

const RSS_BODY: &str = "<?xml version=\"1.0\"?>\n<rss version=\"2.0\"><channel>\
<title>Test Feed</title><link>https://a.example</link><description>d</description>\
<item><title>First</title><link>https://a.example/1</link>\
<pubDate>Mon, 01 Jan 2024 00:00:00 GMT</pubDate></item>\
<item><link>https://a.example/2</link></item>\
<item><title>Third</title></item>\
</channel></rss>";

#[test]
fn rss_bodies_are_normalized() {
    let feed = parse_rss(RSS_BODY).ok().unwrap();
    assert_eq!(feed.title, "Test Feed");
    assert_eq!(feed.items.len(), 3);
    assert_eq!(feed.items[0].link, "https://a.example/1");
    assert_eq!(feed.items[0].title, "First");
    assert_eq!(feed.items[0].date, Some(1704067200));
    // an entry without a title gets the default
    assert_eq!(feed.items[1].title, "Untitled");
    assert!(feed.items[1].date.is_none());
    // an entry without a link gets the empty string
    assert_eq!(feed.items[2].link, "");
    assert_eq!(feed.items[2].title, "Third");
}

#[test]
fn non_feed_bodies_are_reported_as_not_a_feed() {
    assert!(parse_rss("this is just text, no feed at all").is_err());
    assert!(parse_rss("<html><body>hi</body></html>").is_err());
}

#[test]
fn normalized_items_become_rows_in_order() {
    let feed = parse_rss(RSS_BODY).ok().unwrap();
    let rows = rss_to_newpages(feed.items, 7);
    assert_eq!(rows.len(), 3);
    assert_eq!(rows[0].source_id, 7);
    assert_eq!(rows[0].url, "https://a.example/1");
    assert_eq!(rows[0].title, "First");
    assert_eq!(rows[0].date, Some(1704067200));
    assert!(rows[0].read.is_none());
    assert_eq!(rows[2].url, "");
}

#[test]
fn rfc2822_dates_round_trip() {
    assert_eq!(parse_rfc2822("Mon, 01 Jan 2024 00:00:00 GMT"), Some(1704067200));
    assert_eq!(parse_rfc2822("not a date"), None);
    let rendered = format_rfc2822(1704067200);
    assert_eq!(rendered, "Mon, 1 Jan 2024 00:00:00 +0000");
    assert_eq!(parse_rfc2822(&rendered), Some(1704067200));
}

#[test]
fn conditional_headers_carry_the_stored_validators() {
    let headers = request_headers(&Some(1704067200), &Some("\"tag\"".to_string()));
    assert_eq!(headers.len(), 3);
    assert_eq!(headers[0].0, "If-Modified-Since");
    assert_eq!(headers[0].1, "Mon, 1 Jan 2024 00:00:00 +0000");
    assert_eq!(headers[1].0, "If-None-Match");
    assert_eq!(headers[1].1, "\"tag\"");
    assert_eq!(headers[2].0, "User-Agent");
    assert_eq!(headers[2].1, "MWR Feed Reader");

    let bare = request_headers(&None, &None);
    assert_eq!(bare.len(), 1);
    assert_eq!(bare[0].0, "User-Agent");
}

#[test]
fn response_validators_are_extracted() {
    let headers = vec![
        ("content-type".to_string(), "text/xml".to_string()),
        ("last-modified".to_string(), "Mon, 01 Jan 2024 00:00:00 GMT".to_string()),
        ("etag".to_string(), "\"abc\"".to_string()),
    ];
    let (lm, etag) = extract_validators(&headers);
    assert_eq!(lm, Some(1704067200));
    assert_eq!(etag.as_deref(), Some("\"abc\""));

    let junk = vec![("last-modified".to_string(), "yesterday-ish".to_string())];
    let (lm, etag) = extract_validators(&junk);
    assert!(lm.is_none());
    assert!(etag.is_none());
}

#[test]
fn url_hosts_are_read_from_urls() {
    assert_eq!(url_host("https://example.com/feed.xml").as_deref(), Some("example.com"));
    assert!(url_host("definitely not a url").is_none());
}

#[test]
fn redirects_serialize_exactly() {
    let response = build_redirect_response(b"https://a.example/1".to_vec());
    let bytes = serialize_response_to_bytes(&response);
    let expected =
        b"HTTP/1.1 307 Temporary Redirect\nLocation: https://a.example/1\n\n".to_vec();
    assert_eq!(bytes, expected);
}

#[test]
fn serialization_pieces_compose() {
    let response = Response {
        status: 200,
        reason: b"OK".to_vec(),
        headers: vec![(b"X-One".to_vec(), b"1".to_vec()), (b"X-Two".to_vec(), b"2".to_vec())],
        body: b"hello".to_vec(),
    };
    let mut buf: Vec<u8> = Vec::new();
    write_status_line(&response, &mut buf);
    assert_eq!(buf, b"HTTP/1.1 200 OK\n".to_vec());
    write_headers(&response.headers, &mut buf);
    assert_eq!(buf, b"HTTP/1.1 200 OK\nX-One: 1\nX-Two: 2\n".to_vec());
    buf.push(b'\n');
    write_body(&response.body, &mut buf);
    assert_eq!(buf, serialize_response_to_bytes(&response));
}

#[test]
fn reload_requests_are_recognized() {
    assert!(wants_reload(b"GET /reload HTTP/1.1"));
    assert!(wants_reload(b"reload"));
    assert!(!wants_reload(b"GET / HTTP/1.1"));
    assert!(!wants_reload(b"relo"));
    assert!(!wants_reload(b""));
}
