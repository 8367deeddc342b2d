use vstd::prelude::*;

use crate::models::{view_opt_int, view_opt_str, NewPage, NewPageModel};
use vstd::string::StringSliceAdditionalSpecFns;

verus! {

/// Mathematical model of one parsed entry, before normalization.
pub struct RawEntryModel {
    pub link: Option<Seq<char>>,
    pub title: Option<Seq<char>>,
    pub published: Option<int>,
}

/// One feed entry as the syndication parser hands it over: the entry's first
/// link, its title, and its published date, each possibly absent.
pub struct RawEntry {
    pub link: Option<String>,
    pub title: Option<String>,
    pub published: Option<i64>,
}

impl View for RawEntry {
    type V = RawEntryModel;

    open spec fn view(&self) -> RawEntryModel {
        RawEntryModel {
            link: view_opt_str(self.link),
            title: view_opt_str(self.title),
            published: view_opt_int(self.published),
        }
    }
}

/// Mathematical model of a parsed feed.
pub struct RawFeedModel {
    pub title: Option<Seq<char>>,
    pub entries: Seq<RawEntryModel>,
}

/// A parsed feed: its title, possibly absent, and its entries in document
/// order.
pub struct RawFeed {
    pub title: Option<String>,
    pub entries: Vec<RawEntry>,
}

impl View for RawFeed {
    type V = RawFeedModel;

    open spec fn view(&self) -> RawFeedModel {
        RawFeedModel {
            title: view_opt_str(self.title),
            entries: self.entries@.map_values(|e: RawEntry| e@),
        }
    }
}

/// The view of an optional parse result.
pub open spec fn view_opt_feed(r: Option<RawFeed>) -> Option<RawFeedModel> {
    match r {
        Some(f) => Some(f@),
        None => None,
    }
}

/// What the syndication parser makes of a byte body: a function of the bytes
/// alone. `None` stands for a body in no recognized feed format.
pub uninterp spec fn spec_parse_feed(body: Seq<u8>) -> Option<RawFeedModel>;

/// Relies on feed_rs::parser::parse: interprets a byte body as a syndication
/// document (Atom, RSS, or JSON Feed). The result is a function of the bytes
/// alone; only each entry's first link, its title, and its published date are
/// kept, and the feed's title.
#[verifier::external_body]
fn parse_feed_raw(body: &[u8]) -> (r: Option<RawFeed>)
    ensures
        view_opt_feed(r) == spec_parse_feed(body@),
{
    match feed_rs::parser::parse(body) {
        Ok(feed) => Some(RawFeed {
            title: feed.title.map(|t| t.content),
            entries: feed
                .entries
                .into_iter()
                .map(|e| RawEntry {
                    link: e.links.first().map(|l| l.href.clone()),
                    title: e.title.map(|t| t.content),
                    published: e.published.map(|d| d.timestamp()),
                })
                .collect(),
        }),
        Err(_) => None,
    }
}

/// Mathematical model of one normalized item.
pub struct RssItemModel {
    pub link: Seq<char>,
    pub title: Seq<char>,
    pub date: Option<int>,
}

/// One normalized item: an entry reduced to link (empty when the entry has
/// none), title (defaulted), and an optional published date.
pub struct RssItem {
    pub link: String,
    pub title: String,
    pub date: Option<i64>,
}

impl View for RssItem {
    type V = RssItemModel;

    open spec fn view(&self) -> RssItemModel {
        RssItemModel { link: self.link@, title: self.title@, date: view_opt_int(self.date) }
    }
}

/// Mathematical model of a normalized feed.
pub struct RssFeedModel {
    pub title: Seq<char>,
    pub items: Seq<RssItemModel>,
}

/// A normalized feed: a title and the ordered normalized items.
pub struct RssFeed {
    pub title: String,
    pub items: Vec<RssItem>,
}

impl View for RssFeed {
    type V = RssFeedModel;

    open spec fn view(&self) -> RssFeedModel {
        RssFeedModel { title: self.title@, items: self.items@.map_values(|it: RssItem| it@) }
    }
}

/// The "not a feed" sentinel: a normal branch that sends the synchronizer
/// into single-page behavior, not a failure.
pub struct NotAFeed;

/// The fallback title for feeds and entries that give none.
pub open spec fn spec_default_title() -> Seq<char> {
    "Untitled"@
}

/// One entry normalized: an absent link becomes the empty string, an absent
/// title the default, and the published date is kept as it is.
pub open spec fn normalize_entry(e: RawEntryModel) -> RssItemModel {
    RssItemModel {
        link: match e.link {
            Some(l) => l,
            None => Seq::empty(),
        },
        title: match e.title {
            Some(t) => t,
            None => spec_default_title(),
        },
        date: e.published,
    }
}

/// A parsed feed normalized, entry by entry and in order.
pub open spec fn normalize_feed(f: RawFeedModel) -> RssFeedModel {
    RssFeedModel {
        title: match f.title {
            Some(t) => t,
            None => spec_default_title(),
        },
        items: f.entries.map_values(|e: RawEntryModel| normalize_entry(e)),
    }
}

/// Interprets a body as a syndication document and normalizes it.
/// `Err(NotAFeed)` exactly when the body is in no recognized feed format.
pub fn parse_rss(body: &str) -> (r: Result<RssFeed, NotAFeed>)
    ensures
        match r {
            Ok(f) => spec_parse_feed(body.spec_bytes()) is Some && f@ == normalize_feed(
                spec_parse_feed(body.spec_bytes()).unwrap(),
            ),
            Err(_) => spec_parse_feed(body.spec_bytes()) is None,
        },
{
    let raw = match parse_feed_raw(body.as_bytes()) {
        Some(raw) => raw,
        None => {
            return Err(NotAFeed);
        },
    };
    let title = match raw.title {
        Some(t) => t,
        None => default_title(),
    };
    let n = raw.entries.len();
    let mut items: Vec<RssItem> = Vec::new();
    let mut i: usize = 0;
    while i < n
        invariant
            n == raw.entries@.len(),
            0 <= i <= n,
            items@.len() == i,
            forall|j: int| 0 <= j < i ==> (#[trigger] items@[j])@ == normalize_entry(
                raw.entries@[j]@,
            ),
        decreases n - i,
    {
        let e = &raw.entries[i];
        let link = match &e.link {
            Some(l) => l.clone(),
            None => String::new(),
        };
        let entry_title = match &e.title {
            Some(t) => t.clone(),
            None => default_title(),
        };
        items.push(RssItem { link: link, title: entry_title, date: e.published });
        i = i + 1;
    }
    let f = RssFeed { title: title, items: items };
    proof {
        let parsed = spec_parse_feed(body.spec_bytes()).unwrap();
        assert(f@.items =~= normalize_feed(parsed).items);
    }
    Ok(f)
}

/// The default title as a value.
fn default_title() -> (t: String)
    ensures
        t@ == spec_default_title(),
{
    "Untitled".to_owned()
}

/// The row one normalized item inserts for its source.
pub open spec fn spec_item_page(it: RssItemModel, source_id: int) -> NewPageModel {
    NewPageModel {
        source_id: source_id,
        url: it.link,
        title: it.title,
        read: None,
        date: it.date,
    }
}

/// Turns a feed's normalized items into rows to upsert for one source, in
/// order. Items without a date keep `None` and get the registration time at
/// insertion.
pub fn rss_to_newpages(rss_items: Vec<RssItem>, source_id: i32) -> (r: Vec<NewPage>)
    ensures
        r@.len() == rss_items@.len(),
        forall|i: int| 0 <= i < r@.len() ==> (#[trigger] r@[i])@ == spec_item_page(
            rss_items@[i]@,
            source_id as int,
        ),
{
    let n = rss_items.len();
    let mut out: Vec<NewPage> = Vec::new();
    let mut i: usize = 0;
    while i < n
        invariant
            n == rss_items@.len(),
            0 <= i <= n,
            out@.len() == i,
            forall|j: int| 0 <= j < i ==> (#[trigger] out@[j])@ == spec_item_page(
                rss_items@[j]@,
                source_id as int,
            ),
        decreases n - i,
    {
        let it = &rss_items[i];
        out.push(
            NewPage {
                source_id: source_id,
                url: it.link.clone(),
                title: it.title.clone(),
                read: None,
                date: it.date,
            },
        );
        i = i + 1;
    }
    out
}

} // verus!
