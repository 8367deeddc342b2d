use vstd::prelude::*;

use crate::models::{view_opt_int, view_opt_str};

verus! {

/// Timestamps below this bound (the start of year 10000) stay inside the
/// four-digit year range that an RFC 2822 date can carry.
pub const RFC2822_MAX_SECONDS: i64 = 253402300800;

/// Mathematical model of a fetched response.
pub struct HttpResponseModel {
    pub body: Seq<char>,
    pub last_modified: Option<int>,
    pub etag: Option<Seq<char>>,
}

/// A successful conditional retrieval: the body, and whatever new cache
/// validators the origin supplied alongside it.
pub struct HttpResponse {
    pub body: String,
    pub last_modified: Option<i64>,
    pub etag: Option<String>,
}

impl View for HttpResponse {
    type V = HttpResponseModel;

    open spec fn view(&self) -> HttpResponseModel {
        HttpResponseModel {
            body: self.body@,
            last_modified: view_opt_int(self.last_modified),
            etag: view_opt_str(self.etag),
        }
    }
}

/// The UTC epoch timestamp an RFC 2822 date string denotes: a function of the
/// string alone. `None` for a string that is no such date.
pub uninterp spec fn spec_rfc2822_parse(s: Seq<char>) -> Option<int>;

/// Relies on chrono::DateTime::parse_from_rfc2822: reads an RFC 2822 date and
/// turns it into a UTC epoch timestamp. The result depends on the characters
/// alone.
#[verifier::external_body]
pub fn parse_rfc2822(s: &str) -> (r: Option<i64>)
    ensures
        view_opt_int(r) == spec_rfc2822_parse(s@),
{
    chrono::DateTime::parse_from_rfc2822(s).ok().map(|dt| dt.to_utc().timestamp())
}

/// The RFC 2822 rendering of a UTC epoch timestamp inside the representable
/// year range: a function of the timestamp alone.
pub uninterp spec fn spec_rfc2822_format(t: int) -> Seq<char>;

/// Relies on chrono::DateTime::from_timestamp and DateTime::to_rfc2822:
/// renders a UTC epoch timestamp as an RFC 2822 date. The bounds keep the
/// year inside 1970..=9999, where the rendering is defined and cannot panic.
#[verifier::external_body]
pub fn format_rfc2822(t: i64) -> (r: String)
    requires
        0 <= t < RFC2822_MAX_SECONDS,
    ensures
        r@ == spec_rfc2822_format(t as int),
{
    match chrono::DateTime::from_timestamp(t, 0) {
        Some(dt) => dt.to_rfc2822(),
        None => String::new(),
    }
}

/// The host part of a URL string: a function of the string alone. `None` for
/// a string that does not parse as a URL or has no host.
pub uninterp spec fn spec_url_host(s: Seq<char>) -> Option<Seq<char>>;

/// Relies on url::Url::parse and Url::host_str: the host part of a URL.
#[verifier::external_body]
pub fn url_host(url: &str) -> (r: Option<String>)
    ensures
        view_opt_str(r) == spec_url_host(url@),
{
    match url::Url::parse(url) {
        Ok(u) => u.host_str().map(|h| h.to_string()),
        Err(_) => None,
    }
}

/// The header list of a conditional retrieval: If-Modified-Since from the
/// stored timestamp where one exists and is representable, If-None-Match from
/// the stored entity tag, and the client's user agent.
pub open spec fn spec_request_headers(lm: Option<int>, etag: Option<Seq<char>>) -> Seq<
    (Seq<char>, Seq<char>),
> {
    (match lm {
        Some(t) => {
            if 0 <= t < RFC2822_MAX_SECONDS as int {
                seq![("If-Modified-Since"@, spec_rfc2822_format(t))]
            } else {
                Seq::empty()
            }
        },
        None => Seq::empty(),
    }) + (match etag {
        Some(e) => seq![("If-None-Match"@, e)],
        None => Seq::empty(),
    }) + seq![("User-Agent"@, "MWR Feed Reader"@)]
}

/// Builds the conditional-request headers for a source's stored validators.
pub fn request_headers(last_modified: &Option<i64>, etag: &Option<String>) -> (r: Vec<
    (String, String),
>)
    ensures
        r@.map_values(|h: (String, String)| (h.0@, h.1@)) == spec_request_headers(
            view_opt_int(*last_modified),
            view_opt_str(*etag),
        ),
{
    let mut out: Vec<(String, String)> = Vec::new();
    match last_modified {
        Some(t) => {
            if 0 <= *t && *t < RFC2822_MAX_SECONDS {
                out.push(("If-Modified-Since".to_owned(), format_rfc2822(*t)));
            }
        },
        None => (),
    }
    match etag {
        Some(e) => {
            out.push(("If-None-Match".to_owned(), e.clone()));
        },
        None => (),
    }
    out.push(("User-Agent".to_owned(), "MWR Feed Reader".to_owned()));
    proof {
        assert(out@.map_values(|h: (String, String)| (h.0@, h.1@)) =~= spec_request_headers(
            view_opt_int(*last_modified),
            view_opt_str(*etag),
        ));
    }
    out
}

/// The first header with the given name, in transport order.
pub open spec fn spec_first_header(hs: Seq<(Seq<char>, Seq<char>)>, name: Seq<char>) -> Option<
    Seq<char>,
>
    decreases hs.len(),
{
    if hs.len() == 0 {
        None
    } else if hs[0].0 == name {
        Some(hs[0].1)
    } else {
        spec_first_header(hs.drop_first(), name)
    }
}

/// When the first `k` headers do not carry the name and the one at `k` does,
/// the one at `k` is the first.
proof fn lemma_first_header_at(hs: Seq<(Seq<char>, Seq<char>)>, name: Seq<char>, k: int)
    requires
        0 <= k < hs.len(),
        forall|j: int| 0 <= j < k ==> (#[trigger] hs[j]).0 != name,
        hs[k].0 == name,
    ensures
        spec_first_header(hs, name) == Some(hs[k].1),
    decreases k,
{
    if k > 0 {
        lemma_first_header_at(hs.drop_first(), name, k - 1);
        assert forall|j: int| 0 <= j < k - 1 implies (#[trigger] hs.drop_first()[j]).0 != name by {
            assert(hs[j + 1].0 != name);
        }
    }
}

/// When no header carries the name, there is no first one.
proof fn lemma_first_header_none(hs: Seq<(Seq<char>, Seq<char>)>, name: Seq<char>)
    requires
        forall|j: int| 0 <= j < hs.len() ==> (#[trigger] hs[j]).0 != name,
    ensures
        spec_first_header(hs, name) is None,
    decreases hs.len(),
{
    if hs.len() > 0 {
        lemma_first_header_none(hs.drop_first(), name);
    }
}

/// The value of the first header with the given name, or `None`.
fn find_header(headers: &Vec<(String, String)>, name: &str) -> (r: Option<String>)
    ensures
        view_opt_str(r) == spec_first_header(
            headers@.map_values(|h: (String, String)| (h.0@, h.1@)),
            name@,
        ),
{
    let ghost hs = headers@.map_values(|h: (String, String)| (h.0@, h.1@));
    let looked_up = name.to_owned();
    let n = headers.len();
    let mut i: usize = 0;
    while i < n
        invariant
            n == headers@.len(),
            hs == headers@.map_values(|h: (String, String)| (h.0@, h.1@)),
            looked_up@ == name@,
            0 <= i <= n,
            forall|j: int| 0 <= j < i ==> (#[trigger] hs[j]).0 != name@,
        decreases n - i,
    {
        if headers[i].0.eq(&looked_up) {
            let v = headers[i].1.clone();
            proof {
                lemma_first_header_at(hs, name@, i as int);
            }
            return Some(v);
        }
        i = i + 1;
    }
    proof {
        lemma_first_header_none(hs, name@);
    }
    None
}

/// Reads the new cache validators out of a response's header list: the value
/// of the first last-modified header that parses as an RFC 2822 date, and the
/// value of the first etag header. Header names are expected lowercase, as
/// the transport layer normalizes them.
pub fn extract_validators(headers: &Vec<(String, String)>) -> (r: (Option<i64>, Option<String>))
    ensures
        ({
            let hs = headers@.map_values(|h: (String, String)| (h.0@, h.1@));
            &&& view_opt_int(r.0) == match spec_first_header(hs, "last-modified"@) {
                Some(v) => spec_rfc2822_parse(v),
                None => None::<int>,
            }
            &&& view_opt_str(r.1) == spec_first_header(hs, "etag"@)
        }),
{
    let last_modified = match find_header(headers, "last-modified") {
        Some(v) => parse_rfc2822(v.as_str()),
        None => None,
    };
    let etag = find_header(headers, "etag");
    (last_modified, etag)
}

} // verus!
