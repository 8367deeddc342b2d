use vstd::prelude::*;

verus! {

/// An HTTP response to serialize: status code and reason phrase, header
/// name/value pairs, and the body, all held as plain bytes.
pub struct Response {
    pub status: u16,
    pub reason: Vec<u8>,
    pub headers: Vec<(Vec<u8>, Vec<u8>)>,
    pub body: Vec<u8>,
}

/// The decimal digits of a number, most significant first.
pub open spec fn spec_decimal(n: int) -> Seq<u8>
    decreases n,
{
    if n < 10 {
        seq![(48 + if n >= 0 { n } else { 0 }) as u8]
    } else {
        spec_decimal(n / 10).push((48 + n % 10) as u8)
    }
}

/// The bytes of `"HTTP/1.1 "`.
pub open spec fn spec_http_prefix() -> Seq<u8> {
    seq![72u8, 84u8, 84u8, 80u8, 47u8, 49u8, 46u8, 49u8, 32u8]
}

/// The status line: `HTTP/1.1 <code> <reason>` and a line break.
pub open spec fn spec_status_line(status: int, reason: Seq<u8>) -> Seq<u8> {
    spec_http_prefix() + spec_decimal(status) + seq![32u8] + reason + seq![10u8]
}

/// The header block: one `name: value` line per header, in order.
pub open spec fn spec_header_block(headers: Seq<(Seq<u8>, Seq<u8>)>) -> Seq<u8>
    decreases headers.len(),
{
    if headers.len() == 0 {
        Seq::empty()
    } else {
        spec_header_block(headers.drop_last()) + headers.last().0 + seq![58u8, 32u8]
            + headers.last().1 + seq![10u8]
    }
}

/// The views of a byte-pair header list.
pub open spec fn headers_view(headers: Seq<(Vec<u8>, Vec<u8>)>) -> Seq<(Seq<u8>, Seq<u8>)> {
    headers.map_values(|h: (Vec<u8>, Vec<u8>)| (h.0@, h.1@))
}

/// A whole serialized response: status line, header block, one blank line,
/// then the body.
pub open spec fn spec_serialized_response(r: Response) -> Seq<u8> {
    spec_status_line(r.status as int, r.reason@) + spec_header_block(headers_view(r.headers@))
        + seq![10u8] + r.body@
}

/// A byte slice as an owned buffer.
fn bytes_to_vec(bytes: &[u8]) -> (r: Vec<u8>)
    ensures
        r@ == bytes@,
{
    let mut out: Vec<u8> = Vec::new();
    append_bytes(&mut out, bytes);
    proof {
        assert(out@ =~= bytes@);
    }
    out
}

/// Appends a byte slice to a buffer.
fn append_bytes(buf: &mut Vec<u8>, bytes: &[u8])
    ensures
        final(buf)@ == old(buf)@ + bytes@,
{
    let n = bytes.len();
    let mut i: usize = 0;
    while i < n
        invariant
            n == bytes@.len(),
            0 <= i <= n,
            buf@ == old(buf)@ + bytes@.take(i as int),
        decreases n - i,
    {
        buf.push(bytes[i]);
        proof {
            assert(buf@ =~= old(buf)@ + bytes@.take(i + 1));
        }
        i = i + 1;
    }
    proof {
        assert(old(buf)@ + bytes@.take(n as int) =~= old(buf)@ + bytes@);
    }
}

/// The decimal digits of a status code, most significant first.
fn decimal_digits(n: u16) -> (r: Vec<u8>)
    ensures
        r@ == spec_decimal(n as int),
    decreases n,
{
    if n < 10 {
        let mut out: Vec<u8> = Vec::new();
        out.push(48 + (n as u8));
        proof {
            assert(out@ =~= spec_decimal(n as int));
        }
        out
    } else {
        let mut out = decimal_digits(n / 10);
        out.push(48 + ((n % 10) as u8));
        out
    }
}

/// Writes the status line of a response into the buffer.
pub fn write_status_line(response: &Response, buf: &mut Vec<u8>)
    ensures
        final(buf)@ == old(buf)@ + spec_status_line(response.status as int, response.reason@),
{
    let prefix: [u8; 9] = [72, 84, 84, 80, 47, 49, 46, 49, 32];
    append_bytes(buf, prefix.as_slice());
    proof {
        assert(prefix@ =~= spec_http_prefix());
    }
    let digits = decimal_digits(response.status);
    append_bytes(buf, digits.as_slice());
    buf.push(32);
    append_bytes(buf, response.reason.as_slice());
    buf.push(10);
    proof {
        assert(buf@ =~= old(buf)@ + spec_status_line(response.status as int, response.reason@));
    }
}

/// Writes every header as a `name: value` line into the buffer, in order.
pub fn write_headers(headers: &Vec<(Vec<u8>, Vec<u8>)>, buf: &mut Vec<u8>)
    ensures
        final(buf)@ == old(buf)@ + spec_header_block(headers_view(headers@)),
{
    let n = headers.len();
    let mut i: usize = 0;
    proof {
        assert(buf@ =~= old(buf)@ + spec_header_block(headers_view(headers@.take(0))));
    }
    while i < n
        invariant
            n == headers@.len(),
            0 <= i <= n,
            buf@ == old(buf)@ + spec_header_block(headers_view(headers@.take(i as int))),
        decreases n - i,
    {
        append_bytes(buf, headers[i].0.as_slice());
        buf.push(58);
        buf.push(32);
        append_bytes(buf, headers[i].1.as_slice());
        buf.push(10);
        proof {
            assert(headers@.take(i + 1).drop_last() =~= headers@.take(i as int));
            assert(headers_view(headers@.take(i + 1)).drop_last() =~= headers_view(
                headers@.take(i as int),
            ));
            assert(headers_view(headers@.take(i + 1)).last() == (
                headers@[i as int].0@,
                headers@[i as int].1@,
            ));
            assert(buf@ =~= old(buf)@ + spec_header_block(headers_view(headers@.take(i + 1))));
        }
        i = i + 1;
    }
    proof {
        assert(headers@.take(n as int) =~= headers@);
    }
}

/// Writes the body bytes into the buffer.
pub fn write_body(body: &Vec<u8>, buf: &mut Vec<u8>)
    ensures
        final(buf)@ == old(buf)@ + body@,
{
    append_bytes(buf, body.as_slice());
}

/// Serializes a whole response: status line, headers, a blank line, and the
/// body, exactly as they go over the wire.
pub fn serialize_response_to_bytes(response: &Response) -> (r: Vec<u8>)
    ensures
        r@ == spec_serialized_response(*response),
{
    let mut buffer: Vec<u8> = Vec::new();
    write_status_line(response, &mut buffer);
    write_headers(&response.headers, &mut buffer);
    buffer.push(10);
    write_body(&response.body, &mut buffer);
    proof {
        assert(buffer@ =~= spec_serialized_response(*response));
    }
    buffer
}

/// The redirect the server answers with: a temporary redirect whose Location
/// header carries the chosen page's url and whose body is empty.
pub fn build_redirect_response(location: Vec<u8>) -> (r: Response)
    ensures
        r.status == 307,
        r.reason@ == spec_reason_temporary_redirect(),
        headers_view(r.headers@) == seq![(spec_location_name(), location@)],
        r.body@ == Seq::<u8>::empty(),
{
    let reason: [u8; 18] = [
        84,
        101,
        109,
        112,
        111,
        114,
        97,
        114,
        121,
        32,
        82,
        101,
        100,
        105,
        114,
        101,
        99,
        116,
    ];
    let name: [u8; 8] = [76, 111, 99, 97, 116, 105, 111, 110];
    let mut headers: Vec<(Vec<u8>, Vec<u8>)> = Vec::new();
    headers.push((bytes_to_vec(name.as_slice()), location));
    let r = Response {
        status: 307,
        reason: bytes_to_vec(reason.as_slice()),
        headers: headers,
        body: Vec::new(),
    };
    proof {
        assert(r.reason@ =~= spec_reason_temporary_redirect());
        assert(headers_view(r.headers@) =~= seq![(spec_location_name(), r.headers@[0].1@)]);
        assert(r.body@ =~= Seq::<u8>::empty());
    }
    r
}

/// The bytes of `"Temporary Redirect"`.
pub open spec fn spec_reason_temporary_redirect() -> Seq<u8> {
    seq![
        84u8,
        101u8,
        109u8,
        112u8,
        111u8,
        114u8,
        97u8,
        114u8,
        121u8,
        32u8,
        82u8,
        101u8,
        100u8,
        105u8,
        114u8,
        101u8,
        99u8,
        116u8,
    ]
}

/// The bytes of `"Location"`.
pub open spec fn spec_location_name() -> Seq<u8> {
    seq![76u8, 111u8, 99u8, 97u8, 116u8, 105u8, 111u8, 110u8]
}

/// The bytes of `"reload"`.
pub open spec fn spec_reload_bytes() -> Seq<u8> {
    seq![114u8, 101u8, 108u8, 111u8, 97u8, 100u8]
}

/// The request line asks for a reload: it holds `reload` somewhere.
pub open spec fn spec_wants_reload(s: Seq<u8>) -> bool {
    exists|i: int|
        0 <= i && i + 6 <= s.len() && (#[trigger] s.subrange(i, i + 6)) == spec_reload_bytes()
}

/// Whether the word `reload` starts at position `i`.
fn matches_reload_at(s: &[u8], i: usize) -> (r: bool)
    requires
        i + 6 <= s@.len(),
    ensures
        r == (s@.subrange(i as int, i as int + 6) == spec_reload_bytes()),
{
    let hit = s[i] == 114 && s[i + 1] == 101 && s[i + 2] == 108 && s[i + 3] == 111 && s[i + 4]
        == 97 && s[i + 5] == 100;
    proof {
        if hit {
            assert(s@.subrange(i as int, i as int + 6) =~= spec_reload_bytes());
        } else {
            if s@.subrange(i as int, i as int + 6) == spec_reload_bytes() {
                assert(s@[i as int] == spec_reload_bytes()[0]);
                assert(s@[i as int + 1] == spec_reload_bytes()[1]);
                assert(s@[i as int + 2] == spec_reload_bytes()[2]);
                assert(s@[i as int + 3] == spec_reload_bytes()[3]);
                assert(s@[i as int + 4] == spec_reload_bytes()[4]);
                assert(s@[i as int + 5] == spec_reload_bytes()[5]);
            }
        }
    }
    hit
}

/// Whether a request line asks for a reload, by scanning for the word
/// `reload`.
pub fn wants_reload(request_line: &[u8]) -> (r: bool)
    ensures
        r == spec_wants_reload(request_line@),
{
    let n = request_line.len();
    if n < 6 {
        return false;
    }
    let mut i: usize = 0;
    while i <= n - 6
        invariant
            n == request_line@.len(),
            6 <= n,
            0 <= i,
            i + 5 <= n,
            forall|j: int| 0 <= j < i ==> (#[trigger] request_line@.subrange(j, j + 6))
                != spec_reload_bytes(),
        decreases n - i,
    {
        if matches_reload_at(request_line, i) {
            return true;
        }
        i = i + 1;
    }
    proof {
        if spec_wants_reload(request_line@) {
            let j = choose|j: int|
                0 <= j && j + 6 <= request_line@.len() && (#[trigger] request_line@.subrange(
                    j,
                    j + 6,
                )) == spec_reload_bytes();
            assert(j < i);
        }
    }
    false
}

} // verus!
