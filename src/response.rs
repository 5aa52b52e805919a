//! Building a response and writing it out as bytes.
use vstd::prelude::*;
use crate::bytes::{append, bytes_eq, dec, push_dec, split_commas, views};
use crate::headers::{lemma_put_unique, lookup, put, unique_keys, Headers};
use crate::request::{accept_encoding_name, Request};

verus! {

/// The status codes a response may carry.
pub open spec fn valid_status(code: u16) -> bool {
    code == 200 || code == 201 || code == 400 || code == 404 || code == 500
}

/// The reason phrase that follows a status code.
pub open spec fn reason(code: u16) -> Seq<u8> {
    if code == 200 {
        seq![79u8, 75]
    } else if code == 201 {
        seq![67u8, 114, 101, 97, 116, 101, 100]
    } else if code == 400 {
        seq![66u8, 97, 100, 32, 82, 101, 113, 117, 101, 115, 116]
    } else if code == 404 {
        seq![78u8, 111, 116, 32, 70, 111, 117, 110, 100]
    } else {
        seq![73u8, 110, 116, 101, 114, 110, 97, 108, 32, 83, 101, 114, 118, 101, 114, 32, 69, 114, 114, 111, 114]
    }
}

pub open spec fn http_version() -> Seq<u8> {
    seq![72u8, 84, 84, 80, 47, 49, 46, 49]
}

pub open spec fn content_length_prefix() -> Seq<u8> {
    seq![67u8, 111, 110, 116, 101, 110, 116, 45, 76, 101, 110, 103, 116, 104, 58, 32]
}

pub open spec fn content_encoding_name() -> Seq<u8> {
    seq![67u8, 111, 110, 116, 101, 110, 116, 45, 69, 110, 99, 111, 100, 105, 110, 103]
}

pub open spec fn gzip() -> Seq<u8> {
    seq![103u8, 122, 105, 112]
}

/// `HTTP/1.1 <code> <reason>` and a line break.
pub open spec fn status_line(code: u16) -> Seq<u8> {
    http_version() + seq![32u8] + dec(code as nat) + seq![32u8] + reason(code) + seq![13u8, 10]
}

/// One header line: `<name>: <value>` and a line break.
pub open spec fn header_line(e: (Seq<u8>, Seq<u8>)) -> Seq<u8> {
    e.0 + seq![58u8, 32] + e.1 + seq![13u8, 10]
}

/// The header lines of `es`, in order.
pub open spec fn header_lines(es: Seq<(Seq<u8>, Seq<u8>)>) -> Seq<u8>
    decreases es.len(),
{
    if es.len() == 0 {
        seq![]
    } else {
        header_lines(es.drop_last()) + header_line(es.last())
    }
}

/// The bytes of a response: status line, header lines, a `Content-Length`
/// line for the body, a blank line, and the body.
pub open spec fn serialize(code: u16, es: Seq<(Seq<u8>, Seq<u8>)>, body: Seq<u8>) -> Seq<u8> {
    status_line(code) + header_lines(es) + content_length_prefix() + dec(body.len()) + seq![
        13u8,
        10,
        13,
        10,
    ] + body
}

/// Whether the fields `h` ask for gzip: an item of `Accept-Encoding`,
/// split at commas and not trimmed, is exactly `gzip`.
pub open spec fn wants_gzip(h: Seq<(Seq<u8>, Seq<u8>)>) -> bool {
    match lookup(h, accept_encoding_name()) {
        Some(v) => split_commas(v).contains(gzip()),
        None => false,
    }
}

/// The fields `h` once the encoding the request asked for is announced:
/// `Content-Encoding: gzip` is added where the request wants gzip and no
/// `Content-Encoding` is set yet. The body is left as it is.
pub open spec fn with_own_headers(
    h: Seq<(Seq<u8>, Seq<u8>)>,
    req: Seq<(Seq<u8>, Seq<u8>)>,
) -> Seq<(Seq<u8>, Seq<u8>)> {
    if wants_gzip(req) && lookup(h, content_encoding_name()) is None {
        put(h, content_encoding_name(), gzip())
    } else {
        h
    }
}

pub struct Response {
    pub status: u16,
    pub headers: Headers,
    pub body: Vec<u8>,
}

/// Appends the reason phrase of `code`.
fn push_reason(out: &mut Vec<u8>, code: u16)
    requires
        valid_status(code),
    ensures
        final(out)@ == old(out)@ + reason(code),
{
    if code == 200 {
        let a: [u8; 2] = [79, 75];
        assert(a@ =~= reason(code));
        append(out, a.as_slice());
    } else if code == 201 {
        let a: [u8; 7] = [67, 114, 101, 97, 116, 101, 100];
        assert(a@ =~= reason(code));
        append(out, a.as_slice());
    } else if code == 400 {
        let a: [u8; 11] = [66, 97, 100, 32, 82, 101, 113, 117, 101, 115, 116];
        assert(a@ =~= reason(code));
        append(out, a.as_slice());
    } else if code == 404 {
        let a: [u8; 9] = [78, 111, 116, 32, 70, 111, 117, 110, 100];
        assert(a@ =~= reason(code));
        append(out, a.as_slice());
    } else {
        let a: [u8; 21] = [73, 110, 116, 101, 114, 110, 97, 108, 32, 83, 101, 114, 118, 101, 114, 32, 69, 114, 114, 111, 114];
        assert(a@ =~= reason(code));
        append(out, a.as_slice());
    }
}

impl Response {
    pub open spec fn wf(&self) -> bool {
        valid_status(self.status) && self.headers.wf()
    }

    /// Status 200, no header fields, an empty body.
    pub fn new() -> (r: Response)
        ensures
            r.wf(),
            r.status == 200,
            r.headers@ == Seq::<(Seq<u8>, Seq<u8>)>::empty(),
            r.body@ == Seq::<u8>::empty(),
    {
        Response { status: 200, headers: Headers::new(), body: Vec::new() }
    }

    /// Sets the status code.
    pub fn status(self, code: u16) -> (r: Response)
        requires
            valid_status(code),
            self.headers.wf(),
        ensures
            r.wf(),
            r.status == code,
            r.headers@ == self.headers@,
            r.body@ == self.body@,
    {
        let mut r = self;
        r.status = code;
        r
    }

    /// Replaces the body.
    pub fn body(self, body: &[u8]) -> (r: Response)
        ensures
            r.status == self.status,
            r.headers@ == self.headers@,
            r.headers.wf() == self.headers.wf(),
            r.body@ == body@,
    {
        let mut r = self;
        let mut b: Vec<u8> = Vec::new();
        append(&mut b, body);
        r.body = b;
        r
    }

    /// Sets the header field `name` to `value`, replacing an earlier value.
    pub fn header(self, name: &[u8], value: &[u8]) -> (r: Response)
        requires
            self.headers.wf(),
        ensures
            r.headers.wf(),
            r.status == self.status,
            r.headers@ == put(self.headers@, name@, value@),
            r.body@ == self.body@,
    {
        let mut r = self;
        r.headers.insert(name, value);
        r
    }

    /// Adds `Content-Encoding: gzip` where `request` asks for gzip and no
    /// encoding is set yet.
    pub fn append_own_headers(&mut self, request: &Request)
        requires
            old(self).headers.wf(),
        ensures
            final(self).headers.wf(),
            final(self).status == old(self).status,
            final(self).body@ == old(self).body@,
            final(self).headers@ == with_own_headers(old(self).headers@, request.headers@),
    {
        let encodings = request.supported_encodings();
        let g: [u8; 4] = [103, 122, 105, 112];
        assert(g@ =~= gzip());
        let mut found = false;
        let mut i: usize = 0;
        let ghost v = views(encodings@);
        while i < encodings.len()
            invariant
                i <= encodings@.len(),
                v == views(encodings@),
                g@ == gzip(),
                found == exists|j: int| 0 <= j < i && #[trigger] v[j] == gzip(),
            decreases encodings@.len() - i,
        {
            assert(v[i as int] == encodings@[i as int]@);
            let same = bytes_eq(encodings[i].as_slice(), g.as_slice());
            assert(same == (v[i as int] == gzip()));
            let ghost was = found;
            if same {
                found = true;
            }
            assert(found == (was || v[i as int] == gzip()));
            proof {
                if exists|j: int| 0 <= j < i && #[trigger] v[j] == gzip() {
                    let j = choose|j: int| 0 <= j < i && #[trigger] v[j] == gzip();
                    assert(0 <= j < i + 1 && v[j] == gzip());
                }
                if v[i as int] == gzip() {
                    assert(0 <= i < i + 1 && v[i as int] == gzip());
                }
            }
            i = i + 1;
        }
        let ce: [u8; 16] = [67, 111, 110, 116, 101, 110, 116, 45, 69, 110, 99, 111, 100, 105, 110, 103];
        assert(ce@ =~= content_encoding_name());
        proof {
            if found {
                let j = choose|j: int| 0 <= j < v.len() && #[trigger] v[j] == gzip();
                assert(v.contains(gzip()));
            }
            if v.contains(gzip()) {
                let j = choose|j: int| 0 <= j < v.len() && v[j] == gzip();
                assert(v[j] == gzip());
            }
        }
        if found && self.headers.position(ce.as_slice()).is_none() {
            self.headers.insert(ce.as_slice(), g.as_slice());
        }
    }

    /// The bytes of this response.
    pub fn to_bytes(&self) -> (r: Vec<u8>)
        requires
            self.wf(),
        ensures
            r@ == serialize(self.status, self.headers@, self.body@),
    {
        let mut out: Vec<u8> = Vec::new();
        let ver: [u8; 8] = [72, 84, 84, 80, 47, 49, 46, 49];
        assert(ver@ =~= http_version());
        append(&mut out, ver.as_slice());
        out.push(32);
        push_dec(&mut out, self.status as usize);
        out.push(32);
        push_reason(&mut out, self.status);
        out.push(13);
        out.push(10);
        let ghost head = out@;
        assert(head =~= status_line(self.status));
        let mut i: usize = 0;
        while i < self.headers.entries.len()
            invariant
                i <= self.headers@.len(),
                self.headers@.len() == self.headers.entries@.len(),
                out@ == head + header_lines(self.headers@.subrange(0, i as int)),
            decreases self.headers@.len() - i,
        {
            let e = &self.headers.entries[i];
            append(&mut out, e.0.as_slice());
            out.push(58);
            out.push(32);
            append(&mut out, e.1.as_slice());
            out.push(13);
            out.push(10);
            proof {
                let es = self.headers@;
                assert(es.subrange(0, i + 1).drop_last() =~= es.subrange(0, i as int));
                assert(es.subrange(0, i + 1).last() == es[i as int]);
            }
            i = i + 1;
            assert(out@ =~= head + header_lines(self.headers@.subrange(0, i as int)));
        }
        assert(self.headers@.subrange(0, i as int) =~= self.headers@);
        let cl: [u8; 16] = [67, 111, 110, 116, 101, 110, 116, 45, 76, 101, 110, 103, 116, 104, 58, 32];
        assert(cl@ =~= content_length_prefix());
        append(&mut out, cl.as_slice());
        push_dec(&mut out, self.body.len());
        out.push(13);
        out.push(10);
        out.push(13);
        out.push(10);
        append(&mut out, self.body.as_slice());
        assert(out@ =~= serialize(self.status, self.headers@, self.body@));
        out
    }

    /// Finishes the response for `request` and gives its bytes: the encoding
    /// the request asked for is announced, then the response is serialised.
    pub fn send(&mut self, request: &Request) -> (r: Vec<u8>)
        requires
            old(self).wf(),
        ensures
            final(self).wf(),
            final(self).status == old(self).status,
            final(self).body@ == old(self).body@,
            final(self).headers@ == with_own_headers(old(self).headers@, request.headers@),
            r@ == serialize(final(self).status, final(self).headers@, final(self).body@),
    {
        self.append_own_headers(request);
        self.to_bytes()
    }
}

/// A request whose `Accept-Encoding` lists `gzip` gets `Content-Encoding:
/// gzip` unless an encoding is already set; one that does not list it gets
/// the fields unchanged.
pub proof fn lemma_gzip_announced(h: Seq<(Seq<u8>, Seq<u8>)>, req: Seq<(Seq<u8>, Seq<u8>)>)
    requires
        unique_keys(h),
    ensures
        wants_gzip(req) ==> lookup(with_own_headers(h, req), content_encoding_name()) is Some,
        wants_gzip(req) && lookup(h, content_encoding_name()) is None ==> lookup(
            with_own_headers(h, req),
            content_encoding_name(),
        ) == Some(gzip()),
        !wants_gzip(req) ==> with_own_headers(h, req) == h,
{
    lemma_put_unique(h, content_encoding_name(), gzip());
}

} // verus!
