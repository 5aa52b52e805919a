//! Reading one request from the bytes a client sent: the request line, the
//! header lines up to a blank line or the end of input, and for POST and PUT
//! a body of `Content-Length` bytes.
use vstd::prelude::*;
use crate::bytes::{
    copy_range, find_sep, line_end, line_len, parse_usize, parse_usize_bytes, split_commas,
    split_on_commas, split_sep, split_words, tokens, trim, trim_bytes, views,
};
use crate::headers::{lookup, put, Headers};
use crate::method::{method_of, Method};

verus! {

#[derive(PartialEq, Eq, Structural, Clone, Copy, Debug)]
pub enum ParseError {
    /// The request line is not three words.
    BadRequestLine,
    /// The first word of the request line names no known method.
    UnknownMethod,
    /// A header line holds no `": "`.
    BadHeader,
    /// The input ends before the body that `Content-Length` announces.
    ShortBody,
}

/// The line that ends the header section.
pub open spec fn crlf() -> Seq<u8> {
    seq![13u8, 10]
}

pub open spec fn content_length_name() -> Seq<u8> {
    seq![67u8, 111, 110, 116, 101, 110, 116, 45, 76, 101, 110, 103, 116, 104]
}

pub open spec fn accept_encoding_name() -> Seq<u8> {
    seq![65u8, 99, 99, 101, 112, 116, 45, 69, 110, 99, 111, 100, 105, 110, 103]
}

/// Reads header lines from `s` into `acc` until a blank line or the end of
/// the input; gives the fields and what follows the blank line. Input that
/// ends before a blank line ends the section without error. The guard on `n`
/// is never taken (see `lemma_line_len_bound`); it shows that the input
/// shrinks at each line.
pub open spec fn headers_spec(s: Seq<u8>, acc: Seq<(Seq<u8>, Seq<u8>)>) -> Result<
    (Seq<(Seq<u8>, Seq<u8>)>, Seq<u8>),
    ParseError,
>
    decreases s.len(),
{
    let n = line_len(s);
    if s.len() == 0 || n == 0 || n > s.len() {
        Ok((acc, s))
    } else {
        let line = s.subrange(0, n as int);
        let rest = s.subrange(n as int, s.len() as int);
        if line == crlf() {
            Ok((acc, rest))
        } else {
            match split_sep(line) {
                None => Err(ParseError::BadHeader),
                Some((k, v)) => headers_spec(rest, put(acc, k, trim(v))),
            }
        }
    }
}

/// The request line and header section of `s`: method, target, header
/// fields, and the bytes after the header section.
pub open spec fn head_spec(s: Seq<u8>) -> Result<
    (Method, Seq<u8>, Seq<(Seq<u8>, Seq<u8>)>, Seq<u8>),
    ParseError,
> {
    let n = line_len(s);
    let toks = tokens(s.subrange(0, n as int));
    if toks.len() != 3 {
        Err(ParseError::BadRequestLine)
    } else {
        match method_of(toks[0]) {
            None => Err(ParseError::UnknownMethod),
            Some(m) => match headers_spec(s.subrange(n as int, s.len() as int), seq![]) {
                Err(e) => Err(e),
                Ok((h, rest)) => Ok((m, toks[1], h, rest)),
            },
        }
    }
}

/// How many body bytes a request with method `m` and fields `h` carries: the
/// `Content-Length` value for POST and PUT, zero where it is missing or not a
/// number, and zero for GET.
pub open spec fn body_len_spec(m: Method, h: Seq<(Seq<u8>, Seq<u8>)>) -> nat {
    if m.spec_has_body() {
        match lookup(h, content_length_name()) {
            Some(v) => match parse_usize(v) {
                Some(n) => n,
                None => 0,
            },
            None => 0,
        }
    } else {
        0
    }
}

/// What a request reads as: method, target, header fields and body.
pub open spec fn parse_spec(s: Seq<u8>) -> Result<
    (Method, Seq<u8>, Seq<(Seq<u8>, Seq<u8>)>, Seq<u8>),
    ParseError,
> {
    match head_spec(s) {
        Err(e) => Err(e),
        Ok((m, p, h, rest)) => {
            let n = body_len_spec(m, h);
            if rest.len() < n {
                Err(ParseError::ShortBody)
            } else {
                Ok((m, p, h, rest.subrange(0, n as int)))
            }
        },
    }
}

pub proof fn lemma_line_len_bound(s: Seq<u8>)
    ensures
        line_len(s) <= s.len(),
        s.len() > 0 ==> line_len(s) > 0,
    decreases s.len(),
{
    if s.len() > 0 {
        lemma_line_len_bound(s.drop_first());
    }
}

pub struct Request {
    pub method: Method,
    pub path: Vec<u8>,
    pub headers: Headers,
    pub body: Vec<u8>,
}

impl Request {
    pub open spec fn wf(&self) -> bool {
        self.headers.wf()
    }

    /// The request as method, target, header fields and body.
    pub open spec fn spec_parts(&self) -> (Method, Seq<u8>, Seq<(Seq<u8>, Seq<u8>)>, Seq<u8>) {
        (self.method, self.path@, self.headers@, self.body@)
    }

    /// Reads header lines from `s` starting at `pos`.
    pub(crate) fn parse_headers(s: &[u8], pos: usize) -> (r: Result<(Headers, usize), ParseError>)
        requires
            pos <= s@.len(),
        ensures
            match r {
                Ok((h, e)) => e <= s@.len() && h.wf() && headers_spec(
                    s@.subrange(pos as int, s@.len() as int),
                    seq![],
                ) == Ok::<(Seq<(Seq<u8>, Seq<u8>)>, Seq<u8>), ParseError>(
                    (h@, s@.subrange(e as int, s@.len() as int)),
                ),
                Err(err) => headers_spec(s@.subrange(pos as int, s@.len() as int), seq![]) == Err::<
                    (Seq<(Seq<u8>, Seq<u8>)>, Seq<u8>),
                    ParseError,
                >(err),
            },
    {
        let mut h = Headers::new();
        let mut p: usize = pos;
        while p < s.len()
            invariant
                pos <= p <= s@.len(),
                h.wf(),
                headers_spec(s@.subrange(pos as int, s@.len() as int), seq![]) == headers_spec(
                    s@.subrange(p as int, s@.len() as int),
                    h@,
                ),
            decreases s@.len() - p,
        {
            let ghost t = s@.subrange(p as int, s@.len() as int);
            let e = line_end(s, p);
            proof {
                lemma_line_len_bound(t);
                assert(t.subrange(0, line_len(t) as int) =~= s@.subrange(p as int, e as int));
                assert(t.subrange(line_len(t) as int, t.len() as int) =~= s@.subrange(
                    e as int,
                    s@.len() as int,
                ));
            }
            let line = copy_range(s, p, e);
            if e - p == 2 && line[0] == 13 && line[1] == 10 {
                assert(line@ =~= crlf());
                return Ok((h, e));
            }
            assert(line@ != crlf()) by {
                if line@ == crlf() {
                    assert(line@[0] == 13 && line@[1] == 10);
                }
            }
            match find_sep(line.as_slice()) {
                None => {
                    return Err(ParseError::BadHeader);
                },
                Some(i) => {
                    let k = copy_range(line.as_slice(), 0, i);
                    let rest = copy_range(line.as_slice(), i + 2, line.len());
                    let v = trim_bytes(rest.as_slice());
                    h.insert(k.as_slice(), v.as_slice());
                },
            }
            p = e;
        }
        proof {
            assert(s@.subrange(p as int, s@.len() as int).len() == 0);
        }
        Ok((h, p))
    }

    /// Reads the request line and the header section of `s`; gives method,
    /// target, fields and the index where the body starts.
    fn parse_head(s: &[u8]) -> (r: Result<(Method, Vec<u8>, Headers, usize), ParseError>)
        ensures
            match r {
                Ok((m, p, h, e)) => e <= s@.len() && h.wf() && head_spec(s@) == Ok::<
                    (Method, Seq<u8>, Seq<(Seq<u8>, Seq<u8>)>, Seq<u8>),
                    ParseError,
                >((m, p@, h@, s@.subrange(e as int, s@.len() as int))),
                Err(err) => head_spec(s@) == Err::<
                    (Method, Seq<u8>, Seq<(Seq<u8>, Seq<u8>)>, Seq<u8>),
                    ParseError,
                >(err),
            },
    {
        let n = line_end(s, 0);
        assert(s@.subrange(0, s@.len() as int) =~= s@);
        let line = copy_range(s, 0, n);
        let mut words = split_words(line.as_slice());
        if words.len() != 3 {
            return Err(ParseError::BadRequestLine);
        }
        let m = match Method::from(words[0].as_slice()) {
            Some(m) => m,
            None => {
                return Err(ParseError::UnknownMethod);
            },
        };
        let _version = words.pop().unwrap();
        let path = words.pop().unwrap();
        match Request::parse_headers(s, n) {
            Err(e) => Err(e),
            Ok((h, e)) => Ok((m, path, h, e)),
        }
    }

    /// Reads one request from `s`. Bytes after the body are not read.
    pub fn parse(s: &[u8]) -> (r: Result<Request, ParseError>)
        ensures
            match r {
                Ok(req) => req.wf() && parse_spec(s@) == Ok::<
                    (Method, Seq<u8>, Seq<(Seq<u8>, Seq<u8>)>, Seq<u8>),
                    ParseError,
                >(req.spec_parts()),
                Err(err) => parse_spec(s@) == Err::<
                    (Method, Seq<u8>, Seq<(Seq<u8>, Seq<u8>)>, Seq<u8>),
                    ParseError,
                >(err),
            },
    {
        match Request::parse_head(s) {
            Err(e) => Err(e),
            Ok((m, path, h, e)) => {
                let n = body_len(m, &h);
                if s.len() - e < n {
                    return Err(ParseError::ShortBody);
                }
                let body = copy_range(s, e, e + n);
                assert(body@ =~= s@.subrange(e as int, s@.len() as int).subrange(0, n as int));
                Ok(Request { method: m, path, headers: h, body })
            },
        }
    }

    /// How many body bytes follow the header section `head`, or why the head
    /// does not read as a request.
    pub fn expected_body_len(head: &[u8]) -> (r: Result<usize, ParseError>)
        ensures
            match r {
                Ok(n) => head_spec(head@) is Ok && n == body_len_spec(
                    head_spec(head@).unwrap().0,
                    head_spec(head@).unwrap().2,
                ),
                Err(err) => head_spec(head@) == Err::<
                    (Method, Seq<u8>, Seq<(Seq<u8>, Seq<u8>)>, Seq<u8>),
                    ParseError,
                >(err),
            },
    {
        match Request::parse_head(head) {
            Err(e) => Err(e),
            Ok((m, _path, h, _e)) => Ok(body_len(m, &h)),
        }
    }

    /// The comma-separated items of the `Accept-Encoding` field, untrimmed;
    /// none when the field is absent.
    pub fn supported_encodings(&self) -> (r: Vec<Vec<u8>>)
        ensures
            views(r@) == match lookup(self.headers@, accept_encoding_name()) {
                Some(v) => split_commas(v),
                None => Seq::<Seq<u8>>::empty(),
            },
    {
        let name: [u8; 15] = [65, 99, 99, 101, 112, 116, 45, 69, 110, 99, 111, 100, 105, 110, 103];
        assert(name@ =~= accept_encoding_name());
        match self.headers.get(name.as_slice()) {
            Some(v) => split_on_commas(v.as_slice()),
            None => {
                let r: Vec<Vec<u8>> = Vec::new();
                assert(views(r@) =~= Seq::<Seq<u8>>::empty());
                r
            },
        }
    }
}

/// How many body bytes a request with method `m` and fields `h` carries.
pub fn body_len(m: Method, h: &Headers) -> (r: usize)
    ensures
        r == body_len_spec(m, h@),
{
    if !m.has_body() {
        return 0;
    }
    let name: [u8; 14] = [67, 111, 110, 116, 101, 110, 116, 45, 76, 101, 110, 103, 116, 104];
    assert(name@ =~= content_length_name());
    match h.get(name.as_slice()) {
        Some(v) => match parse_usize_bytes(v.as_slice()) {
            Some(n) => n,
            None => 0,
        },
        None => 0,
    }
}

/// A request line that is not exactly three words ends the exchange: the
/// input does not read as a request, whatever follows it.
pub proof fn lemma_bad_request_line(s: Seq<u8>)
    requires
        tokens(s.subrange(0, line_len(s) as int)).len() != 3,
    ensures
        parse_spec(s) == Err::<(Method, Seq<u8>, Seq<(Seq<u8>, Seq<u8>)>, Seq<u8>), ParseError>(
            ParseError::BadRequestLine,
        ),
{
}

} // verus!
