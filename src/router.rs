//! Choosing what to do with a request: answer it at once, or read or
//! write a file under the configured root first.
use vstd::prelude::*;
use crate::bytes::{append, bytes_eq, copy_range, starts_with};
use crate::headers::{lookup, put};
use crate::method::Method;
use crate::bytes::dec;
use crate::request::{parse_spec, Request};
use crate::response::{content_length_prefix, header_lines, serialize, status_line, with_own_headers, Response};

verus! {

/// Settings fixed at start-up and shared by all connections.
pub struct Config {
    pub address: Vec<u8>,
    pub port: u16,
    /// The directory that `/files/` names are resolved in; none disables
    /// that route.
    pub static_files: Option<Vec<u8>>,
}

/// What the router decided, in terms of values.
pub enum Outcome {
    /// Answer with this status, these header fields and this body.
    Reply(u16, Seq<(Seq<u8>, Seq<u8>)>, Seq<u8>),
    /// Read the file at this path, then answer by `after_read`.
    ReadFile(Seq<u8>),
    /// Write these bytes to the file at this path, then answer by `after_write`.
    WriteFile(Seq<u8>, Seq<u8>),
}

/// What the router decided.
pub enum Action {
    Reply(Response),
    ReadFile(Vec<u8>),
    WriteFile(Vec<u8>, Vec<u8>),
}

impl Action {
    pub open spec fn spec_outcome(&self) -> Outcome {
        match self {
            Action::Reply(r) => Outcome::Reply(r.status, r.headers@, r.body@),
            Action::ReadFile(p) => Outcome::ReadFile(p@),
            Action::WriteFile(p, b) => Outcome::WriteFile(p@, b@),
        }
    }

    pub open spec fn wf(&self) -> bool {
        match self {
            Action::Reply(r) => r.wf(),
            _ => true,
        }
    }
}

/// How reading a file went.
pub enum FileRead {
    /// There is no file at the path.
    Missing,
    /// The file holds these bytes.
    Contents(Vec<u8>),
    /// The file exists but could not be read; the text says why.
    Failed(Vec<u8>),
}

pub open spec fn root_path() -> Seq<u8> {
    seq![47u8]
}

pub open spec fn user_agent_path() -> Seq<u8> {
    seq![47u8, 117, 115, 101, 114, 45, 97, 103, 101, 110, 116]
}

pub open spec fn echo_prefix() -> Seq<u8> {
    seq![47u8, 101, 99, 104, 111, 47]
}

pub open spec fn files_prefix() -> Seq<u8> {
    seq![47u8, 102, 105, 108, 101, 115, 47]
}

pub open spec fn user_agent_name() -> Seq<u8> {
    seq![85u8, 115, 101, 114, 45, 65, 103, 101, 110, 116]
}

pub open spec fn content_type_name() -> Seq<u8> {
    seq![67u8, 111, 110, 116, 101, 110, 116, 45, 84, 121, 112, 101]
}

pub open spec fn text_plain() -> Seq<u8> {
    seq![116u8, 101, 120, 116, 47, 112, 108, 97, 105, 110]
}

pub open spec fn octet_stream() -> Seq<u8> {
    seq![97u8, 112, 112, 108, 105, 99, 97, 116, 105, 111, 110, 47, 111, 99, 116, 101, 116, 45, 115, 116, 114, 101, 97, 109]
}

pub open spec fn read_failure_prefix() -> Seq<u8> {
    seq![102u8, 97, 105, 108, 101, 100, 32, 116, 111, 32, 114, 101, 97, 100, 32, 102, 105, 108, 101, 58, 32]
}

pub open spec fn has_prefix(s: Seq<u8>, p: Seq<u8>) -> bool {
    p.len() <= s.len() && s.subrange(0, p.len() as int) == p
}

/// `s` without its first `n` bytes.
pub open spec fn after(s: Seq<u8>, n: nat) -> Seq<u8> {
    s.subrange(n as int, s.len() as int)
}

/// A single `Content-Type` field.
pub open spec fn typed(t: Seq<u8>) -> Seq<(Seq<u8>, Seq<u8>)> {
    seq![(content_type_name(), t)]
}

/// The route table. A file under `/files/` is named by the root, `/`, and
/// the rest of the path as it stands, without normalisation.
pub open spec fn route_spec(
    m: Method,
    path: Seq<u8>,
    h: Seq<(Seq<u8>, Seq<u8>)>,
    body: Seq<u8>,
    root: Option<Seq<u8>>,
) -> Outcome {
    if path == root_path() {
        Outcome::Reply(200, seq![], seq![])
    } else if path == user_agent_path() {
        Outcome::Reply(
            200,
            typed(text_plain()),
            match lookup(h, user_agent_name()) {
                Some(v) => v,
                None => seq![],
            },
        )
    } else if has_prefix(path, echo_prefix()) {
        Outcome::Reply(200, typed(text_plain()), after(path, echo_prefix().len()))
    } else if has_prefix(path, files_prefix()) {
        match root {
            None => Outcome::Reply(404, seq![], seq![]),
            Some(r) => {
                let file = r + seq![47u8] + after(path, files_prefix().len());
                match m {
                    Method::Get => Outcome::ReadFile(file),
                    Method::Post => Outcome::WriteFile(file, body),
                    Method::Put => Outcome::Reply(400, seq![], seq![]),
                }
            },
        }
    } else {
        Outcome::Reply(404, seq![], seq![])
    }
}

/// The answer once a file has been read, or found missing.
pub open spec fn after_read_spec(
    missing: bool,
    contents: Option<Seq<u8>>,
    failure: Seq<u8>,
) -> Outcome {
    if missing {
        Outcome::Reply(404, seq![], seq![])
    } else {
        match contents {
            Some(b) => Outcome::Reply(200, typed(octet_stream()), b),
            None => Outcome::Reply(500, seq![], read_failure_prefix() + failure),
        }
    }
}

fn typed_reply(body: &[u8], t: &[u8]) -> (r: Response)
    ensures
        r.wf(),
        r.status == 200,
        r.headers@ == typed(t@),
        r.body@ == body@,
{
    let ct: [u8; 12] = [67, 111, 110, 116, 101, 110, 116, 45, 84, 121, 112, 101];
    assert(ct@ =~= content_type_name());
    let r = Response::new().header(ct.as_slice(), t).body(body);
    assert(put(seq![], content_type_name(), t@) =~= typed(t@));
    r
}

fn plain_reply(code: u16) -> (r: Response)
    requires
        code == 200 || code == 201 || code == 400 || code == 404,
    ensures
        r.wf(),
        r.status == code,
        r.headers@ == Seq::<(Seq<u8>, Seq<u8>)>::empty(),
        r.body@ == Seq::<u8>::empty(),
{
    Response::new().status(code)
}

/// Decides what to do with `req` under `config`.
pub fn route(req: &Request, config: &Config) -> (r: Action)
    requires
        req.wf(),
    ensures
        r.wf(),
        r.spec_outcome() == route_spec(
            req.method,
            req.path@,
            req.headers@,
            req.body@,
            match config.static_files {
                Some(d) => Some(d@),
                None => None,
            },
        ),
{
    let path = req.path.as_slice();
    let root: [u8; 1] = [47];
    let ua_path: [u8; 11] = [47, 117, 115, 101, 114, 45, 97, 103, 101, 110, 116];
    let echo: [u8; 6] = [47, 101, 99, 104, 111, 47];
    let files: [u8; 7] = [47, 102, 105, 108, 101, 115, 47];
    assert(root@ =~= root_path());
    assert(ua_path@ =~= user_agent_path());
    assert(echo@ =~= echo_prefix());
    assert(files@ =~= files_prefix());
    if bytes_eq(path, root.as_slice()) {
        return Action::Reply(plain_reply(200));
    }
    let tp: [u8; 10] = [116, 101, 120, 116, 47, 112, 108, 97, 105, 110];
    assert(tp@ =~= text_plain());
    if bytes_eq(path, ua_path.as_slice()) {
        let ua: [u8; 10] = [85, 115, 101, 114, 45, 65, 103, 101, 110, 116];
        assert(ua@ =~= user_agent_name());
        let agent = match req.headers.get(ua.as_slice()) {
            Some(v) => v,
            None => Vec::new(),
        };
        return Action::Reply(typed_reply(agent.as_slice(), tp.as_slice()));
    }
    if starts_with(path, echo.as_slice()) {
        let rest = copy_range(path, 6, path.len());
        return Action::Reply(typed_reply(rest.as_slice(), tp.as_slice()));
    }
    if starts_with(path, files.as_slice()) {
        match &config.static_files {
            None => {
                return Action::Reply(plain_reply(404));
            },
            Some(dir) => {
                let mut file: Vec<u8> = Vec::new();
                append(&mut file, dir.as_slice());
                file.push(47);
                let entity = copy_range(path, 7, path.len());
                append(&mut file, entity.as_slice());
                assert(file@ =~= dir@ + seq![47u8] + after(req.path@, files_prefix().len()));
                return match req.method {
                    Method::Get => Action::ReadFile(file),
                    Method::Post => {
                        let body = copy_range(req.body.as_slice(), 0, req.body.len());
                        assert(body@ =~= req.body@);
                        Action::WriteFile(file, body)
                    },
                    Method::Put => Action::Reply(plain_reply(400)),
                };
            },
        }
    }
    Action::Reply(plain_reply(404))
}

/// The answer to a file read: 404 where the file is missing, its bytes
/// where it was read, 500 with the reason where reading failed.
pub fn after_read(read: FileRead) -> (r: Response)
    ensures
        r.wf(),
        Outcome::Reply(r.status, r.headers@, r.body@) == match read {
            FileRead::Missing => after_read_spec(true, None, seq![]),
            FileRead::Contents(b) => after_read_spec(false, Some(b@), seq![]),
            FileRead::Failed(why) => after_read_spec(false, None, why@),
        },
{
    match read {
        FileRead::Missing => plain_reply(404),
        FileRead::Contents(b) => {
            let os: [u8; 24] = [97, 112, 112, 108, 105, 99, 97, 116, 105, 111, 110, 47, 111, 99, 116, 101, 116, 45, 115, 116, 114, 101, 97, 109];
            assert(os@ =~= octet_stream());
            typed_reply(b.as_slice(), os.as_slice())
        },
        FileRead::Failed(why) => {
            let mut body: Vec<u8> = Vec::new();
            let pre: [u8; 21] = [102, 97, 105, 108, 101, 100, 32, 116, 111, 32, 114, 101, 97, 100, 32, 102, 105, 108, 101, 58, 32];
            assert(pre@ =~= read_failure_prefix());
            append(&mut body, pre.as_slice());
            append(&mut body, why.as_slice());
            Response::new().status(500).body(body.as_slice())
        },
    }
}

/// The answer once a file has been written: 201 with an empty body.
pub fn after_write() -> (r: Response)
    ensures
        r.wf(),
        r.status == 201,
        r.headers@ == Seq::<(Seq<u8>, Seq<u8>)>::empty(),
        r.body@ == Seq::<u8>::empty(),
{
    plain_reply(201)
}

/// A request for `/` is answered 200 with an empty body, whatever its
/// method, fields or body: its bytes end in `Content-Length: 0` and a blank
/// line, with nothing after them.
pub proof fn lemma_root_is_empty_ok(
    m: Method,
    h: Seq<(Seq<u8>, Seq<u8>)>,
    b: Seq<u8>,
    root: Option<Seq<u8>>,
)
    ensures
        route_spec(m, root_path(), h, b, root) == Outcome::Reply(200, seq![], seq![]),
        serialize(200, with_own_headers(seq![], h), seq![]) == status_line(200) + header_lines(
            with_own_headers(seq![], h),
        ) + content_length_prefix() + seq![48u8, 13, 10, 13, 10],
{
    assert(dec(0) == seq![48u8]);
    assert(seq![48u8] + seq![13u8, 10, 13, 10] =~= seq![48u8, 13, 10, 13, 10]);
    assert(serialize(200, with_own_headers(seq![], h), seq![]) =~= status_line(200)
        + header_lines(with_own_headers(seq![], h)) + content_length_prefix() + seq![
        48u8,
        13,
        10,
        13,
        10,
    ]);
}

/// For every string `x`, `/echo/x` is answered 200, as plain text, with
/// `x` itself as the body.
pub proof fn lemma_echo(
    m: Method,
    x: Seq<u8>,
    h: Seq<(Seq<u8>, Seq<u8>)>,
    b: Seq<u8>,
    root: Option<Seq<u8>>,
)
    ensures
        route_spec(m, echo_prefix() + x, h, b, root) == Outcome::Reply(
            200,
            typed(text_plain()),
            x,
        ),
{
    let p = echo_prefix() + x;
    assert(p[1] == 101u8);
    assert(p != root_path());
    assert(user_agent_path()[1] == 117u8);
    assert(p != user_agent_path());
    assert(p.subrange(0, 6) =~= echo_prefix());
    assert(after(p, 6) =~= x);
}

/// `/user-agent` is answered 200, as plain text, with the `User-Agent`
/// value as the body, or an empty body where the field is absent.
pub proof fn lemma_user_agent(
    m: Method,
    h: Seq<(Seq<u8>, Seq<u8>)>,
    b: Seq<u8>,
    root: Option<Seq<u8>>,
)
    ensures
        lookup(h, user_agent_name()) is None ==> route_spec(m, user_agent_path(), h, b, root)
            == Outcome::Reply(200, typed(text_plain()), seq![]),
        forall|v: Seq<u8>|
            lookup(h, user_agent_name()) == Some(v) ==> route_spec(
                m,
                user_agent_path(),
                h,
                b,
                root,
            ) == Outcome::Reply(200, typed(text_plain()), v),
{
    assert(user_agent_path().len() != root_path().len());
}

/// Without a file root, every `/files/` path is answered 404.
pub proof fn lemma_files_need_root(
    m: Method,
    path: Seq<u8>,
    h: Seq<(Seq<u8>, Seq<u8>)>,
    b: Seq<u8>,
)
    requires
        has_prefix(path, files_prefix()),
    ensures
        route_spec(m, path, h, b, None) == Outcome::Reply(404, seq![], seq![]),
{
    assert(path.subrange(0, 7)[1] == path[1]);
    assert(path[1] == 102u8);
    assert(path != root_path());
    assert(user_agent_path()[1] == 117u8);
    assert(path != user_agent_path());
    if has_prefix(path, echo_prefix()) {
        assert(path.subrange(0, 6)[1] == path[1]);
    }
}

/// What a connection sends back for the bytes `s` when no file root is
/// configured; none where `s` does not read as a request.
pub open spec fn unconfigured_answer(s: Seq<u8>) -> Option<Seq<u8>> {
    match parse_spec(s) {
        Ok((m, p, h, b)) => match route_spec(m, p, h, b, None) {
            Outcome::Reply(code, es, body) => Some(serialize(code, with_own_headers(es, h), body)),
            _ => None,
        },
        Err(_) => None,
    }
}

/// Without a file root no request needs the file system: each is answered
/// directly, and the same request bytes always get the same response bytes.
pub proof fn lemma_unconfigured_is_repeatable(s1: Seq<u8>, s2: Seq<u8>)
    requires
        s1 == s2,
        parse_spec(s1) is Ok,
    ensures
        unconfigured_answer(s1) is Some,
        unconfigured_answer(s1) == unconfigured_answer(s2),
{
    let (m, p, h, b) = parse_spec(s1).unwrap();
    if has_prefix(p, files_prefix()) {
        assert(route_spec(m, p, h, b, None) is Reply);
    }
}

/// Under a file root, a POST to a `/files/` path writes its body to the
/// same file that a GET of that path reads, and a read that finds those
/// bytes answers 200 with them as an octet stream.
pub proof fn lemma_post_then_get(
    path: Seq<u8>,
    h1: Seq<(Seq<u8>, Seq<u8>)>,
    body: Seq<u8>,
    h2: Seq<(Seq<u8>, Seq<u8>)>,
    b2: Seq<u8>,
    root: Seq<u8>,
)
    requires
        has_prefix(path, files_prefix()),
    ensures
        ({
            let file = root + seq![47u8] + after(path, files_prefix().len());
            &&& route_spec(Method::Post, path, h1, body, Some(root)) == Outcome::WriteFile(
                file,
                body,
            )
            &&& route_spec(Method::Get, path, h2, b2, Some(root)) == Outcome::ReadFile(file)
            &&& after_read_spec(false, Some(body), seq![]) == Outcome::Reply(
                200,
                typed(octet_stream()),
                body,
            )
        }),
{
    assert(path.subrange(0, 7)[1] == path[1]);
    assert(path[1] == 102u8);
    assert(path != root_path());
    assert(user_agent_path()[1] == 117u8);
    assert(path != user_agent_path());
    if has_prefix(path, echo_prefix()) {
        assert(path.subrange(0, 6)[1] == path[1]);
    }
}

} // verus!
