//! Reading a response back from its bytes, and the fact that this gives
//! back what was put into the builder.
use vstd::prelude::*;
use crate::bytes::{
    all_digits, copy_range, dec, digits_val, is_digit, is_ws, lemma_line_len_skip, lemma_sep_skip,
    lemma_trim_end_skip, lemma_trim_start_skip, line_end, line_len, parse_usize,
    parse_usize_bytes, sep_at, sep_index, split_sep, starts_with, trim, trim_end, trim_start,
};
use crate::headers::{key_pos, lemma_key_pos_bound, lemma_put_unique, lookup, put, unique_keys, Headers};
use crate::request::{content_length_name, crlf, headers_spec, lemma_line_len_bound, Request};
use crate::response::{
    content_length_prefix, header_line, header_lines, http_version, reason, serialize,
    status_line, valid_status,
};

verus! {

/// The status code of a status line: `HTTP/1.1`, a space, three digits and
/// a space.
pub open spec fn status_of_line(line: Seq<u8>) -> Option<u16> {
    if line.len() >= 13 && line.subrange(0, 9) == http_version() + seq![32u8] && all_digits(
        line.subrange(9, 12),
    ) && line[12] == 32 {
        Some(digits_val(line.subrange(9, 12)) as u16)
    } else {
        None
    }
}

/// What the bytes `s` read as when taken as a response: status code, header
/// fields, and a body of `Content-Length` bytes (none where the field is
/// missing or not a number).
pub open spec fn response_spec(s: Seq<u8>) -> Option<(u16, Seq<(Seq<u8>, Seq<u8>)>, Seq<u8>)> {
    let n = line_len(s);
    match status_of_line(s.subrange(0, n as int)) {
        None => None,
        Some(code) => match headers_spec(s.subrange(n as int, s.len() as int), seq![]) {
            Err(_) => None,
            Ok((h, rest)) => {
                let k = match lookup(h, content_length_name()) {
                    Some(v) => match parse_usize(v) {
                        Some(k) => k,
                        None => 0,
                    },
                    None => 0,
                };
                if rest.len() < k {
                    None
                } else {
                    Some((code, h, rest.subrange(0, k as int)))
                }
            },
        },
    }
}

pub proof fn lemma_digits_push(x: Seq<u8>, b: u8)
    ensures
        digits_val(x.push(b)) == digits_val(x) * 10 + (b - 48) as nat,
{
    assert(x.push(b).drop_last() =~= x);
}

fn status_code(line: &[u8]) -> (r: Option<u16>)
    ensures
        r == status_of_line(line@),
{
    let pre: [u8; 9] = [72, 84, 84, 80, 47, 49, 46, 49, 32];
    assert(pre@ =~= http_version() + seq![32u8]);
    if line.len() < 13 || !starts_with(line, pre.as_slice()) || line[12] != 32 {
        return None;
    }
    let ghost d = line@.subrange(9, 12);
    let (a, b, c) = (line[9], line[10], line[11]);
    assert(d[0] == a && d[1] == b && d[2] == c);
    if a < 48 || a > 57 || b < 48 || b > 57 || c < 48 || c > 57 {
        proof {
            if all_digits(d) {
                assert(is_digit(d[0]) && is_digit(d[1]) && is_digit(d[2]));
            }
        }
        return None;
    }
    proof {
        let e = Seq::<u8>::empty();
        assert(d =~= e.push(a).push(b).push(c));
        lemma_digits_push(e, a);
        lemma_digits_push(e.push(a), b);
        lemma_digits_push(e.push(a).push(b), c);
        assert(digits_val(e) == 0);
        assert(digits_val(d) == ((a - 48) as nat * 10 + (b - 48) as nat) * 10 + (c - 48) as nat);
        assert forall|i: int| 0 <= i < d.len() implies is_digit(#[trigger] d[i]) by {
            assert(i == 0 || i == 1 || i == 2);
        }
    }
    let v: u16 = ((a - 48) as u16) * 100 + ((b - 48) as u16) * 10 + (c - 48) as u16;
    Some(v)
}

/// Reads the bytes of a response back into status, header fields and body.
pub fn parse_response(s: &[u8]) -> (r: Option<(u16, Headers, Vec<u8>)>)
    ensures
        match r {
            Some((code, h, b)) => response_spec(s@) == Some((code, h@, b@)),
            None => response_spec(s@) is None,
        },
{
    let n = line_end(s, 0);
    assert(s@.subrange(0, s@.len() as int) =~= s@);
    let line = copy_range(s, 0, n);
    let code = match status_code(line.as_slice()) {
        Some(c) => c,
        None => {
            return None;
        },
    };
    let (h, e) = match Request::parse_headers(s, n) {
        Ok(x) => x,
        Err(_) => {
            return None;
        },
    };
    let cl: [u8; 14] = [67, 111, 110, 116, 101, 110, 116, 45, 76, 101, 110, 103, 116, 104];
    assert(cl@ =~= content_length_name());
    let k: usize = match h.get(cl.as_slice()) {
        Some(v) => match parse_usize_bytes(v.as_slice()) {
            Some(k) => k,
            None => 0,
        },
        None => 0,
    };
    if s.len() - e < k {
        return None;
    }
    let body = copy_range(s, e, e + k);
    assert(body@ =~= s@.subrange(e as int, s@.len() as int).subrange(0, k as int));
    Some((code, h, body))
}

/// `s` holds no line feed.
pub open spec fn no_nl(s: Seq<u8>) -> bool {
    forall|j: int| 0 <= j < s.len() ==> #[trigger] s[j] != 10
}

/// A header field that reads back as it was written: no line feed in it,
/// no `": "` in its name, and no whitespace at either end of its value.
pub open spec fn field_ok(e: (Seq<u8>, Seq<u8>)) -> bool {
    &&& no_nl(e.0)
    &&& no_nl(e.1)
    &&& sep_index(e.0) is None
    &&& (e.1.len() == 0 || (!is_ws(e.1[0]) && !is_ws(e.1.last())))
}

pub proof fn lemma_first_line(a: Seq<u8>, b: Seq<u8>)
    requires
        a.len() > 0,
        no_nl(a.drop_last()),
        a.last() == 10,
    ensures
        line_len(a + b) == a.len(),
        (a + b).subrange(0, a.len() as int) == a,
        (a + b).subrange(a.len() as int, (a + b).len() as int) == b,
{
    let s = a + b;
    let i = a.len() - 1;
    assert forall|j: int| 0 <= j < i implies #[trigger] s[j] != 10 by {
        assert(s[j] == a.drop_last()[j]);
    }
    lemma_line_len_skip(s, i);
    assert(s.subrange(i, s.len() as int)[0] == 10);
    assert(s.subrange(0, a.len() as int) =~= a);
    assert(s.subrange(a.len() as int, s.len() as int) =~= b);
}

pub proof fn lemma_sep_some(s: Seq<u8>, j: int)
    requires
        sep_at(s, j),
    ensures
        sep_index(s) is Some,
    decreases j,
{
    if j > 0 && !(s[0] == 58 && s[1] == 32) {
        assert(sep_at(s.drop_first(), j - 1));
        lemma_sep_some(s.drop_first(), j - 1);
    }
}

pub proof fn lemma_trim_value(v: Seq<u8>)
    requires
        v.len() == 0 || (!is_ws(v[0]) && !is_ws(v.last())),
    ensures
        trim(v + crlf()) == v,
{
    let x = v + crlf();
    lemma_trim_end_skip(x, v.len() as int);
    assert(x.subrange(0, v.len() as int) =~= v);
    if v.len() == 0 {
        lemma_trim_start_skip(x, 2);
        assert(x.subrange(2, 2) =~= Seq::<u8>::empty());
        assert(trim_start(x) =~= Seq::<u8>::empty());
        assert(trim_end(Seq::<u8>::empty()) == Seq::<u8>::empty());
        assert(v =~= Seq::<u8>::empty());
    } else {
        assert(x[0] == v[0]);
        assert(trim_start(x) == x);
        assert(trim_end(v) == v);
    }
}

pub proof fn lemma_one_field(e: (Seq<u8>, Seq<u8>), more: Seq<u8>, acc: Seq<(Seq<u8>, Seq<u8>)>)
    requires
        field_ok(e),
    ensures
        headers_spec(header_line(e) + more, acc) == headers_spec(more, put(acc, e.0, e.1)),
{
    let hl = header_line(e);
    let k = e.0.len() as int;
    let w = e.1.len() as int;
    assert(hl.len() == k + 2 + w + 2);
    assert forall|j: int| 0 <= j < hl.drop_last().len() implies #[trigger] hl.drop_last()[j]
        != 10 by {
        if j < k {
            assert(hl[j] == e.0[j]);
        } else if j < k + 2 {
        } else if j < k + 2 + w {
            assert(hl[j] == e.1[j - k - 2]);
        } else {
            assert(hl[j] == 13);
        }
    }
    lemma_first_line(hl, more);
    let s = hl + more;
    lemma_line_len_bound(s);
    assert forall|j: int| 0 <= j < k implies !#[trigger] sep_at(hl, j) by {
        if sep_at(hl, j) {
            if j + 1 < k {
                assert(sep_at(e.0, j));
                lemma_sep_some(e.0, j);
            } else {
                assert(hl[j + 1] == 58);
            }
        }
    }
    lemma_sep_skip(hl, k);
    assert(hl.subrange(k, hl.len() as int)[0] == 58);
    assert(hl.subrange(k, hl.len() as int)[1] == 32);
    assert(sep_index(hl) == Some(k as nat));
    assert(hl.subrange(0, k) =~= e.0);
    assert(hl.subrange(k + 2, hl.len() as int) =~= e.1 + crlf());
    lemma_trim_value(e.1);
    assert(split_sep(hl) == Some((e.0, e.1 + crlf())));
    assert(hl != crlf()) by {
        assert(hl.len() != crlf().len());
    }
}

pub proof fn lemma_header_lines_front(es: Seq<(Seq<u8>, Seq<u8>)>)
    requires
        es.len() > 0,
    ensures
        header_lines(es) == header_line(es[0]) + header_lines(es.drop_first()),
    decreases es.len(),
{
    if es.len() == 1 {
        assert(es.drop_last() =~= Seq::<(Seq<u8>, Seq<u8>)>::empty());
        assert(es.drop_first() =~= Seq::<(Seq<u8>, Seq<u8>)>::empty());
        assert(header_lines(es) =~= header_line(es[0]) + header_lines(es.drop_first()));
    } else {
        lemma_header_lines_front(es.drop_last());
        assert(es.drop_last().drop_first() =~= es.drop_first().drop_last());
        assert(es.drop_first().last() == es.last());
        assert(header_lines(es) =~= header_line(es[0]) + header_lines(es.drop_first()));
    }
}

pub proof fn lemma_fields_read_back(
    es: Seq<(Seq<u8>, Seq<u8>)>,
    i: int,
    tail: Seq<u8>,
)
    requires
        unique_keys(es),
        forall|j: int| 0 <= j < es.len() ==> field_ok(#[trigger] es[j]),
        0 <= i <= es.len(),
    ensures
        headers_spec(header_lines(es.subrange(i, es.len() as int)) + tail, es.subrange(0, i))
            == headers_spec(tail, es),
    decreases es.len() - i,
{
    let rest = es.subrange(i, es.len() as int);
    if i == es.len() {
        assert(rest =~= Seq::<(Seq<u8>, Seq<u8>)>::empty());
        assert(header_lines(rest) + tail =~= tail);
        assert(es.subrange(0, i) =~= es);
    } else {
        lemma_header_lines_front(rest);
        assert(rest.drop_first() =~= es.subrange(i + 1, es.len() as int));
        let more = header_lines(es.subrange(i + 1, es.len() as int)) + tail;
        assert(header_lines(rest) + tail =~= header_line(es[i]) + more);
        lemma_one_field(es[i], more, es.subrange(0, i));
        let pre = es.subrange(0, i);
        lemma_key_pos_bound(pre, es[i].0);
        if key_pos(pre, es[i].0) < pre.len() {
            assert(pre[key_pos(pre, es[i].0) as int].0 == es[i].0);
        }
        assert(put(pre, es[i].0, es[i].1) =~= es.subrange(0, i + 1));
        lemma_fields_read_back(es, i + 1, tail);
    }
}

pub proof fn lemma_dec_digits(n: nat)
    ensures
        dec(n).len() > 0,
        all_digits(dec(n)),
        digits_val(dec(n)) == n,
        100 <= n < 1000 ==> dec(n).len() == 3,
    decreases n,
{
    if n >= 10 {
        lemma_dec_digits(n / 10);
        let d = dec(n / 10);
        assert(dec(n) == d.push((48 + n % 10) as u8));
        assert(dec(n).drop_last() =~= d);
        lemma_digits_push(d, (48 + n % 10) as u8);
        assert((n / 10) * 10 + n % 10 == n);
        assert forall|i: int| 0 <= i < dec(n).len() implies is_digit(#[trigger] dec(n)[i]) by {
            if i < d.len() {
                assert(dec(n)[i] == d[i]);
            }
        }
        if 100 <= n < 1000 {
            lemma_dec_digits(n / 100);
            assert(n / 10 / 10 == n / 100);
        }
    } else {
        lemma_digits_push(Seq::<u8>::empty(), (48 + n) as u8);
        assert(dec(n) =~= Seq::<u8>::empty().push((48 + n) as u8));
        assert(digits_val(Seq::<u8>::empty()) == 0);
    }
}

pub proof fn lemma_parse_dec(n: nat)
    requires
        n <= usize::MAX,
    ensures
        parse_usize(dec(n)) == Some(n),
{
    lemma_dec_digits(n);
    assert(is_digit(dec(n)[0]));
}

pub proof fn lemma_content_length_tail(es: Seq<(Seq<u8>, Seq<u8>)>, n: nat, body: Seq<u8>)
    ensures
        headers_spec(content_length_prefix() + dec(n) + seq![13u8, 10, 13, 10] + body, es) == Ok::<
            (Seq<(Seq<u8>, Seq<u8>)>, Seq<u8>),
            crate::request::ParseError,
        >((put(es, content_length_name(), dec(n)), body)),
{
    let name = content_length_name();
    let d = dec(n);
    lemma_dec_digits(n);
    assert(is_digit(d[0]) && is_digit(d.last()));
    assert forall|j: int| 0 <= j < d.len() implies #[trigger] d[j] != 10 by {
        assert(is_digit(d[j]));
    }
    assert forall|j: int| 0 <= j < name.len() implies #[trigger] name[j] != 10 && name[j]
        != 32 by {}
    assert forall|j: int| 0 <= j < name.len() implies !#[trigger] sep_at(name, j) by {
        if j + 1 < name.len() {
            assert(name[j + 1] != 32);
        }
    }
    lemma_sep_skip(name, name.len() as int);
    assert(name.subrange(name.len() as int, name.len() as int) =~= Seq::<u8>::empty());
    let e = (name, d);
    assert(field_ok(e));
    let after = crlf() + body;
    assert(content_length_prefix() + d + seq![13u8, 10, 13, 10] + body =~= header_line(e)
        + after);
    lemma_one_field(e, after, es);
    assert(crlf().drop_last() =~= seq![13u8]);
    lemma_first_line(crlf(), body);
    lemma_line_len_bound(after);
}

pub proof fn lemma_status_line(code: u16, rest: Seq<u8>)
    requires
        valid_status(code),
    ensures
        line_len(status_line(code) + rest) == status_line(code).len(),
        (status_line(code) + rest).subrange(0, status_line(code).len() as int) == status_line(
            code,
        ),
        (status_line(code) + rest).subrange(
            status_line(code).len() as int,
            (status_line(code) + rest).len() as int,
        ) == rest,
        status_of_line(status_line(code)) == Some(code),
{
    let sl = status_line(code);
    let d = dec(code as nat);
    let r = reason(code);
    lemma_dec_digits(code as nat);
    assert(d.len() == 3);
    assert forall|j: int| 0 <= j < r.len() implies #[trigger] r[j] != 10 by {}
    assert(sl.len() == 9 + 3 + 1 + r.len() + 2);
    assert forall|j: int| 0 <= j < sl.drop_last().len() implies #[trigger] sl.drop_last()[j]
        != 10 by {
        if 9 <= j < 12 {
            assert(sl[j] == d[j - 9]);
            assert(is_digit(d[j - 9]));
        } else if 13 <= j < 13 + r.len() {
            assert(sl[j] == r[j - 13]);
        }
    }
    lemma_first_line(sl, rest);
    assert(sl.subrange(0, 9) =~= http_version() + seq![32u8]);
    assert(sl.subrange(9, 12) =~= d);
}

/// Serialising a response and reading its bytes back gives the status code,
/// the header fields with `Content-Length` set to the body's length, and the
/// body, for header fields that can be written on a line as they are.
pub proof fn lemma_response_round_trip(
    code: u16,
    es: Seq<(Seq<u8>, Seq<u8>)>,
    body: Seq<u8>,
)
    requires
        valid_status(code),
        unique_keys(es),
        forall|j: int| 0 <= j < es.len() ==> field_ok(#[trigger] es[j]),
        body.len() <= usize::MAX,
    ensures
        response_spec(serialize(code, es, body)) == Some(
            (code, put(es, content_length_name(), dec(body.len())), body),
        ),
{
    let tail = content_length_prefix() + dec(body.len()) + seq![13u8, 10, 13, 10] + body;
    let s = serialize(code, es, body);
    assert(s =~= status_line(code) + (header_lines(es) + tail));
    lemma_status_line(code, header_lines(es) + tail);
    assert(es.subrange(0, es.len() as int) =~= es);
    assert(es.subrange(0, 0) =~= Seq::<(Seq<u8>, Seq<u8>)>::empty());
    lemma_fields_read_back(es, 0, tail);
    lemma_content_length_tail(es, body.len(), body);
    lemma_put_unique(es, content_length_name(), dec(body.len()));
    lemma_parse_dec(body.len());
    assert(body.subrange(0, body.len() as int) =~= body);
}

} // verus!
