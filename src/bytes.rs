//! Byte-level building blocks of the wire format: whitespace, lines,
//! tokens, the header separator and decimal numbers.
use vstd::prelude::*;

verus! {

/// ASCII whitespace as `char::is_whitespace` classifies it.
pub open spec fn is_ws(b: u8) -> bool {
    b == 9 || b == 10 || b == 11 || b == 12 || b == 13 || b == 32
}

pub open spec fn is_digit(b: u8) -> bool {
    48 <= b <= 57
}

/// `s` with leading whitespace removed.
pub open spec fn trim_start(s: Seq<u8>) -> Seq<u8>
    decreases s.len(),
{
    if s.len() > 0 && is_ws(s[0]) {
        trim_start(s.drop_first())
    } else {
        s
    }
}

/// `s` with trailing whitespace removed.
pub open spec fn trim_end(s: Seq<u8>) -> Seq<u8>
    decreases s.len(),
{
    if s.len() > 0 && is_ws(s.last()) {
        trim_end(s.drop_last())
    } else {
        s
    }
}

pub open spec fn trim(s: Seq<u8>) -> Seq<u8> {
    trim_end(trim_start(s))
}

/// Length of the first line of `s`, its `\n` included; all of `s` when it
/// holds no `\n`.
pub open spec fn line_len(s: Seq<u8>) -> nat
    decreases s.len(),
{
    if s.len() == 0 {
        0
    } else if s[0] == 10 {
        1
    } else {
        1 + line_len(s.drop_first())
    }
}

/// The whitespace-separated words of `s`, given the word read so far.
pub open spec fn tokens_from(s: Seq<u8>, cur: Seq<u8>) -> Seq<Seq<u8>>
    decreases s.len(),
{
    if s.len() == 0 {
        if cur.len() == 0 {
            seq![]
        } else {
            seq![cur]
        }
    } else if is_ws(s[0]) {
        let done = if cur.len() == 0 {
            Seq::<Seq<u8>>::empty()
        } else {
            seq![cur]
        };
        done + tokens_from(s.drop_first(), seq![])
    } else {
        tokens_from(s.drop_first(), cur.push(s[0]))
    }
}

/// The whitespace-separated words of `s`, in order.
pub open spec fn tokens(s: Seq<u8>) -> Seq<Seq<u8>> {
    tokens_from(s, seq![])
}

/// `": "` starts at index `i` of `s`.
pub open spec fn sep_at(s: Seq<u8>, i: int) -> bool {
    0 <= i && i + 1 < s.len() && s[i] == 58 && s[i + 1] == 32
}

/// Index of the first `": "` in `s`.
pub open spec fn sep_index(s: Seq<u8>) -> Option<nat>
    decreases s.len(),
{
    if s.len() < 2 {
        None
    } else if s[0] == 58 && s[1] == 32 {
        Some(0)
    } else {
        match sep_index(s.drop_first()) {
            Some(k) => Some(k + 1),
            None => None,
        }
    }
}

/// `s` split at its first `": "` into what stands before and after it.
pub open spec fn split_sep(s: Seq<u8>) -> Option<(Seq<u8>, Seq<u8>)> {
    match sep_index(s) {
        Some(i) => Some((s.subrange(0, i as int), s.subrange(i as int + 2, s.len() as int))),
        None => None,
    }
}

/// The value of a string of decimal digits.
pub open spec fn digits_val(s: Seq<u8>) -> nat
    decreases s.len(),
{
    if s.len() == 0 {
        0
    } else {
        digits_val(s.drop_last()) * 10 + (s.last() - 48) as nat
    }
}

pub open spec fn all_digits(s: Seq<u8>) -> bool {
    forall|i: int| 0 <= i < s.len() ==> is_digit(#[trigger] s[i])
}

/// What `str::parse::<usize>` accepts: an optional `+`, then one or more
/// digits whose value fits in `usize`.
pub open spec fn parse_usize(s: Seq<u8>) -> Option<nat> {
    let d = if s.len() > 1 && s[0] == 43 {
        s.drop_first()
    } else {
        s
    };
    if d.len() > 0 && all_digits(d) && digits_val(d) <= usize::MAX {
        Some(digits_val(d))
    } else {
        None
    }
}

/// The decimal digits of `n`, most significant first, without leading zeros.
pub open spec fn dec(n: nat) -> Seq<u8>
    decreases n,
{
    if n < 10 {
        seq![(48 + n) as u8]
    } else {
        dec(n / 10).push((48 + n % 10) as u8)
    }
}

/// A copy of `s[lo..hi]`.
pub fn copy_range(s: &[u8], lo: usize, hi: usize) -> (r: Vec<u8>)
    requires
        lo <= hi <= s@.len(),
    ensures
        r@ == s@.subrange(lo as int, hi as int),
{
    let mut r: Vec<u8> = Vec::new();
    let mut i: usize = lo;
    while i < hi
        invariant
            lo <= i <= hi <= s@.len(),
            r@ == s@.subrange(lo as int, i as int),
        decreases hi - i,
    {
        r.push(s[i]);
        i = i + 1;
        assert(r@ =~= s@.subrange(lo as int, i as int));
    }
    r
}

/// Appends all of `src` to `out`.
pub fn append(out: &mut Vec<u8>, src: &[u8])
    ensures
        final(out)@ == old(out)@ + src@,
{
    let mut i: usize = 0;
    while i < src.len()
        invariant
            i <= src@.len(),
            out@ == old(out)@ + src@.subrange(0, i as int),
        decreases src@.len() - i,
    {
        out.push(src[i]);
        i = i + 1;
        assert(out@ =~= old(out)@ + src@.subrange(0, i as int));
    }
    assert(src@.subrange(0, i as int) =~= src@);
}

/// Appends the decimal digits of `n` to `out`.
pub fn push_dec(out: &mut Vec<u8>, n: usize)
    ensures
        final(out)@ == old(out)@ + dec(n as nat),
    decreases n,
{
    if n >= 10 {
        push_dec(out, n / 10);
    }
    out.push((48 + n % 10) as u8);
    assert(out@ =~= old(out)@ + dec(n as nat));
}

pub proof fn lemma_trim_start_skip(s: Seq<u8>, i: int)
    requires
        0 <= i <= s.len(),
        forall|j: int| 0 <= j < i ==> is_ws(#[trigger] s[j]),
    ensures
        trim_start(s) == trim_start(s.subrange(i, s.len() as int)),
    decreases i,
{
    if i > 0 {
        assert(s.drop_first() =~= s.subrange(1, s.len() as int));
        lemma_trim_start_skip(s.drop_first(), i - 1);
        assert(s.drop_first().subrange(i - 1, s.drop_first().len() as int) =~= s.subrange(
            i,
            s.len() as int,
        ));
    } else {
        assert(s.subrange(0, s.len() as int) =~= s);
    }
}

pub proof fn lemma_trim_end_skip(s: Seq<u8>, k: int)
    requires
        0 <= k <= s.len(),
        forall|j: int| k <= j < s.len() ==> is_ws(#[trigger] s[j]),
    ensures
        trim_end(s) == trim_end(s.subrange(0, k)),
    decreases s.len() - k,
{
    if k < s.len() {
        lemma_trim_end_skip(s.drop_last(), k);
        assert(s.drop_last().subrange(0, k) =~= s.subrange(0, k));
    } else {
        assert(s.subrange(0, k) =~= s);
    }
}

/// A copy of `s` without leading and trailing whitespace.
pub fn trim_bytes(s: &[u8]) -> (r: Vec<u8>)
    ensures
        r@ == trim(s@),
{
    let mut i: usize = 0;
    while i < s.len() && is_ws_byte(s[i])
        invariant
            i <= s@.len(),
            forall|j: int| 0 <= j < i ==> is_ws(#[trigger] s@[j]),
        decreases s@.len() - i,
    {
        i = i + 1;
    }
    proof {
        lemma_trim_start_skip(s@, i as int);
    }
    let ghost t = s@.subrange(i as int, s@.len() as int);
    let mut k: usize = s.len();
    while k > i && is_ws_byte(s[k - 1])
        invariant
            i <= k <= s@.len(),
            t == s@.subrange(i as int, s@.len() as int),
            forall|j: int| k - i <= j < t.len() ==> is_ws(#[trigger] t[j]),
        decreases k,
    {
        k = k - 1;
    }
    proof {
        lemma_trim_end_skip(t, k - i);
        assert(t.subrange(0, k - i) =~= s@.subrange(i as int, k as int));
        if k > i {
            assert(!is_ws(t[0]));
            assert(trim_start(t) == t);
            let u = t.subrange(0, k - i);
            assert(u.last() == s@[k - 1]);
            assert(trim_end(u) == u);
        } else {
            assert(trim_start(t.subrange(0, 0)) == t.subrange(0, 0));
        }
    }
    copy_range(s, i, k)
}

pub fn is_ws_byte(b: u8) -> (r: bool)
    ensures
        r == is_ws(b),
{
    b == 9 || b == 10 || b == 11 || b == 12 || b == 13 || b == 32
}

pub open spec fn views(v: Seq<Vec<u8>>) -> Seq<Seq<u8>> {
    v.map_values(|x: Vec<u8>| x@)
}

pub proof fn lemma_line_len_skip(s: Seq<u8>, i: int)
    requires
        0 <= i <= s.len(),
        forall|j: int| 0 <= j < i ==> #[trigger] s[j] != 10,
    ensures
        line_len(s) == i + line_len(s.subrange(i, s.len() as int)),
    decreases i,
{
    if i > 0 {
        lemma_line_len_skip(s.drop_first(), i - 1);
        assert(s.drop_first().subrange(i - 1, s.drop_first().len() as int) =~= s.subrange(
            i,
            s.len() as int,
        ));
    } else {
        assert(s.subrange(0, s.len() as int) =~= s);
    }
}

/// The index just past the line of `s` that starts at `pos`.
pub fn line_end(s: &[u8], pos: usize) -> (r: usize)
    requires
        pos <= s@.len(),
    ensures
        r == pos + line_len(s@.subrange(pos as int, s@.len() as int)),
        r <= s@.len(),
{
    let ghost t = s@.subrange(pos as int, s@.len() as int);
    let mut i: usize = pos;
    while i < s.len() && s[i] != 10
        invariant
            pos <= i <= s@.len(),
            t == s@.subrange(pos as int, s@.len() as int),
            forall|j: int| 0 <= j < i - pos ==> #[trigger] t[j] != 10,
        decreases s@.len() - i,
    {
        i = i + 1;
    }
    proof {
        lemma_line_len_skip(t, i - pos);
        assert(t.subrange(i - pos, t.len() as int) =~= s@.subrange(i as int, s@.len() as int));
    }
    if i < s.len() {
        i + 1
    } else {
        i
    }
}

pub proof fn lemma_sep_skip(s: Seq<u8>, i: int)
    requires
        0 <= i <= s.len(),
        forall|j: int| 0 <= j < i ==> !#[trigger] sep_at(s, j),
    ensures
        sep_index(s) == match sep_index(s.subrange(i, s.len() as int)) {
            Some(k) => Some((k + i) as nat),
            None => None::<nat>,
        },
    decreases i,
{
    if i > 0 {
        assert(!sep_at(s, 0));
        assert forall|j: int| 0 <= j < i - 1 implies !#[trigger] sep_at(s.drop_first(), j) by {
            assert(!sep_at(s, j + 1));
        }
        lemma_sep_skip(s.drop_first(), i - 1);
        assert(s.drop_first().subrange(i - 1, s.drop_first().len() as int) =~= s.subrange(
            i,
            s.len() as int,
        ));
    } else {
        assert(s.subrange(0, s.len() as int) =~= s);
        match sep_index(s) {
            Some(k) => {},
            None => {},
        }
    }
}

/// Index of the first `": "` in `s`.
pub fn find_sep(s: &[u8]) -> (r: Option<usize>)
    ensures
        match r {
            Some(i) => sep_index(s@) == Some(i as nat) && i + 2 <= s@.len(),
            None => sep_index(s@) is None,
        },
{
    let mut i: usize = 0;
    while i < s.len() && s.len() - i >= 2
        invariant
            i <= s@.len(),
            forall|j: int| 0 <= j < i ==> !#[trigger] sep_at(s@, j),
        decreases s@.len() - i,
    {
        if s[i] == 58 && s[i + 1] == 32 {
            proof {
                lemma_sep_skip(s@, i as int);
            }
            return Some(i);
        }
        i = i + 1;
    }
    proof {
        lemma_sep_skip(s@, i as int);
    }
    None
}

pub proof fn lemma_tokens_step(s: Seq<u8>, i: int, cur: Seq<u8>)
    requires
        0 <= i < s.len(),
    ensures
        ({
            let t = s.subrange(i, s.len() as int);
            let u = s.subrange(i + 1, s.len() as int);
            tokens_from(t, cur) == if is_ws(s[i]) {
                (if cur.len() == 0 {
                    Seq::<Seq<u8>>::empty()
                } else {
                    seq![cur]
                }) + tokens_from(u, seq![])
            } else {
                tokens_from(u, cur.push(s[i]))
            }
        }),
{
    let t = s.subrange(i, s.len() as int);
    assert(t.drop_first() =~= s.subrange(i + 1, s.len() as int));
}

/// The whitespace-separated words of `s`.
pub fn split_words(s: &[u8]) -> (r: Vec<Vec<u8>>)
    ensures
        views(r@) == tokens(s@),
{
    let mut r: Vec<Vec<u8>> = Vec::new();
    let mut cur: Vec<u8> = Vec::new();
    let mut i: usize = 0;
    assert(s@.subrange(0, s@.len() as int) =~= s@);
    assert(views(r@) =~= Seq::<Seq<u8>>::empty());
    assert(views(r@) + tokens(s@) =~= tokens(s@));
    while i < s.len()
        invariant
            i <= s@.len(),
            views(r@) + tokens_from(s@.subrange(i as int, s@.len() as int), cur@) == tokens(s@),
        decreases s@.len() - i,
    {
        proof {
            lemma_tokens_step(s@, i as int, cur@);
        }
        let b = s[i];
        if is_ws_byte(b) {
            if cur.len() > 0 {
                let ghost old_r = r@;
                let w = cur;
                r.push(w);
                cur = Vec::new();
                assert(views(r@) =~= views(old_r) + seq![w@]);
                assert(views(old_r) + (seq![w@] + tokens_from(
                    s@.subrange(i + 1, s@.len() as int),
                    seq![],
                )) =~= views(r@) + tokens_from(s@.subrange(i + 1, s@.len() as int), seq![]));
            } else {
                assert(Seq::<Seq<u8>>::empty() + tokens_from(
                    s@.subrange(i + 1, s@.len() as int),
                    seq![],
                ) =~= tokens_from(s@.subrange(i + 1, s@.len() as int), seq![]));
            }
            assert(cur@ =~= seq![]);
        } else {
            cur.push(b);
        }
        i = i + 1;
    }
    assert(s@.subrange(i as int, s@.len() as int) =~= Seq::<u8>::empty());
    if cur.len() > 0 {
        let ghost old_r = r@;
        r.push(cur);
        assert(views(r@) =~= views(old_r) + seq![cur@]);
    } else {
        assert(views(r@) + Seq::<Seq<u8>>::empty() =~= views(r@));
    }
    r
}

pub proof fn lemma_digits_take(s: Seq<u8>, j: int)
    requires
        0 <= j < s.len(),
    ensures
        digits_val(s.take(j + 1)) == digits_val(s.take(j)) * 10 + (s[j] - 48) as nat,
{
    assert(s.take(j + 1).drop_last() =~= s.take(j));
}

pub proof fn lemma_digits_mono(s: Seq<u8>, j: int)
    requires
        0 <= j <= s.len(),
    ensures
        digits_val(s.take(j)) <= digits_val(s),
    decreases s.len(),
{
    if j < s.len() {
        lemma_digits_mono(s.drop_last(), j);
        assert(s.drop_last().take(j) =~= s.take(j));
    } else {
        assert(s.take(j) =~= s);
    }
}

/// Reads `s` as `str::parse::<usize>` does.
pub fn parse_usize_bytes(s: &[u8]) -> (r: Option<usize>)
    ensures
        match r {
            Some(n) => parse_usize(s@) == Some(n as nat),
            None => parse_usize(s@) is None,
        },
{
    let start: usize = if s.len() > 1 && s[0] == 43 {
        1
    } else {
        0
    };
    let ghost d = s@.subrange(start as int, s@.len() as int);
    assert(start == 1 ==> d =~= s@.drop_first());
    assert(start == 0 ==> d =~= s@);
    if start == s.len() {
        return None;
    }
    let mut acc: usize = 0;
    let mut i: usize = start;
    while i < s.len()
        invariant
            start <= i <= s@.len(),
            d == s@.subrange(start as int, s@.len() as int),
            start == 1 ==> d == s@.drop_first(),
            start == 0 ==> d == s@,
            start == 1 <==> (s@.len() > 1 && s@[0] == 43),
            start <= 1,
            d.len() > 0,
            acc == digits_val(d.take(i - start)),
            all_digits(d.take(i - start)),
        decreases s@.len() - i,
    {
        let b = s[i];
        if b < 48 || b > 57 {
            assert(!is_digit(d[i - start]));
            assert(!all_digits(d));
            assert(parse_usize(s@) is None);
            return None;
        }
        proof {
            lemma_digits_take(d, i - start);
            assert forall|k: int| 0 <= k < i - start + 1 implies is_digit(
                #[trigger] d.take(i - start + 1)[k],
            ) by {
                if k < i - start {
                    assert(d.take(i - start)[k] == d.take(i - start + 1)[k]);
                }
            }
        }
        let dig: usize = (b - 48) as usize;
        if acc > (usize::MAX - dig) / 10 {
            proof {
                assert(acc * 10 + dig > usize::MAX) by (nonlinear_arith)
                    requires
                        acc > (usize::MAX - dig) / 10,
                        dig <= 9,
                ;
                lemma_digits_mono(d, i - start + 1);
                assert(digits_val(d) > usize::MAX);
                assert(parse_usize(s@) is None);
            }
            return None;
        }
        proof {
            assert(acc * 10 + dig <= usize::MAX) by (nonlinear_arith)
                requires
                    acc <= (usize::MAX - dig) / 10,
                    dig <= 9,
            ;
        }
        acc = acc * 10 + dig;
        i = i + 1;
    }
    assert(d.take(i - start) =~= d);
    Some(acc)
}

/// Whether `a` and `b` hold the same bytes.
pub fn bytes_eq(a: &[u8], b: &[u8]) -> (r: bool)
    ensures
        r == (a@ == b@),
{
    if a.len() != b.len() {
        return false;
    }
    let mut i: usize = 0;
    while i < a.len()
        invariant
            i <= a@.len(),
            a@.len() == b@.len(),
            forall|j: int| 0 <= j < i ==> a@[j] == b@[j],
        decreases a@.len() - i,
    {
        if a[i] != b[i] {
            return false;
        }
        i = i + 1;
    }
    assert(a@ =~= b@);
    true
}

/// Whether `s` begins with `p`.
pub fn starts_with(s: &[u8], p: &[u8]) -> (r: bool)
    ensures
        r == (p@.len() <= s@.len() && s@.subrange(0, p@.len() as int) == p@),
{
    if p.len() > s.len() {
        return false;
    }
    let mut i: usize = 0;
    while i < p.len()
        invariant
            i <= p@.len() <= s@.len(),
            forall|j: int| 0 <= j < i ==> s@[j] == p@[j],
        decreases p@.len() - i,
    {
        if s[i] != p[i] {
            assert(s@.subrange(0, p@.len() as int)[i as int] != p@[i as int]);
            return false;
        }
        i = i + 1;
    }
    assert(s@.subrange(0, p@.len() as int) =~= p@);
    true
}

/// The pieces of `s` between commas, given the piece read so far; as
/// `str::split(',')` gives them, empty pieces included.
pub open spec fn split_from(s: Seq<u8>, cur: Seq<u8>) -> Seq<Seq<u8>>
    decreases s.len(),
{
    if s.len() == 0 {
        seq![cur]
    } else if s[0] == 44 {
        seq![cur] + split_from(s.drop_first(), seq![])
    } else {
        split_from(s.drop_first(), cur.push(s[0]))
    }
}

pub open spec fn split_commas(s: Seq<u8>) -> Seq<Seq<u8>> {
    split_from(s, seq![])
}

/// The pieces of `s` between commas.
pub fn split_on_commas(s: &[u8]) -> (r: Vec<Vec<u8>>)
    ensures
        views(r@) == split_commas(s@),
{
    let mut r: Vec<Vec<u8>> = Vec::new();
    let mut cur: Vec<u8> = Vec::new();
    let mut i: usize = 0;
    assert(s@.subrange(0, s@.len() as int) =~= s@);
    assert(views(r@) =~= Seq::<Seq<u8>>::empty());
    assert(views(r@) + split_commas(s@) =~= split_commas(s@));
    while i < s.len()
        invariant
            i <= s@.len(),
            views(r@) + split_from(s@.subrange(i as int, s@.len() as int), cur@) == split_commas(
                s@,
            ),
        decreases s@.len() - i,
    {
        let ghost t = s@.subrange(i as int, s@.len() as int);
        let ghost u = s@.subrange(i + 1, s@.len() as int);
        assert(t.drop_first() =~= u);
        let b = s[i];
        if b == 44 {
            let ghost old_r = r@;
            let w = cur;
            r.push(w);
            cur = Vec::new();
            assert(views(r@) =~= views(old_r) + seq![w@]);
            assert(views(old_r) + (seq![w@] + split_from(u, seq![])) =~= views(r@) + split_from(
                u,
                seq![],
            ));
            assert(cur@ =~= seq![]);
        } else {
            cur.push(b);
        }
        i = i + 1;
    }
    assert(s@.subrange(i as int, s@.len() as int) =~= Seq::<u8>::empty());
    let ghost old_r = r@;
    r.push(cur);
    assert(views(r@) =~= views(old_r) + seq![cur@]);
    r
}

} // verus!
