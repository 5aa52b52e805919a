//! Header fields: a list of name/value pairs with distinct names, where
//! setting a name again replaces its value in place.
use vstd::prelude::*;
use crate::bytes::bytes_eq;
use crate::bytes::copy_range;

verus! {

/// Position of the first entry named `k` in `es`; `es.len()` when there is none.
pub open spec fn key_pos(es: Seq<(Seq<u8>, Seq<u8>)>, k: Seq<u8>) -> nat
    decreases es.len(),
{
    if es.len() == 0 {
        0
    } else if es[0].0 == k {
        0
    } else {
        1 + key_pos(es.drop_first(), k)
    }
}

/// The value that `es` gives to the name `k`.
pub open spec fn lookup(es: Seq<(Seq<u8>, Seq<u8>)>, k: Seq<u8>) -> Option<Seq<u8>> {
    if key_pos(es, k) < es.len() {
        Some(es[key_pos(es, k) as int].1)
    } else {
        None
    }
}

/// `es` with `k` set to `v`: the entry of that name replaced where it
/// stands, or a new entry at the end.
pub open spec fn put(es: Seq<(Seq<u8>, Seq<u8>)>, k: Seq<u8>, v: Seq<u8>) -> Seq<(Seq<u8>, Seq<u8>)> {
    if key_pos(es, k) < es.len() {
        es.update(key_pos(es, k) as int, (k, v))
    } else {
        es.push((k, v))
    }
}

pub open spec fn unique_keys(es: Seq<(Seq<u8>, Seq<u8>)>) -> bool {
    forall|i: int, j: int| 0 <= i < j < es.len() ==> es[i].0 != es[j].0
}

pub proof fn lemma_key_pos_skip(es: Seq<(Seq<u8>, Seq<u8>)>, k: Seq<u8>, i: int)
    requires
        0 <= i <= es.len(),
        forall|j: int| 0 <= j < i ==> (#[trigger] es[j]).0 != k,
    ensures
        key_pos(es, k) == i + key_pos(es.subrange(i, es.len() as int), k),
    decreases i,
{
    if i > 0 {
        lemma_key_pos_skip(es.drop_first(), k, i - 1);
        assert(es.drop_first().subrange(i - 1, es.drop_first().len() as int) =~= es.subrange(
            i,
            es.len() as int,
        ));
    } else {
        assert(es.subrange(0, es.len() as int) =~= es);
    }
}

pub proof fn lemma_key_pos_bound(es: Seq<(Seq<u8>, Seq<u8>)>, k: Seq<u8>)
    ensures
        key_pos(es, k) <= es.len(),
        key_pos(es, k) < es.len() ==> es[key_pos(es, k) as int].0 == k,
        forall|j: int| 0 <= j < key_pos(es, k) ==> (#[trigger] es[j]).0 != k,
    decreases es.len(),
{
    if es.len() > 0 && es[0].0 != k {
        lemma_key_pos_bound(es.drop_first(), k);
        assert forall|j: int| 0 <= j < key_pos(es, k) implies (#[trigger] es[j]).0 != k by {
            if j > 0 {
                assert(es[j] == es.drop_first()[j - 1]);
            }
        }
    }
}

/// Keys stay distinct when a name is set.
pub proof fn lemma_put_unique(es: Seq<(Seq<u8>, Seq<u8>)>, k: Seq<u8>, v: Seq<u8>)
    requires
        unique_keys(es),
    ensures
        unique_keys(put(es, k, v)),
        lookup(put(es, k, v), k) == Some(v),
        forall|k2: Seq<u8>| k2 != k ==> lookup(put(es, k, v), k2) == lookup(es, k2),
{
    lemma_key_pos_bound(es, k);
    let r = put(es, k, v);
    lemma_key_pos_bound(r, k);
    assert(key_pos(r, k) == key_pos(es, k)) by {
        lemma_key_pos_skip(r, k, key_pos(es, k) as int);
    }
    assert forall|k2: Seq<u8>| k2 != k implies lookup(r, k2) == lookup(es, k2) by {
        lemma_key_pos_bound(es, k2);
        lemma_key_pos_bound(r, k2);
        let p = key_pos(es, k2);
        if p < es.len() {
            assert(r[p as int].0 == k2);
            lemma_key_pos_skip(r, k2, p as int);
            assert(key_pos(r.subrange(p as int, r.len() as int), k2) == 0);
        } else {
            lemma_key_pos_skip(r, k2, es.len() as int);
            if key_pos(es, k) == es.len() {
                assert(r.subrange(es.len() as int, r.len() as int) =~= seq![(k, v)]);
                assert(seq![(k, v)].drop_first() =~= Seq::<(Seq<u8>, Seq<u8>)>::empty());
            } else {
                assert(r.subrange(es.len() as int, r.len() as int) =~= Seq::<
                    (Seq<u8>, Seq<u8>),
                >::empty());
            }
        }
    }
}

/// Header fields with distinct names, kept in the order they were first set.
pub struct Headers {
    pub entries: Vec<(Vec<u8>, Vec<u8>)>,
}

impl View for Headers {
    type V = Seq<(Seq<u8>, Seq<u8>)>;

    open spec fn view(&self) -> Seq<(Seq<u8>, Seq<u8>)> {
        self.entries@.map_values(|e: (Vec<u8>, Vec<u8>)| (e.0@, e.1@))
    }
}

impl Headers {
    pub open spec fn wf(&self) -> bool {
        unique_keys(self@)
    }

    /// No header fields.
    pub fn new() -> (r: Headers)
        ensures
            r@ == Seq::<(Seq<u8>, Seq<u8>)>::empty(),
            r.wf(),
    {
        let r = Headers { entries: Vec::new() };
        assert(r@ =~= Seq::<(Seq<u8>, Seq<u8>)>::empty());
        r
    }

    pub fn len(&self) -> (r: usize)
        ensures
            r == self@.len(),
    {
        self.entries.len()
    }

    /// Index of the field named `name`, if there is one.
    pub fn position(&self, name: &[u8]) -> (r: Option<usize>)
        ensures
            match r {
                Some(i) => key_pos(self@, name@) == i && i < self@.len(),
                None => key_pos(self@, name@) == self@.len(),
            },
    {
        let mut i: usize = 0;
        while i < self.entries.len()
            invariant
                i <= self@.len(),
                self@.len() == self.entries@.len(),
                forall|j: int| 0 <= j < i ==> (#[trigger] self@[j]).0 != name@,
            decreases self@.len() - i,
        {
            if bytes_eq(self.entries[i].0.as_slice(), name) {
                proof {
                    lemma_key_pos_skip(self@, name@, i as int);
                    assert(self@.subrange(i as int, self@.len() as int)[0].0 == name@);
                }
                return Some(i);
            }
            i = i + 1;
        }
        proof {
            lemma_key_pos_skip(self@, name@, i as int);
        }
        None
    }

    /// The value of the field named `name`, if there is one.
    pub fn get(&self, name: &[u8]) -> (r: Option<Vec<u8>>)
        ensures
            match r {
                Some(v) => lookup(self@, name@) == Some(v@),
                None => lookup(self@, name@) is None,
            },
    {
        match self.position(name) {
            Some(i) => {
                let v = &self.entries[i].1;
                let c = copy_range(v.as_slice(), 0, v.len());
                assert(c@ =~= v@);
                Some(c)
            },
            None => None,
        }
    }

    /// Sets the field `name` to `value`, replacing an earlier value.
    pub fn insert(&mut self, name: &[u8], value: &[u8])
        requires
            old(self).wf(),
        ensures
            final(self)@ == put(old(self)@, name@, value@),
            final(self).wf(),
    {
        let n = copy_range(name, 0, name.len());
        let v = copy_range(value, 0, value.len());
        assert(n@ =~= name@);
        assert(v@ =~= value@);
        proof {
            lemma_put_unique(self@, name@, value@);
        }
        let ghost pre = self@;
        let ghost pre_entries = self.entries@;
        match self.position(name) {
            Some(i) => {
                self.entries.set(i, (n, v));
                assert(self.entries@ == pre_entries.update(i as int, (n, v)));
                assert(self@ =~= put(pre, name@, value@));
            },
            None => {
                self.entries.push((n, v));
                assert(self.entries@ == pre_entries.push((n, v)));
                assert(self@ =~= put(pre, name@, value@));
            },
        }
    }
}

} // verus!
