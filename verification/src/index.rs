//! The secondary indexes and the primary map.
//!
//! Each structure is a vector kept strictly sorted, so an index holds at
//! most one entry per key, iteration order is the key order, and a whole
//! structure is determined by what it contains.

use vstd::prelude::*;
use vstd::utf8::encode_utf8;
use crate::order::{
    bytes_eq_exec, bytes_lt, bytes_lt_exec, lemma_bytes_lt_irrefl, lemma_bytes_lt_total,
    lemma_bytes_lt_trans,
};
use crate::value_record::{RecordV, ValueRecord};

verus! {

broadcast use vstd::std_specs::vec::group_vec_axioms;

/// The mathematical contents of a raw key-entry vector: each key as its
/// UTF-8 bytes, beside the record id it names.
pub open spec fn key_view_of(s: Seq<(String, u128)>) -> Seq<(Seq<u8>, u128)> {
    Seq::new(s.len(), |i: int| (encode_utf8(s[i].0@), s[i].1))
}

/// Keys strictly ascending in lexicographic byte order.
pub open spec fn key_sorted(s: Seq<(Seq<u8>, u128)>) -> bool {
    forall|i: int, j: int|
        0 <= i < j < s.len() ==> bytes_lt(#[trigger] s[i].0, #[trigger] s[j].0)
}

/// The key index: text key, in lexicographic byte order, to record id.
pub struct KeyIndex {
    entries: Vec<(String, u128)>,
}

impl View for KeyIndex {
    type V = Seq<(Seq<u8>, u128)>;

    closed spec fn view(&self) -> Seq<(Seq<u8>, u128)> {
        key_view_of(self.entries@)
    }
}

impl KeyIndex {
    /// The index's own invariant: strictly sorted, hence one id per key.
    pub open spec fn wf(self) -> bool {
        key_sorted(self@)
    }

    /// A key names at most one id.
    pub proof fn lemma_key_unique(self, k: Seq<u8>, a: u128, b: u128)
        requires
            self.wf(),
            self@.contains((k, a)),
            self@.contains((k, b)),
        ensures
            a == b,
    {
        let i = choose|i: int| 0 <= i < self@.len() && self@[i] == (k, a);
        let j = choose|j: int| 0 <= j < self@.len() && self@[j] == (k, b);
        lemma_bytes_lt_irrefl(k);
        if i < j {
            assert(bytes_lt(self@[i].0, self@[j].0));
        } else if j < i {
            assert(bytes_lt(self@[j].0, self@[i].0));
        }
        assert(i == j);
    }

    pub fn new() -> (r: KeyIndex)
        ensures
            r@ =~= Seq::<(Seq<u8>, u128)>::empty(),
            r.wf(),
    {
        KeyIndex { entries: Vec::new() }
    }

    /// Wraps a vector whose keys are already strictly ascending.
    pub fn from_sorted(entries: Vec<(String, u128)>) -> (r: KeyIndex)
        requires
            key_sorted(key_view_of(entries@)),
        ensures
            r@ == key_view_of(entries@),
            r.wf(),
    {
        KeyIndex { entries }
    }

    pub fn len(&self) -> (r: usize)
        ensures
            r == self@.len(),
    {
        self.entries.len()
    }

    /// The key at position `i`, as text; its bytes are the view's key.
    pub fn key_at(&self, i: usize) -> (r: &String)
        requires
            i < self@.len(),
        ensures
            encode_utf8(r@) == self@[i as int].0,
    {
        &self.entries[i].0
    }

    /// The id at position `i`.
    pub fn id_at(&self, i: usize) -> (r: u128)
        requires
            i < self@.len(),
        ensures
            r == self@[i as int].1,
    {
        self.entries[i].1
    }

    /// The id under `key`, if the key is present.
    pub fn get(&self, key: &str) -> (r: Option<u128>)
        requires
            self.wf(),
        ensures
            match r {
                Some(id) => self@.contains((encode_utf8(key@), id)),
                None => forall|i: int|
                    0 <= i < self@.len() ==> (#[trigger] self@[i]).0 != encode_utf8(key@),
            },
    {
        let kb: &[u8] = key.as_bytes();
        let n: usize = self.entries.len();
        let mut i: usize = 0;
        while i < n
            invariant
                n == self@.len(),
                i <= n,
                kb@ == encode_utf8(key@),
                forall|j: int| 0 <= j < i ==> (#[trigger] self@[j]).0 != kb@,
            decreases n - i,
        {
            if bytes_eq_exec(self.entries[i].0.as_str().as_bytes(), kb) {
                let id: u128 = self.entries[i].1;
                proof {
                    assert(self@[i as int] == (kb@, id));
                    assert(self@.contains((kb@, id)));
                }
                return Some(id);
            }
            i = i + 1;
        }
        None
    }

    /// Installs `key -> id`; the key must be fresh.
    pub fn insert(&mut self, key: String, id: u128)
        requires
            old(self).wf(),
            forall|i: int|
                0 <= i < old(self)@.len() ==> (#[trigger] old(self)@[i]).0 != encode_utf8(key@),
        ensures
            final(self).wf(),
            final(self)@.len() == old(self)@.len() + 1,
            forall|p: (Seq<u8>, u128)|
                #[trigger] final(self)@.contains(p) <==> (old(self)@.contains(p) || p == (
                    encode_utf8(key@),
                    id,
                )),
    {
        let ghost kb = encode_utf8(key@);
        let ghost olds = self@;
        let n: usize = self.entries.len();
        let mut p: usize = 0;
        loop
            invariant
                n == self@.len(),
                p <= n,
                *self == *old(self),
                kb == encode_utf8(key@),
                forall|i: int| 0 <= i < self@.len() ==> (#[trigger] self@[i]).0 != kb,
                forall|j: int| 0 <= j < p ==> bytes_lt((#[trigger] self@[j]).0, kb),
            ensures
                p <= n,
                *self == *old(self),
                forall|j: int| 0 <= j < p ==> bytes_lt((#[trigger] self@[j]).0, kb),
                p < n ==> bytes_lt(kb, self@[p as int].0),
            decreases n - p,
        {
            if p >= n {
                break;
            }
            if !bytes_lt_exec(self.entries[p].0.as_str().as_bytes(), key.as_str().as_bytes()) {
                proof {
                    if !bytes_lt(kb, self@[p as int].0) {
                        lemma_bytes_lt_total(self@[p as int].0, kb);
                        assert((self@[p as int]).0 == encode_utf8(key@));
                        assert(false);
                    }
                }
                break;
            }
            p = p + 1;
        }
        proof {
            // every entry from p on is strictly after the new key
            assert forall|j: int| p <= j < olds.len() implies bytes_lt(
                kb,
                (#[trigger] olds[j]).0,
            ) by {
                if j > p {
                    assert(bytes_lt(olds[p as int].0, olds[j].0));
                    lemma_bytes_lt_trans(kb, olds[p as int].0, olds[j].0);
                }
            }
        }
        self.entries.insert(p, (key, id));
        proof {
            let news = self@;
            assert(news =~= olds.insert(p as int, (kb, id)));
            olds.insert_ensures(p as int, (kb, id));
            assert forall|i: int, j: int| 0 <= i < j < news.len() implies bytes_lt(
                (#[trigger] news[i]).0,
                (#[trigger] news[j]).0,
            ) by {
                if j < p {
                } else if i == p {
                    assert(news[j] == olds[j - 1]);
                } else if j == p {
                } else if i > p {
                    assert(news[i] == olds[i - 1]);
                    assert(news[j] == olds[j - 1]);
                } else {
                    // i < p < j
                    assert(news[j] == olds[j - 1]);
                    if j - 1 == p {
                        // news[j] is the first old entry at or after p
                        lemma_bytes_lt_trans(news[i].0, kb, news[j].0);
                    } else {
                        lemma_bytes_lt_trans(news[i].0, kb, news[j].0);
                    }
                }
            }
            assert forall|q: (Seq<u8>, u128)| #[trigger]
                news.contains(q) implies (olds.contains(q) || q == (kb, id)) by {
                let i = choose|i: int| 0 <= i < news.len() && news[i] == q;
                if i < p {
                    assert(olds[i] == q);
                    assert(olds.contains(q));
                } else if i > p {
                    assert(olds[i - 1] == q);
                    assert(olds.contains(q));
                }
            }
            assert forall|q: (Seq<u8>, u128)| olds.contains(q) || q == (kb, id) implies #[trigger]
                news.contains(q) by {
                if olds.contains(q) {
                    let i = choose|i: int| 0 <= i < olds.len() && olds[i] == q;
                    if i < p {
                        assert(news[i] == q);
                    } else {
                        assert(news[i + 1] == q);
                    }
                    assert(news.contains(q));
                } else {
                    assert(news[p as int] == q);
                    assert(news.contains(q));
                }
            }
        }
    }

    /// Removes the entry under `key`, returning its id if there was one.
    pub fn remove(&mut self, key: &str) -> (r: Option<u128>)
        requires
            old(self).wf(),
        ensures
            final(self).wf(),
            match r {
                Some(id) => {
                    &&& old(self)@.contains((encode_utf8(key@), id))
                    &&& final(self)@.len() == old(self)@.len() - 1
                    &&& forall|p: (Seq<u8>, u128)|
                        #[trigger] final(self)@.contains(p) <==> (old(self)@.contains(p)
                            && p.0 != encode_utf8(key@))
                },
                None => {
                    &&& final(self)@ == old(self)@
                    &&& forall|i: int|
                        0 <= i < old(self)@.len() ==> (#[trigger] old(self)@[i]).0 != encode_utf8(
                            key@,
                        )
                },
            },
    {
        let ghost kb = encode_utf8(key@);
        let ghost olds = self@;
        let n: usize = self.entries.len();
        let mut i: usize = 0;
        while i < n
            invariant
                n == self@.len(),
                i <= n,
                *self == *old(self),
                olds == self@,
                key_sorted(self@),
                kb == encode_utf8(key@),
                forall|j: int| 0 <= j < i ==> (#[trigger] self@[j]).0 != kb,
            decreases n - i,
        {
            if bytes_eq_exec(self.entries[i].0.as_str().as_bytes(), key.as_bytes()) {
                let id: u128 = self.entries[i].1;
                proof {
                    assert(olds[i as int].0 == encode_utf8(self.entries@[i as int].0@));
                    assert(olds[i as int] == (kb, id));
                    assert(olds.contains((kb, id)));
                }
                self.entries.remove(i);
                proof {
                    let news = self@;
                    assert(news =~= olds.remove(i as int));
                    olds.remove_ensures(i as int);
                    lemma_bytes_lt_irrefl(kb);
                    assert forall|a: int, b: int| 0 <= a < b < news.len() implies bytes_lt(
                        (#[trigger] news[a]).0,
                        (#[trigger] news[b]).0,
                    ) by {
                        let a0: int = if a < i { a } else { a + 1 };
                        let b0: int = if b < i { b } else { b + 1 };
                        assert(news[a] == olds[a0]);
                        assert(news[b] == olds[b0]);
                    }
                    assert forall|q: (Seq<u8>, u128)| #[trigger]
                        news.contains(q) implies (olds.contains(q) && q.0 != kb) by {
                        let a = choose|a: int| 0 <= a < news.len() && news[a] == q;
                        let a0: int = if a < i { a } else { a + 1 };
                        assert(olds[a0] == q);
                        assert(olds.contains(q));
                        // q's key differs from kb: olds is sorted and olds[i].0 == kb
                        lemma_bytes_lt_irrefl(kb);
                        if q.0 == kb {
                            assert(a0 != i);
                            if a0 < i {
                                assert(bytes_lt(olds[a0].0, olds[i as int].0));
                            } else {
                                assert(bytes_lt(olds[i as int].0, olds[a0].0));
                            }
                        }
                    }
                    assert forall|q: (Seq<u8>, u128)|
                        olds.contains(q) && q.0 != kb implies #[trigger] news.contains(q) by {
                        let a0 = choose|a0: int| 0 <= a0 < olds.len() && olds[a0] == q;
                        assert(a0 != i);
                        if a0 < i {
                            assert(news[a0] == q);
                        } else {
                            assert(news[a0 - 1] == q);
                        }
                        assert(news.contains(q));
                    }
                }
                return Some(id);
            }
            i = i + 1;
        }
        None
    }


    /// A copy with the same entries.
    pub fn duplicate(&self) -> (r: KeyIndex)
        ensures
            r@ == self@,
    {
        let n: usize = self.entries.len();
        let mut out: Vec<(String, u128)> = Vec::new();
        let mut i: usize = 0;
        while i < n
            invariant
                n == self@.len(),
                n == self.entries@.len(),
                i <= n,
                out@.len() == i,
                key_view_of(out@) == self@.take(i as int),
            decreases n - i,
        {
            let k: String = self.entries[i].0.clone();
            let id: u128 = self.entries[i].1;
            out.push((k, id));
            proof {
                assert(key_view_of(out@) =~= self@.take(i as int + 1));
            }
            i = i + 1;
        }
        proof {
            assert(self@.take(n as int) =~= self@);
        }
        KeyIndex { entries: out }
    }

    /// All ids, in ascending key order.
    pub fn ids(&self) -> (r: Vec<u128>)
        ensures
            r@.len() == self@.len(),
            forall|i: int| 0 <= i < self@.len() ==> r@[i] == (#[trigger] self@[i]).1,
    {
        let n: usize = self.entries.len();
        let mut r: Vec<u128> = Vec::new();
        let mut i: usize = 0;
        while i < n
            invariant
                n == self@.len(),
                i <= n,
                r@.len() == i,
                forall|j: int| 0 <= j < i ==> r@[j] == (#[trigger] self@[j]).1,
            decreases n - i,
        {
            r.push(self.entries[i].1);
            i = i + 1;
        }
        r
    }
}

/// Order on time-index entries: by instant, ties by id. Strict
/// sortedness under this order lets one instant carry several ids while
/// an (instant, id) pair stays unique.
pub open spec fn ts_lt(a: (i64, u128), b: (i64, u128)) -> bool {
    a.0 < b.0 || (a.0 == b.0 && a.1 < b.1)
}

/// Entries strictly ascending by (instant, id).
pub open spec fn ts_sorted(s: Seq<(i64, u128)>) -> bool {
    forall|i: int, j: int| 0 <= i < j < s.len() ==> ts_lt(#[trigger] s[i], #[trigger] s[j])
}

/// A time index: nanosecond instant to record id, ascending, one entry
/// per (instant, id) pair.
pub struct TsIndex {
    entries: Vec<(i64, u128)>,
}

impl View for TsIndex {
    type V = Seq<(i64, u128)>;

    closed spec fn view(&self) -> Seq<(i64, u128)> {
        self.entries@
    }
}

impl TsIndex {
    /// The index's own invariant: strictly sorted by (instant, id).
    pub open spec fn wf(self) -> bool {
        ts_sorted(self@)
    }

    pub fn new() -> (r: TsIndex)
        ensures
            r@ =~= Seq::<(i64, u128)>::empty(),
            r.wf(),
    {
        TsIndex { entries: Vec::new() }
    }

    /// Wraps a vector that is already strictly ascending.
    pub fn from_sorted(entries: Vec<(i64, u128)>) -> (r: TsIndex)
        requires
            ts_sorted(entries@),
        ensures
            r@ == entries@,
            r.wf(),
    {
        TsIndex { entries }
    }

    pub fn len(&self) -> (r: usize)
        ensures
            r == self@.len(),
    {
        self.entries.len()
    }

    /// The entry at position `i`.
    pub fn entry_at(&self, i: usize) -> (r: (i64, u128))
        requires
            i < self@.len(),
        ensures
            r == self@[i as int],
    {
        self.entries[i]
    }

    /// The earliest entry, if the index is not empty.
    pub fn first(&self) -> (r: Option<(i64, u128)>)
        ensures
            match r {
                Some(e) => self@.len() > 0 && e == self@[0],
                None => self@.len() == 0,
            },
    {
        if self.entries.len() == 0 {
            None
        } else {
            Some(self.entries[0])
        }
    }

    /// Whether the pair (instant, id) is filed.
    pub fn contains_pair(&self, t: i64, id: u128) -> (r: bool)
        ensures
            r == self@.contains((t, id)),
    {
        let n: usize = self.entries.len();
        let mut i: usize = 0;
        while i < n
            invariant
                n == self@.len(),
                i <= n,
                forall|j: int| 0 <= j < i ==> #[trigger] self@[j] != (t, id),
            decreases n - i,
        {
            if self.entries[i].0 == t && self.entries[i].1 == id {
                proof {
                    assert(self@[i as int] == (t, id));
                    assert(self@.contains((t, id)));
                }
                return true;
            }
            i = i + 1;
        }
        proof {
            if self@.contains((t, id)) {
                let j = choose|j: int| 0 <= j < self@.len() && self@[j] == (t, id);
                assert(false);
            }
        }
        false
    }

    /// Files the pair (instant, id); the pair must be fresh.
    pub fn insert(&mut self, t: i64, id: u128)
        requires
            old(self).wf(),
            !old(self)@.contains((t, id)),
        ensures
            final(self).wf(),
            final(self)@.len() == old(self)@.len() + 1,
            forall|p: (i64, u128)|
                #[trigger] final(self)@.contains(p) <==> (old(self)@.contains(p) || p == (t, id)),
    {
        let ghost olds = self@;
        let n: usize = self.entries.len();
        let mut p: usize = 0;
        loop
            invariant
                n == self@.len(),
                p <= n,
                *self == *old(self),
                !self@.contains((t, id)),
                forall|j: int| 0 <= j < p ==> ts_lt(#[trigger] self@[j], (t, id)),
            ensures
                p <= n,
                *self == *old(self),
                forall|j: int| 0 <= j < p ==> ts_lt(#[trigger] self@[j], (t, id)),
                p < n ==> ts_lt((t, id), self@[p as int]),
            decreases n - p,
        {
            if p >= n {
                break;
            }
            let e: (i64, u128) = self.entries[p];
            if !(e.0 < t || (e.0 == t && e.1 < id)) {
                proof {
                    if self@[p as int] == (t, id) {
                        assert(self@.contains((t, id)));
                        assert(false);
                    }
                }
                break;
            }
            p = p + 1;
        }
        self.entries.insert(p, (t, id));
        proof {
            let news = self@;
            assert(news =~= olds.insert(p as int, (t, id)));
            olds.insert_ensures(p as int, (t, id));
            assert forall|i: int, j: int| 0 <= i < j < news.len() implies ts_lt(
                #[trigger] news[i],
                #[trigger] news[j],
            ) by {
                if i > p {
                    assert(news[i] == olds[i - 1]);
                }
                if j > p {
                    assert(news[j] == olds[j - 1]);
                }
            }
            assert forall|q: (i64, u128)| #[trigger]
                news.contains(q) implies (olds.contains(q) || q == (t, id)) by {
                let i = choose|i: int| 0 <= i < news.len() && news[i] == q;
                if i < p {
                    assert(olds[i] == q);
                    assert(olds.contains(q));
                } else if i > p {
                    assert(olds[i - 1] == q);
                    assert(olds.contains(q));
                }
            }
            assert forall|q: (i64, u128)| olds.contains(q) || q == (t, id) implies #[trigger]
                news.contains(q) by {
                if olds.contains(q) {
                    let i = choose|i: int| 0 <= i < olds.len() && olds[i] == q;
                    if i < p {
                        assert(news[i] == q);
                    } else {
                        assert(news[i + 1] == q);
                    }
                    assert(news.contains(q));
                } else {
                    assert(news[p as int] == q);
                    assert(news.contains(q));
                }
            }
        }
    }

    /// Removes the pair (instant, id) if it is filed.
    pub fn remove(&mut self, t: i64, id: u128) -> (r: bool)
        requires
            old(self).wf(),
        ensures
            final(self).wf(),
            r == old(self)@.contains((t, id)),
            forall|p: (i64, u128)|
                #[trigger] final(self)@.contains(p) <==> (old(self)@.contains(p) && p != (t, id)),
            final(self)@.len() == old(self)@.len() - (if old(self)@.contains((t, id)) {
                1int
            } else {
                0int
            }),
    {
        let ghost olds = self@;
        let n: usize = self.entries.len();
        let mut i: usize = 0;
        while i < n
            invariant
                n == self@.len(),
                i <= n,
                *self == *old(self),
                olds == self@,
                ts_sorted(self@),
                forall|j: int| 0 <= j < i ==> #[trigger] self@[j] != (t, id),
            decreases n - i,
        {
            if self.entries[i].0 == t && self.entries[i].1 == id {
                proof {
                    assert(olds[i as int] == (t, id));
                    assert(olds.contains((t, id)));
                }
                self.entries.remove(i);
                proof {
                    let news = self@;
                    assert(news =~= olds.remove(i as int));
                    olds.remove_ensures(i as int);
                    assert forall|a: int, b: int| 0 <= a < b < news.len() implies ts_lt(
                        #[trigger] news[a],
                        #[trigger] news[b],
                    ) by {
                        let a0: int = if a < i { a } else { a + 1 };
                        let b0: int = if b < i { b } else { b + 1 };
                        assert(news[a] == olds[a0]);
                        assert(news[b] == olds[b0]);
                    }
                    assert forall|q: (i64, u128)| #[trigger]
                        news.contains(q) implies (olds.contains(q) && q != (t, id)) by {
                        let a = choose|a: int| 0 <= a < news.len() && news[a] == q;
                        let a0: int = if a < i { a } else { a + 1 };
                        assert(olds[a0] == q);
                        assert(olds.contains(q));
                        if q == (t, id) {
                            assert(a0 != i);
                            if a0 < i {
                                assert(ts_lt(olds[a0], olds[i as int]));
                            } else {
                                assert(ts_lt(olds[i as int], olds[a0]));
                            }
                        }
                    }
                    assert forall|q: (i64, u128)|
                        olds.contains(q) && q != (t, id) implies #[trigger] news.contains(q) by {
                        let a0 = choose|a0: int| 0 <= a0 < olds.len() && olds[a0] == q;
                        assert(a0 != i);
                        if a0 < i {
                            assert(news[a0] == q);
                        } else {
                            assert(news[a0 - 1] == q);
                        }
                        assert(news.contains(q));
                    }
                }
                return true;
            }
            i = i + 1;
        }
        proof {
            if olds.contains((t, id)) {
                let j = choose|j: int| 0 <= j < olds.len() && olds[j] == (t, id);
                assert(false);
            }
            assert forall|q: (i64, u128)| #[trigger]
                self@.contains(q) implies (olds.contains(q) && q != (t, id)) by {}
        }
        false
    }


    /// A copy with the same entries.
    pub fn duplicate(&self) -> (r: TsIndex)
        ensures
            r@ == self@,
    {
        let n: usize = self.entries.len();
        let mut out: Vec<(i64, u128)> = Vec::new();
        let mut i: usize = 0;
        while i < n
            invariant
                n == self@.len(),
                i <= n,
                out@ == self@.take(i as int),
            decreases n - i,
        {
            out.push(self.entries[i]);
            proof {
                assert(out@ =~= self@.take(i as int + 1));
            }
            i = i + 1;
        }
        proof {
            assert(self@.take(n as int) =~= self@);
        }
        TsIndex { entries: out }
    }

    /// All ids, in ascending (instant, id) order.
    pub fn ids(&self) -> (r: Vec<u128>)
        ensures
            r@.len() == self@.len(),
            forall|i: int| 0 <= i < self@.len() ==> r@[i] == (#[trigger] self@[i]).1,
    {
        let n: usize = self.entries.len();
        let mut r: Vec<u128> = Vec::new();
        let mut i: usize = 0;
        while i < n
            invariant
                n == self@.len(),
                i <= n,
                r@.len() == i,
                forall|j: int| 0 <= j < i ==> r@[j] == (#[trigger] self@[j]).1,
            decreases n - i,
        {
            r.push(self.entries[i].1);
            i = i + 1;
        }
        r
    }
}


/// Two strictly sorted time indexes with the same entries are equal.
pub proof fn lemma_ts_sorted_same_contains(a: Seq<(i64, u128)>, b: Seq<(i64, u128)>)
    requires
        ts_sorted(a),
        ts_sorted(b),
        forall|p: (i64, u128)| a.contains(p) <==> b.contains(p),
    ensures
        a == b,
    decreases a.len(),
{
    if a.len() == 0 {
        if b.len() > 0 {
            assert(b.contains(b[0]));
            let i = choose|i: int| 0 <= i < a.len() && a[i] == b[0];
            assert(false);
        }
        assert(a =~= b);
    } else {
        assert(a.contains(a[0]));
        let j = choose|j: int| 0 <= j < b.len() && b[j] == a[0];
        assert(b.contains(b[0]));
        let i = choose|i: int| 0 <= i < a.len() && a[i] == b[0];
        if i > 0 && j > 0 {
            assert(ts_lt(a[0], a[i]));
            assert(ts_lt(b[0], b[j]));
            assert(false);
        }
        assert(a[0] == b[0]);
        let at = a.subrange(1, a.len() as int);
        let bt = b.subrange(1, b.len() as int);
        assert forall|p: (i64, u128)| at.contains(p) <==> bt.contains(p) by {
            if at.contains(p) {
                let k = choose|k: int| 0 <= k < at.len() && at[k] == p;
                assert(a[k + 1] == p);
                assert(a.contains(p));
                assert(ts_lt(a[0], p));
                let m = choose|m: int| 0 <= m < b.len() && b[m] == p;
                if m == 0 {
                    assert(false);
                }
                assert(bt[m - 1] == p);
                assert(bt.contains(p));
            }
            if bt.contains(p) {
                let k = choose|k: int| 0 <= k < bt.len() && bt[k] == p;
                assert(b[k + 1] == p);
                assert(b.contains(p));
                assert(ts_lt(b[0], p));
                let m = choose|m: int| 0 <= m < a.len() && a[m] == p;
                if m == 0 {
                    assert(false);
                }
                assert(at[m - 1] == p);
                assert(at.contains(p));
            }
        }
        assert(ts_sorted(at)) by {
            assert forall|x: int, y: int| 0 <= x < y < at.len() implies ts_lt(
                #[trigger] at[x],
                #[trigger] at[y],
            ) by {
                assert(at[x] == a[x + 1] && at[y] == a[y + 1]);
            }
        }
        assert(ts_sorted(bt)) by {
            assert forall|x: int, y: int| 0 <= x < y < bt.len() implies ts_lt(
                #[trigger] bt[x],
                #[trigger] bt[y],
            ) by {
                assert(bt[x] == b[x + 1] && bt[y] == b[y + 1]);
            }
        }
        lemma_ts_sorted_same_contains(at, bt);
        assert forall|x: int| 0 <= x < a.len() implies a[x] == b[x] by {
            if x > 0 {
                assert(a[x] == at[x - 1]);
                assert(b[x] == bt[x - 1]);
            }
        }
        assert(a =~= b);
    }
}

/// Record views strictly ascending by id.
pub open spec fn ids_sorted(s: Seq<RecordV>) -> bool {
    forall|i: int, j: int| 0 <= i < j < s.len() ==> (#[trigger] s[i]).id < (#[trigger] s[j]).id
}

/// The mathematical contents of a raw record vector.
pub open spec fn records_view_of(s: Seq<ValueRecord>) -> Seq<RecordV> {
    Seq::new(s.len(), |i: int| s[i]@)
}

/// The primary map: record id to record, ascending by id.
pub struct ValueMap {
    entries: Vec<ValueRecord>,
}

impl View for ValueMap {
    type V = Seq<RecordV>;

    closed spec fn view(&self) -> Seq<RecordV> {
        records_view_of(self.entries@)
    }
}

impl ValueMap {
    /// The map's own invariant: strictly sorted by id, hence one record
    /// per id.
    pub open spec fn wf(self) -> bool {
        ids_sorted(self@)
    }

    /// An id names at most one record.
    pub proof fn lemma_id_unique(self, a: RecordV, b: RecordV)
        requires
            self.wf(),
            self@.contains(a),
            self@.contains(b),
            a.id == b.id,
        ensures
            a == b,
    {
        let i = choose|i: int| 0 <= i < self@.len() && self@[i] == a;
        let j = choose|j: int| 0 <= j < self@.len() && self@[j] == b;
        if i < j {
            assert(self@[i].id < self@[j].id);
        } else if j < i {
            assert(self@[j].id < self@[i].id);
        }
        assert(i == j);
    }

    pub fn new() -> (r: ValueMap)
        ensures
            r@ =~= Seq::<RecordV>::empty(),
            r.wf(),
    {
        ValueMap { entries: Vec::new() }
    }

    /// Wraps a vector that is already strictly ascending by id.
    pub fn from_sorted(entries: Vec<ValueRecord>) -> (r: ValueMap)
        requires
            ids_sorted(records_view_of(entries@)),
        ensures
            r@ == records_view_of(entries@),
            r.wf(),
    {
        ValueMap { entries }
    }

    pub fn len(&self) -> (r: usize)
        ensures
            r == self@.len(),
    {
        self.entries.len()
    }

    /// The record at position `i`.
    pub fn record_at(&self, i: usize) -> (r: &ValueRecord)
        requires
            i < self@.len(),
        ensures
            r@ == self@[i as int],
    {
        &self.entries[i]
    }

    /// The record under `id`, if there is one.
    pub fn get(&self, id: u128) -> (r: Option<&ValueRecord>)
        ensures
            match r {
                Some(rec) => self@.contains(rec@) && rec@.id == id,
                None => forall|j: int| 0 <= j < self@.len() ==> (#[trigger] self@[j]).id != id,
            },
    {
        let n: usize = self.entries.len();
        let mut i: usize = 0;
        while i < n
            invariant
                n == self@.len(),
                i <= n,
                forall|j: int| 0 <= j < i ==> (#[trigger] self@[j]).id != id,
            decreases n - i,
        {
            if self.entries[i].id == id {
                proof {
                    assert(self@.contains(self@[i as int]));
                }
                return Some(&self.entries[i]);
            }
            i = i + 1;
        }
        None
    }

    /// Installs a record under a fresh id.
    pub fn insert_new(&mut self, rec: ValueRecord)
        requires
            old(self).wf(),
            forall|j: int| 0 <= j < old(self)@.len() ==> (#[trigger] old(self)@[j]).id != rec@.id,
        ensures
            final(self).wf(),
            final(self)@.len() == old(self)@.len() + 1,
            forall|q: RecordV|
                #[trigger] final(self)@.contains(q) <==> (old(self)@.contains(q) || q == rec@),
    {
        let ghost olds = self@;
        let ghost newv = rec@;
        let n: usize = self.entries.len();
        let mut p: usize = 0;
        loop
            invariant
                n == self@.len(),
                p <= n,
                *self == *old(self),
                newv == rec@,
                forall|j: int| 0 <= j < self@.len() ==> (#[trigger] self@[j]).id != newv.id,
                forall|j: int| 0 <= j < p ==> (#[trigger] self@[j]).id < newv.id,
            ensures
                p <= n,
                *self == *old(self),
                forall|j: int| 0 <= j < p ==> (#[trigger] self@[j]).id < newv.id,
                p < n ==> newv.id < self@[p as int].id,
            decreases n - p,
        {
            if p >= n {
                break;
            }
            if !(self.entries[p].id < rec.id) {
                proof {
                    if self@[p as int].id == newv.id {
                        assert(false);
                    }
                }
                break;
            }
            p = p + 1;
        }
        self.entries.insert(p, rec);
        proof {
            let news = self@;
            assert(news =~= olds.insert(p as int, newv));
            olds.insert_ensures(p as int, newv);
            assert forall|i: int, j: int| 0 <= i < j < news.len() implies (#[trigger] news[i]).id
                < (#[trigger] news[j]).id by {
                if i > p {
                    assert(news[i] == olds[i - 1]);
                }
                if j > p {
                    assert(news[j] == olds[j - 1]);
                }
            }
            assert forall|q: RecordV| #[trigger]
                news.contains(q) implies (olds.contains(q) || q == newv) by {
                let i = choose|i: int| 0 <= i < news.len() && news[i] == q;
                if i < p {
                    assert(olds[i] == q);
                    assert(olds.contains(q));
                } else if i > p {
                    assert(olds[i - 1] == q);
                    assert(olds.contains(q));
                }
            }
            assert forall|q: RecordV| olds.contains(q) || q == newv implies #[trigger]
                news.contains(q) by {
                if olds.contains(q) {
                    let i = choose|i: int| 0 <= i < olds.len() && olds[i] == q;
                    if i < p {
                        assert(news[i] == q);
                    } else {
                        assert(news[i + 1] == q);
                    }
                    assert(news.contains(q));
                } else {
                    assert(news[p as int] == q);
                    assert(news.contains(q));
                }
            }
        }
    }

    /// Replaces the record whose id is `rec.id`; the id must be present.
    pub fn replace(&mut self, rec: ValueRecord)
        requires
            old(self).wf(),
            exists|j: int| 0 <= j < old(self)@.len() && (#[trigger] old(self)@[j]).id == rec@.id,
        ensures
            final(self).wf(),
            final(self)@.len() == old(self)@.len(),
            forall|q: RecordV|
                #[trigger] final(self)@.contains(q) <==> ((old(self)@.contains(q) && q.id
                    != rec@.id) || q == rec@),
    {
        let ghost olds = self@;
        let ghost newv = rec@;
        let n: usize = self.entries.len();
        let mut i: usize = 0;
        while i < n
            invariant
                n == self@.len(),
                i <= n,
                *self == *old(self),
                olds == self@,
                newv == rec@,
                ids_sorted(self@),
                exists|j: int| 0 <= j < self@.len() && (#[trigger] self@[j]).id == newv.id,
                forall|j: int| 0 <= j < i ==> (#[trigger] self@[j]).id != newv.id,
            decreases n - i,
        {
            if self.entries[i].id == rec.id {
                self.entries.set(i, rec);
                proof {
                    let news = self@;
                    assert(news =~= olds.update(i as int, newv));
                    assert forall|a: int, b: int| 0 <= a < b < news.len() implies (
                    #[trigger] news[a]).id < (#[trigger] news[b]).id by {
                        assert(olds[a].id < olds[b].id);
                    }
                    assert forall|q: RecordV| #[trigger]
                        news.contains(q) implies ((olds.contains(q) && q.id != newv.id) || q
                        == newv) by {
                        let a = choose|a: int| 0 <= a < news.len() && news[a] == q;
                        if a != i {
                            assert(olds[a] == q);
                            assert(olds.contains(q));
                            if q.id == newv.id {
                                if a < i {
                                    assert(olds[a].id < olds[i as int].id);
                                } else {
                                    assert(olds[i as int].id < olds[a].id);
                                }
                            }
                        }
                    }
                    assert forall|q: RecordV|
                        (olds.contains(q) && q.id != newv.id) || q == newv implies #[trigger]
                        news.contains(q) by {
                        if olds.contains(q) && q.id != newv.id {
                            let a = choose|a: int| 0 <= a < olds.len() && olds[a] == q;
                            assert(a != i);
                            assert(news[a] == q);
                            assert(news.contains(q));
                        } else {
                            assert(news[i as int] == q);
                            assert(news.contains(q));
                        }
                    }
                }
                return;
            }
            i = i + 1;
        }
        proof {
            let j = choose|j: int| 0 <= j < self@.len() && (#[trigger] self@[j]).id == newv.id;
            assert(false);
        }
    }


    /// A copy with the same records.
    pub fn duplicate(&self) -> (r: ValueMap)
        ensures
            r@ == self@,
    {
        let n: usize = self.entries.len();
        let mut out: Vec<ValueRecord> = Vec::new();
        let mut i: usize = 0;
        while i < n
            invariant
                n == self@.len(),
                n == self.entries@.len(),
                i <= n,
                out@.len() == i,
                records_view_of(out@) == self@.take(i as int),
            decreases n - i,
        {
            out.push(self.entries[i].clone());
            proof {
                assert(records_view_of(out@) =~= self@.take(i as int + 1));
            }
            i = i + 1;
        }
        proof {
            assert(self@.take(n as int) =~= self@);
        }
        ValueMap { entries: out }
    }

    /// Removes the record under `id`, returning it if there was one.
    pub fn remove(&mut self, id: u128) -> (r: Option<ValueRecord>)
        requires
            old(self).wf(),
        ensures
            final(self).wf(),
            match r {
                Some(rec) => {
                    &&& old(self)@.contains(rec@)
                    &&& rec@.id == id
                    &&& final(self)@.len() == old(self)@.len() - 1
                    &&& forall|q: RecordV|
                        #[trigger] final(self)@.contains(q) <==> (old(self)@.contains(q) && q.id
                            != id)
                },
                None => {
                    &&& final(self)@ == old(self)@
                    &&& forall|j: int|
                        0 <= j < old(self)@.len() ==> (#[trigger] old(self)@[j]).id != id
                },
            },
    {
        let ghost olds = self@;
        let n: usize = self.entries.len();
        let mut i: usize = 0;
        while i < n
            invariant
                n == self@.len(),
                i <= n,
                *self == *old(self),
                olds == self@,
                ids_sorted(self@),
                forall|j: int| 0 <= j < i ==> (#[trigger] self@[j]).id != id,
            decreases n - i,
        {
            if self.entries[i].id == id {
                proof {
                    assert(olds.contains(olds[i as int]));
                }
                let rec: ValueRecord = self.entries.remove(i);
                proof {
                    let news = self@;
                    assert(news =~= olds.remove(i as int));
                    olds.remove_ensures(i as int);
                    assert forall|a: int, b: int| 0 <= a < b < news.len() implies (
                    #[trigger] news[a]).id < (#[trigger] news[b]).id by {
                        let a0: int = if a < i { a } else { a + 1 };
                        let b0: int = if b < i { b } else { b + 1 };
                        assert(news[a] == olds[a0]);
                        assert(news[b] == olds[b0]);
                    }
                    assert forall|q: RecordV| #[trigger]
                        news.contains(q) implies (olds.contains(q) && q.id != id) by {
                        let a = choose|a: int| 0 <= a < news.len() && news[a] == q;
                        let a0: int = if a < i { a } else { a + 1 };
                        assert(olds[a0] == q);
                        assert(olds.contains(q));
                        if q.id == id {
                            assert(a0 != i);
                            if a0 < i {
                                assert(olds[a0].id < olds[i as int].id);
                            } else {
                                assert(olds[i as int].id < olds[a0].id);
                            }
                        }
                    }
                    assert forall|q: RecordV|
                        olds.contains(q) && q.id != id implies #[trigger] news.contains(q) by {
                        let a0 = choose|a0: int| 0 <= a0 < olds.len() && olds[a0] == q;
                        assert(a0 != i);
                        if a0 < i {
                            assert(news[a0] == q);
                        } else {
                            assert(news[a0 - 1] == q);
                        }
                        assert(news.contains(q));
                    }
                }
                return Some(rec);
            }
            i = i + 1;
        }
        None
    }
}


/// Adjacent order implies full order for time entries.
pub proof fn lemma_ts_adjacent_sorted(s: Seq<(i64, u128)>)
    requires
        forall|k: int| 0 <= k < s.len() - 1 ==> ts_lt(#[trigger] s[k], s[k + 1]),
    ensures
        ts_sorted(s),
{
    assert forall|i: int, j: int| 0 <= i < j < s.len() implies ts_lt(
        #[trigger] s[i],
        #[trigger] s[j],
    ) by {
        lemma_ts_chain(s, i, j);
    }
}

proof fn lemma_ts_chain(s: Seq<(i64, u128)>, i: int, j: int)
    requires
        forall|k: int| 0 <= k < s.len() - 1 ==> ts_lt(#[trigger] s[k], s[k + 1]),
        0 <= i < j < s.len(),
    ensures
        ts_lt(s[i], s[j]),
    decreases j - i,
{
    if j == i + 1 {
        assert(ts_lt(s[i], s[i + 1]));
    } else {
        lemma_ts_chain(s, i, j - 1);
        assert(ts_lt(s[j - 1], s[j]));
    }
}

/// Decides [`ts_sorted`] of a raw entry vector.
pub fn check_ts_sorted(v: &Vec<(i64, u128)>) -> (r: bool)
    ensures
        r == ts_sorted(v@),
{
    let n: usize = v.len();
    let m: usize = if n == 0 {
        0
    } else {
        n - 1
    };
    let mut i: usize = 0;
    while i < m
        invariant
            n == v@.len(),
            m == (if n == 0 { 0int } else { n - 1 }),
            i <= m,
            forall|k: int| 0 <= k < i ==> ts_lt(#[trigger] v@[k], v@[k + 1]),
        decreases m - i,
    {
        let a: (i64, u128) = v[i];
        let b: (i64, u128) = v[i + 1];
        if !(a.0 < b.0 || (a.0 == b.0 && a.1 < b.1)) {
            proof {
                if ts_sorted(v@) {
                    assert(ts_lt(v@[i as int], v@[i as int + 1]));
                }
            }
            return false;
        }
        i = i + 1;
    }
    proof {
        lemma_ts_adjacent_sorted(v@);
    }
    true
}

proof fn lemma_key_chain(s: Seq<(Seq<u8>, u128)>, i: int, j: int)
    requires
        forall|k: int| 0 <= k < s.len() - 1 ==> bytes_lt((#[trigger] s[k]).0, s[k + 1].0),
        0 <= i < j < s.len(),
    ensures
        bytes_lt(s[i].0, s[j].0),
    decreases j - i,
{
    if j == i + 1 {
        assert(bytes_lt(s[i].0, s[i + 1].0));
    } else {
        lemma_key_chain(s, i, j - 1);
        assert(bytes_lt(s[j - 1].0, s[j].0));
        lemma_bytes_lt_trans(s[i].0, s[j - 1].0, s[j].0);
    }
}

/// Decides [`key_sorted`] of a raw key-entry vector.
pub fn check_key_sorted(v: &Vec<(String, u128)>) -> (r: bool)
    ensures
        r == key_sorted(key_view_of(v@)),
{
    let ghost s = key_view_of(v@);
    let n: usize = v.len();
    let m: usize = if n == 0 {
        0
    } else {
        n - 1
    };
    let mut i: usize = 0;
    while i < m
        invariant
            n == v@.len(),
            m == (if n == 0 { 0int } else { n - 1 }),
            s == key_view_of(v@),
            s.len() == n,
            i <= m,
            forall|k: int| 0 <= k < i ==> bytes_lt((#[trigger] s[k]).0, s[k + 1].0),
        decreases m - i,
    {
        if !bytes_lt_exec(v[i].0.as_str().as_bytes(), v[i + 1].0.as_str().as_bytes()) {
            proof {
                if key_sorted(s) {
                    assert(bytes_lt(s[i as int].0, s[i as int + 1].0));
                }
            }
            return false;
        }
        i = i + 1;
    }
    proof {
        assert forall|a: int, b: int| 0 <= a < b < s.len() implies bytes_lt(
            (#[trigger] s[a]).0,
            (#[trigger] s[b]).0,
        ) by {
            lemma_key_chain(s, a, b);
        }
    }
    true
}

proof fn lemma_rec_chain(s: Seq<RecordV>, i: int, j: int)
    requires
        forall|k: int| 0 <= k < s.len() - 1 ==> (#[trigger] s[k]).id < s[k + 1].id,
        0 <= i < j < s.len(),
    ensures
        s[i].id < s[j].id,
    decreases j - i,
{
    if j > i + 1 {
        lemma_rec_chain(s, i, j - 1);
        assert(s[j - 1].id < s[j].id);
    } else {
        assert(s[i].id < s[i + 1].id);
    }
}

/// Decides [`ids_sorted`] of a raw record vector.
#[verifier::rlimit(30)]
pub fn check_ids_sorted(v: &Vec<ValueRecord>) -> (r: bool)
    ensures
        r == ids_sorted(records_view_of(v@)),
{
    let ghost s = records_view_of(v@);
    let n: usize = v.len();
    let m: usize = if n == 0 {
        0
    } else {
        n - 1
    };
    let mut i: usize = 0;
    while i < m
        invariant
            n == v@.len(),
            m == (if n == 0 { 0int } else { n - 1 }),
            s == records_view_of(v@),
            s.len() == n,
            i <= m,
            forall|k: int| 0 <= k < i ==> (#[trigger] s[k]).id < s[k + 1].id,
        decreases m - i,
    {
        if !(v[i].id < v[i + 1].id) {
            proof {
                if ids_sorted(s) {
                    assert(s[i as int].id < s[i as int + 1].id);
                }
            }
            return false;
        }
        i = i + 1;
    }
    proof {
        assert forall|a: int, b: int| 0 <= a < b < s.len() implies (#[trigger] s[a]).id < (
        #[trigger] s[b]).id by {
            lemma_rec_chain(s, a, b);
        }
    }
    true
}

/// The four secondary indexes of a store, side by side.
pub struct Index {
    pub key: KeyIndex,
    pub created_at: TsIndex,
    pub updated_at: TsIndex,
    pub delete_at: TsIndex,
}

impl Index {
    pub fn new() -> (r: Index)
        ensures
            r.key@ =~= Seq::<(Seq<u8>, u128)>::empty(),
            r.created_at@ =~= Seq::<(i64, u128)>::empty(),
            r.updated_at@ =~= Seq::<(i64, u128)>::empty(),
            r.delete_at@ =~= Seq::<(i64, u128)>::empty(),
            r.key.wf(),
            r.created_at.wf(),
            r.updated_at.wf(),
            r.delete_at.wf(),
    {
        Index {
            key: KeyIndex::new(),
            created_at: TsIndex::new(),
            updated_at: TsIndex::new(),
            delete_at: TsIndex::new(),
        }
    }
}

} // verus!
