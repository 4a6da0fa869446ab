//! The store engine: CRUD, typed mutations, listing, garbage
//! collection, and snapshot gating.
//!
//! Every operation that reads the clock takes `now`, nanoseconds since
//! the Unix epoch, as an argument. The engine is a plain value; an outer
//! layer may share it behind one exclusive lock.

use vstd::prelude::*;
use vstd::utf8::encode_utf8;
use crate::config::Config;
use crate::error::Error;
use crate::index::{Index, key_sorted, ids_sorted, ts_sorted, KeyIndex, TsIndex, ValueMap};
use crate::stat_record::{sat_add, StatRecord};
use crate::value_record::{
    abs_of, delete_at_of, spec_delete_at, RecordV, ValV, Value, ValueDecrement, ValueIncrement,
    ValuePost, ValuePut, ValueRecord,
};

verus! {

/// Iteration direction of a listing.
#[derive(Clone, Copy, Debug, PartialEq, Eq, Structural)]
pub enum Direction {
    Asc,
    Desc,
}

/// The index a listing walks.
#[derive(Clone, Copy, Debug, PartialEq, Eq, Structural)]
pub enum Sort {
    CreatedAt,
    Key,
    UpdatedAt,
}

/// Relies on `uuid::Uuid::new_v4` for a fresh random identifier,
/// carried as its 128-bit integer form (`Uuid::as_u128`). Nothing is
/// assumed of the draw: the caller checks freshness itself.
#[verifier::external_body]
fn fresh_random_id() -> (r: u128) {
    uuid::Uuid::new_v4().as_u128()
}


/// Key half of the cross-structure invariant, over raw views: every
/// record is filed under its key, and every key entry names a record
/// with that key.
#[verifier::opaque]
pub open spec fn csi_key_of(recs: Seq<RecordV>, keys: Seq<(Seq<u8>, u128)>) -> bool {
    &&& forall|r: RecordV| #[trigger] recs.contains(r) ==> keys.contains((r.key, r.id))
    &&& forall|e: (Seq<u8>, u128)| #[trigger] keys.contains(e) ==> exists|r: RecordV|
        #[trigger] recs.contains(r) && r.id == e.1 && r.key == e.0
}

/// Creation-time half of the cross-structure invariant, over raw views.
#[verifier::opaque]
pub open spec fn csi_created_of(recs: Seq<RecordV>, ts: Seq<(i64, u128)>) -> bool {
    &&& forall|r: RecordV| #[trigger] recs.contains(r) ==> ts.contains((r.created_at, r.id))
    &&& forall|e: (i64, u128)| #[trigger] ts.contains(e) ==> exists|r: RecordV|
        #[trigger] recs.contains(r) && r.id == e.1 && r.created_at == e.0
}

/// Update-time half of the cross-structure invariant, over raw views.
#[verifier::opaque]
pub open spec fn csi_updated_of(recs: Seq<RecordV>, ts: Seq<(i64, u128)>) -> bool {
    &&& forall|r: RecordV| #[trigger] recs.contains(r) ==> ts.contains((r.updated_at, r.id))
    &&& forall|e: (i64, u128)| #[trigger] ts.contains(e) ==> exists|r: RecordV|
        #[trigger] recs.contains(r) && r.id == e.1 && r.updated_at == e.0
}

/// Expiration half of the cross-structure invariant, over raw views: a
/// record stands in the expiration index exactly when it has a
/// time-to-live.
#[verifier::opaque]
pub open spec fn csi_delete_of(recs: Seq<RecordV>, ts: Seq<(i64, u128)>) -> bool {
    &&& forall|r: RecordV| #[trigger] recs.contains(r) ==> (r.delete_at matches Some(d)
        ==> ts.contains((d, r.id)))
    &&& forall|e: (i64, u128)| #[trigger] ts.contains(e) ==> exists|r: RecordV|
        #[trigger] recs.contains(r) && r.id == e.1 && r.delete_at == Some(e.0)
}

/// Every record keeps its own invariant.
pub open spec fn recs_inv_of(recs: Seq<RecordV>) -> bool {
    forall|r: RecordV| #[trigger] recs.contains(r) ==> r.inv()
}

/// The store: one primary map, four secondary indexes, counters, and
/// the access-gate key set.
pub struct Db {
    api_keys: Vec<u128>,
    pub config: Config,
    indexes: Index,
    stats: StatRecord,
    values: ValueMap,
}

impl Db {
    /// The live records, ascending by id.
    pub closed spec fn records(self) -> Seq<RecordV> {
        self.values@
    }

    /// The key index: key bytes to id, ascending by key.
    pub closed spec fn by_key(self) -> Seq<(Seq<u8>, u128)> {
        self.indexes.key@
    }

    /// The creation-time index.
    pub closed spec fn by_created_at(self) -> Seq<(i64, u128)> {
        self.indexes.created_at@
    }

    /// The update-time index.
    pub closed spec fn by_updated_at(self) -> Seq<(i64, u128)> {
        self.indexes.updated_at@
    }

    /// The expiration-time index: only records with a time-to-live.
    pub closed spec fn by_delete_at(self) -> Seq<(i64, u128)> {
        self.indexes.delete_at@
    }

    /// The counters.
    pub closed spec fn spec_stats(self) -> StatRecord {
        self.stats
    }

    /// The access-gate keys.
    pub closed spec fn spec_api_keys(self) -> Seq<u128> {
        self.api_keys@
    }

    /// The configuration, as a spec value.
    pub closed spec fn spec_config(self) -> Config {
        self.config
    }

    /// Some live record holds this id.
    pub open spec fn contains_id(self, id: u128) -> bool {
        exists|r: RecordV| #[trigger] self.records().contains(r) && r.id == id
    }

    /// Some live record holds this key (as UTF-8 bytes).
    pub open spec fn has_key(self, k: Seq<u8>) -> bool {
        exists|r: RecordV| #[trigger] self.records().contains(r) && r.key == k
    }

    /// The live record under this id; meaningful when `contains_id`.
    pub open spec fn rec_of_id(self, id: u128) -> RecordV {
        choose|r: RecordV| #[trigger] self.records().contains(r) && r.id == id
    }

    /// The live record under this key; meaningful when `has_key`.
    pub open spec fn rec_of_key(self, k: Seq<u8>) -> RecordV {
        choose|r: RecordV| #[trigger] self.records().contains(r) && r.key == k
    }

    /// Key half of the cross-structure invariant.
    pub open spec fn csi_key(self) -> bool {
        csi_key_of(self.records(), self.by_key())
    }

    /// Creation-time half of the cross-structure invariant.
    pub open spec fn csi_created(self) -> bool {
        csi_created_of(self.records(), self.by_created_at())
    }

    /// Update-time half of the cross-structure invariant.
    pub open spec fn csi_updated(self) -> bool {
        csi_updated_of(self.records(), self.by_updated_at())
    }

    /// Expiration half of the cross-structure invariant.
    pub open spec fn csi_delete(self) -> bool {
        csi_delete_of(self.records(), self.by_delete_at())
    }

    /// The cross-structure invariant: every live record is filed once in
    /// each index (in the expiration index exactly when it has a
    /// time-to-live), and every index entry names a live record whose
    /// attribute is the entry's key.
    pub open spec fn csi(self) -> bool {
        &&& self.csi_key()
        &&& self.csi_created()
        &&& self.csi_updated()
        &&& self.csi_delete()
    }

    /// Well-formedness of the whole store: each structure strictly
    /// sorted, every record's timestamps ordered, counters consistent,
    /// and the cross-structure invariant.
    pub open spec fn wf(self) -> bool {
        &&& ids_sorted(self.records())
        &&& key_sorted(self.by_key())
        &&& ts_sorted(self.by_created_at())
        &&& ts_sorted(self.by_updated_at())
        &&& ts_sorted(self.by_delete_at())
        &&& forall|r: RecordV| #[trigger] self.records().contains(r) ==> r.inv()
        &&& self.spec_stats().wf()
        &&& self.csi()
    }

    /// The non-record state is untouched: configuration, gate keys.
    pub open spec fn same_surround(self, other: Db) -> bool {
        &&& self.spec_config() == other.spec_config()
        &&& self.spec_api_keys() == other.spec_api_keys()
    }

    /// The stored data is untouched: records and all four indexes.
    pub open spec fn same_data(self, other: Db) -> bool {
        &&& self.records() == other.records()
        &&& self.by_key() == other.by_key()
        &&& self.by_created_at() == other.by_created_at()
        &&& self.by_updated_at() == other.by_updated_at()
        &&& self.by_delete_at() == other.by_delete_at()
    }

    /// Two live records with the same key are the same record.
    pub proof fn lemma_key_determines_record(self, a: RecordV, b: RecordV)
        requires
            self.wf(),
            self.records().contains(a),
            self.records().contains(b),
            a.key == b.key,
        ensures
            a == b,
    {
        reveal(csi_key_of);
        assert(self.by_key().contains((a.key, a.id)));
        assert(self.by_key().contains((b.key, b.id)));
        self.indexes.key.lemma_key_unique(a.key, a.id, b.id);
        self.values.lemma_id_unique(a, b);
    }

    /// Two live records with the same id are the same record.
    pub proof fn lemma_id_determines_record(self, a: RecordV, b: RecordV)
        requires
            self.wf(),
            self.records().contains(a),
            self.records().contains(b),
            a.id == b.id,
        ensures
            a == b,
    {
        self.values.lemma_id_unique(a, b);
    }


    /// No key-index entry holds `k`, so no live record does.
    proof fn lemma_key_absent(self, k: Seq<u8>)
        requires
            self.wf(),
            forall|i: int| 0 <= i < self.by_key().len() ==> (#[trigger] self.by_key()[i]).0 != k,
        ensures
            !self.has_key(k),
    {
        reveal(csi_key_of);
        if self.has_key(k) {
            let w = choose|r: RecordV| #[trigger] self.records().contains(r) && r.key == k;
            assert(self.by_key().contains((w.key, w.id)));
            let i = choose|i: int|
                0 <= i < self.by_key().len() && self.by_key()[i] == (w.key, w.id);
            assert(false);
        }
    }

    /// No record slot holds `id`, so the id is free.
    proof fn lemma_id_absent(self, id: u128)
        requires
            forall|j: int| 0 <= j < self.records().len() ==> (#[trigger] self.records()[j]).id
                != id,
        ensures
            !self.contains_id(id),
    {
        if self.contains_id(id) {
            let w = choose|r: RecordV| #[trigger] self.records().contains(r) && r.id == id;
            let i = choose|i: int| 0 <= i < self.records().len() && self.records()[i] == w;
            assert(false);
        }
    }

    /// A key-index entry names a live record with that key.
    proof fn lemma_key_entry(self, e: (Seq<u8>, u128))
        requires
            self.wf(),
            self.by_key().contains(e),
        ensures
            self.contains_id(e.1),
            self.has_key(e.0),
            self.records().contains(self.rec_of_id(e.1)),
            self.rec_of_id(e.1).id == e.1,
            self.rec_of_id(e.1).key == e.0,
            self.rec_of_key(e.0) == self.rec_of_id(e.1),
    {
        reveal(csi_key_of);
        let w = choose|r: RecordV| #[trigger] self.records().contains(r) && r.id == e.1 && r.key
            == e.0;
        assert(self.contains_id(e.1));
        assert(self.has_key(e.0));
        let a = self.rec_of_id(e.1);
        assert(self.records().contains(a) && a.id == e.1);
        self.lemma_id_determines_record(a, w);
        let b = self.rec_of_key(e.0);
        assert(self.records().contains(b) && b.key == e.0);
        self.lemma_key_determines_record(b, w);
    }

    /// A record is filed in every index it belongs to.
    proof fn lemma_rec_indexed(self, r: RecordV)
        requires
            self.wf(),
            self.records().contains(r),
        ensures
            self.by_key().contains((r.key, r.id)),
            self.by_created_at().contains((r.created_at, r.id)),
            self.by_updated_at().contains((r.updated_at, r.id)),
            r.delete_at matches Some(d) ==> self.by_delete_at().contains((d, r.id)),
    {
        assert(self.by_key().contains((r.key, r.id))) by {
            reveal(csi_key_of);
        }
        assert(self.by_created_at().contains((r.created_at, r.id))) by {
            reveal(csi_created_of);
        }
        assert(self.by_updated_at().contains((r.updated_at, r.id))) by {
            reveal(csi_updated_of);
        }
        assert(r.delete_at matches Some(d) ==> self.by_delete_at().contains((d, r.id))) by {
            reveal(csi_delete_of);
        }
    }

    /// An id no record holds appears in no time index.
    proof fn lemma_id_unindexed(self, id: u128)
        requires
            self.wf(),
            !self.contains_id(id),
        ensures
            forall|t: i64| !self.by_created_at().contains((t, id)),
            forall|t: i64| !self.by_updated_at().contains((t, id)),
            forall|t: i64| !self.by_delete_at().contains((t, id)),
    {
        assert forall|t: i64| !self.by_created_at().contains((t, id)) by {
            reveal(csi_created_of);
            if self.by_created_at().contains((t, id)) {
                let w = choose|r: RecordV| #[trigger] self.records().contains(r) && r.id == id
                    && r.created_at == t;
                assert(self.contains_id(id));
            }
        }
        assert forall|t: i64| !self.by_updated_at().contains((t, id)) by {
            reveal(csi_updated_of);
            if self.by_updated_at().contains((t, id)) {
                let w = choose|r: RecordV| #[trigger] self.records().contains(r) && r.id == id
                    && r.updated_at == t;
                assert(self.contains_id(id));
            }
        }
        assert forall|t: i64| !self.by_delete_at().contains((t, id)) by {
            reveal(csi_delete_of);
            if self.by_delete_at().contains((t, id)) {
                let w = choose|r: RecordV| #[trigger] self.records().contains(r) && r.id == id
                    && r.delete_at == Some(t);
                assert(self.contains_id(id));
            }
        }
    }

    /// Adding one fresh, fully indexed record preserves the
    /// cross-structure invariant.
    proof fn lemma_csi_after_insert(o: Db, f: Db, recv: RecordV)
        requires
            o.wf(),
            recv.inv(),
            forall|q: RecordV|
                #[trigger] f.records().contains(q) <==> (o.records().contains(q) || q == recv),
            forall|p: (Seq<u8>, u128)|
                #[trigger] f.by_key().contains(p) <==> (o.by_key().contains(p) || p == (
                    recv.key,
                    recv.id,
                )),
            forall|p: (i64, u128)|
                #[trigger] f.by_created_at().contains(p) <==> (o.by_created_at().contains(p) || p
                    == (recv.created_at, recv.id)),
            forall|p: (i64, u128)|
                #[trigger] f.by_updated_at().contains(p) <==> (o.by_updated_at().contains(p) || p
                    == (recv.updated_at, recv.id)),
            forall|p: (i64, u128)|
                #[trigger] f.by_delete_at().contains(p) <==> (o.by_delete_at().contains(p) || (
                recv.delete_at matches Some(d) && p == (d, recv.id))),
        ensures
            f.csi(),
            forall|r: RecordV| #[trigger] f.records().contains(r) ==> r.inv(),
    {
        assert forall|q: RecordV| #[trigger] f.records().contains(q) implies q.inv() by {
            if q != recv {
                assert(o.records().contains(q));
            }
        }
        assert(f.csi_key()) by {
            reveal(csi_key_of);
            assert forall|q: RecordV| #[trigger] f.records().contains(q) implies f.by_key()
                .contains((q.key, q.id)) by {
                if q != recv {
                    assert(o.records().contains(q));
                }
            }
            assert forall|e: (Seq<u8>, u128)| #[trigger] f.by_key().contains(e) implies exists|
                r: RecordV,
            | #[trigger] f.records().contains(r) && r.id == e.1 && r.key == e.0 by {
                if e == (recv.key, recv.id) {
                    assert(f.records().contains(recv));
                } else {
                    assert(o.by_key().contains(e));
                    let w = choose|r: RecordV| #[trigger] o.records().contains(r) && r.id == e.1
                        && r.key == e.0;
                    assert(f.records().contains(w));
                }
            }
        }
        assert(f.csi_created()) by {
            reveal(csi_created_of);
            assert forall|q: RecordV| #[trigger] f.records().contains(q) implies f
                .by_created_at().contains((q.created_at, q.id)) by {
                if q != recv {
                    assert(o.records().contains(q));
                }
            }
            assert forall|e: (i64, u128)| #[trigger] f.by_created_at().contains(e) implies exists|
                r: RecordV,
            | #[trigger] f.records().contains(r) && r.id == e.1 && r.created_at == e.0 by {
                if e == (recv.created_at, recv.id) {
                    assert(f.records().contains(recv));
                } else {
                    assert(o.by_created_at().contains(e));
                    let w = choose|r: RecordV| #[trigger] o.records().contains(r) && r.id == e.1
                        && r.created_at == e.0;
                    assert(f.records().contains(w));
                }
            }
        }
        assert(f.csi_updated()) by {
            reveal(csi_updated_of);
            assert forall|q: RecordV| #[trigger] f.records().contains(q) implies f
                .by_updated_at().contains((q.updated_at, q.id)) by {
                if q != recv {
                    assert(o.records().contains(q));
                }
            }
            assert forall|e: (i64, u128)| #[trigger] f.by_updated_at().contains(e) implies exists|
                r: RecordV,
            | #[trigger] f.records().contains(r) && r.id == e.1 && r.updated_at == e.0 by {
                if e == (recv.updated_at, recv.id) {
                    assert(f.records().contains(recv));
                } else {
                    assert(o.by_updated_at().contains(e));
                    let w = choose|r: RecordV| #[trigger] o.records().contains(r) && r.id == e.1
                        && r.updated_at == e.0;
                    assert(f.records().contains(w));
                }
            }
        }
        assert(f.csi_delete()) by {
            reveal(csi_delete_of);
            assert forall|q: RecordV| #[trigger] f.records().contains(q) implies (q.delete_at
                matches Some(d) ==> f.by_delete_at().contains((d, q.id))) by {
                if q != recv {
                    assert(o.records().contains(q));
                }
            }
            assert forall|e: (i64, u128)| #[trigger] f.by_delete_at().contains(e) implies exists|
                r: RecordV,
            | #[trigger] f.records().contains(r) && r.id == e.1 && r.delete_at == Some(e.0) by {
                if recv.delete_at matches Some(d) && e == (d, recv.id) {
                    assert(f.records().contains(recv));
                } else {
                    assert(o.by_delete_at().contains(e));
                    let w = choose|r: RecordV| #[trigger] o.records().contains(r) && r.id == e.1
                        && r.delete_at == Some(e.0);
                    assert(f.records().contains(w));
                }
            }
        }
    }


    /// Removing one record together with all of its index entries
    /// preserves the cross-structure invariant.
    proof fn lemma_csi_after_remove(o: Db, f: Db, recv: RecordV)
        requires
            o.wf(),
            o.records().contains(recv),
            forall|q: RecordV|
                #[trigger] f.records().contains(q) <==> (o.records().contains(q) && q.id
                    != recv.id),
            forall|p: (Seq<u8>, u128)|
                #[trigger] f.by_key().contains(p) <==> (o.by_key().contains(p) && p.0
                    != recv.key),
            forall|p: (i64, u128)|
                #[trigger] f.by_created_at().contains(p) <==> (o.by_created_at().contains(p) && p
                    != (recv.created_at, recv.id)),
            forall|p: (i64, u128)|
                #[trigger] f.by_updated_at().contains(p) <==> (o.by_updated_at().contains(p) && p
                    != (recv.updated_at, recv.id)),
            match recv.delete_at {
                Some(d) => forall|p: (i64, u128)|
                    #[trigger] f.by_delete_at().contains(p) <==> (o.by_delete_at().contains(p)
                        && p != (d, recv.id)),
                None => forall|p: (i64, u128)|
                    #[trigger] f.by_delete_at().contains(p) <==> o.by_delete_at().contains(p),
            },
        ensures
            f.csi(),
            forall|r: RecordV| #[trigger] f.records().contains(r) ==> r.inv(),
    {
        assert forall|q: RecordV| #[trigger] f.records().contains(q) implies q.inv() by {
            assert(o.records().contains(q));
        }
        assert(f.csi_key()) by {
            reveal(csi_key_of);
            assert forall|q: RecordV| #[trigger] f.records().contains(q) implies f.by_key()
                .contains((q.key, q.id)) by {
                assert(o.records().contains(q));
                assert(o.by_key().contains((q.key, q.id)));
                if q.key == recv.key {
                    o.lemma_key_determines_record(q, recv);
                }
            }
            assert forall|e: (Seq<u8>, u128)| #[trigger] f.by_key().contains(e) implies exists|
                r: RecordV,
            | #[trigger] f.records().contains(r) && r.id == e.1 && r.key == e.0 by {
                assert(o.by_key().contains(e));
                let w = choose|r: RecordV| #[trigger] o.records().contains(r) && r.id == e.1
                    && r.key == e.0;
                if w.id == recv.id {
                    o.lemma_id_determines_record(w, recv);
                }
                assert(f.records().contains(w));
            }
        }
        assert(f.csi_created()) by {
            reveal(csi_created_of);
            assert forall|q: RecordV| #[trigger] f.records().contains(q) implies f
                .by_created_at().contains((q.created_at, q.id)) by {
                assert(o.records().contains(q));
                assert(o.by_created_at().contains((q.created_at, q.id)));
            }
            assert forall|e: (i64, u128)| #[trigger] f.by_created_at().contains(e) implies exists|
                r: RecordV,
            | #[trigger] f.records().contains(r) && r.id == e.1 && r.created_at == e.0 by {
                assert(o.by_created_at().contains(e));
                let w = choose|r: RecordV| #[trigger] o.records().contains(r) && r.id == e.1
                    && r.created_at == e.0;
                if w.id == recv.id {
                    o.lemma_id_determines_record(w, recv);
                }
                assert(f.records().contains(w));
            }
        }
        assert(f.csi_updated()) by {
            reveal(csi_updated_of);
            assert forall|q: RecordV| #[trigger] f.records().contains(q) implies f
                .by_updated_at().contains((q.updated_at, q.id)) by {
                assert(o.records().contains(q));
                assert(o.by_updated_at().contains((q.updated_at, q.id)));
            }
            assert forall|e: (i64, u128)| #[trigger] f.by_updated_at().contains(e) implies exists|
                r: RecordV,
            | #[trigger] f.records().contains(r) && r.id == e.1 && r.updated_at == e.0 by {
                assert(o.by_updated_at().contains(e));
                let w = choose|r: RecordV| #[trigger] o.records().contains(r) && r.id == e.1
                    && r.updated_at == e.0;
                if w.id == recv.id {
                    o.lemma_id_determines_record(w, recv);
                }
                assert(f.records().contains(w));
            }
        }
        assert(f.csi_delete()) by {
            reveal(csi_delete_of);
            assert forall|q: RecordV| #[trigger] f.records().contains(q) implies (q.delete_at
                matches Some(d) ==> f.by_delete_at().contains((d, q.id))) by {
                assert(o.records().contains(q));
                match q.delete_at {
                    Some(d) => {
                        assert(o.by_delete_at().contains((d, q.id)));
                    },
                    None => {},
                }
            }
            assert forall|e: (i64, u128)| #[trigger] f.by_delete_at().contains(e) implies exists|
                r: RecordV,
            | #[trigger] f.records().contains(r) && r.id == e.1 && r.delete_at == Some(e.0) by {
                assert(o.by_delete_at().contains(e));
                let w = choose|r: RecordV| #[trigger] o.records().contains(r) && r.id == e.1
                    && r.delete_at == Some(e.0);
                if w.id == recv.id {
                    o.lemma_id_determines_record(w, recv);
                }
                assert(f.records().contains(w));
            }
        }
    }



    /// A creation-time entry names a live record created at that instant.
    proof fn lemma_created_entry(self, e: (i64, u128))
        requires
            self.wf(),
            self.by_created_at().contains(e),
        ensures
            self.contains_id(e.1),
            self.rec_of_id(e.1).created_at == e.0,
    {
        reveal(csi_created_of);
        let w = choose|r: RecordV| #[trigger] self.records().contains(r) && r.id == e.1
            && r.created_at == e.0;
        assert(self.contains_id(e.1));
        let a = self.rec_of_id(e.1);
        assert(self.records().contains(a) && a.id == e.1);
        self.lemma_id_determines_record(a, w);
    }

    /// An update-time entry names a live record updated at that instant.
    proof fn lemma_updated_entry(self, e: (i64, u128))
        requires
            self.wf(),
            self.by_updated_at().contains(e),
        ensures
            self.contains_id(e.1),
            self.rec_of_id(e.1).updated_at == e.0,
    {
        reveal(csi_updated_of);
        let w = choose|r: RecordV| #[trigger] self.records().contains(r) && r.id == e.1
            && r.updated_at == e.0;
        assert(self.contains_id(e.1));
        let a = self.rec_of_id(e.1);
        assert(self.records().contains(a) && a.id == e.1);
        self.lemma_id_determines_record(a, w);
    }

    /// An expiration entry names a live record expiring at that instant.
    proof fn lemma_delete_entry(self, e: (i64, u128))
        requires
            self.wf(),
            self.by_delete_at().contains(e),
        ensures
            self.contains_id(e.1),
            self.rec_of_id(e.1).delete_at == Some(e.0),
    {
        reveal(csi_delete_of);
        let w = choose|r: RecordV| #[trigger] self.records().contains(r) && r.id == e.1
            && r.delete_at == Some(e.0);
        assert(self.contains_id(e.1));
        let a = self.rec_of_id(e.1);
        assert(self.records().contains(a) && a.id == e.1);
        self.lemma_id_determines_record(a, w);
    }

    /// Replacing one record in place, with its update-time and
    /// expiration entries moved along, preserves the cross-structure
    /// invariant.
    proof fn lemma_csi_after_replace(o: Db, f: Db, oldv: RecordV, newv: RecordV)
        requires
            o.wf(),
            o.records().contains(oldv),
            newv.id == oldv.id,
            newv.key == oldv.key,
            newv.created_at == oldv.created_at,
            newv.inv(),
            forall|q: RecordV|
                #[trigger] f.records().contains(q) <==> ((o.records().contains(q) && q.id
                    != newv.id) || q == newv),
            f.by_key() == o.by_key(),
            f.by_created_at() == o.by_created_at(),
            forall|p: (i64, u128)|
                #[trigger] f.by_updated_at().contains(p) <==> ((o.by_updated_at().contains(p)
                    && p != (oldv.updated_at, oldv.id)) || p == (newv.updated_at, newv.id)),
            forall|p: (i64, u128)|
                #[trigger] f.by_delete_at().contains(p) <==> ((o.by_delete_at().contains(p) && !(
                oldv.delete_at matches Some(d0) && p == (d0, oldv.id))) || (newv.delete_at
                    matches Some(d) && p == (d, newv.id))),
        ensures
            f.csi(),
            forall|r: RecordV| #[trigger] f.records().contains(r) ==> r.inv(),
    {
        let id = newv.id;
        assert forall|q: RecordV| #[trigger] f.records().contains(q) implies q.inv() by {
            if q != newv {
                assert(o.records().contains(q));
            }
        }
        assert(f.csi_key()) by {
            reveal(csi_key_of);
            assert forall|q: RecordV| #[trigger] f.records().contains(q) implies f.by_key()
                .contains((q.key, q.id)) by {
                if q == newv {
                    assert(o.by_key().contains((oldv.key, oldv.id)));
                } else {
                    assert(o.records().contains(q));
                }
            }
            assert forall|e: (Seq<u8>, u128)| #[trigger] f.by_key().contains(e) implies exists|
                r: RecordV,
            | #[trigger] f.records().contains(r) && r.id == e.1 && r.key == e.0 by {
                assert(o.by_key().contains(e));
                let w = choose|r: RecordV| #[trigger] o.records().contains(r) && r.id == e.1
                    && r.key == e.0;
                if w.id == id {
                    o.lemma_id_determines_record(w, oldv);
                    assert(f.records().contains(newv));
                    assert(newv.id == e.1 && newv.key == e.0);
                } else {
                    assert(f.records().contains(w));
                }
            }
        }
        assert(f.csi_created()) by {
            reveal(csi_created_of);
            assert forall|q: RecordV| #[trigger] f.records().contains(q) implies f
                .by_created_at().contains((q.created_at, q.id)) by {
                if q == newv {
                    assert(o.by_created_at().contains((oldv.created_at, oldv.id)));
                } else {
                    assert(o.records().contains(q));
                }
            }
            assert forall|e: (i64, u128)| #[trigger] f.by_created_at().contains(e) implies exists|
                r: RecordV,
            | #[trigger] f.records().contains(r) && r.id == e.1 && r.created_at == e.0 by {
                assert(o.by_created_at().contains(e));
                let w = choose|r: RecordV| #[trigger] o.records().contains(r) && r.id == e.1
                    && r.created_at == e.0;
                if w.id == id {
                    o.lemma_id_determines_record(w, oldv);
                    assert(f.records().contains(newv));
                    assert(newv.id == e.1 && newv.created_at == e.0);
                } else {
                    assert(f.records().contains(w));
                }
            }
        }
        assert(f.csi_updated()) by {
            reveal(csi_updated_of);
            assert forall|q: RecordV| #[trigger] f.records().contains(q) implies f
                .by_updated_at().contains((q.updated_at, q.id)) by {
                if q != newv {
                    assert(o.records().contains(q));
                    assert(o.by_updated_at().contains((q.updated_at, q.id)));
                }
            }
            assert forall|e: (i64, u128)| #[trigger] f.by_updated_at().contains(e) implies exists|
                r: RecordV,
            | #[trigger] f.records().contains(r) && r.id == e.1 && r.updated_at == e.0 by {
                if e == (newv.updated_at, id) {
                    assert(f.records().contains(newv));
                } else {
                    assert(o.by_updated_at().contains(e) && e != (oldv.updated_at, id));
                    let w = choose|r: RecordV| #[trigger] o.records().contains(r) && r.id == e.1
                        && r.updated_at == e.0;
                    if w.id == id {
                        o.lemma_id_determines_record(w, oldv);
                        assert(false);
                    }
                    assert(f.records().contains(w));
                }
            }
        }
        assert(f.csi_delete()) by {
            reveal(csi_delete_of);
            assert forall|q: RecordV| #[trigger] f.records().contains(q) implies (q.delete_at
                matches Some(d) ==> f.by_delete_at().contains((d, q.id))) by {
                if q != newv {
                    assert(o.records().contains(q));
                    match q.delete_at {
                        Some(d) => {
                            assert(o.by_delete_at().contains((d, q.id)));
                        },
                        None => {},
                    }
                }
            }
            assert forall|e: (i64, u128)| #[trigger] f.by_delete_at().contains(e) implies exists|
                r: RecordV,
            | #[trigger] f.records().contains(r) && r.id == e.1 && r.delete_at == Some(e.0) by {
                if newv.delete_at matches Some(d) && e == (d, id) {
                    assert(f.records().contains(newv));
                } else {
                    assert(o.by_delete_at().contains(e));
                    let w = choose|r: RecordV| #[trigger] o.records().contains(r) && r.id == e.1
                        && r.delete_at == Some(e.0);
                    if w.id == id {
                        o.lemma_id_determines_record(w, oldv);
                        assert(false);
                    }
                    assert(f.records().contains(w));
                }
            }
        }
    }

    /// A store whose stored data did not change keeps the
    /// cross-structure invariant.
    proof fn lemma_wf_same_data(o: Db, f: Db)
        requires
            o.wf(),
            f.same_data(o),
            f.spec_stats().wf(),
        ensures
            f.wf(),
    {
        assert(f.csi_key()) by {
            reveal(csi_key_of);
        }
        assert(f.csi_created()) by {
            reveal(csi_created_of);
        }
        assert(f.csi_updated()) by {
            reveal(csi_updated_of);
        }
        assert(f.csi_delete()) by {
            reveal(csi_delete_of);
        }
    }

    /// A fresh, empty store under the given configuration.
    pub fn new(config: Config) -> (r: Db)
        ensures
            r.wf(),
            r.records().len() == 0,
            r.by_key().len() == 0,
            r.by_created_at().len() == 0,
            r.by_updated_at().len() == 0,
            r.by_delete_at().len() == 0,
            r.spec_api_keys().len() == 0,
            r.spec_stats() == (StatRecord {
                requests: 0u64,
                reads: 0u64,
                writes: 0u64,
                saved_writes: 0u64,
                last_saved_at: 0i64,
            }),
            r.spec_config() == config,
    {
        let db = Db {
            api_keys: Vec::new(),
            config,
            indexes: Index::new(),
            stats: StatRecord::new(),
            values: ValueMap::new(),
        };
        proof {
            reveal(csi_key_of);
            reveal(csi_created_of);
            reveal(csi_updated_of);
            reveal(csi_delete_of);
        }
        db
    }

    /// Whether the access gate knows this key.
    pub fn api_key_exists(&self, api_key: u128) -> (r: Result<bool, Error>)
        ensures
            r == Ok::<bool, Error>(self.spec_api_keys().contains(api_key)),
    {
        let n: usize = self.api_keys.len();
        let mut i: usize = 0;
        while i < n
            invariant
                n == self.spec_api_keys().len(),
                i <= n,
                forall|j: int| 0 <= j < i ==> self.spec_api_keys()[j] != api_key,
            decreases n - i,
        {
            if self.api_keys[i] == api_key {
                proof {
                    assert(self.spec_api_keys().contains(api_key));
                }
                return Ok(true);
            }
            i = i + 1;
        }
        proof {
            if self.spec_api_keys().contains(api_key) {
                let j = choose|j: int|
                    0 <= j < self.spec_api_keys().len() && self.spec_api_keys()[j] == api_key;
                assert(false);
            }
        }
        Ok(false)
    }

    /// First-use bootstrap of the access gate: if no key exists yet,
    /// mints one, stores it and hands it out; otherwise does nothing.
    pub fn api_key_init(&mut self) -> (r: Result<Option<u128>, Error>)
        requires
            old(self).wf(),
        ensures
            final(self).wf(),
            final(self).same_data(*old(self)),
            final(self).spec_config() == old(self).spec_config(),
            final(self).spec_stats() == old(self).spec_stats(),
            match r {
                Ok(Some(k)) => old(self).spec_api_keys().len() == 0 && final(self).spec_api_keys()
                    =~= seq![k],
                Ok(None) => old(self).spec_api_keys().len() > 0 && final(self).spec_api_keys()
                    == old(self).spec_api_keys(),
                Err(_) => false,
            },
    {
        let r: Result<Option<u128>, Error> = if self.api_keys.len() == 0 {
            let api_key: u128 = fresh_random_id();
            self.api_keys.push(api_key);
            Ok(Some(api_key))
        } else {
            Ok(None)
        };
        proof {
            Db::lemma_wf_same_data(*old(self), *self);
        }
        r
    }

    /// A copy of the counters.
    pub fn get_stats(&self) -> (r: Result<StatRecord, Error>)
        ensures
            r == Ok::<StatRecord, Error>(self.spec_stats()),
    {
        Ok(self.stats)
    }
}

/// The update instant a mutation writes: the clock reading, but never
/// before the record's creation, so a clock that stepped backwards
/// cannot disorder a record's timestamps.
pub open spec fn updated_time(created: i64, now: i64) -> i64 {
    if now < created {
        created
    } else {
        now
    }
}

impl Db {
    /// Read a record by key. Bumps `requests`, and `reads` on a hit.
    #[verifier::rlimit(60)]
    pub fn try_select(&mut self, key: &str) -> (r: Result<Option<ValueRecord>, Error>)
        requires
            old(self).wf(),
        ensures
            final(self).wf(),
            final(self).same_data(*old(self)),
            final(self).same_surround(*old(self)),
            match r {
                Ok(Some(rec)) => {
                    &&& old(self).has_key(encode_utf8(key@))
                    &&& rec@ == old(self).rec_of_key(encode_utf8(key@))
                    &&& final(self).spec_stats() == (StatRecord {
                        requests: sat_add(old(self).spec_stats().requests, 1),
                        reads: sat_add(old(self).spec_stats().reads, 1),
                        ..old(self).spec_stats()
                    })
                },
                Ok(None) => {
                    &&& !old(self).has_key(encode_utf8(key@))
                    &&& final(self).spec_stats() == (StatRecord {
                        requests: sat_add(old(self).spec_stats().requests, 1),
                        ..old(self).spec_stats()
                    })
                },
                Err(_) => false,
            },
    {
        let ghost kb = encode_utf8(key@);
        self.stats.inc_requests();
        let id_opt: Option<u128> = self.indexes.key.get(key);
        match id_opt {
            None => {
                proof {
                    old(self).lemma_key_absent(kb);
                    Db::lemma_wf_same_data(*old(self), *self);
                }
                Ok(None)
            },
            Some(id) => {
                proof {
                    assert(old(self).by_key().contains((kb, id)));
                    old(self).lemma_key_entry((kb, id));
                }
                match self.values.get(id) {
                    Some(rec_ref) => {
                        let out: ValueRecord = rec_ref.clone();
                        proof {
                            old(self).lemma_id_determines_record(
                                out@,
                                old(self).rec_of_id(id),
                            );
                        }
                        self.stats.inc_reads();
                        proof {
                            Db::lemma_wf_same_data(*old(self), *self);
                        }
                        Ok(Some(out))
                    },
                    None => {
                        proof {
                            assert(old(self).records().contains(old(self).rec_of_id(id)));
                            let w = old(self).rec_of_id(id);
                            let i = choose|i: int|
                                0 <= i < self.records().len() && self.records()[i] == w;
                            assert(false);
                        }
                        Ok(None)
                    },
                }
            },
        }
    }

    /// Insert a fresh record under a fresh key.
    ///
    /// Fails with `KeyExists` when the key is already live. In the
    /// astronomically unlikely event that the drawn 128-bit identifier
    /// collides with a live record's, no change is made and `Ok(None)`
    /// is returned, the "no change" outcome; on a store with no live
    /// records no draw can collide, so a fresh key is then always
    /// inserted.
    #[verifier::rlimit(100)]
    pub fn try_insert(&mut self, value_post: ValuePost, now: i64) -> (r: Result<
        Option<ValueRecord>,
        Error,
    >)
        requires
            old(self).wf(),
        ensures
            final(self).wf(),
            final(self).same_surround(*old(self)),
            match r {
                Err(e) => {
                    &&& e == Error::KeyExists
                    &&& old(self).has_key(encode_utf8(value_post.key@))
                    &&& final(self).same_data(*old(self))
                    &&& final(self).spec_stats() == (StatRecord {
                        requests: sat_add(old(self).spec_stats().requests, 1),
                        ..old(self).spec_stats()
                    })
                },
                Ok(None) => {
                    &&& !old(self).has_key(encode_utf8(value_post.key@))
                    &&& old(self).records().len() > 0
                    &&& final(self).same_data(*old(self))
                    &&& final(self).spec_stats() == (StatRecord {
                        requests: sat_add(old(self).spec_stats().requests, 1),
                        ..old(self).spec_stats()
                    })
                },
                Ok(Some(rec)) => {
                    &&& !old(self).has_key(encode_utf8(value_post.key@))
                    &&& !old(self).contains_id(rec@.id)
                    &&& rec@ == (RecordV {
                        id: rec@.id,
                        key: encode_utf8(value_post.key@),
                        value: value_post.value.deep(),
                        created_at: now,
                        updated_at: now,
                        delete_at: spec_delete_at(now, value_post.ttl),
                    })
                    &&& forall|q: RecordV|
                        #[trigger] final(self).records().contains(q) <==> (
                        old(self).records().contains(q) || q == rec@)
                    &&& forall|p: (Seq<u8>, u128)|
                        #[trigger] final(self).by_key().contains(p) <==> (
                        old(self).by_key().contains(p) || p == (rec@.key, rec@.id))
                    &&& forall|p: (i64, u128)|
                        #[trigger] final(self).by_created_at().contains(p) <==> (
                        old(self).by_created_at().contains(p) || p == (now, rec@.id))
                    &&& forall|p: (i64, u128)|
                        #[trigger] final(self).by_updated_at().contains(p) <==> (
                        old(self).by_updated_at().contains(p) || p == (now, rec@.id))
                    &&& forall|p: (i64, u128)|
                        #[trigger] final(self).by_delete_at().contains(p) <==> (
                        old(self).by_delete_at().contains(p) || (rec@.delete_at matches Some(d)
                            && p == (d, rec@.id)))
                    &&& final(self).spec_stats() == (StatRecord {
                        requests: sat_add(old(self).spec_stats().requests, 1),
                        writes: sat_add(old(self).spec_stats().writes, 1),
                        ..old(self).spec_stats()
                    })
                },
            },
    {
        let ghost kb = encode_utf8(value_post.key@);
        self.stats.inc_requests();
        match self.indexes.key.get(value_post.key.as_str()) {
            Some(found) => {
                proof {
                    assert(old(self).by_key().contains((kb, found)));
                    old(self).lemma_key_entry((kb, found));
                    Db::lemma_wf_same_data(*old(self), *self);
                }
                return Err(Error::KeyExists);
            },
            None => {},
        }
        proof {
            old(self).lemma_key_absent(kb);
        }
        let id: u128 = fresh_random_id();
        match self.values.get(id) {
            Some(taken) => {
                proof {
                    old(self).lemma_key_absent(kb);
                    Db::lemma_wf_same_data(*old(self), *self);
                    // a colliding draw means some record is live
                    assert(old(self).records().contains(taken@));
                    let i = choose|i: int|
                        0 <= i < old(self).records().len() && old(self).records()[i] == taken@;
                }
                return Ok(None);
            },
            None => {},
        }
        proof {
            old(self).lemma_key_absent(kb);
            old(self).lemma_id_absent(id);
        }
        let delete_at: Option<i64> = delete_at_of(now, value_post.ttl);
        let rec = ValueRecord {
            id,
            key: value_post.key,
            value: value_post.value,
            created_at: now,
            updated_at: now,
            delete_at,
        };
        let result: ValueRecord = rec.clone();
        let key_for_index: String = result.key.clone();
        let ghost o = *old(self);
        let ghost recv = rec@;
        proof {
            o.lemma_id_unindexed(id);
        }
        self.values.insert_new(rec);
        self.indexes.created_at.insert(now, id);
        if let Some(d) = delete_at {
            self.indexes.delete_at.insert(d, id);
        }
        self.indexes.key.insert(key_for_index, id);
        self.indexes.updated_at.insert(now, id);
        self.stats.inc_writes();
        proof {
            Db::lemma_csi_after_insert(o, *self, recv);
        }
        Ok(Some(result))
    }
}


impl Db {
    /// Delete a record by id, removing every index entry that named it.
    pub fn try_delete_by_id(&mut self, id: u128) -> (r: Result<Option<ValueRecord>, Error>)
        requires
            old(self).wf(),
        ensures
            final(self).wf(),
            final(self).same_surround(*old(self)),
            match r {
                Ok(None) => {
                    &&& !old(self).contains_id(id)
                    &&& final(self).same_data(*old(self))
                    &&& final(self).spec_stats() == (StatRecord {
                        requests: sat_add(old(self).spec_stats().requests, 1),
                        ..old(self).spec_stats()
                    })
                },
                Ok(Some(rec)) => {
                    &&& old(self).contains_id(id)
                    &&& rec@ == old(self).rec_of_id(id)
                    &&& rec@.id == id
                    &&& final(self).records().len() == old(self).records().len() - 1
                    &&& forall|q: RecordV|
                        #[trigger] final(self).records().contains(q) <==> (
                        old(self).records().contains(q) && q.id != id)
                    &&& forall|p: (Seq<u8>, u128)|
                        #[trigger] final(self).by_key().contains(p) <==> (
                        old(self).by_key().contains(p) && p.0 != rec@.key)
                    &&& forall|p: (i64, u128)|
                        #[trigger] final(self).by_created_at().contains(p) <==> (
                        old(self).by_created_at().contains(p) && p != (rec@.created_at, id))
                    &&& forall|p: (i64, u128)|
                        #[trigger] final(self).by_updated_at().contains(p) <==> (
                        old(self).by_updated_at().contains(p) && p != (rec@.updated_at, id))
                    &&& (match rec@.delete_at {
                        Some(d) => final(self).by_delete_at().len() == old(
                            self,
                        ).by_delete_at().len() - 1 && forall|p: (i64, u128)|
                            #[trigger] final(self).by_delete_at().contains(p) <==> (
                            old(self).by_delete_at().contains(p) && p != (d, id)),
                        None => final(self).by_delete_at() == old(self).by_delete_at(),
                    })
                    &&& final(self).spec_stats() == (StatRecord {
                        requests: sat_add(old(self).spec_stats().requests, 1),
                        writes: sat_add(old(self).spec_stats().writes, 1),
                        ..old(self).spec_stats()
                    })
                },
                Err(_) => false,
            },
    {
        self.stats.inc_requests();
        match self.values.remove(id) {
            None => {
                proof {
                    old(self).lemma_id_absent(id);
                    Db::lemma_wf_same_data(*old(self), *self);
                }
                Ok(None)
            },
            Some(rec) => {
                self.stats.inc_writes();
                let ghost o = *old(self);
                let ghost recv = rec@;
                proof {
                    assert(o.records().contains(recv));
                    assert(o.contains_id(id));
                    o.lemma_id_determines_record(recv, o.rec_of_id(id));
                    o.lemma_rec_indexed(recv);
                }
                self.indexes.created_at.remove(rec.created_at, id);
                if let Some(d) = rec.delete_at {
                    self.indexes.delete_at.remove(d, id);
                }
                let removed_key: Option<u128> = self.indexes.key.remove(rec.key.as_str());
                proof {
                    if removed_key is None {
                        assert(o.by_key().contains((recv.key, recv.id)));
                        let i = choose|i: int|
                            0 <= i < o.by_key().len() && o.by_key()[i] == (recv.key, recv.id);
                        assert(false);
                    }
                }
                self.indexes.updated_at.remove(rec.updated_at, id);
                proof {
                    Db::lemma_csi_after_remove(o, *self, recv);
                }
                Ok(Some(rec))
            },
        }
    }

    /// Delete a record by key. A key that is not live is the "no
    /// change" outcome: `Ok(None)`, with nothing counted.
    pub fn try_delete_by_key(&mut self, key: &str) -> (r: Result<Option<ValueRecord>, Error>)
        requires
            old(self).wf(),
        ensures
            final(self).wf(),
            final(self).same_surround(*old(self)),
            match r {
                Ok(None) => {
                    &&& !old(self).has_key(encode_utf8(key@))
                    &&& final(self).same_data(*old(self))
                    &&& final(self).spec_stats() == old(self).spec_stats()
                },
                Ok(Some(rec)) => {
                    &&& old(self).has_key(encode_utf8(key@))
                    &&& rec@ == old(self).rec_of_key(encode_utf8(key@))
                    &&& forall|q: RecordV|
                        #[trigger] final(self).records().contains(q) <==> (
                        old(self).records().contains(q) && q.id != rec@.id)
                    &&& forall|p: (Seq<u8>, u128)|
                        #[trigger] final(self).by_key().contains(p) <==> (
                        old(self).by_key().contains(p) && p.0 != rec@.key)
                    &&& forall|p: (i64, u128)|
                        #[trigger] final(self).by_created_at().contains(p) <==> (
                        old(self).by_created_at().contains(p) && p != (rec@.created_at, rec@.id))
                    &&& forall|p: (i64, u128)|
                        #[trigger] final(self).by_updated_at().contains(p) <==> (
                        old(self).by_updated_at().contains(p) && p != (rec@.updated_at, rec@.id))
                    &&& final(self).spec_stats() == (StatRecord {
                        requests: sat_add(old(self).spec_stats().requests, 1),
                        writes: sat_add(old(self).spec_stats().writes, 1),
                        ..old(self).spec_stats()
                    })
                },
                Err(_) => false,
            },
    {
        let ghost kb = encode_utf8(key@);
        let id_opt: Option<u128> = self.indexes.key.get(key);
        match id_opt {
            None => {
                proof {
                    old(self).lemma_key_absent(kb);
                }
                Ok(None)
            },
            Some(id) => {
                proof {
                    assert(old(self).by_key().contains((kb, id)));
                    old(self).lemma_key_entry((kb, id));
                }
                let r = self.try_delete_by_id(id);
                proof {
                    if r matches Ok(None) {
                        assert(false);
                    }
                }
                r
            },
        }
    }
}


impl Db {
    /// Replace the live record that shares `rec`'s id, moving the
    /// update-time and expiration entries along. Key, id and creation
    /// time must be those of the record being replaced; counters are
    /// not touched.
    fn replace_record(&mut self, rec: ValueRecord)
        requires
            old(self).wf(),
            old(self).contains_id(rec@.id),
            rec@.key == old(self).rec_of_id(rec@.id).key,
            rec@.created_at == old(self).rec_of_id(rec@.id).created_at,
            rec@.inv(),
        ensures
            final(self).wf(),
            final(self).same_surround(*old(self)),
            final(self).spec_stats() == old(self).spec_stats(),
            forall|q: RecordV|
                #[trigger] final(self).records().contains(q) <==> ((
                old(self).records().contains(q) && q.id != rec@.id) || q == rec@),
            final(self).by_key() == old(self).by_key(),
            final(self).by_created_at() == old(self).by_created_at(),
            forall|p: (i64, u128)|
                #[trigger] final(self).by_updated_at().contains(p) <==> ((
                old(self).by_updated_at().contains(p) && p != (
                    old(self).rec_of_id(rec@.id).updated_at,
                    rec@.id,
                )) || p == (rec@.updated_at, rec@.id)),
            forall|p: (i64, u128)|
                #[trigger] final(self).by_delete_at().contains(p) <==> ((
                old(self).by_delete_at().contains(p) && !(old(self).rec_of_id(rec@.id).delete_at
                    matches Some(d0) && p == (d0, rec@.id))) || (rec@.delete_at matches Some(d)
                    && p == (d, rec@.id))),
    {
        let id: u128 = rec.id;
        let new_updated: i64 = rec.updated_at;
        let new_delete: Option<i64> = rec.delete_at;
        let ghost o = *old(self);
        let ghost newv = rec@;
        let ghost oldv = o.rec_of_id(newv.id);
        proof {
            assert(o.records().contains(oldv) && oldv.id == id);
            o.lemma_rec_indexed(oldv);
        }
        let (old_updated, old_delete): (i64, Option<i64>) = match self.values.get(id) {
            Some(r0) => {
                proof {
                    o.lemma_id_determines_record(r0@, oldv);
                }
                (r0.updated_at, r0.delete_at)
            },
            None => {
                proof {
                    let i = choose|i: int|
                        0 <= i < o.records().len() && o.records()[i] == oldv;
                    assert(false);
                }
                (0, None)
            },
        };
        proof {
            let i = choose|i: int| 0 <= i < o.records().len() && o.records()[i] == oldv;
            assert(o.records()[i].id == newv.id);
        }
        self.values.replace(rec);
        self.indexes.updated_at.remove(old_updated, id);
        proof {
            // the removed pair was the only update-time entry with this id
            assert forall|t: i64| !self.by_updated_at().contains((t, id)) by {
                if self.by_updated_at().contains((t, id)) {
                    assert(o.by_updated_at().contains((t, id)));
                    o.lemma_updated_entry((t, id));
                    assert(t == oldv.updated_at);
                }
            }
        }
        proof {
            assert(!self.by_updated_at().contains((new_updated, id)));
        }
        self.indexes.updated_at.insert(new_updated, id);
        if let Some(d0) = old_delete {
            self.indexes.delete_at.remove(d0, id);
        }
        proof {
            assert forall|t: i64| !self.by_delete_at().contains((t, id)) by {
                if self.by_delete_at().contains((t, id)) {
                    assert(o.by_delete_at().contains((t, id)));
                    o.lemma_delete_entry((t, id));
                }
            }
        }
        if let Some(d) = new_delete {
            proof {
                assert(!self.by_delete_at().contains((d, id)));
            }
            self.indexes.delete_at.insert(d, id);
        }
        proof {
            Db::lemma_csi_after_replace(o, *self, oldv, newv);
        }
    }
}


/// The magnitude by which an increment or decrement moves the value: 1
/// when no amount is given, else the amount's absolute value.
pub open spec fn delta_of(amount: Option<i64>) -> int {
    match amount {
        None => 1,
        Some(a) => abs_of(a),
    }
}

impl Db {
    /// Upsert: replace the value of an existing record, preserving its
    /// id and creation time and recomputing its expiration from `ttl`.
    pub fn try_upsert(&mut self, value_put: ValuePut, now: i64) -> (r: Result<
        Option<ValueRecord>,
        Error,
    >)
        requires
            old(self).wf(),
        ensures
            final(self).wf(),
            final(self).same_surround(*old(self)),
            match r {
                Err(e) => {
                    &&& e == Error::NotFound
                    &&& !old(self).has_key(encode_utf8(value_put.key@))
                    &&& final(self).same_data(*old(self))
                    &&& final(self).spec_stats() == (StatRecord {
                        requests: sat_add(old(self).spec_stats().requests, 1),
                        ..old(self).spec_stats()
                    })
                },
                Ok(None) => false,
                Ok(Some(rec)) => {
                    &&& old(self).has_key(encode_utf8(value_put.key@))
                    &&& rec@ == (RecordV {
                        id: old(self).rec_of_key(encode_utf8(value_put.key@)).id,
                        key: encode_utf8(value_put.key@),
                        value: value_put.value.deep(),
                        created_at: old(self).rec_of_key(encode_utf8(value_put.key@)).created_at,
                        updated_at: updated_time(
                            old(self).rec_of_key(encode_utf8(value_put.key@)).created_at,
                            now,
                        ),
                        delete_at: spec_delete_at(now, value_put.ttl),
                    })
                    &&& forall|q: RecordV|
                        #[trigger] final(self).records().contains(q) <==> ((
                        old(self).records().contains(q) && q.id != rec@.id) || q == rec@)
                    &&& final(self).by_key() == old(self).by_key()
                    &&& final(self).by_created_at() == old(self).by_created_at()
                    &&& forall|p: (i64, u128)|
                        #[trigger] final(self).by_updated_at().contains(p) <==> ((
                        old(self).by_updated_at().contains(p) && p != (
                            old(self).rec_of_key(encode_utf8(value_put.key@)).updated_at,
                            rec@.id,
                        )) || p == (rec@.updated_at, rec@.id))
                    &&& forall|p: (i64, u128)|
                        #[trigger] final(self).by_delete_at().contains(p) <==> ((
                        old(self).by_delete_at().contains(p) && !(old(self).rec_of_key(
                            encode_utf8(value_put.key@),
                        ).delete_at matches Some(d0) && p == (d0, rec@.id))) || (rec@.delete_at
                            matches Some(d) && p == (d, rec@.id)))
                    &&& final(self).spec_stats() == (StatRecord {
                        requests: sat_add(old(self).spec_stats().requests, 1),
                        writes: sat_add(old(self).spec_stats().writes, 1),
                        ..old(self).spec_stats()
                    })
                },
            },
    {
        let ghost kb = encode_utf8(value_put.key@);
        self.stats.inc_requests();
        let id_opt: Option<u128> = self.indexes.key.get(value_put.key.as_str());
        let id: u128 = match id_opt {
            None => {
                proof {
                    old(self).lemma_key_absent(kb);
                    Db::lemma_wf_same_data(*old(self), *self);
                }
                return Err(Error::NotFound);
            },
            Some(id) => id,
        };
        proof {
            assert(old(self).by_key().contains((kb, id)));
            old(self).lemma_key_entry((kb, id));
        }
        let created_at: i64 = match self.values.get(id) {
            Some(r0) => {
                proof {
                    old(self).lemma_id_determines_record(r0@, old(self).rec_of_id(id));
                }
                r0.created_at
            },
            None => {
                proof {
                    let w = old(self).rec_of_id(id);
                    let i = choose|i: int|
                        0 <= i < self.records().len() && self.records()[i] == w;
                    assert(false);
                }
                0
            },
        };
        let updated_at: i64 = if now < created_at {
            created_at
        } else {
            now
        };
        let delete_at: Option<i64> = delete_at_of(now, value_put.ttl);
        let rec = ValueRecord {
            id,
            key: value_put.key,
            value: value_put.value,
            created_at,
            updated_at,
            delete_at,
        };
        let result: ValueRecord = rec.clone();
        proof {
            Db::lemma_wf_same_data(*old(self), *self);
        }
        self.replace_record(rec);
        let ghost before_stats = *self;
        self.stats.inc_writes();
        proof {
            Db::lemma_wf_same_data(before_stats, *self);
        }
        Ok(Some(result))
    }

    /// Increment an integer value by the amount's magnitude (one when
    /// absent). A non-integer value is the "no change" outcome.
    pub fn try_increment(&mut self, key: &str, value_increment: ValueIncrement, now: i64) -> (r:
        Result<Option<ValueRecord>, Error>)
        requires
            old(self).wf(),
        ensures
            final(self).wf(),
            final(self).same_surround(*old(self)),
            increment_shape(
                *old(self),
                *final(self),
                encode_utf8(key@),
                delta_of(value_increment.increment),
                now,
                r,
            ),
    {
        let amount: i64 = match value_increment.increment {
            None => 1,
            Some(a) => a,
        };
        let delta: i128 = if amount < 0 {
            -(amount as i128)
        } else {
            amount as i128
        };
        proof {
            match value_increment.increment {
                Some(a) => {
                    assert(delta == abs_of(a));
                },
                None => {},
            }
        }
        self.apply_integer_delta(key, delta, now)
    }

    /// Decrement an integer value by the amount's magnitude (one when
    /// absent): a negative amount still subtracts its magnitude. A
    /// non-integer value is the "no change" outcome.
    pub fn try_decrement(&mut self, key: &str, value_decrement: ValueDecrement, now: i64) -> (r:
        Result<Option<ValueRecord>, Error>)
        requires
            old(self).wf(),
        ensures
            final(self).wf(),
            final(self).same_surround(*old(self)),
            increment_shape(
                *old(self),
                *final(self),
                encode_utf8(key@),
                -delta_of(value_decrement.decrement),
                now,
                r,
            ),
    {
        let amount: i64 = match value_decrement.decrement {
            None => 1,
            Some(a) => a,
        };
        let delta: i128 = if amount < 0 {
            amount as i128
        } else {
            -(amount as i128)
        };
        proof {
            match value_decrement.decrement {
                Some(a) => {
                    assert(delta == -abs_of(a));
                },
                None => {},
            }
        }
        self.apply_integer_delta(key, delta, now)
    }

    /// The shared engine of increment and decrement: move an integer
    /// value by `delta`, which the two callers have already signed.
    fn apply_integer_delta(&mut self, key: &str, delta: i128, now: i64) -> (r: Result<
        Option<ValueRecord>,
        Error,
    >)
        requires
            old(self).wf(),
            i64::MIN as int <= delta <= -(i64::MIN as int),
        ensures
            final(self).wf(),
            final(self).same_surround(*old(self)),
            increment_shape(*old(self), *final(self), encode_utf8(key@), delta as int, now, r),
    {
        let ghost kb = encode_utf8(key@);
        self.stats.inc_requests();
        let id_opt: Option<u128> = self.indexes.key.get(key);
        let id: u128 = match id_opt {
            None => {
                proof {
                    old(self).lemma_key_absent(kb);
                    Db::lemma_wf_same_data(*old(self), *self);
                }
                return Err(Error::NotFound);
            },
            Some(id) => id,
        };
        proof {
            assert(old(self).by_key().contains((kb, id)));
            old(self).lemma_key_entry((kb, id));
        }
        let found: Option<(i64, i64, Option<i64>, String)> = match self.values.get(id) {
            Some(r0) => {
                proof {
                    old(self).lemma_id_determines_record(r0@, old(self).rec_of_id(id));
                }
                match &r0.value {
                    Value::Integer(n) => Some((*n, r0.created_at, r0.delete_at, r0.key.clone())),
                    _ => None,
                }
            },
            None => {
                proof {
                    let w = old(self).rec_of_id(id);
                    let i = choose|i: int|
                        0 <= i < self.records().len() && self.records()[i] == w;
                    assert(false);
                }
                None
            },
        };
        let (cur, created_at, delete_at, key_text): (i64, i64, Option<i64>, String) = match found {
            None => {
                proof {
                    Db::lemma_wf_same_data(*old(self), *self);
                }
                return Ok(None);
            },
            Some(t) => t,
        };
        let wide: i128 = cur as i128 + delta;
        if wide > i64::MAX as i128 || wide < i64::MIN as i128 {
            proof {
                Db::lemma_wf_same_data(*old(self), *self);
            }
            return Err(Error::ArithmeticOverflow);
        }
        let new_value: i64 = wide as i64;
        let updated_at: i64 = if now < created_at {
            created_at
        } else {
            now
        };
        let rec = ValueRecord {
            id,
            key: key_text,
            value: Value::Integer(new_value),
            created_at,
            updated_at,
            delete_at,
        };
        let result: ValueRecord = rec.clone();
        proof {
            Db::lemma_wf_same_data(*old(self), *self);
        }
        let ghost mid = *self;
        self.replace_record(rec);
        let ghost before_stats = *self;
        self.stats.inc_writes();
        proof {
            Db::lemma_wf_same_data(before_stats, *self);
            // the record the replacement displaced is the one the key named
            let w = old(self).rec_of_id(result@.id);
            assert(old(self).records().contains(w));
            assert(mid.records().contains(w));
            assert(mid.contains_id(result@.id));
            let w2 = mid.rec_of_id(result@.id);
            assert(mid.records().contains(w2) && w2.id == result@.id);
            assert(old(self).records().contains(w2));
            old(self).lemma_id_determines_record(w2, w);
            assert(mid.rec_of_id(result@.id) == w);
            assert(result@.delete_at == w.delete_at);
            assert forall|p: (i64, u128)|
                self.by_delete_at().contains(p) <==> old(self).by_delete_at().contains(p) by {
                assert(self.by_delete_at().contains(p) <==> ((mid.by_delete_at().contains(p) && !(
                mid.rec_of_id(result@.id).delete_at matches Some(d0) && p == (d0, result@.id)))
                    || (result@.delete_at matches Some(d) && p == (d, result@.id))));
                match w.delete_at {
                    Some(d0) => {
                        if p == (d0, result@.id) {
                            assert(old(self).by_delete_at().contains(p)) by {
                                old(self).lemma_rec_indexed(w);
                            }
                        }
                    },
                    None => {},
                }
            }
            crate::index::lemma_ts_sorted_same_contains(
                self.by_delete_at(),
                old(self).by_delete_at(),
            );
        }
        Ok(Some(result))
    }
}

/// What an increment or decrement by `delta` does: not-found and
/// overflow are errors, a non-integer value is the no-change outcome,
/// and success rewrites the integer in place, moving only the
/// update-time index entry.
pub open spec fn increment_shape(
    o: Db,
    f: Db,
    kb: Seq<u8>,
    delta: int,
    now: i64,
    r: Result<Option<ValueRecord>, Error>,
) -> bool {
    match r {
        Err(Error::NotFound) => {
            &&& !o.has_key(kb)
            &&& f.same_data(o)
            &&& f.spec_stats() == (StatRecord {
                requests: sat_add(o.spec_stats().requests, 1),
                ..o.spec_stats()
            })
        },
        Err(Error::ArithmeticOverflow) => {
            &&& o.has_key(kb)
            &&& o.rec_of_key(kb).value matches ValV::Int(n) && !(i64::MIN <= n + delta
                <= i64::MAX)
            &&& f.same_data(o)
            &&& f.spec_stats() == (StatRecord {
                requests: sat_add(o.spec_stats().requests, 1),
                ..o.spec_stats()
            })
        },
        Ok(None) => {
            &&& o.has_key(kb)
            &&& !(o.rec_of_key(kb).value matches ValV::Int(_))
            &&& f.same_data(o)
            &&& f.spec_stats() == (StatRecord {
                requests: sat_add(o.spec_stats().requests, 1),
                ..o.spec_stats()
            })
        },
        Ok(Some(rec)) => {
            &&& o.has_key(kb)
            &&& o.rec_of_key(kb).value matches ValV::Int(n) && i64::MIN <= n + delta <= i64::MAX
                && rec@ == (RecordV {
                value: ValV::Int((n + delta) as i64),
                updated_at: updated_time(o.rec_of_key(kb).created_at, now),
                ..o.rec_of_key(kb)
            })
            &&& forall|q: RecordV|
                #[trigger] f.records().contains(q) <==> ((o.records().contains(q) && q.id
                    != rec@.id) || q == rec@)
            &&& f.by_key() == o.by_key()
            &&& f.by_created_at() == o.by_created_at()
            &&& forall|p: (i64, u128)|
                #[trigger] f.by_updated_at().contains(p) <==> ((o.by_updated_at().contains(p)
                    && p != (o.rec_of_key(kb).updated_at, rec@.id)) || p == (
                    rec@.updated_at,
                    rec@.id,
                ))
            &&& f.by_delete_at() == o.by_delete_at()
            &&& f.spec_stats() == (StatRecord {
                requests: sat_add(o.spec_stats().requests, 1),
                writes: sat_add(o.spec_stats().writes, 1),
                ..o.spec_stats()
            })
        },
        _ => false,
    }
}


impl Db {
    /// Garbage collection: delete every record whose expiration instant
    /// lies strictly before `now`, and say how many went.
    ///
    /// Each deletion runs through `try_delete_by_id` and is counted in
    /// `requests` and `writes` like any other delete.
    pub fn gc(&mut self, now: i64) -> (r: Result<u64, Error>)
        requires
            old(self).wf(),
        ensures
            final(self).wf(),
            final(self).same_surround(*old(self)),
            match r {
                Ok(count) => {
                    &&& forall|q: RecordV|
                        #[trigger] final(self).records().contains(q) <==> (
                        old(self).records().contains(q) && !(q.delete_at matches Some(d) && d
                            < now))
                    &&& forall|q: RecordV|
                        #[trigger] final(self).records().contains(q) ==> (q.delete_at matches
                            Some(d) ==> d >= now)
                    &&& final(self).records().len() == old(self).records().len() - count
                    &&& final(self).spec_stats() == (StatRecord {
                        requests: sat_add(old(self).spec_stats().requests, count as nat),
                        writes: sat_add(old(self).spec_stats().writes, count as nat),
                        ..old(self).spec_stats()
                    })
                },
                Err(_) => false,
            },
    {
        let ghost o = *old(self);
        let total: usize = self.values.len();
        let mut count: u64 = 0;
        loop
            invariant
                o == *old(self),
                o.records().len() == total,
                self.wf(),
                self.same_surround(o),
                o.wf(),
                self.records().len() + count == o.records().len(),
                forall|q: RecordV|
                    #[trigger] self.records().contains(q) ==> o.records().contains(q),
                forall|q: RecordV|
                    o.records().contains(q) && !(q.delete_at matches Some(d) && d < now)
                        ==> #[trigger] self.records().contains(q),
                forall|q: RecordV|
                    o.records().contains(q) && !self.records().contains(q) ==> (
                    #[trigger] q.delete_at matches Some(d) && d < now),
                self.spec_stats() == (StatRecord {
                    requests: sat_add(o.spec_stats().requests, count as nat),
                    writes: sat_add(o.spec_stats().writes, count as nat),
                    ..o.spec_stats()
                }),
            decreases self.by_delete_at().len(),
        {
            let head: Option<(i64, u128)> = self.indexes.delete_at.first();
            match head {
                None => {
                    proof {
                        assert forall|q: RecordV| #[trigger] self.records().contains(q) implies (
                        q.delete_at matches Some(d) ==> d >= now) by {
                            let s = *self;
                            s.lemma_rec_indexed(q);
                            match q.delete_at {
                                Some(d) => {
                                    let i = choose|i: int|
                                        0 <= i < s.by_delete_at().len() && s.by_delete_at()[i]
                                            == (d, q.id);
                                    assert(false);
                                },
                                None => {},
                            }
                        }
                    }
                    return Ok(count);
                },
                Some((t, id)) => {
                    if t >= now {
                        proof {
                            let s = *self;
                            assert forall|q: RecordV| #[trigger]
                                self.records().contains(q) implies (q.delete_at matches Some(d)
                                ==> d >= now) by {
                                s.lemma_rec_indexed(q);
                                match q.delete_at {
                                    Some(d) => {
                                        let i = choose|i: int|
                                            0 <= i < s.by_delete_at().len()
                                                && s.by_delete_at()[i] == (d, q.id);
                                        if i > 0 {
                                            assert(crate::index::ts_lt(
                                                s.by_delete_at()[0],
                                                s.by_delete_at()[i],
                                            ));
                                        }
                                    },
                                    None => {},
                                }
                            }
                        }
                        return Ok(count);
                    }
                    let ghost pre = *self;
                    proof {
                        assert(pre.by_delete_at().contains((t, id)));
                        pre.lemma_delete_entry((t, id));
                    }
                    let deleted = self.try_delete_by_id(id);
                    proof {
                        if deleted matches Ok(None) {
                            assert(false);
                        }
                        // the delete-at index shrank: its (t, id) entry went
                        let w = pre.rec_of_id(id);
                        assert(w.delete_at == Some(t));
                        assert(self.by_delete_at().len() == pre.by_delete_at().len() - 1);
                        assert(self.records().len() + count + 1 == o.records().len());
                        assert(count as int + 1 <= total as int <= u64::MAX as int);
                        crate::stat_record::lemma_sat_add_chain(
                            o.spec_stats().requests,
                            count as nat,
                        );
                        crate::stat_record::lemma_sat_add_chain(
                            o.spec_stats().writes,
                            count as nat,
                        );
                    }
                    count = count + 1;
                },
            }
        }
    }
}


/// The ids of a key-index view, in index order.
pub open spec fn ids_of_key(s: Seq<(Seq<u8>, u128)>) -> Seq<u128> {
    Seq::new(s.len(), |i: int| s[i].1)
}

/// The ids of a time-index view, in index order.
pub open spec fn ids_of_ts(s: Seq<(i64, u128)>) -> Seq<u128> {
    Seq::new(s.len(), |i: int| s[i].1)
}

/// A sequence backwards.
pub open spec fn rev_of(s: Seq<u128>) -> Seq<u128> {
    Seq::new(s.len(), |i: int| s[s.len() - 1 - i])
}

/// The ids a listing walks, before pagination: the chosen index in the
/// chosen direction.
pub open spec fn listed_ids(db: Db, sort: Sort, direction: Direction) -> Seq<u128> {
    let asc = match sort {
        Sort::Key => ids_of_key(db.by_key()),
        Sort::CreatedAt => ids_of_ts(db.by_created_at()),
        Sort::UpdatedAt => ids_of_ts(db.by_updated_at()),
    };
    match direction {
        Direction::Asc => asc,
        Direction::Desc => rev_of(asc),
    }
}

/// Pagination: with neither limit nor page set, everything; otherwise
/// both default (limit 10, page 1), the first `(page-1)*limit` entries
/// are skipped and `limit` are taken. A page number below one reads as
/// page one.
pub open spec fn page_of(s: Seq<u128>, limit: Option<usize>, page: Option<usize>) -> Seq<u128> {
    if limit is None && page is None {
        s
    } else {
        let l = (match limit {
            None => 10,
            Some(x) => x as int,
        });
        let p0 = (match page {
            None => 1,
            Some(x) => x as int,
        });
        let p = if p0 < 1 {
            1
        } else {
            p0
        };
        let lo = if (p - 1) * l > s.len() {
            s.len() as int
        } else {
            (p - 1) * l
        };
        let hi = if (p - 1) * l + l > s.len() {
            s.len() as int
        } else {
            (p - 1) * l + l
        };
        s.subrange(lo, hi)
    }
}

impl Db {
    /// List records in the order of one index, with optional
    /// pagination. Bumps `requests` once and `reads` per record listed.
    pub fn select_all(
        &mut self,
        direction: Direction,
        limit: Option<usize>,
        page: Option<usize>,
        sort: Sort,
    ) -> (r: Result<Vec<ValueRecord>, Error>)
        requires
            old(self).wf(),
        ensures
            final(self).wf(),
            final(self).same_data(*old(self)),
            final(self).same_surround(*old(self)),
            match r {
                Ok(out) => {
                    &&& out@.len() == page_of(
                        listed_ids(*old(self), sort, direction),
                        limit,
                        page,
                    ).len()
                    &&& forall|i: int|
                        0 <= i < out@.len() ==> (#[trigger] out@[i])@ == old(self).rec_of_id(
                            page_of(listed_ids(*old(self), sort, direction), limit, page)[i],
                        ) && old(self).contains_id(
                            page_of(listed_ids(*old(self), sort, direction), limit, page)[i],
                        )
                    &&& final(self).spec_stats() == (StatRecord {
                        requests: sat_add(old(self).spec_stats().requests, 1),
                        reads: sat_add(old(self).spec_stats().reads, out@.len() as nat),
                        ..old(self).spec_stats()
                    })
                },
                Err(_) => false,
            },
    {
        let ghost o = *old(self);
        self.stats.inc_requests();
        let asc_ids: Vec<u128> = match sort {
            Sort::Key => self.indexes.key.ids(),
            Sort::CreatedAt => self.indexes.created_at.ids(),
            Sort::UpdatedAt => self.indexes.updated_at.ids(),
        };
        proof {
            assert(asc_ids@ =~= (match sort {
                Sort::Key => ids_of_key(o.by_key()),
                Sort::CreatedAt => ids_of_ts(o.by_created_at()),
                Sort::UpdatedAt => ids_of_ts(o.by_updated_at()),
            }));
        }
        let ids: Vec<u128> = match direction {
            Direction::Asc => asc_ids,
            Direction::Desc => {
                let mut rev: Vec<u128> = Vec::new();
                let mut i: usize = asc_ids.len();
                while i > 0
                    invariant
                        i <= asc_ids@.len(),
                        rev@.len() == asc_ids@.len() - i,
                        forall|j: int|
                            0 <= j < rev@.len() ==> rev@[j] == asc_ids@[asc_ids@.len() - 1 - j],
                    decreases i,
                {
                    i = i - 1;
                    rev.push(asc_ids[i]);
                }
                proof {
                    assert(rev@ =~= rev_of(asc_ids@));
                }
                rev
            },
        };
        proof {
            assert(ids@ == listed_ids(o, sort, direction));
            assert forall|j: int| 0 <= j < ids@.len() implies o.contains_id(
                #[trigger] ids@[j],
            ) by {
                let k: int = match direction {
                    Direction::Asc => j,
                    Direction::Desc => ids@.len() - 1 - j,
                };
                match sort {
                    Sort::Key => {
                        assert(o.by_key().contains(o.by_key()[k]));
                        o.lemma_key_entry(o.by_key()[k]);
                    },
                    Sort::CreatedAt => {
                        assert(o.by_created_at().contains(o.by_created_at()[k]));
                        o.lemma_created_entry(o.by_created_at()[k]);
                    },
                    Sort::UpdatedAt => {
                        assert(o.by_updated_at().contains(o.by_updated_at()[k]));
                        o.lemma_updated_entry(o.by_updated_at()[k]);
                    },
                }
            }
        }
        let n: usize = ids.len();
        let (lo, hi): (usize, usize) = if limit.is_none() && page.is_none() {
            (0, n)
        } else {
            let l: usize = match limit {
                None => 10,
                Some(x) => x,
            };
            let p: usize = match page {
                None => 1,
                Some(x) => x,
            };
            let p1: usize = if p < 1 {
                1
            } else {
                p
            };
            proof {
                assert((p1 as int - 1) * (l as int) <= (u64::MAX as int) * (u64::MAX as int))
                    by (nonlinear_arith)
                    requires
                        1 <= p1 as int <= u64::MAX as int,
                        0 <= l as int <= u64::MAX as int,
                ;
            }
            let skip: u128 = (p1 as u128 - 1) * (l as u128);
            let lo: usize = if skip > n as u128 {
                n
            } else {
                skip as usize
            };
            let endp: u128 = skip + l as u128;
            let hi: usize = if endp > n as u128 {
                n
            } else {
                endp as usize
            };
            (lo, hi)
        };
        let ghost paged = page_of(listed_ids(o, sort, direction), limit, page);
        proof {
            assert(paged =~= ids@.subrange(lo as int, hi as int));
        }
        let mut out: Vec<ValueRecord> = Vec::new();
        let mut i: usize = lo;
        while i < hi
            invariant
                o == *old(self),
                o.wf(),
                *self == (Db { stats: self.stats, ..o }),
                lo <= i <= hi <= ids@.len(),
                ids@ == listed_ids(o, sort, direction),
                paged == ids@.subrange(lo as int, hi as int),
                forall|j: int| 0 <= j < ids@.len() ==> o.contains_id(#[trigger] ids@[j]),
                out@.len() == i - lo,
                forall|j: int|
                    0 <= j < out@.len() ==> (#[trigger] out@[j])@ == o.rec_of_id(
                        ids@[lo + j],
                    ),
                self.spec_stats() == (StatRecord {
                    requests: sat_add(o.spec_stats().requests, 1),
                    reads: sat_add(o.spec_stats().reads, (i - lo) as nat),
                    ..o.spec_stats()
                }),
            decreases hi - i,
        {
            let id: u128 = ids[i];
            match self.values.get(id) {
                Some(rec_ref) => {
                    let copy: ValueRecord = rec_ref.clone();
                    proof {
                        o.lemma_id_determines_record(copy@, o.rec_of_id(id));
                        crate::stat_record::lemma_sat_add_chain(
                            o.spec_stats().reads,
                            (i - lo) as nat,
                        );
                    }
                    out.push(copy);
                    self.stats.inc_reads();
                },
                None => {
                    proof {
                        let w = o.rec_of_id(id);
                        assert(o.records().contains(w));
                        let k = choose|k: int|
                            0 <= k < self.records().len() && self.records()[k] == w;
                        assert(false);
                    }
                },
            }
            i = i + 1;
        }
        proof {
            Db::lemma_wf_same_data(o, *self);
            assert forall|j: int| 0 <= j < out@.len() implies (#[trigger] out@[j])@
                == o.rec_of_id(paged[j]) && o.contains_id(paged[j]) by {
                assert(paged[j] == ids@[lo + j]);
            }
        }
        Ok(out)
    }
}


/// The fixed names of the six snapshot files.
pub const API_KEYS_FILE: &'static str = "api_keys.sec";

pub const CREATED_AT_INDEX_FILE: &'static str = "created_at.idx";

pub const DELETE_AT_INDEX_FILE: &'static str = "delete_at.idx";

pub const DATABASE_FILE: &'static str = "values.db";

pub const KEY_INDEX_FILE: &'static str = "key.idx";

pub const UPDATED_AT_INDEX_FILE: &'static str = "updated_at.idx";

/// Some structure's payload exceeds the block format's 32-bit size
/// header: a snapshot cannot represent it.
pub open spec fn snapshot_oversized(o: Db) -> bool {
    ||| crate::codec::enc_ids(o.spec_api_keys()).len() > u32::MAX
    ||| crate::codec::enc_records(o.records()).len() > u32::MAX
    ||| crate::codec::enc_key_index(o.by_key()).len() > u32::MAX
    ||| crate::codec::enc_ts_index(o.by_created_at()).len() > u32::MAX
    ||| crate::codec::enc_ts_index(o.by_updated_at()).len() > u32::MAX
    ||| crate::codec::enc_ts_index(o.by_delete_at()).len() > u32::MAX
}

/// One compressed block per structure, ready to be written to the six
/// snapshot files.
pub struct Snapshot {
    pub api_keys: Vec<u8>,
    pub created_at: Vec<u8>,
    pub delete_at: Vec<u8>,
    pub key: Vec<u8>,
    pub updated_at: Vec<u8>,
    pub values: Vec<u8>,
}

/// The six snapshot files as read back from disk; a missing file is
/// `None` and leaves the corresponding structure as it is.
pub struct SnapshotFiles {
    pub api_keys: Option<Vec<u8>>,
    pub created_at: Option<Vec<u8>>,
    pub delete_at: Option<Vec<u8>>,
    pub key: Option<Vec<u8>>,
    pub updated_at: Option<Vec<u8>>,
    pub values: Option<Vec<u8>>,
}

/// What the records file would install: the current records when the
/// file is absent, else the parsed, id-sorted records of its payload;
/// nothing when any stage refuses.
pub open spec fn cand_records(o: Db, files: SnapshotFiles) -> Option<Seq<RecordV>> {
    match files.values {
        None => Some(o.records()),
        Some(f) => match crate::codec::lz4_unblock_of(f@) {
            None => None,
            Some(p) => match crate::codec::parse_records(p) {
                None => None,
                Some(rs) => if ids_sorted(rs) {
                    Some(rs)
                } else {
                    None
                },
            },
        },
    }
}

/// What the key-index file would install.
pub open spec fn cand_key_entries(o: Db, files: SnapshotFiles) -> Option<Seq<(Seq<u8>, u128)>> {
    match files.key {
        None => Some(o.by_key()),
        Some(f) => match crate::codec::lz4_unblock_of(f@) {
            None => None,
            Some(p) => match crate::codec::parse_key_index(p) {
                None => None,
                Some(es) => if key_sorted(es) {
                    Some(es)
                } else {
                    None
                },
            },
        },
    }
}

/// What a time-index file would install.
pub open spec fn cand_ts(
    current: Seq<(i64, u128)>,
    file: Option<Vec<u8>>,
) -> Option<Seq<(i64, u128)>> {
    match file {
        None => Some(current),
        Some(f) => match crate::codec::lz4_unblock_of(f@) {
            None => None,
            Some(p) => match crate::codec::parse_ts_index(p) {
                None => None,
                Some(es) => if ts_sorted(es) {
                    Some(es)
                } else {
                    None
                },
            },
        },
    }
}

pub open spec fn cand_created(o: Db, files: SnapshotFiles) -> Option<Seq<(i64, u128)>> {
    cand_ts(o.by_created_at(), files.created_at)
}

pub open spec fn cand_updated(o: Db, files: SnapshotFiles) -> Option<Seq<(i64, u128)>> {
    cand_ts(o.by_updated_at(), files.updated_at)
}

pub open spec fn cand_delete(o: Db, files: SnapshotFiles) -> Option<Seq<(i64, u128)>> {
    cand_ts(o.by_delete_at(), files.delete_at)
}

/// What the key-set file would install.
pub open spec fn cand_api(o: Db, files: SnapshotFiles) -> Option<Seq<u128>> {
    match files.api_keys {
        None => Some(o.spec_api_keys()),
        Some(f) => match crate::codec::lz4_unblock_of(f@) {
            None => None,
            Some(p) => crate::codec::parse_ids(p),
        },
    }
}

/// When a restore succeeds: every present file decompresses and parses
/// to a sorted structure, and the six structures that would be
/// installed keep the record invariant and the cross-structure
/// invariant together.
pub open spec fn restorable(o: Db, files: SnapshotFiles) -> bool {
    match (
        cand_records(o, files),
        cand_key_entries(o, files),
        cand_created(o, files),
        cand_updated(o, files),
        cand_delete(o, files),
        cand_api(o, files),
    ) {
        (Some(rv), Some(kv), Some(cv), Some(uv), Some(dv), Some(_)) => {
            &&& recs_inv_of(rv)
            &&& csi_key_of(rv, kv)
            &&& csi_created_of(rv, cv)
            &&& csi_updated_of(rv, uv)
            &&& csi_delete_of(rv, dv)
        },
        _ => false,
    }
}

/// Decides the cross-structure invariant and the per-record invariant
/// over candidate structures.
#[verifier::rlimit(100)]
fn check_consistent(
    values: &ValueMap,
    key: &KeyIndex,
    created: &TsIndex,
    updated: &TsIndex,
    delete: &TsIndex,
) -> (r: bool)
    requires
        values.wf(),
        key.wf(),
        created.wf(),
        updated.wf(),
        delete.wf(),
    ensures
        r == ({
            &&& recs_inv_of(values@)
            &&& csi_key_of(values@, key@)
            &&& csi_created_of(values@, created@)
            &&& csi_updated_of(values@, updated@)
            &&& csi_delete_of(values@, delete@)
        }),
{
    // forward: every record is filed everywhere it belongs
    let vn: usize = values.len();
    let mut i: usize = 0;
    while i < vn
        invariant
            values.wf(),
            key.wf(),
            created.wf(),
            updated.wf(),
            delete.wf(),
            vn == values@.len(),
            i <= vn,
            forall|j: int| 0 <= j < i ==> (#[trigger] values@[j]).inv(),
            forall|j: int|
                0 <= j < i ==> key@.contains(((#[trigger] values@[j]).key, values@[j].id)),
            forall|j: int|
                0 <= j < i ==> created@.contains(
                    ((#[trigger] values@[j]).created_at, values@[j].id),
                ),
            forall|j: int|
                0 <= j < i ==> updated@.contains(
                    ((#[trigger] values@[j]).updated_at, values@[j].id),
                ),
            forall|j: int|
                0 <= j < i ==> ((#[trigger] values@[j]).delete_at matches Some(d)
                    ==> delete@.contains((d, values@[j].id))),
        decreases vn - i,
    {
        let rec: &ValueRecord = values.record_at(i);
        let ghost rv = values@[i as int];
        proof {
            assert(values@.contains(rv));
        }
        if !(rec.created_at <= rec.updated_at) {
            proof {
                assert(!recs_inv_of(values@));
            }
            return false;
        }
        match key.get(rec.key.as_str()) {
            None => {
                proof {
                    if csi_key_of(values@, key@) {
                        reveal(csi_key_of);
                        assert(key@.contains((rv.key, rv.id)));
                        let j = choose|j: int|
                            0 <= j < key@.len() && key@[j] == (rv.key, rv.id);
                        assert(false);
                    }
                }
                return false;
            },
            Some(id) => {
                if id != rec.id {
                    proof {
                        if csi_key_of(values@, key@) {
                            reveal(csi_key_of);
                            assert(key@.contains((rv.key, rv.id)));
                            key.lemma_key_unique(rv.key, id, rv.id);
                            assert(false);
                        }
                    }
                    return false;
                }
            },
        }
        if !created.contains_pair(rec.created_at, rec.id) {
            proof {
                if csi_created_of(values@, created@) {
                    reveal(csi_created_of);
                    assert(created@.contains((rv.created_at, rv.id)));
                }
            }
            return false;
        }
        if !updated.contains_pair(rec.updated_at, rec.id) {
            proof {
                if csi_updated_of(values@, updated@) {
                    reveal(csi_updated_of);
                    assert(updated@.contains((rv.updated_at, rv.id)));
                }
            }
            return false;
        }
        if let Some(d) = rec.delete_at {
            if !delete.contains_pair(d, rec.id) {
                proof {
                    if csi_delete_of(values@, delete@) {
                        reveal(csi_delete_of);
                        assert(delete@.contains((d, rv.id)));
                    }
                }
                return false;
            }
        }
        i = i + 1;
    }
    // backward: every index entry names a live record with the entry's
    // attribute
    let kn: usize = key.len();
    let mut i2: usize = 0;
    while i2 < kn
        invariant
            values.wf(),
            key.wf(),
            kn == key@.len(),
            i2 <= kn,
            forall|j: int|
                0 <= j < i2 ==> exists|r: RecordV|
                    #[trigger] values@.contains(r) && r.id == (#[trigger] key@[j]).1 && r.key
                        == key@[j].0,
        decreases kn - i2,
    {
        let id: u128 = key.id_at(i2);
        let ghost e = key@[i2 as int];
        match values.get(id) {
            None => {
                proof {
                    if csi_key_of(values@, key@) {
                        reveal(csi_key_of);
                        assert(key@.contains(e));
                        let w = choose|r: RecordV| #[trigger] values@.contains(r) && r.id == e.1
                            && r.key == e.0;
                        let j = choose|j: int|
                            0 <= j < values@.len() && values@[j] == w;
                        assert(false);
                    }
                }
                return false;
            },
            Some(rec) => {
                if !crate::order::bytes_eq_exec(
                    rec.key.as_str().as_bytes(),
                    key.key_at(i2).as_str().as_bytes(),
                ) {
                    proof {
                        if csi_key_of(values@, key@) {
                            reveal(csi_key_of);
                            assert(key@.contains(e));
                            let w = choose|r: RecordV| #[trigger] values@.contains(r) && r.id
                                == e.1 && r.key == e.0;
                            values.lemma_id_unique(w, rec@);
                            assert(false);
                        }
                    }
                    return false;
                }
                proof {
                    assert(values@.contains(rec@) && rec@.id == e.1 && rec@.key == e.0);
                }
            },
        }
        i2 = i2 + 1;
    }
    let cn: usize = created.len();
    let mut i3: usize = 0;
    while i3 < cn
        invariant
            values.wf(),
            created.wf(),
            cn == created@.len(),
            i3 <= cn,
            forall|j: int|
                0 <= j < i3 ==> exists|r: RecordV|
                    #[trigger] values@.contains(r) && r.id == (#[trigger] created@[j]).1
                        && r.created_at == created@[j].0,
        decreases cn - i3,
    {
        let e: (i64, u128) = created.entry_at(i3);
        match values.get(e.1) {
            None => {
                proof {
                    if csi_created_of(values@, created@) {
                        reveal(csi_created_of);
                        assert(created@.contains(created@[i3 as int]));
                        let w = choose|r: RecordV| #[trigger] values@.contains(r) && r.id == e.1
                            && r.created_at == e.0;
                        let j = choose|j: int|
                            0 <= j < values@.len() && values@[j] == w;
                        assert(false);
                    }
                }
                return false;
            },
            Some(rec) => {
                if rec.created_at != e.0 {
                    proof {
                        if csi_created_of(values@, created@) {
                            reveal(csi_created_of);
                            assert(created@.contains(created@[i3 as int]));
                            let w = choose|r: RecordV| #[trigger] values@.contains(r) && r.id
                                == e.1 && r.created_at == e.0;
                            values.lemma_id_unique(w, rec@);
                            assert(false);
                        }
                    }
                    return false;
                }
                proof {
                    assert(values@.contains(rec@) && rec@.id == e.1 && rec@.created_at == e.0);
                }
            },
        }
        i3 = i3 + 1;
    }
    let un: usize = updated.len();
    let mut i4: usize = 0;
    while i4 < un
        invariant
            values.wf(),
            updated.wf(),
            un == updated@.len(),
            i4 <= un,
            forall|j: int|
                0 <= j < i4 ==> exists|r: RecordV|
                    #[trigger] values@.contains(r) && r.id == (#[trigger] updated@[j]).1
                        && r.updated_at == updated@[j].0,
        decreases un - i4,
    {
        let e: (i64, u128) = updated.entry_at(i4);
        match values.get(e.1) {
            None => {
                proof {
                    if csi_updated_of(values@, updated@) {
                        reveal(csi_updated_of);
                        assert(updated@.contains(updated@[i4 as int]));
                        let w = choose|r: RecordV| #[trigger] values@.contains(r) && r.id == e.1
                            && r.updated_at == e.0;
                        let j = choose|j: int|
                            0 <= j < values@.len() && values@[j] == w;
                        assert(false);
                    }
                }
                return false;
            },
            Some(rec) => {
                if rec.updated_at != e.0 {
                    proof {
                        if csi_updated_of(values@, updated@) {
                            reveal(csi_updated_of);
                            assert(updated@.contains(updated@[i4 as int]));
                            let w = choose|r: RecordV| #[trigger] values@.contains(r) && r.id
                                == e.1 && r.updated_at == e.0;
                            values.lemma_id_unique(w, rec@);
                            assert(false);
                        }
                    }
                    return false;
                }
                proof {
                    assert(values@.contains(rec@) && rec@.id == e.1 && rec@.updated_at == e.0);
                }
            },
        }
        i4 = i4 + 1;
    }
    let dn: usize = delete.len();
    let mut i5: usize = 0;
    while i5 < dn
        invariant
            values.wf(),
            delete.wf(),
            dn == delete@.len(),
            i5 <= dn,
            forall|j: int|
                0 <= j < i5 ==> exists|r: RecordV|
                    #[trigger] values@.contains(r) && r.id == (#[trigger] delete@[j]).1
                        && r.delete_at == Some(delete@[j].0),
        decreases dn - i5,
    {
        let e: (i64, u128) = delete.entry_at(i5);
        match values.get(e.1) {
            None => {
                proof {
                    if csi_delete_of(values@, delete@) {
                        reveal(csi_delete_of);
                        assert(delete@.contains(delete@[i5 as int]));
                        let w = choose|r: RecordV| #[trigger] values@.contains(r) && r.id == e.1
                            && r.delete_at == Some(e.0);
                        let j = choose|j: int|
                            0 <= j < values@.len() && values@[j] == w;
                        assert(false);
                    }
                }
                return false;
            },
            Some(rec) => {
                let matches_entry: bool = match rec.delete_at {
                    Some(d) => d == e.0,
                    None => false,
                };
                if !matches_entry {
                    proof {
                        if csi_delete_of(values@, delete@) {
                            reveal(csi_delete_of);
                            assert(delete@.contains(delete@[i5 as int]));
                            let w = choose|r: RecordV| #[trigger] values@.contains(r) && r.id
                                == e.1 && r.delete_at == Some(e.0);
                            values.lemma_id_unique(w, rec@);
                            assert(false);
                        }
                    }
                    return false;
                }
                proof {
                    assert(values@.contains(rec@) && rec@.id == e.1 && rec@.delete_at == Some(
                        e.0,
                    ));
                }
            },
        }
        i5 = i5 + 1;
    }
    proof {
        assert(recs_inv_of(values@)) by {
            assert forall|r: RecordV| #[trigger] values@.contains(r) implies r.inv() by {
                let j = choose|j: int| 0 <= j < values@.len() && values@[j] == r;
            }
        }
        assert(csi_key_of(values@, key@)) by {
            reveal(csi_key_of);
            assert forall|r: RecordV| #[trigger] values@.contains(r) implies key@.contains(
                (r.key, r.id),
            ) by {
                let j = choose|j: int| 0 <= j < values@.len() && values@[j] == r;
            }
            assert forall|e: (Seq<u8>, u128)| #[trigger] key@.contains(e) implies exists|
                r: RecordV,
            | #[trigger] values@.contains(r) && r.id == e.1 && r.key == e.0 by {
                let j = choose|j: int| 0 <= j < key@.len() && key@[j] == e;
            }
        }
        assert(csi_created_of(values@, created@)) by {
            reveal(csi_created_of);
            assert forall|r: RecordV| #[trigger] values@.contains(r) implies created@.contains(
                (r.created_at, r.id),
            ) by {
                let j = choose|j: int| 0 <= j < values@.len() && values@[j] == r;
            }
            assert forall|e: (i64, u128)| #[trigger] created@.contains(e) implies exists|
                r: RecordV,
            | #[trigger] values@.contains(r) && r.id == e.1 && r.created_at == e.0 by {
                let j = choose|j: int| 0 <= j < created@.len() && created@[j] == e;
            }
        }
        assert(csi_updated_of(values@, updated@)) by {
            reveal(csi_updated_of);
            assert forall|r: RecordV| #[trigger] values@.contains(r) implies updated@.contains(
                (r.updated_at, r.id),
            ) by {
                let j = choose|j: int| 0 <= j < values@.len() && values@[j] == r;
            }
            assert forall|e: (i64, u128)| #[trigger] updated@.contains(e) implies exists|
                r: RecordV,
            | #[trigger] values@.contains(r) && r.id == e.1 && r.updated_at == e.0 by {
                let j = choose|j: int| 0 <= j < updated@.len() && updated@[j] == e;
            }
        }
        assert(csi_delete_of(values@, delete@)) by {
            reveal(csi_delete_of);
            assert forall|r: RecordV| #[trigger] values@.contains(r) implies (r.delete_at
                matches Some(d) ==> delete@.contains((d, r.id))) by {
                let j = choose|j: int| 0 <= j < values@.len() && values@[j] == r;
            }
            assert forall|e: (i64, u128)| #[trigger] delete@.contains(e) implies exists|
                r: RecordV,
            | #[trigger] values@.contains(r) && r.id == e.1 && r.delete_at == Some(e.0) by {
                let j = choose|j: int| 0 <= j < delete@.len() && delete@[j] == e;
            }
        }
    }
    true
}

impl Db {
    /// Snapshot the six structures, gated by the configuration and the
    /// hybrid write-count / elapsed-time trigger. `None` means nothing
    /// was snapshotted: no data directory, the trigger not met, or a
    /// structure too large for the block format's 32-bit size header.
    ///
    /// The blocks are handed back for an outer layer to write to the
    /// six snapshot files; this keeps disk I/O outside the engine.
    /// Nothing is marked saved here: once the files are safely on disk
    /// the outer layer calls [`Db::confirm_saved`], so a failed write
    /// leaves the counters untouched and the next save retries.
    pub fn save(&mut self, now: i64) -> (r: Option<Snapshot>)
        requires
            old(self).wf(),
        ensures
            *final(self) == *old(self),
            final(self).wf(),
            match r {
                None => old(self).spec_config().data_dir is None || !old(
                    self,
                ).spec_stats().spec_can_save(
                    old(self).spec_config().save_triggered_after_ms,
                    old(self).spec_config().save_triggered_by_threshold,
                    now,
                ) || snapshot_oversized(*old(self)),
                Some(snap) => {
                    &&& old(self).spec_config().data_dir is Some
                    &&& old(self).spec_stats().spec_can_save(
                        old(self).spec_config().save_triggered_after_ms,
                        old(self).spec_config().save_triggered_by_threshold,
                        now,
                    )
                    &&& !snapshot_oversized(*old(self))
                    &&& snap.api_keys@ == crate::codec::lz4_block_of(
                        crate::codec::enc_ids(old(self).spec_api_keys()),
                    )
                    &&& snap.values@ == crate::codec::lz4_block_of(
                        crate::codec::enc_records(old(self).records()),
                    )
                    &&& snap.key@ == crate::codec::lz4_block_of(
                        crate::codec::enc_key_index(old(self).by_key()),
                    )
                    &&& snap.created_at@ == crate::codec::lz4_block_of(
                        crate::codec::enc_ts_index(old(self).by_created_at()),
                    )
                    &&& snap.updated_at@ == crate::codec::lz4_block_of(
                        crate::codec::enc_ts_index(old(self).by_updated_at()),
                    )
                    &&& snap.delete_at@ == crate::codec::lz4_block_of(
                        crate::codec::enc_ts_index(old(self).by_delete_at()),
                    )
                    &&& crate::codec::lz4_unblock_of(snap.api_keys@) == Some(
                        crate::codec::enc_ids(old(self).spec_api_keys()),
                    )
                    &&& crate::codec::lz4_unblock_of(snap.values@) == Some(
                        crate::codec::enc_records(old(self).records()),
                    )
                    &&& crate::codec::lz4_unblock_of(snap.key@) == Some(
                        crate::codec::enc_key_index(old(self).by_key()),
                    )
                    &&& crate::codec::lz4_unblock_of(snap.created_at@) == Some(
                        crate::codec::enc_ts_index(old(self).by_created_at()),
                    )
                    &&& crate::codec::lz4_unblock_of(snap.updated_at@) == Some(
                        crate::codec::enc_ts_index(old(self).by_updated_at()),
                    )
                    &&& crate::codec::lz4_unblock_of(snap.delete_at@) == Some(
                        crate::codec::enc_ts_index(old(self).by_delete_at()),
                    )
                    &&& crate::codec::recs_sized(old(self).records())
                    &&& crate::codec::recs_utf8(old(self).records())
                    &&& old(self).records().len() <= u64::MAX
                    &&& crate::codec::keys_sized(old(self).by_key())
                    &&& crate::codec::keys_utf8(old(self).by_key())
                    &&& old(self).by_key().len() <= u64::MAX
                    &&& old(self).by_created_at().len() <= u64::MAX
                    &&& old(self).by_updated_at().len() <= u64::MAX
                    &&& old(self).by_delete_at().len() <= u64::MAX
                    &&& old(self).spec_api_keys().len() <= u64::MAX
                },
            },
    {
        if self.config.data_dir.is_none() {
            return None;
        }
        if !self.stats.can_save(
            self.config.save_triggered_after_ms,
            self.config.save_triggered_by_threshold,
            now,
        ) {
            return None;
        }
        let api_payload: Vec<u8> = crate::codec::encode_ids(&self.api_keys);
        let values_payload: Vec<u8> = crate::codec::encode_records(&self.values);
        let key_payload: Vec<u8> = crate::codec::encode_key_index(&self.indexes.key);
        let created_payload: Vec<u8> = crate::codec::encode_ts_index(&self.indexes.created_at);
        let updated_payload: Vec<u8> = crate::codec::encode_ts_index(&self.indexes.updated_at);
        let delete_payload: Vec<u8> = crate::codec::encode_ts_index(&self.indexes.delete_at);
        if api_payload.len() as u64 > u32::MAX as u64 || values_payload.len() as u64
            > u32::MAX as u64 || key_payload.len() as u64 > u32::MAX as u64
            || created_payload.len() as u64 > u32::MAX as u64 || updated_payload.len() as u64
            > u32::MAX as u64 || delete_payload.len() as u64 > u32::MAX as u64 {
            return None;
        }
        let snap = Snapshot {
            api_keys: crate::codec::compress_block(&api_payload),
            created_at: crate::codec::compress_block(&created_payload),
            delete_at: crate::codec::compress_block(&delete_payload),
            key: crate::codec::compress_block(&key_payload),
            updated_at: crate::codec::compress_block(&updated_payload),
            values: crate::codec::compress_block(&values_payload),
        };
        Some(snap)
    }

    /// Marks every write so far as saved, at time `now`: the outer
    /// layer calls this after the blocks that [`Db::save`] handed out
    /// are safely on disk. Until then the counters stand, so a save
    /// whose writes failed is retried by the next one.
    pub fn confirm_saved(&mut self, now: i64)
        requires
            old(self).wf(),
        ensures
            final(self).wf(),
            final(self).same_data(*old(self)),
            final(self).same_surround(*old(self)),
            final(self).spec_stats() == (StatRecord {
                saved_writes: old(self).spec_stats().writes,
                last_saved_at: now,
                ..old(self).spec_stats()
            }),
    {
        self.stats.update_saved_writes(now);
        proof {
            Db::lemma_wf_same_data(*old(self), *self);
        }
    }

    /// Install a snapshot read back from disk. A missing file leaves
    /// its structure as it is; a file that fails decompression or
    /// parsing, an unsorted structure, or a combination that breaks the
    /// cross-structure invariant is `SnapshotCorrupt`, and the store is
    /// left untouched. Success is owed exactly on a restorable set of
    /// files ([`restorable`]), and then each structure is exactly what
    /// its file decompresses and parses to.
    pub fn restore(&mut self, files: SnapshotFiles) -> (r: Result<(), Error>)
        requires
            old(self).wf(),
        ensures
            r is Ok <==> restorable(*old(self), files),
            match r {
                Err(e) => e == Error::SnapshotCorrupt && *final(self) == *old(self),
                Ok(()) => {
                    &&& final(self).wf()
                    &&& final(self).spec_stats() == old(self).spec_stats()
                    &&& final(self).spec_config() == old(self).spec_config()
                    &&& cand_records(*old(self), files) == Some(final(self).records())
                    &&& cand_key_entries(*old(self), files) == Some(final(self).by_key())
                    &&& cand_created(*old(self), files) == Some(final(self).by_created_at())
                    &&& cand_updated(*old(self), files) == Some(final(self).by_updated_at())
                    &&& cand_delete(*old(self), files) == Some(final(self).by_delete_at())
                    &&& cand_api(*old(self), files) == Some(final(self).spec_api_keys())
                },
            },
    {
        let next_values: ValueMap = match &files.values {
            None => self.values.duplicate(),
            Some(blob) => {
                let payload: Vec<u8> = match crate::codec::decompress_block(blob) {
                    None => {
                        proof {
                            assert(!restorable(*old(self), files));
                        }
                        return Err(Error::SnapshotCorrupt);
                    },
                    Some(p) => p,
                };
                let recs: Vec<ValueRecord> = match crate::codec::decode_records(&payload) {
                    None => {
                        proof {
                            assert(!restorable(*old(self), files));
                        }
                        return Err(Error::SnapshotCorrupt);
                    },
                    Some(v) => v,
                };
                if !crate::index::check_ids_sorted(&recs) {
                    proof {
                        assert(!restorable(*old(self), files));
                    }
                    return Err(Error::SnapshotCorrupt);
                }
                ValueMap::from_sorted(recs)
            },
        };
        proof {
            assert(cand_records(*old(self), files) == Some(next_values@));
        }
        let next_key: KeyIndex = match &files.key {
            None => self.indexes.key.duplicate(),
            Some(blob) => {
                let payload: Vec<u8> = match crate::codec::decompress_block(blob) {
                    None => {
                        proof {
                            assert(!restorable(*old(self), files));
                        }
                        return Err(Error::SnapshotCorrupt);
                    },
                    Some(p) => p,
                };
                let entries: Vec<(String, u128)> = match crate::codec::decode_key_index(
                    &payload,
                ) {
                    None => {
                        proof {
                            assert(!restorable(*old(self), files));
                        }
                        return Err(Error::SnapshotCorrupt);
                    },
                    Some(v) => v,
                };
                if !crate::index::check_key_sorted(&entries) {
                    proof {
                        assert(!restorable(*old(self), files));
                    }
                    return Err(Error::SnapshotCorrupt);
                }
                KeyIndex::from_sorted(entries)
            },
        };
        proof {
            assert(cand_key_entries(*old(self), files) == Some(next_key@));
        }
        let next_created: TsIndex = match &files.created_at {
            None => self.indexes.created_at.duplicate(),
            Some(blob) => {
                let payload: Vec<u8> = match crate::codec::decompress_block(blob) {
                    None => {
                        proof {
                            assert(!restorable(*old(self), files));
                        }
                        return Err(Error::SnapshotCorrupt);
                    },
                    Some(p) => p,
                };
                let entries: Vec<(i64, u128)> = match crate::codec::decode_ts_index(&payload) {
                    None => {
                        proof {
                            assert(!restorable(*old(self), files));
                        }
                        return Err(Error::SnapshotCorrupt);
                    },
                    Some(v) => v,
                };
                if !crate::index::check_ts_sorted(&entries) {
                    proof {
                        assert(!restorable(*old(self), files));
                    }
                    return Err(Error::SnapshotCorrupt);
                }
                TsIndex::from_sorted(entries)
            },
        };
        proof {
            assert(cand_created(*old(self), files) == Some(next_created@));
        }
        let next_updated: TsIndex = match &files.updated_at {
            None => self.indexes.updated_at.duplicate(),
            Some(blob) => {
                let payload: Vec<u8> = match crate::codec::decompress_block(blob) {
                    None => {
                        proof {
                            assert(!restorable(*old(self), files));
                        }
                        return Err(Error::SnapshotCorrupt);
                    },
                    Some(p) => p,
                };
                let entries: Vec<(i64, u128)> = match crate::codec::decode_ts_index(&payload) {
                    None => {
                        proof {
                            assert(!restorable(*old(self), files));
                        }
                        return Err(Error::SnapshotCorrupt);
                    },
                    Some(v) => v,
                };
                if !crate::index::check_ts_sorted(&entries) {
                    proof {
                        assert(!restorable(*old(self), files));
                    }
                    return Err(Error::SnapshotCorrupt);
                }
                TsIndex::from_sorted(entries)
            },
        };
        proof {
            assert(cand_updated(*old(self), files) == Some(next_updated@));
        }
        let next_delete: TsIndex = match &files.delete_at {
            None => self.indexes.delete_at.duplicate(),
            Some(blob) => {
                let payload: Vec<u8> = match crate::codec::decompress_block(blob) {
                    None => {
                        proof {
                            assert(!restorable(*old(self), files));
                        }
                        return Err(Error::SnapshotCorrupt);
                    },
                    Some(p) => p,
                };
                let entries: Vec<(i64, u128)> = match crate::codec::decode_ts_index(&payload) {
                    None => {
                        proof {
                            assert(!restorable(*old(self), files));
                        }
                        return Err(Error::SnapshotCorrupt);
                    },
                    Some(v) => v,
                };
                if !crate::index::check_ts_sorted(&entries) {
                    proof {
                        assert(!restorable(*old(self), files));
                    }
                    return Err(Error::SnapshotCorrupt);
                }
                TsIndex::from_sorted(entries)
            },
        };
        proof {
            assert(cand_delete(*old(self), files) == Some(next_delete@));
        }
        let next_api: Option<Vec<u128>> = match &files.api_keys {
            None => None,
            Some(blob) => {
                let payload: Vec<u8> = match crate::codec::decompress_block(blob) {
                    None => {
                        proof {
                            assert(!restorable(*old(self), files));
                        }
                        return Err(Error::SnapshotCorrupt);
                    },
                    Some(p) => p,
                };
                match crate::codec::decode_ids(&payload) {
                    None => {
                        proof {
                            assert(!restorable(*old(self), files));
                        }
                        return Err(Error::SnapshotCorrupt);
                    },
                    Some(v) => Some(v),
                }
            },
        };
        proof {
            match &next_api {
                None => {
                    assert(cand_api(*old(self), files) == Some(old(self).spec_api_keys()));
                },
                Some(ids) => {
                    assert(cand_api(*old(self), files) == Some(ids@));
                },
            }
        }
        if !check_consistent(&next_values, &next_key, &next_created, &next_updated, &next_delete)
        {
            proof {
                assert(!restorable(*old(self), files));
            }
            return Err(Error::SnapshotCorrupt);
        }
        proof {
            assert(restorable(*old(self), files));
        }
        self.values = next_values;
        self.indexes = Index {
            key: next_key,
            created_at: next_created,
            updated_at: next_updated,
            delete_at: next_delete,
        };
        match next_api {
            None => {},
            Some(ids) => {
                self.api_keys = ids;
            },
        }
        Ok(())
    }
}


/// What `try_append` writes: arrays concatenate, a lone value joins the
/// tail, text concatenates with text; anything else is no change.
pub open spec fn append_result(rv: ValV, av: ValV) -> Option<ValV> {
    match rv {
        ValV::Arr(a) => match av {
            ValV::Arr(b) => Some(ValV::Arr(a + b)),
            _ => Some(ValV::Arr(a.push(av))),
        },
        ValV::Str(st) => match av {
            ValV::Str(t) => Some(ValV::Str(st + t)),
            _ => None,
        },
        _ => None,
    }
}

/// What `try_prepend` writes: the mirror image of `append_result`.
pub open spec fn prepend_result(rv: ValV, av: ValV) -> Option<ValV> {
    match rv {
        ValV::Arr(a) => match av {
            ValV::Arr(b) => Some(ValV::Arr(b + a)),
            _ => Some(ValV::Arr(seq![av] + a)),
        },
        ValV::Str(st) => match av {
            ValV::Str(t) => Some(ValV::Str(t + st)),
            _ => None,
        },
        _ => None,
    }
}

/// How many elements a pop takes: the asked-for count (one when
/// absent), but never more than the array holds.
pub open spec fn pop_count(len: nat, n: Option<usize>) -> int {
    let want = (match n {
        None => 1,
        Some(x) => x as int,
    });
    if want > len {
        len as int
    } else {
        want
    }
}

/// The record the typed mutators leave under the key: same id, key,
/// creation time and expiration, the new value, and a fresh update
/// instant.
pub open spec fn mutated_record(o: Db, kb: Seq<u8>, nv: ValV, now: i64) -> RecordV {
    RecordV {
        value: nv,
        updated_at: updated_time(o.rec_of_key(kb).created_at, now),
        ..o.rec_of_key(kb)
    }
}

/// The state change every successful typed mutation makes: the one
/// record rewritten in place, only the update-time index entry moved,
/// one request and one write counted.
pub open spec fn mutate_ok(o: Db, f: Db, kb: Seq<u8>, nv: ValV, now: i64) -> bool {
    let recv = mutated_record(o, kb, nv, now);
    &&& o.has_key(kb)
    &&& forall|q: RecordV|
        #[trigger] f.records().contains(q) <==> ((o.records().contains(q) && q.id != recv.id)
            || q == recv)
    &&& f.by_key() == o.by_key()
    &&& f.by_created_at() == o.by_created_at()
    &&& f.by_delete_at() == o.by_delete_at()
    &&& forall|p: (i64, u128)|
        #[trigger] f.by_updated_at().contains(p) <==> ((o.by_updated_at().contains(p) && p != (
            o.rec_of_key(kb).updated_at,
            recv.id,
        )) || p == (recv.updated_at, recv.id))
    &&& f.spec_stats() == (StatRecord {
        requests: sat_add(o.spec_stats().requests, 1),
        writes: sat_add(o.spec_stats().writes, 1),
        ..o.spec_stats()
    })
}

/// The state change a refused or empty mutation makes: nothing but one
/// request counted.
pub open spec fn mutate_noop(o: Db, f: Db) -> bool {
    &&& f.same_data(o)
    &&& f.spec_stats() == (StatRecord {
        requests: sat_add(o.spec_stats().requests, 1),
        ..o.spec_stats()
    })
}

impl Db {
    /// The shared tail of the typed mutators: rewrite the record under
    /// `id` with `new_value`, move its update-time entry, count the
    /// write.
    fn commit_value(
        &mut self,
        id: u128,
        key_text: String,
        created_at: i64,
        delete_at: Option<i64>,
        new_value: Value,
        now: i64,
        Ghost(o): Ghost<Db>,
        Ghost(kb): Ghost<Seq<u8>>,
    ) -> (rec: ValueRecord)
        requires
            o.wf(),
            old(self).wf(),
            old(self).same_data(o),
            old(self).same_surround(o),
            old(self).spec_stats() == (StatRecord {
                requests: sat_add(o.spec_stats().requests, 1),
                ..o.spec_stats()
            }),
            o.has_key(kb),
            o.rec_of_key(kb).id == id,
            encode_utf8(key_text@) == kb,
            created_at == o.rec_of_key(kb).created_at,
            delete_at == o.rec_of_key(kb).delete_at,
        ensures
            final(self).wf(),
            final(self).same_surround(o),
            mutate_ok(o, *final(self), kb, new_value.deep(), now),
            rec@ == mutated_record(o, kb, new_value.deep(), now),
    {
        let updated_at: i64 = if now < created_at {
            created_at
        } else {
            now
        };
        let rec = ValueRecord {
            id,
            key: key_text,
            value: new_value,
            created_at,
            updated_at,
            delete_at,
        };
        let result: ValueRecord = rec.clone();
        proof {
            assert(o.records().contains(o.rec_of_key(kb)));
            assert(self.records().contains(o.rec_of_key(kb)));
            assert(self.contains_id(id));
            let w2 = self.rec_of_id(id);
            assert(self.records().contains(w2) && w2.id == id);
            assert(o.records().contains(w2));
            o.lemma_id_determines_record(w2, o.rec_of_key(kb));
        }
        let ghost mid = *self;
        self.replace_record(rec);
        let ghost before_stats = *self;
        self.stats.inc_writes();
        proof {
            Db::lemma_wf_same_data(before_stats, *self);
            let w = o.rec_of_key(kb);
            assert(mid.rec_of_id(result@.id) == w);
            assert(result@.delete_at == w.delete_at);
            assert forall|p: (i64, u128)|
                self.by_delete_at().contains(p) <==> o.by_delete_at().contains(p) by {
                assert(self.by_delete_at().contains(p) <==> ((mid.by_delete_at().contains(p)
                    && !(mid.rec_of_id(result@.id).delete_at matches Some(d0) && p == (
                    d0,
                    result@.id,
                ))) || (result@.delete_at matches Some(d) && p == (d, result@.id))));
                match w.delete_at {
                    Some(d0) => {
                        if p == (d0, result@.id) {
                            assert(o.by_delete_at().contains(p)) by {
                                o.lemma_rec_indexed(w);
                            }
                        }
                    },
                    None => {},
                }
            }
            crate::index::lemma_ts_sorted_same_contains(self.by_delete_at(), o.by_delete_at());
        }
        result
    }

    /// Append to an array, or to text with text. Anything else is the
    /// "no change" outcome.
    pub fn try_append(&mut self, key: &str, value: Value, now: i64) -> (r: Result<
        Option<ValueRecord>,
        Error,
    >)
        requires
            old(self).wf(),
        ensures
            final(self).wf(),
            final(self).same_surround(*old(self)),
            match r {
                Err(e) => {
                    &&& e == Error::NotFound
                    &&& !old(self).has_key(encode_utf8(key@))
                    &&& mutate_noop(*old(self), *final(self))
                },
                Ok(None) => {
                    &&& old(self).has_key(encode_utf8(key@))
                    &&& append_result(
                        old(self).rec_of_key(encode_utf8(key@)).value,
                        value.deep(),
                    ) is None
                    &&& mutate_noop(*old(self), *final(self))
                },
                Ok(Some(rec)) => {
                    &&& append_result(old(self).rec_of_key(encode_utf8(key@)).value, value.deep())
                        matches Some(nv) && rec@ == mutated_record(
                        *old(self),
                        encode_utf8(key@),
                        nv,
                        now,
                    ) && mutate_ok(*old(self), *final(self), encode_utf8(key@), nv, now)
                },
            },
    {
        let ghost kb = encode_utf8(key@);
        let ghost o = *old(self);
        self.stats.inc_requests();
        let id: u128 = match self.indexes.key.get(key) {
            None => {
                proof {
                    old(self).lemma_key_absent(kb);
                    Db::lemma_wf_same_data(*old(self), *self);
                }
                return Err(Error::NotFound);
            },
            Some(id) => id,
        };
        proof {
            assert(o.by_key().contains((kb, id)));
            o.lemma_key_entry((kb, id));
        }
        let found: (Value, i64, Option<i64>, String) = match self.values.get(id) {
            Some(r0) => {
                proof {
                    o.lemma_id_determines_record(r0@, o.rec_of_id(id));
                }
                (r0.value.clone(), r0.created_at, r0.delete_at, r0.key.clone())
            },
            None => {
                proof {
                    let w = o.rec_of_id(id);
                    let i = choose|i: int|
                        0 <= i < self.records().len() && self.records()[i] == w;
                    assert(false);
                }
                return Err(Error::NotFound);
            },
        };
        let (old_val, created_at, delete_at, key_text): (Value, i64, Option<i64>, String) =
            found;
        let new_val: Value = match old_val {
            Value::Array(mut xs) => {
                let ghost pre = crate::value_record::deep_seq(xs@);
                proof {
                    crate::value_record::lemma_deep_seq(xs@);
                }
                match value {
                    Value::Array(ys) => {
                        let ghost ysd = crate::value_record::deep_seq(ys@);
                        proof {
                            crate::value_record::lemma_deep_seq(ys@);
                        }
                        let m: usize = ys.len();
                        let mut k: usize = 0;
                        while k < m
                            invariant
                                m == ys@.len(),
                                k <= m,
                                pre.len() <= xs@.len(),
                                ysd == crate::value_record::deep_seq(ys@),
                                ysd.len() == m,
                                forall|j: int|
                                    0 <= j < m ==> #[trigger] ysd[j] == ys@[j].deep(),
                                xs@.len() == pre.len() + k,
                                crate::value_record::deep_seq(xs@) =~= pre + ysd.take(k as int),
                            decreases m - k,
                        {
                            proof {
                                crate::value_record::lemma_deep_seq(xs@);
                            }
                            xs.push(ys[k].clone());
                            proof {
                                crate::value_record::lemma_deep_seq(xs@);
                                assert(crate::value_record::deep_seq(xs@) =~= (pre + ysd.take(
                                    k as int,
                                )).push(ysd[k as int]));
                                assert((pre + ysd.take(k as int)).push(ysd[k as int]) =~= pre
                                    + ysd.take(k as int + 1));
                            }
                            k = k + 1;
                        }
                        proof {
                            assert(ysd.take(m as int) =~= ysd);
                            assert(crate::value_record::deep_seq(xs@) =~= pre + ysd);
                        }
                        Value::Array(xs)
                    },
                    other => {
                        xs.push(other);
                        proof {
                            crate::value_record::lemma_deep_seq(xs@);
                            assert(crate::value_record::deep_seq(xs@) =~= pre.push(
                                xs@[xs@.len() - 1].deep(),
                            ));
                        }
                        Value::Array(xs)
                    },
                }
            },
            Value::String(st) => {
                match value {
                    Value::String(t) => {
                        let joined: String = vstd::string::StringExecFns::concat(
                            st,
                            t.as_str(),
                        );
                        Value::String(joined)
                    },
                    _ => {
                        proof {
                            Db::lemma_wf_same_data(o, *self);
                        }
                        return Ok(None);
                    },
                }
            },
            _ => {
                proof {
                    Db::lemma_wf_same_data(o, *self);
                }
                return Ok(None);
            },
        };
        let rec = self.commit_value(
            id,
            key_text,
            created_at,
            delete_at,
            new_val,
            now,
            Ghost(o),
            Ghost(kb),
        );
        Ok(Some(rec))
    }

    /// Prepend to an array, or to text with text. Anything else is the
    /// "no change" outcome.
    pub fn try_prepend(&mut self, key: &str, value: Value, now: i64) -> (r: Result<
        Option<ValueRecord>,
        Error,
    >)
        requires
            old(self).wf(),
        ensures
            final(self).wf(),
            final(self).same_surround(*old(self)),
            match r {
                Err(e) => {
                    &&& e == Error::NotFound
                    &&& !old(self).has_key(encode_utf8(key@))
                    &&& mutate_noop(*old(self), *final(self))
                },
                Ok(None) => {
                    &&& old(self).has_key(encode_utf8(key@))
                    &&& prepend_result(
                        old(self).rec_of_key(encode_utf8(key@)).value,
                        value.deep(),
                    ) is None
                    &&& mutate_noop(*old(self), *final(self))
                },
                Ok(Some(rec)) => {
                    &&& prepend_result(
                        old(self).rec_of_key(encode_utf8(key@)).value,
                        value.deep(),
                    ) matches Some(nv) && rec@ == mutated_record(
                        *old(self),
                        encode_utf8(key@),
                        nv,
                        now,
                    ) && mutate_ok(*old(self), *final(self), encode_utf8(key@), nv, now)
                },
            },
    {
        let ghost kb = encode_utf8(key@);
        let ghost o = *old(self);
        self.stats.inc_requests();
        let id: u128 = match self.indexes.key.get(key) {
            None => {
                proof {
                    old(self).lemma_key_absent(kb);
                    Db::lemma_wf_same_data(*old(self), *self);
                }
                return Err(Error::NotFound);
            },
            Some(id) => id,
        };
        proof {
            assert(o.by_key().contains((kb, id)));
            o.lemma_key_entry((kb, id));
        }
        let found: (Value, i64, Option<i64>, String) = match self.values.get(id) {
            Some(r0) => {
                proof {
                    o.lemma_id_determines_record(r0@, o.rec_of_id(id));
                }
                (r0.value.clone(), r0.created_at, r0.delete_at, r0.key.clone())
            },
            None => {
                proof {
                    let w = o.rec_of_id(id);
                    let i = choose|i: int|
                        0 <= i < self.records().len() && self.records()[i] == w;
                    assert(false);
                }
                return Err(Error::NotFound);
            },
        };
        let (old_val, created_at, delete_at, key_text): (Value, i64, Option<i64>, String) =
            found;
        let new_val: Value = match old_val {
            Value::Array(xs) => {
                let ghost post = crate::value_record::deep_seq(xs@);
                proof {
                    crate::value_record::lemma_deep_seq(xs@);
                }
                match value {
                    Value::Array(mut ys) => {
                        let ghost pre = crate::value_record::deep_seq(ys@);
                        proof {
                            crate::value_record::lemma_deep_seq(ys@);
                        }
                        let m: usize = xs.len();
                        let mut k: usize = 0;
                        let mut acc: Vec<Value> = ys;
                        while k < m
                            invariant
                                m == xs@.len(),
                                k <= m,
                                post == crate::value_record::deep_seq(xs@),
                                post.len() == m,
                                forall|j: int|
                                    0 <= j < m ==> #[trigger] post[j] == xs@[j].deep(),
                                acc@.len() == pre.len() + k,
                                crate::value_record::deep_seq(acc@) =~= pre + post.take(
                                    k as int,
                                ),
                            decreases m - k,
                        {
                            proof {
                                crate::value_record::lemma_deep_seq(acc@);
                            }
                            acc.push(xs[k].clone());
                            proof {
                                crate::value_record::lemma_deep_seq(acc@);
                                assert(crate::value_record::deep_seq(acc@) =~= (pre + post.take(
                                    k as int,
                                )).push(post[k as int]));
                                assert((pre + post.take(k as int)).push(post[k as int]) =~= pre
                                    + post.take(k as int + 1));
                            }
                            k = k + 1;
                        }
                        proof {
                            assert(post.take(m as int) =~= post);
                            assert(crate::value_record::deep_seq(acc@) =~= pre + post);
                        }
                        Value::Array(acc)
                    },
                    other => {
                        let mut acc: Vec<Value> = Vec::new();
                        acc.push(other);
                        let ghost first = acc@[0].deep();
                        proof {
                            crate::value_record::lemma_deep_seq(acc@);
                        }
                        let m: usize = xs.len();
                        let mut k: usize = 0;
                        while k < m
                            invariant
                                m == xs@.len(),
                                k <= m,
                                post == crate::value_record::deep_seq(xs@),
                                post.len() == m,
                                forall|j: int|
                                    0 <= j < m ==> #[trigger] post[j] == xs@[j].deep(),
                                acc@.len() == 1 + k,
                                crate::value_record::deep_seq(acc@) =~= seq![first] + post.take(
                                    k as int,
                                ),
                            decreases m - k,
                        {
                            proof {
                                crate::value_record::lemma_deep_seq(acc@);
                            }
                            acc.push(xs[k].clone());
                            proof {
                                crate::value_record::lemma_deep_seq(acc@);
                                assert(crate::value_record::deep_seq(acc@) =~= (seq![first]
                                    + post.take(k as int)).push(post[k as int]));
                                assert((seq![first] + post.take(k as int)).push(post[k as int])
                                    =~= seq![first] + post.take(k as int + 1));
                            }
                            k = k + 1;
                        }
                        proof {
                            assert(post.take(m as int) =~= post);
                            assert(crate::value_record::deep_seq(acc@) =~= seq![first] + post);
                        }
                        Value::Array(acc)
                    },
                }
            },
            Value::String(st) => {
                match value {
                    Value::String(t) => {
                        let joined: String = vstd::string::StringExecFns::concat(
                            t,
                            st.as_str(),
                        );
                        Value::String(joined)
                    },
                    _ => {
                        proof {
                            Db::lemma_wf_same_data(o, *self);
                        }
                        return Ok(None);
                    },
                }
            },
            _ => {
                proof {
                    Db::lemma_wf_same_data(o, *self);
                }
                return Ok(None);
            },
        };
        let rec = self.commit_value(
            id,
            key_text,
            created_at,
            delete_at,
            new_val,
            now,
            Ghost(o),
            Ghost(kb),
        );
        Ok(Some(rec))
    }
}


impl Db {
    /// Pop up to `n` elements (one when absent) off the array's tail,
    /// returned as an array in their original order. A value that is
    /// not an array is the "no change" outcome; an emptied array stays
    /// as an empty array.
    pub fn try_pop_back(&mut self, key: &str, n: Option<usize>, now: i64) -> (r: Result<
        Option<Value>,
        Error,
    >)
        requires
            old(self).wf(),
        ensures
            final(self).wf(),
            final(self).same_surround(*old(self)),
            pop_shape(*old(self), *final(self), encode_utf8(key@), n, now, false, r),
    {
        self.pop_common(key, n, now, false)
    }

    /// Pop up to `n` elements (one when absent) off the array's head,
    /// returned as an array in their original order.
    pub fn try_pop_front(&mut self, key: &str, n: Option<usize>, now: i64) -> (r: Result<
        Option<Value>,
        Error,
    >)
        requires
            old(self).wf(),
        ensures
            final(self).wf(),
            final(self).same_surround(*old(self)),
            pop_shape(*old(self), *final(self), encode_utf8(key@), n, now, true, r),
    {
        self.pop_common(key, n, now, true)
    }

    /// The shared engine of the two pops.
    fn pop_common(&mut self, key: &str, n: Option<usize>, now: i64, front: bool) -> (r: Result<
        Option<Value>,
        Error,
    >)
        requires
            old(self).wf(),
        ensures
            final(self).wf(),
            final(self).same_surround(*old(self)),
            pop_shape(*old(self), *final(self), encode_utf8(key@), n, now, front, r),
    {
        let ghost kb = encode_utf8(key@);
        let ghost o = *old(self);
        self.stats.inc_requests();
        let id: u128 = match self.indexes.key.get(key) {
            None => {
                proof {
                    old(self).lemma_key_absent(kb);
                    Db::lemma_wf_same_data(*old(self), *self);
                }
                return Err(Error::NotFound);
            },
            Some(id) => id,
        };
        proof {
            assert(o.by_key().contains((kb, id)));
            o.lemma_key_entry((kb, id));
        }
        let found: (Value, i64, Option<i64>, String) = match self.values.get(id) {
            Some(r0) => {
                proof {
                    o.lemma_id_determines_record(r0@, o.rec_of_id(id));
                }
                (r0.value.clone(), r0.created_at, r0.delete_at, r0.key.clone())
            },
            None => {
                proof {
                    let w = o.rec_of_id(id);
                    let i = choose|i: int|
                        0 <= i < self.records().len() && self.records()[i] == w;
                    assert(false);
                }
                return Err(Error::NotFound);
            },
        };
        let (old_val, created_at, delete_at, key_text): (Value, i64, Option<i64>, String) =
            found;
        let xs: Vec<Value> = match old_val {
            Value::Array(xs) => xs,
            _ => {
                proof {
                    Db::lemma_wf_same_data(o, *self);
                }
                return Ok(None);
            },
        };
        let ghost a = crate::value_record::deep_seq(xs@);
        proof {
            crate::value_record::lemma_deep_seq(xs@);
        }
        let len: usize = xs.len();
        let want: usize = match n {
            None => 1,
            Some(x) => x,
        };
        let m: usize = if want > len {
            len
        } else {
            want
        };
        let lo: usize = if front {
            0
        } else {
            len - m
        };
        // the removed run is xs[lo .. lo + m]; what stays is the rest
        let hi: usize = lo + m;
        let mut removed: Vec<Value> = Vec::new();
        let mut j: usize = lo;
        while j < hi
            invariant
                hi == lo + m,
                lo + m <= xs@.len(),
                a == crate::value_record::deep_seq(xs@),
                a.len() == xs@.len(),
                forall|t: int| 0 <= t < a.len() ==> #[trigger] a[t] == xs@[t].deep(),
                lo <= j <= lo + m,
                removed@.len() == j - lo,
                crate::value_record::deep_seq(removed@) =~= a.subrange(lo as int, j as int),
            decreases hi - j,
        {
            proof {
                crate::value_record::lemma_deep_seq(removed@);
            }
            removed.push(xs[j].clone());
            proof {
                crate::value_record::lemma_deep_seq(removed@);
                assert(crate::value_record::deep_seq(removed@) =~= a.subrange(
                    lo as int,
                    j as int,
                ).push(a[j as int]));
                assert(a.subrange(lo as int, j as int).push(a[j as int]) =~= a.subrange(
                    lo as int,
                    j as int + 1,
                ));
            }
            j = j + 1;
        }
        let mut kept: Vec<Value> = Vec::new();
        let mut j2: usize = 0;
        while j2 < len
            invariant
                len == xs@.len(),
                lo + m <= len,
                a == crate::value_record::deep_seq(xs@),
                a.len() == len,
                forall|t: int| 0 <= t < a.len() ==> #[trigger] a[t] == xs@[t].deep(),
                j2 <= len,
                crate::value_record::deep_seq(kept@) =~= kept_of(a, lo as int, m as int)
                    .take(kept_len(a, lo as int, m as int, j2 as int)),
                kept@.len() == kept_len(a, lo as int, m as int, j2 as int),
            decreases len - j2,
        {
            if j2 < lo || j2 >= lo + m {
                proof {
                    crate::value_record::lemma_deep_seq(kept@);
                }
                kept.push(xs[j2].clone());
                proof {
                    crate::value_record::lemma_deep_seq(kept@);
                    lemma_kept_step(a, lo as int, m as int, j2 as int);
                    assert(crate::value_record::deep_seq(kept@) =~= kept_of(
                        a,
                        lo as int,
                        m as int,
                    ).take(kept_len(a, lo as int, m as int, j2 as int + 1)));
                }
            } else {
                proof {
                    lemma_kept_step(a, lo as int, m as int, j2 as int);
                }
            }
            j2 = j2 + 1;
        }
        proof {
            assert(kept_len(a, lo as int, m as int, len as int) == kept_of(
                a,
                lo as int,
                m as int,
            ).len());
            assert(kept_of(a, lo as int, m as int).take(
                kept_of(a, lo as int, m as int).len() as int,
            ) =~= kept_of(a, lo as int, m as int));
        }
        let rec = self.commit_value(
            id,
            key_text,
            created_at,
            delete_at,
            Value::Array(kept),
            now,
            Ghost(o),
            Ghost(kb),
        );
        Ok(Some(Value::Array(removed)))
    }
}

/// The elements that stay after removing the run `[lo, lo+m)`.
pub open spec fn kept_of(a: Seq<ValV>, lo: int, m: int) -> Seq<ValV> {
    a.take(lo) + a.skip(lo + m)
}

/// How many of the first `j` positions stay.
pub open spec fn kept_len(a: Seq<ValV>, lo: int, m: int, j: int) -> int {
    if j <= lo {
        j
    } else if j <= lo + m {
        lo
    } else {
        j - m
    }
}

proof fn lemma_kept_step(a: Seq<ValV>, lo: int, m: int, j: int)
    requires
        0 <= lo,
        0 <= m,
        lo + m <= a.len(),
        0 <= j < a.len(),
    ensures
        (j < lo || j >= lo + m) ==> {
            &&& 0 <= kept_len(a, lo, m, j) < kept_of(a, lo, m).len()
            &&& kept_len(a, lo, m, j + 1) == kept_len(a, lo, m, j) + 1
            &&& kept_of(a, lo, m)[kept_len(a, lo, m, j)] == a[j]
            &&& kept_of(a, lo, m).take(kept_len(a, lo, m, j)).push(a[j]) =~= kept_of(
                a,
                lo,
                m,
            ).take(kept_len(a, lo, m, j) + 1)
        },
        (lo <= j < lo + m) ==> kept_len(a, lo, m, j + 1) == kept_len(a, lo, m, j),
{
}

/// What a pop does: not-found is an error, a non-array value is the
/// no-change outcome, and otherwise up to `n` elements leave one end
/// and come back as an array in their original order.
pub open spec fn pop_shape(
    o: Db,
    f: Db,
    kb: Seq<u8>,
    n: Option<usize>,
    now: i64,
    front: bool,
    r: Result<Option<Value>, Error>,
) -> bool {
    match r {
        Err(e) => {
            &&& e == Error::NotFound
            &&& !o.has_key(kb)
            &&& mutate_noop(o, f)
        },
        Ok(None) => {
            &&& o.has_key(kb)
            &&& !(o.rec_of_key(kb).value matches ValV::Arr(_))
            &&& mutate_noop(o, f)
        },
        Ok(Some(popped)) => {
            &&& o.has_key(kb)
            &&& o.rec_of_key(kb).value matches ValV::Arr(a) && {
                let m = pop_count(a.len(), n);
                let lo = if front {
                    0int
                } else {
                    a.len() - m
                };
                &&& popped.deep() == ValV::Arr(a.subrange(lo, lo + m))
                &&& mutate_ok(o, f, kb, ValV::Arr(kept_of(a, lo, m)), now)
            }
        },
    }
}

} // verus!
