//! The store's general laws, stated and proved once over the views
//! that the operations' own contracts use.

use vstd::prelude::*;
use crate::codec::{
    enc_ids, enc_key_index, enc_records, keys_sized, keys_utf8, lemma_parse_ids_round,
    lemma_parse_key_index_round, lemma_parse_records_round, lemma_parse_ts_index_round,
    parse_ids, parse_key_index, parse_records, parse_ts_index, recs_sized, recs_utf8,
};
use crate::codec::{lz4_unblock_of, enc_ts_index};
use crate::db::{
    cand_api, cand_created, cand_delete, cand_key_entries, cand_records, cand_updated,
    csi_key_of, csi_created_of, csi_updated_of, csi_delete_of, page_of, restorable, Db,
    SnapshotFiles,
};

verus! {

/// The cross-structure invariant, in closure form. `Db::new` builds a
/// store with `wf`, and every operation's contract carries `wf` from
/// the state before to the state after, so after any sequence of store
/// operations: every live record is filed in the key, creation-time and
/// update-time indexes, and in the expiration index exactly when it has
/// a time-to-live; and every index entry names a live record whose
/// attribute is the entry's key.
pub proof fn lemma_csi_closure(db: Db)
    requires
        db.wf(),
    ensures
        csi_key_of(db.records(), db.by_key()),
        csi_created_of(db.records(), db.by_created_at()),
        csi_updated_of(db.records(), db.by_updated_at()),
        csi_delete_of(db.records(), db.by_delete_at()),
        forall|r: crate::value_record::RecordV|
            #[trigger] db.records().contains(r) ==> r.created_at <= r.updated_at,
{
}

/// Snapshot round-trip. Take any store state `src` and the six blocks
/// `save` hands out for it: `save`'s contract says each block
/// decompresses to the encoding of the respective structure, which is
/// exactly this lemma's premise. Then restoring those six files into
/// *any* store succeeds — they are `restorable` — and, by `restore`'s
/// contract, installs exactly `src`'s records, indexes and key set, so
/// a listing of the restored store equals a listing of `src`.
pub proof fn lemma_snapshot_restorable(target: Db, src: Db, files: SnapshotFiles)
    requires
        src.wf(),
        recs_sized(src.records()),
        recs_utf8(src.records()),
        src.records().len() <= u64::MAX,
        keys_sized(src.by_key()),
        keys_utf8(src.by_key()),
        src.by_key().len() <= u64::MAX,
        src.by_created_at().len() <= u64::MAX,
        src.by_updated_at().len() <= u64::MAX,
        src.by_delete_at().len() <= u64::MAX,
        src.spec_api_keys().len() <= u64::MAX,
        files.values matches Some(f) && lz4_unblock_of(f@) == Some(
            enc_records(src.records()),
        ),
        files.key matches Some(f) && lz4_unblock_of(f@) == Some(enc_key_index(src.by_key())),
        files.created_at matches Some(f) && lz4_unblock_of(f@) == Some(
            enc_ts_index(src.by_created_at()),
        ),
        files.updated_at matches Some(f) && lz4_unblock_of(f@) == Some(
            enc_ts_index(src.by_updated_at()),
        ),
        files.delete_at matches Some(f) && lz4_unblock_of(f@) == Some(
            enc_ts_index(src.by_delete_at()),
        ),
        files.api_keys matches Some(f) && lz4_unblock_of(f@) == Some(
            enc_ids(src.spec_api_keys()),
        ),
    ensures
        restorable(target, files),
        cand_records(target, files) == Some(src.records()),
        cand_key_entries(target, files) == Some(src.by_key()),
        cand_created(target, files) == Some(src.by_created_at()),
        cand_updated(target, files) == Some(src.by_updated_at()),
        cand_delete(target, files) == Some(src.by_delete_at()),
        cand_api(target, files) == Some(src.spec_api_keys()),
{
    lemma_parse_records_round(src.records());
    lemma_parse_key_index_round(src.by_key());
    lemma_parse_ts_index_round(src.by_created_at());
    lemma_parse_ts_index_round(src.by_updated_at());
    lemma_parse_ts_index_round(src.by_delete_at());
    lemma_parse_ids_round(src.spec_api_keys());
}

/// The pages one to `k` of a listing, one after the other.
pub open spec fn concat_pages(s: Seq<u128>, l: usize, k: int) -> Seq<u128>
    decreases k,
{
    if k <= 0 {
        Seq::empty()
    } else {
        concat_pages(s, l, k - 1) + page_of(s, Some(l), Some(k as usize))
    }
}

/// Pagination law: for any listing, concatenating the pages one
/// through `k` under a limit `l` gives exactly the first `k * l`
/// elements of the unpaginated listing.
pub proof fn lemma_pagination(s: Seq<u128>, l: usize, k: usize)
    ensures
        concat_pages(s, l, k as int) == s.take(
            if k * l > s.len() {
                s.len() as int
            } else {
                (k * l) as int
            },
        ),
    decreases k,
{
    if k == 0 {
        assert(concat_pages(s, l, 0) =~= s.take(0));
    } else {
        lemma_pagination(s, l, (k - 1) as usize);
        assert((k - 1) * l + l == k * l) by (nonlinear_arith)
            requires
                k >= 1,
        ;
        assert(0 <= (k - 1) * l) by (nonlinear_arith)
            requires
                k >= 1 && l >= 0,
        ;
        let prev = if (k - 1) * l > s.len() {
            s.len() as int
        } else {
            ((k - 1) * l) as int
        };
        let here = if k * l > s.len() {
            s.len() as int
        } else {
            (k * l) as int
        };
        let lo = if (k - 1) * l > s.len() {
            s.len() as int
        } else {
            ((k - 1) * l) as int
        };
        let hi = if (k - 1) * l + l > s.len() {
            s.len() as int
        } else {
            ((k - 1) * l + l) as int
        };
        assert(page_of(s, Some(l), Some(k)) == s.subrange(lo, hi));
        assert(s.take(prev) + s.subrange(lo, hi) =~= s.take(here));
    }
}

} // verus!
