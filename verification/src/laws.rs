//! The store-and-forward guarantees, stated and proved over the store
//! model: what a point write does to a listing, what a `Take` owes and
//! what it must never offer twice.
use vstd::prelude::*;

use crate::codec::{dec_saved, enc_saved, lemma_saved_round};
use crate::model::{encodable, SavedReqModel};
use crate::processor::{added_model, pending_of, published_model, unpublished_of};
use crate::repo::{dec_values, key_for, req_prefix, saved_reqs_of, values_of};
use crate::store::{
    has_prefix, lemma_lex_asym, lemma_lex_connex, lemma_lex_irrefl, lemma_lex_trans, lex_lt,
    scan_of, spec_upsert, store_sorted,
};

verus! {

/// Every entry under the scan prefix decodes, and its key is the one
/// derived from the identifier of the record it holds. Both writers
/// establish this; a listing succeeds wherever it holds.
pub open spec fn repo_inv(v: Seq<(Seq<u8>, Seq<u8>)>) -> bool {
    forall|i: int| 0 <= i < scan_of(v, req_prefix()).len() ==> {
        &&& #[trigger] dec_saved(scan_of(v, req_prefix())[i].1) is Some
        &&& scan_of(v, req_prefix())[i].0 == key_for(
            dec_saved(scan_of(v, req_prefix())[i].1)->Some_0.id,
        )
    }
}

/// Two distinct byte strings in the order are unequal.
proof fn lemma_lex_neq(a: Seq<u8>, b: Seq<u8>)
    requires
        lex_lt(a, b),
    ensures
        a != b,
{
    if a == b {
        lemma_lex_irrefl(a);
    }
}

/// A record's key carries the scan prefix.
proof fn lemma_key_prefixed(id: u128)
    ensures
        has_prefix(key_for(id), req_prefix()),
{
    assert(key_for(id).subrange(0, 3) =~= req_prefix());
}

/// Scan results come from the scanned entries.
proof fn lemma_scan_contains(v: Seq<(Seq<u8>, Seq<u8>)>, pre: Seq<u8>)
    ensures
        forall|x: (Seq<u8>, Seq<u8>)| scan_of(v, pre).contains(x) ==> v.contains(x),
    decreases v.len(),
{
    if v.len() > 0 {
        let tail = v.drop_first();
        lemma_scan_contains(tail, pre);
        assert forall|x: (Seq<u8>, Seq<u8>)| scan_of(v, pre).contains(x) implies v.contains(
            x,
        ) by {
            let sp = scan_of(v, pre);
            let i = choose|i: int| 0 <= i < sp.len() && sp[i] == x;
            if has_prefix(v[0].0, pre) {
                assert(sp == seq![v[0]] + scan_of(tail, pre));
                if i == 0 {
                    assert(v[0] == x);
                } else {
                    assert(scan_of(tail, pre)[i - 1] == x);
                    assert(scan_of(tail, pre).contains(x));
                    assert(tail.contains(x));
                    let j = choose|j: int| 0 <= j < tail.len() && tail[j] == x;
                    assert(tail[j] == v[j + 1]);
                    assert(v[j + 1] == x);
                }
            } else {
                assert(sp == scan_of(tail, pre));
                assert(scan_of(tail, pre).contains(x));
                assert(tail.contains(x));
                let j = choose|j: int| 0 <= j < tail.len() && tail[j] == x;
                assert(tail[j] == v[j + 1]);
                assert(v[j + 1] == x);
            }
        }
    }
}

/// A scan of an ordered store is itself ordered by key bytes: the order
/// a listing returns records in is the storage engine's key order.
pub proof fn lemma_scan_sorted(v: Seq<(Seq<u8>, Seq<u8>)>, pre: Seq<u8>)
    requires
        store_sorted(v),
    ensures
        store_sorted(scan_of(v, pre)),
    decreases v.len(),
{
    if v.len() > 0 {
        let tail = v.drop_first();
        assert forall|a: int, b: int| 0 <= a < b < tail.len() implies lex_lt(
            #[trigger] tail[a].0,
            #[trigger] tail[b].0,
        ) by {
            assert(tail[a] == v[a + 1] && tail[b] == v[b + 1]);
        }
        lemma_scan_sorted(tail, pre);
        lemma_scan_contains(tail, pre);
        let sp = scan_of(v, pre);
        if has_prefix(v[0].0, pre) {
            assert(sp == seq![v[0]] + scan_of(tail, pre));
            assert forall|a: int, b: int| 0 <= a < b < sp.len() implies lex_lt(
                #[trigger] sp[a].0,
                #[trigger] sp[b].0,
            ) by {
                if a == 0 {
                    assert(sp[b] == scan_of(tail, pre)[b - 1]);
                    assert(scan_of(tail, pre).contains(sp[b]));
                    assert(tail.contains(sp[b]));
                    let j = choose|j: int| 0 <= j < tail.len() && tail[j] == sp[b];
                    assert(tail[j] == v[j + 1]);
                    assert(v[j + 1] == sp[b]);
                    assert(lex_lt(v[0].0, v[j + 1].0));
                } else {
                    assert(sp[a] == scan_of(tail, pre)[a - 1]);
                    assert(sp[b] == scan_of(tail, pre)[b - 1]);
                }
            }
        } else {
            assert(sp == scan_of(tail, pre));
        }
    }
}

/// A point write under a prefixed key commutes with the prefix scan.
proof fn lemma_scan_upsert(v: Seq<(Seq<u8>, Seq<u8>)>, k: Seq<u8>, val: Seq<u8>, pre: Seq<u8>)
    requires
        store_sorted(v),
        has_prefix(k, pre),
    ensures
        scan_of(spec_upsert(v, k, val), pre) == spec_upsert(scan_of(v, pre), k, val),
    decreases v.len(),
{
    let sp = scan_of(v, pre);
    let v2 = spec_upsert(v, k, val);
    if v.len() == 0 {
        assert(v2 == seq![(k, val)]);
        assert(v2[0] == (k, val));
        assert(v2.drop_first() =~= Seq::<(Seq<u8>, Seq<u8>)>::empty());
        assert(scan_of(v2.drop_first(), pre) =~= Seq::<(Seq<u8>, Seq<u8>)>::empty());
        assert(scan_of(v2, pre) =~= seq![(k, val)]);
        assert(spec_upsert(sp, k, val) == seq![(k, val)]);
    } else if lex_lt(k, v[0].0) {
        assert(v2 == seq![(k, val)] + v);
        assert(v2[0] == (k, val));
        assert(v2.drop_first() =~= v);
        assert(scan_of(v2, pre) == seq![(k, val)] + sp);
        if sp.len() == 0 {
            assert(spec_upsert(sp, k, val) == seq![(k, val)]);
            assert(seq![(k, val)] + sp =~= seq![(k, val)]);
        } else {
            lemma_scan_contains(v, pre);
            assert(sp.contains(sp[0]));
            assert(v.contains(sp[0]));
            let j = choose|j: int| 0 <= j < v.len() && v[j] == sp[0];
            if j > 0 {
                assert(lex_lt(v[0].0, v[j].0));
                lemma_lex_trans(k, v[0].0, sp[0].0);
            }
            assert(lex_lt(k, sp[0].0));
            assert(spec_upsert(sp, k, val) == seq![(k, val)] + sp);
        }
    } else if k == v[0].0 {
        assert(v2 == seq![(k, val)] + v.drop_first());
        assert(v2[0] == (k, val));
        assert(v2.drop_first() =~= v.drop_first());
        assert(scan_of(v2, pre) == seq![(k, val)] + scan_of(v.drop_first(), pre));
        assert(sp == seq![v[0]] + scan_of(v.drop_first(), pre));
        assert(sp[0] == v[0]);
        lemma_lex_irrefl(k);
        assert(spec_upsert(sp, k, val) == seq![(k, val)] + sp.drop_first());
        assert(sp.drop_first() =~= scan_of(v.drop_first(), pre));
    } else {
        if !lex_lt(v[0].0, k) {
            lemma_lex_connex(k, v[0].0);
            assert(false);
        }
        let tail = v.drop_first();
        assert(v2 == seq![v[0]] + spec_upsert(tail, k, val));
        assert forall|a: int, b: int| 0 <= a < b < tail.len() implies lex_lt(
            #[trigger] tail[a].0,
            #[trigger] tail[b].0,
        ) by {
            assert(tail[a] == v[a + 1] && tail[b] == v[b + 1]);
        }
        lemma_scan_upsert(tail, k, val, pre);
        assert(v2[0] == v[0]);
        assert(v2.drop_first() =~= spec_upsert(tail, k, val));
        lemma_lex_asym(v[0].0, k);
        if has_prefix(v[0].0, pre) {
            assert(scan_of(v2, pre) == seq![v[0]] + scan_of(spec_upsert(tail, k, val), pre));
            assert(sp == seq![v[0]] + scan_of(tail, pre));
            assert(sp[0] == v[0]);
            assert(k != sp[0].0) by {
                if k == v[0].0 {
                    lemma_lex_irrefl(k);
                }
            }
            assert(spec_upsert(sp, k, val) == seq![sp[0]] + spec_upsert(
                sp.drop_first(),
                k,
                val,
            ));
            assert(sp.drop_first() =~= scan_of(tail, pre));
        } else {
            assert(scan_of(v2, pre) == scan_of(spec_upsert(tail, k, val), pre));
            assert(sp == scan_of(tail, pre));
        }
    }
}

/// What a point write leaves in an ordered entry sequence: the written
/// pair is there, everything else stood there before under another key,
/// and the order still holds.
proof fn lemma_upsert_props(sp: Seq<(Seq<u8>, Seq<u8>)>, k: Seq<u8>, val: Seq<u8>)
    requires
        store_sorted(sp),
    ensures
        store_sorted(spec_upsert(sp, k, val)),
        spec_upsert(sp, k, val).contains((k, val)),
        forall|i: int| 0 <= i < spec_upsert(sp, k, val).len() ==> (#[trigger] spec_upsert(
            sp,
            k,
            val,
        )[i] == (k, val) || (sp.contains(spec_upsert(sp, k, val)[i]) && spec_upsert(
            sp,
            k,
            val,
        )[i].0 != k)),
    decreases sp.len(),
{
    let sp2 = spec_upsert(sp, k, val);
    if sp.len() == 0 {
        assert(sp2 == seq![(k, val)]);
        assert(sp2[0] == (k, val));
    } else if lex_lt(k, sp[0].0) {
        assert(sp2 == seq![(k, val)] + sp);
        assert(sp2[0] == (k, val));
        assert forall|a: int, b: int| 0 <= a < b < sp2.len() implies lex_lt(
            #[trigger] sp2[a].0,
            #[trigger] sp2[b].0,
        ) by {
            if a == 0 {
                assert(sp2[b] == sp[b - 1]);
                if b > 1 {
                    assert(lex_lt(sp[0].0, sp[b - 1].0));
                    lemma_lex_trans(k, sp[0].0, sp[b - 1].0);
                }
            } else {
                assert(sp2[a] == sp[a - 1] && sp2[b] == sp[b - 1]);
            }
        }
        assert forall|i: int| 0 <= i < sp2.len() && sp2[i] != (k, val) implies sp.contains(
            sp2[i],
        ) && sp2[i].0 != k by {
            if i > 0 {
                assert(sp2[i] == sp[i - 1]);
                if i > 1 {
                    assert(lex_lt(sp[0].0, sp[i - 1].0));
                    lemma_lex_trans(k, sp[0].0, sp[i - 1].0);
                }
                lemma_lex_neq(k, sp[i - 1].0);
            }
        }
    } else if k == sp[0].0 {
        assert(sp2 == seq![(k, val)] + sp.drop_first());
        assert(sp2[0] == (k, val));
        assert forall|a: int, b: int| 0 <= a < b < sp2.len() implies lex_lt(
            #[trigger] sp2[a].0,
            #[trigger] sp2[b].0,
        ) by {
            if a == 0 {
                assert(sp2[b] == sp[b]);
                assert(lex_lt(sp[0].0, sp[b].0));
            } else {
                assert(sp2[a] == sp[a] && sp2[b] == sp[b]);
            }
        }
        assert forall|i: int| 0 <= i < sp2.len() && sp2[i] != (k, val) implies sp.contains(
            sp2[i],
        ) && sp2[i].0 != k by {
            if i > 0 {
                assert(sp2[i] == sp[i]);
                assert(lex_lt(sp[0].0, sp[i].0));
                lemma_lex_neq(k, sp[i].0);
            }
        }
    } else {
        if !lex_lt(sp[0].0, k) {
            lemma_lex_connex(k, sp[0].0);
            assert(false);
        }
        let tail = sp.drop_first();
        assert forall|a: int, b: int| 0 <= a < b < tail.len() implies lex_lt(
            #[trigger] tail[a].0,
            #[trigger] tail[b].0,
        ) by {
            assert(tail[a] == sp[a + 1] && tail[b] == sp[b + 1]);
        }
        lemma_upsert_props(tail, k, val);
        let t2 = spec_upsert(tail, k, val);
        assert(sp2 == seq![sp[0]] + t2);
        assert(sp2[0] == sp[0]);
        assert(t2.contains((k, val)));
        let w = choose|w: int| 0 <= w < t2.len() && t2[w] == (k, val);
        assert(sp2[w + 1] == (k, val));
        assert(sp2.contains((k, val)));
        assert forall|a: int, b: int| 0 <= a < b < sp2.len() implies lex_lt(
            #[trigger] sp2[a].0,
            #[trigger] sp2[b].0,
        ) by {
            if a == 0 {
                assert(sp2[b] == t2[b - 1]);
                if t2[b - 1] == (k, val) {
                    assert(lex_lt(sp[0].0, k));
                } else {
                    assert(tail.contains(t2[b - 1]));
                    let j = choose|j: int| 0 <= j < tail.len() && tail[j] == t2[b - 1];
                    assert(tail[j] == sp[j + 1]);
                    assert(lex_lt(sp[0].0, sp[j + 1].0));
                }
            } else {
                assert(sp2[a] == t2[a - 1] && sp2[b] == t2[b - 1]);
            }
        }
        assert forall|i: int| 0 <= i < sp2.len() && sp2[i] != (k, val) implies sp.contains(
            sp2[i],
        ) && sp2[i].0 != k by {
            if i == 0 {
                assert(sp2[0] == sp[0]);
                lemma_lex_neq(sp[0].0, k);
            } else {
                assert(sp2[i] == t2[i - 1]);
                assert(tail.contains(sp2[i]));
                let j = choose|j: int| 0 <= j < tail.len() && tail[j] == sp2[i];
                assert(tail[j] == sp[j + 1]);
            }
        }
    }
}

/// A sequence of values that each decode lists back, value by value, as
/// the records they hold.
proof fn lemma_dec_values_pointwise(vals: Seq<Seq<u8>>)
    requires
        forall|i: int| 0 <= i < vals.len() ==> dec_saved(#[trigger] vals[i]) is Some,
    ensures
        dec_values(vals) is Some,
        dec_values(vals)->Some_0.len() == vals.len(),
        forall|i: int| 0 <= i < vals.len() ==> dec_values(vals)->Some_0[i] == dec_saved(
            #[trigger] vals[i],
        )->Some_0,
    decreases vals.len(),
{
    if vals.len() > 0 {
        let tail = vals.drop_first();
        assert forall|i: int| 0 <= i < tail.len() implies dec_saved(#[trigger] tail[i]) is Some by {
            assert(tail[i] == vals[i + 1]);
        }
        lemma_dec_values_pointwise(tail);
        let r = dec_saved(vals[0])->Some_0;
        let rs = dec_values(tail)->Some_0;
        assert(dec_values(vals) == Some(seq![r] + rs));
        assert forall|i: int| 0 <= i < vals.len() implies dec_values(vals)->Some_0[i] == dec_saved(
            #[trigger] vals[i],
        )->Some_0 by {
            if i > 0 {
                assert((seq![r] + rs)[i] == rs[i - 1]);
                assert(tail[i - 1] == vals[i]);
            }
        }
    }
}

/// What stands in the unpublished part of a listing: exactly its
/// unpublished records.
proof fn lemma_unpublished_contains(rs: Seq<SavedReqModel>)
    ensures
        forall|x: SavedReqModel| #[trigger] unpublished_of(rs).contains(x) ==> rs.contains(x)
            && !x.published,
        forall|x: SavedReqModel| #[trigger] rs.contains(x) && !x.published ==> unpublished_of(
            rs,
        ).contains(x),
    decreases rs.len(),
{
    if rs.len() > 0 {
        let tail = rs.drop_first();
        lemma_unpublished_contains(tail);
        let up = unpublished_of(rs);
        assert forall|x: SavedReqModel| up.contains(x) implies rs.contains(x) && !x.published by {
            let i = choose|i: int| 0 <= i < up.len() && up[i] == x;
            if !rs[0].published {
                assert(up == seq![rs[0]] + unpublished_of(tail));
                if i == 0 {
                    assert(rs[0] == x);
                } else {
                    assert(unpublished_of(tail)[i - 1] == x);
                    assert(unpublished_of(tail).contains(x));
                    assert(tail.contains(x));
                    let j = choose|j: int| 0 <= j < tail.len() && tail[j] == x;
                    assert(tail[j] == rs[j + 1]);
                    assert(rs[j + 1] == x);
                }
            } else {
                assert(up == unpublished_of(tail));
                assert(unpublished_of(tail).contains(x));
                assert(tail.contains(x));
                let j = choose|j: int| 0 <= j < tail.len() && tail[j] == x;
                assert(tail[j] == rs[j + 1]);
                assert(rs[j + 1] == x);
            }
        }
        assert forall|x: SavedReqModel| rs.contains(x) && !x.published implies up.contains(x) by {
            let i = choose|i: int| 0 <= i < rs.len() && rs[i] == x;
            if i == 0 {
                assert(up == seq![rs[0]] + unpublished_of(tail));
                assert(up[0] == x);
            } else {
                assert(tail[i - 1] == rs[i]);
                assert(tail[i - 1] == x);
                assert(tail.contains(x));
                assert(unpublished_of(tail).contains(x));
                let j = choose|j: int| 0 <= j < unpublished_of(tail).len() && unpublished_of(
                    tail,
                )[j] == x;
                if !rs[0].published {
                    assert(up[j + 1] == x);
                } else {
                    assert(up[j] == x);
                }
            }
        }
    }
}

/// A listing with pairwise distinct identifiers keeps them distinct in
/// its unpublished part.
proof fn lemma_unpublished_distinct(rs: Seq<SavedReqModel>)
    requires
        forall|i: int, j: int| 0 <= i < j < rs.len() ==> rs[i].id != rs[j].id,
    ensures
        forall|i: int, j: int|
            0 <= i < j < unpublished_of(rs).len() ==> unpublished_of(rs)[i].id != unpublished_of(
                rs,
            )[j].id,
    decreases rs.len(),
{
    if rs.len() > 0 {
        let tail = rs.drop_first();
        assert forall|a: int, b: int| 0 <= a < b < tail.len() implies tail[a].id != tail[b].id by {
            assert(tail[a] == rs[a + 1] && tail[b] == rs[b + 1]);
        }
        lemma_unpublished_distinct(tail);
        lemma_unpublished_contains(tail);
        let up = unpublished_of(rs);
        if !rs[0].published {
            assert(up == seq![rs[0]] + unpublished_of(tail));
            assert forall|i: int, j: int| 0 <= i < j < up.len() implies up[i].id != up[j].id by {
                if i == 0 {
                    assert(up[j] == unpublished_of(tail)[j - 1]);
                    assert(unpublished_of(tail).contains(up[j]));
                    assert(tail.contains(up[j]));
                    let w = choose|w: int| 0 <= w < tail.len() && tail[w] == up[j];
                    assert(tail[w] == rs[w + 1]);
                    assert(rs[0].id != rs[w + 1].id);
                } else {
                    assert(up[i] == unpublished_of(tail)[i - 1] && up[j] == unpublished_of(
                        tail,
                    )[j - 1]);
                }
            }
        } else {
            assert(up == unpublished_of(tail));
        }
    }
}

/// A listing whose records are all published has an empty unpublished
/// part.
proof fn lemma_unpublished_all_published(rs: Seq<SavedReqModel>)
    requires
        forall|i: int| 0 <= i < rs.len() ==> rs[i].published,
    ensures
        unpublished_of(rs).len() == 0,
    decreases rs.len(),
{
    if rs.len() > 0 {
        let tail = rs.drop_first();
        assert forall|i: int| 0 <= i < tail.len() implies tail[i].published by {
            assert(tail[i] == rs[i + 1]);
        }
        lemma_unpublished_all_published(tail);
    }
}

/// The engine fact behind the delivery guarantees: persisting `rec`
/// under its derived key keeps the repository sound and yields a listing
/// that holds `rec`, holds pairwise distinct identifiers, and otherwise
/// holds only records that were listed before and carry another
/// identifier.
pub proof fn lemma_record_upsert(v: Seq<(Seq<u8>, Seq<u8>)>, rec: SavedReqModel)
    requires
        store_sorted(v),
        repo_inv(v),
        encodable(rec),
    ensures
        store_sorted(spec_upsert(v, key_for(rec.id), enc_saved(rec))),
        repo_inv(spec_upsert(v, key_for(rec.id), enc_saved(rec))),
        saved_reqs_of(v) is Some,
        saved_reqs_of(spec_upsert(v, key_for(rec.id), enc_saved(rec))) is Some,
        saved_reqs_of(spec_upsert(v, key_for(rec.id), enc_saved(rec)))->Some_0.contains(rec),
        forall|i: int|
            0 <= i < saved_reqs_of(spec_upsert(v, key_for(rec.id), enc_saved(rec)))->Some_0.len()
                ==> (#[trigger] saved_reqs_of(spec_upsert(v, key_for(rec.id), enc_saved(rec)))->Some_0[i]
                == rec || (saved_reqs_of(v)->Some_0.contains(
                saved_reqs_of(spec_upsert(v, key_for(rec.id), enc_saved(rec)))->Some_0[i],
            ) && saved_reqs_of(spec_upsert(v, key_for(rec.id), enc_saved(rec)))->Some_0[i].id
                != rec.id)),
        forall|i: int, j: int|
            0 <= i < j < saved_reqs_of(spec_upsert(v, key_for(rec.id), enc_saved(rec)))->Some_0.len()
                ==> saved_reqs_of(spec_upsert(v, key_for(rec.id), enc_saved(rec)))->Some_0[i].id
                != saved_reqs_of(spec_upsert(v, key_for(rec.id), enc_saved(rec)))->Some_0[j].id,
{
    let k = key_for(rec.id);
    let val = enc_saved(rec);
    let pre = req_prefix();
    let v2 = spec_upsert(v, k, val);
    let sp = scan_of(v, pre);
    let sp2 = scan_of(v2, pre);
    lemma_key_prefixed(rec.id);
    lemma_saved_round(rec);
    lemma_scan_sorted(v, pre);
    lemma_scan_upsert(v, k, val, pre);
    assert(sp2 == spec_upsert(sp, k, val));
    lemma_upsert_props(v, k, val);
    lemma_upsert_props(sp, k, val);
    // every value under the prefix decodes, before and after
    assert forall|i: int| 0 <= i < values_of(sp).len() implies dec_saved(
        #[trigger] values_of(sp)[i],
    ) is Some by {
        assert(values_of(sp)[i] == sp[i].1);
    }
    lemma_dec_values_pointwise(values_of(sp));
    assert forall|i: int| 0 <= i < sp2.len() implies dec_saved(sp2[i].1) is Some && sp2[i].0
        == key_for(dec_saved(sp2[i].1)->Some_0.id) by {
        if sp2[i] == (k, val) {
        } else {
            assert(sp.contains(sp2[i]));
            let j = choose|j: int| 0 <= j < sp.len() && sp[j] == sp2[i];
            assert(dec_saved(sp[j].1) is Some);
        }
    }
    assert(repo_inv(v2));
    assert forall|i: int| 0 <= i < values_of(sp2).len() implies dec_saved(
        #[trigger] values_of(sp2)[i],
    ) is Some by {
        assert(values_of(sp2)[i] == sp2[i].1);
    }
    lemma_dec_values_pointwise(values_of(sp2));
    let rs = saved_reqs_of(v)->Some_0;
    let rs2 = saved_reqs_of(v2)->Some_0;
    assert(rs2.len() == sp2.len());
    assert forall|i: int| 0 <= i < rs2.len() implies rs2[i] == dec_saved(sp2[i].1)->Some_0 by {
        assert(values_of(sp2)[i] == sp2[i].1);
    }
    // the written record is listed
    assert(sp2.contains((k, val)));
    let w = choose|w: int| 0 <= w < sp2.len() && sp2[w] == (k, val);
    assert(rs2[w] == rec);
    assert(rs2.contains(rec));
    // everything else was listed before, under another identifier
    assert forall|i: int| 0 <= i < rs2.len() implies (rs2[i] == rec || (rs.contains(rs2[i])
        && rs2[i].id != rec.id)) by {
        if sp2[i] == (k, val) {
            assert(rs2[i] == rec);
        } else {
            assert(sp.contains(sp2[i]) && sp2[i].0 != k);
            let j = choose|j: int| 0 <= j < sp.len() && sp[j] == sp2[i];
            assert(values_of(sp)[j] == sp[j].1);
            assert(rs[j] == dec_saved(sp[j].1)->Some_0);
            assert(rs[j] == rs2[i]);
            assert(rs.contains(rs2[i]));
            assert(sp2[i].0 == key_for(rs2[i].id));
            if rs2[i].id == rec.id {
                assert(sp2[i].0 == k);
            }
        }
    }
    // identifiers are pairwise distinct
    assert forall|i: int, j: int| 0 <= i < j < rs2.len() implies rs2[i].id != rs2[j].id by {
        assert(lex_lt(sp2[i].0, sp2[j].0));
        lemma_lex_neq(sp2[i].0, sp2[j].0);
        assert(sp2[i].0 == key_for(rs2[i].id));
        assert(sp2[j].0 == key_for(rs2[j].id));
        if rs2[i].id == rs2[j].id {
            assert(sp2[i].0 == sp2[j].0);
        }
    }
}

/// A fresh store satisfies everything the guarantees ask of one: the
/// state every later write preserves is established at construction.
pub proof fn lemma_empty_store()
    ensures
        store_sorted(Seq::<(Seq<u8>, Seq<u8>)>::empty()),
        repo_inv(Seq::<(Seq<u8>, Seq<u8>)>::empty()),
        pending_of(Seq::<(Seq<u8>, Seq<u8>)>::empty()) == Some(Seq::<SavedReqModel>::empty()),
{
    let e = Seq::<(Seq<u8>, Seq<u8>)>::empty();
    assert(scan_of(e, req_prefix()).len() == 0);
    assert(values_of(scan_of(e, req_prefix())).len() == 0);
    assert(saved_reqs_of(e) == Some(Seq::<SavedReqModel>::empty()));
    assert(unpublished_of(Seq::<SavedReqModel>::empty()).len() == 0);
    assert(unpublished_of(Seq::<SavedReqModel>::empty()) =~= Seq::<SavedReqModel>::empty());
}

// ---------------------------------------------------------------------
// The guarantees themselves.
// ---------------------------------------------------------------------

/// Idle `Take`: when every record the listing returns is already
/// published, a `Take` offers zero records for delivery — zero response
/// frames go out and no failure arises, so the session stays open.
pub proof fn lemma_idle_take(v: Seq<(Seq<u8>, Seq<u8>)>)
    requires
        saved_reqs_of(v) is Some,
        forall|i: int|
            0 <= i < saved_reqs_of(v)->Some_0.len() ==> saved_reqs_of(v)->Some_0[i].published,
    ensures
        pending_of(v) == Some(Seq::<SavedReqModel>::empty()),
{
    lemma_unpublished_all_published(saved_reqs_of(v)->Some_0);
    assert(unpublished_of(saved_reqs_of(v)->Some_0) =~= Seq::<SavedReqModel>::empty());
}

/// Overwrite idempotence: persisting a value twice under one
/// identifier's key leaves one entry under that key — holding the later
/// value — not two.
pub proof fn lemma_overwrite_idempotent(
    v: Seq<(Seq<u8>, Seq<u8>)>,
    id: u128,
    val1: Seq<u8>,
    val2: Seq<u8>,
)
    requires
        store_sorted(v),
    ensures
        spec_upsert(spec_upsert(v, key_for(id), val1), key_for(id), val2).contains(
            (key_for(id), val2),
        ),
        forall|i: int|
            0 <= i < spec_upsert(spec_upsert(v, key_for(id), val1), key_for(id), val2).len()
                && (#[trigger] spec_upsert(
                spec_upsert(v, key_for(id), val1),
                key_for(id),
                val2,
            )[i]).0 == key_for(id) ==> spec_upsert(
                spec_upsert(v, key_for(id), val1),
                key_for(id),
                val2,
            )[i].1 == val2,
        forall|i: int, j: int|
            0 <= i < j < spec_upsert(spec_upsert(v, key_for(id), val1), key_for(id), val2).len()
                ==> (#[trigger] spec_upsert(spec_upsert(v, key_for(id), val1), key_for(id), val2)[i]).0
                != (#[trigger] spec_upsert(spec_upsert(v, key_for(id), val1), key_for(id), val2)[j]).0,
{
    let k = key_for(id);
    let v1 = spec_upsert(v, k, val1);
    lemma_upsert_props(v, k, val1);
    lemma_upsert_props(v1, k, val2);
    let v2 = spec_upsert(v1, k, val2);
    assert forall|i: int, j: int| 0 <= i < j < v2.len() implies v2[i].0 != v2[j].0 by {
        assert(lex_lt(v2[i].0, v2[j].0));
        lemma_lex_neq(v2[i].0, v2[j].0);
    }
    assert forall|i: int| 0 <= i < v2.len() && v2[i].0 == k implies v2[i].1 == val2 by {
        assert(v2[i] == (k, val2) || (v1.contains(v2[i]) && v2[i].0 != k));
    }
}

/// No re-delivery: once a record's successful delivery has been
/// persisted, a listing of the store never again offers a record with
/// that identifier for delivery — in the same session or a new one
/// against the same store — and the stored record is seen published.
pub proof fn lemma_no_redelivery(v: Seq<(Seq<u8>, Seq<u8>)>, rec: SavedReqModel, now: i64)
    requires
        store_sorted(v),
        repo_inv(v),
        encodable(rec),
    ensures
        store_sorted(spec_upsert(v, key_for(rec.id), enc_saved(published_model(rec, now)))),
        repo_inv(spec_upsert(v, key_for(rec.id), enc_saved(published_model(rec, now)))),
        pending_of(spec_upsert(v, key_for(rec.id), enc_saved(published_model(rec, now)))) is Some,
        forall|j: int|
            0 <= j < pending_of(
                spec_upsert(v, key_for(rec.id), enc_saved(published_model(rec, now))),
            )->Some_0.len() ==> pending_of(
                spec_upsert(v, key_for(rec.id), enc_saved(published_model(rec, now))),
            )->Some_0[j].id != rec.id,
        saved_reqs_of(
            spec_upsert(v, key_for(rec.id), enc_saved(published_model(rec, now))),
        )->Some_0.contains(published_model(rec, now)),
{
    let r2 = published_model(rec, now);
    lemma_record_upsert(v, r2);
    let v2 = spec_upsert(v, key_for(rec.id), enc_saved(r2));
    let rs2 = saved_reqs_of(v2)->Some_0;
    lemma_unpublished_contains(rs2);
    let p = unpublished_of(rs2);
    assert(pending_of(v2) == Some(p));
    assert forall|j: int| 0 <= j < p.len() implies p[j].id != rec.id by {
        assert(p.contains(p[j]));
        assert(rs2.contains(p[j]) && !p[j].published);
        assert(p[j] == r2 || p[j].id != r2.id);
    }
}

/// Durability-ordering: an `Add` of a payload followed by a `Take`
/// against the same store offers exactly one record carrying that
/// payload — the record the `Add` persisted, still unpublished —
/// provided no record already awaiting delivery carries an equal
/// payload.
pub proof fn lemma_add_then_take(v: Seq<(Seq<u8>, Seq<u8>)>, data: Seq<u8>, id: u128, now: i64)
    requires
        store_sorted(v),
        repo_inv(v),
        data.len() < 0x1_0000_0000,
        forall|j: int|
            0 <= j < pending_of(v)->Some_0.len() ==> pending_of(v)->Some_0[j].data != data,
    ensures
        store_sorted(spec_upsert(v, key_for(id), enc_saved(added_model(data, id, now)))),
        repo_inv(spec_upsert(v, key_for(id), enc_saved(added_model(data, id, now)))),
        pending_of(spec_upsert(v, key_for(id), enc_saved(added_model(data, id, now)))) is Some,
        exists|i: int|
            0 <= i < pending_of(
                spec_upsert(v, key_for(id), enc_saved(added_model(data, id, now))),
            )->Some_0.len() && pending_of(
                spec_upsert(v, key_for(id), enc_saved(added_model(data, id, now))),
            )->Some_0[i] == added_model(data, id, now),
        forall|i: int|
            0 <= i < pending_of(
                spec_upsert(v, key_for(id), enc_saved(added_model(data, id, now))),
            )->Some_0.len() && pending_of(
                spec_upsert(v, key_for(id), enc_saved(added_model(data, id, now))),
            )->Some_0[i].data == data ==> pending_of(
                spec_upsert(v, key_for(id), enc_saved(added_model(data, id, now))),
            )->Some_0[i] == added_model(data, id, now),
        forall|i: int, j: int|
            0 <= i < j < pending_of(
                spec_upsert(v, key_for(id), enc_saved(added_model(data, id, now))),
            )->Some_0.len() ==> pending_of(
                spec_upsert(v, key_for(id), enc_saved(added_model(data, id, now))),
            )->Some_0[i].id != pending_of(
                spec_upsert(v, key_for(id), enc_saved(added_model(data, id, now))),
            )->Some_0[j].id,
{
    let added = added_model(data, id, now);
    lemma_record_upsert(v, added);
    let v2 = spec_upsert(v, key_for(id), enc_saved(added));
    let rs = saved_reqs_of(v)->Some_0;
    let rs2 = saved_reqs_of(v2)->Some_0;
    lemma_unpublished_contains(rs);
    lemma_unpublished_contains(rs2);
    lemma_unpublished_distinct(rs2);
    let p = unpublished_of(rs2);
    assert(pending_of(v2) == Some(p));
    assert(rs2.contains(added));
    assert(p.contains(added));
    let w = choose|w: int| 0 <= w < p.len() && p[w] == added;
    assert(0 <= w < p.len() && p[w] == added);
    assert forall|i: int| 0 <= i < p.len() && (#[trigger] p[i]).data == data implies p[i]
        == added by {
        assert(p.contains(p[i]));
        assert(unpublished_of(rs2).contains(p[i]));
        assert(rs2.contains(p[i]) && !p[i].published);
        if p[i] != added {
            assert(rs.contains(p[i]) && p[i].id != added.id);
            assert(unpublished_of(rs).contains(p[i]));
            assert(pending_of(v) == Some(unpublished_of(rs)));
            let u = choose|u: int|
                0 <= u < unpublished_of(rs).len() && unpublished_of(rs)[u] == p[i];
            assert(pending_of(v)->Some_0[u] == p[i]);
            assert(pending_of(v)->Some_0[u].data != data);
        }
    }
}

} // verus!
