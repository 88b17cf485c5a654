//! The command processor: `Add` persists a fresh record, `Take` lists
//! what is still unpublished and, record by record, persists the publish
//! mark once a delivery has succeeded. The surrounding program performs
//! the sends and supplies identifiers and times; every decision about
//! what is stored and what is offered for delivery is made here.
use vstd::prelude::*;

use crate::codec::enc_saved;
use crate::model::{Command, SavedReq, SavedReqModel};
use crate::repo::{
    get_saved_reqs, key_for, puts_saved_req, recs_view, saved_reqs_of, RepoError,
};
use crate::store::{spec_upsert, Store};

verus! {

/// The record that an `Add` of `data` at time `now` under identifier
/// `id` persists: delivery is the next required action, so the stored
/// command is `Take`, and the record is still unpublished.
pub open spec fn added_model(data: Seq<u8>, id: u128, now: i64) -> SavedReqModel {
    SavedReqModel {
        command: Command::Take,
        id,
        created_at: now,
        published: false,
        published_at: 0,
        data,
    }
}

/// `r` with its successful delivery at `now` recorded.
pub open spec fn published_model(r: SavedReqModel, now: i64) -> SavedReqModel {
    SavedReqModel { published: true, published_at: now, ..r }
}

/// The unpublished records of a listing, in the order listed.
pub open spec fn unpublished_of(rs: Seq<SavedReqModel>) -> Seq<SavedReqModel>
    decreases rs.len(),
{
    if rs.len() == 0 {
        Seq::empty()
    } else {
        let rest = unpublished_of(rs.drop_first());
        if !rs[0].published {
            seq![rs[0]] + rest
        } else {
            rest
        }
    }
}

/// What a `Take` offers for delivery: the unpublished records of the
/// full listing, in scan order, or nothing if the listing fails.
pub open spec fn pending_of(v: Seq<(Seq<u8>, Seq<u8>)>) -> Option<Seq<SavedReqModel>> {
    match saved_reqs_of(v) {
        None => None,
        Some(rs) => Some(unpublished_of(rs)),
    }
}

/// Relies on uuid::Uuid::new_v4 for a freshly drawn random version-4
/// identifier, returned as its 128-bit value. Nothing is promised of the
/// draw.
#[verifier::external_body]
pub fn fresh_id() -> u128 {
    uuid::Uuid::new_v4().as_u128()
}

/// `Add`: persists the record for `data` under the fresh identifier
/// `id`, created at `now`, unpublished. Produces no response frame.
pub fn handle_add(store: &mut Store, data: Vec<u8>, id: u128, now: i64)
    requires
        old(store).inv(),
        data@.len() < 0x1_0000_0000,
    ensures
        final(store).inv(),
        final(store)@ == spec_upsert(
            old(store)@,
            key_for(id),
            enc_saved(added_model(data@, id, now)),
        ),
{
    let saved_req = SavedReq {
        command: Command::Take,
        id,
        created_at: now,
        published: false,
        published_at: 0,
        data,
    };
    puts_saved_req(store, saved_req);
}

/// Copies a record.
pub fn clone_saved(r: &SavedReq) -> (c: SavedReq)
    ensures
        c@ == r@,
{
    SavedReq {
        command: r.command,
        id: r.id,
        created_at: r.created_at,
        published: r.published,
        published_at: r.published_at,
        data: crate::store::clone_bytes(&r.data),
    }
}

/// `Take`, first half: the records still owed to a caller, in the order
/// the listing returns them. Fails exactly when the listing fails.
pub fn pending_records(store: &Store) -> (r: Result<Vec<SavedReq>, RepoError>)
    ensures
        match r {
            Ok(v) => pending_of(store@) == Some(recs_view(v@)),
            Err(_) => pending_of(store@) is None,
        },
{
    let recs = match get_saved_reqs(store) {
        Ok(v) => v,
        Err(e) => {
            return Err(e);
        },
    };
    let ghost all = recs_view(recs@);
    let mut out: Vec<SavedReq> = Vec::new();
    let n = recs.len();
    proof {
        assert(all.skip(0) =~= all);
        assert(recs_view(out@) + unpublished_of(all) =~= unpublished_of(all));
    }
    for i in 0..n
        invariant
            n == recs@.len(),
            all == recs_view(recs@),
            saved_reqs_of(store@) == Some(all),
            unpublished_of(all) == recs_view(out@) + unpublished_of(all.skip(i as int)),
    {
        let ghost tail = all.skip(i as int);
        proof {
            assert(tail[0] == all[i as int]);
            assert(all[i as int] == recs@[i as int]@);
            assert(tail.drop_first() =~= all.skip(i as int + 1));
        }
        if !recs[i].published {
            let ghost out0 = out@;
            let c = clone_saved(&recs[i]);
            out.push(c);
            proof {
                assert(recs_view(out@) =~= recs_view(out0) + seq![recs@[i as int]@]);
                assert(recs_view(out0) + (seq![recs@[i as int]@] + unpublished_of(
                    all.skip(i as int + 1),
                )) =~= recs_view(out@) + unpublished_of(all.skip(i as int + 1)));
            }
        }
    }
    proof {
        assert(all.skip(n as int).len() == 0);
        assert(recs_view(out@) + unpublished_of(all.skip(n as int)) =~= recs_view(out@));
    }
    Ok(out)
}

/// `Take`, per delivered record: stamps the delivery time, raises the
/// publish flag, and persists the updated record over the old one.
pub fn mark_published(store: &mut Store, rec: SavedReq, now: i64)
    requires
        old(store).inv(),
        rec.data@.len() < 0x1_0000_0000,
    ensures
        final(store).inv(),
        final(store)@ == spec_upsert(
            old(store)@,
            key_for(rec.id),
            enc_saved(published_model(rec@, now)),
        ),
{
    let mut saved_req = rec;
    saved_req.published_at = now;
    saved_req.published = true;
    puts_saved_req(store, saved_req);
}

} // verus!
