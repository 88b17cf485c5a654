//! The saved-request repository: maps records onto store keys and
//! values. The key is the literal prefix `req_` followed by the
//! identifier's canonical hyphenated-hexadecimal string; the value is
//! the record's binary encoding.
use vstd::prelude::*;

use crate::codec::{dec_saved, enc_saved};
use crate::codec::{decode_saved_req, encode_saved_req};
use crate::model::{SavedReq, SavedReqModel};
use crate::store::{scan_of, spec_upsert, Store};

verus! {

/// The repository's failure: some stored value under the prefix did not
/// decode, which is fatal to the whole listing.
#[derive(Debug, PartialEq, Eq, Structural, Clone, Copy)]
pub enum RepoError {
    CorruptRecord,
}

/// The scan prefix, the bytes of "req".
pub open spec fn req_prefix() -> Seq<u8> {
    seq![0x72u8, 0x65u8, 0x71u8]
}

/// The lower-case hexadecimal digit for a value below sixteen.
pub open spec fn hex_digit(n: u8) -> u8 {
    if n < 10 {
        (0x30 + n) as u8
    } else {
        (0x57 + n) as u8
    }
}

/// The `j`-th four-bit group of the identifier, most significant first.
pub open spec fn nib(id: u128, j: int) -> u8 {
    ((id >> (((31 - j) * 4) as u128)) & 0xf) as u8
}

/// Which four-bit group the `i`-th character of the canonical string
/// shows (dash positions excluded).
pub open spec fn nib_index(i: int) -> int {
    if i < 8 {
        i
    } else if i < 13 {
        i - 1
    } else if i < 18 {
        i - 2
    } else if i < 23 {
        i - 3
    } else {
        i - 4
    }
}

/// The `i`-th byte of the canonical hyphenated string of the identifier.
pub open spec fn uuid_char(id: u128, i: int) -> u8 {
    if i == 8 || i == 13 || i == 18 || i == 23 {
        0x2d
    } else {
        hex_digit(nib(id, nib_index(i)))
    }
}

/// The canonical string form of the identifier: 32 lower-case
/// hexadecimal digits in five dash-separated groups.
pub open spec fn uuid_str(id: u128) -> Seq<u8> {
    Seq::new(36, |i: int| uuid_char(id, i))
}

/// The store key of the record with identifier `id`: "req_" then the
/// canonical string.
pub open spec fn key_for(id: u128) -> Seq<u8> {
    seq![0x72u8, 0x65u8, 0x71u8, 0x5fu8] + uuid_str(id)
}

/// Derives the store key of a record from its identifier.
pub fn uuid_key(id: u128) -> (k: Vec<u8>)
    ensures
        k@ == key_for(id),
{
    let mut k: Vec<u8> = Vec::new();
    k.push(0x72);
    k.push(0x65);
    k.push(0x71);
    k.push(0x5f);
    let ghost head = k@;
    assert(head =~= seq![0x72u8, 0x65u8, 0x71u8, 0x5fu8]);
    for i in 0..36usize
        invariant
            k@ == head + uuid_str(id).take(i as int),
    {
        let b: u8 = if i == 8 || i == 13 || i == 18 || i == 23 {
            0x2d
        } else {
            let idx: usize = if i < 8 {
                i
            } else if i < 13 {
                i - 1
            } else if i < 18 {
                i - 2
            } else if i < 23 {
                i - 3
            } else {
                i - 4
            };
            let sh: u128 = ((31 - idx) * 4) as u128;
            assert(((id >> sh) & 0xf) < 0x10) by (bit_vector);
            let d: u8 = ((id >> sh) & 0xf) as u8;
            if d < 10 {
                0x30 + d
            } else {
                0x57 + d
            }
        };
        proof {
            assert(b == uuid_char(id, i as int));
        }
        k.push(b);
        proof {
            assert(head + uuid_str(id).take(i as int + 1) =~= (head + uuid_str(id).take(
                i as int,
            )).push(b));
        }
    }
    proof {
        assert(uuid_str(id).take(36) =~= uuid_str(id));
        assert(head + uuid_str(id) =~= key_for(id));
    }
    k
}

/// Point write into the store under an arbitrary key.
pub fn replace(store: &mut Store, key: Vec<u8>, value: Vec<u8>)
    requires
        old(store).inv(),
    ensures
        final(store).inv(),
        final(store)@ == spec_upsert(old(store)@, key@, value@),
{
    store.put(key, value);
}

/// Persists a record under the key derived from its identifier,
/// overwriting any earlier value of that key.
pub fn puts_saved_req(store: &mut Store, saved_req: SavedReq)
    requires
        old(store).inv(),
        saved_req.data@.len() < 0x1_0000_0000,
    ensures
        final(store).inv(),
        final(store)@ == spec_upsert(
            old(store)@,
            key_for(saved_req.id),
            enc_saved(saved_req@),
        ),
{
    let key = uuid_key(saved_req.id);
    let value = encode_saved_req(&saved_req);
    replace(store, key, value);
}

/// The values of a sequence of entries.
pub open spec fn values_of(entries: Seq<(Seq<u8>, Seq<u8>)>) -> Seq<Seq<u8>> {
    entries.map_values(|p: (Seq<u8>, Seq<u8>)| p.1)
}

/// Decodes a sequence of stored values; any single failure fails the
/// whole listing.
pub open spec fn dec_values(vals: Seq<Seq<u8>>) -> Option<Seq<SavedReqModel>>
    decreases vals.len(),
{
    if vals.len() == 0 {
        Some(Seq::empty())
    } else {
        match dec_saved(vals[0]) {
            None => None,
            Some(r) => match dec_values(vals.drop_first()) {
                None => None,
                Some(rs) => Some(seq![r] + rs),
            },
        }
    }
}

/// What a full listing of the store yields: the decoded records of every
/// entry under the prefix, in scan order, or nothing if any value is
/// corrupt.
pub open spec fn saved_reqs_of(v: Seq<(Seq<u8>, Seq<u8>)>) -> Option<Seq<SavedReqModel>> {
    dec_values(values_of(scan_of(v, req_prefix())))
}

/// The image of exec records as mathematical records.
pub open spec fn recs_view(s: Seq<SavedReq>) -> Seq<SavedReqModel> {
    s.map_values(|x: SavedReq| x@)
}

/// Scans everything under the prefix and decodes each value into a
/// record, in scan order; fails if any single value is corrupt.
pub fn get_saved_reqs(store: &Store) -> (r: Result<Vec<SavedReq>, RepoError>)
    ensures
        match r {
            Ok(v) => saved_reqs_of(store@) == Some(recs_view(v@)),
            Err(_) => saved_reqs_of(store@) is None,
        },
{
    let mut pre: Vec<u8> = Vec::new();
    pre.push(0x72);
    pre.push(0x65);
    pre.push(0x71);
    proof {
        assert(pre@ =~= req_prefix());
    }
    let entries = store.scan(&pre);
    let ghost vals = values_of(crate::store::pairs_view(entries@));
    let mut out: Vec<SavedReq> = Vec::new();
    let n = entries.len();
    proof {
        assert(vals.skip(0) =~= vals);
        assert(recs_view(out@) + dec_values(vals)->Some_0 =~= dec_values(vals)->Some_0);
    }
    for i in 0..n
        invariant
            n == entries@.len(),
            crate::store::pairs_view(entries@) == scan_of(store@, req_prefix()),
            vals == values_of(crate::store::pairs_view(entries@)),
            dec_values(vals) == match dec_values(vals.skip(i as int)) {
                None => None::<Seq<SavedReqModel>>,
                Some(rs) => Some(recs_view(out@) + rs),
            },
    {
        let ghost tail = vals.skip(i as int);
        proof {
            assert(tail[0] == vals[i as int]);
            assert(vals[i as int] == entries@[i as int].1@);
            assert(tail.drop_first() =~= vals.skip(i as int + 1));
        }
        match decode_saved_req(&entries[i].1) {
            Some(rec) => {
                let ghost out0 = out@;
                out.push(rec);
                proof {
                    assert(recs_view(out@) =~= recs_view(out0) + seq![rec@]);
                    if dec_values(vals.skip(i as int + 1)) is Some {
                        let rs = dec_values(vals.skip(i as int + 1))->Some_0;
                        assert(dec_values(tail) == Some(seq![rec@] + rs));
                        assert(recs_view(out0) + (seq![rec@] + rs) =~= recs_view(out@) + rs);
                    }
                }
            },
            None => {
                proof {
                    assert(dec_values(tail) is None);
                }
                return Err(RepoError::CorruptRecord);
            },
        }
    }
    proof {
        assert(vals.skip(n as int).len() == 0);
        assert(dec_values(vals.skip(n as int)) == Some(Seq::<SavedReqModel>::empty()));
        assert(recs_view(out@) + Seq::<SavedReqModel>::empty() =~= recs_view(out@));
    }
    Ok(out)
}

} // verus!
