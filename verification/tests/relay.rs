//! End-to-end exercises of the relay core: framing, dispatch, the
//! store, and the publish-tracking rules, with frames built and read by
//! an independent encoder.
use rabbit::codec::{decode_req, decode_saved_req, encode_saved_req};
use rabbit::model::{Command, SavedReq};
use rabbit::processor::{fresh_id, handle_add, mark_published, pending_records};
use rabbit::repo::{get_saved_reqs, puts_saved_req, replace, uuid_key, RepoError};
use rabbit::session::{dispatch_frame, Dispatch, FrameIn};
use rabbit::store::Store;

fn frame(cmd: &str, data: &[u8]) -> Vec<u8> {
    let v = rmpv::Value::Map(vec![
        (rmpv::Value::from("command"), rmpv::Value::from(cmd)),
        (rmpv::Value::from("data"), rmpv::Value::Binary(data.to_vec())),
    ]);
    let mut out = Vec::new();
    rmpv::encode::write_value(&mut out, &v).unwrap();
    out
}

fn sample(id: u128, data: &[u8]) -> SavedReq {
    SavedReq {
        command: Command::Take,
        id,
        created_at: 7,
        published: false,
        published_at: 0,
        data: data.to_vec(),
    }
}

#[test]
fn end_to_end_hello() {
    let mut store = Store::new();
    // connect; send Add with the bytes of "hello"
    let add = frame("Add", b"hello");
    let data = match dispatch_frame(FrameIn::Binary(add)) {
        Dispatch::PersistNew(d) => d,
        _ => panic!("Add frame must dispatch to a persist"),
    };
    let id = fresh_id();
    handle_add(&mut store, data, id, 5);
    // send Take
    let take = frame("Take", b"");
    assert!(matches!(
        dispatch_frame(FrameIn::Binary(take)),
        Dispatch::Deliver
    ));
    let pending = pending_records(&store).unwrap();
    assert_eq!(pending.len(), 1);
    let rec = &pending[0];
    assert_eq!(rec.data, b"hello".to_vec());
    assert_eq!(rec.id, id);
    assert_eq!(rec.created_at, 5);
    // the response frame decodes as a saved record, read back by an
    // independent decoder
    let out = encode_saved_req(rec);
    let val = rmpv::decode::read_value(&mut &out[..]).unwrap();
    let m = match val {
        rmpv::Value::Map(m) => m,
        _ => panic!("response frame must be a map"),
    };
    assert_eq!(m.len(), 6);
    assert_eq!(m[0].0.as_str().unwrap(), "command");
    assert_eq!(m[0].1.as_str().unwrap(), "Take");
    assert_eq!(m[1].0.as_str().unwrap(), "id");
    assert_eq!(m[1].1.as_slice().unwrap().len(), 16);
    assert_eq!(m[2].0.as_str().unwrap(), "created_at");
    assert_eq!(m[2].1.as_i64().unwrap(), 5);
    assert_eq!(m[3].0.as_str().unwrap(), "published");
    assert_eq!(m[4].0.as_str().unwrap(), "published_at");
    assert_eq!(m[5].0.as_str().unwrap(), "data");
    assert_eq!(m[5].1.as_slice().unwrap(), b"hello");
    // the send succeeded: persist the publish mark; the stored record is
    // then seen published, no earlier than its creation
    let delivered = pending.into_iter().next().unwrap();
    mark_published(&mut store, delivered, 9);
    let all = get_saved_reqs(&store).unwrap();
    assert_eq!(all.len(), 1);
    assert!(all[0].published);
    assert!(all[0].published_at >= all[0].created_at);
    assert_eq!(all[0].data, b"hello".to_vec());
}

#[test]
fn add_then_take_delivers_exactly_once() {
    let mut store = Store::new();
    handle_add(&mut store, b"payload".to_vec(), 77, 100);
    let pending = pending_records(&store).unwrap();
    let hits: Vec<&SavedReq> = pending.iter().filter(|r| r.data == b"payload").collect();
    assert_eq!(hits.len(), 1);
    assert!(!hits[0].published);
    assert_eq!(hits[0].published_at, 0);
    assert_eq!(hits[0].command, Command::Take);
}

#[test]
fn no_redelivery_after_publish() {
    let mut store = Store::new();
    handle_add(&mut store, b"once".to_vec(), 1, 10);
    let pending = pending_records(&store).unwrap();
    assert_eq!(pending.len(), 1);
    let rec = pending.into_iter().next().unwrap();
    let id = rec.id;
    mark_published(&mut store, rec, 11);
    // the same session sees nothing left
    assert_eq!(pending_records(&store).unwrap().len(), 0);
    // a new session against the same store sees nothing left either
    let later = pending_records(&store).unwrap();
    assert!(later.iter().all(|r| r.id != id));
    assert_eq!(later.len(), 0);
}

#[test]
fn idle_take_yields_zero_frames() {
    let store = Store::new();
    let pending = pending_records(&store).unwrap();
    assert_eq!(pending.len(), 0);
    // the session stays open: an idle Take is no failure, and a later
    // frame still dispatches
    let take = frame("Take", b"");
    assert!(matches!(
        dispatch_frame(FrameIn::Binary(take)),
        Dispatch::Deliver
    ));
}

#[test]
fn overwrite_same_id_keeps_one_record() {
    let mut store = Store::new();
    let first = sample(42, b"first");
    let mut second = sample(42, b"second");
    second.published = true;
    second.published_at = 8;
    puts_saved_req(&mut store, first);
    puts_saved_req(&mut store, second);
    let all = get_saved_reqs(&store).unwrap();
    assert_eq!(all.len(), 1);
    assert_eq!(all[0].data, b"second".to_vec());
    assert!(all[0].published);
}

#[test]
fn interrupted_publish_is_redelivered() {
    // the send succeeded but the process stopped before the publish
    // mark was persisted: delivery is at least once, not exactly once
    let mut store = Store::new();
    handle_add(&mut store, b"dup".to_vec(), 3, 20);
    let before = pending_records(&store).unwrap();
    assert_eq!(before.len(), 1);
    // the mark was never persisted; a restart lists the record again
    let after_restart = pending_records(&store).unwrap();
    assert_eq!(after_restart.len(), 1);
    assert_eq!(after_restart[0].data, b"dup".to_vec());
}

#[test]
fn unrecognized_command_closes_session() {
    let bad = frame("Drop", b"x");
    assert!(matches!(
        dispatch_frame(FrameIn::Binary(bad)),
        Dispatch::Close
    ));
    // nothing was created: a store this session served stays empty
    let store = Store::new();
    assert_eq!(get_saved_reqs(&store).unwrap().len(), 0);
}

#[test]
fn malformed_frame_closes_session() {
    assert!(matches!(
        dispatch_frame(FrameIn::Binary(vec![0x01, 0x02])),
        Dispatch::Close
    ));
    assert!(matches!(
        dispatch_frame(FrameIn::Binary(Vec::new())),
        Dispatch::Close
    ));
}

#[test]
fn non_binary_frames_are_ignored() {
    assert!(matches!(dispatch_frame(FrameIn::Other), Dispatch::Skip));
}

#[test]
fn request_decoding_reads_both_commands() {
    let add = frame("Add", b"abc");
    let req = decode_req(&add).unwrap();
    assert_eq!(req.command, Command::Add);
    assert_eq!(req.data, b"abc".to_vec());
    let take = frame("Take", b"");
    let req = decode_req(&take).unwrap();
    assert_eq!(req.command, Command::Take);
    assert_eq!(req.data, Vec::<u8>::new());
}

#[test]
fn saved_record_round_trips() {
    for n in [0usize, 1, 255, 300, 70_000] {
        let mut rec = sample(0xfeed_beef_0123_4567_89ab_cdef_0011_2233, &vec![0xabu8; n]);
        rec.created_at = -12345;
        rec.published = true;
        rec.published_at = 1_700_000_000;
        let bytes = encode_saved_req(&rec);
        let back = decode_saved_req(&bytes).unwrap();
        assert_eq!(back.command, rec.command);
        assert_eq!(back.id, rec.id);
        assert_eq!(back.created_at, rec.created_at);
        assert_eq!(back.published, rec.published);
        assert_eq!(back.published_at, rec.published_at);
        assert_eq!(back.data, rec.data);
    }
}

#[test]
fn corrupt_stored_value_fails_the_listing() {
    let mut store = Store::new();
    handle_add(&mut store, b"fine".to_vec(), 9, 30);
    replace(&mut store, b"req_zzz".to_vec(), vec![0xff, 0x00]);
    assert!(matches!(
        get_saved_reqs(&store),
        Err(RepoError::CorruptRecord)
    ));
    assert!(pending_records(&store).is_err());
}

#[test]
fn keys_take_the_canonical_string_form() {
    let id: u128 = 0x0011_2233_4455_6677_8899_aabb_ccdd_eeff;
    let key = uuid_key(id);
    assert_eq!(key, b"req_00112233-4455-6677-8899-aabbccddeeff".to_vec());
}

#[test]
fn empty_payload_is_delivered() {
    let mut store = Store::new();
    handle_add(&mut store, Vec::new(), 5, 40);
    let pending = pending_records(&store).unwrap();
    assert_eq!(pending.len(), 1);
    assert_eq!(pending[0].data, Vec::<u8>::new());
}

#[test]
fn listing_order_is_key_order_not_insertion_order() {
    let mut store = Store::new();
    handle_add(&mut store, b"second-key".to_vec(), 2, 50);
    handle_add(&mut store, b"first-key".to_vec(), 1, 51);
    let all = get_saved_reqs(&store).unwrap();
    assert_eq!(all.len(), 2);
    // scan order follows key bytes, an artifact of the storage engine
    assert_eq!(all[0].id, 1);
    assert_eq!(all[1].id, 2);
}

#[test]
fn fresh_ids_differ_across_draws() {
    let a = fresh_id();
    let b = fresh_id();
    assert_ne!(a, b);
}
