//! The binary wire and storage format: self-describing structured records
//! with named fields (a map of short strings to values), as carried in
//! binary frames and in stored values.
//!
//! Requests are `{ command: "Add"|"Take", data: <bin> }`; saved records add
//! the identifier, the two timestamps and the publish flag. The spec
//! functions below are the format's definition; the executable encoder and
//! decoder are proved against them.
use vstd::prelude::*;

use crate::model::{Command, Req, ReqModel, SavedReq, SavedReqModel};

verus! {

// ---------------------------------------------------------------------
// Field keys, as encoded short strings (tag byte, then ASCII bytes).
// ---------------------------------------------------------------------

/// "command" as an encoded 7-byte string.
pub open spec fn key_command() -> Seq<u8> {
    seq![0xa7u8, 0x63u8, 0x6fu8, 0x6du8, 0x6du8, 0x61u8, 0x6eu8, 0x64u8]
}

/// "id" as an encoded 2-byte string.
pub open spec fn key_id() -> Seq<u8> {
    seq![0xa2u8, 0x69u8, 0x64u8]
}

/// "created_at" as an encoded 10-byte string.
pub open spec fn key_created_at() -> Seq<u8> {
    seq![0xaau8, 0x63u8, 0x72u8, 0x65u8, 0x61u8, 0x74u8, 0x65u8, 0x64u8, 0x5fu8, 0x61u8, 0x74u8]
}

/// "published" as an encoded 9-byte string.
pub open spec fn key_published() -> Seq<u8> {
    seq![0xa9u8, 0x70u8, 0x75u8, 0x62u8, 0x6cu8, 0x69u8, 0x73u8, 0x68u8, 0x65u8, 0x64u8]
}

/// "published_at" as an encoded 12-byte string.
pub open spec fn key_published_at() -> Seq<u8> {
    seq![0xacu8, 0x70u8, 0x75u8, 0x62u8, 0x6cu8, 0x69u8, 0x73u8, 0x68u8, 0x65u8, 0x64u8, 0x5fu8,
        0x61u8, 0x74u8]
}

/// "data" as an encoded 4-byte string.
pub open spec fn key_data() -> Seq<u8> {
    seq![0xa4u8, 0x64u8, 0x61u8, 0x74u8, 0x61u8]
}

// ---------------------------------------------------------------------
// Scalar pieces.
// ---------------------------------------------------------------------

/// A command value: the variant's name as an encoded short string.
pub open spec fn enc_command(c: Command) -> Seq<u8> {
    match c {
        Command::Add => seq![0xa3u8, 0x41u8, 0x64u8, 0x64u8],
        Command::Take => seq![0xa4u8, 0x54u8, 0x61u8, 0x6bu8, 0x65u8],
    }
}

/// A boolean value.
pub open spec fn enc_bool(b: bool) -> Seq<u8> {
    if b {
        seq![0xc3u8]
    } else {
        seq![0xc2u8]
    }
}

/// The eight big-endian bytes of a 64-bit value.
pub open spec fn u64_be(v: u64) -> Seq<u8> {
    Seq::new(8, |i: int| ((v >> (((7 - i) * 8) as u64)) & 0xff) as u8)
}

/// The sixteen big-endian bytes of a 128-bit value.
pub open spec fn u128_be(v: u128) -> Seq<u8> {
    Seq::new(16, |i: int| ((v >> (((15 - i) * 8) as u128)) & 0xff) as u8)
}

/// The 64-bit value read back from eight big-endian bytes.
pub open spec fn u64_of_be(b: Seq<u8>) -> u64 {
    ((b[0] as u64) << 56u64) | ((b[1] as u64) << 48u64) | ((b[2] as u64) << 40u64) | ((b[3]
        as u64) << 32u64) | ((b[4] as u64) << 24u64) | ((b[5] as u64) << 16u64) | ((b[6]
        as u64) << 8u64) | (b[7] as u64)
}

/// The 128-bit value read back from sixteen big-endian bytes.
pub open spec fn u128_of_be(b: Seq<u8>) -> u128 {
    ((b[0] as u128) << 120u128) | ((b[1] as u128) << 112u128) | ((b[2] as u128) << 104u128) | ((
    b[3] as u128) << 96u128) | ((b[4] as u128) << 88u128) | ((b[5] as u128) << 80u128) | ((b[6]
        as u128) << 72u128) | ((b[7] as u128) << 64u128) | ((b[8] as u128) << 56u128) | ((b[9]
        as u128) << 48u128) | ((b[10] as u128) << 40u128) | ((b[11] as u128) << 32u128) | ((b[12]
        as u128) << 24u128) | ((b[13] as u128) << 16u128) | ((b[14] as u128) << 8u128) | (b[15]
        as u128)
}

/// The two's-complement image of a signed 64-bit value.
pub open spec fn u64_of_i64(v: i64) -> u64 {
    if v >= 0 {
        v as u64
    } else {
        (v + 0x1_0000_0000_0000_0000) as u64
    }
}

/// The signed reading of a 64-bit two's-complement image.
pub open spec fn i64_of_u64(v: u64) -> i64 {
    if v <= 0x7fff_ffff_ffff_ffff {
        v as i64
    } else {
        (v - 0x1_0000_0000_0000_0000) as i64
    }
}

/// A signed 64-bit integer value: marker, then eight big-endian bytes.
pub open spec fn enc_i64(v: i64) -> Seq<u8> {
    seq![0xd3u8] + u64_be(u64_of_i64(v))
}

/// A byte-sequence value: the shortest of the three binary headers that
/// holds the length, then the bytes themselves.
pub open spec fn enc_bin(d: Seq<u8>) -> Seq<u8> {
    if d.len() < 0x100 {
        seq![0xc4u8, d.len() as u8] + d
    } else if d.len() < 0x10000 {
        seq![0xc5u8, ((d.len() as int / 0x100) % 0x100) as u8, (d.len() as int % 0x100) as u8] + d
    } else {
        seq![0xc6u8, ((d.len() as int / 0x100_0000) % 0x100) as u8, ((d.len() as int / 0x1_0000)
            % 0x100) as u8, ((d.len() as int / 0x100) % 0x100) as u8, (d.len() as int
            % 0x100) as u8] + d
    }
}

// ---------------------------------------------------------------------
// Whole records.
// ---------------------------------------------------------------------

/// The encoding of an inbound request: a two-entry map.
pub open spec fn enc_req(r: ReqModel) -> Seq<u8> {
    seq![0x82u8] + key_command() + enc_command(r.command) + key_data() + enc_bin(r.data)
}

/// The tail of a saved record's encoding, after the map header, the
/// "command" key and the command value.
pub open spec fn enc_saved_rest(r: SavedReqModel) -> Seq<u8> {
    key_id() + seq![0xc4u8, 0x10u8] + u128_be(r.id) + key_created_at() + enc_i64(r.created_at)
        + key_published() + enc_bool(r.published) + key_published_at() + enc_i64(r.published_at)
        + key_data() + enc_bin(r.data)
}

/// The encoding of a saved record: a six-entry map.
pub open spec fn enc_saved(r: SavedReqModel) -> Seq<u8> {
    seq![0x86u8] + key_command() + enc_command(r.command) + enc_saved_rest(r)
}

// ---------------------------------------------------------------------
// The decoders (the format read back).
// ---------------------------------------------------------------------

/// Reads a command value at position `p`; yields the command and the
/// position after it.
pub open spec fn dec_command_at(s: Seq<u8>, p: int) -> Option<(Command, int)> {
    if p + 4 <= s.len() && s.subrange(p, p + 4) == enc_command(Command::Add) {
        Some((Command::Add, p + 4))
    } else if p + 5 <= s.len() && s.subrange(p, p + 5) == enc_command(Command::Take) {
        Some((Command::Take, p + 5))
    } else {
        None
    }
}

/// Reads a byte-sequence value at position `q` that must exhaust the
/// input, with the shortest-header rule enforced.
pub open spec fn dec_bin_tail(s: Seq<u8>, q: int) -> Option<Seq<u8>> {
    if q + 2 <= s.len() && s[q] == 0xc4 {
        let n = s[q + 1] as int;
        if s.len() == q + 2 + n {
            Some(s.subrange(q + 2, q + 2 + n))
        } else {
            None
        }
    } else if q + 3 <= s.len() && s[q] == 0xc5 {
        let n = (s[q + 1] as int) * 0x100 + (s[q + 2] as int);
        if n >= 0x100 && s.len() == q + 3 + n {
            Some(s.subrange(q + 3, q + 3 + n))
        } else {
            None
        }
    } else if q + 5 <= s.len() && s[q] == 0xc6 {
        let n = (s[q + 1] as int) * 0x100_0000 + (s[q + 2] as int) * 0x1_0000 + (s[q + 3] as int)
            * 0x100 + (s[q + 4] as int);
        if n >= 0x1_0000 && s.len() == q + 5 + n {
            Some(s.subrange(q + 5, q + 5 + n))
        } else {
            None
        }
    } else {
        None
    }
}

/// Reads an inbound request.
pub open spec fn dec_req(s: Seq<u8>) -> Option<ReqModel> {
    if s.len() < 9 || s[0] != 0x82 || s.subrange(1, 9) != key_command() {
        None
    } else {
        match dec_command_at(s, 9) {
            None => None,
            Some((cmd, p)) => {
                if p + 5 > s.len() || s.subrange(p, p + 5) != key_data() {
                    None
                } else {
                    match dec_bin_tail(s, p + 5) {
                        None => None,
                        Some(data) => Some(ReqModel { command: cmd, data }),
                    }
                }
            },
        }
    }
}

/// Reads the tail of a saved record after its command value, which ended
/// at position `p`.
pub open spec fn dec_saved_rest(s: Seq<u8>, p: int, cmd: Command) -> Option<SavedReqModel> {
    if p + 79 > s.len() {
        None
    } else if s.subrange(p, p + 3) != key_id() {
        None
    } else if s[p + 3] != 0xc4 || s[p + 4] != 0x10 {
        None
    } else if s.subrange(p + 21, p + 32) != key_created_at() {
        None
    } else if s[p + 32] != 0xd3 {
        None
    } else if s.subrange(p + 41, p + 51) != key_published() {
        None
    } else if s[p + 51] != 0xc2 && s[p + 51] != 0xc3 {
        None
    } else if s.subrange(p + 52, p + 65) != key_published_at() {
        None
    } else if s[p + 65] != 0xd3 {
        None
    } else if s.subrange(p + 74, p + 79) != key_data() {
        None
    } else {
        match dec_bin_tail(s, p + 79) {
            None => None,
            Some(data) => Some(
                SavedReqModel {
                    command: cmd,
                    id: u128_of_be(s.subrange(p + 5, p + 21)),
                    created_at: i64_of_u64(u64_of_be(s.subrange(p + 33, p + 41))),
                    published: s[p + 51] == 0xc3,
                    published_at: i64_of_u64(u64_of_be(s.subrange(p + 66, p + 74))),
                    data,
                },
            ),
        }
    }
}

/// Reads a saved record.
pub open spec fn dec_saved(s: Seq<u8>) -> Option<SavedReqModel> {
    if s.len() < 9 || s[0] != 0x86 || s.subrange(1, 9) != key_command() {
        None
    } else {
        match dec_command_at(s, 9) {
            None => None,
            Some((cmd, p)) => dec_saved_rest(s, p, cmd),
        }
    }
}

// ---------------------------------------------------------------------
// Byte-order facts.
// ---------------------------------------------------------------------

/// Eight big-endian bytes read back give the value they were taken from.
pub proof fn lemma_u64_be_round(v: u64)
    ensures
        u64_of_be(u64_be(v)) == v,
{
    let b = u64_be(v);
    assert((((((v >> 56u64) & 0xff) as u8) as u64) << 56u64) | (((((v >> 48u64) & 0xff) as u8)
        as u64) << 48u64) | (((((v >> 40u64) & 0xff) as u8) as u64) << 40u64) | (((((v >> 32u64)
        & 0xff) as u8) as u64) << 32u64) | (((((v >> 24u64) & 0xff) as u8) as u64) << 24u64) | ((
    (((v >> 16u64) & 0xff) as u8) as u64) << 16u64) | (((((v >> 8u64) & 0xff) as u8) as u64)
        << 8u64) | ((((v >> 0u64) & 0xff) as u8) as u64) == v) by (bit_vector);
    assert(b[0] == (((v >> 56u64) & 0xff) as u8));
    assert(b[1] == (((v >> 48u64) & 0xff) as u8));
    assert(b[2] == (((v >> 40u64) & 0xff) as u8));
    assert(b[3] == (((v >> 32u64) & 0xff) as u8));
    assert(b[4] == (((v >> 24u64) & 0xff) as u8));
    assert(b[5] == (((v >> 16u64) & 0xff) as u8));
    assert(b[6] == (((v >> 8u64) & 0xff) as u8));
    assert(b[7] == (((v >> 0u64) & 0xff) as u8));
}

/// Sixteen big-endian bytes read back give the value they were taken from.
pub proof fn lemma_u128_be_round(v: u128)
    ensures
        u128_of_be(u128_be(v)) == v,
{
    let b = u128_be(v);
    assert((((((v >> 120u128) & 0xff) as u8) as u128) << 120u128) | (((((v >> 112u128) & 0xff)
        as u8) as u128) << 112u128) | (((((v >> 104u128) & 0xff) as u8) as u128) << 104u128) | ((
    (((v >> 96u128) & 0xff) as u8) as u128) << 96u128) | (((((v >> 88u128) & 0xff) as u8) as u128)
        << 88u128) | (((((v >> 80u128) & 0xff) as u8) as u128) << 80u128) | (((((v >> 72u128)
        & 0xff) as u8) as u128) << 72u128) | (((((v >> 64u128) & 0xff) as u8) as u128) << 64u128)
        | (((((v >> 56u128) & 0xff) as u8) as u128) << 56u128) | (((((v >> 48u128) & 0xff) as u8)
        as u128) << 48u128) | (((((v >> 40u128) & 0xff) as u8) as u128) << 40u128) | (((((v
        >> 32u128) & 0xff) as u8) as u128) << 32u128) | (((((v >> 24u128) & 0xff) as u8) as u128)
        << 24u128) | (((((v >> 16u128) & 0xff) as u8) as u128) << 16u128) | (((((v >> 8u128)
        & 0xff) as u8) as u128) << 8u128) | ((((v >> 0u128) & 0xff) as u8) as u128) == v)
        by (bit_vector);
    assert forall|i: int| 0 <= i < 16 implies b[i] == (((v >> (((15 - i) * 8) as u128)) & 0xff)
        as u8) by {}
    assert(b[0] == (((v >> 120u128) & 0xff) as u8));
    assert(b[1] == (((v >> 112u128) & 0xff) as u8));
    assert(b[2] == (((v >> 104u128) & 0xff) as u8));
    assert(b[3] == (((v >> 96u128) & 0xff) as u8));
    assert(b[4] == (((v >> 88u128) & 0xff) as u8));
    assert(b[5] == (((v >> 80u128) & 0xff) as u8));
    assert(b[6] == (((v >> 72u128) & 0xff) as u8));
    assert(b[7] == (((v >> 64u128) & 0xff) as u8));
    assert(b[8] == (((v >> 56u128) & 0xff) as u8));
    assert(b[9] == (((v >> 48u128) & 0xff) as u8));
    assert(b[10] == (((v >> 40u128) & 0xff) as u8));
    assert(b[11] == (((v >> 32u128) & 0xff) as u8));
    assert(b[12] == (((v >> 24u128) & 0xff) as u8));
    assert(b[13] == (((v >> 16u128) & 0xff) as u8));
    assert(b[14] == (((v >> 8u128) & 0xff) as u8));
    assert(b[15] == (((v >> 0u128) & 0xff) as u8));
}

/// The two's-complement image is read back as the signed value it came
/// from.
pub proof fn lemma_i64_round(v: i64)
    ensures
        i64_of_u64(u64_of_i64(v)) == v,
{
}

// ---------------------------------------------------------------------
// The executable encoder.
// ---------------------------------------------------------------------

/// Appends the eight big-endian bytes of `x`.
fn push_u64_be(v: &mut Vec<u8>, x: u64)
    ensures
        final(v)@ == old(v)@ + u64_be(x),
{
    let ghost start = v@;
    for i in 0..8usize
        invariant
            v@ == start + u64_be(x).take(i as int),
    {
        let sh: u64 = ((7 - i) * 8) as u64;
        assert(((x >> sh) & 0xff) < 0x100) by (bit_vector);
        let b: u8 = ((x >> sh) & 0xff) as u8;
        v.push(b);
        proof {
            assert(b == u64_be(x)[i as int]);
            assert(start + u64_be(x).take(i as int + 1) =~= (start + u64_be(x).take(
                i as int,
            )).push(b));
        }
    }
    proof {
        assert(u64_be(x).take(8) =~= u64_be(x));
    }
}

/// Appends the sixteen big-endian bytes of `x`.
fn push_u128_be(v: &mut Vec<u8>, x: u128)
    ensures
        final(v)@ == old(v)@ + u128_be(x),
{
    let ghost start = v@;
    for i in 0..16usize
        invariant
            v@ == start + u128_be(x).take(i as int),
    {
        let sh: u128 = ((15 - i) * 8) as u128;
        assert(((x >> sh) & 0xff) < 0x100) by (bit_vector);
        let b: u8 = ((x >> sh) & 0xff) as u8;
        v.push(b);
        proof {
            assert(b == u128_be(x)[i as int]);
            assert(start + u128_be(x).take(i as int + 1) =~= (start + u128_be(x).take(
                i as int,
            )).push(b));
        }
    }
    proof {
        assert(u128_be(x).take(16) =~= u128_be(x));
    }
}

/// The two's-complement image of `x`, computed without leaving the
/// unsigned range.
fn u64_image(x: i64) -> (r: u64)
    ensures
        r == u64_of_i64(x),
{
    if x >= 0 {
        x as u64
    } else {
        0xffff_ffff_ffff_ffffu64 - ((-(x + 1)) as u64)
    }
}

/// The signed reading of a two's-complement image, computed without
/// leaving the signed range.
fn i64_reading(x: u64) -> (r: i64)
    ensures
        r == i64_of_u64(x),
{
    if x <= 0x7fff_ffff_ffff_ffffu64 {
        x as i64
    } else {
        -((0xffff_ffff_ffff_ffffu64 - x) as i64) - 1
    }
}

/// Appends a signed 64-bit integer value.
fn push_i64(v: &mut Vec<u8>, x: i64)
    ensures
        final(v)@ == old(v)@ + enc_i64(x),
{
    let ghost start = v@;
    v.push(0xd3);
    let img = u64_image(x);
    push_u64_be(v, img);
    proof {
        assert(v@ =~= start + enc_i64(x));
    }
}

/// Appends a byte-sequence value under the shortest header that holds
/// its length.
fn push_bin(v: &mut Vec<u8>, d: &Vec<u8>)
    requires
        d@.len() < 0x1_0000_0000,
    ensures
        final(v)@ == old(v)@ + enc_bin(d@),
{
    let ghost start = v@;
    let n = d.len();
    if n < 0x100 {
        v.push(0xc4);
        v.push(n as u8);
    } else if n < 0x10000 {
        v.push(0xc5);
        v.push(((n / 0x100) % 0x100) as u8);
        v.push((n % 0x100) as u8);
    } else {
        v.push(0xc6);
        v.push(((n / 0x100_0000) % 0x100) as u8);
        v.push(((n / 0x1_0000) % 0x100) as u8);
        v.push(((n / 0x100) % 0x100) as u8);
        v.push((n % 0x100) as u8);
    }
    let ghost header = v@;
    for i in 0..n
        invariant
            n == d@.len(),
            v@ == header + d@.take(i as int),
    {
        let b = d[i];
        v.push(b);
        proof {
            assert(header + d@.take(i as int + 1) =~= (header + d@.take(i as int)).push(b));
        }
    }
    proof {
        assert(d@.take(n as int) =~= d@);
        assert(v@ =~= start + enc_bin(d@));
    }
}

/// Appends an already-encoded piece given as plain bytes.
fn push_lit(v: &mut Vec<u8>, d: &Vec<u8>)
    ensures
        final(v)@ == old(v)@ + d@,
{
    let ghost start = v@;
    let n = d.len();
    for i in 0..n
        invariant
            n == d@.len(),
            v@ == start + d@.take(i as int),
    {
        let b = d[i];
        v.push(b);
        proof {
            assert(start + d@.take(i as int + 1) =~= (start + d@.take(i as int)).push(b));
        }
    }
    proof {
        assert(d@.take(n as int) =~= d@);
    }
}

/// The "command" key as plain bytes.
fn key_command_vec() -> (v: Vec<u8>)
    ensures
        v@ == key_command(),
{
    let mut v: Vec<u8> = Vec::new();
    v.push(0xa7);
    v.push(0x63);
    v.push(0x6f);
    v.push(0x6d);
    v.push(0x6d);
    v.push(0x61);
    v.push(0x6e);
    v.push(0x64);
    proof {
        assert(v@ =~= key_command());
    }
    v
}

/// The "id" key as plain bytes.
fn key_id_vec() -> (v: Vec<u8>)
    ensures
        v@ == key_id(),
{
    let mut v: Vec<u8> = Vec::new();
    v.push(0xa2);
    v.push(0x69);
    v.push(0x64);
    proof {
        assert(v@ =~= key_id());
    }
    v
}

/// The "created_at" key as plain bytes.
fn key_created_at_vec() -> (v: Vec<u8>)
    ensures
        v@ == key_created_at(),
{
    let mut v: Vec<u8> = Vec::new();
    v.push(0xaa);
    v.push(0x63);
    v.push(0x72);
    v.push(0x65);
    v.push(0x61);
    v.push(0x74);
    v.push(0x65);
    v.push(0x64);
    v.push(0x5f);
    v.push(0x61);
    v.push(0x74);
    proof {
        assert(v@ =~= key_created_at());
    }
    v
}

/// The "published" key as plain bytes.
fn key_published_vec() -> (v: Vec<u8>)
    ensures
        v@ == key_published(),
{
    let mut v: Vec<u8> = Vec::new();
    v.push(0xa9);
    v.push(0x70);
    v.push(0x75);
    v.push(0x62);
    v.push(0x6c);
    v.push(0x69);
    v.push(0x73);
    v.push(0x68);
    v.push(0x65);
    v.push(0x64);
    proof {
        assert(v@ =~= key_published());
    }
    v
}

/// The "published_at" key as plain bytes.
fn key_published_at_vec() -> (v: Vec<u8>)
    ensures
        v@ == key_published_at(),
{
    let mut v: Vec<u8> = Vec::new();
    v.push(0xac);
    v.push(0x70);
    v.push(0x75);
    v.push(0x62);
    v.push(0x6c);
    v.push(0x69);
    v.push(0x73);
    v.push(0x68);
    v.push(0x65);
    v.push(0x64);
    v.push(0x5f);
    v.push(0x61);
    v.push(0x74);
    proof {
        assert(v@ =~= key_published_at());
    }
    v
}

/// The "data" key as plain bytes.
fn key_data_vec() -> (v: Vec<u8>)
    ensures
        v@ == key_data(),
{
    let mut v: Vec<u8> = Vec::new();
    v.push(0xa4);
    v.push(0x64);
    v.push(0x61);
    v.push(0x74);
    v.push(0x61);
    proof {
        assert(v@ =~= key_data());
    }
    v
}

/// The encoded command value as plain bytes.
fn enc_command_vec(c: Command) -> (v: Vec<u8>)
    ensures
        v@ == enc_command(c),
{
    let mut v: Vec<u8> = Vec::new();
    match c {
        Command::Add => {
            v.push(0xa3);
            v.push(0x41);
            v.push(0x64);
            v.push(0x64);
            proof {
                assert(v@ =~= enc_command(Command::Add));
            }
        },
        Command::Take => {
            v.push(0xa4);
            v.push(0x54);
            v.push(0x61);
            v.push(0x6b);
            v.push(0x65);
            proof {
                assert(v@ =~= enc_command(Command::Take));
            }
        },
    }
    v
}

/// Encodes a saved record for a response frame or a stored value.
pub fn encode_saved_req(r: &SavedReq) -> (out: Vec<u8>)
    requires
        r.data@.len() < 0x1_0000_0000,
    ensures
        out@ == enc_saved(r@),
{
    let mut v: Vec<u8> = Vec::new();
    v.push(0x86);
    let kc = key_command_vec();
    push_lit(&mut v, &kc);
    let cv = enc_command_vec(r.command);
    push_lit(&mut v, &cv);
    let ki = key_id_vec();
    push_lit(&mut v, &ki);
    v.push(0xc4);
    v.push(0x10);
    push_u128_be(&mut v, r.id);
    let kca = key_created_at_vec();
    push_lit(&mut v, &kca);
    push_i64(&mut v, r.created_at);
    let kp = key_published_vec();
    push_lit(&mut v, &kp);
    v.push(if r.published {
        0xc3
    } else {
        0xc2
    });
    let kpa = key_published_at_vec();
    push_lit(&mut v, &kpa);
    push_i64(&mut v, r.published_at);
    let kd = key_data_vec();
    push_lit(&mut v, &kd);
    push_bin(&mut v, &r.data);
    proof {
        assert(v@ =~= enc_saved(r@));
    }
    v
}

// ---------------------------------------------------------------------
// Round trip: an encoded record reads back as itself.
// ---------------------------------------------------------------------

/// A framed byte-sequence value placed at the end of a buffer reads back
/// as the bytes it framed.
proof fn lemma_bin_tail_round(s: Seq<u8>, q: int, d: Seq<u8>)
    requires
        d.len() < 0x1_0000_0000,
        0 <= q <= s.len(),
        s.subrange(q, s.len() as int) == enc_bin(d),
    ensures
        dec_bin_tail(s, q) == Some(d),
{
    let tail = s.subrange(q, s.len() as int);
    let n = d.len() as int;
    assert forall|j: int| 0 <= j < tail.len() implies s[q + j] == tail[j] by {
        assert(tail[j] == s[q + j]);
    }
    if d.len() < 0x100 {
        assert(tail.len() == 2 + n);
        assert(tail[0] == 0xc4 && tail[1] == n as u8);
        assert(s[q + 0] == 0xc4 && s[q + 1] == n as u8);
        assert(s[q] == 0xc4);
        assert(s.subrange(q + 2, q + 2 + n) =~= d) by {
            assert forall|i: int| 0 <= i < n implies s.subrange(q + 2, q + 2 + n)[i] == d[i] by {
                assert(s.subrange(q + 2, q + 2 + n)[i] == s[q + (2 + i)]);
                assert(tail[2 + i] == d[i]);
            }
        }
    } else if d.len() < 0x10000 {
        assert(tail.len() == 3 + n);
        assert(tail[0] == 0xc5 && tail[1] == ((n / 0x100) % 0x100) as u8 && tail[2] == (n
            % 0x100) as u8);
        assert(s[q + 0] == 0xc5);
        assert(s[q] == 0xc5);
        assert(s[q + 1] == ((n / 0x100) % 0x100) as u8 && s[q + 2] == (n % 0x100) as u8);
        assert((s[q + 1] as int) * 0x100 + (s[q + 2] as int) == n) by {
            assert(n / 0x100 < 0x100);
            assert((n / 0x100) % 0x100 == n / 0x100);
            assert((n / 0x100) * 0x100 + n % 0x100 == n) by {
                vstd::arithmetic::div_mod::lemma_fundamental_div_mod(n, 0x100);
            }
        }
        assert(s.subrange(q + 3, q + 3 + n) =~= d) by {
            assert forall|i: int| 0 <= i < n implies s.subrange(q + 3, q + 3 + n)[i] == d[i] by {
                assert(s.subrange(q + 3, q + 3 + n)[i] == s[q + (3 + i)]);
                assert(tail[3 + i] == d[i]);
            }
        }
    } else {
        assert(tail.len() == 5 + n);
        assert(tail[0] == 0xc6);
        assert(s[q + 0] == 0xc6);
        assert(s[q] == 0xc6);
        assert(tail[1] == ((n / 0x100_0000) % 0x100) as u8 && tail[2] == ((n / 0x1_0000)
            % 0x100) as u8 && tail[3] == ((n / 0x100) % 0x100) as u8 && tail[4] == (n
            % 0x100) as u8);
        assert((s[q + 1] as int) * 0x100_0000 + (s[q + 2] as int) * 0x1_0000 + (s[q + 3] as int)
            * 0x100 + (s[q + 4] as int) == n) by {
            vstd::arithmetic::div_mod::lemma_fundamental_div_mod(n, 0x100);
            vstd::arithmetic::div_mod::lemma_fundamental_div_mod(n / 0x100, 0x100);
            vstd::arithmetic::div_mod::lemma_fundamental_div_mod(n / 0x1_0000, 0x100);
            assert(n / 0x100 / 0x100 == n / 0x1_0000) by {
                vstd::arithmetic::div_mod::lemma_div_denominator(n, 0x100, 0x100);
            }
            assert(n / 0x1_0000 / 0x100 == n / 0x100_0000) by {
                vstd::arithmetic::div_mod::lemma_div_denominator(n, 0x1_0000, 0x100);
            }
            assert(n / 0x100_0000 < 0x100);
            assert((n / 0x100_0000) % 0x100 == n / 0x100_0000);
        }
        assert(s.subrange(q + 5, q + 5 + n) =~= d) by {
            assert forall|i: int| 0 <= i < n implies s.subrange(q + 5, q + 5 + n)[i] == d[i] by {
                assert(s.subrange(q + 5, q + 5 + n)[i] == s[q + (5 + i)]);
                assert(tail[5 + i] == d[i]);
            }
        }
    }
}

/// The tail of a saved record's encoding parses back to the record's
/// fields.
#[verifier::rlimit(60)]
proof fn lemma_saved_rest_round(s: Seq<u8>, p: int, r: SavedReqModel)
    requires
        crate::model::encodable(r),
        0 <= p <= s.len(),
        s.subrange(p, s.len() as int) == enc_saved_rest(r),
    ensures
        dec_saved_rest(s, p, r.command) == Some(r),
{
    let rest = enc_saved_rest(r);
    let c0 = key_id();
    let c1 = c0 + seq![0xc4u8, 0x10u8];
    let c2 = c1 + u128_be(r.id);
    let c3 = c2 + key_created_at();
    let c4 = c3 + enc_i64(r.created_at);
    let c5 = c4 + key_published();
    let c6 = c5 + enc_bool(r.published);
    let c7 = c6 + key_published_at();
    let c8 = c7 + enc_i64(r.published_at);
    let c9 = c8 + key_data();
    assert(c1.len() == 5 && c2.len() == 21 && c3.len() == 32 && c4.len() == 41 && c5.len() == 51
        && c6.len() == 52 && c7.len() == 65 && c8.len() == 74 && c9.len() == 79);
    assert(rest == c9 + enc_bin(r.data));
    assert(rest.len() == 79 + enc_bin(r.data).len());
    assert(s.len() == p + rest.len());
    assert forall|j: int| 0 <= j < rest.len() implies s[p + j] == rest[j] by {
        assert(s.subrange(p, s.len() as int)[j] == s[p + j]);
    }
    assert(s.subrange(p, p + 3) =~= key_id()) by {
        assert forall|i: int| 0 <= i < 3 implies s.subrange(p, p + 3)[i] == key_id()[i] by {
            assert(s.subrange(p, p + 3)[i] == s[p + i]);
            assert(rest[i] == c0[i]);
        }
    }
    assert(rest[3] == 0xc4 && rest[4] == 0x10);
    assert(s[p + 3] == 0xc4 && s[p + 4] == 0x10);
    assert(s.subrange(p + 5, p + 21) =~= u128_be(r.id)) by {
        assert forall|i: int| 0 <= i < 16 implies s.subrange(p + 5, p + 21)[i] == u128_be(r.id)[i]
            by {
            assert(s.subrange(p + 5, p + 21)[i] == s[p + (5 + i)]);
            assert(rest[5 + i] == c2[5 + i]);
        }
    }
    assert(s.subrange(p + 21, p + 32) =~= key_created_at()) by {
        assert forall|i: int| 0 <= i < 11 implies s.subrange(p + 21, p + 32)[i]
            == key_created_at()[i] by {
            assert(s.subrange(p + 21, p + 32)[i] == s[p + (21 + i)]);
            assert(rest[21 + i] == c3[21 + i]);
        }
    }
    assert(enc_i64(r.created_at)[0] == 0xd3);
    assert(rest[32] == c4[32]);
    assert(s[p + 32] == 0xd3);
    assert(s.subrange(p + 33, p + 41) =~= u64_be(u64_of_i64(r.created_at))) by {
        assert forall|i: int| 0 <= i < 8 implies s.subrange(p + 33, p + 41)[i] == u64_be(
            u64_of_i64(r.created_at),
        )[i] by {
            assert(s.subrange(p + 33, p + 41)[i] == s[p + (33 + i)]);
            assert(rest[33 + i] == c4[33 + i]);
            assert(c4[33 + i] == enc_i64(r.created_at)[1 + i]);
        }
    }
    assert(s.subrange(p + 41, p + 51) =~= key_published()) by {
        assert forall|i: int| 0 <= i < 10 implies s.subrange(p + 41, p + 51)[i] == key_published(
        )[i] by {
            assert(s.subrange(p + 41, p + 51)[i] == s[p + (41 + i)]);
            assert(rest[41 + i] == c5[41 + i]);
        }
    }
    assert(rest[51] == c6[51]);
    assert(s[p + 51] == (if r.published {
        0xc3u8
    } else {
        0xc2u8
    }));
    assert(s.subrange(p + 52, p + 65) =~= key_published_at()) by {
        assert forall|i: int| 0 <= i < 13 implies s.subrange(p + 52, p + 65)[i]
            == key_published_at()[i] by {
            assert(s.subrange(p + 52, p + 65)[i] == s[p + (52 + i)]);
            assert(rest[52 + i] == c7[52 + i]);
        }
    }
    assert(enc_i64(r.published_at)[0] == 0xd3);
    assert(rest[65] == c8[65]);
    assert(s[p + 65] == 0xd3);
    assert(s.subrange(p + 66, p + 74) =~= u64_be(u64_of_i64(r.published_at))) by {
        assert forall|i: int| 0 <= i < 8 implies s.subrange(p + 66, p + 74)[i] == u64_be(
            u64_of_i64(r.published_at),
        )[i] by {
            assert(s.subrange(p + 66, p + 74)[i] == s[p + (66 + i)]);
            assert(rest[66 + i] == c8[66 + i]);
            assert(c8[66 + i] == enc_i64(r.published_at)[1 + i]);
        }
    }
    assert(s.subrange(p + 74, p + 79) =~= key_data()) by {
        assert forall|i: int| 0 <= i < 5 implies s.subrange(p + 74, p + 79)[i] == key_data()[i]
            by {
            assert(s.subrange(p + 74, p + 79)[i] == s[p + (74 + i)]);
            assert(rest[74 + i] == c9[74 + i]);
        }
    }
    assert(s.subrange(p + 79, s.len() as int) =~= enc_bin(r.data)) by {
        assert forall|i: int| 0 <= i < enc_bin(r.data).len() implies s.subrange(
            p + 79,
            s.len() as int,
        )[i] == enc_bin(r.data)[i] by {
            assert(s.subrange(p + 79, s.len() as int)[i] == s[p + (79 + i)]);
            assert(rest[79 + i] == enc_bin(r.data)[i]);
        }
    }
    lemma_bin_tail_round(s, p + 79, r.data);
    lemma_u128_be_round(r.id);
    lemma_u64_be_round(u64_of_i64(r.created_at));
    lemma_u64_be_round(u64_of_i64(r.published_at));
    lemma_i64_round(r.created_at);
    lemma_i64_round(r.published_at);
    assert(dec_saved_rest(s, p, r.command) == Some(r));
}

/// An encoded request decodes to the request it encoded: every frame a
/// well-formed client sends is read back as sent.
#[verifier::rlimit(60)]
pub proof fn lemma_req_round(r: ReqModel)
    requires
        r.data.len() < 0x1_0000_0000,
    ensures
        dec_req(enc_req(r)) == Some(r),
{
    let s = enc_req(r);
    let head = seq![0x82u8] + key_command() + enc_command(r.command);
    let rest = key_data() + enc_bin(r.data);
    let cl = enc_command(r.command).len() as int;
    let p = 9 + cl;
    assert(head.len() == p);
    assert(s =~= head + rest);
    assert forall|j: int| 0 <= j < head.len() implies s[j] == head[j] by {}
    assert forall|j: int| 0 <= j < rest.len() implies s[p + j] == rest[j] by {}
    assert(s.len() == p + 5 + enc_bin(r.data).len());
    assert(s[0] == 0x82);
    assert(s.subrange(1, 9) =~= key_command()) by {
        assert forall|i: int| 0 <= i < 8 implies s.subrange(1, 9)[i] == key_command()[i] by {
            assert(s.subrange(1, 9)[i] == s[1 + i]);
            assert(head[1 + i] == key_command()[i]);
        }
    }
    assert(s.subrange(9, 9 + cl) =~= enc_command(r.command)) by {
        assert forall|i: int| 0 <= i < cl implies s.subrange(9, 9 + cl)[i] == enc_command(
            r.command,
        )[i] by {
            assert(s.subrange(9, 9 + cl)[i] == s[9 + i]);
            assert(head[9 + i] == enc_command(r.command)[i]);
        }
    }
    match r.command {
        Command::Add => {
            assert(dec_command_at(s, 9) == Some((Command::Add, 13int)));
        },
        Command::Take => {
            assert(s.len() >= 14);
            assert(s.subrange(9, 13) != enc_command(Command::Add)) by {
                assert(s.subrange(9, 13)[0] == s[9]);
                assert(s[9] == 0xa4);
                assert(enc_command(Command::Add)[0] == 0xa3);
            }
            assert(dec_command_at(s, 9) == Some((Command::Take, 14int)));
        },
    }
    assert(s.subrange(p, p + 5) =~= key_data()) by {
        assert forall|i: int| 0 <= i < 5 implies s.subrange(p, p + 5)[i] == key_data()[i] by {
            assert(s.subrange(p, p + 5)[i] == s[p + i]);
            assert(rest[i] == key_data()[i]);
        }
    }
    assert(s.subrange(p + 5, s.len() as int) =~= enc_bin(r.data)) by {
        assert forall|i: int| 0 <= i < enc_bin(r.data).len() implies s.subrange(
            p + 5,
            s.len() as int,
        )[i] == enc_bin(r.data)[i] by {
            assert(s.subrange(p + 5, s.len() as int)[i] == s[p + (5 + i)]);
            assert(rest[5 + i] == enc_bin(r.data)[i]);
        }
    }
    lemma_bin_tail_round(s, p + 5, r.data);
    assert(dec_req(s) == Some(r));
}

/// An encoded saved record decodes to the record it encoded.
#[verifier::rlimit(60)]
pub proof fn lemma_saved_round(r: SavedReqModel)
    requires
        crate::model::encodable(r),
    ensures
        dec_saved(enc_saved(r)) == Some(r),
{
    let s = enc_saved(r);
    let head = seq![0x86u8] + key_command() + enc_command(r.command);
    let rest = enc_saved_rest(r);
    let cl = enc_command(r.command).len() as int;
    let p = 9 + cl;
    assert(head.len() == p);
    assert(s == head + rest);
    assert forall|j: int| 0 <= j < head.len() implies s[j] == head[j] by {}
    assert(s.len() == p + rest.len());
    assert(s[0] == 0x86);
    assert(s.subrange(1, 9) =~= key_command()) by {
        assert forall|i: int| 0 <= i < 8 implies s.subrange(1, 9)[i] == key_command()[i] by {
            assert(s.subrange(1, 9)[i] == s[1 + i]);
            assert(head[1 + i] == key_command()[i]);
        }
    }
    assert(s.subrange(9, 9 + cl) =~= enc_command(r.command)) by {
        assert forall|i: int| 0 <= i < cl implies s.subrange(9, 9 + cl)[i] == enc_command(
            r.command,
        )[i] by {
            assert(s.subrange(9, 9 + cl)[i] == s[9 + i]);
            assert(head[9 + i] == enc_command(r.command)[i]);
        }
    }
    match r.command {
        Command::Add => {
            assert(dec_command_at(s, 9) == Some((Command::Add, 13int)));
        },
        Command::Take => {
            assert(s.len() >= 14);
            assert(s.subrange(9, 13) != enc_command(Command::Add)) by {
                assert(s.subrange(9, 13)[0] == s[9]);
                assert(s[9] == 0xa4);
                assert(enc_command(Command::Add)[0] == 0xa3);
            }
            assert(dec_command_at(s, 9) == Some((Command::Take, 14int)));
        },
    }
    assert(s.subrange(p, s.len() as int) =~= rest) by {
        assert forall|i: int| 0 <= i < rest.len() implies s.subrange(p, s.len() as int)[i]
            == rest[i] by {
            assert(s.subrange(p, s.len() as int)[i] == s[p + i]);
        }
    }
    lemma_saved_rest_round(s, p, r);
}

// ---------------------------------------------------------------------
// The executable decoder.
// ---------------------------------------------------------------------

/// Compares the bytes at `at` with a pattern.
fn match_at(s: &Vec<u8>, at: usize, pat: &Vec<u8>) -> (b: bool)
    requires
        at + pat@.len() <= s@.len(),
    ensures
        b == (s@.subrange(at as int, at as int + pat@.len()) == pat@),
{
    let slen = s.len();
    let n = pat.len();
    for i in 0..n
        invariant
            n == pat@.len(),
            slen == s@.len(),
            at + n <= s@.len(),
            forall|j: int| 0 <= j < i ==> s@[at + j] == pat@[j],
    {
        if s[at + i] != pat[i] {
            proof {
                assert(s@.subrange(at as int, at as int + pat@.len())[i as int] != pat@[i as int]);
            }
            return false;
        }
    }
    proof {
        assert(s@.subrange(at as int, at as int + pat@.len()) =~= pat@);
    }
    true
}

/// Copies the bytes from `from` to the end of `s` into a fresh vector.
fn tail_bytes(s: &Vec<u8>, from: usize) -> (out: Vec<u8>)
    requires
        from <= s@.len(),
    ensures
        out@ == s@.subrange(from as int, s@.len() as int),
{
    let mut out: Vec<u8> = Vec::new();
    let n = s.len();
    for i in from..n
        invariant
            from <= i <= n,
            n == s@.len(),
            out@ == s@.subrange(from as int, i as int),
    {
        let b = s[i];
        out.push(b);
        proof {
            assert(s@.subrange(from as int, i as int + 1) =~= s@.subrange(
                from as int,
                i as int,
            ).push(b));
        }
    }
    out
}

/// Reads the byte-sequence value that must end the input, enforcing the
/// shortest-header rule.
fn parse_bin_tail(s: &Vec<u8>, q: usize) -> (r: Option<Vec<u8>>)
    requires
        q <= s@.len(),
    ensures
        match r {
            Some(d) => dec_bin_tail(s@, q as int) == Some(d@),
            None => dec_bin_tail(s@, q as int) is None,
        },
{
    let len = s.len();
    if len - q >= 2 && s[q] == 0xc4 {
        let n = s[q + 1] as usize;
        if len - (q + 2) == n {
            Some(tail_bytes(s, q + 2))
        } else {
            None
        }
    } else if len - q >= 3 && s[q] == 0xc5 {
        let n = (s[q + 1] as usize) * 0x100 + (s[q + 2] as usize);
        if n >= 0x100 && len - (q + 3) == n {
            Some(tail_bytes(s, q + 3))
        } else {
            None
        }
    } else if len - q >= 5 && s[q] == 0xc6 {
        let n = (s[q + 1] as usize) * 0x100_0000 + (s[q + 2] as usize) * 0x1_0000 + (s[q + 3]
            as usize) * 0x100 + (s[q + 4] as usize);
        if n >= 0x1_0000 && len - (q + 5) == n {
            Some(tail_bytes(s, q + 5))
        } else {
            None
        }
    } else {
        None
    }
}

/// Reads the command value at position 9 of a frame.
fn parse_command_at9(s: &Vec<u8>) -> (r: Option<(Command, usize)>)
    requires
        9 <= s@.len(),
    ensures
        match r {
            Some(cp) => dec_command_at(s@, 9) == Some((cp.0, cp.1 as int)),
            None => dec_command_at(s@, 9) is None,
        },
{
    let len = s.len();
    let add = enc_command_vec(Command::Add);
    let take = enc_command_vec(Command::Take);
    if 13 <= len && match_at(s, 9, &add) {
        Some((Command::Add, 13))
    } else if 14 <= len && match_at(s, 9, &take) {
        proof {
            assert(s@.subrange(9, 13) != enc_command(Command::Add)) by {
                if s@.subrange(9, 13) == enc_command(Command::Add) {
                    assert(s@.subrange(9, 13)[0] == s@.subrange(9, 14)[0]);
                    assert(enc_command(Command::Add)[0] != enc_command(Command::Take)[0]);
                }
            }
        }
        Some((Command::Take, 14))
    } else {
        None
    }
}

/// Reads the sixteen identifier bytes starting at `at`.
fn parse_u128_at(s: &Vec<u8>, at: usize) -> (x: u128)
    requires
        at + 16 <= s@.len(),
    ensures
        x == u128_of_be(s@.subrange(at as int, at as int + 16)),
{
    let slen = s.len();
    assert(at + 16 <= slen);
    let x: u128 = ((s[at] as u128) << 120u128) | ((s[at + 1] as u128) << 112u128) | ((s[at + 2]
        as u128) << 104u128) | ((s[at + 3] as u128) << 96u128) | ((s[at + 4] as u128) << 88u128)
        | ((s[at + 5] as u128) << 80u128) | ((s[at + 6] as u128) << 72u128) | ((s[at + 7] as u128)
        << 64u128) | ((s[at + 8] as u128) << 56u128) | ((s[at + 9] as u128) << 48u128) | ((s[at
        + 10] as u128) << 40u128) | ((s[at + 11] as u128) << 32u128) | ((s[at + 12] as u128)
        << 24u128) | ((s[at + 13] as u128) << 16u128) | ((s[at + 14] as u128) << 8u128) | (s[at
        + 15] as u128);
    proof {
        let b = s@.subrange(at as int, at as int + 16);
        assert forall|j: int| 0 <= j < 16 implies b[j] == s@[at + j] by {}
    }
    x
}

/// Reads the eight bytes of an integer value starting at `at`, as the
/// signed value they carry.
fn parse_i64_at(s: &Vec<u8>, at: usize) -> (x: i64)
    requires
        at + 8 <= s@.len(),
    ensures
        x == i64_of_u64(u64_of_be(s@.subrange(at as int, at as int + 8))),
{
    let slen = s.len();
    assert(at + 8 <= slen);
    let img: u64 = ((s[at] as u64) << 56u64) | ((s[at + 1] as u64) << 48u64) | ((s[at + 2] as u64)
        << 40u64) | ((s[at + 3] as u64) << 32u64) | ((s[at + 4] as u64) << 24u64) | ((s[at + 5]
        as u64) << 16u64) | ((s[at + 6] as u64) << 8u64) | (s[at + 7] as u64);
    proof {
        let b = s@.subrange(at as int, at as int + 8);
        assert forall|j: int| 0 <= j < 8 implies b[j] == s@[at + j] by {}
    }
    i64_reading(img)
}

/// Decodes an inbound request frame; `None` is the protocol error that
/// closes the session.
pub fn decode_req(s: &Vec<u8>) -> (r: Option<Req>)
    ensures
        match r {
            Some(req) => dec_req(s@) == Some(req@),
            None => dec_req(s@) is None,
        },
{
    let len = s.len();
    if len < 9 {
        return None;
    }
    if s[0] != 0x82 {
        return None;
    }
    let kc = key_command_vec();
    if !match_at(s, 1, &kc) {
        return None;
    }
    let (cmd, p) = match parse_command_at9(s) {
        Some(cp) => cp,
        None => {
            return None;
        },
    };
    if p + 5 > len {
        return None;
    }
    let kd = key_data_vec();
    if !match_at(s, p, &kd) {
        return None;
    }
    match parse_bin_tail(s, p + 5) {
        Some(data) => Some(Req { command: cmd, data }),
        None => None,
    }
}

/// Decodes a stored or framed saved record; `None` is the fatal
/// repository error.
pub fn decode_saved_req(s: &Vec<u8>) -> (r: Option<SavedReq>)
    ensures
        match r {
            Some(rec) => dec_saved(s@) == Some(rec@),
            None => dec_saved(s@) is None,
        },
{
    let len = s.len();
    if len < 9 {
        return None;
    }
    if s[0] != 0x86 {
        return None;
    }
    let kc = key_command_vec();
    if !match_at(s, 1, &kc) {
        return None;
    }
    let (cmd, p) = match parse_command_at9(s) {
        Some(cp) => cp,
        None => {
            return None;
        },
    };
    if p + 79 > len {
        return None;
    }
    let ki = key_id_vec();
    if !match_at(s, p, &ki) {
        return None;
    }
    if s[p + 3] != 0xc4 || s[p + 4] != 0x10 {
        return None;
    }
    let kca = key_created_at_vec();
    if !match_at(s, p + 21, &kca) {
        return None;
    }
    if s[p + 32] != 0xd3 {
        return None;
    }
    let kp = key_published_vec();
    if !match_at(s, p + 41, &kp) {
        return None;
    }
    if s[p + 51] != 0xc2 && s[p + 51] != 0xc3 {
        return None;
    }
    let kpa = key_published_at_vec();
    if !match_at(s, p + 52, &kpa) {
        return None;
    }
    if s[p + 65] != 0xd3 {
        return None;
    }
    let kd = key_data_vec();
    if !match_at(s, p + 74, &kd) {
        return None;
    }
    let id = parse_u128_at(s, p + 5);
    let created_at = parse_i64_at(s, p + 33);
    let published = s[p + 51] == 0xc3;
    let published_at = parse_i64_at(s, p + 66);
    match parse_bin_tail(s, p + 79) {
        Some(data) => Some(
            SavedReq { command: cmd, id, created_at, published, published_at, data },
        ),
        None => None,
    }
}

} // verus!
