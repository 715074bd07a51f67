//! Byte framing of account records for the overflow tier.
//!
//! An overflow entry is the frame of a record, LZ4-compressed. The frame is
//! the owner key, balance and rent epoch little-endian, one executable byte
//! (strictly 0 or 1), then the data blob. Framing and parsing round-trip
//! exactly.

use vstd::prelude::*;
use vstd::array::ArrayAdditionalExecFns;
use crate::account::{AccountKey, AccountRecord, RecordV, KEY_LEN};
use crate::codec::{compress, decompress, lz4_inflate};

verus! {

/// Bytes of the fixed-size frame header: owner, balance, rent epoch,
/// executable flag.
pub const FRAME_HEADER_LEN: usize = 49;

/// The eight little-endian bytes of a 64-bit integer.
pub open spec fn u64_le(x: u64) -> Seq<u8> {
    seq![
        (x & 0xff) as u8,
        ((x >> 8) & 0xff) as u8,
        ((x >> 16) & 0xff) as u8,
        ((x >> 24) & 0xff) as u8,
        ((x >> 32) & 0xff) as u8,
        ((x >> 40) & 0xff) as u8,
        ((x >> 48) & 0xff) as u8,
        ((x >> 56) & 0xff) as u8,
    ]
}

/// The 64-bit integer read from eight little-endian bytes.
pub open spec fn le_u64(b: Seq<u8>) -> u64
    recommends
        b.len() == 8,
{
    ((b[0] as u64) | ((b[1] as u64) << 8) | ((b[2] as u64) << 16) | ((b[3] as u64) << 24) | ((
    b[4] as u64) << 32) | ((b[5] as u64) << 40) | ((b[6] as u64) << 48) | ((b[7] as u64) << 56))
}

/// Little-endian encoding of a 64-bit integer reads back exactly.
pub proof fn lemma_le_roundtrip(x: u64)
    ensures
        le_u64(u64_le(x)) == x,
{
    assert((((x & 0xff) as u8) as u64) | ((((x >> 8) & 0xff) as u8) as u64) << 8 | ((((x >> 16)
        & 0xff) as u8) as u64) << 16 | ((((x >> 24) & 0xff) as u8) as u64) << 24 | ((((x >> 32)
        & 0xff) as u8) as u64) << 32 | ((((x >> 40) & 0xff) as u8) as u64) << 40 | ((((x >> 48)
        & 0xff) as u8) as u64) << 48 | ((((x >> 56) & 0xff) as u8) as u64) << 56 == x)
        by (bit_vector);
}

/// The frame of a record value.
pub open spec fn frame_spec(v: RecordV) -> Seq<u8> {
    v.owner + u64_le(v.balance) + u64_le(v.rent_epoch) + seq![
        if v.executable {
            1u8
        } else {
            0u8
        },
    ] + v.data
}

/// Parse a frame back into a record value; `None` on anything malformed.
pub open spec fn parse_frame_spec(b: Seq<u8>) -> Option<RecordV> {
    if b.len() < FRAME_HEADER_LEN {
        None
    } else if b[48] != 0 && b[48] != 1 {
        None
    } else {
        Some(
            RecordV {
                owner: b.subrange(0, 32),
                balance: le_u64(b.subrange(32, 40)),
                data: b.subrange(FRAME_HEADER_LEN as int, b.len() as int),
                executable: b[48] == 1,
                rent_epoch: le_u64(b.subrange(40, 48)),
            },
        )
    }
}

/// Parsing the frame of a record gives the record back, field for field.
pub proof fn lemma_frame_roundtrip(v: RecordV)
    requires
        v.owner.len() == KEY_LEN,
    ensures
        parse_frame_spec(frame_spec(v)) == Some(v),
{
    let b = frame_spec(v);
    assert(b.len() == 49 + v.data.len());
    assert(b[48] == if v.executable {
        1u8
    } else {
        0u8
    });
    assert(b.subrange(0, 32) =~= v.owner);
    assert(b.subrange(32, 40) =~= u64_le(v.balance));
    assert(b.subrange(40, 48) =~= u64_le(v.rent_epoch));
    assert(b.subrange(49, b.len() as int) =~= v.data);
    lemma_le_roundtrip(v.balance);
    lemma_le_roundtrip(v.rent_epoch);
    assert(parse_frame_spec(b)->Some_0 =~= v);
}

/// Append the eight little-endian bytes of `x`.
fn push_u64_le(out: &mut Vec<u8>, x: u64)
    ensures
        final(out)@ == old(out)@ + u64_le(x),
{
    let ghost base = out@;
    out.push((x & 0xff) as u8);
    out.push(((x >> 8) & 0xff) as u8);
    out.push(((x >> 16) & 0xff) as u8);
    out.push(((x >> 24) & 0xff) as u8);
    out.push(((x >> 32) & 0xff) as u8);
    out.push(((x >> 40) & 0xff) as u8);
    out.push(((x >> 48) & 0xff) as u8);
    out.push(((x >> 56) & 0xff) as u8);
    proof {
        assert(out@ =~= base + u64_le(x));
    }
}

/// Frame a record as bytes.
pub fn frame_record(rec: &AccountRecord) -> (r: Vec<u8>)
    ensures
        r@ == frame_spec(rec@),
{
    let mut out: Vec<u8> = Vec::new();
    let mut i: usize = 0;
    while i < KEY_LEN
        invariant
            i <= KEY_LEN,
            out@ == rec.owner@.subrange(0, i as int),
        decreases KEY_LEN - i,
    {
        out.push(rec.owner.byte_at(i));
        proof {
            assert(out@ =~= rec.owner@.subrange(0, i + 1));
        }
        i += 1;
    }
    proof {
        assert(out@ =~= rec.owner@);
    }
    push_u64_le(&mut out, rec.balance);
    push_u64_le(&mut out, rec.rent_epoch);
    out.push(if rec.executable { 1u8 } else { 0u8 });
    let mut j: usize = 0;
    let ghost head = out@;
    while j < rec.data.len()
        invariant
            j <= rec.data@.len(),
            out@ == head + rec.data@.subrange(0, j as int),
        decreases rec.data@.len() - j,
    {
        out.push(rec.data[j]);
        proof {
            assert(out@ =~= head + rec.data@.subrange(0, j + 1));
        }
        j += 1;
    }
    proof {
        assert(rec.data@.subrange(0, rec.data@.len() as int) =~= rec.data@);
        assert(out@ =~= frame_spec(rec@));
    }
    out
}

/// Read the 64-bit little-endian integer at `start`.
fn read_u64_le(b: &Vec<u8>, start: usize) -> (r: u64)
    requires
        start + 8 <= b@.len(),
    ensures
        r == le_u64(b@.subrange(start as int, start + 8)),
{
    let n = b.len();
    assert(start + 8 <= n);
    let r = (b[start] as u64) | ((b[start + 1] as u64) << 8u64) | ((b[start + 2] as u64)
        << 16u64) | ((b[start + 3] as u64) << 24u64) | ((b[start + 4] as u64) << 32u64) | ((b[
        start + 5] as u64) << 40u64) | ((b[start + 6] as u64) << 48u64) | ((b[start + 7] as u64)
        << 56u64);
    proof {
        let s = b@.subrange(start as int, start + 8);
        assert(s[0] == b@[start as int] && s[1] == b@[start + 1] && s[2] == b@[start + 2] && s[3]
            == b@[start + 3] && s[4] == b@[start + 4] && s[5] == b@[start + 5] && s[6] == b@[
            start + 6] && s[7] == b@[start + 7]);
    }
    r
}

/// Parse framed bytes back into a record.
pub fn parse_record(b: &Vec<u8>) -> (r: Option<AccountRecord>)
    ensures
        match r {
            Some(rec) => parse_frame_spec(b@) == Some(rec@),
            None => parse_frame_spec(b@) is None,
        },
{
    if b.len() < FRAME_HEADER_LEN {
        return None;
    }
    let ex = b[48];
    if ex != 0 && ex != 1 {
        return None;
    }
    let mut ob = [0u8; 32];
    let mut i: usize = 0;
    while i < KEY_LEN
        invariant
            b@.len() >= FRAME_HEADER_LEN,
            i <= KEY_LEN,
            forall|j: int| 0 <= j < i ==> ob@[j] == b@[j],
        decreases KEY_LEN - i,
    {
        ob.set(i, b[i]);
        i += 1;
    }
    let owner = AccountKey::new(ob);
    proof {
        assert(ob@ =~= b@.subrange(0, 32));
    }
    let balance = read_u64_le(b, 32);
    let rent_epoch = read_u64_le(b, 40);
    let mut data: Vec<u8> = Vec::new();
    let mut j: usize = FRAME_HEADER_LEN;
    while j < b.len()
        invariant
            b@.len() >= FRAME_HEADER_LEN,
            FRAME_HEADER_LEN <= j <= b@.len(),
            data@ == b@.subrange(FRAME_HEADER_LEN as int, j as int),
        decreases b@.len() - j,
    {
        data.push(b[j]);
        proof {
            assert(data@ =~= b@.subrange(FRAME_HEADER_LEN as int, j + 1));
        }
        j += 1;
    }
    let rec = AccountRecord { owner, balance, data, executable: ex == 1, rent_epoch };
    proof {
        assert(rec@ =~= parse_frame_spec(b@)->Some_0);
    }
    Some(rec)
}

/// Encode a record as an overflow-tier payload: its frame, compressed.
/// `None` only when compression itself fails; such a write is dropped.
pub fn encode_overflow(rec: &AccountRecord) -> (r: Option<Vec<u8>>)
    ensures
        r matches Some(p) ==> lz4_inflate(p@) == Some(frame_spec(rec@)),
{
    let framed = frame_record(rec);
    compress(&framed)
}

/// Decode an overflow-tier payload. Corrupt compression or a malformed frame
/// collapses to `None`: an ordinary miss, never an error.
pub fn decode_overflow(payload: &Vec<u8>) -> (r: Option<AccountRecord>)
    ensures
        match r {
            Some(rec) => lz4_inflate(payload@) matches Some(f) && parse_frame_spec(f) == Some(
                rec@,
            ),
            None => lz4_inflate(payload@) matches Some(f) ==> parse_frame_spec(f) is None,
        },
{
    match decompress(payload) {
        Some(framed) => parse_record(&framed),
        None => None,
    }
}

} // verus!
