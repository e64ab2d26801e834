//! The framing codec.
//!
//! Every key and value is written as a length-prefixed byte string: a 4-byte
//! big-endian length header followed by exactly that many payload bytes. A
//! record is a framed key immediately followed by a framed value, with no
//! separator or terminator. The codec is byte-exact: re-encoding a decoded
//! entry reproduces the same bytes.

use vstd::prelude::*;

verus! {

/// The 4-byte big-endian encoding of a 32-bit length.
pub open spec fn be_bytes(x: u32) -> Seq<u8> {
    seq![
        ((x >> 24) & 0xff) as u8,
        ((x >> 16) & 0xff) as u8,
        ((x >> 8) & 0xff) as u8,
        (x & 0xff) as u8,
    ]
}

/// The 32-bit length read big-endian from the 4 bytes of `data` at `pos`.
pub open spec fn be_val_at(data: Seq<u8>, pos: int) -> u32
    recommends
        0 <= pos,
        pos + 4 <= data.len(),
{
    ((data[pos] as u32) << 24) | ((data[pos + 1] as u32) << 16) | ((data[pos + 2] as u32) << 8) | (
    data[pos + 3] as u32)
}

/// A framed byte string: 4-byte big-endian length, then the payload.
pub open spec fn frame(payload: Seq<u8>) -> Seq<u8>
    recommends
        payload.len() <= u32::MAX,
{
    be_bytes(payload.len() as u32) + payload
}

/// A whole record: framed key followed by framed value.
pub open spec fn entry_bytes(key: Seq<u8>, value: Seq<u8>) -> Seq<u8> {
    frame(key) + frame(value)
}

/// Decode the frame starting at `pos`: the payload and the position just
/// after it, or `None` if the stream ends inside the header or the payload.
pub open spec fn parse_frame_at(data: Seq<u8>, pos: int) -> Option<(Seq<u8>, int)> {
    if 0 <= pos && pos + 4 <= data.len() {
        let n = be_val_at(data, pos) as int;
        if pos + 4 + n <= data.len() {
            Some((data.subrange(pos + 4, pos + 4 + n), pos + 4 + n))
        } else {
            None
        }
    } else {
        None
    }
}

/// Reading back the four bytes of `be_bytes(x)` yields `x`.
proof fn lemma_be_val_of_be_bytes(data: Seq<u8>, pos: int, x: u32)
    requires
        0 <= pos,
        pos + 4 <= data.len(),
        data[pos] == be_bytes(x)[0],
        data[pos + 1] == be_bytes(x)[1],
        data[pos + 2] == be_bytes(x)[2],
        data[pos + 3] == be_bytes(x)[3],
    ensures
        be_val_at(data, pos) == x,
{
    assert((((((x >> 24) & 0xff) as u8) as u32) << 24) | (((((x >> 16) & 0xff) as u8) as u32)
        << 16) | (((((x >> 8) & 0xff) as u8) as u32) << 8) | (((x & 0xff) as u8) as u32) == x)
        by (bit_vector);
}

/// A frame laid down inside a larger stream decodes to its own payload.
pub proof fn lemma_parse_frame_of_frame(data: Seq<u8>, pos: int, payload: Seq<u8>)
    requires
        payload.len() <= u32::MAX,
        0 <= pos,
        pos + 4 + payload.len() <= data.len(),
        data.subrange(pos, pos + 4 + payload.len()) == frame(payload),
    ensures
        parse_frame_at(data, pos) == Some((payload, pos + 4 + payload.len())),
{
    let x = payload.len() as u32;
    let sub = data.subrange(pos, pos + 4 + payload.len());
    assert(frame(payload).len() == 4 + payload.len());
    assert forall|j: int| 0 <= j < 4 implies data[pos + j] == be_bytes(x)[j] by {
        assert(sub[j] == data[pos + j]);
        assert(frame(payload)[j] == be_bytes(x)[j]);
    }
    lemma_be_val_of_be_bytes(data, pos, x);
    assert(data.subrange(pos + 4, pos + 4 + payload.len()) =~= payload) by {
        assert forall|j: int| 0 <= j < payload.len() implies #[trigger] data.subrange(
            pos + 4,
            pos + 4 + payload.len(),
        )[j] == payload[j] by {
            assert(sub[4 + j] == data[pos + 4 + j]);
            assert(frame(payload)[4 + j] == payload[j]);
        }
    }
}

/// Appending bytes after a frame does not change how the frame decodes.
pub proof fn lemma_parse_frame_extend(data: Seq<u8>, ext: Seq<u8>, pos: int)
    requires
        parse_frame_at(data, pos) is Some,
    ensures
        parse_frame_at(data + ext, pos) == parse_frame_at(data, pos),
{
    let whole = data + ext;
    assert(be_val_at(whole, pos) == be_val_at(data, pos));
    let n = be_val_at(data, pos) as int;
    assert(whole.subrange(pos + 4, pos + 4 + n) =~= data.subrange(pos + 4, pos + 4 + n));
}

/// Framing round-trip: encoding any byte string that fits in the length
/// header and then decoding it yields the same byte string.
pub proof fn lemma_frame_round_trip(payload: Seq<u8>)
    requires
        payload.len() <= u32::MAX,
    ensures
        parse_frame_at(frame(payload), 0) == Some((payload, 4 + payload.len() as int)),
{
    assert(frame(payload).subrange(0, 4 + payload.len() as int) =~= frame(payload));
    lemma_parse_frame_of_frame(frame(payload), 0, payload);
}

/// Append the 4-byte big-endian encoding of `x` to `out`.
fn push_u32_be(out: &mut Vec<u8>, x: u32)
    ensures
        final(out)@ == old(out)@ + be_bytes(x),
{
    proof {
        assert((x >> 24) & 0xff < 256 && (x >> 16) & 0xff < 256 && (x >> 8) & 0xff < 256 && x & 0xff
            < 256) by (bit_vector);
    }
    out.push(((x >> 24) & 0xff) as u8);
    out.push(((x >> 16) & 0xff) as u8);
    out.push(((x >> 8) & 0xff) as u8);
    out.push((x & 0xff) as u8);
    proof {
        assert(out@ =~= old(out)@ + be_bytes(x));
    }
}

/// Append the framed record `[len(key)][key][len(value)][value]` to `out`.
pub fn write_entry(out: &mut Vec<u8>, key: &[u8], value: &[u8])
    requires
        key@.len() <= u32::MAX,
        value@.len() <= u32::MAX,
    ensures
        final(out)@ == old(out)@ + entry_bytes(key@, value@),
{
    push_u32_be(out, key.len() as u32);
    let mut k = vstd::slice::slice_to_vec(key);
    out.append(&mut k);
    push_u32_be(out, value.len() as u32);
    let mut v = vstd::slice::slice_to_vec(value);
    out.append(&mut v);
    proof {
        assert(out@ =~= old(out)@ + entry_bytes(key@, value@));
    }
}

/// Read a bare 4-byte big-endian length at `pos`; `None` when fewer than
/// 4 bytes remain.
pub fn read_u32(data: &[u8], pos: usize) -> (r: Option<(u32, usize)>)
    ensures
        match r {
            Some((x, end)) => pos + 4 <= data@.len() && end == pos + 4 && x == be_val_at(
                data@,
                pos as int,
            ),
            None => pos + 4 > data@.len(),
        },
{
    if pos >= data.len() || data.len() - pos < 4 {
        return None;
    }
    let b0 = *vstd::slice::slice_index_get(data, pos);
    let b1 = *vstd::slice::slice_index_get(data, pos + 1);
    let b2 = *vstd::slice::slice_index_get(data, pos + 2);
    let b3 = *vstd::slice::slice_index_get(data, pos + 3);
    let x = ((b0 as u32) << 24) | ((b1 as u32) << 16) | ((b2 as u32) << 8) | (b3 as u32);
    Some((x, pos + 4))
}

/// Read the length-prefixed payload at `pos` into `buf`, replacing its
/// contents, and return the position just after it. On `None` the stream
/// ended inside the header or the payload and `buf` is untouched.
pub fn read_entry(data: &[u8], pos: usize, buf: &mut Vec<u8>) -> (r: Option<usize>)
    ensures
        match r {
            Some(end) => parse_frame_at(data@, pos as int) == Some((final(buf)@, end as int)),
            None => parse_frame_at(data@, pos as int) is None && final(buf)@ == old(buf)@,
        },
{
    match read_u32(data, pos) {
        None => None,
        Some((n, start)) => {
            let n = n as usize;
            if data.len() - start < n {
                None
            } else {
                buf.clear();
                let piece = vstd::slice::slice_subrange(data, start, start + n);
                let mut pv = vstd::slice::slice_to_vec(piece);
                buf.append(&mut pv);
                Some(start + n)
            }
        },
    }
}

/// Read the length-prefixed payload at `pos` into a fresh vector.
pub fn read_entry_to_vec(data: &[u8], pos: usize) -> (r: Option<(Vec<u8>, usize)>)
    ensures
        match r {
            Some((v, end)) => parse_frame_at(data@, pos as int) == Some((v@, end as int)),
            None => parse_frame_at(data@, pos as int) is None,
        },
{
    let mut buf = Vec::new();
    match read_entry(data, pos, &mut buf) {
        Some(end) => Some((buf, end)),
        None => None,
    }
}

/// Step over the length-prefixed payload at `pos` without retaining it.
pub fn skip_entry(data: &[u8], pos: usize) -> (r: Option<usize>)
    ensures
        match r {
            Some(end) => parse_frame_at(data@, pos as int) matches Some(pe) && pe.1 == end as int,
            None => parse_frame_at(data@, pos as int) is None,
        },
{
    match read_u32(data, pos) {
        None => None,
        Some((n, start)) => {
            let n = n as usize;
            if data.len() - start < n {
                None
            } else {
                Some(start + n)
            }
        },
    }
}

} // verus!
