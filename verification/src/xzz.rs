//! XZZ / XinZhiZao `.pcb`: a binary container with the "XZZPCB" magic
//! (optionally XOR-obfuscated with the byte at 0x10), an offset table,
//! typed blocks (arcs, line segments, parts, test pads) and a net-name
//! table. Part blocks are DES/ECB-encrypted with a user-supplied 64-bit key
//! (parity-verified, not shipped with the library).
//!
//! Reading happens in two steps around the one piece of floating-point
//! work: `scan` decodes the container into records, arcs included as
//! center/radius/angles; the caller approximates each arc by segments; and
//! `assemble` builds the board from the records and the outline segments.

use vstd::prelude::*;
use std::collections::HashMap;
use vstd::string::StringSliceAdditionalSpecFns;
use des::cipher::{BlockDecrypt, KeyInit};
use crate::cursor::{lossy, utf8_lossy};
use crate::text::{run_at, RawNail};
use crate::model::{BoardModel, BoardFormat, Point, Side, DEFAULT_RADIUS, sat_sub, clamp64};
use crate::parsers::{ParseContext, ParseError, malformed, fails_malformed, board_fits, parsed_ok};
use crate::records::{
    assemble as assemble_records, records_model, part_spec, pin_spec, nail_spec, PartRec, PinRec, PartSpec, PinSpec,
    NailSpec,
};

verus! {

/// Coordinates are stored in ten-thousandths of a mil.
pub const SCALE: u32 = 10_000;

/// The parity bit the key check computes for one key byte: the complement
/// of the XOR of its bits.
pub open spec fn byte_parity(t: u8) -> u8 {
    let t1 = t ^ (t >> 4u8);
    let t2 = t1 ^ (t1 >> 2u8);
    let t3 = t2 ^ (t2 >> 1u8);
    (!t3) & 1u8
}

/// Bytes 0..=6 (from the least significant) of the genuine key have even
/// bit counts, byte 7 an odd one: the parity bit is set for an even count.
pub open spec fn xzz_key_ok(key: u64) -> bool {
    forall|i: int| 0 <= i < 8 ==> #[trigger] byte_parity(((key >> ((i * 8) as u64)) & 0xffu64) as u8)
        == (if i < 7 { 1u8 } else { 0u8 })
}

/// Does the DES key carry the parity fingerprint of the genuine key?
pub fn check_key(key: u64) -> (r: bool)
    ensures
        r == xzz_key_ok(key),
{
    let mut i: u64 = 0;
    while i < 8
        invariant
            i <= 8,
            forall|j: int| 0 <= j < i ==> #[trigger] byte_parity(((key >> ((j * 8) as u64)) & 0xffu64) as u8)
                == (if j < 7 { 1u8 } else { 0u8 }),
        decreases 8 - i,
    {
        let mut t = ((key >> (i * 8)) & 0xffu64) as u8;
        let ghost t0 = t;
        t = t ^ (t >> 4u8);
        t = t ^ (t >> 2u8);
        t = t ^ (t >> 1u8);
        let p = (!t) & 1u8;
        assert(p == byte_parity(t0));
        let want: u8 = if i < 7 { 1 } else { 0 };
        if p != want {
            return false;
        }
        i = i + 1;
    }
    true
}

pub open spec fn magic_at(b: Seq<u8>, k: u8) -> bool {
    &&& b.len() >= 6
    &&& b[0] ^ k == 88u8
    &&& b[1] ^ k == 90u8
    &&& b[2] ^ k == 90u8
    &&& b[3] ^ k == 80u8
    &&& b[4] ^ k == 67u8
    &&& b[5] ^ k == 66u8
}

/// "XZZPCB" at the start, in clear or XORed with the byte at 0x10.
pub open spec fn xzz_signature(b: Seq<u8>) -> bool {
    ||| magic_at(b, 0)
    ||| (b.len() > 0x10 && b[0x10] != 0 && magic_at(b, b[0x10]))
}

fn magic_with(buf: &[u8], k: u8) -> (r: bool)
    requires
        buf@.len() >= 6,
    ensures
        r == magic_at(buf@, k),
{
    buf[0] ^ k == 88u8 && buf[1] ^ k == 90u8 && buf[2] ^ k == 90u8 && buf[3] ^ k == 80u8 && buf[4] ^ k
        == 67u8 && buf[5] ^ k == 66u8
}

pub fn verify(buf: &[u8]) -> (r: bool)
    ensures
        r == xzz_signature(buf@),
{
    if buf.len() < 6 {
        return false;
    }
    assert(0u8 ^ 0u8 == 0u8) by (bit_vector);
    if magic_with(buf, 0) {
        return true;
    }
    if buf.len() > 0x10 && buf[0x10] != 0 {
        return magic_with(buf, buf[0x10]);
    }
    false
}

pub open spec fn le_u32(b: Seq<u8>, k: int) -> u32 {
    (b[k] as int + 256 * (b[k + 1] as int) + 65536 * (b[k + 2] as int) + 16777216 * (b[k + 3] as int)) as u32
}

/// A little-endian `u32` at `pos`.
pub fn rd_u32(buf: &[u8], pos: usize) -> (r: Result<u32, ParseError>)
    ensures
        pos + 4 <= buf@.len() ==> r == Ok::<u32, ParseError>(le_u32(buf@, pos as int)),
        pos + 4 > buf@.len() ==> r matches Err(ParseError::Malformed(_)),
{
    if pos > buf.len() || buf.len() - pos < 4 {
        return Err(malformed("unexpected end of XZZ file"));
    }
    let b0 = buf[pos] as u64;
    let b1 = buf[pos + 1] as u64;
    let b2 = buf[pos + 2] as u64;
    let b3 = buf[pos + 3] as u64;
    let v: u64 = b0 + 256 * b1 + 65536 * b2 + 16777216 * b3;
    Ok(v as u32)
}

/// What DES decryption of one 8-byte block under a key gives.
pub uninterp spec fn des_block_decrypt(key: u64, block: Seq<u8>) -> Seq<u8>;

/// `des::Des::decrypt_block` with the key's big-endian bytes: decrypts one
/// 8-byte block. The result is named by `des_block_decrypt`; a block
/// cipher's output has the length of its block.
#[verifier::external_body]
fn des_decrypt_block(key: u64, block: &[u8]) -> (r: Vec<u8>)
    requires
        block@.len() == 8,
    ensures
        r@ == des_block_decrypt(key, block@),
        r@.len() == 8,
{
    let des = des::Des::new_from_slice(&key.to_be_bytes()).expect("8-byte DES key");
    let mut b = *des::cipher::generic_array::GenericArray::from_slice(block);
    des.decrypt_block(&mut b);
    b.to_vec()
}

/// DES/ECB over the whole 8-byte blocks of `data`; a trailing partial
/// block stays as it is.
pub open spec fn des_ecb(key: u64, data: Seq<u8>) -> Seq<u8>
    decreases data.len(),
{
    if data.len() < 8 {
        data
    } else {
        des_block_decrypt(key, data.take(8)) + des_ecb(key, data.skip(8))
    }
}

fn des_decrypt(data: &[u8], key: u64) -> (r: Vec<u8>)
    ensures
        r@ == des_ecb(key, data@),
{
    let mut out: Vec<u8> = Vec::new();
    let mut p: usize = 0;
    assert(data@.skip(0) =~= data@);
    while data.len() - p >= 8
        invariant
            p <= data@.len(),
            out@ + des_ecb(key, data@.skip(p as int)) == des_ecb(key, data@),
        decreases data@.len() - p,
    {
        let dec = des_decrypt_block(key, &data[p..p + 8]);
        let ghost rest = data@.skip(p as int);
        assert(rest.take(8) =~= data@.subrange(p as int, p + 8));
        assert(rest.skip(8) =~= data@.skip(p + 8));
        let mut j: usize = 0;
        let ghost before = out@;
        while j < 8
            invariant
                j <= 8,
                dec@.len() == 8,
                out@ == before + dec@.take(j as int),
            decreases 8 - j,
        {
            out.push(dec[j]);
            j = j + 1;
            assert(out@ =~= before + dec@.take(j as int));
        }
        assert(dec@.take(8) =~= dec@);
        assert(before + des_ecb(key, rest) == before + (dec@ + des_ecb(key, rest.skip(8))));
        assert(out@ + des_ecb(key, data@.skip(p + 8)) =~= before + (dec@ + des_ecb(key, rest.skip(8))));
        p = p + 8;
    }
    let ghost before = out@;
    let ghost p0 = p as int;
    assert(des_ecb(key, data@.skip(p0)) == data@.skip(p0));
    assert(data@.subrange(p0, p0) =~= Seq::<u8>::empty());
    assert(out@ =~= before + data@.subrange(p0, p as int));
    while p < data.len()
        invariant
            0 <= p0 <= p <= data@.len(),
            out@ == before + data@.subrange(p0, p as int),
            before + data@.skip(p0) == des_ecb(key, data@),
        decreases data@.len() - p,
    {
        out.push(data[p]);
        p = p + 1;
        assert(out@ =~= before + data@.subrange(p0, p as int));
    }
    assert(data@.subrange(p0, p as int) =~= data@.skip(p0));
    out
}

/// An arc of the outline: center, radius and start/end angles in whole
/// degrees, coordinates in mils.
pub struct XzzArc {
    pub x: u32,
    pub y: u32,
    pub r: u32,
    pub start_deg: i64,
    pub end_deg: i64,
}

/// One outline item in file order.
pub enum XzzEdge {
    Segment(Point, Point),
    Arc(XzzArc),
}

/// A pin or test pad: position in mils, number and net-table index.
pub struct XzzPin {
    pub x: u32,
    pub y: u32,
    pub number: String,
    pub net_index: u32,
}

/// A pin or test pad as values.
pub struct XzzPinView {
    pub x: u32,
    pub y: u32,
    pub number: Seq<char>,
    pub net_index: u32,
}

impl View for XzzPin {
    type V = XzzPinView;

    open spec fn view(&self) -> XzzPinView {
        XzzPinView { x: self.x, y: self.y, number: self.number@, net_index: self.net_index }
    }
}

/// The records of an XZZ file.
pub struct XzzScan {
    pub nets: Vec<(u32, String)>,
    pub outline: Vec<XzzEdge>,
    pub parts: Vec<(String, Vec<XzzPin>)>,
    pub test_pads: Vec<XzzPin>,
}

/// The records of an XZZ file as values.
pub struct XzzScanView {
    pub nets: Seq<(u32, Seq<char>)>,
    pub outline: Seq<XzzEdge>,
    pub parts: Seq<(Seq<char>, Seq<XzzPinView>)>,
    pub pads: Seq<XzzPinView>,
}

pub open spec fn pins_view(pins: Seq<XzzPin>) -> Seq<XzzPinView> {
    pins.map_values(|p: XzzPin| p@)
}

pub open spec fn nets_view(nets: Seq<(u32, String)>) -> Seq<(u32, Seq<char>)> {
    nets.map_values(|e: (u32, String)| (e.0, e.1@))
}

pub open spec fn parts_view(parts: Seq<(String, Vec<XzzPin>)>) -> Seq<(Seq<char>, Seq<XzzPinView>)> {
    parts.map_values(|p: (String, Vec<XzzPin>)| (p.0@, pins_view(p.1@)))
}

impl View for XzzScan {
    type V = XzzScanView;

    open spec fn view(&self) -> XzzScanView {
        XzzScanView {
            nets: nets_view(self.nets@),
            outline: self.outline@,
            parts: parts_view(self.parts@),
            pads: pins_view(self.test_pads@),
        }
    }
}

/// Whether a pin sub-block starting at `pos` is complete: its size word,
/// 4 bytes, x, y, 8 bytes, the name's length word, the name, 32 bytes and
/// the net index all lie inside the data.
pub open spec fn pin_fits(b: Seq<u8>, pos: int) -> bool {
    &&& pos + 28 <= b.len()
    &&& pos + 64 + le_u32(b, pos + 24) <= b.len()
}

/// The pin sub-block at `pos`, coordinates in mils.
pub open spec fn pin_at(b: Seq<u8>, pos: int) -> XzzPinView {
    let nl = le_u32(b, pos + 24) as int;
    XzzPinView {
        x: le_u32(b, pos + 8) / SCALE,
        y: le_u32(b, pos + 12) / SCALE,
        number: utf8_lossy(b.subrange(pos + 28, pos + 28 + nl)),
        net_index: le_u32(b, pos + 60 + nl),
    }
}

/// Where reading goes on after the pin sub-block at `pos`: the end its
/// size word gives, at most the end of the data.
pub open spec fn pin_end(b: Seq<u8>, pos: int) -> int {
    let e = pos + le_u32(b, pos) + 4;
    if e > b.len() {
        b.len() as int
    } else {
        e
    }
}

fn pin_block(buf: &[u8], pos: usize) -> (r: Result<(XzzPin, usize), ParseError>)
    requires
        pos < buf@.len(),
    ensures
        r is Ok <==> pin_fits(buf@, pos as int),
        r is Err ==> r matches Err(ParseError::Malformed(_)),
        r matches Ok((pin, next)) ==> pin@ == pin_at(buf@, pos as int) && next == pin_end(buf@, pos as int),
{
    let block_size = match rd_u32(buf, pos) {
        Ok(v) => v as usize,
        Err(e) => return Err(e),
    };
    let block_end = if block_size > buf.len() - pos {
        buf.len()
    } else if buf.len() - pos - block_size < 4 {
        buf.len()
    } else {
        pos + block_size + 4
    };
    let mut p = pos;
    if buf.len() - p < 8 {
        return Err(malformed("unexpected end of XZZ file"));
    }
    p = p + 8;
    let x = match rd_u32(buf, p) {
        Ok(v) => v,
        Err(e) => return Err(e),
    };
    p = p + 4;
    let y = match rd_u32(buf, p) {
        Ok(v) => v,
        Err(e) => return Err(e),
    };
    p = p + 4;
    if buf.len() - p < 8 {
        return Err(malformed("unexpected end of XZZ file"));
    }
    p = p + 8;
    let name_len = match rd_u32(buf, p) {
        Ok(v) => v as usize,
        Err(e) => return Err(e),
    };
    p = p + 4;
    if name_len > buf.len() - p {
        return Err(malformed("XZZ pin name out of range"));
    }
    let number = lossy(&buf[p..p + name_len]);
    p = p + name_len;
    if buf.len() - p < 32 {
        return Err(malformed("unexpected end of XZZ file"));
    }
    p = p + 32;
    let net_index = match rd_u32(buf, p) {
        Ok(v) => v,
        Err(e) => return Err(e),
    };
    Ok((XzzPin { x: x / SCALE, y: y / SCALE, number, net_index }, block_end))
}

/// The head of a decrypted part block: past the size word, 18 bytes, a
/// group of the length its word gives, the 0x06 sub-block tag and 31 bytes,
/// the designator's length word and the designator. Its designator and
/// where the sub-blocks start, or `None` when it runs out of the data or
/// the tag is missing.
pub open spec fn part_head(d: Seq<u8>) -> Option<(Seq<char>, int)> {
    if d.len() < 26 {
        None
    } else {
        let q = 26 + le_u32(d, 22) as int;
        if q >= d.len() || d[q] != 6u8 || q + 35 > d.len() {
            None
        } else {
            let nl = le_u32(d, q + 31) as int;
            if q + 35 + nl > d.len() {
                None
            } else {
                Some((utf8_lossy(d.subrange(q + 35, q + 35 + nl)), q + 35 + nl))
            }
        }
    }
}

/// Where the part's sub-blocks end: its size word plus 4, at most the end
/// of the data.
pub open spec fn part_sub_end(d: Seq<u8>) -> int {
    let e = le_u32(d, 0) + 4;
    if e > d.len() {
        d.len() as int
    } else {
        e
    }
}

/// The pins of the sub-blocks from `q` to `end`, after those in `acc`:
/// tag 0x09 is a pin; tags 0x01, 0x05 and 0x06 are skipped by their size
/// word; other tags are single bytes. `None` when a sub-block is cut off.
pub open spec fn sub_walk(d: Seq<u8>, q: int, end: int, acc: Seq<XzzPinView>) -> Option<Seq<XzzPinView>>
    decreases d.len() - q,
{
    if q >= end || end > d.len() {
        Some(acc)
    } else {
        let st = d[q];
        let q1 = q + 1;
        if st == 1u8 || st == 5u8 || st == 6u8 {
            if q1 + 4 > d.len() {
                None
            } else {
                let e = q1 + le_u32(d, q1) + 4;
                sub_walk(d, if e > d.len() { d.len() as int } else { e }, end, acc)
            }
        } else if st == 9u8 {
            if q1 >= d.len() || !pin_fits(d, q1) {
                None
            } else {
                sub_walk(d, pin_end(d, q1), end, acc.push(pin_at(d, q1)))
            }
        } else {
            sub_walk(d, q1, end, acc)
        }
    }
}

/// A decrypted part block: designator and pins.
pub open spec fn part_read(d: Seq<u8>) -> Option<(Seq<char>, Seq<XzzPinView>)> {
    match part_head(d) {
        None => None,
        Some(h) => match sub_walk(d, h.1, part_sub_end(d), Seq::empty()) {
            None => None,
            Some(pins) => Some((h.0, pins)),
        },
    }
}

/// The records of a DES-decrypted part block.
fn part_block(dec: &Vec<u8>) -> (r: Result<(String, Vec<XzzPin>), ParseError>)
    ensures
        r is Ok <==> part_read(dec@) is Some,
        r is Err ==> r matches Err(ParseError::Malformed(_)),
        r matches Ok(p) ==> (p.0@, pins_view(p.1@)) == part_read(dec@)->Some_0,
{
    let buf = dec.as_slice();
    let part_size = match rd_u32(buf, 0) {
        Ok(v) => v as usize,
        Err(e) => return Err(e),
    };
    let mut q: usize = 22;
    let group_len = match rd_u32(buf, q) {
        Ok(v) => v as usize,
        Err(e) => return Err(e),
    };
    if group_len > buf.len() - q - 4 {
        return Err(malformed("XZZ part block: expected 0x06 sub-block (wrong key?)"));
    }
    q = q + 4 + group_len;
    if q >= buf.len() || buf[q] != 0x06u8 {
        return Err(malformed("XZZ part block: expected 0x06 sub-block (wrong key?)"));
    }
    if buf.len() - q < 31 {
        return Err(malformed("unexpected end of XZZ file"));
    }
    q = q + 31;
    let name_len = match rd_u32(buf, q) {
        Ok(v) => v as usize,
        Err(e) => return Err(e),
    };
    q = q + 4;
    if name_len > buf.len() - q {
        return Err(malformed("XZZ part name out of range"));
    }
    let refdes = lossy(&buf[q..q + name_len]);
    q = q + name_len;
    let sub_end = if part_size > buf.len() - 4 {
        buf.len()
    } else {
        part_size + 4
    };
    let ghost head = part_head(buf@);
    assert(head == Some((refdes@, q as int)));
    assert(sub_end == part_sub_end(buf@));
    let mut pins: Vec<XzzPin> = Vec::new();
    assert(pins_view(pins@) =~= Seq::<XzzPinView>::empty());
    while q < sub_end
        invariant
            sub_end <= buf@.len(),
            q <= buf@.len(),
            buf@ == dec@,
            head == part_head(buf@),
            head is Some,
            sub_end == part_sub_end(buf@),
            sub_walk(buf@, head->Some_0.1, sub_end as int, Seq::empty()) == sub_walk(
                buf@,
                q as int,
                sub_end as int,
                pins_view(pins@),
            ),
        decreases buf@.len() - q,
    {
        let ghost q0 = q as int;
        let sub_type = buf[q];
        q = q + 1;
        if sub_type == 0x01u8 || sub_type == 0x05u8 || sub_type == 0x06u8 {
            let sz = match rd_u32(buf, q) {
                Ok(v) => v as usize,
                Err(e) => {
                    assert(sub_walk(buf@, q0, sub_end as int, pins_view(pins@)) is None);
                    return Err(e);
                },
            };
            if sz > buf.len() - q - 4 {
                q = buf.len();
            } else {
                q = q + sz + 4;
            }
        } else if sub_type == 0x09u8 {
            if q >= buf.len() {
                assert(sub_walk(buf@, q0, sub_end as int, pins_view(pins@)) is None);
                return Err(malformed("unexpected end of XZZ file"));
            }
            match pin_block(buf, q) {
                Ok((pin, next)) => {
                    let ghost before = pins@;
                    pins.push(pin);
                    assert(pins_view(pins@) =~= pins_view(before).push(pin@));
                    q = next;
                },
                Err(e) => {
                    assert(sub_walk(buf@, q0, sub_end as int, pins_view(pins@)) is None);
                    return Err(e);
                },
            }
        }
    }
    Ok((refdes, pins))
}

/// The diode-readings marker; the bytes from it on are never obfuscated.
pub open spec fn xzz_marker() -> Seq<u8> {
    "v6v6555v6v6".spec_bytes()
}

/// Does the marker start at `k`?
pub open spec fn marker_at(b: Seq<u8>, k: int) -> bool {
    k + xzz_marker().len() <= b.len() && b.subrange(k, k + xzz_marker().len()) == xzz_marker()
}

/// The first position from `k` on where the marker starts; the length of
/// the data when there is none.
pub open spec fn first_marker(b: Seq<u8>, k: int) -> int
    decreases b.len() - k,
{
    if k >= b.len() || k + xzz_marker().len() > b.len() {
        b.len() as int
    } else if marker_at(b, k) {
        k
    } else {
        first_marker(b, k + 1)
    }
}

proof fn lemma_first_marker_bound(b: Seq<u8>, k: int)
    requires
        0 <= k,
    ensures
        first_marker(b, k) <= b.len(),
    decreases b.len() - k,
{
    if k < b.len() && k + xzz_marker().len() <= b.len() && !marker_at(b, k) {
        lemma_first_marker_bound(b, k + 1);
    }
}

/// The container with its obfuscation removed: when the byte at 0x10 is
/// not zero, every byte before the marker is XORed with it.
pub open spec fn xzz_plain(b: Seq<u8>) -> Seq<u8> {
    if b.len() > 0x10 && b[0x10] != 0 {
        let m = first_marker(b, 0);
        Seq::new(b.len(), |i: int| if i < m { b[i] ^ b[0x10] } else { b[i] })
    } else {
        b
    }
}

/// The net-table entries from `p` on, after those in `acc`: a size word
/// (at least 8, covering itself and the index), the index word, the name.
/// `None` when an entry is too small or runs out of the table.
pub open spec fn net_walk(block: Seq<u8>, p: int, acc: Seq<(u32, Seq<char>)>) -> Option<Seq<(u32, Seq<char>)>>
    decreases block.len() - p,
{
    if p + 8 > block.len() {
        Some(acc)
    } else {
        let es = le_u32(block, p) as int;
        let q = p + 8;
        if es < 8 || q + es - 8 > block.len() {
            None
        } else {
            net_walk(block, q + es - 8, acc.push((le_u32(block, p + 4), utf8_lossy(block.subrange(q, q + es - 8)))))
        }
    }
}

/// Why decoding stopped: a part block with no key at hand, or data that
/// does not hold together.
pub enum XzzStop {
    NoKey,
    Malformed,
}

/// The outline, part and test-pad records read so far.
#[verifier::ext_equal]
pub struct XzzRecords {
    pub outline: Seq<XzzEdge>,
    pub parts: Seq<(Seq<char>, Seq<XzzPinView>)>,
    pub pads: Seq<XzzPinView>,
}

/// The outline item of an arc (type 0x01) or line (type 0x05) block on the
/// outline layer: values after the layer word, in mils.
pub open spec fn edge_of(bt: u8, blk: Seq<u8>) -> XzzEdge {
    if bt == 1u8 {
        XzzEdge::Arc(
            XzzArc {
                x: le_u32(blk, 4) / SCALE,
                y: le_u32(blk, 8) / SCALE,
                r: le_u32(blk, 12) / SCALE,
                start_deg: (le_u32(blk, 16) / SCALE) as i64,
                end_deg: (le_u32(blk, 20) / SCALE) as i64,
            },
        )
    } else {
        XzzEdge::Segment(
            Point { x: ((le_u32(blk, 4) / SCALE) * 1000) as i64, y: ((le_u32(blk, 8) / SCALE) * 1000) as i64 },
            Point { x: ((le_u32(blk, 12) / SCALE) * 1000) as i64, y: ((le_u32(blk, 16) / SCALE) * 1000) as i64 },
        )
    }
}

/// A test-pad block: x, y, the name's length word at 20 and the name at
/// 24, the net index in the last word.
pub open spec fn pad_at(blk: Seq<u8>) -> XzzPinView {
    let nl = le_u32(blk, 20) as int;
    XzzPinView {
        x: le_u32(blk, 4) / SCALE,
        y: le_u32(blk, 8) / SCALE,
        number: utf8_lossy(blk.subrange(24, 24 + nl)),
        net_index: le_u32(blk, blk.len() - 4),
    }
}

/// What a main block of type `bt` adds: arcs and lines on layer 28 go to
/// the outline, part blocks (decrypted with the key) to the parts, test
/// pads to the pads; other types and layers add nothing.
#[verifier::opaque]
pub open spec fn block_apply(acc: XzzRecords, bt: u8, blk: Seq<u8>, key: Option<u64>) -> Result<XzzRecords, XzzStop> {
    if bt == 1u8 || bt == 5u8 {
        if blk.len() < 4 {
            Err(XzzStop::Malformed)
        } else if le_u32(blk, 0) != 28 {
            Ok(acc)
        } else if blk.len() < (if bt == 1u8 { 24int } else { 20int }) {
            Err(XzzStop::Malformed)
        } else {
            Ok(XzzRecords { outline: acc.outline.push(edge_of(bt, blk)), ..acc })
        }
    } else if bt == 7u8 {
        match key {
            None => Err(XzzStop::NoKey),
            Some(k) => match part_read(des_ecb(k, blk)) {
                None => Err(XzzStop::Malformed),
                Some(p) => Ok(XzzRecords { parts: acc.parts.push(p), ..acc }),
            },
        }
    } else if bt == 9u8 {
        if blk.len() < 24 || le_u32(blk, 20) > blk.len() - 24 {
            Err(XzzStop::Malformed)
        } else {
            Ok(XzzRecords { pads: acc.pads.push(pad_at(blk)), ..acc })
        }
    } else {
        Ok(acc)
    }
}

/// The main blocks from `p` to `end`, after the records in `acc`: a type
/// byte, a size word and the block.
#[verifier::opaque]
pub open spec fn main_walk(d: Seq<u8>, p: int, end: int, key: Option<u64>, acc: XzzRecords) -> Result<
    XzzRecords,
    XzzStop,
>
    decreases d.len() - p,
{
    if p >= end || end > d.len() {
        Ok(acc)
    } else if p + 5 > d.len() {
        Err(XzzStop::Malformed)
    } else {
        let q = p + 5;
        let size = le_u32(d, p + 1) as int;
        if q + size > d.len() {
            Err(XzzStop::Malformed)
        } else {
            match block_apply(acc, d[p], d.subrange(q, q + size), key) {
                Err(e) => Err(e),
                Ok(a) => main_walk(d, q + size, end, key, a),
            }
        }
    }
}

/// One step of `main_walk`.
proof fn lemma_main_step(d: Seq<u8>, p: int, end: int, key: Option<u64>, acc: XzzRecords)
    requires
        end <= d.len(),
    ensures
        p >= end ==> main_walk(d, p, end, key, acc) == Ok::<XzzRecords, XzzStop>(acc),
        p < end && p + 5 > d.len() ==> main_walk(d, p, end, key, acc) == Err::<XzzRecords, XzzStop>(
            XzzStop::Malformed,
        ),
        p < end && p + 5 <= d.len() && p + 5 + le_u32(d, p + 1) > d.len() ==> main_walk(d, p, end, key, acc)
            == Err::<XzzRecords, XzzStop>(XzzStop::Malformed),
        p < end && p + 5 <= d.len() && p + 5 + le_u32(d, p + 1) <= d.len() ==> main_walk(d, p, end, key, acc)
            == match block_apply(acc, d[p], d.subrange(p + 5, p + 5 + le_u32(d, p + 1)), key) {
            Err(e) => Err(e),
            Ok(a) => main_walk(d, p + 5 + le_u32(d, p + 1), end, key, a),
        },
{
    reveal(main_walk);
}

/// The records of a container: after de-obfuscation, the words at 0x20
/// and 0x28 (plus 0x20) locate the main blocks and the net table, each
/// behind its size word.
pub open spec fn xzz_decode(bytes: Seq<u8>, key: Option<u64>) -> Result<XzzScanView, XzzStop> {
    let b = xzz_plain(bytes);
    let len = b.len() as int;
    if len < 0x2c {
        Err(XzzStop::Malformed)
    } else {
        let mds = le_u32(b, 0x20) + 0x20;
        let nds = le_u32(b, 0x28) + 0x20;
        if mds + 4 > len || nds + 4 > len {
            Err(XzzStop::Malformed)
        } else {
            let start = nds + 4;
            let ns = le_u32(b, nds) as int;
            let p = mds + 4;
            let ms = le_u32(b, mds) as int;
            if start + ns > len {
                Err(XzzStop::Malformed)
            } else {
                match net_walk(b.subrange(start, start + ns), 0, Seq::empty()) {
                    None => Err(XzzStop::Malformed),
                    Some(nets) => if p + ms > len {
                        Err(XzzStop::Malformed)
                    } else {
                        match main_walk(
                            b,
                            p,
                            p + ms,
                            key,
                            XzzRecords { outline: Seq::empty(), parts: Seq::empty(), pads: Seq::empty() },
                        ) {
                            Err(e) => Err(e),
                            Ok(r) => Ok(XzzScanView { nets, outline: r.outline, parts: r.parts, pads: r.pads }),
                        }
                    },
                }
            }
        }
    }
}

/// `r` is the outcome `d` describes.
pub open spec fn decoded_as(r: Result<XzzScan, ParseError>, d: Result<XzzScanView, XzzStop>) -> bool {
    match d {
        Ok(v) => r is Ok && r->Ok_0@ == v,
        Err(XzzStop::NoKey) => r matches Err(ParseError::KeyMissing(f)) && f@ == "XZZ"@,
        Err(XzzStop::Malformed) => r matches Err(ParseError::Malformed(_)),
    }
}

/// Decodes the container into records: de-obfuscates the bytes before the
/// diode-readings marker, reads the net table and the typed main blocks,
/// decrypting part blocks with the key.
pub fn scan(bytes: &[u8], ctx: &ParseContext) -> (r: Result<XzzScan, ParseError>)
    ensures
        !xzz_signature(bytes@) ==> r matches Err(ParseError::Unrecognized),
        xzz_signature(bytes@) && ctx.xzz_key is Some && !xzz_key_ok(ctx.xzz_key->Some_0) ==> (r matches Err(
            ParseError::KeyMissing(f),
        ) && f@ == "XZZ"@),
        xzz_signature(bytes@) && (ctx.xzz_key is None || xzz_key_ok(ctx.xzz_key->Some_0)) ==> decoded_as(
            r,
            xzz_decode(bytes@, ctx.xzz_key),
        ),
{
    if !verify(bytes) {
        return Err(ParseError::Unrecognized);
    }
    let key: Option<u64> = match ctx.xzz_key {
        Some(k) => {
            if check_key(k) {
                Some(k)
            } else {
                return Err(ParseError::KeyMissing("XZZ"));
            }
        },
        None => None,
    };
    decode_container(vstd::slice::slice_to_vec(bytes), key)
}

/// Where the marker first starts in `buf`; its length when nowhere.
fn marker_pos(buf: &[u8]) -> (m: usize)
    ensures
        m == first_marker(buf@, 0),
{
    let marker = "v6v6555v6v6".as_bytes();
    if marker.len() > buf.len() {
        return buf.len();
    }
    let mut k: usize = 0;
    while k < buf.len() && k <= buf.len() - marker.len()
        invariant
            k <= buf@.len(),
            marker@ == xzz_marker(),
            marker@.len() <= buf@.len(),
            first_marker(buf@, 0) == first_marker(buf@, k as int),
        decreases buf@.len() - k,
    {
        if run_at(buf, marker, k) {
            return k;
        }
        k = k + 1;
    }
    buf.len()
}

/// The net table: (index, name) entries in file order.
fn net_table(block: &[u8]) -> (r: Result<Vec<(u32, String)>, ParseError>)
    ensures
        r is Ok <==> net_walk(block@, 0, Seq::empty()) is Some,
        r is Err ==> r matches Err(ParseError::Malformed(_)),
        r matches Ok(nets) ==> nets_view(nets@) == net_walk(block@, 0, Seq::empty())->Some_0,
{
    let mut nets: Vec<(u32, String)> = Vec::new();
    let mut p: usize = 0;
    assert(nets_view(nets@) =~= Seq::<(u32, Seq<char>)>::empty());
    while block.len() >= 8 && p <= block.len() - 8
        invariant
            p <= block@.len(),
            net_walk(block@, 0, Seq::empty()) == net_walk(block@, p as int, nets_view(nets@)),
        decreases block@.len() - p,
    {
        let entry_size = match rd_u32(block, p) {
            Ok(v) => v as usize,
            Err(e) => return Err(e),
        };
        let index = match rd_u32(block, p + 4) {
            Ok(v) => v,
            Err(e) => return Err(e),
        };
        p = p + 8;
        if entry_size < 8 || entry_size - 8 > block.len() - p {
            return Err(malformed("XZZ net entry out of range"));
        }
        let name = lossy(&block[p..p + (entry_size - 8)]);
        p = p + (entry_size - 8);
        let ghost before = nets@;
        nets.push((index, name));
        assert(nets_view(nets@) =~= nets_view(before).push((index, name@)));
    }
    Ok(nets)
}

/// The records of a container whose signature checked out: the part blocks
/// are decrypted with `key` when there is one.
fn decode_container(bytes: Vec<u8>, key: Option<u64>) -> (r: Result<XzzScan, ParseError>)
    ensures
        decoded_as(r, xzz_decode(bytes@, key)),
{
    let ghost orig = bytes@;
    let mut buf = bytes;
    let mpos = marker_pos(buf.as_slice());
    let len0 = buf.len();
    proof {
        lemma_first_marker_bound(orig, 0);
    }
    if buf.len() > 0x10 && buf[0x10] != 0 {
        let k = buf[0x10];
        let mut i: usize = 0;
        while i < mpos && i < buf.len()
            invariant
                buf@.len() == len0,
                len0 == orig.len(),
                len0 > 0x10,
                k == orig[0x10],
                mpos == first_marker(orig, 0),
                mpos <= len0,
                i <= mpos,
                forall|j: int| 0 <= j < i ==> #[trigger] buf@[j] == orig[j] ^ k,
                forall|j: int| i <= j < len0 ==> #[trigger] buf@[j] == orig[j],
            decreases buf@.len() - i,
        {
            let v = buf[i];
            buf.set(i, v ^ k);
            i = i + 1;
        }
        assert(buf@ =~= xzz_plain(orig));
    }
    assert(buf@ == xzz_plain(orig));
    let data = buf.as_slice();
    let main_start = match rd_u32(data, 0x20) {
        Ok(v) => v as usize,
        Err(e) => return Err(e),
    };
    let net_start = match rd_u32(data, 0x28) {
        Ok(v) => v as usize,
        Err(e) => return Err(e),
    };
    if main_start > data.len() - 0x20 || net_start > data.len() - 0x20 {
        return Err(malformed("unexpected end of XZZ file"));
    }
    let main_data_start = main_start + 0x20;
    let net_data_start = net_start + 0x20;
    let main_size = match rd_u32(data, main_data_start) {
        Ok(v) => v as usize,
        Err(e) => return Err(e),
    };
    let net_size = match rd_u32(data, net_data_start) {
        Ok(v) => v as usize,
        Err(e) => return Err(e),
    };
    let start = net_data_start + 4;
    if net_size > data.len() - start {
        return Err(malformed("XZZ net block out of range"));
    }
    let nets = match net_table(&data[start..start + net_size]) {
        Ok(v) => v,
        Err(e) => return Err(e),
    };
    let p0 = main_data_start + 4;
    if main_size > data.len() - p0 {
        return Err(malformed("XZZ main block out of range"));
    }
    let end = p0 + main_size;
    match main_blocks(data, p0, end, key) {
        Ok((outline, parts, test_pads)) => Ok(XzzScan { nets, outline, parts, test_pads }),
        Err(e) => Err(e),
    }
}

pub open spec fn recs_view(outline: Seq<XzzEdge>, parts: Seq<(String, Vec<XzzPin>)>, pads: Seq<XzzPin>) -> XzzRecords {
    XzzRecords { outline, parts: parts_view(parts), pads: pins_view(pads) }
}

/// The outline item of an arc or line block on the outline layer, read
/// from the `n` words after the layer word.
fn edge_block(bt: u8, blk: &[u8]) -> (r: Result<XzzEdge, ParseError>)
    requires
        bt == 1u8 || bt == 5u8,
        blk@.len() >= 4,
    ensures
        r is Ok <==> blk@.len() >= (if bt == 1u8 { 24int } else { 20int }),
        r is Err ==> r matches Err(ParseError::Malformed(_)),
        r matches Ok(e) ==> e == edge_of(bt, blk@),
{
    let n: usize = if bt == 1u8 { 5 } else { 4 };
    let mut vals: Vec<u32> = Vec::new();
    let mut f: usize = 1;
    while f <= n
        invariant
            n == (if bt == 1u8 { 5usize } else { 4usize }),
            1 <= f <= n + 1,
            vals@.len() == f - 1,
            blk@.len() >= 4 * f,
            forall|i: int| 0 <= i < f - 1 ==> #[trigger] vals@[i] == le_u32(blk@, 4 * (i + 1)) / SCALE,
        decreases n + 1 - f,
    {
        match rd_u32(blk, 4 * f) {
            Ok(v) => vals.push(v / SCALE),
            Err(e) => return Err(e),
        }
        f = f + 1;
    }
    assert(vals@[0] == le_u32(blk@, 4) / SCALE);
    assert(vals@[1] == le_u32(blk@, 8) / SCALE);
    assert(vals@[2] == le_u32(blk@, 12) / SCALE);
    assert(vals@[3] == le_u32(blk@, 16) / SCALE);
    if bt == 1u8 {
        assert(vals@[4] == le_u32(blk@, 20) / SCALE);
        Ok(XzzEdge::Arc(XzzArc {
            x: vals[0],
            y: vals[1],
            r: vals[2],
            start_deg: vals[3] as i64,
            end_deg: vals[4] as i64,
        }))
    } else {
        Ok(XzzEdge::Segment(
            Point { x: vals[0] as i64 * 1000, y: vals[1] as i64 * 1000 },
            Point { x: vals[2] as i64 * 1000, y: vals[3] as i64 * 1000 },
        ))
    }
}

/// A test-pad block.
fn pad_block(blk: &[u8]) -> (r: Result<XzzPin, ParseError>)
    ensures
        r is Ok <==> blk@.len() >= 24 && le_u32(blk@, 20) <= blk@.len() - 24,
        r is Err ==> r matches Err(ParseError::Malformed(_)),
        r matches Ok(p) ==> p@ == pad_at(blk@),
{
    let x = match rd_u32(blk, 4) {
        Ok(v) => v,
        Err(e) => return Err(e),
    };
    let y = match rd_u32(blk, 8) {
        Ok(v) => v,
        Err(e) => return Err(e),
    };
    let name_len = match rd_u32(blk, 20) {
        Ok(v) => v as usize,
        Err(e) => return Err(e),
    };
    if name_len > blk.len() - 24 {
        return Err(malformed("XZZ test pad name out of range"));
    }
    let number = lossy(&blk[24..24 + name_len]);
    let net_index = match rd_u32(blk, blk.len() - 4) {
        Ok(v) => v,
        Err(e) => return Err(e),
    };
    Ok(XzzPin { x: x / SCALE, y: y / SCALE, number, net_index })
}

/// Adds what one main block contributes.
fn apply_block(
    outline: &mut Vec<XzzEdge>,
    parts: &mut Vec<(String, Vec<XzzPin>)>,
    pads: &mut Vec<XzzPin>,
    bt: u8,
    blk: &[u8],
    key: Option<u64>,
) -> (r: Result<(), ParseError>)
    ensures
        match block_apply(recs_view(old(outline)@, old(parts)@, old(pads)@), bt, blk@, key) {
            Ok(a) => r is Ok && recs_view(final(outline)@, final(parts)@, final(pads)@) == a,
            Err(XzzStop::NoKey) => r matches Err(ParseError::KeyMissing(f)) && f@ == "XZZ"@,
            Err(XzzStop::Malformed) => r matches Err(ParseError::Malformed(_)),
        },
{
    reveal(block_apply);
    if bt == 0x01u8 || bt == 0x05u8 {
        let layer = match rd_u32(blk, 0) {
            Ok(v) => v,
            Err(e) => return Err(e),
        };
        if layer == 28 {
            match edge_block(bt, blk) {
                Ok(e) => {
                    outline.push(e);
                },
                Err(e) => return Err(e),
            }
        }
    } else if bt == 0x07u8 {
        let k = match key {
            Some(k) => k,
            None => {
                return Err(ParseError::KeyMissing("XZZ"));
            },
        };
        let dec = des_decrypt(blk, k);
        match part_block(&dec) {
            Ok(part) => {
                let ghost before = parts@;
                parts.push(part);
                assert(parts_view(parts@) =~= parts_view(before).push((part.0@, pins_view(part.1@))));
            },
            Err(e) => return Err(e),
        }
    } else if bt == 0x09u8 {
        match pad_block(blk) {
            Ok(pad) => {
                let ghost before = pads@;
                pads.push(pad);
                assert(pins_view(pads@) =~= pins_view(before).push(pad@));
            },
            Err(e) => return Err(e),
        }
    }
    Ok(())
}

/// The outline items, parts and test pads of the main blocks from `p0` to
/// `end`.
fn main_blocks(data: &[u8], p0: usize, end: usize, key: Option<u64>) -> (r: Result<
    (Vec<XzzEdge>, Vec<(String, Vec<XzzPin>)>, Vec<XzzPin>),
    ParseError,
>)
    requires
        end <= data@.len(),
    ensures
        ({
            let w = main_walk(
                data@,
                p0 as int,
                end as int,
                key,
                XzzRecords { outline: Seq::empty(), parts: Seq::empty(), pads: Seq::empty() },
            );
            match w {
                Ok(v) => r matches Ok(t) && recs_view(t.0@, t.1@, t.2@) == v,
                Err(XzzStop::NoKey) => r matches Err(ParseError::KeyMissing(f)) && f@ == "XZZ"@,
                Err(XzzStop::Malformed) => r matches Err(ParseError::Malformed(_)),
            }
        }),
{
    let mut outline: Vec<XzzEdge> = Vec::new();
    let mut parts: Vec<(String, Vec<XzzPin>)> = Vec::new();
    let mut test_pads: Vec<XzzPin> = Vec::new();
    let ghost empty = XzzRecords { outline: Seq::empty(), parts: Seq::empty(), pads: Seq::empty() };
    assert(parts_view(parts@) =~= Seq::<(Seq<char>, Seq<XzzPinView>)>::empty());
    assert(pins_view(test_pads@) =~= Seq::<XzzPinView>::empty());
    assert(recs_view(outline@, parts@, test_pads@) =~= empty);
    let mut p = p0;
    while p < end
        invariant
            end <= data@.len(),
            empty == (XzzRecords { outline: Seq::empty(), parts: Seq::empty(), pads: Seq::empty() }),
            main_walk(data@, p0 as int, end as int, key, empty) == main_walk(
                data@,
                p as int,
                end as int,
                key,
                recs_view(outline@, parts@, test_pads@),
            ),
        decreases data@.len() - p,
    {
        let ghost acc = recs_view(outline@, parts@, test_pads@);
        let ghost pp = p as int;
        proof {
            lemma_main_step(data@, pp, end as int, key, acc);
        }
        let block_type = data[p];
        if data.len() - p < 5 {
            return Err(malformed("unexpected end of XZZ file"));
        }
        let size = match rd_u32(data, p + 1) {
            Ok(v) => v as usize,
            Err(e) => return Err(e),
        };
        p = p + 5;
        if size > data.len() - p {
            return Err(malformed("XZZ block overruns file"));
        }
        let blk = &data[p..p + size];
        p = p + size;
        assert(blk@ == data@.subrange(pp + 5, pp + 5 + size));
        match apply_block(&mut outline, &mut parts, &mut test_pads, block_type, blk, key) {
            Ok(()) => {},
            Err(e) => return Err(e),
        }
    }
    proof {
        lemma_main_step(data@, p as int, end as int, key, recs_view(outline@, parts@, test_pads@));
    }
    Ok((outline, parts, test_pads))
}

/// The lowest x and y over the outline's endpoints; the origin for an
/// empty outline.
pub open spec fn outline_min(segs: Seq<(Point, Point)>) -> (i64, i64)
    decreases segs.len(),
{
    if segs.len() == 0 {
        (0, 0)
    } else if segs.len() == 1 {
        (min3(segs[0].0.x, segs[0].1.x, i64::MAX), min3(segs[0].0.y, segs[0].1.y, i64::MAX))
    } else {
        let m = outline_min(segs.drop_last());
        let s = segs.last();
        (min3(s.0.x, s.1.x, m.0), min3(s.0.y, s.1.y, m.1))
    }
}

pub open spec fn min3(a: i64, b: i64, c: i64) -> i64 {
    let ab = if a <= b { a } else { b };
    if ab <= c { ab } else { c }
}

/// The name the net table gives index `idx` (its last entry for it);
/// empty when it has none.
pub open spec fn xzz_net_name(nets: Seq<(u32, Seq<char>)>, idx: u32) -> Seq<char>
    decreases nets.len(),
{
    if nets.len() == 0 {
        Seq::empty()
    } else if nets.last().0 == idx {
        nets.last().1
    } else {
        xzz_net_name(nets.drop_last(), idx)
    }
}

/// `m` gives every index the name the net table `nets` gives it, and
/// holds no index the table lacks.
pub open spec fn indexes_nets(m: Map<u32, String>, nets: Seq<(u32, Seq<char>)>) -> bool {
    forall|idx: u32| #[trigger] xzz_net_name(nets, idx) == (if m.contains_key(idx) {
        m[idx]@
    } else {
        Seq::<char>::empty()
    })
}

/// The net table keyed by index; a later entry for an index replaces an
/// earlier one.
fn net_map(nets: &Vec<(u32, String)>) -> (m: HashMap<u32, String>)
    ensures
        indexes_nets(m@, nets_view(nets@)),
{
    broadcast use vstd::std_specs::hash::group_hash_axioms;
    let ghost all = nets_view(nets@);
    let mut m: HashMap<u32, String> = HashMap::new();
    let mut k: usize = 0;
    assert(indexes_nets(m@, all.take(0)));
    while k < nets.len()
        invariant
            k <= nets@.len(),
            all == nets_view(nets@),
            indexes_nets(m@, all.take(k as int)),
        decreases nets@.len() - k,
    {
        let idx = nets[k].0;
        let name = nets[k].1.clone();
        let ghost before = m@;
        m.insert(idx, name);
        proof {
            let t = all.take(k + 1);
            assert(t.drop_last() =~= all.take(k as int));
            assert(t.last() == (idx, name@));
            assert forall|i: u32| #[trigger] xzz_net_name(t, i) == (if m@.contains_key(i) {
                m@[i]@
            } else {
                Seq::<char>::empty()
            }) by {
                if i != idx {
                    assert(xzz_net_name(t, i) == xzz_net_name(all.take(k as int), i));
                }
            }
        }
        k = k + 1;
    }
    assert(all.take(k as int) =~= all);
    m
}

fn net_name(table: &HashMap<u32, String>, idx: u32, Ghost(nets): Ghost<Seq<(u32, Seq<char>)>>) -> (s: String)
    requires
        indexes_nets(table@, nets),
    ensures
        s@ == xzz_net_name(nets, idx),
{
    broadcast use vstd::std_specs::hash::group_hash_axioms;
    assert(xzz_net_name(nets, idx) == (if table@.contains_key(idx) { table@[idx]@ } else { Seq::<char>::empty() }));
    match table.get(&idx) {
        Some(n) => n.clone(),
        None => String::new(),
    }
}

/// A point moved by the outline's lowest corner.
pub open spec fn shifted(p: Point, mx: i64, my: i64) -> Point {
    Point { x: clamp64(p.x - mx), y: clamp64(p.y - my) }
}

/// A position in mils, in model units, moved by the outline's lowest
/// corner.
pub open spec fn mil_point(x: u32, y: u32, mx: i64, my: i64) -> Point {
    shifted(Point { x: (x * 1000) as i64, y: (y * 1000) as i64 }, mx, my)
}

pub open spec fn shifted_outline(o: Seq<(Point, Point)>, mx: i64, my: i64) -> Seq<(Point, Point)> {
    o.map_values(|e: (Point, Point)| (shifted(e.0, mx, my), shifted(e.1, mx, my)))
}

/// The parts: on the top (XZZ files carry both sides side by side).
pub open spec fn xzz_part_specs(parts: Seq<(Seq<char>, Seq<XzzPinView>)>) -> Seq<PartSpec> {
    parts.map_values(
        |p: (Seq<char>, Seq<XzzPinView>)| PartSpec { name: p.0, side: Side::Top, mfg_code: None, value: None, package: None },
    )
}

/// A pin of part `part`: numbered and named by its number, default
/// radius, on the top, wired to its net-table name.
pub open spec fn xzz_pin_spec(p: XzzPinView, part: int, nets: Seq<(u32, Seq<char>)>, mx: i64, my: i64) -> PinSpec {
    PinSpec {
        part,
        number: p.number,
        name: p.number,
        pos: mil_point(p.x, p.y, mx, my),
        radius: DEFAULT_RADIUS,
        side: Side::Top,
        net: xzz_net_name(nets, p.net_index),
    }
}

/// The pins of all parts, part by part.
pub open spec fn xzz_pin_specs(
    parts: Seq<(Seq<char>, Seq<XzzPinView>)>,
    nets: Seq<(u32, Seq<char>)>,
    mx: i64,
    my: i64,
) -> Seq<PinSpec>
    decreases parts.len(),
{
    if parts.len() == 0 {
        Seq::empty()
    } else {
        xzz_pin_specs(parts.drop_last(), nets, mx, my) + parts.last().1.map_values(
            |p: XzzPinView| xzz_pin_spec(p, parts.len() - 1, nets, mx, my),
        )
    }
}

/// The test pads as probes on the top, wired to their net-table names.
pub open spec fn xzz_nail_specs(pads: Seq<XzzPinView>, nets: Seq<(u32, Seq<char>)>, mx: i64, my: i64) -> Seq<
    NailSpec,
> {
    pads.map_values(
        |p: XzzPinView|
            NailSpec { pos: mil_point(p.x, p.y, mx, my), side: Side::Top, probe: 0, net: xzz_net_name(nets, p.net_index) },
    )
}

/// Builds the board from the records and the outline as segments (arcs
/// already approximated), moving everything so that the outline's lowest
/// corner sits at the origin; an outline is fabricated around the pins
/// when there is none.
pub fn assemble(scan: XzzScan, outline: &Vec<(Point, Point)>) -> (r: Result<BoardModel, ParseError>)
    ensures
        ({
            let v = scan@;
            let m = outline_min(outline@);
            let pins = xzz_pin_specs(v.parts, v.nets, m.0, m.1);
            &&& r is Ok <==> board_fits(v.parts.len() as int, pins.len() as int, v.pads.len() as int)
            &&& r is Err ==> fails_malformed(r)
            &&& r is Ok ==> records_model(
                r->Ok_0,
                BoardFormat::XzzPcb,
                shifted_outline(outline@, m.0, m.1),
                xzz_part_specs(v.parts),
                pins,
                xzz_nail_specs(v.pads, v.nets, m.0, m.1),
                true,
            )
        }),
        r matches Ok(m) ==> parsed_ok(m, BoardFormat::XzzPcb),
{
    let mut min_x: i64 = 0;
    let mut min_y: i64 = 0;
    let mut s: usize = 0;
    while s < outline.len()
        invariant
            s <= outline@.len(),
            (min_x, min_y) == outline_min(outline@.take(s as int)),
        decreases outline@.len() - s,
    {
        let (a, b) = outline[s];
        proof {
            assert(outline@.take(s + 1).drop_last() =~= outline@.take(s as int));
        }
        let mx = if a.x <= b.x {
            a.x
        } else {
            b.x
        };
        let my = if a.y <= b.y {
            a.y
        } else {
            b.y
        };
        if s == 0 {
            min_x = mx;
            min_y = my;
        } else {
            if mx < min_x {
                min_x = mx;
            }
            if my < min_y {
                min_y = my;
            }
        }
        s = s + 1;
    }
    assert(outline@.take(s as int) =~= outline@);
    let ghost v = scan@;
    let mut segs: Vec<(Point, Point)> = Vec::new();
    let mut s: usize = 0;
    while s < outline.len()
        invariant
            s <= outline@.len(),
            segs@ == shifted_outline(outline@.take(s as int), min_x, min_y),
        decreases outline@.len() - s,
    {
        let (a, c) = outline[s];
        segs.push(
            (
                Point { x: sat_sub(a.x, min_x), y: sat_sub(a.y, min_y) },
                Point { x: sat_sub(c.x, min_x), y: sat_sub(c.y, min_y) },
            ),
        );
        s = s + 1;
        assert(segs@ =~= shifted_outline(outline@.take(s as int), min_x, min_y));
    }
    assert(outline@.take(s as int) =~= outline@);
    let table = net_map(&scan.nets);
    let mut parts: Vec<PartRec> = Vec::new();
    let mut pins: Vec<PinRec> = Vec::new();
    let mut q: usize = 0;
    assert(v.parts.take(0) =~= Seq::<(Seq<char>, Seq<XzzPinView>)>::empty());
    while q < scan.parts.len()
        invariant
            v == scan@,
            indexes_nets(table@, v.nets),
            q <= scan.parts@.len(),
            parts@.map_values(|p: PartRec| part_spec(p)) == xzz_part_specs(v.parts.take(q as int)),
            pins@.map_values(|p: PinRec| pin_spec(p)) == xzz_pin_specs(v.parts.take(q as int), v.nets, min_x, min_y),
            forall|j: int| 0 <= j < pins@.len() ==> (#[trigger] pins@[j]).part < parts@.len(),
        decreases scan.parts@.len() - q,
    {
        let ghost before_parts = parts@;
        parts.push(PartRec { name: scan.parts[q].0.clone(), side: Side::Top, mfg_code: None, value: None, package: None });
        proof {
            assert(v.parts[q as int] == (scan.parts@[q as int].0@, pins_view(scan.parts@[q as int].1@)));
            assert(v.parts.take(q + 1).drop_last() =~= v.parts.take(q as int));
            assert(part_spec(parts@.last()) == xzz_part_specs(v.parts.take(q + 1))[q as int]);
            assert(parts@.map_values(|p: PartRec| part_spec(p)) =~= before_parts.map_values(|p: PartRec| part_spec(p)).push(
                part_spec(parts@.last()),
            ));
            assert(xzz_part_specs(v.parts.take(q + 1)) =~= xzz_part_specs(v.parts.take(q as int)).push(
                xzz_part_specs(v.parts.take(q + 1))[q as int],
            ));
            assert(parts@.map_values(|p: PartRec| part_spec(p)) =~= xzz_part_specs(v.parts.take(q + 1)));
        }
        let ppins = &scan.parts[q].1;
        let ghost base = pins@.map_values(|p: PinRec| pin_spec(p));
        let ghost cur = pins_view(ppins@);
        let mut j: usize = 0;
        while j < ppins.len()
            invariant
                v == scan@,
                indexes_nets(table@, v.nets),
                q < scan.parts@.len(),
                parts@.len() == q + 1,
                cur == pins_view(ppins@),
                ppins@ == scan.parts@[q as int].1@,
                j <= ppins@.len(),
                pins@.map_values(|p: PinRec| pin_spec(p)) == base + cur.take(j as int).map_values(
                    |p: XzzPinView| xzz_pin_spec(p, q as int, v.nets, min_x, min_y),
                ),
                forall|k: int| 0 <= k < pins@.len() ==> (#[trigger] pins@[k]).part < parts@.len(),
            decreases ppins@.len() - j,
        {
            let pin = &ppins[j];
            let net = net_name(&table, pin.net_index, Ghost(v.nets));
            let ghost before = pins@;
            pins.push(
                PinRec {
                    part: q,
                    number: pin.number.clone(),
                    name: pin.number.clone(),
                    pos: Point { x: sat_sub(pin.x as i64 * 1000, min_x), y: sat_sub(pin.y as i64 * 1000, min_y) },
                    radius: DEFAULT_RADIUS,
                    side: Side::Top,
                    net,
                },
            );
            proof {
                assert(cur[j as int] == pin@);
                assert(v.nets == nets_view(scan.nets@));
                assert(pin_spec(pins@.last()) == xzz_pin_spec(cur[j as int], q as int, v.nets, min_x, min_y));
                assert(cur.take(j + 1) =~= cur.take(j as int).push(cur[j as int]));
                assert(pins@.map_values(|p: PinRec| pin_spec(p)) =~= before.map_values(|p: PinRec| pin_spec(p)).push(
                    pin_spec(pins@.last()),
                ));
                assert(cur.take(j + 1).map_values(|p: XzzPinView| xzz_pin_spec(p, q as int, v.nets, min_x, min_y))
                    =~= cur.take(j as int).map_values(|p: XzzPinView| xzz_pin_spec(p, q as int, v.nets, min_x, min_y)).push(
                    xzz_pin_spec(cur[j as int], q as int, v.nets, min_x, min_y),
                ));
                assert(pins@.map_values(|p: PinRec| pin_spec(p)) =~= base + cur.take(j + 1).map_values(
                    |p: XzzPinView| xzz_pin_spec(p, q as int, v.nets, min_x, min_y),
                ));
                assert forall|k: int| 0 <= k < pins@.len() implies (#[trigger] pins@[k]).part < parts@.len() by {
                    if k < before.len() {
                        assert(pins@[k] == before[k]);
                    }
                }
            }
            j = j + 1;
        }
        proof {
            assert(cur.take(j as int) =~= cur);
            assert(v.parts.take(q + 1).last() == v.parts[q as int]);
        }
        q = q + 1;
    }
    assert(v.parts.take(q as int) =~= v.parts);
    let mut nails: Vec<RawNail> = Vec::new();
    let mut t: usize = 0;
    while t < scan.test_pads.len()
        invariant
            v == scan@,
            indexes_nets(table@, v.nets),
            t <= scan.test_pads@.len(),
            nails@.map_values(|n: RawNail| nail_spec(n)) == xzz_nail_specs(v.pads.take(t as int), v.nets, min_x, min_y),
        decreases scan.test_pads@.len() - t,
    {
        let pad = &scan.test_pads[t];
        let net = net_name(&table, pad.net_index, Ghost(v.nets));
        let ghost before_nails = nails@;
        nails.push(
            RawNail {
                pos: Point { x: sat_sub(pad.x as i64 * 1000, min_x), y: sat_sub(pad.y as i64 * 1000, min_y) },
                side: Side::Top,
                net,
                probe: 0,
            },
        );
        assert(v.pads[t as int] == pad@);
        assert(nail_spec(nails@.last()) == xzz_nail_specs(v.pads, v.nets, min_x, min_y)[t as int]);
        assert(nails@.map_values(|n: RawNail| nail_spec(n)) =~= before_nails.map_values(|n: RawNail| nail_spec(n)).push(
            nail_spec(nails@.last()),
        ));
        assert(xzz_nail_specs(v.pads.take(t + 1), v.nets, min_x, min_y) =~= xzz_nail_specs(
            v.pads.take(t as int),
            v.nets,
            min_x,
            min_y,
        ).push(xzz_nail_specs(v.pads, v.nets, min_x, min_y)[t as int]));
        t = t + 1;
        assert(nails@.map_values(|n: RawNail| nail_spec(n)) =~= xzz_nail_specs(v.pads.take(t as int), v.nets, min_x, min_y));
    }
    assert(v.pads.take(t as int) =~= v.pads);
    assemble_records(BoardFormat::XzzPcb, &segs, &parts, &pins, &nails, true)
}

} // verus!
