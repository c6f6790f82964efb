//! ASUS `.fz`: an RC6-based stream cipher over the whole file (some files
//! ship unencrypted, detectable by the zlib magic at offset 4), then two
//! independent zlib streams: pin/part content and a part-description table.
//! The 44-word RC6 key schedule is user-supplied (Settings); only a parity
//! fingerprint of the real key is part of the library.

use vstd::prelude::*;
use std::io::Read;
use vstd::string::StringSliceAdditionalSpecFns;
use crate::cursor::{Cursor, int_read, scaled_read, until_span, next_pos, tab_field_span, utf8_lossy};
use crate::text::{ltrim, split_lines, stringfile_lines, trimmed, line_is, line_starts, RawNail};
use crate::strs::{same_text, concat_str, split_ws, ws_words};
use crate::model::{BoardModel, BoardFormat, Point, Side, DEFAULT_RADIUS, sat_mul, clamp64};
use crate::parsers::{ParseContext, ParseError, malformed, fails_malformed, fails_key, board_fits};
use crate::records::{
    assemble, records_model, part_spec, pin_spec, nail_spec, last_named, lemma_last_named_range, find_part,
    PartRec, PinRec, PartSpec, PinSpec, NailSpec,
};

verus! {

/// Per-word parity of the genuine key, bit `i` for word `i`; a user-entered
/// key is checked against it without the key itself being known.
pub const KEY_PARITY_BITS: u64 = 0xb22238b6456u64;

/// The parity bit the key check computes for one word: the complement of
/// the XOR of all its bits.
pub open spec fn word_parity(w: u32) -> u32 {
    let t1 = w ^ (w >> 16u32);
    let t2 = t1 ^ (t1 >> 8u32);
    let t3 = t2 ^ (t2 >> 4u32);
    let t4 = t3 ^ (t3 >> 2u32);
    let t5 = t4 ^ (t4 >> 1u32);
    (!t5) & 1u32
}

pub open spec fn expected_parity(i: int) -> u32 {
    ((KEY_PARITY_BITS >> (i as u64)) & 1u64) as u32
}

/// Every word of the key schedule has the parity of the genuine key.
pub open spec fn fz_key_ok(key: Seq<u32>) -> bool {
    &&& key.len() == 44
    &&& forall|i: int| 0 <= i < 44 ==> word_parity(#[trigger] key[i]) == expected_parity(i)
}

fn parity_of(w: u32) -> (r: u32)
    ensures
        r == word_parity(w),
{
    let mut t = w;
    t = t ^ (t >> 16u32);
    t = t ^ (t >> 8u32);
    t = t ^ (t >> 4u32);
    t = t ^ (t >> 2u32);
    t = t ^ (t >> 1u32);
    (!t) & 1u32
}

/// Does the key schedule carry the parity fingerprint of the genuine key?
pub fn check_key(key: &[u32; 44]) -> (r: bool)
    ensures
        r == fz_key_ok(key@),
{
    let mut i: usize = 0;
    while i < 44
        invariant
            i <= 44,
            key@.len() == 44,
            forall|j: int| 0 <= j < i ==> word_parity(#[trigger] key@[j]) == expected_parity(j),
        decreases 44 - i,
    {
        let w = *vstd::array::array_index_get(key, i);
        let p = ((KEY_PARITY_BITS >> (i as u64)) & 1u64) as u32;
        if parity_of(w) != p {
            return false;
        }
        i = i + 1;
    }
    true
}

/// Rotation left by the low five bits of `n`.
pub open spec fn rotl(x: u32, n: u32) -> u32 {
    let s = n & 31u32;
    if s == 0 {
        x
    } else {
        (x << s) | (x >> (32u32 - s))
    }
}

fn rotl_exec(x: u32, n: u32) -> (r: u32)
    ensures
        r == rotl(x, n),
{
    let s = n & 31u32;
    if s == 0 {
        x
    } else {
        assert(s < 32u32) by (bit_vector)
            requires
                s == n & 31u32,
        ;
        (x << s) | (x >> (32u32 - s))
    }
}

/// `b * (2b + 1)` rotated left by 5, wrapping.
pub open spec fn rc6_f(b: u32) -> u32 {
    rotl(b.wrapping_mul(b.wrapping_mul(2).wrapping_add(1)), 5)
}

/// Round `i` (1-based) of the keystream function on state `(a, b, c, d)`.
pub open spec fn rc6_round(key: Seq<u32>, st: (u32, u32, u32, u32), i: int) -> (u32, u32, u32, u32) {
    let t = rc6_f(st.1);
    let u = rc6_f(st.3);
    let a = rotl(st.0 ^ t, u & 31u32).wrapping_add(key[2 * i]);
    let c = rotl(st.2 ^ u, t & 31u32).wrapping_add(key[2 * i + 1]);
    (st.1, c, st.3, a)
}

pub open spec fn rc6_rounds(key: Seq<u32>, st: (u32, u32, u32, u32), n: nat) -> (u32, u32, u32, u32)
    decreases n,
{
    if n == 0 {
        st
    } else {
        rc6_round(key, rc6_rounds(key, st, (n - 1) as nat), n as int)
    }
}

/// A little-endian word of `w` at `k`.
pub open spec fn le32(w: Seq<u8>, k: int) -> u32 {
    (w[k] as int + 256 * (w[k + 1] as int) + 65536 * (w[k + 2] as int) + 16777216 * (w[k + 3] as int)) as u32
}

/// The keystream byte for the 16 ciphertext bytes that precede it.
pub open spec fn fz_keystream(key: Seq<u32>, w: Seq<u8>) -> u8 {
    let st0 = (le32(w, 0), le32(w, 4).wrapping_add(key[0]), le32(w, 8), le32(w, 12).wrapping_add(key[1]));
    let st = rc6_rounds(key, st0, 20);
    (st.0.wrapping_add(key[42]) & 0xffu32) as u8
}

/// The 16 bytes before `pos`, zeros before the start.
pub open spec fn fz_window(data: Seq<u8>, pos: int) -> Seq<u8> {
    Seq::new(16, |j: int| if pos - 16 + j >= 0 { data[pos - 16 + j] } else { 0u8 })
}

/// The file decrypted with the key schedule (a self-synchronizing stream
/// cipher: each keystream byte depends on the 16 ciphertext bytes before it).
pub open spec fn fz_decrypted(data: Seq<u8>, key: Seq<u32>) -> Seq<u8> {
    Seq::new(data.len(), |p: int| data[p] ^ fz_keystream(key, fz_window(data, p)))
}

/// The cipher's encryption: each byte XORed with the keystream byte of the
/// 16 ciphertext bytes before it.
pub open spec fn fz_encrypted(p: Seq<u8>, key: Seq<u32>) -> Seq<u8>
    decreases p.len(),
{
    if p.len() == 0 {
        Seq::empty()
    } else {
        let c = fz_encrypted(p.drop_last(), key);
        c.push(p.last() ^ fz_keystream(key, fz_window(c, c.len() as int)))
    }
}

proof fn lemma_window_prefix(s: Seq<u8>, t: Seq<u8>, pos: int)
    requires
        0 <= pos <= s.len(),
        pos <= t.len(),
        forall|j: int| 0 <= j < pos ==> s[j] == t[j],
    ensures
        fz_window(s, pos) == fz_window(t, pos),
{
    assert(fz_window(s, pos) =~= fz_window(t, pos));
}

proof fn lemma_encrypted_bytes(p: Seq<u8>, key: Seq<u32>)
    ensures
        fz_encrypted(p, key).len() == p.len(),
        forall|i: int|
            0 <= i < p.len() ==> #[trigger] fz_encrypted(p, key)[i] == p[i] ^ fz_keystream(
                key,
                fz_window(fz_encrypted(p, key), i),
            ),
    decreases p.len(),
{
    if p.len() > 0 {
        let q = p.drop_last();
        let c = fz_encrypted(q, key);
        let e = fz_encrypted(p, key);
        lemma_encrypted_bytes(q, key);
        assert forall|i: int| 0 <= i < p.len() implies #[trigger] e[i] == p[i] ^ fz_keystream(key, fz_window(e, i)) by {
            lemma_window_prefix(c, e, if i < c.len() { i } else { c.len() as int });
            if i < c.len() {
                assert(e[i] == c[i]);
                assert(c[i] == q[i] ^ fz_keystream(key, fz_window(c, i)));
            }
        }
    }
}

/// Decryption undoes the cipher: a file encrypted with a key schedule is
/// read back byte for byte with the same schedule.
pub proof fn lemma_fz_decrypts_encrypted(p: Seq<u8>, key: Seq<u32>)
    ensures
        fz_decrypted(fz_encrypted(p, key), key) == p,
{
    lemma_encrypted_bytes(p, key);
    let c = fz_encrypted(p, key);
    assert forall|i: int| 0 <= i < p.len() implies #[trigger] fz_decrypted(c, key)[i] == p[i] by {
        let k = fz_keystream(key, fz_window(c, i));
        let a = p[i];
        assert((a ^ k) ^ k == a) by (bit_vector);
    }
    assert(fz_decrypted(c, key) =~= p);
}

fn le32_exec(w: &Vec<u8>, k: usize) -> (r: u32)
    requires
        k + 4 <= w@.len(),
    ensures
        r == le32(w@, k as int),
{
    let _n = w.len();
    let b0 = w[k] as u64;
    let b1 = w[k + 1] as u64;
    let b2 = w[k + 2] as u64;
    let b3 = w[k + 3] as u64;
    assert(b0 <= 255 && b1 <= 255 && b2 <= 255 && b3 <= 255);
    let v: u64 = b0 + 256 * b1 + 65536 * b2 + 16777216 * b3;
    assert(v < 0x1_0000_0000);
    v as u32
}

fn rc6_f_exec(b: u32) -> (r: u32)
    ensures
        r == rc6_f(b),
{
    rotl_exec(b.wrapping_mul(b.wrapping_mul(2).wrapping_add(1)), 5)
}

fn keystream(key: &[u32; 44], w: &Vec<u8>) -> (r: u8)
    requires
        w@.len() == 16,
    ensures
        r == fz_keystream(key@, w@),
{
    let k0 = *vstd::array::array_index_get(key, 0);
    let k1 = *vstd::array::array_index_get(key, 1);
    let ghost st0 = (le32(w@, 0), le32(w@, 4).wrapping_add(k0), le32(w@, 8), le32(w@, 12).wrapping_add(k1));
    let mut a = le32_exec(w, 0);
    let mut b = le32_exec(w, 4).wrapping_add(k0);
    let mut c = le32_exec(w, 8);
    let mut d = le32_exec(w, 12).wrapping_add(k1);
    let mut i: usize = 1;
    while i <= 20
        invariant
            1 <= i <= 21,
            key@.len() == 44,
            (a, b, c, d) == rc6_rounds(key@, st0, (i - 1) as nat),
        decreases 21 - i,
    {
        let t = rc6_f_exec(b);
        let u = rc6_f_exec(d);
        let ka = *vstd::array::array_index_get(key, 2 * i);
        let kc = *vstd::array::array_index_get(key, 2 * i + 1);
        let na = rotl_exec(a ^ t, u & 31u32).wrapping_add(ka);
        let nc = rotl_exec(c ^ u, t & 31u32).wrapping_add(kc);
        a = b;
        b = nc;
        c = d;
        d = na;
        i = i + 1;
    }
    let k42 = *vstd::array::array_index_get(key, 42);
    (a.wrapping_add(k42) & 0xffu32) as u8
}

/// Decrypts the file in place.
fn decode(data: &mut Vec<u8>, key: &[u32; 44])
    ensures
        final(data)@ == fz_decrypted(old(data)@, key@),
{
    let ghost orig = data@;
    let mut w: Vec<u8> = vec![0u8, 0, 0, 0, 0, 0, 0, 0, 0, 0, 0, 0, 0, 0, 0, 0];
    assert(w@ =~= fz_window(orig, 0));
    let mut pos: usize = 0;
    while pos < data.len()
        invariant
            pos <= data@.len(),
            data@.len() == orig.len(),
            w@ == fz_window(orig, pos as int),
            forall|j: int| 0 <= j < pos ==> data@[j] == #[trigger] fz_decrypted(orig, key@)[j],
            forall|j: int| pos <= j < data@.len() ==> data@[j] == #[trigger] orig[j],
        decreases data@.len() - pos,
    {
        let ks = keystream(key, &w);
        let current = data[pos];
        data.set(pos, current ^ ks);
        let mut nw: Vec<u8> = Vec::new();
        let mut j: usize = 1;
        while j < 16
            invariant
                1 <= j <= 16,
                w@.len() == 16,
                nw@ == w@.subrange(1, j as int),
            decreases 16 - j,
        {
            nw.push(w[j]);
            j = j + 1;
            assert(nw@ =~= w@.subrange(1, j as int));
        }
        nw.push(current);
        assert(nw@ =~= fz_window(orig, pos + 1));
        w = nw;
        pos = pos + 1;
    }
    assert(data@ =~= fz_decrypted(orig, key@));
}

/// What zlib inflation of a byte stream gives: the decompressed bytes, or
/// `None` for data that is not a complete zlib stream.
pub uninterp spec fn zlib_inflate(data: Seq<u8>) -> Option<Seq<u8>>;

/// `flate2::read::ZlibDecoder` read to the end. Its result is named by
/// `zlib_inflate` (decompression depends on the input bytes alone); on
/// failure the decoder's error message comes back.
#[verifier::external_body]
fn inflate(data: &[u8]) -> (r: Result<Vec<u8>, String>)
    ensures
        r is Ok <==> zlib_inflate(data@) is Some,
        r is Ok ==> r->Ok_0@ == zlib_inflate(data@)->Some_0,
{
    let mut out = Vec::new();
    let mut dec = flate2::read::ZlibDecoder::new(data);
    match dec.read_to_end(&mut out) {
        Ok(_) => Ok(out),
        Err(e) => Err(e.to_string()),
    }
}

/// The zlib magic sits at offset 4 of files shipped unencrypted.
pub open spec fn fz_is_plain(b: Seq<u8>) -> bool {
    b[4] == 0x78u8 && (b[5] == 0x9cu8 || b[5] == 0xdau8)
}

/// Regional files use ',' as the decimal separator; it becomes '.'.
pub open spec fn decimal_points(b: Seq<u8>) -> Seq<u8> {
    b.map_values(|x: u8| if x == 44u8 { 46u8 } else { x })
}

fn fix_decimal_commas(b: &Vec<u8>) -> (r: Vec<u8>)
    ensures
        r@ == decimal_points(b@),
{
    let mut out: Vec<u8> = Vec::new();
    let mut i: usize = 0;
    while i < b.len()
        invariant
            i <= b@.len(),
            out@ == decimal_points(b@).take(i as int),
        decreases b@.len() - i,
    {
        out.push(if b[i] == 44u8 { 46u8 } else { b[i] });
        i = i + 1;
        assert(out@ =~= decimal_points(b@).take(i as int));
    }
    assert(decimal_points(b@).take(i as int) =~= decimal_points(b@));
    out
}

/// The file as the parser reads it: unchanged when it ships unencrypted,
/// else decrypted with the configured key.
pub open spec fn fz_plaintext(bytes: Seq<u8>, ctx: ParseContext) -> Seq<u8> {
    if fz_is_plain(bytes) {
        bytes
    } else {
        fz_decrypted(bytes, ctx.fz_key->Some_0@)
    }
}

/// Files long enough for the header and trailer, either plain or with a
/// key of the genuine parity at hand.
pub open spec fn fz_readable(bytes: Seq<u8>, ctx: ParseContext) -> bool {
    &&& bytes.len() >= 16
    &&& fz_is_plain(bytes) || (ctx.fz_key is Some && fz_key_ok(ctx.fz_key->Some_0@))
}

/// The trailing little-endian word: the size of the description block.
pub open spec fn fz_trailer(d: Seq<u8>) -> int {
    le32(d, d.len() - 4) as int
}

/// Parses an `.fz` file: decrypts it when needed (the key must carry the
/// genuine key's parity), splits it by its trailer, inflates both streams
/// and reads them with `parse_sections`.
pub fn parse(bytes: &[u8], ctx: &ParseContext) -> (r: Result<BoardModel, ParseError>)
    ensures
        bytes@.len() < 16 ==> fails_malformed(r),
        bytes@.len() >= 16 && !fz_readable(bytes@, *ctx) ==> fails_key(r, "FZ"@),
        fz_readable(bytes@, *ctx) ==> ({
            let d = fz_plaintext(bytes@, *ctx);
            let n = d.len() as int;
            let ds = fz_trailer(d);
            let content = zlib_inflate(d.subrange(4, n - ds + 4));
            let descr = zlib_inflate(d.subrange(n - ds + 4, n));
            &&& (ds > n || ds < 4) ==> fails_malformed(r)
            &&& 4 <= ds <= n && (content is None || descr is None) ==> fails_malformed(r)
            &&& 4 <= ds <= n && content is Some && descr is Some ==> fz_sections_outcome(
                r,
                decimal_points(content->Some_0),
                descr->Some_0,
            )
        }),
{
    if bytes.len() < 16 {
        return Err(malformed("file too short"));
    }
    let mut data = vstd::slice::slice_to_vec(bytes);
    let plain = data[4] == 0x78u8 && (data[5] == 0x9cu8 || data[5] == 0xdau8);
    if !plain {
        let key = match &ctx.fz_key {
            Some(k) => k,
            None => {
                return Err(ParseError::KeyMissing("FZ"));
            },
        };
        if !check_key(key) {
            return Err(ParseError::KeyMissing("FZ"));
        }
        decode(&mut data, key);
    }
    assert(data@ == fz_plaintext(bytes@, *ctx));
    let n = data.len();
    let descr_size = le32_exec(&data, n - 4) as usize;
    if descr_size > n {
        return Err(malformed("bad FZ trailer (wrong key or corrupt file)"));
    }
    if descr_size < 4 {
        return Err(malformed("bad FZ segmentation"));
    }
    let content_end = n - descr_size + 4;
    let content = match inflate(&data.as_slice()[4..content_end]) {
        Ok(v) => v,
        Err(msg) => {
            return Err(ParseError::Malformed(concat_str("zlib: ", msg.as_str())));
        },
    };
    let descr = match inflate(&data.as_slice()[content_end..n]) {
        Ok(v) => v,
        Err(msg) => {
            return Err(ParseError::Malformed(concat_str("zlib: ", msg.as_str())));
        },
    };
    let content = fix_decimal_commas(&content);
    parse_sections(content.as_slice(), descr.as_slice())
}

/// The content block an `A!` header line opens: the first of the known
/// names its text after `A!` starts with; -1 for other names.
pub open spec fn fz_block(rest: Seq<u8>) -> i8 {
    if starts(rest, "REFDES".spec_bytes()) {
        1i8
    } else if starts(rest, "NET_NAME".spec_bytes()) {
        2i8
    } else if starts(rest, "TESTVIA".spec_bytes()) {
        3i8
    } else if starts(rest, "GRAPHIC_DATA_NAME".spec_bytes()) {
        4i8
    } else if starts(rest, "CLASS".spec_bytes()) {
        5i8
    } else if starts(rest, "LOGOInfo".spec_bytes()) {
        6i8
    } else if starts(rest, "UnDrawSym".spec_bytes()) {
        7i8
    } else {
        -1i8
    }
}

pub open spec fn starts(l: Seq<u8>, t: Seq<u8>) -> bool {
    t.len() <= l.len() && l.take(t.len() as int) == t
}

fn block_of(rest: &[u8]) -> (r: i8)
    ensures
        r == fz_block(rest@),
{
    if line_starts(rest, "REFDES") {
        1
    } else if line_starts(rest, "NET_NAME") {
        2
    } else if line_starts(rest, "TESTVIA") {
        3
    } else if line_starts(rest, "GRAPHIC_DATA_NAME") {
        4
    } else if line_starts(rest, "CLASS") {
        5
    } else if line_starts(rest, "LOGOInfo") {
        6
    } else if line_starts(rest, "UnDrawSym") {
        7
    } else {
        -1
    }
}

/// Truncating division, as Rust's `/` on integers.
pub open spec fn trunc_div(a: int, d: int) -> int {
    if a >= 0 {
        a / d
    } else {
        -((-a) / d)
    }
}

/// A coordinate at `pos`: mils, or in the millimeter-file scaling
/// (x 25.4), as model units. Where the read stops and the value.
pub open spec fn fz_coord_read(b: Seq<u8>, pos: int, mm: bool) -> (int, i64) {
    if mm {
        (scaled_read(b, pos, 4).0, trunc_div(clamp64(scaled_read(b, pos, 4).1 * 254) as int, 100) as i64)
    } else {
        scaled_read(b, pos, 3)
    }
}

/// A coordinate in mils, or in the millimeter-file scaling (x 25.4).
fn fz_coord(c: &mut Cursor, mm: bool) -> (v: i64)
    ensures
        final(c).data() == old(c).data(),
        (final(c).offset(), v) == fz_coord_read(old(c).data(), old(c).offset(), mm),
{
    if mm {
        sat_mul(c.read_scaled(4), 254) / 100
    } else {
        c.read_scaled(3)
    }
}

/// A `!`-terminated field at `pos`: where the read stops and the text.
pub open spec fn field_read(b: Seq<u8>, pos: int) -> (int, Seq<char>) {
    let (p0, e) = until_span(b, pos, 33u8);
    (next_pos(e, b.len() as int), utf8_lossy(b.subrange(p0, e)))
}

/// Past the byte `d` at `pos`, if it is there.
pub open spec fn eat(b: Seq<u8>, pos: int, d: u8) -> int {
    if pos < b.len() && b[pos] == d {
        pos + 1
    } else {
        pos
    }
}

/// A `REFDES` record: name, three fields, the mirror flag ("YES" is the
/// bottom side).
pub open spec fn fz_part(b: Seq<u8>) -> PartSpec {
    let (p1, name) = field_read(b, 0);
    let p2 = field_read(b, p1).0;
    let p3 = field_read(b, p2).0;
    let mirror = field_read(b, p3).1;
    PartSpec { name, side: if mirror == "YES"@ { Side::Bottom } else { Side::Top }, mfg_code: None, value: None, package: None }
}

/// The fields of a `NET_NAME` record: net, part, pin number, pin name, x,
/// y, probe, radius (hundredths of a mil, at least half a mil).
pub open spec fn fz_pin_fields(b: Seq<u8>, mm: bool) -> (Seq<char>, Seq<char>, Seq<char>, Seq<char>, Point, i64) {
    let (p1, net) = field_read(b, 0);
    let (p2, part) = field_read(b, p1);
    let (p3, snum) = field_read(b, p2);
    let (p4, name) = field_read(b, p3);
    let (p5, x) = fz_coord_read(b, p4, mm);
    let (p6, y) = fz_coord_read(b, eat(b, p5, 33u8), mm);
    let p7 = int_read(b, eat(b, p6, 33u8)).0;
    let r0 = scaled_read(b, eat(b, p7, 33u8), 1).1;
    let r1 = if r0 < DEFAULT_RADIUS { DEFAULT_RADIUS } else { r0 };
    let radius = if mm { (clamp64(r1 * 254) / 10) as i64 } else { r1 };
    (net, part, snum, name, Point { x, y }, radius)
}

/// A `TESTVIA` record: "Y", net, part, pin number, pin name, x, y, side
/// ("T" is the top).
pub open spec fn fz_nail(b: Seq<u8>, mm: bool) -> NailSpec {
    let q1 = eat(b, eat(b, 0, 89u8), 33u8);
    let (p2, net) = field_read(b, q1);
    let p3 = field_read(b, p2).0;
    let p4 = int_read(b, p3).0;
    let p5 = field_read(b, eat(b, p4, 33u8)).0;
    let (p6, x) = fz_coord_read(b, p5, mm);
    let (p7, y) = fz_coord_read(b, eat(b, p6, 33u8), mm);
    let loc = field_read(b, eat(b, p7, 33u8)).1;
    NailSpec { pos: Point { x, y }, side: if loc == "T"@ { Side::Top } else { Side::Bottom }, probe: 0, net }
}

/// What reading the content lines collects: whether a pin named an
/// unknown part (reading stops there), the block in effect, whether the
/// file declared millimeters, and the records in order.
pub struct FzScan {
    pub err: bool,
    pub block: i8,
    pub mm: bool,
    pub parts: Seq<PartSpec>,
    pub pins: Seq<PinSpec>,
    pub nails: Seq<NailSpec>,
}

pub open spec fn fz_start() -> FzScan {
    FzScan { err: false, block: 0, mm: false, parts: Seq::empty(), pins: Seq::empty(), nails: Seq::empty() }
}

/// A record line (`S!...`) of the current block.
pub open spec fn fz_record(s: FzScan, b: Seq<u8>) -> FzScan {
    if s.block == 1 {
        FzScan { parts: s.parts.push(fz_part(b)), ..s }
    } else if s.block == 2 {
        let f = fz_pin_fields(b, s.mm);
        let idx = last_named(s.parts, f.1);
        let by_name = f.2.len() == 0 || f.2 == "0"@;
        if idx < 0 {
            FzScan { err: true, ..s }
        } else {
            FzScan {
                pins: s.pins.push(
                    PinSpec {
                        part: idx,
                        number: if by_name { f.3 } else { f.2 },
                        name: if by_name { Seq::empty() } else { f.3 },
                        pos: f.4,
                        radius: f.5,
                        side: s.parts[idx].side,
                        net: f.0,
                    },
                ),
                ..s
            }
        }
    } else if s.block == 3 {
        FzScan { nails: s.nails.push(fz_nail(b, s.mm)), ..s }
    } else {
        s
    }
}

/// One trimmed content line: `A!` lines open blocks, `S!` lines are
/// records, a `UNIT:millimeters` line switches to millimeters.
pub open spec fn fz_apply(s: FzScan, l: Seq<u8>) -> FzScan {
    if s.err || l.len() == 0 {
        s
    } else {
        let s1 = FzScan { mm: s.mm || l == "UNIT:millimeters".spec_bytes(), ..s };
        let rest = l.subrange(if l.len() < 2 { l.len() as int } else { 2 }, l.len() as int);
        if l[0] == 65u8 {
            FzScan { block: fz_block(rest), ..s1 }
        } else if l[0] == 83u8 {
            fz_record(s1, rest)
        } else {
            s1
        }
    }
}

pub open spec fn fz_scan(lines: Seq<Seq<u8>>) -> FzScan
    decreases lines.len(),
{
    if lines.len() == 0 {
        fz_start()
    } else {
        fz_apply(fz_scan(lines.drop_last()), trimmed(lines.last()))
    }
}

/// A tab-separated field at `pos`: where the read stops and the text.
pub open spec fn tab_read(b: Seq<u8>, pos: int) -> (int, Seq<char>) {
    let (p0, e) = tab_field_span(b, pos);
    (next_pos(e, b.len() as int), utf8_lossy(b.subrange(p0, e)))
}

/// A description line: part number, description, quantity, locations.
pub open spec fn fz_desc_fields(l: Seq<u8>) -> (Seq<char>, Seq<char>, Seq<char>) {
    let (p1, partno) = tab_read(l, 0);
    let (p2, desc) = tab_read(l, p1);
    let p3 = int_read(l, p2).0;
    (partno, desc, tab_read(l, eat(l, p3, 9u8)).1)
}

/// The parts named by `words` take the part number and description (each
/// when not empty); a name refers to the last part of that name.
pub open spec fn fz_assign(parts: Seq<PartSpec>, words: Seq<Seq<char>>, pn: Seq<char>, d: Seq<char>) -> Seq<PartSpec>
    decreases words.len(),
{
    if words.len() == 0 {
        parts
    } else {
        let ps = fz_assign(parts, words.drop_last(), pn, d);
        let idx = last_named(ps, words.last());
        if idx < 0 {
            ps
        } else {
            ps.update(
                idx,
                PartSpec {
                    mfg_code: if pn.len() > 0 { Some(pn) } else { ps[idx].mfg_code },
                    value: if d.len() > 0 { Some(d) } else { ps[idx].value },
                    ..ps[idx]
                },
            )
        }
    }
}

/// One trimmed description line; empty lines and lines starting with `s`
/// are skipped.
pub open spec fn fz_desc_apply(parts: Seq<PartSpec>, l: Seq<u8>) -> Seq<PartSpec> {
    if l.len() == 0 || l[0] == 115u8 {
        parts
    } else {
        let f = fz_desc_fields(l);
        fz_assign(parts, ws_words(f.2), f.0, f.1)
    }
}

pub open spec fn fz_desc(parts: Seq<PartSpec>, lines: Seq<Seq<u8>>) -> Seq<PartSpec>
    decreases lines.len(),
{
    if lines.len() == 0 {
        parts
    } else {
        fz_desc_apply(fz_desc(parts, lines.drop_last()), trimmed(lines.last()))
    }
}

/// The description lines after the first two.
pub open spec fn fz_desc_lines(descr: Seq<u8>) -> Seq<Seq<u8>> {
    let ls = stringfile_lines(descr);
    if ls.len() <= 2 {
        Seq::empty()
    } else {
        ls.subrange(2, ls.len() as int)
    }
}

struct FzState {
    block: i8,
    mm: bool,
    parts: Vec<PartRec>,
    pins: Vec<PinRec>,
    nails: Vec<RawNail>,
}

spec fn fz_rel(st: FzState, s: FzScan) -> bool {
    &&& !s.err
    &&& st.block == s.block
    &&& st.mm == s.mm
    &&& st.parts@.map_values(|p: PartRec| part_spec(p)) == s.parts
    &&& st.pins@.map_values(|p: PinRec| pin_spec(p)) == s.pins
    &&& st.nails@.map_values(|n: RawNail| nail_spec(n)) == s.nails
    &&& forall|j: int| 0 <= j < st.pins@.len() ==> (#[trigger] st.pins@[j]).part < st.parts@.len()
}

fn read_part(b: &[u8]) -> (p: PartRec)
    ensures
        part_spec(p) == fz_part(b@),
{
    let mut c = Cursor::new(b);
    let name = c.read_until(33u8);
    let _cic = c.read_until(33u8);
    let _sname = c.read_until(33u8);
    let mirror = c.read_until(33u8);
    let side = if same_text(mirror.as_str(), "YES") {
        Side::Bottom
    } else {
        Side::Top
    };
    PartRec { name, side, mfg_code: None, value: None, package: None }
}

fn read_pin_fields(b: &[u8], mm: bool) -> (r: (String, String, String, String, Point, i64))
    ensures
        (r.0@, r.1@, r.2@, r.3@, r.4, r.5) == fz_pin_fields(b@, mm),
{
    let mut c = Cursor::new(b);
    let net = c.read_until(33u8);
    let part = c.read_until(33u8);
    let snum = c.read_until(33u8);
    let name = c.read_until(33u8);
    let x = fz_coord(&mut c, mm);
    c.eat_delim(33u8);
    let y = fz_coord(&mut c, mm);
    c.eat_delim(33u8);
    let _probe = c.read_int();
    c.eat_delim(33u8);
    let mut radius = c.read_scaled(1);
    if radius < DEFAULT_RADIUS {
        radius = DEFAULT_RADIUS;
    }
    if mm {
        radius = sat_mul(radius, 254) / 10;
    }
    (net, part, snum, name, Point { x, y }, radius)
}

fn read_nail(b: &[u8], mm: bool) -> (n: RawNail)
    ensures
        nail_spec(n) == fz_nail(b@, mm),
{
    let mut c = Cursor::new(b);
    c.eat_delim(89u8);
    c.eat_delim(33u8);
    let net = c.read_until(33u8);
    let _refdes = c.read_until(33u8);
    let _pin_number = c.read_int();
    c.eat_delim(33u8);
    let _pin_name = c.read_until(33u8);
    let x = fz_coord(&mut c, mm);
    c.eat_delim(33u8);
    let y = fz_coord(&mut c, mm);
    c.eat_delim(33u8);
    let loc = c.read_until(33u8);
    let side = if same_text(loc.as_str(), "T") {
        Side::Top
    } else {
        Side::Bottom
    };
    RawNail { pos: Point { x, y }, side, net, probe: 0 }
}

/// Adds one `NET_NAME` record; when it names an unknown part, gives back
/// that name.
fn fz_pin(st: &mut FzState, rest: &[u8], Ghost(s): Ghost<FzScan>) -> (r: Result<(), String>)
    requires
        fz_rel(*old(st), s),
        s.block == 2,
    ensures
        r is Ok <==> !fz_record(s, rest@).err,
        r is Ok ==> fz_rel(*final(st), fz_record(s, rest@)),
{
    let (net, part_name, snum, name, pos, radius) = read_pin_fields(rest, st.mm);
    let part = match find_part(&st.parts, part_name.as_str()) {
        Some(k) => k,
        None => {
            return Err(part_name);
        },
    };
    let by_name = snum.as_str().is_empty() || same_text(snum.as_str(), "0");
    let side = st.parts[part].side;
    proof {
        assert(st.parts@.map_values(|p: PartRec| part_spec(p))[part as int] == part_spec(st.parts@[part as int]));
    }
    let (number, pin_name) = if by_name {
        (name, String::new())
    } else {
        (snum, name)
    };
    let ghost before = st.pins@;
    st.pins.push(PinRec { part, number, name: pin_name, pos, radius, side, net });
    proof {
        reveal_strlit("");
        assert(st.pins@.map_values(|p: PinRec| pin_spec(p)) =~= fz_record(s, rest@).pins);
        assert forall|j: int| 0 <= j < st.pins@.len() implies (#[trigger] st.pins@[j]).part < st.parts@.len() by {
            if j < before.len() {
                assert(st.pins@[j] == before[j]);
            }
        }
    }
    Ok(())
}

/// Handles one record line of the current block; when a pin names an
/// unknown part, gives back that name.
fn fz_record_line(st: &mut FzState, rest: &[u8], Ghost(s): Ghost<FzScan>) -> (r: Result<(), String>)
    requires
        fz_rel(*old(st), s),
    ensures
        r is Ok <==> !fz_record(s, rest@).err,
        r is Ok ==> fz_rel(*final(st), fz_record(s, rest@)),
{
    if st.block == 1 {
        let p = read_part(rest);
        st.parts.push(p);
        proof {
            assert(st.parts@.map_values(|p: PartRec| part_spec(p)) =~= fz_record(s, rest@).parts);
        }
        Ok(())
    } else if st.block == 2 {
        fz_pin(st, rest, Ghost(s))
    } else if st.block == 3 {
        let n = read_nail(rest, st.mm);
        st.nails.push(n);
        proof {
            assert(st.nails@.map_values(|n: RawNail| nail_spec(n)) =~= fz_record(s, rest@).nails);
        }
        Ok(())
    } else {
        Ok(())
    }
}

/// Handles one trimmed content line; when a pin names an unknown part,
/// gives back that name.
fn fz_line(st: &mut FzState, line: &[u8], Ghost(s): Ghost<FzScan>) -> (r: Result<(), String>)
    requires
        fz_rel(*old(st), s),
    ensures
        r is Ok <==> !fz_apply(s, line@).err,
        r is Ok ==> fz_rel(*final(st), fz_apply(s, line@)),
{
    if line.len() == 0 {
        return Ok(());
    }
    if line_is(line, "UNIT:millimeters") {
        st.mm = true;
    }
    let ghost s1 = FzScan { mm: s.mm || line@ == "UNIT:millimeters".spec_bytes(), ..s };
    let skip = if line.len() < 2 {
        line.len()
    } else {
        2
    };
    let rest = &line[skip..line.len()];
    assert(rest@ == line@.subrange(skip as int, line@.len() as int));
    if line[0] == 65u8 {
        st.block = block_of(rest);
        Ok(())
    } else if line[0] == 83u8 {
        fz_record_line(st, rest, Ghost(s1))
    } else {
        Ok(())
    }
}

/// Once a pin names an unknown part, later lines change nothing.
proof fn lemma_fz_err_sticks(lines: Seq<Seq<u8>>, i: int)
    requires
        0 <= i <= lines.len(),
        fz_scan(lines.take(i)).err,
    ensures
        fz_scan(lines).err,
    decreases lines.len() - i,
{
    if i < lines.len() {
        assert(lines.take(i + 1).drop_last() =~= lines.take(i));
        lemma_fz_err_sticks(lines, i + 1);
    } else {
        assert(lines.take(i) =~= lines);
    }
}

/// Names stay where they are when part numbers and descriptions change.
proof fn lemma_assign_names(parts: Seq<PartSpec>, words: Seq<Seq<char>>, pn: Seq<char>, d: Seq<char>)
    ensures
        fz_assign(parts, words, pn, d).len() == parts.len(),
        forall|i: int| 0 <= i < parts.len() ==> (#[trigger] fz_assign(parts, words, pn, d)[i]).name == parts[i].name
            && fz_assign(parts, words, pn, d)[i].side == parts[i].side,
    decreases words.len(),
{
    if words.len() > 0 {
        lemma_assign_names(parts, words.drop_last(), pn, d);
        lemma_last_named_range(fz_assign(parts, words.drop_last(), pn, d), words.last());
    }
}

/// Applies the part numbers and descriptions of one description line.
fn desc_line(parts: &mut Vec<PartRec>, line: &[u8])
    ensures
        final(parts)@.map_values(|p: PartRec| part_spec(p)) == fz_desc_apply(
            old(parts)@.map_values(|p: PartRec| part_spec(p)),
            line@,
        ),
        final(parts)@.len() == old(parts)@.len(),
{
    if line.len() == 0 || line[0] == 115u8 {
        return;
    }
    let mut c = Cursor::new(line);
    let partno = c.read_tab_field();
    let description = c.read_tab_field();
    let _qty = c.read_int();
    c.eat_delim(9u8);
    let locations = c.read_tab_field();
    let words = split_ws(locations.as_str());
    let ghost ws = words@.map_values(|w: String| w@);
    let ghost p0 = parts@.map_values(|p: PartRec| part_spec(p));
    let mut w: usize = 0;
    assert(ws.take(0) =~= Seq::<Seq<char>>::empty());
    while w < words.len()
        invariant
            w <= words@.len(),
            ws == words@.map_values(|w: String| w@),
            parts@.len() == p0.len(),
            parts@.map_values(|p: PartRec| part_spec(p)) == fz_assign(p0, ws.take(w as int), partno@, description@),
        decreases words@.len() - w,
    {
        proof {
            assert(ws.take(w + 1).drop_last() =~= ws.take(w as int));
            assert(ws.take(w + 1).last() == words@[w as int]@);
        }
        let ghost cur = parts@.map_values(|p: PartRec| part_spec(p));
        if let Some(idx) = find_part(parts, words[w].as_str()) {
            if !partno.as_str().is_empty() {
                parts[idx].mfg_code = Some(partno.clone());
            }
            if !description.as_str().is_empty() {
                parts[idx].value = Some(description.clone());
            }
            proof {
                assert(parts@.map_values(|p: PartRec| part_spec(p)) =~= fz_assign(p0, ws.take(w + 1), partno@, description@));
            }
        }
        w = w + 1;
    }
    assert(ws.take(w as int) =~= ws);
}

/// What reading the inflated content and description streams gives: a
/// board of the records, with the description table's part numbers and
/// descriptions, when no pin names an unknown part, some block was opened
/// and the counts fit; else a malformed-file error.
pub open spec fn fz_sections_outcome(r: Result<BoardModel, ParseError>, content: Seq<u8>, descr: Seq<u8>) -> bool {
    let s = fz_scan(stringfile_lines(content));
    let parts = fz_desc(s.parts, fz_desc_lines(descr));
    &&& r is Ok <==> !s.err && s.block != 0 && board_fits(
        s.parts.len() as int,
        s.pins.len() as int,
        s.nails.len() as int,
    )
    &&& r is Err ==> fails_malformed(r)
    &&& r is Ok ==> records_model(r->Ok_0, BoardFormat::Fz, Seq::empty(), parts, s.pins, s.nails, true)
}

/// Reads the inflated content and description streams.
pub fn parse_sections(content: &[u8], descr: &[u8]) -> (r: Result<BoardModel, ParseError>)
    ensures
        fz_sections_outcome(r, content@, descr@),
{
    let lines = split_lines(content);
    let ghost all = lines@.map_values(|l: &[u8]| l@);
    let mut st = FzState { block: 0, mm: false, parts: Vec::new(), pins: Vec::new(), nails: Vec::new() };
    let ghost mut s = fz_start();
    proof {
        assert(st.parts@.map_values(|p: PartRec| part_spec(p)) =~= Seq::<PartSpec>::empty());
        assert(st.pins@.map_values(|p: PinRec| pin_spec(p)) =~= Seq::<PinSpec>::empty());
        assert(st.nails@.map_values(|n: RawNail| nail_spec(n)) =~= Seq::<NailSpec>::empty());
    }
    let mut i: usize = 0;
    assert(all.take(0) =~= Seq::<Seq<u8>>::empty());
    while i < lines.len()
        invariant
            all == lines@.map_values(|l: &[u8]| l@),
            all == stringfile_lines(content@),
            i <= lines@.len(),
            s == fz_scan(all.take(i as int)),
            fz_rel(st, s),
        decreases lines@.len() - i,
    {
        let line = ltrim(lines[i]);
        let ghost prev = s;
        proof {
            assert(all.take(i + 1).drop_last() =~= all.take(i as int));
            assert(all.take(i + 1).last() == lines@[i as int]@);
            s = fz_apply(prev, trimmed(lines@[i as int]@));
        }
        if let Err(part) = fz_line(&mut st, line, Ghost(prev)) {
            proof {
                lemma_fz_err_sticks(all, i + 1);
            }
            return Err(ParseError::Malformed(concat_str("pin references unknown part ", part.as_str())));
        }
        i = i + 1;
    }
    assert(all.take(i as int) =~= all);
    if st.block == 0 {
        return Err(malformed("no recognizable FZ content blocks (wrong key?)"));
    }
    let dlines = split_lines(descr);
    let ghost dall = dlines@.map_values(|l: &[u8]| l@);
    let ghost skipped = fz_desc_lines(descr@);
    let ghost p_scan = s.parts;
    let mut k: usize = 2;
    proof {
        if dall.len() > 2 {
            assert(skipped.take(0) =~= Seq::<Seq<u8>>::empty());
        }
    }
    while k < dlines.len()
        invariant
            dall == dlines@.map_values(|l: &[u8]| l@),
            dall == stringfile_lines(descr@),
            skipped == fz_desc_lines(descr@),
            2 <= k,
            k < dlines@.len() ==> k <= dlines@.len(),
            dlines@.len() > 2 ==> k <= dlines@.len(),
            dlines@.len() > 2 ==> st.parts@.map_values(|p: PartRec| part_spec(p)) == fz_desc(p_scan, skipped.take(k - 2)),
            dlines@.len() <= 2 ==> st.parts@.map_values(|p: PartRec| part_spec(p)) == p_scan,
            st.parts@.len() == p_scan.len(),
            st.pins@.map_values(|p: PinRec| pin_spec(p)) == s.pins,
            st.nails@.map_values(|n: RawNail| nail_spec(n)) == s.nails,
            forall|j: int| 0 <= j < st.pins@.len() ==> (#[trigger] st.pins@[j]).part < st.parts@.len(),
        decreases dlines@.len() - k,
    {
        let line = ltrim(dlines[k]);
        proof {
            assert(skipped.take(k - 1).drop_last() =~= skipped.take(k - 2));
            assert(skipped.take(k - 1).last() == dall[k as int]);
        }
        desc_line(&mut st.parts, line);
        k = k + 1;
    }
    proof {
        if dall.len() > 2 {
            assert(skipped.take(k - 2) =~= skipped);
        } else {
            assert(skipped =~= Seq::<Seq<u8>>::empty());
        }
    }
    assemble(BoardFormat::Fz, &Vec::new(), &st.parts, &st.pins, &st.nails, true)
}

} // verus!
