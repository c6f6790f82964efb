//! CST BoardViewer `.cst`: little-endian binary holding a parts section, a
//! nets name table, then a "CPad" pin section of fixed 16-byte records. The
//! outline is not stored; one is generated around the pins. Detection is by
//! extension only (no reliable magic), so the parser is defensive.

use vstd::prelude::*;
use crate::cursor::{lossy, utf8_lossy};
use crate::strs::concat_str;
use crate::text::{decimal_string, int_decimal, run_at};
use crate::builder::{
    BoardBuilder, finished_side, names_net, stored_pin, lemma_names_net_stable, fabricated_outline,
};
use crate::model::{
    BoardModel, BoardFormat, Part, Pin, Point, Side, DEFAULT_RADIUS, same_parts_attrs, same_part_attrs,
    pin_positions,
};
use crate::parsers::{ParseError, parsed_ok, malformed, fails_malformed};

verus! {

/// A reader over a byte buffer; every read past the end fails.
struct Bin<'a> {
    buf: &'a [u8],
    pos: usize,
}

pub open spec fn le16(lo: u8, hi: u8) -> u16 {
    (lo as int + 256 * (hi as int)) as u16
}

impl<'a> Bin<'a> {
    #[verifier::type_invariant]
    spec fn inv(&self) -> bool {
        self.pos <= self.buf@.len()
    }

    spec fn data(&self) -> Seq<u8> {
        self.buf@
    }

    spec fn at(&self) -> int {
        self.pos as int
    }

    fn new(buf: &'a [u8]) -> (r: Self)
        ensures
            r.data() == buf@,
            r.at() == 0,
    {
        Bin { buf, pos: 0 }
    }

    fn u16(&mut self) -> (r: Result<u16, ParseError>)
        ensures
            final(self).data() == old(self).data(),
            old(self).at() + 2 <= old(self).data().len() ==> r == Ok::<u16, ParseError>(le16(
                old(self).data()[old(self).at()],
                old(self).data()[old(self).at() + 1],
            )) && final(self).at() == old(self).at() + 2,
            old(self).at() + 2 > old(self).data().len() ==> bin_fail(r) && final(self).at() == old(self).at(),
    {
        proof {
            use_type_invariant(&*self);
        }
        if self.buf.len() - self.pos < 2 {
            return Err(malformed("unexpected end of CST file"));
        }
        let lo = self.buf[self.pos];
        let hi = self.buf[self.pos + 1];
        self.pos = self.pos + 2;
        Ok((lo as u16) + 256u16 * (hi as u16))
    }

    fn i16(&mut self) -> (r: Result<i16, ParseError>)
        ensures
            final(self).data() == old(self).data(),
            old(self).at() + 2 <= old(self).data().len() ==> r == Ok::<i16, ParseError>(le16(
                old(self).data()[old(self).at()],
                old(self).data()[old(self).at() + 1],
            ) as i16) && final(self).at() == old(self).at() + 2,
            old(self).at() + 2 > old(self).data().len() ==> bin_fail(r) && final(self).at() == old(self).at(),
    {
        match self.u16() {
            Ok(v) => Ok(v as i16),
            Err(e) => Err(e),
        }
    }

    fn u8(&mut self) -> (r: Result<u8, ParseError>)
        ensures
            final(self).data() == old(self).data(),
            old(self).at() < old(self).data().len() ==> r == Ok::<u8, ParseError>(
                old(self).data()[old(self).at()],
            ) && final(self).at() == old(self).at() + 1,
            old(self).at() >= old(self).data().len() ==> bin_fail(r) && final(self).at() == old(self).at(),
    {
        proof {
            use_type_invariant(&*self);
        }
        if self.pos >= self.buf.len() {
            return Err(malformed("unexpected end of CST file"));
        }
        let b = self.buf[self.pos];
        self.pos = self.pos + 1;
        Ok(b)
    }

    fn bytes(&mut self, n: usize) -> (r: Result<&'a [u8], ParseError>)
        ensures
            final(self).data() == old(self).data(),
            old(self).at() + n <= old(self).data().len() ==> r is Ok && r->Ok_0@ == old(self).data().subrange(
                old(self).at(),
                old(self).at() + n,
            ) && final(self).at() == old(self).at() + n,
            old(self).at() + n > old(self).data().len() ==> bin_fail(r) && final(self).at() == old(self).at(),
    {
        proof {
            use_type_invariant(&*self);
        }
        if self.buf.len() - self.pos < n {
            return Err(malformed("unexpected end of CST file"));
        }
        let b = &self.buf[self.pos..self.pos + n];
        self.pos = self.pos + n;
        Ok(b)
    }

    fn skip(&mut self, n: usize) -> (r: Result<(), ParseError>)
        ensures
            final(self).data() == old(self).data(),
            old(self).at() + n <= old(self).data().len() ==> r is Ok && final(self).at() == old(self).at() + n,
            old(self).at() + n > old(self).data().len() ==> bin_fail(r) && final(self).at() == old(self).at(),
    {
        proof {
            use_type_invariant(&*self);
        }
        if self.buf.len() - self.pos < n {
            return Err(malformed("unexpected end of CST file"));
        }
        self.pos = self.pos + n;
        Ok(())
    }

    fn back(&mut self, n: usize) -> (r: Result<(), ParseError>)
        ensures
            final(self).data() == old(self).data(),
            n <= old(self).at() ==> r is Ok && final(self).at() == old(self).at() - n,
            n > old(self).at() ==> bin_fail(r) && final(self).at() == old(self).at(),
    {
        proof {
            use_type_invariant(&*self);
        }
        if n > self.pos {
            return Err(malformed("CST section underflow"));
        }
        self.pos = self.pos - n;
        Ok(())
    }

    fn at_pos(&self) -> (p: usize)
        ensures
            p == self.at(),
            p <= self.data().len(),
    {
        proof {
            use_type_invariant(self);
        }
        self.pos
    }

    fn seek(&mut self, p: usize)
        requires
            p <= old(self).data().len(),
        ensures
            final(self).data() == old(self).data(),
            final(self).at() == p,
    {
        self.pos = p;
    }
}

/// A read that failed with a malformed-file error.
pub open spec fn bin_fail<T>(r: Result<T, ParseError>) -> bool {
    r matches Err(ParseError::Malformed(_))
}

pub open spec fn le16_at(b: Seq<u8>, p: int) -> u16 {
    le16(b[p], b[p + 1])
}

/// The side a part's layer byte gives.
pub open spec fn layer_side(layer: u8) -> Side {
    if layer == 0x0cu8 {
        Side::Top
    } else if layer == 0x01u8 {
        Side::Bottom
    } else {
        Side::Both
    }
}

/// A part record at `p`: name length, name, four unused bytes, layer, six
/// unused bytes. The record and where the next one starts.
pub open spec fn cst_part_at(b: Seq<u8>, p: int) -> Option<((Seq<char>, Side), int)> {
    if p + 1 > b.len() {
        None
    } else {
        let n = b[p] as int;
        let q = p + 1 + n;
        if q + 11 > b.len() {
            None
        } else {
            Some(((utf8_lossy(b.subrange(p + 1, q)), layer_side(b[q + 4])), q + 11))
        }
    }
}

/// The first `n` part records from `p`, and where reading stops.
pub open spec fn cst_parts(b: Seq<u8>, p: int, n: nat) -> Option<(Seq<(Seq<char>, Side)>, int)>
    decreases n,
{
    if n == 0 {
        Some((Seq::empty(), p))
    } else {
        match cst_parts(b, p, (n - 1) as nat) {
            None => None,
            Some((ps, q)) => match cst_part_at(b, q) {
                None => None,
                Some((x, q2)) => Some((ps.push(x), q2)),
            },
        }
    }
}

/// A net name at `p`: length byte, then the name.
pub open spec fn cst_net_at(b: Seq<u8>, p: int) -> Option<(Seq<char>, int)> {
    if p + 1 > b.len() || p + 1 + b[p] as int > b.len() {
        None
    } else {
        Some((utf8_lossy(b.subrange(p + 1, p + 1 + b[p] as int)), p + 1 + b[p] as int))
    }
}

pub open spec fn cst_nets(b: Seq<u8>, p: int, n: nat) -> Option<(Seq<Seq<char>>, int)>
    decreases n,
{
    if n == 0 {
        Some((Seq::empty(), p))
    } else {
        match cst_nets(b, p, (n - 1) as nat) {
            None => None,
            Some((ns, q)) => match cst_net_at(b, q) {
                None => None,
                Some((x, q2)) => Some((ns.push(x), q2)),
            },
        }
    }
}

pub open spec fn cpad_marker() -> Seq<u8> {
    seq![67u8, 80u8, 97u8, 100u8]
}

/// The first position at or after `p` where "CPad" starts.
pub open spec fn cpad_from(b: Seq<u8>, p: int) -> Option<int>
    decreases b.len() - p,
{
    if p < 0 || p + 4 > b.len() {
        None
    } else if b.subrange(p, p + 4) == cpad_marker() {
        Some(p)
    } else {
        cpad_from(b, p + 1)
    }
}

/// A pin as read: part index (the dummy part for a negative one), probe
/// number, net index and position.
pub struct CstPin {
    pub part: int,
    pub probe: i16,
    pub net: int,
    pub pos: Point,
}

/// A pin record at `p`: part, probe, net, x, y, shape (16-bit little
/// endian each) and four unused bytes. `parts` counts the dummy part too.
/// No record when it is cut short or names a part or net that is not
/// there.
pub open spec fn cst_pin_at(b: Seq<u8>, p: int, parts: int, nets: int) -> Option<(CstPin, int)> {
    if p + 16 > b.len() {
        None
    } else {
        let part_id = le16_at(b, p) as i16;
        let net_id = le16_at(b, p + 4) as i16;
        if (part_id >= 0 && part_id >= parts) || net_id < 0 || net_id >= nets {
            None
        } else {
            Some(
                (
                    CstPin {
                        part: if part_id >= 0 { part_id as int } else { parts - 1 },
                        probe: le16_at(b, p + 2) as i16,
                        net: net_id as int,
                        pos: Point {
                            x: ((le16_at(b, p + 6) as i16) * 1000) as i64,
                            y: ((le16_at(b, p + 8) as i16) * 1000) as i64,
                        },
                    },
                    p + 16,
                ),
            )
        }
    }
}

pub open spec fn cst_pins(b: Seq<u8>, p: int, n: nat, parts: int, nets: int) -> Option<Seq<CstPin>>
    decreases n,
{
    if n == 0 {
        Some(Seq::empty())
    } else {
        match cst_pins(b, p, (n - 1) as nat, parts, nets) {
            None => None,
            Some(ps) => match cst_pin_at(b, p + 16 * (n - 1), parts, nets) {
                None => None,
                Some((x, _)) => Some(ps.push(x)),
            },
        }
    }
}

/// The records of a CST file.
pub struct CstRecords {
    pub parts: Seq<(Seq<char>, Side)>,
    pub nets: Seq<Seq<char>>,
    pub pins: Seq<CstPin>,
}

/// The walk over a CST file: part count (1 to 100000), a four-byte
/// signature, a named section header, the part records, the net count
/// (overlapping the last part record) and names, then from the first
/// "CPad" after them: the pin count eight bytes before the marker, and
/// the pin records four bytes after it. No records when the walk fails.
pub open spec fn cst_read(b: Seq<u8>) -> Option<CstRecords> {
    if b.len() < 8 || le16_at(b, 0) == 0 || le16_at(b, 0) > 100_000 || 8 + le16_at(b, 6) > b.len() {
        None
    } else {
        match cst_parts(b, 8 + le16_at(b, 6), le16_at(b, 0) as nat) {
            None => None,
            Some((parts, q)) => match cst_nets(b, q, le16_at(b, q - 2) as nat) {
                None => None,
                Some((nets, q2)) => match cpad_from(b, q2) {
                    None => None,
                    Some(k) => if k < 8 || k + 4 > b.len() {
                        None
                    } else {
                        match cst_pins(b, k + 4, le16_at(b, k - 8) as nat, parts.len() + 1int, nets.len() as int) {
                            None => None,
                            Some(pins) => Some(CstRecords { parts, nets, pins }),
                        }
                    },
                },
            },
        }
    }
}

/// The board a CST file's records describe: its parts, then a dummy "..."
/// part that holds the pins naming no part (as test pads), the pins in
/// order on their parts' sides, and an outline fabricated around them.
pub open spec fn cst_model(m: BoardModel, r: CstRecords) -> bool {
    let np = r.parts.len();
    &&& parsed_ok(m, BoardFormat::Cst)
    &&& m.warnings@.len() == 0
    &&& m.parts@.len() == np + 1
    &&& forall|p: int|
        0 <= p < np ==> {
            &&& (#[trigger] m.parts@[p]).refdes@ == r.parts[p].0
            &&& m.parts@[p].side == finished_side(Part { side: r.parts[p].1, ..m.parts@[p] }, m.pins@)
            &&& m.parts@[p].mfg_code is None
            &&& m.parts@[p].value is None
            &&& m.parts@[p].package is None
            &&& !m.parts@[p].is_dummy
        }
    &&& m.parts@[np as int].refdes@ == "..."@
    &&& m.parts@[np as int].is_dummy
    &&& m.parts@[np as int].mfg_code is None
    &&& m.parts@[np as int].value is None
    &&& m.parts@[np as int].package is None
    &&& m.parts@[np as int].side == finished_side(Part { side: Side::Both, ..m.parts@[np as int] }, m.pins@)
    &&& m.pins@.len() == r.pins.len()
    &&& forall|j: int|
        0 <= j < r.pins.len() ==> {
            let x = r.pins[j];
            &&& (#[trigger] m.pins@[j]).part == x.part
            &&& m.pins@[j].number@ == (if x.probe > 0 { int_decimal(x.probe as int) } else { Seq::empty() })
            &&& m.pins@[j].name@.len() == 0
            &&& m.pins@[j].pos == x.pos
            &&& m.pins@[j].radius == DEFAULT_RADIUS
            &&& m.pins@[j].side == (if x.part < np { r.parts[x.part].1 } else { Side::Both })
            &&& m.pins@[j].is_test_pad == (x.part == np)
            &&& names_net(m.nets@, m.pins@[j].net, r.nets[x.net])
        }
    &&& m.outline@ == (if r.pins.len() > 0 { fabricated_outline(pin_positions(m.pins@)) } else { Seq::empty() })
}

proof fn lemma_parts_fail(b: Seq<u8>, p: int, n: nat, m: nat)
    requires
        n <= m,
        cst_parts(b, p, n) is None,
    ensures
        cst_parts(b, p, m) is None,
    decreases m - n,
{
    if n < m {
        lemma_parts_fail(b, p, n + 1, m);
    }
}

proof fn lemma_nets_fail(b: Seq<u8>, p: int, n: nat, m: nat)
    requires
        n <= m,
        cst_nets(b, p, n) is None,
    ensures
        cst_nets(b, p, m) is None,
    decreases m - n,
{
    if n < m {
        lemma_nets_fail(b, p, n + 1, m);
    }
}

proof fn lemma_pins_fail(b: Seq<u8>, p: int, n: nat, m: nat, parts: int, nets: int)
    requires
        n <= m,
        cst_pins(b, p, n, parts, nets) is None,
    ensures
        cst_pins(b, p, m, parts, nets) is None,
    decreases m - n,
{
    if n < m {
        lemma_pins_fail(b, p, n + 1, m, parts, nets);
    }
}

proof fn lemma_cpad_from_range(b: Seq<u8>, p: int)
    ensures
        cpad_from(b, p) matches Some(k) ==> p <= k && k + 4 <= b.len(),
    decreases b.len() - p,
{
    if p >= 0 && p + 4 <= b.len() && b.subrange(p, p + 4) != cpad_marker() {
        lemma_cpad_from_range(b, p + 1);
    }
}

/// The first position at or after `from` where "CPad" starts.
fn find_cpad(buf: &[u8], from: usize) -> (r: Option<usize>)
    requires
        from <= buf@.len(),
    ensures
        match r {
            Some(k) => cpad_from(buf@, from as int) == Some(k as int) && from <= k && k + 4 <= buf@.len(),
            None => cpad_from(buf@, from as int) is None,
        },
{
    proof {
        lemma_cpad_from_range(buf@, from as int);
    }
    let marker: [u8; 4] = [67u8, 80u8, 97u8, 100u8];
    assert(marker@ =~= cpad_marker());
    if buf.len() < 4 {
        return None;
    }
    let mut k = from;
    while k <= buf.len() - 4
        invariant
            from <= k,
            marker@ == cpad_marker(),
            buf@.len() >= 4,
            cpad_from(buf@, from as int) == cpad_from(buf@, k as int),
        decreases buf@.len() - k,
    {
        if run_at(buf, marker.as_slice(), k) {
            return Some(k);
        }
        k = k + 1;
    }
    None
}

fn read_part(r: &mut Bin) -> (res: Result<(String, Side), ParseError>)
    ensures
        final(r).data() == old(r).data(),
        match cst_part_at(old(r).data(), old(r).at()) {
            Some((x, q)) => res matches Ok(v) && (v.0@, v.1) == x && final(r).at() == q,
            None => bin_fail(res),
        },
{
    let n = match r.u8() {
        Ok(v) => v as usize,
        Err(e) => return Err(e),
    };
    let raw = match r.bytes(n) {
        Ok(v) => v,
        Err(e) => return Err(e),
    };
    let name = lossy(raw);
    if let Err(e) = r.skip(4) {
        return Err(e);
    }
    let layer = match r.u8() {
        Ok(v) => v,
        Err(e) => return Err(e),
    };
    if let Err(e) = r.skip(6) {
        return Err(e);
    }
    let side = if layer == 0x0cu8 {
        Side::Top
    } else if layer == 0x01u8 {
        Side::Bottom
    } else {
        Side::Both
    };
    Ok((name, side))
}

fn read_net(r: &mut Bin) -> (res: Result<String, ParseError>)
    ensures
        final(r).data() == old(r).data(),
        match cst_net_at(old(r).data(), old(r).at()) {
            Some((x, q)) => res matches Ok(v) && v@ == x && final(r).at() == q,
            None => bin_fail(res),
        },
{
    let n = match r.u8() {
        Ok(v) => v as usize,
        Err(e) => return Err(e),
    };
    let raw = match r.bytes(n) {
        Ok(v) => v,
        Err(e) => return Err(e),
    };
    Ok(lossy(raw))
}

struct CstPinRec {
    part: usize,
    probe: i16,
    net: usize,
    pos: Point,
}

spec fn pin_rec_view(p: CstPinRec) -> CstPin {
    CstPin { part: p.part as int, probe: p.probe, net: p.net as int, pos: p.pos }
}

fn read_pin(r: &mut Bin, parts: usize, nets: usize) -> (res: Result<CstPinRec, ParseError>)
    requires
        parts >= 1,
    ensures
        final(r).data() == old(r).data(),
        match cst_pin_at(old(r).data(), old(r).at(), parts as int, nets as int) {
            Some((x, q)) => res matches Ok(v) && pin_rec_view(v) == x && final(r).at() == q,
            None => bin_fail(res),
        },
{
    let part_id = match r.i16() {
        Ok(v) => v,
        Err(e) => return Err(e),
    };
    let probe = match r.i16() {
        Ok(v) => v,
        Err(e) => return Err(e),
    };
    let net_id = match r.i16() {
        Ok(v) => v,
        Err(e) => return Err(e),
    };
    let x = match r.i16() {
        Ok(v) => v,
        Err(e) => return Err(e),
    };
    let y = match r.i16() {
        Ok(v) => v,
        Err(e) => return Err(e),
    };
    let _shape = match r.i16() {
        Ok(v) => v,
        Err(e) => return Err(e),
    };
    if let Err(e) = r.skip(4) {
        return Err(e);
    }
    let part = if part_id >= 0 {
        if part_id as usize >= parts {
            return Err(malformed("CST pin part out of range"));
        }
        part_id as usize
    } else {
        parts - 1
    };
    if net_id < 0 || net_id as usize >= nets {
        return Err(malformed("CST pin net out of range"));
    }
    Ok(CstPinRec { part, probe, net: net_id as usize, pos: Point { x: x as i64 * 1000, y: y as i64 * 1000 } })
}

/// Builds the board from the records.
fn assemble_cst(
    parts: &Vec<(String, Side)>,
    nets: &Vec<String>,
    pins: &Vec<CstPinRec>,
    recs: Ghost<CstRecords>,
) -> (m: BoardModel)
    requires
        parts@.len() <= 100_000,
        pins@.len() <= 0xffff,
        parts@.len() == recs@.parts.len(),
        forall|p: int| 0 <= p < parts@.len() ==> ((#[trigger] parts@[p]).0@, parts@[p].1) == recs@.parts[p],
        nets@.len() == recs@.nets.len(),
        forall|n: int| 0 <= n < nets@.len() ==> (#[trigger] nets@[n])@ == recs@.nets[n],
        pins@.len() == recs@.pins.len(),
        forall|j: int| 0 <= j < pins@.len() ==> pin_rec_view(#[trigger] pins@[j]) == recs@.pins[j],
        forall|j: int| 0 <= j < pins@.len() ==> (#[trigger] pins@[j]).part <= parts@.len() && pins@[j].net < nets@.len(),
    ensures
        cst_model(m, recs@),
{
    let mut b = BoardBuilder::new();
    let mut sides: Vec<Side> = Vec::new();
    let mut k: usize = 0;
    while k < parts.len()
        invariant
            b.wf(),
            k <= parts@.len(),
            parts@.len() <= 100_000,
            b.model().parts@.len() == k,
            sides@.len() == k,
            forall|q: int| 0 <= q < k ==> sides@[q] == #[trigger] parts@[q].1,
            b.model().pins@.len() == 0,
            b.model().nets@.len() == 0,
            b.model().outline@.len() == 0,
            b.model().warnings@.len() == 0,
            forall|q: int|
                0 <= q < k ==> {
                    &&& (#[trigger] b.model().parts@[q]).refdes@ == parts@[q].0@
                    &&& b.model().parts@[q].side == parts@[q].1
                    &&& sides@[q] == parts@[q].1
                    &&& b.model().parts@[q].mfg_code is None
                    &&& b.model().parts@[q].value is None
                    &&& b.model().parts@[q].package is None
                    &&& !b.model().parts@[q].is_dummy
                },
        decreases parts@.len() - k,
    {
        b.add_part(Part {
            refdes: parts[k].0.clone(),
            mfg_code: None,
            value: None,
            package: None,
            side: parts[k].1,
            pins: Vec::new(),
            is_dummy: false,
        });
        sides.push(parts[k].1);
        k = k + 1;
    }
    let dummy = b.add_part(Part {
        refdes: "...".to_owned(),
        mfg_code: None,
        value: None,
        package: None,
        side: Side::Both,
        pins: Vec::new(),
        is_dummy: true,
    });
    sides.push(Side::Both);
    let ghost m1 = b.model();
    let mut j: usize = 0;
    while j < pins.len()
        invariant
            b.wf(),
            j <= pins@.len(),
            pins@.len() <= 0xffff,
            parts@.len() <= 100_000,
            dummy == parts@.len(),
            sides@.len() == parts@.len() + 1,
            forall|q: int| 0 <= q < parts@.len() ==> sides@[q] == #[trigger] parts@[q].1,
            sides@[parts@.len() as int] == Side::Both,
            forall|q: int| 0 <= q < pins@.len() ==> pin_rec_view(#[trigger] pins@[q]) == recs@.pins[q],
            forall|q: int| 0 <= q < pins@.len() ==> (#[trigger] pins@[q]).part <= parts@.len() && pins@[q].net < nets@.len(),
            forall|n: int| 0 <= n < nets@.len() ==> (#[trigger] nets@[n])@ == recs@.nets[n],
            b.model().parts@.len() == parts@.len() + 1,
            same_parts_attrs(b.model().parts@, m1.parts@),
            b.model().pins@.len() == j,
            b.model().nets@.len() <= j,
            b.model().outline@.len() == 0,
            b.model().warnings@.len() == 0,
            b.model().format_label@ == m1.format_label@,
            forall|q: int|
                0 <= q < j ==> {
                    let x = recs@.pins[q];
                    &&& (#[trigger] b.model().pins@[q]).part == x.part
                    &&& b.model().pins@[q].number@ == (if x.probe > 0 { int_decimal(x.probe as int) } else { Seq::empty() })
                    &&& b.model().pins@[q].name@.len() == 0
                    &&& b.model().pins@[q].pos == x.pos
                    &&& b.model().pins@[q].radius == DEFAULT_RADIUS
                    &&& b.model().pins@[q].side == sides@[x.part]
                    &&& b.model().pins@[q].is_test_pad == (x.part == parts@.len())
                    &&& names_net(b.model().nets@, b.model().pins@[q].net, recs@.nets[x.net])
                },
        decreases pins@.len() - j,
    {
        let pin = &pins[j];
        let ghost nets_before = b.model().nets@;
        let ghost pins_before = b.model().pins@;
        let net = b.net_id(nets[pin.net].as_str());
        let new_pin = Pin {
            part: pin.part as u32,
            number: if pin.probe > 0 {
                decimal_string(pin.probe as i64)
            } else {
                String::new()
            },
            name: String::new(),
            pos: pin.pos,
            radius: DEFAULT_RADIUS,
            side: sides[pin.part],
            net,
            is_test_pad: pin.part == dummy as usize,
        };
        let ghost pin_v = new_pin;
        b.add_pin(new_pin);
        proof {
            reveal_strlit("");
            let nets_now = b.model().nets@;
            assert(b.model().pins@[j as int] == stored_pin(pin_v));
            assert(pin_rec_view(pins@[j as int]) == recs@.pins[j as int]);
            assert forall|q: int| 0 <= q < j implies names_net(
                nets_now,
                (#[trigger] b.model().pins@[q]).net,
                recs@.nets[recs@.pins[q].net],
            ) by {
                assert(b.model().pins@[q] == pins_before[q]);
                lemma_names_net_stable(nets_before, nets_now, pins_before[q].net, recs@.nets[recs@.pins[q].net]);
            }
        }
        j = j + 1;
    }
    let ghost m2 = b.model();
    assert(m2.outline@ =~= Seq::<(Point, Point)>::empty());
    b.generate_outline_from_pins();
    proof {
        b.lemma_wf();
    }
    let ghost m3 = b.model();
    let m = b.finish(BoardFormat::Cst);
    proof {
        reveal_strlit("...");
        let np = parts@.len() as int;
        assert forall|q: int| 0 <= q < np implies (#[trigger] m.parts@[q]).refdes@ == recs@.parts[q].0 && m.parts@[q].side
            == finished_side(Part { side: recs@.parts[q].1, ..m.parts@[q] }, m.pins@) by {
            assert(same_part_attrs(m2.parts@[q], m1.parts@[q]));
            assert(m.parts@[q] == Part { side: finished_side(m3.parts@[q], m3.pins@), ..m3.parts@[q] });
            assert(((parts@[q]).0@, parts@[q].1) == recs@.parts[q]);
        }
        assert(same_part_attrs(m2.parts@[np], m1.parts@[np]));
        assert(m.parts@[np] == Part { side: finished_side(m3.parts@[np], m3.pins@), ..m3.parts@[np] });
        assert forall|q: int| 0 <= q < pins@.len() implies (#[trigger] m.pins@[q]).side == (if recs@.pins[q].part < np {
            recs@.parts[recs@.pins[q].part].1
        } else {
            Side::Both
        }) by {
            let x = recs@.pins[q];
            assert(pin_rec_view(pins@[q]) == x);
            if x.part < np {
                assert(sides@[x.part] == parts@[x.part].1);
                assert(((parts@[x.part]).0@, parts@[x.part].1) == recs@.parts[x.part]);
            }
        }
    }
    m
}

/// Parses a `.cst` file.
pub fn parse(bytes: &[u8]) -> (r: Result<BoardModel, ParseError>)
    ensures
        match cst_read(bytes@) {
            Some(recs) => r matches Ok(m) && cst_model(m, recs),
            None => fails_malformed(r),
        },
{
    let mut r = Bin::new(bytes);
    let num_parts = match r.u16() {
        Ok(v) => v as usize,
        Err(e) => return Err(e),
    };
    if num_parts == 0 || num_parts > 100_000 {
        return Err(ParseError::Malformed(concat_str("implausible CST part count ", decimal_string(num_parts as i64).as_str())));
    }
    if let Err(e) = r.skip(4) {
        return Err(e);
    }
    let name_len = match r.u16() {
        Ok(v) => v as usize,
        Err(e) => return Err(e),
    };
    if let Err(e) = r.skip(name_len) {
        return Err(e);
    }
    let ghost start = r.at();
    assert(bytes@.len() >= 8);
    assert(le16_at(bytes@, 0) == num_parts);
    assert(start == 8 + le16_at(bytes@, 6));
    let mut parts: Vec<(String, Side)> = Vec::new();
    let mut k: usize = 0;
    while k < num_parts
        invariant
            r.data() == bytes@,
            num_parts <= 100_000,
            k <= num_parts,
            parts@.len() == k,
            r.at() >= start,
            start >= 8,
            bytes@.len() >= 8,
            le16_at(bytes@, 0) == num_parts,
            num_parts > 0,
            start == 8 + le16_at(bytes@, 6),
            cst_parts(bytes@, start, k as nat) matches Some((ps, q)) && q == r.at() && ps.len() == k
                && forall|p: int| 0 <= p < k ==> ((#[trigger] parts@[p]).0@, parts@[p].1) == ps[p],
        decreases num_parts - k,
    {
        let ghost before = parts@;
        match read_part(&mut r) {
            Ok(x) => parts.push(x),
            Err(e) => {
                proof {
                    lemma_parts_fail(bytes@, start, (k + 1) as nat, num_parts as nat);
                    assert(cst_read(bytes@) is None);
                }
                return Err(e);
            },
        }
        proof {
            let ps = cst_parts(bytes@, start, (k + 1) as nat)->Some_0.0;
            assert forall|p: int| 0 <= p < k + 1 implies ((#[trigger] parts@[p]).0@, parts@[p].1) == ps[p] by {
                if p < k {
                    assert(parts@[p] == before[p]);
                }
            }
        }
        k = k + 1;
    }
    let ghost ps_all = cst_parts(bytes@, start, num_parts as nat)->Some_0.0;
    let ghost q = r.at();
    assert(q >= 8);
    if let Err(e) = r.back(2) {
        return Err(e);
    }
    let num_nets = match r.u16() {
        Ok(v) => v as usize,
        Err(e) => return Err(e),
    };
    let ghost nets_start = r.at();
    assert(nets_start == q);
    assert(num_nets == le16_at(bytes@, q - 2));
    let mut nets: Vec<String> = Vec::new();
    let mut k: usize = 0;
    while k < num_nets
        invariant
            r.data() == bytes@,
            k <= num_nets,
            nets@.len() == k,
            bytes@.len() >= 8,
            le16_at(bytes@, 0) == num_parts,
            num_parts > 0,
            num_parts <= 100_000,
            start == 8 + le16_at(bytes@, 6),
            cst_parts(bytes@, start, num_parts as nat) == Some((ps_all, nets_start)),
            nets_start >= 8,
            num_nets == le16_at(bytes@, nets_start - 2),
            parts@.len() == num_parts,
            cst_nets(bytes@, nets_start, k as nat) matches Some((ns, q)) && q == r.at() && ns.len() == k
                && forall|n: int| 0 <= n < k ==> (#[trigger] nets@[n])@ == ns[n],
        decreases num_nets - k,
    {
        let ghost before = nets@;
        match read_net(&mut r) {
            Ok(x) => nets.push(x),
            Err(e) => {
                proof {
                    lemma_nets_fail(bytes@, nets_start, (k + 1) as nat, num_nets as nat);
                    assert(cst_read(bytes@) is None);
                }
                return Err(e);
            },
        }
        proof {
            let ns = cst_nets(bytes@, nets_start, (k + 1) as nat)->Some_0.0;
            assert forall|n: int| 0 <= n < k + 1 implies (#[trigger] nets@[n])@ == ns[n] by {
                if n < k {
                    assert(nets@[n] == before[n]);
                }
            }
        }
        k = k + 1;
    }
    let ghost ns_all = cst_nets(bytes@, nets_start, num_nets as nat)->Some_0.0;
    let from = r.at_pos();
    let mark = match find_cpad(bytes, from) {
        Some(p) => p,
        None => {
            return Err(malformed("CST CPad section not found"));
        },
    };
    r.seek(mark);
    if let Err(e) = r.back(8) {
        return Err(e);
    }
    let num_pins = match r.u16() {
        Ok(v) => v as usize,
        Err(e) => return Err(e),
    };
    if let Err(e) = r.skip(10) {
        return Err(e);
    }
    let ghost pins_start = r.at();
    assert(cpad_from(bytes@, from as int) == Some(mark as int));
    assert(mark >= 8 && mark + 4 <= bytes@.len());
    assert(pins_start == mark + 4);
    assert(num_pins == le16_at(bytes@, mark - 8));
    let mut pins: Vec<CstPinRec> = Vec::new();
    let mut k: usize = 0;
    while k < num_pins
        invariant
            r.data() == bytes@,
            k <= num_pins,
            num_pins <= 0xffff,
            num_parts <= 100_000,
            pins@.len() == k,
            r.at() == pins_start + 16 * k,
            parts@.len() == num_parts,
            nets@.len() == num_nets,
            bytes@.len() >= 8,
            le16_at(bytes@, 0) == num_parts,
            num_parts > 0,
            start == 8 + le16_at(bytes@, 6),
            cst_parts(bytes@, start, num_parts as nat) == Some((ps_all, nets_start)),
            nets_start >= 8,
            num_nets == le16_at(bytes@, nets_start - 2),
            cst_nets(bytes@, nets_start, num_nets as nat) == Some((ns_all, from as int)),
            ps_all.len() == num_parts,
            ns_all.len() == num_nets,
            cpad_from(bytes@, from as int) == Some(mark as int),
            mark >= 8 && mark + 4 <= bytes@.len(),
            pins_start == mark + 4,
            num_pins == le16_at(bytes@, mark - 8),
            cst_pins(bytes@, pins_start, k as nat, num_parts + 1, num_nets as int) matches Some(xs) && xs.len() == k
                && forall|j: int| 0 <= j < k ==> pin_rec_view(#[trigger] pins@[j]) == xs[j],
            forall|j: int| 0 <= j < k ==> (#[trigger] pins@[j]).part <= num_parts && pins@[j].net < num_nets,
        decreases num_pins - k,
    {
        let ghost before = pins@;
        match read_pin(&mut r, num_parts + 1, num_nets) {
            Ok(x) => pins.push(x),
            Err(e) => {
                proof {
                    lemma_pins_fail(bytes@, pins_start, (k + 1) as nat, num_pins as nat, num_parts + 1, num_nets as int);
                    assert(cst_read(bytes@) is None);
                }
                return Err(e);
            },
        }
        proof {
            let xs = cst_pins(bytes@, pins_start, (k + 1) as nat, num_parts + 1, num_nets as int)->Some_0;
            assert forall|j: int| 0 <= j < k + 1 implies pin_rec_view(#[trigger] pins@[j]) == xs[j] && pins@[j].part
                <= num_parts && pins@[j].net < num_nets by {
                if j < k {
                    assert(pins@[j] == before[j]);
                }
            }
        }
        k = k + 1;
    }
    let ghost recs = CstRecords {
        parts: ps_all,
        nets: ns_all,
        pins: cst_pins(bytes@, pins_start, num_pins as nat, num_parts + 1, num_nets as int)->Some_0,
    };
    assert(cst_read(bytes@) == Some(recs));
    Ok(assemble_cst(&parts, &nets, &pins, Ghost(recs)))
}

} // verus!
