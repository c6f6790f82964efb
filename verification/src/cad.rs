//! Samsung `.cad`: plain text with per-line record types (`COMP`, `C_PIN`,
//! `NET`, `N_VIA`). Coordinates in inches. No board outline in the file;
//! one is generated around the pins.

use vstd::prelude::*;
use vstd::string::StringSliceAdditionalSpecFns;
use crate::cursor::{Cursor, scaled_read, token_at, after_token};
use crate::text::{ltrim, split_lines, stringfile_lines, trimmed, line_starts, contains_run, find_in_buf, RawNail};
use crate::strs::{chars_of, string_of_chars, same_text, concat_str};
use crate::model::{BoardModel, BoardFormat, Point, Side, DEFAULT_RADIUS};
use crate::parsers::{ParseError, fails_malformed, fails_unrecognized, board_fits};
use crate::records::{
    last_named, find_part, assemble, records_model, part_spec, pin_spec, nail_spec, PartRec, PinRec, PartSpec, PinSpec, NailSpec,
};

verus! {

pub open spec fn cad_signature(b: Seq<u8>) -> bool {
    contains_run(b, "###Panel Added".spec_bytes()) && contains_run(b, "C_PIN".spec_bytes())
}

pub fn verify(buf: &[u8]) -> (r: bool)
    ensures
        r == cad_signature(buf@),
{
    find_in_buf("###Panel Added", buf) && find_in_buf("C_PIN", buf)
}

/// A net as Samsung CAD writes it ("/NETNAME"): when it holds a slash,
/// the first character is dropped.
pub open spec fn cleaned_net(net: Seq<char>) -> Seq<char> {
    if net.contains('/') {
        net.drop_first()
    } else {
        net
    }
}

pub fn clean_net(net: String) -> (r: String)
    ensures
        r@ == cleaned_net(net@),
{
    let cs = chars_of(net.as_str());
    assert(cs@ == net@);
    let mut k: usize = 0;
    while k < cs.len()
        invariant
            k <= cs@.len(),
            cs@ == net@,
            forall|j: int| 0 <= j < k ==> cs@[j] != '/',
        decreases cs@.len() - k,
    {
        if cs[k] == '/' {
            let mut out: Vec<char> = Vec::new();
            let mut q: usize = 1;
            while q < cs.len()
                invariant
                    1 <= q <= cs@.len(),
                    cs@ == net@,
                    out@ == cs@.subrange(1, q as int),
                decreases cs@.len() - q,
            {
                out.push(cs[q]);
                q = q + 1;
                assert(out@ =~= cs@.subrange(1, q as int));
            }
            assert(cs@.contains('/'));
            assert(out@ =~= net@.drop_first());
            return string_of_chars(&out);
        }
        k = k + 1;
    }
    assert(!cs@.contains('/'));
    net
}

/// Index of the first `-` in `s`, or its length.
pub open spec fn first_dash(s: Seq<char>) -> int
    decreases s.len(),
{
    if s.len() == 0 {
        0
    } else if s[0] == '-' {
        0
    } else {
        1 + first_dash(s.drop_first())
    }
}

proof fn lemma_first_dash_at(s: Seq<char>, k: int)
    requires
        0 <= k <= s.len(),
        forall|j: int| 0 <= j < k ==> s[j] != '-',
        k < s.len() ==> s[k] == '-',
    ensures
        first_dash(s) == k,
    decreases s.len(),
{
    if s.len() > 0 && k > 0 {
        assert forall|j: int| 0 <= j < k - 1 implies s.drop_first()[j] != '-' by {
            assert(s.drop_first()[j] == s[j + 1]);
        }
        lemma_first_dash_at(s.drop_first(), k - 1);
    }
}

/// The text before the first `-`, and the text between the first and the
/// second `-` (empty when there is no `-`).
pub open spec fn dash_fields(s: Seq<char>) -> (Seq<char>, Seq<char>) {
    let a = first_dash(s);
    if a >= s.len() {
        (s, Seq::empty())
    } else {
        let rest = s.subrange(a + 1, s.len() as int);
        (s.take(a), rest.take(first_dash(rest)))
    }
}

/// Index of the first `c` at or after `from` in `cs`, or its length.
fn find_char(cs: &Vec<char>, c: char, from: usize) -> (r: usize)
    requires
        from <= cs@.len(),
    ensures
        from <= r <= cs@.len(),
        forall|j: int| from <= j < r ==> cs@[j] != c,
        r < cs@.len() ==> cs@[r as int] == c,
{
    let mut k = from;
    while k < cs.len() && cs[k] != c
        invariant
            from <= k <= cs@.len(),
            forall|j: int| from <= j < k ==> cs@[j] != c,
        decreases cs@.len() - k,
    {
        k = k + 1;
    }
    k
}

fn char_range(cs: &Vec<char>, from: usize, to: usize) -> (s: String)
    requires
        from <= to <= cs@.len(),
    ensures
        s@ == cs@.subrange(from as int, to as int),
{
    let mut out: Vec<char> = Vec::new();
    let mut q = from;
    while q < to
        invariant
            from <= q <= to,
            to <= cs@.len(),
            out@ == cs@.subrange(from as int, q as int),
        decreases to - q,
    {
        out.push(cs[q]);
        q = q + 1;
        assert(out@ =~= cs@.subrange(from as int, q as int));
    }
    string_of_chars(&out)
}

/// Splits a pin id such as "U5300-A7" into its part and pin number.
fn split_pin_id(id: &str) -> (r: (String, String))
    ensures
        (r.0@, r.1@) == dash_fields(id@),
{
    let cs = chars_of(id);
    let a = find_char(&cs, '-', 0);
    proof {
        lemma_first_dash_at(id@, a as int);
    }
    if a == cs.len() {
        assert(id@.take(a as int) =~= id@);
        return (char_range(&cs, 0, a), String::new());
    }
    let b = find_char(&cs, '-', a + 1);
    let first = char_range(&cs, 0, a);
    let second = char_range(&cs, a + 1, b);
    proof {
        let rest = id@.subrange(a + 1, id@.len() as int);
        assert forall|j: int| 0 <= j < b - a - 1 implies rest[j] != '-' by {
            assert(rest[j] == cs@[a + 1 + j]);
        }
        lemma_first_dash_at(rest, b - a - 1);
        assert(rest.take(b - a - 1) =~= cs@.subrange(a + 1, b as int));
        assert(id@.take(a as int) =~= cs@.subrange(0, a as int));
    }
    (first, second)
}

/// Kinds of record lines; the first match in this order wins.
pub open spec fn cad_record(l: Seq<u8>) -> u8 {
    if starts(l, "COMP".spec_bytes()) {
        1
    } else if starts(l, "C_PIN".spec_bytes()) {
        2
    } else if starts(l, "NET ".spec_bytes()) {
        3
    } else if starts(l, "N_VIA".spec_bytes()) {
        4
    } else {
        0
    }
}

pub open spec fn starts(l: Seq<u8>, t: Seq<u8>) -> bool {
    t.len() <= l.len() && l.take(t.len() as int) == t
}

fn cad_record_of(l: &[u8]) -> (r: u8)
    ensures
        r == cad_record(l@),
{
    if line_starts(l, "COMP") {
        1
    } else if line_starts(l, "C_PIN") {
        2
    } else if line_starts(l, "NET ") {
        3
    } else if line_starts(l, "N_VIA") {
        4
    } else {
        0
    }
}

/// What reading the lines collects: whether a pin named an unknown part
/// (reading stops there), whether any part or pin was seen, the net of the
/// latest `NET` record, and the records in order.
pub struct CadScan {
    pub err: bool,
    pub any: bool,
    pub net: Seq<char>,
    pub parts: Seq<PartSpec>,
    pub pins: Seq<PinSpec>,
    pub nails: Seq<NailSpec>,
}

pub open spec fn cad_start() -> CadScan {
    CadScan {
        err: false,
        any: false,
        net: Seq::empty(),
        parts: Seq::empty(),
        pins: Seq::empty(),
        nails: Seq::empty(),
    }
}

/// A `COMP` record: kind, name, part number, two unused fields, x, y and
/// the side ("1" is the top).
pub open spec fn cad_comp(l: Seq<u8>) -> PartSpec {
    let a1 = after_token(l, 0);
    let a2 = after_token(l, a1);
    let a3 = after_token(l, a2);
    let a4 = after_token(l, a3);
    let a5 = after_token(l, a4);
    let a6 = after_token(l, a5);
    let a7 = after_token(l, a6);
    PartSpec {
        name: token_at(l, a1),
        side: if token_at(l, a7) == "1"@ { Side::Top } else { Side::Bottom },
        mfg_code: None,
        value: None,
        package: None,
    }
}

/// A `C_PIN` record: kind, "PART-PIN" id, x and y in inches, three unused
/// numbers, an unused field, the net.
pub open spec fn cad_pin_line(l: Seq<u8>) -> (Seq<char>, Point, Seq<char>) {
    let a1 = after_token(l, 0);
    let a2 = after_token(l, a1);
    let (p3, x) = scaled_read(l, a2, 6);
    let (p4, y) = scaled_read(l, p3, 6);
    let p5 = scaled_read(l, p4, 0).0;
    let p6 = scaled_read(l, p5, 0).0;
    let p7 = scaled_read(l, p6, 0).0;
    let p8 = after_token(l, p7);
    (token_at(l, a1), Point { x, y }, cleaned_net(token_at(l, p8)))
}

/// An `N_VIA` record: kind, x and y in inches, an unused field, the side
/// (exactly 1 is the top), on the net of the latest `NET` record.
pub open spec fn cad_via(l: Seq<u8>, net: Seq<char>) -> NailSpec {
    let a1 = after_token(l, 0);
    let (p2, x) = scaled_read(l, a1, 6);
    let (p3, y) = scaled_read(l, p2, 6);
    let p4 = after_token(l, p3);
    NailSpec {
        pos: Point { x, y },
        side: if scaled_read(l, p4, 15).1 == 1_000_000_000_000_000i64 { Side::Top } else { Side::Bottom },
        probe: 0,
        net,
    }
}

/// One trimmed line.
pub open spec fn cad_apply(s: CadScan, l: Seq<u8>) -> CadScan {
    let k = cad_record(l);
    if s.err || l.len() == 0 {
        s
    } else if k == 1 {
        CadScan { parts: s.parts.push(cad_comp(l)), any: true, ..s }
    } else if k == 2 {
        let f = cad_pin_line(l);
        let ids = dash_fields(f.0);
        let idx = last_named(s.parts, ids.0);
        if idx < 0 {
            CadScan { err: true, ..s }
        } else {
            CadScan {
                pins: s.pins.push(
                    PinSpec {
                        part: idx,
                        number: ids.1,
                        name: Seq::empty(),
                        pos: f.1,
                        radius: DEFAULT_RADIUS,
                        side: s.parts[idx].side,
                        net: f.2,
                    },
                ),
                any: true,
                ..s
            }
        }
    } else if k == 3 {
        CadScan { net: cleaned_net(token_at(l, after_token(l, 0))), ..s }
    } else if k == 4 {
        CadScan { nails: s.nails.push(cad_via(l, s.net)), ..s }
    } else {
        s
    }
}

pub open spec fn cad_scan(lines: Seq<Seq<u8>>) -> CadScan
    decreases lines.len(),
{
    if lines.len() == 0 {
        cad_start()
    } else {
        cad_apply(cad_scan(lines.drop_last()), trimmed(lines.last()))
    }
}

struct CadState {
    any: bool,
    net: String,
    parts: Vec<PartRec>,
    pins: Vec<PinRec>,
    nails: Vec<RawNail>,
}

spec fn cad_rel(st: CadState, s: CadScan) -> bool {
    &&& !s.err
    &&& st.any == s.any
    &&& st.net@ == s.net
    &&& st.parts@.map_values(|p: PartRec| part_spec(p)) == s.parts
    &&& st.pins@.map_values(|p: PinRec| pin_spec(p)) == s.pins
    &&& st.nails@.map_values(|n: RawNail| nail_spec(n)) == s.nails
    &&& forall|j: int| 0 <= j < st.pins@.len() ==> (#[trigger] st.pins@[j]).part < st.parts@.len()
}

fn read_comp(line: &[u8]) -> (p: PartRec)
    ensures
        part_spec(p) == cad_comp(line@),
{
    let mut c = Cursor::new(line);
    let _kind = c.read_token();
    let name = c.read_token();
    let _part_nr = c.read_token();
    let _u1 = c.read_token();
    let _u2 = c.read_token();
    let _x = c.read_token();
    let _y = c.read_token();
    let loc = c.read_token();
    let side = if same_text(loc.as_str(), "1") {
        Side::Top
    } else {
        Side::Bottom
    };
    PartRec { name, side, mfg_code: None, value: None, package: None }
}

fn read_pin_line(line: &[u8]) -> (r: (String, Point, String))
    ensures
        (r.0@, r.1, r.2@) == cad_pin_line(line@),
{
    let mut c = Cursor::new(line);
    let _kind = c.read_token();
    let pin_id = c.read_token();
    let x = c.read_scaled(6);
    let y = c.read_scaled(6);
    let _u1 = c.read_scaled(0);
    let _u2 = c.read_scaled(0);
    let _u3 = c.read_scaled(0);
    let _u4 = c.read_token();
    let net = clean_net(c.read_token());
    (pin_id, Point { x, y }, net)
}

fn read_via(line: &[u8], net: &String) -> (n: RawNail)
    ensures
        nail_spec(n) == cad_via(line@, net@),
{
    let mut c = Cursor::new(line);
    let _kind = c.read_token();
    let x = c.read_scaled(6);
    let y = c.read_scaled(6);
    let _s = c.read_token();
    let side = if c.read_scaled(15) == 1_000_000_000_000_000i64 {
        Side::Top
    } else {
        Side::Bottom
    };
    RawNail { pos: Point { x, y }, side, net: net.clone(), probe: 0 }
}

/// Handles one trimmed line; when a pin names an unknown part, gives back
/// that name.
fn cad_line(st: &mut CadState, line: &[u8], Ghost(s): Ghost<CadScan>) -> (r: Result<(), String>)
    requires
        cad_rel(*old(st), s),
    ensures
        r is Ok <==> !cad_apply(s, line@).err,
        r is Ok ==> cad_rel(*final(st), cad_apply(s, line@)),
{
    if line.len() == 0 {
        return Ok(());
    }
    let kind = cad_record_of(line);
    if kind == 1 {
        let part = read_comp(line);
        st.parts.push(part);
        st.any = true;
        proof {
            assert(st.parts@.map_values(|p: PartRec| part_spec(p)) =~= s.parts.push(cad_comp(line@)));
        }
    } else if kind == 2 {
        let (pin_id, pos, net) = read_pin_line(line);
        let (part_name, number) = split_pin_id(pin_id.as_str());
        let part = match find_part(&st.parts, part_name.as_str()) {
            Some(k) => k,
            None => {
                return Err(part_name);
            },
        };
        let side = st.parts[part].side;
        proof {
            assert(s.parts[part as int] == part_spec(st.parts@[part as int]));
        }
        let ghost before = st.pins@;
        st.pins.push(PinRec { part, number, name: String::new(), pos, radius: DEFAULT_RADIUS, side, net });
        st.any = true;
        proof {
            reveal_strlit("");
            let t = cad_apply(s, line@);
            assert(st.pins@.map_values(|p: PinRec| pin_spec(p)) =~= t.pins);
            assert forall|j: int| 0 <= j < st.pins@.len() implies (#[trigger] st.pins@[j]).part < st.parts@.len() by {
                if j < before.len() {
                    assert(st.pins@[j] == before[j]);
                }
            }
        }
    } else if kind == 3 {
        let mut c = Cursor::new(line);
        let _kind = c.read_token();
        st.net = clean_net(c.read_token());
    } else if kind == 4 {
        let nail = read_via(line, &st.net);
        st.nails.push(nail);
        proof {
            assert(st.nails@.map_values(|n: RawNail| nail_spec(n)) =~= s.nails.push(cad_via(line@, s.net)));
        }
    }
    Ok(())
}

/// Parses a Samsung `.cad` file.
pub fn parse(bytes: &[u8]) -> (r: Result<BoardModel, ParseError>)
    ensures
        ({
            let s = cad_scan(stringfile_lines(bytes@));
            &&& s.err ==> fails_malformed(r)
            &&& !s.err && !s.any ==> fails_unrecognized(r)
            &&& !s.err && s.any ==> (r is Ok <==> board_fits(
                s.parts.len() as int,
                s.pins.len() as int,
                s.nails.len() as int,
            ))
            &&& !s.err && s.any && r is Err ==> fails_malformed(r)
            &&& r is Ok ==> records_model(r->Ok_0, BoardFormat::Cad, Seq::empty(), s.parts, s.pins, s.nails, true)
        }),
{
    let lines = split_lines(bytes);
    let ghost all = lines@.map_values(|l: &[u8]| l@);
    let mut st = CadState {
        any: false,
        net: String::new(),
        parts: Vec::new(),
        pins: Vec::new(),
        nails: Vec::new(),
    };
    let ghost mut s = cad_start();
    proof {
        reveal_strlit("");
        assert(st.parts@.map_values(|p: PartRec| part_spec(p)) =~= Seq::<PartSpec>::empty());
        assert(st.pins@.map_values(|p: PinRec| pin_spec(p)) =~= Seq::<PinSpec>::empty());
        assert(st.nails@.map_values(|n: RawNail| nail_spec(n)) =~= Seq::<NailSpec>::empty());
    }
    let mut i: usize = 0;
    assert(all.take(0) =~= Seq::<Seq<u8>>::empty());
    while i < lines.len()
        invariant
            all == lines@.map_values(|l: &[u8]| l@),
            all == stringfile_lines(bytes@),
            i <= lines@.len(),
            s == cad_scan(all.take(i as int)),
            cad_rel(st, s),
        decreases lines@.len() - i,
    {
        let line = ltrim(lines[i]);
        let ghost prev = s;
        proof {
            assert(all.take(i + 1).drop_last() =~= all.take(i as int));
            assert(all.take(i + 1).last() == lines@[i as int]@);
            s = cad_apply(prev, trimmed(lines@[i as int]@));
        }
        if let Err(part) = cad_line(&mut st, line, Ghost(prev)) {
            proof {
                lemma_cad_err_sticks(all, i + 1);
            }
            return Err(ParseError::Malformed(concat_str("C_PIN references unknown part ", part.as_str())));
        }
        i = i + 1;
    }
    assert(all.take(i as int) =~= all);
    if !st.any {
        return Err(ParseError::Unrecognized);
    }
    assemble(BoardFormat::Cad, &Vec::new(), &st.parts, &st.pins, &st.nails, true)
}

/// Once a pin names an unknown part, later lines change nothing.
proof fn lemma_cad_err_sticks(lines: Seq<Seq<u8>>, i: int)
    requires
        0 <= i <= lines.len(),
        cad_scan(lines.take(i)).err,
    ensures
        cad_scan(lines).err,
    decreases lines.len() - i,
{
    if i < lines.len() {
        assert(lines.take(i + 1).drop_last() =~= lines.take(i));
        lemma_cad_err_sticks(lines, i + 1);
    } else {
        assert(lines.take(i) =~= lines);
    }
}

} // verus!
