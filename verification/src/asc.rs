//! PADS-derived `.asc` dumps, a *directory* format: `format.asc` (outline),
//! `pins.asc` (parts + pins), `nails.asc` (test probes), each with fixed
//! header-line counts. The entry file can be any of them; the caller hands
//! over the siblings' bytes so the parser stays filesystem-agnostic. The
//! record lines are those of the Toptest sections.

use vstd::prelude::*;
use vstd::string::StringSliceAdditionalSpecFns;
use crate::text::{ltrim, split_lines, stringfile_lines, trimmed, line_starts, RawNail};
use crate::bdv::{bdv_point, bdv_part, bdv_pin_line, bdv_nail, starts, read_point, read_part, read_pin_line, read_nail};
use crate::builder::polyline_segments;
use crate::model::{BoardModel, BoardFormat, Point, Side, DEFAULT_RADIUS};
use crate::parsers::{ParseContext, ParseError, malformed, fails_malformed, fails_io, board_fits};
use crate::records::{
    assemble, records_model, part_spec, pin_spec, nail_spec, polyline_of, PartRec, PinRec, PartSpec, PinSpec,
    NailSpec,
};

verus! {

/// What reading one of the files collects: whether its first non-empty
/// line (a header) is still to come, how many lines after it are still to
/// be skipped, whether a part was seen and the side of the latest, and the
/// records in order. `kind` is 1 for `format.asc`, 2 for `pins.asc`, 3
/// for `nails.asc`.
pub struct AscScan {
    pub first: bool,
    pub skip: nat,
    pub has_part: bool,
    pub side: Side,
    pub outline: Seq<Point>,
    pub parts: Seq<PartSpec>,
    pub pins: Seq<PinSpec>,
    pub nails: Seq<NailSpec>,
}

pub open spec fn asc_start() -> AscScan {
    AscScan {
        first: true,
        skip: 0,
        has_part: false,
        side: Side::Top,
        outline: Seq::empty(),
        parts: Seq::empty(),
        pins: Seq::empty(),
        nails: Seq::empty(),
    }
}

/// One trimmed line of a file of kind `kind`. The header skips the next
/// seven lines (six in `nails.asc`); pin lines before any part are
/// ignored.
pub open spec fn asc_apply(s: AscScan, l: Seq<u8>, kind: u8) -> AscScan {
    if s.skip > 0 {
        AscScan { skip: (s.skip - 1) as nat, ..s }
    } else if l.len() == 0 {
        s
    } else if s.first {
        AscScan { first: false, skip: if kind == 3 { 6 } else { 7 }, ..s }
    } else if kind == 1 {
        AscScan { outline: s.outline.push(bdv_point(l)), ..s }
    } else if kind == 2 {
        if starts(l, "Part".spec_bytes()) {
            let p = bdv_part(l);
            AscScan { parts: s.parts.push(p), has_part: true, side: p.side, ..s }
        } else if s.has_part {
            let f = bdv_pin_line(l);
            AscScan {
                pins: s.pins.push(
                    PinSpec {
                        part: s.parts.len() - 1,
                        number: f.0,
                        name: Seq::empty(),
                        pos: f.1,
                        radius: DEFAULT_RADIUS,
                        side: s.side,
                        net: f.2,
                    },
                ),
                ..s
            }
        } else {
            s
        }
    } else {
        AscScan { nails: s.nails.push(bdv_nail(l)), ..s }
    }
}

pub open spec fn asc_scan(lines: Seq<Seq<u8>>, kind: u8) -> AscScan
    decreases lines.len(),
{
    if lines.len() == 0 {
        asc_start()
    } else {
        asc_apply(asc_scan(lines.drop_last(), kind), trimmed(lines.last()), kind)
    }
}

/// The records of a sibling file, read as kind `kind`.
pub open spec fn asc_file(data: Seq<u8>, kind: u8) -> AscScan {
    asc_scan(stringfile_lines(data), kind)
}

struct AscState {
    first: bool,
    skip: usize,
    has_part: bool,
    side: Side,
    outline: Vec<Point>,
    parts: Vec<PartRec>,
    pins: Vec<PinRec>,
    nails: Vec<RawNail>,
}

spec fn asc_rel(st: AscState, s: AscScan) -> bool {
    &&& st.first == s.first
    &&& st.skip == s.skip
    &&& st.has_part == s.has_part
    &&& st.side == s.side
    &&& st.has_part ==> st.parts@.len() > 0
    &&& st.outline@ == s.outline
    &&& st.parts@.map_values(|p: PartRec| part_spec(p)) == s.parts
    &&& st.pins@.map_values(|p: PinRec| pin_spec(p)) == s.pins
    &&& st.nails@.map_values(|n: RawNail| nail_spec(n)) == s.nails
    &&& forall|j: int| 0 <= j < st.pins@.len() ==> (#[trigger] st.pins@[j]).part < st.parts@.len()
}

fn asc_line(st: &mut AscState, line: &[u8], kind: u8, Ghost(s): Ghost<AscScan>)
    requires
        asc_rel(*old(st), s),
        1 <= kind <= 3,
    ensures
        asc_rel(*final(st), asc_apply(s, line@, kind)),
{
    if st.skip > 0 {
        st.skip = st.skip - 1;
        return;
    }
    if line.len() == 0 {
        return;
    }
    if st.first {
        st.first = false;
        st.skip = if kind == 3 {
            6
        } else {
            7
        };
    } else if kind == 1 {
        let p = read_point(line);
        st.outline.push(p);
    } else if kind == 2 {
        if line_starts(line, "Part") {
            let p = read_part(line);
            st.side = p.side;
            st.parts.push(p);
            st.has_part = true;
            proof {
                assert(st.parts@.map_values(|p: PartRec| part_spec(p)) =~= s.parts.push(bdv_part(line@)));
            }
        } else if st.has_part {
            let (number, pos, net) = read_pin_line(line);
            let ghost before = st.pins@;
            let part = st.parts.len() - 1;
            st.pins.push(PinRec { part, number, name: String::new(), pos, radius: DEFAULT_RADIUS, side: st.side, net });
            proof {
                reveal_strlit("");
                assert(st.pins@.map_values(|p: PinRec| pin_spec(p)) =~= asc_apply(s, line@, kind).pins);
                assert forall|j: int| 0 <= j < st.pins@.len() implies (#[trigger] st.pins@[j]).part < st.parts@.len() by {
                    if j < before.len() {
                        assert(st.pins@[j] == before[j]);
                    }
                }
            }
        }
    } else {
        let n = read_nail(line);
        st.nails.push(n);
        proof {
            assert(st.nails@.map_values(|n: RawNail| nail_spec(n)) =~= s.nails.push(bdv_nail(line@)));
        }
    }
}

/// Reads one of the files.
fn scan_file(data: &[u8], kind: u8) -> (st: AscState)
    requires
        1 <= kind <= 3,
    ensures
        asc_rel(st, asc_file(data@, kind)),
{
    let lines = split_lines(data);
    let ghost all = lines@.map_values(|l: &[u8]| l@);
    let mut st = AscState {
        first: true,
        skip: 0,
        has_part: false,
        side: Side::Top,
        outline: Vec::new(),
        parts: Vec::new(),
        pins: Vec::new(),
        nails: Vec::new(),
    };
    let ghost mut s = asc_start();
    proof {
        assert(st.parts@.map_values(|p: PartRec| part_spec(p)) =~= Seq::<PartSpec>::empty());
        assert(st.pins@.map_values(|p: PinRec| pin_spec(p)) =~= Seq::<PinSpec>::empty());
        assert(st.nails@.map_values(|n: RawNail| nail_spec(n)) =~= Seq::<NailSpec>::empty());
    }
    let mut i: usize = 0;
    assert(all.take(0) =~= Seq::<Seq<u8>>::empty());
    while i < lines.len()
        invariant
            all == lines@.map_values(|l: &[u8]| l@),
            all == stringfile_lines(data@),
            1 <= kind <= 3,
            i <= lines@.len(),
            s == asc_scan(all.take(i as int), kind),
            asc_rel(st, s),
        decreases lines@.len() - i,
    {
        let line = ltrim(lines[i]);
        let ghost prev = s;
        proof {
            assert(all.take(i + 1).drop_last() =~= all.take(i as int));
            assert(all.take(i + 1).last() == lines@[i as int]@);
            s = asc_apply(prev, trimmed(lines@[i as int]@), kind);
        }
        asc_line(&mut st, line, kind, Ghost(prev));
        i = i + 1;
    }
    assert(all.take(i as int) =~= all);
    st
}

/// The outline of `format.asc`, if there is one.
pub open spec fn asc_outline(f: Option<Vec<u8>>) -> Seq<(Point, Point)> {
    match f {
        Some(d) => polyline_segments(asc_file(d@, 1).outline),
        None => Seq::empty(),
    }
}

/// The probes of `nails.asc`, if there is one.
pub open spec fn asc_nails(f: Option<Vec<u8>>) -> Seq<NailSpec> {
    match f {
        Some(d) => asc_file(d@, 3).nails,
        None => Seq::empty(),
    }
}

/// Parses the ASC directory format from the siblings in `ctx`; the entry
/// file itself stands for whichever sibling it is.
pub fn parse(entry: &[u8], ctx: &ParseContext) -> (r: Result<BoardModel, ParseError>)
    ensures
        match ctx.siblings {
            None => fails_io(r),
            Some(sib) => match sib.pins {
                None => fails_io(r),
                Some(pd) => {
                    let ps = asc_file(pd@, 2);
                    let nails = asc_nails(sib.nails);
                    &&& ps.parts.len() == 0 ==> fails_malformed(r)
                    &&& ps.parts.len() > 0 ==> (r is Ok <==> board_fits(
                        ps.parts.len() as int,
                        ps.pins.len() as int,
                        nails.len() as int,
                    ))
                    &&& r is Err ==> fails_malformed(r)
                    &&& r is Ok ==> records_model(
                        r->Ok_0,
                        BoardFormat::Asc,
                        asc_outline(sib.format),
                        ps.parts,
                        ps.pins,
                        nails,
                        true,
                    )
                },
            },
        },
{
    let siblings = match &ctx.siblings {
        Some(s) => s,
        None => {
            return Err(ParseError::Io(
                "ASC directory format needs sibling files (format/pins/nails.asc)".to_owned(),
            ));
        },
    };
    let pins_data = match &siblings.pins {
        Some(d) => d,
        None => {
            return Err(ParseError::Io("pins.asc not found next to the .asc file".to_owned()));
        },
    };
    let outline = match &siblings.format {
        Some(data) => {
            let f = scan_file(data.as_slice(), 1);
            polyline_of(&f.outline)
        },
        None => Vec::new(),
    };
    let p = scan_file(pins_data.as_slice(), 2);
    let nails = match &siblings.nails {
        Some(data) => scan_file(data.as_slice(), 3).nails,
        None => Vec::new(),
    };
    proof {
        assert(nails@.map_values(|n: RawNail| nail_spec(n)) =~= asc_nails(siblings.nails));
        assert(outline@ =~= asc_outline(siblings.format));
    }
    if p.parts.len() == 0 {
        return Err(malformed("pins.asc contained no parts"));
    }
    assemble(BoardFormat::Asc, &outline, &p.parts, &p.pins, &nails, true)
}

} // verus!
