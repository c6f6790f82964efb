//! Shared plumbing for the line-oriented formats: line splitting, leading
//! whitespace trimming, substring search, decimal formatting, and the
//! conversion of test-probe records ("nails") into test-pad pins.

use vstd::prelude::*;
use vstd::string::StringSliceAdditionalSpecFns;
use crate::builder::{BoardBuilder, stored_pin, names_net, nets_extend, lemma_names_net_stable};
use crate::model::{Part, Pin, Point, Side, NO_NET, DEFAULT_RADIUS, UNITS_PER_MIL, clamp64, sat_mul, same_part_attrs, same_parts_attrs};

verus! {

pub open spec fn is_line_break(b: u8) -> bool {
    b == 13u8 || b == 10u8
}

/// Index of the first line break in `s`, or `s.len()` when there is none.
pub open spec fn first_break(s: Seq<u8>) -> int
    decreases s.len(),
{
    if s.len() == 0 {
        0
    } else if is_line_break(s[0]) {
        0
    } else {
        1 + first_break(s.drop_first())
    }
}

/// Boardview text line splitting: a `\r` or `\n` ends a line,
/// and one immediately following `\r` or `\n` is swallowed with it.
pub open spec fn stringfile_lines(s: Seq<u8>) -> Seq<Seq<u8>>
    decreases s.len(),
{
    if s.len() == 0 {
        Seq::empty()
    } else {
        let k = first_break(s);
        proof {
            lemma_first_break(s);
        }
        if k >= s.len() {
            seq![s]
        } else {
            let next = if k + 1 < s.len() && is_line_break(s[k + 1]) { k + 2 } else { k + 1 };
            seq![s.take(k)] + stringfile_lines(s.subrange(next, s.len() as int))
        }
    }
}

pub proof fn lemma_first_break(s: Seq<u8>)
    ensures
        0 <= first_break(s) <= s.len(),
        forall|j: int| 0 <= j < first_break(s) ==> !is_line_break(#[trigger] s[j]),
        first_break(s) < s.len() ==> is_line_break(s[first_break(s)]),
    decreases s.len(),
{
    if s.len() > 0 && !is_line_break(s[0]) {
        lemma_first_break(s.drop_first());
        assert forall|j: int| 0 <= j < first_break(s) implies !is_line_break(#[trigger] s[j]) by {
            if j > 0 {
                assert(s[j] == s.drop_first()[j - 1]);
            }
        }
    }
}

proof fn lemma_first_break_at(s: Seq<u8>, k: int)
    requires
        0 <= k <= s.len(),
        forall|j: int| 0 <= j < k ==> !is_line_break(#[trigger] s[j]),
        k < s.len() ==> is_line_break(s[k]),
    ensures
        first_break(s) == k,
{
    lemma_first_break(s);
    if first_break(s) < k {
        assert(!is_line_break(s[first_break(s)]));
    }
    if first_break(s) > k {
        assert(!is_line_break(s[k]));
    }
}

/// Splits a buffer into lines (see `stringfile_lines`).
pub fn split_lines<'a>(buf: &'a [u8]) -> (lines: Vec<&'a [u8]>)
    ensures
        lines@.map_values(|l: &[u8]| l@) == stringfile_lines(buf@),
{
    let mut lines: Vec<&'a [u8]> = Vec::new();
    let mut start: usize = 0;
    let mut i: usize = 0;
    assert(buf@.subrange(0, buf@.len() as int) =~= buf@);
    assert(lines@.map_values(|l: &[u8]| l@) =~= Seq::<Seq<u8>>::empty());
    while i < buf.len()
        invariant
            start <= i <= buf@.len(),
            forall|j: int| start <= j < i ==> !is_line_break(#[trigger] buf@[j]),
            stringfile_lines(buf@) == lines@.map_values(|l: &[u8]| l@) + stringfile_lines(
                buf@.subrange(start as int, buf@.len() as int),
            ),
        decreases buf@.len() - i,
    {
        let b = buf[i];
        if b == 13u8 || b == 10u8 {
            let ghost rest = buf@.subrange(start as int, buf@.len() as int);
            proof {
                lemma_first_break_at(rest, i - start);
            }
            let line = &buf[start..i];
            let ghost before = lines@;
            lines.push(line);
            i = i + 1;
            if i < buf.len() && (buf[i] == 13u8 || buf[i] == 10u8) {
                i = i + 1;
            }
            proof {
                let k = (i - start) as int;
                assert(rest.take(first_break(rest)) =~= line@);
                assert(rest.subrange(
                    if first_break(rest) + 1 < rest.len() && is_line_break(rest[first_break(rest) + 1]) {
                        first_break(rest) + 2
                    } else {
                        first_break(rest) + 1
                    },
                    rest.len() as int,
                ) =~= buf@.subrange(i as int, buf@.len() as int));
                assert(lines@.map_values(|l: &[u8]| l@) =~= before.map_values(|l: &[u8]| l@).push(line@));
            }
            start = i;
        } else {
            i = i + 1;
        }
    }
    if start < buf.len() {
        let ghost rest = buf@.subrange(start as int, buf@.len() as int);
        proof {
            lemma_first_break_at(rest, rest.len() as int);
        }
        let ghost before = lines@;
        let line = &buf[start..buf.len()];
        lines.push(line);
        proof {
            assert(rest.take(rest.len() as int) =~= line@);
            assert(lines@.map_values(|l: &[u8]| l@) =~= before.map_values(|l: &[u8]| l@).push(line@));
            assert(stringfile_lines(rest) =~= seq![line@]);
        }
    } else {
        proof {
            assert(buf@.subrange(start as int, buf@.len() as int) =~= Seq::<u8>::empty());
        }
    }
    lines
}


/// C `isspace` in the default locale: space, tab, line feed, vertical tab,
/// form feed, carriage return.
pub open spec fn is_c_space(b: u8) -> bool {
    b == 32u8 || b == 9u8 || b == 10u8 || b == 11u8 || b == 12u8 || b == 13u8
}

/// Number of leading `isspace` bytes.
pub open spec fn leading_ws(s: Seq<u8>) -> int
    decreases s.len(),
{
    if s.len() > 0 && is_c_space(s[0]) {
        1 + leading_ws(s.drop_first())
    } else {
        0
    }
}

pub proof fn lemma_leading_ws(s: Seq<u8>)
    ensures
        0 <= leading_ws(s) <= s.len(),
        forall|j: int| 0 <= j < leading_ws(s) ==> is_c_space(#[trigger] s[j]),
        leading_ws(s) < s.len() ==> !is_c_space(s[leading_ws(s)]),
    decreases s.len(),
{
    if s.len() > 0 && is_c_space(s[0]) {
        lemma_leading_ws(s.drop_first());
        assert forall|j: int| 0 <= j < leading_ws(s) implies is_c_space(#[trigger] s[j]) by {
            if j > 0 {
                assert(s[j] == s.drop_first()[j - 1]);
            }
        }
    }
}

pub proof fn lemma_leading_ws_at(s: Seq<u8>, k: int)
    requires
        0 <= k <= s.len(),
        forall|j: int| 0 <= j < k ==> is_c_space(#[trigger] s[j]),
        k < s.len() ==> !is_c_space(s[k]),
    ensures
        leading_ws(s) == k,
{
    lemma_leading_ws(s);
    if leading_ws(s) < k {
        assert(is_c_space(s[leading_ws(s)]));
    }
    if leading_ws(s) > k {
        assert(is_c_space(s[k]));
    }
}

/// Trims leading whitespace as C `while isspace(*line) line++` does, as
/// every line-based parser does before looking at a line.
pub fn ltrim<'a>(line: &'a [u8]) -> (r: &'a [u8])
    ensures
        r@ == line@.subrange(leading_ws(line@), line@.len() as int),
{
    let mut i: usize = 0;
    while i < line.len() && (line[i] == 32u8 || line[i] == 9u8 || line[i] == 10u8 || line[i] == 11u8
        || line[i] == 12u8 || line[i] == 13u8)
        invariant
            i <= line@.len(),
            forall|j: int| 0 <= j < i ==> is_c_space(#[trigger] line@[j]),
        decreases line@.len() - i,
    {
        i = i + 1;
    }
    proof {
        lemma_leading_ws_at(line@, i as int);
    }
    &line[i..line.len()]
}

/// Does `n` occur as a contiguous run in `buf`? (An empty needle never does.)
pub open spec fn contains_run(buf: Seq<u8>, n: Seq<u8>) -> bool {
    &&& n.len() > 0
    &&& exists|i: int| 0 <= i && i + n.len() <= buf.len() && #[trigger] buf.subrange(i, i + n.len()) == n
}

/// Does `buf` hold `n` starting at `at`?
pub fn run_at(buf: &[u8], n: &[u8], at: usize) -> (r: bool)
    requires
        at + n@.len() <= buf@.len(),
    ensures
        r == (buf@.subrange(at as int, at + n@.len()) == n@),
{
    let blen = buf.len();
    let mut k: usize = 0;
    while k < n.len()
        invariant
            k <= n@.len(),
            at + n@.len() <= buf@.len(),
            blen == buf@.len(),
            forall|j: int| 0 <= j < k ==> buf@[at + j] == #[trigger] n@[j],
        decreases n@.len() - k,
    {
        if buf[at + k] != n[k] {
            assert(buf@.subrange(at as int, at + n@.len())[k as int] != n@[k as int]);
            return false;
        }
        k = k + 1;
    }
    assert(buf@.subrange(at as int, at + n@.len()) =~= n@);
    true
}

/// Substring search over raw bytes.
pub fn find_bytes(needle: &[u8], buf: &[u8]) -> (r: bool)
    ensures
        r == contains_run(buf@, needle@),
{
    let n = needle.len();
    if n == 0 || buf.len() < n {
        return false;
    }
    let mut i: usize = 0;
    while i <= buf.len() - n
        invariant
            n == needle@.len(),
            n > 0,
            n <= buf@.len(),
            i <= buf@.len() - n + 1,
            forall|j: int| 0 <= j < i ==> #[trigger] buf@.subrange(j, j + n) != needle@,
        decreases buf@.len() - i,
    {
        if run_at(buf, needle, i) {
            return true;
        }
        i = i + 1;
    }
    proof {
        assert forall|j: int| 0 <= j && j + n <= buf@.len() implies #[trigger] buf@.subrange(j, j + n) != needle@ by {
            assert(j < i);
        }
    }
    false
}

/// Substring search of a string's bytes over raw bytes.
pub fn find_in_buf(needle: &str, buf: &[u8]) -> (r: bool)
    ensures
        r == contains_run(buf@, needle.spec_bytes()),
{
    find_bytes(needle.as_bytes(), buf)
}

/// Decimal digits of a natural number, most significant first.
pub open spec fn nat_digits(n: nat) -> Seq<char>
    decreases n,
{
    if n < 10 {
        seq![((n as int) + 48) as char]
    } else {
        nat_digits(n / 10) + seq![(((n % 10) as int) + 48) as char]
    }
}

/// An integer written in decimal, as `to_string` writes it.
pub open spec fn int_decimal(v: int) -> Seq<char> {
    if v < 0 {
        seq!['-'] + nat_digits((-v) as nat)
    } else {
        nat_digits(v as nat)
    }
}

fn digits_of(n: u64) -> (v: Vec<char>)
    ensures
        v@ == nat_digits(n as nat),
    decreases n,
{
    if n < 10 {
        let c = ((n as u8) + 48u8) as char;
        vec![c]
    } else {
        let mut v = digits_of(n / 10);
        let c = (((n % 10) as u8) + 48u8) as char;
        v.push(c);
        v
    }
}

/// `i64::to_string`.
pub fn decimal_string(v: i64) -> (s: String)
    ensures
        s@ == int_decimal(v as int),
{
    let mag: u64 = if v < 0 {
        if v == i64::MIN {
            0x8000_0000_0000_0000u64
        } else {
            (-v) as u64
        }
    } else {
        v as u64
    };
    let digits = digits_of(mag);
    let mut out: Vec<char> = Vec::new();
    if v < 0 {
        out.push('-');
    }
    let mut k: usize = 0;
    while k < digits.len()
        invariant
            k <= digits@.len(),
            out@ == (if v < 0 { seq!['-'] } else { Seq::<char>::empty() }) + digits@.take(k as int),
        decreases digits@.len() - k,
    {
        out.push(digits[k]);
        k = k + 1;
        assert(out@ =~= (if v < 0 { seq!['-'] } else { Seq::<char>::empty() }) + digits@.take(k as int));
    }
    assert(digits@.take(k as int) =~= digits@);
    assert(out@ =~= int_decimal(v as int));
    crate::strs::string_of_chars(&out)
}

/// A test-probe point ("nail") collected during parsing.
pub struct RawNail {
    pub pos: Point,
    pub side: Side,
    pub net: String,
    pub probe: i64,
}

/// One of the synthetic "..." parts that group test pads.
pub open spec fn is_nail_group(p: Part, side: Side) -> bool {
    &&& p.refdes@ == "..."@
    &&& p.mfg_code is None
    &&& p.value is None
    &&& p.package is None
    &&& p.side == side
    &&& p.is_dummy
}

/// The test-pad pin a nail at `pos` on `side`, with probe number `probe`
/// and raw net name `net`, becomes, given the indices of the bottom and top
/// "..." parts and the nets it is checked against.
pub open spec fn nail_pin(
    pin: Pin,
    pos: Point,
    side: Side,
    probe: i64,
    net: Seq<char>,
    bottom: u32,
    top: u32,
    nets: Seq<crate::model::Net>,
) -> bool {
    &&& pin.part == (if side == Side::Bottom { bottom } else { top })
    &&& pin.side == side
    &&& pin.pos == pos
    &&& pin.radius == DEFAULT_RADIUS
    &&& pin.is_test_pad
    &&& pin.name@.len() == 0
    &&& pin.number@ == (if probe != 0 { int_decimal(probe as int) } else { Seq::empty() })
    &&& names_net(nets, pin.net, net)
}

fn nail_group(side: Side) -> (p: Part)
    ensures
        is_nail_group(p, side),
        p.pins@.len() == 0,
{
    Part {
        refdes: "...".to_owned(),
        mfg_code: None,
        value: None,
        package: None,
        side,
        pins: Vec::new(),
        is_dummy: true,
    }
}

/// Attaches nails as probe-able test-pad pins grouped under synthetic "..."
/// parts (one per side), the convention boardview renderers expect.
pub fn add_nails_as_pins(b: &mut BoardBuilder, nails: &[RawNail])
    requires
        old(b).wf(),
        old(b).model().parts@.len() + 3 < NO_NET,
        old(b).model().pins@.len() + nails@.len() + 1 < NO_NET,
        old(b).model().nets@.len() + nails@.len() + 1 < NO_NET,
    ensures
        final(b).wf(),
        nails@.len() == 0 ==> final(b).model() == old(b).model(),
        nails@.len() > 0 ==> {
            let np = old(b).model().parts@.len();
            &&& final(b).model().parts@.len() == np + 2
            &&& forall|p: int| 0 <= p < np ==> same_part_attrs(#[trigger] final(b).model().parts@[p], old(b).model().parts@[p])
            &&& is_nail_group(final(b).model().parts@[np as int], Side::Bottom)
            &&& is_nail_group(final(b).model().parts@[np + 1int], Side::Top)
        },
        final(b).model().pins@.len() == old(b).model().pins@.len() + nails@.len(),
        forall|k: int| 0 <= k < old(b).model().pins@.len() ==> #[trigger] final(b).model().pins@[k] == old(b).model().pins@[k],
        forall|k: int| 0 <= k < nails@.len() ==> nail_pin(
            #[trigger] final(b).model().pins@[old(b).model().pins@.len() + k],
            nails@[k].pos,
            nails@[k].side,
            nails@[k].probe,
            nails@[k].net@,
            old(b).model().parts@.len() as u32,
            (old(b).model().parts@.len() + 1) as u32,
            final(b).model().nets@,
        ),
        nets_extend(old(b).model().nets@, final(b).model().nets@),
        final(b).model().nets@.len() <= old(b).model().nets@.len() + nails@.len(),
        final(b).model().format_label@ == old(b).model().format_label@,
        final(b).model().outline@ == old(b).model().outline@,
        final(b).model().warnings@ == old(b).model().warnings@,
{
    if nails.len() == 0 {
        return;
    }
    let ghost m0 = b.model();
    let bottom_part = b.add_part(nail_group(Side::Bottom));
    let top_part = b.add_part(nail_group(Side::Top));
    let ghost m1 = b.model();
    let mut k: usize = 0;
    while k < nails.len()
        invariant
            b.wf(),
            k <= nails@.len(),
            bottom_part == m0.parts@.len(),
            top_part == m0.parts@.len() + 1,
            m1.parts@.len() == m0.parts@.len() + 2,
            forall|p: int| 0 <= p < m0.parts@.len() ==> #[trigger] m1.parts@[p] == m0.parts@[p],
            is_nail_group(m1.parts@[m0.parts@.len() as int], Side::Bottom),
            is_nail_group(m1.parts@[m0.parts@.len() + 1int], Side::Top),
            same_parts_attrs(b.model().parts@, m1.parts@),
            b.model().pins@.len() == m0.pins@.len() + k,
            forall|j: int| 0 <= j < m0.pins@.len() ==> #[trigger] b.model().pins@[j] == m0.pins@[j],
            forall|j: int| 0 <= j < k ==> nail_pin(
                #[trigger] b.model().pins@[m0.pins@.len() + j],
                nails@[j].pos,
                nails@[j].side,
                nails@[j].probe,
                nails@[j].net@,
                bottom_part,
                top_part,
                b.model().nets@,
            ),
            nets_extend(m0.nets@, b.model().nets@),
            b.model().nets@.len() <= m0.nets@.len() + k,
            m0.parts@.len() + 3 < NO_NET,
            m0.pins@.len() + nails@.len() + 1 < NO_NET,
            m0.nets@.len() + nails@.len() + 1 < NO_NET,
            b.model().format_label@ == m0.format_label@,
            b.model().outline@ == m0.outline@,
            b.model().warnings@ == m0.warnings@,
        decreases nails@.len() - k,
    {
        let nail = &nails[k];
        let ghost nets_before = b.model().nets@;
        let ghost pins_before = b.model().pins@;
        let net = b.net_id(nail.net.as_str());
        let part = match nail.side {
            Side::Bottom => bottom_part,
            Side::Top => top_part,
            Side::Both => top_part,
        };
        let number = if nail.probe != 0 {
            decimal_string(nail.probe)
        } else {
            String::new()
        };
        let pin = Pin {
            part,
            number,
            name: String::new(),
            pos: nail.pos,
            radius: DEFAULT_RADIUS,
            side: nail.side,
            net,
            is_test_pad: true,
        };
        let ghost pin_v = pin;
        b.add_pin(pin);
        proof {
            let nets_now = b.model().nets@;
            assert(b.model().pins@[m0.pins@.len() + k] == stored_pin(pin_v));
            assert forall|j: int| 0 <= j < k + 1 implies nail_pin(
                #[trigger] b.model().pins@[m0.pins@.len() + j],
                nails@[j].pos,
                nails@[j].side,
                nails@[j].probe,
                nails@[j].net@,
                bottom_part,
                top_part,
                nets_now,
            ) by {
                if j < k {
                    assert(b.model().pins@[m0.pins@.len() + j] == pins_before[m0.pins@.len() + j]);
                    lemma_names_net_stable(nets_before, nets_now, pins_before[m0.pins@.len() + j].net, nails@[j].net@);
                }
            }
            assert forall|j: int| 0 <= j < m0.pins@.len() implies #[trigger] b.model().pins@[j] == m0.pins@[j] by {
                assert(b.model().pins@[j] == pins_before[j]);
            }
        }
        k = k + 1;
    }
}
} // verus!

verus! {

/// A line without its leading `isspace` bytes (what `ltrim` returns).
pub open spec fn trimmed(line: Seq<u8>) -> Seq<u8> {
    line.subrange(leading_ws(line), line.len() as int)
}

/// Does the trimmed line equal the given text exactly?
pub fn line_is(line: &[u8], text: &str) -> (r: bool)
    ensures
        r == (line@ == text.spec_bytes()),
{
    let t = text.as_bytes();
    if t.len() != line.len() {
        return false;
    }
    let r = run_at(line, t, 0);
    assert(line@.subrange(0, t@.len() as int) =~= line@);
    r
}

/// Does the line begin with the given text?
pub fn line_starts(line: &[u8], text: &str) -> (r: bool)
    ensures
        r == (text.spec_bytes().len() <= line@.len() && line@.take(text.spec_bytes().len() as int)
            == text.spec_bytes()),
{
    let t = text.as_bytes();
    if t.len() > line.len() {
        return false;
    }
    let r = run_at(line, t, 0);
    assert(line@.subrange(0, t@.len() as int) =~= line@.take(t@.len() as int));
    r
}

/// A whole number of mils in coordinate units, saturating.
pub open spec fn mil_units(v: i64) -> i64 {
    clamp64(v * UNITS_PER_MIL)
}

pub fn to_mil_units(v: i64) -> (r: i64)
    ensures
        r == mil_units(v),
{
    sat_mul(v, UNITS_PER_MIL)
}

} // verus!
