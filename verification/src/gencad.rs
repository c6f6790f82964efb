//! GenCAD 1.4 (`.cad` / `.gcd`), the documented industry interchange
//! format. The text handling lives here: detection, the tokenizer with
//! quoted strings, the "rest of the line" reader, and the reading of the
//! sections and their statements into records (units, outline statements,
//! pads, padstacks, shapes, components, signals, devices, vias), with the
//! device lookup and padstack sides; and the board built from the records
//! (duplicate placements, through-hole parts, pin sides, the net of each
//! pin). Numbers stay as their tokens: reading them, unit conversion,
//! rotation, mirroring and pad sizes are floating-point geometry, done by
//! the application, which hands the results to `assemble`.

use vstd::prelude::*;
use vstd::string::StringSliceAdditionalSpecFns;
use crate::text::{contains_run, find_in_buf};
use crate::strs::{chars_of, string_of_chars, is_white_space, is_white_space_char, trim_start_ws, trim_ws, trim_str, same_text};
use crate::model::{Side, Point, BoardModel, BoardFormat};
use crate::cursor::{lossy, utf8_lossy};
use crate::records::{
    opt_text, PartRec, PinRec, PartSpec, PinSpec, NailSpec, records_model, part_spec, pin_spec, nail_spec,
    assemble as records_assemble,
};
use crate::text::RawNail;
use crate::data::copy_text;
use crate::parsers::{ParseError, malformed, board_fits, fails_malformed, parsed_ok};
use crate::strs::chars_start_with;
use vstd::hash_map::StringHashMap;

verus! {

pub open spec fn gencad_signature(b: Seq<u8>) -> bool {
    contains_run(b, "GENCAD".spec_bytes()) && contains_run(b, "$HEADER".spec_bytes())
}

pub fn verify(buf: &[u8]) -> (r: bool)
    ensures
        r == gencad_signature(buf@),
{
    find_in_buf("GENCAD", buf) && find_in_buf("$HEADER", buf)
}

/// The tokenizer's state after some characters: finished tokens, the token
/// being read, and whether a double quote is open.
pub struct TokState {
    pub out: Seq<Seq<char>>,
    pub cur: Seq<char>,
    pub quoted: bool,
}

pub open spec fn tok_step(st: TokState, c: char) -> TokState {
    if c == '"' {
        TokState { quoted: !st.quoted, ..st }
    } else if is_white_space(c) && !st.quoted {
        if st.cur.len() > 0 {
            TokState { out: st.out.push(st.cur), cur: Seq::empty(), quoted: st.quoted }
        } else {
            st
        }
    } else {
        TokState { cur: st.cur.push(c), ..st }
    }
}

pub open spec fn tok_fold(s: Seq<char>) -> TokState
    decreases s.len(),
{
    if s.len() == 0 {
        TokState { out: Seq::empty(), cur: Seq::empty(), quoted: false }
    } else {
        tok_step(tok_fold(s.drop_last()), s.last())
    }
}

/// The tokens of a statement: white-space separated, except inside double
/// quotes; the quotes themselves are dropped.
pub open spec fn gencad_tokens(s: Seq<char>) -> Seq<Seq<char>> {
    let st = tok_fold(s);
    if st.cur.len() > 0 {
        st.out.push(st.cur)
    } else {
        st.out
    }
}

/// Splits a GenCAD statement into tokens; double-quoted strings (which may
/// contain spaces) form one token.
pub fn tokens(line: &str) -> (toks: Vec<String>)
    ensures
        toks@.map_values(|t: String| t@) == gencad_tokens(line@),
{
    let cs = chars_of(line);
    let mut out: Vec<String> = Vec::new();
    let mut cur: Vec<char> = Vec::new();
    let mut quoted = false;
    let mut i: usize = 0;
    assert(cs@.take(0) =~= Seq::<char>::empty());
    assert(out@.map_values(|t: String| t@) =~= Seq::<Seq<char>>::empty());
    while i < cs.len()
        invariant
            i <= cs@.len(),
            cs@ == line@,
            ({
                let st = tok_fold(cs@.take(i as int));
                &&& out@.map_values(|t: String| t@) == st.out
                &&& cur@ == st.cur
                &&& quoted == st.quoted
            }),
        decreases cs@.len() - i,
    {
        let ch = cs[i];
        proof {
            assert(cs@.take(i + 1).drop_last() =~= cs@.take(i as int));
            assert(cs@.take(i + 1).last() == ch);
        }
        if ch == '"' {
            quoted = !quoted;
        } else if is_white_space_char(ch) && !quoted {
            if cur.len() > 0 {
                let ghost before = out@.map_values(|t: String| t@);
                let w = string_of_chars(&cur);
                out.push(w);
                cur = Vec::new();
                assert(out@.map_values(|t: String| t@) =~= before.push(w@));
            }
        } else {
            cur.push(ch);
        }
        i = i + 1;
    }
    assert(cs@.take(i as int) =~= line@);
    if cur.len() > 0 {
        let ghost before = out@.map_values(|t: String| t@);
        let w = string_of_chars(&cur);
        out.push(w);
        assert(out@.map_values(|t: String| t@) =~= before.push(w@));
    }
    out
}

/// Index of the first white-space character, or the length.
pub open spec fn first_ws(s: Seq<char>) -> int
    decreases s.len(),
{
    if s.len() == 0 {
        0
    } else if is_white_space(s[0]) {
        0
    } else {
        1 + first_ws(s.drop_first())
    }
}

proof fn lemma_first_ws_at(s: Seq<char>, k: int)
    requires
        0 <= k <= s.len(),
        forall|j: int| 0 <= j < k ==> !is_white_space(s[j]),
        k < s.len() ==> is_white_space(s[k]),
    ensures
        first_ws(s) == k,
    decreases s.len(),
{
    if s.len() > 0 && k > 0 {
        assert forall|j: int| 0 <= j < k - 1 implies !is_white_space(s.drop_first()[j]) by {
            assert(s.drop_first()[j] == s[j + 1]);
        }
        lemma_first_ws_at(s.drop_first(), k - 1);
    }
}

/// `s` without its leading double quotes.
pub open spec fn strip_leading_quotes(s: Seq<char>) -> Seq<char>
    decreases s.len(),
{
    if s.len() > 0 && s[0] == '"' {
        strip_leading_quotes(s.drop_first())
    } else {
        s
    }
}

/// `s` without its trailing double quotes.
pub open spec fn strip_trailing_quotes(s: Seq<char>) -> Seq<char>
    decreases s.len(),
{
    if s.len() > 0 && s.last() == '"' {
        strip_trailing_quotes(s.drop_last())
    } else {
        s
    }
}

/// The rest of a statement after its keyword: what follows the first
/// white-space character after the (left-trimmed) keyword, trimmed, with
/// surrounding double quotes removed.
pub open spec fn rest_after(s: Seq<char>) -> Seq<char> {
    let t = trim_start_ws(s);
    let k = first_ws(t);
    let after = if k < t.len() { t.skip(k + 1) } else { Seq::empty() };
    strip_trailing_quotes(strip_leading_quotes(trim_ws(after)))
}

fn trim_start_chars(cs: &Vec<char>) -> (r: usize)
    ensures
        r <= cs@.len(),
        cs@.skip(r as int) == trim_start_ws(cs@),
{
    let mut k: usize = 0;
    assert(cs@.skip(0) =~= cs@);
    while k < cs.len() && is_white_space_char(cs[k])
        invariant
            k <= cs@.len(),
            trim_start_ws(cs@.skip(k as int)) == trim_start_ws(cs@),
        decreases cs@.len() - k,
    {
        assert(cs@.skip(k as int).drop_first() =~= cs@.skip(k + 1));
        k = k + 1;
    }
    assert(cs@.skip(0) =~= cs@);
    k
}

/// Rest of the line after the leading keyword, unquoted and trimmed;
/// signal and device names run to the end of the line in real files.
pub fn rest_after_keyword(line: &str) -> (r: String)
    ensures
        r@ == rest_after(line@),
{
    let cs = chars_of(line);
    let s0 = trim_start_chars(&cs);
    let ghost t = cs@.skip(s0 as int);
    let mut k = s0;
    while k < cs.len() && !is_white_space_char(cs[k])
        invariant
            s0 <= k <= cs@.len(),
            forall|j: int| s0 <= j < k ==> !is_white_space(cs@[j]),
        decreases cs@.len() - k,
    {
        k = k + 1;
    }
    proof {
        assert forall|j: int| 0 <= j < k - s0 implies !is_white_space(t[j]) by {
            assert(t[j] == cs@[s0 + j]);
        }
        if k < cs.len() {
            assert(t[k - s0] == cs@[k as int]);
        }
        lemma_first_ws_at(t, k - s0);
    }
    let mut after: Vec<char> = Vec::new();
    if k < cs.len() {
        let mut q = k + 1;
        while q < cs.len()
            invariant
                k + 1 <= q <= cs@.len(),
                after@ == cs@.subrange(k + 1, q as int),
            decreases cs@.len() - q,
        {
            after.push(cs[q]);
            q = q + 1;
            assert(after@ =~= cs@.subrange(k + 1, q as int));
        }
        assert(after@ =~= t.skip(k - s0 + 1));
    } else {
        assert(after@ =~= Seq::<char>::empty());
    }
    let after_s = string_of_chars(&after);
    let trimmed = trim_str(after_s.as_str());
    let ts = chars_of(trimmed);
    let mut a: usize = 0;
    assert(ts@.skip(0) =~= ts@);
    while a < ts.len() && ts[a] == '"'
        invariant
            a <= ts@.len(),
            strip_leading_quotes(ts@.skip(a as int)) == strip_leading_quotes(ts@),
        decreases ts@.len() - a,
    {
        assert(ts@.skip(a as int).drop_first() =~= ts@.skip(a + 1));
        a = a + 1;
    }
    proof {
        assert(ts@.skip(0) =~= ts@);
        assert(strip_leading_quotes(ts@.skip(a as int)) == ts@.skip(a as int));
        assert(ts@.skip(a as int) =~= ts@.subrange(a as int, ts@.len() as int));
    }
    let mut z = ts.len();
    while z > a && ts[z - 1] == '"'
        invariant
            a <= z <= ts@.len(),
            strip_trailing_quotes(ts@.subrange(a as int, z as int)) == strip_trailing_quotes(
                strip_leading_quotes(ts@),
            ),
        decreases z,
    {
        assert(ts@.subrange(a as int, z as int).drop_last() =~= ts@.subrange(a as int, z - 1));
        z = z - 1;
    }
    proof {
        assert(strip_trailing_quotes(ts@.subrange(a as int, z as int)) == ts@.subrange(a as int, z as int));
    }
    let mut res: Vec<char> = Vec::new();
    let mut q = a;
    while q < z
        invariant
            a <= q <= z,
            z <= ts@.len(),
            res@ == ts@.subrange(a as int, q as int),
        decreases z - q,
    {
        res.push(ts[q]);
        q = q + 1;
        assert(res@ =~= ts@.subrange(a as int, q as int));
    }
    string_of_chars(&res)
}

/// Which copper layers a padstack reaches.
#[derive(Clone, Copy)]
pub struct PadstackInfo {
    pub drilled: bool,
    pub top: bool,
    pub bottom: bool,
}

impl PadstackInfo {
    /// Top only, bottom only, or both; a padstack on inner layers only
    /// counts as both.
    pub fn side(&self) -> (s: Side)
        ensures
            s == (if self.top && !self.bottom {
                Side::Top
            } else if self.bottom && !self.top {
                Side::Bottom
            } else {
                Side::Both
            }),
    {
        if self.top && self.bottom {
            Side::Both
        } else if self.top {
            Side::Top
        } else if self.bottom {
            Side::Bottom
        } else {
            Side::Both
        }
    }
}

/// The sections of a GenCAD file (`$NAME` lines open them, `$END...`
/// lines close them).
#[derive(Debug, Clone, Copy, PartialEq, Eq, Structural)]
pub enum GcSection {
    Outside,
    Header,
    Board,
    Pads,
    Padstacks,
    Shapes,
    Components,
    Signals,
    Devices,
    Routes,
    Other,
}

/// The units a file declares; THOU when it declares none or unknown ones.
#[derive(Debug, Clone, Copy, PartialEq, Eq, Structural)]
pub enum GcUnits {
    Thou,
    Inch,
    Mm,
    Mm100,
    User,
    UserM,
    UserMm,
}

/// An outline statement of `$BOARD`.
#[derive(Debug, Clone, Copy, PartialEq, Eq, Structural)]
pub enum GcDraw {
    Line,
    Rectangle,
    Arc,
}

/// A `PADSTACK` of `$PADSTACKS`: its name, its tokens after the keyword
/// (the name, then the drill size), and whether its pads reach the top and
/// bottom layers.
pub struct GcPadstack {
    pub name: String,
    pub args: Vec<String>,
    pub top: bool,
    pub bottom: bool,
}

/// A `COMPONENT` of `$COMPONENTS` with what its statements set: device
/// name, `PLACE` and `ROTATION` tokens, layer, shape and shape flags.
#[derive(Clone)]
pub struct GcComponent {
    pub refdes: String,
    pub device: Option<String>,
    pub place: Vec<String>,
    pub bottom: bool,
    pub rotation: Vec<String>,
    pub shape: Option<String>,
    pub mirror_x: bool,
    pub mirror_y: bool,
    pub flip: bool,
}

/// A `DEVICE` of `$DEVICES` with its part number, value and package.
pub struct GcDevice {
    pub name: String,
    pub part: Option<String>,
    pub value: Option<String>,
    pub package: Option<String>,
}

/// The statements of a GenCAD file, as records. Numbers stay as their
/// tokens: reading them and placing pins is floating-point work.
pub struct GencadRecords {
    pub units: GcUnits,
    /// The scale token of the user units.
    pub units_scale: Option<String>,
    /// `$BOARD` outline statements with their tokens after the keyword.
    pub board: Vec<(GcDraw, Vec<String>)>,
    /// `CIRCLE` statements of `$PADS`: the pad they belong to and their
    /// tokens after the keyword.
    pub pad_circles: Vec<(String, Vec<String>)>,
    /// Padstacks, one per name (a later declaration replaces an earlier one).
    pub padstacks: Vec<GcPadstack>,
    /// The pads each padstack lists: (padstack, pad), in file order.
    pub stack_pads: Vec<(String, String)>,
    /// Shape names, each once, in order of first declaration.
    pub shapes: Vec<String>,
    /// `PIN` statements of `$SHAPES`: the shape they belong to and their
    /// tokens after the keyword (pin name, pad, x, y, ...).
    pub shape_pins: Vec<(String, Vec<String>)>,
    pub components: Vec<GcComponent>,
    /// `NODE` statements: (component, pin, signal), in file order.
    pub nodes: Vec<(String, String, String)>,
    /// Devices, one per name, in order of first declaration.
    pub devices: Vec<GcDevice>,
    /// `VIA` statements of `$ROUTES`: the route's net and their tokens
    /// after the keyword.
    pub vias: Vec<(String, Vec<String>)>,
}

pub open spec fn texts(v: Seq<String>) -> Seq<Seq<char>> {
    v.map_values(|t: String| t@)
}

pub struct GcPadstackView {
    pub name: Seq<char>,
    pub args: Seq<Seq<char>>,
    pub top: bool,
    pub bottom: bool,
}

impl View for GcPadstack {
    type V = GcPadstackView;

    open spec fn view(&self) -> GcPadstackView {
        GcPadstackView { name: self.name@, args: texts(self.args@), top: self.top, bottom: self.bottom }
    }
}

pub struct GcComponentView {
    pub refdes: Seq<char>,
    pub device: Option<Seq<char>>,
    pub place: Seq<Seq<char>>,
    pub bottom: bool,
    pub rotation: Seq<Seq<char>>,
    pub shape: Option<Seq<char>>,
    pub mirror_x: bool,
    pub mirror_y: bool,
    pub flip: bool,
}

impl View for GcComponent {
    type V = GcComponentView;

    open spec fn view(&self) -> GcComponentView {
        GcComponentView {
            refdes: self.refdes@,
            device: opt_text(self.device),
            place: texts(self.place@),
            bottom: self.bottom,
            rotation: texts(self.rotation@),
            shape: opt_text(self.shape),
            mirror_x: self.mirror_x,
            mirror_y: self.mirror_y,
            flip: self.flip,
        }
    }
}

pub struct GcDeviceView {
    pub name: Seq<char>,
    pub part: Option<Seq<char>>,
    pub value: Option<Seq<char>>,
    pub package: Option<Seq<char>>,
}

impl View for GcDevice {
    type V = GcDeviceView;

    open spec fn view(&self) -> GcDeviceView {
        GcDeviceView { name: self.name@, part: opt_text(self.part), value: opt_text(self.value), package: opt_text(self.package) }
    }
}

#[verifier::ext_equal]
pub struct GcRecordsView {
    pub units: GcUnits,
    pub units_scale: Option<Seq<char>>,
    pub board: Seq<(GcDraw, Seq<Seq<char>>)>,
    pub pad_circles: Seq<(Seq<char>, Seq<Seq<char>>)>,
    pub padstacks: Seq<GcPadstackView>,
    pub stack_pads: Seq<(Seq<char>, Seq<char>)>,
    pub shapes: Seq<Seq<char>>,
    pub shape_pins: Seq<(Seq<char>, Seq<Seq<char>>)>,
    pub components: Seq<GcComponentView>,
    pub nodes: Seq<(Seq<char>, Seq<char>, Seq<char>)>,
    pub devices: Seq<GcDeviceView>,
    pub vias: Seq<(Seq<char>, Seq<Seq<char>>)>,
}

pub open spec fn with_args(v: Seq<(String, Vec<String>)>) -> Seq<(Seq<char>, Seq<Seq<char>>)> {
    v.map_values(|e: (String, Vec<String>)| (e.0@, texts(e.1@)))
}

impl View for GencadRecords {
    type V = GcRecordsView;

    open spec fn view(&self) -> GcRecordsView {
        GcRecordsView {
            units: self.units,
            units_scale: opt_text(self.units_scale),
            board: self.board@.map_values(|e: (GcDraw, Vec<String>)| (e.0, texts(e.1@))),
            pad_circles: with_args(self.pad_circles@),
            padstacks: self.padstacks@.map_values(|p: GcPadstack| p@),
            stack_pads: self.stack_pads@.map_values(|e: (String, String)| (e.0@, e.1@)),
            shapes: texts(self.shapes@),
            shape_pins: with_args(self.shape_pins@),
            components: self.components@.map_values(|c: GcComponent| c@),
            nodes: self.nodes@.map_values(|e: (String, String, String)| (e.0@, e.1@, e.2@)),
            devices: self.devices@.map_values(|d: GcDevice| d@),
            vias: with_args(self.vias@),
        }
    }
}

/// Where reading stands: the section, and the pad, padstack, shape,
/// signal, device and route that later statements belong to.
pub struct GcCursor {
    pub section: GcSection,
    pub pad: Option<String>,
    pub padstack: Option<String>,
    pub shape: Option<String>,
    pub signal: Option<String>,
    pub device: Option<String>,
    pub route: Option<String>,
}

pub struct GcCursorView {
    pub section: GcSection,
    pub pad: Option<Seq<char>>,
    pub padstack: Option<Seq<char>>,
    pub shape: Option<Seq<char>>,
    pub signal: Option<Seq<char>>,
    pub device: Option<Seq<char>>,
    pub route: Option<Seq<char>>,
}

impl View for GcCursor {
    type V = GcCursorView;

    open spec fn view(&self) -> GcCursorView {
        GcCursorView {
            section: self.section,
            pad: opt_text(self.pad),
            padstack: opt_text(self.padstack),
            shape: opt_text(self.shape),
            signal: opt_text(self.signal),
            device: opt_text(self.device),
            route: opt_text(self.route),
        }
    }
}

/// The section a `$` line opens, given the trimmed text after the `$`.
pub open spec fn section_named(r: Seq<char>) -> GcSection {
    if r == "HEADER"@ {
        GcSection::Header
    } else if r == "BOARD"@ {
        GcSection::Board
    } else if r == "PADS"@ {
        GcSection::Pads
    } else if r == "PADSTACKS"@ {
        GcSection::Padstacks
    } else if r == "SHAPES"@ {
        GcSection::Shapes
    } else if r == "COMPONENTS"@ {
        GcSection::Components
    } else if r == "SIGNALS"@ {
        GcSection::Signals
    } else if r == "DEVICES"@ {
        GcSection::Devices
    } else if r == "ROUTES"@ {
        GcSection::Routes
    } else if r.len() >= 3 && r.take(3) == "END"@ {
        GcSection::Outside
    } else {
        GcSection::Other
    }
}

/// The token at `i`, if there is one.
pub open spec fn tok_at(toks: Seq<Seq<char>>, i: int) -> Option<Seq<char>> {
    if 0 <= i < toks.len() {
        Some(toks[i])
    } else {
        None
    }
}

/// The token at `i`, or the empty text.
pub open spec fn tok_or_empty(toks: Seq<Seq<char>>, i: int) -> Seq<char> {
    if 0 <= i < toks.len() {
        toks[i]
    } else {
        Seq::empty()
    }
}

/// The units a `UNITS` statement names.
pub open spec fn units_named(toks: Seq<Seq<char>>) -> GcUnits {
    let u = tok_or_empty(toks, 1);
    if u == "INCH"@ {
        GcUnits::Inch
    } else if u == "MM"@ {
        GcUnits::Mm
    } else if u == "MM100"@ {
        GcUnits::Mm100
    } else if u == "USER"@ {
        GcUnits::User
    } else if u == "USERM"@ {
        GcUnits::UserM
    } else if u == "USERMM"@ {
        GcUnits::UserMm
    } else {
        GcUnits::Thou
    }
}

/// The position of the first name equal to `n`; -1 when there is none.
pub open spec fn first_index(names: Seq<Seq<char>>, n: Seq<char>) -> int
    decreases names.len(),
{
    if names.len() == 0 {
        -1
    } else if first_index(names.drop_last(), n) >= 0 {
        first_index(names.drop_last(), n)
    } else if names.last() == n {
        names.len() - 1
    } else {
        -1
    }
}

pub open spec fn stack_names(ps: Seq<GcPadstackView>) -> Seq<Seq<char>> {
    ps.map_values(|p: GcPadstackView| p.name)
}

pub open spec fn device_names(ds: Seq<GcDeviceView>) -> Seq<Seq<char>> {
    ds.map_values(|d: GcDeviceView| d.name)
}

/// A `$HEADER` statement.
pub open spec fn header_stmt(v: GcRecordsView, toks: Seq<Seq<char>>) -> GcRecordsView {
    if toks[0] == "UNITS"@ {
        GcRecordsView { units: units_named(toks), units_scale: tok_at(toks, 2), ..v }
    } else {
        v
    }
}

/// A `$BOARD` statement.
pub open spec fn board_stmt(v: GcRecordsView, toks: Seq<Seq<char>>) -> GcRecordsView {
    let kw = toks[0];
    if kw == "LINE"@ {
        GcRecordsView { board: v.board.push((GcDraw::Line, toks.skip(1))), ..v }
    } else if kw == "RECTANGLE"@ {
        GcRecordsView { board: v.board.push((GcDraw::Rectangle, toks.skip(1))), ..v }
    } else if kw == "ARC"@ {
        GcRecordsView { board: v.board.push((GcDraw::Arc, toks.skip(1))), ..v }
    } else {
        v
    }
}

/// A `$PADS` statement: `PAD` names the pad, `CIRCLE` belongs to it.
pub open spec fn pads_stmt(c: GcCursorView, v: GcRecordsView, toks: Seq<Seq<char>>) -> (GcCursorView, GcRecordsView) {
    let kw = toks[0];
    if kw == "PAD"@ {
        (GcCursorView { pad: tok_at(toks, 1), ..c }, v)
    } else if kw == "CIRCLE"@ && c.pad is Some {
        (c, GcRecordsView { pad_circles: v.pad_circles.push((c.pad->Some_0, toks.skip(1))), ..v })
    } else {
        (c, v)
    }
}

/// The padstacks after a `PADSTACK` declaration: it replaces one of the
/// same name, or is added.
pub open spec fn declare_padstack(ps: Seq<GcPadstackView>, p: GcPadstackView) -> Seq<GcPadstackView> {
    let k = first_index(stack_names(ps), p.name);
    if k >= 0 {
        ps.update(k, p)
    } else {
        ps.push(p)
    }
}

/// A `$PADSTACKS` statement: `PADSTACK` declares one, `PAD` lists a pad of
/// the current one and marks the layer it is on.
pub open spec fn padstacks_stmt(c: GcCursorView, v: GcRecordsView, toks: Seq<Seq<char>>) -> (GcCursorView, GcRecordsView) {
    let kw = toks[0];
    if kw == "PADSTACK"@ {
        let name = tok_or_empty(toks, 1);
        (
            GcCursorView { padstack: Some(name), ..c },
            GcRecordsView {
                padstacks: declare_padstack(
                    v.padstacks,
                    GcPadstackView { name, args: toks.skip(1), top: false, bottom: false },
                ),
                ..v
            },
        )
    } else if kw == "PAD"@ && c.padstack is Some {
        let st = c.padstack->Some_0;
        let sp = if toks.len() > 1 { v.stack_pads.push((st, toks[1])) } else { v.stack_pads };
        let k = first_index(stack_names(v.padstacks), st);
        let layer = tok_or_empty(toks, 2);
        let ps = if k >= 0 && layer == "TOP"@ {
            v.padstacks.update(k, GcPadstackView { top: true, ..v.padstacks[k] })
        } else if k >= 0 && layer == "BOTTOM"@ {
            v.padstacks.update(k, GcPadstackView { bottom: true, ..v.padstacks[k] })
        } else {
            v.padstacks
        };
        (c, GcRecordsView { stack_pads: sp, padstacks: ps, ..v })
    } else {
        (c, v)
    }
}

/// A `$SHAPES` statement: `SHAPE` names the shape, `PIN` belongs to it.
pub open spec fn shapes_stmt(c: GcCursorView, v: GcRecordsView, toks: Seq<Seq<char>>) -> (GcCursorView, GcRecordsView) {
    let kw = toks[0];
    if kw == "SHAPE"@ {
        let name = tok_or_empty(toks, 1);
        (
            GcCursorView { shape: Some(name), ..c },
            GcRecordsView { shapes: if v.shapes.contains(name) { v.shapes } else { v.shapes.push(name) }, ..v },
        )
    } else if kw == "PIN"@ && c.shape is Some {
        (c, GcRecordsView { shape_pins: v.shape_pins.push((c.shape->Some_0, toks.skip(1))), ..v })
    } else {
        (c, v)
    }
}

/// The flags a component's `SHAPE` statement sets, from its tokens after
/// the shape name.
pub open spec fn has_flag(toks: Seq<Seq<char>>, f: Seq<char>) -> bool {
    exists|i: int| 2 <= i < toks.len() && toks[i] == f
}

/// A `$COMPONENTS` statement: `COMPONENT` starts one, the others set its
/// fields.
pub open spec fn components_stmt(v: GcRecordsView, toks: Seq<Seq<char>>, line: Seq<char>) -> GcRecordsView {
    let kw = toks[0];
    let cs = v.components;
    if kw == "COMPONENT"@ {
        GcRecordsView {
            components: cs.push(
                GcComponentView {
                    refdes: tok_or_empty(toks, 1),
                    device: None,
                    place: Seq::empty(),
                    bottom: false,
                    rotation: Seq::empty(),
                    shape: None,
                    mirror_x: false,
                    mirror_y: false,
                    flip: false,
                },
            ),
            ..v
        }
    } else if cs.len() == 0 {
        v
    } else {
        let last = cs.last();
        let k = cs.len() - 1;
        if kw == "DEVICE"@ {
            GcRecordsView { components: cs.update(k, GcComponentView { device: Some(rest_after(line)), ..last }), ..v }
        } else if kw == "PLACE"@ {
            GcRecordsView { components: cs.update(k, GcComponentView { place: toks.skip(1), ..last }), ..v }
        } else if kw == "LAYER"@ {
            GcRecordsView { components: cs.update(k, GcComponentView { bottom: tok_or_empty(toks, 1) == "BOTTOM"@ && toks.len() > 1, ..last }), ..v }
        } else if kw == "ROTATION"@ {
            GcRecordsView { components: cs.update(k, GcComponentView { rotation: toks.skip(1), ..last }), ..v }
        } else if kw == "SHAPE"@ {
            GcRecordsView {
                components: cs.update(
                    k,
                    GcComponentView {
                        shape: tok_at(toks, 1),
                        mirror_x: last.mirror_x || has_flag(toks, "MIRRORX"@),
                        mirror_y: last.mirror_y || has_flag(toks, "MIRRORY"@),
                        flip: last.flip || has_flag(toks, "FLIP"@),
                        ..last
                    },
                ),
                ..v
            }
        } else {
            v
        }
    }
}

/// A `$SIGNALS` statement: `SIGNAL` names the net (the rest of the line),
/// `NODE` connects a component pin to it.
pub open spec fn signals_stmt(c: GcCursorView, v: GcRecordsView, toks: Seq<Seq<char>>, line: Seq<char>) -> (GcCursorView, GcRecordsView) {
    let kw = toks[0];
    if kw == "SIGNAL"@ {
        (GcCursorView { signal: Some(rest_after(line)), ..c }, v)
    } else if kw == "NODE"@ && c.signal is Some && toks.len() > 2 {
        (c, GcRecordsView { nodes: v.nodes.push((toks[1], toks[2], c.signal->Some_0)), ..v })
    } else {
        (c, v)
    }
}

/// A `$DEVICES` statement: `DEVICE` names one (the rest of the line), the
/// others set its part number, value and package when not empty.
pub open spec fn devices_stmt(c: GcCursorView, v: GcRecordsView, toks: Seq<Seq<char>>, line: Seq<char>) -> (GcCursorView, GcRecordsView) {
    let kw = toks[0];
    let text = rest_after(line);
    if kw == "DEVICE"@ {
        let ds = if first_index(device_names(v.devices), text) >= 0 {
            v.devices
        } else {
            v.devices.push(GcDeviceView { name: text, part: None, value: None, package: None })
        };
        (GcCursorView { device: Some(text), ..c }, GcRecordsView { devices: ds, ..v })
    } else if c.device is Some && text.len() > 0 && first_index(device_names(v.devices), c.device->Some_0) >= 0 {
        let k = first_index(device_names(v.devices), c.device->Some_0);
        let d = v.devices[k];
        if kw == "PART"@ {
            (c, GcRecordsView { devices: v.devices.update(k, GcDeviceView { part: Some(text), ..d }), ..v })
        } else if kw == "VALUE"@ || kw == "Value"@ {
            (c, GcRecordsView { devices: v.devices.update(k, GcDeviceView { value: Some(text), ..d }), ..v })
        } else if kw == "PACKAGE"@ {
            (c, GcRecordsView { devices: v.devices.update(k, GcDeviceView { package: Some(text), ..d }), ..v })
        } else {
            (c, v)
        }
    } else {
        (c, v)
    }
}

/// A `$ROUTES` statement: `ROUTE` names the net, `VIA` belongs to it.
pub open spec fn routes_stmt(c: GcCursorView, v: GcRecordsView, toks: Seq<Seq<char>>, line: Seq<char>) -> (GcCursorView, GcRecordsView) {
    let kw = toks[0];
    if kw == "ROUTE"@ {
        (GcCursorView { route: Some(rest_after(line)), ..c }, v)
    } else if kw == "VIA"@ && c.route is Some {
        (c, GcRecordsView { vias: v.vias.push((c.route->Some_0, toks.skip(1))), ..v })
    } else {
        (c, v)
    }
}

/// One trimmed, non-empty line.
pub open spec fn gc_line(c: GcCursorView, v: GcRecordsView, line: Seq<char>) -> (GcCursorView, GcRecordsView) {
    if line[0] == '$' {
        (GcCursorView { section: section_named(trim_ws(line.skip(1))), ..c }, v)
    } else {
        let toks = gencad_tokens(line);
        if toks.len() == 0 {
            (c, v)
        } else {
            match c.section {
                GcSection::Header => (c, header_stmt(v, toks)),
                GcSection::Board => (c, board_stmt(v, toks)),
                GcSection::Pads => pads_stmt(c, v, toks),
                GcSection::Padstacks => padstacks_stmt(c, v, toks),
                GcSection::Shapes => shapes_stmt(c, v, toks),
                GcSection::Components => (c, components_stmt(v, toks, line)),
                GcSection::Signals => signals_stmt(c, v, toks, line),
                GcSection::Devices => devices_stmt(c, v, toks, line),
                GcSection::Routes => routes_stmt(c, v, toks, line),
                _ => (c, v),
            }
        }
    }
}

pub open spec fn gc_start() -> (GcCursorView, GcRecordsView) {
    (
        GcCursorView {
            section: GcSection::Outside,
            pad: None,
            padstack: None,
            shape: None,
            signal: None,
            device: None,
            route: None,
        },
        GcRecordsView {
            units: GcUnits::Thou,
            units_scale: None,
            board: Seq::empty(),
            pad_circles: Seq::empty(),
            padstacks: Seq::empty(),
            stack_pads: Seq::empty(),
            shapes: Seq::empty(),
            shape_pins: Seq::empty(),
            components: Seq::empty(),
            nodes: Seq::empty(),
            devices: Seq::empty(),
            vias: Seq::empty(),
        },
    )
}

/// The lines of a text, split at line feeds (a line's own carriage
/// return goes with its trimming).
pub open spec fn char_lines(s: Seq<char>) -> Seq<Seq<char>>
    decreases s.len(),
{
    if s.len() == 0 {
        seq![Seq::empty()]
    } else {
        let prev = char_lines(s.drop_last());
        if s.last() == '\n' {
            prev.push(Seq::empty())
        } else {
            prev.update(prev.len() - 1, prev.last().push(s.last()))
        }
    }
}

/// The statements of the lines, each trimmed; blank lines are skipped.
pub open spec fn gc_fold(lines: Seq<Seq<char>>) -> (GcCursorView, GcRecordsView)
    decreases lines.len(),
{
    if lines.len() == 0 {
        gc_start()
    } else {
        let prev = gc_fold(lines.drop_last());
        let l = trim_ws(lines.last());
        if l.len() == 0 {
            prev
        } else {
            gc_line(prev.0, prev.1, l)
        }
    }
}

/// The records of a GenCAD file, read as (lossily decoded) text.
pub open spec fn gencad_records(bytes: Seq<u8>) -> GcRecordsView {
    gc_fold(char_lines(utf8_lossy(bytes))).1
}

proof fn lemma_first_index(names: Seq<Seq<char>>, n: Seq<char>)
    ensures
        first_index(names, n) < names.len(),
        first_index(names, n) >= 0 ==> names[first_index(names, n)] == n,
        forall|i: int| 0 <= i < names.len() && (first_index(names, n) < 0 || i < first_index(names, n)) ==> #[trigger] names[i] != n,
    decreases names.len(),
{
    if names.len() > 0 {
        lemma_first_index(names.drop_last(), n);
        assert forall|i: int| 0 <= i < names.len() - 1 implies names.drop_last()[i] == #[trigger] names[i] by {}
    }
}

/// The position of the first of `names` equal to `n`.
fn position_of(names: &Vec<String>, n: &str) -> (r: Option<usize>)
    ensures
        match r {
            Some(k) => k < names@.len() && k as int == first_index(texts(names@), n@),
            None => first_index(texts(names@), n@) < 0,
        },
{
    proof {
        lemma_first_index(texts(names@), n@);
    }
    let mut k: usize = 0;
    while k < names.len()
        invariant
            k <= names@.len(),
            first_index(texts(names@), n@) < names@.len(),
            first_index(texts(names@), n@) >= 0 ==> texts(names@)[first_index(texts(names@), n@)] == n@,
            forall|i: int| 0 <= i < names@.len() && (first_index(texts(names@), n@) < 0 || i < first_index(texts(names@), n@)) ==> #[trigger] texts(names@)[i] != n@,
            forall|i: int| 0 <= i < k ==> texts(names@)[i] != n@,
        decreases names@.len() - k,
    {
        if same_text(names[k].as_str(), n) {
            assert(texts(names@)[k as int] == n@);
            return Some(k);
        }
        k = k + 1;
    }
    None
}

fn stack_position(ps: &Vec<GcPadstack>, n: &str) -> (r: Option<usize>)
    ensures
        match r {
            Some(k) => k < ps@.len() && k as int == first_index(stack_names(ps@.map_values(|p: GcPadstack| p@)), n@),
            None => first_index(stack_names(ps@.map_values(|p: GcPadstack| p@)), n@) < 0,
        },
{
    let mut names: Vec<String> = Vec::new();
    let mut i: usize = 0;
    while i < ps.len()
        invariant
            i <= ps@.len(),
            names@.len() == i,
            forall|j: int| 0 <= j < i ==> #[trigger] names@[j]@ == ps@[j].name@,
        decreases ps@.len() - i,
    {
        names.push(ps[i].name.clone());
        i = i + 1;
    }
    assert(texts(names@) =~= stack_names(ps@.map_values(|p: GcPadstack| p@)));
    position_of(&names, n)
}

fn device_position(ds: &Vec<GcDevice>, n: &str) -> (r: Option<usize>)
    ensures
        match r {
            Some(k) => k < ds@.len() && k as int == first_index(device_names(ds@.map_values(|d: GcDevice| d@)), n@),
            None => first_index(device_names(ds@.map_values(|d: GcDevice| d@)), n@) < 0,
        },
{
    let mut names: Vec<String> = Vec::new();
    let mut i: usize = 0;
    while i < ds.len()
        invariant
            i <= ds@.len(),
            names@.len() == i,
            forall|j: int| 0 <= j < i ==> #[trigger] names@[j]@ == ds@[j].name@,
        decreases ds@.len() - i,
    {
        names.push(ds[i].name.clone());
        i = i + 1;
    }
    assert(texts(names@) =~= device_names(ds@.map_values(|d: GcDevice| d@)));
    position_of(&names, n)
}

/// The tokens from position `k` on.
fn tokens_from(toks: &Vec<String>, k: usize) -> (r: Vec<String>)
    requires
        k <= toks@.len(),
    ensures
        texts(r@) == texts(toks@).skip(k as int),
{
    let mut r: Vec<String> = Vec::new();
    let mut i = k;
    while i < toks.len()
        invariant
            k <= i <= toks@.len(),
            r@.len() == i - k,
            forall|j: int| 0 <= j < i - k ==> #[trigger] r@[j]@ == toks@[k + j]@,
        decreases toks@.len() - i,
    {
        r.push(toks[i].clone());
        i = i + 1;
    }
    assert(texts(r@) =~= texts(toks@).skip(k as int));
    r
}

fn token_at(toks: &Vec<String>, i: usize) -> (r: Option<String>)
    ensures
        opt_text(r) == tok_at(texts(toks@), i as int),
{
    if i < toks.len() {
        Some(toks[i].clone())
    } else {
        None
    }
}

fn token_or_empty(toks: &Vec<String>, i: usize) -> (r: String)
    ensures
        r@ == tok_or_empty(texts(toks@), i as int),
{
    if i < toks.len() {
        toks[i].clone()
    } else {
        String::new()
    }
}

fn keyword_is(toks: &Vec<String>, kw: &str) -> (r: bool)
    requires
        toks@.len() > 0,
    ensures
        r == (texts(toks@)[0] == kw@),
{
    same_text(toks[0].as_str(), kw)
}

/// The line pieces of a text, split at line feeds.
fn split_char_lines(cs: &Vec<char>) -> (r: Vec<Vec<char>>)
    ensures
        r@.map_values(|l: Vec<char>| l@) == char_lines(cs@),
{
    let mut out: Vec<Vec<char>> = Vec::new();
    let mut cur: Vec<char> = Vec::new();
    let mut i: usize = 0;
    assert(cs@.take(0) =~= Seq::<char>::empty());
    while i < cs.len()
        invariant
            i <= cs@.len(),
            out@.map_values(|l: Vec<char>| l@).push(cur@) == char_lines(cs@.take(i as int)),
        decreases cs@.len() - i,
    {
        let ghost prev = char_lines(cs@.take(i as int));
        assert(cs@.take(i + 1).drop_last() =~= cs@.take(i as int));
        assert(cs@.take(i + 1).last() == cs@[i as int]);
        if cs[i] == '\n' {
            let done = cur;
            cur = Vec::new();
            out.push(done);
            assert(out@.map_values(|l: Vec<char>| l@).push(cur@) =~= prev.push(Seq::<char>::empty()));
        } else {
            let ghost before = out@.map_values(|l: Vec<char>| l@);
            cur.push(cs[i]);
            assert(out@.map_values(|l: Vec<char>| l@).push(cur@) =~= prev.update(prev.len() - 1, prev.last().push(cs@[i as int])));
        }
        i = i + 1;
    }
    assert(cs@.take(i as int) =~= cs@);
    out.push(cur);
    out
}

fn header_line(recs: &mut GencadRecords, toks: &Vec<String>)
    requires
        toks@.len() > 0,
    ensures
        final(recs)@ == header_stmt(old(recs)@, texts(toks@)),
{
    if keyword_is(toks, "UNITS") {
        let u = token_or_empty(toks, 1);
        let units = if same_text(u.as_str(), "INCH") {
            GcUnits::Inch
        } else if same_text(u.as_str(), "MM") {
            GcUnits::Mm
        } else if same_text(u.as_str(), "MM100") {
            GcUnits::Mm100
        } else if same_text(u.as_str(), "USER") {
            GcUnits::User
        } else if same_text(u.as_str(), "USERM") {
            GcUnits::UserM
        } else if same_text(u.as_str(), "USERMM") {
            GcUnits::UserMm
        } else {
            GcUnits::Thou
        };
        recs.units = units;
        recs.units_scale = token_at(toks, 2);
        assert(recs@ =~= header_stmt(old(recs)@, texts(toks@)));
    }
}

fn board_line(recs: &mut GencadRecords, toks: &Vec<String>)
    requires
        toks@.len() > 0,
    ensures
        final(recs)@ == board_stmt(old(recs)@, texts(toks@)),
{
    let kind = if keyword_is(toks, "LINE") {
        Some(GcDraw::Line)
    } else if keyword_is(toks, "RECTANGLE") {
        Some(GcDraw::Rectangle)
    } else if keyword_is(toks, "ARC") {
        Some(GcDraw::Arc)
    } else {
        None
    };
    if let Some(k) = kind {
        let args = tokens_from(toks, 1);
        recs.board.push((k, args));
        assert(recs@.board =~= board_stmt(old(recs)@, texts(toks@)).board);
        assert(recs@ =~= board_stmt(old(recs)@, texts(toks@)));
    }
}

fn pads_line(cur: &mut GcCursor, recs: &mut GencadRecords, toks: &Vec<String>)
    requires
        toks@.len() > 0,
    ensures
        (final(cur)@, final(recs)@) == pads_stmt(old(cur)@, old(recs)@, texts(toks@)),
{
    if keyword_is(toks, "PAD") {
        cur.pad = token_at(toks, 1);
    } else if keyword_is(toks, "CIRCLE") {
        if let Some(pad) = &cur.pad {
            let args = tokens_from(toks, 1);
            recs.pad_circles.push((pad.clone(), args));
            assert(recs@.pad_circles =~= old(recs)@.pad_circles.push((old(cur)@.pad->Some_0, texts(toks@).skip(1))));
            assert(recs@ =~= pads_stmt(old(cur)@, old(recs)@, texts(toks@)).1);
        }
    }
}

fn padstacks_line(cur: &mut GcCursor, recs: &mut GencadRecords, toks: &Vec<String>)
    requires
        toks@.len() > 0,
    ensures
        (final(cur)@, final(recs)@) == padstacks_stmt(old(cur)@, old(recs)@, texts(toks@)),
{
    let ghost ts = texts(toks@);
    let ghost ps0 = old(recs)@.padstacks;
    if keyword_is(toks, "PADSTACK") {
        let name = token_or_empty(toks, 1);
        let stack = GcPadstack { name: name.clone(), args: tokens_from(toks, 1), top: false, bottom: false };
        let ghost sv = stack@;
        match stack_position(&recs.padstacks, name.as_str()) {
            Some(k) => {
                recs.padstacks.set(k, stack);
                assert(recs@.padstacks =~= ps0.update(k as int, sv));
            },
            None => {
                recs.padstacks.push(stack);
                assert(recs@.padstacks =~= ps0.push(sv));
            },
        }
        cur.padstack = Some(name);
        assert(recs@ =~= padstacks_stmt(old(cur)@, old(recs)@, ts).1);
    } else if keyword_is(toks, "PAD") {
        if let Some(st) = &cur.padstack {
            let st = st.clone();
            if toks.len() > 1 {
                recs.stack_pads.push((st.clone(), toks[1].clone()));
            }
            let layer = token_or_empty(toks, 2);
            match stack_position(&recs.padstacks, st.as_str()) {
                Some(k) => {
                    if same_text(layer.as_str(), "TOP") {
                        recs.padstacks[k].top = true;
                        assert(recs@.padstacks =~= ps0.update(k as int, GcPadstackView { top: true, ..ps0[k as int] }));
                    } else if same_text(layer.as_str(), "BOTTOM") {
                        recs.padstacks[k].bottom = true;
                        assert(recs@.padstacks =~= ps0.update(k as int, GcPadstackView { bottom: true, ..ps0[k as int] }));
                    }
                },
                None => {},
            }
            assert(recs@.stack_pads =~= padstacks_stmt(old(cur)@, old(recs)@, ts).1.stack_pads);
            assert(recs@ =~= padstacks_stmt(old(cur)@, old(recs)@, ts).1);
        }
    }
}

fn shapes_line(cur: &mut GcCursor, recs: &mut GencadRecords, toks: &Vec<String>)
    requires
        toks@.len() > 0,
    ensures
        (final(cur)@, final(recs)@) == shapes_stmt(old(cur)@, old(recs)@, texts(toks@)),
{
    if keyword_is(toks, "SHAPE") {
        let name = token_or_empty(toks, 1);
        match position_of(&recs.shapes, name.as_str()) {
            Some(_) => {
                proof {
                    lemma_first_index(texts(old(recs).shapes@), name@);
                }
                assert(texts(recs.shapes@).contains(name@));
            },
            None => {
                proof {
                    lemma_first_index(texts(old(recs).shapes@), name@);
                }
                assert(!texts(recs.shapes@).contains(name@));
                recs.shapes.push(name.clone());
                assert(texts(recs.shapes@) =~= texts(old(recs).shapes@).push(name@));
            },
        }
        cur.shape = Some(name);
        assert(recs@ =~= shapes_stmt(old(cur)@, old(recs)@, texts(toks@)).1);
    } else if keyword_is(toks, "PIN") {
        if let Some(sh) = &cur.shape {
            let args = tokens_from(toks, 1);
            recs.shape_pins.push((sh.clone(), args));
            assert(recs@.shape_pins =~= old(recs)@.shape_pins.push((old(cur)@.shape->Some_0, texts(toks@).skip(1))));
            assert(recs@ =~= shapes_stmt(old(cur)@, old(recs)@, texts(toks@)).1);
        }
    }
}

fn flag_in(toks: &Vec<String>, f: &str) -> (r: bool)
    ensures
        r == has_flag(texts(toks@), f@),
{
    let mut i: usize = 2;
    while i < toks.len()
        invariant
            2 <= i,
            forall|j: int| 2 <= j < i && j < toks@.len() ==> texts(toks@)[j] != f@,
        decreases toks@.len() - i,
    {
        if same_text(toks[i].as_str(), f) {
            assert(texts(toks@)[i as int] == f@);
            return true;
        }
        i = i + 1;
    }
    false
}

fn components_line(recs: &mut GencadRecords, toks: &Vec<String>, line: &str)
    requires
        toks@.len() > 0,
    ensures
        final(recs)@ == components_stmt(old(recs)@, texts(toks@), line@),
{
    let ghost cs0 = old(recs)@.components;
    if keyword_is(toks, "COMPONENT") {
        let c = GcComponent {
            refdes: token_or_empty(toks, 1),
            device: None,
            place: Vec::new(),
            bottom: false,
            rotation: Vec::new(),
            shape: None,
            mirror_x: false,
            mirror_y: false,
            flip: false,
        };
        let ghost cv = c@;
        assert(cv.place =~= Seq::<Seq<char>>::empty());
        assert(cv.rotation =~= Seq::<Seq<char>>::empty());
        recs.components.push(c);
        assert(recs@.components =~= cs0.push(cv));
        assert(recs@ =~= components_stmt(old(recs)@, texts(toks@), line@));
        return;
    }
    if recs.components.len() == 0 {
        return;
    }
    let k = recs.components.len() - 1;
    let ghost last = cs0[k as int];
    if keyword_is(toks, "DEVICE") {
        recs.components[k].device = Some(rest_after_keyword(line));
        assert(recs@.components =~= cs0.update(k as int, GcComponentView { device: Some(rest_after(line@)), ..last }));
    } else if keyword_is(toks, "PLACE") {
        recs.components[k].place = tokens_from(toks, 1);
        assert(recs@.components =~= cs0.update(k as int, GcComponentView { place: texts(toks@).skip(1), ..last }));
    } else if keyword_is(toks, "LAYER") {
        let l = token_or_empty(toks, 1);
        let b = toks.len() > 1 && same_text(l.as_str(), "BOTTOM");
        recs.components[k].bottom = b;
        assert(recs@.components =~= cs0.update(k as int, GcComponentView { bottom: b, ..last }));
    } else if keyword_is(toks, "ROTATION") {
        recs.components[k].rotation = tokens_from(toks, 1);
        assert(recs@.components =~= cs0.update(k as int, GcComponentView { rotation: texts(toks@).skip(1), ..last }));
    } else if keyword_is(toks, "SHAPE") {
        let mx = flag_in(toks, "MIRRORX");
        let my = flag_in(toks, "MIRRORY");
        let fl = flag_in(toks, "FLIP");
        recs.components[k].shape = token_at(toks, 1);
        if mx {
            recs.components[k].mirror_x = true;
        }
        if my {
            recs.components[k].mirror_y = true;
        }
        if fl {
            recs.components[k].flip = true;
        }
        assert(recs@.components =~= cs0.update(
            k as int,
            GcComponentView {
                shape: tok_at(texts(toks@), 1),
                mirror_x: last.mirror_x || mx,
                mirror_y: last.mirror_y || my,
                flip: last.flip || fl,
                ..last
            },
        ));
    }
    assert(recs@ =~= components_stmt(old(recs)@, texts(toks@), line@));
}

fn signals_line(cur: &mut GcCursor, recs: &mut GencadRecords, toks: &Vec<String>, line: &str)
    requires
        toks@.len() > 0,
    ensures
        (final(cur)@, final(recs)@) == signals_stmt(old(cur)@, old(recs)@, texts(toks@), line@),
{
    if keyword_is(toks, "SIGNAL") {
        cur.signal = Some(rest_after_keyword(line));
    } else if keyword_is(toks, "NODE") {
        if let Some(sig) = &cur.signal {
            if toks.len() > 2 {
                recs.nodes.push((toks[1].clone(), toks[2].clone(), sig.clone()));
                assert(recs@.nodes =~= old(recs)@.nodes.push((texts(toks@)[1], texts(toks@)[2], old(cur)@.signal->Some_0)));
                assert(recs@ =~= signals_stmt(old(cur)@, old(recs)@, texts(toks@), line@).1);
            }
        }
    }
}

fn devices_line(cur: &mut GcCursor, recs: &mut GencadRecords, toks: &Vec<String>, line: &str)
    requires
        toks@.len() > 0,
    ensures
        (final(cur)@, final(recs)@) == devices_stmt(old(cur)@, old(recs)@, texts(toks@), line@),
{
    let ghost ds0 = old(recs)@.devices;
    let text = rest_after_keyword(line);
    if keyword_is(toks, "DEVICE") {
        match device_position(&recs.devices, text.as_str()) {
            Some(_) => {},
            None => {
                let d = GcDevice { name: text.clone(), part: None, value: None, package: None };
                let ghost dv = d@;
                recs.devices.push(d);
                assert(recs@.devices =~= ds0.push(dv));
            },
        }
        cur.device = Some(text);
        assert(recs@ =~= devices_stmt(old(cur)@, old(recs)@, texts(toks@), line@).1);
        return;
    }
    let dn = match &cur.device {
        Some(d) => d.clone(),
        None => return,
    };
    if text.as_str().is_empty() {
        return;
    }
    let k = match device_position(&recs.devices, dn.as_str()) {
        Some(k) => k,
        None => return,
    };
    let ghost d = ds0[k as int];
    if keyword_is(toks, "PART") {
        recs.devices[k].part = Some(text);
        assert(recs@.devices =~= ds0.update(k as int, GcDeviceView { part: Some(rest_after(line@)), ..d }));
    } else if keyword_is(toks, "VALUE") || keyword_is(toks, "Value") {
        recs.devices[k].value = Some(text);
        assert(recs@.devices =~= ds0.update(k as int, GcDeviceView { value: Some(rest_after(line@)), ..d }));
    } else if keyword_is(toks, "PACKAGE") {
        recs.devices[k].package = Some(text);
        assert(recs@.devices =~= ds0.update(k as int, GcDeviceView { package: Some(rest_after(line@)), ..d }));
    }
    assert(recs@ =~= devices_stmt(old(cur)@, old(recs)@, texts(toks@), line@).1);
}

fn routes_line(cur: &mut GcCursor, recs: &mut GencadRecords, toks: &Vec<String>, line: &str)
    requires
        toks@.len() > 0,
    ensures
        (final(cur)@, final(recs)@) == routes_stmt(old(cur)@, old(recs)@, texts(toks@), line@),
{
    if keyword_is(toks, "ROUTE") {
        cur.route = Some(rest_after_keyword(line));
    } else if keyword_is(toks, "VIA") {
        if let Some(net) = &cur.route {
            let args = tokens_from(toks, 1);
            recs.vias.push((net.clone(), args));
            assert(recs@.vias =~= old(recs)@.vias.push((old(cur)@.route->Some_0, texts(toks@).skip(1))));
            assert(recs@ =~= routes_stmt(old(cur)@, old(recs)@, texts(toks@), line@).1);
        }
    }
}

/// One trimmed, non-empty line.
fn gc_handle(cur: &mut GcCursor, recs: &mut GencadRecords, line: &str)
    requires
        line@.len() > 0,
    ensures
        (final(cur)@, final(recs)@) == gc_line(old(cur)@, old(recs)@, line@),
{
    let cs = chars_of(line);
    if cs[0] == '$' {
        let mut rest: Vec<char> = Vec::new();
        let mut i: usize = 1;
        while i < cs.len()
            invariant
                1 <= i <= cs@.len(),
                rest@ == cs@.subrange(1, i as int),
            decreases cs@.len() - i,
        {
            rest.push(cs[i]);
            i = i + 1;
            assert(rest@ =~= cs@.subrange(1, i as int));
        }
        assert(rest@ =~= line@.skip(1));
        let rs = string_of_chars(&rest);
        let r = trim_str(rs.as_str());
        let rc = chars_of(r);
        let end = chars_of("END");
        let section = if same_text(r, "HEADER") {
            GcSection::Header
        } else if same_text(r, "BOARD") {
            GcSection::Board
        } else if same_text(r, "PADS") {
            GcSection::Pads
        } else if same_text(r, "PADSTACKS") {
            GcSection::Padstacks
        } else if same_text(r, "SHAPES") {
            GcSection::Shapes
        } else if same_text(r, "COMPONENTS") {
            GcSection::Components
        } else if same_text(r, "SIGNALS") {
            GcSection::Signals
        } else if same_text(r, "DEVICES") {
            GcSection::Devices
        } else if same_text(r, "ROUTES") {
            GcSection::Routes
        } else if chars_start_with(&rc, &end) {
            proof {
                reveal_strlit("END");
            }
            GcSection::Outside
        } else {
            proof {
                reveal_strlit("END");
            }
            GcSection::Other
        };
        cur.section = section;
        return;
    }
    let toks = tokens(line);
    if toks.len() == 0 {
        return;
    }
    assert(texts(toks@) == gencad_tokens(line@));
    match cur.section {
        GcSection::Header => header_line(recs, &toks),
        GcSection::Board => board_line(recs, &toks),
        GcSection::Pads => pads_line(cur, recs, &toks),
        GcSection::Padstacks => padstacks_line(cur, recs, &toks),
        GcSection::Shapes => shapes_line(cur, recs, &toks),
        GcSection::Components => components_line(recs, &toks, line),
        GcSection::Signals => signals_line(cur, recs, &toks, line),
        GcSection::Devices => devices_line(cur, recs, &toks, line),
        GcSection::Routes => routes_line(cur, recs, &toks, line),
        _ => {},
    }
}

/// Reads the statements of a GenCAD file into records. A file with neither
/// components nor shapes is malformed.
pub fn read_records(bytes: &[u8]) -> (r: Result<GencadRecords, ParseError>)
    ensures
        ({
            let v = gencad_records(bytes@);
            &&& r is Ok <==> v.components.len() > 0 || v.shapes.len() > 0
            &&& r matches Ok(recs) ==> recs@ == v
            &&& r is Err ==> r matches Err(ParseError::Malformed(_))
        }),
{
    let text = lossy(bytes);
    let cs = chars_of(text.as_str());
    let pieces = split_char_lines(&cs);
    let ghost all = pieces@.map_values(|l: Vec<char>| l@);
    let mut cur = GcCursor {
        section: GcSection::Outside,
        pad: None,
        padstack: None,
        shape: None,
        signal: None,
        device: None,
        route: None,
    };
    let mut recs = GencadRecords {
        units: GcUnits::Thou,
        units_scale: None,
        board: Vec::new(),
        pad_circles: Vec::new(),
        padstacks: Vec::new(),
        stack_pads: Vec::new(),
        shapes: Vec::new(),
        shape_pins: Vec::new(),
        components: Vec::new(),
        nodes: Vec::new(),
        devices: Vec::new(),
        vias: Vec::new(),
    };
    assert(recs@ =~= gc_start().1);
    let mut i: usize = 0;
    assert(all.take(0) =~= Seq::<Seq<char>>::empty());
    while i < pieces.len()
        invariant
            all == pieces@.map_values(|l: Vec<char>| l@),
            all == char_lines(utf8_lossy(bytes@)),
            i <= pieces@.len(),
            (cur@, recs@) == gc_fold(all.take(i as int)),
        decreases pieces@.len() - i,
    {
        assert(all.take(i + 1).drop_last() =~= all.take(i as int));
        assert(all.take(i + 1).last() == pieces@[i as int]@);
        let s = string_of_chars(&pieces[i]);
        let line = trim_str(s.as_str());
        if !line.is_empty() {
            gc_handle(&mut cur, &mut recs, line);
        }
        i = i + 1;
    }
    assert(all.take(i as int) =~= all);
    if recs.components.len() == 0 && recs.shapes.len() == 0 {
        return Err(malformed("GenCAD file contains no $COMPONENTS/$SHAPES data"));
    }
    Ok(recs)
}

/// A name with its spaces read as underscores (some exports mangle one
/// into the other between a component's device reference and the device).
pub open spec fn underscored(s: Seq<char>) -> Seq<char> {
    s.map_values(|c: char| if c == ' ' { '_' } else { c })
}

/// The device a component's device reference names: the device of that
/// name, else the first whose name matches with spaces read as
/// underscores; -1 when none does.
pub open spec fn device_match(ds: Seq<GcDeviceView>, name: Seq<char>) -> int {
    let exact = first_index(device_names(ds), name);
    if exact >= 0 {
        exact
    } else {
        first_index(device_names(ds).map_values(|n: Seq<char>| underscored(n)), underscored(name))
    }
}

fn underscored_text(s: &str) -> (r: String)
    ensures
        r@ == underscored(s@),
{
    let cs = chars_of(s);
    let mut out: Vec<char> = Vec::new();
    let mut i: usize = 0;
    while i < cs.len()
        invariant
            i <= cs@.len(),
            out@ == underscored(cs@).take(i as int),
            cs@ == s@,
        decreases cs@.len() - i,
    {
        out.push(if cs[i] == ' ' { '_' } else { cs[i] });
        i = i + 1;
        assert(out@ =~= underscored(cs@).take(i as int));
    }
    assert(underscored(cs@).take(i as int) =~= underscored(cs@));
    string_of_chars(&out)
}

/// The device a component's device reference names (see `device_match`).
pub fn device_for(recs: &GencadRecords, name: &str) -> (r: Option<usize>)
    ensures
        match r {
            Some(k) => k < recs.devices@.len() && k as int == device_match(recs@.devices, name@),
            None => device_match(recs@.devices, name@) < 0,
        },
{
    if let Some(k) = device_position(&recs.devices, name) {
        return Some(k);
    }
    let ghost ds = recs@.devices;
    let mut names: Vec<String> = Vec::new();
    let mut i: usize = 0;
    while i < recs.devices.len()
        invariant
            i <= recs.devices@.len(),
            ds == recs@.devices,
            names@.len() == i,
            forall|j: int| 0 <= j < i ==> #[trigger] names@[j]@ == underscored(recs.devices@[j].name@),
        decreases recs.devices@.len() - i,
    {
        names.push(underscored_text(recs.devices[i].name.as_str()));
        i = i + 1;
    }
    assert(texts(names@) =~= device_names(ds).map_values(|n: Seq<char>| underscored(n)));
    let target = underscored_text(name);
    position_of(&names, target.as_str())
}


/// The part number, value and package the library lists for a component.
pub struct GcLabels {
    pub mfg_code: Option<String>,
    pub value: Option<String>,
    pub package: Option<String>,
}

/// The device a component names, where `$DEVICES` has it.
pub open spec fn device_of(recs: GcRecordsView, c: GcComponentView) -> Option<GcDeviceView> {
    match c.device {
        Some(d) => {
            let k = device_match(recs.devices, d);
            if 0 <= k < recs.devices.len() {
                Some(recs.devices[k])
            } else {
                None
            }
        },
        None => None,
    }
}

/// The device's field, where there is a device and it has the field.
pub open spec fn device_field(dev: Option<GcDeviceView>, which: int) -> Option<Seq<char>> {
    match dev {
        Some(d) => if which == 0 {
            d.part
        } else if which == 1 {
            d.value
        } else {
            d.package
        },
        None => None,
    }
}

/// `a`, or `b` where `a` is none.
pub open spec fn or_else_text(a: Option<Seq<char>>, b: Option<Seq<char>>) -> Option<Seq<char>> {
    if a is Some {
        a
    } else {
        b
    }
}

/// A component's labels: the device's part number, else the device
/// reference itself; the device's value; the device's package, else the
/// shape's name.
pub fn component_labels(recs: &GencadRecords, comp: &GcComponent) -> (r: GcLabels)
    ensures
        opt_text(r.mfg_code) == or_else_text(device_field(device_of(recs@, comp@), 0), comp@.device),
        opt_text(r.value) == device_field(device_of(recs@, comp@), 1),
        opt_text(r.package) == or_else_text(device_field(device_of(recs@, comp@), 2), comp@.shape),
{
    let dev: Option<usize> = match &comp.device {
        Some(name) => device_for(recs, name.as_str()),
        None => None,
    };
    match dev {
        Some(k) => {
            let d = &recs.devices[k];
            proof {
                assert(recs@.devices[k as int] == d@);
            }
            let mfg_code = if d.part.is_some() {
                copy_text(&d.part)
            } else {
                copy_text(&comp.device)
            };
            GcLabels {
                mfg_code,
                value: copy_text(&d.value),
                package: if d.package.is_some() {
                    copy_text(&d.package)
                } else {
                    copy_text(&comp.shape)
                },
            }
        },
        None => GcLabels { mfg_code: copy_text(&comp.device), value: None, package: copy_text(&comp.shape) },
    }
}

/// A component's side: both for a through-hole part (one with a drilled
/// padstack), else the side it is placed on.
pub fn component_side(through_hole: bool, bottom: bool) -> (s: Side)
    ensures
        s == (if through_hole {
            Side::Both
        } else if bottom {
            Side::Bottom
        } else {
            Side::Top
        }),
{
    if through_hole {
        Side::Both
    } else if bottom {
        Side::Bottom
    } else {
        Side::Top
    }
}

/// A shape pin's side: its padstack's layers where the padstack is known,
/// else the component's side; a flipped component swaps top and bottom.
pub fn shape_pin_side(padstack: Option<PadstackInfo>, part_side: Side, flip: bool) -> (s: Side)
    ensures
        ({
            let base = match padstack {
                Some(p) => if p.top && !p.bottom {
                    Side::Top
                } else if p.bottom && !p.top {
                    Side::Bottom
                } else {
                    Side::Both
                },
                None => part_side,
            };
            s == if flip {
                match base {
                    Side::Top => Side::Bottom,
                    Side::Bottom => Side::Top,
                    Side::Both => Side::Both,
                }
            } else {
                base
            }
        }),
{
    let base = match padstack {
        Some(p) => p.side(),
        None => part_side,
    };
    if flip {
        match base {
            Side::Top => Side::Bottom,
            Side::Bottom => Side::Top,
            Side::Both => Side::Both,
        }
    } else {
        base
    }
}

} // verus!

verus! {

/// The net of pin `p` of component `r`: the signal of the last `NODE`
/// statement naming that pin; empty when none does.
pub open spec fn node_net(nodes: Seq<(Seq<char>, Seq<char>, Seq<char>)>, r: Seq<char>, p: Seq<char>) -> Seq<char>
    decreases nodes.len(),
{
    if nodes.len() == 0 {
        Seq::empty()
    } else if nodes.last().0 == r && nodes.last().1 == p {
        nodes.last().2
    } else {
        node_net(nodes.drop_last(), r, p)
    }
}

/// The `NODE` statements by designator (a slot each) and then by pin.
pub struct NodeTable {
    slots: StringHashMap<usize>,
    pins: Vec<StringHashMap<String>>,
    owners: Ghost<Seq<Seq<char>>>,
}

impl NodeTable {
    /// What the table gives pin `p` of component `r`.
    pub closed spec fn net_of(&self, r: Seq<char>, p: Seq<char>) -> Seq<char> {
        if self.slots@.contains_key(r) && self.pins@[self.slots@[r] as int]@.contains_key(p) {
            self.pins@[self.slots@[r] as int]@[p]@
        } else {
            Seq::empty()
        }
    }

    /// Every designator has a slot of its own.
    pub closed spec fn wf(&self) -> bool {
        &&& self.pins@.len() == self.owners@.len()
        &&& forall|r: Seq<char>|
            #[trigger] self.slots@.contains_key(r) ==> self.slots@[r] < self.pins@.len() && self.owners@[self.slots@[r] as int]
                == r
    }

    /// The table of `nodes`: for each (component, pin), the last signal.
    pub fn of_nodes(nodes: &Vec<(String, String, String)>) -> (t: Self)
        ensures
            t.wf(),
            forall|r: Seq<char>, p: Seq<char>| #[trigger] t.net_of(r, p) == node_net(
                nodes@.map_values(|e: (String, String, String)| (e.0@, e.1@, e.2@)),
                r,
                p,
            ),
    {
        let ghost all = nodes@.map_values(|e: (String, String, String)| (e.0@, e.1@, e.2@));
        let mut t = NodeTable { slots: StringHashMap::new(), pins: Vec::new(), owners: Ghost(Seq::empty()) };
        let mut k: usize = 0;
        proof {
            assert forall|r: Seq<char>, p: Seq<char>| #[trigger] t.net_of(r, p) == node_net(all.take(0), r, p) by {
                assert(all.take(0).len() == 0);
            }
        }
        while k < nodes.len()
            invariant
                k <= nodes@.len(),
                all == nodes@.map_values(|e: (String, String, String)| (e.0@, e.1@, e.2@)),
                t.wf(),
                forall|r: Seq<char>, p: Seq<char>| #[trigger] t.net_of(r, p) == node_net(all.take(k as int), r, p),
            decreases nodes@.len() - k,
        {
            let r = nodes[k].0.clone();
            let p = nodes[k].1.clone();
            let net = nodes[k].2.clone();
            let ghost old_t = t;
            let ghost rv = r@;
            let ghost pv = p@;
            match t.slots.get(r.as_str()) {
                Some(i) => {
                    let i = *i;
                    t.pins[i].insert(p, net);
                },
                None => {
                    let mut m: StringHashMap<String> = StringHashMap::new();
                    m.insert(p, net);
                    let i = t.pins.len();
                    t.pins.push(m);
                    t.slots.insert(r, i);
                    proof {
                        t.owners@ = t.owners@.push(rv);
                    }
                },
            }
            proof {
                let tk = all.take(k + 1);
                assert(tk.drop_last() =~= all.take(k as int));
                assert(tk.last() == all[k as int]);
                assert(all[k as int] == (rv, pv, nodes@[k as int].2@));
                assert forall|q: Seq<char>| #[trigger] t.slots@.contains_key(q) implies t.slots@[q] < t.pins@.len()
                    && t.owners@[t.slots@[q] as int] == q by {
                    if q != rv {
                        assert(old_t.slots@.contains_key(q));
                    }
                }
                assert forall|r2: Seq<char>, p2: Seq<char>| #[trigger] t.net_of(r2, p2) == node_net(tk, r2, p2) by {
                    if r2 != rv || p2 != pv {
                        assert(node_net(tk, r2, p2) == node_net(all.take(k as int), r2, p2));
                        assert(old_t.net_of(r2, p2) == node_net(all.take(k as int), r2, p2));
                        if r2 != rv && old_t.slots@.contains_key(r2) {
                            assert(old_t.owners@[old_t.slots@[r2] as int] == r2);
                            if old_t.slots@.contains_key(rv) {
                                assert(old_t.owners@[old_t.slots@[rv] as int] == rv);
                            }
                        }
                    }
                }
            }
            k = k + 1;
        }
        assert(all.take(k as int) =~= all);
        t
    }

    /// The net of pin `p` of component `r` (empty when no `NODE` names it).
    pub fn lookup(&self, r: &str, p: &str) -> (s: String)
        requires
            self.wf(),
        ensures
            s@ == self.net_of(r@, p@),
    {
        match self.slots.get(r) {
            Some(i) => match self.pins[*i].get(p) {
                Some(n) => n.clone(),
                None => String::new(),
            },
            None => String::new(),
        }
    }
}

/// The indices of the shape pins of shape `s`, in file order.
pub open spec fn shape_pin_ids(sp: Seq<(Seq<char>, Seq<Seq<char>>)>, s: Seq<char>) -> Seq<int>
    decreases sp.len(),
{
    if sp.len() == 0 {
        Seq::empty()
    } else if sp.last().0 == s {
        shape_pin_ids(sp.drop_last(), s).push(sp.len() - 1)
    } else {
        shape_pin_ids(sp.drop_last(), s)
    }
}

proof fn lemma_shape_pin_ids(sp: Seq<(Seq<char>, Seq<Seq<char>>)>, s: Seq<char>)
    ensures
        forall|j: int| 0 <= j < shape_pin_ids(sp, s).len() ==> 0 <= #[trigger] shape_pin_ids(sp, s)[j] < sp.len(),
    decreases sp.len(),
{
    if sp.len() > 0 {
        lemma_shape_pin_ids(sp.drop_last(), s);
        let prev = shape_pin_ids(sp.drop_last(), s);
        let ids = shape_pin_ids(sp, s);
        assert forall|j: int| 0 <= j < ids.len() implies 0 <= #[trigger] ids[j] < sp.len() by {
            if j < prev.len() {
                assert(ids[j] == prev[j]);
            }
        }
    }
}

/// The pins of each declared shape, by shape name.
pub struct ShapeTable {
    slots: StringHashMap<usize>,
    lists: Vec<Vec<usize>>,
    owners: Ghost<Seq<Seq<char>>>,
}

impl ShapeTable {
    pub closed spec fn wf(&self) -> bool {
        &&& self.lists@.len() == self.owners@.len()
        &&& forall|r: Seq<char>|
            #[trigger] self.slots@.contains_key(r) ==> self.slots@[r] < self.lists@.len() && self.owners@[self.slots@[r] as int]
                == r
    }

    /// Is `s` a declared shape?
    pub closed spec fn has(&self, s: Seq<char>) -> bool {
        self.slots@.contains_key(s)
    }

    /// The pin indices listed for shape `s`.
    pub closed spec fn ids(&self, s: Seq<char>) -> Seq<int> {
        self.lists@[self.slots@[s] as int]@.map_values(|k: usize| k as int)
    }

    /// The table of `recs`: every shape `$SHAPES` declares, with the indices
    /// of its pins.
    pub fn of_records(recs: &GencadRecords) -> (t: Self)
        ensures
            t.wf(),
            forall|s: Seq<char>| #[trigger] t.has(s) == recs@.shapes.contains(s),
            forall|s: Seq<char>| t.has(s) ==> #[trigger] t.ids(s) == shape_pin_ids(recs@.shape_pins, s),
    {
        let ghost rv = recs@;
        let mut t = ShapeTable { slots: StringHashMap::new(), lists: Vec::new(), owners: Ghost(Seq::empty()) };
        let mut i: usize = 0;
        while i < recs.shapes.len()
            invariant
                i <= recs.shapes@.len(),
                rv == recs@,
                t.wf(),
                forall|s: Seq<char>| #[trigger] t.has(s) == rv.shapes.take(i as int).contains(s),
                forall|s: Seq<char>| t.has(s) ==> (#[trigger] t.ids(s)).len() == 0,
            decreases recs.shapes@.len() - i,
        {
            let name = recs.shapes[i].clone();
            let ghost nv = name@;
            let ghost old_t = t;
            proof {
                assert(rv.shapes[i as int] == nv);
                assert(rv.shapes.take(i + 1) =~= rv.shapes.take(i as int).push(nv));
            }
            proof {
                assert forall|q: Seq<char>| #[trigger] rv.shapes.take(i + 1).contains(q) == (rv.shapes.take(i as int).contains(q)
                    || q == nv) by {
                    let a = rv.shapes.take(i as int);
                    let b = rv.shapes.take(i + 1);
                    if a.contains(q) {
                        let w = choose|w: int| 0 <= w < a.len() && a[w] == q;
                        assert(b[w] == q);
                    }
                    if q == nv {
                        assert(b[i as int] == nv);
                    }
                    if b.contains(q) && q != nv {
                        let w = choose|w: int| 0 <= w < b.len() && b[w] == q;
                        assert(a[w] == q);
                    }
                }
            }
            if !t.slots.contains_key(name.as_str()) {
                let k = t.lists.len();
                t.lists.push(Vec::new());
                t.slots.insert(name, k);
                proof {
                    t.owners@ = t.owners@.push(nv);
                    assert forall|q: Seq<char>| #[trigger] t.slots@.contains_key(q) implies t.slots@[q] < t.lists@.len()
                        && t.owners@[t.slots@[q] as int] == q by {
                        if q != nv {
                            assert(old_t.slots@.contains_key(q));
                        }
                    }
                    assert forall|q: Seq<char>| t.has(q) implies (#[trigger] t.ids(q)).len() == 0 by {
                        if q != nv {
                            assert(old_t.has(q));
                            assert(old_t.ids(q).len() == 0);
                            assert(t.lists@[t.slots@[q] as int] == old_t.lists@[old_t.slots@[q] as int]);
                        }
                    }
                }
            }
            proof {
                assert forall|q: Seq<char>| #[trigger] t.has(q) == rv.shapes.take(i + 1).contains(q) by {
                    if q != nv {
                        assert(t.has(q) == old_t.has(q));
                    }
                }
            }
            i = i + 1;
        }
        assert(rv.shapes.take(i as int) =~= rv.shapes);
        let ghost sp = rv.shape_pins;
        let mut k: usize = 0;
        proof {
            assert forall|s: Seq<char>| t.has(s) implies #[trigger] t.ids(s) == shape_pin_ids(sp.take(0), s) by {
                assert(sp.take(0).len() == 0);
                assert(t.ids(s) =~= Seq::<int>::empty());
            }
        }
        while k < recs.shape_pins.len()
            invariant
                k <= recs.shape_pins@.len(),
                rv == recs@,
                sp == rv.shape_pins,
                t.wf(),
                forall|s: Seq<char>| #[trigger] t.has(s) == rv.shapes.contains(s),
                forall|s: Seq<char>| t.has(s) ==> #[trigger] t.ids(s) == shape_pin_ids(sp.take(k as int), s),
            decreases recs.shape_pins@.len() - k,
        {
            let ghost old_t = t;
            let ghost sv = recs.shape_pins@[k as int].0@;
            proof {
                assert(sp[k as int].0 == sv);
                assert(sp.take(k + 1).drop_last() =~= sp.take(k as int));
                assert(sp.take(k + 1).last() == sp[k as int]);
            }
            match t.slots.get(recs.shape_pins[k].0.as_str()) {
                Some(slot) => {
                    let slot = *slot;
                    t.lists[slot].push(k);
                    proof {
                        assert forall|q: Seq<char>| #[trigger] t.has(q) == rv.shapes.contains(q) by {
                            assert(t.has(q) == old_t.has(q));
                        }
                        assert(t.ids(sv) =~= old_t.ids(sv).push(k as int));
                        assert forall|q: Seq<char>| t.has(q) implies #[trigger] t.ids(q) == shape_pin_ids(sp.take(k + 1), q) by {
                            if q != sv {
                                assert(old_t.owners@[old_t.slots@[q] as int] == q);
                                assert(old_t.owners@[old_t.slots@[sv] as int] == sv);
                                assert(t.ids(q) == old_t.ids(q));
                            }
                        }
                    }
                },
                None => {
                    proof {
                        assert forall|q: Seq<char>| t.has(q) implies #[trigger] t.ids(q) == shape_pin_ids(sp.take(k + 1), q) by {
                            assert(q != sv);
                        }
                    }
                },
            }
            k = k + 1;
        }
        assert(sp.take(k as int) =~= sp);
        t
    }

    /// Whether shape `s` is declared, and the indices of its pins.
    pub fn pins_of(&self, s: &str) -> (r: Option<&Vec<usize>>)
        requires
            self.wf(),
        ensures
            match r {
                Some(v) => self.has(s@) && v@.map_values(|k: usize| k as int) == self.ids(s@),
                None => !self.has(s@),
            },
    {
        match self.slots.get(s) {
            Some(slot) => Some(&self.lists[*slot]),
            None => None,
        }
    }
}

/// The padstack a pad reference names: the last one of that name, or -1.
pub open spec fn padstack_at(ps: Seq<GcPadstackView>, name: Seq<char>) -> int
    decreases ps.len(),
{
    if ps.len() == 0 {
        -1
    } else if ps.last().name == name {
        ps.len() - 1
    } else {
        padstack_at(ps.drop_last(), name)
    }
}

proof fn lemma_padstack_at(ps: Seq<GcPadstackView>, name: Seq<char>)
    ensures
        -1 <= padstack_at(ps, name) < ps.len(),
        padstack_at(ps, name) >= 0 ==> ps[padstack_at(ps, name)].name == name,
    decreases ps.len(),
{
    if ps.len() > 0 {
        lemma_padstack_at(ps.drop_last(), name);
    }
}

/// The side a padstack's layers put a pin on.
pub open spec fn stack_side(p: GcPadstackView) -> Side {
    if p.top && !p.bottom {
        Side::Top
    } else if p.bottom && !p.top {
        Side::Bottom
    } else {
        Side::Both
    }
}

pub open spec fn flipped(s: Side, flip: bool) -> Side {
    if flip {
        match s {
            Side::Top => Side::Bottom,
            Side::Bottom => Side::Top,
            Side::Both => Side::Both,
        }
    } else {
        s
    }
}

/// The shape pins a component places: those of its shape, where
/// `$SHAPES` declares it.
pub open spec fn comp_pin_ids(recs: GcRecordsView, c: GcComponentView) -> Seq<int> {
    match c.shape {
        Some(s) => if recs.shapes.contains(s) {
            shape_pin_ids(recs.shape_pins, s)
        } else {
            Seq::empty()
        },
        None => Seq::empty(),
    }
}

/// The padstack shape pin `k` uses, or -1.
pub open spec fn pin_stack(recs: GcRecordsView, k: int) -> int {
    padstack_at(recs.padstacks, tok_or_empty(recs.shape_pins[k].1, 1))
}

/// A component is through-hole when one of its pins uses a drilled
/// padstack (`drilled` tells which padstacks are).
pub open spec fn comp_through_hole(recs: GcRecordsView, drilled: Seq<bool>, c: GcComponentView) -> bool {
    let ids = comp_pin_ids(recs, c);
    exists|j: int| 0 <= j < ids.len() && pin_stack(recs, ids[j]) >= 0 && #[trigger] drilled[pin_stack(recs, ids[j])]
}

/// Component `i` repeats an earlier placement: same shape, layer and
/// position (`at` holds the positions in whole mils).
pub open spec fn gc_duplicate(recs: GcRecordsView, at: Seq<(i64, i64)>, i: int) -> bool {
    let c = recs.components[i];
    &&& c.shape is Some
    &&& exists|j: int|
        0 <= j < i && #[trigger] recs.components[j].shape == c.shape && recs.components[j].bottom == c.bottom && at[j]
            == at[i]
}

pub open spec fn gc_part(recs: GcRecordsView, drilled: Seq<bool>, c: GcComponentView) -> PartSpec {
    let dev = device_of(recs, c);
    PartSpec {
        name: c.refdes,
        side: if comp_through_hole(recs, drilled, c) {
            Side::Both
        } else if c.bottom {
            Side::Bottom
        } else {
            Side::Top
        },
        mfg_code: or_else_text(device_field(dev, 0), c.device),
        value: device_field(dev, 1),
        package: or_else_text(device_field(dev, 2), c.shape),
    }
}

/// The pins of a component that became part `part`, at the positions and
/// with the radii `geo` gives.
pub open spec fn gc_comp_pins(
    recs: GcRecordsView,
    drilled: Seq<bool>,
    geo: Seq<(Point, i64)>,
    c: GcComponentView,
    part: int,
) -> Seq<PinSpec> {
    let ids = comp_pin_ids(recs, c);
    let side = gc_part(recs, drilled, c).side;
    Seq::new(
        ids.len(),
        |j: int|
            {
                let args = recs.shape_pins[ids[j]].1;
                let q = pin_stack(recs, ids[j]);
                PinSpec {
                    part,
                    number: tok_or_empty(args, 0),
                    name: Seq::empty(),
                    pos: geo[j].0,
                    radius: geo[j].1,
                    side: flipped(if q >= 0 { stack_side(recs.padstacks[q]) } else { side }, c.flip),
                    net: node_net(recs.nodes, c.refdes, tok_or_empty(args, 0)),
                }
            },
    )
}

/// The parts and pins of the first `n` components, duplicates left out.
pub open spec fn gc_board(
    recs: GcRecordsView,
    at: Seq<(i64, i64)>,
    geo: Seq<Seq<(Point, i64)>>,
    drilled: Seq<bool>,
    n: int,
) -> (Seq<PartSpec>, Seq<PinSpec>)
    decreases n,
{
    if n <= 0 {
        (Seq::empty(), Seq::empty())
    } else {
        let prev = gc_board(recs, at, geo, drilled, n - 1);
        let c = recs.components[n - 1];
        if gc_duplicate(recs, at, n - 1) {
            prev
        } else {
            (
                prev.0.push(gc_part(recs, drilled, c)),
                prev.1 + gc_comp_pins(recs, drilled, geo[n - 1], c, prev.0.len() as int),
            )
        }
    }
}

/// The vias as test points on both sides, at the positions `pos` gives.
pub open spec fn gc_nails(recs: GcRecordsView, pos: Seq<Point>) -> Seq<NailSpec> {
    Seq::new(
        recs.vias.len(),
        |k: int| NailSpec { pos: pos[k], side: Side::Both, probe: 0, net: recs.vias[k].0 },
    )
}

/// Where the application placed one component: its position in whole
/// mils (what duplicate placements are compared by), and, for each pin of
/// its shape in order, the position and pad radius in model units.
pub struct GcPlaced {
    pub at: (i64, i64),
    pub pins: Vec<(Point, i64)>,
}

/// The padstack a pad reference names (the last one of that name).
fn padstack_index(ps: &Vec<GcPadstack>, name: &str) -> (r: Option<usize>)
    ensures
        match r {
            Some(q) => q as int == padstack_at(ps@.map_values(|p: GcPadstack| p@), name@),
            None => padstack_at(ps@.map_values(|p: GcPadstack| p@), name@) < 0,
        },
{
    let ghost all = ps@.map_values(|p: GcPadstack| p@);
    let mut k = ps.len();
    assert(all.take(k as int) =~= all);
    while k > 0
        invariant
            k <= ps@.len(),
            all == ps@.map_values(|p: GcPadstack| p@),
            padstack_at(all, name@) == padstack_at(all.take(k as int), name@),
        decreases k,
    {
        assert(all.take(k as int).drop_last() =~= all.take(k - 1));
        assert(all[k - 1] == ps@[k - 1]@);
        if same_text(ps[k - 1].name.as_str(), name) {
            return Some(k - 1);
        }
        k = k - 1;
    }
    None
}

/// Does component `i` repeat the placement of an earlier one?
fn is_duplicate(recs: &GencadRecords, placed: &Vec<GcPlaced>, i: usize) -> (r: bool)
    requires
        i < recs@.components.len(),
        placed@.len() == recs@.components.len(),
    ensures
        r == gc_duplicate(recs@, placed@.map_values(|g: GcPlaced| g.at), i as int),
{
    let ghost rv = recs@;
    let ghost at = placed@.map_values(|g: GcPlaced| g.at);
    let c = &recs.components[i];
    assert(rv.components[i as int] == c@);
    let s = match &c.shape {
        Some(s) => s,
        None => {
            return false;
        },
    };
    let mut j: usize = 0;
    while j < i
        invariant
            j <= i < rv.components.len(),
            rv == recs@,
            at == placed@.map_values(|g: GcPlaced| g.at),
            placed@.len() == rv.components.len(),
            rv.components[i as int] == c@,
            c.shape == Some(*s),
            forall|x: int|
                0 <= x < j ==> !(#[trigger] rv.components[x].shape == c@.shape && rv.components[x].bottom == c@.bottom
                    && at[x] == at[i as int]),
        decreases i - j,
    {
        let d = &recs.components[j];
        assert(rv.components[j as int] == d@);
        assert(at[j as int] == placed@[j as int].at && at[i as int] == placed@[i as int].at);
        if d.bottom == c.bottom && placed[j].at.0 == placed[i].at.0 && placed[j].at.1 == placed[i].at.1 {
            if let Some(t) = &d.shape {
                if same_text(t.as_str(), s.as_str()) {
                    assert(rv.components[j as int].shape == c@.shape);
                    return true;
                }
            }
        }
        j = j + 1;
    }
    false
}

/// The padstack shape pin `k` uses.
fn pin_padstack(recs: &GencadRecords, k: usize) -> (r: Option<usize>)
    requires
        k < recs@.shape_pins.len(),
    ensures
        match r {
            Some(q) => q as int == pin_stack(recs@, k as int) && q < recs@.padstacks.len(),
            None => pin_stack(recs@, k as int) < 0,
        },
{
    let ghost rv = recs@;
    assert(rv.padstacks =~= recs.padstacks@.map_values(|p: GcPadstack| p@));
    assert(rv.shape_pins[k as int].1 == texts(recs.shape_pins@[k as int].1@));
    let pad = token_or_empty(&recs.shape_pins[k].1, 1);
    proof {
        lemma_padstack_at(rv.padstacks, pad@);
    }
    padstack_index(&recs.padstacks, pad.as_str())
}

/// Does one of the listed shape pins use a drilled padstack?
fn through_hole(recs: &GencadRecords, drilled: &Vec<bool>, ids: &Vec<usize>, Ghost(c): Ghost<GcComponentView>) -> (r: bool)
    requires
        drilled@.len() == recs@.padstacks.len(),
        ids@.map_values(|k: usize| k as int) == comp_pin_ids(recs@, c),
        forall|j: int| 0 <= j < ids@.len() ==> (#[trigger] ids@[j]) < recs@.shape_pins.len(),
    ensures
        r == comp_through_hole(recs@, drilled@, c),
{
    let ghost ks = comp_pin_ids(recs@, c);
    let mut j: usize = 0;
    while j < ids.len()
        invariant
            j <= ids@.len(),
            drilled@.len() == recs@.padstacks.len(),
            ks == comp_pin_ids(recs@, c),
            ks == ids@.map_values(|k: usize| k as int),
            forall|x: int| 0 <= x < ids@.len() ==> (#[trigger] ids@[x]) < recs@.shape_pins.len(),
            forall|x: int| 0 <= x < j ==> !(pin_stack(recs@, ks[x]) >= 0 && #[trigger] drilled@[pin_stack(recs@, ks[x])]),
        decreases ids@.len() - j,
    {
        assert(ks[j as int] == ids@[j as int] as int);
        match pin_padstack(recs, ids[j]) {
            Some(q) => {
                if drilled[q] {
                    return true;
                }
            },
            None => {},
        }
        j = j + 1;
    }
    false
}

/// Appends the pins of component `c`, which became part `part`.
fn add_comp_pins(
    recs: &GencadRecords,
    drilled: &Vec<bool>,
    nodes: &NodeTable,
    ids: &Vec<usize>,
    geo: &Vec<(Point, i64)>,
    c: &GcComponent,
    part: usize,
    part_side: Side,
    pins: &mut Vec<PinRec>,
)
    requires
        nodes.wf(),
        forall|r: Seq<char>, p: Seq<char>| #[trigger] nodes.net_of(r, p) == node_net(recs@.nodes, r, p),
        drilled@.len() == recs@.padstacks.len(),
        ids@.map_values(|k: usize| k as int) == comp_pin_ids(recs@, c@),
        forall|j: int| 0 <= j < ids@.len() ==> (#[trigger] ids@[j]) < recs@.shape_pins.len(),
        geo@.len() == ids@.len(),
        part_side == gc_part(recs@, drilled@, c@).side,
    ensures
        final(pins)@.map_values(|p: PinRec| pin_spec(p)) == old(pins)@.map_values(|p: PinRec| pin_spec(p)) + gc_comp_pins(
            recs@,
            drilled@,
            geo@,
            c@,
            part as int,
        ),
        final(pins)@.len() == old(pins)@.len() + ids@.len(),
        forall|j: int| 0 <= j < old(pins)@.len() ==> #[trigger] final(pins)@[j] == old(pins)@[j],
        forall|j: int| old(pins)@.len() <= j < final(pins)@.len() ==> (#[trigger] final(pins)@[j]).part == part,
{
    let ghost rv = recs@;
    let ghost base = pins@.map_values(|p: PinRec| pin_spec(p));
    let ghost want = gc_comp_pins(rv, drilled@, geo@, c@, part as int);
    let ghost n0 = pins@.len();
    let ghost p0 = pins@;
    let mut j: usize = 0;
    while j < ids.len()
        invariant
            j <= ids@.len(),
            rv == recs@,
            nodes.wf(),
            forall|r: Seq<char>, p: Seq<char>| #[trigger] nodes.net_of(r, p) == node_net(rv.nodes, r, p),
            drilled@.len() == rv.padstacks.len(),
            ids@.map_values(|k: usize| k as int) == comp_pin_ids(rv, c@),
            forall|x: int| 0 <= x < ids@.len() ==> (#[trigger] ids@[x]) < rv.shape_pins.len(),
            geo@.len() == ids@.len(),
            part_side == gc_part(rv, drilled@, c@).side,
            want == gc_comp_pins(rv, drilled@, geo@, c@, part as int),
            pins@.len() == n0 + j,
            pins@.map_values(|p: PinRec| pin_spec(p)) == base + want.take(j as int),
            forall|x: int| 0 <= x < n0 ==> #[trigger] pins@[x] == p0[x],
            forall|x: int| n0 <= x < pins@.len() ==> (#[trigger] pins@[x]).part == part,
        decreases ids@.len() - j,
    {
        let k = ids[j];
        let ghost kv = k as int;
        assert(comp_pin_ids(rv, c@)[j as int] == kv);
        assert(rv.shape_pins[kv].1 == texts(recs.shape_pins@[kv].1@));
        let number = token_or_empty(&recs.shape_pins[k].1, 0);
        let net = nodes.lookup(c.refdes.as_str(), number.as_str());
        let stack = match pin_padstack(recs, k) {
            Some(q) => {
                assert(rv.padstacks[q as int] == recs.padstacks@[q as int]@);
                Some(PadstackInfo { drilled: drilled[q], top: recs.padstacks[q].top, bottom: recs.padstacks[q].bottom })
            },
            None => None,
        };
        let side = shape_pin_side(stack, part_side, c.flip);
        let (pos, radius) = geo[j];
        let ghost before = pins@;
        pins.push(PinRec { part, number, name: String::new(), pos, radius, side, net });
        proof {
            assert(pin_spec(pins@.last()) == want[j as int]);
            assert(want.take(j + 1) =~= want.take(j as int).push(want[j as int]));
            assert(pins@.map_values(|p: PinRec| pin_spec(p)) =~= before.map_values(|p: PinRec| pin_spec(p)).push(
                pin_spec(pins@.last()),
            ));
            assert forall|x: int| 0 <= x < n0 implies #[trigger] pins@[x] == p0[x] by {
                assert(pins@[x] == before[x]);
            }
            assert forall|x: int| n0 <= x < pins@.len() implies (#[trigger] pins@[x]).part == part by {
                if x < before.len() {
                    assert(pins@[x] == before[x]);
                }
            }
        }
        j = j + 1;
    }
    assert(want.take(j as int) =~= want);
}

/// Builds the board from the records and the geometry the application
/// computed from their numbers: the outline segments, which padstacks are
/// drilled, where each component and its pins landed, and where each via
/// is. A component that repeats an earlier placement is left out; each
/// pin is wired to the net of the last `NODE` naming it; the vias become
/// test points. Fails only when the counts do not fit the model's 32-bit
/// indices.
pub fn assemble(
    recs: &GencadRecords,
    outline: &Vec<(Point, Point)>,
    drilled: &Vec<bool>,
    placed: &Vec<GcPlaced>,
    vias: &Vec<Point>,
) -> (r: Result<BoardModel, ParseError>)
    requires
        drilled@.len() == recs@.padstacks.len(),
        placed@.len() == recs@.components.len(),
        forall|i: int|
            0 <= i < placed@.len() ==> (#[trigger] placed@[i]).pins@.len() == comp_pin_ids(recs@, recs@.components[i]).len(),
        vias@.len() == recs@.vias.len(),
    ensures
        ({
            let b = gc_board(
                recs@,
                placed@.map_values(|g: GcPlaced| g.at),
                placed@.map_values(|g: GcPlaced| g.pins@),
                drilled@,
                recs@.components.len() as int,
            );
            let nails = gc_nails(recs@, vias@);
            &&& r is Ok <==> board_fits(b.0.len() as int, b.1.len() as int, nails.len() as int)
            &&& r is Err ==> fails_malformed(r)
            &&& r matches Ok(m) ==> records_model(m, BoardFormat::GenCad, outline@, b.0, b.1, nails, true)
        }),
        r matches Ok(m) ==> parsed_ok(m, BoardFormat::GenCad),
{
    let ghost rv = recs@;
    let ghost at = placed@.map_values(|g: GcPlaced| g.at);
    let ghost geo = placed@.map_values(|g: GcPlaced| g.pins@);
    assert(rv.nodes =~= recs.nodes@.map_values(|e: (String, String, String)| (e.0@, e.1@, e.2@)));
    let nodes = NodeTable::of_nodes(&recs.nodes);
    let shapes = ShapeTable::of_records(recs);
    let mut parts: Vec<PartRec> = Vec::new();
    let mut pins: Vec<PinRec> = Vec::new();
    let mut i: usize = 0;
    while i < recs.components.len()
        invariant
            i <= rv.components.len(),
            rv == recs@,
            at == placed@.map_values(|g: GcPlaced| g.at),
            geo == placed@.map_values(|g: GcPlaced| g.pins@),
            drilled@.len() == rv.padstacks.len(),
            placed@.len() == rv.components.len(),
            forall|x: int| 0 <= x < placed@.len() ==> (#[trigger] placed@[x]).pins@.len() == comp_pin_ids(rv, rv.components[x]).len(),
            nodes.wf(),
            forall|r: Seq<char>, p: Seq<char>| #[trigger] nodes.net_of(r, p) == node_net(rv.nodes, r, p),
            shapes.wf(),
            forall|s: Seq<char>| #[trigger] shapes.has(s) == rv.shapes.contains(s),
            forall|s: Seq<char>| shapes.has(s) ==> #[trigger] shapes.ids(s) == shape_pin_ids(rv.shape_pins, s),
            parts@.map_values(|p: PartRec| part_spec(p)) == gc_board(rv, at, geo, drilled@, i as int).0,
            pins@.map_values(|p: PinRec| pin_spec(p)) == gc_board(rv, at, geo, drilled@, i as int).1,
            forall|j: int| 0 <= j < pins@.len() ==> (#[trigger] pins@[j]).part < parts@.len(),
        decreases rv.components.len() - i,
    {
        let c = &recs.components[i];
        let ghost cv = c@;
        assert(rv.components[i as int] == cv);
        if is_duplicate(recs, placed, i) {
            i = i + 1;
            continue;
        }
        let empty: Vec<usize> = Vec::new();
        let ids: &Vec<usize> = match &c.shape {
            Some(s) => match shapes.pins_of(s.as_str()) {
                Some(v) => v,
                None => &empty,
            },
            None => &empty,
        };
        proof {
            assert(ids@.map_values(|k: usize| k as int) =~= comp_pin_ids(rv, cv));
            match cv.shape {
                Some(s) => if rv.shapes.contains(s) {
                    lemma_shape_pin_ids(rv.shape_pins, s);
                },
                None => {},
            }
            assert forall|j: int| 0 <= j < ids@.len() implies (#[trigger] ids@[j]) < rv.shape_pins.len() by {
                assert(ids@.map_values(|k: usize| k as int)[j] == ids@[j] as int);
            }
        }
        let th = through_hole(recs, drilled, ids, Ghost(cv));
        let part_side = component_side(th, c.bottom);
        let labels = component_labels(recs, c);
        let ghost before_parts = parts@;
        parts.push(
            PartRec {
                name: c.refdes.clone(),
                side: part_side,
                mfg_code: labels.mfg_code,
                value: labels.value,
                package: labels.package,
            },
        );
        let part = parts.len() - 1;
        proof {
            assert(part_spec(parts@.last()) == gc_part(rv, drilled@, cv));
            assert(parts@.map_values(|p: PartRec| part_spec(p)) =~= before_parts.map_values(|p: PartRec| part_spec(p)).push(
                part_spec(parts@.last()),
            ));
            assert(geo[i as int] == placed@[i as int].pins@);
        }
        let ghost before_pins = pins@;
        add_comp_pins(recs, drilled, &nodes, ids, &placed[i].pins, c, part, part_side, &mut pins);
        proof {
            assert forall|j: int| 0 <= j < pins@.len() implies (#[trigger] pins@[j]).part < parts@.len() by {
                if j < before_pins.len() {
                    assert(pins@[j] == before_pins[j]);
                }
            }
        }
        i = i + 1;
    }
    let mut nails: Vec<RawNail> = Vec::new();
    let mut k: usize = 0;
    while k < vias.len()
        invariant
            k <= vias@.len(),
            rv == recs@,
            vias@.len() == rv.vias.len(),
            nails@.map_values(|n: RawNail| nail_spec(n)) == gc_nails(rv, vias@).take(k as int),
        decreases vias@.len() - k,
    {
        assert(rv.vias[k as int].0 == recs.vias@[k as int].0@);
        let ghost before = nails@;
        nails.push(RawNail { pos: vias[k], side: Side::Both, net: recs.vias[k].0.clone(), probe: 0 });
        proof {
            assert(nails@.map_values(|n: RawNail| nail_spec(n)) =~= before.map_values(|n: RawNail| nail_spec(n)).push(
                nail_spec(nails@.last()),
            ));
            assert(gc_nails(rv, vias@).take(k + 1) =~= gc_nails(rv, vias@).take(k as int).push(gc_nails(rv, vias@)[k as int]));
        }
        k = k + 1;
    }
    assert(gc_nails(rv, vias@).take(k as int) =~= gc_nails(rv, vias@));
    records_assemble(BoardFormat::GenCad, outline, &parts, &pins, &nails, true)
}

} // verus!
