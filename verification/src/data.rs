//! The library's record types and the parsed-board cache layout:
//! `cache/{sha256}.fbb` files holding a serialized `BoardModel` behind a
//! small versioned header. The database itself and the file reads and writes
//! belong to the application.

use vstd::prelude::*;
use crate::model::{MODEL_VERSION, BoardModel, Point, Side, bounds_of, listed_positions};
use crate::netclass::{is_power_hint, spec_is_power_hint};
use crate::strs::concat_str;

verus! {

/// One board of the library, as listed.
pub struct BoardRow {
    pub board_id: i64,
    pub sha256: String,
    pub display_name: String,
    pub model: Option<String>,
    pub oem_code: Option<String>,
    pub format: String,
    pub part_count: i64,
    pub net_count: i64,
    pub pin_count: i64,
    pub condition: String,
    pub favorite: bool,
    pub path: Option<String>,
    pub missing: bool,
}

/// A file that failed to parse, with the reason.
pub struct QuarantineRow {
    pub path: String,
    pub reason: String,
}

/// What the library records of one part: its index in the model, its
/// designator and side, the bounds of its pins, its pin count, and value,
/// part number and package as the file gave them.
pub struct PartRow {
    pub idx: usize,
    pub refdes: String,
    pub side: Side,
    pub bounds: Option<(Point, Point)>,
    pub pin_count: usize,
    pub value: Option<String>,
    pub part_number: Option<String>,
    pub package: Option<String>,
}

/// What the library records of one net: its index, name, pin count and
/// whether the name looks like a power rail.
pub struct NetRow {
    pub idx: usize,
    pub name: String,
    pub pin_count: usize,
    pub is_power: bool,
}

/// The rows a board adds to the library: its counts (the synthetic
/// test-pad groups are not counted as parts), a row per real part and a
/// row per net, in model order.
pub struct BoardRows {
    pub part_count: usize,
    pub net_count: usize,
    pub pin_count: usize,
    pub parts: Vec<PartRow>,
    pub nets: Vec<NetRow>,
}

pub open spec fn part_row_of(m: BoardModel, i: int) -> PartRow {
    let p = m.parts@[i];
    PartRow {
        idx: i as usize,
        refdes: p.refdes,
        side: p.side,
        bounds: bounds_of(listed_positions(m.pins@, p.pins@)),
        pin_count: p.pins@.len() as usize,
        value: p.value,
        part_number: p.mfg_code,
        package: p.package,
    }
}

/// The rows of the real parts among the first `n`.
pub open spec fn part_rows(m: BoardModel, n: int) -> Seq<PartRow>
    decreases n,
{
    if n <= 0 {
        Seq::empty()
    } else if m.parts@[n - 1].is_dummy {
        part_rows(m, n - 1)
    } else {
        part_rows(m, n - 1).push(part_row_of(m, n - 1))
    }
}

pub open spec fn net_row_of(m: BoardModel, i: int) -> NetRow {
    NetRow {
        idx: i as usize,
        name: m.nets@[i].name,
        pin_count: m.nets@[i].pins@.len() as usize,
        is_power: spec_is_power_hint(m.nets@[i].name@),
    }
}

/// A copy of an optional text.
pub(crate) fn copy_text(o: &Option<String>) -> (r: Option<String>)
    ensures
        r == *o,
{
    match o {
        Some(t) => Some(t.clone()),
        None => None,
    }
}

/// The library rows of a board.
pub fn board_rows(m: &BoardModel) -> (r: BoardRows)
    requires
        m.wf(),
    ensures
        r.parts@ == part_rows(*m, m.parts@.len() as int),
        r.part_count == r.parts@.len(),
        r.nets@ == Seq::new(m.nets@.len(), |i: int| net_row_of(*m, i)),
        r.net_count == m.nets@.len(),
        r.pin_count == m.pins@.len(),
{
    let mut parts: Vec<PartRow> = Vec::new();
    let mut i: usize = 0;
    while i < m.parts.len()
        invariant
            m.wf(),
            i <= m.parts@.len(),
            parts@ == part_rows(*m, i as int),
            parts@.len() <= i,
        decreases m.parts@.len() - i,
    {
        if !m.parts[i].is_dummy {
            let p = &m.parts[i];
            let b = m.part_bounds(i);
            parts.push(
                PartRow {
                    idx: i,
                    refdes: p.refdes.clone(),
                    side: p.side,
                    bounds: b,
                    pin_count: p.pins.len(),
                    value: copy_text(&p.value),
                    part_number: copy_text(&p.mfg_code),
                    package: copy_text(&p.package),
                },
            );
        }
        i = i + 1;
    }
    let mut nets: Vec<NetRow> = Vec::new();
    let mut k: usize = 0;
    while k < m.nets.len()
        invariant
            k <= m.nets@.len(),
            nets@ == Seq::new(k as nat, |j: int| net_row_of(*m, j)),
        decreases m.nets@.len() - k,
    {
        let n = &m.nets[k];
        nets.push(NetRow { idx: k, name: n.name.clone(), pin_count: n.pins.len(), is_power: is_power_hint(n.name.as_str()) });
        k = k + 1;
        assert(nets@ =~= Seq::new(k as nat, |j: int| net_row_of(*m, j)));
    }
    let part_count = parts.len();
    BoardRows { part_count, net_count: m.nets.len(), pin_count: m.pins.len(), parts, nets }
}

/// The cache file header: the magic "FBVC", then the model version as a
/// little-endian `u32`.
pub open spec fn cache_header() -> Seq<u8> {
    seq![
        70u8,
        66u8,
        86u8,
        67u8,
        (MODEL_VERSION % 256) as u8,
        ((MODEL_VERSION / 256) % 256) as u8,
        ((MODEL_VERSION / 65536) % 256) as u8,
        (MODEL_VERSION / 16777216) as u8,
    ]
}

pub fn header_bytes() -> (h: Vec<u8>)
    ensures
        h@ == cache_header(),
{
    let v = MODEL_VERSION;
    let h = vec![
        70u8,
        66u8,
        86u8,
        67u8,
        (v % 256) as u8,
        ((v / 256) % 256) as u8,
        ((v / 65536) % 256) as u8,
        (v / 16777216) as u8,
    ];
    assert(h@ =~= cache_header());
    h
}

/// What a cache file's first bytes say.
#[derive(Debug, Clone, Copy, PartialEq, Eq, Structural)]
pub enum HeaderCheck {
    /// Fewer than eight bytes: a torn write, treated as absent.
    Torn,
    /// Not a cache file.
    BadMagic,
    /// Written by another model version: re-parse.
    Stale,
    /// The payload follows and is worth reading.
    Current,
}

pub open spec fn header_check(b: Seq<u8>) -> HeaderCheck {
    if b.len() < 8 {
        HeaderCheck::Torn
    } else if !(b[0] == 70u8 && b[1] == 66u8 && b[2] == 86u8 && b[3] == 67u8) {
        HeaderCheck::BadMagic
    } else if b[4] as int + 256 * (b[5] as int) + 65536 * (b[6] as int) + 16777216 * (b[7] as int)
        != MODEL_VERSION {
        HeaderCheck::Stale
    } else {
        HeaderCheck::Current
    }
}

/// Classifies the first bytes of a cache file.
pub fn check_header(b: &[u8]) -> (r: HeaderCheck)
    ensures
        r == header_check(b@),
{
    if b.len() < 8 {
        return HeaderCheck::Torn;
    }
    if !(b[0] == 70u8 && b[1] == 66u8 && b[2] == 86u8 && b[3] == 67u8) {
        return HeaderCheck::BadMagic;
    }
    let v: u64 = (b[4] as u64) + 256 * (b[5] as u64) + 65536 * (b[6] as u64) + 16777216 * (b[7] as u64);
    if v != MODEL_VERSION as u64 {
        HeaderCheck::Stale
    } else {
        HeaderCheck::Current
    }
}

/// A header written by this library is read back as current.
pub proof fn lemma_written_header_is_current()
    ensures
        header_check(cache_header()) == HeaderCheck::Current,
{
}

/// The parsed-board cache: one file per content hash in a directory.
pub struct BlobCache {
    pub dir: String,
}

/// What `Path::join` gives for a directory and a file name, under the
/// path rules (separators, prefixes) of the platform the crate is built for.
pub uninterp spec fn path_join(dir: Seq<char>, name: Seq<char>) -> Seq<char>;

/// `std::path::Path::join`, read back as text (lossily, for non-UTF-8
/// paths). The result is named by `path_join`.
#[verifier::external_body]
fn join(dir: &str, name: &str) -> (r: String)
    ensures
        r@ == path_join(dir@, name@),
{
    std::path::Path::new(dir).join(name).to_string_lossy().into_owned()
}

impl BlobCache {
    /// The cache file of a board: `{sha256}.fbb` in the cache directory.
    pub fn path_for(&self, sha256: &str) -> (p: String)
        ensures
            p@ == path_join(self.dir@, sha256@ + ".fbb"@),
    {
        let name = concat_str(sha256, ".fbb");
        join(self.dir.as_str(), name.as_str())
    }

    /// The file a store writes before renaming it into place.
    pub fn temp_path_for(&self, sha256: &str) -> (p: String)
        ensures
            p@ == path_join(self.dir@, sha256@ + ".tmp"@),
    {
        let name = concat_str(sha256, ".tmp");
        join(self.dir.as_str(), name.as_str())
    }
}

} // verus!
