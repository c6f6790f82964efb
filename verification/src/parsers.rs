//! Format detection and the parse entry points shared by every boardview
//! format. Every parser is a function from bytes (plus, for the directory
//! format, the sibling files' bytes) to a `BoardModel`.

use vstd::prelude::*;
use vstd::string::StringSliceAdditionalSpecFns;
use crate::model::{BoardModel, BoardFormat, format_label};
use crate::text::contains_run;
use crate::strs::{chars_of, chars_eq, lower_seq, to_ascii_lower_char, concat_str};

verus! {

/// Bumped whenever detection or a parser materially improves, so files that
/// previously landed in quarantine are retried instead of skipped forever.
/// Generation log: 1 = initial release; 2 = GenCAD support + relaxed
/// Samsung CAD detection.
pub const PARSER_GENERATION: i64 = 2;

#[derive(Debug)]
pub enum ParseError {
    Unrecognized,
    Malformed(String),
    /// Encrypted format whose key is not configured (FZ / XZZ).
    KeyMissing(&'static str),
    Io(String),
}

impl ParseError {
    /// The message shown to the user for this error.
    pub fn message(&self) -> (s: String)
        ensures
            s@ == match self {
                ParseError::Unrecognized => "unrecognized boardview format"@,
                ParseError::Malformed(m) => "malformed file: "@ + m@,
                ParseError::KeyMissing(f) => f@ + " file is encrypted and no valid "@ + f@
                    + " key is configured in Settings"@,
                ParseError::Io(m) => "I/O error: "@ + m@,
            },
    {
        match self {
            ParseError::Unrecognized => "unrecognized boardview format".to_owned(),
            ParseError::Malformed(m) => concat_str("malformed file: ", m.as_str()),
            ParseError::KeyMissing(f) => {
                let a = concat_str(f, " file is encrypted and no valid ");
                let b = concat_str(a.as_str(), f);
                concat_str(b.as_str(), " key is configured in Settings")
            },
            ParseError::Io(m) => concat_str("I/O error: ", m.as_str()),
        }
    }
}

/// The sibling files of the ASC directory format, as found next to the
/// file being opened (`None` for each one that is missing).
pub struct AscSiblings {
    pub format: Option<Vec<u8>>,
    pub pins: Option<Vec<u8>>,
    pub nails: Option<Vec<u8>>,
}

/// Context handed to parsers. Keys are user-supplied (Settings), not
/// shipped with the library.
pub struct ParseContext {
    /// RC6 key schedule for ASUS .fz files (44 words).
    pub fz_key: Option<[u32; 44]>,
    /// DES key for XZZ .pcb files.
    pub xzz_key: Option<u64>,
    /// The sibling files of a directory format; `None` outside a
    /// filesystem context.
    pub siblings: Option<AscSiblings>,
}

impl Default for ParseContext {
    /// No keys and no siblings.
    fn default() -> (c: Self)
        ensures
            c.fz_key is None,
            c.xzz_key is None,
            c.siblings is None,
    {
        ParseContext { fz_key: None, xzz_key: None, siblings: None }
    }
}

/// A parsed board: consistent cross references, canonical net names and
/// the format's label.
pub open spec fn parsed_ok(m: BoardModel, format: BoardFormat) -> bool {
    &&& m.wf()
    &&& m.nets_canonical()
    &&& m.format_label@ == format_label(format)
}

/// Boards whose part, pin and test-pad counts fit the 32-bit indices of
/// the model.
pub open spec fn board_fits(parts: int, pins: int, pads: int) -> bool {
    parts + 3 < 0xffff_ffffint && pins + pads + 3 < 0xffff_ffffint
}

pub fn check_fits(parts: usize, pins: usize, pads: usize) -> (r: bool)
    ensures
        r == board_fits(parts as int, pins as int, pads as int),
{
    parts < 0xffff_fffcusize && pins < 0xffff_fffcusize && pads < 0xffff_fffcusize - pins
}

pub fn malformed(msg: &str) -> (e: ParseError)
    ensures
        e matches ParseError::Malformed(m) && m@ == msg@,
{
    ParseError::Malformed(msg.to_owned())
}

} // verus!

verus! {

pub open spec fn fails_malformed(r: Result<BoardModel, ParseError>) -> bool {
    r matches Err(ParseError::Malformed(_))
}

pub open spec fn fails_unrecognized(r: Result<BoardModel, ParseError>) -> bool {
    r matches Err(ParseError::Unrecognized)
}

pub open spec fn fails_io(r: Result<BoardModel, ParseError>) -> bool {
    r matches Err(ParseError::Io(_))
}

/// Fails for want of a key to the format named `format`.
pub open spec fn fails_key(r: Result<BoardModel, ParseError>, format: Seq<char>) -> bool {
    r matches Err(ParseError::KeyMissing(f)) && f@ == format
}

} // verus!

verus! {

/// The format that content-based detection settles on: signatures first
/// (extensions are heavily overloaded in the wild), then the extension,
/// compared without regard to ASCII case, for the formats without a
/// reliable signature.
pub open spec fn detected_format(b: Seq<u8>, ext: Option<Seq<char>>) -> Option<BoardFormat> {
    if crate::xzz::xzz_signature(b) {
        Some(BoardFormat::XzzPcb)
    } else if crate::brd::brd_signature(b) {
        Some(BoardFormat::Brd)
    } else if crate::brd2::brd2_signature(b) {
        Some(BoardFormat::Brd2)
    } else if contains_run(b, "BVRAW_FORMAT_1".spec_bytes()) {
        Some(BoardFormat::Bvr)
    } else if contains_run(b, "BVRAW_FORMAT_3".spec_bytes()) {
        Some(BoardFormat::Bvr3)
    } else if crate::bdv::bdv_signature(b) {
        Some(BoardFormat::Bdv)
    } else if crate::gencad::gencad_signature(b) {
        Some(BoardFormat::GenCad)
    } else if crate::cad::cad_signature(b) {
        Some(BoardFormat::Cad)
    } else {
        match ext {
            Some(e) => if lower_seq(e) == "fz"@ {
                Some(BoardFormat::Fz)
            } else if lower_seq(e) == "cst"@ {
                Some(BoardFormat::Cst)
            } else if lower_seq(e) == "asc"@ {
                Some(BoardFormat::Asc)
            } else {
                None
            },
            None => None,
        }
    }
}

/// Is the extension `name`, ignoring ASCII case?
fn ext_is(ext: &Vec<char>, name: &str) -> (r: bool)
    ensures
        r == (lower_seq(ext@) == name@),
{
    let mut low: Vec<char> = Vec::new();
    let mut i: usize = 0;
    while i < ext.len()
        invariant
            i <= ext@.len(),
            low@ == lower_seq(ext@).take(i as int),
        decreases ext@.len() - i,
    {
        low.push(to_ascii_lower_char(ext[i]));
        i = i + 1;
        assert(low@ =~= lower_seq(ext@).take(i as int));
    }
    assert(lower_seq(ext@).take(i as int) =~= lower_seq(ext@));
    let n = chars_of(name);
    chars_eq(&low, &n)
}

/// Some format's signature is in the content.
pub open spec fn has_signature(b: Seq<u8>) -> bool {
    ||| crate::xzz::xzz_signature(b)
    ||| crate::brd::brd_signature(b)
    ||| crate::brd2::brd2_signature(b)
    ||| contains_run(b, "BVRAW_FORMAT_1".spec_bytes())
    ||| contains_run(b, "BVRAW_FORMAT_3".spec_bytes())
    ||| crate::bdv::bdv_signature(b)
    ||| crate::gencad::gencad_signature(b)
    ||| crate::cad::cad_signature(b)
}

/// Extensions are not trusted: content that carries a signature is
/// detected the same under any file name, and content without one is only
/// ever detected as one of the formats that have none.
pub proof fn lemma_signature_beats_extension(b: Seq<u8>, e1: Option<Seq<char>>, e2: Option<Seq<char>>)
    ensures
        has_signature(b) ==> detected_format(b, e1) == detected_format(b, e2),
        has_signature(b) ==> detected_format(b, e1) is Some,
        !has_signature(b) && detected_format(b, e1) is Some ==> detected_format(b, e1) == Some(BoardFormat::Fz)
            || detected_format(b, e1) == Some(BoardFormat::Cst) || detected_format(b, e1) == Some(BoardFormat::Asc),
{
}

/// Content-based format detection; falls back to the file extension only
/// for formats without a reliable signature (CST, FZ, ASC).
pub fn detect(bytes: &[u8], extension: Option<&str>) -> (r: Option<BoardFormat>)
    ensures
        r == detected_format(bytes@, match extension {
            Some(e) => Some(e@),
            None => None,
        }),
{
    if crate::xzz::verify(bytes) {
        return Some(BoardFormat::XzzPcb);
    }
    if crate::brd::verify(bytes) {
        return Some(BoardFormat::Brd);
    }
    if crate::brd2::verify(bytes) {
        return Some(BoardFormat::Brd2);
    }
    if crate::bvr::verify_v1(bytes) {
        return Some(BoardFormat::Bvr);
    }
    if crate::bvr::verify_v3(bytes) {
        return Some(BoardFormat::Bvr3);
    }
    if crate::bdv::verify(bytes) {
        return Some(BoardFormat::Bdv);
    }
    if crate::gencad::verify(bytes) {
        return Some(BoardFormat::GenCad);
    }
    if crate::cad::verify(bytes) {
        return Some(BoardFormat::Cad);
    }
    match extension {
        Some(e) => {
            let cs = chars_of(e);
            if ext_is(&cs, "fz") {
                Some(BoardFormat::Fz)
            } else if ext_is(&cs, "cst") {
                Some(BoardFormat::Cst)
            } else if ext_is(&cs, "asc") {
                Some(BoardFormat::Asc)
            } else {
                None
            }
        },
        None => None,
    }
}

/// What reading a file of a given format gives: the board, or, for the
/// two formats whose outline or placement needs floating-point geometry,
/// the records that geometry is computed from (`xzz::assemble` and
/// `gencad::assemble` then build the board).
pub enum FormatRead {
    Board(Result<BoardModel, ParseError>),
    Xzz(Result<crate::xzz::XzzScan, ParseError>),
    GenCad(Result<crate::gencad::GencadRecords, ParseError>),
}

/// Runs the parser of `format`. Every board a parser returns is consistent:
/// each part lists exactly its pins and each net exactly its pins, net
/// names are distinct, trimmed and connected, and the label is the
/// format's.
pub fn parse(format: BoardFormat, bytes: &[u8], ctx: &ParseContext) -> (r: FormatRead)
    ensures
        (format == BoardFormat::XzzPcb) == (r is Xzz),
        (format == BoardFormat::GenCad) == (r is GenCad),
        r matches FormatRead::Board(Ok(m)) ==> parsed_ok(m, format),
{
    match format {
        BoardFormat::Brd => FormatRead::Board(crate::brd::parse(bytes)),
        BoardFormat::Brd2 => FormatRead::Board(crate::brd2::parse(bytes)),
        BoardFormat::Bdv => FormatRead::Board(crate::bdv::parse(bytes)),
        BoardFormat::Bvr => FormatRead::Board(crate::bvr::parse_v1(bytes)),
        BoardFormat::Bvr3 => FormatRead::Board(crate::bvr::parse_v3(bytes)),
        BoardFormat::Asc => FormatRead::Board(crate::asc::parse(bytes, ctx)),
        BoardFormat::Cad => FormatRead::Board(crate::cad::parse(bytes)),
        BoardFormat::Cst => FormatRead::Board(crate::cst::parse(bytes)),
        BoardFormat::Fz => FormatRead::Board(crate::fz::parse(bytes, ctx)),
        BoardFormat::GenCad => FormatRead::GenCad(crate::gencad::read_records(bytes)),
        BoardFormat::XzzPcb => FormatRead::Xzz(crate::xzz::scan(bytes, ctx)),
    }
}

} // verus!
