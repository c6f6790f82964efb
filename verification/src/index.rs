//! Library import: which files are worth inspecting, content hashing for
//! deduplication, the keys handed to parser workers and the progress
//! events reported back. Walking folders, reading files and the worker
//! threads belong to the application.

use vstd::prelude::*;
use sha2::Digest;
use crate::strs::{chars_of, chars_eq, lower_seq, to_ascii_lower_char, string_of_chars, concat_str};
use crate::identity::{file_name, path_file_name};
use crate::parsers::detected_format;
use crate::records::opt_text;

verus! {

/// Decryption keys handed to parser workers.
#[derive(Clone, Copy)]
pub struct Keys {
    pub fz_key: Option<[u32; 44]>,
    pub xzz_key: Option<u64>,
}

/// Progress of an import run, as reported to the user interface.
pub enum ImportEvent {
    Discovered(usize),
    Imported { path: String, board_id: i64 },
    AlreadyKnown { path: String, board_id: i64 },
    Failed { path: String, reason: String },
    Skipped { path: String },
    Finished { imported: usize, failed: usize, known: usize, skipped: usize },
}

/// The counts of an import run.
pub struct ImportTally {
    pub imported: usize,
    pub failed: usize,
    pub known: usize,
    pub skipped: usize,
}

impl ImportTally {
    pub fn new() -> (t: Self)
        ensures
            t.imported == 0 && t.failed == 0 && t.known == 0 && t.skipped == 0,
    {
        ImportTally { imported: 0, failed: 0, known: 0, skipped: 0 }
    }

    /// The event that closes the run.
    pub fn finished(&self) -> (ev: ImportEvent)
        ensures
            ev == (ImportEvent::Finished {
                imported: self.imported,
                failed: self.failed,
                known: self.known,
                skipped: self.skipped,
            }),
    {
        ImportEvent::Finished { imported: self.imported, failed: self.failed, known: self.known, skipped: self.skipped }
    }
}

/// What became of one discovered file.
pub enum FileOutcome {
    /// Already in the library (or quarantined) with the same size and
    /// modification time; not parsed again.
    Unchanged,
    /// The parser rejected it, for this reason.
    ParseFailed(String),
    /// Its content is already in the library, as this board.
    Duplicate(i64),
    /// It was stored as this new board.
    Inserted(i64),
    /// Storing it failed with this database message.
    InsertFailed(String),
    /// Looking its content up failed with this database message.
    LookupFailed(String),
}

/// The bookkeeping for one file: the tally moves on, and what comes back is
/// the event to report and the reason to quarantine the file under, if
/// any. Parser rejections are quarantined with their reason, failed
/// inserts as "db error: " and the message; failed lookups only count as
/// failures.
pub fn settle(tally: &mut ImportTally, path: String, outcome: FileOutcome) -> (r: (ImportEvent, Option<String>))
    requires
        old(tally).imported < usize::MAX,
        old(tally).failed < usize::MAX,
        old(tally).known < usize::MAX,
        old(tally).skipped < usize::MAX,
    ensures
        final(tally).imported + final(tally).failed + final(tally).known + final(tally).skipped == old(
            tally,
        ).imported + old(tally).failed + old(tally).known + old(tally).skipped + 1,
        match outcome {
            FileOutcome::Unchanged => {
                &&& *final(tally) == (ImportTally { skipped: (old(tally).skipped + 1) as usize, ..*old(tally) })
                &&& r.0 matches ImportEvent::Skipped { path: p } && p@ == path@
                &&& r.1 is None
            },
            FileOutcome::ParseFailed(reason) => {
                &&& *final(tally) == (ImportTally { failed: (old(tally).failed + 1) as usize, ..*old(tally) })
                &&& r.0 matches ImportEvent::Failed { path: p, reason: q } && p@ == path@ && q@ == reason@
                &&& r.1 matches Some(q) && q@ == reason@
            },
            FileOutcome::Duplicate(id) => {
                &&& *final(tally) == (ImportTally { known: (old(tally).known + 1) as usize, ..*old(tally) })
                &&& r.0 matches ImportEvent::AlreadyKnown { path: p, board_id: b } && p@ == path@ && b == id
                &&& r.1 is None
            },
            FileOutcome::Inserted(id) => {
                &&& *final(tally) == (ImportTally { imported: (old(tally).imported + 1) as usize, ..*old(tally) })
                &&& r.0 matches ImportEvent::Imported { path: p, board_id: b } && p@ == path@ && b == id
                &&& r.1 is None
            },
            FileOutcome::InsertFailed(msg) => {
                &&& *final(tally) == (ImportTally { failed: (old(tally).failed + 1) as usize, ..*old(tally) })
                &&& r.0 matches ImportEvent::Failed { path: p, reason: q } && p@ == path@ && q@ == msg@
                &&& r.1 matches Some(q) && q@ == "db error: "@ + msg@
            },
            FileOutcome::LookupFailed(msg) => {
                &&& *final(tally) == (ImportTally { failed: (old(tally).failed + 1) as usize, ..*old(tally) })
                &&& r.0 matches ImportEvent::Failed { path: p, reason: q } && p@ == path@ && q@ == msg@
                &&& r.1 is None
            },
        },
{
    match outcome {
        FileOutcome::Unchanged => {
            tally.skipped = tally.skipped + 1;
            (ImportEvent::Skipped { path }, None)
        },
        FileOutcome::ParseFailed(reason) => {
            tally.failed = tally.failed + 1;
            let q = reason.clone();
            (ImportEvent::Failed { path, reason }, Some(q))
        },
        FileOutcome::Duplicate(id) => {
            tally.known = tally.known + 1;
            (ImportEvent::AlreadyKnown { path, board_id: id }, None)
        },
        FileOutcome::Inserted(id) => {
            tally.imported = tally.imported + 1;
            (ImportEvent::Imported { path, board_id: id }, None)
        },
        FileOutcome::InsertFailed(msg) => {
            tally.failed = tally.failed + 1;
            let q = concat_str("db error: ", msg.as_str());
            (ImportEvent::Failed { path, reason: msg }, Some(q))
        },
        FileOutcome::LookupFailed(msg) => {
            tally.failed = tally.failed + 1;
            (ImportEvent::Failed { path, reason: msg }, None)
        },
    }
}

/// What the user interface shows of a running import.
pub struct ImportProgress {
    pub total: usize,
    pub done: usize,
    /// The file name of the last file imported or rejected.
    pub last: String,
    /// The library list needs reloading.
    pub changed: bool,
    pub finished: bool,
}

/// The file name shown for a path: its final component, or nothing.
pub open spec fn name_shown(path: Seq<char>) -> Seq<char> {
    match path_file_name(path) {
        Some(n) => n,
        None => Seq::empty(),
    }
}

impl ImportProgress {
    pub fn new() -> (p: Self)
        ensures
            p.total == 0 && p.done == 0 && p.last@.len() == 0 && !p.changed && !p.finished,
    {
        ImportProgress { total: 0, done: 0, last: String::new(), changed: false, finished: false }
    }

    /// Takes in one event: a discovery sets the total; every file's outcome
    /// counts as done; imported and rejected files become the last one
    /// shown and mark the library list for reloading; the closing event
    /// finishes the run and marks it too.
    pub fn record(&mut self, ev: &ImportEvent)
        requires
            old(self).done < usize::MAX,
        ensures
            match ev {
                ImportEvent::Discovered(n) => *final(self) == (ImportProgress { total: *n, ..*old(self) }),
                ImportEvent::Imported { path, .. } | ImportEvent::Failed { path, .. } => {
                    &&& final(self).done == old(self).done + 1
                    &&& final(self).last@ == name_shown(path@)
                    &&& final(self).changed
                    &&& final(self).total == old(self).total
                    &&& final(self).finished == old(self).finished
                },
                ImportEvent::AlreadyKnown { .. } | ImportEvent::Skipped { .. } => *final(self) == (ImportProgress {
                    done: (old(self).done + 1) as usize,
                    ..*old(self)
                }),
                ImportEvent::Finished { .. } => *final(self) == (ImportProgress {
                    changed: true,
                    finished: true,
                    ..*old(self)
                }),
            },
    {
        match ev {
            ImportEvent::Discovered(n) => {
                self.total = *n;
            },
            ImportEvent::Imported { path, .. } | ImportEvent::Failed { path, .. } => {
                self.done = self.done + 1;
                self.last = match file_name(path.as_str()) {
                    Some(n) => n,
                    None => String::new(),
                };
                self.changed = true;
            },
            ImportEvent::AlreadyKnown { .. } | ImportEvent::Skipped { .. } => {
                self.done = self.done + 1;
            },
            ImportEvent::Finished { .. } => {
                self.changed = true;
                self.finished = true;
            },
        }
    }
}

/// What looking a parsed file's content hash up in the library gave.
pub enum HashLookup {
    /// The content is already stored, as this board.
    Found(i64),
    /// The content is new.
    Absent,
    /// The lookup failed with this database message.
    Failed(String),
}

/// What the import does with a parsed file once its hash was looked up.
pub enum StoreStep {
    /// Record the file under this existing board and, where `oem_code` is
    /// some, give the board that code if it has none; the file then settles
    /// as a duplicate of the board.
    Attach { board: i64, oem_code: Option<String> },
    /// Store the file as a new board.
    Insert,
    /// Nothing to write; the file settles with this outcome.
    Done(FileOutcome),
}

/// The step after a hash lookup: a known board takes the file (and the
/// OEM code guessed from its path, where one was), new content is
/// inserted, and a failed lookup ends the file with that failure.
pub fn store_step(lookup: HashLookup, oem_code: Option<String>) -> (r: StoreStep)
    ensures
        match lookup {
            HashLookup::Found(b) => r matches StoreStep::Attach { board, oem_code: o } && board == b
                && opt_text(o) == opt_text(oem_code),
            HashLookup::Absent => r is Insert,
            HashLookup::Failed(m) => r matches StoreStep::Done(FileOutcome::LookupFailed(q)) && q@ == m@,
        },
{
    match lookup {
        HashLookup::Found(b) => StoreStep::Attach { board: b, oem_code },
        HashLookup::Absent => StoreStep::Insert,
        HashLookup::Failed(m) => StoreStep::Done(FileOutcome::LookupFailed(m)),
    }
}

/// The outcome of an insert, and whether the new board's model is to be
/// cached and the file cleared from quarantine (only when the insert
/// succeeded: a file that failed under an older parser now parses).
pub fn after_insert(inserted: Result<i64, String>) -> (r: (FileOutcome, bool))
    ensures
        match inserted {
            Ok(id) => r.0 matches FileOutcome::Inserted(b) && b == id && r.1,
            Err(m) => r.0 matches FileOutcome::InsertFailed(q) && q@ == m@ && !r.1,
        },
{
    match inserted {
        Ok(id) => (FileOutcome::Inserted(id), true),
        Err(m) => (FileOutcome::InsertFailed(m), false),
    }
}

/// How many parser workers to run: one fewer than the available
/// parallelism (at least one), two when it is unknown, at most eight.
pub fn worker_count(available: Option<usize>) -> (n: usize)
    ensures
        n == match available {
            Some(k) => if k <= 2 { 1 } else if k - 1 >= 8 { 8 } else { (k - 1) as usize },
            None => 2,
        },
{
    match available {
        Some(k) => {
            let w = if k <= 2 { 1 } else { k - 1 };
            if w > 8 {
                8
            } else {
                w
            }
        },
        None => 2,
    }
}

/// Maximum file size worth attempting; boardviews are 100 KB..5 MB, so 64 MB
/// catches renamed junk (ISOs, videos) without excluding any real board.
pub const MAX_FILE_SIZE: u64 = 67108864;

/// All file extensions worth inspecting during library import.
pub open spec fn known_extensions() -> Seq<Seq<char>> {
    seq![
        "brd"@, "bdv"@, "bv"@, "bvr"@, "bvr2"@, "bvr3"@, "asc"@, "cad"@, "gcd"@, "cst"@, "fz"@, "pcb"@,
    ]
}

pub fn known_extension_list() -> (v: Vec<&'static str>)
    ensures
        v@.map_values(|s: &str| s@) == known_extensions(),
{
    let v = vec!["brd", "bdv", "bv", "bvr", "bvr2", "bvr3", "asc", "cad", "gcd", "cst", "fz", "pcb"];
    assert(v@.map_values(|s: &str| s@) =~= known_extensions());
    v
}

/// Import discovery keeps the files of every supported format: the
/// extensions of BRD/BRD2, BDV, BV/BVR (v1 to v3), ASC, Samsung CAD and
/// GenCAD, CST, FZ and XZZ PCB are all known.
pub proof fn lemma_supported_extensions_known()
    ensures
        known_extensions().contains("brd"@),
        known_extensions().contains("bdv"@),
        known_extensions().contains("bv"@),
        known_extensions().contains("bvr"@),
        known_extensions().contains("bvr2"@),
        known_extensions().contains("bvr3"@),
        known_extensions().contains("asc"@),
        known_extensions().contains("cad"@),
        known_extensions().contains("gcd"@),
        known_extensions().contains("cst"@),
        known_extensions().contains("fz"@),
        known_extensions().contains("pcb"@),
{
    assert(known_extensions()[0] == "brd"@);
    assert(known_extensions()[1] == "bdv"@);
    assert(known_extensions()[2] == "bv"@);
    assert(known_extensions()[3] == "bvr"@);
    assert(known_extensions()[4] == "bvr2"@);
    assert(known_extensions()[5] == "bvr3"@);
    assert(known_extensions()[6] == "asc"@);
    assert(known_extensions()[7] == "cad"@);
    assert(known_extensions()[8] == "gcd"@);
    assert(known_extensions()[9] == "cst"@);
    assert(known_extensions()[10] == "fz"@);
    assert(known_extensions()[11] == "pcb"@);
}

/// A file that detection recognizes by its extension alone (no content
/// signature matched) has an extension import discovery keeps.
pub proof fn lemma_detected_by_extension_is_known(b: Seq<u8>, e: Seq<char>)
    requires
        detected_format(b, None) is None,
        detected_format(b, Some(e)) is Some,
    ensures
        known_extensions().contains(lower_seq(e)),
{
    lemma_supported_extensions_known();
}

/// What `Path::extension` gives for a path: the text after the last dot
/// of the final component, if it has one. Which characters separate
/// components is the build platform's rule.
pub uninterp spec fn path_extension(path: Seq<char>) -> Option<Seq<char>>;

/// `std::path::Path::extension`, read as text (lossily, for non-UTF-8
/// names). The result is named by `path_extension`.
#[verifier::external_body]
pub fn extension(path: &str) -> (r: Option<String>)
    ensures
        match r {
            Some(e) => path_extension(path@) == Some(e@),
            None => path_extension(path@) is None,
        },
{
    std::path::Path::new(path).extension().map(|e| e.to_string_lossy().into_owned())
}

/// Is the path's extension, ignoring ASCII case, one of the known ones?
pub fn has_known_extension(path: &str) -> (r: bool)
    ensures
        r == match path_extension(path@) {
            Some(e) => known_extensions().contains(lower_seq(e)),
            None => false,
        },
{
    let e = match extension(path) {
        Some(e) => e,
        None => return false,
    };
    let cs = chars_of(e.as_str());
    let mut low: Vec<char> = Vec::new();
    let mut i: usize = 0;
    while i < cs.len()
        invariant
            i <= cs@.len(),
            cs@ == e@,
            low@ == lower_seq(e@).take(i as int),
        decreases cs@.len() - i,
    {
        low.push(to_ascii_lower_char(cs[i]));
        i = i + 1;
        assert(low@ =~= lower_seq(e@).take(i as int));
    }
    assert(lower_seq(e@).take(i as int) =~= lower_seq(e@));
    let list = known_extension_list();
    let ghost kv = list@.map_values(|s: &str| s@);
    let mut k: usize = 0;
    while k < list.len()
        invariant
            k <= list@.len(),
            path_extension(path@) == Some(e@),
            kv == list@.map_values(|s: &str| s@),
            kv == known_extensions(),
            low@ == lower_seq(e@),
            forall|j: int| 0 <= j < k ==> kv[j] != low@,
        decreases list@.len() - k,
    {
        let name = chars_of(list[k]);
        if chars_eq(&low, &name) {
            assert(known_extensions()[k as int] == lower_seq(e@));
            return true;
        }
        k = k + 1;
    }
    assert(!known_extensions().contains(lower_seq(e@)));
    false
}

/// What SHA-256 gives for a byte string.
pub uninterp spec fn sha256(data: Seq<u8>) -> Seq<u8>;

/// `sha2::Sha256` over the whole input: the 32-byte digest, named by
/// `sha256`.
#[verifier::external_body]
fn sha256_digest(data: &[u8]) -> (r: Vec<u8>)
    ensures
        r@ == sha256(data@),
        r@.len() == 32,
{
    let mut h = sha2::Sha256::new();
    h.update(data);
    h.finalize().to_vec()
}

pub open spec fn hex_char(n: u8) -> char {
    if n < 10 {
        (48 + n) as char
    } else {
        (87 + n) as char
    }
}

/// Lowercase hexadecimal, two digits per byte.
pub open spec fn hex_text(b: Seq<u8>) -> Seq<char>
    decreases b.len(),
{
    if b.len() == 0 {
        Seq::empty()
    } else {
        hex_text(b.drop_last()) + seq![hex_char(b.last() / 16), hex_char(b.last() % 16)]
    }
}

/// The digest text reads back: it has two lower-case hex digits per
/// byte, high nibble first, whose values (as key texts read them) give
/// the byte.
pub proof fn lemma_hex_text_digits(b: Seq<u8>)
    ensures
        hex_text(b).len() == 2 * b.len(),
        forall|i: int|
            0 <= i < b.len() ==> {
                let hi = #[trigger] hex_text(b)[2 * i];
                let lo = hex_text(b)[2 * i + 1];
                &&& ('0' <= hi <= '9' || 'a' <= hi <= 'f')
                &&& ('0' <= lo <= '9' || 'a' <= lo <= 'f')
                &&& crate::settings::hex_val(hi) * 16 + crate::settings::hex_val(lo) == b[i]
            },
    decreases b.len(),
{
    if b.len() > 0 {
        let d = b.drop_last();
        lemma_hex_text_digits(d);
        let t = hex_text(b);
        assert forall|i: int| 0 <= i < b.len() implies {
            let hi = #[trigger] t[2 * i];
            let lo = t[2 * i + 1];
            &&& ('0' <= hi <= '9' || 'a' <= hi <= 'f')
            &&& ('0' <= lo <= '9' || 'a' <= lo <= 'f')
            &&& crate::settings::hex_val(hi) * 16 + crate::settings::hex_val(lo) == b[i]
        } by {
            if i < d.len() {
                assert(t[2 * i] == hex_text(d)[2 * i]);
                assert(t[2 * i + 1] == hex_text(d)[2 * i + 1]);
                assert(b[i] == d[i]);
            } else {
                let x = b.last();
                assert(t[2 * i] == hex_char(x / 16));
                assert(t[2 * i + 1] == hex_char(x % 16));
                assert(x == 16 * (x / 16) + x % 16);
            }
        }
    }
}

fn hex_digit_char(n: u8) -> (c: char)
    requires
        n < 16,
    ensures
        c == hex_char(n),
{
    if n < 10 {
        (48 + n) as char
    } else {
        (87 + n) as char
    }
}

/// The SHA-256 digest of the bytes as 64 lowercase hex digits.
pub fn sha256_hex(data: &[u8]) -> (s: String)
    ensures
        s@ == hex_text(sha256(data@)),
{
    let d = sha256_digest(data);
    let mut out: Vec<char> = Vec::new();
    let mut i: usize = 0;
    assert(d@.take(0) =~= Seq::<u8>::empty());
    while i < d.len()
        invariant
            i <= d@.len(),
            out@ == hex_text(d@.take(i as int)),
        decreases d@.len() - i,
    {
        let b = d[i];
        out.push(hex_digit_char(b / 16));
        out.push(hex_digit_char(b % 16));
        proof {
            assert(d@.take(i + 1).drop_last() =~= d@.take(i as int));
        }
        i = i + 1;
        assert(out@ =~= hex_text(d@.take(i as int)));
    }
    assert(d@.take(i as int) =~= d@);
    string_of_chars(&out)
}

} // verus!
