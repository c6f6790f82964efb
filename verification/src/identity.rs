//! Board-identity heuristics: boardview files rarely contain the board's
//! model name, but repair-world filenames usually do (OEM board codes).
//! Everything here is a guess and stays user-overridable in the library.

use vstd::prelude::*;
use crate::strs::{chars_of, string_of_chars, upper_seq, to_ascii_upper_char, trim_str, trim_ws};

verus! {

/// Extracted identity hints for one file.
pub struct IdentityGuess {
    /// OEM board code, e.g. "820-00281", "LA-E672P", "NM-B301".
    pub oem_code: Option<String>,
    /// Cleaned display name derived from the file stem.
    pub display_name: String,
}

pub open spec fn is_ascii_digit(c: char) -> bool {
    '0' <= c && c <= '9'
}

pub open spec fn is_ascii_alnum(c: char) -> bool {
    ('0' <= c && c <= '9') || ('A' <= c && c <= 'Z') || ('a' <= c && c <= 'z')
}

/// Length of the run at the start of `s` whose characters are digits
/// (`alnum` false) or ASCII letters and digits (`alnum` true).
pub open spec fn run_len(s: Seq<char>, alnum: bool) -> nat
    decreases s.len(),
{
    if s.len() > 0 && (if alnum { is_ascii_alnum(s[0]) } else { is_ascii_digit(s[0]) }) {
        1 + run_len(s.drop_first(), alnum)
    } else {
        0
    }
}

/// The code following a prefix occurrence: the digit run (Apple) or the
/// alphanumeric run (Compal, Lenovo), when it holds at least four
/// characters.
pub open spec fn code_after(prefix: Seq<char>, rest: Seq<char>, alnum: bool) -> Option<Seq<char>> {
    let n = run_len(rest, alnum);
    if n >= 4 {
        Some(prefix + rest.take(n as int))
    } else {
        None
    }
}

/// The first code found after an occurrence of `prefix` at or after
/// `from`, occurrences taken left to right.
pub open spec fn scan_code(hay: Seq<char>, prefix: Seq<char>, alnum: bool, from: int) -> Option<Seq<char>>
    decreases hay.len() - from,
{
    if from < 0 || from + prefix.len() > hay.len() || prefix.len() == 0 {
        None
    } else if hay.subrange(from, from + prefix.len()) == prefix {
        match code_after(prefix, hay.skip(from + prefix.len()), alnum) {
            Some(c) => Some(c),
            None => scan_code(hay, prefix, alnum, from + prefix.len()),
        }
    } else {
        scan_code(hay, prefix, alnum, from + 1)
    }
}

/// Index of the first occurrence of `n` in `h`, if any.
pub open spec fn first_occurrence(h: Seq<char>, n: Seq<char>, from: int) -> Option<int>
    decreases h.len() - from,
{
    if from < 0 || from + n.len() > h.len() || n.len() == 0 {
        None
    } else if h.subrange(from, from + n.len()) == n {
        Some(from)
    } else {
        first_occurrence(h, n, from + 1)
    }
}

/// The OEM board code in a text, ignoring ASCII case: Apple `820-` with
/// four or more digits, then Compal `LA-` and Lenovo `NM-` with four or more
/// letters or digits, then a Quanta code: the letters and digits from the
/// first `DA0`, when there are at least eight.
pub open spec fn oem_code_of(s: Seq<char>) -> Option<Seq<char>> {
    let u = upper_seq(s);
    let apple = scan_code(u, seq!['8', '2', '0', '-'], false, 0);
    let compal = scan_code(u, seq!['L', 'A', '-'], true, 0);
    let lenovo = scan_code(u, seq!['N', 'M', '-'], true, 0);
    if apple is Some {
        apple
    } else if compal is Some {
        compal
    } else if lenovo is Some {
        lenovo
    } else {
        match first_occurrence(u, seq!['D', 'A', '0'], 0) {
            Some(p) => {
                let n = run_len(u.skip(p), true);
                if n >= 8 {
                    Some(u.skip(p).take(n as int))
                } else {
                    None
                }
            },
            None => None,
        }
    }
}

fn in_run(c: char, alnum: bool) -> (r: bool)
    ensures
        r == (if alnum { is_ascii_alnum(c) } else { is_ascii_digit(c) }),
{
    if alnum {
        ('0' <= c && c <= '9') || ('A' <= c && c <= 'Z') || ('a' <= c && c <= 'z')
    } else {
        '0' <= c && c <= '9'
    }
}

fn run_end(cs: &Vec<char>, from: usize, alnum: bool) -> (r: usize)
    requires
        from <= cs@.len(),
    ensures
        from <= r <= cs@.len(),
        r - from == run_len(cs@.skip(from as int), alnum),
{
    let mut k = from;
    while k < cs.len() && in_run(cs[k], alnum)
        invariant
            from <= k <= cs@.len(),
            run_len(cs@.skip(from as int), alnum) == (k - from) + run_len(cs@.skip(k as int), alnum),
        decreases cs@.len() - k,
    {
        assert(cs@.skip(k as int).drop_first() =~= cs@.skip(k + 1));
        k = k + 1;
    }
    k
}

fn matches_at(h: &Vec<char>, n: &Vec<char>, at: usize) -> (r: bool)
    requires
        at + n@.len() <= h@.len(),
    ensures
        r == (h@.subrange(at as int, at + n@.len()) == n@),
{
    let hl = h.len();
    let mut k: usize = 0;
    while k < n.len()
        invariant
            k <= n@.len(),
            hl == h@.len(),
            at + n@.len() <= h@.len(),
            forall|j: int| 0 <= j < k ==> h@[at + j] == n@[j],
        decreases n@.len() - k,
    {
        if h[at + k] != n[k] {
            assert(h@.subrange(at as int, at + n@.len())[k as int] != n@[k as int]);
            return false;
        }
        k = k + 1;
    }
    assert(h@.subrange(at as int, at + n@.len()) =~= n@);
    true
}

fn slice_string(cs: &Vec<char>, from: usize, to: usize) -> (s: String)
    requires
        from <= to <= cs@.len(),
    ensures
        s@ == cs@.subrange(from as int, to as int),
{
    let mut out: Vec<char> = Vec::new();
    let mut q = from;
    while q < to
        invariant
            from <= q <= to,
            to <= cs@.len(),
            out@ == cs@.subrange(from as int, q as int),
        decreases to - q,
    {
        out.push(cs[q]);
        q = q + 1;
        assert(out@ =~= cs@.subrange(from as int, q as int));
    }
    string_of_chars(&out)
}

/// The first code after an occurrence of `prefix` in `hay`.
fn scan(hay: &Vec<char>, prefix: &Vec<char>, alnum: bool) -> (r: Option<String>)
    ensures
        match r {
            Some(c) => scan_code(hay@, prefix@, alnum, 0) == Some(c@),
            None => scan_code(hay@, prefix@, alnum, 0) is None,
        },
{
    let plen = prefix.len();
    if plen == 0 || plen > hay.len() {
        return None;
    }
    let mut from: usize = 0;
    while from <= hay.len() - plen
        invariant
            0 < plen == prefix@.len() <= hay@.len(),
            from <= hay@.len(),
            scan_code(hay@, prefix@, alnum, 0) == scan_code(hay@, prefix@, alnum, from as int),
        decreases hay@.len() - from,
    {
        if matches_at(hay, prefix, from) {
            let start = from + plen;
            let end = run_end(hay, start, alnum);
            proof {
                assert(hay@.skip(start as int) == hay@.skip(from + prefix@.len()));
            }
            if end - start >= 4 {
                let mut code: Vec<char> = Vec::new();
                let mut q: usize = 0;
                while q < plen
                    invariant
                        q <= plen,
                        plen == prefix@.len(),
                        code@ == prefix@.take(q as int),
                    decreases plen - q,
                {
                    code.push(prefix[q]);
                    q = q + 1;
                    assert(code@ =~= prefix@.take(q as int));
                }
                let mut q = start;
                while q < end
                    invariant
                        start <= q <= end,
                        end <= hay@.len(),
                        code@ == prefix@ + hay@.subrange(start as int, q as int),
                    decreases end - q,
                {
                    code.push(hay[q]);
                    q = q + 1;
                    assert(code@ =~= prefix@ + hay@.subrange(start as int, q as int));
                }
                proof {
                    assert(prefix@.take(plen as int) =~= prefix@);
                    assert(hay@.subrange(start as int, end as int) =~= hay@.skip(start as int).take(end - start));
                }
                return Some(string_of_chars(&code));
            }
            from = start;
        } else {
            from = from + 1;
        }
    }
    None
}

fn upper_vec(s: &str) -> (v: Vec<char>)
    ensures
        v@ == upper_seq(s@),
{
    let cs = chars_of(s);
    let mut v: Vec<char> = Vec::new();
    let mut i: usize = 0;
    while i < cs.len()
        invariant
            i <= cs@.len(),
            cs@ == s@,
            v@ == upper_seq(s@).take(i as int),
        decreases cs@.len() - i,
    {
        v.push(to_ascii_upper_char(cs[i]));
        i = i + 1;
        assert(v@ =~= upper_seq(s@).take(i as int));
    }
    assert(upper_seq(s@).take(i as int) =~= upper_seq(s@));
    v
}

/// Scans a string for known OEM board-code patterns.
pub fn find_oem_code(s: &str) -> (r: Option<String>)
    ensures
        match r {
            Some(c) => oem_code_of(s@) == Some(c@),
            None => oem_code_of(s@) is None,
        },
{
    let upper = upper_vec(s);
    let apple: Vec<char> = vec!['8', '2', '0', '-'];
    let compal: Vec<char> = vec!['L', 'A', '-'];
    let lenovo: Vec<char> = vec!['N', 'M', '-'];
    assert(apple@ =~= seq!['8', '2', '0', '-']);
    assert(compal@ =~= seq!['L', 'A', '-']);
    assert(lenovo@ =~= seq!['N', 'M', '-']);
    if let Some(code) = scan(&upper, &apple, false) {
        return Some(code);
    }
    if let Some(code) = scan(&upper, &compal, true) {
        return Some(code);
    }
    if let Some(code) = scan(&upper, &lenovo, true) {
        return Some(code);
    }
    let da0: Vec<char> = vec!['D', 'A', '0'];
    assert(da0@ =~= seq!['D', 'A', '0']);
    if upper.len() < 3 {
        return None;
    }
    let mut p: usize = 0;
    while p <= upper.len() - 3
        invariant
            3 <= upper@.len(),
            upper@ == upper_seq(s@),
            scan_code(upper@, seq!['8', '2', '0', '-'], false, 0) is None,
            scan_code(upper@, seq!['L', 'A', '-'], true, 0) is None,
            scan_code(upper@, seq!['N', 'M', '-'], true, 0) is None,
            da0@ == seq!['D', 'A', '0'],
            first_occurrence(upper@, da0@, 0) == first_occurrence(upper@, da0@, p as int),
        decreases upper@.len() - p,
    {
        if matches_at(&upper, &da0, p) {
            let end = run_end(&upper, p, true);
            if end - p >= 8 {
                proof {
                    assert(upper@.subrange(p as int, end as int) =~= upper@.skip(p as int).take(end - p));
                }
                return Some(slice_string(&upper, p, end));
            }
            return None;
        }
        p = p + 1;
    }
    None
}

/// A display name: underscores become spaces, surrounding white space is
/// trimmed, and an empty result becomes "unnamed board".
pub open spec fn cleaned_name(stem: Seq<char>) -> Seq<char> {
    let t = trim_ws(stem.map_values(|c: char| if c == '_' { ' ' } else { c }));
    if t.len() == 0 {
        "unnamed board"@
    } else {
        t
    }
}

pub fn clean_name(stem: &str) -> (r: String)
    ensures
        r@ == cleaned_name(stem@),
{
    let cs = chars_of(stem);
    let mut out: Vec<char> = Vec::new();
    let mut i: usize = 0;
    while i < cs.len()
        invariant
            i <= cs@.len(),
            cs@ == stem@,
            out@ == stem@.map_values(|c: char| if c == '_' { ' ' } else { c }).take(i as int),
        decreases cs@.len() - i,
    {
        out.push(if cs[i] == '_' { ' ' } else { cs[i] });
        i = i + 1;
        assert(out@ =~= stem@.map_values(|c: char| if c == '_' { ' ' } else { c }).take(i as int));
    }
    assert(stem@.map_values(|c: char| if c == '_' { ' ' } else { c }).take(i as int) =~= stem@.map_values(
        |c: char| if c == '_' { ' ' } else { c },
    ));
    let spaced = string_of_chars(&out);
    let t = trim_str(spaced.as_str());
    if chars_of(t).len() == 0 {
        "unnamed board".to_owned()
    } else {
        t.to_owned()
    }
}

/// What `Path::file_stem` gives for a path: the final component without
/// its extension, if there is a final component. These path names follow
/// the component rules (separators, prefixes) of the build platform.
pub uninterp spec fn path_stem(path: Seq<char>) -> Option<Seq<char>>;

/// What `Path::parent` gives for a path.
pub uninterp spec fn path_parent(path: Seq<char>) -> Option<Seq<char>>;

/// What `Path::file_name` gives for a path: its final component.
pub uninterp spec fn path_file_name(path: Seq<char>) -> Option<Seq<char>>;

/// `std::path::Path::file_stem`, read as text (lossily, for non-UTF-8
/// names). The result is named by `path_stem`.
#[verifier::external_body]
fn file_stem(path: &str) -> (r: Option<String>)
    ensures
        match r {
            Some(s) => path_stem(path@) == Some(s@),
            None => path_stem(path@) is None,
        },
{
    std::path::Path::new(path).file_stem().map(|s| s.to_string_lossy().into_owned())
}

/// `std::path::Path::parent`, as text. The result is named by
/// `path_parent`.
#[verifier::external_body]
fn parent(path: &str) -> (r: Option<String>)
    ensures
        match r {
            Some(s) => path_parent(path@) == Some(s@),
            None => path_parent(path@) is None,
        },
{
    std::path::Path::new(path).parent().map(|p| p.to_string_lossy().into_owned())
}

/// `std::path::Path::file_name`, as text. The result is named by
/// `path_file_name`.
#[verifier::external_body]
pub(crate) fn file_name(path: &str) -> (r: Option<String>)
    ensures
        match r {
            Some(s) => path_file_name(path@) == Some(s@),
            None => path_file_name(path@) is None,
        },
{
    std::path::Path::new(path).file_name().map(|s| s.to_string_lossy().into_owned())
}

/// The identity a file's stem and parent folder name suggest: the display
/// name from the stem, and the OEM code from the stem or, failing that,
/// from the parent folder's name (one folder per board is a common
/// library layout).
pub open spec fn identity_of(stem: Seq<char>, folder: Option<Seq<char>>) -> (Option<Seq<char>>, Seq<char>) {
    let code = match oem_code_of(stem) {
        Some(c) => Some(c),
        None => match folder {
            Some(f) => oem_code_of(f),
            None => None,
        },
    };
    (code, cleaned_name(stem))
}

/// Identity hints from a stem and an optional parent folder name.
pub fn identity_from_names(stem: &str, folder: Option<&str>) -> (g: IdentityGuess)
    ensures
        (match g.oem_code {
            Some(c) => Some(c@),
            None => None,
        }, g.display_name@) == identity_of(stem@, match folder {
            Some(f) => Some(f@),
            None => None,
        }),
{
    let mut code = find_oem_code(stem);
    if code.is_none() {
        if let Some(f) = folder {
            code = find_oem_code(f);
        }
    }
    IdentityGuess { oem_code: code, display_name: clean_name(stem) }
}

/// Derives identity hints from a file path.
pub fn guess_identity(path: &str) -> (g: IdentityGuess)
    ensures
        ({
            let stem = match path_stem(path@) {
                Some(s) => s,
                None => Seq::empty(),
            };
            let folder = match path_parent(path@) {
                Some(p) => path_file_name(p),
                None => None,
            };
            (match g.oem_code {
                Some(c) => Some(c@),
                None => None,
            }, g.display_name@) == identity_of(stem, folder)
        }),
{
    let stem = match file_stem(path) {
        Some(s) => s,
        None => String::new(),
    };
    let folder = match parent(path) {
        Some(p) => file_name(p.as_str()),
        None => None,
    };
    match folder {
        Some(f) => identity_from_names(stem.as_str(), Some(f.as_str())),
        None => identity_from_names(stem.as_str(), None),
    }
}

} // verus!
