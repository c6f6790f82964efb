//! Net-name and reference-designator heuristics shared by the model
//! builder, the renderer and the net-expansion tracer.

use vstd::prelude::*;
use crate::strs::{ascii_upper, chars_eq, chars_start_with, trim_str, trim_ws, upper_chars, upper_seq};

verus! {

/// The upper-cased spellings that mark "not connected".
pub open spec fn no_connect_word(u: Seq<char>) -> bool {
    ||| u == seq!['N', 'C']
    ||| u == seq!['N', '/', 'C']
    ||| u == seq!['N', 'O', 'C', 'O', 'N', 'N', 'E', 'C', 'T']
    ||| u == seq!['N', 'O', '_', 'C', 'O', 'N', 'N', 'E', 'C', 'T']
    ||| u == seq!['U', 'N', 'C', 'O', 'N', 'N', 'E', 'C', 'T', 'E', 'D']
    ||| u == seq!['U', 'N', 'U', 'S', 'E', 'D']
    ||| u == seq!['D', 'U', 'M', 'M', 'Y']
    ||| u == seq!['N', 'O', 'N', 'E']
}

/// Markers various formats use for "this pin is not connected".
pub open spec fn spec_is_no_connect(name: Seq<char>) -> bool {
    no_connect_word(upper_seq(name))
}

/// Ground-ish upper-cased names.
pub open spec fn ground_word(u: Seq<char>) -> bool {
    ||| u == seq!['G', 'N', 'D']
    ||| u == seq!['A', 'G', 'N', 'D']
    ||| u == seq!['D', 'G', 'N', 'D']
    ||| u == seq!['P', 'G', 'N', 'D']
    ||| u == seq!['S', 'G', 'N', 'D']
    ||| (u.len() >= 4 && u.take(4) == seq!['G', 'N', 'D', '_'])
}

pub open spec fn spec_is_ground(name: Seq<char>) -> bool {
    ground_word(upper_seq(name))
}

pub open spec fn has_prefix(s: Seq<char>, p: Seq<char>) -> bool {
    p.len() <= s.len() && s.take(p.len() as int) =~= p
}

/// Power-rail prefixes (Apple `PP...`, `VCC`, `VDD`, `+`, `VBAT`, `PWR`).
pub open spec fn power_word(u: Seq<char>) -> bool {
    ||| has_prefix(u, seq!['P', 'P'])
    ||| has_prefix(u, seq!['V', 'C', 'C'])
    ||| has_prefix(u, seq!['V', 'D', 'D'])
    ||| has_prefix(u, seq!['+'])
    ||| has_prefix(u, seq!['V', 'B', 'A', 'T'])
    ||| has_prefix(u, seq!['P', 'W', 'R'])
}

pub open spec fn spec_is_power_hint(name: Seq<char>) -> bool {
    power_word(upper_seq(name))
}

/// Two-letter prefixes of jumper-like parts (ferrite beads, filters, Apple
/// power-rail resistors/inductors/fuses, solder jumpers).
pub open spec fn jumper_pair(a: char, b: char) -> bool {
    ||| (a == 'F' && b == 'B')
    ||| (a == 'F' && b == 'L')
    ||| (a == 'P' && b == 'R')
    ||| (a == 'P' && b == 'L')
    ||| (a == 'P' && b == 'F')
    ||| (a == 'J' && b == 'P')
}

pub open spec fn is_digit_char(c: char) -> bool {
    '0' <= c && c <= '9'
}

/// The jumper heuristic on an already trimmed and upper-cased designator;
/// its length tests count characters.
pub open spec fn jumper_upper(r: Seq<char>) -> bool {
    ||| (r.len() >= 3 && jumper_pair(r[0], r[1]) && is_digit_char(r[2]))
    ||| (r.len() >= 2 && (r[0] == 'R' || r[0] == 'L' || r[0] == 'F') && is_digit_char(r[1]))
}

pub open spec fn spec_is_jumper_refdes(refdes: Seq<char>) -> bool {
    jumper_upper(upper_seq(trim_ws(refdes)))
}

/// Is `u` one of the literal words?
fn is_one_of_nc(u: &Vec<char>) -> (r: bool)
    ensures
        r == no_connect_word(u@),
{
    chars_eq(u, &vec!['N', 'C'])
        || chars_eq(u, &vec!['N', '/', 'C'])
        || chars_eq(u, &vec!['N', 'O', 'C', 'O', 'N', 'N', 'E', 'C', 'T'])
        || chars_eq(u, &vec!['N', 'O', '_', 'C', 'O', 'N', 'N', 'E', 'C', 'T'])
        || chars_eq(u, &vec!['U', 'N', 'C', 'O', 'N', 'N', 'E', 'C', 'T', 'E', 'D'])
        || chars_eq(u, &vec!['U', 'N', 'U', 'S', 'E', 'D'])
        || chars_eq(u, &vec!['D', 'U', 'M', 'M', 'Y'])
        || chars_eq(u, &vec!['N', 'O', 'N', 'E'])
}

/// Markers various formats use for "this pin is not connected".
pub fn is_no_connect(name: &str) -> (r: bool)
    ensures
        r == spec_is_no_connect(name@),
{
    let u = upper_chars(name);
    is_one_of_nc(&u)
}

/// Ground-ish nets: rendered dimmer, excluded from net expansion (expanding
/// through GND floods the whole board).
pub fn is_ground(name: &str) -> (r: bool)
    ensures
        r == spec_is_ground(name@),
{
    let u = upper_chars(name);
    chars_eq(&u, &vec!['G', 'N', 'D'])
        || chars_eq(&u, &vec!['A', 'G', 'N', 'D'])
        || chars_eq(&u, &vec!['D', 'G', 'N', 'D'])
        || chars_eq(&u, &vec!['P', 'G', 'N', 'D'])
        || chars_eq(&u, &vec!['S', 'G', 'N', 'D'])
        || chars_start_with(&u, &vec!['G', 'N', 'D', '_'])
}

/// Power-rail guess, used only for ranking/labeling (never for correctness).
pub fn is_power_hint(name: &str) -> (r: bool)
    ensures
        r == spec_is_power_hint(name@),
{
    let u = upper_chars(name);
    let a = chars_start_with(&u, &vec!['P', 'P']);
    let b = chars_start_with(&u, &vec!['V', 'C', 'C']);
    let c = chars_start_with(&u, &vec!['V', 'D', 'D']);
    let plus = vec!['+'];
    assert(plus@ =~= seq!['+']);
    let d = chars_start_with(&u, &plus);
    let e = chars_start_with(&u, &vec!['V', 'B', 'A', 'T']);
    let f = chars_start_with(&u, &vec!['P', 'W', 'R']);
    a || b || c || d || e || f
}

fn is_digit(c: char) -> (r: bool)
    ensures
        r == is_digit_char(c),
{
    '0' <= c && c <= '9'
}

/// True when a reference designator looks like a low-impedance two-terminal
/// jumper candidate: resistors (0R), inductors/beads, fuses. Net expansion
/// follows a net through such parts to the net on their other pin.
pub fn is_jumper_refdes(refdes: &str) -> (r: bool)
    ensures
        r == spec_is_jumper_refdes(refdes@),
{
    let t = trim_str(refdes);
    let u = upper_chars(t);
    if u.len() >= 3 {
        let a = u[0];
        let b = u[1];
        if ((a == 'F' && b == 'B') || (a == 'F' && b == 'L') || (a == 'P' && b == 'R') || (a == 'P'
            && b == 'L') || (a == 'P' && b == 'F') || (a == 'J' && b == 'P')) && is_digit(u[2]) {
            return true;
        }
    }
    if u.len() < 2 {
        return false;
    }
    let first = u[0];
    (first == 'R' || first == 'L' || first == 'F') && is_digit(u[1])
}


/// A character is the ASCII letter `u` (given upper-case) in either case.
pub open spec fn letter_is(c: char, u: char) -> bool {
    c == u || c as int == u as int + 32
}

/// The jumper prefixes: a trimmed designator, in any case, that starts
/// with R, L or F and a digit, or with FB, FL, PR, PL, PF or JP and a
/// digit, is a jumper candidate, and no other designator is.
pub proof fn lemma_jumper_prefixes(refdes: Seq<char>)
    ensures
        ({
            let t = trim_ws(refdes);
            let two = |a: char, b: char| t.len() >= 3 && letter_is(t[0], a) && letter_is(t[1], b) && '0' <= t[2]
                <= '9';
            spec_is_jumper_refdes(refdes) <==> {
                ||| (t.len() >= 2 && (letter_is(t[0], 'R') || letter_is(t[0], 'L') || letter_is(t[0], 'F')) && '0'
                    <= t[1] <= '9')
                ||| two('F', 'B')
                ||| two('F', 'L')
                ||| two('P', 'R')
                ||| two('P', 'L')
                ||| two('P', 'F')
                ||| two('J', 'P')
            }
        }),
{
    let t = trim_ws(refdes);
    let u = upper_seq(t);
    assert(u.len() == t.len());
    if t.len() >= 1 {
        assert(u[0] == ascii_upper(t[0]));
    }
    if t.len() >= 2 {
        assert(u[1] == ascii_upper(t[1]));
    }
    if t.len() >= 3 {
        assert(u[2] == ascii_upper(t[2]));
    }
}

/// The net-name classes, whatever the case: the not-connected markers
/// are NC, N/C, NOCONNECT, NO_CONNECT, UNCONNECTED, UNUSED, DUMMY and
/// NONE; ground is GND, AGND, DGND, PGND, SGND or a name starting GND_;
/// power rails start with PP, VCC, VDD, +, VBAT or PWR.
pub proof fn lemma_net_classes(name: Seq<char>)
    ensures
        ({
            let u = upper_seq(name);
            &&& spec_is_no_connect(name) <==> (u == "NC"@ || u == "N/C"@ || u == "NOCONNECT"@ || u == "NO_CONNECT"@ || u == "UNCONNECTED"@ || u == "UNUSED"@ || u == "DUMMY"@ || u == "NONE"@)
            &&& spec_is_ground(name) <==> (u == "GND"@ || u == "AGND"@ || u == "DGND"@ || u == "PGND"@ || u == "SGND"@ || has_prefix(u, "GND_"@))
            &&& spec_is_power_hint(name) <==> (has_prefix(u, "PP"@) || has_prefix(u, "VCC"@) || has_prefix(u, "VDD"@) || has_prefix(u, "+"@) || has_prefix(u, "VBAT"@) || has_prefix(u, "PWR"@))
        }),
{
    reveal_strlit("NC");
    reveal_strlit("N/C");
    reveal_strlit("NOCONNECT");
    reveal_strlit("NO_CONNECT");
    reveal_strlit("UNCONNECTED");
    reveal_strlit("UNUSED");
    reveal_strlit("DUMMY");
    reveal_strlit("NONE");
    reveal_strlit("GND");
    reveal_strlit("AGND");
    reveal_strlit("DGND");
    reveal_strlit("PGND");
    reveal_strlit("SGND");
    reveal_strlit("PP");
    reveal_strlit("VCC");
    reveal_strlit("VDD");
    reveal_strlit("+");
    reveal_strlit("VBAT");
    reveal_strlit("PWR");
    reveal_strlit("GND_");
    assert("NC"@ =~= seq!['N', 'C']);
    assert("N/C"@ =~= seq!['N', '/', 'C']);
    assert("NOCONNECT"@ =~= seq!['N', 'O', 'C', 'O', 'N', 'N', 'E', 'C', 'T']);
    assert("NO_CONNECT"@ =~= seq!['N', 'O', '_', 'C', 'O', 'N', 'N', 'E', 'C', 'T']);
    assert("UNCONNECTED"@ =~= seq!['U', 'N', 'C', 'O', 'N', 'N', 'E', 'C', 'T', 'E', 'D']);
    assert("UNUSED"@ =~= seq!['U', 'N', 'U', 'S', 'E', 'D']);
    assert("DUMMY"@ =~= seq!['D', 'U', 'M', 'M', 'Y']);
    assert("NONE"@ =~= seq!['N', 'O', 'N', 'E']);
    assert("GND"@ =~= seq!['G', 'N', 'D']);
    assert("AGND"@ =~= seq!['A', 'G', 'N', 'D']);
    assert("DGND"@ =~= seq!['D', 'G', 'N', 'D']);
    assert("PGND"@ =~= seq!['P', 'G', 'N', 'D']);
    assert("SGND"@ =~= seq!['S', 'G', 'N', 'D']);
    assert("PP"@ =~= seq!['P', 'P']);
    assert("VCC"@ =~= seq!['V', 'C', 'C']);
    assert("VDD"@ =~= seq!['V', 'D', 'D']);
    assert("+"@ =~= seq!['+']);
    assert("VBAT"@ =~= seq!['V', 'B', 'A', 'T']);
    assert("PWR"@ =~= seq!['P', 'W', 'R']);
    assert("GND_"@ =~= seq!['G', 'N', 'D', '_']);
}

} // verus!
