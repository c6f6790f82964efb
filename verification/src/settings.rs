//! User settings and the decryption keys read from them: the FZ key (44 hex
//! words, whitespace/comma/semicolon separated, `0x` prefixes allowed) and
//! the XZZ key (one 64-bit hex value). Storing and loading the settings
//! file is the application's business.

use vstd::prelude::*;
use crate::strs::{chars_of, is_white_space, is_white_space_char, trim_str, trim_ws, trim_start_ws, trim_end_ws};
use crate::index::Keys;

verus! {

pub struct Settings {
    /// Folders scanned (recursively) on "Rescan library".
    pub library_roots: Vec<String>,
    /// FZ key: 44 hex words, whitespace/comma separated, `0x` prefixes
    /// allowed.
    pub fz_key_text: String,
    /// XZZ key: one 64-bit hex value.
    pub xzz_key_text: String,
}

/// The value of a hexadecimal digit, or -1.
pub open spec fn hex_val(c: char) -> int {
    if '0' <= c && c <= '9' {
        c as int - 48
    } else if 'a' <= c && c <= 'f' {
        c as int - 87
    } else if 'A' <= c && c <= 'F' {
        c as int - 55
    } else {
        -1
    }
}

pub open spec fn all_hex(d: Seq<char>) -> bool {
    forall|i: int| 0 <= i < d.len() ==> hex_val(#[trigger] d[i]) >= 0
}

pub open spec fn hex_value(d: Seq<char>) -> nat
    decreases d.len(),
{
    if d.len() == 0 {
        0
    } else {
        16 * hex_value(d.drop_last()) + hex_val(d.last()) as nat
    }
}

/// `from_str_radix(s, 16)` for an unsigned integer type whose largest
/// value is `max`: an optional `+`, then one or more hex digits, whose
/// value must fit.
pub open spec fn radix16(s: Seq<char>, max: nat) -> Option<nat> {
    let d = if s.len() > 0 && s[0] == '+' { s.drop_first() } else { s };
    if d.len() == 0 || !all_hex(d) || hex_value(d) > max {
        None
    } else {
        Some(hex_value(d))
    }
}

/// `s` with every leading repetition of `p` removed.
pub open spec fn strip_prefixes(s: Seq<char>, p: Seq<char>) -> Seq<char>
    decreases s.len(),
{
    if p.len() > 0 && p.len() <= s.len() && s.take(p.len() as int) == p {
        strip_prefixes(s.skip(p.len() as int), p)
    } else {
        s
    }
}

/// A hex number as the key fields write it: `0x`/`0X` prefixes dropped.
pub open spec fn unprefixed(s: Seq<char>) -> Seq<char> {
    strip_prefixes(strip_prefixes(s, seq!['0', 'x']), seq!['0', 'X'])
}

proof fn lemma_hex_grows(d: Seq<char>, k: int)
    requires
        0 <= k <= d.len(),
        all_hex(d),
    ensures
        hex_value(d) >= hex_value(d.take(k)),
    decreases d.len() - k,
{
    if k < d.len() {
        lemma_hex_grows(d, k + 1);
        let t = d.take(k + 1);
        assert(t.drop_last() =~= d.take(k));
        assert(hex_val(d[k]) >= 0);
    } else {
        assert(d.take(k) =~= d);
    }
}

fn hex_digit(c: char) -> (r: i64)
    ensures
        r == hex_val(c),
{
    if '0' <= c && c <= '9' {
        (c as u32 - 48) as i64
    } else if 'a' <= c && c <= 'f' {
        (c as u32 - 87) as i64
    } else if 'A' <= c && c <= 'F' {
        (c as u32 - 55) as i64
    } else {
        -1
    }
}

/// Hex parsing into a value no larger than `max`.
fn parse_radix16(cs: &Vec<char>, max: u64) -> (r: Option<u64>)
    requires
        max >= 15,
    ensures
        match r {
            Some(v) => radix16(cs@, max as nat) == Some(v as nat),
            None => radix16(cs@, max as nat) is None,
        },
{
    let start: usize = if cs.len() > 0 && cs[0] == '+' { 1 } else { 0 };
    let ghost d = if cs@.len() > 0 && cs@[0] == '+' { cs@.drop_first() } else { cs@ };
    assert(d =~= cs@.skip(start as int));
    if cs.len() == start {
        return None;
    }
    let mut v: u64 = 0;
    let mut i = start;
    assert(d.take(0) =~= Seq::<char>::empty());
    while i < cs.len()
        invariant
            start <= i <= cs@.len(),
            d == cs@.skip(start as int),
            d == (if cs@.len() > 0 && cs@[0] == '+' { cs@.drop_first() } else { cs@ }),
            all_hex(d.take(i - start)),
            v as nat == hex_value(d.take(i - start)),
            v <= max,
            max >= 15,
        decreases cs@.len() - i,
    {
        let h = hex_digit(cs[i]);
        proof {
            assert(d.take(i - start + 1).drop_last() =~= d.take(i - start));
            assert(d[i - start] == cs@[i as int]);
        }
        if h < 0 {
            proof {
                assert(hex_val(d[i - start]) < 0);
                assert(!all_hex(d));
            }
            return None;
        }
        let hd = h as u64;
        if v > (max - hd) / 16 {
            proof {
                assert(16 * v + hd > max) by (nonlinear_arith)
                    requires
                        v > (max - hd) / 16,
                        0 <= hd < 16,
                        hd <= max || true,
                ;
                if all_hex(d) {
                    lemma_hex_grows(d, i - start + 1);
                    assert(hex_value(d.take(i - start + 1)) == 16 * hex_value(d.take(i - start)) + hex_val(d[i - start]) as nat);
                }
            }
            return None;
        }
        assert(16 * v + hd <= max) by (nonlinear_arith)
            requires
                v <= (max - hd) / 16,
                0 <= hd < 16,
        ;
        v = v * 16 + hd;
        proof {
            assert(forall|j: int| 0 <= j < i - start ==> #[trigger] d.take(i - start + 1)[j] == d.take(i - start)[j]);
        }
        i = i + 1;
    }
    assert(d.take(i - start) =~= d);
    Some(v)
}

fn strip_prefix_rep(cs: &Vec<char>, from: usize, p0: char, p1: char) -> (r: usize)
    requires
        from <= cs@.len(),
    ensures
        from <= r <= cs@.len(),
        cs@.skip(r as int) == strip_prefixes(cs@.skip(from as int), seq![p0, p1]),
{
    let mut k = from;
    while cs.len() - k >= 2 && cs[k] == p0 && cs[k + 1] == p1
        invariant
            from <= k <= cs@.len(),
            strip_prefixes(cs@.skip(k as int), seq![p0, p1]) == strip_prefixes(cs@.skip(from as int), seq![p0, p1]),
        decreases cs@.len() - k,
    {
        let ghost s = cs@.skip(k as int);
        assert(s.take(2) =~= seq![p0, p1]);
        assert(s.skip(2) =~= cs@.skip(k + 2));
        k = k + 2;
    }
    proof {
        let s = cs@.skip(k as int);
        if 2 <= s.len() && s.take(2) == seq![p0, p1] {
            assert(s[0] == p0 && s[1] == p1);
        }
    }
    k
}

fn rest_from(cs: &Vec<char>, from: usize) -> (r: Vec<char>)
    requires
        from <= cs@.len(),
    ensures
        r@ == cs@.skip(from as int),
{
    let mut out: Vec<char> = Vec::new();
    let mut q = from;
    while q < cs.len()
        invariant
            from <= q <= cs@.len(),
            out@ == cs@.subrange(from as int, q as int),
        decreases cs@.len() - q,
    {
        out.push(cs[q]);
        q = q + 1;
        assert(out@ =~= cs@.subrange(from as int, q as int));
    }
    assert(out@ =~= cs@.skip(from as int));
    out
}

/// A hex word with its `0x`/`0X` prefixes dropped, parsed into a value no
/// larger than `max`.
fn parse_prefixed(cs: &Vec<char>, max: u64) -> (r: Option<u64>)
    requires
        max >= 15,
    ensures
        match r {
            Some(v) => radix16(unprefixed(cs@), max as nat) == Some(v as nat),
            None => radix16(unprefixed(cs@), max as nat) is None,
        },
{
    assert(cs@.skip(0) =~= cs@);
    let a = strip_prefix_rep(cs, 0, '0', 'x');
    let b = strip_prefix_rep(cs, a, '0', 'X');
    let rest = rest_from(cs, b);
    parse_radix16(&rest, max)
}

/// The value of a 64-bit hex key: the trimmed text, `0x` prefixes dropped;
/// nothing for blank text or anything that is not a 64-bit hex number.
pub open spec fn hex_u64_of(text: Seq<char>) -> Option<nat> {
    let t = trim_ws(text);
    if t.len() == 0 {
        None
    } else {
        radix16(unprefixed(t), u64::MAX as nat)
    }
}

pub fn parse_hex_u64(text: &str) -> (r: Option<u64>)
    ensures
        match r {
            Some(v) => hex_u64_of(text@) == Some(v as nat),
            None => hex_u64_of(text@) is None,
        },
{
    let t = trim_str(text);
    let cs = chars_of(t);
    if cs.len() == 0 {
        return None;
    }
    parse_prefixed(&cs, u64::MAX)
}

/// The hex digit of `n` (below 16), upper- or lower-case.
pub open spec fn hex_digit_char(n: int, upper: bool) -> char {
    if n < 10 {
        (48 + n) as char
    } else if upper {
        (55 + n) as char
    } else {
        (87 + n) as char
    }
}

/// `v` in hex with no leading zeros, as `{:x}` (or, upper-case, `{:X}`)
/// writes it.
pub open spec fn hex_digits(v: nat, upper: bool) -> Seq<char>
    decreases v,
{
    if v < 16 {
        seq![hex_digit_char(v as int, upper)]
    } else {
        hex_digits(v / 16, upper).push(hex_digit_char((v % 16) as int, upper))
    }
}

/// `n` zero digits.
pub open spec fn zeros(n: nat) -> Seq<char> {
    Seq::new(n, |i: int| '0')
}

/// A spelling of `v` as a key text: its hex digits in either case behind
/// `pad` zeros (as `{:016x}` pads), after no prefix (`prefix` 0), `0x` (1)
/// or `0X` (2).
pub open spec fn hex_spelling(v: nat, upper: bool, pad: nat, prefix: int) -> Seq<char> {
    let body = zeros(pad) + hex_digits(v, upper);
    if prefix == 1 {
        seq!['0', 'x'] + body
    } else if prefix == 2 {
        seq!['0', 'X'] + body
    } else {
        body
    }
}

pub open spec fn hex_char(c: char) -> bool {
    '0' <= c <= '9' || 'a' <= c <= 'f' || 'A' <= c <= 'F'
}

pub open spec fn all_white(s: Seq<char>) -> bool {
    forall|i: int| 0 <= i < s.len() ==> is_white_space(#[trigger] s[i])
}

proof fn lemma_hex_digits(v: nat, upper: bool)
    ensures
        hex_digits(v, upper).len() >= 1,
        all_hex(hex_digits(v, upper)),
        hex_value(hex_digits(v, upper)) == v,
        forall|i: int| 0 <= i < hex_digits(v, upper).len() ==> hex_char(#[trigger] hex_digits(v, upper)[i]),
    decreases v,
{
    if v < 16 {
        let d = hex_digits(v, upper);
        assert(d.drop_last() =~= Seq::<char>::empty());
        assert(hex_value(d.drop_last()) == 0);
    } else {
        lemma_hex_digits(v / 16, upper);
        let d = hex_digits(v, upper);
        let p = hex_digits(v / 16, upper);
        assert(d.drop_last() =~= p);
        assert(v == 16 * (v / 16) + v % 16) by (nonlinear_arith);
        assert forall|i: int| 0 <= i < d.len() implies hex_char(#[trigger] d[i]) && hex_val(d[i]) >= 0 by {
            if i < p.len() {
                assert(d[i] == p[i]);
            }
        }
    }
}

proof fn lemma_zeros_value(n: nat)
    ensures
        all_hex(zeros(n)),
        hex_value(zeros(n)) == 0,
    decreases n,
{
    if n > 0 {
        lemma_zeros_value((n - 1) as nat);
        assert(zeros(n).drop_last() =~= zeros((n - 1) as nat));
    }
}

/// Leading zeros change no hex value.
proof fn lemma_leading_zeros(n: nat, d: Seq<char>)
    requires
        all_hex(d),
    ensures
        all_hex(zeros(n) + d),
        hex_value(zeros(n) + d) == hex_value(d),
    decreases d.len(),
{
    lemma_zeros_value(n);
    let s = zeros(n) + d;
    assert forall|i: int| 0 <= i < s.len() implies hex_val(#[trigger] s[i]) >= 0 by {
        if i >= n {
            assert(s[i] == d[i - n]);
        }
    }
    if d.len() == 0 {
        assert(s =~= zeros(n));
    } else {
        lemma_leading_zeros(n, d.drop_last());
        assert(s.drop_last() =~= zeros(n) + d.drop_last());
        assert(s.last() == d.last());
    }
}

proof fn lemma_trim_start_white(pre: Seq<char>, x: Seq<char>)
    requires
        all_white(pre),
        x.len() > 0,
        !is_white_space(x[0]),
    ensures
        trim_start_ws(pre + x) == x,
    decreases pre.len(),
{
    if pre.len() == 0 {
        assert(pre + x =~= x);
    } else {
        assert((pre + x)[0] == pre[0]);
        assert((pre + x).drop_first() =~= pre.drop_first() + x);
        assert forall|i: int| 0 <= i < pre.drop_first().len() implies is_white_space(#[trigger] pre.drop_first()[i]) by {
            assert(pre.drop_first()[i] == pre[i + 1]);
        }
        lemma_trim_start_white(pre.drop_first(), x);
    }
}

proof fn lemma_trim_end_white(x: Seq<char>, post: Seq<char>)
    requires
        all_white(post),
        x.len() > 0,
        !is_white_space(x.last()),
    ensures
        trim_end_ws(x + post) == x,
    decreases post.len(),
{
    if post.len() == 0 {
        assert(x + post =~= x);
    } else {
        assert((x + post).last() == post.last());
        assert((x + post).drop_last() =~= x + post.drop_last());
        assert forall|i: int| 0 <= i < post.drop_last().len() implies is_white_space(#[trigger] post.drop_last()[i]) by {
            assert(post.drop_last()[i] == post[i]);
        }
        lemma_trim_end_white(x, post.drop_last());
    }
}

/// A hex number printed and read back: every 64-bit value, in hex digits
/// of either case, with any number of leading zeros, bare or behind `0x`
/// or `0X`, and with any white space around it, reads back as that value.
pub proof fn lemma_hex_key_reads_back(v: u64, upper: bool, pad: nat, prefix: int, pre: Seq<char>, post: Seq<char>)
    requires
        all_white(pre),
        all_white(post),
    ensures
        hex_u64_of(pre + hex_spelling(v as nat, upper, pad, prefix) + post) == Some(v as nat),
{
    let d = hex_digits(v as nat, upper);
    lemma_hex_digits(v as nat, upper);
    lemma_leading_zeros(pad, d);
    let body = zeros(pad) + d;
    let x = hex_spelling(v as nat, upper, pad, prefix);
    assert forall|i: int| 0 <= i < body.len() implies hex_char(#[trigger] body[i]) by {
        if i >= pad {
            assert(body[i] == d[i - pad]);
        }
    }
    // The spelling starts and ends with a digit, never with white space.
    assert(x.len() > 0 && x[0] == if prefix == 1 || prefix == 2 { '0' } else { body[0] });
    assert(x.last() == body.last());
    assert(hex_char(body[0]) && hex_char(body.last()));
    lemma_trim_start_white(pre, x + post);
    assert(pre + x + post =~= pre + (x + post));
    assert((x + post)[0] == x[0]);
    lemma_trim_end_white(x, post);
    assert(trim_ws(pre + x + post) == x);
    // The body starts with no prefix.
    if body.len() >= 2 {
        assert(body.take(2)[1] == body[1]);
    }
    assert(strip_prefixes(body, seq!['0', 'x']) == body);
    assert(strip_prefixes(body, seq!['0', 'X']) == body);
    assert(unprefixed(body) == body);
    if prefix == 1 {
        assert(x.take(2) =~= seq!['0', 'x']);
        assert(x.skip(2) =~= body);
    } else if prefix == 2 {
        assert(x.take(2) =~= seq!['0', 'X']);
        assert(x.take(2)[1] != seq!['0', 'x'][1]);
        assert(x.skip(2) =~= body);
        assert(strip_prefixes(x, seq!['0', 'x']) == x);
    }
    assert(unprefixed(x) == body);
    assert(body[0] != '+');
}

pub open spec fn is_key_separator(c: char) -> bool {
    is_white_space(c) || c == ',' || c == ';'
}

/// The non-empty fields of a key text, split at separators.
pub open spec fn key_fold(s: Seq<char>) -> (Seq<Seq<char>>, Seq<char>)
    decreases s.len(),
{
    if s.len() == 0 {
        (Seq::empty(), Seq::empty())
    } else {
        let (out, cur) = key_fold(s.drop_last());
        if is_key_separator(s.last()) {
            if cur.len() > 0 {
                (out.push(cur), Seq::empty())
            } else {
                (out, cur)
            }
        } else {
            (out, cur.push(s.last()))
        }
    }
}

pub open spec fn key_fields(s: Seq<char>) -> Seq<Seq<char>> {
    let (out, cur) = key_fold(s);
    if cur.len() > 0 {
        out.push(cur)
    } else {
        out
    }
}

/// The FZ key schedule a text gives: exactly 44 fields, each a 32-bit hex
/// number (`0x` prefixes allowed).
pub open spec fn fz_key_of(text: Seq<char>) -> Option<Seq<u32>> {
    let f = key_fields(text);
    if f.len() == 44 && forall|i: int| 0 <= i < 44 ==> #[trigger] radix16(unprefixed(f[i]), u32::MAX as nat) is Some {
        Some(Seq::new(44, |i: int| radix16(unprefixed(f[i]), u32::MAX as nat)->Some_0 as u32))
    } else {
        None
    }
}

pub fn parse_fz_key(text: &str) -> (r: Option<[u32; 44]>)
    ensures
        match r {
            Some(k) => fz_key_of(text@) == Some(k@),
            None => fz_key_of(text@) is None,
        },
{
    let cs = chars_of(text);
    let mut fields: Vec<Vec<char>> = Vec::new();
    let mut cur: Vec<char> = Vec::new();
    let mut i: usize = 0;
    assert(cs@.take(0) =~= Seq::<char>::empty());
    assert(fields@.map_values(|f: Vec<char>| f@) =~= Seq::<Seq<char>>::empty());
    while i < cs.len()
        invariant
            i <= cs@.len(),
            cs@ == text@,
            fields@.map_values(|f: Vec<char>| f@) == key_fold(cs@.take(i as int)).0,
            cur@ == key_fold(cs@.take(i as int)).1,
        decreases cs@.len() - i,
    {
        let ch = cs[i];
        proof {
            assert(cs@.take(i + 1).drop_last() =~= cs@.take(i as int));
            assert(cs@.take(i + 1).last() == ch);
        }
        if is_white_space_char(ch) || ch == ',' || ch == ';' {
            if cur.len() > 0 {
                let ghost before = fields@.map_values(|f: Vec<char>| f@);
                let ghost cv = cur@;
                fields.push(cur);
                cur = Vec::new();
                assert(fields@.map_values(|f: Vec<char>| f@) =~= before.push(cv));
            }
        } else {
            cur.push(ch);
        }
        i = i + 1;
    }
    assert(cs@.take(i as int) =~= text@);
    if cur.len() > 0 {
        let ghost before = fields@.map_values(|f: Vec<char>| f@);
        let ghost cv = cur@;
        fields.push(cur);
        assert(fields@.map_values(|f: Vec<char>| f@) =~= before.push(cv));
    }
    let ghost fv = fields@.map_values(|f: Vec<char>| f@);
    assert(fv == key_fields(text@));
    let mut key = [0u32; 44];
    let mut k: usize = 0;
    while k < fields.len()
        invariant
            k <= fields@.len(),
            fv == fields@.map_values(|f: Vec<char>| f@),
            fv == key_fields(text@),
            forall|j: int| 0 <= j < k ==> #[trigger] radix16(unprefixed(fv[j]), u32::MAX as nat) is Some,
            k <= 44,
            forall|j: int| 0 <= j < k ==> key@[j] == radix16(unprefixed(fv[j]), u32::MAX as nat)->Some_0 as u32,
        decreases fields@.len() - k,
    {
        match parse_prefixed(&fields[k], 0xffff_ffffu64) {
            Some(v) => {
                if k >= 44 {
                    assert(fv.len() != 44);
                    return None;
                }
                key[k] = v as u32;
            },
            None => {
                assert(fv[k as int] == fields@[k as int]@);
                assert(radix16(unprefixed(fv[k as int]), u32::MAX as nat) is None);
                assert(fv.len() == fields@.len());
                return None;
            },
        }
        k = k + 1;
    }
    if fields.len() != 44 {
        return None;
    }
    assert(key@ =~= Seq::new(44, |i: int| radix16(unprefixed(fv[i]), u32::MAX as nat)->Some_0 as u32));
    Some(key)
}

impl Settings {
    pub fn fz_key(&self) -> (r: Option<[u32; 44]>)
        ensures
            match r {
                Some(k) => fz_key_of(self.fz_key_text@) == Some(k@),
                None => fz_key_of(self.fz_key_text@) is None,
            },
    {
        parse_fz_key(self.fz_key_text.as_str())
    }

    pub fn xzz_key(&self) -> (r: Option<u64>)
        ensures
            match r {
                Some(v) => hex_u64_of(self.xzz_key_text@) == Some(v as nat),
                None => hex_u64_of(self.xzz_key_text@) is None,
            },
    {
        parse_hex_u64(self.xzz_key_text.as_str())
    }

    pub fn keys(&self) -> (k: Keys)
        ensures
            match k.fz_key {
                Some(key) => fz_key_of(self.fz_key_text@) == Some(key@),
                None => fz_key_of(self.fz_key_text@) is None,
            },
            match k.xzz_key {
                Some(v) => hex_u64_of(self.xzz_key_text@) == Some(v as nat),
                None => hex_u64_of(self.xzz_key_text@) is None,
            },
    {
        Keys { fz_key: self.fz_key(), xzz_key: self.xzz_key() }
    }
}

} // verus!
