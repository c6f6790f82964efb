//! A line cursor with the C `strtol`/`strtod`/token-scan semantics the
//! boardview formats rely on: skip leading whitespace, read as much as
//! possible, return 0 (without advancing) when nothing reads.
//!
//! Decimal numbers are read exactly into fixed-point integers (see
//! `read_scaled`) rather than into binary floating point.

use vstd::prelude::*;
use vstd::string::StringSliceAdditionalSpecFns;
use vstd::utf8::*;
use crate::model::clamp64;

verus! {

/// What `String::from_utf8_lossy` produces for a byte sequence.
pub uninterp spec fn utf8_lossy(bytes: Seq<u8>) -> Seq<char>;

/// `String::from_utf8_lossy(..).into_owned()`. The result is named by
/// `utf8_lossy`; the documentation states that valid UTF-8 input is returned
/// unchanged, which the second clause says. How invalid sequences are
/// replaced is left unsaid.
#[verifier::external_body]
pub fn lossy(bytes: &[u8]) -> (s: String)
    ensures
        s@ == utf8_lossy(bytes@),
        valid_utf8(bytes@) ==> s@ == decode_utf8(bytes@),
{
    String::from_utf8_lossy(bytes).into_owned()
}


/// C `isspace`: space, `\t`, `\n`, `\r`, vertical tab, form feed.
pub open spec fn is_space(b: u8) -> bool {
    b == 32u8 || b == 9u8 || b == 10u8 || b == 13u8 || b == 11u8 || b == 12u8
}

pub open spec fn is_digit(b: u8) -> bool {
    48u8 <= b && b <= 57u8
}

/// First index at or after `p` whose byte is not a space (or the length).
pub open spec fn skip_spaces(b: Seq<u8>, p: int) -> int
    decreases b.len() - p,
{
    if 0 <= p < b.len() && is_space(b[p]) {
        skip_spaces(b, p + 1)
    } else {
        p
    }
}

/// First index at or after `p` whose byte is not a digit (or the length).
pub open spec fn digit_end(b: Seq<u8>, p: int) -> int
    decreases b.len() - p,
{
    if 0 <= p < b.len() && is_digit(b[p]) {
        digit_end(b, p + 1)
    } else {
        p
    }
}

/// First index at or after `p` holding a byte satisfying `stop` (or the length).
pub open spec fn scan_until(b: Seq<u8>, p: int, stop: spec_fn(u8) -> bool) -> int
    decreases b.len() - p,
{
    if 0 <= p < b.len() && !stop(b[p]) {
        scan_until(b, p + 1, stop)
    } else {
        p
    }
}

pub proof fn lemma_skip_spaces(b: Seq<u8>, p: int)
    requires
        0 <= p <= b.len(),
    ensures
        p <= skip_spaces(b, p) <= b.len(),
        forall|j: int| p <= j < skip_spaces(b, p) ==> is_space(#[trigger] b[j]),
        skip_spaces(b, p) < b.len() ==> !is_space(b[skip_spaces(b, p)]),
    decreases b.len() - p,
{
    if p < b.len() && is_space(b[p]) {
        lemma_skip_spaces(b, p + 1);
    }
}

pub proof fn lemma_digit_end(b: Seq<u8>, p: int)
    requires
        0 <= p <= b.len(),
    ensures
        p <= digit_end(b, p) <= b.len(),
        forall|j: int| p <= j < digit_end(b, p) ==> is_digit(#[trigger] b[j]),
        digit_end(b, p) < b.len() ==> !is_digit(b[digit_end(b, p)]),
    decreases b.len() - p,
{
    if p < b.len() && is_digit(b[p]) {
        lemma_digit_end(b, p + 1);
    }
}

pub proof fn lemma_scan_until(b: Seq<u8>, p: int, stop: spec_fn(u8) -> bool)
    requires
        0 <= p <= b.len(),
    ensures
        p <= scan_until(b, p, stop) <= b.len(),
        forall|j: int| p <= j < scan_until(b, p, stop) ==> !stop(#[trigger] b[j]),
        scan_until(b, p, stop) < b.len() ==> stop(b[scan_until(b, p, stop)]),
    decreases b.len() - p,
{
    if p < b.len() && !stop(b[p]) {
        lemma_scan_until(b, p + 1, stop);
    }
}

/// The integer written by a run of decimal digits.
pub open spec fn digits_value(d: Seq<u8>) -> nat
    decreases d.len(),
{
    if d.len() == 0 {
        0
    } else {
        10 * digits_value(d.drop_last()) + (d.last() - 48) as nat
    }
}

/// One past `i64::MAX`: where digit runs saturate, so that a value that
/// reaches the most negative `i64` can still be told apart.
pub const SAT_CAP: u64 = 9223372036854775808u64;

pub open spec fn min_nat(a: nat, b: nat) -> nat {
    if a <= b { a } else { b }
}

/// One step of a saturating digit accumulation agrees with saturating the
/// exact value.
pub proof fn lemma_sat_step(d: nat, x: nat, cap: nat)
    requires
        x < 10,
        cap >= 10,
    ensures
        min_nat(10 * min_nat(d, cap) + x, cap) == min_nat(10 * d + x, cap),
{
    if d > cap {
        assert(10 * cap + x >= cap) by (nonlinear_arith) requires cap >= 10;
        assert(10 * d + x >= cap) by (nonlinear_arith) requires d > cap;
    }
}


/// Where `read_int` leaves the cursor and what it returns (`strtol`: the
/// signed value, saturated at the `i64` range).
pub open spec fn int_read(b: Seq<u8>, pos: int) -> (int, i64) {
    let p0 = skip_spaces(b, pos);
    let signed = p0 < b.len() && (b[p0] == 45u8 || b[p0] == 43u8);
    let neg = p0 < b.len() && b[p0] == 45u8;
    let q = if signed { p0 + 1 } else { p0 };
    let e = digit_end(b, q);
    if e == q {
        (pos, 0i64)
    } else {
        let v = digits_value(b.subrange(q, e)) as int;
        (e, clamp64(if neg { -v } else { v }))
    }
}

/// Stops at a space.
pub open spec fn space_stop() -> spec_fn(u8) -> bool {
    |x: u8| is_space(x)
}

/// Stops at the byte `d`.
pub open spec fn byte_stop(d: u8) -> spec_fn(u8) -> bool {
    |x: u8| x == d
}

/// Stops at anything but a non-tab space.
pub open spec fn pad_stop() -> spec_fn(u8) -> bool {
    |x: u8| !(is_space(x) && x != 9u8)
}

/// Stops at a tab or a line break.
pub open spec fn field_stop() -> spec_fn(u8) -> bool {
    |x: u8| x == 9u8 || x == 13u8 || x == 10u8
}

pub open spec fn next_pos(t: int, len: int) -> int {
    if t + 1 <= len { t + 1 } else { len }
}

/// The bytes `read_token` returns and where it leaves the cursor.
pub open spec fn token_span(b: Seq<u8>, pos: int) -> (int, int) {
    let p0 = skip_spaces(b, pos);
    (p0, scan_until(b, p0, space_stop()))
}

/// The token `read_token` returns at `pos`.
pub open spec fn token_at(b: Seq<u8>, pos: int) -> Seq<char> {
    utf8_lossy(b.subrange(token_span(b, pos).0, token_span(b, pos).1))
}

/// Where `read_token` leaves the cursor.
pub open spec fn after_token(b: Seq<u8>, pos: int) -> int {
    next_pos(token_span(b, pos).1, b.len() as int)
}

pub open spec fn until_span(b: Seq<u8>, pos: int, delim: u8) -> (int, int) {
    let p0 = skip_spaces(b, pos);
    (p0, scan_until(b, p0, byte_stop(delim)))
}

pub open spec fn tab_field_span(b: Seq<u8>, pos: int) -> (int, int) {
    let p0 = scan_until(b, pos, pad_stop());
    (p0, scan_until(b, p0, byte_stop(9u8)))
}

/// 10 to the power `k`.
pub open spec fn pow10(k: nat) -> nat
    decreases k,
{
    if k == 0 {
        1
    } else {
        10 * pow10((k - 1) as nat)
    }
}

pub proof fn lemma_pow10_grows(a: nat, b: nat)
    requires
        a <= b,
    ensures
        1 <= pow10(a) <= pow10(b),
    decreases b,
{
    if b > a {
        lemma_pow10_grows(a, (b - 1) as nat);
    } else if b > 0 {
        lemma_pow10_grows((b - 1) as nat, (b - 1) as nat);
    }
}

/// A run of digits is smaller than 10 to its length.
pub proof fn lemma_digits_bound(d: Seq<u8>)
    requires
        forall|j: int| 0 <= j < d.len() ==> is_digit(#[trigger] d[j]),
    ensures
        digits_value(d) < pow10(d.len()),
    decreases d.len(),
{
    if d.len() > 0 {
        let e = d.drop_last();
        assert forall|j: int| 0 <= j < e.len() implies is_digit(#[trigger] e[j]) by {
            assert(e[j] == d[j]);
        }
        lemma_digits_bound(e);
        assert(is_digit(d[d.len() - 1]));
    }
}

/// Splitting a run of digits after `j` digits.
pub proof fn lemma_digits_split(d: Seq<u8>, j: int)
    requires
        0 <= j <= d.len(),
    ensures
        digits_value(d) == digits_value(d.take(j)) * pow10((d.len() - j) as nat) + digits_value(
            d.skip(j),
        ),
    decreases d.len(),
{
    if j == d.len() {
        assert(d.take(j) =~= d);
        assert(d.skip(j) =~= Seq::<u8>::empty());
        assert(pow10(0) == 1);
        assert(((d.len() - j) as nat) == 0nat);
        assert(digits_value(d.skip(j)) == 0);
        assert(digits_value(d.take(j)) == digits_value(d));
        assert(digits_value(d) == digits_value(d.take(j)) * pow10((d.len() - j) as nat) + digits_value(d.skip(j)));
    } else {
        let e = d.drop_last();
        lemma_digits_split(e, j);
        assert(e.take(j) =~= d.take(j));
        let t = d.skip(j);
        assert(t.drop_last() =~= e.skip(j));
        assert(t.last() == d.last());
        let x = (d.last() - 48) as nat;
        assert(digits_value(t) == 10 * digits_value(e.skip(j)) + x);
        assert(digits_value(d) == 10 * digits_value(e) + x);
        let a = digits_value(d.take(j)) as int;
        let q = pow10((e.len() - j) as nat) as int;
        let bb = digits_value(e.skip(j)) as int;
        assert(pow10((d.len() - j) as nat) == 10 * q);
        assert(digits_value(d) == a * (10 * q) + digits_value(t)) by (nonlinear_arith)
            requires
                digits_value(d) == 10 * digits_value(e) + x,
                digits_value(e) == a * q + bb,
                digits_value(t) == 10 * bb + x,
        ;
        assert(digits_value(d) == digits_value(d.take(j)) * pow10((d.len() - j) as nat) + digits_value(d.skip(j)));
    }
}

/// The magnitude `d * 10^k` for a run of digits `d`, truncated toward zero
/// when `k` is negative.
pub open spec fn scaled_magnitude(d: Seq<u8>, k: int) -> nat {
    if k >= 0 {
        digits_value(d) * pow10(k as nat)
    } else {
        digits_value(d) / pow10((-k) as nat)
    }
}

/// Where the digits of a decimal number start: after spaces and a sign.
pub open spec fn mant_start(b: Seq<u8>, pos: int) -> int {
    let p0 = skip_spaces(b, pos);
    if p0 < b.len() && (b[p0] == 45u8 || b[p0] == 43u8) {
        p0 + 1
    } else {
        p0
    }
}

pub open spec fn read_neg(b: Seq<u8>, pos: int) -> bool {
    let p0 = skip_spaces(b, pos);
    p0 < b.len() && b[p0] == 45u8
}

pub open spec fn int_end(b: Seq<u8>, pos: int) -> int {
    digit_end(b, mant_start(b, pos))
}

pub open spec fn frac_start(b: Seq<u8>, pos: int) -> int {
    let e = int_end(b, pos);
    if e < b.len() && b[e] == 46u8 {
        e + 1
    } else {
        e
    }
}

pub open spec fn frac_end(b: Seq<u8>, pos: int) -> int {
    digit_end(b, frac_start(b, pos))
}

/// The digits of the number, integer part then fraction.
pub open spec fn mantissa(b: Seq<u8>, pos: int) -> Seq<u8> {
    b.subrange(mant_start(b, pos), int_end(b, pos)) + b.subrange(frac_start(b, pos), frac_end(b, pos))
}

pub open spec fn exp_digits_start(b: Seq<u8>, m: int) -> int {
    let s = m + 1;
    if s < b.len() && (b[s] == 43u8 || b[s] == 45u8) {
        s + 1
    } else {
        s
    }
}

/// An `e` or `E` at `m` followed by an optionally signed run of digits.
pub open spec fn has_exp(b: Seq<u8>, m: int) -> bool {
    &&& 0 <= m < b.len()
    &&& (b[m] == 101u8 || b[m] == 69u8)
    &&& exp_digits_start(b, m) < b.len()
    &&& is_digit(b[exp_digits_start(b, m)])
}

/// The exponent, its magnitude capped at `i64::MAX`.
pub open spec fn exp_value(b: Seq<u8>, m: int) -> int {
    if has_exp(b, m) {
        let s = exp_digits_start(b, m);
        let v = min_nat(digits_value(b.subrange(s, digit_end(b, s))), i64::MAX as nat);
        if b[m + 1] == 45u8 {
            -v
        } else {
            v as int
        }
    } else {
        0
    }
}

pub open spec fn decimal_end(b: Seq<u8>, m: int) -> int {
    if has_exp(b, m) {
        digit_end(b, exp_digits_start(b, m))
    } else {
        m
    }
}

/// Where `read_scaled(shift)` leaves the cursor and what it returns: the
/// `strtod` number at `pos` times `10^shift`, truncated toward zero and
/// saturated at the `i64` range; `(pos, 0)` when no digit is there.
pub open spec fn scaled_read(b: Seq<u8>, pos: int, shift: nat) -> (int, i64) {
    let d = mantissa(b, pos);
    if d.len() == 0 {
        (pos, 0i64)
    } else {
        let m = frac_end(b, pos);
        let k = exp_value(b, m) - (frac_end(b, pos) - frac_start(b, pos)) + shift;
        let mag = scaled_magnitude(d, k) as int;
        (decimal_end(b, m), clamp64(if read_neg(b, pos) { -mag } else { mag }))
    }
}

/// Saturating after scaling by a power of ten is saturating the scaled
/// exact value.
pub proof fn lemma_sat_scale(d: nat, p: nat, cap: nat)
    requires
        p >= 1,
    ensures
        min_nat(min_nat(d, cap) * p, cap) == min_nat(d * p, cap),
{
    if d > cap {
        assert(cap * p >= cap) by (nonlinear_arith) requires p >= 1;
        assert(d * p >= cap) by (nonlinear_arith) requires p >= 1, d > cap;
    }
}

/// Index of the first non-digit at or after `from`.
fn scan_digits(buf: &[u8], from: usize) -> (r: usize)
    requires
        from <= buf@.len(),
    ensures
        r == digit_end(buf@, from as int),
        from <= r <= buf@.len(),
        forall|j: int| from <= j < r ==> is_digit(#[trigger] buf@[j]),
{
    proof {
        lemma_digit_end(buf@, from as int);
    }
    let mut p = from;
    while p < buf.len() && is_digit_byte(buf[p])
        invariant
            from <= p <= buf@.len(),
            digit_end(buf@, from as int) == digit_end(buf@, p as int),
        decreases buf@.len() - p,
    {
        p = p + 1;
    }
    p
}

/// The value of the digits in `buf[from..to]`, saturated one past `i64::MAX`
/// (so that a value that reaches the most negative `i64` is told apart).
fn sat_digits(buf: &[u8], from: usize, to: usize) -> (v: u64)
    requires
        from <= to <= buf@.len(),
        forall|j: int| from <= j < to ==> is_digit(#[trigger] buf@[j]),
    ensures
        v as nat == min_nat(digits_value(buf@.subrange(from as int, to as int)), SAT_CAP as nat),
{
    let mut p = from;
    let mut value: u64 = 0;
    assert(buf@.subrange(from as int, from as int) =~= Seq::<u8>::empty());
    while p < to
        invariant
            from <= p <= to <= buf@.len(),
            forall|j: int| from <= j < to ==> is_digit(#[trigger] buf@[j]),
            value as nat == min_nat(digits_value(buf@.subrange(from as int, p as int)), SAT_CAP as nat),
        decreases to - p,
    {
        assert(is_digit(buf@[p as int]));
        let d = (buf[p] - 48u8) as u64;
        proof {
            let sub = buf@.subrange(from as int, p + 1);
            assert(sub.drop_last() =~= buf@.subrange(from as int, p as int));
            lemma_sat_step(digits_value(buf@.subrange(from as int, p as int)), d as nat, SAT_CAP as nat);
        }
        let lim = (SAT_CAP - d) / 10;
        if value > lim {
            assert(10 * value + d > SAT_CAP) by (nonlinear_arith)
                requires
                    value > lim,
                    lim == (SAT_CAP - d) / 10,
                    0 <= d < 10,
            ;
            value = SAT_CAP;
        } else {
            assert(10 * value + d <= SAT_CAP) by (nonlinear_arith)
                requires
                    value <= lim,
                    lim == (SAT_CAP - d) / 10,
                    0 <= d < 10,
            ;
            value = value * 10 + d;
        }
        p = p + 1;
    }
    value
}

/// `min(v * 10^k, SAT_CAP)` for `v <= SAT_CAP`.
fn scale_up(v: u64, k: i128) -> (r: u64)
    requires
        v <= SAT_CAP,
        0 <= k,
    ensures
        r as nat == min_nat(v as nat * pow10(k as nat), SAT_CAP as nat),
{
    let mut r = v;
    let mut j: i128 = 0;
    assert(pow10(0) == 1);
    assert(v as nat * pow10(0) == v as nat);
    while j < k && r != 0 && r != SAT_CAP
        invariant
            0 <= j <= k,
            v <= SAT_CAP,
            r as nat == min_nat(v as nat * pow10(j as nat), SAT_CAP as nat),
        decreases k - j,
    {
        proof {
            lemma_sat_step(v as nat * pow10(j as nat), 0, SAT_CAP as nat);
            assert(v as nat * pow10((j + 1) as nat) == 10 * (v as nat * pow10(j as nat))) by (nonlinear_arith)
                requires pow10((j + 1) as nat) == 10 * pow10(j as nat);
        }
        if r > SAT_CAP / 10 {
            r = SAT_CAP;
        } else {
            r = r * 10;
        }
        j = j + 1;
    }
    proof {
        lemma_pow10_grows(j as nat, k as nat);
        if r == 0 && j < k {
            assert(v == 0) by (nonlinear_arith)
                requires v as nat * pow10(j as nat) == 0, pow10(j as nat) >= 1, v >= 0;
        }
        if r == SAT_CAP && j < k {
            assert(v as nat * pow10(k as nat) >= v as nat * pow10(j as nat)) by (nonlinear_arith)
                requires pow10(k as nat) >= pow10(j as nat), v >= 0;
        }
    }
    r
}

/// The exponent after a mantissa ending at `m`, and where the number ends.
fn read_exponent(buf: &[u8], m: usize) -> (r: (i128, usize))
    requires
        m <= buf@.len(),
    ensures
        r.0 == exp_value(buf@, m as int),
        r.1 == decimal_end(buf@, m as int),
        m <= r.1 <= buf@.len(),
        -(i64::MAX as int) <= r.0 <= i64::MAX,
{
    let len = buf.len();
    if m < len && (buf[m] == 101u8 || buf[m] == 69u8) {
        let mut s = m + 1;
        let mut eneg = false;
        if s < len && (buf[s] == 43u8 || buf[s] == 45u8) {
            eneg = buf[s] == 45u8;
            s = s + 1;
        }
        if s < len && is_digit_byte(buf[s]) {
            let s1 = scan_digits(buf, s);
            let wide = sat_digits(buf, s, s1);
            let ev: i64 = if wide > i64::MAX as u64 {
                i64::MAX
            } else {
                wide as i64
            };
            if eneg {
                return (-(ev as i128), s1);
            } else {
                return (ev as i128, s1);
            }
        }
    }
    (0, m)
}

/// `min(d * 10^k, SAT_CAP)` for a run of digits `d`, truncated toward
/// zero when `k` is negative.
fn scaled_digits(ds: &Vec<u8>, k: i128) -> (mag: u64)
    requires
        k > i128::MIN,
        forall|j: int| 0 <= j < ds@.len() ==> is_digit(#[trigger] ds@[j]),
    ensures
        mag as nat == min_nat(scaled_magnitude(ds@, k as int), SAT_CAP as nat),
{
    let n = ds.len();
    if k >= 0 {
        let whole = sat_digits(ds.as_slice(), 0, n);
        assert(ds@.subrange(0, n as int) =~= ds@);
        proof {
            lemma_pow10_grows(0, k as nat);
            lemma_sat_scale(digits_value(ds@), pow10(k as nat), SAT_CAP as nat);
        }
        scale_up(whole, k)
    } else {
        let mm: i128 = -k;
        proof {
            lemma_digits_bound(ds@);
        }
        if mm >= n as i128 {
            proof {
                lemma_pow10_grows(n as nat, mm as nat);
                vstd::arithmetic::div_mod::lemma_fundamental_div_mod_converse(
                    digits_value(ds@) as int,
                    pow10(mm as nat) as int,
                    0,
                    digits_value(ds@) as int,
                );
            }
            0
        } else {
            let keep = n - (mm as usize);
            let mag = sat_digits(ds.as_slice(), 0, keep);
            proof {
                lemma_digits_split(ds@, keep as int);
                assert(ds@.subrange(0, keep as int) =~= ds@.take(keep as int));
                let rest = ds@.skip(keep as int);
                assert forall|j: int| 0 <= j < rest.len() implies is_digit(#[trigger] rest[j]) by {
                    assert(rest[j] == ds@[keep + j]);
                }
                lemma_digits_bound(rest);
                assert(rest.len() == mm);
                vstd::arithmetic::div_mod::lemma_fundamental_div_mod_converse(
                    digits_value(ds@) as int,
                    pow10(mm as nat) as int,
                    digits_value(ds@.take(keep as int)) as int,
                    digits_value(rest) as int,
                );
            }
            mag
        }
    }
}

/// Appends `buf[from..to]` to `ds`.
fn push_range(ds: &mut Vec<u8>, buf: &[u8], from: usize, to: usize)
    requires
        from <= to <= buf@.len(),
    ensures
        final(ds)@ == old(ds)@ + buf@.subrange(from as int, to as int),
{
    let mut p = from;
    while p < to
        invariant
            from <= p <= to <= buf@.len(),
            ds@ == old(ds)@ + buf@.subrange(from as int, p as int),
        decreases to - p,
    {
        ds.push(buf[p]);
        p = p + 1;
        assert(ds@ =~= old(ds)@ + buf@.subrange(from as int, p as int));
    }
}

/// A cursor over a byte line. The position never exceeds the length.
pub struct Cursor<'a> {
    buf: &'a [u8],
    pos: usize,
}

impl<'a> Cursor<'a> {
    #[verifier::type_invariant]
    spec fn inv(&self) -> bool {
        self.pos <= self.buf@.len()
    }

    /// The bytes under the cursor.
    pub closed spec fn data(&self) -> Seq<u8> {
        self.buf@
    }

    /// The current position.
    pub closed spec fn offset(&self) -> int {
        self.pos as int
    }

    pub fn new(buf: &'a [u8]) -> (c: Self)
        ensures
            c.data() == buf@,
            c.offset() == 0,
    {
        Cursor { buf, pos: 0 }
    }

    pub fn pos(&self) -> (p: usize)
        ensures
            p == self.offset(),
            p <= self.data().len(),
    {
        proof {
            use_type_invariant(self);
        }
        self.pos
    }

    pub fn at_end(&self) -> (r: bool)
        ensures
            r == (self.offset() >= self.data().len()),
    {
        self.pos >= self.buf.len()
    }

    pub fn peek(&self) -> (r: Option<u8>)
        ensures
            r == if self.offset() < self.data().len() {
                Some(self.data()[self.offset()])
            } else {
                None::<u8>
            },
    {
        if self.pos < self.buf.len() {
            Some(self.buf[self.pos])
        } else {
            None
        }
    }

    /// Moves forward by `n`, stopping at the end.
    pub fn advance(&mut self, n: usize)
        ensures
            final(self).data() == old(self).data(),
            final(self).offset() == if old(self).offset() + n <= old(self).data().len() {
                old(self).offset() + n
            } else {
                old(self).data().len() as int
            },
    {
        proof {
            use_type_invariant(&*self);
        }
        if n >= self.buf.len() - self.pos {
            self.pos = self.buf.len();
        } else {
            self.pos = self.pos + n;
        }
    }

    /// The unread bytes.
    pub fn rest(&self) -> (r: &'a [u8])
        ensures
            r@ == self.data().subrange(self.offset(), self.data().len() as int),
    {
        proof {
            use_type_invariant(self);
        }
        &self.buf[self.pos..self.buf.len()]
    }

    /// Do the unread bytes begin with `s`?
    pub fn starts_with(&self, s: &str) -> (r: bool)
        ensures
            r == (self.offset() + s.spec_bytes().len() <= self.data().len() && self.data().subrange(
                self.offset(),
                self.offset() + s.spec_bytes().len(),
            ) == s.spec_bytes()),
    {
        proof {
            use_type_invariant(self);
        }
        let n = s.as_bytes();
        if n.len() > self.buf.len() - self.pos {
            return false;
        }
        crate::text::run_at(self.buf, n, self.pos)
    }

    pub fn skip_ws(&mut self)
        ensures
            final(self).data() == old(self).data(),
            final(self).offset() == skip_spaces(old(self).data(), old(self).offset()),
    {
        proof {
            use_type_invariant(&*self);
            lemma_skip_spaces(self.buf@, self.pos as int);
        }
        while self.pos < self.buf.len() && is_space_byte(self.buf[self.pos])
            invariant
                self.buf@ == old(self).data(),
                old(self).offset() <= self.pos <= self.buf@.len(),
                skip_spaces(self.buf@, old(self).offset()) == skip_spaces(self.buf@, self.pos as int),
            decreases self.buf@.len() - self.pos,
        {
            self.pos = self.pos + 1;
        }
    }

    /// `strtol(p, &p, 10)`: on no digits, returns 0 and does not move.
    pub fn read_int(&mut self) -> (v: i64)
        ensures
            final(self).data() == old(self).data(),
            (final(self).offset(), v) == int_read(old(self).data(), old(self).offset()),
    {
        proof {
            use_type_invariant(&*self);
        }
        let ghost b = self.buf@;
        let start = self.pos;
        self.skip_ws();
        proof {
            use_type_invariant(&*self);
        }
        let mut p = self.pos;
        let mut neg = false;
        if p < self.buf.len() {
            if self.buf[p] == 45u8 {
                neg = true;
                p = p + 1;
            } else if self.buf[p] == 43u8 {
                p = p + 1;
            }
        }
        let digits_start = p;
        proof {
            lemma_digit_end(b, digits_start as int);
        }
        // The magnitude, saturated one past `i64::MAX` so that the most
        // negative value can still be told apart.
        let cap: u64 = SAT_CAP;
        let mut value: u64 = 0;
        while p < self.buf.len() && is_digit_byte(self.buf[p])
            invariant
                self.buf@ == b,
                digits_start <= p <= b.len(),
                digit_end(b, digits_start as int) == digit_end(b, p as int),
                cap == SAT_CAP,
                value as nat == min_nat(digits_value(b.subrange(digits_start as int, p as int)), cap as nat),
            decreases b.len() - p,
        {
            let d = (self.buf[p] - 48u8) as u64;
            proof {
                let sub = b.subrange(digits_start as int, p + 1);
                assert(sub.drop_last() =~= b.subrange(digits_start as int, p as int));
                lemma_sat_step(digits_value(b.subrange(digits_start as int, p as int)), d as nat, cap as nat);
            }
            let lim = (cap - d) / 10;
            if value > lim {
                assert(10 * value + d > cap) by (nonlinear_arith)
                    requires
                        value > lim,
                        lim == (cap - d) / 10,
                        0 <= d < 10,
                ;
                value = cap;
            } else {
                assert(10 * value + d <= cap) by (nonlinear_arith)
                    requires
                        value <= lim,
                        lim == (cap - d) / 10,
                        0 <= d < 10,
                ;
                value = value * 10 + d;
            }
            p = p + 1;
        }
        if p == digits_start {
            self.pos = start;
            return 0;
        }
        self.pos = p;
        if neg {
            if value == cap {
                i64::MIN
            } else {
                -(value as i64)
            }
        } else if value == cap {
            i64::MAX
        } else {
            value as i64
        }
    }

    /// `strtod(p, &p)` read exactly as a fixed-point integer: the number at
    /// the cursor times `10^shift`, truncated toward zero and saturated at
    /// the `i64` range. On no digits, returns 0 and does not move.
    pub fn read_scaled(&mut self, shift: u32) -> (v: i64)
        ensures
            final(self).data() == old(self).data(),
            (final(self).offset(), v) == scaled_read(old(self).data(), old(self).offset(), shift as nat),
            old(self).offset() <= final(self).offset() <= old(self).data().len(),
    {
        proof {
            use_type_invariant(&*self);
        }
        let ghost b = self.buf@;
        let ghost pos0 = self.pos as int;
        let start = self.pos;
        proof {
            lemma_skip_spaces(b, pos0);
        }
        self.skip_ws();
        proof {
            use_type_invariant(&*self);
        }
        let buf = self.buf;
        let len = buf.len();
        let mut p = self.pos;
        let mut neg = false;
        if p < len && (buf[p] == 45u8 || buf[p] == 43u8) {
            neg = buf[p] == 45u8;
            p = p + 1;
        }
        let i0 = p;
        assert(i0 == mant_start(b, pos0));
        let i1 = scan_digits(buf, i0);
        let mut f0 = i1;
        if i1 < len && buf[i1] == 46u8 {
            f0 = i1 + 1;
        }
        let f1 = scan_digits(buf, f0);
        let mut ds: Vec<u8> = Vec::new();
        push_range(&mut ds, buf, i0, i1);
        push_range(&mut ds, buf, f0, f1);
        assert(ds@ =~= mantissa(b, pos0));
        if ds.len() == 0 {
            self.pos = start;
            return 0;
        }
        proof {
            assert forall|j: int| 0 <= j < ds@.len() implies is_digit(#[trigger] ds@[j]) by {
                if j < i1 - i0 {
                    assert(ds@[j] == b[i0 + j]);
                } else {
                    assert(ds@[j] == b[f0 + j - (i1 - i0)]);
                }
            }
        }
        let (e, end) = read_exponent(buf, f1);
        let k: i128 = e - ((f1 - f0) as i128) + (shift as i128);
        let mag = scaled_digits(&ds, k);
        self.pos = end;
        if neg {
            if mag == SAT_CAP {
                i64::MIN
            } else {
                -(mag as i64)
            }
        } else if mag == SAT_CAP {
            i64::MAX
        } else {
            mag as i64
        }
    }

    /// `READ_STR`: skip whitespace, take the token up to the next
    /// whitespace, consume one delimiter.
    pub fn read_token(&mut self) -> (tok: String)
        ensures
            final(self).data() == old(self).data(),
            tok@ == utf8_lossy(old(self).data().subrange(token_span(old(self).data(), old(self).offset()).0, token_span(old(self).data(), old(self).offset()).1)),
            final(self).offset() == next_pos(token_span(old(self).data(), old(self).offset()).1, old(self).data().len() as int),
    {
        proof {
            use_type_invariant(&*self);
        }
        self.skip_ws();
        proof {
            use_type_invariant(&*self);
        }
        let start = self.pos;
        let ghost b = self.buf@;
        proof {
            lemma_scan_until(b, start as int, space_stop());
        }
        while self.pos < self.buf.len() && !is_space_byte(self.buf[self.pos])
            invariant
                self.buf@ == b,
                start <= self.pos <= b.len(),
                scan_until(b, start as int, space_stop()) == scan_until(b, self.pos as int, space_stop()),
            decreases b.len() - self.pos,
        {
            self.pos = self.pos + 1;
        }
        let tok = lossy(&self.buf[start..self.pos]);
        self.advance(1);
        tok
    }

    /// Skip whitespace, take everything up to `delim`, consume the delimiter.
    pub fn read_until(&mut self, delim: u8) -> (tok: String)
        ensures
            final(self).data() == old(self).data(),
            tok@ == utf8_lossy(old(self).data().subrange(until_span(old(self).data(), old(self).offset(), delim).0, until_span(old(self).data(), old(self).offset(), delim).1)),
            final(self).offset() == next_pos(until_span(old(self).data(), old(self).offset(), delim).1, old(self).data().len() as int),
    {
        proof {
            use_type_invariant(&*self);
        }
        self.skip_ws();
        proof {
            use_type_invariant(&*self);
        }
        let start = self.pos;
        let ghost b = self.buf@;
        proof {
            lemma_scan_until(b, start as int, byte_stop(delim));
        }
        while self.pos < self.buf.len() && self.buf[self.pos] != delim
            invariant
                self.buf@ == b,
                start <= self.pos <= b.len(),
                scan_until(b, start as int, byte_stop(delim)) == scan_until(b, self.pos as int, byte_stop(delim)),
            decreases b.len() - self.pos,
        {
            self.pos = self.pos + 1;
        }
        let tok = lossy(&self.buf[start..self.pos]);
        self.advance(1);
        tok
    }

    /// Tab-delimited field: leading spaces (but not tabs) skipped, then
    /// everything up to the next tab; the tab is consumed.
    pub fn read_tab_field(&mut self) -> (tok: String)
        ensures
            final(self).data() == old(self).data(),
            tok@ == utf8_lossy(old(self).data().subrange(tab_field_span(old(self).data(), old(self).offset()).0, tab_field_span(old(self).data(), old(self).offset()).1)),
            final(self).offset() == next_pos(tab_field_span(old(self).data(), old(self).offset()).1, old(self).data().len() as int),
    {
        proof {
            use_type_invariant(&*self);
        }
        let ghost b = self.buf@;
        let ghost p_in = self.pos as int;
        proof {
            lemma_scan_until(b, p_in, pad_stop());
        }
        while self.pos < self.buf.len() && is_space_byte(self.buf[self.pos]) && self.buf[self.pos] != 9u8
            invariant
                self.buf@ == b,
                p_in <= self.pos <= b.len(),
                scan_until(b, p_in, pad_stop()) == scan_until(b, self.pos as int, pad_stop()),
            decreases b.len() - self.pos,
        {
            self.pos = self.pos + 1;
        }
        let start = self.pos;
        proof {
            lemma_scan_until(b, start as int, byte_stop(9u8));
        }
        while self.pos < self.buf.len() && self.buf[self.pos] != 9u8
            invariant
                self.buf@ == b,
                start <= self.pos <= b.len(),
                scan_until(b, start as int, byte_stop(9u8)) == scan_until(b, self.pos as int, byte_stop(9u8)),
            decreases b.len() - self.pos,
        {
            self.pos = self.pos + 1;
        }
        let tok = lossy(&self.buf[start..self.pos]);
        self.advance(1);
        tok
    }

    /// Consumes `delim` when it is the next byte.
    pub fn eat_delim(&mut self, delim: u8)
        ensures
            final(self).data() == old(self).data(),
            final(self).offset() == if old(self).offset() < old(self).data().len()
                && old(self).data()[old(self).offset()] == delim {
                old(self).offset() + 1
            } else {
                old(self).offset()
            },
    {
        if self.pos < self.buf.len() && self.buf[self.pos] == delim {
            self.pos = self.pos + 1;
        }
    }

    /// Skips to just past the next tab on the line (stopping at a line break).
    pub fn next_tab_field(&mut self)
        ensures
            final(self).data() == old(self).data(),
            final(self).offset() == ({
                let t = scan_until(old(self).data(), old(self).offset(), field_stop());
                if t < old(self).data().len() && old(self).data()[t] == 9u8 { t + 1 } else { t }
            }),
    {
        proof {
            use_type_invariant(&*self);
        }
        let ghost b = self.buf@;
        let ghost p_in = self.pos as int;
        proof {
            lemma_scan_until(b, p_in, field_stop());
        }
        while self.pos < self.buf.len() && !(self.buf[self.pos] == 9u8 || self.buf[self.pos] == 13u8
            || self.buf[self.pos] == 10u8)
            invariant
                self.buf@ == b,
                p_in <= self.pos <= b.len(),
                scan_until(b, p_in, field_stop()) == scan_until(b, self.pos as int, field_stop()),
            decreases b.len() - self.pos,
        {
            self.pos = self.pos + 1;
        }
        if self.pos < self.buf.len() && self.buf[self.pos] == 9u8 {
            self.pos = self.pos + 1;
        }
    }
}

pub fn is_space_byte(b: u8) -> (r: bool)
    ensures
        r == is_space(b),
{
    b == 32u8 || b == 9u8 || b == 10u8 || b == 13u8 || b == 11u8 || b == 12u8
}

pub fn is_digit_byte(b: u8) -> (r: bool)
    ensures
        r == is_digit(b),
{
    48u8 <= b && b <= 57u8
}

} // verus!
