//! The search grammar: compiled to an FTS5 MATCH expression for the
//! library-wide index, and applied in memory to a single open board.
//!
//! Grammar: whitespace-separated terms, implicit AND. A term may carry a
//! field prefix (`ref:U5300`, `net:PPBUS*`, `pn:TPS51225`, `val:1uF`,
//! `pkg:0402`, `board:820-00281`, `model:820*`). Every term is a prefix
//! match unless it is quoted.

use vstd::prelude::*;
use crate::strs::{chars_of, chars_eq, string_of_chars, lower_seq, to_ascii_lower_char, split_ws, ws_words, same_text, concat_str};
use crate::data::BoardRow;
use crate::records::opt_text;
use crate::gencad::{strip_leading_quotes, strip_trailing_quotes};
use crate::model::{BoardModel, NO_NET};

verus! {

#[derive(Debug, Clone, Copy, PartialEq, Eq, Structural)]
pub enum HitKind {
    Part,
    Net,
}

/// In-board hit: index into the open model's parts or nets.
#[derive(Debug, Clone, Copy, PartialEq, Eq, Structural)]
pub enum InBoardHit {
    Part(usize),
    Net(usize),
}

/// One query term: the index column it is restricted to (if any), its
/// text, and whether it must match exactly (it was quoted).
#[derive(Debug)]
pub struct Term {
    pub column: Option<&'static str>,
    pub text: String,
    pub exact: bool,
}

/// A term as values: column, text, exactness.
pub type TermV = (Option<Seq<char>>, Seq<char>, bool);

pub open spec fn term_view(t: Term) -> TermV {
    (
        match t.column {
            Some(c) => Some(c@),
            None => None,
        },
        t.text@,
        t.exact,
    )
}

/// The index column a field prefix selects, ignoring ASCII case.
pub open spec fn column_of(field: Seq<char>) -> Option<Seq<char>> {
    let f = lower_seq(field);
    if f == "ref"@ || f == "refdes"@ {
        Some("refdes"@)
    } else if f == "net"@ {
        Some("net"@)
    } else if f == "val"@ || f == "value"@ {
        Some("value"@)
    } else if f == "pn"@ || f == "part"@ || f == "partnumber"@ {
        Some("part_number"@)
    } else if f == "pkg"@ || f == "package"@ {
        Some("package"@)
    } else if f == "board"@ || f == "name"@ {
        Some("board_name"@)
    } else if f == "model"@ || f == "oem"@ {
        Some("model"@)
    } else {
        None
    }
}

fn lower_chars(s: &str) -> (v: Vec<char>)
    ensures
        v@ == lower_seq(s@),
{
    let cs = chars_of(s);
    let mut v: Vec<char> = Vec::new();
    let mut i: usize = 0;
    while i < cs.len()
        invariant
            i <= cs@.len(),
            cs@ == s@,
            v@ == lower_seq(s@).take(i as int),
        decreases cs@.len() - i,
    {
        v.push(to_ascii_lower_char(cs[i]));
        i = i + 1;
        assert(v@ =~= lower_seq(s@).take(i as int));
    }
    assert(lower_seq(s@).take(i as int) =~= lower_seq(s@));
    v
}

fn is_word(v: &Vec<char>, w: &str) -> (r: bool)
    ensures
        r == (v@ == w@),
{
    let c = chars_of(w);
    chars_eq(v, &c)
}

/// The index column a field prefix selects.
pub fn field_column(field: &str) -> (r: Option<&'static str>)
    ensures
        match r {
            Some(c) => column_of(field@) == Some(c@),
            None => column_of(field@) is None,
        },
{
    let f = lower_chars(field);
    if is_word(&f, "ref") || is_word(&f, "refdes") {
        Some("refdes")
    } else if is_word(&f, "net") {
        Some("net")
    } else if is_word(&f, "val") || is_word(&f, "value") {
        Some("value")
    } else if is_word(&f, "pn") || is_word(&f, "part") || is_word(&f, "partnumber") {
        Some("part_number")
    } else if is_word(&f, "pkg") || is_word(&f, "package") {
        Some("package")
    } else if is_word(&f, "board") || is_word(&f, "name") {
        Some("board_name")
    } else if is_word(&f, "model") || is_word(&f, "oem") {
        Some("model")
    } else {
        None
    }
}

/// The field prefixes, whatever their case: `ref`/`refdes` select the
/// designator column, `net` the net, `val`/`value` the value,
/// `pn`/`part`/`partnumber` the part number, `pkg`/`package` the package,
/// `board`/`name` the board name, `model`/`oem` the model; nothing else
/// selects a column.
pub proof fn lemma_field_prefixes(field: Seq<char>)
    ensures
        ({
            let f = lower_seq(field);
            &&& column_of(field) == Some("refdes"@) <==> (f == "ref"@ || f == "refdes"@)
            &&& column_of(field) == Some("net"@) <==> f == "net"@
            &&& column_of(field) == Some("value"@) <==> (f == "val"@ || f == "value"@)
            &&& column_of(field) == Some("part_number"@) <==> (f == "pn"@ || f == "part"@ || f == "partnumber"@)
            &&& column_of(field) == Some("package"@) <==> (f == "pkg"@ || f == "package"@)
            &&& column_of(field) == Some("board_name"@) <==> (f == "board"@ || f == "name"@)
            &&& column_of(field) == Some("model"@) <==> (f == "model"@ || f == "oem"@)
            &&& column_of(field) is None <==> !(f == "ref"@ || f == "refdes"@ || f == "net"@ || f == "val"@ || f
                == "value"@ || f == "pn"@ || f == "part"@ || f == "partnumber"@ || f == "pkg"@ || f == "package"@
                || f == "board"@ || f == "name"@ || f == "model"@ || f == "oem"@)
        }),
{
    reveal_strlit("ref");
    reveal_strlit("refdes");
    reveal_strlit("net");
    reveal_strlit("val");
    reveal_strlit("value");
    reveal_strlit("pn");
    reveal_strlit("part");
    reveal_strlit("partnumber");
    reveal_strlit("part_number");
    reveal_strlit("pkg");
    reveal_strlit("package");
    reveal_strlit("board");
    reveal_strlit("name");
    reveal_strlit("board_name");
    reveal_strlit("model");
    reveal_strlit("oem");
    assert("ref"@.len() == 3 && "ref"@[0] == 'r');
    assert("refdes"@.len() == 6 && "refdes"@[0] == 'r');
    assert("net"@.len() == 3 && "net"@[0] == 'n');
    assert("val"@.len() == 3 && "val"@[0] == 'v');
    assert("value"@.len() == 5 && "value"@[0] == 'v');
    assert("pn"@.len() == 2 && "pn"@[0] == 'p');
    assert("part"@.len() == 4 && "part"@[0] == 'p');
    assert("partnumber"@.len() == 10 && "partnumber"@[0] == 'p');
    assert("part_number"@.len() == 11 && "part_number"@[0] == 'p');
    assert("pkg"@.len() == 3 && "pkg"@[0] == 'p');
    assert("package"@.len() == 7 && "package"@[0] == 'p');
    assert("board"@.len() == 5 && "board"@[0] == 'b');
    assert("name"@.len() == 4 && "name"@[0] == 'n');
    assert("board_name"@.len() == 10 && "board_name"@[0] == 'b');
    assert("model"@.len() == 5 && "model"@[0] == 'm');
    assert("oem"@.len() == 3 && "oem"@[0] == 'o');
}

/// Index of the first `:` in `s`, or its length.
pub open spec fn first_colon(s: Seq<char>) -> int
    decreases s.len(),
{
    if s.len() == 0 {
        0
    } else if s[0] == ':' {
        0
    } else {
        1 + first_colon(s.drop_first())
    }
}

proof fn lemma_first_colon_at(s: Seq<char>, k: int)
    requires
        0 <= k <= s.len(),
        forall|j: int| 0 <= j < k ==> s[j] != ':',
        k < s.len() ==> s[k] == ':',
    ensures
        first_colon(s) == k,
    decreases s.len(),
{
    if s.len() > 0 && k > 0 {
        assert forall|j: int| 0 <= j < k - 1 implies s.drop_first()[j] != ':' by {
            assert(s.drop_first()[j] == s[j + 1]);
        }
        lemma_first_colon_at(s.drop_first(), k - 1);
    }
}

/// `s` without its trailing `*`s.
pub open spec fn strip_trailing_stars(s: Seq<char>) -> Seq<char>
    decreases s.len(),
{
    if s.len() > 0 && s.last() == '*' {
        strip_trailing_stars(s.drop_last())
    } else {
        s
    }
}

/// The term a whitespace-separated word of the query becomes: a known field
/// prefix with a non-empty rest selects a column; a word of two or more
/// characters wrapped in double quotes is exact; the text drops the
/// surrounding quotes and then any trailing `*`s.
pub open spec fn term_of(raw: Seq<char>) -> TermV {
    let k = first_colon(raw);
    let field = raw.take(k);
    let after = raw.skip(k + 1);
    let (col, rest) = if k < raw.len() && column_of(field) is Some && after.len() > 0 {
        (column_of(field), after)
    } else {
        (None::<Seq<char>>, raw)
    };
    let quoted = rest.len() >= 2 && rest[0] == '"' && rest.last() == '"';
    (col, strip_trailing_stars(strip_trailing_quotes(strip_leading_quotes(rest))), quoted)
}

/// A word `field:rest` with a colon-free field and a non-empty rest is
/// restricted to the column the field selects (none for an unknown
/// field, when the whole word is the text); a word without a colon is
/// never restricted.
pub proof fn lemma_term_field(field: Seq<char>, rest: Seq<char>, word: Seq<char>)
    requires
        forall|j: int| 0 <= j < field.len() ==> field[j] != ':',
        rest.len() > 0,
    ensures
        term_of(field + seq![':'] + rest).0 == column_of(field),
        column_of(field) is Some ==> term_of(field + seq![':'] + rest).1 == strip_trailing_stars(
            strip_trailing_quotes(strip_leading_quotes(rest)),
        ),
        (forall|j: int| 0 <= j < word.len() ==> word[j] != ':') ==> term_of(word).0 is None,
{
    let w = field + seq![':'] + rest;
    lemma_first_colon_at(w, field.len() as int);
    assert(w.take(field.len() as int) =~= field);
    assert(w.skip(field.len() as int + 1) =~= rest);
    if forall|j: int| 0 <= j < word.len() ==> word[j] != ':' {
        lemma_first_colon_at(word, word.len() as int);
    }
}

/// The terms of a query: one per word, dropping words whose text ends up
/// empty.
pub open spec fn terms_of(words: Seq<Seq<char>>) -> Seq<TermV>
    decreases words.len(),
{
    if words.len() == 0 {
        Seq::empty()
    } else {
        let r = terms_of(words.drop_last());
        let t = term_of(words.last());
        if t.1.len() == 0 {
            r
        } else {
            r.push(t)
        }
    }
}

pub open spec fn query_terms(q: Seq<char>) -> Seq<TermV> {
    terms_of(ws_words(q))
}

fn char_slice(cs: &Vec<char>, from: usize, to: usize) -> (s: String)
    requires
        from <= to <= cs@.len(),
    ensures
        s@ == cs@.subrange(from as int, to as int),
{
    let mut out: Vec<char> = Vec::new();
    let mut q = from;
    while q < to
        invariant
            from <= q <= to,
            to <= cs@.len(),
            out@ == cs@.subrange(from as int, q as int),
        decreases to - q,
    {
        out.push(cs[q]);
        q = q + 1;
        assert(out@ =~= cs@.subrange(from as int, q as int));
    }
    string_of_chars(&out)
}

/// The term one word of a query becomes.
fn term_of_word(raw: &str) -> (t: Term)
    ensures
        term_view(t) == term_of(raw@),
{
    let cs = chars_of(raw);
    let mut k: usize = 0;
    while k < cs.len() && cs[k] != ':'
        invariant
            k <= cs@.len(),
            forall|j: int| 0 <= j < k ==> cs@[j] != ':',
        decreases cs@.len() - k,
    {
        k = k + 1;
    }
    proof {
        lemma_first_colon_at(raw@, k as int);
    }
    let mut column: Option<&'static str> = None;
    let mut rest: Vec<char> = Vec::new();
    let mut split = false;
    if k < cs.len() {
        let field = char_slice(&cs, 0, k);
        assert(field@ == raw@.take(k as int));
        let after = char_slice(&cs, k + 1, cs.len());
        assert(after@ =~= raw@.skip(k + 1));
        let col = field_column(field.as_str());
        if col.is_some() && chars_of(after.as_str()).len() > 0 {
            column = col;
            rest = chars_of(after.as_str());
            split = true;
        }
    }
    if !split {
        rest = cs;
    }
    let n = rest.len();
    let quoted = n >= 2 && rest[0] == '"' && rest[n - 1] == '"';
    let mut a: usize = 0;
    assert(rest@.skip(0) =~= rest@);
    while a < rest.len() && rest[a] == '"'
        invariant
            a <= rest@.len(),
            strip_leading_quotes(rest@.skip(a as int)) == strip_leading_quotes(rest@),
        decreases rest@.len() - a,
    {
        assert(rest@.skip(a as int).drop_first() =~= rest@.skip(a + 1));
        a = a + 1;
    }
    proof {
        assert(strip_leading_quotes(rest@.skip(a as int)) == rest@.skip(a as int));
        assert(rest@.skip(a as int) =~= rest@.subrange(a as int, rest@.len() as int));
    }
    let mut z = rest.len();
    while z > a && rest[z - 1] == '"'
        invariant
            a <= z <= rest@.len(),
            strip_trailing_quotes(rest@.subrange(a as int, z as int)) == strip_trailing_quotes(
                strip_leading_quotes(rest@),
            ),
        decreases z,
    {
        assert(rest@.subrange(a as int, z as int).drop_last() =~= rest@.subrange(a as int, z - 1));
        z = z - 1;
    }
    proof {
        assert(strip_trailing_quotes(rest@.subrange(a as int, z as int)) == rest@.subrange(a as int, z as int));
    }
    let ghost unq = rest@.subrange(a as int, z as int);
    while z > a && rest[z - 1] == '*'
        invariant
            a <= z <= rest@.len(),
            strip_trailing_stars(rest@.subrange(a as int, z as int)) == strip_trailing_stars(unq),
        decreases z,
    {
        assert(rest@.subrange(a as int, z as int).drop_last() =~= rest@.subrange(a as int, z - 1));
        z = z - 1;
    }
    proof {
        assert(strip_trailing_stars(rest@.subrange(a as int, z as int)) == rest@.subrange(a as int, z as int));
    }
    let text = char_slice(&rest, a, z);
    Term { column, text, exact: quoted }
}

/// Splits a query into terms.
pub fn tokenize(query: &str) -> (terms: Vec<Term>)
    ensures
        terms@.map_values(|t: Term| term_view(t)) == query_terms(query@),
{
    let words = split_ws(query);
    let ghost ws = words@.map_values(|w: String| w@);
    let mut out: Vec<Term> = Vec::new();
    let mut i: usize = 0;
    assert(ws.take(0) =~= Seq::<Seq<char>>::empty());
    assert(out@.map_values(|t: Term| term_view(t)) =~= Seq::<TermV>::empty());
    while i < words.len()
        invariant
            i <= words@.len(),
            ws == words@.map_values(|w: String| w@),
            ws == ws_words(query@),
            out@.map_values(|t: Term| term_view(t)) == terms_of(ws.take(i as int)),
        decreases words@.len() - i,
    {
        let t = term_of_word(words[i].as_str());
        proof {
            assert(ws.take(i + 1).drop_last() =~= ws.take(i as int));
            assert(ws.take(i + 1).last() == words@[i as int]@);
        }
        if chars_of(t.text.as_str()).len() > 0 {
            let ghost before = out@.map_values(|t: Term| term_view(t));
            let ghost tv = term_view(t);
            out.push(t);
            assert(out@.map_values(|t: Term| term_view(t)) =~= before.push(tv));
        }
        i = i + 1;
    }
    assert(ws.take(i as int) =~= ws);
    out
}

/// The text with every double quote doubled.
pub open spec fn fts_escape(t: Seq<char>) -> Seq<char>
    decreases t.len(),
{
    if t.len() == 0 {
        Seq::empty()
    } else if t[0] == '"' {
        seq!['"', '"'] + fts_escape(t.drop_first())
    } else {
        seq![t[0]] + fts_escape(t.drop_first())
    }
}

/// A term as a MATCH operand: its text as a string literal, followed by
/// `*` for a prefix term, after `column: ` when restricted.
pub open spec fn fts_term(t: TermV) -> Seq<char> {
    let lit = seq!['"'] + fts_escape(t.1) + seq!['"'] + (if t.2 { Seq::empty() } else { seq!['*'] });
    match t.0 {
        Some(c) => c + seq![':', ' '] + lit,
        None => lit,
    }
}

/// The shape of a MATCH operand: a prefix term ends in `*`, an exact one
/// in the closing quote; a restricted term starts with its column and a
/// colon, an unrestricted one with the opening quote.
pub proof fn lemma_fts_term_shape(t: TermV)
    ensures
        fts_term(t).len() > 0,
        (fts_term(t).last() == '*') <==> !t.2,
        t.2 ==> fts_term(t).last() == '"',
        t.0 matches Some(c) ==> fts_term(t).take(c.len() as int) == c && fts_term(t)[c.len() as int] == ':',
        t.0 is None ==> fts_term(t)[0] == '"',
{
    let lit = seq!['"'] + fts_escape(t.1) + seq!['"'] + (if t.2 { Seq::<char>::empty() } else { seq!['*'] });
    assert(lit[0] == '"');
    assert(lit.len() > 0);
    match t.0 {
        Some(c) => {
            let whole = c + seq![':', ' '] + lit;
            assert(whole.take(c.len() as int) =~= c);
            assert(whole[c.len() as int] == ':');
            assert(whole.last() == lit.last());
        },
        None => {},
    }
}

/// The MATCH expression: the terms' operands separated by single spaces.
pub open spec fn fts_match(ts: Seq<TermV>) -> Seq<char>
    decreases ts.len(),
{
    if ts.len() == 0 {
        Seq::empty()
    } else if ts.len() == 1 {
        fts_term(ts[0])
    } else {
        fts_match(ts.drop_last()) + seq![' '] + fts_term(ts.last())
    }
}

/// Reading a string literal of the MATCH syntax from index `i` (just after
/// its opening quote): a doubled quote stands for one quote, a single quote
/// ends the literal. The text read and the index after the closing quote.
pub open spec fn read_literal(s: Seq<char>, i: int) -> Option<(Seq<char>, int)>
    decreases s.len() - i,
{
    if i < 0 || i >= s.len() {
        None
    } else if s[i] == '"' {
        if i + 1 < s.len() && s[i + 1] == '"' {
            match read_literal(s, i + 2) {
                Some((c, e)) => Some((seq!['"'] + c, e)),
                None => None,
            }
        } else {
            Some((Seq::empty(), i + 1))
        }
    } else {
        match read_literal(s, i + 1) {
            Some((c, e)) => Some((seq![s[i]] + c, e)),
            None => None,
        }
    }
}

/// Escaping keeps user text inside its literal: reading the literal back
/// gives exactly the text, and the literal ends where the quoting closed it,
/// whatever the text holds and whatever follows (unless a quote follows
/// immediately, which the MATCH expression never puts there).
pub proof fn lemma_escaped_literal_closes(t: Seq<char>, rest: Seq<char>)
    requires
        rest.len() == 0 || rest[0] != '"',
    ensures
        read_literal(seq!['"'] + fts_escape(t) + seq!['"'] + rest, 1) == Some(
            (t, (fts_escape(t).len() + 2) as int),
        ),
    decreases t.len(),
{
    let s = seq!['"'] + fts_escape(t) + seq!['"'] + rest;
    if t.len() == 0 {
        assert(fts_escape(t) =~= Seq::<char>::empty());
        assert(s[1] == '"');
        if rest.len() > 0 {
            assert(s[2] == rest[0]);
        }
    } else {
        let u = t.drop_first();
        lemma_escaped_literal_closes(u, rest);
        let s2 = seq!['"'] + fts_escape(u) + seq!['"'] + rest;
        if t[0] == '"' {
            assert(s =~= seq!['"', '"', '"'] + fts_escape(u) + seq!['"'] + rest);
            lemma_read_literal_shift(s, s2, 2, 1);
            assert(seq!['"'] + u =~= t);
        } else {
            assert(s =~= seq!['"', t[0]] + fts_escape(u) + seq!['"'] + rest);
            lemma_read_literal_shift(s, s2, 1, 1);
            assert(seq![t[0]] + u =~= t);
        }
    }
}

/// Reading from `i + d` in `s` is reading from `j` in `s2` when `s` past
/// `i + d` is `s2` past `j`, shifted by `i + d - j`.
proof fn lemma_read_literal_shift(s: Seq<char>, s2: Seq<char>, d: int, j: int)
    requires
        0 <= j,
        d >= 1,
        s.len() == s2.len() + (1 + d - j),
        forall|k: int| j <= k < s2.len() ==> s[k + 1 + d - j] == s2[k],
    ensures
        read_literal(s, 1 + d) == match read_literal(s2, j) {
            Some((c, e)) => Some((c, e + 1 + d - j)),
            None => None,
        },
    decreases s2.len() - j,
{
    if j < s2.len() {
        assert(s[1 + d] == s2[j]);
        if s2[j] == '"' {
            if j + 1 < s2.len() && s2[j + 1] == '"' {
                assert(s[1 + d + 1] == s2[j + 1]);
                lemma_read_literal_shift(s, s2, d + 2, j + 2);
            } else {
                if j + 1 < s2.len() {
                    assert(s[1 + d + 1] == s2[j + 1]);
                }
            }
        } else {
            lemma_read_literal_shift(s, s2, d + 1, j + 1);
        }
    }
}

fn push_all(out: &mut Vec<char>, s: &str)
    ensures
        final(out)@ == old(out)@ + s@,
{
    let cs = chars_of(s);
    let mut i: usize = 0;
    while i < cs.len()
        invariant
            i <= cs@.len(),
            cs@ == s@,
            out@ == old(out)@ + cs@.take(i as int),
        decreases cs@.len() - i,
    {
        out.push(cs[i]);
        i = i + 1;
        assert(out@ =~= old(out)@ + cs@.take(i as int));
    }
    assert(cs@.take(i as int) =~= s@);
}

fn push_term(out: &mut Vec<char>, t: &Term)
    ensures
        final(out)@ == old(out)@ + fts_term(term_view(*t)),
{
    let ghost start = out@;
    match t.column {
        Some(c) => {
            push_all(out, c);
            out.push(':');
            out.push(' ');
        },
        None => {},
    }
    let ghost mid = out@;
    out.push('"');
    let cs = chars_of(t.text.as_str());
    let mut i: usize = 0;
    assert(cs@.skip(0) =~= cs@);
    while i < cs.len()
        invariant
            i <= cs@.len(),
            cs@ == t.text@,
            out@ + fts_escape(cs@.skip(i as int)) == mid + seq!['"'] + fts_escape(cs@),
        decreases cs@.len() - i,
    {
        let ghost before = out@;
        let ghost tail = cs@.skip(i as int);
        assert(tail.drop_first() =~= cs@.skip(i + 1));
        if cs[i] == '"' {
            out.push('"');
            out.push('"');
            assert(out@ + fts_escape(cs@.skip(i + 1)) =~= before + fts_escape(tail));
        } else {
            out.push(cs[i]);
            assert(out@ + fts_escape(cs@.skip(i + 1)) =~= before + fts_escape(tail));
        }
        i = i + 1;
    }
    assert(cs@.skip(i as int) =~= Seq::<char>::empty());
    assert(fts_escape(Seq::<char>::empty()) =~= Seq::<char>::empty());
    out.push('"');
    if !t.exact {
        out.push('*');
    }
    proof {
        let lit = seq!['"'] + fts_escape(t.text@) + seq!['"'] + (if t.exact { Seq::empty() } else { seq!['*'] });
        assert(out@ =~= mid + lit);
        match t.column {
            Some(c) => {
                assert(mid =~= start + (c@ + seq![':', ' ']));
                assert(out@ =~= start + (c@ + seq![':', ' '] + lit));
            },
            None => {
                assert(out@ =~= start + lit);
            },
        }
    }
}

/// Builds the FTS5 MATCH expression. Every term value is double-quoted
/// (with embedded quotes doubled) so user input can never break out of the
/// string.
pub fn build_match(terms: &[Term]) -> (m: String)
    ensures
        m@ == fts_match(terms@.map_values(|t: Term| term_view(t))),
{
    let ghost tv = terms@.map_values(|t: Term| term_view(t));
    let mut out: Vec<char> = Vec::new();
    let mut i: usize = 0;
    assert(tv.take(0) =~= Seq::<TermV>::empty());
    while i < terms.len()
        invariant
            i <= terms@.len(),
            tv == terms@.map_values(|t: Term| term_view(t)),
            out@ == fts_match(tv.take(i as int)),
        decreases terms@.len() - i,
    {
        proof {
            assert(tv.take(i + 1).drop_last() =~= tv.take(i as int));
            assert(tv.take(i + 1).last() == term_view(terms@[i as int]));
        }
        if i > 0 {
            out.push(' ');
        }
        push_term(&mut out, &terms[i]);
        proof {
            if i == 0 {
                assert(tv.take(1)[0] == term_view(terms@[0]));
                assert(out@ =~= fts_match(tv.take(1)));
            }
        }
        i = i + 1;
    }
    assert(tv.take(i as int) =~= tv);
    string_of_chars(&out)
}

/// What `str::to_lowercase` gives: the Unicode lowercase mapping of the
/// text.
pub uninterp spec fn unicode_lower(s: Seq<char>) -> Seq<char>;

/// `str::to_lowercase`. Its result is named by `unicode_lower`; the full
/// Unicode case mapping it applies is left unsaid.
#[verifier::external_body]
fn to_lower(s: &str) -> (r: String)
    ensures
        r@ == unicode_lower(s@),
{
    s.to_lowercase()
}

/// The two values a library-wide search sends to the index: the MATCH
/// expression of the query's terms, and the lowercased text of the first
/// term, whose exact matches rank first. A query without terms searches
/// nothing.
pub fn library_query(query: &str) -> (r: Option<(String, String)>)
    ensures
        query_terms(query@).len() == 0 <==> r is None,
        r matches Some((m, boost)) ==> m@ == fts_match(query_terms(query@))
            && boost@ == unicode_lower(query_terms(query@)[0].1),
{
    let terms = tokenize(query);
    if terms.len() == 0 {
        return None;
    }
    let m = build_match(terms.as_slice());
    let boost = to_lower(terms[0].text.as_str());
    proof {
        assert(terms@.map_values(|t: Term| term_view(t))[0] == term_view(terms@[0]));
    }
    Some((m, boost))
}

/// Does `n` occur in `h` (the empty text occurs everywhere)?
pub open spec fn has_run(h: Seq<char>, n: Seq<char>) -> bool {
    exists|i: int| 0 <= i && i + n.len() <= h.len() && #[trigger] h.subrange(i, i + n.len()) == n
}

fn run_at_chars(h: &Vec<char>, n: &Vec<char>, at: usize) -> (r: bool)
    requires
        at + n@.len() <= h@.len(),
    ensures
        r == (h@.subrange(at as int, at + n@.len()) == n@),
{
    let hl = h.len();
    let mut k: usize = 0;
    while k < n.len()
        invariant
            k <= n@.len(),
            hl == h@.len(),
            at + n@.len() <= h@.len(),
            forall|j: int| 0 <= j < k ==> h@[at + j] == n@[j],
        decreases n@.len() - k,
    {
        if h[at + k] != n[k] {
            assert(h@.subrange(at as int, at + n@.len())[k as int] != n@[k as int]);
            return false;
        }
        k = k + 1;
    }
    assert(h@.subrange(at as int, at + n@.len()) =~= n@);
    true
}

fn has_run_exec(h: &Vec<char>, n: &Vec<char>) -> (r: bool)
    ensures
        r == has_run(h@, n@),
{
    if n.len() > h.len() {
        return false;
    }
    if n.len() == 0 {
        assert(h@.subrange(0int, 0int + n@.len()) =~= n@);
        return true;
    }
    let mut i: usize = 0;
    while i <= h.len() - n.len()
        invariant
            0 < n@.len() <= h@.len(),
            i <= h@.len() - n@.len() + 1,
            forall|j: int| 0 <= j < i ==> #[trigger] h@.subrange(j, j + n@.len()) != n@,
        decreases h@.len() - i,
    {
        if run_at_chars(h, n, i) {
            return true;
        }
        i = i + 1;
    }
    proof {
        assert forall|j: int| 0 <= j && j + n@.len() <= h@.len() implies #[trigger] h@.subrange(j, j + n@.len()) != n@ by {
            assert(j < i);
        }
    }
    false
}

/// The library list's filter box: the lowercased filter text occurs in the
/// board's display name, OEM code and format, each lowercased, separated by
/// spaces. An empty filter keeps every board.
pub open spec fn library_filter_keeps(
    display: Seq<char>,
    oem: Option<Seq<char>>,
    format: Seq<char>,
    filter: Seq<char>,
) -> bool {
    let f = unicode_lower(filter);
    let o = match oem {
        Some(t) => t,
        None => Seq::empty(),
    };
    f.len() == 0 || has_run(unicode_lower(display) + " "@ + unicode_lower(o) + " "@ + unicode_lower(format), f)
}

/// Does the library list show this board under the filter text?
pub fn library_row_shown(row: &BoardRow, filter: &str) -> (r: bool)
    ensures
        r == library_filter_keeps(row.display_name@, opt_text(row.oem_code), row.format@, filter@),
{
    let f = chars_of(to_lower(filter).as_str());
    if f.len() == 0 {
        return true;
    }
    let oem = match &row.oem_code {
        Some(t) => to_lower(t.as_str()),
        None => to_lower(""),
    };
    proof {
        reveal_strlit("");
        assert(""@ =~= Seq::<char>::empty());
    }
    let ghost o = match opt_text(row.oem_code) {
        Some(t) => t,
        None => Seq::<char>::empty(),
    };
    assert(oem@ == unicode_lower(o));
    let a = concat_str(to_lower(row.display_name.as_str()).as_str(), " ");
    let b = concat_str(a.as_str(), oem.as_str());
    let c = concat_str(b.as_str(), " ");
    let hay = concat_str(c.as_str(), to_lower(row.format.as_str()).as_str());
    let h = chars_of(hay.as_str());
    assert(h@ == unicode_lower(row.display_name@) + " "@ + unicode_lower(o) + " "@ + unicode_lower(row.format@));
    has_run_exec(&h, &f)
}

/// Does a field's text satisfy a term? Both are lowercased; an exact term
/// must equal the field, a prefix term must occur in it.
pub open spec fn text_matches(field: Seq<char>, t: TermV) -> bool {
    let hay = unicode_lower(field);
    let needle = unicode_lower(t.1);
    if t.2 {
        hay == needle
    } else {
        has_run(hay, needle)
    }
}

fn matches(field: &str, t: &Term) -> (r: bool)
    ensures
        r == text_matches(field@, term_view(*t)),
{
    let hay = chars_of(to_lower(field).as_str());
    let needle = chars_of(to_lower(t.text.as_str()).as_str());
    if t.exact {
        chars_eq(&hay, &needle)
    } else {
        has_run_exec(&hay, &needle)
    }
}

pub open spec fn opt_matches(field: Option<String>, t: TermV) -> bool {
    match field {
        Some(v) => text_matches(v@, t),
        None => false,
    }
}

/// Some pin of part `p` sits on a net whose name satisfies the term.
pub open spec fn part_net_matches(m: BoardModel, p: int, t: TermV) -> bool {
    exists|j: int|
        0 <= j < m.parts@[p].pins@.len() && {
            let net = #[trigger] m.pins@[m.parts@[p].pins@[j] as int].net;
            net != NO_NET && text_matches(m.nets@[net as int].name@, t)
        }
}

/// Does part `p` satisfy a term? A column restricts the field; an
/// unrestricted term may match the refdes, value, part number or package.
pub open spec fn part_term_ok(m: BoardModel, p: int, t: TermV) -> bool {
    let part = m.parts@[p];
    match t.0 {
        Some(c) => if c == "refdes"@ {
            text_matches(part.refdes@, t)
        } else if c == "value"@ {
            opt_matches(part.value, t)
        } else if c == "part_number"@ {
            opt_matches(part.mfg_code, t)
        } else if c == "package"@ {
            opt_matches(part.package, t)
        } else if c == "net"@ {
            part_net_matches(m, p, t)
        } else {
            false
        },
        None => text_matches(part.refdes@, t) || opt_matches(part.value, t) || opt_matches(part.mfg_code, t)
            || opt_matches(part.package, t),
    }
}

pub open spec fn part_hit(m: BoardModel, p: int, ts: Seq<TermV>) -> bool {
    &&& !m.parts@[p].is_dummy
    &&& forall|k: int| 0 <= k < ts.len() ==> part_term_ok(m, p, #[trigger] ts[k])
}

/// Does net `n` satisfy a term? Only unrestricted and `net:` terms can.
pub open spec fn net_term_ok(m: BoardModel, n: int, t: TermV) -> bool {
    match t.0 {
        Some(c) => c == "net"@ && text_matches(m.nets@[n].name@, t),
        None => text_matches(m.nets@[n].name@, t),
    }
}

pub open spec fn net_hit(m: BoardModel, n: int, ts: Seq<TermV>) -> bool {
    forall|k: int| 0 <= k < ts.len() ==> net_term_ok(m, n, #[trigger] ts[k])
}

/// The matching parts among the first `n`, in order.
pub open spec fn part_hits(m: BoardModel, ts: Seq<TermV>, n: nat) -> Seq<InBoardHit>
    decreases n,
{
    if n == 0 {
        Seq::empty()
    } else {
        let r = part_hits(m, ts, (n - 1) as nat);
        if part_hit(m, n - 1, ts) {
            r.push(InBoardHit::Part((n - 1) as usize))
        } else {
            r
        }
    }
}

/// The matching nets among the first `n`, in order.
pub open spec fn net_hits(m: BoardModel, ts: Seq<TermV>, n: nat) -> Seq<InBoardHit>
    decreases n,
{
    if n == 0 {
        Seq::empty()
    } else {
        let r = net_hits(m, ts, (n - 1) as nat);
        if net_hit(m, n - 1, ts) {
            r.push(InBoardHit::Net((n - 1) as usize))
        } else {
            r
        }
    }
}

fn opt_match(field: &Option<String>, t: &Term) -> (r: bool)
    ensures
        r == opt_matches(*field, term_view(*t)),
{
    match field {
        Some(v) => matches(v.as_str(), t),
        None => false,
    }
}

fn part_net_match(model: &BoardModel, p: usize, t: &Term) -> (r: bool)
    requires
        model.wf(),
        p < model.parts@.len(),
    ensures
        r == part_net_matches(*model, p as int, term_view(*t)),
{
    let part = &model.parts[p];
    proof {
        crate::model::lemma_part_pins_in_range(model.pins@, p as int);
    }
    let mut j: usize = 0;
    while j < part.pins.len()
        invariant
            model.wf(),
            p < model.parts@.len(),
            part == model.parts@[p as int],
            j <= part.pins@.len(),
            forall|q: int| 0 <= q < part.pins@.len() ==> (#[trigger] part.pins@[q]) < model.pins@.len(),
            forall|q: int|
                0 <= q < j ==> {
                    let net = #[trigger] model.pins@[part.pins@[q] as int].net;
                    !(net != NO_NET && text_matches(model.nets@[net as int].name@, term_view(*t)))
                },
        decreases part.pins@.len() - j,
    {
        let pi = part.pins[j] as usize;
        let net = model.pins[pi].net;
        if net != NO_NET {
            if matches(model.nets[net as usize].name.as_str(), t) {
                return true;
            }
        }
        j = j + 1;
    }
    false
}

fn part_term(model: &BoardModel, p: usize, t: &Term) -> (r: bool)
    requires
        model.wf(),
        p < model.parts@.len(),
    ensures
        r == part_term_ok(*model, p as int, term_view(*t)),
{
    let part = &model.parts[p];
    match t.column {
        Some(c) => {
            if same_text(c, "refdes") {
                matches(part.refdes.as_str(), t)
            } else if same_text(c, "value") {
                opt_match(&part.value, t)
            } else if same_text(c, "part_number") {
                opt_match(&part.mfg_code, t)
            } else if same_text(c, "package") {
                opt_match(&part.package, t)
            } else if same_text(c, "net") {
                part_net_match(model, p, t)
            } else {
                false
            }
        },
        None => {
            matches(part.refdes.as_str(), t) || opt_match(&part.value, t) || opt_match(&part.mfg_code, t)
                || opt_match(&part.package, t)
        },
    }
}

fn net_term(model: &BoardModel, n: usize, t: &Term) -> (r: bool)
    requires
        n < model.nets@.len(),
    ensures
        r == net_term_ok(*model, n as int, term_view(*t)),
{
    match t.column {
        Some(c) => same_text(c, "net") && matches(model.nets[n].name.as_str(), t),
        None => matches(model.nets[n].name.as_str(), t),
    }
}

/// Applies the query grammar to the open board: the parts (other than the
/// synthetic test-pad groups) that satisfy every term, then the nets that
/// do, each in model order. An empty query finds nothing.
pub fn search_board(model: &BoardModel, query: &str) -> (hits: Vec<InBoardHit>)
    requires
        model.wf(),
    ensures
        query_terms(query@).len() == 0 ==> hits@.len() == 0,
        query_terms(query@).len() > 0 ==> hits@ == part_hits(*model, query_terms(query@), model.parts@.len())
            + net_hits(*model, query_terms(query@), model.nets@.len()),
{
    let terms = tokenize(query);
    let ghost ts = terms@.map_values(|t: Term| term_view(t));
    let mut hits: Vec<InBoardHit> = Vec::new();
    if terms.len() == 0 {
        return hits;
    }
    let mut p: usize = 0;
    while p < model.parts.len()
        invariant
            model.wf(),
            p <= model.parts@.len(),
            ts == terms@.map_values(|t: Term| term_view(t)),
            hits@ == part_hits(*model, ts, p as nat),
        decreases model.parts@.len() - p,
    {
        if !model.parts[p].is_dummy {
            let mut ok = true;
            let mut k: usize = 0;
            while k < terms.len()
                invariant
                    model.wf(),
                    p < model.parts@.len(),
                    k <= terms@.len(),
                    ts == terms@.map_values(|t: Term| term_view(t)),
                    ok == forall|q: int| 0 <= q < k ==> part_term_ok(*model, p as int, #[trigger] ts[q]),
                decreases terms@.len() - k,
            {
                if ok && !part_term(model, p, &terms[k]) {
                    ok = false;
                }
                proof {
                    if !ok {
                        assert(!part_term_ok(*model, p as int, ts[k as int]) || exists|q: int| 0 <= q < k && !part_term_ok(*model, p as int, #[trigger] ts[q]));
                    }
                }
                k = k + 1;
            }
            if ok {
                hits.push(InBoardHit::Part(p));
            }
        }
        p = p + 1;
    }
    let ghost ph = hits@;
    let mut n: usize = 0;
    while n < model.nets.len()
        invariant
            n <= model.nets@.len(),
            ts == terms@.map_values(|t: Term| term_view(t)),
            hits@ == ph + net_hits(*model, ts, n as nat),
        decreases model.nets@.len() - n,
    {
        let mut ok = true;
        let mut k: usize = 0;
        while k < terms.len()
            invariant
                n < model.nets@.len(),
                k <= terms@.len(),
                ts == terms@.map_values(|t: Term| term_view(t)),
                ok == forall|q: int| 0 <= q < k ==> net_term_ok(*model, n as int, #[trigger] ts[q]),
            decreases terms@.len() - k,
        {
            if ok && !net_term(model, n, &terms[k]) {
                ok = false;
            }
            proof {
                if !ok {
                    assert(!net_term_ok(*model, n as int, ts[k as int]) || exists|q: int| 0 <= q < k && !net_term_ok(*model, n as int, #[trigger] ts[q]));
                }
            }
            k = k + 1;
        }
        let ghost before = hits@;
        if ok {
            hits.push(InBoardHit::Net(n));
        }
        assert(hits@ =~= ph + net_hits(*model, ts, (n + 1) as nat));
        n = n + 1;
    }
    hits
}

} // verus!
