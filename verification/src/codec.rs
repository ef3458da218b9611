//! The canonical wire form of a task record.
//!
//! A record travels and is stored as UTF-8 bytes of the JSON object
//! `{"id":N,"todo_info":"...","todo_date":"..."}`: the id as decimal digits
//! with no leading zero, each string with `"` and `\` escaped by a
//! backslash, no whitespace, fields in this one order. `todo_json` is the
//! byte-level definition of that form and `spec_parse_at` the grammar the
//! parser decides; `lemma_parse_of_json` proves that every encoded record
//! parses back to itself.
use vstd::prelude::*;

use crate::ToDo;
use vstd::arithmetic::div_mod::lemma_fundamental_div_mod;
use vstd::string::StrSliceExecFns;
use vstd::utf8::{decode_utf8, encode_utf8, valid_utf8};

verus! {

pub const QUOTE: u8 = 0x22;
pub const COMMA: u8 = 0x2c;
pub const COLON: u8 = 0x3a;
pub const BACKSLASH: u8 = 0x5c;
pub const LBRACE: u8 = 0x7b;
pub const RBRACE: u8 = 0x7d;
pub const LBRACKET: u8 = 0x5b;
pub const RBRACKET: u8 = 0x5d;
pub const DIGIT_ZERO: u8 = 0x30;

/// The bytes of `{"id":`.
pub open spec fn lit_head() -> Seq<u8> {
    seq![LBRACE, QUOTE, 0x69u8, 0x64u8, QUOTE, COLON]
}

/// The bytes of `,"todo_info":"`.
pub open spec fn lit_info() -> Seq<u8> {
    seq![
        COMMA,
        QUOTE,
        0x74u8,
        0x6fu8,
        0x64u8,
        0x6fu8,
        0x5fu8,
        0x69u8,
        0x6eu8,
        0x66u8,
        0x6fu8,
        QUOTE,
        COLON,
        QUOTE,
    ]
}

/// The bytes of `,"todo_date":"`.
pub open spec fn lit_date() -> Seq<u8> {
    seq![
        COMMA,
        QUOTE,
        0x74u8,
        0x6fu8,
        0x64u8,
        0x6fu8,
        0x5fu8,
        0x64u8,
        0x61u8,
        0x74u8,
        0x65u8,
        QUOTE,
        COLON,
        QUOTE,
    ]
}

pub open spec fn is_digit(b: u8) -> bool {
    0x30 <= b <= 0x39
}

pub open spec fn digit_of(n: nat) -> u8 {
    (0x30 + n % 10) as u8
}

/// The decimal digits of `n`, most significant first, no leading zero.
pub open spec fn dec_bytes(n: nat) -> Seq<u8>
    decreases n,
{
    if n < 10 {
        seq![digit_of(n)]
    } else {
        dec_bytes(n / 10).push(digit_of(n))
    }
}

/// The number a run of digit bytes denotes.
pub open spec fn digits_val(d: Seq<u8>) -> nat
    decreases d.len(),
{
    if d.len() == 0 {
        0
    } else {
        digits_val(d.drop_last()) * 10 + (d.last() - 0x30) as nat
    }
}

/// Where the maximal run of digits starting at `i` ends.
pub open spec fn digits_end(s: Seq<u8>, i: int) -> int
    decreases s.len() - i,
        when 0 <= i <= s.len()
{
    if i < s.len() && is_digit(s[i]) {
        digits_end(s, i + 1)
    } else {
        i
    }
}

/// A string's bytes with `"` and `\` each preceded by a backslash.
pub open spec fn escape_bytes(s: Seq<u8>) -> Seq<u8>
    decreases s.len(),
{
    if s.len() == 0 {
        seq![]
    } else {
        escape_byte(s[0]) + escape_bytes(s.drop_first())
    }
}

pub open spec fn escape_byte(b: u8) -> Seq<u8> {
    if b == QUOTE || b == BACKSLASH {
        seq![BACKSLASH, b]
    } else {
        seq![b]
    }
}

/// Reads escaped string content from `i` up to and including its closing
/// quote: the unescaped content and the position after the quote, or `None`
/// when the bytes end first or a backslash precedes anything but `"` or `\`.
pub open spec fn unescape_from(s: Seq<u8>, i: int) -> Option<(Seq<u8>, int)>
    decreases s.len() - i,
        when 0 <= i <= s.len()
{
    if i >= s.len() {
        None
    } else if s[i] == QUOTE {
        Some((seq![], i + 1))
    } else if s[i] == BACKSLASH {
        if i + 1 < s.len() && (s[i + 1] == QUOTE || s[i + 1] == BACKSLASH) {
            match unescape_from(s, i + 2) {
                Some((c, j)) => Some((seq![s[i + 1]] + c, j)),
                None => None,
            }
        } else {
            None
        }
    } else {
        match unescape_from(s, i + 1) {
            Some((c, j)) => Some((seq![s[i]] + c, j)),
            None => None,
        }
    }
}

/// The canonical object form, over the id and the raw UTF-8 bytes of the
/// two strings.
pub open spec fn json_bytes(id: nat, info: Seq<u8>, date: Seq<u8>) -> Seq<u8> {
    lit_head() + dec_bytes(id) + lit_info() + escape_bytes(info) + seq![QUOTE] + lit_date()
        + escape_bytes(date) + seq![QUOTE, RBRACE]
}

/// The canonical wire form of one record.
pub open spec fn todo_json(t: ToDo) -> Seq<u8> {
    json_bytes(t.id as nat, encode_utf8(t.todo_info@), encode_utf8(t.todo_date@))
}

/// `lit` stands at `i` in `s`.
pub open spec fn has_lit_at(s: Seq<u8>, i: int, lit: Seq<u8>) -> bool {
    0 <= i && i + lit.len() <= s.len() && s.subrange(i, i + lit.len()) == lit
}

/// The grammar of one record, decided from position `i`: the id (as an
/// unbounded number), the unescaped bytes of the two strings, and the
/// position after the closing brace.
pub open spec fn spec_parse_at(s: Seq<u8>, i: int) -> Option<(nat, Seq<u8>, Seq<u8>, int)> {
    if !has_lit_at(s, i, lit_head()) {
        None
    } else {
        let i1 = i + lit_head().len();
        let i2 = digits_end(s, i1);
        if i2 == i1 || (s[i1] == DIGIT_ZERO && i2 > i1 + 1) {
            None
        } else {
            let id = digits_val(s.subrange(i1, i2));
            if !has_lit_at(s, i2, lit_info()) {
                None
            } else {
                match unescape_from(s, i2 + lit_info().len()) {
                    None => None,
                    Some((info, i4)) => if !has_lit_at(s, i4, lit_date()) {
                        None
                    } else {
                        match unescape_from(s, i4 + lit_date().len()) {
                            None => None,
                            Some((date, i6)) => if i6 < s.len() && s[i6] == RBRACE {
                                Some((id, info, date, i6 + 1))
                            } else {
                                None
                            },
                        }
                    },
                }
            }
        }
    }
}

/// A whole byte string that is exactly one record.
pub open spec fn spec_parse_todo(s: Seq<u8>) -> Option<(nat, Seq<u8>, Seq<u8>)> {
    match spec_parse_at(s, 0) {
        Some((id, info, date, end)) => if end == s.len() {
            Some((id, info, date))
        } else {
            None
        },
        None => None,
    }
}

/// The decimal form of a number is non-empty, all digits, starts with `0`
/// only for zero itself, and denotes the number it was built from.
pub proof fn lemma_dec_bytes(n: nat)
    ensures
        dec_bytes(n).len() >= 1,
        forall|k: int| 0 <= k < dec_bytes(n).len() ==> is_digit(#[trigger] dec_bytes(n)[k]),
        dec_bytes(n)[0] == DIGIT_ZERO ==> n == 0,
        digits_val(dec_bytes(n)) == n,
    decreases n,
{
    lemma_fundamental_div_mod(n as int, 10);
    if n < 10 {
        assert(digits_val(dec_bytes(n)) == digits_val(seq![digit_of(n)].drop_last()) * 10 + (
        digit_of(n) - 0x30) as nat);
    } else {
        lemma_dec_bytes(n / 10);
        assert(dec_bytes(n) == dec_bytes(n / 10).push(digit_of(n)));
        assert(dec_bytes(n).drop_last() == dec_bytes(n / 10));
        assert(dec_bytes(n)[0] == dec_bytes(n / 10)[0]);
    }
}

/// A maximal digit run ends exactly where the digits stop.
pub proof fn lemma_digits_end_of_run(s: Seq<u8>, i: int, j: int)
    requires
        0 <= i <= j <= s.len(),
        forall|k: int| i <= k < j ==> is_digit(#[trigger] s[k]),
        j == s.len() || !is_digit(s[j]),
    ensures
        digits_end(s, i) == j,
    decreases j - i,
{
    if i < j {
        lemma_digits_end_of_run(s, i + 1, j);
    }
}

/// A digit run denotes at least as much as any of its prefixes.
pub proof fn lemma_digits_val_prefix(d: Seq<u8>, m: int)
    requires
        0 <= m <= d.len(),
    ensures
        digits_val(d) >= digits_val(d.take(m)),
    decreases d.len() - m,
{
    if m == d.len() {
        assert(d.take(m) =~= d);
    } else {
        assert(d.take(m + 1).drop_last() =~= d.take(m));
        lemma_digits_val_prefix(d, m + 1);
    }
}

/// Escaping one more byte appends that byte's escaped form.
pub proof fn lemma_escape_snoc(s: Seq<u8>, x: u8)
    ensures
        escape_bytes(s.push(x)) == escape_bytes(s) + escape_byte(x),
    decreases s.len(),
{
    if s.len() == 0 {
        assert(s.push(x).drop_first() =~= Seq::<u8>::empty());
        assert(escape_bytes(s.push(x)) == escape_byte(x) + escape_bytes(Seq::<u8>::empty()));
        assert(escape_byte(x) + seq![] =~= escape_byte(x));
        assert(seq![] + escape_byte(x) =~= escape_byte(x));
    } else {
        assert(s.push(x).drop_first() =~= s.drop_first().push(x));
        lemma_escape_snoc(s.drop_first(), x);
        assert(escape_bytes(s.push(x)) == escape_byte(s[0]) + (escape_bytes(s.drop_first())
            + escape_byte(x)));
        assert(escape_byte(s[0]) + (escape_bytes(s.drop_first()) + escape_byte(x)) =~= (escape_byte(
            s[0],
        ) + escape_bytes(s.drop_first())) + escape_byte(x));
    }
}

/// Unescaping reads back exactly what escaping wrote: wherever the escaped
/// form of `content` stands followed by a closing quote, the scan returns
/// `content` and stops right after that quote.
pub proof fn lemma_unescape_of_escape(s: Seq<u8>, i: int, content: Seq<u8>)
    requires
        0 <= i,
        i + escape_bytes(content).len() < s.len(),
        s.subrange(i, i + escape_bytes(content).len()) == escape_bytes(content),
        s[i + escape_bytes(content).len()] == QUOTE,
    ensures
        unescape_from(s, i) == Some((content, i + escape_bytes(content).len() + 1)),
    decreases content.len(),
{
    let e = escape_bytes(content);
    if content.len() == 0 {
        assert(s[i] == QUOTE);
    } else {
        let c0 = content[0];
        let rest = content.drop_first();
        let e0 = escape_byte(c0);
        let erest = escape_bytes(rest);
        assert(e == e0 + erest);
        assert(forall|k: int| 0 <= k < e.len() ==> s[i + k] == #[trigger] e[k]) by {
            assert(forall|k: int|
                0 <= k < e.len() ==> s[i + k] == #[trigger] s.subrange(
                    i,
                    i + e.len(),
                )[k]);
        }
        if c0 == QUOTE || c0 == BACKSLASH {
            assert(e[0] == BACKSLASH && e[1] == c0);
            assert(s[i] == BACKSLASH && s[i + 1] == c0);
            assert(s.subrange(i + 2, i + 2 + erest.len()) =~= erest) by {
                assert(forall|k: int|
                    0 <= k < erest.len() ==> s.subrange(i + 2, i + 2 + erest.len())[k] == s[i + 2
                        + k] && #[trigger] erest[k] == e[2 + k]);
            }
            lemma_unescape_of_escape(s, i + 2, rest);
            assert(seq![s[i + 1]] + rest =~= content);
        } else {
            assert(e[0] == c0);
            assert(s[i] == c0);
            assert(s.subrange(i + 1, i + 1 + erest.len()) =~= erest) by {
                assert(forall|k: int|
                    0 <= k < erest.len() ==> s.subrange(i + 1, i + 1 + erest.len())[k] == s[i + 1
                        + k] && #[trigger] erest[k] == e[1 + k]);
            }
            lemma_unescape_of_escape(s, i + 1, rest);
            assert(seq![s[i]] + rest =~= content);
        }
    }
}

/// Round trip: wherever the canonical form of a record stands, the grammar
/// reads back exactly that record's parts and consumes exactly its bytes.
#[verifier::rlimit(100)]
pub proof fn lemma_parse_of_json(s: Seq<u8>, i: int, id: nat, info: Seq<u8>, date: Seq<u8>)
    requires
        0 <= i,
        i + json_bytes(id, info, date).len() <= s.len(),
        s.subrange(i, i + json_bytes(id, info, date).len() as int) == json_bytes(id, info, date),
    ensures
        spec_parse_at(s, i) == Some((id, info, date, i + json_bytes(id, info, date).len() as int)),
{
    let j = json_bytes(id, info, date);
    let dl = dec_bytes(id).len() as int;
    let e1 = escape_bytes(info).len() as int;
    let e2 = escape_bytes(date).len() as int;
    let p1: int = 6;
    let p2 = p1 + dl;
    let p3 = p2 + 14;
    let p4 = p3 + e1;
    let p5 = p4 + 1;
    let p6 = p5 + 14;
    let p7 = p6 + e2;
    lemma_dec_bytes(id);
    assert(j.len() == p7 + 2);
    assert(forall|k: int| 0 <= k < j.len() ==> s[i + k] == #[trigger] j[k]) by {
        assert(forall|k: int|
            0 <= k < j.len() ==> s[i + k] == #[trigger] s.subrange(i, i + j.len())[k]);
    }
    // the fixed literals stand where the grammar expects them
    assert(forall|k: int| 0 <= k < 6 ==> j[k] == #[trigger] lit_head()[k]);
    assert(forall|k: int| 0 <= k < dl ==> j[p1 + k] == #[trigger] dec_bytes(id)[k]);
    assert(forall|k: int| 0 <= k < 14 ==> j[p2 + k] == #[trigger] lit_info()[k]);
    assert(forall|k: int| 0 <= k < e1 ==> j[p3 + k] == #[trigger] escape_bytes(info)[k]);
    assert(j[p4] == QUOTE);
    assert(forall|k: int| 0 <= k < 14 ==> j[p5 + k] == #[trigger] lit_date()[k]);
    assert(forall|k: int| 0 <= k < e2 ==> j[p6 + k] == #[trigger] escape_bytes(date)[k]);
    assert(j[p7] == QUOTE);
    assert(j[p7 + 1] == RBRACE);

    assert(s.subrange(i, i + 6) =~= lit_head());
    assert(has_lit_at(s, i, lit_head()));
    let i1 = i + 6;
    assert(forall|k: int| i1 <= k < i1 + dl ==> is_digit(#[trigger] s[k])) by {
        assert(forall|k: int|
            i1 <= k < i1 + dl ==> #[trigger] s[k] == dec_bytes(id)[k - i1]);
    }
    assert(s[i1 + dl] == lit_info()[0]);
    assert(!is_digit(s[i1 + dl]));
    lemma_digits_end_of_run(s, i1, i1 + dl);
    let i2 = i1 + dl;
    assert(s.subrange(i1, i2) =~= dec_bytes(id));
    assert(s[i1] == dec_bytes(id)[0]);
    assert(s[i1] == DIGIT_ZERO && i2 > i1 + 1 ==> false);
    assert(digits_val(s.subrange(i1, i2)) == id);
    assert(s.subrange(i2, i2 + 14) =~= lit_info());
    assert(has_lit_at(s, i2, lit_info()));
    let i3 = i2 + 14;
    assert(s.subrange(i3, i3 + e1) =~= escape_bytes(info));
    assert(s[i3 + e1] == QUOTE);
    lemma_unescape_of_escape(s, i3, info);
    let i4 = i3 + e1 + 1;
    assert(s.subrange(i4, i4 + 14) =~= lit_date());
    assert(has_lit_at(s, i4, lit_date()));
    let i5 = i4 + 14;
    assert(s.subrange(i5, i5 + e2) =~= escape_bytes(date));
    assert(s[i5 + e2] == QUOTE);
    lemma_unescape_of_escape(s, i5, date);
    let i6 = i5 + e2 + 1;
    assert(s[i6] == RBRACE);
    assert(i6 + 1 == i + j.len());
}

fn push_lit_head(v: &mut Vec<u8>)
    ensures
        final(v)@ == old(v)@ + lit_head(),
{
    v.push(LBRACE);
    v.push(QUOTE);
    v.push(0x69);
    v.push(0x64);
    v.push(QUOTE);
    v.push(COLON);
    proof {
        assert(v@ =~= old(v)@ + lit_head());
    }
}

fn push_lit_info(v: &mut Vec<u8>)
    ensures
        final(v)@ == old(v)@ + lit_info(),
{
    v.push(COMMA);
    v.push(QUOTE);
    v.push(0x74);
    v.push(0x6f);
    v.push(0x64);
    v.push(0x6f);
    v.push(0x5f);
    v.push(0x69);
    v.push(0x6e);
    v.push(0x66);
    v.push(0x6f);
    v.push(QUOTE);
    v.push(COLON);
    v.push(QUOTE);
    proof {
        assert(v@ =~= old(v)@ + lit_info());
    }
}

fn push_lit_date(v: &mut Vec<u8>)
    ensures
        final(v)@ == old(v)@ + lit_date(),
{
    v.push(COMMA);
    v.push(QUOTE);
    v.push(0x74);
    v.push(0x6f);
    v.push(0x64);
    v.push(0x6f);
    v.push(0x5f);
    v.push(0x64);
    v.push(0x61);
    v.push(0x74);
    v.push(0x65);
    v.push(QUOTE);
    v.push(COLON);
    v.push(QUOTE);
    proof {
        assert(v@ =~= old(v)@ + lit_date());
    }
}

/// Appends the decimal digits of `n`, most significant first.
fn push_dec(v: &mut Vec<u8>, n: usize)
    ensures
        final(v)@ == old(v)@ + dec_bytes(n as nat),
    decreases n,
{
    if n < 10 {
        v.push(DIGIT_ZERO + (n as u8));
        proof {
            assert(v@ =~= old(v)@ + dec_bytes(n as nat));
        }
    } else {
        push_dec(v, n / 10);
        v.push(DIGIT_ZERO + ((n % 10) as u8));
        proof {
            assert(v@ =~= old(v)@ + dec_bytes(n as nat));
        }
    }
}

/// Appends `b` with `"` and `\` escaped.
fn push_escaped(v: &mut Vec<u8>, b: &Vec<u8>)
    ensures
        final(v)@ == old(v)@ + escape_bytes(b@),
{
    let mut k: usize = 0;
    while k < b.len()
        invariant
            k <= b@.len(),
            v@ == old(v)@ + escape_bytes(b@.take(k as int)),
        decreases b@.len() - k,
    {
        let x = b[k];
        if x == QUOTE || x == BACKSLASH {
            v.push(BACKSLASH);
            v.push(x);
        } else {
            v.push(x);
        }
        proof {
            assert(b@.take(k as int + 1) =~= b@.take(k as int).push(b@[k as int]));
            lemma_escape_snoc(b@.take(k as int), b@[k as int]);
            assert(v@ =~= old(v)@ + escape_bytes(b@.take(k as int + 1)));
        }
        k = k + 1;
    }
    proof {
        assert(b@.take(b@.len() as int) =~= b@);
    }
}

/// The canonical wire form of one record, as UTF-8 bytes of its JSON
/// object.
pub fn encode_todo(t: &ToDo) -> (r: Vec<u8>)
    ensures
        r@ == todo_json(*t),
{
    let mut v: Vec<u8> = Vec::new();
    push_lit_head(&mut v);
    push_dec(&mut v, t.id);
    push_lit_info(&mut v);
    let info_bytes = t.todo_info.as_str().as_bytes_vec();
    push_escaped(&mut v, &info_bytes);
    v.push(QUOTE);
    push_lit_date(&mut v);
    let date_bytes = t.todo_date.as_str().as_bytes_vec();
    push_escaped(&mut v, &date_bytes);
    v.push(QUOTE);
    v.push(RBRACE);
    proof {
        assert(v@ =~= todo_json(*t));
    }
    v
}

/// The key a record is stored under: the decimal string of its id.
pub fn todo_key(id: usize) -> (r: Vec<u8>)
    ensures
        r@ == dec_bytes(id as nat),
{
    let mut v: Vec<u8> = Vec::new();
    push_dec(&mut v, id);
    proof {
        assert(v@ =~= dec_bytes(id as nat));
    }
    v
}

fn lit_head_vec() -> (r: Vec<u8>)
    ensures
        r@ == lit_head(),
{
    let mut v: Vec<u8> = Vec::new();
    push_lit_head(&mut v);
    proof {
        assert(v@ =~= lit_head());
    }
    v
}

fn lit_info_vec() -> (r: Vec<u8>)
    ensures
        r@ == lit_info(),
{
    let mut v: Vec<u8> = Vec::new();
    push_lit_info(&mut v);
    proof {
        assert(v@ =~= lit_info());
    }
    v
}

fn lit_date_vec() -> (r: Vec<u8>)
    ensures
        r@ == lit_date(),
{
    let mut v: Vec<u8> = Vec::new();
    push_lit_date(&mut v);
    proof {
        assert(v@ =~= lit_date());
    }
    v
}

/// Whether `lit` stands at `i` in `v`.
fn match_at(v: &Vec<u8>, i: usize, lit: &Vec<u8>) -> (r: bool)
    requires
        i <= v@.len(),
    ensures
        r == has_lit_at(v@, i as int, lit@),
{
    let n = v.len();
    let w = lit.len();
    if n - i < w {
        return false;
    }
    let mut k: usize = 0;
    while k < w
        invariant
            k <= lit@.len(),
            w == lit@.len(),
            n == v@.len(),
            i + lit@.len() <= v@.len(),
            forall|m: int| 0 <= m < k ==> v@[i + m] == lit@[m],
        decreases lit@.len() - k,
    {
        if v[i + k] != lit[k] {
            proof {
                if has_lit_at(v@, i as int, lit@) {
                    assert(v@.subrange(i as int, i + lit@.len())[k as int] == lit@[k as int]);
                }
            }
            return false;
        }
        k = k + 1;
    }
    proof {
        assert(v@.subrange(i as int, i + lit@.len()) =~= lit@);
    }
    true
}

/// Relies on String::from_utf8: it accepts exactly the valid UTF-8 byte
/// strings and returns the string those bytes spell.
#[verifier::external_body]
fn string_from_utf8(v: Vec<u8>) -> (r: Option<String>)
    ensures
        valid_utf8(v@) ==> r is Some,
        r matches Some(s) ==> valid_utf8(v@) && s@ == decode_utf8(v@),
{
    String::from_utf8(v).ok()
}

/// Reads escaped string content from `start` through its closing quote.
fn scan_string(v: &Vec<u8>, start: usize) -> (r: Option<(Vec<u8>, usize)>)
    requires
        start <= v@.len(),
    ensures
        (match unescape_from(v@, start as int) {
            Some(p) => r matches Some(q) && q.0@ == p.0 && q.1 as int == p.1,
            None => r is None,
        }),
{
    let mut content: Vec<u8> = Vec::new();
    let mut k = start;
    loop
        invariant
            start <= k <= v@.len(),
            (match unescape_from(v@, k as int) {
                Some(p) => unescape_from(v@, start as int) == Some::<(Seq<u8>, int)>(
                    (content@ + p.0, p.1),
                ),
                None => unescape_from(v@, start as int) is None,
            }),
        decreases v@.len() - k,
    {
        if k >= v.len() {
            return None;
        }
        let x = v[k];
        if x == QUOTE {
            proof {
                assert(content@ + Seq::<u8>::empty() =~= content@);
            }
            return Some((content, k + 1));
        } else if x == BACKSLASH {
            if k + 1 < v.len() && (v[k + 1] == QUOTE || v[k + 1] == BACKSLASH) {
                let y = v[k + 1];
                content.push(y);
                proof {
                    if let Some(p) = unescape_from(v@, k as int + 2) {
                        assert(content@ + p.0 =~= old_content(content@, 1) + (seq![y] + p.0));
                    }
                }
                k = k + 2;
            } else {
                return None;
            }
        } else {
            content.push(x);
            proof {
                if let Some(p) = unescape_from(v@, k as int + 1) {
                    assert(content@ + p.0 =~= old_content(content@, 1) + (seq![x] + p.0));
                }
            }
            k = k + 1;
        }
    }
}

/// The content vector without its last `n` pushed bytes.
pub open spec fn old_content(c: Seq<u8>, n: int) -> Seq<u8> {
    c.take(c.len() - n)
}

/// Decodes one record starting at `i`: exactly the byte strings the grammar
/// `spec_parse_at` accepts are accepted, provided the id fits the machine
/// and the two string contents are valid UTF-8, and the returned position is
/// the first byte after the record.
#[verifier::loop_isolation(false)]
pub fn parse_todo_at(v: &Vec<u8>, i: usize) -> (r: Option<(ToDo, usize)>)
    requires
        i <= v@.len(),
    ensures
        (match spec_parse_at(v@, i as int) {
            Some(p) => if p.0 <= usize::MAX as nat && valid_utf8(p.1) && valid_utf8(p.2) {
                r matches Some(q) && q.0.id as nat == p.0 && q.0.todo_info@ == decode_utf8(p.1)
                    && q.0.todo_date@ == decode_utf8(p.2) && q.1 as int == p.3
            } else {
                r is None
            },
            None => r is None,
        }),
{
    let ghost s = v@;
    let n = v.len();
    let lit1 = lit_head_vec();
    if !match_at(v, i, &lit1) {
        return None;
    }
    let i1 = i + lit1.len();
    // find the end of the maximal digit run
    let mut i2 = i1;
    while i2 < n && 0x30 <= v[i2] && v[i2] <= 0x39
        invariant
            s == v@,
            i1 <= i2 <= v@.len(),
            n == v@.len(),
            i1 <= v@.len(),
            digits_end(s, i1 as int) == digits_end(s, i2 as int),
            forall|m: int| i1 <= m < i2 ==> is_digit(#[trigger] s[m]),
        decreases v@.len() - i2,
    {
        proof {
            assert(is_digit(s[i2 as int]));
            assert(digits_end(s, i2 as int) == digits_end(s, i2 as int + 1));
        }
        i2 = i2 + 1;
    }
    proof {
        assert(digits_end(s, i2 as int) == i2 as int);
    }
    if i2 == i1 {
        return None;
    }
    if v[i1] == DIGIT_ZERO && i2 > i1 + 1 {
        return None;
    }
    // the value of the digit run, bailing out when it cannot fit
    let ghost dseq = s.subrange(i1 as int, i2 as int);
    let mut val: usize = 0;
    let mut m = i1;
    while m < i2
        invariant
            s == v@,
            i1 <= m <= i2 <= v@.len(),
            n == v@.len(),
            forall|k: int| i1 <= k < i2 ==> is_digit(#[trigger] s[k]),
            dseq == s.subrange(i1 as int, i2 as int),
            val as nat == digits_val(s.subrange(i1 as int, m as int)),
        decreases i2 - m,
    {
        proof {
            assert(is_digit(s[m as int]));
        }
        let d = v[m] - 0x30;
        proof {
            assert(s.subrange(i1 as int, m as int + 1).drop_last() =~= s.subrange(
                i1 as int,
                m as int,
            ));
            lemma_fundamental_div_mod((usize::MAX - d) as int, 10);
        }
        if val > (usize::MAX - (d as usize)) / 10 {
            proof {
                assert(digits_val(s.subrange(i1 as int, m as int + 1)) > usize::MAX as nat);
                assert(s.subrange(i1 as int, m as int + 1) =~= dseq.take(m as int + 1 - i1));
                lemma_digits_val_prefix(dseq, m as int + 1 - i1);
            }
            return None;
        }
        val = val * 10 + (d as usize);
        m = m + 1;
    }
    let lit2 = lit_info_vec();
    if !match_at(v, i2, &lit2) {
        return None;
    }
    let i3 = i2 + lit2.len();
    let r1 = scan_string(v, i3);
    if r1.is_none() {
        return None;
    }
    let (info_raw, i4) = r1.unwrap();
    let lit3 = lit_date_vec();
    proof {
        assert(i4 <= v@.len()) by {
            lemma_unescape_end(s, i3 as int);
        }
    }
    if !match_at(v, i4, &lit3) {
        return None;
    }
    let i5 = i4 + lit3.len();
    let r2 = scan_string(v, i5);
    if r2.is_none() {
        return None;
    }
    let (date_raw, i6) = r2.unwrap();
    proof {
        assert(i6 <= v@.len()) by {
            lemma_unescape_end(s, i5 as int);
        }
    }
    if i6 >= n {
        return None;
    }
    if v[i6] != RBRACE {
        return None;
    }
    let info_s = string_from_utf8(info_raw);
    if info_s.is_none() {
        return None;
    }
    let date_s = string_from_utf8(date_raw);
    if date_s.is_none() {
        return None;
    }
    let t = ToDo { id: val, todo_info: info_s.unwrap(), todo_date: date_s.unwrap() };
    Some((t, i6 + 1))
}

/// Where the scan of escaped content ends, it ends inside the bytes.
pub proof fn lemma_unescape_end(s: Seq<u8>, i: int)
    requires
        0 <= i <= s.len(),
    ensures
        (unescape_from(s, i) matches Some(p) ==> i < p.1 <= s.len()),
    decreases s.len() - i,
{
    if i < s.len() {
        if s[i] == QUOTE {
        } else if s[i] == BACKSLASH {
            if i + 1 < s.len() && (s[i + 1] == QUOTE || s[i + 1] == BACKSLASH) {
                lemma_unescape_end(s, i + 2);
            }
        } else {
            lemma_unescape_end(s, i + 1);
        }
    }
}

/// Decodes a whole byte string that is exactly one record.
pub fn parse_todo(v: &Vec<u8>) -> (r: Option<ToDo>)
    ensures
        (match spec_parse_todo(v@) {
            Some(p) => if p.0 <= usize::MAX as nat && valid_utf8(p.1) && valid_utf8(p.2) {
                r matches Some(t) && t.id as nat == p.0 && t.todo_info@ == decode_utf8(p.1)
                    && t.todo_date@ == decode_utf8(p.2)
            } else {
                r is None
            },
            None => r is None,
        }),
{
    match parse_todo_at(v, 0) {
        Some((t, end)) => if end == v.len() {
            Some(t)
        } else {
            None
        },
        None => None,
    }
}

/// The spec-level shadow of one record: its id and the UTF-8 bytes of its
/// two strings, exactly what the grammar reads back.
pub open spec fn todo_item(t: ToDo) -> (nat, Seq<u8>, Seq<u8>) {
    (t.id as nat, encode_utf8(t.todo_info@), encode_utf8(t.todo_date@))
}

/// The spec-level shadows of a record list.
pub open spec fn items_of(ts: Seq<ToDo>) -> Seq<(nat, Seq<u8>, Seq<u8>)> {
    Seq::new(ts.len(), |k: int| todo_item(ts[k]))
}

/// An item a record can be built from: the id fits the machine and the
/// string contents are valid UTF-8.
pub open spec fn item_ok(p: (nat, Seq<u8>, Seq<u8>)) -> bool {
    p.0 <= usize::MAX as nat && valid_utf8(p.1) && valid_utf8(p.2)
}

pub open spec fn items_all_ok(items: Seq<(nat, Seq<u8>, Seq<u8>)>) -> bool {
    forall|k: int| 0 <= k < items.len() ==> item_ok(#[trigger] items[k])
}

/// The record `t` carries exactly what the item spells.
pub open spec fn item_matches(t: ToDo, p: (nat, Seq<u8>, Seq<u8>)) -> bool {
    t.id as nat == p.0 && t.todo_info@ == decode_utf8(p.1) && t.todo_date@ == decode_utf8(p.2)
}

/// A record built from an item shadows back to that item.
pub proof fn lemma_item_matches_shadow(t: ToDo, p: (nat, Seq<u8>, Seq<u8>))
    requires
        item_ok(p),
        item_matches(t, p),
    ensures
        todo_item(t) == p,
{
    vstd::utf8::decode_utf8_encode_utf8(p.1);
    vstd::utf8::decode_utf8_encode_utf8(p.2);
}

/// Round trip for one record: its wire form is accepted by the grammar and
/// reads back as exactly its id and the UTF-8 bytes of its two strings, and
/// those bytes spell the strings themselves.
pub proof fn lemma_todo_json_round_trip(t: ToDo)
    ensures
        spec_parse_todo(todo_json(t)) == Some(
            (t.id as nat, encode_utf8(t.todo_info@), encode_utf8(t.todo_date@)),
        ),
        valid_utf8(encode_utf8(t.todo_info@)),
        decode_utf8(encode_utf8(t.todo_info@)) == t.todo_info@,
        valid_utf8(encode_utf8(t.todo_date@)),
        decode_utf8(encode_utf8(t.todo_date@)) == t.todo_date@,
{
    let s = todo_json(t);
    assert(s.subrange(0, s.len() as int) =~= s);
    lemma_parse_of_json(s, 0, t.id as nat, encode_utf8(t.todo_info@), encode_utf8(t.todo_date@));
    vstd::utf8::encode_utf8_valid_utf8(t.todo_info@);
    vstd::utf8::encode_utf8_decode_utf8(t.todo_info@);
    vstd::utf8::encode_utf8_valid_utf8(t.todo_date@);
    vstd::utf8::encode_utf8_decode_utf8(t.todo_date@);
}

/// The records of a non-empty list, joined by commas.
pub open spec fn todos_json_items(ts: Seq<ToDo>) -> Seq<u8>
    decreases ts.len(),
{
    if ts.len() == 0 {
        seq![]
    } else if ts.len() == 1 {
        todo_json(ts[0])
    } else {
        todo_json(ts[0]) + seq![COMMA] + todos_json_items(ts.drop_first())
    }
}

/// The canonical wire form of a whole record list: a JSON array.
pub open spec fn todos_json(ts: Seq<ToDo>) -> Seq<u8> {
    if ts.len() == 0 {
        seq![LBRACKET, RBRACKET]
    } else {
        seq![LBRACKET] + todos_json_items(ts) + seq![RBRACKET]
    }
}

/// The grammar of the items of a non-empty array, read from `i` through the
/// closing bracket.
pub open spec fn spec_parse_items(s: Seq<u8>, i: int) -> Option<
    (Seq<(nat, Seq<u8>, Seq<u8>)>, int),
>
    decreases s.len() - i,
        when 0 <= i <= s.len()
{
    match spec_parse_at(s, i) {
        None => None,
        Some((id, info, date, j)) => if j <= i || j > s.len() {
            None
        } else if j < s.len() && s[j] == COMMA {
            match spec_parse_items(s, j + 1) {
                None => None,
                Some((rest, end)) => Some((seq![(id, info, date)] + rest, end)),
            }
        } else if j < s.len() && s[j] == RBRACKET {
            Some((seq![(id, info, date)], j + 1))
        } else {
            None
        },
    }
}

/// A whole byte string that is exactly one array of records.
pub open spec fn spec_parse_todos(s: Seq<u8>) -> Option<Seq<(nat, Seq<u8>, Seq<u8>)>> {
    if s.len() == 2 && s[0] == LBRACKET && s[1] == RBRACKET {
        Some(seq![])
    } else if s.len() >= 1 && s[0] == LBRACKET {
        match spec_parse_items(s, 1) {
            Some((items, end)) => if end == s.len() {
                Some(items)
            } else {
                None
            },
            None => None,
        }
    } else {
        None
    }
}

/// Joining one more record appends a comma (past the first) and its form.
pub proof fn lemma_items_snoc(ts: Seq<ToDo>, t: ToDo)
    ensures
        todos_json_items(ts.push(t)) == if ts.len() == 0 {
            todo_json(t)
        } else {
            todos_json_items(ts) + seq![COMMA] + todo_json(t)
        },
    decreases ts.len(),
{
    if ts.len() == 0 {
        assert(ts.push(t).len() == 1);
        assert(ts.push(t)[0] == t);
    } else {
        assert(ts.push(t).drop_first() =~= ts.drop_first().push(t));
        lemma_items_snoc(ts.drop_first(), t);
        if ts.len() == 1 {
            assert(todos_json_items(ts.push(t)) =~= todos_json_items(ts) + seq![COMMA]
                + todo_json(t));
        } else {
            assert(todo_json(ts[0]) + seq![COMMA] + (todos_json_items(ts.drop_first()) + seq![COMMA]
                + todo_json(t)) =~= (todo_json(ts[0]) + seq![COMMA] + todos_json_items(
                ts.drop_first(),
            )) + seq![COMMA] + todo_json(t));
        }
    }
}

/// Appends every byte of `w`.
fn push_all(v: &mut Vec<u8>, w: &Vec<u8>)
    ensures
        final(v)@ == old(v)@ + w@,
{
    let mut k: usize = 0;
    while k < w.len()
        invariant
            k <= w@.len(),
            v@ == old(v)@ + w@.take(k as int),
        decreases w@.len() - k,
    {
        v.push(w[k]);
        proof {
            assert(w@.take(k as int + 1) =~= w@.take(k as int).push(w@[k as int]));
        }
        k = k + 1;
    }
    proof {
        assert(w@.take(w@.len() as int) =~= w@);
    }
}

/// The canonical wire form of a record list.
#[verifier::loop_isolation(false)]
pub fn encode_todo_list(ts: &Vec<ToDo>) -> (r: Vec<u8>)
    ensures
        r@ == todos_json(ts@),
{
    let mut v: Vec<u8> = Vec::new();
    v.push(LBRACKET);
    let mut k: usize = 0;
    while k < ts.len()
        invariant
            k <= ts@.len(),
            k == 0 ==> v@ == seq![LBRACKET],
            k >= 1 ==> v@ == seq![LBRACKET] + todos_json_items(ts@.take(k as int)),
        decreases ts@.len() - k,
    {
        if k > 0 {
            v.push(COMMA);
        }
        let piece = encode_todo(&ts[k]);
        push_all(&mut v, &piece);
        proof {
            assert(ts@.take(k as int + 1) =~= ts@.take(k as int).push(ts@[k as int]));
            lemma_items_snoc(ts@.take(k as int), ts@[k as int]);
            assert(v@ =~= seq![LBRACKET] + todos_json_items(ts@.take(k as int + 1)));
        }
        k = k + 1;
    }
    v.push(RBRACKET);
    proof {
        assert(ts@.take(ts@.len() as int) =~= ts@);
        assert(v@ =~= todos_json(ts@));
    }
    v
}

/// Decodes a whole byte string that is exactly an array of records: the
/// arrays the grammar accepts whose every item can be built are accepted,
/// and the records carry exactly what the items spell, in order.
#[verifier::loop_isolation(false)]
pub fn parse_todo_list(v: &Vec<u8>) -> (r: Option<Vec<ToDo>>)
    ensures
        (match spec_parse_todos(v@) {
            Some(items) => if items_all_ok(items) {
                r matches Some(out) && out@.len() == items.len() && (forall|k: int|
                    0 <= k < items.len() ==> item_matches(#[trigger] out@[k], items[k]))
            } else {
                r is None
            },
            None => r is None,
        }),
{
    let n = v.len();
    if n == 2 && v[0] == LBRACKET && v[1] == RBRACKET {
        return Some(Vec::new());
    }
    if n == 0 {
        return None;
    }
    if v[0] != LBRACKET {
        return None;
    }
    let mut out: Vec<ToDo> = Vec::new();
    let ghost mut done: Seq<(nat, Seq<u8>, Seq<u8>)> = seq![];
    let mut pos: usize = 1;
    loop
        invariant
            1 <= pos <= n,
            out@.len() == done.len(),
            forall|k: int| 0 <= k < done.len() ==> item_matches(#[trigger] out@[k], done[k]),
            items_all_ok(done),
            (match spec_parse_items(v@, pos as int) {
                Some(q) => spec_parse_items(v@, 1) == Some::<(Seq<(nat, Seq<u8>, Seq<u8>)>, int)>(
                    (done + q.0, q.1),
                ),
                None => spec_parse_items(v@, 1) is None,
            }),
        decreases v@.len() - pos,
    {
        let pr = parse_todo_at(v, pos);
        if pr.is_none() {
            proof {
                if let Some(q) = spec_parse_items(v@, pos as int) {
                    let p = spec_parse_at(v@, pos as int)->0;
                    assert(q.0[0] == (p.0, p.1, p.2));
                    assert((done + q.0)[done.len() as int] == q.0[0]);
                    assert(!items_all_ok(done + q.0));
                }
            }
            return None;
        }
        let (t, j) = pr.unwrap();
        if j <= pos || j > n {
            return None;
        }
        let ghost p = spec_parse_at(v@, pos as int)->0;
        if j < n && v[j] == COMMA {
            out.push(t);
            proof {
                done = done + seq![(p.0, p.1, p.2)];
                if let Some(q2) = spec_parse_items(v@, j as int + 1) {
                    assert((done.drop_last() + (seq![(p.0, p.1, p.2)] + q2.0)) =~= (done + q2.0));
                }
            }
            pos = j + 1;
        } else if j < n && v[j] == RBRACKET {
            out.push(t);
            proof {
                assert((done + seq![(p.0, p.1, p.2)]).len() == done.len() + 1);
            }
            if j + 1 == n {
                proof {
                    assert(spec_parse_items(v@, 1) == Some::<(Seq<(nat, Seq<u8>, Seq<u8>)>, int)>(
                        (done + seq![(p.0, p.1, p.2)], j as int + 1),
                    ));
                }
                return Some(out);
            } else {
                return None;
            }
        } else {
            return None;
        }
    }
}

/// Round trip for the items of a non-empty list: wherever their joined
/// forms stand, followed by the closing bracket, the grammar reads back
/// exactly the list's shadows.
#[verifier::rlimit(100)]
pub proof fn lemma_parse_items_of_json(s: Seq<u8>, i: int, ts: Seq<ToDo>)
    requires
        ts.len() >= 1,
        0 <= i,
        i + todos_json_items(ts).len() + 1 <= s.len(),
        s.subrange(i, i + todos_json_items(ts).len() as int) == todos_json_items(ts),
        s[i + todos_json_items(ts).len() as int] == RBRACKET,
    ensures
        spec_parse_items(s, i) == Some(
            (items_of(ts), i + todos_json_items(ts).len() as int + 1),
        ),
    decreases ts.len(),
{
    let t0 = ts[0];
    let w = todos_json_items(ts);
    let l0 = todo_json(t0).len() as int;
    assert(forall|k: int| 0 <= k < w.len() ==> s[i + k] == #[trigger] w[k]) by {
        assert(forall|k: int|
            0 <= k < w.len() ==> s[i + k] == #[trigger] s.subrange(i, i + w.len())[k]);
    }
    if ts.len() == 1 {
        assert(s.subrange(i, i + l0) =~= todo_json(t0));
        lemma_parse_of_json(
            s,
            i,
            t0.id as nat,
            encode_utf8(t0.todo_info@),
            encode_utf8(t0.todo_date@),
        );
        assert(s[i + l0] == RBRACKET);
        assert(seq![(t0.id as nat, encode_utf8(t0.todo_info@), encode_utf8(t0.todo_date@))]
            =~= items_of(ts));
    } else {
        let rest = ts.drop_first();
        let wr = todos_json_items(rest);
        assert(w == todo_json(t0) + seq![COMMA] + wr);
        assert(s.subrange(i, i + l0) =~= todo_json(t0)) by {
            assert(forall|k: int| 0 <= k < l0 ==> w[k] == #[trigger] todo_json(t0)[k]);
        }
        lemma_parse_of_json(
            s,
            i,
            t0.id as nat,
            encode_utf8(t0.todo_info@),
            encode_utf8(t0.todo_date@),
        );
        assert(w[l0] == COMMA);
        assert(s[i + l0] == COMMA);
        let i2 = i + l0 + 1;
        assert(s.subrange(i2, i2 + wr.len()) =~= wr) by {
            assert(forall|k: int|
                0 <= k < wr.len() ==> s.subrange(i2, i2 + wr.len())[k] == s[i2 + k]
                    && #[trigger] wr[k] == w[l0 + 1 + k]);
        }
        assert(s[i2 + wr.len()] == RBRACKET);
        lemma_parse_items_of_json(s, i2, rest);
        assert(seq![(t0.id as nat, encode_utf8(t0.todo_info@), encode_utf8(t0.todo_date@))]
            + items_of(rest) =~= items_of(ts));
    }
}

/// Round trip for a record list: its wire form is accepted by the grammar
/// and reads back as exactly the list's shadows, each of which a record can
/// be built from.
pub proof fn lemma_todos_json_round_trip(ts: Seq<ToDo>)
    ensures
        spec_parse_todos(todos_json(ts)) == Some(items_of(ts)),
        items_all_ok(items_of(ts)),
{
    let s = todos_json(ts);
    if ts.len() == 0 {
        assert(items_of(ts) =~= Seq::<(nat, Seq<u8>, Seq<u8>)>::empty());
    } else {
        let w = todos_json_items(ts);
        lemma_dec_bytes(ts[0].id as nat);
        assert(w.len() >= 1);
        assert(s.len() == w.len() + 2);
        assert(s[0] == LBRACKET);
        assert(s.subrange(1, 1 + w.len() as int) =~= w);
        assert(s[1 + w.len() as int] == RBRACKET);
        lemma_parse_items_of_json(s, 1, ts);
    }
    assert forall|k: int| 0 <= k < items_of(ts).len() implies item_ok(
        #[trigger] items_of(ts)[k],
    ) by {
        vstd::utf8::encode_utf8_valid_utf8(ts[k].todo_info@);
        vstd::utf8::encode_utf8_valid_utf8(ts[k].todo_date@);
    }
}

} // verus!
