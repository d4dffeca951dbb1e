//! Text between double quotes: how a run of bytes is written so that it can
//! stand inside a quoted string, and how it is read back.
//!
//! A double quote, a backslash and the control bytes below `0x20` are written
//! as escapes; every other byte stands for itself. Reading accepts exactly
//! what writing produces.

use vstd::prelude::*;
use vstd::utf8::{
    length_of_first_scalar, pop_first_scalar, take_first_scalar, valid_first_scalar, valid_utf8,
    valid_utf8_concat,
};

verus! {

pub const QUOTE: u8 = '"' as u8;

pub const BACKSLASH: u8 = '\\' as u8;

/// The letter that stands behind the backslash in the two-byte escape of `b`,
/// where `b` has one.
pub open spec fn short_escape(b: u8) -> Option<u8> {
    if b == QUOTE {
        Some(QUOTE)
    } else if b == BACKSLASH {
        Some(BACKSLASH)
    } else if b == 0x08 {
        Some('b' as u8)
    } else if b == 0x09 {
        Some('t' as u8)
    } else if b == 0x0a {
        Some('n' as u8)
    } else if b == 0x0c {
        Some('f' as u8)
    } else if b == 0x0d {
        Some('r' as u8)
    } else {
        None
    }
}

/// The byte whose two-byte escape ends in `letter`, where there is one.
pub open spec fn short_unescape(letter: u8) -> Option<u8> {
    if letter == QUOTE {
        Some(QUOTE)
    } else if letter == BACKSLASH {
        Some(BACKSLASH)
    } else if letter == 'b' as u8 {
        Some(0x08u8)
    } else if letter == 't' as u8 {
        Some(0x09u8)
    } else if letter == 'n' as u8 {
        Some(0x0au8)
    } else if letter == 'f' as u8 {
        Some(0x0cu8)
    } else if letter == 'r' as u8 {
        Some(0x0du8)
    } else {
        None
    }
}

/// The ASCII code of the lower-case hexadecimal digit for `n`.
pub open spec fn hex_byte(n: int) -> u8 {
    if n < 10 {
        ('0' as u8 + n) as u8
    } else {
        ('a' as u8 + n - 10) as u8
    }
}

/// The number that a lower-case hexadecimal digit stands for.
pub open spec fn hex_number(digit: u8) -> Option<int> {
    if '0' as u8 <= digit <= '9' as u8 {
        Some(digit - '0' as u8)
    } else if 'a' as u8 <= digit <= 'f' as u8 {
        Some(digit - 'a' as u8 + 10)
    } else {
        None
    }
}

/// How one byte is written inside a quoted string: a quote, a backslash and
/// five of the control bytes as a backslash and a letter, the other bytes
/// below `0x20` as `\u00` and two digits, every other byte as itself.
pub open spec fn escape_byte(b: u8) -> Seq<u8> {
    match short_escape(b) {
        Some(letter) => seq![BACKSLASH, letter],
        None => if b < 0x20 {
            seq![
                BACKSLASH,
                'u' as u8,
                '0' as u8,
                '0' as u8,
                hex_byte(b as int / 16),
                hex_byte(b as int % 16),
            ]
        } else {
            seq![b]
        },
    }
}

/// How a run of bytes is written inside a quoted string: byte by byte.
pub open spec fn escape(s: Seq<u8>) -> Seq<u8>
    decreases s.len(),
{
    if s.len() == 0 {
        Seq::empty()
    } else {
        escape_byte(s[0]) + escape(s.skip(1))
    }
}

/// The control byte that the last two digits of a `\u00..` escape spell,
/// where it is one that is written that way.
pub open spec fn control_code(high: u8, low: u8) -> Option<u8> {
    match (hex_number(high), hex_number(low)) {
        (Some(h), Some(l)) if h < 2 && short_escape((16 * h + l) as u8) is None => Some(
            (16 * h + l) as u8,
        ),
        _ => None,
    }
}

/// The byte that the front of `b` spells, and the number of bytes that spell
/// it; `None` where the front of `b` is nothing that `escape_byte` writes.
pub open spec fn unescape_first(b: Seq<u8>) -> Option<(u8, int)> {
    if b.len() == 0 {
        None
    } else if b[0] == BACKSLASH {
        if b.len() < 2 {
            None
        } else if short_unescape(b[1]) is Some {
            Some((short_unescape(b[1])->0, 2))
        } else if b[1] == 'u' as u8 && b.len() >= 6 && b[2] == '0' as u8 && b[3] == '0' as u8 {
            match control_code(b[4], b[5]) {
                Some(v) => Some((v, 6)),
                None => None,
            }
        } else {
            None
        }
    } else if b[0] < 0x20 || b[0] == QUOTE {
        None
    } else {
        Some((b[0], 1))
    }
}

/// Reads a quoted string's content from just behind its opening quote: the
/// bytes that the content spells, and the number of bytes read, the closing
/// quote included. `None` where `b` does not begin with written content and a
/// closing quote.
pub open spec fn scan(b: Seq<u8>) -> Option<(Seq<u8>, int)>
    decreases b.len(),
{
    if b.len() == 0 {
        None
    } else if b[0] == QUOTE {
        Some((Seq::empty(), 1))
    } else {
        match unescape_first(b) {
            Some((v, n)) if 0 < n <= b.len() => match scan(b.skip(n)) {
                Some((rest, m)) => Some((seq![v] + rest, n + m)),
                None => None,
            },
            _ => None,
        }
    }
}

/// What `escape_byte` writes is read back as the byte it was written for,
/// whatever follows, and never begins with a quote.
pub proof fn lemma_unescape_escaped(v: u8, rest: Seq<u8>)
    ensures
        unescape_first(escape_byte(v) + rest) == Some((v, escape_byte(v).len() as int)),
        (escape_byte(v) + rest)[0] != QUOTE,
        (escape_byte(v) + rest).skip(escape_byte(v).len() as int) == rest,
{
    let e = escape_byte(v);
    let b = e + rest;
    assert(forall|i: int| 0 <= i < e.len() ==> b[i] == e[i]);
    assert(b.skip(e.len() as int) =~= rest);
}

/// What `unescape_first` accepts is what `escape_byte` writes for the byte it
/// returns.
pub proof fn lemma_escape_unescaped(b: Seq<u8>)
    ensures
        unescape_first(b) matches Some((v, n)) ==> 0 < n <= b.len() && b.subrange(0, n)
            == escape_byte(v),
{
    match unescape_first(b) {
        Some((v, n)) => {
            assert(b.subrange(0, n) =~= escape_byte(v));
        },
        None => {},
    }
}

/// Writing is done byte by byte, so it may be split anywhere.
pub proof fn lemma_escape_concat(a: Seq<u8>, b: Seq<u8>)
    ensures
        escape(a + b) == escape(a) + escape(b),
    decreases a.len(),
{
    if a.len() == 0 {
        assert(a + b =~= b);
        assert(escape(a) + escape(b) =~= escape(b));
    } else {
        lemma_escape_concat(a.skip(1), b);
        assert((a + b).skip(1) =~= a.skip(1) + b);
        assert(escape(a + b) =~= escape(a) + escape(b));
    }
}

/// What is written for a run of bytes is at least as long as the run, and
/// at most six times as long.
pub proof fn lemma_escape_length(s: Seq<u8>)
    ensures
        s.len() <= escape(s).len() <= 6 * s.len(),
    decreases s.len(),
{
    if s.len() > 0 {
        lemma_escape_length(s.skip(1));
    }
}

/// Bytes below `0x80` are UTF-8.
pub proof fn lemma_ascii_is_utf8(s: Seq<u8>)
    requires
        forall|i: int| 0 <= i < s.len() ==> s[i] < 0x80,
    ensures
        valid_utf8(s),
    decreases s.len(),
{
    if s.len() > 0 {
        let b = s[0];
        assert((b & 0x7f) < 0x80) by (bit_vector);
        assert(valid_first_scalar(s));
        assert(pop_first_scalar(s) =~= s.skip(1));
        lemma_ascii_is_utf8(s.skip(1));
    }
}

/// Bytes from `0x80` on are written as they are.
proof fn lemma_escape_high(s: Seq<u8>)
    requires
        forall|i: int| 0 <= i < s.len() ==> s[i] >= 0x80,
    ensures
        escape(s) == s,
    decreases s.len(),
{
    if s.len() > 0 {
        lemma_escape_high(s.skip(1));
        assert(escape(s) =~= s);
    } else {
        assert(escape(s) =~= s);
    }
}

/// What is written for UTF-8 is UTF-8.
pub proof fn lemma_escape_keeps_utf8(s: Seq<u8>)
    requires
        valid_utf8(s),
    ensures
        valid_utf8(escape(s)),
    decreases s.len(),
{
    if s.len() > 0 {
        let k = length_of_first_scalar(s);
        let first = take_first_scalar(s);
        let rest = pop_first_scalar(s);
        assert(s =~= first + rest);
        lemma_escape_concat(first, rest);
        lemma_escape_keeps_utf8(rest);
        if k == 1 {
            assert(first.skip(1) =~= Seq::<u8>::empty());
            assert(escape(first.skip(1)) =~= Seq::<u8>::empty());
            assert(escape(first) =~= escape_byte(s[0]));
            lemma_ascii_is_utf8(escape(first));
        } else {
            lemma_escape_high(first);
            assert(valid_first_scalar(first));
            assert(pop_first_scalar(first) =~= Seq::<u8>::empty());
            assert(valid_utf8(pop_first_scalar(first)));
            assert(valid_utf8(first));
        }
        assert(valid_utf8(escape(first)));
        valid_utf8_concat(escape(first), escape(rest));
    }
}

/// Written content, its closing quote and anything behind it are read back
/// as the content.
pub proof fn lemma_scan_escaped(s: Seq<u8>, rest: Seq<u8>)
    ensures
        scan(escape(s) + seq![QUOTE] + rest) == Some((s, escape(s).len() as int + 1)),
    decreases s.len(),
{
    let b = escape(s) + seq![QUOTE] + rest;
    if s.len() == 0 {
        assert(b[0] == QUOTE);
        assert(s =~= Seq::empty());
    } else {
        let v = s[0];
        let tail = s.skip(1);
        let behind = escape(tail) + seq![QUOTE] + rest;
        assert(b =~= escape_byte(v) + behind);
        lemma_unescape_escaped(v, behind);
        lemma_scan_escaped(tail, rest);
        assert(seq![v] + tail =~= s);
    }
}

/// What `scan` accepts is written content followed by a closing quote.
pub proof fn lemma_scan_sound(b: Seq<u8>)
    ensures
        scan(b) matches Some((s, m)) ==> 1 <= m <= b.len() && b.subrange(0, m) == escape(s)
            + seq![QUOTE],
    decreases b.len(),
{
    if b.len() == 0 {
    } else if b[0] == QUOTE {
        assert(b.subrange(0, 1) =~= escape(Seq::empty()) + seq![QUOTE]);
    } else {
        match unescape_first(b) {
            Some((v, n)) => {
                if 0 < n <= b.len() {
                    lemma_escape_unescaped(b);
                    lemma_scan_sound(b.skip(n));
                    match scan(b.skip(n)) {
                        Some((rest, m)) => {
                            let s = seq![v] + rest;
                            assert(s.skip(1) =~= rest);
                            assert(b.subrange(0, n + m) =~= b.subrange(0, n) + b.skip(
                                n,
                            ).subrange(0, m));
                            assert(escape(s) + seq![QUOTE] =~= escape_byte(v) + (escape(rest)
                                + seq![QUOTE]));
                        },
                        None => {},
                    }
                }
            },
            None => {},
        }
    }
}

/// The letter of the two-byte escape of `b`, where it has one.
fn short_escape_of(b: u8) -> (r: Option<u8>)
    ensures
        r == short_escape(b),
{
    if b == QUOTE {
        Some(QUOTE)
    } else if b == BACKSLASH {
        Some(BACKSLASH)
    } else if b == 0x08 {
        Some('b' as u8)
    } else if b == 0x09 {
        Some('t' as u8)
    } else if b == 0x0a {
        Some('n' as u8)
    } else if b == 0x0c {
        Some('f' as u8)
    } else if b == 0x0d {
        Some('r' as u8)
    } else {
        None
    }
}

/// The byte whose two-byte escape ends in `letter`, where there is one.
fn short_unescape_of(letter: u8) -> (r: Option<u8>)
    ensures
        r == short_unescape(letter),
{
    if letter == QUOTE {
        Some(QUOTE)
    } else if letter == BACKSLASH {
        Some(BACKSLASH)
    } else if letter == 'b' as u8 {
        Some(0x08)
    } else if letter == 't' as u8 {
        Some(0x09)
    } else if letter == 'n' as u8 {
        Some(0x0a)
    } else if letter == 'f' as u8 {
        Some(0x0c)
    } else if letter == 'r' as u8 {
        Some(0x0d)
    } else {
        None
    }
}

/// The lower-case hexadecimal digit for `n`.
fn hex_digit(n: u8) -> (d: u8)
    requires
        n < 16,
    ensures
        d == hex_byte(n as int),
{
    if n < 10 {
        '0' as u8 + n
    } else {
        'a' as u8 + (n - 10)
    }
}

/// The number that a lower-case hexadecimal digit stands for.
fn hex_number_of(digit: u8) -> (r: Option<u8>)
    ensures
        match r {
            Some(n) => hex_number(digit) == Some(n as int),
            None => hex_number(digit) is None,
        },
{
    if '0' as u8 <= digit && digit <= '9' as u8 {
        Some(digit - '0' as u8)
    } else if 'a' as u8 <= digit && digit <= 'f' as u8 {
        Some(digit - 'a' as u8 + 10)
    } else {
        None
    }
}

/// The control byte that the last two digits of a `\u00..` escape spell.
fn control_code_of(high: u8, low: u8) -> (r: Option<u8>)
    ensures
        r == control_code(high, low),
{
    match (hex_number_of(high), hex_number_of(low)) {
        (Some(h), Some(l)) => {
            if h < 2 {
                let v: u8 = 16 * h + l;
                if short_escape_of(v).is_none() {
                    Some(v)
                } else {
                    None
                }
            } else {
                None
            }
        },
        _ => None,
    }
}

/// Appends to `out` what `text` is written as inside a quoted string.
pub fn write_escaped(out: &mut Vec<u8>, text: &[u8])
    ensures
        final(out)@ == old(out)@ + escape(text@),
{
    let mut i: usize = 0;
    assert(text@.subrange(0, 0) =~= Seq::empty());
    while i < text.len()
        invariant
            i <= text.len(),
            out@ == old(out)@ + escape(text@.subrange(0, i as int)),
        decreases text.len() - i,
    {
        let b = text[i];
        let ghost before = out@;
        match short_escape_of(b) {
            Some(letter) => {
                out.push(BACKSLASH);
                out.push(letter);
            },
            None => {
                if b < 0x20 {
                    out.push(BACKSLASH);
                    out.push('u' as u8);
                    out.push('0' as u8);
                    out.push('0' as u8);
                    out.push(hex_digit(b / 16));
                    out.push(hex_digit(b % 16));
                } else {
                    out.push(b);
                }
            },
        }
        proof {
            let done = text@.subrange(0, i as int);
            assert(out@ =~= before + escape_byte(b));
            assert(text@.subrange(0, i + 1) =~= done + seq![b]);
            lemma_escape_concat(done, seq![b]);
            let one = seq![b];
            assert(one.len() == 1 && one[0] == b);
            assert(one.skip(1) =~= Seq::empty());
            assert(escape(one.skip(1)) =~= Seq::empty());
            assert(escape(one) =~= escape_byte(b));
        }
        i += 1;
    }
    assert(text@.subrange(0, i as int) =~= text@);
}

/// Reads one escaped byte at `at`: the byte and the number of bytes that
/// spell it.
fn unescape_at(bytes: &[u8], at: usize) -> (r: Option<(u8, usize)>)
    requires
        at < bytes.len(),
    ensures
        match r {
            Some((v, n)) => unescape_first(bytes@.skip(at as int)) == Some((v, n as int)) && 0 < n
                && at + n <= bytes.len(),
            None => unescape_first(bytes@.skip(at as int)) is None,
        },
{
    let ghost b = bytes@.skip(at as int);
    let left = bytes.len() - at;
    let first = bytes[at];
    assert(b[0] == first);
    if first == BACKSLASH {
        if left < 2 {
            return None;
        }
        let second = bytes[at + 1];
        assert(b[1] == second);
        match short_unescape_of(second) {
            Some(v) => Some((v, 2)),
            None => {
                if second == 'u' as u8 && left >= 6 {
                    assert(b[2] == bytes@[at + 2] && b[3] == bytes@[at + 3] && b[4] == bytes@[at
                        + 4] && b[5] == bytes@[at + 5]);
                    if bytes[at + 2] == '0' as u8 && bytes[at + 3] == '0' as u8 {
                        match control_code_of(bytes[at + 4], bytes[at + 5]) {
                            Some(v) => Some((v, 6)),
                            None => None,
                        }
                    } else {
                        None
                    }
                } else {
                    None
                }
            },
        }
    } else if first < 0x20 || first == QUOTE {
        None
    } else {
        Some((first, 1))
    }
}

/// Puts what was read before `b` in front of what is read from `b` on.
pub open spec fn scan_after(done: Seq<u8>, used: int, b: Seq<u8>) -> Option<(Seq<u8>, int)> {
    match scan(b) {
        Some((rest, m)) => Some((done + rest, used + m)),
        None => None,
    }
}

/// Reads a quoted string's content that begins at `start`, just behind the
/// opening quote: the bytes that it spells and the index behind the closing
/// quote.
pub fn scan_string(bytes: &[u8], start: usize) -> (r: Option<(Vec<u8>, usize)>)
    requires
        start <= bytes.len(),
    ensures
        match r {
            Some((content, end)) => start < end <= bytes.len() && scan(bytes@.skip(start as int))
                == Some((content@, end - start)),
            None => scan(bytes@.skip(start as int)) is None,
        },
{
    let ghost whole = bytes@.skip(start as int);
    let mut content: Vec<u8> = Vec::new();
    let mut i: usize = start;
    assert(scan_after(content@, 0, whole) == scan(whole)) by {
        match scan(whole) {
            Some((rest, m)) => {
                assert(content@ + rest =~= rest);
            },
            None => {},
        }
    }
    while i < bytes.len()
        invariant
            start <= i <= bytes.len(),
            whole == bytes@.skip(start as int),
            scan(whole) == scan_after(content@, i - start, bytes@.skip(i as int)),
        decreases bytes.len() - i,
    {
        let ghost here = bytes@.skip(i as int);
        assert(here[0] == bytes@[i as int]);
        if bytes[i] == QUOTE {
            proof {
                assert(content@ + Seq::<u8>::empty() =~= content@);
            }
            return Some((content, i + 1));
        }
        match unescape_at(bytes, i) {
            Some((v, n)) => {
                proof {
                    assert(here.skip(n as int) =~= bytes@.skip(i + n));
                    match scan(bytes@.skip(i + n)) {
                        Some((rest, m)) => {
                            assert(content@ + (seq![v] + rest) =~= content@.push(v) + rest);
                        },
                        None => {},
                    }
                }
                content.push(v);
                i += n;
            },
            None => {
                return None;
            },
        }
    }
    assert(bytes@.skip(i as int).len() == 0);
    None
}

} // verus!
