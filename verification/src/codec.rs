//! The written form of a record: an object of three members, `game_id`,
//! `game_name` and `parent`, each on a line of its own.
//!
//! `encode` writes one form for each record, and `decode` reads back exactly
//! that form and no other.

use crate::block_id::{id_text, lemma_text_round_trip, parse_id_text, BlockId};
use crate::error::MalformedRecord;
use crate::escape::{
    escape, lemma_scan_escaped, lemma_scan_sound, scan, scan_string, write_escaped, QUOTE,
};
use crate::payload::{string_from_utf8, TaggedData};
use vstd::prelude::*;
use vstd::string::StringSliceAdditionalSpecFns;
use vstd::utf8::{
    decode_utf8, encode_utf8, encode_utf8_decode_utf8, encode_utf8_valid_utf8,
    is_ascii_chars_encode_utf8, valid_utf8,
};

verus! {

/// What a record says: the game it is about, and the record before it.
#[derive(Clone, Debug, PartialEq, Eq)]
pub struct GameInfo {
    pub game_id: String,
    pub game_name: String,
    /// The record before this one; `None` in the first record of a chain.
    pub parent: Option<BlockId>,
}

/// A record as contracts speak of it.
#[verifier::ext_equal]
pub struct GameInfoView {
    pub game_id: Seq<char>,
    pub game_name: Seq<char>,
    pub parent: Option<BlockId>,
}

impl View for GameInfo {
    type V = GameInfoView;

    open spec fn view(&self) -> GameInfoView {
        GameInfoView {
            game_id: self.game_id@,
            game_name: self.game_name@,
            parent: self.parent,
        }
    }
}

/// What stands before the game's identifier.
pub const HEAD: &'static str = "{\n  \"game_id\": ";

/// What stands between the game's identifier and its name.
pub const BEFORE_NAME: &'static str = ",\n  \"game_name\": ";

/// What stands between the game's name and the parent.
pub const BEFORE_PARENT: &'static str = ",\n  \"parent\": ";

/// What stands for the parent of a record that has none.
pub const NO_PARENT: &'static str = "null";

/// What stands behind the parent.
pub const TAIL: &'static str = "\n}";

pub open spec fn head() -> Seq<u8> {
    HEAD.spec_bytes()
}

pub open spec fn before_name() -> Seq<u8> {
    BEFORE_NAME.spec_bytes()
}

pub open spec fn before_parent() -> Seq<u8> {
    BEFORE_PARENT.spec_bytes()
}

pub open spec fn no_parent() -> Seq<u8> {
    NO_PARENT.spec_bytes()
}

pub open spec fn tail() -> Seq<u8> {
    TAIL.spec_bytes()
}

/// A text between double quotes.
pub open spec fn quoted(text: Seq<char>) -> Seq<u8> {
    seq![QUOTE] + escape(encode_utf8(text)) + seq![QUOTE]
}

/// How the member `parent` is written: the identifier's text between quotes,
/// or `null`.
pub open spec fn parent_json(parent: Option<BlockId>) -> Seq<u8> {
    match parent {
        Some(p) => quoted(id_text(p@)),
        None => no_parent(),
    }
}

/// The written form of a record.
pub open spec fn encode_spec(g: GameInfoView) -> Seq<u8> {
    head() + quoted(g.game_id) + before_name() + quoted(g.game_name) + before_parent()
        + parent_json(g.parent) + tail()
}

/// The record that `bytes` is the written form of, if it is that of any.
#[verifier::opaque]
pub open spec fn decode_spec(bytes: Seq<u8>) -> Option<GameInfoView> {
    if exists|g: GameInfoView| encode_spec(g) == bytes {
        Some(choose|g: GameInfoView| encode_spec(g) == bytes)
    } else {
        None
    }
}

/// What is left of `b` behind `lit`, where `b` begins with it.
#[verifier::opaque]
pub open spec fn strip(lit: Seq<u8>, b: Seq<u8>) -> Option<Seq<u8>> {
    if lit.len() <= b.len() && b.subrange(0, lit.len() as int) == lit {
        Some(b.skip(lit.len() as int))
    } else {
        None
    }
}

/// Reads a quoted text from the front of `b`: the text, and what is left.
#[verifier::opaque]
pub open spec fn parse_text(b: Seq<u8>) -> Option<(Seq<char>, Seq<u8>)> {
    if b.len() > 0 && b[0] == QUOTE {
        match scan(b.skip(1)) {
            Some((content, m)) if valid_utf8(content) => Some(
                (decode_utf8(content), b.skip(1 + m)),
            ),
            _ => None,
        }
    } else {
        None
    }
}

/// Reads the member `parent` from the front of `b`.
#[verifier::opaque]
pub open spec fn parse_parent(b: Seq<u8>) -> Option<(Option<BlockId>, Seq<u8>)> {
    if b.len() > 0 && b[0] == QUOTE {
        match parse_text(b) {
            Some((text, rest)) => match parse_id_text(text) {
                Some(p) if id_text(p@) == text => Some((Some(p), rest)),
                _ => None,
            },
            None => None,
        }
    } else {
        match strip(no_parent(), b) {
            Some(rest) => Some((None, rest)),
            None => None,
        }
    }
}

/// Reads a record member by member; `None` where anything is out of place.
pub open spec fn parse_record(b: Seq<u8>) -> Option<GameInfoView> {
    match strip(head(), b) {
        Some(b1) => match parse_text(b1) {
            Some((game_id, b2)) => match strip(before_name(), b2) {
                Some(b3) => match parse_text(b3) {
                    Some((game_name, b4)) => match strip(before_parent(), b4) {
                        Some(b5) => match parse_parent(b5) {
                            Some((parent, b6)) => match strip(tail(), b6) {
                                Some(b7) if b7.len() == 0 => Some(
                                    GameInfoView { game_id, game_name, parent },
                                ),
                                _ => None,
                            },
                            None => None,
                        },
                        None => None,
                    },
                    None => None,
                },
                None => None,
            },
            None => None,
        },
        None => None,
    }
}

proof fn lemma_strip(lit: Seq<u8>, rest: Seq<u8>)
    ensures
        strip(lit, lit + rest) == Some(rest),
{
    reveal(strip);
    let b = lit + rest;
    assert(b.subrange(0, lit.len() as int) =~= lit);
    assert(b.skip(lit.len() as int) =~= rest);
}

proof fn lemma_strip_sound(lit: Seq<u8>, b: Seq<u8>)
    ensures
        strip(lit, b) matches Some(rest) ==> b == lit + rest,
{
    reveal(strip);
    if strip(lit, b) is Some {
        assert(b =~= b.subrange(0, lit.len() as int) + b.skip(lit.len() as int));
    }
}

proof fn lemma_parse_text(text: Seq<char>, rest: Seq<u8>)
    ensures
        parse_text(quoted(text) + rest) == Some((text, rest)),
{
    reveal(parse_text);
    let content = encode_utf8(text);
    let b = quoted(text) + rest;
    assert(b[0] == QUOTE);
    assert(b.skip(1) =~= escape(content) + seq![QUOTE] + rest);
    lemma_scan_escaped(content, rest);
    encode_utf8_valid_utf8(text);
    encode_utf8_decode_utf8(text);
    assert(b.skip(1 + (escape(content).len() as int + 1)) =~= rest);
}

proof fn lemma_parse_text_sound(b: Seq<u8>)
    ensures
        parse_text(b) matches Some((text, rest)) ==> b == quoted(text) + rest,
{
    reveal(parse_text);
    match parse_text(b) {
        Some((text, rest)) => {
            lemma_scan_sound(b.skip(1));
            let (content, m) = scan(b.skip(1))->0;
            vstd::utf8::decode_utf8_encode_utf8(content);
            assert(b =~= seq![QUOTE] + b.skip(1).subrange(0, m) + b.skip(1 + m));
            assert(b =~= quoted(text) + rest);
        },
        None => {},
    }
}

/// How long the fixed parts of the written form are, and that what stands
/// for no parent does not begin with a quote.
pub proof fn lemma_fixed_parts()
    ensures
        head().len() == 15,
        before_name().len() == 17,
        before_parent().len() == 14,
        no_parent().len() == 4,
        tail().len() == 2,
        no_parent()[0] != QUOTE,
{
    reveal_strlit("{\n  \"game_id\": ");
    reveal_strlit(",\n  \"game_name\": ");
    reveal_strlit(",\n  \"parent\": ");
    reveal_strlit("null");
    reveal_strlit("\n}");
    is_ascii_chars_encode_utf8(HEAD@);
    is_ascii_chars_encode_utf8(BEFORE_NAME@);
    is_ascii_chars_encode_utf8(BEFORE_PARENT@);
    is_ascii_chars_encode_utf8(NO_PARENT@);
    is_ascii_chars_encode_utf8(TAIL@);
}

proof fn lemma_parse_parent(parent: Option<BlockId>, rest: Seq<u8>)
    ensures
        parse_parent(parent_json(parent) + rest) == Some((parent, rest)),
{
    reveal(parse_parent);
    let b = parent_json(parent) + rest;
    match parent {
        Some(p) => {
            assert(b[0] == QUOTE);
            lemma_parse_text(id_text(p@), rest);
            lemma_text_round_trip(p);
        },
        None => {
            lemma_fixed_parts();
            assert(b[0] == no_parent()[0]);
            lemma_strip(no_parent(), rest);
        },
    }
}

proof fn lemma_parse_parent_sound(b: Seq<u8>)
    ensures
        parse_parent(b) matches Some((parent, rest)) ==> b == parent_json(parent) + rest,
{
    reveal(parse_parent);
    if b.len() > 0 && b[0] == QUOTE {
        lemma_parse_text_sound(b);
    } else {
        lemma_strip_sound(no_parent(), b);
    }
}

/// The written form of a record, member by member from the back.
proof fn lemma_written_in_parts(g: GameInfoView)
    ensures
        encode_spec(g) == head() + (quoted(g.game_id) + (before_name() + (quoted(g.game_name) + (
        before_parent() + (parent_json(g.parent) + tail()))))),
{
    assert(encode_spec(g) =~= head() + (quoted(g.game_id) + (before_name() + (quoted(g.game_name)
        + (before_parent() + (parent_json(g.parent) + tail()))))));
}

/// Reading the written form of a record gives the record.
proof fn lemma_parse_written(g: GameInfoView)
    ensures
        parse_record(encode_spec(g)) == Some(g),
{
    let b6 = tail();
    let b5 = parent_json(g.parent) + b6;
    let b4 = before_parent() + b5;
    let b3 = quoted(g.game_name) + b4;
    let b2 = before_name() + b3;
    let b1 = quoted(g.game_id) + b2;
    lemma_written_in_parts(g);
    lemma_strip(head(), b1);
    lemma_parse_text(g.game_id, b2);
    lemma_strip(before_name(), b3);
    lemma_parse_text(g.game_name, b4);
    lemma_strip(before_parent(), b5);
    lemma_parse_parent(g.parent, b6);
    assert(b6 =~= tail() + Seq::<u8>::empty());
    lemma_strip(tail(), Seq::<u8>::empty());
}

/// What is read as a record is the written form of that record.
proof fn lemma_parse_sound(b: Seq<u8>)
    ensures
        parse_record(b) matches Some(g) ==> encode_spec(g) == b,
{
    if let Some(g) = parse_record(b) {
        let b1 = strip(head(), b)->0;
        let (game_id, b2) = parse_text(b1)->0;
        let b3 = strip(before_name(), b2)->0;
        let (game_name, b4) = parse_text(b3)->0;
        let b5 = strip(before_parent(), b4)->0;
        let (parent, b6) = parse_parent(b5)->0;
        let b7 = strip(tail(), b6)->0;
        lemma_strip_sound(head(), b);
        lemma_parse_text_sound(b1);
        lemma_strip_sound(before_name(), b2);
        lemma_parse_text_sound(b3);
        lemma_strip_sound(before_parent(), b4);
        lemma_parse_parent_sound(b5);
        lemma_strip_sound(tail(), b6);
        assert(b6 == tail()) by {
            assert(b7 =~= Seq::<u8>::empty());
            assert(tail() + b7 =~= tail());
        }
        lemma_written_in_parts(g);
    }
}

/// The written form of a record is longer than its two texts by 56 bytes at
/// least, and is no longer than six times the two texts and 450 bytes more.
pub proof fn lemma_written_length(g: GameInfoView)
    ensures
        56 + encode_utf8(g.game_id).len() + encode_utf8(g.game_name).len() <= encode_spec(
            g,
        ).len() <= 450 + 6 * (encode_utf8(g.game_id).len() + encode_utf8(g.game_name).len()),
{
    lemma_fixed_parts();
    crate::escape::lemma_escape_length(encode_utf8(g.game_id));
    crate::escape::lemma_escape_length(encode_utf8(g.game_name));
    if let Some(p) = g.parent {
        crate::block_id::lemma_same_bytes(p, p);
        crate::block_id::lemma_id_text_ascii(p@);
        crate::escape::lemma_escape_length(encode_utf8(id_text(p@)));
    }
}

/// A text between double quotes is UTF-8.
proof fn lemma_quoted_is_text(text: Seq<char>)
    ensures
        valid_utf8(quoted(text)),
{
    encode_utf8_valid_utf8(text);
    crate::escape::lemma_escape_keeps_utf8(encode_utf8(text));
    crate::escape::lemma_ascii_is_utf8(seq![QUOTE]);
    vstd::utf8::valid_utf8_concat(seq![QUOTE], escape(encode_utf8(text)));
    vstd::utf8::valid_utf8_concat(seq![QUOTE] + escape(encode_utf8(text)), seq![QUOTE]);
}

/// The written form of a record is UTF-8.
pub proof fn lemma_written_is_text(g: GameInfoView)
    ensures
        valid_utf8(encode_spec(g)),
{
    encode_utf8_valid_utf8(HEAD@);
    encode_utf8_valid_utf8(BEFORE_NAME@);
    encode_utf8_valid_utf8(BEFORE_PARENT@);
    encode_utf8_valid_utf8(NO_PARENT@);
    encode_utf8_valid_utf8(TAIL@);
    lemma_quoted_is_text(g.game_id);
    lemma_quoted_is_text(g.game_name);
    if let Some(p) = g.parent {
        lemma_quoted_is_text(id_text(p@));
    }
    let a1 = head() + quoted(g.game_id);
    let a2 = a1 + before_name();
    let a3 = a2 + quoted(g.game_name);
    let a4 = a3 + before_parent();
    let a5 = a4 + parent_json(g.parent);
    vstd::utf8::valid_utf8_concat(head(), quoted(g.game_id));
    vstd::utf8::valid_utf8_concat(a1, before_name());
    vstd::utf8::valid_utf8_concat(a2, quoted(g.game_name));
    vstd::utf8::valid_utf8_concat(a3, before_parent());
    vstd::utf8::valid_utf8_concat(a4, parent_json(g.parent));
    vstd::utf8::valid_utf8_concat(a5, tail());
}

/// Bytes that are the written form of a record are UTF-8.
pub proof fn lemma_record_is_text(bytes: Seq<u8>)
    requires
        decode_spec(bytes) is Some,
    ensures
        valid_utf8(bytes),
{
    reveal(decode_spec);
    lemma_written_is_text(decode_spec(bytes)->0);
}

/// Reading member by member finds the record that the bytes are the written
/// form of, and fails where they are that of none.
pub proof fn lemma_decode_is_parse(b: Seq<u8>)
    ensures
        decode_spec(b) == parse_record(b),
{
    reveal(decode_spec);
    lemma_parse_sound(b);
    if exists|g: GameInfoView| encode_spec(g) == b {
        let g = choose|g: GameInfoView| encode_spec(g) == b;
        lemma_parse_written(g);
    }
}

/// A record that is written and read back is the same record.
pub proof fn lemma_round_trip(g: GameInfoView)
    ensures
        decode_spec(encode_spec(g)) == Some(g),
{
    lemma_parse_written(g);
    lemma_decode_is_parse(encode_spec(g));
}

/// Two records with the same written form are the same record.
pub proof fn lemma_encode_injective(g: GameInfoView, h: GameInfoView)
    requires
        encode_spec(g) == encode_spec(h),
    ensures
        g == h,
{
    lemma_parse_written(g);
    lemma_parse_written(h);
}

/// Appends `text` between double quotes.
fn write_quoted(out: &mut Vec<u8>, text: &str)
    ensures
        final(out)@ == old(out)@ + quoted(text@),
{
    out.push(QUOTE);
    write_escaped(out, text.as_bytes());
    out.push(QUOTE);
    assert(out@ =~= old(out)@ + quoted(text@));
}

/// Writes a record.
pub fn encode(info: &GameInfo) -> (bytes: Vec<u8>)
    ensures
        bytes@ == encode_spec(info@),
{
    let mut out: Vec<u8> = Vec::new();
    out.extend_from_slice(HEAD.as_bytes());
    write_quoted(&mut out, info.game_id.as_str());
    out.extend_from_slice(BEFORE_NAME.as_bytes());
    write_quoted(&mut out, info.game_name.as_str());
    out.extend_from_slice(BEFORE_PARENT.as_bytes());
    match info.parent {
        Some(id) => {
            let text = id.to_string();
            write_quoted(&mut out, text.as_str());
        },
        None => {
            out.extend_from_slice(NO_PARENT.as_bytes());
        },
    }
    out.extend_from_slice(TAIL.as_bytes());
    assert(out@ =~= encode_spec(info@));
    out
}

/// Steps over `lit` at `at`, where the bytes from `at` on begin with it.
fn expect(bytes: &[u8], at: usize, lit: &str) -> (r: Option<usize>)
    requires
        at <= bytes.len(),
    ensures
        match r {
            Some(end) => at <= end <= bytes.len() && strip(
                lit.spec_bytes(),
                bytes@.skip(at as int),
            ) == Some(bytes@.skip(end as int)),
            None => strip(lit.spec_bytes(), bytes@.skip(at as int)) is None,
        },
{
    let want = lit.as_bytes();
    let ghost b = bytes@.skip(at as int);
    proof {
        reveal(strip);
    }
    if want.len() > bytes.len() - at {
        return None;
    }
    let mut i: usize = 0;
    while i < want.len()
        invariant
            i <= want.len(),
            want.len() <= bytes.len() - at,
            b == bytes@.skip(at as int),
            want@ == lit.spec_bytes(),
            forall|j: int| 0 <= j < i ==> b[j] == want@[j],
        decreases want.len() - i,
    {
        assert(b[i as int] == bytes@[at + i]);
        if bytes[at + i] != want[i] {
            proof {
                reveal(strip);
                assert(b.subrange(0, want@.len() as int)[i as int] != want@[i as int]);
            }
            return None;
        }
        i += 1;
    }
    proof {
        reveal(strip);
    }
    assert(b.subrange(0, want@.len() as int) =~= want@);
    assert(b.skip(want@.len() as int) =~= bytes@.skip(at + want@.len()));
    Some(at + want.len())
}

/// Reads a quoted text at `at`: the text and the index behind it.
fn read_text(bytes: &[u8], at: usize) -> (r: Option<(String, usize)>)
    requires
        at <= bytes.len(),
    ensures
        match r {
            Some((text, end)) => at <= end <= bytes.len() && parse_text(bytes@.skip(at as int))
                == Some((text@, bytes@.skip(end as int))),
            None => parse_text(bytes@.skip(at as int)) is None,
        },
{
    let ghost b = bytes@.skip(at as int);
    proof {
        reveal(parse_text);
    }
    if at >= bytes.len() || bytes[at] != QUOTE {
        return None;
    }
    assert(b.skip(1) =~= bytes@.skip(at + 1));
    match scan_string(bytes, at + 1) {
        Some((content, end)) => {
            assert(b.skip(1 + (end - (at + 1))) =~= bytes@.skip(end as int));
            match string_from_utf8(content) {
                Some(text) => {
                    proof {
                        encode_utf8_decode_utf8(text@);
                    }
                    Some((text, end))
                },
                None => None,
            }
        },
        None => None,
    }
}

/// Reads the member `parent` at `at`.
fn read_parent(bytes: &[u8], at: usize) -> (r: Option<(Option<BlockId>, usize)>)
    requires
        at <= bytes.len(),
    ensures
        match r {
            Some((parent, end)) => at <= end <= bytes.len() && parse_parent(
                bytes@.skip(at as int),
            ) == Some((parent, bytes@.skip(end as int))),
            None => parse_parent(bytes@.skip(at as int)) is None,
        },
{
    proof {
        reveal(parse_parent);
    }
    if at < bytes.len() && bytes[at] == QUOTE {
        match read_text(bytes, at) {
            Some((text, end)) => match BlockId::from_str(text.as_str()) {
                Some(id) => {
                    let written = id.to_string();
                    if written == text {
                        Some((Some(id), end))
                    } else {
                        None
                    }
                },
                None => None,
            },
            None => None,
        }
    } else {
        match expect(bytes, at, NO_PARENT) {
            Some(end) => Some((None, end)),
            None => None,
        }
    }
}

/// Reads a record, `None` where the bytes are not the written form of one.
fn read_record(bytes: &[u8]) -> (r: Option<GameInfo>)
    ensures
        match r {
            Some(info) => parse_record(bytes@) == Some(info@),
            None => parse_record(bytes@) is None,
        },
{
    assert(bytes@.skip(0) =~= bytes@);
    let at = expect(bytes, 0, HEAD)?;
    let (game_id, at) = read_text(bytes, at)?;
    let at = expect(bytes, at, BEFORE_NAME)?;
    let (game_name, at) = read_text(bytes, at)?;
    let at = expect(bytes, at, BEFORE_PARENT)?;
    let (parent, at) = read_parent(bytes, at)?;
    let at = expect(bytes, at, TAIL)?;
    if at != bytes.len() {
        return None;
    }
    Some(GameInfo { game_id, game_name, parent })
}

/// Reads a record back from its written form; `MalformedRecord` for bytes
/// that are the written form of no record.
pub fn decode(bytes: &[u8]) -> (r: Result<GameInfo, MalformedRecord>)
    ensures
        match r {
            Ok(info) => decode_spec(bytes@) == Some(info@),
            Err(_) => decode_spec(bytes@) is None,
        },
{
    proof {
        lemma_decode_is_parse(bytes@);
    }
    match read_record(bytes) {
        Some(info) => Ok(info),
        None => Err(MalformedRecord),
    }
}

/// The record that a payload's data is the written form of. Such data is
/// text: `get_string_payload` gives it.
pub fn get_json_payload(payload: &TaggedData) -> (r: Result<GameInfo, MalformedRecord>)
    ensures
        match r {
            Ok(info) => decode_spec(payload.spec_data()) == Some(info@) && valid_utf8(
                payload.spec_data(),
            ),
            Err(_) => decode_spec(payload.spec_data()) is None,
        },
{
    let r = decode(payload.data());
    proof {
        if r is Ok {
            lemma_record_is_text(payload.spec_data());
        }
    }
    r
}

} // verus!
