//! Record identifiers and their text form.

use vstd::prelude::*;
use vstd::string::StringSliceAdditionalSpecFns;

verus! {

broadcast use vstd::array::group_array_axioms;

/// The sixteen digits that an identifier's text is written with.
pub open spec fn lower_hex() -> Seq<char> {
    seq!['0', '1', '2', '3', '4', '5', '6', '7', '8', '9', 'a', 'b', 'c', 'd', 'e', 'f']
}

/// The number that a hexadecimal digit stands for, in either case.
pub open spec fn hex_value(c: char) -> Option<int> {
    if '0' <= c <= '9' {
        Some(c as int - '0' as int)
    } else if 'a' <= c <= 'f' {
        Some(c as int - 'a' as int + 10)
    } else if 'A' <= c <= 'F' {
        Some(c as int - 'A' as int + 10)
    } else {
        None
    }
}

/// The text of an identifier: `0x`, then two lower-case digits for each byte,
/// the high half first.
pub open spec fn id_text(bytes: Seq<u8>) -> Seq<char> {
    seq!['0', 'x'] + Seq::new(
        2 * bytes.len(),
        |i: int|
            lower_hex()[if i % 2 == 0 {
                bytes[i / 2] as int / 16
            } else {
                bytes[i / 2] as int % 16
            }],
    )
}

/// Whether a text names an identifier: `0x` and exactly 64 hexadecimal digits.
pub open spec fn is_id_text(text: Seq<char>) -> bool {
    &&& text.len() == 66
    &&& text[0] == '0'
    &&& text[1] == 'x'
    &&& forall|i: int| 2 <= i < 66 ==> hex_value(#[trigger] text[i]) is Some
}

/// The 32 bytes that a text which names an identifier stands for.
pub open spec fn id_bytes(text: Seq<char>) -> Seq<u8> {
    Seq::new(
        32,
        |i: int| (16 * hex_value(text[2 + 2 * i])->0 + hex_value(text[3 + 2 * i])->0) as u8,
    )
}

/// What reading a text as an identifier gives.
pub open spec fn parse_id_text(text: Seq<char>) -> Option<BlockId> {
    if is_id_text(text) {
        Some(BlockId::of_bytes(id_bytes(text)))
    } else {
        None
    }
}

/// The error of `iota_client::block`. Nothing is claimed of it: it is only
/// told apart from success.
#[verifier::external_type_specification]
#[verifier::external_body]
pub struct ExBlockError(iota_client::block::Error);

/// `FromStr` of `iota_client::block::BlockId`, reached through `str::parse`.
/// Claimed, of a text of 66 bytes: it accepts exactly `0x` followed by 64
/// hexadecimal digits of either case, and returns the bytes they spell.
///
/// Other lengths are left out: on a text without the prefix the outside
/// parser takes the first two characters for its error, and does not return
/// where a text of two bytes or more is a single character.
#[verifier::external_body]
fn parse_hex(text: &str) -> (r: Result<[u8; 32], iota_client::block::Error>)
    requires
        text.spec_bytes().len() == 66,
    ensures
        r is Ok <==> is_id_text(text@),
        r matches Ok(bytes) ==> bytes@ == id_bytes(text@),
{
    text.parse::<iota_client::block::BlockId>().map(|id| *id)
}

/// `to_string` of `iota_client::block::BlockId`. Claimed: it writes `0x` and
/// two lower-case hexadecimal digits for each of the 32 bytes.
#[verifier::external_body]
fn format_hex(bytes: [u8; 32]) -> (r: String)
    ensures
        r@ == id_text(bytes@),
{
    iota_client::block::BlockId::new(bytes).to_string()
}

/// The identifier that the ledger assigns to a record.
#[derive(Clone, Copy, Debug, Eq, Hash)]
pub struct BlockId {
    pub bytes: [u8; 32],
}

impl View for BlockId {
    type V = Seq<u8>;

    open spec fn view(&self) -> Seq<u8> {
        self.bytes@
    }
}

impl BlockId {
    /// The identifier that is made of these bytes.
    pub closed spec fn of_bytes(bytes: Seq<u8>) -> BlockId {
        choose|id: BlockId| id@ == bytes
    }

    /// The identifier that is made of `bytes`.
    pub fn new(bytes: [u8; 32]) -> (id: BlockId)
        ensures
            id.bytes == bytes,
    {
        BlockId { bytes }
    }

    /// Reads an identifier from its text, `None` where the text names none.
    pub fn from_str(text: &str) -> (r: Option<BlockId>)
        ensures
            r == parse_id_text(text@),
            r is Some <==> is_id_text(text@),
            r matches Some(id) ==> id@ == id_bytes(text@),
    {
        if text.as_bytes().len() != 66 {
            proof {
                if is_id_text(text@) {
                    lemma_named_text_is_ascii(text@);
                }
            }
            return None;
        }
        match parse_hex(text) {
            Ok(bytes) => {
                let id = BlockId { bytes };
                proof {
                    lemma_of_view(id);
                    lemma_of_bytes(id_bytes(text@));
                }
                Some(id)
            },
            Err(_) => None,
        }
    }

    /// Writes the identifier as text.
    pub fn to_string(&self) -> (r: String)
        ensures
            r@ == id_text(self@),
    {
        format_hex(self.bytes)
    }
}

impl PartialEq for BlockId {
    fn eq(&self, other: &BlockId) -> (r: bool) {
        let mut i: usize = 0;
        while i < 32
            invariant
                i <= 32,
                forall|j: int| 0 <= j < i ==> self.bytes@[j] == other.bytes@[j],
            decreases 32 - i,
        {
            if self.bytes[i] != other.bytes[i] {
                return false;
            }
            i += 1;
        }
        assert(self.bytes@ =~= other.bytes@);
        true
    }
}

impl vstd::std_specs::cmp::PartialEqSpecImpl for BlockId {
    open spec fn obeys_eq_spec() -> bool {
        true
    }

    open spec fn eq_spec(&self, other: &BlockId) -> bool {
        self@ == other@
    }
}

/// Two identifiers with the same bytes are the same identifier.
pub proof fn lemma_same_bytes(a: BlockId, b: BlockId)
    ensures
        a@.len() == 32,
        (a@ == b@) <==> (a == b),
{
    if a@ == b@ {
        assert(a.bytes =~= b.bytes);
    }
}

/// A text that names an identifier is ASCII, and so has 66 bytes.
pub proof fn lemma_named_text_is_ascii(text: Seq<char>)
    requires
        is_id_text(text),
    ensures
        vstd::utf8::is_ascii_chars(text),
        vstd::utf8::encode_utf8(text).len() == 66,
{
    assert forall|i: int| 0 <= i < text.len() implies '\0' <= #[trigger] text[i] <= '\u{7f}' by {
        if i >= 2 {
            assert(hex_value(text[i]) is Some);
        }
    }
    vstd::utf8::is_ascii_chars_encode_utf8(text);
}

/// Each digit of `lower_hex` stands for its own position.
pub proof fn lemma_hex_digit_value(n: int)
    requires
        0 <= n < 16,
    ensures
        hex_value(lower_hex()[n]) == Some(n),
{
}

/// An array whose first `k` bytes are those of `bytes`.
proof fn array_of(bytes: Seq<u8>, k: int) -> (a: [u8; 32])
    requires
        bytes.len() == 32,
        0 <= k <= 32,
    ensures
        forall|i: int| 0 <= i < k ==> a@[i] == bytes[i],
    decreases k,
{
    if k == 0 {
        vstd::array::spec_array_fill_for_copy_type::<u8, 32>(0u8)
    } else {
        let before = array_of(bytes, k - 1);
        vstd::array::spec_array_update(before, k - 1, bytes[k - 1])
    }
}

/// Any 32 bytes are the bytes of an identifier, and `of_bytes` gives it.
pub proof fn lemma_of_bytes(bytes: Seq<u8>)
    requires
        bytes.len() == 32,
    ensures
        BlockId::of_bytes(bytes)@ == bytes,
{
    let a = array_of(bytes, 32);
    let id = BlockId { bytes: a };
    assert(id@ =~= bytes);
}

/// An identifier is the one that is made of its bytes.
pub proof fn lemma_of_view(id: BlockId)
    ensures
        BlockId::of_bytes(id@) == id,
{
    lemma_same_bytes(BlockId::of_bytes(id@), id);
}

/// Reading what `to_string` wrote gives the identifier back.
pub proof fn lemma_text_round_trip(id: BlockId)
    ensures
        parse_id_text(id_text(id@)) == Some(id),
{
    let bytes = id@;
    let text = id_text(bytes);
    assert forall|i: int| 2 <= i < 66 implies hex_value(#[trigger] text[i]) is Some by {
        let k = i - 2;
        let n = if k % 2 == 0 {
            bytes[k / 2] as int / 16
        } else {
            bytes[k / 2] as int % 16
        };
        assert(text[i] == lower_hex()[n]);
        lemma_hex_digit_value(n);
    }
    assert forall|i: int| 0 <= i < 32 implies id_bytes(text)[i] == bytes[i] by {
        let hi = bytes[i] as int / 16;
        let lo = bytes[i] as int % 16;
        assert(text[2 + 2 * i] == lower_hex()[hi]);
        assert(text[3 + 2 * i] == lower_hex()[lo]);
        lemma_hex_digit_value(hi);
        lemma_hex_digit_value(lo);
    }
    assert(id_bytes(text) =~= bytes);
    lemma_of_view(id);
}

/// The text of an identifier is ASCII, and so has one byte for each of its
/// characters: 66 for an identifier of 32 bytes.
pub proof fn lemma_id_text_ascii(bytes: Seq<u8>)
    ensures
        vstd::utf8::is_ascii_chars(id_text(bytes)),
        vstd::utf8::encode_utf8(id_text(bytes)).len() == 2 + 2 * bytes.len(),
{
    let text = id_text(bytes);
    assert forall|i: int| 0 <= i < text.len() implies '\0' <= #[trigger] text[i] <= '\u{7f}' by {
        if i >= 2 {
            let k = i - 2;
            let n = if k % 2 == 0 {
                bytes[k / 2] as int / 16
            } else {
                bytes[k / 2] as int % 16
            };
            assert(text[i] == lower_hex()[n]);
        }
    }
    vstd::utf8::is_ascii_chars_encode_utf8(text);
}

} // verus!
