//! A tag and the data filed under it, as the ledger carries them.

use crate::error::{ChainError, MalformedRecord};
use vstd::prelude::*;
use vstd::utf8::{decode_utf8, encode_utf8, valid_utf8};

verus! {

/// The longest tag that the ledger takes.
pub const TAG_LENGTH_MAX: usize = 64;

/// The longest data that the ledger takes.
pub const DATA_LENGTH_MAX: usize = 32713;

/// Whether the ledger takes a tag and data of these lengths.
pub open spec fn within_limits(tag: Seq<u8>, data: Seq<u8>) -> bool {
    tag.len() <= TAG_LENGTH_MAX && data.len() <= DATA_LENGTH_MAX
}

/// `TaggedDataPayload::new` of `iota_client`. Claimed: it succeeds exactly
/// where the tag has at most 64 bytes and the data at most 32713.
#[verifier::external_body]
fn ledger_takes(tag: &Vec<u8>, data: &Vec<u8>) -> (ok: bool)
    ensures
        ok == within_limits(tag@, data@),
{
    iota_client::block::payload::TaggedDataPayload::new(tag.clone(), data.clone()).is_ok()
}

/// `String::from_utf8` of std. Claimed: it succeeds exactly on valid UTF-8,
/// and the string then holds the bytes it was given.
#[verifier::external_body]
pub(crate) fn string_from_utf8(bytes: Vec<u8>) -> (r: Option<String>)
    ensures
        r is Some <==> valid_utf8(bytes@),
        r matches Some(s) ==> encode_utf8(s@) == bytes@,
{
    String::from_utf8(bytes).ok()
}

/// A tag and data that the ledger takes.
#[derive(Debug, PartialEq, Eq)]
pub struct TaggedData {
    tag: Vec<u8>,
    data: Vec<u8>,
}

impl TaggedData {
    #[verifier::type_invariant]
    spec fn fits(&self) -> bool {
        within_limits(self.tag@, self.data@)
    }

    pub closed spec fn spec_tag(&self) -> Seq<u8> {
        self.tag@
    }

    pub closed spec fn spec_data(&self) -> Seq<u8> {
        self.data@
    }

    /// Files `data` under `tag`; `LedgerRejected` where the ledger would not
    /// take them.
    pub fn new(tag: Vec<u8>, data: Vec<u8>) -> (r: Result<TaggedData, ChainError>)
        ensures
            match r {
                Ok(payload) => within_limits(tag@, data@) && payload.spec_tag() == tag@
                    && payload.spec_data() == data@,
                Err(e) => !within_limits(tag@, data@) && e == ChainError::LedgerRejected,
            },
    {
        if ledger_takes(&tag, &data) {
            Ok(TaggedData { tag, data })
        } else {
            Err(ChainError::LedgerRejected)
        }
    }

    /// The tag.
    pub fn tag(&self) -> (tag: &[u8])
        ensures
            tag@ == self.spec_tag(),
            tag@.len() <= TAG_LENGTH_MAX,
    {
        proof {
            use_type_invariant(self);
        }
        self.tag.as_slice()
    }

    /// The data filed under the tag.
    pub fn data(&self) -> (data: &[u8])
        ensures
            data@ == self.spec_data(),
            data@.len() <= DATA_LENGTH_MAX,
    {
        proof {
            use_type_invariant(self);
        }
        self.data.as_slice()
    }
}

impl Clone for TaggedData {
    fn clone(&self) -> (copy: TaggedData)
        ensures
            copy.spec_tag() == self.spec_tag(),
            copy.spec_data() == self.spec_data(),
    {
        proof {
            use_type_invariant(self);
        }
        let tag = self.tag.clone();
        let data = self.data.clone();
        assert(tag@ =~= self.tag@);
        assert(data@ =~= self.data@);
        TaggedData { tag, data }
    }
}

/// The text that `bytes` spell, `None` where they are not UTF-8.
fn text_of(bytes: &[u8]) -> (r: Option<String>)
    ensures
        match r {
            Some(text) => valid_utf8(bytes@) && text@ == decode_utf8(bytes@),
            None => !valid_utf8(bytes@),
        },
{
    match string_from_utf8(vstd::slice::slice_to_vec(bytes)) {
        Some(text) => {
            proof {
                vstd::utf8::encode_utf8_decode_utf8(text@);
            }
            Some(text)
        },
        None => None,
    }
}

/// The text that a payload's data spells; `MalformedRecord` where the data
/// is not UTF-8.
pub fn get_string_payload(payload: &TaggedData) -> (r: Result<String, MalformedRecord>)
    ensures
        match r {
            Ok(text) => valid_utf8(payload.spec_data()) && text@ == decode_utf8(
                payload.spec_data(),
            ),
            Err(_) => !valid_utf8(payload.spec_data()),
        },
{
    match text_of(payload.data()) {
        Some(text) => Ok(text),
        None => Err(MalformedRecord),
    }
}

/// Whether tag and data of each payload are UTF-8.
pub open spec fn all_text(payloads: Seq<TaggedData>) -> bool {
    forall|i: int|
        0 <= i < payloads.len() ==> valid_utf8((#[trigger] payloads[i]).spec_tag()) && valid_utf8(
            payloads[i].spec_data(),
        )
}

/// Tag and data of each payload, as text.
pub open spec fn texts(payloads: Seq<TaggedData>) -> Seq<(Seq<char>, Seq<char>)> {
    Seq::new(
        payloads.len(),
        |i: int| (decode_utf8(payloads[i].spec_tag()), decode_utf8(payloads[i].spec_data())),
    )
}

/// The items of `s` in their order, each kept where it stands first.
pub open spec fn first_of_each<A>(s: Seq<A>) -> Seq<A>
    decreases s.len(),
{
    if s.len() == 0 {
        Seq::empty()
    } else {
        let before = first_of_each(s.drop_last());
        if before.contains(s.last()) {
            before
        } else {
            before.push(s.last())
        }
    }
}

/// Whether `pairs` holds this tag and data.
fn holds(pairs: &Vec<(String, String)>, tag: &String, data: &String) -> (r: bool)
    ensures
        r == pairs.deep_view().contains((tag@, data@)),
{
    let mut i: usize = 0;
    while i < pairs.len()
        invariant
            i <= pairs.len(),
            forall|j: int| 0 <= j < i ==> pairs.deep_view()[j] != (tag@, data@),
        decreases pairs.len() - i,
    {
        assert(pairs.deep_view()[i as int] == (pairs@[i as int].0@, pairs@[i as int].1@));
        if pairs[i].0 == *tag && pairs[i].1 == *data {
            return true;
        }
        i += 1;
    }
    false
}

/// Tag and data of the payloads as text, each pair once, in the order in
/// which they first come; `MalformedRecord` where a tag or data is not UTF-8.
pub fn unique_payloads(payloads: &Vec<TaggedData>) -> (r: Result<
    Vec<(String, String)>,
    MalformedRecord,
>)
    ensures
        match r {
            Ok(pairs) => all_text(payloads@) && pairs.deep_view() == first_of_each(
                texts(payloads@),
            ),
            Err(_) => !all_text(payloads@),
        },
{
    let mut pairs: Vec<(String, String)> = Vec::new();
    let mut i: usize = 0;
    assert(texts(payloads@).take(0) =~= Seq::empty());
    assert(pairs.deep_view() =~= Seq::empty());
    while i < payloads.len()
        invariant
            i <= payloads.len(),
            all_text(payloads@.take(i as int)),
            pairs.deep_view() == first_of_each(texts(payloads@).take(i as int)),
        decreases payloads.len() - i,
    {
        let tag = match text_of(payloads[i].tag()) {
            Some(tag) => tag,
            None => {
                return Err(MalformedRecord);
            },
        };
        let data = match text_of(payloads[i].data()) {
            Some(data) => data,
            None => {
                return Err(MalformedRecord);
            },
        };
        proof {
            let done = texts(payloads@).take(i as int);
            let now = texts(payloads@).take(i + 1);
            assert(now.drop_last() =~= done);
            assert(now.last() == (tag@, data@));
            assert forall|j: int| 0 <= j < i + 1 implies valid_utf8(
                (#[trigger] payloads@.take(i + 1)[j]).spec_tag(),
            ) && valid_utf8(payloads@.take(i + 1)[j].spec_data()) by {
                if j < i {
                    assert(payloads@.take(i + 1)[j] == payloads@.take(i as int)[j]);
                }
            }
        }
        if !holds(&pairs, &tag, &data) {
            let ghost before = pairs.deep_view();
            pairs.push((tag, data));
            assert(pairs.deep_view() =~= before.push((tag@, data@)));
        }
        i += 1;
    }
    assert(payloads@.take(i as int) =~= payloads@);
    assert(texts(payloads@).take(i as int) =~= texts(payloads@));
    Ok(pairs)
}

} // verus!
