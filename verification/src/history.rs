//! A whole walk, on a ledger that does not change: what it ends with when
//! every fetch is answered by the same ledger.
//!
//! Nothing here runs. `walk_spec` puts the walker's steps one after another,
//! and the lemmas say how such a walk ends on ledgers of a given shape.

use crate::block_id::BlockId;
use crate::codec::{decode_spec, encode_spec, lemma_encode_injective, lemma_round_trip};
use crate::error::ChainError;
use crate::publisher::{publish_spec, ActionView, ChainPublisher, EventView};
use crate::walker::{
    distinct, is_chain, lemma_done_is_chain, lemma_step_well_formed, step_spec, visited,
    FetchedView, RecordView, StepView, WalkerView,
};
use vstd::prelude::*;

verus! {

/// How a walk that stands at `w` ends on `ledger`, if it ends within `fuel`
/// fetches.
pub open spec fn walk_from(
    ledger: spec_fn(BlockId) -> FetchedView,
    w: WalkerView,
    fuel: nat,
) -> Option<Result<Seq<RecordView>, ChainError>>
    decreases fuel,
{
    if fuel == 0 {
        None
    } else {
        match step_spec(w, ledger(w.next)) {
            StepView::Fetch(after) => walk_from(ledger, after, (fuel - 1) as nat),
            StepView::Done(records) => Some(Ok(records)),
            StepView::Failed(e) => Some(Err(e)),
        }
    }
}

/// How the walk from `start` ends on `ledger`, if it ends within `fuel`
/// fetches.
pub open spec fn walk_spec(ledger: spec_fn(BlockId) -> FetchedView, start: BlockId, fuel: nat)
    -> Option<Result<Seq<RecordView>, ChainError>> {
    walk_from(ledger, WalkerView::begin(start), fuel)
}

/// Each of `records` names the one before it as its parent, and `ledger`
/// holds each of them in its written form.
pub open spec fn holds_linked(ledger: spec_fn(BlockId) -> FetchedView, records: Seq<RecordView>)
    -> bool {
    &&& forall|i: int|
        0 < i < records.len() ==> (#[trigger] records[i]).info.parent == Some(
            records[i - 1].identifier,
        )
    &&& forall|i: int|
        0 <= i < records.len() ==> ledger((#[trigger] records[i]).identifier)
            == FetchedView::Found(encode_spec(records[i].info))
}

/// The walk that began at the last of `records` and has read all of them,
/// and is about to fetch `next`.
pub open spec fn after_reading(records: Seq<RecordView>, next: BlockId) -> WalkerView {
    WalkerView {
        start: if records.len() > 0 {
            records.last().identifier
        } else {
            next
        },
        next,
        found: records.reverse(),
    }
}

/// A walk that has ended within some number of fetches ends the same way
/// when it is given more.
pub proof fn lemma_more_fuel(
    ledger: spec_fn(BlockId) -> FetchedView,
    w: WalkerView,
    fuel: nat,
    more: nat,
)
    requires
        walk_from(ledger, w, fuel) is Some,
        fuel <= more,
    ensures
        walk_from(ledger, w, more) == walk_from(ledger, w, fuel),
    decreases fuel,
{
    if let StepView::Fetch(after) = step_spec(w, ledger(w.next)) {
        lemma_more_fuel(ledger, after, (fuel - 1) as nat, (more - 1) as nat);
    }
}

/// On a ledger that does not change, a walk from one record ends in one way:
/// whatever two numbers of fetches it is given, where it ends within both, it
/// ends the same.
pub proof fn lemma_walk_is_one(
    ledger: spec_fn(BlockId) -> FetchedView,
    start: BlockId,
    fuel: nat,
    other: nat,
)
    requires
        walk_spec(ledger, start, fuel) is Some,
        walk_spec(ledger, start, other) is Some,
    ensures
        walk_spec(ledger, start, fuel) == walk_spec(ledger, start, other),
{
    if fuel <= other {
        lemma_more_fuel(ledger, WalkerView::begin(start), fuel, other);
    } else {
        lemma_more_fuel(ledger, WalkerView::begin(start), other, fuel);
    }
}

/// `ledger` holds a payload under the identifier of each of `records`, and
/// that payload's data is the written form of what the record says.
pub open spec fn read_from(ledger: spec_fn(BlockId) -> FetchedView, records: Seq<RecordView>)
    -> bool {
    forall|i: int|
        0 <= i < records.len() ==> ledger((#[trigger] records[i]).identifier) is Found
            && decode_spec(ledger(records[i].identifier)->Found_0) == Some(records[i].info)
}

/// A walk that is well-formed, and has read its records from the ledger,
/// ends with a chain that was read from the ledger, where it ends well.
proof fn lemma_walk_result_from(
    ledger: spec_fn(BlockId) -> FetchedView,
    w: WalkerView,
    fuel: nat,
)
    requires
        w.well_formed(),
        read_from(ledger, w.found),
    ensures
        walk_from(ledger, w, fuel) matches Some(Ok(records)) ==> is_chain(records, w.start)
            && read_from(ledger, records),
    decreases fuel,
{
    if fuel > 0 {
        let answer = ledger(w.next);
        lemma_step_well_formed(w, answer);
        lemma_done_is_chain(w, answer);
        match step_spec(w, answer) {
            StepView::Fetch(after) => {
                assert forall|i: int| 0 <= i < after.found.len() implies ledger(
                    (#[trigger] after.found[i]).identifier,
                ) is Found && decode_spec(ledger(after.found[i].identifier)->Found_0) == Some(
                    after.found[i].info,
                ) by {
                    if i < w.found.len() {
                        assert(after.found[i] == w.found[i]);
                    }
                }
                lemma_walk_result_from(ledger, after, (fuel - 1) as nat);
            },
            StepView::Done(records) => {
                let info = decode_spec(answer->Found_0)->0;
                let found = w.found.push(RecordView { identifier: w.next, info });
                assert(records == found.reverse());
                assert forall|i: int| 0 <= i < records.len() implies ledger(
                    (#[trigger] records[i]).identifier,
                ) is Found && decode_spec(ledger(records[i].identifier)->Found_0) == Some(
                    records[i].info,
                ) by {
                    let k = records.len() - 1 - i;
                    assert(records[i] == found[k]);
                    if k < w.found.len() {
                        assert(found[k] == w.found[k]);
                    }
                }
            },
            StepView::Failed(_) => {},
        }
    }
}

/// Whatever the ledger holds, a walk that ends well ends with a chain: it
/// begins with a record without a parent, each later record names the one
/// before it, the last one stands under the identifier the walk began at, no
/// identifier stands twice, and each record is what the ledger holds under
/// its identifier.
pub proof fn lemma_walk_result(
    ledger: spec_fn(BlockId) -> FetchedView,
    start: BlockId,
    fuel: nat,
)
    ensures
        walk_spec(ledger, start, fuel) matches Some(Ok(records)) ==> is_chain(records, start)
            && read_from(ledger, records),
{
    lemma_walk_result_from(ledger, WalkerView::begin(start), fuel);
}

/// What holds of a run of linked records holds of the run without its
/// oldest record.
proof fn lemma_newer_linked(ledger: spec_fn(BlockId) -> FetchedView, records: Seq<RecordView>)
    requires
        holds_linked(ledger, records),
        records.len() > 0,
    ensures
        holds_linked(ledger, records.skip(1)),
        distinct(records) ==> distinct(records.skip(1)),
        records.len() > 1 ==> records.skip(1)[0].info.parent == Some(records[0].identifier)
            && records.skip(1).last() == records.last(),
{
    let newer = records.skip(1);
    assert forall|i: int| 0 < i < newer.len() implies (#[trigger] newer[i]).info.parent == Some(
        newer[i - 1].identifier,
    ) by {
        assert(newer[i] == records[i + 1]);
        assert(newer[i - 1] == records[i]);
    }
    if distinct(records) {
        assert forall|i: int, j: int| 0 <= i < j < newer.len() implies (
        #[trigger] newer[i]).identifier != (#[trigger] newer[j]).identifier by {
            assert(newer[i] == records[i + 1]);
            assert(newer[j] == records[j + 1]);
        }
    }
    assert forall|i: int| 0 <= i < newer.len() implies ledger((#[trigger] newer[i]).identifier)
        == FetchedView::Found(encode_spec(newer[i].info)) by {
        assert(newer[i] == records[i + 1]);
    }
    if records.len() > 1 {
        assert(newer[0] == records[1]);
    }
}

/// Where two of a run of linked records stand under one identifier, the
/// oldest of the run names one of the run as its parent.
proof fn lemma_repeat_leads_back(
    ledger: spec_fn(BlockId) -> FetchedView,
    records: Seq<RecordView>,
    i: int,
    j: int,
)
    requires
        holds_linked(ledger, records),
        0 <= i < j < records.len(),
        records[i].identifier == records[j].identifier,
    ensures
        records[0].info.parent == Some(records[j - i - 1].identifier),
    decreases i,
{
    assert(ledger(records[i].identifier) == FetchedView::Found(encode_spec(records[i].info)));
    assert(ledger(records[j].identifier) == FetchedView::Found(encode_spec(records[j].info)));
    lemma_encode_injective(records[i].info, records[j].info);
    assert(records[j].info.parent == Some(records[j - 1].identifier));
    if i > 0 {
        assert(records[i].info.parent == Some(records[i - 1].identifier));
        lemma_repeat_leads_back(ledger, records, i - 1, j - 1);
    }
}

/// In a run of linked records whose oldest names none of the run as its
/// parent, no identifier stands twice.
pub proof fn lemma_linked_is_distinct(
    ledger: spec_fn(BlockId) -> FetchedView,
    records: Seq<RecordView>,
)
    requires
        holds_linked(ledger, records),
        forall|k: int|
            0 <= k < records.len() ==> records[0].info.parent != Some(
                (#[trigger] records[k]).identifier,
            ),
    ensures
        distinct(records),
{
    assert forall|i: int, j: int| 0 <= i < j < records.len() implies (
    #[trigger] records[i]).identifier != (#[trigger] records[j]).identifier by {
        if records[i].identifier == records[j].identifier {
            lemma_repeat_leads_back(ledger, records, i, j);
            assert(records[0].info.parent != Some(records[j - i - 1].identifier));
        }
    }
}

/// The step that reads the oldest of a run of linked records, once the newer
/// ones are read: the walk goes on to its parent, or is over with the whole
/// run where it has none.
proof fn lemma_reads_oldest(ledger: spec_fn(BlockId) -> FetchedView, records: Seq<RecordView>)
    requires
        holds_linked(ledger, records),
        distinct(records),
        records.len() > 0,
    ensures
        step_spec(
            after_reading(records.skip(1), records[0].identifier),
            ledger(records[0].identifier),
        ) == match records[0].info.parent {
            Some(next) => StepView::Fetch(after_reading(records, next)),
            None => StepView::Done(records),
        },
{
    let oldest = records[0];
    let newer = records.skip(1);
    let before = after_reading(newer, oldest.identifier);
    lemma_round_trip(oldest.info);
    assert(ledger(oldest.identifier) == FetchedView::Found(encode_spec(oldest.info)));
    assert(!visited(before.found, oldest.identifier)) by {
        if visited(before.found, oldest.identifier) {
            let i = choose|i: int|
                0 <= i < before.found.len() && (#[trigger] before.found[i]).identifier
                    == oldest.identifier;
            let j = newer.len() - i;
            assert(before.found[i] == newer[newer.len() - 1 - i]);
            assert(newer[newer.len() - 1 - i] == records[j]);
            assert(records[0].identifier != records[j].identifier);
        }
    }
    let found = before.found.push(oldest);
    assert(found =~= records.reverse());
    assert(found.reverse() =~= records);
    if newer.len() > 0 {
        assert(newer.last() == records.last());
    }
}

/// Reading down a run of linked records that the ledger holds, with no
/// identifier twice, takes one fetch for each of them, and leaves the walk at
/// the parent of the oldest.
pub proof fn lemma_read_down(
    ledger: spec_fn(BlockId) -> FetchedView,
    records: Seq<RecordView>,
    next: BlockId,
    fuel: nat,
)
    requires
        holds_linked(ledger, records),
        distinct(records),
        records.len() > 0,
        records[0].info.parent == Some(next),
    ensures
        walk_spec(ledger, records.last().identifier, records.len() + fuel) == walk_from(
            ledger,
            after_reading(records, next),
            fuel,
        ),
    decreases records.len(),
{
    let start = records.last().identifier;
    let newer = records.skip(1);
    let before = after_reading(newer, records[0].identifier);
    lemma_newer_linked(ledger, records);
    lemma_reads_oldest(ledger, records);
    if newer.len() > 0 {
        lemma_read_down(ledger, newer, records[0].identifier, fuel + 1);
        assert(newer.len() + (fuel + 1) == records.len() + fuel);
    } else {
        assert(before == WalkerView::begin(start));
    }
    assert(walk_spec(ledger, start, records.len() + fuel) == walk_from(ledger, before, fuel + 1));
}

/// Where the ledger holds a chain, from a record without a parent up to some
/// record, the walk from that record gives the chain, the oldest record
/// first, and takes one fetch for each of its records.
pub proof fn lemma_walk_order(ledger: spec_fn(BlockId) -> FetchedView, chain: Seq<RecordView>)
    requires
        chain.len() > 0,
        chain[0].info.parent is None,
        holds_linked(ledger, chain),
    ensures
        walk_spec(ledger, chain.last().identifier, chain.len()) == Some(
            Ok::<Seq<RecordView>, ChainError>(chain),
        ),
        is_chain(chain, chain.last().identifier),
{
    let start = chain.last().identifier;
    let newer = chain.skip(1);
    let before = after_reading(newer, chain[0].identifier);
    lemma_linked_is_distinct(ledger, chain);
    lemma_newer_linked(ledger, chain);
    lemma_reads_oldest(ledger, chain);
    if newer.len() > 0 {
        lemma_read_down(ledger, newer, chain[0].identifier, 1);
        assert(newer.len() + 1 == chain.len());
    } else {
        assert(before == WalkerView::begin(start));
    }
    assert(walk_spec(ledger, start, chain.len()) == walk_from(ledger, before, 1));
}

/// Publishing appends: where the ledger holds a chain up to the tip, and
/// holds what the publisher handed to it for the next game under a new
/// identifier, the walk from that identifier gives the chain and the new
/// record behind it.
pub proof fn lemma_published_record_extends_history(
    ledger: spec_fn(BlockId) -> FetchedView,
    chain: Seq<RecordView>,
    name: Seq<char>,
    external_id: Seq<char>,
    new: BlockId,
)
    requires
        chain.len() > 0,
        chain[0].info.parent is None,
        holds_linked(ledger, chain),
        publish_spec(
            ChainPublisher::HasTip(chain.last().identifier),
            EventView::Snapshot { name, external_id },
        ).1 matches ActionView::Submit { data, .. } && ledger(new) == FetchedView::Found(data),
    ensures
        walk_spec(ledger, new, chain.len() + 1) == Some(
            Ok::<Seq<RecordView>, ChainError>(
                chain.push(
                    RecordView {
                        identifier: new,
                        info: crate::codec::GameInfoView {
                            game_id: external_id,
                            game_name: name,
                            parent: Some(chain.last().identifier),
                        },
                    },
                ),
            ),
        ),
{
    let record = RecordView {
        identifier: new,
        info: crate::codec::GameInfoView {
            game_id: external_id,
            game_name: name,
            parent: Some(chain.last().identifier),
        },
    };
    let longer = chain.push(record);
    assert forall|i: int| 0 < i < longer.len() implies (#[trigger] longer[i]).info.parent == Some(
        longer[i - 1].identifier,
    ) by {
        if i < chain.len() {
            assert(longer[i] == chain[i]);
            assert(longer[i - 1] == chain[i - 1]);
        }
    }
    assert forall|i: int| 0 <= i < longer.len() implies ledger((#[trigger] longer[i]).identifier)
        == FetchedView::Found(encode_spec(longer[i].info)) by {
        if i < chain.len() {
            assert(longer[i] == chain[i]);
        }
    }
    assert(longer[0] == chain[0]);
    lemma_walk_order(ledger, longer);
}

/// A record without a parent is its own history, and its walk is over after
/// the one fetch of it: none is made for a parent.
pub proof fn lemma_walk_of_first_record(
    ledger: spec_fn(BlockId) -> FetchedView,
    record: RecordView,
)
    requires
        record.info.parent is None,
        ledger(record.identifier) == FetchedView::Found(encode_spec(record.info)),
    ensures
        walk_spec(ledger, record.identifier, 1) == Some(
            Ok::<Seq<RecordView>, ChainError>(seq![record]),
        ),
{
    lemma_walk_order(ledger, seq![record]);
}

/// Where the parent of the oldest of a run of linked records, with no
/// identifier twice, is one of the run, the walk from the newest fails with
/// `CycleDetected` on that parent, one fetch after it has read the run.
pub proof fn lemma_cycle_is_detected(
    ledger: spec_fn(BlockId) -> FetchedView,
    records: Seq<RecordView>,
    back: int,
)
    requires
        holds_linked(ledger, records),
        distinct(records),
        0 <= back < records.len(),
        records[0].info.parent == Some(records[back].identifier),
    ensures
        walk_spec(ledger, records.last().identifier, records.len() + 1) == Some(
            Err::<Seq<RecordView>, ChainError>(
                ChainError::CycleDetected(records[back].identifier),
            ),
        ),
{
    let next = records[back].identifier;
    lemma_read_down(ledger, records, next, 1);
    let w = after_reading(records, next);
    lemma_round_trip(records[back].info);
    assert(w.found[records.len() - 1 - back] == records[back]);
    assert(visited(w.found, next));
}

/// Where the parent of the oldest of a run of linked records is held by the
/// ledger, but is the written form of no record, the walk from
/// the newest of the run fails with `MalformedRecord` on that parent.
pub proof fn lemma_malformed_fails_the_walk(
    ledger: spec_fn(BlockId) -> FetchedView,
    records: Seq<RecordView>,
    bad: BlockId,
    data: Seq<u8>,
)
    requires
        holds_linked(ledger, records),
        records.len() > 0,
        records[0].info.parent == Some(bad),
        ledger(bad) == FetchedView::Found(data),
        decode_spec(data) is None,
    ensures
        walk_spec(ledger, records.last().identifier, records.len() + 1) == Some(
            Err::<Seq<RecordView>, ChainError>(ChainError::MalformedRecord(bad)),
        ),
{
    assert forall|k: int| 0 <= k < records.len() implies records[0].info.parent != Some(
        (#[trigger] records[k]).identifier,
    ) by {
        lemma_round_trip(records[k].info);
    }
    lemma_linked_is_distinct(ledger, records);
    lemma_read_down(ledger, records, bad, 1);
}

/// Where the ledger cannot be reached for the parent of the oldest of a run
/// of linked records, or holds nothing under it, the walk from the newest of
/// the run fails with `LedgerUnavailable`, or with `NotFound` on that parent.
pub proof fn lemma_missing_fails_the_walk(
    ledger: spec_fn(BlockId) -> FetchedView,
    records: Seq<RecordView>,
    missing: BlockId,
)
    requires
        holds_linked(ledger, records),
        records.len() > 0,
        records[0].info.parent == Some(missing),
        !(ledger(missing) is Found),
    ensures
        walk_spec(ledger, records.last().identifier, records.len() + 1) == Some(
            Err::<Seq<RecordView>, ChainError>(
                if ledger(missing) is NotFound {
                    ChainError::NotFound(missing)
                } else {
                    ChainError::LedgerUnavailable
                },
            ),
        ),
{
    lemma_linked_is_distinct(ledger, records);
    lemma_read_down(ledger, records, missing, 1);
}

/// The identifiers under which `ledger` holds a payload.
pub open spec fn held(ledger: spec_fn(BlockId) -> FetchedView) -> Set<BlockId> {
    Set::new(|id: BlockId| ledger(id) is Found)
}

/// The identifiers of `records`, in their order.
pub open spec fn identifiers(records: Seq<RecordView>) -> Seq<BlockId> {
    records.map_values(|r: RecordView| r.identifier)
}

/// Records with no identifier twice, all of them held by the ledger, are no
/// more than the ledger holds.
proof fn lemma_read_is_bounded(ledger: spec_fn(BlockId) -> FetchedView, found: Seq<RecordView>)
    requires
        held(ledger).finite(),
        distinct(found),
        forall|i: int| 0 <= i < found.len() ==> ledger((#[trigger] found[i]).identifier) is Found,
    ensures
        found.len() <= held(ledger).len(),
{
    let ids = identifiers(found);
    assert(ids.no_duplicates()) by {
        assert forall|i: int, j: int| 0 <= i < ids.len() && 0 <= j < ids.len() && i != j implies
            ids[i] != ids[j] by {
            if i < j {
                assert(found[i].identifier != found[j].identifier);
            } else {
                assert(found[j].identifier != found[i].identifier);
            }
        }
    }
    ids.unique_seq_to_set();
    assert(ids.to_set().subset_of(held(ledger))) by {
        assert forall|id: BlockId| ids.to_set().contains(id) implies held(ledger).contains(
            id,
        ) by {
            let i = choose|i: int| 0 <= i < ids.len() && ids[i] == id;
            assert(found[i].identifier == id);
        }
    }
    vstd::set_lib::lemma_len_subset(ids.to_set(), held(ledger));
}

/// A walk whose records so far are all held by the ledger ends within as
/// many fetches as the ledger holds payloads that it has not read, and one
/// more.
proof fn lemma_walk_ends_from(
    ledger: spec_fn(BlockId) -> FetchedView,
    w: WalkerView,
    fuel: nat,
)
    requires
        held(ledger).finite(),
        w.well_formed(),
        forall|i: int|
            0 <= i < w.found.len() ==> ledger((#[trigger] w.found[i]).identifier) is Found,
        fuel + w.found.len() == held(ledger).len() + 1,
    ensures
        walk_from(ledger, w, fuel) is Some,
    decreases fuel,
{
    lemma_read_is_bounded(ledger, w.found);
    if let StepView::Fetch(after) = step_spec(w, ledger(w.next)) {
        lemma_step_well_formed(w, ledger(w.next));
        assert forall|i: int| 0 <= i < after.found.len() implies ledger(
            (#[trigger] after.found[i]).identifier,
        ) is Found by {
            if i < w.found.len() {
                assert(after.found[i] == w.found[i]);
            }
        }
        lemma_read_is_bounded(ledger, after.found);
        lemma_walk_ends_from(ledger, after, (fuel - 1) as nat);
    }
}

/// On a ledger that holds finitely many payloads, a walk from
/// anywhere is over after at most one fetch more than the ledger holds
/// payloads, whatever the records say of their parents.
pub proof fn lemma_walk_ends(ledger: spec_fn(BlockId) -> FetchedView, start: BlockId)
    requires
        held(ledger).finite(),
    ensures
        walk_spec(ledger, start, held(ledger).len() + 1) is Some,
{
    lemma_walk_ends_from(ledger, WalkerView::begin(start), held(ledger).len() + 1);
}

} // verus!
