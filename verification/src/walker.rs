//! Reading a chain back: from a record to the record before it, until the
//! first one.
//!
//! The walker does not reach the ledger itself. It names the identifier to
//! fetch, is told what the ledger answered, and decides what comes next.

use crate::block_id::BlockId;
use crate::codec::{decode_spec, get_json_payload, GameInfo, GameInfoView};
use crate::error::ChainError;
use crate::payload::TaggedData;
use vstd::prelude::*;

verus! {

/// A record as it stands on the ledger: what it says, and the identifier
/// under which the ledger holds it.
#[derive(Clone, Debug, PartialEq, Eq)]
pub struct Record {
    pub identifier: BlockId,
    pub info: GameInfo,
}

/// A record as contracts speak of it.
#[verifier::ext_equal]
pub struct RecordView {
    pub identifier: BlockId,
    pub info: GameInfoView,
}

impl View for Record {
    type V = RecordView;

    open spec fn view(&self) -> RecordView {
        RecordView { identifier: self.identifier, info: self.info@ }
    }
}

impl DeepView for Record {
    type V = RecordView;

    open spec fn deep_view(&self) -> RecordView {
        self@
    }
}

/// What the ledger answered to a fetch.
#[derive(Clone, Debug, PartialEq, Eq)]
pub enum Fetched {
    /// The payload that the ledger holds under the identifier.
    Found(TaggedData),
    /// The ledger holds nothing under the identifier.
    NotFound,
    /// The ledger could not be reached.
    Unavailable,
}

/// An answer as contracts speak of it: of a payload, its data.
pub enum FetchedView {
    Found(Seq<u8>),
    NotFound,
    Unavailable,
}

impl View for Fetched {
    type V = FetchedView;

    open spec fn view(&self) -> FetchedView {
        match self {
            Fetched::Found(payload) => FetchedView::Found(payload.spec_data()),
            Fetched::NotFound => FetchedView::NotFound,
            Fetched::Unavailable => FetchedView::Unavailable,
        }
    }
}

/// Whether one of `found` stands under `id`.
pub open spec fn visited(found: Seq<RecordView>, id: BlockId) -> bool {
    exists|i: int| 0 <= i < found.len() && (#[trigger] found[i]).identifier == id
}

/// No identifier stands twice in `records`.
pub open spec fn distinct(records: Seq<RecordView>) -> bool {
    forall|i: int, j: int|
        0 <= i < j < records.len() ==> (#[trigger] records[i]).identifier != (
        #[trigger] records[j]).identifier
}

/// `records` is the history of `start`: it begins with a record that has no
/// parent, each later record names the one before it as its parent, the last
/// one stands under `start`, and no identifier stands twice.
pub open spec fn is_chain(records: Seq<RecordView>, start: BlockId) -> bool {
    &&& records.len() > 0
    &&& records[0].info.parent is None
    &&& forall|i: int|
        0 < i < records.len() ==> (#[trigger] records[i]).info.parent == Some(
            records[i - 1].identifier,
        )
    &&& records.last().identifier == start
    &&& distinct(records)
}

/// A walk under way, as contracts speak of it.
#[verifier::ext_equal]
pub struct WalkerView {
    /// Where the walk began.
    pub start: BlockId,
    /// The identifier to fetch now.
    pub next: BlockId,
    /// The records read so far, the newest first.
    pub found: Seq<RecordView>,
}

impl WalkerView {
    /// The records read so far lead from `start` to `next`, parent by
    /// parent, and no identifier stands twice among them.
    pub open spec fn well_formed(self) -> bool {
        &&& self.found.len() == 0 ==> self.next == self.start
        &&& self.found.len() > 0 ==> self.found[0].identifier == self.start
            && self.found.last().info.parent == Some(self.next)
        &&& forall|i: int|
            0 <= i < self.found.len() - 1 ==> (#[trigger] self.found[i]).info.parent == Some(
                self.found[i + 1].identifier,
            )
        &&& distinct(self.found)
    }

    /// The walk that is about to fetch `start`.
    pub open spec fn begin(start: BlockId) -> WalkerView {
        WalkerView { start, next: start, found: Seq::empty() }
    }
}

/// What a walk does next.
#[verifier::ext_equal]
pub enum StepView {
    /// Fetch `next` of this walk, and hand the answer to it.
    Fetch(WalkerView),
    /// The walk is over: the history, the oldest record first.
    Done(Seq<RecordView>),
    /// The walk is over, and has failed.
    Failed(ChainError),
}

/// What a walk does once the ledger has answered the fetch of `w.next`.
///
/// An answer that is no payload ends the walk with `LedgerUnavailable` or
/// `NotFound`; a payload that is the written form of no record ends it with
/// `MalformedRecord`; a record under an identifier that was read before ends
/// it with `CycleDetected`. Else the record is kept: the walk goes on to its
/// parent, or is over where it has none.
pub open spec fn step_spec(w: WalkerView, answer: FetchedView) -> StepView {
    match answer {
        FetchedView::Unavailable => StepView::Failed(ChainError::LedgerUnavailable),
        FetchedView::NotFound => StepView::Failed(ChainError::NotFound(w.next)),
        FetchedView::Found(data) => match decode_spec(data) {
            None => StepView::Failed(ChainError::MalformedRecord(w.next)),
            Some(info) => if visited(w.found, w.next) {
                StepView::Failed(ChainError::CycleDetected(w.next))
            } else {
                let found = w.found.push(RecordView { identifier: w.next, info });
                match info.parent {
                    Some(parent) => StepView::Fetch(
                        WalkerView { start: w.start, next: parent, found },
                    ),
                    None => StepView::Done(found.reverse()),
                }
            },
        },
    }
}

/// A walk under way.
#[derive(Debug, PartialEq, Eq)]
pub struct ChainWalker {
    start: BlockId,
    next: BlockId,
    found: Vec<Record>,
}

/// What a walk does next.
#[derive(Debug, PartialEq, Eq)]
pub enum WalkStep {
    /// Fetch what this walk wants, and hand the answer to its `step`.
    Fetch(ChainWalker),
    /// The walk is over: the history, the oldest record first.
    Done(Vec<Record>),
    /// The walk is over, and has failed.
    Failed(ChainError),
}

impl View for ChainWalker {
    type V = WalkerView;

    closed spec fn view(&self) -> WalkerView {
        WalkerView { start: self.start, next: self.next, found: self.found.deep_view() }
    }
}

impl View for WalkStep {
    type V = StepView;

    open spec fn view(&self) -> StepView {
        match self {
            WalkStep::Fetch(walker) => StepView::Fetch(walker@),
            WalkStep::Done(records) => StepView::Done(records.deep_view()),
            WalkStep::Failed(e) => StepView::Failed(*e),
        }
    }
}

/// A step keeps a walk well-formed.
pub proof fn lemma_step_well_formed(w: WalkerView, answer: FetchedView)
    requires
        w.well_formed(),
    ensures
        step_spec(w, answer) matches StepView::Fetch(after) ==> after.well_formed()
            && after.start == w.start && after.found.len() == w.found.len() + 1,
{
    if let StepView::Fetch(after) = step_spec(w, answer) {
        let info = decode_spec(answer->Found_0)->0;
        let record = RecordView { identifier: w.next, info };
        assert(after.found == w.found.push(record));
        assert forall|i: int, j: int| 0 <= i < j < after.found.len() implies (
        #[trigger] after.found[i]).identifier != (#[trigger] after.found[j]).identifier by {
            if j == w.found.len() {
                assert(after.found[i] == w.found[i]);
            } else {
                assert(after.found[i] == w.found[i]);
                assert(after.found[j] == w.found[j]);
            }
        }
        assert forall|i: int| 0 <= i < after.found.len() - 1 implies (
        #[trigger] after.found[i]).info.parent == Some(after.found[i + 1].identifier) by {
            assert(after.found[i] == w.found[i]);
            if i + 1 < w.found.len() {
                assert(after.found[i + 1] == w.found[i + 1]);
            }
        }
    }
}

/// The history that a well-formed walk ends with is a chain: from a record
/// without a parent to the record the walk began at, each record the parent
/// of the next, no identifier twice.
pub proof fn lemma_done_is_chain(w: WalkerView, answer: FetchedView)
    requires
        w.well_formed(),
    ensures
        step_spec(w, answer) matches StepView::Done(records) ==> is_chain(records, w.start)
            && records.len() == w.found.len() + 1,
{
    if let StepView::Done(records) = step_spec(w, answer) {
        let info = decode_spec(answer->Found_0)->0;
        let record = RecordView { identifier: w.next, info };
        let found = w.found.push(record);
        let n = found.len() as int;
        assert(records == found.reverse());
        assert(forall|i: int| 0 <= i < n ==> records[i] == found[n - 1 - i]);
        assert(forall|i: int| 0 <= i < n - 1 ==> found[i] == w.found[i]);
        assert(records[0] == record);
        assert(records.last() == found[0]);
        assert forall|i: int| 0 < i < records.len() implies (#[trigger] records[i]).info.parent
            == Some(records[i - 1].identifier) by {
            let k = n - 1 - i;
            assert(records[i] == w.found[k]);
            if k + 1 < n - 1 {
                assert(records[i - 1] == w.found[k + 1]);
            }
        }
        assert forall|i: int, j: int| 0 <= i < j < records.len() implies (
        #[trigger] records[i]).identifier != (#[trigger] records[j]).identifier by {
            let a = n - 1 - j;
            let b = n - 1 - i;
            assert(records[j] == w.found[a]);
            if b < n - 1 {
                assert(records[i] == w.found[b]);
            }
        }
    }
}

impl ChainWalker {
    #[verifier::type_invariant]
    spec fn led(&self) -> bool {
        self@.well_formed()
    }

    /// Begins a walk at `start`: the first fetch is that of `start`.
    pub fn new(start: BlockId) -> (walker: ChainWalker)
        ensures
            walker@ == WalkerView::begin(start),
    {
        let walker = ChainWalker { start, next: start, found: Vec::new() };
        assert(walker@.found =~= Seq::empty());
        walker
    }

    /// The identifier to fetch now.
    pub fn wanted(&self) -> (id: BlockId)
        ensures
            id == self@.next,
            self@.well_formed(),
    {
        proof {
            use_type_invariant(self);
        }
        self.next
    }

    /// Whether a record under `id` was read before.
    fn has_read(&self, id: &BlockId) -> (r: bool)
        ensures
            r == visited(self@.found, *id),
    {
        let mut i: usize = 0;
        while i < self.found.len()
            invariant
                i <= self.found.len(),
                forall|j: int| 0 <= j < i ==> (#[trigger] self@.found[j]).identifier != *id,
            decreases self.found.len() - i,
        {
            assert(self@.found[i as int] == self.found@[i as int]@);
            if self.found[i].identifier == *id {
                proof {
                    crate::block_id::lemma_same_bytes(self.found@[i as int].identifier, *id);
                }
                return true;
            }
            proof {
                crate::block_id::lemma_same_bytes(self.found@[i as int].identifier, *id);
            }
            i += 1;
        }
        false
    }

    /// Takes the ledger's answer to the fetch of `wanted()`, and says what
    /// comes next.
    pub fn step(self, answer: Fetched) -> (r: WalkStep)
        ensures
            r@ == step_spec(self@, answer@),
            r matches WalkStep::Fetch(walker) ==> walker@.well_formed(),
            r matches WalkStep::Done(records) ==> is_chain(records.deep_view(), self@.start),
    {
        proof {
            use_type_invariant(&self);
            lemma_step_well_formed(self@, answer@);
            lemma_done_is_chain(self@, answer@);
        }
        let id = self.next;
        let payload = match answer {
            Fetched::Unavailable => {
                return WalkStep::Failed(ChainError::LedgerUnavailable);
            },
            Fetched::NotFound => {
                return WalkStep::Failed(ChainError::NotFound(id));
            },
            Fetched::Found(payload) => payload,
        };
        let info = match get_json_payload(&payload) {
            Ok(info) => info,
            Err(_) => {
                return WalkStep::Failed(ChainError::MalformedRecord(id));
            },
        };
        if self.has_read(&id) {
            return WalkStep::Failed(ChainError::CycleDetected(id));
        }
        let parent = info.parent;
        let ghost before = self@;
        let start = self.start;
        let mut found = self.found;
        found.push(Record { identifier: id, info });
        assert(found.deep_view() =~= before.found.push(
            RecordView { identifier: id, info: info@ },
        ));
        match parent {
            Some(next) => WalkStep::Fetch(ChainWalker { start, next, found }),
            None => WalkStep::Done(oldest_first(found)),
        }
    }
}

/// Turns the records round.
fn oldest_first(records: Vec<Record>) -> (turned: Vec<Record>)
    ensures
        turned.deep_view() == records.deep_view().reverse(),
{
    let ghost whole = records.deep_view();
    let mut left = records;
    let mut turned: Vec<Record> = Vec::new();
    while left.len() > 0
        invariant
            left.len() + turned.len() == whole.len(),
            forall|i: int| 0 <= i < left.len() ==> (#[trigger] left.deep_view()[i]) == whole[i],
            forall|i: int|
                0 <= i < turned.len() ==> (#[trigger] turned.deep_view()[i]) == whole[whole.len()
                    - 1 - i],
        decreases left.len(),
    {
        let ghost before = left.deep_view();
        let ghost done = turned.deep_view();
        let last = left.pop();
        match last {
            Some(record) => {
                turned.push(record);
                assert forall|i: int| 0 <= i < left.len() implies (#[trigger] left.deep_view()[i])
                    == whole[i] by {
                    assert(left.deep_view()[i] == before[i]);
                }
                assert forall|i: int| 0 <= i < turned.len() implies (
                #[trigger] turned.deep_view()[i]) == whole[whole.len() - 1 - i] by {
                    if i < done.len() {
                        assert(turned.deep_view()[i] == done[i]);
                    } else {
                        assert(turned@[i] == record);
                        assert(before[before.len() - 1] == record@);
                    }
                }
            },
            None => {},
        }
    }
    assert(turned.deep_view() =~= whole.reverse());
    turned
}

} // verus!
