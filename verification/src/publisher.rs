//! Appending to a chain: each new record names the newest one before it as
//! its parent, and the checkpoint moves on once the ledger has taken it.
//!
//! The publisher does not reach the ledger, the data source or the checkpoint
//! itself. It is told what happened, and says what is to be done next.

use crate::block_id::{id_text, lemma_id_text_ascii, BlockId};
use crate::codec::{
    decode_spec, encode, encode_spec, lemma_round_trip, lemma_written_length, GameInfo,
    GameInfoView,
};
use crate::error::ChainError;
use crate::payload::{within_limits, TaggedData};
use vstd::prelude::*;
use vstd::string::StringSliceAdditionalSpecFns;

verus! {

/// The tag under which records are filed on the ledger.
pub const RECORD_TAG: &'static str = "NP_GAME_CACHE";

/// The tag under which the identifier of a published record is noted on the
/// ledger.
pub const NOTE_TAG: &'static str = "Block ID";

pub open spec fn record_tag() -> Seq<u8> {
    RECORD_TAG.spec_bytes()
}

pub open spec fn note_tag() -> Seq<u8> {
    NOTE_TAG.spec_bytes()
}

/// What the first record of a chain says: nothing, and it has no parent.
pub open spec fn genesis() -> GameInfoView {
    GameInfoView { game_id: Seq::empty(), game_name: Seq::empty(), parent: None }
}

/// Where a chain stands.
#[derive(Clone, Copy, Debug, PartialEq, Eq)]
pub enum ChainPublisher {
    /// No checkpoint exists: the chain has no record yet.
    NoCheckpoint,
    /// The newest record of the chain stands under this identifier.
    HasTip(BlockId),
    /// A record was handed to the ledger and its identifier is awaited; the
    /// tip that it names as its parent is kept.
    Submitting(Option<BlockId>),
    /// The ledger holds the new record under this identifier, and the
    /// checkpoint is yet to be saved.
    Saving(BlockId),
}

/// What happened.
#[derive(Clone, Debug, PartialEq, Eq)]
pub enum PublishEvent {
    /// The run begins.
    Begin,
    /// The data source gave the next game.
    Snapshot { name: String, external_id: String },
    /// The data source failed.
    SnapshotFailed,
    /// The ledger took the record and holds it under this identifier.
    Published(BlockId),
    /// The ledger could not be reached.
    Unavailable,
    /// The ledger refused the record.
    Rejected,
    /// The checkpoint was saved.
    Saved,
    /// The checkpoint could not be saved.
    SaveFailed,
}

/// An event as contracts speak of it.
pub enum EventView {
    Begin,
    Snapshot { name: Seq<char>, external_id: Seq<char> },
    SnapshotFailed,
    Published(BlockId),
    Unavailable,
    Rejected,
    Saved,
    SaveFailed,
}

impl View for PublishEvent {
    type V = EventView;

    open spec fn view(&self) -> EventView {
        match self {
            PublishEvent::Begin => EventView::Begin,
            PublishEvent::Snapshot { name, external_id } => EventView::Snapshot {
                name: name@,
                external_id: external_id@,
            },
            PublishEvent::SnapshotFailed => EventView::SnapshotFailed,
            PublishEvent::Published(id) => EventView::Published(*id),
            PublishEvent::Unavailable => EventView::Unavailable,
            PublishEvent::Rejected => EventView::Rejected,
            PublishEvent::Saved => EventView::Saved,
            PublishEvent::SaveFailed => EventView::SaveFailed,
        }
    }
}

/// What is to be done next.
#[derive(Clone, Debug, PartialEq, Eq)]
pub enum PublishAction {
    /// Hand this payload to the ledger.
    Submit(TaggedData),
    /// Save this identifier as the checkpoint.
    Save(BlockId),
    /// The record stands under this identifier and the checkpoint names it.
    Done(BlockId),
    /// Report this failure.
    Failed(ChainError),
    /// The event is none that the publisher waits for: nothing has changed.
    Ignored,
}

/// An action as contracts speak of it.
#[verifier::ext_equal]
pub enum ActionView {
    Submit { tag: Seq<u8>, data: Seq<u8> },
    Save(BlockId),
    Done(BlockId),
    Failed(ChainError),
    Ignored,
}

impl View for PublishAction {
    type V = ActionView;

    open spec fn view(&self) -> ActionView {
        match self {
            PublishAction::Submit(payload) => ActionView::Submit {
                tag: payload.spec_tag(),
                data: payload.spec_data(),
            },
            PublishAction::Save(id) => ActionView::Save(*id),
            PublishAction::Done(id) => ActionView::Done(*id),
            PublishAction::Failed(e) => ActionView::Failed(*e),
            PublishAction::Ignored => ActionView::Ignored,
        }
    }
}

/// Where a chain stands once a submission has failed: where it stood before.
pub open spec fn settled(tip: Option<BlockId>) -> ChainPublisher {
    match tip {
        Some(id) => ChainPublisher::HasTip(id),
        None => ChainPublisher::NoCheckpoint,
    }
}

/// Hands the written form of `info` to the ledger, where the ledger takes a
/// payload of that length; else nothing changes and `LedgerRejected` is
/// reported.
pub open spec fn submit_spec(state: ChainPublisher, info: GameInfoView) -> (
    ChainPublisher,
    ActionView,
) {
    let data = encode_spec(info);
    if within_limits(record_tag(), data) {
        (ChainPublisher::Submitting(info.parent), ActionView::Submit { tag: record_tag(), data })
    } else {
        (state, ActionView::Failed(ChainError::LedgerRejected))
    }
}

/// What the publisher does on an event.
///
/// Without a checkpoint the first record is made when the run begins. With a
/// tip, each game that the data source gives becomes a record whose parent is
/// the tip; a game without a name or without an identifier is a failure of
/// the data source. Once the ledger has taken a record the checkpoint is to be
/// saved, and once that is done the record is the new tip. Where saving
/// fails, the failure names the record's identifier, and the publisher goes
/// on waiting for the save. An event that the state does not wait for changes
/// nothing.
pub open spec fn publish_spec(state: ChainPublisher, event: EventView) -> (
    ChainPublisher,
    ActionView,
) {
    match (state, event) {
        (ChainPublisher::NoCheckpoint, EventView::Begin) => submit_spec(state, genesis()),
        (ChainPublisher::HasTip(tip), EventView::Snapshot { name, external_id }) => {
            if name.len() == 0 || external_id.len() == 0 {
                (state, ActionView::Failed(ChainError::DataSourceError))
            } else {
                submit_spec(
                    state,
                    GameInfoView { game_id: external_id, game_name: name, parent: Some(tip) },
                )
            }
        },
        (ChainPublisher::HasTip(_), EventView::SnapshotFailed) => (
            state,
            ActionView::Failed(ChainError::DataSourceError),
        ),
        (ChainPublisher::Submitting(_), EventView::Published(id)) => (
            ChainPublisher::Saving(id),
            ActionView::Save(id),
        ),
        (ChainPublisher::Submitting(tip), EventView::Unavailable) => (
            settled(tip),
            ActionView::Failed(ChainError::LedgerUnavailable),
        ),
        (ChainPublisher::Submitting(tip), EventView::Rejected) => (
            settled(tip),
            ActionView::Failed(ChainError::LedgerRejected),
        ),
        (ChainPublisher::Saving(id), EventView::Saved) => (
            ChainPublisher::HasTip(id),
            ActionView::Done(id),
        ),
        (ChainPublisher::Saving(id), EventView::SaveFailed) => (
            state,
            ActionView::Failed(ChainError::CheckpointSaveFailed(id)),
        ),
        _ => (state, ActionView::Ignored),
    }
}

impl ChainPublisher {
    /// Where the chain stands at startup, given the tip that the checkpoint
    /// names, if there is a checkpoint.
    pub fn new(loaded: Option<BlockId>) -> (state: ChainPublisher)
        ensures
            state == settled(loaded),
    {
        match loaded {
            Some(id) => ChainPublisher::HasTip(id),
            None => ChainPublisher::NoCheckpoint,
        }
    }

    /// The newest record that the checkpoint is known to name.
    pub fn tip(&self) -> (tip: Option<BlockId>)
        ensures
            tip == match *self {
                ChainPublisher::HasTip(id) => Some(id),
                _ => None,
            },
    {
        match self {
            ChainPublisher::HasTip(id) => Some(*id),
            _ => None,
        }
    }

    /// Writes `info` and hands it to the ledger.
    fn submit(self, info: GameInfo) -> (r: (ChainPublisher, PublishAction))
        ensures
            (r.0, r.1@) == submit_spec(self, info@),
    {
        let parent = info.parent;
        let data = encode(&info);
        let tag = vstd::slice::slice_to_vec(RECORD_TAG.as_bytes());
        match TaggedData::new(tag, data) {
            Ok(payload) => (ChainPublisher::Submitting(parent), PublishAction::Submit(payload)),
            Err(_) => (self, PublishAction::Failed(ChainError::LedgerRejected)),
        }
    }

    /// Takes an event, and says where the chain stands now and what is to be
    /// done next.
    pub fn step(self, event: PublishEvent) -> (r: (ChainPublisher, PublishAction))
        ensures
            (r.0, r.1@) == publish_spec(self, event@),
    {
        match self {
            ChainPublisher::NoCheckpoint => match event {
                PublishEvent::Begin => {
                    let first = GameInfo {
                        game_id: String::new(),
                        game_name: String::new(),
                        parent: None,
                    };
                    assert(first@ =~= genesis());
                    self.submit(first)
                },
                _ => (self, PublishAction::Ignored),
            },
            ChainPublisher::HasTip(tip) => match event {
                PublishEvent::Snapshot { name, external_id } => {
                    if name.as_str().is_empty() || external_id.as_str().is_empty() {
                        (self, PublishAction::Failed(ChainError::DataSourceError))
                    } else {
                        self.submit(
                            GameInfo { game_id: external_id, game_name: name, parent: Some(tip) },
                        )
                    }
                },
                PublishEvent::SnapshotFailed => (
                    self,
                    PublishAction::Failed(ChainError::DataSourceError),
                ),
                _ => (self, PublishAction::Ignored),
            },
            ChainPublisher::Submitting(tip) => match event {
                PublishEvent::Published(id) => (ChainPublisher::Saving(id), PublishAction::Save(id)),
                PublishEvent::Unavailable => (
                    ChainPublisher::new(tip),
                    PublishAction::Failed(ChainError::LedgerUnavailable),
                ),
                PublishEvent::Rejected => (
                    ChainPublisher::new(tip),
                    PublishAction::Failed(ChainError::LedgerRejected),
                ),
                _ => (self, PublishAction::Ignored),
            },
            ChainPublisher::Saving(id) => match event {
                PublishEvent::Saved => (ChainPublisher::HasTip(id), PublishAction::Done(id)),
                PublishEvent::SaveFailed => (
                    self,
                    PublishAction::Failed(ChainError::CheckpointSaveFailed(id)),
                ),
                _ => (self, PublishAction::Ignored),
            },
        }
    }
}

/// Both tags are short enough for the ledger.
pub proof fn lemma_tag_lengths()
    ensures
        record_tag().len() == 13,
        note_tag().len() == 8,
{
    reveal_strlit("NP_GAME_CACHE");
    reveal_strlit("Block ID");
    vstd::utf8::is_ascii_chars_encode_utf8(RECORD_TAG@);
    vstd::utf8::is_ascii_chars_encode_utf8(NOTE_TAG@);
}

/// The note of a published record: its identifier as text, filed under
/// `note_tag()`.
pub fn block_id_note(id: &BlockId) -> (note: TaggedData)
    ensures
        note.spec_tag() == note_tag(),
        note.spec_data() == vstd::utf8::encode_utf8(id_text(id@)),
{
    let tag = vstd::slice::slice_to_vec(NOTE_TAG.as_bytes());
    let text = id.to_string();
    let data = vstd::slice::slice_to_vec(text.as_str().as_bytes());
    proof {
        lemma_tag_lengths();
        lemma_id_text_ascii(id@);
    }
    match TaggedData::new(tag, data) {
        Ok(note) => note,
        Err(_) => vstd::pervasive::unreached(),
    }
}

/// Without a checkpoint, the run begins with the first record: it is always
/// short enough for the ledger, so it is handed to the ledger, and names no
/// parent.
pub proof fn lemma_first_record_is_submitted()
    ensures
        publish_spec(ChainPublisher::NoCheckpoint, EventView::Begin) == (
            ChainPublisher::Submitting(None),
            ActionView::Submit { tag: record_tag(), data: encode_spec(genesis()) },
        ),
        decode_spec(encode_spec(genesis())) == Some(genesis()),
{
    lemma_round_trip(genesis());
    lemma_written_length(genesis());
    assert(vstd::utf8::encode_utf8(Seq::<char>::empty()) =~= Seq::<u8>::empty());
    lemma_tag_lengths();
}

/// A game with a name and an identifier of no more than 5000 bytes together
/// is always short enough for the ledger: on a tip, it is handed to the
/// ledger.
pub proof fn lemma_short_game_is_submitted(tip: BlockId, name: Seq<char>, external_id: Seq<char>)
    requires
        name.len() > 0,
        external_id.len() > 0,
        vstd::utf8::encode_utf8(name).len() + vstd::utf8::encode_utf8(external_id).len() <= 5000,
    ensures
        publish_spec(ChainPublisher::HasTip(tip), EventView::Snapshot { name, external_id }) == (
            ChainPublisher::Submitting(Some(tip)),
            ActionView::Submit {
                tag: record_tag(),
                data: encode_spec(
                    GameInfoView { game_id: external_id, game_name: name, parent: Some(tip) },
                ),
            },
        ),
{
    lemma_written_length(
        GameInfoView { game_id: external_id, game_name: name, parent: Some(tip) },
    );
    lemma_tag_lengths();
}

/// A record that is published on a tip names that tip as its parent: what is
/// handed to the ledger reads back as the game that the data source gave,
/// with the tip as its parent.
pub proof fn lemma_publish_names_tip(tip: BlockId, name: Seq<char>, external_id: Seq<char>)
    requires
        name.len() > 0,
        external_id.len() > 0,
    ensures
        publish_spec(
            ChainPublisher::HasTip(tip),
            EventView::Snapshot { name, external_id },
        ).1 matches ActionView::Submit { data, .. } ==> decode_spec(data) == Some(
            GameInfoView { game_id: external_id, game_name: name, parent: Some(tip) },
        ),
{
    lemma_round_trip(GameInfoView { game_id: external_id, game_name: name, parent: Some(tip) });
}

/// A publish that goes well ends with the new identifier as the tip: from a
/// tip, through the ledger's answer and the save, to `HasTip` again.
pub proof fn lemma_publish_moves_tip(
    tip: BlockId,
    name: Seq<char>,
    external_id: Seq<char>,
    id: BlockId,
)
    requires
        publish_spec(
            ChainPublisher::HasTip(tip),
            EventView::Snapshot { name, external_id },
        ).1 is Submit,
    ensures
        ({
            let submitted = publish_spec(
                ChainPublisher::HasTip(tip),
                EventView::Snapshot { name, external_id },
            ).0;
            let taken = publish_spec(submitted, EventView::Published(id));
            let saved = publish_spec(taken.0, EventView::Saved);
            &&& taken.1 == ActionView::Save(id)
            &&& saved == (ChainPublisher::HasTip(id), ActionView::Done(id))
        }),
{
}

/// Where saving the checkpoint fails, the failure names the identifier that
/// the ledger assigned, and a later save of that identifier makes it the tip.
pub proof fn lemma_save_can_be_retried(tip: Option<BlockId>, id: BlockId)
    ensures
        ({
            let taken = publish_spec(ChainPublisher::Submitting(tip), EventView::Published(id));
            let failed = publish_spec(taken.0, EventView::SaveFailed);
            let retried = publish_spec(failed.0, EventView::Saved);
            &&& failed.1 == ActionView::Failed(ChainError::CheckpointSaveFailed(id))
            &&& retried == (ChainPublisher::HasTip(id), ActionView::Done(id))
        }),
{
}

} // verus!
