use game_monitor::block_id::BlockId;
use game_monitor::checkpoint::{read_checkpoint, write_checkpoint};
use game_monitor::codec::{decode, encode, GameInfo};
use game_monitor::error::ChainError;
use game_monitor::payload::TaggedData;
use game_monitor::publisher::{block_id_note, ChainPublisher, PublishAction, PublishEvent};
use game_monitor::walker::{ChainWalker, Fetched, Record, WalkStep};
use std::collections::HashMap;

fn id(n: u8) -> BlockId {
    BlockId::new([n; 32])
}

fn snapshot(name: &str, external_id: &str) -> PublishEvent {
    PublishEvent::Snapshot { name: name.to_string(), external_id: external_id.to_string() }
}

fn submitted(action: PublishAction) -> TaggedData {
    match action {
        PublishAction::Submit(payload) => payload,
        other => panic!("{:?}", other),
    }
}

/// What stands around the publisher in these tests: a ledger that numbers
/// its records, and a checkpoint that can be made to fail.
struct World {
    held: HashMap<BlockId, TaggedData>,
    stored: Option<String>,
    disk_full: bool,
}

impl World {
    fn new() -> World {
        World { held: HashMap::new(), stored: None, disk_full: false }
    }

    fn load(&self) -> ChainPublisher {
        ChainPublisher::new(read_checkpoint(self.stored.as_deref()).unwrap())
    }

    fn save(&mut self, id: &BlockId) -> bool {
        if self.disk_full {
            return false;
        }
        self.stored = Some(write_checkpoint(id));
        true
    }

    /// Runs one event through to the end, doing what the publisher asks for.
    fn run(&mut self, state: ChainPublisher, event: PublishEvent) -> (ChainPublisher, PublishAction) {
        let (mut state, mut action) = state.step(event);
        loop {
            let event = match action {
                PublishAction::Submit(payload) => {
                    let id = id(self.held.len() as u8 + 1);
                    self.held.insert(id, payload);
                    PublishEvent::Published(id)
                }
                PublishAction::Save(id) => {
                    if self.save(&id) {
                        PublishEvent::Saved
                    } else {
                        PublishEvent::SaveFailed
                    }
                }
                last => return (state, last),
            };
            (state, action) = state.step(event);
        }
    }

    fn walk(&self, start: BlockId) -> Result<Vec<Record>, ChainError> {
        let mut walker = ChainWalker::new(start);
        loop {
            let answer = match self.held.get(&walker.wanted()) {
                Some(payload) => Fetched::Found(payload.clone()),
                None => Fetched::NotFound,
            };
            match walker.step(answer) {
                WalkStep::Fetch(next) => walker = next,
                WalkStep::Done(records) => return Ok(records),
                WalkStep::Failed(e) => return Err(e),
            }
        }
    }
}

#[test]
fn startup_without_a_checkpoint_has_no_tip() {
    assert_eq!(ChainPublisher::new(None), ChainPublisher::NoCheckpoint);
    assert_eq!(ChainPublisher::new(None).tip(), None);
}

#[test]
fn startup_with_a_checkpoint_has_its_tip() {
    assert_eq!(ChainPublisher::new(Some(id(4))), ChainPublisher::HasTip(id(4)));
    assert_eq!(ChainPublisher::new(Some(id(4))).tip(), Some(id(4)));
    assert_eq!(ChainPublisher::Saving(id(4)).tip(), None);
    assert_eq!(ChainPublisher::Submitting(Some(id(4))).tip(), None);
}

#[test]
fn first_record_is_made_when_the_run_begins_without_a_checkpoint() {
    let (state, action) = ChainPublisher::NoCheckpoint.step(PublishEvent::Begin);
    assert_eq!(state, ChainPublisher::Submitting(None));
    let payload = submitted(action);
    assert_eq!(payload.tag(), b"NP_GAME_CACHE");
    assert_eq!(
        decode(payload.data()),
        Ok(GameInfo { game_id: String::new(), game_name: String::new(), parent: None })
    );
    assert_eq!(
        payload.data(),
        b"{\n  \"game_id\": \"\",\n  \"game_name\": \"\",\n  \"parent\": null\n}"
    );
}

#[test]
fn first_record_is_skipped_with_a_checkpoint() {
    assert_eq!(
        ChainPublisher::HasTip(id(4)).step(PublishEvent::Begin),
        (ChainPublisher::HasTip(id(4)), PublishAction::Ignored)
    );
}

#[test]
fn published_record_names_the_tip_as_its_parent() {
    let (state, action) = ChainPublisher::HasTip(id(4)).step(snapshot("Final Frontier", "42"));
    assert_eq!(state, ChainPublisher::Submitting(Some(id(4))));
    let payload = submitted(action);
    assert_eq!(payload.tag(), b"NP_GAME_CACHE");
    assert_eq!(
        decode(payload.data()),
        Ok(GameInfo {
            game_id: "42".to_string(),
            game_name: "Final Frontier".to_string(),
            parent: Some(id(4)),
        })
    );
}

#[test]
fn checkpoint_names_the_new_record_after_a_publish() {
    let mut world = World::new();
    world.stored = Some(write_checkpoint(&id(200)));
    let state = world.load();
    assert_eq!(state, ChainPublisher::HasTip(id(200)));
    let (state, action) = world.run(state, snapshot("Final Frontier", "42"));
    let new = id(1);
    assert_eq!(action, PublishAction::Done(new));
    assert_eq!(state, ChainPublisher::HasTip(new));
    assert_eq!(world.load(), ChainPublisher::HasTip(new));
    assert_eq!(read_checkpoint(world.stored.as_deref()), Ok(Some(new)));
    assert_eq!(decode(world.held[&new].data()).unwrap().parent, Some(id(200)));
}

#[test]
fn chain_grows_record_by_record() {
    let mut world = World::new();
    let state = world.load();
    assert_eq!(state, ChainPublisher::NoCheckpoint);
    let (state, action) = world.run(state, PublishEvent::Begin);
    assert_eq!(action, PublishAction::Done(id(1)));
    let (state, action) = world.run(state, snapshot("Alpha", "100"));
    assert_eq!(action, PublishAction::Done(id(2)));
    let (state, action) = world.run(state, snapshot("Beta", "101"));
    assert_eq!(action, PublishAction::Done(id(3)));
    assert_eq!(state.tip(), Some(id(3)));
    let names: Vec<String> =
        world.walk(id(3)).unwrap().into_iter().map(|r| r.info.game_name).collect();
    assert_eq!(names, vec!["".to_string(), "Alpha".to_string(), "Beta".to_string()]);
}

#[test]
fn failed_save_names_the_identifier_and_can_be_made_good() {
    let mut world = World::new();
    let (state, _) = world.run(world.load(), PublishEvent::Begin);
    let (state, _) = world.run(state, snapshot("Alpha", "100"));
    assert_eq!(state, ChainPublisher::HasTip(id(2)));

    world.disk_full = true;
    let (state, action) = world.run(state, snapshot("Beta", "101"));
    assert_eq!(action, PublishAction::Failed(ChainError::CheckpointSaveFailed(id(3))));
    assert_eq!(state, ChainPublisher::Saving(id(3)));
    assert_eq!(read_checkpoint(world.stored.as_deref()), Ok(Some(id(2))));
    assert_eq!(world.held.len(), 3);

    world.disk_full = false;
    let assigned = match action {
        PublishAction::Failed(ChainError::CheckpointSaveFailed(assigned)) => assigned,
        other => panic!("{:?}", other),
    };
    assert!(world.save(&assigned));
    assert_eq!(state.step(PublishEvent::Saved), (ChainPublisher::HasTip(id(3)), PublishAction::Done(id(3))));
    assert_eq!(world.held.len(), 3);
    let tip = world.load().tip().unwrap();
    assert_eq!(tip, id(3));
    let history = world.walk(tip).unwrap();
    assert_eq!(history.len(), 3);
    assert_eq!(history[2].identifier, id(3));
    assert_eq!(history[2].info.game_name, "Beta");
    assert_eq!(history[2].info.parent, Some(id(2)));
}

#[test]
fn game_without_name_or_identifier_is_a_data_source_failure() {
    let state = ChainPublisher::HasTip(id(4));
    for event in [snapshot("", "42"), snapshot("Final Frontier", ""), snapshot("", "")] {
        assert_eq!(
            state.step(event),
            (state, PublishAction::Failed(ChainError::DataSourceError))
        );
    }
    assert_eq!(
        state.step(PublishEvent::SnapshotFailed),
        (state, PublishAction::Failed(ChainError::DataSourceError))
    );
}

#[test]
fn record_too_long_for_the_ledger_is_rejected() {
    let state = ChainPublisher::HasTip(id(4));
    let long = "n".repeat(32713);
    assert_eq!(
        state.step(snapshot(&long, "42")),
        (state, PublishAction::Failed(ChainError::LedgerRejected))
    );
    let overhead = encode(&GameInfo {
        game_id: "42".to_string(),
        game_name: String::new(),
        parent: Some(id(4)),
    })
    .len();
    let fits = "n".repeat(32713 - overhead);
    let payload = submitted(state.step(snapshot(&fits, "42")).1);
    assert_eq!(payload.data().len(), 32713);
    let too_long = "n".repeat(32713 - overhead + 1);
    assert_eq!(
        state.step(snapshot(&too_long, "42")),
        (state, PublishAction::Failed(ChainError::LedgerRejected))
    );
}

#[test]
fn failed_submission_leaves_the_chain_where_it_stood() {
    assert_eq!(
        ChainPublisher::Submitting(Some(id(4))).step(PublishEvent::Unavailable),
        (ChainPublisher::HasTip(id(4)), PublishAction::Failed(ChainError::LedgerUnavailable))
    );
    assert_eq!(
        ChainPublisher::Submitting(Some(id(4))).step(PublishEvent::Rejected),
        (ChainPublisher::HasTip(id(4)), PublishAction::Failed(ChainError::LedgerRejected))
    );
    assert_eq!(
        ChainPublisher::Submitting(None).step(PublishEvent::Unavailable),
        (ChainPublisher::NoCheckpoint, PublishAction::Failed(ChainError::LedgerUnavailable))
    );
    assert_eq!(
        ChainPublisher::Submitting(None).step(PublishEvent::Rejected),
        (ChainPublisher::NoCheckpoint, PublishAction::Failed(ChainError::LedgerRejected))
    );
}

#[test]
fn ledger_answer_asks_for_the_save() {
    assert_eq!(
        ChainPublisher::Submitting(Some(id(4))).step(PublishEvent::Published(id(5))),
        (ChainPublisher::Saving(id(5)), PublishAction::Save(id(5)))
    );
    assert_eq!(
        ChainPublisher::Saving(id(5)).step(PublishEvent::Saved),
        (ChainPublisher::HasTip(id(5)), PublishAction::Done(id(5)))
    );
    assert_eq!(
        ChainPublisher::Saving(id(5)).step(PublishEvent::SaveFailed),
        (ChainPublisher::Saving(id(5)), PublishAction::Failed(ChainError::CheckpointSaveFailed(id(5))))
    );
}

#[test]
fn event_out_of_turn_changes_nothing() {
    let events = || {
        vec![
            PublishEvent::Begin,
            snapshot("Final Frontier", "42"),
            PublishEvent::SnapshotFailed,
            PublishEvent::Published(id(9)),
            PublishEvent::Unavailable,
            PublishEvent::Rejected,
            PublishEvent::Saved,
            PublishEvent::SaveFailed,
        ]
    };
    let waits_for = |state: &ChainPublisher, event: &PublishEvent| match state {
        ChainPublisher::NoCheckpoint => matches!(event, PublishEvent::Begin),
        ChainPublisher::HasTip(_) => {
            matches!(event, PublishEvent::Snapshot { .. } | PublishEvent::SnapshotFailed)
        }
        ChainPublisher::Submitting(_) => matches!(
            event,
            PublishEvent::Published(_) | PublishEvent::Unavailable | PublishEvent::Rejected
        ),
        ChainPublisher::Saving(_) => matches!(event, PublishEvent::Saved | PublishEvent::SaveFailed),
    };
    for state in [
        ChainPublisher::NoCheckpoint,
        ChainPublisher::HasTip(id(4)),
        ChainPublisher::Submitting(None),
        ChainPublisher::Submitting(Some(id(4))),
        ChainPublisher::Saving(id(5)),
    ] {
        for event in events() {
            let expected = waits_for(&state, &event);
            let (after, action) = state.step(event);
            if expected {
                assert_ne!(action, PublishAction::Ignored);
            } else {
                assert_eq!((after, action), (state, PublishAction::Ignored));
            }
        }
    }
}

#[test]
fn note_of_a_record_is_its_identifier_as_text() {
    let note = block_id_note(&id(0x5c));
    assert_eq!(note.tag(), b"Block ID");
    assert_eq!(note.data(), format!("0x{}", "5c".repeat(32)).as_bytes());
}

#[test]
fn game_of_five_thousand_bytes_is_submitted() {
    let state = ChainPublisher::HasTip(id(4));
    let name = "\u{1}".repeat(4999);
    let payload = submitted(state.step(snapshot(&name, "7")).1);
    assert_eq!(payload.data().len(), 120 + 6 * 4999 + 1);
    assert_eq!(decode(payload.data()).unwrap().game_name, name);
}
