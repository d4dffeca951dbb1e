use game_monitor::block_id::BlockId;
use game_monitor::codec::{encode, GameInfo};
use game_monitor::error::ChainError;
use game_monitor::payload::TaggedData;
use game_monitor::walker::{ChainWalker, Fetched, Record, WalkStep};
use std::collections::HashMap;

/// A ledger in memory: what it holds under each identifier, the identifiers
/// it cannot be reached for, and the fetches it was asked for.
struct Ledger {
    held: HashMap<BlockId, Vec<u8>>,
    down: Vec<BlockId>,
    asked: Vec<BlockId>,
}

impl Ledger {
    fn new() -> Ledger {
        Ledger { held: HashMap::new(), down: Vec::new(), asked: Vec::new() }
    }

    fn put(&mut self, id: BlockId, info: &GameInfo) {
        self.held.insert(id, encode(info));
    }

    fn fetch(&mut self, id: BlockId) -> Fetched {
        self.asked.push(id);
        if self.down.contains(&id) {
            return Fetched::Unavailable;
        }
        match self.held.get(&id) {
            Some(data) => {
                Fetched::Found(TaggedData::new(b"NP_GAME_CACHE".to_vec(), data.clone()).unwrap())
            }
            None => Fetched::NotFound,
        }
    }

    fn walk(&mut self, start: BlockId) -> Result<Vec<Record>, ChainError> {
        let mut walker = ChainWalker::new(start);
        loop {
            let answer = self.fetch(walker.wanted());
            match walker.step(answer) {
                WalkStep::Fetch(next) => walker = next,
                WalkStep::Done(records) => return Ok(records),
                WalkStep::Failed(e) => return Err(e),
            }
        }
    }
}

fn id(n: u8) -> BlockId {
    BlockId::new([n; 32])
}

fn info(n: u8, parent: Option<BlockId>) -> GameInfo {
    GameInfo { game_id: format!("{}", 1000 + n as u32), game_name: format!("game {}", n), parent }
}

fn record(n: u8, parent: Option<BlockId>) -> Record {
    Record { identifier: id(n), info: info(n, parent) }
}

/// r0 (first record) <- r1 <- r2 <- r3
fn chain_of_four() -> Ledger {
    let mut ledger = Ledger::new();
    ledger.put(id(0), &info(0, None));
    ledger.put(id(1), &info(1, Some(id(0))));
    ledger.put(id(2), &info(2, Some(id(1))));
    ledger.put(id(3), &info(3, Some(id(2))));
    ledger
}

#[test]
fn walk_order_is_oldest_first() {
    let mut ledger = chain_of_four();
    assert_eq!(
        ledger.walk(id(3)),
        Ok(vec![
            record(0, None),
            record(1, Some(id(0))),
            record(2, Some(id(1))),
            record(3, Some(id(2))),
        ])
    );
    assert_eq!(ledger.asked, vec![id(3), id(2), id(1), id(0)]);
}

#[test]
fn walk_from_the_middle_stops_at_the_start() {
    let mut ledger = chain_of_four();
    assert_eq!(ledger.walk(id(1)), Ok(vec![record(0, None), record(1, Some(id(0)))]));
    assert_eq!(ledger.asked, vec![id(1), id(0)]);
}

#[test]
fn walk_of_a_first_record_is_that_record_and_one_fetch() {
    let mut ledger = Ledger::new();
    ledger.put(id(9), &info(9, None));
    assert_eq!(ledger.walk(id(9)), Ok(vec![record(9, None)]));
    assert_eq!(ledger.asked, vec![id(9)]);
}

#[test]
fn first_step_of_a_first_record_is_done() {
    let walker = ChainWalker::new(id(9));
    assert_eq!(walker.wanted(), id(9));
    let payload = TaggedData::new(b"NP_GAME_CACHE".to_vec(), encode(&info(9, None))).unwrap();
    assert_eq!(walker.step(Fetched::Found(payload)), WalkStep::Done(vec![record(9, None)]));
}

#[test]
fn step_goes_on_to_the_parent() {
    let walker = ChainWalker::new(id(3));
    let payload =
        TaggedData::new(b"NP_GAME_CACHE".to_vec(), encode(&info(3, Some(id(2))))).unwrap();
    match walker.step(Fetched::Found(payload)) {
        WalkStep::Fetch(next) => assert_eq!(next.wanted(), id(2)),
        other => panic!("{:?}", other),
    }
}

#[test]
fn cycle_of_two_is_detected() {
    let mut ledger = Ledger::new();
    ledger.put(id(1), &info(1, Some(id(2))));
    ledger.put(id(2), &info(2, Some(id(1))));
    assert_eq!(ledger.walk(id(1)), Err(ChainError::CycleDetected(id(1))));
    assert_eq!(ledger.asked, vec![id(1), id(2), id(1)]);
    let mut ledger = Ledger::new();
    ledger.put(id(1), &info(1, Some(id(2))));
    ledger.put(id(2), &info(2, Some(id(1))));
    assert_eq!(ledger.walk(id(2)), Err(ChainError::CycleDetected(id(2))));
}

#[test]
fn record_that_is_its_own_parent_is_a_cycle() {
    let mut ledger = Ledger::new();
    ledger.put(id(5), &info(5, Some(id(5))));
    assert_eq!(ledger.walk(id(5)), Err(ChainError::CycleDetected(id(5))));
    assert_eq!(ledger.asked, vec![id(5), id(5)]);
}

#[test]
fn cycle_behind_a_tail_is_detected() {
    let mut ledger = Ledger::new();
    ledger.put(id(4), &info(4, Some(id(3))));
    ledger.put(id(3), &info(3, Some(id(2))));
    ledger.put(id(2), &info(2, Some(id(1))));
    ledger.put(id(1), &info(1, Some(id(2))));
    assert_eq!(ledger.walk(id(4)), Err(ChainError::CycleDetected(id(2))));
}

#[test]
fn malformed_record_in_the_middle_fails_the_walk() {
    for start in [2u8, 3] {
        let mut ledger = chain_of_four();
        let mut damaged = encode(&info(1, Some(id(0))));
        damaged[20] = b'}';
        ledger.held.insert(id(1), damaged);
        assert_eq!(ledger.walk(id(start)), Err(ChainError::MalformedRecord(id(1))));
    }
    let mut ledger = chain_of_four();
    let mut cut = encode(&info(2, Some(id(1))));
    cut.truncate(30);
    ledger.held.insert(id(2), cut);
    assert_eq!(ledger.walk(id(3)), Err(ChainError::MalformedRecord(id(2))));
    assert_eq!(ledger.asked, vec![id(3), id(2)]);
}

#[test]
fn malformed_start_fails_the_walk() {
    let mut ledger = Ledger::new();
    ledger.held.insert(id(7), b"Game ID: 7".to_vec());
    assert_eq!(ledger.walk(id(7)), Err(ChainError::MalformedRecord(id(7))));
}

#[test]
fn missing_record_fails_the_walk() {
    let mut ledger = chain_of_four();
    ledger.held.remove(&id(1));
    assert_eq!(ledger.walk(id(3)), Err(ChainError::NotFound(id(1))));
    let mut empty = Ledger::new();
    assert_eq!(empty.walk(id(3)), Err(ChainError::NotFound(id(3))));
}

#[test]
fn unreachable_ledger_fails_the_walk() {
    let mut ledger = chain_of_four();
    ledger.down.push(id(2));
    assert_eq!(ledger.walk(id(3)), Err(ChainError::LedgerUnavailable));
    assert_eq!(ledger.asked, vec![id(3), id(2)]);
}

#[test]
fn walking_twice_gives_the_same_history() {
    let mut ledger = chain_of_four();
    let first = ledger.walk(id(3));
    let second = ledger.walk(id(3));
    assert!(first.is_ok());
    assert_eq!(first, second);
}

#[test]
fn history_has_no_identifier_twice_and_each_record_names_the_one_before() {
    let mut ledger = Ledger::new();
    ledger.put(id(0), &info(0, None));
    for n in 1u8..40 {
        ledger.put(id(n), &info(n, Some(id(n - 1))));
    }
    let records = ledger.walk(id(39)).unwrap();
    assert_eq!(records.len(), 40);
    assert_eq!(records[0].info.parent, None);
    assert_eq!(records[39].identifier, id(39));
    for i in 1..records.len() {
        assert_eq!(records[i].info.parent, Some(records[i - 1].identifier));
        for j in 0..i {
            assert_ne!(records[i].identifier, records[j].identifier);
        }
    }
}

#[test]
fn record_with_a_parent_of_one_letter_that_is_not_ascii_fails_the_walk() {
    let mut ledger = chain_of_four();
    ledger.held.insert(
        id(1),
        "{\n  \"game_id\": \"1001\",\n  \"game_name\": \"game 1\",\n  \"parent\": \"\u{e9}\"\n}"
            .as_bytes()
            .to_vec(),
    );
    assert_eq!(ledger.walk(id(3)), Err(ChainError::MalformedRecord(id(1))));
    assert_eq!(ledger.asked, vec![id(3), id(2), id(1)]);
}
