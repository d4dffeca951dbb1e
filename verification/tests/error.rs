use game_monitor::block_id::BlockId;
use game_monitor::error::ChainError;

fn id(n: u8) -> BlockId {
    BlockId::new([n; 32])
}

fn each() -> Vec<ChainError> {
    vec![
        ChainError::DataSourceError,
        ChainError::LedgerUnavailable,
        ChainError::LedgerRejected,
        ChainError::NotFound(id(1)),
        ChainError::MalformedRecord(id(2)),
        ChainError::CycleDetected(id(3)),
        ChainError::CheckpointCorrupt,
        ChainError::CheckpointSaveFailed(id(4)),
    ]
}

#[test]
fn only_a_data_source_failure_lets_the_run_go_on() {
    for e in each() {
        assert_eq!(e.ends_run(), e != ChainError::DataSourceError);
    }
}

#[test]
fn failures_of_a_record_name_its_identifier() {
    let named: Vec<Option<BlockId>> = each().iter().map(|e| e.identifier()).collect();
    assert_eq!(
        named,
        vec![None, None, None, Some(id(1)), Some(id(2)), Some(id(3)), None, Some(id(4))]
    );
}

#[test]
fn message_says_what_went_wrong_and_where() {
    let messages: Vec<String> = each().iter().map(|e| e.message()).collect();
    assert_eq!(
        messages,
        vec![
            "the data source gave no game".to_string(),
            "the ledger could not be reached".to_string(),
            "the ledger refused the record".to_string(),
            format!("the ledger holds no record under 0x{}", "01".repeat(32)),
            format!("malformed record under 0x{}", "02".repeat(32)),
            format!("cycle detected at 0x{}", "03".repeat(32)),
            "the checkpoint names no identifier".to_string(),
            format!("checkpoint not saved for the record published under 0x{}", "04".repeat(32)),
        ]
    );
}
