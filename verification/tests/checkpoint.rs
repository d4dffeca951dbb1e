use game_monitor::block_id::BlockId;
use game_monitor::checkpoint::{read_checkpoint, write_checkpoint};
use game_monitor::error::ChainError;

#[test]
fn no_checkpoint_means_no_tip() {
    assert_eq!(read_checkpoint(None), Ok(None));
}

#[test]
fn stored_text_names_the_tip() {
    let text = format!("0x{}", "5c".repeat(32));
    assert_eq!(read_checkpoint(Some(&text)), Ok(Some(BlockId::new([0x5c; 32]))));
}

#[test]
fn text_that_names_no_identifier_is_corrupt() {
    assert_eq!(read_checkpoint(Some("")), Err(ChainError::CheckpointCorrupt));
    assert_eq!(read_checkpoint(Some("last block")), Err(ChainError::CheckpointCorrupt));
    let cut = format!("0x{}", "5c".repeat(31));
    assert_eq!(read_checkpoint(Some(&cut)), Err(ChainError::CheckpointCorrupt));
    let with_newline = format!("0x{}\n", "5c".repeat(32));
    assert_eq!(read_checkpoint(Some(&with_newline)), Err(ChainError::CheckpointCorrupt));
}

#[test]
fn written_checkpoint_is_the_identifier_text() {
    assert_eq!(
        write_checkpoint(&BlockId::new([0x5c; 32])),
        format!("0x{}", "5c".repeat(32))
    );
}

#[test]
fn checkpoint_round_trip() {
    for n in [0u8, 1, 0x3c, 0xa0, 0xff] {
        let id = BlockId::new([n; 32]);
        let text = write_checkpoint(&id);
        assert_eq!(read_checkpoint(Some(&text)), Ok(Some(id)));
    }
}

#[test]
fn short_text_that_is_not_ascii_is_corrupt() {
    for text in ["\u{20ac}", "\u{e9}", "\u{1f600}", "0\u{e9}"] {
        assert_eq!(read_checkpoint(Some(text)), Err(ChainError::CheckpointCorrupt));
    }
}
