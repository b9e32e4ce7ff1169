use mapping_sync::chain::{
    BlockIdentity, BlockRecord, ChainView, DecodedLog, Header, MappingFacts,
    SecondaryBlockIdentity, TransactionIdentity,
};
use mapping_sync::errors::{DecodeError, SyncError};
use mapping_sync::store::{MappingEntry, MappingStore};
use mapping_sync::sync::{decode, sync_block, sync_blocks, sync_genesis_block, sync_one_level};

fn bid(v: u64) -> BlockIdentity {
    BlockIdentity { value: v }
}

fn sid(v: u64) -> SecondaryBlockIdentity {
    SecondaryBlockIdentity { value: v }
}

fn tid(v: u64) -> TransactionIdentity {
    TransactionIdentity { value: v }
}

fn header(id: u64, number: u64, parent: u64, log: DecodedLog) -> Header {
    Header { identity: bid(id), number, parent: bid(parent), log }
}

fn facts(secondary: u64, txs: &[u64]) -> DecodedLog {
    DecodedLog::Facts(MappingFacts {
        secondary_block_identity: sid(secondary),
        secondary_transaction_identities: txs.iter().map(|v| tid(*v)).collect(),
    })
}

fn record(id: u64, number: u64, parent: u64, log: DecodedLog, children: &[u64]) -> BlockRecord {
    BlockRecord {
        header: header(id, number, parent, log),
        children: children.iter().map(|v| bid(*v)).collect(),
    }
}

fn ids(vs: &[u64]) -> Vec<BlockIdentity> {
    vs.iter().map(|v| bid(*v)).collect()
}

fn entry(host: u64, secondary: u64, txs: &[u64]) -> MappingEntry {
    MappingEntry {
        host_block_identity: bid(host),
        secondary_block_identity: sid(secondary),
        secondary_transaction_identities: txs.iter().map(|v| tid(*v)).collect(),
    }
}

/// A store whose frontier is {A} with A already indexed, as after bootstrap.
fn store_with_tip(host: u64, secondary: u64) -> MappingStore {
    MappingStore { entries: vec![entry(host, secondary, &[])], frontier: ids(&[host]) }
}

#[test]
fn bootstrap_writes_genesis_mapping() {
    // Empty frontier, host genesis known, runtime reports secondary genesis.
    let chain = ChainView {
        blocks: vec![record(1, 0, 0, DecodedLog::Missing, &[])],
        canonical: ids(&[1]),
        last_finalized: Some(bid(1)),
        secondary_genesis: Some(sid(100)),
    };
    let mut store = MappingStore::new();
    assert_eq!(sync_blocks(&chain, &mut store, 1), Ok(true));
    assert_eq!(store.frontier, ids(&[1]));
    assert_eq!(store.entries, vec![entry(1, 100, &[])]);
}

#[test]
fn bootstrap_fails_without_finalized_block() {
    let chain = ChainView {
        blocks: vec![record(1, 0, 0, DecodedLog::Missing, &[])],
        canonical: ids(&[1]),
        last_finalized: None,
        secondary_genesis: Some(sid(100)),
    };
    let mut store = MappingStore::new();
    assert_eq!(
        sync_one_level(&chain, &mut store),
        Err(SyncError::FinalizedBlockUnknown)
    );
    assert!(store.entries.is_empty());
    assert!(store.frontier.is_empty());
}

#[test]
fn bootstrap_fails_without_genesis_header() {
    let chain = ChainView {
        blocks: vec![record(2, 1, 1, DecodedLog::Missing, &[])],
        canonical: ids(&[2]),
        last_finalized: Some(bid(2)),
        secondary_genesis: Some(sid(100)),
    };
    let mut store = MappingStore::new();
    assert_eq!(sync_one_level(&chain, &mut store), Err(SyncError::HeaderNotFound));
    assert!(store.entries.is_empty());
}

#[test]
fn bootstrap_fails_without_secondary_genesis() {
    let chain = ChainView {
        blocks: vec![record(1, 0, 0, DecodedLog::Missing, &[])],
        canonical: ids(&[1]),
        last_finalized: Some(bid(1)),
        secondary_genesis: None,
    };
    let mut store = MappingStore::new();
    assert_eq!(
        sync_one_level(&chain, &mut store),
        Err(SyncError::SecondaryGenesisNotFound)
    );
    assert!(store.entries.is_empty());
}

#[test]
fn single_step_advances_to_canonical_finalized_child() {
    // Frontier = {A}; A has children {B, C}; only B is canonical and B is
    // finalized: the step advances past A to B and writes B's entry.
    let chain = ChainView {
        blocks: vec![
            record(1, 1, 0, DecodedLog::Missing, &[2, 3]),
            record(2, 2, 1, facts(200, &[7, 8]), &[]),
            record(3, 2, 1, facts(300, &[]), &[]),
        ],
        canonical: ids(&[1, 2]),
        last_finalized: Some(bid(2)),
        secondary_genesis: Some(sid(100)),
    };
    let mut store = store_with_tip(1, 100);
    assert_eq!(sync_one_level(&chain, &mut store), Ok(true));
    assert_eq!(store.frontier, ids(&[2]));
    assert_eq!(
        store.entries,
        vec![entry(1, 100, &[]), entry(2, 200, &[7, 8])]
    );
}

#[test]
fn first_canonical_child_wins_in_enumeration_order() {
    // Both children are canonical and finalized: the first in the backend's
    // enumeration order is selected.
    let chain = ChainView {
        blocks: vec![
            record(1, 1, 0, DecodedLog::Missing, &[3, 2]),
            record(2, 2, 1, facts(200, &[]), &[]),
            record(3, 2, 1, facts(300, &[9]), &[]),
        ],
        canonical: ids(&[1, 2, 3]),
        last_finalized: Some(bid(3)),
        secondary_genesis: Some(sid(100)),
    };
    let mut store = store_with_tip(1, 100);
    assert_eq!(sync_one_level(&chain, &mut store), Ok(true));
    assert_eq!(store.frontier, ids(&[3]));
    assert_eq!(store.entries, vec![entry(1, 100, &[]), entry(3, 300, &[9])]);
}

#[test]
fn stall_on_non_finalized_canonical_child() {
    // A's only canonical child D is above the finality horizon: no progress,
    // state unchanged.
    let chain = ChainView {
        blocks: vec![
            record(1, 1, 0, DecodedLog::Missing, &[4]),
            record(4, 2, 1, facts(400, &[]), &[]),
        ],
        canonical: ids(&[1, 4]),
        last_finalized: Some(bid(1)),
        secondary_genesis: Some(sid(100)),
    };
    let mut store = store_with_tip(1, 100);
    assert_eq!(sync_one_level(&chain, &mut store), Ok(false));
    assert_eq!(store.frontier, ids(&[1]));
    assert_eq!(store.entries, vec![entry(1, 100, &[])]);
}

#[test]
fn first_blocking_tip_blocks_later_members() {
    // Frontier = [A, Z] in that order. A's only child is off the canonical
    // chain; Z's child fully qualifies. The first member with any children
    // decides the step, so the step still makes no progress.
    let chain = ChainView {
        blocks: vec![
            record(1, 1, 0, DecodedLog::Missing, &[5]),
            record(5, 2, 1, facts(500, &[]), &[]),
            record(4, 1, 0, DecodedLog::Missing, &[6]),
            record(6, 2, 4, facts(600, &[]), &[]),
        ],
        canonical: ids(&[1, 4, 6]),
        last_finalized: Some(bid(6)),
        secondary_genesis: Some(sid(100)),
    };
    let mut store = MappingStore {
        entries: vec![entry(1, 100, &[]), entry(4, 140, &[])],
        frontier: ids(&[1, 4]),
    };
    assert_eq!(sync_one_level(&chain, &mut store), Ok(false));
    assert_eq!(store.frontier, ids(&[1, 4]));
    assert_eq!(store.entries, vec![entry(1, 100, &[]), entry(4, 140, &[])]);
}

#[test]
fn childless_tip_is_skipped_not_blocking() {
    // A has no children at all: it makes no decision, stays in the frontier,
    // and the scan moves on to Z, whose child qualifies.
    let chain = ChainView {
        blocks: vec![
            record(1, 1, 0, DecodedLog::Missing, &[]),
            record(4, 1, 0, DecodedLog::Missing, &[6]),
            record(6, 2, 4, facts(600, &[2]), &[]),
        ],
        canonical: ids(&[1, 4, 6]),
        last_finalized: Some(bid(6)),
        secondary_genesis: Some(sid(100)),
    };
    let mut store = MappingStore {
        entries: vec![entry(1, 100, &[]), entry(4, 140, &[])],
        frontier: ids(&[1, 4]),
    };
    assert_eq!(sync_one_level(&chain, &mut store), Ok(true));
    assert_eq!(store.frontier, ids(&[1, 6]));
    assert_eq!(
        store.entries,
        vec![entry(1, 100, &[]), entry(4, 140, &[]), entry(6, 600, &[2])]
    );
}

fn three_ready_levels() -> (ChainView, MappingStore) {
    let chain = ChainView {
        blocks: vec![
            record(1, 1, 0, DecodedLog::Missing, &[2]),
            record(2, 2, 1, facts(200, &[]), &[3]),
            record(3, 3, 2, facts(300, &[]), &[4]),
            record(4, 4, 3, facts(400, &[]), &[]),
        ],
        canonical: ids(&[1, 2, 3, 4]),
        last_finalized: Some(bid(4)),
        secondary_genesis: Some(sid(100)),
    };
    (chain, store_with_tip(1, 100))
}

#[test]
fn batch_drains_three_ready_levels() {
    let (chain, mut store) = three_ready_levels();
    assert_eq!(sync_blocks(&chain, &mut store, 3), Ok(true));
    assert_eq!(store.frontier, ids(&[4]));
    assert_eq!(
        store.entries,
        vec![
            entry(1, 100, &[]),
            entry(2, 200, &[]),
            entry(3, 300, &[]),
            entry(4, 400, &[]),
        ]
    );
}

#[test]
fn batch_of_one_advances_exactly_one_level() {
    let (chain, mut store) = three_ready_levels();
    assert_eq!(sync_blocks(&chain, &mut store, 1), Ok(true));
    assert_eq!(store.frontier, ids(&[2]));
    assert_eq!(store.entries.len(), 2);
}

#[test]
fn batch_keeps_running_after_no_progress() {
    // Two levels are ready; a batch of four still reports progress and ends
    // with the two levels drained.
    let chain = ChainView {
        blocks: vec![
            record(1, 1, 0, DecodedLog::Missing, &[2]),
            record(2, 2, 1, facts(200, &[]), &[3]),
            record(3, 3, 2, facts(300, &[]), &[]),
        ],
        canonical: ids(&[1, 2, 3]),
        last_finalized: Some(bid(3)),
        secondary_genesis: Some(sid(100)),
    };
    let mut store = store_with_tip(1, 100);
    assert_eq!(sync_blocks(&chain, &mut store, 4), Ok(true));
    assert_eq!(store.frontier, ids(&[3]));
    assert_eq!(store.entries.len(), 3);
}

#[test]
fn no_progress_batch_is_idempotent() {
    // After a batch that made no progress, running again returns false again
    // and the persisted state is identical.
    let chain = ChainView {
        blocks: vec![
            record(1, 1, 0, DecodedLog::Missing, &[4]),
            record(4, 2, 1, facts(400, &[]), &[]),
        ],
        canonical: ids(&[1, 4]),
        last_finalized: Some(bid(1)),
        secondary_genesis: Some(sid(100)),
    };
    let mut store = store_with_tip(1, 100);
    assert_eq!(sync_blocks(&chain, &mut store, 2), Ok(false));
    assert_eq!(store.current_frontier(), ids(&[1]));
    assert_eq!(store.entries, vec![entry(1, 100, &[])]);
    assert_eq!(sync_blocks(&chain, &mut store, 2), Ok(false));
    assert_eq!(store.current_frontier(), ids(&[1]));
    assert_eq!(store.entries, vec![entry(1, 100, &[])]);
}

#[test]
fn finalized_unknown_with_nonempty_frontier() {
    let chain = ChainView {
        blocks: vec![record(1, 1, 0, DecodedLog::Missing, &[])],
        canonical: ids(&[1]),
        last_finalized: None,
        secondary_genesis: Some(sid(100)),
    };
    let mut store = store_with_tip(1, 100);
    assert_eq!(
        sync_one_level(&chain, &mut store),
        Err(SyncError::FinalizedBlockUnknown)
    );
    assert_eq!(store.frontier, ids(&[1]));
}

#[test]
fn finalized_record_missing_is_finalized_unknown() {
    // The chain names a last-finalized block whose record is unknown.
    let chain = ChainView {
        blocks: vec![record(1, 1, 0, DecodedLog::Missing, &[])],
        canonical: ids(&[1]),
        last_finalized: Some(bid(9)),
        secondary_genesis: Some(sid(100)),
    };
    let mut store = store_with_tip(1, 100);
    assert_eq!(
        sync_one_level(&chain, &mut store),
        Err(SyncError::FinalizedBlockUnknown)
    );
}

#[test]
fn canonical_child_without_record_is_number_unknown() {
    // The canonical child has no record, so its height cannot be read.
    let chain = ChainView {
        blocks: vec![record(1, 1, 0, DecodedLog::Missing, &[9])],
        canonical: ids(&[1, 9]),
        last_finalized: Some(bid(1)),
        secondary_genesis: Some(sid(100)),
    };
    let mut store = store_with_tip(1, 100);
    assert_eq!(
        sync_one_level(&chain, &mut store),
        Err(SyncError::BlockNumberUnknown)
    );
    assert_eq!(store.frontier, ids(&[1]));
    assert_eq!(store.entries, vec![entry(1, 100, &[])]);
}

#[test]
fn missing_log_on_selected_child_fails_step() {
    let chain = ChainView {
        blocks: vec![
            record(1, 1, 0, DecodedLog::Missing, &[2]),
            record(2, 2, 1, DecodedLog::Missing, &[]),
        ],
        canonical: ids(&[1, 2]),
        last_finalized: Some(bid(2)),
        secondary_genesis: Some(sid(100)),
    };
    let mut store = store_with_tip(1, 100);
    assert_eq!(
        sync_one_level(&chain, &mut store),
        Err(SyncError::Decode(DecodeError::MissingLog))
    );
    // The failed step left both the frontier and the table unchanged.
    assert_eq!(store.frontier, ids(&[1]));
    assert_eq!(store.entries, vec![entry(1, 100, &[])]);
}

#[test]
fn malformed_log_on_selected_child_fails_step() {
    let chain = ChainView {
        blocks: vec![
            record(1, 1, 0, DecodedLog::Missing, &[2]),
            record(2, 2, 1, DecodedLog::Malformed, &[]),
        ],
        canonical: ids(&[1, 2]),
        last_finalized: Some(bid(2)),
        secondary_genesis: Some(sid(100)),
    };
    let mut store = store_with_tip(1, 100);
    assert_eq!(
        sync_one_level(&chain, &mut store),
        Err(SyncError::Decode(DecodeError::MalformedLog))
    );
}

#[test]
fn decode_reports_each_verdict() {
    let missing = header(1, 1, 0, DecodedLog::Missing);
    assert_eq!(decode(&missing), Err(DecodeError::MissingLog));
    let malformed = header(1, 1, 0, DecodedLog::Malformed);
    assert_eq!(decode(&malformed), Err(DecodeError::MalformedLog));
    let good = header(1, 1, 0, facts(200, &[7, 8]));
    let f = decode(&good).unwrap();
    assert_eq!(f.secondary_block_identity, sid(200));
    assert_eq!(f.secondary_transaction_identities, vec![tid(7), tid(8)]);
}

#[test]
fn sync_block_writes_entry_keyed_by_block() {
    let mut store = MappingStore::new();
    let h = header(7, 3, 6, facts(70, &[1, 2, 3]));
    assert_eq!(sync_block(&mut store, &h), Ok(()));
    assert_eq!(store.entries, vec![entry(7, 70, &[1, 2, 3])]);
    assert!(store.frontier.is_empty());
}

#[test]
fn sync_block_never_overwrites_an_entry() {
    // Re-applying a write for a key that already has an entry is detected
    // and leaves the first entry as it is: one entry per key, always.
    let mut store = MappingStore::new();
    let first = header(7, 3, 6, facts(70, &[1]));
    let second = header(7, 3, 6, facts(71, &[2]));
    assert_eq!(sync_block(&mut store, &first), Ok(()));
    assert_eq!(sync_block(&mut store, &second), Ok(()));
    assert_eq!(store.entries, vec![entry(7, 70, &[1])]);
}

#[test]
fn sync_genesis_block_writes_empty_transaction_list() {
    let chain = ChainView {
        blocks: vec![record(1, 0, 0, DecodedLog::Missing, &[])],
        canonical: ids(&[1]),
        last_finalized: Some(bid(1)),
        secondary_genesis: Some(sid(100)),
    };
    let mut store = MappingStore::new();
    let h = header(1, 0, 0, DecodedLog::Missing);
    assert_eq!(sync_genesis_block(&chain, &mut store, &h), Ok(()));
    assert_eq!(store.entries, vec![entry(1, 100, &[])]);
    assert!(store.frontier.is_empty());
}

#[test]
fn sync_genesis_block_fails_without_secondary_genesis() {
    let chain = ChainView {
        blocks: vec![record(1, 0, 0, DecodedLog::Missing, &[])],
        canonical: ids(&[1]),
        last_finalized: Some(bid(1)),
        secondary_genesis: None,
    };
    let mut store = MappingStore::new();
    let h = header(1, 0, 0, DecodedLog::Missing);
    assert_eq!(
        sync_genesis_block(&chain, &mut store, &h),
        Err(SyncError::SecondaryGenesisNotFound)
    );
    assert!(store.entries.is_empty());
}

#[test]
fn every_frontier_member_keeps_an_entry() {
    // After draining a batch, each frontier member has an entry in the table
    // and no key appears twice.
    let (chain, mut store) = three_ready_levels();
    assert_eq!(sync_blocks(&chain, &mut store, 3), Ok(true));
    for tip in &store.frontier {
        assert!(store
            .entries
            .iter()
            .any(|e| e.host_block_identity == *tip));
    }
    for i in 0..store.entries.len() {
        for j in (i + 1)..store.entries.len() {
            assert_ne!(
                store.entries[i].host_block_identity,
                store.entries[j].host_block_identity
            );
        }
    }
}

#[test]
fn bootstrap_then_advance_in_one_batch() {
    // A batch large enough bootstraps and then drains the ready level.
    let chain = ChainView {
        blocks: vec![
            record(1, 0, 0, DecodedLog::Missing, &[2]),
            record(2, 1, 1, facts(200, &[5]), &[]),
        ],
        canonical: ids(&[1, 2]),
        last_finalized: Some(bid(2)),
        secondary_genesis: Some(sid(100)),
    };
    let mut store = MappingStore::new();
    assert_eq!(sync_blocks(&chain, &mut store, 2), Ok(true));
    assert_eq!(store.frontier, ids(&[2]));
    assert_eq!(
        store.entries,
        vec![entry(1, 100, &[]), entry(2, 200, &[5])]
    );
}
