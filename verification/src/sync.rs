//! The synchronization engine.
//!
//! [`sync_one_level`] performs one single-level step: it walks the frontier
//! in insertion order, lets the first member with any children decide the
//! step, and on an advanceable pair writes the child's mapping entry and
//! moves the frontier past the tip. On an empty frontier it bootstraps from
//! the host genesis block instead. [`sync_blocks`] repeats the step for one
//! bounded batch. Each function is proved to follow the model in
//! [`crate::model`] exactly.

use vstd::prelude::*;

use crate::chain::{
    BlockIdentity, ChainView, DecodedLog, Header, ImportLock, LogModel, MappingFacts, child_seq,
    copy_values,
};
use crate::errors::{DecodeError, SyncError};
use crate::model::{
    block_write, first_canonical, genesis_entry, run_model, scan_frontier, step_model,
};
use crate::model::{lemma_run_model_invariants, lemma_step_model_invariants};
use crate::store::{
    MappingEntry, MappingStore, entries_extended, frontier_covered, lemma_write_entry_unique,
    remove_tip, unique_hosts, write_entry,
};

verus! {

/// Extract the mapping facts from a header's embedded consensus log, or
/// report the decoder's error: `MissingLog` if the header carries no
/// recognizable log, `MalformedLog` if one is present but undecodable.
pub fn decode(header: &Header) -> (r: Result<MappingFacts, DecodeError>)
    ensures
        header@.log is Missing ==> r == Err::<MappingFacts, DecodeError>(DecodeError::MissingLog),
        header@.log is Malformed ==> r == Err::<MappingFacts, DecodeError>(
            DecodeError::MalformedLog,
        ),
        header@.log matches LogModel::Facts(f) ==> r matches Ok(facts) && facts@ == f,
{
    match &header.log {
        DecodedLog::Missing => Err(DecodeError::MissingLog),
        DecodedLog::Malformed => Err(DecodeError::MalformedLog),
        DecodedLog::Facts(f) => Ok(
            MappingFacts {
                secondary_block_identity: f.secondary_block_identity,
                secondary_transaction_identities: copy_values(&f.secondary_transaction_identities),
            },
        ),
    }
}

/// Write the mapping entry for one host block: decode its consensus log and
/// commit the entry keyed by the block's own identity. A decoding failure
/// leaves the store unchanged; a key that already has an entry is left as it
/// is.
pub fn sync_block(store: &mut MappingStore, header: &Header) -> (result: Result<(), SyncError>)
    ensures
        ({
            let w = block_write(old(store)@, header@);
            &&& final(store)@ == w.0
            &&& result == w.1
        }),
        unique_hosts(old(store)@.entries) ==> unique_hosts(final(store)@.entries),
{
    let facts = match decode(header) {
        Ok(f) => f,
        Err(e) => {
            return Err(SyncError::Decode(e));
        },
    };
    let entry = MappingEntry {
        host_block_identity: header.identity,
        secondary_block_identity: facts.secondary_block_identity,
        secondary_transaction_identities: facts.secondary_transaction_identities,
    };
    proof {
        if unique_hosts(old(store)@.entries) {
            lemma_write_entry_unique(old(store)@.entries, entry@);
        }
    }
    store.write_hashes(entry);
    Ok(())
}

/// Write the mapping entry for the host genesis block, using the secondary
/// ledger's own genesis identity as the runtime interface reports it, with
/// an empty transaction list. Fails, leaving the store unchanged, if the
/// runtime interface reports no secondary genesis block.
pub fn sync_genesis_block(chain: &ChainView, store: &mut MappingStore, header: &Header) -> (result:
    Result<(), SyncError>)
    ensures
        chain@.secondary_genesis is None ==> result == Err::<(), SyncError>(
            SyncError::SecondaryGenesisNotFound,
        ) && final(store)@ == old(store)@,
        chain@.secondary_genesis matches Some(g) ==> result == Ok::<(), SyncError>(())
            && final(store)@.entries == write_entry(
            old(store)@.entries,
            genesis_entry(header@.identity, g),
        ) && final(store)@.frontier == old(store)@.frontier,
        unique_hosts(old(store)@.entries) ==> unique_hosts(final(store)@.entries),
{
    let g = match chain.genesis_block_identity() {
        Some(g) => g,
        None => {
            return Err(SyncError::SecondaryGenesisNotFound);
        },
    };
    let entry = MappingEntry {
        host_block_identity: header.identity,
        secondary_block_identity: g,
        secondary_transaction_identities: Vec::new(),
    };
    proof {
        assert(entry@ =~= genesis_entry(header@.identity, g));
        if unique_hosts(old(store)@.entries) {
            lemma_write_entry_unique(old(store)@.entries, entry@);
        }
    }
    store.write_hashes(entry);
    Ok(())
}

/// The first of `children`, in enumeration order, that lies on the canonical
/// chain. The import lock is held across the tests.
fn find_first_canonical(
    chain: &ChainView,
    children: &Vec<BlockIdentity>,
    lock: &ImportLock,
) -> (r: Option<BlockIdentity>)
    ensures
        r == first_canonical(chain@, children@),
{
    let n = children.len();
    let mut j: usize = 0;
    proof {
        assert(children@.skip(0) =~= children@);
    }
    while j < n
        invariant
            j <= n,
            n == children@.len(),
            first_canonical(chain@, children@.skip(j as int)) == first_canonical(
                chain@,
                children@,
            ),
        decreases n - j,
    {
        proof {
            assert(children@.skip(j as int)[0] == children@[j as int]);
        }
        if chain.is_on_best_chain(children[j], lock) {
            return Some(children[j]);
        }
        proof {
            assert(children@.skip(j as int).drop_first() =~= children@.skip(j as int + 1));
        }
        j += 1;
    }
    proof {
        assert(children@.skip(n as int) =~= Seq::<BlockIdentity>::empty());
    }
    None
}

/// The frontier with every occurrence of `tip` removed, order kept.
fn remove_from(v: &Vec<BlockIdentity>, tip: BlockIdentity) -> (r: Vec<BlockIdentity>)
    ensures
        r@ == remove_tip(v@, tip),
{
    let mut r: Vec<BlockIdentity> = Vec::new();
    let mut k: usize = 0;
    while k < v.len()
        invariant
            k <= v@.len(),
            r@ == remove_tip(v@.take(k as int), tip),
        decreases v@.len() - k,
    {
        proof {
            assert(v@.take(k as int + 1).drop_last() =~= v@.take(k as int));
            assert(v@.take(k as int + 1).last() == v@[k as int]);
        }
        if v[k] != tip {
            r.push(v[k]);
        }
        k += 1;
    }
    proof {
        assert(v@.take(v@.len() as int) =~= v@);
    }
    r
}

/// The single-level step, proved equal to [`step_model`].
fn sync_one_level_impl(chain: &ChainView, store: &mut MappingStore) -> (result: Result<
    bool,
    SyncError,
>)
    ensures
        ({
            let m = step_model(chain@, old(store)@);
            &&& final(store)@ == m.state
            &&& result == m.outcome
        }),
{
    if store.frontier.len() == 0 {
        // Empty frontier: bootstrap from the host genesis block.
        // The chain must report some finalized block before anything is
        // indexed.
        if chain.last_finalized().is_none() {
            return Err(SyncError::FinalizedBlockUnknown);
        }
        let header = match chain.genesis_header() {
            Some(h) => h,
            None => {
                return Err(SyncError::HeaderNotFound);
            },
        };
        match sync_genesis_block(chain, store, &header) {
            Ok(_) => {},
            Err(e) => {
                return Err(e);
            },
        }
        store.frontier.push(header.identity);
        Ok(true)
    } else {
        let lf = match chain.last_finalized() {
            Some(x) => x,
            None => {
                return Err(SyncError::FinalizedBlockUnknown);
            },
        };
        let finalized = match chain.number_of(lf) {
            Some(x) => x,
            None => {
                return Err(SyncError::FinalizedBlockUnknown);
            },
        };
        let ghost tips0 = store.frontier@;
        let n = store.frontier.len();
        let mut i: usize = 0;
        proof {
            assert(tips0.skip(0) =~= tips0);
        }
        while i < n
            invariant
                i <= n,
                *store == *old(store),
                n == store.frontier@.len(),
                tips0 == store.frontier@,
                tips0.len() > 0,
                crate::chain::finalized_height(chain@) == Some(finalized),
                scan_frontier(chain@, tips0.skip(i as int), finalized) == scan_frontier(
                    chain@,
                    tips0,
                    finalized,
                ),
            decreases n - i,
        {
            let tip = store.frontier[i];
            proof {
                assert(tips0.skip(i as int)[0] == tips0[i as int]);
            }
            match chain.find_index(tip) {
                None => {
                    // Unknown block: no children, the scan moves on.
                    proof {
                        assert(child_seq(chain@, tip).len() == 0);
                        assert(tips0.skip(i as int).drop_first() =~= tips0.skip(i as int + 1));
                    }
                    i += 1;
                },
                Some(bx) => {
                    proof {
                        assert(child_seq(chain@, tip) == chain@.blocks[bx as int].children);
                    }
                    if chain.blocks[bx].children.len() == 0 {
                        // No children: the scan moves on to the next member.
                        proof {
                            assert(tips0.skip(i as int).drop_first() =~= tips0.skip(i as int + 1));
                        }
                        i += 1;
                    } else {
                        // The first member with children decides the whole
                        // step. Test its children for canonical-chain
                        // containment under the import lock.
                        let lock = chain.acquire_import_lock();
                        let found = find_first_canonical(chain, &chain.blocks[bx].children, &lock);
                        match found {
                            None => {
                                // Children, but none canonical: stall.
                                return Ok(false);
                            },
                            Some(child) => {
                                match chain.number_of(child) {
                                    None => {
                                        return Err(SyncError::BlockNumberUnknown);
                                    },
                                    Some(child_number) => {
                                        if child_number <= finalized {
                                            // The advanceable pair (tip, child):
                                            // write the child's entry and move
                                            // the frontier past the tip.
                                            let header = match chain.header_of(child) {
                                                Some(h) => h,
                                                None => {
                                                    return Err(SyncError::HeaderNotFound);
                                                },
                                            };
                                            let mut new_tips = remove_from(&store.frontier, tip);
                                            match sync_block(store, &header) {
                                                Ok(_) => {},
                                                Err(e) => {
                                                    return Err(e);
                                                },
                                            }
                                            new_tips.push(child);
                                            store.frontier = new_tips;
                                            return Ok(true);
                                        } else {
                                            // Canonical child not yet
                                            // finalized: stall.
                                            return Ok(false);
                                        }
                                    },
                                }
                            },
                        }
                    }
                },
            }
        }
        // No frontier member has any children: stall.
        proof {
            assert(tips0.skip(n as int) =~= Seq::<BlockIdentity>::empty());
        }
        Ok(false)
    }
}

/// Perform one single-level frontier-advancement step.
///
/// The frontier's members are examined in insertion order; the first member
/// with any children decides the whole step. If its first canonical child is
/// already finalized, that child's mapping entry is written and the frontier
/// moves past the tip (`Ok(true)`); otherwise the step makes no progress
/// (`Ok(false)`) and no later member is examined. On an empty frontier the
/// genesis mapping is bootstrapped instead. A failure leaves the store
/// unchanged. Entry keys stay unique, every frontier member keeps a
/// corresponding mapping entry, entries are only ever appended, and the
/// frontier is never empty after a step that made progress.
pub fn sync_one_level(chain: &ChainView, store: &mut MappingStore) -> (result: Result<
    bool,
    SyncError,
>)
    ensures
        ({
            let m = step_model(chain@, old(store)@);
            &&& final(store)@ == m.state
            &&& result == m.outcome
        }),
        unique_hosts(old(store)@.entries) ==> unique_hosts(final(store)@.entries),
        frontier_covered(old(store)@) ==> frontier_covered(final(store)@),
        entries_extended(old(store)@.entries, final(store)@.entries),
        result == Ok::<bool, SyncError>(true) ==> final(store)@.frontier.len() > 0,
        old(store)@.frontier.len() > 0 ==> final(store)@.frontier.len() > 0,
        result == Ok::<bool, SyncError>(false) ==> final(store)@ == old(store)@,
{
    let result = sync_one_level_impl(chain, store);
    proof {
        lemma_step_model_invariants(chain@, old(store)@);
    }
    result
}

/// Perform up to `limit` repetitions of the single-level step, draining
/// several already-available levels in one call.
///
/// A repetition that makes no progress does not stop the batch early; an
/// error aborts it. Returns `Ok(true)` iff at least one repetition made
/// progress. A batch that returns `Ok(false)` leaves the persisted state
/// exactly as it was. Entry keys stay unique, every frontier member keeps a
/// corresponding mapping entry, entries are only ever appended, and the
/// frontier is never empty after a batch that made progress.
pub fn sync_blocks(chain: &ChainView, store: &mut MappingStore, limit: usize) -> (result: Result<
    bool,
    SyncError,
>)
    ensures
        ({
            let m = run_model(chain@, old(store)@, limit as nat);
            &&& final(store)@ == m.state
            &&& result == m.outcome
        }),
        unique_hosts(old(store)@.entries) ==> unique_hosts(final(store)@.entries),
        frontier_covered(old(store)@) ==> frontier_covered(final(store)@),
        entries_extended(old(store)@.entries, final(store)@.entries),
        result == Ok::<bool, SyncError>(true) ==> final(store)@.frontier.len() > 0,
        old(store)@.frontier.len() > 0 ==> final(store)@.frontier.len() > 0,
        result == Ok::<bool, SyncError>(false) ==> final(store)@ == old(store)@,
{
    let ghost total = run_model(chain@, old(store)@, limit as nat);
    let mut synced_any = false;
    let mut it: usize = 0;
    while it < limit
        invariant
            it <= limit,
            total == run_model(chain@, old(store)@, limit as nat),
            run_model(chain@, store@, (limit - it) as nat).state == total.state,
            total.outcome == (match run_model(chain@, store@, (limit - it) as nat).outcome {
                Ok(p) => Ok::<bool, SyncError>(synced_any || p),
                Err(e) => Err::<bool, SyncError>(e),
            }),
            unique_hosts(old(store)@.entries) ==> unique_hosts(store@.entries),
            frontier_covered(old(store)@) ==> frontier_covered(store@),
        decreases limit - it,
    {
        let ghost pre = store@;
        let ghost rem = (limit - it) as nat;
        match sync_one_level(chain, store) {
            Err(e) => {
                proof {
                    assert(run_model(chain@, pre, rem) == step_model(chain@, pre));
                    lemma_run_model_invariants(chain@, old(store)@, limit as nat);
                }
                return Err(e);
            },
            Ok(p) => {
                proof {
                    let first = step_model(chain@, pre);
                    let rest = run_model(chain@, first.state, (rem - 1) as nat);
                    assert(run_model(chain@, pre, rem).state == rest.state);
                    assert(run_model(chain@, pre, rem).outcome == (match rest.outcome {
                        Ok(q) => Ok::<bool, SyncError>(p || q),
                        Err(e2) => Err::<bool, SyncError>(e2),
                    }));
                }
                synced_any = synced_any || p;
            },
        }
        it += 1;
    }
    proof {
        lemma_run_model_invariants(chain@, old(store)@, limit as nat);
    }
    Ok(synced_any)
}

} // verus!
