//! Mathematical model of the synchronization engine.
//!
//! [`step_model`] says exactly what one invocation of the single-level step
//! does to the persisted state and what it returns; [`run_model`] iterates it
//! for a batch. The executable engine in [`crate::sync`] is proved to follow
//! these functions clause for clause.

use vstd::prelude::*;

use crate::chain::{
    BlockIdentity, ChainModel, FactsModel, HeaderModel, LogModel, SecondaryBlockIdentity,
    child_seq, finalized_height, genesis_of, height_of, lemma_record_of_identity, on_best_chain,
    record_of,
};
use crate::errors::{DecodeError, SyncError};
use crate::store::{
    EntryModel, SyncState, entries_extended, frontier_covered, has_entry_for,
    lemma_remove_tip_members, lemma_write_entry_extends, lemma_write_entry_has,
    lemma_write_entry_unique, remove_tip, unique_hosts, write_entry,
};

verus! {

/// What scanning the frontier decides for one step.
pub enum StepPlan {
    /// The first frontier member with children has a canonical, finalized
    /// child: the step advances past `tip` to `child`.
    Advance { tip: BlockIdentity, child: BlockIdentity },
    /// No member has children, or the first member with children has no
    /// canonical child, or its canonical child is not yet finalized: the
    /// step makes no progress.
    Stall,
    /// The first member with children has a canonical child whose height is
    /// unknown: the step fails.
    ChildHeightUnknown,
}

/// Result of one modeled invocation: the persisted state afterwards and what
/// the call returns.
#[verifier::ext_equal]
pub struct StepModel {
    pub state: SyncState,
    pub outcome: Result<bool, SyncError>,
}

/// The first child in enumeration order that lies on the canonical chain.
pub open spec fn first_canonical(chain: ChainModel, children: Seq<BlockIdentity>) -> Option<
    BlockIdentity,
>
    decreases children.len(),
{
    if children.len() == 0 {
        None
    } else if on_best_chain(chain, children[0]) {
        Some(children[0])
    } else {
        first_canonical(chain, children.drop_first())
    }
}

/// Walk the frontier in order. The first member with any children decides
/// the whole step: members without children are skipped, and once a member
/// with children is met, no later member is examined.
pub open spec fn scan_frontier(
    chain: ChainModel,
    tips: Seq<BlockIdentity>,
    finalized: u64,
) -> StepPlan
    decreases tips.len(),
{
    if tips.len() == 0 {
        StepPlan::Stall
    } else {
        let children = child_seq(chain, tips[0]);
        if children.len() == 0 {
            scan_frontier(chain, tips.drop_first(), finalized)
        } else {
            match first_canonical(chain, children) {
                None => StepPlan::Stall,
                Some(child) => match height_of(chain, child) {
                    None => StepPlan::ChildHeightUnknown,
                    Some(h) => if h <= finalized {
                        StepPlan::Advance { tip: tips[0], child }
                    } else {
                        StepPlan::Stall
                    },
                },
            }
        }
    }
}

/// The entry derived from a host block and its decoded mapping facts.
pub open spec fn entry_of(host: BlockIdentity, facts: FactsModel) -> EntryModel {
    EntryModel {
        host_block_identity: host,
        secondary_block_identity: facts.secondary_block_identity,
        secondary_transaction_identities: facts.secondary_transaction_identities,
    }
}

/// The entry written for the host genesis block: the secondary ledger's own
/// genesis identity, with no transactions.
pub open spec fn genesis_entry(host: BlockIdentity, g: SecondaryBlockIdentity) -> EntryModel {
    EntryModel {
        host_block_identity: host,
        secondary_block_identity: g,
        secondary_transaction_identities: Seq::empty(),
    }
}

/// What writing the mapping for one header does: on a decodable log the
/// entry is written (a key already present is left as it is); on a missing
/// or malformed log the state is unchanged and the decoder's error is
/// returned.
pub open spec fn block_write(s: SyncState, h: HeaderModel) -> (SyncState, Result<(), SyncError>) {
    match h.log {
        LogModel::Missing => (s, Err(SyncError::Decode(DecodeError::MissingLog))),
        LogModel::Malformed => (s, Err(SyncError::Decode(DecodeError::MalformedLog))),
        LogModel::Facts(facts) => (
            (SyncState {
                entries: write_entry(s.entries, entry_of(h.identity, facts)),
                frontier: s.frontier,
            }),
            Ok(()),
        ),
    }
}

/// One invocation on an empty frontier: bootstrap. The chain must report
/// some finalized block and a genesis header; the runtime interface must
/// report the secondary genesis identity. On success the genesis entry is
/// written and the frontier becomes the singleton of the host genesis.
pub open spec fn bootstrap_model(chain: ChainModel, s: SyncState) -> StepModel {
    if chain.last_finalized is None {
        StepModel { state: s, outcome: Err(SyncError::FinalizedBlockUnknown) }
    } else {
        match genesis_of(chain.blocks) {
            None => StepModel { state: s, outcome: Err(SyncError::HeaderNotFound) },
            Some(rec) => match chain.secondary_genesis {
                None => StepModel { state: s, outcome: Err(SyncError::SecondaryGenesisNotFound) },
                Some(g) => StepModel {
                    state: (SyncState {
                        entries: write_entry(s.entries, genesis_entry(rec.header.identity, g)),
                        frontier: s.frontier.push(rec.header.identity),
                    }),
                    outcome: Ok(true),
                },
            },
        }
    }
}

/// One invocation of the single-level step on state `s`.
pub open spec fn step_model(chain: ChainModel, s: SyncState) -> StepModel {
    if s.frontier.len() == 0 {
        bootstrap_model(chain, s)
    } else {
        match finalized_height(chain) {
            None => StepModel { state: s, outcome: Err(SyncError::FinalizedBlockUnknown) },
            Some(finalized) => match scan_frontier(chain, s.frontier, finalized) {
                StepPlan::Stall => StepModel { state: s, outcome: Ok(false) },
                StepPlan::ChildHeightUnknown => StepModel {
                    state: s,
                    outcome: Err(SyncError::BlockNumberUnknown),
                },
                StepPlan::Advance { tip, child } => match record_of(chain.blocks, child) {
                    None => StepModel { state: s, outcome: Err(SyncError::HeaderNotFound) },
                    Some(rec) => {
                        let w = block_write(s, rec.header);
                        match w.1 {
                            Err(e) => StepModel { state: s, outcome: Err(e) },
                            Ok(_) => StepModel {
                                state: (SyncState {
                                    entries: w.0.entries,
                                    frontier: remove_tip(s.frontier, tip).push(child),
                                }),
                                outcome: Ok(true),
                            },
                        }
                    },
                },
            },
        }
    }
}

/// A batch of up to `n` repetitions of the step. An error aborts the batch;
/// otherwise the outcome is the disjunction of the repetitions' progress
/// flags, and repetitions keep running after one that made no progress.
pub open spec fn run_model(chain: ChainModel, s: SyncState, n: nat) -> StepModel
    decreases n,
{
    if n == 0 {
        StepModel { state: s, outcome: Ok(false) }
    } else {
        let first = step_model(chain, s);
        match first.outcome {
            Err(e) => first,
            Ok(p) => {
                let rest = run_model(chain, first.state, (n - 1) as nat);
                match rest.outcome {
                    Err(e) => rest,
                    Ok(q) => StepModel { state: rest.state, outcome: Ok(p || q) },
                }
            },
        }
    }
}

/// One step keeps the persisted state's invariants: entry keys stay unique,
/// every frontier member keeps a corresponding entry, entries are only ever
/// appended, a non-empty frontier stays non-empty (and is non-empty after
/// any progress), and a step that fails or makes no progress leaves the
/// state unchanged.
pub proof fn lemma_step_model_invariants(chain: ChainModel, s: SyncState)
    ensures
        unique_hosts(s.entries) ==> unique_hosts(step_model(chain, s).state.entries),
        frontier_covered(s) ==> frontier_covered(step_model(chain, s).state),
        entries_extended(s.entries, step_model(chain, s).state.entries),
        step_model(chain, s).outcome == Ok::<bool, SyncError>(true) ==> step_model(
            chain,
            s,
        ).state.frontier.len() > 0,
        s.frontier.len() > 0 ==> step_model(chain, s).state.frontier.len() > 0,
        step_model(chain, s).outcome == Ok::<bool, SyncError>(false) ==> step_model(chain, s).state
            == s,
        step_model(chain, s).outcome is Err ==> step_model(chain, s).state == s,
{
    let m = step_model(chain, s);
    if s.frontier.len() == 0 {
        if chain.last_finalized is Some && genesis_of(chain.blocks) is Some
            && chain.secondary_genesis is Some {
            let rec = genesis_of(chain.blocks)->0;
            let g = chain.secondary_genesis->0;
            let e = genesis_entry(rec.header.identity, g);
            lemma_write_entry_extends(s.entries, e);
            if unique_hosts(s.entries) {
                lemma_write_entry_unique(s.entries, e);
            }
            if frontier_covered(s) {
                lemma_write_entry_has(s.entries, e, rec.header.identity);
                assert forall|i: int| 0 <= i < m.state.frontier.len() implies has_entry_for(
                    m.state.entries,
                    #[trigger] m.state.frontier[i],
                ) by {
                    if i < s.frontier.len() {
                        lemma_write_entry_has(s.entries, e, s.frontier[i]);
                    } else {
                        assert(m.state.frontier[i] == rec.header.identity);
                    }
                }
            }
        }
    } else {
        match finalized_height(chain) {
            None => {},
            Some(finalized) => match scan_frontier(chain, s.frontier, finalized) {
                StepPlan::Stall => {},
                StepPlan::ChildHeightUnknown => {},
                StepPlan::Advance { tip, child } => match record_of(chain.blocks, child) {
                    None => {},
                    Some(rec) => match rec.header.log {
                        LogModel::Missing => {},
                        LogModel::Malformed => {},
                        LogModel::Facts(facts) => {
                            lemma_record_of_identity(chain.blocks, child);
                            let e = entry_of(rec.header.identity, facts);
                            lemma_write_entry_extends(s.entries, e);
                            if unique_hosts(s.entries) {
                                lemma_write_entry_unique(s.entries, e);
                            }
                            if frontier_covered(s) {
                                lemma_remove_tip_members(s.frontier, tip);
                                lemma_write_entry_has(s.entries, e, child);
                                let kept = remove_tip(s.frontier, tip);
                                assert forall|i: int|
                                    0 <= i < m.state.frontier.len() implies has_entry_for(
                                    m.state.entries,
                                    #[trigger] m.state.frontier[i],
                                ) by {
                                    if i < kept.len() {
                                        assert(s.frontier.contains(kept[i]));
                                        let j = choose|j: int|
                                            0 <= j < s.frontier.len() && #[trigger] s.frontier[j]
                                                == kept[i];
                                        assert(has_entry_for(s.entries, s.frontier[j]));
                                        lemma_write_entry_has(s.entries, e, kept[i]);
                                    } else {
                                        assert(m.state.frontier[i] == child);
                                        assert(e.host_block_identity == child);
                                    }
                                }
                            }
                        },
                    },
                },
            },
        }
    }
}

/// A batch keeps the persisted state's invariants, and a batch that returns
/// no progress leaves the state unchanged.
pub proof fn lemma_run_model_invariants(chain: ChainModel, s: SyncState, n: nat)
    ensures
        unique_hosts(s.entries) ==> unique_hosts(run_model(chain, s, n).state.entries),
        frontier_covered(s) ==> frontier_covered(run_model(chain, s, n).state),
        entries_extended(s.entries, run_model(chain, s, n).state.entries),
        run_model(chain, s, n).outcome == Ok::<bool, SyncError>(true) ==> run_model(
            chain,
            s,
            n,
        ).state.frontier.len() > 0,
        s.frontier.len() > 0 ==> run_model(chain, s, n).state.frontier.len() > 0,
        run_model(chain, s, n).outcome == Ok::<bool, SyncError>(false) ==> run_model(
            chain,
            s,
            n,
        ).state == s,
    decreases n,
{
    if n > 0 {
        lemma_step_model_invariants(chain, s);
        let first = step_model(chain, s);
        if first.outcome is Ok {
            lemma_run_model_invariants(chain, first.state, (n - 1) as nat);
        }
    }
}

/// Idempotence of a batch that made no progress: the persisted state is
/// exactly what it was, and invoking the engine again on the same chain
/// state, with any batch limit, again makes no progress and changes nothing.
pub proof fn lemma_no_progress_idempotent(chain: ChainModel, s: SyncState, n: nat, m: nat)
    requires
        n >= 1,
        run_model(chain, s, n).outcome == Ok::<bool, SyncError>(false),
    ensures
        run_model(chain, s, n).state == s,
        run_model(chain, s, m).state == s,
        run_model(chain, s, m).outcome == Ok::<bool, SyncError>(false),
{
    lemma_run_model_invariants(chain, s, n);
    let first = step_model(chain, s);
    lemma_step_model_invariants(chain, s);
    assert(first.outcome == Ok::<bool, SyncError>(false)) by {
        match first.outcome {
            Err(e) => {
                assert(run_model(chain, s, n).outcome == Err::<bool, SyncError>(e));
            },
            Ok(p) => {
                if p {
                    let rest = run_model(chain, first.state, (n - 1) as nat);
                    match rest.outcome {
                        Err(e) => {},
                        Ok(q) => {
                            assert(run_model(chain, s, n).outcome == Ok::<bool, SyncError>(
                                p || q,
                            ));
                        },
                    }
                }
            },
        }
    }
    lemma_no_progress_repeat(chain, s, m);
}

/// Helper for idempotence: if one step on `s` makes no progress, any batch
/// on `s` makes no progress and leaves the state unchanged.
proof fn lemma_no_progress_repeat(chain: ChainModel, s: SyncState, m: nat)
    requires
        step_model(chain, s).outcome == Ok::<bool, SyncError>(false),
        step_model(chain, s).state == s,
    ensures
        run_model(chain, s, m).state == s,
        run_model(chain, s, m).outcome == Ok::<bool, SyncError>(false),
    decreases m,
{
    if m > 0 {
        lemma_no_progress_repeat(chain, s, (m - 1) as nat);
    }
}

} // verus!
