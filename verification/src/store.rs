//! The mapping store: the durable key-value table from host block identity to
//! mapping entry, together with the frontier cursor.
//!
//! The real store is a database owned by an external collaborator; this type
//! holds its contents as plain data. An entry is written at most once per
//! key: writing a key that already has an entry is detected and treated as
//! already done, so that re-running a step after a crash is safe. The
//! frontier is persisted as a whole, in insertion order.

use vstd::prelude::*;

use crate::chain::{BlockIdentity, SecondaryBlockIdentity, TransactionIdentity};

verus! {

/// One persisted record linking a host block to its derived secondary block
/// and that block's transactions, in inclusion order. Keyed uniquely by
/// `host_block_identity`; never mutated or deleted once written.
#[derive(PartialEq, Debug)]
pub struct MappingEntry {
    pub host_block_identity: BlockIdentity,
    pub secondary_block_identity: SecondaryBlockIdentity,
    pub secondary_transaction_identities: Vec<TransactionIdentity>,
}

/// Mathematical model of [`MappingEntry`].
#[verifier::ext_equal]
pub struct EntryModel {
    pub host_block_identity: BlockIdentity,
    pub secondary_block_identity: SecondaryBlockIdentity,
    pub secondary_transaction_identities: Seq<TransactionIdentity>,
}

impl View for MappingEntry {
    type V = EntryModel;

    open spec fn view(&self) -> EntryModel {
        EntryModel {
            host_block_identity: self.host_block_identity,
            secondary_block_identity: self.secondary_block_identity,
            secondary_transaction_identities: self.secondary_transaction_identities@,
        }
    }
}

/// The store's durable contents: mapping entries and the frontier cursor.
pub struct MappingStore {
    /// The mapping table, keyed by host block identity.
    pub entries: Vec<MappingEntry>,
    /// The frontier: already-indexed host blocks whose children have not yet
    /// been evaluated for indexing, in insertion order.
    pub frontier: Vec<BlockIdentity>,
}

/// Mathematical model of [`MappingStore`]: the persisted state the engine
/// reads and advances.
#[verifier::ext_equal]
pub struct SyncState {
    pub entries: Seq<EntryModel>,
    pub frontier: Seq<BlockIdentity>,
}

/// The models of a sequence of stored entries.
pub open spec fn entries_view(entries: Seq<MappingEntry>) -> Seq<EntryModel> {
    entries.map_values(|e: MappingEntry| e@)
}

impl View for MappingStore {
    type V = SyncState;

    open spec fn view(&self) -> SyncState {
        SyncState { entries: entries_view(self.entries@), frontier: self.frontier@ }
    }
}

/// Whether some entry is keyed by `id`.
pub open spec fn has_entry_for(entries: Seq<EntryModel>, id: BlockIdentity) -> bool {
    exists|i: int|
        #![trigger entries[i]]
        0 <= i < entries.len() && entries[i].host_block_identity == id
}

/// What writing `e` does to the table: nothing if its key already has an
/// entry, else the entry is appended.
pub open spec fn write_entry(entries: Seq<EntryModel>, e: EntryModel) -> Seq<EntryModel> {
    if has_entry_for(entries, e.host_block_identity) {
        entries
    } else {
        entries.push(e)
    }
}

/// No two entries share a key.
pub open spec fn unique_hosts(entries: Seq<EntryModel>) -> bool {
    forall|i: int, j: int|
        #![trigger entries[i], entries[j]]
        0 <= i < j < entries.len() ==> entries[i].host_block_identity
            != entries[j].host_block_identity
}

/// Every frontier member has a corresponding mapping entry.
pub open spec fn frontier_covered(s: SyncState) -> bool {
    forall|i: int|
        #![trigger s.frontier[i]]
        0 <= i < s.frontier.len() ==> has_entry_for(s.entries, s.frontier[i])
}

/// `after` keeps every entry of `before`, unchanged and in place: entries
/// are only ever appended, never deleted or mutated.
pub open spec fn entries_extended(before: Seq<EntryModel>, after: Seq<EntryModel>) -> bool {
    &&& after.len() >= before.len()
    &&& forall|i: int| #![trigger after[i]] 0 <= i < before.len() ==> after[i] == before[i]
}

/// The frontier with every occurrence of `tip` removed, order kept.
pub open spec fn remove_tip(frontier: Seq<BlockIdentity>, tip: BlockIdentity) -> Seq<
    BlockIdentity,
>
    decreases frontier.len(),
{
    if frontier.len() == 0 {
        Seq::empty()
    } else {
        let rest = remove_tip(frontier.drop_last(), tip);
        if frontier.last() == tip {
            rest
        } else {
            rest.push(frontier.last())
        }
    }
}

/// Writing keeps keys unique.
pub proof fn lemma_write_entry_unique(entries: Seq<EntryModel>, e: EntryModel)
    requires
        unique_hosts(entries),
    ensures
        unique_hosts(write_entry(entries, e)),
{
    if !has_entry_for(entries, e.host_block_identity) {
        let w = entries.push(e);
        assert forall|i: int, j: int| 0 <= i < j < w.len() implies #[trigger] w[i].host_block_identity
            != #[trigger] w[j].host_block_identity by {
            if j == entries.len() {
                assert(w[i] == entries[i]);
            }
        }
    }
}

/// A write only ever appends: every entry already in the table stays,
/// unchanged and in place.
pub proof fn lemma_write_entry_extends(entries: Seq<EntryModel>, e: EntryModel)
    ensures
        entries_extended(entries, write_entry(entries, e)),
{
}

/// After a write, the written key has an entry, and every key that had one
/// keeps it.
pub proof fn lemma_write_entry_has(entries: Seq<EntryModel>, e: EntryModel, id: BlockIdentity)
    ensures
        has_entry_for(write_entry(entries, e), e.host_block_identity),
        has_entry_for(entries, id) ==> has_entry_for(write_entry(entries, e), id),
{
    let w = write_entry(entries, e);
    if has_entry_for(entries, e.host_block_identity) {
    } else {
        assert(entries.push(e)[entries.len() as int] == e);
    }
    if has_entry_for(entries, id) {
        let i = choose|i: int|
            0 <= i < entries.len() && #[trigger] entries[i].host_block_identity == id;
        assert(w[i] == entries[i]);
    }
}

/// Every member of the frontier with `tip` removed was a member before.
pub proof fn lemma_remove_tip_members(frontier: Seq<BlockIdentity>, tip: BlockIdentity)
    ensures
        forall|k: int|
            0 <= k < remove_tip(frontier, tip).len() ==> frontier.contains(
                #[trigger] remove_tip(frontier, tip)[k],
            ),
    decreases frontier.len(),
{
    if frontier.len() > 0 {
        let prefix = frontier.drop_last();
        lemma_remove_tip_members(prefix, tip);
        let r = remove_tip(frontier, tip);
        assert forall|k: int| 0 <= k < r.len() implies frontier.contains(#[trigger] r[k]) by {
            if k < remove_tip(prefix, tip).len() {
                assert(prefix.contains(remove_tip(prefix, tip)[k]));
                let m = choose|m: int|
                    0 <= m < prefix.len() && #[trigger] prefix[m] == remove_tip(prefix, tip)[k];
                assert(frontier[m] == r[k]);
            } else {
                assert(r[k] == frontier.last());
                assert(frontier[frontier.len() - 1] == frontier.last());
            }
        }
    }
}

impl MappingStore {
    /// An empty store: no entries, empty frontier. The state of a first run.
    pub fn new() -> (r: MappingStore)
        ensures
            r@ == (SyncState { entries: Seq::empty(), frontier: Seq::empty() }),
    {
        let r = MappingStore { entries: Vec::new(), frontier: Vec::new() };
        proof {
            assert(r@.entries =~= Seq::<EntryModel>::empty());
        }
        r
    }

    /// Whether the table already has an entry keyed by `id`.
    pub fn contains_entry_for(&self, id: BlockIdentity) -> (r: bool)
        ensures
            r == has_entry_for(self@.entries, id),
    {
        let n = self.entries.len();
        let mut i: usize = 0;
        while i < n
            invariant
                i <= n,
                n == self@.entries.len(),
                forall|k: int| 0 <= k < i ==> (#[trigger] self@.entries[k]).host_block_identity
                    != id,
            decreases n - i,
        {
            if self.entries[i].host_block_identity == id {
                proof {
                    assert(self@.entries[i as int].host_block_identity == id);
                }
                return true;
            }
            i += 1;
        }
        false
    }

    /// Write one mapping entry. A key that already has an entry is left as it
    /// is: the write is detected as already done and nothing is overwritten.
    pub fn write_hashes(&mut self, entry: MappingEntry)
        ensures
            final(self)@.entries == write_entry(old(self)@.entries, entry@),
            final(self)@.frontier == old(self)@.frontier,
    {
        if !self.contains_entry_for(entry.host_block_identity) {
            let ghost before = self.entries@;
            self.entries.push(entry);
            proof {
                assert(entries_view(before.push(entry)) =~= entries_view(before).push(entry@));
            }
        }
    }

    /// The frontier cursor as persisted, in insertion order.
    pub fn current_frontier(&self) -> (r: Vec<BlockIdentity>)
        ensures
            r@ == self@.frontier,
    {
        crate::chain::copy_values(&self.frontier)
    }
}

} // verus!
