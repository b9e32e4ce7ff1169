//! A read-only view of the host chain's block tree.
//!
//! The real host chain backend answers these queries over a database and
//! serializes the canonical-chain test against concurrent block import with a
//! transient lock. [`ChainView`] holds the answers as plain data: one record
//! per known block, the set of identities on the currently-best chain, the
//! last-finalized block, and the secondary ledger's genesis identity as the
//! runtime interface reports it. The engine is verified against this view;
//! an outer driver fills it from the real backend.

use vstd::prelude::*;

verus! {

/// Identity (hash) of a host-chain block. Opaque and globally unique;
/// comparable for equality only.
#[derive(Clone, Copy, PartialEq, Eq, Structural, Debug)]
pub struct BlockIdentity {
    pub value: u64,
}

/// Identity (hash) of a secondary-ledger block.
#[derive(Clone, Copy, PartialEq, Eq, Structural, Debug)]
pub struct SecondaryBlockIdentity {
    pub value: u64,
}

/// Identity (hash) of a secondary-ledger transaction.
#[derive(Clone, Copy, PartialEq, Eq, Structural, Debug)]
pub struct TransactionIdentity {
    pub value: u64,
}

/// What the consensus-log decoder extracts from one host header: the identity
/// of the secondary-ledger block derived from it and the identities of that
/// block's transactions, in inclusion order.
#[derive(PartialEq, Debug)]
pub struct MappingFacts {
    pub secondary_block_identity: SecondaryBlockIdentity,
    pub secondary_transaction_identities: Vec<TransactionIdentity>,
}

/// Mathematical model of [`MappingFacts`].
#[verifier::ext_equal]
pub struct FactsModel {
    pub secondary_block_identity: SecondaryBlockIdentity,
    pub secondary_transaction_identities: Seq<TransactionIdentity>,
}

impl View for MappingFacts {
    type V = FactsModel;

    open spec fn view(&self) -> FactsModel {
        FactsModel {
            secondary_block_identity: self.secondary_block_identity,
            secondary_transaction_identities: self.secondary_transaction_identities@,
        }
    }
}

/// The consensus-log decoder's verdict on a header's embedded log bytes.
/// The decoder itself is an external collaborator; each header carries its
/// verdict as data.
pub enum DecodedLog {
    /// No recognizable consensus log is embedded in the header.
    Missing,
    /// A consensus log is present but undecodable.
    Malformed,
    /// The log decodes to these mapping facts.
    Facts(MappingFacts),
}

/// Mathematical model of [`DecodedLog`].
#[verifier::ext_equal]
pub enum LogModel {
    Missing,
    Malformed,
    Facts(FactsModel),
}

impl View for DecodedLog {
    type V = LogModel;

    open spec fn view(&self) -> LogModel {
        match self {
            DecodedLog::Missing => LogModel::Missing,
            DecodedLog::Malformed => LogModel::Malformed,
            DecodedLog::Facts(f) => LogModel::Facts(f@),
        }
    }
}

/// A host block header: identity, height, parent identity, and the decoder's
/// verdict on the consensus log embedded in it. Immutable once produced by
/// the host chain.
pub struct Header {
    pub identity: BlockIdentity,
    pub number: u64,
    pub parent: BlockIdentity,
    pub log: DecodedLog,
}

/// Mathematical model of [`Header`].
#[verifier::ext_equal]
pub struct HeaderModel {
    pub identity: BlockIdentity,
    pub number: u64,
    pub parent: BlockIdentity,
    pub log: LogModel,
}

impl View for Header {
    type V = HeaderModel;

    open spec fn view(&self) -> HeaderModel {
        HeaderModel {
            identity: self.identity,
            number: self.number,
            parent: self.parent,
            log: self.log@,
        }
    }
}

/// One block known to the backend: its header and its direct children, in the
/// backend's enumeration order.
pub struct BlockRecord {
    pub header: Header,
    pub children: Vec<BlockIdentity>,
}

/// Mathematical model of [`BlockRecord`].
#[verifier::ext_equal]
pub struct RecordModel {
    pub header: HeaderModel,
    pub children: Seq<BlockIdentity>,
}

impl View for BlockRecord {
    type V = RecordModel;

    open spec fn view(&self) -> RecordModel {
        RecordModel { header: self.header@, children: self.children@ }
    }
}

/// Scoped token standing for the backend's transient import-exclusion lock.
/// Holding it across the canonical-chain test keeps that test race-free
/// against concurrent block import; the capability is passed explicitly,
/// never held as ambient state.
pub struct ImportLock {}

/// Read-only snapshot of the host chain's block tree, taken by the outer
/// driver from the real backend.
pub struct ChainView {
    /// The known blocks, each with its header and children.
    pub blocks: Vec<BlockRecord>,
    /// The identities lying on some currently-best chain.
    pub canonical: Vec<BlockIdentity>,
    /// The last-finalized block, if the chain has one.
    pub last_finalized: Option<BlockIdentity>,
    /// The secondary ledger's own genesis block identity, as the runtime
    /// interface reports it at the host genesis block; `None` if it reports
    /// no secondary genesis block.
    pub secondary_genesis: Option<SecondaryBlockIdentity>,
}

/// Mathematical model of [`ChainView`].
#[verifier::ext_equal]
pub struct ChainModel {
    pub blocks: Seq<RecordModel>,
    pub canonical: Seq<BlockIdentity>,
    pub last_finalized: Option<BlockIdentity>,
    pub secondary_genesis: Option<SecondaryBlockIdentity>,
}

impl View for ChainView {
    type V = ChainModel;

    open spec fn view(&self) -> ChainModel {
        ChainModel {
            blocks: self.blocks@.map_values(|b: BlockRecord| b@),
            canonical: self.canonical@,
            last_finalized: self.last_finalized,
            secondary_genesis: self.secondary_genesis,
        }
    }
}

/// The first record whose header has identity `id`, if any.
pub open spec fn record_of(blocks: Seq<RecordModel>, id: BlockIdentity) -> Option<RecordModel>
    decreases blocks.len(),
{
    if blocks.len() == 0 {
        None
    } else if blocks[0].header.identity == id {
        Some(blocks[0])
    } else {
        record_of(blocks.drop_first(), id)
    }
}

/// The first record whose header has height zero, if any: the genesis block.
pub open spec fn genesis_of(blocks: Seq<RecordModel>) -> Option<RecordModel>
    decreases blocks.len(),
{
    if blocks.len() == 0 {
        None
    } else if blocks[0].header.number == 0 {
        Some(blocks[0])
    } else {
        genesis_of(blocks.drop_first())
    }
}

/// The direct children of `id`, in enumeration order; empty if none or if the
/// block is unknown.
pub open spec fn child_seq(chain: ChainModel, id: BlockIdentity) -> Seq<BlockIdentity> {
    match record_of(chain.blocks, id) {
        Some(r) => r.children,
        None => Seq::empty(),
    }
}

/// Whether `id` lies on some currently-best chain.
pub open spec fn on_best_chain(chain: ChainModel, id: BlockIdentity) -> bool {
    chain.canonical.contains(id)
}

/// The height of block `id`, if the block is known.
pub open spec fn height_of(chain: ChainModel, id: BlockIdentity) -> Option<u64> {
    match record_of(chain.blocks, id) {
        Some(r) => Some(r.header.number),
        None => None,
    }
}

/// The height of the last-finalized block, if the chain reports one and its
/// record is known.
pub open spec fn finalized_height(chain: ChainModel) -> Option<u64> {
    match chain.last_finalized {
        Some(id) => height_of(chain, id),
        None => None,
    }
}

/// A record found by identity carries that identity in its header.
pub proof fn lemma_record_of_identity(blocks: Seq<RecordModel>, id: BlockIdentity)
    requires
        record_of(blocks, id) is Some,
    ensures
        record_of(blocks, id)->0.header.identity == id,
    decreases blocks.len(),
{
    if blocks.len() > 0 && blocks[0].header.identity != id {
        lemma_record_of_identity(blocks.drop_first(), id);
    }
}

/// Copy the contents of a vector of plain values.
pub fn copy_values<T: Copy>(v: &Vec<T>) -> (r: Vec<T>)
    ensures
        r@ == v@,
{
    let mut r: Vec<T> = Vec::new();
    let mut i: usize = 0;
    while i < v.len()
        invariant
            i <= v@.len(),
            r@ == v@.take(i as int),
        decreases v@.len() - i,
    {
        proof {
            assert(v@.take(i as int + 1) =~= v@.take(i as int).push(v@[i as int]));
        }
        r.push(v[i]);
        i += 1;
    }
    proof {
        assert(v@.take(v@.len() as int) =~= v@);
    }
    r
}

/// Copy a decoder verdict.
fn clone_log(l: &DecodedLog) -> (r: DecodedLog)
    ensures
        r@ == l@,
{
    match l {
        DecodedLog::Missing => DecodedLog::Missing,
        DecodedLog::Malformed => DecodedLog::Malformed,
        DecodedLog::Facts(f) => DecodedLog::Facts(
            MappingFacts {
                secondary_block_identity: f.secondary_block_identity,
                secondary_transaction_identities: copy_values(
                    &f.secondary_transaction_identities,
                ),
            },
        ),
    }
}

/// Copy a header.
fn clone_header(h: &Header) -> (r: Header)
    ensures
        r@ == h@,
{
    Header {
        identity: h.identity,
        number: h.number,
        parent: h.parent,
        log: clone_log(&h.log),
    }
}

impl ChainView {
    /// Index of the record for block `id`, if the block is known.
    pub fn find_index(&self, id: BlockIdentity) -> (r: Option<usize>)
        ensures
            match r {
                Some(ix) => ix < self@.blocks.len()
                    && record_of(self@.blocks, id) == Some(self@.blocks[ix as int]),
                None => record_of(self@.blocks, id) is None,
            },
    {
        let n = self.blocks.len();
        let mut i: usize = 0;
        proof {
            assert(self@.blocks.skip(0) =~= self@.blocks);
        }
        while i < n
            invariant
                i <= n,
                n == self@.blocks.len(),
                record_of(self@.blocks.skip(i as int), id) == record_of(self@.blocks, id),
            decreases n - i,
        {
            if self.blocks[i].header.identity == id {
                proof {
                    assert(self@.blocks.skip(i as int)[0] == self@.blocks[i as int]);
                }
                return Some(i);
            }
            proof {
                assert(self@.blocks.skip(i as int).drop_first() =~= self@.blocks.skip(
                    i as int + 1,
                ));
            }
            i += 1;
        }
        proof {
            assert(self@.blocks.skip(n as int) =~= Seq::<RecordModel>::empty());
        }
        None
    }

    /// The direct children of block `id`, in the backend's enumeration order;
    /// empty if the block has none or is unknown.
    pub fn children_of(&self, id: BlockIdentity) -> (r: Vec<BlockIdentity>)
        ensures
            r@ == child_seq(self@, id),
    {
        match self.find_index(id) {
            Some(ix) => copy_values(&self.blocks[ix].children),
            None => Vec::new(),
        }
    }

    /// The header of block `id`, if the block is known.
    pub fn header_of(&self, id: BlockIdentity) -> (r: Option<Header>)
        ensures
            (record_of(self@.blocks, id) is None) ==> r is None,
            record_of(self@.blocks, id) matches Some(rec) ==> r matches Some(h) && h@
                == rec.header,
    {
        match self.find_index(id) {
            Some(ix) => Some(clone_header(&self.blocks[ix].header)),
            None => None,
        }
    }

    /// The header of the genesis block (height zero), if it is known.
    pub fn genesis_header(&self) -> (r: Option<Header>)
        ensures
            (genesis_of(self@.blocks) is None) ==> r is None,
            genesis_of(self@.blocks) matches Some(rec) ==> r matches Some(h) && h@
                == rec.header,
    {
        let n = self.blocks.len();
        let mut i: usize = 0;
        proof {
            assert(self@.blocks.skip(0) =~= self@.blocks);
        }
        while i < n
            invariant
                i <= n,
                n == self@.blocks.len(),
                genesis_of(self@.blocks.skip(i as int)) == genesis_of(self@.blocks),
            decreases n - i,
        {
            if self.blocks[i].header.number == 0 {
                proof {
                    assert(self@.blocks.skip(i as int)[0] == self@.blocks[i as int]);
                }
                return Some(clone_header(&self.blocks[i].header));
            }
            proof {
                assert(self@.blocks.skip(i as int).drop_first() =~= self@.blocks.skip(
                    i as int + 1,
                ));
            }
            i += 1;
        }
        proof {
            assert(self@.blocks.skip(n as int) =~= Seq::<RecordModel>::empty());
        }
        None
    }

    /// The height of block `id`, if the block is known.
    pub fn number_of(&self, id: BlockIdentity) -> (r: Option<u64>)
        ensures
            r == height_of(self@, id),
    {
        match self.find_index(id) {
            Some(ix) => Some(self.blocks[ix].header.number),
            None => None,
        }
    }

    /// The last-finalized block, if the chain reports one.
    pub fn last_finalized(&self) -> (r: Option<BlockIdentity>)
        ensures
            r == self@.last_finalized,
    {
        self.last_finalized
    }

    /// The secondary ledger's genesis block identity, as the runtime
    /// interface reports it; `None` if it reports no secondary genesis.
    pub fn genesis_block_identity(&self) -> (r: Option<SecondaryBlockIdentity>)
        ensures
            r == self@.secondary_genesis,
    {
        self.secondary_genesis
    }

    /// Acquire the transient import-exclusion lock for the duration of the
    /// canonical-chain tests of one frontier member's children.
    pub fn acquire_import_lock(&self) -> ImportLock {
        ImportLock {  }
    }

    /// Whether block `id` lies on some currently-best chain. The caller holds
    /// the import lock across this test.
    pub fn is_on_best_chain(&self, id: BlockIdentity, _lock: &ImportLock) -> (r: bool)
        ensures
            r == on_best_chain(self@, id),
    {
        let n = self.canonical.len();
        let mut i: usize = 0;
        while i < n
            invariant
                i <= n,
                n == self@.canonical.len(),
                forall|k: int| 0 <= k < i ==> self@.canonical[k] != id,
            decreases n - i,
        {
            if self.canonical[i] == id {
                return true;
            }
            i += 1;
        }
        false
    }
}

} // verus!
