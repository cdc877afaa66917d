//! The chain: the blocks accepted so far, the outputs they leave unspent,
//! the current target, and the pool of pending transactions.

use vstd::prelude::*;
use crate::difficulty::adjust;
use crate::error::{BtcError, Result};
use crate::time::{now, Timestamp};
use crate::types::block::{Block, BlockView, input_refs, transaction_verdict};
use crate::types::chain_model::{
    after_block,
    after_offer,
    apply_transaction,
    apply_transactions,
    block_views,
    chain_invariant,
    chain_state,
    ChainState,
    ChainView,
    check_block,
    check_first_block,
    check_next_block,
    cleaned,
    lemma_adjustment_keeps_invariant,
    lemma_block_keeps_invariant,
    lemma_cleanup_keeps_invariant,
    lemma_empty_chain_in_order,
    lemma_offer_keeps_invariant,
    lemma_rebuild_keeps_invariant,
    lemma_rebuilt_is_current,
    lemma_remove_refs_push,
    rebuilt,
    record_outputs,
    remove_refs,
    replay,
    target_after_adjustment,
};
use crate::types::mempool::{
    check_admissible,
    drop_expired,
    release_claims,
    remove_mined,
    set_marks,
    sort_pool,
};
use crate::types::mempool_model::{
    admissible,
    lemma_mark_all_concat,
    lemma_release_all_is_made_room,
    lemma_sort_by_fee_sorted,
    made_room,
    mark_all,
    pool_refs,
    pool_views,
    PoolEntry,
    PoolEntryView,
    PoolState,
    sorted_by_fee,
};
use crate::types::transaction::{OutputView, Transaction, TransactionView};
use crate::types::utxo::UtxoSet;
use crate::util::{MerkleRoot, transaction_digests};
use crate::U256;

verus! {

/// The chain itself.
#[derive(Debug)]
pub struct Blockchain {
    utxos: UtxoSet,
    target: U256,
    blocks: Vec<Block>,
    mempool: Vec<PoolEntry>,
}

impl View for Blockchain {
    type V = ChainView;

    closed spec fn view(&self) -> ChainView {
        ChainView {
            utxos: self.utxos@,
            target: self.target,
            blocks: block_views(self.blocks@),
            mempool: pool_views(self.mempool@),
        }
    }
}

/// Applies a transaction to the unspent outputs.
pub fn apply_transaction_to(utxos: &mut UtxoSet, tx: &Transaction)
    requires
        old(utxos).wf(),
    ensures
        final(utxos).wf(),
        final(utxos)@ == apply_transaction(old(utxos)@, tx@),
{
    let ghost refs = input_refs(tx@.inputs);
    let mut i: usize = 0;
    proof {
        assert(refs.take(0) =~= Seq::<crate::sha256::Hash>::empty());
        assert(utxos@ =~= remove_refs(utxos@, refs.take(0)));
    }
    while i < tx.inputs.len()
        invariant
            i <= tx.inputs@.len(),
            utxos.wf(),
            refs == input_refs(tx@.inputs),
            utxos@ == remove_refs(old(utxos)@, refs.take(i as int)),
        decreases tx.inputs@.len() - i,
    {
        proof {
            assert(refs.take(i + 1) =~= refs.take(i as int).push(refs[i as int]));
            lemma_remove_refs_push(old(utxos)@, refs.take(i as int), refs[i as int]);
        }
        utxos.remove(&tx.inputs[i].prev_transaction_output_hash);
        i += 1;
    }
    proof {
        assert(refs.take(i as int) =~= refs);
    }
    let ghost spent = utxos@;
    let key = tx.hash();
    let mut j: usize = 0;
    proof {
        assert(tx@.outputs.take(0) =~= Seq::<OutputView>::empty());
    }
    while j < tx.outputs.len()
        invariant
            j <= tx.outputs@.len(),
            utxos.wf(),
            key == tx@.digest(),
            utxos@ == record_outputs(spent, key, tx@.outputs.take(j as int)),
        decreases tx.outputs@.len() - j,
    {
        proof {
            assert(tx@.outputs.take(j + 1).last() == tx.outputs@[j as int]@);
            assert(spent.insert(key, (false, tx.outputs@[j as int]@)) =~= record_outputs(
                spent,
                key,
                tx@.outputs.take(j as int),
            ).insert(key, (false, tx.outputs@[j as int]@)));
        }
        utxos.insert(key, false, tx.outputs[j].clone());
        j += 1;
    }
    proof {
        assert(tx@.outputs.take(j as int) =~= tx@.outputs);
    }
}

/// Applies the transactions of a block to the unspent outputs.
pub fn apply_block_to(utxos: &mut UtxoSet, block: &Block)
    requires
        old(utxos).wf(),
    ensures
        final(utxos).wf(),
        final(utxos)@ == apply_transactions(old(utxos)@, block@.transactions),
{
    let mut t: usize = 0;
    proof {
        assert(block@.transactions.take(0) =~= Seq::<TransactionView>::empty());
    }
    while t < block.transactions.len()
        invariant
            t <= block.transactions@.len(),
            utxos.wf(),
            utxos@ == apply_transactions(old(utxos)@, block@.transactions.take(t as int)),
        decreases block.transactions@.len() - t,
    {
        proof {
            let next = block@.transactions.take(t + 1);
            assert(next.drop_last() =~= block@.transactions.take(t as int));
            assert(next.last() == block.transactions@[t as int]@);
        }
        apply_transaction_to(utxos, &block.transactions[t]);
        t += 1;
    }
    proof {
        assert(block@.transactions.take(t as int) =~= block@.transactions);
    }
}

/// The unspent outputs that the blocks leave.
pub fn replay_blocks(blocks: &Vec<Block>) -> (utxos: UtxoSet)
    ensures
        utxos.wf(),
        utxos@ == replay(block_views(blocks@)),
{
    let ghost views = block_views(blocks@);
    let mut utxos = UtxoSet::new();
    let mut b: usize = 0;
    proof {
        assert(views.take(0) =~= Seq::<BlockView>::empty());
    }
    while b < blocks.len()
        invariant
            b <= blocks@.len(),
            utxos.wf(),
            views == block_views(blocks@),
            utxos@ == replay(views.take(b as int)),
        decreases blocks@.len() - b,
    {
        proof {
            assert(views.take(b + 1).drop_last() =~= views.take(b as int));
            assert(views.take(b + 1).last() == blocks@[b as int]@);
        }
        apply_block_to(&mut utxos, &blocks[b]);
        b += 1;
    }
    proof {
        assert(views.take(b as int) =~= views);
    }
    utxos
}

/// The digests of the transactions of a block.
pub fn transaction_digest_list(block: &Block) -> (digests: Vec<crate::sha256::Hash>)
    ensures
        digests@ == transaction_digests(block@.transactions),
{
    let ghost want = transaction_digests(block@.transactions);
    let mut digests: Vec<crate::sha256::Hash> = Vec::new();
    let mut t: usize = 0;
    while t < block.transactions.len()
        invariant
            t <= block.transactions@.len(),
            want == transaction_digests(block@.transactions),
            digests@ == want.take(t as int),
        decreases block.transactions@.len() - t,
    {
        digests.push(block.transactions[t].hash());
        proof {
            assert(digests@ =~= want.take(t + 1));
        }
        t += 1;
    }
    proof {
        assert(want.take(t as int) =~= want);
    }
    digests
}

/// Marks each unspent output that a transaction of the pool claims.
pub fn mark_claimed(utxos: &mut UtxoSet, pool: &Vec<PoolEntry>)
    requires
        old(utxos).wf(),
    ensures
        final(utxos).wf(),
        final(utxos)@ == mark_all(old(utxos)@, pool_refs(pool_views(pool@)), true),
{
    let ghost views = pool_views(pool@);
    let mut i: usize = 0;
    proof {
        assert(views.take(0) =~= Seq::<PoolEntryView>::empty());
        assert(utxos@ =~= mark_all(utxos@, pool_refs(views.take(0)), true));
    }
    while i < pool.len()
        invariant
            i <= pool@.len(),
            utxos.wf(),
            views == pool_views(pool@),
            utxos@ == mark_all(old(utxos)@, pool_refs(views.take(i as int)), true),
        decreases pool@.len() - i,
    {
        proof {
            assert(views.take(i + 1).drop_last() =~= views.take(i as int));
            assert(views.take(i + 1).last().1 == pool@[i as int].1@);
            lemma_mark_all_concat(
                old(utxos)@,
                pool_refs(views.take(i as int)),
                input_refs(pool@[i as int].1@.inputs),
                true,
            );
        }
        set_marks(utxos, &pool[i].1, true);
        i += 1;
    }
    proof {
        assert(views.take(i as int) =~= views);
    }
}

impl Clone for Blockchain {
    fn clone(&self) -> (copy: Self)
        ensures
            copy@ == self@,
            self.wf() ==> copy.wf(),
    {
        let mut blocks: Vec<Block> = Vec::new();
        let mut i: usize = 0;
        while i < self.blocks.len()
            invariant
                i <= self.blocks@.len(),
                blocks@.len() == i,
                block_views(blocks@) == block_views(self.blocks@).take(i as int),
            decreases self.blocks@.len() - i,
        {
            let ghost before = blocks@;
            let block = self.blocks[i].clone();
            blocks.push(block);
            proof {
                let want = block_views(self.blocks@).take(i + 1);
                assert forall|k: int| 0 <= k < want.len() implies block_views(blocks@)[k]
                    == want[k] by {
                    if k < i {
                        assert(block_views(before)[k] == block_views(self.blocks@).take(i as int)[k]);
                    }
                }
                assert(block_views(blocks@) =~= want);
            }
            i += 1;
        }
        let mut mempool: Vec<PoolEntry> = Vec::new();
        let mut j: usize = 0;
        while j < self.mempool.len()
            invariant
                j <= self.mempool@.len(),
                mempool@.len() == j,
                pool_views(mempool@) == pool_views(self.mempool@).take(j as int),
            decreases self.mempool@.len() - j,
        {
            let ghost before = mempool@;
            let entry = (self.mempool[j].0, self.mempool[j].1.clone());
            mempool.push(entry);
            proof {
                let want = pool_views(self.mempool@).take(j + 1);
                assert forall|k: int| 0 <= k < want.len() implies pool_views(mempool@)[k]
                    == want[k] by {
                    if k < j {
                        assert(pool_views(before)[k] == pool_views(self.mempool@).take(j as int)[k]);
                    }
                }
                assert(pool_views(mempool@) =~= want);
            }
            j += 1;
        }
        proof {
            assert(block_views(self.blocks@).take(i as int) =~= block_views(self.blocks@));
            assert(pool_views(self.mempool@).take(j as int) =~= pool_views(self.mempool@));
        }
        Blockchain { utxos: self.utxos.clone(), target: self.target, blocks, mempool }
    }
}

/// The verdict of a chain without blocks on a block.
pub fn validate_first_block(block: &Block, utxos: &UtxoSet) -> (r: Result<()>)
    requires
        utxos.wf(),
    ensures
        r == check_first_block(block@, utxos@),
{
    if block.header.prev_block_hash != crate::sha256::Hash::zero() {
        return Err(BtcError::InvalidBlock);
    }
    block.verify_transactions(0, utxos)
}

/// The verdict of a chain on a block that is to follow `last_block` at
/// `height`.
pub fn validate_next_block(last_block: &Block, height: u64, block: &Block, utxos: &UtxoSet) -> (r:
    Result<()>)
    requires
        utxos.wf(),
    ensures
        r == check_next_block(last_block@, height, block@, utxos@),
{
    if block.header.prev_block_hash != last_block.header.hash() {
        return Err(BtcError::InvalidBlock);
    }
    if !block.header.has_proof_of_work() {
        return Err(BtcError::InvalidBlock);
    }
    let calculated_merkle_root = MerkleRoot::calculate(block.transactions.as_slice());
    if calculated_merkle_root != block.header.merkle_root {
        return Err(BtcError::InvalidBlock);
    }
    if block.header.timestamp.is_before(&last_block.header.timestamp) {
        return Err(BtcError::InvalidBlock);
    }
    block.verify_transactions(height, utxos)
}

impl Blockchain {
    /// Whether the chain is in order. Every chain that this module hands out
    /// is, and every operation keeps it so.
    pub closed spec fn wf(&self) -> bool {
        &&& self.utxos.wf()
        &&& chain_invariant(self@)
    }

    /// What holds of every chain.
    pub proof fn lemma_invariant(&self)
        requires
            self.wf(),
        ensures
            chain_invariant(self@),
    {
    }

    /// A chain without blocks, at the easiest target.
    pub fn new() -> (chain: Blockchain)
        ensures
            chain.wf(),
            chain@ == (ChainView {
                utxos: Map::empty(),
                target: crate::min_target(),
                blocks: Seq::empty(),
                mempool: Seq::empty(),
            }),
    {
        let chain = Blockchain {
            utxos: UtxoSet::new(),
            target: crate::min_target(),
            blocks: Vec::new(),
            mempool: Vec::new(),
        };
        proof {
            assert(block_views(chain.blocks@) =~= Seq::<BlockView>::empty());
            assert(pool_views(chain.mempool@) =~= Seq::<PoolEntryView>::empty());
            lemma_empty_chain_in_order();
        }
        chain
    }

    /// The number of blocks.
    pub fn block_height(&self) -> (height: u64)
        ensures
            height == self@.blocks.len(),
    {
        self.blocks.len() as u64
    }

    /// The unspent outputs.
    pub fn utxos(&self) -> (utxos: &UtxoSet)
        requires
            self.wf(),
        ensures
            utxos.wf(),
            utxos@ == self@.utxos,
    {
        &self.utxos
    }

    /// The current target.
    pub fn target(&self) -> (target: U256)
        ensures
            target == self@.target,
    {
        self.target
    }

    /// The blocks, oldest first.
    pub fn blocks(&self) -> (blocks: &Vec<Block>)
        ensures
            block_views(blocks@) == self@.blocks,
    {
        &self.blocks
    }

    /// The pending transactions, each with the time of its admission.
    pub fn mempool(&self) -> (pool: &[PoolEntry])
        ensures
            pool_views(pool@) == self@.mempool,
    {
        self.mempool.as_slice()
    }

    /// Works out the unspent outputs anew from the blocks, and marks those
    /// that a transaction of the pool claims. What comes out is what the
    /// chain held before.
    pub fn rebuild_utxos(&mut self)
        requires
            old(self).wf(),
        ensures
            final(self).wf(),
            final(self)@ == (ChainView {
                utxos: rebuilt(old(self)@.blocks, old(self)@.mempool),
                ..old(self)@
            }),
            final(self)@ == old(self)@,
    {
        proof {
            lemma_rebuild_keeps_invariant(self@);
            lemma_rebuilt_is_current(self@);
        }
        let mut utxos = replay_blocks(&self.blocks);
        mark_claimed(&mut utxos, &self.mempool);
        self.utxos = utxos;
    }

    /// The state that the chain is in.
    pub fn state(&self) -> (state: ChainState)
        ensures
            state == chain_state(self@),
    {
        if self.blocks.is_empty() {
            ChainState::Empty
        } else {
            ChainState::NonEmpty
        }
    }

    /// The verdict on a block offered to the chain, which is left as it is.
    pub fn validate_block(&self, block: &Block) -> (r: Result<()>)
        requires
            self.wf(),
        ensures
            r == check_block(self@, block@),
    {
        match self.state() {
            ChainState::Empty => validate_first_block(block, &self.utxos),
            ChainState::NonEmpty => {
                let last_block = &self.blocks[self.blocks.len() - 1];
                proof {
                    assert(self@.blocks.last() == last_block@);
                }
                validate_next_block(last_block, self.block_height(), block, &self.utxos)
            },
        }
    }

    /// Offers a block to the chain. The verdict is that of [`check_block`];
    /// a block that is turned down leaves the chain as it was.
    pub fn add_block(&mut self, block: Block) -> (r: Result<()>)
        requires
            old(self).wf(),
        ensures
            final(self).wf(),
            r == check_block(old(self)@, block@),
            r.is_err() ==> final(self)@ == old(self)@,
            r.is_ok() ==> final(self)@ == after_block(old(self)@, block@),
    {
        match self.validate_block(&block) {
            Ok(()) => {},
            Err(e) => {
                return Err(e);
            },
        }
        let block_transactions = transaction_digest_list(&block);
        remove_mined(&mut self.mempool, &block_transactions);
        let ghost before = self.blocks@;
        self.blocks.push(block);
        proof {
            assert(block_views(self.blocks@) =~= block_views(before).push(block@));
            lemma_block_keeps_invariant(old(self)@, block@);
        }
        let mut utxos = replay_blocks(&self.blocks);
        mark_claimed(&mut utxos, &self.mempool);
        self.utxos = utxos;
        Ok(())
    }

    /// Offers a transaction to the pool at time `at`. It is admitted where
    /// each input refers to an unspent output, no two inputs to the same
    /// one, and the outputs are worth no more than the inputs; a
    /// transaction that is turned down leaves the chain as it was. One that
    /// is admitted drives out the transactions of the pool that claim an
    /// output it spends, and the pool is left sorted by fee.
    pub fn add_to_mempool_at(&mut self, transaction: Transaction, at: Timestamp) -> (r: Result<()>)
        requires
            old(self).wf(),
        ensures
            final(self).wf(),
            r == transaction_verdict(admissible(transaction@, old(self)@.utxos)),
            final(self)@ == after_offer(old(self)@, transaction@, at),
            r.is_ok() ==> sorted_by_fee(final(self)@.mempool, final(self)@.utxos),
    {
        if !check_admissible(&transaction, &self.utxos) {
            return Err(BtcError::InvalidTransaction);
        }
        let ghost refs = input_refs(transaction@.inputs);
        let ghost start = PoolState { utxos: self.utxos@, pool: pool_views(self.mempool@) };
        proof {
            reveal(chain_invariant);
            lemma_release_all_is_made_room(start, refs);
        }
        release_claims(&mut self.utxos, &mut self.mempool, &transaction);
        set_marks(&mut self.utxos, &transaction, true);
        let ghost released = self.mempool@;
        proof {
            lemma_offer_keeps_invariant(old(self)@, transaction@, at);
        }
        self.mempool.push((at, transaction));
        proof {
            assert(pool_views(self.mempool@) =~= pool_views(released).push((at, transaction@)));
        }
        let mut pool: Vec<PoolEntry> = Vec::new();
        core::mem::swap(&mut pool, &mut self.mempool);
        self.mempool = sort_pool(pool, &self.utxos);
        proof {
            lemma_sort_by_fee_sorted(
                made_room(start, refs).pool.push((at, transaction@)),
                self.utxos@,
            );
        }
        Ok(())
    }

    /// Offers a transaction to the pool at the current time; see
    /// [`Blockchain::add_to_mempool_at`].
    pub fn add_to_mempool(&mut self, transaction: Transaction) -> (r: Result<()>)
        requires
            old(self).wf(),
        ensures
            final(self).wf(),
            r == transaction_verdict(admissible(transaction@, old(self)@.utxos)),
            exists|at: Timestamp| final(self)@ == after_offer(old(self)@, transaction@, at),
            r.is_ok() ==> sorted_by_fee(final(self)@.mempool, final(self)@.utxos),
    {
        let at = now();
        self.add_to_mempool_at(transaction, at)
    }

    /// Drops from the pool the transactions that were admitted more than
    /// [`crate::MAX_MEMPOOL_TRANSACTION_AGE`] seconds before `now`, and
    /// clears the marks of their inputs.
    pub fn cleanup_mempool_at(&mut self, now: Timestamp)
        requires
            old(self).wf(),
        ensures
            final(self).wf(),
            final(self)@ == cleaned(old(self)@, now),
    {
        proof {
            lemma_cleanup_keeps_invariant(self@, now);
        }
        drop_expired(&mut self.utxos, &mut self.mempool, &now);
    }

    /// Drops from the pool the transactions that are too old at the current
    /// time; see [`Blockchain::cleanup_mempool_at`].
    pub fn cleanup_mempool(&mut self)
        requires
            old(self).wf(),
        ensures
            final(self).wf(),
            exists|at: Timestamp| final(self)@ == cleaned(old(self)@, at),
    {
        let at = now();
        self.cleanup_mempool_at(at);
    }

    /// The target that [`Blockchain::try_adjust_target`] would set.
    pub fn next_target(&self) -> (target: U256)
        ensures
            target == target_after_adjustment(self@),
    {
        let n: usize = self.blocks.len();
        let interval: usize = crate::DIFFICULTY_UPDATE_INTERVAL as usize;
        if n == 0 {
            return self.target;
        }
        if n % interval != 0 {
            return self.target;
        }
        let start_time = self.blocks[n - interval].header.timestamp;
        let end_time = self.blocks[n - 1].header.timestamp;
        let time_diff_seconds: i64 = end_time.seconds_since(&start_time);
        proof {
            assert(self@.blocks[n - interval].header.timestamp == start_time);
            assert(self@.blocks[n - 1].header.timestamp == end_time);
        }
        adjust(self.target, time_diff_seconds)
    }

    /// Adjusts the target to the pace of the last interval, where the
    /// number of blocks is a positive multiple of
    /// [`crate::DIFFICULTY_UPDATE_INTERVAL`]; else the target stays. The
    /// new target is at least a quarter of the old one, at most four times
    /// the old one, and never easier than the easiest target allowed.
    pub fn try_adjust_target(&mut self)
        requires
            old(self).wf(),
        ensures
            final(self).wf(),
            final(self)@ == (ChainView { target: target_after_adjustment(old(self)@), ..old(self)@ }),
            old(self)@.target.value() / 4 <= final(self)@.target.value() <= old(self)@.target.value()
                * 4,
            final(self)@.target.value() <= crate::min_target().value(),
    {
        let target = self.next_target();
        proof {
            lemma_adjustment_keeps_invariant(self@);
        }
        self.target = target;
    }
}

} // verus!
