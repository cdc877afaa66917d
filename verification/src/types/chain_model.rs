//! What a chain is meant to be: the unspent outputs that blocks leave, the
//! verdict on a block, what a chain looks like after each operation, what
//! holds of every chain, and what follows from that.

use vstd::prelude::*;
use crate::difficulty::{
    adjusted,
    ideal_seconds,
    integer_part,
    lemma_retarget_bounded,
    scaled_decimal,
};
use crate::error::{BtcError, Result};
use crate::time::{whole_seconds, Timestamp};
use crate::types::block::{
    Block,
    block_reward,
    BlockView,
    input_refs,
    miner_fees,
    transaction_verdict,
    transactions_valid,
};
use crate::types::mempool_model::{
    admissible,
    claimants,
    claims_disjoint,
    drop_mined,
    expired_refs,
    lemma_claimants_filter,
    lemma_claimants_push,
    lemma_claimants_sort,
    lemma_filter_keeps_disjoint,
    lemma_mark_all_keeps_outputs,
    lemma_marking_claims_is_consistent,
    lemma_pool_refs_contains,
    lemma_release_all_is_made_room,
    lemma_release_all_keeps_consistent,
    lemma_sort_by_fee_sorted,
    made_room,
    mark_all,
    pool_consistent,
    pool_refs,
    PoolEntryView,
    PoolState,
    retain_fresh,
    rivals,
    sort_by_fee,
    sorted_by_fee,
};
use crate::types::transaction::{outputs_value, OutputView, TransactionView};
use crate::types::utxo::UtxoMap;
use crate::uint256::{dec_text, dec_value, is_dec_text};
use crate::util::transaction_digests;
use crate::U256;

verus! {

/// What a [`Blockchain`] stands for.
pub struct ChainView {
    pub utxos: UtxoMap,
    pub target: U256,
    pub blocks: Seq<BlockView>,
    pub mempool: Seq<PoolEntryView>,
}

/// The views of a list of blocks.
pub open spec fn block_views(blocks: Seq<Block>) -> Seq<BlockView> {
    blocks.map_values(|b: Block| b@)
}

/// The map without the outputs under the keys.
pub open spec fn remove_refs(utxos: UtxoMap, refs: Seq<crate::sha256::Hash>) -> UtxoMap {
    utxos.remove_keys(refs.to_set())
}

/// The map after the outputs were recorded under `key` without a mark, one
/// after the other: they share the key, so where there is an output, the
/// last one stays.
pub open spec fn record_outputs(
    utxos: UtxoMap,
    key: crate::sha256::Hash,
    outputs: Seq<OutputView>,
) -> UtxoMap {
    if outputs.len() == 0 {
        utxos
    } else {
        utxos.insert(key, (false, outputs.last()))
    }
}

/// Removing one key more is removing that key from what is left.
pub proof fn lemma_remove_refs_push(
    utxos: UtxoMap,
    refs: Seq<crate::sha256::Hash>,
    key: crate::sha256::Hash,
)
    ensures
        remove_refs(utxos, refs.push(key)) == remove_refs(utxos, refs).remove(key),
{
    let more = refs.push(key);
    assert(more[refs.len() as int] == key);
    assert forall|k: crate::sha256::Hash| more.contains(k) == (refs.contains(k) || k == key) by {
        if refs.contains(k) {
            let i = choose|i: int| 0 <= i < refs.len() && refs[i] == k;
            assert(more[i] == k);
        }
        if more.contains(k) && k != key {
            let i = choose|i: int| 0 <= i < more.len() && more[i] == k;
            assert(refs[i] == k);
        }
    }
    assert(remove_refs(utxos, more) =~= remove_refs(utxos, refs).remove(key));
}

/// The unspent outputs after a transaction: what its inputs refer to is
/// gone, and its outputs are recorded under its digest.
pub open spec fn apply_transaction(utxos: UtxoMap, tx: TransactionView) -> UtxoMap {
    record_outputs(remove_refs(utxos, input_refs(tx.inputs)), tx.digest(), tx.outputs)
}

/// The unspent outputs after the transactions, one after the other.
pub open spec fn apply_transactions(utxos: UtxoMap, txs: Seq<TransactionView>) -> UtxoMap
    decreases txs.len(),
{
    if txs.len() == 0 {
        utxos
    } else {
        apply_transaction(apply_transactions(utxos, txs.drop_last()), txs.last())
    }
}

/// The unspent outputs that the blocks leave, starting from none.
pub open spec fn replay(blocks: Seq<BlockView>) -> UtxoMap
    decreases blocks.len(),
{
    if blocks.len() == 0 {
        Map::empty()
    } else {
        apply_transactions(replay(blocks.drop_last()), blocks.last().transactions)
    }
}

/// The zero digest, which the first block names as its predecessor.
pub open spec fn zero_digest() -> crate::sha256::Hash {
    crate::sha256::Hash(U256(0, 0, 0, 0))
}

/// Each block names the digest of the header of the block before it, and
/// the first one the zero digest.
pub open spec fn chain_linked(blocks: Seq<BlockView>) -> bool {
    &&& blocks.len() > 0 ==> blocks[0].header.prev_block_hash == zero_digest()
    &&& forall|i: int|
        1 <= i < blocks.len() ==> (#[trigger] blocks[i]).header.prev_block_hash == blocks[i
            - 1].header.digest()
}

/// No block is older than the block before it.
pub open spec fn ordered_in_time(blocks: Seq<BlockView>) -> bool {
    forall|i: int|
        1 <= i < blocks.len() ==> (#[trigger] blocks[i]).header.timestamp.as_nanos() >= blocks[i
            - 1].header.timestamp.as_nanos()
}

/// The two maps hold the same outputs under the same keys; the marks may
/// differ.
pub open spec fn same_outputs(a: UtxoMap, b: UtxoMap) -> bool {
    &&& a.dom() == b.dom()
    &&& forall|k: crate::sha256::Hash| a.contains_key(k) ==> (#[trigger] a[k]).1 == b[k].1
}

/// What holds of every chain: the blocks are linked and ordered in time,
/// the target is no easier than the easiest one allowed, the unspent
/// outputs are those that the blocks leave, and an unspent output is marked
/// exactly while a transaction of the pool claims it, which no two do.
#[verifier::opaque]
pub open spec fn chain_invariant(c: ChainView) -> bool {
    &&& chain_linked(c.blocks)
    &&& ordered_in_time(c.blocks)
    &&& c.target.value() <= crate::min_target().value()
    &&& same_outputs(c.utxos, replay(c.blocks))
    &&& pool_consistent(c.utxos, c.mempool)
}

/// The unspent outputs that the blocks leave, with a mark on each one that
/// a transaction of the pool claims.
pub open spec fn rebuilt(blocks: Seq<BlockView>, pool: Seq<PoolEntryView>) -> UtxoMap {
    mark_all(replay(blocks), pool_refs(pool), true)
}

/// The two states of a chain.
#[derive(Clone, Copy, Debug, PartialEq, Eq, Structural)]
pub enum ChainState {
    /// The chain has no block yet.
    Empty,
    /// The chain has at least one block.
    NonEmpty,
}

/// The state that a chain is in.
pub open spec fn chain_state(c: ChainView) -> ChainState {
    if c.blocks.len() == 0 {
        ChainState::Empty
    } else {
        ChainState::NonEmpty
    }
}

/// The verdict of a chain without blocks on a block: the block must name
/// the zero digest as its predecessor, and its transactions must be good
/// at height 0. Nothing is asked of its proof of work, its Merkle root and
/// its time.
pub open spec fn check_first_block(b: BlockView, utxos: UtxoMap) -> Result<()> {
    if b.header.prev_block_hash != zero_digest() {
        Err(BtcError::InvalidBlock)
    } else {
        transaction_verdict(transactions_valid(b.transactions, 0, utxos))
    }
}

/// The verdict of a chain on a block that is to follow `last` at `height`:
/// the block must name the digest of the header of `last`, agree with
/// itself (proof of work and Merkle root) and be no older than `last`, or
/// it is a bad block; and its transactions must be good at `height`.
pub open spec fn check_next_block(last: BlockView, height: u64, b: BlockView, utxos: UtxoMap) -> Result<
    (),
> {
    if b.header.prev_block_hash != last.header.digest() {
        Err(BtcError::InvalidBlock)
    } else if !b.self_consistent() {
        Err(BtcError::InvalidBlock)
    } else if b.header.timestamp.as_nanos() < last.header.timestamp.as_nanos() {
        Err(BtcError::InvalidBlock)
    } else {
        transaction_verdict(transactions_valid(b.transactions, height, utxos))
    }
}

/// The verdict on a block offered to a chain: that of [`check_first_block`]
/// where the chain has no block, else that of [`check_next_block`] after
/// the last block, at the height that is the number of blocks.
pub open spec fn check_block(c: ChainView, b: BlockView) -> Result<()> {
    match chain_state(c) {
        ChainState::Empty => check_first_block(b, c.utxos),
        ChainState::NonEmpty => check_next_block(
            c.blocks.last(),
            c.blocks.len() as u64,
            b,
            c.utxos,
        ),
    }
}

/// The chain after it has taken a block: the block is its last one, the
/// transactions of the block have left the pool, and the unspent outputs
/// are those that the blocks leave, marked where a transaction that is
/// still in the pool claims them.
pub open spec fn after_block(c: ChainView, b: BlockView) -> ChainView {
    let mempool = drop_mined(c.mempool, transaction_digests(b.transactions));
    ChainView {
        utxos: rebuilt(c.blocks.push(b), mempool),
        target: c.target,
        blocks: c.blocks.push(b),
        mempool,
    }
}

/// The chain after it has admitted a transaction to its pool at time `at`.
/// The transactions of the pool that claimed an output that the new one
/// spends have left the pool, and the marks of all their inputs are
/// cleared; the unspent outputs that the new transaction spends are
/// marked; and the pool, with the new transaction in it, is sorted by fee.
pub open spec fn after_admission(c: ChainView, tx: TransactionView, at: Timestamp) -> ChainView {
    let refs = input_refs(tx.inputs);
    let room = made_room(PoolState { utxos: c.utxos, pool: c.mempool }, refs);
    let utxos = mark_all(room.utxos, refs, true);
    ChainView {
        utxos,
        target: c.target,
        blocks: c.blocks,
        mempool: sort_by_fee(room.pool.push((at, tx)), utxos),
    }
}

/// The chain after a transaction was offered to its pool at time `at`: as
/// [`after_admission`] says where the transaction may enter, and as it was
/// where not.
pub open spec fn after_offer(c: ChainView, tx: TransactionView, at: Timestamp) -> ChainView {
    if admissible(tx, c.utxos) {
        after_admission(c, tx, at)
    } else {
        c
    }
}

/// The chain after its pool was cleaned at time `now`: the transactions
/// that were too old are gone and the marks of their inputs are cleared.
pub open spec fn cleaned(c: ChainView, now: Timestamp) -> ChainView {
    ChainView {
        utxos: mark_all(c.utxos, expired_refs(c.mempool, now), false),
        target: c.target,
        blocks: c.blocks,
        mempool: retain_fresh(c.mempool, now),
    }
}

/// Marks change nothing that `same_outputs` looks at.
pub proof fn lemma_marks_keep_same_outputs(
    utxos: UtxoMap,
    refs: Seq<crate::sha256::Hash>,
    pending: bool,
    other: UtxoMap,
)
    requires
        same_outputs(utxos, other),
    ensures
        same_outputs(mark_all(utxos, refs, pending), other),
{
    lemma_mark_all_keeps_outputs(utxos, refs, pending);
    let marked = mark_all(utxos, refs, pending);
    assert forall|k: crate::sha256::Hash| marked.contains_key(k) implies (#[trigger] marked[k]).1
        == other[k].1 by {
        assert(utxos[k].1 == other[k].1);
    }
}

/// What a chain has checked of a block that it takes: the block names the
/// zero digest where the chain has no block, and else the digest of the
/// last header, and it is no older than the last block.
pub proof fn lemma_accepted_block_fits(c: ChainView, b: BlockView)
    requires
        check_block(c, b).is_ok(),
    ensures
        c.blocks.len() == 0 ==> b.header.prev_block_hash == zero_digest(),
        c.blocks.len() > 0 ==> b.header.prev_block_hash == c.blocks.last().header.digest(),
        c.blocks.len() > 0 ==> b.header.timestamp.as_nanos()
            >= c.blocks.last().header.timestamp.as_nanos(),
{
}

proof fn lemma_push_keeps_linked(blocks: Seq<BlockView>, b: BlockView)
    requires
        chain_linked(blocks),
        blocks.len() == 0 ==> b.header.prev_block_hash == zero_digest(),
        blocks.len() > 0 ==> b.header.prev_block_hash == blocks.last().header.digest(),
    ensures
        chain_linked(blocks.push(b)),
{
    let more = blocks.push(b);
    assert forall|i: int| 1 <= i < more.len() implies (#[trigger] more[i]).header.prev_block_hash
        == more[i - 1].header.digest() by {
        if i < more.len() - 1 {
            assert(more[i] == blocks[i]);
            assert(more[i - 1] == blocks[i - 1]);
        } else {
            assert(more[i - 1] == blocks.last());
        }
    }
    if blocks.len() > 0 {
        assert(more[0] == blocks[0]);
    }
}

proof fn lemma_push_keeps_ordered(blocks: Seq<BlockView>, b: BlockView)
    requires
        ordered_in_time(blocks),
        blocks.len() > 0 ==> b.header.timestamp.as_nanos()
            >= blocks.last().header.timestamp.as_nanos(),
    ensures
        ordered_in_time(blocks.push(b)),
{
    let more = blocks.push(b);
    assert forall|i: int| 1 <= i < more.len() implies (
    #[trigger] more[i]).header.timestamp.as_nanos() >= more[i - 1].header.timestamp.as_nanos() by {
        if i < more.len() - 1 {
            assert(more[i] == blocks[i]);
            assert(more[i - 1] == blocks[i - 1]);
        } else {
            assert(more[i - 1] == blocks.last());
        }
    }
}

/// The transactions leave no mark where there was none.
pub proof fn lemma_apply_transactions_unmarked(utxos: UtxoMap, txs: Seq<TransactionView>)
    requires
        forall|k: crate::sha256::Hash| utxos.contains_key(k) ==> !(#[trigger] utxos[k]).0,
    ensures
        forall|k: crate::sha256::Hash|
            apply_transactions(utxos, txs).contains_key(k) ==> !(#[trigger] apply_transactions(
                utxos,
                txs,
            )[k]).0,
    decreases txs.len(),
{
    if txs.len() > 0 {
        lemma_apply_transactions_unmarked(utxos, txs.drop_last());
        let before = apply_transactions(utxos, txs.drop_last());
        let tx = txs.last();
        let spent = remove_refs(before, input_refs(tx.inputs));
        let after = apply_transaction(before, tx);
        assert forall|k: crate::sha256::Hash| after.contains_key(k) implies !(#[trigger] after[k]).0 by {
            if spent.contains_key(k) {
                assert(!before[k].0);
            }
        }
    }
}

/// The unspent outputs that blocks leave carry no mark.
pub proof fn lemma_replay_unmarked(blocks: Seq<BlockView>)
    ensures
        forall|k: crate::sha256::Hash|
            replay(blocks).contains_key(k) ==> !(#[trigger] replay(blocks)[k]).0,
    decreases blocks.len(),
{
    if blocks.len() > 0 {
        lemma_replay_unmarked(blocks.drop_last());
        lemma_apply_transactions_unmarked(replay(blocks.drop_last()), blocks.last().transactions);
    }
}

/// The unspent outputs worked out anew agree with the blocks and with a
/// pool in which no key is claimed twice.
pub proof fn lemma_rebuilt_is_consistent(blocks: Seq<BlockView>, pool: Seq<PoolEntryView>)
    requires
        claims_disjoint(pool),
    ensures
        same_outputs(rebuilt(blocks, pool), replay(blocks)),
        pool_consistent(rebuilt(blocks, pool), pool),
{
    lemma_replay_unmarked(blocks);
    lemma_marking_claims_is_consistent(replay(blocks), pool);
    lemma_marks_keep_same_outputs(replay(blocks), pool_refs(pool), true, replay(blocks));
}

/// A chain that takes a block stays in order.
pub proof fn lemma_block_keeps_invariant(c: ChainView, b: BlockView)
    requires
        chain_invariant(c),
        check_block(c, b).is_ok(),
    ensures
        chain_invariant(after_block(c, b)),
{
    reveal(chain_invariant);
    lemma_accepted_block_fits(c, b);
    lemma_push_keeps_linked(c.blocks, b);
    lemma_push_keeps_ordered(c.blocks, b);
    let mined = transaction_digests(b.transactions);
    lemma_filter_keeps_disjoint(c.mempool, |e: PoolEntryView| !mined.contains(e.1.digest()));
    lemma_rebuilt_is_consistent(c.blocks.push(b), drop_mined(c.mempool, mined));
}

/// The unspent outputs of a chain in order can be worked out from its
/// blocks and its pool alone: they are what working them out anew gives.
pub proof fn lemma_rebuilt_is_current(c: ChainView)
    requires
        chain_invariant(c),
    ensures
        rebuilt(c.blocks, c.mempool) == c.utxos,
{
    reveal(chain_invariant);
    lemma_replay_unmarked(c.blocks);
    let anew = rebuilt(c.blocks, c.mempool);
    assert forall|k: crate::sha256::Hash| anew.contains_key(k) implies anew[k] == c.utxos[k] by {
        lemma_pool_refs_contains(c.mempool, k);
        assert(c.utxos.contains_key(k));
        assert(c.utxos[k].0 == (claimants(c.mempool, k) > 0));
        assert(c.utxos[k].1 == replay(c.blocks)[k].1);
    }
    assert(anew =~= c.utxos);
}

/// A chain whose unspent outputs are worked out anew stays in order.
pub proof fn lemma_rebuild_keeps_invariant(c: ChainView)
    requires
        chain_invariant(c),
    ensures
        chain_invariant(ChainView { utxos: rebuilt(c.blocks, c.mempool), ..c }),
{
    reveal(chain_invariant);
    lemma_rebuilt_is_consistent(c.blocks, c.mempool);
}

/// A chain to whose pool a transaction is offered stays in order.
pub proof fn lemma_offer_keeps_invariant(c: ChainView, tx: TransactionView, at: Timestamp)
    requires
        chain_invariant(c),
    ensures
        chain_invariant(after_offer(c, tx, at)),
{
    reveal(chain_invariant);
    if admissible(tx, c.utxos) {
        let refs = input_refs(tx.inputs);
        let start = PoolState { utxos: c.utxos, pool: c.mempool };
        lemma_release_all_is_made_room(start, refs);
        let room = made_room(start, refs);
        let utxos = mark_all(room.utxos, refs, true);
        let pool = room.pool.push((at, tx));
        let sorted = sort_by_fee(pool, utxos);
        lemma_marks_keep_same_outputs(
            c.utxos,
            pool_refs(rivals(c.mempool, refs)),
            false,
            replay(c.blocks),
        );
        lemma_marks_keep_same_outputs(room.utxos, refs, true, replay(c.blocks));
        lemma_release_all_keeps_consistent(start, refs);
        assert forall|key: crate::sha256::Hash|
            (#[trigger] claimants(sorted, key)) <= 1 && (utxos.contains_key(key) ==> utxos[key].0
                == (claimants(sorted, key) > 0)) by {
            lemma_claimants_sort(pool, utxos, key);
            lemma_claimants_push(room.pool, (at, tx), key);
            assert(claimants(room.pool, key) <= 1);
            if refs.contains(key) {
                let i = choose|i: int| 0 <= i < refs.len() && refs[i] == key;
                assert(claimants(room.pool, refs[i]) == 0);
            }
        }
    }
}

/// A chain whose pool is cleaned stays in order.
pub proof fn lemma_cleanup_keeps_invariant(c: ChainView, now: Timestamp)
    requires
        chain_invariant(c),
    ensures
        chain_invariant(cleaned(c, now)),
{
    reveal(chain_invariant);
    let fresh = |e: PoolEntryView| !crate::types::mempool_model::expired(e, now);
    let gone = |e: PoolEntryView| crate::types::mempool_model::expired(e, now);
    let after = cleaned(c, now);
    lemma_marks_keep_same_outputs(c.utxos, expired_refs(c.mempool, now), false, replay(c.blocks));
    assert forall|key: crate::sha256::Hash|
        (#[trigger] claimants(after.mempool, key)) <= 1 && (after.utxos.contains_key(key)
            ==> after.utxos[key].0 == (claimants(after.mempool, key) > 0)) by {
        lemma_claimants_filter(c.mempool, fresh, gone, key);
        lemma_pool_refs_contains(c.mempool.filter(gone), key);
        assert(claimants(c.mempool, key) <= 1);
    }
}

/// The target of the chain after [`Blockchain::try_adjust_target`]. It
/// changes only where the number of blocks is a positive multiple of
/// [`crate::DIFFICULTY_UPDATE_INTERVAL`]; the pace is then taken from the
/// time between the last block and the block that many places before the
/// end.
pub open spec fn target_after_adjustment(c: ChainView) -> U256 {
    let n = c.blocks.len() as int;
    let interval = crate::DIFFICULTY_UPDATE_INTERVAL as int;
    if n == 0 || n % interval != 0 {
        c.target
    } else {
        let start = c.blocks[n - interval].header.timestamp;
        let end = c.blocks[n - 1].header.timestamp;
        adjusted(c.target, whole_seconds(end.as_nanos() - start.as_nanos()) as i64)
    }
}

/// The target changes only where the number of blocks is a positive
/// multiple of the interval between adjustments.
pub proof fn lemma_target_stays_between_intervals(c: ChainView)
    requires
        c.blocks.len() == 0 || c.blocks.len() % (crate::DIFFICULTY_UPDATE_INTERVAL as nat) != 0,
    ensures
        target_after_adjustment(c) == c.target,
{
}

/// Whatever time the last interval took, the adjusted target is at least a
/// quarter of the old one, at most four times the old one, and never
/// easier than the easiest target allowed.
pub proof fn lemma_adjusted_bounded(target: U256, elapsed: i64)
    requires
        target.value() <= crate::min_target().value(),
    ensures
        target.value() / 4 <= adjusted(target, elapsed).value() <= target.value() * 4,
        adjusted(target, elapsed).value() <= crate::min_target().value(),
{
    match scaled_decimal(dec_text(target.value()), elapsed as int, ideal_seconds()) {
        Some(text) => {
            if is_dec_text(integer_part(text)) {
                lemma_retarget_bounded(target, dec_value(integer_part(text)));
            }
        },
        None => {},
    }
}

/// Whatever the blocks are, the target of a chain in order is, after an
/// adjustment, at least a quarter of what it was, at most four times what
/// it was, and never easier than the easiest target allowed.
pub proof fn lemma_target_after_adjustment_bounded(c: ChainView)
    requires
        c.target.value() <= crate::min_target().value(),
    ensures
        c.target.value() / 4 <= target_after_adjustment(c).value() <= c.target.value() * 4,
        target_after_adjustment(c).value() <= crate::min_target().value(),
{
    let n = c.blocks.len() as int;
    let interval = crate::DIFFICULTY_UPDATE_INTERVAL as int;
    if !(n == 0 || n % interval != 0) {
        let start = c.blocks[n - interval].header.timestamp;
        let end = c.blocks[n - 1].header.timestamp;
        lemma_adjusted_bounded(
            c.target,
            whole_seconds(end.as_nanos() - start.as_nanos()) as i64,
        );
    }
}

/// Offers to the pool keep it sorted by fee: a pool that is sorted before a
/// transaction is offered is sorted after it, whether the transaction
/// enters or not. A pool without entries is sorted, so the pool is sorted
/// after any number of offers.
pub proof fn lemma_offer_keeps_pool_sorted(c: ChainView, tx: TransactionView, at: Timestamp)
    requires
        sorted_by_fee(c.mempool, c.utxos),
    ensures
        sorted_by_fee(after_offer(c, tx, at).mempool, after_offer(c, tx, at).utxos),
{
    if admissible(tx, c.utxos) {
        let refs = input_refs(tx.inputs);
        let room = made_room(PoolState { utxos: c.utxos, pool: c.mempool }, refs);
        lemma_sort_by_fee_sorted(room.pool.push((at, tx)), mark_all(room.utxos, refs, true));
    }
}

/// Cleaning the pool keeps it sorted by fee.
pub proof fn lemma_cleanup_keeps_pool_sorted(c: ChainView, now: Timestamp)
    requires
        sorted_by_fee(c.mempool, c.utxos),
    ensures
        sorted_by_fee(cleaned(c, now).mempool, cleaned(c, now).utxos),
{
    crate::types::mempool_model::lemma_filter_keeps_sorted(
        c.mempool,
        |e: PoolEntryView| !crate::types::mempool_model::expired(e, now),
        c.utxos,
    );
    crate::types::mempool_model::lemma_marks_keep_sorted(
        retain_fresh(c.mempool, now),
        c.utxos,
        expired_refs(c.mempool, now),
        false,
    );
}

/// A transaction that enters the pool is in the pool afterwards, and each
/// unspent output that one of its inputs refers to is marked. No unspent
/// output comes or goes.
pub proof fn lemma_admission_reserves(c: ChainView, tx: TransactionView, at: Timestamp)
    requires
        admissible(tx, c.utxos),
    ensures
        after_admission(c, tx, at).mempool.contains((at, tx)),
        same_outputs(after_admission(c, tx, at).utxos, c.utxos),
        forall|i: int|
            0 <= i < tx.inputs.len() ==> after_admission(c, tx, at).utxos[(
            #[trigger] tx.inputs[i]).prev_transaction_output_hash].0,
{
    broadcast use vstd::seq_lib::group_to_multiset_ensures;

    let refs = input_refs(tx.inputs);
    let start = PoolState { utxos: c.utxos, pool: c.mempool };
    let room = made_room(start, refs);
    let utxos = mark_all(room.utxos, refs, true);
    let pool = room.pool.push((at, tx));
    lemma_marks_keep_same_outputs(c.utxos, pool_refs(rivals(c.mempool, refs)), false, c.utxos);
    lemma_marks_keep_same_outputs(room.utxos, refs, true, c.utxos);
    crate::types::mempool_model::lemma_sort_by_fee_permutes(pool, utxos);
    assert(pool[pool.len() - 1] == (at, tx));
    assert(pool.contains((at, tx)));
    assert(sort_by_fee(pool, utxos).to_multiset().count((at, tx)) > 0);
    assert forall|i: int| 0 <= i < tx.inputs.len() implies utxos[(
    #[trigger] tx.inputs[i]).prev_transaction_output_hash].0 by {
        assert(refs[i] == tx.inputs[i].prev_transaction_output_hash);
        assert(refs.contains(refs[i]));
        assert(c.utxos.contains_key(refs[i]));
    }
}

/// A chain whose target is adjusted stays in order.
pub proof fn lemma_adjustment_keeps_invariant(c: ChainView)
    requires
        chain_invariant(c),
    ensures
        chain_invariant(ChainView { target: target_after_adjustment(c), ..c }),
        c.target.value() / 4 <= target_after_adjustment(c).value() <= c.target.value() * 4,
        target_after_adjustment(c).value() <= crate::min_target().value(),
{
    reveal(chain_invariant);
    lemma_target_after_adjustment_bounded(c);
}

/// A chain without blocks and without pending transactions, at the
/// easiest target, is in order.
pub proof fn lemma_empty_chain_in_order()
    ensures
        chain_invariant(
            ChainView {
                utxos: Map::empty(),
                target: crate::min_target(),
                blocks: Seq::empty(),
                mempool: Seq::empty(),
            },
        ),
{
    reveal(chain_invariant);
    let empty = Map::<crate::sha256::Hash, (bool, OutputView)>::empty();
    assert(empty.dom() =~= replay(Seq::<BlockView>::empty()).dom());
}

/// A transaction that has entered the pool is the only transaction of the
/// pool that claims any of the outputs that it spends: whichever
/// transaction held one of them before has left the pool.
pub proof fn lemma_admission_is_exclusive(c: ChainView, tx: TransactionView, at: Timestamp)
    requires
        chain_invariant(c),
        admissible(tx, c.utxos),
    ensures
        forall|i: int|
            0 <= i < tx.inputs.len() ==> claimants(
                after_admission(c, tx, at).mempool,
                (#[trigger] tx.inputs[i]).prev_transaction_output_hash,
            ) == 1,
{
    reveal(chain_invariant);
    lemma_offer_keeps_invariant(c, tx, at);
    lemma_admission_reserves(c, tx, at);
    let after = after_admission(c, tx, at);
    assert forall|i: int| 0 <= i < tx.inputs.len() implies claimants(
        after.mempool,
        (#[trigger] tx.inputs[i]).prev_transaction_output_hash,
    ) == 1 by {
        let key = tx.inputs[i].prev_transaction_output_hash;
        assert(input_refs(tx.inputs)[i] == key);
        assert(c.utxos.contains_key(key));
        assert(after.utxos.contains_key(key));
        assert(after.utxos[key].0);
        assert(claimants(after.mempool, key) <= 1);
    }
}

/// A chain without blocks takes every block that names the zero digest as
/// its predecessor and whose transactions are good at height 0 when
/// nothing is unspent, whatever its proof of work, its Merkle root and its
/// time are.
pub proof fn lemma_first_block_accepted(c: ChainView, b: BlockView)
    requires
        chain_invariant(c),
        c.blocks.len() == 0,
        b.header.prev_block_hash == zero_digest(),
        transactions_valid(
            b.transactions,
            0,
            Map::<crate::sha256::Hash, (bool, OutputView)>::empty(),
        ),
    ensures
        check_block(c, b) == Ok::<(), BtcError>(()),
{
    reveal(chain_invariant);
    assert(c.utxos =~= Map::<crate::sha256::Hash, (bool, OutputView)>::empty());
}

/// The coinbase of a block that the chain takes pays exactly the reward at
/// the height of the block and the fees of the block.
pub proof fn lemma_accepted_block_pays_exactly(c: ChainView, b: BlockView)
    requires
        check_block(c, b).is_ok(),
    ensures
        b.transactions.len() > 0,
        outputs_value(b.transactions[0].outputs) == block_reward(c.blocks.len() as u64)
            + miner_fees(b.transactions, c.utxos),
{
}

/// None of the keys is left after their outputs were removed.
pub proof fn lemma_remove_refs_removes(utxos: UtxoMap, refs: Seq<crate::sha256::Hash>, i: int)
    requires
        0 <= i < refs.len(),
    ensures
        !remove_refs(utxos, refs).contains_key(refs[i]),
{
    assert(refs.contains(refs[i]));
}

/// Removing outputs brings no key in.
pub proof fn lemma_remove_refs_keeps_absent(
    utxos: UtxoMap,
    refs: Seq<crate::sha256::Hash>,
    key: crate::sha256::Hash,
)
    requires
        !utxos.contains_key(key),
    ensures
        !remove_refs(utxos, refs).contains_key(key),
{
}

/// Recording outputs under one key brings no other key in.
pub proof fn lemma_record_outputs_other_key(
    utxos: UtxoMap,
    at: crate::sha256::Hash,
    outputs: Seq<OutputView>,
    key: crate::sha256::Hash,
)
    requires
        !utxos.contains_key(key),
        outputs.len() > 0 ==> at != key,
    ensures
        !record_outputs(utxos, at, outputs).contains_key(key),
{
}

/// A key that is not the key of an unspent output is none after further
/// transactions either, unless one of them has that key as its digest and
/// creates an output.
pub proof fn lemma_absent_key_stays_absent(
    utxos: UtxoMap,
    txs: Seq<TransactionView>,
    key: crate::sha256::Hash,
)
    requires
        !utxos.contains_key(key),
        forall|s: int|
            0 <= s < txs.len() && (#[trigger] txs[s]).outputs.len() > 0 ==> txs[s].digest() != key,
    ensures
        !apply_transactions(utxos, txs).contains_key(key),
    decreases txs.len(),
{
    if txs.len() > 0 {
        assert forall|s: int|
            0 <= s < txs.drop_last().len() && (#[trigger] txs.drop_last()[s]).outputs.len()
                > 0 implies txs.drop_last()[s].digest() != key by {
            assert(txs.drop_last()[s] == txs[s]);
        }
        lemma_absent_key_stays_absent(utxos, txs.drop_last(), key);
        let before = apply_transactions(utxos, txs.drop_last());
        let tx = txs.last();
        assert(tx == txs[txs.len() - 1]);
        lemma_remove_refs_keeps_absent(before, input_refs(tx.inputs), key);
        lemma_record_outputs_other_key(
            remove_refs(before, input_refs(tx.inputs)),
            tx.digest(),
            tx.outputs,
            key,
        );
    }
}

/// Once a transaction of the list has spent the output under a key, the
/// key is the key of no unspent output after the list, unless that
/// transaction or a later one has the key as its digest and creates an
/// output.
pub proof fn lemma_spent_key_is_gone(utxos: UtxoMap, txs: Seq<TransactionView>, t: int, i: int)
    requires
        0 <= t < txs.len(),
        0 <= i < txs[t].inputs.len(),
        forall|s: int|
            t <= s < txs.len() && (#[trigger] txs[s]).outputs.len() > 0 ==> txs[s].digest()
                != txs[t].inputs[i].prev_transaction_output_hash,
    ensures
        !apply_transactions(utxos, txs).contains_key(
            txs[t].inputs[i].prev_transaction_output_hash,
        ),
    decreases txs.len(),
{
    let key = txs[t].inputs[i].prev_transaction_output_hash;
    let before = apply_transactions(utxos, txs.drop_last());
    let tx = txs.last();
    assert(tx == txs[txs.len() - 1]);
    if t == txs.len() - 1 {
        assert(input_refs(tx.inputs)[i] == key);
        lemma_remove_refs_removes(before, input_refs(tx.inputs), i);
    } else {
        assert(txs.drop_last()[t] == txs[t]);
        assert forall|s: int|
            t <= s < txs.drop_last().len() && (#[trigger] txs.drop_last()[s]).outputs.len()
                > 0 implies txs.drop_last()[s].digest() != key by {
            assert(txs.drop_last()[s] == txs[s]);
        }
        lemma_spent_key_is_gone(utxos, txs.drop_last(), t, i);
        lemma_remove_refs_keeps_absent(before, input_refs(tx.inputs), key);
    }
    lemma_record_outputs_other_key(
        remove_refs(before, input_refs(tx.inputs)),
        tx.digest(),
        tx.outputs,
        key,
    );
}

/// A transaction with an input that refers to no unspent output does not
/// enter the pool.
pub proof fn lemma_unknown_input_not_admissible(tx: TransactionView, utxos: UtxoMap, i: int)
    requires
        0 <= i < tx.inputs.len(),
        !utxos.contains_key(tx.inputs[i].prev_transaction_output_hash),
    ensures
        !admissible(tx, utxos),
{
    assert(input_refs(tx.inputs)[i] == tx.inputs[i].prev_transaction_output_hash);
}

/// A block with an input that refers to no unspent output is turned down.
pub proof fn lemma_unknown_input_block_refused(c: ChainView, b: BlockView, t: int, i: int)
    requires
        0 <= t < b.transactions.len(),
        0 <= i < b.transactions[t].inputs.len(),
        !c.utxos.contains_key(b.transactions[t].inputs[i].prev_transaction_output_hash),
    ensures
        check_block(c, b).is_err(),
{
    let height = if c.blocks.len() == 0 {
        0u64
    } else {
        c.blocks.len() as u64
    };
    if t >= 1 {
        assert(!crate::types::block::input_authorised(b.transactions[t].inputs[i], c.utxos));
        assert(!crate::types::block::transaction_valid(b.transactions[t], c.utxos));
    }
    assert(!transactions_valid(b.transactions, height, c.utxos));
}

/// No output is spent twice. Once the chain has taken a block in which a
/// transaction spends the output under a key, the key is the key of no
/// unspent output, no transaction that refers to it enters the pool, and
/// no block with an input that refers to it is taken next. (Left out: a
/// block in which that transaction or a later one has the key as its own
/// digest and creates an output, which records a new output under the
/// key.)
pub proof fn lemma_no_double_spend(c: ChainView, b: BlockView, t: int, i: int)
    requires
        check_block(c, b).is_ok(),
        0 <= t < b.transactions.len(),
        0 <= i < b.transactions[t].inputs.len(),
        forall|s: int|
            t <= s < b.transactions.len() && (#[trigger] b.transactions[s]).outputs.len() > 0
                ==> b.transactions[s].digest()
                != b.transactions[t].inputs[i].prev_transaction_output_hash,
    ensures
        !after_block(c, b).utxos.contains_key(
            b.transactions[t].inputs[i].prev_transaction_output_hash,
        ),
        forall|tx: TransactionView, j: int|
            0 <= j < tx.inputs.len() && (#[trigger] tx.inputs[j]).prev_transaction_output_hash
                == b.transactions[t].inputs[i].prev_transaction_output_hash ==> !admissible(
                tx,
                after_block(c, b).utxos,
            ),
        forall|next: BlockView, s: int, j: int|
            0 <= s < next.transactions.len() && 0 <= j < next.transactions[s].inputs.len() && (
            #[trigger] next.transactions[s].inputs[j]).prev_transaction_output_hash
                == b.transactions[t].inputs[i].prev_transaction_output_hash ==> check_block(
                after_block(c, b),
                next,
            ).is_err(),
{
    let key = b.transactions[t].inputs[i].prev_transaction_output_hash;
    let after = after_block(c, b);
    assert(c.blocks.push(b).drop_last() =~= c.blocks);
    lemma_spent_key_is_gone(replay(c.blocks), b.transactions, t, i);
    assert forall|tx: TransactionView, j: int|
        0 <= j < tx.inputs.len() && (#[trigger] tx.inputs[j]).prev_transaction_output_hash
            == key implies !admissible(tx, after.utxos) by {
        lemma_unknown_input_not_admissible(tx, after.utxos, j);
    }
    assert forall|next: BlockView, s: int, j: int|
        0 <= s < next.transactions.len() && 0 <= j < next.transactions[s].inputs.len() && (
        #[trigger] next.transactions[s].inputs[j]).prev_transaction_output_hash
            == key implies check_block(after, next).is_err() by {
        lemma_unknown_input_block_refused(after, next, s, j);
    }
}

} // verus!
