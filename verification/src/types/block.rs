//! Blocks: a header that carries the proof of work, and the transactions it
//! commits to, the first of which pays the miner.

use vstd::prelude::*;
use vstd::arithmetic::power2::pow2;
use crate::codec::{enc_i64, enc_u256, enc_u64, put_i64, put_u256, put_u64};
use crate::crypto::spec_verify;
use crate::error::{BtcError, Result};
use crate::sha256::spec_hash;
use crate::time::{now, Timestamp};
use crate::types::transaction::{
    lemma_outputs_value_prefix,
    outputs_value,
    InputView,
    OutputView,
    Transaction,
    TransactionView,
};
use crate::types::utxo::{UtxoMap, UtxoSet};
use crate::util::{spec_merkle_root, transaction_views, MerkleRoot};
use crate::U256;

verus! {

/// The header of a block.
#[derive(Clone, Copy, Debug, PartialEq, Eq, Structural)]
pub struct BlockHeader {
    /// When the block was made.
    pub timestamp: Timestamp,
    /// The number that is varied until the digest of the header meets the target.
    pub nonce: u64,
    /// The digest of the header of the block before this one.
    pub prev_block_hash: crate::sha256::Hash,
    /// The Merkle root of the transactions of the block.
    pub merkle_root: MerkleRoot,
    /// The largest digest that counts as proof of work.
    pub target: U256,
}

impl BlockHeader {
    /// The bytes that stand for the header in a digest.
    pub open spec fn encoding(self) -> Seq<u8> {
        enc_i64(self.timestamp.secs) + enc_u64(self.timestamp.nanos as u64) + enc_u64(self.nonce)
            + enc_u256(self.prev_block_hash.0) + enc_u256(self.merkle_root.0.0) + enc_u256(
            self.target,
        )
    }

    /// The digest of the header.
    pub open spec fn digest(self) -> crate::sha256::Hash {
        spec_hash(self.encoding())
    }

    /// Whether the header carries proof of work: its digest is at most its
    /// target.
    #[verifier::opaque]
    pub open spec fn meets_target(self) -> bool {
        self.digest().0.value() <= self.target.value()
    }

    /// The same header with another nonce.
    pub open spec fn with_nonce(self, nonce: u64) -> BlockHeader {
        BlockHeader { nonce, ..self }
    }

    /// The header tried after `self`: the next nonce, or, when the nonces
    /// are used up, nonce 0 at the time `wrapped_at`.
    pub open spec fn successor(self, wrapped_at: Timestamp) -> BlockHeader {
        if self.nonce < u64::MAX {
            BlockHeader { nonce: (self.nonce + 1) as u64, ..self }
        } else {
            BlockHeader { nonce: 0, timestamp: wrapped_at, ..self }
        }
    }

    /// A header from its parts.
    pub fn new(
        timestamp: Timestamp,
        nonce: u64,
        prev_block_hash: crate::sha256::Hash,
        merkle_root: MerkleRoot,
        target: U256,
    ) -> (header: BlockHeader)
        ensures
            header == (BlockHeader { timestamp, nonce, prev_block_hash, merkle_root, target }),
    {
        BlockHeader { timestamp, nonce, prev_block_hash, merkle_root, target }
    }

    /// Appends the encoding of the header.
    pub fn encode_into(&self, out: &mut Vec<u8>)
        ensures
            final(out)@ == old(out)@ + self.encoding(),
    {
        put_i64(out, self.timestamp.secs);
        put_u64(out, self.timestamp.nanos as u64);
        put_u64(out, self.nonce);
        put_u256(out, &self.prev_block_hash.0);
        put_u256(out, &self.merkle_root.0.0);
        put_u256(out, &self.target);
        proof {
            assert(out@ =~= old(out)@ + self.encoding());
        }
    }

    /// The digest of the header.
    pub fn hash(&self) -> (h: crate::sha256::Hash)
        ensures
            h == self.digest(),
    {
        let mut bytes: Vec<u8> = Vec::new();
        self.encode_into(&mut bytes);
        proof {
            assert(bytes@ =~= self.encoding());
        }
        crate::sha256::Hash::hash(bytes.as_slice())
    }

    /// Whether the header carries proof of work.
    pub fn has_proof_of_work(&self) -> (ok: bool)
        ensures
            ok == self.meets_target(),
    {
        reveal(BlockHeader::meets_target);
        self.hash().matches_target(self.target)
    }

    /// Moves on to the header that is tried next.
    pub fn advance(&mut self, wrapped_at: Timestamp)
        ensures
            *final(self) == old(self).successor(wrapped_at),
    {
        if self.nonce < u64::MAX {
            self.nonce = self.nonce + 1;
        } else {
            self.nonce = 0;
            self.timestamp = wrapped_at;
        }
    }

    /// Searches for a nonce under which the header meets its target, trying
    /// the header as it stands and then at most `steps` further ones. When
    /// the nonces are used up the search goes on from nonce 0 with the
    /// timestamp set to the current time.
    ///
    /// The result says whether the header, as it is left, meets its target.
    /// While the nonce does not wrap, the header is left at the first nonce
    /// from the old one on that meets the target, or `steps` nonces on
    /// where none of them does. A search without success always leaves the
    /// nonce `steps` places on, counted round the end of the nonces.
    pub fn mine(&mut self, steps: usize) -> (found: bool)
        ensures
            found == final(self).meets_target(),
            final(self).prev_block_hash == old(self).prev_block_hash,
            final(self).merkle_root == old(self).merkle_root,
            final(self).target == old(self).target,
            old(self).meets_target() ==> *final(self) == *old(self),
            old(self).nonce + steps <= u64::MAX ==> {
                &&& final(self).timestamp == old(self).timestamp
                &&& old(self).nonce <= final(self).nonce <= old(self).nonce + steps
                &&& forall|n: u64|
                    old(self).nonce <= n < final(self).nonce ==> !(#[trigger] old(
                        self,
                    ).with_nonce(n)).meets_target()
                &&& !found ==> final(self).nonce == old(self).nonce + steps
            },
            !found ==> final(self).nonce == (old(self).nonce + steps) % 0x1_0000_0000_0000_0000,
    {
        let ghost start = *self;
        if self.has_proof_of_work() {
            return true;
        }
        let mut tried: usize = 0;
        while tried < steps
            invariant
                tried <= steps,
                start == *old(self),
                self.prev_block_hash == start.prev_block_hash,
                self.merkle_root == start.merkle_root,
                self.target == start.target,
                !start.meets_target(),
                !self.meets_target(),
                self.nonce == (start.nonce + tried) % 0x1_0000_0000_0000_0000,
                start.nonce + steps <= u64::MAX ==> {
                    &&& self.timestamp == start.timestamp
                    &&& self.nonce == start.nonce + tried
                    &&& forall|n: u64|
                        start.nonce <= n <= self.nonce ==> !(#[trigger] start.with_nonce(
                            n,
                        )).meets_target()
                },
            decreases steps - tried,
        {
            let wrapped_at = if self.nonce == u64::MAX {
                now()
            } else {
                self.timestamp
            };
            let ghost before = *self;
            self.advance(wrapped_at);
            tried += 1;
            proof {
                if start.nonce + steps <= u64::MAX {
                    assert(*self == start.with_nonce(self.nonce));
                    assert(before == start.with_nonce(before.nonce));
                }
            }
            if self.has_proof_of_work() {
                return true;
            }
        }
        false
    }
}

/// What a [`Block`] stands for.
pub struct BlockView {
    pub header: BlockHeader,
    pub transactions: Seq<TransactionView>,
}

/// The encodings of the transactions, one after the other.
pub open spec fn encode_transactions(txs: Seq<TransactionView>) -> Seq<u8>
    decreases txs.len(),
{
    if txs.len() == 0 {
        Seq::empty()
    } else {
        encode_transactions(txs.drop_last()) + txs.last().encoding()
    }
}

impl BlockView {
    /// The bytes that stand for the block in a digest: the header, the
    /// number of transactions, the transactions.
    pub open spec fn encoding(self) -> Seq<u8> {
        self.header.encoding() + enc_u64(self.transactions.len() as u64) + encode_transactions(
            self.transactions,
        )
    }

    /// The digest of the whole block.
    pub open spec fn digest(self) -> crate::sha256::Hash {
        spec_hash(self.encoding())
    }

    /// Whether the block agrees with itself: its header carries proof of
    /// work and names the Merkle root of its transactions.
    pub open spec fn self_consistent(self) -> bool {
        &&& self.header.meets_target()
        &&& spec_merkle_root(self.transactions) == self.header.merkle_root
    }
}

/// The transactions of a block that spend: all but the first.
pub open spec fn spending(txs: Seq<TransactionView>) -> Seq<TransactionView> {
    if txs.len() == 0 {
        txs
    } else {
        txs.subrange(1, txs.len() as int)
    }
}

/// The keys that the inputs refer to.
pub open spec fn input_refs(inputs: Seq<InputView>) -> Seq<crate::sha256::Hash> {
    inputs.map_values(|i: InputView| i.prev_transaction_output_hash)
}

/// The keys that the inputs of the transactions refer to, in order.
pub open spec fn all_input_refs(txs: Seq<TransactionView>) -> Seq<crate::sha256::Hash>
    decreases txs.len(),
{
    if txs.len() == 0 {
        Seq::empty()
    } else {
        all_input_refs(txs.drop_last()) + input_refs(txs.last().inputs)
    }
}

/// The outputs of the transactions, in order.
pub open spec fn all_outputs(txs: Seq<TransactionView>) -> Seq<OutputView>
    decreases txs.len(),
{
    if txs.len() == 0 {
        Seq::empty()
    } else {
        all_outputs(txs.drop_last()) + txs.last().outputs
    }
}

/// The digests of the outputs.
pub open spec fn output_digests(outputs: Seq<OutputView>) -> Seq<crate::sha256::Hash> {
    outputs.map_values(|o: OutputView| o.digest())
}

/// Every key is the key of an unspent output.
pub open spec fn refs_resolved(refs: Seq<crate::sha256::Hash>, utxos: UtxoMap) -> bool {
    forall|i: int| 0 <= i < refs.len() ==> utxos.contains_key(#[trigger] refs[i])
}

/// The value of the unspent output under `key`, 0 where there is none.
pub open spec fn ref_value(key: crate::sha256::Hash, utxos: UtxoMap) -> nat {
    if utxos.contains_key(key) {
        utxos[key].1.value as nat
    } else {
        0
    }
}

/// The sum of the values of the unspent outputs under the keys.
pub open spec fn refs_value(refs: Seq<crate::sha256::Hash>, utxos: UtxoMap) -> nat
    decreases refs.len(),
{
    if refs.len() == 0 {
        0
    } else {
        refs_value(refs.drop_last(), utxos) + ref_value(refs.last(), utxos)
    }
}

/// The sum over a prefix of the keys is at most the sum over all.
pub proof fn lemma_refs_value_prefix(refs: Seq<crate::sha256::Hash>, utxos: UtxoMap, n: int)
    requires
        0 <= n <= refs.len(),
    ensures
        refs_value(refs.take(n), utxos) <= refs_value(refs, utxos),
    decreases refs.len(),
{
    if n == refs.len() {
        assert(refs.take(n) =~= refs);
    } else {
        lemma_refs_value_prefix(refs.drop_last(), utxos, n);
        assert(refs.drop_last().take(n) =~= refs.take(n));
    }
}

/// Whether the fees of a block can be told: every input of a spending
/// transaction refers to an unspent output, no two of them to the same one,
/// no two outputs of spending transactions have the same digest, the inputs
/// are worth at most `u64::MAX` in all, and the outputs no more than the
/// inputs.
pub open spec fn fees_valid(txs: Seq<TransactionView>, utxos: UtxoMap) -> bool {
    let refs = all_input_refs(spending(txs));
    let outputs = all_outputs(spending(txs));
    &&& refs_resolved(refs, utxos)
    &&& refs.no_duplicates()
    &&& output_digests(outputs).no_duplicates()
    &&& refs_value(refs, utxos) <= u64::MAX
    &&& outputs_value(outputs) <= refs_value(refs, utxos)
}

/// What the spending transactions leave to the miner: the value of their
/// inputs less the value of their outputs.
pub open spec fn miner_fees(txs: Seq<TransactionView>, utxos: UtxoMap) -> nat {
    (refs_value(all_input_refs(spending(txs)), utxos) - outputs_value(all_outputs(spending(txs)))) as nat
}

/// The result of [`Block::calculate_miner_fees`].
pub open spec fn spec_calculate_miner_fees(txs: Seq<TransactionView>, utxos: UtxoMap) -> Result<u64> {
    if fees_valid(txs, utxos) {
        Ok(miner_fees(txs, utxos) as u64)
    } else {
        Err(BtcError::InvalidTransaction)
    }
}

/// The reward for the block at `height`: 50 coins of `10^8` units, halved
/// once for every 210 blocks before it.
pub open spec fn block_reward(height: u64) -> nat {
    (crate::INITIAL_REWARD * 100_000_000) as nat / pow2((height / crate::HALVING_INTERVAL) as nat)
}

/// Whether the first transaction is a good coinbase: it has no input and at
/// least one output, the fees of the block can be told, and its outputs are
/// worth exactly the reward and the fees.
pub open spec fn coinbase_valid(txs: Seq<TransactionView>, height: u64, utxos: UtxoMap) -> bool {
    &&& txs.len() > 0
    &&& txs[0].inputs.len() == 0
    &&& txs[0].outputs.len() > 0
    &&& fees_valid(txs, utxos)
    &&& outputs_value(txs[0].outputs) == block_reward(height) + miner_fees(txs, utxos)
}

/// The keys of the inputs of one transaction stand together in the keys of
/// the inputs of all: the result is the place of the first of them.
pub proof fn lemma_all_input_refs_segment(txs: Seq<TransactionView>, t: int) -> (offset: int)
    requires
        0 <= t < txs.len(),
    ensures
        0 <= offset,
        offset + txs[t].inputs.len() <= all_input_refs(txs).len(),
        forall|i: int|
            0 <= i < txs[t].inputs.len() ==> all_input_refs(txs)[offset + i] == (
            #[trigger] txs[t].inputs[i]).prev_transaction_output_hash,
    decreases txs.len(),
{
    let before = all_input_refs(txs.drop_last());
    if t == txs.len() - 1 {
        assert forall|i: int| 0 <= i < txs[t].inputs.len() implies all_input_refs(txs)[before.len()
            + i] == (#[trigger] txs[t].inputs[i]).prev_transaction_output_hash by {
            assert(all_input_refs(txs)[before.len() + i] == input_refs(txs.last().inputs)[i]);
        }
        before.len() as int
    } else {
        let offset = lemma_all_input_refs_segment(txs.drop_last(), t);
        assert(txs.drop_last()[t] == txs[t]);
        assert forall|i: int| 0 <= i < txs[t].inputs.len() implies all_input_refs(txs)[offset + i]
            == (#[trigger] txs[t].inputs[i]).prev_transaction_output_hash by {
            assert(all_input_refs(txs)[offset + i] == before[offset + i]);
            assert(txs.drop_last()[t].inputs[i] == txs[t].inputs[i]);
        }
        offset
    }
}

/// In a block whose fees can be told, no spending transaction has two
/// inputs that refer to the same output.
pub proof fn lemma_spending_inputs_distinct(txs: Seq<TransactionView>, utxos: UtxoMap, t: int)
    requires
        fees_valid(txs, utxos),
        1 <= t < txs.len(),
    ensures
        input_refs(txs[t].inputs).no_duplicates(),
{
    let sp = spending(txs);
    assert(sp[t - 1] == txs[t]);
    let offset = lemma_all_input_refs_segment(sp, t - 1);
    let all = all_input_refs(sp);
    let refs = input_refs(txs[t].inputs);
    assert forall|i: int, j: int| 0 <= i < refs.len() && 0 <= j < refs.len() && i != j implies refs[i]
        != refs[j] by {
        assert(all[offset + i] == txs[t].inputs[i].prev_transaction_output_hash);
        assert(all[offset + j] == txs[t].inputs[j].prev_transaction_output_hash);
        assert(all[offset + i] != all[offset + j]);
    }
}

/// A good coinbase pays the reward of its height and the fees of its
/// block to the unit: with any other total, the coinbase is bad and so are
/// the transactions of the block.
pub proof fn lemma_coinbase_pays_exactly(txs: Seq<TransactionView>, height: u64, utxos: UtxoMap)
    ensures
        coinbase_valid(txs, height, utxos) ==> outputs_value(txs[0].outputs) == block_reward(height)
            + miner_fees(txs, utxos),
        txs.len() > 0 && outputs_value(txs[0].outputs) != block_reward(height) + miner_fees(
            txs,
            utxos,
        ) ==> !coinbase_valid(txs, height, utxos) && !transactions_valid(txs, height, utxos),
{
}

/// Whether the input refers to an unspent output and carries a signature,
/// over the key of that output, of the owner of the output.
pub open spec fn input_authorised(input: InputView, utxos: UtxoMap) -> bool {
    &&& utxos.contains_key(input.prev_transaction_output_hash)
    &&& spec_verify(
        input.signature,
        input.prev_transaction_output_hash,
        utxos[input.prev_transaction_output_hash].1.pubkey,
    )
}

/// Whether a spending transaction is good: each input is authorised, and
/// the outputs are worth no more than the inputs.
pub open spec fn transaction_valid(tx: TransactionView, utxos: UtxoMap) -> bool {
    &&& forall|i: int| 0 <= i < tx.inputs.len() ==> input_authorised(#[trigger] tx.inputs[i], utxos)
    &&& outputs_value(tx.outputs) <= refs_value(input_refs(tx.inputs), utxos)
}

/// Whether the transactions of a block are good at `height`: the coinbase
/// is, and so is each spending transaction. That no output is spent twice
/// in the block is part of the first.
pub open spec fn transactions_valid(txs: Seq<TransactionView>, height: u64, utxos: UtxoMap) -> bool {
    &&& coinbase_valid(txs, height, utxos)
    &&& forall|t: int| 1 <= t < txs.len() ==> transaction_valid(#[trigger] txs[t], utxos)
}

/// `Ok` where `valid`, else the error of a bad transaction.
pub open spec fn transaction_verdict(valid: bool) -> Result<()> {
    if valid {
        Ok(())
    } else {
        Err(BtcError::InvalidTransaction)
    }
}

/// A header and the transactions it commits to.
#[derive(Debug, PartialEq, Eq)]
pub struct Block {
    pub header: BlockHeader,
    pub transactions: Vec<Transaction>,
}

impl View for Block {
    type V = BlockView;

    open spec fn view(&self) -> BlockView {
        BlockView { header: self.header, transactions: transaction_views(self.transactions@) }
    }
}

impl Clone for Block {
    fn clone(&self) -> (r: Self)
        ensures
            r@ == self@,
    {
        let mut transactions: Vec<Transaction> = Vec::new();
        let mut i: usize = 0;
        while i < self.transactions.len()
            invariant
                i <= self.transactions@.len(),
                transactions@.len() == i,
                transaction_views(transactions@) == transaction_views(self.transactions@).take(
                    i as int,
                ),
            decreases self.transactions@.len() - i,
        {
            let ghost before = transactions@;
            let tx = self.transactions[i].clone();
            transactions.push(tx);
            proof {
                let want = transaction_views(self.transactions@).take(i + 1);
                assert forall|k: int| 0 <= k < want.len() implies transaction_views(
                    transactions@,
                )[k] == want[k] by {
                    if k < i {
                        assert(transaction_views(before)[k] == transaction_views(
                            self.transactions@,
                        ).take(i as int)[k]);
                    }
                }
                assert(transaction_views(transactions@) =~= want);
            }
            i += 1;
        }
        proof {
            assert(transaction_views(self.transactions@).take(i as int) =~= transaction_views(
                self.transactions@,
            ));
        }
        Block { header: self.header, transactions }
    }
}

/// Whether the `k`-th digest of the list occurs before its place too.
pub fn occurs_before(list: &Vec<crate::sha256::Hash>, k: usize) -> (found: bool)
    requires
        k < list@.len(),
    ensures
        found == exists|j: int| 0 <= j < k && list@[j] == list@[k as int],
{
    let mut j: usize = 0;
    while j < k
        invariant
            j <= k < list@.len(),
            forall|i: int| 0 <= i < j ==> list@[i] != list@[k as int],
        decreases k - j,
    {
        if list[j] == list[k] {
            return true;
        }
        j += 1;
    }
    false
}

/// Checks one spending transaction against the unspent outputs.
pub fn verify_spending_transaction(tx: &Transaction, utxos: &UtxoSet) -> (ok: bool)
    requires
        utxos.wf(),
    ensures
        ok == transaction_valid(tx@, utxos@),
{
    let ghost refs = input_refs(tx@.inputs);
    let mut input_value: u128 = 0;
    let mut i: usize = 0;
    proof {
        assert(refs.take(0) =~= Seq::<crate::sha256::Hash>::empty());
    }
    while i < tx.inputs.len()
        invariant
            i <= tx.inputs@.len(),
            utxos.wf(),
            refs == input_refs(tx@.inputs),
            forall|k: int| 0 <= k < i ==> input_authorised(#[trigger] tx@.inputs[k], utxos@),
            input_value == refs_value(refs.take(i as int), utxos@),
            input_value <= i * u64::MAX,
        decreases tx.inputs@.len() - i,
    {
        let input = &tx.inputs[i];
        proof {
            assert(tx@.inputs[i as int] == input@);
            assert(refs.take(i + 1).drop_last() =~= refs.take(i as int));
            assert(refs.take(i + 1).last() == input.prev_transaction_output_hash);
        }
        let utxo = match utxos.get(&input.prev_transaction_output_hash) {
            Some(utxo) => utxo,
            None => {
                return false;
            },
        };
        if !input.signature.verify(&input.prev_transaction_output_hash, &utxo.1.pubkey) {
            return false;
        }
        input_value = input_value + utxo.1.value as u128;
        i += 1;
    }
    proof {
        assert(refs.take(i as int) =~= refs);
    }
    tx.outputs_total() <= input_value
}

/// The values of the outputs.
pub open spec fn output_values(outputs: Seq<OutputView>) -> Seq<u64> {
    outputs.map_values(|o: OutputView| o.value)
}

impl Block {
    /// A block from its header and transactions.
    pub fn new(header: BlockHeader, transactions: Vec<Transaction>) -> (block: Block)
        ensures
            block.header == header,
            block.transactions == transactions,
    {
        Block { header, transactions }
    }

    /// Appends the encoding of the block.
    pub fn encode_into(&self, out: &mut Vec<u8>)
        ensures
            final(out)@ == old(out)@ + self@.encoding(),
    {
        self.header.encode_into(out);
        put_u64(out, self.transactions.len() as u64);
        let ghost head = out@;
        let mut i: usize = 0;
        proof {
            assert(out@ =~= head + encode_transactions(self@.transactions.take(0)));
        }
        while i < self.transactions.len()
            invariant
                i <= self.transactions@.len(),
                out@ == head + encode_transactions(self@.transactions.take(i as int)),
            decreases self.transactions@.len() - i,
        {
            self.transactions[i].encode_into(out);
            proof {
                let next = self@.transactions.take(i + 1);
                assert(next.drop_last() =~= self@.transactions.take(i as int));
                assert(next.last() == self.transactions@[i as int]@);
                assert(out@ =~= head + encode_transactions(next));
            }
            i += 1;
        }
        proof {
            assert(self@.transactions.take(i as int) =~= self@.transactions);
            assert(out@ =~= old(out)@ + self@.encoding());
        }
    }

    /// The digest of the whole block.
    pub fn hash(&self) -> (h: crate::sha256::Hash)
        ensures
            h == self@.digest(),
    {
        let mut bytes: Vec<u8> = Vec::new();
        self.encode_into(&mut bytes);
        proof {
            assert(bytes@ =~= self@.encoding());
        }
        crate::sha256::Hash::hash(bytes.as_slice())
    }

    /// Whether the block agrees with itself: its header carries proof of
    /// work and names the Merkle root of its transactions.
    pub fn is_self_consistent(&self) -> (ok: bool)
        ensures
            ok == self@.self_consistent(),
    {
        if !self.header.has_proof_of_work() {
            return false;
        }
        MerkleRoot::calculate(self.transactions.as_slice()) == self.header.merkle_root
    }

    /// The keys that the inputs of the spending transactions refer to.
    fn spent_refs(&self) -> (refs: Vec<crate::sha256::Hash>)
        ensures
            refs@ == all_input_refs(spending(self@.transactions)),
    {
        let mut refs: Vec<crate::sha256::Hash> = Vec::new();
        if self.transactions.len() == 0 {
            return refs;
        }
        let ghost sp = spending(self@.transactions);
        let mut t: usize = 1;
        proof {
            assert(sp.take(0) =~= Seq::<TransactionView>::empty());
        }
        while t < self.transactions.len()
            invariant
                1 <= t <= self.transactions@.len(),
                sp == spending(self@.transactions),
                refs@ == all_input_refs(sp.take(t - 1)),
            decreases self.transactions@.len() - t,
        {
            let tx = &self.transactions[t];
            let ghost base = refs@;
            let mut i: usize = 0;
            proof {
                assert(refs@ =~= base + input_refs(tx@.inputs).take(0));
            }
            while i < tx.inputs.len()
                invariant
                    i <= tx.inputs@.len(),
                    refs@ == base + input_refs(tx@.inputs).take(i as int),
                decreases tx.inputs@.len() - i,
            {
                refs.push(tx.inputs[i].prev_transaction_output_hash);
                proof {
                    assert(refs@ =~= base + input_refs(tx@.inputs).take(i + 1));
                }
                i += 1;
            }
            proof {
                assert(input_refs(tx@.inputs).take(i as int) =~= input_refs(tx@.inputs));
                assert(sp.take(t as int).drop_last() =~= sp.take(t - 1));
                assert(sp.take(t as int).last() == tx@);
            }
            t += 1;
        }
        proof {
            assert(sp.take(t - 1) =~= sp);
        }
        refs
    }

    /// The digests and the values of the outputs of the spending
    /// transactions.
    fn created_outputs(&self) -> (r: (Vec<crate::sha256::Hash>, Vec<u64>))
        ensures
            r.0@ == output_digests(all_outputs(spending(self@.transactions))),
            r.1@ == output_values(all_outputs(spending(self@.transactions))),
    {
        let mut digests: Vec<crate::sha256::Hash> = Vec::new();
        let mut values: Vec<u64> = Vec::new();
        if self.transactions.len() == 0 {
            proof {
                assert(digests@ =~= output_digests(all_outputs(spending(self@.transactions))));
                assert(values@ =~= output_values(all_outputs(spending(self@.transactions))));
            }
            return (digests, values);
        }
        let ghost sp = spending(self@.transactions);
        let mut t: usize = 1;
        proof {
            assert(sp.take(0) =~= Seq::<TransactionView>::empty());
            assert(digests@ =~= output_digests(all_outputs(sp.take(0))));
            assert(values@ =~= output_values(all_outputs(sp.take(0))));
        }
        while t < self.transactions.len()
            invariant
                1 <= t <= self.transactions@.len(),
                sp == spending(self@.transactions),
                digests@ == output_digests(all_outputs(sp.take(t - 1))),
                values@ == output_values(all_outputs(sp.take(t - 1))),
            decreases self.transactions@.len() - t,
        {
            let tx = &self.transactions[t];
            let ghost base = all_outputs(sp.take(t - 1));
            let mut i: usize = 0;
            proof {
                assert(base + tx@.outputs.take(0) =~= base);
            }
            while i < tx.outputs.len()
                invariant
                    i <= tx.outputs@.len(),
                    digests@ == output_digests(base + tx@.outputs.take(i as int)),
                    values@ == output_values(base + tx@.outputs.take(i as int)),
                decreases tx.outputs@.len() - i,
            {
                digests.push(tx.outputs[i].hash());
                values.push(tx.outputs[i].value);
                proof {
                    let before = base + tx@.outputs.take(i as int);
                    let after = base + tx@.outputs.take(i + 1);
                    assert(after =~= before.push(tx@.outputs[i as int]));
                    assert(tx@.outputs[i as int] == tx.outputs@[i as int]@);
                    assert(digests@ =~= output_digests(after));
                    assert(values@ =~= output_values(after));
                }
                i += 1;
            }
            proof {
                assert(tx@.outputs.take(i as int) =~= tx@.outputs);
                assert(sp.take(t as int).drop_last() =~= sp.take(t - 1));
                assert(sp.take(t as int).last() == tx@);
            }
            t += 1;
        }
        proof {
            assert(sp.take(t - 1) =~= sp);
        }
        (digests, values)
    }

    /// The fees that the block leaves to its miner: the value of the inputs
    /// of its spending transactions less the value of their outputs.
    ///
    /// It is an error if an input refers to no unspent output, if two
    /// inputs of the block refer to the same one, if two outputs have the
    /// same digest, if the inputs are worth more than `u64::MAX`, or if the
    /// outputs are worth more than the inputs.
    pub fn calculate_miner_fees(&self, utxos: &UtxoSet) -> (r: Result<u64>)
        requires
            utxos.wf(),
        ensures
            r == spec_calculate_miner_fees(self@.transactions, utxos@),
    {
        let ghost all_refs = all_input_refs(spending(self@.transactions));
        let ghost all_outs = all_outputs(spending(self@.transactions));
        let refs = self.spent_refs();
        let mut input_value: u64 = 0;
        let mut k: usize = 0;
        proof {
            assert(refs@.take(0) =~= Seq::<crate::sha256::Hash>::empty());
        }
        while k < refs.len()
            invariant
                k <= refs@.len(),
                utxos.wf(),
                refs@ == all_refs,
                all_refs == all_input_refs(spending(self@.transactions)),
                refs_resolved(refs@.take(k as int), utxos@),
                refs@.take(k as int).no_duplicates(),
                input_value == refs_value(refs@.take(k as int), utxos@),
            decreases refs@.len() - k,
        {
            proof {
                assert(refs@.take(k + 1).drop_last() =~= refs@.take(k as int));
                lemma_refs_value_prefix(refs@, utxos@, k + 1);
            }
            let value: u64 = match utxos.get(&refs[k]) {
                Some(utxo) => utxo.1.value,
                None => {
                    return Err(BtcError::InvalidTransaction);
                },
            };
            if occurs_before(&refs, k) {
                return Err(BtcError::InvalidTransaction);
            }
            input_value = match input_value.checked_add(value) {
                Some(sum) => sum,
                None => {
                    return Err(BtcError::InvalidTransaction);
                },
            };
            proof {
                let next = refs@.take(k + 1);
                assert forall|i: int| 0 <= i < next.len() implies utxos@.contains_key(
                    #[trigger] next[i],
                ) by {
                    if i < k {
                        assert(next[i] == refs@.take(k as int)[i]);
                    }
                }
                assert forall|i: int, j: int|
                    0 <= i < next.len() && 0 <= j < next.len() && i != j implies next[i]
                    != next[j] by {
                    if i < k && j < k {
                        assert(refs@.take(k as int)[i] != refs@.take(k as int)[j]);
                    }
                }
            }
            k += 1;
        }
        proof {
            assert(refs@.take(k as int) =~= refs@);
        }
        let (digests, values) = self.created_outputs();
        let mut output_value: u64 = 0;
        let mut n: usize = 0;
        proof {
            assert(digests@.take(0) =~= Seq::<crate::sha256::Hash>::empty());
            assert(all_outs.take(0) =~= Seq::<OutputView>::empty());
        }
        while n < digests.len()
            invariant
                n <= digests@.len(),
                all_outs == all_outputs(spending(self@.transactions)),
                all_refs == all_input_refs(spending(self@.transactions)),
                digests@ == output_digests(all_outs),
                values@ == output_values(all_outs),
                input_value == refs_value(all_refs, utxos@),
                refs_resolved(all_refs, utxos@),
                all_refs.no_duplicates(),
                digests@.take(n as int).no_duplicates(),
                output_value == outputs_value(all_outs.take(n as int)),
            decreases digests@.len() - n,
        {
            proof {
                assert(all_outs.take(n + 1).drop_last() =~= all_outs.take(n as int));
                lemma_outputs_value_prefix(all_outs, n + 1);
            }
            if occurs_before(&digests, n) {
                return Err(BtcError::InvalidTransaction);
            }
            output_value = match output_value.checked_add(values[n]) {
                Some(sum) => sum,
                None => {
                    return Err(BtcError::InvalidTransaction);
                },
            };
            proof {
                let next = digests@.take(n + 1);
                assert forall|i: int, j: int|
                    0 <= i < next.len() && 0 <= j < next.len() && i != j implies next[i]
                    != next[j] by {
                    if i < n && j < n {
                        assert(digests@.take(n as int)[i] != digests@.take(n as int)[j]);
                    }
                }
            }
            n += 1;
        }
        proof {
            assert(digests@.take(n as int) =~= digests@);
            assert(all_outs.take(n as int) =~= all_outs);
        }
        if output_value > input_value {
            return Err(BtcError::InvalidTransaction);
        }
        Ok(input_value - output_value)
    }

    /// Checks the first transaction of the block, which pays the miner: it
    /// has no input and at least one output, and its outputs are worth
    /// exactly the reward at `predicted_block_height` and the fees of the
    /// block, no more and no less. A block without transactions fails.
    pub fn verify_coinbase_transaction(
        &self,
        predicted_block_height: u64,
        utxos: &UtxoSet,
    ) -> (r: Result<()>)
        requires
            utxos.wf(),
        ensures
            r == transaction_verdict(
                coinbase_valid(self@.transactions, predicted_block_height, utxos@),
            ),
    {
        if self.transactions.len() == 0 {
            return Err(BtcError::InvalidTransaction);
        }
        let coinbase = &self.transactions[0];
        proof {
            assert(self@.transactions[0] == coinbase@);
        }
        if coinbase.inputs.len() != 0 {
            return Err(BtcError::InvalidTransaction);
        }
        if coinbase.outputs.len() == 0 {
            return Err(BtcError::InvalidTransaction);
        }
        let miner_fees: u64 = match self.calculate_miner_fees(utxos) {
            Ok(fees) => fees,
            Err(e) => {
                return Err(e);
            },
        };
        let block_reward: u64 = reward_at(predicted_block_height);
        let total_coinbase_outputs: u128 = coinbase.outputs_total();
        if total_coinbase_outputs != block_reward as u128 + miner_fees as u128 {
            return Err(BtcError::InvalidTransaction);
        }
        Ok(())
    }

    /// Checks the transactions of the block against the unspent outputs:
    /// the coinbase first, then each spending transaction, whose inputs
    /// must each refer to an unspent output and be signed by its owner, and
    /// whose outputs must be worth no more than its inputs.
    pub fn verify_transactions(&self, predicted_block_height: u64, utxos: &UtxoSet) -> (r: Result<
        (),
    >)
        requires
            utxos.wf(),
        ensures
            r == transaction_verdict(
                transactions_valid(self@.transactions, predicted_block_height, utxos@),
            ),
    {
        if self.transactions.is_empty() {
            return Err(BtcError::InvalidTransaction);
        }
        match self.verify_coinbase_transaction(predicted_block_height, utxos) {
            Ok(()) => {},
            Err(e) => {
                return Err(e);
            },
        }
        let mut t: usize = 1;
        while t < self.transactions.len()
            invariant
                1 <= t <= self.transactions@.len(),
                utxos.wf(),
                forall|s: int| 1 <= s < t ==> transaction_valid(#[trigger] self@.transactions[s], utxos@),
            decreases self.transactions@.len() - t,
        {
            proof {
                assert(self@.transactions[t as int] == self.transactions@[t as int]@);
            }
            if !verify_spending_transaction(&self.transactions[t], utxos) {
                return Err(BtcError::InvalidTransaction);
            }
            t += 1;
        }
        Ok(())
    }

    /// The same as [`Block::calculate_miner_fees`].
    pub fn calculated_miner_fees(&self, utxos: &UtxoSet) -> (r: Result<u64>)
        requires
            utxos.wf(),
        ensures
            r == spec_calculate_miner_fees(self@.transactions, utxos@),
    {
        self.calculate_miner_fees(utxos)
    }
}

/// The reward for the block at `height`.
pub fn reward_at(height: u64) -> (reward: u64)
    ensures
        reward == block_reward(height),
{
    let halvings: u64 = height / crate::HALVING_INTERVAL;
    let initial: u64 = crate::INITIAL_REWARD * 100_000_000;
    if halvings >= 64 {
        proof {
            vstd::arithmetic::power2::lemma2_to64();
            if halvings > 33 {
                vstd::arithmetic::power2::lemma_pow2_strictly_increases(33, halvings as nat);
            }
            assert(pow2(33) == 0x2_0000_0000) by {
                vstd::arithmetic::power2::lemma_pow2_unfold(33);
            }
            vstd::arithmetic::div_mod::lemma_basic_div(5_000_000_000, pow2(halvings as nat) as int);
        }
        0
    } else {
        proof {
            vstd::bits::lemma_u64_shr_is_div(initial, halvings);
        }
        initial >> halvings
    }
}

} // verus!
