//! The Merkle root of a list of transactions.

use vstd::prelude::*;
use crate::codec::{enc_u256, put_u256};
use crate::sha256::spec_hash;
use crate::types::transaction::{Transaction, TransactionView};

verus! {

/// One digest that stands for an ordered list of transactions.
#[derive(Clone, Copy, Debug, PartialEq, Eq, Structural)]
pub struct MerkleRoot(pub crate::sha256::Hash);

/// The views of a list of transactions.
pub open spec fn transaction_views(txs: Seq<Transaction>) -> Seq<TransactionView> {
    txs.map_values(|t: Transaction| t@)
}

/// The digests of a list of transactions.
pub open spec fn transaction_digests(txs: Seq<TransactionView>) -> Seq<crate::sha256::Hash> {
    txs.map_values(|t: TransactionView| t.digest())
}

/// The digest of two digests, the left one first.
pub open spec fn pair_digest(
    left: crate::sha256::Hash,
    right: crate::sha256::Hash,
) -> crate::sha256::Hash {
    spec_hash(enc_u256(left.0) + enc_u256(right.0))
}

/// The layer above `layer`: the digests of its pairs, where a last digest
/// without a partner is paired with itself.
pub open spec fn merkle_layer(layer: Seq<crate::sha256::Hash>) -> Seq<crate::sha256::Hash> {
    Seq::new(
        ((layer.len() + 1) / 2) as nat,
        |i: int|
            pair_digest(
                layer[2 * i],
                if 2 * i + 1 < layer.len() {
                    layer[2 * i + 1]
                } else {
                    layer[2 * i]
                },
            ),
    )
}

/// What is left when layers are built one above the other until one digest
/// remains. A single digest is its own root; no digest at all gives zero.
pub open spec fn merkle_reduce(layer: Seq<crate::sha256::Hash>) -> crate::sha256::Hash
    decreases layer.len(),
{
    if layer.len() == 0 {
        crate::sha256::Hash(crate::U256(0, 0, 0, 0))
    } else if layer.len() == 1 {
        layer[0]
    } else {
        merkle_reduce(merkle_layer(layer))
    }
}

/// The Merkle root of a list of transactions.
pub open spec fn spec_merkle_root(txs: Seq<TransactionView>) -> MerkleRoot {
    MerkleRoot(merkle_reduce(transaction_digests(txs)))
}

/// The root of a single transaction is its digest.
pub proof fn lemma_merkle_root_of_one(tx: TransactionView)
    ensures
        spec_merkle_root(seq![tx]) == MerkleRoot(tx.digest()),
{
    assert(transaction_digests(seq![tx]) =~= seq![tx.digest()]);
}

/// The root of two transactions is the digest of their digests in the order
/// of the list: the order enters the root.
pub proof fn lemma_merkle_root_of_two(a: TransactionView, b: TransactionView)
    ensures
        spec_merkle_root(seq![a, b]) == MerkleRoot(pair_digest(a.digest(), b.digest())),
        spec_merkle_root(seq![b, a]) == MerkleRoot(pair_digest(b.digest(), a.digest())),
{
    lemma_reduce_two(a.digest(), b.digest());
    lemma_reduce_two(b.digest(), a.digest());
    assert(transaction_digests(seq![a, b]) =~= seq![a.digest(), b.digest()]);
    assert(transaction_digests(seq![b, a]) =~= seq![b.digest(), a.digest()]);
}

proof fn lemma_reduce_two(x: crate::sha256::Hash, y: crate::sha256::Hash)
    ensures
        merkle_reduce(seq![x, y]) == pair_digest(x, y),
{
    let layer = seq![x, y];
    assert(merkle_layer(layer) =~= seq![pair_digest(x, y)]);
    assert(merkle_reduce(layer) == merkle_reduce(merkle_layer(layer)));
}

fn hash_pair(left: &crate::sha256::Hash, right: &crate::sha256::Hash) -> (h: crate::sha256::Hash)
    ensures
        h == pair_digest(*left, *right),
{
    let mut bytes: Vec<u8> = Vec::new();
    put_u256(&mut bytes, &left.0);
    put_u256(&mut bytes, &right.0);
    proof {
        assert(bytes@ =~= enc_u256(left.0) + enc_u256(right.0));
    }
    crate::sha256::Hash::hash(bytes.as_slice())
}

fn next_layer(layer: &Vec<crate::sha256::Hash>) -> (next: Vec<crate::sha256::Hash>)
    ensures
        next@ == merkle_layer(layer@),
{
    let mut next: Vec<crate::sha256::Hash> = Vec::new();
    let mut i: usize = 0;
    while i < layer.len()
        invariant
            i <= layer@.len(),
            i % 2 == 0 || i == layer@.len(),
            next@.len() == (i + 1) / 2,
            forall|k: int| 0 <= k < next@.len() ==> next@[k] == merkle_layer(layer@)[k],
        decreases layer@.len() - i,
    {
        let left = layer[i];
        if layer.len() - i >= 2 {
            let right = layer[i + 1];
            next.push(hash_pair(&left, &right));
            i += 2;
        } else {
            next.push(hash_pair(&left, &left));
            i += 1;
        }
    }
    proof {
        assert(next@ =~= merkle_layer(layer@));
    }
    next
}

impl MerkleRoot {
    /// The Merkle root of the transactions, in their order. A single
    /// transaction gives its own digest; an empty list gives the zero
    /// digest.
    pub fn calculate(transactions: &[Transaction]) -> (root: MerkleRoot)
        ensures
            root == spec_merkle_root(transaction_views(transactions@)),
    {
        let ghost digests = transaction_digests(transaction_views(transactions@));
        let mut layer: Vec<crate::sha256::Hash> = Vec::new();
        let mut i: usize = 0;
        while i < transactions.len()
            invariant
                i <= transactions@.len(),
                digests == transaction_digests(transaction_views(transactions@)),
                layer@ == digests.take(i as int),
            decreases transactions@.len() - i,
        {
            layer.push(transactions[i].hash());
            proof {
                assert(layer@ =~= digests.take(i + 1));
            }
            i += 1;
        }
        proof {
            assert(digests.take(i as int) =~= digests);
        }
        if layer.len() == 0 {
            return MerkleRoot(crate::sha256::Hash::zero());
        }
        while layer.len() > 1
            invariant
                layer@.len() >= 1,
                merkle_reduce(layer@) == merkle_reduce(digests),
            decreases layer@.len(),
        {
            layer = next_layer(&layer);
        }
        MerkleRoot(layer[0])
    }
}

} // verus!
