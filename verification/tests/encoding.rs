use btclib::crypto::{PublicKey, Signature};
use btclib::time::Timestamp;
use btclib::types::{Block, BlockHeader, Transaction, TransactionInput, TransactionOutput};
use btclib::util::MerkleRoot;
use btclib::U256;

fn sample_output() -> TransactionOutput {
    TransactionOutput {
        value: 1,
        unique_id: 2,
        pubkey: PublicKey::new(vec![3, 4]),
    }
}

fn sample_transaction() -> Transaction {
    Transaction::new(
        vec![TransactionInput {
            prev_transaction_output_hash: btclib::sha256::Hash(U256(1, 0, 0, 0)),
            signature: Signature::new(vec![9]),
        }],
        vec![sample_output()],
    )
}

fn empty_transaction() -> Transaction {
    Transaction::new(vec![], vec![])
}

fn sample_header() -> BlockHeader {
    BlockHeader::new(
        Timestamp::new(5, 6),
        7,
        btclib::sha256::Hash(U256(8, 0, 0, 0)),
        MerkleRoot(btclib::sha256::Hash(U256(9, 0, 0, 0))),
        U256(10, 0, 0, 0),
    )
}

#[test]
fn output_digest() {
    assert_eq!(
        sample_output().hash(),
        btclib::sha256::Hash(U256(
            0xf8cda367d01548cb,
            0x2604fc6d191edfef,
            0xf37cae562e02ef47,
            0x4ea96d830cf8033c
        ))
    );
    let mut bytes = Vec::new();
    sample_output().encode_into(&mut bytes);
    assert_eq!(
        bytes,
        vec![
            1, 0, 0, 0, 0, 0, 0, 0, 2, 0, 0, 0, 0, 0, 0, 0, 0, 0, 0, 0, 0, 0, 0, 0, 2, 0, 0, 0, 0,
            0, 0, 0, 3, 4
        ]
    );
}

#[test]
fn outputs_differ_by_their_unique_id() {
    let mut other = sample_output();
    other.unique_id = 3;
    assert_ne!(other.hash(), sample_output().hash());
}

#[test]
fn transaction_digest() {
    assert_eq!(
        sample_transaction().hash(),
        btclib::sha256::Hash(U256(
            0xaac76761e63caf61,
            0x95343b32fca190bf,
            0xe9403a9d738c403,
            0x688054f8475f4ef0
        ))
    );
    assert_eq!(
        empty_transaction().hash(),
        btclib::sha256::Hash(U256(
            0x25632aab28ec37bb,
            0x6f6d3cf7ec317a3b,
            0x979ec875d56cd228,
            0x374708fff7719dd5
        ))
    );
}

#[test]
fn header_digest() {
    assert_eq!(
        sample_header().hash(),
        btclib::sha256::Hash(U256(
            0x37f89b3d2be7f0a7,
            0x301228a8f0cbe59a,
            0x9f060c94ab2f07a9,
            0x3b8dde06ee721ba9
        ))
    );
}

#[test]
fn block_digest_covers_the_transactions() {
    let block = Block::new(sample_header(), vec![sample_transaction()]);
    assert_eq!(
        block.hash(),
        btclib::sha256::Hash(U256(
            0x215c6d620ebc3afe,
            0x505671dbc50677c8,
            0xc7f0b8bea98afb02,
            0x808eedfeb08e62d9
        ))
    );
    assert_ne!(block.hash(), block.header.hash());
}

#[test]
fn clones_are_equal() {
    let block = Block::new(
        sample_header(),
        vec![sample_transaction(), empty_transaction()],
    );
    assert_eq!(block.clone(), block);
    assert_eq!(sample_transaction().clone(), sample_transaction());
    assert_eq!(sample_output().clone(), sample_output());
}

#[test]
fn merkle_root_of_nothing_is_zero() {
    assert_eq!(MerkleRoot::calculate(&[]), MerkleRoot(btclib::sha256::Hash::zero()));
}

#[test]
fn merkle_root_of_one_transaction_is_its_digest() {
    let tx = sample_transaction();
    assert_eq!(MerkleRoot::calculate(&[tx.clone()]), MerkleRoot(tx.hash()));
}

#[test]
fn merkle_root_of_two_is_the_digest_of_the_pair() {
    let root = MerkleRoot::calculate(&[sample_transaction(), empty_transaction()]);
    assert_eq!(
        root,
        MerkleRoot(btclib::sha256::Hash(U256(
            0x9cdce1e7ea2ec1f6,
            0x728187e2f9d38269,
            0xaf9efdeaf0901c7b,
            0x3d43918761f8e77a
        )))
    );
}

#[test]
fn merkle_root_depends_on_the_order() {
    let forward = MerkleRoot::calculate(&[sample_transaction(), empty_transaction()]);
    let backward = MerkleRoot::calculate(&[empty_transaction(), sample_transaction()]);
    assert_ne!(forward, backward);
    assert_eq!(
        backward,
        MerkleRoot(btclib::sha256::Hash(U256(
            0x6b99ff76f5071d96,
            0x9d275861e4b20291,
            0xd65e149142e1d2dc,
            0xde4f86ea20f5466d
        )))
    );
}

#[test]
fn merkle_root_is_the_same_each_time() {
    let txs = vec![
        sample_transaction(),
        empty_transaction(),
        sample_transaction(),
    ];
    assert_eq!(MerkleRoot::calculate(&txs), MerkleRoot::calculate(&txs));
}

#[test]
fn merkle_root_pairs_an_odd_last_digest_with_itself() {
    let root = MerkleRoot::calculate(&[
        sample_transaction(),
        empty_transaction(),
        sample_transaction(),
    ]);
    assert_eq!(
        root,
        MerkleRoot(btclib::sha256::Hash(U256(
            0xbb30d6a81b4a1278,
            0xf3854ef65cc10cf8,
            0xb9af2ab210aadf60,
            0x1a43304d77bc92d8
        )))
    );
}
