use btclib::crypto::{PublicKey, Signature};
use btclib::error::BtcError;
use btclib::time::Timestamp;
use btclib::types::block::reward_at;
use btclib::types::blockchain::{validate_first_block, validate_next_block};
use btclib::types::chain_model::ChainState;
use btclib::types::{
    Block, BlockHeader, Blockchain, Transaction, TransactionInput, TransactionOutput, UtxoSet,
};
use btclib::util::MerkleRoot;
use btclib::U256;
use k256::ecdsa::signature::Signer;
use k256::ecdsa::SigningKey;

const COIN: u64 = 100_000_000;

fn key(seed: u8) -> SigningKey {
    SigningKey::from_slice(&[seed; 32]).unwrap()
}

fn owner(key: &SigningKey) -> PublicKey {
    PublicKey::new(key.verifying_key().to_sec1_bytes().to_vec())
}

fn sign(key: &SigningKey, hash: &btclib::sha256::Hash) -> Signature {
    let signature: k256::ecdsa::Signature = key.sign(&hash.as_bytes());
    Signature::new(signature.to_bytes().to_vec())
}

fn output(value: u64, unique_id: u128, key: &SigningKey) -> TransactionOutput {
    TransactionOutput {
        value,
        unique_id,
        pubkey: owner(key),
    }
}

fn coinbase(value: u64, unique_id: u128, key: &SigningKey) -> Transaction {
    Transaction::new(vec![], vec![output(value, unique_id, key)])
}

fn input(prev: btclib::sha256::Hash, key: &SigningKey) -> TransactionInput {
    TransactionInput {
        prev_transaction_output_hash: prev,
        signature: sign(key, &prev),
    }
}

fn spend(prev: btclib::sha256::Hash, key: &SigningKey, outputs: Vec<TransactionOutput>) -> Transaction {
    Transaction::new(vec![input(prev, key)], outputs)
}

fn block(prev: btclib::sha256::Hash, secs: i64, transactions: Vec<Transaction>) -> Block {
    let header = BlockHeader::new(
        Timestamp::new(secs, 0),
        0,
        prev,
        MerkleRoot::calculate(&transactions),
        U256::max_value(),
    );
    Block::new(header, transactions)
}

/// A chain of `n` blocks, each with nothing but a coinbase for `miner`; the
/// coinbase of block `i` has the unique id `i`.
fn chain_of(n: usize, miner: &SigningKey, step: i64) -> (Blockchain, Vec<Block>) {
    let mut chain = Blockchain::new();
    let mut blocks: Vec<Block> = Vec::new();
    let mut prev = btclib::sha256::Hash::zero();
    for i in 0..n {
        let reward = coinbase(reward_at(i as u64), i as u128, miner);
        let next = block(prev, 1_000 + step * i as i64, vec![reward]);
        prev = next.header.hash();
        assert_eq!(chain.add_block(next.clone()), Ok(()));
        blocks.push(next);
    }
    (chain, blocks)
}

fn coinbase_key(blocks: &[Block], i: usize) -> btclib::sha256::Hash {
    blocks[i].transactions[0].hash()
}

#[test]
fn a_new_chain_is_empty() {
    let chain = Blockchain::new();
    assert_eq!(chain.block_height(), 0);
    assert_eq!(chain.target(), btclib::min_target());
    assert_eq!(chain.utxos().len(), 0);
    assert!(chain.mempool().is_empty());
    assert!(chain.blocks().is_empty());
}

#[test]
fn reward_halves_every_210_blocks() {
    assert_eq!(reward_at(0), 50 * COIN);
    assert_eq!(reward_at(209), 50 * COIN);
    assert_eq!(reward_at(210), 25 * COIN);
    assert_eq!(reward_at(419), 25 * COIN);
    assert_eq!(reward_at(420), 1_250_000_000);
    assert_eq!(reward_at(210 * 9), 9_765_625);
    assert_eq!(reward_at(210 * 10), 4_882_812);
    assert_eq!(reward_at(210 * 32), 1);
    assert_eq!(reward_at(210 * 33), 0);
    assert_eq!(reward_at(210 * 64), 0);
    assert_eq!(reward_at(u64::MAX), 0);
}

#[test]
fn the_first_block_needs_no_proof_of_work_and_no_merkle_root() {
    let miner = key(1);
    let mut chain = Blockchain::new();
    let header = BlockHeader::new(
        Timestamp::new(-5, 0),
        77,
        btclib::sha256::Hash::zero(),
        MerkleRoot(btclib::sha256::Hash(U256(1, 2, 3, 4))),
        U256::zero(),
    );
    let genesis = Block::new(header, vec![coinbase(50 * COIN, 0, &miner)]);
    assert!(!genesis.header.has_proof_of_work());
    assert_ne!(
        MerkleRoot::calculate(&genesis.transactions),
        genesis.header.merkle_root
    );
    assert_eq!(chain.add_block(genesis), Ok(()));
    assert_eq!(chain.block_height(), 1);
}

#[test]
fn the_first_block_must_name_the_zero_digest() {
    let miner = key(1);
    let mut chain = Blockchain::new();
    let genesis = block(
        btclib::sha256::Hash(U256(1, 0, 0, 0)),
        1_000,
        vec![coinbase(50 * COIN, 0, &miner)],
    );
    assert_eq!(chain.add_block(genesis), Err(BtcError::InvalidBlock));
    assert_eq!(chain.block_height(), 0);
}

#[test]
fn the_first_block_must_carry_a_good_coinbase() {
    let miner = key(1);
    let mut chain = Blockchain::new();
    assert_eq!(
        chain.add_block(block(btclib::sha256::Hash::zero(), 1_000, vec![])),
        Err(BtcError::InvalidTransaction)
    );
    assert_eq!(
        chain.add_block(block(
            btclib::sha256::Hash::zero(),
            1_000,
            vec![coinbase(50 * COIN + 1, 0, &miner)]
        )),
        Err(BtcError::InvalidTransaction)
    );
    assert_eq!(chain.block_height(), 0);
    assert_eq!(chain.utxos().len(), 0);
}

#[test]
fn a_block_that_spends_the_first_coinbase_is_accepted() {
    let miner = key(1);
    let payee = key(2);
    let (mut chain, blocks) = chain_of(1, &miner, 10);
    let first = coinbase_key(&blocks, 0);
    assert_eq!(chain.utxos().len(), 1);
    assert_eq!(
        chain.utxos().get(&first),
        Some(&(false, output(50 * COIN, 0, &miner)))
    );

    let payment = spend(first, &miner, vec![output(50 * COIN - 1000, 10, &payee)]);
    assert_eq!(chain.add_to_mempool(payment.clone()), Ok(()));
    assert_eq!(chain.mempool().len(), 1);
    assert_eq!(chain.utxos().get(&first).map(|utxo| utxo.0), Some(true));

    let reward = coinbase(50 * COIN + 1000, 11, &miner);
    let second = block(
        blocks[0].header.hash(),
        1_010,
        vec![reward.clone(), payment.clone()],
    );
    assert_eq!(second.calculate_miner_fees(chain.utxos()), Ok(1000));
    assert_eq!(second.calculated_miner_fees(chain.utxos()), Ok(1000));
    assert_eq!(chain.add_block(second), Ok(()));

    assert_eq!(chain.block_height(), 2);
    assert_eq!(chain.utxos().len(), 2);
    assert!(!chain.utxos().contains_key(&first));
    assert_eq!(
        chain.utxos().get(&reward.hash()),
        Some(&(false, output(50 * COIN + 1000, 11, &miner)))
    );
    assert_eq!(
        chain.utxos().get(&payment.hash()),
        Some(&(false, output(50 * COIN - 1000, 10, &payee)))
    );
    assert!(chain.mempool().is_empty());
}

#[test]
fn a_coinbase_that_pays_one_unit_too_much_or_too_little_is_rejected() {
    let miner = key(1);
    let payee = key(2);
    let (mut chain, blocks) = chain_of(1, &miner, 10);
    let payment = spend(
        coinbase_key(&blocks, 0),
        &miner,
        vec![output(50 * COIN - 1000, 10, &payee)],
    );
    let prev = blocks[0].header.hash();
    for (value, verdict) in [
        (50 * COIN + 1001, Err(BtcError::InvalidTransaction)),
        (50 * COIN + 999, Err(BtcError::InvalidTransaction)),
        (50 * COIN, Err(BtcError::InvalidTransaction)),
        (50 * COIN + 1000, Ok(())),
    ] {
        let candidate = block(
            prev,
            1_010,
            vec![coinbase(value, 11, &miner), payment.clone()],
        );
        assert_eq!(
            candidate.verify_coinbase_transaction(1, chain.utxos()),
            verdict
        );
        assert_eq!(candidate.verify_transactions(1, chain.utxos()), verdict);
        assert_eq!(chain.add_block(candidate), verdict);
    }
    assert_eq!(chain.block_height(), 2);
}

#[test]
fn the_coinbase_is_held_to_the_reward_of_its_height() {
    let miner = key(1);
    let utxos = UtxoSet::new();
    let full = block(btclib::sha256::Hash::zero(), 0, vec![coinbase(50 * COIN, 0, &miner)]);
    let half = block(btclib::sha256::Hash::zero(), 0, vec![coinbase(25 * COIN, 0, &miner)]);
    assert_eq!(full.verify_coinbase_transaction(209, &utxos), Ok(()));
    assert_eq!(
        full.verify_coinbase_transaction(210, &utxos),
        Err(BtcError::InvalidTransaction)
    );
    assert_eq!(half.verify_coinbase_transaction(210, &utxos), Ok(()));
    assert_eq!(
        half.verify_coinbase_transaction(209, &utxos),
        Err(BtcError::InvalidTransaction)
    );
}

#[test]
fn a_coinbase_has_no_input_and_some_output() {
    let miner = key(1);
    let (chain, blocks) = chain_of(1, &miner, 10);
    let with_input = Transaction::new(
        vec![input(coinbase_key(&blocks, 0), &miner)],
        vec![output(50 * COIN, 5, &miner)],
    );
    let candidate = block(blocks[0].header.hash(), 1_010, vec![with_input]);
    assert_eq!(
        candidate.verify_coinbase_transaction(1, chain.utxos()),
        Err(BtcError::InvalidTransaction)
    );
    let without_output = block(
        blocks[0].header.hash(),
        1_010,
        vec![Transaction::new(vec![], vec![])],
    );
    assert_eq!(
        without_output.verify_coinbase_transaction(1, chain.utxos()),
        Err(BtcError::InvalidTransaction)
    );
    let nothing = block(blocks[0].header.hash(), 1_010, vec![]);
    assert_eq!(
        nothing.verify_coinbase_transaction(1, chain.utxos()),
        Err(BtcError::InvalidTransaction)
    );
    assert_eq!(
        nothing.verify_transactions(1, chain.utxos()),
        Err(BtcError::InvalidTransaction)
    );
    assert_eq!(nothing.calculate_miner_fees(chain.utxos()), Ok(0));
}

#[test]
fn fees_fail_on_unknown_double_or_colliding_entries() {
    let miner = key(1);
    let payee = key(2);
    let (chain, blocks) = chain_of(2, &miner, 10);
    let first = coinbase_key(&blocks, 0);
    let second = coinbase_key(&blocks, 1);
    let reward = coinbase(50 * COIN, 20, &miner);
    let prev = blocks[1].header.hash();

    let unknown = spend(btclib::sha256::Hash(U256(9, 9, 9, 9)), &miner, vec![]);
    let candidate = block(prev, 2_000, vec![reward.clone(), unknown]);
    assert_eq!(
        candidate.calculate_miner_fees(chain.utxos()),
        Err(BtcError::InvalidTransaction)
    );

    let once = spend(first, &miner, vec![output(COIN, 21, &payee)]);
    let twice = spend(first, &miner, vec![output(COIN, 22, &payee)]);
    let candidate = block(prev, 2_000, vec![reward.clone(), once.clone(), twice]);
    assert_eq!(
        candidate.calculate_miner_fees(chain.utxos()),
        Err(BtcError::InvalidTransaction)
    );

    let other = spend(second, &miner, vec![output(COIN, 21, &payee)]);
    let candidate = block(prev, 2_000, vec![reward.clone(), once.clone(), other]);
    assert_eq!(
        candidate.calculate_miner_fees(chain.utxos()),
        Err(BtcError::InvalidTransaction)
    );

    let greedy = spend(first, &miner, vec![output(50 * COIN + 1, 23, &payee)]);
    let candidate = block(prev, 2_000, vec![reward.clone(), greedy]);
    assert_eq!(
        candidate.calculate_miner_fees(chain.utxos()),
        Err(BtcError::InvalidTransaction)
    );

    let fine = spend(second, &miner, vec![output(COIN, 24, &payee)]);
    let candidate = block(prev, 2_000, vec![reward, once, fine]);
    assert_eq!(
        candidate.calculate_miner_fees(chain.utxos()),
        Ok(98 * COIN)
    );
}

#[test]
fn the_coinbase_does_not_count_towards_the_fees() {
    let miner = key(1);
    let (chain, blocks) = chain_of(1, &miner, 10);
    let candidate = block(
        blocks[0].header.hash(),
        2_000,
        vec![coinbase(123, 20, &miner)],
    );
    assert_eq!(candidate.calculate_miner_fees(chain.utxos()), Ok(0));
}

#[test]
fn a_spend_needs_the_signature_of_the_owner() {
    let miner = key(1);
    let thief = key(3);
    let (mut chain, blocks) = chain_of(1, &miner, 10);
    let first = coinbase_key(&blocks, 0);
    let stolen = spend(first, &thief, vec![output(50 * COIN, 30, &thief)]);
    let candidate = block(
        blocks[0].header.hash(),
        1_010,
        vec![coinbase(50 * COIN, 31, &thief), stolen],
    );
    assert_eq!(candidate.verify_coinbase_transaction(1, chain.utxos()), Ok(()));
    assert_eq!(
        candidate.verify_transactions(1, chain.utxos()),
        Err(BtcError::InvalidTransaction)
    );
    assert_eq!(
        chain.add_block(candidate),
        Err(BtcError::InvalidTransaction)
    );

    let mut garbled = spend(first, &miner, vec![output(50 * COIN, 30, &miner)]);
    garbled.inputs[0].signature = Signature::new(vec![1, 2, 3]);
    let candidate = block(
        blocks[0].header.hash(),
        1_010,
        vec![coinbase(50 * COIN, 31, &miner), garbled],
    );
    assert_eq!(
        chain.add_block(candidate),
        Err(BtcError::InvalidTransaction)
    );
    assert_eq!(chain.block_height(), 1);
}

#[test]
fn a_signature_is_over_the_key_of_the_output() {
    let miner = key(1);
    let hash = btclib::sha256::Hash(U256(1, 2, 3, 4));
    let other = btclib::sha256::Hash(U256(1, 2, 3, 5));
    let signature = sign(&miner, &hash);
    assert_eq!(signature.bytes.len(), 64);
    assert!(signature.verify(&hash, &owner(&miner)));
    assert!(!signature.verify(&other, &owner(&miner)));
    assert!(!signature.verify(&hash, &owner(&key(2))));
    assert!(!signature.verify(&hash, &PublicKey::new(vec![])));
    assert!(!Signature::new(vec![0; 64]).verify(&hash, &owner(&miner)));
    assert!(!Signature::new(owner(&miner).bytes).verify(&hash, &owner(&miner)));
}

#[test]
fn a_later_block_must_extend_the_chain() {
    let miner = key(1);
    let (mut chain, blocks) = chain_of(2, &miner, 10);
    let reward = coinbase(50 * COIN, 40, &miner);
    let last = blocks[1].header.hash();

    let unlinked = block(blocks[0].header.hash(), 2_000, vec![reward.clone()]);
    assert_eq!(chain.add_block(unlinked), Err(BtcError::InvalidBlock));
    let by_block_digest = block(blocks[1].hash(), 2_000, vec![reward.clone()]);
    assert_eq!(chain.add_block(by_block_digest), Err(BtcError::InvalidBlock));

    let mut no_work = block(last, 2_000, vec![reward.clone()]);
    no_work.header.target = U256::zero();
    assert_eq!(chain.add_block(no_work), Err(BtcError::InvalidBlock));

    let mut wrong_root = block(last, 2_000, vec![reward.clone()]);
    wrong_root.header.merkle_root = MerkleRoot(btclib::sha256::Hash::zero());
    assert_eq!(chain.add_block(wrong_root), Err(BtcError::InvalidBlock));

    let too_old = block(last, 1_009, vec![reward.clone()]);
    assert_eq!(chain.add_block(too_old), Err(BtcError::InvalidBlock));

    assert_eq!(chain.block_height(), 2);
    assert_eq!(chain.utxos().len(), 2);

    let same_time = block(last, 1_010, vec![reward]);
    assert_eq!(chain.add_block(same_time), Ok(()));
    assert_eq!(chain.block_height(), 3);
    assert_eq!(chain.blocks().len(), 3);
}

#[test]
fn validate_block_leaves_the_chain_alone() {
    let miner = key(1);
    let (chain, blocks) = chain_of(1, &miner, 10);
    let next = block(
        blocks[0].header.hash(),
        1_010,
        vec![coinbase(50 * COIN, 40, &miner)],
    );
    assert_eq!(chain.validate_block(&next), Ok(()));
    assert_eq!(chain.validate_block(&blocks[0]), Err(BtcError::InvalidBlock));
    assert_eq!(chain.block_height(), 1);
}

#[test]
fn no_output_is_spent_twice() {
    let miner = key(1);
    let payee = key(2);
    let (mut chain, blocks) = chain_of(1, &miner, 10);
    let first = coinbase_key(&blocks, 0);
    let payment = spend(first, &miner, vec![output(50 * COIN, 50, &payee)]);
    let second = block(
        blocks[0].header.hash(),
        1_010,
        vec![coinbase(50 * COIN, 51, &miner), payment],
    );
    let prev = second.header.hash();
    assert_eq!(chain.add_block(second), Ok(()));
    assert!(!chain.utxos().contains_key(&first));

    let again = spend(first, &miner, vec![output(50 * COIN, 52, &payee)]);
    assert_eq!(
        chain.add_to_mempool(again.clone()),
        Err(BtcError::InvalidTransaction)
    );
    assert!(chain.mempool().is_empty());
    let third = block(
        prev,
        1_020,
        vec![coinbase(50 * COIN, 53, &miner), again],
    );
    assert_eq!(chain.add_block(third), Err(BtcError::InvalidTransaction));
    assert_eq!(chain.block_height(), 2);
}

#[test]
fn no_output_is_spent_twice_in_one_block() {
    let miner = key(1);
    let payee = key(2);
    let (mut chain, blocks) = chain_of(1, &miner, 10);
    let first = coinbase_key(&blocks, 0);
    let once = spend(first, &miner, vec![output(10 * COIN, 60, &payee)]);
    let twice = spend(first, &miner, vec![output(10 * COIN, 61, &payee)]);
    let candidate = block(
        blocks[0].header.hash(),
        1_010,
        vec![coinbase(130 * COIN, 62, &miner), once, twice],
    );
    assert_eq!(
        chain.add_block(candidate),
        Err(BtcError::InvalidTransaction)
    );
    let both = Transaction::new(
        vec![input(first, &miner), input(first, &miner)],
        vec![output(10 * COIN, 63, &payee)],
    );
    assert_eq!(
        chain.add_to_mempool(both),
        Err(BtcError::InvalidTransaction)
    );
}

#[test]
fn all_outputs_of_a_transaction_share_one_key() {
    let miner = key(1);
    let mut chain = Blockchain::new();
    let reward = Transaction::new(
        vec![],
        vec![output(20 * COIN, 1, &miner), output(30 * COIN, 2, &miner)],
    );
    let genesis = block(btclib::sha256::Hash::zero(), 1_000, vec![reward.clone()]);
    assert_eq!(chain.add_block(genesis), Ok(()));
    assert_eq!(chain.utxos().len(), 1);
    assert_eq!(
        chain.utxos().get(&reward.hash()),
        Some(&(false, output(30 * COIN, 2, &miner)))
    );
}

#[test]
fn rebuild_gives_the_same_outputs_and_keeps_the_marks_of_the_pool() {
    let miner = key(1);
    let payee = key(2);
    let (mut chain, blocks) = chain_of(3, &miner, 10);
    let first = coinbase_key(&blocks, 0);
    let payment = spend(first, &miner, vec![output(COIN, 70, &payee)]);
    assert_eq!(chain.add_to_mempool(payment), Ok(()));
    assert_eq!(chain.utxos().get(&first).map(|utxo| utxo.0), Some(true));
    chain.rebuild_utxos();
    assert_eq!(chain.utxos().len(), 3);
    for i in 0..3 {
        assert_eq!(
            chain.utxos().get(&coinbase_key(&blocks, i)),
            Some(&(i == 0, output(50 * COIN, i as u128, &miner)))
        );
    }
    assert_eq!(chain.mempool().len(), 1);
}

#[test]
fn the_pool_is_sorted_by_fee() {
    let miner = key(1);
    let payee = key(2);
    let (mut chain, blocks) = chain_of(4, &miner, 10);
    let fees = [3000u64, 1000, 2000, 1000];
    let mut txs = Vec::new();
    for (i, fee) in fees.iter().enumerate() {
        let tx = spend(
            coinbase_key(&blocks, i),
            &miner,
            vec![output(50 * COIN - fee, 80 + i as u128, &payee)],
        );
        assert_eq!(
            chain.add_to_mempool_at(tx.clone(), Timestamp::new(5_000 + i as i64, 0)),
            Ok(())
        );
        txs.push(tx);
    }
    let pool: Vec<&Transaction> = chain.mempool().iter().map(|entry| &entry.1).collect();
    assert_eq!(pool, vec![&txs[1], &txs[3], &txs[2], &txs[0]]);
    let times: Vec<i64> = chain.mempool().iter().map(|entry| entry.0.secs).collect();
    assert_eq!(times, vec![5_001, 5_003, 5_002, 5_000]);
}

#[test]
fn the_pool_refuses_what_is_worth_more_than_it_spends() {
    let miner = key(1);
    let (mut chain, blocks) = chain_of(1, &miner, 10);
    let first = coinbase_key(&blocks, 0);
    let greedy = spend(first, &miner, vec![output(50 * COIN + 1, 90, &miner)]);
    assert_eq!(
        chain.add_to_mempool(greedy),
        Err(BtcError::InvalidTransaction)
    );
    assert_eq!(chain.utxos().get(&first).map(|utxo| utxo.0), Some(false));
    let unknown = spend(btclib::sha256::Hash(U256(5, 5, 5, 5)), &miner, vec![]);
    assert_eq!(
        chain.add_to_mempool(unknown),
        Err(BtcError::InvalidTransaction)
    );
    let exact = spend(first, &miner, vec![output(50 * COIN, 91, &miner)]);
    assert_eq!(chain.add_to_mempool(exact), Ok(()));
    assert!(chain.mempool().len() == 1);
}

#[test]
fn the_pool_does_not_check_signatures() {
    let miner = key(1);
    let thief = key(3);
    let (mut chain, blocks) = chain_of(1, &miner, 10);
    let stolen = spend(
        coinbase_key(&blocks, 0),
        &thief,
        vec![output(COIN, 95, &thief)],
    );
    assert_eq!(chain.add_to_mempool(stolen), Ok(()));
}

#[test]
fn a_later_transaction_drives_out_the_one_that_held_its_output() {
    let miner = key(1);
    let payee = key(2);
    let (mut chain, blocks) = chain_of(2, &miner, 10);
    let first = coinbase_key(&blocks, 0);
    let second = coinbase_key(&blocks, 1);
    let earlier = Transaction::new(
        vec![input(first, &miner), input(second, &miner)],
        vec![output(90 * COIN, 100, &payee)],
    );
    assert_eq!(
        chain.add_to_mempool_at(earlier.clone(), Timestamp::new(5_000, 0)),
        Ok(())
    );
    assert_eq!(chain.utxos().get(&first).map(|utxo| utxo.0), Some(true));
    assert_eq!(chain.utxos().get(&second).map(|utxo| utxo.0), Some(true));

    let later = spend(first, &miner, vec![output(40 * COIN, 101, &payee)]);
    assert_eq!(
        chain.add_to_mempool_at(later.clone(), Timestamp::new(5_001, 0)),
        Ok(())
    );
    assert_eq!(chain.mempool().len(), 1);
    assert_eq!(chain.mempool()[0], (Timestamp::new(5_001, 0), later));
    assert_eq!(chain.utxos().get(&first).map(|utxo| utxo.0), Some(true));
    assert_eq!(chain.utxos().get(&second).map(|utxo| utxo.0), Some(false));
}

#[test]
fn a_rival_drives_out_the_holder_after_a_rebuild_too() {
    let miner = key(1);
    let payee = key(2);
    let (mut chain, blocks) = chain_of(2, &miner, 10);
    let first = coinbase_key(&blocks, 0);
    let waiting = spend(first, &miner, vec![output(COIN, 110, &payee)]);
    assert_eq!(chain.add_to_mempool(waiting), Ok(()));
    chain.rebuild_utxos();
    assert_eq!(chain.utxos().get(&first).map(|utxo| utxo.0), Some(true));
    let rival = spend(first, &miner, vec![output(2 * COIN, 111, &payee)]);
    assert_eq!(chain.add_to_mempool(rival.clone()), Ok(()));
    assert_eq!(chain.mempool().len(), 1);
    assert_eq!(chain.mempool()[0].1, rival);
    assert_eq!(chain.utxos().get(&first).map(|utxo| utxo.0), Some(true));
}

#[test]
fn a_transaction_offered_twice_is_in_the_pool_once() {
    let miner = key(1);
    let (mut chain, blocks) = chain_of(1, &miner, 10);
    let tx = spend(
        coinbase_key(&blocks, 0),
        &miner,
        vec![output(COIN, 112, &miner)],
    );
    assert_eq!(
        chain.add_to_mempool_at(tx.clone(), Timestamp::new(1, 0)),
        Ok(())
    );
    assert_eq!(
        chain.add_to_mempool_at(tx.clone(), Timestamp::new(2, 0)),
        Ok(())
    );
    assert_eq!(chain.mempool(), &[(Timestamp::new(2, 0), tx)]);
}

#[test]
fn cleanup_drops_what_is_too_old_and_frees_its_outputs() {
    let miner = key(1);
    let payee = key(2);
    let (mut chain, blocks) = chain_of(2, &miner, 10);
    let first = coinbase_key(&blocks, 0);
    let second = coinbase_key(&blocks, 1);
    let old = spend(first, &miner, vec![output(COIN, 120, &payee)]);
    let young = spend(second, &miner, vec![output(COIN, 121, &payee)]);
    assert_eq!(
        chain.add_to_mempool_at(old, Timestamp::new(10_000, 0)),
        Ok(())
    );
    assert_eq!(
        chain.add_to_mempool_at(young.clone(), Timestamp::new(10_300, 0)),
        Ok(())
    );

    chain.cleanup_mempool_at(Timestamp::new(10_600, 0));
    assert_eq!(chain.mempool().len(), 2);
    assert_eq!(chain.utxos().get(&first).map(|utxo| utxo.0), Some(true));

    chain.cleanup_mempool_at(Timestamp::new(10_600, 1));
    assert_eq!(chain.mempool().len(), 1);
    assert_eq!(chain.mempool()[0], (Timestamp::new(10_300, 0), young));
    assert_eq!(chain.utxos().get(&first).map(|utxo| utxo.0), Some(false));
    assert_eq!(chain.utxos().get(&second).map(|utxo| utxo.0), Some(true));

    let again = spend(first, &miner, vec![output(2 * COIN, 122, &payee)]);
    assert_eq!(chain.add_to_mempool(again), Ok(()));
    assert_eq!(chain.mempool().len(), 2);
}

#[test]
fn cleanup_at_the_current_time_keeps_what_was_just_admitted() {
    let miner = key(1);
    let (mut chain, blocks) = chain_of(1, &miner, 10);
    let tx = spend(
        coinbase_key(&blocks, 0),
        &miner,
        vec![output(COIN, 130, &miner)],
    );
    assert_eq!(chain.add_to_mempool(tx), Ok(()));
    assert!(chain.mempool()[0].0.secs > 1_600_000_000);
    chain.cleanup_mempool();
    assert_eq!(chain.mempool().len(), 1);
}

#[test]
fn a_block_takes_its_transactions_out_of_the_pool_and_no_others() {
    let miner = key(1);
    let payee = key(2);
    let (mut chain, blocks) = chain_of(2, &miner, 10);
    let mined = spend(
        coinbase_key(&blocks, 0),
        &miner,
        vec![output(50 * COIN, 140, &payee)],
    );
    let waiting = spend(
        coinbase_key(&blocks, 1),
        &miner,
        vec![output(49 * COIN, 141, &payee)],
    );
    assert_eq!(chain.add_to_mempool(mined.clone()), Ok(()));
    assert_eq!(chain.add_to_mempool(waiting.clone()), Ok(()));
    let next = block(
        blocks[1].header.hash(),
        2_000,
        vec![coinbase(50 * COIN, 142, &miner), mined],
    );
    assert_eq!(chain.add_block(next), Ok(()));
    assert_eq!(chain.mempool().len(), 1);
    assert_eq!(chain.mempool()[0].1, waiting);
    assert_eq!(
        chain
            .utxos()
            .get(&coinbase_key(&blocks, 1))
            .map(|utxo| utxo.0),
        Some(true)
    );
    assert_eq!(chain.utxos().len(), 3);
    let marked = (0..chain.utxos().len())
        .filter(|i| chain.utxos().get(&chain.utxos().key_at(*i)).unwrap().0)
        .count();
    assert_eq!(marked, 1);
}

#[test]
fn utxo_set_is_a_map() {
    let miner = key(1);
    let mut utxos = UtxoSet::new();
    let a = btclib::sha256::Hash(U256(1, 0, 0, 0));
    let b = btclib::sha256::Hash(U256(2, 0, 0, 0));
    assert_eq!(utxos.len(), 0);
    assert_eq!(utxos.get(&a), None);
    utxos.insert(a, false, output(1, 1, &miner));
    utxos.insert(b, true, output(2, 2, &miner));
    utxos.insert(a, false, output(3, 3, &miner));
    assert_eq!(utxos.len(), 2);
    assert!(utxos.contains_key(&a));
    assert_eq!(utxos.get(&a), Some(&(false, output(3, 3, &miner))));
    utxos.set_pending(&a, true);
    utxos.set_pending(&b, false);
    utxos.set_pending(&btclib::sha256::Hash(U256(3, 0, 0, 0)), true);
    assert_eq!(utxos.get(&a), Some(&(true, output(3, 3, &miner))));
    assert_eq!(utxos.get(&b), Some(&(false, output(2, 2, &miner))));
    assert_eq!(utxos.len(), 2);
    let copy = utxos.clone();
    utxos.remove(&a);
    utxos.remove(&a);
    assert_eq!(utxos.len(), 1);
    assert!(!utxos.contains_key(&a));
    assert_eq!(copy.len(), 2);
    assert!(copy.contains_key(&copy.key_at(0)));
}

#[test]
fn a_block_agrees_with_itself_when_it_has_work_and_the_right_root() {
    let miner = key(1);
    let good = block(btclib::sha256::Hash::zero(), 1_000, vec![coinbase(50 * COIN, 0, &miner)]);
    assert!(good.is_self_consistent());
    let mut no_work = good.clone();
    no_work.header.target = U256::zero();
    assert!(!no_work.is_self_consistent());
    let mut wrong_root = good.clone();
    wrong_root.header.merkle_root = MerkleRoot(btclib::sha256::Hash::zero());
    assert!(!wrong_root.is_self_consistent());
    let mut other_transactions = good;
    other_transactions
        .transactions
        .push(coinbase(50 * COIN, 1, &miner));
    assert!(!other_transactions.is_self_consistent());
}

#[test]
fn a_transaction_that_is_turned_down_leaves_the_pool_as_it_was() {
    let miner = key(1);
    let payee = key(2);
    let (mut chain, blocks) = chain_of(2, &miner, 10);
    let first = coinbase_key(&blocks, 0);
    let waiting = spend(first, &miner, vec![output(COIN, 150, &payee)]);
    assert_eq!(
        chain.add_to_mempool_at(waiting.clone(), Timestamp::new(7_000, 0)),
        Ok(())
    );
    let greedy = Transaction::new(
        vec![input(first, &miner), input(coinbase_key(&blocks, 1), &miner)],
        vec![output(100 * COIN + 1, 151, &payee)],
    );
    assert_eq!(
        chain.add_to_mempool_at(greedy, Timestamp::new(7_001, 0)),
        Err(BtcError::InvalidTransaction)
    );
    assert_eq!(chain.mempool().len(), 1);
    assert_eq!(chain.mempool()[0], (Timestamp::new(7_000, 0), waiting));
    assert_eq!(chain.utxos().get(&first).map(|utxo| utxo.0), Some(true));
    assert_eq!(
        chain
            .utxos()
            .get(&coinbase_key(&blocks, 1))
            .map(|utxo| utxo.0),
        Some(false)
    );
}

#[test]
fn a_chain_is_empty_until_it_has_a_block() {
    let miner = key(1);
    let mut chain = Blockchain::new();
    assert_eq!(chain.state(), ChainState::Empty);
    let genesis = block(btclib::sha256::Hash::zero(), 1_000, vec![coinbase(50 * COIN, 0, &miner)]);
    assert_eq!(chain.add_block(genesis), Ok(()));
    assert_eq!(chain.state(), ChainState::NonEmpty);
}

#[test]
fn the_two_verdicts_can_be_asked_for_on_their_own() {
    let miner = key(1);
    let utxos = UtxoSet::new();
    let genesis = block(btclib::sha256::Hash::zero(), 1_000, vec![coinbase(50 * COIN, 0, &miner)]);
    assert_eq!(validate_first_block(&genesis, &utxos), Ok(()));
    let next = block(genesis.header.hash(), 1_000, vec![coinbase(50 * COIN, 1, &miner)]);
    assert_eq!(
        validate_first_block(&next, &utxos),
        Err(BtcError::InvalidBlock)
    );
    assert_eq!(validate_next_block(&genesis, 1, &next, &utxos), Ok(()));
    assert_eq!(
        validate_next_block(&genesis, 210, &next, &utxos),
        Err(BtcError::InvalidTransaction)
    );
    assert_eq!(
        validate_next_block(&next, 1, &genesis, &utxos),
        Err(BtcError::InvalidBlock)
    );
    let mut no_work = next.clone();
    no_work.header.target = U256::zero();
    assert_eq!(
        validate_next_block(&genesis, 1, &no_work, &utxos),
        Err(BtcError::InvalidBlock)
    );
    assert_eq!(
        validate_first_block(&Block::new(no_work.header, vec![]), &utxos),
        Err(BtcError::InvalidBlock)
    );
}

/// Whether an unspent output is marked exactly where a transaction of the
/// pool has an input that refers to it, and no two transactions of the pool
/// refer to the same output.
fn marks_agree_with_pool(chain: &Blockchain) -> bool {
    let mut claimed: Vec<btclib::sha256::Hash> = Vec::new();
    for (_, transaction) in chain.mempool() {
        for input in &transaction.inputs {
            if claimed.contains(&input.prev_transaction_output_hash) {
                return false;
            }
            claimed.push(input.prev_transaction_output_hash);
        }
    }
    (0..chain.utxos().len()).all(|i| {
        let key = chain.utxos().key_at(i);
        chain.utxos().get(&key).unwrap().0 == claimed.contains(&key)
    })
}

fn pool_is_sorted(chain: &Blockchain) -> bool {
    let fees: Vec<i128> = chain
        .mempool()
        .iter()
        .map(|(_, transaction)| {
            let spent: i128 = transaction
                .inputs
                .iter()
                .filter_map(|input| chain.utxos().get(&input.prev_transaction_output_hash))
                .map(|utxo| utxo.1.value as i128)
                .sum();
            let created: i128 = transaction.outputs.iter().map(|o| o.value as i128).sum();
            spent - created
        })
        .collect();
    fees.windows(2).all(|pair| pair[0] <= pair[1])
}

#[test]
fn the_marks_follow_the_pool_through_every_operation() {
    let miner = key(1);
    let payee = key(2);
    let (mut chain, blocks) = chain_of(6, &miner, 10);
    assert!(marks_agree_with_pool(&chain));
    let keys: Vec<btclib::sha256::Hash> = (0..6).map(|i| coinbase_key(&blocks, i)).collect();

    let a = spend(keys[0], &miner, vec![output(50 * COIN - 30, 200, &payee)]);
    let b = Transaction::new(
        vec![input(keys[1], &miner), input(keys[2], &miner)],
        vec![output(100 * COIN - 10, 201, &payee)],
    );
    let c = spend(keys[3], &miner, vec![output(50 * COIN - 20, 202, &payee)]);
    for (i, tx) in [&a, &b, &c].into_iter().enumerate() {
        assert_eq!(
            chain.add_to_mempool_at(tx.clone(), Timestamp::new(20_000 + 100 * i as i64, 0)),
            Ok(())
        );
        assert!(marks_agree_with_pool(&chain));
        assert!(pool_is_sorted(&chain));
    }
    assert_eq!(chain.mempool().len(), 3);

    let rival = Transaction::new(
        vec![input(keys[2], &miner), input(keys[4], &miner)],
        vec![output(100 * COIN - 5, 203, &payee)],
    );
    assert_eq!(
        chain.add_to_mempool_at(rival.clone(), Timestamp::new(20_300, 0)),
        Ok(())
    );
    assert!(marks_agree_with_pool(&chain));
    assert!(pool_is_sorted(&chain));
    let pool: Vec<&Transaction> = chain.mempool().iter().map(|entry| &entry.1).collect();
    assert_eq!(pool, vec![&rival, &c, &a]);
    assert_eq!(chain.utxos().get(&keys[1]).map(|utxo| utxo.0), Some(false));

    let next = block(
        blocks[5].header.hash(),
        3_000,
        vec![coinbase(50 * COIN + 20, 204, &miner), c.clone()],
    );
    assert_eq!(chain.add_block(next), Ok(()));
    assert!(marks_agree_with_pool(&chain));
    assert_eq!(chain.mempool().len(), 2);
    assert_eq!(chain.utxos().len(), 7);

    chain.rebuild_utxos();
    assert!(marks_agree_with_pool(&chain));
    chain.try_adjust_target();
    assert!(marks_agree_with_pool(&chain));

    chain.cleanup_mempool_at(Timestamp::new(20_601, 0));
    assert!(marks_agree_with_pool(&chain));
    assert!(pool_is_sorted(&chain));
    assert_eq!(chain.mempool().len(), 1);
    assert_eq!(chain.mempool()[0].1, rival);
    assert_eq!(chain.utxos().get(&keys[0]).map(|utxo| utxo.0), Some(false));

    let copy = chain.clone();
    assert!(marks_agree_with_pool(&copy));
    assert_eq!(copy.mempool(), chain.mempool());
    assert_eq!(copy.blocks(), chain.blocks());
    assert_eq!(copy.target(), chain.target());
    assert_eq!(copy.utxos().len(), chain.utxos().len());
}
