use btclib::crypto::{PublicKey, Signature};
use btclib::time::Timestamp;
use btclib::types::block::{occurs_before, verify_spending_transaction};
use btclib::types::mempool::{
    check_admissible, contains_hash, drop_expired, fee_key, find_claimant, input_ref_list,
    release_claims, remove_mined, resolved_inputs_total, set_marks, sort_pool, transaction_claims,
    Fee,
};
use btclib::types::{Transaction, TransactionInput, TransactionOutput, UtxoSet};
use btclib::U256;

fn digest(n: u64) -> btclib::sha256::Hash {
    btclib::sha256::Hash(U256(n, 0, 0, 0))
}

fn output(value: u64) -> TransactionOutput {
    TransactionOutput {
        value,
        unique_id: value as u128,
        pubkey: PublicKey::new(vec![1, 2, 3]),
    }
}

fn input(n: u64) -> TransactionInput {
    TransactionInput {
        prev_transaction_output_hash: digest(n),
        signature: Signature::new(vec![]),
    }
}

fn transaction(inputs: &[u64], outputs: &[u64]) -> Transaction {
    Transaction::new(
        inputs.iter().map(|n| input(*n)).collect(),
        outputs.iter().map(|v| output(*v)).collect(),
    )
}

/// Unspent outputs under the keys 1 to 4, worth 100, 200, 300 and 400.
fn utxos() -> UtxoSet {
    let mut utxos = UtxoSet::new();
    for n in 1..=4u64 {
        utxos.insert(digest(n), false, output(100 * n));
    }
    utxos
}

#[test]
fn totals() {
    let tx = transaction(&[1, 3, 9], &[5, 6, 7]);
    assert_eq!(tx.outputs_total(), 18);
    assert_eq!(resolved_inputs_total(&tx, &utxos()), 400);
    assert_eq!(transaction(&[], &[]).outputs_total(), 0);
    let rich = transaction(&[], &[u64::MAX, u64::MAX, 2]);
    assert_eq!(rich.outputs_total(), 2 * (u64::MAX as u128) + 2);
}

#[test]
fn fees_have_a_sign() {
    let utxos = utxos();
    let gain = fee_key(&transaction(&[1, 2], &[50]), &utxos);
    assert_eq!((gain.negative, gain.magnitude), (false, 250));
    let even = fee_key(&transaction(&[1], &[100]), &utxos);
    assert_eq!((even.negative, even.magnitude), (false, 0));
    let loss = fee_key(&transaction(&[9], &[100]), &utxos);
    assert_eq!((loss.negative, loss.magnitude), (true, 100));
    assert!(gain.exceeds(&even));
    assert!(even.exceeds(&loss));
    assert!(!loss.exceeds(&even));
    assert!(!even.exceeds(&even));
    let minus_zero = Fee {
        negative: true,
        magnitude: 0,
    };
    assert!(!even.exceeds(&minus_zero));
    assert!(!minus_zero.exceeds(&even));
    let deeper = Fee {
        negative: true,
        magnitude: 200,
    };
    assert!(loss.exceeds(&deeper));
    assert!(!deeper.exceeds(&loss));
}

#[test]
fn admissible_means_known_distinct_and_covered() {
    let utxos = utxos();
    assert!(check_admissible(&transaction(&[1, 2], &[300]), &utxos));
    assert!(check_admissible(&transaction(&[], &[]), &utxos));
    assert!(!check_admissible(&transaction(&[1, 2], &[301]), &utxos));
    assert!(!check_admissible(&transaction(&[1, 1], &[10]), &utxos));
    assert!(!check_admissible(&transaction(&[1, 5], &[10]), &utxos));
    assert!(!check_admissible(&transaction(&[], &[1]), &utxos));
}

#[test]
fn a_spending_transaction_needs_signatures() {
    let utxos = utxos();
    assert!(!verify_spending_transaction(
        &transaction(&[1], &[100]),
        &utxos
    ));
    assert!(verify_spending_transaction(&transaction(&[], &[]), &utxos));
    assert!(!verify_spending_transaction(&transaction(&[], &[1]), &utxos));
}

#[test]
fn lists_of_digests() {
    let tx = transaction(&[3, 1, 3], &[]);
    let refs = input_ref_list(&tx);
    assert_eq!(refs, vec![digest(3), digest(1), digest(3)]);
    assert!(contains_hash(&refs, &digest(1)));
    assert!(!contains_hash(&refs, &digest(2)));
    assert!(!occurs_before(&refs, 0));
    assert!(!occurs_before(&refs, 1));
    assert!(occurs_before(&refs, 2));
    assert!(transaction_claims(&tx, &digest(3)));
    assert!(!transaction_claims(&tx, &digest(4)));
}

#[test]
fn the_first_claimant_is_found() {
    let pool = vec![
        (Timestamp::new(1, 0), transaction(&[1], &[])),
        (Timestamp::new(2, 0), transaction(&[2, 3], &[])),
        (Timestamp::new(3, 0), transaction(&[3], &[])),
    ];
    assert_eq!(find_claimant(&pool, &digest(1)), 0);
    assert_eq!(find_claimant(&pool, &digest(3)), 1);
    assert_eq!(find_claimant(&pool, &digest(4)), 3);
    assert_eq!(find_claimant(&Vec::new(), &digest(1)), 0);
}

#[test]
fn marks_are_set_and_cleared() {
    let mut utxos = utxos();
    set_marks(&mut utxos, &transaction(&[1, 3, 7], &[]), true);
    let marks: Vec<bool> = (1..=4)
        .map(|n| utxos.get(&digest(n)).unwrap().0)
        .collect();
    assert_eq!(marks, vec![true, false, true, false]);
    assert_eq!(utxos.len(), 4);
    set_marks(&mut utxos, &transaction(&[3], &[]), false);
    assert_eq!(utxos.get(&digest(3)), Some(&(false, output(300))));
    assert_eq!(utxos.get(&digest(1)), Some(&(true, output(100))));
}

#[test]
fn room_is_made_input_by_input() {
    let mut utxos = utxos();
    let holder = transaction(&[1, 2], &[10]);
    let bystander = transaction(&[3], &[10]);
    set_marks(&mut utxos, &holder, true);
    set_marks(&mut utxos, &bystander, true);
    utxos.set_pending(&digest(4), true);
    let mut pool = vec![
        (Timestamp::new(1, 0), bystander.clone()),
        (Timestamp::new(2, 0), holder),
    ];
    release_claims(&mut utxos, &mut pool, &transaction(&[2, 4], &[]));
    assert_eq!(pool, vec![(Timestamp::new(1, 0), bystander)]);
    let marks: Vec<bool> = (1..=4)
        .map(|n| utxos.get(&digest(n)).unwrap().0)
        .collect();
    assert_eq!(marks, vec![false, false, true, false]);
}

#[test]
fn sorting_is_by_fee_and_keeps_the_order_of_equals() {
    let utxos = utxos();
    let pool = vec![
        (Timestamp::new(1, 0), transaction(&[3], &[0])),
        (Timestamp::new(2, 0), transaction(&[1], &[0])),
        (Timestamp::new(3, 0), transaction(&[9], &[50])),
        (Timestamp::new(4, 0), transaction(&[2], &[100])),
        (Timestamp::new(5, 0), transaction(&[4], &[400])),
        (Timestamp::new(6, 0), transaction(&[1], &[0])),
    ];
    let sorted = sort_pool(pool, &utxos);
    let order: Vec<i64> = sorted.iter().map(|entry| entry.0.secs).collect();
    assert_eq!(order, vec![3, 5, 2, 4, 6, 1]);
    assert!(sort_pool(Vec::new(), &utxos).is_empty());
}

#[test]
fn old_entries_leave_and_free_their_outputs() {
    let mut utxos = utxos();
    let old = transaction(&[1], &[]);
    let young = transaction(&[2], &[]);
    set_marks(&mut utxos, &old, true);
    set_marks(&mut utxos, &young, true);
    let mut pool = vec![
        (Timestamp::new(0, 0), old),
        (Timestamp::new(100, 0), young.clone()),
    ];
    drop_expired(&mut utxos, &mut pool, &Timestamp::new(600, 0));
    assert_eq!(pool.len(), 2);
    drop_expired(&mut utxos, &mut pool, &Timestamp::new(650, 0));
    assert_eq!(pool, vec![(Timestamp::new(100, 0), young)]);
    assert_eq!(utxos.get(&digest(1)).unwrap().0, false);
    assert_eq!(utxos.get(&digest(2)).unwrap().0, true);
    drop_expired(&mut utxos, &mut pool, &Timestamp::new(10_000, 0));
    assert!(pool.is_empty());
    assert_eq!(utxos.get(&digest(2)).unwrap().0, false);
}

#[test]
fn mined_entries_leave() {
    let a = transaction(&[1], &[1]);
    let b = transaction(&[2], &[2]);
    let c = transaction(&[3], &[3]);
    let mut pool = vec![
        (Timestamp::new(1, 0), a.clone()),
        (Timestamp::new(2, 0), b.clone()),
        (Timestamp::new(3, 0), c.clone()),
    ];
    remove_mined(&mut pool, &vec![b.hash(), digest(77)]);
    assert_eq!(
        pool,
        vec![(Timestamp::new(1, 0), a), (Timestamp::new(3, 0), c)]
    );
    remove_mined(&mut pool, &Vec::new());
    assert_eq!(pool.len(), 2);
}
