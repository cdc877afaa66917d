//! The pool of transactions that wait for a block: the operations on it
//! and on the marks that its transactions set on the unspent outputs they
//! mean to spend.

use vstd::prelude::*;
use crate::time::Timestamp;
use crate::types::block::{input_refs, occurs_before, refs_resolved, refs_value};
use crate::types::mempool_model::{
    admissible,
    claims,
    drop_mined,
    expired,
    expired_refs,
    fee_of,
    first_claimant,
    insertion_point,
    lemma_first_claimant_prefix,
    lemma_mark_all_concat,
    lemma_mark_all_push,
    mark_all,
    pool_views,
    PoolEntry,
    PoolEntryView,
    PoolState,
    release,
    release_all,
    retain_fresh,
    sort_by_fee,
};
use crate::types::transaction::Transaction;
use crate::types::utxo::UtxoSet;

verus! {

/// The keys that the inputs of a transaction refer to.
pub fn input_ref_list(tx: &Transaction) -> (refs: Vec<crate::sha256::Hash>)
    ensures
        refs@ == input_refs(tx@.inputs),
{
    let mut refs: Vec<crate::sha256::Hash> = Vec::new();
    let mut i: usize = 0;
    while i < tx.inputs.len()
        invariant
            i <= tx.inputs@.len(),
            refs@ == input_refs(tx@.inputs).take(i as int),
        decreases tx.inputs@.len() - i,
    {
        refs.push(tx.inputs[i].prev_transaction_output_hash);
        proof {
            assert(refs@ =~= input_refs(tx@.inputs).take(i + 1));
        }
        i += 1;
    }
    proof {
        assert(input_refs(tx@.inputs).take(i as int) =~= input_refs(tx@.inputs));
    }
    refs
}

/// Whether the list holds the digest.
pub fn contains_hash(list: &Vec<crate::sha256::Hash>, h: &crate::sha256::Hash) -> (found: bool)
    ensures
        found == list@.contains(*h),
{
    let mut i: usize = 0;
    while i < list.len()
        invariant
            i <= list@.len(),
            forall|j: int| 0 <= j < i ==> list@[j] != *h,
        decreases list@.len() - i,
    {
        if list[i] == *h {
            return true;
        }
        i += 1;
    }
    false
}

/// Whether the transaction has an input that refers to `key`.
pub fn transaction_claims(tx: &Transaction, key: &crate::sha256::Hash) -> (found: bool)
    ensures
        found == claims(tx@, *key),
{
    let mut i: usize = 0;
    while i < tx.inputs.len()
        invariant
            i <= tx.inputs@.len(),
            forall|j: int| 0 <= j < i ==> input_refs(tx@.inputs)[j] != *key,
        decreases tx.inputs@.len() - i,
    {
        if tx.inputs[i].prev_transaction_output_hash == *key {
            proof {
                assert(input_refs(tx@.inputs)[i as int] == *key);
            }
            return true;
        }
        i += 1;
    }
    false
}

/// The place of the first entry of the pool that claims `key`, or the
/// length of the pool.
pub fn find_claimant(pool: &Vec<PoolEntry>, key: &crate::sha256::Hash) -> (at: usize)
    ensures
        at == first_claimant(pool_views(pool@), *key),
        at <= pool@.len(),
{
    let ghost views = pool_views(pool@);
    let mut i: usize = 0;
    proof {
        assert(views.take(0) =~= Seq::<PoolEntryView>::empty());
    }
    while i < pool.len()
        invariant
            i <= pool@.len(),
            views == pool_views(pool@),
            first_claimant(views.take(i as int), *key) == i,
        decreases pool@.len() - i,
    {
        proof {
            assert(views.take(i + 1).drop_last() =~= views.take(i as int));
            assert(views.take(i + 1).last().1 == pool@[i as int].1@);
        }
        if transaction_claims(&pool[i].1, key) {
            proof {
                lemma_first_claimant_prefix(views, *key, i + 1);
            }
            return i;
        }
        i += 1;
    }
    proof {
        assert(views.take(i as int) =~= views);
    }
    i
}

/// Sets the mark of each unspent output that an input of `tx` refers to.
pub fn set_marks(utxos: &mut UtxoSet, tx: &Transaction, pending: bool)
    requires
        old(utxos).wf(),
    ensures
        final(utxos).wf(),
        final(utxos)@ == mark_all(old(utxos)@, input_refs(tx@.inputs), pending),
{
    let ghost refs = input_refs(tx@.inputs);
    let mut i: usize = 0;
    proof {
        assert(refs.take(0) =~= Seq::<crate::sha256::Hash>::empty());
        assert(utxos@ =~= mark_all(utxos@, refs.take(0), pending));
    }
    while i < tx.inputs.len()
        invariant
            i <= tx.inputs@.len(),
            utxos.wf(),
            refs == input_refs(tx@.inputs),
            utxos@ == mark_all(old(utxos)@, refs.take(i as int), pending),
        decreases tx.inputs@.len() - i,
    {
        proof {
            assert(refs.take(i + 1) =~= refs.take(i as int).push(refs[i as int]));
            lemma_mark_all_push(old(utxos)@, refs.take(i as int), refs[i as int], pending);
        }
        utxos.set_pending(&tx.inputs[i].prev_transaction_output_hash, pending);
        i += 1;
    }
    proof {
        assert(refs.take(i as int) =~= refs);
    }
}

/// Makes room for `tx`: for each of its inputs in turn, where the unspent
/// output it refers to is marked, the first transaction of the pool that
/// claims the output is dropped and its marks are cleared.
pub fn release_claims(utxos: &mut UtxoSet, pool: &mut Vec<PoolEntry>, tx: &Transaction)
    requires
        old(utxos).wf(),
    ensures
        final(utxos).wf(),
        (PoolState { utxos: final(utxos)@, pool: pool_views(final(pool)@) }) == release_all(
            (PoolState { utxos: old(utxos)@, pool: pool_views(old(pool)@) }),
            input_refs(tx@.inputs),
        ),
{
    let refs = input_ref_list(tx);
    let ghost start = PoolState { utxos: utxos@, pool: pool_views(pool@) };
    let mut i: usize = 0;
    proof {
        assert(refs@.take(0) =~= Seq::<crate::sha256::Hash>::empty());
    }
    while i < refs.len()
        invariant
            i <= refs@.len(),
            utxos.wf(),
            refs@ == input_refs(tx@.inputs),
            start == (PoolState { utxos: old(utxos)@, pool: pool_views(old(pool)@) }),
            (PoolState { utxos: utxos@, pool: pool_views(pool@) }) == release_all(
                start,
                refs@.take(i as int),
            ),
        decreases refs@.len() - i,
    {
        let key = refs[i];
        let ghost before = PoolState { utxos: utxos@, pool: pool_views(pool@) };
        proof {
            assert(refs@.take(i + 1).drop_last() =~= refs@.take(i as int));
            assert(refs@.take(i + 1).last() == key);
        }
        let marked = match utxos.get(&key) {
            Some(utxo) => utxo.0,
            None => false,
        };
        if marked {
            let at = find_claimant(pool, &key);
            if at < pool.len() {
                let evicted = pool.remove(at);
                proof {
                    assert(pool_views(pool@) =~= before.pool.remove(at as int));
                    assert(before.pool[at as int].1 == evicted.1@);
                }
                set_marks(utxos, &evicted.1, false);
            } else {
                utxos.set_pending(&key, false);
            }
        }
        proof {
            assert((PoolState { utxos: utxos@, pool: pool_views(pool@) }) == release(before, key));
        }
        i += 1;
    }
    proof {
        assert(refs@.take(i as int) =~= refs@);
    }
}

/// The value of the unspent outputs that the inputs of `tx` refer to.
pub fn resolved_inputs_total(tx: &Transaction, utxos: &UtxoSet) -> (total: u128)
    requires
        utxos.wf(),
    ensures
        total == refs_value(input_refs(tx@.inputs), utxos@),
{
    let ghost refs = input_refs(tx@.inputs);
    let mut sum: u128 = 0;
    let mut i: usize = 0;
    proof {
        assert(refs.take(0) =~= Seq::<crate::sha256::Hash>::empty());
    }
    while i < tx.inputs.len()
        invariant
            i <= tx.inputs@.len(),
            utxos.wf(),
            refs == input_refs(tx@.inputs),
            sum == refs_value(refs.take(i as int), utxos@),
            sum <= i * u64::MAX,
        decreases tx.inputs@.len() - i,
    {
        proof {
            assert(refs.take(i + 1).drop_last() =~= refs.take(i as int));
        }
        match utxos.get(&tx.inputs[i].prev_transaction_output_hash) {
            Some(utxo) => {
                sum = sum + utxo.1.value as u128;
            },
            None => {},
        }
        i += 1;
    }
    proof {
        assert(refs.take(i as int) =~= refs);
    }
    sum
}

/// Whether the transaction may enter the pool.
pub fn check_admissible(tx: &Transaction, utxos: &UtxoSet) -> (ok: bool)
    requires
        utxos.wf(),
    ensures
        ok == admissible(tx@, utxos@),
{
    let refs = input_ref_list(tx);
    let mut k: usize = 0;
    while k < refs.len()
        invariant
            k <= refs@.len(),
            utxos.wf(),
            refs@ == input_refs(tx@.inputs),
            refs_resolved(refs@.take(k as int), utxos@),
            refs@.take(k as int).no_duplicates(),
        decreases refs@.len() - k,
    {
        if !utxos.contains_key(&refs[k]) {
            return false;
        }
        if occurs_before(&refs, k) {
            return false;
        }
        proof {
            let next = refs@.take(k + 1);
            assert forall|i: int| 0 <= i < next.len() implies utxos@.contains_key(
                #[trigger] next[i],
            ) by {
                if i < k {
                    assert(next[i] == refs@.take(k as int)[i]);
                }
            }
            assert forall|i: int, j: int|
                0 <= i < next.len() && 0 <= j < next.len() && i != j implies next[i] != next[j] by {
                if i < k && j < k {
                    assert(refs@.take(k as int)[i] != refs@.take(k as int)[j]);
                }
            }
        }
        k += 1;
    }
    proof {
        assert(refs@.take(k as int) =~= refs@);
    }
    tx.outputs_total() <= resolved_inputs_total(tx, utxos)
}

/// A fee as a sign and a size.
pub struct Fee {
    pub negative: bool,
    pub magnitude: u128,
}

impl Fee {
    /// The fee as a number.
    pub open spec fn as_int(self) -> int {
        if self.negative {
            -(self.magnitude as int)
        } else {
            self.magnitude as int
        }
    }

    /// Whether `self` is the larger fee.
    pub fn exceeds(&self, other: &Fee) -> (r: bool)
        ensures
            r == (self.as_int() > other.as_int()),
    {
        if self.negative {
            other.negative && self.magnitude < other.magnitude
        } else if other.negative {
            self.magnitude > 0 || other.magnitude > 0
        } else {
            self.magnitude > other.magnitude
        }
    }
}

/// The fee that the transaction leaves.
pub fn fee_key(tx: &Transaction, utxos: &UtxoSet) -> (fee: Fee)
    requires
        utxos.wf(),
    ensures
        fee.as_int() == fee_of(tx@, utxos@),
{
    let inputs: u128 = resolved_inputs_total(tx, utxos);
    let outputs: u128 = tx.outputs_total();
    if inputs >= outputs {
        Fee { negative: false, magnitude: inputs - outputs }
    } else {
        Fee { negative: true, magnitude: outputs - inputs }
    }
}

/// Sorts the pool by fee, smallest first; entries with the same fee keep
/// their order.
pub fn sort_pool(pool: Vec<PoolEntry>, utxos: &UtxoSet) -> (sorted: Vec<PoolEntry>)
    requires
        utxos.wf(),
    ensures
        pool_views(sorted@) == sort_by_fee(pool_views(pool@), utxos@),
{
    let ghost views = pool_views(pool@);
    let mut rest = pool;
    let mut sorted: Vec<PoolEntry> = Vec::new();
    let mut fees: Vec<Fee> = Vec::new();
    let ghost mut done: int = 0;
    proof {
        assert(views.take(0) =~= Seq::<PoolEntryView>::empty());
        assert(pool_views(sorted@) =~= sort_by_fee(views.take(0), utxos@));
        assert(views.skip(0) =~= views);
    }
    while rest.len() > 0
        invariant
            utxos.wf(),
            0 <= done <= views.len(),
            rest@.len() == views.len() - done,
            pool_views(rest@) == views.skip(done),
            pool_views(sorted@) == sort_by_fee(views.take(done), utxos@),
            fees@.len() == sorted@.len(),
            forall|k: int|
                0 <= k < sorted@.len() ==> (#[trigger] fees@[k]).as_int() == fee_of(
                    sorted@[k].1@,
                    utxos@,
                ),
        decreases rest@.len(),
    {
        let ghost rest_before = rest@;
        let entry = rest.remove(0);
        let fee = fee_key(&entry.1, utxos);
        let ghost sv = pool_views(sorted@);
        let mut p: usize = sorted.len();
        proof {
            assert(sv.take(p as int) =~= sv);
        }
        while p > 0 && fees[p - 1].exceeds(&fee)
            invariant
                p <= sorted@.len(),
                fees@.len() == sorted@.len(),
                sv == pool_views(sorted@),
                forall|k: int|
                    0 <= k < sorted@.len() ==> (#[trigger] fees@[k]).as_int() == fee_of(
                        sorted@[k].1@,
                        utxos@,
                    ),
                insertion_point(sv, fee.as_int(), utxos@) == insertion_point(
                    sv.take(p as int),
                    fee.as_int(),
                    utxos@,
                ),
            decreases p,
        {
            proof {
                assert(sv.take(p as int).last() == sv[p - 1]);
                assert(sv.take(p as int).drop_last() =~= sv.take(p - 1));
            }
            p -= 1;
        }
        proof {
            if p > 0 {
                assert(sv.take(p as int).last() == sv[p - 1]);
            }
            assert(insertion_point(sv, fee.as_int(), utxos@) == p);
            assert(pool_views(rest_before)[0] == views[done]);
            assert(views.take(done + 1).drop_last() =~= views.take(done));
            assert(views.take(done + 1).last() == (entry.0, entry.1@));
            assert forall|k: int| 0 <= k < rest@.len() implies pool_views(rest@)[k] == views.skip(
                done + 1,
            )[k] by {
                assert(rest@[k] == rest_before[k + 1]);
                assert(pool_views(rest_before)[k + 1] == views.skip(done)[k + 1]);
            }
            assert(pool_views(rest@) =~= views.skip(done + 1));
        }
        let ghost sorted_before = sorted@;
        let ghost fees_before = fees@;
        sorted.insert(p, entry);
        fees.insert(p, fee);
        proof {
            assert(pool_views(sorted@) =~= sv.insert(p as int, (entry.0, entry.1@)));
            assert forall|k: int| 0 <= k < sorted@.len() implies (#[trigger] fees@[k]).as_int()
                == fee_of(sorted@[k].1@, utxos@) by {
                if k < p {
                    assert(fees@[k] == fees_before[k]);
                    assert(sorted@[k] == sorted_before[k]);
                } else if k > p {
                    assert(fees@[k] == fees_before[k - 1]);
                    assert(sorted@[k] == sorted_before[k - 1]);
                }
            }
            done = done + 1;
        }
    }
    proof {
        assert(views.take(done) =~= views);
    }
    sorted
}

/// Drops the entries that are too old at `now` and clears the marks of
/// their inputs.
pub fn drop_expired(utxos: &mut UtxoSet, pool: &mut Vec<PoolEntry>, now: &Timestamp)
    requires
        old(utxos).wf(),
    ensures
        final(utxos).wf(),
        pool_views(final(pool)@) == retain_fresh(pool_views(old(pool)@), *now),
        final(utxos)@ == mark_all(old(utxos)@, expired_refs(pool_views(old(pool)@), *now), false),
{
    let ghost views = pool_views(pool@);
    let mut kept: Vec<PoolEntry> = Vec::new();
    let ghost mut done: int = 0;
    proof {
        assert(views.take(0) =~= Seq::<PoolEntryView>::empty());
        assert(pool_views(kept@) =~= retain_fresh(views.take(0), *now));
        assert(views.skip(0) =~= views);
    }
    while pool.len() > 0
        invariant
            utxos.wf(),
            0 <= done <= views.len(),
            views == pool_views(old(pool)@),
            pool@.len() == views.len() - done,
            pool_views(pool@) == views.skip(done),
            pool_views(kept@) == retain_fresh(views.take(done), *now),
            utxos@ == mark_all(old(utxos)@, expired_refs(views.take(done), *now), false),
        decreases pool@.len(),
    {
        let ghost pool_before = pool@;
        let ghost kept_before = kept@;
        let entry = pool.remove(0);
        proof {
            assert(pool_views(pool_before)[0] == views[done]);
            assert(views.take(done + 1).drop_last() =~= views.take(done));
            assert(views.take(done + 1).last() == (entry.0, entry.1@));
            assert forall|k: int| 0 <= k < pool@.len() implies pool_views(pool@)[k] == views.skip(
                done + 1,
            )[k] by {
                assert(pool@[k] == pool_before[k + 1]);
                assert(pool_views(pool_before)[k + 1] == views.skip(done)[k + 1]);
            }
            assert(pool_views(pool@) =~= views.skip(done + 1));
        }
        proof {
            reveal(Seq::filter);
        }
        proof {
            let gone = |e: PoolEntryView| expired(e, *now);
            if expired(views[done], *now) {
                assert(views.take(done + 1).filter(gone).drop_last() =~= views.take(done).filter(
                    gone,
                ));
            }
        }
        if entry.0.is_older_than(now, crate::MAX_MEMPOOL_TRANSACTION_AGE) {
            proof {
                lemma_mark_all_concat(
                    old(utxos)@,
                    expired_refs(views.take(done), *now),
                    input_refs(entry.1@.inputs),
                    false,
                );
            }
            set_marks(utxos, &entry.1, false);
        } else {
            kept.push(entry);
            proof {
                assert(pool_views(kept@) =~= pool_views(kept_before).push(views[done]));
            }
        }
        proof {
            done = done + 1;
        }
    }
    proof {
        assert(views.take(done) =~= views);
    }
    *pool = kept;
}

/// Drops the entries whose digest is among `mined`.
pub fn remove_mined(pool: &mut Vec<PoolEntry>, mined: &Vec<crate::sha256::Hash>)
    ensures
        pool_views(final(pool)@) == drop_mined(pool_views(old(pool)@), mined@),
{
    let ghost views = pool_views(pool@);
    let mut kept: Vec<PoolEntry> = Vec::new();
    let ghost mut done: int = 0;
    proof {
        assert(views.take(0) =~= Seq::<PoolEntryView>::empty());
        assert(pool_views(kept@) =~= drop_mined(views.take(0), mined@));
        assert(views.skip(0) =~= views);
    }
    while pool.len() > 0
        invariant
            0 <= done <= views.len(),
            views == pool_views(old(pool)@),
            pool@.len() == views.len() - done,
            pool_views(pool@) == views.skip(done),
            pool_views(kept@) == drop_mined(views.take(done), mined@),
        decreases pool@.len(),
    {
        let ghost pool_before = pool@;
        let ghost kept_before = kept@;
        let entry = pool.remove(0);
        proof {
            assert(pool_views(pool_before)[0] == views[done]);
            assert(views.take(done + 1).drop_last() =~= views.take(done));
            assert(views.take(done + 1).last() == (entry.0, entry.1@));
            assert forall|k: int| 0 <= k < pool@.len() implies pool_views(pool@)[k] == views.skip(
                done + 1,
            )[k] by {
                assert(pool@[k] == pool_before[k + 1]);
                assert(pool_views(pool_before)[k + 1] == views.skip(done)[k + 1]);
            }
            assert(pool_views(pool@) =~= views.skip(done + 1));
        }
        let digest = entry.1.hash();
        proof {
            reveal(Seq::filter);
        }
        if !contains_hash(mined, &digest) {
            kept.push(entry);
            proof {
                assert(pool_views(kept@) =~= pool_views(kept_before).push(views[done]));
            }
        }
        proof {
            done = done + 1;
        }
    }
    proof {
        assert(views.take(done) =~= views);
    }
    *pool = kept;
}

} // verus!
