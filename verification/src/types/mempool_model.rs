//! What the pool of pending transactions is meant to be: the rules for
//! entering and leaving it, the marks on the unspent outputs, and what
//! follows from them.

use vstd::prelude::*;
use crate::time::Timestamp;
use crate::types::block::{input_refs, refs_resolved, refs_value};
use crate::types::transaction::{outputs_value, Transaction, TransactionView};
use crate::types::utxo::{spec_set_pending, UtxoMap};

verus! {

/// A pending transaction with the time at which it was admitted.
pub type PoolEntry = (Timestamp, Transaction);

/// What a [`PoolEntry`] stands for.
pub type PoolEntryView = (Timestamp, TransactionView);

/// The views of the entries of a pool.
pub open spec fn pool_views(pool: Seq<PoolEntry>) -> Seq<PoolEntryView> {
    pool.map_values(|e: PoolEntry| (e.0, e.1@))
}

/// The unspent outputs together with the pool.
pub struct PoolState {
    pub utxos: UtxoMap,
    pub pool: Seq<PoolEntryView>,
}

/// Whether a transaction may enter the pool: each input refers to an
/// unspent output, no two inputs to the same one, and the outputs are worth
/// no more than the inputs.
pub open spec fn admissible(tx: TransactionView, utxos: UtxoMap) -> bool {
    let refs = input_refs(tx.inputs);
    &&& refs_resolved(refs, utxos)
    &&& refs.no_duplicates()
    &&& outputs_value(tx.outputs) <= refs_value(refs, utxos)
}

/// Whether the transaction has an input that refers to `key`.
pub open spec fn claims(tx: TransactionView, key: crate::sha256::Hash) -> bool {
    input_refs(tx.inputs).contains(key)
}

/// The place of the first entry of the pool that claims `key`; the length
/// of the pool where none does.
pub open spec fn first_claimant(pool: Seq<PoolEntryView>, key: crate::sha256::Hash) -> int
    decreases pool.len(),
{
    if pool.len() == 0 {
        0
    } else {
        let before = first_claimant(pool.drop_last(), key);
        if before < pool.len() - 1 {
            before
        } else if claims(pool.last().1, key) {
            pool.len() - 1
        } else {
            pool.len() as int
        }
    }
}

/// The map with the mark set to `pending` under each of the keys; what is
/// under another key stays, and no key is added.
pub open spec fn mark_all(utxos: UtxoMap, refs: Seq<crate::sha256::Hash>, pending: bool) -> UtxoMap {
    Map::new(
        |k: crate::sha256::Hash| utxos.contains_key(k),
        |k: crate::sha256::Hash|
            if refs.contains(k) {
                (pending, utxos[k].1)
            } else {
                utxos[k]
            },
    )
}

/// Makes room for an input that refers to `key`. Where the output under
/// `key` is marked, the first transaction of the pool that claims it leaves
/// the pool and the marks of all its inputs are cleared; where no
/// transaction claims it, only the mark under `key` is cleared. Where the
/// output is not marked, nothing changes.
pub open spec fn release(s: PoolState, key: crate::sha256::Hash) -> PoolState {
    if s.utxos.contains_key(key) && s.utxos[key].0 {
        let i = first_claimant(s.pool, key);
        if i < s.pool.len() {
            PoolState {
                utxos: mark_all(s.utxos, input_refs(s.pool[i].1.inputs), false),
                pool: s.pool.remove(i),
            }
        } else {
            PoolState { utxos: spec_set_pending(s.utxos, key, false), pool: s.pool }
        }
    } else {
        s
    }
}

/// Makes room for each of the keys, one after the other.
pub open spec fn release_all(s: PoolState, refs: Seq<crate::sha256::Hash>) -> PoolState
    decreases refs.len(),
{
    if refs.len() == 0 {
        s
    } else {
        release(release_all(s, refs.drop_last()), refs.last())
    }
}

/// Whether the transaction has an input that refers to one of the keys.
pub open spec fn claims_any(tx: TransactionView, keys: Seq<crate::sha256::Hash>) -> bool {
    exists|i: int| 0 <= i < keys.len() && claims(tx, #[trigger] keys[i])
}

/// The entries of the pool that claim one of the keys, in their order.
pub open spec fn rivals(pool: Seq<PoolEntryView>, keys: Seq<crate::sha256::Hash>) -> Seq<
    PoolEntryView,
> {
    pool.filter(|e: PoolEntryView| claims_any(e.1, keys))
}

/// The entries of the pool that claim none of the keys, in their order.
pub open spec fn bystanders(pool: Seq<PoolEntryView>, keys: Seq<crate::sha256::Hash>) -> Seq<
    PoolEntryView,
> {
    pool.filter(|e: PoolEntryView| !claims_any(e.1, keys))
}

/// The unspent outputs and the pool after room was made for the keys: the
/// entries that claimed one of the keys have left the pool, and the marks
/// of all their inputs are cleared.
pub open spec fn made_room(s: PoolState, keys: Seq<crate::sha256::Hash>) -> PoolState {
    PoolState {
        utxos: mark_all(s.utxos, pool_refs(rivals(s.pool, keys)), false),
        pool: bystanders(s.pool, keys),
    }
}

/// The fee that a transaction leaves: the value of the unspent outputs its
/// inputs refer to, less the value of its outputs. An input that refers to
/// no unspent output counts as nothing, so the fee can be negative.
pub open spec fn fee_of(tx: TransactionView, utxos: UtxoMap) -> int {
    refs_value(input_refs(tx.inputs), utxos) - outputs_value(tx.outputs)
}

/// Where an entry with the given fee goes into a list sorted by fee: behind
/// every entry whose fee is not larger.
pub open spec fn insertion_point(sorted: Seq<PoolEntryView>, fee: int, utxos: UtxoMap) -> int
    decreases sorted.len(),
{
    if sorted.len() == 0 {
        0
    } else if fee_of(sorted.last().1, utxos) > fee {
        insertion_point(sorted.drop_last(), fee, utxos)
    } else {
        sorted.len() as int
    }
}

/// The pool sorted by fee, smallest first; entries with the same fee keep
/// their order.
pub open spec fn sort_by_fee(pool: Seq<PoolEntryView>, utxos: UtxoMap) -> Seq<PoolEntryView>
    decreases pool.len(),
{
    if pool.len() == 0 {
        Seq::empty()
    } else {
        let sorted = sort_by_fee(pool.drop_last(), utxos);
        sorted.insert(insertion_point(sorted, fee_of(pool.last().1, utxos), utxos), pool.last())
    }
}

/// Whether the fees of the pool never fall from one entry to the next.
pub open spec fn sorted_by_fee(pool: Seq<PoolEntryView>, utxos: UtxoMap) -> bool {
    forall|i: int, j: int|
        0 <= i <= j < pool.len() ==> fee_of(pool[i].1, utxos) <= fee_of(pool[j].1, utxos)
}

/// Whether an entry admitted at `e.0` is too old at `now`.
pub open spec fn expired(e: PoolEntryView, now: Timestamp) -> bool {
    now.as_nanos() - e.0.as_nanos() > crate::MAX_MEMPOOL_TRANSACTION_AGE * 1_000_000_000
}

/// The entries of the pool that are not too old at `now`, in their order.
pub open spec fn retain_fresh(pool: Seq<PoolEntryView>, now: Timestamp) -> Seq<PoolEntryView> {
    pool.filter(|e: PoolEntryView| !expired(e, now))
}

/// The keys that the inputs of the entries of the pool refer to, entry
/// after entry.
pub open spec fn pool_refs(pool: Seq<PoolEntryView>) -> Seq<crate::sha256::Hash>
    decreases pool.len(),
{
    if pool.len() == 0 {
        Seq::empty()
    } else {
        pool_refs(pool.drop_last()) + input_refs(pool.last().1.inputs)
    }
}

/// The keys that the inputs of the entries that are too old refer to.
pub open spec fn expired_refs(pool: Seq<PoolEntryView>, now: Timestamp) -> Seq<crate::sha256::Hash> {
    pool_refs(pool.filter(|e: PoolEntryView| expired(e, now)))
}

/// The number of entries of the pool that claim `key`.
pub open spec fn claimants(pool: Seq<PoolEntryView>, key: crate::sha256::Hash) -> nat
    decreases pool.len(),
{
    if pool.len() == 0 {
        0
    } else {
        claimants(pool.drop_last(), key) + if claims(pool.last().1, key) {
            1nat
        } else {
            0nat
        }
    }
}

/// No key is claimed by two entries of the pool.
pub open spec fn claims_disjoint(pool: Seq<PoolEntryView>) -> bool {
    forall|key: crate::sha256::Hash| #[trigger] claimants(pool, key) <= 1
}

/// An unspent output is marked exactly while an entry of the pool claims
/// it.
pub open spec fn marks_match(utxos: UtxoMap, pool: Seq<PoolEntryView>) -> bool {
    forall|key: crate::sha256::Hash|
        #![trigger claimants(pool, key)]
        #![trigger utxos.contains_key(key)]
        utxos.contains_key(key) ==> utxos[key].0 == (claimants(pool, key) > 0)
}

/// The marks on the unspent outputs and the pool agree: an output is
/// marked exactly while an entry claims it, and no two entries claim the
/// same key.
pub open spec fn pool_consistent(utxos: UtxoMap, pool: Seq<PoolEntryView>) -> bool {
    &&& marks_match(utxos, pool)
    &&& claims_disjoint(pool)
}

/// The entries of the pool whose digest is none of `mined`, in their order.
pub open spec fn drop_mined(pool: Seq<PoolEntryView>, mined: Seq<crate::sha256::Hash>) -> Seq<
    PoolEntryView,
> {
    pool.filter(|e: PoolEntryView| !mined.contains(e.1.digest()))
}

/// A claimant found in a prefix of the pool is the first claimant of the
/// whole pool.
pub proof fn lemma_first_claimant_prefix(pool: Seq<PoolEntryView>, key: crate::sha256::Hash, n: int)
    requires
        0 <= n <= pool.len(),
        first_claimant(pool.take(n), key) < n,
    ensures
        first_claimant(pool, key) == first_claimant(pool.take(n), key),
    decreases pool.len(),
{
    if n == pool.len() {
        assert(pool.take(n) =~= pool);
    } else {
        assert(pool.drop_last().take(n) =~= pool.take(n));
        lemma_first_claimant_prefix(pool.drop_last(), key, n);
    }
}

/// Marking one key more is setting the mark under that key.
pub proof fn lemma_mark_all_push(
    utxos: UtxoMap,
    refs: Seq<crate::sha256::Hash>,
    key: crate::sha256::Hash,
    pending: bool,
)
    ensures
        mark_all(utxos, refs.push(key), pending) == spec_set_pending(
            mark_all(utxos, refs, pending),
            key,
            pending,
        ),
{
    let more = refs.push(key);
    assert(more[refs.len() as int] == key);
    assert forall|k: crate::sha256::Hash| more.contains(k) == (refs.contains(k) || k == key) by {
        if refs.contains(k) {
            let i = choose|i: int| 0 <= i < refs.len() && refs[i] == k;
            assert(more[i] == k);
        }
        if more.contains(k) && k != key {
            let i = choose|i: int| 0 <= i < more.len() && more[i] == k;
            assert(refs[i] == k);
        }
    }
    assert(mark_all(utxos, more, pending) =~= spec_set_pending(
        mark_all(utxos, refs, pending),
        key,
        pending,
    ));
}

/// Marking the keys of `a` and then those of `b` is marking those of
/// `a + b`.
pub proof fn lemma_mark_all_concat(
    utxos: UtxoMap,
    a: Seq<crate::sha256::Hash>,
    b: Seq<crate::sha256::Hash>,
    pending: bool,
)
    ensures
        mark_all(utxos, a + b, pending) == mark_all(mark_all(utxos, a, pending), b, pending),
{
    let both = a + b;
    assert forall|k: crate::sha256::Hash| both.contains(k) == (a.contains(k) || b.contains(k)) by {
        lemma_contains_concat(a, b, k);
    }
    assert(mark_all(utxos, both, pending) =~= mark_all(mark_all(utxos, a, pending), b, pending));
}

/// Marks change no key and no output.
pub proof fn lemma_mark_all_keeps_outputs(utxos: UtxoMap, refs: Seq<crate::sha256::Hash>, pending: bool)
    ensures
        mark_all(utxos, refs, pending).dom() == utxos.dom(),
        forall|k: crate::sha256::Hash|
            utxos.contains_key(k) ==> (#[trigger] mark_all(utxos, refs, pending)[k]).1 == utxos[k].1,
{
    assert(mark_all(utxos, refs, pending).dom() =~= utxos.dom());
}

/// A key is among the keys of `a + b` where it is among those of `a` or
/// those of `b`.
pub proof fn lemma_contains_concat(
    a: Seq<crate::sha256::Hash>,
    b: Seq<crate::sha256::Hash>,
    key: crate::sha256::Hash,
)
    ensures
        (a + b).contains(key) == (a.contains(key) || b.contains(key)),
{
    let both = a + b;
    if a.contains(key) {
        let i = choose|i: int| 0 <= i < a.len() && a[i] == key;
        assert(both[i] == key);
    }
    if b.contains(key) {
        let i = choose|i: int| 0 <= i < b.len() && b[i] == key;
        assert(both[a.len() + i] == key);
    }
    if both.contains(key) {
        let i = choose|i: int| 0 <= i < both.len() && both[i] == key;
        if i < a.len() {
            assert(a[i] == key);
        } else {
            assert(b[i - a.len()] == key);
        }
    }
}

/// The keys of the pool are the keys that an entry claims.
pub proof fn lemma_pool_refs_contains(pool: Seq<PoolEntryView>, key: crate::sha256::Hash)
    ensures
        pool_refs(pool).contains(key) == (claimants(pool, key) > 0),
    decreases pool.len(),
{
    if pool.len() > 0 {
        lemma_pool_refs_contains(pool.drop_last(), key);
        lemma_contains_concat(pool_refs(pool.drop_last()), input_refs(pool.last().1.inputs), key);
    }
}

/// An entry more is a claimant more where it claims the key.
pub proof fn lemma_claimants_push(pool: Seq<PoolEntryView>, e: PoolEntryView, key: crate::sha256::Hash)
    ensures
        claimants(pool.push(e), key) == claimants(pool, key) + if claims(e.1, key) {
            1nat
        } else {
            0nat
        },
{
    assert(pool.push(e).drop_last() =~= pool);
}

/// The same of an entry that is put in at any place.
pub proof fn lemma_claimants_insert(
    pool: Seq<PoolEntryView>,
    at: int,
    e: PoolEntryView,
    key: crate::sha256::Hash,
)
    requires
        0 <= at <= pool.len(),
    ensures
        claimants(pool.insert(at, e), key) == claimants(pool, key) + if claims(e.1, key) {
            1nat
        } else {
            0nat
        },
    decreases pool.len(),
{
    if at == pool.len() {
        assert(pool.insert(at, e) =~= pool.push(e));
        lemma_claimants_push(pool, e, key);
    } else {
        let out = pool.insert(at, e);
        assert(out.drop_last() =~= pool.drop_last().insert(at, e));
        assert(out.last() == pool.last());
        lemma_claimants_insert(pool.drop_last(), at, e, key);
    }
}

/// An entry less is a claimant less where it claimed the key.
pub proof fn lemma_claimants_remove(pool: Seq<PoolEntryView>, at: int, key: crate::sha256::Hash)
    requires
        0 <= at < pool.len(),
    ensures
        claimants(pool, key) == claimants(pool.remove(at), key) + if claims(pool[at].1, key) {
            1nat
        } else {
            0nat
        },
    decreases pool.len(),
{
    if at == pool.len() - 1 {
        assert(pool.remove(at) =~= pool.drop_last());
    } else {
        let out = pool.remove(at);
        assert(out.drop_last() =~= pool.drop_last().remove(at));
        assert(out.last() == pool.last());
        assert(pool.drop_last()[at] == pool[at]);
        lemma_claimants_remove(pool.drop_last(), at, key);
    }
}

/// The claimants of a key are those among the entries that are kept and
/// those among the entries that are dropped.
pub proof fn lemma_claimants_filter(
    pool: Seq<PoolEntryView>,
    keep: spec_fn(PoolEntryView) -> bool,
    drop: spec_fn(PoolEntryView) -> bool,
    key: crate::sha256::Hash,
)
    requires
        forall|e: PoolEntryView| #[trigger] drop(e) == !keep(e),
    ensures
        claimants(pool.filter(keep), key) + claimants(pool.filter(drop), key) == claimants(
            pool,
            key,
        ),
    decreases pool.len(),
{
    reveal(Seq::filter);
    if pool.len() > 0 {
        lemma_claimants_filter(pool.drop_last(), keep, drop, key);
        let e = pool.last();
        assert(drop(e) == !keep(e));
        if keep(e) {
            lemma_claimants_push(pool.drop_last().filter(keep), e, key);
        } else {
            lemma_claimants_push(pool.drop_last().filter(drop), e, key);
        }
    }
}

/// Sorting changes no claim.
pub proof fn lemma_claimants_sort(pool: Seq<PoolEntryView>, utxos: UtxoMap, key: crate::sha256::Hash)
    ensures
        claimants(sort_by_fee(pool, utxos), key) == claimants(pool, key),
    decreases pool.len(),
{
    if pool.len() > 0 {
        lemma_claimants_sort(pool.drop_last(), utxos, key);
        let sorted = sort_by_fee(pool.drop_last(), utxos);
        let at = insertion_point(sorted, fee_of(pool.last().1, utxos), utxos);
        lemma_insertion_point(sorted, fee_of(pool.last().1, utxos), utxos);
        lemma_claimants_insert(sorted, at, pool.last(), key);
    }
}

/// A key has a first claimant exactly where it has a claimant.
pub proof fn lemma_first_claimant_claims(pool: Seq<PoolEntryView>, key: crate::sha256::Hash)
    ensures
        0 <= first_claimant(pool, key) <= pool.len(),
        (first_claimant(pool, key) < pool.len()) == (claimants(pool, key) > 0),
        first_claimant(pool, key) < pool.len() ==> claims(pool[first_claimant(pool, key)].1, key),
    decreases pool.len(),
{
    if pool.len() > 0 {
        lemma_first_claimant_claims(pool.drop_last(), key);
        let before = first_claimant(pool.drop_last(), key);
        if before < pool.len() - 1 {
            assert(pool.drop_last()[before] == pool[before]);
        }
    }
}

/// Making room for a key keeps the marks and the pool in agreement, leaves
/// the key without claimant, and adds no claimant to any key.
pub proof fn lemma_release_keeps_consistent(s: PoolState, key: crate::sha256::Hash)
    requires
        pool_consistent(s.utxos, s.pool),
    ensures
        pool_consistent(release(s, key).utxos, release(s, key).pool),
        release(s, key).utxos.dom() == s.utxos.dom(),
        s.utxos.contains_key(key) ==> claimants(release(s, key).pool, key) == 0,
        forall|k: crate::sha256::Hash|
            claimants(release(s, key).pool, k) <= #[trigger] claimants(s.pool, k),
{
    let after = release(s, key);
    if s.utxos.contains_key(key) && s.utxos[key].0 {
        assert(claimants(s.pool, key) > 0);
        lemma_first_claimant_claims(s.pool, key);
        let at = first_claimant(s.pool, key);
        let evicted = s.pool[at].1;
        let refs = input_refs(evicted.inputs);
        assert(after.utxos.dom() =~= s.utxos.dom());
        assert forall|k: crate::sha256::Hash|
            (#[trigger] claimants(after.pool, k)) <= claimants(s.pool, k) && (
            after.utxos.contains_key(k) ==> after.utxos[k].0 == (claimants(after.pool, k) > 0)) by {
            lemma_claimants_remove(s.pool, at, k);
            assert(claimants(s.pool, k) <= 1);
        }
        lemma_claimants_remove(s.pool, at, key);
        assert(claimants(s.pool, key) <= 1);
    } else if s.utxos.contains_key(key) {
        assert(claimants(s.pool, key) == 0);
    }
}

/// Making room for keys of unspent outputs keeps the marks and the pool in
/// agreement, leaves each of the keys without claimant, and adds no
/// claimant to any key.
pub proof fn lemma_release_all_keeps_consistent(s: PoolState, refs: Seq<crate::sha256::Hash>)
    requires
        pool_consistent(s.utxos, s.pool),
        refs_resolved(refs, s.utxos),
    ensures
        pool_consistent(release_all(s, refs).utxos, release_all(s, refs).pool),
        release_all(s, refs).utxos.dom() == s.utxos.dom(),
        forall|i: int|
            0 <= i < refs.len() ==> claimants(release_all(s, refs).pool, #[trigger] refs[i]) == 0,
        forall|k: crate::sha256::Hash|
            claimants(release_all(s, refs).pool, k) <= #[trigger] claimants(s.pool, k),
    decreases refs.len(),
{
    if refs.len() > 0 {
        let head = refs.drop_last();
        assert forall|i: int| 0 <= i < head.len() implies s.utxos.contains_key(
            #[trigger] head[i],
        ) by {
            assert(head[i] == refs[i]);
        }
        lemma_release_all_keeps_consistent(s, head);
        let before = release_all(s, head);
        let key = refs.last();
        assert(key == refs[refs.len() - 1]);
        lemma_release_keeps_consistent(before, key);
        let after = release(before, key);
        assert forall|i: int| 0 <= i < refs.len() implies claimants(after.pool, #[trigger] refs[i])
            == 0 by {
            if i < refs.len() - 1 {
                assert(head[i] == refs[i]);
                assert(claimants(before.pool, head[i]) == 0);
                assert(claimants(after.pool, refs[i]) <= claimants(before.pool, refs[i]));
            }
        }
        assert forall|k: crate::sha256::Hash|
            claimants(after.pool, k) <= #[trigger] claimants(s.pool, k) by {
            assert(claimants(after.pool, k) <= claimants(before.pool, k));
            assert(claimants(before.pool, k) <= claimants(s.pool, k));
        }
    }
}

/// Dropping the claimants of a key from a pool in which none claims it
/// drops nothing.
pub proof fn lemma_filter_without_claimant(pool: Seq<PoolEntryView>, key: crate::sha256::Hash)
    requires
        claimants(pool, key) == 0,
    ensures
        pool.filter(|e: PoolEntryView| !claims(e.1, key)) == pool,
    decreases pool.len(),
{
    reveal(Seq::filter);
    let keep = |e: PoolEntryView| !claims(e.1, key);
    if pool.len() > 0 {
        lemma_filter_without_claimant(pool.drop_last(), key);
        assert(pool.drop_last().push(pool.last()) =~= pool);
    } else {
        assert(pool.filter(keep) =~= pool);
    }
}

/// Dropping the claimants of a key from a pool in which one entry claims
/// it is taking out the first claimant.
pub proof fn lemma_filter_one_claimant(pool: Seq<PoolEntryView>, key: crate::sha256::Hash)
    requires
        claimants(pool, key) == 1,
    ensures
        0 <= first_claimant(pool, key) < pool.len(),
        pool.filter(|e: PoolEntryView| !claims(e.1, key)) == pool.remove(first_claimant(pool, key)),
    decreases pool.len(),
{
    reveal(Seq::filter);
    let keep = |e: PoolEntryView| !claims(e.1, key);
    let head = pool.drop_last();
    lemma_first_claimant_claims(head, key);
    if claims(pool.last().1, key) {
        lemma_filter_without_claimant(head, key);
        assert(pool.remove(pool.len() - 1) =~= head);
    } else {
        lemma_filter_one_claimant(head, key);
        let at = first_claimant(head, key);
        assert(pool.remove(at) =~= head.remove(at).push(pool.last()));
    }
}

/// Keeping what passes one test and then what passes another is keeping
/// what passes both.
pub proof fn lemma_filter_twice(
    pool: Seq<PoolEntryView>,
    first: spec_fn(PoolEntryView) -> bool,
    second: spec_fn(PoolEntryView) -> bool,
    both: spec_fn(PoolEntryView) -> bool,
)
    requires
        forall|i: int|
            0 <= i < pool.len() ==> both(#[trigger] pool[i]) == (first(pool[i]) && second(pool[i])),
    ensures
        pool.filter(first).filter(second) == pool.filter(both),
    decreases pool.len(),
{
    reveal(Seq::filter);
    if pool.len() > 0 {
        let head = pool.drop_last();
        assert forall|i: int| 0 <= i < head.len() implies both(#[trigger] head[i]) == (first(head[i])
            && second(head[i])) by {
            assert(head[i] == pool[i]);
        }
        lemma_filter_twice(head, first, second, both);
        let e = pool.last();
        assert(e == pool[pool.len() - 1]);
        if first(e) {
            assert(head.filter(first).push(e).drop_last() =~= head.filter(first));
        }
    } else {
        assert(pool.filter(first) =~= pool);
    }
}

/// A transaction claims one of the keys and `key` where it claims one of
/// the keys or `key`.
pub proof fn lemma_claims_any_push(
    tx: TransactionView,
    keys: Seq<crate::sha256::Hash>,
    key: crate::sha256::Hash,
)
    ensures
        claims_any(tx, keys.push(key)) == (claims_any(tx, keys) || claims(tx, key)),
{
    let more = keys.push(key);
    assert(more[keys.len() as int] == key);
    if claims_any(tx, keys) {
        let i = choose|i: int| 0 <= i < keys.len() && claims(tx, #[trigger] keys[i]);
        assert(more[i] == keys[i]);
    }
    if claims_any(tx, more) {
        let i = choose|i: int| 0 <= i < more.len() && claims(tx, #[trigger] more[i]);
        if i < keys.len() {
            assert(more[i] == keys[i]);
        }
    }
}

/// The claimants of a key are those among the rivals and those among the
/// bystanders.
pub proof fn lemma_claimants_split(
    pool: Seq<PoolEntryView>,
    keys: Seq<crate::sha256::Hash>,
    key: crate::sha256::Hash,
)
    ensures
        claimants(rivals(pool, keys), key) + claimants(bystanders(pool, keys), key) == claimants(
            pool,
            key,
        ),
{
    lemma_claimants_filter(
        pool,
        |e: PoolEntryView| claims_any(e.1, keys),
        |e: PoolEntryView| !claims_any(e.1, keys),
        key,
    );
}

/// Where the marks and the pool agree, making room for the keys of unspent
/// outputs one after the other comes to this: the entries that claim one
/// of the keys leave the pool, and the marks of all their inputs are
/// cleared.
pub proof fn lemma_release_all_is_made_room(s: PoolState, refs: Seq<crate::sha256::Hash>)
    requires
        pool_consistent(s.utxos, s.pool),
        refs_resolved(refs, s.utxos),
    ensures
        release_all(s, refs) == made_room(s, refs),
    decreases refs.len(),
{
    reveal(Seq::filter);
    if refs.len() == 0 {
        assert(bystanders(s.pool, refs) =~= s.pool) by {
            lemma_filter_all(s.pool, |e: PoolEntryView| !claims_any(e.1, refs));
        }
        assert(rivals(s.pool, refs) =~= Seq::<PoolEntryView>::empty()) by {
            lemma_filter_none(s.pool, |e: PoolEntryView| claims_any(e.1, refs));
        }
        assert(made_room(s, refs).utxos =~= s.utxos);
    } else {
        let head = refs.drop_last();
        let key = refs.last();
        assert(key == refs[refs.len() - 1]);
        assert(refs =~= head.push(key));
        assert forall|i: int| 0 <= i < head.len() implies s.utxos.contains_key(
            #[trigger] head[i],
        ) by {
            assert(head[i] == refs[i]);
        }
        lemma_release_all_is_made_room(s, head);
        lemma_release_all_keeps_consistent(s, head);
        let before = made_room(s, head);
        let after = release(before, key);
        let want = made_room(s, refs);
        let without = |e: PoolEntryView| !claims(e.1, key);
        assert(before.utxos.contains_key(key));
        assert(claimants(before.pool, key) <= 1);
        assert(before.utxos[key].0 == (claimants(before.pool, key) > 0));
        if before.utxos[key].0 {
            lemma_filter_one_claimant(before.pool, key);
        } else {
            lemma_filter_without_claimant(before.pool, key);
        }
        assert(after.pool == before.pool.filter(without));
        assert forall|i: int| 0 <= i < s.pool.len() implies !claims_any(
            (#[trigger] s.pool[i]).1,
            refs,
        ) == (!claims_any(s.pool[i].1, head) && without(s.pool[i])) by {
            lemma_claims_any_push(s.pool[i].1, head, key);
        }
        lemma_filter_twice(
            s.pool,
            |e: PoolEntryView| !claims_any(e.1, head),
            without,
            |e: PoolEntryView| !claims_any(e.1, refs),
        );
        assert(after.pool == want.pool);
        assert forall|k: crate::sha256::Hash| after.utxos.contains_key(k) implies after.utxos[k]
            == want.utxos[k] by {
            lemma_claimants_split(s.pool, head, k);
            lemma_claimants_split(s.pool, refs, k);
            lemma_pool_refs_contains(rivals(s.pool, head), k);
            lemma_pool_refs_contains(rivals(s.pool, refs), k);
            if before.utxos[key].0 {
                lemma_claimants_remove(before.pool, first_claimant(before.pool, key), k);
            }
        }
        assert(after.utxos =~= want.utxos);
    }
}

/// A test that every entry passes drops nothing.
pub proof fn lemma_filter_all(pool: Seq<PoolEntryView>, keep: spec_fn(PoolEntryView) -> bool)
    requires
        forall|i: int| 0 <= i < pool.len() ==> keep(#[trigger] pool[i]),
    ensures
        pool.filter(keep) == pool,
    decreases pool.len(),
{
    reveal(Seq::filter);
    if pool.len() > 0 {
        let head = pool.drop_last();
        assert forall|i: int| 0 <= i < head.len() implies keep(#[trigger] head[i]) by {
            assert(head[i] == pool[i]);
        }
        lemma_filter_all(head, keep);
        assert(pool.last() == pool[pool.len() - 1]);
        assert(head.push(pool.last()) =~= pool);
    } else {
        assert(pool.filter(keep) =~= pool);
    }
}

/// A test that no entry passes keeps nothing.
pub proof fn lemma_filter_none(pool: Seq<PoolEntryView>, keep: spec_fn(PoolEntryView) -> bool)
    requires
        forall|i: int| 0 <= i < pool.len() ==> !keep(#[trigger] pool[i]),
    ensures
        pool.filter(keep) == Seq::<PoolEntryView>::empty(),
    decreases pool.len(),
{
    reveal(Seq::filter);
    if pool.len() > 0 {
        let head = pool.drop_last();
        assert forall|i: int| 0 <= i < head.len() implies !keep(#[trigger] head[i]) by {
            assert(head[i] == pool[i]);
        }
        lemma_filter_none(head, keep);
        assert(pool.last() == pool[pool.len() - 1]);
    } else {
        assert(pool.filter(keep) =~= pool);
    }
}

/// Marking the keys that the pool claims, on unspent outputs of which none
/// is marked, brings the marks and a pool without double claims into
/// agreement.
pub proof fn lemma_marking_claims_is_consistent(utxos: UtxoMap, pool: Seq<PoolEntryView>)
    requires
        forall|k: crate::sha256::Hash| utxos.contains_key(k) ==> !(#[trigger] utxos[k]).0,
        claims_disjoint(pool),
    ensures
        pool_consistent(mark_all(utxos, pool_refs(pool), true), pool),
{
    let marked = mark_all(utxos, pool_refs(pool), true);
    assert forall|key: crate::sha256::Hash| marked.contains_key(key) implies marked[key].0 == (
    #[trigger] claimants(pool, key) > 0) by {
        lemma_pool_refs_contains(pool, key);
        assert(!utxos[key].0);
    }
}

/// Dropping entries from a pool leaves no key with two claimants.
pub proof fn lemma_filter_keeps_disjoint(pool: Seq<PoolEntryView>, keep: spec_fn(PoolEntryView) -> bool)
    requires
        claims_disjoint(pool),
    ensures
        claims_disjoint(pool.filter(keep)),
{
    let drop = |e: PoolEntryView| !keep(e);
    assert forall|key: crate::sha256::Hash| #[trigger] claimants(pool.filter(keep), key) <= 1 by {
        lemma_claimants_filter(pool, keep, drop, key);
        assert(claimants(pool, key) <= 1);
    }
}

/// Marks change no value, so they change no fee.
pub proof fn lemma_marks_keep_values(
    utxos: UtxoMap,
    marked: Seq<crate::sha256::Hash>,
    pending: bool,
    refs: Seq<crate::sha256::Hash>,
)
    ensures
        refs_value(refs, mark_all(utxos, marked, pending)) == refs_value(refs, utxos),
    decreases refs.len(),
{
    if refs.len() > 0 {
        lemma_marks_keep_values(utxos, marked, pending, refs.drop_last());
    }
}

/// A sorted pool stays sorted when entries leave it.
pub proof fn lemma_filter_keeps_sorted(
    pool: Seq<PoolEntryView>,
    keep: spec_fn(PoolEntryView) -> bool,
    utxos: UtxoMap,
)
    requires
        sorted_by_fee(pool, utxos),
    ensures
        sorted_by_fee(pool.filter(keep), utxos),
        forall|i: int|
            0 <= i < pool.filter(keep).len() ==> pool.contains(#[trigger] pool.filter(keep)[i]),
    decreases pool.len(),
{
    reveal(Seq::filter);
    if pool.len() > 0 {
        let head = pool.drop_last();
        assert forall|i: int, j: int| 0 <= i <= j < head.len() implies fee_of(head[i].1, utxos)
            <= fee_of(head[j].1, utxos) by {
            assert(head[i] == pool[i] && head[j] == pool[j]);
        }
        lemma_filter_keeps_sorted(head, keep, utxos);
        let kept = head.filter(keep);
        let out = pool.filter(keep);
        assert forall|i: int| 0 <= i < out.len() implies pool.contains(#[trigger] out[i]) by {
            if i < kept.len() {
                assert(head.contains(kept[i]));
                let j = choose|j: int| 0 <= j < head.len() && head[j] == kept[i];
                assert(pool[j] == out[i]);
            } else {
                assert(pool[pool.len() - 1] == out[i]);
            }
        }
        assert forall|i: int, j: int| 0 <= i <= j < out.len() implies fee_of(out[i].1, utxos)
            <= fee_of(out[j].1, utxos) by {
            if j >= kept.len() && i < kept.len() {
                assert(head.contains(kept[i]));
                let k = choose|k: int| 0 <= k < head.len() && head[k] == kept[i];
                assert(pool[k] == out[i]);
                assert(fee_of(pool[k].1, utxos) <= fee_of(pool[pool.len() - 1].1, utxos));
            }
        }
    }
}

/// The order by fee looks at the values of the unspent outputs alone: a
/// pool that is sorted stays sorted when marks are set or cleared.
pub proof fn lemma_marks_keep_sorted(
    pool: Seq<PoolEntryView>,
    utxos: UtxoMap,
    marked: Seq<crate::sha256::Hash>,
    pending: bool,
)
    requires
        sorted_by_fee(pool, utxos),
    ensures
        sorted_by_fee(pool, mark_all(utxos, marked, pending)),
{
    let after = mark_all(utxos, marked, pending);
    assert forall|i: int, j: int| 0 <= i <= j < pool.len() implies fee_of(pool[i].1, after)
        <= fee_of(pool[j].1, after) by {
        lemma_marks_keep_values(utxos, marked, pending, input_refs(pool[i].1.inputs));
        lemma_marks_keep_values(utxos, marked, pending, input_refs(pool[j].1.inputs));
    }
}

/// What [`insertion_point`] finds: every entry from it on has a larger fee,
/// and the entry before it has not.
pub proof fn lemma_insertion_point(sorted: Seq<PoolEntryView>, fee: int, utxos: UtxoMap)
    ensures
        0 <= insertion_point(sorted, fee, utxos) <= sorted.len(),
        forall|k: int|
            insertion_point(sorted, fee, utxos) <= k < sorted.len() ==> fee_of(
                (#[trigger] sorted[k]).1,
                utxos,
            ) > fee,
        insertion_point(sorted, fee, utxos) > 0 ==> fee_of(
            sorted[insertion_point(sorted, fee, utxos) - 1].1,
            utxos,
        ) <= fee,
    decreases sorted.len(),
{
    if sorted.len() > 0 && fee_of(sorted.last().1, utxos) > fee {
        lemma_insertion_point(sorted.drop_last(), fee, utxos);
        let p = insertion_point(sorted.drop_last(), fee, utxos);
        assert forall|k: int| p <= k < sorted.len() implies fee_of((#[trigger] sorted[k]).1, utxos)
            > fee by {
            if k < sorted.len() - 1 {
                assert(sorted.drop_last()[k] == sorted[k]);
            }
        }
        if p > 0 {
            assert(sorted.drop_last()[p - 1] == sorted[p - 1]);
        }
    }
}

/// The pool sorted by fee is sorted by fee, and as long as the pool.
pub proof fn lemma_sort_by_fee_sorted(pool: Seq<PoolEntryView>, utxos: UtxoMap)
    ensures
        sorted_by_fee(sort_by_fee(pool, utxos), utxos),
        sort_by_fee(pool, utxos).len() == pool.len(),
    decreases pool.len(),
{
    if pool.len() > 0 {
        lemma_sort_by_fee_sorted(pool.drop_last(), utxos);
        let sorted = sort_by_fee(pool.drop_last(), utxos);
        let fee = fee_of(pool.last().1, utxos);
        let p = insertion_point(sorted, fee, utxos);
        lemma_insertion_point(sorted, fee, utxos);
        let out = sorted.insert(p, pool.last());
        assert forall|i: int, j: int| 0 <= i <= j < out.len() implies fee_of(out[i].1, utxos)
            <= fee_of(out[j].1, utxos) by {
            let i0 = if i < p { i } else { i - 1 };
            let j0 = if j < p { j } else { j - 1 };
            if i != p {
                assert(out[i] == sorted[i0]);
            }
            if j != p {
                assert(out[j] == sorted[j0]);
            }
            if i < p && j == p {
                assert(fee_of(sorted[i].1, utxos) <= fee_of(sorted[p - 1].1, utxos));
            }
        }
    }
}

/// Among the entries that pass a test, one that is put in behind all of
/// them comes last; one that does not pass the test does not show.
pub proof fn lemma_filter_insert(
    pool: Seq<PoolEntryView>,
    at: int,
    e: PoolEntryView,
    keep: spec_fn(PoolEntryView) -> bool,
)
    requires
        0 <= at <= pool.len(),
        forall|k: int| at <= k < pool.len() ==> !keep(#[trigger] pool[k]),
    ensures
        pool.insert(at, e).filter(keep) == if keep(e) {
            pool.filter(keep).push(e)
        } else {
            pool.filter(keep)
        },
    decreases pool.len(),
{
    reveal(Seq::filter);
    if at == pool.len() {
        assert(pool.insert(at, e) =~= pool.push(e));
        assert(pool.push(e).drop_last() =~= pool);
    } else {
        let out = pool.insert(at, e);
        let head = pool.drop_last();
        assert(out.drop_last() =~= head.insert(at, e));
        assert(out.last() == pool.last());
        assert(pool.last() == pool[pool.len() - 1]);
        assert forall|k: int| at <= k < head.len() implies !keep(#[trigger] head[k]) by {
            assert(head[k] == pool[k]);
        }
        lemma_filter_insert(head, at, e, keep);
    }
}

/// Sorting by fee keeps the order of entries with the same fee: the
/// entries of any one fee stand in the sorted pool as they stand in the
/// pool.
pub proof fn lemma_sort_by_fee_stable(pool: Seq<PoolEntryView>, utxos: UtxoMap, fee: int)
    ensures
        sort_by_fee(pool, utxos).filter(|e: PoolEntryView| fee_of(e.1, utxos) == fee) == pool.filter(
            |e: PoolEntryView| fee_of(e.1, utxos) == fee,
        ),
    decreases pool.len(),
{
    reveal(Seq::filter);
    let same = |e: PoolEntryView| fee_of(e.1, utxos) == fee;
    if pool.len() > 0 {
        lemma_sort_by_fee_stable(pool.drop_last(), utxos, fee);
        let sorted = sort_by_fee(pool.drop_last(), utxos);
        let last = pool.last();
        let at = insertion_point(sorted, fee_of(last.1, utxos), utxos);
        lemma_insertion_point(sorted, fee_of(last.1, utxos), utxos);
        if same(last) {
            lemma_filter_insert(sorted, at, last, same);
        } else {
            lemma_filter_skips(sorted, at, last, same);
        }
    }
}

/// An entry that does not pass a test does not show among those that do,
/// wherever it is put in.
pub proof fn lemma_filter_skips(
    pool: Seq<PoolEntryView>,
    at: int,
    e: PoolEntryView,
    keep: spec_fn(PoolEntryView) -> bool,
)
    requires
        0 <= at <= pool.len(),
        !keep(e),
    ensures
        pool.insert(at, e).filter(keep) == pool.filter(keep),
    decreases pool.len(),
{
    reveal(Seq::filter);
    if at == pool.len() {
        assert(pool.insert(at, e) =~= pool.push(e));
        assert(pool.push(e).drop_last() =~= pool);
    } else {
        let out = pool.insert(at, e);
        let head = pool.drop_last();
        assert(out.drop_last() =~= head.insert(at, e));
        assert(out.last() == pool.last());
        lemma_filter_skips(head, at, e, keep);
    }
}

/// The pool sorted by fee holds the entries of the pool, each as often as
/// the pool does.
pub proof fn lemma_sort_by_fee_permutes(pool: Seq<PoolEntryView>, utxos: UtxoMap)
    ensures
        sort_by_fee(pool, utxos).to_multiset() == pool.to_multiset(),
    decreases pool.len(),
{
    broadcast use vstd::seq_lib::group_to_multiset_ensures;

    if pool.len() > 0 {
        lemma_sort_by_fee_permutes(pool.drop_last(), utxos);
        lemma_sort_by_fee_sorted(pool.drop_last(), utxos);
        let sorted = sort_by_fee(pool.drop_last(), utxos);
        let p = insertion_point(sorted, fee_of(pool.last().1, utxos), utxos);
        lemma_insertion_point(sorted, fee_of(pool.last().1, utxos), utxos);
        let left = sorted.subrange(0, p);
        let right = sorted.subrange(p, sorted.len() as int);
        assert(sorted =~= left + right);
        vstd::seq_lib::lemma_multiset_commutative(left, right);
        vstd::seq_lib::lemma_multiset_commutative(left.push(pool.last()), right);
        assert(pool =~= pool.drop_last().push(pool.last()));
        assert(sorted.insert(p, pool.last()).to_multiset() =~= pool.to_multiset());
    } else {
        assert(sort_by_fee(pool, utxos) =~= pool);
    }
}

} // verus!
