//! The set of unspent outputs, each under the digest of the transaction
//! that created it.

use vstd::prelude::*;
use crate::types::transaction::{OutputView, TransactionOutput};

verus! {

/// An unspent output with its mark: `true` while a pending transaction has
/// reserved it.
pub type Utxo = (bool, TransactionOutput);

/// What a [`UtxoSet`] stands for: for each key, the mark and the output.
pub type UtxoMap = Map<crate::sha256::Hash, (bool, OutputView)>;

/// The map that a list of entries stands for; a later entry replaces an
/// earlier one with the same key.
pub closed spec fn entries_map(s: Seq<(crate::sha256::Hash, Utxo)>) -> UtxoMap
    decreases s.len(),
{
    if s.len() == 0 {
        Map::empty()
    } else {
        entries_map(s.drop_last()).insert(s.last().0, (s.last().1.0, s.last().1.1@))
    }
}

/// No key occurs twice.
pub closed spec fn distinct_keys(s: Seq<(crate::sha256::Hash, Utxo)>) -> bool {
    forall|i: int, j: int| 0 <= i < j < s.len() ==> s[i].0 != s[j].0
}

proof fn lemma_entries_dom(s: Seq<(crate::sha256::Hash, Utxo)>, k: crate::sha256::Hash)
    ensures
        entries_map(s).contains_key(k) <==> exists|i: int| 0 <= i < s.len() && s[i].0 == k,
    decreases s.len(),
{
    if s.len() > 0 {
        lemma_entries_dom(s.drop_last(), k);
        if entries_map(s).contains_key(k) {
            if s.last().0 == k {
                assert(s[s.len() - 1].0 == k);
            } else {
                let i = choose|i: int| 0 <= i < s.drop_last().len() && s.drop_last()[i].0 == k;
                assert(s[i].0 == k);
            }
        }
        if exists|i: int| 0 <= i < s.len() && s[i].0 == k {
            let i = choose|i: int| 0 <= i < s.len() && s[i].0 == k;
            if i < s.len() - 1 {
                assert(s.drop_last()[i].0 == k);
            }
        }
    }
}

proof fn lemma_entries_value(s: Seq<(crate::sha256::Hash, Utxo)>, i: int)
    requires
        distinct_keys(s),
        0 <= i < s.len(),
    ensures
        entries_map(s).contains_key(s[i].0),
        entries_map(s)[s[i].0] == (s[i].1.0, s[i].1.1@),
    decreases s.len(),
{
    if i < s.len() - 1 {
        assert(distinct_keys(s.drop_last())) by {
            assert forall|a: int, b: int| 0 <= a < b < s.drop_last().len() implies s.drop_last()[a].0
                != s.drop_last()[b].0 by {
                assert(s[a].0 != s[b].0);
            }
        }
        lemma_entries_value(s.drop_last(), i);
        assert(s[i].0 != s[s.len() - 1].0);
    }
}

proof fn lemma_entries_remove(s: Seq<(crate::sha256::Hash, Utxo)>, i: int)
    requires
        distinct_keys(s),
        0 <= i < s.len(),
    ensures
        distinct_keys(s.remove(i)),
        entries_map(s.remove(i)) == entries_map(s).remove(s[i].0),
    decreases s.len(),
{
    let r = s.remove(i);
    assert(distinct_keys(r)) by {
        assert forall|a: int, b: int| 0 <= a < b < r.len() implies r[a].0 != r[b].0 by {
            let a2 = if a < i { a } else { a + 1 };
            let b2 = if b < i { b } else { b + 1 };
            assert(s[a2].0 != s[b2].0);
        }
    }
    assert(distinct_keys(s.drop_last())) by {
        assert forall|a: int, b: int| 0 <= a < b < s.drop_last().len() implies s.drop_last()[a].0
            != s.drop_last()[b].0 by {
            assert(s[a].0 != s[b].0);
        }
    }
    if i == s.len() - 1 {
        assert(r =~= s.drop_last());
        lemma_entries_dom(s.drop_last(), s[i].0);
        if entries_map(s.drop_last()).contains_key(s[i].0) {
            let j = choose|j: int| 0 <= j < s.drop_last().len() && s.drop_last()[j].0 == s[i].0;
            assert(s[j].0 != s[i].0);
        }
        assert(entries_map(s.drop_last()) =~= entries_map(s).remove(s[i].0));
    } else {
        lemma_entries_remove(s.drop_last(), i);
        assert(r.drop_last() =~= s.drop_last().remove(i));
        assert(r.last() == s.last());
        assert(s[i].0 != s[s.len() - 1].0);
        assert(entries_map(r) =~= entries_map(s).remove(s[i].0));
    }
}

proof fn lemma_entries_push(s: Seq<(crate::sha256::Hash, Utxo)>, e: (crate::sha256::Hash, Utxo))
    requires
        distinct_keys(s),
        !entries_map(s).contains_key(e.0),
    ensures
        distinct_keys(s.push(e)),
        entries_map(s.push(e)) == entries_map(s).insert(e.0, (e.1.0, e.1.1@)),
{
    let p = s.push(e);
    assert(p.drop_last() =~= s);
    assert forall|a: int, b: int| 0 <= a < b < p.len() implies p[a].0 != p[b].0 by {
        if b == s.len() {
            lemma_entries_dom(s, e.0);
            assert(s[a].0 != e.0);
        } else {
            assert(s[a].0 != s[b].0);
        }
    }
}

/// The unspent outputs of a chain.
#[derive(Debug)]
pub struct UtxoSet {
    entries: Vec<(crate::sha256::Hash, Utxo)>,
}

impl View for UtxoSet {
    type V = UtxoMap;

    closed spec fn view(&self) -> UtxoMap {
        entries_map(self.entries@)
    }
}

impl UtxoSet {
    /// No key is held twice. Every set that this module hands out is well
    /// formed.
    pub closed spec fn wf(&self) -> bool {
        distinct_keys(self.entries@)
    }

    /// The empty set.
    pub fn new() -> (set: UtxoSet)
        ensures
            set.wf(),
            set@ == Map::<crate::sha256::Hash, (bool, OutputView)>::empty(),
    {
        UtxoSet { entries: Vec::new() }
    }

    fn index_of(&self, key: &crate::sha256::Hash) -> (r: Option<usize>)
        requires
            self.wf(),
        ensures
            r.is_some() == self@.contains_key(*key),
            r matches Some(i) ==> i < self.entries@.len() && self.entries@[i as int].0 == *key,
    {
        let mut i: usize = 0;
        while i < self.entries.len()
            invariant
                i <= self.entries@.len(),
                forall|j: int| 0 <= j < i ==> self.entries@[j].0 != *key,
            decreases self.entries@.len() - i,
        {
            if self.entries[i].0 == *key {
                proof {
                    lemma_entries_dom(self.entries@, *key);
                }
                return Some(i);
            }
            i += 1;
        }
        proof {
            lemma_entries_dom(self.entries@, *key);
        }
        None
    }

    /// Whether an output is recorded under `key`.
    pub fn contains_key(&self, key: &crate::sha256::Hash) -> (r: bool)
        requires
            self.wf(),
        ensures
            r == self@.contains_key(*key),
    {
        self.index_of(key).is_some()
    }

    /// The output recorded under `key`, with its mark.
    pub fn get(&self, key: &crate::sha256::Hash) -> (r: Option<&Utxo>)
        requires
            self.wf(),
        ensures
            r.is_some() == self@.contains_key(*key),
            r matches Some(e) ==> self@[*key] == (e.0, e.1@),
    {
        match self.index_of(key) {
            Some(i) => {
                proof {
                    lemma_entries_value(self.entries@, i as int);
                }
                Some(&self.entries[i].1)
            },
            None => None,
        }
    }

    /// Records `output` under `key` with the given mark, in place of what
    /// was recorded there.
    pub fn insert(&mut self, key: crate::sha256::Hash, pending: bool, output: TransactionOutput)
        requires
            old(self).wf(),
        ensures
            final(self).wf(),
            final(self)@ == old(self)@.insert(key, (pending, output@)),
    {
        match self.index_of(&key) {
            Some(i) => {
                proof {
                    lemma_entries_remove(self.entries@, i as int);
                }
                let _ = self.entries.remove(i);
            },
            None => {},
        }
        proof {
            lemma_entries_push(self.entries@, (key, (pending, output)));
            assert(old(self)@.remove(key).insert(key, (pending, output@)) =~= old(self)@.insert(
                key,
                (pending, output@),
            ));
        }
        self.entries.push((key, (pending, output)));
    }

    /// Drops what is recorded under `key`, if anything.
    pub fn remove(&mut self, key: &crate::sha256::Hash)
        requires
            old(self).wf(),
        ensures
            final(self).wf(),
            final(self)@ == old(self)@.remove(*key),
    {
        match self.index_of(key) {
            Some(i) => {
                proof {
                    lemma_entries_remove(self.entries@, i as int);
                }
                let _ = self.entries.remove(i);
            },
            None => {
                proof {
                    assert(old(self)@.remove(*key) =~= old(self)@);
                }
            },
        }
    }

    /// Sets the mark of the output recorded under `key`; does nothing where
    /// there is none.
    pub fn set_pending(&mut self, key: &crate::sha256::Hash, pending: bool)
        requires
            old(self).wf(),
        ensures
            final(self).wf(),
            final(self)@ == spec_set_pending(old(self)@, *key, pending),
    {
        match self.index_of(key) {
            Some(i) => {
                proof {
                    lemma_entries_remove(self.entries@, i as int);
                    lemma_entries_value(self.entries@, i as int);
                }
                let entry = self.entries.remove(i);
                let output = entry.1.1;
                proof {
                    lemma_entries_push(self.entries@, (*key, (pending, output)));
                    assert(old(self)@.remove(*key).insert(*key, (pending, output@)) =~= old(
                        self,
                    )@.insert(*key, (pending, output@)));
                }
                self.entries.push((*key, (pending, output)));
            },
            None => {},
        }
    }

    /// The number of outputs in the set.
    pub fn len(&self) -> (n: usize)
        requires
            self.wf(),
        ensures
            self@.dom().finite(),
            n == self@.dom().len(),
    {
        proof {
            lemma_entries_len(self.entries@);
        }
        self.entries.len()
    }

    /// The key of the `i`-th output, in no particular order.
    pub fn key_at(&self, i: usize) -> (key: crate::sha256::Hash)
        requires
            self.wf(),
            self@.dom().finite(),
            i < self@.dom().len(),
        ensures
            self@.contains_key(key),
    {
        proof {
            lemma_entries_len(self.entries@);
            lemma_entries_value(self.entries@, i as int);
        }
        self.entries[i].0
    }
}

impl Clone for UtxoSet {
    fn clone(&self) -> (r: Self)
        ensures
            r@ == self@,
            self.wf() ==> r.wf(),
    {
        let mut entries: Vec<(crate::sha256::Hash, Utxo)> = Vec::new();
        let mut i: usize = 0;
        while i < self.entries.len()
            invariant
                i <= self.entries@.len(),
                entries@.len() == i,
                forall|j: int| 0 <= j < i ==> entries@[j].0 == self.entries@[j].0,
                entries_map(entries@) == entries_map(self.entries@.take(i as int)),
            decreases self.entries@.len() - i,
        {
            let key = self.entries[i].0;
            let pending = self.entries[i].1.0;
            let output = self.entries[i].1.1.clone();
            let ghost before = entries@;
            entries.push((key, (pending, output)));
            proof {
                assert(entries@.drop_last() =~= before);
                assert(self.entries@.take(i + 1).drop_last() =~= self.entries@.take(i as int));
            }
            i += 1;
        }
        proof {
            assert(self.entries@.take(i as int) =~= self.entries@);
            if self.wf() {
                assert forall|a: int, b: int| 0 <= a < b < entries@.len() implies entries@[a].0
                    != entries@[b].0 by {
                    assert(self.entries@[a].0 != self.entries@[b].0);
                }
            }
        }
        UtxoSet { entries }
    }
}

/// The map with the mark under `key` set to `pending`; the same map where
/// it has no such key.
pub open spec fn spec_set_pending(m: UtxoMap, key: crate::sha256::Hash, pending: bool) -> UtxoMap {
    if m.contains_key(key) {
        m.insert(key, (pending, m[key].1))
    } else {
        m
    }
}

proof fn lemma_entries_len(s: Seq<(crate::sha256::Hash, Utxo)>)
    requires
        distinct_keys(s),
    ensures
        entries_map(s).dom().finite(),
        entries_map(s).dom().len() == s.len(),
    decreases s.len(),
{
    if s.len() > 0 {
        assert(distinct_keys(s.drop_last())) by {
            assert forall|a: int, b: int| 0 <= a < b < s.drop_last().len() implies s.drop_last()[a].0
                != s.drop_last()[b].0 by {
                assert(s[a].0 != s[b].0);
            }
        }
        lemma_entries_len(s.drop_last());
        lemma_entries_dom(s.drop_last(), s.last().0);
        if entries_map(s.drop_last()).contains_key(s.last().0) {
            let j = choose|j: int| 0 <= j < s.drop_last().len() && s.drop_last()[j].0 == s.last().0;
            assert(s[j].0 != s[s.len() - 1].0);
        }
        assert(entries_map(s).dom() =~= entries_map(s.drop_last()).dom().insert(s.last().0));
    }
}

} // verus!
