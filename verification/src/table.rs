//! A small map keyed by byte strings, backed by an association vector with
//! distinct keys, viewed as a mathematical `Map`.

use vstd::prelude::*;

use crate::header::bytes_eq;
use crate::header::copy_bytes;

verus! {

/// The map an association vector denotes; later entries would win, and the
/// well-formedness invariant keeps keys distinct.
pub open spec fn assoc_map<V>(es: Seq<(Vec<u8>, V)>) -> Map<Seq<u8>, V>
    decreases es.len(),
{
    if es.len() == 0 {
        Map::empty()
    } else {
        assoc_map(es.drop_last()).insert(es.last().0@, es.last().1)
    }
}

/// Distinct keys.
pub open spec fn assoc_wf<V>(es: Seq<(Vec<u8>, V)>) -> bool {
    forall|i: int, j: int| 0 <= i < j < es.len() ==> #[trigger] es[i].0@ != #[trigger] es[j].0@
}

pub proof fn lemma_assoc_contains<V>(es: Seq<(Vec<u8>, V)>, k: Seq<u8>)
    ensures
        assoc_map(es).contains_key(k) <==> exists|i: int| 0 <= i < es.len() && es[i].0@ == k,
    decreases es.len(),
{
    if es.len() == 0 {
    } else {
        lemma_assoc_contains(es.drop_last(), k);
        assert(forall|i: int| 0 <= i < es.len() - 1 ==> es.drop_last()[i] == es[i]);
        if assoc_map(es).contains_key(k) {
            if es.last().0@ == k {
                assert(es[es.len() - 1].0@ == k);
            } else {
                let i = choose|i: int| 0 <= i < es.drop_last().len() && es.drop_last()[i].0@ == k;
                assert(es[i].0@ == k);
            }
        }
        if exists|i: int| 0 <= i < es.len() && es[i].0@ == k {
            let i = choose|i: int| 0 <= i < es.len() && es[i].0@ == k;
            if i == es.len() - 1 {
                assert(assoc_map(es).contains_key(k));
            } else {
                assert(es.drop_last()[i].0@ == k);
            }
        }
    }
}

pub proof fn lemma_assoc_get<V>(es: Seq<(Vec<u8>, V)>, i: int)
    requires
        assoc_wf(es),
        0 <= i < es.len(),
    ensures
        assoc_map(es).contains_key(es[i].0@),
        assoc_map(es)[es[i].0@] == es[i].1,
    decreases es.len(),
{
    assert(forall|j: int| 0 <= j < es.len() - 1 ==> es.drop_last()[j] == es[j]);
    if i == es.len() - 1 {
    } else {
        assert(es[i].0@ != es.last().0@);
        lemma_assoc_get(es.drop_last(), i);
    }
}

pub proof fn lemma_assoc_remove<V>(es: Seq<(Vec<u8>, V)>, i: int)
    requires
        assoc_wf(es),
        0 <= i < es.len(),
    ensures
        assoc_map(es.remove(i)) == assoc_map(es).remove(es[i].0@),
        assoc_wf(es.remove(i)),
    decreases es.len(),
{
    es.remove_ensures(i);
    assert(forall|j: int| 0 <= j < es.len() - 1 ==> es.drop_last()[j] == es[j]);
    assert forall|a: int, b: int| 0 <= a < b < es.remove(i).len() implies #[trigger] es.remove(
        i,
    )[a].0@ != #[trigger] es.remove(i)[b].0@ by {
        let a0 = if a < i {
            a
        } else {
            a + 1
        };
        let b0 = if b < i {
            b
        } else {
            b + 1
        };
        assert(es.remove(i)[a] == es[a0]);
        assert(es.remove(i)[b] == es[b0]);
    }
    if i == es.len() - 1 {
        assert(es.remove(i) =~= es.drop_last());
        lemma_assoc_contains(es.drop_last(), es[i].0@);
        assert(forall|j: int| 0 <= j < es.len() - 1 ==> es[j].0@ != es[i].0@);
        assert(!assoc_map(es.drop_last()).contains_key(es[i].0@));
        assert(assoc_map(es).remove(es[i].0@) =~= assoc_map(es.drop_last()));
    } else {
        lemma_assoc_remove(es.drop_last(), i);
        assert(es.remove(i).drop_last() =~= es.drop_last().remove(i));
        assert(es.remove(i).last() == es.last());
        assert(assoc_map(es.remove(i)) == assoc_map(es.drop_last().remove(i)).insert(
            es.last().0@,
            es.last().1,
        ));
        assert(es.drop_last()[i] == es[i]);
        assert(es[i].0@ != es.last().0@);
        assert(assoc_map(es.drop_last()).remove(es[i].0@).insert(es.last().0@, es.last().1)
            =~= assoc_map(es.drop_last()).insert(es.last().0@, es.last().1).remove(es[i].0@));
    }
}

/// A map from byte-string keys to values, with insertion untouched by
/// lookups and distinct keys throughout.
pub struct Table<V> {
    pub entries: Vec<(Vec<u8>, V)>,
}

impl<V> View for Table<V> {
    type V = Map<Seq<u8>, V>;

    open spec fn view(&self) -> Map<Seq<u8>, V> {
        assoc_map(self.entries@)
    }
}

impl<V> Table<V> {
    /// Distinct keys.
    pub open spec fn wf(&self) -> bool {
        assoc_wf(self.entries@)
    }

    /// An empty table.
    pub fn new() -> (r: Table<V>)
        ensures
            r@ == Map::<Seq<u8>, V>::empty(),
            r.wf(),
            r.entries@.len() == 0,
    {
        Table { entries: Vec::new() }
    }

    /// The index of the entry keyed `k`, if any.
    fn index_of(&self, k: &Vec<u8>) -> (r: Option<usize>)
        ensures
            (match r {
                Option::Some(i) => i < self.entries@.len() && self.entries@[i as int].0@ == k@,
                Option::None => forall|i: int|
                    0 <= i < self.entries@.len() ==> #[trigger] self.entries@[i].0@ != k@,
            }),
    {
        let mut i: usize = 0;
        while i < self.entries.len()
            invariant
                i <= self.entries@.len(),
                forall|j: int| 0 <= j < i ==> #[trigger] self.entries@[j].0@ != k@,
            decreases self.entries@.len() - i,
        {
            if bytes_eq(&self.entries[i].0, k) {
                return Some(i);
            }
            i = i + 1;
        }
        None
    }

    /// Does the table hold `k`?
    pub fn contains_key(&self, k: &Vec<u8>) -> (r: bool)
        ensures
            r <==> self@.contains_key(k@),
    {
        proof {
            lemma_assoc_contains(self.entries@, k@);
        }
        match self.index_of(k) {
            Some(_) => true,
            None => false,
        }
    }

    /// Inserts a fresh key.
    pub fn insert(&mut self, k: Vec<u8>, v: V)
        requires
            old(self).wf(),
            !old(self)@.contains_key(k@),
        ensures
            final(self)@ == old(self)@.insert(k@, v),
            final(self).wf(),
            final(self).entries@.len() == old(self).entries@.len() + 1,
    {
        proof {
            lemma_assoc_contains(self.entries@, k@);
        }
        let ghost kv = k@;
        let ghost pre = self.entries@;
        self.entries.push((k, v));
        proof {
            assert(self.entries@.drop_last() =~= pre);
            assert(self.entries@.last().0@ == kv);
            assert forall|i: int, j: int|
                0 <= i < j < self.entries@.len() implies #[trigger] self.entries@[i].0@
                != #[trigger] self.entries@[j].0@ by {
                if j == self.entries@.len() - 1 {
                    assert(self.entries@[i] == pre[i]);
                } else {
                    assert(self.entries@[i] == pre[i]);
                    assert(self.entries@[j] == pre[j]);
                }
            }
        }
    }

    /// Binds `k` to `v`, replacing any earlier binding.
    pub fn set(&mut self, k: Vec<u8>, v: V)
        requires
            old(self).wf(),
        ensures
            final(self)@ == old(self)@.insert(k@, v),
            final(self).wf(),
    {
        let _ = self.remove(&k);
        self.insert(k, v);
        proof {
            assert(old(self)@.remove(k@).insert(k@, v) =~= old(self)@.insert(k@, v));
        }
    }

    /// Removes the entry keyed `k` and hands its value out, or reports that
    /// no entry holds that key.
    pub fn remove(&mut self, k: &Vec<u8>) -> (r: Option<V>)
        requires
            old(self).wf(),
        ensures
            final(self).wf(),
            (match r {
                Option::Some(v) => old(self)@.contains_key(k@) && v == old(self)@[k@]
                    && final(self)@ == old(self)@.remove(k@)
                    && final(self).entries@.len() == old(self).entries@.len() - 1,
                Option::None => !old(self)@.contains_key(k@) && *final(self) == *old(self),
            }),
    {
        proof {
            lemma_assoc_contains(self.entries@, k@);
        }
        match self.index_of(k) {
            None => None,
            Some(i) => {
                proof {
                    lemma_assoc_get(self.entries@, i as int);
                    lemma_assoc_remove(self.entries@, i as int);
                }
                let (_, v) = self.entries.remove(i);
                Some(v)
            },
        }
    }

    /// The keys, copied out, in entry order.
    pub fn keys(&self) -> (r: Vec<Vec<u8>>)
        ensures
            r@.len() == self.entries@.len(),
            forall|i: int| 0 <= i < r@.len() ==> #[trigger] r@[i]@ == self.entries@[i].0@,
            forall|i: int| 0 <= i < r@.len() ==> self@.contains_key(#[trigger] r@[i]@),
    {
        let mut out: Vec<Vec<u8>> = Vec::new();
        let mut i: usize = 0;
        while i < self.entries.len()
            invariant
                i <= self.entries@.len(),
                out@.len() == i,
                forall|j: int| 0 <= j < i ==> #[trigger] out@[j]@ == self.entries@[j].0@,
            decreases self.entries@.len() - i,
        {
            out.push(copy_bytes(&self.entries[i].0));
            i = i + 1;
        }
        proof {
            assert forall|i2: int| 0 <= i2 < out@.len() implies self@.contains_key(
                #[trigger] out@[i2]@,
            ) by {
                lemma_assoc_contains(self.entries@, out@[i2]@);
                assert(self.entries@[i2].0@ == out@[i2]@);
            }
        }
        out
    }
}

} // verus!
