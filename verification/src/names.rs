//! A map from names to values that keeps its entries in order of arrival.

use vstd::prelude::*;
use vstd::string::*;

use crate::text::text_eq;

verus! {

/// The position of the last entry named `key` among the first `n`, or -1 where
/// there is none.
pub open spec fn position<V>(entries: Seq<(String, V)>, key: Seq<char>, n: nat) -> int
    decreases n,
{
    if n == 0 {
        -1
    } else if entries[n - 1].0@ == key {
        n - 1
    } else {
        position(entries, key, (n - 1) as nat)
    }
}

/// The value under `key` in the first `n` entries: the latest one counts.
pub open spec fn lookup<V>(entries: Seq<(String, V)>, key: Seq<char>, n: nat) -> Option<V> {
    let i = position(entries, key, n);
    if i >= 0 {
        Some(entries[i].1)
    } else {
        None
    }
}

pub proof fn lemma_position<V>(entries: Seq<(String, V)>, key: Seq<char>, n: nat)
    requires
        n <= entries.len(),
    ensures
        -1 <= position(entries, key, n) < n,
        position(entries, key, n) >= 0 ==> entries[position(entries, key, n)].0@ == key,
        forall|k: int| position(entries, key, n) < k < n ==> (#[trigger] entries[k]).0@ != key,
    decreases n,
{
    if n > 0 && entries[n - 1].0@ != key {
        lemma_position(entries, key, (n - 1) as nat);
    }
}

/// A position is known by what it means.
pub proof fn lemma_position_is<V>(entries: Seq<(String, V)>, key: Seq<char>, n: nat, p: int)
    requires
        n <= entries.len(),
        -1 <= p < n,
        p >= 0 ==> entries[p].0@ == key,
        forall|k: int| p < k < n ==> (#[trigger] entries[k]).0@ != key,
    ensures
        position(entries, key, n) == p,
    decreases n,
{
    if p < n - 1 {
        assert(entries[n - 1].0@ != key);
        lemma_position_is(entries, key, (n - 1) as nat, p);
    }
}

#[derive(Debug)]
pub struct NameMap<V> {
    pub entries: Vec<(String, V)>,
}

impl<V> NameMap<V> {
    /// The value under `key`, if there is one.
    pub open spec fn value(&self, key: Seq<char>) -> Option<V> {
        lookup(self.entries@, key, self.entries@.len())
    }

    pub fn new() -> (r: Self)
        ensures
            r.entries@ == Seq::<(String, V)>::empty(),
            forall|key: Seq<char>| r.value(key) is None,
    {
        NameMap { entries: Vec::new() }
    }

    pub fn len(&self) -> (r: usize)
        ensures
            r == self.entries@.len(),
    {
        self.entries.len()
    }

    fn find(&self, key: &str) -> (r: Option<usize>)
        ensures
            match r {
                Some(i) => i == position(self.entries@, key@, self.entries@.len()) && i
                    < self.entries@.len(),
                None => position(self.entries@, key@, self.entries@.len()) == -1,
            },
    {
        let mut i: usize = self.entries.len();
        while i > 0
            invariant
                i <= self.entries@.len(),
                position(self.entries@, key@, self.entries@.len()) == position(
                    self.entries@,
                    key@,
                    i as nat,
                ),
            decreases i,
        {
            i -= 1;
            if text_eq(self.entries[i].0.as_str(), key) {
                return Some(i);
            }
        }
        None
    }

    pub fn get(&self, key: &str) -> (r: Option<&V>)
        ensures
            match r {
                Some(v) => self.value(key@) == Some(*v),
                None => self.value(key@) is None,
            },
    {
        match self.find(key) {
            Some(i) => Some(&self.entries[i].1),
            None => None,
        }
    }

    /// Put `value` under `key`, in place of what was there.
    pub fn insert(&mut self, key: String, value: V)
        ensures
            final(self).value(key@) == Some(value),
            forall|other: Seq<char>| other != key@ ==> #[trigger] final(self).value(other) == old(
                self,
            ).value(other),
            final(self).entries@ == ({
                let i = position(old(self).entries@, key@, old(self).entries@.len());
                if i >= 0 {
                    old(self).entries@.update(i, (old(self).entries@[i].0, value))
                } else {
                    old(self).entries@.push((key, value))
                }
            }),
    {
        let ghost before = self.entries@;
        let ghost k = key@;
        proof {
            lemma_position(before, k, before.len());
        }
        match self.find(key.as_str()) {
            Some(i) => {
                let name = self.entries[i].0.clone();
                self.entries.set(i, (name, value));
                proof {
                    lemma_position_is(self.entries@, k, self.entries@.len(), i as int);
                }
            },
            None => {
                self.entries.push((key, value));
            },
        }
        proof {
            let after = self.entries@;
            assert forall|other: Seq<char>| other != k implies #[trigger] self.value(other)
                == lookup(before, other, before.len()) by {
                let p = position(before, other, before.len());
                lemma_position(before, other, before.len());
                lemma_position_is(after, other, after.len(), p);
            }
        }
    }
}

} // verus!
