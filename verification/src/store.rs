//! The shared key-value store: a mapping from binary keys to binary values,
//! keys unique and kept in insertion order. Its mathematical view is the
//! map from key bytes to value bytes.
use vstd::prelude::*;
use vstd::pervasive::VecAdditionalExecFns;
use std::collections::VecDeque;

use crate::text::bytes_eq;
use crate::types::{BulkString, RespValue, SpecValue, views_of, bulks_of};

verus! {

/// The map denoted by an association list, later entries winning.
pub open spec fn store_map(s: Seq<(BulkString, BulkString)>) -> Map<Seq<u8>, Seq<u8>>
    decreases s.len(),
{
    if s.len() == 0 {
        Map::empty()
    } else {
        store_map(s.drop_last()).insert(s.last().0@, s.last().1@)
    }
}

/// No two entries share a key.
pub open spec fn unique_keys(s: Seq<(BulkString, BulkString)>) -> bool {
    forall|i: int, j: int| 0 <= i < j < s.len() ==> (#[trigger] s[i]).0@ != (#[trigger] s[j]).0@
}

/// With unique keys, the map contains exactly the listed keys, each bound
/// to its entry's value.
proof fn lemma_store_lookup(s: Seq<(BulkString, BulkString)>, k: Seq<u8>)
    requires
        unique_keys(s),
    ensures
        store_map(s).contains_key(k) <==> (exists|i: int|
            0 <= i < s.len() && (#[trigger] s[i]).0@ == k),
        forall|i: int|
            0 <= i < s.len() && (#[trigger] s[i]).0@ == k ==> store_map(s)[k] == s[i].1@,
    decreases s.len(),
{
    if s.len() > 0 {
        let d = s.drop_last();
        assert(unique_keys(d)) by {
            assert(forall|i: int| 0 <= i < d.len() ==> d[i] == s[i]);
        }
        lemma_store_lookup(d, k);
        let last = s.last();
        if last.0@ == k {
            assert(s[s.len() - 1].0@ == k);
        } else {
            assert(forall|i: int| 0 <= i < d.len() ==> d[i] == s[i]);
            if store_map(s).contains_key(k) {
                let i = choose|i: int| 0 <= i < d.len() && (#[trigger] d[i]).0@ == k;
                assert(s[i].0@ == k);
            }
            if exists|i: int| 0 <= i < s.len() && (#[trigger] s[i]).0@ == k {
                let i = choose|i: int| 0 <= i < s.len() && (#[trigger] s[i]).0@ == k;
                assert(i < s.len() - 1);
                assert(d[i].0@ == k);
            }
        }
    }
}

/// Replacing the value at one entry is insertion at its key.
proof fn lemma_store_update(s: Seq<(BulkString, BulkString)>, i: int, e: (BulkString, BulkString))
    requires
        unique_keys(s),
        0 <= i < s.len(),
        e.0@ == s[i].0@,
    ensures
        store_map(s.update(i, e)) == store_map(s).insert(e.0@, e.1@),
        unique_keys(s.update(i, e)),
    decreases s.len(),
{
    let u = s.update(i, e);
    assert(unique_keys(u)) by {
        assert(forall|j: int| 0 <= j < s.len() ==> (#[trigger] u[j]).0@ == s[j].0@);
    }
    if i == s.len() - 1 {
        assert(u.drop_last() =~= s.drop_last());
        assert(u.last() == e);
        assert(store_map(u) == store_map(s.drop_last()).insert(e.0@, e.1@));
        assert(store_map(s) == store_map(s.drop_last()).insert(s.last().0@, s.last().1@));
        assert(store_map(s).insert(e.0@, e.1@) =~= store_map(s.drop_last()).insert(e.0@, e.1@));
    } else {
        let d = s.drop_last();
        assert(unique_keys(d)) by {
            assert(forall|j: int| 0 <= j < d.len() ==> d[j] == s[j]);
        }
        assert(u.drop_last() =~= d.update(i, e));
        assert(u.last() == s.last());
        lemma_store_update(d, i, e);
        assert(store_map(u) == store_map(d).insert(e.0@, e.1@).insert(s.last().0@, s.last().1@));
        assert(e.0@ != s.last().0@) by {
            assert(s[i].0@ != s[s.len() - 1].0@);
        }
        assert(store_map(d).insert(e.0@, e.1@).insert(s.last().0@, s.last().1@) =~= store_map(
            d,
        ).insert(s.last().0@, s.last().1@).insert(e.0@, e.1@));
    }
}

/// The shared store. One instance serves every connection; the caller
/// guards it with mutual exclusion and each command's execution reads or
/// mutates it atomically.
pub struct Store {
    entries: Vec<(BulkString, BulkString)>,
}

impl View for Store {
    type V = Map<Seq<u8>, Seq<u8>>;

    closed spec fn view(&self) -> Map<Seq<u8>, Seq<u8>> {
        store_map(self.entries@)
    }
}

impl Store {
    /// Keys never repeat among the entries.
    pub closed spec fn wf(&self) -> bool {
        unique_keys(self.entries@)
    }

    /// The keys in the order they were first inserted.
    pub closed spec fn keys_in_order(&self) -> Seq<Seq<u8>> {
        Seq::new(self.entries@.len(), |i: int| self.entries@[i].0@)
    }

    /// An empty store.
    pub fn new() -> (r: Store)
        ensures
            r.wf(),
            r@ == Map::<Seq<u8>, Seq<u8>>::empty(),
            r.keys_in_order() == Seq::<Seq<u8>>::empty(),
    {
        let r = Store { entries: Vec::new() };
        proof {
            assert(r.keys_in_order() =~= Seq::<Seq<u8>>::empty());
        }
        r
    }

    /// The position of a key among the entries, if present.
    fn find(&self, key: &BulkString) -> (r: Option<usize>)
        ensures
            (match r {
                Option::Some(i) => i < self.entries@.len() && self.entries@[i as int].0@ == key@,
                Option::None => forall|i: int|
                    0 <= i < self.entries@.len() ==> (#[trigger] self.entries@[i]).0@ != key@,
            }),
    {
        let n = self.entries.len();
        let mut i: usize = 0;
        while i < n
            invariant
                0 <= i <= n,
                n == self.entries@.len(),
                forall|j: int| 0 <= j < i ==> (#[trigger] self.entries@[j]).0@ != key@,
            decreases n - i,
        {
            if bytes_eq(self.entries[i].0.0.as_slice(), key.0.as_slice()) {
                return Some(i);
            }
            i = i + 1;
        }
        None
    }

    /// The value bound to a key, if any.
    pub fn get(&self, key: &BulkString) -> (r: Option<BulkString>)
        requires
            self.wf(),
        ensures
            (match r {
                Option::Some(v) => self@.contains_key(key@) && v@ == self@[key@],
                Option::None => !self@.contains_key(key@),
            }),
    {
        proof {
            lemma_store_lookup(self.entries@, key@);
        }
        match self.find(key) {
            Some(i) => Some(self.entries[i].1.clone()),
            None => None,
        }
    }

    /// Whether a key is bound.
    pub fn contains(&self, key: &BulkString) -> (r: bool)
        requires
            self.wf(),
        ensures
            r == self@.contains_key(key@),
    {
        proof {
            lemma_store_lookup(self.entries@, key@);
        }
        match self.find(key) {
            Some(_) => true,
            None => false,
        }
    }

    /// Binds the key to the value, replacing any earlier binding: an
    /// unconditional upsert. A new key goes to the end of the key order.
    pub fn insert(&mut self, key: BulkString, value: BulkString)
        requires
            old(self).wf(),
        ensures
            final(self).wf(),
            final(self)@ == old(self)@.insert(key@, value@),
            final(self).keys_in_order() == (if old(self)@.contains_key(key@) {
                old(self).keys_in_order()
            } else {
                old(self).keys_in_order().push(key@)
            }),
    {
        proof {
            lemma_store_lookup(self.entries@, key@);
        }
        let ghost prev = self.entries@;
        match self.find(&key) {
            Some(i) => {
                proof {
                    lemma_store_update(prev, i as int, (key, value));
                }
                self.entries.set(i, (key, value));
                proof {
                    assert(final(self).keys_in_order() =~= old(self).keys_in_order());
                }
            },
            None => {
                self.entries.push((key, value));
                proof {
                    assert(self.entries@.drop_last() =~= prev);
                    assert(unique_keys(self.entries@)) by {
                        assert(forall|j: int|
                            0 <= j < prev.len() ==> #[trigger] self.entries@[j] == prev[j]);
                    }
                    assert(final(self).keys_in_order() =~= old(self).keys_in_order().push(key@));
                }
            },
        }
    }

    /// Appends the value's bytes to the key's current value, an absent key
    /// counting as empty; returns the new total length. The appended-from
    /// argument is consumed.
    pub fn append(&mut self, key: BulkString, value: BulkString) -> (r: usize)
        requires
            old(self).wf(),
        ensures
            final(self).wf(),
            old(self)@.contains_key(key@) ==> {
                &&& final(self)@ == old(self)@.insert(key@, old(self)@[key@] + value@)
                &&& r == old(self)@[key@].len() + value@.len()
                &&& final(self).keys_in_order() == old(self).keys_in_order()
            },
            !old(self)@.contains_key(key@) ==> {
                &&& final(self)@ == old(self)@.insert(key@, value@)
                &&& r == value@.len()
                &&& final(self).keys_in_order() == old(self).keys_in_order().push(key@)
            },
    {
        proof {
            lemma_store_lookup(self.entries@, key@);
        }
        let ghost prev = self.entries@;
        let mut value = value;
        match self.find(&key) {
            Some(i) => {
                let mut combined = self.entries[i].1.clone();
                combined.append(&mut value);
                let total = combined.0.len();
                proof {
                    lemma_store_update(prev, i as int, (key, combined));
                }
                self.entries.set(i, (key, combined));
                proof {
                    assert(final(self).keys_in_order() =~= old(self).keys_in_order());
                }
                total
            },
            None => {
                let total = value.0.len();
                self.entries.push((key, value));
                proof {
                    assert(self.entries@.drop_last() =~= prev);
                    assert(unique_keys(self.entries@)) by {
                        assert(forall|j: int|
                            0 <= j < prev.len() ==> #[trigger] self.entries@[j] == prev[j]);
                    }
                    assert(final(self).keys_in_order() =~= old(self).keys_in_order().push(key@));
                }
                total
            },
        }
    }

    /// Every current key, in insertion order, as bulk-string reply values.
    pub fn keys(&self) -> (r: VecDeque<RespValue>)
        ensures
            views_of(r@) == bulks_of(self.keys_in_order()),
    {
        let n = self.entries.len();
        let mut out: VecDeque<RespValue> = VecDeque::new();
        let mut i: usize = 0;
        proof {
            assert(views_of(out@) =~= bulks_of(self.keys_in_order().take(0)));
        }
        while i < n
            invariant
                0 <= i <= n,
                n == self.entries@.len(),
                views_of(out@) == bulks_of(self.keys_in_order().take(i as int)),
            decreases n - i,
        {
            let ghost before = out@;
            out.push_back(RespValue::BulkString(self.entries[i].0.clone()));
            proof {
                assert(views_of(out@) =~= views_of(before).push(
                    SpecValue::Bulk(self.entries@[i as int].0@),
                ));
                assert(views_of(out@) =~= bulks_of(self.keys_in_order().take(i + 1)));
            }
            i = i + 1;
        }
        proof {
            assert(self.keys_in_order().take(n as int) =~= self.keys_in_order());
        }
        out
    }
}

} // verus!
