//! Sorted tables from codepoints to values.

use vstd::prelude::*;

verus! {

/// The keys of a table are strictly increasing and match its values in number.
pub open spec fn well_formed_keys<V>(keys: Seq<u32>, values: Seq<V>) -> bool {
    &&& keys.len() == values.len()
    &&& forall|i: int, j: int| 0 <= i < j < keys.len() ==> #[trigger] keys[i] < #[trigger] keys[j]
}

/// The value a table gives `key`: that at the position of `key` among the
/// keys, or `None` where `key` is not one of them.
pub open spec fn value_in<V>(keys: Seq<u32>, values: Seq<V>, key: u32) -> Option<V> {
    if exists|i: int| 0 <= i < keys.len() && #[trigger] keys[i] == key {
        Some(values[choose|i: int| 0 <= i < keys.len() && #[trigger] keys[i] == key])
    } else {
        None
    }
}

/// A map from codepoints to values, held as sorted keys and their values.
pub struct CodepointMap<V> {
    keys: Vec<u32>,
    values: Vec<V>,
}

impl<V> CodepointMap<V> {
    #[verifier::type_invariant]
    closed spec fn inv(&self) -> bool {
        well_formed_keys(self.keys@, self.values@)
    }

    /// The keys of the table, in increasing order.
    pub closed spec fn keys(&self) -> Seq<u32> {
        self.keys@
    }

    /// The value of each key.
    pub closed spec fn values(&self) -> Seq<V> {
        self.values@
    }

    /// The value this table gives `key`.
    pub open spec fn entry(&self, key: u32) -> Option<V> {
        value_in(self.keys(), self.values(), key)
    }

    /// Builds a table from its keys and values; `None` when the keys are not
    /// strictly increasing or do not match the values in number.
    pub fn new(keys: Vec<u32>, values: Vec<V>) -> (r: Option<CodepointMap<V>>)
        ensures
            r is Some <==> well_formed_keys(keys@, values@),
            r matches Some(t) ==> t.keys() == keys@ && t.values() == values@,
    {
        if keys.len() != values.len() {
            return None;
        }
        let n = keys.len();
        let mut k: usize = 1;
        if n == 0 {
            return Some(CodepointMap { keys, values });
        }
        while k < n
            invariant
                n == keys@.len(),
                keys@.len() == values@.len(),
                1 <= k <= n,
                forall|i: int, j: int| 0 <= i < j < k ==> #[trigger] keys@[i] < #[trigger] keys@[j],
            decreases n - k,
        {
            if keys[k - 1] >= keys[k] {
                return None;
            }
            assert forall|i: int, j: int| 0 <= i < j < k + 1 implies #[trigger] keys@[i]
                < #[trigger] keys@[j] by {
                if j == k && i < k - 1 {
                    assert(keys@[i] < keys@[k - 1]);
                }
            }
            k = k + 1;
        }
        Some(CodepointMap { keys, values })
    }

    /// Number of entries in the table.
    pub fn len(&self) -> (r: usize)
        ensures
            r == self.keys().len(),
    {
        self.keys.len()
    }

    /// Position of `key` among the keys, if it is one of them.
    fn find(&self, key: u32) -> (r: Option<usize>)
        ensures
            r matches Some(i) ==> i < self.keys().len() && self.keys()[i as int] == key
                && i < self.values().len() && self.entry(key) == Some(self.values()[i as int]),
            r is None ==> self.entry(key) is None,
    {
        proof {
            use_type_invariant(self);
        }
        let ghost ks = self.keys@;
        let mut lo: usize = 0;
        let mut hi: usize = self.keys.len();
        while lo < hi
            invariant
                ks == self.keys@,
                well_formed_keys(self.keys@, self.values@),
                0 <= lo <= hi <= ks.len(),
                forall|i: int| 0 <= i < lo ==> #[trigger] ks[i] < key,
                forall|i: int| hi <= i < ks.len() ==> key < #[trigger] ks[i],
            decreases hi - lo,
        {
            let mid = lo + (hi - lo) / 2;
            let m = self.keys[mid];
            if m > key {
                assert forall|i: int| mid <= i < ks.len() implies key < #[trigger] ks[i] by {
                    if i > mid {
                        assert(ks[mid as int] < ks[i]);
                    }
                }
                hi = mid;
            } else if m < key {
                assert forall|i: int| 0 <= i < mid + 1 implies #[trigger] ks[i] < key by {
                    if i < mid {
                        assert(ks[i] < ks[mid as int]);
                    }
                }
                lo = mid + 1;
            } else {
                let ghost w = choose|i: int| 0 <= i < ks.len() && #[trigger] ks[i] == key;
                assert(ks[mid as int] == key);
                assert(w == mid) by {
                    if w < mid {
                        assert(ks[w] < ks[mid as int]);
                    } else if w > mid {
                        assert(ks[mid as int] < ks[w]);
                    }
                }
                return Some(mid);
            }
        }
        assert forall|i: int| 0 <= i < ks.len() implies #[trigger] ks[i] != key by {
            if i < lo {
                assert(ks[i] < key);
            } else {
                assert(key < ks[i]);
            }
        }
        None
    }
}

/// In a table with distinct keys, the value of a key is the one at its
/// position, and a codepoint that is no key has none.
pub proof fn lemma_value_in_at<V>(keys: Seq<u32>, values: Seq<V>, key: u32, i: int)
    requires
        well_formed_keys(keys, values),
        0 <= i < keys.len(),
        keys[i] == key,
    ensures
        value_in(keys, values, key) == Some(values[i]),
{
    let w = choose|j: int| 0 <= j < keys.len() && #[trigger] keys[j] == key;
    if w < i {
        assert(keys[w] < keys[i]);
    } else if w > i {
        assert(keys[i] < keys[w]);
    }
}

/// A codepoint that is none of the keys has no value.
pub proof fn lemma_value_in_absent<V>(keys: Seq<u32>, values: Seq<V>, key: u32)
    requires
        forall|i: int| 0 <= i < keys.len() ==> #[trigger] keys[i] != key,
    ensures
        value_in(keys, values, key) is None,
{
}

impl<V: Copy> CodepointMap<V> {
    /// The value of `key`, found by binary search over the sorted keys.
    pub fn get(&self, key: u32) -> (r: Option<V>)
        ensures
            r == self.entry(key),
            forall|i: int|
                0 <= i < self.keys().len() && #[trigger] self.keys()[i] == key ==> i
                    < self.values().len() && r == Some(self.values()[i]),
            r is None <==> forall|i: int| 0 <= i < self.keys().len() ==> #[trigger] self.keys()[i] != key,
    {
        proof {
            use_type_invariant(self);
            assert forall|i: int| 0 <= i < self.keys().len() && #[trigger] self.keys()[i] == key implies self.entry(key) == Some(self.values()[i]) by {
                lemma_value_in_at(self.keys(), self.values(), key, i);
            }
        }
        match self.find(key) {
            Some(i) => Some(self.values[i]),
            None => None,
        }
    }
}

} // verus!
