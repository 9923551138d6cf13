//! The transactional key-value state: a forward map from keys to values and
//! a reverse index from values to the number of keys holding them.
use vstd::prelude::*;
use std::collections::HashMap;

verus! {

broadcast use vstd::std_specs::hash::group_hash_axioms;

/// Abstract view of a scope.
pub ghost struct ScopeModel {
    /// Forward map: key to value.
    pub key_val: Map<Seq<char>, i32>,
    /// Reverse index: value to the number of keys that hold it.
    /// Entries are never removed; one may sit at zero.
    pub val_quant: Map<i32, usize>,
}

/// The set of keys that `kv` maps to `v`.
pub open spec fn holders(kv: Map<Seq<char>, i32>, v: i32) -> Set<Seq<char>> {
    kv.dom().filter(|k: Seq<char>| kv[k] == v)
}

/// The reverse index agrees with the forward map: every value held by a key
/// has an entry, and every entry counts exactly the keys holding its value.
pub open spec fn index_agrees(m: ScopeModel) -> bool {
    &&& m.key_val.dom().finite()
    &&& forall|k: Seq<char>| #[trigger]
        m.key_val.contains_key(k) ==> m.val_quant.contains_key(m.key_val[k])
    &&& forall|v: i32| #[trigger]
        m.val_quant.contains_key(v) ==> m.val_quant[v] == holders(m.key_val, v).len()
}

/// The scope with no keys and an empty reverse index.
pub open spec fn empty_model() -> ScopeModel {
    ScopeModel { key_val: Map::empty(), val_quant: Map::empty() }
}

/// Lowers the count of `v` by one, if the index has an entry for it.
pub open spec fn decrement(q: Map<i32, usize>, v: i32) -> Map<i32, usize> {
    if q.contains_key(v) {
        q.insert(v, (q[v] - 1) as usize)
    } else {
        q
    }
}

/// Raises the count of `v` by one, creating the entry at one if absent.
pub open spec fn increment(q: Map<i32, usize>, v: i32) -> Map<i32, usize> {
    if q.contains_key(v) {
        q.insert(v, (q[v] + 1) as usize)
    } else {
        q.insert(v, 1)
    }
}

/// SET: the old value of `k` (if any) loses one count, `k` now maps to `v`,
/// and `v` gains one count.
pub open spec fn set_model(m: ScopeModel, k: Seq<char>, v: i32) -> ScopeModel {
    let q = if m.key_val.contains_key(k) {
        decrement(m.val_quant, m.key_val[k])
    } else {
        m.val_quant
    };
    ScopeModel { key_val: m.key_val.insert(k, v), val_quant: increment(q, v) }
}

/// UNSET: a present key is removed and its value loses one count; an absent
/// key changes nothing.
pub open spec fn unset_model(m: ScopeModel, k: Seq<char>) -> ScopeModel {
    if m.key_val.contains_key(k) {
        ScopeModel {
            key_val: m.key_val.remove(k),
            val_quant: decrement(m.val_quant, m.key_val[k]),
        }
    } else {
        m
    }
}

/// GET: the value stored under `k`, if any.
pub open spec fn get_model(m: ScopeModel, k: Seq<char>) -> Option<i32> {
    if m.key_val.contains_key(k) {
        Some(m.key_val[k])
    } else {
        None
    }
}

/// NUMEQUALTO: the reverse-index count of `v`, or zero without an entry.
pub open spec fn count_model(m: ScopeModel, v: i32) -> usize {
    if m.val_quant.contains_key(v) {
        m.val_quant[v]
    } else {
        0
    }
}

/// The live key-value state.
///
/// Keys are kept in a vector of distinct entries; `keys` is the map they
/// denote.
#[allow(non_camel_case_types)]
pub struct transaction {
    key_val: Vec<(String, i32)>,
    val_quant: HashMap<i32, usize>,
    keys: Ghost<Map<Seq<char>, i32>>,
}

/// Inserting `k` with value `v` adds `k` to the holders of `v` and takes it
/// from the holders of every other value.
proof fn lemma_holders_insert(kv: Map<Seq<char>, i32>, k: Seq<char>, v: i32, x: i32)
    ensures
        holders(kv.insert(k, v), x) == if x == v {
            holders(kv, x).insert(k)
        } else {
            holders(kv, x).remove(k)
        },
{
    assert(holders(kv.insert(k, v), x) =~= if x == v {
        holders(kv, x).insert(k)
    } else {
        holders(kv, x).remove(k)
    });
}

/// Removing `k` takes it from the holders of every value.
proof fn lemma_holders_remove(kv: Map<Seq<char>, i32>, k: Seq<char>, x: i32)
    ensures
        holders(kv.remove(k), x) == holders(kv, x).remove(k),
{
    assert(holders(kv.remove(k), x) =~= holders(kv, x).remove(k));
}

/// The holders of a value are a finite subset of the keys.
proof fn lemma_holders_bounded(kv: Map<Seq<char>, i32>, x: i32)
    requires
        kv.dom().finite(),
    ensures
        holders(kv, x).finite(),
        holders(kv, x).len() <= kv.dom().len(),
{
    vstd::set_lib::lemma_len_subset(holders(kv, x), kv.dom());
}

impl View for transaction {
    type V = ScopeModel;

    closed spec fn view(&self) -> ScopeModel {
        ScopeModel { key_val: self.keys@, val_quant: self.val_quant@ }
    }
}

impl transaction {
    /// The entries of the vector are exactly the ghost map, with no key twice.
    closed spec fn entries_agree(&self) -> bool {
        let e = self.key_val@;
        let m = self.keys@;
        &&& m.dom().finite()
        &&& m.dom().len() == e.len()
        &&& forall|i: int| 0 <= i < e.len() ==> #[trigger] m.contains_key(e[i].0@)
            && m[e[i].0@] == e[i].1
        &&& forall|i: int, j: int|
            0 <= i < e.len() && 0 <= j < e.len() && i != j ==> #[trigger] e[i].0@
                != #[trigger] e[j].0@
        &&& forall|k: Seq<char>| #[trigger]
            m.contains_key(k) ==> exists|i: int| 0 <= i < e.len() && e[i].0@ == k
    }

    /// Well-formedness: the representation matches the view, and the view's
    /// reverse index agrees with its forward map.
    pub closed spec fn wf(&self) -> bool {
        &&& self.entries_agree()
        &&& index_agrees(self@)
    }

    /// An empty scope.
    pub fn new() -> (r: transaction)
        ensures
            r.wf(),
            r@ == empty_model(),
    {
        let r = transaction {
            key_val: Vec::new(),
            val_quant: HashMap::new(),
            keys: Ghost(Map::empty()),
        };
        assert(r@.key_val =~= empty_model().key_val);
        r
    }

    /// Agreement of entries depends on the entries and the ghost map alone.
    proof fn lemma_entries_frame(a: &transaction, b: &transaction)
        requires
            a.entries_agree(),
            a.key_val@ == b.key_val@,
            a.keys@ == b.keys@,
        ensures
            b.entries_agree(),
    {
    }

    /// The position of `key` among the entries, if it is present.
    fn find(&self, key: &String) -> (r: Option<usize>)
        requires
            self.entries_agree(),
        ensures
            match r {
                Some(i) => i < self.key_val@.len() && self.key_val@[i as int].0@ == key@,
                None => !self@.key_val.contains_key(key@),
            },
    {
        let mut i: usize = 0;
        while i < self.key_val.len()
            invariant
                self.entries_agree(),
                i <= self.key_val@.len(),
                forall|j: int| 0 <= j < i ==> self.key_val@[j].0@ != key@,
            decreases self.key_val@.len() - i,
        {
            if self.key_val[i].0 == *key {
                return Some(i);
            }
            i = i + 1;
        }
        proof {
            if self@.key_val.contains_key(key@) {
                let j = choose|j: int| 0 <= j < self.key_val@.len() && self.key_val@[j].0@ == key@;
                assert(self.key_val@[j].0@ != key@);
            }
        }
        None
    }

    /// Binds `key` to `val`. The value `key` held before, if any, loses one
    /// count in the reverse index (its entry stays, even at zero); `val`
    /// gains one count, its entry created at one if absent.
    pub fn set(&mut self, key: String, val: i32)
        requires
            old(self).wf(),
            old(self)@.key_val.dom().len() < usize::MAX,
        ensures
            final(self).wf(),
            final(self)@ == set_model(old(self)@, key@, val),
    {
        let ghost m0 = self@;
        let ghost k = key@;
        proof {
            lemma_holders_bounded(m0.key_val, val);
        }
        match self.find(&key) {
            Some(i) => {
                let cur = self.key_val[i].1;
                proof {
                    assert(m0.key_val.contains_key(k));
                    lemma_holders_bounded(m0.key_val, cur);
                    assert(holders(m0.key_val, cur).contains(k));
                }
                let c = *self.val_quant.get(&cur).unwrap();
                self.val_quant.insert(cur, c - 1);
                self.key_val.set(i, (key, val));
                proof {
                    let e = self.key_val@;
                    self.keys@ = m0.key_val.insert(k, val);
                    assert(self.keys@.dom() =~= m0.key_val.dom());
                    assert forall|kk: Seq<char>| #[trigger] self.keys@.contains_key(kk) implies
                        exists|j: int| 0 <= j < e.len() && e[j].0@ == kk by {
                        let j = choose|j: int| 0 <= j < e.len() && old(self).key_val@[j].0@ == kk;
                        assert(e[j].0@ == kk);
                    }
                    assert(forall|j: int|
                        0 <= j < e.len() ==> #[trigger] e[j].0@ == old(self).key_val@[j].0@);
                    assert forall|j: int| 0 <= j < e.len() implies #[trigger] self.keys@.contains_key(
                        e[j].0@,
                    ) && self.keys@[e[j].0@] == e[j].1 by {
                        if j != i {
                            assert(e[j] == old(self).key_val@[j]);
                            assert(old(self).key_val@[j].0@ != old(self).key_val@[i as int].0@);
                        }
                    }
                    assert(self.entries_agree());
                }
            },
            None => {
                proof {
                    assert(!holders(m0.key_val, val).contains(k));
                }
                self.key_val.push((key, val));
                proof {
                    let e = self.key_val@;
                    self.keys@ = m0.key_val.insert(k, val);
                    assert forall|kk: Seq<char>| #[trigger] self.keys@.contains_key(kk) implies
                        exists|j: int| 0 <= j < e.len() && e[j].0@ == kk by {
                        if kk != k {
                            let e0 = old(self).key_val@;
                            let j = choose|j: int| 0 <= j < e0.len() && e0[j].0@ == kk;
                            assert(e[j].0@ == kk);
                        } else {
                            assert(e[e.len() - 1].0@ == kk);
                        }
                    }
                    let e0 = old(self).key_val@;
                    assert(forall|j: int| 0 <= j < e0.len() ==> #[trigger] e[j] == e0[j]);
                    assert forall|j: int| 0 <= j < e0.len() implies #[trigger] e[j].0@ != k by {
                        assert(m0.key_val.contains_key(e0[j].0@));
                    }
                    assert(self.entries_agree());
                }
            },
        }
        assert(self.entries_agree());
        let ghost s1 = *self;
        let ghost q1 = self.val_quant@;
        proof {
            let q0 = m0.val_quant;
            assert(q1 == if m0.key_val.contains_key(k) {
                decrement(q0, m0.key_val[k])
            } else {
                q0
            });
            assert(self.keys@ == m0.key_val.insert(k, val));
            assert forall|x: i32| #[trigger] q1.contains_key(x) implies q0.contains_key(x) && q1[x]
                == holders(m0.key_val, x).len() - (if m0.key_val.contains_key(k) && m0.key_val[k]
                == x {
                1int
            } else {
                0
            }) by {
                if m0.key_val.contains_key(k) && m0.key_val[k] == x {
                    lemma_holders_bounded(m0.key_val, x);
                    assert(holders(m0.key_val, x).contains(k));
                }
            }
        }
        match self.val_quant.get(&val) {
            Some(c) => {
                let c = *c;
                self.val_quant.insert(val, c + 1);
            },
            None => {
                self.val_quant.insert(val, 1);
            },
        }
        proof {
            transaction::lemma_entries_frame(&s1, self);
        }
        proof {
            let m = self@;
            assert(m.val_quant == increment(q1, val));
            assert forall|x: i32| #[trigger] m.val_quant.contains_key(x) implies m.val_quant[x]
                == holders(m.key_val, x).len() by {
                lemma_holders_insert(m0.key_val, k, val, x);
                lemma_holders_bounded(m0.key_val, x);
                let h0 = holders(m0.key_val, x);
                if x == val {
                    if q1.contains_key(x) {
                        assert(m.val_quant[x] == q1[x] + 1);
                        if !(m0.key_val.contains_key(k) && m0.key_val[k] == x) {
                            assert(!h0.contains(k));
                        }
                    } else {
                        assert(h0 =~= Set::empty()) by {
                            if exists|kk: Seq<char>| h0.contains(kk) {
                                let kk = choose|kk: Seq<char>| h0.contains(kk);
                                assert(m0.key_val.contains_key(kk));
                            }
                        }
                    }
                } else {
                    assert(m.val_quant[x] == q1[x]);
                    if m0.key_val.contains_key(k) && m0.key_val[k] == x {
                        assert(h0.contains(k));
                    } else {
                        assert(!h0.contains(k));
                        assert(h0.remove(k) =~= h0);
                    }
                }
            }
            assert(m.val_quant =~= set_model(m0, k, val).val_quant);
            assert forall|kk: Seq<char>| #[trigger] m.key_val.contains_key(kk) implies
                m.val_quant.contains_key(m.key_val[kk]) by {
                if kk != k {
                    assert(m0.val_quant.contains_key(m0.key_val[kk]));
                }
            }
            assert(m.key_val.dom() =~= m0.key_val.dom().insert(k));
            assert(index_agrees(m));
            assert(self.entries_agree());
        }
    }
    /// Removes `key`. An absent key changes nothing; a present one is
    /// dropped and its value loses one count in the reverse index (the entry
    /// stays, even at zero).
    pub fn unset(&mut self, key: String)
        requires
            old(self).wf(),
        ensures
            final(self).wf(),
            final(self)@ == unset_model(old(self)@, key@),
    {
        let ghost m0 = self@;
        let ghost k = key@;
        if let Some(i) = self.find(&key) {
            let ghost e0 = self.key_val@;
            let (_, cur) = self.key_val.remove(i);
            proof {
                let e = self.key_val@;
                assert(m0.key_val.contains_key(k) && m0.key_val[k] == cur);
                self.keys@ = m0.key_val.remove(k);
                assert(self.keys@.dom() =~= m0.key_val.dom().remove(k));
                assert forall|j: int| 0 <= j < e.len() implies #[trigger] self.keys@.contains_key(
                    e[j].0@,
                ) && self.keys@[e[j].0@] == e[j].1 by {
                    let j0 = if j < i {
                        j
                    } else {
                        j + 1
                    };
                    assert(e[j] == e0[j0]);
                    assert(e0[j0].0@ != e0[i as int].0@);
                    assert(m0.key_val.contains_key(e0[j0].0@));
                    assert(m0.key_val[e0[j0].0@] == e0[j0].1);
                }
                assert forall|a: int, b: int|
                    0 <= a < e.len() && 0 <= b < e.len() && a != b implies #[trigger] e[a].0@
                    != #[trigger] e[b].0@ by {
                    let a0 = if a < i {
                        a
                    } else {
                        a + 1
                    };
                    let b0 = if b < i {
                        b
                    } else {
                        b + 1
                    };
                    assert(e[a] == e0[a0] && e[b] == e0[b0]);
                }
                assert forall|kk: Seq<char>| #[trigger] self.keys@.contains_key(kk) implies exists|
                    j: int,
                | 0 <= j < e.len() && e[j].0@ == kk by {
                    let j0 = choose|j: int| 0 <= j < e0.len() && e0[j].0@ == kk;
                    assert(j0 != i);
                    if j0 < i {
                        assert(e[j0].0@ == kk);
                    } else {
                        assert(e[j0 - 1].0@ == kk);
                    }
                }
                assert(self.entries_agree());
                lemma_holders_bounded(m0.key_val, cur);
                assert(holders(m0.key_val, cur).contains(k));
            }
            let ghost s1 = *self;
            let c = *self.val_quant.get(&cur).unwrap();
            self.val_quant.insert(cur, c - 1);
            proof {
                transaction::lemma_entries_frame(&s1, self);
                let m = self@;
                assert(m.val_quant == decrement(m0.val_quant, cur));
                assert forall|x: i32| #[trigger] m.val_quant.contains_key(x) implies m.val_quant[x]
                    == holders(m.key_val, x).len() by {
                    lemma_holders_remove(m0.key_val, k, x);
                    lemma_holders_bounded(m0.key_val, x);
                    if x != cur {
                        assert(!holders(m0.key_val, x).contains(k));
                        assert(holders(m0.key_val, x).remove(k) =~= holders(m0.key_val, x));
                    }
                }
                assert forall|kk: Seq<char>| #[trigger] m.key_val.contains_key(kk) implies
                    m.val_quant.contains_key(m.key_val[kk]) by {
                    assert(m0.val_quant.contains_key(m0.key_val[kk]));
                }
                assert(index_agrees(m));
            }
        }
    }

    /// The value bound to `key`, if any.
    pub fn get(&self, key: String) -> (r: Option<i32>)
        requires
            self.wf(),
        ensures
            r == get_model(self@, key@),
    {
        match self.find(&key) {
            Some(i) => Some(self.key_val[i].1),
            None => None,
        }
    }

    /// The number of keys bound to `val`, read from the reverse index: the
    /// entry's count, or zero without an entry.
    pub fn num_equal_to(&self, val: i32) -> (r: usize)
        requires
            self.wf(),
        ensures
            r == count_model(self@, val),
    {
        match self.val_quant.get(&val) {
            Some(c) => *c,
            None => 0,
        }
    }

    /// The number of keys bound.
    pub fn len(&self) -> (r: usize)
        requires
            self.wf(),
        ensures
            r == self@.key_val.dom().len(),
    {
        self.key_val.len()
    }

    /// A full, independent copy of this scope.
    pub fn snapshot(&self) -> (r: transaction)
        requires
            self.wf(),
        ensures
            r.wf(),
            r@ == self@,
    {
        let mut entries: Vec<(String, i32)> = Vec::new();
        let mut i: usize = 0;
        while i < self.key_val.len()
            invariant
                i <= self.key_val@.len(),
                entries@.len() == i,
                forall|j: int| 0 <= j < i ==> #[trigger] entries@[j].0@ == self.key_val@[j].0@
                    && entries@[j].1 == self.key_val@[j].1,
            decreases self.key_val@.len() - i,
        {
            entries.push((self.key_val[i].0.clone(), self.key_val[i].1));
            i = i + 1;
        }
        let r = transaction {
            key_val: entries,
            val_quant: self.val_quant.clone(),
            keys: Ghost(self.keys@),
        };
        proof {
            let e = r.key_val@;
            let e0 = self.key_val@;
            assert forall|a: int, b: int|
                0 <= a < e.len() && 0 <= b < e.len() && a != b implies #[trigger] e[a].0@
                != #[trigger] e[b].0@ by {
                assert(e0[a].0@ != e0[b].0@);
            }
            assert forall|kk: Seq<char>| #[trigger] r.keys@.contains_key(kk) implies exists|j: int|
                0 <= j < e.len() && e[j].0@ == kk by {
                let j = choose|j: int| 0 <= j < e0.len() && e0[j].0@ == kk;
                assert(e[j].0@ == kk);
            }
        }
        r
    }
    /// In every well-formed scope the reverse index is exact: each value
    /// that some key holds has an entry, and the entry equals the number of
    /// keys holding that value.
    pub proof fn lemma_index_exact(&self)
        requires
            self.wf(),
        ensures
            forall|v: i32|
                (exists|k: Seq<char>| self@.key_val.contains_key(k) && self@.key_val[k] == v)
                    ==> self@.val_quant.contains_key(v) && self@.val_quant[v] == (#[trigger] holders(
                    self@.key_val,
                    v,
                )).len(),
    {
    }
}

} // verus!
