//! A map kept in key order, and the key types it is used with.

use vstd::prelude::*;

use crate::bytes::bytes_below;
use crate::bytes::bytes_lt;
use crate::bytes::lemma_bytes_lt_irrefl;
use crate::bytes::lemma_bytes_lt_total;
use crate::bytes::lemma_bytes_lt_trans;
use crate::bytes::same_bytes;
use crate::text::lemma_seq_lt_irrefl;
use crate::text::lemma_seq_lt_total;
use crate::text::lemma_seq_lt_trans;
use crate::text::seq_lt;
use crate::text::str_lt;

verus! {

/// A key with a strict total order on what it stands for.
pub trait SortKey: Sized {
    /// What a key stands for: two keys that stand for the same are one key.
    type Model;

    spec fn model(&self) -> Self::Model;

    /// The strict order of the keys.
    spec fn below(a: Self::Model, b: Self::Model) -> bool;

    proof fn below_irrefl(a: Self::Model)
        ensures
            !Self::below(a, a),
    ;

    proof fn below_trans(a: Self::Model, b: Self::Model, c: Self::Model)
        requires
            Self::below(a, b),
            Self::below(b, c),
        ensures
            Self::below(a, c),
    ;

    proof fn below_total(a: Self::Model, b: Self::Model)
        ensures
            Self::below(a, b) || Self::below(b, a) || a == b,
    ;

    /// Whether this key precedes `other`.
    fn precedes(&self, other: &Self) -> (r: bool)
        ensures
            r == Self::below(self.model(), other.model()),
    ;

    /// Whether the two keys are one.
    fn same(&self, other: &Self) -> (r: bool)
        ensures
            r == (self.model() == other.model()),
    ;
}

impl SortKey for String {
    type Model = Seq<char>;

    open spec fn model(&self) -> Seq<char> {
        self@
    }

    open spec fn below(a: Seq<char>, b: Seq<char>) -> bool {
        seq_lt(a, b)
    }

    proof fn below_irrefl(a: Seq<char>) {
        lemma_seq_lt_irrefl(a);
    }

    proof fn below_trans(a: Seq<char>, b: Seq<char>, c: Seq<char>) {
        lemma_seq_lt_trans(a, b, c);
    }

    proof fn below_total(a: Seq<char>, b: Seq<char>) {
        lemma_seq_lt_total(a, b);
    }

    fn precedes(&self, other: &String) -> (r: bool) {
        str_lt(self.as_str(), other.as_str())
    }

    fn same(&self, other: &String) -> (r: bool) {
        *self == *other
    }
}

impl SortKey for Vec<u8> {
    type Model = Seq<u8>;

    open spec fn model(&self) -> Seq<u8> {
        self@
    }

    open spec fn below(a: Seq<u8>, b: Seq<u8>) -> bool {
        bytes_lt(a, b)
    }

    proof fn below_irrefl(a: Seq<u8>) {
        lemma_bytes_lt_irrefl(a);
    }

    proof fn below_trans(a: Seq<u8>, b: Seq<u8>, c: Seq<u8>) {
        lemma_bytes_lt_trans(a, b, c);
    }

    proof fn below_total(a: Seq<u8>, b: Seq<u8>) {
        lemma_bytes_lt_total(a, b);
    }

    fn precedes(&self, other: &Vec<u8>) -> (r: bool) {
        bytes_below(self.as_slice(), other.as_slice())
    }

    fn same(&self, other: &Vec<u8>) -> (r: bool) {
        same_bytes(self.as_slice(), other.as_slice())
    }
}

/// A row's address: the table it is in and its encoded primary key.
pub struct RowId {
    pub table: String,
    pub key: Vec<u8>,
}

impl SortKey for RowId {
    type Model = (Seq<char>, Seq<u8>);

    open spec fn model(&self) -> (Seq<char>, Seq<u8>) {
        (self.table@, self.key@)
    }

    open spec fn below(a: (Seq<char>, Seq<u8>), b: (Seq<char>, Seq<u8>)) -> bool {
        seq_lt(a.0, b.0) || (a.0 == b.0 && bytes_lt(a.1, b.1))
    }

    proof fn below_irrefl(a: (Seq<char>, Seq<u8>)) {
        lemma_seq_lt_irrefl(a.0);
        lemma_bytes_lt_irrefl(a.1);
    }

    proof fn below_trans(
        a: (Seq<char>, Seq<u8>),
        b: (Seq<char>, Seq<u8>),
        c: (Seq<char>, Seq<u8>),
    ) {
        if seq_lt(a.0, b.0) && seq_lt(b.0, c.0) {
            lemma_seq_lt_trans(a.0, b.0, c.0);
        }
        if bytes_lt(a.1, b.1) && bytes_lt(b.1, c.1) {
            lemma_bytes_lt_trans(a.1, b.1, c.1);
        }
    }

    proof fn below_total(a: (Seq<char>, Seq<u8>), b: (Seq<char>, Seq<u8>)) {
        lemma_seq_lt_total(a.0, b.0);
        lemma_bytes_lt_total(a.1, b.1);
    }

    fn precedes(&self, other: &RowId) -> (r: bool) {
        str_lt(self.table.as_str(), other.table.as_str()) || (self.table == other.table
            && bytes_below(self.key.as_slice(), other.key.as_slice()))
    }

    fn same(&self, other: &RowId) -> (r: bool) {
        self.table == other.table && same_bytes(self.key.as_slice(), other.key.as_slice())
    }
}

/// A map whose entries are held in ascending key order.
pub struct SortedMap<K: SortKey, V> {
    pub entries: Vec<(K, V)>,
}

/// The keys of a run of entries ascend strictly.
pub open spec fn ascending<K: SortKey, V>(entries: Seq<(K, V)>) -> bool {
    forall|i: int, j: int|
        0 <= i < j < entries.len() ==> K::below(
            (#[trigger] entries[i]).0.model(),
            (#[trigger] entries[j]).0.model(),
        )
}

/// Whether some entry has the key `m`.
pub open spec fn holds_key<K: SortKey, V>(entries: Seq<(K, V)>, m: K::Model) -> bool {
    exists|i: int| 0 <= i < entries.len() && (#[trigger] entries[i]).0.model() == m
}

/// The place of the entry with the key `m`.
pub open spec fn place_of<K: SortKey, V>(entries: Seq<(K, V)>, m: K::Model) -> int {
    choose|i: int| 0 <= i < entries.len() && (#[trigger] entries[i]).0.model() == m
}

/// The map that a run of entries stands for.
pub open spec fn entry_map<K: SortKey, V>(entries: Seq<(K, V)>) -> Map<K::Model, V> {
    Map::new(|m: K::Model| holds_key(entries, m), |m: K::Model| entries[place_of(entries, m)].1)
}

/// An entry is found at its own key.
pub proof fn lemma_entry_at<K: SortKey, V>(entries: Seq<(K, V)>, i: int)
    requires
        ascending(entries),
        0 <= i < entries.len(),
    ensures
        holds_key(entries, entries[i].0.model()),
        place_of(entries, entries[i].0.model()) == i,
        entry_map(entries).dom().contains(entries[i].0.model()),
        entry_map(entries)[entries[i].0.model()] == entries[i].1,
{
    let m = entries[i].0.model();
    let p = place_of(entries, m);
    assert(entries[i].0.model() == m);
    assert(holds_key(entries, m));
    K::below_irrefl(m);
    if p < i {
        assert(K::below(entries[p].0.model(), entries[i].0.model()));
    } else if i < p {
        assert(K::below(entries[i].0.model(), entries[p].0.model()));
    }
}

impl<K: SortKey, V> View for SortedMap<K, V> {
    type V = Map<K::Model, V>;

    open spec fn view(&self) -> Map<K::Model, V> {
        entry_map(self.entries@)
    }
}

impl<K: SortKey, V> SortedMap<K, V> {
    /// The entries ascend by key.
    pub open spec fn wf(&self) -> bool {
        ascending(self.entries@)
    }

    /// The empty map.
    pub fn new() -> (r: SortedMap<K, V>)
        ensures
            r.wf(),
            r@ == Map::<K::Model, V>::empty(),
    {
        let r = SortedMap { entries: Vec::new() };
        proof {
            assert(r@ =~= Map::<K::Model, V>::empty());
        }
        r
    }

    /// The number of entries.
    pub fn len(&self) -> (n: usize)
        ensures
            n == self.entries@.len(),
    {
        self.entries.len()
    }

    /// The number of entries below `key`, which is where `key` stands or would stand.
    pub fn rank(&self, key: &K) -> (r: usize)
        requires
            self.wf(),
        ensures
            r <= self.entries@.len(),
            forall|i: int|
                0 <= i < r ==> K::below((#[trigger] self.entries@[i]).0.model(), key.model()),
            forall|i: int|
                r <= i < self.entries@.len() ==> !K::below(
                    (#[trigger] self.entries@[i]).0.model(),
                    key.model(),
                ),
            self@.dom().contains(key.model()) <==> r < self.entries@.len()
                && self.entries@[r as int].0.model() == key.model(),
    {
        let mut r: usize = 0;
        while r < self.entries.len() && self.entries[r].0.precedes(key)
            invariant
                r <= self.entries@.len(),
                forall|i: int|
                    0 <= i < r ==> K::below((#[trigger] self.entries@[i]).0.model(), key.model()),
            decreases self.entries@.len() - r,
        {
            r = r + 1;
        }
        proof {
            let e = self.entries@;
            let m = key.model();
            assert forall|i: int| r <= i < e.len() implies !K::below(
                (#[trigger] e[i]).0.model(),
                m,
            ) by {
                if i > r && K::below(e[i].0.model(), m) {
                    assert(K::below(e[r as int].0.model(), e[i].0.model()));
                    K::below_trans(e[r as int].0.model(), e[i].0.model(), m);
                }
            }
            if holds_key(e, m) {
                let p = place_of(e, m);
                K::below_irrefl(m);
                if p < r {
                    assert(K::below(e[p].0.model(), m));
                } else if p > r {
                    assert(K::below(e[r as int].0.model(), e[p].0.model()));
                }
            }
            if r < e.len() && e[r as int].0.model() == m {
                lemma_entry_at(e, r as int);
            }
        }
        r
    }

    /// Whether `key` has an entry.
    pub fn contains(&self, key: &K) -> (r: bool)
        requires
            self.wf(),
        ensures
            r == self@.dom().contains(key.model()),
    {
        let i: usize = self.rank(key);
        i < self.entries.len() && self.entries[i].0.same(key)
    }

    /// The value at `key`.
    pub fn get(&self, key: &K) -> (r: Option<&V>)
        requires
            self.wf(),
        ensures
            r is Some <==> self@.dom().contains(key.model()),
            r matches Some(v) ==> *v == self@[key.model()],
    {
        let i: usize = self.rank(key);
        if i < self.entries.len() && self.entries[i].0.same(key) {
            proof {
                lemma_entry_at(self.entries@, i as int);
            }
            Some(&self.entries[i].1)
        } else {
            None
        }
    }

    /// Puts `value` at `key`, in place of what was there.
    pub fn insert(&mut self, key: K, value: V)
        requires
            old(self).wf(),
        ensures
            final(self).wf(),
            final(self)@ == old(self)@.insert(key.model(), value),
    {
        let i: usize = self.rank(&key);
        let ghost e = self.entries@;
        let ghost m = key.model();
        if i < self.entries.len() && self.entries[i].0.same(&key) {
            self.entries.remove(i);
            self.entries.insert(i, (key, value));
            proof {
                let f = self.entries@;
                assert(f =~= e.update(i as int, (key, value)));
                assert(ascending(f));
                assert forall|x: K::Model| holds_key(f, x) <==> holds_key(e, x) by {
                    if holds_key(f, x) {
                        assert(e[place_of(f, x)].0.model() == x);
                    }
                    if holds_key(e, x) {
                        assert(f[place_of(e, x)].0.model() == x);
                    }
                }
                assert forall|x: K::Model| holds_key(e, x) implies entry_map(f)[x] == #[trigger] entry_map(
                    e,
                ).insert(m, value)[x] by {
                    let p = place_of(e, x);
                    lemma_entry_at(e, p);
                    lemma_entry_at(f, p);
                    lemma_entry_at(f, i as int);
                    lemma_entry_at(e, i as int);
                }
                lemma_entry_at(e, i as int);
                assert(entry_map(f) =~= entry_map(e).insert(m, value));
            }
        } else {
            self.entries.insert(i, (key, value));
            proof {
                let f = self.entries@;
                assert(f =~= e.insert(i as int, (key, value)));
                assert forall|a: int, b: int| 0 <= a < b < f.len() implies K::below(
                    (#[trigger] f[a]).0.model(),
                    (#[trigger] f[b]).0.model(),
                ) by {
                    let a0 = if a < i {
                        a
                    } else {
                        a - 1
                    };
                    let b0 = if b < i {
                        b
                    } else {
                        b - 1
                    };
                    if a == i {
                        K::below_total(m, e[b0].0.model());
                    } else if b == i {
                        assert(K::below(e[a0].0.model(), m));
                    } else {
                        assert(K::below(e[a0].0.model(), e[b0].0.model()));
                    }
                }
                assert forall|x: K::Model| holds_key(f, x) <==> holds_key(e, x) || x == m by {
                    if holds_key(f, x) {
                        let p = place_of(f, x);
                        if p < i {
                            assert(e[p].0.model() == x);
                        } else if p > i {
                            assert(e[p - 1].0.model() == x);
                        }
                    }
                    if holds_key(e, x) {
                        let p = place_of(e, x);
                        if p < i {
                            assert(f[p].0.model() == x);
                        } else {
                            assert(f[p + 1].0.model() == x);
                        }
                    }
                    if x == m {
                        assert(f[i as int].0.model() == x);
                    }
                }
                assert forall|x: K::Model| holds_key(f, x) implies entry_map(f)[x] == #[trigger] entry_map(
                    e,
                ).insert(m, value)[x] by {
                    let p = place_of(f, x);
                    lemma_entry_at(f, p);
                    if p < i {
                        lemma_entry_at(e, p);
                    } else if p > i {
                        lemma_entry_at(e, p - 1);
                    }
                }
                assert(entry_map(f) =~= entry_map(e).insert(m, value));
            }
        }
    }

    /// Takes the entry at `key` out.
    pub fn remove(&mut self, key: &K) -> (r: Option<V>)
        requires
            old(self).wf(),
        ensures
            final(self).wf(),
            final(self)@ == old(self)@.remove(key.model()),
            r is Some <==> old(self)@.dom().contains(key.model()),
            r matches Some(v) ==> v == old(self)@[key.model()],
    {
        let i: usize = self.rank(key);
        let ghost e = self.entries@;
        let ghost m = key.model();
        if i < self.entries.len() && self.entries[i].0.same(key) {
            let (_k, v) = self.entries.remove(i);
            proof {
                let f = self.entries@;
                assert(f =~= e.remove(i as int));
                assert forall|a: int, b: int| 0 <= a < b < f.len() implies K::below(
                    (#[trigger] f[a]).0.model(),
                    (#[trigger] f[b]).0.model(),
                ) by {
                    let a0 = if a < i {
                        a
                    } else {
                        a + 1
                    };
                    let b0 = if b < i {
                        b
                    } else {
                        b + 1
                    };
                    assert(K::below(e[a0].0.model(), e[b0].0.model()));
                }
                lemma_entry_at(e, i as int);
                assert forall|x: K::Model| holds_key(f, x) <==> holds_key(e, x) && x != m by {
                    if holds_key(f, x) {
                        let p = place_of(f, x);
                        let q = if p < i {
                            p
                        } else {
                            p + 1
                        };
                        lemma_entry_at(e, q);
                    }
                    if holds_key(e, x) && x != m {
                        let p = place_of(e, x);
                        if p < i {
                            assert(f[p].0.model() == x);
                        } else {
                            assert(f[p - 1].0.model() == x);
                        }
                    }
                }
                assert forall|x: K::Model| holds_key(f, x) implies #[trigger] entry_map(f)[x]
                    == entry_map(e).remove(m)[x] by {
                    let p = place_of(f, x);
                    lemma_entry_at(f, p);
                    if p < i {
                        lemma_entry_at(e, p);
                    } else {
                        lemma_entry_at(e, p + 1);
                    }
                }
                assert(entry_map(f) =~= entry_map(e).remove(m));
            }
            Some(v)
        } else {
            proof {
                assert(self@ =~= old(self)@.remove(m));
            }
            None
        }
    }

    /// The key of the `i`-th entry, in ascending order.
    pub fn key_at(&self, i: usize) -> (r: &K)
        requires
            self.wf(),
            i < self.entries@.len(),
        ensures
            *r == self.entries@[i as int].0,
            self@.dom().contains(r.model()),
    {
        proof {
            lemma_entry_at(self.entries@, i as int);
        }
        &self.entries[i].0
    }

    /// The value of the `i`-th entry, in ascending order of the keys.
    pub fn value_at(&self, i: usize) -> (r: &V)
        requires
            self.wf(),
            i < self.entries@.len(),
        ensures
            *r == self.entries@[i as int].1,
            *r == self@[self.entries@[i as int].0.model()],
    {
        proof {
            lemma_entry_at(self.entries@, i as int);
        }
        &self.entries[i].1
    }
}

} // verus!
