//! Managed vector indexes: the rows that wait to be embedded, and the stamps
//! that vector indexes are complete up to.

use vstd::prelude::*;

use crate::auth::is_name_test;
use crate::bytes::bytes_lt;
use crate::bytes::copy_bytes;
use crate::bytes::lemma_bytes_lt_irrefl;
use crate::bytes::lemma_bytes_lt_trans;
use crate::catalog::VectorIndexDef;
use crate::database::Database;
use crate::error::EngineError;
use crate::hlc::hlc_max;
use crate::hlc::hlc_min;
use crate::hlc::Hlc;
use crate::maintenance::key_views;
use crate::recovery::VersionedRow;
use crate::sorted_map::lemma_entry_at;
use crate::sorted_map::SortKey;
use crate::sorted_map::SortedMap;
use crate::text::lemma_seq_lt_irrefl;
use crate::text::seq_lt;
use crate::text::views;

verus! {

/// Texts in one request to the embedder.
pub const EMBED_BATCH: usize = 32;

/// The rows of each managed index that wait to be embedded, by key. A write
/// queues its row here and never waits for the embedder; a lost queue costs
/// re-embedding and no data.
pub struct EmbedQueue {
    pub queues: SortedMap<String, SortedMap<Vec<u8>, ()>>,
}

/// The keys that wait under an index.
pub open spec fn queued(q: EmbedQueue, name: Seq<char>) -> Set<Seq<u8>> {
    if q.queues@.dom().contains(name) {
        q.queues@[name]@.dom()
    } else {
        Set::empty()
    }
}

/// Whether only one index's queue differs, and is this.
pub open spec fn queue_set(
    before: EmbedQueue,
    after: EmbedQueue,
    name: Seq<char>,
    keys: Set<Seq<u8>>,
) -> bool {
    forall|n: Seq<char>| #[trigger]
        queued(after, n) == if n == name {
            keys
        } else {
            queued(before, n)
        }
}

/// Whether these are the lowest keys of a set, in order, up to `limit` of them.
pub open spec fn lowest(cs: Seq<Seq<u8>>, all: Set<Seq<u8>>, limit: nat) -> bool {
    &&& cs.len() <= limit
    &&& forall|i: int, j: int| 0 <= i < j < cs.len() ==> bytes_lt(#[trigger] cs[i], #[trigger] cs[j])
    &&& forall|i: int| 0 <= i < cs.len() ==> all.contains(#[trigger] cs[i])
    &&& forall|k: Seq<u8>| #[trigger]
        all.contains(k) ==> cs.contains(k) || (cs.len() == limit && forall|i: int|
            0 <= i < cs.len() ==> bytes_lt(#[trigger] cs[i], k))
}

/// The lowest keys of a set, in order, up to `limit` of them.
pub open spec fn front(all: Set<Seq<u8>>, limit: nat) -> Seq<Seq<u8>> {
    choose|cs: Seq<Seq<u8>>| lowest(cs, all, limit)
}

/// Whether these are the indexes under which rows wait, in name order.
pub open spec fn pending(q: EmbedQueue, names: Seq<Seq<char>>) -> bool {
    &&& forall|i: int, j: int|
        0 <= i < j < names.len() ==> seq_lt(#[trigger] names[i], #[trigger] names[j])
    &&& forall|n: Seq<char>| #[trigger]
        names.contains(n) <==> queued(q, n) != Set::<Seq<u8>>::empty()
}

/// Keys as a set.
pub open spec fn key_set_of(ks: Seq<Seq<u8>>) -> Set<Seq<u8>> {
    Set::new(|k: Seq<u8>| ks.contains(k))
}

impl EmbedQueue {
    pub open spec fn wf(&self) -> bool {
        self.queues.wf() && forall|n: Seq<char>|
            self.queues@.dom().contains(n) ==> (#[trigger] self.queues@[n]).wf()
    }

    /// Nothing waits.
    pub fn new() -> (r: EmbedQueue)
        ensures
            r.wf(),
            forall|n: Seq<char>| #[trigger] queued(r, n) == Set::<Seq<u8>>::empty(),
    {
        EmbedQueue { queues: SortedMap::new() }
    }

    fn take_queue(&mut self, name: &str) -> (r: SortedMap<Vec<u8>, ()>)
        requires
            old(self).wf(),
        ensures
            final(self).wf(),
            r.wf(),
            r@.dom() == queued(*old(self), name@),
            !final(self).queues@.dom().contains(name@),
            forall|n: Seq<char>| n != name@ ==> #[trigger] queued(*final(self), n) == queued(
                *old(self),
                n,
            ),
    {
        let name_owned = name.to_owned();
        match self.queues.remove(&name_owned) {
            Some(q) => q,
            None => {
                let q = SortedMap::new();
                proof {
                    assert(q@.dom() =~= Set::<Seq<u8>>::empty());
                }
                q
            },
        }
    }

    fn put_queue(&mut self, name: &str, q: SortedMap<Vec<u8>, ()>)
        requires
            old(self).wf(),
            q.wf(),
        ensures
            final(self).wf(),
            queue_set(*old(self), *final(self), name@, q@.dom()),
    {
        self.queues.insert(name.to_owned(), q);
    }

    /// Queues a row.
    pub fn enqueue(&mut self, name: &str, key: Vec<u8>)
        requires
            old(self).wf(),
        ensures
            final(self).wf(),
            queue_set(*old(self), *final(self), name@, queued(*old(self), name@).insert(key@)),
    {
        let mut q = self.take_queue(name);
        let ghost before = q@;
        q.insert(key, ());
        proof {
            assert(q@.dom() =~= before.dom().insert(key@));
        }
        self.put_queue(name, q);
    }

    /// Takes a row off the queue: its text went away, or the row did.
    pub fn drop_key(&mut self, name: &str, key: &Vec<u8>)
        requires
            old(self).wf(),
        ensures
            final(self).wf(),
            queue_set(*old(self), *final(self), name@, queued(*old(self), name@).remove(key@)),
    {
        let mut q = self.take_queue(name);
        let ghost before = q@;
        let _gone = q.remove(key);
        proof {
            assert(q@.dom() =~= before.dom().remove(key@));
        }
        self.put_queue(name, q);
    }

    /// Queues a run of rows.
    pub fn enqueue_all(&mut self, name: &str, keys: &Vec<Vec<u8>>)
        requires
            old(self).wf(),
        ensures
            final(self).wf(),
            queue_set(
                *old(self),
                *final(self),
                name@,
                queued(*old(self), name@).union(key_set_of(key_views(keys@))),
            ),
    {
        let ghost ks = key_views(keys@);
        let ghost start = queued(*self, name@);
        let mut i: usize = 0;
        proof {
            assert(start =~= start.union(key_set_of(ks.take(0))));
        }
        while i < keys.len()
            invariant
                self.wf(),
                i <= keys@.len(),
                ks == key_views(keys@),
                start == queued(*old(self), name@),
                queue_set(*old(self), *self, name@, start.union(key_set_of(ks.take(i as int)))),
            decreases keys@.len() - i,
        {
            let ghost mid = *self;
            self.enqueue(name, copy_bytes(keys[i].as_slice()));
            proof {
                let a = start.union(key_set_of(ks.take(i as int))).insert(ks[i as int]);
                let b = start.union(key_set_of(ks.take(i + 1)));
                assert forall|k: Seq<u8>| #[trigger] a.contains(k) <==> b.contains(k) by {
                    lemma_take_contains(ks, i as int, k);
                }
                assert(a =~= b);
                assert forall|n: Seq<char>| #[trigger]
                    queued(*self, n) == if n == name@ {
                        b
                    } else {
                        queued(*old(self), n)
                    } by {
                    assert(queued(mid, n) == if n == name@ {
                        start.union(key_set_of(ks.take(i as int)))
                    } else {
                        queued(*old(self), n)
                    });
                }
            }
            i = i + 1;
        }
        proof {
            assert(ks.take(ks.len() as int) =~= ks);
        }
    }

    /// Takes a run of rows off the queue: they are embedded, or gone.
    pub fn drop_all(&mut self, name: &str, keys: &Vec<Vec<u8>>)
        requires
            old(self).wf(),
        ensures
            final(self).wf(),
            queue_set(
                *old(self),
                *final(self),
                name@,
                queued(*old(self), name@).difference(key_set_of(key_views(keys@))),
            ),
    {
        let ghost ks = key_views(keys@);
        let ghost start = queued(*self, name@);
        let mut i: usize = 0;
        proof {
            assert(start =~= start.difference(key_set_of(ks.take(0))));
        }
        while i < keys.len()
            invariant
                self.wf(),
                i <= keys@.len(),
                ks == key_views(keys@),
                start == queued(*old(self), name@),
                queue_set(
                    *old(self),
                    *self,
                    name@,
                    start.difference(key_set_of(ks.take(i as int))),
                ),
            decreases keys@.len() - i,
        {
            let ghost mid = *self;
            self.drop_key(name, &keys[i]);
            proof {
                let a = start.difference(key_set_of(ks.take(i as int))).remove(ks[i as int]);
                let b = start.difference(key_set_of(ks.take(i + 1)));
                assert forall|k: Seq<u8>| #[trigger] a.contains(k) <==> b.contains(k) by {
                    lemma_take_contains(ks, i as int, k);
                }
                assert(a =~= b);
                assert forall|n: Seq<char>| #[trigger]
                    queued(*self, n) == if n == name@ {
                        b
                    } else {
                        queued(*old(self), n)
                    } by {
                    assert(queued(mid, n) == if n == name@ {
                        start.difference(key_set_of(ks.take(i as int)))
                    } else {
                        queued(*old(self), n)
                    });
                }
            }
            i = i + 1;
        }
        proof {
            assert(ks.take(ks.len() as int) =~= ks);
        }
    }

    /// Up to `limit` rows that wait under an index, the lowest keys first.
    pub fn peek(&self, name: &str, limit: usize) -> (r: Vec<Vec<u8>>)
        requires
            self.wf(),
        ensures
            lowest(key_views(r@), queued(*self, name@), limit as nat),
    {
        let mut out: Vec<Vec<u8>> = Vec::new();
        match self.queues.get(&name.to_owned()) {
            None => {},
            Some(q) => {
                let ghost es = q.entries@;
                let mut i: usize = 0;
                while i < q.len() && i < limit
                    invariant
                        q.wf(),
                        es == q.entries@,
                        i <= es.len(),
                        i <= limit,
                        out@.len() == i,
                        forall|k: int| 0 <= k < i ==> (#[trigger] out@[k])@ == es[k].0@,
                    decreases es.len() - i,
                {
                    out.push(copy_bytes(q.key_at(i).as_slice()));
                    i = i + 1;
                }
                proof {
                    assert forall|k: int| 0 <= k < out@.len() implies queued(
                        *self,
                        name@,
                    ).contains((#[trigger] out@[k])@) by {
                        lemma_entry_at(es, k);
                    }
                    assert forall|a: int, b: int| 0 <= a < b < out@.len() implies bytes_lt(
                        (#[trigger] out@[a])@,
                        (#[trigger] out@[b])@,
                    ) by {
                        assert(<Vec<u8> as SortKey>::below(es[a].0.model(), es[b].0.model()));
                    }
                    assert forall|k: Seq<u8>| #[trigger]
                        queued(*self, name@).contains(k) implies key_views(out@).contains(k) || (
                    out@.len() == limit && forall|a: int|
                        0 <= a < out@.len() ==> bytes_lt(#[trigger] key_views(out@)[a], k)) by {
                        let p = crate::sorted_map::place_of(es, k);
                        assert(es[p].0.model() == k);
                        if p < out@.len() {
                            assert(key_views(out@)[p] == out@[p]@);
                        } else {
                            assert forall|a: int| 0 <= a < out@.len() implies bytes_lt(
                                #[trigger] key_views(out@)[a],
                                k,
                            ) by {
                                assert(out@[a]@ == es[a].0@);
                                assert(<Vec<u8> as SortKey>::below(
                                    es[a].0.model(),
                                    es[p].0.model(),
                                ));
                            }
                        }
                    }
                }
            },
        }
        out
    }

    /// The indexes under which rows wait, in name order.
    pub fn pending_embed_indexes(&self) -> (r: Vec<String>)
        requires
            self.wf(),
        ensures
            pending(*self, views(r@)),
    {
        let ghost es = self.queues.entries@;
        let mut out: Vec<String> = Vec::new();
        let mut i: usize = 0;
        while i < self.queues.len()
            invariant
                self.wf(),
                es == self.queues.entries@,
                i <= es.len(),
                forall|n: Seq<char>| #[trigger]
                    views(out@).contains(n) <==> exists|k: int|
                        0 <= k < i && (#[trigger] es[k]).0@ == n && es[k].1.entries@.len() > 0,
                forall|a: int, b: int|
                    0 <= a < b < out@.len() ==> seq_lt(
                        (#[trigger] views(out@)[a]),
                        (#[trigger] views(out@)[b]),
                    ),
            decreases es.len() - i,
        {
            let ghost before = views(out@);
            if self.queues.value_at(i).len() > 0 {
                out.push(self.queues.key_at(i).clone());
                proof {
                    assert(views(out@) =~= before.push(es[i as int].0@));
                    assert forall|a: int| 0 <= a < before.len() implies seq_lt(
                        #[trigger] before[a],
                        es[i as int].0@,
                    ) by {
                        assert(before.contains(before[a]));
                        let k = choose|k: int|
                            0 <= k < i && (#[trigger] es[k]).0@ == before[a]
                                && es[k].1.entries@.len() > 0;
                        assert(<String as SortKey>::below(es[k].0.model(), es[i as int].0.model()));
                    }
                    assert forall|a: int, b: int| 0 <= a < b < out@.len() implies seq_lt(
                        (#[trigger] views(out@)[a]),
                        (#[trigger] views(out@)[b]),
                    ) by {
                        assert(views(out@)[a] == before[a]);
                        if b < before.len() {
                            assert(views(out@)[b] == before[b]);
                        }
                    }
                }
            }
            proof {
                assert forall|n: Seq<char>| #[trigger]
                    views(out@).contains(n) <==> exists|k: int|
                        0 <= k < i + 1 && (#[trigger] es[k]).0@ == n && es[k].1.entries@.len()
                            > 0 by {
                    if views(out@).contains(n) {
                        let p = choose|p: int| 0 <= p < views(out@).len() && views(out@)[p] == n;
                        if p < before.len() {
                            assert(before[p] == n);
                            assert(before.contains(n));
                            let k = choose|k: int|
                                0 <= k < i && (#[trigger] es[k]).0@ == n && es[k].1.entries@.len()
                                    > 0;
                            assert(es[k].0@ == n);
                        } else {
                            assert(es[i as int].0@ == n);
                        }
                    }
                    if exists|k: int|
                        0 <= k < i + 1 && (#[trigger] es[k]).0@ == n && es[k].1.entries@.len()
                            > 0 {
                        let k = choose|k: int|
                            0 <= k < i + 1 && (#[trigger] es[k]).0@ == n && es[k].1.entries@.len()
                                > 0;
                        if k < i {
                            assert(es[k].0@ == n);
                            assert(before.contains(n));
                            let p = choose|p: int| 0 <= p < before.len() && before[p] == n;
                            assert(views(out@)[p] == n);
                        } else {
                            assert(views(out@)[before.len() as int] == n);
                        }
                    }
                }
            }
            i = i + 1;
        }
        proof {
            assert forall|n: Seq<char>| #[trigger]
                views(out@).contains(n) <==> queued(*self, n) != Set::<Seq<u8>>::empty() by {
                if views(out@).contains(n) {
                    let k = choose|k: int|
                        0 <= k < es.len() && (#[trigger] es[k]).0@ == n && es[k].1.entries@.len()
                            > 0;
                    lemma_entry_at(es, k);
                    assert(self.queues@[n].wf());
                    lemma_entry_at(es[k].1.entries@, 0);
                    assert(queued(*self, n).contains(es[k].1.entries@[0].0@));
                }
                if queued(*self, n) != Set::<Seq<u8>>::empty() {
                    assert(self.queues@.dom().contains(n));
                    let k = crate::sorted_map::place_of(es, n);
                    assert(es[k].0@ == n);
                    if es[k].1.entries@.len() == 0 {
                        assert(queued(*self, n) =~= Set::<Seq<u8>>::empty());
                    }
                }
            }
        }
        out
    }

    /// Whether any row waits.
    pub fn has_pending_embeds(&self) -> (r: bool)
        requires
            self.wf(),
        ensures
            r == exists|n: Seq<char>| #[trigger] queued(*self, n) != Set::<Seq<u8>>::empty(),
    {
        let names = self.pending_embed_indexes();
        proof {
            if names@.len() > 0 {
                assert(views(names@)[0] == names@[0]@);
                assert(views(names@).contains(names@[0]@));
            }
            if exists|n: Seq<char>| #[trigger] queued(*self, n) != Set::<Seq<u8>>::empty() {
                let n = choose|n: Seq<char>| #[trigger]
                    queued(*self, n) != Set::<Seq<u8>>::empty();
                assert(views(names@).contains(n));
                assert(views(names@).len() == names@.len());
            }
        }
        names.len() > 0
    }
}

proof fn lemma_take_contains(ks: Seq<Seq<u8>>, i: int, k: Seq<u8>)
    requires
        0 <= i < ks.len(),
    ensures
        ks.take(i + 1).contains(k) <==> ks.take(i).contains(k) || ks[i] == k,
{
    let a = ks.take(i);
    let b = ks.take(i + 1);
    if b.contains(k) {
        let p = choose|p: int| 0 <= p < b.len() && b[p] == k;
        if p < i {
            assert(a[p] == k);
        }
    }
    if a.contains(k) {
        let p = choose|p: int| 0 <= p < a.len() && a[p] == k;
        assert(b[p] == k);
    }
    assert(b[i] == ks[i]);
}

proof fn lemma_lowest_agree(a: Seq<Seq<u8>>, b: Seq<Seq<u8>>, all: Set<Seq<u8>>, limit: nat, i: int)
    requires
        lowest(a, all, limit),
        lowest(b, all, limit),
        0 <= i <= a.len(),
        i <= b.len(),
    ensures
        a.take(i) == b.take(i),
    decreases i,
{
    if i > 0 {
        lemma_lowest_agree(a, b, all, limit, i - 1);
        lemma_lowest_bound(a, b, all, limit, i - 1);
        lemma_lowest_bound(b, a, all, limit, i - 1);
        let x = a[i - 1];
        let y = b[i - 1];
        if x != y {
            lemma_bytes_lt_trans(x, y, x);
            lemma_bytes_lt_irrefl(x);
        }
        assert forall|j: int| 0 <= j < i implies a[j] == b[j] by {
            if j < i - 1 {
                assert(a.take(i - 1)[j] == b.take(i - 1)[j]);
            }
        }
        assert(a.take(i) =~= b.take(i));
    }
}

/// Where two lists of the lowest keys agree up to a place, the one is not above
/// the other there.
proof fn lemma_lowest_bound(a: Seq<Seq<u8>>, b: Seq<Seq<u8>>, all: Set<Seq<u8>>, limit: nat, i: int)
    requires
        lowest(a, all, limit),
        lowest(b, all, limit),
        0 <= i < a.len(),
        i < b.len(),
        a.take(i) == b.take(i),
    ensures
        b[i] == a[i] || bytes_lt(b[i], a[i]),
{
    assert(all.contains(a[i]));
    if b.contains(a[i]) {
        let j = b.index_of(a[i]);
        if j < i {
            assert(a.take(i)[j] == b.take(i)[j]);
            assert(bytes_lt(a[j], a[i]));
            lemma_bytes_lt_irrefl(a[i]);
        } else if j > i {
            assert(bytes_lt(b[i], b[j]));
        }
    }
}

/// There is one list of the lowest keys of a set.
proof fn lemma_front(cs: Seq<Seq<u8>>, all: Set<Seq<u8>>, limit: nat)
    requires
        lowest(cs, all, limit),
    ensures
        front(all, limit) == cs,
{
    let f = front(all, limit);
    assert(lowest(f, all, limit));
    assert(cs.take(cs.len() as int) =~= cs);
    assert(f.take(f.len() as int) =~= f);
    if cs.len() <= f.len() {
        lemma_lowest_agree(cs, f, all, limit, cs.len() as int);
        lemma_lowest_as_long(cs, f, all, limit);
    } else {
        lemma_lowest_agree(f, cs, all, limit, f.len() as int);
        lemma_lowest_as_long(f, cs, all, limit);
    }
}

proof fn lemma_lowest_as_long(a: Seq<Seq<u8>>, b: Seq<Seq<u8>>, all: Set<Seq<u8>>, limit: nat)
    requires
        lowest(a, all, limit),
        lowest(b, all, limit),
        a.len() <= b.len(),
        a == b.take(a.len() as int),
    ensures
        a.len() == b.len(),
{
    if a.len() < b.len() {
        let k = b[a.len() as int];
        assert(all.contains(k));
        if a.contains(k) {
            let j = a.index_of(k);
            assert(b[j] == k);
            assert(bytes_lt(b[j], b[a.len() as int]));
            lemma_bytes_lt_irrefl(k);
        }
    }
}

/// Whether a row was said to have this text, or none.
pub open spec fn says_text<T: Fn(&str, &Vec<u8>) -> Option<String>>(
    t: T,
    name: Seq<char>,
    key: Seq<u8>,
    r: Option<Seq<char>>,
) -> bool {
    exists|n: &str, k: Vec<u8>, o: Option<String>| #[trigger]
        call_ensures(t, (n, &k), o) && n@ == name && k@ == key && crate::catalog::opt_view(o) == r
}

/// The text that a row now has at the column of an index, if it has one.
pub open spec fn text_at<T: Fn(&str, &Vec<u8>) -> Option<String>>(
    t: T,
    name: Seq<char>,
    key: Seq<u8>,
) -> Option<Seq<char>> {
    choose|r: Option<Seq<char>>| says_text(t, name, key, r)
}

/// Whether a function gives the texts of rows, always the same.
pub open spec fn is_text_source<T: Fn(&str, &Vec<u8>) -> Option<String>>(t: T) -> bool {
    &&& forall|n: &str, k: &Vec<u8>| call_requires(t, (n, k))
    &&& forall|n: &str, m: &str, k: &Vec<u8>, l: &Vec<u8>, x: Option<String>, y: Option<String>|
        #![trigger call_ensures(t, (n, k), x), call_ensures(t, (m, l), y)]
        n@ == m@ && k@ == l@ && call_ensures(t, (n, k), x) && call_ensures(t, (m, l), y)
            ==> crate::catalog::opt_view(x) == crate::catalog::opt_view(y)
}

fn read_text<T: Fn(&str, &Vec<u8>) -> Option<String>>(t: &T, name: &str, key: &Vec<u8>) -> (r: Option<
    String,
>)
    requires
        is_text_source(*t),
    ensures
        crate::catalog::opt_view(r) == text_at(*t, name@, key@),
{
    let r = t(name, key);
    proof {
        assert(call_ensures(*t, (name, key), r));
        assert(says_text(*t, name@, key@, crate::catalog::opt_view(r)));
        let o = text_at(*t, name@, key@);
        assert(says_text(*t, name@, key@, o));
        let (n, k, x) = choose|n: &str, k: Vec<u8>, x: Option<String>| #[trigger]
            call_ensures(*t, (n, &k), x) && n@ == name@ && k@ == key@ && crate::catalog::opt_view(x)
                == o;
        assert(call_ensures(*t, (n, &k), x));
    }
    r
}

/// Whether an index was said to be there, with its table.
pub open spec fn is_here<W: Fn(&str) -> bool>(here: W, name: Seq<char>) -> bool {
    exists|n: &str| n@ == name && #[trigger] call_ensures(here, (n,), true)
}

fn ask_here<W: Fn(&str) -> bool>(here: &W, name: &str) -> (r: bool)
    requires
        is_name_test(*here),
    ensures
        r == is_here(*here, name@),
{
    here(name)
}

/// The keys whose rows have a text, or have none, in order.
pub open spec fn texted<T: Fn(&str, &Vec<u8>) -> Option<String>>(
    t: T,
    name: Seq<char>,
    keys: Seq<Seq<u8>>,
    there: bool,
) -> Seq<Seq<u8>>
    decreases keys.len(),
{
    if keys.len() == 0 {
        Seq::empty()
    } else {
        let before = texted(t, name, keys.drop_last(), there);
        if (text_at(t, name, keys.last()) is Some) == there {
            before.push(keys.last())
        } else {
            before
        }
    }
}

/// The texts of rows that have one.
pub open spec fn texts_at<T: Fn(&str, &Vec<u8>) -> Option<String>>(
    t: T,
    name: Seq<char>,
    keys: Seq<Seq<u8>>,
) -> Seq<Seq<char>> {
    keys.map_values(|k: Seq<u8>| text_at(t, name, k)->0)
}

proof fn lemma_texted<T: Fn(&str, &Vec<u8>) -> Option<String>>(
    t: T,
    name: Seq<char>,
    keys: Seq<Seq<u8>>,
    there: bool,
    k: Seq<u8>,
)
    ensures
        texted(t, name, keys, there).contains(k) <==> keys.contains(k) && (text_at(t, name, k)
            is Some) == there,
    decreases keys.len(),
{
    if keys.len() > 0 {
        let init = keys.drop_last();
        lemma_texted(t, name, init, there, k);
        let before = texted(t, name, init, there);
        let all = texted(t, name, keys, there);
        if before.contains(k) {
            let p = before.index_of(k);
            assert(all[p] == k);
        }
        if init.contains(k) {
            let p = init.index_of(k);
            assert(keys[p] == k);
        }
        if keys.contains(k) && !init.contains(k) {
            let p = keys.index_of(k);
            if p < init.len() {
                assert(init[p] == k);
            }
            assert(keys.last() == k);
            if (text_at(t, name, k) is Some) == there {
                assert(all[before.len() as int] == k);
            }
        }
        if all.contains(k) && !before.contains(k) {
            let p = all.index_of(k);
            if p < before.len() {
                assert(before[p] == k);
            }
            assert(keys[keys.len() - 1] == k);
        }
    }
}

/// The keys of a page of rows that have to wait for their embedding: live ones
/// with a text, that are not embedded yet.
pub open spec fn to_embed<H: Fn(&Vec<u8>) -> bool, X: Fn(&Vec<u8>) -> bool>(
    has_text: H,
    embedded: X,
    rows: Seq<VersionedRow>,
) -> Seq<Seq<u8>>
    decreases rows.len(),
{
    if rows.len() == 0 {
        Seq::empty()
    } else {
        let before = to_embed(has_text, embedded, rows.drop_last());
        let last = rows.last();
        if last.value is Some && told(has_text, last.value->0) && !told(embedded, last.key) {
            before.push(last.key@)
        } else {
            before
        }
    }
}

/// What a test says of bytes.
pub open spec fn told<H: Fn(&Vec<u8>) -> bool>(h: H, bytes: Vec<u8>) -> bool {
    choose|r: bool| call_ensures(h, (&bytes,), r)
}

/// Whether a test always says the same.
pub open spec fn is_byte_test<H: Fn(&Vec<u8>) -> bool>(h: H) -> bool {
    &&& forall|b: &Vec<u8>| call_requires(h, (b,))
    &&& forall|b: &Vec<u8>, x: bool, y: bool|
        call_ensures(h, (b,), x) && call_ensures(h, (b,), y) ==> x == y
}

fn tell<H: Fn(&Vec<u8>) -> bool>(h: &H, bytes: &Vec<u8>) -> (r: bool)
    requires
        is_byte_test(*h),
    ensures
        r == told(*h, *bytes),
{
    let r = h(bytes);
    proof {
        assert(call_ensures(*h, (bytes,), r));
    }
    r
}

/// Rows of a managed index that were embedded together.
pub struct Embedded {
    pub name: String,
    pub keys: Vec<Vec<u8>>,
    /// A vector for each, its components by their IEEE-754 bits.
    pub vectors: Vec<Vec<u32>>,
}

/// Whether rows were embedded as they are: the vectors are the embedder's for
/// their texts, of the right dimension.
pub open spec fn embedded_from<
    T: Fn(&str, &Vec<u8>) -> Option<String>,
    E: Fn(&Vec<String>) -> Result<Vec<Vec<u32>>, EngineError>,
>(t: T, e: E, dim: usize, b: Embedded) -> bool {
    &&& exists|texts: Vec<String>|
        views(texts@) == texts_at(t, b.name@, key_views(b.keys@)) && #[trigger] call_ensures(
            e,
            (&texts,),
            Ok(b.vectors),
        )
    &&& forall|i: int|
        0 <= i < b.keys@.len() ==> text_at(t, b.name@, (#[trigger] b.keys@[i])@) is Some
    &&& of_dim(b.vectors@, dim)
}

/// Whether a row is among embedded ones.
pub open spec fn was_embedded(bs: Seq<Embedded>, name: Seq<char>, key: Seq<u8>) -> bool {
    exists|i: int|
        0 <= i < bs.len() && (#[trigger] bs[i]).name@ == name && key_views(bs[i].keys@).contains(key)
}

/// Whether every vector has this dimension.
pub open spec fn of_dim(vectors: Seq<Vec<u32>>, dim: usize) -> bool {
    forall|i: int| 0 <= i < vectors.len() ==> (#[trigger] vectors[i])@.len() == dim
}

/// Whether texts were given to the embedder, and what came back could not be
/// used: an error, or vectors of another dimension.
pub open spec fn refused<E: Fn(&Vec<String>) -> Result<Vec<Vec<u32>>, EngineError>>(
    e: E,
    dim: usize,
    texts: Seq<Seq<char>>,
) -> bool {
    exists|v: Vec<String>, r: Result<Vec<Vec<u32>>, EngineError>|
        views(v@) == texts && #[trigger] call_ensures(e, (&v,), r) && (r matches Ok(vs) ==> !of_dim(
            vs@,
            dim,
        ))
}

/// The keys that wait once `n` batches are through: each takes the lowest keys
/// off the queue, embedded or without a text.
pub open spec fn waiting_after(all: Set<Seq<u8>>, n: nat) -> Set<Seq<u8>>
    decreases n,
{
    if n == 0 {
        all
    } else {
        let waiting = waiting_after(all, (n - 1) as nat);
        waiting.difference(key_set_of(front(waiting, EMBED_BATCH as nat)))
    }
}

/// The rows of an index's next batch: those with a text among the lowest keys
/// that wait.
pub open spec fn next_batch<T: Fn(&str, &Vec<u8>) -> Option<String>>(
    t: T,
    name: Seq<char>,
    waiting: Set<Seq<u8>>,
) -> Seq<Seq<u8>> {
    texted(t, name, front(waiting, EMBED_BATCH as nat), true)
}

/// Whether batches are the ones embedded of the keys that wait under an index,
/// and `left` is what waits then: each batch holds the next rows with a text,
/// and after the last there is no text among the lowest keys, or the embedder
/// could not be used for theirs. Keys without a text among those are off the
/// queue.
pub open spec fn drains<
    T: Fn(&str, &Vec<u8>) -> Option<String>,
    E: Fn(&Vec<String>) -> Result<Vec<Vec<u32>>, EngineError>,
>(
    t: T,
    e: E,
    dim: usize,
    name: Seq<char>,
    all: Set<Seq<u8>>,
    bs: Seq<Embedded>,
    left: Set<Seq<u8>>,
) -> bool {
    let last = waiting_after(all, bs.len());
    &&& batches(t, e, dim, name, all, bs)
    &&& stopped(t, e, dim, name, last)
    &&& left == last.difference(
        key_set_of(texted(t, name, front(last, EMBED_BATCH as nat), false)),
    )
}

/// Whether these are the first batches of the keys that wait under an index.
pub open spec fn batches<
    T: Fn(&str, &Vec<u8>) -> Option<String>,
    E: Fn(&Vec<String>) -> Result<Vec<Vec<u32>>, EngineError>,
>(t: T, e: E, dim: usize, name: Seq<char>, all: Set<Seq<u8>>, bs: Seq<Embedded>) -> bool {
    forall|i: int|
        0 <= i < bs.len() ==> {
            let b = #[trigger] bs[i];
            &&& b.name@ == name
            &&& key_views(b.keys@) == next_batch(t, name, waiting_after(all, i as nat))
            &&& b.keys@.len() > 0
            &&& embedded_from(t, e, dim, b)
        }
}

/// Whether a drain of an index stops with these keys waiting.
pub open spec fn stopped<
    T: Fn(&str, &Vec<u8>) -> Option<String>,
    E: Fn(&Vec<String>) -> Result<Vec<Vec<u32>>, EngineError>,
>(t: T, e: E, dim: usize, name: Seq<char>, waiting: Set<Seq<u8>>) -> bool {
    let keys = next_batch(t, name, waiting);
    keys.len() == 0 || refused(e, dim, texts_at(t, name, keys))
}

/// Whether a drain of an index gives these batches and leaves these keys: none
/// and all of them where the index is not there.
pub open spec fn drains_here<
    W: Fn(&str) -> bool,
    T: Fn(&str, &Vec<u8>) -> Option<String>,
    E: Fn(&Vec<String>) -> Result<Vec<Vec<u32>>, EngineError>,
>(
    h: W,
    t: T,
    e: E,
    dim: usize,
    name: Seq<char>,
    all: Set<Seq<u8>>,
    bs: Seq<Embedded>,
    left: Set<Seq<u8>>,
) -> bool {
    if is_here(h, name) {
        drains(t, e, dim, name, all, bs, left)
    } else {
        bs.len() == 0 && left == all
    }
}

/// Whether batches are those of these indexes, one index after the other. What
/// waits under an index that is gone, or whose table is, goes on waiting.
pub open spec fn drained<
    W: Fn(&str) -> bool,
    T: Fn(&str, &Vec<u8>) -> Option<String>,
    E: Fn(&Vec<String>) -> Result<Vec<Vec<u32>>, EngineError>,
>(
    h: W,
    t: T,
    e: E,
    dim: usize,
    names: Seq<Seq<char>>,
    before: EmbedQueue,
    after: EmbedQueue,
    bs: Seq<Embedded>,
) -> bool
    decreases names.len(),
{
    if names.len() == 0 {
        bs.len() == 0
    } else {
        let n = names.last();
        exists|m: int|
            0 <= m <= bs.len() && drains_here(
                h,
                t,
                e,
                dim,
                n,
                queued(before, n),
                #[trigger] bs.skip(m),
                queued(after, n),
            ) && drained(h, t, e, dim, names.drop_last(), before, after, bs.take(m))
    }
}

/// Only the queues of the drained indexes matter.
proof fn lemma_drained_holds<
    W: Fn(&str) -> bool,
    T: Fn(&str, &Vec<u8>) -> Option<String>,
    E: Fn(&Vec<String>) -> Result<Vec<Vec<u32>>, EngineError>,
>(
    h: W,
    t: T,
    e: E,
    dim: usize,
    names: Seq<Seq<char>>,
    before: EmbedQueue,
    after: EmbedQueue,
    later: EmbedQueue,
    bs: Seq<Embedded>,
)
    requires
        drained(h, t, e, dim, names, before, after, bs),
        forall|i: int|
            0 <= i < names.len() ==> queued(later, #[trigger] names[i]) == queued(after, names[i]),
    ensures
        drained(h, t, e, dim, names, before, later, bs),
    decreases names.len(),
{
    if names.len() > 0 {
        let n = names.last();
        assert(n == names[names.len() - 1]);
        let m = choose|m: int|
            0 <= m <= bs.len() && drains_here(
                h,
                t,
                e,
                dim,
                n,
                queued(before, n),
                #[trigger] bs.skip(m),
                queued(after, n),
            ) && drained(h, t, e, dim, names.drop_last(), before, after, bs.take(m));
        let init = names.drop_last();
        assert forall|i: int| 0 <= i < init.len() implies queued(later, #[trigger] init[i])
            == queued(after, init[i]) by {
            assert(init[i] == names[i]);
        }
        lemma_drained_holds(h, t, e, dim, init, before, after, later, bs.take(m));
        assert(drains_here(h, t, e, dim, n, queued(before, n), bs.skip(m), queued(later, n)));
    }
}

fn check_dim(vectors: &Vec<Vec<u32>>, dim: usize) -> (r: bool)
    ensures
        r == of_dim(vectors@, dim),
{
    let mut i: usize = 0;
    while i < vectors.len()
        invariant
            i <= vectors@.len(),
            forall|k: int| 0 <= k < i ==> (#[trigger] vectors@[k])@.len() == dim,
        decreases vectors@.len() - i,
    {
        if vectors[i].len() != dim {
            return false;
        }
        i = i + 1;
    }
    true
}

proof fn lemma_queue_finite(q: EmbedQueue, name: Seq<char>)
    requires
        q.wf(),
    ensures
        queued(q, name).finite(),
{
    if q.queues@.dom().contains(name) {
        let es = q.queues@[name].entries@;
        let ks = es.map_values(|e: (Vec<u8>, ())| e.0@);
        let all = queued(q, name);
        assert forall|k: Seq<u8>| all.contains(k) implies ks.to_set().contains(k) by {
            let p = crate::sorted_map::place_of(es, k);
            assert(es[p].0.model() == k);
            assert(ks[p] == k);
        }
        vstd::seq_lib::seq_to_set_is_finite(ks);
        vstd::set_lib::lemma_set_subset_finite(ks.to_set(), all);
    }
}

impl EmbedQueue {
    /// Queues the rows of a page of a managed index's table that have a text
    /// and are not embedded yet: `has_text` says whether a payload has one,
    /// `embedded` whether a key's row is in the index.
    pub fn enqueue_unembedded<H: Fn(&Vec<u8>) -> bool, X: Fn(&Vec<u8>) -> bool>(
        &mut self,
        name: &str,
        managed: bool,
        rows: &Vec<VersionedRow>,
        has_text: &H,
        embedded: &X,
    )
        requires
            old(self).wf(),
            is_byte_test(*has_text),
            is_byte_test(*embedded),
        ensures
            final(self).wf(),
            queue_set(
                *old(self),
                *final(self),
                name@,
                if managed {
                    queued(*old(self), name@).union(
                        key_set_of(to_embed(*has_text, *embedded, rows@)),
                    )
                } else {
                    queued(*old(self), name@)
                },
            ),
    {
        if !managed {
            return ;
        }
        let mut keys: Vec<Vec<u8>> = Vec::new();
        let mut i: usize = 0;
        proof {
            assert(rows@.take(0) =~= Seq::<VersionedRow>::empty());
            assert(key_views(keys@) =~= Seq::<Seq<u8>>::empty());
        }
        while i < rows.len()
            invariant
                is_byte_test(*has_text),
                is_byte_test(*embedded),
                i <= rows@.len(),
                key_views(keys@) == to_embed(*has_text, *embedded, rows@.take(i as int)),
            decreases rows@.len() - i,
        {
            let ghost before = key_views(keys@);
            proof {
                assert(rows@.take(i + 1).drop_last() =~= rows@.take(i as int));
                assert(rows@.take(i + 1).last() == rows@[i as int]);
            }
            if let Some(bytes) = &rows[i].value {
                if tell(has_text, bytes) && !tell(embedded, &rows[i].key) {
                    keys.push(copy_bytes(rows[i].key.as_slice()));
                    proof {
                        assert(key_views(keys@) =~= before.push(rows@[i as int].key@));
                    }
                }
            }
            i = i + 1;
        }
        proof {
            assert(rows@.take(rows@.len() as int) =~= rows@);
        }
        self.enqueue_all(name, &keys);
    }

    /// Up to `limit` rows that wait under an index, the lowest keys first, with
    /// their texts. Those among them whose text is gone are taken off the queue.
    /// `here` is whether the index and its table are there: where they are not,
    /// there is nothing to embed and the rows go on waiting.
    pub fn peek_embed_batch<T: Fn(&str, &Vec<u8>) -> Option<String>>(
        &mut self,
        name: &str,
        here: bool,
        limit: usize,
        text: &T,
    ) -> (r: (Vec<Vec<u8>>, Vec<String>))
        requires
            old(self).wf(),
            is_text_source(*text),
        ensures
            final(self).wf(),
            !here ==> r.0@.len() == 0 && *final(self) == *old(self),
            here ==> exists|cs: Seq<Seq<u8>>| #[trigger]
                lowest(cs, queued(*old(self), name@), limit as nat) && key_views(r.0@) == texted(
                    *text,
                    name@,
                    cs,
                    true,
                ) && queue_set(
                    *old(self),
                    *final(self),
                    name@,
                    queued(*old(self), name@).difference(
                        key_set_of(texted(*text, name@, cs, false)),
                    ),
                ),
            views(r.1@) == texts_at(*text, name@, key_views(r.0@)),
    {
        if !here {
            let none: (Vec<Vec<u8>>, Vec<String>) = (Vec::new(), Vec::new());
            proof {
                assert(views(none.1@) =~= texts_at(*text, name@, key_views(none.0@)));
            }
            return none;
        }
        let candidates = self.peek(name, limit);
        let ghost cs = key_views(candidates@);
        let mut keys: Vec<Vec<u8>> = Vec::new();
        let mut texts: Vec<String> = Vec::new();
        let mut gone: Vec<Vec<u8>> = Vec::new();
        let mut i: usize = 0;
        proof {
            assert(cs.take(0) =~= Seq::<Seq<u8>>::empty());
            assert(key_views(keys@) =~= Seq::<Seq<u8>>::empty());
            assert(key_views(gone@) =~= Seq::<Seq<u8>>::empty());
            assert(views(texts@) =~= texts_at(*text, name@, key_views(keys@)));
        }
        while i < candidates.len()
            invariant
                is_text_source(*text),
                cs == key_views(candidates@),
                i <= candidates@.len(),
                key_views(keys@) == texted(*text, name@, cs.take(i as int), true),
                key_views(gone@) == texted(*text, name@, cs.take(i as int), false),
                views(texts@) == texts_at(*text, name@, key_views(keys@)),
            decreases candidates@.len() - i,
        {
            let ghost kv = key_views(keys@);
            let ghost gv = key_views(gone@);
            let ghost tv = views(texts@);
            proof {
                assert(cs.take(i + 1).drop_last() =~= cs.take(i as int));
                assert(cs.take(i + 1).last() == candidates@[i as int]@);
            }
            let key = copy_bytes(candidates[i].as_slice());
            match read_text(text, name, &candidates[i]) {
                Some(t) => {
                    let ghost tx = t@;
                    keys.push(key);
                    texts.push(t);
                    proof {
                        assert(key_views(keys@) =~= kv.push(cs[i as int]));
                        assert(views(texts@) =~= tv.push(tx));
                        assert(texts_at(*text, name@, key_views(keys@)) =~= tv.push(tx));
                    }
                },
                None => {
                    gone.push(key);
                    proof {
                        assert(key_views(gone@) =~= gv.push(cs[i as int]));
                    }
                },
            }
            i = i + 1;
        }
        proof {
            assert(cs.take(cs.len() as int) =~= cs);
            assert(lowest(cs, queued(*old(self), name@), limit as nat));
        }
        self.drop_all(name, &gone);
        (keys, texts)
    }

    /// Embeds the rows that wait under one index, batch by batch, until none is
    /// left, one cannot be embedded, or a whole batch is gone.
    fn drain_index<
        T: Fn(&str, &Vec<u8>) -> Option<String>,
        E: Fn(&Vec<String>) -> Result<Vec<Vec<u32>>, EngineError>,
    >(&mut self, name: &String, dim: usize, text: &T, embed: &E, out: &mut Vec<Embedded>)
        requires
            old(self).wf(),
            is_text_source(*text),
            forall|v: &Vec<String>| call_requires(*embed, (v,)),
            forall|i: int|
                0 <= i < old(out)@.len() ==> embedded_from(
                    *text,
                    *embed,
                    dim,
                    #[trigger] old(out)@[i],
                ),
        ensures
            final(self).wf(),
            forall|n: Seq<char>| n != name@ ==> #[trigger] queued(*final(self), n) == queued(
                *old(self),
                n,
            ),
            old(out)@.is_prefix_of(final(out)@),
            forall|i: int|
                0 <= i < final(out)@.len() ==> embedded_from(
                    *text,
                    *embed,
                    dim,
                    #[trigger] final(out)@[i],
                ),
            forall|i: int|
                old(out)@.len() <= i < final(out)@.len() ==> (#[trigger] final(out)@[i]).name@
                    == name@,
            queued(*final(self), name@).subset_of(queued(*old(self), name@)),
            forall|k: Seq<u8>| #[trigger]
                queued(*old(self), name@).contains(k) ==> queued(*final(self), name@).contains(k)
                    || text_at(*text, name@, k) is None || was_embedded(final(out)@, name@, k),
            drains(
                *text,
                *embed,
                dim,
                name@,
                queued(*old(self), name@),
                final(out)@.skip(old(out)@.len() as int),
                queued(*final(self), name@),
            ),
    {
        let ghost start = queued(*self, name@);
        let ghost first = out@;
        let mut going = true;
        proof {
            lemma_queue_finite(*self, name@);
            assert(out@.skip(first.len() as int) =~= Seq::<Embedded>::empty());
        }
        while going
            invariant
                self.wf(),
                is_text_source(*text),
                forall|v: &Vec<String>| call_requires(*embed, (v,)),
                start == queued(*old(self), name@),
                first == old(out)@,
                forall|n: Seq<char>| n != name@ ==> #[trigger] queued(*self, n) == queued(
                    *old(self),
                    n,
                ),
                first.is_prefix_of(out@),
                forall|i: int|
                    0 <= i < out@.len() ==> embedded_from(*text, *embed, dim, #[trigger] out@[i]),
                forall|i: int|
                    first.len() <= i < out@.len() ==> (#[trigger] out@[i]).name@ == name@,
                queued(*self, name@).finite(),
                queued(*self, name@).subset_of(start),
                forall|k: Seq<u8>| #[trigger]
                    start.contains(k) ==> queued(*self, name@).contains(k) || text_at(
                        *text,
                        name@,
                        k,
                    ) is None || was_embedded(out@, name@, k),
                batches(*text, *embed, dim, name@, start, out@.skip(first.len() as int)),
                going ==> queued(*self, name@) == waiting_after(
                    start,
                    (out@.len() - first.len()) as nat,
                ),
                !going ==> drains(
                    *text,
                    *embed,
                    dim,
                    name@,
                    start,
                    out@.skip(first.len() as int),
                    queued(*self, name@),
                ),
            decreases queued(*self, name@).len() + (if going {
                    1nat
                } else {
                    0nat
                }),
        {
            let ghost waiting = queued(*self, name@);
            let ghost done = out@;
            let (keys, texts) = self.peek_embed_batch(name.as_str(), true, EMBED_BATCH, text);
            let ghost cs = choose|cs: Seq<Seq<u8>>| #[trigger]
                lowest(cs, waiting, EMBED_BATCH as nat) && key_views(keys@) == texted(
                    *text,
                    name@,
                    cs,
                    true,
                ) && queued(*self, name@) == waiting.difference(
                    key_set_of(texted(*text, name@, cs, false)),
                );
            let ghost left = queued(*self, name@);
            let ghost ours = done.skip(first.len() as int);
            proof {
                lemma_front(cs, waiting, EMBED_BATCH as nat);
                assert(ours.len() == done.len() - first.len());
                assert(key_views(keys@) == next_batch(*text, name@, waiting));
                assert(key_views(keys@).len() == keys@.len());
                assert(left == waiting.difference(key_set_of(texted(*text, name@, cs, false))));
                assert(left.subset_of(waiting));
                vstd::set_lib::lemma_set_subset_finite(waiting, left);
                vstd::set_lib::lemma_len_subset(left, waiting);
                assert forall|k: Seq<u8>| #[trigger] waiting.contains(k) implies left.contains(k)
                    || text_at(*text, name@, k) is None by {
                    lemma_texted(*text, name@, cs, false, k);
                }
            }
            going = false;
            if keys.len() > 0 {
                let answer = embed(&texts);
                proof {
                    if answer is Err || !of_dim(answer->Ok_0@, dim) {
                        assert(call_ensures(*embed, (&texts,), answer));
                        assert(refused(*embed, dim, texts_at(*text, name@, key_views(keys@))));
                    }
                }
                match answer {
                    Err(_) => {},
                    Ok(vectors) => {
                        if check_dim(&vectors, dim) {
                            self.drop_all(name.as_str(), &keys);
                            let ghost kv = key_views(keys@);
                            let batch = Embedded { name: name.clone(), keys, vectors };
                            proof {
                                assert(call_ensures(*embed, (&texts,), Ok(batch.vectors)));
                                assert forall|i: int| 0 <= i < batch.keys@.len() implies text_at(
                                    *text,
                                    name@,
                                    (#[trigger] batch.keys@[i])@,
                                ) is Some by {
                                    assert(kv[i] == batch.keys@[i]@);
                                    assert(kv.contains(kv[i]));
                                    lemma_texted(*text, name@, cs, true, kv[i]);
                                }
                                assert(embedded_from(*text, *embed, dim, batch));
                                let now = queued(*self, name@);
                                assert(now == left.difference(key_set_of(kv)));
                                assert(now.subset_of(left));
                                vstd::set_lib::lemma_set_subset_finite(left, now);
                                // The first key of the batch was waiting and is not any more.
                                let k = kv[0];
                                assert(kv[0] == batch.keys@[0]@);
                                assert(kv.contains(k));
                                lemma_texted(*text, name@, cs, true, k);
                                let p = cs.index_of(k);
                                assert(waiting.contains(cs[p]));
                                lemma_texted(*text, name@, cs, false, k);
                                assert(left.contains(k));
                                assert(now.subset_of(left.remove(k)));
                                vstd::set_lib::lemma_len_subset(now, left.remove(k));
                            }
                            out.push(batch);
                            proof {
                                let last = done.len() as int;
                                assert(out@[last].name@ == name@);
                                assert(key_views(out@[last].keys@) == kv);
                                assert forall|k: Seq<u8>| #[trigger] start.contains(k) implies queued(
                                    *self,
                                    name@,
                                ).contains(k) || text_at(*text, name@, k) is None || was_embedded(
                                    out@,
                                    name@,
                                    k,
                                ) by {
                                    if was_embedded(done, name@, k) {
                                        let i = choose|i: int|
                                            0 <= i < done.len() && (#[trigger] done[i]).name@
                                                == name@ && key_views(done[i].keys@).contains(k);
                                        assert(out@[i] == done[i]);
                                    } else if waiting.contains(k) {
                                        if kv.contains(k) {
                                            assert(was_embedded(out@, name@, k));
                                        }
                                    }
                                }
                                assert(out@.drop_last() =~= done);
                                let now = queued(*self, name@);
                                let after = waiting.difference(key_set_of(cs));
                                assert forall|k: Seq<u8>| #[trigger]
                                    now.contains(k) <==> after.contains(k) by {
                                    lemma_texted(*text, name@, cs, true, k);
                                    lemma_texted(*text, name@, cs, false, k);
                                }
                                assert(now =~= after);
                                let all = out@.skip(first.len() as int);
                                assert(all =~= ours.push(out@[last]));
                                assert forall|i: int| 0 <= i < all.len() implies {
                                    let b = #[trigger] all[i];
                                    &&& b.name@ == name@
                                    &&& key_views(b.keys@) == next_batch(
                                        *text,
                                        name@,
                                        waiting_after(start, i as nat),
                                    )
                                    &&& b.keys@.len() > 0
                                    &&& embedded_from(*text, *embed, dim, b)
                                } by {
                                    if i < ours.len() {
                                        assert(all[i] == ours[i]);
                                    }
                                }
                            }
                            going = true;
                        }
                    },
                }
            }
        }
    }

    /// Embeds the rows that wait under every index. A row whose text
    /// is gone is taken off the queue; one that cannot be embedded stays on it,
    /// for the next time, and so do the rows of an index that is not `here`,
    /// with its table.
    pub fn run_embed_drain<
        W: Fn(&str) -> bool,
        T: Fn(&str, &Vec<u8>) -> Option<String>,
        E: Fn(&Vec<String>) -> Result<Vec<Vec<u32>>, EngineError>,
    >(&mut self, dim: usize, here: &W, text: &T, embed: &E) -> (r: Vec<Embedded>)
        requires
            old(self).wf(),
            is_name_test(*here),
            is_text_source(*text),
            forall|v: &Vec<String>| call_requires(*embed, (v,)),
        ensures
            final(self).wf(),
            forall|i: int|
                0 <= i < r@.len() ==> embedded_from(*text, *embed, dim, #[trigger] r@[i]),
            forall|n: Seq<char>| #[trigger]
                queued(*final(self), n).subset_of(queued(*old(self), n)),
            forall|n: Seq<char>, k: Seq<u8>| #[trigger]
                queued(*old(self), n).contains(k) ==> queued(*final(self), n).contains(k)
                    || text_at(*text, n, k) is None || was_embedded(r@, n, k),
            exists|names: Seq<Seq<char>>| #[trigger]
                pending(*old(self), names) && drained(
                    *here,
                    *text,
                    *embed,
                    dim,
                    names,
                    *old(self),
                    *final(self),
                    r@,
                ),
    {
        let names = self.pending_embed_indexes();
        let ghost ns = views(names@);
        let mut out: Vec<Embedded> = Vec::new();
        let mut i: usize = 0;
        while i < names.len()
            invariant
                self.wf(),
                is_name_test(*here),
                is_text_source(*text),
                forall|v: &Vec<String>| call_requires(*embed, (v,)),
                i <= names@.len(),
                ns == views(names@),
                pending(*old(self), ns),
                drained(*here, *text, *embed, dim, ns.take(i as int), *old(self), *self, out@),
                forall|n: Seq<char>|
                    !ns.take(i as int).contains(n) ==> #[trigger] queued(*self, n) == queued(
                        *old(self),
                        n,
                    ),
                forall|j: int|
                    0 <= j < out@.len() ==> embedded_from(*text, *embed, dim, #[trigger] out@[j]),
                forall|n: Seq<char>| #[trigger]
                    queued(*self, n).subset_of(queued(*old(self), n)),
                forall|n: Seq<char>, k: Seq<u8>| #[trigger]
                    queued(*old(self), n).contains(k) ==> queued(*self, n).contains(k) || text_at(
                        *text,
                        n,
                        k,
                    ) is None || was_embedded(out@, n, k),
            decreases names@.len() - i,
        {
            let ghost before = *self;
            let ghost done = out@;
            if ask_here(here, names[i].as_str()) {
                self.drain_index(&names[i], dim, text, embed, &mut out);
            }
            proof {
                let name = names@[i as int]@;
                let through = ns.take(i as int);
                let more = ns.take(i + 1);
                assert(more.drop_last() =~= through);
                assert(more.last() == name);
                assert forall|j: int| 0 <= j < through.len() implies #[trigger] through[j]
                    != name by {
                    assert(seq_lt(ns[j], ns[i as int]));
                    lemma_seq_lt_irrefl(name);
                }
                assert forall|j: int| 0 <= j < through.len() implies queued(
                    *self,
                    #[trigger] through[j],
                ) == queued(before, through[j]) by {}
                lemma_drained_holds(
                    *here,
                    *text,
                    *embed,
                    dim,
                    through,
                    *old(self),
                    before,
                    *self,
                    done,
                );
                assert(queued(before, name) == queued(*old(self), name));
                assert(out@.take(done.len() as int) =~= done);
                assert(drains_here(
                    *here,
                    *text,
                    *embed,
                    dim,
                    name,
                    queued(*old(self), name),
                    out@.skip(done.len() as int),
                    queued(*self, name),
                ));
                assert(drained(*here, *text, *embed, dim, more, *old(self), *self, out@));
                assert forall|n: Seq<char>| !more.contains(n) implies #[trigger] queued(*self, n)
                    == queued(*old(self), n) by {
                    assert(more[i as int] == name);
                    if through.contains(n) {
                        let j = through.index_of(n);
                        assert(more[j] == n);
                    }
                    assert(queued(before, n) == queued(*old(self), n));
                }
                assert forall|n: Seq<char>| #[trigger] queued(*self, n).subset_of(
                    queued(*old(self), n),
                ) by {
                    assert(queued(before, n).subset_of(queued(*old(self), n)));
                    if n != name {
                        assert(queued(*self, n) == queued(before, n));
                    }
                }
                assert forall|n: Seq<char>, k: Seq<u8>| #[trigger]
                    queued(*old(self), n).contains(k) implies queued(*self, n).contains(k)
                    || text_at(*text, n, k) is None || was_embedded(out@, n, k) by {
                    if was_embedded(done, n, k) {
                        let j = choose|j: int|
                            0 <= j < done.len() && (#[trigger] done[j]).name@ == n && key_views(
                                done[j].keys@,
                            ).contains(k);
                        assert(out@[j] == done[j]);
                    } else if n != name {
                        assert(queued(*self, n) == queued(before, n));
                    } else {
                        assert(queued(before, n).contains(k) || text_at(*text, n, k) is None);
                    }
                }
            }
            i = i + 1;
        }
        proof {
            assert(ns.take(ns.len() as int) =~= ns);
        }
        out
    }
}

/// What a written row does to a vector index.
#[derive(Clone, Copy, Debug, PartialEq, Eq, Structural)]
pub enum VectorWrite {
    /// A managed index queues the row; its watermark stays, so that a row lost
    /// before it is embedded is queued again.
    Enqueue,
    /// A managed index forgets a row whose text went away.
    Forget,
    /// The row's vector goes in, and the watermark moves.
    Insert,
    /// The row has no vector: its entry goes, and the watermark moves.
    Remove,
}

/// What a written row does to a vector index: `embed` is whether the index is
/// managed, `has_text` whether the row has a text there that is not empty, and
/// `has_vector` whether it has a vector of the index's dimension.
pub fn vector_write(embed: bool, has_text: bool, has_vector: bool) -> (r: VectorWrite)
    ensures
        r == (if embed {
            if has_text {
                VectorWrite::Enqueue
            } else {
                VectorWrite::Forget
            }
        } else if has_vector {
            VectorWrite::Insert
        } else {
            VectorWrite::Remove
        }),
{
    if embed {
        if has_text {
            VectorWrite::Enqueue
        } else {
            VectorWrite::Forget
        }
    } else if has_vector {
        VectorWrite::Insert
    } else {
        VectorWrite::Remove
    }
}

/// The stamp up to which each vector index is complete.
pub struct VectorWatermarks {
    pub stamps: SortedMap<String, Hlc>,
}

/// The stamp up to which an index is complete; the earliest where none is
/// known.
pub open spec fn watermark_of(w: VectorWatermarks, name: Seq<char>) -> Hlc {
    if w.stamps@.dom().contains(name) {
        w.stamps@[name]
    } else {
        hlc_min()
    }
}

impl VectorWatermarks {
    pub open spec fn wf(&self) -> bool {
        self.stamps.wf()
    }

    /// No index is complete up to anything.
    pub fn new() -> (r: VectorWatermarks)
        ensures
            r.wf(),
            forall|n: Seq<char>| #[trigger] watermark_of(r, n) == hlc_min(),
    {
        VectorWatermarks { stamps: SortedMap::new() }
    }

    /// The stamp up to which an index is complete.
    pub fn get(&self, name: &str) -> (r: Hlc)
        requires
            self.wf(),
        ensures
            r == watermark_of(*self, name@),
    {
        match self.stamps.get(&name.to_owned()) {
            Some(h) => *h,
            None => Hlc::min(),
        }
    }

    /// Moves an index's stamp forward; an older one moves nothing.
    pub fn advance(&mut self, name: &str, hlc: Hlc)
        requires
            old(self).wf(),
        ensures
            final(self).wf(),
            forall|n: Seq<char>| #[trigger]
                watermark_of(*final(self), n) == if n == name@ {
                    hlc_max(watermark_of(*old(self), n), hlc)
                } else {
                    watermark_of(*old(self), n)
                },
    {
        let now = self.get(name);
        self.stamps.insert(name.to_owned(), now.later(hlc));
    }

    /// Sets an index back to the start, for a rebuild.
    pub fn reset(&mut self, name: &str)
        requires
            old(self).wf(),
        ensures
            final(self).wf(),
            forall|n: Seq<char>| #[trigger]
                watermark_of(*final(self), n) == if n == name@ {
                    hlc_min()
                } else {
                    watermark_of(*old(self), n)
                },
    {
        self.stamps.insert(name.to_owned(), Hlc::min());
    }
}

/// The managed vector indexes among a run of definitions, in name order.
pub open spec fn managed(es: Seq<(String, VectorIndexDef)>) -> Seq<Seq<char>>
    decreases es.len(),
{
    if es.len() == 0 {
        Seq::empty()
    } else if es.last().1.embed {
        managed(es.drop_last()).push(es.last().0@)
    } else {
        managed(es.drop_last())
    }
}

impl Database {
    /// The managed vector indexes, whose rows are queued once an embedder is
    /// there.
    pub fn managed_indexes(&self) -> (r: Vec<String>)
        requires
            self.wf(),
        ensures
            views(r@) == managed(self.catalog.vector_indexes.entries@),
    {
        let m = &self.catalog.vector_indexes;
        let ghost es = m.entries@;
        let mut out: Vec<String> = Vec::new();
        let mut i: usize = 0;
        proof {
            assert(es.take(0) =~= Seq::<(String, VectorIndexDef)>::empty());
            assert(views(out@) =~= Seq::<Seq<char>>::empty());
        }
        while i < m.len()
            invariant
                m.wf(),
                es == m.entries@,
                i <= es.len(),
                views(out@) == managed(es.take(i as int)),
            decreases es.len() - i,
        {
            proof {
                assert(es.take(i + 1).drop_last() =~= es.take(i as int));
                assert(es.take(i + 1).last() == es[i as int]);
            }
            if m.value_at(i).embed {
                let ghost before = views(out@);
                out.push(m.key_at(i).clone());
                proof {
                    assert(views(out@) =~= before.push(es[i as int].0@));
                }
            }
            i = i + 1;
        }
        proof {
            assert(es.take(es.len() as int) =~= es);
        }
        out
    }
}

} // verus!
