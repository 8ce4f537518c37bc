//! The applier's watermarks: up to which stamp each table's deferred index
//! maintenance has been applied, and how that is kept on disk.

use vstd::prelude::*;

use crate::error::constraint;
use crate::error::EngineError;
use crate::hlc::Hlc;
use crate::sorted_map::entry_map;
use crate::sorted_map::holds_key;
use crate::sorted_map::lemma_entry_at;
use crate::sorted_map::place_of;
use crate::sorted_map::SortKey;
use crate::sorted_map::SortedMap;

verus! {

/// An error of the JSON reader or writer.
#[verifier::external_type_specification]
#[verifier::external_body]
pub struct ExJsonError(serde_json::Error);

/// A table's stamp as it is written: the table, the physical time and the
/// counter.
pub type Triple = (Seq<char>, u64, u32);

/// Triples by the characters of their tables.
pub open spec fn triples(ts: Seq<(String, u64, u32)>) -> Seq<Triple> {
    ts.map_values(|t: (String, u64, u32)| (t.0@, t.1, t.2))
}

/// What `serde_json::to_vec` writes for a list of triples.
pub uninterp spec fn watermark_json(ts: Seq<(Seq<char>, u64, u32)>) -> Seq<u8>;

/// What `serde_json::from_slice` reads as a list of triples, if it can.
pub uninterp spec fn watermark_parse(bytes: Seq<u8>) -> Option<Seq<(Seq<char>, u64, u32)>>;

/// `serde_json::to_vec` writes a list of strings and numbers as JSON. It fails
/// only where a type's own serialisation does or a map has keys that are no
/// strings, and neither is the case here.
#[verifier::external_body]
fn json_of(ts: &Vec<(String, u64, u32)>) -> (r: Result<Vec<u8>, serde_json::Error>)
    ensures
        r is Ok,
        r->Ok_0@ == watermark_json(triples(ts@)),
{
    serde_json::to_vec(ts)
}

/// `serde_json::from_slice` reads JSON; what it gives depends on the bytes
/// alone, and of what `serde_json::to_vec` wrote for a list of triples it
/// gives that list back.
#[verifier::external_body]
fn json_parsed(bytes: &[u8]) -> (r: Result<Vec<(String, u64, u32)>, serde_json::Error>)
    ensures
        r is Ok <==> watermark_parse(bytes@) is Some,
        r is Ok ==> watermark_parse(bytes@) == Some(triples(r->Ok_0@)),
        forall|ts: Seq<Triple>|
            bytes@ == #[trigger] watermark_json(ts) ==> r is Ok && triples(r->Ok_0@) == ts,
{
    serde_json::from_slice(bytes)
}

/// For each table the stamp up to which its deferred maintenance has been
/// applied. A table without one has never had a deferred write.
pub struct AppliedWatermarks {
    pub stamps: SortedMap<String, Hlc>,
}

impl View for AppliedWatermarks {
    type V = Map<Seq<char>, Hlc>;

    open spec fn view(&self) -> Map<Seq<char>, Hlc> {
        self.stamps@
    }
}

/// Stamps as they are written, in the order of the tables.
pub open spec fn written(es: Seq<(String, Hlc)>) -> Seq<Triple> {
    es.map_values(|e: (String, Hlc)| (e.0@, e.1.physical, e.1.logical))
}

/// The stamps that a list of triples stands for, the later of two for one
/// table.
pub open spec fn read_back(ts: Seq<Triple>) -> Map<Seq<char>, Hlc>
    decreases ts.len(),
{
    if ts.len() == 0 {
        Map::empty()
    } else {
        read_back(ts.drop_last()).insert(
            ts.last().0,
            Hlc { physical: ts.last().1, logical: ts.last().2 },
        )
    }
}

/// What is written of stamps stands for the same stamps.
pub proof fn written_stamps_read_back(w: AppliedWatermarks)
    requires
        w.wf(),
    ensures
        read_back(written(w.stamps.entries@)) == w@,
{
    lemma_read_back(w.stamps.entries@);
}

proof fn lemma_read_back(es: Seq<(String, Hlc)>)
    requires
        crate::sorted_map::ascending(es),
    ensures
        read_back(written(es)) == entry_map(es),
    decreases es.len(),
{
    if es.len() == 0 {
        assert(read_back(written(es)) =~= entry_map(es));
    } else {
        let init = es.drop_last();
        assert(crate::sorted_map::ascending(init)) by {
            assert forall|i: int, j: int| 0 <= i < j < init.len() implies <String as SortKey>::below(
                (#[trigger] init[i]).0.model(),
                (#[trigger] init[j]).0.model(),
            ) by {
                assert(init[i] == es[i]);
                assert(init[j] == es[j]);
            }
        }
        lemma_read_back(init);
        assert(written(es).drop_last() =~= written(init));
        assert(written(es).last() == (es.last().0@, es.last().1.physical, es.last().1.logical));
        let n = es.len() - 1;
        let a = entry_map(init).insert(es.last().0@, es.last().1);
        let b = entry_map(es);
        assert forall|m: Seq<char>| #[trigger] a.dom().contains(m) <==> b.dom().contains(m) by {
            if holds_key(es, m) {
                let p = place_of(es, m);
                if p < n {
                    assert(init[p].0.model() == m);
                }
            }
            if holds_key(init, m) {
                let p = place_of(init, m);
                assert(es[p].0.model() == m);
            }
            assert(es[n].0.model() == es.last().0@);
        }
        assert forall|m: Seq<char>| #[trigger] a.dom().contains(m) implies a[m] == b[m] by {
            if m == es.last().0@ {
                lemma_entry_at(es, n);
            } else {
                let p = place_of(init, m);
                assert(init[p].0.model() == m);
                lemma_entry_at(init, p);
                assert(es[p] == init[p]);
                lemma_entry_at(es, p);
            }
        }
        assert(a =~= b);
    }
}

impl AppliedWatermarks {
    pub open spec fn wf(&self) -> bool {
        self.stamps.wf()
    }

    /// No table has had a deferred write.
    pub fn new() -> (r: AppliedWatermarks)
        ensures
            r.wf(),
            r@ == Map::<Seq<char>, Hlc>::empty(),
    {
        AppliedWatermarks { stamps: SortedMap::new() }
    }

    /// A table's watermark.
    pub fn get(&self, table: &str) -> (r: Option<Hlc>)
        requires
            self.wf(),
        ensures
            r == (if self@.dom().contains(table@) {
                Some(self@[table@])
            } else {
                None
            }),
    {
        match self.stamps.get(&table.to_owned()) {
            Some(h) => Some(*h),
            None => None,
        }
    }

    /// Records that every write of `table` stamped up to `hlc` has had its
    /// maintenance applied.
    pub fn set_applied_watermark(&mut self, table: &str, hlc: Hlc)
        requires
            old(self).wf(),
        ensures
            final(self).wf(),
            final(self)@ == old(self)@.insert(table@, hlc),
    {
        self.stamps.insert(table.to_owned(), hlc);
    }

    /// The watermarks as they are written to disk.
    pub fn encode(&self) -> (r: Result<Vec<u8>, EngineError>)
        requires
            self.wf(),
        ensures
            r matches Ok(b) && b@ == watermark_json(written(self.stamps.entries@)),
    {
        let ghost es = self.stamps.entries@;
        let mut ts: Vec<(String, u64, u32)> = Vec::new();
        let mut i: usize = 0;
        proof {
            assert(triples(ts@) =~= written(es.take(0)));
        }
        while i < self.stamps.len()
            invariant
                self.wf(),
                es == self.stamps.entries@,
                i <= es.len(),
                triples(ts@) == written(es.take(i as int)),
            decreases es.len() - i,
        {
            let ghost before = triples(ts@);
            let h = *self.stamps.value_at(i);
            ts.push((self.stamps.key_at(i).clone(), h.physical, h.logical));
            proof {
                let t = (es[i as int].0@, es[i as int].1.physical, es[i as int].1.logical);
                assert(triples(ts@) =~= before.push(t));
                assert(written(es.take(i + 1)) =~= written(es.take(i as int)).push(t));
            }
            i = i + 1;
        }
        proof {
            assert(es.take(es.len() as int) =~= es);
        }
        match json_of(&ts) {
            Ok(b) => Ok(b),
            Err(_e) => Err(constraint("watermark encode")),
        }
    }

    /// The watermarks of a file's bytes; none where they cannot be read. What
    /// was written is read back.
    pub fn load(bytes: &[u8]) -> (r: AppliedWatermarks)
        ensures
            r.wf(),
            r@ == (match watermark_parse(bytes@) {
                Some(ts) => read_back(ts),
                None => Map::<Seq<char>, Hlc>::empty(),
            }),
            forall|w: AppliedWatermarks|
                w.wf() && bytes@ == watermark_json(#[trigger] written(w.stamps.entries@)) ==> r@
                    == w@,
    {
        let mut r = AppliedWatermarks::new();
        match json_parsed(bytes) {
            Err(_e) => {},
            Ok(list) => {
                r = AppliedWatermarks::from_triples(&list);
            },
        }
        proof {
            assert forall|w: AppliedWatermarks|
                w.wf() && bytes@ == watermark_json(#[trigger] written(w.stamps.entries@)) implies r@
                == w@ by {
                written_stamps_read_back(w);
            }
        }
        r
    }

    /// The watermarks that a list of triples stands for.
    pub fn from_triples(list: &Vec<(String, u64, u32)>) -> (r: AppliedWatermarks)
        ensures
            r.wf(),
            r@ == read_back(triples(list@)),
    {
        let ghost ts = triples(list@);
        let mut r = AppliedWatermarks::new();
        let mut i: usize = 0;
        proof {
            assert(ts.take(0) =~= Seq::<Triple>::empty());
        }
        while i < list.len()
            invariant
                r.wf(),
                i <= list@.len(),
                ts == triples(list@),
                r@ == read_back(ts.take(i as int)),
            decreases list@.len() - i,
        {
            proof {
                assert(ts.take(i + 1).drop_last() =~= ts.take(i as int));
                assert(ts.take(i + 1).last() == ts[i as int]);
                assert(ts[i as int] == (list@[i as int].0@, list@[i as int].1, list@[i as int].2));
            }
            r.set_applied_watermark(list[i].0.as_str(), Hlc::new(list[i].1, list[i].2));
            i = i + 1;
        }
        proof {
            assert(ts.take(ts.len() as int) =~= ts);
        }
        r
    }
}

} // verus!
