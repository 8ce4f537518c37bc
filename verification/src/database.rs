//! The database as its statements see it: the catalog, and the index builds
//! that are still owed.

use vstd::prelude::*;

use crate::catalog::named;
use crate::catalog::option_views;
use crate::catalog::Catalog;
use crate::catalog::CatalogView;
use crate::error::EngineError;
use crate::error::ErrorView;
use crate::hlc::Hlc;
use crate::projection::NameSet;
use crate::text::str_eq;
use crate::text::views;

verus! {

/// What a schema statement did.
#[derive(Clone, Copy, Debug, PartialEq, Eq, Structural)]
pub enum DdlOutcome {
    /// The statement is older than the object's last change: nothing was done.
    Stale,
    /// The object exists already and the statement lets it be.
    Unchanged,
    /// The object is as asked for already: only its version stamp moved.
    Recorded,
    /// The catalog changed.
    Applied,
    /// A definition was replaced by a newer one.
    Replaced,
}

/// The catalog and the index builds that are owed.
pub struct Database {
    pub catalog: Catalog,
    /// Vector indexes whose rows are still being read in.
    pub building_vectors: NameSet,
    /// Search indexes whose startup catch-up is not done. A name counts while
    /// its index is open; one that is built anew is taken out.
    pub building_searches: NameSet,
    /// Secondary indexes whose backfill is owed.
    pub pending_backfills: Vec<String>,
    /// Vector indexes whose backfill is owed.
    pub pending_vector_backfills: Vec<String>,
    /// Geo indexes whose backfill is owed.
    pub pending_geo_backfills: Vec<String>,
    /// Search indexes that are still to be caught up, each with the watermark
    /// to replay from; nothing for one that is filled from scratch.
    pub pending_search_catchups: Vec<(String, Option<Hlc>)>,
}

/// Owed catch-ups by the names of their indexes.
pub open spec fn catchup_views(cs: Seq<(String, Option<Hlc>)>) -> Seq<(Seq<char>, Option<Hlc>)> {
    cs.map_values(|c: (String, Option<Hlc>)| (c.0@, c.1))
}

/// A database as sets and maps of names.
pub struct DbView {
    pub cat: CatalogView,
    pub building_vectors: Set<Seq<char>>,
    pub building_searches: Set<Seq<char>>,
    pub pending_backfills: Seq<Seq<char>>,
    pub pending_vector_backfills: Seq<Seq<char>>,
    pub pending_geo_backfills: Seq<Seq<char>>,
    pub pending_search_catchups: Seq<(Seq<char>, Option<Hlc>)>,
}

impl View for Database {
    type V = DbView;

    open spec fn view(&self) -> DbView {
        DbView {
            cat: self.catalog@,
            building_vectors: self.building_vectors@,
            building_searches: self.building_searches@,
            pending_backfills: views(self.pending_backfills@),
            pending_vector_backfills: views(self.pending_vector_backfills@),
            pending_geo_backfills: views(self.pending_geo_backfills@),
            pending_search_catchups: catchup_views(self.pending_search_catchups@),
        }
    }
}

impl Database {
    pub open spec fn wf(&self) -> bool {
        self.catalog.wf() && self.building_vectors.wf() && self.building_searches.wf()
    }

    /// A database over a catalog, with no index build owed.
    pub fn new(catalog: Catalog) -> (r: Database)
        requires
            catalog.wf(),
        ensures
            r.wf(),
            r.catalog == catalog,
            r@ == (DbView {
                cat: catalog@,
                building_vectors: Set::empty(),
                building_searches: Set::empty(),
                pending_backfills: Seq::empty(),
                pending_vector_backfills: Seq::empty(),
                pending_geo_backfills: Seq::empty(),
                pending_search_catchups: Seq::empty(),
            }),
    {
        let r = Database {
            catalog,
            building_vectors: NameSet::new(),
            building_searches: NameSet::new(),
            pending_backfills: Vec::new(),
            pending_vector_backfills: Vec::new(),
            pending_geo_backfills: Vec::new(),
            pending_search_catchups: Vec::new(),
        };
        proof {
            assert(r@.pending_backfills =~= Seq::<Seq<char>>::empty());
            assert(r@.pending_vector_backfills =~= Seq::<Seq<char>>::empty());
            assert(r@.pending_geo_backfills =~= Seq::<Seq<char>>::empty());
            assert(r@.pending_search_catchups =~= Seq::<(Seq<char>, Option<Hlc>)>::empty());
        }
        r
    }

    /// Hands out the secondary indexes whose backfill is owed and forgets them.
    pub fn take_pending_backfills(&mut self) -> (r: Vec<String>)
        ensures
            views(r@) == old(self)@.pending_backfills,
            final(self)@ == (DbView { pending_backfills: Seq::empty(), ..old(self)@ }),
            old(self).wf() ==> final(self).wf(),
    {
        let mut out: Vec<String> = Vec::new();
        out.append(&mut self.pending_backfills);
        proof {
            assert(views(out@) =~= old(self)@.pending_backfills);
            assert(self@.pending_backfills =~= Seq::<Seq<char>>::empty());
        }
        out
    }

    /// Hands out the vector indexes whose backfill is owed and forgets them.
    pub fn take_pending_vector_backfills(&mut self) -> (r: Vec<String>)
        ensures
            views(r@) == old(self)@.pending_vector_backfills,
            final(self)@ == (DbView { pending_vector_backfills: Seq::empty(), ..old(self)@ }),
            old(self).wf() ==> final(self).wf(),
    {
        let mut out: Vec<String> = Vec::new();
        out.append(&mut self.pending_vector_backfills);
        proof {
            assert(views(out@) =~= old(self)@.pending_vector_backfills);
            assert(self@.pending_vector_backfills =~= Seq::<Seq<char>>::empty());
        }
        out
    }

    /// Hands out the geo indexes whose backfill is owed and forgets them.
    pub fn take_pending_geo_backfills(&mut self) -> (r: Vec<String>)
        ensures
            views(r@) == old(self)@.pending_geo_backfills,
            final(self)@ == (DbView { pending_geo_backfills: Seq::empty(), ..old(self)@ }),
            old(self).wf() ==> final(self).wf(),
    {
        let mut out: Vec<String> = Vec::new();
        out.append(&mut self.pending_geo_backfills);
        proof {
            assert(views(out@) =~= old(self)@.pending_geo_backfills);
            assert(self@.pending_geo_backfills =~= Seq::<Seq<char>>::empty());
        }
        out
    }

    /// Hands out the search indexes that are still to be caught up and forgets
    /// them.
    pub fn take_pending_search_catchups(&mut self) -> (r: Vec<(String, Option<Hlc>)>)
        ensures
            catchup_views(r@) == old(self)@.pending_search_catchups,
            final(self)@ == (DbView { pending_search_catchups: Seq::empty(), ..old(self)@ }),
            old(self).wf() ==> final(self).wf(),
    {
        let mut out: Vec<(String, Option<Hlc>)> = Vec::new();
        out.append(&mut self.pending_search_catchups);
        proof {
            assert(catchup_views(out@) =~= old(self)@.pending_search_catchups);
            assert(self@.pending_search_catchups =~= Seq::<(Seq<char>, Option<Hlc>)>::empty());
        }
        out
    }
}

/// A statement's result by what its error says.
pub open spec fn verdict<T>(r: Result<T, EngineError>) -> Result<T, ErrorView> {
    match r {
        Ok(t) => Ok(t),
        Err(e) => Err(e@),
    }
}

/// The list without every occurrence of `name`.
pub fn without_name(list: &Vec<String>, name: &str) -> (r: Vec<String>)
    ensures
        views(r@) == views(list@).filter(|n: Seq<char>| n != name@),
{
    let mut out: Vec<String> = Vec::new();
    let mut i: usize = 0;
    let ghost p = |n: Seq<char>| n != name@;
    proof {
        assert(views(list@).take(0) =~= Seq::<Seq<char>>::empty());
        assert(views(out@) =~= views(list@).take(0).filter(p));
    }
    while i < list.len()
        invariant
            i <= list@.len(),
            p == (|n: Seq<char>| n != name@),
            views(out@) == views(list@).take(i as int).filter(p),
        decreases list@.len() - i,
    {
        proof {
            assert(views(list@).take(i + 1) =~= views(list@).take(i as int).push(list@[i as int]@));
            views(list@).take(i as int).lemma_filter_push(list@[i as int]@, p);
        }
        if !str_eq(list[i].as_str(), name) {
            let ghost before = views(out@);
            out.push(list[i].clone());
            proof {
                assert(views(out@) =~= before.push(list@[i as int]@));
            }
        }
        i = i + 1;
    }
    proof {
        assert(views(list@).take(list@.len() as int) =~= views(list@));
    }
    out
}

/// Whether `name` is among the named definitions.
pub fn is_named<D>(ds: &Vec<(String, D)>, name: &str) -> (r: bool)
    ensures
        r == named(ds@, name@),
{
    let mut i: usize = 0;
    while i < ds.len()
        invariant
            i <= ds@.len(),
            forall|k: int| 0 <= k < i ==> (#[trigger] ds@[k]).0@ != name@,
        decreases ds@.len() - i,
    {
        if str_eq(ds[i].0.as_str(), name) {
            return true;
        }
        i = i + 1;
    }
    false
}

/// The list without the names of the definitions.
pub fn without_named<D>(list: &Vec<String>, ds: &Vec<(String, D)>) -> (r: Vec<String>)
    ensures
        views(r@) == views(list@).filter(|n: Seq<char>| !named(ds@, n)),
{
    let mut out: Vec<String> = Vec::new();
    let mut i: usize = 0;
    let ghost p = |n: Seq<char>| !named(ds@, n);
    proof {
        assert(views(list@).take(0) =~= Seq::<Seq<char>>::empty());
        assert(views(out@) =~= views(list@).take(0).filter(p));
    }
    while i < list.len()
        invariant
            i <= list@.len(),
            p == (|n: Seq<char>| !named(ds@, n)),
            views(out@) == views(list@).take(i as int).filter(p),
        decreases list@.len() - i,
    {
        proof {
            assert(views(list@).take(i + 1) =~= views(list@).take(i as int).push(list@[i as int]@));
            views(list@).take(i as int).lemma_filter_push(list@[i as int]@, p);
        }
        if !is_named(ds, list[i].as_str()) {
            let ghost before = views(out@);
            out.push(list[i].clone());
            proof {
                assert(views(out@) =~= before.push(list@[i as int]@));
            }
        }
        i = i + 1;
    }
    proof {
        assert(views(list@).take(list@.len() as int) =~= views(list@));
    }
    out
}

/// A copy of a list of strings.
pub fn copy_strings(list: &Vec<String>) -> (r: Vec<String>)
    ensures
        r@ == list@,
{
    let mut out: Vec<String> = Vec::new();
    let mut i: usize = 0;
    while i < list.len()
        invariant
            i <= list@.len(),
            out@ == list@.take(i as int),
        decreases list@.len() - i,
    {
        out.push(list[i].clone());
        proof {
            assert(list@.take(i + 1) =~= list@.take(i as int).push(list@[i as int]));
        }
        i = i + 1;
    }
    proof {
        assert(list@.take(list@.len() as int) =~= list@);
    }
    out
}

/// Whether two lists of strings are equal.
pub fn same_strings(a: &Vec<String>, b: &Vec<String>) -> (r: bool)
    ensures
        r == (views(a@) == views(b@)),
{
    if a.len() != b.len() {
        proof {
            assert(views(a@).len() != views(b@).len());
        }
        return false;
    }
    let mut i: usize = 0;
    while i < a.len()
        invariant
            a@.len() == b@.len(),
            i <= a@.len(),
            forall|k: int| 0 <= k < i ==> (#[trigger] a@[k])@ == b@[k]@,
        decreases a@.len() - i,
    {
        if a[i] != b[i] {
            proof {
                assert(views(a@)[i as int] != views(b@)[i as int]);
            }
            return false;
        }
        i = i + 1;
    }
    proof {
        assert(views(a@) =~= views(b@));
    }
    true
}

/// Whether two lists of options are equal.
pub fn same_options(a: &Vec<(String, String)>, b: &Vec<(String, String)>) -> (r: bool)
    ensures
        r == (option_views(a@) == option_views(b@)),
{
    if a.len() != b.len() {
        proof {
            assert(option_views(a@).len() != option_views(b@).len());
        }
        return false;
    }
    let mut i: usize = 0;
    while i < a.len()
        invariant
            a@.len() == b@.len(),
            i <= a@.len(),
            forall|k: int| 0 <= k < i ==> (#[trigger] a@[k]).0@ == b@[k].0@ && a@[k].1@ == b@[k].1@,
        decreases a@.len() - i,
    {
        if a[i].0 != b[i].0 || a[i].1 != b[i].1 {
            proof {
                assert(option_views(a@)[i as int] != option_views(b@)[i as int]);
            }
            return false;
        }
        i = i + 1;
    }
    proof {
        assert(option_views(a@) =~= option_views(b@));
    }
    true
}

/// The list without every option called `key`.
pub fn options_without(list: &Vec<(String, String)>, key: &str) -> (r: Vec<(String, String)>)
    ensures
        option_views(r@) == option_views(list@).filter(|o: (Seq<char>, Seq<char>)| o.0 != key@),
{
    let mut out: Vec<(String, String)> = Vec::new();
    let mut i: usize = 0;
    let ghost p = |o: (Seq<char>, Seq<char>)| o.0 != key@;
    let ghost whole = option_views(list@);
    proof {
        assert(whole.take(0) =~= Seq::<(Seq<char>, Seq<char>)>::empty());
        assert(option_views(out@) =~= whole.take(0).filter(p));
    }
    while i < list.len()
        invariant
            i <= list@.len(),
            whole == option_views(list@),
            p == (|o: (Seq<char>, Seq<char>)| o.0 != key@),
            option_views(out@) == whole.take(i as int).filter(p),
        decreases list@.len() - i,
    {
        proof {
            assert(whole.take(i + 1) =~= whole.take(i as int).push(whole[i as int]));
            whole.take(i as int).lemma_filter_push(whole[i as int], p);
        }
        if !str_eq(list[i].0.as_str(), key) {
            let ghost before = option_views(out@);
            out.push((list[i].0.clone(), list[i].1.clone()));
            proof {
                assert(option_views(out@) =~= before.push(whole[i as int]));
            }
        }
        i = i + 1;
    }
    proof {
        assert(whole.take(whole.len() as int) =~= whole);
    }
    out
}

} // verus!
