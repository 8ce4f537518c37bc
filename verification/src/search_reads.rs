//! Reads of a node's own search indexes: the index that serves a query, whether
//! it can be read, and what it answers.

use vstd::prelude::*;

use crate::catalog::SearchIndexDef;
use crate::database::Database;
use crate::database::DbView;
use crate::error::EngineError;
use crate::error::ErrorView;
use crate::hits::answers;
use crate::hits::fetched;
use crate::hits::is_row_reader;
use crate::hits::resolve_hits;
use crate::hits::search_check;
use crate::hits::search_fetch;
use crate::search::fields_into;
use crate::search::query_view;
use crate::search::SearchQuery;
use crate::search_plan::is_cover_test;
use crate::search_plan::serving_index;

verus! {

/// The index that serves a query on a table, or why none does.
pub open spec fn served_by<C: Fn(&SearchIndexDef, &String) -> bool>(
    db: Database,
    covers: C,
    table: Seq<char>,
    query: SearchQuery,
) -> Result<Seq<char>, ErrorView> {
    serving_index(
        covers,
        db.catalog.search_indexes.entries@,
        table,
        fields_into(query_view(query), Seq::empty()),
    )
}

/// Whether an answer is that of the named index, asked for as many hits as the
/// rows call for, or the reason why it cannot be read.
pub open spec fn read_from<
    D,
    X,
    S: Fn(&String, Option<usize>) -> Result<Vec<(Vec<u8>, X)>, EngineError>,
    F: Fn(&Vec<u8>) -> Result<Option<D>, EngineError>,
>(
    v: DbView,
    name: String,
    table: Seq<char>,
    open: bool,
    has_rows: bool,
    k: Option<usize>,
    filtered: bool,
    search: S,
    read: F,
    r: Result<Vec<(Vec<u8>, D, X)>, EngineError>,
) -> bool {
    match search_check(v, name@, table, open, has_rows) {
        Err(e) => r matches Err(x) && x@ == e,
        Ok(()) => exists|n: Option<usize>, found: Result<Vec<(Vec<u8>, X)>, EngineError>|
            #[trigger] call_ensures(search, (&name, n), found) && (match k {
                Some(k) => n matches Some(m) && m == fetched(k, filtered),
                None => n is None,
            }) && answers(read, k, found, r),
    }
}

impl Database {
    /// Searches a table through the index that serves the query and reads the
    /// rows of its hits. `open` says whether an index is open here, `search`
    /// asks one for hits, `filtered` says whether rows can be dropped, and
    /// `read` gives a row where it is there and passes.
    pub fn search_read<
        D,
        X,
        C: Fn(&SearchIndexDef, &String) -> bool,
        O: Fn(&String) -> bool,
        S: Fn(&String, Option<usize>) -> Result<Vec<(Vec<u8>, X)>, EngineError>,
        F: Fn(&Vec<u8>) -> Result<Option<D>, EngineError>,
    >(
        &self,
        table: &str,
        query: &SearchQuery,
        k: Option<usize>,
        filtered: bool,
        has_rows: bool,
        covers: &C,
        open: &O,
        search: &S,
        read: &F,
    ) -> (r: Result<Vec<(Vec<u8>, D, X)>, EngineError>)
        requires
            self.wf(),
            is_cover_test(*covers),
            forall|name: &String| call_requires(*open, (name,)),
            forall|name: &String, n: Option<usize>| call_requires(*search, (name, n)),
            is_row_reader(*read),
        ensures
            match served_by(*self, *covers, table@, *query) {
                Err(e) => r matches Err(x) && x@ == e,
                Ok(index) => exists|name: String, is_open: bool| #[trigger]
                    call_ensures(*open, (&name,), is_open) && name@ == index && read_from(
                        self@,
                        name,
                        table@,
                        is_open,
                        has_rows,
                        k,
                        filtered,
                        *search,
                        *read,
                        r,
                    ),
            },
    {
        let name = match self.search_index_for_query(table, query, covers) {
            Err(e) => {
                return Err(e);
            },
            Ok(name) => name,
        };
        let is_open: bool = open(&name);
        proof {
            assert(call_ensures(*open, (&name,), is_open));
        }
        if let Err(e) = self.check_search(name.as_str(), table, is_open, has_rows) {
            return Err(e);
        }
        let wanted: Option<usize> = match k {
            Some(k) => Some(search_fetch(k, filtered)),
            None => None,
        };
        let found = search(&name, wanted);
        proof {
            assert(call_ensures(*search, (&name, wanted), found));
        }
        match found {
            Err(e) => Err(e),
            Ok(hits) => resolve_hits(hits, k, read),
        }
    }

    /// The raw hits of this node's part of a table, with their scores, for a
    /// coordinator to merge: the `k` best, or every match.
    pub fn search_local<
        X,
        C: Fn(&SearchIndexDef, &String) -> bool,
        O: Fn(&String) -> bool,
        S: Fn(&String, Option<usize>) -> Result<Vec<(Vec<u8>, X)>, EngineError>,
    >(
        &self,
        table: &str,
        query: &SearchQuery,
        k: Option<usize>,
        covers: &C,
        open: &O,
        search: &S,
    ) -> (r: Result<Vec<(Vec<u8>, X)>, EngineError>)
        requires
            self.wf(),
            is_cover_test(*covers),
            forall|name: &String| call_requires(*open, (name,)),
            forall|name: &String, n: Option<usize>| call_requires(*search, (name, n)),
        ensures
            match served_by(*self, *covers, table@, *query) {
                Err(e) => r matches Err(x) && x@ == e,
                Ok(index) => exists|name: String, is_open: bool| #[trigger]
                    call_ensures(*open, (&name,), is_open) && name@ == index && match search_check(
                        self@,
                        index,
                        table@,
                        is_open,
                        true,
                    ) {
                        Err(e) => r matches Err(x) && x@ == e,
                        Ok(()) => call_ensures(*search, (&name, k), r),
                    },
            },
    {
        let name = match self.search_index_for_query(table, query, covers) {
            Err(e) => {
                return Err(e);
            },
            Ok(name) => name,
        };
        let is_open: bool = open(&name);
        proof {
            assert(call_ensures(*open, (&name,), is_open));
        }
        if let Err(e) = self.check_search(name.as_str(), table, is_open, true) {
            return Err(e);
        }
        search(&name, k)
    }

    /// Aggregates the matches of a query inside the index that serves it;
    /// nothing where the index cannot do so exactly. An index that is still
    /// catching up refuses, and gives no part of its answer.
    pub fn search_aggregate_read<
        G,
        C: Fn(&SearchIndexDef, &String) -> bool,
        O: Fn(&String) -> bool,
        A: Fn(&String) -> Result<Option<Vec<G>>, EngineError>,
    >(&self, table: &str, query: &SearchQuery, covers: &C, open: &O, aggregate: &A) -> (r: Result<
        Option<Vec<G>>,
        EngineError,
    >)
        requires
            self.wf(),
            is_cover_test(*covers),
            forall|name: &String| call_requires(*open, (name,)),
            forall|name: &String| call_requires(*aggregate, (name,)),
        ensures
            match served_by(*self, *covers, table@, *query) {
                Err(e) => r matches Err(x) && x@ == e,
                Ok(index) => exists|name: String, is_open: bool| #[trigger]
                    call_ensures(*open, (&name,), is_open) && name@ == index && match search_check(
                        self@,
                        index,
                        table@,
                        is_open,
                        true,
                    ) {
                        Err(e) => r matches Err(x) && x@ == e,
                        Ok(()) => call_ensures(*aggregate, (&name,), r),
                    },
            },
    {
        let name = match self.search_index_for_query(table, query, covers) {
            Err(e) => {
                return Err(e);
            },
            Ok(name) => name,
        };
        let is_open: bool = open(&name);
        proof {
            assert(call_ensures(*open, (&name,), is_open));
        }
        if let Err(e) = self.check_search(name.as_str(), table, is_open, true) {
            return Err(e);
        }
        aggregate(&name)
    }
}

} // verus!
