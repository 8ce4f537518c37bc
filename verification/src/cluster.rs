//! Where a query's rows come from and its writes go: one node's tables, or a
//! cluster's.

use vstd::prelude::*;

use crate::access::request_view;
use crate::access::OrderRequest;
use crate::ast::Expr;
use crate::error::EngineError;
use crate::error::ErrorView;
use crate::execute::keyed_views;
use crate::execute::row_wf;
use crate::execute::row_view;
use crate::model::doc_view;
use crate::model::doc_wf;
use crate::model::Fields;
use crate::model::ValueView;
use crate::projection::NameSet;
use crate::text::views;
use crate::value::Document;
use crate::value::Value;
use crate::writes::insert_writes;
use crate::writes::WriteView;

verus! {

/// Keyed rows by what each holds, or why there are none.
pub type RowsView = Result<Seq<(Seq<u8>, Fields)>, ErrorView>;

/// Keyed rows, and whether they come in the order that was asked for.
pub type OrderedView = Result<(Seq<(Seq<u8>, Fields)>, bool), ErrorView>;

/// A count, nothing where it cannot be had without the rows.
pub type CountView = Result<Option<usize>, ErrorView>;

/// Whether every row's document has its fields in order.
pub open spec fn keyed_wf(rows: Seq<(Vec<u8>, Document)>) -> bool {
    forall|i: int| 0 <= i < rows.len() ==> doc_wf((#[trigger] rows[i]).1)
}

/// A refused request: the writes that it asked for, each with its table, and
/// why it was refused.
pub struct Refusal {
    pub asked: Seq<(Seq<char>, WriteView)>,
    pub error: ErrorView,
}

/// What a deployment answers the executor: the rows of its tables, and the
/// writes it takes. A reader answers from what it holds; a write that is
/// refused is not acknowledged.
pub trait Cluster: Sized {
    /// The primary-key columns of a table.
    open spec fn key_columns(&self, table: Seq<char>) -> Result<Seq<Seq<char>>, ErrorView> {
        Err(ErrorView::TableNotFound(table))
    }

    /// The rows of a table that pass a filter.
    open spec fn rows_of(&self, table: Seq<char>, filter: Option<Expr>) -> RowsView {
        Err(ErrorView::TableNotFound(table))
    }

    /// The rows of a table that pass a filter, with an order and a limit as
    /// hints.
    open spec fn ordered_rows_of(
        &self,
        table: Seq<char>,
        filter: Option<Expr>,
        order: Option<(Seq<char>, bool, bool)>,
        limit: Option<u64>,
    ) -> OrderedView {
        match self.rows_of(table, filter) {
            Ok(rows) => Ok((rows, false)),
            Err(e) => Err(e),
        }
    }

    /// The rows of a table that pass a filter, where only some fields are read.
    open spec fn projected_rows_of(
        &self,
        table: Seq<char>,
        filter: Option<Expr>,
        fields: Set<Seq<char>>,
    ) -> RowsView {
        self.rows_of(table, filter)
    }

    /// The number of rows of a table.
    open spec fn row_count(&self, table: Seq<char>) -> CountView {
        Ok(None)
    }

    /// The number of rows that pass a filter, from an index that covers it.
    open spec fn covered_count(&self, table: Seq<char>, filter: Option<Expr>) -> CountView {
        Ok(None)
    }

    /// The number of rows that pass a filter, by counting them.
    open spec fn match_count(&self, table: Seq<char>, filter: Option<Expr>) -> CountView {
        Ok(None)
    }

    /// The distinct values of a column among the rows that pass a filter.
    open spec fn values_of(&self, table: Seq<char>, col: Seq<char>, filter: Option<Expr>) -> Result<
        Option<Seq<ValueView>>,
        ErrorView,
    > {
        Ok(None)
    }

    /// The series-key columns of a time-series table; nothing for another one.
    open spec fn series_key(&self, table: Seq<char>) -> Result<Option<Seq<Seq<char>>>, ErrorView> {
        Ok(None)
    }

    /// The writes acknowledged so far, each with its table.
    open spec fn acknowledged(&self) -> Seq<(Seq<char>, WriteView)> {
        Seq::empty()
    }

    /// The last request that was refused.
    open spec fn last_refusal(&self) -> Option<Refusal> {
        None
    }

    /// The primary-key columns of `table`.
    fn primary_key(&self, table: &str) -> (r: Result<Vec<String>, EngineError>)
        ensures
            match r {
                Ok(pk) => self.key_columns(table@) == Ok::<Seq<Seq<char>>, ErrorView>(views(pk@)),
                Err(e) => self.key_columns(table@) == Err::<Seq<Seq<char>>, ErrorView>(e@),
            },
    ;

    /// The keyed rows of `table` that pass `filter`.
    fn matching_rows(&self, table: &str, filter: &Option<Expr>) -> (r: Result<
        Vec<(Vec<u8>, Document)>,
        EngineError,
    >)
        ensures
            match r {
                Ok(rows) => self.rows_of(table@, *filter) == RowsView::Ok(keyed_views(rows@))
                    && keyed_wf(rows@),
                Err(e) => self.rows_of(table@, *filter) == RowsView::Err(e@),
            },
    ;

    /// Like `matching_rows`, but the rows may come in the order asked for, and
    /// no more of them than the limit.
    fn matching_rows_ordered(
        &self,
        table: &str,
        filter: &Option<Expr>,
        order: Option<OrderRequest<'_>>,
        limit: Option<u64>,
    ) -> (r: Result<(Vec<(Vec<u8>, Document)>, bool), EngineError>)
        ensures
            match r {
                Ok((rows, sorted)) => self.ordered_rows_of(
                    table@,
                    *filter,
                    request_view(order),
                    limit,
                ) == OrderedView::Ok((keyed_views(rows@), sorted)) && keyed_wf(rows@),
                Err(e) => self.ordered_rows_of(table@, *filter, request_view(order), limit)
                    == OrderedView::Err(e@),
            },
    ;

    /// Like `matching_rows`, but only the fields of `project` are read.
    fn matching_rows_projected(&self, table: &str, filter: &Option<Expr>, project: &NameSet) -> (r:
        Result<Vec<(Vec<u8>, Document)>, EngineError>)
        requires
            project.wf(),
        ensures
            match r {
                Ok(rows) => self.projected_rows_of(table@, *filter, project@) == RowsView::Ok(
                    keyed_views(rows@),
                ) && keyed_wf(rows@),
                Err(e) => self.projected_rows_of(table@, *filter, project@) == RowsView::Err(e@),
            },
    ;

    /// The number of live rows of `table`, where it is known.
    fn count_rows(&self, table: &str) -> (r: Result<Option<usize>, EngineError>)
        ensures
            match r {
                Ok(n) => self.row_count(table@) == CountView::Ok(n),
                Err(e) => self.row_count(table@) == CountView::Err(e@),
            },
    ;

    /// The number of rows that pass `filter`, where an index covers it.
    fn count_filtered(&self, table: &str, filter: &Option<Expr>) -> (r: Result<
        Option<usize>,
        EngineError,
    >)
        ensures
            match r {
                Ok(n) => self.covered_count(table@, *filter) == CountView::Ok(n),
                Err(e) => self.covered_count(table@, *filter) == CountView::Err(e@),
            },
    ;

    /// The number of rows that pass `filter`, where they can be counted
    /// without being gathered.
    fn count_matching(&self, table: &str, filter: &Option<Expr>) -> (r: Result<
        Option<usize>,
        EngineError,
    >)
        ensures
            match r {
                Ok(n) => self.match_count(table@, *filter) == CountView::Ok(n),
                Err(e) => self.match_count(table@, *filter) == CountView::Err(e@),
            },
    ;

    /// The distinct values of `col` among the rows that pass `filter`, where
    /// they can be had without gathering the rows.
    fn distinct_values(&self, table: &str, col: &str, filter: &Option<Expr>) -> (r: Result<
        Option<Vec<Value>>,
        EngineError,
    >)
        ensures
            match r {
                Ok(None) => self.values_of(table@, col@, *filter) == Ok::<
                    Option<Seq<ValueView>>,
                    ErrorView,
                >(None),
                Ok(Some(vs)) => self.values_of(table@, col@, *filter) == Ok::<
                    Option<Seq<ValueView>>,
                    ErrorView,
                >(Some(row_view(vs@))) && row_wf(vs@),
                Err(e) => self.values_of(table@, col@, *filter) == Err::<
                    Option<Seq<ValueView>>,
                    ErrorView,
                >(e@),
            },
    ;

    /// The series-key columns when `table` is a time-series table.
    fn ts_series_key(&self, table: &str) -> (r: Result<Option<Vec<String>>, EngineError>)
        ensures
            match r {
                Ok(None) => self.series_key(table@) == Ok::<Option<Seq<Seq<char>>>, ErrorView>(
                    None,
                ),
                Ok(Some(k)) => self.series_key(table@) == Ok::<Option<Seq<Seq<char>>>, ErrorView>(
                    Some(views(k@)),
                ),
                Err(e) => self.series_key(table@) == Err::<Option<Seq<Seq<char>>>, ErrorView>(e@),
            },
    ;

    /// Writes `doc` under `key` in `table`.
    fn put(&mut self, table: &str, key: &Vec<u8>, doc: &Document) -> (r: Result<(), EngineError>)
        ensures
            final(self).acknowledged() == if r is Ok {
                old(self).acknowledged().push((table@, WriteView::Put(key@, doc_view(*doc))))
            } else {
                old(self).acknowledged()
            },
            r matches Err(e) ==> final(self).last_refusal() == Some(
                Refusal {
                    asked: seq![(table@, WriteView::Put(key@, doc_view(*doc)))],
                    error: e@,
                },
            ),
    ;

    /// Writes a whole statement's rows. Where it fails, some of them may have
    /// been acknowledged.
    fn put_batch(&mut self, table: &str, rows: &Vec<(Vec<u8>, Document)>) -> (r: Result<
        (),
        EngineError,
    >)
        ensures
            r is Ok ==> final(self).acknowledged() == old(self).acknowledged() + on_table(
                table@,
                insert_writes(keyed_views(rows@)),
            ),
            r matches Err(e) ==> final(self).last_refusal() == Some(
                Refusal {
                    asked: on_table(table@, insert_writes(keyed_views(rows@))),
                    error: e@,
                },
            ),
    ;

    /// Deletes `key` from `table`; `doc` is the row that goes, whose index
    /// entries go with it.
    fn delete(&mut self, table: &str, key: &Vec<u8>, doc: &Document) -> (r: Result<
        (),
        EngineError,
    >)
        ensures
            final(self).acknowledged() == if r is Ok {
                old(self).acknowledged().push((table@, WriteView::Delete(key@, doc_view(*doc))))
            } else {
                old(self).acknowledged()
            },
            r matches Err(e) ==> final(self).last_refusal() == Some(
                Refusal {
                    asked: seq![(table@, WriteView::Delete(key@, doc_view(*doc)))],
                    error: e@,
                },
            ),
    ;
}

/// Writes with the table they are made to.
pub open spec fn on_table(table: Seq<char>, ws: Seq<WriteView>) -> Seq<(Seq<char>, WriteView)> {
    ws.map_values(|w: WriteView| (table, w))
}

} // verus!
