//! Rows in and out: inserting, updating, filtering, projecting, grouping, and
//! combining. What an expression evaluates to, how two values compare, and how
//! values are encoded is told by functions that are handed in.

use vstd::prelude::*;

use crate::ast::Expr;
use crate::ast::Select;
use crate::ast::SelectItem;
use crate::bytes::same_bytes;
use crate::error::debug_quoted;
use crate::error::quoted;
use crate::error::unsupported;
use crate::error::EngineError;
use crate::error::ErrorView;
use crate::model::copy_document;
use crate::model::doc_view;
use crate::model::doc_wf;
use crate::model::set_path;
use crate::model::value_view;
use crate::model::value_wf;
use crate::model::with_path;
use crate::model::Fields;
use crate::model::ValueView;
use crate::select_plan::expr_name;
use crate::select_plan::output_name;
use crate::text::cat3;
use crate::text::pieces;
use crate::text::views;
use crate::value::Document;
use crate::value::Value;

verus! {

/// What a call gave for a document that holds `m`.
pub open spec fn gives<F: Fn(&Expr, &Document) -> Result<Value, EngineError>>(
    f: F,
    e: Expr,
    m: Fields,
    r: Result<Value, EngineError>,
) -> bool {
    exists|d: Document| #[trigger] call_ensures(f, (&e, &d), r) && doc_view(d) == m
}

/// What an expression evaluates to on a document.
pub open spec fn evaluated<F: Fn(&Expr, &Document) -> Result<Value, EngineError>>(
    f: F,
    e: Expr,
    m: Fields,
) -> Result<Value, EngineError> {
    choose|r: Result<Value, EngineError>| gives(f, e, m, r)
}

/// Whether a function evaluates expressions: any expression on any document,
/// always to the same on documents that hold the same.
pub open spec fn is_evaluator<F: Fn(&Expr, &Document) -> Result<Value, EngineError>>(f: F) -> bool {
    &&& forall|e: &Expr, d: &Document| call_requires(f, (e, d))
    &&& forall|e: &Expr, a: &Document, b: &Document, x: Result<Value, EngineError>, y: Result<
        Value,
        EngineError,
    >|
        #![trigger call_ensures(f, (e, a), x), call_ensures(f, (e, b), y)]
        doc_view(*a) == doc_view(*b) && call_ensures(f, (e, a), x) && call_ensures(f, (e, b), y)
            ==> x == y
    &&& forall|e: &Expr, d: &Document, x: Result<Value, EngineError>| #[trigger]
        call_ensures(f, (e, d), x) && x is Ok ==> value_wf(x->Ok_0)
}

/// Evaluates an expression on a document.
pub fn evaluate<F: Fn(&Expr, &Document) -> Result<Value, EngineError>>(
    f: &F,
    e: &Expr,
    d: &Document,
) -> (r: Result<Value, EngineError>)
    requires
        is_evaluator(*f),
    ensures
        r == evaluated(*f, *e, doc_view(*d)),
        r matches Ok(v) ==> value_wf(v),
{
    let r = f(e, d);
    proof {
        assert(call_ensures(*f, (e, d), r));
        assert(gives(*f, *e, doc_view(*d), r));
        let c = evaluated(*f, *e, doc_view(*d));
        assert(gives(*f, *e, doc_view(*d), c));
        let other = choose|o: Document| #[trigger] call_ensures(*f, (e, &o), c) && doc_view(o)
            == doc_view(*d);
        assert(call_ensures(*f, (e, &other), c));
    }
    r
}

/// What a call decided for a document that holds `m`.
pub open spec fn decides<F: Fn(&Expr, &Document) -> Result<bool, EngineError>>(
    f: F,
    e: Expr,
    m: Fields,
    r: Result<bool, EngineError>,
) -> bool {
    exists|d: Document| #[trigger] call_ensures(f, (&e, &d), r) && doc_view(d) == m
}

/// Whether a document passes a predicate.
pub open spec fn decided<F: Fn(&Expr, &Document) -> Result<bool, EngineError>>(f: F, e: Expr, m: Fields) -> Result<
    bool,
    EngineError,
> {
    choose|r: Result<bool, EngineError>| decides(f, e, m, r)
}

/// Whether a function decides predicates, always the same way on documents
/// that hold the same.
pub open spec fn is_decider<F: Fn(&Expr, &Document) -> Result<bool, EngineError>>(f: F) -> bool {
    &&& forall|e: &Expr, d: &Document| call_requires(f, (e, d))
    &&& forall|e: &Expr, a: &Document, b: &Document, x: Result<bool, EngineError>, y: Result<
        bool,
        EngineError,
    >|
        #![trigger call_ensures(f, (e, a), x), call_ensures(f, (e, b), y)]
        doc_view(*a) == doc_view(*b) && call_ensures(f, (e, a), x) && call_ensures(f, (e, b), y)
            ==> x == y
}

/// Whether a document passes a filter: anything passes where there is none.
pub open spec fn passes<F: Fn(&Expr, &Document) -> Result<bool, EngineError>>(
    f: F,
    filter: Option<Expr>,
    m: Fields,
) -> Result<bool, EngineError> {
    match filter {
        Some(e) => decided(f, e, m),
        None => Ok(true),
    }
}

/// Whether a document passes a filter.
pub fn matches_filter<F: Fn(&Expr, &Document) -> Result<bool, EngineError>>(
    f: &F,
    filter: &Option<Expr>,
    d: &Document,
) -> (r: Result<bool, EngineError>)
    requires
        is_decider(*f),
    ensures
        r == passes(*f, *filter, doc_view(*d)),
{
    match filter {
        None => Ok(true),
        Some(e) => {
            let r = f(e, d);
            proof {
                assert(call_ensures(*f, (e, d), r));
                assert(decides(*f, *e, doc_view(*d), r));
                let c = decided(*f, *e, doc_view(*d));
                assert(decides(*f, *e, doc_view(*d), c));
                let other = choose|o: Document| #[trigger] call_ensures(*f, (e, &o), c) && doc_view(
                    o,
                ) == doc_view(*d);
                assert(call_ensures(*f, (e, &other), c));
            }
            r
        },
    }
}

/// The rows that pass a filter, in order; the first row that cannot be decided
/// fails the whole.
pub open spec fn filtered<F: Fn(&Expr, &Document) -> Result<bool, EngineError>>(
    f: F,
    filter: Option<Expr>,
    rows: Seq<(Vec<u8>, Document)>,
) -> Result<Seq<(Vec<u8>, Document)>, EngineError>
    decreases rows.len(),
{
    if rows.len() == 0 {
        Ok(Seq::empty())
    } else {
        match filtered(f, filter, rows.drop_last()) {
            Err(e) => Err(e),
            Ok(kept) => match passes(f, filter, doc_view(rows.last().1)) {
                Err(e) => Err(e),
                Ok(true) => Ok(kept.push(rows.last())),
                Ok(false) => Ok(kept),
            },
        }
    }
}

proof fn lemma_filtered_fails<F: Fn(&Expr, &Document) -> Result<bool, EngineError>>(
    f: F,
    filter: Option<Expr>,
    rows: Seq<(Vec<u8>, Document)>,
    k: int,
)
    requires
        0 <= k <= rows.len(),
        filtered(f, filter, rows.take(k)) is Err,
    ensures
        filtered(f, filter, rows) == filtered(f, filter, rows.take(k)),
    decreases rows.len() - k,
{
    if k == rows.len() {
        assert(rows.take(k) =~= rows);
    } else {
        assert(rows.take(k + 1).drop_last() =~= rows.take(k));
        lemma_filtered_fails(f, filter, rows, k + 1);
    }
}

/// Keeps the rows that pass a filter.
pub fn filter_rows<F: Fn(&Expr, &Document) -> Result<bool, EngineError>>(
    f: &F,
    filter: &Option<Expr>,
    rows: Vec<(Vec<u8>, Document)>,
) -> (r: Result<Vec<(Vec<u8>, Document)>, EngineError>)
    requires
        is_decider(*f),
    ensures
        match r {
            Ok(kept) => filtered(*f, *filter, rows@) == Ok::<
                Seq<(Vec<u8>, Document)>,
                EngineError,
            >(kept@),
            Err(e) => filtered(*f, *filter, rows@) == Err::<
                Seq<(Vec<u8>, Document)>,
                EngineError,
            >(e),
        },
{
    let ghost all = rows@;
    let rest = rows;
    let mut out: Vec<(Vec<u8>, Document)> = Vec::new();
    proof {
        assert(all.take(0) =~= Seq::<(Vec<u8>, Document)>::empty());
        assert(out@ =~= Seq::<(Vec<u8>, Document)>::empty());
    }
    for row in it: rest
        invariant
            is_decider(*f),
            all == rows@,
            it.seq() == all,
            filtered(*f, *filter, all.take(it.index() as int)) == Ok::<
                Seq<(Vec<u8>, Document)>,
                EngineError,
            >(out@),
    {
        let ghost done = it.index() as int;
        proof {
            assert(row == all[done]);
            assert(all.take(done + 1).drop_last() =~= all.take(done));
            assert(all.take(done + 1).last() == row);
        }
        match matches_filter(f, filter, &row.1) {
            Err(e) => {
                proof {
                    lemma_filtered_fails(*f, *filter, all, done + 1);
                }
                return Err(e);
            },
            Ok(keep) => {
                if keep {
                    out.push(row);
                }
            },
        }
    }
    proof {
        assert(all.take(all.len() as int) =~= all);
    }
    Ok(out)
}

/// What a call encoded for values that hold `vs`.
pub open spec fn encodes<K: Fn(&Vec<&Value>) -> Vec<u8>>(k: K, vs: Seq<ValueView>, r: Seq<u8>) -> bool {
    exists|v: Vec<&Value>, out: Vec<u8>| #[trigger]
        call_ensures(k, (&v,), out) && tuple_view(v@) == vs && out@ == r
}

/// Values by what each holds.
pub open spec fn tuple_view(vs: Seq<&Value>) -> Seq<ValueView> {
    vs.map_values(|v: &Value| value_view(*v))
}

/// The encoding of values in order.
pub open spec fn encoding<K: Fn(&Vec<&Value>) -> Vec<u8>>(k: K, vs: Seq<ValueView>) -> Seq<u8> {
    choose|r: Seq<u8>| encodes(k, vs, r)
}

/// Whether a function encodes values, always the same way where they hold the
/// same.
pub open spec fn is_encoder<K: Fn(&Vec<&Value>) -> Vec<u8>>(k: K) -> bool {
    &&& forall|v: &Vec<&Value>| call_requires(k, (v,))
    &&& forall|a: &Vec<&Value>, b: &Vec<&Value>, x: Vec<u8>, y: Vec<u8>|
        #![trigger call_ensures(k, (a,), x), call_ensures(k, (b,), y)]
        tuple_view(a@) == tuple_view(b@) && call_ensures(k, (a,), x) && call_ensures(k, (b,), y)
            ==> x@ == y@
}

/// Encodes values in order.
pub fn encode_tuple<K: Fn(&Vec<&Value>) -> Vec<u8>>(k: &K, vs: &Vec<&Value>) -> (r: Vec<u8>)
    requires
        is_encoder(*k),
    ensures
        r@ == encoding(*k, tuple_view(vs@)),
{
    let r = k(vs);
    proof {
        assert(call_ensures(*k, (vs,), r));
        assert(encodes(*k, tuple_view(vs@), r@));
        let c = encoding(*k, tuple_view(vs@));
        assert(encodes(*k, tuple_view(vs@), c));
        let (v, out) = choose|v: Vec<&Value>, out: Vec<u8>| #[trigger]
            call_ensures(*k, (&v,), out) && tuple_view(v@) == tuple_view(vs@) && out@ == c;
        assert(call_ensures(*k, (&v,), out));
    }
    r
}

/// The values of a row's key, or why it has none.
pub open spec fn key_values(pk: Seq<Seq<char>>, m: Fields) -> Result<Seq<ValueView>, ErrorView>
    decreases pk.len(),
{
    if pk.len() == 0 {
        Ok(Seq::empty())
    } else {
        match key_values(pk.drop_last(), m) {
            Err(e) => Err(e),
            Ok(vs) => if m.dom().contains(pk.last()) && !(m[pk.last()] is Null) {
                Ok(vs.push(m[pk.last()]))
            } else {
                Err(
                    ErrorView::Constraint(
                        "primary key column "@ + debug_quoted(pk.last())
                            + " must not be null or missing"@,
                    ),
                )
            },
        }
    }
}

proof fn lemma_key_values_fail(pk: Seq<Seq<char>>, m: Fields, k: int)
    requires
        0 <= k <= pk.len(),
        key_values(pk.take(k), m) is Err,
    ensures
        key_values(pk, m) == key_values(pk.take(k), m),
    decreases pk.len() - k,
{
    if k == pk.len() {
        assert(pk.take(k) =~= pk);
    } else {
        assert(pk.take(k + 1).drop_last() =~= pk.take(k));
        lemma_key_values_fail(pk, m, k + 1);
    }
}

/// The encoded key of a row, or why it has none.
pub open spec fn row_key<K: Fn(&Vec<&Value>) -> Vec<u8>>(k: K, pk: Seq<Seq<char>>, m: Fields) -> Result<
    Seq<u8>,
    ErrorView,
> {
    match key_values(pk, m) {
        Err(e) => Err(e),
        Ok(vs) => Ok(encoding(k, vs)),
    }
}

/// The encoded key of a row.
pub fn primary_key_bytes<K: Fn(&Vec<&Value>) -> Vec<u8>>(pk: &Vec<String>, doc: &Document, k: &K) -> (r:
    Result<Vec<u8>, EngineError>)
    requires
        is_encoder(*k),
        doc_wf(*doc),
    ensures
        match r {
            Ok(key) => row_key(*k, views(pk@), doc_view(*doc)) == Ok::<Seq<u8>, ErrorView>(key@),
            Err(e) => row_key(*k, views(pk@), doc_view(*doc)) == Err::<Seq<u8>, ErrorView>(e@),
        },
{
    let ghost m = doc_view(*doc);
    let ghost ps = views(pk@);
    let mut values: Vec<&Value> = Vec::new();
    let mut i: usize = 0;
    proof {
        assert(ps.take(0) =~= Seq::<Seq<char>>::empty());
        assert(tuple_view(values@) =~= Seq::<ValueView>::empty());
    }
    while i < pk.len()
        invariant
            doc_wf(*doc),
            m == doc_view(*doc),
            ps == views(pk@),
            i <= pk@.len(),
            key_values(ps.take(i as int), m) == Ok::<Seq<ValueView>, ErrorView>(
                tuple_view(values@),
            ),
        decreases pk@.len() - i,
    {
        let ghost before = tuple_view(values@);
        proof {
            assert(ps.take(i + 1).drop_last() =~= ps.take(i as int));
            assert(ps.take(i + 1).last() == pk@[i as int]@);
        }
        let found = match doc.field(pk[i].as_str()) {
            Some(v) => if v.is_null() {
                None
            } else {
                Some(v)
            },
            None => None,
        };
        match found {
            Some(v) => {
                values.push(v);
                proof {
                    assert(tuple_view(values@) =~= before.push(value_view(*v)));
                }
            },
            None => {
                let q = quoted(pk[i].as_str());
                proof {
                    lemma_key_values_fail(ps, m, i + 1);
                }
                return Err(
                    EngineError::Constraint(
                        cat3("primary key column ", q.as_str(), " must not be null or missing"),
                    ),
                );
            },
        }
        i = i + 1;
    }
    proof {
        assert(ps.take(ps.len() as int) =~= ps);
    }
    Ok(encode_tuple(k, &values))
}

/// A document with the first `n` columns of an inserted row set, in order.
pub open spec fn inserted<F: Fn(&Expr, &Document) -> Result<Value, EngineError>>(
    f: F,
    columns: Seq<String>,
    row: Seq<Expr>,
    n: nat,
) -> Result<Fields, EngineError>
    decreases n,
{
    if n == 0 {
        Ok(Map::empty())
    } else {
        match inserted(f, columns, row, (n - 1) as nat) {
            Err(e) => Err(e),
            Ok(m) => match evaluated(f, row[n - 1], Map::empty()) {
                Err(e) => Err(e),
                Ok(v) => Ok(m.insert(columns[n - 1]@, value_view(v))),
            },
        }
    }
}

/// The number of columns of an inserted row that have both a name and a value.
pub open spec fn inserted_columns(columns: Seq<String>, row: Seq<Expr>) -> nat {
    if columns.len() < row.len() {
        columns.len()
    } else {
        row.len()
    }
}

proof fn lemma_inserted_fails<F: Fn(&Expr, &Document) -> Result<Value, EngineError>>(
    f: F,
    columns: Seq<String>,
    row: Seq<Expr>,
    k: nat,
    n: nat,
)
    requires
        k <= n,
        inserted(f, columns, row, k) is Err,
    ensures
        inserted(f, columns, row, n) == inserted(f, columns, row, k),
    decreases n - k,
{
    if k < n {
        lemma_inserted_fails(f, columns, row, k, (n - 1) as nat);
    }
}

/// The document of one inserted row: the columns paired with the values, each
/// value evaluated on its own.
pub fn insert_document<F: Fn(&Expr, &Document) -> Result<Value, EngineError>>(
    f: &F,
    columns: &Vec<String>,
    row: &Vec<Expr>,
) -> (r: Result<Document, EngineError>)
    requires
        is_evaluator(*f),
    ensures
        match r {
            Ok(d) => doc_wf(d) && inserted(*f, columns@, row@, inserted_columns(columns@, row@))
                == Ok::<Fields, EngineError>(doc_view(d)),
            Err(e) => inserted(*f, columns@, row@, inserted_columns(columns@, row@)) == Err::<
                Fields,
                EngineError,
            >(e),
        },
{
    let empty = Document::new();
    let mut doc = Document::new();
    let mut i: usize = 0;
    while i < columns.len() && i < row.len()
        invariant
            is_evaluator(*f),
            doc_view(empty) == Map::<Seq<char>, ValueView>::empty(),
            doc_wf(doc),
            i <= inserted_columns(columns@, row@),
            inserted(*f, columns@, row@, i as nat) == Ok::<Fields, EngineError>(doc_view(doc)),
        decreases columns@.len() - i,
    {
        match evaluate(f, &row[i], &empty) {
            Err(e) => {
                proof {
                    lemma_inserted_fails(
                        *f,
                        columns@,
                        row@,
                        (i + 1) as nat,
                        inserted_columns(columns@, row@),
                    );
                }
                return Err(e);
            },
            Ok(v) => {
                doc.put_field(columns[i].clone(), v);
            },
        }
        i = i + 1;
    }
    Ok(doc)
}

/// One row of an `INSERT` with its key, or why it is refused.
pub open spec fn inserted_row<
    F: Fn(&Expr, &Document) -> Result<Value, EngineError>,
    K: Fn(&Vec<&Value>) -> Vec<u8>,
>(f: F, k: K, pk: Seq<Seq<char>>, columns: Seq<String>, row: Seq<Expr>) -> Result<
    (Seq<u8>, Fields),
    ErrorView,
> {
    match inserted(f, columns, row, inserted_columns(columns, row)) {
        Err(e) => Err(e@),
        Ok(m) => match row_key(k, pk, m) {
            Err(e) => Err(e),
            Ok(key) => Ok((key, m)),
        },
    }
}

/// The rows of an `INSERT` with their keys, or why the first bad one is
/// refused.
pub open spec fn inserted_rows<
    F: Fn(&Expr, &Document) -> Result<Value, EngineError>,
    K: Fn(&Vec<&Value>) -> Vec<u8>,
>(f: F, k: K, pk: Seq<Seq<char>>, columns: Seq<String>, rows: Seq<Vec<Expr>>) -> Result<
    Seq<(Seq<u8>, Fields)>,
    ErrorView,
>
    decreases rows.len(),
{
    if rows.len() == 0 {
        Ok(Seq::empty())
    } else {
        match inserted_rows(f, k, pk, columns, rows.drop_last()) {
            Err(e) => Err(e),
            Ok(done) => match inserted_row(f, k, pk, columns, rows.last()@) {
                Err(e) => Err(e),
                Ok(r) => Ok(done.push(r)),
            },
        }
    }
}

proof fn lemma_inserted_rows_fail<
    F: Fn(&Expr, &Document) -> Result<Value, EngineError>,
    K: Fn(&Vec<&Value>) -> Vec<u8>,
>(f: F, k: K, pk: Seq<Seq<char>>, columns: Seq<String>, rows: Seq<Vec<Expr>>, n: int)
    requires
        0 <= n <= rows.len(),
        inserted_rows(f, k, pk, columns, rows.take(n)) is Err,
    ensures
        inserted_rows(f, k, pk, columns, rows) == inserted_rows(f, k, pk, columns, rows.take(n)),
    decreases rows.len() - n,
{
    if n == rows.len() {
        assert(rows.take(n) =~= rows);
    } else {
        assert(rows.take(n + 1).drop_last() =~= rows.take(n));
        lemma_inserted_rows_fail(f, k, pk, columns, rows, n + 1);
    }
}

/// Keyed rows by what each holds.
pub open spec fn keyed_views(rows: Seq<(Vec<u8>, Document)>) -> Seq<(Seq<u8>, Fields)> {
    rows.map_values(|r: (Vec<u8>, Document)| (r.0@, doc_view(r.1)))
}

/// The keyed rows that an `INSERT` writes: all of them are made before the
/// first is written.
pub fn insert_rows<
    F: Fn(&Expr, &Document) -> Result<Value, EngineError>,
    K: Fn(&Vec<&Value>) -> Vec<u8>,
>(f: &F, k: &K, pk: &Vec<String>, columns: &Vec<String>, rows: &Vec<Vec<Expr>>) -> (r: Result<
    Vec<(Vec<u8>, Document)>,
    EngineError,
>)
    requires
        is_evaluator(*f),
        is_encoder(*k),
    ensures
        match r {
            Ok(out) => inserted_rows(*f, *k, views(pk@), columns@, rows@) == Ok::<
                Seq<(Seq<u8>, Fields)>,
                ErrorView,
            >(keyed_views(out@)),
            Err(e) => inserted_rows(*f, *k, views(pk@), columns@, rows@) == Err::<
                Seq<(Seq<u8>, Fields)>,
                ErrorView,
            >(e@),
        },
{
    let ghost ps = views(pk@);
    let mut out: Vec<(Vec<u8>, Document)> = Vec::new();
    let mut i: usize = 0;
    proof {
        assert(rows@.take(0) =~= Seq::<Vec<Expr>>::empty());
        assert(keyed_views(out@) =~= Seq::<(Seq<u8>, Fields)>::empty());
    }
    while i < rows.len()
        invariant
            is_evaluator(*f),
            is_encoder(*k),
            ps == views(pk@),
            i <= rows@.len(),
            inserted_rows(*f, *k, ps, columns@, rows@.take(i as int)) == Ok::<
                Seq<(Seq<u8>, Fields)>,
                ErrorView,
            >(keyed_views(out@)),
        decreases rows@.len() - i,
    {
        let ghost before = keyed_views(out@);
        proof {
            assert(rows@.take(i + 1).drop_last() =~= rows@.take(i as int));
            assert(rows@.take(i + 1).last() == rows@[i as int]);
        }
        let doc = match insert_document(f, columns, &rows[i]) {
            Err(e) => {
                proof {
                    lemma_inserted_rows_fail(*f, *k, ps, columns@, rows@, i + 1);
                }
                return Err(e);
            },
            Ok(d) => d,
        };
        let key = match primary_key_bytes(pk, &doc, k) {
            Err(e) => {
                proof {
                    lemma_inserted_rows_fail(*f, *k, ps, columns@, rows@, i + 1);
                }
                return Err(e);
            },
            Ok(key) => key,
        };
        let ghost made = (key@, doc_view(doc));
        out.push((key, doc));
        proof {
            assert(keyed_views(out@) =~= before.push(made));
        }
        i = i + 1;
    }
    proof {
        assert(rows@.take(rows@.len() as int) =~= rows@);
    }
    Ok(out)
}

/// A document with the first `n` assignments made. Every value is evaluated on
/// the row as it was.
pub open spec fn assigned<F: Fn(&Expr, &Document) -> Result<Value, EngineError>>(
    f: F,
    row: Fields,
    assignments: Seq<(String, Expr)>,
    n: nat,
) -> Result<Fields, EngineError>
    decreases n,
{
    if n == 0 {
        Ok(row)
    } else {
        match assigned(f, row, assignments, (n - 1) as nat) {
            Err(e) => Err(e),
            Ok(m) => match evaluated(f, assignments[n - 1].1, row) {
                Err(e) => Err(e),
                Ok(v) => Ok(with_path(m, pieces(assignments[n - 1].0@, '.'), value_view(v))),
            },
        }
    }
}

proof fn lemma_assigned_fails<F: Fn(&Expr, &Document) -> Result<Value, EngineError>>(
    f: F,
    row: Fields,
    assignments: Seq<(String, Expr)>,
    k: nat,
    n: nat,
)
    requires
        k <= n,
        assigned(f, row, assignments, k) is Err,
    ensures
        assigned(f, row, assignments, n) == assigned(f, row, assignments, k),
    decreases n - k,
{
    if k < n {
        lemma_assigned_fails(f, row, assignments, k, (n - 1) as nat);
    }
}

/// What an `UPDATE` does to one row: the new row is written at its key, and
/// where that moved, the old one is deleted afterwards. A failure between the
/// two leaves the row twice, never not at all.
pub struct RowUpdate {
    pub key: Vec<u8>,
    pub doc: Document,
    pub delete_old: bool,
}

/// What an `UPDATE` does to one row: its new key and document and whether the
/// old row is deleted; or why the row cannot be updated.
pub open spec fn updated_row<
    F: Fn(&Expr, &Document) -> Result<Value, EngineError>,
    K: Fn(&Vec<&Value>) -> Vec<u8>,
>(
    f: F,
    k: K,
    pk: Seq<Seq<char>>,
    old_key: Seq<u8>,
    row: Fields,
    assignments: Seq<(String, Expr)>,
) -> Result<(Seq<u8>, Fields, bool), ErrorView> {
    match assigned(f, row, assignments, assignments.len()) {
        Err(e) => Err(e@),
        Ok(m) => match row_key(k, pk, m) {
            Err(e) => Err(e),
            Ok(key) => Ok((key, m, key != old_key)),
        },
    }
}

/// What an `UPDATE` does to one row.
pub fn update_row<
    F: Fn(&Expr, &Document) -> Result<Value, EngineError>,
    K: Fn(&Vec<&Value>) -> Vec<u8>,
>(
    f: &F,
    k: &K,
    pk: &Vec<String>,
    old_key: &Vec<u8>,
    row: &Document,
    assignments: &Vec<(String, Expr)>,
) -> (r: Result<RowUpdate, EngineError>)
    requires
        is_evaluator(*f),
        is_encoder(*k),
        doc_wf(*row),
    ensures
        match r {
            Ok(u) => updated_row(
                *f,
                *k,
                views(pk@),
                old_key@,
                doc_view(*row),
                assignments@,
            ) == Ok::<(Seq<u8>, Fields, bool), ErrorView>((u.key@, doc_view(u.doc), u.delete_old)),
            Err(e) => updated_row(
                *f,
                *k,
                views(pk@),
                old_key@,
                doc_view(*row),
                assignments@,
            ) == Err::<(Seq<u8>, Fields, bool), ErrorView>(e@),
        },
{
    let mut doc = copy_document(row);
    let mut i: usize = 0;
    while i < assignments.len()
        invariant
            is_evaluator(*f),
            doc_wf(doc),
            i <= assignments@.len(),
            assigned(*f, doc_view(*row), assignments@, i as nat) == Ok::<Fields, EngineError>(
                doc_view(doc),
            ),
        decreases assignments@.len() - i,
    {
        match evaluate(f, &assignments[i].1, row) {
            Err(e) => {
                proof {
                    lemma_assigned_fails(
                        *f,
                        doc_view(*row),
                        assignments@,
                        (i + 1) as nat,
                        assignments@.len(),
                    );
                }
                return Err(e);
            },
            Ok(v) => {
                set_path(&mut doc, assignments[i].0.as_str(), v);
            },
        }
        i = i + 1;
    }
    match primary_key_bytes(pk, &doc, k) {
        Err(e) => Err(e),
        Ok(key) => {
            let moved: bool = !same_bytes(key.as_slice(), old_key.as_slice());
            Ok(RowUpdate { key, doc, delete_old: moved })
        },
    }
}

/// Rows by what each holds.
pub open spec fn row_view(row: Seq<Value>) -> Seq<ValueView> {
    row.map_values(|v: Value| value_view(v))
}

/// Whether every value of a row is in order.
pub open spec fn row_wf(row: Seq<Value>) -> bool {
    forall|i: int| 0 <= i < row.len() ==> value_wf(#[trigger] row[i])
}

/// The one row of a query without a table: its columns and values, or why
/// there is none.
pub open spec fn constant_row<F: Fn(&Expr, &Document) -> Result<Value, EngineError>>(
    f: F,
    items: Seq<SelectItem>,
) -> Result<(Seq<Seq<char>>, Seq<ValueView>), ErrorView>
    decreases items.len(),
{
    if items.len() == 0 {
        Ok((Seq::empty(), Seq::empty()))
    } else {
        match constant_row(f, items.drop_last()) {
            Err(e) => Err(e),
            Ok((cols, vals)) => match items.last() {
                SelectItem::Wildcard => Err(
                    ErrorView::Unsupported("SELECT * requires a FROM table"@),
                ),
                SelectItem::Expr { expr, alias } => match evaluated(f, expr, Map::empty()) {
                    Err(e) => Err(e@),
                    Ok(v) => Ok(
                        (cols.push(output_name(expr, alias)), vals.push(value_view(v))),
                    ),
                },
            },
        }
    }
}

proof fn lemma_constant_row_fails<F: Fn(&Expr, &Document) -> Result<Value, EngineError>>(
    f: F,
    items: Seq<SelectItem>,
    k: int,
)
    requires
        0 <= k <= items.len(),
        constant_row(f, items.take(k)) is Err,
    ensures
        constant_row(f, items) == constant_row(f, items.take(k)),
    decreases items.len() - k,
{
    if k == items.len() {
        assert(items.take(k) =~= items);
    } else {
        assert(items.take(k + 1).drop_last() =~= items.take(k));
        lemma_constant_row_fails(f, items, k + 1);
    }
}

/// The one row of `SELECT <expr>, ...` without a table.
pub fn run_const_select<F: Fn(&Expr, &Document) -> Result<Value, EngineError>>(
    f: &F,
    sel: &Select,
) -> (r: Result<(Vec<String>, Vec<Value>), EngineError>)
    requires
        is_evaluator(*f),
    ensures
        match r {
            Ok(out) => constant_row(*f, sel.items@) == Ok::<
                (Seq<Seq<char>>, Seq<ValueView>),
                ErrorView,
            >((views(out.0@), row_view(out.1@))) && row_wf(out.1@),
            Err(e) => constant_row(*f, sel.items@) == Err::<
                (Seq<Seq<char>>, Seq<ValueView>),
                ErrorView,
            >(e@),
        },
{
    let empty = Document::new();
    let mut columns: Vec<String> = Vec::new();
    let mut row: Vec<Value> = Vec::new();
    let mut i: usize = 0;
    proof {
        assert(sel.items@.take(0) =~= Seq::<SelectItem>::empty());
        assert(views(columns@) =~= Seq::<Seq<char>>::empty());
        assert(row_view(row@) =~= Seq::<ValueView>::empty());
    }
    while i < sel.items.len()
        invariant
            is_evaluator(*f),
            doc_view(empty) == Map::<Seq<char>, ValueView>::empty(),
            i <= sel.items@.len(),
            row_wf(row@),
            constant_row(*f, sel.items@.take(i as int)) == Ok::<
                (Seq<Seq<char>>, Seq<ValueView>),
                ErrorView,
            >((views(columns@), row_view(row@))),
        decreases sel.items@.len() - i,
    {
        let ghost cols = views(columns@);
        let ghost vals = row_view(row@);
        proof {
            assert(sel.items@.take(i + 1).drop_last() =~= sel.items@.take(i as int));
            assert(sel.items@.take(i + 1).last() == sel.items@[i as int]);
        }
        match &sel.items[i] {
            SelectItem::Wildcard => {
                proof {
                    lemma_constant_row_fails(*f, sel.items@, i + 1);
                }
                return Err(unsupported("SELECT * requires a FROM table"));
            },
            SelectItem::Expr { expr, alias } => {
                let name = match alias {
                    Some(a) => a.clone(),
                    None => expr_name(expr),
                };
                let ghost shown = name@;
                match evaluate(f, expr, &empty) {
                    Err(e) => {
                        proof {
                            lemma_constant_row_fails(*f, sel.items@, i + 1);
                        }
                        return Err(e);
                    },
                    Ok(v) => {
                        let ghost held = value_view(v);
                        columns.push(name);
                        row.push(v);
                        proof {
                            assert(views(columns@) =~= cols.push(shown));
                            assert(row_view(row@) =~= vals.push(held));
                        }
                    },
                }
            },
        }
        i = i + 1;
    }
    proof {
        assert(sel.items@.take(sel.items@.len() as int) =~= sel.items@);
    }
    Ok((columns, row))
}

} // verus!
