//! Row gathers: what a read takes from the rows stored along its access path.

use vstd::prelude::*;

use crate::access::collect_mode;
use crate::access::collect_step;
use crate::access::walk_mode;
use crate::access::CollectMode;
use crate::access::CollectView;
use crate::access::OrderRequest;
use crate::access::RowCollector;
use crate::access::WalkKind;
use crate::access::WalkedRow;
use crate::ast::Expr;
use crate::error::EngineError;
use crate::execute::is_decider;
use crate::execute::matches_filter;
use crate::execute::passes;
use crate::model::doc_view;
use crate::order::first_few;
use crate::order::is_ranking;
use crate::order::kept;
use crate::order::put_in;
use crate::order::top_before;
use crate::order::Rank;
use crate::order::TopK;
use crate::order::TopRow;
use crate::value::Document;
use crate::value::Value;

verus! {

/// A row as it is stored: its key and its bytes.
pub type StoredRow = (Vec<u8>, Vec<u8>);

/// What a decoder makes of a row's bytes.
pub open spec fn row_of<G: Fn(&Vec<u8>) -> Result<Document, EngineError>>(
    g: G,
    bytes: Vec<u8>,
) -> Result<Document, EngineError> {
    choose|r: Result<Document, EngineError>| call_ensures(g, (&bytes,), r)
}

/// Whether a function decodes rows, always the same way.
pub open spec fn is_row_decoder<G: Fn(&Vec<u8>) -> Result<Document, EngineError>>(g: G) -> bool {
    &&& forall|b: &Vec<u8>| call_requires(g, (b,))
    &&& forall|b: &Vec<u8>, x: Result<Document, EngineError>, y: Result<Document, EngineError>|
        call_ensures(g, (b,), x) && call_ensures(g, (b,), y) ==> x == y
}

/// Whether two documents tie on the leading sort column.
pub open spec fn tied<T: Fn(&Document, &Document) -> bool>(t: T, a: Document, b: Document) -> bool {
    choose|r: bool| call_ensures(t, (&a, &b), r)
}

/// Whether a function compares documents, always the same way.
pub open spec fn is_tie_test<T: Fn(&Document, &Document) -> bool>(t: T) -> bool {
    &&& forall|a: &Document, b: &Document| call_requires(t, (a, b))
    &&& forall|a: &Document, b: &Document, x: bool, y: bool|
        call_ensures(t, (a, b), x) && call_ensures(t, (a, b), y) ==> x == y
}

/// The place of the row that a limit falls on: a limit of nothing is met by
/// the first row.
pub open spec fn limit_place(stop_at: Option<usize>) -> int {
    match stop_at {
        Some(lim) => if lim > 0 {
            lim - 1
        } else {
            0
        },
        None => 0,
    }
}

/// A gather after one more stored row: nothing of it where the gather has
/// stopped, where the row does not pass the filter, or where its bytes cannot
/// be read and the walk passes such rows over.
pub open spec fn gather_step<
    G: Fn(&Vec<u8>) -> Result<Document, EngineError>,
    D: Fn(&Expr, &Document) -> Result<bool, EngineError>,
    T: Fn(&Document, &Document) -> bool,
>(
    g: G,
    d: D,
    t: T,
    filter: Option<Expr>,
    mode: CollectMode,
    lenient: bool,
    c: CollectView<Document>,
    row: StoredRow,
) -> Result<CollectView<Document>, EngineError> {
    if c.stopped {
        Ok(c)
    } else {
        match row_of(g, row.1) {
            Err(e) => if lenient {
                Ok(c)
            } else {
                Err(e)
            },
            Ok(doc) => match passes(d, filter, doc_view(doc)) {
                Err(e) => Err(e),
                Ok(matched) => Ok(
                    collect_step(
                        c,
                        WalkedRow {
                            key: row.0,
                            doc,
                            matched,
                            ties: c.only_ties && tied(
                                t,
                                c.rows[limit_place(mode.stop_at)].doc,
                                doc,
                            ),
                        },
                        mode.stop_at,
                        mode.keep_ties,
                    ),
                ),
            },
        }
    }
}

/// A gather before its first row.
pub open spec fn nothing_gathered() -> CollectView<Document> {
    CollectView { only_ties: false, stopped: false, rows: Seq::empty() }
}

/// A gather after a run of stored rows; the first row that cannot be read or
/// decided fails the whole.
pub open spec fn gathered<
    G: Fn(&Vec<u8>) -> Result<Document, EngineError>,
    D: Fn(&Expr, &Document) -> Result<bool, EngineError>,
    T: Fn(&Document, &Document) -> bool,
>(
    g: G,
    d: D,
    t: T,
    filter: Option<Expr>,
    mode: CollectMode,
    lenient: bool,
    rows: Seq<StoredRow>,
) -> Result<CollectView<Document>, EngineError>
    decreases rows.len(),
{
    if rows.len() == 0 {
        Ok(nothing_gathered())
    } else {
        match gathered(g, d, t, filter, mode, lenient, rows.drop_last()) {
            Err(e) => Err(e),
            Ok(c) => gather_step(g, d, t, filter, mode, lenient, c, rows.last()),
        }
    }
}

/// A gather under way.
pub struct Gather {
    pub mode: CollectMode,
    /// Whether rows whose bytes cannot be read are passed over.
    pub lenient: bool,
    pub stopped: bool,
    pub rows: RowCollector<Document>,
}

impl View for Gather {
    type V = CollectView<Document>;

    open spec fn view(&self) -> CollectView<Document> {
        CollectView {
            only_ties: self.rows.only_ties,
            stopped: self.stopped,
            rows: self.rows.rows@,
        }
    }
}

impl Gather {
    /// Whether only ties are taken behind a limit alone, with the row that it
    /// fell on at hand.
    pub open spec fn wf(&self) -> bool {
        &&& self.rows.stop_at == self.mode.stop_at
        &&& self.rows.keep_ties == self.mode.keep_ties
        &&& self@.only_ties ==> self.mode.stop_at is Some && limit_place(self.mode.stop_at)
            < self@.rows.len()
    }

    /// No row yet. The rows of a slice of the table are passed over where they
    /// cannot be read.
    pub fn new(kind: WalkKind, ordered: bool, exact: bool, limit: Option<usize>) -> (r: Gather)
        ensures
            r.wf(),
            r@ == nothing_gathered(),
            r.mode == walk_mode(kind, ordered, exact, limit),
            r.lenient == (kind == WalkKind::KeyRange),
    {
        let mode = collect_mode(kind, ordered, exact, limit);
        let rows = RowCollector::new(&mode);
        let r = Gather { mode, lenient: kind == WalkKind::KeyRange, stopped: false, rows };
        proof {
            assert(r@.rows =~= Seq::<WalkedRow<Document>>::empty());
        }
        r
    }

    /// Takes one stored row of the walk; says whether the walk can stop.
    pub fn feed<
        G: Fn(&Vec<u8>) -> Result<Document, EngineError>,
        D: Fn(&Expr, &Document) -> Result<bool, EngineError>,
        T: Fn(&Document, &Document) -> bool,
    >(&mut self, g: &G, d: &D, t: &T, filter: &Option<Expr>, key: Vec<u8>, bytes: Vec<u8>) -> (r:
        Result<bool, EngineError>)
        requires
            old(self).wf(),
            is_row_decoder(*g),
            is_decider(*d),
            is_tie_test(*t),
        ensures
            final(self).wf(),
            final(self).mode == old(self).mode,
            final(self).lenient == old(self).lenient,
            match gather_step(
                *g,
                *d,
                *t,
                *filter,
                old(self).mode,
                old(self).lenient,
                old(self)@,
                (key, bytes),
            ) {
                Ok(c) => final(self)@ == c && r == Ok::<bool, EngineError>(c.stopped),
                Err(e) => final(self)@ == old(self)@ && r == Err::<bool, EngineError>(e),
            },
    {
        if self.stopped {
            return Ok(true);
        }
        let doc = match g(&bytes) {
            Err(e) => {
                if self.lenient {
                    return Ok(false);
                }
                return Err(e);
            },
            Ok(doc) => doc,
        };
        let matched: bool = match matches_filter(d, filter, &doc) {
            Err(e) => {
                return Err(e);
            },
            Ok(m) => m,
        };
        let mut ties: bool = false;
        if self.rows.only_ties {
            let place: usize = match self.mode.stop_at {
                Some(lim) => if lim > 0 {
                    lim - 1
                } else {
                    0
                },
                None => 0,
            };
            ties = t(&self.rows.rows[place].doc, &doc);
        }
        let stop: bool = self.rows.feed(WalkedRow { key, doc, matched, ties });
        self.stopped = stop;
        Ok(stop)
    }
}

/// Rows as they are handed out: key and document.
pub open spec fn keyed(rows: Seq<WalkedRow<Document>>) -> Seq<(Vec<u8>, Document)> {
    rows.map_values(|r: WalkedRow<Document>| (r.key, r.doc))
}

fn hand_out(rows: Vec<WalkedRow<Document>>) -> (r: Vec<(Vec<u8>, Document)>)
    ensures
        r@ == keyed(rows@),
{
    let ghost all = rows@;
    let mut out: Vec<(Vec<u8>, Document)> = Vec::new();
    for row in it: rows
        invariant
            it.seq() == all,
            out@ == keyed(all.take(it.index() as int)),
    {
        proof {
            let i = it.index() as int;
            assert(all.take(i + 1) =~= all.take(i).push(all[i]));
            assert(keyed(all.take(i + 1)) =~= keyed(all.take(i)).push((all[i].key, all[i].doc)));
        }
        out.push((row.key, row.doc));
    }
    proof {
        assert(all.take(all.len() as int) =~= all);
    }
    out
}

proof fn lemma_gather_fails<
    G: Fn(&Vec<u8>) -> Result<Document, EngineError>,
    D: Fn(&Expr, &Document) -> Result<bool, EngineError>,
    T: Fn(&Document, &Document) -> bool,
>(
    g: G,
    d: D,
    t: T,
    filter: Option<Expr>,
    mode: CollectMode,
    lenient: bool,
    rows: Seq<StoredRow>,
    n: int,
)
    requires
        0 <= n <= rows.len(),
        gathered(g, d, t, filter, mode, lenient, rows.take(n)) is Err,
    ensures
        gathered(g, d, t, filter, mode, lenient, rows) == gathered(
            g,
            d,
            t,
            filter,
            mode,
            lenient,
            rows.take(n),
        ),
    decreases rows.len() - n,
{
    if n == rows.len() {
        assert(rows.take(n) =~= rows);
    } else {
        assert(rows.take(n + 1).drop_last() =~= rows.take(n));
        lemma_gather_fails(g, d, t, filter, mode, lenient, rows, n + 1);
    }
}

proof fn lemma_gather_stops<
    G: Fn(&Vec<u8>) -> Result<Document, EngineError>,
    D: Fn(&Expr, &Document) -> Result<bool, EngineError>,
    T: Fn(&Document, &Document) -> bool,
>(
    g: G,
    d: D,
    t: T,
    filter: Option<Expr>,
    mode: CollectMode,
    lenient: bool,
    rows: Seq<StoredRow>,
    n: int,
)
    requires
        0 <= n <= rows.len(),
        gathered(g, d, t, filter, mode, lenient, rows.take(n)) matches Ok(c) && c.stopped,
    ensures
        gathered(g, d, t, filter, mode, lenient, rows) == gathered(
            g,
            d,
            t,
            filter,
            mode,
            lenient,
            rows.take(n),
        ),
    decreases rows.len() - n,
{
    if n == rows.len() {
        assert(rows.take(n) =~= rows);
    } else {
        assert(rows.take(n + 1).drop_last() =~= rows.take(n));
        lemma_gather_stops(g, d, t, filter, mode, lenient, rows, n + 1);
    }
}

/// Gathers the rows along a walk; rows behind the one it stops at are not
/// read.
pub fn gather_walk<
    G: Fn(&Vec<u8>) -> Result<Document, EngineError>,
    D: Fn(&Expr, &Document) -> Result<bool, EngineError>,
    T: Fn(&Document, &Document) -> bool,
>(g: &G, d: &D, t: &T, filter: &Option<Expr>, start: Gather, stored: Vec<StoredRow>) -> (r: Result<
    Vec<(Vec<u8>, Document)>,
    EngineError,
>)
    requires
        start.wf(),
        start@ == nothing_gathered(),
        is_row_decoder(*g),
        is_decider(*d),
        is_tie_test(*t),
    ensures
        match gathered(*g, *d, *t, *filter, start.mode, start.lenient, stored@) {
            Ok(c) => r matches Ok(rows) && rows@ == keyed(c.rows),
            Err(e) => r == Err::<Vec<(Vec<u8>, Document)>, EngineError>(e),
        },
{
    let ghost all = stored@;
    let ghost mode = start.mode;
    let ghost lenient = start.lenient;
    let mut gather = start;
    proof {
        assert(all.take(0) =~= Seq::<StoredRow>::empty());
    }
    for row in it: stored
        invariant
            it.seq() == all,
            all == stored@,
            mode == start.mode,
            lenient == start.lenient,
            gather.wf(),
            gather.mode == mode,
            gather.lenient == lenient,
            is_row_decoder(*g),
            is_decider(*d),
            is_tie_test(*t),
            gathered(*g, *d, *t, *filter, mode, lenient, all.take(it.index() as int)) == Ok::<
                CollectView<Document>,
                EngineError,
            >(gather@),
    {
        let ghost n = it.index() as int;
        let (key, bytes) = row;
        proof {
            assert(all.take(n + 1).drop_last() =~= all.take(n));
            assert(all.take(n + 1).last() == (key, bytes));
        }
        match gather.feed(g, d, t, filter, key, bytes) {
            Err(e) => {
                proof {
                    lemma_gather_fails(*g, *d, *t, *filter, mode, lenient, all, n + 1);
                }
                return Err(e);
            },
            Ok(stop) => {
                if stop {
                    proof {
                        lemma_gather_stops(*g, *d, *t, *filter, mode, lenient, all, n + 1);
                    }
                    return Ok(hand_out(gather.rows.rows));
                }
            },
        }
    }
    proof {
        assert(all.take(all.len() as int) =~= all);
    }
    Ok(hand_out(gather.rows.rows))
}

/// The rows that pass a filter, in walk order; the first row that cannot be
/// read or decided fails the whole.
pub open spec fn matching_rows<
    G: Fn(&Vec<u8>) -> Result<Document, EngineError>,
    D: Fn(&Expr, &Document) -> Result<bool, EngineError>,
>(g: G, d: D, filter: Option<Expr>, rows: Seq<StoredRow>) -> Result<
    Seq<(Vec<u8>, Document)>,
    EngineError,
>
    decreases rows.len(),
{
    if rows.len() == 0 {
        Ok(Seq::empty())
    } else {
        match matching_rows(g, d, filter, rows.drop_last()) {
            Err(e) => Err(e),
            Ok(kept) => match row_of(g, rows.last().1) {
                Err(e) => Err(e),
                Ok(doc) => match passes(d, filter, doc_view(doc)) {
                    Err(e) => Err(e),
                    Ok(true) => Ok(kept.push((rows.last().0, doc))),
                    Ok(false) => Ok(kept),
                },
            },
        }
    }
}

proof fn lemma_matching_fails<
    G: Fn(&Vec<u8>) -> Result<Document, EngineError>,
    D: Fn(&Expr, &Document) -> Result<bool, EngineError>,
>(g: G, d: D, filter: Option<Expr>, rows: Seq<StoredRow>, n: int)
    requires
        0 <= n <= rows.len(),
        matching_rows(g, d, filter, rows.take(n)) is Err,
    ensures
        matching_rows(g, d, filter, rows) == matching_rows(g, d, filter, rows.take(n)),
    decreases rows.len() - n,
{
    if n == rows.len() {
        assert(rows.take(n) =~= rows);
    } else {
        assert(rows.take(n + 1).drop_last() =~= rows.take(n));
        lemma_matching_fails(g, d, filter, rows, n + 1);
    }
}

/// The value of a document at the leading sort column, `NULL` where it has
/// none.
pub open spec fn leading<L: Fn(&Document) -> Value>(l: L, doc: Document) -> Value {
    choose|v: Value| call_ensures(l, (&doc,), v)
}

/// Whether a function reads a sort value, always the same way.
pub open spec fn is_reader<L: Fn(&Document) -> Value>(l: L) -> bool {
    &&& forall|d: &Document| call_requires(l, (d,))
    &&& forall|d: &Document, x: Value, y: Value|
        call_ensures(l, (d,), x) && call_ensures(l, (d,), y) ==> x == y
}

/// Rows with their sort values.
pub open spec fn with_leading<L: Fn(&Document) -> Value>(
    l: L,
    rows: Seq<(Vec<u8>, Document)>,
) -> Seq<TopRow<Document>> {
    rows.map_values(|r: (Vec<u8>, Document)| (leading(l, r.1), r.0, r.1))
}

/// The first `k` of some rows in the order of their sort values, ties by key.
pub open spec fn top_rows<L: Fn(&Document) -> Value, F: Fn(&Value, &Value) -> Rank>(
    l: L,
    f: F,
    descending: bool,
    k: nat,
    rows: Seq<(Vec<u8>, Document)>,
) -> Seq<TopRow<Document>> {
    kept(
        with_leading(l, rows),
        |a: TopRow<Document>, b: TopRow<Document>| top_before(f, descending, a, b),
        k,
    )
}

/// Rows without their sort values.
pub open spec fn without_leading(rows: Seq<TopRow<Document>>) -> Seq<(Vec<u8>, Document)> {
    rows.map_values(|r: TopRow<Document>| (r.1, r.2))
}

fn hand_out_top(rows: Vec<TopRow<Document>>) -> (r: Vec<(Vec<u8>, Document)>)
    ensures
        r@ == without_leading(rows@),
{
    let ghost all = rows@;
    let mut out: Vec<(Vec<u8>, Document)> = Vec::new();
    for row in it: rows
        invariant
            it.seq() == all,
            out@ == without_leading(all.take(it.index() as int)),
    {
        proof {
            let i = it.index() as int;
            assert(all.take(i + 1) =~= all.take(i).push(all[i]));
            assert(without_leading(all.take(i + 1)) =~= without_leading(all.take(i)).push(
                (all[i].1, all[i].2),
            ));
        }
        let (_, key, doc) = row;
        out.push((key, doc));
    }
    proof {
        assert(all.take(all.len() as int) =~= all);
    }
    out
}

/// The rows kept of a top-k after one more stored row.
pub open spec fn top_step<
    G: Fn(&Vec<u8>) -> Result<Document, EngineError>,
    D: Fn(&Expr, &Document) -> Result<bool, EngineError>,
    L: Fn(&Document) -> Value,
    F: Fn(&Value, &Value) -> Rank,
>(
    g: G,
    d: D,
    l: L,
    f: F,
    filter: Option<Expr>,
    descending: bool,
    k: nat,
    rows: Seq<TopRow<Document>>,
    row: StoredRow,
) -> Result<Seq<TopRow<Document>>, EngineError> {
    match row_of(g, row.1) {
        Err(e) => Err(e),
        Ok(doc) => match passes(d, filter, doc_view(doc)) {
            Err(e) => Err(e),
            Ok(true) => Ok(
                first_few(
                    put_in(
                        rows,
                        (leading(l, doc), row.0, doc),
                        |a: TopRow<Document>, b: TopRow<Document>| top_before(f, descending, a, b),
                    ),
                    k,
                ),
            ),
            Ok(false) => Ok(rows),
        },
    }
}

/// Takes one stored row of a whole-table walk into a bounded top-k.
pub fn feed_top<
    G: Fn(&Vec<u8>) -> Result<Document, EngineError>,
    D: Fn(&Expr, &Document) -> Result<bool, EngineError>,
    L: Fn(&Document) -> Value,
    F: Fn(&Value, &Value) -> Rank,
>(
    top: &mut TopK<Document>,
    g: &G,
    d: &D,
    l: &L,
    f: &F,
    filter: &Option<Expr>,
    key: Vec<u8>,
    bytes: Vec<u8>,
) -> (r: Result<(), EngineError>)
    requires
        is_row_decoder(*g),
        is_decider(*d),
        is_reader(*l),
        is_ranking(*f),
    ensures
        final(top).k == old(top).k,
        final(top).descending == old(top).descending,
        match top_step(
            *g,
            *d,
            *l,
            *f,
            *filter,
            old(top).descending,
            old(top).k as nat,
            old(top).rows@,
            (key, bytes),
        ) {
            Ok(rows) => r is Ok && final(top).rows@ == rows,
            Err(e) => r == Err::<(), EngineError>(e) && final(top).rows@ == old(top).rows@,
        },
{
    let doc = match g(&bytes) {
        Err(e) => {
            return Err(e);
        },
        Ok(doc) => doc,
    };
    match matches_filter(d, filter, &doc) {
        Err(e) => Err(e),
        Ok(matched) => {
            if matched {
                let value = l(&doc);
                top.feed(value, key, doc, f);
            }
            Ok(())
        },
    }
}

/// Gathers the first `k` rows of a whole-table walk in the order of one
/// column: no more than `k` are held at a time.
pub fn gather_top<
    G: Fn(&Vec<u8>) -> Result<Document, EngineError>,
    D: Fn(&Expr, &Document) -> Result<bool, EngineError>,
    L: Fn(&Document) -> Value,
    F: Fn(&Value, &Value) -> Rank,
>(
    g: &G,
    d: &D,
    l: &L,
    f: &F,
    filter: &Option<Expr>,
    descending: bool,
    k: usize,
    stored: Vec<StoredRow>,
) -> (r: Result<Vec<(Vec<u8>, Document)>, EngineError>)
    requires
        is_row_decoder(*g),
        is_decider(*d),
        is_reader(*l),
        is_ranking(*f),
    ensures
        match matching_rows(*g, *d, *filter, stored@) {
            Ok(all) => r matches Ok(rows) && rows@ == without_leading(
                top_rows(*l, *f, descending, k as nat, all),
            ),
            Err(e) => r == Err::<Vec<(Vec<u8>, Document)>, EngineError>(e),
        },
{
    let ghost all = stored@;
    let ghost lt = |a: TopRow<Document>, b: TopRow<Document>| top_before(*f, descending, a, b);
    let mut top: TopK<Document> = TopK::new(k, descending);
    let ghost mut seen: Seq<(Vec<u8>, Document)> = Seq::empty();
    proof {
        assert(all.take(0) =~= Seq::<StoredRow>::empty());
        assert(with_leading(*l, seen) =~= Seq::<TopRow<Document>>::empty());
    }
    for row in it: stored
        invariant
            it.seq() == all,
            all == stored@,
            is_row_decoder(*g),
            is_decider(*d),
            is_reader(*l),
            is_ranking(*f),
            top.k == k,
            top.descending == descending,
            lt == (|a: TopRow<Document>, b: TopRow<Document>| top_before(*f, descending, a, b)),
            matching_rows(*g, *d, *filter, all.take(it.index() as int)) == Ok::<
                Seq<(Vec<u8>, Document)>,
                EngineError,
            >(seen),
            top.rows@ == kept(with_leading(*l, seen), lt, k as nat),
    {
        let ghost n = it.index() as int;
        let (key, bytes) = row;
        proof {
            assert(all.take(n + 1).drop_last() =~= all.take(n));
            assert(all.take(n + 1).last() == (key, bytes));
        }
        let ghost doc = row_of(*g, bytes);
        match feed_top(&mut top, g, d, l, f, filter, key, bytes) {
            Err(e) => {
                proof {
                    lemma_matching_fails(*g, *d, *filter, all, n + 1);
                }
                return Err(e);
            },
            Ok(()) => {
                proof {
                    let doc = doc->Ok_0;
                    if passes(*d, *filter, doc_view(doc)) == Ok::<bool, EngineError>(true) {
                        let more = seen.push((key, doc));
                        assert(with_leading(*l, more).drop_last() =~= with_leading(*l, seen));
                        assert(with_leading(*l, more).last() == (leading(*l, doc), key, doc));
                        seen = more;
                    }
                }
            },
        }
    }
    proof {
        assert(all.take(all.len() as int) =~= all);
    }
    Ok(hand_out_top(top.rows))
}

/// Whether a walk keeps a bounded top-k: the whole table, an order of one
/// column, and a limit.
pub open spec fn keeps_top(kind: WalkKind, ordered: bool, exact: bool, limit: Option<usize>) -> bool {
    kind == WalkKind::Table && ordered && exact && limit is Some
}

/// A gather of rows as they come along an access path: a bounded top-k or a
/// walk.
pub enum Gathering {
    Top(TopK<Document>),
    Walk(Gather),
}

impl Gathering {
    pub open spec fn wf(&self) -> bool {
        self matches Gathering::Walk(w) ==> w.wf()
    }

    /// No row yet.
    pub fn new(kind: WalkKind, order: Option<&OrderRequest<'_>>, limit: Option<usize>) -> (r:
        Gathering)
        ensures
            r.wf(),
            ({
                let ordered = order is Some;
                let exact = order matches Some(o) ==> o.exact;
                if keeps_top(kind, ordered, exact, limit) {
                    r matches Gathering::Top(top) && top.k == limit->0 && top.descending
                        == order->0.descending && top.rows@ == Seq::<TopRow<Document>>::empty()
                } else {
                    r matches Gathering::Walk(w) && w@ == nothing_gathered() && w.mode
                        == walk_mode(kind, ordered, exact, limit) && w.lenient == (kind
                        == WalkKind::KeyRange)
                }
            }),
    {
        let ordered: bool = order.is_some();
        let mut exact: bool = true;
        let mut descending: bool = false;
        if let Some(o) = order {
            exact = o.exact;
            descending = o.descending;
        }
        if let Some(k) = limit {
            if kind == WalkKind::Table && ordered && exact {
                return Gathering::Top(TopK::new(k, descending));
            }
        }
        Gathering::Walk(Gather::new(kind, ordered, exact, limit))
    }

    /// Takes one stored row; says whether the walk can stop.
    pub fn feed<
        G: Fn(&Vec<u8>) -> Result<Document, EngineError>,
        D: Fn(&Expr, &Document) -> Result<bool, EngineError>,
        T: Fn(&Document, &Document) -> bool,
        L: Fn(&Document) -> Value,
        F: Fn(&Value, &Value) -> Rank,
    >(
        self,
        g: &G,
        d: &D,
        t: &T,
        l: &L,
        f: &F,
        filter: &Option<Expr>,
        key: Vec<u8>,
        bytes: Vec<u8>,
    ) -> (r: Result<(Gathering, bool), EngineError>)
        requires
            self.wf(),
            is_row_decoder(*g),
            is_decider(*d),
            is_tie_test(*t),
            is_reader(*l),
            is_ranking(*f),
        ensures
            match self {
                Gathering::Top(a) => match top_step(
                    *g,
                    *d,
                    *l,
                    *f,
                    *filter,
                    a.descending,
                    a.k as nat,
                    a.rows@,
                    (key, bytes),
                ) {
                    Ok(rows) => (r matches Ok((Gathering::Top(b), false)) && b.k == a.k
                        && b.descending == a.descending && b.rows@ == rows),
                    Err(e) => r == Err::<(Gathering, bool), EngineError>(e),
                },
                Gathering::Walk(a) => match gather_step(
                    *g,
                    *d,
                    *t,
                    *filter,
                    a.mode,
                    a.lenient,
                    a@,
                    (key, bytes),
                ) {
                    Ok(c) => (r matches Ok((Gathering::Walk(b), stop)) && b.wf() && b.mode
                        == a.mode && b.lenient == a.lenient && b@ == c && stop == c.stopped),
                    Err(e) => r == Err::<(Gathering, bool), EngineError>(e),
                },
            },
    {
        match self {
            Gathering::Top(a) => {
                let mut top = a;
                match feed_top(&mut top, g, d, l, f, filter, key, bytes) {
                    Err(e) => Err(e),
                    Ok(()) => Ok((Gathering::Top(top), false)),
                }
            },
            Gathering::Walk(a) => {
                let mut walk = a;
                match walk.feed(g, d, t, filter, key, bytes) {
                    Err(e) => Err(e),
                    Ok(stop) => Ok((Gathering::Walk(walk), stop)),
                }
            },
        }
    }

    /// The rows gathered, and whether they come in the order that was asked
    /// for.
    pub fn finish(self) -> (r: (Vec<(Vec<u8>, Document)>, bool))
        ensures
            match self {
                Gathering::Top(top) => r.1 && r.0@ == without_leading(top.rows@),
                Gathering::Walk(w) => r.1 == w.mode.sorted && r.0@ == keyed(w@.rows),
            },
    {
        match self {
            Gathering::Top(top) => (hand_out_top(top.rows), true),
            Gathering::Walk(w) => {
                let sorted: bool = w.mode.sorted;
                (hand_out(w.rows.rows), sorted)
            },
        }
    }
}

/// Gathers the rows that pass a filter from those stored along an access path,
/// in walk order, and says whether they come in the order that was asked for.
/// `ordered` says that one was asked for, `exact` that it is of the one column
/// that the path follows or the top-k sorts by.
pub fn gather_rows_planned<
    G: Fn(&Vec<u8>) -> Result<Document, EngineError>,
    D: Fn(&Expr, &Document) -> Result<bool, EngineError>,
    T: Fn(&Document, &Document) -> bool,
    L: Fn(&Document) -> Value,
    F: Fn(&Value, &Value) -> Rank,
>(
    g: &G,
    d: &D,
    t: &T,
    l: &L,
    f: &F,
    filter: &Option<Expr>,
    kind: WalkKind,
    order: Option<&OrderRequest<'_>>,
    limit: Option<usize>,
    stored: Vec<StoredRow>,
) -> (r: Result<(Vec<(Vec<u8>, Document)>, bool), EngineError>)
    requires
        is_row_decoder(*g),
        is_decider(*d),
        is_tie_test(*t),
        is_reader(*l),
        is_ranking(*f),
    ensures
        ({
            let ordered = order is Some;
            let exact = order matches Some(o) ==> o.exact;
            if keeps_top(kind, ordered, exact, limit) {
                match matching_rows(*g, *d, *filter, stored@) {
                    Ok(all) => r matches Ok((rows, sorted)) && sorted && rows@ == without_leading(
                        top_rows(*l, *f, order->0.descending, limit->0 as nat, all),
                    ),
                    Err(e) => r == Err::<(Vec<(Vec<u8>, Document)>, bool), EngineError>(e),
                }
            } else {
                let mode = walk_mode(kind, ordered, exact, limit);
                match gathered(*g, *d, *t, *filter, mode, kind == WalkKind::KeyRange, stored@) {
                    Ok(c) => r matches Ok((rows, sorted)) && sorted == mode.sorted && rows@
                        == keyed(c.rows),
                    Err(e) => r == Err::<(Vec<(Vec<u8>, Document)>, bool), EngineError>(e),
                }
            }
        }),
{
    let ordered: bool = order.is_some();
    let mut exact: bool = true;
    let mut descending: bool = false;
    if let Some(o) = order {
        exact = o.exact;
        descending = o.descending;
    }
    if let Some(k) = limit {
        if kind == WalkKind::Table && ordered && exact {
            return match gather_top(g, d, l, f, filter, descending, k, stored) {
                Ok(rows) => Ok((rows, true)),
                Err(e) => Err(e),
            };
        }
    }
    let start = Gather::new(kind, ordered, exact, limit);
    let sorted: bool = start.mode.sorted;
    match gather_walk(g, d, t, filter, start, stored) {
        Ok(rows) => Ok((rows, sorted)),
        Err(e) => Err(e),
    }
}

/// Without a limit a gather gives every row that passes the filter, in walk
/// order, and fails exactly where one of them cannot be read or decided.
pub proof fn unlimited_gather_is_the_filter<
    G: Fn(&Vec<u8>) -> Result<Document, EngineError>,
    D: Fn(&Expr, &Document) -> Result<bool, EngineError>,
    T: Fn(&Document, &Document) -> bool,
>(g: G, d: D, t: T, filter: Option<Expr>, mode: CollectMode, rows: Seq<StoredRow>)
    requires
        mode.stop_at is None,
    ensures
        match matching_rows(g, d, filter, rows) {
            Ok(all) => gathered(g, d, t, filter, mode, false, rows) matches Ok(c) && !c.stopped
                && !c.only_ties && keyed(c.rows) == all,
            Err(e) => gathered(g, d, t, filter, mode, false, rows) == Err::<
                CollectView<Document>,
                EngineError,
            >(e),
        },
    decreases rows.len(),
{
    if rows.len() == 0 {
        assert(keyed(nothing_gathered().rows) =~= Seq::<(Vec<u8>, Document)>::empty());
    } else {
        unlimited_gather_is_the_filter(g, d, t, filter, mode, rows.drop_last());
        if let Ok(c) = gathered(g, d, t, filter, mode, false, rows.drop_last()) {
            if let Ok(n) = gathered(g, d, t, filter, mode, false, rows) {
                if n.rows.len() > c.rows.len() {
                    assert(keyed(n.rows) =~= keyed(c.rows).push((n.rows.last().key, n.rows.last().doc)));
                }
            }
        }
    }
}

/// A gather up to a limit gives the rows that one without a limit begins with.
pub proof fn limited_gather_is_a_prefix<
    G: Fn(&Vec<u8>) -> Result<Document, EngineError>,
    D: Fn(&Expr, &Document) -> Result<bool, EngineError>,
    T: Fn(&Document, &Document) -> bool,
>(
    g: G,
    d: D,
    t: T,
    filter: Option<Expr>,
    mode: CollectMode,
    rows: Seq<StoredRow>,
)
    requires
        !mode.keep_ties,
        mode.stop_at matches Some(lim) && lim > 0,
        matching_rows(g, d, filter, rows) is Ok,
    ensures
        ({
            let all = matching_rows(g, d, filter, rows)->Ok_0;
            let lim = mode.stop_at->0 as nat;
            gathered(g, d, t, filter, mode, false, rows) matches Ok(c) && keyed(c.rows)
                == first_few(all, lim) && c.stopped == (all.len() >= lim) && !c.only_ties
        }),
    decreases rows.len(),
{
    let lim = mode.stop_at->0 as nat;
    if rows.len() == 0 {
        assert(keyed(nothing_gathered().rows) =~= Seq::<(Vec<u8>, Document)>::empty());
    } else {
        let init = rows.drop_last();
        limited_gather_is_a_prefix(g, d, t, filter, mode, init);
        let before = matching_rows(g, d, filter, init)->Ok_0;
        let all = matching_rows(g, d, filter, rows)->Ok_0;
        let c = gathered(g, d, t, filter, mode, false, init)->Ok_0;
        let n = gathered(g, d, t, filter, mode, false, rows)->Ok_0;
        assert(keyed(c.rows).len() == c.rows.len());
        if c.stopped {
            assert(first_few(all, lim) =~= first_few(before, lim));
        } else {
            assert(first_few(before, lim) =~= before);
            assert(first_few(all, lim) =~= all);
            if n.rows.len() > c.rows.len() {
                assert(keyed(n.rows) =~= keyed(c.rows).push(
                    (n.rows.last().key, n.rows.last().doc),
                ));
            }
        }
    }
}

} // verus!
