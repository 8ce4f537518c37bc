//! Geometric predicates: which conjuncts of a filter a geo index could serve.

use vstd::prelude::*;

use crate::ast::BinaryOp;
use crate::ast::Expr;
use crate::constraints::pointees;
use crate::search::collect_conjuncts;
use crate::search::conjuncts;
use crate::text::str_eq;

verus! {

/// A predicate on a point column. The coordinates are expressions, constant
/// where an index can serve the predicate.
pub enum GeoPredicate<'a> {
    /// Within a radius of a point.
    Distance { column: &'a String, lat: &'a Expr, lon: &'a Expr, radius: &'a Expr },
    /// Within a box.
    Box {
        column: &'a String,
        min_lat: &'a Expr,
        min_lon: &'a Expr,
        max_lat: &'a Expr,
        max_lon: &'a Expr,
    },
}

/// A predicate by its column and its expressions in order.
pub struct GeoView {
    pub bounded_by_distance: bool,
    pub column: Seq<char>,
    pub exprs: Seq<Expr>,
}

impl<'a> View for GeoPredicate<'a> {
    type V = GeoView;

    open spec fn view(&self) -> GeoView {
        match *self {
            GeoPredicate::Distance { column, lat, lon, radius } => GeoView {
                bounded_by_distance: true,
                column: column@,
                exprs: seq![*lat, *lon, *radius],
            },
            GeoPredicate::Box { column, min_lat, min_lon, max_lat, max_lon } => GeoView {
                bounded_by_distance: false,
                column: column@,
                exprs: seq![*min_lat, *min_lon, *max_lat, *max_lon],
            },
        }
    }
}

/// A comparison of `geo_distance(column, lat, lon)` with a radius.
pub open spec fn distance_of(call: Expr, radius: Expr) -> Option<GeoView> {
    match call {
        Expr::Func { name, args } => if name@ == "geo_distance"@ && args@.len() == 3 {
            match args@[0] {
                Expr::Column(c) => Some(
                    GeoView {
                        bounded_by_distance: true,
                        column: c@,
                        exprs: seq![args@[1], args@[2], radius],
                    },
                ),
                _ => None,
            }
        } else {
            None
        },
        _ => None,
    }
}

/// The geometric predicate that a conjunct is, if it is one.
pub open spec fn geo_of(e: Expr) -> Option<GeoView> {
    match e {
        Expr::Binary { op, left, right } => if op == BinaryOp::LtEq || op == BinaryOp::Lt {
            distance_of(*left, *right)
        } else if op == BinaryOp::GtEq || op == BinaryOp::Gt {
            distance_of(*right, *left)
        } else {
            None
        },
        Expr::Func { name, args } => if name@ == "geo_bbox"@ && args@.len() == 5 {
            match args@[0] {
                Expr::Column(c) => Some(
                    GeoView {
                        bounded_by_distance: false,
                        column: c@,
                        exprs: seq![args@[1], args@[2], args@[3], args@[4]],
                    },
                ),
                _ => None,
            }
        } else {
            None
        },
        _ => None,
    }
}

/// The geometric predicates among conjuncts, in order.
pub open spec fn geo_among(es: Seq<Expr>) -> Seq<GeoView>
    decreases es.len(),
{
    if es.len() == 0 {
        Seq::empty()
    } else {
        match geo_of(es.last()) {
            Some(g) => geo_among(es.drop_last()).push(g),
            None => geo_among(es.drop_last()),
        }
    }
}

/// The geometric predicates of a filter, in order.
pub open spec fn geo_of_filter(filter: Option<Expr>) -> Seq<GeoView> {
    match filter {
        Some(e) => geo_among(conjuncts(e)),
        None => Seq::empty(),
    }
}

/// Predicates by what each holds.
pub open spec fn geo_views(gs: Seq<GeoPredicate<'_>>) -> Seq<GeoView> {
    gs.map_values(|g: GeoPredicate<'_>| g@)
}

fn distance_predicate<'a>(call: &'a Expr, radius: &'a Expr) -> (r: Option<GeoPredicate<'a>>)
    ensures
        match r {
            Some(g) => distance_of(*call, *radius) == Some(g@),
            None => distance_of(*call, *radius) is None,
        },
{
    if let Expr::Func { name, args } = call {
        if str_eq(name.as_str(), "geo_distance") && args.len() == 3 {
            if let Expr::Column(column) = &args[0] {
                return Some(
                    GeoPredicate::Distance { column, lat: &args[1], lon: &args[2], radius },
                );
            }
        }
    }
    None
}

fn conjunct_predicate<'a>(e: &'a Expr) -> (r: Option<GeoPredicate<'a>>)
    ensures
        match r {
            Some(g) => geo_of(*e) == Some(g@),
            None => geo_of(*e) is None,
        },
{
    match e {
        Expr::Binary { op, left, right } => {
            if *op == BinaryOp::LtEq || *op == BinaryOp::Lt {
                distance_predicate(left, right)
            } else if *op == BinaryOp::GtEq || *op == BinaryOp::Gt {
                distance_predicate(right, left)
            } else {
                None
            }
        },
        Expr::Func { name, args } => {
            if str_eq(name.as_str(), "geo_bbox") && args.len() == 5 {
                if let Expr::Column(column) = &args[0] {
                    return Some(
                        GeoPredicate::Box {
                            column,
                            min_lat: &args[1],
                            min_lon: &args[2],
                            max_lat: &args[3],
                            max_lon: &args[4],
                        },
                    );
                }
            }
            None
        },
        _ => None,
    }
}

/// The geometric predicates of a filter, in order: the first whose coordinates
/// are constants is the one that an index serves.
pub fn geo_predicates<'a>(filter: &'a Option<Expr>) -> (r: Vec<GeoPredicate<'a>>)
    ensures
        geo_views(r@) == geo_of_filter(*filter),
{
    let mut out: Vec<GeoPredicate<'a>> = Vec::new();
    proof {
        assert(geo_views(out@) =~= Seq::<GeoView>::empty());
    }
    let e = match filter {
        None => {
            return out;
        },
        Some(e) => e,
    };
    let mut cs: Vec<&'a Expr> = Vec::new();
    proof {
        assert(pointees(cs@) =~= Seq::<Expr>::empty());
    }
    collect_conjuncts(e, &mut cs);
    let ghost es = conjuncts(*e);
    let mut i: usize = 0;
    proof {
        assert(pointees(cs@) =~= es);
        assert(es.take(0) =~= Seq::<Expr>::empty());
    }
    while i < cs.len()
        invariant
            es == conjuncts(*e),
            pointees(cs@) == es,
            i <= cs@.len(),
            geo_views(out@) == geo_among(es.take(i as int)),
        decreases cs@.len() - i,
    {
        let ghost before = geo_views(out@);
        proof {
            assert(es[i as int] == *cs@[i as int]);
            assert(es.take(i + 1).drop_last() =~= es.take(i as int));
            assert(es.take(i + 1).last() == es[i as int]);
        }
        if let Some(g) = conjunct_predicate(cs[i]) {
            let ghost gv = g@;
            out.push(g);
            proof {
                assert(geo_views(out@) =~= before.push(gv));
            }
        }
        i = i + 1;
    }
    proof {
        assert(es.take(es.len() as int) =~= es);
    }
    out
}

} // verus!
