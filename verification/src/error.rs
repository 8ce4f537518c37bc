//! What a statement can be refused with.

use vstd::prelude::*;

use crate::text::cat3;

verus! {

/// Why a statement was refused.
#[derive(Debug)]
pub enum EngineError {
    TableNotFound(String),
    TableExists(String),
    IndexNotFound(String),
    IndexExists(String),
    DatabaseNotFound(String),
    DatabaseExists(String),
    Constraint(String),
    Unsupported(String),
    Type(String),
    ResourceLimit(String),
    Timeseries(String),
}

/// An error by its kind and the characters of its message or name.
pub enum ErrorView {
    TableNotFound(Seq<char>),
    TableExists(Seq<char>),
    IndexNotFound(Seq<char>),
    IndexExists(Seq<char>),
    DatabaseNotFound(Seq<char>),
    DatabaseExists(Seq<char>),
    Constraint(Seq<char>),
    Unsupported(Seq<char>),
    Type(Seq<char>),
    ResourceLimit(Seq<char>),
    Timeseries(Seq<char>),
}

impl View for EngineError {
    type V = ErrorView;

    open spec fn view(&self) -> ErrorView {
        match self {
            EngineError::TableNotFound(s) => ErrorView::TableNotFound(s@),
            EngineError::TableExists(s) => ErrorView::TableExists(s@),
            EngineError::IndexNotFound(s) => ErrorView::IndexNotFound(s@),
            EngineError::IndexExists(s) => ErrorView::IndexExists(s@),
            EngineError::DatabaseNotFound(s) => ErrorView::DatabaseNotFound(s@),
            EngineError::DatabaseExists(s) => ErrorView::DatabaseExists(s@),
            EngineError::Constraint(s) => ErrorView::Constraint(s@),
            EngineError::Unsupported(s) => ErrorView::Unsupported(s@),
            EngineError::Type(s) => ErrorView::Type(s@),
            EngineError::ResourceLimit(s) => ErrorView::ResourceLimit(s@),
            EngineError::Timeseries(s) => ErrorView::Timeseries(s@),
        }
    }
}

impl EngineError {
    /// The message, or the name that the error is about.
    pub fn message(&self) -> (r: &String)
        ensures
            self@ == (match self@ {
                ErrorView::TableNotFound(_) => ErrorView::TableNotFound(r@),
                ErrorView::TableExists(_) => ErrorView::TableExists(r@),
                ErrorView::IndexNotFound(_) => ErrorView::IndexNotFound(r@),
                ErrorView::IndexExists(_) => ErrorView::IndexExists(r@),
                ErrorView::DatabaseNotFound(_) => ErrorView::DatabaseNotFound(r@),
                ErrorView::DatabaseExists(_) => ErrorView::DatabaseExists(r@),
                ErrorView::Constraint(_) => ErrorView::Constraint(r@),
                ErrorView::Unsupported(_) => ErrorView::Unsupported(r@),
                ErrorView::Type(_) => ErrorView::Type(r@),
                ErrorView::ResourceLimit(_) => ErrorView::ResourceLimit(r@),
                ErrorView::Timeseries(_) => ErrorView::Timeseries(r@),
            }),
    {
        match self {
            EngineError::TableNotFound(s) => s,
            EngineError::TableExists(s) => s,
            EngineError::IndexNotFound(s) => s,
            EngineError::IndexExists(s) => s,
            EngineError::DatabaseNotFound(s) => s,
            EngineError::DatabaseExists(s) => s,
            EngineError::Constraint(s) => s,
            EngineError::Unsupported(s) => s,
            EngineError::Type(s) => s,
            EngineError::ResourceLimit(s) => s,
            EngineError::Timeseries(s) => s,
        }
    }
}

/// A string as Rust's `Debug` shows it.
pub uninterp spec fn debug_quoted(s: Seq<char>) -> Seq<char>;

/// `format!("{:?}")` on a string: the string in double quotes with its special
/// characters escaped, a function of the string alone.
#[verifier::external_body]
pub(crate) fn quoted(s: &str) -> (r: String)
    ensures
        r@ == debug_quoted(s@),
{
    format!("{:?}", s)
}

/// Whether a result is this error.
pub open spec fn fails_with<T>(r: Result<T, EngineError>, e: ErrorView) -> bool {
    r matches Err(x) && x@ == e
}

/// A constraint violation with this message.
pub fn constraint(msg: &str) -> (r: EngineError)
    ensures
        r@ == ErrorView::Constraint(msg@),
{
    EngineError::Constraint(msg.to_owned())
}

/// An unsupported request with this message.
pub fn unsupported(msg: &str) -> (r: EngineError)
    ensures
        r@ == ErrorView::Unsupported(msg@),
{
    EngineError::Unsupported(msg.to_owned())
}

/// A type error with this message.
pub fn type_error(msg: &str) -> (r: EngineError)
    ensures
        r@ == ErrorView::Type(msg@),
{
    EngineError::Type(msg.to_owned())
}

/// A constraint violation that names something in the middle of its message.
pub fn constraint_about(before: &str, name: &str, after: &str) -> (r: EngineError)
    ensures
        r@ == ErrorView::Constraint(before@ + name@ + after@),
{
    EngineError::Constraint(cat3(before, name, after))
}

/// An unsupported request that names something in the middle of its message.
pub fn unsupported_about(before: &str, name: &str, after: &str) -> (r: EngineError)
    ensures
        r@ == ErrorView::Unsupported(before@ + name@ + after@),
{
    EngineError::Unsupported(cat3(before, name, after))
}

} // verus!
