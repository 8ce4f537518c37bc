//! Statements: what a session can ask of the engine.

use vstd::prelude::*;

use crate::alter::AlterAction;
use crate::ast::Expr;
use crate::ast::Select;
use crate::auth::GrantObject;
use crate::ddl_search::CreateSearchIndex;
use crate::ddl_table::CreateTable;
use crate::ddl_vector::CreateVectorIndex;
use crate::value::Value;

verus! {

/// `CREATE TIMESERIES TABLE`.
pub struct CreateTimeseries {
    pub name: String,
    pub series_key: Vec<String>,
    pub retention_ms: Option<i64>,
    pub ooo_ms: Option<i64>,
    pub if_not_exists: bool,
}

/// `CREATE ROLLUP`.
pub struct CreateRollup {
    pub name: String,
    pub table: String,
    pub bucket_ms: i64,
    pub retention_ms: Option<i64>,
    pub if_not_exists: bool,
}

/// `CREATE [GLOBAL] INDEX`.
pub struct CreateIndex {
    pub name: String,
    pub table: String,
    pub paths: Vec<String>,
    pub if_not_exists: bool,
    pub global: bool,
    pub ready: bool,
}

/// `CREATE GEO INDEX`.
pub struct CreateGeoIndex {
    pub name: String,
    pub table: String,
    pub path: String,
    pub if_not_exists: bool,
}

/// `CREATE USER`.
pub struct CreateUser {
    pub name: String,
    pub password: Option<String>,
    pub verifier: Option<String>,
    pub gssapi: bool,
    pub if_not_exists: bool,
}

/// `INSERT`: the columns, and the expressions of each row.
pub struct Insert {
    pub table: String,
    pub columns: Vec<String>,
    pub rows: Vec<Vec<Expr>>,
}

/// `UPDATE`: the paths to set and what to set them to.
pub struct Update {
    pub table: String,
    pub assignments: Vec<(String, Expr)>,
    pub filter: Option<Expr>,
}

/// `DELETE`.
pub struct Delete {
    pub table: String,
    pub filter: Option<Expr>,
}

#[allow(inconsistent_fields)]
pub enum Statement {
    CreateTable(CreateTable),
    CreateTimeseriesTable(CreateTimeseries),
    CreateRollup(CreateRollup),
    DropTable { name: String, if_exists: bool },
    CreateIndex(CreateIndex),
    DropIndex { name: String, if_exists: bool },
    CreateVectorIndex(CreateVectorIndex),
    DropVectorIndex { name: String, if_exists: bool },
    CreateGeoIndex(CreateGeoIndex),
    DropGeoIndex { name: String, if_exists: bool },
    CreateSearchIndex(CreateSearchIndex),
    DropSearchIndex { name: String, if_exists: bool },
    RebuildSearchIndex { name: String },
    AlterSearchIndex { name: String, options: Vec<(String, String)> },
    AlterVectorIndex { name: String, options: Vec<(String, String)> },
    AlterTable { name: String, action: AlterAction },
    CreateUser(CreateUser),
    AlterUser { name: String, password: String },
    DropUser { name: String, if_exists: bool },
    /// `CREATE ROLE`, with the encoded state of a replicated one.
    CreateRole { name: String, if_not_exists: bool, state: Option<String> },
    DropRole { name: String, if_exists: bool },
    Grant { privilege: String, object: GrantObject, to: String },
    Revoke { privilege: String, object: GrantObject, from: String },
    GrantRole { role: String, to: String },
    RevokeRole { role: String, from: String },
    Backup { path: String },
    Restore { path: String },
    Suggest { text: String, index: String, column: Option<String>, limit: u64 },
    ExplainScore { select: Select, key: Value },
    Explain { statement: Box<Statement> },
    Begin,
    Commit,
    Rollback,
    ShowTables,
    ShowIndexes,
    ShowStatus,
    ShowGrants { role: Option<String> },
    ShowDatabases,
    Describe { table: String, full: bool, sample: Option<u64>, exact: bool },
    CreateDatabase { name: String, if_not_exists: bool },
    DropDatabase { name: String, if_exists: bool },
    UseDatabase { name: String },
    Insert(Insert),
    Select(Select),
    Update(Update),
    Delete(Delete),
}

} // verus!
