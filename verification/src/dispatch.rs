//! Dispatch: who executes a statement, on which path, and what is owed when it
//! is done.

use vstd::prelude::*;

use crate::auth::create_role_step;
use crate::auth::create_user_step;
use crate::auth::drop_role_step;
use crate::auth::drop_user_step;
use crate::auth::grant_object_key;
use crate::auth::grant_step;
use crate::auth::object_key;
use crate::auth::revoke_step;
use crate::auth::role_edge_step;
use crate::catalog::opt_view;
use crate::catalog::option_views;
use crate::catalog::AuthRoleDef;
use crate::catalog::CatalogView;
use crate::catalog::RoleView;
use crate::catalog::SearchIndexDef;
use crate::catalog::TsTableView;
use crate::database::verdict;
use crate::database::Database;
use crate::database::DbView;
use crate::database::DdlOutcome;
use crate::ddl_database::create_database_step;
use crate::ddl_database::drop_database_step;
use crate::ddl_database::reports_database_drop;
use crate::ddl_database::DropStamps;
use crate::ddl_database::StampsView;
use crate::ddl_database::DatabaseDrop;
use crate::ddl_index::create_geo_index_step;
use crate::ddl_index::create_index_step;
use crate::ddl_index::drop_geo_index_step;
use crate::ddl_index::drop_index_step;
use crate::ddl_search::alter_search_index_step;
use crate::ddl_search::search_index_created;
use crate::ddl_search::drop_search_index_step;
use crate::ddl_table::create_rollup_step;
use crate::ddl_table::create_table_step;
use crate::ddl_table::create_timeseries_step;
use crate::ddl_table::drop_table_step;
use crate::ddl_table::known_database;
use crate::ddl_table::reports_drop;
use crate::ddl_table::DropReport;
use crate::ddl_vector::alter_vector_index_step;
use crate::ddl_vector::create_vector_index_step;
use crate::ddl_vector::drop_vector_index_step;
use crate::ddl_vector::VectorFacts;
use crate::error::type_error;
use crate::error::unsupported;
use crate::error::EngineError;
use crate::error::ErrorView;
use crate::hlc::Hlc;
use crate::rename::alter_step;
use crate::rename::names_defined_on;
use crate::search::filter_search_query;
use crate::search::select_uses_search;
use crate::search::uses_search;
use crate::search::SearchQuery;
use crate::select_plan::route_select;
use crate::select_plan::select_route;
use crate::select_plan::SelectRoute;
use crate::sorted_map::SortedMap;
use crate::statement::Statement;
use crate::text::views;

verus! {

/// Whether a statement only reads, so that it can run with shared access.
pub open spec fn read_only(stmt: Statement) -> bool {
    stmt is Select || stmt is Suggest || stmt is ExplainScore || stmt is Explain || stmt is Describe
        || stmt is ShowTables || stmt is ShowIndexes || stmt is ShowStatus || stmt is ShowGrants
        || stmt is ShowDatabases
}

/// Whether a statement only reads. Data changes, schema changes and
/// transaction control do not.
pub fn statement_is_read_only(stmt: &Statement) -> (r: bool)
    ensures
        r == read_only(*stmt),
{
    match stmt {
        Statement::Select(_) => true,
        Statement::Suggest { .. } => true,
        Statement::ExplainScore { .. } => true,
        Statement::Explain { .. } => true,
        Statement::Describe { .. } => true,
        Statement::ShowTables => true,
        Statement::ShowIndexes => true,
        Statement::ShowStatus => true,
        Statement::ShowGrants { .. } => true,
        Statement::ShowDatabases => true,
        _ => false,
    }
}

/// Whether a statement changes the schema, the users or the roles in one step
/// of the catalog.
pub open spec fn changes_schema(stmt: Statement) -> bool {
    stmt is CreateTable || stmt is CreateTimeseriesTable || stmt is CreateRollup || stmt
        is DropTable || stmt is CreateIndex || stmt is DropIndex || stmt is CreateVectorIndex
        || stmt is DropVectorIndex || stmt is CreateGeoIndex || stmt is DropGeoIndex || stmt
        is CreateSearchIndex || stmt is DropSearchIndex || stmt is AlterSearchIndex || stmt
        is AlterVectorIndex || stmt is CreateUser || stmt is AlterUser || stmt is DropUser || stmt
        is CreateRole || stmt is DropRole || stmt is Grant || stmt is Revoke || stmt is GrantRole
        || stmt is RevokeRole
}

/// Who executes a statement of one database.
#[derive(Clone, Copy, Debug, PartialEq, Eq, Structural)]
pub enum Handler {
    /// One step of the catalog.
    Schema,
    AlterTable,
    RebuildSearchIndex,
    Backup,
    Restore,
    Suggest,
    ExplainScore,
    Explain,
    Begin,
    Commit,
    Rollback,
    ShowTables,
    ShowIndexes,
    ShowStatus,
    ShowGrants,
    Describe,
    /// Rows: the data plane, whose applied writes become durable whether or
    /// not the statement finishes cleanly.
    Data,
}

/// The error of a statement that spans databases.
pub open spec fn session_error() -> ErrorView {
    ErrorView::Unsupported("database statements require a multi-database session"@)
}

/// Who executes a statement with exclusive access.
pub open spec fn handler(stmt: Statement) -> Result<Handler, ErrorView> {
    if changes_schema(stmt) {
        Ok(Handler::Schema)
    } else {
        match stmt {
            Statement::AlterTable { .. } => Ok(Handler::AlterTable),
            Statement::RebuildSearchIndex { .. } => Ok(Handler::RebuildSearchIndex),
            Statement::Backup { .. } => Ok(Handler::Backup),
            Statement::Restore { .. } => Ok(Handler::Restore),
            Statement::Suggest { .. } => Ok(Handler::Suggest),
            Statement::ExplainScore { .. } => Ok(Handler::ExplainScore),
            Statement::Explain { .. } => Ok(Handler::Explain),
            Statement::Begin => Ok(Handler::Begin),
            Statement::Commit => Ok(Handler::Commit),
            Statement::Rollback => Ok(Handler::Rollback),
            Statement::ShowTables => Ok(Handler::ShowTables),
            Statement::ShowIndexes => Ok(Handler::ShowIndexes),
            Statement::ShowStatus => Ok(Handler::ShowStatus),
            Statement::ShowGrants { .. } => Ok(Handler::ShowGrants),
            Statement::Describe { .. } => Ok(Handler::Describe),
            Statement::ShowDatabases => Err(session_error()),
            Statement::CreateDatabase { .. } => Err(session_error()),
            Statement::DropDatabase { .. } => Err(session_error()),
            Statement::UseDatabase { .. } => Err(session_error()),
            _ => Ok(Handler::Data),
        }
    }
}

/// Who executes a statement with exclusive access. Statements that span
/// databases are the session's, not the engine's.
pub fn route_statement(stmt: &Statement) -> (r: Result<Handler, EngineError>)
    ensures
        verdict(r) == handler(*stmt),
{
    match stmt {
        Statement::AlterTable { .. } => Ok(Handler::AlterTable),
        Statement::RebuildSearchIndex { .. } => Ok(Handler::RebuildSearchIndex),
        Statement::Backup { .. } => Ok(Handler::Backup),
        Statement::Restore { .. } => Ok(Handler::Restore),
        Statement::Suggest { .. } => Ok(Handler::Suggest),
        Statement::ExplainScore { .. } => Ok(Handler::ExplainScore),
        Statement::Explain { .. } => Ok(Handler::Explain),
        Statement::Begin => Ok(Handler::Begin),
        Statement::Commit => Ok(Handler::Commit),
        Statement::Rollback => Ok(Handler::Rollback),
        Statement::ShowTables => Ok(Handler::ShowTables),
        Statement::ShowIndexes => Ok(Handler::ShowIndexes),
        Statement::ShowStatus => Ok(Handler::ShowStatus),
        Statement::ShowGrants { .. } => Ok(Handler::ShowGrants),
        Statement::Describe { .. } => Ok(Handler::Describe),
        Statement::ShowDatabases => Err(needs_session()),
        Statement::CreateDatabase { .. } => Err(needs_session()),
        Statement::DropDatabase { .. } => Err(needs_session()),
        Statement::UseDatabase { .. } => Err(needs_session()),
        Statement::Insert(_) => Ok(Handler::Data),
        Statement::Select(_) => Ok(Handler::Data),
        Statement::Update(_) => Ok(Handler::Data),
        Statement::Delete(_) => Ok(Handler::Data),
        _ => Ok(Handler::Schema),
    }
}

fn needs_session() -> (r: EngineError)
    ensures
        r@ == session_error(),
{
    unsupported("database statements require a multi-database session")
}

/// Who executes a statement with shared access.
#[derive(Clone, Copy, Debug, PartialEq, Eq, Structural)]
pub enum ReadHandler {
    SearchSelect,
    Select,
    Suggest,
    ExplainScore,
    Explain,
    ShowTables,
    ShowIndexes,
    ShowStatus,
    ShowGrants,
    Describe,
}

/// The error of a statement that needs exclusive access.
pub open spec fn exclusive_error() -> ErrorView {
    ErrorView::Unsupported("statement is not read-only; use the exclusive execution path"@)
}

fn needs_exclusive() -> (r: EngineError)
    ensures
        r@ == exclusive_error(),
{
    unsupported("statement is not read-only; use the exclusive execution path")
}

/// Who executes a statement with shared access, or why it is refused.
pub open spec fn read_handler(stmt: Statement) -> Result<ReadHandler, ErrorView> {
    match stmt {
        Statement::Select(sel) => Ok(
            if uses_search(sel) {
                ReadHandler::SearchSelect
            } else {
                ReadHandler::Select
            },
        ),
        Statement::Suggest { .. } => Ok(ReadHandler::Suggest),
        Statement::ExplainScore { .. } => Ok(ReadHandler::ExplainScore),
        Statement::Explain { .. } => Ok(ReadHandler::Explain),
        Statement::ShowTables => Ok(ReadHandler::ShowTables),
        Statement::ShowIndexes => Ok(ReadHandler::ShowIndexes),
        Statement::ShowStatus => Ok(ReadHandler::ShowStatus),
        Statement::ShowGrants { .. } => Ok(ReadHandler::ShowGrants),
        Statement::Describe { .. } => Ok(ReadHandler::Describe),
        Statement::ShowDatabases => Err(session_error()),
        _ => Err(exclusive_error()),
    }
}

/// Who executes a statement with shared access. One that is not read-only is
/// refused.
pub fn route_read_statement(stmt: &Statement) -> (r: Result<ReadHandler, EngineError>)
    ensures
        verdict(r) == read_handler(*stmt),
{
    match stmt {
        Statement::Select(sel) => if select_uses_search(sel) {
            Ok(ReadHandler::SearchSelect)
        } else {
            Ok(ReadHandler::Select)
        },
        Statement::Suggest { .. } => Ok(ReadHandler::Suggest),
        Statement::ExplainScore { .. } => Ok(ReadHandler::ExplainScore),
        Statement::Explain { .. } => Ok(ReadHandler::Explain),
        Statement::ShowTables => Ok(ReadHandler::ShowTables),
        Statement::ShowIndexes => Ok(ReadHandler::ShowIndexes),
        Statement::ShowStatus => Ok(ReadHandler::ShowStatus),
        Statement::ShowGrants { .. } => Ok(ReadHandler::ShowGrants),
        Statement::Describe { .. } => Ok(ReadHandler::Describe),
        Statement::ShowDatabases => Err(needs_session()),
        _ => Err(needs_exclusive()),
    }
}

/// The executor of a data statement.
#[derive(Clone, Copy, Debug, PartialEq, Eq, Structural)]
pub enum DataHandler {
    Insert,
    Select(SelectRoute),
    Update,
    Delete,
}

/// The executor of a data statement, or why it is refused.
pub open spec fn data_handler(stmt: Statement) -> Result<DataHandler, ErrorView> {
    match stmt {
        Statement::Insert(_) => Ok(DataHandler::Insert),
        Statement::Select(sel) => match select_route(sel) {
            Ok(r) => Ok(DataHandler::Select(r)),
            Err(e) => Err(e),
        },
        Statement::Update(_) => Ok(DataHandler::Update),
        Statement::Delete(_) => Ok(DataHandler::Delete),
        _ => Err(
            ErrorView::Unsupported("non-data statement reached the data-plane executor"@),
        ),
    }
}

/// The executor of a data statement.
pub fn route_data(stmt: &Statement) -> (r: Result<DataHandler, EngineError>)
    ensures
        verdict(r) == data_handler(*stmt),
{
    match stmt {
        Statement::Insert(_) => Ok(DataHandler::Insert),
        Statement::Select(sel) => match route_select(sel) {
            Ok(x) => Ok(DataHandler::Select(x)),
            Err(e) => Err(e),
        },
        Statement::Update(_) => Ok(DataHandler::Update),
        Statement::Delete(_) => Ok(DataHandler::Delete),
        _ => Err(unsupported("non-data statement reached the data-plane executor")),
    }
}

/// Who executes a statement of a session.
#[derive(Clone, Copy, Debug, PartialEq, Eq, Structural)]
pub enum SessionHandler {
    CreateDatabase,
    DropDatabase,
    ShowDatabases,
    UseDatabase,
    /// The tables of the current database.
    ShowTablesIn,
    /// The indexes of the current database.
    ShowIndexesIn,
    /// The engine, with names resolved against the current database.
    Engine,
}

/// Who executes a statement of a session.
pub fn route_session(stmt: &Statement) -> (r: SessionHandler)
    ensures
        r == (match *stmt {
            Statement::CreateDatabase { .. } => SessionHandler::CreateDatabase,
            Statement::DropDatabase { .. } => SessionHandler::DropDatabase,
            Statement::ShowDatabases => SessionHandler::ShowDatabases,
            Statement::UseDatabase { .. } => SessionHandler::UseDatabase,
            Statement::ShowTables => SessionHandler::ShowTablesIn,
            Statement::ShowIndexes => SessionHandler::ShowIndexesIn,
            _ => SessionHandler::Engine,
        }),
{
    match stmt {
        Statement::CreateDatabase { .. } => SessionHandler::CreateDatabase,
        Statement::DropDatabase { .. } => SessionHandler::DropDatabase,
        Statement::ShowDatabases => SessionHandler::ShowDatabases,
        Statement::UseDatabase { .. } => SessionHandler::UseDatabase,
        Statement::ShowTables => SessionHandler::ShowTablesIn,
        Statement::ShowIndexes => SessionHandler::ShowIndexesIn,
        _ => SessionHandler::Engine,
    }
}

/// Who executes a session's statement with shared access.
#[derive(Clone, Copy, Debug, PartialEq, Eq, Structural)]
pub enum SessionReadHandler {
    ShowDatabases,
    ShowTablesIn,
    ShowIndexesIn,
    ShowStatus,
    ShowGrants,
    /// The engine's shared path, with names resolved.
    Engine,
}

/// Who executes a session's statement with shared access, or why it is
/// refused.
pub open spec fn session_read_handler(stmt: Statement) -> Result<SessionReadHandler, ErrorView> {
    match stmt {
        Statement::ShowDatabases => Ok(SessionReadHandler::ShowDatabases),
        Statement::ShowTables => Ok(SessionReadHandler::ShowTablesIn),
        Statement::ShowIndexes => Ok(SessionReadHandler::ShowIndexesIn),
        Statement::ShowStatus => Ok(SessionReadHandler::ShowStatus),
        Statement::ShowGrants { .. } => Ok(SessionReadHandler::ShowGrants),
        Statement::Select(_) => Ok(SessionReadHandler::Engine),
        Statement::Suggest { .. } => Ok(SessionReadHandler::Engine),
        Statement::ExplainScore { .. } => Ok(SessionReadHandler::Engine),
        Statement::Describe { .. } => Ok(SessionReadHandler::Engine),
        Statement::Explain { .. } => Ok(SessionReadHandler::Engine),
        _ => Err(exclusive_error()),
    }
}

/// Who executes a session's statement with shared access.
pub fn route_session_read(stmt: &Statement) -> (r: Result<SessionReadHandler, EngineError>)
    ensures
        verdict(r) == session_read_handler(*stmt),
{
    match stmt {
        Statement::ShowDatabases => Ok(SessionReadHandler::ShowDatabases),
        Statement::ShowTables => Ok(SessionReadHandler::ShowTablesIn),
        Statement::ShowIndexes => Ok(SessionReadHandler::ShowIndexesIn),
        Statement::ShowStatus => Ok(SessionReadHandler::ShowStatus),
        Statement::ShowGrants { .. } => Ok(SessionReadHandler::ShowGrants),
        Statement::Select(_) => Ok(SessionReadHandler::Engine),
        Statement::Suggest { .. } => Ok(SessionReadHandler::Engine),
        Statement::ExplainScore { .. } => Ok(SessionReadHandler::Engine),
        Statement::Describe { .. } => Ok(SessionReadHandler::Engine),
        Statement::Explain { .. } => Ok(SessionReadHandler::Engine),
        _ => Err(needs_exclusive()),
    }
}

/// A session's shared path takes exactly the read-only statements, and the
/// engine's takes them all but `SHOW DATABASES`, which spans databases. A
/// statement that either takes never changes the catalog.
pub proof fn shared_paths_take_the_read_only_statements(stmt: Statement)
    ensures
        session_read_handler(stmt) is Ok <==> read_only(stmt),
        read_handler(stmt) is Ok <==> read_only(stmt) && !(stmt is ShowDatabases),
        read_only(stmt) ==> !changes_schema(stmt),
{
}

/// Every statement but those that span databases has an executor, and the
/// data plane is handed data statements only.
pub proof fn data_plane_gets_data_statements(stmt: Statement)
    ensures
        handler(stmt) is Err <==> stmt is ShowDatabases || stmt is CreateDatabase || stmt
            is DropDatabase || stmt is UseDatabase,
        handler(stmt) == Ok::<Handler, ErrorView>(Handler::Data) <==> stmt is Insert || stmt
            is Select || stmt is Update || stmt is Delete,
{
}

/// The query of an `EXPLAIN SCORE`'s predicate; an error where it has none.
pub open spec fn score_query(filter: Option<crate::ast::Expr>, exclusive: bool) -> Result<
    crate::search::QueryView,
    ErrorView,
> {
    match crate::search::split_filter(filter) {
        Err(e) => Err(e),
        Ok(s) => match crate::search::combined(s.queries) {
            Some(q) => Ok(q),
            None => Err(
                ErrorView::Type(
                    if exclusive {
                        "score explain needs a MATCH()/SEARCH() predicate"@
                    } else {
                        "EXPLAIN SCORE needs a MATCH()/SEARCH() predicate in the WHERE"@
                    },
                ),
            ),
        },
    }
}

/// The query of an `EXPLAIN SCORE`'s predicate.
pub fn explain_score_query(filter: &Option<crate::ast::Expr>, exclusive: bool) -> (r: Result<
    SearchQuery,
    EngineError,
>)
    ensures
        match score_query(*filter, exclusive) {
            Ok(q) => r matches Ok(x) && crate::search::query_view(x) == q,
            Err(e) => r matches Err(x) && x@ == e,
        },
{
    match filter_search_query(filter) {
        Err(e) => Err(e),
        Ok(Some(q)) => Ok(q),
        Ok(None) => Err(
            type_error(
                if exclusive {
                    "score explain needs a MATCH()/SEARCH() predicate"
                } else {
                    "EXPLAIN SCORE needs a MATCH()/SEARCH() predicate in the WHERE"
                },
            ),
        ),
    }
}

/// What a schema statement has to ask outside the catalog.
pub struct SchemaFacts {
    /// Of a vector index that is created.
    pub vector: VectorFacts,
    /// How the work on a search index's data, or the check of its declaration,
    /// came out.
    pub search: Result<(), EngineError>,
    /// The stored form of a user's password.
    pub credential: Option<String>,
    /// Whether a user's verifier is well formed.
    pub verifier_ok: bool,
    /// The decoded state of a replicated role.
    pub role: Option<Result<AuthRoleDef, EngineError>>,
    /// Whether a privilege's name is a known one.
    pub privilege_known: bool,
}

/// A replicated role's state by what it holds.
pub open spec fn role_fact(role: Option<Result<AuthRoleDef, EngineError>>) -> Option<
    Result<RoleView, ErrorView>,
> {
    match role {
        None => None,
        Some(Ok(d)) => Some(Ok(d@)),
        Some(Err(e)) => Some(Err(e@)),
    }
}

/// A step of the catalog alone as a step of the database.
pub open spec fn in_db(v: DbView, s: (Result<DdlOutcome, ErrorView>, CatalogView)) -> (
    Result<DdlOutcome, ErrorView>,
    DbView,
) {
    (s.0, DbView { cat: s.1, ..v })
}

/// What a schema statement stamped `hlc` does.
pub open spec fn schema_step(v: DbView, stmt: Statement, f: SchemaFacts, hlc: Hlc) -> (
    Result<DdlOutcome, ErrorView>,
    DbView,
) {
    match stmt {
        Statement::CreateTable(ct) => in_db(v, create_table_step(v.cat, ct, hlc)),
        Statement::CreateTimeseriesTable(ct) => in_db(
            v,
            create_timeseries_step(
                v.cat,
                ct.name@,
                TsTableView {
                    series_key: views(ct.series_key@),
                    retention_ms: ct.retention_ms,
                    ooo_window_ms: match ct.ooo_ms {
                        Some(ms) => ms,
                        None => 0,
                    },
                    rollups: Seq::empty(),
                    rollup_of: None,
                },
                ct.if_not_exists,
                hlc,
            ),
        ),
        Statement::CreateRollup(cr) => in_db(
            v,
            create_rollup_step(
                v.cat,
                cr.name@,
                cr.table@,
                cr.bucket_ms,
                cr.retention_ms,
                cr.if_not_exists,
                hlc,
            ),
        ),
        Statement::DropTable { name, if_exists } => drop_table_step(v, name@, if_exists, hlc),
        Statement::CreateIndex(ci) => create_index_step(
            v,
            ci.name@,
            ci.table@,
            views(ci.paths@),
            ci.if_not_exists,
            ci.global,
            ci.ready,
            hlc,
        ),
        Statement::DropIndex { name, if_exists } => in_db(
            v,
            drop_index_step(v.cat, name@, if_exists, hlc),
        ),
        Statement::CreateVectorIndex(ci) => create_vector_index_step(v, ci, f.vector, hlc),
        Statement::DropVectorIndex { name, if_exists } => drop_vector_index_step(
            v,
            name@,
            if_exists,
            hlc,
        ),
        Statement::CreateGeoIndex(ci) => create_geo_index_step(
            v,
            ci.name@,
            ci.table@,
            ci.path@,
            ci.if_not_exists,
            hlc,
        ),
        Statement::DropGeoIndex { name, if_exists } => drop_geo_index_step(v, name@, if_exists, hlc),
        Statement::CreateSearchIndex(ci) => search_index_created(v, ci, verdict(f.search), hlc),
        Statement::DropSearchIndex { name, if_exists } => in_db(
            v,
            drop_search_index_step(v.cat, name@, if_exists, hlc),
        ),
        Statement::AlterSearchIndex { name, options } => in_db(
            v,
            alter_search_index_step(
                v.cat,
                name@,
                option_views(options@),
                verdict(f.search),
                hlc,
            ),
        ),
        Statement::AlterVectorIndex { name, options } => in_db(
            v,
            alter_vector_index_step(v.cat, name@, option_views(options@), hlc),
        ),
        Statement::CreateUser(cu) => in_db(
            v,
            create_user_step(
                v.cat,
                cu.name@,
                opt_view(f.credential),
                match cu.verifier {
                    Some(t) => Some((t@, f.verifier_ok)),
                    None => None,
                },
                cu.gssapi,
                cu.if_not_exists,
                false,
                hlc,
            ),
        ),
        Statement::AlterUser { name, .. } => in_db(
            v,
            create_user_step(
                v.cat,
                name@,
                opt_view(f.credential),
                None,
                false,
                false,
                true,
                hlc,
            ),
        ),
        Statement::DropUser { name, if_exists } => in_db(
            v,
            drop_user_step(v.cat, name@, if_exists, hlc),
        ),
        Statement::CreateRole { name, if_not_exists, .. } => in_db(
            v,
            create_role_step(v.cat, name@, role_fact(f.role), if_not_exists, hlc),
        ),
        Statement::DropRole { name, if_exists } => in_db(
            v,
            drop_role_step(v.cat, name@, if_exists, hlc),
        ),
        Statement::Grant { privilege, object, to } => in_db(
            v,
            grant_step(v.cat, to@, privilege@, f.privilege_known, object_key(object), hlc),
        ),
        Statement::Revoke { privilege, object, from } => in_db(
            v,
            revoke_step(v.cat, from@, privilege@, object_key(object), hlc),
        ),
        Statement::GrantRole { role, to } => in_db(
            v,
            role_edge_step(v.cat, to@, role@, true, hlc),
        ),
        Statement::RevokeRole { role, from } => in_db(
            v,
            role_edge_step(v.cat, from@, role@, false, hlc),
        ),
        _ => (Ok(DdlOutcome::Unchanged), v),
    }
}

/// What a schema statement did, and what a dropped table took with it.
pub struct SchemaDone {
    pub outcome: DdlOutcome,
    pub dropped: Option<DropReport>,
}

fn done(r: Result<DdlOutcome, EngineError>) -> (out: Result<SchemaDone, EngineError>)
    ensures
        match r {
            Ok(o) => out matches Ok(d) && d.outcome == o && d.dropped is None,
            Err(e) => out == Err::<SchemaDone, EngineError>(e),
        },
{
    match r {
        Ok(outcome) => Ok(SchemaDone { outcome, dropped: None }),
        Err(e) => Err(e),
    }
}

/// What became of a statement.
pub enum Executed {
    /// The catalog took it.
    Schema(SchemaDone),
    /// A table was altered: these search indexes are to be built anew.
    Altered(Vec<String>),
    /// The catalog has no part in it, or only reads: this one is to execute
    /// it.
    Handed(Handler),
}

/// What a session's statement came to.
pub enum SessionEffect {
    /// A database was created, or was there.
    Created(DdlOutcome),
    /// A database went, with what it held.
    Dropped(DatabaseDrop),
    /// The session goes on in this database.
    UseDatabase(String),
    /// A listing of the current database, or of all.
    Show(SessionHandler),
    /// What the engine made of it, and the index builds that are due.
    Engine(Executed, DueBackfills),
}

/// What the database is after a statement of one database.
pub open spec fn after_statement(v: DbView, stmt: Statement, f: SchemaFacts, hlc: Hlc) -> DbView {
    match handler(stmt) {
        Ok(Handler::Schema) => schema_step(v, stmt, f, hlc).1,
        Ok(Handler::AlterTable) => alter_step(
            v,
            stmt->AlterTable_name@,
            stmt->AlterTable_action,
        ).1,
        _ => v,
    }
}

/// Whether this is what became of a statement of one database.
pub open spec fn executed_is(
    v: DbView,
    stmt: Statement,
    f: SchemaFacts,
    hlc: Hlc,
    r: Result<Executed, EngineError>,
) -> bool {
    match handler(stmt) {
        Err(e) => r matches Err(x) && x@ == e,
        Ok(Handler::Schema) => match r {
            Ok(done) => done matches Executed::Schema(d) && schema_step(v, stmt, f, hlc).0 == Ok::<
                DdlOutcome,
                ErrorView,
            >(d.outcome) && (stmt matches Statement::DropTable { name, .. } ==> (
            d.dropped matches Some(rep) && reports_drop(rep, v.cat, name@))),
            Err(e) => schema_step(v, stmt, f, hlc).0 == Err::<DdlOutcome, ErrorView>(e@),
        },
        Ok(Handler::AlterTable) => {
            let name = stmt->AlterTable_name@;
            let action = stmt->AlterTable_action;
            match r {
                Ok(done) => done matches Executed::Altered(anew) && alter_step(v, name, action).0
                    is Ok && views(anew@) == (if action is RenameColumn {
                    names_defined_on::<SearchIndexDef>(
                        alter_step(v, name, action).1.cat.search_indexes,
                        name,
                    )
                } else {
                    Seq::empty()
                }),
                Err(e) => alter_step(v, name, action).0 == Err::<(), ErrorView>(e@),
            }
        },
        Ok(h) => r matches Ok(done) && done == Executed::Handed(h),
    }
}

/// Whether these are the index builds that a database owes: none where they
/// are deferred.
pub open spec fn builds_due(v: DbView, defer: bool, due: DueBackfills) -> bool {
    if defer {
        due.indexes@.len() == 0 && due.vectors@.len() == 0 && due.geos@.len() == 0
    } else {
        views(due.indexes@) == v.pending_backfills && views(due.vectors@)
            == v.pending_vector_backfills && views(due.geos@) == v.pending_geo_backfills
    }
}

/// A database whose owed index builds were handed out, unless they are
/// deferred.
pub open spec fn builds_taken(v: DbView, defer: bool) -> DbView {
    if defer {
        v
    } else {
        DbView {
            pending_backfills: Seq::empty(),
            pending_vector_backfills: Seq::empty(),
            pending_geo_backfills: Seq::empty(),
            ..v
        }
    }
}

impl Database {
    /// Executes a statement that changes the schema, the users or the roles.
    pub fn execute_schema(&mut self, stmt: Statement, facts: SchemaFacts, hlc: Hlc) -> (r: Result<
        SchemaDone,
        EngineError,
    >)
        requires
            old(self).wf(),
            changes_schema(stmt),
        ensures
            final(self).wf(),
            final(self)@ == schema_step(old(self)@, stmt, facts, hlc).1,
            match r {
                Ok(d) => schema_step(old(self)@, stmt, facts, hlc).0 == Ok::<DdlOutcome, ErrorView>(
                    d.outcome,
                ),
                Err(e) => schema_step(old(self)@, stmt, facts, hlc).0 == Err::<
                    DdlOutcome,
                    ErrorView,
                >(e@),
            },
            stmt matches Statement::DropTable { name, .. } ==> (r matches Ok(d) ==> (
            d.dropped matches Some(rep) && reports_drop(rep, old(self)@.cat, name@))),
    {
        match stmt {
            Statement::CreateTable(ct) => done(self.create_table(ct, hlc)),
            Statement::CreateTimeseriesTable(ct) => {
                let ooo: i64 = match ct.ooo_ms {
                    Some(ms) => ms,
                    None => 0,
                };
                done(
                    self.create_timeseries_table(
                        ct.name.as_str(),
                        ct.series_key,
                        ct.retention_ms,
                        ooo,
                        ct.if_not_exists,
                        hlc,
                    ),
                )
            },
            Statement::CreateRollup(cr) => done(
                self.create_rollup(
                    cr.name.as_str(),
                    cr.table.as_str(),
                    cr.bucket_ms,
                    cr.retention_ms,
                    cr.if_not_exists,
                    hlc,
                ),
            ),
            Statement::DropTable { name, if_exists } => match self.drop_table(
                name.as_str(),
                if_exists,
                hlc,
            ) {
                Ok(d) => Ok(SchemaDone { outcome: d.outcome, dropped: Some(d) }),
                Err(e) => Err(e),
            },
            Statement::CreateIndex(ci) => done(
                self.create_index(
                    ci.name.as_str(),
                    ci.table.as_str(),
                    ci.paths,
                    ci.if_not_exists,
                    ci.global,
                    ci.ready,
                    hlc,
                ),
            ),
            Statement::DropIndex { name, if_exists } => done(
                self.drop_index(name.as_str(), if_exists, hlc),
            ),
            Statement::CreateVectorIndex(ci) => done(
                self.create_vector_index(ci, facts.vector, hlc),
            ),
            Statement::DropVectorIndex { name, if_exists } => done(
                self.drop_vector_index(name.as_str(), if_exists, hlc),
            ),
            Statement::CreateGeoIndex(ci) => done(
                self.create_geo_index(
                    ci.name.as_str(),
                    ci.table.as_str(),
                    ci.path.as_str(),
                    ci.if_not_exists,
                    hlc,
                ),
            ),
            Statement::DropGeoIndex { name, if_exists } => done(
                self.drop_geo_index(name.as_str(), if_exists, hlc),
            ),
            Statement::CreateSearchIndex(ci) => done(
                self.create_search_index(ci, facts.search, hlc),
            ),
            Statement::DropSearchIndex { name, if_exists } => done(
                self.drop_search_index(name.as_str(), if_exists, hlc),
            ),
            Statement::AlterSearchIndex { name, options } => done(
                self.alter_search_index(name.as_str(), &options, facts.search, hlc),
            ),
            Statement::AlterVectorIndex { name, options } => done(
                self.alter_vector_index(name.as_str(), &options, hlc),
            ),
            Statement::CreateUser(cu) => {
                let verifier = match cu.verifier {
                    Some(t) => Some((t, facts.verifier_ok)),
                    None => None,
                };
                done(
                    self.create_user(
                        cu.name.as_str(),
                        facts.credential,
                        verifier,
                        cu.gssapi,
                        cu.if_not_exists,
                        false,
                        hlc,
                    ),
                )
            },
            Statement::AlterUser { name, .. } => done(
                self.create_user(name.as_str(), facts.credential, None, false, false, true, hlc),
            ),
            Statement::DropUser { name, if_exists } => done(
                self.drop_user(name.as_str(), if_exists, hlc),
            ),
            Statement::CreateRole { name, if_not_exists, .. } => done(
                self.create_auth_role(name.as_str(), facts.role, if_not_exists, hlc),
            ),
            Statement::DropRole { name, if_exists } => done(
                self.drop_auth_role(name.as_str(), if_exists, hlc),
            ),
            Statement::Grant { privilege, object, to } => done(
                self.grant(
                    to.as_str(),
                    privilege.as_str(),
                    facts.privilege_known,
                    grant_object_key(&object),
                    hlc,
                ),
            ),
            Statement::Revoke { privilege, object, from } => done(
                self.revoke(from.as_str(), privilege.as_str(), grant_object_key(&object), hlc),
            ),
            Statement::GrantRole { role, to } => done(
                self.grant_role_edge(to.as_str(), role.as_str(), true, hlc),
            ),
            Statement::RevokeRole { role, from } => done(
                self.grant_role_edge(from.as_str(), role.as_str(), false, hlc),
            ),
            _ => Ok(SchemaDone { outcome: DdlOutcome::Unchanged, dropped: None }),
        }
    }

    /// Checks that a session can switch to a database.
    pub fn use_database(&self, name: &str) -> (r: Result<(), EngineError>)
        requires
            self.wf(),
        ensures
            verdict(r) == (if known_database(self@.cat, name@) {
                Ok::<(), ErrorView>(())
            } else {
                Err::<(), ErrorView>(ErrorView::DatabaseNotFound(name@))
            }),
    {
        if self.has_database(name) {
            Ok(())
        } else {
            Err(EngineError::DatabaseNotFound(name.to_owned()))
        }
    }

    /// Hands out the index builds that a finished statement owes, unless they
    /// are deferred to a background worker.
    pub fn due_backfills(&mut self, defer: bool) -> (r: DueBackfills)
        requires
            old(self).wf(),
        ensures
            final(self).wf(),
            final(self)@ == builds_taken(old(self)@, defer),
            builds_due(old(self)@, defer, r),
    {
        if defer {
            return DueBackfills { indexes: Vec::new(), vectors: Vec::new(), geos: Vec::new() };
        }
        let indexes = self.take_pending_backfills();
        let vectors = self.take_pending_vector_backfills();
        let geos = self.take_pending_geo_backfills();
        DueBackfills { indexes, vectors, geos }
    }

    /// Executes a statement of one database with exclusive access, as far as
    /// the catalog can: one that changes the schema is carried out, any other
    /// goes to its handler. One that spans databases is refused. The rows of a
    /// table whose column is renamed are rewritten by the caller.
    pub fn execute_statement_inner(&mut self, stmt: Statement, facts: SchemaFacts, hlc: Hlc) -> (r:
        Result<Executed, EngineError>)
        requires
            old(self).wf(),
        ensures
            final(self).wf(),
            final(self)@ == after_statement(old(self)@, stmt, facts, hlc),
            executed_is(old(self)@, stmt, facts, hlc, r),
    {
        if let Statement::AlterTable { name, action } = &stmt {
            return match self.alter_table(name.as_str(), action) {
                Err(e) => Err(e),
                Ok(anew) => Ok(Executed::Altered(anew)),
            };
        }
        match route_statement(&stmt) {
            Err(e) => Err(e),
            Ok(Handler::Schema) => match self.execute_schema(stmt, facts, hlc) {
                Err(e) => Err(e),
                Ok(done) => Ok(Executed::Schema(done)),
            },
            Ok(h) => Ok(Executed::Handed(h)),
        }
    }

    /// Executes a statement and hands out the index builds that it owes,
    /// unless they are deferred to a background worker: a statement on a
    /// single node returns with its indexes built.
    pub fn execute_statement(&mut self, stmt: Statement, facts: SchemaFacts, hlc: Hlc, defer: bool) -> (r:
        Result<(Executed, DueBackfills), EngineError>)
        requires
            old(self).wf(),
        ensures
            final(self).wf(),
            ({
                let after = after_statement(old(self)@, stmt, facts, hlc);
                match r {
                    Err(e) => executed_is(old(self)@, stmt, facts, hlc, Err(e)) && final(self)@
                        == after,
                    Ok((done, due)) => executed_is(old(self)@, stmt, facts, hlc, Ok(done))
                        && builds_due(after, defer, due) && final(self)@ == builds_taken(
                        after,
                        defer,
                    ),
                }
            }),
    {
        match self.execute_statement_inner(stmt, facts, hlc) {
            Err(e) => Err(e),
            Ok(done) => {
                let due = self.due_backfills(defer);
                Ok((done, due))
            },
        }
    }

    /// Executes a statement of a session, whose names have been resolved: a
    /// statement on databases here, any other by the engine. `name_ok` says
    /// whether a new database's name is well formed; `fresh` are the stamps of
    /// what a dropped database takes with it, none for a replicated statement.
    pub fn execute_session_statement(
        &mut self,
        stmt: Statement,
        facts: SchemaFacts,
        name_ok: bool,
        hlc: Hlc,
        fresh: Vec<Hlc>,
        defer: bool,
    ) -> (r: Result<SessionEffect, EngineError>)
        requires
            old(self).wf(),
        ensures
            final(self).wf(),
            match stmt {
                Statement::CreateDatabase { name, if_not_exists } => {
                    let step = create_database_step(
                        old(self)@.cat,
                        name@,
                        name_ok,
                        if_not_exists,
                        hlc,
                    );
                    &&& final(self)@ == (DbView { cat: step.1, ..old(self)@ })
                    &&& match r {
                        Ok(effect) => effect matches SessionEffect::Created(o) && step.0 == Ok::<
                            DdlOutcome,
                            ErrorView,
                        >(o),
                        Err(e) => step.0 == Err::<DdlOutcome, ErrorView>(e@),
                    }
                },
                Statement::DropDatabase { name, if_exists } => {
                    let step = drop_database_step(
                        old(self)@,
                        name@,
                        if_exists,
                        StampsView { own: hlc, fresh: fresh@ },
                    );
                    &&& final(self)@ == step.1
                    &&& match r {
                        Ok(effect) => effect matches SessionEffect::Dropped(d) && step.0 == Ok::<
                            DdlOutcome,
                            ErrorView,
                        >(d.outcome) && (d.outcome == DdlOutcome::Applied ==> reports_database_drop(
                            d,
                            old(self)@,
                            name@,
                            StampsView { own: hlc, fresh: fresh@ },
                        )),
                        Err(e) => step.0 == Err::<DdlOutcome, ErrorView>(e@),
                    }
                },
                Statement::UseDatabase { name } => final(self)@ == old(self)@ && if known_database(
                    old(self)@.cat,
                    name@,
                ) {
                    r matches Ok(effect) && effect == SessionEffect::UseDatabase(name)
                } else {
                    r matches Err(e) && e@ == ErrorView::DatabaseNotFound(name@)
                },
                Statement::ShowDatabases => final(self)@ == old(self)@ && (r matches Ok(effect)
                    && effect == SessionEffect::Show(SessionHandler::ShowDatabases)),
                Statement::ShowTables => final(self)@ == old(self)@ && (r matches Ok(effect)
                    && effect == SessionEffect::Show(SessionHandler::ShowTablesIn)),
                Statement::ShowIndexes => final(self)@ == old(self)@ && (r matches Ok(effect)
                    && effect == SessionEffect::Show(SessionHandler::ShowIndexesIn)),
                _ => {
                    let after = after_statement(old(self)@, stmt, facts, hlc);
                    match r {
                        Err(e) => executed_is(old(self)@, stmt, facts, hlc, Err(e)) && final(self)@
                            == after,
                        Ok(effect) => effect matches SessionEffect::Engine(done, due)
                            && executed_is(old(self)@, stmt, facts, hlc, Ok(done)) && builds_due(
                            after,
                            defer,
                            due,
                        ) && final(self)@ == builds_taken(after, defer),
                    }
                },
            },
    {
        match stmt {
            Statement::CreateDatabase { name, if_not_exists } => match self.create_database(
                name.as_str(),
                name_ok,
                if_not_exists,
                hlc,
            ) {
                Ok(outcome) => Ok(SessionEffect::Created(outcome)),
                Err(e) => Err(e),
            },
            Statement::DropDatabase { name, if_exists } => match self.drop_database(
                name.as_str(),
                if_exists,
                &DropStamps { own: hlc, fresh },
            ) {
                Ok(drop) => Ok(SessionEffect::Dropped(drop)),
                Err(e) => Err(e),
            },
            Statement::UseDatabase { name } => match self.use_database(name.as_str()) {
                Ok(()) => Ok(SessionEffect::UseDatabase(name)),
                Err(e) => Err(e),
            },
            Statement::ShowDatabases => Ok(SessionEffect::Show(SessionHandler::ShowDatabases)),
            Statement::ShowTables => Ok(SessionEffect::Show(SessionHandler::ShowTablesIn)),
            Statement::ShowIndexes => Ok(SessionEffect::Show(SessionHandler::ShowIndexesIn)),
            other => match self.execute_statement(other, facts, hlc, defer) {
                Ok((done, due)) => Ok(SessionEffect::Engine(done, due)),
                Err(e) => Err(e),
            },
        }
    }
}

/// The index builds that a statement owes, by name.
pub struct DueBackfills {
    pub indexes: Vec<String>,
    pub vectors: Vec<String>,
    pub geos: Vec<String>,
}

/// The write-ahead-log commits that a statement has to make durable: the
/// latest of each storage engine it wrote to. Between statements the set is
/// empty and nothing is deferred.
pub struct StatementSyncs<C> {
    /// While a statement's syncs are deferred to its caller: those so far.
    pub deferred: Option<Vec<C>>,
    pub pending: SortedMap<String, C>,
}

impl<C> StatementSyncs<C> {
    pub open spec fn wf(&self) -> bool {
        self.pending.wf()
    }

    /// Nothing to sync.
    pub fn new() -> (r: StatementSyncs<C>)
        ensures
            r.wf(),
            r.deferred is None,
            r.pending@ == Map::<Seq<char>, C>::empty(),
    {
        StatementSyncs { deferred: None, pending: SortedMap::new() }
    }

    /// Begins a statement whose syncs go to its caller.
    pub fn defer(&mut self)
        requires
            old(self).wf(),
        ensures
            final(self).wf(),
            final(self).pending == old(self).pending,
            final(self).deferred matches Some(d) && d@ == Seq::<C>::empty(),
    {
        self.deferred = Some(Vec::new());
    }

    /// Notes an engine's commit. Syncing it makes the engine's earlier ones
    /// durable too, so only the latest is kept.
    pub fn note(&mut self, engine: String, commit: C)
        requires
            old(self).wf(),
        ensures
            final(self).wf(),
            final(self).deferred == old(self).deferred,
            final(self).pending@ == old(self).pending@.insert(engine@, commit),
    {
        self.pending.insert(engine, commit);
    }

    /// Ends a statement, cleanly or not: hands out the commits to sync now, or
    /// sets them aside for the caller where they are deferred.
    pub fn flush(&mut self) -> (r: Vec<C>)
        requires
            old(self).wf(),
        ensures
            final(self).wf(),
            final(self).pending@ == Map::<Seq<char>, C>::empty(),
            match old(self).deferred {
                None => final(self).deferred is None && r@ == commits(old(self).pending.entries@),
                Some(d) => r@.len() == 0 && (final(self).deferred matches Some(e) && e@ == d@
                    + commits(old(self).pending.entries@)),
            },
    {
        let mut entries: Vec<(String, C)> = Vec::new();
        let ghost es = self.pending.entries@;
        entries.append(&mut self.pending.entries);
        proof {
            assert(entries@ =~= es);
        }
        let mut out = take_commits(entries);
        proof {
            assert(out@ =~= commits(es));
            assert(self.pending@ =~= Map::<Seq<char>, C>::empty());
        }
        match self.deferred.take() {
            None => out,
            Some(mut d) => {
                let ghost before = d@;
                d.append(&mut out);
                proof {
                    assert(d@ =~= before + commits(es));
                }
                self.deferred = Some(d);
                Vec::new()
            },
        }
    }

    /// Ends the deferral and hands the commits to the caller, who syncs them
    /// before it acknowledges the statement.
    pub fn take_deferred(&mut self) -> (r: Vec<C>)
        requires
            old(self).wf(),
        ensures
            final(self).wf(),
            final(self).deferred is None,
            final(self).pending == old(self).pending,
            match old(self).deferred {
                Some(d) => r == d,
                None => r@.len() == 0,
            },
    {
        match self.deferred.take() {
            Some(d) => d,
            None => Vec::new(),
        }
    }
}

/// The commits of noted engines, in the order of the engines' names.
pub open spec fn commits<C>(es: Seq<(String, C)>) -> Seq<C> {
    es.map_values(|e: (String, C)| e.1)
}

fn take_commits<C>(entries: Vec<(String, C)>) -> (r: Vec<C>)
    ensures
        r@ == commits(entries@),
{
    let ghost es = entries@;
    let mut out: Vec<C> = Vec::new();
    for entry in it: entries
        invariant
            it.seq() == es,
            out@ == commits(es).take(it.index() as int),
    {
        proof {
            assert(es[it.index() as int] == entry);
        }
        let (_name, c) = entry;
        out.push(c);
        proof {
            assert(out@ =~= commits(es).take(it.index() + 1));
        }
    }
    proof {
        assert(out@ =~= commits(es));
    }
    out
}

impl<C> StatementSyncs<C> {
    /// Ends a statement, cleanly or not, and its deferral: the commits to sync
    /// before returning, and those handed to the caller to sync. Each commit
    /// is in exactly one of the two, and no deferral outlives the statement.
    pub fn finish_statement(&mut self) -> (r: (Vec<C>, Vec<C>))
        requires
            old(self).wf(),
        ensures
            final(self).wf(),
            final(self).deferred is None,
            final(self).pending@ == Map::<Seq<char>, C>::empty(),
            match old(self).deferred {
                None => r.0@ == commits(old(self).pending.entries@) && r.1@.len() == 0,
                Some(d) => r.0@.len() == 0 && r.1@ == d@ + commits(old(self).pending.entries@),
            },
    {
        let now = self.flush();
        let later = self.take_deferred();
        (now, later)
    }
}

} // verus!
