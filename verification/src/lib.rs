//! The decision layer of an embeddable document database: catalog changes
//! under last-writer-wins replication, access-path planning, search and
//! grouped-query planning, transaction journaling, index maintenance and
//! recovery, each stated as a contract and proved.

pub mod text;
pub mod bytes;
pub mod hlc;
pub mod sorted_map;
pub mod error;
pub mod namespace;
pub mod gidx;
pub mod value;
pub mod ast;
pub mod projection;
pub mod journal;
pub mod txn;
pub mod catalog;
pub mod database;
pub mod ddl_table;
pub mod ddl_index;
pub mod ddl_vector;
pub mod ddl_search;
pub mod ddl_database;
pub mod schema_laws;
pub mod auth;
pub mod alter;
pub mod schema_sync;
pub mod constraints;
pub mod plan;
pub mod point_keys;
pub mod entry_range;
pub mod order;
pub mod access;
pub mod gather;
pub mod gather_laws;
pub mod search;
pub mod highlight;
pub mod select_plan;
pub mod search_plan;
pub mod paging;
pub mod statement;
pub mod dispatch;
pub mod explain;
pub mod maintenance;
pub mod recovery;
pub mod backfill;
pub mod embed_queue;
pub mod watermarks;
pub mod show;
pub mod describe;
pub mod stats;
pub mod lookup;
pub mod hits;
pub mod model;
pub mod execute;
pub mod results;
pub mod sort_laws;
pub mod select_laws;
pub mod compound_laws;
pub mod query_laws;
pub mod aggregate_laws;
pub mod join_laws;
pub mod group_laws;
pub mod writes;
pub mod row_laws;
pub mod cluster;
pub mod grouping;
pub mod aggregate;
pub mod join;
pub mod timeseries;
pub mod rename;
pub mod counting;
pub mod local;
pub mod executor;
pub mod search_exec;
pub mod search_reads;
pub mod vector_exec;
pub mod ranking_laws;
pub mod scan_laws;
pub mod filter_laws;
pub mod hit_laws;
pub mod walk_laws;
pub mod union_laws;
pub mod read_laws;
pub mod replay;
pub mod replay_laws;
pub mod settled_laws;
pub mod store_laws;
pub mod geo;
