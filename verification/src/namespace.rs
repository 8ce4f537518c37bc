//! Internal object names: `<database>␟<bare name>`, with the database left
//! out for objects of the default database.

use vstd::prelude::*;
use vstd::string::StringExecFns;

use crate::text::cat;
use crate::text::first_of;
use crate::text::has_prefix;
use crate::text::lemma_first_of;
use crate::text::lemma_first_of_is;
use crate::text::split_once;
use crate::text::starts_with;
use crate::text::str_eq;
use crate::text::strip_prefix;

verus! {

/// The database that unqualified objects belong to.
pub const DEFAULT_DATABASE: &'static str = "default";

/// Stands between the database and the bare name of an internal name.
pub const SEPARATOR: char = '\u{1f}';

/// What the name of a global index's entry table begins with.
pub const GIDX_PREFIX: &'static str = "__gidx__";

/// The database and the bare name of an internal name.
pub open spec fn split_name(name: Seq<char>) -> (Seq<char>, Seq<char>) {
    if name.contains(SEPARATOR) {
        (name.take(first_of(name, SEPARATOR)), name.skip(first_of(name, SEPARATOR) + 1))
    } else {
        ("default"@, name)
    }
}

/// The internal name of `bare` in database `db`.
pub open spec fn qualified(db: Seq<char>, bare: Seq<char>) -> Seq<char> {
    if db == "default"@ {
        bare
    } else {
        db.push(SEPARATOR) + bare
    }
}

/// The database and the bare name of an internal name.
pub fn split(name: &str) -> (r: (String, String))
    ensures
        r.0@ == split_name(name@).0,
        r.1@ == split_name(name@).1,
{
    match split_once(name, SEPARATOR) {
        Some(parts) => parts,
        None => ("default".to_owned(), name.to_owned()),
    }
}

/// The internal name of `bare` in database `db`.
pub fn qualify(db: &str, bare: &str) -> (r: String)
    ensures
        r@ == qualified(db@, bare@),
{
    if str_eq(db, "default") {
        return bare.to_owned();
    }
    let mut out = db.to_owned();
    out.push(SEPARATOR);
    out.append(bare);
    out
}

/// Whether an internal name belongs to database `db`.
pub open spec fn in_database(name: Seq<char>, db: Seq<char>) -> bool {
    split_name(name).0 == db
}

/// Whether an internal name belongs to database `db`.
pub fn belongs_to(name: &str, db: &str) -> (r: bool)
    ensures
        r == in_database(name@, db@),
{
    str_eq(split(name).0.as_str(), db)
}

/// A qualified name splits into the database and the bare name it was made
/// of, where the database name has no separator and, in the default database,
/// the bare name has none.
pub proof fn qualify_then_split(db: Seq<char>, bare: Seq<char>)
    requires
        !db.contains(SEPARATOR),
        db == "default"@ ==> !bare.contains(SEPARATOR),
    ensures
        split_name(qualified(db, bare)) == (db, bare),
{
    if db != "default"@ {
        let name = qualified(db, bare);
        assert forall|i: int| 0 <= i < db.len() implies name[i] != SEPARATOR by {
            assert(db.contains(db[i]));
        }
        assert(name[db.len() as int] == SEPARATOR);
        lemma_first_of_is(name, SEPARATOR, db.len() as int);
        assert(name.contains(SEPARATOR));
        assert(name.take(db.len() as int) =~= db);
        assert(name.skip(db.len() as int + 1) =~= bare);
    }
}

/// Splitting a name and qualifying the parts again gives the name back, unless
/// it spells out the default database.
pub proof fn split_then_qualify(name: Seq<char>)
    requires
        name.contains(SEPARATOR) ==> split_name(name).0 != "default"@,
    ensures
        qualified(split_name(name).0, split_name(name).1) == name,
{
    lemma_first_of(name, SEPARATOR);
    if name.contains(SEPARATOR) {
        let k = first_of(name, SEPARATOR);
        assert(name =~= name.take(k).push(SEPARATOR) + name.skip(k + 1));
    }
}

/// The name of the table that holds a global index's entries.
pub open spec fn gidx_table_name(index: Seq<char>) -> Seq<char> {
    qualified(split_name(index).0, "__gidx__"@ + split_name(index).1)
}

/// Whether a name is that of a global index's entry table.
pub open spec fn names_gidx_table(table: Seq<char>) -> bool {
    has_prefix(split_name(table).1, "__gidx__"@)
}

/// The internal replicated table holding a global index's entries: in the
/// database of the index, with the bare name behind the entry-table prefix.
pub fn gidx_table(index_name: &str) -> (r: String)
    ensures
        r@ == gidx_table_name(index_name@),
{
    let (db, bare) = split(index_name);
    qualify(db.as_str(), cat("__gidx__", bare.as_str()).as_str())
}

/// Whether `table` (internal name) is a global index's entry table.
pub fn is_gidx_table(table: &str) -> (r: bool)
    ensures
        r == names_gidx_table(table@),
{
    starts_with(split(table).1.as_str(), "__gidx__")
}

/// The index whose entries a global index's entry table holds.
pub open spec fn gidx_index_name(table: Seq<char>) -> Seq<char> {
    let parts = split_name(table);
    qualified(
        parts.0,
        if has_prefix(parts.1, "__gidx__"@) {
            parts.1.skip("__gidx__"@.len() as int)
        } else {
            parts.1
        },
    )
}

/// The index whose entries the entry table `table` holds.
pub fn gidx_index(table: &str) -> (r: String)
    ensures
        r@ == gidx_index_name(table@),
{
    let (db, bare) = split(table);
    match strip_prefix(bare.as_str(), "__gidx__") {
        Some(rest) => qualify(db.as_str(), rest.as_str()),
        None => qualify(db.as_str(), bare.as_str()),
    }
}

/// An index's entry table is recognised as one and is in the index's database,
/// unless the name spells out the default database and has a separator in its
/// bare part too. It leads back to the index, unless the name spells out the
/// default database.
pub proof fn gidx_table_round_trip(index: Seq<char>)
    ensures
        split_name(index).0 != "default"@ || !split_name(index).1.contains(SEPARATOR)
            ==> names_gidx_table(gidx_table_name(index)) && split_name(gidx_table_name(index)).0
            == split_name(index).0,
        (index.contains(SEPARATOR) ==> split_name(index).0 != "default"@) ==> gidx_index_name(
            gidx_table_name(index),
        ) == index,
{
    let (db, bare) = split_name(index);
    reveal_strlit("__gidx__");
    reveal_strlit("default");
    let full = "__gidx__"@ + bare;
    lemma_first_of(index, SEPARATOR);
    assert(!db.contains(SEPARATOR)) by {
        if db.contains(SEPARATOR) {
            let i = choose|i: int| 0 <= i < db.len() && db[i] == SEPARATOR;
            if index.contains(SEPARATOR) {
                assert(index[i] == SEPARATOR);
            }
        }
    }
    if db != "default"@ || !bare.contains(SEPARATOR) {
        if full.contains(SEPARATOR) {
            let i = choose|i: int| 0 <= i < full.len() && full[i] == SEPARATOR;
            if i >= 8 {
                assert(bare[i - 8] == SEPARATOR);
            }
        }
        qualify_then_split(db, full);
    }
    if index.contains(SEPARATOR) ==> db != "default"@ {
        split_then_qualify(index);
    }
    assert(full.take(8) =~= "__gidx__"@);
    assert(full.skip(8) =~= bare);
}

/// The bare names of the tables that the server itself reads on every node.
pub open spec fn names_system_table(name: Seq<char>) -> bool {
    ||| name == "node_stats"@
    ||| name == "drivers"@
    ||| name == "witnesses"@
    ||| name == "witness_gc_config"@
    ||| name == "witness_sync_state"@
    ||| name == "cluster_meta"@
    ||| name == "node_aliases"@
    ||| name == "metrics"@
}

/// Whether `name` (bare) is a table the server machinery itself reads on
/// every node: such tables stay at cluster-default placement.
pub fn is_system_table(name: &str) -> (r: bool)
    ensures
        r == names_system_table(name@),
{
    str_eq(name, "node_stats") || str_eq(name, "drivers") || str_eq(name, "witnesses") || str_eq(
        name,
        "witness_gc_config",
    ) || str_eq(name, "witness_sync_state") || str_eq(name, "cluster_meta") || str_eq(
        name,
        "node_aliases",
    ) || str_eq(name, "metrics")
}

/// How a name is shown in a session on database `db`: bare for an object of
/// that database, `database.name` for one of another.
pub open spec fn displayed(name: Seq<char>, db: Seq<char>) -> Seq<char> {
    let parts = split_name(name);
    if parts.0 == db {
        parts.1
    } else {
        parts.0 + "."@ + parts.1
    }
}

/// How a name is shown in a session on database `db`.
pub fn display_name(name: &str, db: &str) -> (r: String)
    ensures
        r@ == displayed(name@, db@),
{
    let (d, bare) = split(name);
    if str_eq(d.as_str(), db) {
        bare
    } else {
        crate::text::cat3(d.as_str(), ".", bare.as_str())
    }
}

} // verus!
