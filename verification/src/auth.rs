//! Users, roles and grants, and the text form in which a role's whole state
//! is replicated.

use vstd::prelude::*;
use vstd::string::StringExecFns;

use crate::catalog::advances;
use crate::catalog::def_of;
use crate::catalog::grant_views;
use crate::catalog::has_def;
use crate::catalog::opt_view;
use crate::catalog::put_def;
use crate::catalog::record_schema;
use crate::catalog::schema_advances;
use crate::catalog::take_def;
use crate::catalog::AuthRoleDef;
use crate::catalog::CatalogView;
use crate::catalog::RoleView;
use crate::catalog::UserAuthKind;
use crate::catalog::UserDef;
use crate::catalog::UserView;
use crate::database::verdict;
use crate::database::without_name;
use crate::database::Database;
use crate::database::DbView;
use crate::database::DdlOutcome;
use crate::ddl_table::stamped;
use crate::error::constraint;
use crate::error::constraint_about;
use crate::error::debug_quoted;
use crate::error::quoted;
use crate::error::EngineError;
use crate::error::ErrorView;
use crate::hlc::Hlc;
use crate::show::add_column;
use crate::show::cell_rows;
use crate::show::cells;
use crate::show::txt;
use crate::show::Cell;
use crate::show::CellView;
use crate::show::Listing;
use crate::namespace::display_name;
use crate::namespace::displayed;
use crate::namespace::SEPARATOR;
use crate::text::cat;
use crate::text::first_of;
use crate::text::has_prefix;
use crate::text::join;
use crate::text::joined;
use crate::text::lemma_first_of;
use crate::text::lemma_first_of_is;
use crate::text::lemma_split_joined;
use crate::text::lowered;
use crate::text::pieces;
use crate::text::split;
use crate::text::split_once;
use crate::text::str_eq;
use crate::text::strip_prefix;
use crate::text::to_lower;
use crate::text::views;

verus! {

/// The part of a role's state that one grant is written as.
pub open spec fn grant_part(g: (Seq<char>, Option<Seq<char>>)) -> Seq<char> {
    g.0.push('@') + match g.1 {
        Some(object) => object,
        None => "*"@,
    }
}

/// The parts of a role's state: its grants, then its parents behind a `+`.
pub open spec fn role_parts(r: RoleView) -> Seq<Seq<char>> {
    r.grants.map_values(|g: (Seq<char>, Option<Seq<char>>)| grant_part(g)) + r.inherits.map_values(
        |p: Seq<char>| seq!['+'] + p,
    )
}

/// A role's whole state as text.
pub open spec fn role_text(r: RoleView) -> Seq<char> {
    joined(role_parts(r), seq![';'])
}

/// One part of a role's state.
pub enum RolePart {
    Parent(Seq<char>),
    Grant(Seq<char>, Option<Seq<char>>),
}

/// What a part says: a parent behind `+`, or a privilege and an object around
/// the first `@`, where `*` is everywhere. Nothing for any other text.
pub open spec fn role_part(part: Seq<char>) -> Option<RolePart> {
    if has_prefix(part, seq!['+']) {
        Some(RolePart::Parent(part.skip(1)))
    } else if part.contains('@') {
        let object = part.skip(first_of(part, '@') + 1);
        Some(
            RolePart::Grant(
                part.take(first_of(part, '@')),
                if object == "*"@ {
                    None
                } else {
                    Some(object)
                },
            ),
        )
    } else {
        None
    }
}

/// A role with one more part.
pub open spec fn with_part(r: RoleView, p: RolePart) -> RoleView {
    match p {
        RolePart::Parent(name) => RoleView { inherits: r.inherits.push(name), ..r },
        RolePart::Grant(privilege, object) => RoleView {
            grants: r.grants.push((privilege, object)),
            ..r
        },
    }
}

/// The role with nothing granted.
pub open spec fn empty_role() -> RoleView {
    RoleView { grants: Seq::empty(), inherits: Seq::empty() }
}

/// The role that a run of parts adds up to; empty parts say nothing. Nothing
/// where a part is neither a parent nor a grant.
pub open spec fn parsed_role(parts: Seq<Seq<char>>) -> Option<RoleView>
    decreases parts.len(),
{
    if parts.len() == 0 {
        Some(empty_role())
    } else {
        match parsed_role(parts.drop_last()) {
            None => None,
            Some(r) => if parts.last().len() == 0 {
                Some(r)
            } else {
                match role_part(parts.last()) {
                    None => None,
                    Some(p) => Some(with_part(r, p)),
                }
            },
        }
    }
}

/// Whether a role's state can be told apart in its text: no separator inside
/// a name, no privilege that reads as a parent, no object called `*`.
pub open spec fn role_writable(r: RoleView) -> bool {
    &&& forall|i: int|
        0 <= i < r.grants.len() ==> grant_writable(#[trigger] r.grants[i])
    &&& forall|i: int| 0 <= i < r.inherits.len() ==> !(#[trigger] r.inherits[i]).contains(';')
}

/// Whether a grant can be told apart in a role's text.
pub open spec fn grant_writable(g: (Seq<char>, Option<Seq<char>>)) -> bool {
    &&& !g.0.contains(';')
    &&& !g.0.contains('@')
    &&& !has_prefix(g.0, seq!['+'])
    &&& g.1 matches Some(object) ==> !object.contains(';') && object != "*"@
}

proof fn lemma_grant_part(g: (Seq<char>, Option<Seq<char>>))
    requires
        grant_writable(g),
    ensures
        role_part(grant_part(g)) == Some(RolePart::Grant(g.0, g.1)),
        !grant_part(g).contains(';'),
        grant_part(g).len() > 0,
{
    reveal_strlit("*");
    let part = grant_part(g);
    let object = match g.1 {
        Some(o) => o,
        None => "*"@,
    };
    let k = g.0.len() as int;
    assert forall|i: int| 0 <= i < k implies part[i] != '@' by {
        assert(part[i] == g.0[i]);
        assert(g.0.contains(g.0[i]));
    }
    assert(part[k] == '@');
    lemma_first_of_is(part, '@', k);
    assert(part.contains('@'));
    assert(part.take(k) =~= g.0);
    assert(part.skip(k + 1) =~= object);
    if has_prefix(part, seq!['+']) {
        assert(part.take(1)[0] == '+');
        assert(part[0] == '+');
        if k > 0 {
            assert(g.0.take(1) =~= seq!['+']);
            assert(has_prefix(g.0, seq!['+']));
        }
    }
    if part.contains(';') {
        let i = choose|i: int| 0 <= i < part.len() && part[i] == ';';
        if i < k {
            assert(g.0.contains(g.0[i]));
        } else if i > k {
            assert(object[i - k - 1] == ';');
            assert(object.contains(';'));
        }
    }
}

proof fn lemma_parent_part(p: Seq<char>)
    requires
        !p.contains(';'),
    ensures
        role_part(seq!['+'] + p) == Some(RolePart::Parent(p)),
        !(seq!['+'] + p).contains(';'),
        (seq!['+'] + p).len() > 0,
{
    let part = seq!['+'] + p;
    assert(part.take(1) =~= seq!['+']);
    assert(part.skip(1) =~= p);
    if part.contains(';') {
        let i = choose|i: int| 0 <= i < part.len() && part[i] == ';';
        assert(p[i - 1] == ';');
        assert(p.contains(';'));
    }
}

/// The parts of a role parse back to it, taken from the front.
proof fn lemma_parse_parts(r: RoleView, n: int)
    requires
        role_writable(r),
        0 <= n <= role_parts(r).len(),
    ensures
        parsed_role(role_parts(r).take(n)) == Some(
            RoleView {
                grants: r.grants.take(
                    if n < r.grants.len() {
                        n
                    } else {
                        r.grants.len() as int
                    },
                ),
                inherits: r.inherits.take(
                    if n < r.grants.len() {
                        0
                    } else {
                        n - r.grants.len()
                    },
                ),
            },
        ),
    decreases n,
{
    let parts = role_parts(r);
    if n == 0 {
        assert(r.grants.take(0) =~= Seq::<(Seq<char>, Option<Seq<char>>)>::empty());
        assert(r.inherits.take(0) =~= Seq::<Seq<char>>::empty());
        assert(parts.take(0).len() == 0);
    } else {
        lemma_parse_parts(r, n - 1);
        assert(parts.take(n).drop_last() =~= parts.take(n - 1));
        let last = parts.take(n).last();
        if n - 1 < r.grants.len() {
            assert(last == grant_part(r.grants[n - 1]));
            assert(grant_writable(r.grants[n - 1]));
            lemma_grant_part(r.grants[n - 1]);
            assert(r.grants.take(n) =~= r.grants.take(n - 1).push(r.grants[n - 1]));
        } else {
            let k = n - 1 - r.grants.len();
            assert(last == seq!['+'] + r.inherits[k]);
            assert(!r.inherits[k].contains(';'));
            lemma_parent_part(r.inherits[k]);
            assert(r.inherits.take(k + 1) =~= r.inherits.take(k).push(r.inherits[k]));
        }
    }
}

/// A role's state survives replication: parsing its text gives the role back,
/// where its names can be told apart in the text.
pub proof fn role_state_round_trip(r: RoleView)
    requires
        role_writable(r),
    ensures
        parsed_role(pieces(role_text(r), ';')) == Some(r),
{
    let parts = role_parts(r);
    if parts.len() == 0 {
        let text = role_text(r);
        lemma_first_of(text, ';');
        assert(pieces(text, ';') =~= seq![text]);
        assert(seq![text].drop_last() =~= Seq::<Seq<char>>::empty());
        assert(parsed_role(Seq::<Seq<char>>::empty()) == Some(empty_role()));
        assert(parsed_role(seq![text]) == Some(empty_role()));
        assert(r.grants =~= Seq::<(Seq<char>, Option<Seq<char>>)>::empty());
        assert(r.inherits =~= Seq::<Seq<char>>::empty());
    } else {
        assert forall|i: int| 0 <= i < parts.len() implies !(#[trigger] parts[i]).contains(';') by {
            if i < r.grants.len() {
                assert(grant_writable(r.grants[i]));
                lemma_grant_part(r.grants[i]);
            } else {
                assert(!r.inherits[i - r.grants.len()].contains(';'));
                lemma_parent_part(r.inherits[i - r.grants.len()]);
            }
        }
        lemma_split_joined(parts, ';');
        lemma_parse_parts(r, parts.len() as int);
        assert(parts.take(parts.len() as int) =~= parts);
        assert(r.grants.take(r.grants.len() as int) =~= r.grants);
        assert(r.inherits.take(r.inherits.len() as int) =~= r.inherits);
    }
}

/// A role's whole state as text: `priv@obj;...;+parent;...`.
pub fn encode_role_state(def: &AuthRoleDef) -> (r: String)
    ensures
        r@ == role_text(def@),
{
    let ghost whole = role_parts(def@);
    let mut parts: Vec<String> = Vec::new();
    let mut i: usize = 0;
    proof {
        assert(views(parts@) =~= whole.take(0));
    }
    while i < def.grants.len()
        invariant
            i <= def.grants@.len(),
            whole == role_parts(def@),
            views(parts@) == whole.take(i as int),
        decreases def.grants@.len() - i,
    {
        let mut part = def.grants[i].0.clone();
        part.push('@');
        match &def.grants[i].1 {
            Some(object) => part.append(object.as_str()),
            None => part.append("*"),
        }
        let ghost before = views(parts@);
        parts.push(part);
        proof {
            assert(views(parts@) =~= before.push(part@));
            assert(part@ == grant_part(def@.grants[i as int]));
            assert(whole.take(i + 1) =~= whole.take(i as int).push(whole[i as int]));
        }
        i = i + 1;
    }
    let mut j: usize = 0;
    while j < def.inherits.len()
        invariant
            j <= def.inherits@.len(),
            whole == role_parts(def@),
            views(parts@) == whole.take(def.grants@.len() + j),
        decreases def.inherits@.len() - j,
    {
        let part = cat("+", def.inherits[j].as_str());
        let ghost before = views(parts@);
        parts.push(part);
        proof {
            reveal_strlit("+");
            assert("+"@ =~= seq!['+']);
            assert(views(parts@) =~= before.push(part@));
            let n = def.grants@.len() + j;
            assert(whole[n] == part@);
            assert(whole.take(n + 1) =~= whole.take(n).push(whole[n]));
        }
        j = j + 1;
    }
    proof {
        assert(whole.take(whole.len() as int) =~= whole);
        reveal_strlit(";");
        assert(";"@ =~= seq![';']);
    }
    join(&parts, ";")
}

/// Whether every privilege that the parts grant was found to be a known one.
pub open spec fn privileges_accepted<F: Fn(&str) -> bool>(parts: Seq<Seq<char>>, known: F) -> bool {
    forall|i: int|
        0 <= i < parts.len() && (#[trigger] parts[i]).len() > 0 && (role_part(
            parts[i],
        ) matches Some(RolePart::Grant(_, _))) ==> privilege_found(parts[i], known, true)
}

/// Whether `known` answered `answer` to the privilege that a part grants.
pub open spec fn privilege_found<F: Fn(&str) -> bool>(part: Seq<char>, known: F, answer: bool) -> bool {
    exists|p: &str|
        role_part(part) matches Some(RolePart::Grant(privilege, _)) && p@ == privilege
            && #[trigger] call_ensures(known, (p,), answer)
}

/// Whether a part is refused: it is neither a parent nor a grant, or `known`
/// turned its privilege down.
pub open spec fn part_refused<F: Fn(&str) -> bool>(part: Seq<char>, known: F) -> bool {
    part.len() > 0 && (role_part(part) is None || privilege_found(part, known, false))
}

/// Reads a role's state. The first part that is no parent and no grant of a
/// known privilege is the error.
pub fn decode_role_state<F: Fn(&str) -> bool>(enc: &str, known: F) -> (r: Result<
    AuthRoleDef,
    EngineError,
>)
    requires
        forall|p: &str| call_requires(known, (p,)),
    ensures
        r matches Ok(def) ==> parsed_role(pieces(enc@, ';')) == Some(def@) && privileges_accepted(
            pieces(enc@, ';'),
            known,
        ),
        r matches Err(e) ==> exists|i: int|
            0 <= i < pieces(enc@, ';').len() && part_refused(#[trigger] pieces(enc@, ';')[i], known)
                && parsed_role(pieces(enc@, ';').take(i)) is Some && privileges_accepted(
                pieces(enc@, ';').take(i),
                known,
            ) && e@ == ErrorView::Constraint(
                "bad role state: "@ + pieces(enc@, ';')[i],
            ),
{
    let parts = split(enc, ';');
    let ghost ps = pieces(enc@, ';');
    let mut def = AuthRoleDef { grants: Vec::new(), inherits: Vec::new() };
    let mut i: usize = 0;
    proof {
        assert(def@.grants =~= Seq::<(Seq<char>, Option<Seq<char>>)>::empty());
        assert(def@.inherits =~= Seq::<Seq<char>>::empty());
        assert(ps.take(0) =~= Seq::<Seq<char>>::empty());
    }
    while i < parts.len()
        invariant
            i <= parts@.len(),
            ps == pieces(enc@, ';'),
            views(parts@) == ps,
            parts@.len() == ps.len(),
            parsed_role(ps.take(i as int)) == Some(def@),
            privileges_accepted(ps.take(i as int), known),
            forall|p: &str| call_requires(known, (p,)),
        decreases parts@.len() - i,
    {
        let ghost part = ps[i as int];
        let ghost before = def@;
        proof {
            assert(views(parts@)[i as int] == parts@[i as int]@);
            assert(ps.take(i + 1).drop_last() =~= ps.take(i as int));
            assert(ps.take(i + 1).last() == part);
            reveal_strlit("+");
            assert("+"@ =~= seq!['+']);
            lemma_first_of(part, '@');
        }
        let text = parts[i].as_str();
        let ghost mut accepted = false;
        if !text.is_empty() {
            match strip_prefix(text, "+") {
                Some(parent) => {
                    def.inherits.push(parent);
                    proof {
                        assert(def@.inherits =~= before.inherits.push(part.skip(1)));
                    }
                },
                None => match split_once(text, '@') {
                    Some((privilege, object)) => {
                        let found: bool = known(privilege.as_str());
                        if !found {
                            proof {
                                assert(privilege_found(part, known, false));
                                assert(part_refused(ps[i as int], known));
                            }
                            return Err(
                                EngineError::Constraint(cat("bad role state: ", text)),
                            );
                        }
                        proof {
                            assert(privilege_found(part, known, true));
                        }
                        let scope = if str_eq(object.as_str(), "*") {
                            None
                        } else {
                            Some(object)
                        };
                        def.grants.push((privilege, scope));
                        proof {
                            assert(def@.grants =~= before.grants.push(
                                (privilege@, opt_view(scope)),
                            ));
                        }
                    },
                    None => {
                        proof {
                            assert(part_refused(ps[i as int], known));
                        }
                        return Err(EngineError::Constraint(cat("bad role state: ", text)));
                    },
                },
            }
        }
        proof {
            assert forall|k: int|
                0 <= k < i + 1 && (#[trigger] ps.take(i + 1)[k]).len() > 0 && (role_part(
                    ps.take(i + 1)[k],
                ) matches Some(RolePart::Grant(_, _))) implies privilege_found(
                ps.take(i + 1)[k],
                known,
                true,
            ) by {
                if k < i {
                    assert(ps.take(i as int)[k] == ps.take(i + 1)[k]);
                }
            }
        }
        i = i + 1;
    }
    proof {
        assert(ps.take(ps.len() as int) =~= ps);
    }
    Ok(def)
}

/// What a privilege is granted on.
pub enum GrantObject {
    Global,
    Table(String),
    Database(String),
}

/// The stored form of a grant object: nothing for everywhere, `db:<name>` for
/// a database, the name for a table.
pub open spec fn object_key(o: GrantObject) -> Option<Seq<char>> {
    match o {
        GrantObject::Global => None,
        GrantObject::Table(t) => Some(t@),
        GrantObject::Database(d) => Some("db:"@ + d@),
    }
}

/// The stored form of a grant object.
pub fn grant_object_key(o: &GrantObject) -> (r: Option<String>)
    ensures
        opt_view(r) == object_key(*o),
{
    match o {
        GrantObject::Global => None,
        GrantObject::Table(t) => Some(t.clone()),
        GrantObject::Database(d) => Some(cat("db:", d.as_str())),
    }
}

/// The object that a stored form stands for.
pub fn grant_object_of(key: &Option<String>) -> (r: GrantObject)
    ensures
        match *key {
            None => r == GrantObject::Global,
            Some(k) => if has_prefix(k@, "db:"@) {
                r matches GrantObject::Database(d) && d@ == k@.skip("db:"@.len() as int)
            } else {
                r matches GrantObject::Table(t) && t@ == k@
            },
        },
{
    match key {
        None => GrantObject::Global,
        Some(k) => match strip_prefix(k.as_str(), "db:") {
            Some(d) => GrantObject::Database(d),
            None => GrantObject::Table(k.clone()),
        },
    }
}

/// Two grant objects have the same stored form only where they are the same,
/// for table names that do not begin like a database's.
pub proof fn object_keys_are_distinct(a: GrantObject, b: GrantObject)
    requires
        a matches GrantObject::Table(t) ==> !has_prefix(t@, "db:"@),
        b matches GrantObject::Table(t) ==> !has_prefix(t@, "db:"@),
        object_key(a) == object_key(b),
    ensures
        match (a, b) {
            (GrantObject::Global, GrantObject::Global) => true,
            (GrantObject::Table(s), GrantObject::Table(t)) => s@ == t@,
            (GrantObject::Database(s), GrantObject::Database(t)) => s@ == t@,
            _ => false,
        },
{
    let n = "db:"@.len() as int;
    if let GrantObject::Database(s) = a {
        assert(("db:"@ + s@).take(n) =~= "db:"@);
        assert(("db:"@ + s@).skip(n) =~= s@);
    }
    if let GrantObject::Database(s) = b {
        assert(("db:"@ + s@).take(n) =~= "db:"@);
        assert(("db:"@ + s@).skip(n) =~= s@);
    }
}

/// How a grant's object is shown: an internal name without its separator.
pub fn shown_object(object: &str) -> (r: String)
    ensures
        r@ == (if object@.contains(SEPARATOR) {
            displayed(object@, "default"@)
        } else {
            object@
        }),
{
    match split_once(object, SEPARATOR) {
        Some(_parts) => display_name(object, "default"),
        None => object.to_owned(),
    }
}

/// The error for a user that does not exist.
pub open spec fn no_such_user(name: Seq<char>) -> ErrorView {
    ErrorView::Constraint("user "@ + debug_quoted(name) + " does not exist"@)
}

/// The error for a role that does not exist.
pub open spec fn no_such_role(name: Seq<char>) -> ErrorView {
    ErrorView::Constraint("role "@ + debug_quoted(name) + " does not exist"@)
}

/// A catalog with the versions of a user and of the user's own role set.
pub open spec fn user_stamped(v: CatalogView, name: Seq<char>, hlc: Hlc, dropped: bool) -> CatalogView {
    stamped(stamped(v, "usr:"@ + name, hlc, dropped), "rol:"@ + name, hlc, dropped)
}

/// The credential and sort of user that a statement asks for, or why it cannot
/// be had. `credential` is the one derived from a password; a verifier comes
/// with whether it is well formed.
pub open spec fn asked_user(
    credential: Option<Seq<char>>,
    verifier: Option<(Seq<char>, bool)>,
    gssapi: bool,
) -> Result<UserView, ErrorView> {
    if gssapi {
        Ok(UserView { credential: Seq::empty(), auth_kind: UserAuthKind::Gssapi })
    } else {
        match (credential, verifier) {
            (Some(c), _) => Ok(UserView { credential: c, auth_kind: UserAuthKind::Scram }),
            (None, Some((text, valid))) => if valid {
                Ok(UserView { credential: text, auth_kind: UserAuthKind::Scram })
            } else {
                Err(ErrorView::Constraint("invalid VERIFIER encoding"@))
            },
            (None, None) => Err(
                ErrorView::Constraint("CREATE USER requires PASSWORD, VERIFIER, or GSSAPI"@),
            ),
        }
    }
}

/// `CREATE USER`, `ALTER USER` (`replace`) and the replayed verifier form:
/// what it answers and the catalog it leaves. The verifier form is an upsert
/// that only its stamp arbitrates.
pub open spec fn create_user_step(
    v: CatalogView,
    name: Seq<char>,
    credential: Option<Seq<char>>,
    verifier: Option<(Seq<char>, bool)>,
    gssapi: bool,
    if_not_exists: bool,
    replace: bool,
    hlc: Hlc,
) -> (Result<DdlOutcome, ErrorView>, CatalogView) {
    let known = v.users.dom().contains(name);
    if verifier is None && replace && !known {
        (Err(no_such_user(name)), v)
    } else if verifier is None && !replace && known {
        if if_not_exists {
            (Ok(DdlOutcome::Unchanged), v)
        } else {
            (
                Err(
                    ErrorView::Constraint("user "@ + debug_quoted(name) + " already exists"@),
                ),
                v,
            )
        }
    } else {
        match asked_user(credential, verifier, gssapi) {
            Err(e) => (Err(e), v),
            Ok(user) => if !advances(v.versions, "usr:"@ + name, hlc) {
                (Ok(DdlOutcome::Stale), v)
            } else {
                (
                    Ok(DdlOutcome::Applied),
                    user_stamped(
                        CatalogView {
                            users: v.users.insert(name, user),
                            auth_roles: if v.auth_roles.dom().contains(name) {
                                v.auth_roles
                            } else {
                                v.auth_roles.insert(name, empty_role())
                            },
                            ..v
                        },
                        name,
                        hlc,
                        false,
                    ),
                )
            },
        }
    }
}

/// `DROP USER`: what it answers and the catalog it leaves. The user's own
/// role goes too.
pub open spec fn drop_user_step(v: CatalogView, name: Seq<char>, if_exists: bool, hlc: Hlc) -> (
    Result<DdlOutcome, ErrorView>,
    CatalogView,
) {
    if !advances(v.versions, "usr:"@ + name, hlc) {
        (Ok(DdlOutcome::Stale), v)
    } else if !v.users.dom().contains(name) && !if_exists {
        (Err(no_such_user(name)), v)
    } else {
        (
            Ok(DdlOutcome::Applied),
            user_stamped(
                CatalogView {
                    users: v.users.remove(name),
                    auth_roles: v.auth_roles.remove(name),
                    ..v
                },
                name,
                hlc,
                true,
            ),
        )
    }
}

/// `CREATE ROLE`: what it answers and the catalog it leaves. `state` is the
/// decoded state of the replicated form, which replaces the whole role.
pub open spec fn create_role_step(
    v: CatalogView,
    name: Seq<char>,
    state: Option<Result<RoleView, ErrorView>>,
    if_not_exists: bool,
    hlc: Hlc,
) -> (Result<DdlOutcome, ErrorView>, CatalogView) {
    let key = "rol:"@ + name;
    let known = v.auth_roles.dom().contains(name);
    if !advances(v.versions, key, hlc) {
        (Ok(DdlOutcome::Stale), v)
    } else {
        match state {
            None => if known && !if_not_exists {
                (
                    Err(
                        ErrorView::Constraint("role "@ + debug_quoted(name) + " already exists"@),
                    ),
                    v,
                )
            } else if known {
                (Ok(DdlOutcome::Recorded), stamped(v, key, hlc, false))
            } else {
                (
                    Ok(DdlOutcome::Applied),
                    stamped(
                        CatalogView { auth_roles: v.auth_roles.insert(name, empty_role()), ..v },
                        key,
                        hlc,
                        false,
                    ),
                )
            },
            Some(Err(e)) => (Err(e), v),
            Some(Ok(role)) => (
                Ok(DdlOutcome::Applied),
                stamped(
                    CatalogView { auth_roles: v.auth_roles.insert(name, role), ..v },
                    key,
                    hlc,
                    false,
                ),
            ),
        }
    }
}

/// `DROP ROLE`: what it answers and the catalog it leaves.
pub open spec fn drop_role_step(v: CatalogView, name: Seq<char>, if_exists: bool, hlc: Hlc) -> (
    Result<DdlOutcome, ErrorView>,
    CatalogView,
) {
    let key = "rol:"@ + name;
    if v.users.dom().contains(name) {
        (
            Err(
                ErrorView::Constraint("cannot drop a user's personal role; DROP USER instead"@),
            ),
            v,
        )
    } else if !advances(v.versions, key, hlc) {
        (Ok(DdlOutcome::Stale), v)
    } else if !v.auth_roles.dom().contains(name) && !if_exists {
        (Err(no_such_role(name)), v)
    } else {
        (
            Ok(DdlOutcome::Applied),
            stamped(
                CatalogView { auth_roles: v.auth_roles.remove(name), ..v },
                key,
                hlc,
                true,
            ),
        )
    }
}

/// A catalog with a role's state replaced and stamped.
pub open spec fn role_set(v: CatalogView, name: Seq<char>, role: RoleView, hlc: Hlc) -> CatalogView {
    stamped(
        CatalogView { auth_roles: v.auth_roles.insert(name, role), ..v },
        "rol:"@ + name,
        hlc,
        false,
    )
}

/// `GRANT`: what it answers and the catalog it leaves. `known` says whether
/// the privilege exists; one held already is not added again.
pub open spec fn grant_step(
    v: CatalogView,
    role: Seq<char>,
    privilege: Seq<char>,
    known: bool,
    object: Option<Seq<char>>,
    hlc: Hlc,
) -> (Result<DdlOutcome, ErrorView>, CatalogView) {
    if !known {
        (Err(ErrorView::Constraint("unknown privilege "@ + debug_quoted(privilege))), v)
    } else if !v.auth_roles.dom().contains(role) {
        (Err(no_such_role(role)), v)
    } else {
        let def = v.auth_roles[role];
        let entry = (lowered(privilege), object);
        let grants = if def.grants.contains(entry) {
            def.grants
        } else {
            def.grants.push(entry)
        };
        (Ok(DdlOutcome::Applied), role_set(v, role, RoleView { grants, ..def }, hlc))
    }
}

/// `REVOKE`: what it answers and the catalog it leaves.
pub open spec fn revoke_step(
    v: CatalogView,
    role: Seq<char>,
    privilege: Seq<char>,
    object: Option<Seq<char>>,
    hlc: Hlc,
) -> (Result<DdlOutcome, ErrorView>, CatalogView) {
    if !v.auth_roles.dom().contains(role) {
        (Err(no_such_role(role)), v)
    } else {
        let def = v.auth_roles[role];
        let entry = (lowered(privilege), object);
        let grants = def.grants.filter(|g: (Seq<char>, Option<Seq<char>>)| g != entry);
        (Ok(DdlOutcome::Applied), role_set(v, role, RoleView { grants, ..def }, hlc))
    }
}

/// Adding or removing a parent of a role: what it answers and the catalog it
/// leaves.
pub open spec fn role_edge_step(
    v: CatalogView,
    member: Seq<char>,
    parent: Seq<char>,
    add_edge: bool,
    hlc: Hlc,
) -> (Result<DdlOutcome, ErrorView>, CatalogView) {
    if add_edge && !v.auth_roles.dom().contains(parent) {
        (Err(no_such_role(parent)), v)
    } else if !v.auth_roles.dom().contains(member) {
        (Err(no_such_role(member)), v)
    } else {
        let def = v.auth_roles[member];
        let inherits = if !add_edge {
            def.inherits.filter(|p: Seq<char>| p != parent)
        } else if def.inherits.contains(parent) {
            def.inherits
        } else {
            def.inherits.push(parent)
        };
        (Ok(DdlOutcome::Applied), role_set(v, member, RoleView { inherits, ..def }, hlc))
    }
}

fn missing_role(name: &str) -> (r: EngineError)
    ensures
        r@ == no_such_role(name@),
{
    constraint_about("role ", quoted(name).as_str(), " does not exist")
}

/// Whether two optional strings hold the same.
fn same_object(a: &Option<String>, b: &Option<String>) -> (r: bool)
    ensures
        r == (opt_view(*a) == opt_view(*b)),
{
    match (a, b) {
        (None, None) => true,
        (Some(x), Some(y)) => *x == *y,
        _ => false,
    }
}

fn copy_object(a: &Option<String>) -> (r: Option<String>)
    ensures
        opt_view(r) == opt_view(*a),
{
    match a {
        Some(x) => Some(x.clone()),
        None => None,
    }
}

/// The grants without `entry`, and whether it was among them.
fn grants_without(gs: &Vec<(String, Option<String>)>, privilege: &String, object: &Option<String>) -> (r:
    (Vec<(String, Option<String>)>, bool))
    ensures
        grant_views(r.0@) == grant_views(gs@).filter(
            |g: (Seq<char>, Option<Seq<char>>)| g != (privilege@, opt_view(*object)),
        ),
        r.1 == grant_views(gs@).contains((privilege@, opt_view(*object))),
{
    let ghost whole = grant_views(gs@);
    let ghost entry = (privilege@, opt_view(*object));
    let ghost p = |g: (Seq<char>, Option<Seq<char>>)| g != entry;
    let mut out: Vec<(String, Option<String>)> = Vec::new();
    let mut held: bool = false;
    let mut i: usize = 0;
    proof {
        assert(whole.take(0) =~= Seq::<(Seq<char>, Option<Seq<char>>)>::empty());
        assert(grant_views(out@) =~= whole.take(0).filter(p));
    }
    while i < gs.len()
        invariant
            i <= gs@.len(),
            whole == grant_views(gs@),
            entry == (privilege@, opt_view(*object)),
            p == (|g: (Seq<char>, Option<Seq<char>>)| g != entry),
            grant_views(out@) == whole.take(i as int).filter(p),
            held == exists|k: int| 0 <= k < i && #[trigger] whole[k] == entry,
        decreases gs@.len() - i,
    {
        proof {
            assert(whole.take(i + 1) =~= whole.take(i as int).push(whole[i as int]));
            whole.take(i as int).lemma_filter_push(whole[i as int], p);
            assert(whole[i as int] == (gs@[i as int].0@, opt_view(gs@[i as int].1)));
        }
        if gs[i].0 == *privilege && same_object(&gs[i].1, object) {
            held = true;
        } else {
            let ghost before = grant_views(out@);
            out.push((gs[i].0.clone(), copy_object(&gs[i].1)));
            proof {
                assert(grant_views(out@) =~= before.push(whole[i as int]));
            }
        }
        i = i + 1;
    }
    proof {
        assert(whole.take(whole.len() as int) =~= whole);
    }
    (out, held)
}

impl Database {
    /// `CREATE USER`, `ALTER USER` and the replayed verifier form, stamped `hlc`.
    /// Also makes the user's own-named role.
    pub fn create_user(
        &mut self,
        name: &str,
        credential: Option<String>,
        verifier: Option<(String, bool)>,
        gssapi: bool,
        if_not_exists: bool,
        replace: bool,
        hlc: Hlc,
    ) -> (r: Result<DdlOutcome, EngineError>)
        requires
            old(self).wf(),
        ensures
            final(self).wf(),
            ({
                let step = create_user_step(
                    old(self)@.cat,
                    name@,
                    opt_view(credential),
                    match verifier {
                        Some((t, ok)) => Some((t@, ok)),
                        None => None,
                    },
                    gssapi,
                    if_not_exists,
                    replace,
                    hlc,
                );
                verdict(r) == step.0 && final(self)@ == (DbView { cat: step.1, ..old(self)@ })
            }),
    {
        let name_owned = name.to_owned();
        let known: bool = has_def(&self.catalog.users, &name_owned);
        if verifier.is_none() {
            if replace && !known {
                return Err(constraint_about("user ", quoted(name).as_str(), " does not exist"));
            }
            if !replace && known {
                if if_not_exists {
                    return Ok(DdlOutcome::Unchanged);
                }
                return Err(constraint_about("user ", quoted(name).as_str(), " already exists"));
            }
        }
        let user = if gssapi {
            UserDef { credential: String::new(), auth_kind: UserAuthKind::Gssapi }
        } else {
            match credential {
                Some(c) => UserDef { credential: c, auth_kind: UserAuthKind::Scram },
                None => match verifier {
                    Some((text, valid)) => {
                        if !valid {
                            return Err(constraint("invalid VERIFIER encoding"));
                        }
                        UserDef { credential: text, auth_kind: UserAuthKind::Scram }
                    },
                    None => {
                        return Err(
                            constraint("CREATE USER requires PASSWORD, VERIFIER, or GSSAPI"),
                        );
                    },
                },
            }
        };
        let key = cat("usr:", name);
        if !schema_advances(&self.catalog.schema_versions, &key, hlc) {
            return Ok(DdlOutcome::Stale);
        }
        put_def(&mut self.catalog.users, name_owned, user);
        let role_name = name.to_owned();
        if !has_def(&self.catalog.auth_roles, &role_name) {
            let role = AuthRoleDef { grants: Vec::new(), inherits: Vec::new() };
            proof {
                assert(role@.grants =~= Seq::<(Seq<char>, Option<Seq<char>>)>::empty());
                assert(role@.inherits =~= Seq::<Seq<char>>::empty());
            }
            put_def(&mut self.catalog.auth_roles, role_name, role);
        }
        record_schema(&mut self.catalog.schema_versions, key, hlc, false);
        record_schema(&mut self.catalog.schema_versions, cat("rol:", name), hlc, false);
        Ok(DdlOutcome::Applied)
    }

    /// `DROP USER` stamped `hlc`.
    pub fn drop_user(&mut self, name: &str, if_exists: bool, hlc: Hlc) -> (r: Result<
        DdlOutcome,
        EngineError,
    >)
        requires
            old(self).wf(),
        ensures
            final(self).wf(),
            ({
                let step = drop_user_step(old(self)@.cat, name@, if_exists, hlc);
                verdict(r) == step.0 && final(self)@ == (DbView { cat: step.1, ..old(self)@ })
            }),
    {
        let key = cat("usr:", name);
        if !schema_advances(&self.catalog.schema_versions, &key, hlc) {
            return Ok(DdlOutcome::Stale);
        }
        let name_owned = name.to_owned();
        if !has_def(&self.catalog.users, &name_owned) && !if_exists {
            return Err(constraint_about("user ", quoted(name).as_str(), " does not exist"));
        }
        take_def(&mut self.catalog.users, &name_owned);
        take_def(&mut self.catalog.auth_roles, &name_owned);
        record_schema(&mut self.catalog.schema_versions, key, hlc, true);
        record_schema(&mut self.catalog.schema_versions, cat("rol:", name), hlc, true);
        Ok(DdlOutcome::Applied)
    }

    /// `CREATE ROLE` stamped `hlc`. `state` is what [`decode_role_state`] made
    /// of the replicated form's text.
    pub fn create_auth_role(
        &mut self,
        name: &str,
        state: Option<Result<AuthRoleDef, EngineError>>,
        if_not_exists: bool,
        hlc: Hlc,
    ) -> (r: Result<DdlOutcome, EngineError>)
        requires
            old(self).wf(),
        ensures
            final(self).wf(),
            ({
                let step = create_role_step(
                    old(self)@.cat,
                    name@,
                    match state {
                        None => None,
                        Some(Ok(d)) => Some(Ok(d@)),
                        Some(Err(e)) => Some(Err(e@)),
                    },
                    if_not_exists,
                    hlc,
                );
                verdict(r) == step.0 && final(self)@ == (DbView { cat: step.1, ..old(self)@ })
            }),
    {
        let key = cat("rol:", name);
        if !schema_advances(&self.catalog.schema_versions, &key, hlc) {
            return Ok(DdlOutcome::Stale);
        }
        let name_owned = name.to_owned();
        let known: bool = has_def(&self.catalog.auth_roles, &name_owned);
        match state {
            None => {
                if known {
                    if !if_not_exists {
                        return Err(
                            constraint_about("role ", quoted(name).as_str(), " already exists"),
                        );
                    }
                    record_schema(&mut self.catalog.schema_versions, key, hlc, false);
                    return Ok(DdlOutcome::Recorded);
                }
                let role = AuthRoleDef { grants: Vec::new(), inherits: Vec::new() };
                proof {
                    assert(role@.grants =~= Seq::<(Seq<char>, Option<Seq<char>>)>::empty());
                    assert(role@.inherits =~= Seq::<Seq<char>>::empty());
                }
                put_def(&mut self.catalog.auth_roles, name_owned, role);
            },
            Some(Err(e)) => {
                return Err(e);
            },
            Some(Ok(role)) => {
                put_def(&mut self.catalog.auth_roles, name_owned, role);
            },
        }
        record_schema(&mut self.catalog.schema_versions, key, hlc, false);
        Ok(DdlOutcome::Applied)
    }

    /// `DROP ROLE` stamped `hlc`. A user's own role drops only with the user.
    pub fn drop_auth_role(&mut self, name: &str, if_exists: bool, hlc: Hlc) -> (r: Result<
        DdlOutcome,
        EngineError,
    >)
        requires
            old(self).wf(),
        ensures
            final(self).wf(),
            ({
                let step = drop_role_step(old(self)@.cat, name@, if_exists, hlc);
                verdict(r) == step.0 && final(self)@ == (DbView { cat: step.1, ..old(self)@ })
            }),
    {
        let name_owned = name.to_owned();
        if has_def(&self.catalog.users, &name_owned) {
            return Err(constraint("cannot drop a user's personal role; DROP USER instead"));
        }
        let key = cat("rol:", name);
        if !schema_advances(&self.catalog.schema_versions, &key, hlc) {
            return Ok(DdlOutcome::Stale);
        }
        if !has_def(&self.catalog.auth_roles, &name_owned) && !if_exists {
            return Err(missing_role(name));
        }
        take_def(&mut self.catalog.auth_roles, &name_owned);
        record_schema(&mut self.catalog.schema_versions, key, hlc, true);
        Ok(DdlOutcome::Applied)
    }

    /// Replaces a role's definition and stamps it.
    fn set_role(&mut self, name: &str, def: AuthRoleDef, hlc: Hlc)
        requires
            old(self).wf(),
        ensures
            final(self).wf(),
            final(self)@ == (DbView {
                cat: role_set(old(self)@.cat, name@, def@, hlc),
                ..old(self)@
            }),
    {
        put_def(&mut self.catalog.auth_roles, name.to_owned(), def);
        record_schema(&mut self.catalog.schema_versions, cat("rol:", name), hlc, false);
    }

    /// `GRANT` stamped `hlc`. `known` says whether there is such a privilege.
    pub fn grant(
        &mut self,
        role: &str,
        privilege: &str,
        known: bool,
        object: Option<String>,
        hlc: Hlc,
    ) -> (r: Result<DdlOutcome, EngineError>)
        requires
            old(self).wf(),
        ensures
            final(self).wf(),
            ({
                let step = grant_step(
                    old(self)@.cat,
                    role@,
                    privilege@,
                    known,
                    opt_view(object),
                    hlc,
                );
                verdict(r) == step.0 && final(self)@ == (DbView { cat: step.1, ..old(self)@ })
            }),
    {
        if !known {
            return Err(
                EngineError::Constraint(cat("unknown privilege ", quoted(privilege).as_str())),
            );
        }
        let entry = to_lower(privilege);
        let ghost v = self@.cat;
        let ghost added = (entry@, opt_view(object));
        match take_def(&mut self.catalog.auth_roles, &role.to_owned()) {
            None => {
                proof {
                    assert(self@.cat.auth_roles =~= v.auth_roles);
                }
                Err(missing_role(role))
            },
            Some(mut def) => {
                let ghost before = def@;
                let (_rest, held) = grants_without(&def.grants, &entry, &object);
                if !held {
                    def.grants.push((entry, object));
                    proof {
                        assert(def@.grants =~= before.grants.push(added));
                    }
                }
                let ghost dv = def@;
                self.set_role(role, def, hlc);
                proof {
                    assert(self@.cat.auth_roles =~= v.auth_roles.insert(role@, dv));
                }
                Ok(DdlOutcome::Applied)
            },
        }
    }

    /// `REVOKE` stamped `hlc`.
    pub fn revoke(&mut self, role: &str, privilege: &str, object: Option<String>, hlc: Hlc) -> (r:
        Result<DdlOutcome, EngineError>)
        requires
            old(self).wf(),
        ensures
            final(self).wf(),
            ({
                let step = revoke_step(
                    old(self)@.cat,
                    role@,
                    privilege@,
                    opt_view(object),
                    hlc,
                );
                verdict(r) == step.0 && final(self)@ == (DbView { cat: step.1, ..old(self)@ })
            }),
    {
        let entry = to_lower(privilege);
        let ghost v = self@.cat;
        match take_def(&mut self.catalog.auth_roles, &role.to_owned()) {
            None => {
                proof {
                    assert(self@.cat.auth_roles =~= v.auth_roles);
                }
                Err(missing_role(role))
            },
            Some(mut def) => {
                let (rest, _held) = grants_without(&def.grants, &entry, &object);
                def.grants = rest;
                let ghost dv = def@;
                self.set_role(role, def, hlc);
                proof {
                    assert(self@.cat.auth_roles =~= v.auth_roles.insert(role@, dv));
                }
                Ok(DdlOutcome::Applied)
            },
        }
    }

    /// Adds or removes a parent of `member`, stamped `hlc`.
    pub fn grant_role_edge(&mut self, member: &str, parent: &str, add_edge: bool, hlc: Hlc) -> (r:
        Result<DdlOutcome, EngineError>)
        requires
            old(self).wf(),
        ensures
            final(self).wf(),
            ({
                let step = role_edge_step(old(self)@.cat, member@, parent@, add_edge, hlc);
                verdict(r) == step.0 && final(self)@ == (DbView { cat: step.1, ..old(self)@ })
            }),
    {
        if add_edge && !has_def(&self.catalog.auth_roles, &parent.to_owned()) {
            return Err(missing_role(parent));
        }
        let ghost v = self@.cat;
        match take_def(&mut self.catalog.auth_roles, &member.to_owned()) {
            None => {
                proof {
                    assert(self@.cat.auth_roles =~= v.auth_roles);
                }
                Err(missing_role(member))
            },
            Some(mut def) => {
                let ghost before = def@;
                if !add_edge {
                    let rest = without_name(&def.inherits, parent);
                    def.inherits = rest;
                } else if !contains_name(&def.inherits, parent) {
                    def.inherits.push(parent.to_owned());
                    proof {
                        assert(def@.inherits =~= before.inherits.push(parent@));
                    }
                }
                let ghost dv = def@;
                self.set_role(member, def, hlc);
                proof {
                    assert(self@.cat.auth_roles =~= v.auth_roles.insert(member@, dv));
                }
                Ok(DdlOutcome::Applied)
            },
        }
    }

    /// The role an externally authenticated principal acts as: the principal
    /// itself, but only where it is an external user.
    pub fn external_user_role(&self, principal: &str) -> (r: Option<String>)
        requires
            self.wf(),
        ensures
            r is Some <==> self@.cat.users.dom().contains(principal@)
                && self@.cat.users[principal@].auth_kind == UserAuthKind::Gssapi,
            r matches Some(name) ==> name@ == principal@,
    {
        match def_of(&self.catalog.users, &principal.to_owned()) {
            Some(u) => if u.auth_kind == UserAuthKind::Gssapi {
                Some(principal.to_owned())
            } else {
                None
            },
            None => None,
        }
    }

    /// The stored credential of a user who authenticates by password.
    pub fn auth_user(&self, name: &str) -> (r: Option<&String>)
        requires
            self.wf(),
        ensures
            r is Some <==> self@.cat.users.dom().contains(name@)
                && self@.cat.users[name@].auth_kind == UserAuthKind::Scram,
            r matches Some(c) ==> c@ == self@.cat.users[name@].credential,
    {
        match def_of(&self.catalog.users, &name.to_owned()) {
            Some(u) => if u.auth_kind == UserAuthKind::Scram {
                Some(&u.credential)
            } else {
                None
            },
            None => None,
        }
    }
}

/// Whether `name` is in the list.
pub fn contains_name(list: &Vec<String>, name: &str) -> (r: bool)
    ensures
        r == views(list@).contains(name@),
{
    let mut i: usize = 0;
    while i < list.len()
        invariant
            i <= list@.len(),
            forall|k: int| 0 <= k < i ==> (#[trigger] list@[k])@ != name@,
        decreases list@.len() - i,
    {
        if str_eq(list[i].as_str(), name) {
            proof {
                assert(views(list@)[i as int] == name@);
            }
            return true;
        }
        i = i + 1;
    }
    proof {
        if views(list@).contains(name@) {
            let k = choose|k: int| 0 <= k < views(list@).len() && views(list@)[k] == name@;
            assert(list@[k]@ == name@);
        }
    }
    false
}

/// What is granted is held, and what is revoked is not: after a grant the role
/// has the entry, after a revoke it has it no more.
pub proof fn grant_then_revoke(
    v: CatalogView,
    role: Seq<char>,
    privilege: Seq<char>,
    object: Option<Seq<char>>,
    granted: Hlc,
    revoked: Hlc,
)
    requires
        v.auth_roles.dom().contains(role),
    ensures
        ({
            let entry = (lowered(privilege), object);
            let a = grant_step(v, role, privilege, true, object, granted).1;
            let b = revoke_step(a, role, privilege, object, revoked).1;
            a.auth_roles[role].grants.contains(entry) && !b.auth_roles[role].grants.contains(entry)
        }),
{
    let entry = (lowered(privilege), object);
    let a = grant_step(v, role, privilege, true, object, granted).1;
    let def = v.auth_roles[role];
    if !def.grants.contains(entry) {
        assert(a.auth_roles[role].grants[def.grants.len() as int] == entry);
    }
    let p = |g: (Seq<char>, Option<Seq<char>>)| g != entry;
    let rest = a.auth_roles[role].grants.filter(p);
    if rest.contains(entry) {
        let i = choose|i: int| 0 <= i < rest.len() && rest[i] == entry;
        a.auth_roles[role].grants.lemma_filter_pred(p, i);
    }
}

/// A grant object by its characters.
pub enum ObjectView {
    Global,
    Table(Seq<char>),
    Database(Seq<char>),
}

impl View for GrantObject {
    type V = ObjectView;

    open spec fn view(&self) -> ObjectView {
        match *self {
            GrantObject::Global => ObjectView::Global,
            GrantObject::Table(t) => ObjectView::Table(t@),
            GrantObject::Database(d) => ObjectView::Database(d@),
        }
    }
}

/// The object that a stored form stands for.
pub open spec fn stored_object(key: Option<Seq<char>>) -> ObjectView {
    match key {
        None => ObjectView::Global,
        Some(k) => if has_prefix(k, "db:"@) {
            ObjectView::Database(k.skip("db:"@.len() as int))
        } else {
            ObjectView::Table(k)
        },
    }
}

/// A step of filling the role store.
pub enum RoleOp {
    Create(String),
    Grant(String, String, GrantObject),
    Inherit(String, String),
}

pub enum RoleOpView {
    Create(Seq<char>),
    Grant(Seq<char>, Seq<char>, ObjectView),
    Inherit(Seq<char>, Seq<char>),
}

impl View for RoleOp {
    type V = RoleOpView;

    open spec fn view(&self) -> RoleOpView {
        match *self {
            RoleOp::Create(n) => RoleOpView::Create(n@),
            RoleOp::Grant(n, p, o) => RoleOpView::Grant(n@, p@, o@),
            RoleOp::Inherit(n, p) => RoleOpView::Inherit(n@, p@),
        }
    }
}

/// Steps by what each says.
pub open spec fn role_op_views(ops: Seq<RoleOp>) -> Seq<RoleOpView> {
    ops.map_values(|o: RoleOp| o@)
}

/// Whether a test told a name from others.
pub open spec fn told<F: Fn(&str) -> bool>(known: F, name: Seq<char>, answer: bool) -> bool {
    exists|p: &str| #[trigger] call_ensures(known, (p,), answer) && p@ == name
}

/// Whether a name is known to a test.
pub open spec fn is_known<F: Fn(&str) -> bool>(known: F, name: Seq<char>) -> bool {
    told(known, name, true)
}

/// Whether a test can be asked of any name and always answers the same.
pub open spec fn is_name_test<F: Fn(&str) -> bool>(known: F) -> bool {
    &&& forall|p: &str| call_requires(known, (p,))
    &&& forall|p: &str, q: &str, x: bool, y: bool|
        #![trigger call_ensures(known, (p,), x), call_ensures(known, (q,), y)]
        p@ == q@ && call_ensures(known, (p,), x) && call_ensures(known, (q,), y) ==> x == y
}

/// The steps that create roles.
pub open spec fn create_ops(es: Seq<(String, AuthRoleDef)>) -> Seq<RoleOpView>
    decreases es.len(),
{
    if es.len() == 0 {
        Seq::empty()
    } else {
        create_ops(es.drop_last()).push(RoleOpView::Create(es.last().0@))
    }
}

/// The steps that grant a role its known privileges.
pub open spec fn grant_ops<F: Fn(&str) -> bool>(
    known: F,
    name: Seq<char>,
    gs: Seq<(String, Option<String>)>,
) -> Seq<RoleOpView>
    decreases gs.len(),
{
    if gs.len() == 0 {
        Seq::empty()
    } else {
        let before = grant_ops(known, name, gs.drop_last());
        if is_known(known, gs.last().0@) {
            before.push(
                RoleOpView::Grant(name, gs.last().0@, stored_object(opt_view(gs.last().1))),
            )
        } else {
            before
        }
    }
}

/// The steps that let a role inherit.
pub open spec fn inherit_ops(name: Seq<char>, ps: Seq<String>) -> Seq<RoleOpView>
    decreases ps.len(),
{
    if ps.len() == 0 {
        Seq::empty()
    } else {
        inherit_ops(name, ps.drop_last()).push(RoleOpView::Inherit(name, ps.last()@))
    }
}

/// The steps that give roles what they hold.
pub open spec fn state_ops<F: Fn(&str) -> bool>(known: F, es: Seq<(String, AuthRoleDef)>) -> Seq<
    RoleOpView,
>
    decreases es.len(),
{
    if es.len() == 0 {
        Seq::empty()
    } else {
        state_ops(known, es.drop_last()) + grant_ops(known, es.last().0@, es.last().1.grants@)
            + inherit_ops(es.last().0@, es.last().1.inherits@)
    }
}

fn push_grants<F: Fn(&str) -> bool>(
    out: &mut Vec<RoleOp>,
    known: &F,
    name: &String,
    gs: &Vec<(String, Option<String>)>,
)
    requires
        is_name_test(*known),
    ensures
        role_op_views(final(out)@) == role_op_views(old(out)@) + grant_ops(*known, name@, gs@),
{
    let ghost start = role_op_views(out@);
    let mut i: usize = 0;
    proof {
        assert(gs@.take(0) =~= Seq::<(String, Option<String>)>::empty());
        assert(start + grant_ops(*known, name@, gs@.take(0)) =~= start);
    }
    while i < gs.len()
        invariant
            is_name_test(*known),
            i <= gs@.len(),
            role_op_views(out@) == start + grant_ops(*known, name@, gs@.take(i as int)),
        decreases gs@.len() - i,
    {
        let ghost before = role_op_views(out@);
        let ghost p = gs@[i as int].0@;
        proof {
            assert(gs@.take(i + 1).drop_last() =~= gs@.take(i as int));
            assert(gs@.take(i + 1).last() == gs@[i as int]);
        }
        let asked = gs[i].0.as_str();
        let found: bool = known(asked);
        proof {
            assert(call_ensures(*known, (asked,), found));
            if is_known(*known, p) && !found {
                let q = choose|q: &str| #[trigger] call_ensures(*known, (q,), true) && q@ == p;
                assert(call_ensures(*known, (q,), true));
            }
        }
        if found {
            let object = grant_object_of(&gs[i].1);
            let op = RoleOp::Grant(name.clone(), gs[i].0.clone(), object);
            let ghost ov = op@;
            out.push(op);
            proof {
                assert(role_op_views(out@) =~= before.push(ov));
                assert(role_op_views(out@) =~= start + grant_ops(
                    *known,
                    name@,
                    gs@.take(i + 1),
                ));
            }
        }
        i = i + 1;
    }
    proof {
        assert(gs@.take(gs@.len() as int) =~= gs@);
    }
}

fn push_inherits(out: &mut Vec<RoleOp>, name: &String, ps: &Vec<String>)
    ensures
        role_op_views(final(out)@) == role_op_views(old(out)@) + inherit_ops(name@, ps@),
{
    let ghost start = role_op_views(out@);
    let mut i: usize = 0;
    proof {
        assert(ps@.take(0) =~= Seq::<String>::empty());
        assert(start + inherit_ops(name@, ps@.take(0)) =~= start);
    }
    while i < ps.len()
        invariant
            i <= ps@.len(),
            role_op_views(out@) == start + inherit_ops(name@, ps@.take(i as int)),
        decreases ps@.len() - i,
    {
        let ghost before = role_op_views(out@);
        proof {
            assert(ps@.take(i + 1).drop_last() =~= ps@.take(i as int));
            assert(ps@.take(i + 1).last() == ps@[i as int]);
        }
        let op = RoleOp::Inherit(name.clone(), ps[i].clone());
        let ghost ov = op@;
        out.push(op);
        proof {
            assert(role_op_views(out@) =~= before.push(ov));
            assert(role_op_views(out@) =~= start + inherit_ops(name@, ps@.take(i + 1)));
        }
        i = i + 1;
    }
    proof {
        assert(ps@.take(ps@.len() as int) =~= ps@);
    }
}

impl Database {
    /// The steps that fill a role store from the catalog: every role is created
    /// before any is given a privilege or a parent. A privilege that is not
    /// known is left out.
    pub fn build_role_store<F: Fn(&str) -> bool>(&self, known: &F) -> (r: Vec<RoleOp>)
        requires
            self.wf(),
            is_name_test(*known),
        ensures
            role_op_views(r@) == create_ops(self.catalog.auth_roles.entries@) + state_ops(
                *known,
                self.catalog.auth_roles.entries@,
            ),
    {
        let m = &self.catalog.auth_roles;
        let ghost es = m.entries@;
        let mut out: Vec<RoleOp> = Vec::new();
        let mut i: usize = 0;
        proof {
            assert(es.take(0) =~= Seq::<(String, AuthRoleDef)>::empty());
            assert(role_op_views(out@) =~= Seq::<RoleOpView>::empty());
        }
        while i < m.len()
            invariant
                m.wf(),
                es == m.entries@,
                i <= es.len(),
                role_op_views(out@) == create_ops(es.take(i as int)),
            decreases es.len() - i,
        {
            let ghost before = role_op_views(out@);
            proof {
                assert(es.take(i + 1).drop_last() =~= es.take(i as int));
                assert(es.take(i + 1).last() == es[i as int]);
            }
            let op = RoleOp::Create(m.key_at(i).clone());
            let ghost ov = op@;
            out.push(op);
            proof {
                assert(role_op_views(out@) =~= before.push(ov));
            }
            i = i + 1;
        }
        let ghost made = role_op_views(out@);
        let mut j: usize = 0;
        proof {
            assert(es.take(es.len() as int) =~= es);
            assert(made + state_ops(*known, es.take(0)) =~= made);
        }
        while j < m.len()
            invariant
                m.wf(),
                is_name_test(*known),
                es == m.entries@,
                j <= es.len(),
                role_op_views(out@) == made + state_ops(*known, es.take(j as int)),
            decreases es.len() - j,
        {
            proof {
                assert(es.take(j + 1).drop_last() =~= es.take(j as int));
                assert(es.take(j + 1).last() == es[j as int]);
            }
            let def = m.value_at(j);
            push_grants(&mut out, known, m.key_at(j), &def.grants);
            push_inherits(&mut out, m.key_at(j), &def.inherits);
            proof {
                assert(role_op_views(out@) =~= made + state_ops(*known, es.take(j + 1)));
            }
            j = j + 1;
        }
        out
    }
}

/// How the object of a grant is shown: a table by its database and name, bare
/// in the default database.
pub open spec fn object_text(o: Seq<char>) -> Seq<char> {
    if o.contains(SEPARATOR) {
        displayed(o, "default"@)
    } else {
        o
    }
}

/// The row of a grant.
pub open spec fn grant_row(g: (String, String, String)) -> Seq<CellView> {
    seq![txt(g.0@), txt(g.1@), txt(object_text(g.2@))]
}

/// `SHOW GRANTS`: grants by role, privilege and object.
pub fn show_grants(grants: &Vec<(String, String, String)>) -> (r: Listing)
    ensures
        views(r.columns@) == seq!["role"@, "privilege"@, "object"@],
        cell_rows(r.rows@) == grants@.map_values(|g: (String, String, String)| grant_row(g)),
{
    let mut rows: Vec<Vec<Cell>> = Vec::new();
    let mut i: usize = 0;
    while i < grants.len()
        invariant
            i <= grants@.len(),
            rows@.len() == i,
            forall|k: int| 0 <= k < i ==> cells((#[trigger] rows@[k])@) == grant_row(grants@[k]),
        decreases grants@.len() - i,
    {
        let object = shown_object(grants[i].2.as_str());
        let mut row: Vec<Cell> = Vec::new();
        row.push(Cell::Text(grants[i].0.clone()));
        row.push(Cell::Text(grants[i].1.clone()));
        row.push(Cell::Text(object));
        proof {
            assert(cells(row@) =~= grant_row(grants@[i as int]));
        }
        rows.push(row);
        i = i + 1;
    }
    let mut columns: Vec<String> = Vec::new();
    proof {
        assert(views(columns@) =~= Seq::<Seq<char>>::empty());
        assert(cell_rows(rows@) =~= grants@.map_values(
            |g: (String, String, String)| grant_row(g),
        ));
    }
    add_column(&mut columns, "role");
    add_column(&mut columns, "privilege");
    add_column(&mut columns, "object");
    proof {
        assert(views(columns@) =~= seq!["role"@, "privilege"@, "object"@]);
    }
    Listing { columns, rows }
}

} // verus!
