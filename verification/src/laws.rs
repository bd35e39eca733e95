//! What holds of the compiler whatever the session and the expression.
//!
//! The table only grows and its keys stay distinct; a successful lowering
//! leaves no new row without a body; lowering an expression again changes
//! nothing; instantiation succeeds exactly on the declared parameters; an
//! intersection is the concatenation of disjoint members; following
//! references needs no more steps than the table has rows; and the budget of
//! unfoldings does not show.

use crate::ast::{
    lemma_lookup_some, lookup, substitute, substitute_bindings, substitute_members, Bindings,
    Builtin, Expr, Member,
};
use crate::error::Failure;
use crate::frontend::{
    allocate, emit, fetch, instantiate, instantiate_declared, intersection, lemma_position,
    lemma_position_is, lower, lower_members, lower_operand, position, resolve, store, stored,
    unbound_param, undeclared_arg, unfold, Entry, Proto, Session,
};
use crate::ir::{has_name, lemma_clash, shape_of, Identity, Named, Prim, Resolved, Shape, Slot};
use vstd::prelude::*;

verus! {

/// Whether `later` holds every row of `earlier` under the same id, with the
/// same key and, where `earlier` has a body for it, the same body.
pub open spec fn extends(later: Seq<Entry>, earlier: Seq<Entry>) -> bool {
    &&& earlier.len() <= later.len()
    &&& forall|i: int|
        0 <= i < earlier.len() ==> (#[trigger] later[i]).key == earlier[i].key && (
        earlier[i].body is Some ==> later[i].body == earlier[i].body)
}

/// Whether `later` can come after `earlier` in one session: the same
/// declarations, a table that extends the earlier one, and no fewer
/// temporaries.
pub open spec fn follows(later: Session, earlier: Session) -> bool {
    &&& later.env == earlier.env
    &&& extends(later.table, earlier.table)
    &&& earlier.temps <= later.temps
}

/// Whether no two rows of `table` have the same key.
pub open spec fn distinct(table: Seq<Entry>) -> bool {
    forall|i: int, j: int|
        0 <= i < j < table.len() ==> (#[trigger] table[i]).key != (#[trigger] table[j]).key
}

/// Whether every row of `table` from `from` on has a body.
pub open spec fn settled(table: Seq<Entry>, from: nat) -> bool {
    forall|i: int| from <= i < table.len() ==> (#[trigger] table[i]).body is Some
}

/// A key keeps its id when the table is extended.
pub proof fn lemma_position_extends(earlier: Seq<Entry>, later: Seq<Entry>, key: Expr)
    requires
        extends(later, earlier),
        position(earlier, key) is Some,
    ensures
        position(later, key) == position(earlier, key),
{
    lemma_position(earlier, key);
    let id = position(earlier, key)->0;
    assert(later[id as int].key == key);
    assert forall|j: int| 0 <= j < id implies (#[trigger] later[j]).key != key by {
        assert(earlier[j].key != key);
    }
    lemma_position_is(later, key, id);
}

/// Allocating extends the table, keeps distinct keys distinct, and leaves the
/// key at the id it returns.
pub proof fn lemma_allocate(table: Seq<Entry>, key: Expr)
    ensures
        extends(allocate(table, key).0, table),
        distinct(table) ==> distinct(allocate(table, key).0),
        position(allocate(table, key).0, key) == Some(allocate(table, key).1),
        allocate(table, key).1 < allocate(table, key).0.len(),
        allocate(table, key).2 ==> allocate(table, key).1 == table.len() && allocate(
            table,
            key,
        ).0.len() == table.len() + 1,
        !allocate(table, key).2 ==> allocate(table, key).0 == table,
{
    lemma_position(table, key);
    let (after, id, fresh) = allocate(table, key);
    if fresh {
        assert forall|j: int| 0 <= j < id implies (#[trigger] after[j]).key != key by {
            assert(after[j] == table[j]);
        }
        lemma_position_is(after, key, id);
        if distinct(table) {
            assert forall|i: int, j: int| 0 <= i < j < after.len() implies (#[trigger] after[i]).key
                != (#[trigger] after[j]).key by {
                assert(after[i] == table[i]);
                if j < table.len() {
                    assert(after[j] == table[j]);
                }
            }
        }
    }
}

/// Storing a body changes no key.
pub proof fn lemma_store_keys(table: Seq<Entry>, id: nat, named: Named, key: Expr)
    ensures
        store(table, id, named).len() == table.len(),
        forall|i: int| 0 <= i < table.len() ==> (#[trigger] store(table, id, named)[i]).key == table[i].key,
        position(store(table, id, named), key) == position(table, key),
        distinct(table) ==> distinct(store(table, id, named)),
{
    let after = store(table, id, named);
    lemma_position(table, key);
    lemma_position(after, key);
    match position(table, key) {
        Some(p) => {
            assert(after[p as int].key == key);
            assert forall|j: int| 0 <= j < p implies (#[trigger] after[j]).key != key by {
                assert(table[j].key != key);
            }
            lemma_position_is(after, key, p);
        },
        None => {
            if position(after, key) is Some {
                let q = position(after, key)->0;
                assert(table[q as int].key == key);
            }
        },
    }
    if distinct(table) {
        assert forall|i: int, j: int| 0 <= i < j < after.len() implies (#[trigger] after[i]).key != (
        #[trigger] after[j]).key by {
            assert(table[i].key != table[j].key);
        }
    }
}

/// Storing an aggregate under a temporary name: the session that follows,
/// the key at the id returned, distinct keys kept, and every new row with a
/// body.
pub proof fn lemma_emit(s: Session, key: Expr, body: Shape)
    ensures
        follows(emit(s, key, body).0, s),
        position(emit(s, key, body).0.table, key) == Some(emit(s, key, body).1),
        distinct(s.table) ==> distinct(emit(s, key, body).0.table),
        settled(emit(s, key, body).0.table, s.table.len()),
{
    lemma_allocate(s.table, key);
    let (table, id, fresh) = allocate(s.table, key);
    if fresh {
        let named = Named { name: Identity::Temporary(s.temps), body };
        lemma_store_keys(table, id, named, key);
        let after = store(table, id, named);
        assert forall|i: int| 0 <= i < s.table.len() implies (#[trigger] after[i]).key
            == s.table[i].key && (s.table[i].body is Some ==> after[i].body == s.table[i].body) by {
            assert(table[i] == s.table[i]);
        }
    }
}

/// The relation `extends` is transitive.
pub proof fn lemma_extends_transitive(a: Seq<Entry>, b: Seq<Entry>, c: Seq<Entry>)
    requires
        extends(b, a),
        extends(c, b),
    ensures
        extends(c, a),
{
    assert forall|i: int| 0 <= i < a.len() implies (#[trigger] c[i]).key == a[i].key && (
    a[i].body is Some ==> c[i].body == a[i].body) by {
        assert(b[i].key == a[i].key);
        assert(c[i].key == b[i].key);
    }
}

/// Whatever lowering does to a session, what comes out follows it: the
/// declarations are the same and no row is lost or changed. Keys that were
/// distinct stay distinct. Where lowering succeeds, every row that it added
/// has a body, and a reference that it returns is the id of the expression.
pub proof fn lemma_lower_follows(s: Session, e: Expr, budget: nat)
    ensures
        follows(lower(s, e, budget).0, s),
        distinct(s.table) ==> distinct(lower(s, e, budget).0.table),
        lower(s, e, budget).1 is Ok ==> settled(lower(s, e, budget).0.table, s.table.len()),
        lower(s, e, budget).1 matches Ok(Prim::Reference(id)) ==> position(
            lower(s, e, budget).0.table,
            e,
        ) == Some(id),
        lower(s, e, budget).1 matches Ok(Prim::Builtin(kind)) ==> e == Expr::Builtin(kind),
    decreases budget, e, 1nat,
{
    match e {
        Expr::Builtin(_) => {},
        Expr::Variable(name) => {
            match instantiate_declared(s.env, name, Seq::empty()) {
                Err(_) => {},
                Ok(body) => {
                    lemma_unfold_follows(s, Identity::Variable(name), e, body, budget);
                },
            }
        },
        Expr::Generic(name, args) => {
            match instantiate_declared(s.env, name, args) {
                Err(_) => {},
                Ok(body) => {
                    lemma_unfold_follows(
                        s,
                        Identity::Generic(name, args),
                        e,
                        body,
                        budget,
                    );
                },
            }
        },
        Expr::Struct(fields) => {
            lemma_members_follow(s, fields, fields.len(), budget);
            let (s1, r) = lower_members(s, fields, fields.len(), budget);
            if let Ok(slots) = r {
                lemma_emit(s1, e, Shape::Struct(slots));
                let s2 = emit(s1, e, Shape::Struct(slots)).0;
                lemma_extends_transitive(s.table, s1.table, s2.table);
            }
        },
        Expr::Variant(options) => {
            lemma_members_follow(s, options, options.len(), budget);
            let (s1, r) = lower_members(s, options, options.len(), budget);
            if let Ok(slots) = r {
                lemma_emit(s1, e, Shape::Variant(slots));
                let s2 = emit(s1, e, Shape::Variant(slots)).0;
                lemma_extends_transitive(s.table, s1.table, s2.table);
            }
        },
        Expr::Intersection(a, b) => {
            lemma_operand_follows(s, *a, budget);
            let (s1, ra) = lower_operand(s, *a, budget);
            if let Ok(left) = ra {
                lemma_operand_follows(s1, *b, budget);
                let (s2, rb) = lower_operand(s1, *b, budget);
                lemma_extends_transitive(s.table, s1.table, s2.table);
                if let Ok(right) = rb {
                    if let Ok(shape) = intersection(left, right) {
                        lemma_emit(s2, e, shape);
                        let s3 = emit(s2, e, shape).0;
                        lemma_extends_transitive(s.table, s2.table, s3.table);
                    }
                }
            }
        },
    }
}

/// The same of lowering the operand of an intersection.
pub proof fn lemma_operand_follows(s: Session, e: Expr, budget: nat)
    ensures
        follows(lower_operand(s, e, budget).0, s),
        lower_operand(s, e, budget).0 == lower(s, e, budget).0,
        distinct(s.table) ==> distinct(lower_operand(s, e, budget).0.table),
        lower_operand(s, e, budget).1 is Ok ==> lower(s, e, budget).1 is Ok && settled(
            lower_operand(s, e, budget).0.table,
            s.table.len(),
        ),
    decreases budget, e, 2nat,
{
    lemma_lower_follows(s, e, budget);
}

/// The same of lowering the first `n` members of a struct or a variant.
pub proof fn lemma_members_follow(s: Session, members: Seq<Member>, n: nat, budget: nat)
    ensures
        follows(lower_members(s, members, n, budget).0, s),
        distinct(s.table) ==> distinct(lower_members(s, members, n, budget).0.table),
        lower_members(s, members, n, budget).1 is Ok ==> settled(
            lower_members(s, members, n, budget).0.table,
            s.table.len(),
        ),
    decreases budget, members, n,
{
    if n == 0 || n > members.len() {
    } else {
        lemma_members_follow(s, members, (n - 1) as nat, budget);
        let (s1, r1) = lower_members(s, members, (n - 1) as nat, budget);
        if let Ok(slots) = r1 {
            lemma_lower_follows(s1, members[n - 1].ty, budget);
            let s2 = lower(s1, members[n - 1].ty, budget).0;
            lemma_extends_transitive(s.table, s1.table, s2.table);
        }
    }
}

/// The same of unfolding a name.
pub proof fn lemma_unfold_follows(
    s: Session,
    name: Identity,
    key: Expr,
    body: Expr,
    budget: nat,
)
    ensures
        follows(unfold(s, name, key, body, budget).0, s),
        distinct(s.table) ==> distinct(unfold(s, name, key, body, budget).0.table),
        unfold(s, name, key, body, budget).1 is Ok ==> settled(
            unfold(s, name, key, body, budget).0.table,
            s.table.len(),
        ),
        unfold(s, name, key, body, budget).1 matches Ok((id, _)) ==> position(
            unfold(s, name, key, body, budget).0.table,
            key,
        ) == Some(id),
    decreases budget, key, 0nat,
{
    lemma_allocate(s.table, key);
    let (table, id, fresh) = allocate(s.table, key);
    if fresh && budget > 0 {
        let s0 = Session { table, env: s.env, temps: s.temps };
        lemma_lower_follows(s0, body, (budget - 1) as nat);
        let (s1, r) = lower(s0, body, (budget - 1) as nat);
        lemma_extends_transitive(s.table, table, s1.table);
        lemma_position_extends(table, s1.table, key);
        if let Ok(p) = r {
            let named = Named { name, body: shape_of(p) };
            lemma_store_keys(s1.table, id, named, key);
            let after = store(s1.table, id, named);
            assert forall|i: int| 0 <= i < s.table.len() implies (#[trigger] after[i]).key
                == s.table[i].key && (s.table[i].body is Some ==> after[i].body
                == s.table[i].body) by {
                assert(s1.table[i].key == s.table[i].key);
            }
            assert forall|i: int| s.table.len() <= i < after.len() implies (#[trigger] after[i]).body is Some by {
                if i != id {
                    assert(s1.table[i].body is Some);
                }
            }
        }
    }
}

/// Resolving succeeds in the same way in an extended table and with more
/// steps.
pub proof fn lemma_resolve_stable(
    earlier: Seq<Entry>,
    later: Seq<Entry>,
    shape: Shape,
    steps: nat,
    more: nat,
)
    requires
        extends(later, earlier),
        steps <= more,
        resolve(earlier, shape, steps) is Ok,
    ensures
        resolve(later, shape, more) == resolve(earlier, shape, steps),
    decreases steps,
{
    if let Shape::Reference(id) = shape {
        assert(fetch(earlier, id) is Ok);
        assert(later[id as int].body == earlier[id as int].body);
        assert(steps > 0);
        lemma_resolve_stable(
            earlier,
            later,
            earlier[id as int].body->0.body,
            (steps - 1) as nat,
            (more - 1) as nat,
        );
    }
}

/// Once an expression is lowered, lowering it in any session that follows
/// changes nothing and gives the same primitive type, whatever the budget.
pub proof fn lemma_lower_stable(s: Session, e: Expr, budget: nat, later: Session, again: nat)
    requires
        lower(s, e, budget).1 is Ok,
        follows(later, lower(s, e, budget).0),
    ensures
        lower(later, e, again) == (later, lower(s, e, budget).1),
    decreases e, 1nat,
{
    lemma_lower_follows(s, e, budget);
    let (done, r) = lower(s, e, budget);
    match e {
        Expr::Builtin(_) => {},
        Expr::Variable(name) => {
            let id = r->Ok_0->Reference_0;
            lemma_position_extends(done.table, later.table, e);
        },
        Expr::Generic(name, args) => {
            let id = r->Ok_0->Reference_0;
            lemma_position_extends(done.table, later.table, e);
        },
        Expr::Struct(fields) => {
            let (s1, r1) = lower_members(s, fields, fields.len(), budget);
            let slots = r1->Ok_0;
            lemma_emit(s1, e, Shape::Struct(slots));
            lemma_extends_transitive(s1.table, done.table, later.table);
            lemma_members_stable(s, fields, fields.len(), budget, later, again);
            lemma_position_extends(done.table, later.table, e);
        },
        Expr::Variant(options) => {
            let (s1, r1) = lower_members(s, options, options.len(), budget);
            let slots = r1->Ok_0;
            lemma_emit(s1, e, Shape::Variant(slots));
            lemma_extends_transitive(s1.table, done.table, later.table);
            lemma_members_stable(s, options, options.len(), budget, later, again);
            lemma_position_extends(done.table, later.table, e);
        },
        Expr::Intersection(a, b) => {
            let (s1, ra) = lower_operand(s, *a, budget);
            let left = ra->Ok_0;
            let (s2, rb) = lower_operand(s1, *b, budget);
            let right = rb->Ok_0;
            let shape = intersection(left, right)->Ok_0;
            lemma_operand_follows(s, *a, budget);
            lemma_operand_follows(s1, *b, budget);
            lemma_emit(s2, e, shape);
            lemma_extends_transitive(s2.table, done.table, later.table);
            lemma_extends_transitive(s1.table, s2.table, later.table);
            lemma_lower_stable(s, *a, budget, later, again);
            lemma_lower_stable(s1, *b, budget, later, again);
            let pa = lower(s, *a, budget).1->Ok_0;
            let pb = lower(s1, *b, budget).1->Ok_0;
            lemma_resolve_stable(
                s1.table,
                later.table,
                shape_of(pa),
                s1.table.len(),
                later.table.len(),
            );
            lemma_resolve_stable(
                s2.table,
                later.table,
                shape_of(pb),
                s2.table.len(),
                later.table.len(),
            );
            lemma_position_extends(done.table, later.table, e);
        },
    }
}

/// The same of the first `n` members of a struct or a variant.
pub proof fn lemma_members_stable(
    s: Session,
    members: Seq<Member>,
    n: nat,
    budget: nat,
    later: Session,
    again: nat,
)
    requires
        lower_members(s, members, n, budget).1 is Ok,
        follows(later, lower_members(s, members, n, budget).0),
    ensures
        lower_members(later, members, n, again) == (later, lower_members(s, members, n, budget).1),
    decreases members, n,
{
    if n == 0 || n > members.len() {
    } else {
        let (s1, r1) = lower_members(s, members, (n - 1) as nat, budget);
        let m = members[n - 1];
        lemma_lower_follows(s1, m.ty, budget);
        let s2 = lower(s1, m.ty, budget).0;
        lemma_extends_transitive(s1.table, s2.table, later.table);
        lemma_members_stable(s, members, (n - 1) as nat, budget, later, again);
        lemma_lower_stable(s1, m.ty, budget, later, again);
    }
}

/// Lowering an expression a second time gives the same primitive type, and
/// so the same id, and leaves the session, and so the length of the table,
/// as the first lowering left it.
pub proof fn lemma_lowering_twice(s: Session, e: Expr, budget: nat, again: nat)
    requires
        lower(s, e, budget).1 is Ok,
    ensures
        lower(lower(s, e, budget).0, e, again) == lower(s, e, budget),
{
    let done = lower(s, e, budget).0;
    assert(extends(done.table, done.table));
    lemma_lower_stable(s, e, budget, done, again);
}

/// Whether every row of `table` has a body.
pub open spec fn complete(table: Seq<Entry>) -> bool {
    settled(table, 0)
}

/// The ids of a table are `0..N`, where `N` is the number of its rows.
/// Lowering keeps the keys of the rows distinct, so that `N` is the number
/// of distinct expressions met; and where it succeeds on a table in which
/// every id has a body, every id has a body afterwards.
pub proof fn lemma_lowering_is_dense(s: Session, e: Expr, budget: nat)
    requires
        distinct(s.table),
    ensures
        distinct(lower(s, e, budget).0.table),
        s.table.len() <= lower(s, e, budget).0.table.len(),
        complete(s.table) && lower(s, e, budget).1 is Ok ==> complete(lower(s, e, budget).0.table),
{
    lemma_lower_follows(s, e, budget);
    let done = lower(s, e, budget).0;
    if complete(s.table) && lower(s, e, budget).1 is Ok {
        assert forall|i: int| 0 <= i < done.table.len() implies (#[trigger] done.table[i]).body is Some by {
            if i < s.table.len() {
                assert(s.table[i].body is Some);
            }
        }
    }
}

/// In a table in which every id has a body, the stored types are those of
/// the ids `0..N` in order.
pub proof fn lemma_stored_complete(table: Seq<Entry>, n: nat)
    requires
        complete(table),
        n <= table.len(),
    ensures
        stored(table, n).len() == n,
        forall|i: int|
            0 <= i < n ==> #[trigger] stored(table, n)[i] == (
                i as nat,
                table[i].body->0,
            ),
    decreases n,
{
    if n > 0 {
        lemma_stored_complete(table, (n - 1) as nat);
        assert(table[n - 1].body is Some);
    }
}

/// A builtin lowers to itself and changes nothing, in any session.
pub proof fn lemma_builtin_never_allocates(s: Session, kind: Builtin, budget: nat)
    ensures
        lower(s, Expr::Builtin(kind), budget) == (s, Ok::<Prim, Failure>(Prim::Builtin(kind))),
{
}

/// Whether the variable `name` occurs in `e`.
pub open spec fn mentions(e: Expr, name: Seq<char>) -> bool
    decreases e,
{
    match e {
        Expr::Variable(n) => n == name,
        Expr::Builtin(_) => false,
        Expr::Generic(_, args) => exists|i: int|
            0 <= i < args.len() && mentions((#[trigger] args[i]).1, name),
        Expr::Struct(fields) => exists|i: int|
            0 <= i < fields.len() && mentions((#[trigger] fields[i]).ty, name),
        Expr::Variant(options) => exists|i: int|
            0 <= i < options.len() && mentions((#[trigger] options[i]).ty, name),
        Expr::Intersection(a, b) => mentions(*a, name) || mentions(*b, name),
    }
}

/// Substitution replaces every occurrence of a bound name: where no bound
/// expression mentions `name` itself, the result does not mention it.
pub proof fn lemma_substitute_replaces(e: Expr, m: Bindings, name: Seq<char>)
    requires
        lookup(m, name) is Some,
        forall|j: int| 0 <= j < m.len() ==> !mentions((#[trigger] m[j]).1, name),
    ensures
        !mentions(substitute(e, m), name),
    decreases e,
{
    match e {
        Expr::Variable(n) => {
            lemma_lookup_some(m, n);
            if lookup(m, n) is Some {
                let v = lookup(m, n)->0;
                let i = choose|i: int| 0 <= i < m.len() && #[trigger] m[i] == (n, v);
                assert(!mentions(m[i].1, name));
            }
        },
        Expr::Builtin(_) => {},
        Expr::Generic(_, args) => {
            let out = substitute_bindings(args, m);
            assert forall|i: int| 0 <= i < out.len() implies !mentions((#[trigger] out[i]).1, name) by {
                lemma_substitute_replaces(args[i].1, m, name);
            }
        },
        Expr::Struct(fields) => {
            let out = substitute_members(fields, m);
            assert forall|i: int| 0 <= i < out.len() implies !mentions((#[trigger] out[i]).ty, name) by {
                lemma_substitute_replaces(fields[i].ty, m, name);
            }
        },
        Expr::Variant(options) => {
            let out = substitute_members(options, m);
            assert forall|i: int| 0 <= i < out.len() implies !mentions((#[trigger] out[i]).ty, name) by {
                lemma_substitute_replaces(options[i].ty, m, name);
            }
        },
        Expr::Intersection(a, b) => {
            lemma_substitute_replaces(*a, m, name);
            lemma_substitute_replaces(*b, m, name);
        },
    }
}

/// No parameter among the first `n` is reported exactly where `args` binds
/// each of them.
pub proof fn lemma_unbound_param(params: Seq<Seq<char>>, args: Bindings, n: nat)
    requires
        n <= params.len(),
    ensures
        unbound_param(params, args, n) is None <==> forall|i: int|
            0 <= i < n ==> lookup(args, #[trigger] params[i]) is Some,
    decreases n,
{
    if n > 0 {
        lemma_unbound_param(params, args, (n - 1) as nat);
        if unbound_param(params, args, n) is None {
            assert forall|i: int| 0 <= i < n implies lookup(
                args,
                #[trigger] params[i],
            ) is Some by {}
        }
    }
}

/// No argument among the first `n` is reported exactly where each of them
/// is a parameter.
pub proof fn lemma_undeclared_arg(params: Seq<Seq<char>>, args: Bindings, n: nat)
    requires
        n <= args.len(),
    ensures
        undeclared_arg(params, args, n) is None <==> forall|j: int|
            0 <= j < n ==> params.contains((#[trigger] args[j]).0),
    decreases n,
{
    if n > 0 {
        lemma_undeclared_arg(params, args, (n - 1) as nat);
        if undeclared_arg(params, args, n) is None {
            assert forall|j: int| 0 <= j < n implies params.contains((#[trigger] args[j]).0) by {}
        }
    }
}

/// Instantiation succeeds exactly where the arguments bind every declared
/// parameter and nothing else; it then gives the body with the arguments
/// substituted. Otherwise it fails with a parameter mismatch.
pub proof fn lemma_instantiate_exact(proto: Proto, args: Bindings)
    ensures
        instantiate(proto, args) is Ok <==> (forall|i: int|
            0 <= i < proto.params.len() ==> lookup(args, #[trigger] proto.params[i]) is Some)
            && (forall|j: int| 0 <= j < args.len() ==> proto.params.contains((#[trigger] args[j]).0)),
        instantiate(proto, args) is Ok ==> instantiate(proto, args)
            == Ok::<Expr, Failure>(substitute(proto.body, args)),
        instantiate(proto, args) is Err ==> instantiate(
            proto,
            args,
        )->Err_0 is ParameterMismatch,
{
    lemma_unbound_param(proto.params, args, proto.params.len());
    lemma_undeclared_arg(proto.params, args, args.len());
}

/// Whether some name is the name of a member of `x` and of a member of `y`.
pub open spec fn share_a_name(x: Seq<Slot>, y: Seq<Slot>) -> bool {
    exists|i: int, j: int|
        0 <= i < x.len() && 0 <= j < y.len() && (#[trigger] x[i]).name == (#[trigger] y[j]).name
}

/// The intersection of two structs that share a field name fails with a
/// duplicate field of a shared name; that of two structs that share none is
/// the struct of the fields of the first followed by those of the second.
pub proof fn lemma_struct_intersection(x: Seq<Slot>, y: Seq<Slot>)
    ensures
        share_a_name(x, y) ==> (intersection(
            Resolved::Struct(x),
            Resolved::Struct(y),
        ) matches Err(Failure::DuplicateField(name)) && has_name(x, name)
            && has_name(y, name)),
        !share_a_name(x, y) ==> intersection(
            Resolved::Struct(x),
            Resolved::Struct(y),
        ) == Ok::<Shape, Failure>(Shape::Struct(x + y)),
{
    lemma_clash(x, y);
}

/// The same of two variants and their options.
pub proof fn lemma_variant_intersection(x: Seq<Slot>, y: Seq<Slot>)
    ensures
        share_a_name(x, y) ==> (intersection(
            Resolved::Variant(x),
            Resolved::Variant(y),
        ) matches Err(Failure::DuplicateOption(name)) && has_name(x, name)
            && has_name(y, name)),
        !share_a_name(x, y) ==> intersection(
            Resolved::Variant(x),
            Resolved::Variant(y),
        ) == Ok::<Shape, Failure>(Shape::Variant(x + y)),
{
    lemma_clash(x, y);
}

/// Lowering the intersection of two operands that resolve to structs: where
/// the structs share a field name it fails with a duplicate field; where
/// they share none it returns a reference, and the row that it adds for the
/// intersection holds the fields of the left struct followed by those of
/// the right one.
pub proof fn lemma_lower_struct_intersection(
    s: Session,
    a: Expr,
    b: Expr,
    budget: nat,
    x: Seq<Slot>,
    y: Seq<Slot>,
)
    requires
        lower_operand(s, a, budget).1 == Ok::<Resolved, Failure>(Resolved::Struct(x)),
        lower_operand(lower_operand(s, a, budget).0, b, budget).1 == Ok::<Resolved, Failure>(
            Resolved::Struct(y),
        ),
    ensures
        ({
            let e = Expr::Intersection(Box::new(a), Box::new(b));
            let s2 = lower_operand(lower_operand(s, a, budget).0, b, budget).0;
            let (done, r) = lower(s, e, budget);
            &&& share_a_name(x, y) ==> (r matches Err(Failure::DuplicateField(name))
                && has_name(x, name) && has_name(y, name) && done == s2)
            &&& !share_a_name(x, y) ==> (r matches Ok(Prim::Reference(id)) && position(
                done.table,
                e,
            ) == Some(id) && (position(s2.table, e) is None ==> id == s2.table.len()
                && done.table[id as int].body == Some(
                Named { name: Identity::Temporary(s2.temps), body: Shape::Struct(x + y) },
            )))
        }),
{
    let e = Expr::Intersection(Box::new(a), Box::new(b));
    let s2 = lower_operand(lower_operand(s, a, budget).0, b, budget).0;
    lemma_struct_intersection(x, y);
    if !share_a_name(x, y) {
        lemma_emit(s2, e, Shape::Struct(x + y));
        lemma_allocate(s2.table, e);
    }
}

/// Whether `shape` is a reference that has a body in `table`.
pub open spec fn leads_on(table: Seq<Entry>, shape: Shape) -> bool {
    shape matches Shape::Reference(id) && fetch(table, id) is Ok
}

/// The shape that a reference with a body leads to; any other shape itself.
pub open spec fn next_shape(table: Seq<Entry>, shape: Shape) -> Shape {
    match shape {
        Shape::Reference(id) => match fetch(table, id) {
            Ok(named) => named.body,
            Err(_) => shape,
        },
        _ => shape,
    }
}

/// The shape reached from `shape` after `k` references are followed.
pub open spec fn follow(table: Seq<Entry>, shape: Shape, k: nat) -> Shape
    decreases k,
{
    if k == 0 {
        shape
    } else {
        follow(table, next_shape(table, shape), (k - 1) as nat)
    }
}

/// Following `a` references and then `b` more is following `a + b`.
pub proof fn lemma_follow_add(table: Seq<Entry>, shape: Shape, a: nat, b: nat)
    ensures
        follow(table, shape, a + b) == follow(table, follow(table, shape, a), b),
    decreases a,
{
    if a > 0 {
        lemma_follow_add(table, next_shape(table, shape), (a - 1) as nat, b);
    }
}

/// Resolving reports a cyclic reference exactly where every shape reached
/// within the steps is a reference with a body.
pub proof fn lemma_cyclic_means_all_lead_on(table: Seq<Entry>, shape: Shape, steps: nat)
    ensures
        (resolve(table, shape, steps) matches Err(Failure::CyclicReference(_))) <==> forall|k: nat|
            k <= steps ==> leads_on(table, #[trigger] follow(table, shape, k)),
    decreases steps,
{
    if leads_on(table, shape) {
        if steps > 0 {
            let next = next_shape(table, shape);
            lemma_cyclic_means_all_lead_on(table, next, (steps - 1) as nat);
            if forall|k: nat|
                k <= steps - 1 ==> leads_on(table, #[trigger] follow(table, next, k)) {
                assert forall|k: nat| k <= steps implies leads_on(
                    table,
                    #[trigger] follow(table, shape, k),
                ) by {
                    if k > 0 {
                        assert(leads_on(table, follow(table, next, (k - 1) as nat)));
                    }
                }
            }
            if forall|k: nat| k <= steps ==> leads_on(table, #[trigger] follow(table, shape, k)) {
                assert forall|k: nat| k <= steps - 1 implies leads_on(
                    table,
                    #[trigger] follow(table, next, k),
                ) by {
                    assert(leads_on(table, follow(table, shape, k + 1)));
                }
            }
        } else {
            assert forall|k: nat| k <= steps implies leads_on(
                table,
                #[trigger] follow(table, shape, k),
            ) by {}
        }
    } else {
        assert(follow(table, shape, 0) == shape);
    }
}

/// Among more references with a body than the table has rows, two are the
/// same.
pub proof fn lemma_two_alike(table: Seq<Entry>, shape: Shape) -> (r: (nat, nat))
    requires
        forall|k: nat| k <= table.len() ==> leads_on(table, #[trigger] follow(table, shape, k)),
    ensures
        r.0 < r.1 <= table.len(),
        follow(table, shape, r.0) == follow(table, shape, r.1),
{
    let n = table.len();
    let ids = Seq::new((n + 1) as nat, |k: int| follow(table, shape, k as nat)->Reference_0 as int);
    assert forall|k: int| 0 <= k <= n implies 0 <= #[trigger] ids[k] < n by {
        assert(leads_on(table, follow(table, shape, k as nat)));
    }
    if ids.no_duplicates() {
        ids.unique_seq_to_set();
        vstd::set_lib::lemma_int_range(0, n as int);
        assert(ids.to_set().subset_of(vstd::set_lib::set_int_range(0, n as int))) by {
            assert forall|x: int| ids.to_set().contains(x) implies vstd::set_lib::set_int_range(
                0,
                n as int,
            ).contains(x) by {
                let k = choose|k: int| 0 <= k < ids.len() && ids[k] == x;
                assert(0 <= ids[k] < n);
            }
        }
        vstd::set_lib::lemma_len_subset(ids.to_set(), vstd::set_lib::set_int_range(0, n as int));
        assert(false);
    }
    let (i, j) = choose|i: int, j: int|
        0 <= i < ids.len() && 0 <= j < ids.len() && i != j && ids[i] == ids[j];
    let (a, b) = if i < j {
        (i as nat, j as nat)
    } else {
        (j as nat, i as nat)
    };
    assert(leads_on(table, follow(table, shape, a)));
    assert(leads_on(table, follow(table, shape, b)));
    assert(ids[a as int] == ids[b as int]);
    (a, b)
}

/// Where the references come back to a shape that was reached before, every
/// shape reached is a reference with a body, however many are followed.
pub proof fn lemma_round_and_round(table: Seq<Entry>, shape: Shape, a: nat, b: nat, k: nat)
    requires
        a < b,
        follow(table, shape, a) == follow(table, shape, b),
        forall|j: nat| j <= b ==> leads_on(table, #[trigger] follow(table, shape, j)),
    ensures
        leads_on(table, follow(table, shape, k)),
    decreases k,
{
    if k > b {
        let j = (k - b) as nat;
        lemma_follow_add(table, shape, b, j);
        lemma_follow_add(table, shape, a, j);
        lemma_round_and_round(table, shape, a, b, a + j);
    }
}

/// Following references for more steps than the table has rows finds
/// nothing new: what resolving gives within as many steps as the table has
/// rows, it gives within any greater number; and where it reports a cyclic
/// reference, it reports one however many steps it is given. So resolving
/// fails with a cyclic reference only where the references never end.
pub proof fn lemma_resolve_bound(table: Seq<Entry>, shape: Shape, more: nat)
    requires
        table.len() <= more,
    ensures
        (resolve(table, shape, table.len()) matches Err(Failure::CyclicReference(_))) ==> (resolve(
            table,
            shape,
            more,
        ) matches Err(Failure::CyclicReference(_))),
        !(resolve(table, shape, table.len()) matches Err(Failure::CyclicReference(_))) ==> resolve(
            table,
            shape,
            more,
        ) == resolve(table, shape, table.len()),
{
    lemma_cyclic_means_all_lead_on(table, shape, table.len());
    lemma_cyclic_means_all_lead_on(table, shape, more);
    if resolve(table, shape, table.len()) matches Err(Failure::CyclicReference(_)) {
        let (a, b) = lemma_two_alike(table, shape);
        assert forall|k: nat| k <= more implies leads_on(table, #[trigger] follow(table, shape, k)) by {
            assert forall|j: nat| j <= b implies leads_on(
                table,
                #[trigger] follow(table, shape, j),
            ) by {}
            lemma_round_and_round(table, shape, a, b, k);
        }
    } else {
        lemma_resolve_more_steps(table, shape, table.len(), more);
    }
}

/// What resolving gives within some steps, but for a cyclic reference, it
/// gives within more.
pub proof fn lemma_resolve_more_steps(table: Seq<Entry>, shape: Shape, steps: nat, more: nat)
    requires
        steps <= more,
        !(resolve(table, shape, steps) matches Err(Failure::CyclicReference(_))),
    ensures
        resolve(table, shape, more) == resolve(table, shape, steps),
    decreases steps,
{
    if let Shape::Reference(id) = shape {
        if fetch(table, id) is Ok {
            lemma_resolve_more_steps(
                table,
                table[id as int].body->0.body,
                (steps - 1) as nat,
                (more - 1) as nat,
            );
        }
    }
}

/// Resolving never fails for want of budget.
pub proof fn lemma_resolve_not_exhausted(table: Seq<Entry>, shape: Shape, steps: nat)
    ensures
        resolve(table, shape, steps) != Err::<Resolved, Failure>(Failure::Exhausted),
    decreases steps,
{
    if let Shape::Reference(id) = shape {
        if fetch(table, id) is Ok && steps > 0 {
            lemma_resolve_not_exhausted(table, table[id as int].body->0.body, (steps - 1) as nat);
        }
    }
}

/// The budget is used up only where the table has grown by more rows than
/// the budget: each unfolding that uses the budget has added a row. So a
/// lowering whose budget is the greatest number of rows that a table can
/// have never fails for want of budget.
pub proof fn lemma_exhausted_means_grown(s: Session, e: Expr, budget: nat)
    requires
        lower(s, e, budget).1 == Err::<Prim, Failure>(Failure::Exhausted),
    ensures
        lower(s, e, budget).0.table.len() > s.table.len() + budget,
    decreases budget, e, 1nat,
{
    match e {
        Expr::Builtin(_) => {},
        Expr::Variable(name) => {
            let body = instantiate_declared(s.env, name, Seq::empty())->Ok_0;
            lemma_unfold_exhausted_means_grown(
                s,
                Identity::Variable(name),
                e,
                body,
                budget,
            );
        },
        Expr::Generic(name, args) => {
            let body = instantiate_declared(s.env, name, args)->Ok_0;
            lemma_unfold_exhausted_means_grown(
                s,
                Identity::Generic(name, args),
                e,
                body,
                budget,
            );
        },
        Expr::Struct(fields) => {
            lemma_members_exhausted_means_grown(s, fields, fields.len(), budget);
        },
        Expr::Variant(options) => {
            lemma_members_exhausted_means_grown(s, options, options.len(), budget);
        },
        Expr::Intersection(a, b) => {
            let (s1, ra) = lower_operand(s, *a, budget);
            lemma_operand_follows(s, *a, budget);
            let (sa, pa) = lower(s, *a, budget);
            if pa is Ok {
                lemma_resolve_not_exhausted(sa.table, shape_of(pa->Ok_0), sa.table.len());
            }
            if ra is Err {
                lemma_exhausted_means_grown(s, *a, budget);
            } else {
                let (s2, rb) = lower_operand(s1, *b, budget);
                let (sb, pb) = lower(s1, *b, budget);
                if pb is Ok {
                    lemma_resolve_not_exhausted(sb.table, shape_of(pb->Ok_0), sb.table.len());
                }
                lemma_exhausted_means_grown(s1, *b, budget);
            }
        },
    }
}

/// The same of lowering the first `n` members of a struct or a variant.
pub proof fn lemma_members_exhausted_means_grown(
    s: Session,
    members: Seq<Member>,
    n: nat,
    budget: nat,
)
    requires
        lower_members(s, members, n, budget).1 == Err::<Seq<Slot>, Failure>(Failure::Exhausted),
    ensures
        lower_members(s, members, n, budget).0.table.len() > s.table.len() + budget,
    decreases budget, members, n,
{
    if n == 0 || n > members.len() {
    } else {
        let (s1, r1) = lower_members(s, members, (n - 1) as nat, budget);
        if r1 is Err {
            lemma_members_exhausted_means_grown(s, members, (n - 1) as nat, budget);
        } else {
            lemma_members_follow(s, members, (n - 1) as nat, budget);
            lemma_exhausted_means_grown(s1, members[n - 1].ty, budget);
        }
    }
}

/// The same of unfolding a name.
pub proof fn lemma_unfold_exhausted_means_grown(
    s: Session,
    name: Identity,
    key: Expr,
    body: Expr,
    budget: nat,
)
    requires
        unfold(s, name, key, body, budget).1 == Err::<(nat, bool), Failure>(Failure::Exhausted),
    ensures
        unfold(s, name, key, body, budget).0.table.len() > s.table.len() + budget,
    decreases budget, key, 0nat,
{
    let (table, id, fresh) = allocate(s.table, key);
    if budget > 0 {
        lemma_exhausted_means_grown(
            Session { table, env: s.env, temps: s.temps },
            body,
            (budget - 1) as nat,
        );
    }
}

/// A lowering that does not fail for want of budget gives the same with any
/// greater budget: but for that failure, the budget does not show.
pub proof fn lemma_budget_does_not_show(s: Session, e: Expr, budget: nat, more: nat)
    requires
        budget <= more,
        lower(s, e, budget).1 != Err::<Prim, Failure>(Failure::Exhausted),
    ensures
        lower(s, e, more) == lower(s, e, budget),
    decreases budget, e, 1nat,
{
    match e {
        Expr::Builtin(_) => {},
        Expr::Variable(name) => {
            if let Ok(body) = instantiate_declared(s.env, name, Seq::empty()) {
                lemma_unfold_budget_does_not_show(
                    s,
                    Identity::Variable(name),
                    e,
                    body,
                    budget,
                    more,
                );
            }
        },
        Expr::Generic(name, args) => {
            if let Ok(body) = instantiate_declared(s.env, name, args) {
                lemma_unfold_budget_does_not_show(
                    s,
                    Identity::Generic(name, args),
                    e,
                    body,
                    budget,
                    more,
                );
            }
        },
        Expr::Struct(fields) => {
            lemma_members_budget_does_not_show(s, fields, fields.len(), budget, more);
        },
        Expr::Variant(options) => {
            lemma_members_budget_does_not_show(s, options, options.len(), budget, more);
        },
        Expr::Intersection(a, b) => {
            let (s1, ra) = lower_operand(s, *a, budget);
            let (sa, pa) = lower(s, *a, budget);
            if pa is Ok {
                lemma_resolve_not_exhausted(sa.table, shape_of(pa->Ok_0), sa.table.len());
            }
            lemma_budget_does_not_show(s, *a, budget, more);
            if ra is Ok {
                let (sb, pb) = lower(s1, *b, budget);
                if pb is Ok {
                    lemma_resolve_not_exhausted(sb.table, shape_of(pb->Ok_0), sb.table.len());
                }
                lemma_budget_does_not_show(s1, *b, budget, more);
            }
        },
    }
}

/// The same of lowering the first `n` members of a struct or a variant.
pub proof fn lemma_members_budget_does_not_show(
    s: Session,
    members: Seq<Member>,
    n: nat,
    budget: nat,
    more: nat,
)
    requires
        budget <= more,
        lower_members(s, members, n, budget).1 != Err::<Seq<Slot>, Failure>(Failure::Exhausted),
    ensures
        lower_members(s, members, n, more) == lower_members(s, members, n, budget),
    decreases budget, members, n,
{
    if n == 0 || n > members.len() {
    } else {
        let (s1, r1) = lower_members(s, members, (n - 1) as nat, budget);
        lemma_members_budget_does_not_show(s, members, (n - 1) as nat, budget, more);
        if r1 is Ok {
            lemma_budget_does_not_show(s1, members[n - 1].ty, budget, more);
        }
    }
}

/// The same of unfolding a name.
pub proof fn lemma_unfold_budget_does_not_show(
    s: Session,
    name: Identity,
    key: Expr,
    body: Expr,
    budget: nat,
    more: nat,
)
    requires
        budget <= more,
        unfold(s, name, key, body, budget).1 != Err::<(nat, bool), Failure>(Failure::Exhausted),
    ensures
        unfold(s, name, key, body, more) == unfold(s, name, key, body, budget),
    decreases budget, key, 0nat,
{
    let (table, id, fresh) = allocate(s.table, key);
    if fresh {
        lemma_budget_does_not_show(
            Session { table, env: s.env, temps: s.temps },
            body,
            (budget - 1) as nat,
            (more - 1) as nat,
        );
    }
}

} // verus!
