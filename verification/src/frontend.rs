//! The compiler: a table that gives each distinct type expression one id,
//! the registry of declared types, and the lowering of type expressions into
//! the table.

use crate::ast::{
    clone_doc, lookup, substitute, Bindings, Expr, Member, TypeAliasDeclaration, TypeArgs,
    TypeExpression,
};
use crate::error::{CompileError, Failure};
use crate::ir::{
    merge, shape_of, IRType, Identity, Intersectable, Named, NamedIRType, Prim, PrimitiveStruct,
    PrimitiveStructField, PrimitiveType, PrimitiveVariant, PrimitiveVariantOption, Resolved,
    ResolvedIRType, Shape, Slot, TypeName,
};
use vstd::prelude::*;

verus! {

/// What a row of the table is: the expression that it was allocated for, and
/// the type stored for it, once it is stored.
pub struct Entry {
    pub key: Expr,
    pub body: Option<Named>,
}

/// What a `TypePrototype` is: the declared parameters and the body.
pub struct Proto {
    pub params: Seq<Seq<char>>,
    pub body: Expr,
}

/// What an `IRCompiler` is: the table, whose ids are its indices; the
/// declared types, in the order in which their names were first registered;
/// and the number of temporaries named so far.
pub struct Session {
    pub table: Seq<Entry>,
    pub env: Seq<(Seq<char>, Proto)>,
    pub temps: nat,
}

/// The id of `key` in `table`: the first row allocated for it, if any is.
pub open spec fn position(table: Seq<Entry>, key: Expr) -> Option<nat>
    decreases table.len(),
{
    if table.len() == 0 {
        None
    } else {
        match position(table.drop_last(), key) {
            Some(id) => Some(id),
            None => if table.last().key == key {
                Some((table.len() - 1) as nat)
            } else {
                None
            },
        }
    }
}

/// The table after `key` is looked up and, where it has no row, given the
/// next one; the id of its row; and whether the row is new.
pub open spec fn allocate(table: Seq<Entry>, key: Expr) -> (Seq<Entry>, nat, bool) {
    match position(table, key) {
        Some(id) => (table, id, false),
        None => (table.push(Entry { key, body: None }), table.len(), true),
    }
}

/// The table with `named` stored in the row `id`.
pub open spec fn store(table: Seq<Entry>, id: nat, named: Named) -> Seq<Entry> {
    if id < table.len() {
        table.update(id as int, Entry { key: table[id as int].key, body: Some(named) })
    } else {
        table
    }
}

/// The type stored in the row `id`; a broken reference where nothing is.
pub open spec fn fetch(table: Seq<Entry>, id: nat) -> Result<Named, Failure> {
    if id < table.len() && table[id as int].body is Some {
        Ok(table[id as int].body->0)
    } else {
        Err(Failure::BrokenReference(id))
    }
}

/// The prototype registered under `name`, if one is.
pub open spec fn declared(env: Seq<(Seq<char>, Proto)>, name: Seq<char>) -> Option<Proto>
    decreases env.len(),
{
    if env.len() == 0 {
        None
    } else if env[0].0 == name {
        Some(env[0].1)
    } else {
        declared(env.drop_first(), name)
    }
}

/// The number of leading declarations of `env` that are not of `name`.
pub open spec fn declared_at(env: Seq<(Seq<char>, Proto)>, name: Seq<char>) -> int
    decreases env.len(),
{
    if env.len() == 0 || env[0].0 == name {
        0
    } else {
        1 + declared_at(env.drop_first(), name)
    }
}

/// `env` with `proto` registered under `name`: in place of the prototype
/// that was registered under the name, else at the end.
pub open spec fn register(env: Seq<(Seq<char>, Proto)>, name: Seq<char>, proto: Proto) -> Seq<
    (Seq<char>, Proto),
> {
    let at = declared_at(env, name);
    if at < env.len() {
        env.update(at, (name, proto))
    } else {
        env.push((name, proto))
    }
}

/// The first of the first `n` parameters that `args` does not bind.
pub open spec fn unbound_param(params: Seq<Seq<char>>, args: Bindings, n: nat) -> Option<Seq<char>>
    decreases n,
{
    if n == 0 || n > params.len() {
        None
    } else {
        match unbound_param(params, args, (n - 1) as nat) {
            Some(name) => Some(name),
            None => if lookup(args, params[n - 1]) is None {
                Some(params[n - 1])
            } else {
                None
            },
        }
    }
}

/// The first of the first `n` names bound by `args` that is no parameter.
pub open spec fn undeclared_arg(params: Seq<Seq<char>>, args: Bindings, n: nat) -> Option<Seq<char>>
    decreases n,
{
    if n == 0 || n > args.len() {
        None
    } else {
        match undeclared_arg(params, args, (n - 1) as nat) {
            Some(name) => Some(name),
            None => if !params.contains(args[n - 1].0) {
                Some(args[n - 1].0)
            } else {
                None
            },
        }
    }
}

/// The body of `proto` with `args` substituted for the parameters. Fails
/// with the first parameter that `args` does not bind, else with the first
/// name that `args` binds and that is no parameter.
pub open spec fn instantiate(proto: Proto, args: Bindings) -> Result<Expr, Failure> {
    match unbound_param(proto.params, args, proto.params.len()) {
        Some(name) => Err(Failure::ParameterMismatch(name)),
        None => match undeclared_arg(proto.params, args, args.len()) {
            Some(name) => Err(Failure::ParameterMismatch(name)),
            None => Ok(substitute(proto.body, args)),
        },
    }
}

/// The instantiation with `args` of the type declared under `name`.
pub open spec fn instantiate_declared(
    env: Seq<(Seq<char>, Proto)>,
    name: Seq<char>,
    args: Bindings,
) -> Result<Expr, Failure> {
    match declared(env, name) {
        None => Err(Failure::UnknownType(name)),
        Some(proto) => instantiate(proto, args),
    }
}

/// The shape that `shape` leads to when references are followed through
/// `table`, at most `steps` of them. Fails with a broken reference where a
/// reference has no body, and with a cyclic reference where `steps`
/// references were followed and another one stands there.
pub open spec fn resolve(table: Seq<Entry>, shape: Shape, steps: nat) -> Result<Resolved, Failure>
    decreases steps,
{
    match shape {
        Shape::Struct(fields) => Ok(Resolved::Struct(fields)),
        Shape::Variant(options) => Ok(Resolved::Variant(options)),
        Shape::Builtin(kind) => Ok(Resolved::Builtin(kind)),
        Shape::Reference(id) => match fetch(table, id) {
            Err(f) => Err(f),
            Ok(named) => if steps == 0 {
                Err(Failure::CyclicReference(id))
            } else {
                resolve(table, named.body, (steps - 1) as nat)
            },
        },
    }
}

/// The intersection of two resolved types: of two structs, or of two
/// variants, the members of the first followed by those of the second, where
/// no name is in both.
pub open spec fn intersection(a: Resolved, b: Resolved) -> Result<Shape, Failure> {
    match (a, b) {
        (Resolved::Struct(x), Resolved::Struct(y)) => match merge(x, y) {
            Ok(fields) => Ok(Shape::Struct(fields)),
            Err(name) => Err(Failure::DuplicateField(name)),
        },
        (Resolved::Variant(x), Resolved::Variant(y)) => match merge(x, y) {
            Ok(options) => Ok(Shape::Variant(options)),
            Err(name) => Err(Failure::DuplicateOption(name)),
        },
        _ => Err(Failure::IncompatibleIntersection),
    }
}

/// The session after the aggregate `body` is stored for `key` under the next
/// temporary name, where `key` has no row yet; the id of the row of `key`;
/// and whether the row is new.
pub open spec fn emit(s: Session, key: Expr, body: Shape) -> (Session, nat, bool) {
    let (table, id, fresh) = allocate(s.table, key);
    if fresh {
        (
            Session {
                table: store(table, id, Named { name: Identity::Temporary(s.temps), body }),
                env: s.env,
                temps: s.temps + 1,
            },
            id,
            true,
        )
    } else {
        (s, id, false)
    }
}

/// The session after `key` is given a row and, where the row is new, `body`
/// is lowered and stored in it under `name`; the id of the row; and whether
/// it is new. `budget` bounds how deep such rows may nest.
pub open spec fn unfold(s: Session, name: Identity, key: Expr, body: Expr, budget: nat) -> (
    Session,
    Result<(nat, bool), Failure>,
)
    decreases budget, key, 0nat,
{
    let (table, id, fresh) = allocate(s.table, key);
    if !fresh {
        (s, Ok((id, false)))
    } else if budget == 0 {
        (Session { table, env: s.env, temps: s.temps }, Err(Failure::Exhausted))
    } else {
        let (s1, r) = lower(
            Session { table, env: s.env, temps: s.temps },
            body,
            (budget - 1) as nat,
        );
        match r {
            Err(f) => (s1, Err(f)),
            Ok(p) => (
                Session {
                    table: store(s1.table, id, Named { name, body: shape_of(p) }),
                    env: s1.env,
                    temps: s1.temps,
                },
                Ok((id, true)),
            ),
        }
    }
}

/// The session after the first `n` of `members` are lowered in order, and
/// the lowered members; the first failure stops it.
pub open spec fn lower_members(s: Session, members: Seq<Member>, n: nat, budget: nat) -> (
    Session,
    Result<Seq<Slot>, Failure>,
)
    decreases budget, members, n,
{
    if n == 0 || n > members.len() {
        (s, Ok(Seq::empty()))
    } else {
        let (s1, r1) = lower_members(s, members, (n - 1) as nat, budget);
        match r1 {
            Err(f) => (s1, Err(f)),
            Ok(slots) => {
                let m = members[n - 1];
                let (s2, r2) = lower(s1, m.ty, budget);
                match r2 {
                    Err(f) => (s2, Err(f)),
                    Ok(p) => (s2, Ok(slots.push(Slot { name: m.name, ty: p, doc: m.doc }))),
                }
            },
        }
    }
}

/// The session after `e` is lowered, and the primitive type that stands for
/// `e`: the builtin itself, else a reference to the row of `e`.
///
/// A builtin changes nothing. A variable or a generic application is
/// instantiated from its declaration and unfolded under its own identity. A
/// struct or a variant has its members lowered in order and is stored under
/// a temporary name, unless it has a row already. An intersection has its
/// operands lowered and resolved, the left one first, and their merge stored
/// under a temporary name, unless it has a row already.
pub open spec fn lower(s: Session, e: Expr, budget: nat) -> (Session, Result<Prim, Failure>)
    decreases budget, e, 1nat,
{
    match e {
        Expr::Builtin(kind) => (s, Ok(Prim::Builtin(kind))),
        Expr::Variable(name) => match instantiate_declared(s.env, name, Seq::empty()) {
            Err(f) => (s, Err(f)),
            Ok(body) => referred(unfold(s, Identity::Variable(name), e, body, budget)),
        },
        Expr::Generic(name, args) => match instantiate_declared(s.env, name, args) {
            Err(f) => (s, Err(f)),
            Ok(body) => referred(unfold(s, Identity::Generic(name, args), e, body, budget)),
        },
        Expr::Struct(fields) => {
            let (s1, r) = lower_members(s, fields, fields.len(), budget);
            match r {
                Err(f) => (s1, Err(f)),
                Ok(slots) => {
                    let (s2, id, _) = emit(s1, e, Shape::Struct(slots));
                    (s2, Ok(Prim::Reference(id)))
                },
            }
        },
        Expr::Variant(options) => {
            let (s1, r) = lower_members(s, options, options.len(), budget);
            match r {
                Err(f) => (s1, Err(f)),
                Ok(slots) => {
                    let (s2, id, _) = emit(s1, e, Shape::Variant(slots));
                    (s2, Ok(Prim::Reference(id)))
                },
            }
        },
        Expr::Intersection(a, b) => {
            let (s1, ra) = lower_operand(s, *a, budget);
            match ra {
                Err(f) => (s1, Err(f)),
                Ok(left) => {
                    let (s2, rb) = lower_operand(s1, *b, budget);
                    match rb {
                        Err(f) => (s2, Err(f)),
                        Ok(right) => match intersection(left, right) {
                            Err(f) => (s2, Err(f)),
                            Ok(shape) => {
                                let (s3, id, _) = emit(s2, e, shape);
                                (s3, Ok(Prim::Reference(id)))
                            },
                        },
                    }
                },
            }
        },
    }
}

/// The session after the operand `e` of an intersection is lowered, and
/// what the lowered operand resolves to in that session.
pub open spec fn lower_operand(s: Session, e: Expr, budget: nat) -> (
    Session,
    Result<Resolved, Failure>,
)
    decreases budget, e, 2nat,
{
    let (s1, r) = lower(s, e, budget);
    match r {
        Err(f) => (s1, Err(f)),
        Ok(p) => (s1, resolve(s1.table, shape_of(p), s1.table.len())),
    }
}

/// The outcome of an unfolding as that of a lowering: a reference to the row.
pub open spec fn referred(outcome: (Session, Result<(nat, bool), Failure>)) -> (
    Session,
    Result<Prim, Failure>,
) {
    match outcome.1 {
        Ok((id, _)) => (outcome.0, Ok(Prim::Reference(id))),
        Err(f) => (outcome.0, Err(f)),
    }
}

/// What `position` gives: the first row of the key, and none where no row
/// is of the key.
pub proof fn lemma_position(table: Seq<Entry>, key: Expr)
    ensures
        match position(table, key) {
            Some(id) => id < table.len() && table[id as int].key == key && forall|j: int|
                0 <= j < id ==> (#[trigger] table[j]).key != key,
            None => forall|j: int| 0 <= j < table.len() ==> (#[trigger] table[j]).key != key,
        },
    decreases table.len(),
{
    if table.len() > 0 {
        let front = table.drop_last();
        lemma_position(front, key);
        assert forall|j: int| 0 <= j < front.len() implies front[j] == table[j] by {}
        match position(front, key) {
            Some(id) => {
                assert(table[id as int] == front[id as int]);
                assert forall|j: int| 0 <= j < id implies (#[trigger] table[j]).key != key by {
                    assert(front[j] == table[j]);
                }
            },
            None => {
                assert forall|j: int| 0 <= j < table.len() - 1 implies (#[trigger] table[j]).key
                    != key by {
                    assert(front[j] == table[j]);
                }
            },
        }
    }
}

/// The first row of a key is its position.
pub proof fn lemma_position_is(table: Seq<Entry>, key: Expr, id: nat)
    requires
        id < table.len(),
        table[id as int].key == key,
        forall|j: int| 0 <= j < id ==> (#[trigger] table[j]).key != key,
    ensures
        position(table, key) == Some(id),
{
    lemma_position(table, key);
}

/// What `declared` gives: the first declaration of the name, which stands
/// at `declared_at`; and none where the name is not declared.
pub proof fn lemma_declared(env: Seq<(Seq<char>, Proto)>, name: Seq<char>)
    ensures
        0 <= declared_at(env, name) <= env.len(),
        forall|j: int| 0 <= j < declared_at(env, name) ==> (#[trigger] env[j]).0 != name,
        declared_at(env, name) < env.len() ==> env[declared_at(env, name)].0 == name && declared(
            env,
            name,
        ) == Some(env[declared_at(env, name)].1),
        declared_at(env, name) == env.len() ==> declared(env, name) is None,
    decreases env.len(),
{
    if env.len() > 0 && env[0].0 != name {
        let rest = env.drop_first();
        lemma_declared(rest, name);
        assert forall|j: int| 0 <= j < declared_at(env, name) implies (#[trigger] env[j]).0
            != name by {
            if j > 0 {
                assert(env[j] == rest[j - 1]);
            }
        }
        if declared_at(env, name) < env.len() {
            assert(env[declared_at(env, name)] == rest[declared_at(rest, name)]);
        }
    }
}

/// Once lowering a member has failed, the members after it are not lowered.
pub proof fn lemma_members_failed(s: Session, members: Seq<Member>, k: nat, n: nat, budget: nat)
    requires
        k <= n <= members.len(),
        lower_members(s, members, k, budget).1 is Err,
    ensures
        lower_members(s, members, n, budget) == lower_members(s, members, k, budget),
    decreases n,
{
    if n > k {
        lemma_members_failed(s, members, k, (n - 1) as nat, budget);
    }
}

/// One row of the table.
#[derive(Debug)]
struct Allocation {
    key: TypeExpression,
    named: Option<NamedIRType>,
}

/// The table of allocated types. Each distinct type expression has one row;
/// the ids are the indices of the rows, in the order of first encounter.
#[derive(Debug)]
pub struct TypeAllocator {
    rows: Vec<Allocation>,
}

/// What a stored type is, if it is stored.
pub open spec fn named_view(named: Option<NamedIRType>) -> Option<Named> {
    match named {
        Some(n) => Some(n@),
        None => None,
    }
}

impl View for TypeAllocator {
    type V = Seq<Entry>;

    closed spec fn view(&self) -> Seq<Entry> {
        Seq::new(
            self.rows@.len(),
            |i: int| Entry { key: self.rows@[i].key@, body: named_view(self.rows@[i].named) },
        )
    }
}

/// What the outcome of a lookup in the table is.
pub open spec fn fetched_view(r: Result<&NamedIRType, CompileError>) -> Result<Named, Failure> {
    match r {
        Ok(named) => Ok(named@),
        Err(e) => Err(e@),
    }
}

impl TypeAllocator {
    /// The empty table.
    pub fn new() -> (r: TypeAllocator)
        ensures
            r@ == Seq::<Entry>::empty(),
    {
        let r = TypeAllocator { rows: Vec::new() };
        proof {
            assert(r@ =~= Seq::<Entry>::empty());
        }
        r
    }

    /// The number of rows, which is the next id.
    pub fn len(&self) -> (n: usize)
        ensures
            n == self@.len(),
    {
        self.rows.len()
    }

    /// The id of `t`, and whether it is new: the id that `t` was given
    /// before, or else the next one, with a row for `t` that has no body yet.
    pub fn allocate(&mut self, t: &TypeExpression) -> (r: (usize, bool))
        ensures
            (final(self)@, r.0 as nat, r.1) == allocate(old(self)@, t@),
            final(self)@.len() <= usize::MAX,
    {
        proof {
            lemma_position(self@, t@);
        }
        let mut i: usize = 0;
        while i < self.rows.len()
            invariant
                i <= self.rows.len(),
                self.rows@.len() == self@.len(),
                forall|j: int| 0 <= j < i ==> (#[trigger] self@[j]).key != t@,
            decreases self.rows.len() - i,
        {
            if self.rows[i].key.same(t) {
                proof {
                    lemma_position_is(self@, t@, i as nat);
                }
                return (i, false);
            }
            i = i + 1;
        }
        let id = self.rows.len();
        self.rows.push(Allocation { key: t.clone(), named: None });
        proof {
            assert(self@ =~= old(self)@.push(Entry { key: t@, body: None }));
            assert(self.rows.len() == self@.len());
        }
        (id, true)
    }

    /// Stores `t` under the identity `name` in the row `id`, in place of what
    /// the row held.
    pub fn set(&mut self, id: usize, name: TypeName, t: IRType)
        requires
            id < old(self)@.len(),
        ensures
            final(self)@ == store(old(self)@, id as nat, Named { name: name@, body: t@ }),
    {
        let key = self.rows[id].key.clone();
        self.rows.set(id, Allocation { key, named: Some(NamedIRType { name, t }) });
        proof {
            assert(self@ =~= store(old(self)@, id as nat, Named { name: name@, body: t@ }));
        }
    }

    /// The type stored in the row `id`. Fails with `BrokenReference` where
    /// there is no such row, or nothing is stored in it.
    pub fn get(&self, id: usize) -> (r: Result<&NamedIRType, CompileError>)
        ensures
            fetched_view(r) == fetch(self@, id as nat),
    {
        if id < self.rows.len() {
            match &self.rows[id].named {
                Some(named) => Ok(named),
                None => Err(CompileError::BrokenReference(id)),
            }
        } else {
            Err(CompileError::BrokenReference(id))
        }
    }

    /// Follows the references from `t` through the table, and returns the
    /// struct, variant or builtin that they lead to. Fails with
    /// `BrokenReference` where a reference has no body in the table, and
    /// with `CyclicReference` where as many references as the table has rows
    /// were followed and another one stands there.
    pub fn resolve(&self, t: &IRType) -> (r: Result<ResolvedIRType, CompileError>)
        ensures
            resolved_view(r) == resolve(self@, t@, self@.len()),
    {
        self.resolve_within(t, self.rows.len())
    }

    fn resolve_within(&self, t: &IRType, steps: usize) -> (r: Result<ResolvedIRType, CompileError>)
        ensures
            resolved_view(r) == resolve(self@, t@, steps as nat),
        decreases steps,
    {
        match t {
            IRType::Struct(fields) => Ok(ResolvedIRType::Struct(fields.clone())),
            IRType::Variant(variants) => Ok(ResolvedIRType::Variant(variants.clone())),
            IRType::Builtin(kind) => Ok(ResolvedIRType::Builtin(*kind)),
            IRType::Reference(id) => match self.get(*id) {
                Err(e) => Err(e),
                Ok(named) => if steps == 0 {
                    Err(CompileError::CyclicReference(*id))
                } else {
                    self.resolve_within(&named.t, steps - 1)
                },
            },
        }
    }

    /// The expression that the row `id` was allocated for.
    pub fn key(&self, id: usize) -> (k: &TypeExpression)
        requires
            id < self@.len(),
        ensures
            k@ == self@[id as int].key,
    {
        &self.rows[id].key
    }
}

/// A declared type before instantiation: its parameters and its body.
#[derive(Debug)]
pub struct TypePrototype {
    pub params: Vec<String>,
    pub type_: TypeExpression,
}

impl View for TypePrototype {
    type V = Proto;

    open spec fn view(&self) -> Proto {
        Proto { params: Seq::new(self.params@.len(), |i: int| self.params@[i]@), body: self.type_@ }
    }
}

/// A copy of a list of names.
pub fn clone_names(names: &Vec<String>) -> (r: Vec<String>)
    ensures
        r@.len() == names@.len(),
        forall|k: int| 0 <= k < r@.len() ==> (#[trigger] r@[k])@ == names@[k]@,
{
    let mut out: Vec<String> = Vec::new();
    let mut i: usize = 0;
    while i < names.len()
        invariant
            i <= names.len(),
            out@.len() == i,
            forall|k: int| 0 <= k < i ==> (#[trigger] out@[k])@ == names@[k]@,
        decreases names.len() - i,
    {
        out.push(names[i].clone());
        i = i + 1;
    }
    out
}

impl Clone for TypePrototype {
    fn clone(&self) -> (r: TypePrototype)
        ensures
            r@ == self@,
    {
        let r = TypePrototype { params: clone_names(&self.params), type_: self.type_.clone() };
        proof {
            assert(r@.params =~= self@.params);
        }
        r
    }
}

/// What the outcome of an instantiation is.
pub open spec fn instance_view(r: Result<TypeExpression, CompileError>) -> Result<Expr, Failure> {
    match r {
        Ok(e) => Ok(e@),
        Err(e) => Err(e@),
    }
}

impl TypePrototype {
    /// Whether `name` is one of the declared parameters.
    pub fn declares(&self, name: &String) -> (r: bool)
        ensures
            r == self@.params.contains(name@),
    {
        let mut i: usize = 0;
        while i < self.params.len()
            invariant
                i <= self.params.len(),
                forall|k: int| 0 <= k < i ==> (#[trigger] self@.params[k]) != name@,
            decreases self.params.len() - i,
        {
            if self.params[i] == *name {
                proof {
                    assert(self@.params[i as int] == name@);
                }
                return true;
            }
            i = i + 1;
        }
        false
    }

    /// The body with `args` substituted for the parameters. Fails with
    /// `ParameterMismatch` unless `args` binds every parameter and nothing
    /// else; the error names the first parameter without an argument, else
    /// the first argument that is no parameter.
    pub fn unify(&self, args: &TypeArgs) -> (r: Result<TypeExpression, CompileError>)
        ensures
            instance_view(r) == instantiate(self@, args@),
    {
        let mut i: usize = 0;
        while i < self.params.len()
            invariant
                i <= self.params.len(),
                unbound_param(self@.params, args@, i as nat) is None,
            decreases self.params.len() - i,
        {
            if args.get(self.params[i].as_str()).is_none() {
                proof {
                    lemma_unbound_found(self@.params, args@, (i + 1) as nat, self@.params.len());
                }
                return Err(CompileError::ParameterMismatch(self.params[i].clone()));
            }
            i = i + 1;
        }
        let mut j: usize = 0;
        while j < args.len()
            invariant
                j <= args@.len(),
                unbound_param(self@.params, args@, self@.params.len()) is None,
                undeclared_arg(self@.params, args@, j as nat) is None,
            decreases args@.len() - j,
        {
            if !self.declares(args.key(j)) {
                proof {
                    lemma_undeclared_found(self@.params, args@, (j + 1) as nat, args@.len());
                }
                return Err(CompileError::ParameterMismatch(args.key(j).clone()));
            }
            j = j + 1;
        }
        Ok(self.type_.unify(args))
    }
}

/// Once a parameter without an argument is found, it is the one reported.
pub proof fn lemma_unbound_found(params: Seq<Seq<char>>, args: Bindings, k: nat, n: nat)
    requires
        k <= n <= params.len(),
        unbound_param(params, args, k) is Some,
    ensures
        unbound_param(params, args, n) == unbound_param(params, args, k),
    decreases n,
{
    if n > k {
        lemma_unbound_found(params, args, k, (n - 1) as nat);
    }
}

/// Once an argument that is no parameter is found, it is the one reported.
pub proof fn lemma_undeclared_found(params: Seq<Seq<char>>, args: Bindings, k: nat, n: nat)
    requires
        k <= n <= args.len(),
        undeclared_arg(params, args, k) is Some,
    ensures
        undeclared_arg(params, args, n) == undeclared_arg(params, args, k),
    decreases n,
{
    if n > k {
        lemma_undeclared_found(params, args, k, (n - 1) as nat);
    }
}

/// The compiler: the table, the declared types and the count of temporary
/// names.
#[derive(Debug)]
pub struct IRCompiler {
    allocator: TypeAllocator,
    type_env: Vec<(String, TypePrototype)>,
    next_temporary_id: usize,
}

impl View for IRCompiler {
    type V = Session;

    closed spec fn view(&self) -> Session {
        Session {
            table: self.allocator@,
            env: Seq::new(
                self.type_env@.len(),
                |i: int| (self.type_env@[i].0@, self.type_env@[i].1@),
            ),
            temps: self.next_temporary_id as nat,
        }
    }
}

/// What the outcome of a lowering is.
pub open spec fn lowered_view(r: Result<PrimitiveType, CompileError>) -> Result<Prim, Failure> {
    match r {
        Ok(p) => Ok(p@),
        Err(e) => Err(e@),
    }
}

/// What the outcome of an unfolding is.
pub open spec fn unfolded_view(r: Result<(usize, bool), CompileError>) -> Result<
    (nat, bool),
    Failure,
> {
    match r {
        Ok((id, fresh)) => Ok((id as nat, fresh)),
        Err(e) => Err(e@),
    }
}

/// What the outcome of resolving is.
pub open spec fn resolved_view(r: Result<ResolvedIRType, CompileError>) -> Result<
    Resolved,
    Failure,
> {
    match r {
        Ok(t) => Ok(t@),
        Err(e) => Err(e@),
    }
}

/// The rows among the first `n` of `table` that have a body, with their ids.
pub open spec fn stored(table: Seq<Entry>, n: nat) -> Seq<(nat, Named)>
    decreases n,
{
    if n == 0 || n > table.len() {
        Seq::empty()
    } else if table[n - 1].body is Some {
        stored(table, (n - 1) as nat).push(((n - 1) as nat, table[n - 1].body->0))
    } else {
        stored(table, (n - 1) as nat)
    }
}

impl IRCompiler {
    /// Whether the compiler is in order: no more temporaries were named than
    /// the table has rows.
    pub open spec fn wf(&self) -> bool {
        self@.temps <= self@.table.len()
    }

    /// A compiler with an empty table and no declared type.
    pub fn new() -> (r: IRCompiler)
        ensures
            r.wf(),
            r@ == (Session { table: Seq::empty(), env: Seq::empty(), temps: 0 }),
    {
        let r = IRCompiler {
            allocator: TypeAllocator::new(),
            type_env: Vec::new(),
            next_temporary_id: 0,
        };
        proof {
            assert(r@.env =~= Seq::empty());
        }
        r
    }

    /// The table.
    pub fn allocator(&self) -> (r: &TypeAllocator)
        ensures
            r@ == self@.table,
    {
        &self.allocator
    }

    /// Declares `t` under `name`, in place of what was declared under it.
    pub fn register_global_type(&mut self, name: String, t: TypePrototype)
        requires
            old(self).wf(),
        ensures
            final(self).wf(),
            final(self)@ == (Session {
                table: old(self)@.table,
                env: register(old(self)@.env, name@, t@),
                temps: old(self)@.temps,
            }),
    {
        proof {
            lemma_declared(self@.env, name@);
        }
        let mut i: usize = 0;
        while i < self.type_env.len()
            invariant
                i <= self.type_env.len(),
                self.type_env@.len() == self@.env.len(),
                *self == *old(self),
                self.wf(),
                forall|j: int| 0 <= j < i ==> (#[trigger] self@.env[j]).0 != name@,
            decreases self.type_env.len() - i,
        {
            if self.type_env[i].0 == name {
                proof {
                    lemma_declared_is(self@.env, name@, i as int);
                }
                self.type_env.set(i, (name, t));
                proof {
                    assert(self@.env =~= register(old(self)@.env, name@, t@));
                }
                return ;
            }
            i = i + 1;
        }
        proof {
            lemma_declared_is(self@.env, name@, i as int);
        }
        self.type_env.push((name, t));
        proof {
            assert(self@.env =~= register(old(self)@.env, name@, t@));
        }
    }

    /// The stored types with their ids, in ascending order of the ids.
    pub fn iter_types(&self) -> (r: Vec<(usize, NamedIRType)>)
        ensures
            r@.len() == stored(self@.table, self@.table.len()).len(),
            forall|k: int|
                0 <= k < r@.len() ==> ((#[trigger] r@[k]).0 as nat, r@[k].1@) == stored(
                    self@.table,
                    self@.table.len(),
                )[k],
    {
        let mut out: Vec<(usize, NamedIRType)> = Vec::new();
        let mut i: usize = 0;
        while i < self.allocator.len()
            invariant
                i <= self@.table.len(),
                out@.len() == stored(self@.table, i as nat).len(),
                forall|k: int|
                    0 <= k < out@.len() ==> ((#[trigger] out@[k]).0 as nat, out@[k].1@) == stored(
                        self@.table,
                        i as nat,
                    )[k],
            decreases self@.table.len() - i,
        {
            match self.allocator.get(i) {
                Ok(named) => {
                    out.push((i, named.clone()));
                },
                Err(_) => {},
            }
            i = i + 1;
        }
        out
    }

    /// The declared types with their names, in the order in which the names
    /// were first declared.
    pub fn iter_globals(&self) -> (r: Vec<(String, TypePrototype)>)
        ensures
            r@.len() == self@.env.len(),
            forall|k: int| 0 <= k < r@.len() ==> ((#[trigger] r@[k]).0@, r@[k].1@) == self@.env[k],
    {
        let mut out: Vec<(String, TypePrototype)> = Vec::new();
        let mut i: usize = 0;
        while i < self.type_env.len()
            invariant
                i <= self.type_env.len(),
                self.type_env@.len() == self@.env.len(),
                out@.len() == i,
                forall|k: int| 0 <= k < i ==> ((#[trigger] out@[k]).0@, out@[k].1@) == self@.env[k],
            decreases self.type_env.len() - i,
        {
            out.push((self.type_env[i].0.clone(), self.type_env[i].1.clone()));
            i = i + 1;
        }
        out
    }

    /// The prototype declared under `name`, if one is.
    pub fn global(&self, name: &String) -> (r: Option<&TypePrototype>)
        ensures
            match r {
                Some(proto) => declared(self@.env, name@) == Some(proto@),
                None => declared(self@.env, name@) is None,
            },
    {
        let mut i: usize = 0;
        while i < self.type_env.len()
            invariant
                i <= self.type_env.len(),
                self.type_env@.len() == self@.env.len(),
                forall|j: int| 0 <= j < i ==> (#[trigger] self@.env[j]).0 != name@,
            decreases self.type_env.len() - i,
        {
            if self.type_env[i].0 == *name {
                proof {
                    lemma_declared_is(self@.env, name@, i as int);
                    lemma_declared(self@.env, name@);
                }
                return Some(&self.type_env[i].1);
            }
            i = i + 1;
        }
        proof {
            lemma_declared_is(self@.env, name@, i as int);
            lemma_declared(self@.env, name@);
        }
        None
    }

    /// The instantiation with `args` of the type declared under `name`.
    /// Fails with `UnknownType` where no type is declared under `name`, and
    /// with `ParameterMismatch` where `args` does not bind exactly the
    /// declared parameters.
    pub fn instantiate(&self, name: &String, args: &TypeArgs) -> (r: Result<
        TypeExpression,
        CompileError,
    >)
        ensures
            instance_view(r) == instantiate_declared(self@.env, name@, args@),
    {
        match self.global(name) {
            None => Err(CompileError::UnknownType(name.clone())),
            Some(proto) => proto.unify(args),
        }
    }

    /// Follows the references from `t` through the table, and returns the
    /// struct, variant or builtin that they lead to. Fails with
    /// `BrokenReference` where a reference has no body in the table, and
    /// with `CyclicReference` where the references come back to one another.
    pub fn resolve_ir_type(&self, t: &IRType) -> (r: Result<ResolvedIRType, CompileError>)
        ensures
            resolved_view(r) == resolve(self@.table, t@, self@.table.len()),
    {
        self.allocator.resolve(t)
    }

    /// Gives `type_var` a row and, where the row is new, lowers `t` and
    /// stores what it lowers to in the row, under `name`. Returns the id of
    /// the row and whether it is new. Fails as lowering `t` fails.
    pub fn compile_force_allocation(
        &mut self,
        name: TypeName,
        type_var: &TypeExpression,
        t: &TypeExpression,
    ) -> (r: Result<(usize, bool), CompileError>)
        requires
            old(self).wf(),
        ensures
            final(self).wf(),
            (final(self)@, unfolded_view(r)) == unfold(
                old(self)@,
                name@,
                type_var@,
                t@,
                usize::MAX as nat,
            ),
    {
        self.unfold_within(name, type_var, t, usize::MAX)
    }

    fn unfold_within(
        &mut self,
        name: TypeName,
        type_var: &TypeExpression,
        t: &TypeExpression,
        budget: usize,
    ) -> (r: Result<(usize, bool), CompileError>)
        requires
            old(self).wf(),
            budget + old(self)@.table.len() >= usize::MAX,
        ensures
            final(self).wf(),
            final(self)@.table.len() >= old(self)@.table.len(),
            (final(self)@, unfolded_view(r)) == unfold(
                old(self)@,
                name@,
                type_var@,
                t@,
                budget as nat,
            ),
        decreases budget, type_var, 0nat,
    {
        let (alloc_id, fresh) = self.allocator.allocate(type_var);
        if fresh {
            match self.lower_within(t, budget - 1) {
                Err(e) => Err(e),
                Ok(inner) => {
                    self.allocator.set(alloc_id, name, IRType::from(inner));
                    Ok((alloc_id, true))
                },
            }
        } else {
            Ok((alloc_id, false))
        }
    }

    /// Stores the aggregate `p` for `t` under the next temporary name, where
    /// `t` has no row yet. Returns the id of the row of `t` and whether it is
    /// new.
    pub fn eager_emit_temporary(&mut self, t: &TypeExpression, p: IRType) -> (r: (usize, bool))
        requires
            old(self).wf(),
        ensures
            final(self).wf(),
            final(self)@.table.len() >= old(self)@.table.len(),
            (final(self)@, r.0 as nat, r.1) == emit(old(self)@, t@, p@),
    {
        let (alloc_id, fresh) = self.allocator.allocate(t);
        if fresh {
            self.allocator.set(alloc_id, TypeName::Temporary(self.next_temporary_id), p);
            self.next_temporary_id = self.next_temporary_id + 1;
        }
        (alloc_id, fresh)
    }

    /// Compiles the declared type `name` with the body `t`: gives the
    /// variable `name` a row and, where the row is new, stores in it what `t`
    /// lowers to. Returns the id of the row and whether it is new.
    pub fn compile_global(&mut self, name: String, t: &TypeExpression) -> (r: Result<
        (usize, bool),
        CompileError,
    >)
        requires
            old(self).wf(),
        ensures
            final(self).wf(),
            (final(self)@, unfolded_view(r)) == unfold(
                old(self)@,
                Identity::Variable(name@),
                Expr::Variable(name@),
                t@,
                usize::MAX as nat,
            ),
    {
        let var_expression = TypeExpression::Variable(name.clone());
        self.compile_force_allocation(TypeName::Variable(name), &var_expression, t)
    }

    /// Lowers `t` into the table and returns the primitive type that stands
    /// for it: the builtin itself, else a reference to the row of `t`.
    ///
    /// Fails with `UnknownType` or `ParameterMismatch` where a name in `t`
    /// cannot be instantiated, with `DuplicateField`, `DuplicateOption` or
    /// `IncompatibleIntersection` where an intersection cannot be merged, and
    /// with `BrokenReference` or `CyclicReference` where an operand of an
    /// intersection cannot be resolved. The first failure stops the
    /// lowering; the rows added before it stay, and a row whose body was
    /// being lowered stays without a body.
    pub fn compile_to_primitive_type(&mut self, t: &TypeExpression) -> (r: Result<
        PrimitiveType,
        CompileError,
    >)
        requires
            old(self).wf(),
        ensures
            final(self).wf(),
            (final(self)@, lowered_view(r)) == lower(old(self)@, t@, usize::MAX as nat),
            t@ is Builtin ==> final(self)@ == old(self)@ && lowered_view(r) == Ok::<Prim, Failure>(
                Prim::Builtin(t@->Builtin_0),
            ),
    {
        self.lower_within(t, usize::MAX)
    }

    fn lower_within(&mut self, t: &TypeExpression, budget: usize) -> (r: Result<
        PrimitiveType,
        CompileError,
    >)
        requires
            old(self).wf(),
            budget + old(self)@.table.len() >= usize::MAX,
        ensures
            final(self).wf(),
            final(self)@.table.len() >= old(self)@.table.len(),
            (final(self)@, lowered_view(r)) == lower(old(self)@, t@, budget as nat),
        decreases budget, t, 1nat,
    {
        let ghost s0 = self@;
        match t {
            TypeExpression::Builtin(kind) => Ok(PrimitiveType::Builtin(*kind)),
            TypeExpression::Variable(name) => {
                let args = TypeArgs::new();
                match self.instantiate(name, &args) {
                    Err(e) => Err(e),
                    Ok(inner) => match self.unfold_within(
                        TypeName::Variable(name.clone()),
                        t,
                        &inner,
                        budget,
                    ) {
                        Err(e) => Err(e),
                        Ok((alloc_id, _)) => Ok(PrimitiveType::Reference(alloc_id)),
                    },
                }
            },
            TypeExpression::Generic(name, args) => {
                match self.instantiate(name, args) {
                    Err(e) => Err(e),
                    Ok(inner) => match self.unfold_within(
                        TypeName::Generic(name.clone(), args.clone()),
                        t,
                        &inner,
                        budget,
                    ) {
                        Err(e) => Err(e),
                        Ok((alloc_id, _)) => Ok(PrimitiveType::Reference(alloc_id)),
                    },
                }
            },
            TypeExpression::Struct(body) => {
                let mut lowered = PrimitiveStruct::new();
                let mut i: usize = 0;
                while i < body.fields.len()
                    invariant
                        i <= body.fields.len(),
                        self.wf(),
                        self@.table.len() >= s0.table.len(),
                        budget + s0.table.len() >= usize::MAX,
                        s0 == old(self)@,
                        *t == TypeExpression::Struct(*body),
                        lower_members(s0, body@, i as nat, budget as nat) == (
                            self@,
                            Ok::<Seq<Slot>, Failure>(lowered@),
                        ),
                    decreases body.fields.len() - i,
                {
                    let field = &body.fields[i];
                    proof {
                        assert(*body == t->Struct_0);
                    }
                    match self.lower_within(&field.type_, budget) {
                        Err(e) => {
                            proof {
                                lemma_members_failed(
                                    s0,
                                    body@,
                                    (i + 1) as nat,
                                    body@.len(),
                                    budget as nat,
                                );
                            }
                            return Err(e);
                        },
                        Ok(p) => {
                            lowered.push(
                                PrimitiveStructField {
                                    name: field.name.clone(),
                                    type_: p,
                                    comment: clone_doc(&field.comment),
                                },
                            );
                        },
                    }
                    i = i + 1;
                }
                let (alloc_id, _) = self.eager_emit_temporary(t, IRType::Struct(lowered));
                Ok(PrimitiveType::Reference(alloc_id))
            },
            TypeExpression::Variant(body) => {
                let mut lowered = PrimitiveVariant::new();
                let mut i: usize = 0;
                while i < body.variants.len()
                    invariant
                        i <= body.variants.len(),
                        self.wf(),
                        self@.table.len() >= s0.table.len(),
                        budget + s0.table.len() >= usize::MAX,
                        s0 == old(self)@,
                        *t == TypeExpression::Variant(*body),
                        lower_members(s0, body@, i as nat, budget as nat) == (
                            self@,
                            Ok::<Seq<Slot>, Failure>(lowered@),
                        ),
                    decreases body.variants.len() - i,
                {
                    let option = &body.variants[i];
                    proof {
                        assert(*body == t->Variant_0);
                    }
                    match self.lower_within(&option.type_, budget) {
                        Err(e) => {
                            proof {
                                lemma_members_failed(
                                    s0,
                                    body@,
                                    (i + 1) as nat,
                                    body@.len(),
                                    budget as nat,
                                );
                            }
                            return Err(e);
                        },
                        Ok(p) => {
                            lowered.push(
                                PrimitiveVariantOption {
                                    name: option.name.clone(),
                                    type_: p,
                                    comment: clone_doc(&option.comment),
                                },
                            );
                        },
                    }
                    i = i + 1;
                }
                let (alloc_id, _) = self.eager_emit_temporary(t, IRType::Variant(lowered));
                Ok(PrimitiveType::Reference(alloc_id))
            },
            TypeExpression::Intersection(a, b) => {
                let left = match self.lower_operand_within(a, budget) {
                    Err(e) => {
                        return Err(e);
                    },
                    Ok(x) => x,
                };
                let right = match self.lower_operand_within(b, budget) {
                    Err(e) => {
                        return Err(e);
                    },
                    Ok(x) => x,
                };
                let merged = match (left, right) {
                    (ResolvedIRType::Struct(x), ResolvedIRType::Struct(y)) => match x.intersect(&y) {
                        Err(e) => {
                            return Err(e);
                        },
                        Ok(fields) => IRType::Struct(fields),
                    },
                    (ResolvedIRType::Variant(x), ResolvedIRType::Variant(y)) => match x.intersect(
                        &y,
                    ) {
                        Err(e) => {
                            return Err(e);
                        },
                        Ok(variants) => IRType::Variant(variants),
                    },
                    _ => {
                        return Err(CompileError::IncompatibleIntersection);
                    },
                };
                let (alloc_id, _) = self.eager_emit_temporary(t, merged);
                Ok(PrimitiveType::Reference(alloc_id))
            },
        }
    }

    fn lower_operand_within(&mut self, t: &TypeExpression, budget: usize) -> (r: Result<
        ResolvedIRType,
        CompileError,
    >)
        requires
            old(self).wf(),
            budget + old(self)@.table.len() >= usize::MAX,
        ensures
            final(self).wf(),
            final(self)@.table.len() >= old(self)@.table.len(),
            (final(self)@, resolved_view(r)) == lower_operand(old(self)@, t@, budget as nat),
        decreases budget, t, 2nat,
    {
        match self.lower_within(t, budget) {
            Err(e) => Err(e),
            Ok(p) => self.resolve_ir_type(&IRType::from(p)),
        }
    }
}

/// Where the names before `at` are not `name` and the name at `at`, if
/// there is one, is, `at` is where `name` is declared.
pub proof fn lemma_declared_is(env: Seq<(Seq<char>, Proto)>, name: Seq<char>, at: int)
    requires
        0 <= at <= env.len(),
        forall|j: int| 0 <= j < at ==> (#[trigger] env[j]).0 != name,
        at < env.len() ==> env[at].0 == name,
    ensures
        declared_at(env, name) == at,
    decreases at,
{
    if at > 0 {
        let rest = env.drop_first();
        assert forall|j: int| 0 <= j < at - 1 implies (#[trigger] rest[j]).0 != name by {
            assert(rest[j] == env[j + 1]);
        }
        if at < env.len() {
            assert(rest[at - 1] == env[at]);
        }
        assert(env[0].0 != name);
        lemma_declared_is(rest, name, at - 1);
    }
}

/// What a type alias declaration is to the compiler: its name and its
/// prototype.
pub open spec fn declaration_view(d: TypeAliasDeclaration) -> (Seq<char>, Proto) {
    (d.name@, Proto { params: Seq::new(d.params@.len(), |i: int| d.params@[i]@), body: d.type_@ })
}

/// The declarations after the first `n` of `declarations` are registered in
/// order.
pub open spec fn register_all(
    env: Seq<(Seq<char>, Proto)>,
    declarations: Seq<(Seq<char>, Proto)>,
    n: nat,
) -> Seq<(Seq<char>, Proto)>
    decreases n,
{
    if n == 0 || n > declarations.len() {
        env
    } else {
        register(
            register_all(env, declarations, (n - 1) as nat),
            declarations[n - 1].0,
            declarations[n - 1].1,
        )
    }
}

/// The session after the first `n` declared types of `globals` are
/// compiled in order, those without parameters only; the first failure
/// stops it.
pub open spec fn compile_all(s: Session, globals: Seq<(Seq<char>, Proto)>, n: nat, budget: nat) -> (
    Session,
    Result<(), Failure>,
)
    decreases n,
{
    if n == 0 || n > globals.len() {
        (s, Ok(()))
    } else {
        let (s1, r1) = compile_all(s, globals, (n - 1) as nat, budget);
        match r1 {
            Err(f) => (s1, Err(f)),
            Ok(_) => {
                let (name, proto) = globals[n - 1];
                if proto.params.len() == 0 {
                    let (s2, r2) = unfold(
                        s1,
                        Identity::Variable(name),
                        Expr::Variable(name),
                        proto.body,
                        budget,
                    );
                    match r2 {
                        Err(f) => (s2, Err(f)),
                        Ok(_) => (s2, Ok(())),
                    }
                } else {
                    (s1, Ok(()))
                }
            },
        }
    }
}

/// Once compiling a declared type has failed, those after it are not
/// compiled.
pub proof fn lemma_compile_failed(
    s: Session,
    globals: Seq<(Seq<char>, Proto)>,
    k: nat,
    n: nat,
    budget: nat,
)
    requires
        k <= n <= globals.len(),
        compile_all(s, globals, k, budget).1 is Err,
    ensures
        compile_all(s, globals, n, budget) == compile_all(s, globals, k, budget),
    decreases n,
{
    if n > k {
        lemma_compile_failed(s, globals, k, (n - 1) as nat, budget);
    }
}

/// What the outcome of compiling a program is.
pub open spec fn compiled_view(r: Result<(), CompileError>) -> Result<(), Failure> {
    match r {
        Ok(_) => Ok(()),
        Err(e) => Err(e@),
    }
}

impl IRCompiler {
    /// Registers every declaration, in order.
    pub fn register_declarations(&mut self, declarations: &Vec<TypeAliasDeclaration>)
        requires
            old(self).wf(),
        ensures
            final(self).wf(),
            final(self)@ == (Session {
                table: old(self)@.table,
                env: register_all(
                    old(self)@.env,
                    Seq::new(declarations@.len(), |i: int| declaration_view(declarations@[i])),
                    declarations@.len(),
                ),
                temps: old(self)@.temps,
            }),
    {
        let ghost all = Seq::new(declarations@.len(), |i: int| declaration_view(declarations@[i]));
        let mut i: usize = 0;
        while i < declarations.len()
            invariant
                i <= declarations@.len(),
                self.wf(),
                all == Seq::new(declarations@.len(), |i: int| declaration_view(declarations@[i])),
                self@ == (Session {
                    table: old(self)@.table,
                    env: register_all(old(self)@.env, all, i as nat),
                    temps: old(self)@.temps,
                }),
            decreases declarations@.len() - i,
        {
            let d = &declarations[i];
            let proto = TypePrototype { params: clone_names(&d.params), type_: d.type_.clone() };
            proof {
                assert(proto@.params =~= declaration_view(*d).1.params);
                assert(all[i as int] == declaration_view(*d));
            }
            self.register_global_type(d.name.clone(), proto);
            i = i + 1;
        }
    }

    /// Compiles every declared type that has no parameters, in the order in
    /// which the names were first declared.
    pub fn compile_globals(&mut self) -> (r: Result<(), CompileError>)
        requires
            old(self).wf(),
        ensures
            final(self).wf(),
            (final(self)@, compiled_view(r)) == compile_all(
                old(self)@,
                old(self)@.env,
                old(self)@.env.len(),
                usize::MAX as nat,
            ),
    {
        let globals = self.iter_globals();
        let ghost s0 = self@;
        let mut i: usize = 0;
        while i < globals.len()
            invariant
                i <= globals@.len(),
                self.wf(),
                s0 == old(self)@,
                globals@.len() == s0.env.len(),
                forall|k: int|
                    0 <= k < globals@.len() ==> ((#[trigger] globals@[k]).0@, globals@[k].1@)
                        == s0.env[k],
                compile_all(s0, s0.env, i as nat, usize::MAX as nat) == (
                    self@,
                    Ok::<(), Failure>(()),
                ),
            decreases globals@.len() - i,
        {
            let name = &globals[i].0;
            let proto = &globals[i].1;
            proof {
                assert((globals@[i as int].0@, globals@[i as int].1@) == s0.env[i as int]);
                assert(proto@.params.len() == proto.params@.len());
            }
            if proto.params.len() == 0 {
                match self.compile_global(name.clone(), &proto.type_) {
                    Err(e) => {
                        proof {
                            lemma_compile_failed(
                                s0,
                                s0.env,
                                (i + 1) as nat,
                                s0.env.len(),
                                usize::MAX as nat,
                            );
                        }
                        return Err(e);
                    },
                    Ok(_) => {},
                }
            }
            i = i + 1;
        }
        Ok(())
    }
}

} // verus!
