//! Type expressions: the source-level description of a type, before lowering.

use crate::text::{
    lemma_str_lt_asymmetric, lemma_str_lt_irreflexive, lemma_str_lt_total, lemma_str_lt_transitive,
    str_lt, str_order,
};
use vstd::prelude::*;

verus! {

/// The closed set of builtin types.
#[derive(Debug, Clone, Copy, PartialEq, Eq, Hash, Structural)]
pub enum Builtin {
    Int,
    Float,
    String,
    Bool,
    Unit,
}

/// A named annotation on a declaration, with its key/value arguments.
#[derive(Debug, Clone, PartialEq, Eq, Hash)]
pub struct Annotation {
    pub name: String,
    pub args: Vec<(String, String)>,
}

/// One field of a struct expression.
#[derive(Debug, Hash)]
pub struct StructField {
    pub name: String,
    pub type_: TypeExpression,
    pub comment: Option<String>,
}

/// A struct expression: its fields, in order.
#[derive(Debug, Hash)]
pub struct StructTypeExpression {
    pub fields: Vec<StructField>,
}

/// One option of a variant expression.
#[derive(Debug, Hash)]
pub struct VariantOption {
    pub name: String,
    pub type_: TypeExpression,
    pub comment: Option<String>,
}

/// A variant expression: its options, in order.
#[derive(Debug, Hash)]
pub struct VariantTypeExpression {
    pub variants: Vec<VariantOption>,
}

/// A set of bindings from parameter names to type expressions. No name is
/// bound twice, and the bindings are kept in ascending order of their names,
/// so that two sets with the same bindings are the same value.
#[derive(Debug, Hash)]
pub struct TypeArgs {
    entries: Vec<(String, TypeExpression)>,
}

/// A type expression.
#[derive(Debug, Hash)]
pub enum TypeExpression {
    Variable(String),
    Builtin(Builtin),
    Generic(String, TypeArgs),
    Struct(StructTypeExpression),
    Variant(VariantTypeExpression),
    Intersection(Box<TypeExpression>, Box<TypeExpression>),
}

/// A type alias declaration as the parser hands it over.
#[derive(Debug)]
pub struct TypeAliasDeclaration {
    pub annotations: Vec<Annotation>,
    pub name: String,
    pub params: Vec<String>,
    pub type_: TypeExpression,
}

/// What a field of a struct or an option of a variant is: a name, a type and
/// an optional documentation string.
pub struct Member {
    pub name: Seq<char>,
    pub ty: Expr,
    pub doc: Option<Seq<char>>,
}

/// What a type expression is.
pub enum Expr {
    Variable(Seq<char>),
    Builtin(Builtin),
    Generic(Seq<char>, Seq<(Seq<char>, Expr)>),
    Struct(Seq<Member>),
    Variant(Seq<Member>),
    Intersection(Box<Expr>, Box<Expr>),
}

/// Bindings of names to type expressions, in order.
pub type Bindings = Seq<(Seq<char>, Expr)>;

/// The view of an optional string.
pub open spec fn doc_view(d: Option<String>) -> Option<Seq<char>> {
    match d {
        Some(s) => Some(s@),
        None => None,
    }
}

/// What a field is.
pub open spec fn field_view(f: StructField) -> Member
    decreases f,
{
    Member { name: f.name@, ty: expr_view(f.type_), doc: doc_view(f.comment) }
}

/// What an option is.
pub open spec fn option_view(o: VariantOption) -> Member
    decreases o,
{
    Member { name: o.name@, ty: expr_view(o.type_), doc: doc_view(o.comment) }
}

/// What a list of fields is.
pub open spec fn fields_view(fields: Seq<StructField>) -> Seq<Member>
    decreases fields,
{
    Seq::new(
        fields.len(),
        |i: int|
            if 0 <= i < fields.len() {
                field_view(fields[i])
            } else {
                arbitrary()
            },
    )
}

/// What a list of options is.
pub open spec fn options_view(options: Seq<VariantOption>) -> Seq<Member>
    decreases options,
{
    Seq::new(
        options.len(),
        |i: int|
            if 0 <= i < options.len() {
                option_view(options[i])
            } else {
                arbitrary()
            },
    )
}

/// What a list of bindings is.
pub open spec fn entries_view(entries: Seq<(String, TypeExpression)>) -> Bindings
    decreases entries,
{
    Seq::new(
        entries.len(),
        |i: int|
            if 0 <= i < entries.len() {
                (entries[i].0@, expr_view(entries[i].1))
            } else {
                arbitrary()
            },
    )
}

/// What a set of bindings is.
pub closed spec fn args_view(args: TypeArgs) -> Bindings
    decreases args,
{
    entries_view(args.entries@)
}

/// What a type expression is.
pub open spec fn expr_view(e: TypeExpression) -> Expr
    decreases e,
{
    match e {
        TypeExpression::Variable(name) => Expr::Variable(name@),
        TypeExpression::Builtin(kind) => Expr::Builtin(kind),
        TypeExpression::Generic(name, args) => Expr::Generic(name@, args_view(args)),
        TypeExpression::Struct(s) => Expr::Struct(fields_view(s.fields@)),
        TypeExpression::Variant(v) => Expr::Variant(options_view(v.variants@)),
        TypeExpression::Intersection(a, b) => Expr::Intersection(
            Box::new(expr_view(*a)),
            Box::new(expr_view(*b)),
        ),
    }
}

impl View for StructField {
    type V = Member;

    open spec fn view(&self) -> Member {
        field_view(*self)
    }
}

impl View for VariantOption {
    type V = Member;

    open spec fn view(&self) -> Member {
        option_view(*self)
    }
}

impl View for StructTypeExpression {
    type V = Seq<Member>;

    open spec fn view(&self) -> Seq<Member> {
        fields_view(self.fields@)
    }
}

impl View for VariantTypeExpression {
    type V = Seq<Member>;

    open spec fn view(&self) -> Seq<Member> {
        options_view(self.variants@)
    }
}

impl View for TypeArgs {
    type V = Bindings;

    open spec fn view(&self) -> Bindings {
        args_view(*self)
    }
}

impl View for TypeExpression {
    type V = Expr;

    open spec fn view(&self) -> Expr {
        expr_view(*self)
    }
}

/// Whether the names of `m` are in strictly ascending order.
pub open spec fn ascending(m: Bindings) -> bool {
    forall|i: int, j: int| 0 <= i < j < m.len() ==> str_lt(#[trigger] m[i].0, #[trigger] m[j].0)
}

/// The expression bound to `name` in `m`: that of the first binding of that
/// name, if there is one.
pub open spec fn lookup(m: Bindings, name: Seq<char>) -> Option<Expr>
    decreases m.len(),
{
    if m.len() == 0 {
        None
    } else if m[0].0 == name {
        Some(m[0].1)
    } else {
        lookup(m.drop_first(), name)
    }
}

/// The number of leading bindings of `m` whose name is below `name`.
pub open spec fn slot_of(m: Bindings, name: Seq<char>) -> int
    decreases m.len(),
{
    if m.len() == 0 || !str_lt(m[0].0, name) {
        0
    } else {
        1 + slot_of(m.drop_first(), name)
    }
}

/// `m` with `name` bound to `value`: in place of the binding of that name
/// where there is one, else at the place that keeps the names ascending.
pub open spec fn bind(m: Bindings, name: Seq<char>, value: Expr) -> Bindings {
    let p = slot_of(m, name);
    if p < m.len() && m[p].0 == name {
        m.update(p, (name, value))
    } else {
        m.insert(p, (name, value))
    }
}

/// `e` with every variable that `m` binds replaced by the bound expression.
/// Other variables stay; the name of a generic application is no variable.
pub open spec fn substitute(e: Expr, m: Bindings) -> Expr
    decreases e,
{
    match e {
        Expr::Variable(name) => match lookup(m, name) {
            Some(bound) => bound,
            None => e,
        },
        Expr::Builtin(_) => e,
        Expr::Generic(name, args) => Expr::Generic(name, substitute_bindings(args, m)),
        Expr::Struct(fields) => Expr::Struct(substitute_members(fields, m)),
        Expr::Variant(options) => Expr::Variant(substitute_members(options, m)),
        Expr::Intersection(a, b) => Expr::Intersection(
            Box::new(substitute(*a, m)),
            Box::new(substitute(*b, m)),
        ),
    }
}

/// `member` with `m` substituted into its type.
pub open spec fn substitute_member(member: Member, m: Bindings) -> Member
    decreases member,
{
    Member { name: member.name, ty: substitute(member.ty, m), doc: member.doc }
}

/// `members` with `m` substituted into the type of each.
pub open spec fn substitute_members(members: Seq<Member>, m: Bindings) -> Seq<Member>
    decreases members,
{
    Seq::new(
        members.len(),
        |i: int|
            if 0 <= i < members.len() {
                substitute_member(members[i], m)
            } else {
                arbitrary()
            },
    )
}

/// `args` with `m` substituted into the expression of each binding.
pub open spec fn substitute_bindings(args: Bindings, m: Bindings) -> Bindings
    decreases args,
{
    Seq::new(
        args.len(),
        |i: int|
            if 0 <= i < args.len() {
                (args[i].0, substitute(args[i].1, m))
            } else {
                arbitrary()
            },
    )
}

/// In ascending bindings, the binding at `i` is the one that `lookup` finds
/// for its name.
pub proof fn lemma_lookup_at(m: Bindings, i: int)
    requires
        ascending(m),
        0 <= i < m.len(),
    ensures
        lookup(m, m[i].0) == Some(m[i].1),
    decreases i,
{
    if i > 0 {
        lemma_str_lt_asymmetric(m[0].0, m[i].0);
        let rest = m.drop_first();
        assert forall|a: int, b: int| 0 <= a < b < rest.len() implies str_lt(
            #[trigger] rest[a].0,
            #[trigger] rest[b].0,
        ) by {
            assert(rest[a] == m[a + 1]);
            assert(rest[b] == m[b + 1]);
        }
        lemma_lookup_at(rest, i - 1);
    }
}

/// `lookup` finds a binding only for a name that occurs in `m`.
pub proof fn lemma_lookup_some(m: Bindings, name: Seq<char>)
    ensures
        lookup(m, name) is Some <==> exists|i: int| 0 <= i < m.len() && #[trigger] m[i].0 == name,
        lookup(m, name) matches Some(v) ==> exists|i: int|
            0 <= i < m.len() && #[trigger] m[i] == (name, v),
    decreases m.len(),
{
    if m.len() > 0 {
        if m[0].0 == name {
            assert(m[0] == (name, m[0].1));
        } else {
            let rest = m.drop_first();
            lemma_lookup_some(rest, name);
            if lookup(rest, name) is Some {
                let v = lookup(rest, name)->0;
                let i = choose|i: int| 0 <= i < rest.len() && #[trigger] rest[i] == (name, v);
                assert(m[i + 1] == (name, v));
                assert(m[i + 1].0 == name);
            }
            if exists|i: int| 0 <= i < m.len() && #[trigger] m[i].0 == name {
                let i = choose|i: int| 0 <= i < m.len() && #[trigger] m[i].0 == name;
                assert(rest[i - 1].0 == name);
            }
        }
    }
}

/// Where the names before `p` are below `name` and the name at `p`, if there
/// is one, is not, `p` is the slot of `name`.
pub proof fn lemma_slot_of(m: Bindings, name: Seq<char>, p: int)
    requires
        0 <= p <= m.len(),
        forall|i: int| 0 <= i < p ==> str_lt(#[trigger] m[i].0, name),
        p < m.len() ==> !str_lt(m[p].0, name),
    ensures
        slot_of(m, name) == p,
    decreases p,
{
    if p > 0 {
        let rest = m.drop_first();
        assert forall|i: int| 0 <= i < p - 1 implies str_lt(#[trigger] rest[i].0, name) by {
            assert(rest[i] == m[i + 1]);
        }
        if p < m.len() {
            assert(rest[p - 1] == m[p]);
        }
        lemma_slot_of(rest, name, p - 1);
    }
}

/// Binding a name keeps ascending bindings ascending, and afterwards the name
/// is bound to the new expression and every other name as before.
pub proof fn lemma_bind(m: Bindings, name: Seq<char>, value: Expr)
    requires
        ascending(m),
    ensures
        ascending(bind(m, name, value)),
        lookup(bind(m, name, value), name) == Some(value),
        forall|other: Seq<char>| other != name ==> lookup(bind(m, name, value), other) == lookup(m, other),
{
    let p = slot_of(m, name);
    lemma_slot_bounds(m, name);
    let r = bind(m, name, value);
    assert forall|i: int, j: int| 0 <= i < j < r.len() implies str_lt(
        #[trigger] r[i].0,
        #[trigger] r[j].0,
    ) by {
        if p < m.len() && m[p].0 == name {
            assert(r[i].0 == m[i].0);
            assert(r[j].0 == m[j].0);
        } else {
            if p < m.len() {
                lemma_str_lt_total(m[p].0, name);
            }
            if j < p {
                assert(r[i] == m[i] && r[j] == m[j]);
            } else if j == p {
                assert(r[i] == m[i]);
            } else if i < p {
                assert(r[i] == m[i] && r[j] == m[j - 1]);
            } else if i == p {
                assert(r[j] == m[j - 1]);
                if j - 1 > p {
                    lemma_str_lt_transitive(name, m[p].0, m[j - 1].0);
                }
            } else {
                assert(r[i] == m[i - 1] && r[j] == m[j - 1]);
            }
        }
    }
    assert(r[p] == (name, value));
    lemma_lookup_at(r, p);
    assert forall|other: Seq<char>| other != name implies lookup(r, other) == lookup(m, other) by {
        lemma_lookup_some(r, other);
        lemma_lookup_some(m, other);
        if lookup(m, other) is Some {
            let v = lookup(m, other)->0;
            let i = choose|i: int| 0 <= i < m.len() && #[trigger] m[i] == (other, v);
            let k = if p < m.len() && m[p].0 == name {
                i
            } else if i < p {
                i
            } else {
                i + 1
            };
            assert(r[k] == m[i]);
            lemma_lookup_at(r, k);
        } else if lookup(r, other) is Some {
            let v = lookup(r, other)->0;
            let k = choose|k: int| 0 <= k < r.len() && #[trigger] r[k] == (other, v);
            let i = if p < m.len() && m[p].0 == name {
                k
            } else if k < p {
                k
            } else {
                k - 1
            };
            assert(m[i] == r[k]);
            assert(m[i].0 == other);
        }
    }
}

/// The slot of a name lies within the bindings, the names before it are
/// below the name and the name at it is not.
pub proof fn lemma_slot_bounds(m: Bindings, name: Seq<char>)
    ensures
        0 <= slot_of(m, name) <= m.len(),
        forall|i: int| 0 <= i < slot_of(m, name) ==> str_lt(#[trigger] m[i].0, name),
        slot_of(m, name) < m.len() ==> !str_lt(m[slot_of(m, name)].0, name),
    decreases m.len(),
{
    if m.len() > 0 && str_lt(m[0].0, name) {
        let rest = m.drop_first();
        lemma_slot_bounds(rest, name);
        assert forall|i: int| 0 <= i < slot_of(m, name) implies str_lt(#[trigger] m[i].0, name) by {
            if i > 0 {
                assert(m[i] == rest[i - 1]);
            }
        }
        if slot_of(m, name) < m.len() {
            assert(m[slot_of(m, name)] == rest[slot_of(rest, name)]);
        }
    }
}

/// In ascending bindings a name is bound only where it stands: the names
/// after the first are not the first name.
pub proof fn lemma_ascending_rest(m: Bindings)
    requires
        ascending(m),
        m.len() > 0,
    ensures
        ascending(m.drop_first()),
        lookup(m.drop_first(), m[0].0) is None,
        forall|name: Seq<char>| name != m[0].0 ==> lookup(m.drop_first(), name) == lookup(m, name),
{
    let rest = m.drop_first();
    assert forall|a: int, b: int| 0 <= a < b < rest.len() implies str_lt(
        #[trigger] rest[a].0,
        #[trigger] rest[b].0,
    ) by {
        assert(rest[a] == m[a + 1]);
        assert(rest[b] == m[b + 1]);
    }
    lemma_lookup_some(rest, m[0].0);
    if lookup(rest, m[0].0) is Some {
        let i = choose|i: int| 0 <= i < rest.len() && #[trigger] rest[i].0 == m[0].0;
        assert(rest[i] == m[i + 1]);
        lemma_str_lt_asymmetric(m[0].0, m[i + 1].0);
    }
}

/// Ascending bindings that bind the same names to the same expressions are
/// the same bindings: the order in which names were bound does not show.
pub proof fn lemma_bindings_canonical(a: Bindings, b: Bindings)
    requires
        ascending(a),
        ascending(b),
        forall|name: Seq<char>| lookup(a, name) == lookup(b, name),
    ensures
        a == b,
    decreases a.len(),
{
    if a.len() == 0 {
        if b.len() > 0 {
            assert(lookup(b, b[0].0) is Some);
            assert(lookup(a, b[0].0) is None);
        }
        assert(a =~= b);
    } else {
        assert(lookup(a, a[0].0) == Some(a[0].1));
        assert(b.len() > 0);
        assert(lookup(b, b[0].0) == Some(b[0].1));
        if a[0].0 != b[0].0 {
            lemma_str_lt_total(a[0].0, b[0].0);
            if str_lt(a[0].0, b[0].0) {
                lemma_lookup_some(b, a[0].0);
                let j = choose|j: int| 0 <= j < b.len() && #[trigger] b[j].0 == a[0].0;
                if j > 0 {
                    lemma_str_lt_asymmetric(b[0].0, b[j].0);
                }
            } else {
                lemma_lookup_some(a, b[0].0);
                let i = choose|i: int| 0 <= i < a.len() && #[trigger] a[i].0 == b[0].0;
                if i > 0 {
                    lemma_str_lt_asymmetric(a[0].0, a[i].0);
                }
            }
            assert(false);
        }
        lemma_ascending_rest(a);
        lemma_ascending_rest(b);
        assert forall|name: Seq<char>| lookup(a.drop_first(), name) == lookup(
            b.drop_first(),
            name,
        ) by {
            if name != a[0].0 {
                assert(lookup(a, name) == lookup(b, name));
            }
        }
        lemma_bindings_canonical(a.drop_first(), b.drop_first());
        assert(a[0] == b[0]);
        assert(a =~= seq![a[0]] + a.drop_first());
        assert(b =~= seq![b[0]] + b.drop_first());
    }
}

/// Binding two different names gives the same bindings in either order.
pub proof fn lemma_bind_commutes(m: Bindings, k1: Seq<char>, v1: Expr, k2: Seq<char>, v2: Expr)
    requires
        ascending(m),
        k1 != k2,
    ensures
        bind(bind(m, k1, v1), k2, v2) == bind(bind(m, k2, v2), k1, v1),
{
    let a1 = bind(m, k1, v1);
    let a2 = bind(a1, k2, v2);
    let b1 = bind(m, k2, v2);
    let b2 = bind(b1, k1, v1);
    lemma_bind(m, k1, v1);
    lemma_bind(a1, k2, v2);
    lemma_bind(m, k2, v2);
    lemma_bind(b1, k1, v1);
    assert forall|name: Seq<char>| lookup(a2, name) == lookup(b2, name) by {
        if name == k1 {
            assert(lookup(a2, name) == lookup(a1, name));
        } else if name == k2 {
            assert(lookup(b2, name) == lookup(b1, name));
        } else {
            assert(lookup(a2, name) == lookup(a1, name));
            assert(lookup(a1, name) == lookup(m, name));
            assert(lookup(b2, name) == lookup(b1, name));
            assert(lookup(b1, name) == lookup(m, name));
        }
    }
    lemma_bindings_canonical(a2, b2);
}

/// A copy of an optional string.
pub fn clone_doc(d: &Option<String>) -> (r: Option<String>)
    ensures
        doc_view(r) == doc_view(*d),
{
    match d {
        Some(s) => Some(s.clone()),
        None => None,
    }
}

/// Whether two optional strings hold the same text, or both none.
pub fn same_doc(a: &Option<String>, b: &Option<String>) -> (r: bool)
    ensures
        r == (doc_view(*a) == doc_view(*b)),
{
    match (a, b) {
        (Some(x), Some(y)) => *x == *y,
        (None, None) => true,
        _ => false,
    }
}

impl TypeArgs {
    #[verifier::type_invariant]
    spec fn inv(self) -> bool {
        ascending(self@)
    }

    /// The empty set of bindings.
    pub fn new() -> (r: TypeArgs)
        ensures
            r@ == Seq::<(Seq<char>, Expr)>::empty(),
    {
        let r = TypeArgs { entries: Vec::new() };
        proof {
            assert(r@ =~= Seq::<(Seq<char>, Expr)>::empty());
        }
        r
    }

    /// The number of bindings. Their names are ascending.
    pub fn len(&self) -> (n: usize)
        ensures
            n == self@.len(),
            ascending(self@),
    {
        proof {
            use_type_invariant(self);
        }
        self.entries.len()
    }

    /// Whether there is no binding.
    pub fn is_empty(&self) -> (r: bool)
        ensures
            r == (self@.len() == 0),
    {
        self.entries.len() == 0
    }

    /// The name of the binding at `i`, in ascending order of the names.
    pub fn key(&self, i: usize) -> (k: &String)
        requires
            i < self@.len(),
        ensures
            k@ == self@[i as int].0,
    {
        &self.entries[i].0
    }

    /// The expression of the binding at `i`.
    pub fn value(&self, i: usize) -> (v: &TypeExpression)
        requires
            i < self@.len(),
        ensures
            v@ == self@[i as int].1,
    {
        &self.entries[i].1
    }

    /// The place of `name` among the bindings: the number of names below it.
    fn slot(&self, name: &str) -> (p: usize)
        ensures
            p == slot_of(self@, name@),
            p <= self@.len(),
            p < self@.len() ==> (self@[p as int].0 == name@ || str_lt(name@, self@[p as int].0)),
            (exists|i: int| 0 <= i < self@.len() && #[trigger] self@[i].0 == name@) ==> p
                < self@.len() && self@[p as int].0 == name@,
    {
        proof {
            use_type_invariant(self);
        }
        let mut i: usize = 0;
        while i < self.entries.len()
            invariant
                i <= self.entries.len(),
                self.entries@.len() == self@.len(),
                ascending(self@),
                forall|k: int| 0 <= k < i ==> str_lt(#[trigger] self@[k].0, name@),
            decreases self.entries.len() - i,
        {
            let c = str_order(self.entries[i].0.as_str(), name);
            if c != -1 {
                proof {
                    lemma_slot_of(self@, name@, i as int);
                    lemma_str_lt_total(self@[i as int].0, name@);
                    assert forall|k: int| 0 <= k < self@.len() && #[trigger] self@[k].0
                        == name@ implies k == i by {
                        if k < i {
                            lemma_str_lt_irreflexive(name@);
                        } else if k > i {
                            if self@[i as int].0 != name@ {
                                lemma_str_lt_transitive(
                                    name@,
                                    self@[i as int].0,
                                    self@[k].0,
                                );
                            }
                            lemma_str_lt_irreflexive(name@);
                        }
                    }
                }
                return i;
            }
            i = i + 1;
        }
        proof {
            lemma_slot_of(self@, name@, i as int);
            assert forall|k: int| 0 <= k < self@.len() implies #[trigger] self@[k].0 != name@ by {
                lemma_str_lt_irreflexive(name@);
            }
        }
        i
    }

    /// The expression bound to `name`, if there is one.
    pub fn get(&self, name: &str) -> (r: Option<&TypeExpression>)
        ensures
            match r {
                Some(v) => lookup(self@, name@) == Some(v@),
                None => lookup(self@, name@) is None,
            },
    {
        proof {
            use_type_invariant(self);
            lemma_lookup_some(self@, name@);
        }
        let p = self.slot(name);
        if p < self.entries.len() && str_order(self.entries[p].0.as_str(), name) == 0 {
            proof {
                lemma_lookup_at(self@, p as int);
            }
            Some(&self.entries[p].1)
        } else {
            None
        }
    }

    /// Whether `name` is bound.
    pub fn contains_key(&self, name: &str) -> (r: bool)
        ensures
            r == lookup(self@, name@) is Some,
    {
        self.get(name).is_some()
    }

    /// Binds `name` to `value`, and returns the expression that the name was
    /// bound to before, if it was bound.
    pub fn insert(&mut self, name: String, value: TypeExpression) -> (previous: Option<TypeExpression>)
        ensures
            final(self)@ == bind(old(self)@, name@, value@),
            match previous {
                Some(v) => lookup(old(self)@, name@) == Some(v@),
                None => lookup(old(self)@, name@) is None,
            },
    {
        proof {
            use_type_invariant(&*self);
            lemma_lookup_some(self@, name@);
            lemma_bind(self@, name@, value@);
        }
        let ghost before = self@;
        let ghost key = name@;
        let ghost val = value@;
        let p = self.slot(name.as_str());
        let found = p < self.entries.len() && str_order(
            self.entries[p].0.as_str(),
            name.as_str(),
        ) == 0;
        let ghost raw = self.entries@;
        let mut entries: Vec<(String, TypeExpression)> = Vec::new();
        std::mem::swap(&mut entries, &mut self.entries);
        if found {
            proof {
                lemma_lookup_at(before, p as int);
            }
            let mut rest = entries.split_off(p);
            let gone = rest.remove(0);
            entries.push((name, value));
            entries.append(&mut rest);
            proof {
                assert(entries@ =~= raw.update(p as int, entries@[p as int]));
                assert(entries_view(entries@) =~= bind(before, key, val));
            }
            self.entries = entries;
            Some(gone.1)
        } else {
            let mut rest = entries.split_off(p);
            entries.push((name, value));
            entries.append(&mut rest);
            proof {
                assert(entries@ =~= raw.insert(p as int, entries@[p as int]));
                assert(entries_view(entries@) =~= bind(before, key, val));
            }
            self.entries = entries;
            None
        }
    }
}

impl Clone for StructField {
    fn clone(&self) -> (r: StructField)
        ensures
            r@ == self@,
        decreases self,
    {
        StructField {
            name: self.name.clone(),
            type_: self.type_.clone(),
            comment: clone_doc(&self.comment),
        }
    }
}

impl Clone for VariantOption {
    fn clone(&self) -> (r: VariantOption)
        ensures
            r@ == self@,
        decreases self,
    {
        VariantOption {
            name: self.name.clone(),
            type_: self.type_.clone(),
            comment: clone_doc(&self.comment),
        }
    }
}

impl Clone for StructTypeExpression {
    fn clone(&self) -> (r: StructTypeExpression)
        ensures
            r@ == self@,
        decreases self,
    {
        let mut fields: Vec<StructField> = Vec::new();
        let mut i: usize = 0;
        while i < self.fields.len()
            invariant
                i <= self.fields.len(),
                fields@.len() == i,
                forall|k: int| 0 <= k < i ==> (#[trigger] fields@[k])@ == self.fields@[k]@,
            decreases self.fields.len() - i,
        {
            fields.push(self.fields[i].clone());
            i = i + 1;
        }
        proof {
            assert(fields_view(fields@) =~= fields_view(self.fields@));
        }
        StructTypeExpression { fields }
    }
}

impl Clone for VariantTypeExpression {
    fn clone(&self) -> (r: VariantTypeExpression)
        ensures
            r@ == self@,
        decreases self,
    {
        let mut variants: Vec<VariantOption> = Vec::new();
        let mut i: usize = 0;
        while i < self.variants.len()
            invariant
                i <= self.variants.len(),
                variants@.len() == i,
                forall|k: int| 0 <= k < i ==> (#[trigger] variants@[k])@ == self.variants@[k]@,
            decreases self.variants.len() - i,
        {
            variants.push(self.variants[i].clone());
            i = i + 1;
        }
        proof {
            assert(options_view(variants@) =~= options_view(self.variants@));
        }
        VariantTypeExpression { variants }
    }
}

impl Clone for TypeArgs {
    fn clone(&self) -> (r: TypeArgs)
        ensures
            r@ == self@,
        decreases self,
    {
        proof {
            use_type_invariant(self);
        }
        let mut entries: Vec<(String, TypeExpression)> = Vec::new();
        let mut i: usize = 0;
        while i < self.entries.len()
            invariant
                i <= self.entries.len(),
                entries@.len() == i,
                forall|k: int|
                    0 <= k < i ==> (#[trigger] entries@[k]).0@ == self.entries@[k].0@ && expr_view(
                        entries@[k].1,
                    ) == expr_view(self.entries@[k].1),
            decreases self.entries.len() - i,
        {
            entries.push((self.entries[i].0.clone(), self.entries[i].1.clone()));
            i = i + 1;
        }
        proof {
            assert(entries_view(entries@) =~= entries_view(self.entries@));
        }
        TypeArgs { entries }
    }
}

impl Clone for TypeExpression {
    fn clone(&self) -> (r: TypeExpression)
        ensures
            r@ == self@,
        decreases self,
    {
        match self {
            TypeExpression::Variable(name) => TypeExpression::Variable(name.clone()),
            TypeExpression::Builtin(kind) => TypeExpression::Builtin(*kind),
            TypeExpression::Generic(name, args) => TypeExpression::Generic(name.clone(), args.clone()),
            TypeExpression::Struct(s) => TypeExpression::Struct(s.clone()),
            TypeExpression::Variant(v) => TypeExpression::Variant(v.clone()),
            TypeExpression::Intersection(a, b) => {
                let left: &TypeExpression = a;
                let right: &TypeExpression = b;
                TypeExpression::Intersection(Box::new(left.clone()), Box::new(right.clone()))
            },
        }
    }
}

impl StructField {
    /// Whether the two fields have the same name, type and documentation.
    pub fn same(&self, other: &StructField) -> (r: bool)
        ensures
            r == (self@ == other@),
        decreases self,
    {
        self.name == other.name && self.type_.same(&other.type_) && same_doc(
            &self.comment,
            &other.comment,
        )
    }
}

impl VariantOption {
    /// Whether the two options have the same name, type and documentation.
    pub fn same(&self, other: &VariantOption) -> (r: bool)
        ensures
            r == (self@ == other@),
        decreases self,
    {
        self.name == other.name && self.type_.same(&other.type_) && same_doc(
            &self.comment,
            &other.comment,
        )
    }
}

impl StructTypeExpression {
    /// Whether the two structs have the same fields in the same order.
    pub fn same(&self, other: &StructTypeExpression) -> (r: bool)
        ensures
            r == (self@ == other@),
        decreases self,
    {
        if self.fields.len() != other.fields.len() {
            proof {
                assert(self@.len() != other@.len());
            }
            return false;
        }
        let mut i: usize = 0;
        while i < self.fields.len()
            invariant
                i <= self.fields.len(),
                self.fields.len() == other.fields.len(),
                forall|k: int| 0 <= k < i ==> (#[trigger] self.fields@[k])@ == other.fields@[k]@,
            decreases self.fields.len() - i,
        {
            if !self.fields[i].same(&other.fields[i]) {
                proof {
                    assert(self@[i as int] == self.fields@[i as int]@);
                    assert(other@[i as int] == other.fields@[i as int]@);
                }
                return false;
            }
            i = i + 1;
        }
        proof {
            assert(self@ =~= other@);
        }
        true
    }
}

impl VariantTypeExpression {
    /// Whether the two variants have the same options in the same order.
    pub fn same(&self, other: &VariantTypeExpression) -> (r: bool)
        ensures
            r == (self@ == other@),
        decreases self,
    {
        if self.variants.len() != other.variants.len() {
            proof {
                assert(self@.len() != other@.len());
            }
            return false;
        }
        let mut i: usize = 0;
        while i < self.variants.len()
            invariant
                i <= self.variants.len(),
                self.variants.len() == other.variants.len(),
                forall|k: int| 0 <= k < i ==> (#[trigger] self.variants@[k])@ == other.variants@[k]@,
            decreases self.variants.len() - i,
        {
            if !self.variants[i].same(&other.variants[i]) {
                proof {
                    assert(self@[i as int] == self.variants@[i as int]@);
                    assert(other@[i as int] == other.variants@[i as int]@);
                }
                return false;
            }
            i = i + 1;
        }
        proof {
            assert(self@ =~= other@);
        }
        true
    }
}

impl TypeArgs {
    /// Whether the two sets hold the same bindings.
    pub fn same(&self, other: &TypeArgs) -> (r: bool)
        ensures
            r == (self@ == other@),
        decreases self,
    {
        if self.entries.len() != other.entries.len() {
            proof {
                assert(self@.len() != other@.len());
            }
            return false;
        }
        let mut i: usize = 0;
        while i < self.entries.len()
            invariant
                i <= self.entries.len(),
                self.entries.len() == other.entries.len(),
                forall|k: int| 0 <= k < i ==> #[trigger] self@[k] == other@[k],
            decreases self.entries.len() - i,
        {
            if !(self.entries[i].0 == other.entries[i].0 && self.entries[i].1.same(
                &other.entries[i].1,
            )) {
                proof {
                    assert(self@[i as int] == (
                        self.entries@[i as int].0@,
                        expr_view(self.entries@[i as int].1),
                    ));
                    assert(other@[i as int] == (
                        other.entries@[i as int].0@,
                        expr_view(other.entries@[i as int].1),
                    ));
                }
                return false;
            }
            i = i + 1;
        }
        proof {
            assert(self@ =~= other@);
        }
        true
    }
}

impl TypeExpression {
    /// Whether the two expressions are structurally equal, documentation
    /// strings included.
    pub fn same(&self, other: &TypeExpression) -> (r: bool)
        ensures
            r == (self@ == other@),
        decreases self,
    {
        match (self, other) {
            (TypeExpression::Variable(a), TypeExpression::Variable(b)) => *a == *b,
            (TypeExpression::Builtin(a), TypeExpression::Builtin(b)) => *a == *b,
            (TypeExpression::Generic(n1, a1), TypeExpression::Generic(n2, a2)) => *n1 == *n2
                && a1.same(a2),
            (TypeExpression::Struct(a), TypeExpression::Struct(b)) => a.same(b),
            (TypeExpression::Variant(a), TypeExpression::Variant(b)) => a.same(b),
            (TypeExpression::Intersection(a1, b1), TypeExpression::Intersection(a2, b2)) => {
                let left: &TypeExpression = a1;
                let right: &TypeExpression = b1;
                left.same(a2) && right.same(b2)
            },
            _ => false,
        }
    }
}

impl StructField {
    /// The field with `mapping` substituted into its type.
    pub fn unify(&self, mapping: &TypeArgs) -> (r: StructField)
        ensures
            r@ == substitute_member(self@, mapping@),
        decreases self,
    {
        StructField {
            name: self.name.clone(),
            type_: self.type_.unify(mapping),
            comment: clone_doc(&self.comment),
        }
    }
}

impl VariantOption {
    /// The option with `mapping` substituted into its type.
    pub fn unify(&self, mapping: &TypeArgs) -> (r: VariantOption)
        ensures
            r@ == substitute_member(self@, mapping@),
        decreases self,
    {
        VariantOption {
            name: self.name.clone(),
            type_: self.type_.unify(mapping),
            comment: clone_doc(&self.comment),
        }
    }
}

impl StructTypeExpression {
    /// The struct with `mapping` substituted into the type of each field.
    pub fn unify(&self, mapping: &TypeArgs) -> (r: StructTypeExpression)
        ensures
            r@ == substitute_members(self@, mapping@),
        decreases self,
    {
        let mut fields: Vec<StructField> = Vec::new();
        let mut i: usize = 0;
        while i < self.fields.len()
            invariant
                i <= self.fields.len(),
                fields@.len() == i,
                forall|k: int|
                    0 <= k < i ==> (#[trigger] fields@[k])@ == substitute_member(
                        self.fields@[k]@,
                        mapping@,
                    ),
            decreases self.fields.len() - i,
        {
            fields.push(self.fields[i].unify(mapping));
            i = i + 1;
        }
        proof {
            assert(fields_view(fields@) =~= substitute_members(self@, mapping@));
        }
        StructTypeExpression { fields }
    }
}

impl VariantTypeExpression {
    /// The variant with `mapping` substituted into the type of each option.
    pub fn unify(&self, mapping: &TypeArgs) -> (r: VariantTypeExpression)
        ensures
            r@ == substitute_members(self@, mapping@),
        decreases self,
    {
        let mut variants: Vec<VariantOption> = Vec::new();
        let mut i: usize = 0;
        while i < self.variants.len()
            invariant
                i <= self.variants.len(),
                variants@.len() == i,
                forall|k: int|
                    0 <= k < i ==> (#[trigger] variants@[k])@ == substitute_member(
                        self.variants@[k]@,
                        mapping@,
                    ),
            decreases self.variants.len() - i,
        {
            variants.push(self.variants[i].unify(mapping));
            i = i + 1;
        }
        proof {
            assert(options_view(variants@) =~= substitute_members(self@, mapping@));
        }
        VariantTypeExpression { variants }
    }
}

impl TypeArgs {
    /// The bindings with `mapping` substituted into the expression of each.
    pub fn unify(&self, mapping: &TypeArgs) -> (r: TypeArgs)
        ensures
            r@ == substitute_bindings(self@, mapping@),
        decreases self,
    {
        proof {
            use_type_invariant(self);
        }
        let mut entries: Vec<(String, TypeExpression)> = Vec::new();
        let mut i: usize = 0;
        while i < self.entries.len()
            invariant
                i <= self.entries.len(),
                entries@.len() == i,
                forall|k: int|
                    0 <= k < i ==> (#[trigger] entries@[k]).0@ == self.entries@[k].0@ && expr_view(
                        entries@[k].1,
                    ) == substitute(expr_view(self.entries@[k].1), mapping@),
            decreases self.entries.len() - i,
        {
            entries.push((self.entries[i].0.clone(), self.entries[i].1.unify(mapping)));
            i = i + 1;
        }
        proof {
            assert(entries_view(entries@) =~= substitute_bindings(self@, mapping@));
            assert forall|a: int, b: int| 0 <= a < b < entries@.len() implies str_lt(
                #[trigger] entries_view(entries@)[a].0,
                #[trigger] entries_view(entries@)[b].0,
            ) by {
                assert(self@[a].0 == entries_view(entries@)[a].0);
                assert(self@[b].0 == entries_view(entries@)[b].0);
            }
        }
        TypeArgs { entries }
    }
}

impl TypeExpression {
    /// The expression with every variable that `mapping` binds replaced by
    /// the bound expression.
    pub fn unify(&self, mapping: &TypeArgs) -> (r: TypeExpression)
        ensures
            r@ == substitute(self@, mapping@),
        decreases self,
    {
        match self {
            TypeExpression::Variable(name) => match mapping.get(name.as_str()) {
                Some(bound) => bound.clone(),
                None => TypeExpression::Variable(name.clone()),
            },
            TypeExpression::Builtin(kind) => TypeExpression::Builtin(*kind),
            TypeExpression::Generic(name, args) => TypeExpression::Generic(
                name.clone(),
                args.unify(mapping),
            ),
            TypeExpression::Struct(s) => TypeExpression::Struct(s.unify(mapping)),
            TypeExpression::Variant(v) => TypeExpression::Variant(v.unify(mapping)),
            TypeExpression::Intersection(a, b) => {
                let left: &TypeExpression = a;
                let right: &TypeExpression = b;
                TypeExpression::Intersection(
                    Box::new(left.unify(mapping)),
                    Box::new(right.unify(mapping)),
                )
            },
        }
    }
}

/// The name of a builtin.
pub open spec fn builtin_text(kind: Builtin) -> Seq<char> {
    match kind {
        Builtin::Int => "int"@,
        Builtin::Float => "float"@,
        Builtin::String => "string"@,
        Builtin::Bool => "bool"@,
        Builtin::Unit => "unit"@,
    }
}

impl Builtin {
    /// The name of the builtin.
    pub fn to_string(&self) -> (r: String)
        ensures
            r@ == builtin_text(*self),
    {
        match self {
            Builtin::Int => String::from_str("int"),
            Builtin::Float => String::from_str("float"),
            Builtin::String => String::from_str("string"),
            Builtin::Bool => String::from_str("bool"),
            Builtin::Unit => String::from_str("unit"),
        }
    }
}

/// The text that the `Debug` formatting of the standard library gives for
/// an expression.
pub uninterp spec fn debug_text(e: Expr) -> Seq<char>;

/// The `Debug` text of `e`. This calls `format!` of the standard library
/// with `{:?}`; the contract only gives what it returns a name, `debug_text`,
/// and claims that the text depends on what the expression is alone.
#[verifier::external_body]
pub(crate) fn debug_string(e: &TypeExpression) -> (r: String)
    ensures
        r@ == debug_text(e@),
{
    format!("{:?}", e)
}

impl PartialEq for StructField {
    fn eq(&self, other: &StructField) -> (r: bool) {
        self.same(other)
    }
}

impl vstd::std_specs::cmp::PartialEqSpecImpl for StructField {
    open spec fn obeys_eq_spec() -> bool {
        true
    }

    open spec fn eq_spec(&self, other: &StructField) -> bool {
        self@ == other@
    }
}

impl Eq for StructField {

}

impl PartialEq for VariantOption {
    fn eq(&self, other: &VariantOption) -> (r: bool) {
        self.same(other)
    }
}

impl vstd::std_specs::cmp::PartialEqSpecImpl for VariantOption {
    open spec fn obeys_eq_spec() -> bool {
        true
    }

    open spec fn eq_spec(&self, other: &VariantOption) -> bool {
        self@ == other@
    }
}

impl Eq for VariantOption {

}

impl PartialEq for StructTypeExpression {
    fn eq(&self, other: &StructTypeExpression) -> (r: bool) {
        self.same(other)
    }
}

impl vstd::std_specs::cmp::PartialEqSpecImpl for StructTypeExpression {
    open spec fn obeys_eq_spec() -> bool {
        true
    }

    open spec fn eq_spec(&self, other: &StructTypeExpression) -> bool {
        self@ == other@
    }
}

impl Eq for StructTypeExpression {

}

impl PartialEq for VariantTypeExpression {
    fn eq(&self, other: &VariantTypeExpression) -> (r: bool) {
        self.same(other)
    }
}

impl vstd::std_specs::cmp::PartialEqSpecImpl for VariantTypeExpression {
    open spec fn obeys_eq_spec() -> bool {
        true
    }

    open spec fn eq_spec(&self, other: &VariantTypeExpression) -> bool {
        self@ == other@
    }
}

impl Eq for VariantTypeExpression {

}

impl PartialEq for TypeArgs {
    fn eq(&self, other: &TypeArgs) -> (r: bool) {
        self.same(other)
    }
}

impl vstd::std_specs::cmp::PartialEqSpecImpl for TypeArgs {
    open spec fn obeys_eq_spec() -> bool {
        true
    }

    open spec fn eq_spec(&self, other: &TypeArgs) -> bool {
        self@ == other@
    }
}

impl Eq for TypeArgs {

}

impl PartialEq for TypeExpression {
    fn eq(&self, other: &TypeExpression) -> (r: bool) {
        self.same(other)
    }
}

impl vstd::std_specs::cmp::PartialEqSpecImpl for TypeExpression {
    open spec fn obeys_eq_spec() -> bool {
        true
    }

    open spec fn eq_spec(&self, other: &TypeExpression) -> bool {
        self@ == other@
    }
}

impl Eq for TypeExpression {

}

} // verus!
