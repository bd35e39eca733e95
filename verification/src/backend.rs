//! A backend that renders lowered types as Python declarations for msgspec:
//! a struct as a class, anything else as a type alias.

use crate::ast::Builtin;
use crate::error::{CompileError, Failure};
use crate::frontend::{fetch, resolve, Entry, IRCompiler, TypeAllocator};
use crate::ir::{
    shape_of_resolved, IRType, Identity, Named, NamedIRType, Prim, PrimitiveStructField,
    PrimitiveType, Shape, Slot, TypeName,
};
use crate::text::{decimal, decimal_string, joined};
use std::collections::VecDeque;
use vstd::prelude::*;

verus! {

/// Gives each identity a display name, and each generic instantiation an
/// ordinal of its own, in the order in which they are first named.
#[derive(Debug)]
pub struct TypeNameAllocator {
    names: Vec<TypeName>,
}

impl View for TypeNameAllocator {
    type V = Seq<Identity>;

    closed spec fn view(&self) -> Seq<Identity> {
        Seq::new(self.names@.len(), |i: int| self.names@[i]@)
    }
}

/// The ordinal of `id` among `names`: the first place at which it stands.
pub open spec fn ordinal(names: Seq<Identity>, id: Identity) -> Option<nat>
    decreases names.len(),
{
    if names.len() == 0 {
        None
    } else {
        match ordinal(names.drop_last(), id) {
            Some(k) => Some(k),
            None => if names.last() == id {
                Some((names.len() - 1) as nat)
            } else {
                None
            },
        }
    }
}

/// The display name of `id`, and the names after it is given: a declared
/// name as it is; a generic instantiation by its name and its ordinal, which
/// is the next one where the instantiation was not named before; a temporary
/// as `T` and its number.
pub open spec fn display_name(names: Seq<Identity>, id: Identity) -> (Seq<Identity>, Seq<char>) {
    match id {
        Identity::Variable(name) => (names, name),
        Identity::Generic(name, _) => match ordinal(names, id) {
            Some(k) => (names, name + decimal(k)),
            None => (names.push(id), name + decimal(names.len())),
        },
        Identity::Temporary(n) => (names, "T"@ + decimal(n)),
    }
}

/// What `ordinal` gives: the first place of the identity, and none where it
/// does not stand among the names.
pub proof fn lemma_ordinal(names: Seq<Identity>, id: Identity)
    ensures
        match ordinal(names, id) {
            Some(k) => k < names.len() && names[k as int] == id && forall|j: int|
                0 <= j < k ==> #[trigger] names[j] != id,
            None => forall|j: int| 0 <= j < names.len() ==> #[trigger] names[j] != id,
        },
    decreases names.len(),
{
    if names.len() > 0 {
        let front = names.drop_last();
        lemma_ordinal(front, id);
        match ordinal(front, id) {
            Some(k) => {
                assert(names[k as int] == front[k as int]);
                assert forall|j: int| 0 <= j < k implies #[trigger] names[j] != id by {
                    assert(front[j] == names[j]);
                }
            },
            None => {
                assert forall|j: int| 0 <= j < names.len() - 1 implies #[trigger] names[j] != id by {
                    assert(front[j] == names[j]);
                }
            },
        }
    }
}

impl TypeNameAllocator {
    /// An allocator that has named nothing yet.
    pub fn new() -> (r: TypeNameAllocator)
        ensures
            r@ == Seq::<Identity>::empty(),
    {
        let r = TypeNameAllocator { names: Vec::new() };
        proof {
            assert(r@ =~= Seq::<Identity>::empty());
        }
        r
    }

    /// The display name of `identity`.
    pub fn allocate_name(&mut self, identity: &TypeName) -> (r: String)
        ensures
            (final(self)@, r@) == display_name(old(self)@, identity@),
    {
        match identity {
            TypeName::Variable(name) => name.clone(),
            TypeName::Generic(name, _) => {
                proof {
                    lemma_ordinal(self@, identity@);
                }
                let mut i: usize = 0;
                while i < self.names.len()
                    invariant
                        i <= self.names.len(),
                        self.names@.len() == self@.len(),
                        *self == *old(self),
                        identity@ is Generic,
                        name@ == identity@->Generic_0,
                        forall|j: int| 0 <= j < i ==> #[trigger] self@[j] != identity@,
                    decreases self.names.len() - i,
                {
                    if self.names[i].same(identity) {
                        proof {
                            lemma_ordinal(self@, identity@);
                            assert(self@[i as int] == identity@);
                        }
                        let number = decimal_string(i);
                        return joined(name.as_str(), number.as_str());
                    }
                    i = i + 1;
                }
                let id = self.names.len();
                self.names.push(identity.clone());
                proof {
                    assert(self@ =~= old(self)@.push(identity@));
                }
                let number = decimal_string(id);
                joined(name.as_str(), number.as_str())
            },
            TypeName::Temporary(id) => {
                let number = decimal_string(*id);
                joined("T", number.as_str())
            },
        }
    }
}

/// The state of a rendering: the display names given so far, the table
/// that references are looked up in, the identities already rendered, and
/// the types that wait to be rendered, the next one first.
pub struct PrimitiveTypeWriter<'a> {
    pub name_allocator: &'a mut TypeNameAllocator,
    pub allocator: &'a TypeAllocator,
    pub compiled: Vec<TypeName>,
    pub stack: VecDeque<NamedIRType>,
}

/// What a `PrimitiveTypeWriter` is.
pub struct Writer {
    pub names: Seq<Identity>,
    pub table: Seq<Entry>,
    pub compiled: Seq<Identity>,
    pub stack: Seq<Named>,
}

impl<'a> View for PrimitiveTypeWriter<'a> {
    type V = Writer;

    open spec fn view(&self) -> Writer {
        Writer {
            names: self.name_allocator@,
            table: self.allocator@,
            compiled: Seq::new(self.compiled@.len(), |i: int| self.compiled@[i]@),
            stack: Seq::new(self.stack@.len(), |i: int| self.stack@[i]@),
        }
    }
}

/// The Python name of a builtin.
pub open spec fn python_builtin(kind: Builtin) -> Seq<char> {
    match kind {
        Builtin::Int => "int"@,
        Builtin::Float => "float"@,
        Builtin::String => "str"@,
        Builtin::Bool => "bool"@,
        Builtin::Unit => "None"@,
    }
}

/// Whether `id` is among `compiled`.
pub open spec fn is_compiled(compiled: Seq<Identity>, id: Identity) -> bool {
    exists|i: int| 0 <= i < compiled.len() && #[trigger] compiled[i] == id
}

/// The writer after the reference `id` is rendered, and its text: the
/// display name of the type stored under `id`. Unless that type is rendered
/// already, it is put at the front of those that wait.
pub open spec fn rendered_reference(w: Writer, id: nat) -> (Writer, Result<Seq<char>, Failure>) {
    match fetch(w.table, id) {
        Err(f) => (w, Err(f)),
        Ok(named) => {
            let (names, text) = display_name(w.names, named.name);
            (
                Writer {
                    names,
                    table: w.table,
                    compiled: w.compiled,
                    stack: if is_compiled(w.compiled, named.name) {
                        w.stack
                    } else {
                        seq![named] + w.stack
                    },
                },
                Ok(text),
            )
        },
    }
}

/// The writer after the primitive type `p` is rendered, and its text.
pub open spec fn rendered_primitive(w: Writer, p: Prim) -> (Writer, Result<Seq<char>, Failure>) {
    match p {
        Prim::Builtin(kind) => (w, Ok(python_builtin(kind))),
        Prim::Reference(id) => rendered_reference(w, id),
    }
}

/// The line of a documentation string, if there is one.
pub open spec fn comment_line(doc: Option<Seq<char>>) -> Seq<char> {
    match doc {
        Some(text) => "    # "@ + text + "\n"@,
        None => Seq::empty(),
    }
}

/// The lines of a field whose type has the text `ty`: its documentation
/// line, if it has one, and a line of its name and its type.
pub open spec fn field_line(field: Slot, ty: Seq<char>) -> Seq<char> {
    comment_line(field.doc) + "    "@ + field.name + ": "@ + ty + "\n"@
}

/// The writer after the first `n` of `fields` are rendered in order, and
/// their text: for each field its documentation line, if it has one, and a
/// line of its name and its type. The first failure stops it.
pub open spec fn rendered_fields(w: Writer, fields: Seq<Slot>, n: nat) -> (
    Writer,
    Result<Seq<char>, Failure>,
)
    decreases n,
{
    if n == 0 || n > fields.len() {
        (w, Ok(Seq::empty()))
    } else {
        let (w1, r1) = rendered_fields(w, fields, (n - 1) as nat);
        match r1 {
            Err(f) => (w1, Err(f)),
            Ok(text) => {
                let field = fields[n - 1];
                let (w2, r2) = rendered_primitive(w1, field.ty);
                match r2 {
                    Err(f) => (w2, Err(f)),
                    Ok(ty) => (w2, Ok(text + field_line(field, ty))),
                }
            },
        }
    }
}

/// The writer after the type `shape` is rendered under the name `name`, and
/// its text: a class for a struct, an alias of the display name of the
/// referred type for a reference, and an alias of `None` for anything else.
pub open spec fn rendered_declaration(w: Writer, name: Seq<char>, shape: Shape) -> (
    Writer,
    Result<Seq<char>, Failure>,
) {
    match shape {
        Shape::Struct(fields) => {
            let (w1, r) = rendered_fields(w, fields, fields.len());
            match r {
                Err(f) => (w1, Err(f)),
                Ok(text) => (w1, Ok("class "@ + name + "(msgspec.Struct):\n"@ + text)),
            }
        },
        Shape::Reference(id) => match fetch(w.table, id) {
            Err(f) => (w, Err(f)),
            Ok(named) => {
                let (names, rhs) = display_name(w.names, named.name);
                (
                    Writer { names, table: w.table, compiled: w.compiled, stack: w.stack },
                    Ok(name + ": TypeAlias = "@ + rhs + "\n"@),
                )
            },
        },
        _ => (w, Ok(name + ": TypeAlias = "@ + python_builtin(Builtin::Unit) + "\n"@)),
    }
}

/// Once rendering a field has failed, the fields after it are not rendered.
pub proof fn lemma_fields_failed(w: Writer, fields: Seq<Slot>, k: nat, n: nat)
    requires
        k <= n <= fields.len(),
        rendered_fields(w, fields, k).1 is Err,
    ensures
        rendered_fields(w, fields, n) == rendered_fields(w, fields, k),
    decreases n,
{
    if n > k {
        lemma_fields_failed(w, fields, k, (n - 1) as nat);
    }
}

/// Appends the lines of `field` to `out`, with `ty` as the text of its type.
fn push_field(out: &mut String, field: &PrimitiveStructField, ty: &str)
    ensures
        final(out)@ == old(out)@ + field_line(field@, ty@),
{
    match &field.comment {
        Some(comment) => {
            out.append("    # ");
            out.append(comment.as_str());
            out.append("\n");
        },
        None => {},
    }
    out.append("    ");
    out.append(field.name.as_str());
    out.append(": ");
    out.append(ty);
    out.append("\n");
    proof {
        assert(out@ =~= old(out)@ + field_line(field@, ty@));
    }
}

/// What the outcome of a rendering is.
pub open spec fn text_view(r: Result<String, CompileError>) -> Result<Seq<char>, Failure> {
    match r {
        Ok(text) => Ok(text@),
        Err(e) => Err(e@),
    }
}

impl<'a> PrimitiveTypeWriter<'a> {
    /// The display name of `identity`.
    pub fn allocate_name(&mut self, identity: &TypeName) -> (r: String)
        ensures
            r@ == display_name(old(self)@.names, identity@).1,
            final(self)@ == (Writer {
                names: display_name(old(self)@.names, identity@).0,
                table: old(self)@.table,
                compiled: old(self)@.compiled,
                stack: old(self)@.stack,
            }),
    {
        self.name_allocator.allocate_name(identity)
    }

    /// Whether `identity` is rendered already.
    pub fn is_compiled(&self, identity: &TypeName) -> (r: bool)
        ensures
            r == is_compiled(self@.compiled, identity@),
    {
        let mut i: usize = 0;
        while i < self.compiled.len()
            invariant
                i <= self.compiled.len(),
                forall|j: int| 0 <= j < i ==> #[trigger] self@.compiled[j] != identity@,
            decreases self.compiled.len() - i,
        {
            if self.compiled[i].same(identity) {
                proof {
                    assert(self@.compiled[i as int] == identity@);
                }
                return true;
            }
            i = i + 1;
        }
        false
    }

    /// The Python name of a builtin.
    pub fn convert_builtin(&self, t: &Builtin) -> (r: String)
        ensures
            r@ == python_builtin(*t),
    {
        match t {
            Builtin::Int => String::from_str("int"),
            Builtin::Float => String::from_str("float"),
            Builtin::String => String::from_str("str"),
            Builtin::Bool => String::from_str("bool"),
            Builtin::Unit => String::from_str("None"),
        }
    }

    /// The text of a primitive type: the Python name of a builtin, or the
    /// display name of the referred type, which is put at the front of those
    /// that wait unless it is rendered already. Fails with `BrokenReference`
    /// where the reference has no body in the table.
    pub fn convert_primitive_type(&mut self, t: &PrimitiveType) -> (r: Result<String, CompileError>)
        ensures
            (final(self)@, text_view(r)) == rendered_primitive(old(self)@, t@),
    {
        match t {
            PrimitiveType::Builtin(builtin) => Ok(self.convert_builtin(builtin)),
            PrimitiveType::Reference(id) => {
                let table = self.allocator;
                match table.get(*id) {
                    Err(e) => Err(e),
                    Ok(named) => {
                        if !self.is_compiled(&named.name) {
                            self.stack.push_front(named.clone());
                            proof {
                                assert(self@.stack =~= seq![named@] + old(self)@.stack);
                            }
                        }
                        Ok(self.allocate_name(&named.name))
                    },
                }
            },
        }
    }

    /// The declaration of the type `t` under the name `name`: a class for a
    /// struct, with a line for each field and one before it for its
    /// documentation; an alias of the display name of the referred type for a
    /// reference; an alias of `None` for anything else. Fails with
    /// `BrokenReference` where a reference has no body in the table.
    pub fn convert_named_ir_type(&mut self, name: &str, t: &IRType) -> (r: Result<
        String,
        CompileError,
    >)
        ensures
            (final(self)@, text_view(r)) == rendered_declaration(old(self)@, name@, t@),
    {
        match t {
            IRType::Struct(body) => {
                let ghost w0 = self@;
                let mut result = String::from_str("class ");
                result.append(name);
                result.append("(msgspec.Struct):\n");
                let ghost head = result@;
                let ghost mut text: Seq<char> = Seq::empty();
                let mut i: usize = 0;
                proof {
                    assert(result@ =~= head + text);
                }
                while i < body.fields.len()
                    invariant
                        i <= body.fields.len(),
                        body@.len() == body.fields.len(),
                        w0 == old(self)@,
                        t@ == Shape::Struct(body@),
                        head == "class "@ + name@ + "(msgspec.Struct):\n"@,
                        rendered_fields(w0, body@, i as nat) == (
                            self@,
                            Ok::<Seq<char>, Failure>(text),
                        ),
                        result@ == head + text,
                    decreases body.fields.len() - i,
                {
                    let field = &body.fields[i];
                    proof {
                        assert(body@[i as int] == field@);
                    }
                    let ty = match self.convert_primitive_type(&field.type_) {
                        Err(e) => {
                            proof {
                                lemma_fields_failed(w0, body@, (i + 1) as nat, body@.len());
                            }
                            return Err(e);
                        },
                        Ok(ty) => ty,
                    };
                    push_field(&mut result, field, ty.as_str());
                    proof {
                        let line = text + field_line(field@, ty@);
                        assert(result@ =~= head + line);
                        text = line;
                    }
                    i = i + 1;
                }
                Ok(result)
            },
            IRType::Reference(reference) => {
                let table = self.allocator;
                match table.get(*reference) {
                    Err(e) => Err(e),
                    Ok(rhs) => {
                        let rhs_name = self.allocate_name(&rhs.name);
                        let mut result = String::from_str(name);
                        result.append(": TypeAlias = ");
                        result.append(rhs_name.as_str());
                        result.append("\n");
                        Ok(result)
                    },
                }
            },
            _ => {
                let rhs = self.convert_builtin(&Builtin::Unit);
                let mut result = String::from_str(name);
                result.append(": TypeAlias = ");
                result.append(rhs.as_str());
                result.append("\n");
                Ok(result)
            },
        }
    }
}

/// Whether `named` is stored in some row of `table`.
pub open spec fn stored_in(table: Seq<Entry>, named: Named) -> bool {
    exists|id: int| 0 <= id < table.len() && (#[trigger] table[id]).body == Some(named)
}

/// Whether every type that waits is stored in the table.
pub open spec fn anchored(w: Writer) -> bool {
    forall|i: int| 0 <= i < w.stack.len() ==> stored_in(w.table, #[trigger] w.stack[i])
}

/// The declared types among the first `n` rows of `table`, in the order of
/// their ids: the stored types whose identity is a variable.
pub open spec fn roots(table: Seq<Entry>, n: nat) -> Seq<Named>
    decreases n,
{
    if n == 0 || n > table.len() {
        Seq::empty()
    } else if table[n - 1].body is Some && table[n - 1].body->0.name is Variable {
        roots(table, (n - 1) as nat).push(table[n - 1].body->0)
    } else {
        roots(table, (n - 1) as nat)
    }
}

/// The writer after the type that waits first is taken, and its rendering:
/// nothing where no type waits, or the identity of the type is rendered
/// already; else the identity is marked as rendered and given its display
/// name, the type is resolved, and what it resolves to is rendered as a
/// declaration under that name.
pub open spec fn step(w: Writer) -> (Writer, Result<Option<Seq<char>>, Failure>) {
    if w.stack.len() == 0 {
        (w, Ok(None))
    } else {
        let next = w.stack[0];
        let rest = w.stack.drop_first();
        if is_compiled(w.compiled, next.name) {
            (Writer { names: w.names, table: w.table, compiled: w.compiled, stack: rest }, Ok(None))
        } else {
            let (names, name) = display_name(w.names, next.name);
            let w1 = Writer {
                names,
                table: w.table,
                compiled: w.compiled.push(next.name),
                stack: rest,
            };
            match resolve(w.table, next.body, w.table.len()) {
                Err(f) => (w1, Err(f)),
                Ok(resolved) => {
                    let (w2, r) = rendered_declaration(w1, name, shape_of_resolved(resolved));
                    match r {
                        Err(f) => (w2, Err(f)),
                        Ok(text) => (w2, Ok(Some(text))),
                    }
                },
            }
        }
    }
}

/// The writer after `n` steps, and the declarations rendered by them, in
/// order. The first failure stops it.
pub open spec fn drain(w: Writer, n: nat) -> (Writer, Result<Seq<Seq<char>>, Failure>)
    decreases n,
{
    if n == 0 {
        (w, Ok(Seq::empty()))
    } else {
        let (w1, r1) = drain(w, (n - 1) as nat);
        match r1 {
            Err(f) => (w1, Err(f)),
            Ok(lines) => {
                let (w2, r2) = step(w1);
                match r2 {
                    Err(f) => (w2, Err(f)),
                    Ok(None) => (w2, Ok(lines)),
                    Ok(Some(text)) => (w2, Ok(lines.push(text))),
                }
            },
        }
    }
}

/// Once no type waits, or a step has failed, further steps change nothing:
/// what `drain` gives then is what it gives for every greater number of
/// steps.
pub proof fn lemma_drain_settles(w: Writer, n: nat, m: nat)
    requires
        n <= m,
        drain(w, n).1 is Err || drain(w, n).0.stack.len() == 0,
    ensures
        drain(w, m) == drain(w, n),
    decreases m,
{
    if m > n {
        lemma_drain_settles(w, n, (m - 1) as nat);
    }
}

/// The number of rows among the first `n` of `table` whose stored type has
/// an identity that is not rendered yet.
pub open spec fn pending(table: Seq<Entry>, compiled: Seq<Identity>, n: nat) -> nat
    decreases n,
{
    if n == 0 || n > table.len() {
        0
    } else if table[n - 1].body is Some && !is_compiled(compiled, table[n - 1].body->0.name) {
        pending(table, compiled, (n - 1) as nat) + 1
    } else {
        pending(table, compiled, (n - 1) as nat)
    }
}

/// Marking an identity as rendered leaves no more rows pending, and fewer
/// where a row among them has that identity and it was not rendered before.
pub proof fn lemma_pending_shrinks(
    table: Seq<Entry>,
    compiled: Seq<Identity>,
    name: Identity,
    n: nat,
)
    requires
        n <= table.len(),
    ensures
        pending(table, compiled.push(name), n) <= pending(table, compiled, n),
        !is_compiled(compiled, name) && (exists|id: int|
            0 <= id < n && (#[trigger] table[id]).body is Some && table[id].body->0.name == name)
            ==> pending(table, compiled.push(name), n) < pending(table, compiled, n),
    decreases n,
{
    if n > 0 {
        lemma_pending_shrinks(table, compiled, name, (n - 1) as nat);
        let after = compiled.push(name);
        if table[n - 1].body is Some {
            let id = table[n - 1].body->0.name;
            if is_compiled(compiled, id) {
                let k = choose|k: int| 0 <= k < compiled.len() && #[trigger] compiled[k] == id;
                assert(after[k] == id);
            }
            if id == name {
                assert(after[compiled.len() as int] == name);
            }
        }
        if !is_compiled(compiled, name) && (exists|id: int|
            0 <= id < n && (#[trigger] table[id]).body is Some && table[id].body->0.name == name) {
            let id = choose|id: int|
                0 <= id < n && (#[trigger] table[id]).body is Some && table[id].body->0.name
                    == name;
            if id < n - 1 {
                assert(table[id].body is Some);
            }
        }
    }
}

/// Rendering a declaration keeps every waiting type stored in the table,
/// and marks nothing as rendered.
pub proof fn lemma_rendering_anchored(w: Writer, name: Seq<char>, shape: Shape)
    requires
        anchored(w),
    ensures
        anchored(rendered_declaration(w, name, shape).0),
        rendered_declaration(w, name, shape).0.compiled == w.compiled,
        rendered_declaration(w, name, shape).0.table == w.table,
{
    if let Shape::Struct(fields) = shape {
        lemma_fields_anchored(w, fields, fields.len());
    }
}

/// The same of rendering the first `n` fields of a struct.
pub proof fn lemma_fields_anchored(w: Writer, fields: Seq<Slot>, n: nat)
    requires
        anchored(w),
    ensures
        anchored(rendered_fields(w, fields, n).0),
        rendered_fields(w, fields, n).0.compiled == w.compiled,
        rendered_fields(w, fields, n).0.table == w.table,
    decreases n,
{
    if n == 0 || n > fields.len() {
    } else {
        lemma_fields_anchored(w, fields, (n - 1) as nat);
        let (w1, r1) = rendered_fields(w, fields, (n - 1) as nat);
        if r1 is Ok {
            if let Prim::Reference(id) = fields[n - 1].ty {
                if let Ok(named) = fetch(w1.table, id) {
                    let w2 = rendered_reference(w1, id).0;
                    assert(w1.table[id as int].body == Some(named));
                    assert forall|i: int| 0 <= i < w2.stack.len() implies stored_in(
                        w2.table,
                        #[trigger] w2.stack[i],
                    ) by {
                        if !is_compiled(w1.compiled, named.name) {
                            if i > 0 {
                                assert(w2.stack[i] == w1.stack[i - 1]);
                            }
                        }
                    }
                }
            }
        }
    }
}

/// What the outcome of a step is.
pub open spec fn line_view(r: Result<Option<String>, CompileError>) -> Result<
    Option<Seq<char>>,
    Failure,
> {
    match r {
        Ok(Some(text)) => Ok(Some(text@)),
        Ok(None) => Ok(None),
        Err(e) => Err(e@),
    }
}

/// What the outcome of rendering everything is.
pub open spec fn lines_view(r: Result<Vec<String>, CompileError>) -> Result<
    Seq<Seq<char>>,
    Failure,
> {
    match r {
        Ok(lines) => Ok(Seq::new(lines@.len(), |i: int| lines@[i]@)),
        Err(e) => Err(e@),
    }
}

impl<'a> PrimitiveTypeWriter<'a> {
    /// A writer for the types of `allocator` that has rendered nothing yet
    /// and has nothing waiting.
    pub fn new(name_allocator: &'a mut TypeNameAllocator, allocator: &'a TypeAllocator) -> (r:
        PrimitiveTypeWriter<'a>)
        ensures
            r@ == (Writer {
                names: old(name_allocator)@,
                table: allocator@,
                compiled: Seq::empty(),
                stack: Seq::empty(),
            }),
    {
        let r = PrimitiveTypeWriter {
            name_allocator,
            allocator,
            compiled: Vec::new(),
            stack: VecDeque::new(),
        };
        proof {
            assert(r@.compiled =~= Seq::empty());
            assert(r@.stack =~= Seq::empty());
        }
        r
    }

    /// Puts the declared types of the table behind those that wait, in the
    /// order of their ids.
    pub fn seed(&mut self)
        ensures
            final(self)@ == (Writer {
                names: old(self)@.names,
                table: old(self)@.table,
                compiled: old(self)@.compiled,
                stack: old(self)@.stack + roots(old(self)@.table, old(self)@.table.len()),
            }),
            anchored(old(self)@) ==> anchored(final(self)@),
    {
        let table = self.allocator;
        let mut i: usize = 0;
        proof {
            assert(self@.stack =~= old(self)@.stack + roots(self@.table, 0));
        }
        while i < table.len()
            invariant
                i <= table@.len(),
                table@ == old(self)@.table,
                self@.names == old(self)@.names,
                self@.table == old(self)@.table,
                self@.compiled == old(self)@.compiled,
                self@.stack == old(self)@.stack + roots(table@, i as nat),
                anchored(old(self)@) ==> anchored(self@),
            decreases table@.len() - i,
        {
            match table.get(i) {
                Ok(named) => {
                    if let TypeName::Variable(_) = &named.name {
                        let ghost before = self@;
                        self.stack.push_back(named.clone());
                        proof {
                            assert(self@.stack =~= before.stack.push(named@));
                            assert(self@.stack =~= old(self)@.stack + roots(table@, (i + 1) as nat));
                            assert(table@[i as int].body == Some(named@));
                            if anchored(old(self)@) {
                                assert forall|k: int| 0 <= k < self@.stack.len() implies stored_in(
                                    self@.table,
                                    #[trigger] self@.stack[k],
                                ) by {
                                    if k < before.stack.len() {
                                        assert(self@.stack[k] == before.stack[k]);
                                    }
                                }
                            }
                        }
                    }
                },
                Err(_) => {},
            }
            i = i + 1;
        }
    }

    /// Takes the type that waits first and renders it, unless its identity
    /// is rendered already. Returns the declaration, if one was rendered.
    pub fn render_next(&mut self) -> (r: Result<Option<String>, CompileError>)
        ensures
            (final(self)@, line_view(r)) == step(old(self)@),
    {
        let next = match self.stack.pop_front() {
            None => {
                return Ok(None);
            },
            Some(next) => next,
        };
        proof {
            assert(self@.stack =~= old(self)@.stack.drop_first());
            assert(next@ == old(self)@.stack[0]);
        }
        if self.is_compiled(&next.name) {
            return Ok(None);
        }
        self.compiled.push(next.name.clone());
        proof {
            assert(self@.compiled =~= old(self)@.compiled.push(next@.name));
        }
        let name = self.allocate_name(&next.name);
        let table = self.allocator;
        let resolved = match table.resolve(&next.t) {
            Err(e) => {
                return Err(e);
            },
            Ok(resolved) => resolved,
        };
        let shape = IRType::from(resolved);
        match self.convert_named_ir_type(name.as_str(), &shape) {
            Err(e) => Err(e),
            Ok(text) => Ok(Some(text)),
        }
    }

    /// Renders the types that wait, and those that they refer to, until
    /// none waits: each identity once, in the order in which the types are
    /// taken. Returns the declarations in that order.
    pub fn render_all(&mut self) -> (r: Result<Vec<String>, CompileError>)
        requires
            anchored(old(self)@),
        ensures
            exists|n: nat| drain(old(self)@, n) == (final(self)@, lines_view(r)),
            r is Ok ==> final(self)@.stack.len() == 0,
    {
        let mut out: Vec<String> = Vec::new();
        let ghost mut n: nat = 0;
        let ghost w0 = self@;
        proof {
            assert(lines_view(Ok(out))->Ok_0 =~= Seq::empty());
        }
        while self.stack.len() > 0
            invariant
                w0 == old(self)@,
                anchored(self@),
                self@.table == w0.table,
                drain(w0, n) == (self@, lines_view(Ok(out))),
            decreases pending(self@.table, self@.compiled, self@.table.len()), self@.stack.len(),
        {
            let ghost before = self@;
            let ghost lines = lines_view(Ok(out))->Ok_0;
            proof {
                lemma_step_progress(before);
            }
            match self.render_next() {
                Err(e) => {
                    proof {
                        n = n + 1;
                        assert(drain(w0, n) == (self@, Err::<Seq<Seq<char>>, Failure>(e@)));
                    }
                    return Err(e);
                },
                Ok(None) => {
                    proof {
                        n = n + 1;
                        assert(drain(w0, n) == (self@, Ok::<Seq<Seq<char>>, Failure>(lines)));
                    }
                },
                Ok(Some(text)) => {
                    out.push(text);
                    proof {
                        n = n + 1;
                        assert(lines_view(Ok(out))->Ok_0 =~= lines.push(text@));
                        assert(drain(w0, n) == (
                            self@,
                            Ok::<Seq<Seq<char>>, Failure>(lines.push(text@)),
                        ));
                    }
                },
            }
        }
        proof {
            assert(drain(w0, n) == (self@, lines_view(Ok(out))));
        }
        Ok(out)
    }
}

/// A step keeps every waiting type stored in the table and the table as it
/// is. It leaves fewer rows pending, or else no more rows pending and fewer
/// types waiting.
pub proof fn lemma_step_progress(w: Writer)
    requires
        anchored(w),
        w.stack.len() > 0,
    ensures
        anchored(step(w).0),
        step(w).0.table == w.table,
        pending(w.table, step(w).0.compiled, w.table.len()) < pending(
            w.table,
            w.compiled,
            w.table.len(),
        ) || (pending(w.table, step(w).0.compiled, w.table.len()) == pending(
            w.table,
            w.compiled,
            w.table.len(),
        ) && step(w).0.stack.len() < w.stack.len()),
{
    let next = w.stack[0];
    let rest = w.stack.drop_first();
    assert(stored_in(w.table, next));
    assert forall|i: int| 0 <= i < rest.len() implies stored_in(w.table, #[trigger] rest[i]) by {
        assert(rest[i] == w.stack[i + 1]);
    }
    if !is_compiled(w.compiled, next.name) {
        let id = choose|id: int| 0 <= id < w.table.len() && (#[trigger] w.table[id]).body == Some(next);
        assert(w.table[id].body is Some && w.table[id].body->0.name == next.name);
        lemma_pending_shrinks(w.table, w.compiled, next.name, w.table.len());
        let (names, name) = display_name(w.names, next.name);
        let w1 = Writer { names, table: w.table, compiled: w.compiled.push(next.name), stack: rest };
        if let Ok(resolved) = resolve(w.table, next.body, w.table.len()) {
            lemma_rendering_anchored(w1, name, shape_of_resolved(resolved));
        }
    }
}

/// The declarations of the declared types of `compiler` and of the types
/// that they refer to: each identity once, the declared types in the order
/// of their ids, and a referred type right after the type that first refers
/// to it.
pub fn render_program(compiler: &IRCompiler) -> (r: Result<Vec<String>, CompileError>)
    ensures
        exists|n: nat|
            drain(
                Writer {
                    names: Seq::empty(),
                    table: compiler@.table,
                    compiled: Seq::empty(),
                    stack: roots(compiler@.table, compiler@.table.len()),
                },
                n,
            ).1 == lines_view(r) && (r is Ok ==> drain(
                Writer {
                    names: Seq::empty(),
                    table: compiler@.table,
                    compiled: Seq::empty(),
                    stack: roots(compiler@.table, compiler@.table.len()),
                },
                n,
            ).0.stack.len() == 0),
{
    let mut names = TypeNameAllocator::new();
    let mut writer = PrimitiveTypeWriter::new(&mut names, compiler.allocator());
    writer.seed();
    proof {
        assert(writer@.stack =~= roots(compiler@.table, compiler@.table.len()));
    }
    writer.render_all()
}

} // verus!
