//! The intermediate representation: flat shapes whose members nest only by
//! reference to an id.

use crate::ast::{
    builtin_text, clone_doc, debug_string, debug_text, doc_view, Bindings, Builtin, TypeArgs,
};
use crate::error::{CompileError, Failure};
use crate::text::{decimal, decimal_string, joined, lines_of, text_lines};
use vstd::prelude::*;

verus! {

/// Merging with another value, where the two have no member of one name.
pub trait Intersectable<A, B> {
    fn intersect(&self, other: &B) -> Result<A, CompileError>;
}

/// The identity under which a type is stored: a declared name, one
/// instantiation of a generic, or a number for an aggregate without a name.
#[derive(Debug, Hash)]
pub enum TypeName {
    Variable(String),
    Generic(String, TypeArgs),
    Temporary(usize),
}

/// A type of constant size: a reference to a stored type, or a builtin.
#[derive(Debug, Clone, Copy, PartialEq, Eq, Structural)]
pub enum PrimitiveType {
    Reference(usize),
    Builtin(Builtin),
}

/// One field of a lowered struct.
#[derive(Debug)]
pub struct PrimitiveStructField {
    pub name: String,
    pub type_: PrimitiveType,
    pub comment: Option<String>,
}

/// A lowered struct.
#[derive(Debug)]
pub struct PrimitiveStruct {
    pub fields: Vec<PrimitiveStructField>,
}

/// One option of a lowered variant.
#[derive(Debug)]
pub struct PrimitiveVariantOption {
    pub name: String,
    pub type_: PrimitiveType,
    pub comment: Option<String>,
}

/// A lowered variant.
#[derive(Debug)]
pub struct PrimitiveVariant {
    pub variants: Vec<PrimitiveVariantOption>,
}

/// Any lowered type: a struct, a variant, a reference or a builtin.
#[derive(Debug)]
pub enum IRType {
    Struct(PrimitiveStruct),
    Variant(PrimitiveVariant),
    Reference(usize),
    Builtin(Builtin),
}

/// A lowered type in which the references have been followed.
#[derive(Debug)]
pub enum ResolvedIRType {
    Struct(PrimitiveStruct),
    Variant(PrimitiveVariant),
    Builtin(Builtin),
}

/// A lowered type with its identity.
#[derive(Debug)]
pub struct NamedIRType {
    pub name: TypeName,
    pub t: IRType,
}

/// A primitive type with its identity.
#[derive(Debug)]
pub struct NamedPrimitiveType {
    pub name: TypeName,
    pub t: PrimitiveType,
}

/// What a `PrimitiveType` is.
pub enum Prim {
    Reference(nat),
    Builtin(Builtin),
}

/// What a lowered field or option is.
pub struct Slot {
    pub name: Seq<char>,
    pub ty: Prim,
    pub doc: Option<Seq<char>>,
}

/// What an `IRType` is.
pub enum Shape {
    Struct(Seq<Slot>),
    Variant(Seq<Slot>),
    Reference(nat),
    Builtin(Builtin),
}

/// What a `ResolvedIRType` is.
pub enum Resolved {
    Struct(Seq<Slot>),
    Variant(Seq<Slot>),
    Builtin(Builtin),
}

/// What a `TypeName` is.
pub enum Identity {
    Variable(Seq<char>),
    Generic(Seq<char>, Bindings),
    Temporary(nat),
}

/// What a `NamedIRType` is.
pub struct Named {
    pub name: Identity,
    pub body: Shape,
}

impl View for TypeName {
    type V = Identity;

    open spec fn view(&self) -> Identity {
        match self {
            TypeName::Variable(name) => Identity::Variable(name@),
            TypeName::Generic(name, args) => Identity::Generic(name@, args@),
            TypeName::Temporary(n) => Identity::Temporary(*n as nat),
        }
    }
}

impl View for PrimitiveType {
    type V = Prim;

    open spec fn view(&self) -> Prim {
        match self {
            PrimitiveType::Reference(id) => Prim::Reference(*id as nat),
            PrimitiveType::Builtin(kind) => Prim::Builtin(*kind),
        }
    }
}

impl View for PrimitiveStructField {
    type V = Slot;

    open spec fn view(&self) -> Slot {
        Slot { name: self.name@, ty: self.type_@, doc: doc_view(self.comment) }
    }
}

impl View for PrimitiveVariantOption {
    type V = Slot;

    open spec fn view(&self) -> Slot {
        Slot { name: self.name@, ty: self.type_@, doc: doc_view(self.comment) }
    }
}

impl View for PrimitiveStruct {
    type V = Seq<Slot>;

    open spec fn view(&self) -> Seq<Slot> {
        Seq::new(self.fields@.len(), |i: int| self.fields@[i]@)
    }
}

impl View for PrimitiveVariant {
    type V = Seq<Slot>;

    open spec fn view(&self) -> Seq<Slot> {
        Seq::new(self.variants@.len(), |i: int| self.variants@[i]@)
    }
}

impl View for IRType {
    type V = Shape;

    open spec fn view(&self) -> Shape {
        match self {
            IRType::Struct(s) => Shape::Struct(s@),
            IRType::Variant(v) => Shape::Variant(v@),
            IRType::Reference(id) => Shape::Reference(*id as nat),
            IRType::Builtin(kind) => Shape::Builtin(*kind),
        }
    }
}

impl View for ResolvedIRType {
    type V = Resolved;

    open spec fn view(&self) -> Resolved {
        match self {
            ResolvedIRType::Struct(s) => Resolved::Struct(s@),
            ResolvedIRType::Variant(v) => Resolved::Variant(v@),
            ResolvedIRType::Builtin(kind) => Resolved::Builtin(*kind),
        }
    }
}

impl View for NamedIRType {
    type V = Named;

    open spec fn view(&self) -> Named {
        Named { name: self.name@, body: self.t@ }
    }
}

/// The shape that a primitive type is when it stands for a whole type.
pub open spec fn shape_of(p: Prim) -> Shape {
    match p {
        Prim::Reference(id) => Shape::Reference(id),
        Prim::Builtin(kind) => Shape::Builtin(kind),
    }
}

/// The shape that a resolved type is.
pub open spec fn shape_of_resolved(r: Resolved) -> Shape {
    match r {
        Resolved::Struct(fields) => Shape::Struct(fields),
        Resolved::Variant(options) => Shape::Variant(options),
        Resolved::Builtin(kind) => Shape::Builtin(kind),
    }
}

/// Whether `members` has a member of the name `name`.
pub open spec fn has_name(members: Seq<Slot>, name: Seq<char>) -> bool {
    exists|j: int| 0 <= j < members.len() && #[trigger] members[j].name == name
}

/// The name of the first member of `a` that `b` has a member of too.
pub open spec fn clash(a: Seq<Slot>, b: Seq<Slot>) -> Option<Seq<char>>
    decreases a.len(),
{
    if a.len() == 0 {
        None
    } else if has_name(b, a[0].name) {
        Some(a[0].name)
    } else {
        clash(a.drop_first(), b)
    }
}

/// The members of `a` followed by those of `b`, where no name is in both;
/// else the first name of `a` that is.
pub open spec fn merge(a: Seq<Slot>, b: Seq<Slot>) -> Result<Seq<Slot>, Seq<char>> {
    match clash(a, b) {
        Some(name) => Err(name),
        None => Ok(a + b),
    }
}

/// Two lists of members clash exactly where some name is in both, and the
/// name that `clash` gives is in both.
pub proof fn lemma_clash(a: Seq<Slot>, b: Seq<Slot>)
    ensures
        clash(a, b) is Some <==> exists|i: int, j: int|
            0 <= i < a.len() && 0 <= j < b.len() && (#[trigger] a[i]).name == (#[trigger] b[j]).name,
        clash(a, b) matches Some(name) ==> has_name(a, name) && has_name(b, name),
    decreases a.len(),
{
    if a.len() > 0 {
        let rest = a.drop_first();
        lemma_clash(rest, b);
        if has_name(b, a[0].name) {
            let j = choose|j: int| 0 <= j < b.len() && #[trigger] b[j].name == a[0].name;
            assert(a[0].name == b[j].name);
        } else {
            if clash(rest, b) is Some {
                let (i, j) = choose|i: int, j: int|
                    0 <= i < rest.len() && 0 <= j < b.len() && (#[trigger] rest[i]).name == (
                    #[trigger] b[j]).name;
                assert(a[i + 1].name == b[j].name);
                let name = clash(rest, b)->0;
                let k = choose|k: int| 0 <= k < rest.len() && #[trigger] rest[k].name == name;
                assert(a[k + 1].name == name);
            }
            if exists|i: int, j: int|
                0 <= i < a.len() && 0 <= j < b.len() && (#[trigger] a[i]).name == (
                #[trigger] b[j]).name {
                let (i, j) = choose|i: int, j: int|
                    0 <= i < a.len() && 0 <= j < b.len() && (#[trigger] a[i]).name == (
                    #[trigger] b[j]).name;
                if i == 0 {
                    assert(b[j].name == a[0].name);
                } else {
                    assert(rest[i - 1].name == b[j].name);
                }
            }
        }
    }
}

impl Clone for TypeName {
    fn clone(&self) -> (r: TypeName)
        ensures
            r@ == self@,
    {
        match self {
            TypeName::Variable(name) => TypeName::Variable(name.clone()),
            TypeName::Generic(name, args) => TypeName::Generic(name.clone(), args.clone()),
            TypeName::Temporary(n) => TypeName::Temporary(*n),
        }
    }
}

impl TypeName {
    /// Whether the two identities are the same.
    pub fn same(&self, other: &TypeName) -> (r: bool)
        ensures
            r == (self@ == other@),
    {
        match (self, other) {
            (TypeName::Variable(a), TypeName::Variable(b)) => *a == *b,
            (TypeName::Generic(n1, a1), TypeName::Generic(n2, a2)) => *n1 == *n2 && a1.same(a2),
            (TypeName::Temporary(a), TypeName::Temporary(b)) => *a == *b,
            _ => false,
        }
    }
}

impl Clone for PrimitiveStructField {
    fn clone(&self) -> (r: PrimitiveStructField)
        ensures
            r@ == self@,
    {
        PrimitiveStructField {
            name: self.name.clone(),
            type_: self.type_,
            comment: clone_doc(&self.comment),
        }
    }
}

impl Clone for PrimitiveVariantOption {
    fn clone(&self) -> (r: PrimitiveVariantOption)
        ensures
            r@ == self@,
    {
        PrimitiveVariantOption {
            name: self.name.clone(),
            type_: self.type_,
            comment: clone_doc(&self.comment),
        }
    }
}

impl Clone for PrimitiveStruct {
    fn clone(&self) -> (r: PrimitiveStruct)
        ensures
            r@ == self@,
    {
        let mut fields: Vec<PrimitiveStructField> = Vec::new();
        let mut i: usize = 0;
        while i < self.fields.len()
            invariant
                i <= self.fields.len(),
                fields@.len() == i,
                forall|k: int| 0 <= k < i ==> (#[trigger] fields@[k])@ == self.fields@[k]@,
            decreases self.fields.len() - i,
        {
            fields.push(self.fields[i].clone());
            i = i + 1;
        }
        let r = PrimitiveStruct { fields };
        proof {
            assert(r@ =~= self@);
        }
        r
    }
}

impl Clone for PrimitiveVariant {
    fn clone(&self) -> (r: PrimitiveVariant)
        ensures
            r@ == self@,
    {
        let mut variants: Vec<PrimitiveVariantOption> = Vec::new();
        let mut i: usize = 0;
        while i < self.variants.len()
            invariant
                i <= self.variants.len(),
                variants@.len() == i,
                forall|k: int| 0 <= k < i ==> (#[trigger] variants@[k])@ == self.variants@[k]@,
            decreases self.variants.len() - i,
        {
            variants.push(self.variants[i].clone());
            i = i + 1;
        }
        let r = PrimitiveVariant { variants };
        proof {
            assert(r@ =~= self@);
        }
        r
    }
}

impl Clone for IRType {
    fn clone(&self) -> (r: IRType)
        ensures
            r@ == self@,
    {
        match self {
            IRType::Struct(s) => IRType::Struct(s.clone()),
            IRType::Variant(v) => IRType::Variant(v.clone()),
            IRType::Reference(id) => IRType::Reference(*id),
            IRType::Builtin(kind) => IRType::Builtin(*kind),
        }
    }
}

impl Clone for NamedIRType {
    fn clone(&self) -> (r: NamedIRType)
        ensures
            r@ == self@,
    {
        NamedIRType { name: self.name.clone(), t: self.t.clone() }
    }
}

impl PrimitiveStruct {
    /// A struct without fields.
    pub fn new() -> (r: PrimitiveStruct)
        ensures
            r@ == Seq::<Slot>::empty(),
    {
        let r = PrimitiveStruct { fields: Vec::new() };
        proof {
            assert(r@ =~= Seq::<Slot>::empty());
        }
        r
    }

    /// Appends a field.
    pub fn add_field(&mut self, name: String, type_: PrimitiveType, comment: Option<String>)
        ensures
            final(self)@ == old(self)@.push(
                Slot { name: name@, ty: type_@, doc: doc_view(comment) },
            ),
    {
        self.fields.push(PrimitiveStructField { name, type_, comment });
        proof {
            assert(self@ =~= old(self)@.push(
                Slot { name: name@, ty: type_@, doc: doc_view(comment) },
            ));
        }
    }

    /// Appends a field that is already made.
    pub fn push(&mut self, field: PrimitiveStructField)
        ensures
            final(self)@ == old(self)@.push(field@),
    {
        self.fields.push(field);
        proof {
            assert(self@ =~= old(self)@.push(field@));
        }
    }

    /// Whether the struct has a field of the name `name`.
    pub fn has_field(&self, name: &String) -> (r: bool)
        ensures
            r == has_name(self@, name@),
    {
        let mut j: usize = 0;
        while j < self.fields.len()
            invariant
                j <= self.fields.len(),
                forall|k: int| 0 <= k < j ==> (#[trigger] self@[k]).name != name@,
            decreases self.fields.len() - j,
        {
            if self.fields[j].name == *name {
                proof {
                    assert(self@[j as int].name == name@);
                }
                return true;
            }
            j = j + 1;
        }
        false
    }
}

impl PrimitiveVariant {
    /// A variant without options.
    pub fn new() -> (r: PrimitiveVariant)
        ensures
            r@ == Seq::<Slot>::empty(),
    {
        let r = PrimitiveVariant { variants: Vec::new() };
        proof {
            assert(r@ =~= Seq::<Slot>::empty());
        }
        r
    }

    /// Appends an option.
    pub fn add_variant(&mut self, name: String, type_: PrimitiveType, comment: Option<String>)
        ensures
            final(self)@ == old(self)@.push(
                Slot { name: name@, ty: type_@, doc: doc_view(comment) },
            ),
    {
        self.variants.push(PrimitiveVariantOption { name, type_, comment });
        proof {
            assert(self@ =~= old(self)@.push(
                Slot { name: name@, ty: type_@, doc: doc_view(comment) },
            ));
        }
    }

    /// Appends an option that is already made.
    pub fn push(&mut self, option: PrimitiveVariantOption)
        ensures
            final(self)@ == old(self)@.push(option@),
    {
        self.variants.push(option);
        proof {
            assert(self@ =~= old(self)@.push(option@));
        }
    }

    /// Whether the variant has an option of the name `name`.
    pub fn has_option(&self, name: &String) -> (r: bool)
        ensures
            r == has_name(self@, name@),
    {
        let mut j: usize = 0;
        while j < self.variants.len()
            invariant
                j <= self.variants.len(),
                forall|k: int| 0 <= k < j ==> (#[trigger] self@[k]).name != name@,
            decreases self.variants.len() - j,
        {
            if self.variants[j].name == *name {
                proof {
                    assert(self@[j as int].name == name@);
                }
                return true;
            }
            j = j + 1;
        }
        false
    }
}

impl Intersectable<PrimitiveStruct, PrimitiveStruct> for PrimitiveStruct {
    /// The fields of `self` followed by those of `other`. Fails with
    /// `DuplicateField` where both have a field of one name, and names the
    /// first such field of `self`.
    fn intersect(&self, other: &PrimitiveStruct) -> (r: Result<PrimitiveStruct, CompileError>)
        ensures
            match r {
                Ok(merged) => merge(self@, other@) == Ok::<Seq<Slot>, Seq<char>>(merged@),
                Err(e) => merge(self@, other@) is Err && e@ == Failure::DuplicateField(
                    merge(self@, other@)->Err_0,
                ),
            },
            r is Ok ==> r->Ok_0@ == self@ + other@,
            r is Err <==> exists|i: int, j: int|
                0 <= i < self@.len() && 0 <= j < other@.len() && (#[trigger] self@[i]).name == (
                #[trigger] other@[j]).name,
    {
        proof {
            lemma_clash(self@, other@);
        }
        let mut out = PrimitiveStruct::new();
        let mut i: usize = 0;
        proof {
            assert(self@.subrange(0, self@.len() as int) =~= self@);
            assert(out@ =~= self@.subrange(0, 0));
        }
        while i < self.fields.len()
            invariant
                i <= self.fields.len(),
                out@ == self@.subrange(0, i as int),
                clash(self@, other@) == clash(self@.subrange(i as int, self@.len() as int), other@),
            decreases self.fields.len() - i,
        {
            let ghost rest = self@.subrange(i as int, self@.len() as int);
            proof {
                assert(rest[0] == self@[i as int]);
                assert(rest.drop_first() =~= self@.subrange(i + 1, self@.len() as int));
            }
            if other.has_field(&self.fields[i].name) {
                return Err(CompileError::DuplicateField(self.fields[i].name.clone()));
            }
            out.push(self.fields[i].clone());
            proof {
                assert(out@ =~= self@.subrange(0, i + 1));
            }
            i = i + 1;
        }
        let mut j: usize = 0;
        proof {
            assert(out@ =~= self@ + other@.subrange(0, 0));
        }
        while j < other.fields.len()
            invariant
                j <= other.fields.len(),
                out@ == self@ + other@.subrange(0, j as int),
            decreases other.fields.len() - j,
        {
            out.push(other.fields[j].clone());
            proof {
                assert(out@ =~= self@ + other@.subrange(0, j + 1));
            }
            j = j + 1;
        }
        proof {
            assert(out@ =~= self@ + other@);
        }
        Ok(out)
    }
}

impl Intersectable<PrimitiveVariant, PrimitiveVariant> for PrimitiveVariant {
    /// The options of `self` followed by those of `other`. Fails with
    /// `DuplicateOption` where both have an option of one name, and names the
    /// first such option of `self`.
    fn intersect(&self, other: &PrimitiveVariant) -> (r: Result<PrimitiveVariant, CompileError>)
        ensures
            match r {
                Ok(merged) => merge(self@, other@) == Ok::<Seq<Slot>, Seq<char>>(merged@),
                Err(e) => merge(self@, other@) is Err && e@ == Failure::DuplicateOption(
                    merge(self@, other@)->Err_0,
                ),
            },
            r is Ok ==> r->Ok_0@ == self@ + other@,
            r is Err <==> exists|i: int, j: int|
                0 <= i < self@.len() && 0 <= j < other@.len() && (#[trigger] self@[i]).name == (
                #[trigger] other@[j]).name,
    {
        proof {
            lemma_clash(self@, other@);
        }
        let mut out = PrimitiveVariant::new();
        let mut i: usize = 0;
        proof {
            assert(self@.subrange(0, self@.len() as int) =~= self@);
            assert(out@ =~= self@.subrange(0, 0));
        }
        while i < self.variants.len()
            invariant
                i <= self.variants.len(),
                out@ == self@.subrange(0, i as int),
                clash(self@, other@) == clash(self@.subrange(i as int, self@.len() as int), other@),
            decreases self.variants.len() - i,
        {
            let ghost rest = self@.subrange(i as int, self@.len() as int);
            proof {
                assert(rest[0] == self@[i as int]);
                assert(rest.drop_first() =~= self@.subrange(i + 1, self@.len() as int));
            }
            if other.has_option(&self.variants[i].name) {
                return Err(CompileError::DuplicateOption(self.variants[i].name.clone()));
            }
            out.push(self.variants[i].clone());
            proof {
                assert(out@ =~= self@.subrange(0, i + 1));
            }
            i = i + 1;
        }
        let mut j: usize = 0;
        proof {
            assert(out@ =~= self@ + other@.subrange(0, 0));
        }
        while j < other.variants.len()
            invariant
                j <= other.variants.len(),
                out@ == self@ + other@.subrange(0, j as int),
            decreases other.variants.len() - j,
        {
            out.push(other.variants[j].clone());
            proof {
                assert(out@ =~= self@ + other@.subrange(0, j + 1));
            }
            j = j + 1;
        }
        proof {
            assert(out@ =~= self@ + other@);
        }
        Ok(out)
    }
}

impl From<PrimitiveType> for IRType {
    fn from(p: PrimitiveType) -> (r: IRType) {
        match p {
            PrimitiveType::Reference(id) => IRType::Reference(id),
            PrimitiveType::Builtin(kind) => IRType::Builtin(kind),
        }
    }
}

impl vstd::std_specs::convert::FromSpecImpl<PrimitiveType> for IRType {
    open spec fn obeys_from_spec() -> bool {
        true
    }

    open spec fn from_spec(p: PrimitiveType) -> IRType {
        match p {
            PrimitiveType::Reference(id) => IRType::Reference(id),
            PrimitiveType::Builtin(kind) => IRType::Builtin(kind),
        }
    }
}

impl From<ResolvedIRType> for IRType {
    fn from(resolved: ResolvedIRType) -> (r: IRType) {
        match resolved {
            ResolvedIRType::Struct(fields) => IRType::Struct(fields),
            ResolvedIRType::Variant(variants) => IRType::Variant(variants),
            ResolvedIRType::Builtin(kind) => IRType::Builtin(kind),
        }
    }
}

impl vstd::std_specs::convert::FromSpecImpl<ResolvedIRType> for IRType {
    open spec fn obeys_from_spec() -> bool {
        true
    }

    open spec fn from_spec(resolved: ResolvedIRType) -> IRType {
        match resolved {
            ResolvedIRType::Struct(fields) => IRType::Struct(fields),
            ResolvedIRType::Variant(variants) => IRType::Variant(variants),
            ResolvedIRType::Builtin(kind) => IRType::Builtin(kind),
        }
    }
}

/// The text of the first `n` bindings of a generic instantiation: each as
/// its name, `=` and the `Debug` text of its expression, with `, ` between.
pub open spec fn bindings_text(args: Bindings, n: nat) -> Seq<char>
    decreases n,
{
    if n == 0 || n > args.len() {
        Seq::empty()
    } else if n == 1 {
        args[0].0 + "="@ + debug_text(args[0].1)
    } else {
        bindings_text(args, (n - 1) as nat) + ", "@ + args[n - 1].0 + "="@ + debug_text(
            args[n - 1].1,
        )
    }
}

/// The text of an identity: a declared name as it is, a generic
/// instantiation as its name and its bindings in angle brackets, a
/// temporary as `T` and its number.
pub open spec fn identity_text(id: Identity) -> Seq<char> {
    match id {
        Identity::Variable(name) => name,
        Identity::Generic(name, args) => name + "<"@ + bindings_text(args, args.len()) + ">"@,
        Identity::Temporary(n) => "T"@ + decimal(n),
    }
}

/// The text of a primitive type.
pub open spec fn prim_text(p: Prim) -> Seq<char> {
    match p {
        Prim::Reference(id) => "reference "@ + decimal(id),
        Prim::Builtin(kind) => builtin_text(kind),
    }
}

/// The text of the first `n` of `lines`, each behind a line break and a
/// comment sign.
pub open spec fn comment_text(lines: Seq<Seq<char>>, n: nat) -> Seq<char>
    decreases n,
{
    if n == 0 || n > lines.len() {
        Seq::empty()
    } else {
        comment_text(lines, (n - 1) as nat) + "\n  // "@ + lines[n - 1]
    }
}

/// The text of the documentation of a member: its lines as comments.
pub open spec fn doc_text(doc: Option<Seq<char>>) -> Seq<char> {
    match doc {
        Some(text) => comment_text(text_lines(text), text_lines(text).len()),
        None => Seq::empty(),
    }
}

/// The text of a field of a struct.
pub open spec fn field_text(slot: Slot) -> Seq<char> {
    doc_text(slot.doc) + "\n  "@ + slot.name + ": "@ + prim_text(slot.ty) + ","@
}

/// The text of an option of a variant.
pub open spec fn option_text(slot: Slot) -> Seq<char> {
    doc_text(slot.doc) + "\n  "@ + slot.name + "("@ + prim_text(slot.ty) + "),"@
}

/// The text of the first `n` fields of a struct.
pub open spec fn fields_text(slots: Seq<Slot>, n: nat) -> Seq<char>
    decreases n,
{
    if n == 0 || n > slots.len() {
        Seq::empty()
    } else {
        fields_text(slots, (n - 1) as nat) + field_text(slots[n - 1])
    }
}

/// The text of the first `n` options of a variant.
pub open spec fn options_text(slots: Seq<Slot>, n: nat) -> Seq<char>
    decreases n,
{
    if n == 0 || n > slots.len() {
        Seq::empty()
    } else {
        options_text(slots, (n - 1) as nat) + option_text(slots[n - 1])
    }
}

/// The text of a lowered type.
pub open spec fn shape_text(shape: Shape) -> Seq<char> {
    match shape {
        Shape::Struct(fields) => "struct {"@ + fields_text(fields, fields.len()) + "\n}"@,
        Shape::Variant(options) => "enum {"@ + options_text(options, options.len()) + "\n}"@,
        Shape::Reference(id) => "reference "@ + decimal(id),
        Shape::Builtin(kind) => builtin_text(kind),
    }
}

/// Appends the documentation of a member to `out`, its lines as comments.
fn push_doc(out: &mut String, comment: &Option<String>)
    ensures
        final(out)@ == old(out)@ + doc_text(doc_view(*comment)),
{
    match comment {
        None => {
            proof {
                assert(out@ =~= old(out)@ + doc_text(doc_view(*comment)));
            }
        },
        Some(text) => {
            let lines = lines_of(text.as_str());
            let ghost all = text_lines(text@);
            let mut i: usize = 0;
            proof {
                assert(out@ =~= old(out)@ + comment_text(all, 0));
            }
            while i < lines.len()
                invariant
                    i <= lines.len(),
                    lines@.len() == all.len(),
                    forall|k: int| 0 <= k < lines@.len() ==> (#[trigger] lines@[k])@ == all[k],
                    out@ == old(out)@ + comment_text(all, i as nat),
                decreases lines.len() - i,
            {
                out.append("\n  // ");
                out.append(lines[i].as_str());
                proof {
                    assert(out@ =~= old(out)@ + comment_text(all, (i + 1) as nat));
                }
                i = i + 1;
            }
        },
    }
}

impl TypeName {
    /// The text of the identity.
    pub fn to_string(&self) -> (r: String)
        ensures
            r@ == identity_text(self@),
    {
        match self {
            TypeName::Variable(name) => name.clone(),
            TypeName::Generic(name, args) => {
                let mut out = name.clone();
                out.append("<");
                let ghost head = out@;
                let mut i: usize = 0;
                proof {
                    assert(out@ =~= head + bindings_text(args@, 0));
                }
                while i < args.len()
                    invariant
                        i <= args@.len(),
                        out@ == head + bindings_text(args@, i as nat),
                    decreases args@.len() - i,
                {
                    if i > 0 {
                        out.append(", ");
                    }
                    out.append(args.key(i).as_str());
                    out.append("=");
                    let shown = debug_string(args.value(i));
                    out.append(shown.as_str());
                    proof {
                        assert(out@ =~= head + bindings_text(args@, (i + 1) as nat));
                    }
                    i = i + 1;
                }
                out.append(">");
                proof {
                    assert(out@ =~= identity_text(self@));
                }
                out
            },
            TypeName::Temporary(id) => {
                let number = decimal_string(*id);
                joined("T", number.as_str())
            },
        }
    }
}

impl PrimitiveType {
    /// The text of the primitive type.
    pub fn to_string(&self) -> (r: String)
        ensures
            r@ == prim_text(self@),
    {
        match self {
            PrimitiveType::Reference(id) => {
                let number = decimal_string(*id);
                joined("reference ", number.as_str())
            },
            PrimitiveType::Builtin(kind) => kind.to_string(),
        }
    }
}

impl IRType {
    /// The text of the type: a struct or a variant with a line for each
    /// member, and the lines of its documentation as comments before it.
    pub fn to_string(&self) -> (r: String)
        ensures
            r@ == shape_text(self@),
    {
        match self {
            IRType::Struct(body) => {
                let mut out = String::from_str("struct {");
                let ghost head = out@;
                let mut i: usize = 0;
                proof {
                    assert(out@ =~= head + fields_text(body@, 0));
                }
                while i < body.fields.len()
                    invariant
                        i <= body.fields.len(),
                        body@.len() == body.fields.len(),
                        out@ == head + fields_text(body@, i as nat),
                    decreases body.fields.len() - i,
                {
                    let field = &body.fields[i];
                    proof {
                        assert(body@[i as int] == field@);
                    }
                    push_doc(&mut out, &field.comment);
                    out.append("\n  ");
                    out.append(field.name.as_str());
                    out.append(": ");
                    let ty = field.type_.to_string();
                    out.append(ty.as_str());
                    out.append(",");
                    proof {
                        assert(out@ =~= head + fields_text(body@, (i + 1) as nat));
                    }
                    i = i + 1;
                }
                out.append("\n}");
                proof {
                    assert(out@ =~= shape_text(self@));
                }
                out
            },
            IRType::Variant(body) => {
                let mut out = String::from_str("enum {");
                let ghost head = out@;
                let mut i: usize = 0;
                proof {
                    assert(out@ =~= head + options_text(body@, 0));
                }
                while i < body.variants.len()
                    invariant
                        i <= body.variants.len(),
                        body@.len() == body.variants.len(),
                        out@ == head + options_text(body@, i as nat),
                    decreases body.variants.len() - i,
                {
                    let option = &body.variants[i];
                    proof {
                        assert(body@[i as int] == option@);
                    }
                    push_doc(&mut out, &option.comment);
                    out.append("\n  ");
                    out.append(option.name.as_str());
                    out.append("(");
                    let ty = option.type_.to_string();
                    out.append(ty.as_str());
                    out.append("),");
                    proof {
                        assert(out@ =~= head + options_text(body@, (i + 1) as nat));
                    }
                    i = i + 1;
                }
                out.append("\n}");
                proof {
                    assert(out@ =~= shape_text(self@));
                }
                out
            },
            IRType::Reference(id) => {
                let number = decimal_string(*id);
                joined("reference ", number.as_str())
            },
            IRType::Builtin(kind) => kind.to_string(),
        }
    }
}

impl PartialEq for TypeName {
    fn eq(&self, other: &TypeName) -> (r: bool) {
        self.same(other)
    }
}

impl vstd::std_specs::cmp::PartialEqSpecImpl for TypeName {
    open spec fn obeys_eq_spec() -> bool {
        true
    }

    open spec fn eq_spec(&self, other: &TypeName) -> bool {
        self@ == other@
    }
}

impl Eq for TypeName {

}

} // verus!
