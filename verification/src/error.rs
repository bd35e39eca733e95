//! The ways in which compiling a program of type aliases fails.

use vstd::prelude::*;

verus! {

/// Why a type expression could not be compiled.
#[derive(Debug)]
pub enum CompileError {
    /// A variable or a generic application names a type that is not registered.
    UnknownType(String),
    /// The arguments of an instantiation are not exactly the declared
    /// parameters; the name is a parameter without an argument, or else an
    /// argument that is no parameter.
    ParameterMismatch(String),
    /// Both operands of a struct intersection have a field of this name.
    DuplicateField(String),
    /// Both operands of a variant intersection have an option of this name.
    DuplicateOption(String),
    /// The operands of an intersection are not two structs or two variants.
    IncompatibleIntersection,
    /// A reference to this id has no body in the table.
    BrokenReference(usize),
    /// The references that start at this id never reach a struct, a variant
    /// or a builtin.
    CyclicReference(usize),
}

/// What a `CompileError` is.
pub enum Failure {
    UnknownType(Seq<char>),
    ParameterMismatch(Seq<char>),
    DuplicateField(Seq<char>),
    DuplicateOption(Seq<char>),
    IncompatibleIntersection,
    BrokenReference(nat),
    CyclicReference(nat),
    /// The budget of unfoldings was used up. No `CompileError` stands for
    /// this: the compiler never runs out of it.
    Exhausted,
}

impl View for CompileError {
    type V = Failure;

    open spec fn view(&self) -> Failure {
        match self {
            CompileError::UnknownType(name) => Failure::UnknownType(name@),
            CompileError::ParameterMismatch(name) => Failure::ParameterMismatch(name@),
            CompileError::DuplicateField(name) => Failure::DuplicateField(name@),
            CompileError::DuplicateOption(name) => Failure::DuplicateOption(name@),
            CompileError::IncompatibleIntersection => Failure::IncompatibleIntersection,
            CompileError::BrokenReference(id) => Failure::BrokenReference(*id as nat),
            CompileError::CyclicReference(id) => Failure::CyclicReference(*id as nat),
        }
    }
}

impl Clone for CompileError {
    fn clone(&self) -> (r: CompileError)
        ensures
            r@ == self@,
    {
        match self {
            CompileError::UnknownType(name) => CompileError::UnknownType(name.clone()),
            CompileError::ParameterMismatch(name) => CompileError::ParameterMismatch(name.clone()),
            CompileError::DuplicateField(name) => CompileError::DuplicateField(name.clone()),
            CompileError::DuplicateOption(name) => CompileError::DuplicateOption(name.clone()),
            CompileError::IncompatibleIntersection => CompileError::IncompatibleIntersection,
            CompileError::BrokenReference(id) => CompileError::BrokenReference(*id),
            CompileError::CyclicReference(id) => CompileError::CyclicReference(*id),
        }
    }
}

} // verus!
