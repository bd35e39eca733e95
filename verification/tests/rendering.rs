use roto::ast::{
    Annotation, Builtin, StructField, StructTypeExpression, TypeAliasDeclaration, TypeArgs,
    TypeExpression,
};
use roto::backend::{render_program, PrimitiveTypeWriter, TypeNameAllocator};
use roto::error::CompileError;
use roto::frontend::{IRCompiler, TypeAllocator, TypePrototype};
use roto::ir::{
    IRType, Intersectable, NamedIRType, PrimitiveStruct, PrimitiveStructField, PrimitiveType,
    PrimitiveVariant, PrimitiveVariantOption, TypeName,
};
use roto::text::decimal_string;
use std::collections::VecDeque;

fn member(name: &str, type_: TypeExpression, comment: Option<&str>) -> StructField {
    StructField { name: name.to_string(), type_, comment: comment.map(|c| c.to_string()) }
}

fn structure(fields: Vec<StructField>) -> TypeExpression {
    TypeExpression::Struct(StructTypeExpression { fields })
}

fn declaration(name: &str, params: Vec<&str>, type_: TypeExpression) -> TypeAliasDeclaration {
    TypeAliasDeclaration {
        annotations: vec![Annotation { name: "doc".to_string(), args: vec![] }],
        name: name.to_string(),
        params: params.into_iter().map(|p| p.to_string()).collect(),
        type_,
    }
}

fn box_of(kind: Builtin) -> TypeExpression {
    let mut args = TypeArgs::new();
    args.insert("T".to_string(), TypeExpression::Builtin(kind));
    TypeExpression::Generic("Box".to_string(), args)
}

fn program() -> IRCompiler {
    let declarations = vec![
        declaration(
            "Outer",
            vec![],
            structure(vec![
                member("a", TypeExpression::Variable("Inner".to_string()), Some("the inner part")),
                member("b", box_of(Builtin::Int), None),
            ]),
        ),
        declaration(
            "Inner",
            vec![],
            structure(vec![member("v", TypeExpression::Builtin(Builtin::String), None)]),
        ),
        declaration(
            "Box",
            vec!["T"],
            structure(vec![member("value", TypeExpression::Variable("T".to_string()), None)]),
        ),
    ];
    let mut compiler = IRCompiler::new();
    compiler.register_declarations(&declarations);
    compiler.compile_globals().unwrap();
    compiler
}

#[test]
fn a_program_is_compiled_in_the_order_of_its_declarations() {
    let compiler = program();
    let globals = compiler.iter_globals();
    assert_eq!(globals.len(), 3);
    assert_eq!(globals[0].0, "Outer");
    assert_eq!(globals[1].0, "Inner");
    assert_eq!(globals[2].0, "Box");
    assert_eq!(globals[2].1.params, vec!["T".to_string()]);

    let types = compiler.iter_types();
    assert_eq!(types.len(), 6);
    assert_eq!(types[0].1.name.to_string(), "Outer");
    assert_eq!(types[1].1.name.to_string(), "Inner");
    assert_eq!(types[2].1.name.to_string(), "T0");
    assert!(types[3].1.name.same(&match box_of(Builtin::Int) {
        TypeExpression::Generic(name, args) => TypeName::Generic(name, args),
        _ => unreachable!(),
    }));
    assert_eq!(types[4].1.name.to_string(), "T1");
    assert_eq!(types[5].1.name.to_string(), "T2");
    assert_eq!(types[0].1.t.to_string(), "reference 5");
    assert_eq!(types[1].1.t.to_string(), "reference 2");
    assert_eq!(types[3].1.t.to_string(), "reference 4");
    assert_eq!(
        types[5].1.t.to_string(),
        "struct {\n  // the inner part\n  a: reference 1,\n  b: reference 3,\n}"
    );
}

#[test]
fn a_program_is_rendered_once_per_identity() {
    let compiler = program();
    let lines = render_program(&compiler).unwrap();
    assert_eq!(
        lines,
        vec![
            "class Outer(msgspec.Struct):\n    # the inner part\n    a: Inner\n    b: Box0\n"
                .to_string(),
            "class Box0(msgspec.Struct):\n    value: int\n".to_string(),
            "class Inner(msgspec.Struct):\n    v: str\n".to_string(),
        ]
    );
}

#[test]
fn a_failure_stops_the_compilation_of_a_program() {
    let declarations = vec![
        declaration("Good", vec![], TypeExpression::Builtin(Builtin::Int)),
        declaration("Bad", vec![], TypeExpression::Variable("Missing".to_string())),
        declaration("Late", vec![], TypeExpression::Builtin(Builtin::Bool)),
    ];
    let mut compiler = IRCompiler::new();
    compiler.register_declarations(&declarations);
    match compiler.compile_globals() {
        Err(CompileError::UnknownType(name)) => assert_eq!(name, "Missing"),
        other => panic!("UnknownType was expected, not {:?}", other),
    }
    // Good and Bad have rows, Late has none; the row of Bad has no body.
    assert_eq!(compiler.allocator().len(), 2);
    assert!(compiler.allocator().get(0).is_ok());
    assert!(matches!(compiler.allocator().get(1), Err(CompileError::BrokenReference(1))));
    assert_eq!(compiler.iter_types().len(), 1);
}

#[test]
fn an_alias_is_rendered_as_an_alias_of_none() {
    let declarations = vec![
        declaration("A", vec![], TypeExpression::Variable("B".to_string())),
        declaration("B", vec![], TypeExpression::Builtin(Builtin::Int)),
    ];
    let mut compiler = IRCompiler::new();
    compiler.register_declarations(&declarations);
    compiler.compile_globals().unwrap();
    let lines = render_program(&compiler).unwrap();
    assert_eq!(lines, vec!["A: TypeAlias = None\n".to_string(), "B: TypeAlias = None\n".to_string()]);
}

#[test]
fn rendering_a_cyclic_alias_fails() {
    let declarations = vec![declaration("A", vec![], TypeExpression::Variable("A".to_string()))];
    let mut compiler = IRCompiler::new();
    compiler.register_declarations(&declarations);
    compiler.compile_globals().unwrap();
    assert!(matches!(render_program(&compiler), Err(CompileError::CyclicReference(0))));
}

#[test]
fn display_names_follow_the_identity() {
    let mut names = TypeNameAllocator::new();
    assert_eq!(names.allocate_name(&TypeName::Variable("Point".to_string())), "Point");
    assert_eq!(names.allocate_name(&TypeName::Temporary(12)), "T12");
    let of = |kind: Builtin| match box_of(kind) {
        TypeExpression::Generic(name, args) => TypeName::Generic(name, args),
        _ => unreachable!(),
    };
    assert_eq!(names.allocate_name(&of(Builtin::Int)), "Box0");
    assert_eq!(names.allocate_name(&of(Builtin::String)), "Box1");
    assert_eq!(names.allocate_name(&of(Builtin::Int)), "Box0");
    assert_eq!(names.allocate_name(&TypeName::Generic("List".to_string(), TypeArgs::new())), "List2");
    assert_eq!(names.allocate_name(&of(Builtin::String)), "Box1");
}

#[test]
fn a_reference_is_rendered_by_the_name_of_its_row_and_scheduled_once() {
    let mut table = TypeAllocator::new();
    let key = TypeExpression::Variable("Row".to_string());
    assert_eq!(table.allocate(&key), (0, true));
    assert_eq!(table.allocate(&key), (0, false));
    assert!(matches!(table.get(0), Err(CompileError::BrokenReference(0))));
    table.set(0, TypeName::Variable("Row".to_string()), IRType::Builtin(Builtin::Bool));
    assert_eq!(table.len(), 1);
    assert!(table.key(0).same(&key));
    assert!(matches!(table.get(1), Err(CompileError::BrokenReference(1))));

    let mut names = TypeNameAllocator::new();
    let mut writer = PrimitiveTypeWriter {
        name_allocator: &mut names,
        allocator: &table,
        compiled: Vec::new(),
        stack: VecDeque::new(),
    };
    assert_eq!(writer.convert_builtin(&Builtin::Float), "float");
    assert_eq!(writer.convert_builtin(&Builtin::Unit), "None");
    assert_eq!(writer.convert_primitive_type(&PrimitiveType::Builtin(Builtin::String)).unwrap(), "str");
    assert_eq!(writer.stack.len(), 0);
    assert_eq!(writer.convert_primitive_type(&PrimitiveType::Reference(0)).unwrap(), "Row");
    assert_eq!(writer.stack.len(), 1);
    assert!(matches!(
        writer.convert_primitive_type(&PrimitiveType::Reference(5)),
        Err(CompileError::BrokenReference(5))
    ));
    assert_eq!(
        writer.convert_named_ir_type("Alias", &IRType::Reference(0)).unwrap(),
        "Alias: TypeAlias = Row\n"
    );
    assert_eq!(writer.stack.len(), 1);
    assert_eq!(
        writer.convert_named_ir_type("Choice", &IRType::Variant(PrimitiveVariant::new())).unwrap(),
        "Choice: TypeAlias = None\n"
    );
    assert_eq!(writer.allocate_name(&TypeName::Temporary(1)), "T1");

    // The row is taken once; after that its identity is rendered already.
    assert_eq!(writer.render_next().unwrap(), Some("Row: TypeAlias = None\n".to_string()));
    assert_eq!(writer.convert_primitive_type(&PrimitiveType::Reference(0)).unwrap(), "Row");
    assert_eq!(writer.stack.len(), 0);
    assert_eq!(writer.render_next().unwrap(), None);
    writer.seed();
    assert_eq!(writer.stack.len(), 1);
    assert_eq!(writer.render_all().unwrap(), Vec::<String>::new());
    assert_eq!(writer.stack.len(), 0);
}

#[test]
fn lowered_types_have_a_text() {
    assert_eq!(Builtin::Int.to_string(), "int");
    assert_eq!(Builtin::Float.to_string(), "float");
    assert_eq!(Builtin::String.to_string(), "string");
    assert_eq!(Builtin::Bool.to_string(), "bool");
    assert_eq!(Builtin::Unit.to_string(), "unit");
    assert_eq!(PrimitiveType::Reference(12).to_string(), "reference 12");
    assert_eq!(PrimitiveType::Builtin(Builtin::Bool).to_string(), "bool");
    assert_eq!(IRType::Reference(0).to_string(), "reference 0");
    assert_eq!(IRType::Builtin(Builtin::Unit).to_string(), "unit");
    assert_eq!(IRType::Struct(PrimitiveStruct::new()).to_string(), "struct {\n}");

    let mut s = PrimitiveStruct::new();
    s.add_field(
        "x".to_string(),
        PrimitiveType::Builtin(Builtin::Int),
        Some("line one\nline two".to_string()),
    );
    s.add_field("y".to_string(), PrimitiveType::Reference(3), None);
    assert_eq!(s.fields.len(), 2);
    assert_eq!(
        IRType::Struct(s).to_string(),
        "struct {\n  // line one\n  // line two\n  x: int,\n  y: reference 3,\n}"
    );

    let mut v = PrimitiveVariant::new();
    v.add_variant("A".to_string(), PrimitiveType::Builtin(Builtin::Int), None);
    v.add_variant("B".to_string(), PrimitiveType::Reference(1), Some("second".to_string()));
    assert_eq!(v.variants.len(), 2);
    assert_eq!(
        IRType::Variant(v).to_string(),
        "enum {\n  A(int),\n  // second\n  B(reference 1),\n}"
    );
}

#[test]
fn identities_have_a_text() {
    assert_eq!(TypeName::Variable("Point".to_string()).to_string(), "Point");
    assert_eq!(TypeName::Temporary(7).to_string(), "T7");
    let first = TypeExpression::Builtin(Builtin::String);
    let second = structure(vec![member("x", TypeExpression::Variable("Y".to_string()), None)]);
    let mut args = TypeArgs::new();
    args.insert("B".to_string(), second.clone());
    args.insert("A".to_string(), first.clone());
    let expected = format!("Pair<A={:?}, B={:?}>", first, second);
    assert_eq!(TypeName::Generic("Pair".to_string(), args).to_string(), expected);
    assert!(expected.starts_with("Pair<A=Builtin(String), B=Struct("));
    assert_eq!(TypeName::Generic("Unit".to_string(), TypeArgs::new()).to_string(), "Unit<>");
}

#[test]
fn numbers_are_written_in_decimal() {
    assert_eq!(decimal_string(0), "0");
    assert_eq!(decimal_string(9), "9");
    assert_eq!(decimal_string(10), "10");
    assert_eq!(decimal_string(907), "907");
    assert_eq!(decimal_string(usize::MAX), usize::MAX.to_string());
}

#[test]
fn structs_intersect_by_concatenation_or_fail_on_a_shared_name() {
    let field = |name: &str, id: usize| PrimitiveStructField {
        name: name.to_string(),
        type_: PrimitiveType::Reference(id),
        comment: None,
    };
    let a = PrimitiveStruct { fields: vec![field("x", 0), field("y", 1)] };
    let b = PrimitiveStruct { fields: vec![field("z", 2)] };
    let merged = a.intersect(&b).unwrap();
    let names: Vec<&str> = merged.fields.iter().map(|f| f.name.as_str()).collect();
    assert_eq!(names, vec!["x", "y", "z"]);
    assert_eq!(merged.fields[2].type_, PrimitiveType::Reference(2));
    assert!(a.has_field(&"y".to_string()));
    assert!(!a.has_field(&"z".to_string()));

    let c = PrimitiveStruct { fields: vec![field("y", 5), field("x", 6)] };
    match a.intersect(&c) {
        Err(CompileError::DuplicateField(name)) => assert_eq!(name, "x"),
        other => panic!("DuplicateField was expected, not {:?}", other),
    }
    let empty = PrimitiveStruct::new();
    assert_eq!(empty.intersect(&empty).unwrap().fields.len(), 0);

    let option = |name: &str| PrimitiveVariantOption {
        name: name.to_string(),
        type_: PrimitiveType::Builtin(Builtin::Unit),
        comment: None,
    };
    let p = PrimitiveVariant { variants: vec![option("A")] };
    let q = PrimitiveVariant { variants: vec![option("B"), option("A")] };
    match p.intersect(&q) {
        Err(CompileError::DuplicateOption(name)) => assert_eq!(name, "A"),
        other => panic!("DuplicateOption was expected, not {:?}", other),
    }
    assert!(q.has_option(&"B".to_string()));
}

#[test]
fn a_temporary_is_stored_once_and_numbered_in_order() {
    let mut compiler = IRCompiler::new();
    let first = structure(vec![]);
    let second = structure(vec![member("x", TypeExpression::Builtin(Builtin::Int), None)]);
    assert_eq!(compiler.eager_emit_temporary(&first, IRType::Struct(PrimitiveStruct::new())), (0, true));
    assert_eq!(compiler.eager_emit_temporary(&second, IRType::Builtin(Builtin::Int)), (1, true));
    assert_eq!(compiler.eager_emit_temporary(&first, IRType::Builtin(Builtin::Bool)), (0, false));
    let types: Vec<(usize, NamedIRType)> = compiler.iter_types();
    assert_eq!(types.len(), 2);
    assert_eq!(types[0].1.name.to_string(), "T0");
    assert_eq!(types[1].1.name.to_string(), "T1");
    assert_eq!(types[0].1.t.to_string(), "struct {\n}");
    assert_eq!(types[1].1.t.to_string(), "int");
}

#[test]
fn forcing_an_allocation_stores_the_lowered_body_under_the_given_name() {
    let mut compiler = IRCompiler::new();
    let key = TypeExpression::Variable("K".to_string());
    let body = structure(vec![member("x", TypeExpression::Builtin(Builtin::Int), None)]);
    let r = compiler
        .compile_force_allocation(TypeName::Variable("Shown".to_string()), &key, &body)
        .unwrap();
    assert_eq!(r, (0, true));
    let again = compiler
        .compile_force_allocation(TypeName::Variable("Other".to_string()), &key, &body)
        .unwrap();
    assert_eq!(again, (0, false));
    assert_eq!(compiler.allocator().get(0).unwrap().name.to_string(), "Shown");
    assert_eq!(compiler.allocator().get(0).unwrap().t.to_string(), "reference 1");
    assert_eq!(compiler.allocator().len(), 2);
    let proto = TypePrototype { params: vec![], type_: body.clone() };
    assert!(proto.clone().type_.same(&body));
    assert!(!proto.declares(&"x".to_string()));
}
