use roto::ast::{
    Builtin, StructField, StructTypeExpression, TypeArgs, TypeExpression, VariantOption,
    VariantTypeExpression,
};
use roto::error::CompileError;
use roto::frontend::{IRCompiler, TypePrototype};
use roto::ir::{IRType, PrimitiveType, ResolvedIRType, TypeName};
use roto::text::str_order;

fn field(name: &str, type_: TypeExpression) -> StructField {
    StructField { name: name.to_string(), type_, comment: None }
}

fn documented(name: &str, type_: TypeExpression, comment: &str) -> StructField {
    StructField { name: name.to_string(), type_, comment: Some(comment.to_string()) }
}

fn record(fields: Vec<StructField>) -> TypeExpression {
    TypeExpression::Struct(StructTypeExpression { fields })
}

fn choice(options: Vec<(&str, TypeExpression)>) -> TypeExpression {
    TypeExpression::Variant(VariantTypeExpression {
        variants: options
            .into_iter()
            .map(|(name, type_)| VariantOption { name: name.to_string(), type_, comment: None })
            .collect(),
    })
}

fn builtin(kind: Builtin) -> TypeExpression {
    TypeExpression::Builtin(kind)
}

fn variable(name: &str) -> TypeExpression {
    TypeExpression::Variable(name.to_string())
}

fn generic(name: &str, args: Vec<(&str, TypeExpression)>) -> TypeExpression {
    let mut bound = TypeArgs::new();
    for (k, v) in args {
        bound.insert(k.to_string(), v);
    }
    TypeExpression::Generic(name.to_string(), bound)
}

fn both(a: TypeExpression, b: TypeExpression) -> TypeExpression {
    TypeExpression::Intersection(Box::new(a), Box::new(b))
}

fn plain(type_: TypeExpression) -> TypePrototype {
    TypePrototype { params: vec![], type_ }
}

fn reference(p: PrimitiveType) -> usize {
    match p {
        PrimitiveType::Reference(id) => id,
        PrimitiveType::Builtin(_) => panic!("a reference was expected"),
    }
}

fn field_names(t: &ResolvedIRType) -> Vec<String> {
    match t {
        ResolvedIRType::Struct(s) => s.fields.iter().map(|f| f.name.clone()).collect(),
        ResolvedIRType::Variant(v) => v.variants.iter().map(|f| f.name.clone()).collect(),
        ResolvedIRType::Builtin(_) => vec![],
    }
}

#[test]
fn point_is_one_named_allocation_with_a_struct_body() {
    let body = record(vec![field("x", builtin(Builtin::Int)), field("y", builtin(Builtin::Int))]);
    let mut compiler = IRCompiler::new();
    compiler.register_global_type("Point".to_string(), plain(body.clone()));
    let (id, fresh) = compiler.compile_global("Point".to_string(), &body).unwrap();
    assert_eq!(id, 0);
    assert!(fresh);

    let types = compiler.iter_types();
    let named: Vec<&(usize, roto::ir::NamedIRType)> =
        types.iter().filter(|(_, t)| matches!(t.name, TypeName::Variable(_))).collect();
    assert_eq!(named.len(), 1);
    assert_eq!(named[0].0, 0);
    assert!(named[0].1.name.same(&TypeName::Variable("Point".to_string())));

    match compiler.resolve_ir_type(&named[0].1.t).unwrap() {
        ResolvedIRType::Struct(s) => {
            assert_eq!(s.fields.len(), 2);
            assert_eq!(s.fields[0].name, "x");
            assert_eq!(s.fields[0].type_, PrimitiveType::Builtin(Builtin::Int));
            assert_eq!(s.fields[0].comment, None);
            assert_eq!(s.fields[1].name, "y");
            assert_eq!(s.fields[1].type_, PrimitiveType::Builtin(Builtin::Int));
        }
        _ => panic!("a struct was expected"),
    }

    // The struct literal itself is stored once, under a temporary name, and
    // the named row refers to it.
    assert_eq!(types.len(), 2);
    assert!(matches!(named[0].1.t, IRType::Reference(1)));
    assert_eq!(types[1].0, 1);
    assert!(types[1].1.name.same(&TypeName::Temporary(0)));
    assert!(matches!(types[1].1.t, IRType::Struct(_)));
}

#[test]
fn one_generic_application_is_allocated_once() {
    let mut compiler = IRCompiler::new();
    compiler.register_global_type(
        "Box".to_string(),
        TypePrototype {
            params: vec!["T".to_string()],
            type_: record(vec![field("value", variable("T"))]),
        },
    );
    let first = generic("Box", vec![("T", builtin(Builtin::String))]);
    let second = generic("Box", vec![("T", builtin(Builtin::String))]);
    let a = compiler.compile_to_primitive_type(&first).unwrap();
    let rows = compiler.allocator().len();
    let b = compiler.compile_to_primitive_type(&second).unwrap();
    assert_eq!(a, b);
    assert_eq!(reference(a), 0);
    assert_eq!(compiler.allocator().len(), rows);

    let named = compiler.allocator().get(0).unwrap();
    let mut args = TypeArgs::new();
    args.insert("T".to_string(), builtin(Builtin::String));
    assert!(named.name.same(&TypeName::Generic("Box".to_string(), args)));
    match compiler.resolve_ir_type(&named.t).unwrap() {
        ResolvedIRType::Struct(s) => {
            assert_eq!(s.fields.len(), 1);
            assert_eq!(s.fields[0].name, "value");
            assert_eq!(s.fields[0].type_, PrimitiveType::Builtin(Builtin::String));
        }
        _ => panic!("a struct was expected"),
    }

    let other = generic("Box", vec![("T", builtin(Builtin::Int))]);
    let c = compiler.compile_to_primitive_type(&other).unwrap();
    assert_ne!(a, c);
}

#[test]
fn two_names_with_one_body_share_the_body_only() {
    let body = record(vec![field("x", builtin(Builtin::Int))]);
    let mut compiler = IRCompiler::new();
    compiler.register_global_type("A".to_string(), plain(body.clone()));
    compiler.register_global_type("B".to_string(), plain(body.clone()));
    let (a, a_fresh) = compiler.compile_global("A".to_string(), &body).unwrap();
    let (b, b_fresh) = compiler.compile_global("B".to_string(), &body).unwrap();
    assert!(a_fresh && b_fresh);
    assert_ne!(a, b);
    assert_eq!(compiler.allocator().len(), 3);
    let inner_a = match compiler.allocator().get(a).unwrap().t {
        IRType::Reference(id) => id,
        _ => panic!("a reference was expected"),
    };
    let inner_b = match compiler.allocator().get(b).unwrap().t {
        IRType::Reference(id) => id,
        _ => panic!("a reference was expected"),
    };
    assert_eq!(inner_a, inner_b);
}

#[test]
fn two_names_with_bodies_that_differ_in_documentation_share_nothing() {
    let plain_body = record(vec![field("x", builtin(Builtin::Int))]);
    let documented_body = record(vec![documented("x", builtin(Builtin::Int), "the abscissa")]);
    assert!(!plain_body.same(&documented_body));
    let mut compiler = IRCompiler::new();
    compiler.register_global_type("A".to_string(), plain(plain_body.clone()));
    compiler.register_global_type("B".to_string(), plain(documented_body.clone()));
    let a = reference(compiler.compile_to_primitive_type(&variable("A")).unwrap());
    let b = reference(compiler.compile_to_primitive_type(&variable("B")).unwrap());
    assert_ne!(a, b);
    assert_eq!(compiler.allocator().len(), 4);
    let inner_a = match compiler.allocator().get(a).unwrap().t {
        IRType::Reference(id) => id,
        _ => panic!("a reference was expected"),
    };
    let inner_b = match compiler.allocator().get(b).unwrap().t {
        IRType::Reference(id) => id,
        _ => panic!("a reference was expected"),
    };
    assert_ne!(inner_a, inner_b);
}

#[test]
fn intersection_with_a_shared_field_fails() {
    let body = both(
        record(vec![field("x", builtin(Builtin::Int))]),
        record(vec![field("x", builtin(Builtin::Bool))]),
    );
    let mut compiler = IRCompiler::new();
    compiler.register_global_type("C".to_string(), plain(body.clone()));
    match compiler.compile_global("C".to_string(), &body) {
        Err(CompileError::DuplicateField(name)) => assert_eq!(name, "x"),
        other => panic!("DuplicateField was expected, not {:?}", other),
    }
    match compiler.compile_to_primitive_type(&body) {
        Err(CompileError::DuplicateField(name)) => assert_eq!(name, "x"),
        other => panic!("DuplicateField was expected, not {:?}", other),
    }
}

#[test]
fn intersection_of_disjoint_structs_concatenates_the_fields() {
    let body = both(
        record(vec![field("a", builtin(Builtin::Int)), field("b", builtin(Builtin::Float))]),
        record(vec![field("c", builtin(Builtin::Bool)), field("d", builtin(Builtin::Unit))]),
    );
    let mut compiler = IRCompiler::new();
    let p = compiler.compile_to_primitive_type(&body).unwrap();
    assert_eq!(reference(p), 2);
    let resolved = compiler.resolve_ir_type(&IRType::from(p)).unwrap();
    assert_eq!(field_names(&resolved), vec!["a", "b", "c", "d"]);
    let named = compiler.allocator().get(2).unwrap();
    assert!(named.name.same(&TypeName::Temporary(2)));
}

#[test]
fn intersection_reports_the_first_shared_field_of_the_left_operand() {
    let body = both(
        record(vec![
            field("a", builtin(Builtin::Int)),
            field("q", builtin(Builtin::Int)),
            field("p", builtin(Builtin::Int)),
        ]),
        record(vec![field("p", builtin(Builtin::Bool)), field("q", builtin(Builtin::Bool))]),
    );
    let mut compiler = IRCompiler::new();
    match compiler.compile_to_primitive_type(&body) {
        Err(CompileError::DuplicateField(name)) => assert_eq!(name, "q"),
        other => panic!("DuplicateField was expected, not {:?}", other),
    }
}

#[test]
fn intersection_of_variants_merges_or_reports_the_option() {
    let disjoint = both(
        choice(vec![("Left", builtin(Builtin::Int))]),
        choice(vec![("Right", builtin(Builtin::Bool))]),
    );
    let mut compiler = IRCompiler::new();
    let p = compiler.compile_to_primitive_type(&disjoint).unwrap();
    let resolved = compiler.resolve_ir_type(&IRType::from(p)).unwrap();
    assert!(matches!(resolved, ResolvedIRType::Variant(_)));
    assert_eq!(field_names(&resolved), vec!["Left", "Right"]);

    let clashing = both(
        choice(vec![("Same", builtin(Builtin::Int))]),
        choice(vec![("Same", builtin(Builtin::Bool))]),
    );
    match compiler.compile_to_primitive_type(&clashing) {
        Err(CompileError::DuplicateOption(name)) => assert_eq!(name, "Same"),
        other => panic!("DuplicateOption was expected, not {:?}", other),
    }
}

#[test]
fn intersection_of_a_struct_and_a_variant_is_incompatible() {
    let mut compiler = IRCompiler::new();
    let mixed = both(
        record(vec![field("x", builtin(Builtin::Int))]),
        choice(vec![("X", builtin(Builtin::Int))]),
    );
    assert!(matches!(
        compiler.compile_to_primitive_type(&mixed),
        Err(CompileError::IncompatibleIntersection)
    ));
    let with_builtin = both(record(vec![]), builtin(Builtin::Int));
    assert!(matches!(
        compiler.compile_to_primitive_type(&with_builtin),
        Err(CompileError::IncompatibleIntersection)
    ));
}

#[test]
fn lowering_twice_gives_the_same_id_and_no_new_row() {
    let mut compiler = IRCompiler::new();
    compiler.register_global_type(
        "Pair".to_string(),
        plain(record(vec![
            field("first", builtin(Builtin::Int)),
            field("second", record(vec![field("inner", builtin(Builtin::Bool))])),
        ])),
    );
    let e = record(vec![field("p", variable("Pair")), field("n", builtin(Builtin::Unit))]);
    let first = compiler.compile_to_primitive_type(&e).unwrap();
    let rows = compiler.allocator().len();
    assert_eq!(rows, 4);
    let second = compiler.compile_to_primitive_type(&e.clone()).unwrap();
    assert_eq!(first, second);
    assert_eq!(compiler.allocator().len(), rows);
}

#[test]
fn ids_are_dense_and_in_order_of_first_encounter() {
    let mut compiler = IRCompiler::new();
    compiler.register_global_type(
        "Inner".to_string(),
        plain(record(vec![field("v", builtin(Builtin::Int))])),
    );
    compiler.register_global_type(
        "Outer".to_string(),
        plain(record(vec![field("a", variable("Inner")), field("b", variable("Inner"))])),
    );
    let p = compiler.compile_to_primitive_type(&variable("Outer")).unwrap();
    assert_eq!(reference(p), 0);
    let types = compiler.iter_types();
    assert_eq!(types.len(), 4);
    assert_eq!(compiler.allocator().len(), 4);
    for (k, (id, _)) in types.iter().enumerate() {
        assert_eq!(*id, k);
    }
    // Outer, Inner, the struct of Inner, the struct of Outer.
    assert!(types[0].1.name.same(&TypeName::Variable("Outer".to_string())));
    assert!(types[1].1.name.same(&TypeName::Variable("Inner".to_string())));
    assert!(types[2].1.name.same(&TypeName::Temporary(0)));
    assert!(types[3].1.name.same(&TypeName::Temporary(1)));
    assert!(matches!(types[0].1.t, IRType::Reference(3)));
    assert!(matches!(types[1].1.t, IRType::Reference(2)));
    assert!(compiler.allocator().key(1).same(&variable("Inner")));
}

#[test]
fn builtins_never_allocate() {
    let mut compiler = IRCompiler::new();
    for kind in [Builtin::Int, Builtin::Float, Builtin::String, Builtin::Bool, Builtin::Unit] {
        let p = compiler.compile_to_primitive_type(&builtin(kind)).unwrap();
        assert_eq!(p, PrimitiveType::Builtin(kind));
        assert_eq!(compiler.allocator().len(), 0);
    }
    let e = record(vec![field("x", builtin(Builtin::Int)), field("y", builtin(Builtin::Float))]);
    compiler.compile_to_primitive_type(&e).unwrap();
    assert_eq!(compiler.allocator().len(), 1);
}

#[test]
fn unknown_names_are_reported() {
    let mut compiler = IRCompiler::new();
    match compiler.compile_to_primitive_type(&variable("Nowhere")) {
        Err(CompileError::UnknownType(name)) => assert_eq!(name, "Nowhere"),
        other => panic!("UnknownType was expected, not {:?}", other),
    }
    match compiler.compile_to_primitive_type(&generic("Nowhere", vec![])) {
        Err(CompileError::UnknownType(name)) => assert_eq!(name, "Nowhere"),
        other => panic!("UnknownType was expected, not {:?}", other),
    }
    assert_eq!(compiler.allocator().len(), 0);
}

#[test]
fn instantiation_needs_exactly_the_declared_parameters() {
    let proto = TypePrototype {
        params: vec!["K".to_string(), "V".to_string()],
        type_: record(vec![field("key", variable("K")), field("value", variable("V"))]),
    };
    let mut missing = TypeArgs::new();
    missing.insert("V".to_string(), builtin(Builtin::Int));
    match proto.unify(&missing) {
        Err(CompileError::ParameterMismatch(name)) => assert_eq!(name, "K"),
        other => panic!("ParameterMismatch was expected, not {:?}", other),
    }
    let mut extra = TypeArgs::new();
    extra.insert("V".to_string(), builtin(Builtin::Int));
    extra.insert("K".to_string(), builtin(Builtin::String));
    extra.insert("A".to_string(), builtin(Builtin::Bool));
    match proto.unify(&extra) {
        Err(CompileError::ParameterMismatch(name)) => assert_eq!(name, "A"),
        other => panic!("ParameterMismatch was expected, not {:?}", other),
    }
    let mut exact = TypeArgs::new();
    exact.insert("V".to_string(), builtin(Builtin::Int));
    exact.insert("K".to_string(), builtin(Builtin::String));
    let body = proto.unify(&exact).unwrap();
    assert!(body.same(&record(vec![
        field("key", builtin(Builtin::String)),
        field("value", builtin(Builtin::Int)),
    ])));
}

#[test]
fn a_generic_used_as_a_plain_name_is_a_mismatch() {
    let mut compiler = IRCompiler::new();
    compiler.register_global_type(
        "Box".to_string(),
        TypePrototype {
            params: vec!["T".to_string()],
            type_: record(vec![field("value", variable("T"))]),
        },
    );
    match compiler.compile_to_primitive_type(&variable("Box")) {
        Err(CompileError::ParameterMismatch(name)) => assert_eq!(name, "T"),
        other => panic!("ParameterMismatch was expected, not {:?}", other),
    }
    compiler.register_global_type("Unit".to_string(), plain(builtin(Builtin::Unit)));
    match compiler.compile_to_primitive_type(&generic("Unit", vec![("T", builtin(Builtin::Int))])) {
        Err(CompileError::ParameterMismatch(name)) => assert_eq!(name, "T"),
        other => panic!("ParameterMismatch was expected, not {:?}", other),
    }
}

#[test]
fn registering_a_name_again_overwrites() {
    let mut compiler = IRCompiler::new();
    compiler.register_global_type("A".to_string(), plain(builtin(Builtin::Int)));
    compiler.register_global_type("B".to_string(), plain(builtin(Builtin::Bool)));
    compiler.register_global_type("A".to_string(), plain(builtin(Builtin::String)));
    let globals = compiler.iter_globals();
    assert_eq!(globals.len(), 2);
    assert_eq!(globals[0].0, "A");
    assert!(globals[0].1.type_.same(&builtin(Builtin::String)));
    assert_eq!(globals[1].0, "B");
    let p = compiler.compile_to_primitive_type(&variable("A")).unwrap();
    let named = compiler.allocator().get(reference(p)).unwrap();
    assert!(matches!(named.t, IRType::Builtin(Builtin::String)));
}

#[test]
fn a_missing_row_is_a_broken_reference() {
    let compiler = IRCompiler::new();
    match compiler.resolve_ir_type(&IRType::Reference(7)) {
        Err(CompileError::BrokenReference(id)) => assert_eq!(id, 7),
        other => panic!("BrokenReference was expected, not {:?}", other.map(|_| ())),
    }
    match compiler.allocator().get(0) {
        Err(CompileError::BrokenReference(id)) => assert_eq!(id, 0),
        other => panic!("BrokenReference was expected, not {:?}", other.map(|_| ())),
    }
}

#[test]
fn an_alias_of_itself_resolves_to_a_cyclic_reference() {
    let mut compiler = IRCompiler::new();
    compiler.register_global_type("A".to_string(), plain(variable("A")));
    let p = compiler.compile_to_primitive_type(&variable("A")).unwrap();
    assert_eq!(reference(p), 0);
    assert!(matches!(compiler.allocator().get(0).unwrap().t, IRType::Reference(0)));
    match compiler.resolve_ir_type(&IRType::from(p)) {
        Err(CompileError::CyclicReference(id)) => assert_eq!(id, 0),
        other => panic!("CyclicReference was expected, not {:?}", other.map(|_| ())),
    }
}

#[test]
fn a_recursive_struct_refers_to_its_own_name() {
    let mut compiler = IRCompiler::new();
    compiler.register_global_type(
        "List".to_string(),
        plain(record(vec![field("head", builtin(Builtin::Int)), field("tail", variable("List"))])),
    );
    let p = compiler.compile_to_primitive_type(&variable("List")).unwrap();
    assert_eq!(reference(p), 0);
    match compiler.resolve_ir_type(&IRType::from(p)).unwrap() {
        ResolvedIRType::Struct(s) => {
            assert_eq!(s.fields[1].name, "tail");
            assert_eq!(s.fields[1].type_, PrimitiveType::Reference(0));
        }
        _ => panic!("a struct was expected"),
    }
}

#[test]
fn resolving_follows_a_chain_of_aliases() {
    let mut compiler = IRCompiler::new();
    compiler.register_global_type("A".to_string(), plain(variable("B")));
    compiler.register_global_type("B".to_string(), plain(variable("C")));
    compiler.register_global_type("C".to_string(), plain(builtin(Builtin::Float)));
    let p = compiler.compile_to_primitive_type(&variable("A")).unwrap();
    assert_eq!(compiler.allocator().len(), 3);
    match compiler.resolve_ir_type(&IRType::from(p)).unwrap() {
        ResolvedIRType::Builtin(kind) => assert_eq!(kind, Builtin::Float),
        _ => panic!("a builtin was expected"),
    }
}

#[test]
fn type_arguments_are_kept_in_ascending_order_and_replace_on_insert() {
    let mut args = TypeArgs::new();
    assert!(args.is_empty());
    assert!(args.insert("b".to_string(), builtin(Builtin::Int)).is_none());
    assert!(args.insert("a".to_string(), builtin(Builtin::Bool)).is_none());
    assert!(args.insert("c".to_string(), builtin(Builtin::Unit)).is_none());
    let old = args.insert("b".to_string(), builtin(Builtin::Float)).unwrap();
    assert!(old.same(&builtin(Builtin::Int)));
    assert_eq!(args.len(), 3);
    assert_eq!(args.key(0), "a");
    assert_eq!(args.key(1), "b");
    assert_eq!(args.key(2), "c");
    assert!(args.value(1).same(&builtin(Builtin::Float)));
    assert!(args.get("b").unwrap().same(&builtin(Builtin::Float)));
    assert!(args.get("d").is_none());
    assert!(args.contains_key("a"));
    assert!(!args.contains_key("ab"));

    let mut other = TypeArgs::new();
    other.insert("c".to_string(), builtin(Builtin::Unit));
    other.insert("b".to_string(), builtin(Builtin::Float));
    other.insert("a".to_string(), builtin(Builtin::Bool));
    assert!(args.same(&other));
}

#[test]
fn substitution_replaces_bound_variables_only() {
    let mut mapping = TypeArgs::new();
    mapping.insert("T".to_string(), builtin(Builtin::Int));
    assert!(variable("T").unify(&mapping).same(&builtin(Builtin::Int)));
    assert!(variable("U").unify(&mapping).same(&variable("U")));
    assert!(builtin(Builtin::Bool).unify(&mapping).same(&builtin(Builtin::Bool)));
    let e = both(
        record(vec![documented("x", variable("T"), "kept")]),
        choice(vec![("Y", generic("T", vec![("P", variable("T"))]))]),
    );
    let expected = both(
        record(vec![documented("x", builtin(Builtin::Int), "kept")]),
        choice(vec![("Y", generic("T", vec![("P", builtin(Builtin::Int))]))]),
    );
    assert!(e.unify(&mapping).same(&expected));
    assert!(!e.unify(&mapping).same(&e));
}

#[test]
fn strings_are_ordered_by_code_point() {
    assert_eq!(str_order("", ""), 0);
    assert_eq!(str_order("", "a"), -1);
    assert_eq!(str_order("a", ""), 1);
    assert_eq!(str_order("abc", "abd"), -1);
    assert_eq!(str_order("abc", "ab"), 1);
    assert_eq!(str_order("Z", "a"), -1);
    assert_eq!(str_order("é", "z"), 1);
    assert_eq!(str_order("same", "same"), 0);
}

#[test]
fn expressions_compare_by_structure_whatever_the_order_of_binding() {
    let first = generic("Map", vec![("K", builtin(Builtin::String)), ("V", variable("Item"))]);
    let second = generic("Map", vec![("V", variable("Item")), ("K", builtin(Builtin::String))]);
    assert_eq!(first, second);
    assert_eq!(first.clone(), first);
    assert_ne!(first, generic("Map", vec![("K", builtin(Builtin::String))]));
    assert_ne!(
        record(vec![field("x", builtin(Builtin::Int))]),
        record(vec![documented("x", builtin(Builtin::Int), "x")])
    );
    assert_ne!(variable("Int"), builtin(Builtin::Int));

    let mut compiler = IRCompiler::new();
    compiler.register_global_type(
        "Map".to_string(),
        TypePrototype {
            params: vec!["K".to_string(), "V".to_string()],
            type_: record(vec![field("key", variable("K")), field("value", variable("V"))]),
        },
    );
    compiler.register_global_type("Item".to_string(), plain(builtin(Builtin::Float)));
    let a = compiler.compile_to_primitive_type(&first).unwrap();
    let b = compiler.compile_to_primitive_type(&second).unwrap();
    assert_eq!(a, b);
}
