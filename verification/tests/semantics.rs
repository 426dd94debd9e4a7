use wasmpg::parser::ProtocolParser;
use wasmpg::protocol::Protocol;
use wasmpg::struct_::{Struct, StructType};
use wasmpg::types::Types;
use wasmpg::{DiagKind, Span};

fn sp() -> Span {
    Span { start: 0, end: 0 }
}

#[test]
fn duplicate_struct_name_rejected() {
    let r = ProtocolParser::parse_protocol("struct A { int x; } struct A { int y; }");
    match r {
        Err(d) => assert_eq!(d.kind, DiagKind::DuplicateStructName),
        Ok(_) => panic!("duplicate struct name accepted"),
    }
}

#[test]
fn duplicate_field_name_rejected() {
    let r = ProtocolParser::parse_protocol("struct A { int x; int x; }");
    match r {
        Err(d) => {
            assert_eq!(d.kind, DiagKind::DuplicateFieldName);
            // the diagnostic carries the offending field's type-token span
            assert_eq!(d.span, Span { start: 18, end: 21 });
        }
        Ok(_) => panic!("duplicate field name accepted"),
    }
}

#[test]
fn self_reference_rejected_as_circular() {
    let r = ProtocolParser::parse_protocol("struct A { A a; }");
    match r {
        Err(d) => {
            assert_eq!(d.kind, DiagKind::CircularDependency);
            // the diagnostic carries the referencing field's type-token span
            assert_eq!(d.span, Span { start: 11, end: 12 });
        }
        Ok(_) => panic!("self reference accepted"),
    }
}

#[test]
fn self_reference_through_array_rejected_as_circular() {
    let r = ProtocolParser::parse_protocol("struct A { A a[]; }");
    match r {
        Err(d) => assert_eq!(d.kind, DiagKind::CircularDependency),
        Ok(_) => panic!("self reference through array accepted"),
    }
}

#[test]
fn mutual_reference_rejected_as_circular() {
    // through the two-phase builder interface both names can be declared
    // before either body is finalized, so the mutual cycle surfaces as a
    // circular dependency when the second body closes the loop
    let mut p = Protocol::default();
    p.pre_add_struct("A", StructType::Struct, sp()).unwrap();
    p.pre_add_struct("B", StructType::Struct, sp()).unwrap();
    let mut a = Struct::new(StructType::Struct, sp());
    a.add_field("b", Types::Struct(String::from("B")), sp());
    p.add_struct("A", a).unwrap();
    let mut b = Struct::new(StructType::Struct, sp());
    b.add_field("a", Types::Struct(String::from("A")), sp());
    match p.add_struct("B", b) {
        Err(d) => assert_eq!(d.kind, DiagKind::CircularDependency),
        Ok(_) => panic!("mutual reference accepted"),
    }
}

#[test]
fn unknown_struct_reference_rejected() {
    let r = ProtocolParser::parse_protocol("struct A { B b; }");
    match r {
        Err(d) => assert_eq!(d.kind, DiagKind::UnknownStructReference),
        Ok(_) => panic!("unknown reference accepted"),
    }
}

#[test]
fn nested_declaration_rejected() {
    let r = ProtocolParser::parse_protocol("struct A { struct B { int x; } }");
    match r {
        Err(d) => assert_eq!(d.kind, DiagKind::NestingNotAllowedHere),
        Ok(_) => panic!("nested declaration accepted"),
    }
}

fn flags_of(p: &Protocol, name: &str) -> (bool, bool) {
    for e in p.structs() {
        if e.name == name {
            return (e.st.encoder, e.st.decoder);
        }
    }
    panic!("struct {} not found", name);
}

#[test]
fn protocol_c_sets_decoder_only() {
    let p = ProtocolParser::parse_protocol("struct B { int x; } protocol c Foo { B b; }").unwrap();
    let (enc, dec) = flags_of(&p, "B");
    assert!(dec);
    assert!(!enc);
}

#[test]
fn protocol_typst_sets_encoder_only() {
    let p =
        ProtocolParser::parse_protocol("struct B { int x; } protocol typst Foo2 { B b; }").unwrap();
    let (enc, dec) = flags_of(&p, "B");
    assert!(enc);
    assert!(!dec);
}

#[test]
fn protocol_bidirectional_sets_both() {
    let p = ProtocolParser::parse_protocol(
        "struct B { int x; } protocol bidirectional Foo3 { B b; }",
    )
    .unwrap();
    let (enc, dec) = flags_of(&p, "B");
    assert!(enc);
    assert!(dec);
}

#[test]
fn flags_propagate_into_nested_structs() {
    let p = ProtocolParser::parse_protocol(
        "struct C { int x; } struct D { C c[]; } struct B { D d; } protocol c Foo { B b; }",
    )
    .unwrap();
    assert_eq!(flags_of(&p, "B"), (false, true));
    assert_eq!(flags_of(&p, "D"), (false, true));
    assert_eq!(flags_of(&p, "C"), (false, true));
}

#[test]
fn flags_accumulate_across_protocols() {
    let p = ProtocolParser::parse_protocol(
        "struct B { int x; } protocol c Foo { B b; } protocol typst Bar { B b; }",
    )
    .unwrap();
    assert_eq!(flags_of(&p, "B"), (true, true));
}

#[test]
fn declaration_order_is_topological() {
    let p = ProtocolParser::parse_protocol(
        "struct A { int x; } struct B { A a; } struct C { B b; A a; }",
    )
    .unwrap();
    assert_eq!(p.num_ordered(), 3);
    let names: Vec<String> = (0..3).map(|k| p.ordered_structs(k).0.clone()).collect();
    // every struct precedes all structs that reference it
    assert_eq!(names, vec!["A", "B", "C"]);
}

#[test]
fn valid_program_parses() {
    let p = ProtocolParser::parse_protocol(
        "struct Point { int x; int y; }\nprotocol c Foo { Point p; string names[]; }",
    )
    .unwrap();
    assert!(p.has_struct("Point"));
    assert!(p.has_protocol("Foo"));
    assert!(!p.has_struct("Foo"));
    assert!(!p.has_protocol("Point"));
}

#[test]
fn type_parsing_and_renderings() {
    assert!(matches!(Types::parse("int"), Types::Int));
    assert!(matches!(Types::parse("float"), Types::Float));
    assert!(matches!(Types::parse("point"), Types::Point));
    assert!(matches!(Types::parse("bool"), Types::Bool));
    assert!(matches!(Types::parse("char"), Types::Char));
    assert!(matches!(Types::parse("string"), Types::String));
    assert!(matches!(Types::parse("Vec2"), Types::Struct(_)));
    assert!(!Types::Int.is_struct());
    assert!(Types::Struct(String::from("A")).is_struct());
    assert!(Types::Array(Box::new(Types::Struct(String::from("A")))).is_struct());
    assert!(!Types::Array(Box::new(Types::Int)).is_struct());
    assert_eq!(Types::String.to_c(false), "char*");
    assert_eq!(Types::Struct(String::from("A")).to_c(true), "struct A_t");
    assert_eq!(Types::Struct(String::from("A")).to_c(false), "A");
    assert_eq!(Types::Array(Box::new(Types::Int)).to_c(false), "int *");
    assert_eq!(Types::Array(Box::new(Types::Int)).to_typst(), "int[]");
    assert_eq!(Types::Point.to_typst(), "point");
    assert_eq!(Types::Point.to_c(true), "float");
}
