use wasmpg::generator::{cgenerator, typstgenerator};
use wasmpg::parser::ProtocolParser;

#[test]
fn c_backend_emits_layout_disposer_and_decoder() {
    let p = ProtocolParser::parse_protocol(
        "struct Point { int x; int y; }\nprotocol c Foo { Point p; string names[]; }",
    )
    .unwrap();
    let (h, c) = cgenerator::generate_protocol(&p);
    assert!(h.starts_with("#ifndef PROTOCOL_H"));
    assert!(h.ends_with("#endif\n"));
    assert!(h.contains("typedef struct Point_t {\n    int x;\n    int y;\n} Point;\n"));
    assert!(h.contains("void free_Point(Point *s);"));
    assert!(h.contains("int decode_Foo(size_t buffer_len, Foo *out);"));
    // the c direction means the native side decodes, never encodes
    assert!(!h.contains("int encode_Foo"));
    assert!(c.contains(
        "int decode_Point(uint8_t *__input_buffer, size_t buffer_len, Point *out, size_t *buffer_offset)"
    ));
    assert!(c.contains("    NEXT_INT(out->x)\n"));
    // the array field is paired with an element-count member
    assert!(h.contains("    char* * names;\n    size_t names_len;\n"));
}

#[test]
fn c_backend_skips_structs_no_protocol_reaches() {
    let p = ProtocolParser::parse_protocol(
        "struct Unused { int x; } struct B { int y; } protocol c Foo { B b; }",
    )
    .unwrap();
    let (h, _c) = cgenerator::generate_protocol(&p);
    assert!(!h.contains("Unused"));
    assert!(h.contains("typedef struct B_t"));
}

#[test]
fn c_backend_emits_size_and_encode_for_typst_direction() {
    let p = ProtocolParser::parse_protocol(
        "struct B { string s; }\nprotocol typst Foo { B b; int n; }",
    )
    .unwrap();
    let (h, c) = cgenerator::generate_protocol(&p);
    assert!(h.contains("int encode_Foo(const Foo *s);"));
    assert!(c.contains("size_t B_size(const void *s)"));
    assert!(c.contains("string_size(((B*)s)->s)"));
    assert!(c.contains("wasm_minimal_protocol_send_result_to_host"));
}

#[test]
fn typst_backend_emits_matching_codecs() {
    let p = ProtocolParser::parse_protocol(
        "struct Point { int x; int y; }\nprotocol c Foo { Point p; string names[]; }",
    )
    .unwrap();
    let t = typstgenerator::generate_protocol(&p);
    assert!(t.starts_with("/// Encodes a 32-bytes integer into big-endian bytes."));
    // the c direction means the script side encodes
    assert!(t.contains("#let encode-Point(value) = {\n  encode-int(value.at(\"x\")) + encode-int(value.at(\"y\"))\n}\n"));
    assert!(t.contains("#let encode-Foo(value) = {\n  encode-Point(value.at(\"p\")) + encode-list(value.at(\"names\"), encode-string)\n}\n"));
}

#[test]
fn typst_backend_emits_decoder_for_typst_direction() {
    let p = ProtocolParser::parse_protocol("struct B { int x; }\nprotocol typst Foo { B b; }")
        .unwrap();
    let t = typstgenerator::generate_protocol(&p);
    assert!(t.contains("#let decode-B(bytes) = {\n  let offset = 0\n"));
    assert!(t.contains("  let (f_x, size) = decode-int(bytes.slice(offset, bytes.len()))\n"));
    assert!(t.contains("    x: f_x,\n"));
}

#[test]
fn typst_backend_emits_both_for_bidirectional() {
    let p = ProtocolParser::parse_protocol(
        "struct B { int x; }\nprotocol bidirectional Foo { B b; }",
    )
    .unwrap();
    let t = typstgenerator::generate_protocol(&p);
    assert!(t.contains("#let encode-B(value)"));
    assert!(t.contains("#let decode-B(bytes)"));
    assert!(t.contains("#let encode-Foo(value)"));
    assert!(t.contains("#let decode-Foo(bytes)"));
}

#[test]
fn typst_backend_skips_structs_no_protocol_reaches() {
    let p = ProtocolParser::parse_protocol(
        "struct Unused { int x; } struct B { int y; } protocol c Foo { B b; }",
    )
    .unwrap();
    let t = typstgenerator::generate_protocol(&p);
    assert!(!t.contains("encode-Unused"));
    assert!(!t.contains("decode-Unused"));
    assert!(t.contains("#let encode-B(value)"));
}

#[test]
fn struct_description_lists_fields() {
    let p = ProtocolParser::parse_protocol("struct B { int x; string names[]; }").unwrap();
    for e in p.structs() {
        if e.name == "B" {
            assert_eq!(e.st.describe(), "Struct {\n\tx: int\n\tnames: string[]\n}");
        }
    }
}
