//! The native backend: emits, for one validated declaration graph, a C
//! header and source implementing the shared wire format — a value layout,
//! a disposer, and (as the responsibility flags demand) decode, size and
//! encode functions for every struct and protocol.

use vstd::prelude::*;

use crate::protocol::Protocol;
use crate::struct_::{Field, Struct, StructType};
use crate::struct_::fields_no_nested_array;
use crate::types::{c_text, no_nested_array, Types};

verus! {

pub const HEADER: &'static str = "#ifndef PROTOCOL_H\n#define PROTOCOL_H\n\n#include <stdlib.h>\n#include <stdint.h>\n#include <string.h>\n#include <stdbool.h>\n#include <math.h>\n#include \"emscripten.h\"\n\n#ifndef PROTOCOL_FUNCTION\n#define PROTOCOL_FUNCTION __attribute__((import_module(\"typst_env\"))) extern\n#endif\n\nPROTOCOL_FUNCTION void wasm_minimal_protocol_send_result_to_host(const uint8_t *ptr, size_t len);\nPROTOCOL_FUNCTION void wasm_minimal_protocol_write_args_to_buffer(uint8_t *ptr);\n\n\n#define TYPST_INT_SIZE 4\n\n#define INIT_BUFFER_UNPACK(buffer_len)                                                             \\\n    size_t __buffer_offset = 0;                                                                    \\\n    uint8_t *__input_buffer = malloc((buffer_len));                                                \\\n    if (!__input_buffer) {                                                                         \\\n        return 1;                                                                                  \\\n    }                                                                                              \\\n    wasm_minimal_protocol_write_args_to_buffer(__input_buffer);\n\n#define CHECK_BUFFER()                                                                             \\\n\tif (__buffer_offset >= buffer_len) {                                                           \\\n\t\treturn 2;                                                                                  \\\n\t}\n\n#define NEXT_STR(dst)                                                                              \\\n\tCHECK_BUFFER()                                                                                 \\\n    {                                                                                              \\\n\t\tif (__input_buffer[__buffer_offset] == '\\0') {                                            \\\n\t\t\t(dst) = malloc(1);                                                                     \\\n\t\t\tif (!(dst)) {                                                                          \\\n\t\t\t\treturn 1;                                                                          \\\n\t\t\t}                                                                                      \\\n\t\t\t(dst)[0] = '\\0';                                                                      \\\n\t\t\t__buffer_offset++;                                                                     \\\n\t\t} else {                                                                                   \\\n\t\t\tint __str_len = strlen((char *)__input_buffer + __buffer_offset);                      \\\n\t\t\t(dst) = malloc(__str_len + 1);                                                         \\\n\t\t\tif (!(dst)) {                                                                          \\\n\t\t\t\treturn 1;                                                                          \\\n\t\t\t}                                                                                      \\\n\t\t\tstrcpy((dst), (char *)__input_buffer + __buffer_offset);                               \\\n\t\t\t__buffer_offset += __str_len + 1;                                                      \\\n\t\t}                                                                                          \\\n    }\n\n#define NEXT_INT(dst)                                                                              \\\n\tCHECK_BUFFER()                                                                                 \\\n    (dst) = big_endian_decode(__input_buffer + __buffer_offset, TYPST_INT_SIZE);                   \\\n    __buffer_offset += TYPST_INT_SIZE;\n\n#define NEXT_CHAR(dst)                                                                             \\\n\tCHECK_BUFFER()                                                                                 \\\n    (dst) = __input_buffer[__buffer_offset++];\n\n#define NEXT_FLOAT(dst)                                                                            \\\n\tCHECK_BUFFER()                                                                                 \\\n    (dst) = decode_float(__input_buffer + __buffer_offset);                                        \\\n\t__buffer_offset += TYPST_INT_SIZE;\n    \n#define FREE_BUFFER()                                                                              \\\n    free(__input_buffer);                                                                          \\\n    __input_buffer = NULL;\n\n#define INIT_BUFFER_PACK(buffer_len)                                                               \\\n    size_t __buffer_offset = 0;                                                                    \\\n    uint8_t *__input_buffer = malloc((buffer_len));                                                \\\n    if (!__input_buffer) {                                                                         \\\n        return 1;                                                                                  \\\n    }\n\n#define FLOAT_PACK(fp)                                                                             \\\n    {                                                                                              \\\n\t\tif (fp == 0.0f) {  \t\t\t\t\t\t\t\t\t\t\t\t\t\t\t\t\t       \\\n\t\t\tbig_endian_encode(0, __input_buffer + __buffer_offset, TYPST_INT_SIZE);                \\\n\t\t} else {                                                                                   \\\n\t\t\tunion FloatBuffer { \t\t\t\t\t\t\t\t\t\t\t\t\t\t\t   \\\n\t\t\t\tfloat f;   \t\t\t\t\t\t\t\t\t\t\t\t\t\t\t\t       \\\n\t\t\t\tint i;   \t\t\t\t\t\t\t\t\t\t\t\t\t\t\t\t       \\\n\t\t\t} __float_buffer;                                                                      \\\n\t\t\t__float_buffer.f = (fp);                                                               \\\n\t\t\tbig_endian_encode(__float_buffer.i, __input_buffer + __buffer_offset, TYPST_INT_SIZE); \\\n\t\t}                                                                                          \\\n\t\t__buffer_offset += TYPST_INT_SIZE;                                                         \\\n\t}\n\n#define INT_PACK(i)                                                                                \\\n    big_endian_encode((i), __input_buffer + __buffer_offset, TYPST_INT_SIZE);                      \\\n    __buffer_offset += TYPST_INT_SIZE;\n\n#define CHAR_PACK(c)                                                                               \\\n    __input_buffer[__buffer_offset++] = (c);\n\n#define STR_PACK(s)                                                                                \\\n    if (s == NULL || s[0] == '\\0') {                                                              \\\n        __input_buffer[__buffer_offset++] = '\\0';                                                 \\\n    } else {                                                                                       \\\n        strcpy((char *)__input_buffer + __buffer_offset, (s));                                     \\\n        size_t __str_len = strlen((s));                                                            \\\n        __input_buffer[__buffer_offset + __str_len] = '\\0';                                       \\\n        __buffer_offset += __str_len + 1;                                                          \\\n    }\n";

pub const CSOURCE: &'static str = "#include \"protocol.h\"\nint big_endian_decode(uint8_t const *buffer, int size){\n    int value = 0;\n    for (int i = 0; i < size; i++) {\n        value |= buffer[i] << (8 * (size - i - 1));\n    }\n    return value;\n}\n\nvoid big_endian_encode(int value, uint8_t *buffer, int size) {\n    for (int i = 0; i < sizeof(int); i++) {\n        buffer[i] = (value >> (8 * (sizeof(int) - i - 1))) & 0xFF;\n    }\n}\n\nfloat decode_float(uint8_t *buffer) {\n\tint value = big_endian_decode(buffer, TYPST_INT_SIZE);\n\tif (value == 0) {\n\t\treturn 0.0f;\n\t}\n\tunion FloatBuffer {\n\t\tfloat f;\n\t\tint i;\n\t} float_buffer;\n\tfloat_buffer.i = value;\n\treturn float_buffer.f;\n}\n\nvoid encode_float(float value, uint8_t *buffer) {\n\tif (value == 0.0f) {\n\t\tbig_endian_encode(0, buffer, TYPST_INT_SIZE);\n\t} else {\n\t\tunion FloatBuffer {\n\t\t\tfloat f;\n\t\t\tint i;\n\t\t} float_buffer;\n\t\tfloat_buffer.f = value;\n\t\tbig_endian_encode(float_buffer.i, buffer, TYPST_INT_SIZE);\n\t}\n}\n\nsize_t list_size(void *list, size_t size, size_t (*sf)(const void*), size_t element_size) {\n    size_t result = 0;\n    for (int i = 0; i < size; i++) {\n        result += sf(list + i * element_size);\n    }\n    return result;\n}\n\nsize_t int_size(const void* elem) {\n    return TYPST_INT_SIZE;\n}\nsize_t float_size(const void *elem) {\n    return TYPST_INT_SIZE;\n}\nsize_t bool_size(const void *elem) {\n    return TYPST_INT_SIZE;\n}\nsize_t char_size(const void *elem) {\n    return 1;\n}\nsize_t string_size(const void *elem) {\n    if (!elem || !((char *)elem)[0]) {\n        return 1;\n    }\n    return strlen((char *)elem) + 1;\n}\nsize_t string_list_size(char **list, size_t size) {\n\tsize_t result = 0;\n\tfor (size_t i = 0; i < size; i++) {\n\t\tresult += string_size(list[i]);\n\t}\n\treturn result;\n}\n\n";

/// Does a value of this type own memory that a disposer must release?
pub open spec fn spec_need_free(t: Types) -> bool
    decreases t,
{
    match t {
        Types::String => true,
        Types::Struct(_) => true,
        Types::Array(e) => spec_need_free(*e),
        _ => false,
    }
}

/// The member lines of a struct's typedef: one per field, with an extra
/// element-count member after every array field.
pub open spec fn struct_members_text(fields: Seq<Field>) -> Seq<char>
    decreases fields.len(),
{
    if fields.len() == 0 {
        Seq::empty()
    } else {
        let f = fields.last();
        struct_members_text(fields.drop_last()) + "    "@ + c_text(f.ty, true) + " "@ + f.name@
            + ";\n"@ + (if f.ty matches Types::Array(_) {
            "    size_t "@ + f.name@ + "_len;\n"@
        } else {
            Seq::<char>::empty()
        })
    }
}

/// The whole typedef of one struct.
pub open spec fn struct_text(name: Seq<char>, s: Struct) -> Seq<char> {
    "typedef struct "@ + name + "_t {\n"@ + struct_members_text(s.spec_fields()) + "} "@ + name
        + ";\n"@
}

/// The signature of a struct's disposer.
pub open spec fn free_sig_text(name: Seq<char>) -> Seq<char> {
    "void free_"@ + name + "("@ + name + " *s)"@
}

/// The disposer body lines for one field.
pub open spec fn field_free_text(field_name: Seq<char>, t: Types) -> Seq<char>
    decreases t,
{
    match t {
        Types::String => "    if (s->"@ + field_name + ") {\n        free(s->"@ + field_name
            + ");\n    }\n"@,
        Types::Struct(_) => "    free_"@ + c_text(t, false) + "(&s->"@ + field_name + ");\n"@,
        Types::Array(e) => (if spec_need_free(*e) {
            "    for (size_t i = 0; i < s->"@ + field_name + "_len; i++) {\n"@ + field_free_text(
                field_name + "[i]"@,
                *e,
            ) + "    }\n"@
        } else {
            Seq::<char>::empty()
        }) + "    free(s->"@ + field_name + ");\n"@,
        _ => Seq::empty(),
    }
}

/// The disposer body lines of all fields.
pub open spec fn fields_free_text(fields: Seq<Field>) -> Seq<char>
    decreases fields.len(),
{
    if fields.len() == 0 {
        Seq::empty()
    } else {
        fields_free_text(fields.drop_last()) + field_free_text(
            fields.last().name@,
            fields.last().ty,
        )
    }
}

/// A struct's whole disposer.
pub open spec fn struct_free_text(name: Seq<char>, s: Struct) -> Seq<char> {
    free_sig_text(name) + " {\n"@ + fields_free_text(s.spec_fields()) + "}\n"@
}

/// The signature of a struct's decode function: protocols own the whole
/// input buffer, nested structs share a cursor into their parent's.
pub open spec fn decode_sig_text(name: Seq<char>, s: Struct) -> Seq<char> {
    if s.spec_type() == StructType::Struct {
        "int decode_"@ + name + "(uint8_t *__input_buffer, size_t buffer_len, "@ + name
            + " *out, size_t *buffer_offset)"@
    } else {
        "int decode_"@ + name + "(size_t buffer_len, "@ + name + " *out)"@
    }
}

/// The decode lines for one field.
pub open spec fn decode_line_text(field_name: Seq<char>, t: Types) -> Seq<char>
    decreases t,
{
    match t {
        Types::Int => "    NEXT_INT(out->"@ + field_name + ")\n"@,
        Types::Float => "    NEXT_FLOAT(out->"@ + field_name + ")\n"@,
        Types::Point => "    NEXT_FLOAT(out->"@ + field_name + ")\n"@,
        Types::String => "    NEXT_STR(out->"@ + field_name + ")\n"@,
        Types::Bool => "    NEXT_CHAR(out->"@ + field_name + ")\n"@,
        Types::Char => "    NEXT_CHAR(out->"@ + field_name + ")\n"@,
        Types::Struct(sn) => "    if ((err = decode_"@ + sn@
            + "(__input_buffer + __buffer_offset, buffer_len - __buffer_offset, &out->"@
            + field_name + ", &__buffer_offset))){return err;}\n"@,
        Types::Array(e) => "    NEXT_INT(out->"@ + field_name + "_len)\n"@ + "    if (out->"@
            + field_name + "_len == 0) {\n        out->"@ + field_name
            + " = NULL;\n    } else {\n"@ + "        out->"@ + field_name + " = malloc(out->"@
            + field_name + "_len * sizeof("@ + c_text(*e, false) + "));\n"@ + "        if (!out->"@
            + field_name + "){\n            return 1;\n        }\n"@
            + "        for (size_t i = 0; i < out->"@ + field_name + "_len; i++) {\n"@
            + decode_line_text(field_name + "[i]"@, *e) + "        }\n    }\n"@,
        Types::Optional(e) => decode_line_text(field_name, *e),
    }
}

/// The decode lines of all fields.
pub open spec fn fields_decode_text(fields: Seq<Field>) -> Seq<char>
    decreases fields.len(),
{
    if fields.len() == 0 {
        Seq::empty()
    } else {
        fields_decode_text(fields.drop_last()) + decode_line_text(
            fields.last().name@,
            fields.last().ty,
        )
    }
}

/// A struct's whole decode function.
pub open spec fn decode_fn_text(name: Seq<char>, s: Struct, free_buffer: bool) -> Seq<char> {
    decode_sig_text(name, s) + " {\n"@ + (if s.spec_type() == StructType::Struct {
        "    size_t __buffer_offset = 0;\n"@
    } else {
        "    INIT_BUFFER_UNPACK(buffer_len)\n"@
    }) + "    int err;\n    (void)err;\n"@ + fields_decode_text(s.spec_fields()) + (
    if free_buffer {
        "    FREE_BUFFER()\n"@
    } else {
        Seq::<char>::empty()
    }) + (if s.spec_type() == StructType::Struct {
        "    *buffer_offset += __buffer_offset;\n"@
    } else {
        Seq::<char>::empty()
    }) + "    return 0;\n}\n"@
}

/// The signature of a struct's size function.
pub open spec fn size_sig_text(name: Seq<char>) -> Seq<char> {
    "size_t "@ + name + "_size(const void *s)"@
}

/// The size expression for one field.
pub open spec fn type_size_text(name: Seq<char>, t: Types, field_name: Seq<char>) -> Seq<char>
    decreases t,
{
    match t {
        Types::Int => "TYPST_INT_SIZE"@,
        Types::Float => "TYPST_INT_SIZE"@,
        Types::Point => "TYPST_INT_SIZE"@,
        Types::Bool => "1"@,
        Types::Char => "1"@,
        Types::String => "string_size((("@ + name + "*)s)->"@ + field_name + ")"@,
        Types::Struct(_) => c_text(t, false) + "_size((void*)&(("@ + name + "*)s)->"@ + field_name
            + ")"@,
        Types::Array(e) => if (*e matches Types::String) {
            "TYPST_INT_SIZE + string_list_size((("@ + name + "*)s)->"@ + field_name + ", (("@
                + name + "*)s)->"@ + field_name + "_len)"@
        } else {
            "TYPST_INT_SIZE + list_size((("@ + name + "*)s)->"@ + field_name + ", (("@ + name
                + "*)s)->"@ + field_name + "_len, "@ + elem_size_fn_text(*e) + ", sizeof(*(("@
                + name + "*)s)->"@ + field_name + "))"@
        },
        Types::Optional(e) => type_size_text(name, *e, field_name),
    }
}

/// The element size helper an array's size expression names.
pub open spec fn elem_size_fn_text(e: Types) -> Seq<char> {
    match e {
        Types::Int => "int_size"@,
        Types::Float => "int_size"@,
        Types::Point => "int_size"@,
        Types::Bool => "char_size"@,
        Types::Char => "char_size"@,
        Types::Struct(sn) => sn@ + "_size"@,
        _ => Seq::empty(),
    }
}

/// The summed size expressions of all fields.
pub open spec fn fields_size_text(name: Seq<char>, fields: Seq<Field>) -> Seq<char>
    decreases fields.len(),
{
    if fields.len() == 0 {
        Seq::empty()
    } else if fields.len() == 1 {
        type_size_text(name, fields[0].ty, fields[0].name@)
    } else {
        fields_size_text(name, fields.drop_last()) + " + "@ + type_size_text(
            name,
            fields.last().ty,
            fields.last().name@,
        )
    }
}

/// A struct's whole size function.
pub open spec fn size_fn_text(name: Seq<char>, s: Struct) -> Seq<char> {
    size_sig_text(name) + "{\n\treturn "@ + fields_size_text(name, s.spec_fields()) + ";\n}\n"@
}

/// The signature of a struct's encode function.
pub open spec fn encode_sig_text(name: Seq<char>, s: Struct) -> Seq<char> {
    if s.spec_type() == StructType::Struct {
        "int encode_"@ + name + "(const "@ + name
            + " *s, uint8_t *__input_buffer, size_t *buffer_len, size_t *buffer_offset)"@
    } else {
        "int encode_"@ + name + "(const "@ + name + " *s)"@
    }
}

/// The encode lines for one field.
pub open spec fn encode_line_text(field_name: Seq<char>, t: Types, is_struct: bool) -> Seq<char>
    decreases t,
{
    match t {
        Types::Int => "    INT_PACK(s->"@ + field_name + ")\n"@,
        Types::Float => "    FLOAT_PACK(s->"@ + field_name + ")\n"@,
        Types::Point => "    FLOAT_PACK(s->"@ + field_name + ")\n"@,
        Types::String => "    STR_PACK(s->"@ + field_name + ")\n"@,
        Types::Bool => "    CHAR_PACK(s->"@ + field_name + ")\n"@,
        Types::Char => "    CHAR_PACK(s->"@ + field_name + ")\n"@,
        Types::Struct(sn) => "        if ((err = encode_"@ + sn@ + "(&s->"@ + field_name
            + ", __input_buffer + __buffer_offset, "@ + (if is_struct {
            Seq::<char>::empty()
        } else {
            "&"@
        }) + "buffer_len, &__buffer_offset))) {\n            return err;\n        }\n"@,
        Types::Array(e) => "    INT_PACK(s->"@ + field_name + "_len)\n"@
            + "    for (size_t i = 0; i < s->"@ + field_name + "_len; i++) {\n"@
            + encode_line_text(field_name + "[i]"@, *e, is_struct) + "    }\n"@,
        Types::Optional(e) => encode_line_text(field_name, *e, is_struct),
    }
}

/// The encode lines of all fields.
pub open spec fn fields_encode_text(fields: Seq<Field>, is_struct: bool) -> Seq<char>
    decreases fields.len(),
{
    if fields.len() == 0 {
        Seq::empty()
    } else {
        fields_encode_text(fields.drop_last(), is_struct) + encode_line_text(
            fields.last().name@,
            fields.last().ty,
            is_struct,
        )
    }
}

/// A struct's whole encode function.
pub open spec fn encode_fn_text(name: Seq<char>, s: Struct) -> Seq<char> {
    encode_sig_text(name, s) + " {\n"@ + (if s.spec_type() == StructType::Struct {
        "    size_t __buffer_offset = 0;    size_t s_size = "@ + name
            + "_size(s);\n    if (s_size > *buffer_len) {\n        return 2;\n    }\n"@
    } else {
        "    size_t buffer_len = "@ + name + "_size(s);\n    INIT_BUFFER_PACK(buffer_len)\n"@
    }) + "    int err;\n\t(void)err;\n"@ + fields_encode_text(
        s.spec_fields(),
        s.spec_type() == StructType::Struct,
    ) + (if s.spec_type() == StructType::Struct {
        "\n    *buffer_offset += __buffer_offset;"@
    } else {
        "\n    wasm_minimal_protocol_send_result_to_host(__input_buffer, buffer_len);"@
    }) + "\n    return 0;\n}\n"@
}

/// Everything one struct contributes to the header file.
pub open spec fn struct_h_text(name: Seq<char>, s: Struct) -> Seq<char> {
    struct_text(name, s) + free_sig_text(name) + ";\n"@ + (if s.decoder && s.spec_type()
        != StructType::Struct {
        decode_sig_text(name, s) + ";\n"@
    } else {
        Seq::<char>::empty()
    }) + (if s.encoder && s.spec_type() != StructType::Struct {
        encode_sig_text(name, s) + ";\n"@
    } else {
        Seq::<char>::empty()
    }) + "\n"@
}

/// Everything one struct contributes to the source file.
pub open spec fn struct_c_text(name: Seq<char>, s: Struct) -> Seq<char> {
    struct_free_text(name, s) + (if s.decoder {
        decode_fn_text(name, s, s.spec_type() != StructType::Struct)
    } else {
        Seq::<char>::empty()
    }) + (if s.encoder {
        size_fn_text(name, s) + encode_fn_text(name, s)
    } else {
        Seq::<char>::empty()
    })
}

/// Is this shape emitted at all?  Protocols always are; a plain struct
/// reachable from no protocol is never emitted.
pub open spec fn emit_struct(s: Struct) -> bool {
    s.spec_type() != StructType::Struct || s.decoder || s.encoder
}

/// The header text of the structs finalized before position `k`.
pub open spec fn structs_h_text(p: Protocol, k: int) -> Seq<char>
    decreases k,
{
    if k <= 0 {
        Seq::empty()
    } else {
        let e = p.decls()[p.order()[k - 1] as int];
        structs_h_text(p, k - 1) + (if emit_struct(e.st) {
            struct_h_text(e.name@, e.st)
        } else {
            Seq::<char>::empty()
        })
    }
}

/// The source text of the structs finalized before position `k`.
pub open spec fn structs_c_text(p: Protocol, k: int) -> Seq<char>
    decreases k,
{
    if k <= 0 {
        Seq::empty()
    } else {
        let e = p.decls()[p.order()[k - 1] as int];
        structs_c_text(p, k - 1) + (if emit_struct(e.st) {
            struct_c_text(e.name@, e.st)
        } else {
            Seq::<char>::empty()
        })
    }
}

/// The header text of the first `k` protocol entry points.
pub open spec fn prots_h_text(p: Protocol, k: int) -> Seq<char>
    decreases k,
{
    if k <= 0 {
        Seq::empty()
    } else {
        prots_h_text(p, k - 1) + (if emit_struct(p.prots()[k - 1].st) {
            struct_h_text(p.prots()[k - 1].name@, p.prots()[k - 1].st)
        } else {
            Seq::<char>::empty()
        })
    }
}

/// The source text of the first `k` protocol entry points.
pub open spec fn prots_c_text(p: Protocol, k: int) -> Seq<char>
    decreases k,
{
    if k <= 0 {
        Seq::empty()
    } else {
        prots_c_text(p, k - 1) + (if emit_struct(p.prots()[k - 1].st) {
            struct_c_text(p.prots()[k - 1].name@, p.prots()[k - 1].st)
        } else {
            Seq::<char>::empty()
        })
    }
}

/// The whole generated header file.
pub open spec fn h_file_text(p: Protocol) -> Seq<char> {
    HEADER@ + structs_h_text(p, p.order().len() as int) + prots_h_text(
        p,
        p.prots().len() as int,
    ) + "#endif\n"@
}

/// The whole generated source file.
pub open spec fn c_file_text(p: Protocol) -> Seq<char> {
    CSOURCE@ + structs_c_text(p, p.order().len() as int) + prots_c_text(
        p,
        p.prots().len() as int,
    )
}

/// Write the header of the generated .h file.
fn generate_header(h_file: &mut String)
    ensures
        final(h_file)@ == old(h_file)@ + HEADER@,
{
    h_file.append(HEADER);
}

/// Write the footer of the generated .h file.
fn generate_footer(h_file: &mut String)
    ensures
        final(h_file)@ == old(h_file)@ + "#endif\n"@,
{
    h_file.append("#endif\n");
}

/// Write a struct definition in the generated .h file.
fn generate_struct(h_file: &mut String, name: &str, s: &Struct)
    ensures
        final(h_file)@ == old(h_file)@ + struct_text(name@, *s),
{
    h_file.append("typedef struct ");
    h_file.append(name);
    h_file.append("_t {\n");
    let mut k: usize = 0;
    while k < s.fields.len()
        invariant
            0 <= k <= s.fields@.len(),
            h_file@ == old(h_file)@ + "typedef struct "@ + name@ + "_t {\n"@
                + struct_members_text(s.fields@.take(k as int)),
        decreases s.fields@.len() - k,
    {
        proof {
            assert(s.fields@.take(k + 1).drop_last() =~= s.fields@.take(k as int));
            assert(s.fields@.take(k + 1).last() == s.fields@[k as int]);
        }
        h_file.append("    ");
        let t = s.fields[k].ty.to_c(true);
        h_file.append(t.as_str());
        h_file.append(" ");
        h_file.append(s.fields[k].name.as_str());
        h_file.append(";\n");
        if let Types::Array(_) = s.fields[k].ty {
            h_file.append("    size_t ");
            h_file.append(s.fields[k].name.as_str());
            h_file.append("_len;\n");
        }
        k += 1;
    }
    proof {
        assert(s.fields@.take(s.fields@.len() as int) =~= s.fields@);
    }
    h_file.append("} ");
    h_file.append(name);
    h_file.append(";\n");
}

/// Write a struct free function signature.
fn generate_struct_free_signature(file: &mut String, name: &str)
    ensures
        final(file)@ == old(file)@ + free_sig_text(name@),
{
    file.append("void free_");
    file.append(name);
    file.append("(");
    file.append(name);
    file.append(" *s)");
}

/// Check if a type needs to be freed.
fn need_free(t: &Types) -> (r: bool)
    ensures
        r == spec_need_free(*t),
    decreases *t,
{
    match t {
        Types::String => true,
        Types::Struct(_) => true,
        Types::Array(e) => need_free(e),
        _ => false,
    }
}

/// Write a struct free function body for one field in the generated .c
/// file.
fn generate_struct_field_free_body(c_file: &mut String, field_name: &str, t: &Types)
    ensures
        final(c_file)@ == old(c_file)@ + field_free_text(field_name@, *t),
    decreases *t,
{
    match t {
        Types::String => {
            c_file.append("    if (s->");
            c_file.append(field_name);
            c_file.append(") {\n        free(s->");
            c_file.append(field_name);
            c_file.append(");\n    }\n");
        },
        Types::Struct(_) => {
            c_file.append("    free_");
            let ct = t.to_c(false);
            c_file.append(ct.as_str());
            c_file.append("(&s->");
            c_file.append(field_name);
            c_file.append(");\n");
        },
        Types::Array(e) => {
            if need_free(e) {
                c_file.append("    for (size_t i = 0; i < s->");
                c_file.append(field_name);
                c_file.append("_len; i++) {\n");
                let mut inner = field_name.to_owned();
                inner.append("[i]");
                generate_struct_field_free_body(c_file, inner.as_str(), e);
                c_file.append("    }\n");
            }
            c_file.append("    free(s->");
            c_file.append(field_name);
            c_file.append(");\n");
        },
        _ => {},
    }
}

/// Write a struct free function in the generated .c file.
fn generate_struct_free(c_file: &mut String, name: &str, s: &Struct)
    ensures
        final(c_file)@ == old(c_file)@ + struct_free_text(name@, *s),
{
    generate_struct_free_signature(c_file, name);
    c_file.append(" {\n");
    let ghost base = c_file@;
    let mut k: usize = 0;
    while k < s.fields.len()
        invariant
            0 <= k <= s.fields@.len(),
            c_file@ == base + fields_free_text(s.fields@.take(k as int)),
        decreases s.fields@.len() - k,
    {
        proof {
            assert(s.fields@.take(k + 1).drop_last() =~= s.fields@.take(k as int));
            assert(s.fields@.take(k + 1).last() == s.fields@[k as int]);
        }
        generate_struct_field_free_body(c_file, s.fields[k].name.as_str(), &s.fields[k].ty);
        k += 1;
    }
    proof {
        assert(s.fields@.take(s.fields@.len() as int) =~= s.fields@);
    }
    c_file.append("}\n");
}

/// Write a struct decode function signature.
fn generate_struct_decode_signature(file: &mut String, name: &str, s: &Struct)
    ensures
        final(file)@ == old(file)@ + decode_sig_text(name@, *s),
{
    if let StructType::Struct = s.type_ {
        file.append("int decode_");
        file.append(name);
        file.append("(uint8_t *__input_buffer, size_t buffer_len, ");
        file.append(name);
        file.append(" *out, size_t *buffer_offset)");
    } else {
        file.append("int decode_");
        file.append(name);
        file.append("(size_t buffer_len, ");
        file.append(name);
        file.append(" *out)");
    }
}

/// Write a line to decode a field in a struct.
fn generate_struct_decode_line(file: &mut String, field_name: &str, t: &Types)
    ensures
        final(file)@ == old(file)@ + decode_line_text(field_name@, *t),
    decreases *t,
{
    match t {
        Types::Int => {
            file.append("    NEXT_INT(out->");
            file.append(field_name);
            file.append(")\n");
        },
        Types::Float | Types::Point => {
            file.append("    NEXT_FLOAT(out->");
            file.append(field_name);
            file.append(")\n");
        },
        Types::String => {
            file.append("    NEXT_STR(out->");
            file.append(field_name);
            file.append(")\n");
        },
        Types::Bool | Types::Char => {
            file.append("    NEXT_CHAR(out->");
            file.append(field_name);
            file.append(")\n");
        },
        Types::Struct(sn) => {
            file.append("    if ((err = decode_");
            file.append(sn.as_str());
            file.append("(__input_buffer + __buffer_offset, buffer_len - __buffer_offset, &out->");
            file.append(field_name);
            file.append(", &__buffer_offset))){return err;}\n");
        },
        Types::Array(e) => {
            file.append("    NEXT_INT(out->");
            file.append(field_name);
            file.append("_len)\n");
            file.append("    if (out->");
            file.append(field_name);
            file.append("_len == 0) {\n        out->");
            file.append(field_name);
            file.append(" = NULL;\n    } else {\n");
            file.append("        out->");
            file.append(field_name);
            file.append(" = malloc(out->");
            file.append(field_name);
            file.append("_len * sizeof(");
            let ct = e.to_c(false);
            file.append(ct.as_str());
            file.append("));\n");
            file.append("        if (!out->");
            file.append(field_name);
            file.append("){\n            return 1;\n        }\n");
            file.append("        for (size_t i = 0; i < out->");
            file.append(field_name);
            file.append("_len; i++) {\n");
            let mut inner = field_name.to_owned();
            inner.append("[i]");
            generate_struct_decode_line(file, inner.as_str(), e);
            file.append("        }\n    }\n");
        },
        Types::Optional(e) => {
            generate_struct_decode_line(file, field_name, e);
        },
    }
}

/// Write a struct decode function body in the generated .c file.
fn generate_struct_decode_function(file: &mut String, name: &str, s: &Struct, free_buffer: bool)
    ensures
        final(file)@ == old(file)@ + decode_fn_text(name@, *s, free_buffer),
{
    generate_struct_decode_signature(file, name, s);
    file.append(" {\n");
    if let StructType::Struct = s.type_ {
        file.append("    size_t __buffer_offset = 0;\n");
    } else {
        file.append("    INIT_BUFFER_UNPACK(buffer_len)\n");
    }
    file.append("    int err;\n    (void)err;\n");
    let ghost base = file@;
    let mut k: usize = 0;
    while k < s.fields.len()
        invariant
            0 <= k <= s.fields@.len(),
            file@ == base + fields_decode_text(s.fields@.take(k as int)),
        decreases s.fields@.len() - k,
    {
        proof {
            assert(s.fields@.take(k + 1).drop_last() =~= s.fields@.take(k as int));
            assert(s.fields@.take(k + 1).last() == s.fields@[k as int]);
        }
        generate_struct_decode_line(file, s.fields[k].name.as_str(), &s.fields[k].ty);
        k += 1;
    }
    proof {
        assert(s.fields@.take(s.fields@.len() as int) =~= s.fields@);
    }
    if free_buffer {
        file.append("    FREE_BUFFER()\n");
    }
    if let StructType::Struct = s.type_ {
        file.append("    *buffer_offset += __buffer_offset;\n");
    }
    file.append("    return 0;\n}\n");
}

/// Write a struct decode function in the generated .c file and, for a
/// protocol, its signature in the generated .h file.
fn generate_struct_decode(h_file: &mut String, c_file: &mut String, name: &str, s: &Struct)
    ensures
        final(c_file)@ == old(c_file)@ + decode_fn_text(
            name@,
            *s,
            s.spec_type() != StructType::Struct,
        ),
        final(h_file)@ == old(h_file)@ + (if s.spec_type() != StructType::Struct {
            decode_sig_text(name@, *s) + ";\n"@
        } else {
            Seq::<char>::empty()
        }),
{
    let protocol = if let StructType::Protocol(_) = s.type_ {
        generate_struct_decode_signature(h_file, name, s);
        h_file.append(";\n");
        true
    } else {
        false
    };
    generate_struct_decode_function(c_file, name, s, protocol);
}

/// Write a size function signature, used to calculate the size of a
/// struct.
fn generate_size_function_signature(c_file: &mut String, name: &str)
    ensures
        final(c_file)@ == old(c_file)@ + size_sig_text(name@),
{
    c_file.append("size_t ");
    c_file.append(name);
    c_file.append("_size(const void *s)");
}

/// Write the expression that computes the size of one field of a struct.
fn generate_type_size(file: &mut String, name: &str, t: &Types, field_name: &str)
    requires
        no_nested_array(*t),
    ensures
        final(file)@ == old(file)@ + type_size_text(name@, *t, field_name@),
    decreases *t,
{
    match t {
        Types::Int | Types::Float | Types::Point => {
            file.append("TYPST_INT_SIZE");
        },
        Types::Bool | Types::Char => {
            file.append("1");
        },
        Types::String => {
            file.append("string_size(((");
            file.append(name);
            file.append("*)s)->");
            file.append(field_name);
            file.append(")");
        },
        Types::Struct(_) => {
            let ct = t.to_c(false);
            file.append(ct.as_str());
            file.append("_size((void*)&((");
            file.append(name);
            file.append("*)s)->");
            file.append(field_name);
            file.append(")");
        },
        Types::Array(e) => {
            if let Types::String = &**e {
                file.append("TYPST_INT_SIZE + string_list_size(((");
                file.append(name);
                file.append("*)s)->");
                file.append(field_name);
                file.append(", ((");
                file.append(name);
                file.append("*)s)->");
                file.append(field_name);
                file.append("_len)");
            } else {
                file.append("TYPST_INT_SIZE + list_size(((");
                file.append(name);
                file.append("*)s)->");
                file.append(field_name);
                file.append(", ((");
                file.append(name);
                file.append("*)s)->");
                file.append(field_name);
                file.append("_len, ");
                match &**e {
                    Types::Int | Types::Float | Types::Point => {
                        file.append("int_size");
                    },
                    Types::Bool | Types::Char => {
                        file.append("char_size");
                    },
                    Types::Struct(sn) => {
                        file.append(sn.as_str());
                        file.append("_size");
                    },
                    _ => {},
                }
                file.append(", sizeof(*((");
                file.append(name);
                file.append("*)s)->");
                file.append(field_name);
                file.append("))");
            }
        },
        Types::Optional(e) => {
            generate_type_size(file, name, e, field_name);
        },
    }
}

/// Write a size function in the generated .c file.
fn generate_size_function(c_file: &mut String, name: &str, s: &Struct)
    requires
        fields_no_nested_array(s.spec_fields()),
    ensures
        final(c_file)@ == old(c_file)@ + size_fn_text(name@, *s),
{
    generate_size_function_signature(c_file, name);
    c_file.append("{\n\treturn ");
    let ghost base = c_file@;
    let mut k: usize = 0;
    while k < s.fields.len()
        invariant
            fields_no_nested_array(s.fields@),
            0 <= k <= s.fields@.len(),
            c_file@ == base + fields_size_text(name@, s.fields@.take(k as int)),
        decreases s.fields@.len() - k,
    {
        proof {
            assert(s.fields@.take(k + 1).drop_last() =~= s.fields@.take(k as int));
            assert(s.fields@.take(k + 1).last() == s.fields@[k as int]);
            assert(s.fields@.take(k + 1)[0] == s.fields@[0]);
        }
        if k > 0 {
            c_file.append(" + ");
        }
        generate_type_size(c_file, name, &s.fields[k].ty, s.fields[k].name.as_str());
        k += 1;
    }
    proof {
        assert(s.fields@.take(s.fields@.len() as int) =~= s.fields@);
    }
    c_file.append(";\n}\n");
}

/// Write a struct encode function signature.
fn generate_struct_encode_signature(file: &mut String, name: &str, s: &Struct)
    ensures
        final(file)@ == old(file)@ + encode_sig_text(name@, *s),
{
    if let StructType::Struct = s.type_ {
        file.append("int encode_");
        file.append(name);
        file.append("(const ");
        file.append(name);
        file.append(" *s, uint8_t *__input_buffer, size_t *buffer_len, size_t *buffer_offset)");
    } else {
        file.append("int encode_");
        file.append(name);
        file.append("(const ");
        file.append(name);
        file.append(" *s)");
    }
}

/// Write a line to encode a field in a struct.
fn generate_struct_encode_function_encode_line(
    file: &mut String,
    field_name: &str,
    t: &Types,
    is_struct: bool,
)
    requires
        no_nested_array(*t),
    ensures
        final(file)@ == old(file)@ + encode_line_text(field_name@, *t, is_struct),
    decreases *t,
{
    match t {
        Types::Int => {
            file.append("    INT_PACK(s->");
            file.append(field_name);
            file.append(")\n");
        },
        Types::Float | Types::Point => {
            file.append("    FLOAT_PACK(s->");
            file.append(field_name);
            file.append(")\n");
        },
        Types::String => {
            file.append("    STR_PACK(s->");
            file.append(field_name);
            file.append(")\n");
        },
        Types::Bool | Types::Char => {
            file.append("    CHAR_PACK(s->");
            file.append(field_name);
            file.append(")\n");
        },
        Types::Struct(sn) => {
            file.append("        if ((err = encode_");
            file.append(sn.as_str());
            file.append("(&s->");
            file.append(field_name);
            file.append(", __input_buffer + __buffer_offset, ");
            if !is_struct {
                file.append("&");
            }
            file.append("buffer_len, &__buffer_offset))) {\n            return err;\n        }\n");
            proof {
                assert(file@ =~= old(file)@ + encode_line_text(field_name@, *t, is_struct));
            }
        },
        Types::Array(e) => {
            file.append("    INT_PACK(s->");
            file.append(field_name);
            file.append("_len)\n");
            file.append("    for (size_t i = 0; i < s->");
            file.append(field_name);
            file.append("_len; i++) {\n");
            let mut inner = field_name.to_owned();
            inner.append("[i]");
            generate_struct_encode_function_encode_line(file, inner.as_str(), e, is_struct);
            file.append("    }\n");
        },
        Types::Optional(e) => {
            generate_struct_encode_function_encode_line(file, field_name, e, is_struct);
        },
    }
}

/// Write a struct encode function in the generated .c file.
fn generate_struct_encode_function(file: &mut String, name: &str, s: &Struct)
    requires
        fields_no_nested_array(s.spec_fields()),
    ensures
        final(file)@ == old(file)@ + encode_fn_text(name@, *s),
{
    generate_struct_encode_signature(file, name, s);
    file.append(" {\n");
    let is_struct = if let StructType::Struct = s.type_ {
        true
    } else {
        false
    };
    if is_struct {
        file.append("    size_t __buffer_offset = 0;    size_t s_size = ");
        file.append(name);
        file.append("_size(s);\n    if (s_size > *buffer_len) {\n        return 2;\n    }\n");
    } else {
        file.append("    size_t buffer_len = ");
        file.append(name);
        file.append("_size(s);\n    INIT_BUFFER_PACK(buffer_len)\n");
    }
    file.append("    int err;\n\t(void)err;\n");
    let ghost base = file@;
    let mut k: usize = 0;
    while k < s.fields.len()
        invariant
            fields_no_nested_array(s.fields@),
            is_struct == (s.spec_type() == StructType::Struct),
            0 <= k <= s.fields@.len(),
            file@ == base + fields_encode_text(s.fields@.take(k as int), is_struct),
        decreases s.fields@.len() - k,
    {
        proof {
            assert(s.fields@.take(k + 1).drop_last() =~= s.fields@.take(k as int));
            assert(s.fields@.take(k + 1).last() == s.fields@[k as int]);
        }
        generate_struct_encode_function_encode_line(
            file,
            s.fields[k].name.as_str(),
            &s.fields[k].ty,
            is_struct,
        );
        k += 1;
    }
    proof {
        assert(s.fields@.take(s.fields@.len() as int) =~= s.fields@);
    }
    if is_struct {
        file.append("\n    *buffer_offset += __buffer_offset;");
    } else {
        file.append("\n    wasm_minimal_protocol_send_result_to_host(__input_buffer, buffer_len);");
    }
    file.append("\n    return 0;\n}\n");
}

/// Write a struct encode function in the generated .c file, its size
/// function, and for a protocol the encode signature in the .h file.
fn generate_struct_encode(h_file: &mut String, c_file: &mut String, name: &str, s: &Struct)
    requires
        fields_no_nested_array(s.spec_fields()),
    ensures
        final(c_file)@ == old(c_file)@ + size_fn_text(name@, *s) + encode_fn_text(name@, *s),
        final(h_file)@ == old(h_file)@ + (if s.spec_type() != StructType::Struct {
            encode_sig_text(name@, *s) + ";\n"@
        } else {
            Seq::<char>::empty()
        }),
{
    if let StructType::Protocol(_) = s.type_ {
        generate_struct_encode_signature(h_file, name, s);
        h_file.append(";\n");
    }
    generate_size_function(c_file, name, s);
    generate_struct_encode_function(c_file, name, s);
}

/// Generate all the code one shape contributes to the .h and .c files.
#[verifier::rlimit(100)]
fn generate(h_file: &mut String, c_file: &mut String, name: &str, s: &Struct)
    requires
        fields_no_nested_array(s.spec_fields()),
    ensures
        final(h_file)@ == old(h_file)@ + (if emit_struct(*s) {
            struct_h_text(name@, *s)
        } else {
            Seq::<char>::empty()
        }),
        final(c_file)@ == old(c_file)@ + (if emit_struct(*s) {
            struct_c_text(name@, *s)
        } else {
            Seq::<char>::empty()
        }),
{
    let is_plain = if let StructType::Struct = s.type_ {
        true
    } else {
        false
    };
    if is_plain && !s.decoder && !s.encoder {
        return ;
    }
    generate_struct(h_file, name, s);
    generate_struct_free_signature(h_file, name);
    h_file.append(";\n");
    generate_struct_free(c_file, name, s);
    if s.decoder {
        generate_struct_decode(h_file, c_file, name, s);
    }
    if s.encoder {
        generate_struct_encode(h_file, c_file, name, s);
    }
    h_file.append("\n");
}

/// Generate the whole native backend output: the text of the protocol
/// header and the protocol source, emitting structs in finalize order so
/// that every struct is defined before any struct that embeds it, then the
/// protocol entry points.
pub fn generate_protocol(p: &Protocol) -> (r: (String, String))
    requires
        p.complete(),
        crate::protocol::gen_ready(*p),
    ensures
        r.0@ == h_file_text(*p),
        r.1@ == c_file_text(*p),
{
    let mut h_file = String::new();
    let mut c_file = String::new();
    generate_header(&mut h_file);
    c_file.append(CSOURCE);
    let n = p.num_ordered();
    let mut k: usize = 0;
    while k < n
        invariant
            p.complete(),
            crate::protocol::gen_ready(*p),
            n == p.order().len(),
            0 <= k <= n,
            h_file@ == HEADER@ + structs_h_text(*p, k as int),
            c_file@ == CSOURCE@ + structs_c_text(*p, k as int),
        decreases n - k,
    {
        let (name, s) = p.ordered_structs(k);
        generate(&mut h_file, &mut c_file, name.as_str(), s);
        k += 1;
    }
    let prots = p.protocols();
    let np = prots.len();
    let mut k2: usize = 0;
    while k2 < np
        invariant
            p.complete(),
            crate::protocol::gen_ready(*p),
            np == p.prots().len(),
            0 <= k2 <= np,
            h_file@ == HEADER@ + structs_h_text(*p, p.order().len() as int) + prots_h_text(
                *p,
                k2 as int,
            ),
            c_file@ == CSOURCE@ + structs_c_text(*p, p.order().len() as int) + prots_c_text(
                *p,
                k2 as int,
            ),
        decreases np - k2,
    {
        let pe = &p.protocols()[k2];
        generate(&mut h_file, &mut c_file, pe.name.as_str(), &pe.st);
        k2 += 1;
    }
    generate_footer(&mut h_file);
    (h_file, c_file)
}

} // verus!
