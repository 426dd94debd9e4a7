//! The script backend: emits one Typst source implementing the shared wire
//! format from arithmetic primitives alone — including a from-scratch
//! IEEE-754 single-precision codec — plus one dictionary codec per struct.

use vstd::prelude::*;

use crate::protocol::Protocol;
use crate::struct_::{Field, Struct};
use crate::types::{typst_text, Types};

verus! {

pub const FILE_HEADER: &'static str = "/// Encodes a 32-bytes integer into big-endian bytes.\n#let encode-int(value) = {\n  bytes((\n    calc.rem(calc.quo(value, 0x1000000), 0x100),\n    calc.rem(calc.quo(value, 0x10000), 0x100),\n    calc.rem(calc.quo(value, 0x100), 0x100),\n    calc.rem(calc.quo(value, 0x1), 0x100),\n  ))\n}\n\n/// Decodes a big-endian integer from the given bytes.\n#let decode-int(bytes) = {\n  let result = 0\n  for byte in array(bytes.slice(0,4)) {\n    result = result * 256 + byte\n  }\n  if (result > 2147483647) { // the number is negative\n    result = 2147483647 - result + 2147483647\n  }\n  (result, 4)\n}\n\n/// Encodes a string into bytes.\n#let encode-string(value) = {\n\tbytes(value) + bytes((0x00,))\n}\n\n/// Decodes a string from the given bytes.\n#let decode-string(bytes) = {\n\tlet length = 0\n\tfor byte in array(bytes) {\n\t\tlength = length + 1\n\t\tif byte == 0x00 {\n\t\t\tbreak\n\t\t}\n\t}\n\tif length == 0 {\n\t\t(\"\", 1)\n\t} else { \n\t\t(str(bytes.slice(0, length - 1)), length)\n\t}\n\t//(array(bytes.slice(0, length - 1)), length)\n}\n\n/// Encodes a boolean into bytes\n#let encode-bool(value) = {\n  if value {\n\tbytes((0x01,))\n  } else {\n\tbytes((0x00,))\n  }\n}\n\n/// Decodes a boolean from the given bytes\n#let decode-bool(bytes) = {\n  if bytes.at(0) == 0x00 {\n\t(false, 1)\n  } else {\n\t(true, 1)\n  }\n}\n\n/// Encodes a character into bytes\n#let encode-char(value) = {\n  bytes(value)\n}\n\n/// Decodes a character from the given bytes\n#let decode-char(bytes) = {\n  (bytes.at(0), 1)\n}\n\n#let fractional-to-binary(fractional_part, max_dec, zero) = {\n\tlet result = 0\n\tlet i = 22 - max_dec\n\tlet first_one = 0\n\tif zero {\n\t\twhile fractional_part < 1 {\n\t\t\tfractional_part *= 2\n\t\t\tfirst_one += 1\n\t\t}\n\t\tfractional_part -= 1\n\t\ti = 23\n\t}\n\twhile i > 0 and fractional_part > 0 {\n\t\tfractional_part *= 2\n\t\tif fractional_part >= 1 {\n\t\t\tresult += calc.pow(2, i - 1)\n\t\t\tfractional_part -= 1\n\t\t}\n\t\ti -= 1\n\t}\n\t(result, first_one)\n}\n\n#let float-to-int(value) = {\n\tif value == 0 {\n\t\treturn 0\n\t}\n\tlet sign = if value < 0.0 { 1 } else { 0 }\n\tlet value = calc.abs(value)\n\tlet mantissa = calc.trunc(value)\n\tlet fractional_part = calc.fract(value)\n\tlet exponent = if mantissa == 0 {\n\t\t0\n\t} else {\n\t\tcalc.floor(calc.log(base: 2, mantissa)) - 1\n\t}\n\tlet (fractional_part, first_one) = fractional-to-binary(fractional_part, exponent, mantissa == 0)\n\tmantissa *= calc.pow(2, 22 - exponent)\n\tmantissa += fractional_part\n\tif exponent == 0 {\n\t\texponent = -first_one\n\t}\n\texponent += 127\n\treturn  sign * calc.pow(2, 31) + exponent * calc.pow(2, 23) + mantissa\n}\n\n#let mantissa-to-float(mantissa) = {\n\tlet result = 1.0\n\tfor i in range(0,23) {\n\t\tif calc.rem(mantissa, 2) == 1 {\n\t\t\tresult += 1.0/calc.pow(2, 23 - i)\n\t\t}\n\t\tmantissa = calc.quo(mantissa, 2)\n\t}\n\tresult\n}\n\n#let int-to-float(value) = {\n\tif value == 0 {\n\t\treturn 0.0\n\t}\n\tlet sign = if value >= calc.pow(2, 31) {\n\t\tvalue -= calc.pow(2, 31)\n\t\t -1 \n\t} else { \n\t\t1\n\t}\n\tlet exponent = calc.rem(calc.quo(value, calc.pow(2, 23)), calc.pow(2, 8))\n\tlet mantissa = calc.rem(value, calc.pow(2, 23))\n\tsign * calc.pow(2, exponent - 127) * mantissa-to-float(mantissa)\n}\n\n/// Encodes a float into bytes\n#let encode-float(value) = {\n\tencode-int(float-to-int(value))\n}\n\n#let encode-point(value) = {\n\tencode-float(value.pt())\n}\n\n/// Decodes a float from the given bytes\n#let decode-float(bytes) = {\n\tlet (decoded, size) = decode-int(bytes)\n\t(int-to-float(decoded), size)\n}\n\n#let decode-point(bytes) = {\n\tlet (value, size) = decode-float(bytes)\n\t(value * 1pt, size)\n}\n\n/// Encodes a list of elements into bytes\n#let encode-list(arr, encoder) = {\n\tlet length = encode-int(arr.len())\n\tlet encoded = bytes(arr.map(encoder).map(array).flatten())\n\tlength + encoded\n}\n\n/// Decodes a list of elements from the given bytes\n#let decode-list(bytes, decoder) = {\n\tlet (length, length_size) = decode-int(bytes)\n\tlet result = ()\n\tlet offset = length_size\n\tfor i in range(0, length) {\n\t\tlet (element, size) = decoder(bytes.slice(offset, bytes.len()))\n\t\tresult.push(element)\n\t\toffset += size\n\t}\n\t(result, offset)\n}\n";

/// The encode expression for one field of a dictionary.
pub open spec fn ser_field_text(f: Field) -> Seq<char> {
    match f.ty {
        Types::Array(e) => "encode-list(value.at(\""@ + f.name@ + "\"), encode-"@ + typst_text(*e)
            + ")"@,
        Types::Struct(sn) => "encode-"@ + sn@ + "(value.at(\""@ + f.name@ + "\"))"@,
        _ => "encode-"@ + typst_text(f.ty) + "(value.at(\""@ + f.name@ + "\"))"@,
    }
}

/// The `+`-joined encode expressions of all fields.
pub open spec fn ser_fields_text(fields: Seq<Field>) -> Seq<char>
    decreases fields.len(),
{
    if fields.len() == 0 {
        Seq::empty()
    } else if fields.len() == 1 {
        ser_field_text(fields[0])
    } else {
        ser_fields_text(fields.drop_last()) + " + "@ + ser_field_text(fields.last())
    }
}

/// One struct's dictionary encode function.
pub open spec fn ser_text(name: Seq<char>, s: Struct) -> Seq<char> {
    "#let encode-"@ + name + "(value) = {\n  "@ + ser_fields_text(s.spec_fields()) + "\n}\n"@
}

/// The decode expression for one field of a dictionary.
pub open spec fn deser_field_text(f: Field) -> Seq<char> {
    match f.ty {
        Types::Array(e) => "decode-list(bytes.slice(offset, bytes.len()), decode-"@ + typst_text(
            *e,
        ) + ")"@,
        Types::Struct(sn) => "decode-"@ + sn@ + "(bytes.slice(offset, bytes.len()))"@,
        _ => "decode-"@ + typst_text(f.ty) + "(bytes.slice(offset, bytes.len()))"@,
    }
}

/// The decode statements of all fields, one `let` per field.
pub open spec fn deser_fields_text(fields: Seq<Field>) -> Seq<char>
    decreases fields.len(),
{
    if fields.len() == 0 {
        Seq::empty()
    } else {
        deser_fields_text(fields.drop_last()) + "  let (f_"@ + fields.last().name@ + ", size) = "@
            + deser_field_text(fields.last()) + "\n  offset += size\n"@
    }
}

/// The record the decode function returns: one entry per field.
pub open spec fn deser_record_text(fields: Seq<Field>) -> Seq<char>
    decreases fields.len(),
{
    if fields.len() == 0 {
        Seq::empty()
    } else {
        deser_record_text(fields.drop_last()) + "    "@ + fields.last().name@ + ": f_"@
            + fields.last().name@ + ",\n"@
    }
}

/// One struct's dictionary decode function.
pub open spec fn deser_text(name: Seq<char>, s: Struct) -> Seq<char> {
    "#let decode-"@ + name + "(bytes) = {\n  let offset = 0\n"@ + deser_fields_text(
        s.spec_fields(),
    ) + "  ((\n"@ + deser_record_text(s.spec_fields()) + "  ), offset)\n}\n"@
}

/// What one shape contributes to the Typst file, by the direction table:
/// where the native side decodes, the script side encodes, and the other
/// way round; a struct no protocol reaches contributes nothing.
pub open spec fn struct_typst_text(name: Seq<char>, s: Struct) -> Seq<char> {
    (if s.decoder {
        ser_text(name, s)
    } else {
        Seq::<char>::empty()
    }) + (if s.encoder {
        deser_text(name, s)
    } else {
        Seq::<char>::empty()
    })
}

/// The Typst text of the structs finalized before position `k`.
pub open spec fn structs_typst_text(p: Protocol, k: int) -> Seq<char>
    decreases k,
{
    if k <= 0 {
        Seq::empty()
    } else {
        let e = p.decls()[p.order()[k - 1] as int];
        structs_typst_text(p, k - 1) + struct_typst_text(e.name@, e.st)
    }
}

/// The Typst text of the first `k` protocol entry points.
pub open spec fn prots_typst_text(p: Protocol, k: int) -> Seq<char>
    decreases k,
{
    if k <= 0 {
        Seq::empty()
    } else {
        prots_typst_text(p, k - 1) + struct_typst_text(p.prots()[k - 1].name@, p.prots()[k - 1].st)
    }
}

/// The whole generated Typst file.
pub open spec fn typst_file_text(p: Protocol) -> Seq<char> {
    FILE_HEADER@ + structs_typst_text(p, p.order().len() as int) + prots_typst_text(
        p,
        p.prots().len() as int,
    )
}

/// Write the codec primitives the generated codecs build on.
fn generate_header(file: &mut String)
    ensures
        final(file)@ == old(file)@ + FILE_HEADER@,
{
    file.append(FILE_HEADER);
}

/// Write one struct's dictionary encode function.
fn generate_dictionary_serialisation(file: &mut String, name: &str, s: &Struct)
    ensures
        final(file)@ == old(file)@ + ser_text(name@, *s),
{
    file.append("#let encode-");
    file.append(name);
    file.append("(value) = {\n  ");
    let ghost base = file@;
    let mut k: usize = 0;
    while k < s.fields.len()
        invariant
            0 <= k <= s.fields@.len(),
            file@ == base + ser_fields_text(s.fields@.take(k as int)),
        decreases s.fields@.len() - k,
    {
        proof {
            assert(s.fields@.take(k + 1).drop_last() =~= s.fields@.take(k as int));
            assert(s.fields@.take(k + 1).last() == s.fields@[k as int]);
            assert(s.fields@.take(k + 1)[0] == s.fields@[0]);
        }
        if k > 0 {
            file.append(" + ");
        }
        match &s.fields[k].ty {
            Types::Array(e) => {
                file.append("encode-list(value.at(\"");
                file.append(s.fields[k].name.as_str());
                file.append("\"), encode-");
                let tt = e.to_typst();
                file.append(tt.as_str());
                file.append(")");
            },
            Types::Struct(sn) => {
                file.append("encode-");
                file.append(sn.as_str());
                file.append("(value.at(\"");
                file.append(s.fields[k].name.as_str());
                file.append("\"))");
            },
            _ => {
                file.append("encode-");
                let tt = s.fields[k].ty.to_typst();
                file.append(tt.as_str());
                file.append("(value.at(\"");
                file.append(s.fields[k].name.as_str());
                file.append("\"))");
            },
        }
        k += 1;
    }
    proof {
        assert(s.fields@.take(s.fields@.len() as int) =~= s.fields@);
    }
    file.append("\n}\n");
}

/// Write one struct's dictionary decode function.
fn generate_dictionary_deserialisaion(file: &mut String, name: &str, s: &Struct)
    ensures
        final(file)@ == old(file)@ + deser_text(name@, *s),
{
    file.append("#let decode-");
    file.append(name);
    file.append("(bytes) = {\n  let offset = 0\n");
    let ghost base = file@;
    let mut k: usize = 0;
    while k < s.fields.len()
        invariant
            0 <= k <= s.fields@.len(),
            file@ == base + deser_fields_text(s.fields@.take(k as int)),
        decreases s.fields@.len() - k,
    {
        proof {
            assert(s.fields@.take(k + 1).drop_last() =~= s.fields@.take(k as int));
            assert(s.fields@.take(k + 1).last() == s.fields@[k as int]);
        }
        file.append("  let (f_");
        file.append(s.fields[k].name.as_str());
        file.append(", size) = ");
        match &s.fields[k].ty {
            Types::Array(e) => {
                file.append("decode-list(bytes.slice(offset, bytes.len()), decode-");
                let tt = e.to_typst();
                file.append(tt.as_str());
                file.append(")");
            },
            Types::Struct(sn) => {
                file.append("decode-");
                file.append(sn.as_str());
                file.append("(bytes.slice(offset, bytes.len()))");
            },
            _ => {
                file.append("decode-");
                let tt = s.fields[k].ty.to_typst();
                file.append(tt.as_str());
                file.append("(bytes.slice(offset, bytes.len()))");
            },
        }
        file.append("\n  offset += size\n");
        k += 1;
    }
    proof {
        assert(s.fields@.take(s.fields@.len() as int) =~= s.fields@);
    }
    file.append("  ((\n");
    let ghost base2 = file@;
    let mut k2: usize = 0;
    while k2 < s.fields.len()
        invariant
            0 <= k2 <= s.fields@.len(),
            file@ == base2 + deser_record_text(s.fields@.take(k2 as int)),
        decreases s.fields@.len() - k2,
    {
        proof {
            assert(s.fields@.take(k2 + 1).drop_last() =~= s.fields@.take(k2 as int));
            assert(s.fields@.take(k2 + 1).last() == s.fields@[k2 as int]);
        }
        file.append("    ");
        file.append(s.fields[k2].name.as_str());
        file.append(": f_");
        file.append(s.fields[k2].name.as_str());
        file.append(",\n");
        k2 += 1;
    }
    proof {
        assert(s.fields@.take(s.fields@.len() as int) =~= s.fields@);
    }
    file.append("  ), offset)\n}\n");
}

/// Write what one shape contributes to the Typst file.
fn generate(file: &mut String, name: &str, s: &Struct)
    ensures
        final(file)@ == old(file)@ + struct_typst_text(name@, *s),
{
    if s.decoder {
        generate_dictionary_serialisation(file, name, s);
    }
    if s.encoder {
        generate_dictionary_deserialisaion(file, name, s);
    }
    proof {
        assert(file@ =~= old(file)@ + struct_typst_text(name@, *s));
    }
}

/// Generate the whole script backend output: the text of the Typst source,
/// emitting structs in finalize order, then the protocol entry points.
pub fn generate_protocol(p: &Protocol) -> (r: String)
    requires
        p.complete(),
    ensures
        r@ == typst_file_text(*p),
{
    let mut file = String::new();
    generate_header(&mut file);
    let n = p.num_ordered();
    let mut k: usize = 0;
    while k < n
        invariant
            p.complete(),
            n == p.order().len(),
            0 <= k <= n,
            file@ == FILE_HEADER@ + structs_typst_text(*p, k as int),
        decreases n - k,
    {
        let (name, s) = p.ordered_structs(k);
        generate(&mut file, name.as_str(), s);
        k += 1;
    }
    let np = p.protocols().len();
    let mut k2: usize = 0;
    while k2 < np
        invariant
            p.complete(),
            np == p.prots().len(),
            0 <= k2 <= np,
            file@ == FILE_HEADER@ + structs_typst_text(*p, p.order().len() as int)
                + prots_typst_text(*p, k2 as int),
        decreases np - k2,
    {
        let pe = &p.protocols()[k2];
        generate(&mut file, pe.name.as_str(), &pe.st);
        k2 += 1;
    }
    file
}

} // verus!
