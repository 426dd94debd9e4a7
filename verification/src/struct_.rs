//! One declared shape: a struct, or a protocol entry point.

use vstd::prelude::*;

use crate::types::Types;
use crate::Span;

verus! {

/// Each protocol carries a transfer direction.
/// `C`: the protocol is encoded in Typst and decoded in C.
/// `Typst`: the protocol is encoded in C and decoded in Typst.
/// `Bidirectional`: the protocol is encoded and decoded on both sides.
#[derive(Clone, Copy, PartialEq, Eq, Structural, Debug)]
pub enum ProtocolType {
    C,
    Typst,
    Bidirectional,
}

/// Structs and protocols are represented the same way; this enum tells them
/// apart.
#[derive(Clone, Copy, PartialEq, Eq, Structural, Debug)]
pub enum StructType {
    Struct,
    Protocol(ProtocolType),
}

/// One field of a declared shape: its name, its type, and the source span of
/// its declaration.  Field order is significant and equals wire order.
pub struct Field {
    pub name: String,
    pub ty: Types,
    pub pos: Span,
}

/// A struct or protocol declared in the protocol file.
pub struct Struct {
    pub type_: StructType,
    pub pos: Span,
    pub encoder: bool,
    pub decoder: bool,
    pub fields: Vec<Field>,
}

/// Every field's type is free of nested arrays.
pub open spec fn fields_no_nested_array(fields: Seq<Field>) -> bool {
    forall|i: int|
        0 <= i < fields.len() ==> crate::types::no_nested_array(#[trigger] fields[i].ty)
}

/// True when no two fields share a name.
pub open spec fn fields_unique(fields: Seq<Field>) -> bool {
    forall|i: int, j: int|
        0 <= i < j < fields.len() ==> fields[i].name@ != fields[j].name@
}

/// The `encoder` flag a freshly declared shape starts with: protocols whose
/// direction makes the native side encode start as encoders.
pub open spec fn initial_encoder(t: StructType) -> bool {
    t == StructType::Protocol(ProtocolType::Typst)
        || t == StructType::Protocol(ProtocolType::Bidirectional)
}

/// The `decoder` flag a freshly declared shape starts with: protocols whose
/// direction makes the native side decode start as decoders.
pub open spec fn initial_decoder(t: StructType) -> bool {
    t == StructType::Protocol(ProtocolType::C)
        || t == StructType::Protocol(ProtocolType::Bidirectional)
}

impl Struct {
    pub open spec fn spec_type(self) -> StructType {
        self.type_
    }

    pub open spec fn spec_pos(self) -> Span {
        self.pos
    }

    pub open spec fn spec_fields(self) -> Seq<Field> {
        self.fields@
    }

    /// A new, empty shape.  Its responsibility flags come from its kind: a
    /// protocol is itself produced or consumed as its direction says, while a
    /// plain struct starts with no responsibilities.
    pub fn new(struct_type: StructType, pos: Span) -> (r: Struct)
        ensures
            r.spec_type() == struct_type,
            r.spec_pos() == pos,
            r.encoder == initial_encoder(struct_type),
            r.decoder == initial_decoder(struct_type),
            r.spec_fields() =~= Seq::<Field>::empty(),
    {
        let encoder = match struct_type {
            StructType::Protocol(ProtocolType::Typst) => true,
            StructType::Protocol(ProtocolType::Bidirectional) => true,
            _ => false,
        };
        let decoder = match struct_type {
            StructType::Protocol(ProtocolType::C) => true,
            StructType::Protocol(ProtocolType::Bidirectional) => true,
            _ => false,
        };
        Struct { type_: struct_type, pos, encoder, decoder, fields: Vec::new() }
    }

    pub fn add_field(&mut self, name: &str, field_type: Types, pos: Span)
        ensures
            final(self).spec_fields().len() == old(self).spec_fields().len() + 1,
            final(self).spec_fields().last().name@ == name@,
            final(self).spec_fields().last().ty == field_type,
            final(self).spec_fields().last().pos == pos,
            final(self).spec_fields().take(old(self).spec_fields().len() as int)
                =~= old(self).spec_fields(),
            final(self).spec_type() == old(self).spec_type(),
            final(self).spec_pos() == old(self).spec_pos(),
            final(self).encoder == old(self).encoder,
            final(self).decoder == old(self).decoder,
    {
        self.fields.push(Field { name: name.to_owned(), ty: field_type, pos });
    }

    pub fn has_field(&self, name: &str) -> (r: bool)
        ensures
            r <==> exists|i: int|
                0 <= i < self.spec_fields().len() && self.spec_fields()[i].name@ == name@,
    {
        let mut k: usize = 0;
        while k < self.fields.len()
            invariant
                0 <= k <= self.fields.len(),
                forall|i: int| 0 <= i < k ==> self.spec_fields()[i].name@ != name@,
            decreases self.fields.len() - k,
        {
            if crate::types::str_eq(self.fields[k].name.as_str(), name) {
                return true;
            }
            k += 1;
        }
        false
    }

    pub fn get_type(&self) -> (r: &StructType)
        ensures
            *r == self.spec_type(),
    {
        &self.type_
    }

    pub fn fields(&self) -> (r: &Vec<Field>)
        ensures
            r@ == self.spec_fields(),
    {
        &self.fields
    }

    pub fn get_pos(&self) -> (r: Span)
        ensures
            r == self.spec_pos(),
    {
        self.pos
    }

    /// The text a diagnostic listing prints for this shape: its kind, then
    /// one line per field.
    pub fn describe(&self) -> (r: String)
        ensures
            r@ == describe_text(*self),
    {
        let mut out = match self.type_ {
            StructType::Struct => String::from_str("Struct {"),
            StructType::Protocol(ProtocolType::C) => String::from_str("Protocol C {"),
            StructType::Protocol(ProtocolType::Typst) => String::from_str("Protocol Typst {"),
            StructType::Protocol(ProtocolType::Bidirectional) => String::from_str(
                "Protocol Bidirectional {",
            ),
        };
        let mut k: usize = 0;
        while k < self.fields.len()
            invariant
                0 <= k <= self.fields.len(),
                out@ == describe_head(self.spec_type()) + describe_fields(
                    self.spec_fields().take(k as int),
                ),
            decreases self.fields.len() - k,
        {
            proof {
                assert(self.spec_fields().take(k + 1).drop_last() =~= self.spec_fields().take(
                    k as int,
                ));
                assert(self.spec_fields().take(k + 1).last() == self.spec_fields()[k as int]);
            }
            out.append("\n\t");
            out.append(self.fields[k].name.as_str());
            out.append(": ");
            let t = self.fields[k].ty.to_dsl();
            out.append(t.as_str());
            k += 1;
        }
        proof {
            assert(self.spec_fields().take(self.spec_fields().len() as int)
                =~= self.spec_fields());
        }
        out.append("\n}");
        out
    }
}

/// The opening line of `describe`'s output for a given kind.
pub open spec fn describe_head(t: StructType) -> Seq<char> {
    match t {
        StructType::Struct => "Struct {"@,
        StructType::Protocol(ProtocolType::C) => "Protocol C {"@,
        StructType::Protocol(ProtocolType::Typst) => "Protocol Typst {"@,
        StructType::Protocol(ProtocolType::Bidirectional) => "Protocol Bidirectional {"@,
    }
}

/// The field lines of `describe`'s output, one `\n\tname: type` per field.
pub open spec fn describe_fields(fields: Seq<Field>) -> Seq<char>
    decreases fields.len(),
{
    if fields.len() == 0 {
        Seq::<char>::empty()
    } else {
        describe_fields(fields.drop_last()) + "\n\t"@ + fields.last().name@ + ": "@
            + crate::types::dsl_text(fields.last().ty)
    }
}

/// The whole text of `describe` for a shape.
pub open spec fn describe_text(s: Struct) -> Seq<char> {
    describe_head(s.spec_type()) + describe_fields(s.spec_fields()) + "\n}"@
}

} // verus!
