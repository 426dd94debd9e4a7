//! The closed set of field types and their backend-specific renderings.

use vstd::prelude::*;

verus! {

/// Represents the different types that can be used in the protocol.
pub enum Types {
    Int,
    Float,
    Point,
    Bool,
    Char,
    String,
    Array(Box<Types>),
    Optional(Box<Types>),
    Struct(String),
}

/// The C spelling of a type.  `in_struct` selects the spelling used for a
/// struct member (`struct X_t`) over the bare name used elsewhere.
pub open spec fn c_text(t: Types, in_struct: bool) -> Seq<char>
    decreases t,
{
    match t {
        Types::Int => "int"@,
        Types::Float => "float"@,
        Types::Point => "float"@,
        Types::Bool => "bool"@,
        Types::Char => "char"@,
        Types::String => "char*"@,
        Types::Array(e) => c_text(*e, in_struct) + " *"@,
        Types::Optional(e) => c_text(*e, in_struct) + " *"@,
        Types::Struct(name) => if in_struct {
            "struct "@ + name@ + "_t"@
        } else {
            name@
        },
    }
}

/// The Typst spelling of a type.
pub open spec fn typst_text(t: Types) -> Seq<char>
    decreases t,
{
    match t {
        Types::Int => "int"@,
        Types::Float => "float"@,
        Types::Point => "point"@,
        Types::Bool => "bool"@,
        Types::Char => "char"@,
        Types::String => "string"@,
        Types::Array(e) => typst_text(*e) + "[]"@,
        Types::Optional(e) => typst_text(*e),
        Types::Struct(name) => name@,
    }
}

/// The DSL spelling of a type, as diagnostics print it: arrays are suffixed
/// with `[]` and optionals with `?`.
pub open spec fn dsl_text(t: Types) -> Seq<char>
    decreases t,
{
    match t {
        Types::Int => "int"@,
        Types::Float => "float"@,
        Types::Point => "point"@,
        Types::Bool => "bool"@,
        Types::Char => "char"@,
        Types::String => "string"@,
        Types::Array(e) => dsl_text(*e) + "[]"@,
        Types::Optional(e) => dsl_text(*e) + "?"@,
        Types::Struct(name) => name@,
    }
}

/// True for a struct reference, also through `Array`/`Optional` wrappers.
pub open spec fn spec_is_struct(t: Types) -> bool
    decreases t,
{
    match t {
        Types::Struct(_) => true,
        Types::Array(e) => spec_is_struct(*e),
        Types::Optional(e) => spec_is_struct(*e),
        _ => false,
    }
}

/// No array of arrays anywhere in the type: the one shape the native
/// backend's size and encode emitters do not support, and which the
/// description language cannot express.
pub open spec fn no_nested_array(t: Types) -> bool
    decreases t,
{
    match t {
        Types::Array(e) => !(*e matches Types::Array(_)) && no_nested_array(*e),
        Types::Optional(e) => no_nested_array(*e),
        _ => true,
    }
}

/// The name of the struct a type refers to, unwrapping `Array` and
/// `Optional` wrappers; `None` for primitive types.
pub open spec fn type_ref(t: Types) -> Option<Seq<char>>
    decreases t,
{
    match t {
        Types::Struct(name) => Option::Some(name@),
        Types::Array(e) => type_ref(*e),
        Types::Optional(e) => type_ref(*e),
        _ => Option::None,
    }
}

impl Types {
    /// The struct name this type refers to, through any `Array`/`Optional`
    /// wrappers, or `None` for a primitive type.
    pub fn struct_ref(&self) -> (r: Option<&String>)
        ensures
            match r {
                Option::Some(name) => type_ref(*self) == Option::Some(name@),
                Option::None => type_ref(*self) is None,
            },
        decreases *self,
    {
        match self {
            Types::Struct(name) => Option::Some(name),
            Types::Array(e) => e.struct_ref(),
            Types::Optional(e) => e.struct_ref(),
            _ => Option::None,
        }
    }
}

impl Types {
    /// Recognizes the primitive keywords; any other identifier is read as a
    /// reference to a struct of that name (existence is validated later).
    pub fn parse(type_str: &str) -> (r: Types)
        ensures
            type_str@ == "int"@ ==> r == Types::Int,
            type_str@ == "float"@ ==> r == Types::Float,
            type_str@ == "bool"@ ==> r == Types::Bool,
            type_str@ == "char"@ ==> r == Types::Char,
            type_str@ == "string"@ ==> r == Types::String,
            type_str@ == "point"@ ==> r == Types::Point,
            type_str@ != "int"@ && type_str@ != "float"@ && type_str@ != "bool"@
                && type_str@ != "char"@ && type_str@ != "string"@ && type_str@ != "point"@
                ==> (r matches Types::Struct(name) && name@ == type_str@),
            !(r matches Types::Array(_)),
            no_nested_array(r),
    {
        proof {
            reveal_strlit("int");
            reveal_strlit("float");
            reveal_strlit("bool");
            reveal_strlit("char");
            reveal_strlit("string");
            reveal_strlit("point");
            assert("int"@.len() == 3);
            assert("float"@.len() == 5);
            assert("bool"@.len() == 4);
            assert("char"@.len() == 4);
            assert("string"@.len() == 6);
            assert("point"@.len() == 5);
            assert("bool"@[0] == 'b');
            assert("char"@[0] == 'c');
            assert("float"@[0] == 'f');
            assert("point"@[0] == 'p');
        }
        if str_eq(type_str, "int") {
            Types::Int
        } else if str_eq(type_str, "float") {
            Types::Float
        } else if str_eq(type_str, "bool") {
            Types::Bool
        } else if str_eq(type_str, "char") {
            Types::Char
        } else if str_eq(type_str, "string") {
            Types::String
        } else if str_eq(type_str, "point") {
            Types::Point
        } else {
            Types::Struct(type_str.to_owned())
        }
    }

    /// Check if the type is a struct or an array of structs.
    pub fn is_struct(&self) -> (r: bool)
        ensures
            r == spec_is_struct(*self),
        decreases *self,
    {
        match self {
            Types::Struct(_) => true,
            Types::Array(t) => t.is_struct(),
            Types::Optional(t) => t.is_struct(),
            _ => false,
        }
    }

    /// The C spelling of the type.
    pub fn to_c(&self, in_struct: bool) -> (r: String)
        ensures
            r@ == c_text(*self, in_struct),
        decreases *self,
    {
        match self {
            Types::Int => String::from_str("int"),
            Types::Float => String::from_str("float"),
            Types::Point => String::from_str("float"),
            Types::Bool => String::from_str("bool"),
            Types::Char => String::from_str("char"),
            Types::String => String::from_str("char*"),
            Types::Array(t) => {
                let mut s = t.to_c(in_struct);
                s.append(" *");
                s
            },
            Types::Optional(t) => {
                let mut s = t.to_c(in_struct);
                s.append(" *");
                s
            },
            Types::Struct(name) => {
                if in_struct {
                    let mut s = String::from_str("struct ");
                    s.append(name.as_str());
                    s.append("_t");
                    s
                } else {
                    clone_string(name)
                }
            },
        }
    }

    /// The Typst spelling of the type.
    pub fn to_typst(&self) -> (r: String)
        ensures
            r@ == typst_text(*self),
        decreases *self,
    {
        match self {
            Types::Int => String::from_str("int"),
            Types::Float => String::from_str("float"),
            Types::Point => String::from_str("point"),
            Types::Bool => String::from_str("bool"),
            Types::Char => String::from_str("char"),
            Types::String => String::from_str("string"),
            Types::Array(t) => {
                let mut s = t.to_typst();
                s.append("[]");
                s
            },
            Types::Optional(t) => t.to_typst(),
            Types::Struct(name) => clone_string(name),
        }
    }

    /// The DSL spelling of the type, as diagnostics print it.
    pub fn to_dsl(&self) -> (r: String)
        ensures
            r@ == dsl_text(*self),
        decreases *self,
    {
        match self {
            Types::Int => String::from_str("int"),
            Types::Float => String::from_str("float"),
            Types::Point => String::from_str("point"),
            Types::Bool => String::from_str("bool"),
            Types::Char => String::from_str("char"),
            Types::String => String::from_str("string"),
            Types::Array(t) => {
                let mut s = t.to_dsl();
                s.append("[]");
                s
            },
            Types::Optional(t) => {
                let mut s = t.to_dsl();
                s.append("?");
                s
            },
            Types::Struct(name) => clone_string(name),
        }
    }
}

/// A copy of a `String` with the same characters.
pub fn clone_string(s: &String) -> (r: String)
    ensures
        r@ == s@,
{
    String::from_str(s.as_str())
}

/// True exactly when the two string slices hold the same characters.
pub fn str_eq(a: &str, b: &str) -> (r: bool)
    ensures
        r <==> a@ == b@,
{
    let sa = a.to_owned();
    let sb = b.to_owned();
    sa == sb
}

} // verus!
