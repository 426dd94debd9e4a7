//! The reader for the protocol description language: two declaration forms,
//!
//! ```text
//! struct Name { Type field_name; Type field_name[]; ... }
//! protocol <c|typst|bidirectional> Name { Type field_name; ... }
//! ```
//!
//! The reader drives the declaration graph one declaration at a time, so
//! every semantic check (duplicate names, unknown references, cycles, flag
//! propagation) happens in `Protocol`'s verified operations.

use vstd::prelude::*;

use crate::protocol::Protocol;
use crate::struct_::{initial_decoder, initial_encoder, Field, ProtocolType, Struct, StructType};
use crate::types::{str_eq, Types};
use crate::{Diag, DiagKind, Span};

verus! {

pub struct ProtocolParser;

/// May `c` open an identifier?
pub open spec fn is_ident_start(c: char) -> bool {
    ('a' <= c && c <= 'z') || ('A' <= c && c <= 'Z') || c == '_'
}

/// The first position at or after `pos` that holds no whitespace.
pub open spec fn ws_end(file: Seq<char>, pos: int) -> int
    decreases file.len() - pos,
{
    if pos >= file.len() || !is_ws(file[pos]) {
        pos
    } else {
        ws_end(file, pos + 1)
    }
}

/// The end of the identifier-character run starting at `pos`.
pub open spec fn ident_run(file: Seq<char>, pos: int) -> int
    decreases file.len() - pos,
{
    if pos >= file.len() || !is_ident(file[pos]) {
        pos
    } else {
        ident_run(file, pos + 1)
    }
}

/// The end of the identifier starting at `pos`, or `pos` itself when no
/// identifier starts here.
pub open spec fn ident_end(file: Seq<char>, pos: int) -> int {
    if pos < file.len() && is_ident_start(file[pos]) {
        ident_run(file, pos + 1)
    } else {
        pos
    }
}

proof fn lemma_ws_end_bounds(file: Seq<char>, pos: int)
    requires
        0 <= pos <= file.len(),
    ensures
        pos <= ws_end(file, pos) <= file.len(),
    decreases file.len() - pos,
{
    if !(pos >= file.len() || !is_ws(file[pos])) {
        lemma_ws_end_bounds(file, pos + 1);
    }
}

proof fn lemma_ident_run_bounds(file: Seq<char>, pos: int)
    requires
        0 <= pos <= file.len(),
    ensures
        pos <= ident_run(file, pos) <= file.len(),
    decreases file.len() - pos,
{
    if !(pos >= file.len() || !is_ident(file[pos])) {
        lemma_ident_run_bounds(file, pos + 1);
    }
}

proof fn lemma_ident_end_bounds(file: Seq<char>, pos: int)
    requires
        0 <= pos <= file.len(),
    ensures
        pos <= ident_end(file, pos) <= file.len(),
{
    if pos < file.len() && is_ident_start(file[pos]) {
        lemma_ident_run_bounds(file, pos + 1);
    }
}

/// Is this identifier one of the primitive type keywords?
pub open spec fn is_primitive(s: Seq<char>) -> bool {
    s == "int"@ || s == "float"@ || s == "bool"@ || s == "char"@ || s == "string"@ || s
        == "point"@
}

/// One field as the text declares it: its name, the text of its type
/// token, whether a `[]` suffix made it an array, and the type token's
/// span.
pub struct FieldModel {
    pub name: Seq<char>,
    pub base: Seq<char>,
    pub is_array: bool,
    pub pos: Span,
}

/// One declaration as the text makes it: its kind (struct, or protocol
/// with its direction), its name, its span, and its fields in source
/// order.
pub struct DeclModel {
    pub kind: StructType,
    pub name: Seq<char>,
    pub span: Span,
    pub fields: Seq<FieldModel>,
}

/// The outcome of reading one declaration body.
pub enum ReadFields {
    RfErr(DiagKind, Span),
    RfOk(Seq<FieldModel>, int),
}

/// The outcome of reading a whole protocol description.
pub enum ParseOutcome {
    PErr(DiagKind, Span),
    POk(Seq<DeclModel>),
}

/// The reading of one declaration body after its `{`: fields until the
/// closing `}`, each an identifier type token, an identifier name, an
/// optional `[]` suffix and a `;`; a declaration keyword in place of a
/// type token is a nesting violation.
pub open spec fn read_fields_text(file: Seq<char>, pos: int, acc: Seq<FieldModel>) -> ReadFields
    decreases file.len() - pos,
    when 0 <= pos <= file.len()
    via read_fields_text_dec
{
    let w = ws_end(file, pos);
    if w >= file.len() {
        ReadFields::RfErr(DiagKind::SyntaxError, Span { start: w as usize, end: w as usize })
    } else if file[w] == '}' {
        ReadFields::RfOk(acc, w + 1)
    } else {
        let te = ident_end(file, w);
        if te == w {
            ReadFields::RfErr(DiagKind::SyntaxError, Span { start: w as usize, end: w as usize })
        } else {
            let base = file.subrange(w, te);
            if base == "struct"@ || base == "protocol"@ {
                ReadFields::RfErr(
                    DiagKind::NestingNotAllowedHere,
                    Span { start: w as usize, end: te as usize },
                )
            } else {
                let w2 = ws_end(file, te);
                let ne = ident_end(file, w2);
                if ne == w2 {
                    ReadFields::RfErr(
                        DiagKind::SyntaxError,
                        Span { start: w2 as usize, end: w2 as usize },
                    )
                } else {
                    let fname = file.subrange(w2, ne);
                    let fm_pos = Span { start: w as usize, end: te as usize };
                    let w3 = ws_end(file, ne);
                    if w3 < file.len() && file[w3] == '[' {
                        let w4 = ws_end(file, w3 + 1);
                        if w4 < file.len() && file[w4] == ']' {
                            let w5 = ws_end(file, w4 + 1);
                            if w5 < file.len() && file[w5] == ';' {
                                read_fields_text(
                                    file,
                                    w5 + 1,
                                    acc.push(
                                        FieldModel {
                                            name: fname,
                                            base: base,
                                            is_array: true,
                                            pos: fm_pos,
                                        },
                                    ),
                                )
                            } else {
                                ReadFields::RfErr(
                                    DiagKind::SyntaxError,
                                    Span { start: w5 as usize, end: w5 as usize },
                                )
                            }
                        } else {
                            ReadFields::RfErr(
                                DiagKind::SyntaxError,
                                Span { start: w4 as usize, end: w4 as usize },
                            )
                        }
                    } else {
                        if w3 < file.len() && file[w3] == ';' {
                            read_fields_text(
                                file,
                                w3 + 1,
                                acc.push(
                                    FieldModel {
                                        name: fname,
                                        base: base,
                                        is_array: false,
                                        pos: fm_pos,
                                    },
                                ),
                            )
                        } else {
                            ReadFields::RfErr(
                                DiagKind::SyntaxError,
                                Span { start: w3 as usize, end: w3 as usize },
                            )
                        }
                    }
                }
            }
        }
    }
}

#[via_fn]
proof fn read_fields_text_dec(file: Seq<char>, pos: int, acc: Seq<FieldModel>) {
    lemma_ws_end_bounds(file, pos);
    let w = ws_end(file, pos);
    if w < file.len() && file[w] != '}' {
        lemma_ident_end_bounds(file, w);
        let te = ident_end(file, w);
        if te != w {
            lemma_ws_end_bounds(file, te);
            let w2 = ws_end(file, te);
            lemma_ident_end_bounds(file, w2);
            let ne = ident_end(file, w2);
            if ne != w2 {
                lemma_ws_end_bounds(file, ne);
                let w3 = ws_end(file, ne);
                if w3 < file.len() && file[w3] == '[' {
                    lemma_ws_end_bounds(file, w3 + 1);
                    let w4 = ws_end(file, w3 + 1);
                    if w4 < file.len() && file[w4] == ']' {
                        lemma_ws_end_bounds(file, w4 + 1);
                    }
                }
            }
        }
    }
}

/// The position a successful body read ends at lies strictly beyond its
/// start.
proof fn lemma_read_fields_pos(file: Seq<char>, pos: int, acc: Seq<FieldModel>)
    requires
        0 <= pos <= file.len(),
    ensures
        (match read_fields_text(file, pos, acc) {
            ReadFields::RfOk(_, p2) => pos < p2 <= file.len(),
            ReadFields::RfErr(_, _) => true,
        }),
    decreases file.len() - pos,
{
    lemma_ws_end_bounds(file, pos);
    let w = ws_end(file, pos);
    if w < file.len() && file[w] != '}' {
        lemma_ident_end_bounds(file, w);
        let te = ident_end(file, w);
        if te != w {
            let base = file.subrange(w, te);
            if !(base == "struct"@ || base == "protocol"@) {
                lemma_ws_end_bounds(file, te);
                let w2 = ws_end(file, te);
                lemma_ident_end_bounds(file, w2);
                let ne = ident_end(file, w2);
                if ne != w2 {
                    let fname = file.subrange(w2, ne);
                    let fm_pos = Span { start: w as usize, end: te as usize };
                    lemma_ws_end_bounds(file, ne);
                    let w3 = ws_end(file, ne);
                    if w3 < file.len() && file[w3] == '[' {
                        lemma_ws_end_bounds(file, w3 + 1);
                        let w4 = ws_end(file, w3 + 1);
                        if w4 < file.len() && file[w4] == ']' {
                            lemma_ws_end_bounds(file, w4 + 1);
                            let w5 = ws_end(file, w4 + 1);
                            if w5 < file.len() && file[w5] == ';' {
                                lemma_read_fields_pos(
                                    file,
                                    w5 + 1,
                                    acc.push(
                                        FieldModel {
                                            name: fname,
                                            base: base,
                                            is_array: true,
                                            pos: fm_pos,
                                        },
                                    ),
                                );
                            }
                        }
                    } else {
                        if w3 < file.len() && file[w3] == ';' {
                            lemma_read_fields_pos(
                                file,
                                w3 + 1,
                                acc.push(
                                    FieldModel {
                                        name: fname,
                                        base: base,
                                        is_array: false,
                                        pos: fm_pos,
                                    },
                                ),
                            );
                        }
                    }
                }
            }
        }
    }
}

/// Is `n` the name of a struct declaration among `ds`?
pub open spec fn struct_declared(ds: Seq<DeclModel>, n: Seq<char>) -> bool {
    exists|i: int|
        0 <= i < ds.len() && ds[i].kind == StructType::Struct && #[trigger] ds[i].name == n
}

/// The semantic verdict for the `i`-th field of a body, mirroring the
/// finalize checks: first a reference to an undeclared struct, then a
/// repeated field name.  `own` carries the declaration's own name when it
/// counts as declared (a struct's body, not a protocol's).
pub open spec fn model_field_err_at(
    ds: Seq<DeclModel>,
    own: Option<Seq<char>>,
    fms: Seq<FieldModel>,
    i: int,
) -> Option<DiagKind> {
    if !is_primitive(fms[i].base) && !(struct_declared(ds, fms[i].base) || own == Option::Some(
        fms[i].base,
    )) {
        Option::Some(DiagKind::UnknownStructReference)
    } else if exists|j: int| 0 <= j < i && #[trigger] fms[j].name == fms[i].name {
        Option::Some(DiagKind::DuplicateFieldName)
    } else {
        Option::None
    }
}

/// The first field (from `i` on) that fails the semantic checks.
pub open spec fn first_model_err_from(
    ds: Seq<DeclModel>,
    own: Option<Seq<char>>,
    fms: Seq<FieldModel>,
    i: int,
) -> Option<int>
    decreases fms.len() - i,
{
    if i >= fms.len() {
        Option::None
    } else if model_field_err_at(ds, own, fms, i) is Some {
        Option::Some(i)
    } else {
        first_model_err_from(ds, own, fms, i + 1)
    }
}

/// The first field (from `i` on) whose type token names the declaration
/// itself: the direct self-reference rejected as a circular dependency.
pub open spec fn first_model_self_ref_from(
    name: Seq<char>,
    fms: Seq<FieldModel>,
    i: int,
) -> Option<int>
    decreases fms.len() - i,
{
    if i >= fms.len() {
        Option::None
    } else if !is_primitive(fms[i].base) && fms[i].base == name {
        Option::Some(i)
    } else {
        first_model_self_ref_from(name, fms, i + 1)
    }
}

/// The reading of a whole protocol description from position `pos`, with
/// the declarations read so far in `acc`: the sequence of declarations the
/// text makes, or the kind and span of the first violation, syntactic or
/// semantic, in the order the build detects them.
pub open spec fn read_program(file: Seq<char>, pos: int, acc: Seq<DeclModel>) -> ParseOutcome
    decreases file.len() - pos,
    when 0 <= pos <= file.len()
    via read_program_dec
{
    let w = ws_end(file, pos);
    if w >= file.len() {
        ParseOutcome::POk(acc)
    } else {
        let ke = ident_end(file, w);
        if ke == w {
            ParseOutcome::PErr(DiagKind::SyntaxError, Span { start: w as usize, end: w as usize })
        } else {
            let kw = file.subrange(w, ke);
            if kw == "struct"@ {
                let w2 = ws_end(file, ke);
                let ne = ident_end(file, w2);
                if ne == w2 {
                    ParseOutcome::PErr(
                        DiagKind::SyntaxError,
                        Span { start: w2 as usize, end: w2 as usize },
                    )
                } else {
                    let name = file.subrange(w2, ne);
                    let dspan = Span { start: w as usize, end: ne as usize };
                    if struct_declared(acc, name) {
                        ParseOutcome::PErr(DiagKind::DuplicateStructName, dspan)
                    } else {
                        let wb = ws_end(file, ne);
                        if !(wb < file.len() && file[wb] == '{') {
                            ParseOutcome::PErr(
                                DiagKind::SyntaxError,
                                Span { start: wb as usize, end: wb as usize },
                            )
                        } else {
                            match read_fields_text(file, wb + 1, Seq::empty()) {
                                ReadFields::RfErr(k, sp) => ParseOutcome::PErr(k, sp),
                                ReadFields::RfOk(fms, p2) => {
                                    match first_model_err_from(
                                        acc,
                                        Option::Some(name),
                                        fms,
                                        0,
                                    ) {
                                        Option::Some(i) => ParseOutcome::PErr(
                                            model_field_err_at(
                                                acc,
                                                Option::Some(name),
                                                fms,
                                                i,
                                            )->Some_0,
                                            fms[i].pos,
                                        ),
                                        Option::None => {
                                            match first_model_self_ref_from(name, fms, 0) {
                                                Option::Some(i) => ParseOutcome::PErr(
                                                    DiagKind::CircularDependency,
                                                    fms[i].pos,
                                                ),
                                                Option::None => read_program(
                                                    file,
                                                    p2,
                                                    acc.push(
                                                        DeclModel {
                                                            kind: StructType::Struct,
                                                            name: name,
                                                            span: dspan,
                                                            fields: fms,
                                                        },
                                                    ),
                                                ),
                                            }
                                        },
                                    }
                                },
                            }
                        }
                    }
                }
            } else if kw == "protocol"@ {
                let w2 = ws_end(file, ke);
                let de = ident_end(file, w2);
                if de == w2 {
                    ParseOutcome::PErr(
                        DiagKind::SyntaxError,
                        Span { start: w2 as usize, end: w2 as usize },
                    )
                } else {
                    let dir = file.subrange(w2, de);
                    if !(dir == "c"@ || dir == "typst"@ || dir == "bidirectional"@) {
                        ParseOutcome::PErr(
                            DiagKind::SyntaxError,
                            Span { start: w2 as usize, end: de as usize },
                        )
                    } else {
                        let pt = if dir == "c"@ {
                            ProtocolType::C
                        } else if dir == "typst"@ {
                            ProtocolType::Typst
                        } else {
                            ProtocolType::Bidirectional
                        };
                        let w3 = ws_end(file, de);
                        let ne = ident_end(file, w3);
                        if ne == w3 {
                            ParseOutcome::PErr(
                                DiagKind::SyntaxError,
                                Span { start: w3 as usize, end: w3 as usize },
                            )
                        } else {
                            let name = file.subrange(w3, ne);
                            let dspan = Span { start: w as usize, end: ne as usize };
                            let wb = ws_end(file, ne);
                            if !(wb < file.len() && file[wb] == '{') {
                                ParseOutcome::PErr(
                                    DiagKind::SyntaxError,
                                    Span { start: wb as usize, end: wb as usize },
                                )
                            } else {
                                match read_fields_text(file, wb + 1, Seq::empty()) {
                                    ReadFields::RfErr(k, sp) => ParseOutcome::PErr(k, sp),
                                    ReadFields::RfOk(fms, p2) => {
                                        match first_model_err_from(acc, Option::None, fms, 0) {
                                            Option::Some(i) => ParseOutcome::PErr(
                                                model_field_err_at(
                                                    acc,
                                                    Option::None,
                                                    fms,
                                                    i,
                                                )->Some_0,
                                                fms[i].pos,
                                            ),
                                            Option::None => read_program(
                                                file,
                                                p2,
                                                acc.push(
                                                    DeclModel {
                                                        kind: StructType::Protocol(pt),
                                                        name: name,
                                                        span: dspan,
                                                        fields: fms,
                                                    },
                                                ),
                                            ),
                                        }
                                    },
                                }
                            }
                        }
                    }
                }
            } else {
                ParseOutcome::PErr(
                    DiagKind::SyntaxError,
                    Span { start: w as usize, end: ke as usize },
                )
            }
        }
    }
}

#[via_fn]
proof fn read_program_dec(file: Seq<char>, pos: int, acc: Seq<DeclModel>) {
    lemma_ws_end_bounds(file, pos);
    let w = ws_end(file, pos);
    if w < file.len() {
        lemma_ident_end_bounds(file, w);
        let ke = ident_end(file, w);
        if ke != w {
            lemma_ws_end_bounds(file, ke);
            let w2 = ws_end(file, ke);
            lemma_ident_end_bounds(file, w2);
            let ne = ident_end(file, w2);
            if ne != w2 {
                lemma_ws_end_bounds(file, ne);
                let wb = ws_end(file, ne);
                if wb < file.len() {
                    lemma_read_fields_pos(file, wb + 1, Seq::empty());
                }
            }
            let de = ident_end(file, w2);
            if de != w2 {
                lemma_ws_end_bounds(file, de);
                let w3 = ws_end(file, de);
                lemma_ident_end_bounds(file, w3);
                let ne2 = ident_end(file, w3);
                if ne2 != w3 {
                    lemma_ws_end_bounds(file, ne2);
                    let wb2 = ws_end(file, ne2);
                    if wb2 < file.len() {
                        lemma_read_fields_pos(file, wb2 + 1, Seq::empty());
                    }
                }
            }
        }
    }
}

/// Is `c` a whitespace character of the description language?
pub open spec fn is_ws(c: char) -> bool {
    c == ' ' || c == '\t' || c == '\r' || c == '\n'
}

/// May `c` stand in an identifier?
pub open spec fn is_ident(c: char) -> bool {
    ('a' <= c && c <= 'z') || ('A' <= c && c <= 'Z') || ('0' <= c && c <= '9') || c == '_'
}

/// Does `t` spell the type the token text `base` names?
pub open spec fn base_ty_matches(t: Types, base: Seq<char>) -> bool {
    if base == "int"@ {
        t == Types::Int
    } else if base == "float"@ {
        t == Types::Float
    } else if base == "bool"@ {
        t == Types::Bool
    } else if base == "char"@ {
        t == Types::Char
    } else if base == "string"@ {
        t == Types::String
    } else if base == "point"@ {
        t == Types::Point
    } else {
        t matches Types::Struct(nm) && nm@ == base
    }
}

/// Does `t` spell the field type the text declares: the base type, wrapped
/// in `Array` exactly when a `[]` suffix follows?
pub open spec fn field_ty_matches(t: Types, base: Seq<char>, is_array: bool) -> bool {
    if is_array {
        t matches Types::Array(e) && base_ty_matches(*e, base)
    } else {
        base_ty_matches(t, base)
    }
}

/// Do the stored fields spell exactly the fields the text declares, in
/// source order?
pub open spec fn fields_correspond(fs: Seq<Field>, fms: Seq<FieldModel>) -> bool {
    &&& fs.len() == fms.len()
    &&& forall|i: int|
        0 <= i < fs.len() ==> {
            &&& (#[trigger] fs[i]).name@ == fms[i].name
            &&& fs[i].pos == fms[i].pos
            &&& field_ty_matches(fs[i].ty, fms[i].base, fms[i].is_array)
        }
}

/// The type the token text resolves to references a struct exactly when
/// the token is no primitive keyword, and then it references the token
/// itself.
proof fn lemma_ty_ref(t: Types, base: Seq<char>, is_array: bool)
    requires
        field_ty_matches(t, base, is_array),
    ensures
        crate::types::type_ref(t) == (if is_primitive(base) {
            Option::<Seq<char>>::None
        } else {
            Option::Some(base)
        }),
    decreases t,
{
    if is_array {
        match t {
            Types::Array(e) => {
                lemma_ty_ref(*e, base, false);
            },
            _ => {},
        }
    }
}

/// The struct declarations among `ds`, in declaration order.
pub open spec fn struct_models(ds: Seq<DeclModel>) -> Seq<DeclModel>
    decreases ds.len(),
{
    if ds.len() == 0 {
        Seq::empty()
    } else {
        struct_models(ds.drop_last()) + (if ds.last().kind == StructType::Struct {
            seq![ds.last()]
        } else {
            Seq::<DeclModel>::empty()
        })
    }
}

/// Insert a protocol declaration into the table: replace the entry of the
/// same name in place, else append.
pub open spec fn upsert_prot(t: Seq<DeclModel>, d: DeclModel) -> Seq<DeclModel>
    decreases t.len(),
{
    if t.len() == 0 {
        seq![d]
    } else if t[0].name == d.name {
        seq![d] + t.drop_first()
    } else {
        seq![t[0]] + upsert_prot(t.drop_first(), d)
    }
}

/// The protocol table the declarations build: name-indexed, a repeated
/// name keeping its first position with its last declaration.
pub open spec fn prots_table(ds: Seq<DeclModel>) -> Seq<DeclModel>
    decreases ds.len(),
{
    if ds.len() == 0 {
        Seq::empty()
    } else {
        let t = prots_table(ds.drop_last());
        if ds.last().kind matches StructType::Protocol(_) {
            upsert_prot(t, ds.last())
        } else {
            t
        }
    }
}

/// Does the graph hold exactly the declarations of the models: the struct
/// table in declaration order (which is also the finalize order), every
/// shape's name, kind, span and fields as the text makes them, and the
/// protocol table with each entry point's own direction flags?
pub open spec fn graph_corresponds(p: Protocol, ds: Seq<DeclModel>) -> bool {
    let ss = struct_models(ds);
    let ps = prots_table(ds);
    &&& p.decls().len() == ss.len()
    &&& forall|k: int|
        0 <= k < ss.len() ==> {
            &&& (#[trigger] p.decls()[k]).name@ == ss[k].name
            &&& p.decls()[k].done
            &&& p.decls()[k].st.spec_type() == StructType::Struct
            &&& p.decls()[k].st.spec_pos() == ss[k].span
            &&& fields_correspond(p.decls()[k].st.spec_fields(), ss[k].fields)
        }
    &&& p.order().len() == ss.len()
    &&& forall|k: int| 0 <= k < ss.len() ==> #[trigger] p.order()[k] == k
    &&& p.prots().len() == ps.len()
    &&& forall|k: int|
        0 <= k < ps.len() ==> {
            &&& (#[trigger] p.prots()[k]).name@ == ps[k].name
            &&& p.prots()[k].st.spec_type() == ps[k].kind
            &&& p.prots()[k].st.spec_pos() == ps[k].span
            &&& fields_correspond(p.prots()[k].st.spec_fields(), ps[k].fields)
            &&& p.prots()[k].st.encoder == initial_encoder(ps[k].kind)
            &&& p.prots()[k].st.decoder == initial_decoder(ps[k].kind)
        }
}

/// Advance `pos` past whitespace, exactly to the first non-whitespace
/// character.
fn skip_ws(file: &str, n: usize, pos: &mut usize)
    requires
        n == file@.len(),
        *old(pos) <= n,
    ensures
        *old(pos) <= *final(pos) <= n,
        *final(pos) < n ==> !is_ws(file@[*final(pos) as int]),
        *final(pos) == ws_end(file@, *old(pos) as int),
{
    while *pos < n
        invariant
            n == file@.len(),
            *old(pos) <= *pos <= n,
            ws_end(file@, *old(pos) as int) == ws_end(file@, *pos as int),
        decreases n - *pos,
    {
        let c = file.get_char(*pos);
        if c == ' ' || c == '\t' || c == '\r' || c == '\n' {
            proof {
                assert(is_ws(file@[*pos as int]));
                assert(ws_end(file@, *pos as int) == ws_end(file@, *pos + 1));
            }
            *pos += 1;
        } else {
            proof {
                assert(!is_ws(file@[*pos as int]));
                assert(ws_end(file@, *pos as int) == *pos);
            }
            return ;
        }
    }
}

/// Read one identifier at `pos`, returning it with its span; `None` when no
/// identifier starts here.
fn read_ident(file: &str, n: usize, pos: &mut usize) -> (r: Option<(String, Span)>)
    requires
        n == file@.len(),
        *old(pos) <= n,
    ensures
        match r {
            Option::Some(t) => {
                &&& *old(pos) < *final(pos) <= n
                &&& *final(pos) == ident_end(file@, *old(pos) as int)
                &&& t.1.start == *old(pos)
                &&& t.1.end == *final(pos)
                &&& t.0@ == file@.subrange(*old(pos) as int, *final(pos) as int)
            },
            Option::None => {
                &&& *final(pos) == *old(pos)
                &&& ident_end(file@, *old(pos) as int) == *old(pos)
            },
        },
{
    let start = *pos;
    if start >= n {
        return Option::None;
    }
    let c = file.get_char(start);
    let u = c as u32;
    let first_ok = (u >= 97 && u <= 122) || (u >= 65 && u <= 90) || u == 95;
    proof {
        assert(('a' as u32) == 97 && ('z' as u32) == 122 && ('A' as u32) == 65 && ('Z' as u32)
            == 90 && ('_' as u32) == 95 && ('0' as u32) == 48 && ('9' as u32) == 57);
        assert(first_ok == is_ident_start(file@[start as int]));
    }
    if !first_ok {
        return Option::None;
    }
    let mut end = start + 1;
    while end < n
        invariant
            n == file@.len(),
            start < end <= n,
            is_ident_start(file@[start as int]),
            ident_run(file@, start + 1) == ident_run(file@, end as int),
        ensures
            start < end <= n,
            ident_run(file@, start + 1) == end,
        decreases n - end,
    {
        let c2 = file.get_char(end);
        let u2 = c2 as u32;
        proof {
            assert(('a' as u32) == 97 && ('z' as u32) == 122 && ('A' as u32) == 65 && ('Z'
                as u32) == 90 && ('_' as u32) == 95 && ('0' as u32) == 48 && ('9' as u32) == 57);
        }
        if (u2 >= 97 && u2 <= 122) || (u2 >= 65 && u2 <= 90) || (u2 >= 48 && u2 <= 57) || u2
            == 95 {
            proof {
                assert(is_ident(file@[end as int]));
                assert(ident_run(file@, end as int) == ident_run(file@, end + 1));
            }
            end += 1;
        } else {
            proof {
                assert(!is_ident(file@[end as int]));
                assert(ident_run(file@, end as int) == end);
            }
            break ;
        }
    }
    proof {
        assert(ident_end(file@, start as int) == end);
    }
    let text = file.substring_char(start, end).to_owned();
    *pos = end;
    Option::Some((text, Span { start, end }))
}

/// Expect the single character `want` at `pos` (after whitespace) and step
/// over it; otherwise a syntax diagnostic at that spot.
fn expect_char(file: &str, n: usize, pos: &mut usize, want: char) -> (r: Result<(), Diag>)
    requires
        n == file@.len(),
        *old(pos) <= n,
    ensures
        *old(pos) <= *final(pos) <= n,
        ({
            let w = ws_end(file@, *old(pos) as int);
            &&& (r is Ok <==> (w < n && file@[w] == want))
            &&& (r is Ok ==> *final(pos) == w + 1)
            &&& (r matches Result::Err(d) ==> *final(pos) == w && d.kind == DiagKind::SyntaxError
                && d.span.start == w && d.span.end == w)
        }),
    {
    skip_ws(file, n, pos);
    if *pos < n {
        let c = file.get_char(*pos);
        if c == want {
            *pos += 1;
            return Result::Ok(());
        }
    }
    Result::Err(Diag::new(DiagKind::SyntaxError, Span { start: *pos, end: *pos }))
}

/// Read the fields of one declaration body, `{` through `}`, into a fresh
/// shape of the given kind.  The shape's fields are exactly the fields the
/// text declares, and a failure is exactly the reading's first violation.
fn parse_fields(
    file: &str,
    n: usize,
    pos: &mut usize,
    struct_type: StructType,
    decl_span: Span,
) -> (r: Result<Struct, Diag>)
    requires
        n == file@.len(),
        *old(pos) <= n,
    ensures
        *old(pos) <= *final(pos) <= n,
        ({
            let w0 = ws_end(file@, *old(pos) as int);
            if !(w0 < n && file@[w0] == '{') {
                r matches Result::Err(d) && d.kind == DiagKind::SyntaxError && d.span.start == w0
                    && d.span.end == w0
            } else {
                match read_fields_text(file@, w0 + 1, Seq::empty()) {
                    ReadFields::RfErr(k, sp) => r matches Result::Err(d) && d.kind == k && d.span
                        == sp,
                    ReadFields::RfOk(fms, p2) => r matches Result::Ok(s) && *final(pos) == p2
                        && fields_correspond(s.spec_fields(), fms) && s.spec_type() == struct_type
                        && s.spec_pos() == decl_span && s.encoder == initial_encoder(struct_type)
                        && s.decoder == initial_decoder(struct_type)
                        && crate::struct_::fields_no_nested_array(s.spec_fields()),
                }
            }
        }),
{
    let mut fields = Struct::new(struct_type, decl_span);
    if let Result::Err(d) = expect_char(file, n, pos, '{') {
        return Result::Err(d);
    }
    let ghost start: int = *pos as int;
    let ghost mut fms: Seq<FieldModel> = Seq::empty();
    loop
        invariant
            n == file@.len(),
            ({
                let w0 = ws_end(file@, *old(pos) as int);
                w0 < n && file@[w0] == '{' && start == w0 + 1
            }),
            start <= *pos <= n,
            *old(pos) <= *pos,
            fields.spec_type() == struct_type,
            fields.spec_pos() == decl_span,
            fields.encoder == initial_encoder(struct_type),
            fields.decoder == initial_decoder(struct_type),
            fields_correspond(fields.spec_fields(), fms),
            crate::struct_::fields_no_nested_array(fields.spec_fields()),
            read_fields_text(file@, start, Seq::empty()) == read_fields_text(
                file@,
                *pos as int,
                fms,
            ),
        decreases n - *pos,
    {
        let ghost pos0: int = *pos as int;
        skip_ws(file, n, pos);
        let ghost w: int = *pos as int;
        if *pos >= n {
            proof {
                assert(read_fields_text(file@, pos0, fms) == ReadFields::RfErr(
                    DiagKind::SyntaxError,
                    Span { start: *pos, end: *pos },
                ));
            }
            return Result::Err(
                Diag::new(DiagKind::SyntaxError, Span { start: *pos, end: *pos }),
            );
        }
        let c = file.get_char(*pos);
        if c == '}' {
            *pos += 1;
            proof {
                assert(read_fields_text(file@, pos0, fms) == ReadFields::RfOk(
                    fms,
                    *pos as int,
                ));
            }
            return Result::Ok(fields);
        }
        let type_tok = match read_ident(file, n, pos) {
            Option::Some(t) => t,
            Option::None => {
                proof {
                    assert(ident_end(file@, w) == w);
                    assert(read_fields_text(file@, pos0, fms) == ReadFields::RfErr(
                        DiagKind::SyntaxError,
                        Span { start: *pos, end: *pos },
                    ));
                }
                return Result::Err(
                    Diag::new(DiagKind::SyntaxError, Span { start: *pos, end: *pos }),
                );
            },
        };
        if str_eq(type_tok.0.as_str(), "struct") || str_eq(type_tok.0.as_str(), "protocol") {
            // a declaration keyword inside a body: a nested declaration,
            // which the language does not allow
            proof {
                assert(read_fields_text(file@, pos0, fms) == ReadFields::RfErr(
                    DiagKind::NestingNotAllowedHere,
                    type_tok.1,
                ));
            }
            return Result::Err(Diag::new(DiagKind::NestingNotAllowedHere, type_tok.1));
        }
        let mut field_type = Types::parse(type_tok.0.as_str());
        let ghost base: Seq<char> = type_tok.0@;
        let ghost tspan: Span = type_tok.1;
        let name_tok = match read_ident_after_ws(file, n, pos) {
            Option::Some(t) => t,
            Option::None => {
                proof {
                    assert(read_fields_text(file@, pos0, fms) == ReadFields::RfErr(
                        DiagKind::SyntaxError,
                        Span { start: *pos, end: *pos },
                    ));
                }
                return Result::Err(
                    Diag::new(DiagKind::SyntaxError, Span { start: *pos, end: *pos }),
                );
            },
        };
        // an optional `[]` suffix turns the field into an array
        let mut is_array = false;
        skip_ws(file, n, pos);
        let ghost w3: int = *pos as int;
        if *pos < n {
            let c2 = file.get_char(*pos);
            if c2 == '[' {
                *pos += 1;
                if let Result::Err(d) = expect_char(file, n, pos, ']') {
                    proof {
                        assert(read_fields_text(file@, pos0, fms) == ReadFields::RfErr(
                            d.kind,
                            d.span,
                        ));
                    }
                    return Result::Err(d);
                }
                field_type = Types::Array(Box::new(field_type));
                is_array = true;
            }
        }
        proof {
            if !is_array {
                assert(ws_end(file@, w3) == w3);
            }
        }
        if let Result::Err(d) = expect_char(file, n, pos, ';') {
            proof {
                assert(read_fields_text(file@, pos0, fms) == ReadFields::RfErr(d.kind, d.span));
            }
            return Result::Err(d);
        }
        fields.add_field(name_tok.0.as_str(), field_type, type_tok.1);
        proof {
            let fm = FieldModel { name: name_tok.0@, base: base, is_array: is_array, pos: tspan };
            assert(field_ty_matches(field_type, base, is_array));
            assert forall|i2: int| 0 <= i2 < fields.spec_fields().len() implies {
                &&& (#[trigger] fields.spec_fields()[i2]).name@ == fms.push(fm)[i2].name
                &&& fields.spec_fields()[i2].pos == fms.push(fm)[i2].pos
                &&& field_ty_matches(
                    fields.spec_fields()[i2].ty,
                    fms.push(fm)[i2].base,
                    fms.push(fm)[i2].is_array,
                )
            } by {
                if i2 < fields.spec_fields().len() - 1 {
                    assert(fields.spec_fields().take(fields.spec_fields().len() - 1)[i2]
                        == fields.spec_fields()[i2]);
                }
            }
            assert forall|i2: int|
                0 <= i2 < fields.spec_fields().len() implies crate::types::no_nested_array(
                (#[trigger] fields.spec_fields()[i2]).ty,
            ) by {
                if i2 < fields.spec_fields().len() - 1 {
                    assert(fields.spec_fields().take(fields.spec_fields().len() - 1)[i2]
                        == fields.spec_fields()[i2]);
                }
            }
            fms = fms.push(fm);
        }
    }
}

/// Skip whitespace, then read one identifier./// Skip whitespace, then read one identifier.
fn read_ident_after_ws(file: &str, n: usize, pos: &mut usize) -> (r: Option<(String, Span)>)
    requires
        n == file@.len(),
        *old(pos) <= n,
    ensures
        ({
            let w = ws_end(file@, *old(pos) as int);
            let e = ident_end(file@, w);
            match r {
                Option::Some(t) => {
                    &&& *old(pos) < *final(pos) <= n
                    &&& w < e && *final(pos) == e
                    &&& t.1.start == w && t.1.end == e
                    &&& t.0@ == file@.subrange(w, e)
                },
                Option::None => *old(pos) <= *final(pos) <= n && *final(pos) == w && e == w,
            }
        }),
{
    skip_ws(file, n, pos);
    read_ident(file, n, pos)
}

/// Pointwise and as a scan, the finalize checks on the stored fields agree
/// with the model checks on the declared fields.
proof fn lemma_scan_corresponds(
    p: Protocol,
    ds: Seq<DeclModel>,
    own: Option<Seq<char>>,
    fs: Seq<Field>,
    fms: Seq<FieldModel>,
    i: int,
)
    requires
        fields_correspond(fs, fms),
        forall|m: Seq<char>|
            #[trigger] p.declared(m) <==> (struct_declared(ds, m) || own == Option::Some(m)),
        0 <= i <= fms.len(),
    ensures
        p.first_bad_field_from(fs, i) == first_model_err_from(ds, own, fms, i),
        forall|k: int|
            i <= k < fms.len() ==> p.field_error_at(fs, k) == #[trigger] model_field_err_at(
                ds,
                own,
                fms,
                k,
            ),
    decreases fms.len() - i,
{
    if i < fms.len() {
        lemma_ty_ref(fs[i].ty, fms[i].base, fms[i].is_array);
        assert(p.declared(fms[i].base) <==> (struct_declared(ds, fms[i].base) || own
            == Option::Some(fms[i].base)));
        if exists|j: int| 0 <= j < i && #[trigger] fms[j].name == fms[i].name {
            let j = choose|j: int| 0 <= j < i && #[trigger] fms[j].name == fms[i].name;
            assert(fs[j].name@ == fs[i].name@);
        }
        if exists|j: int| 0 <= j < i && #[trigger] fs[j].name@ == fs[i].name@ {
            let j = choose|j: int| 0 <= j < i && #[trigger] fs[j].name@ == fs[i].name@;
            assert(fms[j].name == fms[i].name);
        }
        assert(p.field_error_at(fs, i) == model_field_err_at(ds, own, fms, i));
        lemma_scan_corresponds(p, ds, own, fs, fms, i + 1);
    }
}

/// The self-reference scan on the stored fields agrees with the model
/// scan.
proof fn lemma_self_ref_corresponds(name: Seq<char>, fs: Seq<Field>, fms: Seq<FieldModel>, i: int)
    requires
        fields_correspond(fs, fms),
        0 <= i <= fms.len(),
    ensures
        crate::protocol::first_self_ref_from(name, fs, i) == first_model_self_ref_from(
            name,
            fms,
            i,
        ),
    decreases fms.len() - i,
{
    if i < fms.len() {
        lemma_ty_ref(fs[i].ty, fms[i].base, fms[i].is_array);
        lemma_self_ref_corresponds(name, fs, fms, i + 1);
    }
}

/// A successful scan index lies in range and carries a verdict.
proof fn lemma_first_model_err_range(
    ds: Seq<DeclModel>,
    own: Option<Seq<char>>,
    fms: Seq<FieldModel>,
    j: int,
)
    requires
        0 <= j <= fms.len(),
    ensures
        (match first_model_err_from(ds, own, fms, j) {
            Option::Some(i) => j <= i < fms.len() && model_field_err_at(ds, own, fms, i)
                is Some,
            Option::None => true,
        }),
    decreases fms.len() - j,
{
    if j < fms.len() && !(model_field_err_at(ds, own, fms, j) is Some) {
        lemma_first_model_err_range(ds, own, fms, j + 1);
    }
}

/// A successful self-reference scan index lies in range.
proof fn lemma_first_model_self_ref_range(name: Seq<char>, fms: Seq<FieldModel>, j: int)
    requires
        0 <= j <= fms.len(),
    ensures
        (match first_model_self_ref_from(name, fms, j) {
            Option::Some(i) => j <= i < fms.len(),
            Option::None => true,
        }),
    decreases fms.len() - j,
{
    if j < fms.len() && !(!is_primitive(fms[j].base) && fms[j].base == name) {
        lemma_first_model_self_ref_range(name, fms, j + 1);
    }
}

/// A name is a struct declaration of `ds` exactly when it stands among the
/// struct models.
proof fn lemma_struct_models_declared(ds: Seq<DeclModel>, m: Seq<char>)
    ensures
        struct_declared(ds, m) <==> exists|k: int|
            0 <= k < struct_models(ds).len() && #[trigger] struct_models(ds)[k].name == m,
        forall|k: int|
            0 <= k < struct_models(ds).len() ==> #[trigger] struct_models(ds)[k].kind
                == StructType::Struct,
    decreases ds.len(),
{
    if ds.len() > 0 {
        lemma_struct_models_declared(ds.drop_last(), m);
        let ss = struct_models(ds);
        let st = struct_models(ds.drop_last());
        if struct_declared(ds, m) {
            let i = choose|i: int|
                0 <= i < ds.len() && ds[i].kind == StructType::Struct && #[trigger] ds[i].name
                    == m;
            if i < ds.len() - 1 {
                assert(ds.drop_last()[i] == ds[i]);
                assert(struct_declared(ds.drop_last(), m));
                let k = choose|k: int| 0 <= k < st.len() && #[trigger] st[k].name == m;
                assert(ss[k].name == m);
            } else {
                assert(ss[ss.len() - 1].name == m);
            }
        }
        if exists|k: int| 0 <= k < ss.len() && #[trigger] ss[k].name == m {
            let k = choose|k: int| 0 <= k < ss.len() && #[trigger] ss[k].name == m;
            if k < st.len() {
                let i = choose|i: int|
                    0 <= i < ds.drop_last().len() && ds.drop_last()[i].kind == StructType::Struct
                        && #[trigger] ds.drop_last()[i].name == m;
                assert(ds[i] == ds.drop_last()[i]);
                assert(struct_declared(ds, m));
            } else {
                assert(ds.last().kind == StructType::Struct && ds.last().name == m);
                assert(ds[ds.len() - 1].name == m);
                assert(struct_declared(ds, m));
            }
        }
    }
}

/// Appending a declaration extends the struct models by it when it is a
/// struct, else leaves them unchanged.
proof fn lemma_struct_models_push(ds: Seq<DeclModel>, d: DeclModel)
    ensures
        struct_models(ds.push(d)) == struct_models(ds) + (if d.kind == StructType::Struct {
            seq![d]
        } else {
            Seq::<DeclModel>::empty()
        }),
        prots_table(ds.push(d)) == (if d.kind matches StructType::Protocol(_) {
            upsert_prot(prots_table(ds), d)
        } else {
            prots_table(ds)
        }),
{
    assert(ds.push(d).drop_last() =~= ds);
    assert(ds.push(d).last() == d);
    if !(d.kind == StructType::Struct) {
        assert(struct_models(ds) + Seq::<DeclModel>::empty() =~= struct_models(ds));
    }
}

/// No two entries of the protocol table share a name.
pub open spec fn prots_unique(t: Seq<DeclModel>) -> bool {
    forall|k: int, l: int| 0 <= k < l < t.len() ==> t[k].name != t[l].name
}

/// When no entry holds the name, the upsert appends; when the first match
/// stands at `pi`, the upsert replaces it in place.
proof fn lemma_upsert(t: Seq<DeclModel>, d: DeclModel)
    ensures
        (forall|k: int| 0 <= k < t.len() ==> (#[trigger] t[k]).name != d.name) ==> upsert_prot(
            t,
            d,
        ) == t.push(d),
        forall|pi: int|
            (0 <= pi < t.len() && t[pi].name == d.name && (forall|k: int|
                0 <= k < pi ==> (#[trigger] t[k]).name != d.name)) ==> upsert_prot(t, d)
                == #[trigger] t.update(pi, d),
        prots_unique(t) ==> prots_unique(upsert_prot(t, d)),
    decreases t.len(),
{
    if t.len() == 0 {
        assert(upsert_prot(t, d) =~= t.push(d));
    } else if t[0].name == d.name {
        assert(upsert_prot(t, d) =~= t.update(0, d));
        assert forall|pi: int|
            (0 <= pi < t.len() && t[pi].name == d.name && (forall|k: int|
                0 <= k < pi ==> (#[trigger] t[k]).name != d.name)) implies upsert_prot(t, d)
            == #[trigger] t.update(pi, d) by {
            assert(pi == 0);
        }
    } else {
        lemma_upsert(t.drop_first(), d);
        if forall|k: int| 0 <= k < t.len() ==> (#[trigger] t[k]).name != d.name {
            assert(forall|k: int|
                0 <= k < t.drop_first().len() ==> (#[trigger] t.drop_first()[k]).name != d.name);
            assert(upsert_prot(t, d) =~= t.push(d));
        }
        assert forall|pi: int|
            (0 <= pi < t.len() && t[pi].name == d.name && (forall|k: int|
                0 <= k < pi ==> (#[trigger] t[k]).name != d.name)) implies upsert_prot(t, d)
            == #[trigger] t.update(pi, d) by {
            assert(pi > 0);
            assert(t.drop_first()[pi - 1].name == d.name);
            assert(forall|k: int|
                0 <= k < pi - 1 ==> (#[trigger] t.drop_first()[k]).name != d.name);
            assert(upsert_prot(t.drop_first(), d) == t.drop_first().update(pi - 1, d));
            assert(upsert_prot(t, d) =~= t.update(pi, d));
        }
        if prots_unique(t) {
            assert(prots_unique(t.drop_first()));
            let u = upsert_prot(t.drop_first(), d);
            assert forall|k: int, l: int|
                0 <= k < l < upsert_prot(t, d).len() implies upsert_prot(t, d)[k].name
                != upsert_prot(t, d)[l].name by {
                assert(upsert_prot(t, d)[0] == t[0]);
                if k > 0 {
                    assert(upsert_prot(t, d)[k] == u[k - 1]);
                }
                assert(upsert_prot(t, d)[l] == u[l - 1]);
                if k == 0 {
                    lemma_upsert_member(t.drop_first(), d, l - 1);
                }
            }
        }
    }
}

/// Every entry of an upsert result is the inserted declaration or an
/// original entry.
proof fn lemma_upsert_member(t: Seq<DeclModel>, d: DeclModel, k: int)
    requires
        0 <= k < upsert_prot(t, d).len(),
    ensures
        upsert_prot(t, d)[k].name == d.name || (k < t.len() && upsert_prot(t, d)[k].name
            == t[k].name),
    decreases t.len(),
{
    if t.len() == 0 {
    } else if t[0].name == d.name {
    } else {
        if k > 0 {
            lemma_upsert_member(t.drop_first(), d, k - 1);
        }
    }
}

/// The protocol table of any declaration sequence has unique names.
proof fn lemma_prots_table_unique(ds: Seq<DeclModel>)
    ensures
        prots_unique(prots_table(ds)),
    decreases ds.len(),
{
    if ds.len() > 0 {
        lemma_prots_table_unique(ds.drop_last());
        if ds.last().kind matches StructType::Protocol(_) {
            lemma_upsert(prots_table(ds.drop_last()), ds.last());
        }
    }
}

impl ProtocolParser {
    /// Parse a whole protocol description: a sequence of struct and
    /// protocol declarations.  The contract fixes the result against the
    /// text: on success the returned graph holds exactly the declarations
    /// the text makes — names, kinds, directions, spans and fields in
    /// source order, a `[]` suffix as `Array` — and is fully validated
    /// (names unique, references resolved, reference graph acyclic with
    /// the finalize order a topological order of it, responsibility flags
    /// propagated); on failure the diagnostic is exactly the first
    /// violation the reading meets.
    pub fn parse_protocol(file: &str) -> (r: Result<Protocol, Diag>)
        ensures
            (match r {
                Result::Ok(p) => {
                    &&& (read_program(file@, 0, Seq::empty())
                        matches ParseOutcome::POk(ds) && graph_corresponds(p, ds))
                    &&& p.complete()
                    &&& crate::protocol::gen_ready(p)
                },
                Result::Err(d) => read_program(file@, 0, Seq::empty()) == ParseOutcome::PErr(
                    d.kind,
                    d.span,
                ),
            }),
    {
        let n = file.unicode_len();
        let mut pos: usize = 0;
        let mut protocol = Protocol::default();
        let ghost mut models: Seq<DeclModel> = Seq::empty();
        loop
            invariant
                n == file@.len(),
                pos <= n,
                protocol.complete(),
                crate::protocol::gen_ready(protocol),
                graph_corresponds(protocol, models),
                read_program(file@, 0, Seq::empty()) == read_program(file@, pos as int, models),
            decreases n - pos,
        {
            let ghost pos0: int = pos as int;
            skip_ws(file, n, &mut pos);
            if pos >= n {
                proof {
                    assert(read_program(file@, pos0, models) == ParseOutcome::POk(models));
                }
                return Result::Ok(protocol);
            }
            let kw = match read_ident(file, n, &mut pos) {
                Option::Some(t) => t,
                Option::None => {
                    proof {
                        assert(read_program(file@, pos0, models) == ParseOutcome::PErr(
                            DiagKind::SyntaxError,
                            Span { start: pos, end: pos },
                        ));
                    }
                    return Result::Err(
                        Diag::new(DiagKind::SyntaxError, Span { start: pos, end: pos }),
                    );
                },
            };
            let is_struct_kw = str_eq(kw.0.as_str(), "struct");
            let is_protocol_kw = str_eq(kw.0.as_str(), "protocol");
            if is_struct_kw {
                let name_tok = match read_ident_after_ws(file, n, &mut pos) {
                    Option::Some(t) => t,
                    Option::None => {
                        proof {
                            assert(read_program(file@, pos0, models) == ParseOutcome::PErr(
                                DiagKind::SyntaxError,
                                Span { start: pos, end: pos },
                            ));
                        }
                        return Result::Err(
                            Diag::new(DiagKind::SyntaxError, Span { start: pos, end: pos }),
                        );
                    },
                };
                let decl_span = Span { start: kw.1.start, end: name_tok.1.end };
                proof {
                    lemma_struct_models_declared(models, name_tok.0@);
                    assert(protocol.declared(name_tok.0@) <==> struct_declared(
                        models,
                        name_tok.0@,
                    )) by {
                        let ss = struct_models(models);
                        if protocol.declared(name_tok.0@) {
                            let k = choose|k: int|
                                0 <= k < protocol.decls().len() && protocol.decls()[k].name@
                                    == name_tok.0@;
                            assert(ss[k].name == name_tok.0@);
                        }
                        if exists|k: int|
                            0 <= k < ss.len() && #[trigger] ss[k].name == name_tok.0@ {
                            let k = choose|k: int|
                                0 <= k < ss.len() && #[trigger] ss[k].name == name_tok.0@;
                            assert(protocol.decls()[k].name@ == name_tok.0@);
                        }
                    }
                }
                let ghost before_pre = protocol;
                if let Result::Err(d) = protocol.pre_add_struct(
                    name_tok.0.as_str(),
                    StructType::Struct,
                    decl_span,
                ) {
                    proof {
                        assert(read_program(file@, pos0, models) == ParseOutcome::PErr(
                            DiagKind::DuplicateStructName,
                            decl_span,
                        ));
                    }
                    return Result::Err(d);
                }
                proof {
                    let li = protocol.decls().len() - 1;
                    assert(protocol.decls()[li].name@ == name_tok.0@);
                    assert(protocol.declared(name_tok.0@));
                    protocol.lemma_idx(li);
                    assert(protocol.idx_of(name_tok.0@) == li);
                    assert(!protocol.done(name_tok.0@));
                }
                let ghost before_body: int = pos as int;
                let fields = match parse_fields(
                    file,
                    n,
                    &mut pos,
                    StructType::Struct,
                    decl_span,
                ) {
                    Result::Ok(s) => s,
                    Result::Err(d) => {
                        proof {
                            assert(read_program(file@, pos0, models) == ParseOutcome::PErr(
                                d.kind,
                                d.span,
                            ));
                        }
                        return Result::Err(d);
                    },
                };
                let ghost wb: int = ws_end(file@, before_body);
                let ghost body = read_fields_text(file@, wb + 1, Seq::empty());
                proof {
                    assert(body matches ReadFields::RfOk(_, _));
                }
                let ghost fms = body->RfOk_0;
                let ghost p2 = body->RfOk_1;
                proof {
                    // the declared names are the struct models' names plus
                    // this struct's own
                    let ss = struct_models(models);
                    assert(protocol.decls().len() == ss.len() + 1);
                    assert forall|k: int|
                        0 <= k < ss.len() implies (#[trigger] protocol.decls()[k]).name@ == ss[
                        k].name by {
                        assert(protocol.decls().take(ss.len() as int)[k] == protocol.decls()[k]);
                        assert(protocol.decls()[k] == before_pre.decls()[k]);
                    }
                    assert forall|m: Seq<char>| #[trigger]
                        protocol.declared(m) <==> (struct_declared(models, m) || Option::Some(m)
                        == Option::Some(name_tok.0@)) by {
                        lemma_struct_models_declared(models, m);
                        if protocol.declared(m) {
                            let k = choose|k: int|
                                0 <= k < protocol.decls().len() && protocol.decls()[k].name@
                                    == m;
                            if k < protocol.decls().len() - 1 {
                                assert(ss[k].name == m);
                            } else {
                                assert(m == name_tok.0@);
                            }
                        }
                        if struct_declared(models, m) {
                            let k = choose|k: int|
                                0 <= k < ss.len() && #[trigger] ss[k].name == m;
                            assert(protocol.decls()[k].name@ == m);
                        }
                        if m == name_tok.0@ {
                            assert(protocol.decls()[protocol.decls().len() - 1].name@ == m);
                        }
                    }
                    lemma_scan_corresponds(
                        protocol,
                        models,
                        Option::Some(name_tok.0@),
                        fields.spec_fields(),
                        fms,
                        0,
                    );
                    lemma_self_ref_corresponds(name_tok.0@, fields.spec_fields(), fms, 0);
                }
                let ghost before_add = protocol;
                if let Result::Err(d) = protocol.add_struct(name_tok.0.as_str(), fields) {
                    proof {
                        assert(protocol == before_add);
                        lemma_first_model_err_range(models, Option::Some(name_tok.0@), fms, 0);
                        lemma_first_model_self_ref_range(name_tok.0@, fms, 0);
                        match first_model_err_from(models, Option::Some(name_tok.0@), fms, 0) {
                            Option::Some(i) => {
                                assert(0 <= i < fms.len());
                                assert(before_add.first_bad_field(fields.spec_fields())
                                    == Option::Some(i));
                                assert(before_add.field_error_at(fields.spec_fields(), i)
                                    == model_field_err_at(
                                    models,
                                    Option::Some(name_tok.0@),
                                    fms,
                                    i,
                                ));
                                assert(fields.spec_fields()[i].pos == fms[i].pos);
                            },
                            Option::None => {
                                assert(before_add.first_bad_field(fields.spec_fields()) is None);
                                match first_model_self_ref_from(name_tok.0@, fms, 0) {
                                    Option::Some(i) => {
                                        assert(fields.spec_fields()[i].pos == fms[i].pos);
                                    },
                                    Option::None => {
                                        assert(false);
                                    },
                                }
                            },
                        }
                        assert(read_program(file@, pos0, models) == ParseOutcome::PErr(
                            d.kind,
                            d.span,
                        ));
                    }
                    return Result::Err(d);
                }
                proof {
                    let dm = DeclModel {
                        kind: StructType::Struct,
                        name: name_tok.0@,
                        span: decl_span,
                        fields: fms,
                    };
                    lemma_struct_models_push(models, dm);
                    assert(read_program(file@, pos0, models) == read_program(
                        file@,
                        p2,
                        models.push(dm),
                    ));
                    let ghost li = before_add.idx_of(name_tok.0@);
                    assert(li == before_add.decls().len() - 1);
                    assert forall|k: int|
                        0 <= k < struct_models(models.push(dm)).len() implies {
                        &&& (#[trigger] protocol.decls()[k]).name@ == struct_models(
                            models.push(dm),
                        )[k].name
                        &&& protocol.decls()[k].done
                        &&& protocol.decls()[k].st.spec_type() == StructType::Struct
                        &&& protocol.decls()[k].st.spec_pos() == struct_models(
                            models.push(dm),
                        )[k].span
                        &&& fields_correspond(
                            protocol.decls()[k].st.spec_fields(),
                            struct_models(models.push(dm))[k].fields,
                        )
                    } by {
                        if k < struct_models(models).len() {
                            assert(protocol.decls()[k] == before_add.decls()[k]);
                            assert(before_add.decls().take(struct_models(models).len() as int)[k]
                                == before_add.decls()[k]);
                            assert(before_add.decls()[k] == before_pre.decls()[k]);
                            assert(struct_models(models.push(dm))[k] == struct_models(models)[k]);
                        } else {
                            assert(struct_models(models.push(dm))[k] == dm);
                        }
                    }
                    assert forall|k: int|
                        0 <= k < struct_models(models.push(dm)).len() implies #[trigger]
                        protocol.order()[k] == k by {
                        if k < struct_models(models).len() {
                            assert(protocol.order()[k] == before_add.order()[k]);
                            assert(before_pre.order()[k] == k);
                        } else {
                            assert(protocol.order()[k] == li as usize);
                        }
                    }
                    assert(protocol.prots() == before_pre.prots());
                    assert(graph_corresponds(protocol, models.push(dm)));
                    models = models.push(dm);
                    assert(pos as int == p2);
                }
            } else if is_protocol_kw {
                let dir_tok = match read_ident_after_ws(file, n, &mut pos) {
                    Option::Some(t) => t,
                    Option::None => {
                        proof {
                            assert(read_program(file@, pos0, models) == ParseOutcome::PErr(
                                DiagKind::SyntaxError,
                                Span { start: pos, end: pos },
                            ));
                        }
                        return Result::Err(
                            Diag::new(DiagKind::SyntaxError, Span { start: pos, end: pos }),
                        );
                    },
                };
                let ptype = if str_eq(dir_tok.0.as_str(), "c") {
                    ProtocolType::C
                } else if str_eq(dir_tok.0.as_str(), "typst") {
                    ProtocolType::Typst
                } else if str_eq(dir_tok.0.as_str(), "bidirectional") {
                    ProtocolType::Bidirectional
                } else {
                    proof {
                        assert(read_program(file@, pos0, models) == ParseOutcome::PErr(
                            DiagKind::SyntaxError,
                            dir_tok.1,
                        ));
                    }
                    return Result::Err(Diag::new(DiagKind::SyntaxError, dir_tok.1));
                };
                let name_tok = match read_ident_after_ws(file, n, &mut pos) {
                    Option::Some(t) => t,
                    Option::None => {
                        proof {
                            assert(read_program(file@, pos0, models) == ParseOutcome::PErr(
                                DiagKind::SyntaxError,
                                Span { start: pos, end: pos },
                            ));
                        }
                        return Result::Err(
                            Diag::new(DiagKind::SyntaxError, Span { start: pos, end: pos }),
                        );
                    },
                };
                let decl_span = Span { start: kw.1.start, end: name_tok.1.end };
                let ghost before_body: int = pos as int;
                let fields = match parse_fields(
                    file,
                    n,
                    &mut pos,
                    StructType::Protocol(ptype),
                    decl_span,
                ) {
                    Result::Ok(s) => s,
                    Result::Err(d) => {
                        proof {
                            assert(read_program(file@, pos0, models) == ParseOutcome::PErr(
                                d.kind,
                                d.span,
                            ));
                        }
                        return Result::Err(d);
                    },
                };
                let ghost wb: int = ws_end(file@, before_body);
                let ghost body = read_fields_text(file@, wb + 1, Seq::empty());
                proof {
                    assert(body matches ReadFields::RfOk(_, _));
                }
                let ghost fms = body->RfOk_0;
                let ghost p2 = body->RfOk_1;
                proof {
                    assert forall|m: Seq<char>| #[trigger]
                        protocol.declared(m) <==> (struct_declared(models, m) || Option::<
                        Seq<char>,
                    >::None == Option::Some(m)) by {
                        lemma_struct_models_declared(models, m);
                        let ss = struct_models(models);
                        if protocol.declared(m) {
                            let k = choose|k: int|
                                0 <= k < protocol.decls().len() && protocol.decls()[k].name@
                                    == m;
                            assert(ss[k].name == m);
                        }
                        if struct_declared(models, m) {
                            let k = choose|k: int|
                                0 <= k < ss.len() && #[trigger] ss[k].name == m;
                            assert(protocol.decls()[k].name@ == m);
                        }
                    }
                    lemma_scan_corresponds(
                        protocol,
                        models,
                        Option::None,
                        fields.spec_fields(),
                        fms,
                        0,
                    );
                }
                let ghost before_add = protocol;
                if let Result::Err(d) = protocol.add_protocol(name_tok.0.as_str(), fields) {
                    proof {
                        assert(protocol == before_add);
                        assert(before_add.first_bad_field(fields.spec_fields()) is Some);
                        lemma_first_model_err_range(models, Option::None, fms, 0);
                        match first_model_err_from(models, Option::None, fms, 0) {
                            Option::Some(i) => {
                                assert(0 <= i < fms.len());
                                assert(before_add.field_error_at(fields.spec_fields(), i)
                                    == model_field_err_at(models, Option::None, fms, i));
                                assert(fields.spec_fields()[i].pos == fms[i].pos);
                            },
                            Option::None => {
                                assert(false);
                            },
                        }
                        assert(read_program(file@, pos0, models) == ParseOutcome::PErr(
                            d.kind,
                            d.span,
                        ));
                    }
                    return Result::Err(d);
                }
                proof {
                    let dm = DeclModel {
                        kind: StructType::Protocol(ptype),
                        name: name_tok.0@,
                        span: decl_span,
                        fields: fms,
                    };
                    lemma_struct_models_push(models, dm);
                    assert(read_program(file@, pos0, models) == read_program(
                        file@,
                        p2,
                        models.push(dm),
                    ));
                    let ghost told = prots_table(models);
                    lemma_prots_table_unique(models);
                    lemma_upsert(told, dm);
                    if forall|q: int|
                        0 <= q < before_add.prots().len() ==> (#[trigger] before_add.prots()[
                            q]).name@ != name_tok.0@ {
                        assert forall|k: int|
                            0 <= k < told.len() implies (#[trigger] told[k]).name
                            != dm.name by {
                            assert(before_add.prots()[k].name@ == told[k].name);
                        }
                        assert(upsert_prot(told, dm) == told.push(dm));
                        assert(protocol.prots().len() == told.push(dm).len());
                        assert forall|k: int|
                            0 <= k < told.push(dm).len() implies {
                            &&& (#[trigger] protocol.prots()[k]).name@ == told.push(dm)[k].name
                            &&& protocol.prots()[k].st.spec_type() == told.push(dm)[k].kind
                            &&& protocol.prots()[k].st.spec_pos() == told.push(dm)[k].span
                            &&& fields_correspond(
                                protocol.prots()[k].st.spec_fields(),
                                told.push(dm)[k].fields,
                            )
                            &&& protocol.prots()[k].st.encoder == initial_encoder(
                                told.push(dm)[k].kind,
                            )
                            &&& protocol.prots()[k].st.decoder == initial_decoder(
                                told.push(dm)[k].kind,
                            )
                        } by {
                            if k < told.len() {
                                assert(protocol.prots().take(before_add.prots().len() as int)[k]
                                    == protocol.prots()[k]);
                                assert(protocol.prots()[k] == before_add.prots()[k]);
                            }
                        }
                    } else {
                        let pw = choose|pw: int|
                            0 <= pw < before_add.prots().len() && (#[trigger] before_add.prots()[
                                pw]).name@ == name_tok.0@;
                        assert forall|k: int|
                            0 <= k < pw implies (#[trigger] told[k]).name != dm.name by {
                            if told[k].name == dm.name {
                                assert(before_add.prots()[k].name@ == name_tok.0@);
                                assert(told[k].name != told[pw].name);
                            }
                        }
                        assert(told[pw].name == dm.name);
                        assert(upsert_prot(told, dm) == told.update(pw, dm));
                        let pe = choose|pe: int|
                            0 <= pe < before_add.prots().len() && before_add.prots()[pe].name@
                                == name_tok.0@ && (#[trigger] protocol.prots()[pe]).name@
                                == name_tok.0@ && protocol.prots()[pe].st == fields && (forall|
                            q: int|
                            0 <= q < before_add.prots().len() && q != pe
                                ==> protocol.prots()[q] == before_add.prots()[q]);
                        assert(pe == pw) by {
                            if pe != pw {
                                assert(told[pe].name == before_add.prots()[pe].name@);
                                assert(told[pe].name != told[pw].name);
                            }
                        }
                        assert forall|k: int|
                            0 <= k < told.update(pw, dm).len() implies {
                            &&& (#[trigger] protocol.prots()[k]).name@ == told.update(
                                pw,
                                dm,
                            )[k].name
                            &&& protocol.prots()[k].st.spec_type() == told.update(pw, dm)[k].kind
                            &&& protocol.prots()[k].st.spec_pos() == told.update(pw, dm)[k].span
                            &&& fields_correspond(
                                protocol.prots()[k].st.spec_fields(),
                                told.update(pw, dm)[k].fields,
                            )
                            &&& protocol.prots()[k].st.encoder == initial_encoder(
                                told.update(pw, dm)[k].kind,
                            )
                            &&& protocol.prots()[k].st.decoder == initial_decoder(
                                told.update(pw, dm)[k].kind,
                            )
                        } by {
                            if k != pw {
                                assert(protocol.prots()[k] == before_add.prots()[k]);
                            }
                        }
                    }
                    assert(graph_corresponds(protocol, models.push(dm)));
                    models = models.push(dm);
                    assert(pos as int == p2);
                }
            } else {
                proof {
                    assert(read_program(file@, pos0, models) == ParseOutcome::PErr(
                        DiagKind::SyntaxError,
                        kw.1,
                    ));
                }
                return Result::Err(Diag::new(DiagKind::SyntaxError, kw.1));
            }
        }
    }
}

} // verus!