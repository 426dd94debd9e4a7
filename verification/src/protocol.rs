//! The declaration graph: every struct and protocol of one compiled program,
//! with its naming, ordering and responsibility-flag invariants.

use vstd::prelude::*;

use crate::struct_::{Field, ProtocolType, Struct, StructType};
use crate::types::{type_ref, Types};
use crate::{Diag, DiagKind, Span};

verus! {

/// One declared struct slot: its name, its shape, and whether its body has
/// been finalized yet.
pub struct StructEntry {
    pub name: String,
    pub st: Struct,
    pub done: bool,
}

/// One declared protocol entry point.
pub struct ProtocolEntry {
    pub name: String,
    pub st: Struct,
}

/// All the structs and protocols defined in one protocol file.
///
/// Structs live in a name-indexed table (`structs`); `structs_order` keeps,
/// as indices into that table, the order in which struct bodies were
/// finalized, which is the dependency-safe emission order.
pub struct Protocol {
    structs_order: Vec<usize>,
    structs: Vec<StructEntry>,
    protocols: Vec<ProtocolEntry>,
}

impl Protocol {
    /// The declared struct slots, in declaration order.
    pub closed spec fn decls(self) -> Seq<StructEntry> {
        self.structs@
    }

    /// The finalize order, as indices into `decls`.
    pub closed spec fn order(self) -> Seq<usize> {
        self.structs_order@
    }

    /// The declared protocol entry points, in declaration order.
    pub closed spec fn prots(self) -> Seq<ProtocolEntry> {
        self.protocols@
    }

    /// Is some struct slot declared under this name?
    pub open spec fn declared(self, n: Seq<char>) -> bool {
        exists|i: int| 0 <= i < self.decls().len() && self.decls()[i].name@ == n
    }

    /// The slot index of a declared name.
    pub open spec fn idx_of(self, n: Seq<char>) -> int {
        choose|i: int| 0 <= i < self.decls().len() && self.decls()[i].name@ == n
    }

    /// Is this name declared and its body finalized?
    pub open spec fn done(self, n: Seq<char>) -> bool {
        self.declared(n) && self.decls()[self.idx_of(n)].done
    }

    /// No two struct slots share a name.
    pub open spec fn names_unique(self) -> bool {
        forall|i: int, j: int|
            0 <= i < j < self.decls().len() ==> self.decls()[i].name@ != self.decls()[j].name@
    }

    /// `structs_order` holds valid, distinct indices, and marks exactly the
    /// finalized slots.
    pub open spec fn order_ok(self) -> bool {
        &&& forall|k: int| 0 <= k < self.order().len() ==> self.order()[k] < self.decls().len()
        &&& forall|k: int, l: int|
            0 <= k < l < self.order().len() ==> self.order()[k] != self.order()[l]
        &&& forall|i: int|
            0 <= i < self.decls().len() ==> (self.decls()[i].done <==> exists|k: int|
                0 <= k < self.order().len() && self.order()[k] == i)
    }

    /// Every struct reference in a finalized body names a declared slot, and
    /// an unfinalized slot has an empty body.
    pub open spec fn refs_declared(self) -> bool {
        &&& forall|i: int, f: int|
            #![trigger self.decls()[i].st.spec_fields()[f]]
            0 <= i < self.decls().len() && self.decls()[i].done && 0 <= f
                < self.decls()[i].st.spec_fields().len() ==> (match type_ref(
                self.decls()[i].st.spec_fields()[f].ty,
            ) {
                Option::Some(n) => self.declared(n),
                Option::None => true,
            })
        &&& forall|i: int|
            #![trigger self.decls()[i]]
            0 <= i < self.decls().len() && !self.decls()[i].done
                ==> self.decls()[i].st.spec_fields().len() == 0
    }

    /// Responsibility flags are downward closed: whatever a struct must
    /// encode or decode, every struct it references must too.
    pub open spec fn flags_closed(self) -> bool {
        forall|i: int, j: int, f: int|
            #![trigger self.decls()[i].st.spec_fields()[f], self.decls()[j].name]
            0 <= i < self.decls().len() && 0 <= j < self.decls().len() && 0 <= f
                < self.decls()[i].st.spec_fields().len() && type_ref(
                self.decls()[i].st.spec_fields()[f].ty,
            ) == Option::Some(self.decls()[j].name@) ==> {
                &&& (self.decls()[i].st.encoder ==> self.decls()[j].st.encoder)
                &&& (self.decls()[i].st.decoder ==> self.decls()[j].st.decoder)
            }
    }

    /// The well-formedness every `Protocol` operation preserves.
    pub open spec fn wf(self) -> bool {
        &&& self.names_unique()
        &&& self.order_ok()
        &&& self.refs_declared()
        &&& self.flags_closed()
    }

    /// Every struct reference of the `k`-th finalized struct names a struct
    /// finalized strictly earlier: `structs_order` is a topological order of
    /// the struct-reference graph.
    pub open spec fn ordered(self) -> bool {
        forall|k: int, f: int|
            #![trigger self.decls()[self.order()[k] as int].st.spec_fields()[f]]
            0 <= k < self.order().len() && 0 <= f < self.decls()[self.order()[k] as int]
                .st.spec_fields().len() ==> (match type_ref(
                self.decls()[self.order()[k] as int].st.spec_fields()[f].ty,
            ) {
                Option::Some(n) => exists|l: int|
                    0 <= l < k && self.decls()[self.order()[l] as int].name@ == n,
                Option::None => true,
            })
    }

    /// Every declared slot has been finalized.
    pub open spec fn saturated(self) -> bool {
        forall|i: int| 0 <= i < self.decls().len() ==> self.decls()[i].done
    }

    /// Every declared slot but (possibly) `n` has been finalized.
    pub open spec fn saturated_except(self, n: Seq<char>) -> bool {
        forall|i: int|
            0 <= i < self.decls().len() ==> (self.decls()[i].done || self.decls()[i].name@ == n)
    }

    /// The state a finished, valid build is in.
    pub open spec fn complete(self) -> bool {
        self.wf() && self.ordered() && self.saturated()
    }

    /// The position of slot `i` in the finalize order.
    pub open spec fn order_pos(self, i: int) -> int {
        choose|k: int| 0 <= k < self.order().len() && self.order()[k] == i
    }

    /// The validation verdict for the `i`-th of `fields`, checked in order:
    /// first a reference to an undeclared struct, then a repeated field name.
    pub open spec fn field_error_at(self, fields: Seq<Field>, i: int) -> Option<DiagKind> {
        match type_ref(fields[i].ty) {
            Option::Some(n) => if !self.declared(n) {
                Option::Some(DiagKind::UnknownStructReference)
            } else {
                self.dup_at(fields, i)
            },
            Option::None => self.dup_at(fields, i),
        }
    }

    /// Does the `i`-th field name repeat an earlier one?
    pub open spec fn dup_at(self, fields: Seq<Field>, i: int) -> Option<DiagKind> {
        if exists|j: int| 0 <= j < i && fields[j].name@ == fields[i].name@ {
            Option::Some(DiagKind::DuplicateFieldName)
        } else {
            Option::None
        }
    }

    /// The first field (from `i` on) that fails validation.
    pub open spec fn first_bad_field_from(self, fields: Seq<Field>, i: int) -> Option<int>
        decreases fields.len() - i,
    {
        if i >= fields.len() {
            Option::None
        } else if self.field_error_at(fields, i) is Some {
            Option::Some(i)
        } else {
            self.first_bad_field_from(fields, i + 1)
        }
    }

    /// The first field of `fields` that fails validation, if any.
    pub open spec fn first_bad_field(self, fields: Seq<Field>) -> Option<int> {
        self.first_bad_field_from(fields, 0)
    }

    proof fn lemma_first_bad_none(self, fields: Seq<Field>, i: int)
        requires
            0 <= i <= fields.len(),
            forall|j: int| i <= j < fields.len() ==> self.field_error_at(fields, j) is None,
        ensures
            self.first_bad_field_from(fields, i) is None,
        decreases fields.len() - i,
    {
        if i < fields.len() {
            self.lemma_first_bad_none(fields, i + 1);
        }
    }

    proof fn lemma_first_bad_some(self, fields: Seq<Field>, i: int, k: int)
        requires
            0 <= i <= k < fields.len(),
            forall|j: int| i <= j < k ==> self.field_error_at(fields, j) is None,
            self.field_error_at(fields, k) is Some,
        ensures
            self.first_bad_field_from(fields, i) == Option::Some(k),
        decreases k - i,
    {
        if i < k {
            self.lemma_first_bad_some(fields, i + 1, k);
        }
    }

    /// Does the `f`-th field reference a slot on the ancestor stack?
    pub open spec fn hit_at(self, fields: Seq<Field>, parents: Seq<usize>, f: int) -> bool {
        match type_ref(fields[f].ty) {
            Option::Some(n) => self.declared(n) && parents.contains(self.idx_of(n) as usize),
            Option::None => false,
        }
    }

    /// The first field (from `f` on) that references a slot on the stack.
    pub open spec fn first_hit_from(
        self,
        fields: Seq<Field>,
        parents: Seq<usize>,
        f: int,
    ) -> Option<int>
        decreases fields.len() - f,
    {
        if f >= fields.len() {
            Option::None
        } else if self.hit_at(fields, parents, f) {
            Option::Some(f)
        } else {
            self.first_hit_from(fields, parents, f + 1)
        }
    }

    /// The first field of `fields` that references a slot on the stack.
    pub open spec fn first_hit(self, fields: Seq<Field>, parents: Seq<usize>) -> Option<int> {
        self.first_hit_from(fields, parents, 0)
    }

    proof fn lemma_first_hit_none(self, fields: Seq<Field>, parents: Seq<usize>, f: int)
        requires
            0 <= f <= fields.len(),
            forall|g: int| f <= g < fields.len() ==> !self.hit_at(fields, parents, g),
        ensures
            self.first_hit_from(fields, parents, f) is None,
        decreases fields.len() - f,
    {
        if f < fields.len() {
            self.lemma_first_hit_none(fields, parents, f + 1);
        }
    }

    proof fn lemma_first_hit_some(self, fields: Seq<Field>, parents: Seq<usize>, f: int, k: int)
        requires
            0 <= f <= k < fields.len(),
            forall|g: int| f <= g < k ==> !self.hit_at(fields, parents, g),
            self.hit_at(fields, parents, k),
        ensures
            self.first_hit_from(fields, parents, f) == Option::Some(k),
        decreases k - f,
    {
        if f < k {
            self.lemma_first_hit_some(fields, parents, f + 1, k);
        }
    }

    /// With a single-slot stack, a stack hit is exactly a reference back to
    /// that slot's own name.
    proof fn lemma_first_hit_single(self, name: Seq<char>, fields: Seq<Field>, idx: usize, f: int)
        requires
            self.names_unique(),
            0 <= idx < self.decls().len(),
            self.decls()[idx as int].name@ == name,
            0 <= f <= fields.len(),
        ensures
            self.first_hit_from(fields, seq![idx], f) == first_self_ref_from(name, fields, f),
        decreases fields.len() - f,
    {
        let parents = seq![idx];
        assert(parents.len() == 1 && parents[0] == idx);
        if f < fields.len() {
            match type_ref(fields[f].ty) {
                Option::Some(n) => {
                    if self.hit_at(fields, parents, f) {
                        let k = choose|k: int|
                            0 <= k < parents.len() && parents[k] == self.idx_of(n) as usize;
                        assert(0 <= self.idx_of(n) < self.decls().len());
                        vstd::std_specs::vec::axiom_spec_len(&self.structs);
                        assert(self.decls().len() <= usize::MAX);
                        assert(self.idx_of(n) == idx as int);
                        assert(self.decls()[self.idx_of(n)].name@ == n);
                        assert(n == name);
                    }
                    if n == name {
                        assert(self.declared(name));
                        self.lemma_idx(idx as int);
                        assert(self.idx_of(n) == idx as int);
                        assert(parents.contains(idx));
                        assert(self.hit_at(fields, parents, f));
                    }
                },
                Option::None => {},
            }
            self.lemma_first_hit_single(name, fields, idx, f + 1);
        }
    }

    /// With unique names, a slot's name resolves back to that slot.
    pub proof fn lemma_idx(self, j: int)
        requires
            self.names_unique(),
            0 <= j < self.decls().len(),
        ensures
            self.declared(self.decls()[j].name@),
            self.idx_of(self.decls()[j].name@) == j,
    {
        let n = self.decls()[j].name@;
        assert(self.declared(n));
        let w = self.idx_of(n);
        if w != j {
            if w < j {
                assert(self.decls()[w].name@ != self.decls()[j].name@);
            } else {
                assert(self.decls()[j].name@ != self.decls()[w].name@);
            }
        }
    }

    /// With distinct order entries, an order position resolves back.
    proof fn lemma_pos(self, k: int)
        requires
            self.order_ok(),
            0 <= k < self.order().len(),
        ensures
            self.order_pos(self.order()[k] as int) == k,
    {
        let i = self.order()[k] as int;
        let w = self.order_pos(i);
        assert(0 <= w < self.order().len() && self.order()[w] == i);
        if w != k {
            if w < k {
                assert(self.order()[w] != self.order()[k]);
            } else {
                assert(self.order()[k] != self.order()[w]);
            }
        }
    }

    /// The shape the ancestor stack has along a normal build: the graph is
    /// ordered; every reference of the shape under scrutiny either names a
    /// struct finalized below position `b` or names an unfinalized slot on
    /// the stack itself; and every ancestor either is an unfinalized slot
    /// or sits at position `b` or later.  In this shape the only cycle the
    /// depth-first walk can find is a direct reference back onto the stack.
    pub open spec fn cycle_check_scope(self, s: Struct, parents: Seq<usize>, b: int) -> bool {
        &&& self.ordered()
        &&& forall|f: int|
            #![trigger s.spec_fields()[f]]
            0 <= f < s.spec_fields().len() ==> (match type_ref(s.spec_fields()[f].ty) {
                Option::Some(n) => self.declared(n) && ((self.done(n) && self.order_pos(
                    self.idx_of(n),
                ) < b) || (parents.contains(self.idx_of(n) as usize) && !self.decls()[self.idx_of(
                    n,
                )].done)),
                Option::None => true,
            })
        &&& forall|k: int|
            #![trigger parents[k]]
            0 <= k < parents.len() ==> (!self.decls()[parents[k] as int].done || self.order_pos(
                parents[k] as int,
            ) >= b)
    }

    /// Check for circular dependencies among the struct references of a
    /// shape, carrying the ancestor stack as slot indices.
    fn check_circular_dependencies(
        &self,
        struct_: &Struct,
        parents: &mut Vec<usize>,
        b: Ghost<int>,
    ) -> (r: Result<(), Diag>)
        requires
            self.wf(),
            forall|k: int| 0 <= k < old(parents)@.len() ==> old(parents)@[k] < self.decls().len(),
            old(parents)@.no_duplicates(),
        ensures
            final(parents)@ == old(parents)@,
            r is Err ==> r->Err_0.kind == DiagKind::CircularDependency,
            r is Ok ==> forall|f: int|
                #![trigger struct_.spec_fields()[f]]
                0 <= f < struct_.spec_fields().len() ==> (match type_ref(
                    struct_.spec_fields()[f].ty,
                ) {
                    Option::Some(n) => self.declared(n) ==> !old(parents)@.contains(
                        self.idx_of(n) as usize,
                    ),
                    Option::None => true,
                }),
            self.cycle_check_scope(*struct_, old(parents)@, b@) ==> (match self.first_hit(
                struct_.spec_fields(),
                old(parents)@,
            ) {
                Option::Some(i) => r matches Result::Err(d) && d.kind
                    == DiagKind::CircularDependency && d.span == struct_.spec_fields()[i].pos,
                Option::None => r is Ok,
            }),
        decreases self.decls().len() - old(parents)@.len(),
    {
        proof {
            lemma_distinct_bounded_len(parents@, self.decls().len());
        }
        let ghost scope = self.cycle_check_scope(*struct_, old(parents)@, b@);
        let fields = struct_.fields();
        let mut f: usize = 0;
        while f < fields.len()
            invariant
                self.wf(),
                parents@ == old(parents)@,
                forall|k: int| 0 <= k < parents@.len() ==> parents@[k] < self.decls().len(),
                parents@.no_duplicates(),
                fields@ == struct_.spec_fields(),
                0 <= f <= fields.len(),
                scope == self.cycle_check_scope(*struct_, old(parents)@, b@),
                forall|g: int|
                    #![trigger struct_.spec_fields()[g]]
                    0 <= g < f ==> (match type_ref(struct_.spec_fields()[g].ty) {
                        Option::Some(n) => self.declared(n) ==> !old(parents)@.contains(
                            self.idx_of(n) as usize,
                        ),
                        Option::None => true,
                    }),
            decreases fields.len() - f,
        {
            if let Option::Some(rn) = fields[f].ty.struct_ref() {
                if let Option::Some(j) = self.find_struct(rn.as_str()) {
                    proof {
                        self.lemma_idx(j as int);
                    }
                    if contains_idx(parents, j) {
                        proof {
                            if scope {
                                // this is the first field that references the
                                // stack, so the diagnostic carries its span
                                assert(self.hit_at(
                                    struct_.spec_fields(),
                                    old(parents)@,
                                    f as int,
                                ));
                                assert forall|g: int|
                                    0 <= g < f implies !self.hit_at(
                                    struct_.spec_fields(),
                                    old(parents)@,
                                    g,
                                ) by {
                                    assert(match type_ref(struct_.spec_fields()[g].ty) {
                                        Option::Some(n) => self.declared(n)
                                            ==> !old(parents)@.contains(self.idx_of(n) as usize),
                                        Option::None => true,
                                    });
                                }
                                self.lemma_first_hit_some(
                                    struct_.spec_fields(),
                                    old(parents)@,
                                    0,
                                    f as int,
                                );
                            }
                        }
                        return Result::Err(
                            Diag::new(DiagKind::CircularDependency, fields[f].pos),
                        );
                    }
                    let ghost q: int = self.order_pos(j as int);
                    parents.push(j);
                    proof {
                        if scope {
                            assert(self.idx_of(rn@) == j);
                            assert(self.done(rn@));
                            assert(self.decls()[j as int].done);
                            assert(exists|k: int|
                                0 <= k < self.order().len() && self.order()[k] == j);
                            assert(0 <= q < self.order().len() && self.order()[q] == j);
                            assert forall|f2: int|
                                #![trigger self.decls()[j as int].st.spec_fields()[f2]]
                                0 <= f2 < self.decls()[j as int].st.spec_fields().len() implies (
                            match type_ref(self.decls()[j as int].st.spec_fields()[f2].ty) {
                                Option::Some(n2) => self.done(n2) && self.order_pos(
                                    self.idx_of(n2),
                                ) < q,
                                Option::None => true,
                            }) by {
                                assert(match type_ref(
                                    self.decls()[self.order()[q] as int].st.spec_fields()[f2].ty,
                                ) {
                                    Option::Some(n2) => exists|l: int|
                                        0 <= l < q && self.decls()[self.order()[l] as int].name@
                                            == n2,
                                    Option::None => true,
                                });
                                match type_ref(self.decls()[j as int].st.spec_fields()[f2].ty) {
                                    Option::Some(n2) => {
                                        let l = choose|l: int|
                                            0 <= l < q && self.decls()[self.order()[l] as int]
                                                .name@ == n2;
                                        self.lemma_idx(self.order()[l] as int);
                                        self.lemma_pos(l);
                                        assert(self.done(n2));
                                        assert(self.order_pos(self.idx_of(n2)) == l);
                                    },
                                    Option::None => {},
                                }
                            }
                            assert forall|f2: int|
                                0 <= f2 < self.decls()[j as int].st.spec_fields().len()
                                    implies !self.hit_at(
                                self.decls()[j as int].st.spec_fields(),
                                parents@,
                                f2,
                            ) by {
                                match type_ref(self.decls()[j as int].st.spec_fields()[f2].ty) {
                                    Option::Some(n2) => {
                                        if self.declared(n2) && parents@.contains(
                                            self.idx_of(n2) as usize,
                                        ) {
                                            let k2 = choose|k2: int|
                                                0 <= k2 < parents@.len() && parents@[k2]
                                                    == self.idx_of(n2) as usize;
                                            assert(self.decls()[self.idx_of(n2)].done);
                                            assert(self.order_pos(self.idx_of(n2)) < q);
                                            assert(false);
                                        }
                                    },
                                    Option::None => {},
                                }
                            }
                            self.lemma_first_hit_none(
                                self.decls()[j as int].st.spec_fields(),
                                parents@,
                                0,
                            );
                            assert(self.cycle_check_scope(
                                self.decls()[j as int].st,
                                parents@,
                                q,
                            ));
                        }
                        lemma_distinct_bounded_len(parents@, self.decls().len());
                    }
                    let rec = self.check_circular_dependencies(
                        &self.structs[j].st,
                        parents,
                        Ghost(q),
                    );
                    parents.pop();
                    proof {
                        assert(parents@ =~= old(parents)@);
                    }
                    if let Result::Err(e) = rec {
                        proof {
                            if scope {
                                assert(false);
                            }
                        }
                        return Result::Err(e);
                    }
                }
            }
            f += 1;
        }
        proof {
            if scope {
                assert forall|g: int|
                    0 <= g < struct_.spec_fields().len() implies !self.hit_at(
                    struct_.spec_fields(),
                    old(parents)@,
                    g,
                ) by {
                    assert(match type_ref(struct_.spec_fields()[g].ty) {
                        Option::Some(n) => self.declared(n) ==> !old(parents)@.contains(
                            self.idx_of(n) as usize,
                        ),
                        Option::None => true,
                    });
                }
                self.lemma_first_hit_none(struct_.spec_fields(), old(parents)@, 0);
            }
        }
        Result::Ok(())
    }

    /// Finalizes a declared struct's body: checks each field for a reference
    /// to an undeclared struct and for a repeated field name, runs the
    /// depth-first cycle check, and on success appends the struct to the
    /// finalize order.
    pub fn add_struct(&mut self, name: &str, struct_: Struct) -> (r: Result<(), Diag>)
        requires
            old(self).wf(),
            old(self).declared(name@),
            !old(self).done(name@),
            old(self).decls()[old(self).idx_of(name@)].st.encoder == false,
            old(self).decls()[old(self).idx_of(name@)].st.decoder == false,
            struct_.encoder == false,
            struct_.decoder == false,
        ensures
            final(self).wf(),
            match r {
                Result::Ok(()) => {
                    &&& old(self).first_bad_field(struct_.spec_fields()) is None
                    &&& forall|f: int|
                        #![trigger struct_.spec_fields()[f]]
                        0 <= f < struct_.spec_fields().len() ==> (match type_ref(
                            struct_.spec_fields()[f].ty,
                        ) {
                            Option::Some(n) => n != name@ && old(self).declared(n),
                            Option::None => true,
                        })
                    &&& final(self).decls().len() == old(self).decls().len()
                    &&& forall|i: int|
                        0 <= i < old(self).decls().len() && i != old(self).idx_of(name@)
                            ==> final(self).decls()[i] == old(self).decls()[i]
                    &&& final(self).decls()[old(self).idx_of(name@)].name@ == name@
                    &&& final(self).decls()[old(self).idx_of(name@)].done
                    &&& final(self).decls()[old(self).idx_of(name@)].st == struct_
                    &&& final(self).order() == old(self).order().push(
                        old(self).idx_of(name@) as usize,
                    )
                    &&& final(self).prots() == old(self).prots()
                    &&& (old(self).ordered() && old(self).saturated_except(name@)
                        ==> final(self).ordered() && final(self).saturated())
                },
                Result::Err(d) => {
                    &&& *final(self) == *old(self)
                    &&& (match old(self).first_bad_field(struct_.spec_fields()) {
                        Option::Some(i) => old(self).field_error_at(struct_.spec_fields(), i)
                            == Option::Some(d.kind) && d.span == struct_.spec_fields()[i].pos,
                        Option::None => d.kind == DiagKind::CircularDependency,
                    })
                },
            },
            (old(self).ordered() && old(self).saturated_except(name@) && old(self).first_bad_field(
                struct_.spec_fields(),
            ) is None && (forall|f: int|
                #![trigger struct_.spec_fields()[f]]
                0 <= f < struct_.spec_fields().len() ==> type_ref(struct_.spec_fields()[f].ty)
                    != Option::Some(name@))) ==> r is Ok,
            (old(self).ordered() && old(self).saturated_except(name@) && old(self).first_bad_field(
                struct_.spec_fields(),
            ) is None) ==> (match first_self_ref(name@, struct_.spec_fields()) {
                Option::Some(i) => r matches Result::Err(d) && d.kind
                    == DiagKind::CircularDependency && d.span == struct_.spec_fields()[i].pos,
                Option::None => r is Ok,
            }),
            (gen_ready(*old(self)) && crate::struct_::fields_no_nested_array(
                struct_.spec_fields(),
            )) ==> gen_ready(*final(self)),
    {
        let idx = self.find_struct(name).unwrap();
        proof {
            self.lemma_idx(idx as int);
        }
        let fields = struct_.fields();
        let mut f: usize = 0;
        while f < fields.len()
            invariant
                *self == *old(self),
                self.wf(),
                self.declared(name@),
                0 <= idx < self.decls().len(),
                self.decls()[idx as int].name@ == name@,
                fields@ == struct_.spec_fields(),
                0 <= f <= fields.len(),
                forall|g: int|
                    0 <= g < f ==> self.field_error_at(struct_.spec_fields(), g) is None,
            decreases fields.len() - f,
        {
            if let Option::Some(rn) = fields[f].ty.struct_ref() {
                if self.find_struct(rn.as_str()).is_none() {
                    proof {
                        assert(self.field_error_at(struct_.spec_fields(), f as int)
                            == Option::Some(DiagKind::UnknownStructReference));
                        self.lemma_first_bad_some(struct_.spec_fields(), 0, f as int);
                    }
                    return Result::Err(
                        Diag::new(DiagKind::UnknownStructReference, fields[f].pos),
                    );
                }
            }
            let mut g: usize = 0;
            while g < f
                invariant
                    *self == *old(self),
                    self.wf(),
                    self.declared(name@),
                    0 <= idx < self.decls().len(),
                    self.decls()[idx as int].name@ == name@,
                    fields@ == struct_.spec_fields(),
                    0 <= g <= f < fields.len(),
                    forall|h2: int|
                        0 <= h2 < f ==> self.field_error_at(struct_.spec_fields(), h2) is None,
                    (match type_ref(struct_.spec_fields()[f as int].ty) {
                        Option::Some(n) => self.declared(n),
                        Option::None => true,
                    }),
                    forall|h: int|
                        0 <= h < g ==> struct_.spec_fields()[h].name@ != struct_.spec_fields()[
                            f as int].name@,
                decreases f - g,
            {
                if crate::types::str_eq(fields[g].name.as_str(), fields[f].name.as_str()) {
                    proof {
                        assert(self.field_error_at(struct_.spec_fields(), f as int)
                            == Option::Some(DiagKind::DuplicateFieldName));
                        self.lemma_first_bad_some(struct_.spec_fields(), 0, f as int);
                    }
                    return Result::Err(Diag::new(DiagKind::DuplicateFieldName, fields[f].pos));
                }
                g += 1;
            }
            f += 1;
        }
        proof {
            self.lemma_first_bad_none(struct_.spec_fields(), 0);
        }
        let mut parents: Vec<usize> = Vec::new();
        parents.push(idx);
        let ghost b: int = self.order().len() as int;
        proof {
            if self.ordered() && self.saturated_except(name@) {
                assert forall|f2: int|
                    #![trigger struct_.spec_fields()[f2]]
                    0 <= f2 < struct_.spec_fields().len() implies (match type_ref(
                    struct_.spec_fields()[f2].ty,
                ) {
                    Option::Some(n) => self.declared(n) && ((self.done(n) && self.order_pos(
                        self.idx_of(n),
                    ) < b) || (parents@.contains(self.idx_of(n) as usize) && !self.decls()[
                        self.idx_of(n)].done)),
                    Option::None => true,
                }) by {
                    assert(self.field_error_at(struct_.spec_fields(), f2) is None);
                    match type_ref(struct_.spec_fields()[f2].ty) {
                        Option::Some(n) => {
                            assert(self.declared(n));
                            let w = self.idx_of(n);
                            assert(self.decls()[w].name@ == n);
                            assert(self.decls()[w].done || self.decls()[w].name@ == name@);
                            if n == name@ {
                                assert(self.idx_of(n) == idx as int);
                                assert(parents@[0] == idx);
                                assert(parents@.contains(idx));
                                assert(!self.decls()[idx as int].done);
                            } else {
                                assert(self.decls()[w].done);
                                let kw = choose|k: int|
                                    0 <= k < self.order().len() && self.order()[k] == w;
                                assert(0 <= self.order_pos(w) < self.order().len());
                            }
                        },
                        Option::None => {},
                    }
                }
                assert(!self.decls()[idx as int].done);
                assert(self.cycle_check_scope(struct_, parents@, b));
            }
        }
        let rc = self.check_circular_dependencies(&struct_, &mut parents, Ghost(b));
        if let Result::Err(e) = rc {
            proof {
                if self.ordered() && self.saturated_except(name@) {
                    self.lemma_first_hit_single(name@, struct_.spec_fields(), idx, 0);
                    assert(seq![idx] =~= parents@);
                    if forall|f2: int|
                        #![trigger struct_.spec_fields()[f2]]
                        0 <= f2 < struct_.spec_fields().len() ==> type_ref(
                            struct_.spec_fields()[f2].ty,
                        ) != Option::Some(name@) {
                        lemma_first_self_ref_none(name@, struct_.spec_fields(), 0);
                        assert(false);
                    }
                }
            }
            return Result::Err(e);
        }
        proof {
            if self.ordered() && self.saturated_except(name@) {
                self.lemma_first_hit_single(name@, struct_.spec_fields(), idx, 0);
                assert(seq![idx] =~= parents@);
            }
        }
        proof {
            // the cycle check passed: no field references this struct itself
            assert forall|f2: int|
                #![trigger struct_.spec_fields()[f2]]
                0 <= f2 < struct_.spec_fields().len() implies (match type_ref(
                struct_.spec_fields()[f2].ty,
            ) {
                Option::Some(n) => n != name@ && self.declared(n),
                Option::None => true,
            }) by {
                match type_ref(struct_.spec_fields()[f2].ty) {
                    Option::Some(n) => {
                        assert(self.field_error_at(struct_.spec_fields(), f2) is None);
                        assert(self.declared(n));
                        if n == name@ {
                            assert(self.idx_of(n) == idx as int);
                            assert(parents@[0] == idx);
                            assert(parents@.contains(idx));
                            assert(false);
                        }
                    },
                    Option::None => {},
                }
            }
        }
        let ghost pre = *self;
        self.structs[idx].st = struct_;
        self.structs[idx].done = true;
        self.structs_order.push(idx);
        proof {
            self.lemma_add_struct_commit(pre, name@, idx);
            if gen_ready(pre) && crate::struct_::fields_no_nested_array(struct_.spec_fields()) {
                assert forall|i: int|
                    0 <= i < self.decls().len() implies crate::struct_::fields_no_nested_array(
                    #[trigger] self.decls()[i].st.spec_fields(),
                ) by {
                    if i != idx {
                        assert(self.decls()[i] == pre.decls()[i]);
                    }
                }
                assert(gen_ready(*self));
            }
        }
        Result::Ok(())
    }

    /// After committing a finalized body, well-formedness and (along the
    /// normal build path) orderedness are preserved.
    proof fn lemma_add_struct_commit(self, pre: Protocol, name: Seq<char>, idx: usize)
        requires
            pre.wf(),
            0 <= idx < pre.decls().len(),
            pre.decls()[idx as int].name@ == name,
            !pre.decls()[idx as int].done,
            pre.decls()[idx as int].st.encoder == false,
            pre.decls()[idx as int].st.decoder == false,
            self.decls().len() == pre.decls().len(),
            forall|i: int| 0 <= i < pre.decls().len() && i != idx ==> self.decls()[i]
                == pre.decls()[i],
            self.decls()[idx as int].name@ == name,
            self.decls()[idx as int].done,
            self.decls()[idx as int].st.encoder == false,
            self.decls()[idx as int].st.decoder == false,
            forall|f: int|
                #![trigger self.decls()[idx as int].st.spec_fields()[f]]
                0 <= f < self.decls()[idx as int].st.spec_fields().len() ==> (match type_ref(
                    self.decls()[idx as int].st.spec_fields()[f].ty,
                ) {
                    Option::Some(n) => n != name && pre.declared(n),
                    Option::None => true,
                }),
            self.order() == pre.order().push(idx as usize),
            self.prots() == pre.prots(),
        ensures
            self.wf(),
            pre.idx_of(name) == idx as int,
            pre.ordered() && pre.saturated_except(name) ==> self.ordered() && self.saturated(),
    {
        pre.lemma_idx(idx as int);
        assert(forall|i: int|
            0 <= i < self.decls().len() ==> self.decls()[i].name@ == pre.decls()[i].name@);
        assert forall|n: Seq<char>| pre.declared(n) implies self.declared(n) by {
            let w = choose|i: int| 0 <= i < pre.decls().len() && pre.decls()[i].name@ == n;
            assert(self.decls()[w].name@ == n);
        }
        // the freshly finalized slot was not in the order before
        assert(!(exists|k: int|
            0 <= k < pre.order().len() && pre.order()[k] == idx as usize));
        // order_ok
        assert(self.order().len() == pre.order().len() + 1);
        assert(self.order()[pre.order().len() as int] == idx as usize);
        assert forall|i: int|
            0 <= i < self.decls().len() implies (self.decls()[i].done <==> exists|k: int|
            0 <= k < self.order().len() && self.order()[k] == i) by {
            if i == idx {
                assert(self.order()[self.order().len() - 1] == idx as usize);
            } else {
                if self.decls()[i].done {
                    let k = choose|k: int|
                        0 <= k < pre.order().len() && pre.order()[k] == i;
                    assert(self.order()[k] == i);
                } else {
                    if exists|k: int|
                        0 <= k < self.order().len() && self.order()[k] == i {
                        let k = choose|k: int|
                            0 <= k < self.order().len() && self.order()[k] == i;
                        if k == pre.order().len() {
                            assert(self.order()[k] == idx as usize);
                        }
                        assert(k < pre.order().len());
                        assert(pre.order()[k] == i);
                        assert(pre.decls()[i].done);
                    }
                }
            }
        }
        assert(self.order_ok());
        // flags_closed: edges into the finalized slot carried no flags before
        assert forall|i: int, j: int, f: int|
            #![trigger self.decls()[i].st.spec_fields()[f], self.decls()[j].name]
            0 <= i < self.decls().len() && 0 <= j < self.decls().len() && 0 <= f < self.decls()[
                i].st.spec_fields().len() && type_ref(self.decls()[i].st.spec_fields()[f].ty)
                == Option::Some(self.decls()[j].name@) implies {
            &&& (self.decls()[i].st.encoder ==> self.decls()[j].st.encoder)
            &&& (self.decls()[i].st.decoder ==> self.decls()[j].st.decoder)
        } by {
            if i != idx {
                assert(pre.decls()[i].st.spec_fields()[f] == self.decls()[i].st.spec_fields()[f]);
                if j == idx {
                    assert(pre.decls()[j].st.encoder == false && pre.decls()[j].st.decoder
                        == false);
                    assert(!pre.decls()[i].st.encoder && !pre.decls()[i].st.decoder);
                }
            }
        }
        assert(self.flags_closed());
        // refs_declared
        assert forall|i: int, f: int|
            #![trigger self.decls()[i].st.spec_fields()[f]]
            0 <= i < self.decls().len() && self.decls()[i].done && 0 <= f < self.decls()[
                i].st.spec_fields().len() implies (match type_ref(
            self.decls()[i].st.spec_fields()[f].ty,
        ) {
            Option::Some(n) => self.declared(n),
            Option::None => true,
        }) by {
            if i != idx {
                assert(pre.decls()[i].st.spec_fields()[f] == self.decls()[i].st.spec_fields()[f]);
            }
        }
        assert(self.refs_declared());
        assert(self.wf());
        // orderedness along the normal build path
        if pre.ordered() && pre.saturated_except(name) {
            assert forall|k: int, f: int|
                #![trigger self.decls()[self.order()[k] as int].st.spec_fields()[f]]
                0 <= k < self.order().len() && 0 <= f < self.decls()[self.order()[k] as int]
                    .st.spec_fields().len() implies (match type_ref(
                self.decls()[self.order()[k] as int].st.spec_fields()[f].ty,
            ) {
                Option::Some(n) => exists|l: int|
                    0 <= l < k && self.decls()[self.order()[l] as int].name@ == n,
                Option::None => true,
            }) by {
                if k < pre.order().len() {
                    assert(self.order()[k] == pre.order()[k]);
                    assert(pre.order()[k] != idx);
                    let i = pre.order()[k] as int;
                    assert(self.decls()[i] == pre.decls()[i]);
                    assert(match type_ref(pre.decls()[pre.order()[k] as int].st.spec_fields()[
                        f].ty) {
                        Option::Some(n) => exists|l: int|
                            0 <= l < k && pre.decls()[pre.order()[l] as int].name@ == n,
                        Option::None => true,
                    });
                    match type_ref(self.decls()[self.order()[k] as int].st.spec_fields()[f].ty) {
                        Option::Some(n) => {
                            let l = choose|l: int|
                                0 <= l < k && pre.decls()[pre.order()[l] as int].name@ == n;
                            assert(self.decls()[self.order()[l] as int].name@ == n);
                        },
                        Option::None => {},
                    }
                } else {
                    assert(self.order()[k] == idx as usize);
                    match type_ref(self.decls()[idx as int].st.spec_fields()[f].ty) {
                        Option::Some(n) => {
                            let w = pre.idx_of(n);
                            assert(pre.decls()[w].name@ == n);
                            assert(pre.decls()[w].done || pre.decls()[w].name@ == name);
                            assert(pre.decls()[w].done);
                            let l = choose|l2: int|
                                0 <= l2 < pre.order().len() && pre.order()[l2] == w;
                            assert(self.decls()[self.order()[l] as int].name@ == n);
                        },
                        Option::None => {},
                    }
                }
            }
            assert(self.ordered());
            assert forall|i: int| 0 <= i < self.decls().len() implies self.decls()[i].done by {
                if i != idx {
                    assert(pre.decls()[i].done || pre.decls()[i].name@ == name);
                    if pre.decls()[i].name@ == name {
                        if i < idx {
                            assert(pre.decls()[i].name@ != pre.decls()[idx as int].name@);
                        } else {
                            assert(pre.decls()[idx as int].name@ != pre.decls()[i].name@);
                        }
                    }
                }
            }
            assert(self.saturated());
        }
    }

    /// Slot `i`'s fields hold a struct reference to slot `j`.
    pub open spec fn edge(self, i: int, j: int) -> bool {
        &&& 0 <= i < self.decls().len()
        &&& 0 <= j < self.decls().len()
        &&& exists|f: int|
            0 <= f < self.decls()[i].st.spec_fields().len() && type_ref(
                #[trigger] self.decls()[i].st.spec_fields()[f].ty,
            ) == Option::Some(self.decls()[j].name@)
    }

    /// Slot `j` is reachable from slot `i` through one or more reference
    /// edges, along a path of at most `k + 1` edges.
    pub open spec fn reaches_within(self, i: int, j: int, k: nat) -> bool
        decreases k,
    {
        self.edge(i, j) || (k > 0 && exists|m: int|
            #[trigger] self.edge(i, m) && self.reaches_within(m, j, (k - 1) as nat))
    }

    /// Slot `j` is reachable from slot `i` through one or more reference
    /// edges.  With an acyclic graph, paths never repeat a slot, so fuel
    /// equal to the number of slots loses nothing.
    pub open spec fn reaches(self, i: int, j: int) -> bool {
        self.reaches_within(i, j, self.decls().len())
    }

    /// More fuel reaches no less.
    proof fn lemma_reach_mono(self, i: int, j: int, k1: nat, k2: nat)
        requires
            self.reaches_within(i, j, k1),
            k1 <= k2,
        ensures
            self.reaches_within(i, j, k2),
        decreases k1,
    {
        if !self.edge(i, j) {
            let m = choose|m: int| self.edge(i, m) && self.reaches_within(m, j, (k1 - 1) as nat);
            self.lemma_reach_mono(m, j, (k1 - 1) as nat, (k2 - 1) as nat);
        }
    }

    /// A reachable slot is a valid index.
    proof fn lemma_reach_target(self, i: int, j: int, k: nat)
        requires
            self.reaches_within(i, j, k),
        ensures
            0 <= j < self.decls().len(),
            0 <= i < self.decls().len(),
        decreases k,
    {
        if !self.edge(i, j) {
            let m = choose|m: int| self.edge(i, m) && self.reaches_within(m, j, (k - 1) as nat);
            self.lemma_reach_target(m, j, (k - 1) as nat);
        }
    }

    /// A path may be extended by one edge at its end.
    proof fn lemma_reach_append(self, i: int, x: int, j: int, k: nat)
        requires
            self.reaches_within(i, x, k),
            self.edge(x, j),
        ensures
            self.reaches_within(i, j, k + 1),
        decreases k,
    {
        if self.edge(i, x) {
            self.lemma_reach_mono(x, j, 0, k);
            assert(self.reaches_within(i, j, k + 1));
        } else {
            let m = choose|m: int| self.edge(i, m) && self.reaches_within(m, x, (k - 1) as nat);
            self.lemma_reach_append(m, x, j, (k - 1) as nat);
            assert(self.reaches_within(i, j, k + 1));
        }
    }

    /// In an ordered graph, every reference edge goes to a strictly earlier
    /// position in the finalize order.
    proof fn lemma_edge_pos(self, i: int, j: int)
        requires
            self.names_unique(),
            self.order_ok(),
            self.ordered(),
            self.saturated(),
            self.edge(i, j),
        ensures
            0 <= self.order_pos(j) < self.order_pos(i) < self.order().len(),
            self.order()[self.order_pos(i)] == i,
            self.order()[self.order_pos(j)] == j,
    {
        let ki = choose|k: int| 0 <= k < self.order().len() && self.order()[k] == i;
        let kj = choose|k: int| 0 <= k < self.order().len() && self.order()[k] == j;
        self.lemma_pos(ki);
        self.lemma_pos(kj);
        assert(self.order_pos(i) == ki);
        assert(self.order_pos(j) == kj);
        let f = choose|f: int|
            0 <= f < self.decls()[i].st.spec_fields().len() && type_ref(
                self.decls()[i].st.spec_fields()[f].ty,
            ) == Option::Some(self.decls()[j].name@);
        assert(self.decls()[self.order()[ki] as int].st.spec_fields()[f]
            == self.decls()[i].st.spec_fields()[f]);
        let l = choose|l: int|
            0 <= l < ki && self.decls()[self.order()[l] as int].name@ == self.decls()[j].name@;
        self.lemma_idx(self.order()[l] as int);
        self.lemma_idx(j);
        assert(self.order()[l] == j);
        self.lemma_pos(l);
    }

    /// In an ordered graph, reachability within any fuel holds within fuel
    /// equal to the number of slots.
    proof fn lemma_reach_bound(self, i: int, j: int, k: nat)
        requires
            self.names_unique(),
            self.order_ok(),
            self.ordered(),
            self.saturated(),
            self.reaches_within(i, j, k),
        ensures
            self.reaches(i, j),
        decreases k,
    {
        self.lemma_reach_depth(i, j, k);
        self.lemma_pos_bound();
        self.lemma_reach_target(i, j, k);
        let ki = choose|k0: int| 0 <= k0 < self.order().len() && self.order()[k0] == i;
        self.lemma_pos(ki);
        self.lemma_reach_mono(i, j, self.order_pos(i) as nat, self.decls().len());
    }

    /// In an ordered graph, a path from `i` needs no more fuel than `i`'s
    /// position in the finalize order.
    proof fn lemma_reach_depth(self, i: int, j: int, k: nat)
        requires
            self.names_unique(),
            self.order_ok(),
            self.ordered(),
            self.saturated(),
            self.reaches_within(i, j, k),
        ensures
            self.reaches_within(i, j, self.order_pos(i) as nat),
            self.order_pos(i) >= 0,
        decreases self.order_pos(i), k,
    {
        if self.edge(i, j) {
            self.lemma_edge_pos(i, j);
            self.lemma_reach_mono(i, j, 0, self.order_pos(i) as nat);
        } else {
            let m = choose|m: int| self.edge(i, m) && self.reaches_within(m, j, (k - 1) as nat);
            self.lemma_edge_pos(i, m);
            self.lemma_reach_depth(m, j, (k - 1) as nat);
            assert(self.reaches_within(m, j, self.order_pos(m) as nat));
            self.lemma_reach_mono(m, j, self.order_pos(m) as nat, (self.order_pos(i) - 1) as nat);
            assert(self.reaches_within(i, j, self.order_pos(i) as nat));
        }
    }

    /// Order positions are bounded by the number of slots.
    proof fn lemma_pos_bound(self)
        requires
            self.order_ok(),
        ensures
            self.order().len() <= self.decls().len(),
    {
        lemma_distinct_bounded_len(self.order(), self.decls().len());
    }

    /// With downward-closed flags, a flag on a slot is on everything the
    /// slot reaches.
    proof fn lemma_flags_reach(self, i: int, j: int, k: nat)
        requires
            self.flags_closed(),
            self.reaches_within(i, j, k),
        ensures
            self.decls()[i].st.encoder ==> self.decls()[j].st.encoder,
            self.decls()[i].st.decoder ==> self.decls()[j].st.decoder,
        decreases k,
    {
        if self.edge(i, j) {
            let f = choose|f: int|
                0 <= f < self.decls()[i].st.spec_fields().len() && type_ref(
                    self.decls()[i].st.spec_fields()[f].ty,
                ) == Option::Some(self.decls()[j].name@);
            assert(self.decls()[i].st.spec_fields()[f] == self.decls()[i].st.spec_fields()[f]);
        } else {
            let m = choose|m: int| self.edge(i, m) && self.reaches_within(m, j, (k - 1) as nat);
            let f = choose|f: int|
                0 <= f < self.decls()[i].st.spec_fields().len() && type_ref(
                    self.decls()[i].st.spec_fields()[f].ty,
                ) == Option::Some(self.decls()[m].name@);
            assert(self.decls()[i].st.spec_fields()[f] == self.decls()[i].st.spec_fields()[f]);
            self.lemma_flags_reach(m, j, (k - 1) as nat);
        }
    }

    /// Two protocol states carry the same reference graph: the same slots,
    /// names and field lists (flags may differ).
    pub open spec fn same_graph(self, other: Protocol) -> bool {
        &&& self.decls().len() == other.decls().len()
        &&& forall|i: int|
            #![trigger other.decls()[i]]
            0 <= i < self.decls().len() ==> {
                &&& self.decls()[i].name@ == other.decls()[i].name@
                &&& self.decls()[i].st.spec_fields() == other.decls()[i].st.spec_fields()
            }
    }

    /// Reachability only reads the graph, so it transfers between states
    /// with the same graph.
    proof fn lemma_reach_transfer(self, other: Protocol, i: int, j: int, k: nat)
        requires
            self.same_graph(other),
            self.reaches_within(i, j, k),
        ensures
            other.reaches_within(i, j, k),
        decreases k,
    {
        if self.edge(i, j) {
            let f = choose|f: int|
                0 <= f < self.decls()[i].st.spec_fields().len() && type_ref(
                    self.decls()[i].st.spec_fields()[f].ty,
                ) == Option::Some(self.decls()[j].name@);
            assert(type_ref(other.decls()[i].st.spec_fields()[f].ty) == Option::Some(
                other.decls()[j].name@,
            ));
            assert(other.edge(i, j));
        } else {
            let m = choose|m: int| self.edge(i, m) && self.reaches_within(m, j, (k - 1) as nat);
            let f = choose|f: int|
                0 <= f < self.decls()[i].st.spec_fields().len() && type_ref(
                    self.decls()[i].st.spec_fields()[f].ty,
                ) == Option::Some(self.decls()[m].name@);
            assert(type_ref(other.decls()[i].st.spec_fields()[f].ty) == Option::Some(
                other.decls()[m].name@,
            ));
            assert(other.edge(i, m));
            self.lemma_reach_transfer(other, m, j, (k - 1) as nat);
            assert(other.reaches_within(i, j, k));
        }
    }

    /// Propagate the responsibility flags down the reference graph until
    /// they are downward closed, sweeping the finalize order from the most
    /// recently finalized struct backwards; since every reference edge goes
    /// to an earlier position, one sweep closes the flags completely: a
    /// struct ends up flagged exactly when it was flagged before or some
    /// flagged struct reaches it.
    #[verifier::rlimit(80)]
    fn update_children_encoding_type(&mut self)
        requires
            old(self).names_unique(),
            old(self).order_ok(),
            old(self).refs_declared(),
            old(self).ordered(),
            old(self).saturated(),
        ensures
            final(self).decls().len() == old(self).decls().len(),
            forall|i: int|
                #![trigger final(self).decls()[i]]
                0 <= i < old(self).decls().len() ==> {
                    &&& final(self).decls()[i].name == old(self).decls()[i].name
                    &&& final(self).decls()[i].done == old(self).decls()[i].done
                    &&& final(self).decls()[i].st.spec_fields() == old(self).decls()[
                        i].st.spec_fields()
                    &&& final(self).decls()[i].st.spec_type() == old(self).decls()[
                        i].st.spec_type()
                    &&& final(self).decls()[i].st.spec_pos() == old(self).decls()[i].st.spec_pos()
                },
            final(self).order() == old(self).order(),
            final(self).prots() == old(self).prots(),
            forall|j: int|
                #![trigger final(self).decls()[j].st]
                0 <= j < old(self).decls().len() ==> {
                    &&& (final(self).decls()[j].st.encoder <==> (old(self).decls()[j].st.encoder
                        || exists|u: int|
                        0 <= u < old(self).decls().len() && old(self).decls()[u].st.encoder
                            && old(self).reaches(u, j)))
                    &&& (final(self).decls()[j].st.decoder <==> (old(self).decls()[j].st.decoder
                        || exists|u: int|
                        0 <= u < old(self).decls().len() && old(self).decls()[u].st.decoder
                            && old(self).reaches(u, j)))
                },
            final(self).flags_closed(),
            old(self).names_unique() ==> final(self).names_unique(),
            old(self).order_ok() ==> final(self).order_ok(),
            old(self).refs_declared() ==> final(self).refs_declared(),
            old(self).ordered() ==> final(self).ordered(),
            old(self).saturated() ==> final(self).saturated(),
    {
        let ghost o = *old(self);
        let n = self.structs_order.len();
        let mut k: usize = n;
        while k > 0
            invariant
                o.names_unique(),
                o.order_ok(),
                o.refs_declared(),
                o.ordered(),
                o.saturated(),
                n == o.order().len(),
                0 <= k <= n,
                self.decls().len() == o.decls().len(),
                self.order() == o.order(),
                self.prots() == o.prots(),
                forall|i: int|
                    #![trigger self.decls()[i]]
                    0 <= i < o.decls().len() ==> {
                        &&& self.decls()[i].name == o.decls()[i].name
                        &&& self.decls()[i].done == o.decls()[i].done
                        &&& self.decls()[i].st.spec_fields() == o.decls()[i].st.spec_fields()
                        &&& self.decls()[i].st.spec_type() == o.decls()[i].st.spec_type()
                        &&& self.decls()[i].st.spec_pos() == o.decls()[i].st.spec_pos()
                    },
                // flags only grow
                forall|j: int|
                    #![trigger self.decls()[j].st]
                    0 <= j < o.decls().len() ==> {
                        &&& (o.decls()[j].st.encoder ==> self.decls()[j].st.encoder)
                        &&& (o.decls()[j].st.decoder ==> self.decls()[j].st.decoder)
                    },
                // processed positions are closed
                forall|p: int, j: int|
                    #![trigger o.order()[p], self.decls()[j].st]
                    k <= p < n && 0 <= j < o.decls().len() && o.edge(
                        o.order()[p] as int,
                        j,
                    ) ==> {
                        &&& (self.decls()[o.order()[p] as int].st.encoder ==> self.decls()[
                            j].st.encoder)
                        &&& (self.decls()[o.order()[p] as int].st.decoder ==> self.decls()[
                            j].st.decoder)
                    },
                // no flag appears without a flagged source reaching it
                forall|j: int|
                    #![trigger self.decls()[j].st]
                    0 <= j < o.decls().len() ==> {
                        &&& (self.decls()[j].st.encoder ==> (o.decls()[j].st.encoder || exists|
                            u: int|
                            0 <= u < o.decls().len() && o.decls()[u].st.encoder && o.reaches(
                                u,
                                j,
                            )))
                        &&& (self.decls()[j].st.decoder ==> (o.decls()[j].st.decoder || exists|
                            u: int|
                            0 <= u < o.decls().len() && o.decls()[u].st.decoder && o.reaches(
                                u,
                                j,
                            )))
                    },
            decreases k,
        {
            k -= 1;
            let xi = self.structs_order[k];
            let e = self.structs[xi].st.encoder;
            let d = self.structs[xi].st.decoder;
            let nf = self.structs[xi].st.fields.len();
            let ghost inner0 = *self;
            let mut f: usize = 0;
            while f < nf
                invariant
                    o.names_unique(),
                    o.order_ok(),
                    o.refs_declared(),
                    o.ordered(),
                    o.saturated(),
                    n == o.order().len(),
                    0 <= k < n,
                    xi == o.order()[k as int],
                    xi < o.decls().len(),
                    nf == o.decls()[xi as int].st.spec_fields().len(),
                    0 <= f <= nf,
                    e == self.decls()[xi as int].st.encoder,
                    d == self.decls()[xi as int].st.decoder,
                    self.decls().len() == o.decls().len(),
                    self.order() == o.order(),
                    self.prots() == o.prots(),
                    forall|i: int|
                        #![trigger self.decls()[i]]
                        0 <= i < o.decls().len() ==> {
                            &&& self.decls()[i].name == o.decls()[i].name
                            &&& self.decls()[i].done == o.decls()[i].done
                            &&& self.decls()[i].st.spec_fields() == o.decls()[i].st.spec_fields()
                            &&& self.decls()[i].st.spec_type() == o.decls()[i].st.spec_type()
                            &&& self.decls()[i].st.spec_pos() == o.decls()[i].st.spec_pos()
                        },
                    forall|j: int|
                        #![trigger self.decls()[j].st]
                        0 <= j < o.decls().len() ==> {
                            &&& (inner0.decls()[j].st.encoder ==> self.decls()[j].st.encoder)
                            &&& (inner0.decls()[j].st.decoder ==> self.decls()[j].st.decoder)
                            &&& (o.decls()[j].st.encoder ==> self.decls()[j].st.encoder)
                            &&& (o.decls()[j].st.decoder ==> self.decls()[j].st.decoder)
                        },
                    // only flag additions justified by an edge from xi
                    forall|j: int|
                        #![trigger self.decls()[j].st]
                        0 <= j < o.decls().len() ==> {
                            &&& (self.decls()[j].st.encoder ==> (inner0.decls()[j].st.encoder || (
                            e && o.edge(xi as int, j))))
                            &&& (self.decls()[j].st.decoder ==> (inner0.decls()[j].st.decoder || (
                            d && o.edge(xi as int, j))))
                        },
                    // processed positions stay closed
                    forall|p: int, j: int|
                        #![trigger o.order()[p], self.decls()[j].st]
                        k + 1 <= p < n && 0 <= j < o.decls().len() && o.edge(
                            o.order()[p] as int,
                            j,
                        ) ==> {
                            &&& (self.decls()[o.order()[p] as int].st.encoder ==> self.decls()[
                                j].st.encoder)
                            &&& (self.decls()[o.order()[p] as int].st.decoder ==> self.decls()[
                                j].st.decoder)
                        },
                    // fields seen so far have their targets flagged
                    forall|g: int|
                        #![trigger o.decls()[xi as int].st.spec_fields()[g]]
                        0 <= g < f ==> (match type_ref(
                            o.decls()[xi as int].st.spec_fields()[g].ty,
                        ) {
                            Option::Some(nm) => {
                                &&& (e ==> self.decls()[o.idx_of(nm)].st.encoder)
                                &&& (d ==> self.decls()[o.idx_of(nm)].st.decoder)
                            },
                            Option::None => true,
                        }),
                    // soundness
                    forall|j: int|
                        #![trigger self.decls()[j].st]
                        0 <= j < o.decls().len() ==> {
                            &&& (self.decls()[j].st.encoder ==> (o.decls()[j].st.encoder || exists|
                                u: int|
                                0 <= u < o.decls().len() && o.decls()[u].st.encoder && o.reaches(
                                    u,
                                    j,
                                )))
                            &&& (self.decls()[j].st.decoder ==> (o.decls()[j].st.decoder || exists|
                                u: int|
                                0 <= u < o.decls().len() && o.decls()[u].st.decoder && o.reaches(
                                    u,
                                    j,
                                )))
                        },
                decreases nf - f,
            {
                let g_opt = match self.structs[xi].st.fields[f].ty.struct_ref() {
                    Option::Some(rn) => self.find_struct(rn.as_str()),
                    Option::None => Option::None,
                };
                if let Option::Some(g) = g_opt {
                    proof {
                        self.lemma_idx(g as int);
                        assert(o.decls()[g as int].name@ == self.decls()[g as int].name@);
                        assert(o.idx_of(
                            match type_ref(o.decls()[xi as int].st.spec_fields()[f as int].ty) {
                                Option::Some(nm) => nm,
                                Option::None => Seq::empty(),
                            },
                        ) == g as int) by {
                            o.lemma_idx(g as int);
                        }
                        assert(o.edge(xi as int, g as int));
                        o.lemma_edge_pos(xi as int, g as int);
                        assert(o.order_pos(g as int) < k);
                        assert(g != xi);
                        assert forall|p: int|
                            k + 1 <= p < n implies o.order()[p] != g by {
                            o.lemma_pos(p);
                        }
                    }
                    let ge = self.structs[g].st.encoder;
                    self.structs[g].st.encoder = ge || e;
                    let gd = self.structs[g].st.decoder;
                    self.structs[g].st.decoder = gd || d;
                    proof {
                        // the new flags on g are justified: xi reaches g
                        if e || d {
                            assert(o.reaches_within(xi as int, g as int, 0));
                            o.lemma_reach_mono(xi as int, g as int, 0, o.decls().len());
                        }
                        if e && !ge {
                            if o.decls()[xi as int].st.encoder {
                                assert(o.reaches(xi as int, g as int));
                            } else {
                                let u = choose|u: int|
                                    0 <= u < o.decls().len() && o.decls()[u].st.encoder
                                        && o.reaches(u, xi as int);
                                o.lemma_reach_append(u, xi as int, g as int, o.decls().len());
                                o.lemma_reach_bound(u, g as int, o.decls().len() + 1);
                            }
                        }
                        if d && !gd {
                            if o.decls()[xi as int].st.decoder {
                                assert(o.reaches(xi as int, g as int));
                            } else {
                                let u = choose|u: int|
                                    0 <= u < o.decls().len() && o.decls()[u].st.decoder
                                        && o.reaches(u, xi as int);
                                o.lemma_reach_append(u, xi as int, g as int, o.decls().len());
                                o.lemma_reach_bound(u, g as int, o.decls().len() + 1);
                            }
                        }
                    }
                }
                f += 1;
            }
            proof {
                // position k is now closed: every edge target of xi holds
                // xi's flags
                assert forall|j: int|
                    0 <= j < o.decls().len() && o.edge(xi as int, j) implies {
                    &&& (self.decls()[xi as int].st.encoder ==> self.decls()[j].st.encoder)
                    &&& (self.decls()[xi as int].st.decoder ==> self.decls()[j].st.decoder)
                } by {
                    let fw = choose|fw: int|
                        0 <= fw < o.decls()[xi as int].st.spec_fields().len() && type_ref(
                            o.decls()[xi as int].st.spec_fields()[fw].ty,
                        ) == Option::Some(o.decls()[j].name@);
                    o.lemma_idx(j);
                }
            }
        }
        proof {
            self.lemma_sweep_finish(o);
        }
    }

    /// Structure is preserved by the sweep, so the non-flag parts of
    /// well-formedness carry over.
    proof fn lemma_sweep_wf(self, o: Protocol)
        requires
            o.names_unique(),
            o.order_ok(),
            o.refs_declared(),
            o.ordered(),
            o.saturated(),
            self.decls().len() == o.decls().len(),
            self.order() == o.order(),
            forall|i: int|
                #![trigger self.decls()[i]]
                0 <= i < o.decls().len() ==> {
                    &&& self.decls()[i].name == o.decls()[i].name
                    &&& self.decls()[i].done == o.decls()[i].done
                    &&& self.decls()[i].st.spec_fields() == o.decls()[i].st.spec_fields()
                },
        ensures
            self.names_unique(),
            self.order_ok(),
            self.refs_declared(),
            self.ordered(),
            self.saturated(),
    {
        let fin = self;
        assert(forall|i: int|
            0 <= i < fin.decls().len() ==> fin.decls()[i].name@ == o.decls()[i].name@);
        assert(fin.names_unique());
        assert forall|i: int|
            0 <= i < fin.decls().len() implies (fin.decls()[i].done <==> exists|k0: int|
            0 <= k0 < fin.order().len() && fin.order()[k0] == i) by {
            assert(fin.decls()[i].done == o.decls()[i].done);
        }
        assert(fin.order_ok());
        assert forall|i: int, f2: int|
            #![trigger fin.decls()[i].st.spec_fields()[f2]]
            0 <= i < fin.decls().len() && fin.decls()[i].done && 0 <= f2 < fin.decls()[
                i].st.spec_fields().len() implies (match type_ref(
            fin.decls()[i].st.spec_fields()[f2].ty,
        ) {
            Option::Some(nm) => fin.declared(nm),
            Option::None => true,
        }) by {
            assert(fin.decls()[i].st.spec_fields() == o.decls()[i].st.spec_fields());
            match type_ref(o.decls()[i].st.spec_fields()[f2].ty) {
                Option::Some(nm) => {
                    assert(o.declared(nm));
                    let w = choose|w: int| 0 <= w < o.decls().len() && o.decls()[w].name@ == nm;
                    assert(fin.decls()[w].name@ == nm);
                },
                Option::None => {},
            }
        }
        assert forall|i: int|
            #![trigger fin.decls()[i]]
            0 <= i < fin.decls().len() && !fin.decls()[i].done implies fin.decls()[
            i].st.spec_fields().len() == 0 by {
            assert(o.decls()[i].done == fin.decls()[i].done);
        }
        assert(fin.refs_declared());
        assert forall|k2: int, f2: int|
            #![trigger fin.decls()[fin.order()[k2] as int].st.spec_fields()[f2]]
            0 <= k2 < fin.order().len() && 0 <= f2 < fin.decls()[fin.order()[k2] as int]
                .st.spec_fields().len() implies (match type_ref(
            fin.decls()[fin.order()[k2] as int].st.spec_fields()[f2].ty,
        ) {
            Option::Some(nm) => exists|l: int|
                0 <= l < k2 && fin.decls()[fin.order()[l] as int].name@ == nm,
            Option::None => true,
        }) by {
            let i = fin.order()[k2] as int;
            assert(fin.decls()[i].st.spec_fields() == o.decls()[i].st.spec_fields());
            assert(match type_ref(o.decls()[o.order()[k2] as int].st.spec_fields()[f2].ty) {
                Option::Some(nm) => exists|l: int|
                    0 <= l < k2 && o.decls()[o.order()[l] as int].name@ == nm,
                Option::None => true,
            });
            match type_ref(fin.decls()[fin.order()[k2] as int].st.spec_fields()[f2].ty) {
                Option::Some(nm) => {
                    let l = choose|l: int|
                        0 <= l < k2 && o.decls()[o.order()[l] as int].name@ == nm;
                    assert(fin.decls()[fin.order()[l] as int].name@ == nm);
                },
                Option::None => {},
            }
        }
        assert(fin.ordered());
    }

    /// Once every position has been processed the flags are downward
    /// closed.
    proof fn lemma_sweep_closed(self, o: Protocol)
        requires
            o.names_unique(),
            o.order_ok(),
            o.saturated(),
            self.decls().len() == o.decls().len(),
            self.order() == o.order(),
            forall|i: int|
                #![trigger self.decls()[i]]
                0 <= i < o.decls().len() ==> {
                    &&& self.decls()[i].name == o.decls()[i].name
                    &&& self.decls()[i].st.spec_fields() == o.decls()[i].st.spec_fields()
                },
            forall|p: int, j: int|
                #![trigger o.order()[p], self.decls()[j].st]
                0 <= p < o.order().len() && 0 <= j < o.decls().len() && o.edge(
                    o.order()[p] as int,
                    j,
                ) ==> {
                    &&& (self.decls()[o.order()[p] as int].st.encoder ==> self.decls()[
                        j].st.encoder)
                    &&& (self.decls()[o.order()[p] as int].st.decoder ==> self.decls()[
                        j].st.decoder)
                },
        ensures
            self.flags_closed(),
    {
        let fin = self;
        assert forall|i: int, j: int, f: int|
            #![trigger fin.decls()[i].st.spec_fields()[f], fin.decls()[j].name]
            0 <= i < fin.decls().len() && 0 <= j < fin.decls().len() && 0 <= f < fin.decls()[
                i].st.spec_fields().len() && type_ref(fin.decls()[i].st.spec_fields()[f].ty)
                == Option::Some(fin.decls()[j].name@) implies {
            &&& (fin.decls()[i].st.encoder ==> fin.decls()[j].st.encoder)
            &&& (fin.decls()[i].st.decoder ==> fin.decls()[j].st.decoder)
        } by {
            assert(type_ref(o.decls()[i].st.spec_fields()[f].ty) == Option::Some(
                o.decls()[j].name@,
            ));
            assert(o.edge(i, j));
            let ki = choose|k0: int| 0 <= k0 < o.order().len() && o.order()[k0] == i;
            assert(o.order()[ki] == i);
        }
    }

    /// At the end of the sweep the flags are exactly the downward closure
    /// of the flags the sweep started from.
    proof fn lemma_sweep_finish(self, o: Protocol)
        requires
            o.names_unique(),
            o.order_ok(),
            o.refs_declared(),
            o.ordered(),
            o.saturated(),
            self.decls().len() == o.decls().len(),
            self.order() == o.order(),
            self.prots() == o.prots(),
            forall|i: int|
                #![trigger self.decls()[i]]
                0 <= i < o.decls().len() ==> {
                    &&& self.decls()[i].name == o.decls()[i].name
                    &&& self.decls()[i].done == o.decls()[i].done
                    &&& self.decls()[i].st.spec_fields() == o.decls()[i].st.spec_fields()
                    &&& self.decls()[i].st.spec_type() == o.decls()[i].st.spec_type()
                    &&& self.decls()[i].st.spec_pos() == o.decls()[i].st.spec_pos()
                },
            forall|j: int|
                #![trigger self.decls()[j].st]
                0 <= j < o.decls().len() ==> {
                    &&& (o.decls()[j].st.encoder ==> self.decls()[j].st.encoder)
                    &&& (o.decls()[j].st.decoder ==> self.decls()[j].st.decoder)
                },
            forall|p: int, j: int|
                #![trigger o.order()[p], self.decls()[j].st]
                0 <= p < o.order().len() && 0 <= j < o.decls().len() && o.edge(
                    o.order()[p] as int,
                    j,
                ) ==> {
                    &&& (self.decls()[o.order()[p] as int].st.encoder ==> self.decls()[
                        j].st.encoder)
                    &&& (self.decls()[o.order()[p] as int].st.decoder ==> self.decls()[
                        j].st.decoder)
                },
            forall|j: int|
                #![trigger self.decls()[j].st]
                0 <= j < o.decls().len() ==> {
                    &&& (self.decls()[j].st.encoder ==> (o.decls()[j].st.encoder || exists|
                        u: int|
                        0 <= u < o.decls().len() && o.decls()[u].st.encoder && o.reaches(u, j)))
                    &&& (self.decls()[j].st.decoder ==> (o.decls()[j].st.decoder || exists|
                        u: int|
                        0 <= u < o.decls().len() && o.decls()[u].st.decoder && o.reaches(u, j)))
                },
        ensures
            self.flags_closed(),
            forall|j: int|
                #![trigger self.decls()[j].st]
                0 <= j < o.decls().len() ==> {
                    &&& (self.decls()[j].st.encoder <==> (o.decls()[j].st.encoder || exists|
                        u: int|
                        0 <= u < o.decls().len() && o.decls()[u].st.encoder && o.reaches(u, j)))
                    &&& (self.decls()[j].st.decoder <==> (o.decls()[j].st.decoder || exists|
                        u: int|
                        0 <= u < o.decls().len() && o.decls()[u].st.decoder && o.reaches(u, j)))
                },
            self.names_unique(),
            self.order_ok(),
            self.refs_declared(),
            self.ordered(),
            self.saturated(),
    {
        let fin = self;
        self.lemma_sweep_wf(o);
        self.lemma_sweep_closed(o);
        assert forall|j: int|
            #![trigger fin.decls()[j].st]
            0 <= j < o.decls().len() implies {
            &&& ((o.decls()[j].st.encoder || exists|u: int|
                0 <= u < o.decls().len() && o.decls()[u].st.encoder && o.reaches(u, j))
                ==> fin.decls()[j].st.encoder)
            &&& ((o.decls()[j].st.decoder || exists|u: int|
                0 <= u < o.decls().len() && o.decls()[u].st.decoder && o.reaches(u, j))
                ==> fin.decls()[j].st.decoder)
        } by {
            if exists|u: int|
                0 <= u < o.decls().len() && o.decls()[u].st.encoder && o.reaches(u, j) {
                let u = choose|u: int|
                    0 <= u < o.decls().len() && o.decls()[u].st.encoder && o.reaches(u, j);
                o.lemma_reach_transfer(fin, u, j, o.decls().len());
                fin.lemma_flags_reach(u, j, o.decls().len());
            }
            if exists|u: int|
                0 <= u < o.decls().len() && o.decls()[u].st.decoder && o.reaches(u, j) {
                let u = choose|u: int|
                    0 <= u < o.decls().len() && o.decls()[u].st.decoder && o.reaches(u, j);
                o.lemma_reach_transfer(fin, u, j, o.decls().len());
                fin.lemma_flags_reach(u, j, o.decls().len());
            }
        }
    }

    /// Some field of `fields` references slot `j` directly, or references a
    /// struct that reaches `j`.
    pub open spec fn hit_from(self, fields: Seq<Field>, j: int) -> bool {
        exists|f: int, d: int|
            #![trigger fields[f], self.decls()[d]]
            0 <= f < fields.len() && 0 <= d < self.decls().len() && type_ref(fields[f].ty)
                == Option::Some(self.decls()[d].name@) && (j == d || self.reaches(d, j))
    }

    /// Check that the named struct exists and set on it the responsibility
    /// flags the protocol direction demands; propagation to nested structs
    /// happens in one closure sweep afterwards.
    fn set_struct_encoding_type(&mut self, name: &str, pos: Span, ptype: ProtocolType) -> (r:
        Result<(), Diag>)
        requires
            old(self).names_unique(),
        ensures
            match r {
                Result::Ok(()) => {
                    &&& old(self).declared(name@)
                    &&& final(self).decls().len() == old(self).decls().len()
                    &&& forall|i: int|
                        0 <= i < old(self).decls().len() && i != old(self).idx_of(name@)
                            ==> final(self).decls()[i] == old(self).decls()[i]
                    &&& {
                        let w = old(self).idx_of(name@);
                        &&& final(self).decls()[w].name == old(self).decls()[w].name
                        &&& final(self).decls()[w].done == old(self).decls()[w].done
                        &&& final(self).decls()[w].st.spec_fields() == old(self).decls()[
                            w].st.spec_fields()
                        &&& final(self).decls()[w].st.spec_type() == old(self).decls()[
                            w].st.spec_type()
                        &&& final(self).decls()[w].st.spec_pos() == old(self).decls()[
                            w].st.spec_pos()
                        &&& final(self).decls()[w].st.encoder == (old(self).decls()[w].st.encoder
                            || crate::struct_::initial_encoder(StructType::Protocol(ptype)))
                        &&& final(self).decls()[w].st.decoder == (old(self).decls()[w].st.decoder
                            || crate::struct_::initial_decoder(StructType::Protocol(ptype)))
                    }
                    &&& final(self).order() == old(self).order()
                    &&& final(self).prots() == old(self).prots()
                },
                Result::Err(d) => {
                    &&& !old(self).declared(name@)
                    &&& *final(self) == *old(self)
                    &&& d.kind == DiagKind::UnknownStructReference
                    &&& d.span == pos
                },
            },
    {
        match self.find_struct(name) {
            Option::None => Result::Err(Diag::new(DiagKind::UnknownStructReference, pos)),
            Option::Some(w) => {
                proof {
                    self.lemma_idx(w as int);
                }
                match ptype {
                    ProtocolType::C => {
                        self.structs[w].st.decoder = true;
                    },
                    ProtocolType::Typst => {
                        self.structs[w].st.encoder = true;
                    },
                    ProtocolType::Bidirectional => {
                        self.structs[w].st.encoder = true;
                        self.structs[w].st.decoder = true;
                    },
                }
                Result::Ok(())
            },
        }
    }

    /// Add a new protocol to the program: validate its fields like a
    /// struct's, then give every struct reachable from them the
    /// responsibility flags the protocol's direction demands.
    #[verifier::rlimit(80)]
    pub fn add_protocol(&mut self, name: &str, protocol: Struct) -> (r: Result<(), Diag>)
        requires
            old(self).complete(),
            old(self).saturated(),
            protocol.spec_type() matches StructType::Protocol(_),
        ensures
            final(self).complete(),
            r is Err <==> old(self).first_bad_field(protocol.spec_fields()) is Some,
            (gen_ready(*old(self)) && crate::struct_::fields_no_nested_array(
                protocol.spec_fields(),
            ) && r is Ok) ==> gen_ready(*final(self)),
            match r {
                Result::Ok(()) => {
                    &&& final(self).decls().len() == old(self).decls().len()
                    &&& forall|i: int|
                        #![trigger final(self).decls()[i]]
                        0 <= i < old(self).decls().len() ==> {
                            &&& final(self).decls()[i].name == old(self).decls()[i].name
                            &&& final(self).decls()[i].done == old(self).decls()[i].done
                            &&& final(self).decls()[i].st.spec_fields() == old(self).decls()[
                                i].st.spec_fields()
                            &&& final(self).decls()[i].st.spec_type() == old(self).decls()[
                                i].st.spec_type()
                            &&& final(self).decls()[i].st.spec_pos() == old(self).decls()[
                                i].st.spec_pos()
                        }
                    &&& final(self).order() == old(self).order()
                    &&& forall|j: int|
                        #![trigger final(self).decls()[j].st]
                        0 <= j < old(self).decls().len() ==> {
                            &&& (final(self).decls()[j].st.encoder <==> (old(self).decls()[
                                j].st.encoder || (crate::struct_::initial_encoder(
                                protocol.spec_type(),
                            ) && old(self).hit_from(protocol.spec_fields(), j))))
                            &&& (final(self).decls()[j].st.decoder <==> (old(self).decls()[
                                j].st.decoder || (crate::struct_::initial_decoder(
                                protocol.spec_type(),
                            ) && old(self).hit_from(protocol.spec_fields(), j))))
                        }
                    &&& (forall|p: int|
                        0 <= p < old(self).prots().len() ==> old(self).prots()[p].name@ != name@)
                        ==> (final(self).prots().len() == old(self).prots().len() + 1 && final(self).prots().last().name@ == name@ && final(self).prots().last().st == protocol
                        && final(self).prots().take(old(self).prots().len() as int) == old(self).prots())
                    &&& (exists|p: int|
                        0 <= p < old(self).prots().len() && old(self).prots()[p].name@ == name@)
                        ==> (final(self).prots().len() == old(self).prots().len() && exists|
                        p: int|
                        0 <= p < old(self).prots().len() && old(self).prots()[p].name@ == name@
                            && final(self).prots()[p].name@ == name@ && final(self).prots()[p].st
                            == protocol && (forall|q: int|
                            0 <= q < old(self).prots().len() && q != p ==> final(self).prots()[q]
                                == old(self).prots()[q]))
                },
                Result::Err(d) => {
                    &&& *final(self) == *old(self)
                    &&& (match old(self).first_bad_field(protocol.spec_fields()) {
                        Option::Some(i) => old(self).field_error_at(protocol.spec_fields(), i)
                            == Option::Some(d.kind) && d.span == protocol.spec_fields()[i].pos,
                        Option::None => false,
                    })
                },
            },
    {
        let ghost o = *old(self);
        let ghost ie = crate::struct_::initial_encoder(protocol.spec_type());
        let ghost id = crate::struct_::initial_decoder(protocol.spec_type());
        let fields = protocol.fields();
        let mut f: usize = 0;
        while f < fields.len()
            invariant
                *self == o,
                o.complete(),
                fields@ == protocol.spec_fields(),
                0 <= f <= fields.len(),
                forall|g: int|
                    0 <= g < f ==> self.field_error_at(protocol.spec_fields(), g) is None,
            decreases fields.len() - f,
        {
            if let Option::Some(rn) = fields[f].ty.struct_ref() {
                if self.find_struct(rn.as_str()).is_none() {
                    proof {
                        assert(self.field_error_at(protocol.spec_fields(), f as int)
                            == Option::Some(DiagKind::UnknownStructReference));
                        self.lemma_first_bad_some(protocol.spec_fields(), 0, f as int);
                    }
                    return Result::Err(
                        Diag::new(DiagKind::UnknownStructReference, fields[f].pos),
                    );
                }
            }
            let mut g: usize = 0;
            while g < f
                invariant
                    *self == o,
                    o.complete(),
                    fields@ == protocol.spec_fields(),
                    0 <= g <= f < fields.len(),
                    (match type_ref(protocol.spec_fields()[f as int].ty) {
                        Option::Some(n) => self.declared(n),
                        Option::None => true,
                    }),
                    forall|g2: int|
                        0 <= g2 < f ==> self.field_error_at(protocol.spec_fields(), g2) is None,
                    forall|h: int|
                        0 <= h < g ==> protocol.spec_fields()[h].name@ != protocol.spec_fields()[
                            f as int].name@,
                decreases f - g,
            {
                if crate::types::str_eq(fields[g].name.as_str(), fields[f].name.as_str()) {
                    proof {
                        assert(self.field_error_at(protocol.spec_fields(), f as int)
                            == Option::Some(DiagKind::DuplicateFieldName));
                        self.lemma_first_bad_some(protocol.spec_fields(), 0, f as int);
                    }
                    return Result::Err(Diag::new(DiagKind::DuplicateFieldName, fields[f].pos));
                }
                g += 1;
            }
            f += 1;
        }
        proof {
            self.lemma_first_bad_none(protocol.spec_fields(), 0);
        }
        let ptype = match protocol.get_type() {
            StructType::Protocol(pt) => *pt,
            StructType::Struct => {
                proof {
                    assert(false);
                }
                ProtocolType::C
            },
        };
        // first pass: flag the directly referenced structs
        let mut f: usize = 0;
        while f < fields.len()
            invariant
                o.complete(),
                fields@ == protocol.spec_fields(),
                protocol.spec_type() == StructType::Protocol(ptype),
                ie == crate::struct_::initial_encoder(protocol.spec_type()),
                id == crate::struct_::initial_decoder(protocol.spec_type()),
                0 <= f <= fields.len(),
                forall|g: int|
                    0 <= g < fields@.len() ==> o.field_error_at(protocol.spec_fields(), g)
                        is None,
                self.decls().len() == o.decls().len(),
                self.order() == o.order(),
                self.prots() == o.prots(),
                forall|i: int|
                    #![trigger self.decls()[i]]
                    0 <= i < o.decls().len() ==> {
                        &&& self.decls()[i].name == o.decls()[i].name
                        &&& self.decls()[i].done == o.decls()[i].done
                        &&& self.decls()[i].st.spec_fields() == o.decls()[i].st.spec_fields()
                        &&& self.decls()[i].st.spec_type() == o.decls()[i].st.spec_type()
                        &&& self.decls()[i].st.spec_pos() == o.decls()[i].st.spec_pos()
                    },
                forall|j: int|
                    #![trigger self.decls()[j].st]
                    0 <= j < o.decls().len() ==> {
                        &&& (self.decls()[j].st.encoder <==> (o.decls()[j].st.encoder || (ie
                            && exists|g: int|
                            0 <= g < f && type_ref(#[trigger] protocol.spec_fields()[g].ty)
                                == Option::Some(o.decls()[j].name@))))
                        &&& (self.decls()[j].st.decoder <==> (o.decls()[j].st.decoder || (id
                            && exists|g: int|
                            0 <= g < f && type_ref(#[trigger] protocol.spec_fields()[g].ty)
                                == Option::Some(o.decls()[j].name@))))
                    },
            decreases fields.len() - f,
        {
            let target = match fields[f].ty.struct_ref() {
                Option::Some(rn) => {
                    let rc = self.set_struct_encoding_type(rn.as_str(), fields[f].pos, ptype);
                    proof {
                        if rc is Err {
                            assert(o.field_error_at(protocol.spec_fields(), f as int) is None);
                            assert(o.declared(rn@));
                            let w = choose|w: int|
                                0 <= w < o.decls().len() && o.decls()[w].name@ == rn@;
                            assert(self.decls()[w].name@ == rn@);
                            assert(self.declared(rn@));
                            assert(false);
                        }
                    }
                    true
                },
                Option::None => false,
            };
            proof {
                if !target {
                }
            }
            f += 1;
        }
        // second pass: close the flags downward over the reference graph
        proof {
            assert(self.names_unique());
            assert(self.order_ok());
            assert forall|i: int, f2: int|
                #![trigger self.decls()[i].st.spec_fields()[f2]]
                0 <= i < self.decls().len() && self.decls()[i].done && 0 <= f2 < self.decls()[
                    i].st.spec_fields().len() implies (match type_ref(
                self.decls()[i].st.spec_fields()[f2].ty,
            ) {
                Option::Some(n) => self.declared(n),
                Option::None => true,
            }) by {
                assert(self.decls()[i].st.spec_fields() == o.decls()[i].st.spec_fields());
                match type_ref(o.decls()[i].st.spec_fields()[f2].ty) {
                    Option::Some(n) => {
                        assert(o.declared(n));
                        let w = choose|w: int|
                            0 <= w < o.decls().len() && o.decls()[w].name@ == n;
                        assert(self.decls()[w].name@ == n);
                    },
                    Option::None => {},
                }
            }
            assert forall|i: int|
                #![trigger self.decls()[i]]
                0 <= i < self.decls().len() && !self.decls()[i].done implies self.decls()[
                i].st.spec_fields().len() == 0 by {
                assert(o.decls()[i].done);
            }
            assert(self.refs_declared());
            assert forall|k2: int, f2: int|
                #![trigger self.decls()[self.order()[k2] as int].st.spec_fields()[f2]]
                0 <= k2 < self.order().len() && 0 <= f2 < self.decls()[self.order()[k2] as int]
                    .st.spec_fields().len() implies (match type_ref(
                self.decls()[self.order()[k2] as int].st.spec_fields()[f2].ty,
            ) {
                Option::Some(n) => exists|l: int|
                    0 <= l < k2 && self.decls()[self.order()[l] as int].name@ == n,
                Option::None => true,
            }) by {
                let i = self.order()[k2] as int;
                assert(self.decls()[i].st.spec_fields() == o.decls()[i].st.spec_fields());
                assert(match type_ref(o.decls()[o.order()[k2] as int].st.spec_fields()[f2].ty) {
                    Option::Some(n) => exists|l: int|
                        0 <= l < k2 && o.decls()[o.order()[l] as int].name@ == n,
                    Option::None => true,
                });
                match type_ref(self.decls()[self.order()[k2] as int].st.spec_fields()[f2].ty) {
                    Option::Some(n) => {
                        let l = choose|l: int|
                            0 <= l < k2 && o.decls()[o.order()[l] as int].name@ == n;
                        assert(self.decls()[self.order()[l] as int].name@ == n);
                    },
                    Option::None => {},
                }
            }
            assert(self.ordered());
            assert(self.saturated());
        }
        let ghost mid = *self;
        self.update_children_encoding_type();
        proof {
            self.lemma_add_protocol_flags(o, mid, protocol, ie, id);
        }
        // record the protocol entry point
        match self.find_protocol(name) {
            Option::Some(p) => {
                self.protocols[p].st = protocol;
            },
            Option::None => {
                self.protocols.push(ProtocolEntry { name: name.to_owned(), st: protocol });
            },
        }
        proof {
            assert(self.wf());
            assert(self.complete());
        }
        Result::Ok(())
    }

    /// Composing the direct-flag pass and the closure sweep yields exactly
    /// the direction flags on every struct the protocol's fields hit.
    proof fn lemma_add_protocol_flags(
        self,
        o: Protocol,
        mid: Protocol,
        protocol: Struct,
        ie: bool,
        id: bool,
    )
        requires
            o.complete(),
            mid.decls().len() == o.decls().len(),
            mid.order() == o.order(),
            forall|i: int|
                #![trigger mid.decls()[i]]
                0 <= i < o.decls().len() ==> {
                    &&& mid.decls()[i].name == o.decls()[i].name
                    &&& mid.decls()[i].st.spec_fields() == o.decls()[i].st.spec_fields()
                },
            forall|j: int|
                #![trigger mid.decls()[j].st]
                0 <= j < o.decls().len() ==> {
                    &&& (mid.decls()[j].st.encoder <==> (o.decls()[j].st.encoder || (ie && exists|
                        g: int|
                        0 <= g < protocol.spec_fields().len() && type_ref(
                            #[trigger] protocol.spec_fields()[g].ty,
                        ) == Option::Some(o.decls()[j].name@))))
                    &&& (mid.decls()[j].st.decoder <==> (o.decls()[j].st.decoder || (id && exists|
                        g: int|
                        0 <= g < protocol.spec_fields().len() && type_ref(
                            #[trigger] protocol.spec_fields()[g].ty,
                        ) == Option::Some(o.decls()[j].name@))))
                },
            self.decls().len() == mid.decls().len(),
            forall|i: int|
                #![trigger self.decls()[i]]
                0 <= i < mid.decls().len() ==> {
                    &&& self.decls()[i].name == mid.decls()[i].name
                    &&& self.decls()[i].st.spec_fields() == mid.decls()[i].st.spec_fields()
                },
            forall|j: int|
                #![trigger self.decls()[j].st]
                0 <= j < mid.decls().len() ==> {
                    &&& (self.decls()[j].st.encoder <==> (mid.decls()[j].st.encoder || exists|
                        u: int|
                        0 <= u < mid.decls().len() && mid.decls()[u].st.encoder && mid.reaches(
                            u,
                            j,
                        )))
                    &&& (self.decls()[j].st.decoder <==> (mid.decls()[j].st.decoder || exists|
                        u: int|
                        0 <= u < mid.decls().len() && mid.decls()[u].st.decoder && mid.reaches(
                            u,
                            j,
                        )))
                },
        ensures
            forall|j: int|
                #![trigger self.decls()[j].st]
                0 <= j < o.decls().len() ==> {
                    &&& (self.decls()[j].st.encoder <==> (o.decls()[j].st.encoder || (ie
                        && o.hit_from(protocol.spec_fields(), j))))
                    &&& (self.decls()[j].st.decoder <==> (o.decls()[j].st.decoder || (id
                        && o.hit_from(protocol.spec_fields(), j))))
                },
    {
        assert(mid.same_graph(o));
        assert(o.same_graph(mid));
        assert forall|j: int|
            #![trigger self.decls()[j].st]
            0 <= j < o.decls().len() implies {
            &&& (self.decls()[j].st.encoder <==> (o.decls()[j].st.encoder || (ie && o.hit_from(
                protocol.spec_fields(),
                j,
            ))))
            &&& (self.decls()[j].st.decoder <==> (o.decls()[j].st.decoder || (id && o.hit_from(
                protocol.spec_fields(),
                j,
            ))))
        } by {
            // forward: every final flag is accounted for
            if self.decls()[j].st.encoder {
                if !mid.decls()[j].st.encoder {
                    let u = choose|u: int|
                        0 <= u < mid.decls().len() && mid.decls()[u].st.encoder && mid.reaches(
                            u,
                            j,
                        );
                    mid.lemma_reach_transfer(o, u, j, mid.decls().len());
                    if o.decls()[u].st.encoder {
                        o.lemma_flags_reach(u, j, o.decls().len());
                        assert(o.decls()[j].st.encoder);
                    } else {
                        let g = choose|g: int|
                            0 <= g < protocol.spec_fields().len() && type_ref(
                                protocol.spec_fields()[g].ty,
                            ) == Option::Some(o.decls()[u].name@);
                        assert(o.hit_from(protocol.spec_fields(), j));
                    }
                } else {
                    if !o.decls()[j].st.encoder {
                        let g = choose|g: int|
                            0 <= g < protocol.spec_fields().len() && type_ref(
                                protocol.spec_fields()[g].ty,
                            ) == Option::Some(o.decls()[j].name@);
                        assert(o.hit_from(protocol.spec_fields(), j));
                    }
                }
            }
            if self.decls()[j].st.decoder {
                if !mid.decls()[j].st.decoder {
                    let u = choose|u: int|
                        0 <= u < mid.decls().len() && mid.decls()[u].st.decoder && mid.reaches(
                            u,
                            j,
                        );
                    mid.lemma_reach_transfer(o, u, j, mid.decls().len());
                    if o.decls()[u].st.decoder {
                        o.lemma_flags_reach(u, j, o.decls().len());
                        assert(o.decls()[j].st.decoder);
                    } else {
                        let g = choose|g: int|
                            0 <= g < protocol.spec_fields().len() && type_ref(
                                protocol.spec_fields()[g].ty,
                            ) == Option::Some(o.decls()[u].name@);
                        assert(o.hit_from(protocol.spec_fields(), j));
                    }
                }
            }
            // backward: hits are flagged
            if ie && o.hit_from(protocol.spec_fields(), j) {
                let (g, d) = choose|g: int, d: int|
                    0 <= g < protocol.spec_fields().len() && 0 <= d < o.decls().len() && type_ref(
                        #[trigger] protocol.spec_fields()[g].ty,
                    ) == Option::Some(#[trigger] o.decls()[d].name@) && (j == d || o.reaches(
                        d,
                        j,
                    ));
                assert(mid.decls()[d].st.encoder);
                if j != d {
                    o.lemma_reach_transfer(mid, d, j, o.decls().len());
                    assert(0 <= d < mid.decls().len() && mid.decls()[d].st.encoder
                        && mid.reaches(d, j));
                    assert(self.decls()[j].st.encoder);
                }
            }
            if id && o.hit_from(protocol.spec_fields(), j) {
                let (g, d) = choose|g: int, d: int|
                    0 <= g < protocol.spec_fields().len() && 0 <= d < o.decls().len() && type_ref(
                        #[trigger] protocol.spec_fields()[g].ty,
                    ) == Option::Some(#[trigger] o.decls()[d].name@) && (j == d || o.reaches(
                        d,
                        j,
                    ));
                assert(mid.decls()[d].st.decoder);
                if j != d {
                    o.lemma_reach_transfer(mid, d, j, o.decls().len());
                    assert(0 <= d < mid.decls().len() && mid.decls()[d].st.decoder
                        && mid.reaches(d, j));
                    assert(self.decls()[j].st.decoder);
                }
            }
        }
    }

    /// The slot index holding `name`, if any.
    fn find_struct(&self, name: &str) -> (r: Option<usize>)
        ensures
            match r {
                Option::Some(i) => 0 <= i < self.decls().len() && self.decls()[i as int].name@
                    == name@,
                Option::None => !self.declared(name@),
            },
    {
        let mut k: usize = 0;
        while k < self.structs.len()
            invariant
                0 <= k <= self.decls().len(),
                forall|i: int| 0 <= i < k ==> self.decls()[i].name@ != name@,
            decreases self.decls().len() - k,
        {
            if crate::types::str_eq(self.structs[k].name.as_str(), name) {
                return Option::Some(k);
            }
            k += 1;
        }
        Option::None
    }

    /// The protocol-table index holding `name`, if any.
    fn find_protocol(&self, name: &str) -> (r: Option<usize>)
        ensures
            match r {
                Option::Some(i) => 0 <= i < self.prots().len() && self.prots()[i as int].name@
                    == name@,
                Option::None => forall|i: int|
                    0 <= i < self.prots().len() ==> self.prots()[i].name@ != name@,
            },
    {
        let mut k: usize = 0;
        while k < self.protocols.len()
            invariant
                0 <= k <= self.prots().len(),
                forall|i: int| 0 <= i < k ==> self.prots()[i].name@ != name@,
            decreases self.prots().len() - k,
        {
            if crate::types::str_eq(self.protocols[k].name.as_str(), name) {
                return Option::Some(k);
            }
            k += 1;
        }
        Option::None
    }

    pub fn has_struct(&self, name: &str) -> (r: bool)
        ensures
            r == self.declared(name@),
    {
        self.find_struct(name).is_some()
    }

    pub fn has_protocol(&self, name: &str) -> (r: bool)
        ensures
            r == exists|i: int| 0 <= i < self.prots().len() && self.prots()[i].name@ == name@,
    {
        self.find_protocol(name).is_some()
    }

    /// Reserves a struct name before its body is known, so that a duplicate
    /// declaration is reported precisely and a struct's own name is visible
    /// while its body is checked.
    pub fn pre_add_struct(&mut self, name: &str, struct_type: StructType, pos: Span) -> (r: Result<
        (),
        Diag,
    >)
        requires
            old(self).wf(),
        ensures
            final(self).wf(),
            match r {
                Result::Ok(()) => {
                    &&& !old(self).declared(name@)
                    &&& final(self).decls().len() == old(self).decls().len() + 1
                    &&& final(self).decls().take(old(self).decls().len() as int) =~= old(self).decls()
                    &&& final(self).decls().last().name@ == name@
                    &&& !final(self).decls().last().done
                    &&& final(self).decls().last().st.spec_fields().len() == 0
                    &&& final(self).decls().last().st.spec_type() == struct_type
                    &&& final(self).decls().last().st.spec_pos() == pos
                    &&& final(self).decls().last().st.encoder == crate::struct_::initial_encoder(
                        struct_type,
                    )
                    &&& final(self).decls().last().st.decoder == crate::struct_::initial_decoder(
                        struct_type,
                    )
                    &&& final(self).order() == old(self).order()
                    &&& final(self).prots() == old(self).prots()
                    &&& (old(self).ordered() ==> final(self).ordered())
                    &&& (old(self).saturated() ==> final(self).saturated_except(name@))
                    &&& (gen_ready(*old(self)) ==> gen_ready(*final(self)))
                },
                Result::Err(d) => {
                    &&& old(self).declared(name@)
                    &&& *final(self) == *old(self)
                    &&& d.kind == DiagKind::DuplicateStructName
                    &&& d.span == pos
                },
            },
    {
        if self.find_struct(name).is_some() {
            return Result::Err(Diag::new(DiagKind::DuplicateStructName, pos));
        }
        let entry = StructEntry { name: name.to_owned(), st: Struct::new(struct_type, pos), done: false };
        self.structs.push(entry);
        proof {
            let o = old(self).decls();
            let nw = self.decls();
            assert(forall|i: int| 0 <= i < o.len() ==> nw[i] == o[i]);
            assert forall|i: int| 0 <= i < o.len() implies o[i].name@ != name@ by {
                if o[i].name@ == name@ {
                    assert(old(self).declared(name@));
                }
            }
            assert forall|n: Seq<char>| old(self).declared(n) implies self.declared(n) by {
                let w = choose|i: int| 0 <= i < o.len() && o[i].name@ == n;
                assert(nw[w].name@ == n);
            }
            assert(self.order() == old(self).order());
            assert(self.prots() == old(self).prots());
            assert(forall|k: int| 0 <= k < self.order().len() ==> self.order()[k] < o.len());
            assert(self.wf());
        }
        Result::Ok(())
    }

    /// The struct table, in declaration order.
    pub fn structs(&self) -> (r: &Vec<StructEntry>)
        ensures
            r@ == self.decls(),
    {
        &self.structs
    }

    /// The protocol table, in declaration order.
    pub fn protocols(&self) -> (r: &Vec<ProtocolEntry>)
        ensures
            r@ == self.prots(),
    {
        &self.protocols
    }

    /// How many structs stand in the finalize order.
    pub fn num_ordered(&self) -> (r: usize)
        ensures
            r == self.order().len(),
    {
        self.structs_order.len()
    }

    /// The `k`-th struct in the finalize order, the dependency-safe
    /// emission order: its name and its shape.
    pub fn ordered_structs(&self, k: usize) -> (r: (&String, &Struct))
        requires
            self.wf(),
            k < self.order().len(),
        ensures
            r.0@ == self.decls()[self.order()[k as int] as int].name@,
            *r.1 == self.decls()[self.order()[k as int] as int].st,
    {
        let i = self.structs_order[k];
        (&self.structs[i].name, &self.structs[i].st)
    }
}

/// Every shape of the graph is within what the backends can emit: no
/// field anywhere holds an array of arrays.
pub open spec fn gen_ready(p: Protocol) -> bool {
    &&& forall|i: int|
        0 <= i < p.decls().len() ==> crate::struct_::fields_no_nested_array(
            #[trigger] p.decls()[i].st.spec_fields(),
        )
    &&& forall|i: int|
        0 <= i < p.prots().len() ==> crate::struct_::fields_no_nested_array(
            #[trigger] p.prots()[i].st.spec_fields(),
        )
}

/// The finalize order of a complete declaration graph is a topological
/// order of the struct-reference graph: whenever struct `i` references
/// struct `j`, directly or through any chain of structs, `j` stands
/// strictly earlier in the order than `i`.  Emission in this order
/// therefore defines every struct before any struct that embeds it.
pub proof fn lemma_declaration_order_topological(p: Protocol, i: int, j: int)
    requires
        p.complete(),
        p.reaches(i, j),
    ensures
        0 <= p.order_pos(j) < p.order_pos(i) < p.order().len(),
        p.order()[p.order_pos(i)] == i,
        p.order()[p.order_pos(j)] == j,
{
    lemma_order_pos_decreases(p, i, j, p.decls().len());
}

/// Along any reference path the order position strictly decreases.
proof fn lemma_order_pos_decreases(p: Protocol, i: int, j: int, k: nat)
    requires
        p.complete(),
        p.reaches_within(i, j, k),
    ensures
        0 <= p.order_pos(j) < p.order_pos(i) < p.order().len(),
        p.order()[p.order_pos(i)] == i,
        p.order()[p.order_pos(j)] == j,
    decreases k,
{
    if p.edge(i, j) {
        p.lemma_edge_pos(i, j);
    } else {
        let m = choose|m: int| p.edge(i, m) && p.reaches_within(m, j, (k - 1) as nat);
        p.lemma_edge_pos(i, m);
        lemma_order_pos_decreases(p, m, j, (k - 1) as nat);
    }
}

/// The first field (from `f` on) whose type references `name` itself.
pub open spec fn first_self_ref_from(name: Seq<char>, fields: Seq<Field>, f: int) -> Option<int>
    decreases fields.len() - f,
{
    if f >= fields.len() {
        Option::None
    } else if type_ref(fields[f].ty) == Option::Some(name) {
        Option::Some(f)
    } else {
        first_self_ref_from(name, fields, f + 1)
    }
}

/// The first field of `fields` whose type references `name` itself: the
/// direct self-reference a finalize rejects as a circular dependency.
pub open spec fn first_self_ref(name: Seq<char>, fields: Seq<Field>) -> Option<int> {
    first_self_ref_from(name, fields, 0)
}

proof fn lemma_first_self_ref_none(name: Seq<char>, fields: Seq<Field>, f: int)
    requires
        0 <= f <= fields.len(),
        forall|g: int|
            f <= g < fields.len() ==> type_ref(#[trigger] fields[g].ty) != Option::Some(name),
    ensures
        first_self_ref_from(name, fields, f) is None,
    decreases fields.len() - f,
{
    if f < fields.len() {
        lemma_first_self_ref_none(name, fields, f + 1);
    }
}

/// Is `x` among the elements of `v`?
fn contains_idx(v: &Vec<usize>, x: usize) -> (r: bool)
    ensures
        r == v@.contains(x),
{
    let mut k: usize = 0;
    while k < v.len()
        invariant
            0 <= k <= v@.len(),
            forall|i: int| 0 <= i < k ==> v@[i] != x,
        decreases v@.len() - k,
    {
        if v[k] == x {
            assert(v@.contains(x));
            return true;
        }
        k += 1;
    }
    assert(!v@.contains(x));
    false
}

/// A sequence of distinct indices below `n` has at most `n` elements.
proof fn lemma_distinct_bounded_len(s: Seq<usize>, n: nat)
    requires
        s.no_duplicates(),
        forall|k: int| 0 <= k < s.len() ==> s[k] < n,
    ensures
        s.len() <= n,
{
    let si = s.map_values(|x: usize| x as int);
    assert(si.no_duplicates());
    si.unique_seq_to_set();
    let rng = vstd::set_lib::set_int_range(0, n as int);
    vstd::set_lib::lemma_int_range(0, n as int);
    assert forall|e: int| si.to_set().contains(e) implies rng.contains(e) by {
        let k = choose|k: int| 0 <= k < si.len() && si[k] == e;
        assert(s[k] < n);
    }
    vstd::set_lib::lemma_len_subset(si.to_set(), rng);
}

impl Default for Protocol {
    /// An empty program: no structs, no protocols.
    fn default() -> (r: Protocol)
        ensures
            r.decls().len() == 0,
            r.order().len() == 0,
            r.prots().len() == 0,
            r.complete(),
    {
        Protocol { structs_order: Vec::new(), structs: Vec::new(), protocols: Vec::new() }
    }
}

} // verus!
