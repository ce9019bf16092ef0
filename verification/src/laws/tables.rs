//! What a table of shapes holds, and what putting shapes in its order leaves of them.

use vstd::prelude::*;

use crate::arrange;
use crate::shape;
use crate::shape::{
    Def, Field, PointerType, SequenceType, Shape, Type, UserType, Variant,
};

verus! {

/// The shapes that the meaning of a type mentions, one or two.
pub open spec fn parts(def: Def) -> Seq<usize> {
    match def {
        Def::MapOf { key, value } => seq![key, value],
        Def::SetOf(t) => seq![t],
        Def::List(t) => seq![t],
        Def::Array { item, size } => seq![item],
        Def::Slice(t) => seq![t],
        Def::Option(t) => seq![t],
        Def::Pointer(Some(t)) => seq![t],
        _ => Seq::empty(),
    }
}

/// The shape that a sequence or a pointer mentions.
pub open spec fn target(ty: Type) -> Option<usize> {
    match ty {
        Type::Sequence(SequenceType::Slice(t)) => Some(t),
        Type::Sequence(SequenceType::Array(t)) => Some(t),
        Type::Pointer(PointerType::Reference(t)) => Some(t),
        Type::Pointer(PointerType::Raw(t)) => Some(t),
        _ => None,
    }
}

/// A bound holds of a type if it holds of every shape that the type mentions.
pub proof fn law_bounds(def: Def, ty: Type, bound: int)
    ensures
        shape::def_below(def, bound) <==> forall|k: int|
            0 <= k < parts(def).len() ==> (#[trigger] parts(def)[k]) < bound,
        shape::structure_below(ty, bound) <==> (target(ty) matches Some(t) ==> t < bound) && (ty
            matches Type::User(UserType::Struct(st)) ==> forall|k: int|
            0 <= k < st.fields@.len() ==> (#[trigger] st.fields@[k]).shape < bound),
        ty matches Type::User(UserType::Enum(et)) ==> (shape::variants_below(ty, bound) <==> (
        et.variants@.len() <= u32::MAX && forall|v: int, k: int|
            0 <= v < et.variants@.len() && 0 <= k < et.variants@[v].fields@.len()
                ==> (#[trigger] et.variants@[v].fields@[k]).shape < bound)),
        !(ty matches Type::User(UserType::Enum(_))) ==> shape::variants_below(ty, bound),
{
    match def {
        Def::MapOf { key, value } => {
            assert(parts(def)[0] == key && parts(def)[1] == value);
        },
        Def::SetOf(t) => {
            assert(parts(def)[0] == t);
        },
        Def::List(t) => {
            assert(parts(def)[0] == t);
        },
        Def::Array { item, size } => {
            assert(parts(def)[0] == item);
        },
        Def::Slice(t) => {
            assert(parts(def)[0] == t);
        },
        Def::Option(t) => {
            assert(parts(def)[0] == t);
        },
        Def::Pointer(Some(t)) => {
            assert(parts(def)[0] == t);
        },
        _ => {},
    }
    if let Type::User(UserType::Enum(et)) = ty {
        if shape::variants_below(ty, bound) {
            assert forall|v: int, k: int|
                0 <= v < et.variants@.len() && 0 <= k < et.variants@[v].fields@.len() implies (
            #[trigger] et.variants@[v].fields@[k]).shape < bound by {
                assert(shape::fields_below(et.variants@[v].fields@, bound));
            }
        } else if et.variants@.len() <= u32::MAX {
            let v = choose|v: int|
                0 <= v < et.variants@.len() && !shape::fields_below(
                    (#[trigger] et.variants@[v]).fields@,
                    bound,
                );
            let fields = et.variants@[v].fields@;
            let k = choose|k: int| 0 <= k < fields.len() && !((#[trigger] fields[k]).shape < bound);
            assert(!(et.variants@[v].fields@[k].shape < bound));
        }
    }
}

/// Which shapes of a table come before which: what a wrapper wraps before the wrapper, the content
/// of an option before the option, and whatever a type mentions that is not registered under a name
/// of its own before that type. Everything else has only to be in the table, and each type is there
/// once.
pub proof fn law_tables(g: Seq<Shape>)
    ensures
        shape::shapes_wf(g) <==> {
            &&& forall|i: int|
                0 <= i < g.len() ==> {
                    let shape = #[trigger] g[i];
                    let n = g.len() as int;
                    &&& shape::def_below(shape.def, n)
                    &&& shape::structure_below(shape.ty, n)
                    &&& shape::variants_below(shape.ty, n)
                    &&& shape::is_transparent(shape) && shape.inner is Some ==> shape.inner->0 < i
                    &&& shape.def is Option || !shape::is_container(shape) ==> shape::def_below(
                        shape.def,
                        i,
                    )
                    &&& !shape::is_container(shape) ==> shape::structure_below(shape.ty, i)
                }
            &&& forall|i: int, j: int|
                #![trigger g[i], g[j]]
                0 <= i < j < g.len() ==> g[i].id != g[j].id
        },
{
    if shape::shapes_wf(g) {
        assert forall|i: int| 0 <= i < g.len() implies {
            let shape = #[trigger] g[i];
            let n = g.len() as int;
            &&& shape::def_below(shape.def, n)
            &&& shape::structure_below(shape.ty, n)
            &&& shape::variants_below(shape.ty, n)
            &&& shape::is_transparent(shape) && shape.inner is Some ==> shape.inner->0 < i
            &&& shape.def is Option || !shape::is_container(shape) ==> shape::def_below(
                shape.def,
                i,
            )
            &&& !shape::is_container(shape) ==> shape::structure_below(shape.ty, i)
        } by {
            assert(shape::shape_wf(g, i));
        }
    }
}

/// The field is the same but for the index of its shape, which has moved to its place.
pub open spec fn is_moved_field(before: Field, after: Field, place: Seq<usize>) -> bool {
    after.shape == place[before.shape as int] && before == (Field { shape: before.shape, ..after })
}

/// What is left of a shape that is put in the order of a table: everything but the indices of the
/// shapes that it mentions, each of which has moved to its place, in the same order.
pub proof fn law_relabelling(before: Shape, after: Shape, place: Seq<usize>)
    requires
        arrange::shape_relabelled(before, after, place),
    ensures
        before == (Shape { ty: before.ty, def: before.def, inner: before.inner, ..after }),
        parts(after.def).len() == parts(before.def).len(),
        forall|k: int|
            0 <= k < parts(before.def).len() ==> #[trigger] parts(after.def)[k] == place[parts(
                before.def,
            )[k] as int],
        match before.def {
            Def::MapOf { key, value } => after.def is MapOf,
            Def::SetOf(_) => after.def is SetOf,
            Def::List(_) => after.def is List,
            Def::Array { item, size } => after.def matches Def::Array { item: _, size: count }
                && count == size,
            Def::Slice(_) => after.def is Slice,
            Def::Option(_) => after.def is Option,
            Def::Pointer(Some(_)) => after.def matches Def::Pointer(Some(_)),
            other => after.def == other,
        },
        shape::is_transparent(before) && before.inner is Some ==> after.inner == Some(
            place[before.inner->0 as int],
        ),
        before.inner is None ==> after.inner is None,
        match (before.ty, after.ty) {
            (Type::User(UserType::Struct(a)), Type::User(UserType::Struct(b))) => a.kind == b.kind
                && a.fields@.len() == b.fields@.len() && forall|k: int|
                0 <= k < a.fields@.len() ==> is_moved_field(
                    a.fields@[k],
                    #[trigger] b.fields@[k],
                    place,
                ),
            (Type::User(UserType::Enum(a)), Type::User(UserType::Enum(b))) => a.variants@.len()
                == b.variants@.len() && forall|v: int|
                0 <= v < a.variants@.len() ==> {
                    let old = #[trigger] a.variants@[v];
                    let new = b.variants@[v];
                    &&& old == (Variant { fields: old.fields, ..new })
                    &&& old.fields@.len() == new.fields@.len()
                    &&& forall|k: int|
                        0 <= k < old.fields@.len() ==> is_moved_field(
                            old.fields@[k],
                            #[trigger] new.fields@[k],
                            place,
                        )
                },
            (Type::Sequence(SequenceType::Slice(t)), Type::Sequence(SequenceType::Slice(u))) => u
                == place[t as int],
            (Type::Sequence(SequenceType::Array(t)), Type::Sequence(SequenceType::Array(u))) => u
                == place[t as int],
            (
                Type::Pointer(PointerType::Reference(t)),
                Type::Pointer(PointerType::Reference(u)),
            ) => u == place[t as int],
            (Type::Pointer(PointerType::Raw(t)), Type::Pointer(PointerType::Raw(u))) => u
                == place[t as int],
            (a, b) => a == b,
        },
{
}

/// What has to come before a shape: what a wrapper wraps, the content of an option, and whatever a
/// type mentions that is not registered under a name of its own.
pub proof fn law_what_comes_first(shape: Shape, t: usize)
    ensures
        arrange::leads_to(shape, t) <==> {
            ||| shape::is_transparent(shape) && shape.inner == Some(t)
            ||| (shape.def is Option || !shape::is_container(shape)) && parts(shape.def).contains(t)
            ||| !shape::is_container(shape) && (target(shape.ty) == Some(t) || (shape.ty
                matches Type::User(UserType::Struct(st)) && exists|k: int|
                0 <= k < st.fields@.len() && (#[trigger] st.fields@[k]).shape == t))
        },
{
    let listed = parts(shape.def);
    match shape.def {
        Def::MapOf { key, value } => {
            assert(listed[0] == key && listed[1] == value);
        },
        Def::SetOf(u) => {
            assert(listed[0] == u);
        },
        Def::List(u) => {
            assert(listed[0] == u);
        },
        Def::Array { item, size } => {
            assert(listed[0] == item);
        },
        Def::Slice(u) => {
            assert(listed[0] == u);
        },
        Def::Option(u) => {
            assert(listed[0] == u);
        },
        Def::Pointer(Some(u)) => {
            assert(listed[0] == u);
        },
        _ => {},
    }
}

/// Shapes that are in the order of a table can be put in it.
pub proof fn law_tables_can_be_arranged(g: Seq<Shape>)
    requires
        shape::shapes_wf(g),
    ensures
        arrange::all_within(g),
        arrange::can_be_ordered(g),
        shape::ids_differ(g),
{
    assert forall|i: int| 0 <= i < g.len() implies arrange::is_within(
        #[trigger] g[i],
        g.len() as int,
    ) by {
        assert(shape::shape_wf(g, i));
    }
    let rank = |i: int| i as nat;
    assert forall|i: int, t: usize|
        #![trigger arrange::leads_to(g[i], t)]
        0 <= i < g.len() && t < g.len() && arrange::leads_to(g[i], t) implies rank(t as int)
        < rank(i) by {
        assert(shape::shape_wf(g, i));
    }
    assert(arrange::ranks(g, rank));
}

} // verus!
