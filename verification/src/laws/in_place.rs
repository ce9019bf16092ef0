//! What a type that is reflected in place gives the container being built.

use vstd::prelude::*;

use crate::completion;
use crate::format::{ContainerView, FormatView};
use crate::laws;
use crate::laws::structure;
use crate::model;
use crate::model::State;
use crate::names::NameView;
use crate::naming;
use crate::progress;
use crate::scalar;
use crate::shape;
use crate::shape::{
    Def, Field, PointerType, PrimitiveType, SequenceType, Shape, StructKind, Type, UserType,
};
use crate::step::Step;
use crate::walk;
use crate::walk::Wrap;

verus! {

/// A container that waits for a format: a newtype whose format is not known yet, or a tuple.
pub open spec fn is_waiting(s: State) -> bool {
    match model::innermost(s) {
        Some(ContainerView::NewTypeStruct(format, _)) => format is Variable,
        Some(ContainerView::TupleStruct(_, _)) => true,
        _ => false,
    }
}

/// A container that takes a format: a newtype or a tuple.
pub open spec fn is_open(s: State) -> bool {
    match model::innermost(s) {
        Some(ContainerView::NewTypeStruct(_, _)) => true,
        Some(ContainerView::TupleStruct(_, _)) => true,
        _ => false,
    }
}

/// Whether the container being built in `s` has been given the format in `t`.
pub open spec fn is_given(s: State, t: State, format: FormatView) -> bool {
    match model::innermost(s) {
        Some(ContainerView::NewTypeStruct(_, doc)) => model::innermost(t) == Some(
            ContainerView::NewTypeStruct(format, doc),
        ),
        Some(ContainerView::TupleStruct(items, doc)) => model::innermost(t) == Some(
            ContainerView::TupleStruct(items.push(format), doc),
        ),
        _ => false,
    }
}

/// Whether the container being built has been given a format that describes the type at `i`.
pub open spec fn is_given_type(g: Seq<Shape>, s: State, t: State, i: int) -> bool {
    exists|format: FormatView| #[trigger]
        structure::describes(g, structure::space_of(s), i, format) && is_given(s, t, format)
}

/// A type that is described by its own structure: an option, a sequence, a set, a map, a pointer or
/// a scalar that is known.
pub open spec fn has_structure(shape: Shape) -> bool {
    shape.def is Option || match shape.ty {
        Type::User(UserType::Struct(_)) => false,
        Type::User(UserType::Enum(_)) => false,
        Type::Sequence(SequenceType::Slice(_)) => shape.def is Slice,
        Type::Sequence(SequenceType::Array(_)) => shape.def is Array,
        _ => match shape.def {
            Def::Scalar => scalar::scalar_format(shape) matches Step::Done(Some(_)),
            Def::MapOf { key, value } => true,
            Def::List(_) => true,
            Def::Slice(_) => true,
            Def::Array { item, size } => true,
            Def::SetOf(_) => true,
            Def::Pointer(_) => true,
            _ => false,
        },
    }
}

proof fn lemma_compound(
    g: Seq<Shape>,
    s: State,
    t: int,
    bound: int,
    wrap: Wrap,
    force: bool,
    room: nat,
)
    requires
        shape::shapes_wf(g),
        progress::orderly(s),
        completion::well_named(g, s),
        0 <= t < bound <= g.len(),
        is_open(s),
    ensures
        walk::compound(g, s, t, bound, wrap, force, room) matches Step::Done(u) ==> if force
            || is_waiting(s) {
            exists|format: FormatView| #[trigger]
                structure::describes(g, structure::space_of(s), t, format) && is_given(
                    s,
                    u,
                    walk::wrapped(wrap, format),
                )
        } else {
            model::innermost(u) == model::innermost(s)
        },
{
    let space = structure::space_of(s);
    structure::law_reference_describes(g, s, t, true);
    progress::lemma_reference(g, s, t, true);
    let (s1, referred) = walk::reference(g, s, t, true);
    if let Step::Done(format) = referred {
        laws::law_set_aside(g, s1, t, room);
        if let Step::Done(s2) = walk::nested(g, s1, t, room) {
            structure::law_standing_describes(g, space, s2, t, format);
            let stood = walk::standing(g, s2, t, format);
            assert(structure::describes(g, space, t, stood));
        }
    }
}

proof fn lemma_map(
    g: Seq<Shape>,
    s: State,
    key: int,
    value: int,
    bound: int,
    room: nat,
)
    requires
        shape::shapes_wf(g),
        progress::orderly(s),
        completion::well_named(g, s),
        0 <= key < bound <= g.len(),
        0 <= value < bound,
        is_open(s),
    ensures
        walk::format_map(g, s, key, value, bound, room) matches Step::Done(u) ==> exists|
            k: FormatView,
            v: FormatView,
        |
            #[trigger] structure::describes(g, structure::space_of(s), key, k)
                && #[trigger] structure::describes(g, structure::space_of(s), value, v) && is_given(
                s,
                u,
                FormatView::MapOf { key: Box::new(k), value: Box::new(v) },
            ),
{
    let space = structure::space_of(s);
    structure::law_reference_describes(g, s, key, true);
    progress::lemma_reference(g, s, key, true);
    let (s1, first) = walk::reference(g, s, key, true);
    if let Step::Done(k) = first {
        completion::lemma_well_named_before(g, s1, s);
        structure::law_reference_describes(g, s1, value, true);
        progress::lemma_reference(g, s1, value, true);
        let (s2, second) = walk::reference(g, s1, value, true);
        if let Step::Done(v) = second {
            laws::law_set_aside(g, s2, key, room);
            if let Step::Done(s3) = walk::nested(g, s2, key, room) {
                structure::law_standing_describes(g, space, s3, key, k);
                laws::law_set_aside(g, s3, value, room);
                if let Step::Done(s4) = walk::nested(g, s3, value, room) {
                    structure::law_standing_describes(g, space, s4, value, v);
                    assert(structure::describes(g, space, key, walk::standing(g, s3, key, k)));
                    assert(structure::describes(g, space, value, walk::standing(g, s4, value, v)));
                }
            }
        }
    }
}

/// A type that is reflected in place gives the container being built the format that describes it,
/// but that a smart pointer leaves a newtype that has its format already.
pub proof fn law_in_place(g: Seq<Shape>, s: State, i: int, room: nat)
    requires
        shape::shapes_wf(g),
        progress::orderly(s),
        completion::well_named(g, s),
        0 <= i < g.len(),
        is_open(s),
        has_structure(g[naming::generated(g, i)]),
        !shape::is_container(g[naming::generated(g, i)]),
    ensures
        walk::reflect(g, s, i, room) matches Step::Done(t) ==> if is_waiting(s) || !(
        g[naming::generated(g, i)].def matches Def::Pointer(Some(_))) {
            is_given_type(g, s, t, i)
        } else {
            model::innermost(t) == model::innermost(s)
        },
{
    naming::lemma_generated(g, i);
    let j = naming::generated(g, i);
    let shape = g[j];
    assert(shape::shape_wf(g, j));
    let s1 = model::meet_params(s, shape).0;
    completion::lemma_well_named_before(g, s1, s);
    progress::lemma_meet_params(g, s, shape);
    progress::lemma_keeps_orderly(g, s, s1);
    let space = structure::space_of(s);
    assert(structure::space_of(s1) == space);
    if let Some((wrap, t)) = walk::single(shape) {
        let force = !(shape.def is Pointer);
        lemma_compound(g, s1, t as int, j, wrap, force, room);
        if let Step::Done(u) = walk::reflect(g, s, i, room) {
            assert(walk::reflect(g, s, i, room) == walk::compound(
                g,
                s1,
                t as int,
                j,
                wrap,
                force,
                room,
            ));
            if force || is_waiting(s) {
                let format = choose|format: FormatView|
                    #[trigger] structure::describes(g, space, t as int, format) && is_given(
                        s1,
                        u,
                        walk::wrapped(wrap, format),
                    );
                assert(structure::describes(g, space, i, walk::wrapped(wrap, format)));
            }
        }
    } else if let Def::MapOf { key, value } = shape.def {
        lemma_map(g, s1, key as int, value as int, j, room);
        if let Step::Done(u) = walk::reflect(g, s, i, room) {
            let (k, v) = choose|k: FormatView, v: FormatView|
                #[trigger] structure::describes(g, space, key as int, k)
                    && #[trigger] structure::describes(g, space, value as int, v) && is_given(
                    s1,
                    u,
                    FormatView::MapOf { key: Box::new(k), value: Box::new(v) },
                );
            assert(structure::describes(
                g,
                space,
                i,
                FormatView::MapOf { key: Box::new(k), value: Box::new(v) },
            ));
        }
    } else if let Step::Done(Some(format)) = scalar::scalar_format(shape) {
        if shape.def is Scalar {
            assert(structure::describes(g, space, i, format));
        }
    }
    if shape.def == Def::Pointer(None) {
        assert(structure::describes(g, space, i, FormatView::Unit));
    }
}

/// A slice or an array of which something else is known is a sequence of its items.
pub proof fn law_other_sequences(g: Seq<Shape>, s: State, i: int, t: int, room: nat)
    requires
        shape::shapes_wf(g),
        progress::orderly(s),
        completion::well_named(g, s),
        0 <= i < g.len(),
        is_waiting(s),
        ({
            let shape = g[naming::generated(g, i)];
            &&& !(shape.def is Option)
            &&& match shape.ty {
                Type::Sequence(SequenceType::Slice(u)) => u == t && !(shape.def is Slice),
                Type::Sequence(SequenceType::Array(u)) => u == t && !(shape.def is Array),
                _ => false,
            }
        }),
    ensures
        walk::reflect(g, s, i, room) matches Step::Done(u) ==> exists|format: FormatView| #[trigger]
            structure::describes(g, structure::space_of(s), t, format) && is_given(
                s,
                u,
                FormatView::SeqOf(Box::new(format)),
            ),
{
    naming::lemma_generated(g, i);
    let j = naming::generated(g, i);
    let shape = g[j];
    assert(shape::shape_wf(g, j));
    let s1 = model::meet_params(s, shape).0;
    completion::lemma_well_named_before(g, s1, s);
    progress::lemma_meet_params(g, s, shape);
    progress::lemma_keeps_orderly(g, s, s1);
    assert(structure::space_of(s1) == structure::space_of(s));
    lemma_compound(g, s1, t, j, Wrap::SeqOf, true, room);
}

/// A primitive type of which nothing but its kind is known is a truth value, a float or a text.
pub proof fn law_bare_primitives(g: Seq<Shape>, s: State, i: int, room: nat)
    requires
        shape::shapes_wf(g),
        0 <= i < g.len(),
        is_waiting(s),
        g[naming::generated(g, i)].def is Undefined,
        g[naming::generated(g, i)].type_params is None,
    ensures
        match g[naming::generated(g, i)].ty {
            Type::Primitive(PrimitiveType::Boolean) => walk::reflect(g, s, i, room)
                matches Step::Done(t) && is_given(s, t, FormatView::Bool),
            Type::Primitive(PrimitiveType::Float) => walk::reflect(g, s, i, room)
                matches Step::Done(t) && is_given(s, t, FormatView::F32),
            Type::Primitive(PrimitiveType::Str) => walk::reflect(g, s, i, room)
                matches Step::Done(t) && is_given(s, t, FormatView::Str),
            Type::Primitive(_) => walk::reflect(g, s, i, room) is Unsupported,
            _ => true,
        },
{
    naming::lemma_generated(g, i);
}

/// A type that has nothing to it: a scalar that is not known, one whose meaning has no format, or
/// one of which nothing is known and that is neither a primitive type, a pointer nor a sequence.
pub open spec fn has_nothing(shape: Shape) -> bool {
    &&& !(shape.ty matches Type::User(UserType::Struct(_)))
    &&& !(shape.ty matches Type::User(UserType::Enum(_)))
    &&& !(shape.ty is Sequence)
    &&& match shape.def {
        Def::Scalar => scalar::scalar_format(shape) == Step::Done(None::<FormatView>)
            && !(shape.ty is Pointer),
        Def::Other => !(shape.ty is Pointer),
        Def::Undefined => !(shape.ty is Primitive) && (shape.ty matches Type::Pointer(pointer)
            ==> pointer is Function),
        _ => false,
    }
}

/// Such a type is passed over: nothing is supplied, nothing is registered, and that is no error.
pub proof fn law_nothing_to_reflect(g: Seq<Shape>, s: State, i: int, room: nat)
    requires
        shape::shapes_wf(g),
        0 <= i < g.len(),
        has_nothing(g[naming::generated(g, i)]),
    ensures
        g[naming::generated(g, i)].type_params is None ==> walk::reflect(g, s, i, room)
            == Step::Done(s),
        walk::register(g, s, i, room) == Step::Done(s),
{
    naming::lemma_generated(g, i);
}

/// A pointer of which nothing else is known is reflected as what it points to.
pub proof fn law_bare_pointers(g: Seq<Shape>, s: State, i: int, t: int, room: nat)
    requires
        shape::shapes_wf(g),
        0 <= i < g.len(),
        ({
            let shape = g[naming::generated(g, i)];
            &&& shape.def is Undefined
            &&& shape.type_params is None
            &&& match shape.ty {
                Type::Pointer(PointerType::Reference(u)) => u == t,
                Type::Pointer(PointerType::Raw(u)) => u == t,
                _ => false,
            }
        }),
    ensures
        walk::reflect(g, s, i, room) == walk::reflect(g, s, t, room),
        walk::register(g, s, i, room) == walk::register(g, s, t, room),
{
    naming::lemma_generated(g, i);
    assert(shape::shape_wf(g, naming::generated(g, i)));
}

/// What is registered of a compound type is what its parts reach, the keys of a map first.
pub proof fn law_registering_parts(g: Seq<Shape>, s: State, i: int, room: nat)
    requires
        shape::shapes_wf(g),
        0 <= i < g.len(),
        !(g[naming::generated(g, i)].ty is User),
        !(g[naming::generated(g, i)].ty is Pointer),
    ensures
        match g[naming::generated(g, i)].def {
            Def::List(t) => walk::register(g, s, i, room) == walk::register(g, s, t as int, room),
            Def::Slice(t) => walk::register(g, s, i, room) == walk::register(g, s, t as int, room),
            Def::SetOf(t) => walk::register(g, s, i, room) == walk::register(g, s, t as int, room),
            Def::Option(t) => walk::register(g, s, i, room) == walk::register(g, s, t as int, room),
            Def::Array { item, size } => walk::register(g, s, i, room) == walk::register(
                g,
                s,
                item as int,
                room,
            ),
            Def::Pointer(Some(t)) => walk::register(g, s, i, room) == walk::register(
                g,
                s,
                t as int,
                room,
            ),
            Def::MapOf { key, value } => match walk::register(g, s, key as int, room) {
                Step::Done(t) => walk::register(g, s, i, room) == walk::register(
                    g,
                    t,
                    value as int,
                    room,
                ),
                refused => walk::register(g, s, i, room) == refused,
            },
            _ => walk::register(g, s, i, room) == Step::Done(s),
        },
{
    naming::lemma_generated(g, i);
    assert(shape::shape_wf(g, naming::generated(g, i)));
}

/// A transparent wrapper of which nothing else is known gets no container: its only field is
/// reflected in its place. The container being built is given what describes the type of the field,
/// and a struct or an enum there owns its name.
pub proof fn law_bare_wrapper(
    g: Seq<Shape>,
    s: State,
    name: NameView,
    fields: Seq<Field>,
    j: int,
    room: nat,
)
    requires
        progress::fit(g, s, room),
        completion::well_named(g, s),
        shape::is_transparent(g[j]),
        fields.len() == 1,
        fields[0].shape < g.len(),
        scalar::bytes_format(g, fields[0]) == Step::Done(None::<FormatView>),
    ensures
        ({
            let i = fields[0].shape as int;
            let k = naming::generated(g, i);
            let step = walk::struct_body(g, s, name, StructKind::TupleStruct, fields, j, room);
            &&& is_waiting(s) && has_structure(g[k]) && !shape::is_container(g[k]) ==> (step
                matches Step::Done(t) ==> is_given_type(g, s, t, i))
            &&& shape::is_container(g[k]) && !(g[k].def is Option) ==> match (
                step,
                model::walk_name(g, s, k).1,
            ) {
                (Step::Done(t), Step::Done(own)) => t.processed.contains_key(own)
                    && t.processed[own].id == g[k].id,
                _ => true,
            }
        }),
{
    progress::lemma_fit_orderly(g, s, room);
    let i = fields[0].shape as int;
    naming::lemma_generated(g, i);
    let k = naming::generated(g, i);
    if is_waiting(s) && has_structure(g[k]) && !shape::is_container(g[k]) {
        law_in_place(g, s, i, room);
    }
    if shape::is_container(g[k]) && !(g[k].def is Option) {
        completion::lemma_reflect_owns(g, s, k, room);
        laws::law_wrapper_is_transparent(g, s, i, true, room);
    }
}

} // verus!
