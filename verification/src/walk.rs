//! The walk over the shapes: what it registers, refers to and refuses.
//!
//! A walk that goes on below a container takes its name first, so the number of names that may
//! still be taken, `room`, falls with the depth of the walk. The names that a table can give
//! are finitely many, so there is always room enough.

use vstd::prelude::*;

use crate::error::ErrorView;
use crate::format::{ContainerView, FormatView, NamedView, VariantView};
use crate::model;
use crate::model::State;
use crate::names::{NameView, SpaceView};
use crate::namespace;
use crate::namespace::ActionView;
use crate::naming;
use crate::reach;
use crate::scalar;
use crate::shape;
use crate::shape::{
    Def, Field, PointerType, PrimitiveType, SequenceType, Shape, StructKind, Type, UserType, Variant,
};
use crate::step::Step;
use crate::text;

verus! {

// References

/// The error for a scalar that is not known.
pub open spec fn unknown_scalar(shape: Shape) -> ErrorView {
    ErrorView::ReflectionError {
        container: shape.type_identifier@,
        message: "Scalar type is not supported and should be skipped"@,
    }
}

/// The error for a type that has no format.
pub open spec fn unknown_type(shape: Shape) -> ErrorView {
    ErrorView::ReflectionError {
        container: shape.type_identifier@,
        message: "Type is not supported and should be skipped"@,
    }
}

/// What a reference puts around the reference to another type.
#[derive(Debug, Clone, Copy, PartialEq, Eq)]
pub enum Wrap {
    Plain,
    Option,
    SeqOf,
    SetOf,
    TupleArray(usize),
}

pub open spec fn wrapped(wrap: Wrap, format: FormatView) -> FormatView {
    match wrap {
        Wrap::Plain => format,
        Wrap::Option => FormatView::Option(Box::new(format)),
        Wrap::SeqOf => FormatView::SeqOf(Box::new(format)),
        Wrap::SetOf => FormatView::SetOf(Box::new(format)),
        Wrap::TupleArray(size) => FormatView::TupleArray { content: Box::new(format), size },
    }
}

/// What a shape refers to, where it refers to a single other shape.
pub open spec fn single(shape: Shape) -> Option<(Wrap, usize)> {
    match shape.def {
        Def::List(t) => Some((Wrap::SeqOf, t)),
        Def::Option(t) => Some((Wrap::Option, t)),
        Def::SetOf(t) => Some((Wrap::SetOf, t)),
        Def::Array { item, size } => Some((Wrap::TupleArray(size), item)),
        Def::Slice(t) => Some((Wrap::SeqOf, t)),
        Def::Pointer(Some(t)) => Some((Wrap::Plain, t)),
        Def::Undefined => if shape.type_identifier@ == "()"@ {
            None
        } else {
            match shape.ty {
                Type::Pointer(PointerType::Reference(t)) => Some((Wrap::Plain, t)),
                Type::Pointer(PointerType::Raw(t)) => Some((Wrap::Plain, t)),
                _ => None,
            }
        },
        _ => None,
    }
}

/// The fields of a tuple, if the shape is one and has some.
pub open spec fn tuple_fields_of(shape: Shape) -> Option<Seq<Field>> {
    match (shape.def, shape.ty) {
        (Def::Undefined, Type::User(UserType::Struct(st))) => if st.kind == StructKind::Tuple
            && st.fields@.len() > 0 {
            Some(st.fields@)
        } else {
            None
        },
        _ => None,
    }
}

/// The name of the shape at `i` as a format.
pub open spec fn name_reference(g: Seq<Shape>, s: State, i: int, walking: bool) -> (
    State,
    Step<FormatView>,
) {
    match model::name_of(g, s, i, walking) {
        (s1, Step::Done(name)) => (s1, Step::Done(FormatView::TypeName(name))),
        (s1, other) => (s1, model::pass(other)),
    }
}

/// The format of a reference to the shape at `i`, and the state in which its names are known.
///
/// Options, sequences, sets, maps, tuples, arrays, pointers and transparent wrappers are
/// unwrapped, and every container that the reference reaches is named.
pub open spec fn reference(g: Seq<Shape>, s: State, i: int, walking: bool) -> (
    State,
    Step<FormatView>,
)
    decreases i, 1int, 0int,
{
    let j = naming::generated(g, i);
    let shape = g[j];
    if shape::is_container(shape) {
        name_reference(g, s, j, walking)
    } else if let Some(fields) = tuple_fields_of(shape) {
        match reference_all(g, s, fields, 0, i, walking) {
            (s1, Step::Done(formats)) => (s1, Step::Done(FormatView::Tuple(formats))),
            (s1, other) => (s1, model::pass(other)),
        }
    } else if let Some((wrap, t)) = single(shape) {
        if t < i {
            match reference(g, s, t as int, walking) {
                (s1, Step::Done(format)) => (s1, Step::Done(wrapped(wrap, format))),
                (s1, other) => (s1, other),
            }
        } else {
            (s, Step::Stuck)
        }
    } else {
        match shape.def {
            Def::Scalar => match scalar::scalar_format(shape) {
                Step::Done(Some(format)) => (s, Step::Done(format)),
                Step::Done(None) => (s, Step::Fail(unknown_scalar(shape))),
                other => (s, model::pass(other)),
            },
            Def::MapOf { key, value } => if key < i && value < i {
                match reference(g, s, key as int, walking) {
                    (s1, Step::Done(k)) => match reference(g, s1, value as int, walking) {
                        (s2, Step::Done(v)) => (
                            s2,
                            Step::Done(
                                FormatView::MapOf { key: Box::new(k), value: Box::new(v) },
                            ),
                        ),
                        (s2, other) => (s2, other),
                    },
                    (s1, other) => (s1, other),
                }
            } else {
                (s, Step::Stuck)
            },
            Def::Undefined => if shape.type_identifier@ == "()"@ {
                (s, Step::Done(FormatView::Unit))
            } else {
                name_reference(g, s, j, walking)
            },
            Def::Pointer(None) => (s, Step::Done(FormatView::Unit)),
            _ => (s, Step::Fail(unknown_type(shape))),
        }
    }
}

/// The formats of references to the shapes of `fields` from `from` on, each below `bound`.
pub open spec fn reference_all(
    g: Seq<Shape>,
    s: State,
    fields: Seq<Field>,
    from: int,
    bound: int,
    walking: bool,
) -> (State, Step<Seq<FormatView>>)
    decreases bound, 0int, fields.len() - from,
{
    if from < 0 || from >= fields.len() {
        (s, Step::Done(Seq::empty()))
    } else if fields[from].shape >= bound {
        (s, Step::Stuck)
    } else {
        match reference(g, s, fields[from].shape as int, walking) {
            (s1, Step::Done(first)) => match reference_all(
                g,
                s1,
                fields,
                from + 1,
                bound,
                walking,
            ) {
                (s2, Step::Done(rest)) => (s2, Step::Done(seq![first] + rest)),
                (s2, other) => (s2, other),
            },
            (s1, other) => (s1, model::pass(other)),
        }
    }
}

/// The reference `format` to the shape at `i` with every container that it names under the name
/// under which that stands.
pub open spec fn standing(g: Seq<Shape>, s: State, i: int, format: FormatView) -> FormatView
    decreases i, 1int, 0int,
{
    let j = naming::generated(g, i);
    let shape = g[j];
    if shape::is_container(shape) {
        match format {
            FormatView::TypeName(name) => FormatView::TypeName(
                model::standing_name(g, s, j, name),
            ),
            other => other,
        }
    } else if let Some(fields) = tuple_fields_of(shape) {
        match format {
            FormatView::Tuple(formats) => FormatView::Tuple(
                standing_all(g, s, fields, formats, i),
            ),
            other => other,
        }
    } else if let Some((wrap, t)) = single(shape) {
        if t < i {
            match (wrap, format) {
                (Wrap::Plain, _) => standing(g, s, t as int, format),
                (Wrap::Option, FormatView::Option(inner)) => FormatView::Option(
                    Box::new(standing(g, s, t as int, *inner)),
                ),
                (Wrap::SeqOf, FormatView::SeqOf(inner)) => FormatView::SeqOf(
                    Box::new(standing(g, s, t as int, *inner)),
                ),
                (Wrap::SetOf, FormatView::SetOf(inner)) => FormatView::SetOf(
                    Box::new(standing(g, s, t as int, *inner)),
                ),
                (Wrap::TupleArray(_), FormatView::TupleArray { content, size }) => {
                    FormatView::TupleArray {
                        content: Box::new(standing(g, s, t as int, *content)),
                        size,
                    }
                },
                _ => format,
            }
        } else {
            format
        }
    } else {
        match (shape.def, format) {
            (Def::MapOf { key, value }, FormatView::MapOf { key: k, value: v }) => if key < i
                && value < i {
                FormatView::MapOf {
                    key: Box::new(standing(g, s, key as int, *k)),
                    value: Box::new(standing(g, s, value as int, *v)),
                }
            } else {
                format
            },
            _ => format,
        }
    }
}

/// The references `formats` to the shapes of `fields`, each below `bound`, likewise.
pub open spec fn standing_all(
    g: Seq<Shape>,
    s: State,
    fields: Seq<Field>,
    formats: Seq<FormatView>,
    bound: int,
) -> Seq<FormatView>
    decreases bound, 0int, 0int,
{
    Seq::new(
        formats.len(),
        |k: int|
            if 0 <= k < fields.len() && fields[k].shape < bound {
                standing(g, s, fields[k].shape as int, formats[k])
            } else {
                formats[k]
            },
    )
}

/// The format of a field whose type is at `i`; none if the type cannot be reflected.
pub open spec fn field_format(g: Seq<Shape>, s: State, i: int) -> (
    State,
    Step<Option<FormatView>>,
) {
    if model::is_opaque(g[naming::generated(g, i)]) {
        (s, Step::Done(None))
    } else {
        match reference(g, s, i, true) {
            (s1, Step::Done(format)) => (s1, Step::Done(Some(format))),
            (s1, Step::Fail(ErrorView::ReflectionError { container, message })) => (
                s1,
                Step::Done(None),
            ),
            (s1, other) => (s1, model::pass(other)),
        }
    }
}

// Registration

/// Registers every container that a reference to the shape at `i` reaches, setting the
/// container being built aside.
pub open spec fn nested(g: Seq<Shape>, s: State, i: int, room: nat) -> Step<State>
    decreases room, i, 7int, 0int,
{
    match register(g, model::set_aside(s), i, room) {
        Step::Done(s1) => Step::Done(model::take_up(s, s1)),
        other => other,
    }
}

/// Registers what the reference `format` to the shape at `i` reaches, and gives the reference with
/// the names under which all this stands.
pub open spec fn settled(g: Seq<Shape>, s: State, i: int, format: FormatView, room: nat) -> Step<
    (State, FormatView),
>
    decreases room, i, 7int, 1int,
{
    match nested(g, s, i, room) {
        Step::Done(s1) => Step::Done((s1, standing(g, s1, i, format))),
        other => model::pass(other),
    }
}

/// Registers every container that a reference to the shape at `i` reaches.
pub open spec fn register(g: Seq<Shape>, s: State, i: int, room: nat) -> Step<State>
    decreases room, i, 6int, 0int,
{
    let k = naming::generated(g, i);
    let shape = g[k];
    if !(0 <= k <= i) {
        Step::Stuck
    } else if let Def::Option(t) = shape.def {
        register_below(g, s, t as int, k, room)
    } else {
        match shape.ty {
            Type::User(UserType::Struct(st)) => if st.kind == StructKind::Tuple {
                register_all(g, s, st.fields@, 0, k, room)
            } else {
                reflect(g, s, k, room)
            },
            Type::User(UserType::Enum(_)) => reflect(g, s, k, room),
            Type::Pointer(PointerType::Reference(t)) => register_below(g, s, t as int, k, room),
            Type::Pointer(PointerType::Raw(t)) => register_below(g, s, t as int, k, room),
            _ => match shape.def {
                Def::List(t) => register_below(g, s, t as int, k, room),
                Def::Slice(t) => register_below(g, s, t as int, k, room),
                Def::SetOf(t) => register_below(g, s, t as int, k, room),
                Def::Array { item, size } => register_below(g, s, item as int, k, room),
                Def::MapOf { key, value } => match register_below(g, s, key as int, k, room) {
                    Step::Done(s1) => register_below(g, s1, value as int, k, room),
                    other => other,
                },
                Def::Pointer(Some(t)) => register_below(g, s, t as int, k, room),
                _ => Step::Done(s),
            },
        }
    }
}

/// [`register`] for a shape below `bound`.
pub open spec fn register_below(g: Seq<Shape>, s: State, i: int, bound: int, room: nat) -> Step<
    State,
>
    decreases room, bound, 1int, 0int,
{
    if 0 <= i < bound {
        register(g, s, i, room)
    } else {
        Step::Stuck
    }
}

/// [`register`] for the shape of each of `fields` from `from` on.
pub open spec fn register_all(
    g: Seq<Shape>,
    s: State,
    fields: Seq<Field>,
    from: int,
    bound: int,
    room: nat,
) -> Step<State>
    decreases room, bound, 2int, fields.len() - from,
{
    if from < 0 || from >= fields.len() {
        Step::Done(s)
    } else {
        match register_below(g, s, fields[from].shape as int, bound, room) {
            Step::Done(s1) => register_all(g, s1, fields, from + 1, bound, room),
            other => other,
        }
    }
}

/// Reflects the type at `i`.
pub open spec fn reflect(g: Seq<Shape>, s: State, i: int, room: nat) -> Step<State>
    decreases room, i, 5int, 0int,
{
    let j = naming::generated(g, i);
    let shape = g[j];
    let (s1, supported) = model::meet_params(s, shape);
    if !(0 <= j <= i) {
        Step::Stuck
    } else if !supported {
        Step::Fail(ErrorView::UnsupportedGenericType(shape.display@))
    } else if let Def::Option(t) = shape.def {
        compound(g, s1, t as int, j, Wrap::Option, true, room)
    } else {
        match shape.ty {
            Type::User(UserType::Struct(_)) => format_struct(g, s1, j, room),
            Type::User(UserType::Enum(_)) => format_enum(g, s1, j, room),
            Type::Sequence(sequence) => format_sequence(g, s1, j, sequence, room),
            _ => format_def(g, s1, j, room),
        }
    }
}

/// Reflects a slice or an array: by its meaning, if that says the same, else by its kind.
pub open spec fn format_sequence(
    g: Seq<Shape>,
    s: State,
    j: int,
    sequence: SequenceType,
    room: nat,
) -> Step<State>
    decreases room, j, 4int, 0int,
{
    match (sequence, g[j].def) {
        (SequenceType::Slice(_), Def::Slice(t)) => compound(
            g,
            s,
            t as int,
            j,
            Wrap::SeqOf,
            true,
            room,
        ),
        (SequenceType::Array(_), Def::Array { item, size }) => compound(
            g,
            s,
            item as int,
            j,
            Wrap::TupleArray(size),
            true,
            room,
        ),
        (SequenceType::Slice(t), _) => compound(g, s, t as int, j, Wrap::SeqOf, true, room),
        (SequenceType::Array(t), _) => compound(g, s, t as int, j, Wrap::SeqOf, true, room),
    }
}

/// Reflects a type that is neither a struct, an enum nor a sequence.
pub open spec fn format_def(g: Seq<Shape>, s: State, j: int, room: nat) -> Step<State>
    decreases room, j, 4int, 0int,
{
    let shape = g[j];
    match shape.def {
        Def::Scalar => match scalar::scalar_format(shape) {
            Step::Done(Some(format)) => model::supply(s, format, true),
            Step::Done(None) => Step::Done(s),
            other => model::pass(other),
        },
        Def::MapOf { key, value } => format_map(g, s, key as int, value as int, j, room),
        Def::List(t) => compound(g, s, t as int, j, Wrap::SeqOf, true, room),
        Def::Slice(t) => compound(g, s, t as int, j, Wrap::SeqOf, true, room),
        Def::Array { item, size } => compound(
            g,
            s,
            item as int,
            j,
            Wrap::TupleArray(size),
            true,
            room,
        ),
        Def::SetOf(t) => compound(g, s, t as int, j, Wrap::SetOf, true, room),
        Def::Option(t) => compound(g, s, t as int, j, Wrap::Option, true, room),
        Def::Pointer(Some(t)) => compound(g, s, t as int, j, Wrap::Plain, false, room),
        Def::Pointer(None) => model::supply(s, FormatView::Unit, true),
        Def::Undefined => format_undefined(g, s, j, room),
        Def::Other => Step::Done(s),
    }
}

/// Reflects a type of which nothing but its kind is known.
pub open spec fn format_undefined(g: Seq<Shape>, s: State, j: int, room: nat) -> Step<State>
    decreases room, j, 3int, 0int,
{
    match g[j].ty {
        Type::Primitive(PrimitiveType::Boolean) => model::supply(s, FormatView::Bool, true),
        Type::Primitive(PrimitiveType::Float) => model::supply(s, FormatView::F32, true),
        Type::Primitive(PrimitiveType::Str) => model::supply(s, FormatView::Str, true),
        Type::Primitive(_) => Step::Unsupported,
        Type::Pointer(PointerType::Reference(t)) => if t < j {
            reflect(g, s, t as int, room)
        } else {
            Step::Stuck
        },
        Type::Pointer(PointerType::Raw(t)) => if t < j {
            reflect(g, s, t as int, room)
        } else {
            Step::Stuck
        },
        _ => Step::Done(s),
    }
}

/// Reflects a type that wraps the type at `t`, which is below `bound`: the containers it reaches
/// are registered, and the container being built is given the wrapped reference to it.
pub open spec fn compound(
    g: Seq<Shape>,
    s: State,
    t: int,
    bound: int,
    wrap: Wrap,
    force: bool,
    room: nat,
) -> Step<State>
    decreases room, bound, 2int, 0int,
{
    if !(0 <= t < bound) {
        Step::Stuck
    } else {
        match reference(g, s, t, true) {
            (s1, Step::Done(format)) => match settled(g, s1, t, format, room) {
                Step::Done((s2, stood)) => model::supply(s2, wrapped(wrap, stood), force),
                other => model::pass(other),
            },
            (s1, other) => model::pass(other),
        }
    }
}

/// Reflects a map.
pub open spec fn format_map(
    g: Seq<Shape>,
    s: State,
    key: int,
    value: int,
    bound: int,
    room: nat,
) -> Step<State>
    decreases room, bound, 2int, 0int,
{
    if !(0 <= key < bound && 0 <= value < bound) {
        Step::Stuck
    } else {
        match reference(g, s, key, true) {
            (s1, Step::Done(k)) => match reference(g, s1, value, true) {
                (s2, Step::Done(v)) => match settled(g, s2, key, k, room) {
                    Step::Done((s3, k1)) => match settled(g, s3, value, v, room) {
                        Step::Done((s4, v1)) => model::supply(
                            s4,
                            FormatView::MapOf { key: Box::new(k1), value: Box::new(v1) },
                            true,
                        ),
                        other => model::pass(other),
                    },
                    other => model::pass(other),
                },
                (s2, other) => model::pass(other),
            },
            (s1, other) => model::pass(other),
        }
    }
}

/// Names the container at `j` and takes the name; `None` if the type owned it already.
pub open spec fn open_container(g: Seq<Shape>, s: State, j: int) -> Step<
    (State, Option<NameView>),
> {
    match model::walk_name(g, s, j) {
        (s1, Step::Done(name)) => match model::owns(g, s1, name, j) {
            Step::Done(true) => Step::Done((s1, None)),
            Step::Done(false) => {
                let s2 = model::note_rename(g, model::take_name(g, s1, name, j), name, j);
                match namespace::namespace_action(g[j].attributes@) {
                    Err(e) => Step::Fail(e),
                    Ok(action) => Step::Done((model::enter(s2, action), Some(name))),
                }
            },
            other => model::pass(other),
        },
        (s1, other) => model::pass(other),
    }
}

/// Reflects a struct. Only the elements of an anonymous tuple are registered, as a reference to
/// it names no container.
pub open spec fn format_struct(g: Seq<Shape>, s: State, j: int, room: nat) -> Step<State>
    decreases room, j, 4int, 0int,
{
    match g[j].ty {
        Type::User(UserType::Struct(st)) => if st.kind == StructKind::Tuple {
            format_tuple(g, s, st.fields@, j, room)
        } else {
            match open_container(g, s, j) {
                Step::Done((s1, None)) => Step::Done(s1),
                Step::Done((s1, Some(name))) => if room == 0 {
                    Step::Stuck
                } else {
                    match struct_body(g, s1, name, st.kind, st.fields@, j, (room - 1) as nat) {
                        Step::Done(s2) => Step::Done(model::leave(s2)),
                        other => other,
                    }
                },
                other => model::pass(other),
            }
        },
        _ => Step::Stuck,
    }
}

/// Registers the elements of an anonymous tuple.
pub open spec fn format_tuple(
    g: Seq<Shape>,
    s: State,
    fields: Seq<Field>,
    j: int,
    room: nat,
) -> Step<State>
    decreases room, j, 3int, 0int,
{
    match register_all(g, State { current: Seq::empty(), ..s }, fields, 0, j, room) {
        Step::Done(s1) => Step::Done(State { current: s.current, ..s1 }),
        other => other,
    }
}

/// Builds the container of a struct.
pub open spec fn struct_body(
    g: Seq<Shape>,
    s: State,
    name: NameView,
    kind: StructKind,
    fields: Seq<Field>,
    j: int,
    room: nat,
) -> Step<State>
    decreases room, g.len() + 4, 0int, 0int,
{
    let doc = crate::format::lines_view(g[j].doc@);
    match kind {
        StructKind::Unit => match model::start_met(
            g,
            s,
            name,
            ContainerView::UnitStruct(doc),
            j,
        ) {
            Step::Done(s1) => Step::Done(model::finish(s1)),
            other => other,
        },
        StructKind::TupleStruct => if fields.len() == 1 {
            if shape::is_transparent(g[j]) {
                wrapper_field(g, s, fields[0], room)
            } else {
                match model::start_met(
                    g,
                    s,
                    name,
                    ContainerView::NewTypeStruct(FormatView::Variable, doc),
                    j,
                ) {
                    Step::Done(s1) => match positional_field(g, s1, fields[0], room) {
                        Step::Done(s2) => Step::Done(model::finish(s2)),
                        other => other,
                    },
                    other => other,
                }
            }
        } else {
            match model::start_met(
                g,
                s,
                name,
                ContainerView::TupleStruct(Seq::empty(), doc),
                j,
            ) {
                Step::Done(s1) => match positional_fields(g, s1, fields, 0, room) {
                    Step::Done(s2) => Step::Done(model::finish(s2)),
                    other => other,
                },
                other => other,
            }
        },
        StructKind::Struct => match model::start_met(
            g,
            s,
            name,
            ContainerView::Struct(Seq::empty(), doc),
            j,
        ) {
            Step::Done(s1) => match struct_fields(g, s1, fields, 0, room) {
                Step::Done(s2) => Step::Done(model::finish(model::settle_struct(s2))),
                other => other,
            },
            other => other,
        },
        StructKind::Tuple => Step::Stuck,
    }
}

/// The only field of a transparent wrapper: no container is built, its type is reflected in
/// place.
pub open spec fn wrapper_field(g: Seq<Shape>, s: State, field: Field, room: nat) -> Step<State>
    decreases room, g.len() + 2, 0int, 0int,
{
    if field.shape >= g.len() {
        Step::Stuck
    } else {
        match model::supply_bytes(g, s, field) {
            Step::Done((s1, true)) => Step::Done(s1),
            Step::Done((s1, false)) => reflect(g, s1, field.shape as int, room),
            other => model::pass(other),
        }
    }
}

/// A field of a newtype or a tuple.
pub open spec fn positional_field(g: Seq<Shape>, s: State, field: Field, room: nat) -> Step<
    State,
>
    decreases room, g.len() + 2, 0int, 0int,
{
    if field.shape >= g.len() {
        Step::Stuck
    } else {
        match model::supply_bytes(g, s, field) {
            Step::Done((s1, true)) => Step::Done(s1),
            Step::Done((s1, false)) => positional(g, s1, field.shape as int, room),
            other => model::pass(other),
        }
    }
}

/// Registers what the type at `i` reaches, and gives the container being built its next format,
/// that of the type. A type that cannot be reflected is left out.
pub open spec fn positional(g: Seq<Shape>, s: State, i: int, room: nat) -> Step<State>
    decreases room, i, 8int, 0int,
{
    match field_format(g, s, i) {
        (s1, Step::Done(Some(format))) => match settled(g, s1, i, format, room) {
            Step::Done((s2, stood)) => model::supply(s2, stood, true),
            other => model::pass(other),
        },
        (s1, Step::Done(None)) => nested(g, s1, i, room),
        (s1, other) => model::pass(other),
    }
}

/// The fields of a tuple struct from `from` on.
pub open spec fn positional_fields(
    g: Seq<Shape>,
    s: State,
    fields: Seq<Field>,
    from: int,
    room: nat,
) -> Step<State>
    decreases room, g.len() + 3, 0int, fields.len() - from,
{
    if from < 0 || from >= fields.len() {
        Step::Done(s)
    } else if fields[from].skip {
        positional_fields(g, s, fields, from + 1, room)
    } else {
        match positional_field(g, s, fields[from], room) {
            Step::Done(s1) => positional_fields(g, s1, fields, from + 1, room),
            other => other,
        }
    }
}

/// The fields of a struct from `from` on.
pub open spec fn struct_fields(
    g: Seq<Shape>,
    s: State,
    fields: Seq<Field>,
    from: int,
    room: nat,
) -> Step<State>
    decreases room, g.len() + 3, 0int, fields.len() - from,
{
    if from < 0 || from >= fields.len() {
        Step::Done(s)
    } else if fields[from].skip {
        struct_fields(g, s, fields, from + 1, room)
    } else {
        match struct_field(g, s, fields[from], room) {
            Step::Done(s1) => struct_fields(g, s1, fields, from + 1, room),
            other => other,
        }
    }
}

/// A field of a struct.
pub open spec fn struct_field(g: Seq<Shape>, s: State, field: Field, room: nat) -> Step<State>
    decreases room, g.len() + 2, 0int, 0int,
{
    if field.shape >= g.len() {
        Step::Stuck
    } else {
        match model::supply_bytes(g, s, field) {
            Step::Done((s1, true)) => Step::Done(s1),
            Step::Done((s1, false)) => if let Some(t) = option_of(g, field) {
                option_field(g, s1, field, t, room)
            } else if let Some(inside) = tuple_field_of(g, field) {
                tuple_field(g, s1, field, inside, room)
            } else {
                plain_field(g, s1, field, room)
            },
            other => model::pass(other),
        }
    }
}

/// The type that a field holds optionally, if it is an `Option`.
pub open spec fn option_of(g: Seq<Shape>, field: Field) -> Option<int> {
    let shape = g[field.shape as int];
    match shape.def {
        Def::Option(t) => if shape.type_identifier@ == "Option"@ {
            Some(t as int)
        } else {
            None
        },
        _ => None,
    }
}

/// A field that holds an `Option` of the type at `t`.
pub open spec fn option_field(g: Seq<Shape>, s: State, field: Field, t: int, room: nat) -> Step<
    State,
>
    decreases room, g.len() + 1, 0int, 0int,
{
    if !(0 <= t < g.len()) {
        Step::Stuck
    } else {
        match reference(g, s, t, true) {
            (s1, Step::Done(format)) => match settled(g, s1, t, format, room) {
                Step::Done((s2, stood)) => Step::Done(
                    model::add_field(
                        s2,
                        model::named_field(field, FormatView::Option(Box::new(stood))),
                    ),
                ),
                other => model::pass(other),
            },
            (s1, other) => model::pass(other),
        }
    }
}

/// What stands for the type of a field, and the action to take around it: the type itself if it
/// is an anonymous tuple, the type inside if it is a transparent newtype.
pub enum Inside {
    Tuple,
    Wrapper(usize),
}

pub open spec fn tuple_field_of(g: Seq<Shape>, field: Field) -> Option<Inside> {
    let shape = g[field.shape as int];
    match shape.ty {
        Type::User(UserType::Struct(st)) => if st.kind == StructKind::Tuple {
            Some(Inside::Tuple)
        } else if st.kind == StructKind::TupleStruct && st.fields@.len() == 1
            && shape::is_transparent(shape) {
            Some(Inside::Wrapper(st.fields@[0].shape))
        } else {
            None
        },
        _ => None,
    }
}

/// A field that holds an anonymous tuple or a transparent newtype. The reference and the
/// registration are made under the namespace of the newtype, so that they agree.
pub open spec fn tuple_field(
    g: Seq<Shape>,
    s: State,
    field: Field,
    inside: Inside,
    room: nat,
) -> Step<State>
    decreases room, g.len() + 1, 0int, 0int,
{
    match inside {
        Inside::Tuple => if field.shape >= g.len() {
            Step::Stuck
        } else {
            match reference(g, s, field.shape as int, true) {
                (s1, Step::Done(format)) => match settled(
                    g,
                    s1,
                    field.shape as int,
                    format,
                    room,
                ) {
                    Step::Done((s2, stood)) => Step::Done(
                        model::add_field(s2, model::named_field(field, stood)),
                    ),
                    other => model::pass(other),
                },
                (s1, other) => model::pass(other),
            }
        },
        Inside::Wrapper(t) => if t >= g.len() {
            Step::Stuck
        } else {
            match namespace::namespace_action(g[field.shape as int].attributes@) {
                Err(e) => Step::Fail(e),
                Ok(action) => match reference(g, model::enter(s, action), t as int, true) {
                    (s1, Step::Done(format)) => match settled(g, s1, t as int, format, room) {
                        Step::Done((s2, stood)) => Step::Done(
                            model::add_field(
                                model::leave(s2),
                                model::named_field(field, stood),
                            ),
                        ),
                        other => model::pass(other),
                    },
                    (s1, other) => model::pass(other),
                },
            }
        },
    }
}

/// Any other field: its type is reflected under the namespace that the field is annotated with.
pub open spec fn plain_field(g: Seq<Shape>, s: State, field: Field, room: nat) -> Step<State>
    decreases room, g.len() + 1, 1int, 0int,
{
    match namespace::namespace_action(field.attributes@) {
        Err(e) => Step::Fail(e),
        Ok(action) => match field_value(g, model::enter(s, action), field, action, room) {
            Step::Done((s1, Some(value))) => Step::Done(
                model::add_field(s1, model::named_field(field, value)),
            ),
            Step::Done((s1, None)) => Step::Done(s1),
            other => model::pass(other),
        },
    }
}

/// The format of a field whose context is in force, if it has one: its type is reflected, and
/// the context is left.
pub open spec fn field_value(
    g: Seq<Shape>,
    s: State,
    field: Field,
    action: ActionView,
    room: nat,
) -> Step<(State, Option<FormatView>)>
    decreases room, g.len() + 1, 0int, 0int,
{
    if field.shape >= g.len() {
        Step::Stuck
    } else {
        match field_format(g, s, field.shape as int) {
            (s1, Step::Done(None)) => Step::Done((model::leave(s1), None)),
            (s1, Step::Done(Some(value))) => match field_type(
                g,
                s1,
                field.shape as int,
                action,
                room,
            ) {
                Step::Done(s2) => Step::Done(
                    (
                        model::leave(s2),
                        Some(standing(g, s2, field.shape as int, value)),
                    ),
                ),
                other => model::pass(other),
            },
            (s1, other) => model::pass(other),
        }
    }
}

/// The namespace that an action names explicitly.
pub open spec fn named_space(action: ActionView) -> Option<Seq<char>> {
    match action {
        ActionView::SetContext(context) => if context.explicit {
            match context.namespace {
                SpaceView::Named(name) => Some(name),
                SpaceView::Root => None,
            }
        } else {
            None
        },
        ActionView::Inherit => None,
    }
}

/// Reflects the type of a field, in the namespace that the field names if it names one.
pub open spec fn field_type(g: Seq<Shape>, s: State, i: int, action: ActionView, room: nat) -> Step<
    State,
>
    decreases room, i, 7int, 0int,
{
    match named_space(action) {
        Some(space) => format_in(g, s, i, space, room),
        None => reflect(g, s, i, room),
    }
}

/// Reflects the type at `i` in the namespace `space`, unless its container is there already, and
/// meets it once more under the context in force, which a field has set.
pub open spec fn format_in(g: Seq<Shape>, s: State, i: int, space: Seq<char>, room: nat) -> Step<
    State,
>
    decreases room, i, 6int, 0int,
{
    match stands_in(g, s, i, space) {
        Step::Done(true) => Step::Done(s),
        Step::Done(false) => {
            let inside = model::enter(
                s,
                ActionView::SetContext(namespace::explicit_context(SpaceView::Named(space))),
            );
            match reflect(g, inside, i, room) {
                Step::Done(s1) => meet_again(g, model::leave(s1), i),
                other => other,
            }
        },
        other => model::pass(other),
    }
}

/// Names the type at `i` under the context in force, for what that meets.
pub open spec fn meet_again(g: Seq<Shape>, s: State, i: int) -> Step<State> {
    match model::walk_name(g, s, i) {
        (s1, Step::Done(_)) => Step::Done(s1),
        (s1, other) => model::pass(other),
    }
}

/// Whether the type at `i` owns its generated name in the namespace `space`; an error if another
/// type does. A type that goes by a recorded rename is not looked for there.
pub open spec fn stands_in(g: Seq<Shape>, s: State, i: int, space: Seq<char>) -> Step<bool> {
    let k = naming::generated(g, i);
    match (naming::own_name(g, k), namespace::namespace_action(g[k].attributes@)) {
        (Ok(own), Ok(action)) => if model::recorded_rename(g, s, k) is None {
            match model::owns(g, s, name_in(own, action, space), k) {
                Step::Done(owned) => Step::Done(
                    owned && shape::is_container(g[k]) && namespace::may_move(action, space),
                ),
                other => other,
            }
        } else {
            Step::Done(false)
        },
        _ => Step::Done(false),
    }
}

/// The name of a type in the namespace `space`: its own name there, also where it is annotated
/// with another namespace.
pub open spec fn name_in(own: NameView, action: ActionView, space: Seq<char>) -> NameView {
    if namespace::action_is_explicit(action) && namespace::may_move(action, space) {
        own
    } else {
        NameView { namespace: SpaceView::Named(space), name: own.name }
    }
}

// Enums

/// Reflects an enum. The containers being built are set aside while its variants are.
pub open spec fn format_enum(g: Seq<Shape>, s: State, j: int, room: nat) -> Step<State>
    decreases room, j, 4int, 0int,
{
    match g[j].ty {
        Type::User(UserType::Enum(et)) => match open_container(g, s, j) {
            Step::Done((s1, None)) => Step::Done(s1),
            Step::Done((s1, Some(name))) => if room == 0 {
                Step::Stuck
            } else {
                match enum_variants(
                    g,
                    State { current: Seq::empty(), ..s1 },
                    et.variants@,
                    0,
                    0,
                    Map::empty(),
                    j,
                    (room - 1) as nat,
                ) {
                    Step::Done((s2, variants)) => match model::start_met(
                        g,
                        State { current: s.current, ..s2 },
                        name,
                        ContainerView::Enum(
                            variants,
                            naming::tagging(g[j]),
                            crate::format::lines_view(g[j].doc@),
                        ),
                        j,
                    ) {
                        Step::Done(s3) => Step::Done(model::leave(model::finish(s3))),
                        other => other,
                    },
                    other => model::pass(other),
                }
            },
            other => model::pass(other),
        },
        _ => Step::Stuck,
    }
}

/// The variants of the enum at `j` from `from` on, which are numbered from `index` on and added
/// to `known`. A variant that is to be skipped gets no number.
pub open spec fn enum_variants(
    g: Seq<Shape>,
    s: State,
    variants: Seq<Variant>,
    from: int,
    index: int,
    known: Map<u32, NamedView<VariantView>>,
    j: int,
    room: nat,
) -> Step<(State, Map<u32, NamedView<VariantView>>)>
    decreases room, g.len() + 5, 0int, variants.len() - from,
{
    if from < 0 || from >= variants.len() {
        Step::Done((s, known))
    } else if shape::has_attr(variants[from].attributes@, None, "skip"@) {
        enum_variants(g, s, variants, from + 1, index, known, j, room)
    } else {
        match variant_format(g, s, variants[from], j, room) {
            Step::Done((s1, value)) => {
                let named = NamedView {
                    name: naming::renamed(variants[from].rename, variants[from].name),
                    doc: crate::format::lines_view(variants[from].doc@),
                    value,
                };
                enum_variants(
                    g,
                    s1,
                    variants,
                    from + 1,
                    index + 1,
                    known.insert(index as u32, named),
                    j,
                    room,
                )
            },
            other => model::pass(other),
        }
    }
}

/// Whether the fields of a variant have names: the first one is not called by a number.
pub open spec fn has_names(variant: Variant) -> bool {
    variant.fields@.len() > 0 && !text::all_digits(variant.fields@[0].name@)
}

/// The format of a variant of the enum at `j`.
pub open spec fn variant_format(
    g: Seq<Shape>,
    s: State,
    variant: Variant,
    j: int,
    room: nat,
) -> Step<(State, VariantView)>
    decreases room, g.len() + 4, 1int, 0int,
{
    if variant.fields@.len() == 0 {
        Step::Done((s, VariantView::Unit))
    } else if has_names(variant) {
        struct_variant(g, s, variant, room)
    } else if variant.fields@.len() == 1 {
        newtype_variant(g, s, variant.fields@[0], room)
    } else {
        tuple_variant(g, s, variant, j, room)
    }
}

/// The format of the payload of a newtype variant: an optional one must have a format.
pub open spec fn payload_format(g: Seq<Shape>, s: State, i: int) -> (
    State,
    Step<Option<FormatView>>,
) {
    if g[i].def is Option {
        match reference(g, s, i, true) {
            (s1, Step::Done(format)) => (s1, Step::Done(Some(format))),
            (s1, other) => (s1, model::pass(other)),
        }
    } else {
        field_format(g, s, i)
    }
}

/// A variant with a single positional field. A payload without a format makes it a unit variant.
pub open spec fn newtype_variant(g: Seq<Shape>, s: State, field: Field, room: nat) -> Step<
    (State, VariantView),
>
    decreases room, g.len() + 3, 0int, 0int,
{
    if field.shape >= g.len() {
        Step::Stuck
    } else {
        match scalar::bytes_format(g, field) {
            Step::Done(Some(value)) => Step::Done((s, VariantView::NewType(value))),
            Step::Done(None) => if g[field.shape as int].type_identifier@ == "()"@ {
                Step::Done((s, VariantView::NewType(FormatView::Unit)))
            } else {
                match namespace::namespace_action(field.attributes@) {
                    Err(e) => Step::Fail(e),
                    Ok(action) => match payload_format(
                        g,
                        model::enter(s, action),
                        field.shape as int,
                    ) {
                        (s1, Step::Done(Some(format))) => if format is Unit {
                            Step::Done((model::leave(s1), VariantView::Unit))
                        } else {
                            match settled(g, s1, field.shape as int, format, room) {
                                Step::Done((s2, stood)) => Step::Done(
                                    (model::leave(s2), VariantView::NewType(stood)),
                                ),
                                other => model::pass(other),
                            }
                        },
                        (s1, Step::Done(None)) => Step::Done(
                            (model::leave(s1), VariantView::Unit),
                        ),
                        (s1, other) => model::pass(other),
                    },
                }
            },
            other => model::pass(other),
        }
    }
}

/// A variant with named fields. One that is left without fields is a unit variant.
pub open spec fn struct_variant(g: Seq<Shape>, s: State, variant: Variant, room: nat) -> Step<
    (State, VariantView),
>
    decreases room, g.len() + 4, 0int, 0int,
{
    match variant_fields(g, s, variant.fields@, 0, Seq::empty(), room) {
        Step::Done((s1, fields)) => Step::Done(
            (
                s1,
                if fields.len() == 0 {
                    VariantView::Unit
                } else {
                    VariantView::Struct(fields)
                },
            ),
        ),
        other => model::pass(other),
    }
}

/// The named fields of a variant from `from` on, after those of `known`. A field without a format
/// is left out.
pub open spec fn variant_fields(
    g: Seq<Shape>,
    s: State,
    fields: Seq<Field>,
    from: int,
    known: Seq<NamedView<FormatView>>,
    room: nat,
) -> Step<(State, Seq<NamedView<FormatView>>)>
    decreases room, g.len() + 3, 0int, fields.len() - from,
{
    if from < 0 || from >= fields.len() {
        Step::Done((s, known))
    } else if fields[from].skip {
        variant_fields(g, s, fields, from + 1, known, room)
    } else {
        match variant_field(g, s, fields[from], room) {
            Step::Done((s1, Some(value))) => variant_fields(
                g,
                s1,
                fields,
                from + 1,
                known.push(model::named_field(fields[from], value)),
                room,
            ),
            Step::Done((s1, None)) => variant_fields(g, s1, fields, from + 1, known, room),
            other => model::pass(other),
        }
    }
}

/// The format of a named field of a variant, if it has one.
pub open spec fn variant_field(g: Seq<Shape>, s: State, field: Field, room: nat) -> Step<
    (State, Option<FormatView>),
>
    decreases room, g.len() + 2, 0int, 0int,
{
    if field.shape >= g.len() {
        Step::Stuck
    } else {
        match scalar::bytes_format(g, field) {
            Step::Done(Some(value)) => Step::Done((s, Some(value))),
            Step::Done(None) => match namespace::namespace_action(field.attributes@) {
                Err(e) => Step::Fail(e),
                Ok(action) => {
                    let inside = model::enter(s, action);
                    if let Some(t) = option_of(g, field) {
                        variant_option(g, inside, t, room)
                    } else {
                        field_value(g, inside, field, action, room)
                    }
                },
            },
            other => model::pass(other),
        }
    }
}

/// The format of a field of a variant that holds an `Option` of the type at `t`, once the context
/// of the field is in force; the context is left.
pub open spec fn variant_option(g: Seq<Shape>, s: State, t: int, room: nat) -> Step<
    (State, Option<FormatView>),
>
    decreases room, g.len() + 1, 0int, 0int,
{
    if !(0 <= t < g.len()) {
        Step::Stuck
    } else {
        match reference(g, s, t, true) {
            (s1, Step::Done(format)) => match settled(g, s1, t, format, room) {
                Step::Done((s2, stood)) => Step::Done(
                    (model::leave(s2), Some(FormatView::Option(Box::new(stood)))),
                ),
                other => model::pass(other),
            },
            (s1, other) => model::pass(other),
        }
    }
}

/// A variant with several positional fields.
pub open spec fn tuple_variant(g: Seq<Shape>, s: State, variant: Variant, j: int, room: nat) -> Step<
    (State, VariantView),
>
    decreases room, g.len() + 4, 0int, 0int,
{
    match variant_items(g, s, variant.fields@, 0, Seq::empty(), j, room) {
        Step::Done((s1, formats)) => Step::Done((s1, VariantView::Tuple(formats))),
        other => model::pass(other),
    }
}

/// The positional fields of a variant of the enum at `j` from `from` on, after those of `known`.
/// A field without a format is left out.
pub open spec fn variant_items(
    g: Seq<Shape>,
    s: State,
    fields: Seq<Field>,
    from: int,
    known: Seq<FormatView>,
    j: int,
    room: nat,
) -> Step<(State, Seq<FormatView>)>
    decreases room, g.len() + 3, 0int, fields.len() - from,
{
    if from < 0 || from >= fields.len() {
        Step::Done((s, known))
    } else if fields[from].skip {
        variant_items(g, s, fields, from + 1, known, j, room)
    } else {
        match variant_item(g, s, fields[from], j, room) {
            Step::Done((s1, Some(value))) => variant_items(
                g,
                s1,
                fields,
                from + 1,
                known.push(value),
                j,
                room,
            ),
            Step::Done((s1, None)) => variant_items(g, s1, fields, from + 1, known, j, room),
            other => model::pass(other),
        }
    }
}

/// The format of a positional field of a variant of the enum at `j`, if it has one, under the
/// namespace of the enum.
pub open spec fn variant_item(g: Seq<Shape>, s: State, field: Field, j: int, room: nat) -> Step<
    (State, Option<FormatView>),
>
    decreases room, g.len() + 2, 0int, 0int,
{
    if field.shape >= g.len() {
        Step::Stuck
    } else {
        match scalar::bytes_format(g, field) {
            Step::Done(Some(value)) => Step::Done((s, Some(value))),
            Step::Done(None) => match namespace::namespace_action(g[j].attributes@) {
                Err(e) => Step::Fail(e),
                Ok(action) => match field_format(
                    g,
                    model::enter(s, action),
                    field.shape as int,
                ) {
                    (s1, Step::Done(Some(value))) => match settled(
                        g,
                        s1,
                        field.shape as int,
                        value,
                        room,
                    ) {
                        Step::Done((s2, stood)) => Step::Done((model::leave(s2), Some(stood))),
                        other => model::pass(other),
                    },
                    (s1, Step::Done(None)) => match nested(g, s1, field.shape as int, room) {
                        Step::Done(s2) => Step::Done((model::leave(s2), None)),
                        other => model::pass(other),
                    },
                    (s1, other) => model::pass(other),
                },
            },
            other => model::pass(other),
        }
    }
}

// The walk as a whole

/// Reflects the type at `i`, with room for all the names that the table can give.
pub open spec fn reflected(g: Seq<Shape>, s: State, i: int) -> Step<State> {
    reflect(g, s, i, reach::candidates(g).len())
}

/// The format of a reference to the type at `i`, with the names that have been settled on.
pub open spec fn settled_reference(g: Seq<Shape>, s: State, i: int) -> Step<FormatView> {
    reference(g, s, i, false).1
}

} // verus!
