//! What structs become, with their fields.

use vstd::prelude::*;

use crate::completion;
use crate::completion::fields as building;
use crate::format::{lines_view, ContainerView, FormatView, NamedView};
use crate::laws;
use crate::laws::structure;
use crate::model;
use crate::model::State;
use crate::names::{NameView, SpaceView};
use crate::namespace;
use crate::naming;
use crate::progress;
use crate::reach;
use crate::scalar;
use crate::shape;
use crate::shape::{Attr, Def, Field, Shape, StructKind, StructType, Type, UserType};
use crate::step::Step;
use crate::walk;
use crate::walk::{Inside, Wrap};

verus! {

// Fields

/// No format describes the type at `i`, whatever namespace is in force.
pub open spec fn lacks_format(g: Seq<Shape>, i: int) -> bool {
    forall|space: Option<SpaceView>, format: FormatView|
        !#[trigger] structure::describes(g, space, i, format)
}

/// The type at `i` has no format: it is opaque, or it holds a type that has none.
pub open spec fn has_no_format(g: Seq<Shape>, i: int) -> bool {
    model::is_opaque(g[naming::generated(g, i)]) || lacks_format(g, i)
}

/// The value of an item: the byte string that it is annotated to be, else what describes its type
/// in the namespace in force.
pub open spec fn is_item(
    g: Seq<Shape>,
    space: Option<SpaceView>,
    field: Field,
    value: FormatView,
) -> bool {
    match scalar::bytes_format(g, field) {
        Step::Done(Some(bytes)) => value == bytes,
        _ => structure::describes(g, space, field.shape as int, value),
    }
}

/// An item that may be left out.
pub open spec fn may_be_left_out(g: Seq<Shape>, field: Field) -> bool {
    scalar::bytes_format(g, field) == Step::Done(None::<FormatView>) && has_no_format(
        g,
        field.shape as int,
    )
}

/// Whether the field holds an `Option`, and of what.
pub open spec fn is_optional(g: Seq<Shape>, field: Field, t: int) -> bool {
    let shape = g[field.shape as int];
    shape.type_identifier@ == "Option"@ && (shape.def matches Def::Option(c) && c == t)
}

/// Whether the field holds a transparent newtype, and what that wraps.
pub open spec fn is_newtype(g: Seq<Shape>, field: Field, t: int) -> bool {
    let shape = g[field.shape as int];
    shape::is_transparent(shape) && (shape.ty matches Type::User(UserType::Struct(st)) && st.kind
        == StructKind::TupleStruct && st.fields@.len() == 1 && st.fields@[0].shape == t)
}

/// Whether the field holds an anonymous tuple.
pub open spec fn is_tuple(g: Seq<Shape>, field: Field) -> bool {
    g[field.shape as int].ty matches Type::User(UserType::Struct(st)) && st.kind
        == StructKind::Tuple
}

/// The value of a field of a struct: an option of what describes the content of an `Option`, what
/// describes the type that a transparent newtype wraps, or what describes its type. The namespace
/// that the field is annotated with is in force but for an `Option` and an anonymous tuple, and
/// that which a transparent newtype is annotated with is for what it wraps.
pub open spec fn is_field_value(
    g: Seq<Shape>,
    space: Option<SpaceView>,
    field: Field,
    value: FormatView,
) -> bool {
    let i = field.shape as int;
    &&& forall|t: int| #[trigger]
        is_optional(g, field, t) ==> (value matches FormatView::Option(inner)
            && structure::describes(g, space, t, *inner))
    &&& (forall|t: int| !#[trigger] is_optional(g, field, t)) ==> {
        &&& is_tuple(g, field) ==> structure::describes(g, space, i, value)
        &&& forall|t: int| #[trigger]
            is_newtype(g, field, t) ==> structure::describes(
                g,
                structure::space_under(space, g[i].attributes@),
                t,
                value,
            )
        &&& !is_tuple(g, field) && (forall|t: int| !#[trigger] is_newtype(g, field, t))
            ==> structure::describes(
            g,
            structure::space_under(space, field.attributes@),
            i,
            value,
        )
    }
}

/// What a field of a struct becomes: it has its rename or its name, and its value. Its
/// documentation is its own, but for a byte string, which has that of its type.
pub open spec fn is_field(
    g: Seq<Shape>,
    space: Option<SpaceView>,
    field: Field,
    named: NamedView<FormatView>,
) -> bool {
    &&& named.name == match field.rename {
        Some(text) => text@,
        None => field.name@,
    }
    &&& match scalar::bytes_format(g, field) {
        Step::Done(Some(bytes)) => named.value == bytes && named.doc == lines_view(
            g[field.shape as int].doc@,
        ),
        _ => named.doc == lines_view(field.doc@) && is_field_value(g, space, field, named.value),
    }
}

/// The fields of a struct are those of the type in their order, without the skipped ones and
/// without those that no format describes.
pub open spec fn are_fields(
    g: Seq<Shape>,
    space: Option<SpaceView>,
    fields: Seq<Field>,
    n: int,
    out: Seq<NamedView<FormatView>>,
) -> bool
    decreases n,
{
    if n <= 0 {
        out.len() == 0
    } else if fields[n - 1].skip {
        are_fields(g, space, fields, n - 1, out)
    } else {
        ||| may_be_left_out(g, fields[n - 1]) && are_fields(g, space, fields, n - 1, out)
        ||| out.len() > 0 && is_field(g, space, fields[n - 1], out.last()) && are_fields(
            g,
            space,
            fields,
            n - 1,
            out.drop_last(),
        )
    }
}

/// The items of a tuple likewise.
pub open spec fn are_items(
    g: Seq<Shape>,
    space: Option<SpaceView>,
    fields: Seq<Field>,
    n: int,
    out: Seq<FormatView>,
) -> bool
    decreases n,
{
    if n <= 0 {
        out.len() == 0
    } else if fields[n - 1].skip {
        are_items(g, space, fields, n - 1, out)
    } else {
        ||| may_be_left_out(g, fields[n - 1]) && are_items(g, space, fields, n - 1, out)
        ||| out.len() > 0 && is_item(g, space, fields[n - 1], out.last()) && are_items(
            g,
            space,
            fields,
            n - 1,
            out.drop_last(),
        )
    }
}

/// What a struct becomes: a unit struct if it has no fields, or none are left; a newtype, whose
/// format stays unknown if no format describes its one field; a tuple; or a struct. It has the
/// documentation of the type, and its fields are in the namespace that it is annotated with.
pub open spec fn is_struct(
    g: Seq<Shape>,
    outer: Option<SpaceView>,
    shape: Shape,
    container: ContainerView,
) -> bool {
    let space = structure::space_under(outer, shape.attributes@);
    let lines = lines_view(shape.doc@);
    shape.ty matches Type::User(UserType::Struct(st)) && match st.kind {
        StructKind::Unit => container == ContainerView::UnitStruct(lines),
        StructKind::TupleStruct => if st.fields@.len() == 1 {
            container matches ContainerView::NewTypeStruct(value, doc) && doc == lines && (is_item(
                g,
                space,
                st.fields@[0],
                value,
            ) || value is Variable && may_be_left_out(g, st.fields@[0]))
        } else {
            container matches ContainerView::TupleStruct(items, doc) && doc == lines && are_items(
                g,
                space,
                st.fields@,
                st.fields@.len() as int,
                items,
            )
        },
        StructKind::Struct => match container {
            ContainerView::Struct(fields, doc) => fields.len() > 0 && doc == lines && are_fields(
                g,
                space,
                st.fields@,
                st.fields@.len() as int,
                fields,
            ),
            ContainerView::UnitStruct(doc) => doc == lines && are_fields(
                g,
                space,
                st.fields@,
                st.fields@.len() as int,
                Seq::empty(),
            ),
            _ => false,
        },
        StructKind::Tuple => false,
    }
}

// What is left out

/// An annotation that is malformed gives one of two errors.
proof fn lemma_annotation_errors(attributes: Seq<Attr>, from: int)
    ensures
        namespace::action_from(attributes, from) matches Err(e) ==> !(e is ReflectionError),
    decreases attributes.len() - from,
{
    if 0 <= from < attributes.len() {
        lemma_annotation_errors(attributes, from + 1);
    }
}

proof fn lemma_own_name_errors(g: Seq<Shape>, i: int)
    ensures
        naming::own_name(g, i) matches Err(e) ==> !(e is ReflectionError),
    decreases i,
{
    lemma_annotation_errors(g[i].attributes@, 0);
    if let Some(c) = naming::inner_of(g, i) {
        lemma_own_name_errors(g, c);
    }
}

proof fn lemma_naming_errors(g: Seq<Shape>, s: State, i: int, walking: bool)
    ensures
        model::name_of(g, s, i, walking).1 matches Step::Fail(e) ==> !(e is ReflectionError),
{
    lemma_own_name_errors(g, i);
    lemma_annotation_errors(g[i].attributes@, 0);
}

/// A reference that is refused for want of a format is to a type that no format describes.
pub proof fn law_refused_reference(g: Seq<Shape>, s: State, i: int, walking: bool)
    requires
        shape::shapes_wf(g),
        0 <= i < g.len(),
    ensures
        walk::reference(g, s, i, walking).1 matches Step::Fail(e) ==> (e is ReflectionError
            ==> lacks_format(g, i)),
    decreases i, 1int, 0int,
{
    naming::lemma_generated(g, i);
    let j = naming::generated(g, i);
    let shape = g[j];
    assert(shape::shape_wf(g, j));
    lemma_naming_errors(g, s, j, walking);
    if let Step::Fail(e) = walk::reference(g, s, i, walking).1 {
        if e is ReflectionError {
            if let Some(fields) = walk::tuple_fields_of(shape) {
                if !shape::is_container(shape) {
                    lemma_refused_references(g, s, fields, 0, i, walking);
                }
            } else if let Some((wrap, t)) = walk::single(shape) {
                law_refused_reference(g, s, t as int, walking);
            } else if let Def::MapOf { key, value } = shape.def {
                law_refused_reference(g, s, key as int, walking);
                law_refused_reference(
                    g,
                    walk::reference(g, s, key as int, walking).0,
                    value as int,
                    walking,
                );
            }
            assert forall|space: Option<SpaceView>, format: FormatView|
                !#[trigger] structure::describes(g, space, i, format) by {
                if structure::describes(g, space, i, format) {
                    if let Some(fields) = walk::tuple_fields_of(shape) {
                        let formats = format->Tuple_0;
                        let f = choose|f: int|
                            0 <= f < fields.len() && lacks_format(
                                g,
                                (#[trigger] fields[f]).shape as int,
                            );
                        assert(structure::describe_all(g, space, fields, formats, i));
                        assert(structure::describes(g, space, fields[f].shape as int, formats[f]));
                    } else if let Some((wrap, t)) = walk::single(shape) {
                        let inner = match (wrap, format) {
                            (Wrap::Option, FormatView::Option(inner)) => *inner,
                            (Wrap::SeqOf, FormatView::SeqOf(inner)) => *inner,
                            (Wrap::SetOf, FormatView::SetOf(inner)) => *inner,
                            (
                                Wrap::TupleArray(_),
                                FormatView::TupleArray { content, size },
                            ) => *content,
                            _ => format,
                        };
                        assert(structure::describes(g, space, t as int, inner));
                    } else if let Def::MapOf { key, value } = shape.def {
                        let k = *format->MapOf_key;
                        let v = *format->MapOf_value;
                        assert(structure::describes(g, space, key as int, k));
                        assert(structure::describes(g, space, value as int, v));
                    }
                }
            }
        }
    }
}

proof fn lemma_refused_references(
    g: Seq<Shape>,
    s: State,
    fields: Seq<Field>,
    from: int,
    bound: int,
    walking: bool,
)
    requires
        shape::shapes_wf(g),
        0 <= bound < g.len(),
        0 <= from,
    ensures
        walk::reference_all(g, s, fields, from, bound, walking).1 matches Step::Fail(e) ==> (e
            is ReflectionError ==> exists|f: int|
            from <= f < fields.len() && lacks_format(g, (#[trigger] fields[f]).shape as int)),
    decreases bound, 0int, fields.len() - from,
{
    if from < fields.len() && fields[from].shape < bound {
        let i = fields[from].shape as int;
        law_refused_reference(g, s, i, walking);
        lemma_refused_references(
            g,
            walk::reference(g, s, i, walking).0,
            fields,
            from + 1,
            bound,
            walking,
        );
        if let Step::Fail(e) = walk::reference(g, s, i, walking).1 {
            if e is ReflectionError {
                assert(lacks_format(g, fields[from].shape as int));
            }
        }
    }
}

/// A field has the format that describes its type, or none if no format does: that is not an error.
pub proof fn law_field_format(g: Seq<Shape>, s: State, i: int)
    requires
        shape::shapes_wf(g),
        0 <= i < g.len(),
        progress::orderly(s),
        completion::well_named(g, s),
    ensures
        walk::field_format(g, s, i).1 matches Step::Done(Some(format)) ==> structure::describes(
            g,
            structure::space_of(s),
            i,
            format,
        ),
        walk::field_format(g, s, i).1 == Step::Done(None::<FormatView>) ==> has_no_format(g, i),
        walk::field_format(g, s, i).1 matches Step::Fail(error) ==> !(error is ReflectionError),
{
    structure::law_reference_describes(g, s, i, true);
    law_refused_reference(g, s, i, true);
}

/// So has the payload of a variant, but that an optional one must have a format: without one it is
/// refused, and not left out.
pub proof fn law_payload_format(g: Seq<Shape>, s: State, i: int)
    requires
        shape::shapes_wf(g),
        0 <= i < g.len(),
        progress::orderly(s),
        completion::well_named(g, s),
    ensures
        walk::payload_format(g, s, i).1 matches Step::Done(Some(format)) ==> structure::describes(
            g,
            structure::space_of(s),
            i,
            format,
        ),
        walk::payload_format(g, s, i).1 == Step::Done(None::<FormatView>) ==> has_no_format(g, i)
            && !(g[i].def is Option),
        walk::payload_format(g, s, i).1 matches Step::Fail(error) ==> (error is ReflectionError
            ==> g[i].def is Option && lacks_format(g, i)),
{
    structure::law_reference_describes(g, s, i, true);
    law_refused_reference(g, s, i, true);
}

// What follows in a walk

pub proof fn lemma_later(g: Seq<Shape>, s: State, t: State, room: nat)
    requires
        progress::fit(g, s, room),
        progress::keeps(g, s, t),
        completion::well_named(g, s),
    ensures
        progress::fit(g, t, room),
        progress::orderly(t),
        shape::shapes_wf(g),
        completion::well_named(g, t),
        structure::space_of(t) == structure::space_of(s),
{
    reveal(progress::keeps_beside);
    progress::lemma_fit_orderly(g, s, room);
    progress::lemma_fit_after(g, s, t, room);
    progress::lemma_fit_orderly(g, t, room);
    completion::lemma_stays_well_named(g, g, s, t);
}

// Items

/// A field of a newtype or a tuple gives the container being built its value, and is left out only
/// if no format describes it.
pub proof fn law_positional_field(g: Seq<Shape>, s: State, field: Field, room: nat)
    requires
        progress::fit(g, s, room),
        completion::well_named(g, s),
        field.shape < g.len(),
        model::innermost(s) matches Some(container) && (container is NewTypeStruct || container
            is TupleStruct),
    ensures
        walk::positional_field(g, s, field, room) matches Step::Done(t) ==> match model::innermost(
            s,
        )->0 {
            ContainerView::NewTypeStruct(before, doc) => model::innermost(t) matches Some(
                ContainerView::NewTypeStruct(after, d),
            ) && d == doc && (is_item(g, structure::space_of(s), field, after) || after == before
                && may_be_left_out(g, field)),
            ContainerView::TupleStruct(before, doc) => model::innermost(t) matches Some(
                ContainerView::TupleStruct(after, d),
            ) && d == doc && (after == before && may_be_left_out(g, field) || after.len()
                == before.len() + 1 && after.drop_last() == before && is_item(
                g,
                structure::space_of(s),
                field,
                after.last(),
            )),
            _ => true,
        },
{
    let space = structure::space_of(s);
    progress::lemma_fit_orderly(g, s, room);
    let i = field.shape as int;
    if let Step::Done((s0, false)) = model::supply_bytes(g, s, field) {
        law_field_format(g, s, i);
        progress::lemma_field_format(g, s, i);
        let (s1, formatted) = walk::field_format(g, s, i);
        lemma_later(g, s, s1, room);
        lemma_format_spares(g, s, i);
        if let Step::Done(Some(format)) = formatted {
            if let Step::Done(s2) = walk::nested(g, s1, i, room) {
                structure::law_standing_describes(g, space, s2, i, format);
            }
        }
    }
    if let Step::Done(t) = walk::positional_field(g, s, field, room) {
        if let Some(ContainerView::TupleStruct(after, d)) = model::innermost(t) {
            if let Some(ContainerView::TupleStruct(before, doc)) = model::innermost(s) {
                if after.len() == before.len() + 1 {
                    assert(after.drop_last() =~= before);
                }
            }
        }
    }
}

/// Making a reference leaves what is being built.
proof fn lemma_format_spares(g: Seq<Shape>, s: State, i: int)
    requires
        shape::shapes_wf(g),
        progress::orderly(s),
        0 <= i < g.len(),
    ensures
        model::innermost(walk::field_format(g, s, i).0) == model::innermost(s),
{
    progress::lemma_reference(g, s, i, true);
}

proof fn lemma_items(
    g: Seq<Shape>,
    s: State,
    fields: Seq<Field>,
    from: int,
    items: Seq<FormatView>,
    doc: Seq<Seq<char>>,
    room: nat,
)
    requires
        progress::fit(g, s, room),
        completion::well_named(g, s),
        shape::fields_below(fields, g.len() as int),
        0 <= from <= fields.len(),
        model::innermost(s) == Some(ContainerView::TupleStruct(items, doc)),
        are_items(g, structure::space_of(s), fields, from, items),
    ensures
        walk::positional_fields(g, s, fields, from, room) matches Step::Done(t)
            ==> (model::innermost(t) matches Some(ContainerView::TupleStruct(all, d)) && d == doc
            && are_items(g, structure::space_of(s), fields, fields.len() as int, all)),
    decreases fields.len() - from,
{
    let space = structure::space_of(s);
    if from < fields.len() {
        if fields[from].skip {
            lemma_items(g, s, fields, from + 1, items, doc, room);
        } else {
            law_positional_field(g, s, fields[from], room);
            completion::lemma_positional_field(g, s, fields[from], room, room);
            if let Step::Done(t) = walk::positional_field(g, s, fields[from], room) {
                lemma_later(g, s, t, room);
                let after = model::innermost(t)->0->TupleStruct_0;
                assert(are_items(g, space, fields, from + 1, after));
                lemma_items(g, t, fields, from + 1, after, doc, room);
            }
        }
    }
}

// Fields of structs

/// A field of a struct gives the struct being built one field more, with its name, its
/// documentation and the format of its type, and is left out only if no format describes it.
pub proof fn law_struct_field(
    g: Seq<Shape>,
    s: State,
    field: Field,
    fields: Seq<NamedView<FormatView>>,
    doc: Seq<Seq<char>>,
    room: nat,
)
    requires
        progress::fit(g, s, room),
        progress::is_backed(g),
        completion::well_named(g, s),
        field.shape < g.len(),
        reach::field_within(g, field),
        building::is_building(s, fields, doc),
    ensures
        walk::struct_field(g, s, field, room) matches Step::Done(t) ==> (model::innermost(t)
            matches Some(ContainerView::Struct(after, d)) && d == doc && (after == fields
            && may_be_left_out(g, field) || after.len() == fields.len() + 1 && after.drop_last()
            == fields && is_field(g, structure::space_of(s), field, after.last())))
            && building::is_building(
            t,
            model::innermost(t)->0->Struct_0,
            doc,
        ),
{
    let space = structure::space_of(s);
    progress::lemma_fit_orderly(g, s, room);
    assert(shape::shape_wf(g, field.shape as int));
    building::law_struct_field_adds_at_most_one(g, s, field, fields, doc, room);
    if let Step::Done(t) = walk::struct_field(g, s, field, room) {
        let i = field.shape as int;
        if let Step::Done((s1, false)) = model::supply_bytes(g, s, field) {
            assert(s1 == s);
            if let Some(c) = walk::option_of(g, field) {
                assert(is_optional(g, field, c));
                building::law_option_field_adds_one(g, s, field, c, fields, doc, room);
                law_settled_format(g, s, c, room);
            } else if let Some(inside) = walk::tuple_field_of(g, field) {
                building::law_tuple_field_adds_one(g, s, field, inside, fields, doc, room);
                match inside {
                    Inside::Tuple => {
                        law_settled_format(g, s, i, room);
                    },
                    Inside::Wrapper(c) => {
                        assert(is_newtype(g, field, c as int));
                        if let Ok(action) = namespace::namespace_action(g[i].attributes@) {
                            reach::lemma_shape_space(g, i);
                            progress::lemma_enter(g, s, action, room);
                            let entered = model::enter(s, action);
                            structure::law_space_under(s, g[i].attributes@);
                            completion::lemma_well_named_before(g, entered, s);
                            law_settled_format(g, entered, c as int, room);
                        }
                    },
                }
            } else {
                lemma_plain_field(g, s, field, fields, doc, room);
            }
        }
        if let Some(ContainerView::Struct(after, d)) = model::innermost(t) {
            if after.len() > fields.len() {
                assert(after.drop_last() =~= fields);
                assert(!(after.last().value is Variable)) by {
                    assert(crate::registry::has_unknown(FormatView::Variable));
                }
            }
        }
    }
}

/// The format that is settled on for a type describes it.
pub proof fn law_settled_format(g: Seq<Shape>, s: State, t: int, room: nat)
    requires
        progress::fit(g, s, room),
        completion::well_named(g, s),
        0 <= t < g.len(),
    ensures
        building::settled_from(g, s, t, room) matches Step::Done((_, format))
            ==> structure::describes(g, structure::space_of(s), t, format),
{
    let space = structure::space_of(s);
    progress::lemma_fit_orderly(g, s, room);
    structure::law_reference_describes(g, s, t, true);
    if let (s1, Step::Done(format)) = walk::reference(g, s, t, true) {
        if let Step::Done(u) = walk::nested(g, s1, t, room) {
            structure::law_standing_describes(g, space, u, t, format);
        }
    }
}

proof fn lemma_plain_field(
    g: Seq<Shape>,
    s: State,
    field: Field,
    fields: Seq<NamedView<FormatView>>,
    doc: Seq<Seq<char>>,
    room: nat,
)
    requires
        progress::fit(g, s, room),
        progress::is_backed(g),
        completion::well_named(g, s),
        field.shape < g.len(),
        reach::field_within(g, field),
        building::is_building(s, fields, doc),
    ensures
        walk::plain_field(g, s, field, room) matches Step::Done(t) ==> {
            ||| model::innermost(t) == Some(ContainerView::Struct(fields, doc)) && has_no_format(
                g,
                field.shape as int,
            )
            ||| exists|value: FormatView|
                #[trigger] structure::describes(
                    g,
                    structure::space_under(structure::space_of(s), field.attributes@),
                    field.shape as int,
                    value,
                ) && model::innermost(t) == Some(
                    ContainerView::Struct(
                        fields.push(
                            NamedView {
                                name: match field.rename {
                                    Some(text) => text@,
                                    None => field.name@,
                                },
                                doc: lines_view(field.doc@),
                                value,
                            },
                        ),
                        doc,
                    ),
                )
        },
{
    let space = structure::space_under(structure::space_of(s), field.attributes@);
    let i = field.shape as int;
    if let Ok(action) = namespace::namespace_action(field.attributes@) {
        let entered = model::enter(s, action);
        structure::law_space_under(s, field.attributes@);
        progress::lemma_enter(g, s, action, room);
        progress::lemma_fit_orderly(g, entered, room);
        completion::lemma_well_named_before(g, entered, s);
        law_field_format(g, entered, i);
        lemma_format_spares(g, entered, i);
        progress::lemma_field_format(g, entered, i);
        let (s1, formatted) = walk::field_format(g, entered, i);
        assert(building::is_building(s1, fields, doc));
        if let Step::Done(Some(value)) = formatted {
            progress::lemma_fit_after(g, entered, s1, room);
            building::lemma_field_type_spares(g, s1, i, action, fields, doc, room);
            if let Step::Done(s2) = walk::field_type(g, s1, i, action, room) {
                structure::law_standing_describes(g, space, s2, i, value);
                assert(structure::describes(g, space, i, walk::standing(g, s2, i, value)));
            }
        }
    }
}

proof fn lemma_fields(
    g: Seq<Shape>,
    s: State,
    all: Seq<Field>,
    from: int,
    fields: Seq<NamedView<FormatView>>,
    doc: Seq<Seq<char>>,
    room: nat,
)
    requires
        progress::fit(g, s, room),
        progress::is_backed(g),
        completion::well_named(g, s),
        shape::fields_below(all, g.len() as int),
        reach::fields_within(g, all),
        0 <= from <= all.len(),
        building::is_building(s, fields, doc),
        are_fields(g, structure::space_of(s), all, from, fields),
    ensures
        walk::struct_fields(g, s, all, from, room) matches Step::Done(t) ==> (model::innermost(t)
            matches Some(ContainerView::Struct(out, d)) && d == doc && are_fields(
            g,
            structure::space_of(s),
            all,
            all.len() as int,
            out,
        )),
    decreases all.len() - from,
{
    let space = structure::space_of(s);
    if from < all.len() {
        if all[from].skip {
            lemma_fields(g, s, all, from + 1, fields, doc, room);
        } else {
            assert(reach::field_within(g, all[from]));
            law_struct_field(g, s, all[from], fields, doc, room);
            completion::lemma_struct_field(g, s, all[from], room, room);
            if let Step::Done(t) = walk::struct_field(g, s, all[from], room) {
                lemma_later(g, s, t, room);
                let after = model::innermost(t)->0->Struct_0;
                assert(are_fields(g, space, all, from + 1, after));
                lemma_fields(g, t, all, from + 1, after, doc, room);
            }
        }
    }
}

// Structs

#[verifier::spinoff_prover]
#[verifier::rlimit(40)]
proof fn lemma_struct_body(
    g: Seq<Shape>,
    s: State,
    name: NameView,
    st: StructType,
    j: int,
    room: nat,
)
    requires
        progress::fit(g, s, room),
        progress::is_backed(g),
        completion::well_named(g, s),
        0 <= j < g.len(),
        g[j].ty == Type::User(UserType::Struct(st)),
        st.kind != StructKind::Tuple,
        !shape::is_transparent(g[j]),
        s.processed.contains_key(name),
        structure::space_under(structure::space_of(s), g[j].attributes@) == structure::space_of(s),
    ensures
        walk::struct_body(g, s, name, st.kind, st.fields@, j, room) matches Step::Done(t)
            ==> t.registry.contains_key(name) && is_struct(
            g,
            structure::space_of(s),
            g[j],
            t.registry[name],
        ),
{
    let space = structure::space_of(s);
    progress::lemma_fit_orderly(g, s, room);
    assert(shape::shape_wf(g, j));
    reach::lemma_fields_within(g, j);
    let doc = lines_view(g[j].doc@);
    let fields = st.fields@;
    let container = match st.kind {
        StructKind::Unit => ContainerView::UnitStruct(doc),
        StructKind::TupleStruct => if fields.len() == 1 {
            ContainerView::NewTypeStruct(FormatView::Variable, doc)
        } else {
            ContainerView::TupleStruct(Seq::empty(), doc)
        },
        _ => ContainerView::Struct(Seq::empty(), doc),
    };
    progress::lemma_start_met(g, s, name, container, j, room);
    if let Step::Done(s1) = model::start_met(g, s, name, container, j) {
        let action = namespace::namespace_action(g[j].attributes@)->Ok_0;
        progress::lemma_meet_name(s, name, namespace::action_is_explicit(action));
        progress::lemma_fit_orderly(g, s1, room);
        completion::lemma_well_named_before(g, s1, s);
        assert(model::innermost(s1) == Some(container));
        assert(s1.current.last() == name);
        match st.kind {
            StructKind::Unit => {},
            StructKind::TupleStruct => if fields.len() == 1 {
                law_positional_field(g, s1, fields[0], room);
                completion::lemma_positional_field(g, s1, fields[0], room, room);
                if let Step::Done(s2) = walk::positional_field(g, s1, fields[0], room) {
                    progress::lemma_keeps_orderly(g, s1, s2);
                }
            } else {
                lemma_items(g, s1, fields, 0, Seq::empty(), doc, room);
                completion::lemma_positional_fields(g, s1, fields, 0, room, room);
                if let Step::Done(s2) = walk::positional_fields(g, s1, fields, 0, room) {
                    progress::lemma_keeps_orderly(g, s1, s2);
                }
            },
            _ => {
                lemma_fields(g, s1, fields, 0, Seq::empty(), doc, room);
                completion::lemma_struct_fields(g, s1, fields, 0, room, room);
                if let Step::Done(s2) = walk::struct_fields(g, s1, fields, 0, room) {
                    progress::lemma_keeps_orderly(g, s1, s2);
                    if let Some(ContainerView::Struct(out, d)) = model::innermost(s2) {
                        if out.len() == 0 {
                            assert(out =~= Seq::empty());
                        }
                    }
                }
            },
        }
    }
}

/// A struct that is reflected under a name that nobody owned is registered under that name as what
/// it is: with its kind, its documentation and its fields.
pub proof fn law_struct_is_described(g: Seq<Shape>, s: State, j: int, name: NameView, room: nat)
    requires
        progress::fit(g, s, room),
        progress::is_backed(g),
        completion::well_named(g, s),
        0 <= j < g.len(),
        naming::inner_of(g, j) is None,
        shape::is_container(g[j]),
        g[j].ty matches Type::User(UserType::Struct(_)),
        !(g[j].def is Option),
        !shape::is_transparent(g[j]),
        model::walk_name(g, s, j).1 == Step::Done(name),
        !s.processed.contains_key(name),
    ensures
        walk::reflect(g, s, j, room) matches Step::Done(t) ==> t.registry.contains_key(name)
            && is_struct(g, structure::space_of(s), g[j], t.registry[name]),
{
    let space = structure::space_of(s);
    progress::lemma_fit_orderly(g, s, room);
    assert(naming::generated(g, j) == j);
    let (s1, supported) = model::meet_params(s, g[j]);
    progress::lemma_meet_params(g, s, g[j]);
    lemma_later(g, s, s1, room);
    assert(model::walk_name(g, s1, j).1 == model::walk_name(g, s, j).1);
    progress::lemma_walk_name(g, s1, j);
    progress::lemma_open(g, s1, j, room);
    if let Step::Done((s2, Some(opened))) = walk::open_container(g, s1, j) {
        assert(opened == name);
        lemma_opened_well_named(g, s1, j);
        lemma_opened_space(g, s1, j);
        let less = (room - 1) as nat;
        if let Type::User(UserType::Struct(st)) = g[j].ty {
            lemma_struct_body(g, s2, name, st, j, less);
        }
    }
}

/// A struct that is added to a builder is registered as what it is, unless it was added before. Its
/// name is the one that it is given where no context is in force.
pub proof fn law_added_struct(g: Seq<Shape>, s: State, j: int, name: NameView)
    requires
        shape::shapes_wf(g),
        completion::at_rest(s),
        progress::is_backed(g),
        completion::well_named(g, s),
        laws::is_plain_container(g, j),
        g[j].ty matches Type::User(UserType::Struct(_)),
        model::walk_name(g, s, j).1 == Step::Done(name),
        !s.processed.contains_key(name),
    ensures
        walk::reflected(g, s, j) matches Step::Done(t) ==> t.registry.contains_key(name)
            && is_struct(g, None, g[j], t.registry[name]),
{
    completion::lemma_fit_at_rest(g, s);
    assert(structure::space_of(s) is None);
    law_struct_is_described(g, s, j, name, reach::candidates(g).len());
}

/// In a container that is opened the namespace is in force that it is annotated with.
pub proof fn lemma_opened_space(g: Seq<Shape>, s: State, j: int)
    requires
        progress::orderly(s),
    ensures
        walk::open_container(g, s, j) matches Step::Done((t, Some(_))) ==> structure::space_of(t)
            == structure::space_under(structure::space_of(s), g[j].attributes@),
{
    if let Step::Done((t, Some(_))) = walk::open_container(g, s, j) {
        progress::lemma_walk_name(g, s, j);
        structure::law_space_under(s, g[j].attributes@);
    }
}

/// A container that is opened goes by its own name.
pub proof fn lemma_opened_well_named(g: Seq<Shape>, s: State, j: int)
    requires
        shape::shapes_wf(g),
        progress::orderly(s),
        completion::well_named(g, s),
        0 <= j < g.len(),
        naming::inner_of(g, j) is None,
    ensures
        walk::open_container(g, s, j) matches Step::Done((t, Some(_))) ==> completion::well_named(
            g,
            t,
        ),
{
    if let Step::Done((t, Some(name))) = walk::open_container(g, s, j) {
        progress::lemma_walk_name(g, s, j);
        progress::lemma_opened(g, s, j);
        assert(naming::generated(g, j) == j);
        progress::lemma_opened_goes_by(g, s, j);
        assert forall|k: int, r: NameView|
            #![trigger g[k], t.processed.contains_key(r)]
            0 <= k < g.len() && naming::inner_of(g, k) is None && t.processed.contains_key(r)
                && r.namespace is Root && r.name != g[k].type_identifier@ && t.processed[r].id
                == g[k].id implies progress::goes_by(g, k, r) by {
            if r == name {
                assert(g[k].id == g[j].id);
            } else {
                assert(s.processed.contains_key(r));
            }
        }
    }
}

} // verus!
