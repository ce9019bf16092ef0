//! What a field adds to the struct being built.

use vstd::prelude::*;

use crate::completion;
use crate::format::{ContainerView, FormatView, NamedView};
use crate::model;
use crate::model::State;
use crate::names::SpaceView;
use crate::namespace;
use crate::namespace::ActionView;
use crate::naming;
use crate::progress;
use crate::reach;
use crate::registry;
use crate::scalar;
use crate::shape;
use crate::shape::{Def, Field, PointerType, SequenceType, Shape, StructKind, Type, UserType};
use crate::step::Step;
use crate::walk;
use crate::walk::{Inside, Wrap};

verus! {

/// The container being built is the struct of `fields`, the last of which has a known format.
pub open spec fn is_building(
    s: State,
    fields: Seq<NamedView<FormatView>>,
    doc: Seq<Seq<char>>,
) -> bool {
    &&& model::innermost(s) == Some(ContainerView::Struct(fields, doc))
    &&& fields.len() > 0 ==> !(fields.last().value is Variable)
}

/// The container being built is the same in both states.
pub open spec fn same_building(s: State, t: State) -> bool {
    &&& t.current == s.current
    &&& model::innermost(t) == model::innermost(s)
}

// References are known in full

proof fn lemma_reference_known(g: Seq<Shape>, s: State, i: int, walking: bool)
    ensures
        walk::reference(g, s, i, walking).1 matches Step::Done(format) ==> !registry::has_unknown(
            format,
        ),
    decreases i, 1int, 0int,
{
    let shape = g[naming::generated(g, i)];
    if shape::is_container(shape) {
    } else if let Some(fields) = walk::tuple_fields_of(shape) {
        lemma_references_known(g, s, fields, 0, i, walking);
        if let Step::Done(formats) = walk::reference_all(g, s, fields, 0, i, walking).1 {
            assert(registry::has_unknown(FormatView::Tuple(formats)) == registry::any_unknown(
                formats,
            ));
        }
    } else if let Some((wrap, t)) = walk::single(shape) {
        if t < i {
            lemma_reference_known(g, s, t as int, walking);
            if let Step::Done(format) = walk::reference(g, s, t as int, walking).1 {
                assert(registry::has_unknown(walk::wrapped(wrap, format))
                    == registry::has_unknown(format));
            }
        }
    } else if let Def::MapOf { key, value } = shape.def {
        if key < i && value < i {
            lemma_reference_known(g, s, key as int, walking);
            let s1 = walk::reference(g, s, key as int, walking).0;
            lemma_reference_known(g, s1, value as int, walking);
            if let (Step::Done(k), Step::Done(v)) = (
                walk::reference(g, s, key as int, walking).1,
                walk::reference(g, s1, value as int, walking).1,
            ) {
                assert(registry::has_unknown(
                    FormatView::MapOf { key: Box::new(k), value: Box::new(v) },
                ) == (registry::has_unknown(k) || registry::has_unknown(v)));
            }
        }
    }
}

proof fn lemma_references_known(
    g: Seq<Shape>,
    s: State,
    fields: Seq<Field>,
    from: int,
    bound: int,
    walking: bool,
)
    requires
        0 <= from,
    ensures
        walk::reference_all(g, s, fields, from, bound, walking).1 matches Step::Done(formats)
            ==> !registry::any_unknown(formats),
    decreases bound, 0int, fields.len() - from,
{
    if from < fields.len() && fields[from].shape < bound {
        let i = fields[from].shape as int;
        lemma_reference_known(g, s, i, walking);
        if let (s1, Step::Done(first)) = walk::reference(g, s, i, walking) {
            lemma_references_known(g, s1, fields, from + 1, bound, walking);
            if let Step::Done(rest) = walk::reference_all(
                g,
                s1,
                fields,
                from + 1,
                bound,
                walking,
            ).1 {
                let all = seq![first] + rest;
                assert forall|k: int| 0 <= k < all.len() implies !registry::has_unknown(
                    #[trigger] all[k],
                ) by {
                    if k > 0 {
                        assert(all[k] == rest[k - 1]);
                    }
                }
            }
        }
    }
}

proof fn lemma_bytes_known(g: Seq<Shape>, field: Field)
    ensures
        scalar::bytes_format(g, field) matches Step::Done(Some(format)) ==> !registry::has_unknown(
            format,
        ),
{
    assert(!registry::has_unknown(FormatView::Bytes));
    assert(!registry::has_unknown(FormatView::Option(Box::new(FormatView::Bytes))));
}

/// What stands for a reference is known as far as the reference is.
proof fn lemma_standing_known(g: Seq<Shape>, s: State, i: int, format: FormatView)
    ensures
        registry::has_unknown(walk::standing(g, s, i, format)) == registry::has_unknown(format),
    decreases i,
{
    let shape = g[naming::generated(g, i)];
    if shape::is_container(shape) {
    } else if let Some(fields) = walk::tuple_fields_of(shape) {
        if let FormatView::Tuple(formats) = format {
            let stood = walk::standing_all(g, s, fields, formats, i);
            assert forall|k: int| 0 <= k < formats.len() implies registry::has_unknown(
                #[trigger] stood[k],
            ) == registry::has_unknown(formats[k]) by {
                if k < fields.len() && fields[k].shape < i {
                    lemma_standing_known(g, s, fields[k].shape as int, formats[k]);
                }
            }
            if registry::any_unknown(formats) {
                let k = choose|k: int|
                    0 <= k < formats.len() && registry::has_unknown(#[trigger] formats[k]);
                assert(registry::has_unknown(stood[k]));
            }
            if registry::any_unknown(stood) {
                let k = choose|k: int|
                    0 <= k < stood.len() && registry::has_unknown(#[trigger] stood[k]);
                assert(registry::has_unknown(formats[k]));
            }
        }
    } else if let Some((wrap, t)) = walk::single(shape) {
        if t < i {
            match (wrap, format) {
                (Wrap::Plain, _) => lemma_standing_known(g, s, t as int, format),
                (Wrap::Option, FormatView::Option(inner)) => lemma_standing_known(
                    g,
                    s,
                    t as int,
                    *inner,
                ),
                (Wrap::SeqOf, FormatView::SeqOf(inner)) => lemma_standing_known(
                    g,
                    s,
                    t as int,
                    *inner,
                ),
                (Wrap::SetOf, FormatView::SetOf(inner)) => lemma_standing_known(
                    g,
                    s,
                    t as int,
                    *inner,
                ),
                (Wrap::TupleArray(_), FormatView::TupleArray { content, size }) => {
                    lemma_standing_known(g, s, t as int, *content)
                },
                _ => {},
            }
        }
    } else {
        match (shape.def, format) {
            (Def::MapOf { key, value }, FormatView::MapOf { key: k, value: v }) => if key < i
                && value < i {
                lemma_standing_known(g, s, key as int, *k);
                lemma_standing_known(g, s, value as int, *v);
            },
            _ => {},
        }
    }
}

// Reflecting the type of a field leaves the struct being built as it is

/// Registering what a reference reaches leaves the container being built as it is.
proof fn lemma_nested_spares(g: Seq<Shape>, s: State, i: int, room: nat)
    requires
        progress::fit(g, s, room),
        0 <= i < g.len(),
    ensures
        walk::nested(g, s, i, room) matches Step::Done(t) ==> same_building(s, t) || model::innermost(
            s,
        ) is None,
{
    progress::lemma_fit_orderly(g, s, room);
    if model::innermost(s) is Some {
        let last = s.current.last();
        assert(s.current[s.current.len() - 1] == last);
        assert(s.processed.contains_key(last));
        completion::law_nested_changes_no_container(g, s, i, last, room);
    }
}

/// A struct whose last field is known is not given another format.
proof fn lemma_supply_spares(
    s: State,
    format: FormatView,
    force: bool,
    fields: Seq<NamedView<FormatView>>,
    doc: Seq<Seq<char>>,
)
    requires
        is_building(s, fields, doc),
    ensures
        model::supply(s, format, force) == Step::Done(s),
{
}

proof fn lemma_compound_spares(
    g: Seq<Shape>,
    s: State,
    t: int,
    bound: int,
    wrap: Wrap,
    force: bool,
    fields: Seq<NamedView<FormatView>>,
    doc: Seq<Seq<char>>,
    room: nat,
)
    requires
        progress::fit(g, s, room),
        0 <= t < bound <= g.len(),
        is_building(s, fields, doc),
    ensures
        walk::compound(g, s, t, bound, wrap, force, room) matches Step::Done(u) ==> same_building(
            s,
            u,
        ),
{
    progress::lemma_fit_orderly(g, s, room);
    progress::lemma_reference(g, s, t, true);
    if let (s1, Step::Done(format)) = walk::reference(g, s, t, true) {
        progress::lemma_fit_after(g, s, s1, room);
        lemma_nested_spares(g, s1, t, room);
        if let Step::Done(s2) = walk::nested(g, s1, t, room) {
            let stood = walk::standing(g, s2, t, format);
            lemma_supply_spares(s2, walk::wrapped(wrap, stood), force, fields, doc);
        }
    }
}

proof fn lemma_map_spares(
    g: Seq<Shape>,
    s: State,
    key: int,
    value: int,
    bound: int,
    fields: Seq<NamedView<FormatView>>,
    doc: Seq<Seq<char>>,
    room: nat,
)
    requires
        progress::fit(g, s, room),
        0 <= key < bound <= g.len(),
        0 <= value < bound,
        is_building(s, fields, doc),
    ensures
        walk::format_map(g, s, key, value, bound, room) matches Step::Done(u) ==> same_building(
            s,
            u,
        ),
{
    progress::lemma_fit_orderly(g, s, room);
    progress::lemma_reference(g, s, key, true);
    let (s1, first) = walk::reference(g, s, key, true);
    progress::lemma_reference(g, s1, value, true);
    let (s2, second) = walk::reference(g, s1, value, true);
    if first is Done && second is Done {
        progress::lemma_keeps_trans(g, s, s1, s2);
        progress::lemma_fit_after(g, s, s2, room);
        lemma_nested_spares(g, s2, key, room);
        completion::lemma_nested(g, s2, key, room, room);
        if let Step::Done(s3) = walk::nested(g, s2, key, room) {
            progress::lemma_fit_after(g, s2, s3, room);
            lemma_nested_spares(g, s3, value, room);
            if let Step::Done(s4) = walk::nested(g, s3, value, room) {
                let format = FormatView::MapOf {
                    key: Box::new(walk::standing(g, s3, key, first->Done_0)),
                    value: Box::new(walk::standing(g, s4, value, second->Done_0)),
                };
                lemma_supply_spares(s4, format, true, fields, doc);
            }
        }
    }
}

proof fn lemma_struct_spares(g: Seq<Shape>, s: State, j: int, room: nat)
    requires
        progress::fit(g, s, room),
        0 <= j < g.len(),
        g[j].ty matches Type::User(UserType::Struct(_)),
        !shape::is_transparent(g[j]) || !shape::is_container(g[j]),
        model::innermost(s) is Some,
    ensures
        walk::format_struct(g, s, j, room) matches Step::Done(t) ==> same_building(s, t),
{
    progress::lemma_fit_orderly(g, s, room);
    assert(shape::shape_wf(g, j));
    let last = s.current.last();
    assert(s.current[s.current.len() - 1] == last);
    assert(s.processed.contains_key(last));
    if let Type::User(UserType::Struct(st)) = g[j].ty {
        if st.kind == StructKind::Tuple {
            let apart = State { current: Seq::empty(), ..s };
            progress::lemma_aside(g, s, room);
            completion::lemma_register_all(g, apart, st.fields@, 0, j, room, room);
            if let Step::Done(u) = walk::register_all(g, apart, st.fields@, 0, j, room) {
                progress::lemma_resume(g, s, u);
            }
        } else {
            progress::lemma_open(g, s, j, room);
            progress::lemma_walk_name(g, s, j);
            if let Step::Done((s1, Some(name))) = walk::open_container(g, s, j) {
                progress::lemma_opened(g, s, j);
                let less = (room - 1) as nat;
                reach::lemma_fields_within(g, j);
                completion::lemma_struct_body_registers(g, s1, name, st, j, less);
                completion::lemma_struct_body(
                    g,
                    s1,
                    name,
                    st.kind,
                    st.fields@,
                    j,
                    less,
                    less,
                );
                assert(s1.registry.contains_key(last) && s1.processed.contains_key(last));
                reveal(progress::keeps_beside);
            }
        }
    }
}

proof fn lemma_enum_spares(g: Seq<Shape>, s: State, j: int, room: nat)
    requires
        progress::fit(g, s, room),
        0 <= j < g.len(),
        g[j].ty matches Type::User(UserType::Enum(_)),
        model::innermost(s) is Some,
    ensures
        walk::format_enum(g, s, j, room) matches Step::Done(t) ==> same_building(s, t),
{
    progress::lemma_fit_orderly(g, s, room);
    assert(shape::shape_wf(g, j));
    let last = s.current.last();
    assert(s.current[s.current.len() - 1] == last);
    assert(s.processed.contains_key(last));
    if let Type::User(UserType::Enum(et)) = g[j].ty {
        progress::lemma_open(g, s, j, room);
        progress::lemma_walk_name(g, s, j);
        if let Step::Done((s1, Some(name))) = walk::open_container(g, s, j) {
            progress::lemma_opened(g, s, j);
            let less = (room - 1) as nat;
            let apart = State { current: Seq::empty(), ..s1 };
            reach::lemma_fields_within(g, j);
            progress::lemma_fit_orderly(g, s1, less);
            progress::lemma_aside(g, s1, less);
            completion::lemma_enum_variants(
                g,
                apart,
                et.variants@,
                0,
                0,
                Map::empty(),
                j,
                less,
                less,
            );
            let step = walk::enum_variants(g, apart, et.variants@, 0, 0, Map::empty(), j, less);
            if let Step::Done((u, variants)) = step {
                progress::lemma_resume(g, s1, u);
                let s2 = State { current: s1.current, ..u };
                progress::lemma_keeps_orderly(g, s1, s2);
                assert(s1.registry.contains_key(last) && s1.processed.contains_key(last));
                let container = ContainerView::Enum(
                    variants,
                    naming::tagging(g[j]),
                    crate::format::lines_view(g[j].doc@),
                );
                if let Step::Done(s3) = model::start_met(g, s2, name, container, j) {
                    let action = namespace::namespace_action(g[j].attributes@)->Ok_0;
                    progress::lemma_meet_name(
                        s2,
                        name,
                        namespace::action_is_explicit(action),
                    );
                    assert(s3.current.drop_last() =~= s2.current);
                }
            }
        }
    }
}

/// Reflecting a type in the course of building a struct leaves the struct as it is.
proof fn lemma_reflect_spares(
    g: Seq<Shape>,
    s: State,
    i: int,
    fields: Seq<NamedView<FormatView>>,
    doc: Seq<Seq<char>>,
    room: nat,
)
    requires
        progress::fit(g, s, room),
        progress::is_backed(g),
        0 <= i < g.len(),
        is_building(s, fields, doc),
    ensures
        walk::reflect(g, s, i, room) matches Step::Done(t) ==> same_building(s, t),
    decreases i, 1int,
{
    progress::lemma_fit_orderly(g, s, room);
    naming::lemma_generated(g, i);
    let j = naming::generated(g, i);
    let shape = g[j];
    assert(shape::shape_wf(g, j));
    let s1 = model::meet_params(s, shape).0;
    progress::lemma_meet_params(g, s, shape);
    progress::lemma_fit_after(g, s, s1, room);
    assert(is_building(s1, fields, doc));
    if let Def::Option(t) = shape.def {
        lemma_compound_spares(g, s1, t as int, j, Wrap::Option, true, fields, doc, room);
    } else {
        match shape.ty {
            Type::User(UserType::Struct(st)) => {
                lemma_struct_spares(g, s1, j, room);
            },
            Type::User(UserType::Enum(et)) => {
                lemma_enum_spares(g, s1, j, room);
            },
            Type::Sequence(sequence) => match (sequence, shape.def) {
                (SequenceType::Slice(_), Def::Slice(t)) => {
                    lemma_compound_spares(
                        g,
                        s1,
                        t as int,
                        j,
                        Wrap::SeqOf,
                        true,
                        fields,
                        doc,
                        room,
                    );
                },
                (SequenceType::Array(_), Def::Array { item, size }) => {
                    lemma_compound_spares(
                        g,
                        s1,
                        item as int,
                        j,
                        Wrap::TupleArray(size),
                        true,
                        fields,
                        doc,
                        room,
                    );
                },
                (SequenceType::Slice(t), _) => {
                    lemma_compound_spares(
                        g,
                        s1,
                        t as int,
                        j,
                        Wrap::SeqOf,
                        true,
                        fields,
                        doc,
                        room,
                    );
                },
                (SequenceType::Array(t), _) => {
                    lemma_compound_spares(
                        g,
                        s1,
                        t as int,
                        j,
                        Wrap::SeqOf,
                        true,
                        fields,
                        doc,
                        room,
                    );
                },
            },
            _ => {
                lemma_def_spares(g, s1, j, fields, doc, room);
            },
        }
    }
}

proof fn lemma_def_spares(
    g: Seq<Shape>,
    s: State,
    j: int,
    fields: Seq<NamedView<FormatView>>,
    doc: Seq<Seq<char>>,
    room: nat,
)
    requires
        progress::fit(g, s, room),
        progress::is_backed(g),
        0 <= j < g.len(),
        !shape::is_container(g[j]),
        is_building(s, fields, doc),
    ensures
        walk::format_def(g, s, j, room) matches Step::Done(t) ==> same_building(s, t),
    decreases j, 0int,
{
    progress::lemma_fit_orderly(g, s, room);
    let shape = g[j];
    assert(shape::shape_wf(g, j));
    match shape.def {
        Def::Scalar => {
            if let Step::Done(Some(format)) = scalar::scalar_format(shape) {
                lemma_supply_spares(s, format, true, fields, doc);
            }
        },
        Def::MapOf { key, value } => {
            lemma_map_spares(g, s, key as int, value as int, j, fields, doc, room);
        },
        Def::List(t) => {
            lemma_compound_spares(g, s, t as int, j, Wrap::SeqOf, true, fields, doc, room);
        },
        Def::Slice(t) => {
            lemma_compound_spares(g, s, t as int, j, Wrap::SeqOf, true, fields, doc, room);
        },
        Def::Array { item, size } => {
            lemma_compound_spares(
                g,
                s,
                item as int,
                j,
                Wrap::TupleArray(size),
                true,
                fields,
                doc,
                room,
            );
        },
        Def::SetOf(t) => {
            lemma_compound_spares(g, s, t as int, j, Wrap::SetOf, true, fields, doc, room);
        },
        Def::Option(t) => {
            lemma_compound_spares(g, s, t as int, j, Wrap::Option, true, fields, doc, room);
        },
        Def::Pointer(Some(t)) => {
            lemma_compound_spares(g, s, t as int, j, Wrap::Plain, false, fields, doc, room);
        },
        Def::Pointer(None) => {
            lemma_supply_spares(s, FormatView::Unit, true, fields, doc);
        },
        Def::Undefined => {
            lemma_supply_spares(s, FormatView::Bool, true, fields, doc);
            lemma_supply_spares(s, FormatView::F32, true, fields, doc);
            lemma_supply_spares(s, FormatView::Str, true, fields, doc);
            match shape.ty {
                Type::Pointer(PointerType::Reference(t)) => {
                    lemma_reflect_spares(g, s, t as int, fields, doc, room);
                },
                Type::Pointer(PointerType::Raw(t)) => {
                    lemma_reflect_spares(g, s, t as int, fields, doc, room);
                },
                _ => {},
            }
        },
        Def::Other => {},
    }
}

pub proof fn lemma_field_type_spares(
    g: Seq<Shape>,
    s: State,
    i: int,
    action: ActionView,
    fields: Seq<NamedView<FormatView>>,
    doc: Seq<Seq<char>>,
    room: nat,
)
    requires
        progress::fit(g, s, room),
        progress::is_backed(g),
        0 <= i < g.len(),
        reach::spaces(g).contains(reach::action_space(action)),
        is_building(s, fields, doc),
    ensures
        walk::field_type(g, s, i, action, room) matches Step::Done(t) ==> same_building(s, t),
{
    match walk::named_space(action) {
        Some(space) => {
            let inside = ActionView::SetContext(
                namespace::explicit_context(SpaceView::Named(space)),
            );
            progress::lemma_enter(g, s, inside, room);
            assert(is_building(model::enter(s, inside), fields, doc));
            lemma_reflect_spares(g, model::enter(s, inside), i, fields, doc, room);
            completion::lemma_reflect(g, model::enter(s, inside), i, room, room);
            if let Step::Done(s1) = walk::reflect(g, model::enter(s, inside), i, room) {
                progress::lemma_leave(g, s, inside, s1);
                progress::lemma_keeps_orderly(g, s, model::leave(s1));
                progress::lemma_walk_name(g, model::leave(s1), i);
            }
        },
        None => {
            lemma_reflect_spares(g, s, i, fields, doc, room);
        },
    }
}

// Laws

/// The reference to the type at `t` once what it reaches is registered, and the state after that.
pub open spec fn settled_from(g: Seq<Shape>, s: State, t: int, room: nat) -> Step<
    (State, FormatView),
> {
    match walk::reference(g, s, t, true) {
        (s1, Step::Done(format)) => walk::settled(g, s1, t, format, room),
        (s1, other) => model::pass(other),
    }
}

/// A reference that is settled leaves the container being built as it is, and is known in full.
proof fn lemma_settled_spares(g: Seq<Shape>, s: State, t: int, room: nat)
    requires
        progress::fit(g, s, room),
        0 <= t < g.len(),
        model::innermost(s) is Some,
    ensures
        settled_from(g, s, t, room) matches Step::Done((u, stood)) ==> same_building(s, u)
            && !registry::has_unknown(stood),
{
    progress::lemma_fit_orderly(g, s, room);
    progress::lemma_reference(g, s, t, true);
    lemma_reference_known(g, s, t, true);
    if let (s1, Step::Done(format)) = walk::reference(g, s, t, true) {
        progress::lemma_fit_after(g, s, s1, room);
        lemma_nested_spares(g, s1, t, room);
        if let Step::Done(u) = walk::nested(g, s1, t, room) {
            lemma_standing_known(g, u, t, format);
        }
    }
}

/// The struct being built is given exactly one field by an `Option`, with the reference to what it
/// holds.
pub proof fn law_option_field_adds_one(
    g: Seq<Shape>,
    s: State,
    field: Field,
    t: int,
    fields: Seq<NamedView<FormatView>>,
    doc: Seq<Seq<char>>,
    room: nat,
)
    requires
        progress::fit(g, s, room),
        0 <= t < g.len(),
        model::innermost(s) == Some(ContainerView::Struct(fields, doc)),
    ensures
        walk::option_field(g, s, field, t, room) matches Step::Done(u) ==> {
            &&& u.current == s.current
            &&& settled_from(g, s, t, room) matches Step::Done((_, format)) && model::innermost(u)
                == Some(
                ContainerView::Struct(
                    fields.push(
                        model::named_field(field, FormatView::Option(Box::new(format))),
                    ),
                    doc,
                ),
            )
        },
{
    lemma_settled_spares(g, s, t, room);
}

/// The struct being built is given exactly one field by an anonymous tuple or a transparent
/// newtype, with the reference to the tuple or to what the newtype wraps.
pub proof fn law_tuple_field_adds_one(
    g: Seq<Shape>,
    s: State,
    field: Field,
    inside: Inside,
    fields: Seq<NamedView<FormatView>>,
    doc: Seq<Seq<char>>,
    room: nat,
)
    requires
        progress::fit(g, s, room),
        field.shape < g.len(),
        inside matches Inside::Wrapper(t) ==> t < g.len(),
        model::innermost(s) == Some(ContainerView::Struct(fields, doc)),
    ensures
        walk::tuple_field(g, s, field, inside, room) matches Step::Done(u) ==> {
            let settled = match inside {
                Inside::Tuple => settled_from(g, s, field.shape as int, room),
                Inside::Wrapper(t) => settled_from(
                    g,
                    model::enter(
                        s,
                        namespace::namespace_action(g[field.shape as int].attributes@)->Ok_0,
                    ),
                    t as int,
                    room,
                ),
            };
            &&& u.current == s.current
            &&& u.namespace_context_stack == s.namespace_context_stack
            &&& settled matches Step::Done((_, format)) && model::innermost(u) == Some(
                ContainerView::Struct(fields.push(model::named_field(field, format)), doc),
            )
        },
{
    progress::lemma_fit_orderly(g, s, room);
    completion::lemma_tuple_field(g, s, field, inside, room, room);
    if let Step::Done(u) = walk::tuple_field(g, s, field, inside, room) {
        progress::lemma_keeps_orderly(g, s, u);
    }
    match inside {
        Inside::Tuple => {
            lemma_settled_spares(g, s, field.shape as int, room);
        },
        Inside::Wrapper(t) => {
            if let Ok(action) = namespace::namespace_action(
                g[field.shape as int].attributes@,
            ) {
                reach::lemma_shape_space(g, field.shape as int);
                progress::lemma_enter(g, s, action, room);
                lemma_settled_spares(g, model::enter(s, action), t as int, room);
            }
        },
    }
}

/// A field that has been handled leaves the struct being built as it was, if its type cannot be
/// reflected, or with exactly one field more, which has its name and a known format. What is
/// being built and the contexts in force are as before.
pub proof fn law_struct_field_adds_at_most_one(
    g: Seq<Shape>,
    s: State,
    field: Field,
    fields: Seq<NamedView<FormatView>>,
    doc: Seq<Seq<char>>,
    room: nat,
)
    requires
        progress::fit(g, s, room),
        progress::is_backed(g),
        field.shape < g.len(),
        reach::field_within(g, field),
        is_building(s, fields, doc),
    ensures
        walk::struct_field(g, s, field, room) matches Step::Done(t) ==> {
            &&& t.current == s.current
            &&& t.namespace_context_stack == s.namespace_context_stack
            &&& model::innermost(t) matches Some(ContainerView::Struct(after, d)) && d == doc && {
                ||| after == fields
                ||| {
                    &&& after.len() == fields.len() + 1
                    &&& after.drop_last() == fields
                    &&& after.last().name == naming::renamed(field.rename, field.name)
                    &&& !registry::has_unknown(after.last().value)
                }
            }
        },
{
    progress::lemma_fit_orderly(g, s, room);
    assert(shape::shape_wf(g, field.shape as int));
    completion::lemma_struct_field(g, s, field, room, room);
    lemma_bytes_known(g, field);
    if let Step::Done(t) = walk::struct_field(g, s, field, room) {
        progress::lemma_keeps_orderly(g, s, t);
        if let Step::Done((s1, false)) = model::supply_bytes(g, s, field) {
            assert(s1 == s);
            if let Some(c) = walk::option_of(g, field) {
                law_option_field_adds_one(g, s, field, c, fields, doc, room);
                lemma_settled_spares(g, s, c, room);
                let format = settled_from(g, s, c, room)->Done_0.1;
                assert(registry::has_unknown(FormatView::Option(Box::new(format)))
                    == registry::has_unknown(format));
            } else if let Some(inside) = walk::tuple_field_of(g, field) {
                law_tuple_field_adds_one(g, s, field, inside, fields, doc, room);
                if let Inside::Wrapper(c) = inside {
                    if let Ok(action) = namespace::namespace_action(
                        g[field.shape as int].attributes@,
                    ) {
                        reach::lemma_shape_space(g, field.shape as int);
                        progress::lemma_enter(g, s, action, room);
                        lemma_settled_spares(g, model::enter(s, action), c as int, room);
                    }
                } else {
                    lemma_settled_spares(g, s, field.shape as int, room);
                }
            } else {
                lemma_plain_field_adds(g, s, field, fields, doc, room);
            }
        }
        if let Some(ContainerView::Struct(after, d)) = model::innermost(t) {
            if after.len() > fields.len() {
                assert(after.drop_last() =~= fields);
            }
        }
    }
}

proof fn lemma_plain_field_adds(
    g: Seq<Shape>,
    s: State,
    field: Field,
    fields: Seq<NamedView<FormatView>>,
    doc: Seq<Seq<char>>,
    room: nat,
)
    requires
        progress::fit(g, s, room),
        progress::is_backed(g),
        field.shape < g.len(),
        reach::field_within(g, field),
        is_building(s, fields, doc),
    ensures
        walk::plain_field(g, s, field, room) matches Step::Done(t) ==> {
            ||| model::innermost(t) == Some(ContainerView::Struct(fields, doc))
            ||| exists|value: FormatView|
                !#[trigger] registry::has_unknown(value) && model::innermost(t) == Some(
                    ContainerView::Struct(fields.push(model::named_field(field, value)), doc),
                )
        },
{
    let i = field.shape as int;
    if let Ok(action) = namespace::namespace_action(field.attributes@) {
        let entered = model::enter(s, action);
        progress::lemma_enter(g, s, action, room);
        progress::lemma_fit_orderly(g, entered, room);
        progress::lemma_field_format(g, entered, i);
        progress::lemma_reference(g, entered, i, true);
        lemma_reference_known(g, entered, i, true);
        let (s1, formatted) = walk::field_format(g, entered, i);
        assert(is_building(s1, fields, doc));
        if let Step::Done(Some(value)) = formatted {
            progress::lemma_fit_after(g, entered, s1, room);
            lemma_field_type_spares(g, s1, i, action, fields, doc, room);
            if let Step::Done(s2) = walk::field_type(g, s1, i, action, room) {
                lemma_standing_known(g, s2, i, value);
            }
        }
    }
}

} // verus!
