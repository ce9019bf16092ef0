//! Every walk over a well-formed table is carried out to the end.
//!
//! There is one lemma for each part of the walk, by induction on the room that is left.

pub mod again;
pub mod closure;
pub mod fields;

use vstd::prelude::*;

use crate::format::{ContainerView, FormatView, NamedView, VariantView};
use crate::model;
use crate::model::State;
use crate::names;
use crate::names::{NameView, SpaceView};
use crate::namespace;
use crate::namespace::ActionView;
use crate::naming;
use crate::progress;
use crate::reach;
use crate::registry;
use crate::scalar;
use crate::shape;
use crate::shape::{
    Def, Field, PointerType, SequenceType, Shape, StructKind, StructType, Type, UserType, Variant,
};
use crate::step::Step;
use crate::walk;
use crate::walk::{Inside, Wrap};

verus! {

/// A step that yields something is carried out to the end, and keeps what a walk keeps.
pub open spec fn yields<T>(g: Seq<Shape>, s: State, step: Step<(State, T)>) -> bool {
    match step {
        Step::Done((t, _)) => progress::keeps(g, s, t),
        Step::Stuck => false,
        _ => true,
    }
}

pub proof fn lemma_nested(g: Seq<Shape>, s: State, i: int, room: nat, more: nat)
    requires
        progress::fit(g, s, room),
        room <= more,
        0 <= i < g.len(),
    ensures
        progress::goes(g, s, walk::nested(g, s, i, room)),
        walk::nested(g, s, i, more) == walk::nested(g, s, i, room),
    decreases room, i, 7int, 0int,
{
    let apart = model::set_aside(s);
    progress::lemma_fit_orderly(g, s, room);
    progress::lemma_set_aside(g, s, room);
    lemma_register(g, apart, i, room, more);
    if let Step::Done(u) = walk::register(g, apart, i, room) {
        progress::lemma_take_up(g, s, u);
    }
}

proof fn lemma_register(g: Seq<Shape>, s: State, i: int, room: nat, more: nat)
    requires
        progress::fit(g, s, room),
        room <= more,
        0 <= i < g.len(),
    ensures
        progress::goes(g, s, walk::register(g, s, i, room)),
        walk::register(g, s, i, more) == walk::register(g, s, i, room),
    decreases room, i, 6int, 0int,
{
    progress::lemma_fit_orderly(g, s, room);
    naming::lemma_generated(g, i);
    let k = naming::generated(g, i);
    let shape = g[k];
    assert(shape::shape_wf(g, k));
    if let Def::Option(t) = shape.def {
        lemma_register_below(g, s, t as int, k, room, more);
    } else {
        match shape.ty {
            Type::User(UserType::Struct(st)) => if st.kind == StructKind::Tuple {
                lemma_register_all(g, s, st.fields@, 0, k, room, more);
            } else {
                lemma_reflect(g, s, k, room, more);
            },
            Type::User(UserType::Enum(_)) => {
                lemma_reflect(g, s, k, room, more);
            },
            Type::Pointer(PointerType::Reference(t)) => {
                lemma_register_below(g, s, t as int, k, room, more);
            },
            Type::Pointer(PointerType::Raw(t)) => {
                lemma_register_below(g, s, t as int, k, room, more);
            },
            _ => match shape.def {
                Def::List(t) => {
                    lemma_register_below(g, s, t as int, k, room, more);
                },
                Def::Slice(t) => {
                    lemma_register_below(g, s, t as int, k, room, more);
                },
                Def::SetOf(t) => {
                    lemma_register_below(g, s, t as int, k, room, more);
                },
                Def::Array { item, size } => {
                    lemma_register_below(g, s, item as int, k, room, more);
                },
                Def::MapOf { key, value } => {
                    lemma_register_below(g, s, key as int, k, room, more);
                    if let Step::Done(s1) = walk::register_below(g, s, key as int, k, room) {
                        progress::lemma_fit_after(g, s, s1, room);
                        lemma_register_below(g, s1, value as int, k, room, more);
                        progress::lemma_goes_after(
                            g,
                            s,
                            s1,
                            walk::register_below(g, s1, value as int, k, room),
                        );
                    }
                },
                Def::Pointer(Some(t)) => {
                    lemma_register_below(g, s, t as int, k, room, more);
                },
                _ => {},
            },
        }
    }
}

pub proof fn lemma_register_below(
    g: Seq<Shape>,
    s: State,
    i: int,
    bound: int,
    room: nat,
    more: nat,
)
    requires
        progress::fit(g, s, room),
        room <= more,
        0 <= i < bound <= g.len(),
    ensures
        progress::goes(g, s, walk::register_below(g, s, i, bound, room)),
        walk::register_below(g, s, i, bound, more) == walk::register_below(g, s, i, bound, room),
    decreases room, bound, 1int, 0int,
{
    lemma_register(g, s, i, room, more);
}

proof fn lemma_register_all(
    g: Seq<Shape>,
    s: State,
    fields: Seq<Field>,
    from: int,
    bound: int,
    room: nat,
    more: nat,
)
    requires
        progress::fit(g, s, room),
        room <= more,
        0 <= from,
        0 <= bound <= g.len(),
        shape::fields_below(fields, bound),
    ensures
        progress::goes(g, s, walk::register_all(g, s, fields, from, bound, room)),
        walk::register_all(g, s, fields, from, bound, more)
            == walk::register_all(g, s, fields, from, bound, room),
    decreases room, bound, 2int, fields.len() - from,
{
    progress::lemma_fit_orderly(g, s, room);
    if from < fields.len() {
        let i = fields[from].shape as int;
        lemma_register_below(g, s, i, bound, room, more);
        if let Step::Done(s1) = walk::register_below(g, s, i, bound, room) {
            progress::lemma_fit_after(g, s, s1, room);
            lemma_register_all(g, s1, fields, from + 1, bound, room, more);
            progress::lemma_goes_after(
                g,
                s,
                s1,
                walk::register_all(g, s1, fields, from + 1, bound, room),
            );
        }
    }
}

/// Reflecting a type is carried out to the end, and keeps what a walk keeps.
pub proof fn lemma_reflect(g: Seq<Shape>, s: State, i: int, room: nat, more: nat)
    requires
        progress::fit(g, s, room),
        room <= more,
        0 <= i < g.len(),
    ensures
        progress::goes(g, s, walk::reflect(g, s, i, room)),
        walk::reflect(g, s, i, more) == walk::reflect(g, s, i, room),
    decreases room, i, 5int, 0int,
{
    progress::lemma_fit_orderly(g, s, room);
    naming::lemma_generated(g, i);
    let j = naming::generated(g, i);
    let shape = g[j];
    assert(shape::shape_wf(g, j));
    let (s1, supported) = model::meet_params(s, shape);
    progress::lemma_meet_params(g, s, shape);
    progress::lemma_fit_after(g, s, s1, room);
    if supported {
        if let Def::Option(t) = shape.def {
            lemma_compound(g, s1, t as int, j, Wrap::Option, true, room, more);
            progress::lemma_goes_after(
                g,
                s,
                s1,
                walk::compound(g, s1, t as int, j, Wrap::Option, true, room),
            );
        } else {
            match shape.ty {
                Type::User(UserType::Struct(st)) => {
                    lemma_format_struct(g, s1, j, room, more);
                    progress::lemma_goes_after(g, s, s1, walk::format_struct(g, s1, j, room));
                },
                Type::User(UserType::Enum(et)) => {
                    lemma_format_enum(g, s1, j, room, more);
                    progress::lemma_goes_after(g, s, s1, walk::format_enum(g, s1, j, room));
                },
                Type::Sequence(sequence) => {
                    lemma_format_sequence(g, s1, j, sequence, room, more);
                    progress::lemma_goes_after(
                        g,
                        s,
                        s1,
                        walk::format_sequence(g, s1, j, sequence, room),
                    );
                },
                _ => {
                    lemma_format_def(g, s1, j, room, more);
                    progress::lemma_goes_after(g, s, s1, walk::format_def(g, s1, j, room));
                },
            }
        }
    }
}

proof fn lemma_format_sequence(
    g: Seq<Shape>,
    s: State,
    j: int,
    sequence: SequenceType,
    room: nat,
    more: nat,
)
    requires
        progress::fit(g, s, room),
        room <= more,
        0 <= j < g.len(),
        g[j].ty == Type::Sequence(sequence),
    ensures
        progress::goes(g, s, walk::format_sequence(g, s, j, sequence, room)),
        walk::format_sequence(g, s, j, sequence, more)
            == walk::format_sequence(g, s, j, sequence, room),
    decreases room, j, 4int, 0int,
{
    progress::lemma_fit_orderly(g, s, room);
    assert(shape::shape_wf(g, j));
    match (sequence, g[j].def) {
        (SequenceType::Slice(_), Def::Slice(t)) => {
            lemma_compound(g, s, t as int, j, Wrap::SeqOf, true, room, more);
        },
        (SequenceType::Array(_), Def::Array { item, size }) => {
            lemma_compound(g, s, item as int, j, Wrap::TupleArray(size), true, room, more);
        },
        (SequenceType::Slice(t), _) => {
            lemma_compound(g, s, t as int, j, Wrap::SeqOf, true, room, more);
        },
        (SequenceType::Array(t), _) => {
            lemma_compound(g, s, t as int, j, Wrap::SeqOf, true, room, more);
        },
    }
}

proof fn lemma_format_def(g: Seq<Shape>, s: State, j: int, room: nat, more: nat)
    requires
        progress::fit(g, s, room),
        room <= more,
        0 <= j < g.len(),
        !shape::is_container(g[j]),
    ensures
        progress::goes(g, s, walk::format_def(g, s, j, room)),
        walk::format_def(g, s, j, more) == walk::format_def(g, s, j, room),
    decreases room, j, 4int, 0int,
{
    progress::lemma_fit_orderly(g, s, room);
    let shape = g[j];
    assert(shape::shape_wf(g, j));
    match shape.def {
        Def::Scalar => {
            if let Step::Done(Some(format)) = scalar::scalar_format(shape) {
                progress::lemma_supply(g, s, format, true);
            }
        },
        Def::MapOf { key, value } => {
            lemma_format_map(g, s, key as int, value as int, j, room, more);
        },
        Def::List(t) => {
            lemma_compound(g, s, t as int, j, Wrap::SeqOf, true, room, more);
        },
        Def::Slice(t) => {
            lemma_compound(g, s, t as int, j, Wrap::SeqOf, true, room, more);
        },
        Def::Array { item, size } => {
            lemma_compound(g, s, item as int, j, Wrap::TupleArray(size), true, room, more);
        },
        Def::SetOf(t) => {
            lemma_compound(g, s, t as int, j, Wrap::SetOf, true, room, more);
        },
        Def::Option(t) => {
            lemma_compound(g, s, t as int, j, Wrap::Option, true, room, more);
        },
        Def::Pointer(Some(t)) => {
            lemma_compound(g, s, t as int, j, Wrap::Plain, false, room, more);
        },
        Def::Pointer(None) => {
            progress::lemma_supply(g, s, FormatView::Unit, true);
        },
        Def::Undefined => {
            lemma_format_undefined(g, s, j, room, more);
        },
        Def::Other => {},
    }
}

proof fn lemma_format_undefined(g: Seq<Shape>, s: State, j: int, room: nat, more: nat)
    requires
        progress::fit(g, s, room),
        room <= more,
        0 <= j < g.len(),
        !shape::is_container(g[j]),
    ensures
        progress::goes(g, s, walk::format_undefined(g, s, j, room)),
        walk::format_undefined(g, s, j, more) == walk::format_undefined(g, s, j, room),
    decreases room, j, 3int, 0int,
{
    progress::lemma_fit_orderly(g, s, room);
    assert(shape::shape_wf(g, j));
    progress::lemma_supply(g, s, FormatView::Bool, true);
    progress::lemma_supply(g, s, FormatView::F32, true);
    progress::lemma_supply(g, s, FormatView::Str, true);
    match g[j].ty {
        Type::Pointer(PointerType::Reference(t)) => {
            lemma_reflect(g, s, t as int, room, more);
        },
        Type::Pointer(PointerType::Raw(t)) => {
            lemma_reflect(g, s, t as int, room, more);
        },
        _ => {},
    }
}

pub proof fn lemma_compound(
    g: Seq<Shape>,
    s: State,
    t: int,
    bound: int,
    wrap: Wrap,
    force: bool,
    room: nat,
    more: nat,
)
    requires
        progress::fit(g, s, room),
        room <= more,
        0 <= t < bound <= g.len(),
    ensures
        progress::goes(g, s, walk::compound(g, s, t, bound, wrap, force, room)),
        walk::compound(g, s, t, bound, wrap, force, more)
            == walk::compound(g, s, t, bound, wrap, force, room),
    decreases room, bound, 2int, 0int,
{
    progress::lemma_fit_orderly(g, s, room);
    progress::lemma_reference(g, s, t, true);
    let (s1, referred) = walk::reference(g, s, t, true);
    if let Step::Done(format) = referred {
        progress::lemma_fit_after(g, s, s1, room);
        lemma_nested(g, s1, t, room, more);
        if let Step::Done(s2) = walk::nested(g, s1, t, room) {
            let stood = walk::wrapped(wrap, walk::standing(g, s2, t, format));
            progress::lemma_keeps_trans(g, s, s1, s2);
            progress::lemma_keeps_orderly(g, s, s2);
            progress::lemma_supply(g, s2, stood, force);
            progress::lemma_goes_after(g, s, s2, model::supply(s2, stood, force));
        }
    }
}

proof fn lemma_format_map(
    g: Seq<Shape>,
    s: State,
    key: int,
    value: int,
    bound: int,
    room: nat,
    more: nat,
)
    requires
        progress::fit(g, s, room),
        room <= more,
        0 <= key < bound <= g.len(),
        0 <= value < bound,
    ensures
        progress::goes(g, s, walk::format_map(g, s, key, value, bound, room)),
        walk::format_map(g, s, key, value, bound, more)
            == walk::format_map(g, s, key, value, bound, room),
    decreases room, bound, 2int, 0int,
{
    progress::lemma_fit_orderly(g, s, room);
    progress::lemma_reference(g, s, key, true);
    let (s1, first) = walk::reference(g, s, key, true);
    if let Step::Done(k) = first {
        progress::lemma_keeps_orderly(g, s, s1);
        progress::lemma_reference(g, s1, value, true);
        let (s2, second) = walk::reference(g, s1, value, true);
        progress::lemma_keeps_trans(g, s, s1, s2);
        if let Step::Done(v) = second {
            progress::lemma_fit_after(g, s, s2, room);
            lemma_nested(g, s2, key, room, more);
            if let Step::Done(s3) = walk::nested(g, s2, key, room) {
                progress::lemma_keeps_trans(g, s, s2, s3);
                progress::lemma_fit_after(g, s, s3, room);
                lemma_nested(g, s3, value, room, more);
                if let Step::Done(s4) = walk::nested(g, s3, value, room) {
                    let stood = FormatView::MapOf {
                        key: Box::new(walk::standing(g, s3, key, k)),
                        value: Box::new(walk::standing(g, s4, value, v)),
                    };
                    progress::lemma_keeps_trans(g, s, s3, s4);
                    progress::lemma_keeps_orderly(g, s, s4);
                    progress::lemma_supply(g, s4, stood, true);
                    progress::lemma_goes_after(g, s, s4, model::supply(s4, stood, true));
                }
            }
        }
    }
}

proof fn lemma_format_struct(g: Seq<Shape>, s: State, j: int, room: nat, more: nat)
    requires
        progress::fit(g, s, room),
        room <= more,
        0 <= j < g.len(),
        naming::inner_of(g, j) is None,
        g[j].ty matches Type::User(UserType::Struct(_)),
    ensures
        progress::goes(g, s, walk::format_struct(g, s, j, room)),
        walk::format_struct(g, s, j, more) == walk::format_struct(g, s, j, room),
    decreases room, j, 4int, 0int,
{
    progress::lemma_fit_orderly(g, s, room);
    assert(shape::shape_wf(g, j));
    if let Type::User(UserType::Struct(st)) = g[j].ty {
        if st.kind == StructKind::Tuple {
            lemma_format_tuple(g, s, st.fields@, j, room, more);
        } else {
            progress::lemma_open(g, s, j, room);
            if let Step::Done((s1, Some(name))) = walk::open_container(g, s, j) {
                let less = (room - 1) as nat;
                reach::lemma_fields_within(g, j);
                assert(s1.processed[name].id == g[j].id) by {
                    assert(naming::generated(g, j) == j);
                }
                assert(shape::is_container(g[j]));
                lemma_struct_body(g, s1, name, st.kind, st.fields@, j, less, (more - 1) as nat);
                if let Step::Done(s2) = walk::struct_body(
                    g,
                    s1,
                    name,
                    st.kind,
                    st.fields@,
                    j,
                    less,
                ) {
                    progress::lemma_close(g, s, j, s2);
                }
            }
        }
    }
}

proof fn lemma_format_tuple(
    g: Seq<Shape>,
    s: State,
    fields: Seq<Field>,
    j: int,
    room: nat,
    more: nat,
)
    requires
        progress::fit(g, s, room),
        room <= more,
        0 <= j < g.len(),
        shape::fields_below(fields, j),
    ensures
        progress::goes(g, s, walk::format_tuple(g, s, fields, j, room)),
        walk::format_tuple(g, s, fields, j, more) == walk::format_tuple(g, s, fields, j, room),
    decreases room, j, 3int, 0int,
{
    let apart = State { current: Seq::empty(), ..s };
    progress::lemma_fit_orderly(g, s, room);
    progress::lemma_aside(g, s, room);
    lemma_register_all(g, apart, fields, 0, j, room, more);
    if let Step::Done(u) = walk::register_all(g, apart, fields, 0, j, room) {
        progress::lemma_resume(g, s, u);
    }
}

proof fn lemma_struct_body(
    g: Seq<Shape>,
    s: State,
    name: NameView,
    kind: StructKind,
    fields: Seq<Field>,
    j: int,
    room: nat,
    more: nat,
)
    requires
        progress::fit(g, s, room),
        room <= more,
        0 <= j < g.len(),
        s.processed.contains_key(name),
        shape::is_transparent(g[j]) ==> progress::is_bare(g, s.processed[name].id),
        kind != StructKind::Tuple,
        shape::fields_below(fields, g.len() as int),
        reach::fields_within(g, fields),
    ensures
        progress::goes_beside(g, s, walk::struct_body(g, s, name, kind, fields, j, room), name),
        walk::struct_body(g, s, name, kind, fields, j, more)
            == walk::struct_body(g, s, name, kind, fields, j, room),
    decreases room, g.len() + 4, 0int, 0int,
{
    progress::lemma_fit_orderly(g, s, room);
    let doc = crate::format::lines_view(g[j].doc@);
    match kind {
        StructKind::Unit => {
            let container = ContainerView::UnitStruct(doc);
            progress::lemma_start_met(g, s, name, container, j, room);
            if let Step::Done(s1) = model::start_met(g, s, name, container, j) {
                progress::lemma_fit_orderly(g, s1, room);
                progress::lemma_finish_met(g, s, name, container, j, s1);
            }
        },
        StructKind::TupleStruct => if fields.len() == 1 {
            if shape::is_transparent(g[j]) {
                lemma_wrapper_field(g, s, fields[0], room, more);
                if let Step::Done(t) = walk::wrapper_field(g, s, fields[0], room) {
                    assert(forall|n: NameView| #[trigger] set![name].contains(n) ==> n == name);
                    progress::lemma_keeps_beside(g, s, t, set![name]);
                }
            } else {
                let container = ContainerView::NewTypeStruct(FormatView::Variable, doc);
                progress::lemma_start_met(g, s, name, container, j, room);
                if let Step::Done(s1) = model::start_met(g, s, name, container, j) {
                    lemma_positional_field(g, s1, fields[0], room, more);
                    if let Step::Done(s2) = walk::positional_field(g, s1, fields[0], room) {
                        progress::lemma_finish_met(g, s, name, container, j, s2);
                    }
                }
            }
        } else {
            let container = ContainerView::TupleStruct(Seq::empty(), doc);
            progress::lemma_start_met(g, s, name, container, j, room);
            if let Step::Done(s1) = model::start_met(g, s, name, container, j) {
                lemma_positional_fields(g, s1, fields, 0, room, more);
                if let Step::Done(s2) = walk::positional_fields(g, s1, fields, 0, room) {
                    progress::lemma_finish_met(g, s, name, container, j, s2);
                }
            }
        },
        StructKind::Struct => {
            let container = ContainerView::Struct(Seq::empty(), doc);
            progress::lemma_start_met(g, s, name, container, j, room);
            if let Step::Done(s1) = model::start_met(g, s, name, container, j) {
                lemma_struct_fields(g, s1, fields, 0, room, more);
                if let Step::Done(s2) = walk::struct_fields(g, s1, fields, 0, room) {
                    progress::lemma_keeps_orderly(g, s1, s2);
                    progress::lemma_settle_struct(g, s2);
                    progress::lemma_keeps_trans(g, s1, s2, model::settle_struct(s2));
                    progress::lemma_finish_met(
                        g,
                        s,
                        name,
                        container,
                        j,
                        model::settle_struct(s2),
                    );
                }
            }
        },
        StructKind::Tuple => {},
    }
}

proof fn lemma_wrapper_field(g: Seq<Shape>, s: State, field: Field, room: nat, more: nat)
    requires
        progress::fit(g, s, room),
        room <= more,
        field.shape < g.len(),
    ensures
        progress::goes(g, s, walk::wrapper_field(g, s, field, room)),
        walk::wrapper_field(g, s, field, more) == walk::wrapper_field(g, s, field, room),
    decreases room, g.len() + 2, 0int, 0int,
{
    progress::lemma_fit_orderly(g, s, room);
    progress::lemma_supply_bytes(g, s, field);
    if let Step::Done((s1, false)) = model::supply_bytes(g, s, field) {
        progress::lemma_fit_after(g, s, s1, room);
        lemma_reflect(g, s1, field.shape as int, room, more);
        progress::lemma_goes_after(g, s, s1, walk::reflect(g, s1, field.shape as int, room));
    }
}

pub proof fn lemma_positional_field(g: Seq<Shape>, s: State, field: Field, room: nat, more: nat)
    requires
        progress::fit(g, s, room),
        room <= more,
        field.shape < g.len(),
    ensures
        progress::goes(g, s, walk::positional_field(g, s, field, room)),
        walk::positional_field(g, s, field, more) == walk::positional_field(g, s, field, room),
    decreases room, g.len() + 2, 0int, 0int,
{
    progress::lemma_fit_orderly(g, s, room);
    progress::lemma_supply_bytes(g, s, field);
    if let Step::Done((s1, false)) = model::supply_bytes(g, s, field) {
        progress::lemma_fit_after(g, s, s1, room);
        lemma_positional(g, s1, field.shape as int, room, more);
        progress::lemma_goes_after(g, s, s1, walk::positional(g, s1, field.shape as int, room));
    }
}

proof fn lemma_positional(g: Seq<Shape>, s: State, i: int, room: nat, more: nat)
    requires
        progress::fit(g, s, room),
        room <= more,
        0 <= i < g.len(),
    ensures
        progress::goes(g, s, walk::positional(g, s, i, room)),
        walk::positional(g, s, i, more) == walk::positional(g, s, i, room),
    decreases room, i, 9int, 0int,
{
    progress::lemma_fit_orderly(g, s, room);
    progress::lemma_field_format(g, s, i);
    let (s1, formatted) = walk::field_format(g, s, i);
    progress::lemma_fit_after(g, s, s1, room);
    match formatted {
        Step::Done(Some(format)) => {
            lemma_nested(g, s1, i, room, more);
            if let Step::Done(s2) = walk::nested(g, s1, i, room) {
                let stood = walk::standing(g, s2, i, format);
                progress::lemma_keeps_trans(g, s, s1, s2);
                progress::lemma_keeps_orderly(g, s, s2);
                progress::lemma_supply(g, s2, stood, true);
                progress::lemma_goes_after(g, s, s2, model::supply(s2, stood, true));
            }
        },
        Step::Done(None) => {
            lemma_nested(g, s1, i, room, more);
            progress::lemma_goes_after(g, s, s1, walk::nested(g, s1, i, room));
        },
        _ => {},
    }
}

pub proof fn lemma_positional_fields(
    g: Seq<Shape>,
    s: State,
    fields: Seq<Field>,
    from: int,
    room: nat,
    more: nat,
)
    requires
        progress::fit(g, s, room),
        room <= more,
        0 <= from,
        shape::fields_below(fields, g.len() as int),
    ensures
        progress::goes(g, s, walk::positional_fields(g, s, fields, from, room)),
        walk::positional_fields(g, s, fields, from, more)
            == walk::positional_fields(g, s, fields, from, room),
    decreases room, g.len() + 3, 0int, fields.len() - from,
{
    progress::lemma_fit_orderly(g, s, room);
    if from < fields.len() {
        if fields[from].skip {
            lemma_positional_fields(g, s, fields, from + 1, room, more);
        } else {
            lemma_positional_field(g, s, fields[from], room, more);
            if let Step::Done(s1) = walk::positional_field(g, s, fields[from], room) {
                progress::lemma_fit_after(g, s, s1, room);
                lemma_positional_fields(g, s1, fields, from + 1, room, more);
                progress::lemma_goes_after(
                    g,
                    s,
                    s1,
                    walk::positional_fields(g, s1, fields, from + 1, room),
                );
            }
        }
    }
}

pub proof fn lemma_struct_fields(
    g: Seq<Shape>,
    s: State,
    fields: Seq<Field>,
    from: int,
    room: nat,
    more: nat,
)
    requires
        progress::fit(g, s, room),
        room <= more,
        0 <= from,
        shape::fields_below(fields, g.len() as int),
        reach::fields_within(g, fields),
    ensures
        progress::goes(g, s, walk::struct_fields(g, s, fields, from, room)),
        walk::struct_fields(g, s, fields, from, more)
            == walk::struct_fields(g, s, fields, from, room),
    decreases room, g.len() + 3, 0int, fields.len() - from,
{
    progress::lemma_fit_orderly(g, s, room);
    if from < fields.len() {
        if fields[from].skip {
            lemma_struct_fields(g, s, fields, from + 1, room, more);
        } else {
            lemma_struct_field(g, s, fields[from], room, more);
            if let Step::Done(s1) = walk::struct_field(g, s, fields[from], room) {
                progress::lemma_fit_after(g, s, s1, room);
                lemma_struct_fields(g, s1, fields, from + 1, room, more);
                progress::lemma_goes_after(
                    g,
                    s,
                    s1,
                    walk::struct_fields(g, s1, fields, from + 1, room),
                );
            }
        }
    }
}

pub proof fn lemma_struct_field(g: Seq<Shape>, s: State, field: Field, room: nat, more: nat)
    requires
        progress::fit(g, s, room),
        room <= more,
        field.shape < g.len(),
        reach::field_within(g, field),
    ensures
        progress::goes(g, s, walk::struct_field(g, s, field, room)),
        walk::struct_field(g, s, field, more) == walk::struct_field(g, s, field, room),
    decreases room, g.len() + 2, 0int, 0int,
{
    progress::lemma_fit_orderly(g, s, room);
    assert(shape::shape_wf(g, field.shape as int));
    progress::lemma_supply_bytes(g, s, field);
    if let Step::Done((s1, false)) = model::supply_bytes(g, s, field) {
        progress::lemma_fit_after(g, s, s1, room);
        if let Some(t) = walk::option_of(g, field) {
            lemma_option_field(g, s1, field, t, room, more);
            progress::lemma_goes_after(g, s, s1, walk::option_field(g, s1, field, t, room));
        } else if let Some(inside) = walk::tuple_field_of(g, field) {
            lemma_tuple_field(g, s1, field, inside, room, more);
            progress::lemma_goes_after(g, s, s1, walk::tuple_field(g, s1, field, inside, room));
        } else {
            lemma_plain_field(g, s1, field, room, more);
            progress::lemma_goes_after(g, s, s1, walk::plain_field(g, s1, field, room));
        }
    }
}

proof fn lemma_option_field(g: Seq<Shape>, s: State, field: Field, t: int, room: nat, more: nat)
    requires
        progress::fit(g, s, room),
        room <= more,
        0 <= t < g.len(),
    ensures
        progress::goes(g, s, walk::option_field(g, s, field, t, room)),
        walk::option_field(g, s, field, t, more) == walk::option_field(g, s, field, t, room),
    decreases room, g.len() + 1, 0int, 0int,
{
    progress::lemma_fit_orderly(g, s, room);
    progress::lemma_reference(g, s, t, true);
    let (s1, referred) = walk::reference(g, s, t, true);
    if let Step::Done(format) = referred {
        progress::lemma_fit_after(g, s, s1, room);
        lemma_nested(g, s1, t, room, more);
        if let Step::Done(s2) = walk::nested(g, s1, t, room) {
            let stood = FormatView::Option(Box::new(walk::standing(g, s2, t, format)));
            lemma_then_add_field(g, s, s1, s2, model::named_field(field, stood));
        }
    }
}

proof fn lemma_then_add_field(
    g: Seq<Shape>,
    s: State,
    s1: State,
    s2: State,
    named: NamedView<FormatView>,
)
    requires
        progress::keeps(g, s, s1),
        progress::keeps(g, s1, s2),
    ensures
        progress::keeps(g, s, model::add_field(s2, named)),
{
    progress::lemma_keeps_trans(g, s, s1, s2);
    progress::lemma_keeps_orderly(g, s, s2);
    progress::lemma_add_field(g, s2, named);
    progress::lemma_keeps_trans(g, s, s2, model::add_field(s2, named));
}

/// A context is entered, a walk follows, it is left, and a field is added.
proof fn lemma_leave_then_add(
    g: Seq<Shape>,
    s: State,
    action: ActionView,
    u: State,
    named: NamedView<FormatView>,
)
    requires
        progress::keeps(g, model::enter(s, action), u),
        reach::spaces(g).contains(reach::action_space(action)),
    ensures
        progress::keeps(g, s, model::leave(u)),
        progress::keeps(g, s, model::add_field(model::leave(u), named)),
{
    progress::lemma_leave(g, s, action, u);
    progress::lemma_keeps_orderly(g, s, model::leave(u));
    progress::lemma_add_field(g, model::leave(u), named);
    progress::lemma_keeps_trans(
        g,
        s,
        model::leave(u),
        model::add_field(model::leave(u), named),
    );
}

pub proof fn lemma_tuple_field(
    g: Seq<Shape>,
    s: State,
    field: Field,
    inside: Inside,
    room: nat,
    more: nat,
)
    requires
        progress::fit(g, s, room),
        room <= more,
        field.shape < g.len(),
        inside matches Inside::Wrapper(t) ==> t < g.len(),
    ensures
        progress::goes(g, s, walk::tuple_field(g, s, field, inside, room)),
        walk::tuple_field(g, s, field, inside, more)
            == walk::tuple_field(g, s, field, inside, room),
    decreases room, g.len() + 1, 0int, 0int,
{
    progress::lemma_fit_orderly(g, s, room);
    match inside {
        Inside::Tuple => {
            let i = field.shape as int;
            progress::lemma_reference(g, s, i, true);
            let (s1, referred) = walk::reference(g, s, i, true);
            if let Step::Done(format) = referred {
                progress::lemma_fit_after(g, s, s1, room);
                lemma_nested(g, s1, i, room, more);
                if let Step::Done(s2) = walk::nested(g, s1, i, room) {
                    let named = model::named_field(field, walk::standing(g, s2, i, format));
                    lemma_then_add_field(g, s, s1, s2, named);
                }
            }
        },
        Inside::Wrapper(t) => {
            if let Ok(action) = namespace::namespace_action(
                g[field.shape as int].attributes@,
            ) {
                reach::lemma_shape_space(g, field.shape as int);
                progress::lemma_enter(g, s, action, room);
                let entered = model::enter(s, action);
                progress::lemma_fit_orderly(g, entered, room);
                progress::lemma_reference(g, entered, t as int, true);
                let (s1, referred) = walk::reference(g, entered, t as int, true);
                if let Step::Done(format) = referred {
                    progress::lemma_fit_after(g, entered, s1, room);
                    lemma_nested(g, s1, t as int, room, more);
                    if let Step::Done(s2) = walk::nested(g, s1, t as int, room) {
                        progress::lemma_keeps_trans(g, entered, s1, s2);
                        lemma_leave_then_add(
                            g,
                            s,
                            action,
                            s2,
                            model::named_field(field, walk::standing(g, s2, t as int, format)),
                        );
                    }
                }
            }
        },
    }
}

proof fn lemma_plain_field(g: Seq<Shape>, s: State, field: Field, room: nat, more: nat)
    requires
        progress::fit(g, s, room),
        room <= more,
        field.shape < g.len(),
        reach::field_within(g, field),
    ensures
        progress::goes(g, s, walk::plain_field(g, s, field, room)),
        walk::plain_field(g, s, field, more) == walk::plain_field(g, s, field, room),
    decreases room, g.len() + 1, 1int, 0int,
{
    if let Ok(action) = namespace::namespace_action(field.attributes@) {
        lemma_field_value(g, s, field, action, room, more);
        if let Step::Done((s1, Some(value))) = walk::field_value(
            g,
            model::enter(s, action),
            field,
            action,
            room,
        ) {
            let named = model::named_field(field, value);
            progress::lemma_keeps_orderly(g, s, s1);
            progress::lemma_add_field(g, s1, named);
            progress::lemma_keeps_trans(g, s, s1, model::add_field(s1, named));
        }
    }
}

pub proof fn lemma_field_value(
    g: Seq<Shape>,
    s: State,
    field: Field,
    action: ActionView,
    room: nat,
    more: nat,
)
    requires
        progress::fit(g, s, room),
        room <= more,
        field.shape < g.len(),
        reach::spaces(g).contains(reach::action_space(action)),
    ensures
        yields(g, s, walk::field_value(g, model::enter(s, action), field, action, room)),
        walk::field_value(g, model::enter(s, action), field, action, more)
            == walk::field_value(g, model::enter(s, action), field, action, room),
    decreases room, g.len() + 1, 0int, 0int,
{
    let i = field.shape as int;
    let entered = model::enter(s, action);
    progress::lemma_fit_orderly(g, s, room);
    progress::lemma_enter(g, s, action, room);
    progress::lemma_fit_orderly(g, entered, room);
    progress::lemma_field_format(g, entered, i);
    let (s1, formatted) = walk::field_format(g, entered, i);
    progress::lemma_leave(g, s, action, s1);
    if let Step::Done(Some(value)) = formatted {
        progress::lemma_fit_after(g, entered, s1, room);
        lemma_field_type(g, s1, i, action, room, more);
        if let Step::Done(s2) = walk::field_type(g, s1, i, action, room) {
            progress::lemma_keeps_trans(g, entered, s1, s2);
            progress::lemma_leave(g, s, action, s2);
        }
    }
}

proof fn lemma_field_type(g: Seq<Shape>, s: State, i: int, action: ActionView, room: nat, more: nat)
    requires
        progress::fit(g, s, room),
        room <= more,
        0 <= i < g.len(),
        reach::spaces(g).contains(reach::action_space(action)),
    ensures
        progress::goes(g, s, walk::field_type(g, s, i, action, room)),
        walk::field_type(g, s, i, action, more) == walk::field_type(g, s, i, action, room),
    decreases room, i, 7int, 0int,
{
    match walk::named_space(action) {
        Some(space) => {
            lemma_format_in(g, s, i, space, room, more);
        },
        None => {
            lemma_reflect(g, s, i, room, more);
        },
    }
}

proof fn lemma_format_in(g: Seq<Shape>, s: State, i: int, space: Seq<char>, room: nat, more: nat)
    requires
        progress::fit(g, s, room),
        room <= more,
        0 <= i < g.len(),
        reach::spaces(g).contains(SpaceView::Named(space)),
    ensures
        progress::goes(g, s, walk::format_in(g, s, i, space, room)),
        walk::format_in(g, s, i, space, more) == walk::format_in(g, s, i, space, room),
    decreases room, i, 6int, 0int,
{
    progress::lemma_fit_orderly(g, s, room);
    let action = ActionView::SetContext(namespace::explicit_context(SpaceView::Named(space)));
    let entered = model::enter(s, action);
    progress::lemma_enter(g, s, action, room);
    lemma_reflect(g, entered, i, room, more);
    if let Step::Done(s1) = walk::reflect(g, entered, i, room) {
        progress::lemma_leave(g, s, action, s1);
        lemma_meet_again(g, s, model::leave(s1), i);
    }
}

/// Naming a type once more keeps what a walk keeps.
proof fn lemma_meet_again(g: Seq<Shape>, s: State, t: State, i: int)
    requires
        progress::keeps(g, s, t),
    ensures
        progress::goes(g, s, walk::meet_again(g, t, i)),
{
    progress::lemma_keeps_orderly(g, s, t);
    progress::lemma_walk_name(g, t, i);
    progress::lemma_keeps_trans(g, s, t, model::walk_name(g, t, i).0);
}

proof fn lemma_format_enum(g: Seq<Shape>, s: State, j: int, room: nat, more: nat)
    requires
        progress::fit(g, s, room),
        room <= more,
        0 <= j < g.len(),
        naming::inner_of(g, j) is None,
        g[j].ty matches Type::User(UserType::Enum(_)),
    ensures
        progress::goes(g, s, walk::format_enum(g, s, j, room)),
        walk::format_enum(g, s, j, more) == walk::format_enum(g, s, j, room),
    decreases room, j, 4int, 0int,
{
    progress::lemma_fit_orderly(g, s, room);
    assert(shape::shape_wf(g, j));
    if let Type::User(UserType::Enum(et)) = g[j].ty {
        progress::lemma_open(g, s, j, room);
        if let Step::Done((s1, Some(name))) = walk::open_container(g, s, j) {
            let less = (room - 1) as nat;
            let apart = State { current: Seq::empty(), ..s1 };
            let step = walk::enum_variants(g, apart, et.variants@, 0, 0, Map::empty(), j, less);
            reach::lemma_fields_within(g, j);
            progress::lemma_opened(g, s, j);
            progress::lemma_fit_orderly(g, s1, less);
            progress::lemma_aside(g, s1, less);
            lemma_enum_variants(
                g,
                apart,
                et.variants@,
                0,
                0,
                Map::empty(),
                j,
                less,
                (more - 1) as nat,
            );
            if let Step::Done((u, variants)) = step {
                progress::lemma_resume(g, s1, u);
                let s2 = State { current: s1.current, ..u };
                progress::lemma_fit_after(g, s1, s2, less);
                progress::lemma_keeps_orderly(g, s1, s2);
                let container = ContainerView::Enum(
                    variants,
                    naming::tagging(g[j]),
                    crate::format::lines_view(g[j].doc@),
                );
                progress::lemma_start_met(g, s2, name, container, j, less);
                if let Step::Done(s3) = model::start_met(g, s2, name, container, j) {
                    progress::lemma_fit_orderly(g, s2, less);
                    progress::lemma_fit_orderly(g, s3, less);
                    progress::lemma_finish_met(g, s2, name, container, j, s3);
                    assert(set![name].subset_of(s1.processed.dom()));
                    progress::lemma_keeps_beside_trans(
                        g,
                        s1,
                        s2,
                        model::finish(s3),
                        set![name],
                    );
                    progress::lemma_close(g, s, j, model::finish(s3));
                }
            }
        }
    }
}

pub proof fn lemma_enum_variants(
    g: Seq<Shape>,
    s: State,
    variants: Seq<Variant>,
    from: int,
    index: int,
    known: Map<u32, NamedView<VariantView>>,
    j: int,
    room: nat,
    more: nat,
)
    requires
        progress::fit(g, s, room),
        room <= more,
        0 <= from,
        0 <= j < g.len(),
        forall|v: int|
            0 <= v < variants.len() ==> shape::fields_below(
                (#[trigger] variants[v]).fields@,
                g.len() as int,
            ),
        forall|v: int|
            0 <= v < variants.len() ==> reach::fields_within(g, (#[trigger] variants[v]).fields@),
    ensures
        match walk::enum_variants(g, s, variants, from, index, known, j, room) {
            Step::Done((t, _)) => progress::keeps(g, s, t),
            Step::Stuck => false,
            _ => true,
        },
        walk::enum_variants(g, s, variants, from, index, known, j, more)
            == walk::enum_variants(g, s, variants, from, index, known, j, room),
    decreases room, g.len() + 5, 0int, variants.len() - from,
{
    progress::lemma_fit_orderly(g, s, room);
    if from < variants.len() {
        if shape::has_attr(variants[from].attributes@, None, "skip"@) {
            lemma_enum_variants(g, s, variants, from + 1, index, known, j, room, more);
        } else {
            lemma_variant_format(g, s, variants[from], j, room, more);
            if let Step::Done((s1, value)) = walk::variant_format(
                g,
                s,
                variants[from],
                j,
                room,
            ) {
                progress::lemma_fit_after(g, s, s1, room);
                let named = NamedView {
                    name: naming::renamed(variants[from].rename, variants[from].name),
                    doc: crate::format::lines_view(variants[from].doc@),
                    value,
                };
                let added = known.insert(index as u32, named);
                lemma_enum_variants(
                    g,
                    s1,
                    variants,
                    from + 1,
                    index + 1,
                    added,
                    j,
                    room,
                    more,
                );
                let rest = walk::enum_variants(
                    g,
                    s1,
                    variants,
                    from + 1,
                    index + 1,
                    added,
                    j,
                    room,
                );
                if let Step::Done((t, _)) = rest {
                    progress::lemma_keeps_trans(g, s, s1, t);
                }
            }
        }
    }
}

pub proof fn lemma_variant_format(
    g: Seq<Shape>,
    s: State,
    variant: Variant,
    j: int,
    room: nat,
    more: nat,
)
    requires
        progress::fit(g, s, room),
        room <= more,
        0 <= j < g.len(),
        shape::fields_below(variant.fields@, g.len() as int),
        reach::fields_within(g, variant.fields@),
    ensures
        yields(g, s, walk::variant_format(g, s, variant, j, room)),
        walk::variant_format(g, s, variant, j, more)
            == walk::variant_format(g, s, variant, j, room),
    decreases room, g.len() + 4, 1int, 0int,
{
    progress::lemma_fit_orderly(g, s, room);
    if variant.fields@.len() == 0 {
    } else if walk::has_names(variant) {
        lemma_struct_variant(g, s, variant, room, more);
    } else if variant.fields@.len() == 1 {
        lemma_newtype_variant(g, s, variant.fields@[0], room, more);
    } else {
        lemma_tuple_variant(g, s, variant, j, room, more);
    }
}

proof fn lemma_newtype_variant(g: Seq<Shape>, s: State, field: Field, room: nat, more: nat)
    requires
        progress::fit(g, s, room),
        room <= more,
        field.shape < g.len(),
        reach::field_within(g, field),
    ensures
        yields(g, s, walk::newtype_variant(g, s, field, room)),
        walk::newtype_variant(g, s, field, more) == walk::newtype_variant(g, s, field, room),
    decreases room, g.len() + 3, 0int, 0int,
{
    progress::lemma_fit_orderly(g, s, room);
    let i = field.shape as int;
    if let Ok(action) = namespace::namespace_action(field.attributes@) {
        let entered = model::enter(s, action);
        progress::lemma_enter(g, s, action, room);
        progress::lemma_fit_orderly(g, entered, room);
        progress::lemma_payload_format(g, entered, i);
        let (s1, formatted) = walk::payload_format(g, entered, i);
        progress::lemma_leave(g, s, action, s1);
        if let Step::Done(Some(format)) = formatted {
            progress::lemma_fit_after(g, entered, s1, room);
            lemma_nested(g, s1, i, room, more);
            if let Step::Done(s2) = walk::nested(g, s1, i, room) {
                progress::lemma_keeps_trans(g, entered, s1, s2);
                progress::lemma_leave(g, s, action, s2);
            }
        }
    }
}

proof fn lemma_struct_variant(g: Seq<Shape>, s: State, variant: Variant, room: nat, more: nat)
    requires
        progress::fit(g, s, room),
        room <= more,
        shape::fields_below(variant.fields@, g.len() as int),
        reach::fields_within(g, variant.fields@),
    ensures
        yields(g, s, walk::struct_variant(g, s, variant, room)),
        walk::struct_variant(g, s, variant, more) == walk::struct_variant(g, s, variant, room),
    decreases room, g.len() + 4, 0int, 0int,
{
    lemma_variant_fields(g, s, variant.fields@, 0, Seq::empty(), room, more);
}

pub proof fn lemma_variant_fields(
    g: Seq<Shape>,
    s: State,
    fields: Seq<Field>,
    from: int,
    known: Seq<NamedView<FormatView>>,
    room: nat,
    more: nat,
)
    requires
        progress::fit(g, s, room),
        room <= more,
        0 <= from,
        shape::fields_below(fields, g.len() as int),
        reach::fields_within(g, fields),
    ensures
        yields(g, s, walk::variant_fields(g, s, fields, from, known, room)),
        walk::variant_fields(g, s, fields, from, known, more)
            == walk::variant_fields(g, s, fields, from, known, room),
    decreases room, g.len() + 3, 0int, fields.len() - from,
{
    progress::lemma_fit_orderly(g, s, room);
    if from < fields.len() {
        if fields[from].skip {
            lemma_variant_fields(g, s, fields, from + 1, known, room, more);
        } else {
            lemma_variant_field(g, s, fields[from], room, more);
            if let Step::Done((s1, value)) = walk::variant_field(g, s, fields[from], room) {
                let now = match value {
                    Some(value) => known.push(model::named_field(fields[from], value)),
                    None => known,
                };
                progress::lemma_fit_after(g, s, s1, room);
                lemma_variant_fields(g, s1, fields, from + 1, now, room, more);
                if let Step::Done((t, _)) = walk::variant_fields(
                    g,
                    s1,
                    fields,
                    from + 1,
                    now,
                    room,
                ) {
                    progress::lemma_keeps_trans(g, s, s1, t);
                }
            }
        }
    }
}

pub proof fn lemma_variant_field(g: Seq<Shape>, s: State, field: Field, room: nat, more: nat)
    requires
        progress::fit(g, s, room),
        room <= more,
        field.shape < g.len(),
        reach::field_within(g, field),
    ensures
        yields(g, s, walk::variant_field(g, s, field, room)),
        walk::variant_field(g, s, field, more) == walk::variant_field(g, s, field, room),
    decreases room, g.len() + 2, 0int, 0int,
{
    progress::lemma_fit_orderly(g, s, room);
    assert(shape::shape_wf(g, field.shape as int));
    if let Ok(action) = namespace::namespace_action(field.attributes@) {
        if let Some(t) = walk::option_of(g, field) {
            lemma_variant_option(g, s, action, t, room, more);
        } else {
            lemma_field_value(g, s, field, action, room, more);
        }
    }
}

proof fn lemma_variant_option(
    g: Seq<Shape>,
    s: State,
    action: ActionView,
    t: int,
    room: nat,
    more: nat,
)
    requires
        progress::fit(g, s, room),
        room <= more,
        0 <= t < g.len(),
        reach::spaces(g).contains(reach::action_space(action)),
    ensures
        yields(g, s, walk::variant_option(g, model::enter(s, action), t, room)),
        walk::variant_option(g, model::enter(s, action), t, more)
            == walk::variant_option(g, model::enter(s, action), t, room),
    decreases room, g.len() + 1, 0int, 0int,
{
    let entered = model::enter(s, action);
    progress::lemma_fit_orderly(g, s, room);
    progress::lemma_enter(g, s, action, room);
    progress::lemma_fit_orderly(g, entered, room);
    progress::lemma_reference(g, entered, t, true);
    let (s1, referred) = walk::reference(g, entered, t, true);
    if let Step::Done(format) = referred {
        progress::lemma_fit_after(g, entered, s1, room);
        lemma_nested(g, s1, t, room, more);
        if let Step::Done(s2) = walk::nested(g, s1, t, room) {
            progress::lemma_keeps_trans(g, entered, s1, s2);
            progress::lemma_leave(g, s, action, s2);
        }
    }
}

proof fn lemma_tuple_variant(
    g: Seq<Shape>,
    s: State,
    variant: Variant,
    j: int,
    room: nat,
    more: nat,
)
    requires
        progress::fit(g, s, room),
        room <= more,
        0 <= j < g.len(),
        shape::fields_below(variant.fields@, g.len() as int),
    ensures
        yields(g, s, walk::tuple_variant(g, s, variant, j, room)),
        walk::tuple_variant(g, s, variant, j, more) == walk::tuple_variant(g, s, variant, j, room),
    decreases room, g.len() + 4, 0int, 0int,
{
    lemma_variant_items(g, s, variant.fields@, 0, Seq::empty(), j, room, more);
}

pub proof fn lemma_variant_items(
    g: Seq<Shape>,
    s: State,
    fields: Seq<Field>,
    from: int,
    known: Seq<FormatView>,
    j: int,
    room: nat,
    more: nat,
)
    requires
        progress::fit(g, s, room),
        room <= more,
        0 <= from,
        0 <= j < g.len(),
        shape::fields_below(fields, g.len() as int),
    ensures
        yields(g, s, walk::variant_items(g, s, fields, from, known, j, room)),
        walk::variant_items(g, s, fields, from, known, j, more)
            == walk::variant_items(g, s, fields, from, known, j, room),
    decreases room, g.len() + 3, 0int, fields.len() - from,
{
    progress::lemma_fit_orderly(g, s, room);
    if from < fields.len() {
        if fields[from].skip {
            lemma_variant_items(g, s, fields, from + 1, known, j, room, more);
        } else {
            lemma_variant_item(g, s, fields[from], j, room, more);
            if let Step::Done((s1, value)) = walk::variant_item(g, s, fields[from], j, room) {
                let now = match value {
                    Some(value) => known.push(value),
                    None => known,
                };
                progress::lemma_fit_after(g, s, s1, room);
                lemma_variant_items(g, s1, fields, from + 1, now, j, room, more);
                if let Step::Done((t, _)) = walk::variant_items(
                    g,
                    s1,
                    fields,
                    from + 1,
                    now,
                    j,
                    room,
                ) {
                    progress::lemma_keeps_trans(g, s, s1, t);
                }
            }
        }
    }
}

pub proof fn lemma_variant_item(g: Seq<Shape>, s: State, field: Field, j: int, room: nat, more: nat)
    requires
        progress::fit(g, s, room),
        room <= more,
        0 <= j < g.len(),
        field.shape < g.len(),
    ensures
        yields(g, s, walk::variant_item(g, s, field, j, room)),
        walk::variant_item(g, s, field, j, more) == walk::variant_item(g, s, field, j, room),
    decreases room, g.len() + 2, 0int, 0int,
{
    progress::lemma_fit_orderly(g, s, room);
    let i = field.shape as int;
    if let Ok(action) = namespace::namespace_action(g[j].attributes@) {
        let entered = model::enter(s, action);
        reach::lemma_shape_space(g, j);
        progress::lemma_enter(g, s, action, room);
        progress::lemma_fit_orderly(g, entered, room);
        progress::lemma_field_format(g, entered, i);
        let (s1, formatted) = walk::field_format(g, entered, i);
        progress::lemma_fit_after(g, entered, s1, room);
        lemma_nested(g, s1, i, room, more);
        if let Step::Done(s2) = walk::nested(g, s1, i, room) {
            progress::lemma_keeps_trans(g, entered, s1, s2);
            progress::lemma_leave(g, s, action, s2);
        }
    }
}

/// Between two walks nothing is being built and no context is in force.
pub open spec fn at_rest(s: State) -> bool {
    &&& progress::orderly(s)
    &&& s.current.len() == 0
    &&& s.namespace_context_stack.len() == 0
}

/// There is always room for all the names that the table can give.
pub proof fn lemma_fit_at_rest(g: Seq<Shape>, s: State)
    requires
        shape::shapes_wf(g),
        at_rest(s),
    ensures
        progress::fit(g, s, reach::candidates(g).len()),
{
    reveal(progress::fit);
    reach::lemma_candidates_finite(g);
    vstd::set_lib::lemma_len_subset(progress::unclaimed(g, s), reach::candidates(g));
}

/// A walk from a state at rest has room enough.
pub proof fn lemma_reflected(g: Seq<Shape>, s: State, i: int)
    requires
        shape::shapes_wf(g),
        at_rest(s),
        0 <= i < g.len(),
    ensures
        progress::goes(g, s, walk::reflected(g, s, i)),
        walk::reflected(g, s, i) matches Step::Done(t) ==> at_rest(t),
{
    let room = reach::candidates(g).len();
    lemma_fit_at_rest(g, s);
    lemma_reflect(g, s, i, room, room);
    reveal(progress::keeps_beside);
}

/// The room that a walk is given does not matter, as long as there is enough: it comes out as
/// with room for all the names that the table can give.
pub proof fn law_room_does_not_matter(g: Seq<Shape>, s: State, i: int, room: nat)
    requires
        progress::fit(g, s, room),
        0 <= i < g.len(),
    ensures
        walk::reflect(g, s, i, room) == walk::reflected(g, s, i),
{
    let all = reach::candidates(g).len();
    if room <= all {
        lemma_reflect(g, s, i, room, all);
    } else {
        assert(progress::fit(g, s, all)) by {
            reveal(progress::fit);
            reach::lemma_candidates_finite(g);
            vstd::set_lib::lemma_len_subset(progress::unclaimed(g, s), reach::candidates(g));
        }
        lemma_reflect(g, s, i, all, room);
    }
}

/// Naming a shape again, once its name has been met, gives the same name.
proof fn lemma_walk_name_again(g: Seq<Shape>, s: State, again: State, j: int)
    requires
        progress::orderly(s),
        progress::orderly(again),
        model::walk_name(g, s, j).1 is Done,
        again.name_mappings == s.name_mappings,
        again.namespace_context_stack == s.namespace_context_stack,
        again.type_namespace_sources == model::walk_name(g, s, j).0.type_namespace_sources,
    ensures
        model::walk_name(g, again, j).1 == model::walk_name(g, s, j).1,
{
    if model::recorded_rename(g, s, j) is None {
        if let Ok(own) = naming::own_name(g, j) {
            progress::lemma_meet_name(s, own, true);
            progress::lemma_meet_name(again, own, true);
            if let Some(context) = model::context(s) {
                let name = NameView { namespace: context.namespace, name: own.name };
                progress::lemma_meet_name(s, name, context.explicit);
                progress::lemma_meet_name(again, name, context.explicit);
            }
        }
    }
}

/// The type that is reflected as a container owns the name that it is given.
#[verifier::spinoff_prover]
pub proof fn lemma_reflect_owns(g: Seq<Shape>, s: State, j: int, room: nat)
    requires
        progress::fit(g, s, room),
        0 <= j < g.len(),
        shape::is_container(g[j]),
        !(g[j].def is Option),
        naming::inner_of(g, j) is None,
    ensures
        match (walk::reflect(g, s, j, room), model::walk_name(g, s, j).1) {
            (Step::Done(t), Step::Done(name)) => t.processed.contains_key(name)
                && t.processed[name].id == g[j].id,
            _ => true,
        },
{
    progress::lemma_fit_orderly(g, s, room);
    let (s1, supported) = model::meet_params(s, g[j]);
    progress::lemma_meet_params(g, s, g[j]);
    progress::lemma_fit_after(g, s, s1, room);
    progress::lemma_fit_orderly(g, s1, room);
    assert(model::walk_name(g, s1, j).1 == model::walk_name(g, s, j).1);
    progress::lemma_open(g, s1, j, room);
    reach::lemma_fields_within(g, j);
    assert(shape::shape_wf(g, j));
    progress::lemma_walk_name(g, s1, j);
    assert(naming::generated(g, j) == j);
    if let Step::Done((s2, Some(name))) = walk::open_container(g, s1, j) {
        let less = (room - 1) as nat;
        assert(s2.processed[name].id == g[j].id);
        match g[j].ty {
            Type::User(UserType::Struct(st)) => {
                lemma_struct_body(g, s2, name, st.kind, st.fields@, j, less, less);
                if let Step::Done(u) = walk::struct_body(
                    g,
                    s2,
                    name,
                    st.kind,
                    st.fields@,
                    j,
                    less,
                ) {
                    assert(progress::stay_taken(s2, u)) by {
                        reveal(progress::keeps_beside);
                    }
                    assert(u.processed.contains_key(name) && u.processed[name].id == g[j].id);
                }
            },
            Type::User(UserType::Enum(et)) => {
                let apart = State { current: Seq::empty(), ..s2 };
                progress::lemma_aside(g, s2, less);
                lemma_enum_variants(g, apart, et.variants@, 0, 0, Map::empty(), j, less, less);
                let step = walk::enum_variants(
                    g,
                    apart,
                    et.variants@,
                    0,
                    0,
                    Map::empty(),
                    j,
                    less,
                );
                if let Step::Done((u, variants)) = step {
                    progress::lemma_keeps_orderly(g, apart, u);
                    assert(apart.processed.contains_key(name));
                    assert(u.processed.contains_key(name) && u.processed[name].id == g[j].id);
                }
            },
            _ => {},
        }
    }
}

/// The kind of container that a struct or an enum becomes, with its documentation.
pub open spec fn is_container_of(shape: Shape, container: ContainerView) -> bool {
    let doc = crate::format::lines_view(shape.doc@);
    match shape.ty {
        Type::User(UserType::Struct(st)) => match st.kind {
            StructKind::Unit => container == ContainerView::UnitStruct(doc),
            StructKind::TupleStruct => if st.fields@.len() == 1 {
                container matches ContainerView::NewTypeStruct(_, d) && d == doc
            } else {
                container matches ContainerView::TupleStruct(_, d) && d == doc
            },
            StructKind::Struct => match container {
                ContainerView::Struct(_, d) => d == doc,
                ContainerView::UnitStruct(d) => d == doc,
                _ => false,
            },
            StructKind::Tuple => false,
        },
        Type::User(UserType::Enum(_)) => container matches ContainerView::Enum(_, tagging, d)
            && tagging == naming::tagging(shape) && d == doc,
        _ => false,
    }
}

/// What a walk leaves of the container that was started last.
proof fn lemma_started_stays(g: Seq<Shape>, s: State, name: NameView, c: ContainerView, u: State)
    requires
        s.processed.contains_key(name),
        progress::keeps(g, model::start(s, name, c), u),
    ensures
        u.registry.contains_key(name),
        progress::becomes(c, u.registry[name]) || u.registry[name] == c,
        forall|n: NameView| #[trigger]
            s.registry.contains_key(n) && s.processed.contains_key(n) && n != name
                ==> u.registry.contains_key(n) && u.registry[n] == s.registry[n],
{
    reveal(progress::keeps_beside);
    let t = model::start(s, name, c);
    assert(t.registry.contains_key(name));
    assert forall|n: NameView| #[trigger]
        s.registry.contains_key(n) && s.processed.contains_key(n) && n
            != name implies u.registry.contains_key(n) && u.registry[n] == s.registry[n] by {
        assert(t.registry.contains_key(n));
    }
}

proof fn lemma_struct_body_registers(
    g: Seq<Shape>,
    s: State,
    name: NameView,
    st: StructType,
    j: int,
    room: nat,
)
    requires
        progress::fit(g, s, room),
        0 <= j < g.len(),
        g[j].ty == Type::User(UserType::Struct(st)),
        st.kind != StructKind::Tuple,
        !shape::is_transparent(g[j]),
        s.processed.contains_key(name),
    ensures
        walk::struct_body(g, s, name, st.kind, st.fields@, j, room) matches Step::Done(t) ==> {
            &&& t.registry.contains_key(name)
            &&& is_container_of(g[j], t.registry[name])
            &&& forall|n: NameView| #[trigger]
                s.registry.contains_key(n) && s.processed.contains_key(n) && n != name
                    ==> t.registry.contains_key(n) && t.registry[n] == s.registry[n]
        },
{
    progress::lemma_fit_orderly(g, s, room);
    assert(shape::shape_wf(g, j));
    reach::lemma_fields_within(g, j);
    let doc = crate::format::lines_view(g[j].doc@);
    let fields = st.fields@;
    let container = match st.kind {
        StructKind::Unit => ContainerView::UnitStruct(doc),
        StructKind::TupleStruct => if fields.len() == 1 {
            ContainerView::NewTypeStruct(FormatView::Variable, doc)
        } else {
            ContainerView::TupleStruct(Seq::empty(), doc)
        },
        _ => ContainerView::Struct(Seq::empty(), doc),
    };
    progress::lemma_start_met(g, s, name, container, j, room);
    if let Step::Done(s1) = model::start_met(g, s, name, container, j) {
        let action = namespace::namespace_action(g[j].attributes@)->Ok_0;
        let met = model::meet_name(s, name, namespace::action_is_explicit(action))->Done_0;
        progress::lemma_meet_name(s, name, namespace::action_is_explicit(action));
        progress::lemma_fit_orderly(g, s1, room);
        match st.kind {
            StructKind::Unit => {
                lemma_started_stays(g, met, name, container, s1);
            },
            StructKind::TupleStruct => if fields.len() == 1 {
                lemma_positional_field(g, s1, fields[0], room, room);
                if let Step::Done(s2) = walk::positional_field(g, s1, fields[0], room) {
                    lemma_started_stays(g, met, name, container, s2);
                }
            } else {
                lemma_positional_fields(g, s1, fields, 0, room, room);
                if let Step::Done(s2) = walk::positional_fields(g, s1, fields, 0, room) {
                    lemma_started_stays(g, met, name, container, s2);
                }
            },
            _ => {
                lemma_struct_fields(g, s1, fields, 0, room, room);
                if let Step::Done(s2) = walk::struct_fields(g, s1, fields, 0, room) {
                    progress::lemma_keeps_orderly(g, s1, s2);
                    progress::lemma_settle_struct(g, s2);
                    let s3 = model::settle_struct(s2);
                    progress::lemma_keeps_trans(g, s1, s2, s3);
                    lemma_started_stays(g, met, name, container, s3);
                }
            },
        }
    }
}

/// A struct or an enum that is reflected under a name that nobody owned is registered under that
/// name, as the container that a type of its kind becomes.
pub proof fn law_container_is_registered(
    g: Seq<Shape>,
    s: State,
    j: int,
    name: NameView,
    room: nat,
)
    requires
        progress::fit(g, s, room),
        0 <= j < g.len(),
        shape::is_container(g[j]),
        !(g[j].def is Option),
        !shape::is_transparent(g[j]),
        model::walk_name(g, s, j).1 == Step::Done(name),
        !s.processed.contains_key(name),
    ensures
        walk::reflect(g, s, j, room) matches Step::Done(t) ==> t.registry.contains_key(name)
            && is_container_of(g[j], t.registry[name]),
{
    progress::lemma_fit_orderly(g, s, room);
    let (s1, supported) = model::meet_params(s, g[j]);
    progress::lemma_meet_params(g, s, g[j]);
    progress::lemma_fit_after(g, s, s1, room);
    progress::lemma_fit_orderly(g, s1, room);
    assert(model::walk_name(g, s1, j).1 == model::walk_name(g, s, j).1);
    progress::lemma_walk_name(g, s1, j);
    progress::lemma_open(g, s1, j, room);
    if let Step::Done((s2, Some(opened))) = walk::open_container(g, s1, j) {
        assert(opened == name);
        let less = (room - 1) as nat;
        match g[j].ty {
            Type::User(UserType::Struct(st)) => {
                lemma_struct_body_registers(g, s2, name, st, j, less);
            },
            _ => {},
        }
    }
}

/// Registering what a reference reaches changes no container that has an owner, not even the ones
/// being built, and leaves these as the ones being built.
pub proof fn law_nested_changes_no_container(
    g: Seq<Shape>,
    s: State,
    i: int,
    name: NameView,
    room: nat,
)
    requires
        progress::fit(g, s, room),
        0 <= i < g.len(),
        s.registry.contains_key(name),
        s.processed.contains_key(name),
    ensures
        walk::nested(g, s, i, room) matches Step::Done(t) ==> {
            &&& t.registry.contains_key(name)
            &&& t.registry[name] == s.registry[name]
            &&& t.current == s.current
        },
{
    let apart = model::set_aside(s);
    progress::lemma_fit_orderly(g, s, room);
    progress::lemma_set_aside(g, s, room);
    lemma_register(g, apart, i, room, room);
    if let Step::Done(u) = walk::register(g, apart, i, room) {
        progress::lemma_take_up(g, s, u);
    }
}

/// A container that is referred to, and then registered under the same context, has an owner
/// under the name that the reference gives it: the reference names what is registered.
pub proof fn law_reference_names_registration(
    g: Seq<Shape>,
    s: State,
    j: int,
    name: NameView,
    room: nat,
)
    requires
        progress::fit(g, s, room),
        0 <= j < g.len(),
        shape::is_container(g[j]),
        !(g[j].def is Option),
        naming::inner_of(g, j) is None,
        !shape::is_transparent(g[j]),
        walk::reference(g, s, j, true).1 == Step::Done(FormatView::TypeName(name)),
    ensures
        walk::nested(g, walk::reference(g, s, j, true).0, j, room) matches Step::Done(t)
            ==> t.processed.contains_key(name),
{
    progress::lemma_fit_orderly(g, s, room);
    progress::lemma_reference(g, s, j, true);
    let s1 = walk::reference(g, s, j, true).0;
    progress::lemma_fit_after(g, s, s1, room);
    let apart = model::set_aside(s1);
    progress::lemma_set_aside(g, s1, room);
    progress::lemma_fit_orderly(g, apart, room);
    assert(naming::generated(g, j) == j);
    lemma_walk_name_again(g, s, apart, j);
    lemma_reflect_owns(g, apart, j, room);
    assert(walk::register(g, apart, j, room) == walk::reflect(g, apart, j, room));
}

// References to types of any structure

/// A shape of which registering reaches what a reference names: its kind and its meaning agree,
/// a reference to it names no type that is not a container, and a container is no wrapper.
pub open spec fn is_regular(shape: Shape) -> bool {
    if shape::is_container(shape) {
        !(shape.def is Option) && !shape::is_transparent(shape)
    } else {
        match shape.ty {
            Type::User(UserType::Struct(st)) => match shape.def {
                Def::Undefined => st.fields@.len() > 0 || shape.type_identifier@ == "()"@,
                Def::Scalar => true,
                Def::Option(_) => true,
                _ => false,
            },
            Type::Pointer(PointerType::Reference(t)) => is_pointer_to(shape.def, t),
            Type::Pointer(PointerType::Raw(t)) => is_pointer_to(shape.def, t),
            Type::Sequence(sequence) => is_sequence_of(shape.def, sequence),
            _ => !(shape.def is Undefined) || shape.type_identifier@ == "()"@,
        }
    }
}

/// The meanings of a pointer to the shape at `t`.
pub open spec fn is_pointer_to(def: Def, t: usize) -> bool {
    match def {
        Def::Undefined => true,
        Def::Scalar => true,
        Def::Option(_) => true,
        Def::Pointer(Some(u)) => u == t,
        Def::Pointer(None) => true,
        _ => false,
    }
}

/// The meanings of a sequence.
pub open spec fn is_sequence_of(def: Def, sequence: SequenceType) -> bool {
    match (sequence, def) {
        (SequenceType::Slice(_), Def::Slice(_)) => true,
        (SequenceType::Array(_), Def::Array { .. }) => true,
        (_, Def::Scalar) => true,
        (_, Def::Option(_)) => true,
        _ => false,
    }
}

/// Whether what is generated for the type at `i` is regular.
pub open spec fn is_regular_at(g: Seq<Shape>, i: int) -> bool {
    is_regular(g[naming::generated(g, i)])
}

/// Whether a reference to the shape, or to what a field of it holds, is made from one to the shape
/// at `t`.
pub open spec fn holds(shape: Shape, t: int) -> bool {
    ||| match shape.def {
        Def::List(c) => c == t,
        Def::SetOf(c) => c == t,
        Def::Slice(c) => c == t,
        Def::Array { item, size } => item == t,
        Def::MapOf { key, value } => key == t || value == t,
        Def::Option(c) => c == t,
        Def::Pointer(Some(c)) => c == t,
        _ => false,
    }
    ||| match shape.ty {
        Type::Pointer(PointerType::Reference(c)) => c == t,
        Type::Pointer(PointerType::Raw(c)) => c == t,
        Type::Sequence(SequenceType::Slice(c)) => c == t,
        Type::Sequence(SequenceType::Array(c)) => c == t,
        Type::User(UserType::Struct(st)) => {
            &&& st.kind == StructKind::Tuple || shape::is_transparent(shape)
            &&& exists|k: int| 0 <= k < st.fields@.len() && (#[trigger] st.fields@[k]).shape == t
        },
        _ => false,
    }
    ||| is_structural(shape) && (shape.inner matches Some(c) && c == t)
}

/// An option or an anonymous tuple.
pub open spec fn is_structural(shape: Shape) -> bool {
    shape.def is Option || (shape.ty matches Type::User(UserType::Struct(st)) && st.kind
        == StructKind::Tuple)
}

/// A table of which every shape is regular, but for wrappers, which are generated as others, and
/// for types that no format describes, which nothing but fields of structs and variants hold.
pub open spec fn all_regular(g: Seq<Shape>) -> bool {
    &&& forall|i: int|
        0 <= i < g.len() && naming::inner_of(g, i) is None && !model::is_opaque(g[i])
            ==> is_regular(#[trigger] g[i])
    &&& forall|i: int, t: int|
        0 <= i < g.len() && 0 <= t < g.len() && #[trigger] holds(g[i], t) ==> is_regular_at(g, t)
}

/// A type that a format describes, and an option or an anonymous tuple, is regular.
proof fn lemma_regular_at(g: Seq<Shape>, i: int)
    requires
        all_regular(g),
        0 <= i < g.len(),
        !model::is_opaque(g[naming::generated(g, i)]) || is_structural(g[i]),
    ensures
        is_regular_at(g, i),
{
    naming::lemma_generated(g, i);
    let j = naming::generated(g, i);
    if model::is_opaque(g[j]) {
        if let Some(c) = naming::inner_of(g, i) {
            assert(holds(g[i], c));
        } else {
            assert(j == i);
        }
    } else {
        assert(is_regular(g[j]));
    }
}

/// A state in which every type of the table that owns a name in the root, other than its
/// identifier, owns it as its own name.
pub open spec fn well_named(g: Seq<Shape>, t: State) -> bool {
    forall|j: int, r: NameView|
        #![trigger g[j], t.processed.contains_key(r)]
        0 <= j < g.len() && naming::inner_of(g, j) is None && t.processed.contains_key(r)
            && r.namespace is Root && r.name != g[j].type_identifier@ && t.processed[r].id
            == g[j].id ==> progress::goes_by(g, j, r)
}

/// Types of one identity have one name of their own, and one namespace that they set, in both
/// tables.
pub open spec fn tell_alike(g: Seq<Shape>, h: Seq<Shape>) -> bool {
    forall|i: int, k: int|
        #![trigger g[i], h[k]]
        0 <= i < g.len() && 0 <= k < h.len() && naming::inner_of(g, i) is None
            && naming::inner_of(h, k) is None && g[i].id == h[k].id ==> {
            &&& naming::own_name(g, i) == naming::own_name(h, k)
            &&& namespace::namespace_action(g[i].attributes@) == namespace::namespace_action(
                h[k].attributes@,
            )
        }
}

/// A walk over one table leaves a state well named for another one that tells alike.
pub proof fn lemma_stays_well_named(g: Seq<Shape>, h: Seq<Shape>, s: State, t: State)
    requires
        progress::keeps(g, s, t),
        tell_alike(g, h),
        well_named(h, s),
    ensures
        well_named(h, t),
{
    progress::lemma_keeps_orderly(g, s, t);
    assert forall|j: int, r: NameView|
        #![trigger h[j], t.processed.contains_key(r)]
        0 <= j < h.len() && naming::inner_of(h, j) is None && t.processed.contains_key(r)
            && r.namespace is Root && r.name != h[j].type_identifier@ && t.processed[r].id
            == h[j].id implies progress::goes_by(h, j, r) by {
        if s.processed.contains_key(r) {
            assert(t.processed[r] == s.processed[r]);
        } else {
            let k = choose|k: int|
                0 <= k < g.len() && naming::inner_of(g, k) is None && (#[trigger] g[k]).id
                    == t.processed[r].id && progress::goes_by(g, k, r);
            assert(g[k].id == h[j].id);
        }
    }
}

/// A state from which a well named one is reached is well named.
pub proof fn lemma_well_named_before(g: Seq<Shape>, s: State, t: State)
    requires
        well_named(g, t),
        progress::stay_taken(s, t),
    ensures
        well_named(g, s),
{
    assert forall|j: int, r: NameView|
        #![trigger g[j], s.processed.contains_key(r)]
        0 <= j < g.len() && naming::inner_of(g, j) is None && s.processed.contains_key(r)
            && r.namespace is Root && r.name != g[j].type_identifier@ && s.processed[r].id
            == g[j].id implies progress::goes_by(g, j, r) by {
        assert(t.processed.contains_key(r));
    }
}

/// Every name that the format refers to has an owner.
pub open spec fn has_owners(format: FormatView, s: State) -> bool {
    forall|m: NameView| #[trigger] registry::refers(format, m) ==> s.processed.contains_key(m)
}

pub open spec fn have_owners(formats: Seq<FormatView>, s: State) -> bool {
    forall|k: int| 0 <= k < formats.len() ==> has_owners(#[trigger] formats[k], s)
}

proof fn lemma_owners_stay(g: Seq<Shape>, format: FormatView, s: State, t: State)
    requires
        has_owners(format, s),
        progress::stay_taken(s, t),
    ensures
        has_owners(format, t),
{
    assert forall|m: NameView| #[trigger] registry::refers(format, m) implies
        t.processed.contains_key(m) by {
        assert(s.processed.contains_key(m));
    }
}

/// What stands for a reference goes on having owners.
proof fn lemma_standing_stays(g: Seq<Shape>, i: int, format: FormatView, s: State, t: State)
    requires
        has_owners(walk::standing(g, s, i, format), s),
        progress::stay_taken(s, t),
    ensures
        has_owners(walk::standing(g, t, i, format), t),
    decreases i,
{
    let j = naming::generated(g, i);
    let shape = g[j];
    let before = walk::standing(g, s, i, format);
    let after = walk::standing(g, t, i, format);
    if shape::is_container(shape) {
        if let FormatView::TypeName(name) = format {
            let stood = model::standing_name(g, s, j, name);
            assert(registry::refers(before, stood));
            assert(s.processed.contains_key(stood));
            assert(t.processed.contains_key(stood));
            assert(s.processed.contains_key(name) ==> t.processed.contains_key(name));
            assert forall|m: NameView| #[trigger] registry::refers(after, m) implies
                t.processed.contains_key(m) by {
                assert(m == model::standing_name(g, t, j, name));
            }
        } else {
            lemma_owners_stay(g, format, s, t);
        }
    } else if let Some(fields) = walk::tuple_fields_of(shape) {
        if let FormatView::Tuple(formats) = format {
            let stood = walk::standing_all(g, t, fields, formats, i);
            let parts = walk::standing_all(g, s, fields, formats, i);
            assert forall|k: int| 0 <= k < stood.len() implies has_owners(
                #[trigger] stood[k],
                t,
            ) by {
                assert forall|m: NameView| #[trigger] registry::refers(parts[k], m) implies
                    registry::refers(before, m) by {
                    lemma_tuple_refers(parts, k, m);
                }
                lemma_part_owners(before, parts[k], s);
                if k < fields.len() && fields[k].shape < i {
                    lemma_standing_stays(g, fields[k].shape as int, formats[k], s, t);
                } else {
                    lemma_owners_stay(g, formats[k], s, t);
                }
            }
            lemma_tuple_owners(stood, t);
        } else {
            lemma_owners_stay(g, format, s, t);
        }
    } else if let Some((wrap, c)) = walk::single(shape) {
        if c < i {
            let inner = match (wrap, format) {
                (Wrap::Plain, _) => Some(format),
                (Wrap::Option, FormatView::Option(inner)) => Some(*inner),
                (Wrap::SeqOf, FormatView::SeqOf(inner)) => Some(*inner),
                (Wrap::SetOf, FormatView::SetOf(inner)) => Some(*inner),
                (Wrap::TupleArray(_), FormatView::TupleArray { content, size }) => Some(*content),
                _ => None,
            };
            if let Some(inner) = inner {
                let around = match (wrap, format) {
                    (Wrap::TupleArray(_), FormatView::TupleArray { content, size }) => {
                        Wrap::TupleArray(size)
                    },
                    _ => wrap,
                };
                let stood = walk::standing(g, t, c as int, inner);
                assert(before == walk::wrapped(around, walk::standing(g, s, c as int, inner)));
                assert(after == walk::wrapped(around, stood));
                lemma_part_owners(before, walk::standing(g, s, c as int, inner), s);
                lemma_standing_stays(g, c as int, inner, s, t);
                lemma_wrapped_owners(around, stood, t);
            } else {
                lemma_owners_stay(g, format, s, t);
            }
        } else {
            lemma_owners_stay(g, format, s, t);
        }
    } else {
        match (shape.def, format) {
            (Def::MapOf { key, value }, FormatView::MapOf { key: k, value: v }) => if key < i
                && value < i {
                lemma_part_owners(before, walk::standing(g, s, key as int, *k), s);
                lemma_part_owners(before, walk::standing(g, s, value as int, *v), s);
                lemma_standing_stays(g, key as int, *k, s, t);
                lemma_standing_stays(g, value as int, *v, s, t);
                lemma_map_format_owners(
                    walk::standing(g, t, key as int, *k),
                    walk::standing(g, t, value as int, *v),
                    t,
                );
            } else {
                lemma_owners_stay(g, format, s, t);
            },
            _ => lemma_owners_stay(g, format, s, t),
        }
    }
}

/// A tuple refers to what its elements refer to.
proof fn lemma_tuple_refers(formats: Seq<FormatView>, k: int, m: NameView)
    requires
        0 <= k < formats.len(),
        registry::refers(formats[k], m),
    ensures
        registry::refers(FormatView::Tuple(formats), m),
{
    let format = FormatView::Tuple(formats);
    if let FormatView::Tuple(parts) = format {
        assert forall|at: int, name: NameView|
            0 <= at < parts.len() && #[trigger] registry::refers(parts[at], name) implies
            registry::refers(format, name) by {}
        assert(registry::refers(parts[k], m));
    }
}

/// A part of a format has owners if the format has.
proof fn lemma_part_owners(format: FormatView, part: FormatView, s: State)
    requires
        has_owners(format, s),
        forall|m: NameView| #[trigger]
            registry::refers(part, m) ==> registry::refers(format, m),
    ensures
        has_owners(part, s),
{
}

/// What a reference puts around another one refers to the same names.
proof fn lemma_wrapped_owners(wrap: Wrap, format: FormatView, s: State)
    requires
        has_owners(format, s),
    ensures
        has_owners(walk::wrapped(wrap, format), s),
{
    let outer = walk::wrapped(wrap, format);
    assert forall|m: NameView| #[trigger] registry::refers(outer, m) implies
        s.processed.contains_key(m) by {
        assert(registry::refers(format, m));
    }
}

/// A state `u` that comes after a reference was made from `s`, under the same context.
pub open spec fn comes_after(s: State, u: State) -> bool {
    &&& progress::orderly(s)
    &&& u.namespace_context_stack == s.namespace_context_stack
    &&& progress::stay_taken(s, u)
}

/// The name that a container was given stands for one that has an owner once the container is
/// reflected.
proof fn lemma_name_owned(g: Seq<Shape>, s: State, u: State, j: int, name: NameView, room: nat)
    requires
        progress::fit(g, u, room),
        0 <= j < g.len(),
        naming::inner_of(g, j) is None,
        shape::is_container(g[j]),
        is_regular(g[j]),
        comes_after(s, u),
        model::walk_name(g, s, j).1 == Step::Done(name),
    ensures
        walk::reflect(g, u, j, room) matches Step::Done(t) ==> (well_named(g, t)
            ==> t.processed.contains_key(model::standing_name(g, t, j, name))),
{
    progress::lemma_fit_orderly(g, u, room);
    lemma_reflect(g, u, j, room, room);
    if let Step::Done(t) = walk::reflect(g, u, j, room) {
        progress::lemma_keeps_orderly(g, u, t);
        assert(naming::generated(g, j) == j);
        let key = names::root_name(g[j].type_identifier@);
        if let Some(renamed) = model::recorded_rename(g, s, j) {
            assert(progress::is_kept(s, key, s.name_mappings[key]));
            assert(u.processed.contains_key(name));
        } else if let Some(renamed) = model::recorded_rename(g, u, j) {
            if well_named(g, t) {
                assert(progress::is_kept(u, key, u.name_mappings[key]));
                assert(t.processed.contains_key(renamed));
                assert(g[j] == g[j]);
                assert(name.name == naming::own_name(g, j)->Ok_0.name);
                assert(renamed == names::root_name(name.name));
            }
        } else {
            lemma_reflect_names(g, u, j, room);
            lemma_reflect_owns(g, u, j, room);
            assert(model::walk_name(g, u, j).1 == Step::Done(name));
        }
    }
}

/// A container that is reflected has been named.
pub proof fn lemma_reflect_names(g: Seq<Shape>, s: State, j: int, room: nat)
    requires
        0 <= j < g.len(),
        shape::is_container(g[j]),
        !(g[j].def is Option),
        naming::inner_of(g, j) is None,
        walk::reflect(g, s, j, room) is Done,
    ensures
        model::walk_name(g, s, j).1 is Done,
{
    assert(naming::generated(g, j) == j);
    let s1 = model::meet_params(s, g[j]).0;
    assert(model::walk_name(g, s1, j).1 == model::walk_name(g, s, j).1);
}

proof fn lemma_registered_owners(
    g: Seq<Shape>,
    s: State,
    u: State,
    i: int,
    format: FormatView,
    room: nat,
)
    requires
        progress::fit(g, u, room),
        all_regular(g),
        0 <= i < g.len(),
        is_regular_at(g, i),
        comes_after(s, u),
        walk::reference(g, s, i, true).1 == Step::Done(format),
    ensures
        walk::register(g, u, i, room) matches Step::Done(t) ==> (well_named(g, t)
            ==> has_owners(walk::standing(g, t, i, format), t)),
    decreases i, 1int, 0int,
{
    progress::lemma_fit_orderly(g, u, room);
    naming::lemma_generated(g, i);
    let j = naming::generated(g, i);
    let shape = g[j];
    assert(is_regular(shape));
    assert(shape::shape_wf(g, j));
    if shape::is_container(shape) {
        assert(walk::register(g, u, i, room) == walk::reflect(g, u, j, room));
        lemma_name_owned(g, s, u, j, format->TypeName_0, room);
        if let Step::Done(t) = walk::reflect(g, u, j, room) {
            let stood = model::standing_name(g, t, j, format->TypeName_0);
            assert(forall|m: NameView| #[trigger]
                registry::refers(FormatView::TypeName(stood), m) ==> m == stood);
        }
    } else if let Some(fields) = walk::tuple_fields_of(shape) {
        let formats = walk::reference_all(g, s, fields, 0, i, true).1->Done_0;
        assert forall|k: int| 0 <= k < fields.len() implies is_regular_at(
            g,
            (#[trigger] fields[k]).shape as int,
        ) by {
            assert(holds(shape, fields[k].shape as int));
        }
        lemma_registered_all_owners(g, s, u, fields, 0, i, j, formats, room);
        if let Step::Done(t) = walk::register_all(g, u, fields, 0, j, room) {
            assert(format == FormatView::Tuple(formats));
            if well_named(g, t) {
                lemma_standing_tuple(g, t, fields, formats, i);
            }
        }
    } else if let Some((wrap, t)) = walk::single(shape) {
        let inner = walk::reference(g, s, t as int, true).1->Done_0;
        assert(holds(shape, t as int));
        lemma_registered_owners(g, s, u, t as int, inner, room);
        assert(walk::register_below(g, u, t as int, j, room) == walk::register(
            g,
            u,
            t as int,
            room,
        ));
        if let Step::Done(v) = walk::register(g, u, t as int, room) {
            if well_named(g, v) {
                lemma_wrapped_owners(wrap, walk::standing(g, v, t as int, inner), v);
            }
        }
    } else if let Def::MapOf { key, value } = shape.def {
        assert(holds(shape, key as int) && holds(shape, value as int));
        let k = walk::reference(g, s, key as int, true).1->Done_0;
        progress::lemma_reference(g, s, key as int, true);
        let s1 = walk::reference(g, s, key as int, true).0;
        progress::lemma_reference(g, s1, value as int, true);
        let v = walk::reference(g, s1, value as int, true).1->Done_0;
        lemma_registered_owners(g, s, u, key as int, k, room);
        lemma_register_below(g, u, key as int, j, room, room);
        if let Step::Done(u1) = walk::register_below(g, u, key as int, j, room) {
            progress::lemma_fit_after(g, u, u1, room);
            progress::lemma_keeps_orderly(g, u, u1);
            assert(progress::stay_taken(s1, u1)) by {
                assert forall|n: NameView| #[trigger] s1.processed.contains_key(n) implies
                    u1.processed.contains_key(n) && u1.processed[n] == s1.processed[n] by {
                    assert(s.processed.contains_key(n));
                    assert(u.processed.contains_key(n));
                }
            }
            lemma_registered_owners(g, s1, u1, value as int, v, room);
            lemma_register_below(g, u1, value as int, j, room, room);
            if let Step::Done(u2) = walk::register_below(g, u1, value as int, j, room) {
                progress::lemma_keeps_orderly(g, u1, u2);
                if well_named(g, u2) {
                    lemma_well_named_before(g, u1, u2);
                    lemma_standing_stays(g, key as int, k, u1, u2);
                    lemma_map_format_owners(
                        walk::standing(g, u2, key as int, k),
                        walk::standing(g, u2, value as int, v),
                        u2,
                    );
                }
            }
        }
    } else {
        assert(forall|m: NameView| !#[trigger] registry::refers(format, m));
    }
}

/// A tuple of references refers to the names of its elements.
proof fn lemma_tuple_owners(formats: Seq<FormatView>, t: State)
    requires
        have_owners(formats, t),
    ensures
        has_owners(FormatView::Tuple(formats), t),
{
    let format = FormatView::Tuple(formats);
    assert forall|m: NameView| #[trigger] registry::refers(format, m) implies
        t.processed.contains_key(m) by {
        let k = choose|k: int| 0 <= k < formats.len() && registry::refers(#[trigger] formats[k], m);
        assert(has_owners(formats[k], t));
    }
}

/// A map of references refers to the names of its keys and its values.
proof fn lemma_map_format_owners(k: FormatView, v: FormatView, t: State)
    requires
        has_owners(k, t),
        has_owners(v, t),
    ensures
        has_owners(FormatView::MapOf { key: Box::new(k), value: Box::new(v) }, t),
{
    let format = FormatView::MapOf { key: Box::new(k), value: Box::new(v) };
    assert forall|m: NameView| #[trigger] registry::refers(format, m) implies
        t.processed.contains_key(m) by {
        assert(registry::refers(k, m) || registry::refers(v, m));
    }
}

/// The references `formats` to the shapes of `fields` from `from` on have owners, under the names
/// under which what they name stands.
pub open spec fn stand_with_owners(
    g: Seq<Shape>,
    t: State,
    fields: Seq<Field>,
    from: int,
    formats: Seq<FormatView>,
) -> bool {
    &&& formats.len() == fields.len() - from
    &&& forall|k: int|
        0 <= k < formats.len() ==> has_owners(
            walk::standing(g, t, fields[from + k].shape as int, #[trigger] formats[k]),
            t,
        )
}

/// The elements of a tuple that have owners make up one.
proof fn lemma_standing_tuple(
    g: Seq<Shape>,
    t: State,
    fields: Seq<Field>,
    formats: Seq<FormatView>,
    bound: int,
)
    requires
        shape::fields_below(fields, bound),
        stand_with_owners(g, t, fields, 0, formats),
    ensures
        has_owners(FormatView::Tuple(walk::standing_all(g, t, fields, formats, bound)), t),
{
    let stood = walk::standing_all(g, t, fields, formats, bound);
    assert forall|k: int| 0 <= k < stood.len() implies has_owners(#[trigger] stood[k], t) by {
        assert(fields[0 + k] == fields[k]);
        assert(has_owners(walk::standing(g, t, fields[0 + k].shape as int, formats[k]), t));
    }
    lemma_tuple_owners(stood, t);
}

proof fn lemma_registered_all_owners(
    g: Seq<Shape>,
    s: State,
    u: State,
    fields: Seq<Field>,
    from: int,
    above: int,
    bound: int,
    formats: Seq<FormatView>,
    room: nat,
)
    requires
        progress::fit(g, u, room),
        all_regular(g),
        comes_after(s, u),
        0 <= from <= fields.len(),
        0 <= bound <= above < g.len(),
        shape::fields_below(fields, bound),
        forall|k: int|
            0 <= k < fields.len() ==> is_regular_at(g, (#[trigger] fields[k]).shape as int),
        walk::reference_all(g, s, fields, from, above, true).1 == Step::Done(formats),
    ensures
        walk::register_all(g, u, fields, from, bound, room) matches Step::Done(t) ==> (well_named(
            g,
            t,
        ) ==> stand_with_owners(g, t, fields, from, formats)),
    decreases above, 0int, fields.len() - from,
{
    progress::lemma_fit_orderly(g, u, room);
    if from < fields.len() {
        let i = fields[from].shape as int;
        progress::lemma_reference(g, s, i, true);
        let (s1, referred) = walk::reference(g, s, i, true);
        let first = referred->Done_0;
        let rest = walk::reference_all(g, s1, fields, from + 1, above, true).1->Done_0;
        progress::lemma_reference_all(g, s1, fields, from + 1, above, true);
        lemma_registered_owners(g, s, u, i, first, room);
        lemma_register_below(g, u, i, bound, room, room);
        if let Step::Done(u1) = walk::register_below(g, u, i, bound, room) {
            progress::lemma_fit_after(g, u, u1, room);
            progress::lemma_keeps_orderly(g, u, u1);
            assert(progress::stay_taken(s1, u1)) by {
                assert forall|n: NameView| #[trigger] s1.processed.contains_key(n) implies
                    u1.processed.contains_key(n) && u1.processed[n] == s1.processed[n] by {
                    assert(s.processed.contains_key(n));
                    assert(u.processed.contains_key(n));
                }
            }
            lemma_registered_all_owners(
                g,
                s1,
                u1,
                fields,
                from + 1,
                above,
                bound,
                rest,
                room,
            );
            lemma_register_all(g, u1, fields, from + 1, bound, room, room);
            if let Step::Done(t) = walk::register_all(g, u1, fields, from + 1, bound, room) {
                progress::lemma_keeps_orderly(g, u1, t);
                if well_named(g, t) {
                    lemma_well_named_before(g, u1, t);
                    lemma_standing_stays(g, i, first, u1, t);
                    assert forall|k: int| 0 <= k < formats.len() implies has_owners(
                        walk::standing(g, t, fields[from + k].shape as int, #[trigger] formats[k]),
                        t,
                    ) by {
                        if k > 0 {
                            assert(formats[k] == rest[k - 1]);
                            assert(fields[from + 1 + (k - 1)] == fields[from + k]);
                        } else {
                            assert(formats[0] == first);
                        }
                    }
                }
            }
        }
    }
}

/// Every container that a reference reaches, however deeply it is nested, has an owner under the
/// name that the reference gives it once it is registered under the same context: the reference
/// names what is registered. The types are to be regular and named as those that were registered
/// before, and a format is to describe the one that is referred to.
pub proof fn law_references_name_registrations(
    g: Seq<Shape>,
    s: State,
    i: int,
    format: FormatView,
    name: NameView,
    room: nat,
)
    requires
        progress::fit(g, s, room),
        0 <= i < g.len(),
        all_regular(g),
        is_regular_at(g, i),
        well_named(g, s),
        walk::reference(g, s, i, true).1 == Step::Done(format),
    ensures
        walk::settled(g, walk::reference(g, s, i, true).0, i, format, room) matches Step::Done(
            (t, stood),
        ) ==> (registry::refers(stood, name) ==> t.processed.contains_key(name)),
{
    progress::lemma_fit_orderly(g, s, room);
    progress::lemma_reference(g, s, i, true);
    let s1 = walk::reference(g, s, i, true).0;
    progress::lemma_fit_after(g, s, s1, room);
    let apart = model::set_aside(s1);
    progress::lemma_set_aside(g, s1, room);
    assert(progress::stay_taken(s, apart));
    lemma_registered_owners(g, s, apart, i, format, room);
    lemma_nested(g, s1, i, room, room);
    if let Step::Done(u) = walk::register(g, apart, i, room) {
        let t = model::take_up(s1, u);
        progress::lemma_keeps_trans(g, s, s1, t);
        lemma_stays_well_named(g, g, s, t);
        lemma_well_named_before(g, u, t);
        lemma_standing_stays(g, i, format, u, t);
    }
}

} // verus!
