//! Which types are accepted.

use vstd::prelude::*;

use crate::completion;
use crate::completion::again;
use crate::error::ErrorView;
use crate::format::{ContainerView, FormatView, NamedView, VariantView};
use crate::laws;
use crate::laws::{containers, state};
use crate::model;
use crate::model::State;
use crate::names;
use crate::names::{NameView, SpaceView};
use crate::namespace;
use crate::namespace::ActionView;
use crate::naming;
use crate::progress;
use crate::reach;
use crate::scalar;
use crate::shape;
use crate::shape::{
    Def, Field, PointerType, SequenceType, Shape, StructKind, Type, UserType, Variant,
};
use crate::step::Step;
use crate::walk;
use crate::walk::{Inside, Wrap};

verus! {

// Causes

/// Whether `field` is a field of a struct, or of a variant of an enum.
pub open spec fn has_field(shape: Shape, field: Field) -> bool {
    match shape.ty {
        Type::User(UserType::Struct(st)) => st.fields@.contains(field),
        Type::User(UserType::Enum(et)) => exists|v: int|
            0 <= v < et.variants@.len() && (#[trigger] et.variants@[v]).fields@.contains(field),
        _ => false,
    }
}

/// Whether the type at `k` is to blame for `error`: no format describes it; its uses must agree in
/// their type parameters; it is an integer without a size; or its namespace annotation, or that of
/// one of its fields, is malformed.
pub open spec fn is_cause(g: Seq<Shape>, k: int, error: ErrorView) -> bool {
    ||| error is ReflectionError && containers::lacks_format(g, k)
    ||| error == ErrorView::UnsupportedGenericType(g[k].display@) && state::must_agree(g[k])
    ||| error == ErrorView::LayoutUnsized(g[k].display@) && g[k].size is None && (g[k].ty
        matches Type::Primitive(primitive) && primitive is Integer)
    ||| namespace::namespace_action(g[k].attributes@) == Err::<ActionView, ErrorView>(error)
    ||| exists|field: Field| #[trigger]
        has_field(g[k], field) && namespace::namespace_action(field.attributes@) == Err::<
            ActionView,
            ErrorView,
        >(error)
}

/// Whether a type of the table is to blame for `error`.
#[verifier::opaque]
pub open spec fn has_cause(g: Seq<Shape>, error: ErrorView) -> bool {
    exists|k: int| 0 <= k < g.len() && #[trigger] is_cause(g, k, error)
}

/// A type that is not known how to refuse: a scalar that has no format, a primitive type of which
/// nothing is known, or an enum or a union that is a transparent wrapper.
pub open spec fn is_beyond(shape: Shape) -> bool {
    ||| shape.def is Scalar && scalar::scalar_format(shape) is Unsupported
    ||| shape.def is Undefined && (shape.ty matches Type::Primitive(primitive) && !(primitive
        is Boolean || primitive is Float || primitive is Str))
    ||| shape::is_transparent(shape) && (shape.ty matches Type::User(user) && (user is Enum || user
        is Union))
}

/// Whether a type of the table is such a one.
#[verifier::opaque]
pub open spec fn has_beyond(g: Seq<Shape>) -> bool {
    exists|k: int| 0 <= k < g.len() && is_beyond(#[trigger] g[k])
}

/// A table without namespace annotations, in which no other type goes by the name of a struct or an
/// enum.
#[verifier::opaque]
pub open spec fn is_plain(g: Seq<Shape>) -> bool {
    &&& forall|k: int|
        0 <= k < g.len() ==> namespace::namespace_action((#[trigger] g[k]).attributes@) == Ok::<
            ActionView,
            ErrorView,
        >(ActionView::Inherit)
    &&& forall|k: int, field: Field|
        0 <= k < g.len() && #[trigger] has_field(g[k], field) ==> namespace::namespace_action(
            field.attributes@,
        ) == Ok::<ActionView, ErrorView>(ActionView::Inherit)
    &&& forall|a: int, b: int|
        #![trigger g[a], g[b]]
        0 <= a < g.len() && 0 <= b < g.len() && shape::is_container(g[a]) && naming::inner_of(g, a)
            is None && naming::inner_of(g, b) is None && naming::own_name(g, a) is Ok
            && naming::own_name(g, a) == naming::own_name(g, b) ==> a == b
}

/// A state in which no context but the root is in force, and every name that is taken is one in the
/// root that no other type of the table goes by.
#[verifier::opaque]
pub open spec fn is_at_home(g: Seq<Shape>, s: State) -> bool {
    &&& forall|c: int|
        0 <= c < s.namespace_context_stack.len() ==> #[trigger] s.namespace_context_stack[c]
            == namespace::cleared_context()
    &&& forall|n: NameView| #[trigger] s.processed.contains_key(n) ==> n.namespace is Root
    &&& forall|n: NameView, k: int|
        #![trigger s.processed.contains_key(n), g[k]]
        s.processed.contains_key(n) && 0 <= k < g.len() && shape::is_container(g[k])
            && naming::inner_of(g, k) is None && naming::own_name(g, k) == Ok::<
            NameView,
            ErrorView,
        >(n) ==> s.processed[n].id == g[k].id
}

/// Whether names can be no trouble.
pub open spec fn is_calm(g: Seq<Shape>, s: State) -> bool {
    is_plain(g) && is_at_home(g, s)
}

/// An error that is about the names of types.
pub open spec fn is_about_names(error: ErrorView) -> bool {
    error is DuplicateTypeName || error is AmbiguousNamespaceInheritance
}

/// A step that does not succeed only if a type of the table is to blame, or names are.
pub open spec fn is_fair<T>(g: Seq<Shape>, s: State, step: Step<T>) -> bool {
    match step {
        Step::Fail(error) => has_cause(g, error) || is_about_names(error) && !is_calm(g, s),
        Step::Unsupported => has_beyond(g),
        _ => true,
    }
}

// What is known of a table

proof fn lemma_cause(g: Seq<Shape>, k: int, error: ErrorView)
    requires
        0 <= k < g.len(),
        is_cause(g, k, error),
    ensures
        has_cause(g, error),
{
    reveal(has_cause);
}

proof fn lemma_beyond(g: Seq<Shape>, k: int)
    requires
        0 <= k < g.len(),
        is_beyond(g[k]),
    ensures
        has_beyond(g),
{
    reveal(has_beyond);
}

proof fn lemma_annotation(g: Seq<Shape>, k: int)
    requires
        0 <= k < g.len(),
    ensures
        namespace::namespace_action(g[k].attributes@) matches Err(error) ==> has_cause(g, error),
        is_plain(g) ==> namespace::namespace_action(g[k].attributes@) == Ok::<
            ActionView,
            ErrorView,
        >(ActionView::Inherit),
{
    reveal(is_plain);
    if let Err(error) = namespace::namespace_action(g[k].attributes@) {
        lemma_cause(g, k, error);
    }
}

proof fn lemma_own_name(g: Seq<Shape>, i: int)
    requires
        shape::shapes_wf(g),
        0 <= i < g.len(),
    ensures
        naming::own_name(g, i) matches Err(error) ==> has_cause(g, error),
        is_plain(g) ==> (naming::own_name(g, i) matches Ok(own) ==> own.namespace is Root),
    decreases i,
{
    lemma_annotation(g, i);
    assert(shape::shape_wf(g, i));
    if let Some(c) = naming::inner_of(g, i) {
        lemma_own_name(g, c);
    }
}

/// What is known of a field of the table.
pub open spec fn is_listed(g: Seq<Shape>, field: Field) -> bool {
    &&& field.shape < g.len()
    &&& reach::field_within(g, field)
    &&& namespace::namespace_action(field.attributes@) matches Err(error) ==> has_cause(g, error)
    &&& is_plain(g) ==> namespace::namespace_action(field.attributes@) == Ok::<
        ActionView,
        ErrorView,
    >(ActionView::Inherit)
}

pub open spec fn all_listed(g: Seq<Shape>, fields: Seq<Field>) -> bool {
    forall|k: int| 0 <= k < fields.len() ==> is_listed(g, #[trigger] fields[k])
}

proof fn lemma_has_field(g: Seq<Shape>, k: int, field: Field)
    requires
        0 <= k < g.len(),
        has_field(g[k], field),
        field.shape < g.len(),
        reach::field_within(g, field),
    ensures
        is_listed(g, field),
{
    reveal(is_plain);
    if let Err(error) = namespace::namespace_action(field.attributes@) {
        lemma_cause(g, k, error);
    }
}

proof fn lemma_listed(g: Seq<Shape>, j: int)
    requires
        shape::shapes_wf(g),
        0 <= j < g.len(),
    ensures
        g[j].ty matches Type::User(UserType::Struct(st)) ==> all_listed(g, st.fields@),
        g[j].ty matches Type::User(UserType::Enum(et)) ==> forall|v: int|
            0 <= v < et.variants@.len() ==> all_listed(g, (#[trigger] et.variants@[v]).fields@),
{
    assert(shape::shape_wf(g, j));
    reach::lemma_fields_within(g, j);
    match g[j].ty {
        Type::User(UserType::Struct(st)) => {
            assert forall|k: int| 0 <= k < st.fields@.len() implies is_listed(
                g,
                #[trigger] st.fields@[k],
            ) by {
                assert(st.fields@.contains(st.fields@[k]));
                lemma_has_field(g, j, st.fields@[k]);
            }
        },
        Type::User(UserType::Enum(et)) => {
            assert forall|v: int| 0 <= v < et.variants@.len() implies all_listed(
                g,
                (#[trigger] et.variants@[v]).fields@,
            ) by {
                let fields = et.variants@[v].fields@;
                assert forall|k: int| 0 <= k < fields.len() implies is_listed(
                    g,
                    #[trigger] fields[k],
                ) by {
                    assert(fields.contains(fields[k]));
                    assert(has_field(g[j], fields[k]));
                    lemma_has_field(g, j, fields[k]);
                }
            }
        },
        _ => {},
    }
}

proof fn lemma_field_spaces(fields: Seq<Field>, n: int)
    requires
        0 <= n <= fields.len(),
        forall|k: int|
            0 <= k < fields.len() ==> namespace::namespace_action(
                (#[trigger] fields[k]).attributes@,
            ) == Ok::<ActionView, ErrorView>(ActionView::Inherit),
    ensures
        forall|space: SpaceView| #[trigger]
            reach::field_spaces(fields, n).contains(space) ==> space is Root,
    decreases n,
{
    if n > 0 {
        lemma_field_spaces(fields, n - 1);
    }
    assert forall|space: SpaceView| #[trigger]
        reach::field_spaces(fields, n).contains(space) implies space is Root by {
        if n > 0 {
            assert(reach::field_spaces(fields, n - 1).contains(space) || space
                == reach::attributes_space(fields[n - 1].attributes@));
        }
    }
}

proof fn lemma_variant_spaces(variants: Seq<Variant>, n: int)
    requires
        0 <= n <= variants.len(),
        forall|v: int, k: int|
            0 <= v < variants.len() && 0 <= k < variants[v].fields@.len()
                ==> namespace::namespace_action(
                (#[trigger] variants[v].fields@[k]).attributes@,
            ) == Ok::<ActionView, ErrorView>(ActionView::Inherit),
    ensures
        forall|space: SpaceView| #[trigger]
            reach::variant_spaces(variants, n).contains(space) ==> space is Root,
    decreases n,
{
    if n > 0 {
        lemma_variant_spaces(variants, n - 1);
        let fields = variants[n - 1].fields@;
        assert forall|k: int| 0 <= k < fields.len() implies namespace::namespace_action(
            (#[trigger] fields[k]).attributes@,
        ) == Ok::<ActionView, ErrorView>(ActionView::Inherit) by {
            assert(variants[n - 1].fields@[k] == fields[k]);
        }
        lemma_field_spaces(fields, fields.len() as int);
    }
    assert forall|space: SpaceView| #[trigger]
        reach::variant_spaces(variants, n).contains(space) implies space is Root by {
        if n > 0 {
            let fields = variants[n - 1].fields@;
            assert(reach::variant_spaces(variants, n - 1).contains(space) || reach::field_spaces(
                fields,
                fields.len() as int,
            ).contains(space));
        }
    }
}

proof fn lemma_root_alone(g: Seq<Shape>, n: int)
    requires
        is_plain(g),
        0 <= n <= g.len(),
    ensures
        forall|space: SpaceView| #[trigger]
            reach::spaces_of(g, n).contains(space) ==> space is Root,
    decreases n,
{
    reveal(is_plain);
    if n > 0 {
        lemma_root_alone(g, n - 1);
        match g[n - 1].ty {
            Type::User(UserType::Struct(st)) => {
                assert forall|k: int|
                    0 <= k < st.fields@.len() implies namespace::namespace_action(
                    (#[trigger] st.fields@[k]).attributes@,
                ) == Ok::<ActionView, ErrorView>(ActionView::Inherit) by {
                    assert(has_field(g[n - 1], st.fields@[k]));
                }
                lemma_field_spaces(st.fields@, st.fields@.len() as int);
            },
            Type::User(UserType::Enum(et)) => {
                assert forall|v: int, k: int|
                    0 <= v < et.variants@.len() && 0 <= k
                        < et.variants@[v].fields@.len() implies namespace::namespace_action(
                    (#[trigger] et.variants@[v].fields@[k]).attributes@,
                ) == Ok::<ActionView, ErrorView>(ActionView::Inherit) by {
                    assert(et.variants@[v].fields@.contains(et.variants@[v].fields@[k]));
                    assert(has_field(g[n - 1], et.variants@[v].fields@[k]));
                }
                lemma_variant_spaces(et.variants@, et.variants@.len() as int);
            },
            _ => {},
        }
    }
    assert forall|space: SpaceView| #[trigger]
        reach::spaces_of(g, n).contains(space) implies space is Root by {
        if n > 0 {
            assert(reach::spaces_of(g, n - 1).contains(space) || space == reach::attributes_space(
                g[n - 1].attributes@,
            ) || reach::inner_spaces(g[n - 1].ty).contains(space));
        }
    }
}

// What is known of a state

/// A state from which a walk can go on, in which no enum is being built.
pub open spec fn is_ready(g: Seq<Shape>, s: State, room: nat) -> bool {
    progress::fit(g, s, room) && !(model::innermost(s) matches Some(ContainerView::Enum(_, _, _)))
}

/// A walk leaves such a state, and one in which names can be no trouble.
proof fn lemma_next(g: Seq<Shape>, s: State, t: State, room: nat)
    requires
        is_ready(g, s, room),
        progress::keeps(g, s, t),
    ensures
        is_ready(g, t, room),
        progress::orderly(t),
        shape::shapes_wf(g),
        is_calm(g, s) ==> is_calm(g, t),
{
    progress::lemma_fit_orderly(g, s, room);
    progress::lemma_fit_after(g, s, t, room);
    progress::lemma_keeps_orderly(g, s, t);
    assert(progress::within(g, s)) by {
        reveal(progress::fit);
    }
    reveal(progress::keeps_beside);
    if s.current.len() > 0 {
        let last = s.current.last();
        assert(s.processed.contains_key(s.current[s.current.len() - 1]));
        assert(s.registry.contains_key(last) ==> t.registry.contains_key(last));
        if !s.registry.contains_key(last) {
            assert(!t.registry.contains_key(last));
        }
    }
    if is_calm(g, s) {
        reveal(is_at_home);
        lemma_root_alone(g, g.len() as int);
        assert forall|n: NameView| #[trigger]
            t.processed.contains_key(n) implies n.namespace is Root by {
            assert(s.processed.contains_key(n) || reach::spaces(g).contains(n.namespace));
        }
        assert forall|n: NameView, k: int|
            #![trigger t.processed.contains_key(n), g[k]]
            t.processed.contains_key(n) && 0 <= k < g.len() && shape::is_container(g[k])
                && naming::inner_of(g, k) is None && naming::own_name(g, k) == Ok::<
                NameView,
                ErrorView,
            >(n) implies t.processed[n].id == g[k].id by {
            if s.processed.contains_key(n) {
            } else {
                assert(progress::is_known_as(g, t.processed[n].id, n));
                let b = choose|b: int|
                    0 <= b < g.len() && naming::inner_of(g, b) is None && (#[trigger] g[b]).id
                        == t.processed[n].id && progress::goes_by(g, b, n);
                reveal(is_plain);
                assert(naming::own_name(g, b) == naming::own_name(g, k));
                assert(k == b);
            }
        }
    }
}

/// Entering the context of an annotation leaves such a state.
proof fn lemma_inside(g: Seq<Shape>, s: State, action: ActionView, room: nat)
    requires
        is_ready(g, s, room),
        reach::spaces(g).contains(reach::action_space(action)),
        is_plain(g) ==> action is Inherit,
    ensures
        is_ready(g, model::enter(s, action), room),
        progress::orderly(model::enter(s, action)),
        shape::shapes_wf(g),
        is_calm(g, s) ==> is_calm(g, model::enter(s, action)),
{
    progress::lemma_enter(g, s, action, room);
    progress::lemma_fit_orderly(g, model::enter(s, action), room);
    reveal(is_at_home);
}

/// Nor does it matter what is being built.
proof fn lemma_apart(g: Seq<Shape>, s: State, room: nat)
    requires
        is_ready(g, s, room),
    ensures
        is_ready(g, model::set_aside(s), room),
        is_ready(g, State { current: Seq::empty(), ..s }, room),
        is_calm(g, s) ==> is_calm(g, model::set_aside(s)) && is_calm(
            g,
            State { current: Seq::empty(), ..s },
        ),
{
    progress::lemma_set_aside(g, s, room);
    progress::lemma_aside(g, s, room);
    reveal(is_at_home);
}

// References

proof fn lemma_named(g: Seq<Shape>, s: State, j: int)
    requires
        shape::shapes_wf(g),
        progress::orderly(s),
        0 <= j < g.len(),
    ensures
        is_fair(g, s, model::walk_name(g, s, j).1),
{
    lemma_own_name(g, j);
    lemma_annotation(g, j);
    if is_calm(g, s) {
        reveal(is_at_home);
        assert(model::context(s) is None);
    }
    if let Ok(own) = naming::own_name(g, j) {
        progress::lemma_meet_name(s, own, true);
        if let Some(context) = model::context(s) {
            progress::lemma_meet_name(
                s,
                NameView { namespace: context.namespace, name: own.name },
                context.explicit,
            );
        }
    }
}

proof fn lemma_scalar(g: Seq<Shape>, s: State, j: int)
    requires
        0 <= j < g.len(),
        g[j].def is Scalar,
    ensures
        is_fair(g, s, scalar::scalar_format(g[j])),
{
    match scalar::scalar_format(g[j]) {
        Step::Fail(error) => {
            lemma_cause(g, j, error);
        },
        Step::Unsupported => {
            lemma_beyond(g, j);
        },
        _ => {},
    }
}

proof fn lemma_reference(g: Seq<Shape>, s: State, i: int)
    requires
        shape::shapes_wf(g),
        progress::orderly(s),
        0 <= i < g.len(),
    ensures
        is_fair(g, s, walk::reference(g, s, i, true).1),
        is_calm(g, s) ==> is_calm(g, walk::reference(g, s, i, true).0),
    decreases i, 1int, 0int,
{
    naming::lemma_generated(g, i);
    let j = naming::generated(g, i);
    let shape = g[j];
    assert(shape::shape_wf(g, j));
    containers::law_refused_reference(g, s, i, true);
    if let Step::Fail(error) = walk::reference(g, s, i, true).1 {
        if error is ReflectionError {
            lemma_cause(g, i, error);
        }
    }
    progress::lemma_reference(g, s, i, true);
    reveal(is_at_home);
    if shape::is_container(shape) {
        lemma_named(g, s, j);
    } else if let Some(fields) = walk::tuple_fields_of(shape) {
        lemma_references(g, s, fields, 0, i);
    } else if let Some((wrap, t)) = walk::single(shape) {
        lemma_reference(g, s, t as int);
    } else if let Def::MapOf { key, value } = shape.def {
        lemma_reference(g, s, key as int);
        progress::lemma_reference(g, s, key as int, true);
        lemma_reference(g, walk::reference(g, s, key as int, true).0, value as int);
    } else if shape.def is Scalar {
        lemma_scalar(g, s, j);
    } else if shape.def is Undefined {
        lemma_named(g, s, j);
    }
}

proof fn lemma_references(g: Seq<Shape>, s: State, fields: Seq<Field>, from: int, bound: int)
    requires
        shape::shapes_wf(g),
        progress::orderly(s),
        0 <= bound < g.len(),
        0 <= from,
    ensures
        is_fair(g, s, walk::reference_all(g, s, fields, from, bound, true).1),
    decreases bound, 0int, fields.len() - from,
{
    if from < fields.len() && fields[from].shape < bound {
        let i = fields[from].shape as int;
        lemma_reference(g, s, i);
        progress::lemma_reference(g, s, i, true);
        lemma_references(g, walk::reference(g, s, i, true).0, fields, from + 1, bound);
    }
}

proof fn lemma_formats(g: Seq<Shape>, s: State, i: int)
    requires
        shape::shapes_wf(g),
        progress::orderly(s),
        0 <= i < g.len(),
    ensures
        is_fair(g, s, walk::field_format(g, s, i).1),
        is_fair(g, s, walk::payload_format(g, s, i).1),
{
    lemma_reference(g, s, i);
}

proof fn lemma_bytes(g: Seq<Shape>, s: State, field: Field)
    requires
        field.shape < g.len(),
    ensures
        is_fair(g, s, scalar::bytes_format(g, field)),
        is_fair(g, s, model::supply_bytes(g, s, field)),
{
    if scalar::bytes_format(g, field) is Unsupported {
        lemma_beyond(g, field.shape as int);
    }
}

// Registration

proof fn lemma_nested(g: Seq<Shape>, s: State, i: int, room: nat)
    requires
        is_ready(g, s, room),
        0 <= i < g.len(),
    ensures
        is_fair(g, s, walk::nested(g, s, i, room)),
    decreases room, i, 7int, 0int,
{
    lemma_apart(g, s, room);
    lemma_register(g, model::set_aside(s), i, room);
}

proof fn lemma_register(g: Seq<Shape>, s: State, i: int, room: nat)
    requires
        is_ready(g, s, room),
        0 <= i < g.len(),
    ensures
        is_fair(g, s, walk::register(g, s, i, room)),
    decreases room, i, 6int, 0int,
{
    progress::lemma_fit_orderly(g, s, room);
    naming::lemma_generated(g, i);
    let k = naming::generated(g, i);
    let shape = g[k];
    assert(shape::shape_wf(g, k));
    if let Def::Option(t) = shape.def {
        lemma_register_below(g, s, t as int, k, room);
    } else {
        match shape.ty {
            Type::User(UserType::Struct(st)) => if st.kind == StructKind::Tuple {
                lemma_register_all(g, s, st.fields@, 0, k, room);
            } else {
                lemma_reflect(g, s, k, room);
            },
            Type::User(UserType::Enum(_)) => {
                lemma_reflect(g, s, k, room);
            },
            Type::Pointer(PointerType::Reference(t)) => {
                lemma_register_below(g, s, t as int, k, room);
            },
            Type::Pointer(PointerType::Raw(t)) => {
                lemma_register_below(g, s, t as int, k, room);
            },
            _ => match shape.def {
                Def::List(t) => {
                    lemma_register_below(g, s, t as int, k, room);
                },
                Def::Slice(t) => {
                    lemma_register_below(g, s, t as int, k, room);
                },
                Def::SetOf(t) => {
                    lemma_register_below(g, s, t as int, k, room);
                },
                Def::Array { item, size } => {
                    lemma_register_below(g, s, item as int, k, room);
                },
                Def::MapOf { key, value } => {
                    lemma_register_below(g, s, key as int, k, room);
                    completion::lemma_register_below(g, s, key as int, k, room, room);
                    if let Step::Done(s1) = walk::register_below(g, s, key as int, k, room) {
                        lemma_next(g, s, s1, room);
                        lemma_register_below(g, s1, value as int, k, room);
                    }
                },
                Def::Pointer(Some(t)) => {
                    lemma_register_below(g, s, t as int, k, room);
                },
                _ => {},
            },
        }
    }
}

proof fn lemma_register_below(g: Seq<Shape>, s: State, i: int, bound: int, room: nat)
    requires
        is_ready(g, s, room),
        0 <= i < bound <= g.len(),
    ensures
        is_fair(g, s, walk::register_below(g, s, i, bound, room)),
    decreases room, bound, 1int, 0int,
{
    lemma_register(g, s, i, room);
}

proof fn lemma_register_all(
    g: Seq<Shape>,
    s: State,
    fields: Seq<Field>,
    from: int,
    bound: int,
    room: nat,
)
    requires
        is_ready(g, s, room),
        0 <= from,
        0 <= bound <= g.len(),
        shape::fields_below(fields, bound),
    ensures
        is_fair(g, s, walk::register_all(g, s, fields, from, bound, room)),
    decreases room, bound, 2int, fields.len() - from,
{
    if from < fields.len() {
        let i = fields[from].shape as int;
        lemma_register_below(g, s, i, bound, room);
        completion::lemma_register_below(g, s, i, bound, room, room);
        if let Step::Done(s1) = walk::register_below(g, s, i, bound, room) {
            lemma_next(g, s, s1, room);
            lemma_register_all(g, s1, fields, from + 1, bound, room);
        }
    }
}

proof fn lemma_reflect(g: Seq<Shape>, s: State, i: int, room: nat)
    requires
        is_ready(g, s, room),
        0 <= i < g.len(),
    ensures
        is_fair(g, s, walk::reflect(g, s, i, room)),
    decreases room, i, 5int, 0int,
{
    progress::lemma_fit_orderly(g, s, room);
    naming::lemma_generated(g, i);
    let j = naming::generated(g, i);
    let shape = g[j];
    assert(shape::shape_wf(g, j));
    let (s1, supported) = model::meet_params(s, shape);
    progress::lemma_meet_params(g, s, shape);
    lemma_next(g, s, s1, room);
    if !supported {
        lemma_cause(g, j, ErrorView::UnsupportedGenericType(shape.display@));
    } else if let Def::Option(t) = shape.def {
        lemma_compound(g, s1, t as int, j, Wrap::Option, true, room);
    } else {
        match shape.ty {
            Type::User(UserType::Struct(st)) => {
                lemma_format_struct(g, s1, j, room);
            },
            Type::User(UserType::Enum(et)) => {
                lemma_format_enum(g, s1, j, room);
            },
            Type::Sequence(sequence) => {
                lemma_format_sequence(g, s1, j, sequence, room);
            },
            _ => {
                lemma_format_def(g, s1, j, room);
            },
        }
    }
}

proof fn lemma_format_sequence(
    g: Seq<Shape>,
    s: State,
    j: int,
    sequence: SequenceType,
    room: nat,
)
    requires
        is_ready(g, s, room),
        0 <= j < g.len(),
        g[j].ty == Type::Sequence(sequence),
    ensures
        is_fair(g, s, walk::format_sequence(g, s, j, sequence, room)),
    decreases room, j, 4int, 0int,
{
    progress::lemma_fit_orderly(g, s, room);
    assert(shape::shape_wf(g, j));
    match (sequence, g[j].def) {
        (SequenceType::Slice(_), Def::Slice(t)) => {
            lemma_compound(g, s, t as int, j, Wrap::SeqOf, true, room);
        },
        (SequenceType::Array(_), Def::Array { item, size }) => {
            lemma_compound(g, s, item as int, j, Wrap::TupleArray(size), true, room);
        },
        (SequenceType::Slice(t), _) => {
            lemma_compound(g, s, t as int, j, Wrap::SeqOf, true, room);
        },
        (SequenceType::Array(t), _) => {
            lemma_compound(g, s, t as int, j, Wrap::SeqOf, true, room);
        },
    }
}

proof fn lemma_format_def(g: Seq<Shape>, s: State, j: int, room: nat)
    requires
        is_ready(g, s, room),
        0 <= j < g.len(),
        !shape::is_container(g[j]),
    ensures
        is_fair(g, s, walk::format_def(g, s, j, room)),
    decreases room, j, 4int, 0int,
{
    progress::lemma_fit_orderly(g, s, room);
    let shape = g[j];
    assert(shape::shape_wf(g, j));
    match shape.def {
        Def::Scalar => {
            lemma_scalar(g, s, j);
        },
        Def::MapOf { key, value } => {
            lemma_format_map(g, s, key as int, value as int, j, room);
        },
        Def::List(t) => {
            lemma_compound(g, s, t as int, j, Wrap::SeqOf, true, room);
        },
        Def::Slice(t) => {
            lemma_compound(g, s, t as int, j, Wrap::SeqOf, true, room);
        },
        Def::Array { item, size } => {
            lemma_compound(g, s, item as int, j, Wrap::TupleArray(size), true, room);
        },
        Def::SetOf(t) => {
            lemma_compound(g, s, t as int, j, Wrap::SetOf, true, room);
        },
        Def::Option(t) => {
            lemma_compound(g, s, t as int, j, Wrap::Option, true, room);
        },
        Def::Pointer(Some(t)) => {
            lemma_compound(g, s, t as int, j, Wrap::Plain, false, room);
        },
        Def::Pointer(None) => {},
        Def::Undefined => {
            lemma_format_undefined(g, s, j, room);
        },
        Def::Other => {},
    }
}

proof fn lemma_format_undefined(g: Seq<Shape>, s: State, j: int, room: nat)
    requires
        is_ready(g, s, room),
        0 <= j < g.len(),
        !shape::is_container(g[j]),
        g[j].def is Undefined,
    ensures
        is_fair(g, s, walk::format_undefined(g, s, j, room)),
    decreases room, j, 3int, 0int,
{
    progress::lemma_fit_orderly(g, s, room);
    assert(shape::shape_wf(g, j));
    match g[j].ty {
        Type::Pointer(PointerType::Reference(t)) => {
            lemma_reflect(g, s, t as int, room);
        },
        Type::Pointer(PointerType::Raw(t)) => {
            lemma_reflect(g, s, t as int, room);
        },
        _ => {
            if is_beyond(g[j]) {
                lemma_beyond(g, j);
            }
        },
    }
}

proof fn lemma_compound(
    g: Seq<Shape>,
    s: State,
    t: int,
    bound: int,
    wrap: Wrap,
    force: bool,
    room: nat,
)
    requires
        is_ready(g, s, room),
        0 <= t < bound <= g.len(),
    ensures
        is_fair(g, s, walk::compound(g, s, t, bound, wrap, force, room)),
    decreases room, bound, 2int, 0int,
{
    progress::lemma_fit_orderly(g, s, room);
    lemma_reference(g, s, t);
    progress::lemma_reference(g, s, t, true);
    let (s1, referred) = walk::reference(g, s, t, true);
    lemma_next(g, s, s1, room);
    lemma_nested(g, s1, t, room);
    completion::lemma_nested(g, s1, t, room, room);
    if let Step::Done(s2) = walk::nested(g, s1, t, room) {
        lemma_next(g, s1, s2, room);
    }
}

proof fn lemma_format_map(
    g: Seq<Shape>,
    s: State,
    key: int,
    value: int,
    bound: int,
    room: nat,
)
    requires
        is_ready(g, s, room),
        0 <= key < bound <= g.len(),
        0 <= value < bound,
    ensures
        is_fair(g, s, walk::format_map(g, s, key, value, bound, room)),
    decreases room, bound, 2int, 0int,
{
    progress::lemma_fit_orderly(g, s, room);
    lemma_reference(g, s, key);
    progress::lemma_reference(g, s, key, true);
    let s1 = walk::reference(g, s, key, true).0;
    lemma_next(g, s, s1, room);
    lemma_reference(g, s1, value);
    progress::lemma_reference(g, s1, value, true);
    let s2 = walk::reference(g, s1, value, true).0;
    lemma_next(g, s1, s2, room);
    lemma_nested(g, s2, key, room);
    completion::lemma_nested(g, s2, key, room, room);
    if let Step::Done(s3) = walk::nested(g, s2, key, room) {
        lemma_next(g, s2, s3, room);
        lemma_nested(g, s3, value, room);
        completion::lemma_nested(g, s3, value, room, room);
        if let Step::Done(s4) = walk::nested(g, s3, value, room) {
            lemma_next(g, s3, s4, room);
        }
    }
}

// Structs

proof fn lemma_open(g: Seq<Shape>, s: State, j: int, room: nat)
    requires
        is_ready(g, s, room),
        0 <= j < g.len(),
        naming::inner_of(g, j) is None,
        shape::is_container(g[j]),
    ensures
        is_fair(g, s, walk::open_container(g, s, j)),
        walk::open_container(g, s, j) matches Step::Done((t, Some(name))) ==> {
            &&& room > 0
            &&& is_ready(g, t, (room - 1) as nat)
            &&& t.processed.contains_key(name)
            &&& t.current == s.current
            &&& is_calm(g, s) ==> is_calm(g, t)
        },
{
    progress::lemma_fit_orderly(g, s, room);
    progress::lemma_open(g, s, j, room);
    progress::lemma_walk_name(g, s, j);
    lemma_named(g, s, j);
    lemma_annotation(g, j);
    lemma_own_name(g, j);
    assert(naming::generated(g, j) == j);
    let key = names::root_name(g[j].type_identifier@);
    if let Some(renamed) = model::recorded_rename(g, s, j) {
        assert(progress::is_kept(s, key, s.name_mappings[key]));
    }
    if is_calm(g, s) {
        reveal(is_at_home);
        assert(model::context(s) is None);
        let (s1, named) = model::walk_name(g, s, j);
        if let Step::Done(name) = named {
            assert(s1.processed == s.processed);
            if model::recorded_rename(g, s, j) is None {
                assert(naming::own_name(g, j) == Ok::<NameView, ErrorView>(name));
                assert(s.processed.contains_key(name) ==> s.processed[name].id == g[j].id);
            }
            assert(!(model::owns(g, s1, name, j) is Fail));
            if let Step::Done((t, Some(_))) = walk::open_container(g, s, j) {
                assert(model::recorded_rename(g, s, j) is None);
                assert forall|n: NameView, k: int|
                    #![trigger t.processed.contains_key(n), g[k]]
                    t.processed.contains_key(n) && 0 <= k < g.len() && shape::is_container(g[k])
                        && naming::inner_of(g, k) is None && naming::own_name(g, k) == Ok::<
                        NameView,
                        ErrorView,
                    >(n) implies t.processed[n].id == g[k].id by {
                    if n == name {
                        reveal(is_plain);
                        assert(naming::own_name(g, k) == naming::own_name(g, j));
                        assert(k == j) by {
                            assert(g[k] == g[k] && g[j] == g[j]);
                        }
                    } else {
                        assert(s.processed.contains_key(n));
                    }
                }
            }
        }
    }
}

proof fn lemma_start(
    g: Seq<Shape>,
    s: State,
    name: NameView,
    container: ContainerView,
    j: int,
    room: nat,
)
    requires
        is_ready(g, s, room),
        0 <= j < g.len(),
        s.processed.contains_key(name),
    ensures
        is_fair(g, s, model::start_met(g, s, name, container, j)),
        model::start_met(g, s, name, container, j) matches Step::Done(t) ==> progress::fit(
            g,
            t,
            room,
        ) && model::innermost(t) == Some(container) && (is_calm(g, s) ==> is_calm(g, t)),
{
    progress::lemma_fit_orderly(g, s, room);
    progress::lemma_start_met(g, s, name, container, j, room);
    lemma_annotation(g, j);
    reveal(is_at_home);
    if let Ok(action) = namespace::namespace_action(g[j].attributes@) {
        progress::lemma_meet_name(s, name, namespace::action_is_explicit(action));
    }
}

proof fn lemma_format_struct(g: Seq<Shape>, s: State, j: int, room: nat)
    requires
        is_ready(g, s, room),
        0 <= j < g.len(),
        naming::inner_of(g, j) is None,
        g[j].ty matches Type::User(UserType::Struct(_)),
    ensures
        is_fair(g, s, walk::format_struct(g, s, j, room)),
    decreases room, j, 4int, 0int,
{
    progress::lemma_fit_orderly(g, s, room);
    assert(shape::shape_wf(g, j));
    if let Type::User(UserType::Struct(st)) = g[j].ty {
        if st.kind == StructKind::Tuple {
            lemma_apart(g, s, room);
            lemma_register_all(
                g,
                State { current: Seq::empty(), ..s },
                st.fields@,
                0,
                j,
                room,
            );
        } else {
            lemma_open(g, s, j, room);
            if let Step::Done((s1, Some(name))) = walk::open_container(g, s, j) {
                lemma_listed(g, j);
                lemma_struct_body(g, s1, name, st.kind, st.fields@, j, (room - 1) as nat);
            }
        }
    }
}

proof fn lemma_struct_body(
    g: Seq<Shape>,
    s: State,
    name: NameView,
    kind: StructKind,
    fields: Seq<Field>,
    j: int,
    room: nat,
)
    requires
        is_ready(g, s, room),
        0 <= j < g.len(),
        s.processed.contains_key(name),
        kind != StructKind::Tuple,
        all_listed(g, fields),
    ensures
        is_fair(g, s, walk::struct_body(g, s, name, kind, fields, j, room)),
    decreases room, g.len() + 4, 0int, 0int,
{
    let doc = crate::format::lines_view(g[j].doc@);
    match kind {
        StructKind::Unit => {
            lemma_start(g, s, name, ContainerView::UnitStruct(doc), j, room);
        },
        StructKind::TupleStruct => if fields.len() == 1 {
            assert(is_listed(g, fields[0]));
            if shape::is_transparent(g[j]) {
                lemma_wrapper_field(g, s, fields[0], room);
            } else {
                let container = ContainerView::NewTypeStruct(FormatView::Variable, doc);
                lemma_start(g, s, name, container, j, room);
                if let Step::Done(s1) = model::start_met(g, s, name, container, j) {
                    lemma_positional_field(g, s1, fields[0], room);
                }
            }
        } else {
            let container = ContainerView::TupleStruct(Seq::empty(), doc);
            lemma_start(g, s, name, container, j, room);
            if let Step::Done(s1) = model::start_met(g, s, name, container, j) {
                lemma_positional_fields(g, s1, fields, 0, room);
            }
        },
        StructKind::Struct => {
            let container = ContainerView::Struct(Seq::empty(), doc);
            lemma_start(g, s, name, container, j, room);
            if let Step::Done(s1) = model::start_met(g, s, name, container, j) {
                lemma_struct_fields(g, s1, fields, 0, room);
            }
        },
        StructKind::Tuple => {},
    }
}

proof fn lemma_wrapper_field(g: Seq<Shape>, s: State, field: Field, room: nat)
    requires
        is_ready(g, s, room),
        is_listed(g, field),
    ensures
        is_fair(g, s, walk::wrapper_field(g, s, field, room)),
    decreases room, g.len() + 2, 0int, 0int,
{
    progress::lemma_fit_orderly(g, s, room);
    lemma_bytes(g, s, field);
    progress::lemma_supply_bytes(g, s, field);
    if let Step::Done((s1, false)) = model::supply_bytes(g, s, field) {
        lemma_next(g, s, s1, room);
        lemma_reflect(g, s1, field.shape as int, room);
    }
}

proof fn lemma_positional_field(g: Seq<Shape>, s: State, field: Field, room: nat)
    requires
        is_ready(g, s, room),
        is_listed(g, field),
    ensures
        is_fair(g, s, walk::positional_field(g, s, field, room)),
    decreases room, g.len() + 2, 0int, 0int,
{
    progress::lemma_fit_orderly(g, s, room);
    lemma_bytes(g, s, field);
    progress::lemma_supply_bytes(g, s, field);
    if let Step::Done((s1, false)) = model::supply_bytes(g, s, field) {
        lemma_next(g, s, s1, room);
        lemma_positional(g, s1, field.shape as int, room);
    }
}

proof fn lemma_positional(g: Seq<Shape>, s: State, i: int, room: nat)
    requires
        is_ready(g, s, room),
        0 <= i < g.len(),
    ensures
        is_fair(g, s, walk::positional(g, s, i, room)),
    decreases room, i, 9int, 0int,
{
    progress::lemma_fit_orderly(g, s, room);
    lemma_formats(g, s, i);
    progress::lemma_field_format(g, s, i);
    let s1 = walk::field_format(g, s, i).0;
    lemma_next(g, s, s1, room);
    lemma_nested(g, s1, i, room);
    completion::lemma_nested(g, s1, i, room, room);
    if let Step::Done(s2) = walk::nested(g, s1, i, room) {
        lemma_next(g, s1, s2, room);
    }
}

proof fn lemma_positional_fields(
    g: Seq<Shape>,
    s: State,
    fields: Seq<Field>,
    from: int,
    room: nat,
)
    requires
        is_ready(g, s, room),
        0 <= from,
        all_listed(g, fields),
    ensures
        is_fair(g, s, walk::positional_fields(g, s, fields, from, room)),
    decreases room, g.len() + 3, 0int, fields.len() - from,
{
    if from < fields.len() {
        assert(is_listed(g, fields[from]));
        if fields[from].skip {
            lemma_positional_fields(g, s, fields, from + 1, room);
        } else {
            lemma_positional_field(g, s, fields[from], room);
            completion::lemma_positional_field(g, s, fields[from], room, room);
            if let Step::Done(s1) = walk::positional_field(g, s, fields[from], room) {
                lemma_next(g, s, s1, room);
                lemma_positional_fields(g, s1, fields, from + 1, room);
            }
        }
    }
}

proof fn lemma_struct_fields(g: Seq<Shape>, s: State, fields: Seq<Field>, from: int, room: nat)
    requires
        is_ready(g, s, room),
        0 <= from,
        all_listed(g, fields),
    ensures
        is_fair(g, s, walk::struct_fields(g, s, fields, from, room)),
    decreases room, g.len() + 3, 0int, fields.len() - from,
{
    if from < fields.len() {
        assert(is_listed(g, fields[from]));
        if fields[from].skip {
            lemma_struct_fields(g, s, fields, from + 1, room);
        } else {
            lemma_struct_field(g, s, fields[from], room);
            completion::lemma_struct_field(g, s, fields[from], room, room);
            if let Step::Done(s1) = walk::struct_field(g, s, fields[from], room) {
                lemma_next(g, s, s1, room);
                lemma_struct_fields(g, s1, fields, from + 1, room);
            }
        }
    }
}

proof fn lemma_struct_field(g: Seq<Shape>, s: State, field: Field, room: nat)
    requires
        is_ready(g, s, room),
        is_listed(g, field),
    ensures
        is_fair(g, s, walk::struct_field(g, s, field, room)),
    decreases room, g.len() + 2, 0int, 0int,
{
    progress::lemma_fit_orderly(g, s, room);
    assert(shape::shape_wf(g, field.shape as int));
    lemma_bytes(g, s, field);
    progress::lemma_supply_bytes(g, s, field);
    if let Step::Done((s1, false)) = model::supply_bytes(g, s, field) {
        lemma_next(g, s, s1, room);
        if let Some(t) = walk::option_of(g, field) {
            lemma_referred(g, s1, t, room);
        } else if let Some(inside) = walk::tuple_field_of(g, field) {
            lemma_tuple_field(g, s1, field, inside, room);
        } else {
            if let Ok(action) = namespace::namespace_action(field.attributes@) {
                lemma_field_value(g, s1, field, action, room);
            }
        }
    }
}

/// A reference is made, and what it reaches is registered.
proof fn lemma_referred(g: Seq<Shape>, s: State, t: int, room: nat)
    requires
        is_ready(g, s, room),
        0 <= t < g.len(),
    ensures
        is_fair(g, s, walk::reference(g, s, t, true).1),
        is_fair(g, s, walk::nested(g, walk::reference(g, s, t, true).0, t, room)),
    decreases room, g.len() + 1, 0int, 0int,
{
    progress::lemma_fit_orderly(g, s, room);
    lemma_reference(g, s, t);
    progress::lemma_reference(g, s, t, true);
    let s1 = walk::reference(g, s, t, true).0;
    lemma_next(g, s, s1, room);
    lemma_nested(g, s1, t, room);
}

proof fn lemma_tuple_field(g: Seq<Shape>, s: State, field: Field, inside: Inside, room: nat)
    requires
        is_ready(g, s, room),
        field.shape < g.len(),
        inside matches Inside::Wrapper(t) ==> t < g.len(),
    ensures
        is_fair(g, s, walk::tuple_field(g, s, field, inside, room)),
    decreases room, g.len() + 1, 1int, 0int,
{
    let i = field.shape as int;
    match inside {
        Inside::Tuple => {
            lemma_referred(g, s, i, room);
        },
        Inside::Wrapper(t) => {
            lemma_annotation(g, i);
            if let Ok(action) = namespace::namespace_action(g[i].attributes@) {
                reach::lemma_shape_space(g, i);
                lemma_inside(g, s, action, room);
                lemma_referred(g, model::enter(s, action), t as int, room);
            }
        },
    }
}

proof fn lemma_field_value(g: Seq<Shape>, s: State, field: Field, action: ActionView, room: nat)
    requires
        is_ready(g, s, room),
        is_listed(g, field),
        namespace::namespace_action(field.attributes@) == Ok::<ActionView, ErrorView>(action),
    ensures
        is_fair(g, s, walk::field_value(g, model::enter(s, action), field, action, room)),
    decreases room, g.len() + 1, 0int, 0int,
{
    let i = field.shape as int;
    let entered = model::enter(s, action);
    lemma_inside(g, s, action, room);
    lemma_formats(g, entered, i);
    progress::lemma_field_format(g, entered, i);
    let s1 = walk::field_format(g, entered, i).0;
    lemma_next(g, entered, s1, room);
    match walk::named_space(action) {
        Some(space) => {
            lemma_format_in(g, s1, i, space, room);
        },
        None => {
            lemma_reflect(g, s1, i, room);
        },
    }
}

proof fn lemma_format_in(g: Seq<Shape>, s: State, i: int, space: Seq<char>, room: nat)
    requires
        is_ready(g, s, room),
        0 <= i < g.len(),
        reach::spaces(g).contains(SpaceView::Named(space)),
    ensures
        is_fair(g, s, walk::format_in(g, s, i, space, room)),
    decreases room, i, 6int, 0int,
{
    progress::lemma_fit_orderly(g, s, room);
    if is_plain(g) {
        lemma_root_alone(g, g.len() as int);
    }
    let action = ActionView::SetContext(namespace::explicit_context(SpaceView::Named(space)));
    let entered = model::enter(s, action);
    lemma_inside(g, s, action, room);
    lemma_reflect(g, entered, i, room);
    completion::lemma_reflect(g, entered, i, room, room);
    if let Step::Done(s1) = walk::reflect(g, entered, i, room) {
        progress::lemma_leave(g, s, action, s1);
        lemma_next(g, s, model::leave(s1), room);
        lemma_named(g, model::leave(s1), i);
    }
}

// Enums

proof fn lemma_format_enum(g: Seq<Shape>, s: State, j: int, room: nat)
    requires
        is_ready(g, s, room),
        0 <= j < g.len(),
        naming::inner_of(g, j) is None,
        g[j].ty matches Type::User(UserType::Enum(_)),
        !(g[j].def is Option),
    ensures
        is_fair(g, s, walk::format_enum(g, s, j, room)),
    decreases room, j, 4int, 0int,
{
    if let Type::User(UserType::Enum(et)) = g[j].ty {
        lemma_open(g, s, j, room);
        if let Step::Done((s1, Some(name))) = walk::open_container(g, s, j) {
            lemma_enum_body(g, s1, name, et.variants@, j, (room - 1) as nat);
        }
    }
}

proof fn lemma_enum_body(
    g: Seq<Shape>,
    s: State,
    name: NameView,
    variants: Seq<Variant>,
    j: int,
    room: nat,
)
    requires
        is_ready(g, s, room),
        0 <= j < g.len(),
        s.processed.contains_key(name),
        g[j].ty matches Type::User(UserType::Enum(et)) && et.variants@ == variants,
    ensures
        ({
            let apart = State { current: Seq::empty(), ..s };
            let step = walk::enum_variants(g, apart, variants, 0, 0, Map::empty(), j, room);
            &&& is_fair(g, s, step)
            &&& step matches Step::Done((u, numbered)) ==> is_fair(
                g,
                s,
                model::start_met(
                    g,
                    State { current: s.current, ..u },
                    name,
                    ContainerView::Enum(
                        numbered,
                        naming::tagging(g[j]),
                        crate::format::lines_view(g[j].doc@),
                    ),
                    j,
                ),
            )
        }),
    decreases room, g.len() + 6, 0int, 0int,
{
    progress::lemma_fit_orderly(g, s, room);
    assert(shape::shape_wf(g, j));
    let apart = State { current: Seq::empty(), ..s };
    lemma_listed(g, j);
    reach::lemma_fields_within(g, j);
    lemma_apart(g, s, room);
    lemma_enum_variants(g, apart, variants, 0, 0, Map::empty(), j, room);
    completion::lemma_enum_variants(g, apart, variants, 0, 0, Map::empty(), j, room, room);
    let step = walk::enum_variants(g, apart, variants, 0, 0, Map::empty(), j, room);
    if let Step::Done((u, numbered)) = step {
        let t = State { current: s.current, ..u };
        progress::lemma_resume(g, s, u);
        lemma_next(g, s, t, room);
        progress::lemma_keeps_orderly(g, s, t);
        let container = ContainerView::Enum(
            numbered,
            naming::tagging(g[j]),
            crate::format::lines_view(g[j].doc@),
        );
        lemma_start(g, t, name, container, j, room);
    }
}

proof fn lemma_enum_variants(
    g: Seq<Shape>,
    s: State,
    variants: Seq<Variant>,
    from: int,
    index: int,
    known: Map<u32, NamedView<VariantView>>,
    j: int,
    room: nat,
)
    requires
        is_ready(g, s, room),
        0 <= from,
        0 <= j < g.len(),
        forall|v: int|
            0 <= v < variants.len() ==> all_listed(g, (#[trigger] variants[v]).fields@),
    ensures
        is_fair(g, s, walk::enum_variants(g, s, variants, from, index, known, j, room)),
    decreases room, g.len() + 5, 0int, variants.len() - from,
{
    if from < variants.len() {
        let variant = variants[from];
        if shape::has_attr(variant.attributes@, None, "skip"@) {
            lemma_enum_variants(g, s, variants, from + 1, index, known, j, room);
        } else {
            assert(all_listed(g, variant.fields@));
            lemma_variant_format(g, s, variant, j, room);
            lemma_fields_known(g, variant.fields@);
            completion::lemma_variant_format(g, s, variant, j, room, room);
            if let Step::Done((s1, value)) = walk::variant_format(g, s, variant, j, room) {
                lemma_next(g, s, s1, room);
                let named = NamedView {
                    name: naming::renamed(variant.rename, variant.name),
                    doc: crate::format::lines_view(variant.doc@),
                    value,
                };
                lemma_enum_variants(
                    g,
                    s1,
                    variants,
                    from + 1,
                    index + 1,
                    known.insert(index as u32, named),
                    j,
                    room,
                );
            }
        }
    }
}

proof fn lemma_fields_known(g: Seq<Shape>, fields: Seq<Field>)
    requires
        all_listed(g, fields),
    ensures
        shape::fields_below(fields, g.len() as int),
        reach::fields_within(g, fields),
{
    assert forall|k: int| 0 <= k < fields.len() implies (#[trigger] fields[k]).shape < g.len()
        && reach::field_within(g, fields[k]) by {
        assert(is_listed(g, fields[k]));
    }
}

proof fn lemma_variant_format(g: Seq<Shape>, s: State, variant: Variant, j: int, room: nat)
    requires
        is_ready(g, s, room),
        0 <= j < g.len(),
        all_listed(g, variant.fields@),
    ensures
        is_fair(g, s, walk::variant_format(g, s, variant, j, room)),
    decreases room, g.len() + 4, 1int, 0int,
{
    let fields = variant.fields@;
    if fields.len() == 0 {
    } else if walk::has_names(variant) {
        lemma_variant_fields(g, s, fields, 0, Seq::empty(), room);
    } else if fields.len() == 1 {
        assert(is_listed(g, fields[0]));
        lemma_newtype_variant(g, s, fields[0], room);
    } else {
        lemma_variant_items(g, s, fields, 0, Seq::empty(), j, room);
    }
}

proof fn lemma_newtype_variant(g: Seq<Shape>, s: State, field: Field, room: nat)
    requires
        is_ready(g, s, room),
        is_listed(g, field),
    ensures
        is_fair(g, s, walk::newtype_variant(g, s, field, room)),
    decreases room, g.len() + 3, 0int, 0int,
{
    let i = field.shape as int;
    lemma_bytes(g, s, field);
    if let Ok(action) = namespace::namespace_action(field.attributes@) {
        let entered = model::enter(s, action);
        lemma_inside(g, s, action, room);
        lemma_formats(g, entered, i);
        progress::lemma_payload_format(g, entered, i);
        let s1 = walk::payload_format(g, entered, i).0;
        lemma_next(g, entered, s1, room);
        lemma_nested(g, s1, i, room);
    }
}

proof fn lemma_variant_fields(
    g: Seq<Shape>,
    s: State,
    fields: Seq<Field>,
    from: int,
    known: Seq<NamedView<FormatView>>,
    room: nat,
)
    requires
        is_ready(g, s, room),
        0 <= from,
        all_listed(g, fields),
    ensures
        is_fair(g, s, walk::variant_fields(g, s, fields, from, known, room)),
    decreases room, g.len() + 3, 0int, fields.len() - from,
{
    if from < fields.len() {
        let field = fields[from];
        assert(is_listed(g, field));
        if field.skip {
            lemma_variant_fields(g, s, fields, from + 1, known, room);
        } else {
            lemma_variant_field(g, s, field, room);
            completion::lemma_variant_field(g, s, field, room, room);
            if let Step::Done((s1, value)) = walk::variant_field(g, s, field, room) {
                lemma_next(g, s, s1, room);
                let after = match value {
                    Some(format) => known.push(model::named_field(field, format)),
                    None => known,
                };
                lemma_variant_fields(g, s1, fields, from + 1, after, room);
            }
        }
    }
}

proof fn lemma_variant_field(g: Seq<Shape>, s: State, field: Field, room: nat)
    requires
        is_ready(g, s, room),
        is_listed(g, field),
    ensures
        is_fair(g, s, walk::variant_field(g, s, field, room)),
    decreases room, g.len() + 2, 0int, 0int,
{
    progress::lemma_fit_orderly(g, s, room);
    assert(shape::shape_wf(g, field.shape as int));
    lemma_bytes(g, s, field);
    if let Ok(action) = namespace::namespace_action(field.attributes@) {
        if let Some(t) = walk::option_of(g, field) {
            lemma_inside(g, s, action, room);
            lemma_referred(g, model::enter(s, action), t, room);
        } else {
            lemma_field_value(g, s, field, action, room);
        }
    }
}

proof fn lemma_variant_items(
    g: Seq<Shape>,
    s: State,
    fields: Seq<Field>,
    from: int,
    known: Seq<FormatView>,
    j: int,
    room: nat,
)
    requires
        is_ready(g, s, room),
        0 <= from,
        0 <= j < g.len(),
        all_listed(g, fields),
    ensures
        is_fair(g, s, walk::variant_items(g, s, fields, from, known, j, room)),
    decreases room, g.len() + 3, 0int, fields.len() - from,
{
    if from < fields.len() {
        let field = fields[from];
        assert(is_listed(g, field));
        if field.skip {
            lemma_variant_items(g, s, fields, from + 1, known, j, room);
        } else {
            lemma_variant_item(g, s, field, j, room);
            completion::lemma_variant_item(g, s, field, j, room, room);
            if let Step::Done((s1, value)) = walk::variant_item(g, s, field, j, room) {
                lemma_next(g, s, s1, room);
                let after = match value {
                    Some(format) => known.push(format),
                    None => known,
                };
                lemma_variant_items(g, s1, fields, from + 1, after, j, room);
            }
        }
    }
}

proof fn lemma_variant_item(g: Seq<Shape>, s: State, field: Field, j: int, room: nat)
    requires
        is_ready(g, s, room),
        0 <= j < g.len(),
        is_listed(g, field),
    ensures
        is_fair(g, s, walk::variant_item(g, s, field, j, room)),
    decreases room, g.len() + 2, 0int, 0int,
{
    let i = field.shape as int;
    lemma_bytes(g, s, field);
    lemma_annotation(g, j);
    if let Ok(action) = namespace::namespace_action(g[j].attributes@) {
        let entered = model::enter(s, action);
        reach::lemma_shape_space(g, j);
        lemma_inside(g, s, action, room);
        lemma_formats(g, entered, i);
        progress::lemma_field_format(g, entered, i);
        let s1 = walk::field_format(g, entered, i).0;
        lemma_next(g, entered, s1, room);
        lemma_nested(g, s1, i, room);
    }
}

// The walk as a whole

/// A type is refused only for a reason: a type of the table is to blame for the error, or two names
/// are in each other's way. Names never are in a table without namespace annotations in which no
/// two types go by one name, if those that are taken before are no trouble.
pub proof fn law_refusals_have_reasons(g: Seq<Shape>, s: State, i: int)
    requires
        shape::shapes_wf(g),
        completion::at_rest(s),
        0 <= i < g.len(),
    ensures
        is_fair(g, s, walk::reflected(g, s, i)),
{
    completion::lemma_fit_at_rest(g, s);
    lemma_reflect(g, s, i, reach::candidates(g).len());
}

/// A reference is refused only for a reason likewise.
pub proof fn law_references_are_refused_fairly(g: Seq<Shape>, s: State, i: int)
    requires
        shape::shapes_wf(g),
        progress::orderly(s),
        0 <= i < g.len(),
    ensures
        is_fair(g, s, walk::reference(g, s, i, true).1),
{
    lemma_reference(g, s, i);
}

/// In a table of which no type is to blame for anything, without namespace annotations, and in
/// which no two types go by one name, every type can be added to a new builder.
pub proof fn law_plain_types_are_accepted(g: Seq<Shape>, i: int)
    requires
        shape::shapes_wf(g),
        0 <= i < g.len(),
        is_plain(g),
        forall|k: int| 0 <= k < g.len() ==> !is_beyond(#[trigger] g[k]),
        forall|k: int, error: ErrorView| 0 <= k < g.len() ==> !#[trigger] is_cause(g, k, error),
    ensures
        walk::reflected(g, model::empty_state(), i) is Done,
{
    let s = model::empty_state();
    assert(s.type_namespace_sources.dom() =~= Set::empty());
    law_refusals_have_reasons(g, s, i);
    laws::law_adding_ends(g, s, i);
    reveal(has_cause);
    reveal(has_beyond);
    reveal(is_at_home);
}

/// The type parameters that a generic type is added with are remembered.
pub proof fn law_use_is_remembered(g: Seq<Shape>, s: State, i: int)
    requires
        shape::shapes_wf(g),
        completion::at_rest(s),
        0 <= i < g.len(),
        state::must_agree(g[naming::generated(g, i)]),
    ensures
        walk::reflected(g, s, i) matches Step::Done(t) ==> t.generic_type_params.contains_pair(
            g[naming::generated(g, i)].decl_id,
            g[naming::generated(g, i)].type_params->0@,
        ),
{
    naming::lemma_generated(g, i);
    let k = naming::generated(g, i);
    let room = reach::candidates(g).len();
    completion::lemma_fit_at_rest(g, s);
    laws::law_wrapper_is_transparent(g, s, i, true, room);
    if let Step::Done(t) = walk::reflected(g, s, i) {
        again::lemma_params_met(g, s, k, room, t);
        if !t.generic_type_params.contains_key(g[k].decl_id) {
            assert(model::meet_params(t, g[k]).0.generic_type_params.contains_key(g[k].decl_id));
        }
    }
}

/// Of two uses of a generic type with different type parameters the second is refused, whatever was
/// added before.
pub proof fn law_conflicting_uses(g: Seq<Shape>, s: State, i: int, j: int)
    requires
        shape::shapes_wf(g),
        completion::at_rest(s),
        0 <= i < g.len(),
        0 <= j < g.len(),
        ({
            let first = g[naming::generated(g, i)];
            let second = g[naming::generated(g, j)];
            &&& state::must_agree(first)
            &&& state::must_agree(second)
            &&& first.decl_id == second.decl_id
            &&& first.type_params->0@ != second.type_params->0@
        }),
    ensures
        walk::reflected(g, s, i) matches Step::Done(t) ==> walk::reflected(g, t, j) == Step::<
            State,
        >::Fail(ErrorView::UnsupportedGenericType(g[naming::generated(g, j)].display@)),
{
    law_use_is_remembered(g, s, i);
    if let Step::Done(t) = walk::reflected(g, s, i) {
        laws::law_other_parameters(g, t, j, reach::candidates(g).len());
    }
}

} // verus!
