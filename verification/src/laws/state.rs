//! What the single operations do to a registry under construction.

use vstd::prelude::*;

use crate::error::ErrorView;
use crate::format::{lines_view, ContainerView, FormatView, NamedView};
use crate::model;
use crate::model::State;
use crate::names;
use crate::names::{NameView, SpaceView};
use crate::namespace::{ActionView, ContextView};
use crate::naming;
use crate::progress;
use crate::scalar;
use crate::shape::{Field, Shape, Type};
use crate::step::Step;

verus! {

/// A new builder has nothing: no container, no name, no rename, no type parameters and no context.
pub proof fn law_new_builder()
    ensures
        ({
            let s = model::empty_state();
            &&& s.registry.dom() == Set::<NameView>::empty()
            &&& s.processed.dom() == Set::<NameView>::empty()
            &&& s.name_mappings.dom() == Set::<NameView>::empty()
            &&& s.generic_type_params.dom() == Set::<u128>::empty()
            &&& s.type_namespace_sources.dom() == Set::<NameView>::empty()
            &&& s.current.len() == 0
            &&& s.namespace_context_stack.len() == 0
            &&& model::innermost(s) is None
            &&& model::context(s) is None
        }),
{
    let s = model::empty_state();
    assert(s.registry.dom() =~= Set::<NameView>::empty());
    assert(s.processed.dom() =~= Set::<NameView>::empty());
    assert(s.name_mappings.dom() =~= Set::<NameView>::empty());
    assert(s.generic_type_params.dom() =~= Set::<u128>::empty());
    assert(s.type_namespace_sources.dom() =~= Set::<NameView>::empty());
}

// Generic types

/// The standard generic types are used with any type parameters: meeting one succeeds and is not
/// remembered.
pub proof fn law_standard_generics(s: State, shape: Shape)
    requires
        ({
            let identifier = shape.type_identifier@;
            ||| identifier == "Arc"@
            ||| identifier == "Rc"@
            ||| identifier == "Box"@
            ||| identifier == "Option"@
            ||| identifier == "Vec"@
            ||| identifier == "HashMap"@
            ||| identifier == "HashSet"@
            ||| identifier == "BTreeMap"@
            ||| identifier == "BTreeSet"@
            ||| identifier == "DateTime"@
        }),
    ensures
        model::meet_params(s, shape) == (s, true),
{
}

/// So are types without type parameters, references, slices and arrays.
pub proof fn law_free_of_parameters(s: State, shape: Shape)
    requires
        shape.type_params is None || shape.type_identifier@.len() > 0 && (shape.type_identifier@[0]
            == '&' || shape.type_identifier@[0] == '['),
    ensures
        model::meet_params(s, shape) == (s, true),
{
}

/// Whether any two uses of the type must agree in their type parameters.
pub open spec fn must_agree(shape: Shape) -> bool {
    let identifier = shape.type_identifier@;
    &&& shape.type_params is Some
    &&& !(identifier.len() > 0 && (identifier[0] == '&' || identifier[0] == '['))
    &&& identifier != "Arc"@
    &&& identifier != "Rc"@
    &&& identifier != "Box"@
    &&& identifier != "Option"@
    &&& identifier != "Vec"@
    &&& identifier != "HashMap"@
    &&& identifier != "HashSet"@
    &&& identifier != "BTreeMap"@
    &&& identifier != "BTreeSet"@
    &&& identifier != "DateTime"@
}

/// Of any other generic type two uses agree exactly if they have the same type parameters: the
/// first is accepted, and the second if it has them too.
pub proof fn law_generic_uses(s: State, first: Shape, second: Shape)
    requires
        must_agree(first),
        must_agree(second),
        first.decl_id == second.decl_id,
        !s.generic_type_params.contains_key(first.decl_id),
    ensures
        model::meet_params(s, first).1,
        model::meet_params(model::meet_params(s, first).0, second).1 <==> first.type_params->0@
            == second.type_params->0@,
        model::meet_params(model::meet_params(s, first).0, second).0 == model::meet_params(
            s,
            first,
        ).0,
{
}

/// Uses of different declarations have nothing to do with each other, and nothing else changes.
pub proof fn law_other_declarations(s: State, shape: Shape, declaration: u128)
    requires
        declaration != shape.decl_id,
    ensures
        ({
            let t = model::meet_params(s, shape).0;
            &&& t.generic_type_params.contains_key(declaration)
                == s.generic_type_params.contains_key(declaration)
            &&& s.generic_type_params.contains_key(declaration)
                ==> t.generic_type_params[declaration] == s.generic_type_params[declaration]
            &&& t == (State { generic_type_params: t.generic_type_params, ..s })
        }),
{
}

// Namespaces

/// Two names are in each other's way if they are equal but for two different named namespaces, at
/// least one of which is inherited.
pub proof fn law_clash(
    name: Seq<char>,
    other: Seq<char>,
    known: SpaceView,
    new: SpaceView,
    known_explicit: bool,
    new_explicit: bool,
)
    ensures
        model::clashes(
            NameView { namespace: known, name },
            known_explicit,
            NameView { namespace: new, name: other },
            new_explicit,
        ) <==> match (known, new) {
            (SpaceView::Named(a), SpaceView::Named(b)) => a != b && name == other && !(
            known_explicit && new_explicit),
            _ => false,
        },
{
}

/// A name that is met is remembered, with whether its namespace was set explicitly, and nothing
/// else changes. One that is refused is reported with its namespace and that of the first name that
/// is in its way.
pub proof fn law_meeting(s: State, new: NameView, explicit: bool)
    requires
        progress::orderly(s),
    ensures
        match model::meet_name(s, new, explicit) {
            Step::Done(t) => {
                &&& t == (State { type_namespace_sources: t.type_namespace_sources, ..s })
                &&& t.type_namespace_sources.dom() == s.type_namespace_sources.dom().insert(new)
                &&& t.type_namespace_sources[new] == explicit
                &&& forall|m: NameView| #[trigger]
                    s.type_namespace_sources.contains_key(m) && m != new
                        ==> t.type_namespace_sources[m] == s.type_namespace_sources[m]
                &&& forall|m: NameView| #[trigger]
                    s.type_namespace_sources.contains_key(m) ==> !model::clashes(
                        m,
                        s.type_namespace_sources[m],
                        new,
                        explicit,
                    )
            },
            Step::Fail(error) => exists|m: NameView| #[trigger]
                s.type_namespace_sources.contains_key(m) && model::clashes(
                    m,
                    s.type_namespace_sources[m],
                    new,
                    explicit,
                ) && error == (ErrorView::AmbiguousNamespaceInheritance {
                    container: new.name,
                    existing_namespace: names::space_text(m.namespace),
                    new_namespace: names::space_text(new.namespace),
                }) && forall|other: NameView| #[trigger]
                    s.type_namespace_sources.contains_key(other) && model::clashes(
                        other,
                        s.type_namespace_sources[other],
                        new,
                        explicit,
                    ) ==> other == m || names::name_before(m, other),
            _ => false,
        },
{
    progress::lemma_meet_name(s, new, explicit);
    let sources = s.type_namespace_sources;
    let blocked = model::in_the_way(sources, new, explicit);
    if model::meet_name(s, new, explicit) is Fail {
        let k = choose|k: NameView| crate::name_table::is_first(sources.dom(), blocked, k);
        assert(sources.dom().contains(k) && blocked(k));
        assert(sources.contains_key(k));
        assert forall|other: NameView| #[trigger]
            sources.contains_key(other) && model::clashes(
                other,
                sources[other],
                new,
                explicit,
            ) implies other == k || names::name_before(k, other) by {
            assert(sources.dom().contains(other) && blocked(other));
        }
    }
}

/// The context in force is the innermost one, but that the root pin counts as none.
pub proof fn law_context(s: State, context: ContextView)
    ensures
        s.namespace_context_stack.len() == 0 ==> model::context(s) is None,
        model::context(State {
            namespace_context_stack: s.namespace_context_stack.push(context),
            ..s
        }) == if context.explicit && context.namespace is Root {
            None
        } else {
            Some(context)
        },
{
    let stack = s.namespace_context_stack.push(context);
    assert(stack.last() == context);
}

/// Entering a context adds one to those in force: the one that is set, or the innermost one again,
/// or the root pin if there is none. Leaving takes the innermost one away.
pub proof fn law_contexts_in_force(s: State, context: ContextView)
    ensures
        model::enter(s, ActionView::SetContext(context)) == (State {
            namespace_context_stack: s.namespace_context_stack.push(context),
            ..s
        }),
        model::enter(s, ActionView::Inherit) == (State {
            namespace_context_stack: s.namespace_context_stack.push(
                if s.namespace_context_stack.len() == 0 {
                    ContextView { namespace: SpaceView::Root, explicit: true }
                } else {
                    s.namespace_context_stack.last()
                },
            ),
            ..s
        }),
        model::leave(State {
            namespace_context_stack: s.namespace_context_stack.push(context),
            ..s
        }) == s,
{
    assert(s.namespace_context_stack.push(context).drop_last() =~= s.namespace_context_stack);
}

// Names

/// A rename that is recorded in the root is found again by the type that it was recorded for and
/// by no other type.
pub proof fn law_rename_is_found(g: Seq<Shape>, s: State, name: Seq<char>, i: int, other: int)
    requires
        name != g[i].type_identifier@,
    ensures
        ({
            let renamed = NameView { namespace: SpaceView::Root, name };
            let t = model::note_rename(g, s, renamed, i);
            &&& model::recorded_rename(g, t, i) == Some(renamed)
            &&& g[other].type_identifier@ == g[i].type_identifier@ && g[naming::generated(
                g,
                other,
            )].id != g[naming::generated(g, i)].id ==> model::recorded_rename(g, t, other) is None
            &&& g[other].type_identifier@ != g[i].type_identifier@ ==> model::recorded_rename(
                g,
                t,
                other,
            ) == model::recorded_rename(g, s, other)
            &&& t == (State { name_mappings: t.name_mappings, ..s })
        }),
{
}

/// Nothing is recorded of a type that goes by its identifier, and what is recorded in a named
/// namespace is found nowhere.
pub proof fn law_what_is_not_found(
    g: Seq<Shape>,
    s: State,
    space: Seq<char>,
    name: Seq<char>,
    i: int,
)
    ensures
        forall|namespace: SpaceView| #[trigger]
            model::note_rename(
                g,
                s,
                NameView { namespace, name: g[i].type_identifier@ },
                i,
            ) == s,
        forall|other: int|
            #[trigger] model::recorded_rename(
                g,
                model::note_rename(
                    g,
                    s,
                    NameView { namespace: SpaceView::Named(space), name },
                    i,
                ),
                other,
            ) == model::recorded_rename(g, s, other),
{
}

/// Outside a walk a type goes by the rename that is recorded for it, else by its own name.
pub proof fn law_settled_name(g: Seq<Shape>, s: State, i: int)
    ensures
        match model::recorded_rename(g, s, i) {
            Some(renamed) => model::settled_name(g, s, i) == Step::Done(renamed),
            None => match naming::own_name(g, i) {
                Ok(own) => model::settled_name(g, s, i) == Step::Done(own),
                Err(error) => model::settled_name(g, s, i) == Step::<NameView>::Fail(error),
            },
        },
{
}

/// A name that has been taken is the type's, with its path, and nothing else changes.
pub proof fn law_taking(g: Seq<Shape>, s: State, name: NameView, i: int)
    ensures
        ({
            let t = model::take_name(g, s, name, i);
            &&& t == (State { processed: t.processed, ..s })
            &&& t.processed.dom() == s.processed.dom().insert(name)
            &&& t.processed[name].id == g[naming::generated(g, i)].id
            &&& t.processed[name].rust_path == naming::path_text(g[naming::generated(g, i)])
            &&& forall|m: NameView| #[trigger]
                s.processed.contains_key(m) && m != name ==> t.processed[m] == s.processed[m]
        }),
{
}

/// The name under which a type stands is the one that it was referred to by, or that in the root.
/// It is the former if the type owns it, and the latter only if the type owns that and not the
/// former.
pub proof fn law_standing_name(g: Seq<Shape>, s: State, i: int, name: NameView)
    ensures
        ({
            let id = g[naming::generated(g, i)].id;
            let stood = model::standing_name(g, s, i, name);
            let owns = |n: NameView| s.processed.contains_key(n) && s.processed[n].id == id;
            let in_root = NameView { namespace: SpaceView::Root, name: name.name };
            &&& stood == name || stood == in_root
            &&& owns(name) || owns(in_root) ==> owns(stood)
            &&& owns(name) ==> stood == name
            &&& !owns(in_root) ==> stood == name
        }),
{
}

// Containers

/// A container that is started is registered and is the one being built, and finishing it leaves
/// it registered and takes up the one before.
pub proof fn law_building(s: State, name: NameView, container: ContainerView)
    ensures
        ({
            let t = model::start(s, name, container);
            &&& model::innermost(t) == Some(container)
            &&& t.registry == s.registry.insert(name, container)
            &&& model::finish(t) == (State { registry: t.registry, ..s })
            &&& t == (State { registry: t.registry, current: t.current, ..s })
            &&& t.current == s.current.push(name)
        }),
{
    assert(s.current.push(name).drop_last() =~= s.current);
}

/// The container being built is the registered one whose name comes last.
pub proof fn law_innermost(s: State)
    ensures
        s.current.len() == 0 ==> model::innermost(s) is None,
        s.current.len() > 0 ==> match model::innermost(s) {
            Some(container) => s.registry.contains_pair(s.current.last(), container),
            None => !s.registry.contains_key(s.current.last()),
        },
{
}

/// What a format that is supplied becomes: the format of a newtype, one more item of a tuple, or
/// the format of the last field of a struct if that is not known yet. A unit struct takes none.
pub proof fn law_supplying(s: State, format: FormatView, force: bool, before: ContainerView)
    requires
        model::innermost(s) == Some(before),
    ensures
        match before {
            ContainerView::UnitStruct(_) => model::supply(s, format, force) == Step::Done(s),
            ContainerView::NewTypeStruct(inner, doc) => becomes(
                s,
                model::supply(s, format, force),
                ContainerView::NewTypeStruct(
                    if force || inner is Variable {
                        format
                    } else {
                        inner
                    },
                    doc,
                ),
            ),
            ContainerView::TupleStruct(items, doc) => becomes(
                s,
                model::supply(s, format, force),
                ContainerView::TupleStruct(items.push(format), doc),
            ),
            ContainerView::Struct(fields, doc) => if fields.len() > 0 && fields.last().value
                is Variable {
                becomes(
                    s,
                    model::supply(s, format, force),
                    ContainerView::Struct(
                        fields.drop_last().push(
                            NamedView {
                                name: fields.last().name,
                                doc: fields.last().doc,
                                value: format,
                            },
                        ),
                        doc,
                    ),
                )
            } else {
                model::supply(s, format, force) == Step::Done(s)
            },
            ContainerView::Enum(_, _, _) => model::supply(s, format, force) == if force {
                Step::Unsupported
            } else {
                Step::Done(s)
            },
        },
        forall|t: State|
            t.current.len() == 0 ==> #[trigger] model::supply(t, format, force) == Step::Done(t),
{
    if let ContainerView::Struct(fields, doc) = before {
        if fields.len() > 0 && fields.last().value is Variable {
            let last = NamedView { value: format, ..fields.last() };
            assert(fields.update(fields.len() - 1, last) =~= fields.drop_last().push(last));
        }
    }
    if let ContainerView::NewTypeStruct(inner, doc) = before {
        assert(s.registry.insert(s.current.last(), before) =~= s.registry);
    }
}

/// A step that turns the container being built into `after` and changes nothing else.
pub open spec fn becomes(s: State, step: Step<State>, after: ContainerView) -> bool {
    step matches Step::Done(t) && model::innermost(t) == Some(after) && t == (State {
        registry: s.registry.insert(s.current.last(), after),
        ..s
    })
}

/// A field is added at the end of the struct being built, under its rename or its name, with its
/// own documentation.
pub proof fn law_adding_a_field(
    s: State,
    field: Field,
    value: FormatView,
    fields: Seq<NamedView<FormatView>>,
    doc: Seq<Seq<char>>,
)
    requires
        model::innermost(s) == Some(ContainerView::Struct(fields, doc)),
    ensures
        becomes(
            s,
            Step::Done(model::add_field(s, model::named_field(field, value))),
            ContainerView::Struct(
                fields.push(
                    NamedView {
                        name: match field.rename {
                            Some(text) => text@,
                            None => field.name@,
                        },
                        doc: lines_view(field.doc@),
                        value,
                    },
                ),
                doc,
            ),
        ),
{
}

/// Where the bytes annotation of a field applies, the container being built has the byte string at
/// that field: as the format of a newtype, as one more item of a tuple, or as one more field of a
/// struct, with the documentation of its type. Where it does not apply nothing happens.
pub proof fn law_supplying_bytes(g: Seq<Shape>, s: State, field: Field, before: ContainerView)
    requires
        model::innermost(s) == Some(before),
    ensures
        scalar::bytes_format(g, field) matches Step::Done(Some(value)) ==> (model::supply_bytes(
            g,
            s,
            field,
        ) matches Step::Done((t, supplied)) && match before {
            ContainerView::NewTypeStruct(_, doc) => supplied && becomes(
                s,
                Step::Done(t),
                ContainerView::NewTypeStruct(value, doc),
            ),
            ContainerView::TupleStruct(items, doc) => supplied && becomes(
                s,
                Step::Done(t),
                ContainerView::TupleStruct(items.push(value), doc),
            ),
            ContainerView::Struct(fields, doc) => supplied && becomes(
                s,
                Step::Done(t),
                ContainerView::Struct(
                    fields.push(
                        NamedView {
                            name: match field.rename {
                                Some(text) => text@,
                                None => field.name@,
                            },
                            doc: lines_view(g[field.shape as int].doc@),
                            value,
                        },
                    ),
                    doc,
                ),
            ),
            _ => !supplied && t == s,
        }),
        scalar::bytes_format(g, field) == Step::Done(None::<FormatView>) ==> model::supply_bytes(
            g,
            s,
            field,
        ) == Step::Done((s, false)),
        scalar::bytes_format(g, field) is Unsupported ==> model::supply_bytes(g, s, field)
            is Unsupported,
{
}

/// A struct that has been given no field becomes a unit struct with its documentation, and every
/// other container stays as it is.
pub proof fn law_without_fields(s: State, container: ContainerView)
    requires
        model::innermost(s) == Some(container),
    ensures
        match container {
            ContainerView::Struct(fields, doc) => if fields.len() == 0 {
                becomes(s, Step::Done(model::settle_struct(s)), ContainerView::UnitStruct(doc))
            } else {
                model::settle_struct(s) == s
            },
            _ => model::settle_struct(s) == s,
        },
{
}

/// No format describes a type of which nothing is known, unless it is a struct, an enum or a
/// pointer to a type.
pub proof fn law_opaque(shape: Shape)
    ensures
        model::is_opaque(shape) ==> shape.def is Undefined,
        shape.def is Undefined ==> (model::is_opaque(shape) <==> !((shape.ty matches Type::User(
            user,
        ) && (user is Struct || user is Enum)) || (shape.ty matches Type::Pointer(pointer) && (
        pointer is Reference || pointer is Raw)))),
{
}

/// The lines of a documentation are those of the source.
pub proof fn law_documentation(lines: Seq<String>, k: int)
    ensures
        lines_view(lines).len() == lines.len(),
        0 <= k < lines.len() ==> lines_view(lines)[k] == lines[k]@,
{
}

} // verus!
