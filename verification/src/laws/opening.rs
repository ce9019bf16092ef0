//! How types are named while they are walked, and how their containers are opened.

use vstd::prelude::*;

use crate::completion;
use crate::error::ErrorView;
use crate::format::ContainerView;
use crate::model;
use crate::model::State;
use crate::names::{NameView, SpaceView};
use crate::namespace;
use crate::namespace::ActionView;
use crate::naming;
use crate::progress;
use crate::reach;
use crate::shape;
use crate::shape::Shape;
use crate::step::Step;
use crate::walk;

verus! {

/// No name that has been met is in the way of `name`.
pub open spec fn is_free(s: State, name: NameView, explicit: bool) -> bool {
    forall|m: NameView| #[trigger]
        s.type_namespace_sources.contains_key(m) ==> !model::clashes(
            m,
            s.type_namespace_sources[m],
            name,
            explicit,
        )
}

/// The result of naming a type: it is given `name` if no other name is in the way, and then that
/// is remembered.
pub open spec fn is_given(
    s: State,
    name: NameView,
    explicit: bool,
    result: (State, Step<NameView>),
) -> bool {
    if is_free(s, name, explicit) {
        result == (
            State {
                type_namespace_sources: s.type_namespace_sources.insert(name, explicit),
                ..s
            },
            Step::Done(name),
        )
    } else {
        result.0 == s && (result.1 matches Step::Fail(error)
            && error is AmbiguousNamespaceInheritance)
    }
}

/// A type that no rename is recorded for is named by its own attributes and the context in force.
/// With an annotation of its own it is given its own name, as one that was set explicitly. Else it
/// is given its name in the namespace in force, which may be an inherited one. With no namespace in
/// force it has its own name, and nothing is remembered.
pub proof fn law_walk_naming(g: Seq<Shape>, s: State, i: int, own: NameView, action: ActionView)
    requires
        progress::orderly(s),
        model::recorded_rename(g, s, i) is None,
        naming::own_name(g, i) == Ok::<NameView, ErrorView>(own),
        namespace::namespace_action(g[i].attributes@) == Ok::<ActionView, ErrorView>(action),
    ensures
        action is SetContext ==> is_given(s, own, true, model::walk_name(g, s, i)),
        action is Inherit ==> match model::context(s) {
            Some(context) => is_given(
                s,
                NameView { namespace: context.namespace, name: own.name },
                context.explicit,
                model::walk_name(g, s, i),
            ),
            None => model::walk_name(g, s, i) == (s, Step::Done(own)),
        },
{
    progress::lemma_action_is_explicit(g[i].attributes@, 0);
    progress::lemma_meet_name(s, own, true);
    if let Some(context) = model::context(s) {
        progress::lemma_meet_name(
            s,
            NameView { namespace: context.namespace, name: own.name },
            context.explicit,
        );
    }
}

/// A type with a malformed annotation is not named, unless a rename is recorded for it.
pub proof fn law_malformed_annotation(g: Seq<Shape>, s: State, i: int, error: ErrorView)
    requires
        model::recorded_rename(g, s, i) is None,
        g[i].type_tag is None,
        namespace::namespace_action(g[i].attributes@) == Err::<ActionView, ErrorView>(error),
    ensures
        model::walk_name(g, s, i) == (s, Step::<NameView>::Fail(error)),
        model::settled_name(g, s, i) == Step::<NameView>::Fail(error),
{
}

/// The container of a type that has been named but does not own the name yet is opened: the type
/// owns the name, a rename is recorded if it goes by another name than its identifier, and the
/// namespace that it is annotated with is put in force. Nothing is registered yet.
pub proof fn law_opening(g: Seq<Shape>, s: State, j: int, name: NameView, action: ActionView)
    requires
        progress::orderly(s),
        model::walk_name(g, s, j).1 == Step::Done(name),
        !s.processed.contains_key(name),
        namespace::namespace_action(g[j].attributes@) == Ok::<ActionView, ErrorView>(action),
    ensures
        walk::open_container(g, s, j) matches Step::Done((t, Some(opened))) && {
            let shape = g[naming::generated(g, j)];
            &&& opened == name
            &&& t.registry == s.registry
            &&& t.current == s.current
            &&& t.generic_type_params == s.generic_type_params
            &&& t.type_namespace_sources == model::walk_name(g, s, j).0.type_namespace_sources
            &&& t.processed.dom() == s.processed.dom().insert(name)
            &&& t.processed[name].id == shape.id
            &&& t.processed[name].rust_path == naming::path_text(shape)
            &&& name.name == g[j].type_identifier@ ==> t.name_mappings == s.name_mappings
            &&& name.name != g[j].type_identifier@ ==> t.name_mappings.contains_key(
                NameView { namespace: name.namespace, name: g[j].type_identifier@ },
            ) && t.name_mappings[NameView {
                namespace: name.namespace,
                name: g[j].type_identifier@,
            }].renamed == name
            &&& t.namespace_context_stack == model::enter(s, action).namespace_context_stack
        },
{
    progress::lemma_walk_name(g, s, j);
}

/// Before a container is built its name is met, as one that was set explicitly if the type is
/// annotated with a namespace.
pub proof fn law_starting(
    g: Seq<Shape>,
    s: State,
    name: NameView,
    container: ContainerView,
    j: int,
    action: ActionView,
)
    requires
        progress::orderly(s),
        namespace::namespace_action(g[j].attributes@) == Ok::<ActionView, ErrorView>(action),
    ensures
        match model::start_met(g, s, name, container, j) {
            Step::Done(t) => is_free(s, name, action is SetContext) && t == (State {
                registry: s.registry.insert(name, container),
                current: s.current.push(name),
                type_namespace_sources: s.type_namespace_sources.insert(
                    name,
                    action is SetContext,
                ),
                ..s
            }),
            Step::Fail(error) => !is_free(s, name, action is SetContext)
                && error is AmbiguousNamespaceInheritance,
            _ => false,
        },
{
    progress::lemma_action_is_explicit(g[j].attributes@, 0);
    progress::lemma_meet_name(s, name, namespace::action_is_explicit(action));
}

/// Only a named namespace moves the type of a field.
pub proof fn law_named_space(action: ActionView, space: Seq<char>)
    ensures
        walk::named_space(action) == Some(space) <==> (action matches ActionView::SetContext(
            context,
        ) && context.explicit && context.namespace == SpaceView::Named(space)),
        walk::named_space(ActionView::Inherit) is None,
{
}

/// A type that a field moves to a namespace stands there already if it is a container that owns its
/// name there, or that is annotated with that very namespace and owns its own name. It does not if
/// a rename is recorded for it, or if it is annotated with another namespace.
pub proof fn law_standing_in(
    g: Seq<Shape>,
    s: State,
    i: int,
    space: Seq<char>,
    own: NameView,
    action: ActionView,
)
    requires
        ({
            let k = naming::generated(g, i);
            &&& naming::own_name(g, k) == Ok::<NameView, ErrorView>(own)
            &&& namespace::namespace_action(g[k].attributes@) == Ok::<ActionView, ErrorView>(action)
            &&& model::recorded_rename(g, s, k) is None
        }),
        naming::generated(g, naming::generated(g, i)) == naming::generated(g, i),
    ensures
        ({
            let shape = g[naming::generated(g, i)];
            let there = NameView { namespace: SpaceView::Named(space), name: own.name };
            let owned = |n: NameView| s.processed.contains_key(n) && s.processed[n].id == shape.id;
            &&& action is Inherit ==> {
                &&& shape::is_container(shape) && owned(there) ==> walk::stands_in(g, s, i, space)
                    == Step::Done(true)
                &&& !s.processed.contains_key(there) ==> walk::stands_in(g, s, i, space)
                    == Step::Done(false)
                &&& s.processed.contains_key(there) && !owned(there) ==> walk::stands_in(
                    g,
                    s,
                    i,
                    space,
                ) is Fail
            }
            &&& !shape::is_container(shape) ==> walk::stands_in(g, s, i, space) != Step::Done(true)
        }),
        ({
            let shape = g[naming::generated(g, i)];
            action matches ActionView::SetContext(context) && context.explicit
                && context.namespace == SpaceView::Named(space) && shape::is_container(shape)
                && s.processed.contains_key(own) && s.processed[own].id == shape.id
                ==> walk::stands_in(g, s, i, space) == Step::Done(true)
        }),
        action matches ActionView::SetContext(context) && context.explicit && context.namespace
            != SpaceView::Named(space) && space.len() > 0 ==> walk::stands_in(g, s, i, space)
            != Step::Done(true),
{
}

/// A type for which a rename is recorded is not looked for in the namespace that a field moves it
/// to, nor is one that cannot be named.
pub proof fn law_not_looked_for(g: Seq<Shape>, s: State, i: int, space: Seq<char>)
    requires
        ({
            let k = naming::generated(g, i);
            ||| model::recorded_rename(g, s, k) is Some
            ||| naming::own_name(g, k) is Err
            ||| namespace::namespace_action(g[k].attributes@) is Err
        }),
    ensures
        walk::stands_in(g, s, i, space) == Step::Done(false),
{
}

/// A type that a field moves to a namespace is met once more under the context of the field, unless
/// it stands in that namespace already.
pub proof fn law_moved_is_met(g: Seq<Shape>, s: State, i: int, space: Seq<char>, room: nat)
    requires
        progress::fit(g, s, room),
        0 <= i < g.len(),
        reach::spaces(g).contains(SpaceView::Named(space)),
        walk::stands_in(g, s, i, space) == Step::Done(false),
    ensures
        walk::format_in(g, s, i, space, room) matches Step::Done(t) ==> (model::recorded_rename(
            g,
            t,
            i,
        ) is None && namespace::namespace_action(g[i].attributes@) == Ok::<ActionView, ErrorView>(
            ActionView::Inherit,
        ) ==> (naming::own_name(g, i) matches Ok(own) && (model::context(s) matches Some(context)
            ==> t.type_namespace_sources.contains_pair(
            NameView { namespace: context.namespace, name: own.name },
            context.explicit,
        )))),
        walk::format_in(g, s, i, space, room) matches Step::Done(t)
            ==> t.namespace_context_stack == s.namespace_context_stack,
{
    progress::lemma_fit_orderly(g, s, room);
    let action = ActionView::SetContext(namespace::explicit_context(SpaceView::Named(space)));
    let entered = model::enter(s, action);
    progress::lemma_enter(g, s, action, room);
    completion::lemma_reflect(g, entered, i, room, room);
    if let Step::Done(s1) = walk::reflect(g, entered, i, room) {
        progress::lemma_leave(g, s, action, s1);
        let left = model::leave(s1);
        progress::lemma_keeps_orderly(g, s, left);
        progress::lemma_walk_name(g, left, i);
        if let Step::Done(t) = walk::format_in(g, s, i, space, room) {
            assert(t == model::walk_name(g, left, i).0);
            assert(model::recorded_rename(g, t, i) == model::recorded_rename(g, left, i));
            assert(model::context(left) == model::context(s));
            if let Ok(own) = naming::own_name(g, i) {
                if let Some(context) = model::context(s) {
                    let name = NameView { namespace: context.namespace, name: own.name };
                    progress::lemma_meet_name(left, name, context.explicit);
                }
            }
        }
    }
}

} // verus!
