//! What holds of the reflection as a whole.

pub mod acceptance;
pub mod annotations;
pub mod containers;
pub mod footprint;
pub mod in_place;
pub mod opening;
pub mod reports;
pub mod scalars;
pub mod state;
pub mod structure;
pub mod tables;
pub mod texts;
pub mod variants;
pub mod views;

use vstd::prelude::*;

use crate::completion;
use crate::completion::again;
use crate::completion::closure;
use crate::error::ErrorView;
use crate::format::FormatView;
use crate::model;
use crate::model::State;
use crate::names;
use crate::names::{NameView, SpaceView};
use crate::namespace;
use crate::namespace::{ActionView, ContextView};
use crate::naming;
use crate::progress;
use crate::reach;
use crate::registry;
use crate::shape;
use crate::shape::{Def, Field, Shape, Type, UserType};
use crate::step::Step;
use crate::walk;

verus! {

// What adding a type keeps

/// Adding a type is always carried out to the end, however the types refer to each other.
pub proof fn law_adding_ends(g: Seq<Shape>, s: State, i: int)
    requires
        shape::shapes_wf(g),
        completion::at_rest(s),
        0 <= i < g.len(),
    ensures
        !(walk::reflected(g, s, i) is Stuck),
{
    completion::lemma_reflected(g, s, i);
}

/// A reference is always made to the end, and nothing but the names that have been met changes:
/// not even these, if it is made with the settled names.
pub proof fn law_referring_ends(g: Seq<Shape>, s: State, i: int, walking: bool)
    requires
        shape::shapes_wf(g),
        progress::orderly(s),
        0 <= i < g.len(),
    ensures
        !(walk::reference(g, s, i, walking).1 is Stuck),
        progress::same_but_met(s, walk::reference(g, s, i, walking).0),
        !walking ==> walk::reference(g, s, i, walking).0 == s,
{
    progress::lemma_reference(g, s, i, walking);
}

/// After a type has been added nothing is being built and no context is in force, so that
/// another one can be added.
pub proof fn law_adding_is_balanced(g: Seq<Shape>, s: State, i: int)
    requires
        shape::shapes_wf(g),
        completion::at_rest(s),
        0 <= i < g.len(),
    ensures
        walk::reflected(g, s, i) matches Step::Done(t) ==> {
            &&& t.current.len() == 0
            &&& t.namespace_context_stack.len() == 0
        },
{
    completion::lemma_reflected(g, s, i);
}

/// A name that has been taken stays taken.
pub proof fn law_names_stay_taken(g: Seq<Shape>, s: State, i: int, name: NameView)
    requires
        shape::shapes_wf(g),
        completion::at_rest(s),
        0 <= i < g.len(),
        s.processed.contains_key(name),
    ensures
        walk::reflected(g, s, i) matches Step::Done(t) ==> t.processed.contains_key(name),
{
    completion::lemma_reflected(g, s, i);
    reveal(progress::keeps_beside);
}

/// Every container of a registry has a Rust type that owns its name, if that was so before a
/// type was added. It is so of a new builder, whose registry is empty.
pub proof fn law_containers_have_owners(g: Seq<Shape>, s: State, i: int)
    requires
        shape::shapes_wf(g),
        completion::at_rest(s),
        0 <= i < g.len(),
        s.registry.dom().subset_of(s.processed.dom()),
    ensures
        walk::reflected(g, s, i) matches Step::Done(t) ==> t.registry.dom().subset_of(
            t.processed.dom(),
        ),
        model::empty_state().registry.dom().subset_of(model::empty_state().processed.dom()),
{
    completion::lemma_reflected(g, s, i);
    reveal(progress::keeps_beside);
    if let Step::Done(t) = walk::reflected(g, s, i) {
        assert forall|n: NameView| #[trigger] t.registry.dom().contains(n) implies
            t.processed.dom().contains(n) by {
            assert(t.registry.contains_key(n));
            if !t.processed.contains_key(n) {
                assert(s.registry.contains_key(n));
                assert(s.processed.dom().contains(n));
            }
        }
    }
}

/// Adding a type changes none of the containers that have an owner, and removes none.
pub proof fn law_containers_stay(g: Seq<Shape>, s: State, i: int, name: NameView)
    requires
        shape::shapes_wf(g),
        completion::at_rest(s),
        0 <= i < g.len(),
        s.registry.contains_key(name),
        s.processed.contains_key(name),
    ensures
        walk::reflected(g, s, i) matches Step::Done(t) ==> {
            &&& t.registry.contains_key(name)
            &&& t.registry[name] == s.registry[name]
        },
{
    completion::lemma_reflected(g, s, i);
    reveal(progress::keeps_beside);
}

/// The names that are taken are those of the containers.
pub open spec fn in_step(s: State) -> bool {
    s.registry.dom() == s.processed.dom()
}

/// The names that are taken are those of the containers, if that was so before a type was added:
/// every one gets its container, and nothing else stays in the registry. It is so of a new
/// builder. A struct or an enum that is a transparent wrapper is to have a type behind it.
pub proof fn law_owners_have_containers(g: Seq<Shape>, s: State, i: int)
    requires
        shape::shapes_wf(g),
        completion::at_rest(s),
        0 <= i < g.len(),
        progress::is_backed(g),
        in_step(s),
    ensures
        walk::reflected(g, s, i) matches Step::Done(t) ==> in_step(t),
        in_step(model::empty_state()),
{
    assert(in_step(model::empty_state()));
    completion::lemma_reflected(g, s, i);
    reveal(progress::keeps_beside);
    if let Step::Done(t) = walk::reflected(g, s, i) {
        assert(progress::registers(g, s, t, Set::empty()));
        assert forall|n: NameView| t.registry.dom().contains(n) == #[trigger]
            t.processed.dom().contains(n) by {
            assert(t.registry.contains_key(n) == t.registry.dom().contains(n));
            assert(s.registry.dom().contains(n) == s.processed.dom().contains(n));
            if s.processed.contains_key(n) {
                assert(s.registry.contains_key(n));
            }
        }
        assert(t.registry.dom() =~= t.processed.dom());
    }
}

/// Adding a type of one table keeps a state well named for another one, if the tables tell alike
/// of the types that they share. That of a new builder is well named for every table.
pub proof fn law_stays_well_named(g: Seq<Shape>, h: Seq<Shape>, s: State, i: int)
    requires
        shape::shapes_wf(g),
        completion::at_rest(s),
        0 <= i < g.len(),
        completion::tell_alike(g, h),
        completion::well_named(h, s),
    ensures
        walk::reflected(g, s, i) matches Step::Done(t) ==> completion::well_named(h, t),
        completion::well_named(h, model::empty_state()),
{
    completion::lemma_reflected(g, s, i);
    if let Step::Done(t) = walk::reflected(g, s, i) {
        completion::lemma_stays_well_named(g, h, s, t);
    }
}

/// Adding a type leaves no reference without its container: a registry that is closed stays
/// closed, and that of a new builder is. The types are to be regular, and those that were added
/// before are to be named as in the table.
pub proof fn law_registry_stays_closed(g: Seq<Shape>, s: State, i: int)
    requires
        shape::shapes_wf(g),
        completion::at_rest(s),
        0 <= i < g.len(),
        completion::all_regular(g),
        completion::well_named(g, s),
        in_step(s),
        registry::is_closed(s.registry),
    ensures
        walk::reflected(g, s, i) matches Step::Done(t) ==> {
            &&& registry::is_closed(t.registry)
            &&& in_step(t)
            &&& completion::at_rest(t)
            &&& completion::well_named(g, t)
        },
        registry::is_closed(model::empty_state().registry),
{
    law_stays_well_named(g, g, s, i);
    lemma_regular_is_backed(g);
    law_owners_have_containers(g, s, i);
    completion::lemma_reflected(g, s, i);
    closure::lemma_reflected(g, s, i);
    if let Step::Done(t) = walk::reflected(g, s, i) {
        assert forall|n: NameView, format: FormatView, m: NameView|
            #![trigger registry::part_of(t.registry[n], format), registry::refers(format, m)]
            t.registry.contains_key(n) && registry::part_of(t.registry[n], format)
                && registry::refers(format, m) implies t.registry.contains_key(m) by {
            assert(closure::mentions(t.registry[n], m));
            if s.registry.contains_key(n) && t.registry[n] == s.registry[n] {
                assert(s.registry.contains_key(m));
                assert(s.processed.dom().contains(m));
                law_containers_stay(g, s, i, m);
            } else {
                assert(t.processed.dom().contains(m));
            }
        }
    }
}

/// In a regular table every struct or enum that is a wrapper has a type behind it.
proof fn lemma_regular_is_backed(g: Seq<Shape>)
    requires
        completion::all_regular(g),
    ensures
        progress::is_backed(g),
{
    assert forall|i: int|
        0 <= i < g.len() && shape::is_container(#[trigger] g[i]) && shape::is_transparent(
            g[i],
        ) implies naming::inner_of(g, i) is Some by {
        if naming::inner_of(g, i) is None {
            assert(completion::is_regular(g[i]));
        }
    }
}

/// A struct or an enum, other than an option, behind any chain of transparent wrappers.
pub open spec fn is_generated_container(g: Seq<Shape>, i: int) -> bool {
    let k = naming::generated(g, i);
    &&& 0 <= i < g.len()
    &&& shape::is_container(g[k])
    &&& !(g[k].def is Option)
    &&& !shape::is_transparent(g[k])
}

/// What is known of a struct or an enum once it has been added: it owns the name that the builder
/// settles on for it, and it will be given that name again.
proof fn lemma_added(g: Seq<Shape>, s: State, i: int)
    requires
        shape::shapes_wf(g),
        completion::at_rest(s),
        is_generated_container(g, i),
    ensures
        walk::reflected(g, s, i) matches Step::Done(t) ==> {
            let k = naming::generated(g, i);
            &&& model::settled_name(g, t, k) matches Step::Done(q) && t.processed.contains_key(q)
                && t.processed[q].id == g[k].id
            &&& model::walk_name(g, t, k).1 == model::settled_name(g, t, k)
            &&& model::meet_params(t, g[k]) == (t, true)
        },
{
    naming::lemma_generated(g, i);
    let k = naming::generated(g, i);
    let room = reach::candidates(g).len();
    completion::lemma_reflected(g, s, i);
    completion::lemma_reflected(g, s, k);
    assert(walk::reflected(g, s, i) == walk::reflected(g, s, k));
    if let Step::Done(t) = walk::reflected(g, s, k) {
        let (s1, supported) = model::meet_params(s, g[k]);
        progress::lemma_meet_params(g, s, g[k]);
        progress::lemma_keeps_orderly(g, s, s1);
        progress::lemma_keeps_orderly(g, s, t);
        completion::lemma_fit_at_rest(g, s);
        completion::lemma_reflect_names(g, s, k, room);
        completion::lemma_reflect_owns(g, s, k, room);
        again::lemma_params_met(g, s, k, room, t);
        assert(model::context(s) is None && model::context(t) is None);
        let key = names::root_name(g[k].type_identifier@);
        progress::lemma_walk_name(g, s, k);
        if model::recorded_rename(g, t, k) is Some {
            assert(progress::is_kept(t, key, t.name_mappings[key]));
        } else if let Some(renamed) = model::recorded_rename(g, s, k) {
            // The type owned the recorded name, so nothing was reflected.
            assert(progress::is_kept(s, key, s.name_mappings[key]));
            assert(t.name_mappings == s.name_mappings);
        } else {
            let own = naming::own_name(g, k)->Ok_0;
            let action = namespace::namespace_action(g[k].attributes@)->Ok_0;
            assert(model::walk_name(g, s, k).1 == Step::Done(own));
            if namespace::action_is_explicit(action) {
                again::lemma_met_name(g, s, k, room, t);
                again::lemma_met_again(t, own);
            }
        }
    }
}

/// Adding a type a second time leaves the registry as it is, and takes no name. The types that were
/// added before are to be named as in the table.
pub proof fn law_adding_twice(g: Seq<Shape>, s: State, i: int)
    requires
        shape::shapes_wf(g),
        completion::at_rest(s),
        0 <= i < g.len(),
        completion::well_named(g, s),
    ensures
        walk::reflected(g, s, i) matches Step::Done(t) ==> (walk::reflected(g, t, i)
            matches Step::Done(u) && u.registry == t.registry && u.processed == t.processed),
{
    let room = reach::candidates(g).len();
    law_stays_well_named(g, g, s, i);
    completion::lemma_fit_at_rest(g, s);
    again::lemma_reflect_again(g, s, i, room, room);
}

/// The same for a struct or an enum, whatever was added before.
pub proof fn law_adding_container_twice(g: Seq<Shape>, s: State, i: int)
    requires
        shape::shapes_wf(g),
        completion::at_rest(s),
        is_generated_container(g, i),
    ensures
        walk::reflected(g, s, i) matches Step::Done(t) ==> (walk::reflected(g, t, i)
            matches Step::Done(u) && u.registry == t.registry && u.processed == t.processed),
{
    naming::lemma_generated(g, i);
    let k = naming::generated(g, i);
    lemma_added(g, s, i);
    completion::lemma_reflected(g, s, i);
    if let Step::Done(t) = walk::reflected(g, s, i) {
        progress::lemma_walk_name(g, t, k);
    }
}

/// Every name that the type of identity `id` owns is that of a container.
pub open spec fn has_containers(s: State, id: u64) -> bool {
    forall|n: NameView| #[trigger]
        s.processed.contains_key(n) && s.processed[n].id == id ==> s.registry.contains_key(n)
}

/// The format of a struct or an enum that has been added is a reference to its own container,
/// which is registered, if what it owned before was. It owned nothing before in a new builder.
pub proof fn law_format_of_added(g: Seq<Shape>, s: State, i: int)
    requires
        shape::shapes_wf(g),
        completion::at_rest(s),
        is_generated_container(g, i),
        has_containers(s, g[naming::generated(g, i)].id),
    ensures
        walk::reflected(g, s, i) matches Step::Done(t) ==> {
            &&& has_containers(t, g[naming::generated(g, i)].id)
            &&& walk::settled_reference(g, t, i) matches Step::Done(FormatView::TypeName(q)) && {
                &&& t.registry.contains_key(q)
                &&& t.processed[q].id == g[naming::generated(g, i)].id
            }
        },
        has_containers(model::empty_state(), g[naming::generated(g, i)].id),
{
    naming::lemma_generated(g, i);
    let k = naming::generated(g, i);
    lemma_added(g, s, i);
    completion::lemma_reflected(g, s, i);
    if let Step::Done(t) = walk::reflected(g, s, i) {
        assert(progress::registers(g, s, t, Set::empty()) && progress::retains(
            s,
            t,
            Set::empty(),
        ) && progress::stay_taken(s, t)) by {
            reveal(progress::keeps_beside);
        }
        assert forall|n: NameView| #[trigger]
            t.processed.contains_key(n) && t.processed[n].id
                == g[k].id implies t.registry.contains_key(n) by {
            if s.processed.contains_key(n) {
                assert(s.processed[n] == t.processed[n]);
                assert(s.registry.contains_key(n));
            } else if !t.registry.contains_key(n) {
                let bare = choose|b: int|
                    0 <= b < g.len() && shape::is_container(#[trigger] g[b])
                        && shape::is_transparent(g[b]) && naming::inner_of(g, b) is None
                        && g[b].id == t.processed[n].id;
                assert(g[bare].id == g[k].id);
            }
        }
    }
}

/// The format of a type that has been added, whatever its structure, names registered containers
/// only. A format is to describe the type.
pub proof fn law_format_of_names_registrations(g: Seq<Shape>, s: State, i: int, name: NameView)
    requires
        shape::shapes_wf(g),
        completion::at_rest(s),
        0 <= i < g.len(),
        completion::all_regular(g),
        completion::is_regular_at(g, i),
        completion::well_named(g, s),
        in_step(s),
    ensures
        walk::reflected(g, s, i) matches Step::Done(t) ==> (walk::settled_reference(g, t, i)
            matches Step::Done(format) ==> (registry::refers(format, name)
            ==> t.registry.contains_key(name))),
{
    let room = reach::candidates(g).len();
    lemma_regular_is_backed(g);
    law_stays_well_named(g, g, s, i);
    law_owners_have_containers(g, s, i);
    completion::lemma_fit_at_rest(g, s);
    again::lemma_reflect_settles(g, s, i, room);
    if let Step::Done(t) = walk::reflected(g, s, i) {
        assert(t.processed.contains_key(name) == t.processed.dom().contains(name));
    }
}

/// Whether an annotation of the shape, or of one of its fields, sets the namespace.
pub open spec fn sets_space(shape: Shape, space: SpaceView) -> bool {
    reach::attributes_space(shape.attributes@) == space || reach::inner_spaces(shape.ty).contains(
        space,
    )
}

/// A container that is registered anew is in the root, or in a namespace that an annotation of the
/// table sets.
pub proof fn law_new_namespaces(g: Seq<Shape>, s: State, i: int, name: NameView)
    requires
        shape::shapes_wf(g),
        completion::at_rest(s),
        0 <= i < g.len(),
    ensures
        walk::reflected(g, s, i) matches Step::Done(t) ==> (t.registry.contains_key(name)
            && !s.registry.contains_key(name) ==> name.namespace is Root || exists|k: int|
            0 <= k < g.len() && sets_space(#[trigger] g[k], name.namespace)),
{
    completion::lemma_reflected(g, s, i);
    if let Step::Done(t) = walk::reflected(g, s, i) {
        reveal(progress::keeps_beside);
        if t.registry.contains_key(name) && !s.registry.contains_key(name) {
            assert(progress::within(g, s));
            assert(progress::take_within(g, s, t));
            assert(t.processed.contains_key(name));
            lemma_space_is_set(g, g.len() as int, name.namespace);
        }
    }
}

proof fn lemma_space_is_set(g: Seq<Shape>, n: int, space: SpaceView)
    requires
        0 <= n <= g.len(),
        reach::spaces_of(g, n).contains(space),
    ensures
        space is Root || exists|k: int| 0 <= k < g.len() && sets_space(#[trigger] g[k], space),
    decreases n,
{
    if n > 0 {
        if reach::spaces_of(g, n - 1).contains(space) {
            lemma_space_is_set(g, n - 1, space);
        } else {
            assert(sets_space(g[n - 1], space));
        }
    }
}

/// A name that nobody owns is free for a type, is its own once it is taken, and is then refused to
/// every other type, both types being reported.
pub proof fn law_claimed_once(g: Seq<Shape>, s: State, name: NameView, i: int, other: int)
    requires
        !s.processed.contains_key(name),
        g[naming::generated(g, other)].id != g[naming::generated(g, i)].id,
    ensures
        model::owns(g, s, name, i) == Step::Done(false),
        model::owns(g, model::take_name(g, s, name, i), name, i) == Step::Done(true),
        model::owns(g, model::take_name(g, s, name, i), name, other) == Step::<bool>::Fail(
            ErrorView::DuplicateTypeName {
                name: name.name,
                namespace: names::space_text(name.namespace),
                existing: naming::path_text(g[naming::generated(g, i)]),
                new: naming::path_text(g[naming::generated(g, other)]),
            },
        ),
{
}

/// A reference to a container that cannot be named is refused with the error of its naming, and so
/// is every reference that is made from such a one.
pub proof fn law_naming_error_is_handed_on(
    g: Seq<Shape>,
    s: State,
    i: int,
    walking: bool,
    error: ErrorView,
)
    requires
        shape::shapes_wf(g),
        0 <= i < g.len(),
    ensures
        ({
            let j = naming::generated(g, i);
            let refused = walk::reference(g, s, i, walking).1 == Step::<FormatView>::Fail(error);
            if shape::is_container(g[j]) {
                model::name_of(g, s, j, walking).1 == Step::<NameView>::Fail(error) ==> refused
            } else if let Some(fields) = walk::tuple_fields_of(g[j]) {
                walk::reference_all(g, s, fields, 0, i, walking).1 == Step::<
                    Seq<FormatView>,
                >::Fail(error) ==> refused
            } else if let Some((wrap, t)) = walk::single(g[j]) {
                walk::reference(g, s, t as int, walking).1 == Step::<FormatView>::Fail(error)
                    ==> refused
            } else if let Def::MapOf { key, value } = g[j].def {
                match walk::reference(g, s, key as int, walking) {
                    (_, Step::Fail(e)) => e == error ==> refused,
                    (s1, Step::Done(_)) => walk::reference(g, s1, value as int, walking).1
                        == Step::<FormatView>::Fail(error) ==> refused,
                    _ => true,
                }
            } else {
                true
            }
        }),
{
    naming::lemma_generated(g, i);
    assert(shape::shape_wf(g, naming::generated(g, i)));
}

/// The first of several references that is refused has them all refused with its error.
pub proof fn law_first_refusal_is_handed_on(
    g: Seq<Shape>,
    s: State,
    fields: Seq<Field>,
    from: int,
    bound: int,
    walking: bool,
    error: ErrorView,
)
    requires
        0 <= from < fields.len(),
        fields[from].shape < bound,
    ensures
        match walk::reference(g, s, fields[from].shape as int, walking) {
            (_, Step::Fail(e)) => walk::reference_all(g, s, fields, from, bound, walking).1
                == Step::<Seq<FormatView>>::Fail(e),
            (s1, Step::Done(_)) => walk::reference_all(g, s1, fields, from + 1, bound, walking).1
                == Step::<Seq<FormatView>>::Fail(error) ==> walk::reference_all(
                g,
                s,
                fields,
                from,
                bound,
                walking,
            ).1 == Step::<Seq<FormatView>>::Fail(error),
            _ => true,
        },
{
}

/// A generic type keeps the type parameters that it was first met with.
pub proof fn law_parameters_stay(g: Seq<Shape>, s: State, i: int, declaration: u128)
    requires
        shape::shapes_wf(g),
        completion::at_rest(s),
        0 <= i < g.len(),
        s.generic_type_params.contains_key(declaration),
    ensures
        walk::reflected(g, s, i) matches Step::Done(t) ==> {
            &&& t.generic_type_params.contains_key(declaration)
            &&& t.generic_type_params[declaration] == s.generic_type_params[declaration]
        },
{
    completion::lemma_reflected(g, s, i);
    reveal(progress::keeps_beside);
}

/// No two names that are met in the course of adding types stand in each other's way: where the
/// same name lives in two named namespaces, both were set explicitly.
pub proof fn law_names_agree(g: Seq<Shape>, s: State, i: int, a: NameView, b: NameView)
    requires
        shape::shapes_wf(g),
        completion::at_rest(s),
        0 <= i < g.len(),
    ensures
        walk::reflected(g, s, i) matches Step::Done(t) ==> {
            let met = t.type_namespace_sources;
            &&& met.contains_key(a)
            &&& met.contains_key(b)
            &&& a.name == b.name
            &&& a.namespace != b.namespace
            &&& !(a.namespace is Root)
            &&& !(b.namespace is Root)
        } ==> t.type_namespace_sources[a] && t.type_namespace_sources[b],
{
    completion::lemma_reflected(g, s, i);
    if let Step::Done(t) = walk::reflected(g, s, i) {
        let met = t.type_namespace_sources;
        if met.contains_key(a) && met.contains_key(b) {
            assert(!model::clashes(a, met[a], b, met[b]));
        }
    }
}

// What is refused

/// A name is refused if one that has been met stands in its way, and only then.
pub proof fn law_ambiguity(s: State, new: NameView, explicit: bool)
    requires
        progress::orderly(s),
    ensures
        model::meet_name(s, new, explicit) is Fail <==> exists|k: NameView| #[trigger]
            s.type_namespace_sources.contains_key(k) && model::clashes(
                k,
                s.type_namespace_sources[k],
                new,
                explicit,
            ),
{
    progress::lemma_meet_name(s, new, explicit);
}

/// Of two names that stand in each other's way it does not matter which is met first.
pub proof fn law_ambiguity_is_mutual(
    a: NameView,
    a_explicit: bool,
    b: NameView,
    b_explicit: bool,
)
    ensures
        model::clashes(a, a_explicit, b, b_explicit) == model::clashes(
            b,
            b_explicit,
            a,
            a_explicit,
        ),
{
}

/// A struct or an enum, other than an option, that is not behind a transparent wrapper.
pub open spec fn is_plain_container(g: Seq<Shape>, j: int) -> bool {
    &&& 0 <= j < g.len()
    &&& shape::is_container(g[j])
    &&& !(g[j].def is Option)
    &&& naming::inner_of(g, j) is None
}

/// A container whose name another Rust type owns is refused, and both types are reported.
pub proof fn law_duplicate_name(g: Seq<Shape>, s: State, j: int, name: NameView, room: nat)
    requires
        is_plain_container(g, j),
        model::meet_params(s, g[j]).1,
        model::walk_name(g, s, j).1 == Step::Done(name),
        s.processed.contains_key(name),
        s.processed[name].id != g[j].id,
        progress::orderly(s),
    ensures
        walk::reflect(g, s, j, room) == Step::<State>::Fail(
            ErrorView::DuplicateTypeName {
                name: name.name,
                namespace: names::space_text(name.namespace),
                existing: s.processed[name].rust_path,
                new: naming::path_text(g[j]),
            },
        ),
{
    lemma_reflect_opens(g, s, j, room);
    progress::lemma_walk_name(g, s, j);
    assert(naming::generated(g, j) == j);
}

/// A container that the Rust type already owns is not reflected again: recursion ends there, and
/// a type that is added twice is registered once.
pub proof fn law_reflected_once(g: Seq<Shape>, s: State, j: int, name: NameView, room: nat)
    requires
        is_plain_container(g, j),
        model::meet_params(s, g[j]).1,
        model::walk_name(g, s, j).1 == Step::Done(name),
        s.processed.contains_key(name),
        s.processed[name].id == g[j].id,
        progress::orderly(s),
    ensures
        walk::reflect(g, s, j, room) matches Step::Done(t) && {
            &&& t.registry == s.registry
            &&& t.processed == s.processed
            &&& t.name_mappings == s.name_mappings
        },
{
    lemma_reflect_opens(g, s, j, room);
    progress::lemma_walk_name(g, s, j);
    assert(naming::generated(g, j) == j);
}

/// Meeting the type parameters of a type does not change how it is opened.
proof fn lemma_reflect_opens(g: Seq<Shape>, s: State, j: int, room: nat)
    requires
        is_plain_container(g, j),
        model::meet_params(s, g[j]).1,
    ensures
        ({
            let s1 = model::meet_params(s, g[j]).0;
            &&& s1 == (State { generic_type_params: s1.generic_type_params, ..s })
            &&& model::walk_name(g, s1, j) == (
                (State {
                    generic_type_params: s1.generic_type_params,
                    ..model::walk_name(g, s, j).0
                }),
                model::walk_name(g, s, j).1,
            )
            &&& walk::reflect(g, s, j, room) == (match g[j].ty {
                Type::User(UserType::Struct(_)) => walk::format_struct(g, s1, j, room),
                _ => walk::format_enum(g, s1, j, room),
            })
        }),
{
}

/// A generic type that is not one of the known ones is refused if its declaration was first met
/// with other type parameters.
pub proof fn law_other_parameters(g: Seq<Shape>, s: State, i: int, room: nat)
    requires
        0 <= i < g.len(),
        ({
            let shape = g[naming::generated(g, i)];
            &&& !model::is_free_of_params(shape)
            &&& s.generic_type_params.contains_key(shape.decl_id)
            &&& s.generic_type_params[shape.decl_id] != shape.type_params->0@
        }),
    ensures
        walk::reflect(g, s, i, room) == Step::<State>::Fail(
            ErrorView::UnsupportedGenericType(g[naming::generated(g, i)].display@),
        ),
{
    naming::lemma_generated(g, i);
}

// Names and namespaces

/// A namespace that a type is annotated with overrides every context: the type has its own name,
/// unless a rename was recorded for it.
pub proof fn law_annotation_overrides_context(g: Seq<Shape>, s: State, i: int, name: NameView)
    requires
        model::recorded_rename(g, s, i) is None,
        namespace::namespace_action(g[i].attributes@) matches Ok(action)
            && namespace::action_is_explicit(action),
        model::walk_name(g, s, i).1 == Step::Done(name),
    ensures
        naming::own_name(g, i) == Ok::<NameView, ErrorView>(name),
{
}

/// A type without an annotation takes the namespace of the context in force, and keeps its own
/// name; with no context in force it keeps both.
pub proof fn law_context_names(g: Seq<Shape>, s: State, i: int, name: NameView)
    requires
        model::recorded_rename(g, s, i) is None,
        namespace::namespace_action(g[i].attributes@) matches Ok(action)
            && !namespace::action_is_explicit(action),
        model::walk_name(g, s, i).1 == Step::Done(name),
    ensures
        naming::own_name(g, i) matches Ok(own) && {
            &&& name.name == own.name
            &&& name.namespace == match model::context(s) {
                Some(context) => context.namespace,
                None => own.namespace,
            }
        },
{
}

/// A recorded rename is used whatever the context.
pub proof fn law_recorded_rename(g: Seq<Shape>, s: State, i: int, walking: bool, name: NameView)
    requires
        model::recorded_rename(g, s, i) == Some(name),
    ensures
        model::name_of(g, s, i, walking) == (s, Step::Done(name)),
{
}

/// The names of a chain of transparent wrappers have one owner: the type that it ends in.
pub proof fn law_wrappers_share_identity(g: Seq<Shape>, s: State, name: NameView, i: int, c: int)
    requires
        naming::inner_of(g, i) == Some(c),
    ensures
        naming::generated(g, i) == naming::generated(g, c),
        model::owns(g, s, name, i) == model::owns(g, s, name, c),
        model::take_name(g, s, name, i) == model::take_name(g, s, name, c),
{
}

/// A transparent wrapper is reflected and referred to as what it wraps, however long the chain of
/// wrappers.
pub proof fn law_wrapper_is_transparent(
    g: Seq<Shape>,
    s: State,
    i: int,
    walking: bool,
    room: nat,
)
    requires
        shape::shapes_wf(g),
        0 <= i < g.len(),
    ensures
        walk::reference(g, s, i, walking) == walk::reference(
            g,
            s,
            naming::generated(g, i),
            walking,
        ),
        walk::reflect(g, s, i, room) == walk::reflect(g, s, naming::generated(g, i), room),
        walk::register(g, s, i, room) == walk::register(g, s, naming::generated(g, i), room),
{
    naming::lemma_generated(g, i);
    let c = naming::generated(g, i);
    assert(shape::shape_wf(g, c));
    let shape = g[c];
    if !shape::is_container(shape) {
        if let Some(fields) = walk::tuple_fields_of(shape) {
            lemma_reference_all_bound(g, s, fields, 0, i, c, walking);
        }
    }
}

/// How far the shapes of the fields of a tuple are bound does not matter.
proof fn lemma_reference_all_bound(
    g: Seq<Shape>,
    s: State,
    fields: Seq<Field>,
    from: int,
    a: int,
    b: int,
    walking: bool,
)
    requires
        0 <= from,
        shape::fields_below(fields, a),
        shape::fields_below(fields, b),
    ensures
        walk::reference_all(g, s, fields, from, a, walking) == walk::reference_all(
            g,
            s,
            fields,
            from,
            b,
            walking,
        ),
    decreases fields.len() - from,
{
    if from < fields.len() {
        if let (s1, Step::Done(first)) = walk::reference(
            g,
            s,
            fields[from].shape as int,
            walking,
        ) {
            lemma_reference_all_bound(g, s1, fields, from + 1, a, b, walking);
        }
    }
}

/// Registering what a reference reaches leaves what is being built, and the innermost container, as
/// they are.
pub proof fn law_set_aside(g: Seq<Shape>, s: State, i: int, room: nat)
    ensures
        walk::nested(g, s, i, room) matches Step::Done(t) ==> {
            &&& t.current == s.current
            &&& model::innermost(t) == model::innermost(s)
        },
{
}

/// Leaving a namespace undoes entering it.
pub proof fn law_leaving_undoes_entering(s: State, action: ActionView)
    ensures
        model::leave(model::enter(s, action)) == s,
{
    let entered = model::enter(s, action);
    assert(entered.namespace_context_stack.drop_last() =~= s.namespace_context_stack);
}

/// Entering a namespace puts its context in force, and inheriting keeps the one in force.
pub proof fn law_entering_sets_context(s: State, context: ContextView)
    ensures
        model::context(model::enter(s, ActionView::Inherit)) == model::context(s),
        model::context(model::enter(s, ActionView::SetContext(context))) == (if context
            == namespace::cleared_context() {
            None
        } else {
            Some(context)
        }),
{
}

// The format of a type

/// A type whose reference reaches no container.
pub open spec fn is_structural(g: Seq<Shape>, i: int) -> bool
    decreases i, 1int, 0int,
{
    let shape = g[naming::generated(g, i)];
    if shape::is_container(shape) {
        false
    } else if let Some(fields) = walk::tuple_fields_of(shape) {
        all_structural(g, fields, 0, i)
    } else if let Some((_, t)) = walk::single(shape) {
        t < i && is_structural(g, t as int)
    } else {
        match shape.def {
            Def::MapOf { key, value } => key < i && value < i && is_structural(g, key as int)
                && is_structural(g, value as int),
            Def::Undefined => shape.type_identifier@ == "()"@,
            _ => true,
        }
    }
}

pub open spec fn all_structural(g: Seq<Shape>, fields: Seq<Field>, from: int, bound: int) -> bool
    decreases bound, 0int, fields.len() - from,
{
    from < 0 || from >= fields.len() || fields[from].shape < bound && is_structural(
        g,
        fields[from].shape as int,
    ) && all_structural(g, fields, from + 1, bound)
}

/// A structural type is described without naming anything: its format refers to no container,
/// and depends neither on the state nor on how containers are named.
pub proof fn law_structural_names_nothing(g: Seq<Shape>, s: State, i: int, walking: bool)
    requires
        is_structural(g, i),
    ensures
        walk::reference(g, s, i, walking) == (
            s,
            walk::reference(g, model::empty_state(), i, false).1,
        ),
        walk::reference(g, s, i, walking).1 matches Step::Done(format) ==> forall|m: NameView|
            !#[trigger] registry::refers(format, m),
    decreases i, 1int, 0int,
{
    let shape = g[naming::generated(g, i)];
    let none = model::empty_state();
    if let Some(fields) = walk::tuple_fields_of(shape) {
        lemma_structural_all(g, s, fields, 0, i, walking);
        if let Step::Done(formats) = walk::reference_all(g, s, fields, 0, i, walking).1 {
            assert forall|m: NameView| !#[trigger] registry::refers(
                FormatView::Tuple(formats),
                m,
            ) by {
                if registry::refers(FormatView::Tuple(formats), m) {
                    let k = choose|k: int|
                        0 <= k < formats.len() && registry::refers(#[trigger] formats[k], m);
                    assert(!registry::refers(formats[k], m));
                }
            }
        }
    } else if let Some((wrap, t)) = walk::single(shape) {
        law_structural_names_nothing(g, s, t as int, walking);
        if let Step::Done(format) = walk::reference(g, s, t as int, walking).1 {
            assert forall|m: NameView| !#[trigger] registry::refers(
                walk::wrapped(wrap, format),
                m,
            ) by {
                assert(!registry::refers(format, m));
            }
        }
    } else if let Def::MapOf { key, value } = shape.def {
        law_structural_names_nothing(g, s, key as int, walking);
        law_structural_names_nothing(g, none, key as int, false);
        law_structural_names_nothing(g, s, value as int, walking);
        if let (Step::Done(k), Step::Done(v)) = (
            walk::reference(g, s, key as int, walking).1,
            walk::reference(g, s, value as int, walking).1,
        ) {
            assert forall|m: NameView| !#[trigger] registry::refers(
                FormatView::MapOf { key: Box::new(k), value: Box::new(v) },
                m,
            ) by {
                assert(!registry::refers(k, m) && !registry::refers(v, m));
            }
        }
    } else if let Step::Done(format) = walk::reference(g, s, i, walking).1 {
        assert(forall|m: NameView| !#[trigger] registry::refers(format, m));
    }
}

proof fn lemma_structural_all(
    g: Seq<Shape>,
    s: State,
    fields: Seq<Field>,
    from: int,
    bound: int,
    walking: bool,
)
    requires
        0 <= from,
        all_structural(g, fields, from, bound),
    ensures
        walk::reference_all(g, s, fields, from, bound, walking) == (
            s,
            walk::reference_all(g, model::empty_state(), fields, from, bound, false).1,
        ),
        walk::reference_all(g, s, fields, from, bound, walking).1 matches Step::Done(formats)
            ==> forall|k: int, m: NameView|
            0 <= k < formats.len() ==> !#[trigger] registry::refers(formats[k], m),
    decreases bound, 0int, fields.len() - from,
{
    if from < fields.len() {
        let i = fields[from].shape as int;
        law_structural_names_nothing(g, s, i, walking);
        law_structural_names_nothing(g, model::empty_state(), i, false);
        lemma_structural_all(g, s, fields, from + 1, bound, walking);
        lemma_structural_all(g, model::empty_state(), fields, from + 1, bound, false);
    }
}

/// The format that a builder gives for a type is the one that a field of that type is given
/// where no context is in force.
pub proof fn law_format_of_matches_field(g: Seq<Shape>, s: State, i: int, format: FormatView)
    requires
        shape::shapes_wf(g),
        progress::orderly(s),
        0 <= i < g.len(),
        model::context(s) is None,
        walk::reference(g, s, i, true).1 == Step::Done(format),
    ensures
        walk::settled_reference(g, s, i) == Step::Done(format),
{
    lemma_settled_agrees(g, s, s, i);
}

/// Settled references depend on the recorded renames alone, and agree with those that are made
/// while nothing but names is met and no context is in force.
proof fn lemma_settled_agrees(g: Seq<Shape>, s: State, t: State, i: int)
    requires
        shape::shapes_wf(g),
        progress::orderly(t),
        0 <= i < g.len(),
        model::context(s) is None,
        progress::same_but_met(s, t),
    ensures
        walk::reference(g, t, i, true).1 is Done ==> walk::reference(g, s, i, false).1
            == walk::reference(g, t, i, true).1,
    decreases i, 1int, 0int,
{
    naming::lemma_generated(g, i);
    let j = naming::generated(g, i);
    let shape = g[j];
    assert(shape::shape_wf(g, j));
    progress::lemma_reference(g, t, i, true);
    if shape::is_container(shape) {
        lemma_settled_name(g, s, t, j);
    } else if let Some(fields) = walk::tuple_fields_of(shape) {
        lemma_settled_all_agree(g, s, t, fields, 0, i);
    } else if let Some((wrap, inner)) = walk::single(shape) {
        lemma_settled_agrees(g, s, t, inner as int);
        lemma_settled_unchanged(g, s, inner as int);
    } else {
        lemma_settled_name(g, s, t, j);
        if let Def::MapOf { key, value } = shape.def {
            lemma_settled_agrees(g, s, t, key as int);
            lemma_settled_unchanged(g, s, key as int);
            progress::lemma_reference(g, t, key as int, true);
            let t1 = walk::reference(g, t, key as int, true).0;
            progress::lemma_keeps_orderly(g, t, t1);
            lemma_settled_agrees(g, s, t1, value as int);
            lemma_settled_unchanged(g, s, value as int);
        }
    }
}

proof fn lemma_settled_name(g: Seq<Shape>, s: State, t: State, j: int)
    requires
        model::context(s) is None,
        progress::same_but_met(s, t),
    ensures
        model::walk_name(g, t, j).1 is Done ==> model::settled_name(g, s, j)
            == model::walk_name(g, t, j).1,
{
    assert(model::recorded_rename(g, t, j) == model::recorded_rename(g, s, j));
    assert(model::context(t) is None);
}

/// A settled reference changes nothing.
proof fn lemma_settled_unchanged(g: Seq<Shape>, s: State, i: int)
    requires
        shape::shapes_wf(g),
        0 <= i < g.len(),
    ensures
        walk::reference(g, s, i, false).0 == s,
    decreases i, 1int, 0int,
{
    naming::lemma_generated(g, i);
    let j = naming::generated(g, i);
    let shape = g[j];
    assert(shape::shape_wf(g, j));
    if shape::is_container(shape) {
    } else if let Some(fields) = walk::tuple_fields_of(shape) {
        lemma_settled_all_unchanged(g, s, fields, 0, i);
    } else if let Some((wrap, inner)) = walk::single(shape) {
        lemma_settled_unchanged(g, s, inner as int);
    } else if let Def::MapOf { key, value } = shape.def {
        lemma_settled_unchanged(g, s, key as int);
        lemma_settled_unchanged(g, s, value as int);
    }
}

proof fn lemma_settled_all_unchanged(
    g: Seq<Shape>,
    s: State,
    fields: Seq<Field>,
    from: int,
    bound: int,
)
    requires
        shape::shapes_wf(g),
        0 <= from,
        bound <= g.len(),
        shape::fields_below(fields, bound),
    ensures
        walk::reference_all(g, s, fields, from, bound, false).0 == s,
    decreases bound, 0int, fields.len() - from,
{
    if from < fields.len() {
        lemma_settled_unchanged(g, s, fields[from].shape as int);
        lemma_settled_all_unchanged(g, s, fields, from + 1, bound);
    }
}

proof fn lemma_settled_all_agree(
    g: Seq<Shape>,
    s: State,
    t: State,
    fields: Seq<Field>,
    from: int,
    bound: int,
)
    requires
        shape::shapes_wf(g),
        progress::orderly(t),
        0 <= from,
        bound <= g.len(),
        shape::fields_below(fields, bound),
        model::context(s) is None,
        progress::same_but_met(s, t),
    ensures
        walk::reference_all(g, t, fields, from, bound, true).1 is Done ==> walk::reference_all(
            g,
            s,
            fields,
            from,
            bound,
            false,
        ).1 == walk::reference_all(g, t, fields, from, bound, true).1,
    decreases bound, 0int, fields.len() - from,
{
    if from < fields.len() {
        let i = fields[from].shape as int;
        lemma_settled_agrees(g, s, t, i);
        lemma_settled_unchanged(g, s, i);
        progress::lemma_reference(g, t, i, true);
        let t1 = walk::reference(g, t, i, true).0;
        progress::lemma_keeps_orderly(g, t, t1);
        lemma_settled_all_agree(g, s, t1, fields, from + 1, bound);
    }
}

} // verus!
