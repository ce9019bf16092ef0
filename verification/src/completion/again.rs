//! What was registered once is left as it is when it is reached again.

use vstd::prelude::*;

use crate::completion;
use crate::format::FormatView;
use crate::model;
use crate::model::State;
use crate::names;
use crate::names::NameView;
use crate::namespace;
use crate::naming;
use crate::progress;
use crate::registry;
use crate::shape;
use crate::shape::{Def, Field, PointerType, SequenceType, Shape, StructKind, Type, UserType};
use crate::step::Step;
use crate::walk;
use crate::walk::Wrap;

verus! {

// Containers

/// Whoever is reflected has been met with its type parameters.
pub proof fn lemma_params_met(g: Seq<Shape>, s: State, k: int, room: nat, t: State)
    requires
        progress::fit(g, s, room),
        0 <= k < g.len(),
        naming::inner_of(g, k) is None,
        walk::reflect(g, s, k, room) == Step::Done(t),
    ensures
        model::meet_params(t, g[k]) == (t, true),
{
    progress::lemma_fit_orderly(g, s, room);
    assert(naming::generated(g, k) == k);
    let (s1, supported) = model::meet_params(s, g[k]);
    progress::lemma_meet_params(g, s, g[k]);
    progress::lemma_fit_after(g, s, s1, room);
    assert(model::meet_params(s1, g[k]) == (s1, true));
    // Reflecting from the state in which the type has been met comes to the same.
    assert(walk::reflect(g, s1, k, room) == walk::reflect(g, s, k, room));
    completion::lemma_reflect(g, s1, k, room, room);
    assert(progress::keeps(g, s1, t));
    reveal(progress::keeps_beside);
}

/// A type that sets its namespace explicitly has been met under its own name once it is
/// reflected.
pub proof fn lemma_met_name(g: Seq<Shape>, s: State, k: int, room: nat, t: State)
    requires
        progress::fit(g, s, room),
        0 <= k < g.len(),
        naming::inner_of(g, k) is None,
        shape::is_container(g[k]),
        !(g[k].def is Option),
        model::recorded_rename(g, s, k) is None,
        namespace::namespace_action(g[k].attributes@) matches Ok(action)
            && namespace::action_is_explicit(action),
        walk::reflect(g, s, k, room) == Step::Done(t),
    ensures
        naming::own_name(g, k) matches Ok(own) && t.type_namespace_sources.contains_key(own),
{
    progress::lemma_fit_orderly(g, s, room);
    assert(naming::generated(g, k) == k);
    let (s1, supported) = model::meet_params(s, g[k]);
    progress::lemma_meet_params(g, s, g[k]);
    progress::lemma_fit_after(g, s, s1, room);
    progress::lemma_fit_orderly(g, s1, room);
    let own = naming::own_name(g, k)->Ok_0;
    let (s2, named) = model::walk_name(g, s1, k);
    progress::lemma_walk_name(g, s1, k);
    progress::lemma_fit_after(g, s1, s2, room);
    progress::lemma_fit_orderly(g, s2, room);
    assert(s2.type_namespace_sources.contains_key(own));
    assert(s2.type_namespace_sources[own]);
    // Reflecting from the state in which the name has been met comes to the same.
    lemma_met_again(s2, own);
    assert(model::meet_params(s2, g[k]) == (s2, true));
    assert(s2.type_namespace_sources.insert(own, true) =~= s2.type_namespace_sources);
    assert(model::walk_name(g, s2, k) == (s2, named));
    assert(walk::reflect(g, s2, k, room) == walk::reflect(g, s, k, room));
    completion::lemma_reflect(g, s2, k, room, room);
    progress::lemma_keeps_orderly(g, s2, t);
    assert(s2.type_namespace_sources.dom().contains(own));
}

/// A name that is in the root or has been met can be met again explicitly.
pub proof fn lemma_met_again(t: State, own: NameView)
    requires
        progress::orderly(t),
        own.namespace is Root || t.type_namespace_sources.contains_key(own),
    ensures
        model::meet_name(t, own, true) is Done,
{
    progress::lemma_meet_name(t, own, true);
    if model::meet_name(t, own, true) is Fail {
        let k = choose|k: NameView| #[trigger]
            t.type_namespace_sources.contains_key(k) && model::clashes(
                k,
                t.type_namespace_sources[k],
                own,
                true,
            );
        assert(!model::clashes(
            k,
            t.type_namespace_sources[k],
            own,
            t.type_namespace_sources[own],
        ));
    }
}

/// A container that has been registered outside any context: it owns its own name, and it can be
/// met again.
pub open spec fn is_quiet(g: Seq<Shape>, u: State, k: int) -> bool {
    &&& model::meet_params(u, g[k]) == (u, true)
    &&& match (naming::own_name(g, k), namespace::namespace_action(g[k].attributes@)) {
        (Ok(own), Ok(action)) => {
            &&& u.processed.contains_key(own)
            &&& u.processed[own].id == g[k].id
            &&& namespace::action_is_explicit(action) ==> own.namespace is Root
                || u.type_namespace_sources.contains_key(own)
        },
        _ => false,
    }
}

/// A state that is later than `u`, or in which more names have been met.
pub open spec fn is_later(u: State, v: State) -> bool {
    &&& progress::stay_taken(u, v)
    &&& u.type_namespace_sources.dom().subset_of(v.type_namespace_sources.dom())
    &&& forall|d: u128| #[trigger]
        u.generic_type_params.contains_key(d) ==> v.generic_type_params.contains_key(d)
            && v.generic_type_params[d] == u.generic_type_params[d]
}

proof fn lemma_kept_is_later(g: Seq<Shape>, u: State, v: State)
    requires
        progress::keeps(g, u, v),
    ensures
        is_later(u, v),
{
    reveal(progress::keeps_beside);
}

proof fn lemma_quiet_stays(g: Seq<Shape>, u: State, v: State, k: int)
    requires
        is_quiet(g, u, k),
        is_later(u, v),
    ensures
        is_quiet(g, v, k),
{
    let own = naming::own_name(g, k)->Ok_0;
    assert(v.processed.contains_key(own) && v.processed[own] == u.processed[own]);
    if u.type_namespace_sources.contains_key(own) {
        assert(u.type_namespace_sources.dom().contains(own));
        assert(v.type_namespace_sources.contains_key(own));
    }
    if !model::is_free_of_params(g[k]) {
        assert(u.generic_type_params.contains_key(g[k].decl_id));
    }
}

/// A quiet container is given a name that it owns.
proof fn lemma_quiet_name(g: Seq<Shape>, u: State, k: int)
    requires
        progress::orderly(u),
        model::context(u) is None,
        naming::inner_of(g, k) is None,
        is_quiet(g, u, k),
    ensures
        progress::same_but_met(u, model::walk_name(g, u, k).0),
        progress::orderly(model::walk_name(g, u, k).0),
        model::walk_name(g, u, k).1 matches Step::Done(name) && u.processed.contains_key(name)
            && u.processed[name].id == g[k].id,
{
    progress::lemma_walk_name(g, u, k);
    assert(naming::generated(g, k) == k);
    let key = names::root_name(g[k].type_identifier@);
    if model::recorded_rename(g, u, k) is Some {
        assert(progress::is_kept(u, key, u.name_mappings[key]));
    } else {
        let own = naming::own_name(g, k)->Ok_0;
        if namespace::action_is_explicit(namespace::namespace_action(g[k].attributes@)->Ok_0) {
            lemma_met_again(u, own);
        }
    }
}

/// Reflecting a quiet container changes nothing but what has been met.
proof fn lemma_quiet_reflect(g: Seq<Shape>, u: State, k: int, room: nat)
    requires
        0 <= k < g.len(),
        progress::orderly(u),
        model::context(u) is None,
        naming::inner_of(g, k) is None,
        shape::is_container(g[k]),
        !(g[k].def is Option),
        is_quiet(g, u, k),
    ensures
        walk::reflect(g, u, k, room) matches Step::Done(v) && progress::same_but_met(u, v)
            && progress::orderly(v),
{
    assert(naming::generated(g, k) == k);
    lemma_quiet_name(g, u, k);
    let (v, named) = model::walk_name(g, u, k);
    assert(walk::open_container(g, u, k) == Step::Done((v, None::<NameView>)));
}

/// A container that has been reflected outside any context is quiet.
proof fn lemma_reflect_quiets(g: Seq<Shape>, s: State, k: int, room: nat)
    requires
        progress::fit(g, s, room),
        0 <= k < g.len(),
        model::context(s) is None,
        naming::inner_of(g, k) is None,
        shape::is_container(g[k]),
        !(g[k].def is Option),
    ensures
        walk::reflect(g, s, k, room) matches Step::Done(t) ==> (completion::well_named(g, t)
            ==> is_quiet(g, t, k)),
{
    progress::lemma_fit_orderly(g, s, room);
    completion::lemma_reflect(g, s, k, room, room);
    assert(naming::generated(g, k) == k);
    if let Step::Done(t) = walk::reflect(g, s, k, room) {
        progress::lemma_keeps_orderly(g, s, t);
        lemma_params_met(g, s, k, room, t);
        if completion::well_named(g, t) {
            let key = names::root_name(g[k].type_identifier@);
            if let Some(renamed) = model::recorded_rename(g, s, k) {
                assert(progress::is_kept(s, key, s.name_mappings[key]));
                assert(t.processed.contains_key(renamed));
                assert(g[k] == g[k]);
                assert(progress::goes_by(g, k, renamed));
            } else {
                completion::lemma_reflect_names(g, s, k, room);
                completion::lemma_reflect_owns(g, s, k, room);
                let own = naming::own_name(g, k)->Ok_0;
                let action = namespace::namespace_action(g[k].attributes@)->Ok_0;
                assert(model::walk_name(g, s, k).1 == Step::Done(own));
                if namespace::action_is_explicit(action) {
                    lemma_met_name(g, s, k, room, t);
                }
            }
        }
    }
}

// What a reference reaches

/// Every container that registering the shape at `i` reaches is quiet.
pub open spec fn all_quiet(g: Seq<Shape>, u: State, i: int) -> bool
    decreases i, 1int,
{
    let k = naming::generated(g, i);
    let shape = g[k];
    if !(0 <= k <= i) {
        false
    } else if let Def::Option(t) = shape.def {
        quiet_below(g, u, t as int, k)
    } else {
        match shape.ty {
            Type::User(UserType::Struct(st)) => if st.kind == StructKind::Tuple {
                quiet_fields(g, u, st.fields@, k)
            } else {
                is_quiet(g, u, k)
            },
            Type::User(UserType::Enum(_)) => is_quiet(g, u, k),
            Type::Pointer(PointerType::Reference(t)) => quiet_below(g, u, t as int, k),
            Type::Pointer(PointerType::Raw(t)) => quiet_below(g, u, t as int, k),
            _ => match shape.def {
                Def::List(t) => quiet_below(g, u, t as int, k),
                Def::Slice(t) => quiet_below(g, u, t as int, k),
                Def::SetOf(t) => quiet_below(g, u, t as int, k),
                Def::Array { item, size } => quiet_below(g, u, item as int, k),
                Def::MapOf { key, value } => quiet_below(g, u, key as int, k) && quiet_below(
                    g,
                    u,
                    value as int,
                    k,
                ),
                Def::Pointer(Some(t)) => quiet_below(g, u, t as int, k),
                _ => true,
            },
        }
    }
}

pub open spec fn quiet_below(g: Seq<Shape>, u: State, i: int, bound: int) -> bool
    decreases bound, 0int,
{
    0 <= i < bound && all_quiet(g, u, i)
}

pub open spec fn quiet_fields(g: Seq<Shape>, u: State, fields: Seq<Field>, bound: int) -> bool
    decreases bound, 0int,
{
    forall|f: int|
        0 <= f < fields.len() ==> (#[trigger] fields[f]).shape < bound && all_quiet(
            g,
            u,
            fields[f].shape as int,
        )
}

proof fn lemma_all_quiet_stays(g: Seq<Shape>, u: State, v: State, i: int)
    requires
        all_quiet(g, u, i),
        is_later(u, v),
    ensures
        all_quiet(g, v, i),
    decreases i,
{
    let k = naming::generated(g, i);
    let shape = g[k];
    if let Def::Option(t) = shape.def {
        lemma_all_quiet_stays(g, u, v, t as int);
    } else {
        match shape.ty {
            Type::User(UserType::Struct(st)) => if st.kind == StructKind::Tuple {
                let fields = st.fields@;
                assert forall|f: int| 0 <= f < fields.len() implies (#[trigger] fields[f]).shape
                    < k && all_quiet(g, v, fields[f].shape as int) by {
                    lemma_all_quiet_stays(g, u, v, fields[f].shape as int);
                }
            } else {
                lemma_quiet_stays(g, u, v, k);
            },
            Type::User(UserType::Enum(_)) => {
                lemma_quiet_stays(g, u, v, k);
            },
            Type::Pointer(PointerType::Reference(t)) => {
                lemma_all_quiet_stays(g, u, v, t as int);
            },
            Type::Pointer(PointerType::Raw(t)) => {
                lemma_all_quiet_stays(g, u, v, t as int);
            },
            _ => match shape.def {
                Def::List(t) => lemma_all_quiet_stays(g, u, v, t as int),
                Def::Slice(t) => lemma_all_quiet_stays(g, u, v, t as int),
                Def::SetOf(t) => lemma_all_quiet_stays(g, u, v, t as int),
                Def::Array { item, size } => lemma_all_quiet_stays(g, u, v, item as int),
                Def::MapOf { key, value } => {
                    lemma_all_quiet_stays(g, u, v, key as int);
                    lemma_all_quiet_stays(g, u, v, value as int);
                },
                Def::Pointer(Some(t)) => lemma_all_quiet_stays(g, u, v, t as int),
                _ => {},
            },
        }
    }
}

/// Everything that has been registered outside any context is quiet.
proof fn lemma_register_quiets(g: Seq<Shape>, s: State, i: int, room: nat)
    requires
        progress::fit(g, s, room),
        0 <= i < g.len(),
        model::context(s) is None,
    ensures
        walk::register(g, s, i, room) matches Step::Done(t) ==> (completion::well_named(g, t)
            ==> all_quiet(g, t, i)),
    decreases i, 1int, 0int,
{
    progress::lemma_fit_orderly(g, s, room);
    naming::lemma_generated(g, i);
    let k = naming::generated(g, i);
    let shape = g[k];
    assert(shape::shape_wf(g, k));
    if let Def::Option(t) = shape.def {
        lemma_register_quiets(g, s, t as int, room);
    } else {
        match shape.ty {
            Type::User(UserType::Struct(st)) => if st.kind == StructKind::Tuple {
                lemma_register_all_quiets(g, s, st.fields@, 0, k, room);
            } else {
                lemma_reflect_quiets(g, s, k, room);
            },
            Type::User(UserType::Enum(_)) => {
                lemma_reflect_quiets(g, s, k, room);
            },
            Type::Pointer(PointerType::Reference(t)) => {
                lemma_register_quiets(g, s, t as int, room);
            },
            Type::Pointer(PointerType::Raw(t)) => {
                lemma_register_quiets(g, s, t as int, room);
            },
            _ => match shape.def {
                Def::List(t) => lemma_register_quiets(g, s, t as int, room),
                Def::Slice(t) => lemma_register_quiets(g, s, t as int, room),
                Def::SetOf(t) => lemma_register_quiets(g, s, t as int, room),
                Def::Array { item, size } => lemma_register_quiets(g, s, item as int, room),
                Def::MapOf { key, value } => {
                    lemma_register_quiets(g, s, key as int, room);
                    completion::lemma_register_below(g, s, key as int, k, room, room);
                    if let Step::Done(s1) = walk::register_below(g, s, key as int, k, room) {
                        progress::lemma_fit_after(g, s, s1, room);
                        progress::lemma_keeps_orderly(g, s, s1);
                        lemma_register_quiets(g, s1, value as int, room);
                        completion::lemma_register_below(g, s1, value as int, k, room, room);
                        if let Step::Done(t) = walk::register_below(g, s1, value as int, k, room) {
                            lemma_quiet_after(g, s1, t, key as int);
                        }
                    }
                },
                Def::Pointer(Some(t)) => lemma_register_quiets(g, s, t as int, room),
                _ => {},
            },
        }
    }
}

/// What was quiet in a well named state is quiet after a walk.
proof fn lemma_quiet_after(g: Seq<Shape>, s: State, t: State, i: int)
    requires
        progress::keeps(g, s, t),
        completion::well_named(g, s) ==> all_quiet(g, s, i),
    ensures
        completion::well_named(g, t) ==> all_quiet(g, t, i),
{
    progress::lemma_keeps_orderly(g, s, t);
    if completion::well_named(g, t) {
        completion::lemma_well_named_before(g, s, t);
        lemma_kept_is_later(g, s, t);
        lemma_all_quiet_stays(g, s, t, i);
    }
}

proof fn lemma_register_all_quiets(
    g: Seq<Shape>,
    s: State,
    fields: Seq<Field>,
    from: int,
    bound: int,
    room: nat,
)
    requires
        progress::fit(g, s, room),
        0 <= bound < g.len(),
        0 <= from,
        shape::fields_below(fields, bound),
        model::context(s) is None,
    ensures
        walk::register_all(g, s, fields, from, bound, room) matches Step::Done(t)
            ==> (completion::well_named(g, t) ==> forall|f: int|
            from <= f < fields.len() ==> (#[trigger] fields[f]).shape < bound && all_quiet(
                g,
                t,
                fields[f].shape as int,
            )),
    decreases bound, 0int, fields.len() - from,
{
    if from < fields.len() {
        let i = fields[from].shape as int;
        lemma_register_quiets(g, s, i, room);
        completion::lemma_register_below(g, s, i, bound, room, room);
        if let Step::Done(s1) = walk::register_below(g, s, i, bound, room) {
            progress::lemma_fit_after(g, s, s1, room);
            progress::lemma_keeps_orderly(g, s, s1);
            lemma_register_all_quiets(g, s1, fields, from + 1, bound, room);
            completion::lemma_register_all(g, s1, fields, from + 1, bound, room, room);
            if let Step::Done(t) = walk::register_all(g, s1, fields, from + 1, bound, room) {
                lemma_quiet_after(g, s1, t, i);
            }
        }
    }
}

/// A state that is in order and differs from `u` in nothing but what has been met.
pub open spec fn is_same_rest(u: State, v: State) -> bool {
    &&& progress::same_but_met(u, v)
    &&& progress::orderly(v)
}

/// Registering what is quiet changes nothing but what has been met.
proof fn lemma_quiet_register(g: Seq<Shape>, u: State, i: int, room: nat)
    requires
        shape::shapes_wf(g),
        0 <= i < g.len(),
        progress::orderly(u),
        model::context(u) is None,
        all_quiet(g, u, i),
    ensures
        walk::register(g, u, i, room) matches Step::Done(v) && is_same_rest(u, v),
    decreases i, 1int, 0int,
{
    naming::lemma_generated(g, i);
    let k = naming::generated(g, i);
    let shape = g[k];
    assert(shape::shape_wf(g, k));
    if let Def::Option(t) = shape.def {
        lemma_quiet_register(g, u, t as int, room);
    } else {
        match shape.ty {
            Type::User(UserType::Struct(st)) => if st.kind == StructKind::Tuple {
                lemma_quiet_register_all(g, u, st.fields@, 0, k, room);
            } else {
                lemma_quiet_reflect(g, u, k, room);
            },
            Type::User(UserType::Enum(_)) => {
                lemma_quiet_reflect(g, u, k, room);
            },
            Type::Pointer(PointerType::Reference(t)) => {
                lemma_quiet_register(g, u, t as int, room);
            },
            Type::Pointer(PointerType::Raw(t)) => {
                lemma_quiet_register(g, u, t as int, room);
            },
            _ => match shape.def {
                Def::List(t) => lemma_quiet_register(g, u, t as int, room),
                Def::Slice(t) => lemma_quiet_register(g, u, t as int, room),
                Def::SetOf(t) => lemma_quiet_register(g, u, t as int, room),
                Def::Array { item, size } => lemma_quiet_register(g, u, item as int, room),
                Def::MapOf { key, value } => {
                    lemma_quiet_register(g, u, key as int, room);
                    let v = walk::register(g, u, key as int, room)->Done_0;
                    lemma_all_quiet_stays(g, u, v, value as int);
                    lemma_quiet_register(g, v, value as int, room);
                },
                Def::Pointer(Some(t)) => lemma_quiet_register(g, u, t as int, room),
                _ => {},
            },
        }
    }
}

proof fn lemma_quiet_register_all(
    g: Seq<Shape>,
    u: State,
    fields: Seq<Field>,
    from: int,
    bound: int,
    room: nat,
)
    requires
        shape::shapes_wf(g),
        0 <= bound < g.len(),
        0 <= from,
        progress::orderly(u),
        model::context(u) is None,
        quiet_fields(g, u, fields, bound),
    ensures
        walk::register_all(g, u, fields, from, bound, room) matches Step::Done(v) && is_same_rest(
            u,
            v,
        ),
    decreases bound, 0int, fields.len() - from,
{
    if from < fields.len() {
        let i = fields[from].shape as int;
        lemma_quiet_register(g, u, i, room);
        let v = walk::register(g, u, i, room)->Done_0;
        assert forall|f: int| 0 <= f < fields.len() implies (#[trigger] fields[f]).shape < bound
            && all_quiet(g, v, fields[f].shape as int) by {
            lemma_all_quiet_stays(g, u, v, fields[f].shape as int);
        }
        lemma_quiet_register_all(g, v, fields, from + 1, bound, room);
        assert(walk::register_below(g, u, i, bound, room) == Step::Done(v));
        let w = walk::register_all(g, v, fields, from + 1, bound, room)->Done_0;
        assert(progress::same_but_met(u, w));
    }
}

// What a reference names

/// A shape that can be named again outside any context, though another rename be recorded.
pub open spec fn is_met(g: Seq<Shape>, u: State, k: int) -> bool {
    match (naming::own_name(g, k), namespace::namespace_action(g[k].attributes@)) {
        (Ok(own), Ok(action)) => namespace::action_is_explicit(action) ==> own.namespace is Root
            || u.type_namespace_sources.contains_key(own),
        _ => false,
    }
}

/// Every shape that a reference to the one at `i` names can be named again.
pub open spec fn all_met(g: Seq<Shape>, u: State, i: int) -> bool
    decreases i, 1int,
{
    let j = naming::generated(g, i);
    let shape = g[j];
    if shape::is_container(shape) {
        is_met(g, u, j)
    } else if let Some(fields) = walk::tuple_fields_of(shape) {
        met_fields(g, u, fields, i)
    } else if let Some((wrap, t)) = walk::single(shape) {
        t < i && all_met(g, u, t as int)
    } else {
        match shape.def {
            Def::MapOf { key, value } => {
                &&& key < i
                &&& value < i
                &&& all_met(g, u, key as int)
                &&& all_met(g, u, value as int)
            },
            Def::Undefined => shape.type_identifier@ == "()"@ || is_met(g, u, j),
            _ => true,
        }
    }
}

pub open spec fn met_fields(g: Seq<Shape>, u: State, fields: Seq<Field>, bound: int) -> bool
    decreases bound, 0int,
{
    forall|f: int|
        0 <= f < fields.len() ==> (#[trigger] fields[f]).shape < bound && all_met(
            g,
            u,
            fields[f].shape as int,
        )
}

proof fn lemma_met_stays(g: Seq<Shape>, u: State, v: State, k: int)
    requires
        is_met(g, u, k),
        is_later(u, v),
    ensures
        is_met(g, v, k),
{
    let own = naming::own_name(g, k)->Ok_0;
    if u.type_namespace_sources.contains_key(own) {
        assert(u.type_namespace_sources.dom().contains(own));
        assert(v.type_namespace_sources.contains_key(own));
    }
}

proof fn lemma_all_met_stays(g: Seq<Shape>, u: State, v: State, i: int)
    requires
        all_met(g, u, i),
        is_later(u, v),
    ensures
        all_met(g, v, i),
    decreases i,
{
    let j = naming::generated(g, i);
    let shape = g[j];
    if shape::is_container(shape) {
        lemma_met_stays(g, u, v, j);
    } else if let Some(fields) = walk::tuple_fields_of(shape) {
        assert(met_fields(g, u, fields, i));
        assert forall|f: int| 0 <= f < fields.len() implies (#[trigger] fields[f]).shape < i
            && all_met(g, v, fields[f].shape as int) by {
            lemma_all_met_stays(g, u, v, fields[f].shape as int);
        }
        assert(met_fields(g, v, fields, i));
    } else if let Some((wrap, t)) = walk::single(shape) {
        lemma_all_met_stays(g, u, v, t as int);
    } else if let Def::MapOf { key, value } = shape.def {
        lemma_all_met_stays(g, u, v, key as int);
        lemma_all_met_stays(g, u, v, value as int);
    } else if shape.def is Undefined && shape.type_identifier@ != "()"@ {
        lemma_met_stays(g, u, v, j);
    }
}

/// A shape that has been named outside any context can be named again.
proof fn lemma_naming_meets(g: Seq<Shape>, s: State, k: int)
    requires
        0 <= k < g.len(),
        progress::orderly(s),
        model::context(s) is None,
        completion::well_named(g, s),
        naming::inner_of(g, k) is None,
        model::walk_name(g, s, k).1 is Done,
    ensures
        is_met(g, model::walk_name(g, s, k).0, k),
{
    assert(naming::generated(g, k) == k);
    let key = names::root_name(g[k].type_identifier@);
    if let Some(renamed) = model::recorded_rename(g, s, k) {
        assert(progress::is_kept(s, key, s.name_mappings[key]));
        assert(g[k] == g[k]);
        assert(s.processed.contains_key(renamed));
        assert(progress::goes_by(g, k, renamed));
    }
}

/// A shape that can be named again is.
proof fn lemma_met_is_named(g: Seq<Shape>, u: State, k: int)
    requires
        progress::orderly(u),
        model::context(u) is None,
        is_met(g, u, k),
    ensures
        model::walk_name(g, u, k).1 is Done,
{
    if model::recorded_rename(g, u, k) is None {
        let own = naming::own_name(g, k)->Ok_0;
        if namespace::action_is_explicit(namespace::namespace_action(g[k].attributes@)->Ok_0) {
            lemma_met_again(u, own);
        }
    }
}

/// What a reference that was made outside any context names can be named again.
proof fn lemma_reference_meets(g: Seq<Shape>, s: State, i: int)
    requires
        shape::shapes_wf(g),
        0 <= i < g.len(),
        progress::orderly(s),
        model::context(s) is None,
        completion::well_named(g, s),
        walk::reference(g, s, i, true).1 is Done,
    ensures
        all_met(g, walk::reference(g, s, i, true).0, i),
    decreases i, 1int, 0int,
{
    naming::lemma_generated(g, i);
    let j = naming::generated(g, i);
    let shape = g[j];
    assert(shape::shape_wf(g, j));
    if shape::is_container(shape) {
        lemma_naming_meets(g, s, j);
    } else if let Some(fields) = walk::tuple_fields_of(shape) {
        lemma_references_meet(g, s, fields, 0, i);
        assert(met_fields(g, walk::reference(g, s, i, true).0, fields, i));
    } else if let Some((wrap, t)) = walk::single(shape) {
        lemma_reference_meets(g, s, t as int);
    } else if let Def::MapOf { key, value } = shape.def {
        lemma_reference_meets(g, s, key as int);
        progress::lemma_reference(g, s, key as int, true);
        let s1 = walk::reference(g, s, key as int, true).0;
        completion::lemma_well_named_before(g, s1, s);
        lemma_reference_meets(g, s1, value as int);
        progress::lemma_reference(g, s1, value as int, true);
        lemma_all_met_stays(g, s1, walk::reference(g, s1, value as int, true).0, key as int);
    } else if shape.def is Undefined && shape.type_identifier@ != "()"@ {
        lemma_naming_meets(g, s, j);
    }
}

proof fn lemma_references_meet(
    g: Seq<Shape>,
    s: State,
    fields: Seq<Field>,
    from: int,
    bound: int,
)
    requires
        shape::shapes_wf(g),
        0 <= bound < g.len(),
        0 <= from,
        shape::fields_below(fields, bound),
        progress::orderly(s),
        model::context(s) is None,
        completion::well_named(g, s),
        walk::reference_all(g, s, fields, from, bound, true).1 is Done,
    ensures
        forall|f: int|
            from <= f < fields.len() ==> (#[trigger] fields[f]).shape < bound && all_met(
                g,
                walk::reference_all(g, s, fields, from, bound, true).0,
                fields[f].shape as int,
            ),
    decreases bound, 0int, fields.len() - from,
{
    if from < fields.len() {
        let i = fields[from].shape as int;
        lemma_reference_meets(g, s, i);
        progress::lemma_reference(g, s, i, true);
        let s1 = walk::reference(g, s, i, true).0;
        completion::lemma_well_named_before(g, s1, s);
        lemma_references_meet(g, s1, fields, from + 1, bound);
        progress::lemma_reference_all(g, s1, fields, from + 1, bound, true);
        lemma_all_met_stays(
            g,
            s1,
            walk::reference_all(g, s1, fields, from + 1, bound, true).0,
            i,
        );
    }
}

/// A reference is made again, if what it names can be named again.
proof fn lemma_met_reference(g: Seq<Shape>, s: State, u: State, i: int)
    requires
        shape::shapes_wf(g),
        0 <= i < g.len(),
        progress::orderly(s),
        progress::orderly(u),
        model::context(u) is None,
        all_met(g, u, i),
        walk::reference(g, s, i, true).1 is Done,
    ensures
        walk::reference(g, u, i, true).1 is Done,
    decreases i, 1int, 0int,
{
    naming::lemma_generated(g, i);
    let j = naming::generated(g, i);
    let shape = g[j];
    assert(shape::shape_wf(g, j));
    if shape::is_container(shape) {
        lemma_met_is_named(g, u, j);
    } else if let Some(fields) = walk::tuple_fields_of(shape) {
        lemma_met_references(g, s, u, fields, 0, i);
    } else if let Some((wrap, t)) = walk::single(shape) {
        lemma_met_reference(g, s, u, t as int);
    } else if let Def::MapOf { key, value } = shape.def {
        lemma_met_reference(g, s, u, key as int);
        progress::lemma_reference(g, s, key as int, true);
        progress::lemma_reference(g, u, key as int, true);
        let u1 = walk::reference(g, u, key as int, true).0;
        lemma_all_met_stays(g, u, u1, value as int);
        lemma_met_reference(g, walk::reference(g, s, key as int, true).0, u1, value as int);
    } else if shape.def is Undefined && shape.type_identifier@ != "()"@ {
        lemma_met_is_named(g, u, j);
    }
}

proof fn lemma_met_references(
    g: Seq<Shape>,
    s: State,
    u: State,
    fields: Seq<Field>,
    from: int,
    bound: int,
)
    requires
        shape::shapes_wf(g),
        0 <= bound < g.len(),
        0 <= from,
        progress::orderly(s),
        progress::orderly(u),
        model::context(u) is None,
        met_fields(g, u, fields, bound),
        walk::reference_all(g, s, fields, from, bound, true).1 is Done,
    ensures
        walk::reference_all(g, u, fields, from, bound, true).1 is Done,
    decreases bound, 0int, fields.len() - from,
{
    if from < fields.len() {
        let i = fields[from].shape as int;
        lemma_met_reference(g, s, u, i);
        progress::lemma_reference(g, s, i, true);
        progress::lemma_reference(g, u, i, true);
        let u1 = walk::reference(g, u, i, true).0;
        assert forall|f: int| 0 <= f < fields.len() implies (#[trigger] fields[f]).shape < bound
            && all_met(g, u1, fields[f].shape as int) by {
            lemma_all_met_stays(g, u, u1, fields[f].shape as int);
        }
        lemma_met_references(
            g,
            walk::reference(g, s, i, true).0,
            u1,
            fields,
            from + 1,
            bound,
        );
    }
}

// Types of any structure

/// Whether nothing is being built and no context is in force.
pub open spec fn is_idle(s: State) -> bool {
    s.current.len() == 0 && model::context(s) is None
}

/// Registering what a reference reaches, outside any container and context, leaves it quiet.
proof fn lemma_nested_quiets(g: Seq<Shape>, s: State, i: int, room: nat)
    requires
        progress::fit(g, s, room),
        0 <= i < g.len(),
        is_idle(s),
    ensures
        walk::nested(g, s, i, room) matches Step::Done(t) ==> (completion::well_named(g, t)
            ==> all_quiet(g, t, i)),
{
    assert(model::set_aside(s).current =~= s.current);
    lemma_register_quiets(g, s, i, room);
    completion::lemma_register(g, s, i, room, room);
    if let Step::Done(t) = walk::register(g, s, i, room) {
        progress::lemma_keeps_orderly(g, s, t);
        assert(model::take_up(s, t) == t);
    }
}

proof fn lemma_quiet_nested(g: Seq<Shape>, u: State, i: int, room: nat)
    requires
        shape::shapes_wf(g),
        0 <= i < g.len(),
        progress::orderly(u),
        is_idle(u),
        all_quiet(g, u, i),
    ensures
        walk::nested(g, u, i, room) matches Step::Done(v) && is_same_rest(u, v),
{
    assert(model::set_aside(u).current =~= u.current);
    lemma_quiet_register(g, u, i, room);
}

/// A type that wraps another one is reflected again.
proof fn lemma_compound_again(
    g: Seq<Shape>,
    s: State,
    c: int,
    bound: int,
    wrap: Wrap,
    force: bool,
    room: nat,
    again: nat,
)
    requires
        progress::fit(g, s, room),
        0 <= c < bound <= g.len(),
        is_idle(s),
    ensures
        walk::compound(g, s, c, bound, wrap, force, room) matches Step::Done(t)
            ==> (completion::well_named(g, t) ==> {
            &&& all_quiet(g, t, c)
            &&& walk::compound(g, t, c, bound, wrap, force, again) matches Step::Done(u)
                && is_same_rest(t, u)
        }),
{
    progress::lemma_fit_orderly(g, s, room);
    progress::lemma_reference(g, s, c, true);
    completion::lemma_compound(g, s, c, bound, wrap, force, room, room);
    if let Step::Done(t) = walk::compound(g, s, c, bound, wrap, force, room) {
        progress::lemma_keeps_orderly(g, s, t);
        if completion::well_named(g, t) {
            let s1 = walk::reference(g, s, c, true).0;
            progress::lemma_fit_after(g, s, s1, room);
            lemma_nested_quiets(g, s1, c, room);
            completion::lemma_nested(g, s1, c, room, room);
            let s2 = walk::nested(g, s1, c, room)->Done_0;
            progress::lemma_keeps_orderly(g, s1, s2);
            assert(t == s2);
            completion::lemma_well_named_before(g, s, t);
            lemma_reference_meets(g, s, c);
            lemma_kept_is_later(g, s1, t);
            lemma_all_met_stays(g, s1, t, c);
            lemma_met_reference(g, s, t, c);
            progress::lemma_reference(g, t, c, true);
            let t1 = walk::reference(g, t, c, true).0;
            lemma_all_quiet_stays(g, t, t1, c);
            lemma_quiet_nested(g, t1, c, again);
        }
    }
}

proof fn lemma_map_again(
    g: Seq<Shape>,
    s: State,
    key: int,
    value: int,
    bound: int,
    room: nat,
    again: nat,
)
    requires
        progress::fit(g, s, room),
        0 <= key < bound <= g.len(),
        0 <= value < bound,
        is_idle(s),
    ensures
        walk::format_map(g, s, key, value, bound, room) matches Step::Done(t)
            ==> (completion::well_named(g, t) ==> {
            &&& all_quiet(g, t, key)
            &&& all_quiet(g, t, value)
            &&& walk::format_map(g, t, key, value, bound, again) matches Step::Done(u)
                && is_same_rest(t, u)
        }),
{
    progress::lemma_fit_orderly(g, s, room);
    progress::lemma_reference(g, s, key, true);
    completion::lemma_format_map(g, s, key, value, bound, room, room);
    if let Step::Done(t) = walk::format_map(g, s, key, value, bound, room) {
        progress::lemma_keeps_orderly(g, s, t);
        if completion::well_named(g, t) {
            let s1 = walk::reference(g, s, key, true).0;
            progress::lemma_reference(g, s1, value, true);
            let s2 = walk::reference(g, s1, value, true).0;
            progress::lemma_keeps_trans(g, s, s1, s2);
            progress::lemma_fit_after(g, s, s2, room);
            lemma_nested_quiets(g, s2, key, room);
            completion::lemma_nested(g, s2, key, room, room);
            let s3 = walk::nested(g, s2, key, room)->Done_0;
            progress::lemma_fit_after(g, s2, s3, room);
            progress::lemma_keeps_orderly(g, s2, s3);
            lemma_nested_quiets(g, s3, value, room);
            completion::lemma_nested(g, s3, value, room, room);
            let s4 = walk::nested(g, s3, value, room)->Done_0;
            progress::lemma_keeps_orderly(g, s3, s4);
            assert(t == s4);
            lemma_quiet_after(g, s3, t, key);
            completion::lemma_well_named_before(g, s, t);
            completion::lemma_well_named_before(g, s1, s);
            lemma_reference_meets(g, s, key);
            lemma_reference_meets(g, s1, value);
            progress::lemma_keeps_trans(g, s2, s3, s4);
            lemma_kept_is_later(g, s2, t);
            lemma_all_met_stays(g, s1, s2, key);
            lemma_all_met_stays(g, s2, t, key);
            lemma_all_met_stays(g, s2, t, value);
            lemma_met_reference(g, s, t, key);
            progress::lemma_reference(g, t, key, true);
            let t1 = walk::reference(g, t, key, true).0;
            lemma_all_met_stays(g, t, t1, value);
            lemma_met_reference(g, s1, t1, value);
            progress::lemma_reference(g, t1, value, true);
            let t2 = walk::reference(g, t1, value, true).0;
            lemma_all_quiet_stays(g, t, t2, key);
            lemma_quiet_nested(g, t2, key, again);
            let t3 = walk::nested(g, t2, key, again)->Done_0;
            lemma_all_quiet_stays(g, t, t3, value);
            lemma_quiet_nested(g, t3, value, again);
        }
    }
}

/// Reflecting a type a second time changes nothing but what has been met.
pub proof fn lemma_reflect_again(g: Seq<Shape>, s: State, i: int, room: nat, again: nat)
    requires
        progress::fit(g, s, room),
        0 <= i < g.len(),
        is_idle(s),
    ensures
        walk::reflect(g, s, i, room) matches Step::Done(t) ==> (completion::well_named(g, t) ==> (
        walk::reflect(g, t, i, again) matches Step::Done(u) && is_same_rest(t, u))),
    decreases i,
{
    progress::lemma_fit_orderly(g, s, room);
    naming::lemma_generated(g, i);
    let j = naming::generated(g, i);
    let shape = g[j];
    assert(shape::shape_wf(g, j));
    completion::lemma_reflect(g, s, j, room, room);
    assert(walk::reflect(g, s, j, room) == walk::reflect(g, s, i, room));
    if let Step::Done(t) = walk::reflect(g, s, i, room) {
        progress::lemma_keeps_orderly(g, s, t);
        lemma_params_met(g, s, j, room, t);
        let s1 = model::meet_params(s, shape).0;
        progress::lemma_meet_params(g, s, shape);
        progress::lemma_fit_after(g, s, s1, room);
        if let Def::Option(c) = shape.def {
            lemma_compound_again(g, s1, c as int, j, Wrap::Option, true, room, again);
        } else {
            match shape.ty {
                Type::User(UserType::Struct(st)) => if st.kind == StructKind::Tuple {
                    lemma_tuple_again(g, s1, st.fields@, j, room, again);
                } else if completion::well_named(g, t) {
                    lemma_reflect_quiets(g, s, j, room);
                    lemma_quiet_reflect(g, t, j, again);
                },
                Type::User(UserType::Enum(_)) => if completion::well_named(g, t) {
                    lemma_reflect_quiets(g, s, j, room);
                    lemma_quiet_reflect(g, t, j, again);
                },
                Type::Sequence(sequence) => {
                    lemma_sequence_again(g, s1, j, sequence, room, again);
                },
                _ => {
                    lemma_def_again(g, s1, j, room, again);
                    if shape.def is Undefined {
                        match shape.ty {
                            Type::Pointer(PointerType::Reference(c)) => {
                                lemma_reflect_again(g, s1, c as int, room, again);
                            },
                            Type::Pointer(PointerType::Raw(c)) => {
                                lemma_reflect_again(g, s1, c as int, room, again);
                            },
                            _ => {},
                        }
                    }
                },
            }
        }
    }
}

proof fn lemma_tuple_again(
    g: Seq<Shape>,
    s: State,
    fields: Seq<Field>,
    j: int,
    room: nat,
    again: nat,
)
    requires
        progress::fit(g, s, room),
        0 <= j < g.len(),
        shape::fields_below(fields, j),
        is_idle(s),
    ensures
        walk::format_tuple(g, s, fields, j, room) matches Step::Done(t)
            ==> (completion::well_named(g, t) ==> {
            &&& quiet_fields(g, t, fields, j)
            &&& walk::format_tuple(g, t, fields, j, again) matches Step::Done(u) && is_same_rest(
                t,
                u,
            )
        }),
{
    progress::lemma_fit_orderly(g, s, room);
    let apart = State { current: Seq::empty(), ..s };
    assert(apart.current =~= s.current);
    lemma_register_all_quiets(g, s, fields, 0, j, room);
    completion::lemma_register_all(g, s, fields, 0, j, room, room);
    if let Step::Done(t) = walk::register_all(g, s, fields, 0, j, room) {
        progress::lemma_keeps_orderly(g, s, t);
        assert(State { current: s.current, ..t } == t);
        if completion::well_named(g, t) {
            let aside = State { current: Seq::empty(), ..t };
            assert(aside.current =~= t.current);
            lemma_quiet_register_all(g, t, fields, 0, j, again);
        }
    }
}

/// Every container that the meaning of the shape at `j` reaches is quiet.
pub open spec fn is_quiet_by_meaning(g: Seq<Shape>, u: State, j: int) -> bool {
    match g[j].def {
        Def::List(t) => quiet_below(g, u, t as int, j),
        Def::Slice(t) => quiet_below(g, u, t as int, j),
        Def::SetOf(t) => quiet_below(g, u, t as int, j),
        Def::Array { item, size } => quiet_below(g, u, item as int, j),
        Def::MapOf { key, value } => quiet_below(g, u, key as int, j) && quiet_below(
            g,
            u,
            value as int,
            j,
        ),
        Def::Pointer(Some(t)) => quiet_below(g, u, t as int, j),
        _ => true,
    }
}

proof fn lemma_sequence_again(
    g: Seq<Shape>,
    s: State,
    j: int,
    sequence: SequenceType,
    room: nat,
    again: nat,
)
    requires
        progress::fit(g, s, room),
        0 <= j < g.len(),
        g[j].ty == Type::Sequence(sequence),
        is_idle(s),
    ensures
        walk::format_sequence(g, s, j, sequence, room) matches Step::Done(t)
            ==> (completion::well_named(g, t) ==> {
            &&& completion::is_regular(g[j]) ==> is_quiet_by_meaning(g, t, j)
            &&& walk::format_sequence(g, t, j, sequence, again) matches Step::Done(u)
                && is_same_rest(t, u)
        }),
{
    progress::lemma_fit_orderly(g, s, room);
    assert(shape::shape_wf(g, j));
    match (sequence, g[j].def) {
        (SequenceType::Slice(_), Def::Slice(c)) => {
            lemma_compound_again(g, s, c as int, j, Wrap::SeqOf, true, room, again);
        },
        (SequenceType::Array(_), Def::Array { item, size }) => {
            lemma_compound_again(g, s, item as int, j, Wrap::TupleArray(size), true, room, again);
        },
        (SequenceType::Slice(c), _) => {
            lemma_compound_again(g, s, c as int, j, Wrap::SeqOf, true, room, again);
        },
        (SequenceType::Array(c), _) => {
            lemma_compound_again(g, s, c as int, j, Wrap::SeqOf, true, room, again);
        },
    }
}

/// All but a pointer that nothing more is known of, which is reflected as its target.
proof fn lemma_def_again(g: Seq<Shape>, s: State, j: int, room: nat, again: nat)
    requires
        progress::fit(g, s, room),
        0 <= j < g.len(),
        !shape::is_container(g[j]),
        is_idle(s),
    ensures
        !(g[j].def is Undefined && g[j].ty is Pointer) ==> (walk::format_def(g, s, j, room)
            matches Step::Done(t) ==> (completion::well_named(g, t) ==> {
            &&& is_quiet_by_meaning(g, t, j)
            &&& walk::format_def(g, t, j, again) matches Step::Done(u) && is_same_rest(t, u)
        })),
{
    progress::lemma_fit_orderly(g, s, room);
    assert(shape::shape_wf(g, j));
    match g[j].def {
        Def::MapOf { key, value } => {
            lemma_map_again(g, s, key as int, value as int, j, room, again);
        },
        Def::List(c) => {
            lemma_compound_again(g, s, c as int, j, Wrap::SeqOf, true, room, again);
        },
        Def::Slice(c) => {
            lemma_compound_again(g, s, c as int, j, Wrap::SeqOf, true, room, again);
        },
        Def::Array { item, size } => {
            lemma_compound_again(g, s, item as int, j, Wrap::TupleArray(size), true, room, again);
        },
        Def::SetOf(c) => {
            lemma_compound_again(g, s, c as int, j, Wrap::SetOf, true, room, again);
        },
        Def::Option(c) => {
            lemma_compound_again(g, s, c as int, j, Wrap::Option, true, room, again);
        },
        Def::Pointer(Some(c)) => {
            lemma_compound_again(g, s, c as int, j, Wrap::Plain, false, room, again);
        },
        _ => {},
    }
}

// References to what has been added

/// The settled name of a quiet container has an owner.
proof fn lemma_quiet_settled_name(g: Seq<Shape>, u: State, k: int)
    requires
        progress::orderly(u),
        naming::inner_of(g, k) is None,
        is_quiet(g, u, k),
    ensures
        model::settled_name(g, u, k) matches Step::Done(name) && u.processed.contains_key(name),
{
    let key = names::root_name(g[k].type_identifier@);
    if model::recorded_rename(g, u, k) is Some {
        assert(progress::is_kept(u, key, u.name_mappings[key]));
    }
}

/// A reference with the settled names to what is quiet names what is registered.
proof fn lemma_quiet_settled(g: Seq<Shape>, u: State, i: int)
    requires
        shape::shapes_wf(g),
        completion::all_regular(g),
        0 <= i < g.len(),
        completion::is_regular_at(g, i),
        progress::orderly(u),
        all_quiet(g, u, i),
    ensures
        walk::reference(g, u, i, false).1 matches Step::Done(format) ==> completion::has_owners(
            format,
            u,
        ),
    decreases i, 1int, 0int,
{
    naming::lemma_generated(g, i);
    let k = naming::generated(g, i);
    let shape = g[k];
    assert(shape::shape_wf(g, k));
    progress::lemma_reference(g, u, i, false);
    if let Step::Done(format) = walk::reference(g, u, i, false).1 {
        if shape::is_container(shape) {
            lemma_quiet_settled_name(g, u, k);
            assert(forall|m: NameView| #[trigger]
                registry::refers(format, m) ==> format == FormatView::TypeName(m));
        } else if let Some(fields) = walk::tuple_fields_of(shape) {
            assert forall|f: int| 0 <= f < fields.len() implies completion::is_regular_at(
                g,
                (#[trigger] fields[f]).shape as int,
            ) by {
                assert(completion::holds(shape, fields[f].shape as int));
            }
            lemma_quiet_all_settled(g, u, fields, 0, i);
            completion::lemma_tuple_owners(format->Tuple_0, u);
        } else if let Some((wrap, t)) = walk::single(shape) {
            assert(completion::holds(shape, t as int));
            lemma_quiet_settled(g, u, t as int);
            let inner = walk::reference(g, u, t as int, false).1->Done_0;
            completion::lemma_wrapped_owners(wrap, inner, u);
        } else if let Def::MapOf { key, value } = shape.def {
            assert(completion::holds(shape, key as int) && completion::holds(shape, value as int));
            progress::lemma_reference(g, u, key as int, false);
            lemma_quiet_settled(g, u, key as int);
            lemma_quiet_settled(g, u, value as int);
            completion::lemma_map_format_owners(
                walk::reference(g, u, key as int, false).1->Done_0,
                walk::reference(g, u, value as int, false).1->Done_0,
                u,
            );
        } else {
            assert(forall|m: NameView| !#[trigger] registry::refers(format, m));
        }
    }
}

proof fn lemma_quiet_all_settled(
    g: Seq<Shape>,
    u: State,
    fields: Seq<Field>,
    from: int,
    bound: int,
)
    requires
        shape::shapes_wf(g),
        completion::all_regular(g),
        0 <= bound < g.len(),
        0 <= from,
        forall|f: int|
            0 <= f < fields.len() ==> completion::is_regular_at(
                g,
                (#[trigger] fields[f]).shape as int,
            ),
        progress::orderly(u),
        quiet_fields(g, u, fields, bound),
    ensures
        walk::reference_all(g, u, fields, from, bound, false).1 matches Step::Done(formats)
            ==> completion::have_owners(formats, u),
    decreases bound, 0int, fields.len() - from,
{
    if from < fields.len() {
        let i = fields[from].shape as int;
        lemma_quiet_settled(g, u, i);
        progress::lemma_reference(g, u, i, false);
        lemma_quiet_all_settled(g, u, fields, from + 1, bound);
        if let Step::Done(formats) = walk::reference_all(g, u, fields, from, bound, false).1 {
            let rest = walk::reference_all(g, u, fields, from + 1, bound, false).1->Done_0;
            assert forall|k: int| 0 <= k < formats.len() implies completion::has_owners(
                #[trigger] formats[k],
                u,
            ) by {
                if k > 0 {
                    assert(formats[k] == rest[k - 1]);
                }
            }
        }
    }
}

/// A reference with the settled names to a type that has been reflected outside any container
/// and context names what is registered.
pub proof fn lemma_reflect_settles(g: Seq<Shape>, s: State, i: int, room: nat)
    requires
        progress::fit(g, s, room),
        completion::all_regular(g),
        completion::is_regular_at(g, i),
        0 <= i < g.len(),
        is_idle(s),
    ensures
        walk::reflect(g, s, i, room) matches Step::Done(t) ==> (completion::well_named(g, t) ==> (
        walk::reference(g, t, i, false).1 matches Step::Done(format) ==> completion::has_owners(
            format,
            t,
        ))),
    decreases i,
{
    progress::lemma_fit_orderly(g, s, room);
    naming::lemma_generated(g, i);
    let j = naming::generated(g, i);
    let shape = g[j];
    assert(shape::shape_wf(g, j));
    completion::lemma_reflect(g, s, i, room, room);
    if let Step::Done(t) = walk::reflect(g, s, i, room) {
        progress::lemma_keeps_orderly(g, s, t);
        let s1 = model::meet_params(s, shape).0;
        progress::lemma_meet_params(g, s, shape);
        progress::lemma_fit_after(g, s, s1, room);
        progress::lemma_keeps_orderly(g, s, s1);
        if completion::well_named(g, t) {
            let target = match shape.ty {
                Type::Pointer(PointerType::Reference(c)) => Some(c),
                Type::Pointer(PointerType::Raw(c)) => Some(c),
                _ => None,
            };
            if target is Some && !(shape.def is Option) {
                let c = target->0 as int;
                assert(completion::holds(shape, c));
                lemma_def_again(g, s1, j, room, room);
                if shape.def is Undefined {
                    lemma_reflect_settles(g, s1, c, room);
                    if let Step::Done(format) = walk::reference(g, t, i, false).1 {
                        if shape.type_identifier@ == "()"@ {
                            assert(forall|m: NameView| !#[trigger] registry::refers(format, m));
                        }
                    }
                } else if shape.def is Pointer && shape.def->Pointer_0 is Some {
                    assert(all_quiet(g, t, i));
                    lemma_quiet_settled(g, t, i);
                } else if let Step::Done(format) = walk::reference(g, t, i, false).1 {
                    assert(forall|m: NameView| !#[trigger] registry::refers(format, m));
                }
            } else {
                if let Def::Option(c) = shape.def {
                    assert(completion::holds(shape, c as int));
                    lemma_compound_again(g, s1, c as int, j, Wrap::Option, true, room, room);
                } else {
                    match shape.ty {
                        Type::User(UserType::Struct(st)) => if st.kind == StructKind::Tuple {
                            lemma_tuple_again(g, s1, st.fields@, j, room, room);
                        } else {
                            assert(walk::reflect(g, s, j, room) == walk::reflect(g, s, i, room));
                            lemma_reflect_quiets(g, s, j, room);
                        },
                        Type::User(UserType::Enum(_)) => {
                            assert(walk::reflect(g, s, j, room) == walk::reflect(g, s, i, room));
                            lemma_reflect_quiets(g, s, j, room);
                        },
                        Type::Sequence(sequence) => {
                            lemma_sequence_again(g, s1, j, sequence, room, room);
                        },
                        _ => {
                            lemma_def_again(g, s1, j, room, room);
                        },
                    }
                }
                assert(all_quiet(g, t, i));
                lemma_quiet_settled(g, t, i);
            }
        }
    }
}

} // verus!
