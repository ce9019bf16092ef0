//! What single steps of a walk keep, and what room they leave.

use vstd::prelude::*;

use crate::format::{ContainerView, FormatView, NamedView};
use crate::model;
use crate::model::{MappingView, State};
use crate::name_table;
use crate::names;
use crate::names::NameView;
use crate::namespace;
use crate::namespace::ActionView;
use crate::naming;
use crate::reach;
use crate::scalar;
use crate::shape;
use crate::shape::{Attr, Def, Field, Shape};
use crate::step::Step;
use crate::walk;

verus! {

/// The names met so far are finitely many, and none of them stands in the way of another.
pub open spec fn agreed(sources: Map<NameView, bool>) -> bool {
    &&& sources.dom().finite()
    &&& forall|a: NameView, b: NameView|
        #![trigger sources.contains_key(a), sources.contains_key(b)]
        sources.contains_key(a) && sources.contains_key(b) ==> !model::clashes(
            a,
            sources[a],
            b,
            sources[b],
        )
}

/// A rename gives another name of the same namespace, which the type that it applies to owns.
pub open spec fn is_kept(s: State, key: NameView, mapping: MappingView) -> bool {
    &&& mapping.renamed.namespace == key.namespace
    &&& mapping.renamed.name != key.name
    &&& s.processed.contains_key(mapping.renamed)
    &&& s.processed[mapping.renamed].id == mapping.id
}

/// Every recorded rename is kept.
pub open spec fn mapped(s: State) -> bool {
    forall|k: NameView| #[trigger]
        s.name_mappings.contains_key(k) ==> is_kept(s, k, s.name_mappings[k])
}

/// The names of the containers being built have been taken.
pub open spec fn held(s: State) -> bool {
    forall|k: int|
        0 <= k < s.current.len() ==> s.processed.contains_key(#[trigger] s.current[k])
}

/// What holds of every state that a builder can be in.
pub open spec fn orderly(s: State) -> bool {
    &&& agreed(s.type_namespace_sources)
    &&& mapped(s)
    &&& held(s)
}

/// Every context in force has a namespace that a walk over the table can enter.
pub open spec fn within(g: Seq<Shape>, s: State) -> bool {
    forall|k: int|
        0 <= k < s.namespace_context_stack.len() ==> reach::spaces(g).contains(
            (#[trigger] s.namespace_context_stack[k]).namespace,
        )
}

/// The names that a walk over the table can still take.
pub open spec fn unclaimed(g: Seq<Shape>, s: State) -> Set<NameView> {
    reach::candidates(g).difference(s.processed.dom())
}

/// A state from which a walk over the table has room enough.
#[verifier::opaque]
pub open spec fn fit(g: Seq<Shape>, s: State, room: nat) -> bool {
    &&& shape::shapes_wf(g)
    &&& orderly(s)
    &&& within(g, s)
    &&& unclaimed(g, s).len() <= room
}

/// A table in which every struct or enum that is a transparent wrapper has a type behind it.
pub open spec fn is_backed(g: Seq<Shape>) -> bool {
    forall|i: int|
        0 <= i < g.len() && shape::is_container(#[trigger] g[i]) && shape::is_transparent(g[i])
            ==> naming::inner_of(g, i) is Some
}

/// Whether the type of identity `id` is a struct or an enum of the table that is a transparent
/// wrapper with no type behind it. Such a type takes a name, but no container is built for it.
pub open spec fn is_bare(g: Seq<Shape>, id: u64) -> bool {
    exists|k: int|
        0 <= k < g.len() && shape::is_container(#[trigger] g[k]) && shape::is_transparent(g[k])
            && naming::inner_of(g, k) is None && g[k].id == id
}

/// Every name that has been taken since `s`, and every one of `names`, is that of a container,
/// unless its owner is a bare wrapper.
pub open spec fn registers(g: Seq<Shape>, s: State, t: State, names: Set<NameView>) -> bool {
    forall|n: NameView|
        #![trigger t.registry.contains_key(n)]
        t.processed.contains_key(n) && !s.processed.contains_key(n) || names.contains(n)
            ==> t.registry.contains_key(n) || t.processed.contains_key(n) && is_bare(
            g,
            t.processed[n].id,
        )
}

/// Every name that has been taken since `s` is in a namespace that a walk over the table can
/// enter, if the contexts in force are.
pub open spec fn take_within(g: Seq<Shape>, s: State, t: State) -> bool {
    within(g, s) ==> forall|n: NameView| #[trigger]
        t.processed.contains_key(n) ==> s.processed.contains_key(n) || reach::spaces(g).contains(
            n.namespace,
        )
}

/// Whether `name` is that of the innermost container being built.
pub open spec fn is_innermost(s: State, name: NameView) -> bool {
    s.current.len() > 0 && s.current.last() == name
}

/// Whether a container that is being built can turn from `a` into `b`: it stays of its kind and
/// keeps its documentation, but that a struct can be left without fields.
pub open spec fn becomes(a: ContainerView, b: ContainerView) -> bool {
    match (a, b) {
        (ContainerView::UnitStruct(d), ContainerView::UnitStruct(e)) => d == e,
        (ContainerView::NewTypeStruct(_, d), ContainerView::NewTypeStruct(_, e)) => d == e,
        (ContainerView::TupleStruct(_, d), ContainerView::TupleStruct(_, e)) => d == e,
        (ContainerView::Struct(_, d), ContainerView::Struct(_, e)) => d == e,
        (ContainerView::Struct(_, d), ContainerView::UnitStruct(e)) => d == e,
        (ContainerView::Enum(_, _, _), ContainerView::Enum(_, _, _)) => a == b,
        _ => false,
    }
}

/// Every container that has an owner is still there, but for those of `names`, and none has
/// changed but the innermost one of those being built, which stays of its kind.
pub open spec fn retains(s: State, t: State, names: Set<NameView>) -> bool {
    forall|n: NameView| #[trigger]
        s.registry.contains_key(n) && s.processed.contains_key(n) && !names.contains(n) ==> {
            &&& t.registry.contains_key(n)
            &&& is_innermost(s, n) && becomes(s.registry[n], t.registry[n]) || t.registry[n]
                == s.registry[n]
        }
}

/// Names stay taken, by the same owners.
pub open spec fn stay_taken(s: State, t: State) -> bool {
    forall|n: NameView| #[trigger]
        s.processed.contains_key(n) ==> t.processed.contains_key(n) && t.processed[n]
            == s.processed[n]
}

/// Whether a type of the table, generated as itself, has this identity and goes by this name: its
/// own name, in the root or in a namespace that is not its own.
pub open spec fn is_known_as(g: Seq<Shape>, id: u64, name: NameView) -> bool {
    exists|k: int|
        0 <= k < g.len() && naming::inner_of(g, k) is None && (#[trigger] g[k]).id == id
            && goes_by(g, k, name)
}

/// Whether the type at `k` can go by `name`: in the root only by its own name.
pub open spec fn goes_by(g: Seq<Shape>, k: int, name: NameView) -> bool {
    &&& namespace::namespace_action(g[k].attributes@) is Ok
    &&& naming::own_name(g, k) matches Ok(own) && own.name == name.name && (name.namespace is Root
        ==> own == name)
}

/// Every name that has been taken since `s` is one that its owner goes by.
pub open spec fn take_their_own(g: Seq<Shape>, s: State, t: State) -> bool {
    forall|n: NameView| #[trigger]
        t.processed.contains_key(n) ==> s.processed.contains_key(n) || is_known_as(
            g,
            t.processed[n].id,
            n,
        )
}

/// What a walk from `s` to `t` keeps.
///
/// The containers being built and the contexts in force are the same. Names stay taken and
/// known, and generic types stay with their type parameters. A container that is registered anew
/// has a new owner, but for those of `names`, and a name that is taken anew is one that its owner
/// goes by, and gets a container.
#[verifier::opaque]
pub open spec fn keeps_beside(g: Seq<Shape>, s: State, t: State, names: Set<NameView>) -> bool {
    &&& t.current == s.current
    &&& t.namespace_context_stack == s.namespace_context_stack
    &&& stay_taken(s, t)
    &&& take_their_own(g, s, t)
    &&& s.type_namespace_sources.dom().subset_of(t.type_namespace_sources.dom())
    &&& forall|d: u128| #[trigger]
        s.generic_type_params.contains_key(d) ==> t.generic_type_params.contains_key(d)
            && t.generic_type_params[d] == s.generic_type_params[d]
    &&& forall|n: NameView| #[trigger]
        t.registry.contains_key(n) ==> {
            ||| s.registry.contains_key(n)
            ||| t.processed.contains_key(n) && !s.processed.contains_key(n)
            ||| names.contains(n)
        }
    &&& orderly(t)
    &&& retains(s, t, names)
    &&& registers(g, s, t, names)
    &&& take_within(g, s, t)
}

/// What a walk keeps that registers no container but those whose names it takes.
pub open spec fn keeps(g: Seq<Shape>, s: State, t: State) -> bool {
    keeps_beside(g, s, t, Set::empty())
}

/// A step from `s` that is carried out to the end, and keeps what a walk keeps if it succeeds.
pub open spec fn goes(g: Seq<Shape>, s: State, step: Step<State>) -> bool {
    match step {
        Step::Done(t) => keeps(g, s, t),
        Step::Stuck => false,
        _ => true,
    }
}

/// The same for a step that also registers the container `name`.
pub open spec fn goes_beside(g: Seq<Shape>, s: State, step: Step<State>, name: NameView) -> bool {
    match step {
        Step::Done(t) => keeps_beside(g, s, t, set![name]),
        Step::Stuck => false,
        _ => true,
    }
}

/// Two states that differ at most in that more names have been met.
pub open spec fn same_but_met(s: State, t: State) -> bool {
    &&& t == (State { type_namespace_sources: t.type_namespace_sources, ..s })
    &&& s.type_namespace_sources.dom().subset_of(t.type_namespace_sources.dom())
}

/// Meeting names keeps everything else.
pub proof fn lemma_same_but_met(g: Seq<Shape>, s: State, t: State)
    requires
        same_but_met(s, t),
        orderly(t),
    ensures
        keeps(g, s, t),
{
    reveal(keeps_beside);
}

pub proof fn lemma_keeps_refl(g: Seq<Shape>, s: State)
    requires
        orderly(s),
    ensures
        keeps(g, s, s),
{
    lemma_same_but_met(g, s, s);
}

/// A walk that registers nothing else, for a bare wrapper.
pub proof fn lemma_keeps_beside(g: Seq<Shape>, s: State, t: State, names: Set<NameView>)
    requires
        keeps(g, s, t),
        forall|n: NameView| #[trigger]
            names.contains(n) ==> s.processed.contains_key(n) && is_bare(g, s.processed[n].id),
    ensures
        keeps_beside(g, s, t, names),
{
    reveal(keeps_beside);
}

pub proof fn lemma_keeps_trans(g: Seq<Shape>, a: State, b: State, c: State)
    requires
        keeps(g, a, b),
        keeps(g, b, c),
    ensures
        keeps(g, a, c),
{
    lemma_keeps_beside_trans(g, a, b, c, Set::empty());
}

pub proof fn lemma_keeps_beside_trans(
    g: Seq<Shape>,
    a: State,
    b: State,
    c: State,
    names: Set<NameView>,
)
    requires
        keeps(g, a, b),
        keeps_beside(g, b, c, names),
        names.subset_of(a.processed.dom()),
    ensures
        keeps_beside(g, a, c, names),
{
    reveal(keeps_beside);
    assert forall|d: u128| #[trigger]
        a.generic_type_params.contains_key(d) implies c.generic_type_params.contains_key(d)
        && c.generic_type_params[d] == a.generic_type_params[d] by {
        assert(b.generic_type_params.contains_key(d));
    }
    assert forall|n: NameView| #[trigger] a.processed.contains_key(n) implies
        c.processed.contains_key(n) && c.processed[n] == a.processed[n] by {
        assert(b.processed.contains_key(n));
    }
    assert forall|n: NameView| #[trigger] c.processed.contains_key(n) implies
        a.processed.contains_key(n) || is_known_as(g, c.processed[n].id, n) by {
        if b.processed.contains_key(n) {
            assert(c.processed[n] == b.processed[n]);
        }
    }
    assert forall|n: NameView| #[trigger] c.registry.contains_key(n) implies {
        ||| a.registry.contains_key(n)
        ||| c.processed.contains_key(n) && !a.processed.contains_key(n)
        ||| names.contains(n)
    } by {
        if b.registry.contains_key(n) && !a.registry.contains_key(n) {
            assert(b.processed.contains_key(n));
        }
        assert(b.processed.contains_key(n) || !a.processed.contains_key(n));
    }
    assert forall|n: NameView| #[trigger]
        a.registry.contains_key(n) && a.processed.contains_key(n) && !names.contains(
            n,
        ) implies {
        &&& c.registry.contains_key(n)
        &&& is_innermost(a, n) && becomes(a.registry[n], c.registry[n]) || c.registry[n]
            == a.registry[n]
    } by {
        assert(b.registry.contains_key(n));
    }
    assert forall|n: NameView|
        #![trigger c.registry.contains_key(n)]
        c.processed.contains_key(n) && !a.processed.contains_key(n) || names.contains(
            n,
        ) implies c.registry.contains_key(n) || c.processed.contains_key(n) && is_bare(
        g,
        c.processed[n].id,
    ) by {
        if b.processed.contains_key(n) && !names.contains(n) {
            assert(c.processed[n] == b.processed[n]);
            assert(registers(g, a, b, Set::empty()));
            assert(b.registry.contains_key(n) || is_bare(g, b.processed[n].id));
            assert(retains(b, c, names));
        } else {
            assert(registers(g, b, c, names));
        }
    }
    assert(take_within(g, a, c)) by {
        assert forall|n: NameView| #[trigger] c.processed.contains_key(n) && within(
            g,
            a,
        ) implies a.processed.contains_key(n) || reach::spaces(g).contains(n.namespace) by {
            if b.processed.contains_key(n) {
                assert(take_within(g, a, b));
            } else {
                assert(take_within(g, b, c));
            }
        }
    }
}

/// A step after a walk.
pub proof fn lemma_goes_after(g: Seq<Shape>, s: State, t: State, step: Step<State>)
    requires
        keeps(g, s, t),
        goes(g, t, step),
    ensures
        goes(g, s, step),
{
    if let Step::Done(u) = step {
        lemma_keeps_trans(g, s, t, u);
    }
}

pub proof fn lemma_keeps_orderly(g: Seq<Shape>, s: State, t: State)
    requires
        keeps(g, s, t),
    ensures
        orderly(t),
        stay_taken(s, t),
        take_their_own(g, s, t),
        s.type_namespace_sources.dom().subset_of(t.type_namespace_sources.dom()),
        t.current == s.current,
        t.namespace_context_stack == s.namespace_context_stack,
{
    reveal(keeps_beside);
}

pub proof fn lemma_fit_after(g: Seq<Shape>, s: State, t: State, room: nat)
    requires
        fit(g, s, room),
        keeps(g, s, t),
    ensures
        fit(g, t, room),
{
    reveal(fit);
    reveal(keeps_beside);
    reach::lemma_candidates_finite(g);
    assert(unclaimed(g, t).subset_of(unclaimed(g, s)));
    vstd::set_lib::lemma_len_subset(unclaimed(g, t), unclaimed(g, s));
}

pub proof fn lemma_fit_orderly(g: Seq<Shape>, s: State, room: nat)
    requires
        fit(g, s, room),
    ensures
        shape::shapes_wf(g),
        orderly(s),
        keeps(g, s, s),
{
    reveal(fit);
    lemma_keeps_refl(g, s);
}

// Names

/// A name is met unless one of those met before stands in its way; then all of them agree.
pub proof fn lemma_meet_name(s: State, new: NameView, explicit: bool)
    requires
        orderly(s),
    ensures
        model::meet_name(s, new, explicit) is Done || model::meet_name(s, new, explicit) is Fail,
        model::meet_name(s, new, explicit) matches Step::Done(t) ==> same_but_met(s, t)
            && orderly(t),
        model::meet_name(s, new, explicit) is Fail <==> exists|k: NameView| #[trigger]
            s.type_namespace_sources.contains_key(k) && model::clashes(
                k,
                s.type_namespace_sources[k],
                new,
                explicit,
            ),
{
    let sources = s.type_namespace_sources;
    let blocked = model::in_the_way(sources, new, explicit);
    if exists|k: NameView| #[trigger]
        sources.contains_key(k) && model::clashes(k, sources[k], new, explicit) {
        let k = choose|k: NameView| #[trigger]
            sources.contains_key(k) && model::clashes(k, sources[k], new, explicit);
        assert(blocked(k));
        name_table::lemma_first_exists(sources.dom(), blocked, k);
    } else {
        assert forall|k: NameView| !name_table::is_first(sources.dom(), blocked, k) by {
            if sources.dom().contains(k) {
                assert(sources.contains_key(k));
            }
        }
        let met = sources.insert(new, explicit);
        assert(agreed(met)) by {
            assert forall|a: NameView, b: NameView|
                #![trigger met.contains_key(a), met.contains_key(b)]
                met.contains_key(a) && met.contains_key(b) implies !model::clashes(
                a,
                met[a],
                b,
                met[b],
            ) by {
                if a != new {
                    assert(sources.contains_key(a));
                }
                if b != new {
                    assert(sources.contains_key(b));
                }
            }
        }
    }
}

/// Naming a shape meets at most a name.
pub proof fn lemma_walk_name(g: Seq<Shape>, s: State, i: int)
    requires
        orderly(s),
    ensures
        keeps(g, s, model::walk_name(g, s, i).0),
        same_but_met(s, model::walk_name(g, s, i).0),
        orderly(model::walk_name(g, s, i).0),
        !(model::walk_name(g, s, i).1 is Stuck),
{
    if model::recorded_rename(g, s, i) is None {
        if let Ok(own) = naming::own_name(g, i) {
            lemma_meet_name(s, own, true);
            if let Some(context) = model::context(s) {
                let name = NameView { namespace: context.namespace, name: own.name };
                lemma_meet_name(s, name, context.explicit);
            }
        }
    }
    lemma_same_but_met(g, s, model::walk_name(g, s, i).0);
}

/// Making a reference meets at most names.
pub proof fn lemma_reference(g: Seq<Shape>, s: State, i: int, walking: bool)
    requires
        shape::shapes_wf(g),
        orderly(s),
        0 <= i < g.len(),
    ensures
        keeps(g, s, walk::reference(g, s, i, walking).0),
        same_but_met(s, walk::reference(g, s, i, walking).0),
        orderly(walk::reference(g, s, i, walking).0),
        !walking ==> walk::reference(g, s, i, walking).0 == s,
        !(walk::reference(g, s, i, walking).1 is Stuck),
    decreases i, 1int, 0int,
{
    naming::lemma_generated(g, i);
    let j = naming::generated(g, i);
    let shape = g[j];
    assert(shape::shape_wf(g, j));
    if walking {
        lemma_walk_name(g, s, j);
    }
    if shape::is_container(shape) {
    } else if let Some(fields) = walk::tuple_fields_of(shape) {
        lemma_reference_all(g, s, fields, 0, i, walking);
    } else if let Some((wrap, t)) = walk::single(shape) {
        lemma_reference(g, s, t as int, walking);
    } else {
        if let Def::MapOf { key, value } = shape.def {
            lemma_reference(g, s, key as int, walking);
            let s1 = walk::reference(g, s, key as int, walking).0;
            lemma_reference(g, s1, value as int, walking);
        }
    }
    lemma_same_but_met(g, s, walk::reference(g, s, i, walking).0);
}

pub proof fn lemma_reference_all(
    g: Seq<Shape>,
    s: State,
    fields: Seq<Field>,
    from: int,
    bound: int,
    walking: bool,
)
    requires
        shape::shapes_wf(g),
        orderly(s),
        0 <= from,
        bound <= g.len(),
        shape::fields_below(fields, bound),
    ensures
        same_but_met(s, walk::reference_all(g, s, fields, from, bound, walking).0),
        orderly(walk::reference_all(g, s, fields, from, bound, walking).0),
        !walking ==> walk::reference_all(g, s, fields, from, bound, walking).0 == s,
        !(walk::reference_all(g, s, fields, from, bound, walking).1 is Stuck),
    decreases bound, 0int, fields.len() - from,
{
    if from < fields.len() {
        let i = fields[from].shape as int;
        lemma_reference(g, s, i, walking);
        let s1 = walk::reference(g, s, i, walking).0;
        lemma_reference_all(g, s1, fields, from + 1, bound, walking);
    }
}

pub proof fn lemma_field_format(g: Seq<Shape>, s: State, i: int)
    requires
        shape::shapes_wf(g),
        orderly(s),
        0 <= i < g.len(),
    ensures
        keeps(g, s, walk::field_format(g, s, i).0),
        !(walk::field_format(g, s, i).1 is Stuck),
{
    lemma_keeps_refl(g, s);
    lemma_reference(g, s, i, true);
}

pub proof fn lemma_payload_format(g: Seq<Shape>, s: State, i: int)
    requires
        shape::shapes_wf(g),
        orderly(s),
        0 <= i < g.len(),
    ensures
        keeps(g, s, walk::payload_format(g, s, i).0),
        !(walk::payload_format(g, s, i).1 is Stuck),
{
    lemma_reference(g, s, i, true);
    lemma_field_format(g, s, i);
}

// The container being built

proof fn lemma_rebuild(g: Seq<Shape>, s: State, container: ContainerView)
    requires
        orderly(s),
        model::innermost(s) matches Some(before) && becomes(before, container),
    ensures
        keeps(g, s, model::rebuild(s, container)),
{
    reveal(keeps_beside);
    let t = model::rebuild(s, container);
    assert(mapped(t));
}

pub proof fn lemma_supply(g: Seq<Shape>, s: State, format: FormatView, force: bool)
    requires
        orderly(s),
    ensures
        goes(g, s, model::supply(s, format, force)),
{
    lemma_keeps_refl(g, s);
    if let Step::Done(t) = model::supply(s, format, force) {
        if t != s {
            lemma_rebuild(g, s, t.registry[s.current.last()]);
        }
    }
}

pub proof fn lemma_add_field(g: Seq<Shape>, s: State, field: NamedView<FormatView>)
    requires
        orderly(s),
    ensures
        keeps(g, s, model::add_field(s, field)),
{
    lemma_keeps_refl(g, s);
    if let Some(ContainerView::Struct(fields, doc)) = model::innermost(s) {
        lemma_rebuild(g, s, ContainerView::Struct(fields.push(field), doc));
    }
}

pub proof fn lemma_add_item(g: Seq<Shape>, s: State, format: FormatView)
    requires
        orderly(s),
    ensures
        keeps(g, s, model::add_item(s, format)),
{
    lemma_keeps_refl(g, s);
    if let Some(ContainerView::TupleStruct(formats, doc)) = model::innermost(s) {
        lemma_rebuild(g, s, ContainerView::TupleStruct(formats.push(format), doc));
    }
}

pub proof fn lemma_supply_bytes(g: Seq<Shape>, s: State, field: Field)
    requires
        orderly(s),
    ensures
        match model::supply_bytes(g, s, field) {
            Step::Done((t, b)) => keeps(g, s, t),
            Step::Stuck => false,
            _ => true,
        },
{
    lemma_keeps_refl(g, s);
    if let Step::Done(Some(value)) = scalar::bytes_format(g, field) {
        lemma_add_item(g, s, value);
        if let Some(ContainerView::NewTypeStruct(_, doc)) = model::innermost(s) {
            lemma_rebuild(g, s, ContainerView::NewTypeStruct(value, doc));
        }
        lemma_add_field(
            g,
            s,
            NamedView {
                name: naming::renamed(field.rename, field.name),
                doc: crate::format::lines_view(g[field.shape as int].doc@),
                value,
            },
        );
    }
}

pub proof fn lemma_settle_struct(g: Seq<Shape>, s: State)
    requires
        orderly(s),
    ensures
        keeps(g, s, model::settle_struct(s)),
{
    lemma_keeps_refl(g, s);
    if let Some(ContainerView::Struct(fields, doc)) = model::innermost(s) {
        lemma_rebuild(g, s, ContainerView::UnitStruct(doc));
    }
}

/// Starting a container leaves the room that there was.
pub proof fn lemma_start(
    g: Seq<Shape>,
    s: State,
    name: NameView,
    container: ContainerView,
    room: nat,
)
    requires
        fit(g, s, room),
        s.processed.contains_key(name),
    ensures
        fit(g, model::start(s, name, container), room),
{
    reveal(fit);
    let t = model::start(s, name, container);
    assert(mapped(t));
    assert(held(t));
    assert(unclaimed(g, t) =~= unclaimed(g, s));
}

/// A container whose name is taken is started and, after a walk, finished.
pub proof fn lemma_finish(
    g: Seq<Shape>,
    s: State,
    name: NameView,
    container: ContainerView,
    u: State,
)
    requires
        orderly(s),
        s.processed.contains_key(name),
        keeps(g, model::start(s, name, container), u),
    ensures
        keeps_beside(g, s, model::finish(u), set![name]),
{
    reveal(keeps_beside);
    let t = model::start(s, name, container);
    let v = model::finish(u);
    assert(t.current.drop_last() =~= s.current);
    assert(mapped(v));
    assert(held(v)) by {
        assert forall|k: int| 0 <= k < v.current.len() implies v.processed.contains_key(
            #[trigger] v.current[k],
        ) by {
            assert(v.current[k] == s.current[k]);
            assert(s.processed.contains_key(s.current[k]));
            assert(t.processed.contains_key(s.current[k]));
        }
    }
    assert forall|d: u128| #[trigger]
        s.generic_type_params.contains_key(d) implies v.generic_type_params.contains_key(d)
        && v.generic_type_params[d] == s.generic_type_params[d] by {
        assert(t.generic_type_params.contains_key(d));
    }
    assert(set![name].contains(name));
    assert forall|n: NameView| #[trigger] s.processed.contains_key(n) implies
        v.processed.contains_key(n) && v.processed[n] == s.processed[n] by {
        assert(t.processed.contains_key(n));
    }
    assert forall|n: NameView| #[trigger] v.registry.contains_key(n) implies {
        ||| s.registry.contains_key(n)
        ||| v.processed.contains_key(n) && !s.processed.contains_key(n)
        ||| set![name].contains(n)
    } by {
        assert(u.registry.contains_key(n));
        assert(t.registry.contains_key(n) ==> n == name || s.registry.contains_key(n));
    }
    assert forall|n: NameView| #[trigger]
        s.registry.contains_key(n) && s.processed.contains_key(n) && !set![name].contains(
            n,
        ) implies v.registry.contains_key(n) && v.registry[n] == s.registry[n] by {
        assert(t.registry.contains_key(n));
        assert(retains(t, u, Set::empty()));
    }
    assert(t.registry.contains_key(name));
    assert(registers(g, t, u, Set::empty()));
    assert forall|n: NameView|
        #![trigger v.registry.contains_key(n)]
        v.processed.contains_key(n) && !s.processed.contains_key(n) || set![name].contains(
            n,
        ) implies v.registry.contains_key(n) || v.processed.contains_key(n) && is_bare(
        g,
        v.processed[n].id,
    ) by {
        assert(u.registry.contains_key(n) || is_bare(g, u.processed[n].id));
    }
    assert(within(g, s) ==> within(g, t));
}

/// Meeting the name of a type and starting its container.
pub proof fn lemma_start_met(
    g: Seq<Shape>,
    s: State,
    name: NameView,
    container: ContainerView,
    i: int,
    room: nat,
)
    requires
        fit(g, s, room),
        s.processed.contains_key(name),
    ensures
        match model::start_met(g, s, name, container, i) {
            Step::Done(t) => fit(g, t, room),
            Step::Stuck => false,
            _ => true,
        },
{
    lemma_fit_orderly(g, s, room);
    if let Ok(action) = namespace::namespace_action(g[i].attributes@) {
        let explicit = namespace::action_is_explicit(action);
        lemma_meet_name(s, name, explicit);
        if let Step::Done(s1) = model::meet_name(s, name, explicit) {
            lemma_same_but_met(g, s, s1);
            lemma_fit_after(g, s, s1, room);
            lemma_start(g, s1, name, container, room);
        }
    }
}

/// The container of a type is started and, after a walk, finished.
pub proof fn lemma_finish_met(
    g: Seq<Shape>,
    s: State,
    name: NameView,
    container: ContainerView,
    i: int,
    u: State,
)
    requires
        orderly(s),
        s.processed.contains_key(name),
        model::start_met(g, s, name, container, i) matches Step::Done(t) && keeps(g, t, u),
    ensures
        keeps_beside(g, s, model::finish(u), set![name]),
{
    let action = namespace::namespace_action(g[i].attributes@)->Ok_0;
    let explicit = namespace::action_is_explicit(action);
    lemma_meet_name(s, name, explicit);
    let s1 = model::meet_name(s, name, explicit)->Done_0;
    lemma_same_but_met(g, s, s1);
    lemma_finish(g, s1, name, container, u);
    assert(set![name].subset_of(s.processed.dom()));
    lemma_keeps_beside_trans(g, s, s1, model::finish(u), set![name]);
}

// Contexts

/// Entering a context of the table leaves the room that there was.
pub proof fn lemma_enter(g: Seq<Shape>, s: State, action: ActionView, room: nat)
    requires
        fit(g, s, room),
        reach::spaces(g).contains(reach::action_space(action)),
    ensures
        fit(g, model::enter(s, action), room),
{
    reveal(fit);
    reach::lemma_spaces(g);
    let t = model::enter(s, action);
    assert(mapped(t));
    assert(unclaimed(g, t) =~= unclaimed(g, s));
}

/// Entering a context leaves the rest in order.
pub proof fn lemma_enter_orderly(s: State, action: ActionView)
    requires
        orderly(s),
    ensures
        orderly(model::enter(s, action)),
{
    assert(held(model::enter(s, action)));
    lemma_same_order(s, model::enter(s, action));
}

/// A context is entered and, after a walk, left.
pub proof fn lemma_leave(g: Seq<Shape>, s: State, action: ActionView, u: State)
    requires
        keeps(g, model::enter(s, action), u),
        reach::spaces(g).contains(reach::action_space(action)),
    ensures
        keeps(g, s, model::leave(u)),
{
    lemma_leave_beside(g, s, action, u, Set::empty());
}

pub proof fn lemma_leave_beside(
    g: Seq<Shape>,
    s: State,
    action: ActionView,
    u: State,
    names: Set<NameView>,
)
    requires
        keeps_beside(g, model::enter(s, action), u, names),
        reach::spaces(g).contains(reach::action_space(action)),
    ensures
        keeps_beside(g, s, model::leave(u), names),
{
    reveal(keeps_beside);
    let t = model::enter(s, action);
    let v = model::leave(u);
    assert(t.namespace_context_stack.drop_last() =~= s.namespace_context_stack);
    lemma_same_order(u, v);
    assert forall|d: u128| #[trigger]
        s.generic_type_params.contains_key(d) implies v.generic_type_params.contains_key(d)
        && v.generic_type_params[d] == s.generic_type_params[d] by {
        assert(t.generic_type_params.contains_key(d));
    }
    lemma_same_keeping(g, s, t, u, v, names);
    reach::lemma_spaces(g);
    assert(within(g, s) ==> within(g, t));
}

/// Neither the contexts nor the containers matter for whether a state is in order, as long as the
/// names of those being built have been taken.
proof fn lemma_same_order(s: State, t: State)
    requires
        orderly(s),
        held(t),
        t == (State {
            registry: t.registry,
            current: t.current,
            namespace_context_stack: t.namespace_context_stack,
            ..s
        }),
    ensures
        orderly(t),
{
    assert forall|k: NameView| #[trigger] t.name_mappings.contains_key(k) implies is_kept(
        t,
        k,
        t.name_mappings[k],
    ) by {
        assert(s.name_mappings.contains_key(k));
        assert(is_kept(s, k, s.name_mappings[k]));
    }
}

/// Neither the contexts nor, but for the innermost one, the containers being built matter for
/// what is kept of the names and the containers.
proof fn lemma_same_keeping(
    g: Seq<Shape>,
    s: State,
    t: State,
    u: State,
    v: State,
    names: Set<NameView>,
)
    requires
        t == (State {
            current: t.current,
            namespace_context_stack: t.namespace_context_stack,
            ..s
        }),
        v == (State {
            current: v.current,
            namespace_context_stack: v.namespace_context_stack,
            ..u
        }),
        stay_taken(t, u),
        retains(t, u, names),
        t.current == s.current || t.current.len() == 0,
        forall|n: NameView| #[trigger]
            u.registry.contains_key(n) ==> {
                ||| t.registry.contains_key(n)
                ||| u.processed.contains_key(n) && !t.processed.contains_key(n)
                ||| names.contains(n)
            },
    ensures
        stay_taken(s, v),
        retains(s, v, names),
        forall|n: NameView| #[trigger]
            v.registry.contains_key(n) ==> {
                ||| s.registry.contains_key(n)
                ||| v.processed.contains_key(n) && !s.processed.contains_key(n)
                ||| names.contains(n)
            },
        registers(g, t, u, names) ==> registers(g, s, v, names),
{
    assert forall|n: NameView| #[trigger] s.processed.contains_key(n) implies
        v.processed.contains_key(n) && v.processed[n] == s.processed[n] by {
        assert(t.processed.contains_key(n));
    }
    assert forall|n: NameView| #[trigger]
        s.registry.contains_key(n) && s.processed.contains_key(n) && !names.contains(
            n,
        ) implies {
        &&& v.registry.contains_key(n)
        &&& is_innermost(s, n) && becomes(s.registry[n], v.registry[n]) || v.registry[n]
            == s.registry[n]
    } by {
        assert(t.registry.contains_key(n));
    }
    assert forall|n: NameView| #[trigger] v.registry.contains_key(n) implies {
        ||| s.registry.contains_key(n)
        ||| v.processed.contains_key(n) && !s.processed.contains_key(n)
        ||| names.contains(n)
    } by {
        assert(u.registry.contains_key(n));
    }
    if registers(g, t, u, names) {
        assert forall|n: NameView|
            #![trigger v.registry.contains_key(n)]
            v.processed.contains_key(n) && !s.processed.contains_key(n) || names.contains(
                n,
            ) implies v.registry.contains_key(n) || v.processed.contains_key(n) && is_bare(
            g,
            v.processed[n].id,
        ) by {
            assert(u.registry.contains_key(n) || u.processed.contains_key(n) && is_bare(
                g,
                u.processed[n].id,
            ));
        }
    }
}

/// Setting the containers being built aside changes nothing of the room that there is.
pub proof fn lemma_aside(g: Seq<Shape>, s: State, room: nat)
    requires
        fit(g, s, room),
    ensures
        fit(g, State { current: Seq::empty(), ..s }, room),
{
    reveal(fit);
    let t = State { current: Seq::empty(), ..s };
    lemma_same_order(s, t);
    assert(unclaimed(g, t) =~= unclaimed(g, s));
}

/// The containers being built are set aside and, after a walk, taken up again: none that has an
/// owner has changed.
pub proof fn lemma_resume(g: Seq<Shape>, s: State, u: State)
    requires
        orderly(s),
        keeps(g, State { current: Seq::empty(), ..s }, u),
    ensures
        keeps(g, s, State { current: s.current, ..u }),
        forall|n: NameView| #[trigger]
            s.registry.contains_key(n) && s.processed.contains_key(n) ==> u.registry.contains_key(n)
                && u.registry[n] == s.registry[n],
{
    reveal(keeps_beside);
    let t = State { current: Seq::empty(), ..s };
    let v = State { current: s.current, ..u };
    assert(held(v)) by {
        assert forall|k: int| 0 <= k < v.current.len() implies v.processed.contains_key(
            #[trigger] v.current[k],
        ) by {
            assert(s.processed.contains_key(s.current[k]));
            assert(t.processed.contains_key(s.current[k]));
        }
    }
    lemma_same_order(u, v);
    assert forall|d: u128| #[trigger]
        s.generic_type_params.contains_key(d) implies v.generic_type_params.contains_key(d)
        && v.generic_type_params[d] == s.generic_type_params[d] by {
        assert(t.generic_type_params.contains_key(d));
    }
    lemma_same_keeping(g, s, t, u, v, Set::empty());
    assert forall|n: NameView| #[trigger]
        s.registry.contains_key(n) && s.processed.contains_key(n) implies u.registry.contains_key(
        n,
    ) && u.registry[n] == s.registry[n] by {
        assert(t.registry.contains_key(n));
    }
}

/// Setting the innermost container aside as well changes nothing of the room either.
pub proof fn lemma_set_aside(g: Seq<Shape>, s: State, room: nat)
    requires
        fit(g, s, room),
    ensures
        fit(g, model::set_aside(s), room),
{
    reveal(fit);
    let t = model::set_aside(s);
    lemma_same_order(s, t);
    assert(unclaimed(g, t) =~= unclaimed(g, s));
}

/// What is being built is set aside, the innermost container with it, and after a walk taken up
/// again: no container that has an owner has changed.
pub proof fn lemma_take_up(g: Seq<Shape>, s: State, u: State)
    requires
        orderly(s),
        keeps(g, model::set_aside(s), u),
    ensures
        keeps(g, s, model::take_up(s, u)),
        forall|n: NameView| #[trigger]
            s.registry.contains_key(n) && s.processed.contains_key(n) ==> model::take_up(
                s,
                u,
            ).registry.contains_key(n) && model::take_up(s, u).registry[n] == s.registry[n],
{
    reveal(keeps_beside);
    let t = model::set_aside(s);
    let v = model::take_up(s, u);
    assert(held(v)) by {
        assert forall|k: int| 0 <= k < v.current.len() implies v.processed.contains_key(
            #[trigger] v.current[k],
        ) by {
            assert(s.processed.contains_key(s.current[k]));
            assert(t.processed.contains_key(s.current[k]));
        }
    }
    assert(mapped(v));
    assert forall|d: u128| #[trigger]
        s.generic_type_params.contains_key(d) implies v.generic_type_params.contains_key(d)
        && v.generic_type_params[d] == s.generic_type_params[d] by {
        assert(t.generic_type_params.contains_key(d));
    }
    assert forall|n: NameView| #[trigger]
        s.processed.contains_key(n) implies v.processed.contains_key(n) && v.processed[n]
        == s.processed[n] by {
        assert(t.processed.contains_key(n));
    }
    assert forall|n: NameView| #[trigger] v.processed.contains_key(n) implies
        s.processed.contains_key(n) || is_known_as(g, v.processed[n].id, n) by {
        assert(u.processed.contains_key(n));
    }
    if s.current.len() > 0 {
        assert(s.current[s.current.len() - 1] == s.current.last());
        assert(s.processed.contains_key(s.current.last()));
    }
    assert forall|n: NameView| #[trigger] v.registry.contains_key(n) implies {
        ||| s.registry.contains_key(n)
        ||| v.processed.contains_key(n) && !s.processed.contains_key(n)
    } by {
        assert(s.registry.contains_key(n) || u.registry.contains_key(n));
    }
    assert forall|n: NameView| #[trigger]
        s.registry.contains_key(n) && s.processed.contains_key(n) implies v.registry.contains_key(
        n,
    ) && v.registry[n] == s.registry[n] by {
        if !is_innermost(s, n) {
            assert(t.registry.contains_key(n) && t.processed.contains_key(n));
        }
    }
    assert forall|n: NameView|
        #![trigger v.registry.contains_key(n)]
        v.processed.contains_key(n) && !s.processed.contains_key(
            n,
        ) implies v.registry.contains_key(n) || is_bare(g, v.processed[n].id) by {
        assert(u.registry.contains_key(n) || is_bare(g, u.processed[n].id));
    }
    assert(within(g, s) ==> within(g, t));
}

// Types

pub proof fn lemma_meet_params(g: Seq<Shape>, s: State, shape: Shape)
    requires
        orderly(s),
    ensures
        keeps(g, s, model::meet_params(s, shape).0),
{
    reveal(keeps_beside);
    let t = model::meet_params(s, shape).0;
    assert(mapped(t));
}

/// What taking a name and recording the rename leaves in order.
proof fn lemma_take_name(g: Seq<Shape>, s: State, name: NameView, j: int)
    requires
        orderly(s),
        !s.processed.contains_key(name),
    ensures
        orderly(model::note_rename(g, model::take_name(g, s, name, j), name, j)),
        stay_taken(s, model::note_rename(g, model::take_name(g, s, name, j), name, j)),
{
    let u = model::note_rename(g, model::take_name(g, s, name, j), name, j);
    assert forall|k: NameView| #[trigger] u.name_mappings.contains_key(k) implies is_kept(
        u,
        k,
        u.name_mappings[k],
    ) by {
        if s.name_mappings.contains_key(k) && u.name_mappings[k] == s.name_mappings[k] {
            assert(is_kept(s, k, s.name_mappings[k]));
        }
    }
}

/// The name that a walk takes for a shape is one of those that a walk over the table can take,
/// or it has been taken before.
proof fn lemma_walk_name_within(g: Seq<Shape>, s: State, j: int, room: nat)
    requires
        fit(g, s, room),
        0 <= j < g.len(),
    ensures
        model::walk_name(g, s, j).1 matches Step::Done(name) ==> reach::candidates(g).contains(name)
            || s.processed.contains_key(name),
{
    reveal(fit);
    reach::lemma_own_space(g, j);
    if let Ok(own) = naming::own_name(g, j) {
        assert(reach::base(g, j) == own.name);
        reach::lemma_candidate(g, j, own.namespace);
        let stack = s.namespace_context_stack;
        if let Some(context) = model::context(s) {
            assert(reach::spaces(g).contains(stack[stack.len() - 1].namespace));
            reach::lemma_candidate(g, j, context.namespace);
        }
    }
}

/// The name that a walk takes for a shape is in a namespace that a walk over the table can enter,
/// or it has been taken before.
proof fn lemma_walk_name_space(g: Seq<Shape>, s: State, j: int)
    requires
        orderly(s),
        within(g, s),
        0 <= j < g.len(),
    ensures
        model::walk_name(g, s, j).1 matches Step::Done(name) ==> reach::spaces(g).contains(
            name.namespace,
        ) || s.processed.contains_key(name),
{
    reach::lemma_own_space(g, j);
    let stack = s.namespace_context_stack;
    if let Some(context) = model::context(s) {
        assert(reach::spaces(g).contains(stack[stack.len() - 1].namespace));
    }
    let key = names::root_name(g[j].type_identifier@);
    if model::recorded_rename(g, s, j) is Some {
        assert(is_kept(s, key, s.name_mappings[key]));
    }
}

/// The states between which a container is opened: named, and its name taken.
pub proof fn lemma_opened(g: Seq<Shape>, s: State, j: int)
    requires
        orderly(s),
        0 <= j < g.len(),
        walk::open_container(g, s, j) matches Step::Done((_, Some(_))),
    ensures
        ({
            let (s1, named) = model::walk_name(g, s, j);
            let name = named->Done_0;
            let s2 = model::note_rename(g, model::take_name(g, s1, name, j), name, j);
            &&& keeps(g, s, s1)
            &&& same_but_met(s, s1)
            &&& !s.processed.contains_key(name)
            &&& orderly(s2)
            &&& stay_taken(s, s2)
        }),
{
    lemma_walk_name(g, s, j);
    let (s1, named) = model::walk_name(g, s, j);
    lemma_take_name(g, s1, named->Done_0, j);
}

/// A container that is opened has an owner. One that had none before takes up some of the room.
pub proof fn lemma_open(g: Seq<Shape>, s: State, j: int, room: nat)
    requires
        fit(g, s, room),
        0 <= j < g.len(),
    ensures
        match walk::open_container(g, s, j) {
            Step::Done((t, None)) => keeps(g, s, t),
            Step::Done((t, Some(name))) => {
                &&& room > 0
                &&& t.processed.contains_key(name)
                &&& fit(g, t, (room - 1) as nat)
            },
            Step::Stuck => false,
            _ => true,
        },
{
    lemma_fit_orderly(g, s, room);
    lemma_walk_name(g, s, j);
    lemma_walk_name_within(g, s, j, room);
    let (s1, named) = model::walk_name(g, s, j);
    if let Step::Done((t, Some(name))) = walk::open_container(g, s, j) {
        lemma_opened(g, s, j);
        let s2 = model::note_rename(g, model::take_name(g, s1, name, j), name, j);
        lemma_fit_after(g, s, s1, room);
        reach::lemma_candidates_finite(g);
        assert(unclaimed(g, s2) =~= unclaimed(g, s1).remove(name));
        assert(unclaimed(g, s1).contains(name));
        assert(room > 0 && fit(g, s2, (room - 1) as nat)) by {
            reveal(fit);
        }
        if let Ok(action) = namespace::namespace_action(g[j].attributes@) {
            reach::lemma_shape_space(g, j);
            lemma_enter(g, s2, action, (room - 1) as nat);
        }
    }
}

/// The contexts that attributes call for are explicit.
pub proof fn lemma_action_is_explicit(attributes: Seq<Attr>, from: int)
    ensures
        namespace::action_from(attributes, from) matches Ok(ActionView::SetContext(context))
            ==> context.explicit,
    decreases attributes.len() - from,
{
    if 0 <= from < attributes.len() {
        lemma_action_is_explicit(attributes, from + 1);
    }
}

/// A container that is opened goes by the name that it takes.
pub proof fn lemma_opened_goes_by(g: Seq<Shape>, s: State, j: int)
    requires
        orderly(s),
        0 <= j < g.len(),
        naming::inner_of(g, j) is None,
        walk::open_container(g, s, j) matches Step::Done((_, Some(_))),
    ensures
        goes_by(g, j, model::walk_name(g, s, j).1->Done_0),
{
    lemma_opened(g, s, j);
    let key = names::root_name(g[j].type_identifier@);
    if s.name_mappings.contains_key(key) {
        assert(is_kept(s, key, s.name_mappings[key]));
    }
    assert(naming::generated(g, j) == j);
    lemma_action_is_explicit(g[j].attributes@, 0);
}

/// A container that is opened is, after a walk, closed.
pub proof fn lemma_close(g: Seq<Shape>, s: State, j: int, u: State)
    requires
        orderly(s),
        0 <= j < g.len(),
        naming::inner_of(g, j) is None,
        walk::open_container(g, s, j) matches Step::Done((t, Some(name))) && keeps_beside(
            g,
            t,
            u,
            set![name],
        ),
    ensures
        keeps(g, s, model::leave(u)),
{
    lemma_opened(g, s, j);
    let (s1, named) = model::walk_name(g, s, j);
    let name = named->Done_0;
    let s2 = model::note_rename(g, model::take_name(g, s1, name, j), name, j);
    let action = namespace::namespace_action(g[j].attributes@)->Ok_0;
    let v = model::leave(u);
    reach::lemma_shape_space(g, j);
    lemma_leave_beside(g, s2, action, u, set![name]);
    reveal(keeps_beside);
    assert(s2.registry == s.registry);
    assert(s2.generic_type_params == s.generic_type_params);
    assert(s2.processed.dom() =~= s.processed.dom().insert(name));
    assert(s2.processed.contains_key(name));
    assert(is_known_as(g, s2.processed[name].id, name)) by {
        let key = names::root_name(g[j].type_identifier@);
        if s.name_mappings.contains_key(key) {
            assert(is_kept(s, key, s.name_mappings[key]));
        }
        assert(naming::generated(g, j) == j);
        assert(g[j].id == s2.processed[name].id);
        lemma_action_is_explicit(g[j].attributes@, 0);
        assert(goes_by(g, j, name));
    }
    assert forall|n: NameView| #[trigger] v.processed.contains_key(n) implies
        s.processed.contains_key(n) || is_known_as(g, v.processed[n].id, n) by {
        if s2.processed.contains_key(n) {
            assert(v.processed[n] == s2.processed[n]);
            assert(n == name || s.processed.dom().contains(n));
        }
    }
    assert forall|n: NameView| #[trigger] s.processed.contains_key(n) implies
        v.processed.contains_key(n) && v.processed[n] == s.processed[n] by {
        assert(s2.processed.contains_key(n));
    }
    assert forall|n: NameView| #[trigger] v.registry.contains_key(n) implies {
        ||| s.registry.contains_key(n)
        ||| v.processed.contains_key(n) && !s.processed.contains_key(n)
    } by {
        assert(v.processed.contains_key(name));
        assert(s2.registry.contains_key(n) || n == name || !s2.processed.dom().contains(n));
    }
    assert forall|n: NameView| #[trigger]
        s.registry.contains_key(n) && s.processed.contains_key(n) implies {
        &&& v.registry.contains_key(n)
        &&& is_innermost(s, n) && becomes(s.registry[n], v.registry[n]) || v.registry[n]
            == s.registry[n]
    } by {
        assert(s2.registry.contains_key(n) && s2.processed.contains_key(n));
        assert(!set![name].contains(n));
    }
    assert(set![name].contains(name));
    assert forall|n: NameView|
        #![trigger v.registry.contains_key(n)]
        v.processed.contains_key(n) && !s.processed.contains_key(
            n,
        ) implies v.registry.contains_key(n) || is_bare(g, v.processed[n].id) by {
        assert(n == name || !s2.processed.dom().contains(n));
    }
    assert(take_within(g, s, v)) by {
        if within(g, s) {
            lemma_walk_name_space(g, s, j);
            assert(within(g, s2));
            assert forall|n: NameView| #[trigger] v.processed.contains_key(n) implies
                s.processed.contains_key(n) || reach::spaces(g).contains(n.namespace) by {
                assert(n == name || s2.processed.contains_key(n) == s.processed.contains_key(n));
            }
        }
    }
}

} // verus!
