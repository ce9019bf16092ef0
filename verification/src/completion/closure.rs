//! A walk leaves no reference without its container.
//!
//! There is one lemma for each part of the walk, beside those that say what the walk keeps.

use vstd::prelude::*;

use crate::completion;
use crate::format::{ContainerView, FormatView, NamedView, TaggingView, VariantView};
use crate::model;
use crate::model::State;
use crate::names::{NameView, SpaceView};
use crate::namespace;
use crate::namespace::ActionView;
use crate::naming;
use crate::progress;
use crate::reach;
use crate::registry;
use crate::scalar;
use crate::shape;
use crate::shape::{
    Def, Field, PointerType, SequenceType, Shape, StructKind, Type, UserType, Variant,
};
use crate::step::Step;
use crate::walk;
use crate::walk::{Inside, Wrap};

verus! {

// References

/// Whether one of the formats of the container refers to `name`.
pub open spec fn mentions(container: ContainerView, name: NameView) -> bool {
    exists|format: FormatView| #[trigger]
        registry::part_of(container, format) && registry::refers(format, name)
}

/// Every name that the container refers to has an owner.
pub open spec fn is_served(container: ContainerView, s: State) -> bool {
    forall|m: NameView| #[trigger] mentions(container, m) ==> s.processed.contains_key(m)
}

/// Every name that `b` refers to, but those that `a` refers to, has an owner.
pub open spec fn is_grown(a: ContainerView, b: ContainerView, t: State) -> bool {
    forall|m: NameView| #[trigger]
        mentions(b, m) ==> mentions(a, m) || t.processed.contains_key(m)
}

/// Every name that the format refers to has an owner, if the state is well named.
pub open spec fn is_answered(g: Seq<Shape>, format: FormatView, s: State) -> bool {
    completion::well_named(g, s) ==> completion::has_owners(format, s)
}

/// Every name that the variant refers to has an owner.
pub open spec fn is_served_variant(variant: VariantView, s: State) -> bool {
    forall|format: FormatView| #[trigger]
        registry::part_of_variant(variant, format) ==> completion::has_owners(format, s)
}

pub open spec fn are_served_variants(
    variants: Map<u32, NamedView<VariantView>>,
    s: State,
) -> bool {
    forall|k: u32| #[trigger]
        variants.contains_key(k) ==> is_served_variant(variants[k].value, s)
}

/// Every name that one of the fields refers to has an owner.
pub open spec fn are_served_fields(fields: Seq<NamedView<FormatView>>, s: State) -> bool {
    forall|k: int|
        0 <= k < fields.len() ==> completion::has_owners((#[trigger] fields[k]).value, s)
}

/// What has become of the container `n` since `s`: it is as it was, or it is the innermost one of
/// those being built and its new references are served, or all its references are.
pub open spec fn is_sealed(s: State, t: State, n: NameView) -> bool {
    ||| s.registry.contains_key(n) && t.registry[n] == s.registry[n]
    ||| s.registry.contains_key(n) && progress::is_innermost(s, n) && is_grown(
        s.registry[n],
        t.registry[n],
        t,
    )
    ||| is_served(t.registry[n], t)
}

/// What a walk from `s` to `t` does to the containers, if `t` is well named: it changes none but
/// the innermost one of those being built, and serves every reference that it makes.
#[verifier::opaque]
pub open spec fn seals(g: Seq<Shape>, s: State, t: State) -> bool {
    completion::well_named(g, t) ==> forall|n: NameView| #[trigger]
        t.registry.contains_key(n) ==> is_sealed(s, t, n)
}

/// A step that serves every reference that it makes, if it succeeds.
pub open spec fn closes(g: Seq<Shape>, s: State, step: Step<State>) -> bool {
    step matches Step::Done(t) ==> seals(g, s, t)
}

/// The same for a step that yields a format.
pub open spec fn closes_value(
    g: Seq<Shape>,
    s: State,
    step: Step<(State, Option<FormatView>)>,
) -> bool {
    step matches Step::Done((t, value)) ==> {
        &&& seals(g, s, t)
        &&& value matches Some(format) ==> is_answered(g, format, t)
    }
}

/// The same for a step that yields a variant.
pub open spec fn closes_variant(
    g: Seq<Shape>,
    s: State,
    step: Step<(State, VariantView)>,
) -> bool {
    step matches Step::Done((t, variant)) ==> {
        &&& seals(g, s, t)
        &&& completion::well_named(g, t) ==> is_served_variant(variant, t)
    }
}

proof fn lemma_seals_refl(g: Seq<Shape>, s: State)
    ensures
        seals(g, s, s),
{
    reveal(seals);
}

/// Only the containers, those being built and the owners matter.
proof fn lemma_seals_same(g: Seq<Shape>, a: State, b: State, c: State, d: State)
    requires
        seals(g, b, c),
        a.registry == b.registry,
        a.current == b.current,
        c.registry == d.registry,
        c.processed == d.processed,
    ensures
        seals(g, a, d),
        completion::well_named(g, c) == completion::well_named(g, d),
{
    reveal(seals);
    lemma_well_named_same(g, c, d);
    if completion::well_named(g, d) {
        assert forall|n: NameView| #[trigger] d.registry.contains_key(n) implies is_sealed(
            a,
            d,
            n,
        ) by {
            assert(c.registry.contains_key(n));
            assert(is_sealed(b, c, n));
        }
    }
}

proof fn lemma_well_named_same(g: Seq<Shape>, c: State, d: State)
    requires
        c.processed == d.processed,
    ensures
        completion::well_named(g, c) == completion::well_named(g, d),
{
    if completion::well_named(g, c) {
        completion::lemma_well_named_before(g, d, c);
    }
    if completion::well_named(g, d) {
        completion::lemma_well_named_before(g, c, d);
    }
}

/// What was answered stays answered.
proof fn lemma_answered_stays(g: Seq<Shape>, format: FormatView, s: State, t: State)
    requires
        is_answered(g, format, s),
        progress::stay_taken(s, t),
    ensures
        is_answered(g, format, t),
{
    if completion::well_named(g, t) {
        completion::lemma_well_named_before(g, s, t);
        completion::lemma_owners_stay(g, format, s, t);
    }
}

/// What stands for a reference and was answered stays answered.
proof fn lemma_standing_answered(g: Seq<Shape>, i: int, format: FormatView, s: State, t: State)
    requires
        is_answered(g, walk::standing(g, s, i, format), s),
        progress::stay_taken(s, t),
    ensures
        is_answered(g, walk::standing(g, t, i, format), t),
{
    if completion::well_named(g, t) {
        completion::lemma_well_named_before(g, s, t);
        completion::lemma_standing_stays(g, i, format, s, t);
    }
}

/// What a reference puts around another one is answered as that is.
proof fn lemma_wrapped_answered(g: Seq<Shape>, wrap: Wrap, format: FormatView, t: State)
    requires
        is_answered(g, format, t),
    ensures
        is_answered(g, walk::wrapped(wrap, format), t),
{
    if completion::well_named(g, t) {
        completion::lemma_wrapped_owners(wrap, format, t);
    }
}

proof fn lemma_seals_trans(g: Seq<Shape>, a: State, b: State, c: State)
    requires
        progress::keeps(g, a, b),
        progress::keeps(g, b, c),
        seals(g, a, b),
        seals(g, b, c),
    ensures
        seals(g, a, c),
{
    progress::lemma_keeps_orderly(g, a, b);
    progress::lemma_keeps_orderly(g, b, c);
    lemma_seals_then(g, a, b, c);
}

proof fn lemma_seals_then(g: Seq<Shape>, a: State, b: State, c: State)
    requires
        a.current == b.current,
        progress::stay_taken(b, c),
        seals(g, a, b),
        seals(g, b, c),
    ensures
        seals(g, a, c),
{
    reveal(seals);
    if completion::well_named(g, c) {
        completion::lemma_well_named_before(g, b, c);
        assert forall|n: NameView| #[trigger] c.registry.contains_key(n) implies is_sealed(
            a,
            c,
            n,
        ) by {
            assert(is_sealed(b, c, n));
            if !is_served(c.registry[n], c) {
                assert(b.registry.contains_key(n));
                assert(is_sealed(a, b, n));
                if is_served(b.registry[n], b) {
                    assert forall|m: NameView| #[trigger] mentions(c.registry[n], m) implies
                        c.processed.contains_key(m) by {
                        if mentions(b.registry[n], m) {
                            assert(b.processed.contains_key(m));
                        }
                    }
                } else if c.registry[n] != a.registry[n] {
                    assert forall|m: NameView| #[trigger]
                        mentions(c.registry[n], m) implies mentions(a.registry[n], m)
                        || c.processed.contains_key(m) by {
                        if mentions(b.registry[n], m) && b.processed.contains_key(m) {
                            assert(c.processed.contains_key(m));
                        }
                    }
                }
            }
        }
    }
}

/// A step after a walk.
proof fn lemma_closes_after(g: Seq<Shape>, s: State, t: State, step: Step<State>)
    requires
        progress::keeps(g, s, t),
        seals(g, s, t),
        progress::goes(g, t, step),
        closes(g, t, step),
    ensures
        closes(g, s, step),
{
    if let Step::Done(u) = step {
        lemma_seals_trans(g, s, t, u);
    }
}

// The container being built

/// The container being built is rebuilt with another format, and a walk serves what that refers
/// to.
proof fn lemma_seals_rebuilt(
    g: Seq<Shape>,
    s: State,
    before: ContainerView,
    container: ContainerView,
    format: FormatView,
    t: State,
)
    requires
        model::innermost(s) == Some(before),
        forall|m: NameView| #[trigger]
            mentions(container, m) ==> mentions(before, m) || registry::refers(format, m),
        is_answered(g, format, t),
        seals(g, model::rebuild(s, container), t),
    ensures
        seals(g, s, t),
{
    reveal(seals);
    let u = model::rebuild(s, container);
    let last = s.current.last();
    if completion::well_named(g, t) {
        assert forall|n: NameView| #[trigger] t.registry.contains_key(n) implies is_sealed(
            s,
            t,
            n,
        ) by {
            assert(is_sealed(u, t, n));
            assert(u.registry.contains_key(n) == s.registry.contains_key(n));
            if n == last {
                if !is_served(t.registry[n], t) {
                    assert forall|m: NameView| #[trigger]
                        mentions(t.registry[n], m) implies mentions(before, m)
                        || t.processed.contains_key(m) by {
                        if mentions(container, m) && registry::refers(format, m) {
                            assert(t.processed.contains_key(m));
                        }
                    }
                }
            } else {
                assert(u.registry.contains_key(n) ==> u.registry[n] == s.registry[n]);
            }
        }
    }
}

/// What a tuple with another format refers to.
proof fn lemma_push_mentions(
    formats: Seq<FormatView>,
    doc: Seq<Seq<char>>,
    format: FormatView,
    m: NameView,
)
    requires
        mentions(ContainerView::TupleStruct(formats.push(format), doc), m),
    ensures
        mentions(ContainerView::TupleStruct(formats, doc), m) || registry::refers(format, m),
{
    let before = ContainerView::TupleStruct(formats, doc);
    let after = ContainerView::TupleStruct(formats.push(format), doc);
    let part = choose|f: FormatView| #[trigger]
        registry::part_of(after, f) && registry::refers(f, m);
    let k = choose|k: int| 0 <= k < formats.push(format).len() && formats.push(format)[k] == part;
    if k < formats.len() {
        assert(formats[k] == part);
        assert(registry::part_of(before, part));
    }
}

/// What a struct refers to whose fields are those of another one, but that at `at`.
proof fn lemma_field_mentions(
    fields: Seq<NamedView<FormatView>>,
    changed: Seq<NamedView<FormatView>>,
    doc: Seq<Seq<char>>,
    at: int,
    m: NameView,
)
    requires
        0 <= at < changed.len(),
        forall|k: int|
            0 <= k < changed.len() && k != at ==> k < fields.len() && #[trigger] changed[k]
                == fields[k],
        mentions(ContainerView::Struct(changed, doc), m),
    ensures
        mentions(ContainerView::Struct(fields, doc), m) || registry::refers(
            changed[at].value,
            m,
        ),
{
    let before = ContainerView::Struct(fields, doc);
    let after = ContainerView::Struct(changed, doc);
    let part = choose|f: FormatView| #[trigger]
        registry::part_of(after, f) && registry::refers(f, m);
    let k = choose|k: int| 0 <= k < changed.len() && (#[trigger] changed[k]).value == part;
    if k != at {
        assert(changed[k] == fields[k]);
        assert(before->Struct_0[k].value == part);
        assert(registry::part_of(before, part));
    }
}

/// The container being built is given a format, and a walk serves what that refers to.
proof fn lemma_seals_supplied(g: Seq<Shape>, s: State, format: FormatView, force: bool, t: State)
    requires
        is_answered(g, format, t),
        model::supply(s, format, force) matches Step::Done(u) && seals(g, u, t),
    ensures
        seals(g, s, t),
{
    match model::innermost(s) {
        Some(ContainerView::NewTypeStruct(inner, doc)) => if force || inner is Variable {
            let before = ContainerView::NewTypeStruct(inner, doc);
            let after = ContainerView::NewTypeStruct(format, doc);
            lemma_seals_rebuilt(g, s, before, after, format, t);
        },
        Some(ContainerView::TupleStruct(formats, doc)) => {
            let before = ContainerView::TupleStruct(formats, doc);
            let after = ContainerView::TupleStruct(formats.push(format), doc);
            assert forall|m: NameView| #[trigger] mentions(after, m) implies mentions(before, m)
                || registry::refers(format, m) by {
                lemma_push_mentions(formats, doc, format, m);
            }
            lemma_seals_rebuilt(g, s, before, after, format, t);
        },
        Some(ContainerView::Struct(fields, doc)) => if fields.len() > 0 && fields.last().value
            is Variable {
            let last = NamedView { value: format, ..fields.last() };
            let changed = fields.update(fields.len() - 1, last);
            let before = ContainerView::Struct(fields, doc);
            let after = ContainerView::Struct(changed, doc);
            assert forall|m: NameView| #[trigger] mentions(after, m) implies mentions(before, m)
                || registry::refers(format, m) by {
                lemma_field_mentions(fields, changed, doc, fields.len() - 1, m);
            }
            lemma_seals_rebuilt(g, s, before, after, format, t);
        },
        _ => {},
    }
}

/// The struct being built is given a field, and a walk serves what that refers to.
proof fn lemma_seals_field(g: Seq<Shape>, s: State, field: NamedView<FormatView>, t: State)
    requires
        is_answered(g, field.value, t),
        seals(g, model::add_field(s, field), t),
    ensures
        seals(g, s, t),
{
    if let Some(ContainerView::Struct(fields, doc)) = model::innermost(s) {
        let before = ContainerView::Struct(fields, doc);
        let after = ContainerView::Struct(fields.push(field), doc);
        assert forall|m: NameView| #[trigger] mentions(after, m) implies mentions(before, m)
            || registry::refers(field.value, m) by {
            lemma_field_mentions(fields, fields.push(field), doc, fields.len() as int, m);
        }
        lemma_seals_rebuilt(g, s, before, after, field.value, t);
    }
}

/// The tuple being built is given a format, and a walk serves what that refers to.
proof fn lemma_seals_item(g: Seq<Shape>, s: State, format: FormatView, t: State)
    requires
        is_answered(g, format, t),
        seals(g, model::add_item(s, format), t),
    ensures
        seals(g, s, t),
{
    if let Some(ContainerView::TupleStruct(formats, doc)) = model::innermost(s) {
        let before = ContainerView::TupleStruct(formats, doc);
        let after = ContainerView::TupleStruct(formats.push(format), doc);
        assert forall|m: NameView| #[trigger] mentions(after, m) implies mentions(before, m)
            || registry::refers(format, m) by {
            lemma_push_mentions(formats, doc, format, m);
        }
        lemma_seals_rebuilt(g, s, before, after, format, t);
    }
}

/// The formats of scalars and of byte strings refer to nothing.
proof fn lemma_scalar_owners(shape: Shape, s: State)
    ensures
        scalar::scalar_format(shape) matches Step::Done(Some(format)) ==> completion::has_owners(
            format,
            s,
        ),
{
    if let Step::Done(Some(format)) = scalar::scalar_format(shape) {
        assert(forall|m: NameView| !#[trigger] registry::refers(format, m));
    }
}

proof fn lemma_bytes_owners(g: Seq<Shape>, field: Field, s: State)
    ensures
        scalar::bytes_format(g, field) matches Step::Done(Some(format)) ==> completion::has_owners(
            format,
            s,
        ),
{
    if let Step::Done(Some(format)) = scalar::bytes_format(g, field) {
        assert forall|m: NameView| !#[trigger] registry::refers(format, m) by {
            assert(!registry::refers(FormatView::Bytes, m));
        }
    }
}

/// A byte string is supplied.
proof fn lemma_seals_bytes(g: Seq<Shape>, s: State, field: Field)
    ensures
        model::supply_bytes(g, s, field) matches Step::Done((t, supplied)) ==> {
            &&& seals(g, s, t)
            &&& !supplied ==> t == s
        },
{
    lemma_seals_refl(g, s);
    if let Step::Done((t, true)) = model::supply_bytes(g, s, field) {
        let value = scalar::bytes_format(g, field)->Done_0->0;
        lemma_bytes_owners(g, field, t);
        lemma_seals_refl(g, t);
        match model::innermost(s) {
            Some(ContainerView::NewTypeStruct(inner, doc)) => {
                let before = ContainerView::NewTypeStruct(inner, doc);
                lemma_seals_rebuilt(
                    g,
                    s,
                    before,
                    ContainerView::NewTypeStruct(value, doc),
                    value,
                    t,
                );
            },
            Some(ContainerView::TupleStruct(_, _)) => {
                lemma_seals_item(g, s, value, t);
            },
            _ => {
                let named = NamedView {
                    name: naming::renamed(field.rename, field.name),
                    doc: crate::format::lines_view(g[field.shape as int].doc@),
                    value,
                };
                lemma_seals_field(g, s, named, t);
            },
        }
    }
}

/// A struct without fields becomes a unit struct.
proof fn lemma_seals_settled(g: Seq<Shape>, s: State)
    ensures
        seals(g, s, model::settle_struct(s)),
{
    let t = model::settle_struct(s);
    lemma_seals_refl(g, s);
    lemma_seals_refl(g, t);
    if let Some(ContainerView::Struct(fields, doc)) = model::innermost(s) {
        if fields.len() == 0 {
            assert(completion::has_owners(FormatView::Unit, t));
            lemma_seals_rebuilt(
                g,
                s,
                ContainerView::Struct(fields, doc),
                ContainerView::UnitStruct(doc),
                FormatView::Unit,
                t,
            );
        }
    }
}

/// A container is started and, after a walk, finished.
proof fn lemma_seals_finished(
    g: Seq<Shape>,
    s: State,
    name: NameView,
    container: ContainerView,
    u: State,
)
    requires
        completion::well_named(g, u) ==> is_served(container, u),
        seals(g, model::start(s, name, container), u),
    ensures
        seals(g, s, model::finish(u)),
{
    reveal(seals);
    let t = model::start(s, name, container);
    let v = model::finish(u);
    lemma_well_named_same(g, u, v);
    if completion::well_named(g, v) {
        assert forall|n: NameView| #[trigger] v.registry.contains_key(n) implies is_sealed(
            s,
            v,
            n,
        ) by {
            assert(u.registry.contains_key(n));
            assert(is_sealed(t, u, n));
            if n == name {
                assert(t.registry[n] == container);
                assert(is_served(v.registry[n], v)) by {
                    assert forall|m: NameView| #[trigger] mentions(v.registry[n], m) implies
                        v.processed.contains_key(m) by {
                        if mentions(container, m) {
                            assert(u.processed.contains_key(m));
                        }
                    }
                }
            } else {
                assert(t.registry.contains_key(n) == s.registry.contains_key(n));
                assert(is_served(u.registry[n], u) == is_served(v.registry[n], v));
            }
        }
    }
}

/// The containers being built are set aside and, after a walk, taken up again.
proof fn lemma_seals_resumed(g: Seq<Shape>, s: State, u: State)
    requires
        seals(g, State { current: Seq::empty(), ..s }, u),
    ensures
        seals(g, s, State { current: s.current, ..u }),
{
    reveal(seals);
    let t = State { current: Seq::empty(), ..s };
    let v = State { current: s.current, ..u };
    lemma_well_named_same(g, u, v);
    if completion::well_named(g, v) {
        assert forall|n: NameView| #[trigger] v.registry.contains_key(n) implies is_sealed(
            s,
            v,
            n,
        ) by {
            assert(u.registry.contains_key(n));
            assert(is_sealed(t, u, n));
            assert(is_served(u.registry[n], u) == is_served(v.registry[n], v));
        }
    }
}

/// What is being built is set aside, the innermost container with it, and after a walk taken up
/// again.
proof fn lemma_seals_taken_up(g: Seq<Shape>, s: State, u: State)
    requires
        seals(g, model::set_aside(s), u),
    ensures
        seals(g, s, model::take_up(s, u)),
{
    reveal(seals);
    let t = model::set_aside(s);
    let v = model::take_up(s, u);
    lemma_well_named_same(g, u, v);
    if completion::well_named(g, v) {
        assert forall|n: NameView| #[trigger] v.registry.contains_key(n) implies is_sealed(
            s,
            v,
            n,
        ) by {
            if !progress::is_innermost(s, n) {
                assert(u.registry.contains_key(n));
                assert(is_sealed(t, u, n));
                assert(v.registry[n] == u.registry[n]);
                assert(is_served(u.registry[n], u) == is_served(v.registry[n], v));
            }
        }
    }
}

// What a reference names has an owner afterwards

/// A walk goes on after a reference was made.
proof fn lemma_comes_after(g: Seq<Shape>, s: State, u: State, v: State)
    requires
        completion::comes_after(s, u),
        progress::keeps(g, u, v),
    ensures
        completion::comes_after(s, v),
{
    progress::lemma_keeps_orderly(g, u, v);
    assert forall|n: NameView| #[trigger] s.processed.contains_key(n) implies
        v.processed.contains_key(n) && v.processed[n] == s.processed[n] by {
        assert(u.processed.contains_key(n));
    }
}

/// The state in which a reference is made, and any later one, come after it.
proof fn lemma_referred(g: Seq<Shape>, s: State, i: int, v: State)
    requires
        shape::shapes_wf(g),
        progress::orderly(s),
        0 <= i < g.len(),
        progress::keeps(g, walk::reference(g, s, i, true).0, v),
    ensures
        completion::comes_after(s, v),
{
    progress::lemma_reference(g, s, i, true);
    lemma_comes_after(g, s, walk::reference(g, s, i, true).0, v);
}

proof fn lemma_nested_owners(
    g: Seq<Shape>,
    s: State,
    u: State,
    i: int,
    format: FormatView,
    room: nat,
)
    requires
        progress::fit(g, u, room),
        completion::all_regular(g),
        0 <= i < g.len(),
        completion::is_regular_at(g, i),
        completion::comes_after(s, u),
        walk::reference(g, s, i, true).1 == Step::Done(format),
    ensures
        walk::nested(g, u, i, room) matches Step::Done(t) ==> is_answered(
            g,
            walk::standing(g, t, i, format),
            t,
        ),
{
    let apart = model::set_aside(u);
    progress::lemma_set_aside(g, u, room);
    assert(progress::stay_taken(s, apart));
    completion::lemma_registered_owners(g, s, apart, i, format, room);
    if let Step::Done(v) = walk::register(g, apart, i, room) {
        lemma_standing_answered(g, i, format, v, model::take_up(u, v));
    }
}

/// The names of a reference to another type that a type wraps have owners once the type is
/// reflected.
proof fn lemma_compound_owners(
    g: Seq<Shape>,
    s: State,
    u: State,
    i: int,
    bound: int,
    wrap: Wrap,
    force: bool,
    format: FormatView,
    room: nat,
)
    requires
        progress::fit(g, u, room),
        completion::all_regular(g),
        0 <= i < bound <= g.len(),
        completion::is_regular_at(g, i),
        completion::comes_after(s, u),
        walk::reference(g, s, i, true).1 == Step::Done(format),
    ensures
        walk::compound(g, u, i, bound, wrap, force, room) matches Step::Done(t) ==> is_answered(
            g,
            walk::wrapped(wrap, walk::standing(g, t, i, format)),
            t,
        ),
{
    progress::lemma_fit_orderly(g, u, room);
    progress::lemma_reference(g, u, i, true);
    let (u1, referred) = walk::reference(g, u, i, true);
    if let Step::Done(named) = referred {
        progress::lemma_fit_after(g, u, u1, room);
        lemma_comes_after(g, s, u, u1);
        lemma_nested_owners(g, s, u1, i, format, room);
        completion::lemma_nested(g, u1, i, room, room);
        if let Step::Done(u2) = walk::nested(g, u1, i, room) {
            let stood = walk::wrapped(wrap, walk::standing(g, u2, i, named));
            progress::lemma_keeps_orderly(g, u1, u2);
            progress::lemma_supply(g, u2, stood, force);
            if let Step::Done(t) = model::supply(u2, stood, force) {
                progress::lemma_keeps_orderly(g, u2, t);
                lemma_standing_answered(g, i, format, u2, t);
                lemma_wrapped_answered(g, wrap, walk::standing(g, t, i, format), t);
            }
        }
    }
}

/// The references that a map makes to its keys and its values.
pub open spec fn map_reference(g: Seq<Shape>, s: State, key: int, value: int) -> Option<
    FormatView,
> {
    match walk::reference(g, s, key, true) {
        (s1, Step::Done(k)) => match walk::reference(g, s1, value, true).1 {
            Step::Done(v) => Some(FormatView::MapOf { key: Box::new(k), value: Box::new(v) }),
            _ => None,
        },
        _ => None,
    }
}

/// The references of a map with the names under which what they name stands.
pub open spec fn standing_map(
    g: Seq<Shape>,
    s: State,
    key: int,
    value: int,
    format: FormatView,
) -> FormatView {
    match format {
        FormatView::MapOf { key: k, value: v } => FormatView::MapOf {
            key: Box::new(walk::standing(g, s, key, *k)),
            value: Box::new(walk::standing(g, s, value, *v)),
        },
        other => other,
    }
}

proof fn lemma_map_owners(
    g: Seq<Shape>,
    s: State,
    u: State,
    key: int,
    value: int,
    bound: int,
    format: FormatView,
    room: nat,
)
    requires
        progress::fit(g, u, room),
        completion::all_regular(g),
        0 <= key < bound <= g.len(),
        0 <= value < bound,
        completion::is_regular_at(g, key),
        completion::is_regular_at(g, value),
        completion::comes_after(s, u),
        completion::comes_after(walk::reference(g, s, key, true).0, u),
        map_reference(g, s, key, value) == Some(format),
    ensures
        walk::format_map(g, u, key, value, bound, room) matches Step::Done(t) ==> is_answered(
            g,
            standing_map(g, t, key, value, format),
            t,
        ),
{
    progress::lemma_fit_orderly(g, u, room);
    progress::lemma_reference(g, u, key, true);
    let (s1, first) = walk::reference(g, s, key, true);
    let (u1, u_first) = walk::reference(g, u, key, true);
    progress::lemma_reference(g, u1, value, true);
    let (u2, u_second) = walk::reference(g, u1, value, true);
    let k = first->Done_0;
    let v = walk::reference(g, s1, value, true).1->Done_0;
    if u_first is Done && u_second is Done {
        progress::lemma_keeps_trans(g, u, u1, u2);
        progress::lemma_fit_after(g, u, u2, room);
        lemma_comes_after(g, s, u, u2);
        lemma_nested_owners(g, s, u2, key, k, room);
        completion::lemma_nested(g, u2, key, room, room);
        if let Step::Done(u3) = walk::nested(g, u2, key, room) {
            progress::lemma_fit_after(g, u2, u3, room);
            progress::lemma_keeps_trans(g, u, u2, u3);
            lemma_comes_after(g, s1, u, u3);
            lemma_nested_owners(g, s1, u3, value, v, room);
            completion::lemma_nested(g, u3, value, room, room);
            if let Step::Done(u4) = walk::nested(g, u3, value, room) {
                let filled = FormatView::MapOf {
                    key: Box::new(walk::standing(g, u3, key, u_first->Done_0)),
                    value: Box::new(walk::standing(g, u4, value, u_second->Done_0)),
                };
                progress::lemma_keeps_orderly(g, u3, u4);
                progress::lemma_supply(g, u4, filled, true);
                if let Step::Done(t) = model::supply(u4, filled, true) {
                    progress::lemma_keeps_orderly(g, u4, t);
                    lemma_standing_answered(g, key, k, u3, u4);
                    lemma_standing_answered(g, key, k, u4, t);
                    lemma_standing_answered(g, value, v, u4, t);
                    if completion::well_named(g, t) {
                        completion::lemma_map_format_owners(
                            walk::standing(g, t, key, k),
                            walk::standing(g, t, value, v),
                            t,
                        );
                    }
                }
            }
        }
    }
}

/// Every name that a reference to a type gives has an owner once the type is reflected under the
/// same context.
proof fn lemma_reflected_owners(
    g: Seq<Shape>,
    s: State,
    u: State,
    i: int,
    format: FormatView,
    room: nat,
)
    requires
        progress::fit(g, u, room),
        completion::all_regular(g),
        0 <= i < g.len(),
        completion::is_regular_at(g, i),
        completion::comes_after(s, u),
        walk::reference(g, s, i, true).1 == Step::Done(format),
    ensures
        walk::reflect(g, u, i, room) matches Step::Done(t) ==> is_answered(
            g,
            walk::standing(g, t, i, format),
            t,
        ),
    decreases i,
{
    progress::lemma_fit_orderly(g, u, room);
    naming::lemma_generated(g, i);
    let j = naming::generated(g, i);
    let shape = g[j];
    assert(completion::is_regular(shape));
    assert(shape::shape_wf(g, j));
    let u1 = model::meet_params(u, shape).0;
    progress::lemma_meet_params(g, u, shape);
    progress::lemma_fit_after(g, u, u1, room);
    lemma_comes_after(g, s, u, u1);
    if shape::is_container(shape) {
        completion::lemma_name_owned(g, s, u, j, format->TypeName_0, room);
        assert(walk::reflect(g, u, i, room) is Done ==> walk::reflect(g, u, i, room)
            == walk::reflect(g, u, j, room));
        if let Step::Done(t) = walk::reflect(g, u, i, room) {
            let stood = model::standing_name(g, t, j, format->TypeName_0);
            assert(forall|m: NameView| #[trigger]
                registry::refers(FormatView::TypeName(stood), m) ==> m == stood);
        }
    } else if let Some(fields) = walk::tuple_fields_of(shape) {
        let formats = walk::reference_all(g, s, fields, 0, i, true).1->Done_0;
        assert forall|k: int| 0 <= k < fields.len() implies completion::is_regular_at(
            g,
            (#[trigger] fields[k]).shape as int,
        ) by {
            assert(completion::holds(shape, fields[k].shape as int));
        }
        let apart = State { current: Seq::empty(), ..u1 };
        progress::lemma_aside(g, u1, room);
        assert(progress::stay_taken(s, apart));
        completion::lemma_registered_all_owners(g, s, apart, fields, 0, i, j, formats, room);
        if let Step::Done(v) = walk::register_all(g, apart, fields, 0, j, room) {
            assert(format == FormatView::Tuple(formats));
            if completion::well_named(g, v) {
                completion::lemma_standing_tuple(g, v, fields, formats, i);
            }
            lemma_standing_answered(g, i, format, v, State { current: u1.current, ..v });
        }
    } else if let Some((wrap, t)) = walk::single(shape) {
        assert(completion::holds(shape, t as int));
        let inner = walk::reference(g, s, t as int, true).1->Done_0;
        assert(format == walk::wrapped(wrap, inner));
        if shape.def is Undefined {
            lemma_reflected_owners(g, s, u1, t as int, inner, room);
            assert(walk::reflect(g, u, i, room) is Done ==> walk::reflect(g, u, i, room)
                == walk::reflect(g, u1, t as int, room));
        } else {
            let force = !(shape.def is Pointer);
            lemma_compound_owners(g, s, u1, t as int, j, wrap, force, inner, room);
            assert(walk::reflect(g, u, i, room) is Done ==> walk::reflect(g, u, i, room)
                == walk::compound(g, u1, t as int, j, wrap, force, room));
        }
    } else if let Def::MapOf { key, value } = shape.def {
        assert(completion::holds(shape, key as int) && completion::holds(shape, value as int));
        progress::lemma_reference(g, s, key as int, true);
        let s1 = walk::reference(g, s, key as int, true).0;
        progress::lemma_reference(g, s1, value as int, true);
        assert(progress::stay_taken(s1, u1)) by {
            assert forall|n: NameView| #[trigger] s1.processed.contains_key(n) implies
                u1.processed.contains_key(n) && u1.processed[n] == s1.processed[n] by {
                assert(s.processed.contains_key(n));
            }
        }
        lemma_map_owners(g, s, u1, key as int, value as int, j, format, room);
        assert(walk::reflect(g, u, i, room) is Done ==> walk::reflect(g, u, i, room)
            == walk::format_map(g, u1, key as int, value as int, j, room));
    } else {
        assert(forall|m: NameView| !#[trigger] registry::refers(format, m));
    }
}

// The parts of the walk

proof fn lemma_nested(g: Seq<Shape>, s: State, i: int, room: nat)
    requires
        progress::fit(g, s, room),
        completion::all_regular(g),
        0 <= i < g.len(),
    ensures
        closes(g, s, walk::nested(g, s, i, room)),
    decreases room, i, 7int, 0int,
{
    let apart = model::set_aside(s);
    progress::lemma_set_aside(g, s, room);
    lemma_register(g, apart, i, room);
    if let Step::Done(u) = walk::register(g, apart, i, room) {
        lemma_seals_taken_up(g, s, u);
    }
}

proof fn lemma_register(g: Seq<Shape>, s: State, i: int, room: nat)
    requires
        progress::fit(g, s, room),
        completion::all_regular(g),
        0 <= i < g.len(),
    ensures
        closes(g, s, walk::register(g, s, i, room)),
    decreases room, i, 6int, 0int,
{
    progress::lemma_fit_orderly(g, s, room);
    lemma_seals_refl(g, s);
    naming::lemma_generated(g, i);
    let k = naming::generated(g, i);
    let shape = g[k];
    assert(shape::shape_wf(g, k));
    if let Def::Option(t) = shape.def {
        lemma_register_below(g, s, t as int, k, room);
    } else {
        match shape.ty {
            Type::User(UserType::Struct(st)) => if st.kind == StructKind::Tuple {
                lemma_register_all(g, s, st.fields@, 0, k, room);
            } else {
                lemma_reflect(g, s, k, room);
            },
            Type::User(UserType::Enum(_)) => {
                lemma_reflect(g, s, k, room);
            },
            Type::Pointer(PointerType::Reference(t)) => {
                lemma_register_below(g, s, t as int, k, room);
            },
            Type::Pointer(PointerType::Raw(t)) => {
                lemma_register_below(g, s, t as int, k, room);
            },
            _ => match shape.def {
                Def::List(t) => {
                    lemma_register_below(g, s, t as int, k, room);
                },
                Def::Slice(t) => {
                    lemma_register_below(g, s, t as int, k, room);
                },
                Def::SetOf(t) => {
                    lemma_register_below(g, s, t as int, k, room);
                },
                Def::Array { item, size } => {
                    lemma_register_below(g, s, item as int, k, room);
                },
                Def::MapOf { key, value } => {
                    lemma_register_below(g, s, key as int, k, room);
                    completion::lemma_register_below(g, s, key as int, k, room, room);
                    if let Step::Done(s1) = walk::register_below(g, s, key as int, k, room) {
                        progress::lemma_fit_after(g, s, s1, room);
                        lemma_register_below(g, s1, value as int, k, room);
                        completion::lemma_register_below(g, s1, value as int, k, room, room);
                        lemma_closes_after(
                            g,
                            s,
                            s1,
                            walk::register_below(g, s1, value as int, k, room),
                        );
                    }
                },
                Def::Pointer(Some(t)) => {
                    lemma_register_below(g, s, t as int, k, room);
                },
                _ => {},
            },
        }
    }
}

proof fn lemma_register_below(g: Seq<Shape>, s: State, i: int, bound: int, room: nat)
    requires
        progress::fit(g, s, room),
        completion::all_regular(g),
        0 <= i < bound <= g.len(),
    ensures
        closes(g, s, walk::register_below(g, s, i, bound, room)),
    decreases room, bound, 1int, 0int,
{
    lemma_register(g, s, i, room);
}

proof fn lemma_register_all(
    g: Seq<Shape>,
    s: State,
    fields: Seq<Field>,
    from: int,
    bound: int,
    room: nat,
)
    requires
        progress::fit(g, s, room),
        completion::all_regular(g),
        0 <= from,
        0 <= bound <= g.len(),
        shape::fields_below(fields, bound),
    ensures
        closes(g, s, walk::register_all(g, s, fields, from, bound, room)),
    decreases room, bound, 2int, fields.len() - from,
{
    lemma_seals_refl(g, s);
    if from < fields.len() {
        let i = fields[from].shape as int;
        lemma_register_below(g, s, i, bound, room);
        completion::lemma_register_below(g, s, i, bound, room, room);
        if let Step::Done(s1) = walk::register_below(g, s, i, bound, room) {
            progress::lemma_fit_after(g, s, s1, room);
            lemma_register_all(g, s1, fields, from + 1, bound, room);
            completion::lemma_register_all(g, s1, fields, from + 1, bound, room, room);
            lemma_closes_after(
                g,
                s,
                s1,
                walk::register_all(g, s1, fields, from + 1, bound, room),
            );
        }
    }
}

/// Reflecting a type serves every reference that it makes.
pub proof fn lemma_reflect(g: Seq<Shape>, s: State, i: int, room: nat)
    requires
        progress::fit(g, s, room),
        completion::all_regular(g),
        0 <= i < g.len(),
    ensures
        closes(g, s, walk::reflect(g, s, i, room)),
    decreases room, i, 5int, 0int,
{
    progress::lemma_fit_orderly(g, s, room);
    naming::lemma_generated(g, i);
    let j = naming::generated(g, i);
    let shape = g[j];
    assert(shape::shape_wf(g, j));
    assert(model::is_opaque(shape) || completion::is_regular(shape));
    let (s1, supported) = model::meet_params(s, shape);
    progress::lemma_meet_params(g, s, shape);
    progress::lemma_fit_after(g, s, s1, room);
    if supported {
        if let Def::Option(t) = shape.def {
            assert(completion::holds(shape, t as int));
            lemma_compound(g, s1, t as int, j, Wrap::Option, true, room);
        } else {
            match shape.ty {
                Type::User(UserType::Struct(st)) => {
                    lemma_format_struct(g, s1, j, room);
                },
                Type::User(UserType::Enum(et)) => {
                    lemma_format_enum(g, s1, j, room);
                },
                Type::Sequence(sequence) => {
                    lemma_format_sequence(g, s1, j, sequence, room);
                },
                _ => {
                    lemma_format_def(g, s1, j, room);
                },
            }
        }
        if let Step::Done(t) = walk::reflect(g, s, i, room) {
            lemma_seals_same(g, s, s1, t, t);
        }
    }
}

proof fn lemma_format_sequence(
    g: Seq<Shape>,
    s: State,
    j: int,
    sequence: SequenceType,
    room: nat,
)
    requires
        progress::fit(g, s, room),
        completion::all_regular(g),
        0 <= j < g.len(),
        g[j].ty == Type::Sequence(sequence),
    ensures
        closes(g, s, walk::format_sequence(g, s, j, sequence, room)),
    decreases room, j, 4int, 0int,
{
    progress::lemma_fit_orderly(g, s, room);
    assert(shape::shape_wf(g, j));
    match (sequence, g[j].def) {
        (SequenceType::Slice(_), Def::Slice(t)) => {
            assert(completion::holds(g[j], t as int));
            lemma_compound(g, s, t as int, j, Wrap::SeqOf, true, room);
        },
        (SequenceType::Array(_), Def::Array { item, size }) => {
            assert(completion::holds(g[j], item as int));
            lemma_compound(g, s, item as int, j, Wrap::TupleArray(size), true, room);
        },
        (SequenceType::Slice(t), _) => {
            assert(completion::holds(g[j], t as int));
            lemma_compound(g, s, t as int, j, Wrap::SeqOf, true, room);
        },
        (SequenceType::Array(t), _) => {
            assert(completion::holds(g[j], t as int));
            lemma_compound(g, s, t as int, j, Wrap::SeqOf, true, room);
        },
    }
}

proof fn lemma_format_def(g: Seq<Shape>, s: State, j: int, room: nat)
    requires
        progress::fit(g, s, room),
        completion::all_regular(g),
        0 <= j < g.len(),
        !shape::is_container(g[j]),
    ensures
        closes(g, s, walk::format_def(g, s, j, room)),
    decreases room, j, 4int, 0int,
{
    progress::lemma_fit_orderly(g, s, room);
    lemma_seals_refl(g, s);
    let shape = g[j];
    assert(shape::shape_wf(g, j));
    match shape.def {
        Def::Scalar => {
            if let Step::Done(Some(format)) = scalar::scalar_format(shape) {
                if let Step::Done(t) = model::supply(s, format, true) {
                    lemma_scalar_owners(shape, t);
                    lemma_seals_refl(g, t);
                    lemma_seals_supplied(g, s, format, true, t);
                }
            }
        },
        Def::MapOf { key, value } => {
            assert(completion::holds(g[j], key as int));
            assert(completion::holds(g[j], value as int));
            lemma_format_map(g, s, key as int, value as int, j, room);
        },
        Def::List(t) => {
            assert(completion::holds(g[j], t as int));
            lemma_compound(g, s, t as int, j, Wrap::SeqOf, true, room);
        },
        Def::Slice(t) => {
            assert(completion::holds(g[j], t as int));
            lemma_compound(g, s, t as int, j, Wrap::SeqOf, true, room);
        },
        Def::Array { item, size } => {
            assert(completion::holds(g[j], item as int));
            lemma_compound(g, s, item as int, j, Wrap::TupleArray(size), true, room);
        },
        Def::SetOf(t) => {
            assert(completion::holds(g[j], t as int));
            lemma_compound(g, s, t as int, j, Wrap::SetOf, true, room);
        },
        Def::Option(t) => {
            assert(completion::holds(g[j], t as int));
            lemma_compound(g, s, t as int, j, Wrap::Option, true, room);
        },
        Def::Pointer(Some(t)) => {
            assert(completion::holds(g[j], t as int));
            lemma_compound(g, s, t as int, j, Wrap::Plain, false, room);
        },
        Def::Pointer(None) => {
            lemma_supply_plain(g, s, FormatView::Unit);
        },
        Def::Undefined => {
            lemma_format_undefined(g, s, j, room);
        },
        Def::Other => {},
    }
}

/// A format without parts is supplied.
proof fn lemma_supply_plain(g: Seq<Shape>, s: State, format: FormatView)
    requires
        match format {
            FormatView::Unit => true,
            FormatView::Bool => true,
            FormatView::F32 => true,
            FormatView::Str => true,
            _ => false,
        },
    ensures
        closes(g, s, model::supply(s, format, true)),
{
    if let Step::Done(t) = model::supply(s, format, true) {
        lemma_seals_refl(g, t);
        assert(forall|m: NameView| !#[trigger] registry::refers(format, m));
        lemma_seals_supplied(g, s, format, true, t);
    }
}

proof fn lemma_format_undefined(g: Seq<Shape>, s: State, j: int, room: nat)
    requires
        progress::fit(g, s, room),
        completion::all_regular(g),
        0 <= j < g.len(),
        !shape::is_container(g[j]),
    ensures
        closes(g, s, walk::format_undefined(g, s, j, room)),
    decreases room, j, 3int, 0int,
{
    progress::lemma_fit_orderly(g, s, room);
    lemma_seals_refl(g, s);
    assert(shape::shape_wf(g, j));
    lemma_supply_plain(g, s, FormatView::Bool);
    lemma_supply_plain(g, s, FormatView::F32);
    lemma_supply_plain(g, s, FormatView::Str);
    match g[j].ty {
        Type::Pointer(PointerType::Reference(t)) => {
            lemma_reflect(g, s, t as int, room);
        },
        Type::Pointer(PointerType::Raw(t)) => {
            lemma_reflect(g, s, t as int, room);
        },
        _ => {},
    }
}

proof fn lemma_compound(
    g: Seq<Shape>,
    s: State,
    t: int,
    bound: int,
    wrap: Wrap,
    force: bool,
    room: nat,
)
    requires
        progress::fit(g, s, room),
        completion::all_regular(g),
        0 <= t < bound <= g.len(),
        completion::is_regular_at(g, t),
    ensures
        closes(g, s, walk::compound(g, s, t, bound, wrap, force, room)),
    decreases room, bound, 2int, 0int,
{
    progress::lemma_fit_orderly(g, s, room);
    progress::lemma_reference(g, s, t, true);
    let (s1, referred) = walk::reference(g, s, t, true);
    if let Step::Done(format) = referred {
        lemma_settled(g, s, s1, format, t, room);
        if let Step::Done(s2) = walk::nested(g, s1, t, room) {
            let stood = walk::standing(g, s2, t, format);
            lemma_wrapped_answered(g, wrap, stood, s2);
            lemma_then_supply(g, s, s2, walk::wrapped(wrap, stood), force);
        }
    }
}

/// A reference to the type at `t` is made and the type registered.
proof fn lemma_settled(
    g: Seq<Shape>,
    s: State,
    s1: State,
    format: FormatView,
    t: int,
    room: nat,
)
    requires
        progress::fit(g, s, room),
        completion::all_regular(g),
        0 <= t < g.len(),
        completion::is_regular_at(g, t),
        walk::reference(g, s, t, true) == (s1, Step::Done(format)),
    ensures
        walk::nested(g, s1, t, room) matches Step::Done(u) ==> {
            &&& progress::keeps(g, s, u)
            &&& seals(g, s, u)
            &&& is_answered(g, walk::standing(g, u, t, format), u)
        },
    decreases room, t, 8int, 0int,
{
    progress::lemma_fit_orderly(g, s, room);
    progress::lemma_reference(g, s, t, true);
    progress::lemma_fit_after(g, s, s1, room);
    progress::lemma_fit_orderly(g, s1, room);
    progress::lemma_keeps_refl(g, s1);
    lemma_nested(g, s1, t, room);
    completion::lemma_nested(g, s1, t, room, room);
    lemma_referred(g, s, t, s1);
    lemma_nested_owners(g, s, s1, t, format, room);
    if let Step::Done(u) = walk::nested(g, s1, t, room) {
        progress::lemma_keeps_trans(g, s, s1, u);
        lemma_seals_same(g, s, s1, u, u);
    }
}

/// The container being built is given a format whose references are served.
proof fn lemma_then_supply(g: Seq<Shape>, s: State, u: State, format: FormatView, force: bool)
    requires
        progress::keeps(g, s, u),
        seals(g, s, u),
        is_answered(g, format, u),
    ensures
        closes(g, s, model::supply(u, format, force)),
{
    progress::lemma_keeps_orderly(g, s, u);
    progress::lemma_supply(g, u, format, force);
    if let Step::Done(v) = model::supply(u, format, force) {
        progress::lemma_keeps_orderly(g, u, v);
        lemma_seals_refl(g, v);
        lemma_answered_stays(g, format, u, v);
        lemma_seals_supplied(g, u, format, force, v);
        lemma_seals_trans(g, s, u, v);
    }
}

/// A state after the references of a map were made.
proof fn lemma_referred_map(g: Seq<Shape>, s: State, key: int, value: int, v: State)
    requires
        shape::shapes_wf(g),
        progress::orderly(s),
        0 <= key < g.len(),
        0 <= value < g.len(),
        ({
            let s1 = walk::reference(g, s, key, true).0;
            progress::keeps(g, walk::reference(g, s1, value, true).0, v)
        }),
    ensures
        completion::comes_after(s, v),
        completion::comes_after(walk::reference(g, s, key, true).0, v),
{
    progress::lemma_reference(g, s, key, true);
    let s1 = walk::reference(g, s, key, true).0;
    progress::lemma_reference(g, s1, value, true);
    let s2 = walk::reference(g, s1, value, true).0;
    lemma_referred(g, s1, value, v);
    progress::lemma_keeps_trans(g, s1, s2, v);
    lemma_referred(g, s, key, v);
}

proof fn lemma_format_map(
    g: Seq<Shape>,
    s: State,
    key: int,
    value: int,
    bound: int,
    room: nat,
)
    requires
        progress::fit(g, s, room),
        completion::all_regular(g),
        0 <= key < bound <= g.len(),
        0 <= value < bound,
        completion::is_regular_at(g, key),
        completion::is_regular_at(g, value),
    ensures
        closes(g, s, walk::format_map(g, s, key, value, bound, room)),
    decreases room, bound, 2int, 0int,
{
    progress::lemma_fit_orderly(g, s, room);
    progress::lemma_reference(g, s, key, true);
    let (s1, first) = walk::reference(g, s, key, true);
    progress::lemma_reference(g, s1, value, true);
    let (s2, second) = walk::reference(g, s1, value, true);
    progress::lemma_keeps_trans(g, s, s1, s2);
    progress::lemma_keeps_orderly(g, s, s2);
    if first is Done && second is Done {
        let k = first->Done_0;
        let v = second->Done_0;
        progress::lemma_fit_after(g, s, s2, room);
        progress::lemma_keeps_refl(g, s2);
        lemma_referred_map(g, s, key, value, s2);
        lemma_nested(g, s2, key, room);
        completion::lemma_nested(g, s2, key, room, room);
        lemma_nested_owners(g, s, s2, key, k, room);
        if let Step::Done(s3) = walk::nested(g, s2, key, room) {
            progress::lemma_fit_after(g, s2, s3, room);
            lemma_comes_after(g, s1, s2, s3);
            lemma_nested(g, s3, value, room);
            completion::lemma_nested(g, s3, value, room, room);
            lemma_nested_owners(g, s1, s3, value, v, room);
            if let Step::Done(s4) = walk::nested(g, s3, value, room) {
                let k1 = walk::standing(g, s3, key, k);
                let v1 = walk::standing(g, s4, value, v);
                progress::lemma_keeps_orderly(g, s3, s4);
                lemma_seals_trans(g, s2, s3, s4);
                lemma_seals_same(g, s, s2, s4, s4);
                progress::lemma_keeps_trans(g, s2, s3, s4);
                progress::lemma_keeps_trans(g, s, s2, s4);
                lemma_answered_stays(g, k1, s3, s4);
                if completion::well_named(g, s4) {
                    completion::lemma_map_format_owners(k1, v1, s4);
                }
                let format = FormatView::MapOf { key: Box::new(k1), value: Box::new(v1) };
                lemma_then_supply(g, s, s4, format, true);
            }
        }
    }
}

proof fn lemma_format_struct(g: Seq<Shape>, s: State, j: int, room: nat)
    requires
        progress::fit(g, s, room),
        completion::all_regular(g),
        0 <= j < g.len(),
        g[j].ty matches Type::User(UserType::Struct(_)),
        naming::inner_of(g, j) is None,
    ensures
        closes(g, s, walk::format_struct(g, s, j, room)),
    decreases room, j, 4int, 0int,
{
    progress::lemma_fit_orderly(g, s, room);
    assert(shape::shape_wf(g, j));
    assert(completion::is_regular(g[j]));
    if let Type::User(UserType::Struct(st)) = g[j].ty {
        if st.kind == StructKind::Tuple {
            lemma_format_tuple(g, s, st.fields@, j, room);
        } else {
            progress::lemma_open(g, s, j, room);
            lemma_opened(g, s, j);
            if let Step::Done((s1, Some(name))) = walk::open_container(g, s, j) {
                let less = (room - 1) as nat;
                reach::lemma_fields_within(g, j);
                lemma_struct_body(g, s1, name, st.kind, st.fields@, j, less);
                if let Step::Done(s2) = walk::struct_body(
                    g,
                    s1,
                    name,
                    st.kind,
                    st.fields@,
                    j,
                    less,
                ) {
                    lemma_seals_same(g, s, s1, s2, model::leave(s2));
                }
            }
        }
    }
}

/// Opening a container changes none.
proof fn lemma_opened(g: Seq<Shape>, s: State, j: int)
    requires
        progress::orderly(s),
        0 <= j < g.len(),
    ensures
        match walk::open_container(g, s, j) {
            Step::Done((t, None)) => seals(g, s, t),
            Step::Done((t, Some(name))) => t.registry == s.registry && t.current == s.current,
            _ => true,
        },
{
    progress::lemma_walk_name(g, s, j);
    let (s1, named) = model::walk_name(g, s, j);
    lemma_seals_refl(g, s1);
    if let Step::Done((t, None)) = walk::open_container(g, s, j) {
        lemma_seals_same(g, s, s1, s1, t);
    }
}

proof fn lemma_format_tuple(
    g: Seq<Shape>,
    s: State,
    fields: Seq<Field>,
    j: int,
    room: nat,
)
    requires
        progress::fit(g, s, room),
        completion::all_regular(g),
        0 <= j < g.len(),
        naming::inner_of(g, j) is None,
        shape::fields_below(fields, j),
    ensures
        closes(g, s, walk::format_tuple(g, s, fields, j, room)),
    decreases room, j, 3int, 0int,
{
    let apart = State { current: Seq::empty(), ..s };
    progress::lemma_aside(g, s, room);
    lemma_register_all(g, apart, fields, 0, j, room);
    if let Step::Done(u) = walk::register_all(g, apart, fields, 0, j, room) {
        lemma_seals_resumed(g, s, u);
    }
}

/// A container is started and, after a walk, finished.
proof fn lemma_ended(
    g: Seq<Shape>,
    s: State,
    name: NameView,
    container: ContainerView,
    j: int,
    u: State,
)
    requires
        progress::orderly(s),
        completion::well_named(g, u) ==> is_served(container, u),
        model::start_met(g, s, name, container, j) matches Step::Done(t) && seals(g, t, u),
    ensures
        seals(g, s, model::finish(u)),
{
    let action = namespace::namespace_action(g[j].attributes@)->Ok_0;
    let explicit = namespace::action_is_explicit(action);
    progress::lemma_meet_name(s, name, explicit);
    let s1 = model::meet_name(s, name, explicit)->Done_0;
    lemma_seals_finished(g, s1, name, container, u);
    lemma_seals_same(g, s, s1, model::finish(u), model::finish(u));
}

proof fn lemma_struct_body(
    g: Seq<Shape>,
    s: State,
    name: NameView,
    kind: StructKind,
    fields: Seq<Field>,
    j: int,
    room: nat,
)
    requires
        progress::fit(g, s, room),
        completion::all_regular(g),
        0 <= j < g.len(),
        s.processed.contains_key(name),
        !shape::is_transparent(g[j]),
        kind != StructKind::Tuple,
        shape::fields_below(fields, g.len() as int),
        reach::fields_within(g, fields),
    ensures
        closes(g, s, walk::struct_body(g, s, name, kind, fields, j, room)),
    decreases room, g.len() + 4, 0int, 0int,
{
    progress::lemma_fit_orderly(g, s, room);
    let doc = crate::format::lines_view(g[j].doc@);
    let container = match kind {
        StructKind::Unit => ContainerView::UnitStruct(doc),
        StructKind::TupleStruct => if fields.len() == 1 {
            ContainerView::NewTypeStruct(FormatView::Variable, doc)
        } else {
            ContainerView::TupleStruct(Seq::empty(), doc)
        },
        _ => ContainerView::Struct(Seq::empty(), doc),
    };
    assert(forall|m: NameView| !#[trigger] registry::refers(FormatView::Variable, m));
    assert(forall|m: NameView| !#[trigger] mentions(container, m));
    progress::lemma_start_met(g, s, name, container, j, room);
    if let Step::Done(s1) = model::start_met(g, s, name, container, j) {
        lemma_seals_refl(g, s1);
        match kind {
            StructKind::Unit => {
                lemma_ended(g, s, name, container, j, s1);
            },
            StructKind::TupleStruct => if fields.len() == 1 {
                lemma_positional_field(g, s1, fields[0], room);
                if let Step::Done(s2) = walk::positional_field(g, s1, fields[0], room) {
                    lemma_ended(g, s, name, container, j, s2);
                }
            } else {
                lemma_positional_fields(g, s1, fields, 0, room);
                if let Step::Done(s2) = walk::positional_fields(g, s1, fields, 0, room) {
                    lemma_ended(g, s, name, container, j, s2);
                }
            },
            StructKind::Struct => {
                lemma_struct_fields(g, s1, fields, 0, room);
                completion::lemma_struct_fields(g, s1, fields, 0, room, room);
                if let Step::Done(s2) = walk::struct_fields(g, s1, fields, 0, room) {
                    let s3 = model::settle_struct(s2);
                    progress::lemma_keeps_orderly(g, s1, s2);
                    progress::lemma_settle_struct(g, s2);
                    lemma_seals_settled(g, s2);
                    lemma_seals_trans(g, s1, s2, s3);
                    lemma_ended(g, s, name, container, j, s3);
                }
            },
            StructKind::Tuple => {},
        }
    }
}

proof fn lemma_positional_field(g: Seq<Shape>, s: State, field: Field, room: nat)
    requires
        progress::fit(g, s, room),
        completion::all_regular(g),
        field.shape < g.len(),
    ensures
        closes(g, s, walk::positional_field(g, s, field, room)),
    decreases room, g.len() + 2, 0int, 0int,
{
    lemma_seals_bytes(g, s, field);
    if let Step::Done((s1, false)) = model::supply_bytes(g, s, field) {
        lemma_positional(g, s, field.shape as int, room);
    }
}

proof fn lemma_positional(g: Seq<Shape>, s: State, i: int, room: nat)
    requires
        progress::fit(g, s, room),
        completion::all_regular(g),
        0 <= i < g.len(),
    ensures
        closes(g, s, walk::positional(g, s, i, room)),
    decreases room, i, 9int, 0int,
{
    progress::lemma_fit_orderly(g, s, room);
    progress::lemma_field_format(g, s, i);
    progress::lemma_reference(g, s, i, true);
    let (s1, formatted) = walk::field_format(g, s, i);
    progress::lemma_fit_after(g, s, s1, room);
    match formatted {
        Step::Done(Some(format)) => {
            completion::lemma_regular_at(g, i);
            lemma_settled(g, s, s1, format, i, room);
            if let Step::Done(s2) = walk::nested(g, s1, i, room) {
                lemma_then_supply(g, s, s2, walk::standing(g, s2, i, format), true);
            }
        },
        Step::Done(None) => {
            lemma_nested(g, s1, i, room);
            if let Step::Done(t) = walk::nested(g, s1, i, room) {
                lemma_seals_same(g, s, s1, t, t);
            }
        },
        _ => {},
    }
}

proof fn lemma_positional_fields(
    g: Seq<Shape>,
    s: State,
    fields: Seq<Field>,
    from: int,
    room: nat,
)
    requires
        progress::fit(g, s, room),
        completion::all_regular(g),
        0 <= from,
        shape::fields_below(fields, g.len() as int),
    ensures
        closes(g, s, walk::positional_fields(g, s, fields, from, room)),
    decreases room, g.len() + 3, 0int, fields.len() - from,
{
    lemma_seals_refl(g, s);
    if from < fields.len() {
        if fields[from].skip {
            lemma_positional_fields(g, s, fields, from + 1, room);
        } else {
            lemma_positional_field(g, s, fields[from], room);
            completion::lemma_positional_field(g, s, fields[from], room, room);
            if let Step::Done(s1) = walk::positional_field(g, s, fields[from], room) {
                progress::lemma_fit_after(g, s, s1, room);
                lemma_positional_fields(g, s1, fields, from + 1, room);
                completion::lemma_positional_fields(g, s1, fields, from + 1, room, room);
                lemma_closes_after(
                    g,
                    s,
                    s1,
                    walk::positional_fields(g, s1, fields, from + 1, room),
                );
            }
        }
    }
}

proof fn lemma_struct_fields(
    g: Seq<Shape>,
    s: State,
    fields: Seq<Field>,
    from: int,
    room: nat,
)
    requires
        progress::fit(g, s, room),
        completion::all_regular(g),
        0 <= from,
        shape::fields_below(fields, g.len() as int),
        reach::fields_within(g, fields),
    ensures
        closes(g, s, walk::struct_fields(g, s, fields, from, room)),
    decreases room, g.len() + 3, 0int, fields.len() - from,
{
    lemma_seals_refl(g, s);
    if from < fields.len() {
        if fields[from].skip {
            lemma_struct_fields(g, s, fields, from + 1, room);
        } else {
            lemma_struct_field(g, s, fields[from], room);
            completion::lemma_struct_field(g, s, fields[from], room, room);
            if let Step::Done(s1) = walk::struct_field(g, s, fields[from], room) {
                progress::lemma_fit_after(g, s, s1, room);
                lemma_struct_fields(g, s1, fields, from + 1, room);
                completion::lemma_struct_fields(g, s1, fields, from + 1, room, room);
                lemma_closes_after(
                    g,
                    s,
                    s1,
                    walk::struct_fields(g, s1, fields, from + 1, room),
                );
            }
        }
    }
}

proof fn lemma_struct_field(g: Seq<Shape>, s: State, field: Field, room: nat)
    requires
        progress::fit(g, s, room),
        completion::all_regular(g),
        field.shape < g.len(),
        reach::field_within(g, field),
    ensures
        closes(g, s, walk::struct_field(g, s, field, room)),
    decreases room, g.len() + 2, 0int, 0int,
{
    progress::lemma_fit_orderly(g, s, room);
    assert(shape::shape_wf(g, field.shape as int));
    lemma_seals_bytes(g, s, field);
    if let Step::Done((s1, false)) = model::supply_bytes(g, s, field) {
        if let Some(t) = walk::option_of(g, field) {
            assert(completion::holds(g[field.shape as int], t));
            lemma_option_field(g, s, field, t, room);
        } else if let Some(inside) = walk::tuple_field_of(g, field) {
            lemma_tuple_field(g, s, field, inside, room);
        } else {
            lemma_plain_field(g, s, field, room);
        }
    }
}

proof fn lemma_option_field(g: Seq<Shape>, s: State, field: Field, t: int, room: nat)
    requires
        progress::fit(g, s, room),
        completion::all_regular(g),
        0 <= t < g.len(),
        completion::is_regular_at(g, t),
    ensures
        closes(g, s, walk::option_field(g, s, field, t, room)),
    decreases room, g.len() + 1, 0int, 0int,
{
    progress::lemma_fit_orderly(g, s, room);
    progress::lemma_reference(g, s, t, true);
    if let (s1, Step::Done(format)) = walk::reference(g, s, t, true) {
        lemma_settled(g, s, s1, format, t, room);
        if let Step::Done(s2) = walk::nested(g, s1, t, room) {
            let stood = walk::standing(g, s2, t, format);
            lemma_wrapped_answered(g, Wrap::Option, stood, s2);
            lemma_then_add(
                g,
                s,
                s2,
                model::named_field(field, walk::wrapped(Wrap::Option, stood)),
            );
        }
    }
}

/// A field is added whose references are served.
proof fn lemma_then_add(
    g: Seq<Shape>,
    s: State,
    u: State,
    named: NamedView<FormatView>,
)
    requires
        progress::keeps(g, s, u),
        seals(g, s, u),
        is_answered(g, named.value, u),
    ensures
        seals(g, s, model::add_field(u, named)),
{
    let v = model::add_field(u, named);
    progress::lemma_keeps_orderly(g, s, u);
    progress::lemma_add_field(g, u, named);
    progress::lemma_keeps_orderly(g, u, v);
    lemma_seals_refl(g, v);
    lemma_answered_stays(g, named.value, u, v);
    lemma_seals_field(g, u, named, v);
    lemma_seals_trans(g, s, u, v);
}

/// Under a context, a reference to the type at `t` is made and the type registered; then the
/// context is left.
proof fn lemma_nested_within(
    g: Seq<Shape>,
    s: State,
    action: ActionView,
    wrap: Wrap,
    t: int,
    room: nat,
)
    requires
        progress::fit(g, s, room),
        completion::all_regular(g),
        0 <= t < g.len(),
        completion::is_regular_at(g, t),
        reach::spaces(g).contains(reach::action_space(action)),
    ensures
        walk::reference(g, model::enter(s, action), t, true) matches (s1, Step::Done(format))
            ==> (walk::nested(g, s1, t, room) matches Step::Done(s2) ==> {
            &&& progress::keeps(g, s, model::leave(s2))
            &&& seals(g, s, model::leave(s2))
            &&& is_answered(
                g,
                walk::wrapped(wrap, walk::standing(g, s2, t, format)),
                model::leave(s2),
            )
        }),
    decreases room, t, 9int, 0int,
{
    let entered = model::enter(s, action);
    progress::lemma_enter(g, s, action, room);
    progress::lemma_fit_orderly(g, s, room);
    progress::lemma_fit_orderly(g, entered, room);
    progress::lemma_reference(g, entered, t, true);
    if let (s1, Step::Done(format)) = walk::reference(g, entered, t, true) {
        lemma_settled(g, entered, s1, format, t, room);
        if let Step::Done(s2) = walk::nested(g, s1, t, room) {
            let left = model::leave(s2);
            let stood = walk::standing(g, s2, t, format);
            progress::lemma_leave(g, s, action, s2);
            lemma_seals_same(g, s, entered, s2, left);
            lemma_wrapped_answered(g, wrap, stood, s2);
            lemma_answered_stays(g, walk::wrapped(wrap, stood), s2, left);
        }
    }
}

proof fn lemma_tuple_field(g: Seq<Shape>, s: State, field: Field, inside: Inside, room: nat)
    requires
        progress::fit(g, s, room),
        completion::all_regular(g),
        field.shape < g.len(),
        inside matches Inside::Wrapper(t) ==> t < g.len(),
        walk::tuple_field_of(g, field) == Some(inside),
    ensures
        closes(g, s, walk::tuple_field(g, s, field, inside, room)),
    decreases room, g.len() + 1, 0int, 0int,
{
    progress::lemma_fit_orderly(g, s, room);
    match inside {
        Inside::Tuple => {
            let i = field.shape as int;
            progress::lemma_reference(g, s, i, true);
            if let (s1, Step::Done(format)) = walk::reference(g, s, i, true) {
                completion::lemma_regular_at(g, i);
                lemma_settled(g, s, s1, format, i, room);
                if let Step::Done(s2) = walk::nested(g, s1, i, room) {
                    lemma_then_add(
                        g,
                        s,
                        s2,
                        model::named_field(field, walk::standing(g, s2, i, format)),
                    );
                }
            }
        },
        Inside::Wrapper(t) => {
            if let Ok(action) = namespace::namespace_action(
                g[field.shape as int].attributes@,
            ) {
                reach::lemma_shape_space(g, field.shape as int);
                assert(completion::is_regular_at(g, t as int)) by {
                    let st = g[field.shape as int].ty->User_0->Struct_0;
                    assert(st.fields@[0].shape == t);
                    assert(completion::holds(g[field.shape as int], t as int));
                }
                lemma_nested_within(g, s, action, Wrap::Plain, t as int, room);
                let (s1, referred) = walk::reference(g, model::enter(s, action), t as int, true);
                if let (Step::Done(format), Step::Done(s2)) = (
                    referred,
                    walk::nested(g, s1, t as int, room),
                ) {
                    lemma_then_add(
                        g,
                        s,
                        model::leave(s2),
                        model::named_field(field, walk::standing(g, s2, t as int, format)),
                    );
                }
            }
        },
    }
}

proof fn lemma_plain_field(g: Seq<Shape>, s: State, field: Field, room: nat)
    requires
        progress::fit(g, s, room),
        completion::all_regular(g),
        field.shape < g.len(),
        reach::field_within(g, field),
    ensures
        closes(g, s, walk::plain_field(g, s, field, room)),
    decreases room, g.len() + 1, 1int, 0int,
{
    if let Ok(action) = namespace::namespace_action(field.attributes@) {
        lemma_field_value(g, s, field, action, room);
        completion::lemma_field_value(g, s, field, action, room, room);
        if let Step::Done((s1, Some(value))) = walk::field_value(
            g,
            model::enter(s, action),
            field,
            action,
            room,
        ) {
            lemma_then_add(g, s, s1, model::named_field(field, value));
        }
    }
}

proof fn lemma_field_value(
    g: Seq<Shape>,
    s: State,
    field: Field,
    action: ActionView,
    room: nat,
)
    requires
        progress::fit(g, s, room),
        completion::all_regular(g),
        field.shape < g.len(),
        reach::spaces(g).contains(reach::action_space(action)),
    ensures
        closes_value(
            g,
            s,
            walk::field_value(g, model::enter(s, action), field, action, room),
        ),
    decreases room, g.len() + 1, 0int, 0int,
{
    let i = field.shape as int;
    let entered = model::enter(s, action);
    progress::lemma_enter(g, s, action, room);
    progress::lemma_fit_orderly(g, s, room);
    progress::lemma_fit_orderly(g, entered, room);
    progress::lemma_field_format(g, entered, i);
    progress::lemma_reference(g, entered, i, true);
    let (s1, formatted) = walk::field_format(g, entered, i);
    lemma_seals_refl(g, s1);
    lemma_seals_same(g, s, s1, s1, model::leave(s1));
    if let Step::Done(Some(value)) = formatted {
        progress::lemma_fit_after(g, entered, s1, room);
        progress::lemma_fit_orderly(g, s1, room);
        lemma_referred(g, entered, i, s1);
        completion::lemma_regular_at(g, i);
        lemma_field_type(g, entered, s1, i, action, value, room);
        if let Step::Done(s2) = walk::field_type(g, s1, i, action, room) {
            let left = model::leave(s2);
            lemma_seals_same(g, s, s1, s2, left);
            lemma_answered_stays(g, walk::standing(g, s2, i, value), s2, left);
        }
    }
}

proof fn lemma_field_type(
    g: Seq<Shape>,
    s: State,
    u: State,
    i: int,
    action: ActionView,
    format: FormatView,
    room: nat,
)
    requires
        progress::fit(g, u, room),
        completion::all_regular(g),
        completion::comes_after(s, u),
        progress::same_but_met(s, u),
        walk::reference(g, s, i, true).1 == Step::Done(format),
        0 <= i < g.len(),
        completion::is_regular_at(g, i),
        reach::spaces(g).contains(reach::action_space(action)),
        walk::named_space(action) matches Some(space) ==> {
            &&& s.namespace_context_stack.len() > 0
            &&& s.namespace_context_stack.last() == namespace::explicit_context(
                SpaceView::Named(space),
            )
        },
    ensures
        walk::field_type(g, u, i, action, room) matches Step::Done(t) ==> seals(g, u, t)
            && is_answered(g, walk::standing(g, t, i, format), t),
    decreases room, i, 7int, 0int,
{
    match walk::named_space(action) {
        Some(space) => {
            lemma_format_in(g, s, u, i, space, format, room);
        },
        None => {
            lemma_reflect(g, u, i, room);
            lemma_reflected_owners(g, s, u, i, format, room);
        },
    }
}

proof fn lemma_format_in(
    g: Seq<Shape>,
    s: State,
    u: State,
    i: int,
    space: Seq<char>,
    format: FormatView,
    room: nat,
)
    requires
        progress::fit(g, u, room),
        completion::all_regular(g),
        completion::comes_after(s, u),
        progress::same_but_met(s, u),
        walk::reference(g, s, i, true).1 == Step::Done(format),
        0 <= i < g.len(),
        completion::is_regular_at(g, i),
        reach::spaces(g).contains(SpaceView::Named(space)),
        s.namespace_context_stack.len() > 0,
        s.namespace_context_stack.last() == namespace::explicit_context(SpaceView::Named(space)),
    ensures
        walk::format_in(g, u, i, space, room) matches Step::Done(t) ==> seals(g, u, t)
            && is_answered(g, walk::standing(g, t, i, format), t),
    decreases room, i, 6int, 0int,
{
    progress::lemma_fit_orderly(g, u, room);
    lemma_seals_refl(g, u);
    naming::lemma_generated(g, i);
    let k = naming::generated(g, i);
    if walk::stands_in(g, u, i, space) == Step::Done(true) {
        // The name that the reference gives is the one that was looked for.
        assert(model::recorded_rename(g, s, k) == model::recorded_rename(g, u, k));
        let own = naming::own_name(g, k)->Ok_0;
        let action = namespace::namespace_action(g[k].attributes@)->Ok_0;
        let name = walk::name_in(own, action, space);
        assert(format == FormatView::TypeName(name));
        assert(walk::standing(g, u, i, format) == FormatView::TypeName(name));
        assert(forall|m: NameView| #[trigger]
            registry::refers(FormatView::TypeName(name), m) ==> m == name);
    } else {
        let action = ActionView::SetContext(namespace::explicit_context(SpaceView::Named(space)));
        let entered = model::enter(u, action);
        progress::lemma_enter(g, u, action, room);
        lemma_reflect(g, entered, i, room);
        // The context that is entered is the one in force.
        let before = model::enter(s, action);
        lemma_same_reference(g, s, before, i);
        progress::lemma_enter_orderly(s, action);
        assert(completion::comes_after(before, entered));
        lemma_reflected_owners(g, before, entered, i, format, room);
        completion::lemma_reflect(g, entered, i, room, room);
        if let Step::Done(u1) = walk::reflect(g, entered, i, room) {
            let left = model::leave(u1);
            lemma_seals_same(g, u, entered, u1, left);
            lemma_standing_answered(g, i, format, u1, left);
            progress::lemma_leave(g, u, action, u1);
            progress::lemma_keeps_orderly(g, u, left);
            progress::lemma_walk_name(g, left, i);
            let met = model::walk_name(g, left, i).0;
            lemma_seals_same(g, u, u, left, met);
            lemma_standing_answered(g, i, format, left, met);
        }
    }
}

/// Two states that differ at most in contexts below the one in force.
pub open spec fn same_context(s: State, t: State) -> bool {
    &&& t == (State { namespace_context_stack: t.namespace_context_stack, ..s })
    &&& model::context(t) == model::context(s)
}

/// A reference depends on the context in force alone.
proof fn lemma_same_reference(g: Seq<Shape>, s: State, t: State, i: int)
    requires
        same_context(s, t),
    ensures
        same_context(walk::reference(g, s, i, true).0, walk::reference(g, t, i, true).0),
        walk::reference(g, t, i, true).1 == walk::reference(g, s, i, true).1,
    decreases i, 1int, 0int,
{
    let j = naming::generated(g, i);
    let shape = g[j];
    lemma_same_name(g, s, t, j);
    if shape::is_container(shape) {
    } else if let Some(fields) = walk::tuple_fields_of(shape) {
        lemma_same_references(g, s, t, fields, 0, i);
    } else if let Some((wrap, c)) = walk::single(shape) {
        if c < i {
            lemma_same_reference(g, s, t, c as int);
        }
    } else if let Def::MapOf { key, value } = shape.def {
        if key < i && value < i {
            lemma_same_reference(g, s, t, key as int);
            lemma_same_reference(
                g,
                walk::reference(g, s, key as int, true).0,
                walk::reference(g, t, key as int, true).0,
                value as int,
            );
        }
    }
}

proof fn lemma_same_name(g: Seq<Shape>, s: State, t: State, j: int)
    requires
        same_context(s, t),
    ensures
        same_context(model::walk_name(g, s, j).0, model::walk_name(g, t, j).0),
        model::walk_name(g, t, j).1 == model::walk_name(g, s, j).1,
{
    assert(model::recorded_rename(g, t, j) == model::recorded_rename(g, s, j));
}

proof fn lemma_same_references(
    g: Seq<Shape>,
    s: State,
    t: State,
    fields: Seq<Field>,
    from: int,
    bound: int,
)
    requires
        same_context(s, t),
        0 <= from,
    ensures
        same_context(
            walk::reference_all(g, s, fields, from, bound, true).0,
            walk::reference_all(g, t, fields, from, bound, true).0,
        ),
        walk::reference_all(g, t, fields, from, bound, true).1
            == walk::reference_all(g, s, fields, from, bound, true).1,
    decreases bound, 0int, fields.len() - from,
{
    if from < fields.len() && fields[from].shape < bound {
        let i = fields[from].shape as int;
        lemma_same_reference(g, s, t, i);
        if let (s1, Step::Done(first)) = walk::reference(g, s, i, true) {
            lemma_same_references(
                g,
                s1,
                walk::reference(g, t, i, true).0,
                fields,
                from + 1,
                bound,
            );
        }
    }
}

// Enums

proof fn lemma_format_enum(g: Seq<Shape>, s: State, j: int, room: nat)
    requires
        progress::fit(g, s, room),
        completion::all_regular(g),
        0 <= j < g.len(),
        g[j].ty matches Type::User(UserType::Enum(_)),
    ensures
        closes(g, s, walk::format_enum(g, s, j, room)),
    decreases room, j, 4int, 0int,
{
    progress::lemma_fit_orderly(g, s, room);
    assert(shape::shape_wf(g, j));
    if let Type::User(UserType::Enum(et)) = g[j].ty {
        progress::lemma_open(g, s, j, room);
        lemma_opened(g, s, j);
        if let Step::Done((s1, Some(name))) = walk::open_container(g, s, j) {
            let less = (room - 1) as nat;
            let apart = State { current: Seq::empty(), ..s1 };
            reach::lemma_fields_within(g, j);
            progress::lemma_fit_orderly(g, s1, less);
            progress::lemma_aside(g, s1, less);
            lemma_enum_variants(g, apart, et.variants@, 0, 0, Map::empty(), j, less);
            completion::lemma_enum_variants(
                g,
                apart,
                et.variants@,
                0,
                0,
                Map::empty(),
                j,
                less,
                less,
            );
            let step = walk::enum_variants(g, apart, et.variants@, 0, 0, Map::empty(), j, less);
            if let Step::Done((u, variants)) = step {
                lemma_seals_resumed(g, s1, u);
                progress::lemma_resume(g, s1, u);
                let s2 = State { current: s1.current, ..u };
                lemma_well_named_same(g, u, s2);
                if completion::well_named(g, s2) {
                    lemma_served_variants_stay(g, variants, u, s2);
                }
                lemma_enum_registered(g, s, s1, s2, name, variants, j, less);
            }
        }
    }
}

/// The container of an enum is registered with its variants, and the context of the enum left.
proof fn lemma_enum_registered(
    g: Seq<Shape>,
    s: State,
    s1: State,
    s2: State,
    name: NameView,
    variants: Map<u32, NamedView<VariantView>>,
    j: int,
    room: nat,
)
    requires
        progress::fit(g, s1, room),
        s1.registry == s.registry,
        s1.current == s.current,
        progress::keeps(g, s1, s2),
        seals(g, s1, s2),
        completion::well_named(g, s2) ==> are_served_variants(variants, s2),
    ensures
        ({
            let container = ContainerView::Enum(
                variants,
                naming::tagging(g[j]),
                crate::format::lines_view(g[j].doc@),
            );
            model::start_met(g, s2, name, container, j) matches Step::Done(s3) ==> seals(
                g,
                s,
                model::leave(model::finish(s3)),
            )
        }),
{
    let container = ContainerView::Enum(
        variants,
        naming::tagging(g[j]),
        crate::format::lines_view(g[j].doc@),
    );
    progress::lemma_keeps_orderly(g, s1, s2);
    if let Step::Done(s3) = model::start_met(g, s2, name, container, j) {
        let action = namespace::namespace_action(g[j].attributes@)->Ok_0;
        progress::lemma_meet_name(s2, name, namespace::action_is_explicit(action));
        assert(s3.processed == s2.processed);
        if completion::well_named(g, s3) {
            completion::lemma_well_named_before(g, s2, s3);
            lemma_served_enum(
                variants,
                naming::tagging(g[j]),
                crate::format::lines_view(g[j].doc@),
                s2,
            );
            assert(is_served(container, s3));
        }
        lemma_seals_refl(g, s3);
        lemma_ended(g, s2, name, container, j, s3);
        let ended = model::finish(s3);
        lemma_seals_then(g, s1, s2, ended);
        lemma_seals_same(g, s, s1, ended, model::leave(ended));
    }
}

/// An enum of which every variant is served is served.
proof fn lemma_served_enum(
    variants: Map<u32, NamedView<VariantView>>,
    tagging: TaggingView,
    doc: Seq<Seq<char>>,
    s: State,
)
    requires
        are_served_variants(variants, s),
    ensures
        is_served(ContainerView::Enum(variants, tagging, doc), s),
{
    let container = ContainerView::Enum(variants, tagging, doc);
    assert forall|m: NameView| #[trigger] mentions(container, m) implies s.processed.contains_key(
        m,
    ) by {
        let part = choose|f: FormatView| #[trigger]
            registry::part_of(container, f) && registry::refers(f, m);
        let k = choose|k: u32| #[trigger]
            variants.contains_key(k) && registry::part_of_variant(variants[k].value, part);
        assert(is_served_variant(variants[k].value, s));
        assert(completion::has_owners(part, s));
    }
}

/// What has an owner keeps one.
proof fn lemma_served_stays(g: Seq<Shape>, variant: VariantView, s: State, t: State)
    requires
        is_served_variant(variant, s),
        progress::stay_taken(s, t),
    ensures
        is_served_variant(variant, t),
{
    assert forall|format: FormatView| #[trigger]
        registry::part_of_variant(variant, format) implies completion::has_owners(format, t) by {
        completion::lemma_owners_stay(g, format, s, t);
    }
}

proof fn lemma_served_variants_stay(
    g: Seq<Shape>,
    variants: Map<u32, NamedView<VariantView>>,
    s: State,
    t: State,
)
    requires
        are_served_variants(variants, s),
        progress::stay_taken(s, t),
    ensures
        are_served_variants(variants, t),
{
    assert forall|k: u32| #[trigger] variants.contains_key(k) implies is_served_variant(
        variants[k].value,
        t,
    ) by {
        lemma_served_stays(g, variants[k].value, s, t);
    }
}

proof fn lemma_enum_variants(
    g: Seq<Shape>,
    s: State,
    variants: Seq<Variant>,
    from: int,
    index: int,
    known: Map<u32, NamedView<VariantView>>,
    j: int,
    room: nat,
)
    requires
        progress::fit(g, s, room),
        completion::all_regular(g),
        0 <= from,
        0 <= j < g.len(),
        forall|v: int|
            0 <= v < variants.len() ==> shape::fields_below(
                (#[trigger] variants[v]).fields@,
                g.len() as int,
            ),
        forall|v: int|
            0 <= v < variants.len() ==> reach::fields_within(g, (#[trigger] variants[v]).fields@),
        completion::well_named(g, s) ==> are_served_variants(known, s),
    ensures
        walk::enum_variants(g, s, variants, from, index, known, j, room) matches Step::Done(
            (t, all),
        ) ==> seals(g, s, t) && (completion::well_named(g, t) ==> are_served_variants(all, t)),
    decreases room, g.len() + 5, 0int, variants.len() - from,
{
    lemma_seals_refl(g, s);
    if from < variants.len() {
        if shape::has_attr(variants[from].attributes@, None, "skip"@) {
            lemma_enum_variants(g, s, variants, from + 1, index, known, j, room);
        } else {
            lemma_variant_format(g, s, variants[from], j, room);
            completion::lemma_variant_format(g, s, variants[from], j, room, room);
            if let Step::Done((s1, value)) = walk::variant_format(
                g,
                s,
                variants[from],
                j,
                room,
            ) {
                progress::lemma_fit_after(g, s, s1, room);
                progress::lemma_keeps_orderly(g, s, s1);
                let named = NamedView {
                    name: naming::renamed(variants[from].rename, variants[from].name),
                    doc: crate::format::lines_view(variants[from].doc@),
                    value,
                };
                let added = known.insert(index as u32, named);
                if completion::well_named(g, s1) {
                    completion::lemma_well_named_before(g, s, s1);
                    lemma_served_variants_stay(g, known, s, s1);
                    assert(are_served_variants(added, s1));
                }
                lemma_enum_variants(g, s1, variants, from + 1, index + 1, added, j, room);
                completion::lemma_enum_variants(
                    g,
                    s1,
                    variants,
                    from + 1,
                    index + 1,
                    added,
                    j,
                    room,
                    room,
                );
                let rest = walk::enum_variants(
                    g,
                    s1,
                    variants,
                    from + 1,
                    index + 1,
                    added,
                    j,
                    room,
                );
                if let Step::Done((t, _)) = rest {
                    lemma_seals_trans(g, s, s1, t);
                }
            }
        }
    }
}

proof fn lemma_variant_format(g: Seq<Shape>, s: State, variant: Variant, j: int, room: nat)
    requires
        progress::fit(g, s, room),
        completion::all_regular(g),
        0 <= j < g.len(),
        shape::fields_below(variant.fields@, g.len() as int),
        reach::fields_within(g, variant.fields@),
    ensures
        closes_variant(g, s, walk::variant_format(g, s, variant, j, room)),
    decreases room, g.len() + 4, 1int, 0int,
{
    lemma_seals_refl(g, s);
    if variant.fields@.len() == 0 {
    } else if walk::has_names(variant) {
        lemma_struct_variant(g, s, variant, room);
    } else if variant.fields@.len() == 1 {
        lemma_newtype_variant(g, s, variant.fields@[0], room);
    } else {
        lemma_tuple_variant(g, s, variant, j, room);
    }
}

proof fn lemma_newtype_variant(g: Seq<Shape>, s: State, field: Field, room: nat)
    requires
        progress::fit(g, s, room),
        completion::all_regular(g),
        field.shape < g.len(),
        reach::field_within(g, field),
    ensures
        closes_variant(g, s, walk::newtype_variant(g, s, field, room)),
    decreases room, g.len() + 3, 0int, 0int,
{
    progress::lemma_fit_orderly(g, s, room);
    lemma_seals_refl(g, s);
    lemma_bytes_owners(g, field, s);
    assert(forall|m: NameView| !#[trigger] registry::refers(FormatView::Unit, m));
    let i = field.shape as int;
    if let Ok(action) = namespace::namespace_action(field.attributes@) {
        let entered = model::enter(s, action);
        progress::lemma_enter(g, s, action, room);
        progress::lemma_fit_orderly(g, entered, room);
        progress::lemma_payload_format(g, entered, i);
        progress::lemma_reference(g, entered, i, true);
        let (s1, formatted) = walk::payload_format(g, entered, i);
        lemma_seals_refl(g, s1);
        lemma_seals_same(g, s, s1, s1, model::leave(s1));
        if let Step::Done(Some(format)) = formatted {
            completion::lemma_regular_at(g, i);
            lemma_nested_within(g, s, action, Wrap::Plain, i, room);
        }
    }
}

proof fn lemma_struct_variant(g: Seq<Shape>, s: State, variant: Variant, room: nat)
    requires
        progress::fit(g, s, room),
        completion::all_regular(g),
        shape::fields_below(variant.fields@, g.len() as int),
        reach::fields_within(g, variant.fields@),
    ensures
        closes_variant(g, s, walk::struct_variant(g, s, variant, room)),
    decreases room, g.len() + 4, 0int, 0int,
{
    lemma_variant_fields(g, s, variant.fields@, 0, Seq::empty(), room);
    if let Step::Done((t, fields)) = walk::variant_fields(
        g,
        s,
        variant.fields@,
        0,
        Seq::empty(),
        room,
    ) {
        if completion::well_named(g, t) {
            assert(is_served_variant(VariantView::Struct(fields), t));
        }
    }
}

proof fn lemma_variant_fields(
    g: Seq<Shape>,
    s: State,
    fields: Seq<Field>,
    from: int,
    known: Seq<NamedView<FormatView>>,
    room: nat,
)
    requires
        progress::fit(g, s, room),
        completion::all_regular(g),
        0 <= from,
        shape::fields_below(fields, g.len() as int),
        reach::fields_within(g, fields),
        completion::well_named(g, s) ==> are_served_fields(known, s),
    ensures
        walk::variant_fields(g, s, fields, from, known, room) matches Step::Done((t, all))
            ==> seals(g, s, t) && (completion::well_named(g, t) ==> are_served_fields(all, t)),
    decreases room, g.len() + 3, 0int, fields.len() - from,
{
    lemma_seals_refl(g, s);
    if from < fields.len() {
        if fields[from].skip {
            lemma_variant_fields(g, s, fields, from + 1, known, room);
        } else {
            lemma_variant_field(g, s, fields[from], room);
            completion::lemma_variant_field(g, s, fields[from], room, room);
            if let Step::Done((s1, value)) = walk::variant_field(g, s, fields[from], room) {
                let now = match value {
                    Some(value) => known.push(model::named_field(fields[from], value)),
                    None => known,
                };
                progress::lemma_fit_after(g, s, s1, room);
                progress::lemma_keeps_orderly(g, s, s1);
                if completion::well_named(g, s1) {
                    completion::lemma_well_named_before(g, s, s1);
                    assert forall|k: int| 0 <= k < now.len() implies completion::has_owners(
                        (#[trigger] now[k]).value,
                        s1,
                    ) by {
                        if k < known.len() {
                            assert(now[k] == known[k]);
                            completion::lemma_owners_stay(g, known[k].value, s, s1);
                        }
                    }
                }
                lemma_variant_fields(g, s1, fields, from + 1, now, room);
                completion::lemma_variant_fields(g, s1, fields, from + 1, now, room, room);
                if let Step::Done((t, _)) = walk::variant_fields(
                    g,
                    s1,
                    fields,
                    from + 1,
                    now,
                    room,
                ) {
                    lemma_seals_trans(g, s, s1, t);
                }
            }
        }
    }
}

proof fn lemma_variant_field(g: Seq<Shape>, s: State, field: Field, room: nat)
    requires
        progress::fit(g, s, room),
        completion::all_regular(g),
        field.shape < g.len(),
        reach::field_within(g, field),
    ensures
        closes_value(g, s, walk::variant_field(g, s, field, room)),
    decreases room, g.len() + 2, 0int, 0int,
{
    progress::lemma_fit_orderly(g, s, room);
    assert(shape::shape_wf(g, field.shape as int));
    lemma_seals_refl(g, s);
    lemma_bytes_owners(g, field, s);
    if let Ok(action) = namespace::namespace_action(field.attributes@) {
        if let Some(t) = walk::option_of(g, field) {
            assert(completion::holds(g[field.shape as int], t));
            lemma_nested_within(g, s, action, Wrap::Option, t, room);
        } else {
            lemma_field_value(g, s, field, action, room);
        }
    }
}

proof fn lemma_tuple_variant(g: Seq<Shape>, s: State, variant: Variant, j: int, room: nat)
    requires
        progress::fit(g, s, room),
        completion::all_regular(g),
        0 <= j < g.len(),
        shape::fields_below(variant.fields@, g.len() as int),
    ensures
        closes_variant(g, s, walk::tuple_variant(g, s, variant, j, room)),
    decreases room, g.len() + 4, 0int, 0int,
{
    lemma_variant_items(g, s, variant.fields@, 0, Seq::empty(), j, room);
    if let Step::Done((t, formats)) = walk::variant_items(
        g,
        s,
        variant.fields@,
        0,
        Seq::empty(),
        j,
        room,
    ) {
        if completion::well_named(g, t) {
            assert(is_served_variant(VariantView::Tuple(formats), t));
        }
    }
}

proof fn lemma_variant_items(
    g: Seq<Shape>,
    s: State,
    fields: Seq<Field>,
    from: int,
    known: Seq<FormatView>,
    j: int,
    room: nat,
)
    requires
        progress::fit(g, s, room),
        completion::all_regular(g),
        0 <= from,
        0 <= j < g.len(),
        shape::fields_below(fields, g.len() as int),
        completion::well_named(g, s) ==> completion::have_owners(known, s),
    ensures
        walk::variant_items(g, s, fields, from, known, j, room) matches Step::Done((t, all))
            ==> seals(g, s, t) && (completion::well_named(g, t) ==> completion::have_owners(
            all,
            t,
        )),
    decreases room, g.len() + 3, 0int, fields.len() - from,
{
    lemma_seals_refl(g, s);
    if from < fields.len() {
        if fields[from].skip {
            lemma_variant_items(g, s, fields, from + 1, known, j, room);
        } else {
            lemma_variant_item(g, s, fields[from], j, room);
            completion::lemma_variant_item(g, s, fields[from], j, room, room);
            if let Step::Done((s1, value)) = walk::variant_item(g, s, fields[from], j, room) {
                let now = match value {
                    Some(value) => known.push(value),
                    None => known,
                };
                progress::lemma_fit_after(g, s, s1, room);
                progress::lemma_keeps_orderly(g, s, s1);
                if completion::well_named(g, s1) {
                    completion::lemma_well_named_before(g, s, s1);
                    assert forall|k: int| 0 <= k < now.len() implies completion::has_owners(
                        #[trigger] now[k],
                        s1,
                    ) by {
                        if k < known.len() {
                            assert(now[k] == known[k]);
                            completion::lemma_owners_stay(g, known[k], s, s1);
                        }
                    }
                }
                lemma_variant_items(g, s1, fields, from + 1, now, j, room);
                completion::lemma_variant_items(g, s1, fields, from + 1, now, j, room, room);
                if let Step::Done((t, _)) = walk::variant_items(
                    g,
                    s1,
                    fields,
                    from + 1,
                    now,
                    j,
                    room,
                ) {
                    lemma_seals_trans(g, s, s1, t);
                }
            }
        }
    }
}

proof fn lemma_variant_item(g: Seq<Shape>, s: State, field: Field, j: int, room: nat)
    requires
        progress::fit(g, s, room),
        completion::all_regular(g),
        0 <= j < g.len(),
        field.shape < g.len(),
    ensures
        closes_value(g, s, walk::variant_item(g, s, field, j, room)),
    decreases room, g.len() + 2, 0int, 0int,
{
    progress::lemma_fit_orderly(g, s, room);
    lemma_seals_refl(g, s);
    lemma_bytes_owners(g, field, s);
    let i = field.shape as int;
    if let Ok(action) = namespace::namespace_action(g[j].attributes@) {
        let entered = model::enter(s, action);
        reach::lemma_shape_space(g, j);
        progress::lemma_enter(g, s, action, room);
        progress::lemma_fit_orderly(g, entered, room);
        progress::lemma_field_format(g, entered, i);
        progress::lemma_reference(g, entered, i, true);
        let (s1, formatted) = walk::field_format(g, entered, i);
        if let Step::Done(Some(format)) = formatted {
            completion::lemma_regular_at(g, i);
            lemma_nested_within(g, s, action, Wrap::Plain, i, room);
        } else {
            progress::lemma_fit_after(g, entered, s1, room);
            lemma_nested(g, s1, i, room);
            if let Step::Done(s2) = walk::nested(g, s1, i, room) {
                lemma_seals_same(g, s, s1, s2, model::leave(s2));
            }
        }
    }
}

/// What adding a type does to the containers, if it leaves a well named state: each is as it was,
/// or every reference in it is served.
pub proof fn lemma_reflected(g: Seq<Shape>, s: State, i: int)
    requires
        shape::shapes_wf(g),
        completion::at_rest(s),
        completion::all_regular(g),
        0 <= i < g.len(),
    ensures
        walk::reflected(g, s, i) matches Step::Done(t) ==> (completion::well_named(g, t)
            ==> forall|n: NameView| #[trigger]
            t.registry.contains_key(n) ==> {
                ||| s.registry.contains_key(n) && t.registry[n] == s.registry[n]
                ||| is_served(t.registry[n], t)
            }),
{
    let room = reach::candidates(g).len();
    completion::lemma_fit_at_rest(g, s);
    lemma_reflect(g, s, i, room);
    if let Step::Done(t) = walk::reflected(g, s, i) {
        reveal(seals);
        if completion::well_named(g, t) {
            assert forall|n: NameView| #[trigger] t.registry.contains_key(n) implies {
                ||| s.registry.contains_key(n) && t.registry[n] == s.registry[n]
                ||| is_served(t.registry[n], t)
            } by {
                assert(is_sealed(s, t, n));
            }
        }
    }
}

} // verus!
