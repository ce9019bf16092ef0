//! Which types a walk takes names for.

use vstd::prelude::*;

use crate::format::{ContainerView, FormatView, NamedView, VariantView};
use crate::laws::tables;
use crate::model;
use crate::model::State;
use crate::names::{NameView, SpaceView};
use crate::namespace;
use crate::namespace::ActionView;
use crate::naming;
use crate::reach;
use crate::scalar;
use crate::shape;
use crate::shape::{
    Def, Field, PointerType, SequenceType, Shape, StructKind, Type, UserType, Variant,
};
use crate::step::Step;
use crate::text;
use crate::walk;
use crate::walk::{Inside, Wrap};

verus! {

// What is reached

/// Whether a walk goes through a field of a struct: not if it is to be skipped, unless it is an
/// element of an anonymous tuple or the only one of a tuple struct.
pub open spec fn is_walked(kind: StructKind, fields: Seq<Field>, k: int) -> bool {
    ||| !fields[k].skip
    ||| kind == StructKind::Tuple
    ||| kind == StructKind::TupleStruct && fields.len() == 1
}

/// Whether it goes through a field of a variant: not if it is to be skipped, unless it is the only
/// one and has no name.
pub open spec fn is_walked_in(fields: Seq<Field>, k: int) -> bool {
    !fields[k].skip || fields.len() == 1 && text::all_digits(fields[0].name@)
}

/// Whether the type at `t` is one step away from `shape`: it is wrapped by it, mentioned by it, or
/// the type of a field that is walked through, in a variant that is not to be skipped.
pub open spec fn leads(shape: Shape, t: int) -> bool {
    ||| shape::is_transparent(shape) && (shape.inner matches Some(c) && c == t)
    ||| exists|k: int|
        0 <= k < tables::parts(shape.def).len() && #[trigger] tables::parts(shape.def)[k] == t
    ||| (tables::target(shape.ty) matches Some(u) && u == t)
    ||| (shape.ty matches Type::User(UserType::Struct(st)) && exists|k: int|
        0 <= k < st.fields@.len() && (#[trigger] st.fields@[k]).shape == t && is_walked(
            st.kind,
            st.fields@,
            k,
        ))
    ||| (shape.ty matches Type::User(UserType::Enum(et)) && exists|v: int, k: int|
        0 <= v < et.variants@.len() && 0 <= k < et.variants@[v].fields@.len() && (
        #[trigger] et.variants@[v].fields@[k]).shape == t && !shape::has_attr(
            et.variants@[v].attributes@,
            None,
            "skip"@,
        ) && is_walked_in(et.variants@[v].fields@, k))
}

/// A set of types that no step leads out of.
#[verifier::opaque]
pub open spec fn is_closed(g: Seq<Shape>, r: Set<int>) -> bool {
    forall|k: int, t: int|
        #![trigger r.contains(k), r.contains(t)]
        r.contains(k) && 0 <= k < g.len() && leads(g[k], t) ==> r.contains(t)
}

/// Whether a type of the set has this identity.
pub open spec fn is_among(g: Seq<Shape>, r: Set<int>, id: u64) -> bool {
    exists|k: int| #[trigger] r.contains(k) && 0 <= k < g.len() && g[k].id == id
}

/// Names stay with their owners, and the owners of those that are taken from `s` to `t` are among
/// the set.
#[verifier::opaque]
pub open spec fn takes(g: Seq<Shape>, r: Set<int>, s: State, t: State) -> bool {
    &&& forall|n: NameView| #[trigger]
        s.processed.contains_key(n) ==> t.processed.contains_key(n) && t.processed[n]
            == s.processed[n]
    &&& forall|n: NameView| #[trigger]
        t.processed.contains_key(n) ==> s.processed.contains_key(n) || is_among(
            g,
            r,
            t.processed[n].id,
        )
}

/// The same for a step that succeeds.
pub open spec fn steps(g: Seq<Shape>, r: Set<int>, s: State, step: Step<State>) -> bool {
    step matches Step::Done(t) ==> takes(g, r, s, t)
}

pub open spec fn gives<T>(g: Seq<Shape>, r: Set<int>, s: State, step: Step<(State, T)>) -> bool {
    step matches Step::Done((t, _)) ==> takes(g, r, s, t)
}

proof fn lemma_same(g: Seq<Shape>, r: Set<int>, s: State, t: State)
    requires
        t.processed == s.processed,
    ensures
        takes(g, r, s, t),
{
    reveal(takes);
}

proof fn lemma_then(g: Seq<Shape>, r: Set<int>, s: State, t: State, u: State)
    requires
        takes(g, r, s, t),
        takes(g, r, t, u),
    ensures
        takes(g, r, s, u),
{
    reveal(takes);
    assert forall|n: NameView| #[trigger] u.processed.contains_key(n) implies
        s.processed.contains_key(n) || is_among(g, r, u.processed[n].id) by {
        if t.processed.contains_key(n) {
            assert(u.processed[n] == t.processed[n]);
        }
    }
    assert forall|n: NameView| #[trigger] s.processed.contains_key(n) implies
        u.processed.contains_key(n) && u.processed[n] == s.processed[n] by {
        assert(t.processed.contains_key(n));
    }
}

/// What matters of the states between which names are taken are the names alone.
proof fn lemma_alike(g: Seq<Shape>, r: Set<int>, s: State, s1: State, t1: State, t: State)
    requires
        takes(g, r, s1, t1),
        s1.processed == s.processed,
        t1.processed == t.processed,
    ensures
        takes(g, r, s, t),
{
    reveal(takes);
}

proof fn lemma_leads(g: Seq<Shape>, r: Set<int>, k: int, t: int)
    requires
        is_closed(g, r),
        r.contains(k),
        0 <= k < g.len(),
        leads(g[k], t),
    ensures
        r.contains(t),
{
    reveal(is_closed);
    assert(r.contains(t) || !r.contains(t));
}

proof fn lemma_generated(g: Seq<Shape>, r: Set<int>, i: int)
    requires
        shape::shapes_wf(g),
        is_closed(g, r),
        r.contains(i),
        0 <= i < g.len(),
    ensures
        r.contains(naming::generated(g, i)),
    decreases i,
{
    assert(shape::shape_wf(g, i));
    if let Some(c) = naming::inner_of(g, i) {
        lemma_leads(g, r, i, c);
        lemma_generated(g, r, c);
    }
}

proof fn lemma_parts(g: Seq<Shape>, r: Set<int>, j: int)
    requires
        is_closed(g, r),
        r.contains(j),
        0 <= j < g.len(),
    ensures
        forall|k: int|
            0 <= k < tables::parts(g[j].def).len() ==> r.contains(
                #[trigger] tables::parts(g[j].def)[k] as int,
            ),
        tables::target(g[j].ty) matches Some(t) ==> r.contains(t as int),
        g[j].ty matches Type::User(UserType::Struct(st)) ==> forall|k: int|
            0 <= k < st.fields@.len() && is_walked(st.kind, st.fields@, k) ==> r.contains(
                (#[trigger] st.fields@[k]).shape as int,
            ),
        g[j].ty matches Type::User(UserType::Enum(et)) ==> forall|v: int|
            0 <= v < et.variants@.len() && !shape::has_attr(
                (#[trigger] et.variants@[v]).attributes@,
                None,
                "skip"@,
            ) ==> has_walked(r, et.variants@[v].fields@),
{
    assert forall|k: int| 0 <= k < tables::parts(g[j].def).len() implies r.contains(
        #[trigger] tables::parts(g[j].def)[k] as int,
    ) by {
        lemma_leads(g, r, j, tables::parts(g[j].def)[k] as int);
    }
    if let Some(t) = tables::target(g[j].ty) {
        lemma_leads(g, r, j, t as int);
    }
    match g[j].ty {
        Type::User(UserType::Struct(st)) => {
            assert forall|k: int|
                0 <= k < st.fields@.len() && is_walked(st.kind, st.fields@, k) implies r.contains(
                (#[trigger] st.fields@[k]).shape as int,
            ) by {
                lemma_leads(g, r, j, st.fields@[k].shape as int);
            }
        },
        Type::User(UserType::Enum(et)) => {
            assert forall|v: int|
                0 <= v < et.variants@.len() && !shape::has_attr(
                    (#[trigger] et.variants@[v]).attributes@,
                    None,
                    "skip"@,
                ) implies has_walked(r, et.variants@[v].fields@) by {
                let fields = et.variants@[v].fields@;
                assert forall|k: int| 0 <= k < fields.len() && is_walked_in(
                    fields,
                    k,
                ) implies r.contains((#[trigger] fields[k]).shape as int) by {
                    assert(et.variants@[v].fields@[k].shape == fields[k].shape);
                    lemma_leads(g, r, j, fields[k].shape as int);
                }
            }
        },
        _ => {},
    }
}

/// The set holds the types of all the fields of a variant that are walked through.
pub open spec fn has_walked(r: Set<int>, fields: Seq<Field>) -> bool {
    forall|k: int|
        0 <= k < fields.len() && is_walked_in(fields, k) ==> r.contains(
            (#[trigger] fields[k]).shape as int,
        )
}

/// What holds throughout.
pub open spec fn is_walk(g: Seq<Shape>, r: Set<int>) -> bool {
    shape::shapes_wf(g) && is_closed(g, r)
}

/// A type of the set.
pub open spec fn is_in(g: Seq<Shape>, r: Set<int>, i: int) -> bool {
    r.contains(i) && 0 <= i < g.len()
}

// References take no names

proof fn lemma_reference(g: Seq<Shape>, s: State, i: int)
    ensures
        walk::reference(g, s, i, true).0.processed == s.processed,
    decreases i, 1int, 0int,
{
    let j = naming::generated(g, i);
    let shape = g[j];
    if shape::is_container(shape) {
    } else if let Some(fields) = walk::tuple_fields_of(shape) {
        lemma_references(g, s, fields, 0, i);
    } else if let Some((wrap, t)) = walk::single(shape) {
        if t < i {
            lemma_reference(g, s, t as int);
        }
    } else if let Def::MapOf { key, value } = shape.def {
        if key < i && value < i {
            lemma_reference(g, s, key as int);
            lemma_reference(g, walk::reference(g, s, key as int, true).0, value as int);
        }
    }
}

proof fn lemma_references(g: Seq<Shape>, s: State, fields: Seq<Field>, from: int, bound: int)
    ensures
        walk::reference_all(g, s, fields, from, bound, true).0.processed == s.processed,
    decreases bound, 0int, fields.len() - from,
{
    if 0 <= from < fields.len() && fields[from].shape < bound {
        let i = fields[from].shape as int;
        lemma_reference(g, s, i);
        lemma_references(g, walk::reference(g, s, i, true).0, fields, from + 1, bound);
    }
}

// Registration

proof fn lemma_nested(g: Seq<Shape>, r: Set<int>, s: State, i: int, room: nat)
    requires
        is_walk(g, r),
        is_in(g, r, i),
    ensures
        steps(g, r, s, walk::nested(g, s, i, room)),
    decreases room, i, 7int, 0int,
{
    lemma_register(g, r, model::set_aside(s), i, room);
    if let Step::Done(u) = walk::register(g, model::set_aside(s), i, room) {
        lemma_alike(g, r, s, model::set_aside(s), u, model::take_up(s, u));
    }
}

proof fn lemma_register(g: Seq<Shape>, r: Set<int>, s: State, i: int, room: nat)
    requires
        is_walk(g, r),
        is_in(g, r, i),
    ensures
        steps(g, r, s, walk::register(g, s, i, room)),
    decreases room, i, 6int, 0int,
{
    naming::lemma_generated(g, i);
    lemma_generated(g, r, i);
    let k = naming::generated(g, i);
    let shape = g[k];
    assert(shape::shape_wf(g, k));
    lemma_parts(g, r, k);
    lemma_same(g, r, s, s);
    let parts = tables::parts(shape.def);
    if let Def::Option(t) = shape.def {
        assert(parts[0] == t);
        lemma_register_below(g, r, s, t as int, k, room);
    } else {
        match shape.ty {
            Type::User(UserType::Struct(st)) => if st.kind == StructKind::Tuple {
                lemma_register_all(g, r, s, st.fields@, 0, k, room);
            } else {
                lemma_reflect(g, r, s, k, room);
            },
            Type::User(UserType::Enum(_)) => {
                lemma_reflect(g, r, s, k, room);
            },
            Type::Pointer(PointerType::Reference(t)) => {
                lemma_register_below(g, r, s, t as int, k, room);
            },
            Type::Pointer(PointerType::Raw(t)) => {
                lemma_register_below(g, r, s, t as int, k, room);
            },
            _ => match shape.def {
                Def::List(t) => {
                    assert(parts[0] == t);
                    lemma_register_below(g, r, s, t as int, k, room);
                },
                Def::Slice(t) => {
                    assert(parts[0] == t);
                    lemma_register_below(g, r, s, t as int, k, room);
                },
                Def::SetOf(t) => {
                    assert(parts[0] == t);
                    lemma_register_below(g, r, s, t as int, k, room);
                },
                Def::Array { item, size } => {
                    assert(parts[0] == item);
                    lemma_register_below(g, r, s, item as int, k, room);
                },
                Def::MapOf { key, value } => {
                    assert(parts[0] == key && parts[1] == value);
                    lemma_register_below(g, r, s, key as int, k, room);
                    if let Step::Done(s1) = walk::register_below(g, s, key as int, k, room) {
                        lemma_register_below(g, r, s1, value as int, k, room);
                        if let Step::Done(s2) = walk::register_below(
                            g,
                            s1,
                            value as int,
                            k,
                            room,
                        ) {
                            lemma_then(g, r, s, s1, s2);
                        }
                    }
                },
                Def::Pointer(Some(t)) => {
                    assert(parts[0] == t);
                    lemma_register_below(g, r, s, t as int, k, room);
                },
                _ => {},
            },
        }
    }
}

proof fn lemma_register_below(
    g: Seq<Shape>,
    r: Set<int>,
    s: State,
    i: int,
    bound: int,
    room: nat,
)
    requires
        is_walk(g, r),
        r.contains(i),
        0 <= bound <= g.len(),
    ensures
        steps(g, r, s, walk::register_below(g, s, i, bound, room)),
    decreases room, bound, 1int, 0int,
{
    if 0 <= i < bound {
        lemma_register(g, r, s, i, room);
    }
}

proof fn lemma_register_all(
    g: Seq<Shape>,
    r: Set<int>,
    s: State,
    fields: Seq<Field>,
    from: int,
    bound: int,
    room: nat,
)
    requires
        is_walk(g, r),
        0 <= from,
        0 <= bound <= g.len(),
        forall|k: int| 0 <= k < fields.len() ==> r.contains((#[trigger] fields[k]).shape as int),
    ensures
        steps(g, r, s, walk::register_all(g, s, fields, from, bound, room)),
    decreases room, bound, 2int, fields.len() - from,
{
    lemma_same(g, r, s, s);
    if from < fields.len() {
        let i = fields[from].shape as int;
        lemma_register_below(g, r, s, i, bound, room);
        if let Step::Done(s1) = walk::register_below(g, s, i, bound, room) {
            lemma_register_all(g, r, s1, fields, from + 1, bound, room);
            if let Step::Done(s2) = walk::register_all(g, s1, fields, from + 1, bound, room) {
                lemma_then(g, r, s, s1, s2);
            }
        }
    }
}

proof fn lemma_reflect(g: Seq<Shape>, r: Set<int>, s: State, i: int, room: nat)
    requires
        is_walk(g, r),
        is_in(g, r, i),
    ensures
        steps(g, r, s, walk::reflect(g, s, i, room)),
    decreases room, i, 5int, 0int,
{
    naming::lemma_generated(g, i);
    lemma_generated(g, r, i);
    let j = naming::generated(g, i);
    let shape = g[j];
    assert(shape::shape_wf(g, j));
    lemma_parts(g, r, j);
    let s1 = model::meet_params(s, shape).0;
    if let Def::Option(t) = shape.def {
        assert(tables::parts(shape.def)[0] == t);
        lemma_compound(g, r, s1, t as int, j, Wrap::Option, true, room);
    } else {
        match shape.ty {
            Type::User(UserType::Struct(st)) => {
                lemma_format_struct(g, r, s1, j, room);
            },
            Type::User(UserType::Enum(et)) => {
                lemma_format_enum(g, r, s1, j, room);
            },
            Type::Sequence(sequence) => {
                lemma_format_sequence(g, r, s1, j, sequence, room);
            },
            _ => {
                lemma_format_def(g, r, s1, j, room);
            },
        }
    }
    if let Step::Done(t) = walk::reflect(g, s, i, room) {
        lemma_alike(g, r, s, s1, t, t);
    }
}

proof fn lemma_format_sequence(
    g: Seq<Shape>,
    r: Set<int>,
    s: State,
    j: int,
    sequence: SequenceType,
    room: nat,
)
    requires
        is_walk(g, r),
        is_in(g, r, j),
        g[j].ty == Type::Sequence(sequence),
    ensures
        steps(g, r, s, walk::format_sequence(g, s, j, sequence, room)),
    decreases room, j, 4int, 0int,
{
    lemma_parts(g, r, j);
    let parts = tables::parts(g[j].def);
    match (sequence, g[j].def) {
        (SequenceType::Slice(_), Def::Slice(t)) => {
            assert(parts[0] == t);
            lemma_compound(g, r, s, t as int, j, Wrap::SeqOf, true, room);
        },
        (SequenceType::Array(_), Def::Array { item, size }) => {
            assert(parts[0] == item);
            lemma_compound(g, r, s, item as int, j, Wrap::TupleArray(size), true, room);
        },
        (SequenceType::Slice(t), _) => {
            lemma_compound(g, r, s, t as int, j, Wrap::SeqOf, true, room);
        },
        (SequenceType::Array(t), _) => {
            lemma_compound(g, r, s, t as int, j, Wrap::SeqOf, true, room);
        },
    }
}

proof fn lemma_supplied(g: Seq<Shape>, r: Set<int>, s: State, format: FormatView, force: bool)
    ensures
        steps(g, r, s, model::supply(s, format, force)),
{
    if let Step::Done(t) = model::supply(s, format, force) {
        lemma_same(g, r, s, t);
    }
}

proof fn lemma_format_def(g: Seq<Shape>, r: Set<int>, s: State, j: int, room: nat)
    requires
        is_walk(g, r),
        is_in(g, r, j),
    ensures
        steps(g, r, s, walk::format_def(g, s, j, room)),
    decreases room, j, 4int, 0int,
{
    lemma_parts(g, r, j);
    lemma_same(g, r, s, s);
    let shape = g[j];
    let parts = tables::parts(shape.def);
    match shape.def {
        Def::Scalar => {
            if let Step::Done(Some(format)) = scalar::scalar_format(shape) {
                lemma_supplied(g, r, s, format, true);
            }
        },
        Def::MapOf { key, value } => {
            assert(parts[0] == key && parts[1] == value);
            lemma_format_map(g, r, s, key as int, value as int, j, room);
        },
        Def::List(t) => {
            assert(parts[0] == t);
            lemma_compound(g, r, s, t as int, j, Wrap::SeqOf, true, room);
        },
        Def::Slice(t) => {
            assert(parts[0] == t);
            lemma_compound(g, r, s, t as int, j, Wrap::SeqOf, true, room);
        },
        Def::Array { item, size } => {
            assert(parts[0] == item);
            lemma_compound(g, r, s, item as int, j, Wrap::TupleArray(size), true, room);
        },
        Def::SetOf(t) => {
            assert(parts[0] == t);
            lemma_compound(g, r, s, t as int, j, Wrap::SetOf, true, room);
        },
        Def::Option(t) => {
            assert(parts[0] == t);
            lemma_compound(g, r, s, t as int, j, Wrap::Option, true, room);
        },
        Def::Pointer(Some(t)) => {
            assert(parts[0] == t);
            lemma_compound(g, r, s, t as int, j, Wrap::Plain, false, room);
        },
        Def::Pointer(None) => {
            lemma_supplied(g, r, s, FormatView::Unit, true);
        },
        Def::Undefined => {
            lemma_supplied(g, r, s, FormatView::Bool, true);
            lemma_supplied(g, r, s, FormatView::F32, true);
            lemma_supplied(g, r, s, FormatView::Str, true);
            match shape.ty {
                Type::Pointer(PointerType::Reference(t)) => if t < j {
                    lemma_reflect(g, r, s, t as int, room);
                },
                Type::Pointer(PointerType::Raw(t)) => if t < j {
                    lemma_reflect(g, r, s, t as int, room);
                },
                _ => {},
            }
        },
        Def::Other => {},
    }
}

proof fn lemma_compound(
    g: Seq<Shape>,
    r: Set<int>,
    s: State,
    t: int,
    bound: int,
    wrap: Wrap,
    force: bool,
    room: nat,
)
    requires
        is_walk(g, r),
        r.contains(t),
        0 <= bound <= g.len(),
    ensures
        steps(g, r, s, walk::compound(g, s, t, bound, wrap, force, room)),
    decreases room, bound, 2int, 0int,
{
    if 0 <= t < bound {
        lemma_reference(g, s, t);
        let (s1, referred) = walk::reference(g, s, t, true);
        lemma_nested(g, r, s1, t, room);
        if let Step::Done(s2) = walk::nested(g, s1, t, room) {
            lemma_alike(g, r, s, s1, s2, s2);
            if let Step::Done(format) = referred {
                let stood = walk::wrapped(wrap, walk::standing(g, s2, t, format));
                lemma_supplied(g, r, s2, stood, force);
                if let Step::Done(s3) = model::supply(s2, stood, force) {
                    lemma_then(g, r, s, s2, s3);
                }
            }
        }
    }
}

proof fn lemma_format_map(
    g: Seq<Shape>,
    r: Set<int>,
    s: State,
    key: int,
    value: int,
    bound: int,
    room: nat,
)
    requires
        is_walk(g, r),
        r.contains(key),
        r.contains(value),
        0 <= bound <= g.len(),
    ensures
        steps(g, r, s, walk::format_map(g, s, key, value, bound, room)),
    decreases room, bound, 2int, 0int,
{
    if 0 <= key < bound && 0 <= value < bound {
        lemma_reference(g, s, key);
        let (s1, first) = walk::reference(g, s, key, true);
        lemma_reference(g, s1, value);
        let (s2, second) = walk::reference(g, s1, value, true);
        lemma_nested(g, r, s2, key, room);
        if let Step::Done(s3) = walk::nested(g, s2, key, room) {
            lemma_nested(g, r, s3, value, room);
            if let Step::Done(s4) = walk::nested(g, s3, value, room) {
                lemma_alike(g, r, s, s2, s3, s3);
                lemma_then(g, r, s, s3, s4);
                if let (Step::Done(k), Step::Done(v)) = (first, second) {
                    let stood = FormatView::MapOf {
                        key: Box::new(walk::standing(g, s3, key, k)),
                        value: Box::new(walk::standing(g, s4, value, v)),
                    };
                    lemma_supplied(g, r, s4, stood, true);
                    if let Step::Done(s5) = model::supply(s4, stood, true) {
                        lemma_then(g, r, s, s4, s5);
                    }
                }
            }
        }
    }
}

// Structs

proof fn lemma_open(g: Seq<Shape>, r: Set<int>, s: State, j: int)
    requires
        is_in(g, r, j),
        naming::inner_of(g, j) is None,
    ensures
        gives(g, r, s, walk::open_container(g, s, j)),
{
    assert(naming::generated(g, j) == j);
    if let Step::Done((t, opened)) = walk::open_container(g, s, j) {
        let s1 = model::walk_name(g, s, j).0;
        assert(s1.processed == s.processed);
        reveal(takes);
        if opened is Some {
            assert(is_among(g, r, g[j].id));
        }
    }
}

proof fn lemma_format_struct(g: Seq<Shape>, r: Set<int>, s: State, j: int, room: nat)
    requires
        is_walk(g, r),
        is_in(g, r, j),
        naming::inner_of(g, j) is None,
    ensures
        steps(g, r, s, walk::format_struct(g, s, j, room)),
    decreases room, j, 4int, 0int,
{
    lemma_parts(g, r, j);
    assert(shape::shape_wf(g, j));
    if let Type::User(UserType::Struct(st)) = g[j].ty {
        if st.kind == StructKind::Tuple {
            let apart = State { current: Seq::empty(), ..s };
            lemma_register_all(g, r, apart, st.fields@, 0, j, room);
            if let Step::Done(u) = walk::register_all(g, apart, st.fields@, 0, j, room) {
                lemma_alike(g, r, s, apart, u, State { current: s.current, ..u });
            }
        } else {
            lemma_open(g, r, s, j);
            if let Step::Done((s1, Some(name))) = walk::open_container(g, s, j) {
                if room > 0 {
                    let less = (room - 1) as nat;
                    lemma_struct_body(g, r, s1, name, st.kind, st.fields@, j, less);
                    if let Step::Done(s2) = walk::struct_body(
                        g,
                        s1,
                        name,
                        st.kind,
                        st.fields@,
                        j,
                        less,
                    ) {
                        lemma_then(g, r, s, s1, s2);
                        lemma_same(g, r, s2, model::leave(s2));
                        lemma_then(g, r, s, s2, model::leave(s2));
                    }
                }
            }
        }
    }
}

/// The types of the fields that are walked through are in the set.
pub open spec fn has_fields(r: Set<int>, kind: StructKind, fields: Seq<Field>) -> bool {
    forall|k: int|
        0 <= k < fields.len() && is_walked(kind, fields, k) ==> r.contains(
            (#[trigger] fields[k]).shape as int,
        )
}

proof fn lemma_started(
    g: Seq<Shape>,
    r: Set<int>,
    s: State,
    name: NameView,
    container: ContainerView,
    j: int,
    s2: State,
)
    requires
        model::start_met(g, s, name, container, j) matches Step::Done(s1) && takes(g, r, s1, s2),
    ensures
        takes(g, r, s, s2),
        takes(g, r, s, model::finish(s2)),
        takes(g, r, s, model::finish(model::settle_struct(s2))),
{
    let s1 = model::start_met(g, s, name, container, j)->Done_0;
    lemma_alike(g, r, s, s1, s2, s2);
    lemma_alike(g, r, s, s1, s2, model::finish(s2));
    lemma_alike(g, r, s, s1, s2, model::finish(model::settle_struct(s2)));
}

proof fn lemma_struct_body(
    g: Seq<Shape>,
    r: Set<int>,
    s: State,
    name: NameView,
    kind: StructKind,
    fields: Seq<Field>,
    j: int,
    room: nat,
)
    requires
        is_walk(g, r),
        0 <= j < g.len(),
        has_fields(r, kind, fields),
    ensures
        steps(g, r, s, walk::struct_body(g, s, name, kind, fields, j, room)),
    decreases room, g.len() + 4, 0int, 0int,
{
    let doc = crate::format::lines_view(g[j].doc@);
    match kind {
        StructKind::Unit => {
            let container = ContainerView::UnitStruct(doc);
            if let Step::Done(s1) = model::start_met(g, s, name, container, j) {
                lemma_same(g, r, s1, s1);
                lemma_started(g, r, s, name, container, j, s1);
            }
        },
        StructKind::TupleStruct => if fields.len() == 1 {
            assert(is_walked(kind, fields, 0));
            if shape::is_transparent(g[j]) {
                lemma_bytes(g, r, s, fields[0]);
                if let Step::Done((s1, false)) = model::supply_bytes(g, s, fields[0]) {
                    if fields[0].shape < g.len() {
                        lemma_reflect(g, r, s1, fields[0].shape as int, room);
                    }
                }
            } else {
                let container = ContainerView::NewTypeStruct(FormatView::Variable, doc);
                if let Step::Done(s1) = model::start_met(g, s, name, container, j) {
                    lemma_positional_field(g, r, s1, fields[0], room);
                    if let Step::Done(s2) = walk::positional_field(g, s1, fields[0], room) {
                        lemma_started(g, r, s, name, container, j, s2);
                    }
                }
            }
        } else {
            let container = ContainerView::TupleStruct(Seq::empty(), doc);
            if let Step::Done(s1) = model::start_met(g, s, name, container, j) {
                lemma_positional_fields(g, r, s1, kind, fields, 0, room);
                if let Step::Done(s2) = walk::positional_fields(g, s1, fields, 0, room) {
                    lemma_started(g, r, s, name, container, j, s2);
                }
            }
        },
        StructKind::Struct => {
            let container = ContainerView::Struct(Seq::empty(), doc);
            if let Step::Done(s1) = model::start_met(g, s, name, container, j) {
                lemma_struct_fields(g, r, s1, kind, fields, 0, room);
                if let Step::Done(s2) = walk::struct_fields(g, s1, fields, 0, room) {
                    lemma_started(g, r, s, name, container, j, s2);
                }
            }
        },
        StructKind::Tuple => {},
    }
}

proof fn lemma_bytes(g: Seq<Shape>, r: Set<int>, s: State, field: Field)
    ensures
        gives(g, r, s, model::supply_bytes(g, s, field)),
        model::supply_bytes(g, s, field) matches Step::Done((t, false)) ==> t == s,
{
    if let Step::Done((t, _)) = model::supply_bytes(g, s, field) {
        lemma_same(g, r, s, t);
    }
}

proof fn lemma_positional_field(g: Seq<Shape>, r: Set<int>, s: State, field: Field, room: nat)
    requires
        is_walk(g, r),
        r.contains(field.shape as int),
    ensures
        steps(g, r, s, walk::positional_field(g, s, field, room)),
    decreases room, g.len() + 2, 0int, 0int,
{
    lemma_bytes(g, r, s, field);
    if field.shape < g.len() {
        let i = field.shape as int;
        lemma_reference(g, s, i);
        let (s1, formatted) = walk::field_format(g, s, i);
        assert(s1.processed == s.processed);
        lemma_nested(g, r, s1, i, room);
        if let Step::Done(s2) = walk::nested(g, s1, i, room) {
            lemma_alike(g, r, s, s1, s2, s2);
            if let Step::Done(Some(format)) = formatted {
                let stood = walk::standing(g, s2, i, format);
                lemma_supplied(g, r, s2, stood, true);
                if let Step::Done(s3) = model::supply(s2, stood, true) {
                    lemma_then(g, r, s, s2, s3);
                }
            }
        }
    }
}

proof fn lemma_positional_fields(
    g: Seq<Shape>,
    r: Set<int>,
    s: State,
    kind: StructKind,
    fields: Seq<Field>,
    from: int,
    room: nat,
)
    requires
        is_walk(g, r),
        0 <= from,
        has_fields(r, kind, fields),
    ensures
        steps(g, r, s, walk::positional_fields(g, s, fields, from, room)),
    decreases room, g.len() + 3, 0int, fields.len() - from,
{
    lemma_same(g, r, s, s);
    if from < fields.len() {
        if fields[from].skip {
            lemma_positional_fields(g, r, s, kind, fields, from + 1, room);
        } else {
            assert(is_walked(kind, fields, from));
            lemma_positional_field(g, r, s, fields[from], room);
            if let Step::Done(s1) = walk::positional_field(g, s, fields[from], room) {
                lemma_positional_fields(g, r, s1, kind, fields, from + 1, room);
                if let Step::Done(s2) = walk::positional_fields(g, s1, fields, from + 1, room) {
                    lemma_then(g, r, s, s1, s2);
                }
            }
        }
    }
}

proof fn lemma_struct_fields(
    g: Seq<Shape>,
    r: Set<int>,
    s: State,
    kind: StructKind,
    fields: Seq<Field>,
    from: int,
    room: nat,
)
    requires
        is_walk(g, r),
        0 <= from,
        has_fields(r, kind, fields),
    ensures
        steps(g, r, s, walk::struct_fields(g, s, fields, from, room)),
    decreases room, g.len() + 3, 0int, fields.len() - from,
{
    lemma_same(g, r, s, s);
    if from < fields.len() {
        if fields[from].skip {
            lemma_struct_fields(g, r, s, kind, fields, from + 1, room);
        } else {
            assert(is_walked(kind, fields, from));
            lemma_struct_field(g, r, s, fields[from], room);
            if let Step::Done(s1) = walk::struct_field(g, s, fields[from], room) {
                lemma_struct_fields(g, r, s1, kind, fields, from + 1, room);
                if let Step::Done(s2) = walk::struct_fields(g, s1, fields, from + 1, room) {
                    lemma_then(g, r, s, s1, s2);
                }
            }
        }
    }
}

/// A reference is made under a context, and what it reaches is registered.
proof fn lemma_referred(g: Seq<Shape>, r: Set<int>, s: State, t: int, room: nat)
    requires
        is_walk(g, r),
        is_in(g, r, t),
    ensures
        steps(g, r, s, walk::nested(g, walk::reference(g, s, t, true).0, t, room)),
    decreases room, g.len() + 1, 0int, 0int,
{
    lemma_reference(g, s, t);
    let s1 = walk::reference(g, s, t, true).0;
    lemma_nested(g, r, s1, t, room);
    if let Step::Done(s2) = walk::nested(g, s1, t, room) {
        lemma_alike(g, r, s, s1, s2, s2);
    }
}

proof fn lemma_struct_field(g: Seq<Shape>, r: Set<int>, s: State, field: Field, room: nat)
    requires
        is_walk(g, r),
        r.contains(field.shape as int),
    ensures
        steps(g, r, s, walk::struct_field(g, s, field, room)),
    decreases room, g.len() + 2, 0int, 0int,
{
    lemma_bytes(g, r, s, field);
    let i = field.shape as int;
    if field.shape < g.len() {
        lemma_parts(g, r, i);
        assert(shape::shape_wf(g, i));
        if let Step::Done((s0, false)) = model::supply_bytes(g, s, field) {
            if let Some(t) = walk::option_of(g, field) {
                assert(tables::parts(g[i].def)[0] == t);
                lemma_referred(g, r, s, t, room);
                if let Step::Done(u) = walk::struct_field(g, s, field, room) {
                    let s1 = walk::reference(g, s, t, true).0;
                    let s2 = walk::nested(g, s1, t, room)->Done_0;
                    lemma_alike(g, r, s, s, s2, u);
                }
            } else if let Some(inside) = walk::tuple_field_of(g, field) {
                match inside {
                    Inside::Tuple => {
                        lemma_referred(g, r, s, i, room);
                        if let Step::Done(u) = walk::struct_field(g, s, field, room) {
                            let s1 = walk::reference(g, s, i, true).0;
                            let s2 = walk::nested(g, s1, i, room)->Done_0;
                            lemma_alike(g, r, s, s, s2, u);
                        }
                    },
                    Inside::Wrapper(t) => {
                        if let Type::User(UserType::Struct(st)) = g[i].ty {
                            assert(is_walked(st.kind, st.fields@, 0));
                            assert(r.contains(st.fields@[0].shape as int));
                        }
                        if let Ok(action) = namespace::namespace_action(g[i].attributes@) {
                            let entered = model::enter(s, action);
                            lemma_referred(g, r, entered, t as int, room);
                            if let Step::Done(u) = walk::struct_field(g, s, field, room) {
                                let s1 = walk::reference(g, entered, t as int, true).0;
                                let s2 = walk::nested(g, s1, t as int, room)->Done_0;
                                lemma_alike(g, r, s, entered, s2, u);
                            }
                        }
                    },
                }
            } else if let Ok(action) = namespace::namespace_action(field.attributes@) {
                let entered = model::enter(s, action);
                lemma_field_value(g, r, entered, field, action, room);
                if let Step::Done((t, value)) = walk::field_value(
                    g,
                    entered,
                    field,
                    action,
                    room,
                ) {
                    if let Step::Done(u) = walk::struct_field(g, s, field, room) {
                        lemma_alike(g, r, s, entered, t, u);
                    }
                }
            }
        }
    }
}

proof fn lemma_field_value(
    g: Seq<Shape>,
    r: Set<int>,
    s: State,
    field: Field,
    action: ActionView,
    room: nat,
)
    requires
        is_walk(g, r),
        r.contains(field.shape as int),
    ensures
        gives(g, r, s, walk::field_value(g, s, field, action, room)),
    decreases room, g.len() + 1, 0int, 0int,
{
    if field.shape < g.len() {
        let i = field.shape as int;
        lemma_reference(g, s, i);
        let (s1, formatted) = walk::field_format(g, s, i);
        assert(s1.processed == s.processed);
        lemma_same(g, r, s, model::leave(s1));
        match walk::named_space(action) {
            Some(space) => {
                lemma_format_in(g, r, s1, i, space, room);
            },
            None => {
                lemma_reflect(g, r, s1, i, room);
            },
        }
        if let Step::Done(s2) = walk::field_type(g, s1, i, action, room) {
            lemma_alike(g, r, s, s1, s2, model::leave(s2));
        }
    }
}

proof fn lemma_format_in(
    g: Seq<Shape>,
    r: Set<int>,
    s: State,
    i: int,
    space: Seq<char>,
    room: nat,
)
    requires
        is_walk(g, r),
        is_in(g, r, i),
    ensures
        steps(g, r, s, walk::format_in(g, s, i, space, room)),
    decreases room, i, 6int, 0int,
{
    lemma_same(g, r, s, s);
    let inside = model::enter(
        s,
        ActionView::SetContext(namespace::explicit_context(SpaceView::Named(space))),
    );
    lemma_reflect(g, r, inside, i, room);
    if let Step::Done(s1) = walk::reflect(g, inside, i, room) {
        if let Step::Done(s2) = walk::meet_again(g, model::leave(s1), i) {
            lemma_alike(g, r, s, inside, s1, s2);
        }
    }
}

// Enums

proof fn lemma_format_enum(g: Seq<Shape>, r: Set<int>, s: State, j: int, room: nat)
    requires
        is_walk(g, r),
        is_in(g, r, j),
        naming::inner_of(g, j) is None,
    ensures
        steps(g, r, s, walk::format_enum(g, s, j, room)),
    decreases room, j, 4int, 0int,
{
    lemma_parts(g, r, j);
    if let Type::User(UserType::Enum(et)) = g[j].ty {
        lemma_open(g, r, s, j);
        if let Step::Done((s1, Some(name))) = walk::open_container(g, s, j) {
            if room > 0 {
                let less = (room - 1) as nat;
                let apart = State { current: Seq::empty(), ..s1 };
                lemma_enum_variants(g, r, apart, et.variants@, 0, 0, Map::empty(), j, less);
                if let Step::Done((u, variants)) = walk::enum_variants(
                    g,
                    apart,
                    et.variants@,
                    0,
                    0,
                    Map::empty(),
                    j,
                    less,
                ) {
                    if let Step::Done(t) = walk::format_enum(g, s, j, room) {
                        lemma_alike(g, r, s1, apart, u, t);
                        lemma_then(g, r, s, s1, t);
                    }
                }
            }
        }
    }
}

proof fn lemma_enum_variants(
    g: Seq<Shape>,
    r: Set<int>,
    s: State,
    variants: Seq<Variant>,
    from: int,
    index: int,
    known: Map<u32, NamedView<VariantView>>,
    j: int,
    room: nat,
)
    requires
        is_walk(g, r),
        0 <= from,
        0 <= j < g.len(),
        forall|v: int|
            0 <= v < variants.len() && !shape::has_attr(
                (#[trigger] variants[v]).attributes@,
                None,
                "skip"@,
            ) ==> has_walked(r, variants[v].fields@),
    ensures
        gives(g, r, s, walk::enum_variants(g, s, variants, from, index, known, j, room)),
    decreases room, g.len() + 5, 0int, variants.len() - from,
{
    lemma_same(g, r, s, s);
    if from < variants.len() {
        let variant = variants[from];
        if shape::has_attr(variant.attributes@, None, "skip"@) {
            lemma_enum_variants(g, r, s, variants, from + 1, index, known, j, room);
        } else {
            assert(has_walked(r, variant.fields@));
            lemma_variant_format(g, r, s, variant, j, room);
            if let Step::Done((s1, value)) = walk::variant_format(g, s, variant, j, room) {
                let named = NamedView {
                    name: naming::renamed(variant.rename, variant.name),
                    doc: crate::format::lines_view(variant.doc@),
                    value,
                };
                let after = known.insert(index as u32, named);
                lemma_enum_variants(g, r, s1, variants, from + 1, index + 1, after, j, room);
                if let Step::Done((s2, _)) = walk::enum_variants(
                    g,
                    s1,
                    variants,
                    from + 1,
                    index + 1,
                    after,
                    j,
                    room,
                ) {
                    lemma_then(g, r, s, s1, s2);
                }
            }
        }
    }
}

proof fn lemma_variant_format(
    g: Seq<Shape>,
    r: Set<int>,
    s: State,
    variant: Variant,
    j: int,
    room: nat,
)
    requires
        is_walk(g, r),
        0 <= j < g.len(),
        has_walked(r, variant.fields@),
    ensures
        gives(g, r, s, walk::variant_format(g, s, variant, j, room)),
    decreases room, g.len() + 4, 1int, 0int,
{
    let fields = variant.fields@;
    lemma_same(g, r, s, s);
    if fields.len() == 0 {
    } else if walk::has_names(variant) {
        lemma_variant_fields(g, r, s, fields, 0, Seq::empty(), room);
    } else if fields.len() == 1 {
        assert(is_walked_in(fields, 0));
        lemma_newtype_variant(g, r, s, fields[0], room);
    } else {
        lemma_variant_items(g, r, s, fields, 0, Seq::empty(), j, room);
    }
}

proof fn lemma_newtype_variant(g: Seq<Shape>, r: Set<int>, s: State, field: Field, room: nat)
    requires
        is_walk(g, r),
        r.contains(field.shape as int),
    ensures
        gives(g, r, s, walk::newtype_variant(g, s, field, room)),
    decreases room, g.len() + 3, 0int, 0int,
{
    lemma_same(g, r, s, s);
    if field.shape < g.len() {
        let i = field.shape as int;
        if let Ok(action) = namespace::namespace_action(field.attributes@) {
            let entered = model::enter(s, action);
            lemma_reference(g, entered, i);
            let s1 = walk::payload_format(g, entered, i).0;
            assert(s1.processed == s.processed);
            lemma_same(g, r, s, model::leave(s1));
            lemma_nested(g, r, s1, i, room);
            if let Step::Done(s2) = walk::nested(g, s1, i, room) {
                lemma_alike(g, r, s, s1, s2, model::leave(s2));
            }
        }
    }
}

proof fn lemma_variant_fields(
    g: Seq<Shape>,
    r: Set<int>,
    s: State,
    fields: Seq<Field>,
    from: int,
    known: Seq<NamedView<FormatView>>,
    room: nat,
)
    requires
        is_walk(g, r),
        0 <= from,
        has_walked(r, fields),
    ensures
        gives(g, r, s, walk::variant_fields(g, s, fields, from, known, room)),
    decreases room, g.len() + 3, 0int, fields.len() - from,
{
    lemma_same(g, r, s, s);
    if from < fields.len() {
        let field = fields[from];
        if field.skip {
            lemma_variant_fields(g, r, s, fields, from + 1, known, room);
        } else {
            assert(is_walked_in(fields, from));
            lemma_variant_field(g, r, s, field, room);
            if let Step::Done((s1, value)) = walk::variant_field(g, s, field, room) {
                let after = match value {
                    Some(format) => known.push(model::named_field(field, format)),
                    None => known,
                };
                lemma_variant_fields(g, r, s1, fields, from + 1, after, room);
                if let Step::Done((s2, _)) = walk::variant_fields(
                    g,
                    s1,
                    fields,
                    from + 1,
                    after,
                    room,
                ) {
                    lemma_then(g, r, s, s1, s2);
                }
            }
        }
    }
}

proof fn lemma_variant_field(g: Seq<Shape>, r: Set<int>, s: State, field: Field, room: nat)
    requires
        is_walk(g, r),
        r.contains(field.shape as int),
    ensures
        gives(g, r, s, walk::variant_field(g, s, field, room)),
    decreases room, g.len() + 2, 0int, 0int,
{
    lemma_same(g, r, s, s);
    if field.shape < g.len() {
        let i = field.shape as int;
        lemma_parts(g, r, i);
        assert(shape::shape_wf(g, i));
        if let Ok(action) = namespace::namespace_action(field.attributes@) {
            let entered = model::enter(s, action);
            if let Some(t) = walk::option_of(g, field) {
                assert(tables::parts(g[i].def)[0] == t);
                lemma_referred(g, r, entered, t, room);
                let s1 = walk::reference(g, entered, t, true).0;
                if let Step::Done(s2) = walk::nested(g, s1, t, room) {
                    lemma_alike(g, r, s, entered, s2, model::leave(s2));
                }
            } else {
                lemma_field_value(g, r, entered, field, action, room);
                if let Step::Done((t, _)) = walk::field_value(g, entered, field, action, room) {
                    lemma_alike(g, r, s, entered, t, t);
                }
            }
        }
    }
}

proof fn lemma_variant_items(
    g: Seq<Shape>,
    r: Set<int>,
    s: State,
    fields: Seq<Field>,
    from: int,
    known: Seq<FormatView>,
    j: int,
    room: nat,
)
    requires
        is_walk(g, r),
        0 <= from,
        0 <= j < g.len(),
        has_walked(r, fields),
    ensures
        gives(g, r, s, walk::variant_items(g, s, fields, from, known, j, room)),
    decreases room, g.len() + 3, 0int, fields.len() - from,
{
    lemma_same(g, r, s, s);
    if from < fields.len() {
        let field = fields[from];
        if field.skip {
            lemma_variant_items(g, r, s, fields, from + 1, known, j, room);
        } else {
            assert(is_walked_in(fields, from));
            lemma_variant_item(g, r, s, field, j, room);
            if let Step::Done((s1, value)) = walk::variant_item(g, s, field, j, room) {
                let after = match value {
                    Some(format) => known.push(format),
                    None => known,
                };
                lemma_variant_items(g, r, s1, fields, from + 1, after, j, room);
                if let Step::Done((s2, _)) = walk::variant_items(
                    g,
                    s1,
                    fields,
                    from + 1,
                    after,
                    j,
                    room,
                ) {
                    lemma_then(g, r, s, s1, s2);
                }
            }
        }
    }
}

proof fn lemma_variant_item(
    g: Seq<Shape>,
    r: Set<int>,
    s: State,
    field: Field,
    j: int,
    room: nat,
)
    requires
        is_walk(g, r),
        0 <= j < g.len(),
        r.contains(field.shape as int),
    ensures
        gives(g, r, s, walk::variant_item(g, s, field, j, room)),
    decreases room, g.len() + 2, 0int, 0int,
{
    lemma_same(g, r, s, s);
    if field.shape < g.len() {
        let i = field.shape as int;
        if let Ok(action) = namespace::namespace_action(g[j].attributes@) {
            let entered = model::enter(s, action);
            lemma_reference(g, entered, i);
            let s1 = walk::field_format(g, entered, i).0;
            assert(s1.processed == s.processed);
            lemma_nested(g, r, s1, i, room);
            if let Step::Done(s2) = walk::nested(g, s1, i, room) {
                lemma_alike(g, r, s, s1, s2, model::leave(s2));
            }
        }
    }
}

// The walk as a whole

/// A type that is added brings in only types that it reaches: whatever set holds it and no step
/// leads out of, the owner of every name that is taken anew is in it. So what is reached through
/// skipped fields and skipped variants alone is not registered.
pub proof fn law_only_what_is_reached(g: Seq<Shape>, r: Set<int>, s: State, i: int, name: NameView)
    requires
        shape::shapes_wf(g),
        0 <= i < g.len(),
        is_closed(g, r),
        r.contains(i),
    ensures
        walk::reflected(g, s, i) matches Step::Done(t) ==> (t.processed.contains_key(name)
            && !s.processed.contains_key(name) ==> is_among(g, r, t.processed[name].id)),
{
    lemma_reflect(g, r, s, i, reach::candidates(g).len());
    reveal(takes);
}

} // verus!
