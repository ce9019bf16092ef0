//! Putting shapes in the order of a table.
//!
//! Shapes that are gathered one by one refer to each other as they come. A table wants those
//! that are followed without naming a container before the ones that lead to them.

use vstd::prelude::*;

use crate::shape;
use crate::shape::{
    Def, Field, PointerType, SequenceType, Shape, Type, TypeTable, UserType, Variant,
};

verus! {

// What has to come first

/// Whether `def` mentions the shape at `t`.
pub open spec fn def_mentions(def: Def, t: usize) -> bool {
    match def {
        Def::MapOf { key, value } => key == t || value == t,
        Def::SetOf(u) => u == t,
        Def::List(u) => u == t,
        Def::Array { item, size } => item == t,
        Def::Slice(u) => u == t,
        Def::Option(u) => u == t,
        Def::Pointer(Some(u)) => u == t,
        _ => false,
    }
}

/// Whether one of the fields is of the shape at `t`.
pub open spec fn fields_mention(fields: Seq<Field>, t: usize) -> bool {
    exists|k: int| 0 <= k < fields.len() && (#[trigger] fields[k]).shape == t
}

/// Whether `ty` mentions the shape at `t`, but in the variants of an enum.
pub open spec fn structure_mentions(ty: Type, t: usize) -> bool {
    match ty {
        Type::Sequence(SequenceType::Slice(u)) => u == t,
        Type::Sequence(SequenceType::Array(u)) => u == t,
        Type::Pointer(PointerType::Reference(u)) => u == t,
        Type::Pointer(PointerType::Raw(u)) => u == t,
        Type::User(UserType::Struct(st)) => fields_mention(st.fields@, t),
        _ => false,
    }
}

/// Whether the shape at `t` has to come before `shape`, because it is followed from there without
/// naming a container.
pub open spec fn leads_to(shape: Shape, t: usize) -> bool {
    ||| shape::is_transparent(shape) && shape.inner == Some(t)
    ||| shape.def is Option && def_mentions(shape.def, t)
    ||| !shape::is_container(shape) && (def_mentions(shape.def, t) || structure_mentions(
        shape.ty,
        t,
    ))
}

/// Every shape that `shape` mentions has an index below `bound`, and its variants can be numbered.
pub open spec fn is_within(shape: Shape, bound: int) -> bool {
    &&& shape::def_below(shape.def, bound)
    &&& shape::structure_below(shape.ty, bound)
    &&& shape::variants_below(shape.ty, bound)
    &&& shape::is_transparent(shape) ==> (shape.inner matches Some(c) ==> c < bound)
}

/// The shapes mention each other alone.
pub open spec fn all_within(g: Seq<Shape>) -> bool {
    forall|i: int| 0 <= i < g.len() ==> is_within(#[trigger] g[i], g.len() as int)
}

/// Whether the ranks go down along everything that has to come first.
pub open spec fn ranks(g: Seq<Shape>, rank: spec_fn(int) -> nat) -> bool {
    forall|i: int, t: usize|
        #![trigger leads_to(g[i], t)]
        0 <= i < g.len() && t < g.len() && leads_to(g[i], t) ==> rank(t as int) < rank(i)
}

/// Shapes that can be put in the order of a table: no chain of those that have to come first
/// leads back to its beginning.
pub open spec fn can_be_ordered(g: Seq<Shape>) -> bool {
    exists|rank: spec_fn(int) -> nat| ranks(g, rank)
}

/// A shape of a table is well formed if it is within the table and what has to come first does.
proof fn lemma_shape_wf(g: Seq<Shape>, i: int)
    requires
        0 <= i < g.len(),
        is_within(g[i], g.len() as int),
        forall|t: usize| #[trigger] leads_to(g[i], t) ==> t < i,
    ensures
        shape::shape_wf(g, i),
{
    let shape = g[i];
    if shape::is_transparent(shape) {
        if let Some(c) = shape.inner {
            assert(leads_to(shape, c));
        }
    }
    if shape.def is Option || !shape::is_container(shape) {
        match shape.def {
            Def::MapOf { key, value } => {
                assert(leads_to(shape, key));
                assert(leads_to(shape, value));
            },
            Def::SetOf(u) => {
                assert(leads_to(shape, u));
            },
            Def::List(u) => {
                assert(leads_to(shape, u));
            },
            Def::Array { item, size } => {
                assert(leads_to(shape, item));
            },
            Def::Slice(u) => {
                assert(leads_to(shape, u));
            },
            Def::Option(u) => {
                assert(leads_to(shape, u));
            },
            Def::Pointer(Some(u)) => {
                assert(leads_to(shape, u));
            },
            _ => {},
        }
    }
    if !shape::is_container(shape) {
        match shape.ty {
            Type::Sequence(SequenceType::Slice(u)) => {
                assert(leads_to(shape, u));
            },
            Type::Sequence(SequenceType::Array(u)) => {
                assert(leads_to(shape, u));
            },
            Type::Pointer(PointerType::Reference(u)) => {
                assert(leads_to(shape, u));
            },
            Type::Pointer(PointerType::Raw(u)) => {
                assert(leads_to(shape, u));
            },
            Type::User(UserType::Struct(st)) => {
                assert forall|k: int| 0 <= k < st.fields@.len() implies (
                #[trigger] st.fields@[k]).shape < i by {
                    assert(leads_to(shape, st.fields@[k].shape));
                }
            },
            _ => {},
        }
    }
}

// Relabelling

/// The index `t` after relabelling.
pub open spec fn moved(place: Seq<usize>, t: usize) -> usize {
    place[t as int]
}

pub open spec fn def_relabelled(def: Def, place: Seq<usize>) -> Def {
    match def {
        Def::MapOf { key, value } => Def::MapOf {
            key: moved(place, key),
            value: moved(place, value),
        },
        Def::SetOf(t) => Def::SetOf(moved(place, t)),
        Def::List(t) => Def::List(moved(place, t)),
        Def::Array { item, size } => Def::Array { item: moved(place, item), size },
        Def::Slice(t) => Def::Slice(moved(place, t)),
        Def::Option(t) => Def::Option(moved(place, t)),
        Def::Pointer(Some(t)) => Def::Pointer(Some(moved(place, t))),
        other => other,
    }
}

/// `after` are the fields `before`, with their shapes relabelled.
pub open spec fn fields_relabelled(
    before: Seq<Field>,
    after: Seq<Field>,
    place: Seq<usize>,
) -> bool {
    &&& after.len() == before.len()
    &&& forall|k: int|
        0 <= k < before.len() ==> #[trigger] after[k] == (Field {
            shape: moved(place, before[k].shape),
            ..before[k]
        })
}

/// `after` is the variant `before`, with the shapes of its fields relabelled.
pub open spec fn variant_relabelled(before: Variant, after: Variant, place: Seq<usize>) -> bool {
    &&& after == (Variant { fields: after.fields, ..before })
    &&& fields_relabelled(before.fields@, after.fields@, place)
}

/// `after` is the type `before`, with the shapes it mentions relabelled.
pub open spec fn type_relabelled(before: Type, after: Type, place: Seq<usize>) -> bool {
    match (before, after) {
        (
            Type::Sequence(SequenceType::Slice(t)),
            Type::Sequence(SequenceType::Slice(u)),
        ) => u == moved(place, t),
        (
            Type::Sequence(SequenceType::Array(t)),
            Type::Sequence(SequenceType::Array(u)),
        ) => u == moved(place, t),
        (
            Type::Pointer(PointerType::Reference(t)),
            Type::Pointer(PointerType::Reference(u)),
        ) => u == moved(place, t),
        (
            Type::Pointer(PointerType::Raw(t)),
            Type::Pointer(PointerType::Raw(u)),
        ) => u == moved(place, t),
        (Type::User(UserType::Struct(a)), Type::User(UserType::Struct(b))) => {
            &&& b.kind == a.kind
            &&& fields_relabelled(a.fields@, b.fields@, place)
        },
        (Type::User(UserType::Enum(a)), Type::User(UserType::Enum(b))) => {
            &&& b.variants@.len() == a.variants@.len()
            &&& forall|v: int|
                0 <= v < a.variants@.len() ==> variant_relabelled(
                    #[trigger] a.variants@[v],
                    b.variants@[v],
                    place,
                )
        },
        (Type::User(UserType::Union), Type::User(UserType::Union)) => true,
        (Type::User(UserType::Opaque), Type::User(UserType::Opaque)) => true,
        (Type::Undefined, Type::Undefined) => true,
        (Type::Primitive(a), Type::Primitive(b)) => a == b,
        (Type::Pointer(PointerType::Function), Type::Pointer(PointerType::Function)) => true,
        _ => false,
    }
}

/// The index of the shape behind `shape` after relabelling, if `shape` is a transparent wrapper.
/// That of any other shape is left as it is, as nothing follows it.
pub open spec fn inner_relabelled(shape: Shape, place: Seq<usize>) -> Option<usize> {
    match shape.inner {
        Some(c) => if shape::is_transparent(shape) {
            Some(moved(place, c))
        } else {
            Some(c)
        },
        None => None,
    }
}

/// `after` is the shape `before`, with the shapes it mentions relabelled.
pub open spec fn shape_relabelled(before: Shape, after: Shape, place: Seq<usize>) -> bool {
    &&& after == (Shape { ty: after.ty, def: after.def, inner: after.inner, ..before })
    &&& type_relabelled(before.ty, after.ty, place)
    &&& after.def == def_relabelled(before.def, place)
    &&& after.inner == inner_relabelled(before, place)
}

fn relabel_fields(fields: &mut Vec<Field>, place: &Vec<usize>)
    requires
        shape::fields_below(old(fields)@, place@.len() as int),
    ensures
        fields_relabelled(old(fields)@, final(fields)@, place@),
{
    let count = fields.len();
    let ghost before = fields@;
    for k in 0..count
        invariant
            count == before.len(),
            fields@.len() == before.len(),
            shape::fields_below(before, place@.len() as int),
            forall|j: int|
                0 <= j < k ==> #[trigger] fields@[j] == (Field {
                    shape: moved(place@, before[j].shape),
                    ..before[j]
                }),
            forall|j: int| k <= j < before.len() ==> #[trigger] fields@[j] == before[j],
    {
        let t = fields[k].shape;
        assert(before[k as int].shape == t);
        fields[k].shape = place[t];
    }
}

fn relabel_variants(variants: &mut Vec<Variant>, place: &Vec<usize>)
    requires
        forall|v: int|
            0 <= v < old(variants)@.len() ==> shape::fields_below(
                (#[trigger] old(variants)@[v]).fields@,
                place@.len() as int,
            ),
    ensures
        final(variants)@.len() == old(variants)@.len(),
        forall|v: int|
            0 <= v < old(variants)@.len() ==> variant_relabelled(
                #[trigger] old(variants)@[v],
                final(variants)@[v],
                place@,
            ),
{
    let count = variants.len();
    let ghost before = variants@;
    for v in 0..count
        invariant
            count == before.len(),
            variants@.len() == before.len(),
            forall|w: int|
                0 <= w < before.len() ==> shape::fields_below(
                    (#[trigger] before[w]).fields@,
                    place@.len() as int,
                ),
            forall|w: int|
                0 <= w < v ==> variant_relabelled(
                    #[trigger] before[w],
                    variants@[w],
                    place@,
                ),
            forall|w: int| v <= w < before.len() ==> #[trigger] variants@[w] == before[w],
    {
        assert(variants@[v as int] == before[v as int]);
        relabel_fields(&mut variants[v].fields, place);
    }
}

fn relabel_type(ty: &mut Type, place: &Vec<usize>)
    requires
        shape::structure_below(*old(ty), place@.len() as int),
        shape::variants_below(*old(ty), place@.len() as int),
    ensures
        type_relabelled(*old(ty), *final(ty), place@),
{
    match ty {
        Type::Sequence(SequenceType::Slice(t)) => {
            *t = place[*t];
        },
        Type::Sequence(SequenceType::Array(t)) => {
            *t = place[*t];
        },
        Type::Pointer(PointerType::Reference(t)) => {
            *t = place[*t];
        },
        Type::Pointer(PointerType::Raw(t)) => {
            *t = place[*t];
        },
        Type::User(UserType::Struct(st)) => {
            relabel_fields(&mut st.fields, place);
        },
        Type::User(UserType::Enum(et)) => {
            relabel_variants(&mut et.variants, place);
        },
        _ => {},
    }
}

fn relabel_def(def: Def, place: &Vec<usize>) -> (r: Def)
    requires
        shape::def_below(def, place@.len() as int),
    ensures
        r == def_relabelled(def, place@),
{
    match def {
        Def::MapOf { key, value } => Def::MapOf { key: place[key], value: place[value] },
        Def::SetOf(t) => Def::SetOf(place[t]),
        Def::List(t) => Def::List(place[t]),
        Def::Array { item, size } => Def::Array { item: place[item], size },
        Def::Slice(t) => Def::Slice(place[t]),
        Def::Option(t) => Def::Option(place[t]),
        Def::Pointer(Some(t)) => Def::Pointer(Some(place[t])),
        other => other,
    }
}

fn relabel(shape: &mut Shape, place: &Vec<usize>)
    requires
        is_within(*old(shape), place@.len() as int),
    ensures
        shape_relabelled(*old(shape), *final(shape), place@),
{
    if shape::is_transparent_shape(shape) {
        if let Some(c) = shape.inner {
            shape.inner = Some(place[c]);
        }
    }
    shape.def = relabel_def(shape.def, place);
    relabel_type(&mut shape.ty, place);
}

// The order

/// Whether everything that has to come before `shape` has its place.
pub open spec fn is_ready(shape: Shape, placed: Seq<bool>) -> bool {
    forall|t: usize| #[trigger] leads_to(shape, t) ==> placed[t as int]
}

fn def_ready(def: &Def, placed: &Vec<bool>) -> (r: bool)
    requires
        shape::def_below(*def, placed@.len() as int),
    ensures
        r == forall|t: usize| #[trigger] def_mentions(*def, t) ==> placed@[t as int],
{
    let r = match def {
        Def::MapOf { key, value } => placed[*key] && placed[*value],
        Def::SetOf(t) => placed[*t],
        Def::List(t) => placed[*t],
        Def::Array { item, size: _ } => placed[*item],
        Def::Slice(t) => placed[*t],
        Def::Option(t) => placed[*t],
        Def::Pointer(Some(t)) => placed[*t],
        _ => true,
    };
    proof {
        match *def {
            Def::MapOf { key, value } => {
                assert(def_mentions(*def, key) && def_mentions(*def, value));
            },
            Def::SetOf(t) => {
                assert(def_mentions(*def, t));
            },
            Def::List(t) => {
                assert(def_mentions(*def, t));
            },
            Def::Array { item, size } => {
                assert(def_mentions(*def, item));
            },
            Def::Slice(t) => {
                assert(def_mentions(*def, t));
            },
            Def::Option(t) => {
                assert(def_mentions(*def, t));
            },
            Def::Pointer(Some(t)) => {
                assert(def_mentions(*def, t));
            },
            _ => {},
        }
    }
    r
}

fn fields_ready(fields: &Vec<Field>, placed: &Vec<bool>) -> (r: bool)
    requires
        shape::fields_below(fields@, placed@.len() as int),
    ensures
        r == forall|t: usize| #[trigger] fields_mention(fields@, t) ==> placed@[t as int],
{
    for k in 0..fields.len()
        invariant
            shape::fields_below(fields@, placed@.len() as int),
            forall|j: int| 0 <= j < k ==> placed@[(#[trigger] fields@[j]).shape as int],
    {
        if !placed[fields[k].shape] {
            assert(fields_mention(fields@, fields@[k as int].shape));
            return false;
        }
    }
    true
}

fn structure_ready(ty: &Type, placed: &Vec<bool>) -> (r: bool)
    requires
        shape::structure_below(*ty, placed@.len() as int),
    ensures
        r == forall|t: usize| #[trigger] structure_mentions(*ty, t) ==> placed@[t as int],
{
    let r = match ty {
        Type::Sequence(SequenceType::Slice(t)) => placed[*t],
        Type::Sequence(SequenceType::Array(t)) => placed[*t],
        Type::Pointer(PointerType::Reference(t)) => placed[*t],
        Type::Pointer(PointerType::Raw(t)) => placed[*t],
        Type::User(UserType::Struct(st)) => fields_ready(&st.fields, placed),
        _ => true,
    };
    proof {
        match ty {
            Type::Sequence(SequenceType::Slice(t)) => {
                assert(structure_mentions(*ty, *t));
            },
            Type::Sequence(SequenceType::Array(t)) => {
                assert(structure_mentions(*ty, *t));
            },
            Type::Pointer(PointerType::Reference(t)) => {
                assert(structure_mentions(*ty, *t));
            },
            Type::Pointer(PointerType::Raw(t)) => {
                assert(structure_mentions(*ty, *t));
            },
            Type::User(UserType::Struct(st)) => {
                assert(forall|t: usize| #[trigger]
                    fields_mention(st.fields@, t) == structure_mentions(*ty, t));
                assert(forall|t: usize|
                    fields_mention(st.fields@, t) == #[trigger] structure_mentions(*ty, t));
            },
            _ => {},
        }
    }
    r
}

fn shape_ready(shape: &Shape, placed: &Vec<bool>) -> (r: bool)
    requires
        is_within(*shape, placed@.len() as int),
    ensures
        r == is_ready(*shape, placed@),
{
    let is_option = match shape.def {
        Def::Option(_) => true,
        _ => false,
    };
    if shape::is_transparent_shape(shape) {
        if let Some(c) = shape.inner {
            if !placed[c] {
                assert(leads_to(*shape, c));
                return false;
            }
        }
    }
    let is_container = shape::is_container_shape(shape);
    if (is_option || !is_container) && !def_ready(&shape.def, placed) {
        proof {
            let t = choose|t: usize| #[trigger] def_mentions(shape.def, t) && !placed@[t as int];
            assert(leads_to(*shape, t));
        }
        return false;
    }
    if !is_container && !structure_ready(&shape.ty, placed) {
        proof {
            let t = choose|t: usize| #[trigger]
                structure_mentions(shape.ty, t) && !placed@[t as int];
            assert(leads_to(*shape, t));
        }
        return false;
    }
    true
}

/// How many of the first `n` have no place yet.
pub open spec fn waiting(placed: Seq<bool>, n: int) -> nat
    decreases n,
{
    if n <= 0 {
        0
    } else if placed[n - 1] {
        waiting(placed, n - 1)
    } else {
        waiting(placed, n - 1) + 1
    }
}

proof fn lemma_waiting_update(placed: Seq<bool>, n: int, i: int)
    requires
        0 <= i < n <= placed.len(),
        !placed[i],
    ensures
        waiting(placed, n) == waiting(placed.update(i, true), n) + 1,
    decreases n,
{
    if i < n - 1 {
        lemma_waiting_update(placed, n - 1, i);
    } else {
        lemma_waiting_same(placed, placed.update(i, true), n - 1);
    }
}

proof fn lemma_waiting_same(a: Seq<bool>, b: Seq<bool>, n: int)
    requires
        forall|i: int| 0 <= i < n ==> a[i] == b[i],
    ensures
        waiting(a, n) == waiting(b, n),
    decreases n,
{
    if n > 0 {
        lemma_waiting_same(a, b, n - 1);
    }
}

/// If the shapes can be ordered and none that waits is ready, none waits.
proof fn lemma_none_waits(
    g: Seq<Shape>,
    placed: Seq<bool>,
    rank: spec_fn(int) -> nat,
    i: int,
)
    requires
        ranks(g, rank),
        all_within(g),
        placed.len() == g.len(),
        0 <= i < g.len(),
        forall|j: int| 0 <= j < g.len() && !placed[j] ==> !is_ready(#[trigger] g[j], placed),
    ensures
        placed[i],
    decreases rank(i),
{
    if !placed[i] {
        assert(!is_ready(g[i], placed));
        let t = choose|t: usize| #[trigger] leads_to(g[i], t) && !placed[t as int];
        lemma_leads_within(g[i], t, g.len() as int);
        lemma_none_waits(g, placed, rank, t as int);
    }
}

/// What has to come first is within the shapes.
proof fn lemma_leads_within(shape: Shape, t: usize, bound: int)
    requires
        is_within(shape, bound),
        leads_to(shape, t),
    ensures
        t < bound,
{
}

/// The state of the search for an order: `order` lists the shapes that have their places, each
/// after what has to come before it.
pub open spec fn is_order(
    g: Seq<Shape>,
    placed: Seq<bool>,
    place: Seq<usize>,
    order: Seq<usize>,
) -> bool {
    &&& placed.len() == g.len()
    &&& place.len() == g.len()
    &&& forall|i: int|
        0 <= i < g.len() && #[trigger] placed[i] ==> place[i] < order.len() && order[place[i] as int]
            == i
    &&& forall|p: int|
        0 <= p < order.len() ==> {
            &&& (#[trigger] order[p]) < g.len()
            &&& placed[order[p] as int]
            &&& place[order[p] as int] == p
        }
    &&& forall|i: int, t: usize|
        #![trigger leads_to(g[i], t)]
        0 <= i < g.len() && placed[i] && leads_to(g[i], t) ==> placed[t as int] && place[t as int]
            < place[i]
}

/// `order` lists all the shapes, each after what has to come before it, and `place` says where.
pub open spec fn is_full_order(g: Seq<Shape>, place: Seq<usize>, order: Seq<usize>) -> bool {
    &&& place.len() == g.len()
    &&& forall|i: int|
        0 <= i < g.len() ==> (#[trigger] place[i]) < order.len() && order[place[i] as int] == i
    &&& forall|p: int|
        0 <= p < order.len() ==> (#[trigger] order[p]) < g.len() && place[order[p] as int] == p
    &&& forall|i: int, t: usize|
        #![trigger leads_to(g[i], t)]
        0 <= i < g.len() && leads_to(g[i], t) ==> place[t as int] < place[i]
}

proof fn lemma_full_order(
    g: Seq<Shape>,
    placed: Seq<bool>,
    place: Seq<usize>,
    order: Seq<usize>,
)
    requires
        is_order(g, placed, place, order),
        forall|i: int| 0 <= i < g.len() ==> placed[i],
    ensures
        is_full_order(g, place, order),
{
    assert forall|i: int| 0 <= i < g.len() implies (#[trigger] place[i]) < order.len()
        && order[place[i] as int] == i by {
        assert(placed[i]);
    }
}

fn find_order(shapes: &Vec<Shape>) -> (r: Option<(Vec<usize>, Vec<usize>)>)
    requires
        all_within(shapes@),
    ensures
        match r {
            Some((place, order)) => is_full_order(shapes@, place@, order@),
            None => !can_be_ordered(shapes@),
        },
{
    let count = shapes.len();
    let mut placed: Vec<bool> = Vec::new();
    let mut place: Vec<usize> = Vec::new();
    for i in 0..count
        invariant
            placed@.len() == i,
            place@.len() == i,
            forall|j: int| 0 <= j < i ==> !placed@[j],
    {
        placed.push(false);
        place.push(0);
    }
    let mut order: Vec<usize> = Vec::new();
    loop
        invariant
            count == shapes@.len(),
            all_within(shapes@),
            is_order(shapes@, placed@, place@, order@),
        decreases waiting(placed@, count as int),
    {
        let ghost before = placed@;
        let mut progress = false;
        let mut waits = false;
        for i in 0..count
            invariant
                count == shapes@.len(),
                all_within(shapes@),
                is_order(shapes@, placed@, place@, order@),
                progress ==> waiting(placed@, count as int) < waiting(before, count as int),
                !progress ==> placed@ == before,
                !progress ==> forall|j: int|
                    0 <= j < i && !placed@[j] ==> !is_ready(#[trigger] shapes@[j], placed@),
                !progress && !waits ==> forall|j: int| 0 <= j < i ==> placed@[j],
                waits && !progress ==> exists|j: int| 0 <= j < i && !(#[trigger] placed@[j]),
        {
            if !placed[i] {
                if shape_ready(&shapes[i], &placed) {
                    let ghost (old_placed, old_place, old_order) = (placed@, place@, order@);
                    proof {
                        lemma_waiting_update(placed@, count as int, i as int);
                    }
                    place[i] = order.len();
                    placed[i] = true;
                    order.push(i);
                    progress = true;
                    proof {
                        lemma_placed(
                            shapes@,
                            old_placed,
                            old_place,
                            old_order,
                            i,
                            place@[i as int],
                        );
                        assert(placed@ =~= old_placed.update(i as int, true));
                        assert(place@ =~= old_place.update(i as int, place@[i as int]));
                    }
                } else {
                    waits = true;
                }
            }
        }
        if !progress {
            if waits {
                proof {
                    if can_be_ordered(shapes@) {
                        let rank = choose|rank: spec_fn(int) -> nat| ranks(shapes@, rank);
                        let i = choose|j: int| 0 <= j < count && !(#[trigger] placed@[j]);
                        lemma_none_waits(shapes@, placed@, rank, i);
                    }
                }
                return None;
            }
            proof {
                lemma_full_order(shapes@, placed@, place@, order@);
            }
            return Some((place, order));
        }
    }
}

/// A shape that is ready gets the next place.
proof fn lemma_placed(
    g: Seq<Shape>,
    placed: Seq<bool>,
    place: Seq<usize>,
    order: Seq<usize>,
    i: usize,
    at: usize,
)
    requires
        is_order(g, placed, place, order),
        i < g.len(),
        !placed[i as int],
        is_ready(g[i as int], placed),
        at == order.len(),
        all_within(g),
    ensures
        is_order(g, placed.update(i as int, true), place.update(i as int, at), order.push(i)),
{
    let placed2 = placed.update(i as int, true);
    let place2 = place.update(i as int, at);
    let order2 = order.push(i);
    assert forall|j: int, t: usize|
        #![trigger leads_to(g[j], t)]
        0 <= j < g.len() && placed2[j] && leads_to(g[j], t) implies placed2[t as int]
        && place2[t as int] < place2[j] by {
        lemma_leads_within(g[j], t, g.len() as int);
        assert(placed[t as int]);
    }
}

fn test_within(shapes: &Vec<Shape>) -> (r: bool)
    ensures
        r == all_within(shapes@),
{
    let count = shapes.len();
    for i in 0..count
        invariant
            count == shapes@.len(),
            forall|j: int| 0 <= j < i ==> is_within(#[trigger] shapes@[j], count as int),
    {
        let shape = &shapes[i];
        let inner_within = match shape.inner {
            Some(c) => c < count,
            None => true,
        };
        if !(shape::test_def_below(&shape.def, count) && shape::test_structure_below(
            &shape.ty,
            count,
        ) && shape::test_variants_below(&shape.ty, count) && (!shape::is_transparent_shape(shape)
            || inner_within)) {
            assert(!is_within(shapes@[i as int], count as int));
            return false;
        }
    }
    true
}

/// A relabelled shape is well formed at its place in the order.
proof fn lemma_relabelled_wf(
    g: Seq<Shape>,
    h: Seq<Shape>,
    place: Seq<usize>,
    order: Seq<usize>,
    i: int,
)
    requires
        all_within(g),
        is_full_order(g, place, order),
        h.len() == order.len(),
        0 <= i < g.len(),
        shape_relabelled(g[i], h[place[i] as int], place),
    ensures
        shape::shape_wf(h, place[i] as int),
{
    let before = g[i];
    let after = h[place[i] as int];
    let bound = h.len() as int;
    assert(is_within(before, g.len() as int));
    assert(is_within(after, bound)) by {
        match (before.ty, after.ty) {
            (Type::User(UserType::Enum(a)), Type::User(UserType::Enum(b))) => {
                assert forall|v: int| 0 <= v < b.variants@.len() implies shape::fields_below(
                    (#[trigger] b.variants@[v]).fields@,
                    bound,
                ) by {
                    assert(variant_relabelled(a.variants@[v], b.variants@[v], place));
                    assert(shape::fields_below(a.variants@[v].fields@, g.len() as int));
                }
            },
            _ => {},
        }
    }
    assert forall|u: usize| #[trigger] leads_to(after, u) implies u < place[i] by {
        lemma_leads_back(before, after, place, u);
        let t = choose|t: usize| #[trigger] leads_to(before, t) && moved(place, t) == u;
        assert(leads_to(g[i], t));
    }
    lemma_shape_wf(h, place[i] as int);
}

/// What has to come before a relabelled shape is what had to come before it, relabelled.
proof fn lemma_leads_back(before: Shape, after: Shape, place: Seq<usize>, u: usize)
    requires
        shape_relabelled(before, after, place),
        leads_to(after, u),
    ensures
        exists|t: usize| #[trigger] leads_to(before, t) && moved(place, t) == u,
{
    assert(shape::is_transparent(after) == shape::is_transparent(before));
    assert(shape::is_container(after) == shape::is_container(before));
    if shape::is_transparent(after) && after.inner == Some(u) {
        assert(leads_to(before, before.inner->0));
    } else if def_mentions(after.def, u) && (after.def is Option || !shape::is_container(after)) {
        match before.def {
            Def::MapOf { key, value } => {
                assert(leads_to(before, key) && leads_to(before, value));
            },
            Def::SetOf(t) => {
                assert(leads_to(before, t));
            },
            Def::List(t) => {
                assert(leads_to(before, t));
            },
            Def::Array { item, size } => {
                assert(leads_to(before, item));
            },
            Def::Slice(t) => {
                assert(leads_to(before, t));
            },
            Def::Option(t) => {
                assert(leads_to(before, t));
            },
            Def::Pointer(Some(t)) => {
                assert(leads_to(before, t));
            },
            _ => {},
        }
    } else {
        match (before.ty, after.ty) {
            (Type::Sequence(SequenceType::Slice(t)), _) => {
                assert(leads_to(before, t));
            },
            (Type::Sequence(SequenceType::Array(t)), _) => {
                assert(leads_to(before, t));
            },
            (Type::Pointer(PointerType::Reference(t)), _) => {
                assert(leads_to(before, t));
            },
            (Type::Pointer(PointerType::Raw(t)), _) => {
                assert(leads_to(before, t));
            },
            (Type::User(UserType::Struct(a)), Type::User(UserType::Struct(b))) => {
                let k = choose|k: int|
                    0 <= k < b.fields@.len() && (#[trigger] b.fields@[k]).shape == u;
                assert(a.fields@[k].shape == a.fields@[k].shape);
                assert(fields_mention(a.fields@, a.fields@[k].shape));
                assert(leads_to(before, a.fields@[k].shape));
            },
            _ => {},
        }
    }
}

/// Numbers below `n` that all differ are no more than `n`.
proof fn lemma_below(numbers: Seq<usize>, n: int)
    requires
        0 <= n,
        numbers.no_duplicates(),
        forall|k: int| 0 <= k < numbers.len() ==> (#[trigger] numbers[k]) < n,
    ensures
        numbers.len() <= n,
    decreases n,
{
    if n == 0 {
        if numbers.len() > 0 {
            assert(numbers[0] < 0);
        }
    } else if exists|k: int| 0 <= k < numbers.len() && numbers[k] == n - 1 {
        let k = choose|k: int| 0 <= k < numbers.len() && numbers[k] == n - 1;
        let rest = numbers.remove(k);
        assert forall|m: int| 0 <= m < rest.len() implies (#[trigger] rest[m]) < n - 1 by {
            assert(rest[m] == numbers[if m < k {
                m
            } else {
                m + 1
            }]);
        }
        lemma_below(rest, n - 1);
    } else {
        lemma_below(numbers, n - 1);
    }
}

/// A full order lists every shape once.
proof fn lemma_same_length(g: Seq<Shape>, place: Seq<usize>, order: Seq<usize>)
    requires
        is_full_order(g, place, order),
    ensures
        order.len() == g.len(),
{
    assert forall|i: int, j: int|
        0 <= i < place.len() && 0 <= j < place.len() && i != j implies place[i] != place[j] by {
        assert(order[place[i] as int] == i && order[place[j] as int] == j);
    }
    assert forall|p: int, q: int|
        0 <= p < order.len() && 0 <= q < order.len() && p != q implies order[p] != order[q] by {
        assert(place[order[p] as int] == p && place[order[q] as int] == q);
    }
    lemma_below(place, order.len() as int);
    lemma_below(order, g.len() as int);
}

/// The table of `shapes`, which may refer to each other in any order, and the index that each
/// of them has in the table. There is none if one of them mentions a shape that is not there, or
/// has more variants than can be numbered, if two of them are of one type, or if a chain of shapes
/// that are followed without naming a container leads back to its beginning.
pub fn arrange(shapes: Vec<Shape>) -> (r: Option<(TypeTable, Vec<usize>)>)
    ensures
        match r {
            Some((table, place)) => {
                &&& table.wf()
                &&& table@.len() == shapes@.len()
                &&& place@.len() == shapes@.len()
                &&& place@.no_duplicates()
                &&& forall|i: int|
                    0 <= i < shapes@.len() ==> {
                        &&& (#[trigger] place@[i]) < table@.len()
                        &&& shape_relabelled(shapes@[i], table@[place@[i] as int], place@)
                    }
            },
            None => !all_within(shapes@) || !can_be_ordered(shapes@) || !shape::ids_differ(
                shapes@,
            ),
        },
{
    if !test_within(&shapes) || !shape::test_ids_differ(&shapes) {
        return None;
    }
    let (place, order) = match find_order(&shapes) {
        Some(found) => found,
        None => {
            return None;
        },
    };
    let ghost g = shapes@;
    let count = shapes.len();
    let mut rest = shapes;
    let mut slots: Vec<Option<Shape>> = Vec::new();
    // The last shape comes first.
    for n in 0..count
        invariant
            count == g.len(),
            rest@ == g.take(count - n),
            slots@.len() == n,
            forall|k: int|
                0 <= k < slots@.len() ==> #[trigger] slots@[k] == Some(g[count - 1 - k]),
    {
        slots.push(rest.pop());
        assert(rest@ =~= g.take(count - n - 1));
    }
    let mut sorted: Vec<Shape> = Vec::new();
    for p in 0..order.len()
        invariant
            count == g.len(),
            slots@.len() == count,
            sorted@.len() == p,
            all_within(g),
            is_full_order(g, place@, order@),
            forall|i: int|
                0 <= i < count && place@[i] >= p ==> #[trigger] slots@[count - 1 - i] == Some(
                    g[i],
                ),
            forall|q: int|
                0 <= q < p ==> shape_relabelled(
                    g[order@[q] as int],
                    #[trigger] sorted@[q],
                    place@,
                ),
    {
        let i = order[p];
        if let Some(mut shape) = slots[count - 1 - i].take() {
            relabel(&mut shape, &place);
            sorted.push(shape);
        }
    }
    assert forall|i: int| 0 <= i < g.len() implies shape_relabelled(
        g[i],
        #[trigger] sorted@[place@[i] as int],
        place@,
    ) by {
        assert(order@[place@[i] as int] == i);
    }
    assert forall|p: int| 0 <= p < sorted@.len() implies #[trigger] shape::shape_wf(
        sorted@,
        p,
    ) by {
        let i = order@[p] as int;
        assert(place@[i] == p);
        lemma_relabelled_wf(g, sorted@, place@, order@, i);
    }
    proof {
        lemma_same_length(g, place@, order@);
        assert forall|p: int, q: int|
            #![trigger sorted@[p], sorted@[q]]
            0 <= p < sorted@.len() && 0 <= q < sorted@.len() && sorted@[p].id == sorted@[q].id
            implies p == q by {
            let i = order@[p] as int;
            let j = order@[q] as int;
            assert(place@[i] == p && place@[j] == q);
            assert(g[i].id == sorted@[p].id && g[j].id == sorted@[q].id);
        }
        assert(place@.no_duplicates()) by {
            assert forall|i: int, j: int|
                0 <= i < place@.len() && 0 <= j < place@.len() && i != j implies place@[i]
                != place@[j] by {
                assert(order@[place@[i] as int] == i && order@[place@[j] as int] == j);
            }
        }
    }
    match TypeTable::new(sorted) {
        Some(table) => Some((table, place)),
        None => None,
    }
}

} // verus!
