//! The names that a table of shapes can give: finitely many.

use vstd::prelude::*;

use crate::names::{NameView, SpaceView};
use crate::namespace;
use crate::namespace::ActionView;
use crate::naming;
use crate::shape::{Attr, Field, Shape, Type, UserType, Variant};

verus! {

/// The namespace that an action sets; the root if it sets none.
pub open spec fn action_space(action: ActionView) -> SpaceView {
    match action {
        ActionView::SetContext(context) => context.namespace,
        ActionView::Inherit => SpaceView::Root,
    }
}

/// The namespace that attributes set; the root if they set none.
pub open spec fn attributes_space(attributes: Seq<Attr>) -> SpaceView {
    match namespace::namespace_action(attributes) {
        Ok(action) => action_space(action),
        Err(_) => SpaceView::Root,
    }
}

/// The namespaces that the attributes of the first `n` of `fields` set.
pub open spec fn field_spaces(fields: Seq<Field>, n: int) -> Set<SpaceView>
    decreases n,
{
    if n <= 0 {
        Set::empty()
    } else {
        field_spaces(fields, n - 1).insert(attributes_space(fields[n - 1].attributes@))
    }
}

/// The namespaces that the attributes of the fields of the first `n` of `variants` set.
pub open spec fn variant_spaces(variants: Seq<Variant>, n: int) -> Set<SpaceView>
    decreases n,
{
    if n <= 0 {
        Set::empty()
    } else {
        variant_spaces(variants, n - 1).union(
            field_spaces(variants[n - 1].fields@, variants[n - 1].fields@.len() as int),
        )
    }
}

/// The namespaces that the attributes of the fields of a type set.
pub open spec fn inner_spaces(ty: Type) -> Set<SpaceView> {
    match ty {
        Type::User(UserType::Struct(st)) => field_spaces(st.fields@, st.fields@.len() as int),
        Type::User(UserType::Enum(et)) => variant_spaces(
            et.variants@,
            et.variants@.len() as int,
        ),
        _ => Set::empty(),
    }
}

/// The namespaces that the attributes of the first `n` shapes and of their fields set.
pub open spec fn spaces_of(g: Seq<Shape>, n: int) -> Set<SpaceView>
    decreases n,
{
    if n <= 0 {
        set![SpaceView::Root]
    } else {
        spaces_of(g, n - 1).insert(attributes_space(g[n - 1].attributes@)).union(
            inner_spaces(g[n - 1].ty),
        )
    }
}

/// The namespaces that a walk over the table can enter.
pub open spec fn spaces(g: Seq<Shape>) -> Set<SpaceView> {
    spaces_of(g, g.len() as int)
}

/// The name of the shape at `i` before any namespace.
pub open spec fn base(g: Seq<Shape>, i: int) -> Seq<char> {
    match naming::own_name(g, i) {
        Ok(name) => name.name,
        Err(_) => Seq::empty(),
    }
}

/// `name` in each of the namespaces of `spaces`.
pub open spec fn in_spaces(spaces: Set<SpaceView>, name: Seq<char>) -> Set<NameView> {
    spaces.map(|space: SpaceView| NameView { namespace: space, name })
}

/// The names of the first `n` shapes in each of the namespaces of the table.
pub open spec fn names_of(g: Seq<Shape>, n: int) -> Set<NameView>
    decreases n,
{
    if n <= 0 {
        Set::empty()
    } else {
        names_of(g, n - 1).union(in_spaces(spaces(g), base(g, n - 1)))
    }
}

/// The names that a walk over the table can take.
pub open spec fn candidates(g: Seq<Shape>) -> Set<NameView> {
    names_of(g, g.len() as int)
}

proof fn lemma_field_spaces(fields: Seq<Field>, n: int)
    requires
        n <= fields.len(),
    ensures
        field_spaces(fields, n).finite(),
        forall|k: int|
            0 <= k < n ==> field_spaces(fields, n).contains(
                attributes_space((#[trigger] fields[k]).attributes@),
            ),
    decreases n,
{
    if n > 0 {
        lemma_field_spaces(fields, n - 1);
    }
}

proof fn lemma_variant_spaces(variants: Seq<Variant>, n: int)
    requires
        n <= variants.len(),
    ensures
        variant_spaces(variants, n).finite(),
        forall|v: int, k: int|
            0 <= v < n && 0 <= k < variants[v].fields@.len() ==> variant_spaces(
                variants,
                n,
            ).contains(attributes_space((#[trigger] variants[v].fields@[k]).attributes@)),
    decreases n,
{
    if n > 0 {
        lemma_variant_spaces(variants, n - 1);
        lemma_field_spaces(variants[n - 1].fields@, variants[n - 1].fields@.len() as int);
    }
}

proof fn lemma_inner_spaces(ty: Type)
    ensures
        inner_spaces(ty).finite(),
{
    match ty {
        Type::User(UserType::Struct(st)) => {
            lemma_field_spaces(st.fields@, st.fields@.len() as int);
        },
        Type::User(UserType::Enum(et)) => {
            lemma_variant_spaces(et.variants@, et.variants@.len() as int);
        },
        _ => {},
    }
}

proof fn lemma_spaces_of(g: Seq<Shape>, n: int)
    requires
        n <= g.len(),
    ensures
        spaces_of(g, n).finite(),
        spaces_of(g, n).contains(SpaceView::Root),
        forall|i: int|
            0 <= i < n ==> {
                &&& spaces_of(g, n).contains(attributes_space((#[trigger] g[i]).attributes@))
                &&& inner_spaces(g[i].ty).subset_of(spaces_of(g, n))
            },
    decreases n,
{
    if n > 0 {
        lemma_spaces_of(g, n - 1);
        lemma_inner_spaces(g[n - 1].ty);
    }
}

/// The namespaces that a walk can enter are finitely many, the root among them.
pub proof fn lemma_spaces(g: Seq<Shape>)
    ensures
        spaces(g).finite(),
        spaces(g).contains(SpaceView::Root),
{
    lemma_spaces_of(g, g.len() as int);
}

/// The namespace that the attributes of a shape set is one that a walk can enter.
pub proof fn lemma_shape_space(g: Seq<Shape>, i: int)
    requires
        0 <= i < g.len(),
    ensures
        spaces(g).contains(attributes_space(g[i].attributes@)),
{
    lemma_spaces_of(g, g.len() as int);
}

/// What is known of a field of the table.
pub open spec fn field_within(g: Seq<Shape>, field: Field) -> bool {
    spaces(g).contains(attributes_space(field.attributes@))
}

/// What is known of the fields of a type of the table.
pub open spec fn fields_within(g: Seq<Shape>, fields: Seq<Field>) -> bool {
    forall|k: int| 0 <= k < fields.len() ==> field_within(g, #[trigger] fields[k])
}

/// The fields of a type of the table.
pub proof fn lemma_fields_within(g: Seq<Shape>, i: int)
    requires
        0 <= i < g.len(),
    ensures
        g[i].ty matches Type::User(UserType::Struct(st)) ==> fields_within(g, st.fields@),
        g[i].ty matches Type::User(UserType::Enum(et)) ==> forall|v: int|
            0 <= v < et.variants@.len() ==> fields_within(g, (#[trigger] et.variants@[v]).fields@),
{
    lemma_spaces_of(g, g.len() as int);
    assert(inner_spaces(g[i].ty).subset_of(spaces(g)));
    match g[i].ty {
        Type::User(UserType::Struct(st)) => {
            let fields = st.fields@;
            lemma_field_spaces(fields, fields.len() as int);
            assert forall|k: int| 0 <= k < fields.len() implies field_within(
                g,
                #[trigger] fields[k],
            ) by {}
        },
        Type::User(UserType::Enum(et)) => {
            lemma_variant_spaces(et.variants@, et.variants@.len() as int);
            assert forall|v: int| 0 <= v < et.variants@.len() implies fields_within(
                g,
                (#[trigger] et.variants@[v]).fields@,
            ) by {
                let fields = et.variants@[v].fields@;
                assert forall|k: int| 0 <= k < fields.len() implies field_within(
                    g,
                    #[trigger] fields[k],
                ) by {
                    assert(variant_spaces(et.variants@, et.variants@.len() as int).contains(
                        attributes_space(et.variants@[v].fields@[k].attributes@),
                    ));
                }
            }
        },
        _ => {},
    }
}

proof fn lemma_in_spaces(spaces: Set<SpaceView>, name: NameView)
    requires
        spaces.finite(),
    ensures
        in_spaces(spaces, name.name).finite(),
        spaces.contains(name.namespace) ==> in_spaces(spaces, name.name).contains(name),
{
    let f = |space: SpaceView| NameView { namespace: space, name: name.name };
    spaces.lemma_map_finite(f);
    if spaces.contains(name.namespace) {
        assert(f(name.namespace) == name);
    }
}

proof fn lemma_names_of(g: Seq<Shape>, n: int)
    requires
        n <= g.len(),
    ensures
        names_of(g, n).finite(),
        forall|i: int, space: SpaceView|
            0 <= i < n && #[trigger] spaces(g).contains(space) ==> names_of(g, n).contains(
                (NameView { namespace: space, name: #[trigger] base(g, i) }),
            ),
    decreases n,
{
    if n > 0 {
        lemma_names_of(g, n - 1);
        lemma_spaces(g);
        let last = base(g, n - 1);
        lemma_in_spaces(spaces(g), NameView { namespace: SpaceView::Root, name: last });
        assert forall|i: int, space: SpaceView|
            0 <= i < n && #[trigger] spaces(g).contains(space) implies names_of(g, n).contains(
            (NameView { namespace: space, name: #[trigger] base(g, i) }),
        ) by {
            if i == n - 1 {
                lemma_in_spaces(spaces(g), NameView { namespace: space, name: last });
            }
        }
    }
}

/// The names that a walk can take are finitely many.
pub proof fn lemma_candidates_finite(g: Seq<Shape>)
    ensures
        candidates(g).finite(),
{
    lemma_names_of(g, g.len() as int);
}

/// The name of a shape in any namespace that a walk can enter is one that it can take.
pub proof fn lemma_candidate(g: Seq<Shape>, i: int, space: SpaceView)
    requires
        0 <= i < g.len(),
        spaces(g).contains(space),
    ensures
        candidates(g).contains((NameView { namespace: space, name: base(g, i) })),
{
    lemma_names_of(g, g.len() as int);
}

/// The namespace of a shape's own name is one that a walk can enter.
pub proof fn lemma_own_space(g: Seq<Shape>, i: int)
    requires
        0 <= i < g.len(),
    ensures
        naming::own_name(g, i) matches Ok(name) ==> spaces(g).contains(name.namespace),
    decreases i,
{
    lemma_spaces(g);
    lemma_shape_space(g, i);
    if let Some(c) = naming::inner_of(g, i) {
        lemma_own_space(g, c);
    }
}

} // verus!
