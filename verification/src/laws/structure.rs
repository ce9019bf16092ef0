//! The format of a type has the structure of the type.

use vstd::prelude::*;

use crate::completion;
use crate::error::ErrorView;
use crate::format::FormatView;
use crate::model;
use crate::model::State;
use crate::names;
use crate::names::{NameView, SpaceView};
use crate::namespace;
use crate::namespace::ActionView;
use crate::naming;
use crate::progress;
use crate::scalar;
use crate::shape;
use crate::shape::{Attr, Def, Field, PointerType, Shape, Type, UserType};
use crate::step::Step;
use crate::walk;
use crate::walk::Wrap;

verus! {

/// The namespace that is in force, if there is one.
pub open spec fn space_of(s: State) -> Option<SpaceView> {
    match model::context(s) {
        Some(context) => Some(context.namespace),
        None => None,
    }
}

/// The namespace that is in force under an annotation, if there is one: that of the annotation, of
/// which the root counts as none, or without one that which was in force before.
pub open spec fn space_under(space: Option<SpaceView>, attributes: Seq<Attr>) -> Option<SpaceView> {
    match namespace::namespace_action(attributes) {
        Ok(ActionView::SetContext(context)) => if context.explicit && context.namespace is Root {
            None
        } else {
            Some(context.namespace)
        },
        _ => space,
    }
}

/// What an annotation puts in force.
pub proof fn law_space_under(s: State, attributes: Seq<Attr>)
    requires
        namespace::namespace_action(attributes) is Ok,
    ensures
        space_of(model::enter(s, namespace::namespace_action(attributes)->Ok_0)) == space_under(
            space_of(s),
            attributes,
        ),
{
}

/// The format refers to the type at `j` by its own name: in the namespace that it is annotated
/// with, or without an annotation in the one in force, or in the root.
pub open spec fn is_reference_to(
    g: Seq<Shape>,
    space: Option<SpaceView>,
    j: int,
    format: FormatView,
) -> bool {
    format matches FormatView::TypeName(name) && (naming::own_name(g, j) matches Ok(own) && own.name
        == name.name && (name.namespace is Root || name.namespace == match (
        namespace::namespace_action(g[j].attributes@),
        space,
    ) {
        (Ok(ActionView::Inherit), Some(named)) => named,
        _ => own.namespace,
    }))
}

/// The format describes the type at `i`: a struct or an enum by a reference to it, a list by a
/// sequence of what describes its items, a map by what describes its keys and what describes its
/// values, and so on.
pub open spec fn describes(
    g: Seq<Shape>,
    space: Option<SpaceView>,
    i: int,
    format: FormatView,
) -> bool
    decreases i, 1int,
{
    let j = naming::generated(g, i);
    let shape = g[j];
    if shape::is_container(shape) {
        is_reference_to(g, space, j, format)
    } else {
        match shape.def {
            Def::Scalar => scalar::scalar_format(shape) == Step::Done(Some(format)),
            Def::Option(t) => format matches FormatView::Option(inner) && t < i && describes(
                g,
                space,
                t as int,
                *inner,
            ),
            Def::List(t) => format matches FormatView::SeqOf(inner) && t < i && describes(
                g,
                space,
                t as int,
                *inner,
            ),
            Def::Slice(t) => format matches FormatView::SeqOf(inner) && t < i && describes(
                g,
                space,
                t as int,
                *inner,
            ),
            Def::SetOf(t) => format matches FormatView::SetOf(inner) && t < i && describes(
                g,
                space,
                t as int,
                *inner,
            ),
            Def::Array { item, size } => format matches FormatView::TupleArray {
                content,
                size: count,
            } && count == size && item < i && describes(g, space, item as int, *content),
            Def::MapOf { key, value } => format matches FormatView::MapOf { key: k, value: v }
                && key < i && value < i && describes(g, space, key as int, *k) && describes(
                g,
                space,
                value as int,
                *v,
            ),
            Def::Pointer(Some(t)) => t < i && describes(g, space, t as int, format),
            Def::Pointer(None) => format is Unit,
            Def::Undefined => match shape.ty {
                Type::User(UserType::Struct(st)) => if st.fields@.len() > 0 {
                    format matches FormatView::Tuple(formats) && describe_all(
                        g,
                        space,
                        st.fields@,
                        formats,
                        i,
                    )
                } else if shape.type_identifier@ == "()"@ {
                    format is Unit
                } else {
                    is_reference_to(g, space, j, format)
                },
                Type::Pointer(PointerType::Reference(t)) => if shape.type_identifier@ == "()"@ {
                    format is Unit
                } else {
                    t < i && describes(g, space, t as int, format)
                },
                Type::Pointer(PointerType::Raw(t)) => if shape.type_identifier@ == "()"@ {
                    format is Unit
                } else {
                    t < i && describes(g, space, t as int, format)
                },
                _ => if shape.type_identifier@ == "()"@ {
                    format is Unit
                } else {
                    is_reference_to(g, space, j, format)
                },
            },
            Def::Other => false,
        }
    }
}

/// The formats describe the types of the fields, one by one.
pub open spec fn describe_all(
    g: Seq<Shape>,
    space: Option<SpaceView>,
    fields: Seq<Field>,
    formats: Seq<FormatView>,
    bound: int,
) -> bool
    decreases bound, 0int,
{
    &&& formats.len() == fields.len()
    &&& forall|k: int|
        0 <= k < formats.len() ==> (#[trigger] fields[k]).shape < bound && describes(
            g,
            space,
            fields[k].shape as int,
            formats[k],
        )
}

/// The namespace that is in force for a reference, if there is one: none outside a walk.
pub open spec fn space_for(s: State, walking: bool) -> Option<SpaceView> {
    if walking {
        space_of(s)
    } else {
        None
    }
}

/// A reference describes the type that it is made to, if the recorded renames are those of the
/// table.
pub proof fn law_reference_describes(g: Seq<Shape>, s: State, i: int, walking: bool)
    requires
        shape::shapes_wf(g),
        0 <= i < g.len(),
        progress::orderly(s),
        completion::well_named(g, s),
    ensures
        walk::reference(g, s, i, walking).1 matches Step::Done(format) ==> describes(
            g,
            space_for(s, walking),
            i,
            format,
        ),
    decreases i, 1int, 0int,
{
    let space = space_for(s, walking);
    naming::lemma_generated(g, i);
    let j = naming::generated(g, i);
    let shape = g[j];
    assert(shape::shape_wf(g, j));
    if let Step::Done(format) = walk::reference(g, s, i, walking).1 {
        if shape::is_container(shape) {
            lemma_named_by_own(g, s, j, walking);
        } else if let Some(fields) = walk::tuple_fields_of(shape) {
            lemma_references_describe(g, s, fields, 0, i, walking);
            let formats = format->Tuple_0;
            assert forall|k: int| 0 <= k < formats.len() implies (#[trigger] fields[k]).shape < i
                && describes(g, space, fields[k].shape as int, formats[k]) by {
                assert(describes(g, space, fields[0 + k].shape as int, formats[k]));
                assert(fields[0 + k] == fields[k]);
            }
            assert(describe_all(g, space, fields, formats, i));
        } else if let Some((wrap, t)) = walk::single(shape) {
            law_reference_describes(g, s, t as int, walking);
        } else if let Def::MapOf { key, value } = shape.def {
            law_reference_describes(g, s, key as int, walking);
            progress::lemma_reference(g, s, key as int, walking);
            let s1 = walk::reference(g, s, key as int, walking).0;
            completion::lemma_well_named_before(g, s1, s);
            law_reference_describes(g, s1, value as int, walking);
        } else if shape.def is Undefined && shape.type_identifier@ != "()"@ {
            lemma_named_by_own(g, s, j, walking);
        }
    }
}

proof fn lemma_named_by_own(g: Seq<Shape>, s: State, j: int, walking: bool)
    requires
        0 <= j < g.len(),
        naming::inner_of(g, j) is None,
        progress::orderly(s),
        completion::well_named(g, s),
    ensures
        model::name_of(g, s, j, walking).1 matches Step::Done(name) ==> is_reference_to(
            g,
            space_for(s, walking),
            j,
            FormatView::TypeName(name),
        ),
{
    assert(naming::generated(g, j) == j);
    let key = names::root_name(g[j].type_identifier@);
    if let Some(renamed) = model::recorded_rename(g, s, j) {
        assert(progress::is_kept(s, key, s.name_mappings[key]));
        assert(g[j] == g[j]);
        assert(s.processed.contains_key(renamed));
        assert(progress::goes_by(g, j, renamed));
    }
    progress::lemma_action_is_explicit(g[j].attributes@, 0);
}

/// The formats describe the types of the fields from `from` on.
pub open spec fn describe_from(
    g: Seq<Shape>,
    space: Option<SpaceView>,
    fields: Seq<Field>,
    from: int,
    formats: Seq<FormatView>,
) -> bool {
    &&& formats.len() == fields.len() - from
    &&& forall|k: int|
        0 <= k < formats.len() ==> describes(
            g,
            space,
            fields[from + k].shape as int,
            #[trigger] formats[k],
        )
}

proof fn lemma_references_describe(
    g: Seq<Shape>,
    s: State,
    fields: Seq<Field>,
    from: int,
    bound: int,
    walking: bool,
)
    requires
        shape::shapes_wf(g),
        0 <= bound < g.len(),
        0 <= from <= fields.len(),
        progress::orderly(s),
        completion::well_named(g, s),
    ensures
        walk::reference_all(g, s, fields, from, bound, walking).1 matches Step::Done(formats)
            ==> describe_from(g, space_for(s, walking), fields, from, formats),
    decreases bound, 0int, fields.len() - from,
{
    if from < fields.len() && fields[from].shape < bound {
        let space = space_for(s, walking);
        let i = fields[from].shape as int;
        law_reference_describes(g, s, i, walking);
        progress::lemma_reference(g, s, i, walking);
        let (s1, first) = walk::reference(g, s, i, walking);
        completion::lemma_well_named_before(g, s1, s);
        lemma_references_describe(g, s1, fields, from + 1, bound, walking);
        if let Step::Done(formats) = walk::reference_all(g, s, fields, from, bound, walking).1 {
            let rest = walk::reference_all(g, s1, fields, from + 1, bound, walking).1->Done_0;
            assert forall|k: int| 0 <= k < formats.len() implies describes(
                g,
                space,
                fields[from + k].shape as int,
                #[trigger] formats[k],
            ) by {
                if k > 0 {
                    assert(formats[k] == rest[k - 1]);
                    assert(fields[from + 1 + (k - 1)] == fields[from + k]);
                } else {
                    assert(formats[0] == first->Done_0);
                    assert(fields[from + k] == fields[from]);
                }
            }
        }
    }
}

/// A scalar that is not known, and a type of which nothing has a format, are refused by their
/// identifiers.
pub proof fn law_unknown_types(g: Seq<Shape>, s: State, i: int, walking: bool)
    ensures
        ({
            let shape = g[naming::generated(g, i)];
            &&& !shape::is_container(shape) && shape.def is Scalar && scalar::scalar_format(shape)
                == Step::Done(None::<FormatView>) ==> walk::reference(g, s, i, walking) == (
                s,
                Step::<FormatView>::Fail(
                    ErrorView::ReflectionError {
                        container: shape.type_identifier@,
                        message: "Scalar type is not supported and should be skipped"@,
                    },
                ),
            )
            &&& !shape::is_container(shape) && shape.def is Other ==> walk::reference(
                g,
                s,
                i,
                walking,
            ) == (
                s,
                Step::<FormatView>::Fail(
                    ErrorView::ReflectionError {
                        container: shape.type_identifier@,
                        message: "Type is not supported and should be skipped"@,
                    },
                ),
            )
        }),
{
}

// What stands for a reference

/// The two formats differ in names alone, and each name of `b` is the one of `a` at its place, or
/// that one in the root.
pub open spec fn same_but_for_roots(a: FormatView, b: FormatView) -> bool
    decreases a, 1int,
{
    match (a, b) {
        (FormatView::TypeName(x), FormatView::TypeName(y)) => y == x || y == (NameView {
            namespace: SpaceView::Root,
            name: x.name,
        }),
        (FormatView::Option(x), FormatView::Option(y)) => same_but_for_roots(*x, *y),
        (FormatView::SeqOf(x), FormatView::SeqOf(y)) => same_but_for_roots(*x, *y),
        (FormatView::SetOf(x), FormatView::SetOf(y)) => same_but_for_roots(*x, *y),
        (
            FormatView::MapOf { key: k, value: v },
            FormatView::MapOf { key: l, value: w },
        ) => same_but_for_roots(*k, *l) && same_but_for_roots(*v, *w),
        (FormatView::Tuple(x), FormatView::Tuple(y)) => all_same_but_for_roots(x, y),
        (
            FormatView::TupleArray { content: x, size: m },
            FormatView::TupleArray { content: y, size: n },
        ) => m == n && same_but_for_roots(*x, *y),
        _ => a == b,
    }
}

pub open spec fn all_same_but_for_roots(a: Seq<FormatView>, b: Seq<FormatView>) -> bool
    decreases a, 0int,
{
    &&& a.len() == b.len()
    &&& forall|k: int| 0 <= k < a.len() ==> same_but_for_roots(#[trigger] a[k], b[k])
}

proof fn lemma_same_refl(a: FormatView)
    ensures
        same_but_for_roots(a, a),
    decreases a,
{
    match a {
        FormatView::Option(x) => lemma_same_refl(*x),
        FormatView::SeqOf(x) => lemma_same_refl(*x),
        FormatView::SetOf(x) => lemma_same_refl(*x),
        FormatView::MapOf { key, value } => {
            lemma_same_refl(*key);
            lemma_same_refl(*value);
        },
        FormatView::Tuple(x) => {
            assert forall|k: int| 0 <= k < x.len() implies same_but_for_roots(
                #[trigger] x[k],
                x[k],
            ) by {
                lemma_same_refl(x[k]);
            }
            assert(all_same_but_for_roots(x, x));
        },
        FormatView::TupleArray { content, size } => lemma_same_refl(*content),
        _ => {},
    }
}

/// What stands for a reference differs from it in names alone: an option stays an option, the key
/// of a map stays its key, and so on.
pub proof fn law_standing_keeps_structure(g: Seq<Shape>, s: State, i: int, format: FormatView)
    ensures
        same_but_for_roots(format, walk::standing(g, s, i, format)),
    decreases i,
{
    let j = naming::generated(g, i);
    let shape = g[j];
    lemma_same_refl(format);
    if shape::is_container(shape) {
    } else if let Some(fields) = walk::tuple_fields_of(shape) {
        if let FormatView::Tuple(formats) = format {
            let stood = walk::standing_all(g, s, fields, formats, i);
            assert forall|k: int| 0 <= k < formats.len() implies same_but_for_roots(
                #[trigger] formats[k],
                stood[k],
            ) by {
                lemma_same_refl(formats[k]);
                if k < fields.len() && fields[k].shape < i {
                    law_standing_keeps_structure(g, s, fields[k].shape as int, formats[k]);
                }
            }
            assert(all_same_but_for_roots(formats, stood));
        }
    } else if let Some((wrap, t)) = walk::single(shape) {
        if t < i {
            match (wrap, format) {
                (Wrap::Plain, _) => law_standing_keeps_structure(g, s, t as int, format),
                (Wrap::Option, FormatView::Option(inner)) => law_standing_keeps_structure(
                    g,
                    s,
                    t as int,
                    *inner,
                ),
                (Wrap::SeqOf, FormatView::SeqOf(inner)) => law_standing_keeps_structure(
                    g,
                    s,
                    t as int,
                    *inner,
                ),
                (Wrap::SetOf, FormatView::SetOf(inner)) => law_standing_keeps_structure(
                    g,
                    s,
                    t as int,
                    *inner,
                ),
                (Wrap::TupleArray(_), FormatView::TupleArray { content, size }) => {
                    law_standing_keeps_structure(g, s, t as int, *content)
                },
                _ => {},
            }
        }
    } else {
        match (shape.def, format) {
            (Def::MapOf { key, value }, FormatView::MapOf { key: k, value: v }) => if key < i
                && value < i {
                law_standing_keeps_structure(g, s, key as int, *k);
                law_standing_keeps_structure(g, s, value as int, *v);
            },
            _ => {},
        }
    }
}

/// Every name in the format that describes the type at `i` is owned by the type at its place.
pub open spec fn names_owners(g: Seq<Shape>, s: State, i: int, format: FormatView) -> bool
    decreases i, 1int,
{
    let j = naming::generated(g, i);
    let shape = g[j];
    if shape::is_container(shape) {
        format matches FormatView::TypeName(name) && s.processed.contains_key(name)
            && s.processed[name].id == g[j].id
    } else {
        match (shape.def, format) {
            (Def::Option(t), FormatView::Option(inner)) => t < i ==> names_owners(
                g,
                s,
                t as int,
                *inner,
            ),
            (Def::List(t), FormatView::SeqOf(inner)) => t < i ==> names_owners(
                g,
                s,
                t as int,
                *inner,
            ),
            (Def::Slice(t), FormatView::SeqOf(inner)) => t < i ==> names_owners(
                g,
                s,
                t as int,
                *inner,
            ),
            (Def::SetOf(t), FormatView::SetOf(inner)) => t < i ==> names_owners(
                g,
                s,
                t as int,
                *inner,
            ),
            (
                Def::Array { item, size },
                FormatView::TupleArray { content, size: count },
            ) => item < i ==> names_owners(g, s, item as int, *content),
            (Def::MapOf { key, value }, FormatView::MapOf { key: k, value: v }) => {
                &&& key < i ==> names_owners(g, s, key as int, *k)
                &&& value < i ==> names_owners(g, s, value as int, *v)
            },
            (Def::Pointer(Some(t)), _) => t < i ==> names_owners(g, s, t as int, format),
            (Def::Undefined, _) => match (shape.ty, format) {
                (Type::User(UserType::Struct(st)), FormatView::Tuple(formats)) => name_owners(
                    g,
                    s,
                    st.fields@,
                    formats,
                    i,
                ),
                (Type::Pointer(PointerType::Reference(t)), _) => t < i ==> names_owners(
                    g,
                    s,
                    t as int,
                    format,
                ),
                (Type::Pointer(PointerType::Raw(t)), _) => t < i ==> names_owners(
                    g,
                    s,
                    t as int,
                    format,
                ),
                _ => true,
            },
            _ => true,
        }
    }
}

pub open spec fn name_owners(
    g: Seq<Shape>,
    s: State,
    fields: Seq<Field>,
    formats: Seq<FormatView>,
    bound: int,
) -> bool
    decreases bound, 0int,
{
    forall|k: int|
        0 <= k < formats.len() && k < fields.len() && fields[k].shape < bound ==> names_owners(
            g,
            s,
            fields[k].shape as int,
            #[trigger] formats[k],
        )
}

/// A reference whose names are all owned by the types that it refers to stands as it is.
pub proof fn law_owned_names_stand(g: Seq<Shape>, s: State, i: int, format: FormatView)
    requires
        0 <= i < g.len(),
        names_owners(g, s, i, format),
    ensures
        walk::standing(g, s, i, format) == format,
    decreases i,
{
    naming::lemma_generated(g, i);
    let j = naming::generated(g, i);
    let shape = g[j];
    if shape::is_container(shape) {
    } else if let Some(fields) = walk::tuple_fields_of(shape) {
        if let FormatView::Tuple(formats) = format {
            let stood = walk::standing_all(g, s, fields, formats, i);
            assert(name_owners(g, s, fields, formats, i));
            assert forall|k: int|
                0 <= k < formats.len() implies stood[k] == #[trigger] formats[k] by {
                if k < fields.len() && fields[k].shape < i {
                    law_owned_names_stand(g, s, fields[k].shape as int, formats[k]);
                }
            }
            assert(stood =~= formats);
        }
    } else if let Some((wrap, t)) = walk::single(shape) {
        if t < i {
            match (wrap, format) {
                (Wrap::Plain, _) => law_owned_names_stand(g, s, t as int, format),
                (Wrap::Option, FormatView::Option(inner)) => law_owned_names_stand(
                    g,
                    s,
                    t as int,
                    *inner,
                ),
                (Wrap::SeqOf, FormatView::SeqOf(inner)) => law_owned_names_stand(
                    g,
                    s,
                    t as int,
                    *inner,
                ),
                (Wrap::SetOf, FormatView::SetOf(inner)) => law_owned_names_stand(
                    g,
                    s,
                    t as int,
                    *inner,
                ),
                (Wrap::TupleArray(_), FormatView::TupleArray { content, size }) => {
                    law_owned_names_stand(g, s, t as int, *content)
                },
                _ => {},
            }
        }
    } else {
        match (shape.def, format) {
            (Def::MapOf { key, value }, FormatView::MapOf { key: k, value: v }) => if key < i
                && value < i {
                law_owned_names_stand(g, s, key as int, *k);
                law_owned_names_stand(g, s, value as int, *v);
            },
            _ => {},
        }
    }
}

/// What stands for a format that describes a type describes it too.
pub proof fn law_standing_describes(
    g: Seq<Shape>,
    space: Option<SpaceView>,
    s: State,
    i: int,
    format: FormatView,
)
    requires
        describes(g, space, i, format),
    ensures
        describes(g, space, i, walk::standing(g, s, i, format)),
    decreases i,
{
    let j = naming::generated(g, i);
    let shape = g[j];
    if shape::is_container(shape) {
    } else if let Some(fields) = walk::tuple_fields_of(shape) {
        if let FormatView::Tuple(formats) = format {
            let stood = walk::standing_all(g, s, fields, formats, i);
            assert(describe_all(g, space, fields, formats, i));
            assert forall|k: int| 0 <= k < stood.len() implies (#[trigger] fields[k]).shape < i
                && describes(g, space, fields[k].shape as int, stood[k]) by {
                law_standing_describes(g, space, s, fields[k].shape as int, formats[k]);
            }
            assert(describe_all(g, space, fields, stood, i));
        }
    } else if let Some((wrap, t)) = walk::single(shape) {
        match (wrap, format) {
            (Wrap::Plain, _) => law_standing_describes(g, space, s, t as int, format),
            (Wrap::Option, FormatView::Option(inner)) => law_standing_describes(
                g,
                space,
                s,
                t as int,
                *inner,
            ),
            (Wrap::SeqOf, FormatView::SeqOf(inner)) => law_standing_describes(
                g,
                space,
                s,
                t as int,
                *inner,
            ),
            (Wrap::SetOf, FormatView::SetOf(inner)) => law_standing_describes(
                g,
                space,
                s,
                t as int,
                *inner,
            ),
            (Wrap::TupleArray(_), FormatView::TupleArray { content, size }) => {
                law_standing_describes(g, space, s, t as int, *content)
            },
            _ => {},
        }
    } else {
        match (shape.def, format) {
            (Def::MapOf { key, value }, FormatView::MapOf { key: k, value: v }) => {
                law_standing_describes(g, space, s, key as int, *k);
                law_standing_describes(g, space, s, value as int, *v);
            },
            _ => {},
        }
    }
}

} // verus!
