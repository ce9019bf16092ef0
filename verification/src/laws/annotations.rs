//! What the annotations of types and fields say.

use vstd::prelude::*;

use crate::error::ErrorView;
use crate::format::TaggingView;
use crate::names::{NameView, SpaceView};
use crate::namespace;
use crate::namespace::{ActionView, ContextView};
use crate::naming;
use crate::scalar;
use crate::shape;
use crate::shape::{Attr, AttrData, Field, Shape, StructKind, Type, UserType};

verus! {

/// An attribute of the language itself with this key.
pub open spec fn is_builtin(attr: Attr, key: Seq<char>) -> bool {
    attr.ns is None && attr.key@ == key
}

/// An attribute of the generators with this key.
pub open spec fn is_ours(attr: Attr, key: Seq<char>) -> bool {
    (attr.ns matches Some(ns) && ns@ == "fg"@) && attr.key@ == key
}

/// Whether there is an attribute with a key is a matter of all the attributes, of the key and of
/// where the attribute comes from.
pub proof fn law_attributes(attributes: Seq<Attr>, key: Seq<char>)
    ensures
        shape::has_attr(attributes, None, key) <==> exists|k: int|
            0 <= k < attributes.len() && is_builtin(#[trigger] attributes[k], key),
        shape::has_attr(attributes, Some("fg"@), key) <==> exists|k: int|
            0 <= k < attributes.len() && is_ours(#[trigger] attributes[k], key),
{
    if shape::has_attr(attributes, None, key) {
        let k = choose|k: int|
            0 <= k < attributes.len() && shape::attr_is(#[trigger] attributes[k], None, key);
        assert(is_builtin(attributes[k], key));
    }
    if shape::has_attr(attributes, Some("fg"@), key) {
        let k = choose|k: int|
            0 <= k < attributes.len() && shape::attr_is(
                #[trigger] attributes[k],
                Some("fg"@),
                key,
            );
        assert(is_ours(attributes[k], key));
    }
    if exists|k: int| 0 <= k < attributes.len() && is_builtin(#[trigger] attributes[k], key) {
        let k = choose|k: int|
            0 <= k < attributes.len() && is_builtin(#[trigger] attributes[k], key);
        assert(shape::attr_is(attributes[k], None, key));
    }
    if exists|k: int| 0 <= k < attributes.len() && is_ours(#[trigger] attributes[k], key) {
        let k = choose|k: int| 0 <= k < attributes.len() && is_ours(#[trigger] attributes[k], key);
        assert(shape::attr_is(attributes[k], Some("fg"@), key));
    }
}

/// A type is transparent if one of its attributes says so.
pub proof fn law_transparent(shape: Shape)
    ensures
        shape::is_transparent(shape) <==> exists|k: int|
            0 <= k < shape.attributes@.len() && is_builtin(
                #[trigger] shape.attributes@[k],
                "transparent"@,
            ),
{
    law_attributes(shape.attributes@, "transparent"@);
}

/// A field is annotated to be a byte string if one of its attributes says so.
pub proof fn law_bytes_mark(field: Field)
    ensures
        scalar::is_bytes_field(field) <==> exists|k: int|
            0 <= k < field.attributes@.len() && is_ours(
                #[trigger] field.attributes@[k],
                "bytes"@,
            ),
{
    law_attributes(field.attributes@, "bytes"@);
}

/// A struct is a container unless it is an anonymous tuple, an enum is one unless it is an
/// option, and nothing else is.
pub proof fn law_container(shape: Shape)
    ensures
        shape.ty matches Type::User(UserType::Struct(st)) ==> (shape::is_container(shape)
            <==> st.kind != StructKind::Tuple),
        shape.ty matches Type::User(UserType::Enum(_)) ==> (shape::is_container(shape) <==> !(
        shape.def is Option)),
        shape::is_container(shape) ==> (shape.ty matches Type::User(user) && (user is Struct
            || user is Enum)),
{
}

/// A wrapper that is transparent is generated as what is behind it, and everything else as
/// itself.
pub proof fn law_generated(g: Seq<Shape>, i: int)
    requires
        shape::shapes_wf(g),
        0 <= i < g.len(),
    ensures
        shape::is_transparent(g[i]) && g[i].inner is Some ==> naming::generated(g, i)
            == naming::generated(g, g[i].inner->0 as int),
        !(shape::is_transparent(g[i]) && g[i].inner is Some) ==> naming::generated(g, i) == i,
{
    assert(shape::shape_wf(g, i));
}

// Namespaces

/// A namespace annotation that says something.
pub open spec fn is_namespace_annotation(attr: Attr) -> bool {
    is_ours(attr, "namespace"@) && !(attr.data is Generator)
}

/// What a namespace annotation says: its text is the namespace if it is an identifier, and the
/// root is if it has none; anything else is malformed.
pub proof fn law_namespace_annotation(attr: Attr)
    ensures
        !is_namespace_annotation(attr) ==> namespace::attr_action(attr) == Ok::<
            Option<ActionView>,
            ErrorView,
        >(None),
        is_namespace_annotation(attr) ==> namespace::attr_action(attr) == match attr.data {
            AttrData::Namespace(Some(text)) => if text.spec_valid() {
                Ok(
                    Some(
                        ActionView::SetContext(
                            ContextView {
                                namespace: SpaceView::Named(text.spec_text()),
                                explicit: true,
                            },
                        ),
                    ),
                )
            } else {
                Err(ErrorView::InvalidNamespaceIdentifier)
            },
            AttrData::Namespace(None) => Ok(
                Some(
                    ActionView::SetContext(
                        ContextView { namespace: SpaceView::Root, explicit: true },
                    ),
                ),
            ),
            _ => Err(ErrorView::InvalidNamespaceFormat),
        },
{
}

/// Among attributes the first namespace annotation counts, wherever it stands, and without any
/// the context is inherited.
pub proof fn law_first_namespace_counts(attributes: Seq<Attr>, k: int)
    ensures
        0 <= k < attributes.len() && is_namespace_annotation(attributes[k]) && (forall|m: int|
            0 <= m < k ==> !is_namespace_annotation(#[trigger] attributes[m])) ==> match (
            namespace::namespace_action(attributes),
            namespace::attr_action(attributes[k]),
        ) {
            (Ok(action), Ok(Some(said))) => action == said,
            (Err(error), Err(said)) => error == said,
            _ => false,
        },
        (forall|m: int|
            0 <= m < attributes.len() ==> !is_namespace_annotation(#[trigger] attributes[m]))
            <==> namespace::namespace_action(attributes) == Ok::<ActionView, ErrorView>(
            ActionView::Inherit,
        ),
{
    lemma_first_namespace(attributes, 0, k);
    lemma_no_namespace(attributes, 0);
}

proof fn lemma_first_namespace(attributes: Seq<Attr>, from: int, k: int)
    requires
        0 <= from,
    ensures
        from <= k < attributes.len() && is_namespace_annotation(attributes[k]) && (forall|m: int|
            from <= m < k ==> !is_namespace_annotation(#[trigger] attributes[m])) ==> match (
            namespace::action_from(attributes, from),
            namespace::attr_action(attributes[k]),
        ) {
            (Ok(action), Ok(Some(said))) => action == said,
            (Err(error), Err(said)) => error == said,
            _ => false,
        },
    decreases attributes.len() - from,
{
    if from < k < attributes.len() {
        law_namespace_annotation(attributes[from]);
        lemma_first_namespace(attributes, from + 1, k);
    } else if from == k && k < attributes.len() {
        law_namespace_annotation(attributes[k]);
    }
}

proof fn lemma_no_namespace(attributes: Seq<Attr>, from: int)
    requires
        0 <= from,
    ensures
        (forall|m: int|
            from <= m < attributes.len() ==> !is_namespace_annotation(#[trigger] attributes[m]))
            <==> namespace::action_from(attributes, from) == Ok::<ActionView, ErrorView>(
            ActionView::Inherit,
        ),
    decreases attributes.len() - from,
{
    if from < attributes.len() {
        law_namespace_annotation(attributes[from]);
        lemma_no_namespace(attributes, from + 1);
    }
}

/// A type with an annotation of its own may be moved to that namespace alone, one without to any.
pub proof fn law_moving(space: Seq<char>, target: Seq<char>)
    ensures
        namespace::may_move(ActionView::Inherit, target),
        namespace::may_move(
            ActionView::SetContext(
                ContextView { namespace: SpaceView::Named(space), explicit: true },
            ),
            target,
        ) <==> space == target,
        namespace::may_move(
            ActionView::SetContext(ContextView { namespace: SpaceView::Root, explicit: true }),
            target,
        ) <==> target == Seq::<char>::empty(),
        forall|namespace: SpaceView|
            #[trigger] namespace::may_move(
                ActionView::SetContext(ContextView { namespace, explicit: false }),
                target,
            ),
{
    assert(target.len() == 0 ==> target =~= Seq::<char>::empty());
}

/// Only an annotation sets a namespace explicitly.
pub proof fn law_explicit_actions(context: ContextView)
    ensures
        !namespace::action_is_explicit(ActionView::Inherit),
        namespace::action_is_explicit(ActionView::SetContext(context)) <==> context.explicit,
        namespace::cleared_context() == (ContextView {
            namespace: SpaceView::Root,
            explicit: true,
        }),
{
}

// Names

/// A rename that carries a text.
pub open spec fn is_rename(attr: Attr) -> bool {
    is_builtin(attr, "rename"@) && attr.data is Text
}

/// A type goes by its rename, else by the first of its attributes that renames it, else by its
/// identifier.
pub proof fn law_base_name(shape: Shape, k: int)
    ensures
        shape.rename matches Some(name) ==> naming::base_name(shape) == name@,
        shape.rename is None && 0 <= k < shape.attributes@.len() && is_rename(
            shape.attributes@[k],
        ) && (forall|m: int| 0 <= m < k ==> !is_rename(#[trigger] shape.attributes@[m]))
            ==> naming::base_name(shape) == shape.attributes@[k].data->Text_0@,
        shape.rename is None && (forall|m: int|
            0 <= m < shape.attributes@.len() ==> !is_rename(#[trigger] shape.attributes@[m]))
            ==> naming::base_name(shape) == shape.type_identifier@,
{
    lemma_first_rename(shape.attributes@, 0, k);
}

proof fn lemma_first_rename(attributes: Seq<Attr>, from: int, k: int)
    requires
        0 <= from,
    ensures
        from <= k < attributes.len() && is_rename(attributes[k]) && (forall|m: int|
            from <= m < k ==> !is_rename(#[trigger] attributes[m])) ==> naming::rename_from(
            attributes,
            from,
        ) == Some(attributes[k].data->Text_0@),
        (forall|m: int| from <= m < attributes.len() ==> !is_rename(#[trigger] attributes[m]))
            ==> naming::rename_from(attributes, from) is None,
    decreases attributes.len() - from,
{
    if from < attributes.len() {
        assert(shape::attr_is(attributes[from], None, "rename"@) == is_builtin(
            attributes[from],
            "rename"@,
        ));
        lemma_first_rename(attributes, from + 1, k);
    }
}

/// The name of a type: its tag in the root if it has one; what a wrapper is generated as; else
/// its base name, in the namespace that it sets or in the root.
pub proof fn law_own_name(g: Seq<Shape>, i: int)
    requires
        shape::shapes_wf(g),
        0 <= i < g.len(),
    ensures
        g[i].type_tag matches Some(tag) ==> naming::own_name(g, i) == Ok::<NameView, ErrorView>(
            NameView { namespace: SpaceView::Root, name: tag@ },
        ),
        g[i].type_tag is None ==> match namespace::namespace_action(g[i].attributes@) {
            Err(error) => naming::own_name(g, i) == Err::<NameView, ErrorView>(error),
            Ok(action) => if shape::is_transparent(g[i]) && g[i].inner is Some {
                naming::own_name(g, i) == naming::own_name(g, g[i].inner->0 as int)
            } else {
                naming::own_name(g, i) matches Ok(name) && name.name == naming::base_name(g[i])
                    && name.namespace == match action {
                    ActionView::SetContext(context) => context.namespace,
                    ActionView::Inherit => SpaceView::Root,
                }
            },
        },
{
    assert(shape::shape_wf(g, i));
}

/// A field or a variant goes by its rename if it has one, else by its name.
pub proof fn law_display_name(rename: Option<String>, name: String)
    ensures
        rename matches Some(text) ==> naming::renamed(rename, name) == text@,
        rename is None ==> naming::renamed(rename, name) == name@,
{
}

/// An enum with a tag and a content has its variants beside each other, one with a tag alone has
/// it inside, and every other one outside.
pub proof fn law_tagging(shape: Shape)
    ensures
        shape.tag is None ==> naming::tagging(shape) is External,
        shape.tag matches Some(tag) ==> match naming::tagging(shape) {
            TaggingView::Internal { tag: t } => shape.content is None && t == tag@,
            TaggingView::Adjacent { tag: t, content: c } => t == tag@ && (shape.content
                matches Some(content) && c == content@),
            TaggingView::External => false,
        },
{
}

} // verus!
