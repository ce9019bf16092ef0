//! Namespace contexts, and the annotations that set them.

use vstd::prelude::*;

use crate::error::{Error, ErrorView};
use crate::identifier;
use crate::names::{Namespace, SpaceView};
use crate::shape;
use crate::shape::{Attr, AttrData, Field, Shape};

verus! {

/// A namespace context with its source information.
#[derive(Debug, PartialEq, Eq)]
pub struct NamespaceContext {
    pub namespace: Namespace,
    /// Whether the namespace was set explicitly; else it was inherited.
    pub explicit: bool,
}

/// What a [`NamespaceContext`] holds.
pub struct ContextView {
    pub namespace: SpaceView,
    pub explicit: bool,
}

impl View for NamespaceContext {
    type V = ContextView;

    open spec fn view(&self) -> ContextView {
        ContextView { namespace: self.namespace@, explicit: self.explicit }
    }
}

impl Clone for NamespaceContext {
    fn clone(&self) -> (r: Self)
        ensures
            r == *self,
    {
        NamespaceContext { namespace: self.namespace.clone(), explicit: self.explicit }
    }
}

/// The context that pins a type to the root namespace.
pub open spec fn cleared_context() -> ContextView {
    ContextView { namespace: SpaceView::Root, explicit: true }
}

/// The context that an annotation with `namespace` sets.
pub open spec fn explicit_context(namespace: SpaceView) -> ContextView {
    ContextView { namespace, explicit: true }
}

impl NamespaceContext {
    /// Creates a cleared namespace context (explicit root).
    pub fn cleared() -> (r: Self)
        ensures
            r@ == cleared_context(),
    {
        NamespaceContext { namespace: Namespace::Root, explicit: true }
    }

    /// Creates an explicitly set namespace context.
    pub fn explicit(namespace: Namespace) -> (r: Self)
        ensures
            r@ == explicit_context(namespace@),
    {
        NamespaceContext { namespace, explicit: true }
    }

    /// Checks if this context is explicit.
    pub fn is_explicit(&self) -> (r: bool)
        ensures
            r == self@.explicit,
    {
        self.explicit
    }

    /// Checks if this context was cleared (explicit root).
    pub fn is_cleared(&self) -> (r: bool)
        ensures
            r == (self@ == cleared_context()),
    {
        self.explicit && self.namespace.is_root()
    }
}

/// What to do with the namespace context.
#[derive(Debug, PartialEq, Eq)]
pub enum NamespaceAction {
    /// Set a specific namespace context.
    SetContext(NamespaceContext),
    /// Keep the context in force.
    Inherit,
}

/// What a [`NamespaceAction`] holds.
pub enum ActionView {
    SetContext(ContextView),
    Inherit,
}

impl View for NamespaceAction {
    type V = ActionView;

    open spec fn view(&self) -> ActionView {
        match self {
            NamespaceAction::SetContext(context) => ActionView::SetContext(context@),
            NamespaceAction::Inherit => ActionView::Inherit,
        }
    }
}

impl Clone for NamespaceAction {
    fn clone(&self) -> (r: Self)
        ensures
            r == *self,
    {
        match self {
            NamespaceAction::SetContext(context) => NamespaceAction::SetContext(context.clone()),
            NamespaceAction::Inherit => NamespaceAction::Inherit,
        }
    }
}

/// Whether an action sets a namespace explicitly.
pub open spec fn action_is_explicit(action: ActionView) -> bool {
    action matches ActionView::SetContext(context) && context.explicit
}

/// Whether a type with this annotation may be moved to the namespace `target`: it may unless it
/// is annotated with another one. A type that is pinned to the root may be moved to the empty
/// namespace only.
pub open spec fn may_move(action: ActionView, target: Seq<char>) -> bool {
    match action {
        ActionView::SetContext(context) => context.explicit ==> match context.namespace {
            SpaceView::Named(name) => name == target,
            SpaceView::Root => target.len() == 0,
        },
        ActionView::Inherit => true,
    }
}

impl NamespaceAction {
    /// Returns true if this action represents an explicit namespace setting.
    pub fn is_explicit(&self) -> (r: bool)
        ensures
            r == action_is_explicit(self@),
    {
        match self {
            NamespaceAction::SetContext(context) => context.is_explicit(),
            NamespaceAction::Inherit => false,
        }
    }

    /// Returns true if this action should move a type to a specific namespace.
    pub fn should_move_to_namespace(&self, target_namespace: &str) -> (r: bool)
        ensures
            r == may_move(self@, target_namespace@),
    {
        match self {
            NamespaceAction::SetContext(context) => {
                if context.is_explicit() {
                    match &context.namespace {
                        Namespace::Named(name) => *name.as_str() == *target_namespace,
                        Namespace::Root => target_namespace.is_empty(),
                    }
                } else {
                    true
                }
            },
            NamespaceAction::Inherit => true,
        }
    }
}

/// The action of a single attribute: nothing, unless it is a namespace annotation.
pub open spec fn attr_action(attr: Attr) -> Result<Option<ActionView>, ErrorView> {
    if !shape::attr_is(attr, Some("fg"@), "namespace"@) {
        Ok(None)
    } else {
        match attr.data {
            AttrData::Namespace(Some(name)) => if name.spec_valid() {
                Ok(
                    Some(
                        ActionView::SetContext(
                            explicit_context(SpaceView::Named(name.spec_text())),
                        ),
                    ),
                )
            } else {
                Err(ErrorView::InvalidNamespaceIdentifier)
            },
            AttrData::Namespace(None) => Ok(Some(ActionView::SetContext(cleared_context()))),
            AttrData::Generator => Ok(None),
            _ => Err(ErrorView::InvalidNamespaceFormat),
        }
    }
}

/// The action of the first of the attributes from `from` on that has one or is malformed.
pub open spec fn action_from(attributes: Seq<Attr>, from: int) -> Result<ActionView, ErrorView>
    decreases attributes.len() - from,
{
    if from < 0 || from >= attributes.len() {
        Ok(ActionView::Inherit)
    } else {
        match attr_action(attributes[from]) {
            Err(e) => Err(e),
            Ok(Some(action)) => Ok(action),
            Ok(None) => action_from(attributes, from + 1),
        }
    }
}

/// The namespace action that the attributes of a type or a field call for.
pub open spec fn namespace_action(attributes: Seq<Attr>) -> Result<ActionView, ErrorView> {
    action_from(attributes, 0)
}

/// Extracts a namespace action from a single attribute.
///
/// - A namespace annotation with an identifier sets that namespace.
/// - A namespace annotation without a value pins to the root.
/// - Any other attribute is none.
pub fn extract_namespace_from_attr(attr: &Attr) -> (r: Result<Option<NamespaceAction>, Error>)
    ensures
        match (r, attr_action(*attr)) {
            (Ok(None), Ok(None)) => true,
            (Ok(Some(a)), Ok(Some(b))) => a@ == b,
            (Err(a), Err(b)) => a@ == b,
            _ => false,
        },
        shape::attr_is(*attr, Some("fg"@), "namespace"@) ==> (attr.data matches AttrData::Namespace(
            Some(name),
        ) ==> (r is Ok <==> identifier::is_identifier(name.spec_text()))),
{
    if !shape::test_attr(attr, Some("fg"), "namespace") {
        return Ok(None);
    }
    match &attr.data {
        AttrData::Namespace(Some(name)) => {
            if !name.is_valid() {
                return Err(Error::InvalidNamespaceIdentifier);
            }
            Ok(
                Some(
                    NamespaceAction::SetContext(
                        NamespaceContext::explicit(Namespace::Named(name.text().clone())),
                    ),
                ),
            )
        },
        AttrData::Namespace(None) => Ok(
            Some(NamespaceAction::SetContext(NamespaceContext::cleared())),
        ),
        AttrData::Generator => Ok(None),
        _ => Err(Error::InvalidNamespaceFormat),
    }
}

fn extract_namespace(attributes: &Vec<Attr>) -> (r: Result<NamespaceAction, Error>)
    ensures
        match (r, namespace_action(attributes@)) {
            (Ok(a), Ok(b)) => a@ == b,
            (Err(a), Err(b)) => a@ == b,
            _ => false,
        },
{
    for k in 0..attributes.len()
        invariant
            namespace_action(attributes@) == action_from(attributes@, k as int),
    {
        match extract_namespace_from_attr(&attributes[k]) {
            Err(e) => {
                return Err(e);
            },
            Ok(Some(action)) => {
                return Ok(action);
            },
            Ok(None) => {},
        }
    }
    Ok(NamespaceAction::Inherit)
}

/// The namespace action of a type.
pub fn extract_namespace_from_shape(shape: &Shape) -> (r: Result<NamespaceAction, Error>)
    ensures
        match (r, namespace_action(shape.attributes@)) {
            (Ok(a), Ok(b)) => a@ == b,
            (Err(a), Err(b)) => a@ == b,
            _ => false,
        },
{
    extract_namespace(&shape.attributes)
}

/// The namespace action of a field.
pub fn extract_namespace_from_field_attributes(field: &Field) -> (r: Result<
    NamespaceAction,
    Error,
>)
    ensures
        match (r, namespace_action(field.attributes@)) {
            (Ok(a), Ok(b)) => a@ == b,
            (Err(a), Err(b)) => a@ == b,
            _ => false,
        },
{
    extract_namespace(&field.attributes)
}

} // verus!
