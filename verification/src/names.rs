//! Qualified type names and the namespaces they live in.

use vstd::prelude::*;

use crate::text;

verus! {

/// The namespace of a generated type.
#[derive(Debug, PartialEq, Eq, PartialOrd, Ord, Hash)]
pub enum Namespace {
    /// The root namespace, which has no name.
    Root,
    /// A namespace with a name.
    Named(String),
}

/// What a [`Namespace`] holds.
pub enum SpaceView {
    Root,
    Named(Seq<char>),
}

impl View for Namespace {
    type V = SpaceView;

    open spec fn view(&self) -> SpaceView {
        match self {
            Namespace::Root => SpaceView::Root,
            Namespace::Named(name) => SpaceView::Named(name@),
        }
    }
}

impl Clone for Namespace {
    fn clone(&self) -> (r: Self)
        ensures
            r == *self,
    {
        match self {
            Namespace::Root => Namespace::Root,
            Namespace::Named(name) => Namespace::Named(name.clone()),
        }
    }
}

/// The name under which a type is generated, unique within a registry.
#[derive(Debug, PartialEq, Eq, PartialOrd, Ord, Hash)]
pub struct QualifiedTypeName {
    pub namespace: Namespace,
    pub name: String,
}

/// What a [`QualifiedTypeName`] holds.
pub struct NameView {
    pub namespace: SpaceView,
    pub name: Seq<char>,
}

impl View for QualifiedTypeName {
    type V = NameView;

    open spec fn view(&self) -> NameView {
        NameView { namespace: self.namespace@, name: self.name@ }
    }
}

impl Clone for QualifiedTypeName {
    fn clone(&self) -> (r: Self)
        ensures
            r == *self,
    {
        QualifiedTypeName { namespace: self.namespace.clone(), name: self.name.clone() }
    }
}

/// The name `name` in the root namespace.
pub open spec fn root_name(name: Seq<char>) -> NameView {
    NameView { namespace: SpaceView::Root, name }
}

/// The order of namespaces: the root first, then by name.
pub open spec fn space_before(a: SpaceView, b: SpaceView) -> bool {
    match (a, b) {
        (_, SpaceView::Root) => false,
        (SpaceView::Root, SpaceView::Named(_)) => true,
        (SpaceView::Named(x), SpaceView::Named(y)) => text::text_before(x, y),
    }
}

/// The order of names: by namespace, then by name.
pub open spec fn name_before(a: NameView, b: NameView) -> bool {
    if a.namespace == b.namespace {
        text::text_before(a.name, b.name)
    } else {
        space_before(a.namespace, b.namespace)
    }
}

pub proof fn lemma_name_irreflexive(a: NameView)
    ensures
        !name_before(a, a),
{
    text::lemma_text_irreflexive(a.name);
}

pub proof fn lemma_name_transitive(a: NameView, b: NameView, c: NameView)
    requires
        name_before(a, b),
        name_before(b, c),
    ensures
        name_before(a, c),
{
    if a.namespace == b.namespace && b.namespace == c.namespace {
        text::lemma_text_transitive(a.name, b.name, c.name);
    } else if a.namespace != b.namespace && b.namespace != c.namespace {
        if let (SpaceView::Named(x), SpaceView::Named(y), SpaceView::Named(z)) = (
            a.namespace,
            b.namespace,
            c.namespace,
        ) {
            text::lemma_text_transitive(x, y, z);
            text::lemma_text_irreflexive(x);
        }
    }
}

pub proof fn lemma_name_total(a: NameView, b: NameView)
    ensures
        a == b || name_before(a, b) || name_before(b, a),
{
    if a.namespace == b.namespace {
        text::lemma_text_total(a.name, b.name);
    } else if let (SpaceView::Named(x), SpaceView::Named(y)) = (a.namespace, b.namespace) {
        text::lemma_text_total(x, y);
    }
}

/// How a namespace is written in messages.
pub open spec fn space_text(space: SpaceView) -> Seq<char> {
    match space {
        SpaceView::Root => "ROOT"@,
        SpaceView::Named(name) => name,
    }
}

/// How a name is written in messages: the namespace, where it has a name, then the name.
pub open spec fn name_text(name: NameView) -> Seq<char> {
    match name.namespace {
        SpaceView::Root => name.name,
        SpaceView::Named(space) => space + "::"@ + name.name,
    }
}

impl Namespace {
    pub fn is_root(&self) -> (r: bool)
        ensures
            r == (self@ is Root),
    {
        match self {
            Namespace::Root => true,
            Namespace::Named(_) => false,
        }
    }

    /// Whether two namespaces are the same.
    pub fn same_as(&self, other: &Namespace) -> (r: bool)
        ensures
            r == (self@ == other@),
    {
        match (self, other) {
            (Namespace::Root, Namespace::Root) => true,
            (Namespace::Named(a), Namespace::Named(b)) => *a == *b,
            _ => false,
        }
    }

    /// The text of the namespace, as messages show it.
    pub fn to_text(&self) -> (r: String)
        ensures
            r@ == space_text(self@),
    {
        match self {
            Namespace::Root => "ROOT".to_owned(),
            Namespace::Named(name) => name.clone(),
        }
    }
}

impl QualifiedTypeName {
    /// A name in the root namespace.
    pub fn root(name: String) -> (r: Self)
        ensures
            r@ == root_name(name@),
            r == (QualifiedTypeName { namespace: Namespace::Root, name }),
    {
        QualifiedTypeName { namespace: Namespace::Root, name }
    }

    /// A name in a named namespace.
    pub fn namespaced(namespace: String, name: String) -> (r: Self)
        ensures
            r@ == (NameView { namespace: SpaceView::Named(namespace@), name: name@ }),
            r == (QualifiedTypeName { namespace: Namespace::Named(namespace), name }),
    {
        QualifiedTypeName { namespace: Namespace::Named(namespace), name }
    }

    /// Whether two names are the same.
    pub fn same_as(&self, other: &QualifiedTypeName) -> (r: bool)
        ensures
            r == (self@ == other@),
    {
        self.namespace.same_as(&other.namespace) && self.name == other.name
    }

    /// Whether this name comes before `other`.
    pub fn is_before(&self, other: &QualifiedTypeName) -> (r: bool)
        ensures
            r == name_before(self@, other@),
    {
        if self.namespace.same_as(&other.namespace) {
            text::comes_before(self.name.as_str(), other.name.as_str())
        } else {
            match (&self.namespace, &other.namespace) {
                (_, Namespace::Root) => false,
                (Namespace::Root, Namespace::Named(_)) => true,
                (Namespace::Named(a), Namespace::Named(b)) => text::comes_before(a.as_str(), b.as_str()),
            }
        }
    }

    /// The text of the name, as messages show it.
    pub fn to_text(&self) -> (r: String)
        ensures
            r@ == name_text(self@),
    {
        match &self.namespace {
            Namespace::Root => self.name.clone(),
            Namespace::Named(space) => {
                let mut text = space.clone();
                text.append("::");
                text.append(self.name.as_str());
                text
            },
        }
    }
}

} // verus!
