//! What can go wrong while types are reflected.

use vstd::prelude::*;

verus! {

/// Why a type cannot be reflected, or a registry cannot be built.
#[derive(Debug, PartialEq, Eq)]
pub enum Error {
    /// A type or a container could not be described.
    ReflectionError { container: String, message: String },
    /// A format that is not known.
    UnknownFormat,
    /// Two Rust types would be generated under one name.
    DuplicateTypeName { name: String, namespace: String, existing: String, new: String },
    /// A generic type is used with different type parameters.
    UnsupportedGenericType(String),
    /// A name lives in two namespaces, at least one of which it inherited.
    AmbiguousNamespaceInheritance {
        container: String,
        existing_namespace: String,
        new_namespace: String,
    },
    /// A reference to a name under which nothing is registered.
    DanglingTypeReference {
        name: String,
        namespace: String,
        location: String,
        missing_name: String,
        missing_namespace: String,
    },
    /// A type has no size.
    LayoutUnsized(String),
    /// A namespace annotation that holds something else.
    InvalidNamespaceFormat,
    /// A namespace that is not an identifier.
    InvalidNamespaceIdentifier,
}

/// What an [`Error`] holds.
pub enum ErrorView {
    ReflectionError { container: Seq<char>, message: Seq<char> },
    UnknownFormat,
    DuplicateTypeName {
        name: Seq<char>,
        namespace: Seq<char>,
        existing: Seq<char>,
        new: Seq<char>,
    },
    UnsupportedGenericType(Seq<char>),
    AmbiguousNamespaceInheritance {
        container: Seq<char>,
        existing_namespace: Seq<char>,
        new_namespace: Seq<char>,
    },
    DanglingTypeReference {
        name: Seq<char>,
        namespace: Seq<char>,
        location: Seq<char>,
        missing_name: Seq<char>,
        missing_namespace: Seq<char>,
    },
    LayoutUnsized(Seq<char>),
    InvalidNamespaceFormat,
    InvalidNamespaceIdentifier,
}

impl View for Error {
    type V = ErrorView;

    open spec fn view(&self) -> ErrorView {
        match self {
            Error::ReflectionError { container, message } => ErrorView::ReflectionError {
                container: container@,
                message: message@,
            },
            Error::UnknownFormat => ErrorView::UnknownFormat,
            Error::DuplicateTypeName { name, namespace, existing, new } =>
                ErrorView::DuplicateTypeName {
                name: name@,
                namespace: namespace@,
                existing: existing@,
                new: new@,
            },
            Error::UnsupportedGenericType(text) => ErrorView::UnsupportedGenericType(text@),
            Error::AmbiguousNamespaceInheritance {
                container,
                existing_namespace,
                new_namespace,
            } => ErrorView::AmbiguousNamespaceInheritance {
                container: container@,
                existing_namespace: existing_namespace@,
                new_namespace: new_namespace@,
            },
            Error::DanglingTypeReference {
                name,
                namespace,
                location,
                missing_name,
                missing_namespace,
            } => ErrorView::DanglingTypeReference {
                name: name@,
                namespace: namespace@,
                location: location@,
                missing_name: missing_name@,
                missing_namespace: missing_namespace@,
            },
            Error::LayoutUnsized(text) => ErrorView::LayoutUnsized(text@),
            Error::InvalidNamespaceFormat => ErrorView::InvalidNamespaceFormat,
            Error::InvalidNamespaceIdentifier => ErrorView::InvalidNamespaceIdentifier,
        }
    }
}

} // verus!
