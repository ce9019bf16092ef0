//! Reflection of Rust types into a language-neutral registry.
//!
//! The shapes of Rust types are laid out in a [`TypeTable`](shape::TypeTable). Each struct or
//! enum that is added to a [`RegistryBuilder`] becomes a
//! [`ContainerFormat`](format::ContainerFormat) of the registry, with everything that it
//! reaches. The shape of each field, variant or nested value is described by a
//! [`Format`](format::Format): how it would be laid out on the wire.

pub mod arrange;
pub mod builder;
pub mod completion;
pub mod error;
pub mod format;
pub mod identifier;
pub mod laws;
pub mod model;
pub mod name_table;
pub mod names;
pub mod namespace;
pub mod naming;
pub mod progress;
pub mod reach;
pub mod registry;
pub mod scalar;
pub mod shape;
pub mod step;
pub mod text;
pub mod walk;

pub use builder::RegistryBuilder;
pub use registry::Registry;
