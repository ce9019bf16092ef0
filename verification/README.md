# facet_generate

Reflects Rust types into a language-neutral registry, from which code generators work. Each
struct or enum becomes a container of the registry, with everything that it reaches; the fields,
variants and nested values of a container are described by formats.

The library is verified with Verus. What it does is stated in the contracts, over a model of the
builder's state.

## Layout

- `src/shape.rs`: the shapes of Rust types and the table that holds them, one for each type;
  `src/arrange.rs` puts shapes that were gathered one by one in the order of a table.
- `src/builder.rs` and `src/builder/`: `RegistryBuilder`, which adds types, answers what format a
  type has, and builds the registry. It holds the registry so far, which callers may change, and
  a ledger, which they may not.
- `src/registry.rs`: registries, and the check that every reference in one names a container.
- `src/names.rs`, `src/name_table.rs`, `src/namespace.rs`, `src/naming.rs`, `src/scalar.rs`,
  `src/format.rs`, `src/text.rs`, `src/identifier.rs`, `src/error.rs`: names, namespaces, formats
  and errors.
- `src/model.rs`, `src/step.rs` and `src/walk.rs`: the model. `walk.rs` says what a walk over the
  shapes registers, refers to and refuses.
- `src/reach.rs`, `src/progress.rs` and `src/completion.rs`: every walk comes to an end, and what
  it keeps on the way. `src/completion/fields.rs`: what it adds for a field.
  `src/completion/again.rs`: what it does where it has been before.
- `src/completion/closure.rs`: when a walk leaves no reference without its container. The types of
  the table have to be regular (`completion::all_regular`): the definition of each agrees with its
  kind, a transparent struct or enum has a type behind it, and a type that no format describes,
  such as an opaque type or a union, is held by nothing but a field. And the types that were added
  before need to go by the names that the table gives them (`completion::well_named`).
- `src/laws.rs`: what holds of the reflection as a whole. Further laws stand with the definitions
  they need, under names that begin with `law_`.
- `app/`: reads the shapes that the `facet` crate gives a type into a table, and offers the
  builder for types that implement `facet::Facet`.

## What is taken on trust

- `regex`: whether a text is the identifier of a namespace (`src/identifier.rs`).
- The standard library: `str` equality and `String::push` (`src/text.rs`).
