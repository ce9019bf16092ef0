//! The builder of a registry.

mod enums;
mod reference;
mod registration;
mod structs;

use std::collections::BTreeMap;
use vstd::prelude::*;

use self::reference::Settled;
use crate::completion;
use crate::error::Error;
use crate::format::{ContainerFormat, Doc, Format, Named};
use crate::format::{FormatView, NamedView};
use crate::model;
use crate::model::{ClaimView, MappingView, State};
use crate::name_table;
use crate::name_table::NameTable;
use crate::names;
use crate::names::{NameView, QualifiedTypeName};
use crate::namespace;
use crate::namespace::{ContextView, NamespaceAction, NamespaceContext};
use crate::naming;
use crate::progress;
use crate::reach;
use crate::registry;
use crate::registry::Registry;
use crate::scalar;
use crate::shape;
use crate::shape::{Field, TypeTable};
use crate::step;
use crate::step::{Halt, Step};
use crate::walk;

verus! {

/// The Rust type that owns a generated name.
///
/// Two different Rust types can generate the same name, so the identity of the type that got
/// there first is kept alongside the name, both to recognise recursion back into the same type
/// and to name the offender when a second type claims the name.
#[derive(Debug, PartialEq, Eq)]
pub struct Claim {
    pub id: u64,
    pub rust_path: String,
}

impl View for Claim {
    type V = ClaimView;

    open spec fn view(&self) -> ClaimView {
        ClaimView { id: self.id, rust_path: self.rust_path@ }
    }
}

/// A recorded rename, together with the Rust type it applies to.
///
/// The key is the unrenamed name, which another type of the same name would also produce, so the
/// mapping is only applied to the type that registered it.
#[derive(Debug, PartialEq, Eq)]
pub struct Mapping {
    pub id: u64,
    pub renamed: QualifiedTypeName,
}

impl View for Mapping {
    type V = MappingView;

    open spec fn view(&self) -> MappingView {
        MappingView { id: self.id, renamed: self.renamed@ }
    }
}

/// Builds a registry from the shapes of types.
///
/// Types are added with [`add_type`](Self::add_type), which reflects the type and all types
/// reachable from its fields and variants. The builder tracks which types have been processed,
/// to avoid duplicates, and detects conflicts: a generic type used with different type
/// parameters, or two different Rust types that would generate the same name in the same
/// namespace.
#[derive(Debug)]
pub struct RegistryBuilder {
    pub registry: Registry,
    pub ledger: Ledger,
}

/// What a builder keeps beside the registry: what it is building, who owns the names that were
/// taken, and the names and contexts that it has met.
#[derive(Debug)]
pub struct Ledger {
    current: Vec<QualifiedTypeName>,
    processed: NameTable<Claim>,
    name_mappings: NameTable<Mapping>,
    generic_type_params: BTreeMap<u128, String>,
    namespace_context_stack: Vec<NamespaceContext>,
    type_namespace_sources: NameTable<bool>,
}

/// When a format is given to a container that has one.
#[derive(Debug, Clone, Copy, PartialEq, Eq, Structural)]
pub enum UpdateMode {
    /// Unconditionally.
    Force,
    /// Only if the current format is unknown.
    IfUnknown,
}

/// What each name of a sequence holds.
pub open spec fn names_view(names: Seq<QualifiedTypeName>) -> Seq<NameView> {
    names.map_values(|name: QualifiedTypeName| name@)
}

/// What each context of a sequence holds.
pub open spec fn contexts_view(contexts: Seq<NamespaceContext>) -> Seq<ContextView> {
    contexts.map_values(|context: NamespaceContext| context@)
}

/// The characters of each text of a map.
pub open spec fn texts_view(texts: Map<u128, String>) -> Map<u128, Seq<char>> {
    texts.map_values(|text: String| text@)
}

impl View for Ledger {
    type V = State;

    /// The state of a builder with this ledger and an empty registry.
    closed spec fn view(&self) -> State {
        State {
            registry: Map::empty(),
            current: names_view(self.current@),
            processed: self.processed@,
            name_mappings: self.name_mappings@,
            generic_type_params: texts_view(self.generic_type_params@),
            namespace_context_stack: contexts_view(self.namespace_context_stack@),
            type_namespace_sources: self.type_namespace_sources@,
        }
    }
}

impl Ledger {
    /// The tables of the ledger are in order.
    pub closed spec fn sound(self) -> bool {
        &&& self.processed.wf()
        &&& self.name_mappings.wf()
        &&& self.type_namespace_sources.wf()
    }
}

impl View for RegistryBuilder {
    type V = State;

    open spec fn view(&self) -> State {
        State { registry: self.registry@, ..self.ledger@ }
    }
}

impl Default for RegistryBuilder {
    fn default() -> (r: Self)
        ensures
            r.wf(),
            r@ == model::empty_state(),
    {
        RegistryBuilder::new()
    }
}

/// How a step ended, and the state it left if it succeeded.
pub open spec fn ends(r: Result<(), Halt>, step: Step<State>, after: State) -> bool {
    match r {
        Ok(_) => step == Step::Done(after),
        Err(h) => step::halts(step, h),
    }
}

impl RegistryBuilder {
    /// What holds of a builder whenever it can be given a type.
    pub open spec fn wf(self) -> bool {
        self.sound() && completion::at_rest(self@)
    }

    /// A builder that has not been given any type.
    #[must_use]
    pub fn new() -> (r: Self)
        ensures
            r.wf(),
            r@ == model::empty_state(),
    {
        let ledger = Ledger {
            current: Vec::new(),
            processed: NameTable::new(),
            name_mappings: NameTable::new(),
            generic_type_params: BTreeMap::new(),
            namespace_context_stack: Vec::new(),
            type_namespace_sources: NameTable::new(),
        };
        let r = RegistryBuilder { registry: NameTable::new(), ledger };
        assert(r@ =~= model::empty_state());
        r
    }

    /// Builds the registry from the current state.
    ///
    /// # Errors
    /// Returns an error if a container is not known in full, usually because of incomplete
    /// reflection, or if a reference names no container.
    pub fn build(self) -> (r: Result<Registry, Error>)
        requires
            self.registry.wf(),
        ensures
            match r {
                Ok(registry) => {
                    &&& registry.wf()
                    &&& registry@ == self.registry@
                    &&& registry::registry_error(self.registry@) is None
                    &&& registry::is_complete(registry@)
                    &&& registry::is_closed(registry@)
                },
                Err(e) => registry::registry_error(self.registry@) == Some(e@),
            },
    {
        registry::check_registry(&self.registry)?;
        proof {
            self.registry.lemma_finite();
            registry::law_registry_error(self.registry@);
        }
        Ok(self.registry)
    }

    /// Reflects the type at `shape` into the registry, with all the types reachable from its
    /// fields and variants.
    ///
    /// # Errors
    /// Returns an error if:
    /// * there is a problem building the registry,
    /// * non-special generic types are used with different type parameters,
    /// * there is an unsupported layout,
    /// * namespaces are conflicting,
    /// * namespaces have invalid names, or
    /// * attributes are malformed.
    pub fn add_type(self, types: &TypeTable, shape: usize) -> (r: Result<Self, Error>)
        requires
            self.wf(),
            types.wf(),
            shape < types@.len(),
            !(walk::reflected(types@, self@, shape as int) is Unsupported),
        ensures
            match r {
                Ok(builder) => {
                    &&& builder.wf()
                    &&& walk::reflected(types@, self@, shape as int) == Step::Done(builder@)
                    &&& progress::keeps(types@, self@, builder@)
                },
                Err(e) => walk::reflected(types@, self@, shape as int) == Step::<State>::Fail(e@),
            },
    {
        match self.add_shape(types, shape) {
            Ok(builder) => Ok(builder),
            Err(halt) => Err(halt.into_error()),
        }
    }

    /// [`add_type`](Self::add_type) for any type: one that no error describes is reported as
    /// [`Halt::Unsupported`].
    ///
    /// # Errors
    /// Returns an error where `add_type` does, and if the type, or one that it reaches, is
    /// unsupported.
    pub fn add_shape(self, types: &TypeTable, shape: usize) -> (r: Result<Self, Halt>)
        requires
            self.wf(),
            types.wf(),
            shape < types@.len(),
        ensures
            match r {
                Ok(builder) => {
                    &&& builder.wf()
                    &&& walk::reflected(types@, self@, shape as int) == Step::Done(builder@)
                    &&& progress::keeps(types@, self@, builder@)
                },
                Err(h) => step::halts(walk::reflected(types@, self@, shape as int), h),
            },
    {
        let mut builder = self;
        let ghost room = reach::candidates(types@).len();
        proof {
            completion::lemma_reflected(types@, self@, shape as int);
        }
        builder.format(types, shape, Ghost(room))?;
        Ok(builder)
    }

    /// The [`Format`] that a struct field of the type at `shape` would be given.
    ///
    /// This is the answer to "how do I refer to the type from generated code?", for authors of
    /// generators who need to emit a reference to a type that is not itself the container being
    /// emitted (for example the payload type of a generated method).
    ///
    /// - A named container (struct or enum) becomes [`Format::TypeName`] carrying its qualified
    ///   name, honouring renames, namespaces and transparent wrappers exactly as the registry
    ///   does.
    /// - `()` becomes [`Format::Unit`].
    /// - Options, sequences, maps, sets, arrays, tuples, smart pointers and primitives become
    ///   the corresponding structural [`Format`].
    ///
    /// The containers that the type reaches should have been added with
    /// [`add_type`](Self::add_type) first: renames applied while reflecting a container are
    /// recorded on the builder, and a type this builder has never seen is named from its own
    /// attributes alone.
    ///
    /// # Errors
    /// Returns an error if the type, or one reachable from it, cannot be reflected: for example
    /// an unsupported scalar.
    pub fn format_of(&self, types: &TypeTable, shape: usize) -> (r: Result<Format, Error>)
        requires
            self.wf(),
            types.wf(),
            shape < types@.len(),
            !(walk::settled_reference(types@, self@, shape as int) is Unsupported),
        ensures
            match r {
                Ok(format) => walk::settled_reference(types@, self@, shape as int) == Step::Done(
                    format@,
                ),
                Err(e) => walk::settled_reference(types@, self@, shape as int) == Step::<
                    FormatView,
                >::Fail(e@),
            },
    {
        match self.format_of_shape(types, shape) {
            Ok(format) => Ok(format),
            Err(halt) => Err(halt.into_error()),
        }
    }

    /// [`format_of`](Self::format_of) for any type: one that no error describes is reported as
    /// [`Halt::Unsupported`].
    ///
    /// # Errors
    /// Returns an error where `format_of` does, and if the type, or one that it reaches, is
    /// unsupported.
    pub fn format_of_shape(&self, types: &TypeTable, shape: usize) -> (r: Result<Format, Halt>)
        requires
            self.wf(),
            types.wf(),
            shape < types@.len(),
        ensures
            match r {
                Ok(format) => walk::settled_reference(types@, self@, shape as int) == Step::Done(
                    format@,
                ),
                Err(h) => step::halts(walk::settled_reference(types@, self@, shape as int), h),
            },
    {
        proof {
            progress::lemma_reference(types@, self@, shape as int, false);
        }
        reference::reference_format(types, shape, &mut Settled { builder: self })
    }

    /// The tables of the builder are in order.
    pub open spec fn sound(self) -> bool {
        &&& self.registry.wf()
        &&& self.ledger.sound()
    }

    fn push(&mut self, name: QualifiedTypeName, container: ContainerFormat)
        requires
            old(self).sound(),
        ensures
            final(self).sound(),
            final(self)@ == model::start(old(self)@, name@, container@),
    {
        self.registry.insert(name.clone(), container);
        self.ledger.current.push(name);
        assert(self@ =~= model::start(old(self)@, name@, container@));
    }

    fn push_with_type_check(
        &mut self,
        types: &TypeTable,
        name: QualifiedTypeName,
        container: ContainerFormat,
        i: usize,
    ) -> (r: Result<(), Halt>)
        requires
            old(self).sound(),
            i < types@.len(),
        ensures
            final(self).sound(),
            ends(r, model::start_met(types@, old(self)@, name@, container@, i as int), final(self)@),
    {
        let is_explicit = match namespace::extract_namespace_from_shape(types.get(i)) {
            Ok(action) => action.is_explicit(),
            Err(e) => {
                return Err(Halt::Error(e));
            },
        };
        // A name in several namespaces, at least one of them inherited, is a conflict.
        self.check_namespace_ambiguity(&name, is_explicit)?;
        self.push(name, container);
        Ok(())
    }

    fn register_type_mapping(
        &mut self,
        types: &TypeTable,
        original: QualifiedTypeName,
        renamed: QualifiedTypeName,
        i: usize,
    )
        requires
            old(self).sound(),
            types.wf(),
            i < types@.len(),
        ensures
            final(self).sound(),
            final(self)@ == (State {
                name_mappings: old(self)@.name_mappings.insert(
                    original@,
                    MappingView {
                        id: types@[naming::generated(types@, i as int)].id,
                        renamed: renamed@,
                    },
                ),
                ..old(self)@
            }),
    {
        let id = types.get(naming::generated_shape(types, i)).id;
        self.ledger.name_mappings.insert(original, Mapping { id, renamed });
    }

    /// Claims a generated name for a Rust type.
    ///
    /// Returns `Ok(true)` if this type already holds the name (the recursion case, where the
    /// caller should stop rather than descend again) and `Ok(false)` once the claim is recorded
    /// for the first time. A different Rust type already holding the name is a conflict, because
    /// only one of them can be generated under it.
    fn claim(&mut self, types: &TypeTable, name: &QualifiedTypeName, i: usize) -> (r: Result<
        bool,
        Halt,
    >)
        requires
            old(self).sound(),
            types.wf(),
            i < types@.len(),
        ensures
            final(self).sound(),
            match r {
                Ok(b) => {
                    &&& model::owns(types@, old(self)@, name@, i as int) == Step::Done(b)
                    &&& final(self)@ == if b {
                        old(self)@
                    } else {
                        model::take_name(types@, old(self)@, name@, i as int)
                    }
                },
                Err(h) => {
                    &&& step::halts(model::owns(types@, old(self)@, name@, i as int), h)
                    &&& final(self)@ == old(self)@
                },
            },
    {
        if self.is_claimed_by(types, name, i)? {
            return Ok(true);
        }
        self.record_claim(types, name.clone(), i);
        Ok(false)
    }

    /// Whether the type at `i` already holds `name`; an error if a different Rust type does.
    fn is_claimed_by(&self, types: &TypeTable, name: &QualifiedTypeName, i: usize) -> (r: Result<
        bool,
        Halt,
    >)
        requires
            self.sound(),
            types.wf(),
            i < types@.len(),
        ensures
            match r {
                Ok(b) => model::owns(types@, self@, name@, i as int) == Step::Done(b),
                Err(h) => step::halts(model::owns(types@, self@, name@, i as int), h),
            },
    {
        let shape = types.get(naming::generated_shape(types, i));
        match self.ledger.processed.get(name) {
            None => Ok(false),
            Some(claim) => {
                if claim.id == shape.id {
                    Ok(true)
                } else {
                    Err(
                        Halt::Error(
                            Error::DuplicateTypeName {
                                name: name.name.clone(),
                                namespace: name.namespace.to_text(),
                                existing: claim.rust_path.clone(),
                                new: naming::rust_path(shape),
                            },
                        ),
                    )
                }
            },
        }
    }

    fn record_claim(&mut self, types: &TypeTable, name: QualifiedTypeName, i: usize)
        requires
            old(self).sound(),
            types.wf(),
            i < types@.len(),
        ensures
            final(self).sound(),
            final(self)@ == model::take_name(types@, old(self)@, name@, i as int),
    {
        let shape = types.get(naming::generated_shape(types, i));
        self.ledger.processed.insert(
            name,
            Claim { id: shape.id, rust_path: naming::rust_path(shape) },
        );
    }

    fn pop(&mut self)
        requires
            old(self).sound(),
        ensures
            final(self).sound(),
            final(self)@ == model::finish(old(self)@),
    {
        let popped = self.ledger.current.pop();
        assert(self@ =~= model::finish(old(self)@));
    }

    /// The container being built.
    fn get_mut(&mut self) -> (r: Option<&mut ContainerFormat>)
        requires
            old(self).sound(),
        ensures
            match r {
                Some(container) => {
                    &&& model::innermost(old(self)@) == Some(container@)
                    &&& final(self).sound()
                    &&& final(self)@ == model::rebuild(old(self)@, (*final(container))@)
                },
                None => {
                    &&& model::innermost(old(self)@) is None
                    &&& *final(self) == *old(self)
                },
            },
    {
        let depth = self.ledger.current.len();
        if depth > 0 {
            assert(self@.current.last() == self.ledger.current@[depth - 1]@);
            self.registry.get_mut(&self.ledger.current[depth - 1])
        } else {
            None
        }
    }

    /// Pushes a namespace action onto the stack; something is always pushed.
    fn push_namespace(&mut self, action: NamespaceAction)
        requires
            old(self).sound(),
        ensures
            final(self).sound(),
            final(self)@ == model::enter(old(self)@, action@),
    {
        let context = match action {
            NamespaceAction::SetContext(context) => context,
            NamespaceAction::Inherit => {
                let depth = self.ledger.namespace_context_stack.len();
                if depth > 0 {
                    self.ledger.namespace_context_stack[depth - 1].clone()
                } else {
                    NamespaceContext::cleared()
                }
            },
        };
        self.ledger.namespace_context_stack.push(context);
        assert(self@ =~= model::enter(old(self)@, action@));
    }

    /// Pops the current namespace context from the stack.
    fn pop_namespace(&mut self)
        requires
            old(self).sound(),
        ensures
            final(self).sound(),
            final(self)@ == model::leave(old(self)@),
    {
        let popped = self.ledger.namespace_context_stack.pop();
        assert(self@ =~= model::leave(old(self)@));
    }

    /// The current namespace context; none where it was cleared.
    fn current_namespace_context(&self) -> (r: Option<&NamespaceContext>)
        ensures
            match (r, model::context(self@)) {
                (Some(a), Some(b)) => a@ == b,
                (None, None) => true,
                _ => false,
            },
    {
        let depth = self.ledger.namespace_context_stack.len();
        if depth > 0 {
            let context = &self.ledger.namespace_context_stack[depth - 1];
            assert(self@.namespace_context_stack.last() == context@);
            if !context.is_cleared() {
                return Some(context);
            }
        }
        None
    }

    /// Records the name, unless a recorded one stands in its way: the same name in another
    /// namespace, where at least one of the two namespaces is inherited.
    fn check_namespace_ambiguity(
        &mut self,
        new_name: &QualifiedTypeName,
        new_has_explicit_namespace: bool,
    ) -> (r: Result<(), Halt>)
        requires
            old(self).sound(),
        ensures
            final(self).sound(),
            ends(
                r,
                model::meet_name(old(self)@, new_name@, new_has_explicit_namespace),
                final(self)@,
            ),
            r is Err ==> final(self)@ == old(self)@,
    {
        let ghost sources = self.ledger.type_namespace_sources@;
        let ghost blocked = model::in_the_way(sources, new_name@, new_has_explicit_namespace);
        let ghost before = *self;
        let count = self.ledger.type_namespace_sources.len();
        for k in 0..count
            invariant
                count == self.ledger.type_namespace_sources.names().len(),
                *self == before,
                self.sound(),
                sources == self@.type_namespace_sources,
                sources == self.ledger.type_namespace_sources@,
                blocked == model::in_the_way(sources, new_name@, new_has_explicit_namespace),
                forall|j: int|
                    0 <= j < k ==> !blocked(#[trigger] self.ledger.type_namespace_sources.names()[j]),
        {
            let known = self.ledger.type_namespace_sources.name_at(k);
            let known_explicit = self.ledger.type_namespace_sources.value_at(k);
            if known.name == new_name.name && !known.namespace.same_as(&new_name.namespace)
                && !known.namespace.is_root() && !new_name.namespace.is_root() && (
            !new_has_explicit_namespace || !*known_explicit) {
                proof {
                    assert(blocked(known@));
                    self.ledger.type_namespace_sources.lemma_first_entry(blocked, k as int);
                    let first = choose|f: NameView|
                        name_table::is_first(sources.dom(), blocked, f);
                    name_table::lemma_first_is_unique(sources.dom(), blocked, known@, first);
                }
                return Err(
                    Halt::Error(
                        Error::AmbiguousNamespaceInheritance {
                            container: new_name.name.clone(),
                            existing_namespace: known.namespace.to_text(),
                            new_namespace: new_name.namespace.to_text(),
                        },
                    ),
                );
            }
            assert(!blocked(known@));
        }
        proof {
            self.ledger.type_namespace_sources.lemma_no_first(blocked);
        }
        self.ledger.type_namespace_sources.insert(new_name.clone(), new_has_explicit_namespace);
        Ok(())
    }

    /// Gives the container being built its next format.
    fn update_container_format(&mut self, format: Format, mode: UpdateMode) -> (r: Result<
        (),
        Halt,
    >)
        requires
            old(self).sound(),
        ensures
            final(self).sound(),
            ends(r, model::supply(old(self)@, format@, mode is Force), final(self)@),
    {
        let ghost before = self@;
        if let Some(container) = self.get_mut() {
            let ghost start = container@;
            assert(model::rebuild(before, start) =~= before);
            match container {
                ContainerFormat::UnitStruct(_) => {},
                ContainerFormat::NewTypeStruct(inner, _) => match mode {
                    UpdateMode::Force => {
                        **inner = format;
                    },
                    UpdateMode::IfUnknown => {
                        if inner.is_unknown() {
                            **inner = format;
                        }
                    },
                },
                ContainerFormat::TupleStruct(formats, _) => {
                    let ghost known = formats@;
                    formats.push(format);
                    proof {
                        lemma_formats_push(known, format);
                    }
                },
                ContainerFormat::Struct(fields, _) => {
                    let count = fields.len();
                    let ghost known = fields@;
                    // The format of a field is set once, whatever the mode.
                    if count > 0 && fields[count - 1].value.is_unknown() {
                        fields[count - 1].value = format;
                        assert(crate::format::fields_view(fields@)
                            =~= crate::format::fields_view(known).update(
                            count - 1,
                            NamedView {
                                value: format@,
                                ..crate::format::fields_view(known).last()
                            },
                        ));
                    }
                },
                ContainerFormat::Enum(_, _, _) => {
                    if let UpdateMode::Force = mode {
                        return Err(Halt::Unsupported);
                    }
                },
            }
        }
        Ok(())
    }

    /// Gives the struct being built its next field.
    fn push_field(&mut self, field: Named<Format>)
        requires
            old(self).sound(),
        ensures
            final(self).sound(),
            final(self)@ == model::add_field(old(self)@, field@),
    {
        let ghost before = self@;
        if let Some(container) = self.get_mut() {
            assert(model::rebuild(before, container@) =~= before);
            if let ContainerFormat::Struct(fields, _) = container {
                let ghost known = fields@;
                fields.push(field);
                assert(crate::format::fields_view(fields@) =~= crate::format::fields_view(
                    known,
                ).push(field@));
            }
        }
    }

    /// Gives the container being built a field that is annotated to be a byte string; `false` if
    /// the annotation does not apply.
    fn try_handle_bytes_attribute(&mut self, types: &TypeTable, field: &Field) -> (r: Result<
        bool,
        Halt,
    >)
        requires
            old(self).sound(),
            types.wf(),
            field.shape < types@.len(),
        ensures
            final(self).sound(),
            match r {
                Ok(b) => model::supply_bytes(types@, old(self)@, *field) == Step::Done(
                    (final(self)@, b),
                ),
                Err(h) => step::halts(model::supply_bytes(types@, old(self)@, *field), h),
            },
    {
        let ghost before = self@;
        let value = match scalar::bytes_attribute_format(types, field)? {
            Some(value) => value,
            None => {
                return Ok(false);
            },
        };
        let doc = Doc::of(&types.get(field.shape).doc);
        let name = naming::field_display_name(field);
        if let Some(container) = self.get_mut() {
            assert(model::rebuild(before, container@) =~= before);
            match container {
                ContainerFormat::NewTypeStruct(format, _) => {
                    **format = value;
                    return Ok(true);
                },
                ContainerFormat::TupleStruct(formats, _) => {
                    let ghost known = formats@;
                    formats.push(value);
                    proof {
                        lemma_formats_push(known, value);
                    }
                    return Ok(true);
                },
                ContainerFormat::Struct(fields, _) => {
                    let ghost known = fields@;
                    let named = Named { name, doc, value };
                    fields.push(named);
                    assert(crate::format::fields_view(fields@) =~= crate::format::fields_view(
                        known,
                    ).push(named@));
                    return Ok(true);
                },
                _ => {},
            }
        }
        Ok(false)
    }

    /// Turns the struct being built into a unit struct if it was given no fields.
    fn settle_struct(&mut self)
        requires
            old(self).sound(),
        ensures
            final(self).sound(),
            final(self)@ == model::settle_struct(old(self)@),
    {
        let ghost before = self@;
        if let Some(container) = self.get_mut() {
            assert(model::rebuild(before, container@) =~= before);
            let unit = match container {
                ContainerFormat::Struct(fields, doc) => if fields.len() == 0 {
                    Some(ContainerFormat::UnitStruct(doc.copy()))
                } else {
                    None
                },
                _ => None,
            };
            if let Some(unit) = unit {
                *container = unit;
            }
        }
    }
}

/// What a sequence of formats holds once another one is added.
proof fn lemma_formats_push(formats: Seq<Format>, format: Format)
    ensures
        crate::format::formats_view(formats.push(format)) == crate::format::formats_view(
            formats,
        ).push(format@),
{
    broadcast use crate::format::lemma_formats_view;

    assert(crate::format::formats_view(formats.push(format)) =~= crate::format::formats_view(
        formats,
    ).push(format@));
}

} // verus!
