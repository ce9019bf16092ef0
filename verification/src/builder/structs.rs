//! The containers of structs, and their fields.

use vstd::prelude::*;

use super::{ends, RegistryBuilder, UpdateMode};
use crate::format::{ContainerFormat, ContainerView, Doc, Format, FormatView, Named};
use crate::model;
use crate::model::State;
use crate::names::{Namespace, QualifiedTypeName};
use crate::namespace;
use crate::namespace::{NamespaceAction, NamespaceContext};
use crate::naming;
use crate::shape;
use crate::shape::{Def, Field, StructKind, StructType, Type, TypeTable, UserType};
use crate::step;
use crate::step::{Halt, Step};
use crate::walk;
use crate::walk::Inside;

verus! {

/// How finding the format of a field ended, and the state it left if it succeeded.
pub open spec fn valued(
    r: Result<Option<Format>, Halt>,
    outcome: Step<(State, Option<FormatView>)>,
    after: State,
) -> bool {
    match (r, outcome) {
        (Ok(Some(a)), Step::Done((s, Some(b)))) => s == after && a@ == b,
        (Ok(None), Step::Done((s, None))) => s == after,
        (Err(h), _) => step::halts(outcome, h),
        _ => false,
    }
}

/// A field with its own name and documentation.
pub(crate) fn named_field(field: &Field, value: Format) -> (r: Named<Format>)
    ensures
        r@ == model::named_field(*field, value@),
{
    Named { name: naming::field_display_name(field), doc: Doc::of(&field.doc), value }
}

/// The type that a field holds optionally, if it is an `Option`.
pub(crate) fn option_of(types: &TypeTable, field: &Field) -> (r: Option<usize>)
    requires
        types.wf(),
        field.shape < types@.len(),
    ensures
        match (r, walk::option_of(types@, *field)) {
            (Some(t), Some(u)) => t == u && t < types@.len(),
            (None, None) => true,
            _ => false,
        },
{
    let shape = types.get(field.shape);
    assert(shape::shape_wf(types@, field.shape as int));
    if let Def::Option(t) = shape.def {
        if *shape.type_identifier.as_str() == *"Option" {
            return Some(t);
        }
    }
    None
}

/// What stands for the type of a field that holds an anonymous tuple or a transparent newtype.
fn tuple_field_of(types: &TypeTable, field: &Field) -> (r: Option<Inside>)
    requires
        types.wf(),
        field.shape < types@.len(),
    ensures
        r == walk::tuple_field_of(types@, *field),
        r matches Some(Inside::Wrapper(t)) ==> t < types@.len(),
{
    let shape = types.get(field.shape);
    assert(shape::shape_wf(types@, field.shape as int));
    if let Type::User(UserType::Struct(inner_struct)) = &shape.ty {
        if inner_struct.kind == StructKind::Tuple {
            return Some(Inside::Tuple);
        }
        if inner_struct.kind == StructKind::TupleStruct && inner_struct.fields.len() == 1
            && shape::is_transparent_shape(shape) {
            return Some(Inside::Wrapper(inner_struct.fields[0].shape));
        }
    }
    None
}

impl RegistryBuilder {
    /// Names the container at `j` and takes the name; `None` if the type owned it already: the
    /// recursion case, where the reference to the container has been made and there is nothing
    /// left to do.
    pub(crate) fn open_container(&mut self, types: &TypeTable, j: usize) -> (r: Result<
        Option<QualifiedTypeName>,
        Halt,
    >)
        requires
            old(self).sound(),
            types.wf(),
            j < types@.len(),
        ensures
            final(self).sound(),
            match (r, walk::open_container(types@, old(self)@, j as int)) {
                (Ok(Some(name)), Step::Done((s, Some(n)))) => s == final(self)@ && n == name@,
                (Ok(None), Step::Done((s, None))) => s == final(self)@,
                (Err(h), outcome) => step::halts(outcome, h),
                _ => false,
            },
    {
        let name = self.get_name_with_mappings(types, j)?;
        if self.claim(types, &name, j)? {
            return Ok(None);
        }
        // Record the rename, if there is one.
        let shape = types.get(j);
        if name.name != shape.type_identifier {
            let original = QualifiedTypeName {
                namespace: name.namespace.clone(),
                name: shape.type_identifier.clone(),
            };
            self.register_type_mapping(types, original, name.clone(), j);
        }
        match namespace::extract_namespace_from_shape(shape) {
            Ok(action) => {
                self.push_namespace(action);
                Ok(Some(name))
            },
            Err(e) => Err(Halt::Error(e)),
        }
    }

    /// Registers a struct. Whatever refers to it has already been given its reference.
    pub(crate) fn format_struct(
        &mut self,
        types: &TypeTable,
        struct_type: &StructType,
        j: usize,
        Ghost(room): Ghost<nat>,
    ) -> (r: Result<(), Halt>)
        requires
            old(self).sound(),
            types.wf(),
            j < types@.len(),
            types@[j as int].ty == Type::User(UserType::Struct(*struct_type)),
            !(walk::format_struct(types@, old(self)@, j as int, room) is Stuck),
        ensures
            final(self).sound(),
            ends(r, walk::format_struct(types@, old(self)@, j as int, room), final(self)@),
        decreases room, j, 4int,
    {
        assert(shape::shape_wf(types@, j as int));
        // Anonymous tuples all arrive here under one shared name. No container is built for a
        // tuple, so only its elements are registered.
        if struct_type.kind == StructKind::Tuple {
            return self.register_tuple(types, &struct_type.fields, j, Ghost(room));
        }
        let struct_name = match self.open_container(types, j)? {
            Some(name) => name,
            None => {
                return Ok(());
            },
        };
        self.build_struct(types, struct_name, struct_type, j, Ghost((room - 1) as nat))?;
        self.pop_namespace();
        Ok(())
    }

    /// Registers the elements of an anonymous tuple.
    fn register_tuple(
        &mut self,
        types: &TypeTable,
        fields: &Vec<Field>,
        j: usize,
        Ghost(room): Ghost<nat>,
    ) -> (r: Result<(), Halt>)
        requires
            old(self).sound(),
            types.wf(),
            j < types@.len(),
            shape::fields_below(fields@, j as int),
            !(walk::format_tuple(types@, old(self)@, fields@, j as int, room) is Stuck),
        ensures
            final(self).sound(),
            ends(r, walk::format_tuple(types@, old(self)@, fields@, j as int, room), final(self)@),
        decreases room, j, 3int,
    {
        let mut current = Vec::new();
        std::mem::swap(&mut current, &mut self.ledger.current);
        assert(self@ =~= State { current: Seq::empty(), ..old(self)@ });
        let result = self.register_fields(types, fields, j, Ghost(room));
        self.ledger.current = current;
        result
    }

    /// Builds the container of a struct.
    fn build_struct(
        &mut self,
        types: &TypeTable,
        struct_name: QualifiedTypeName,
        struct_type: &StructType,
        j: usize,
        Ghost(room): Ghost<nat>,
    ) -> (r: Result<(), Halt>)
        requires
            old(self).sound(),
            types.wf(),
            j < types@.len(),
            types@[j as int].ty == Type::User(UserType::Struct(*struct_type)),
            !(walk::struct_body(
                types@,
                old(self)@,
                struct_name@,
                struct_type.kind,
                struct_type.fields@,
                j as int,
                room,
            ) is Stuck),
        ensures
            final(self).sound(),
            ends(
                r,
                walk::struct_body(
                    types@,
                    old(self)@,
                    struct_name@,
                    struct_type.kind,
                    struct_type.fields@,
                    j as int,
                    room,
                ),
                final(self)@,
            ),
        decreases room, types@.len() + 4, 0int,
    {
        let shape = types.get(j);
        assert(shape::shape_wf(types@, j as int));
        let doc = Doc::of(&shape.doc);
        let fields = &struct_type.fields;
        match struct_type.kind {
            StructKind::Unit => {
                let container = ContainerFormat::UnitStruct(doc);
                self.push_with_type_check(types, struct_name, container, j)?;
                self.pop();
            },
            StructKind::TupleStruct => {
                if fields.len() == 1 {
                    if shape::is_transparent_shape(shape) {
                        // No container is built for a transparent struct: the inner type is
                        // reflected in its place.
                        if !self.try_handle_bytes_attribute(types, &fields[0])? {
                            self.format(types, fields[0].shape, Ghost(room))?;
                        }
                        return Ok(());
                    }
                    let unknown = Format::Variable;
                    assert(unknown@ == FormatView::Variable);
                    let container = ContainerFormat::NewTypeStruct(Box::new(unknown), doc);
                    self.push_with_type_check(types, struct_name, container, j)?;
                    self.handle_positional_field(types, &fields[0], Ghost(room))?;
                } else {
                    let container = ContainerFormat::TupleStruct(Vec::new(), doc);
                    assert(container@ =~= ContainerView::TupleStruct(Seq::empty(), doc@)) by {
                        broadcast use crate::format::lemma_formats_view;

                        assert(crate::format::formats_view(Seq::empty()) =~= Seq::empty());
                    }
                    self.push_with_type_check(types, struct_name, container, j)?;
                    self.handle_positional_fields(types, fields, Ghost(room))?;
                }
                self.pop();
            },
            StructKind::Struct => {
                let container = ContainerFormat::Struct(Vec::new(), doc);
                assert(crate::format::fields_view(Seq::empty()) =~= Seq::empty());
                self.push_with_type_check(types, struct_name, container, j)?;
                self.handle_struct_fields(types, fields, Ghost(room))?;
                self.settle_struct();
                self.pop();
            },
            // Anonymous tuples have no container.
            StructKind::Tuple => {},
        }
        Ok(())
    }

    /// Gives the newtype or tuple being built its next field.
    fn handle_positional_field(
        &mut self,
        types: &TypeTable,
        field: &Field,
        Ghost(room): Ghost<nat>,
    ) -> (r: Result<(), Halt>)
        requires
            old(self).sound(),
            types.wf(),
            field.shape < types@.len(),
            !(walk::positional_field(types@, old(self)@, *field, room) is Stuck),
        ensures
            final(self).sound(),
            ends(r, walk::positional_field(types@, old(self)@, *field, room), final(self)@),
        decreases room, types@.len() + 2, 0int,
    {
        if self.try_handle_bytes_attribute(types, field)? {
            return Ok(());
        }
        self.push_positional_field(types, field.shape, Ghost(room))
    }

    fn handle_positional_fields(
        &mut self,
        types: &TypeTable,
        fields: &Vec<Field>,
        Ghost(room): Ghost<nat>,
    ) -> (r: Result<(), Halt>)
        requires
            old(self).sound(),
            types.wf(),
            shape::fields_below(fields@, types@.len() as int),
            !(walk::positional_fields(types@, old(self)@, fields@, 0, room) is Stuck),
        ensures
            final(self).sound(),
            ends(r, walk::positional_fields(types@, old(self)@, fields@, 0, room), final(self)@),
        decreases room, types@.len() + 3, 0int,
    {
        let ghost total = walk::positional_fields(types@, self@, fields@, 0, room);
        for k in 0..fields.len()
            invariant
                self.sound(),
                types.wf(),
                shape::fields_below(fields@, types@.len() as int),
                !(total is Stuck),
                total == walk::positional_fields(types@, old(self)@, fields@, 0, room),
                total == walk::positional_fields(types@, self@, fields@, k as int, room),
        {
            if !fields[k].skip {
                self.handle_positional_field(types, &fields[k], Ghost(room))?;
            }
        }
        Ok(())
    }

    /// Registers the types that the next field of the newtype or tuple struct being built
    /// reaches, and gives the struct that field.
    ///
    /// A field whose type cannot be reflected is left out: a newtype keeps its unknown format,
    /// which [`build`](Self::build) reports.
    pub(crate) fn push_positional_field(
        &mut self,
        types: &TypeTable,
        i: usize,
        Ghost(room): Ghost<nat>,
    ) -> (r: Result<(), Halt>)
        requires
            old(self).sound(),
            types.wf(),
            i < types@.len(),
            !(walk::positional(types@, old(self)@, i as int, room) is Stuck),
        ensures
            final(self).sound(),
            ends(r, walk::positional(types@, old(self)@, i as int, room), final(self)@),
        decreases room, i, 9int,
    {
        match self.get_user_type_format(types, i)? {
            Some(referred) => {
                let format = self.settle_reference(types, i, referred, Ghost(room))?;
                self.update_container_format(format, UpdateMode::Force)
            },
            None => self.process_nested_types(types, i, Ghost(room)),
        }
    }

    fn handle_struct_fields(
        &mut self,
        types: &TypeTable,
        fields: &Vec<Field>,
        Ghost(room): Ghost<nat>,
    ) -> (r: Result<(), Halt>)
        requires
            old(self).sound(),
            types.wf(),
            shape::fields_below(fields@, types@.len() as int),
            !(walk::struct_fields(types@, old(self)@, fields@, 0, room) is Stuck),
        ensures
            final(self).sound(),
            ends(r, walk::struct_fields(types@, old(self)@, fields@, 0, room), final(self)@),
        decreases room, types@.len() + 3, 0int,
    {
        let ghost total = walk::struct_fields(types@, self@, fields@, 0, room);
        for k in 0..fields.len()
            invariant
                self.sound(),
                types.wf(),
                shape::fields_below(fields@, types@.len() as int),
                !(total is Stuck),
                total == walk::struct_fields(types@, old(self)@, fields@, 0, room),
                total == walk::struct_fields(types@, self@, fields@, k as int, room),
        {
            if !fields[k].skip {
                self.handle_struct_field(types, &fields[k], Ghost(room))?;
            }
        }
        Ok(())
    }

    fn handle_struct_field(&mut self, types: &TypeTable, field: &Field, Ghost(room): Ghost<nat>) -> (r:
        Result<(), Halt>)
        requires
            old(self).sound(),
            types.wf(),
            field.shape < types@.len(),
            !(walk::struct_field(types@, old(self)@, *field, room) is Stuck),
        ensures
            final(self).sound(),
            ends(r, walk::struct_field(types@, old(self)@, *field, room), final(self)@),
        decreases room, types@.len() + 2, 0int,
    {
        if self.try_handle_bytes_attribute(types, field)? {
            return Ok(());
        }
        if let Some(t) = option_of(types, field) {
            return self.handle_option_field(types, field, t, Ghost(room));
        }
        if let Some(inside) = tuple_field_of(types, field) {
            return self.handle_tuple_struct_field(types, field, inside, Ghost(room));
        }
        let action = match namespace::extract_namespace_from_field_attributes(field) {
            Ok(action) => action,
            Err(e) => {
                return Err(Halt::Error(e));
            },
        };
        self.push_namespace(action.clone());
        assert(walk::plain_field(types@, old(self)@, *field, room) == match walk::field_value(
            types@,
            self@,
            *field,
            action@,
            room,
        ) {
            Step::Done((s, Some(value))) => Step::Done(
                model::add_field(s, model::named_field(*field, value)),
            ),
            Step::Done((s, None)) => Step::Done(s),
            other => model::pass(other),
        });
        if let Some(value) = self.field_value(types, field, &action, Ghost(room))? {
            self.push_field(named_field(field, value));
        }
        Ok(())
    }

    /// Gives the struct being built a field that holds an `Option` of the type at `t`.
    fn handle_option_field(
        &mut self,
        types: &TypeTable,
        field: &Field,
        t: usize,
        Ghost(room): Ghost<nat>,
    ) -> (r: Result<(), Halt>)
        requires
            old(self).sound(),
            types.wf(),
            t < types@.len(),
            !(walk::option_field(types@, old(self)@, *field, t as int, room) is Stuck),
        ensures
            final(self).sound(),
            ends(r, walk::option_field(types@, old(self)@, *field, t as int, room), final(self)@),
        decreases room, types@.len() + 1, 0int,
    {
        let referred = self.reference_to(types, t)?;
        let inner_format = self.settle_reference(types, t, referred, Ghost(room))?;
        let option_format = Format::Option(Box::new(inner_format));
        self.push_field(named_field(field, option_format));
        Ok(())
    }

    /// Gives the struct being built a field that holds an anonymous tuple or a transparent
    /// newtype.
    fn handle_tuple_struct_field(
        &mut self,
        types: &TypeTable,
        field: &Field,
        inside: Inside,
        Ghost(room): Ghost<nat>,
    ) -> (r: Result<(), Halt>)
        requires
            old(self).sound(),
            types.wf(),
            field.shape < types@.len(),
            inside matches Inside::Wrapper(t) ==> t < types@.len(),
            !(walk::tuple_field(types@, old(self)@, *field, inside, room) is Stuck),
        ensures
            final(self).sound(),
            ends(r, walk::tuple_field(types@, old(self)@, *field, inside, room), final(self)@),
        decreases room, types@.len() + 1, 0int,
    {
        match inside {
            Inside::Tuple => {
                let referred = self.reference_to(types, field.shape)?;
                let tuple_format = self.settle_reference(
                    types,
                    field.shape,
                    referred,
                    Ghost(room),
                )?;
                self.push_field(named_field(field, tuple_format));
                Ok(())
            },
            Inside::Wrapper(t) => {
                // Both the reference and the registration are made under the namespace context
                // of the transparent struct, so that they agree.
                match namespace::extract_namespace_from_shape(types.get(field.shape)) {
                    Ok(action) => {
                        self.push_namespace(action);
                    },
                    Err(e) => {
                        return Err(Halt::Error(e));
                    },
                }
                let referred = self.reference_to(types, t)?;
                let inner_format = self.settle_reference(types, t, referred, Ghost(room))?;
                self.pop_namespace();
                self.push_field(named_field(field, inner_format));
                Ok(())
            },
        }
    }

    /// The format of a field whose namespace context is in force, if it has one. Its type is
    /// reflected, and the context is left.
    pub(crate) fn field_value(
        &mut self,
        types: &TypeTable,
        field: &Field,
        action: &NamespaceAction,
        Ghost(room): Ghost<nat>,
    ) -> (r: Result<Option<Format>, Halt>)
        requires
            old(self).sound(),
            types.wf(),
            field.shape < types@.len(),
            !(walk::field_value(types@, old(self)@, *field, action@, room) is Stuck),
        ensures
            final(self).sound(),
            valued(r, walk::field_value(types@, old(self)@, *field, action@, room), final(self)@),
        decreases room, types@.len() + 1, 0int,
    {
        let referred = match self.get_user_type_format(types, field.shape)? {
            Some(format) => format,
            None => {
                // A field without a format is skipped.
                self.pop_namespace();
                return Ok(None);
            },
        };
        self.format_field_type(types, field.shape, action, Ghost(room))?;
        let field_format = self.standing_format(types, field.shape, referred);
        self.pop_namespace();
        Ok(Some(field_format))
    }

    /// Reflects the type of a field, in the namespace that the field names if it names one.
    fn format_field_type(
        &mut self,
        types: &TypeTable,
        i: usize,
        action: &NamespaceAction,
        Ghost(room): Ghost<nat>,
    ) -> (r: Result<(), Halt>)
        requires
            old(self).sound(),
            types.wf(),
            i < types@.len(),
            !(walk::field_type(types@, old(self)@, i as int, action@, room) is Stuck),
        ensures
            final(self).sound(),
            ends(r, walk::field_type(types@, old(self)@, i as int, action@, room), final(self)@),
        decreases room, i, 7int,
    {
        if let NamespaceAction::SetContext(context) = action {
            if context.is_explicit() {
                if let Namespace::Named(name) = &context.namespace {
                    return self.format_with_namespace_override(types, i, name, Ghost(room));
                }
            }
        }
        self.format(types, i, Ghost(room))
    }

    fn format_with_namespace_override(
        &mut self,
        types: &TypeTable,
        i: usize,
        namespace: &String,
        Ghost(room): Ghost<nat>,
    ) -> (r: Result<(), Halt>)
        requires
            old(self).sound(),
            types.wf(),
            i < types@.len(),
            !(walk::format_in(types@, old(self)@, i as int, namespace@, room) is Stuck),
        ensures
            final(self).sound(),
            ends(r, walk::format_in(types@, old(self)@, i as int, namespace@, room), final(self)@),
        decreases room, i, 6int,
    {
        // The name may already be taken: by this same type, in which case there is nothing left
        // to do, or by a different one, which is a conflict.
        if self.stands_in(types, i, namespace)? {
            return Ok(());
        }
        // Reflect the type with the namespace context, so that nested types inherit it.
        let context = NamespaceContext::explicit(Namespace::Named(namespace.clone()));
        self.push_namespace(NamespaceAction::SetContext(context));
        self.format(types, i, Ghost(room))?;
        self.pop_namespace();
        // The field sets the namespace of the type, so it counts as set explicitly.
        self.get_name_with_mappings(types, i)?;
        Ok(())
    }

    /// Whether the type at `i` already holds its generated name in the namespace; an error if a
    /// different Rust type does.
    fn stands_in(&self, types: &TypeTable, i: usize, namespace: &String) -> (r: Result<bool, Halt>)
        requires
            self.sound(),
            types.wf(),
            i < types@.len(),
        ensures
            match r {
                Ok(b) => walk::stands_in(types@, self@, i as int, namespace@) == Step::Done(b),
                Err(h) => step::halts(walk::stands_in(types@, self@, i as int, namespace@), h),
            },
    {
        let k = naming::generated_shape(types, i);
        let shape = types.get(k);
        if self.recorded_rename(types, k).is_some() {
            return Ok(false);
        }
        let own = match naming::get_name(types, k) {
            Ok(name) => name,
            Err(_) => {
                return Ok(false);
            },
        };
        let action = match namespace::extract_namespace_from_shape(shape) {
            Ok(action) => action,
            Err(_) => {
                return Ok(false);
            },
        };
        // A type that is annotated with another namespace does not stand in this one.
        let may_move = action.should_move_to_namespace(namespace.as_str());
        let name = if action.is_explicit() && may_move {
            own
        } else {
            QualifiedTypeName::namespaced(namespace.clone(), own.name)
        };
        let owned = self.is_claimed_by(types, &name, k)?;
        Ok(owned && shape::is_container_shape(shape) && may_move)
    }
}

} // verus!
