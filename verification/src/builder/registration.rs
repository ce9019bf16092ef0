//! The registration of types and of everything they reach.

use vstd::prelude::*;

use super::{ends, RegistryBuilder, UpdateMode};
use crate::error::Error;
use crate::format::Format;
use crate::model;
use crate::names::QualifiedTypeName;
use crate::naming;
use crate::scalar;
use crate::shape;
use crate::shape::{
    Def, Field, PointerType, PrimitiveType, SequenceType, Shape, StructKind, Type, TypeTable,
    UserType,
};
use crate::step;
use crate::step::{Halt, Step};
use crate::text;
use crate::walk;
use crate::walk::Wrap;

verus! {

/// Puts around a reference what the type that makes it calls for.
fn wrap_format(wrap: Wrap, format: Format) -> (r: Format)
    ensures
        r@ == walk::wrapped(wrap, format@),
{
    match wrap {
        Wrap::Plain => format,
        Wrap::Option => Format::Option(Box::new(format)),
        Wrap::SeqOf => Format::SeqOf(Box::new(format)),
        Wrap::SetOf => Format::SetOf(Box::new(format)),
        Wrap::TupleArray(size) => Format::TupleArray { content: Box::new(format), size },
    }
}

/// Whether the generic type may be used with any type parameters.
fn is_known_generic(identifier: &str) -> (r: bool)
    ensures
        r == model::is_known_generic(identifier@),
{
    *identifier == *"Arc" || *identifier == *"Rc" || *identifier == *"Box" || *identifier
        == *"Option" || *identifier == *"Vec" || *identifier == *"HashMap" || *identifier
        == *"HashSet" || *identifier == *"BTreeMap" || *identifier == *"BTreeSet" || *identifier
        == *"DateTime"
}

impl RegistryBuilder {
    /// Registers every container that a reference to the shape at `i` reaches, under the
    /// namespace context in force: the one that [`Self::reference_to`] named them under.
    ///
    /// The container being built is set aside while they are registered, so that registering
    /// them cannot change it, not even if it fails; its reference to the shape is made by
    /// [`Self::reference_to`].
    pub(crate) fn process_nested_types(
        &mut self,
        types: &TypeTable,
        i: usize,
        Ghost(room): Ghost<nat>,
    ) -> (r: Result<(), Halt>)
        requires
            old(self).sound(),
            types.wf(),
            i < types@.len(),
            !(walk::nested(types@, old(self)@, i as int, room) is Stuck),
        ensures
            final(self).sound(),
            ends(r, walk::nested(types@, old(self)@, i as int, room), final(self)@),
            final(self)@.current == old(self)@.current,
            model::innermost(final(self)@) == model::innermost(old(self)@),
        decreases room, i, 7int,
    {
        let mut current: Vec<QualifiedTypeName> = Vec::new();
        std::mem::swap(&mut current, &mut self.ledger.current);
        let depth = current.len();
        if depth == 0 {
            assert(self@ =~= model::set_aside(old(self)@));
            let result = self.register_reachable(types, i, Ghost(room));
            self.ledger.current = current;
            return result;
        }
        let last = current[depth - 1].clone();
        assert(old(self)@.current.last() == last@);
        let container = self.registry.remove(&last);
        assert(self@ =~= model::set_aside(old(self)@));
        let result = self.register_reachable(types, i, Ghost(room));
        match container {
            Some(container) => self.registry.insert(last, container),
            None => {
                self.registry.remove(&last);
            },
        }
        self.ledger.current = current;
        result
    }

    /// Registers what the reference `format` to the shape at `i` reaches, and gives the reference
    /// with the names under which all this stands.
    pub(crate) fn settle_reference(
        &mut self,
        types: &TypeTable,
        i: usize,
        format: Format,
        Ghost(room): Ghost<nat>,
    ) -> (r: Result<Format, Halt>)
        requires
            old(self).sound(),
            types.wf(),
            i < types@.len(),
            !(walk::settled(types@, old(self)@, i as int, format@, room) is Stuck),
        ensures
            final(self).sound(),
            match (r, walk::settled(types@, old(self)@, i as int, format@, room)) {
                (Ok(a), Step::Done((s, b))) => s == final(self)@ && a@ == b,
                (Err(h), outcome) => step::halts(outcome, h),
                _ => false,
            },
            final(self)@.current == old(self)@.current,
        decreases room, i, 8int,
    {
        self.process_nested_types(types, i, Ghost(room))?;
        Ok(self.standing_format(types, i, format))
    }

    pub(crate) fn register_reachable(
        &mut self,
        types: &TypeTable,
        i: usize,
        Ghost(room): Ghost<nat>,
    ) -> (r: Result<(), Halt>)
        requires
            old(self).sound(),
            types.wf(),
            i < types@.len(),
            !(walk::register(types@, old(self)@, i as int, room) is Stuck),
        ensures
            final(self).sound(),
            ends(r, walk::register(types@, old(self)@, i as int, room), final(self)@),
        decreases room, i, 6int,
    {
        let k = naming::generated_shape(types, i);
        let shape = types.get(k);
        assert(shape::shape_wf(types@, k as int));
        if let Def::Option(t) = shape.def {
            return self.register_reachable(types, t, Ghost(room));
        }
        match &shape.ty {
            Type::User(UserType::Struct(st)) => {
                return if st.kind == StructKind::Tuple {
                    self.register_fields(types, &st.fields, k, Ghost(room))
                } else {
                    self.format(types, k, Ghost(room))
                };
            },
            Type::User(UserType::Enum(_)) => {
                return self.format(types, k, Ghost(room));
            },
            Type::Pointer(PointerType::Reference(t)) => {
                return self.register_reachable(types, *t, Ghost(room));
            },
            Type::Pointer(PointerType::Raw(t)) => {
                return self.register_reachable(types, *t, Ghost(room));
            },
            _ => {},
        }
        match shape.def {
            Def::List(t) => self.register_reachable(types, t, Ghost(room)),
            Def::Slice(t) => self.register_reachable(types, t, Ghost(room)),
            Def::SetOf(t) => self.register_reachable(types, t, Ghost(room)),
            Def::Array { item, size: _ } => self.register_reachable(types, item, Ghost(room)),
            Def::MapOf { key, value } => {
                self.register_reachable(types, key, Ghost(room))?;
                self.register_reachable(types, value, Ghost(room))
            },
            Def::Pointer(Some(t)) => self.register_reachable(types, t, Ghost(room)),
            _ => Ok(()),
        }
    }

    /// Registers what the types of the elements of a tuple reach.
    pub(crate) fn register_fields(
        &mut self,
        types: &TypeTable,
        fields: &Vec<Field>,
        bound: usize,
        Ghost(room): Ghost<nat>,
    ) -> (r: Result<(), Halt>)
        requires
            old(self).sound(),
            types.wf(),
            bound < types@.len(),
            shape::fields_below(fields@, bound as int),
            !(walk::register_all(types@, old(self)@, fields@, 0, bound as int, room) is Stuck),
        ensures
            final(self).sound(),
            ends(
                r,
                walk::register_all(types@, old(self)@, fields@, 0, bound as int, room),
                final(self)@,
            ),
        decreases room, bound, 2int,
    {
        let ghost total = walk::register_all(types@, self@, fields@, 0, bound as int, room);
        for k in 0..fields.len()
            invariant
                self.sound(),
                types.wf(),
                bound < types@.len(),
                shape::fields_below(fields@, bound as int),
                !(total is Stuck),
                total == walk::register_all(types@, old(self)@, fields@, 0, bound as int, room),
                total == walk::register_all(
                    types@,
                    self@,
                    fields@,
                    k as int,
                    bound as int,
                    room,
                ),
        {
            assert(walk::register_below(
                types@,
                self@,
                fields@[k as int].shape as int,
                bound as int,
                room,
            ) == walk::register(types@, self@, fields@[k as int].shape as int, room));
            self.register_reachable(types, fields[k].shape, Ghost(room))?;
        }
        Ok(())
    }

    /// Reflects the type at `i`.
    pub(crate) fn format(&mut self, types: &TypeTable, i: usize, Ghost(room): Ghost<nat>) -> (r: Result<
        (),
        Halt,
    >)
        requires
            old(self).sound(),
            types.wf(),
            i < types@.len(),
            !(walk::reflect(types@, old(self)@, i as int, room) is Stuck),
        ensures
            final(self).sound(),
            ends(r, walk::reflect(types@, old(self)@, i as int, room), final(self)@),
        decreases room, i, 5int,
    {
        let j = naming::generated_shape(types, i);
        let shape = types.get(j);
        assert(shape::shape_wf(types@, j as int));
        if !self.is_supported_generic_type(shape) {
            return Err(Halt::Error(Error::UnsupportedGenericType(shape.display.clone())));
        }
        // First check for the special case of options.
        if let Def::Option(t) = shape.def {
            return self.format_compound(types, t, j, Wrap::Option, UpdateMode::Force, Ghost(room));
        }
        // Then go by the kind of the type, and fall back to its meaning.
        match &shape.ty {
            Type::User(UserType::Struct(st)) => self.format_struct(types, st, j, Ghost(room)),
            Type::User(UserType::Enum(et)) => self.format_enum(types, et, j, Ghost(room)),
            Type::Sequence(sequence) => self.handle_sequence_type(
                types,
                j,
                *sequence,
                Ghost(room),
            ),
            _ => self.format_from_def_system(types, j, Ghost(room)),
        }
    }

    fn is_supported_generic_type(&mut self, shape: &Shape) -> (r: bool)
        requires
            old(self).sound(),
        ensures
            final(self).sound(),
            model::meet_params(old(self)@, *shape) == (final(self)@, r),
    {
        let params = match &shape.type_params {
            None => {
                return true;
            },
            Some(params) => params,
        };
        let identifier = shape.type_identifier.as_str();
        // References, slices and arrays
        if text::starts_with_char(identifier, '&') || text::starts_with_char(identifier, '[') {
            return true;
        }
        if is_known_generic(identifier) {
            return true;
        }
        // For other generics, all type parameters must be consistent with previous uses.

        match self.ledger.generic_type_params.get(&shape.decl_id) {
            Some(previous) => {
                return *previous == *params;
            },
            None => {},
        }
        self.ledger.generic_type_params.insert(shape.decl_id, params.clone());
        assert(self@ =~= model::meet_params(old(self)@, *shape).0);
        true
    }

    fn handle_sequence_type(
        &mut self,
        types: &TypeTable,
        j: usize,
        sequence: SequenceType,
        Ghost(room): Ghost<nat>,
    ) -> (r: Result<(), Halt>)
        requires
            old(self).sound(),
            types.wf(),
            j < types@.len(),
            types@[j as int].ty == Type::Sequence(sequence),
            !(types@[j as int].def is Option),
            !(walk::format_sequence(types@, old(self)@, j as int, sequence, room) is Stuck),
        ensures
            final(self).sound(),
            ends(
                r,
                walk::format_sequence(types@, old(self)@, j as int, sequence, room),
                final(self)@,
            ),
        decreases room, j, 4int,
    {
        assert(shape::shape_wf(types@, j as int));
        let force = UpdateMode::Force;
        match (sequence, types.get(j).def) {
            (SequenceType::Slice(_), Def::Slice(t)) => self.format_compound(
                types,
                t,
                j,
                Wrap::SeqOf,
                force,
                Ghost(room),
            ),
            (SequenceType::Slice(t), _) => self.format_compound(
                types,
                t,
                j,
                Wrap::SeqOf,
                force,
                Ghost(room),
            ),
            (SequenceType::Array(_), Def::Array { item, size }) => self.format_compound(
                types,
                item,
                j,
                Wrap::TupleArray(size),
                force,
                Ghost(room),
            ),
            (SequenceType::Array(t), _) => self.format_compound(
                types,
                t,
                j,
                Wrap::SeqOf,
                force,
                Ghost(room),
            ),
        }
    }

    fn format_from_def_system(&mut self, types: &TypeTable, j: usize, Ghost(room): Ghost<nat>) -> (r:
        Result<(), Halt>)
        requires
            old(self).sound(),
            types.wf(),
            j < types@.len(),
            !shape::is_container(types@[j as int]),
            !(walk::format_def(types@, old(self)@, j as int, room) is Stuck),
        ensures
            final(self).sound(),
            ends(r, walk::format_def(types@, old(self)@, j as int, room), final(self)@),
        decreases room, j, 4int,
    {
        let shape = types.get(j);
        assert(shape::shape_wf(types@, j as int));
        let force = UpdateMode::Force;
        match shape.def {
            Def::Scalar => self.format_scalar(types, j),
            Def::MapOf { key, value } => self.format_map(types, key, value, j, Ghost(room)),
            Def::List(t) => self.format_compound(types, t, j, Wrap::SeqOf, force, Ghost(room)),
            Def::Slice(t) => self.format_compound(types, t, j, Wrap::SeqOf, force, Ghost(room)),
            Def::Array { item, size } => self.format_compound(
                types,
                item,
                j,
                Wrap::TupleArray(size),
                force,
                Ghost(room),
            ),
            Def::SetOf(t) => self.format_compound(types, t, j, Wrap::SetOf, force, Ghost(room)),
            Def::Option(t) => self.format_compound(types, t, j, Wrap::Option, force, Ghost(room)),
            // A smart pointer is its pointee.
            Def::Pointer(Some(t)) => self.format_compound(
                types,
                t,
                j,
                Wrap::Plain,
                UpdateMode::IfUnknown,
                Ghost(room),
            ),
            // A pointer to an opaque type is treated as a unit.
            Def::Pointer(None) => self.update_container_format(Format::Unit, force),
            Def::Undefined => self.handle_undefined_def(types, j, Ghost(room)),
            Def::Other => Ok(()),
        }
    }

    fn format_scalar(&mut self, types: &TypeTable, j: usize) -> (r: Result<(), Halt>)
        requires
            old(self).sound(),
            types.wf(),
            j < types@.len(),
            types@[j as int].def is Scalar,
        ensures
            final(self).sound(),
            forall|room: nat|
                ends(
                    r,
                    #[trigger] walk::format_def(types@, old(self)@, j as int, room),
                    final(self)@,
                ),
    {
        match scalar::type_to_format(types.get(j))? {
            Some(format) => self.update_container_format(format, UpdateMode::Force),
            // A scalar without a format is skipped.
            None => Ok(()),
        }
    }

    fn handle_undefined_def(&mut self, types: &TypeTable, j: usize, Ghost(room): Ghost<nat>) -> (r:
        Result<(), Halt>)
        requires
            old(self).sound(),
            types.wf(),
            j < types@.len(),
            !shape::is_container(types@[j as int]),
            !(walk::format_undefined(types@, old(self)@, j as int, room) is Stuck),
        ensures
            final(self).sound(),
            ends(r, walk::format_undefined(types@, old(self)@, j as int, room), final(self)@),
        decreases room, j, 3int,
    {
        let shape = types.get(j);
        assert(shape::shape_wf(types@, j as int));
        match &shape.ty {
            Type::Primitive(primitive) => match primitive {
                PrimitiveType::Boolean => self.update_container_format(
                    Format::Bool,
                    UpdateMode::Force,
                ),
                // The width is not known here; the single-precision format is more common.
                PrimitiveType::Float => self.update_container_format(
                    Format::F32,
                    UpdateMode::Force,
                ),
                PrimitiveType::Str => self.update_container_format(
                    Format::Str,
                    UpdateMode::Force,
                ),
                _ => Err(Halt::Unsupported),
            },
            Type::Pointer(PointerType::Reference(t)) => self.format(types, *t, Ghost(room)),
            Type::Pointer(PointerType::Raw(t)) => self.format(types, *t, Ghost(room)),
            _ => Ok(()),
        }
    }

    /// Reflects a type that wraps the type at `t`: a list, a slice, an array, a set, an option or
    /// a pointer.
    fn format_compound(
        &mut self,
        types: &TypeTable,
        t: usize,
        bound: usize,
        wrap: Wrap,
        mode: UpdateMode,
        Ghost(room): Ghost<nat>,
    ) -> (r: Result<(), Halt>)
        requires
            old(self).sound(),
            types.wf(),
            t < bound < types@.len(),
            !(walk::compound(
                types@,
                old(self)@,
                t as int,
                bound as int,
                wrap,
                mode is Force,
                room,
            ) is Stuck),
        ensures
            final(self).sound(),
            ends(
                r,
                walk::compound(
                    types@,
                    old(self)@,
                    t as int,
                    bound as int,
                    wrap,
                    mode is Force,
                    room,
                ),
                final(self)@,
            ),
        decreases room, bound, 2int,
    {
        let referred = self.reference_to(types, t)?;
        let inner = self.settle_reference(types, t, referred, Ghost(room))?;
        self.update_container_format(wrap_format(wrap, inner), mode)
    }

    fn format_map(
        &mut self,
        types: &TypeTable,
        key: usize,
        value: usize,
        bound: usize,
        Ghost(room): Ghost<nat>,
    ) -> (r: Result<(), Halt>)
        requires
            old(self).sound(),
            types.wf(),
            key < bound < types@.len(),
            value < bound,
            !(walk::format_map(
                types@,
                old(self)@,
                key as int,
                value as int,
                bound as int,
                room,
            ) is Stuck),
        ensures
            final(self).sound(),
            ends(
                r,
                walk::format_map(
                    types@,
                    old(self)@,
                    key as int,
                    value as int,
                    bound as int,
                    room,
                ),
                final(self)@,
            ),
        decreases room, bound, 2int,
    {
        let referred_key = self.reference_to(types, key)?;
        let referred_value = self.reference_to(types, value)?;
        let key_format = self.settle_reference(types, key, referred_key, Ghost(room))?;
        let value_format = self.settle_reference(types, value, referred_value, Ghost(room))?;
        let map_format = Format::MapOf {
            key: Box::new(key_format),
            value: Box::new(value_format),
        };
        self.update_container_format(map_format, UpdateMode::Force)
    }
}

} // verus!
