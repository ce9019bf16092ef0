//! References to types.

use vstd::prelude::*;

use super::RegistryBuilder;
use crate::error::Error;
use crate::format::{formats_view, Format, FormatView};
use crate::model;
use crate::model::State;
use crate::names::{NameView, QualifiedTypeName};
use crate::namespace;
use crate::naming;
use crate::scalar;
use crate::shape;
use crate::shape::{Def, Field, PointerType, Shape, StructKind, Type, TypeTable, UserType};
use crate::step;
use crate::step::{Halt, Step};
use crate::walk;

verus! {

/// What gives containers their names.
pub trait Namer: Sized {
    /// Whether names are given under the context in force, and recorded.
    spec fn walking() -> bool;

    /// The state that the names depend on.
    spec fn state(&self) -> State;

    spec fn ready(&self) -> bool;

    /// The name of the container at `i`.
    fn name_of(&mut self, types: &TypeTable, i: usize) -> (r: Result<QualifiedTypeName, Halt>)
        requires
            old(self).ready(),
            types.wf(),
            i < types@.len(),
        ensures
            final(self).ready(),
            named(
                r,
                model::name_of(types@, old(self).state(), i as int, Self::walking()),
                final(self).state(),
            ),
    ;
}

/// How giving a name ended, and the state it left.
pub open spec fn named(
    r: Result<QualifiedTypeName, Halt>,
    outcome: (State, Step<NameView>),
    after: State,
) -> bool {
    &&& outcome.0 == after
    &&& match r {
        Ok(name) => outcome.1 == Step::Done(name@),
        Err(h) => step::halts(outcome.1, h),
    }
}

/// How making a reference ended, and the state it left.
pub open spec fn referred(
    r: Result<Format, Halt>,
    outcome: (State, Step<FormatView>),
    after: State,
) -> bool {
    &&& outcome.0 == after
    &&& match r {
        Ok(format) => outcome.1 == Step::Done(format@),
        Err(h) => step::halts(outcome.1, h),
    }
}

impl Namer for RegistryBuilder {
    open spec fn walking() -> bool {
        true
    }

    open spec fn state(&self) -> State {
        self@
    }

    open spec fn ready(&self) -> bool {
        self.sound()
    }

    fn name_of(&mut self, types: &TypeTable, i: usize) -> (r: Result<QualifiedTypeName, Halt>) {
        self.get_name_with_mappings(types, i)
    }
}

/// Gives the names that a builder has settled on.
pub struct Settled<'a> {
    pub builder: &'a RegistryBuilder,
}

impl<'a> Namer for Settled<'a> {
    open spec fn walking() -> bool {
        false
    }

    open spec fn state(&self) -> State {
        self.builder@
    }

    open spec fn ready(&self) -> bool {
        self.builder.sound()
    }

    fn name_of(&mut self, types: &TypeTable, i: usize) -> (r: Result<QualifiedTypeName, Halt>) {
        self.builder.mapped_name(types, i)
    }
}

impl RegistryBuilder {
    /// The rename recorded for the shape at `i`, if there is one for this very type.
    pub(crate) fn recorded_rename(&self, types: &TypeTable, i: usize) -> (r: Option<QualifiedTypeName>)
        requires
            self.sound(),
            types.wf(),
            i < types@.len(),
        ensures
            match (r, model::recorded_rename(types@, self@, i as int)) {
                (Some(a), Some(b)) => a@ == b,
                (None, None) => true,
                _ => false,
            },
    {
        let base_key = QualifiedTypeName::root(types.get(i).type_identifier.clone());
        if let Some(mapping) = self.ledger.name_mappings.get(&base_key) {
            if mapping.id == types.get(naming::generated_shape(types, i)).id {
                return Some(mapping.renamed.clone());
            }
        }
        None
    }

    /// Read-only counterpart of [`Self::get_name_with_mappings`].
    ///
    /// Namespace contexts are a property of a walk in progress, and the stack is empty once the
    /// types have been added, so only the recorded renames and the type's own attributes
    /// contribute.
    pub(crate) fn mapped_name(&self, types: &TypeTable, i: usize) -> (r: Result<
        QualifiedTypeName,
        Halt,
    >)
        requires
            self.sound(),
            types.wf(),
            i < types@.len(),
        ensures
            match r {
                Ok(name) => model::settled_name(types@, self@, i as int) == Step::Done(name@),
                Err(h) => step::halts(model::settled_name(types@, self@, i as int), h),
            },
    {
        if let Some(renamed) = self.recorded_rename(types, i) {
            return Ok(renamed);
        }
        match naming::get_name(types, i) {
            Ok(name) => Ok(name),
            Err(e) => Err(Halt::Error(e)),
        }
    }

    pub(crate) fn get_name_with_mappings(&mut self, types: &TypeTable, i: usize) -> (r: Result<
        QualifiedTypeName,
        Halt,
    >)
        requires
            old(self).sound(),
            types.wf(),
            i < types@.len(),
        ensures
            final(self).sound(),
            named(r, model::walk_name(types@, old(self)@, i as int), final(self)@),
    {
        if let Some(renamed) = self.recorded_rename(types, i) {
            return Ok(renamed);
        }
        // The own name includes the namespace that the type is annotated with.
        let original_name = match naming::get_name(types, i) {
            Ok(name) => name,
            Err(e) => {
                return Err(Halt::Error(e));
            },
        };
        let action = match namespace::extract_namespace_from_shape(types.get(i)) {
            Ok(action) => action,
            Err(e) => {
                return Err(Halt::Error(e));
            },
        };
        if action.is_explicit() {
            // An annotation of the type overrides everything.
            self.check_namespace_ambiguity(&original_name, true)?;
            return Ok(original_name);
        }
        let in_context = match self.current_namespace_context() {
            Some(context) => Some(
                (
                    QualifiedTypeName {
                        namespace: context.namespace.clone(),
                        name: original_name.name.clone(),
                    },
                    context.is_explicit(),
                ),
            ),
            None => None,
        };
        match in_context {
            Some((name, explicit)) => {
                self.check_namespace_ambiguity(&name, explicit)?;
                Ok(name)
            },
            None => Ok(original_name),
        }
    }

    /// The format of a reference to the shape at `i` from the container being built.
    ///
    /// Every container that the reference reaches, however deeply it is nested, is named under
    /// the namespace context in force. That is how the container is named when it is registered
    /// under the same context, so the reference names what is registered: an explicit namespace
    /// or root pin is the container's own, and an unannotated container takes the context's
    /// namespace.
    pub(crate) fn reference_to(&mut self, types: &TypeTable, i: usize) -> (r: Result<Format, Halt>)
        requires
            old(self).sound(),
            types.wf(),
            i < types@.len(),
            !(walk::reference(types@, old(self)@, i as int, true).1 is Stuck),
        ensures
            final(self).sound(),
            referred(r, walk::reference(types@, old(self)@, i as int, true), final(self)@),
    {
        reference_format(types, i, self)
    }

    /// Whether the type of identity `id` owns `name`.
    fn is_owned_by(&self, name: &QualifiedTypeName, id: u64) -> (r: bool)
        requires
            self.sound(),
        ensures
            r == model::is_owned_by(self@, name@, id),
    {
        match self.ledger.processed.get(name) {
            Some(claim) => claim.id == id,
            None => false,
        }
    }

    /// The name under which the type at `i`, which was referred to as `name`, stands.
    fn standing_name(&self, types: &TypeTable, i: usize, name: QualifiedTypeName) -> (r:
        QualifiedTypeName)
        requires
            self.sound(),
            types.wf(),
            i < types@.len(),
        ensures
            r@ == model::standing_name(types@, self@, i as int, name@),
    {
        let id = types.get(naming::generated_shape(types, i)).id;
        if self.is_owned_by(&name, id) {
            return name;
        }
        let fallback = QualifiedTypeName::root(name.name.clone());
        if self.is_owned_by(&fallback, id) {
            fallback
        } else {
            name
        }
    }

    /// A reference to the shape at `i`, once what it reaches is registered, with the names under
    /// which all this stands.
    ///
    /// A rename that is recorded in the root holds from then on. Where that happens while a
    /// reference is being registered, a type that it named in a namespace stands in the root
    /// instead.
    pub(crate) fn standing_format(&self, types: &TypeTable, i: usize, format: Format) -> (r: Format)
        requires
            self.sound(),
            types.wf(),
            i < types@.len(),
        ensures
            r@ == walk::standing(types@, self@, i as int, format@),
        decreases i, 1int,
    {
        let j = naming::generated_shape(types, i);
        let shape = types.get(j);
        assert(shape::shape_wf(types@, j as int));
        if shape::is_container_shape(shape) {
            return match format {
                Format::TypeName(name) => Format::TypeName(self.standing_name(types, j, name)),
                other => other,
            };
        }
        match shape.def {
            Def::List(t) => self.standing_sequence(types, t, format),
            Def::Slice(t) => self.standing_sequence(types, t, format),
            Def::Option(t) => match format {
                Format::Option(inner) => Format::Option(
                    Box::new(self.standing_format(types, t, *inner)),
                ),
                other => other,
            },
            Def::SetOf(t) => match format {
                Format::SetOf(inner) => Format::SetOf(
                    Box::new(self.standing_format(types, t, *inner)),
                ),
                other => other,
            },
            Def::Array { item, size: _ } => match format {
                Format::TupleArray { content, size } => Format::TupleArray {
                    content: Box::new(self.standing_format(types, item, *content)),
                    size,
                },
                other => other,
            },
            Def::MapOf { key, value } => match format {
                Format::MapOf { key: k, value: v } => Format::MapOf {
                    key: Box::new(self.standing_format(types, key, *k)),
                    value: Box::new(self.standing_format(types, value, *v)),
                },
                other => other,
            },
            Def::Pointer(Some(t)) => self.standing_format(types, t, format),
            Def::Undefined => {
                if let Type::User(UserType::Struct(st)) = &shape.ty {
                    if st.kind == StructKind::Tuple && st.fields.len() > 0 {
                        return match format {
                            Format::Tuple(formats) => Format::Tuple(
                                self.standing_formats(types, &st.fields, formats, i),
                            ),
                            other => other,
                        };
                    }
                }
                if *shape.type_identifier.as_str() == *"()" {
                    return format;
                }
                match &shape.ty {
                    Type::Pointer(PointerType::Reference(t)) => self.standing_format(
                        types,
                        *t,
                        format,
                    ),
                    Type::Pointer(PointerType::Raw(t)) => self.standing_format(types, *t, format),
                    _ => format,
                }
            },
            _ => format,
        }
    }

    /// The same for a sequence of the type at `t`.
    fn standing_sequence(&self, types: &TypeTable, t: usize, format: Format) -> (r: Format)
        requires
            self.sound(),
            types.wf(),
            t < types@.len(),
        ensures
            r@ == match format@ {
                FormatView::SeqOf(inner) => FormatView::SeqOf(
                    Box::new(walk::standing(types@, self@, t as int, *inner)),
                ),
                other => other,
            },
        decreases t, 2int,
    {
        match format {
            Format::SeqOf(inner) => Format::SeqOf(
                Box::new(self.standing_format(types, t, *inner)),
            ),
            other => other,
        }
    }

    /// The same for references to the types of `fields`, each below `bound`.
    fn standing_formats(
        &self,
        types: &TypeTable,
        fields: &Vec<Field>,
        formats: Vec<Format>,
        bound: usize,
    ) -> (r: Vec<Format>)
        requires
            self.sound(),
            types.wf(),
            bound < types@.len(),
            shape::fields_below(fields@, bound as int),
        ensures
            formats_view(r@) == walk::standing_all(
                types@,
                self@,
                fields@,
                formats_view(formats@),
                bound as int,
            ),
        decreases bound, 0int,
    {
        let mut list = formats;
        let mut k: usize = 0;
        while k < list.len() && k < fields.len()
            invariant
                self.sound(),
                types.wf(),
                bound < types@.len(),
                shape::fields_below(fields@, bound as int),
                k <= list@.len() == formats@.len(),
                k <= fields@.len(),
                forall|m: int|
                    0 <= m < k ==> (#[trigger] list@[m])@ == walk::standing(
                        types@,
                        self@,
                        fields@[m].shape as int,
                        formats@[m]@,
                    ),
                forall|m: int| k <= m < list@.len() ==> #[trigger] list@[m] == formats@[m],
            decreases list@.len() - k,
        {
            let mut format = Format::Variable;
            std::mem::swap(&mut format, &mut list[k]);
            list[k] = self.standing_format(types, fields[k].shape, format);
            k = k + 1;
        }
        assert(formats_view(list@) =~= walk::standing_all(
            types@,
            self@,
            fields@,
            formats_view(formats@),
            bound as int,
        ));
        list
    }

    /// The format of a field whose type is at `i`, or `None` if the field is to be skipped
    /// because its type cannot be reflected (an opaque type).
    pub(crate) fn get_user_type_format(&mut self, types: &TypeTable, i: usize) -> (r: Result<
        Option<Format>,
        Halt,
    >)
        requires
            old(self).sound(),
            types.wf(),
            i < types@.len(),
            !(walk::field_format(types@, old(self)@, i as int).1 is Stuck),
        ensures
            final(self).sound(),
            walk::field_format(types@, old(self)@, i as int).0 == final(self)@,
            match (r, walk::field_format(types@, old(self)@, i as int).1) {
                (Ok(Some(a)), Step::Done(Some(b))) => a@ == b,
                (Ok(None), Step::Done(None)) => true,
                (Err(h), s) => step::halts(s, h),
                _ => false,
            },
    {
        let shape = types.get(naming::generated_shape(types, i));
        if is_opaque(shape) {
            return Ok(None);
        }
        match self.reference_to(types, i) {
            Ok(format) => Ok(Some(format)),
            // An unsupported scalar somewhere in the type
            Err(Halt::Error(Error::ReflectionError { container: _, message: _ })) => Ok(None),
            Err(halt) => Err(halt),
        }
    }
}

/// Whether no format describes the type.
fn is_opaque(shape: &Shape) -> (r: bool)
    ensures
        r == model::is_opaque(*shape),
{
    match shape.def {
        Def::Undefined => match &shape.ty {
            Type::User(UserType::Struct(_)) => false,
            Type::User(UserType::Enum(_)) => false,
            Type::Pointer(PointerType::Reference(_)) => false,
            Type::Pointer(PointerType::Raw(_)) => false,
            _ => true,
        },
        _ => false,
    }
}

/// The name of the container at `i` as a format.
fn name_reference<N: Namer>(types: &TypeTable, i: usize, namer: &mut N) -> (r: Result<Format, Halt>)
    requires
        old(namer).ready(),
        types.wf(),
        i < types@.len(),
    ensures
        final(namer).ready(),
        referred(
            r,
            walk::name_reference(types@, old(namer).state(), i as int, N::walking()),
            final(namer).state(),
        ),
{
    match namer.name_of(types, i) {
        Ok(name) => Ok(Format::TypeName(name)),
        Err(halt) => Err(halt),
    }
}

/// The references to the types of the fields of a tuple, in order.
fn reference_all<N: Namer>(types: &TypeTable, fields: &Vec<Field>, bound: usize, namer: &mut N) -> (r:
    Result<Vec<Format>, Halt>)
    requires
        old(namer).ready(),
        types.wf(),
        bound <= types@.len(),
        !(walk::reference_all(
            types@,
            old(namer).state(),
            fields@,
            0,
            bound as int,
            N::walking(),
        ).1 is Stuck),
    ensures
        final(namer).ready(),
        walk::reference_all(
            types@,
            old(namer).state(),
            fields@,
            0,
            bound as int,
            N::walking(),
        ).0 == final(namer).state(),
        match (
            r,
            walk::reference_all(
                types@,
                old(namer).state(),
                fields@,
                0,
                bound as int,
                N::walking(),
            ).1,
        ) {
            (Ok(formats), Step::Done(expected)) => crate::format::formats_view(formats@)
                == expected,
            (Err(h), s) => step::halts(s, h),
            _ => false,
        },
    decreases bound, 0int,
{
    let mut formats: Vec<Format> = Vec::new();
    let ghost total = walk::reference_all(
        types@,
        namer.state(),
        fields@,
        0,
        bound as int,
        N::walking(),
    );
    assert(crate::format::formats_view(formats@) =~= Seq::<FormatView>::empty());
    for k in 0..fields.len()
        invariant
            namer.ready(),
            types.wf(),
            bound <= types@.len(),
            total == walk::reference_all(
                types@,
                old(namer).state(),
                fields@,
                0,
                bound as int,
                N::walking(),
            ),
            !(total.1 is Stuck),
            rest_of(
                total,
                crate::format::formats_view(formats@),
                walk::reference_all(
                    types@,
                    namer.state(),
                    fields@,
                    k as int,
                    bound as int,
                    N::walking(),
                ),
            ),
    {
        let ghost known = formats@;
        let format = reference_format(types, fields[k].shape, namer)?;
        formats.push(format);
        proof {
            super::lemma_formats_push(known, format);
            let rest = walk::reference_all(
                types@,
                namer.state(),
                fields@,
                k + 1,
                bound as int,
                N::walking(),
            );
            if let Step::Done(last) = rest.1 {
                assert(crate::format::formats_view(known) + (seq![format@] + last)
                    =~= crate::format::formats_view(formats@) + last);
            }
        }
    }
    assert(crate::format::formats_view(formats@) + Seq::<FormatView>::empty()
        =~= crate::format::formats_view(formats@));
    Ok(formats)
}

/// `total` is what `first` and then `rest` come to.
spec fn rest_of(
    total: (State, Step<Seq<FormatView>>),
    first: Seq<FormatView>,
    rest: (State, Step<Seq<FormatView>>),
) -> bool {
    &&& total.0 == rest.0
    &&& match rest.1 {
        Step::Done(last) => total.1 == Step::Done(first + last),
        other => total.1 == other,
    }
}

/// The [`Format`] of a reference to the shape at `i`, naming every container it reaches with
/// `namer`.
///
/// This is the structure of the reference alone: options, sequences, sets, maps, tuples, arrays,
/// pointers and transparent wrappers are unwrapped, and a container is named by `namer`, so that
/// however deeply a container is nested its name comes from one place.
pub(crate) fn reference_format<N: Namer>(types: &TypeTable, i: usize, namer: &mut N) -> (r: Result<
    Format,
    Halt,
>)
    requires
        old(namer).ready(),
        types.wf(),
        i < types@.len(),
        !(walk::reference(types@, old(namer).state(), i as int, N::walking()).1 is Stuck),
    ensures
        final(namer).ready(),
        referred(
            r,
            walk::reference(types@, old(namer).state(), i as int, N::walking()),
            final(namer).state(),
        ),
    decreases i, 1int,
{
    let j = naming::generated_shape(types, i);
    let shape = types.get(j);
    assert(shape::shape_wf(types@, j as int));
    // A struct or enum is a container whatever its meaning: only options and anonymous tuples
    // are structural.
    if shape::is_container_shape(shape) {
        return name_reference(types, j, namer);
    }
    match shape.def {
        Def::Scalar => match scalar::type_to_format(shape)? {
            Some(format) => Ok(format),
            None => Err(
                Halt::Error(
                    Error::ReflectionError {
                        container: shape.type_identifier.clone(),
                        message: "Scalar type is not supported and should be skipped".to_owned(),
                    },
                ),
            ),
        },
        Def::List(t) => Ok(Format::SeqOf(Box::new(reference_format(types, t, namer)?))),
        Def::Option(t) => Ok(Format::Option(Box::new(reference_format(types, t, namer)?))),
        Def::MapOf { key, value } => {
            let key_format = reference_format(types, key, namer)?;
            let value_format = reference_format(types, value, namer)?;
            Ok(Format::MapOf { key: Box::new(key_format), value: Box::new(value_format) })
        },
        Def::SetOf(t) => Ok(Format::SetOf(Box::new(reference_format(types, t, namer)?))),
        Def::Array { item, size } => Ok(
            Format::TupleArray { content: Box::new(reference_format(types, item, namer)?), size },
        ),
        Def::Undefined => {
            if let Type::User(UserType::Struct(st)) = &shape.ty {
                if st.kind == StructKind::Tuple && st.fields.len() > 0 {
                    return Ok(Format::Tuple(reference_all(types, &st.fields, i, namer)?));
                }
            }
            if *shape.type_identifier.as_str() == *"()" {
                return Ok(Format::Unit);
            }
            match &shape.ty {
                // For pointer types like `&'static str`, the format of the target type
                Type::Pointer(PointerType::Reference(t)) => reference_format(types, *t, namer),
                Type::Pointer(PointerType::Raw(t)) => reference_format(types, *t, namer),
                _ => name_reference(types, j, namer),
            }
        },
        Def::Slice(t) => Ok(Format::SeqOf(Box::new(reference_format(types, t, namer)?))),
        // A smart pointer is its pointee, and nothing where that is not known.
        Def::Pointer(Some(t)) => reference_format(types, t, namer),
        Def::Pointer(None) => Ok(Format::Unit),
        Def::Other => Err(
            Halt::Error(
                Error::ReflectionError {
                    container: shape.type_identifier.clone(),
                    message: "Type is not supported and should be skipped".to_owned(),
                },
            ),
        ),
    }
}

} // verus!
