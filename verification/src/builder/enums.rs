//! The containers of enums, and their variants.

use std::collections::BTreeMap;
use vstd::prelude::*;

use super::structs;
use super::structs::{named_field, option_of};
use super::{ends, RegistryBuilder};
use crate::format::{ContainerFormat, Doc, Format, FormatView, Named, VariantFormat, VariantView};
use crate::model::State;
use crate::namespace;
use crate::naming;
use crate::scalar;
use crate::shape;
use crate::shape::{Def, EnumType, Field, Type, TypeTable, UserType, Variant};
use crate::step;
use crate::step::{Halt, Step};
use crate::text;
use crate::walk;

verus! {

/// How the reflection of a variant ended, and the state it left if it succeeded.
pub open spec fn varied(
    r: Result<VariantFormat, Halt>,
    outcome: Step<(State, VariantView)>,
    after: State,
) -> bool {
    match r {
        Ok(format) => outcome == Step::Done((after, format@)),
        Err(h) => step::halts(outcome, h),
    }
}

/// Whether the fields of a variant have names.
fn has_names(variant: &Variant) -> (r: bool)
    requires
        variant.fields@.len() > 0,
    ensures
        r == walk::has_names(*variant),
{
    !text::is_all_digits(variant.fields[0].name.as_str())
}

impl RegistryBuilder {
    pub(crate) fn format_enum(
        &mut self,
        types: &TypeTable,
        enum_type: &EnumType,
        j: usize,
        Ghost(room): Ghost<nat>,
    ) -> (r: Result<(), Halt>)
        requires
            old(self).sound(),
            types.wf(),
            j < types@.len(),
            types@[j as int].ty == Type::User(UserType::Enum(*enum_type)),
            !(walk::format_enum(types@, old(self)@, j as int, room) is Stuck),
        ensures
            final(self).sound(),
            ends(r, walk::format_enum(types@, old(self)@, j as int, room), final(self)@),
        decreases room, j, 4int,
    {
        assert(shape::shape_wf(types@, j as int));
        let enum_name = match self.open_container(types, j)? {
            Some(name) => name,
            None => {
                return Ok(());
            },
        };
        // The containers being built are set aside, so that the variants cannot change them.
        let mut current = Vec::new();
        std::mem::swap(&mut current, &mut self.ledger.current);
        assert(self@ =~= State {
            current: Seq::empty(),
            ..walk::open_container(types@, old(self)@, j as int)->Done_0.0
        });
        let variants = self.process_enum_variants(
            types,
            enum_type,
            j,
            Ghost((room - 1) as nat),
        )?;
        let ghost built = self@;
        self.ledger.current = current;
        assert(self@ =~= State { current: old(self)@.current, ..built });
        let shape = types.get(j);
        let container = ContainerFormat::Enum(
            variants,
            naming::extract_enum_tagging(shape),
            Doc::of(&shape.doc),
        );
        self.push_with_type_check(types, enum_name, container, j)?;
        self.pop();
        self.pop_namespace();
        Ok(())
    }

    fn process_enum_variants(
        &mut self,
        types: &TypeTable,
        enum_type: &EnumType,
        j: usize,
        Ghost(room): Ghost<nat>,
    ) -> (r: Result<BTreeMap<u32, Named<VariantFormat>>, Halt>)
        requires
            old(self).sound(),
            types.wf(),
            j < types@.len(),
            shape::variants_below(Type::User(UserType::Enum(*enum_type)), types@.len() as int),
            !(walk::enum_variants(
                types@,
                old(self)@,
                enum_type.variants@,
                0,
                0,
                Map::empty(),
                j as int,
                room,
            ) is Stuck),
        ensures
            final(self).sound(),
            match r {
                Ok(variants) => walk::enum_variants(
                    types@,
                    old(self)@,
                    enum_type.variants@,
                    0,
                    0,
                    Map::empty(),
                    j as int,
                    room,
                ) == Step::Done((final(self)@, crate::format::variants_view(variants@))),
                Err(h) => step::halts(
                    walk::enum_variants(
                        types@,
                        old(self)@,
                        enum_type.variants@,
                        0,
                        0,
                        Map::empty(),
                        j as int,
                        room,
                    ),
                    h,
                ),
            },
        decreases room, types@.len() + 5, 0int,
    {
        let mut variants: BTreeMap<u32, Named<VariantFormat>> = BTreeMap::new();
        let mut variant_index: u32 = 0;
        let ghost all = enum_type.variants@;
        let ghost total = walk::enum_variants(
            types@,
            self@,
            all,
            0,
            0,
            Map::empty(),
            j as int,
            room,
        );
        assert(crate::format::variants_view(variants@) =~= Map::empty());
        for k in 0..enum_type.variants.len()
            invariant
                self.sound(),
                types.wf(),
                j < types@.len(),
                all == enum_type.variants@,
                shape::variants_below(Type::User(UserType::Enum(*enum_type)), types@.len() as int),
                variant_index <= k,
                !(total is Stuck),
                total == walk::enum_variants(
                    types@,
                    old(self)@,
                    all,
                    0,
                    0,
                    Map::empty(),
                    j as int,
                    room,
                ),
                total == walk::enum_variants(
                    types@,
                    self@,
                    all,
                    k as int,
                    variant_index as int,
                    crate::format::variants_view(variants@),
                    j as int,
                    room,
                ),
        {
            let variant = &enum_type.variants[k];
            if !shape::any_attr(&variant.attributes, None, "skip") {
                let ghost known = variants@;
                let value = self.process_single_variant(types, variant, j, Ghost(room))?;
                let named = Named {
                    name: naming::variant_display_name(variant),
                    doc: Doc::of(&variant.doc),
                    value,
                };
                variants.insert(variant_index, named);
                assert(crate::format::variants_view(variants@) =~= crate::format::variants_view(
                    known,
                ).insert(variant_index, named@));
                variant_index = variant_index + 1;
            }
        }
        Ok(variants)
    }

    fn process_single_variant(
        &mut self,
        types: &TypeTable,
        variant: &Variant,
        j: usize,
        Ghost(room): Ghost<nat>,
    ) -> (r: Result<VariantFormat, Halt>)
        requires
            old(self).sound(),
            types.wf(),
            j < types@.len(),
            shape::fields_below(variant.fields@, types@.len() as int),
            !(walk::variant_format(types@, old(self)@, *variant, j as int, room) is Stuck),
        ensures
            final(self).sound(),
            varied(
                r,
                walk::variant_format(types@, old(self)@, *variant, j as int, room),
                final(self)@,
            ),
        decreases room, types@.len() + 4, 1int,
    {
        if variant.fields.len() == 0 {
            Ok(VariantFormat::Unit)
        } else if has_names(variant) {
            self.process_struct_variant(types, variant, Ghost(room))
        } else if variant.fields.len() == 1 {
            self.process_newtype_variant(types, &variant.fields[0], Ghost(room))
        } else {
            self.process_tuple_variant(types, variant, j, Ghost(room))
        }
    }

    /// The format of the payload of a newtype variant, whose namespace context is in force.
    ///
    /// A payload that cannot be reflected (an opaque type) has none, but an optional one is an
    /// error.
    fn payload_format(&mut self, types: &TypeTable, i: usize) -> (r: Result<Option<Format>, Halt>)
        requires
            old(self).sound(),
            types.wf(),
            i < types@.len(),
            !(walk::payload_format(types@, old(self)@, i as int).1 is Stuck),
        ensures
            final(self).sound(),
            walk::payload_format(types@, old(self)@, i as int).0 == final(self)@,
            match (r, walk::payload_format(types@, old(self)@, i as int).1) {
                (Ok(Some(a)), Step::Done(Some(b))) => a@ == b,
                (Ok(None), Step::Done(None)) => true,
                (Err(h), s) => step::halts(s, h),
                _ => false,
            },
    {
        if let Def::Option(_) = types.get(i).def {
            let format = self.reference_to(types, i)?;
            Ok(Some(format))
        } else {
            self.get_user_type_format(types, i)
        }
    }

    fn process_newtype_variant(
        &mut self,
        types: &TypeTable,
        field: &Field,
        Ghost(room): Ghost<nat>,
    ) -> (r: Result<VariantFormat, Halt>)
        requires
            old(self).sound(),
            types.wf(),
            field.shape < types@.len(),
            !(walk::newtype_variant(types@, old(self)@, *field, room) is Stuck),
        ensures
            final(self).sound(),
            varied(r, walk::newtype_variant(types@, old(self)@, *field, room), final(self)@),
        decreases room, types@.len() + 3, 0int,
    {
        if let Some(value) = scalar::bytes_attribute_format(types, field)? {
            return Ok(VariantFormat::NewType(Box::new(value)));
        }
        if *types.get(field.shape).type_identifier.as_str() == *"()" {
            let unit = Format::Unit;
            assert(unit@ == FormatView::Unit);
            return Ok(VariantFormat::NewType(Box::new(unit)));
        }
        // The payload is named, and the types it reaches are registered, under the namespace
        // context of the field if it has one, so that the reference and the registration agree.
        match namespace::extract_namespace_from_field_attributes(field) {
            Ok(action) => {
                self.push_namespace(action);
            },
            Err(e) => {
                return Err(Halt::Error(e));
            },
        }
        let format = match self.payload_format(types, field.shape)? {
            None => None,
            Some(Format::Unit) => None,
            Some(referred) => {
                assert(!(referred@ is Unit));
                let format = self.settle_reference(types, field.shape, referred, Ghost(room))?;
                Some(format)
            },
        };
        self.pop_namespace();
        match format {
            Some(format) => Ok(VariantFormat::NewType(Box::new(format))),
            None => Ok(VariantFormat::Unit),
        }
    }

    fn process_struct_variant(
        &mut self,
        types: &TypeTable,
        variant: &Variant,
        Ghost(room): Ghost<nat>,
    ) -> (r: Result<VariantFormat, Halt>)
        requires
            old(self).sound(),
            types.wf(),
            shape::fields_below(variant.fields@, types@.len() as int),
            !(walk::struct_variant(types@, old(self)@, *variant, room) is Stuck),
        ensures
            final(self).sound(),
            varied(r, walk::struct_variant(types@, old(self)@, *variant, room), final(self)@),
        decreases room, types@.len() + 4, 0int,
    {
        let mut named_formats: Vec<Named<Format>> = Vec::new();
        assert(crate::format::fields_view(named_formats@) =~= Seq::empty());
        let ghost total = walk::variant_fields(
            types@,
            self@,
            variant.fields@,
            0,
            Seq::empty(),
            room,
        );
        for k in 0..variant.fields.len()
            invariant
                self.sound(),
                types.wf(),
                shape::fields_below(variant.fields@, types@.len() as int),
                !(total is Stuck),
                total == walk::variant_fields(
                    types@,
                    old(self)@,
                    variant.fields@,
                    0,
                    Seq::empty(),
                    room,
                ),
                total == walk::variant_fields(
                    types@,
                    self@,
                    variant.fields@,
                    k as int,
                    crate::format::fields_view(named_formats@),
                    room,
                ),
        {
            let field = &variant.fields[k];
            if !field.skip {
                let ghost known = named_formats@;
                if let Some(value) = self.variant_field(types, field, Ghost(room))? {
                    let named = named_field(field, value);
                    named_formats.push(named);
                    assert(crate::format::fields_view(named_formats@)
                        =~= crate::format::fields_view(known).push(named@));
                }
            }
        }
        if named_formats.len() == 0 {
            // All fields were skipped.
            Ok(VariantFormat::Unit)
        } else {
            Ok(VariantFormat::Struct(named_formats))
        }
    }

    /// The format of a named field of a variant, if it has one.
    fn variant_field(&mut self, types: &TypeTable, field: &Field, Ghost(room): Ghost<nat>) -> (r:
        Result<Option<Format>, Halt>)
        requires
            old(self).sound(),
            types.wf(),
            field.shape < types@.len(),
            !(walk::variant_field(types@, old(self)@, *field, room) is Stuck),
        ensures
            final(self).sound(),
            structs::valued(r, walk::variant_field(types@, old(self)@, *field, room), final(self)@),
        decreases room, types@.len() + 2, 0int,
    {
        if let Some(value) = scalar::bytes_attribute_format(types, field)? {
            return Ok(Some(value));
        }
        let action = match namespace::extract_namespace_from_field_attributes(field) {
            Ok(action) => action,
            Err(e) => {
                return Err(Halt::Error(e));
            },
        };
        self.push_namespace(action.clone());
        if let Some(t) = option_of(types, field) {
            return self.variant_option(types, t, Ghost(room));
        }
        self.field_value(types, field, &action, Ghost(room))
    }

    /// The format of a field of a variant that holds an `Option` of the type at `t`, whose
    /// namespace context is in force; the context is left.
    fn variant_option(&mut self, types: &TypeTable, t: usize, Ghost(room): Ghost<nat>) -> (r:
        Result<Option<Format>, Halt>)
        requires
            old(self).sound(),
            types.wf(),
            t < types@.len(),
            !(walk::variant_option(types@, old(self)@, t as int, room) is Stuck),
        ensures
            final(self).sound(),
            structs::valued(r, walk::variant_option(types@, old(self)@, t as int, room), final(self)@),
        decreases room, types@.len() + 1, 0int,
    {
        let referred = self.reference_to(types, t)?;
        let inner_format = self.settle_reference(types, t, referred, Ghost(room))?;
        self.pop_namespace();
        Ok(Some(Format::Option(Box::new(inner_format))))
    }

    fn process_tuple_variant(
        &mut self,
        types: &TypeTable,
        variant: &Variant,
        j: usize,
        Ghost(room): Ghost<nat>,
    ) -> (r: Result<VariantFormat, Halt>)
        requires
            old(self).sound(),
            types.wf(),
            j < types@.len(),
            shape::fields_below(variant.fields@, types@.len() as int),
            !(walk::tuple_variant(types@, old(self)@, *variant, j as int, room) is Stuck),
        ensures
            final(self).sound(),
            varied(
                r,
                walk::tuple_variant(types@, old(self)@, *variant, j as int, room),
                final(self)@,
            ),
        decreases room, types@.len() + 4, 0int,
    {
        let mut formats: Vec<Format> = Vec::new();
        assert(crate::format::formats_view(formats@) =~= Seq::empty()) by {
            broadcast use crate::format::lemma_formats_view;

        }
        let ghost total = walk::variant_items(
            types@,
            self@,
            variant.fields@,
            0,
            Seq::empty(),
            j as int,
            room,
        );
        for k in 0..variant.fields.len()
            invariant
                self.sound(),
                types.wf(),
                j < types@.len(),
                shape::fields_below(variant.fields@, types@.len() as int),
                !(total is Stuck),
                total == walk::variant_items(
                    types@,
                    old(self)@,
                    variant.fields@,
                    0,
                    Seq::empty(),
                    j as int,
                    room,
                ),
                total == walk::variant_items(
                    types@,
                    self@,
                    variant.fields@,
                    k as int,
                    crate::format::formats_view(formats@),
                    j as int,
                    room,
                ),
        {
            let field = &variant.fields[k];
            if !field.skip {
                let ghost known = formats@;
                if let Some(value) = self.variant_item(types, field, j, Ghost(room))? {
                    formats.push(value);
                    proof {
                        super::lemma_formats_push(known, value);
                    }
                }
            }
        }
        Ok(VariantFormat::Tuple(formats))
    }

    /// The format of a positional field of a variant, if it has one, under the namespace context
    /// of its enum.
    fn variant_item(
        &mut self,
        types: &TypeTable,
        field: &Field,
        j: usize,
        Ghost(room): Ghost<nat>,
    ) -> (r: Result<Option<Format>, Halt>)
        requires
            old(self).sound(),
            types.wf(),
            j < types@.len(),
            field.shape < types@.len(),
            !(walk::variant_item(types@, old(self)@, *field, j as int, room) is Stuck),
        ensures
            final(self).sound(),
            structs::valued(r, walk::variant_item(types@, old(self)@, *field, j as int, room), final(self)@),
        decreases room, types@.len() + 2, 0int,
    {
        if let Some(value) = scalar::bytes_attribute_format(types, field)? {
            return Ok(Some(value));
        }
        match namespace::extract_namespace_from_shape(types.get(j)) {
            Ok(action) => {
                self.push_namespace(action);
            },
            Err(e) => {
                return Err(Halt::Error(e));
            },
        }
        let format = match self.get_user_type_format(types, field.shape)? {
            Some(referred) => {
                let format = self.settle_reference(types, field.shape, referred, Ghost(room))?;
                Some(format)
            },
            None => {
                self.process_nested_types(types, field.shape, Ghost(room))?;
                None
            },
        };
        self.pop_namespace();
        Ok(format)
    }
}

} // verus!
