//! What the values of the library stand for.

use vstd::prelude::*;

use crate::format::{
    format_view, formats_view, ContainerFormat, ContainerView, EnumTagging, Format, FormatView,
    Named, TaggingView, VariantFormat, VariantView,
};
use crate::names::{Namespace, QualifiedTypeName, SpaceView};

verus! {

/// A format stands for what it says, part by part.
pub proof fn law_formats_stand_for(format: Format)
    ensures
        match format {
            Format::Variable => format@ is Variable,
            Format::TypeName(name) => format@ == FormatView::TypeName(name@),
            Format::Unit => format@ is Unit,
            Format::Bool => format@ is Bool,
            Format::I8 => format@ is I8,
            Format::I16 => format@ is I16,
            Format::I32 => format@ is I32,
            Format::I64 => format@ is I64,
            Format::I128 => format@ is I128,
            Format::U8 => format@ is U8,
            Format::U16 => format@ is U16,
            Format::U32 => format@ is U32,
            Format::U64 => format@ is U64,
            Format::U128 => format@ is U128,
            Format::F32 => format@ is F32,
            Format::F64 => format@ is F64,
            Format::Char => format@ is Char,
            Format::Str => format@ is Str,
            Format::Uuid => format@ is Uuid,
            Format::Bytes => format@ is Bytes,
            Format::Option(inner) => format@ matches FormatView::Option(view) && *view == inner@,
            Format::SeqOf(inner) => format@ matches FormatView::SeqOf(view) && *view == inner@,
            Format::SetOf(inner) => format@ matches FormatView::SetOf(view) && *view == inner@,
            Format::MapOf { key, value } => format@ matches FormatView::MapOf { key: k, value: v }
                && *k == key@ && *v == value@,
            Format::Tuple(formats) => format@ matches FormatView::Tuple(views) && views.len()
                == formats@.len() && forall|k: int|
                0 <= k < views.len() ==> #[trigger] views[k] == formats@[k]@,
            Format::TupleArray { content, size } => format@ matches FormatView::TupleArray {
                content: view,
                size: count,
            } && *view == content@ && count == size,
        },
{
    match format {
        Format::Option(inner) => {
            assert(format@ == FormatView::Option(Box::new(format_view(*inner))));
        },
        Format::SeqOf(inner) => {
            assert(format@ == FormatView::SeqOf(Box::new(format_view(*inner))));
        },
        Format::SetOf(inner) => {
            assert(format@ == FormatView::SetOf(Box::new(format_view(*inner))));
        },
        Format::MapOf { key, value } => {
            assert(format@ == (FormatView::MapOf {
                key: Box::new(format_view(*key)),
                value: Box::new(format_view(*value)),
            }));
        },
        Format::Tuple(formats) => {
            let views = formats_view(formats@);
            assert(format@ == FormatView::Tuple(views));
            assert forall|k: int| 0 <= k < views.len() implies #[trigger] views[k]
                == formats@[k]@ by {
                assert(views[k] == format_view(formats@[k]));
            }
        },
        Format::TupleArray { content, size } => {
            assert(format@ == (FormatView::TupleArray {
                content: Box::new(format_view(*content)),
                size,
            }));
        },
        _ => {},
    }
}

/// So does a variant, and a tagging.
pub proof fn law_variants_stand_for(variant: VariantFormat, tagging: EnumTagging)
    ensures
        match variant {
            VariantFormat::Variable => variant@ is Variable,
            VariantFormat::Unit => variant@ is Unit,
            VariantFormat::NewType(format) => variant@ == VariantView::NewType(format@),
            VariantFormat::Tuple(formats) => variant@ matches VariantView::Tuple(views)
                && views.len() == formats@.len() && forall|k: int|
                0 <= k < views.len() ==> #[trigger] views[k] == formats@[k]@,
            VariantFormat::Struct(fields) => variant@ matches VariantView::Struct(views)
                && views.len() == fields@.len() && forall|k: int|
                0 <= k < views.len() ==> #[trigger] views[k] == fields@[k]@,
        },
        match tagging {
            EnumTagging::External => tagging@ is External,
            EnumTagging::Internal { tag } => tagging@ == (TaggingView::Internal { tag: tag@ }),
            EnumTagging::Adjacent { tag, content } => tagging@ == (TaggingView::Adjacent {
                tag: tag@,
                content: content@,
            }),
        },
{
}

/// So does a container.
pub proof fn law_containers_stand_for(container: ContainerFormat)
    ensures
        match container {
            ContainerFormat::UnitStruct(doc) => container@ == ContainerView::UnitStruct(doc@),
            ContainerFormat::NewTypeStruct(format, doc) => container@
                == ContainerView::NewTypeStruct(format@, doc@),
            ContainerFormat::TupleStruct(formats, doc) => container@
                matches ContainerView::TupleStruct(views, d) && d == doc@ && views.len()
                == formats@.len() && forall|k: int|
                0 <= k < views.len() ==> #[trigger] views[k] == formats@[k]@,
            ContainerFormat::Struct(fields, doc) => container@ matches ContainerView::Struct(
                views,
                d,
            ) && d == doc@ && views.len() == fields@.len() && forall|k: int|
                0 <= k < views.len() ==> #[trigger] views[k] == fields@[k]@,
            ContainerFormat::Enum(variants, tagging, doc) => container@
                matches ContainerView::Enum(views, t, d) && t == tagging@ && d == doc@
                && views.dom() == variants@.dom() && forall|k: u32| #[trigger]
                variants@.contains_key(k) ==> views[k] == variants@[k]@,
        },
{
}

/// Something that has a name stands for what it holds, under that name and with its documentation.
pub proof fn law_named_stand_for(field: Named<Format>, variant: Named<VariantFormat>)
    ensures
        field@.name == field.name@ && field@.value == field.value@ && field@.doc == field.doc@,
        variant@.name == variant.name@ && variant@.value == variant.value@ && variant@.doc
            == variant.doc@,
{
}

/// A qualified name stands for its name in its namespace.
pub proof fn law_names_stand_for(name: QualifiedTypeName, space: Namespace)
    ensures
        name@.name == name.name@ && name@.namespace == name.namespace@,
        match space {
            Namespace::Root => space@ is Root,
            Namespace::Named(text) => space@ == SpaceView::Named(text@),
        },
{
}

} // verus!
