//! The formats of generated types: how a type is laid out on the wire.

use std::collections::BTreeMap;
use vstd::prelude::*;

use crate::names::{NameView, QualifiedTypeName};

verus! {

/// Documentation, line by line.
#[derive(Debug, PartialEq, Eq)]
pub struct Doc(pub Vec<String>);

impl View for Doc {
    type V = Seq<Seq<char>>;

    open spec fn view(&self) -> Seq<Seq<char>> {
        lines_view(self.0@)
    }
}

/// The characters of each line.
pub open spec fn lines_view(lines: Seq<String>) -> Seq<Seq<char>> {
    lines.map_values(|line: String| line@)
}

impl Doc {
    /// The documentation made of `lines`.
    pub fn of(lines: &Vec<String>) -> (r: Self)
        ensures
            r@ == lines_view(lines@),
    {
        let mut copy: Vec<String> = Vec::new();
        for i in 0..lines.len()
            invariant
                copy@ =~= lines@.take(i as int),
        {
            copy.push(lines[i].clone());
        }
        assert(copy@ =~= lines@);
        Doc(copy)
    }

    /// A copy of the documentation.
    pub fn copy(&self) -> (r: Self)
        ensures
            r@ == self@,
    {
        Doc::of(&self.0)
    }
}

/// The format of a value.
#[derive(Debug, PartialEq, Eq)]
pub enum Format {
    /// A format that is not known yet.
    Variable,
    /// The named container.
    TypeName(QualifiedTypeName),
    Unit,
    Bool,
    I8,
    I16,
    I32,
    I64,
    I128,
    U8,
    U16,
    U32,
    U64,
    U128,
    F32,
    F64,
    Char,
    Str,
    Bytes,
    Uuid,
    /// An optional value.
    Option(Box<Format>),
    /// A sequence of any length.
    SeqOf(Box<Format>),
    /// A set.
    SetOf(Box<Format>),
    /// A map.
    MapOf { key: Box<Format>, value: Box<Format> },
    /// Values one after the other.
    Tuple(Vec<Format>),
    /// The same format a fixed number of times.
    TupleArray { content: Box<Format>, size: usize },
}

/// What a [`Format`] holds.
pub enum FormatView {
    Variable,
    TypeName(NameView),
    Unit,
    Bool,
    I8,
    I16,
    I32,
    I64,
    I128,
    U8,
    U16,
    U32,
    U64,
    U128,
    F32,
    F64,
    Char,
    Str,
    Bytes,
    Uuid,
    Option(Box<FormatView>),
    SeqOf(Box<FormatView>),
    SetOf(Box<FormatView>),
    MapOf { key: Box<FormatView>, value: Box<FormatView> },
    Tuple(Seq<FormatView>),
    TupleArray { content: Box<FormatView>, size: usize },
}

pub open spec fn format_view(format: Format) -> FormatView
    decreases format,
{
    match format {
        Format::Variable => FormatView::Variable,
        Format::TypeName(name) => FormatView::TypeName(name@),
        Format::Unit => FormatView::Unit,
        Format::Bool => FormatView::Bool,
        Format::I8 => FormatView::I8,
        Format::I16 => FormatView::I16,
        Format::I32 => FormatView::I32,
        Format::I64 => FormatView::I64,
        Format::I128 => FormatView::I128,
        Format::U8 => FormatView::U8,
        Format::U16 => FormatView::U16,
        Format::U32 => FormatView::U32,
        Format::U64 => FormatView::U64,
        Format::U128 => FormatView::U128,
        Format::F32 => FormatView::F32,
        Format::F64 => FormatView::F64,
        Format::Char => FormatView::Char,
        Format::Str => FormatView::Str,
        Format::Bytes => FormatView::Bytes,
        Format::Uuid => FormatView::Uuid,
        Format::Option(inner) => FormatView::Option(Box::new(format_view(*inner))),
        Format::SeqOf(inner) => FormatView::SeqOf(Box::new(format_view(*inner))),
        Format::SetOf(inner) => FormatView::SetOf(Box::new(format_view(*inner))),
        Format::MapOf { key, value } => FormatView::MapOf {
            key: Box::new(format_view(*key)),
            value: Box::new(format_view(*value)),
        },
        Format::Tuple(formats) => FormatView::Tuple(formats_view(formats@)),
        Format::TupleArray { content, size } => FormatView::TupleArray {
            content: Box::new(format_view(*content)),
            size,
        },
    }
}

/// What each format of a sequence holds.
pub open spec fn formats_view(formats: Seq<Format>) -> Seq<FormatView>
    decreases formats,
{
    Seq::new(
        formats.len(),
        |i: int|
            if 0 <= i < formats.len() {
                format_view(formats[i])
            } else {
                FormatView::Variable
            },
    )
}

impl View for Format {
    type V = FormatView;

    open spec fn view(&self) -> FormatView {
        format_view(*self)
    }
}

pub broadcast proof fn lemma_formats_view(formats: Seq<Format>)
    ensures
        #![trigger formats_view(formats)]
        formats_view(formats).len() == formats.len(),
        forall|i: int|
            0 <= i < formats.len() ==> #[trigger] formats_view(formats)[i] == formats[i]@,
{
}

impl Format {
    /// Whether the format is not known yet.
    pub fn is_unknown(&self) -> (r: bool)
        ensures
            r == (self@ is Variable),
    {
        match self {
            Format::Variable => true,
            _ => false,
        }
    }
}

/// A value with its name and documentation.
#[derive(Debug, PartialEq, Eq)]
pub struct Named<T> {
    pub name: String,
    pub doc: Doc,
    pub value: T,
}

/// What a [`Named`] holds.
pub struct NamedView<T> {
    pub name: Seq<char>,
    pub doc: Seq<Seq<char>>,
    pub value: T,
}

impl<T: View> View for Named<T> {
    type V = NamedView<T::V>;

    open spec fn view(&self) -> NamedView<T::V> {
        NamedView { name: self.name@, doc: self.doc@, value: self.value@ }
    }
}

/// What each field of a sequence holds.
pub open spec fn fields_view(fields: Seq<Named<Format>>) -> Seq<NamedView<FormatView>> {
    fields.map_values(|field: Named<Format>| field@)
}

/// The format of the data of an enum's variant.
#[derive(Debug, PartialEq, Eq)]
pub enum VariantFormat {
    /// A variant whose format is not known yet.
    Variable,
    Unit,
    NewType(Box<Format>),
    Tuple(Vec<Format>),
    Struct(Vec<Named<Format>>),
}

/// What a [`VariantFormat`] holds.
pub enum VariantView {
    Variable,
    Unit,
    NewType(FormatView),
    Tuple(Seq<FormatView>),
    Struct(Seq<NamedView<FormatView>>),
}

impl View for VariantFormat {
    type V = VariantView;

    open spec fn view(&self) -> VariantView {
        match self {
            VariantFormat::Variable => VariantView::Variable,
            VariantFormat::Unit => VariantView::Unit,
            VariantFormat::NewType(format) => VariantView::NewType((**format)@),
            VariantFormat::Tuple(formats) => VariantView::Tuple(formats_view(formats@)),
            VariantFormat::Struct(fields) => VariantView::Struct(fields_view(fields@)),
        }
    }
}

/// How the variants of an enum are told apart.
#[derive(Debug, PartialEq, Eq)]
pub enum EnumTagging {
    External,
    Internal { tag: String },
    Adjacent { tag: String, content: String },
}

/// What an [`EnumTagging`] holds.
pub enum TaggingView {
    External,
    Internal { tag: Seq<char> },
    Adjacent { tag: Seq<char>, content: Seq<char> },
}

impl View for EnumTagging {
    type V = TaggingView;

    open spec fn view(&self) -> TaggingView {
        match self {
            EnumTagging::External => TaggingView::External,
            EnumTagging::Internal { tag } => TaggingView::Internal { tag: tag@ },
            EnumTagging::Adjacent { tag, content } => TaggingView::Adjacent {
                tag: tag@,
                content: content@,
            },
        }
    }
}

/// The format of a named container.
#[derive(Debug, PartialEq, Eq)]
pub enum ContainerFormat {
    UnitStruct(Doc),
    NewTypeStruct(Box<Format>, Doc),
    TupleStruct(Vec<Format>, Doc),
    Struct(Vec<Named<Format>>, Doc),
    /// The variants, by index.
    Enum(BTreeMap<u32, Named<VariantFormat>>, EnumTagging, Doc),
}

/// What a [`ContainerFormat`] holds.
pub enum ContainerView {
    UnitStruct(Seq<Seq<char>>),
    NewTypeStruct(FormatView, Seq<Seq<char>>),
    TupleStruct(Seq<FormatView>, Seq<Seq<char>>),
    Struct(Seq<NamedView<FormatView>>, Seq<Seq<char>>),
    Enum(Map<u32, NamedView<VariantView>>, TaggingView, Seq<Seq<char>>),
}

/// What each variant of a map holds.
pub open spec fn variants_view(variants: Map<u32, Named<VariantFormat>>) -> Map<
    u32,
    NamedView<VariantView>,
> {
    variants.map_values(|variant: Named<VariantFormat>| variant@)
}

impl View for ContainerFormat {
    type V = ContainerView;

    open spec fn view(&self) -> ContainerView {
        match self {
            ContainerFormat::UnitStruct(doc) => ContainerView::UnitStruct(doc@),
            ContainerFormat::NewTypeStruct(format, doc) => ContainerView::NewTypeStruct(
                (**format)@,
                doc@,
            ),
            ContainerFormat::TupleStruct(formats, doc) => ContainerView::TupleStruct(
                formats_view(formats@),
                doc@,
            ),
            ContainerFormat::Struct(fields, doc) => ContainerView::Struct(
                fields_view(fields@),
                doc@,
            ),
            ContainerFormat::Enum(variants, tagging, doc) => ContainerView::Enum(
                variants_view(variants@),
                tagging@,
                doc@,
            ),
        }
    }
}

} // verus!
