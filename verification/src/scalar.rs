//! The formats of scalars and of byte strings.

use vstd::prelude::*;

use crate::error::{Error, ErrorView};
use crate::format::{lines_view, Format, FormatView};
use crate::shape;
use crate::shape::{
    Def, Field, PointerType, PrimitiveType, Shape, StructKind, Type, TypeTable, UserType,
};
use crate::step;
use crate::step::{Halt, Step};

verus! {

/// The format of an integer of `size` bytes.
pub open spec fn integer_format(signed: bool, size: nat) -> Option<FormatView> {
    if size == 1 {
        Some(if signed { FormatView::I8 } else { FormatView::U8 })
    } else if size == 2 {
        Some(if signed { FormatView::I16 } else { FormatView::U16 })
    } else if size == 4 {
        Some(if signed { FormatView::I32 } else { FormatView::U32 })
    } else if size == 8 {
        Some(if signed { FormatView::I64 } else { FormatView::U64 })
    } else if size == 16 {
        Some(if signed { FormatView::I128 } else { FormatView::U128 })
    } else {
        None
    }
}

/// The format of a scalar; none for an opaque type that is not known.
pub open spec fn scalar_format(shape: Shape) -> Step<Option<FormatView>> {
    match shape.ty {
        Type::Primitive(PrimitiveType::Boolean) => Step::Done(Some(FormatView::Bool)),
        Type::Primitive(PrimitiveType::Float) => if shape.type_identifier@ == "f32"@ {
            Step::Done(Some(FormatView::F32))
        } else if shape.type_identifier@ == "f64"@ {
            Step::Done(Some(FormatView::F64))
        } else {
            Step::Unsupported
        },
        Type::Primitive(PrimitiveType::Integer { signed }) => match shape.size {
            None => Step::Fail(ErrorView::LayoutUnsized(shape.display@)),
            Some(size) => match integer_format(signed, size as nat) {
                Some(format) => Step::Done(Some(format)),
                None => Step::Unsupported,
            },
        },
        Type::Primitive(PrimitiveType::Str) => Step::Done(Some(FormatView::Str)),
        Type::Primitive(PrimitiveType::Char) => Step::Done(Some(FormatView::Char)),
        Type::Primitive(PrimitiveType::Never) => Step::Unsupported,
        Type::User(UserType::Opaque) => if shape.type_identifier@ == "String"@
            || shape.type_identifier@ == "DateTime<Utc>"@ {
            Step::Done(Some(FormatView::Str))
        } else if shape.type_identifier@ == "Uuid"@ {
            Step::Done(Some(FormatView::Uuid))
        } else {
            Step::Done(None)
        },
        Type::User(UserType::Struct(st)) => if st.kind == StructKind::Tuple && st.fields@.len()
            == 0 {
            Step::Done(Some(FormatView::Unit))
        } else {
            Step::Unsupported
        },
        _ => Step::Unsupported,
    }
}

fn integer(signed: bool, size: usize) -> (r: Option<Format>)
    ensures
        match (r, integer_format(signed, size as nat)) {
            (Some(a), Some(b)) => a@ == b,
            (None, None) => true,
            _ => false,
        },
{
    match (signed, size) {
        (false, 1) => Some(Format::U8),
        (false, 2) => Some(Format::U16),
        (false, 4) => Some(Format::U32),
        (false, 8) => Some(Format::U64),
        (false, 16) => Some(Format::U128),
        (true, 1) => Some(Format::I8),
        (true, 2) => Some(Format::I16),
        (true, 4) => Some(Format::I32),
        (true, 8) => Some(Format::I64),
        (true, 16) => Some(Format::I128),
        _ => None,
    }
}

/// The format of a scalar; none for an opaque type that is not known.
pub fn type_to_format(shape: &Shape) -> (r: Result<Option<Format>, Halt>)
    ensures
        match (r, scalar_format(*shape)) {
            (Ok(Some(a)), Step::Done(Some(b))) => a@ == b,
            (Ok(None), Step::Done(None)) => true,
            (Err(h), s) => step::halts(s, h),
            _ => false,
        },
{
    let identifier = shape.type_identifier.as_str();
    match &shape.ty {
        Type::Primitive(primitive) => match primitive {
            PrimitiveType::Boolean => Ok(Some(Format::Bool)),
            PrimitiveType::Float => {
                if *identifier == *"f32" {
                    Ok(Some(Format::F32))
                } else if *identifier == *"f64" {
                    Ok(Some(Format::F64))
                } else {
                    Err(Halt::Unsupported)
                }
            },
            PrimitiveType::Integer { signed } => match shape.size {
                None => Err(Halt::Error(Error::LayoutUnsized(shape.display.clone()))),
                Some(size) => match integer(*signed, size) {
                    Some(format) => Ok(Some(format)),
                    None => Err(Halt::Unsupported),
                },
            },
            PrimitiveType::Str => Ok(Some(Format::Str)),
            PrimitiveType::Char => Ok(Some(Format::Char)),
            PrimitiveType::Never => Err(Halt::Unsupported),
        },
        Type::User(UserType::Opaque) => {
            if *identifier == *"String" || *identifier == *"DateTime<Utc>" {
                Ok(Some(Format::Str))
            } else if *identifier == *"Uuid" {
                Ok(Some(Format::Uuid))
            } else {
                Ok(None)
            }
        },
        Type::User(UserType::Struct(st)) => {
            if st.kind == StructKind::Tuple && st.fields.len() == 0 {
                Ok(Some(Format::Unit))
            } else {
                Err(Halt::Unsupported)
            }
        },
        _ => Err(Halt::Unsupported),
    }
}

/// Whether a field is annotated to be a byte string.
pub open spec fn is_bytes_field(field: Field) -> bool {
    shape::has_attr(field.attributes@, Some("fg"@), "bytes"@)
}

/// The shape whose bytes a field stands for, if it is annotated to be a byte string: its own, or
/// the one behind a transparent wrapper whose only field is so annotated.
pub open spec fn bytes_target(g: Seq<Shape>, field: Field) -> Step<Option<int>> {
    let shape = g[field.shape as int];
    if is_bytes_field(field) {
        Step::Done(Some(field.shape as int))
    } else if !shape::is_transparent(shape) {
        Step::Done(None)
    } else {
        match shape.ty {
            Type::User(UserType::Struct(st)) => if st.kind == StructKind::TupleStruct
                && st.fields@.len() == 1 && is_bytes_field(st.fields@[0]) {
                Step::Done(Some(st.fields@[0].shape as int))
            } else {
                Step::Done(None)
            },
            Type::User(UserType::Enum(_)) => Step::Unsupported,
            Type::User(UserType::Union) => Step::Unsupported,
            _ => Step::Done(None),
        }
    }
}

/// The identifier of the shape at `i` is `text`.
pub open spec fn is_called(g: Seq<Shape>, i: int, text: Seq<char>) -> bool {
    g[i].type_identifier@ == text
}

/// A shape that can be generated as a byte string: a `Vec` or an array of `u8`, `Bytes`, or a
/// pointer to a slice of `u8`.
pub open spec fn holds_bytes(g: Seq<Shape>, i: int) -> bool {
    ||| is_called(g, i, "Vec"@) && (g[i].def matches Def::List(t) && is_called(g, t as int, "u8"@))
    ||| is_called(g, i, "Bytes"@)
    ||| (g[i].def matches Def::Array { item, size } && is_called(g, item as int, "u8"@))
    ||| match g[i].ty {
        Type::Pointer(PointerType::Reference(p)) => points_to_bytes(g, p as int),
        Type::Pointer(PointerType::Raw(p)) => points_to_bytes(g, p as int),
        _ => false,
    }
}

pub open spec fn points_to_bytes(g: Seq<Shape>, p: int) -> bool {
    g[p].def matches Def::Slice(t) && is_called(g, t as int, "u8"@)
}

/// The format that the bytes annotation gives a field, if it has one and it applies.
pub open spec fn bytes_format(g: Seq<Shape>, field: Field) -> Step<Option<FormatView>> {
    match bytes_target(g, field) {
        Step::Done(Some(i)) => match g[i].def {
            Def::Option(t) => if holds_bytes(g, t as int) {
                Step::Done(Some(FormatView::Option(Box::new(FormatView::Bytes))))
            } else {
                Step::Done(None)
            },
            _ => if holds_bytes(g, i) {
                Step::Done(Some(FormatView::Bytes))
            } else {
                Step::Done(None)
            },
        },
        Step::Done(None) => Step::Done(None),
        Step::Fail(e) => Step::Fail(e),
        Step::Unsupported => Step::Unsupported,
        Step::Stuck => Step::Stuck,
    }
}

fn find_bytes_target(types: &TypeTable, field: &Field) -> (r: Result<Option<usize>, Halt>)
    requires
        types.wf(),
        field.shape < types@.len(),
    ensures
        match (r, bytes_target(types@, *field)) {
            (Ok(Some(a)), Step::Done(Some(b))) => a == b && a < types@.len(),
            (Ok(None), Step::Done(None)) => true,
            (Err(h), s) => step::halts(s, h),
            _ => false,
        },
{
    if shape::any_attr(&field.attributes, Some("fg"), "bytes") {
        return Ok(Some(field.shape));
    }
    let shape = types.get(field.shape);
    assert(shape::shape_wf(types@, field.shape as int));
    if !shape::is_transparent_shape(shape) {
        return Ok(None);
    }
    match &shape.ty {
        Type::User(UserType::Struct(st)) => {
            if st.kind == StructKind::TupleStruct && st.fields.len() == 1 && shape::any_attr(
                &st.fields[0].attributes,
                Some("fg"),
                "bytes",
            ) {
                Ok(Some(st.fields[0].shape))
            } else {
                Ok(None)
            }
        },
        Type::User(UserType::Enum(_)) => Err(Halt::Unsupported),
        Type::User(UserType::Union) => Err(Halt::Unsupported),
        _ => Ok(None),
    }
}

fn test_called(types: &TypeTable, i: usize, text: &str) -> (r: bool)
    requires
        i < types@.len(),
    ensures
        r == is_called(types@, i as int, text@),
{
    *types.get(i).type_identifier.as_str() == *text
}

fn test_points_to_bytes(types: &TypeTable, p: usize) -> (r: bool)
    requires
        types.wf(),
        p < types@.len(),
    ensures
        r == points_to_bytes(types@, p as int),
{
    assert(shape::shape_wf(types@, p as int));
    match types.get(p).def {
        Def::Slice(t) => test_called(types, t, "u8"),
        _ => false,
    }
}

fn test_holds_bytes(types: &TypeTable, i: usize) -> (r: bool)
    requires
        types.wf(),
        i < types@.len(),
    ensures
        r == holds_bytes(types@, i as int),
{
    assert(shape::shape_wf(types@, i as int));
    let shape = types.get(i);
    if test_called(types, i, "Vec") {
        if let Def::List(t) = shape.def {
            if test_called(types, t, "u8") {
                return true;
            }
        }
    }
    if test_called(types, i, "Bytes") {
        return true;
    }
    if let Def::Array { item, size: _ } = shape.def {
        if test_called(types, item, "u8") {
            return true;
        }
    }
    match &shape.ty {
        Type::Pointer(PointerType::Reference(p)) => test_points_to_bytes(types, *p),
        Type::Pointer(PointerType::Raw(p)) => test_points_to_bytes(types, *p),
        _ => false,
    }
}

/// The format that the bytes annotation gives a field, if it has one and it applies.
pub fn bytes_attribute_format(types: &TypeTable, field: &Field) -> (r: Result<
    Option<Format>,
    Halt,
>)
    requires
        types.wf(),
        field.shape < types@.len(),
    ensures
        match (r, bytes_format(types@, *field)) {
            (Ok(Some(a)), Step::Done(Some(b))) => a@ == b,
            (Ok(None), Step::Done(None)) => true,
            (Err(h), s) => step::halts(s, h),
            _ => false,
        },
{
    let target = match find_bytes_target(types, field)? {
        Some(target) => target,
        None => {
            return Ok(None);
        },
    };
    assert(shape::shape_wf(types@, target as int));
    match types.get(target).def {
        Def::Option(t) => {
            if test_holds_bytes(types, t) {
                let bytes = Format::Bytes;
                assert(bytes@ == FormatView::Bytes);
                Ok(Some(Format::Option(Box::new(bytes))))
            } else {
                Ok(None)
            }
        },
        _ => {
            if test_holds_bytes(types, target) {
                Ok(Some(Format::Bytes))
            } else {
                Ok(None)
            }
        },
    }
}

/// What there is to say of a bytes annotation that does not apply; none where it applies, or where
/// there is no annotation.
pub open spec fn bytes_complaint(g: Seq<Shape>, field: Field) -> Option<Seq<char>> {
    match bytes_target(g, field) {
        Step::Done(Some(i)) => {
            let k = match g[i].def {
                Def::Option(t) => t as int,
                _ => i,
            };
            if holds_bytes(g, k) {
                None
            } else {
                Some(g[k].type_identifier@ + " is not a valid bytes attribute"@)
            }
        },
        _ => None,
    }
}

/// The complaints about the first `n` of `fields`, in order; skipped fields give none.
pub open spec fn complaints(g: Seq<Shape>, fields: Seq<Field>, n: nat) -> Seq<Seq<char>>
    decreases n,
{
    if n == 0 {
        Seq::empty()
    } else {
        let field = fields[n - 1];
        let before = complaints(g, fields, (n - 1) as nat);
        match bytes_complaint(g, field) {
            Some(text) => if field.skip {
                before
            } else {
                before.push(text)
            },
            None => before,
        }
    }
}

/// The complaint about the bytes annotation of a field, if it has one that does not apply.
fn find_bytes_complaint(types: &TypeTable, field: &Field) -> (r: Option<String>)
    requires
        types.wf(),
        field.shape < types@.len(),
    ensures
        match (r, bytes_complaint(types@, *field)) {
            (Some(a), Some(b)) => a@ == b,
            (None, None) => true,
            _ => false,
        },
{
    let target = match find_bytes_target(types, field) {
        Ok(Some(target)) => target,
        _ => {
            return None;
        },
    };
    assert(shape::shape_wf(types@, target as int));
    let held = match types.get(target).def {
        Def::Option(t) => t,
        _ => target,
    };
    if test_holds_bytes(types, held) {
        None
    } else {
        let mut text = types.get(held).type_identifier.clone();
        text.append(" is not a valid bytes attribute");
        Some(text)
    }
}

/// The complaints about the bytes annotations of fields, in order: one for each field that is not
/// skipped and has an annotation that does not apply.
pub fn bytes_complaints(types: &TypeTable, fields: &Vec<Field>) -> (r: Vec<String>)
    requires
        types.wf(),
        forall|k: int| 0 <= k < fields@.len() ==> (#[trigger] fields@[k]).shape < types@.len(),
    ensures
        lines_view(r@) == complaints(types@, fields@, fields@.len()),
{
    let mut lines: Vec<String> = Vec::new();
    let mut n: usize = 0;
    assert(lines_view(lines@) =~= complaints(types@, fields@, 0));
    while n < fields.len()
        invariant
            n <= fields@.len(),
            types.wf(),
            forall|k: int| 0 <= k < fields@.len() ==> (#[trigger] fields@[k]).shape < types@.len(),
            lines_view(lines@) == complaints(types@, fields@, n as nat),
        decreases fields@.len() - n,
    {
        let ghost before = lines@;
        if let Some(line) = find_bytes_complaint(types, &fields[n]) {
            if !fields[n].skip {
                lines.push(line);
                assert(lines_view(lines@) =~= lines_view(before).push(line@));
            }
        }
        n = n + 1;
    }
    lines
}

/// A complaint is made of a field exactly where it is annotated, reflection goes on, and the
/// annotation gives the field no format.
pub proof fn law_complaint(g: Seq<Shape>, field: Field)
    ensures
        bytes_complaint(g, field) is Some <==> ((bytes_target(g, field) matches Step::Done(target)
            && target is Some) && bytes_format(g, field) == Step::Done(None::<FormatView>)),
{
}

} // verus!
