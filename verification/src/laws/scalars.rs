//! What scalars and byte strings become.

use vstd::prelude::*;

use crate::error::ErrorView;
use crate::format::FormatView;
use crate::scalar;
use crate::shape;
use crate::shape::{
    Def, Field, PointerType, PrimitiveType, Shape, StructKind, Type, UserType,
};
use crate::step::Step;

verus! {

/// Whether a format is that of signed integers, and how many bits they have.
pub open spec fn integer_bits(format: FormatView) -> Option<(bool, int)> {
    match format {
        FormatView::I8 => Some((true, 8)),
        FormatView::I16 => Some((true, 16)),
        FormatView::I32 => Some((true, 32)),
        FormatView::I64 => Some((true, 64)),
        FormatView::I128 => Some((true, 128)),
        FormatView::U8 => Some((false, 8)),
        FormatView::U16 => Some((false, 16)),
        FormatView::U32 => Some((false, 32)),
        FormatView::U64 => Some((false, 64)),
        FormatView::U128 => Some((false, 128)),
        _ => None,
    }
}

/// An integer keeps its sign and its width, which is a power of two of bytes, up to sixteen. One
/// of another width is not supported, and one without a size is refused.
pub proof fn law_integers(shape: Shape, signed: bool)
    requires
        shape.ty == Type::Primitive(PrimitiveType::Integer { signed }),
    ensures
        shape.size is None ==> scalar::scalar_format(shape) == Step::<Option<FormatView>>::Fail(
            ErrorView::LayoutUnsized(shape.display@),
        ),
        shape.size matches Some(bytes) ==> if bytes == 1 || bytes == 2 || bytes == 4 || bytes == 8
            || bytes == 16 {
            scalar::scalar_format(shape) matches Step::Done(Some(format)) && integer_bits(format)
                == Some((signed, 8 * bytes as int))
        } else {
            scalar::scalar_format(shape) is Unsupported
        },
{
}

/// What the other scalars become.
pub proof fn law_other_scalars(shape: Shape)
    ensures
        shape.ty == Type::Primitive(PrimitiveType::Boolean) ==> is_scalar(shape, FormatView::Bool),
        shape.ty == Type::Primitive(PrimitiveType::Char) ==> is_scalar(shape, FormatView::Char),
        shape.ty == Type::Primitive(PrimitiveType::Str) ==> is_scalar(shape, FormatView::Str),
        shape.ty == Type::Primitive(PrimitiveType::Never) ==> scalar::scalar_format(shape)
            is Unsupported,
        shape.ty == Type::Primitive(PrimitiveType::Float) ==> {
            &&& is_scalar(shape, FormatView::F32) <==> shape.type_identifier@ == "f32"@
            &&& is_scalar(shape, FormatView::F64) <==> shape.type_identifier@ == "f64"@
            &&& scalar::scalar_format(shape) is Unsupported <==> shape.type_identifier@ != "f32"@
                && shape.type_identifier@ != "f64"@
        },
        shape.ty == Type::User(UserType::Opaque) ==> {
            &&& is_scalar(shape, FormatView::Str) <==> shape.type_identifier@ == "String"@
                || shape.type_identifier@ == "DateTime<Utc>"@
            &&& is_scalar(shape, FormatView::Uuid) <==> shape.type_identifier@ == "Uuid"@
            &&& scalar::scalar_format(shape) == Step::Done(None::<FormatView>)
                <==> shape.type_identifier@ != "String"@ && shape.type_identifier@
                != "DateTime<Utc>"@ && shape.type_identifier@ != "Uuid"@
        },
        shape.ty matches Type::User(UserType::Struct(st)) ==> {
            &&& is_scalar(shape, FormatView::Unit) <==> st.kind == StructKind::Tuple
                && st.fields@.len() == 0
            &&& scalar::scalar_format(shape) is Unsupported <==> st.kind != StructKind::Tuple
                || st.fields@.len() > 0
        },
{
    reveal_strlit("f32");
    reveal_strlit("f64");
    reveal_strlit("String");
    reveal_strlit("DateTime<Utc>");
    reveal_strlit("Uuid");
    assert("f32"@[1] != "f64"@[1]);
    assert("String"@[0] != "Uuid"@[0]);
    assert("DateTime<Utc>"@[0] != "Uuid"@[0]);
}

/// The scalar has this format.
pub open spec fn is_scalar(shape: Shape, format: FormatView) -> bool {
    scalar::scalar_format(shape) == Step::Done(Some(format))
}

// Byte strings

/// A type that is made of bytes: a `Vec` of `u8`, an array of `u8`, `Bytes`, or a pointer to a
/// slice of `u8`.
pub open spec fn is_made_of_bytes(g: Seq<Shape>, i: int) -> bool {
    let shape = g[i];
    ||| shape.type_identifier@ == "Bytes"@
    ||| (shape.def matches Def::List(t) && g[t as int].type_identifier@ == "u8"@
        && shape.type_identifier@ == "Vec"@)
    ||| (shape.def matches Def::Array { item: t, size } && g[t as int].type_identifier@ == "u8"@)
    ||| (shape.ty matches Type::Pointer(PointerType::Reference(p)) && (g[p as int].def
        matches Def::Slice(t) && g[t as int].type_identifier@ == "u8"@))
    ||| (shape.ty matches Type::Pointer(PointerType::Raw(p)) && (g[p as int].def
        matches Def::Slice(t) && g[t as int].type_identifier@ == "u8"@))
}

/// Which type the annotation of a field is about: that of the field if it carries the annotation,
/// else that of the one field of a transparent newtype if that does.
pub open spec fn is_annotated_type(g: Seq<Shape>, field: Field, i: int) -> bool {
    if scalar::is_bytes_field(field) {
        i == field.shape
    } else {
        let shape = g[field.shape as int];
        &&& shape::is_transparent(shape)
        &&& shape.ty matches Type::User(UserType::Struct(st)) && st.kind == StructKind::TupleStruct
            && st.fields@.len() == 1 && scalar::is_bytes_field(st.fields@[0]) && i
            == st.fields@[0].shape
    }
}

/// A field whose annotated type is made of bytes becomes a byte string, one whose annotated type
/// is an option of such a type an optional one, and every other field is left as it is.
pub proof fn law_byte_strings(g: Seq<Shape>, field: Field, i: int)
    ensures
        is_annotated_type(g, field, i) ==> match g[i].def {
            Def::Option(t) => scalar::bytes_format(g, field) == Step::Done(
                if is_made_of_bytes(g, t as int) {
                    Some(FormatView::Option(Box::new(FormatView::Bytes)))
                } else {
                    None
                },
            ),
            _ => scalar::bytes_format(g, field) == Step::Done(
                if is_made_of_bytes(g, i) {
                    Some(FormatView::Bytes)
                } else {
                    None
                },
            ),
        },
        (forall|k: int| !#[trigger] is_annotated_type(g, field, k)) && !(shape::is_transparent(
            g[field.shape as int],
        ) && is_enum_or_union(g[field.shape as int])) ==> scalar::bytes_format(g, field)
            == Step::Done(None::<FormatView>),
        !scalar::is_bytes_field(field) && shape::is_transparent(g[field.shape as int])
            && is_enum_or_union(g[field.shape as int]) ==> scalar::bytes_format(g, field)
            is Unsupported,
{
    let shape = g[field.shape as int];
    if scalar::is_bytes_field(field) {
        assert(is_annotated_type(g, field, field.shape as int));
    } else if let Type::User(UserType::Struct(st)) = shape.ty {
        if st.fields@.len() == 1 {
            assert(shape::is_transparent(shape) && st.kind == StructKind::TupleStruct
                && scalar::is_bytes_field(st.fields@[0]) ==> is_annotated_type(
                g,
                field,
                st.fields@[0].shape as int,
            ));
        }
    }
}

pub open spec fn is_enum_or_union(shape: Shape) -> bool {
    shape.ty matches Type::User(user) && (user is Enum || user is Union)
}

/// A complaint names the type that is not made of bytes, behind an option if there is one.
pub proof fn law_complaint_text(g: Seq<Shape>, field: Field, i: int)
    requires
        is_annotated_type(g, field, i),
    ensures
        ({
            let k = match g[i].def {
                Def::Option(t) => t as int,
                _ => i,
            };
            scalar::bytes_complaint(g, field) == if is_made_of_bytes(g, k) {
                None
            } else {
                Some(g[k].type_identifier@ + " is not a valid bytes attribute"@)
            }
        }),
{
}

/// Complaints come in the order of the fields, one for each field that gives one and is not
/// skipped.
pub proof fn law_complaints(g: Seq<Shape>, fields: Seq<Field>, n: nat, k: int)
    requires
        0 <= k < n,
    ensures
        !fields[k].skip && scalar::bytes_complaint(g, fields[k]) is Some ==> scalar::complaints(
            g,
            fields,
            n,
        ).contains(scalar::bytes_complaint(g, fields[k])->0),
        scalar::complaints(g, fields, n).len() <= n,
        (forall|m: int|
            0 <= m < n ==> (#[trigger] fields[m]).skip || scalar::bytes_complaint(g, fields[m])
                is None) ==> scalar::complaints(g, fields, n).len() == 0,
        scalar::complaints(g, fields, (n - 1) as nat).is_prefix_of(
            scalar::complaints(g, fields, n),
        ),
    decreases n,
{
    let before = scalar::complaints(g, fields, (n - 1) as nat);
    let all = scalar::complaints(g, fields, n);
    if n > 1 {
        law_complaints(g, fields, (n - 1) as nat, if k < n - 1 {
            k
        } else {
            0
        });
    } else {
        assert(before.len() == 0);
    }
    if let Some(text) = scalar::bytes_complaint(g, fields[n - 1]) {
        if !fields[n - 1].skip {
            assert(all[all.len() - 1] == text);
        }
    }
    if k < n - 1 && !fields[k].skip && scalar::bytes_complaint(g, fields[k]) is Some {
        let text = scalar::bytes_complaint(g, fields[k])->0;
        let at = choose|at: int| 0 <= at < before.len() && before[at] == text;
        assert(all[at] == text);
    }
}

} // verus!
