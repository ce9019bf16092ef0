//! What the attributes of a type say of its own name.

use vstd::prelude::*;

use crate::error::{Error, ErrorView};
use crate::format::{EnumTagging, TaggingView};
use crate::names;
use crate::names::{NameView, Namespace, QualifiedTypeName};
use crate::namespace;
use crate::namespace::{ActionView, NamespaceAction};
use crate::shape;
use crate::shape::{Attr, AttrData, Field, Shape, TypeTable, Variant};

verus! {

/// The shape behind a transparent wrapper.
pub open spec fn inner_of(g: Seq<Shape>, i: int) -> Option<int> {
    if 0 <= i < g.len() && shape::is_transparent(g[i]) {
        match g[i].inner {
            Some(c) => if c < i {
                Some(c as int)
            } else {
                None
            },
            None => None,
        }
    } else {
        None
    }
}

/// The shape itself, or the one behind it if it is a transparent wrapper.
pub open spec fn unwrapped(g: Seq<Shape>, i: int) -> int {
    match inner_of(g, i) {
        Some(c) => c,
        None => i,
    }
}

/// The shape that a shape is generated as: what a chain of transparent wrappers ends in.
pub open spec fn generated(g: Seq<Shape>, i: int) -> int
    decreases i,
{
    match inner_of(g, i) {
        Some(c) => generated(g, c),
        None => i,
    }
}

/// The chain of wrappers ends in a shape of the table, which is not after its beginning and
/// is no wrapper itself.
pub broadcast proof fn lemma_generated(g: Seq<Shape>, i: int)
    requires
        0 <= i < g.len(),
    ensures
        0 <= #[trigger] generated(g, i) <= i,
        inner_of(g, generated(g, i)) is None,
        inner_of(g, i) is Some ==> generated(g, i) < i,
        generated(g, generated(g, i)) == generated(g, i),
    decreases i,
{
    if let Some(c) = inner_of(g, i) {
        lemma_generated(g, c);
    }
}

/// The index of the shape behind a transparent wrapper, one step on; that of the shape itself if it
/// is none.
pub fn unwrap_shape(types: &TypeTable, i: usize) -> (r: usize)
    requires
        types.wf(),
        i < types@.len(),
    ensures
        r == unwrapped(types@, i as int),
        r <= i,
{
    let shape = types.get(i);
    assert(shape::shape_wf(types@, i as int));
    if shape::is_transparent_shape(shape) {
        match shape.inner {
            Some(c) => c,
            None => i,
        }
    } else {
        i
    }
}

/// The shape that the shape at `i` is generated as.
///
/// A transparent wrapper is generated as the type it wraps, under that type's name, so the two
/// share an identity here, however long the chain of wrappers. Any other shape is its own.
pub fn generated_shape(types: &TypeTable, i: usize) -> (r: usize)
    requires
        types.wf(),
        i < types@.len(),
    ensures
        r == generated(types@, i as int),
        r <= i,
{
    let mut at: usize = i;
    loop
        invariant
            types.wf(),
            i < types@.len(),
            at <= i,
            generated(types@, i as int) == generated(types@, at as int),
        decreases at,
    {
        let next = unwrap_shape(types, at);
        if next == at {
            return at;
        }
        at = next;
    }
}

/// The Rust path of a type: the module, where it is known, and the name.
pub open spec fn path_text(shape: Shape) -> Seq<char> {
    match shape.module {
        Some(path) => path@ + "::"@ + shape.display@,
        None => shape.display@,
    }
}

/// The Rust path of a type, for use in error messages.
pub fn rust_path(shape: &Shape) -> (r: String)
    ensures
        r@ == path_text(*shape),
{
    match &shape.module {
        Some(path) => {
            let mut text = path.clone();
            text.append("::");
            text.append(shape.display.as_str());
            text
        },
        None => shape.display.clone(),
    }
}

/// The text of the first `rename` attribute from `from` on that carries one.
pub open spec fn rename_from(attributes: Seq<Attr>, from: int) -> Option<Seq<char>>
    decreases attributes.len() - from,
{
    if from < 0 || from >= attributes.len() {
        None
    } else if shape::attr_is(attributes[from], None, "rename"@) && attributes[from].data is Text {
        Some(attributes[from].data->Text_0@)
    } else {
        rename_from(attributes, from + 1)
    }
}

/// The rename value among the attributes of a shape.
pub fn extract_rename_from_shape_attributes(shape: &Shape) -> (r: Option<&String>)
    ensures
        match (r, rename_from(shape.attributes@, 0)) {
            (Some(a), Some(b)) => a@ == b,
            (None, None) => true,
            _ => false,
        },
{
    for k in 0..shape.attributes.len()
        invariant
            rename_from(shape.attributes@, 0) == rename_from(shape.attributes@, k as int),
    {
        let attr = &shape.attributes[k];
        if shape::test_attr(attr, None, "rename") {
            if let AttrData::Text(text) = &attr.data {
                return Some(text);
            }
        }
    }
    None
}

/// The name of a type before any namespace: its rename, else its identifier.
pub open spec fn base_name(shape: Shape) -> Seq<char> {
    match shape.rename {
        Some(name) => name@,
        None => match rename_from(shape.attributes@, 0) {
            Some(name) => name,
            None => shape.type_identifier@,
        },
    }
}

fn base_name_of(shape: &Shape) -> (r: String)
    ensures
        r@ == base_name(*shape),
{
    match &shape.rename {
        Some(name) => name.clone(),
        None => match extract_rename_from_shape_attributes(shape) {
            Some(name) => name.clone(),
            None => shape.type_identifier.clone(),
        },
    }
}

/// The name that a type's own attributes give it: its type tag in the root namespace, if it has
/// one; the name of what it wraps, if it is transparent; else its base name in the namespace that
/// it is annotated with, or in the root namespace.
pub open spec fn own_name(g: Seq<Shape>, i: int) -> Result<NameView, ErrorView>
    decreases i,
{
    let shape = g[i];
    match shape.type_tag {
        Some(tag) => Ok(names::root_name(tag@)),
        None => match namespace::namespace_action(shape.attributes@) {
            Err(e) => Err(e),
            Ok(action) => match inner_of(g, i) {
                Some(c) => own_name(g, c),
                None => Ok(
                    match action {
                        ActionView::SetContext(context) => NameView {
                            namespace: context.namespace,
                            name: base_name(shape),
                        },
                        ActionView::Inherit => names::root_name(base_name(shape)),
                    },
                ),
            },
        },
    }
}

/// The name that a type's own attributes give it.
pub fn get_name(types: &TypeTable, i: usize) -> (r: Result<QualifiedTypeName, Error>)
    requires
        types.wf(),
        i < types@.len(),
    ensures
        match (r, own_name(types@, i as int)) {
            (Ok(a), Ok(b)) => a@ == b,
            (Err(a), Err(b)) => a@ == b,
            _ => false,
        },
    decreases i,
{
    let shape = types.get(i);
    if let Some(tag) = &shape.type_tag {
        return Ok(QualifiedTypeName::root(tag.clone()));
    }
    let action = match namespace::extract_namespace_from_shape(shape) {
        Ok(action) => action,
        Err(e) => {
            return Err(e);
        },
    };
    let inner = unwrap_shape(types, i);
    if inner != i {
        return get_name(types, inner);
    }
    let base = base_name_of(shape);
    Ok(
        match action {
            NamespaceAction::SetContext(context) => match context.namespace {
                Namespace::Root => QualifiedTypeName::root(base),
                Namespace::Named(name) => QualifiedTypeName::namespaced(name, base),
            },
            NamespaceAction::Inherit => QualifiedTypeName::root(base),
        },
    )
}

/// The first text if there is one, else the second.
pub open spec fn renamed(rename: Option<String>, name: String) -> Seq<char> {
    match rename {
        Some(text) => text@,
        None => name@,
    }
}

/// Returns the display name for a field: its rename, else its name.
pub fn field_display_name(field: &Field) -> (r: String)
    ensures
        r@ == renamed(field.rename, field.name),
{
    match &field.rename {
        Some(name) => name.clone(),
        None => field.name.clone(),
    }
}

/// Returns the display name for a variant: its rename, else its name.
pub fn variant_display_name(variant: &Variant) -> (r: String)
    ensures
        r@ == renamed(variant.rename, variant.name),
{
    match &variant.rename {
        Some(name) => name.clone(),
        None => variant.name.clone(),
    }
}

/// How the variants of an enum are told apart: by a tag beside a content, by a tag within the
/// content, or from outside.
pub open spec fn tagging(shape: Shape) -> TaggingView {
    match (shape.tag, shape.content) {
        (Some(tag), Some(content)) => TaggingView::Adjacent { tag: tag@, content: content@ },
        (Some(tag), None) => TaggingView::Internal { tag: tag@ },
        _ => TaggingView::External,
    }
}

/// How the variants of the enum are told apart.
pub fn extract_enum_tagging(shape: &Shape) -> (r: EnumTagging)
    ensures
        r@ == tagging(*shape),
{
    match (&shape.tag, &shape.content) {
        (Some(tag), Some(content)) => EnumTagging::Adjacent {
            tag: tag.clone(),
            content: content.clone(),
        },
        (Some(tag), None) => EnumTagging::Internal { tag: tag.clone() },
        _ => EnumTagging::External,
    }
}

} // verus!
