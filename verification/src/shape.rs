//! The shapes of Rust types, gathered in a table.
//!
//! A shape refers to other shapes by their index in the table, so that recursive types can be
//! described. References that a walk follows without naming a container on the way (to the
//! element of a list, the target of a pointer, the type behind a transparent wrapper) go to
//! smaller indices, which is what makes every such walk end. The fields of structs and the
//! variants of enums may refer to any shape of the table.

use vstd::prelude::*;

use crate::identifier::NamespaceText;

verus! {

/// What an attribute carries.
#[derive(Debug, PartialEq, Eq)]
pub enum AttrData {
    /// A text.
    Text(String),
    /// The value of a namespace annotation; nothing for the root namespace.
    Namespace(Option<NamespaceText>),
    /// Some other annotation of the generator.
    Generator,
    /// Anything else.
    Other,
}

/// An attribute of a type, a field or a variant.
#[derive(Debug, PartialEq, Eq)]
pub struct Attr {
    /// The namespace of the attribute; nothing for a builtin attribute.
    pub ns: Option<String>,
    pub key: String,
    pub data: AttrData,
}

#[derive(Debug, Clone, Copy, PartialEq, Eq, Structural)]
pub enum StructKind {
    Unit,
    TupleStruct,
    Struct,
    /// An anonymous tuple.
    Tuple,
}

/// A field of a struct, a tuple or a variant.
#[derive(Debug, PartialEq, Eq)]
pub struct Field {
    /// The name of the field; of a positional field, its index.
    pub name: String,
    pub rename: Option<String>,
    /// The index of the shape of the field.
    pub shape: usize,
    /// Whether the field is left out.
    pub skip: bool,
    pub attributes: Vec<Attr>,
    pub doc: Vec<String>,
}

#[derive(Debug, PartialEq, Eq)]
pub struct StructType {
    pub kind: StructKind,
    pub fields: Vec<Field>,
}

#[derive(Debug, PartialEq, Eq)]
pub struct Variant {
    pub name: String,
    pub rename: Option<String>,
    pub attributes: Vec<Attr>,
    pub fields: Vec<Field>,
    pub doc: Vec<String>,
}

#[derive(Debug, PartialEq, Eq)]
pub struct EnumType {
    pub variants: Vec<Variant>,
}

#[derive(Debug, Clone, Copy, PartialEq, Eq, Structural)]
pub enum PrimitiveType {
    Boolean,
    Float,
    Integer { signed: bool },
    Str,
    Char,
    Never,
}

#[derive(Debug, Clone, Copy, PartialEq, Eq, Structural)]
pub enum SequenceType {
    /// A slice of the shape at this index.
    Slice(usize),
    /// An array of the shape at this index.
    Array(usize),
}

#[derive(Debug, PartialEq, Eq)]
pub enum UserType {
    Struct(StructType),
    Enum(EnumType),
    Union,
    Opaque,
}

#[derive(Debug, Clone, Copy, PartialEq, Eq, Structural)]
pub enum PointerType {
    /// A reference to the shape at this index.
    Reference(usize),
    /// A raw pointer to the shape at this index.
    Raw(usize),
    Function,
}

/// What kind of type a shape is of.
#[derive(Debug, PartialEq, Eq)]
pub enum Type {
    Undefined,
    Primitive(PrimitiveType),
    Sequence(SequenceType),
    User(UserType),
    Pointer(PointerType),
}

/// What a shape means.
#[derive(Debug, Clone, Copy, PartialEq, Eq, Structural)]
pub enum Def {
    Undefined,
    Scalar,
    MapOf { key: usize, value: usize },
    SetOf(usize),
    List(usize),
    Array { item: usize, size: usize },
    Slice(usize),
    Option(usize),
    /// A smart pointer, and its pointee where that is known.
    Pointer(Option<usize>),
    /// A meaning that has no format.
    Other,
}

/// The shape of a Rust type.
#[derive(Debug, PartialEq, Eq)]
pub struct Shape {
    /// The identity of the type.
    pub id: u64,
    /// The identity of its declaration, shared by all its instances.
    pub decl_id: u128,
    pub ty: Type,
    pub def: Def,
    /// The size in bytes, if the type has one.
    pub size: Option<usize>,
    /// The name of the type, without type parameters.
    pub type_identifier: String,
    /// The full name of the type, with type parameters.
    pub display: String,
    pub module: Option<String>,
    /// The type parameters as they are shown for debugging, if there are any.
    pub type_params: Option<String>,
    pub doc: Vec<String>,
    pub attributes: Vec<Attr>,
    pub type_tag: Option<String>,
    /// The index of the shape behind a wrapper.
    pub inner: Option<usize>,
    pub tag: Option<String>,
    pub content: Option<String>,
    pub rename: Option<String>,
}

/// Whether `attr` has the key `key` and the namespace `ns`.
pub open spec fn attr_is(attr: Attr, ns: Option<Seq<char>>, key: Seq<char>) -> bool {
    &&& attr.key@ == key
    &&& match (attr.ns, ns) {
        (Some(a), Some(b)) => a@ == b,
        (None, None) => true,
        _ => false,
    }
}

/// Whether one of the attributes has the key `key` and the namespace `ns`.
pub open spec fn has_attr(attributes: Seq<Attr>, ns: Option<Seq<char>>, key: Seq<char>) -> bool {
    exists|k: int| 0 <= k < attributes.len() && attr_is(#[trigger] attributes[k], ns, key)
}

/// A wrapper that is generated as the type it wraps.
pub open spec fn is_transparent(shape: Shape) -> bool {
    has_attr(shape.attributes@, None, "transparent"@)
}

/// A shape that is registered under a name of its own: a struct or an enum, but neither an
/// anonymous tuple nor an option.
pub open spec fn is_container(shape: Shape) -> bool {
    match shape.ty {
        Type::User(UserType::Struct(st)) => st.kind != StructKind::Tuple,
        Type::User(UserType::Enum(_)) => !(shape.def is Option),
        _ => false,
    }
}

/// Every shape that `def` mentions has an index below `bound`.
pub open spec fn def_below(def: Def, bound: int) -> bool {
    match def {
        Def::MapOf { key, value } => key < bound && value < bound,
        Def::SetOf(t) => t < bound,
        Def::List(t) => t < bound,
        Def::Array { item, size } => item < bound,
        Def::Slice(t) => t < bound,
        Def::Option(t) => t < bound,
        Def::Pointer(Some(t)) => t < bound,
        _ => true,
    }
}

/// Every field has a shape with an index below `bound`.
pub open spec fn fields_below(fields: Seq<Field>, bound: int) -> bool {
    forall|k: int| 0 <= k < fields.len() ==> (#[trigger] fields[k]).shape < bound
}

/// Every shape that `ty` mentions, but in the variants of an enum, has an index below `bound`.
pub open spec fn structure_below(ty: Type, bound: int) -> bool {
    match ty {
        Type::Sequence(SequenceType::Slice(t)) => t < bound,
        Type::Sequence(SequenceType::Array(t)) => t < bound,
        Type::Pointer(PointerType::Reference(t)) => t < bound,
        Type::Pointer(PointerType::Raw(t)) => t < bound,
        Type::User(UserType::Struct(st)) => fields_below(st.fields@, bound),
        _ => true,
    }
}

/// The variants can be numbered, and every field of one has a shape with an index below `bound`.
pub open spec fn variants_below(ty: Type, bound: int) -> bool {
    match ty {
        Type::User(UserType::Enum(et)) => {
            &&& et.variants@.len() <= u32::MAX
            &&& forall|v: int|
                0 <= v < et.variants@.len() ==> fields_below(
                    (#[trigger] et.variants@[v]).fields@,
                    bound,
                )
        },
        _ => true,
    }
}

/// The shape at index `i` refers to shapes of the table alone, and what is followed from it
/// without naming a container has a smaller index.
pub open spec fn shape_wf(g: Seq<Shape>, i: int) -> bool {
    let shape = g[i];
    &&& def_below(shape.def, g.len() as int)
    &&& structure_below(shape.ty, g.len() as int)
    &&& variants_below(shape.ty, g.len() as int)
    &&& is_transparent(shape) ==> (shape.inner matches Some(c) ==> c < i)
    &&& shape.def is Option ==> def_below(shape.def, i)
    &&& !is_container(shape) ==> def_below(shape.def, i) && structure_below(shape.ty, i)
}

/// No two shapes are of one type.
pub open spec fn ids_differ(g: Seq<Shape>) -> bool {
    forall|i: int, j: int|
        #![trigger g[i], g[j]]
        0 <= i < g.len() && 0 <= j < g.len() && g[i].id == g[j].id ==> i == j
}

/// Every shape of the table is well formed, and each is of a type of its own.
pub open spec fn shapes_wf(g: Seq<Shape>) -> bool {
    &&& forall|i: int| 0 <= i < g.len() ==> #[trigger] shape_wf(g, i)
    &&& ids_differ(g)
}

/// Whether `attr` has the key `key` and the namespace `ns`.
pub fn test_attr(attr: &Attr, ns: Option<&str>, key: &str) -> (r: bool)
    ensures
        r == attr_is(
            *attr,
            match ns {
                Some(n) => Some(n@),
                None => None,
            },
            key@,
        ),
{
    *attr.key.as_str() == *key && match (&attr.ns, ns) {
        (Some(a), Some(b)) => *a.as_str() == *b,
        (None, None) => true,
        _ => false,
    }
}

/// Whether one of the attributes has the key `key` and the namespace `ns`.
pub fn any_attr(attributes: &Vec<Attr>, ns: Option<&str>, key: &str) -> (r: bool)
    ensures
        r == has_attr(
            attributes@,
            match ns {
                Some(n) => Some(n@),
                None => None,
            },
            key@,
        ),
{
    for k in 0..attributes.len()
        invariant
            forall|j: int|
                0 <= j < k ==> !attr_is(
                    #[trigger] attributes@[j],
                    match ns {
                        Some(n) => Some(n@),
                        None => None,
                    },
                    key@,
                ),
    {
        if test_attr(&attributes[k], ns, key) {
            return true;
        }
    }
    false
}

/// Whether the shape is a wrapper that is generated as the type it wraps.
pub fn is_transparent_shape(shape: &Shape) -> (r: bool)
    ensures
        r == is_transparent(*shape),
{
    any_attr(&shape.attributes, None, "transparent")
}

/// Whether the shape is registered under a name of its own.
pub fn is_container_shape(shape: &Shape) -> (r: bool)
    ensures
        r == is_container(*shape),
{
    match &shape.ty {
        Type::User(UserType::Struct(st)) => match st.kind {
            StructKind::Tuple => false,
            _ => true,
        },
        Type::User(UserType::Enum(_)) => match shape.def {
            Def::Option(_) => false,
            _ => true,
        },
        _ => false,
    }
}

pub(crate) fn test_def_below(def: &Def, bound: usize) -> (r: bool)
    ensures
        r == def_below(*def, bound as int),
{
    match def {
        Def::MapOf { key, value } => *key < bound && *value < bound,
        Def::SetOf(t) => *t < bound,
        Def::List(t) => *t < bound,
        Def::Array { item, size: _ } => *item < bound,
        Def::Slice(t) => *t < bound,
        Def::Option(t) => *t < bound,
        Def::Pointer(Some(t)) => *t < bound,
        _ => true,
    }
}

fn test_fields_below(fields: &Vec<Field>, bound: usize) -> (r: bool)
    ensures
        r == fields_below(fields@, bound as int),
{
    for k in 0..fields.len()
        invariant
            forall|j: int| 0 <= j < k ==> (#[trigger] fields@[j]).shape < bound,
    {
        if fields[k].shape >= bound {
            assert(!(fields@[k as int].shape < bound));
            return false;
        }
    }
    true
}

pub(crate) fn test_structure_below(ty: &Type, bound: usize) -> (r: bool)
    ensures
        r == structure_below(*ty, bound as int),
{
    match ty {
        Type::Sequence(SequenceType::Slice(t)) => *t < bound,
        Type::Sequence(SequenceType::Array(t)) => *t < bound,
        Type::Pointer(PointerType::Reference(t)) => *t < bound,
        Type::Pointer(PointerType::Raw(t)) => *t < bound,
        Type::User(UserType::Struct(st)) => test_fields_below(&st.fields, bound),
        _ => true,
    }
}

pub(crate) fn test_variants_below(ty: &Type, bound: usize) -> (r: bool)
    ensures
        r == variants_below(*ty, bound as int),
{
    match ty {
        Type::User(UserType::Enum(et)) => {
            if et.variants.len() as u64 > u32::MAX as u64 {
                return false;
            }
            for v in 0..et.variants.len()
                invariant
                    *ty matches Type::User(UserType::Enum(e)) && e == *et,
                    forall|w: int|
                        0 <= w < v ==> fields_below(
                            (#[trigger] et.variants@[w]).fields@,
                            bound as int,
                        ),
            {
                if !test_fields_below(&et.variants[v].fields, bound) {
                    assert(!fields_below(et.variants@[v as int].fields@, bound as int));
                    return false;
                }
            }
            true
        },
        _ => true,
    }
}

fn test_shape(shapes: &Vec<Shape>, i: usize) -> (r: bool)
    requires
        i < shapes@.len(),
    ensures
        r == shape_wf(shapes@, i as int),
{
    let shape = &shapes[i];
    let inner_ok = match shape.inner {
        Some(c) => c < i,
        None => true,
    };
    let option_ok = match shape.def {
        Def::Option(t) => t < i,
        _ => true,
    };
    test_def_below(&shape.def, shapes.len()) && test_structure_below(&shape.ty, shapes.len())
        && test_variants_below(&shape.ty, shapes.len()) && (!is_transparent_shape(shape)
        || inner_ok) && option_ok && (is_container_shape(shape) || (test_def_below(&shape.def, i)
        && test_structure_below(&shape.ty, i)))
}

/// Whether each shape is of a type of its own.
pub fn test_ids_differ(shapes: &Vec<Shape>) -> (r: bool)
    ensures
        r == ids_differ(shapes@),
{
    for i in 0..shapes.len()
        invariant
            forall|a: int, b: int|
                #![trigger shapes@[a], shapes@[b]]
                0 <= a < b < i ==> shapes@[a].id != shapes@[b].id,
    {
        for j in 0..i
            invariant
                i < shapes@.len(),
                forall|a: int| 0 <= a < j ==> (#[trigger] shapes@[a]).id != shapes@[i as int].id,
        {
            if shapes[j].id == shapes[i].id {
                assert(shapes@[j as int].id == shapes@[i as int].id);
                return false;
            }
        }
    }
    true
}

/// A table of shapes that refer to each other.
#[derive(Debug, PartialEq, Eq)]
pub struct TypeTable {
    shapes: Vec<Shape>,
}

impl View for TypeTable {
    type V = Seq<Shape>;

    closed spec fn view(&self) -> Seq<Shape> {
        self.shapes@
    }
}

impl TypeTable {
    /// Every shape of the table is well formed and of a type of its own, and its length can be
    /// counted.
    pub open spec fn wf(self) -> bool {
        shapes_wf(self@) && self@.len() <= usize::MAX
    }

    /// The table of `shapes`, unless one of them is not well formed or two are of one type.
    pub fn new(shapes: Vec<Shape>) -> (r: Option<Self>)
        ensures
            match r {
                Some(table) => shapes_wf(shapes@) && table@ == shapes@ && table.wf(),
                None => !shapes_wf(shapes@),
            },
    {
        for i in 0..shapes.len()
            invariant
                forall|j: int| 0 <= j < i ==> #[trigger] shape_wf(shapes@, j),
        {
            if !test_shape(&shapes, i) {
                assert(!shape_wf(shapes@, i as int));
                return None;
            }
        }
        if !test_ids_differ(&shapes) {
            return None;
        }
        Some(TypeTable { shapes })
    }

    pub fn len(&self) -> (r: usize)
        ensures
            r == self@.len(),
    {
        self.shapes.len()
    }

    /// The shape at index `i`.
    pub fn get(&self, i: usize) -> (r: &Shape)
        requires
            i < self@.len(),
        ensures
            *r == self@[i as int],
    {
        &self.shapes[i]
    }
}

} // verus!
