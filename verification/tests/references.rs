//! References to types, and the format of a type.

use facet_generate::error::Error;
use facet_generate::format::{ContainerFormat, Doc, Format, Named};
use facet_generate::identifier::NamespaceText;
use facet_generate::names::QualifiedTypeName;
use facet_generate::shape::{
    Attr, AttrData, Def, EnumType, Field, PointerType, PrimitiveType, Shape, StructKind, StructType,
    Type, TypeTable, UserType, Variant,
};
use facet_generate::step::Halt;
use facet_generate::RegistryBuilder;

fn blank(id: u64, identifier: &str) -> Shape {
    Shape {
        id,
        decl_id: u128::from(id),
        ty: Type::User(UserType::Opaque),
        def: Def::Undefined,
        size: None,
        type_identifier: identifier.to_string(),
        display: identifier.to_string(),
        module: None,
        type_params: None,
        doc: vec![],
        attributes: vec![],
        type_tag: None,
        inner: None,
        tag: None,
        content: None,
        rename: None,
    }
}

fn integer(id: u64, identifier: &str, signed: bool, size: usize) -> Shape {
    Shape {
        ty: Type::Primitive(PrimitiveType::Integer { signed }),
        def: Def::Scalar,
        size: Some(size),
        ..blank(id, identifier)
    }
}

fn text(id: u64) -> Shape {
    Shape {
        def: Def::Scalar,
        ..blank(id, "String")
    }
}

fn structure(id: u64, identifier: &str, kind: StructKind, fields: Vec<Field>) -> Shape {
    Shape {
        ty: Type::User(UserType::Struct(StructType { kind, fields })),
        ..blank(id, identifier)
    }
}

fn enumeration(id: u64, identifier: &str, variants: Vec<Variant>) -> Shape {
    Shape {
        ty: Type::User(UserType::Enum(EnumType { variants })),
        ..blank(id, identifier)
    }
}

fn list(id: u64, item: usize) -> Shape {
    Shape {
        def: Def::List(item),
        ..blank(id, "Vec")
    }
}

fn option(id: u64, item: usize) -> Shape {
    Shape {
        def: Def::Option(item),
        ..enumeration(id, "Option", vec![])
    }
}

fn field(name: &str, shape: usize) -> Field {
    Field {
        name: name.to_string(),
        rename: None,
        shape,
        skip: false,
        attributes: vec![],
        doc: vec![],
    }
}

fn mark(ns: Option<&str>, key: &str) -> Attr {
    Attr {
        ns: ns.map(ToString::to_string),
        key: key.to_string(),
        data: AttrData::Generator,
    }
}

fn space(text: &str) -> Attr {
    Attr {
        data: AttrData::Namespace(Some(NamespaceText::new(text.to_string()))),
        ..mark(Some("fg"), "namespace")
    }
}

fn root(name: &str) -> QualifiedTypeName {
    QualifiedTypeName::root(name.to_string())
}

fn within(namespace: &str, name: &str) -> QualifiedTypeName {
    QualifiedTypeName::namespaced(namespace.to_string(), name.to_string())
}

fn table(shapes: Vec<Shape>) -> TypeTable {
    match TypeTable::new(shapes) {
        Some(table) => table,
        None => panic!("the shapes are not in order"),
    }
}

fn named(name: &str, value: Format) -> Named<Format> {
    Named {
        name: name.to_string(),
        doc: Doc(vec![]),
        value,
    }
}

fn no_doc() -> Doc {
    Doc(vec![])
}

fn reflect(types: &TypeTable, shape: usize) -> RegistryBuilder {
    match RegistryBuilder::new().add_shape(types, shape) {
        Ok(builder) => builder,
        Err(halt) => panic!("{halt:?}"),
    }
}

fn container<'a>(builder: &'a RegistryBuilder, name: &QualifiedTypeName) -> &'a ContainerFormat {
    match builder.registry.get(name) {
        Some(container) => container,
        None => panic!("{name:?} is not registered"),
    }
}


fn format_of(types: &TypeTable, shape: usize) -> Format {
    match RegistryBuilder::new().format_of(types, shape) {
        Ok(format) => format,
        Err(error) => panic!("{error:?}"),
    }
}

#[test]
fn integers_have_the_format_of_their_size_and_sign() {
    let expected = [
        (false, 1, Format::U8),
        (false, 2, Format::U16),
        (false, 4, Format::U32),
        (false, 8, Format::U64),
        (false, 16, Format::U128),
        (true, 1, Format::I8),
        (true, 2, Format::I16),
        (true, 4, Format::I32),
        (true, 8, Format::I64),
        (true, 16, Format::I128),
    ];
    for (signed, size, format) in expected {
        let types = table(vec![integer(1, "int", signed, size)]);
        assert_eq!(format_of(&types, 0), format);
    }
    let types = table(vec![integer(1, "int", true, 3)]);
    assert_eq!(
        RegistryBuilder::new().format_of_shape(&types, 0),
        Err(Halt::Unsupported)
    );
}

#[test]
fn scalars_have_their_formats() {
    let scalar = |identifier: &str, ty: Type| {
        format_of(
            &table(vec![Shape {
                ty,
                def: Def::Scalar,
                ..blank(1, identifier)
            }]),
            0,
        )
    };
    let primitive = |primitive: PrimitiveType| Type::Primitive(primitive);
    let opaque = || Type::User(UserType::Opaque);
    assert_eq!(scalar("bool", primitive(PrimitiveType::Boolean)), Format::Bool);
    assert_eq!(scalar("f32", primitive(PrimitiveType::Float)), Format::F32);
    assert_eq!(scalar("f64", primitive(PrimitiveType::Float)), Format::F64);
    assert_eq!(scalar("str", primitive(PrimitiveType::Str)), Format::Str);
    assert_eq!(scalar("char", primitive(PrimitiveType::Char)), Format::Char);
    assert_eq!(scalar("String", opaque()), Format::Str);
    assert_eq!(scalar("DateTime<Utc>", opaque()), Format::Str);
    assert_eq!(scalar("Uuid", opaque()), Format::Uuid);
}

#[test]
fn an_unknown_scalar_cannot_be_referred_to() {
    let types = table(vec![
        Shape {
            def: Def::Scalar,
            ..blank(1, "Handle")
        },
        list(2, 0),
    ]);
    let expected = Error::ReflectionError {
        container: "Handle".to_string(),
        message: "Scalar type is not supported and should be skipped".to_string(),
    };
    assert_eq!(RegistryBuilder::new().format_of(&types, 1), Err(expected));
}

#[test]
fn a_meaning_without_a_format_cannot_be_referred_to() {
    let types = table(vec![Shape {
        def: Def::Other,
        ..blank(1, "Result")
    }]);
    assert_eq!(
        RegistryBuilder::new().format_of(&types, 0),
        Err(Error::ReflectionError {
            container: "Result".to_string(),
            message: "Type is not supported and should be skipped".to_string(),
        })
    );
}

#[test]
fn structural_types_are_unwrapped() {
    let types = table(vec![
        integer(1, "u8", false, 1),
        text(2),
        list(3, 0),
        option(4, 2),
        Shape {
            def: Def::SetOf(1),
            ..blank(5, "HashSet")
        },
        Shape {
            def: Def::MapOf { key: 1, value: 3 },
            ..blank(6, "HashMap")
        },
        Shape {
            def: Def::Array { item: 5, size: 7 },
            ..blank(7, "[T; N]")
        },
        Shape {
            def: Def::Pointer(Some(6)),
            ..blank(8, "Arc")
        },
        Shape {
            def: Def::Pointer(None),
            ..blank(9, "Arc")
        },
        Shape {
            ty: Type::Pointer(PointerType::Reference(1)),
            ..blank(10, "&T")
        },
        structure(11, "()", StructKind::Tuple, vec![]),
        structure(
            12,
            "(…)",
            StructKind::Tuple,
            vec![field("0", 4), field("1", 7), field("2", 10)],
        ),
    ]);
    let seq = || Format::SeqOf(Box::new(Format::U8));
    let map = || Format::MapOf {
        key: Box::new(Format::Str),
        value: Box::new(Format::Option(Box::new(seq()))),
    };
    let array = || Format::TupleArray {
        content: Box::new(map()),
        size: 7,
    };
    // A list of bytes is a list: the bytes annotation is one of fields.
    assert_eq!(format_of(&types, 2), seq());
    assert_eq!(format_of(&types, 4), Format::SetOf(Box::new(Format::Str)));
    assert_eq!(format_of(&types, 5), map());
    assert_eq!(format_of(&types, 7), array());
    assert_eq!(format_of(&types, 8), Format::Unit);
    assert_eq!(format_of(&types, 9), Format::Str);
    assert_eq!(format_of(&types, 10), Format::Unit);
    assert_eq!(
        format_of(&types, 11),
        Format::Tuple(vec![
            Format::SetOf(Box::new(Format::Str)),
            array(),
            Format::Unit
        ])
    );
}

#[test]
fn containers_are_named_from_their_attributes() {
    let types = table(vec![
        structure(1, "Plain", StructKind::Unit, vec![]),
        Shape {
            attributes: vec![space("home")],
            rename: Some("Renamed".to_string()),
            ..structure(2, "Annotated", StructKind::Unit, vec![])
        },
        Shape {
            attributes: vec![mark(None, "transparent")],
            inner: Some(1),
            ..structure(3, "Wrapper", StructKind::TupleStruct, vec![field("0", 1)])
        },
        Shape {
            type_tag: Some("Tag".to_string()),
            ..structure(4, "Tagged", StructKind::Unit, vec![])
        },
    ]);
    assert_eq!(format_of(&types, 0), Format::TypeName(root("Plain")));
    assert_eq!(
        format_of(&types, 1),
        Format::TypeName(within("home", "Renamed"))
    );
    assert_eq!(
        format_of(&types, 2),
        Format::TypeName(within("home", "Renamed"))
    );
    assert_eq!(format_of(&types, 3), Format::TypeName(root("Tag")));
}

#[test]
fn a_struct_is_a_container_whatever_its_meaning() {
    let types = table(vec![Shape {
        def: Def::Scalar,
        ..structure(1, "Range", StructKind::Struct, vec![])
    }]);
    assert_eq!(format_of(&types, 0), Format::TypeName(root("Range")));
}

#[test]
fn the_format_of_a_type_is_that_of_a_field() {
    let types = table(vec![
        Shape {
            rename: Some("Leaf2".to_string()),
            ..structure(1, "Leaf", StructKind::Unit, vec![])
        },
        list(2, 0),
        structure(3, "Tree", StructKind::Struct, vec![field("leaves", 1)]),
    ]);
    let builder = reflect(&types, 2);
    let format = builder.format_of(&types, 1).unwrap();
    assert_eq!(
        format,
        Format::SeqOf(Box::new(Format::TypeName(root("Leaf2"))))
    );
    assert_eq!(
        container(&builder, &root("Tree")),
        &ContainerFormat::Struct(vec![named("leaves", format)], no_doc())
    );
}

#[test]
fn asking_for_a_format_registers_nothing() {
    let types = table(vec![structure(1, "Lone", StructKind::Unit, vec![])]);
    let builder = RegistryBuilder::new();
    assert!(builder.format_of(&types, 0).is_ok());
    assert_eq!(builder.registry.len(), 0);
}

#[test]
fn a_rename_recorded_in_the_root_is_used_everywhere() {
    let types = table(vec![
        Shape {
            rename: Some("New".to_string()),
            ..structure(1, "Old", StructKind::Unit, vec![])
        },
        Shape {
            attributes: vec![space("home")],
            ..structure(2, "House", StructKind::Struct, vec![field("inside", 0)])
        },
    ]);
    let builder = reflect(&types, 0).add_type(&types, 1).unwrap();
    assert_eq!(
        container(&builder, &within("home", "House")),
        &ContainerFormat::Struct(
            vec![named("inside", Format::TypeName(root("New")))],
            no_doc()
        )
    );
    // On its own the type takes the namespace of the context.
    let builder = reflect(&types, 1);
    assert_eq!(
        container(&builder, &within("home", "House")),
        &ContainerFormat::Struct(
            vec![named("inside", Format::TypeName(within("home", "New")))],
            no_doc()
        )
    );
}
