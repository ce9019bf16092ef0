//! Structs, enums and what they become.

use std::collections::BTreeMap;

use facet_generate::error::Error;
use facet_generate::format::{ContainerFormat, Doc, EnumTagging, Format, Named, VariantFormat};
use facet_generate::names::QualifiedTypeName;
use facet_generate::scalar::bytes_complaints;
use facet_generate::shape::{
    Attr, AttrData, Def, EnumType, Field, PointerType, PrimitiveType, SequenceType, Shape,
    StructKind, StructType, Type, TypeTable, UserType, Variant,
};
use facet_generate::step::Halt;
use facet_generate::RegistryBuilder;

fn blank(id: u64, identifier: &str) -> Shape {
    Shape {
        id,
        decl_id: u128::from(id),
        ty: Type::User(UserType::Opaque),
        def: Def::Undefined,
        size: None,
        type_identifier: identifier.to_string(),
        display: identifier.to_string(),
        module: None,
        type_params: None,
        doc: vec![],
        attributes: vec![],
        type_tag: None,
        inner: None,
        tag: None,
        content: None,
        rename: None,
    }
}

fn integer(id: u64, identifier: &str, signed: bool, size: usize) -> Shape {
    Shape {
        ty: Type::Primitive(PrimitiveType::Integer { signed }),
        def: Def::Scalar,
        size: Some(size),
        ..blank(id, identifier)
    }
}

fn text(id: u64) -> Shape {
    Shape {
        def: Def::Scalar,
        ..blank(id, "String")
    }
}

fn structure(id: u64, identifier: &str, kind: StructKind, fields: Vec<Field>) -> Shape {
    Shape {
        ty: Type::User(UserType::Struct(StructType { kind, fields })),
        ..blank(id, identifier)
    }
}

fn enumeration(id: u64, identifier: &str, variants: Vec<Variant>) -> Shape {
    Shape {
        ty: Type::User(UserType::Enum(EnumType { variants })),
        ..blank(id, identifier)
    }
}

fn list(id: u64, item: usize) -> Shape {
    Shape {
        def: Def::List(item),
        ..blank(id, "Vec")
    }
}

fn option(id: u64, item: usize) -> Shape {
    Shape {
        def: Def::Option(item),
        ..enumeration(id, "Option", vec![])
    }
}

fn field(name: &str, shape: usize) -> Field {
    Field {
        name: name.to_string(),
        rename: None,
        shape,
        skip: false,
        attributes: vec![],
        doc: vec![],
    }
}

fn variant(name: &str, fields: Vec<Field>) -> Variant {
    Variant {
        name: name.to_string(),
        rename: None,
        attributes: vec![],
        fields,
        doc: vec![],
    }
}

fn mark(ns: Option<&str>, key: &str) -> Attr {
    Attr {
        ns: ns.map(ToString::to_string),
        key: key.to_string(),
        data: AttrData::Generator,
    }
}

fn root(name: &str) -> QualifiedTypeName {
    QualifiedTypeName::root(name.to_string())
}

fn table(shapes: Vec<Shape>) -> TypeTable {
    match TypeTable::new(shapes) {
        Some(table) => table,
        None => panic!("the shapes are not in order"),
    }
}

fn named(name: &str, value: Format) -> Named<Format> {
    Named {
        name: name.to_string(),
        doc: Doc(vec![]),
        value,
    }
}

fn no_doc() -> Doc {
    Doc(vec![])
}

fn reflect(types: &TypeTable, shape: usize) -> RegistryBuilder {
    match RegistryBuilder::new().add_shape(types, shape) {
        Ok(builder) => builder,
        Err(halt) => panic!("{halt:?}"),
    }
}

fn refusal(types: &TypeTable, shape: usize) -> Error {
    match RegistryBuilder::new().add_shape(types, shape) {
        Err(Halt::Error(error)) => error,
        other => panic!("{other:?}"),
    }
}

fn container<'a>(builder: &'a RegistryBuilder, name: &QualifiedTypeName) -> &'a ContainerFormat {
    match builder.registry.get(name) {
        Some(container) => container,
        None => panic!("{name:?} is not registered"),
    }
}


#[test]
fn a_unit_struct_becomes_a_unit_struct() {
    let types = table(vec![Shape {
        doc: vec![" A marker.".to_string()],
        ..structure(1, "Marker", StructKind::Unit, vec![])
    }]);
    let builder = reflect(&types, 0);
    assert_eq!(
        container(&builder, &root("Marker")),
        &ContainerFormat::UnitStruct(Doc(vec![" A marker.".to_string()]))
    );
    assert_eq!(builder.registry.len(), 1);
}

#[test]
fn a_newtype_struct_holds_the_format_of_its_field() {
    let types = table(vec![
        integer(1, "u64", false, 8),
        structure(2, "Id", StructKind::TupleStruct, vec![field("0", 0)]),
    ]);
    let builder = reflect(&types, 1);
    assert_eq!(
        container(&builder, &root("Id")),
        &ContainerFormat::NewTypeStruct(Box::new(Format::U64), no_doc())
    );
}

#[test]
fn a_tuple_struct_leaves_out_skipped_fields() {
    let types = table(vec![
        integer(1, "i8", true, 1),
        text(2),
        structure(
            3,
            "Pair",
            StructKind::TupleStruct,
            vec![
                field("0", 0),
                Field {
                    skip: true,
                    ..field("1", 0)
                },
                field("2", 1),
            ],
        ),
    ]);
    let builder = reflect(&types, 2);
    assert_eq!(
        container(&builder, &root("Pair")),
        &ContainerFormat::TupleStruct(vec![Format::I8, Format::Str], no_doc())
    );
}

#[test]
fn a_struct_has_its_fields_in_order() {
    let types = table(vec![
        integer(1, "u16", false, 2),
        text(2),
        option(3, 1),
        list(4, 0),
        structure(
            5,
            "Person",
            StructKind::Struct,
            vec![
                Field {
                    rename: Some("full_name".to_string()),
                    doc: vec![" The name.".to_string()],
                    ..field("name", 1)
                },
                field("nick", 2),
                field("scores", 3),
            ],
        ),
    ]);
    let builder = reflect(&types, 4);
    assert_eq!(
        container(&builder, &root("Person")),
        &ContainerFormat::Struct(
            vec![
                Named {
                    doc: Doc(vec![" The name.".to_string()]),
                    ..named("full_name", Format::Str)
                },
                named("nick", Format::Option(Box::new(Format::Str))),
                named("scores", Format::SeqOf(Box::new(Format::U16))),
            ],
            no_doc()
        )
    );
}

#[test]
fn a_struct_without_fields_left_becomes_a_unit_struct() {
    let types = table(vec![
        text(1),
        structure(
            2,
            "Hidden",
            StructKind::Struct,
            vec![Field {
                skip: true,
                ..field("secret", 0)
            }],
        ),
    ]);
    let builder = reflect(&types, 1);
    assert_eq!(
        container(&builder, &root("Hidden")),
        &ContainerFormat::UnitStruct(no_doc())
    );
}

#[test]
fn the_containers_that_are_reached_are_registered() {
    let types = table(vec![
        structure(1, "Leaf", StructKind::Unit, vec![]),
        list(2, 0),
        option(3, 1),
        structure(4, "Tree", StructKind::Struct, vec![field("leaves", 2)]),
    ]);
    let builder = reflect(&types, 3);
    assert_eq!(
        container(&builder, &root("Tree")),
        &ContainerFormat::Struct(
            vec![named(
                "leaves",
                Format::Option(Box::new(Format::SeqOf(Box::new(Format::TypeName(root(
                    "Leaf"
                ))))))
            )],
            no_doc()
        )
    );
    assert_eq!(
        container(&builder, &root("Leaf")),
        &ContainerFormat::UnitStruct(no_doc())
    );
    let registry = builder.build().unwrap();
    assert_eq!(registry.len(), 2);
    assert_eq!(registry.name_at(0), &root("Leaf"));
    assert_eq!(registry.name_at(1), &root("Tree"));
}

#[test]
fn a_recursive_type_is_registered_once() {
    let types = table(vec![
        structure(
            1,
            "Node",
            StructKind::Struct,
            vec![field("next", 2)],
        ),
        Shape {
            def: Def::Pointer(Some(0)),
            ..blank(2, "Box")
        },
        option(3, 1),
    ]);
    let builder = reflect(&types, 0);
    assert_eq!(
        container(&builder, &root("Node")),
        &ContainerFormat::Struct(
            vec![named(
                "next",
                Format::Option(Box::new(Format::TypeName(root("Node"))))
            )],
            no_doc()
        )
    );
    assert_eq!(builder.registry.len(), 1);
}

#[test]
fn adding_a_type_twice_changes_nothing() {
    let types = table(vec![
        text(1),
        structure(2, "Name", StructKind::Struct, vec![field("text", 0)]),
    ]);
    let once = reflect(&types, 1);
    let twice = reflect(&types, 1).add_type(&types, 1).unwrap();
    assert_eq!(once.registry, twice.registry);
}

#[test]
fn adding_a_list_twice_changes_nothing() {
    let types = table(vec![
        Shape {
            rename: Some("Step".to_string()),
            ..structure(1, "Item", StructKind::Unit, vec![])
        },
        list(2, 0),
        option(3, 1),
    ]);
    let once = reflect(&types, 2);
    let twice = match reflect(&types, 2).add_shape(&types, 2) {
        Ok(builder) => builder,
        Err(halt) => panic!("{halt:?}"),
    };
    assert_eq!(once.registry.len(), 1);
    assert_eq!(twice.registry.len(), 1);
    assert_eq!(
        container(&once, &root("Step")),
        container(&twice, &root("Step"))
    );
    // What the format of the list names is registered.
    assert_eq!(
        twice.format_of(&types, 2),
        Ok(Format::Option(Box::new(Format::SeqOf(Box::new(
            Format::TypeName(root("Step"))
        )))))
    );
    assert!(twice.build().is_ok());
}

#[test]
fn adding_another_type_leaves_the_containers_as_they_are() {
    let types = table(vec![
        text(1),
        structure(2, "First", StructKind::Struct, vec![field("text", 0)]),
        structure(3, "Second", StructKind::TupleStruct, vec![field("0", 1)]),
    ]);
    let before = reflect(&types, 1);
    let after = reflect(&types, 1).add_type(&types, 2).unwrap();
    assert_eq!(
        container(&before, &root("First")),
        container(&after, &root("First"))
    );
    assert_eq!(
        container(&after, &root("Second")),
        &ContainerFormat::NewTypeStruct(Box::new(Format::TypeName(root("First"))), no_doc())
    );
}

#[test]
fn the_variants_of_an_enum_are_numbered_without_the_skipped_ones() {
    let types = table(vec![
        integer(1, "u8", false, 1),
        text(2),
        enumeration(
            3,
            "Event",
            vec![
                variant("Nothing", vec![]),
                Variant {
                    attributes: vec![mark(None, "skip")],
                    ..variant("Internal", vec![])
                },
                variant("Byte", vec![field("0", 0)]),
                variant("Both", vec![field("0", 0), field("1", 1)]),
                Variant {
                    rename: Some("moved".to_string()),
                    doc: vec![" A move.".to_string()],
                    ..variant("Moved", vec![field("x", 0), field("label", 1)])
                },
            ],
        ),
    ]);
    let builder = reflect(&types, 2);
    let plain = |name: &str, value: VariantFormat| Named {
        name: name.to_string(),
        doc: no_doc(),
        value,
    };
    let mut variants = BTreeMap::new();
    variants.insert(0, plain("Nothing", VariantFormat::Unit));
    variants.insert(1, plain("Byte", VariantFormat::NewType(Box::new(Format::U8))));
    variants.insert(
        2,
        plain("Both", VariantFormat::Tuple(vec![Format::U8, Format::Str])),
    );
    variants.insert(
        3,
        Named {
            doc: Doc(vec![" A move.".to_string()]),
            ..plain(
                "moved",
                VariantFormat::Struct(vec![
                    named("x", Format::U8),
                    named("label", Format::Str),
                ]),
            )
        },
    );
    assert_eq!(
        container(&builder, &root("Event")),
        &ContainerFormat::Enum(variants, EnumTagging::External, no_doc())
    );
    // The variants leave no container of their own.
    assert_eq!(builder.registry.len(), 1);
}

#[test]
fn a_variant_with_a_single_named_field_is_a_struct_variant() {
    let types = table(vec![
        text(1),
        enumeration(2, "Only", vec![variant("Named", vec![field("text", 0)])]),
    ]);
    let builder = reflect(&types, 1);
    match container(&builder, &root("Only")) {
        ContainerFormat::Enum(variants, _, _) => assert_eq!(
            variants[&0].value,
            VariantFormat::Struct(vec![named("text", Format::Str)])
        ),
        other => panic!("{other:?}"),
    }
}

#[test]
fn a_struct_variant_without_fields_left_is_a_unit_variant() {
    let types = table(vec![
        text(1),
        enumeration(
            2,
            "Quiet",
            vec![variant(
                "Hidden",
                vec![Field {
                    skip: true,
                    ..field("secret", 0)
                }],
            )],
        ),
    ]);
    let builder = reflect(&types, 1);
    match container(&builder, &root("Quiet")) {
        ContainerFormat::Enum(variants, _, _) => {
            assert_eq!(variants[&0].value, VariantFormat::Unit);
        }
        other => panic!("{other:?}"),
    }
}

#[test]
fn a_variant_with_an_opaque_payload_is_a_unit_variant() {
    let types = table(vec![
        blank(1, "Handle"),
        enumeration(2, "Holder", vec![variant("Held", vec![field("0", 0)])]),
    ]);
    let builder = reflect(&types, 1);
    match container(&builder, &root("Holder")) {
        ContainerFormat::Enum(variants, _, _) => {
            assert_eq!(variants[&0].value, VariantFormat::Unit);
        }
        other => panic!("{other:?}"),
    }
}

#[test]
fn a_variant_with_a_unit_payload_keeps_it() {
    let types = table(vec![
        structure(1, "()", StructKind::Tuple, vec![]),
        enumeration(2, "Reply", vec![variant("Empty", vec![field("0", 0)])]),
    ]);
    let builder = reflect(&types, 1);
    match container(&builder, &root("Reply")) {
        ContainerFormat::Enum(variants, _, _) => assert_eq!(
            variants[&0].value,
            VariantFormat::NewType(Box::new(Format::Unit))
        ),
        other => panic!("{other:?}"),
    }
}

#[test]
fn enums_are_tagged_as_their_attributes_say() {
    let tagged = |tag: Option<&str>, content: Option<&str>| {
        let types = table(vec![Shape {
            tag: tag.map(ToString::to_string),
            content: content.map(ToString::to_string),
            ..enumeration(1, "Tagged", vec![])
        }]);
        match container(&reflect(&types, 0), &root("Tagged")) {
            ContainerFormat::Enum(_, EnumTagging::External, _) => (None, None),
            ContainerFormat::Enum(_, EnumTagging::Internal { tag }, _) => {
                (Some(tag.clone()), None)
            }
            ContainerFormat::Enum(_, EnumTagging::Adjacent { tag, content }, _) => {
                (Some(tag.clone()), Some(content.clone()))
            }
            other => panic!("{other:?}"),
        }
    };
    assert_eq!(tagged(None, None), (None, None));
    assert_eq!(tagged(None, Some("c")), (None, None));
    assert_eq!(tagged(Some("t"), None), (Some("t".to_string()), None));
    assert_eq!(
        tagged(Some("t"), Some("c")),
        (Some("t".to_string()), Some("c".to_string()))
    );
}

#[test]
fn a_field_of_an_opaque_type_is_left_out() {
    let types = table(vec![
        blank(1, "Handle"),
        text(2),
        structure(
            3,
            "Owner",
            StructKind::Struct,
            vec![field("handle", 0), field("name", 1)],
        ),
    ]);
    let builder = reflect(&types, 2);
    assert_eq!(
        container(&builder, &root("Owner")),
        &ContainerFormat::Struct(vec![named("name", Format::Str)], no_doc())
    );
}

#[test]
fn a_transparent_struct_is_generated_as_what_it_wraps() {
    let types = table(vec![
        structure(1, "Inner", StructKind::Unit, vec![]),
        Shape {
            attributes: vec![mark(None, "transparent")],
            inner: Some(0),
            ..structure(2, "Wrapper", StructKind::TupleStruct, vec![field("0", 0)])
        },
        structure(3, "Outer", StructKind::Struct, vec![field("wrapped", 1)]),
    ]);
    let builder = reflect(&types, 2);
    assert_eq!(
        container(&builder, &root("Outer")),
        &ContainerFormat::Struct(
            vec![named("wrapped", Format::TypeName(root("Inner")))],
            no_doc()
        )
    );
    assert!(builder.registry.contains(&root("Inner")));
    assert!(!builder.registry.contains(&root("Wrapper")));
    assert_eq!(reflect(&types, 1).registry, reflect(&types, 0).registry);
}

#[test]
fn a_chain_of_transparent_structs_is_generated_as_what_it_ends_in() {
    let wrapper = |id: u64, name: &str, inner: usize| Shape {
        attributes: vec![mark(None, "transparent")],
        inner: Some(inner),
        ..structure(id, name, StructKind::TupleStruct, vec![field("0", inner)])
    };
    let types = table(vec![
        integer(1, "u32", false, 4),
        structure(2, "S", StructKind::Struct, vec![field("a", 0)]),
        wrapper(3, "Inner", 1),
        wrapper(4, "Outer", 2),
        wrapper(5, "Number", 0),
        wrapper(6, "Alias", 4),
    ]);
    let builder = reflect(&types, 3);
    assert_eq!(
        container(&builder, &root("S")),
        &ContainerFormat::Struct(vec![named("a", Format::U32)], no_doc())
    );
    assert_eq!(builder.registry.len(), 1);
    assert_eq!(
        builder.format_of(&types, 3),
        Ok(Format::TypeName(root("S")))
    );
    assert_eq!(RegistryBuilder::new().format_of(&types, 5), Ok(Format::U32));
    assert!(builder.build().is_ok());
}

#[test]
fn enums_of_one_identifier_keep_their_fields() {
    let types = table(vec![
        integer(1, "u8", false, 1),
        Shape {
            rename: Some("E2".to_string()),
            ..enumeration(2, "E", vec![variant("A", vec![field("y", 0)])])
        },
        enumeration(3, "E", vec![variant("A", vec![field("x", 1)])]),
        enumeration(
            4,
            "F",
            vec![variant("A", vec![field("0", 1), field("1", 2)])],
        ),
    ]);
    let has = |builder: &RegistryBuilder, name: &str, expected: VariantFormat| match container(
        builder,
        &root(name),
    ) {
        ContainerFormat::Enum(variants, _, _) => variants[&0].value == expected,
        other => panic!("{other:?}"),
    };
    let builder = reflect(&types, 2);
    assert!(has(
        &builder,
        "E",
        VariantFormat::Struct(vec![named("x", Format::TypeName(root("E2")))])
    ));
    assert!(has(
        &builder,
        "E2",
        VariantFormat::Struct(vec![named("y", Format::U8)])
    ));
    let builder = reflect(&types, 3);
    assert!(has(
        &builder,
        "F",
        VariantFormat::Tuple(vec![
            Format::TypeName(root("E2")),
            Format::TypeName(root("E")),
        ])
    ));
    assert!(builder.build().is_ok());
}

#[test]
fn the_bytes_annotation_makes_a_byte_string() {
    let bytes = |name: &str, shape: usize| Field {
        attributes: vec![mark(Some("fg"), "bytes")],
        ..field(name, shape)
    };
    let types = table(vec![
        integer(1, "u8", false, 1),
        list(2, 0),
        option(3, 1),
        Shape {
            ty: Type::Sequence(SequenceType::Array(0)),
            def: Def::Array { item: 0, size: 4 },
            ..blank(4, "[T; N]")
        },
        Shape {
            ty: Type::Sequence(SequenceType::Slice(0)),
            def: Def::Slice(0),
            ..blank(5, "[T]")
        },
        Shape {
            ty: Type::Pointer(PointerType::Reference(4)),
            ..blank(6, "&T")
        },
        text(7),
        structure(
            8,
            "Packet",
            StructKind::Struct,
            vec![
                bytes("body", 1),
                bytes("extra", 2),
                bytes("check", 3),
                bytes("view", 5),
                bytes("name", 6),
                field("plain", 1),
            ],
        ),
    ]);
    let builder = reflect(&types, 7);
    assert_eq!(
        container(&builder, &root("Packet")),
        &ContainerFormat::Struct(
            vec![
                named("body", Format::Bytes),
                named("extra", Format::Option(Box::new(Format::Bytes))),
                named("check", Format::Bytes),
                named("view", Format::Bytes),
                // The annotation does not apply to a text.
                named("name", Format::Str),
                named("plain", Format::SeqOf(Box::new(Format::U8))),
            ],
            no_doc()
        )
    );
}

#[test]
fn a_bytes_annotation_that_does_not_apply_is_reported() {
    let bytes = |name: &str, shape: usize| Field {
        attributes: vec![mark(Some("fg"), "bytes")],
        ..field(name, shape)
    };
    let types = table(vec![
        integer(1, "u8", false, 1),
        list(2, 0),
        text(3),
        option(4, 2),
        integer(5, "u32", false, 4),
    ]);
    let fields = vec![
        bytes("body", 1),
        bytes("name", 2),
        field("plain", 2),
        Field {
            skip: true,
            ..bytes("hidden", 2)
        },
        bytes("alias", 3),
        bytes("count", 4),
    ];
    assert_eq!(
        bytes_complaints(&types, &fields),
        vec![
            "String is not a valid bytes attribute".to_string(),
            "String is not a valid bytes attribute".to_string(),
            "u32 is not a valid bytes attribute".to_string(),
        ]
    );
    assert_eq!(bytes_complaints(&types, &vec![]), Vec::<String>::new());
}

#[test]
fn a_renamed_type_goes_by_its_new_name() {
    let types = table(vec![
        Shape {
            attributes: vec![Attr {
                data: AttrData::Text("Better".to_string()),
                ..mark(None, "rename")
            }],
            ..structure(1, "Plain", StructKind::Unit, vec![])
        },
        Shape {
            rename: Some("Best".to_string()),
            ..structure(2, "Good", StructKind::TupleStruct, vec![field("0", 0)])
        },
    ]);
    let builder = reflect(&types, 1);
    assert_eq!(
        container(&builder, &root("Best")),
        &ContainerFormat::NewTypeStruct(Box::new(Format::TypeName(root("Better"))), no_doc())
    );
    assert!(builder.registry.contains(&root("Better")));
    assert!(!builder.registry.contains(&root("Plain")));
}

#[test]
fn two_types_cannot_share_a_name() {
    let types = table(vec![
        Shape {
            module: Some("a".to_string()),
            ..structure(1, "Twin", StructKind::Unit, vec![])
        },
        Shape {
            module: Some("b::c".to_string()),
            ..structure(2, "Twin", StructKind::Unit, vec![])
        },
        structure(
            3,
            "Both",
            StructKind::Struct,
            vec![field("first", 0), field("second", 1)],
        ),
    ]);
    assert_eq!(
        refusal(&types, 2),
        Error::DuplicateTypeName {
            name: "Twin".to_string(),
            namespace: "ROOT".to_string(),
            existing: "a::Twin".to_string(),
            new: "b::c::Twin".to_string(),
        }
    );
    assert_eq!(
        reflect(&types, 1).add_type(&types, 0).unwrap_err(),
        Error::DuplicateTypeName {
            name: "Twin".to_string(),
            namespace: "ROOT".to_string(),
            existing: "b::c::Twin".to_string(),
            new: "a::Twin".to_string(),
        }
    );
}

#[test]
fn a_generic_type_must_keep_its_type_parameters() {
    let generic = |id: u64, params: &str, display: &str| Shape {
        decl_id: 77,
        type_params: Some(params.to_string()),
        display: display.to_string(),
        ..structure(id, "Pair", StructKind::Unit, vec![])
    };
    let types = table(vec![
        generic(1, "[u8]", "Pair<u8>"),
        generic(2, "[u16]", "Pair<u16>"),
        structure(
            3,
            "Both",
            StructKind::Struct,
            vec![field("first", 0), field("second", 1)],
        ),
    ]);
    assert_eq!(
        refusal(&types, 2),
        Error::UnsupportedGenericType("Pair<u16>".to_string())
    );
    assert_eq!(
        reflect(&types, 0).add_type(&types, 1).unwrap_err(),
        Error::UnsupportedGenericType("Pair<u16>".to_string())
    );
    assert!(reflect(&types, 0).add_type(&types, 0).is_ok());
}

#[test]
fn known_generic_types_may_be_used_with_any_parameters() {
    let generic = |id: u64, item: usize, params: &str| Shape {
        decl_id: 77,
        type_params: Some(params.to_string()),
        ..list(id, item)
    };
    let types = table(vec![
        integer(1, "u8", false, 1),
        text(2),
        generic(3, 0, "[u8]"),
        generic(4, 1, "[String]"),
        structure(
            5,
            "Both",
            StructKind::Struct,
            vec![field("first", 2), field("second", 3)],
        ),
    ]);
    assert_eq!(
        container(&reflect(&types, 4), &root("Both")),
        &ContainerFormat::Struct(
            vec![
                named("first", Format::SeqOf(Box::new(Format::U8))),
                named("second", Format::SeqOf(Box::new(Format::Str))),
            ],
            no_doc()
        )
    );
}

#[test]
fn an_integer_without_a_size_is_refused() {
    let types = table(vec![
        Shape {
            size: None,
            ..integer(1, "u8", false, 1)
        },
        structure(2, "Odd", StructKind::Struct, vec![field("value", 0)]),
    ]);
    assert_eq!(
        refusal(&types, 1),
        Error::LayoutUnsized("u8".to_string())
    );
}

#[test]
fn a_type_without_a_format_or_an_error_is_unsupported() {
    let types = table(vec![Shape {
        ty: Type::Primitive(PrimitiveType::Never),
        def: Def::Scalar,
        ..blank(1, "!")
    }]);
    assert!(matches!(
        RegistryBuilder::new().add_shape(&types, 0),
        Err(Halt::Unsupported)
    ));
    assert!(matches!(
        RegistryBuilder::new().format_of_shape(&types, 0),
        Err(Halt::Unsupported)
    ));
}

#[test]
fn an_optional_payload_must_have_a_format() {
    let types = table(vec![
        Shape {
            def: Def::Scalar,
            ..blank(1, "Handle")
        },
        option(2, 0),
        enumeration(3, "Holder", vec![variant("Held", vec![field("0", 1)])]),
    ]);
    assert_eq!(
        refusal(&types, 2),
        Error::ReflectionError {
            container: "Handle".to_string(),
            message: "Scalar type is not supported and should be skipped".to_string(),
        }
    );
}

#[test]
fn a_newtype_without_a_format_is_reported_by_build() {
    let types = table(vec![
        blank(1, "Handle"),
        structure(2, "Owner", StructKind::TupleStruct, vec![field("0", 0)]),
    ]);
    let builder = reflect(&types, 1);
    assert_eq!(
        container(&builder, &root("Owner")),
        &ContainerFormat::NewTypeStruct(Box::new(Format::Variable), no_doc())
    );
    assert_eq!(
        builder.build().unwrap_err(),
        Error::ReflectionError {
            container: "Owner".to_string(),
            message: "Incomplete reflection detected".to_string(),
        }
    );
}

#[test]
fn a_tuple_is_not_registered_but_its_elements_are() {
    let types = table(vec![
        structure(1, "Left", StructKind::Unit, vec![]),
        structure(2, "Right", StructKind::Unit, vec![]),
        structure(
            3,
            "(…)",
            StructKind::Tuple,
            vec![field("0", 0), field("1", 1)],
        ),
        structure(4, "Holder", StructKind::Struct, vec![field("pair", 2)]),
    ]);
    let builder = reflect(&types, 3);
    assert_eq!(
        container(&builder, &root("Holder")),
        &ContainerFormat::Struct(
            vec![named(
                "pair",
                Format::Tuple(vec![
                    Format::TypeName(root("Left")),
                    Format::TypeName(root("Right")),
                ])
            )],
            no_doc()
        )
    );
    assert_eq!(builder.registry.len(), 3);
    assert_eq!(reflect(&types, 2).registry.len(), 2);
}

#[test]
fn a_new_builder_builds_an_empty_registry() {
    let registry = RegistryBuilder::new().build().unwrap();
    assert_eq!(registry.len(), 0);
    assert_eq!(RegistryBuilder::default().build().unwrap(), registry);
}
