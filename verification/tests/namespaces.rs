//! Namespaces: annotations, contexts and conflicts.

use facet_generate::error::Error;
use facet_generate::format::{ContainerFormat, Doc, Format, Named, VariantFormat};
use facet_generate::identifier::NamespaceText;
use facet_generate::names::{Namespace, QualifiedTypeName};
use facet_generate::namespace::{NamespaceAction, NamespaceContext};
use facet_generate::shape::{
    Attr, AttrData, Def, EnumType, Field, PrimitiveType, Shape, StructKind, StructType, Type,
    TypeTable, UserType, Variant,
};
use facet_generate::step::Halt;
use facet_generate::RegistryBuilder;

fn blank(id: u64, identifier: &str) -> Shape {
    Shape {
        id,
        decl_id: u128::from(id),
        ty: Type::User(UserType::Opaque),
        def: Def::Undefined,
        size: None,
        type_identifier: identifier.to_string(),
        display: identifier.to_string(),
        module: None,
        type_params: None,
        doc: vec![],
        attributes: vec![],
        type_tag: None,
        inner: None,
        tag: None,
        content: None,
        rename: None,
    }
}

fn structure(id: u64, identifier: &str, kind: StructKind, fields: Vec<Field>) -> Shape {
    Shape {
        ty: Type::User(UserType::Struct(StructType { kind, fields })),
        ..blank(id, identifier)
    }
}

fn enumeration(id: u64, identifier: &str, variants: Vec<Variant>) -> Shape {
    Shape {
        ty: Type::User(UserType::Enum(EnumType { variants })),
        ..blank(id, identifier)
    }
}

fn field(name: &str, shape: usize) -> Field {
    Field {
        name: name.to_string(),
        rename: None,
        shape,
        skip: false,
        attributes: vec![],
        doc: vec![],
    }
}

fn variant(name: &str, fields: Vec<Field>) -> Variant {
    Variant {
        name: name.to_string(),
        rename: None,
        attributes: vec![],
        fields,
        doc: vec![],
    }
}

fn mark(ns: Option<&str>, key: &str) -> Attr {
    Attr {
        ns: ns.map(ToString::to_string),
        key: key.to_string(),
        data: AttrData::Generator,
    }
}

fn space(text: &str) -> Attr {
    Attr {
        data: AttrData::Namespace(Some(NamespaceText::new(text.to_string()))),
        ..mark(Some("fg"), "namespace")
    }
}

fn blank_byte() -> Shape {
    Shape {
        ty: Type::Primitive(PrimitiveType::Integer { signed: false }),
        def: Def::Scalar,
        size: Some(1),
        ..blank(1, "u8")
    }
}

fn root_pin() -> Attr {
    Attr {
        data: AttrData::Namespace(None),
        ..mark(Some("fg"), "namespace")
    }
}

fn root(name: &str) -> QualifiedTypeName {
    QualifiedTypeName::root(name.to_string())
}

fn within(namespace: &str, name: &str) -> QualifiedTypeName {
    QualifiedTypeName::namespaced(namespace.to_string(), name.to_string())
}

fn table(shapes: Vec<Shape>) -> TypeTable {
    match TypeTable::new(shapes) {
        Some(table) => table,
        None => panic!("the shapes are not in order"),
    }
}

fn named(name: &str, value: Format) -> Named<Format> {
    Named {
        name: name.to_string(),
        doc: Doc(vec![]),
        value,
    }
}

fn no_doc() -> Doc {
    Doc(vec![])
}

fn reflect(types: &TypeTable, shape: usize) -> RegistryBuilder {
    match RegistryBuilder::new().add_shape(types, shape) {
        Ok(builder) => builder,
        Err(halt) => panic!("{halt:?}"),
    }
}

fn refusal(types: &TypeTable, shape: usize) -> Error {
    match RegistryBuilder::new().add_shape(types, shape) {
        Err(Halt::Error(error)) => error,
        other => panic!("{other:?}"),
    }
}

fn container<'a>(builder: &'a RegistryBuilder, name: &QualifiedTypeName) -> &'a ContainerFormat {
    match builder.registry.get(name) {
        Some(container) => container,
        None => panic!("{name:?} is not registered"),
    }
}


fn action_of(attr: &Attr) -> Result<Option<NamespaceAction>, Error> {
    facet_generate::namespace::extract_namespace_from_attr(attr)
}

#[test]
fn a_namespace_annotation_sets_a_context() {
    assert_eq!(
        action_of(&space("my_space")),
        Ok(Some(NamespaceAction::SetContext(
            NamespaceContext::explicit(Namespace::Named("my_space".to_string()))
        )))
    );
    assert_eq!(
        action_of(&root_pin()),
        Ok(Some(NamespaceAction::SetContext(NamespaceContext::cleared())))
    );
    assert_eq!(action_of(&mark(Some("fg"), "bytes")), Ok(None));
    assert_eq!(action_of(&mark(Some("other"), "namespace")), Ok(None));
    assert_eq!(action_of(&mark(None, "namespace")), Ok(None));
}

#[test]
fn a_namespace_must_be_an_identifier() {
    for text in ["", "1st", "a-b", "a.b", " a", "a ", "a\n"] {
        assert_eq!(
            action_of(&space(text)),
            Err(Error::InvalidNamespaceIdentifier),
            "{text:?}"
        );
    }
    for text in ["a", "_", "_1", "Name", "snake_case", "é", "nå"] {
        let expected = !text.starts_with('é');
        assert_eq!(action_of(&space(text)).is_ok(), expected, "{text:?}");
    }
}

#[test]
fn a_malformed_namespace_annotation_is_refused() {
    let malformed = Attr {
        data: AttrData::Text("space".to_string()),
        ..mark(Some("fg"), "namespace")
    };
    assert_eq!(action_of(&malformed), Err(Error::InvalidNamespaceFormat));
    let types = table(vec![Shape {
        attributes: vec![malformed],
        ..structure(1, "Bad", StructKind::Unit, vec![])
    }]);
    assert_eq!(refusal(&types, 0), Error::InvalidNamespaceFormat);
}

#[test]
fn an_invalid_namespace_refuses_the_type() {
    let types = table(vec![Shape {
        attributes: vec![space("not an identifier")],
        ..structure(1, "Bad", StructKind::Unit, vec![])
    }]);
    assert_eq!(refusal(&types, 0), Error::InvalidNamespaceIdentifier);
}

#[test]
fn contexts_know_whether_they_are_explicit_or_cleared() {
    let named = Namespace::Named("space".to_string());
    assert!(NamespaceContext::cleared().is_cleared());
    assert!(NamespaceContext::cleared().is_explicit());
    assert!(NamespaceContext::explicit(named.clone()).is_explicit());
    assert!(!NamespaceContext::explicit(named.clone()).is_cleared());
    let inherited = NamespaceContext {
        namespace: Namespace::Root,
        explicit: false,
    };
    assert!(!inherited.is_explicit());
    assert!(!inherited.is_cleared());
    assert!(NamespaceAction::SetContext(NamespaceContext::cleared()).is_explicit());
    assert!(!NamespaceAction::SetContext(inherited).is_explicit());
    assert!(!NamespaceAction::Inherit.is_explicit());
}

#[test]
fn an_annotated_type_is_moved_to_its_own_namespace_only() {
    let set = |namespace: Namespace| {
        NamespaceAction::SetContext(NamespaceContext::explicit(namespace))
    };
    let named = Namespace::Named("space".to_string());
    assert!(set(named.clone()).should_move_to_namespace("space"));
    assert!(!set(named).should_move_to_namespace("other"));
    assert!(!set(Namespace::Root).should_move_to_namespace("space"));
    assert!(set(Namespace::Root).should_move_to_namespace(""));
    assert!(NamespaceAction::Inherit.should_move_to_namespace("space"));
    let inherited = NamespaceContext {
        namespace: Namespace::Root,
        explicit: false,
    };
    assert!(NamespaceAction::SetContext(inherited).should_move_to_namespace("space"));
}

#[test]
fn what_a_type_reaches_inherits_its_namespace() {
    let types = table(vec![
        structure(1, "Child", StructKind::Unit, vec![]),
        Shape {
            attributes: vec![space("home")],
            ..structure(2, "Parent", StructKind::Struct, vec![field("child", 0)])
        },
    ]);
    let builder = reflect(&types, 1);
    assert_eq!(
        container(&builder, &within("home", "Parent")),
        &ContainerFormat::Struct(
            vec![named("child", Format::TypeName(within("home", "Child")))],
            no_doc()
        )
    );
    assert!(builder.registry.contains(&within("home", "Child")));
    assert!(builder.build().is_ok());
}

#[test]
fn an_annotation_overrides_the_context() {
    let types = table(vec![
        Shape {
            attributes: vec![root_pin()],
            ..structure(1, "Pinned", StructKind::Unit, vec![])
        },
        Shape {
            attributes: vec![space("away")],
            ..structure(2, "Away", StructKind::Unit, vec![])
        },
        Shape {
            attributes: vec![space("home")],
            ..structure(
                3,
                "Parent",
                StructKind::Struct,
                vec![field("pinned", 0), field("away", 1)],
            )
        },
    ]);
    let builder = reflect(&types, 2);
    assert_eq!(
        container(&builder, &within("home", "Parent")),
        &ContainerFormat::Struct(
            vec![
                named("pinned", Format::TypeName(root("Pinned"))),
                named("away", Format::TypeName(within("away", "Away"))),
            ],
            no_doc()
        )
    );
    assert!(builder.registry.contains(&root("Pinned")));
    assert!(builder.registry.contains(&within("away", "Away")));
}

#[test]
fn a_field_can_name_the_namespace_of_its_type() {
    let types = table(vec![
        structure(1, "Child", StructKind::Unit, vec![]),
        structure(
            2,
            "Parent",
            StructKind::Struct,
            vec![Field {
                attributes: vec![space("nursery")],
                ..field("child", 0)
            }],
        ),
    ]);
    let builder = reflect(&types, 1);
    assert_eq!(
        container(&builder, &root("Parent")),
        &ContainerFormat::Struct(
            vec![named("child", Format::TypeName(within("nursery", "Child")))],
            no_doc()
        )
    );
    assert!(builder.registry.contains(&within("nursery", "Child")));
    assert!(!builder.registry.contains(&root("Child")));
}

#[test]
fn an_inherited_namespace_must_not_conflict() {
    let child = || structure(1, "Child", StructKind::Unit, vec![]);
    let parent = |id: u64, name: &str, home: &str| Shape {
        attributes: vec![space(home)],
        ..structure(id, name, StructKind::Struct, vec![field("child", 0)])
    };
    let types = table(vec![
        child(),
        parent(2, "Left", "left"),
        parent(3, "Right", "right"),
    ]);
    assert_eq!(
        reflect(&types, 1).add_type(&types, 2).unwrap_err(),
        Error::AmbiguousNamespaceInheritance {
            container: "Child".to_string(),
            existing_namespace: "left".to_string(),
            new_namespace: "right".to_string(),
        }
    );
    assert_eq!(
        reflect(&types, 2).add_type(&types, 1).unwrap_err(),
        Error::AmbiguousNamespaceInheritance {
            container: "Child".to_string(),
            existing_namespace: "right".to_string(),
            new_namespace: "left".to_string(),
        }
    );
}

#[test]
fn a_renamed_type_stands_where_a_field_refers_to_it() {
    let types = table(vec![
        blank_byte(),
        Shape {
            rename: Some("R".to_string()),
            ..structure(2, "T", StructKind::Struct, vec![field("a", 0)])
        },
        structure(
            3,
            "P",
            StructKind::Struct,
            vec![Field {
                attributes: vec![space("n")],
                ..field("f", 1)
            }],
        ),
    ]);
    let builder = reflect(&types, 2);
    assert_eq!(
        container(&builder, &root("P")),
        &ContainerFormat::Struct(
            vec![named("f", Format::TypeName(within("n", "R")))],
            no_doc()
        )
    );
    assert_eq!(
        container(&builder, &within("n", "R")),
        &ContainerFormat::Struct(vec![named("a", Format::U8)], no_doc())
    );
    assert!(!builder.registry.contains(&within("n", "T")));
    assert!(builder.build().is_ok());
}

#[test]
fn a_renamed_type_that_is_reached_again_stays_where_it_is() {
    // T, renamed R, holds a list of P, and a field of P names a namespace for its T.
    let types = table(vec![
        Shape {
            rename: Some("R".to_string()),
            ..structure(1, "T", StructKind::Struct, vec![field("ps", 2)])
        },
        structure(
            2,
            "P",
            StructKind::Struct,
            vec![Field {
                attributes: vec![space("n")],
                ..field("t", 0)
            }],
        ),
        Shape {
            def: Def::List(1),
            ..blank(3, "Vec")
        },
    ]);
    let builder = reflect(&types, 0);
    assert_eq!(
        builder.format_of(&types, 0),
        Ok(Format::TypeName(root("R")))
    );
    assert_eq!(
        container(&builder, &root("R")),
        &ContainerFormat::Struct(
            vec![named(
                "ps",
                Format::SeqOf(Box::new(Format::TypeName(root("P"))))
            )],
            no_doc()
        )
    );
    assert_eq!(
        container(&builder, &root("P")),
        &ContainerFormat::Struct(vec![named("t", Format::TypeName(root("R")))], no_doc())
    );
    assert!(builder.build().is_ok());
}

#[test]
fn a_rename_recorded_on_the_way_holds_for_the_reference() {
    // X, renamed R, is referred to in the namespace of P, and registered in the root by Z before
    // its own turn comes.
    let types = table(vec![
        Shape {
            rename: Some("R".to_string()),
            ..structure(1, "X", StructKind::Unit, vec![])
        },
        Shape {
            attributes: vec![root_pin()],
            ..structure(2, "Z", StructKind::Struct, vec![field("x", 0)])
        },
        structure(3, "(Z, X)", StructKind::Tuple, vec![field("0", 1), field("1", 0)]),
        Shape {
            attributes: vec![space("n")],
            ..structure(4, "P", StructKind::Struct, vec![field("pair", 2)])
        },
    ]);
    let builder = reflect(&types, 3);
    assert_eq!(
        container(&builder, &within("n", "P")),
        &ContainerFormat::Struct(
            vec![named(
                "pair",
                Format::Tuple(vec![
                    Format::TypeName(root("Z")),
                    Format::TypeName(root("R")),
                ])
            )],
            no_doc()
        )
    );
    assert_eq!(
        container(&builder, &root("R")),
        &ContainerFormat::UnitStruct(no_doc())
    );
    assert_eq!(builder.registry.len(), 3);
    assert!(builder.build().is_ok());
}

#[test]
fn a_reference_that_nobody_owns_is_not_another_type_in_the_root() {
    // The opaque `U` of the list is not the struct `U` of the root.
    let types = table(vec![
        structure(1, "U", StructKind::Unit, vec![]),
        blank(2, "U"),
        Shape {
            def: Def::List(1),
            ..blank(3, "Vec")
        },
        Shape {
            attributes: vec![space("n")],
            ..structure(4, "P", StructKind::Struct, vec![field("us", 2)])
        },
    ]);
    let builder = match reflect(&types, 0).add_shape(&types, 3) {
        Ok(builder) => builder,
        Err(halt) => panic!("{halt:?}"),
    };
    assert_eq!(
        container(&builder, &within("n", "P")),
        &ContainerFormat::Struct(
            vec![named(
                "us",
                Format::SeqOf(Box::new(Format::TypeName(within("n", "U"))))
            )],
            no_doc()
        )
    );
    assert!(builder.build().is_err());
}

/// Two types called `T`, the second one annotated, in the fields of a struct.
fn two_namesakes(first: &str, second: &str) -> TypeTable {
    let annotated = |name: &str| Field {
        attributes: vec![space("a")],
        ..field(name, 0)
    };
    let fields = [first, second]
        .iter()
        .map(|name| match *name {
            "x" => annotated("x"),
            other => field(other, 1),
        })
        .collect();
    table(vec![
        structure(1, "T", StructKind::Unit, vec![]),
        Shape {
            attributes: vec![space("b")],
            ..structure(2, "T", StructKind::Unit, vec![])
        },
        structure(3, "P", StructKind::Struct, fields),
    ])
}

#[test]
fn a_field_sets_the_namespace_of_its_type_explicitly() {
    let types = two_namesakes("x", "y");
    let builder = reflect(&types, 2);
    assert_eq!(
        container(&builder, &root("P")),
        &ContainerFormat::Struct(
            vec![
                named("x", Format::TypeName(within("a", "T"))),
                named("y", Format::TypeName(within("b", "T"))),
            ],
            no_doc()
        )
    );
    assert!(builder.build().is_ok());
    // The type itself does not set it, which counts while another one has set the same name.
    assert_eq!(
        refusal(&two_namesakes("y", "x"), 2),
        Error::AmbiguousNamespaceInheritance {
            container: "T".to_string(),
            existing_namespace: "b".to_string(),
            new_namespace: "a".to_string(),
        }
    );
}

#[test]
fn a_name_that_a_field_asks_for_must_not_be_taken() {
    // The `T` of the field sets its own namespace, but the field asks for one with another `T`.
    let types = table(vec![
        Shape {
            attributes: vec![space("n")],
            ..structure(1, "T", StructKind::Unit, vec![])
        },
        Shape {
            attributes: vec![space("m")],
            ..structure(2, "T", StructKind::Unit, vec![])
        },
        structure(
            3,
            "P",
            StructKind::Struct,
            vec![
                field("first", 0),
                Field {
                    attributes: vec![space("n")],
                    ..field("second", 1)
                },
            ],
        ),
    ]);
    assert_eq!(
        refusal(&types, 2),
        Error::DuplicateTypeName {
            name: "T".to_string(),
            namespace: "n".to_string(),
            existing: "T".to_string(),
            new: "T".to_string(),
        }
    );
}

#[test]
fn a_field_names_the_namespace_of_what_a_list_holds() {
    let types = table(vec![
        structure(1, "Child", StructKind::Unit, vec![]),
        Shape {
            def: Def::List(0),
            ..blank(2, "Vec")
        },
        structure(
            3,
            "Parent",
            StructKind::Struct,
            vec![Field {
                attributes: vec![space("n")],
                ..field("children", 1)
            }],
        ),
    ]);
    let builder = reflect(&types, 2);
    assert_eq!(
        container(&builder, &root("Parent")),
        &ContainerFormat::Struct(
            vec![named(
                "children",
                Format::SeqOf(Box::new(Format::TypeName(within("n", "Child"))))
            )],
            no_doc()
        )
    );
    assert!(builder.registry.contains(&within("n", "Child")));
    assert!(builder.build().is_ok());
}

#[test]
fn a_name_in_the_namespace_of_a_field_has_one_owner() {
    let twin = |id: u64, path: &str| Shape {
        module: Some(path.to_string()),
        ..structure(id, "Twin", StructKind::Unit, vec![])
    };
    let in_n = |name: &str, shape: usize| Field {
        attributes: vec![space("n")],
        ..field(name, shape)
    };
    let types = table(vec![
        twin(1, "a"),
        twin(2, "b"),
        structure(
            3,
            "Same",
            StructKind::Struct,
            vec![in_n("first", 0), in_n("second", 0)],
        ),
        structure(
            4,
            "Both",
            StructKind::Struct,
            vec![in_n("first", 0), in_n("second", 1)],
        ),
    ]);
    assert!(reflect(&types, 2).build().is_ok());
    assert_eq!(
        refusal(&types, 3),
        Error::DuplicateTypeName {
            name: "Twin".to_string(),
            namespace: "n".to_string(),
            existing: "a::Twin".to_string(),
            new: "b::Twin".to_string(),
        }
    );
}

#[test]
fn the_references_of_nested_and_annotated_types_are_registered() {
    let types = table(vec![
        structure(1, "Leaf", StructKind::Unit, vec![]),
        Shape {
            attributes: vec![root_pin()],
            ..structure(2, "Pinned", StructKind::TupleStruct, vec![field("0", 0), field("1", 0)])
        },
        Shape {
            def: Def::List(1),
            ..blank(3, "Vec")
        },
        enumeration(
            4,
            "Choice",
            vec![
                variant("Some", vec![field("0", 2)]),
                variant("Pair", vec![field("0", 0), field("1", 1)]),
                variant("Named", vec![field("leaf", 0), field("pins", 2)]),
            ],
        ),
        structure(
            5,
            "Top",
            StructKind::Struct,
            vec![
                field("choice", 3),
                Field {
                    attributes: vec![space("nursery")],
                    ..field("leaf", 0)
                },
            ],
        ),
    ]);
    let builder = reflect(&types, 3);
    assert!(builder.registry.contains(&root("Leaf")));
    assert!(builder.registry.contains(&root("Pinned")));
    assert!(reflect(&types, 3).build().is_ok());
    let builder = match builder.add_shape(&types, 4) {
        Ok(builder) => builder,
        Err(halt) => panic!("{halt:?}"),
    };
    assert!(builder.registry.contains(&within("nursery", "Leaf")));
    assert!(builder.build().is_ok());
}

#[test]
fn a_variant_payload_takes_the_namespace_of_its_field() {
    let types = table(vec![
        structure(1, "Child", StructKind::Unit, vec![]),
        enumeration(
            2,
            "Parent",
            vec![variant(
                "Has",
                vec![Field {
                    attributes: vec![space("nursery")],
                    ..field("0", 0)
                }],
            )],
        ),
    ]);
    let builder = reflect(&types, 1);
    match container(&builder, &root("Parent")) {
        ContainerFormat::Enum(variants, _, _) => assert_eq!(
            variants[&0].value,
            VariantFormat::NewType(Box::new(Format::TypeName(within("nursery", "Child"))))
        ),
        other => panic!("{other:?}"),
    }
    assert!(builder.registry.contains(&within("nursery", "Child")));
    assert!(builder.build().is_ok());
}
