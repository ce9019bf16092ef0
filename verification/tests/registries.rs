//! Registries: completeness, and references that name nothing.

use std::collections::BTreeMap;

use facet_generate::error::Error;
use facet_generate::format::{ContainerFormat, Doc, EnumTagging, Format, Named, VariantFormat};
use facet_generate::names::QualifiedTypeName;
use facet_generate::name_table::NameTable;
use facet_generate::shape::{Def, Field, Shape, StructKind, StructType, Type, TypeTable, UserType};
use facet_generate::RegistryBuilder;
use facet_generate::Registry;

fn blank(id: u64, identifier: &str) -> Shape {
    Shape {
        id,
        decl_id: u128::from(id),
        ty: Type::User(UserType::Opaque),
        def: Def::Undefined,
        size: None,
        type_identifier: identifier.to_string(),
        display: identifier.to_string(),
        module: None,
        type_params: None,
        doc: vec![],
        attributes: vec![],
        type_tag: None,
        inner: None,
        tag: None,
        content: None,
        rename: None,
    }
}

fn structure(id: u64, identifier: &str, kind: StructKind, fields: Vec<Field>) -> Shape {
    Shape {
        ty: Type::User(UserType::Struct(StructType { kind, fields })),
        ..blank(id, identifier)
    }
}

fn list(id: u64, item: usize) -> Shape {
    Shape {
        def: Def::List(item),
        ..blank(id, "Vec")
    }
}

fn field(name: &str, shape: usize) -> Field {
    Field {
        name: name.to_string(),
        rename: None,
        shape,
        skip: false,
        attributes: vec![],
        doc: vec![],
    }
}

fn root(name: &str) -> QualifiedTypeName {
    QualifiedTypeName::root(name.to_string())
}

fn within(namespace: &str, name: &str) -> QualifiedTypeName {
    QualifiedTypeName::namespaced(namespace.to_string(), name.to_string())
}

fn table(shapes: Vec<Shape>) -> TypeTable {
    match TypeTable::new(shapes) {
        Some(table) => table,
        None => panic!("the shapes are not in order"),
    }
}

fn named(name: &str, value: Format) -> Named<Format> {
    Named {
        name: name.to_string(),
        doc: Doc(vec![]),
        value,
    }
}

fn no_doc() -> Doc {
    Doc(vec![])
}

fn reflect(types: &TypeTable, shape: usize) -> RegistryBuilder {
    match RegistryBuilder::new().add_shape(types, shape) {
        Ok(builder) => builder,
        Err(halt) => panic!("{halt:?}"),
    }
}


use facet_generate::registry::{check_reference, check_references};

fn registry_of(containers: Vec<(QualifiedTypeName, ContainerFormat)>) -> Registry {
    let mut registry: Registry = NameTable::new();
    for (name, container) in containers {
        registry.insert(name, container);
    }
    registry
}

fn dangling(name: &str, location: &str, missing: &str) -> Error {
    Error::DanglingTypeReference {
        name: name.to_string(),
        namespace: "ROOT".to_string(),
        location: location.to_string(),
        missing_name: missing.to_string(),
        missing_namespace: "away".to_string(),
    }
}

fn missing(name: &str) -> Format {
    Format::TypeName(within("away", name))
}

fn variants(values: Vec<(u32, &str, VariantFormat)>) -> ContainerFormat {
    let mut map = BTreeMap::new();
    for (index, name, value) in values {
        map.insert(
            index,
            Named {
                name: name.to_string(),
                doc: no_doc(),
                value,
            },
        );
    }
    ContainerFormat::Enum(map, EnumTagging::External, no_doc())
}

#[test]
fn a_registry_whose_references_are_registered_is_accepted() {
    let registry = registry_of(vec![
        (root("Leaf"), ContainerFormat::UnitStruct(no_doc())),
        (
            root("Tree"),
            ContainerFormat::Struct(
                vec![named(
                    "leaves",
                    Format::MapOf {
                        key: Box::new(Format::Str),
                        value: Box::new(Format::Tuple(vec![
                            Format::TypeName(root("Leaf")),
                            Format::Option(Box::new(Format::TypeName(root("Tree")))),
                        ])),
                    },
                )],
                no_doc(),
            ),
        ),
    ]);
    assert_eq!(check_references(&registry), Ok(()));
    assert_eq!(check_references(&registry_of(vec![])), Ok(()));
}

#[test]
fn the_location_of_a_dangling_reference_is_reported() {
    let check = |container: ContainerFormat| {
        check_references(&registry_of(vec![(root("Holder"), container)])).unwrap_err()
    };
    assert_eq!(
        check(ContainerFormat::NewTypeStruct(
            Box::new(missing("A")),
            no_doc()
        )),
        dangling("Holder", "0", "A")
    );
    let mut formats: Vec<Format> = (0..12).map(|_| Format::Unit).collect();
    formats.push(Format::SeqOf(Box::new(missing("B"))));
    assert_eq!(
        check(ContainerFormat::TupleStruct(formats, no_doc())),
        dangling("Holder", "12", "B")
    );
    assert_eq!(
        check(ContainerFormat::Struct(
            vec![named("fine", Format::U8), named("broken", missing("C"))],
            no_doc()
        )),
        dangling("Holder", "broken", "C")
    );
    assert_eq!(
        check(variants(vec![
            (0, "Empty", VariantFormat::Unit),
            (1, "One", VariantFormat::NewType(Box::new(missing("D")))),
        ])),
        dangling("Holder", "One", "D")
    );
    assert_eq!(
        check(variants(vec![(
            4,
            "Two",
            VariantFormat::Tuple(vec![Format::U8, missing("E")])
        )])),
        dangling("Holder", "Two.1", "E")
    );
    assert_eq!(
        check(variants(vec![(
            4,
            "Three",
            VariantFormat::Struct(vec![named("field", missing("F"))])
        )])),
        dangling("Holder", "Three.field", "F")
    );
}

#[test]
fn the_first_dangling_reference_is_reported() {
    // By name of the container, then by index of the variant.
    let registry = registry_of(vec![
        (
            root("Z"),
            ContainerFormat::NewTypeStruct(Box::new(missing("Last")), no_doc()),
        ),
        (
            root("A"),
            variants(vec![
                (9, "Nine", VariantFormat::NewType(Box::new(missing("Second")))),
                (3, "Three", VariantFormat::NewType(Box::new(missing("First")))),
            ]),
        ),
    ]);
    assert_eq!(
        check_references(&registry),
        Err(dangling("A", "Three", "First"))
    );
    let both = Format::MapOf {
        key: Box::new(missing("Key")),
        value: Box::new(missing("Value")),
    };
    assert_eq!(
        check_reference(&registry, &root("A"), "here", &both),
        Err(dangling("A", "here", "Key"))
    );
}

#[test]
fn an_unknown_format_is_reported_where_it_comes_first() {
    let registry = registry_of(vec![]);
    let tuple = |formats: Vec<Format>| {
        check_reference(&registry, &root("A"), "0", &Format::Tuple(formats))
    };
    assert_eq!(
        tuple(vec![Format::Variable, missing("B")]),
        Err(Error::UnknownFormat)
    );
    assert_eq!(
        tuple(vec![missing("B"), Format::Variable]),
        Err(dangling("A", "0", "B"))
    );
    assert_eq!(tuple(vec![Format::Str, Format::Uuid]), Ok(()));
}

#[test]
fn a_variant_of_unknown_format_is_passed_over_by_the_check_of_references() {
    let registry = registry_of(vec![(
        root("A"),
        variants(vec![(0, "Unknown", VariantFormat::Variable)]),
    )]);
    assert_eq!(check_references(&registry), Ok(()));
}

#[test]
fn build_reports_an_incomplete_container_before_a_dangling_reference() {
    let mut builder = RegistryBuilder::new();
    builder.registry.insert(
        root("A"),
        ContainerFormat::NewTypeStruct(Box::new(missing("B")), no_doc()),
    );
    builder.registry.insert(
        within("space", "C"),
        variants(vec![(0, "Unknown", VariantFormat::Variable)]),
    );
    assert_eq!(
        builder.build(),
        Err(Error::ReflectionError {
            container: "space::C".to_string(),
            message: "Incomplete reflection detected".to_string(),
        })
    );
    let mut builder = RegistryBuilder::new();
    builder.registry.insert(
        root("A"),
        ContainerFormat::NewTypeStruct(Box::new(missing("B")), no_doc()),
    );
    assert_eq!(builder.build(), Err(dangling("A", "0", "B")));
}

#[test]
fn build_reports_a_reference_to_a_type_that_is_not_registered() {
    // A union is named, but nothing registers it.
    let types = table(vec![
        Shape {
            ty: Type::User(UserType::Union),
            ..blank(1, "Bits")
        },
        list(2, 0),
        structure(3, "Holder", StructKind::Struct, vec![field("all", 1)]),
    ]);
    let builder = reflect(&types, 2);
    assert_eq!(
        builder.build(),
        Err(Error::DanglingTypeReference {
            name: "Holder".to_string(),
            namespace: "ROOT".to_string(),
            location: "all".to_string(),
            missing_name: "Bits".to_string(),
            missing_namespace: "ROOT".to_string(),
        })
    );
}
