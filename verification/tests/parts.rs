//! Names, texts, tables and the order of shapes.

use facet_generate::format::{ContainerFormat, Doc, Format, Named};
use facet_generate::names::QualifiedTypeName;
use facet_generate::name_table::NameTable;
use facet_generate::shape::{
    Attr, AttrData, Def, EnumType, Field, Shape, StructKind, StructType, Type, TypeTable, UserType,
    Variant,
};
use facet_generate::RegistryBuilder;

fn blank(id: u64, identifier: &str) -> Shape {
    Shape {
        id,
        decl_id: u128::from(id),
        ty: Type::User(UserType::Opaque),
        def: Def::Undefined,
        size: None,
        type_identifier: identifier.to_string(),
        display: identifier.to_string(),
        module: None,
        type_params: None,
        doc: vec![],
        attributes: vec![],
        type_tag: None,
        inner: None,
        tag: None,
        content: None,
        rename: None,
    }
}

fn text(id: u64) -> Shape {
    Shape {
        def: Def::Scalar,
        ..blank(id, "String")
    }
}

fn structure(id: u64, identifier: &str, kind: StructKind, fields: Vec<Field>) -> Shape {
    Shape {
        ty: Type::User(UserType::Struct(StructType { kind, fields })),
        ..blank(id, identifier)
    }
}

fn enumeration(id: u64, identifier: &str, variants: Vec<Variant>) -> Shape {
    Shape {
        ty: Type::User(UserType::Enum(EnumType { variants })),
        ..blank(id, identifier)
    }
}

fn list(id: u64, item: usize) -> Shape {
    Shape {
        def: Def::List(item),
        ..blank(id, "Vec")
    }
}

fn option(id: u64, item: usize) -> Shape {
    Shape {
        def: Def::Option(item),
        ..enumeration(id, "Option", vec![])
    }
}

fn field(name: &str, shape: usize) -> Field {
    Field {
        name: name.to_string(),
        rename: None,
        shape,
        skip: false,
        attributes: vec![],
        doc: vec![],
    }
}

fn variant(name: &str, fields: Vec<Field>) -> Variant {
    Variant {
        name: name.to_string(),
        rename: None,
        attributes: vec![],
        fields,
        doc: vec![],
    }
}

fn mark(ns: Option<&str>, key: &str) -> Attr {
    Attr {
        ns: ns.map(ToString::to_string),
        key: key.to_string(),
        data: AttrData::Generator,
    }
}

fn root(name: &str) -> QualifiedTypeName {
    QualifiedTypeName::root(name.to_string())
}

fn within(namespace: &str, name: &str) -> QualifiedTypeName {
    QualifiedTypeName::namespaced(namespace.to_string(), name.to_string())
}

fn named(name: &str, value: Format) -> Named<Format> {
    Named {
        name: name.to_string(),
        doc: Doc(vec![]),
        value,
    }
}

fn no_doc() -> Doc {
    Doc(vec![])
}

fn reflect(types: &TypeTable, shape: usize) -> RegistryBuilder {
    match RegistryBuilder::new().add_shape(types, shape) {
        Ok(builder) => builder,
        Err(halt) => panic!("{halt:?}"),
    }
}

fn container<'a>(builder: &'a RegistryBuilder, name: &QualifiedTypeName) -> &'a ContainerFormat {
    match builder.registry.get(name) {
        Some(container) => container,
        None => panic!("{name:?} is not registered"),
    }
}


use facet_generate::arrange::arrange;
use facet_generate::text::{comes_before, decimal_text, is_all_digits};

#[test]
fn names_are_ordered_by_namespace_then_name() {
    let mut names = vec![
        within("b", "A"),
        root("Z"),
        within("a", "B"),
        root("A"),
        within("a", "A"),
    ];
    let mut entries: NameTable<bool> = NameTable::new();
    for name in &names {
        entries.insert(name.clone(), true);
    }
    names.sort();
    for (index, name) in names.iter().enumerate() {
        assert_eq!(entries.name_at(index), name);
    }
    assert!(root("A").is_before(&within("a", "A")));
    assert!(!root("A").is_before(&root("A")));
}

#[test]
fn a_name_table_gives_back_what_was_put_in() {
    let mut table: NameTable<bool> = NameTable::new();
    assert_eq!(table.get(&root("A")), None);
    table.insert(root("A"), false);
    table.insert(root("B"), true);
    table.insert(root("A"), true);
    assert_eq!(table.len(), 2);
    assert_eq!(table.get(&root("A")), Some(&true));
    if let Some(value) = table.get_mut(&root("B")) {
        *value = false;
    }
    assert_eq!(table.remove(&root("B")), Some(false));
    assert_eq!(table.remove(&root("B")), None);
    assert!(!table.contains(&root("B")));
    assert!(table.contains(&root("A")));
}

#[test]
fn names_are_shown_with_their_namespace() {
    assert_eq!(root("A").to_text(), "A");
    assert_eq!(within("space", "A").to_text(), "space::A");
    assert_eq!(root("A").namespace.to_text(), "ROOT");
    assert_eq!(within("space", "A").namespace.to_text(), "space");
}

#[test]
fn texts_are_compared_by_character() {
    assert!(comes_before("", "a"));
    assert!(comes_before("a", "ab"));
    assert!(comes_before("Z", "a"));
    assert!(comes_before("ab", "b"));
    assert!(!comes_before("b", "ab"));
    assert!(!comes_before("a", "a"));
}

#[test]
fn numbers_are_written_in_decimal() {
    assert_eq!(decimal_text(0), "0");
    assert_eq!(decimal_text(9), "9");
    assert_eq!(decimal_text(10), "10");
    assert_eq!(decimal_text(1_234_567_890), "1234567890");
    assert_eq!(decimal_text(usize::MAX), usize::MAX.to_string());
}

#[test]
fn a_field_called_by_a_number_is_positional() {
    assert!(is_all_digits("0"));
    assert!(is_all_digits("12"));
    assert!(is_all_digits(""));
    assert!(!is_all_digits("x0"));
    assert!(!is_all_digits("٣"));
}

#[test]
fn a_table_refuses_shapes_that_are_out_of_order() {
    assert!(TypeTable::new(vec![list(1, 1), text(2)]).is_none());
    assert!(TypeTable::new(vec![list(1, 0)]).is_none());
    assert!(TypeTable::new(vec![text(1), list(2, 0)]).is_some());
    assert!(TypeTable::new(vec![structure(
        1,
        "Node",
        StructKind::Struct,
        vec![field("next", 1)]
    )])
    .is_none());
}

#[test]
fn shapes_are_put_in_order() {
    let shapes = vec![
        option(1, 1),
        list(2, 2),
        structure(3, "Node", StructKind::Struct, vec![field("next", 0)]),
        enumeration(4, "Any", vec![variant("Node", vec![field("0", 2)])]),
    ];
    let (table, place) = arrange(shapes).unwrap();
    assert_eq!(table.len(), 4);
    for (index, identity) in [1, 2, 3, 4].into_iter().enumerate() {
        assert_eq!(table.get(place[index]).id, identity);
    }
    assert_eq!(table.get(place[0]).def, Def::Option(place[1]));
    assert_eq!(table.get(place[1]).def, Def::List(place[2]));
    let builder = reflect(&table, place[3]);
    assert_eq!(
        container(&builder, &root("Node")),
        &ContainerFormat::Struct(
            vec![named(
                "next",
                Format::Option(Box::new(Format::SeqOf(Box::new(Format::TypeName(root(
                    "Node"
                ))))))
            )],
            no_doc()
        )
    );
}

#[test]
fn a_chain_that_leads_back_cannot_be_put_in_order() {
    assert!(arrange(vec![list(1, 1), list(2, 0)]).is_none());
    assert!(arrange(vec![list(1, 0)]).is_none());
    let wrapper = Shape {
        attributes: vec![mark(None, "transparent")],
        inner: Some(1),
        ..structure(1, "Wrapper", StructKind::TupleStruct, vec![field("0", 1)])
    };
    assert!(arrange(vec![wrapper, list(2, 0)]).is_none());
    assert!(arrange(vec![list(1, 7)]).is_none());
}

#[test]
fn a_table_has_one_shape_for_each_type() {
    assert!(TypeTable::new(vec![text(1), text(2)]).is_some());
    assert!(TypeTable::new(vec![text(1), list(1, 0)]).is_none());
    assert!(arrange(vec![text(1), list(1, 0)]).is_none());
}

#[test]
fn the_places_of_the_shapes_differ() {
    let (table, place) = arrange(vec![list(1, 2), list(2, 0), text(3)]).unwrap();
    let mut places = place.clone();
    places.sort_unstable();
    assert_eq!(table.len(), 3);
    assert_eq!(places, vec![0, 1, 2]);
}

#[test]
fn a_wrapper_is_put_after_what_it_wraps() {
    let wrapper = Shape {
        attributes: vec![mark(None, "transparent")],
        inner: Some(1),
        ..structure(1, "Wrapper", StructKind::TupleStruct, vec![field("0", 1)])
    };
    let (table, place) = arrange(vec![wrapper, text(2)]).unwrap();
    assert_eq!(table.get(place[0]).inner, Some(place[1]));
    assert!(place[1] < place[0]);
}
