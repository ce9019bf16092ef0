//! What is reported of a registry that cannot be handed out.

use vstd::prelude::*;

use crate::error::ErrorView;
use crate::format::{ContainerView, FormatView, NamedView, VariantView};
use crate::name_table;
use crate::names;
use crate::names::NameView;
use crate::registry;
use crate::registry::{Finding, Problem};
use crate::text;

verus! {

// Formats

/// Whether `part` is the format or occurs in it, however deep.
pub open spec fn occurs(part: FormatView, format: FormatView) -> bool
    decreases format,
{
    part == format || match format {
        FormatView::Option(inner) => occurs(part, *inner),
        FormatView::SeqOf(inner) => occurs(part, *inner),
        FormatView::SetOf(inner) => occurs(part, *inner),
        FormatView::MapOf { key, value } => occurs(part, *key) || occurs(part, *value),
        FormatView::Tuple(formats) => exists|k: int|
            0 <= k < formats.len() && occurs(part, #[trigger] formats[k]),
        FormatView::TupleArray { content, size } => occurs(part, *content),
        _ => false,
    }
}

/// A format is unknown if an unknown one occurs in it, and refers to the names that occur in it.
pub proof fn law_parts_of_formats(format: FormatView, name: NameView)
    ensures
        registry::has_unknown(format) <==> occurs(FormatView::Variable, format),
        registry::refers(format, name) <==> occurs(FormatView::TypeName(name), format),
    decreases format,
{
    match format {
        FormatView::Option(inner) => law_parts_of_formats(*inner, name),
        FormatView::SeqOf(inner) => law_parts_of_formats(*inner, name),
        FormatView::SetOf(inner) => law_parts_of_formats(*inner, name),
        FormatView::MapOf { key, value } => {
            law_parts_of_formats(*key, name);
            law_parts_of_formats(*value, name);
        },
        FormatView::Tuple(formats) => {
            assert forall|k: int| 0 <= k < formats.len() implies {
                &&& registry::has_unknown(#[trigger] formats[k]) <==> occurs(
                    FormatView::Variable,
                    formats[k],
                )
                &&& registry::refers(formats[k], name) <==> occurs(
                    FormatView::TypeName(name),
                    formats[k],
                )
            } by {
                law_parts_of_formats(formats[k], name);
            }
            assert(registry::any_unknown(formats) <==> exists|k: int|
                0 <= k < formats.len() && occurs(FormatView::Variable, #[trigger] formats[k]));
            assert(registry::refers(format, name) <==> exists|k: int|
                0 <= k < formats.len() && registry::refers(#[trigger] formats[k], name));
            assert(occurs(FormatView::TypeName(name), format) <==> exists|k: int|
                0 <= k < formats.len() && occurs(
                    FormatView::TypeName(name),
                    #[trigger] formats[k],
                ));
        },
        FormatView::TupleArray { content, size } => law_parts_of_formats(*content, name),
        _ => {},
    }
}

/// Whether a problem is one of the format.
pub open spec fn is_problem(known: Set<NameView>, format: FormatView, problem: Problem) -> bool {
    match problem {
        Problem::Unknown => occurs(FormatView::Variable, format),
        Problem::Missing(name) => occurs(FormatView::TypeName(name), format) && !known.contains(
            name,
        ),
    }
}

/// A problem that is found in a format is one of it, and one is found if there is any.
pub proof fn law_problems_are_found(known: Set<NameView>, format: FormatView)
    ensures
        match registry::problem(known, format) {
            Some(problem) => is_problem(known, format, problem),
            None => forall|problem: Problem| !#[trigger] is_problem(known, format, problem),
        },
    decreases format, 0int,
{
    match format {
        FormatView::Option(inner) => law_problems_are_found(known, *inner),
        FormatView::SeqOf(inner) => law_problems_are_found(known, *inner),
        FormatView::SetOf(inner) => law_problems_are_found(known, *inner),
        FormatView::MapOf { key, value } => {
            law_problems_are_found(known, *key);
            law_problems_are_found(known, *value);
        },
        FormatView::Tuple(formats) => {
            lemma_problems_from(known, formats, 0);
        },
        FormatView::TupleArray { content, size } => law_problems_are_found(known, *content),
        _ => {},
    }
    if registry::problem(known, format) is None {
        registry::lemma_problem(known, format);
        assert forall|problem: Problem| !#[trigger] is_problem(known, format, problem) by {
            match problem {
                Problem::Unknown => {
                    law_parts_of_formats(format, names::root_name(Seq::empty()));
                },
                Problem::Missing(name) => {
                    law_parts_of_formats(format, name);
                },
            }
        }
    }
}

proof fn lemma_problems_from(known: Set<NameView>, formats: Seq<FormatView>, from: int)
    requires
        0 <= from,
    ensures
        registry::problem_from(known, formats, from) matches Some(problem) ==> exists|k: int|
            from <= k < formats.len() && is_problem(known, #[trigger] formats[k], problem),
    decreases formats, formats.len() - from,
{
    if from < formats.len() {
        law_problems_are_found(known, formats[from]);
        lemma_problems_from(known, formats, from + 1);
    }
}

/// The keys of a map come before its values, and the items of a tuple in their order.
pub proof fn law_problems_come_in_order(
    known: Set<NameView>,
    key: FormatView,
    value: FormatView,
    formats: Seq<FormatView>,
    k: int,
)
    ensures
        ({
            let both = FormatView::MapOf { key: Box::new(key), value: Box::new(value) };
            registry::problem(known, both) == if registry::problem(known, key) is Some {
                registry::problem(known, key)
            } else {
                registry::problem(known, value)
            }
        }),
        0 <= k < formats.len() && registry::problem(known, formats[k]) is Some && (forall|j: int|
            0 <= j < k ==> registry::problem(known, #[trigger] formats[j]) is None)
            ==> registry::problem(known, FormatView::Tuple(formats)) == registry::problem(
            known,
            formats[k],
        ),
{
    if 0 <= k < formats.len() && registry::problem(known, formats[k]) is Some && (forall|j: int|
        0 <= j < k ==> registry::problem(known, #[trigger] formats[j]) is None) {
        lemma_first_problem(known, formats, 0, k);
    }
}

proof fn lemma_first_problem(known: Set<NameView>, formats: Seq<FormatView>, from: int, k: int)
    requires
        0 <= from <= k < formats.len(),
        registry::problem(known, formats[k]) is Some,
        forall|j: int| from <= j < k ==> registry::problem(known, #[trigger] formats[j]) is None,
    ensures
        registry::problem_from(known, formats, from) == registry::problem(known, formats[k]),
    decreases k - from,
{
    if from < k {
        lemma_first_problem(known, formats, from + 1, k);
    }
}

// Containers

/// Whether the format stands at the location in the variant: a payload at the name of the variant,
/// an item at its index behind that, and a field at its name behind that.
pub open spec fn is_in_variant(
    variant: NamedView<VariantView>,
    location: Seq<char>,
    format: FormatView,
) -> bool {
    match variant.value {
        VariantView::NewType(f) => f == format && location == variant.name,
        VariantView::Tuple(formats) => exists|k: int|
            0 <= k < formats.len() && #[trigger] formats[k] == format && location == variant.name
                + "."@ + text::decimal(k as nat),
        VariantView::Struct(fields) => exists|k: int|
            0 <= k < fields.len() && (#[trigger] fields[k]).value == format && location
                == variant.name + "."@ + fields[k].name,
        _ => false,
    }
}

/// Whether the format stands at the location in the container: an item at its index, and a field at
/// its name.
pub open spec fn is_in(container: ContainerView, location: Seq<char>, format: FormatView) -> bool {
    match container {
        ContainerView::NewTypeStruct(f, _) => f == format && location == "0"@,
        ContainerView::TupleStruct(formats, _) => exists|k: int|
            0 <= k < formats.len() && #[trigger] formats[k] == format && location == text::decimal(
                k as nat,
            ),
        ContainerView::Struct(fields, _) => exists|k: int|
            0 <= k < fields.len() && (#[trigger] fields[k]).value == format && location
                == fields[k].name,
        ContainerView::Enum(variants, _, _) => exists|k: u32| #[trigger]
            variants.contains_key(k) && is_in_variant(variants[k], location, format),
        ContainerView::UnitStruct(_) => false,
    }
}

/// The parts of a container are the formats that stand in it somewhere.
pub proof fn law_parts_of_containers(container: ContainerView, format: FormatView)
    ensures
        registry::part_of(container, format) <==> exists|location: Seq<char>| #[trigger]
            is_in(container, location, format),
{
    match container {
        ContainerView::UnitStruct(_) => {},
        ContainerView::NewTypeStruct(f, _) => {
            if f == format {
                assert(is_in(container, "0"@, format));
            }
        },
        ContainerView::TupleStruct(formats, _) => {
            if formats.contains(format) {
                let k = formats.index_of(format);
                assert(formats[k] == format);
                assert(is_in(container, text::decimal(k as nat), format));
            }
        },
        ContainerView::Struct(fields, _) => {
            if registry::part_of(container, format) {
                let k = choose|k: int|
                    0 <= k < fields.len() && (#[trigger] fields[k]).value == format;
                assert(is_in(container, fields[k].name, format));
            }
        },
        ContainerView::Enum(variants, _, _) => {
            if registry::part_of(container, format) {
                let k = choose|k: u32| #[trigger]
                    variants.contains_key(k) && registry::part_of_variant(
                        variants[k].value,
                        format,
                    );
                let name = variants[k].name;
                match variants[k].value {
                    VariantView::Tuple(formats) => {
                        let i = formats.index_of(format);
                        assert(formats[i] == format);
                        let location = name + "."@ + text::decimal(i as nat);
                        assert(is_in_variant(variants[k], location, format));
                        assert(is_in(container, location, format));
                    },
                    VariantView::Struct(fields) => {
                        let i = choose|i: int|
                            0 <= i < fields.len() && (#[trigger] fields[i]).value == format;
                        let location = name + "."@ + fields[i].name;
                        assert(is_in_variant(variants[k], location, format));
                        assert(is_in(container, location, format));
                    },
                    _ => {
                        assert(is_in_variant(variants[k], name, format));
                        assert(is_in(container, name, format));
                    },
                }
            }
        },
    }
}

/// A container is not known in full if an unknown format occurs in one of its parts, or a variant
/// is unknown.
pub proof fn law_unknown_containers(container: ContainerView)
    ensures
        registry::container_has_unknown(container) <==> (exists|format: FormatView| #[trigger]
            registry::part_of(container, format) && occurs(FormatView::Variable, format)) || (
        container matches ContainerView::Enum(variants, _, _) && exists|k: u32| #[trigger]
            variants.contains_key(k) && variants[k].value is Variable),
{
    let none = names::root_name(Seq::empty());
    assert forall|format: FormatView| registry::has_unknown(format) == #[trigger] occurs(
        FormatView::Variable,
        format,
    ) by {
        law_parts_of_formats(format, none);
    }
    match container {
        ContainerView::UnitStruct(_) => {},
        ContainerView::NewTypeStruct(f, _) => {
            assert(registry::part_of(container, f));
            assert(occurs(FormatView::Variable, f) == registry::has_unknown(f));
        },
        ContainerView::TupleStruct(formats, _) => {
            if registry::any_unknown(formats) {
                let k = choose|k: int|
                    0 <= k < formats.len() && registry::has_unknown(#[trigger] formats[k]);
                assert(registry::part_of(container, formats[k]));
                assert(occurs(FormatView::Variable, formats[k]));
            }
        },
        ContainerView::Struct(fields, _) => {
            if registry::any_field_unknown(fields) {
                let k = choose|k: int|
                    0 <= k < fields.len() && registry::has_unknown((#[trigger] fields[k]).value);
                assert(registry::part_of(container, fields[k].value));
                assert(occurs(FormatView::Variable, fields[k].value));
            }
        },
        ContainerView::Enum(variants, _, _) => {
            if registry::container_has_unknown(container) {
                let k = choose|k: u32| #[trigger]
                    variants.contains_key(k) && registry::variant_has_unknown(variants[k].value);
                lemma_unknown_variant(variants[k].value);
                if !(variants[k].value is Variable) {
                    let format = choose|format: FormatView| #[trigger]
                        registry::part_of_variant(variants[k].value, format)
                            && registry::has_unknown(format);
                    assert(registry::part_of(container, format));
                    assert(occurs(FormatView::Variable, format));
                }
            } else if exists|format: FormatView| #[trigger]
                registry::part_of(container, format) && occurs(FormatView::Variable, format) {
                let format = choose|format: FormatView| #[trigger]
                    registry::part_of(container, format) && occurs(FormatView::Variable, format);
                let k = choose|k: u32| #[trigger]
                    variants.contains_key(k) && registry::part_of_variant(
                        variants[k].value,
                        format,
                    );
                lemma_known_variant(variants[k].value, format);
            }
        },
    }
}

proof fn lemma_unknown_variant(variant: VariantView)
    requires
        registry::variant_has_unknown(variant),
    ensures
        variant is Variable || exists|format: FormatView| #[trigger]
            registry::part_of_variant(variant, format) && registry::has_unknown(format),
{
    match variant {
        VariantView::NewType(format) => {
            assert(registry::part_of_variant(variant, format));
        },
        VariantView::Tuple(formats) => {
            let k = choose|k: int|
                0 <= k < formats.len() && registry::has_unknown(#[trigger] formats[k]);
            assert(registry::part_of_variant(variant, formats[k]));
        },
        VariantView::Struct(fields) => {
            let k = choose|k: int|
                0 <= k < fields.len() && registry::has_unknown((#[trigger] fields[k]).value);
            assert(registry::part_of_variant(variant, fields[k].value));
        },
        _ => {},
    }
}

proof fn lemma_known_variant(variant: VariantView, format: FormatView)
    requires
        registry::part_of_variant(variant, format),
        registry::has_unknown(format),
    ensures
        registry::variant_has_unknown(variant),
{
    if let VariantView::Tuple(formats) = variant {
        let k = formats.index_of(format);
        assert(formats[k] == format);
    }
}

/// The problem that is found among fields is the first: it is in a field all of whose predecessors
/// have none, and it is located by the name of the field.
pub proof fn law_first_field(
    known: Set<NameView>,
    prefix: Seq<char>,
    fields: Seq<NamedView<FormatView>>,
    from: int,
)
    requires
        0 <= from,
    ensures
        registry::finding_in_fields(known, prefix, fields, from) matches Some(found)
            ==> exists|k: int|
            from <= k < fields.len() && is_problem(
                known,
                (#[trigger] fields[k]).value,
                found.problem,
            ) && found.location == prefix + fields[k].name && forall|j: int|
                from <= j < k ==> registry::problem(known, (#[trigger] fields[j]).value) is None,
    decreases fields.len() - from,
{
    if from < fields.len() {
        law_problems_are_found(known, fields[from].value);
        if registry::problem(known, fields[from].value) is None {
            law_first_field(known, prefix, fields, from + 1);
            if let Some(found) = registry::finding_in_fields(known, prefix, fields, from + 1) {
                let k = choose|k: int|
                    from + 1 <= k < fields.len() && is_problem(
                        known,
                        (#[trigger] fields[k]).value,
                        found.problem,
                    ) && found.location == prefix + fields[k].name && forall|j: int|
                        from + 1 <= j < k ==> registry::problem(
                            known,
                            (#[trigger] fields[j]).value,
                        ) is None;
                assert(fields[k] == fields[k]);
            }
        }
    }
}

/// Among items likewise, which are located by their index.
pub proof fn law_first_item(
    known: Set<NameView>,
    prefix: Seq<char>,
    formats: Seq<FormatView>,
    from: int,
)
    requires
        0 <= from,
    ensures
        registry::finding_in_formats(known, prefix, formats, from) matches Some(found)
            ==> exists|k: int|
            from <= k < formats.len() && is_problem(known, #[trigger] formats[k], found.problem)
                && found.location == prefix + text::decimal(k as nat) && forall|j: int|
                from <= j < k ==> registry::problem(known, #[trigger] formats[j]) is None,
    decreases formats.len() - from,
{
    if from < formats.len() {
        law_problems_are_found(known, formats[from]);
        if registry::problem(known, formats[from]) is None {
            law_first_item(known, prefix, formats, from + 1);
            if let Some(found) = registry::finding_in_formats(known, prefix, formats, from + 1) {
                let k = choose|k: int|
                    from + 1 <= k < formats.len() && is_problem(
                        known,
                        #[trigger] formats[k],
                        found.problem,
                    ) && found.location == prefix + text::decimal(k as nat) && forall|j: int|
                        from + 1 <= j < k ==> registry::problem(known, #[trigger] formats[j])
                            is None;
                assert(formats[k] == formats[k]);
            }
        }
    }
}

/// The problem that is found in a container is one of a format that stands in it where the problem
/// is located.
pub proof fn law_findings_are_located(known: Set<NameView>, container: ContainerView)
    ensures
        registry::finding_in(known, container) matches Some(found) ==> exists|format: FormatView|
            #[trigger] is_in(container, found.location, format) && is_problem(
                known,
                format,
                found.problem,
            ),
{
    if let Some(found) = registry::finding_in(known, container) {
        match container {
            ContainerView::UnitStruct(_) => {},
            ContainerView::NewTypeStruct(format, _) => {
                law_problems_are_found(known, format);
                assert(is_in(container, found.location, format));
            },
            ContainerView::TupleStruct(formats, _) => {
                law_first_item(known, Seq::empty(), formats, 0);
                let k = choose|k: int|
                    0 <= k < formats.len() && is_problem(
                        known,
                        #[trigger] formats[k],
                        found.problem,
                    ) && found.location == Seq::<char>::empty() + text::decimal(k as nat);
                assert(Seq::<char>::empty() + text::decimal(k as nat) =~= text::decimal(
                    k as nat,
                ));
                assert(is_in(container, found.location, formats[k]));
            },
            ContainerView::Struct(fields, _) => {
                law_first_field(known, Seq::empty(), fields, 0);
                let k = choose|k: int|
                    0 <= k < fields.len() && is_problem(
                        known,
                        (#[trigger] fields[k]).value,
                        found.problem,
                    ) && found.location == Seq::<char>::empty() + fields[k].name;
                assert(Seq::<char>::empty() + fields[k].name =~= fields[k].name);
                assert(is_in(container, found.location, fields[k].value));
            },
            ContainerView::Enum(variants, _, _) => {
                let holds = registry::has_finding(known, variants);
                let k = choose|k: u32| registry::is_least(variants.dom(), holds, k);
                assert(variants.contains_key(k));
                lemma_located_in_variant(known, variants[k], found);
                let format = choose|format: FormatView|
                    #[trigger] is_in_variant(variants[k], found.location, format) && is_problem(
                        known,
                        format,
                        found.problem,
                    );
                assert(is_in(container, found.location, format));
            },
        }
    }
}

proof fn lemma_located_in_variant(
    known: Set<NameView>,
    variant: NamedView<VariantView>,
    found: Finding,
)
    requires
        registry::finding_in_variant(known, variant) == Some(found),
    ensures
        exists|format: FormatView| #[trigger]
            is_in_variant(variant, found.location, format) && is_problem(
                known,
                format,
                found.problem,
            ),
{
    let prefix = variant.name + "."@;
    match variant.value {
        VariantView::NewType(format) => {
            law_problems_are_found(known, format);
            assert(is_in_variant(variant, found.location, format));
        },
        VariantView::Tuple(formats) => {
            law_first_item(known, prefix, formats, 0);
            let k = choose|k: int|
                0 <= k < formats.len() && is_problem(known, #[trigger] formats[k], found.problem)
                    && found.location == prefix + text::decimal(k as nat);
            assert(is_in_variant(variant, found.location, formats[k]));
        },
        VariantView::Struct(fields) => {
            law_first_field(known, prefix, fields, 0);
            let k = choose|k: int|
                0 <= k < fields.len() && is_problem(
                    known,
                    (#[trigger] fields[k]).value,
                    found.problem,
                ) && found.location == prefix + fields[k].name;
            assert(is_in_variant(variant, found.location, fields[k].value));
        },
        _ => {},
    }
}

/// Of the variants with a problem the one with the least number is reported.
pub proof fn law_first_variant(
    known: Set<NameView>,
    variants: Map<u32, NamedView<VariantView>>,
    k: u32,
)
    requires
        variants.contains_key(k),
        registry::finding_in_variant(known, variants[k]) is Some,
        forall|other: u32| #[trigger]
            variants.contains_key(other) && other < k ==> registry::finding_in_variant(
                known,
                variants[other],
            ) is None,
    ensures
        registry::finding_in_variants(known, variants) == registry::finding_in_variant(
            known,
            variants[k],
        ),
{
    let holds = registry::has_finding(known, variants);
    assert(registry::is_least(variants.dom(), holds, k)) by {
        assert(variants.dom().contains(k) && holds(k));
        assert forall|other: u32| #[trigger]
            variants.dom().contains(other) && holds(other) implies k <= other by {
            assert(variants.contains_key(other));
        }
    }
    let least = choose|l: u32| registry::is_least(variants.dom(), holds, l);
    assert(registry::is_least(variants.dom(), holds, least));
    assert(variants.dom().contains(least) && variants.dom().contains(k));
    assert(least == k);
}

// Registries

/// A container of the registry that is not known in full.
pub open spec fn is_unknown(registry: Map<NameView, ContainerView>, n: NameView) -> bool {
    registry.contains_key(n) && registry::container_has_unknown(registry[n])
}

/// A container of the registry in which something refers to no container.
pub open spec fn is_dangling(registry: Map<NameView, ContainerView>, n: NameView) -> bool {
    registry.contains_key(n) && registry::finding_in(registry.dom(), registry[n]) is Some
}

/// The first container that is not known in full, in the order of names.
pub open spec fn is_first_unknown(registry: Map<NameView, ContainerView>, n: NameView) -> bool {
    is_unknown(registry, n) && forall|m: NameView| #[trigger]
        is_unknown(registry, m) ==> m == n || names::name_before(n, m)
}

/// Whether the error tells of a reference to `missing`, under which nothing is registered, in the
/// first container in which there is such a one: it has the name of that container, the place of
/// the reference in it, and the name that is missing.
pub open spec fn tells(
    registry: Map<NameView, ContainerView>,
    n: NameView,
    format: FormatView,
    missing: NameView,
    error: ErrorView,
) -> bool {
    &&& is_dangling(registry, n)
    &&& forall|m: NameView| #[trigger]
        is_dangling(registry, m) ==> m == n || names::name_before(n, m)
    &&& occurs(FormatView::TypeName(missing), format)
    &&& !registry.contains_key(missing)
    &&& error matches ErrorView::DanglingTypeReference {
        name,
        namespace,
        location,
        missing_name,
        missing_namespace,
    } && {
        &&& n.name == name
        &&& names::space_text(n.namespace) == namespace
        &&& is_in(registry[n], location, format)
        &&& missing.name == missing_name
        &&& names::space_text(missing.namespace) == missing_namespace
    }
}

/// What is reported: the first container that is not known in full; and if all are, the first one
/// with a dangling reference.
pub proof fn law_what_is_reported(registry: Map<NameView, ContainerView>)
    requires
        registry.dom().finite(),
    ensures
        match registry::registry_error(registry) {
            Some(error) => {
                ||| exists|n: NameView| #[trigger]
                    is_first_unknown(registry, n) && error == (ErrorView::ReflectionError {
                        container: names::name_text(n),
                        message: "Incomplete reflection detected"@,
                    })
                ||| (forall|m: NameView| !#[trigger] is_unknown(registry, m)) && exists|
                    n: NameView,
                    format: FormatView,
                    missing: NameView,
                | #[trigger] tells(registry, n, format, missing, error)
            },
            None => forall|m: NameView|
                !(#[trigger] is_unknown(registry, m)) && !is_dangling(registry, m),
        },
{
    let known = registry.dom();
    let incomplete = registry::is_incomplete(registry);
    let dangling = registry::is_dangling(registry);
    if exists|n: NameView| name_table::is_first(known, incomplete, n) {
        let n = choose|n: NameView| name_table::is_first(known, incomplete, n);
        assert(known.contains(n) && incomplete(n));
        assert(is_unknown(registry, n));
        assert forall|m: NameView| #[trigger] is_unknown(registry, m) implies m == n
            || names::name_before(n, m) by {
            assert(known.contains(m) && incomplete(m));
        }
        assert(is_first_unknown(registry, n));
    } else {
        assert forall|m: NameView| !#[trigger] is_unknown(registry, m) by {
            if is_unknown(registry, m) {
                assert(known.contains(m) && incomplete(m));
                name_table::lemma_first_exists(known, incomplete, m);
            }
        }
        if exists|n: NameView| name_table::is_first(known, dangling, n) {
            let n = choose|n: NameView| name_table::is_first(known, dangling, n);
            assert(known.contains(n) && dangling(n));
            assert(is_dangling(registry, n));
            assert forall|m: NameView| #[trigger] is_dangling(registry, m) implies m == n
                || names::name_before(n, m) by {
                assert(known.contains(m) && dangling(m));
            }
            let found = registry::finding_in(known, registry[n])->0;
            law_findings_are_located(known, registry[n]);
            let format = choose|format: FormatView|
                #[trigger] is_in(registry[n], found.location, format) && is_problem(
                    known,
                    format,
                    found.problem,
                );
            match found.problem {
                Problem::Unknown => {
                    law_parts_of_containers(registry[n], format);
                    law_unknown_containers(registry[n]);
                    assert(registry::part_of(registry[n], format));
                    assert(is_unknown(registry, n));
                },
                Problem::Missing(missing) => {
                    assert(!registry.contains_key(missing));
                    let error = registry::registry_error(registry)->0;
                    assert(tells(registry, n, format, missing, error));
                },
            }
        } else {
            assert forall|m: NameView| !#[trigger] is_dangling(registry, m) by {
                if is_dangling(registry, m) {
                    assert(known.contains(m) && dangling(m));
                    name_table::lemma_first_exists(known, dangling, m);
                }
            }
            assert forall|m: NameView|
                !(#[trigger] is_unknown(registry, m)) && !is_dangling(registry, m) by {}
        }
    }
}

} // verus!
