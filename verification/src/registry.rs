//! Registries: which of them are complete, and which are closed.

use std::collections::BTreeMap;
use vstd::prelude::*;

use crate::error::{Error, ErrorView};
use crate::format::{ContainerFormat, Format, Named, VariantFormat};
use crate::format::{ContainerView, FormatView, NamedView, VariantView};
use crate::name_table;
use crate::name_table::NameTable;
use crate::names;
use crate::names::{NameView, QualifiedTypeName};
use crate::text;

verus! {

/// The containers of a registry, by name.
pub type Registry = NameTable<ContainerFormat>;

// Formats

/// Whether a part of the format is not known.
pub open spec fn has_unknown(format: FormatView) -> bool
    decreases format,
{
    match format {
        FormatView::Variable => true,
        FormatView::Option(inner) => has_unknown(*inner),
        FormatView::SeqOf(inner) => has_unknown(*inner),
        FormatView::SetOf(inner) => has_unknown(*inner),
        FormatView::MapOf { key, value } => has_unknown(*key) || has_unknown(*value),
        FormatView::Tuple(formats) => any_unknown(formats),
        FormatView::TupleArray { content, size } => has_unknown(*content),
        _ => false,
    }
}

/// Whether a part of one of the formats is not known.
pub open spec fn any_unknown(formats: Seq<FormatView>) -> bool
    decreases formats,
{
    exists|k: int| 0 <= k < formats.len() && has_unknown(#[trigger] formats[k])
}

/// Whether a part of the format is a reference to `name`.
pub open spec fn refers(format: FormatView, name: NameView) -> bool
    decreases format,
{
    match format {
        FormatView::TypeName(n) => n == name,
        FormatView::Option(inner) => refers(*inner, name),
        FormatView::SeqOf(inner) => refers(*inner, name),
        FormatView::SetOf(inner) => refers(*inner, name),
        FormatView::MapOf { key, value } => refers(*key, name) || refers(*value, name),
        FormatView::Tuple(formats) => exists|k: int|
            0 <= k < formats.len() && refers(#[trigger] formats[k], name),
        FormatView::TupleArray { content, size } => refers(*content, name),
        _ => false,
    }
}

/// What stands first in the way of a complete and closed format.
pub enum Problem {
    /// A format that is not known.
    Unknown,
    /// A reference to a name that is not known.
    Missing(NameView),
}

/// The first problem of a format, its parts taken in order, when the names of `known` are the
/// known ones.
pub open spec fn problem(known: Set<NameView>, format: FormatView) -> Option<Problem>
    decreases format, 0int,
{
    match format {
        FormatView::Variable => Some(Problem::Unknown),
        FormatView::TypeName(name) => if known.contains(name) {
            None
        } else {
            Some(Problem::Missing(name))
        },
        FormatView::Option(inner) => problem(known, *inner),
        FormatView::SeqOf(inner) => problem(known, *inner),
        FormatView::SetOf(inner) => problem(known, *inner),
        FormatView::MapOf { key, value } => match problem(known, *key) {
            Some(found) => Some(found),
            None => problem(known, *value),
        },
        FormatView::Tuple(formats) => problem_from(known, formats, 0),
        FormatView::TupleArray { content, size } => problem(known, *content),
        _ => None,
    }
}

/// The first problem of the formats from `from` on.
pub open spec fn problem_from(
    known: Set<NameView>,
    formats: Seq<FormatView>,
    from: int,
) -> Option<Problem>
    decreases formats, formats.len() - from,
{
    if from < 0 || from >= formats.len() {
        None
    } else {
        match problem(known, formats[from]) {
            Some(found) => Some(found),
            None => problem_from(known, formats, from + 1),
        }
    }
}

/// A format that is known and refers to names of `known` alone.
pub open spec fn fine(known: Set<NameView>, format: FormatView) -> bool {
    &&& !has_unknown(format)
    &&& forall|m: NameView| #[trigger] refers(format, m) ==> known.contains(m)
}

/// A format has no problem if it is known and refers to known names, and only then.
pub proof fn lemma_problem(known: Set<NameView>, format: FormatView)
    ensures
        problem(known, format) is None <==> fine(known, format),
    decreases format, 0int,
{
    match format {
        FormatView::TypeName(name) => {
            assert(refers(format, name));
            assert(forall|m: NameView| #[trigger] refers(format, m) ==> m == name);
        },
        FormatView::Option(inner) => {
            lemma_problem(known, *inner);
            assert(forall|m: NameView| refers(format, m) == #[trigger] refers(*inner, m));
            assert(forall|m: NameView| #[trigger] refers(format, m) == refers(*inner, m));
        },
        FormatView::SeqOf(inner) => {
            lemma_problem(known, *inner);
            assert(forall|m: NameView| refers(format, m) == #[trigger] refers(*inner, m));
            assert(forall|m: NameView| #[trigger] refers(format, m) == refers(*inner, m));
        },
        FormatView::SetOf(inner) => {
            lemma_problem(known, *inner);
            assert(forall|m: NameView| refers(format, m) == #[trigger] refers(*inner, m));
            assert(forall|m: NameView| #[trigger] refers(format, m) == refers(*inner, m));
        },
        FormatView::MapOf { key, value } => {
            lemma_problem(known, *key);
            lemma_problem(known, *value);
            assert(forall|m: NameView| #[trigger] refers(*key, m) ==> refers(format, m));
            assert(forall|m: NameView| #[trigger] refers(*value, m) ==> refers(format, m));
            assert(forall|m: NameView| #[trigger]
                refers(format, m) ==> refers(*key, m) || refers(*value, m));
        },
        FormatView::Tuple(formats) => {
            lemma_problem_from(known, formats, 0);
            assert(has_unknown(format) == any_unknown(formats));
            assert forall|k: int, m: NameView|
                0 <= k < formats.len() && #[trigger] refers(formats[k], m) implies refers(
                format,
                m,
            ) by {}
            if problem(known, format) is None {
                assert(!has_unknown(format));
                assert forall|m: NameView| #[trigger] refers(format, m) implies known.contains(
                    m,
                ) by {
                    let k = choose|k: int|
                        0 <= k < formats.len() && refers(#[trigger] formats[k], m);
                    assert(fine(known, formats[k]));
                }
            } else if fine(known, format) {
                assert forall|k: int| 0 <= k < formats.len() implies fine(
                    known,
                    #[trigger] formats[k],
                ) by {}
            }
        },
        FormatView::TupleArray { content, size } => {
            lemma_problem(known, *content);
            assert(forall|m: NameView| refers(format, m) == #[trigger] refers(*content, m));
            assert(forall|m: NameView| #[trigger] refers(format, m) == refers(*content, m));
        },
        _ => {
            assert(forall|m: NameView| !#[trigger] refers(format, m));
        },
    }
}

proof fn lemma_problem_from(known: Set<NameView>, formats: Seq<FormatView>, from: int)
    requires
        0 <= from,
    ensures
        problem_from(known, formats, from) is None <==> forall|k: int|
            from <= k < formats.len() ==> fine(known, #[trigger] formats[k]),
    decreases formats, formats.len() - from,
{
    if from < formats.len() {
        lemma_problem(known, formats[from]);
        lemma_problem_from(known, formats, from + 1);
    }
}

// Containers

/// A problem, and where in a container it is found.
pub struct Finding {
    pub location: Seq<char>,
    pub problem: Problem,
}

/// The problem of the format at `location`.
pub open spec fn finding(
    known: Set<NameView>,
    location: Seq<char>,
    format: FormatView,
) -> Option<Finding> {
    match problem(known, format) {
        Some(problem) => Some(Finding { location, problem }),
        None => None,
    }
}

/// The first problem of the formats from `from` on, which are located by their index.
pub open spec fn finding_in_formats(
    known: Set<NameView>,
    prefix: Seq<char>,
    formats: Seq<FormatView>,
    from: int,
) -> Option<Finding>
    decreases formats.len() - from,
{
    if from < 0 || from >= formats.len() {
        None
    } else {
        match finding(known, prefix + text::decimal(from as nat), formats[from]) {
            Some(found) => Some(found),
            None => finding_in_formats(known, prefix, formats, from + 1),
        }
    }
}

/// The first problem of the fields from `from` on, which are located by their name.
pub open spec fn finding_in_fields(
    known: Set<NameView>,
    prefix: Seq<char>,
    fields: Seq<NamedView<FormatView>>,
    from: int,
) -> Option<Finding>
    decreases fields.len() - from,
{
    if from < 0 || from >= fields.len() {
        None
    } else {
        match finding(known, prefix + fields[from].name, fields[from].value) {
            Some(found) => Some(found),
            None => finding_in_fields(known, prefix, fields, from + 1),
        }
    }
}

/// The first problem of a variant. One whose format is not known is passed over.
pub open spec fn finding_in_variant(
    known: Set<NameView>,
    variant: NamedView<VariantView>,
) -> Option<Finding> {
    match variant.value {
        VariantView::Variable => None,
        VariantView::Unit => None,
        VariantView::NewType(format) => finding(known, variant.name, format),
        VariantView::Tuple(formats) => finding_in_formats(
            known,
            variant.name + "."@,
            formats,
            0,
        ),
        VariantView::Struct(fields) => finding_in_fields(known, variant.name + "."@, fields, 0),
    }
}

/// Whether `k` is the least of the keys of which `holds` is true.
pub open spec fn is_least(keys: Set<u32>, holds: spec_fn(u32) -> bool, k: u32) -> bool {
    &&& keys.contains(k)
    &&& holds(k)
    &&& forall|other: u32| #[trigger] keys.contains(other) && holds(other) ==> k <= other
}

/// Which of the variants have a problem.
pub open spec fn has_finding(
    known: Set<NameView>,
    variants: Map<u32, NamedView<VariantView>>,
) -> spec_fn(u32) -> bool {
    |k: u32| finding_in_variant(known, variants[k]) is Some
}

/// The first problem of the variants, taken by index.
pub open spec fn finding_in_variants(
    known: Set<NameView>,
    variants: Map<u32, NamedView<VariantView>>,
) -> Option<Finding> {
    let holds = has_finding(known, variants);
    if exists|k: u32| is_least(variants.dom(), holds, k) {
        finding_in_variant(
            known,
            variants[choose|k: u32| is_least(variants.dom(), holds, k)],
        )
    } else {
        None
    }
}

/// The first problem of a container.
pub open spec fn finding_in(known: Set<NameView>, container: ContainerView) -> Option<Finding> {
    match container {
        ContainerView::UnitStruct(_) => None,
        ContainerView::NewTypeStruct(format, _) => finding(known, "0"@, format),
        ContainerView::TupleStruct(formats, _) => finding_in_formats(
            known,
            Seq::empty(),
            formats,
            0,
        ),
        ContainerView::Struct(fields, _) => finding_in_fields(known, Seq::empty(), fields, 0),
        ContainerView::Enum(variants, _, _) => finding_in_variants(known, variants),
    }
}

/// The error for a problem in the container `name`.
pub open spec fn finding_error(name: NameView, found: Finding) -> ErrorView {
    match found.problem {
        Problem::Unknown => ErrorView::UnknownFormat,
        Problem::Missing(missing) => ErrorView::DanglingTypeReference {
            name: name.name,
            namespace: names::space_text(name.namespace),
            location: found.location,
            missing_name: missing.name,
            missing_namespace: names::space_text(missing.namespace),
        },
    }
}

/// Whether a check of the container `name` ended as the first problem calls for.
pub open spec fn reports(
    r: Result<(), Error>,
    name: NameView,
    found: Option<Finding>,
) -> bool {
    match (r, found) {
        (Ok(_), None) => true,
        (Err(e), Some(found)) => e@ == finding_error(name, found),
        _ => false,
    }
}

/// Checks every type name in `format`, which is found at `location` in the container `name`.
///
/// # Errors
/// Returns [`Error::DanglingTypeReference`] for the first type name that names no container of
/// the registry, and [`Error::UnknownFormat`] if a format that is not known comes first.
pub fn check_reference(
    registry: &Registry,
    name: &QualifiedTypeName,
    location: &str,
    format: &Format,
) -> (r: Result<(), Error>)
    requires
        registry.wf(),
    ensures
        reports(r, name@, finding(registry@.dom(), location@, format@)),
    decreases format,
{
    match format {
        Format::Variable => Err(Error::UnknownFormat),
        Format::TypeName(missing) => {
            if registry.contains(missing) {
                Ok(())
            } else {
                Err(
                    Error::DanglingTypeReference {
                        name: name.name.clone(),
                        namespace: name.namespace.to_text(),
                        location: location.to_owned(),
                        missing_name: missing.name.clone(),
                        missing_namespace: missing.namespace.to_text(),
                    },
                )
            }
        },
        Format::Option(inner) => check_reference(registry, name, location, inner),
        Format::SeqOf(inner) => check_reference(registry, name, location, inner),
        Format::SetOf(inner) => check_reference(registry, name, location, inner),
        Format::MapOf { key, value } => {
            check_reference(registry, name, location, key)?;
            check_reference(registry, name, location, value)
        },
        Format::Tuple(formats) => {
            let ghost known = registry@.dom();
            let ghost parts = crate::format::formats_view(formats@);
            proof {
                crate::format::lemma_formats_view(formats@);
            }
            for k in 0..formats.len()
                invariant
                    registry.wf(),
                    known == registry@.dom(),
                    parts.len() == formats@.len(),
                    forall|i: int| 0 <= i < parts.len() ==> #[trigger] parts[i] == formats@[i]@,
                    problem_from(known, parts, 0) == problem_from(known, parts, k as int),
                    problem(known, format@) == problem_from(known, parts, 0),
                    *format == Format::Tuple(*formats),
            {
                assert(decreases_to!(*format => formats@[k as int]));
                check_reference(registry, name, location, &formats[k])?;
            }
            Ok(())
        },
        Format::TupleArray { content, size: _ } => check_reference(
            registry,
            name,
            location,
            content,
        ),
        _ => Ok(()),
    }
}

/// `prefix` followed by `text`.
fn joined(prefix: &str, text: &str) -> (r: String)
    ensures
        r@ == prefix@ + text@,
{
    let mut joined = prefix.to_owned();
    joined.append(text);
    joined
}

fn check_formats(
    registry: &Registry,
    name: &QualifiedTypeName,
    prefix: &str,
    formats: &Vec<Format>,
) -> (r: Result<(), Error>)
    requires
        registry.wf(),
    ensures
        reports(
            r,
            name@,
            finding_in_formats(
                registry@.dom(),
                prefix@,
                crate::format::formats_view(formats@),
                0,
            ),
        ),
{
    let ghost known = registry@.dom();
    let ghost parts = crate::format::formats_view(formats@);
    let ghost total = finding_in_formats(known, prefix@, parts, 0);
    proof {
        crate::format::lemma_formats_view(formats@);
    }
    for k in 0..formats.len()
        invariant
            registry.wf(),
            known == registry@.dom(),
            parts.len() == formats@.len(),
            forall|i: int| 0 <= i < parts.len() ==> #[trigger] parts[i] == formats@[i]@,
            parts == crate::format::formats_view(formats@),
            total == finding_in_formats(known, prefix@, parts, 0),
            total == finding_in_formats(known, prefix@, parts, k as int),
    {
        let location = joined(prefix, text::decimal_text(k).as_str());
        check_reference(registry, name, location.as_str(), &formats[k])?;
    }
    Ok(())
}

fn check_fields(
    registry: &Registry,
    name: &QualifiedTypeName,
    prefix: &str,
    fields: &Vec<Named<Format>>,
) -> (r: Result<(), Error>)
    requires
        registry.wf(),
    ensures
        reports(
            r,
            name@,
            finding_in_fields(
                registry@.dom(),
                prefix@,
                crate::format::fields_view(fields@),
                0,
            ),
        ),
{
    let ghost known = registry@.dom();
    let ghost parts = crate::format::fields_view(fields@);
    let ghost total = finding_in_fields(known, prefix@, parts, 0);
    for k in 0..fields.len()
        invariant
            registry.wf(),
            known == registry@.dom(),
            parts == crate::format::fields_view(fields@),
            total == finding_in_fields(known, prefix@, parts, 0),
            total == finding_in_fields(known, prefix@, parts, k as int),
    {
        let location = joined(prefix, fields[k].name.as_str());
        check_reference(registry, name, location.as_str(), &fields[k].value)?;
    }
    Ok(())
}

fn check_variant(
    registry: &Registry,
    name: &QualifiedTypeName,
    variant: &Named<VariantFormat>,
) -> (r: Result<(), Error>)
    requires
        registry.wf(),
    ensures
        reports(r, name@, finding_in_variant(registry@.dom(), variant@)),
{
    match &variant.value {
        VariantFormat::Variable => Ok(()),
        VariantFormat::Unit => Ok(()),
        VariantFormat::NewType(format) => check_reference(
            registry,
            name,
            variant.name.as_str(),
            format,
        ),
        VariantFormat::Tuple(formats) => {
            let prefix = joined(variant.name.as_str(), ".");
            check_formats(registry, name, prefix.as_str(), formats)
        },
        VariantFormat::Struct(fields) => {
            let prefix = joined(variant.name.as_str(), ".");
            check_fields(registry, name, prefix.as_str(), fields)
        },
    }
}

/// The keys of a sequence that increases stand in order.
proof fn lemma_increasing(keys: Seq<u32>)
    requires
        vstd::std_specs::btree::increasing_seq(keys),
    ensures
        forall|i: int, j: int| 0 <= i < j < keys.len() ==> keys[i] < keys[j],
{
    broadcast use vstd::std_specs::btree::group_btree_axioms;

    assert(vstd::std_specs::btree::key_obeys_cmp_spec::<u32>());
    assert forall|i: int, j: int| 0 <= i < j < keys.len() implies keys[i] < keys[j] by {
        assert(vstd::std_specs::cmp::OrdSpec::cmp_spec(&keys[i], &keys[j])
            == core::cmp::Ordering::Less);
    }
}

fn check_variants(
    registry: &Registry,
    name: &QualifiedTypeName,
    variants: &BTreeMap<u32, Named<VariantFormat>>,
) -> (r: Result<(), Error>)
    requires
        registry.wf(),
    ensures
        reports(
            r,
            name@,
            finding_in_variants(
                registry@.dom(),
                crate::format::variants_view(variants@),
            ),
        ),
{
    let ghost known = registry@.dom();
    let ghost all = crate::format::variants_view(variants@);
    let ghost holds = has_finding(known, all);
    for entry in it: variants.iter()
        invariant
            registry.wf(),
            known == registry@.dom(),
            all == crate::format::variants_view(variants@),
            holds == has_finding(known, all),
            forall|i: int| 0 <= i < it.index() ==> !holds(*(#[trigger] it.seq()[i]).0),
            forall|k: u32| #[trigger]
                variants@.contains_key(k) ==> it.seq().contains((&k, &variants@[k])),
            vstd::std_specs::btree::increasing_seq(
                it.seq().map_values(|kv: (&u32, &Named<VariantFormat>)| *kv.0),
            ),
    {
        if let Err(e) = check_variant(registry, name, entry.1) {
            proof {
                let k = *entry.0;
                let keys = it.seq().map_values(|kv: (&u32, &Named<VariantFormat>)| *kv.0);
                lemma_increasing(keys);
                assert(holds(k));
                assert forall|other: u32| #[trigger]
                    all.dom().contains(other) && holds(other) implies k <= other by {
                    let pair = (&other, &variants@[other]);
                    let at = it.seq().index_of(pair);
                    assert(it.seq()[at] == pair);
                    assert(keys[at] == other);
                    assert(keys[it.index()] == k);
                }
                assert(is_least(all.dom(), holds, k));
                let least = choose|k: u32| is_least(all.dom(), holds, k);
                assert(least == k);
            }
            return Err(e);
        }
    }
    Ok(())
}

fn check_container(registry: &Registry, name: &QualifiedTypeName, container: &ContainerFormat) -> (r:
    Result<(), Error>)
    requires
        registry.wf(),
    ensures
        reports(r, name@, finding_in(registry@.dom(), container@)),
{
    match container {
        ContainerFormat::UnitStruct(_) => Ok(()),
        ContainerFormat::NewTypeStruct(format, _) => check_reference(registry, name, "0", format),
        ContainerFormat::TupleStruct(formats, _) => {
            proof {
                reveal_strlit("");
                assert(""@ =~= Seq::empty());
            }
            check_formats(registry, name, "", formats)
        },
        ContainerFormat::Struct(fields, _) => {
            proof {
                reveal_strlit("");
                assert(""@ =~= Seq::empty());
            }
            check_fields(registry, name, "", fields)
        },
        ContainerFormat::Enum(variants, _, _) => check_variants(registry, name, variants),
    }
}

// Registries

/// Which of the containers of a registry have a problem.
pub open spec fn is_dangling(registry: Map<NameView, ContainerView>) -> spec_fn(NameView) -> bool {
    |n: NameView| finding_in(registry.dom(), registry[n]) is Some
}

/// The error for the first problem of the containers, in the order of their names.
pub open spec fn reference_error(registry: Map<NameView, ContainerView>) -> Option<ErrorView> {
    let holds = is_dangling(registry);
    if exists|n: NameView| name_table::is_first(registry.dom(), holds, n) {
        let n = choose|n: NameView| name_table::is_first(registry.dom(), holds, n);
        Some(finding_error(n, finding_in(registry.dom(), registry[n])->0))
    } else {
        None
    }
}

/// Checks that every type name in the registry names a registered container.
///
/// A reference that names nothing would reach the generators as a type that no module declares.
///
/// # Errors
/// Returns [`Error::DanglingTypeReference`] for the first reference that names no container, and
/// [`Error::UnknownFormat`] if a format that is not known comes first.
pub fn check_references(registry: &Registry) -> (r: Result<(), Error>)
    requires
        registry.wf(),
    ensures
        match (r, reference_error(registry@)) {
            (Ok(_), None) => true,
            (Err(e), Some(error)) => e@ == error,
            _ => false,
        },
{
    let ghost holds = is_dangling(registry@);
    let count = registry.len();
    for k in 0..count
        invariant
            count == registry.names().len(),
            registry.wf(),
            holds == is_dangling(registry@),
            forall|j: int| 0 <= j < k ==> !holds(#[trigger] registry.names()[j]),
    {
        let name = registry.name_at(k);
        proof {
            registry.lemma_entry(k as int);
        }
        if let Err(e) = check_container(registry, name, registry.value_at(k)) {
            proof {
                assert(holds(name@));
                registry.lemma_first_entry(holds, k as int);
                let first = choose|n: NameView|
                    name_table::is_first(registry@.dom(), holds, n);
                name_table::lemma_first_is_unique(registry@.dom(), holds, name@, first);
            }
            return Err(e);
        }
        assert(!holds(name@));
    }
    proof {
        registry.lemma_no_first(holds);
    }
    Ok(())
}

/// Whether a part of one of the fields is not known.
pub open spec fn any_field_unknown(fields: Seq<NamedView<FormatView>>) -> bool {
    exists|k: int| 0 <= k < fields.len() && has_unknown((#[trigger] fields[k]).value)
}

/// Whether a variant is not known, or a part of it is not.
pub open spec fn variant_has_unknown(variant: VariantView) -> bool {
    match variant {
        VariantView::Variable => true,
        VariantView::Unit => false,
        VariantView::NewType(format) => has_unknown(format),
        VariantView::Tuple(formats) => any_unknown(formats),
        VariantView::Struct(fields) => any_field_unknown(fields),
    }
}

/// Whether a part of a container is not known.
pub open spec fn container_has_unknown(container: ContainerView) -> bool {
    match container {
        ContainerView::UnitStruct(_) => false,
        ContainerView::NewTypeStruct(format, _) => has_unknown(format),
        ContainerView::TupleStruct(formats, _) => any_unknown(formats),
        ContainerView::Struct(fields, _) => any_field_unknown(fields),
        ContainerView::Enum(variants, _, _) => exists|k: u32| #[trigger]
            variants.contains_key(k) && variant_has_unknown(variants[k].value),
    }
}

/// Whether a part of the format is not known.
fn format_unknown(format: &Format) -> (r: bool)
    ensures
        r == has_unknown(format@),
    decreases format,
{
    match format {
        Format::Variable => true,
        Format::Option(inner) => format_unknown(inner),
        Format::SeqOf(inner) => format_unknown(inner),
        Format::SetOf(inner) => format_unknown(inner),
        Format::MapOf { key, value } => format_unknown(key) || format_unknown(value),
        Format::Tuple(formats) => {
            let ghost parts = crate::format::formats_view(formats@);
            proof {
                crate::format::lemma_formats_view(formats@);
            }
            for k in 0..formats.len()
                invariant
                    parts.len() == formats@.len(),
                    forall|i: int| 0 <= i < parts.len() ==> #[trigger] parts[i] == formats@[i]@,
                    forall|i: int| 0 <= i < k ==> !has_unknown(#[trigger] parts[i]),
                    format@ == FormatView::Tuple(parts),
                    *format == Format::Tuple(*formats),
            {
                assert(decreases_to!(*format => formats@[k as int]));
                if format_unknown(&formats[k]) {
                    assert(has_unknown(parts[k as int]));
                    assert(any_unknown(parts));
                    return true;
                }
            }
            assert(!any_unknown(parts));
            false
        },
        Format::TupleArray { content, size: _ } => format_unknown(content),
        _ => false,
    }
}

/// Whether a part of one of the formats is not known.
fn formats_unknown(formats: &Vec<Format>) -> (r: bool)
    ensures
        r == any_unknown(crate::format::formats_view(formats@)),
{
    let ghost parts = crate::format::formats_view(formats@);
    proof {
        crate::format::lemma_formats_view(formats@);
    }
    for k in 0..formats.len()
        invariant
            parts == crate::format::formats_view(formats@),
            parts.len() == formats@.len(),
            forall|i: int| 0 <= i < parts.len() ==> #[trigger] parts[i] == formats@[i]@,
            forall|i: int| 0 <= i < k ==> !has_unknown(#[trigger] parts[i]),
    {
        if format_unknown(&formats[k]) {
            assert(has_unknown(parts[k as int]));
            return true;
        }
    }
    false
}

/// Whether a part of one of the fields is not known.
fn fields_unknown(fields: &Vec<Named<Format>>) -> (r: bool)
    ensures
        r == any_field_unknown(crate::format::fields_view(fields@)),
{
    let ghost parts = crate::format::fields_view(fields@);
    for k in 0..fields.len()
        invariant
            parts == crate::format::fields_view(fields@),
            forall|i: int| 0 <= i < k ==> !has_unknown((#[trigger] parts[i]).value),
    {
        if format_unknown(&fields[k].value) {
            assert(has_unknown(parts[k as int].value));
            return true;
        }
    }
    false
}

fn variant_unknown(variant: &VariantFormat) -> (r: bool)
    ensures
        r == variant_has_unknown(variant@),
{
    match variant {
        VariantFormat::Variable => true,
        VariantFormat::Unit => false,
        VariantFormat::NewType(format) => format_unknown(format),
        VariantFormat::Tuple(formats) => formats_unknown(formats),
        VariantFormat::Struct(fields) => fields_unknown(fields),
    }
}

fn variants_unknown(variants: &BTreeMap<u32, Named<VariantFormat>>) -> (r: bool)
    ensures
        r == exists|k: u32| #[trigger]
            variants@.contains_key(k) && variant_has_unknown(variants@[k].value@),
{
    for entry in it: variants.iter()
        invariant
            forall|k: u32| #[trigger]
                variants@.contains_key(k) ==> it.seq().contains((&k, &variants@[k])),
            forall|i: int|
                0 <= i < it.index() ==> !variant_has_unknown(
                    (*(#[trigger] it.seq()[i]).1).value@,
                ),
    {
        if variant_unknown(&entry.1.value) {
            assert(variants@.contains_key(*entry.0));
            return true;
        }
    }
    false
}

/// Whether a part of the container is not known.
fn container_unknown(container: &ContainerFormat) -> (r: bool)
    ensures
        r == container_has_unknown(container@),
{
    match container {
        ContainerFormat::UnitStruct(_) => false,
        ContainerFormat::NewTypeStruct(format, _) => format_unknown(format),
        ContainerFormat::TupleStruct(formats, _) => formats_unknown(formats),
        ContainerFormat::Struct(fields, _) => fields_unknown(fields),
        ContainerFormat::Enum(variants, _, _) => {
            let r = variants_unknown(variants);
            proof {
                let all = crate::format::variants_view(variants@);
                assert(all.dom() =~= variants@.dom());
                if r {
                    let k = choose|k: u32| #[trigger]
                        variants@.contains_key(k) && variant_has_unknown(variants@[k].value@);
                    assert(all.contains_key(k) && variant_has_unknown(all[k].value));
                } else {
                    assert forall|k: u32| #[trigger] all.contains_key(k) implies
                        !variant_has_unknown(all[k].value) by {
                        assert(variants@.contains_key(k));
                    }
                }
                assert(container@->Enum_0 == all);
                assert(container_has_unknown(container@) == r);
            }
            r
        },
    }
}

/// Which of the containers of a registry are not known in full.
pub open spec fn is_incomplete(registry: Map<NameView, ContainerView>) -> spec_fn(
    NameView,
) -> bool {
    |n: NameView| container_has_unknown(registry[n])
}

/// The error for a container that is not known in full.
pub open spec fn incomplete_error(name: NameView) -> ErrorView {
    ErrorView::ReflectionError {
        container: names::name_text(name),
        message: "Incomplete reflection detected"@,
    }
}

/// Why a registry cannot be handed out: the first of its containers that is not known in full,
/// else the first reference that names no container.
pub open spec fn registry_error(registry: Map<NameView, ContainerView>) -> Option<ErrorView> {
    let holds = is_incomplete(registry);
    if exists|n: NameView| name_table::is_first(registry.dom(), holds, n) {
        Some(
            incomplete_error(choose|n: NameView| name_table::is_first(registry.dom(), holds, n)),
        )
    } else {
        reference_error(registry)
    }
}

/// Checks that the registry can be handed out.
pub(crate) fn check_registry(registry: &Registry) -> (r: Result<(), Error>)
    requires
        registry.wf(),
    ensures
        match (r, registry_error(registry@)) {
            (Ok(_), None) => true,
            (Err(e), Some(error)) => e@ == error,
            _ => false,
        },
{
    let ghost holds = is_incomplete(registry@);
    let count = registry.len();
    for k in 0..count
        invariant
            count == registry.names().len(),
            registry.wf(),
            holds == is_incomplete(registry@),
            forall|j: int| 0 <= j < k ==> !holds(#[trigger] registry.names()[j]),
    {
        let name = registry.name_at(k);
        proof {
            registry.lemma_entry(k as int);
        }
        if container_unknown(registry.value_at(k)) {
            proof {
                assert(holds(name@));
                registry.lemma_first_entry(holds, k as int);
                let first = choose|n: NameView|
                    name_table::is_first(registry@.dom(), holds, n);
                name_table::lemma_first_is_unique(registry@.dom(), holds, name@, first);
            }
            return Err(
                Error::ReflectionError {
                    container: name.to_text(),
                    message: "Incomplete reflection detected".to_owned(),
                },
            );
        }
        assert(!holds(name@));
    }
    proof {
        registry.lemma_no_first(holds);
    }
    check_references(registry)
}

// What it means that there is no error

/// Whether `format` is one of the formats of a variant.
pub open spec fn part_of_variant(variant: VariantView, format: FormatView) -> bool {
    match variant {
        VariantView::Variable => false,
        VariantView::Unit => false,
        VariantView::NewType(f) => f == format,
        VariantView::Tuple(formats) => formats.contains(format),
        VariantView::Struct(fields) => exists|k: int|
            0 <= k < fields.len() && (#[trigger] fields[k]).value == format,
    }
}

/// Whether `format` is one of the formats of a container.
pub open spec fn part_of(container: ContainerView, format: FormatView) -> bool {
    match container {
        ContainerView::UnitStruct(_) => false,
        ContainerView::NewTypeStruct(f, _) => f == format,
        ContainerView::TupleStruct(formats, _) => formats.contains(format),
        ContainerView::Struct(fields, _) => exists|k: int|
            0 <= k < fields.len() && (#[trigger] fields[k]).value == format,
        ContainerView::Enum(variants, _, _) => exists|k: u32| #[trigger]
            variants.contains_key(k) && part_of_variant(variants[k].value, format),
    }
}

/// A registry whose containers are known in full.
pub open spec fn is_complete(registry: Map<NameView, ContainerView>) -> bool {
    forall|n: NameView| #[trigger]
        registry.contains_key(n) ==> !container_has_unknown(registry[n])
}

/// A registry in which every reference names a container.
pub open spec fn is_closed(registry: Map<NameView, ContainerView>) -> bool {
    forall|n: NameView, format: FormatView, m: NameView|
        #![trigger part_of(registry[n], format), refers(format, m)]
        registry.contains_key(n) && part_of(registry[n], format) && refers(format, m)
            ==> registry.contains_key(m)
}

proof fn lemma_finding_in_formats(
    known: Set<NameView>,
    prefix: Seq<char>,
    formats: Seq<FormatView>,
    from: int,
)
    requires
        0 <= from,
    ensures
        finding_in_formats(known, prefix, formats, from) is None <==> forall|k: int|
            from <= k < formats.len() ==> fine(known, #[trigger] formats[k]),
    decreases formats.len() - from,
{
    if from < formats.len() {
        lemma_problem(known, formats[from]);
        lemma_finding_in_formats(known, prefix, formats, from + 1);
    }
}

proof fn lemma_finding_in_fields(
    known: Set<NameView>,
    prefix: Seq<char>,
    fields: Seq<NamedView<FormatView>>,
    from: int,
)
    requires
        0 <= from,
    ensures
        finding_in_fields(known, prefix, fields, from) is None <==> forall|k: int|
            from <= k < fields.len() ==> fine(known, (#[trigger] fields[k]).value),
    decreases fields.len() - from,
{
    if from < fields.len() {
        lemma_problem(known, fields[from].value);
        lemma_finding_in_fields(known, prefix, fields, from + 1);
    }
}

/// Every format of a variant is fine.
spec fn variant_fine(known: Set<NameView>, variant: VariantView) -> bool {
    forall|format: FormatView| #[trigger] part_of_variant(variant, format) ==> fine(known, format)
}

proof fn lemma_finding_in_variant(known: Set<NameView>, variant: NamedView<VariantView>)
    ensures
        finding_in_variant(known, variant) is None <==> variant_fine(known, variant.value),
{
    match variant.value {
        VariantView::NewType(format) => {
            lemma_problem(known, format);
            assert(part_of_variant(variant.value, format));
        },
        VariantView::Tuple(formats) => {
            lemma_finding_in_formats(known, variant.name + "."@, formats, 0);
            assert(forall|k: int|
                0 <= k < formats.len() ==> part_of_variant(variant.value, #[trigger] formats[k]));
        },
        VariantView::Struct(fields) => {
            lemma_finding_in_fields(known, variant.name + "."@, fields, 0);
            assert(forall|k: int|
                0 <= k < fields.len() ==> part_of_variant(
                    variant.value,
                    (#[trigger] fields[k]).value,
                ));
        },
        _ => {},
    }
}

/// A set of keys that is not empty has a least one.
proof fn lemma_least_exists(keys: Set<u32>, holds: spec_fn(u32) -> bool, k: u32)
    requires
        keys.contains(k),
        holds(k),
    ensures
        exists|l: u32| is_least(keys, holds, l),
    decreases k,
{
    if exists|other: u32| #[trigger] keys.contains(other) && holds(other) && other < k {
        let other = choose|other: u32| #[trigger]
            keys.contains(other) && holds(other) && other < k;
        lemma_least_exists(keys, holds, other);
    } else {
        assert(is_least(keys, holds, k));
    }
}

/// Every format of a container is fine.
spec fn container_fine(known: Set<NameView>, container: ContainerView) -> bool {
    forall|format: FormatView| #[trigger] part_of(container, format) ==> fine(known, format)
}

proof fn lemma_finding_in(known: Set<NameView>, container: ContainerView)
    ensures
        finding_in(known, container) is None <==> container_fine(known, container),
{
    match container {
        ContainerView::UnitStruct(_) => {},
        ContainerView::NewTypeStruct(format, _) => {
            lemma_problem(known, format);
            assert(part_of(container, format));
        },
        ContainerView::TupleStruct(formats, _) => {
            lemma_finding_in_formats(known, Seq::empty(), formats, 0);
            assert(forall|k: int|
                0 <= k < formats.len() ==> part_of(container, #[trigger] formats[k]));
        },
        ContainerView::Struct(fields, _) => {
            lemma_finding_in_fields(known, Seq::empty(), fields, 0);
            assert(forall|k: int|
                0 <= k < fields.len() ==> part_of(container, (#[trigger] fields[k]).value));
        },
        ContainerView::Enum(variants, _, _) => {
            let holds = has_finding(known, variants);
            if exists|k: u32| #[trigger] variants.contains_key(k) && holds(k) {
                let k = choose|k: u32| #[trigger] variants.contains_key(k) && holds(k);
                lemma_least_exists(variants.dom(), holds, k);
                let least = choose|l: u32| is_least(variants.dom(), holds, l);
                lemma_finding_in_variant(known, variants[least]);
                let format = choose|format: FormatView| #[trigger]
                    part_of_variant(variants[least].value, format) && !fine(known, format);
                assert(variants.contains_key(least));
                assert(part_of(container, format));
            } else {
                assert forall|format: FormatView| #[trigger]
                    part_of(container, format) implies fine(known, format) by {
                    let k = choose|k: u32| #[trigger]
                        variants.contains_key(k) && part_of_variant(variants[k].value, format);
                    assert(!holds(k));
                    lemma_finding_in_variant(known, variants[k]);
                }
            }
        },
    }
}

/// The formats of a container that is known in full are known.
proof fn lemma_parts_known(container: ContainerView, format: FormatView)
    requires
        !container_has_unknown(container),
        part_of(container, format),
    ensures
        !has_unknown(format),
{
    match container {
        ContainerView::TupleStruct(formats, _) => {
            let k = formats.index_of(format);
            assert(formats[k] == format);
        },
        ContainerView::Enum(variants, _, _) => {
            let k = choose|k: u32| #[trigger]
                variants.contains_key(k) && part_of_variant(variants[k].value, format);
            assert(variants.contains_key(k));
            if let VariantView::Tuple(formats) = variants[k].value {
                let i = formats.index_of(format);
                assert(formats[i] == format);
            }
        },
        _ => {},
    }
}

/// A registry can be handed out if its containers are known in full and every reference in it
/// names a container of it, and only then.
pub proof fn law_registry_error(registry: Map<NameView, ContainerView>)
    requires
        registry.dom().finite(),
    ensures
        registry_error(registry) is None <==> is_complete(registry) && is_closed(registry),
{
    let known = registry.dom();
    let incomplete = is_incomplete(registry);
    let dangling = is_dangling(registry);
    if registry_error(registry) is None {
        assert forall|n: NameView| #[trigger] registry.contains_key(n) implies
            !container_has_unknown(registry[n]) by {
            if incomplete(n) {
                name_table::lemma_first_exists(known, incomplete, n);
            }
        }
        assert forall|n: NameView, format: FormatView, m: NameView|
            #![trigger part_of(registry[n], format), refers(format, m)]
            registry.contains_key(n) && part_of(registry[n], format) && refers(
                format,
                m,
            ) implies registry.contains_key(m) by {
            if dangling(n) {
                name_table::lemma_first_exists(known, dangling, n);
            }
            lemma_finding_in(known, registry[n]);
            assert(fine(known, format));
        }
    } else if is_complete(registry) && is_closed(registry) {
        assert forall|n: NameView| !name_table::is_first(known, incomplete, n) by {
            if known.contains(n) {
                assert(registry.contains_key(n));
            }
        }
        assert forall|n: NameView| !name_table::is_first(known, dangling, n) by {
            if known.contains(n) {
                assert(registry.contains_key(n));
                lemma_finding_in(known, registry[n]);
                assert forall|format: FormatView| #[trigger]
                    part_of(registry[n], format) implies fine(known, format) by {
                    lemma_parts_known(registry[n], format);
                }
            }
        }
    }
}

/// A container that is not known in full is reported before anything else: the first one, if
/// there are several.
pub proof fn law_incomplete_is_reported(
    registry: Map<NameView, ContainerView>,
    name: NameView,
)
    requires
        name_table::is_first(registry.dom(), is_incomplete(registry), name),
    ensures
        registry_error(registry) == Some(incomplete_error(name)),
{
    let holds = is_incomplete(registry);
    let first = choose|n: NameView| name_table::is_first(registry.dom(), holds, n);
    name_table::lemma_first_is_unique(registry.dom(), holds, name, first);
}

} // verus!
