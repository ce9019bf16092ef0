//! What enums become, with their variants.

use vstd::prelude::*;

use crate::completion;
use crate::format::{lines_view, ContainerView, FormatView, NamedView, VariantView};
use crate::laws;
use crate::laws::{containers, structure};
use crate::model;
use crate::model::State;
use crate::names::{NameView, SpaceView};
use crate::namespace;
use crate::naming;
use crate::progress;
use crate::reach;
use crate::scalar;
use crate::shape;
use crate::shape::{Field, Shape, Type, UserType, Variant};
use crate::step::Step;
use crate::text;
use crate::walk;

verus! {

// Named fields

/// The value of a named field of a variant: the byte string that it is annotated to be, an option
/// of what describes the content of an `Option`, or what describes its type, in the namespace that
/// the field is annotated with.
pub open spec fn is_value(
    g: Seq<Shape>,
    outer: Option<SpaceView>,
    field: Field,
    value: FormatView,
) -> bool {
    let space = structure::space_under(outer, field.attributes@);
    match scalar::bytes_format(g, field) {
        Step::Done(Some(bytes)) => value == bytes,
        _ => {
            &&& forall|t: int| #[trigger]
                containers::is_optional(g, field, t) ==> (value matches FormatView::Option(inner)
                    && structure::describes(g, space, t, *inner))
            &&& (forall|t: int| !#[trigger] containers::is_optional(g, field, t))
                ==> structure::describes(g, space, field.shape as int, value)
        },
    }
}

/// What a named field of a variant becomes: it has its rename or its name, its documentation, and
/// its value.
pub open spec fn is_named(
    g: Seq<Shape>,
    space: Option<SpaceView>,
    field: Field,
    named: NamedView<FormatView>,
) -> bool {
    &&& named.name == match field.rename {
        Some(text) => text@,
        None => field.name@,
    }
    &&& named.doc == lines_view(field.doc@)
    &&& is_value(g, space, field, named.value)
}

/// The fields of a variant are those of the type in their order, without the skipped ones and
/// without those that no format describes.
pub open spec fn are_named(
    g: Seq<Shape>,
    space: Option<SpaceView>,
    fields: Seq<Field>,
    n: int,
    out: Seq<NamedView<FormatView>>,
) -> bool
    decreases n,
{
    if n <= 0 {
        out.len() == 0
    } else if fields[n - 1].skip {
        are_named(g, space, fields, n - 1, out)
    } else {
        ||| containers::may_be_left_out(g, fields[n - 1]) && are_named(g, space, fields, n - 1, out)
        ||| out.len() > 0 && is_named(g, space, fields[n - 1], out.last()) && are_named(
            g,
            space,
            fields,
            n - 1,
            out.drop_last(),
        )
    }
}

/// A named field of a variant that has a format has the one that describes its type: for an
/// `Option` an option of what describes its content. A field has none only if no format describes
/// it.
pub proof fn law_variant_field(g: Seq<Shape>, s: State, field: Field, room: nat)
    requires
        progress::fit(g, s, room),
        completion::well_named(g, s),
        field.shape < g.len(),
        reach::field_within(g, field),
    ensures
        walk::variant_field(g, s, field, room) matches Step::Done((_, Some(value))) ==> is_value(
            g,
            structure::space_of(s),
            field,
            value,
        ),
        walk::variant_field(g, s, field, room) matches Step::Done((_, None))
            ==> containers::may_be_left_out(g, field) && forall|t: int|
            !#[trigger] containers::is_optional(g, field, t),
{
    let space = structure::space_under(structure::space_of(s), field.attributes@);
    progress::lemma_fit_orderly(g, s, room);
    let i = field.shape as int;
    assert(shape::shape_wf(g, i));
    if let Step::Done(None) = scalar::bytes_format(g, field) {
        if let Ok(action) = namespace::namespace_action(field.attributes@) {
            let entered = model::enter(s, action);
            structure::law_space_under(s, field.attributes@);
            progress::lemma_enter(g, s, action, room);
            progress::lemma_fit_orderly(g, entered, room);
            completion::lemma_well_named_before(g, entered, s);
            if let Some(t) = walk::option_of(g, field) {
                assert(containers::is_optional(g, field, t));
                containers::law_settled_format(g, entered, t, room);
            } else {
                assert forall|t: int| !#[trigger] containers::is_optional(g, field, t) by {}
                containers::law_field_format(g, entered, i);
                let (s1, formatted) = walk::field_format(g, entered, i);
                if let Step::Done(Some(value)) = formatted {
                    if let Step::Done(s2) = walk::field_type(g, s1, i, action, room) {
                        structure::law_standing_describes(g, space, s2, i, value);
                    }
                }
            }
        }
    }
}

proof fn lemma_named(
    g: Seq<Shape>,
    s: State,
    fields: Seq<Field>,
    from: int,
    known: Seq<NamedView<FormatView>>,
    room: nat,
)
    requires
        progress::fit(g, s, room),
        completion::well_named(g, s),
        shape::fields_below(fields, g.len() as int),
        reach::fields_within(g, fields),
        0 <= from <= fields.len(),
        are_named(g, structure::space_of(s), fields, from, known),
    ensures
        walk::variant_fields(g, s, fields, from, known, room) matches Step::Done((_, out))
            ==> are_named(g, structure::space_of(s), fields, fields.len() as int, out),
    decreases fields.len() - from,
{
    let space = structure::space_of(s);
    if from < fields.len() {
        let field = fields[from];
        if field.skip {
            lemma_named(g, s, fields, from + 1, known, room);
        } else {
            assert(reach::field_within(g, field));
            law_variant_field(g, s, field, room);
            completion::lemma_variant_field(g, s, field, room, room);
            if let Step::Done((t, value)) = walk::variant_field(g, s, field, room) {
                containers::lemma_later(g, s, t, room);
                let after = match value {
                    Some(format) => known.push(model::named_field(field, format)),
                    None => known,
                };
                if value is Some {
                    assert(after.drop_last() =~= known);
                }
                assert(are_named(g, space, fields, from + 1, after));
                lemma_named(g, t, fields, from + 1, after, room);
            }
        }
    }
}

// Positional fields

/// A positional field of a variant is the item that it is in a tuple.
pub proof fn law_variant_item(g: Seq<Shape>, s: State, field: Field, j: int, room: nat)
    requires
        progress::fit(g, s, room),
        completion::well_named(g, s),
        0 <= j < g.len(),
        field.shape < g.len(),
    ensures
        walk::variant_item(g, s, field, j, room) matches Step::Done((_, Some(value)))
            ==> containers::is_item(
            g,
            structure::space_under(structure::space_of(s), g[j].attributes@),
            field,
            value,
        ),
        walk::variant_item(g, s, field, j, room) matches Step::Done((_, None))
            ==> containers::may_be_left_out(g, field),
{
    let space = structure::space_under(structure::space_of(s), g[j].attributes@);
    progress::lemma_fit_orderly(g, s, room);
    let i = field.shape as int;
    if let Step::Done(None) = scalar::bytes_format(g, field) {
        if let Ok(action) = namespace::namespace_action(g[j].attributes@) {
            let entered = model::enter(s, action);
            structure::law_space_under(s, g[j].attributes@);
            reach::lemma_shape_space(g, j);
            progress::lemma_enter(g, s, action, room);
            progress::lemma_fit_orderly(g, entered, room);
            completion::lemma_well_named_before(g, entered, s);
            containers::law_field_format(g, entered, i);
            let (s1, formatted) = walk::field_format(g, entered, i);
            if let Step::Done(Some(value)) = formatted {
                if let Step::Done(s2) = walk::nested(g, s1, i, room) {
                    structure::law_standing_describes(g, space, s2, i, value);
                }
            }
        }
    }
}

proof fn lemma_positional(
    g: Seq<Shape>,
    s: State,
    fields: Seq<Field>,
    from: int,
    known: Seq<FormatView>,
    j: int,
    room: nat,
)
    requires
        progress::fit(g, s, room),
        completion::well_named(g, s),
        structure::space_under(structure::space_of(s), g[j].attributes@) == structure::space_of(s),
        0 <= j < g.len(),
        shape::fields_below(fields, g.len() as int),
        0 <= from <= fields.len(),
        containers::are_items(g, structure::space_of(s), fields, from, known),
    ensures
        walk::variant_items(g, s, fields, from, known, j, room) matches Step::Done((_, out))
            ==> containers::are_items(g, structure::space_of(s), fields, fields.len() as int, out),
    decreases fields.len() - from,
{
    let space = structure::space_of(s);
    if from < fields.len() {
        let field = fields[from];
        if field.skip {
            lemma_positional(g, s, fields, from + 1, known, j, room);
        } else {
            law_variant_item(g, s, field, j, room);
            completion::lemma_variant_item(g, s, field, j, room, room);
            if let Step::Done((t, value)) = walk::variant_item(g, s, field, j, room) {
                containers::lemma_later(g, s, t, room);
                let after = match value {
                    Some(format) => known.push(format),
                    None => known,
                };
                if value is Some {
                    assert(after.drop_last() =~= known);
                }
                assert(containers::are_items(g, space, fields, from + 1, after));
                lemma_positional(g, t, fields, from + 1, after, j, room);
            }
        }
    }
}

/// The payload of a variant with one positional field: the byte string that it is annotated to be,
/// or what describes its type in the namespace that it is annotated with. A payload that is nothing
/// leaves a unit variant, but the type `()` itself stays a payload.
pub open spec fn is_payload(
    g: Seq<Shape>,
    outer: Option<SpaceView>,
    field: Field,
    value: VariantView,
) -> bool {
    let space = structure::space_under(outer, field.attributes@);
    let i = field.shape as int;
    match scalar::bytes_format(g, field) {
        Step::Done(Some(bytes)) => value == VariantView::NewType(bytes),
        _ => if g[i].type_identifier@ == "()"@ {
            value == VariantView::NewType(FormatView::Unit)
        } else {
            match value {
                VariantView::NewType(format) => !(format is Unit) && structure::describes(
                    g,
                    space,
                    i,
                    format,
                ),
                VariantView::Unit => containers::has_no_format(g, i) || structure::describes(
                    g,
                    space,
                    i,
                    FormatView::Unit,
                ),
                _ => false,
            }
        },
    }
}

/// A variant with one positional field holds its payload.
pub proof fn law_newtype_variant(g: Seq<Shape>, s: State, field: Field, room: nat)
    requires
        progress::fit(g, s, room),
        completion::well_named(g, s),
        field.shape < g.len(),
        reach::field_within(g, field),
    ensures
        walk::newtype_variant(g, s, field, room) matches Step::Done((_, value)) ==> is_payload(
            g,
            structure::space_of(s),
            field,
            value,
        ),
{
    let space = structure::space_under(structure::space_of(s), field.attributes@);
    progress::lemma_fit_orderly(g, s, room);
    let i = field.shape as int;
    if let Step::Done(None) = scalar::bytes_format(g, field) {
        if let Ok(action) = namespace::namespace_action(field.attributes@) {
            let entered = model::enter(s, action);
            structure::law_space_under(s, field.attributes@);
            progress::lemma_enter(g, s, action, room);
            progress::lemma_fit_orderly(g, entered, room);
            completion::lemma_well_named_before(g, entered, s);
            containers::law_field_format(g, entered, i);
            structure::law_reference_describes(g, entered, i, true);
            let (s1, formatted) = walk::payload_format(g, entered, i);
            if let Step::Done(Some(format)) = formatted {
                if let Step::Done(s2) = walk::nested(g, s1, i, room) {
                    structure::law_standing_describes(g, space, s2, i, format);
                    structure::law_standing_keeps_structure(g, s2, i, format);
                }
            }
        }
    }
}

// Variants

/// A variant that is marked to be skipped.
pub open spec fn is_skipped(variant: Variant) -> bool {
    shape::has_attr(variant.attributes@, None, "skip"@)
}

/// How many of the first `n` variants are not skipped.
pub open spec fn kept(variants: Seq<Variant>, n: int) -> nat
    decreases n,
{
    if n <= 0 {
        0
    } else if is_skipped(variants[n - 1]) {
        kept(variants, n - 1)
    } else {
        kept(variants, n - 1) + 1
    }
}

/// What a variant becomes: it has its rename or its name, its documentation, and what its fields
/// give. Its fields have names unless the first one is called by a number.
pub open spec fn is_variant(
    g: Seq<Shape>,
    space: Option<SpaceView>,
    variant: Variant,
    named: NamedView<VariantView>,
) -> bool {
    let fields = variant.fields@;
    &&& named.name == match variant.rename {
        Some(text) => text@,
        None => variant.name@,
    }
    &&& named.doc == lines_view(variant.doc@)
    &&& if fields.len() == 0 {
        named.value is Unit
    } else if !text::all_digits(fields[0].name@) {
        match named.value {
            VariantView::Struct(out) => out.len() > 0 && are_named(
                g,
                space,
                fields,
                fields.len() as int,
                out,
            ),
            VariantView::Unit => are_named(g, space, fields, fields.len() as int, Seq::empty()),
            _ => false,
        }
    } else if fields.len() == 1 {
        is_payload(g, space, fields[0], named.value)
    } else {
        named.value matches VariantView::Tuple(items) && containers::are_items(
            g,
            space,
            fields,
            fields.len() as int,
            items,
        )
    }
}

/// The first `n` variants but for the skipped ones, numbered from 0 on in their order.
pub open spec fn are_variants(
    g: Seq<Shape>,
    space: Option<SpaceView>,
    variants: Seq<Variant>,
    n: int,
    numbered: Map<u32, NamedView<VariantView>>,
) -> bool {
    &&& forall|k: u32| #[trigger] numbered.contains_key(k) <==> k < kept(variants, n)
    &&& forall|v: int|
        0 <= v < n && !is_skipped(#[trigger] variants[v]) ==> is_variant(
            g,
            space,
            variants[v],
            numbered[kept(variants, v) as u32],
        )
}

/// What an enum becomes: its variants, its tagging and its documentation. Its variants are in the
/// namespace that it is annotated with.
pub open spec fn is_enum(
    g: Seq<Shape>,
    outer: Option<SpaceView>,
    shape: Shape,
    container: ContainerView,
) -> bool {
    let space = structure::space_under(outer, shape.attributes@);
    shape.ty matches Type::User(UserType::Enum(et)) && (container matches ContainerView::Enum(
        numbered,
        tagging,
        doc,
    ) && tagging == naming::tagging(shape) && doc == lines_view(shape.doc@) && are_variants(
        g,
        space,
        et.variants@,
        et.variants@.len() as int,
        numbered,
    ))
}

proof fn lemma_kept(variants: Seq<Variant>, v: int, n: int)
    requires
        0 <= v <= n <= variants.len(),
    ensures
        kept(variants, v) <= kept(variants, n),
        kept(variants, n) <= n,
        v < n && !is_skipped(variants[v]) ==> kept(variants, v) < kept(variants, n),
    decreases n,
{
    if v < n {
        lemma_kept(variants, v, n - 1);
    } else if 0 < n {
        lemma_kept(variants, n - 1, n - 1);
    }
}

proof fn lemma_variant(g: Seq<Shape>, s: State, variant: Variant, j: int, room: nat)
    requires
        progress::fit(g, s, room),
        completion::well_named(g, s),
        structure::space_under(structure::space_of(s), g[j].attributes@) == structure::space_of(s),
        0 <= j < g.len(),
        shape::fields_below(variant.fields@, g.len() as int),
        reach::fields_within(g, variant.fields@),
    ensures
        walk::variant_format(g, s, variant, j, room) matches Step::Done((_, value)) ==> is_variant(
            g,
            structure::space_of(s),
            variant,
            NamedView {
                name: naming::renamed(variant.rename, variant.name),
                doc: lines_view(variant.doc@),
                value,
            },
        ),
{
    let space = structure::space_of(s);
    let fields = variant.fields@;
    if fields.len() == 0 {
    } else if walk::has_names(variant) {
        lemma_named(g, s, fields, 0, Seq::empty(), room);
        if let Step::Done((_, out)) = walk::variant_fields(g, s, fields, 0, Seq::empty(), room) {
            if out.len() == 0 {
                assert(out =~= Seq::empty());
            }
        }
    } else if fields.len() == 1 {
        assert(reach::field_within(g, fields[0]));
        law_newtype_variant(g, s, fields[0], room);
    } else {
        lemma_positional(g, s, fields, 0, Seq::empty(), j, room);
    }
}

proof fn lemma_skipped_variant(
    g: Seq<Shape>,
    space: Option<SpaceView>,
    variants: Seq<Variant>,
    from: int,
    known: Map<u32, NamedView<VariantView>>,
)
    requires
        0 <= from < variants.len(),
        is_skipped(variants[from]),
        are_variants(g, space, variants, from, known),
    ensures
        kept(variants, from + 1) == kept(variants, from),
        are_variants(g, space, variants, from + 1, known),
{
}

proof fn lemma_next_variant(
    g: Seq<Shape>,
    space: Option<SpaceView>,
    variants: Seq<Variant>,
    from: int,
    known: Map<u32, NamedView<VariantView>>,
    named: NamedView<VariantView>,
)
    requires
        0 <= from < variants.len() <= u32::MAX,
        !is_skipped(variants[from]),
        are_variants(g, space, variants, from, known),
        is_variant(g, space, variants[from], named),
    ensures
        kept(variants, from + 1) == kept(variants, from) + 1,
        are_variants(
            g,
            space,
            variants,
            from + 1,
            known.insert(kept(variants, from) as u32, named),
        ),
{
    let index = kept(variants, from);
    let after = known.insert(index as u32, named);
    lemma_kept(variants, from, from);
    assert forall|v: int|
        0 <= v < from + 1 && !is_skipped(#[trigger] variants[v]) implies is_variant(
        g,
        space,
        variants[v],
        after[kept(variants, v) as u32],
    ) by {
        if v < from {
            lemma_kept(variants, v, from);
        }
    }
    assert forall|k: u32| #[trigger] after.contains_key(k) <==> k < kept(variants, from + 1) by {
        assert(after.contains_key(k) <==> k == index as u32 || known.contains_key(k));
    }
}

#[verifier::spinoff_prover]
#[verifier::rlimit(30)]
proof fn lemma_variants(
    g: Seq<Shape>,
    s: State,
    variants: Seq<Variant>,
    from: int,
    known: Map<u32, NamedView<VariantView>>,
    j: int,
    room: nat,
)
    requires
        progress::fit(g, s, room),
        completion::well_named(g, s),
        structure::space_under(structure::space_of(s), g[j].attributes@) == structure::space_of(s),
        0 <= j < g.len(),
        0 <= from <= variants.len() <= u32::MAX,
        forall|v: int|
            0 <= v < variants.len() ==> shape::fields_below(
                (#[trigger] variants[v]).fields@,
                g.len() as int,
            ),
        forall|v: int|
            0 <= v < variants.len() ==> reach::fields_within(g, (#[trigger] variants[v]).fields@),
        are_variants(g, structure::space_of(s), variants, from, known),
    ensures
        walk::enum_variants(
            g,
            s,
            variants,
            from,
            kept(variants, from) as int,
            known,
            j,
            room,
        ) matches Step::Done((_, numbered)) ==> are_variants(
            g,
            structure::space_of(s),
            variants,
            variants.len() as int,
            numbered,
        ),
    decreases variants.len() - from,
{
    let space = structure::space_of(s);
    if from < variants.len() {
        let variant = variants[from];
        let index = kept(variants, from) as int;
        if is_skipped(variant) {
            lemma_skipped_variant(g, space, variants, from, known);
            lemma_variants(g, s, variants, from + 1, known, j, room);
        } else {
            lemma_variant(g, s, variant, j, room);
            completion::lemma_variant_format(g, s, variant, j, room, room);
            if let Step::Done((t, value)) = walk::variant_format(g, s, variant, j, room) {
                containers::lemma_later(g, s, t, room);
                let named = NamedView {
                    name: naming::renamed(variant.rename, variant.name),
                    doc: lines_view(variant.doc@),
                    value,
                };
                let after = known.insert(index as u32, named);
                lemma_next_variant(g, space, variants, from, known, named);
                lemma_variants(g, t, variants, from + 1, after, j, room);
            }
        }
    }
}

/// An enum that is reflected under a name that nobody owned is registered under that name as what
/// it is: with its documentation, its tagging and its variants.
pub proof fn law_enum_is_described(g: Seq<Shape>, s: State, j: int, name: NameView, room: nat)
    requires
        progress::fit(g, s, room),
        completion::well_named(g, s),
        0 <= j < g.len(),
        naming::inner_of(g, j) is None,
        shape::is_container(g[j]),
        g[j].ty matches Type::User(UserType::Enum(_)),
        !(g[j].def is Option),
        model::walk_name(g, s, j).1 == Step::Done(name),
        !s.processed.contains_key(name),
    ensures
        walk::reflect(g, s, j, room) matches Step::Done(t) ==> t.registry.contains_key(name)
            && is_enum(g, structure::space_of(s), g[j], t.registry[name]),
{
    let space = structure::space_of(s);
    progress::lemma_fit_orderly(g, s, room);
    assert(shape::shape_wf(g, j));
    assert(naming::generated(g, j) == j);
    let (s1, supported) = model::meet_params(s, g[j]);
    progress::lemma_meet_params(g, s, g[j]);
    containers::lemma_later(g, s, s1, room);
    assert(model::walk_name(g, s1, j).1 == model::walk_name(g, s, j).1);
    progress::lemma_walk_name(g, s1, j);
    progress::lemma_open(g, s1, j, room);
    if let Step::Done((s2, Some(opened))) = walk::open_container(g, s1, j) {
        assert(opened == name);
        containers::lemma_opened_well_named(g, s1, j);
        let less = (room - 1) as nat;
        if let Type::User(UserType::Enum(et)) = g[j].ty {
            let apart = State { current: Seq::empty(), ..s2 };
            containers::lemma_opened_space(g, s1, j);
            reach::lemma_fields_within(g, j);
            progress::lemma_opened(g, s1, j);
            progress::lemma_fit_orderly(g, s2, less);
            progress::lemma_aside(g, s2, less);
            completion::lemma_well_named_before(g, apart, s2);
            lemma_variants(g, apart, et.variants@, 0, Map::empty(), j, less);
        }
    }
}

/// An enum that is added to a builder is registered as what it is, unless it was added before.
pub proof fn law_added_enum(g: Seq<Shape>, s: State, j: int, name: NameView)
    requires
        shape::shapes_wf(g),
        completion::at_rest(s),
        completion::well_named(g, s),
        laws::is_plain_container(g, j),
        g[j].ty matches Type::User(UserType::Enum(_)),
        model::walk_name(g, s, j).1 == Step::Done(name),
        !s.processed.contains_key(name),
    ensures
        walk::reflected(g, s, j) matches Step::Done(t) ==> t.registry.contains_key(name) && is_enum(
            g,
            None,
            g[j],
            t.registry[name],
        ),
{
    completion::lemma_fit_at_rest(g, s);
    assert(structure::space_of(s) is None);
    law_enum_is_described(g, s, j, name, reach::candidates(g).len());
}

} // verus!
