//! The state of a registry under construction, and what the single operations do to it.

use vstd::prelude::*;

use crate::error::ErrorView;
use crate::format::{ContainerView, FormatView, NamedView};
use crate::name_table;
use crate::names;
use crate::names::NameView;
use crate::namespace;
use crate::namespace::{ActionView, ContextView};
use crate::naming;
use crate::scalar;
use crate::shape::{Field, PointerType, Shape, Type, UserType};
use crate::step::Step;
use crate::text;

verus! {

/// The Rust type that owns a generated name.
pub struct ClaimView {
    pub id: u64,
    pub rust_path: Seq<char>,
}

/// A rename, with the Rust type that it applies to.
pub struct MappingView {
    pub id: u64,
    pub renamed: NameView,
}

/// The state of a registry under construction.
#[verifier::ext_equal]
pub struct State {
    /// The containers registered so far.
    pub registry: Map<NameView, ContainerView>,
    /// The names of the containers being built, the innermost last.
    pub current: Seq<NameView>,
    /// The owners of the names taken so far.
    pub processed: Map<NameView, ClaimView>,
    /// The renames recorded so far, by the name before the rename.
    pub name_mappings: Map<NameView, MappingView>,
    /// The type parameters that generic types were first used with, by declaration.
    pub generic_type_params: Map<u128, Seq<char>>,
    /// The namespace contexts in force, the innermost last.
    pub namespace_context_stack: Seq<ContextView>,
    /// The names met so far, with whether their namespace was set explicitly.
    pub type_namespace_sources: Map<NameView, bool>,
}

/// A builder that has not been given any type.
pub open spec fn empty_state() -> State {
    State {
        registry: Map::empty(),
        current: Seq::empty(),
        processed: Map::empty(),
        name_mappings: Map::empty(),
        generic_type_params: Map::empty(),
        namespace_context_stack: Seq::empty(),
        type_namespace_sources: Map::empty(),
    }
}

/// A step that did not succeed, as a step of another kind.
pub open spec fn pass<T, U>(step: Step<T>) -> Step<U> {
    match step {
        Step::Done(_) => Step::Stuck,
        Step::Fail(e) => Step::Fail(e),
        Step::Unsupported => Step::Unsupported,
        Step::Stuck => Step::Stuck,
    }
}

// Namespaces

/// Whether the name `known`, whose namespace was set explicitly if `known_explicit`, stands in
/// the way of `new`: the two are the same name in two different named namespaces, and at least
/// one of them inherited its own.
pub open spec fn clashes(
    known: NameView,
    known_explicit: bool,
    new: NameView,
    new_explicit: bool,
) -> bool {
    &&& known.name == new.name
    &&& known.namespace != new.namespace
    &&& !(known.namespace is Root)
    &&& !(new.namespace is Root)
    &&& (!new_explicit || !known_explicit)
}

/// Which of the known names stand in the way of `new`.
pub open spec fn in_the_way(
    sources: Map<NameView, bool>,
    new: NameView,
    explicit: bool,
) -> spec_fn(NameView) -> bool {
    |known: NameView| clashes(known, sources[known], new, explicit)
}

/// The error for a name that lives in two namespaces.
pub open spec fn ambiguous(known: NameView, new: NameView) -> ErrorView {
    ErrorView::AmbiguousNamespaceInheritance {
        container: new.name,
        existing_namespace: names::space_text(known.namespace),
        new_namespace: names::space_text(new.namespace),
    }
}

/// Meets the name `new`: an error if one of the known names stands in its way, of which the
/// first is reported; else it becomes known.
pub open spec fn meet_name(s: State, new: NameView, explicit: bool) -> Step<State> {
    let sources = s.type_namespace_sources;
    let blocked = in_the_way(sources, new, explicit);
    if exists|k: NameView| name_table::is_first(sources.dom(), blocked, k) {
        let k = choose|k: NameView| name_table::is_first(sources.dom(), blocked, k);
        Step::Fail(ambiguous(k, new))
    } else {
        Step::Done(State { type_namespace_sources: sources.insert(new, explicit), ..s })
    }
}

/// The namespace context in force; none where it is the cleared one.
pub open spec fn context(s: State) -> Option<ContextView> {
    let stack = s.namespace_context_stack;
    if stack.len() > 0 && stack.last() != namespace::cleared_context() {
        Some(stack.last())
    } else {
        None
    }
}

/// Enters the context that an action calls for.
pub open spec fn enter(s: State, action: ActionView) -> State {
    let stack = s.namespace_context_stack;
    let context = match action {
        ActionView::SetContext(context) => context,
        ActionView::Inherit => if stack.len() > 0 {
            stack.last()
        } else {
            namespace::cleared_context()
        },
    };
    State { namespace_context_stack: stack.push(context), ..s }
}

/// Leaves the innermost context.
pub open spec fn leave(s: State) -> State {
    let stack = s.namespace_context_stack;
    State {
        namespace_context_stack: if stack.len() > 0 {
            stack.drop_last()
        } else {
            stack
        },
        ..s
    }
}

// Names

/// The rename recorded for the shape at `i`, if there is one for this very type.
pub open spec fn recorded_rename(g: Seq<Shape>, s: State, i: int) -> Option<NameView> {
    let key = names::root_name(g[i].type_identifier@);
    if s.name_mappings.contains_key(key) && s.name_mappings[key].id == g[naming::generated(
        g,
        i,
    )].id {
        Some(s.name_mappings[key].renamed)
    } else {
        None
    }
}

/// The name of the shape at `i` when nothing but its own attributes and the recorded renames
/// contribute.
pub open spec fn settled_name(g: Seq<Shape>, s: State, i: int) -> Step<NameView> {
    match recorded_rename(g, s, i) {
        Some(renamed) => Step::Done(renamed),
        None => match naming::own_name(g, i) {
            Ok(name) => Step::Done(name),
            Err(e) => Step::Fail(e),
        },
    }
}

/// Meets `name` and gives it to a shape.
pub open spec fn give_name(s: State, name: NameView, explicit: bool) -> (State, Step<NameView>) {
    match meet_name(s, name, explicit) {
        Step::Done(s1) => (s1, Step::Done(name)),
        other => (s, pass(other)),
    }
}

/// The name of the shape at `i` under the context in force, and the state in which it is known:
/// the recorded rename, if there is one; its own name, if it sets its namespace explicitly;
/// else its own name in the namespace of the context, or as it is if there is no context.
pub open spec fn walk_name(g: Seq<Shape>, s: State, i: int) -> (State, Step<NameView>) {
    match recorded_rename(g, s, i) {
        Some(renamed) => (s, Step::Done(renamed)),
        None => match naming::own_name(g, i) {
            Err(e) => (s, Step::Fail(e)),
            Ok(own) => match namespace::namespace_action(g[i].attributes@) {
                Err(e) => (s, Step::Fail(e)),
                Ok(action) => if namespace::action_is_explicit(action) {
                    give_name(s, own, true)
                } else {
                    match context(s) {
                        None => (s, Step::Done(own)),
                        Some(context) => give_name(
                            s,
                            NameView { namespace: context.namespace, name: own.name },
                            context.explicit,
                        ),
                    }
                },
            },
        },
    }
}

/// The name of the shape at `i`: under the context in force while types are walked, else the
/// settled one.
pub open spec fn name_of(g: Seq<Shape>, s: State, i: int, walking: bool) -> (
    State,
    Step<NameView>,
) {
    if walking {
        walk_name(g, s, i)
    } else {
        (s, settled_name(g, s, i))
    }
}

/// Whether the type at `i` owns `name`; an error if another type does.
pub open spec fn owns(g: Seq<Shape>, s: State, name: NameView, i: int) -> Step<bool> {
    let shape = g[naming::generated(g, i)];
    if !s.processed.contains_key(name) {
        Step::Done(false)
    } else if s.processed[name].id == shape.id {
        Step::Done(true)
    } else {
        Step::Fail(
            ErrorView::DuplicateTypeName {
                name: name.name,
                namespace: names::space_text(name.namespace),
                existing: s.processed[name].rust_path,
                new: naming::path_text(shape),
            },
        )
    }
}

/// Makes the type at `i` the owner of `name`.
pub open spec fn take_name(g: Seq<Shape>, s: State, name: NameView, i: int) -> State {
    let shape = g[naming::generated(g, i)];
    State {
        processed: s.processed.insert(
            name,
            ClaimView { id: shape.id, rust_path: naming::path_text(shape) },
        ),
        ..s
    }
}

/// Records that the type at `i` goes by `name`, where that is not its identifier.
pub open spec fn note_rename(g: Seq<Shape>, s: State, name: NameView, i: int) -> State {
    if name.name != g[i].type_identifier@ {
        let key = NameView { namespace: name.namespace, name: g[i].type_identifier@ };
        State {
            name_mappings: s.name_mappings.insert(
                key,
                MappingView { id: g[naming::generated(g, i)].id, renamed: name },
            ),
            ..s
        }
    } else {
        s
    }
}

/// Whether the type of identity `id` owns `name`.
pub open spec fn is_owned_by(s: State, name: NameView, id: u64) -> bool {
    s.processed.contains_key(name) && s.processed[name].id == id
}

/// The name under which the type at `i`, which was referred to as `name`, stands: that very name,
/// unless it does not own it and owns it in the root, where a rename was recorded after the
/// reference was made.
pub open spec fn standing_name(g: Seq<Shape>, s: State, i: int, name: NameView) -> NameView {
    let id = g[naming::generated(g, i)].id;
    let fallback = names::root_name(name.name);
    if !is_owned_by(s, name, id) && is_owned_by(s, fallback, id) {
        fallback
    } else {
        name
    }
}

// Generic types

/// The generic types that may be used with any type parameters.
pub open spec fn is_known_generic(identifier: Seq<char>) -> bool {
    ||| identifier == "Arc"@
    ||| identifier == "Rc"@
    ||| identifier == "Box"@
    ||| identifier == "Option"@
    ||| identifier == "Vec"@
    ||| identifier == "HashMap"@
    ||| identifier == "HashSet"@
    ||| identifier == "BTreeMap"@
    ||| identifier == "BTreeSet"@
    ||| identifier == "DateTime"@
}

/// A type whose type parameters do not matter: it has none, it is a reference, a slice or an
/// array, or it is a known generic type.
pub open spec fn is_free_of_params(shape: Shape) -> bool {
    ||| shape.type_params is None
    ||| text::begins_with(shape.type_identifier@, '&')
    ||| text::begins_with(shape.type_identifier@, '[')
    ||| is_known_generic(shape.type_identifier@)
}

/// Meets a type: any other generic type must have the type parameters that its declaration was
/// first met with.
pub open spec fn meet_params(s: State, shape: Shape) -> (State, bool) {
    if is_free_of_params(shape) {
        (s, true)
    } else {
        let params = shape.type_params->0@;
        if s.generic_type_params.contains_key(shape.decl_id) {
            (s, s.generic_type_params[shape.decl_id] == params)
        } else {
            (
                State {
                    generic_type_params: s.generic_type_params.insert(shape.decl_id, params),
                    ..s
                },
                true,
            )
        }
    }
}

// The container being built

/// Sets what is being built aside, the innermost container with it.
pub open spec fn set_aside(s: State) -> State {
    State {
        current: Seq::empty(),
        registry: if s.current.len() > 0 {
            s.registry.remove(s.current.last())
        } else {
            s.registry
        },
        ..s
    }
}

/// Takes up again in `t` what was being built in `s`, the innermost container as it was.
pub open spec fn take_up(s: State, t: State) -> State {
    State {
        current: s.current,
        registry: if s.current.len() == 0 {
            t.registry
        } else {
            let last = s.current.last();
            if s.registry.contains_key(last) {
                t.registry.insert(last, s.registry[last])
            } else {
                t.registry.remove(last)
            }
        },
        ..t
    }
}

/// Starts building the container `name`.
pub open spec fn start(s: State, name: NameView, container: ContainerView) -> State {
    State { registry: s.registry.insert(name, container), current: s.current.push(name), ..s }
}

/// Ends building the innermost container.
pub open spec fn finish(s: State) -> State {
    State {
        current: if s.current.len() > 0 {
            s.current.drop_last()
        } else {
            s.current
        },
        ..s
    }
}

/// Meets the name of the type at `i`, and starts building its container.
pub open spec fn start_met(
    g: Seq<Shape>,
    s: State,
    name: NameView,
    container: ContainerView,
    i: int,
) -> Step<State> {
    match namespace::namespace_action(g[i].attributes@) {
        Err(e) => Step::Fail(e),
        Ok(action) => match meet_name(s, name, namespace::action_is_explicit(action)) {
            Step::Done(s1) => Step::Done(start(s1, name, container)),
            other => other,
        },
    }
}

/// The container being built.
pub open spec fn innermost(s: State) -> Option<ContainerView> {
    if s.current.len() > 0 && s.registry.contains_key(s.current.last()) {
        Some(s.registry[s.current.last()])
    } else {
        None
    }
}

/// Puts `container` in place of the container being built.
pub open spec fn rebuild(s: State, container: ContainerView) -> State {
    State { registry: s.registry.insert(s.current.last(), container), ..s }
}

/// Gives the container being built its next format: the format of a newtype (if it is unknown,
/// unless `force`), the next one of a tuple, or the format of the last field of a struct if that
/// is unknown.
pub open spec fn supply(s: State, format: FormatView, force: bool) -> Step<State> {
    match innermost(s) {
        None => Step::Done(s),
        Some(ContainerView::UnitStruct(_)) => Step::Done(s),
        Some(ContainerView::NewTypeStruct(inner, doc)) => if force || inner is Variable {
            Step::Done(rebuild(s, ContainerView::NewTypeStruct(format, doc)))
        } else {
            Step::Done(s)
        },
        Some(ContainerView::TupleStruct(formats, doc)) => Step::Done(
            rebuild(s, ContainerView::TupleStruct(formats.push(format), doc)),
        ),
        Some(ContainerView::Struct(fields, doc)) => if fields.len() > 0 && fields.last().value
            is Variable {
            let last = NamedView { value: format, ..fields.last() };
            Step::Done(
                rebuild(s, ContainerView::Struct(fields.update(fields.len() - 1, last), doc)),
            )
        } else {
            Step::Done(s)
        },
        Some(ContainerView::Enum(_, _, _)) => if force {
            Step::Unsupported
        } else {
            Step::Done(s)
        },
    }
}

/// Gives the struct being built its next field.
pub open spec fn add_field(s: State, field: NamedView<FormatView>) -> State {
    match innermost(s) {
        Some(ContainerView::Struct(fields, doc)) => rebuild(
            s,
            ContainerView::Struct(fields.push(field), doc),
        ),
        _ => s,
    }
}

/// Gives the tuple being built its next format.
pub open spec fn add_item(s: State, format: FormatView) -> State {
    match innermost(s) {
        Some(ContainerView::TupleStruct(formats, doc)) => rebuild(
            s,
            ContainerView::TupleStruct(formats.push(format), doc),
        ),
        _ => s,
    }
}

/// A field with its own name and documentation.
pub open spec fn named_field(field: Field, value: FormatView) -> NamedView<FormatView> {
    NamedView {
        name: naming::renamed(field.rename, field.name),
        doc: crate::format::lines_view(field.doc@),
        value,
    }
}

/// Gives the container being built a field that is annotated to be a byte string; `false` if
/// the annotation does not apply.
pub open spec fn supply_bytes(g: Seq<Shape>, s: State, field: Field) -> Step<(State, bool)> {
    match scalar::bytes_format(g, field) {
        Step::Done(None) => Step::Done((s, false)),
        Step::Done(Some(value)) => match innermost(s) {
            Some(ContainerView::NewTypeStruct(_, doc)) => Step::Done(
                (rebuild(s, ContainerView::NewTypeStruct(value, doc)), true),
            ),
            Some(ContainerView::TupleStruct(_, _)) => Step::Done((add_item(s, value), true)),
            Some(ContainerView::Struct(_, _)) => Step::Done(
                (
                    add_field(
                        s,
                        NamedView {
                            name: naming::renamed(field.rename, field.name),
                            doc: crate::format::lines_view(g[field.shape as int].doc@),
                            value,
                        },
                    ),
                    true,
                ),
            ),
            _ => Step::Done((s, false)),
        },
        other => pass(other),
    }
}

/// A struct that was given no fields becomes a unit struct.
pub open spec fn settle_struct(s: State) -> State {
    match innermost(s) {
        Some(ContainerView::Struct(fields, doc)) => if fields.len() == 0 {
            rebuild(s, ContainerView::UnitStruct(doc))
        } else {
            s
        },
        _ => s,
    }
}

/// A type that no format describes, as the field of another one.
pub open spec fn is_opaque(shape: Shape) -> bool {
    &&& shape.def is Undefined
    &&& match shape.ty {
        Type::User(UserType::Struct(_)) => false,
        Type::User(UserType::Enum(_)) => false,
        Type::Pointer(PointerType::Reference(_)) => false,
        Type::Pointer(PointerType::Raw(_)) => false,
        _ => true,
    }
}

} // verus!
