//! Laws of resolution, proved from its definition.

use crate::resolve::{
    builtin_code, define, fields_code, kept_step, placeholder_code, primitive_code,
    resolve_declared, resolve_named, resolve_payload, resolve_type, schema_name, SchemaError, Step,
};
use crate::schema::{DefinitionView, FieldsView};
use crate::zorsh::{bool_code, u128_code, u16_code, u32_code, u64_code, u8_code, unit_code};
use vstd::prelude::*;

verus! {

/// A primitive resolves by its size alone, but for the size one: size zero
/// is the unit, size one is a boolean if it is declared as `bool` and an
/// unsigned byte if not, and the sizes two, four, eight and sixteen are the
/// unsigned integers of 16, 32, 64 and 128 bits. Every other size is an
/// error. Nothing is kept on the way.
pub proof fn lemma_primitive_widths(
    graph: Map<Seq<char>, DefinitionView>,
    kept: Map<Seq<char>, Seq<char>>,
    avail: Set<Seq<char>>,
    name: Seq<char>,
    size: u8,
)
    requires
        avail.finite(),
    ensures
        define(graph, kept, avail, name, DefinitionView::Primitive(size)) == (Step {
            kept,
            result: primitive_code(name, size),
        }),
        size == 0 ==> primitive_code(name, size) == Ok::<Seq<char>, SchemaError>(unit_code()),
        size == 1 && name == "bool"@ ==> primitive_code(name, size) == Ok::<
            Seq<char>,
            SchemaError,
        >(bool_code()),
        size == 1 && name != "bool"@ ==> primitive_code(name, size) == Ok::<
            Seq<char>,
            SchemaError,
        >(u8_code()),
        size == 2 ==> primitive_code(name, size) == Ok::<Seq<char>, SchemaError>(u16_code()),
        size == 4 ==> primitive_code(name, size) == Ok::<Seq<char>, SchemaError>(u32_code()),
        size == 8 ==> primitive_code(name, size) == Ok::<Seq<char>, SchemaError>(u64_code()),
        size == 16 ==> primitive_code(name, size) == Ok::<Seq<char>, SchemaError>(u128_code()),
        size != 0 && size != 1 && size != 2 && size != 4 && size != 8 && size != 16
            ==> primitive_code(name, size) == Err::<Seq<char>, SchemaError>(
            SchemaError::UnsupportedPrimitiveSize(size),
        ),
{
}

/// The payload of an enum variant that names a struct of the graph is the
/// struct's fields written out in place, whatever else refers to that struct,
/// whether or not it is exported and whatever is kept for it.
pub proof fn lemma_payload_inlined(
    graph: Map<Seq<char>, DefinitionView>,
    kept: Map<Seq<char>, Seq<char>>,
    avail: Set<Seq<char>>,
    payload: Seq<char>,
    fields: FieldsView,
)
    requires
        avail.finite(),
        payload != "()"@,
        graph.contains_key(payload),
        graph[payload] == (DefinitionView::Struct { fields }),
    ensures
        resolve_payload(graph, kept, avail, payload) == fields_code(
            graph,
            kept,
            avail,
            fields,
            true,
        ),
{
}

/// A name that nothing defines resolves, without an error, to a placeholder
/// that holds the name, and nothing is kept on the way.
pub proof fn lemma_unknown_name_placeholder(
    graph: Map<Seq<char>, DefinitionView>,
    kept: Map<Seq<char>, Seq<char>>,
    avail: Set<Seq<char>>,
    name: Seq<char>,
)
    requires
        avail.finite(),
        builtin_code(name) is None,
        !graph.contains_key(name),
    ensures
        resolve_named(graph, kept, avail, name) == (Step {
            kept,
            result: Ok::<Seq<char>, SchemaError>(placeholder_code(name)),
        }),
        name != "()"@ && !(name.len() > 0 && name[0] == '(') && !name.contains('<')
            ==> resolve_type(graph, kept, avail, name) == (Step {
            kept,
            result: Ok::<Seq<char>, SchemaError>(placeholder_code(name)),
        }),
        placeholder_code(name).subrange(17, 17 + name.len() as int) == name,
{
    reveal_strlit("/* TODO: Resolve ");
    assert(placeholder_code(name).subrange(17, 17 + name.len() as int) =~= name);
}

/// A record is referred to by the name of its schema, whatever is under way
/// and whatever is kept: records may refer to themselves and to each other.
pub proof fn lemma_record_reference(
    graph: Map<Seq<char>, DefinitionView>,
    kept: Map<Seq<char>, Seq<char>>,
    avail: Set<Seq<char>>,
    name: Seq<char>,
)
    requires
        avail.finite(),
        builtin_code(name) is None,
        graph.contains_key(name),
        graph[name].is_record(),
    ensures
        resolve_named(graph, kept, avail, name) == (Step {
            kept,
            result: Ok::<Seq<char>, SchemaError>(schema_name(name)),
        }),
{
}

/// A definition is expanded once: where its code is kept, the code is found
/// again and nothing else is kept.
pub proof fn lemma_kept_code_found(
    graph: Map<Seq<char>, DefinitionView>,
    kept: Map<Seq<char>, Seq<char>>,
    avail: Set<Seq<char>>,
    name: Seq<char>,
)
    requires
        avail.finite(),
        kept.contains_key(name),
    ensures
        resolve_declared(graph, kept, avail, name) == (Step {
            kept,
            result: Ok::<Seq<char>, SchemaError>(kept[name]),
        }),
{
}

/// A definition that is expanded in place and met again while it is under
/// way is a cycle, and an error.
pub proof fn lemma_cycle_detected(
    graph: Map<Seq<char>, DefinitionView>,
    kept: Map<Seq<char>, Seq<char>>,
    avail: Set<Seq<char>>,
    name: Seq<char>,
)
    requires
        avail.finite(),
        !kept.contains_key(name),
        !avail.contains(name),
    ensures
        resolve_declared(graph, kept, avail, name) == (Step {
            kept,
            result: Err::<Seq<char>, SchemaError>(SchemaError::CyclicDefinition),
        }),
{
}

/// A definition that is expanded in place has its code kept under its name.
pub proof fn lemma_expanded_code_kept(
    graph: Map<Seq<char>, DefinitionView>,
    kept: Map<Seq<char>, Seq<char>>,
    avail: Set<Seq<char>>,
    name: Seq<char>,
)
    requires
        avail.finite(),
        !kept.contains_key(name),
        avail.contains(name),
    ensures
        resolve_declared(graph, kept, avail, name) == kept_step(
            name,
            define(graph, kept, avail.remove(name), name, graph[name]),
        ),
        resolve_declared(graph, kept, avail, name).result matches Ok(code) ==> resolve_declared(
            graph,
            kept,
            avail,
            name,
        ).kept[name] == code,
{
}

} // verus!
