//! What resolving a type name means: the code that stands for it, and the
//! codes that are kept on the way.
//!
//! Resolution is stated over the graph as a map, over the codes kept so far
//! and over the set of declared names that may still be expanded. A definition
//! that is expanded in place has its code kept under its name, and a name
//! whose code is kept is never expanded again. Expanding a name takes it out
//! of the set of names that may be expanded, so meeting it again on the way
//! is a cycle, and every chain of expansions ends.

use crate::names::{
    generic_parts, lemma_map_parts_len, lemma_tuple_parts_size, map_parts, total_size,
    tuple_parts,
};
use crate::schema::{DefinitionView, FieldsView};
use crate::text::{decimal, decimal_text};
use crate::zorsh::{
    array_code, bool_code, entries_text, enum_code, float32_code, float64_code, hash_map_code,
    hash_set_code, i128_code, i16_code, i32_code, i64_code, i8_code, joined_text, listed_text,
    option_code, string_code, struct_code, tuple_code, u128_code, u16_code, u32_code, u64_code,
    u8_code, unit_code, vec_code,
};
use vstd::prelude::*;

verus! {

/// Why a schema cannot be generated.
#[derive(Debug, Clone, Copy, PartialEq, Eq, Structural)]
pub enum SchemaError {
    /// The bytes given as a schema do not encode one.
    Undecodable,
    /// A primitive has a size in bytes that no constructor stands for.
    UnsupportedPrimitiveSize(u8),
    /// A generic or tuple type name lacks a bracket or a comma that it needs.
    MissingDelimiter,
    /// A definition that is expanded in place contains itself.
    CyclicDefinition,
}

impl SchemaError {
    /// What the error says, in words.
    pub open spec fn text(self) -> Seq<char> {
        match self {
            SchemaError::Undecodable => "the bytes do not encode a schema"@,
            SchemaError::UnsupportedPrimitiveSize(size) => "Unsupported primitive size: "@
                + decimal(size as nat),
            SchemaError::MissingDelimiter => "a type name lacks a bracket or a comma"@,
            SchemaError::CyclicDefinition => "a definition contains itself"@,
        }
    }

    /// What the error says, in words.
    pub fn message(&self) -> (r: String)
        ensures
            r@ == self.text(),
    {
        match self {
            SchemaError::Undecodable => String::from_str("the bytes do not encode a schema"),
            SchemaError::UnsupportedPrimitiveSize(size) => {
                let mut r = String::from_str("Unsupported primitive size: ");
                let digits = decimal_text(*size as u64);
                r.append(digits.as_str());
                r
            },
            SchemaError::MissingDelimiter => String::from_str(
                "a type name lacks a bracket or a comma",
            ),
            SchemaError::CyclicDefinition => String::from_str("a definition contains itself"),
        }
    }
}

/// The name under which a record's schema is bound.
pub open spec fn schema_name(name: Seq<char>) -> Seq<char> {
    name + "Schema"@
}

/// What stands for a name that nothing defines: a comment that holds the name.
pub open spec fn placeholder_code(name: Seq<char>) -> Seq<char> {
    "/* TODO: Resolve "@ + name + " */"@
}

/// The constructor for a primitive of `size` bytes that is declared as `name`.
pub open spec fn primitive_code(name: Seq<char>, size: u8) -> Result<Seq<char>, SchemaError> {
    if size == 0 {
        Ok(unit_code())
    } else if size == 1 {
        if name == "bool"@ {
            Ok(bool_code())
        } else {
            Ok(u8_code())
        }
    } else if size == 2 {
        Ok(u16_code())
    } else if size == 4 {
        Ok(u32_code())
    } else if size == 8 {
        Ok(u64_code())
    } else if size == 16 {
        Ok(u128_code())
    } else {
        Err(SchemaError::UnsupportedPrimitiveSize(size))
    }
}

/// The constructor that a well-known type name selects by itself.
pub open spec fn builtin_code(name: Seq<char>) -> Option<Seq<char>> {
    if name == "String"@ {
        Some(string_code())
    } else if name == "bool"@ {
        Some(bool_code())
    } else if name == "u8"@ {
        Some(u8_code())
    } else if name == "u16"@ {
        Some(u16_code())
    } else if name == "u32"@ {
        Some(u32_code())
    } else if name == "u64"@ {
        Some(u64_code())
    } else if name == "u128"@ {
        Some(u128_code())
    } else if name == "i8"@ {
        Some(i8_code())
    } else if name == "i16"@ {
        Some(i16_code())
    } else if name == "i32"@ {
        Some(i32_code())
    } else if name == "i64"@ {
        Some(i64_code())
    } else if name == "i128"@ {
        Some(i128_code())
    } else if name == "f32"@ {
        Some(float32_code())
    } else if name == "f64"@ {
        Some(float64_code())
    } else {
        None
    }
}

pub open spec fn field_names(fields: Seq<(Seq<char>, Seq<char>)>) -> Seq<Seq<char>> {
    Seq::new(fields.len(), |i: int| fields[i].0)
}

pub open spec fn field_types(fields: Seq<(Seq<char>, Seq<char>)>) -> Seq<Seq<char>> {
    Seq::new(fields.len(), |i: int| fields[i].1)
}

pub open spec fn variant_names(variants: Seq<(i64, Seq<char>, Seq<char>)>) -> Seq<Seq<char>> {
    Seq::new(variants.len(), |i: int| variants[i].1)
}

pub open spec fn variant_payloads(variants: Seq<(i64, Seq<char>, Seq<char>)>) -> Seq<Seq<char>> {
    Seq::new(variants.len(), |i: int| variants[i].2)
}

/// Where a step of resolution ends: the codes kept after it, each under its
/// name, and the result of the step.
pub struct Step<T> {
    pub kept: Map<Seq<char>, Seq<char>>,
    pub result: Result<T, SchemaError>,
}

/// The step that keeps what `inner` keeps and wraps its code by `wrap`.
pub open spec fn wrapped_step(inner: Step<Seq<char>>, wrap: spec_fn(Seq<char>) -> Seq<char>) -> Step<
    Seq<char>,
> {
    Step {
        kept: inner.kept,
        result: match inner.result {
            Ok(code) => Ok(wrap(code)),
            Err(e) => Err(e),
        },
    }
}

/// The step that keeps what `inner` keeps and makes one code of its codes.
pub open spec fn gathered_step(
    inner: Step<Seq<Seq<char>>>,
    gather: spec_fn(Seq<Seq<char>>) -> Seq<char>,
) -> Step<Seq<char>> {
    Step {
        kept: inner.kept,
        result: match inner.result {
            Ok(codes) => Ok(gather(codes)),
            Err(e) => Err(e),
        },
    }
}

/// The step that goes on from `before` by `last`: an error of either ends it,
/// and without one the code of `last` is added to the codes of `before`.
pub open spec fn joined_step(before: Step<Seq<Seq<char>>>, last: Step<Seq<char>>) -> Step<
    Seq<Seq<char>>,
> {
    Step {
        kept: last.kept,
        result: match (before.result, last.result) {
            (Ok(codes), Ok(code)) => Ok(codes.push(code)),
            (Ok(_), Err(e)) => Err(e),
            (Err(e), _) => Err(e),
        },
    }
}

/// The code for the type name `name`, where `kept` holds the codes kept so
/// far and `avail` the declared names that may be expanded.
///
/// `()` is the unit. A name in round brackets is a tuple of the names in it.
/// `Vec`, `Option`, `HashSet` and `HashMap` with parameters are resolved by
/// their parameters. Every other name is resolved as [`resolve_named`] says.
pub open spec fn resolve_type(
    graph: Map<Seq<char>, DefinitionView>,
    kept: Map<Seq<char>, Seq<char>>,
    avail: Set<Seq<char>>,
    name: Seq<char>,
) -> Step<Seq<char>>
    decreases avail.len(), 0nat, name.len(), 2nat,
    when avail.finite()
{
    if name == "()"@ {
        Step { kept, result: Ok(unit_code()) }
    } else if name.len() > 0 && name[0] == '(' {
        if name.last() != ')' {
            Step { kept, result: Err(SchemaError::MissingDelimiter) }
        } else {
            let inner = name.subrange(1, name.len() - 1);
            proof {
                lemma_tuple_parts_size(inner);
            }
            gathered_step(
                resolve_each(graph, kept, avail, tuple_parts(inner)),
                |codes: Seq<Seq<char>>| tuple_code(joined_text(codes)),
            )
        }
    } else if name.contains('<') {
        match generic_parts(name) {
            None => Step { kept, result: Err(SchemaError::MissingDelimiter) },
            Some((base, param)) => {
                if base == "Vec"@ {
                    wrapped_step(
                        resolve_type(graph, kept, avail, param),
                        |code: Seq<char>| vec_code(code),
                    )
                } else if base == "Option"@ {
                    wrapped_step(
                        resolve_type(graph, kept, avail, param),
                        |code: Seq<char>| option_code(code),
                    )
                } else if base == "HashSet"@ {
                    wrapped_step(
                        resolve_type(graph, kept, avail, param),
                        |code: Seq<char>| hash_set_code(code),
                    )
                } else if base == "HashMap"@ {
                    proof {
                        lemma_map_parts_len(param);
                    }
                    match map_parts(param) {
                        None => Step { kept, result: Err(SchemaError::MissingDelimiter) },
                        Some((key, value)) => {
                            let first = resolve_type(graph, kept, avail, key);
                            match first.result {
                                Err(e) => Step { kept: first.kept, result: Err(e) },
                                Ok(key_code) => wrapped_step(
                                    resolve_type(graph, first.kept, avail, value),
                                    |value_code: Seq<char>| hash_map_code(key_code, value_code),
                                ),
                            }
                        },
                    }
                } else {
                    resolve_named(graph, kept, avail, name)
                }
            },
        }
    } else {
        resolve_named(graph, kept, avail, name)
    }
}

/// The code for a name that is taken whole.
///
/// A well-known name selects its constructor. A name that the graph does not
/// define becomes a placeholder. A record is referred to by its schema's
/// name. Any other definition is expanded in place, once.
pub open spec fn resolve_named(
    graph: Map<Seq<char>, DefinitionView>,
    kept: Map<Seq<char>, Seq<char>>,
    avail: Set<Seq<char>>,
    name: Seq<char>,
) -> Step<Seq<char>>
    decreases avail.len(), 0nat, name.len(), 1nat,
    when avail.finite()
{
    match builtin_code(name) {
        Some(code) => Step { kept, result: Ok(code) },
        None => {
            if !graph.contains_key(name) {
                Step { kept, result: Ok(placeholder_code(name)) }
            } else if graph[name].is_record() {
                Step { kept, result: Ok(schema_name(name)) }
            } else {
                resolve_declared(graph, kept, avail, name)
            }
        },
    }
}

/// The code of the definition that the graph holds under `name`.
///
/// Code that is kept under the name is found again. Else the definition is
/// expanded and its code kept. Its own name may not occur in what it
/// expands: that is a cycle.
pub open spec fn resolve_declared(
    graph: Map<Seq<char>, DefinitionView>,
    kept: Map<Seq<char>, Seq<char>>,
    avail: Set<Seq<char>>,
    name: Seq<char>,
) -> Step<Seq<char>>
    decreases avail.len(), 0nat, name.len(), 0nat,
    when avail.finite()
{
    if kept.contains_key(name) {
        Step { kept, result: Ok(kept[name]) }
    } else if !avail.contains(name) {
        Step { kept, result: Err(SchemaError::CyclicDefinition) }
    } else {
        kept_step(name, define(graph, kept, avail.remove(name), name, graph[name]))
    }
}

/// The step that keeps the code of `expanded`, if it has one, under `name`.
pub open spec fn kept_step(name: Seq<char>, expanded: Step<Seq<char>>) -> Step<Seq<char>> {
    match expanded.result {
        Ok(code) => Step { kept: expanded.kept.insert(name, code), result: Ok(code) },
        Err(e) => Step { kept: expanded.kept, result: Err(e) },
    }
}

/// The code of `definition`, which is declared as `name`.
pub open spec fn define(
    graph: Map<Seq<char>, DefinitionView>,
    kept: Map<Seq<char>, Seq<char>>,
    avail: Set<Seq<char>>,
    name: Seq<char>,
    definition: DefinitionView,
) -> Step<Seq<char>>
    decreases avail.len(), 4nat, 0nat, 0nat,
    when avail.finite()
{
    match definition {
        DefinitionView::Primitive(size) => Step { kept, result: primitive_code(name, size) },
        DefinitionView::Sequence { length_width, length_bound, elements } => {
            wrapped_step(
                resolve_type(graph, kept, avail, elements),
                |code: Seq<char>|
                    if length_width == 0 {
                        array_code(code, length_bound)
                    } else {
                        vec_code(code)
                    },
            )
        },
        DefinitionView::Tuple { elements } => {
            gathered_step(
                resolve_each(graph, kept, avail, elements),
                |codes: Seq<Seq<char>>| tuple_code(joined_text(codes)),
            )
        },
        DefinitionView::Enum { variants } => {
            gathered_step(
                resolve_payloads(graph, kept, avail, variant_payloads(variants)),
                |codes: Seq<Seq<char>>|
                    enum_code(entries_text(false, variant_names(variants), codes)),
            )
        },
        DefinitionView::Struct { fields } => fields_code(graph, kept, avail, fields, false),
    }
}

/// The code of a struct with the given fields: a record of its named fields,
/// a tuple of its unnamed fields, or the unit.
pub open spec fn fields_code(
    graph: Map<Seq<char>, DefinitionView>,
    kept: Map<Seq<char>, Seq<char>>,
    avail: Set<Seq<char>>,
    fields: FieldsView,
    nested: bool,
) -> Step<Seq<char>>
    decreases avail.len(), 1nat, 0nat, 0nat,
    when avail.finite()
{
    match fields {
        FieldsView::NamedFields(named) => {
            gathered_step(
                resolve_each(graph, kept, avail, field_types(named)),
                |codes: Seq<Seq<char>>| struct_code(entries_text(nested, field_names(named), codes)),
            )
        },
        FieldsView::UnnamedFields(types) => {
            gathered_step(
                resolve_each(graph, kept, avail, types),
                |codes: Seq<Seq<char>>| tuple_code(listed_text(codes)),
            )
        },
        FieldsView::Empty => Step { kept, result: Ok(unit_code()) },
    }
}

/// The code of an enum variant's payload. `()` is the unit. A payload that
/// names a struct gets that struct's fields written out at the variant, never
/// a reference to it. Any other payload is resolved as a type name.
pub open spec fn resolve_payload(
    graph: Map<Seq<char>, DefinitionView>,
    kept: Map<Seq<char>, Seq<char>>,
    avail: Set<Seq<char>>,
    payload: Seq<char>,
) -> Step<Seq<char>>
    decreases avail.len(), 2nat, 0nat, 0nat,
    when avail.finite()
{
    if payload == "()"@ {
        Step { kept, result: Ok(unit_code()) }
    } else if graph.contains_key(payload) {
        match graph[payload] {
            DefinitionView::Struct { fields } => fields_code(graph, kept, avail, fields, true),
            _ => resolve_type(graph, kept, avail, payload),
        }
    } else {
        resolve_type(graph, kept, avail, payload)
    }
}

/// The codes of the payloads in order, or the first error among them.
pub open spec fn resolve_payloads(
    graph: Map<Seq<char>, DefinitionView>,
    kept: Map<Seq<char>, Seq<char>>,
    avail: Set<Seq<char>>,
    payloads: Seq<Seq<char>>,
) -> Step<Seq<Seq<char>>>
    decreases avail.len(), 3nat, payloads.len(), 0nat,
    when avail.finite()
{
    if payloads.len() == 0 {
        Step { kept, result: Ok(Seq::empty()) }
    } else {
        let before = resolve_payloads(graph, kept, avail, payloads.drop_last());
        if before.result is Err {
            before
        } else {
            joined_step(before, resolve_payload(graph, before.kept, avail, payloads.last()))
        }
    }
}

/// The codes of the type names in order, or the first error among them.
pub open spec fn resolve_each(
    graph: Map<Seq<char>, DefinitionView>,
    kept: Map<Seq<char>, Seq<char>>,
    avail: Set<Seq<char>>,
    names: Seq<Seq<char>>,
) -> Step<Seq<Seq<char>>>
    decreases avail.len(), 0nat, total_size(names), 0nat,
    when avail.finite()
{
    if names.len() == 0 {
        Step { kept, result: Ok(Seq::empty()) }
    } else {
        let before = resolve_each(graph, kept, avail, names.drop_last());
        if before.result is Err {
            before
        } else {
            joined_step(before, resolve_type(graph, before.kept, avail, names.last()))
        }
    }
}

/// An error among the first `k` type names ends the step for them all.
pub proof fn lemma_each_failure(
    graph: Map<Seq<char>, DefinitionView>,
    kept: Map<Seq<char>, Seq<char>>,
    avail: Set<Seq<char>>,
    names: Seq<Seq<char>>,
    k: int,
)
    requires
        avail.finite(),
        0 <= k <= names.len(),
        resolve_each(graph, kept, avail, names.take(k)).result is Err,
    ensures
        resolve_each(graph, kept, avail, names) == resolve_each(graph, kept, avail, names.take(k)),
    decreases names.len() - k,
{
    if k < names.len() {
        assert(names.take(k + 1).drop_last() =~= names.take(k));
        lemma_each_failure(graph, kept, avail, names, k + 1);
    } else {
        assert(names.take(k) =~= names);
    }
}

/// An error among the first `k` payloads ends the step for them all.
pub proof fn lemma_payloads_failure(
    graph: Map<Seq<char>, DefinitionView>,
    kept: Map<Seq<char>, Seq<char>>,
    avail: Set<Seq<char>>,
    payloads: Seq<Seq<char>>,
    k: int,
)
    requires
        avail.finite(),
        0 <= k <= payloads.len(),
        resolve_payloads(graph, kept, avail, payloads.take(k)).result is Err,
    ensures
        resolve_payloads(graph, kept, avail, payloads) == resolve_payloads(
            graph,
            kept,
            avail,
            payloads.take(k),
        ),
    decreases payloads.len() - k,
{
    if k < payloads.len() {
        assert(payloads.take(k + 1).drop_last() =~= payloads.take(k));
        lemma_payloads_failure(graph, kept, avail, payloads, k + 1);
    } else {
        assert(payloads.take(k) =~= payloads);
    }
}

} // verus!
