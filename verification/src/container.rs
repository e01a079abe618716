//! Reading a schema from its Borsh encoding.
//!
//! The bytes are decoded by the `borsh` crate into its schema container. The
//! definitions of the container are then copied, one by one, into a
//! [`SchemaGraph`].

use crate::export::{generated_text, lemma_canonical_names};
use crate::parser::Parser;
use crate::resolve::SchemaError;
use crate::schema::{Definition, DefinitionView, Fields, SchemaGraph};
use borsh::schema::BorshSchemaContainer;
use borsh::schema::Definition as OutsideDefinition;
use borsh::schema::Fields as OutsideFields;
use borsh::BorshDeserialize;
use vstd::prelude::*;

verus! {

/// The schema container of borsh, taken as it is: nothing is known of what
/// is inside one but through the functions below.
#[verifier::external_type_specification]
#[verifier::external_body]
pub struct ExBorshSchemaContainer(borsh::schema::BorshSchemaContainer);

/// The definitions that a container holds, each under its declaration.
pub uninterp spec fn container_definitions(container: BorshSchemaContainer) -> Map<
    Seq<char>,
    DefinitionView,
>;

/// The definitions of the container that `bytes` start with in Borsh
/// encoding, if they start with one.
pub uninterp spec fn decoded_definitions(bytes: Seq<u8>) -> Option<Map<Seq<char>, DefinitionView>>;

/// Calls `BorshDeserialize::deserialize` for `BorshSchemaContainer`, which
/// reads one container from the front of the bytes. The contract names the
/// outcome: the container's definitions, or none where borsh reports an
/// error. Nothing is claimed of what the definitions are.
#[verifier::external_body]
fn decode_container(bytes: &[u8]) -> (r: Option<BorshSchemaContainer>)
    ensures
        match r {
            Some(container) => decoded_definitions(bytes@) == Some(
                container_definitions(container),
            ),
            None => decoded_definitions(bytes@) is None,
        },
{
    let mut rest: &[u8] = bytes;
    match BorshSchemaContainer::deserialize(&mut rest) {
        Ok(container) => Some(container),
        Err(_) => None,
    }
}

/// Calls `BorshSchemaContainer::definitions`, which walks the container's
/// map of definitions, and hands out a copy of each key. The contract claims
/// that the keys handed out are exactly the declarations that the container
/// has a definition for.
#[verifier::external_body]
fn container_declarations(container: &BorshSchemaContainer) -> (r: Vec<String>)
    ensures
        forall|n: Seq<char>|
            r.deep_view().contains(n) <==> container_definitions(*container).contains_key(n),
{
    container.definitions().map(|(declaration, _)| declaration.clone()).collect()
}

/// Calls `BorshSchemaContainer::get_definition` and hands out a copy of what
/// is found. The contract claims that the copy has the fields of the
/// definition kept under the declaration, with the end of the length range as
/// the length bound and without the tag width, and that nothing is handed out
/// only where the container has no definition under the declaration.
#[verifier::external_body]
fn container_definition(container: &BorshSchemaContainer, declaration: &str) -> (r: Option<
    Definition,
>)
    ensures
        match r {
            Some(definition) => {
                &&& container_definitions(*container).contains_key(declaration@)
                &&& container_definitions(*container)[declaration@] == definition@
            },
            None => !container_definitions(*container).contains_key(declaration@),
        },
{
    Some(match container.get_definition(declaration)? {
        OutsideDefinition::Primitive(size) => Definition::Primitive(*size),
        OutsideDefinition::Sequence { length_width, length_range, elements } => Definition::Sequence { length_width: *length_width, length_bound: *length_range.end(), elements: elements.clone() },
        OutsideDefinition::Tuple { elements } => Definition::Tuple { elements: elements.clone() },
        OutsideDefinition::Enum { variants, .. } => Definition::Enum { variants: variants.clone() },
        OutsideDefinition::Struct { fields } => Definition::Struct { fields: match fields {
            OutsideFields::NamedFields(named) => Fields::NamedFields(named.clone()),
            OutsideFields::UnnamedFields(types) => Fields::UnnamedFields(types.clone()),
            OutsideFields::Empty => Fields::Empty,
        } },
    })
}

/// The schema graph that holds the definitions of `container`.
fn graph_of_container(container: &BorshSchemaContainer) -> (r: SchemaGraph)
    ensures
        r.wf(),
        r@ == container_definitions(*container),
{
    let ghost definitions = container_definitions(*container);
    let declarations = container_declarations(container);
    let ghost all = declarations.deep_view();
    let mut graph = SchemaGraph::new();
    let mut i: usize = 0;
    while i < declarations.len()
        invariant
            i <= declarations.len(),
            all == declarations.deep_view(),
            definitions == container_definitions(*container),
            forall|n: Seq<char>| all.contains(n) <==> definitions.contains_key(n),
            graph.wf(),
            forall|n: Seq<char>| graph@.contains_key(n) <==> all.take(i as int).contains(n),
            forall|n: Seq<char>| graph@.contains_key(n) ==> graph@[n] == definitions[n],
        decreases declarations.len() - i,
    {
        let declaration = &declarations[i];
        let ghost key = declaration@;
        let ghost before = graph@;
        proof {
            assert(all[i as int] == key);
            assert(all.contains(key));
        }
        match container_definition(container, declaration.as_str()) {
            Some(definition) => {
                graph.insert(declaration.clone(), definition);
            },
            None => {
                proof {
                    assert(false);
                }
            },
        }
        proof {
            assert(graph@ == before.insert(key, definitions[key]));
            assert forall|n: Seq<char>| graph@.contains_key(n) <==> all.take(i + 1).contains(
                n,
            ) by {
                if all.take(i + 1).contains(n) {
                    let k = all.take(i + 1).index_of(n);
                    if k < i {
                        assert(all.take(i as int)[k] == n);
                    }
                }
                if all.take(i as int).contains(n) {
                    let k = all.take(i as int).index_of(n);
                    assert(all.take(i + 1)[k] == n);
                }
                assert(all.take(i + 1)[i as int] == key);
            }
        }
        i += 1;
    }
    proof {
        assert(all.take(i as int) =~= all);
        assert(graph@ =~= definitions);
    }
    graph
}

/// Decodes a schema from its Borsh encoding.
///
/// The result is the graph of the definitions that the bytes encode, and
/// none where they do not encode a schema.
pub fn decode_schema(bytes: &[u8]) -> (r: Option<SchemaGraph>)
    ensures
        match r {
            Some(graph) => graph.wf() && decoded_definitions(bytes@) == Some(graph@),
            None => decoded_definitions(bytes@) is None,
        },
{
    match decode_container(bytes) {
        Some(container) => Some(graph_of_container(&container)),
        None => None,
    }
}

/// Generates Zorsh schema code from a Borsh-encoded schema.
///
/// Bytes that do not encode a schema are rejected. For a schema the result
/// is the text generated for its definitions, or the error that ends the
/// generation.
pub fn generate_zorsh_code(schema: &[u8]) -> (r: Result<String, SchemaError>)
    ensures
        match decoded_definitions(schema@) {
            None => r == Err::<String, SchemaError>(SchemaError::Undecodable),
            Some(definitions) => match r {
                Ok(code) => generated_text(definitions) == Ok::<Seq<char>, SchemaError>(code@),
                Err(e) => generated_text(definitions) == Err::<Seq<char>, SchemaError>(e),
            },
        },
{
    match decode_schema(schema) {
        None => Err(SchemaError::Undecodable),
        Some(graph) => {
            proof {
                lemma_canonical_names(graph);
            }
            let mut parser = Parser::new();
            parser.parse(&graph)
        },
    }
}

} // verus!
