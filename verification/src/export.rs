//! The generated file: an import line, then the schema and the type of each
//! record of the graph, in the order of the names.

use crate::resolve::{resolve_declared, schema_name, SchemaError, Step};
use crate::schema::{strictly_sorted, DefinitionView, SchemaGraph};
use vstd::prelude::*;

verus! {

/// The line that imports the schema library.
pub open spec fn preamble() -> Seq<char> {
    "import { b } from \"zorsh\";\n\n"@
}

/// The two bindings that a record exports: its schema, bound to the record's
/// schema name, and its type, inferred from that schema.
pub open spec fn export_code(name: Seq<char>, code: Seq<char>) -> Seq<char> {
    "export const "@ + schema_name(name) + " = "@ + code + ";\n\n"@ + "export type "@ + name
        + " = b.infer<typeof "@ + schema_name(name) + ">;\n\n"@
}

/// Those of `names` that the graph defines as records, in the same order.
pub open spec fn record_names(graph: Map<Seq<char>, DefinitionView>, names: Seq<Seq<char>>) -> Seq<
    Seq<char>,
>
    decreases names.len(),
{
    if names.len() == 0 {
        Seq::<Seq<char>>::empty()
    } else if graph[names.last()].is_record() {
        record_names(graph, names.drop_last()).push(names.last())
    } else {
        record_names(graph, names.drop_last())
    }
}

/// The exports of the given records, one after the other, each with the
/// code that is kept for it.
pub open spec fn exports(kept: Map<Seq<char>, Seq<char>>, records: Seq<Seq<char>>) -> Seq<char>
    decreases records.len(),
{
    if records.len() == 0 {
        Seq::<char>::empty()
    } else {
        exports(kept, records.drop_last()) + export_code(records.last(), kept[records.last()])
    }
}

/// Resolving the definitions declared as `names` in order: the records if
/// `records` holds, all the others if not. The first error ends the step.
pub open spec fn resolve_all(
    graph: Map<Seq<char>, DefinitionView>,
    kept: Map<Seq<char>, Seq<char>>,
    names: Seq<Seq<char>>,
    records: bool,
) -> Step<()>
    decreases names.len(),
{
    if names.len() == 0 {
        Step { kept, result: Ok(()) }
    } else {
        let before = resolve_all(graph, kept, names.drop_last(), records);
        if before.result is Err || graph[names.last()].is_record() != records {
            before
        } else {
            let last = resolve_declared(graph, before.kept, graph.dom(), names.last());
            Step {
                kept: last.kept,
                result: match last.result {
                    Ok(_) => Ok(()),
                    Err(e) => Err(e),
                },
            }
        }
    }
}

/// The run that generates the text for a graph whose names are walked in the
/// order `names`, with nothing kept at its start.
///
/// Every record is resolved, then every other definition; the first error
/// ends the run. Without an error the text is the import line and the
/// exports of the records.
pub open spec fn schema_run(graph: Map<Seq<char>, DefinitionView>, names: Seq<Seq<char>>) -> Step<
    Seq<char>,
> {
    let records = resolve_all(graph, Map::empty(), names, true);
    match records.result {
        Err(e) => Step { kept: records.kept, result: Err(e) },
        Ok(_) => {
            let others = resolve_all(graph, records.kept, names, false);
            match others.result {
                Err(e) => Step { kept: others.kept, result: Err(e) },
                Ok(_) => Step {
                    kept: others.kept,
                    result: Ok(preamble() + exports(others.kept, record_names(graph, names))),
                },
            }
        },
    }
}

/// The text generated for a graph whose names are walked in the order
/// `names`.
pub open spec fn schema_code(graph: Map<Seq<char>, DefinitionView>, names: Seq<Seq<char>>) -> Result<
    Seq<char>,
    SchemaError,
> {
    schema_run(graph, names).result
}

/// The names of the graph in the order in which it is walked: sorted.
pub open spec fn canonical_names(graph: Map<Seq<char>, DefinitionView>) -> Seq<Seq<char>> {
    choose|names: Seq<Seq<char>>|
        strictly_sorted(names) && forall|n: Seq<char>| names.contains(n) <==> graph.contains_key(n)
}

/// The text generated for a graph, which depends on its definitions alone.
pub open spec fn generated_text(graph: Map<Seq<char>, DefinitionView>) -> Result<
    Seq<char>,
    SchemaError,
> {
    schema_code(graph, canonical_names(graph))
}

/// A schema graph lists its names in the canonical order.
pub proof fn lemma_canonical_names(graph: SchemaGraph)
    requires
        graph.wf(),
    ensures
        graph.names() == canonical_names(graph@),
{
    graph.lemma_view();
    let canonical = canonical_names(graph@);
    assert(strictly_sorted(graph.names()) && forall|n: Seq<char>|
        graph.names().contains(n) <==> graph@.contains_key(n));
    crate::schema::lemma_sorted_unique(graph.names(), canonical);
}

/// An error among the first `k` names ends the step for them all.
pub proof fn lemma_all_failure(
    graph: Map<Seq<char>, DefinitionView>,
    kept: Map<Seq<char>, Seq<char>>,
    names: Seq<Seq<char>>,
    records: bool,
    k: int,
)
    requires
        0 <= k <= names.len(),
        resolve_all(graph, kept, names.take(k), records).result is Err,
    ensures
        resolve_all(graph, kept, names, records) == resolve_all(graph, kept, names.take(k), records),
    decreases names.len() - k,
{
    if k < names.len() {
        assert(names.take(k + 1).drop_last() =~= names.take(k));
        lemma_all_failure(graph, kept, names, records, k + 1);
    } else {
        assert(names.take(k) =~= names);
    }
}

/// Every record among `names` is exported, nothing else is, and no record is
/// exported twice.
pub proof fn lemma_record_names(graph: Map<Seq<char>, DefinitionView>, names: Seq<Seq<char>>)
    ensures
        forall|n: Seq<char>| #[trigger]
            record_names(graph, names).contains(n) <==> names.contains(n) && graph[n].is_record(),
        names.no_duplicates() ==> record_names(graph, names).no_duplicates(),
    decreases names.len(),
{
    if names.len() > 0 {
        let front = names.drop_last();
        let last = names.last();
        let before = record_names(graph, front);
        lemma_record_names(graph, front);
        assert forall|n: Seq<char>| #[trigger]
            record_names(graph, names).contains(n) <==> names.contains(n)
                && graph[n].is_record() by {
            if names.contains(n) {
                let i = names.index_of(n);
                if i < names.len() - 1 {
                    assert(front[i] == n);
                }
            }
            if front.contains(n) {
                let i = front.index_of(n);
                assert(names[i] == n);
            }
            if before.contains(n) {
                let i = before.index_of(n);
                assert(before.push(last)[i] == n);
            }
            if graph[last].is_record() {
                assert(before.push(last)[before.len() as int] == last);
                if before.push(last).contains(n) {
                    let i = before.push(last).index_of(n);
                    if i < before.len() {
                        assert(before[i] == n);
                    }
                }
            }
            assert(names[names.len() - 1] == last);
        }
        if names.no_duplicates() {
            assert forall|i: int, j: int| 0 <= i < j < front.len() implies front[i] != front[j] by {
                assert(names[i] != names[j]);
            }
            assert(front.no_duplicates());
            if graph[last].is_record() {
                if before.contains(last) {
                    let i = front.index_of(last);
                    assert(names[i] == names[names.len() - 1]);
                }
                assert forall|i: int, j: int|
                    0 <= i < before.push(last).len() && 0 <= j < before.push(last).len() && i
                        != j implies before.push(last)[i] != before.push(last)[j] by {
                    if i < before.len() {
                        assert(before.contains(before[i]));
                    }
                    if j < before.len() {
                        assert(before.contains(before[j]));
                    }
                }
            }
        }
    }
}

/// The exports of a schema graph are complete: every record of the graph is
/// exported, nothing else is, and no record is exported twice.
pub proof fn lemma_exports_complete(graph: SchemaGraph)
    requires
        graph.wf(),
    ensures
        record_names(graph@, graph.names()).no_duplicates(),
        forall|n: Seq<char>| #[trigger]
            record_names(graph@, graph.names()).contains(n) <==> graph@.contains_key(n)
                && graph@[n].is_record(),
{
    let names = graph.names();
    graph.lemma_view();
    assert forall|i: int, j: int| 0 <= i < names.len() && 0 <= j < names.len() && i
        != j implies names[i] != names[j] by {
        if names[i] == names[j] {
            crate::schema::lemma_sorted_distinct(names, i, j);
        }
    }
    lemma_record_names(graph@, names);
}

/// Two graphs that hold the same definitions list their names in the same
/// order, so the same text is generated for both.
pub proof fn lemma_same_graph_same_code(a: SchemaGraph, b: SchemaGraph)
    requires
        a.wf(),
        b.wf(),
        a@ == b@,
    ensures
        a.names() == b.names(),
        schema_code(a@, a.names()) == schema_code(b@, b.names()),
{
    a.lemma_view();
    b.lemma_view();
    crate::schema::lemma_sorted_unique(a.names(), b.names());
}

} // verus!
