//! The parser: it resolves each type name of a schema graph to Zorsh code,
//! keeps the code of every definition that it expands, and writes out the
//! schemas of the graph's records.

use crate::export::{
    export_code, exports, generated_text, lemma_all_failure, lemma_canonical_names, preamble,
    record_names, resolve_all, schema_run,
};
use crate::names::{
    lemma_total_size_member, parse_generic_type, parse_map_types, parse_tuple_types, total_size,
    tuple_parts,
};
use crate::resolve::{
    builtin_code, define, field_names, field_types, fields_code, kept_step, primitive_code,
    resolve_declared, resolve_each, resolve_named, resolve_payload, resolve_payloads,
    resolve_type, variant_names, variant_payloads, SchemaError, Step,
};
use crate::schema::{lemma_graph_at, Definition, DefinitionView, Fields, SchemaGraph};
use crate::text::{chars_of, find_first, same_text};
use crate::zorsh::{array_text, entries, hash_map_text, joined, listed, wrapped, Zorsh};
use vstd::prelude::*;

verus! {

/// How far the resolution of one definition has come.
#[derive(Debug, PartialEq, Eq)]
pub enum Resolution {
    /// Nothing has been done for it.
    NotStarted,
    /// Its code is being worked out.
    InProgress,
    /// Its code.
    Done(String),
}

/// The codes kept: each name whose state holds a code, with that code.
#[verifier::opaque]
pub open spec fn kept_in(keys: Seq<Seq<char>>, states: Seq<Resolution>) -> Map<
    Seq<char>,
    Seq<char>,
> {
    Map::new(
        |n: Seq<char>| keys.contains(n) && states[keys.index_of(n)] is Done,
        |n: Seq<char>| states[keys.index_of(n)]->0@,
    )
}

/// The names whose code is being worked out.
#[verifier::opaque]
pub open spec fn under_way_in(keys: Seq<Seq<char>>, states: Seq<Resolution>) -> Set<Seq<char>> {
    Set::new(|n: Seq<char>| keys.contains(n) && states[keys.index_of(n)] is InProgress)
}

proof fn lemma_key_at(keys: Seq<Seq<char>>, i: int)
    requires
        keys.no_duplicates(),
        0 <= i < keys.len(),
    ensures
        keys.contains(keys[i]),
        keys.index_of(keys[i]) == i,
{
    assert(keys.contains(keys[i]));
}

proof fn lemma_cache_at(keys: Seq<Seq<char>>, states: Seq<Resolution>, i: int)
    requires
        keys.no_duplicates(),
        states.len() == keys.len(),
        0 <= i < keys.len(),
    ensures
        kept_in(keys, states).contains_key(keys[i]) <==> states[i] is Done,
        states[i] is Done ==> kept_in(keys, states)[keys[i]] == states[i]->0@,
        under_way_in(keys, states).contains(keys[i]) <==> states[i] is InProgress,
{
    reveal(kept_in);
    reveal(under_way_in);
    lemma_key_at(keys, i);
}

proof fn lemma_cache_absent(keys: Seq<Seq<char>>, states: Seq<Resolution>, n: Seq<char>)
    requires
        !keys.contains(n),
    ensures
        !kept_in(keys, states).contains_key(n),
        !under_way_in(keys, states).contains(n),
{
    reveal(kept_in);
    reveal(under_way_in);
}

proof fn lemma_cache_push(keys: Seq<Seq<char>>, states: Seq<Resolution>, n: Seq<char>)
    requires
        keys.no_duplicates(),
        states.len() == keys.len(),
        !keys.contains(n),
    ensures
        keys.push(n).no_duplicates(),
        kept_in(keys.push(n), states.push(Resolution::InProgress)) == kept_in(keys, states),
        under_way_in(keys.push(n), states.push(Resolution::InProgress)) == under_way_in(
            keys,
            states,
        ).insert(n),
{
    reveal(kept_in);
    reveal(under_way_in);
    let keys2 = keys.push(n);
    let states2 = states.push(Resolution::InProgress);
    assert forall|i: int, j: int| 0 <= i < keys2.len() && 0 <= j < keys2.len() && i
        != j implies keys2[i] != keys2[j] by {
        if i < keys.len() {
            assert(keys.contains(keys[i]));
        }
        if j < keys.len() {
            assert(keys.contains(keys[j]));
        }
    }
    assert forall|m: Seq<char>| keys2.contains(m) <==> (keys.contains(m) || m == n) by {
        if keys.contains(m) {
            assert(keys2[keys.index_of(m)] == m);
        }
        assert(keys2[keys.len() as int] == n);
        if keys2.contains(m) {
            let k = keys2.index_of(m);
            if k < keys.len() {
                assert(keys[k] == m);
            }
        }
    }
    assert forall|m: Seq<char>| keys.contains(m) implies states2[keys2.index_of(m)]
        == states[keys.index_of(m)] by {
        let k = keys.index_of(m);
        assert(keys2[k] == m);
        lemma_key_at(keys2, k);
    }
    lemma_key_at(keys2, keys.len() as int);
    assert(kept_in(keys2, states2) =~= kept_in(keys, states));
    assert(under_way_in(keys2, states2) =~= under_way_in(keys, states).insert(n));
}

proof fn lemma_cache_done(keys: Seq<Seq<char>>, states: Seq<Resolution>, i: int, s: Resolution)
    requires
        keys.no_duplicates(),
        states.len() == keys.len(),
        0 <= i < keys.len(),
        s is Done,
    ensures
        kept_in(keys, states.update(i, s)) == kept_in(keys, states).insert(keys[i], s->0@),
        under_way_in(keys, states.update(i, s)) == under_way_in(keys, states).remove(keys[i]),
{
    reveal(kept_in);
    reveal(under_way_in);
    let after = states.update(i, s);
    lemma_key_at(keys, i);
    assert forall|m: Seq<char>| keys.contains(m) implies after[keys.index_of(m)] == (if m
        == keys[i] {
        s
    } else {
        states[keys.index_of(m)]
    }) by {
        let k = keys.index_of(m);
        if m != keys[i] {
            assert(k != i);
        }
    }
    assert(kept_in(keys, after) =~= kept_in(keys, states).insert(keys[i], s->0@));
    assert(under_way_in(keys, after) =~= under_way_in(keys, states).remove(keys[i]));
}

proof fn lemma_cache_started(keys: Seq<Seq<char>>, states: Seq<Resolution>, i: int)
    requires
        keys.no_duplicates(),
        states.len() == keys.len(),
        0 <= i < keys.len(),
        states[i] is NotStarted,
    ensures
        kept_in(keys, states.update(i, Resolution::InProgress)) == kept_in(keys, states),
        under_way_in(keys, states.update(i, Resolution::InProgress)) == under_way_in(
            keys,
            states,
        ).insert(keys[i]),
{
    reveal(kept_in);
    reveal(under_way_in);
    let after = states.update(i, Resolution::InProgress);
    lemma_key_at(keys, i);
    assert forall|m: Seq<char>| keys.contains(m) implies after[keys.index_of(m)] == (if m
        == keys[i] {
        Resolution::InProgress
    } else {
        states[keys.index_of(m)]
    }) by {
        let k = keys.index_of(m);
        if m != keys[i] {
            assert(k != i);
        }
    }
    assert(kept_in(keys, after) =~= kept_in(keys, states));
    assert(under_way_in(keys, after) =~= under_way_in(keys, states).insert(keys[i]));
}

/// The code of a result, as a text.
pub open spec fn code_view(r: Result<String, SchemaError>) -> Result<Seq<char>, SchemaError> {
    match r {
        Ok(code) => Ok(code@),
        Err(e) => Err(e),
    }
}

/// The codes of a result, as texts.
pub open spec fn codes_view(r: Result<Vec<String>, SchemaError>) -> Result<
    Seq<Seq<char>>,
    SchemaError,
> {
    match r {
        Ok(codes) => Ok(codes.deep_view()),
        Err(e) => Err(e),
    }
}

/// Converts the definitions of a schema graph to Zorsh schema code.
#[derive(Debug)]
pub struct Parser {
    generated_types: Vec<(String, Resolution)>,
    definitions: SchemaGraph,
}

impl Default for Parser {
    /// A parser for a graph without definitions.
    fn default() -> (r: Parser)
        ensures
            r.wf(),
            r.graph() == Map::<Seq<char>, DefinitionView>::empty(),
            r.names() == Seq::<Seq<char>>::empty(),
            r.kept() == Map::<Seq<char>, Seq<char>>::empty(),
            r.under_way() == Set::<Seq<char>>::empty(),
    {
        Parser::new()
    }
}

impl Zorsh for Parser {
    fn unit(&self) -> (r: String) {
        String::from_str("b.unit()")
    }

    fn bool(&self) -> (r: String) {
        String::from_str("b.bool()")
    }

    fn u8(&self) -> (r: String) {
        String::from_str("b.u8()")
    }

    fn u16(&self) -> (r: String) {
        String::from_str("b.u16()")
    }

    fn u32(&self) -> (r: String) {
        String::from_str("b.u32()")
    }

    fn u64(&self) -> (r: String) {
        String::from_str("b.u64()")
    }

    fn u128(&self) -> (r: String) {
        String::from_str("b.u128()")
    }

    fn i8(&self) -> (r: String) {
        String::from_str("b.i8()")
    }

    fn i16(&self) -> (r: String) {
        String::from_str("b.i16()")
    }

    fn i32(&self) -> (r: String) {
        String::from_str("b.i32()")
    }

    fn i64(&self) -> (r: String) {
        String::from_str("b.i64()")
    }

    fn i128(&self) -> (r: String) {
        String::from_str("b.i128()")
    }

    fn float32(&self) -> (r: String) {
        String::from_str("b.f32()")
    }

    fn float64(&self) -> (r: String) {
        String::from_str("b.f64()")
    }

    fn string(&self) -> (r: String) {
        String::from_str("b.string()")
    }

    fn array(&self, element: String, length: u64) -> (r: String) {
        array_text(element.as_str(), length)
    }

    fn vec(&self, element: String) -> (r: String) {
        wrapped("b.vec(", element.as_str(), ")")
    }

    fn struct_(&self, fields: String) -> (r: String) {
        wrapped("b.struct({", fields.as_str(), "\n})")
    }

    fn tuple(&self, fields: String) -> (r: String) {
        wrapped("b.tuple([", fields.as_str(), "])")
    }

    fn enum_(&self, variants: String) -> (r: String) {
        wrapped("b.enum({", variants.as_str(), "\n})")
    }

    fn option(&self, element: String) -> (r: String) {
        wrapped("b.option(", element.as_str(), ")")
    }

    fn hash_set(&self, element: String) -> (r: String) {
        wrapped("b.hashSet(", element.as_str(), ")")
    }

    fn hash_map(&self, key: String, value: String) -> (r: String) {
        hash_map_text(key.as_str(), value.as_str())
    }
}

/// The type names of the fields, in order.
fn types_of(fields: &Vec<(String, String)>) -> (r: Vec<String>)
    ensures
        r.deep_view() == field_types(fields.deep_view()),
{
    let mut r: Vec<String> = Vec::new();
    let mut i: usize = 0;
    while i < fields.len()
        invariant
            i <= fields.len(),
            r@.len() == i,
            forall|j: int| 0 <= j < i ==> r@[j]@ == fields@[j].1@,
        decreases fields.len() - i,
    {
        r.push(fields[i].1.clone());
        i += 1;
    }
    assert(r.deep_view() =~= field_types(fields.deep_view()));
    r
}

/// The names of the fields, in order.
fn labels_of(fields: &Vec<(String, String)>) -> (r: Vec<String>)
    ensures
        r.deep_view() == field_names(fields.deep_view()),
{
    let mut r: Vec<String> = Vec::new();
    let mut i: usize = 0;
    while i < fields.len()
        invariant
            i <= fields.len(),
            r@.len() == i,
            forall|j: int| 0 <= j < i ==> r@[j]@ == fields@[j].0@,
        decreases fields.len() - i,
    {
        r.push(fields[i].0.clone());
        i += 1;
    }
    assert(r.deep_view() =~= field_names(fields.deep_view()));
    r
}

/// The names of the variants, in order.
fn variant_labels(variants: &Vec<(i64, String, String)>) -> (r: Vec<String>)
    ensures
        r.deep_view() == variant_names(variants.deep_view()),
{
    let mut r: Vec<String> = Vec::new();
    let mut i: usize = 0;
    while i < variants.len()
        invariant
            i <= variants.len(),
            r@.len() == i,
            forall|j: int| 0 <= j < i ==> r@[j]@ == variants@[j].1@,
        decreases variants.len() - i,
    {
        r.push(variants[i].1.clone());
        i += 1;
    }
    assert(r.deep_view() =~= variant_names(variants.deep_view()));
    r
}

/// The payload type names of the variants, in order.
fn payloads_of(variants: &Vec<(i64, String, String)>) -> (r: Vec<String>)
    ensures
        r.deep_view() == variant_payloads(variants.deep_view()),
{
    let mut r: Vec<String> = Vec::new();
    let mut i: usize = 0;
    while i < variants.len()
        invariant
            i <= variants.len(),
            r@.len() == i,
            forall|j: int| 0 <= j < i ==> r@[j]@ == variants@[j].2@,
        decreases variants.len() - i,
    {
        r.push(variants[i].2.clone());
        i += 1;
    }
    assert(r.deep_view() =~= variant_payloads(variants.deep_view()));
    r
}

/// The pieces of a tuple's parameter text, each as a text of its own.
fn owned_parts(param: &str) -> (r: Vec<String>)
    ensures
        r.deep_view() == tuple_parts(param@),
{
    let parts = parse_tuple_types(param);
    let mut r: Vec<String> = Vec::new();
    let mut i: usize = 0;
    while i < parts.len()
        invariant
            i <= parts.len(),
            r@.len() == i,
            forall|j: int| 0 <= j < i ==> r@[j]@ == parts@[j]@,
        decreases parts.len() - i,
    {
        r.push(String::from_str(parts[i]));
        i += 1;
    }
    assert(r.deep_view() =~= tuple_parts(param@));
    r
}

/// The two bindings that a record exports.
fn export_block(name: &str, code: &str) -> (r: String)
    ensures
        r@ == export_code(name@, code@),
{
    let mut r = String::from_str("export const ");
    r.append(name);
    r.append("Schema");
    r.append(" = ");
    r.append(code);
    r.append(";\n\n");
    r.append("export type ");
    r.append(name);
    r.append(" = b.infer<typeof ");
    r.append(name);
    r.append("Schema");
    r.append(">;\n\n");
    assert(r@ =~= export_code(name@, code@));
    r
}

impl Parser {
    /// The graph whose names this parser resolves.
    pub closed spec fn graph(&self) -> Map<Seq<char>, DefinitionView> {
        self.definitions@
    }

    /// The names of the graph, in the order in which it is walked.
    pub closed spec fn names(&self) -> Seq<Seq<char>> {
        self.definitions.names()
    }

    spec fn keys(&self) -> Seq<Seq<char>> {
        Seq::new(self.generated_types@.len(), |i: int| self.generated_types@[i].0@)
    }

    spec fn states(&self) -> Seq<Resolution> {
        Seq::new(self.generated_types@.len(), |i: int| self.generated_types@[i].1)
    }

    /// The codes that are kept, each under the name that it was worked out
    /// for.
    pub closed spec fn kept(&self) -> Map<Seq<char>, Seq<char>> {
        kept_in(self.keys(), self.states())
    }

    /// The names whose code is kept.
    pub open spec fn resolved(&self) -> Set<Seq<char>> {
        self.kept().dom()
    }

    /// The code that is kept under `name`, which is resolved.
    pub open spec fn generated(&self, name: Seq<char>) -> Seq<char> {
        self.kept()[name]
    }

    /// The names whose code is being worked out.
    pub closed spec fn under_way(&self) -> Set<Seq<char>> {
        under_way_in(self.keys(), self.states())
    }

    /// The declared names that may be expanded: those of the graph that are
    /// not under way.
    pub open spec fn available(&self) -> Set<Seq<char>> {
        self.graph().dom().difference(self.under_way())
    }

    /// The graph is well formed and no name has two states.
    #[verifier::opaque]
    pub closed spec fn wf(&self) -> bool {
        &&& self.definitions.wf()
        &&& self.keys().no_duplicates()
    }

    /// This parser has come from `before`, at the end of a step or in the
    /// middle of one: on the same graph, with every kept code still kept and
    /// every name under way still so.
    pub open spec fn follows(&self, before: &Parser) -> bool {
        &&& self.wf()
        &&& self.graph() == before.graph()
        &&& self.names() == before.names()
        &&& self.keeps(before)
    }

    /// Every code that `before` kept is still kept, and every name that was
    /// under way in `before` is still so.
    #[verifier::opaque]
    pub open spec fn keeps(&self, before: &Parser) -> bool {
        &&& before.under_way().subset_of(self.under_way())
        &&& forall|n: Seq<char>| #[trigger]
            before.kept().contains_key(n) ==> self.kept().contains_key(n) && self.kept()[n]
                == before.kept()[n]
    }

    pub proof fn lemma_keeps_itself(&self)
        ensures
            self.keeps(self),
    {
        reveal(Parser::keeps);
    }

    pub proof fn lemma_keeps_on(&self, middle: Parser, before: Parser)
        requires
            self.keeps(&middle),
            middle.keeps(&before),
        ensures
            self.keeps(&before),
    {
        reveal(Parser::keeps);
    }

    /// A code that `before` kept is kept unchanged.
    pub proof fn lemma_kept_on(&self, before: Parser, name: Seq<char>)
        requires
            self.keeps(&before),
            before.resolved().contains(name),
        ensures
            self.resolved().contains(name),
            self.generated(name) == before.generated(name),
    {
        reveal(Parser::keeps);
    }

    /// This parser has come from `before` by a step that ended well: it
    /// follows `before`, and the same names are under way.
    pub open spec fn extends(&self, before: &Parser) -> bool {
        &&& self.follows(before)
        &&& self.under_way() == before.under_way()
    }

    /// This parser and the result `r` are where the step `step` ends.
    pub open spec fn reached(&self, r: Result<String, SchemaError>, step: Step<Seq<char>>) -> bool {
        &&& self.kept() == step.kept
        &&& code_view(r) == step.result
    }

    /// This parser and the result `r` are where the step `step` ends.
    pub open spec fn reached_all(
        &self,
        r: Result<Vec<String>, SchemaError>,
        step: Step<Seq<Seq<char>>>,
    ) -> bool {
        &&& self.kept() == step.kept
        &&& codes_view(r) == step.result
    }

    /// The names that may be expanded are finitely many.
    pub proof fn lemma_names(&self)
        requires
            self.wf(),
        ensures
            self.available().finite(),
            self.graph().dom().finite(),
    {
        reveal(Parser::wf);
        self.definitions.lemma_view();
        vstd::set_lib::lemma_len_subset(self.available(), self.graph().dom());
    }

    /// The graph of a well-formed parser is well formed, and no name has two
    /// states.
    proof fn lemma_graph(&self)
        requires
            self.wf(),
        ensures
            self.definitions.wf(),
            self.keys().no_duplicates(),
            self.states().len() == self.keys().len(),
    {
        reveal(Parser::wf);
    }

    /// Creates a new parser, for a graph without definitions.
    pub fn new() -> (r: Parser)
        ensures
            r.wf(),
            r.graph() == Map::<Seq<char>, DefinitionView>::empty(),
            r.names() == Seq::<Seq<char>>::empty(),
            r.kept() == Map::<Seq<char>, Seq<char>>::empty(),
            r.under_way() == Set::<Seq<char>>::empty(),
    {
        let r = Parser { generated_types: Vec::new(), definitions: SchemaGraph::new() };
        proof {
            reveal(Parser::wf);
            reveal(kept_in);
            reveal(under_way_in);
            assert(r.kept() =~= Map::<Seq<char>, Seq<char>>::empty());
            assert(r.under_way() =~= Set::<Seq<char>>::empty());
        }
        r
    }

    /// The constructor for a primitive of `size` bytes that is declared as
    /// `name`.
    fn primitive(&self, name: &str, size: u8) -> (r: Result<String, SchemaError>)
        ensures
            match r {
                Ok(code) => primitive_code(name@, size) == Ok::<Seq<char>, SchemaError>(code@),
                Err(e) => primitive_code(name@, size) == Err::<Seq<char>, SchemaError>(e),
            },
    {
        if size == 0 {
            Ok(self.unit())
        } else if size == 1 {
            if same_text(name, "bool") {
                Ok(self.bool())
            } else {
                Ok(self.u8())
            }
        } else if size == 2 {
            Ok(self.u16())
        } else if size == 4 {
            Ok(self.u32())
        } else if size == 8 {
            Ok(self.u64())
        } else if size == 16 {
            Ok(self.u128())
        } else {
            Err(SchemaError::UnsupportedPrimitiveSize(size))
        }
    }

    /// The constructor that a well-known type name selects by itself.
    fn builtin(&self, name: &str) -> (r: Option<String>)
        ensures
            match r {
                Some(code) => builtin_code(name@) == Some(code@),
                None => builtin_code(name@) is None,
            },
    {
        if same_text(name, "String") {
            Some(self.string())
        } else if same_text(name, "bool") {
            Some(self.bool())
        } else if same_text(name, "u8") {
            Some(self.u8())
        } else if same_text(name, "u16") {
            Some(self.u16())
        } else if same_text(name, "u32") {
            Some(self.u32())
        } else if same_text(name, "u64") {
            Some(self.u64())
        } else if same_text(name, "u128") {
            Some(self.u128())
        } else if same_text(name, "i8") {
            Some(self.i8())
        } else if same_text(name, "i16") {
            Some(self.i16())
        } else if same_text(name, "i32") {
            Some(self.i32())
        } else if same_text(name, "i64") {
            Some(self.i64())
        } else if same_text(name, "i128") {
            Some(self.i128())
        } else if same_text(name, "f32") {
            Some(self.float32())
        } else if same_text(name, "f64") {
            Some(self.float64())
        } else {
            None
        }
    }

    /// The place of the state of `name`, if it has one.
    fn find(&self, name: &str) -> (r: Option<usize>)
        ensures
            match r {
                Some(i) => i < self.keys().len() && self.keys()[i as int] == name@,
                None => !self.keys().contains(name@),
            },
    {
        let key = String::from_str(name);
        let mut i: usize = 0;
        while i < self.generated_types.len()
            invariant
                i <= self.generated_types.len(),
                key@ == name@,
                forall|j: int| 0 <= j < i ==> self.keys()[j] != name@,
            decreases self.generated_types.len() - i,
        {
            if self.generated_types[i].0 == key {
                return Some(i);
            }
            i += 1;
        }
        None
    }

    /// How far the resolution of `name` has come.
    pub fn state(&self, name: &str) -> (r: Resolution)
        requires
            self.wf(),
        ensures
            match r {
                Resolution::Done(code) => self.resolved().contains(name@) && code@
                    == self.generated(name@),
                Resolution::InProgress => self.under_way().contains(name@)
                    && !self.resolved().contains(name@),
                Resolution::NotStarted => !self.resolved().contains(name@)
                    && !self.under_way().contains(name@),
            },
    {
        proof {
            self.lemma_graph();
        }
        match self.find(name) {
            Some(i) => {
                proof {
                    lemma_cache_at(self.keys(), self.states(), i as int);
                }
                match &self.generated_types[i].1 {
                    Resolution::Done(code) => Resolution::Done(code.clone()),
                    Resolution::InProgress => Resolution::InProgress,
                    Resolution::NotStarted => Resolution::NotStarted,
                }
            },
            None => {
                proof {
                    lemma_cache_absent(self.keys(), self.states(), name@);
                }
                Resolution::NotStarted
            },
        }
    }

    /// The code that is kept under `name`, if it is resolved.
    pub fn generated_type(&self, name: &str) -> (r: Option<String>)
        requires
            self.wf(),
        ensures
            match r {
                Some(code) => self.resolved().contains(name@) && code@ == self.generated(name@),
                None => !self.resolved().contains(name@),
            },
    {
        match self.state(name) {
            Resolution::Done(code) => Some(code),
            _ => None,
        }
    }

    /// Resolves a type name to its Zorsh code.
    ///
    /// The code, and the codes kept afterwards, are what [`resolve_type`]
    /// gives for the name, with the codes kept before and with the names to
    /// expand that are not under way. After an error the names that were
    /// under way when it was met stay so.
    pub fn parse_type(&mut self, name: &str) -> (r: Result<String, SchemaError>)
        requires
            old(self).wf(),
        ensures
            final(self).follows(old(self)),
            r is Ok ==> final(self).under_way() == old(self).under_way(),
            final(self).reached(
                r,
                resolve_type(old(self).graph(), old(self).kept(), old(self).available(), name@),
            ),
        decreases old(self).available().len(), 0nat, name@.len(), 2nat,
    {
        let ghost graph = self.graph();
        let ghost kept = self.kept();
        let ghost avail = self.available();
        proof {
            self.lemma_names();
            self.lemma_keeps_itself();
        }
        let chars = chars_of(name);
        if same_text(name, "()") {
            return Ok(self.unit());
        }
        if chars.len() > 0 && chars[0] == '(' {
            if chars[chars.len() - 1] != ')' {
                return Err(SchemaError::MissingDelimiter);
            }
            let inner = name.substring_char(1, chars.len() - 1);
            let parts = owned_parts(inner);
            proof {
                crate::names::lemma_tuple_parts_size(inner@);
            }
            match self.parse_each(&parts) {
                Ok(codes) => {
                    let items = joined(&codes);
                    return Ok(self.tuple(items));
                },
                Err(e) => {
                    return Err(e);
                },
            }
        }
        let open = find_first(&chars, '<');
        proof {
            chars@.index_of_first_ensures('<');
        }
        if open.is_some() {
            match parse_generic_type(name) {
                None => {
                    return Err(SchemaError::MissingDelimiter);
                },
                Some((base, param)) => {
                    if same_text(base, "Vec") {
                        match self.parse_type(param) {
                            Ok(code) => {
                                return Ok(self.vec(code));
                            },
                            Err(e) => {
                                return Err(e);
                            },
                        }
                    } else if same_text(base, "Option") {
                        match self.parse_type(param) {
                            Ok(code) => {
                                return Ok(self.option(code));
                            },
                            Err(e) => {
                                return Err(e);
                            },
                        }
                    } else if same_text(base, "HashSet") {
                        match self.parse_type(param) {
                            Ok(code) => {
                                return Ok(self.hash_set(code));
                            },
                            Err(e) => {
                                return Err(e);
                            },
                        }
                    } else if same_text(base, "HashMap") {
                        match parse_map_types(param) {
                            None => {
                                return Err(SchemaError::MissingDelimiter);
                            },
                            Some((key, value)) => {
                                proof {
                                    crate::names::lemma_map_parts_len(param@);
                                }
                                match self.parse_type(key) {
                                    Err(e) => {
                                        return Err(e);
                                    },
                                    Ok(key_code) => {
                                        let ghost middle = *self;
                                        proof {
                                            self.lemma_names();
                                        }
                                        let second = self.parse_type(value);
                                        proof {
                                            self.lemma_keeps_on(middle, *old(self));
                                        }
                                        match second {
                                            Err(e) => {
                                                return Err(e);
                                            },
                                            Ok(value_code) => {
                                                return Ok(self.hash_map(key_code, value_code));
                                            },
                                        }
                                    },
                                }
                            },
                        }
                    }
                },
            }
        }
        assert(resolve_type(graph, kept, avail, name@) == resolve_named(graph, kept, avail, name@));
        match self.builtin(name) {
            Some(code) => {
                return Ok(code);
            },
            None => {},
        }
        proof {
            self.lemma_graph();
            self.definitions.lemma_view();
        }
        match self.definitions.position(name) {
            None => {
                return Ok(wrapped("/* TODO: Resolve ", name, " */"));
            },
            Some(i) => {
                proof {
                    lemma_graph_at(
                        self.definitions.names(),
                        self.definitions.definitions(),
                        i as int,
                    );
                }
                if self.definitions.definition(i).is_record() {
                    let mut reference = String::from_str(name);
                    reference.append("Schema");
                    return Ok(reference);
                }
                let definition = self.definitions.definition(i).duplicate();
                assert(resolve_named(graph, kept, avail, name@) == resolve_declared(
                    graph,
                    kept,
                    avail,
                    name@,
                ));
                match self.parse_definition(name, &definition) {
                    Err(e) => {
                        return Err(e);
                    },
                    Ok(()) => {
                        match self.generated_type(name) {
                            Some(code) => {
                                return Ok(code);
                            },
                            None => {
                                return vstd::pervasive::unreached();
                            },
                        }
                    },
                }
            },
        }
    }

    /// Parses a single definition: works out the code of `definition` and
    /// keeps it under `declaration`.
    ///
    /// Where a code is kept under the declaration already, nothing is done,
    /// whatever the definition. Where the code of the declaration is being
    /// worked out, the definition contains itself: that is an error. Else the
    /// code is what [`define`] gives for the definition, with the declaration
    /// itself not to be expanded.
    pub fn parse_definition(&mut self, declaration: &str, definition: &Definition) -> (r: Result<
        (),
        SchemaError,
    >)
        requires
            old(self).wf(),
        ensures
            final(self).follows(old(self)),
            r is Ok ==> final(self).under_way() == old(self).under_way(),
            r is Ok ==> final(self).resolved().contains(declaration@),
            old(self).resolved().contains(declaration@) ==> r is Ok && final(self).kept() == old(
                self,
            ).kept(),
            !old(self).resolved().contains(declaration@) && old(self).under_way().contains(
                declaration@,
            ) ==> r == Err::<(), SchemaError>(SchemaError::CyclicDefinition) && final(self).kept()
                == old(self).kept() && final(self).under_way() == old(self).under_way(),
            !old(self).resolved().contains(declaration@) && !old(self).under_way().contains(
                declaration@,
            ) ==> ({
                let step = kept_step(
                    declaration@,
                    define(
                        old(self).graph(),
                        old(self).kept(),
                        old(self).available().remove(declaration@),
                        declaration@,
                        definition@,
                    ),
                );
                &&& final(self).kept() == step.kept
                &&& match r {
                    Ok(()) => step.result is Ok,
                    Err(e) => step.result == Err::<Seq<char>, SchemaError>(e),
                }
            }),
        decreases
                old(self).available().len() + (if old(self).graph().contains_key(declaration@) {
                    0nat
                } else {
                    1nat
                }),
                0nat,
                declaration@.len(),
                0nat,
    {
        let ghost key = declaration@;
        let ghost before = *self;
        proof {
            self.lemma_names();
            self.lemma_graph();
            self.lemma_keeps_itself();
        }
        match self.find(declaration) {
            Some(i) => {
                proof {
                    lemma_cache_at(self.keys(), self.states(), i as int);
                }
                match &self.generated_types[i].1 {
                    Resolution::Done(_) => {
                        return Ok(());
                    },
                    Resolution::InProgress => {
                        return Err(SchemaError::CyclicDefinition);
                    },
                    Resolution::NotStarted => {
                        self.generated_types.set(
                            i,
                            (String::from_str(declaration), Resolution::InProgress),
                        );
                        proof {
                            assert(self.keys() =~= before.keys());
                            assert(self.states() =~= before.states().update(
                                i as int,
                                Resolution::InProgress,
                            ));
                            lemma_cache_started(before.keys(), before.states(), i as int);
                        }
                    },
                }
            },
            None => {
                proof {
                    lemma_cache_absent(self.keys(), self.states(), key);
                    lemma_cache_push(self.keys(), self.states(), key);
                }
                self.generated_types.push((String::from_str(declaration), Resolution::InProgress));
                proof {
                    assert(self.keys() =~= before.keys().push(key));
                    assert(self.states() =~= before.states().push(Resolution::InProgress));
                }
            },
        }
        proof {
            reveal(Parser::wf);
            assert(self.wf());
            assert(self.kept() == before.kept());
            assert(self.under_way() == before.under_way().insert(key));
            assert(self.available() =~= before.available().remove(key));
            assert(self.keeps(&before)) by {
                reveal(Parser::keeps);
            }
            self.lemma_names();
        }
        let ghost started = *self;
        let generated = self.generate(declaration, definition);
        proof {
            self.lemma_keeps_on(started, before);
        }
        match generated {
            Err(e) => {
                return Err(e);
            },
            Ok(code) => {
                let ghost middle = *self;
                proof {
                    self.lemma_graph();
                }
                let j = match self.find(declaration) {
                    Some(j) => j,
                    None => {
                        proof {
                            lemma_cache_absent(self.keys(), self.states(), key);
                        }
                        vstd::pervasive::unreached()
                    },
                };
                let ghost text = code@;
                self.generated_types.set(j, (String::from_str(declaration), Resolution::Done(code)));
                proof {
                    assert(self.keys() =~= middle.keys());
                    assert(self.states() =~= middle.states().update(
                        j as int,
                        self.generated_types@[j as int].1,
                    ));
                    lemma_cache_at(middle.keys(), middle.states(), j as int);
                    lemma_cache_done(
                        middle.keys(),
                        middle.states(),
                        j as int,
                        self.generated_types@[j as int].1,
                    );
                    assert(self.wf());
                    assert(self.kept() == middle.kept().insert(key, text));
                    assert(self.under_way() =~= before.under_way());
                    assert(!before.kept().contains_key(key));
                    assert(self.keeps(&before)) by {
                        reveal(Parser::keeps);
                    }
                }
                Ok(())
            },
        }
    }

    /// The code of `definition`, which is declared as `declaration`.
    fn generate(&mut self, declaration: &str, definition: &Definition) -> (r: Result<
        String,
        SchemaError,
    >)
        requires
            old(self).wf(),
        ensures
            final(self).follows(old(self)),
            r is Ok ==> final(self).under_way() == old(self).under_way(),
            final(self).reached(
                r,
                define(
                    old(self).graph(),
                    old(self).kept(),
                    old(self).available(),
                    declaration@,
                    definition@,
                ),
            ),
        decreases old(self).available().len(), 4nat, 0nat, 0nat,
    {
        proof {
            self.lemma_names();
            self.lemma_keeps_itself();
        }
        match definition {
            Definition::Primitive(size) => self.primitive(declaration, *size),
            Definition::Sequence { length_width, length_bound, elements } => {
                match self.parse_type(elements.as_str()) {
                    Ok(code) => {
                        if *length_width == 0 {
                            Ok(self.array(code, *length_bound))
                        } else {
                            Ok(self.vec(code))
                        }
                    },
                    Err(e) => Err(e),
                }
            },
            Definition::Tuple { elements } => {
                match self.parse_each(elements) {
                    Ok(codes) => {
                        let items = joined(&codes);
                        Ok(self.tuple(items))
                    },
                    Err(e) => Err(e),
                }
            },
            Definition::Enum { variants } => {
                let payloads = payloads_of(variants);
                match self.parse_payloads(&payloads) {
                    Ok(codes) => {
                        let labels = variant_labels(variants);
                        assert(labels.deep_view().len() == labels@.len());
                        assert(payloads.deep_view().len() == payloads@.len());
                        let body = entries(false, &labels, &codes);
                        Ok(self.enum_(body))
                    },
                    Err(e) => Err(e),
                }
            },
            Definition::Struct { fields } => self.parse_fields(fields, false),
        }
    }

    /// The code of a struct with the given fields.
    fn parse_fields(&mut self, fields: &Fields, nested: bool) -> (r: Result<String, SchemaError>)
        requires
            old(self).wf(),
        ensures
            final(self).follows(old(self)),
            r is Ok ==> final(self).under_way() == old(self).under_way(),
            final(self).reached(
                r,
                fields_code(
                    old(self).graph(),
                    old(self).kept(),
                    old(self).available(),
                    fields@,
                    nested,
                ),
            ),
        decreases old(self).available().len(), 1nat, 0nat, 0nat,
    {
        proof {
            self.lemma_names();
            self.lemma_keeps_itself();
        }
        match fields {
            Fields::NamedFields(named) => {
                let types = types_of(named);
                match self.parse_each(&types) {
                    Ok(codes) => {
                        let labels = labels_of(named);
                        assert(labels.deep_view().len() == labels@.len());
                        assert(types.deep_view().len() == types@.len());
                        let body = entries(nested, &labels, &codes);
                        Ok(self.struct_(body))
                    },
                    Err(e) => Err(e),
                }
            },
            Fields::UnnamedFields(types) => {
                match self.parse_each(types) {
                    Ok(codes) => {
                        let body = listed(&codes);
                        Ok(self.tuple(body))
                    },
                    Err(e) => Err(e),
                }
            },
            Fields::Empty => Ok(self.unit()),
        }
    }

    /// The code of an enum variant's payload.
    fn parse_payload(&mut self, payload: &str) -> (r: Result<String, SchemaError>)
        requires
            old(self).wf(),
        ensures
            final(self).follows(old(self)),
            r is Ok ==> final(self).under_way() == old(self).under_way(),
            final(self).reached(
                r,
                resolve_payload(
                    old(self).graph(),
                    old(self).kept(),
                    old(self).available(),
                    payload@,
                ),
            ),
        decreases old(self).available().len(), 2nat, 0nat, 0nat,
    {
        proof {
            self.lemma_names();
            self.lemma_graph();
            self.lemma_keeps_itself();
            self.definitions.lemma_view();
        }
        if same_text(payload, "()") {
            return Ok(self.unit());
        }
        match self.definitions.position(payload) {
            Some(i) => {
                proof {
                    lemma_graph_at(
                        self.definitions.names(),
                        self.definitions.definitions(),
                        i as int,
                    );
                }
                match self.definitions.definition(i) {
                    Definition::Struct { fields } => {
                        let inline = fields.duplicate();
                        self.parse_fields(&inline, true)
                    },
                    _ => self.parse_type(payload),
                }
            },
            None => self.parse_type(payload),
        }
    }

    /// The codes of the payloads in order.
    fn parse_payloads(&mut self, payloads: &Vec<String>) -> (r: Result<Vec<String>, SchemaError>)
        requires
            old(self).wf(),
        ensures
            final(self).follows(old(self)),
            r is Ok ==> final(self).under_way() == old(self).under_way(),
            r matches Ok(codes) ==> codes@.len() == payloads@.len(),
            final(self).reached_all(
                r,
                resolve_payloads(
                    old(self).graph(),
                    old(self).kept(),
                    old(self).available(),
                    payloads.deep_view(),
                ),
            ),
        decreases old(self).available().len(), 3nat, payloads@.len(), 0nat,
    {
        let ghost all = payloads.deep_view();
        let ghost graph = self.graph();
        let ghost kept = self.kept();
        let ghost avail = self.available();
        let mut codes: Vec<String> = Vec::new();
        let mut i: usize = 0;
        proof {
            self.lemma_names();
            self.lemma_keeps_itself();
            assert(all.take(0) =~= Seq::<Seq<char>>::empty());
            assert(codes.deep_view() =~= Seq::<Seq<char>>::empty());
        }
        while i < payloads.len()
            invariant
                i <= payloads.len(),
                all == payloads.deep_view(),
                self.extends(old(self)),
                graph == old(self).graph(),
                kept == old(self).kept(),
                avail == old(self).available(),
                avail.finite(),
                codes@.len() == i,
                resolve_payloads(graph, kept, avail, all.take(i as int)) == (Step {
                    kept: self.kept(),
                    result: Ok::<Seq<Seq<char>>, SchemaError>(codes.deep_view()),
                }),
            decreases payloads.len() - i,
        {
            let ghost earlier = codes.deep_view();
            let ghost before = *self;
            proof {
                assert(all.take(i + 1).drop_last() =~= all.take(i as int));
                assert(all.take(i + 1).last() == payloads@[i as int]@);
            }
            let next = self.parse_payload(payloads[i].as_str());
            proof {
                self.lemma_keeps_on(before, *old(self));
            }
            match next {
                Err(e) => {
                    proof {
                        crate::resolve::lemma_payloads_failure(graph, kept, avail, all, i + 1);
                    }
                    return Err(e);
                },
                Ok(code) => {
                    codes.push(code);
                    proof {
                        assert(codes.deep_view() =~= earlier.push(code@));
                    }
                },
            }
            i += 1;
        }
        proof {
            assert(all.take(i as int) =~= all);
        }
        Ok(codes)
    }

    /// The codes of the type names in order.
    fn parse_each(&mut self, names: &Vec<String>) -> (r: Result<Vec<String>, SchemaError>)
        requires
            old(self).wf(),
        ensures
            final(self).follows(old(self)),
            r is Ok ==> final(self).under_way() == old(self).under_way(),
            r matches Ok(codes) ==> codes@.len() == names@.len(),
            final(self).reached_all(
                r,
                resolve_each(
                    old(self).graph(),
                    old(self).kept(),
                    old(self).available(),
                    names.deep_view(),
                ),
            ),
        decreases old(self).available().len(), 0nat, total_size(names.deep_view()), 0nat,
    {
        let ghost all = names.deep_view();
        let ghost graph = self.graph();
        let ghost kept = self.kept();
        let ghost avail = self.available();
        let mut codes: Vec<String> = Vec::new();
        let mut i: usize = 0;
        proof {
            self.lemma_names();
            self.lemma_keeps_itself();
            assert(all.take(0) =~= Seq::<Seq<char>>::empty());
            assert(codes.deep_view() =~= Seq::<Seq<char>>::empty());
        }
        while i < names.len()
            invariant
                i <= names.len(),
                all == names.deep_view(),
                self.extends(old(self)),
                graph == old(self).graph(),
                kept == old(self).kept(),
                avail == old(self).available(),
                avail.finite(),
                codes@.len() == i,
                resolve_each(graph, kept, avail, all.take(i as int)) == (Step {
                    kept: self.kept(),
                    result: Ok::<Seq<Seq<char>>, SchemaError>(codes.deep_view()),
                }),
            decreases names.len() - i,
        {
            let ghost earlier = codes.deep_view();
            let ghost before = *self;
            proof {
                lemma_total_size_member(all, i as int);
                assert(all.take(i + 1).drop_last() =~= all.take(i as int));
                assert(all.take(i + 1).last() == names@[i as int]@);
            }
            let next = self.parse_type(names[i].as_str());
            proof {
                self.lemma_keeps_on(before, *old(self));
            }
            match next {
                Err(e) => {
                    proof {
                        crate::resolve::lemma_each_failure(graph, kept, avail, all, i + 1);
                    }
                    return Err(e);
                },
                Ok(code) => {
                    codes.push(code);
                    proof {
                        assert(codes.deep_view() =~= earlier.push(code@));
                    }
                },
            }
            i += 1;
        }
        proof {
            assert(all.take(i as int) =~= all);
        }
        Ok(codes)
    }

    /// Takes up `container`: a copy of it becomes this parser's graph, and
    /// nothing is kept or under way.
    fn load(&mut self, container: &SchemaGraph)
        requires
            container.wf(),
        ensures
            final(self).wf(),
            final(self).graph() == container@,
            final(self).names() == container.names(),
            final(self).kept() == Map::<Seq<char>, Seq<char>>::empty(),
            final(self).under_way() == Set::<Seq<char>>::empty(),
    {
        self.definitions = container.duplicate();
        self.generated_types = Vec::new();
        proof {
            reveal(Parser::wf);
            reveal(kept_in);
            reveal(under_way_in);
            assert(self.kept() =~= Map::<Seq<char>, Seq<char>>::empty());
            assert(self.under_way() =~= Set::<Seq<char>>::empty());
        }
    }

    /// Resolves the definitions of the graph in order: the records if
    /// `records` holds, all the others if not.
    fn parse_all(&mut self, records: bool) -> (r: Result<(), SchemaError>)
        requires
            old(self).wf(),
            old(self).under_way() == Set::<Seq<char>>::empty(),
        ensures
            final(self).follows(old(self)),
            r is Ok ==> final(self).under_way() == old(self).under_way(),
            ({
                let step = resolve_all(
                    old(self).graph(),
                    old(self).kept(),
                    old(self).names(),
                    records,
                );
                final(self).kept() == step.kept && r == step.result
            }),
            r is Ok ==> forall|j: int|
                0 <= j < old(self).names().len() && old(self).graph()[old(
                    self,
                ).names()[j]].is_record() == records ==> final(self).resolved().contains(
                    #[trigger] old(self).names()[j],
                ),
    {
        let ghost graph = self.graph();
        let ghost kept = self.kept();
        let ghost names = self.names();
        let n: usize = self.definitions.len();
        let mut i: usize = 0;
        proof {
            self.lemma_keeps_itself();
            assert(names.take(0) =~= Seq::<Seq<char>>::empty());
        }
        while i < n
            invariant
                i <= n,
                n == names.len(),
                self.extends(old(self)),
                graph == old(self).graph(),
                kept == old(self).kept(),
                names == old(self).names(),
                old(self).under_way() == Set::<Seq<char>>::empty(),
                resolve_all(graph, kept, names.take(i as int), records) == (Step {
                    kept: self.kept(),
                    result: Ok::<(), SchemaError>(()),
                }),
                forall|j: int|
                    0 <= j < i && graph[names[j]].is_record() == records
                        ==> self.resolved().contains(#[trigger] names[j]),
            decreases n - i,
        {
            let ghost before = *self;
            proof {
                self.lemma_names();
                self.lemma_graph();
                self.definitions.lemma_view();
                lemma_graph_at(names, self.definitions.definitions(), i as int);
                assert(names.take(i + 1).drop_last() =~= names.take(i as int));
                assert(names.take(i + 1).last() == names[i as int]);
                assert(self.available() =~= graph.dom());
            }
            if self.definitions.definition(i).is_record() == records {
                let declaration = self.definitions.declaration(i).clone();
                let definition = self.definitions.definition(i).duplicate();
                assert(resolve_declared(graph, before.kept(), graph.dom(), names[i as int])
                    == resolve_declared(graph, before.kept(), graph.dom(), declaration@));
                let next = self.parse_definition(declaration.as_str(), &definition);
                proof {
                    self.lemma_keeps_on(before, *old(self));
                    assert forall|j: int|
                        0 <= j < i && graph[names[j]].is_record() == records implies self.resolved().contains(
                    #[trigger] names[j]) by {
                        self.lemma_kept_on(before, names[j]);
                    }
                }
                match next {
                    Err(e) => {
                        proof {
                            lemma_all_failure(graph, kept, names, records, i + 1);
                        }
                        return Err(e);
                    },
                    Ok(()) => {},
                }
            }
            i += 1;
        }
        proof {
            assert(names.take(n as int) =~= names);
        }
        Ok(())
    }

    /// The import line and the exports of the records of the graph, each
    /// with the code that is kept for it.
    fn export_records(&self) -> (r: String)
        requires
            self.wf(),
            forall|j: int|
                0 <= j < self.names().len() && self.graph()[self.names()[j]].is_record()
                    ==> self.resolved().contains(#[trigger] self.names()[j]),
        ensures
            r@ == preamble() + exports(self.kept(), record_names(self.graph(), self.names())),
    {
        let ghost graph = self.graph();
        let ghost kept = self.kept();
        let ghost names = self.names();
        let n: usize = self.definitions.len();
        let mut output = String::from_str("import { b } from \"zorsh\";\n\n");
        let mut i: usize = 0;
        proof {
            assert(names.take(0) =~= Seq::<Seq<char>>::empty());
            assert(output@ =~= preamble() + exports(kept, record_names(graph, names.take(0))));
        }
        while i < n
            invariant
                i <= n,
                n == names.len(),
                self.wf(),
                graph == self.graph(),
                kept == self.kept(),
                names == self.names(),
                forall|j: int|
                    0 <= j < names.len() && graph[names[j]].is_record()
                        ==> self.resolved().contains(#[trigger] names[j]),
                output@ == preamble() + exports(kept, record_names(graph, names.take(i as int))),
            decreases n - i,
        {
            let ghost records = record_names(graph, names.take(i as int));
            proof {
                self.lemma_graph();
                lemma_graph_at(names, self.definitions.definitions(), i as int);
                assert(names.take(i + 1).drop_last() =~= names.take(i as int));
                assert(names.take(i + 1).last() == names[i as int]);
            }
            if self.definitions.definition(i).is_record() {
                let name = self.definitions.declaration(i).as_str();
                match self.generated_type(name) {
                    Some(code) => {
                        let block = export_block(name, code.as_str());
                        output.append(block.as_str());
                        proof {
                            assert(records.push(names[i as int]).drop_last() =~= records);
                            assert(output@ =~= preamble() + (exports(kept, records) + block@));
                        }
                    },
                    None => {
                        vstd::pervasive::unreached::<()>();
                    },
                }
            }
            i += 1;
        }
        proof {
            assert(names.take(n as int) =~= names);
        }
        output
    }

    /// Parses the given schema graph and returns the Zorsh code.
    ///
    /// The parser takes a copy of the graph and starts afresh, with nothing
    /// kept. It resolves every record of the graph, then every other
    /// definition, and returns the import line and the exports of the
    /// records. The first error ends the run.
    pub fn parse(&mut self, container: &SchemaGraph) -> (r: Result<String, SchemaError>)
        requires
            container.wf(),
        ensures
            final(self).wf(),
            final(self).graph() == container@,
            final(self).names() == container.names(),
            final(self).reached(r, schema_run(container@, container.names())),
            code_view(r) == generated_text(container@),
            r is Ok ==> final(self).under_way() == Set::<Seq<char>>::empty(),
            r is Ok ==> container@.dom().subset_of(final(self).resolved()),
    {
        proof {
            lemma_canonical_names(*container);
        }
        self.load(container);
        match self.parse_all(true) {
            Err(e) => {
                return Err(e);
            },
            Ok(()) => {},
        }
        let ghost middle = *self;
        match self.parse_all(false) {
            Err(e) => {
                return Err(e);
            },
            Ok(()) => {},
        }
        proof {
            assert forall|j: int| 0 <= j < self.names().len() implies self.resolved().contains(
                #[trigger] self.names()[j],
            ) by {
                if middle.graph()[middle.names()[j]].is_record() {
                    self.lemma_kept_on(middle, middle.names()[j]);
                }
            }
            self.lemma_all_resolved();
        }
        Ok(self.export_records())
    }

    /// Every name of the graph is resolved once each of them is.
    proof fn lemma_all_resolved(&self)
        requires
            self.wf(),
            forall|j: int|
                0 <= j < self.names().len() ==> self.resolved().contains(#[trigger] self.names()[j]),
        ensures
            self.graph().dom().subset_of(self.resolved()),
    {
        self.lemma_graph();
        self.definitions.lemma_view();
        let names = self.names();
        assert(names == self.definitions.names());
        assert forall|n: Seq<char>| self.graph().contains_key(n) implies self.resolved().contains(
            n,
        ) by {
            let j = names.index_of(n);
            assert(names.contains(n));
            assert(names[j] == n);
            assert(self.resolved().contains(self.names()[j]));
        }
    }
}

} // verus!
