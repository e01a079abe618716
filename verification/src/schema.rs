//! The schema graph: named type definitions that refer to each other by name.

use crate::text::{
    lemma_precedes_irreflexive, lemma_precedes_total, lemma_precedes_transitive, precedes,
    text_precedes,
};
use vstd::prelude::*;

verus! {

/// The fields of a struct definition.
#[derive(Debug, PartialEq, Eq)]
pub enum Fields {
    /// Named fields, each a field name and the name of its type, in order.
    NamedFields(Vec<(String, String)>),
    /// Unnamed fields, each the name of its type, in order.
    UnnamedFields(Vec<String>),
    /// No fields.
    Empty,
}

/// How a named type is made up.
#[derive(Debug, PartialEq, Eq)]
#[allow(inconsistent_fields)]
pub enum Definition {
    /// An indivisible value of the given size in bytes.
    Primitive(u8),
    /// Elements of one type. With a `length_width` of zero it is an array of
    /// `length_bound` elements, else a list that carries its length.
    Sequence { length_width: u8, length_bound: u64, elements: String },
    /// Elements of the named types, in order.
    Tuple { elements: Vec<String> },
    /// Variants, each a discriminant, a variant name and the name of the
    /// payload type; the payload `()` stands for none.
    Enum { variants: Vec<(i64, String, String)> },
    /// A struct with the given fields.
    Struct { fields: Fields },
}

/// The mathematical value of [`Fields`].
pub enum FieldsView {
    NamedFields(Seq<(Seq<char>, Seq<char>)>),
    UnnamedFields(Seq<Seq<char>>),
    Empty,
}

/// The mathematical value of a [`Definition`].
#[allow(inconsistent_fields)]
pub enum DefinitionView {
    Primitive(u8),
    Sequence { length_width: u8, length_bound: u64, elements: Seq<char> },
    Tuple { elements: Seq<Seq<char>> },
    Enum { variants: Seq<(i64, Seq<char>, Seq<char>)> },
    Struct { fields: FieldsView },
}

impl View for Fields {
    type V = FieldsView;

    open spec fn view(&self) -> FieldsView {
        match self {
            Fields::NamedFields(fields) => FieldsView::NamedFields(fields.deep_view()),
            Fields::UnnamedFields(types) => FieldsView::UnnamedFields(types.deep_view()),
            Fields::Empty => FieldsView::Empty,
        }
    }
}

impl View for Definition {
    type V = DefinitionView;

    open spec fn view(&self) -> DefinitionView {
        match self {
            Definition::Primitive(size) => DefinitionView::Primitive(*size),
            Definition::Sequence { length_width, length_bound, elements } => {
                DefinitionView::Sequence {
                    length_width: *length_width,
                    length_bound: *length_bound,
                    elements: elements@,
                }
            },
            Definition::Tuple { elements } => DefinitionView::Tuple {
                elements: elements.deep_view(),
            },
            Definition::Enum { variants } => DefinitionView::Enum {
                variants: variants.deep_view(),
            },
            Definition::Struct { fields } => DefinitionView::Struct { fields: fields@ },
        }
    }
}

impl DefinitionView {
    /// Whether this is a record: a struct with named fields. Only records are
    /// exported under a name of their own.
    pub open spec fn is_record(self) -> bool {
        self matches DefinitionView::Struct { fields: FieldsView::NamedFields(_) }
    }
}

/// A copy of `names`.
pub fn copy_names(names: &Vec<String>) -> (r: Vec<String>)
    ensures
        r.deep_view() == names.deep_view(),
{
    let mut r: Vec<String> = Vec::new();
    let mut i: usize = 0;
    while i < names.len()
        invariant
            i <= names.len(),
            r@.len() == i,
            forall|j: int| 0 <= j < i ==> r@[j]@ == names@[j]@,
        decreases names.len() - i,
    {
        r.push(names[i].clone());
        i += 1;
    }
    assert(r.deep_view() =~= names.deep_view());
    r
}

impl Fields {
    /// A copy of these fields.
    pub fn duplicate(&self) -> (r: Fields)
        ensures
            r@ == self@,
    {
        match self {
            Fields::NamedFields(fields) => {
                let mut r: Vec<(String, String)> = Vec::new();
                let mut i: usize = 0;
                while i < fields.len()
                    invariant
                        i <= fields.len(),
                        r@.len() == i,
                        forall|j: int|
                            0 <= j < i ==> r@[j].0@ == fields@[j].0@ && r@[j].1@ == fields@[j].1@,
                    decreases fields.len() - i,
                {
                    r.push((fields[i].0.clone(), fields[i].1.clone()));
                    i += 1;
                }
                assert(r.deep_view() =~= fields.deep_view());
                Fields::NamedFields(r)
            },
            Fields::UnnamedFields(types) => Fields::UnnamedFields(copy_names(types)),
            Fields::Empty => Fields::Empty,
        }
    }
}

impl Definition {
    /// A copy of this definition.
    pub fn duplicate(&self) -> (r: Definition)
        ensures
            r@ == self@,
    {
        match self {
            Definition::Primitive(size) => Definition::Primitive(*size),
            Definition::Sequence { length_width, length_bound, elements } => Definition::Sequence {
                length_width: *length_width,
                length_bound: *length_bound,
                elements: elements.clone(),
            },
            Definition::Tuple { elements } => Definition::Tuple { elements: copy_names(elements) },
            Definition::Enum { variants } => {
                let mut r: Vec<(i64, String, String)> = Vec::new();
                let mut i: usize = 0;
                while i < variants.len()
                    invariant
                        i <= variants.len(),
                        r@.len() == i,
                        forall|j: int|
                            0 <= j < i ==> r@[j].0 == variants@[j].0 && r@[j].1@ == variants@[j].1@
                                && r@[j].2@ == variants@[j].2@,
                    decreases variants.len() - i,
                {
                    r.push((variants[i].0, variants[i].1.clone(), variants[i].2.clone()));
                    i += 1;
                }
                assert(r.deep_view() =~= variants.deep_view());
                Definition::Enum { variants: r }
            },
            Definition::Struct { fields } => Definition::Struct { fields: fields.duplicate() },
        }
    }

    /// Whether this is a struct with named fields.
    pub fn is_record(&self) -> (r: bool)
        ensures
            r == self@.is_record(),
    {
        match self {
            Definition::Struct { fields: Fields::NamedFields(_) } => true,
            _ => false,
        }
    }
}

/// Each name comes before all that follow it.
#[verifier::opaque]
pub open spec fn strictly_sorted(names: Seq<Seq<char>>) -> bool {
    forall|i: int, j: int| 0 <= i < j < names.len() ==> precedes(names[i], names[j])
}

/// The map from each of `names` to the definition at its place.
#[verifier::opaque]
pub open spec fn graph_of(names: Seq<Seq<char>>, definitions: Seq<DefinitionView>) -> Map<
    Seq<char>,
    DefinitionView,
> {
    Map::new(|n: Seq<char>| names.contains(n), |n: Seq<char>| definitions[names.index_of(n)])
}

/// In a sorted sequence no name occurs twice.
pub proof fn lemma_sorted_distinct(names: Seq<Seq<char>>, i: int, j: int)
    requires
        strictly_sorted(names),
        0 <= i < names.len(),
        0 <= j < names.len(),
        names[i] == names[j],
    ensures
        i == j,
{
    reveal(strictly_sorted);
    lemma_precedes_irreflexive(names[i]);
}

/// Under a sorted sequence of names, the graph holds each name with the
/// definition at its place.
pub proof fn lemma_graph_at(names: Seq<Seq<char>>, definitions: Seq<DefinitionView>, i: int)
    requires
        strictly_sorted(names),
        0 <= i < names.len(),
    ensures
        graph_of(names, definitions).contains_key(names[i]),
        graph_of(names, definitions)[names[i]] == definitions[i],
        names.index_of(names[i]) == i,
{
    reveal(graph_of);
    assert(names.contains(names[i]));
    lemma_sorted_distinct(names, i, names.index_of(names[i]));
}

/// Two sorted sequences that hold the same names are equal: the order in
/// which a graph lists its names depends on the names alone.
pub proof fn lemma_sorted_unique(a: Seq<Seq<char>>, b: Seq<Seq<char>>)
    requires
        strictly_sorted(a),
        strictly_sorted(b),
        forall|n: Seq<char>| a.contains(n) <==> b.contains(n),
    ensures
        a == b,
    decreases a.len(),
{
    reveal(strictly_sorted);
    if a.len() == 0 {
        if b.len() > 0 {
            assert(b.contains(b[0]));
        }
        assert(a =~= b);
    } else if b.len() == 0 {
        assert(a.contains(a[0]));
    } else {
        // The last name of each is its greatest, so the two agree.
        let x = a.last();
        let y = b.last();
        assert(a.contains(x));
        assert(b.contains(y));
        let i = b.index_of(x);
        let j = a.index_of(y);
        if x != y {
            lemma_precedes_irreflexive(x);
            lemma_precedes_irreflexive(y);
            assert(i < b.len() - 1);
            assert(j < a.len() - 1);
            lemma_precedes_transitive(x, y, x);
        }
        let a0 = a.drop_last();
        let b0 = b.drop_last();
        assert forall|n: Seq<char>| a0.contains(n) <==> b0.contains(n) by {
            if a0.contains(n) {
                let k = a0.index_of(n);
                assert(a[k] == n);
                assert(a.contains(n));
                let m = b.index_of(n);
                if m == b.len() - 1 {
                    lemma_precedes_irreflexive(x);
                }
                assert(b0[m] == n);
            }
            if b0.contains(n) {
                let k = b0.index_of(n);
                assert(b[k] == n);
                assert(b.contains(n));
                let m = a.index_of(n);
                if m == a.len() - 1 {
                    lemma_precedes_irreflexive(y);
                }
                assert(a0[m] == n);
            }
        }
        lemma_sorted_unique(a0, b0);
        assert(a =~= a0.push(x));
        assert(b =~= b0.push(y));
    }
}

/// All the definitions of one schema, each under its name, kept in the order
/// of the names.
#[derive(Debug)]
pub struct SchemaGraph {
    entries: Vec<(String, Definition)>,
}

impl View for SchemaGraph {
    type V = Map<Seq<char>, DefinitionView>;

    open spec fn view(&self) -> Map<Seq<char>, DefinitionView> {
        graph_of(self.names(), self.definitions())
    }
}

impl SchemaGraph {
    /// The names, in the order in which the graph is walked.
    pub closed spec fn names(&self) -> Seq<Seq<char>> {
        Seq::new(self.entries@.len(), |i: int| self.entries@[i].0@)
    }

    /// The definitions, each at the place of its name.
    pub closed spec fn definitions(&self) -> Seq<DefinitionView> {
        Seq::new(self.entries@.len(), |i: int| self.entries@[i].1@)
    }

    /// The names are sorted, so none occurs twice.
    pub open spec fn wf(&self) -> bool {
        &&& strictly_sorted(self.names())
        &&& self.definitions().len() == self.names().len()
    }

    /// What the view of a well-formed graph holds.
    pub proof fn lemma_view(&self)
        requires
            self.wf(),
        ensures
            self@.dom().finite(),
            forall|n: Seq<char>| self@.contains_key(n) <==> self.names().contains(n),
            forall|i: int|
                0 <= i < self.names().len() ==> self@.contains_key(#[trigger] self.names()[i])
                    && self@[self.names()[i]] == self.definitions()[i],
    {
        reveal(graph_of);
        let names = self.names();
        assert forall|i: int| 0 <= i < names.len() implies self@.contains_key(#[trigger] names[i])
            && self@[names[i]] == self.definitions()[i] by {
            lemma_graph_at(names, self.definitions(), i);
        }
        vstd::seq_lib::seq_to_set_is_finite(names);
        assert(self@.dom() =~= names.to_set());
    }

    /// A graph without definitions.
    pub fn new() -> (r: SchemaGraph)
        ensures
            r.wf(),
            r.names() == Seq::<Seq<char>>::empty(),
            r@ == Map::<Seq<char>, DefinitionView>::empty(),
    {
        let r = SchemaGraph { entries: Vec::new() };
        proof {
            reveal(strictly_sorted);
            reveal(graph_of);
        }
        assert(r.names() =~= Seq::<Seq<char>>::empty());
        assert(r@ =~= Map::<Seq<char>, DefinitionView>::empty());
        r
    }

    /// The number of definitions.
    pub fn len(&self) -> (r: usize)
        ensures
            r == self.names().len(),
            r == self.definitions().len(),
    {
        self.entries.len()
    }

    /// The name at place `i`.
    pub fn declaration(&self, i: usize) -> (r: &String)
        requires
            i < self.names().len(),
        ensures
            r@ == self.names()[i as int],
    {
        &self.entries[i].0
    }

    /// The definition at place `i`.
    pub fn definition(&self, i: usize) -> (r: &Definition)
        requires
            i < self.names().len(),
        ensures
            r@ == self.definitions()[i as int],
    {
        &self.entries[i].1
    }

    /// The place of `name`, if the graph defines it.
    pub fn position(&self, name: &str) -> (r: Option<usize>)
        ensures
            match r {
                Some(i) => i < self.names().len() && self.names()[i as int] == name@,
                None => !self.names().contains(name@),
            },
    {
        let key = String::from_str(name);
        let mut i: usize = 0;
        while i < self.entries.len()
            invariant
                i <= self.entries.len(),
                key@ == name@,
                forall|j: int| 0 <= j < i ==> self.names()[j] != name@,
            decreases self.entries.len() - i,
        {
            if self.entries[i].0 == key {
                return Some(i);
            }
            i += 1;
        }
        None
    }

    /// The definition of `name`, if the graph holds one.
    pub fn get_definition(&self, name: &str) -> (r: Option<&Definition>)
        requires
            self.wf(),
        ensures
            match r {
                Some(definition) => self@.contains_key(name@) && self@[name@] == definition@,
                None => !self@.contains_key(name@),
            },
    {
        proof {
            self.lemma_view();
        }
        match self.position(name) {
            Some(i) => {
                proof {
                    lemma_graph_at(self.names(), self.definitions(), i as int);
                }
                Some(&self.entries[i].1)
            },
            None => None,
        }
    }

    /// The place where `name` stands or would stand, and whether it stands there.
    fn slot(&self, name: &str) -> (r: (usize, bool))
        requires
            self.wf(),
        ensures
            r.0 <= self.names().len(),
            forall|j: int| 0 <= j < r.0 ==> precedes(self.names()[j], name@),
            r.1 ==> r.0 < self.names().len() && self.names()[r.0 as int] == name@,
            !r.1 ==> forall|j: int| r.0 <= j < self.names().len() ==> precedes(name@, self.names()[j]),
    {
        let mut p: usize = 0;
        while p < self.entries.len() && text_precedes(self.entries[p].0.as_str(), name)
            invariant
                p <= self.entries.len(),
                forall|j: int| 0 <= j < p ==> precedes(self.names()[j], name@),
            decreases self.entries.len() - p,
        {
            p += 1;
        }
        if p == self.entries.len() {
            return (p, false);
        }
        let key = String::from_str(name);
        let found = self.entries[p].0 == key;
        proof {
            reveal(strictly_sorted);
            if !found {
                let names = self.names();
                lemma_precedes_total(names[p as int], name@);
                assert forall|j: int| p <= j < names.len() implies precedes(name@, names[j]) by {
                    if j > p {
                        lemma_precedes_transitive(name@, names[p as int], names[j]);
                    }
                }
            }
        }
        (p, found)
    }

    /// Puts `definition` under `name`, in place of what stood there.
    pub fn insert(&mut self, name: String, definition: Definition)
        requires
            old(self).wf(),
        ensures
            final(self).wf(),
            final(self)@ == old(self)@.insert(name@, definition@),
    {
        let (p, found) = self.slot(name.as_str());
        let ghost old_names = self.names();
        let ghost old_defs = self.definitions();
        let ghost key = name@;
        let ghost value = definition@;
        if found {
            self.entries.set(p, (name, definition));
            proof {
                reveal(graph_of);
                assert(self.names() =~= old_names);
                assert(self.definitions() =~= old_defs.update(p as int, value));
                let new_defs = self.definitions();
                assert forall|n: Seq<char>| #[trigger] old_names.contains(n) implies graph_of(
                    old_names,
                    new_defs,
                )[n] == graph_of(old_names, old_defs).insert(key, value)[n] by {
                    let i = old_names.index_of(n);
                    lemma_graph_at(old_names, old_defs, i);
                    lemma_graph_at(old_names, new_defs, i);
                    lemma_graph_at(old_names, old_defs, p as int);
                    if n == key {
                        lemma_sorted_distinct(old_names, i, p as int);
                    }
                }
                assert(old_names.contains(old_names[p as int]));
                assert(self@ =~= graph_of(old_names, old_defs).insert(key, value));
            }
        } else {
            self.entries.insert(p, (name, definition));
            proof {
                reveal(graph_of);
                let new_names = self.names();
                let new_defs = self.definitions();
                assert(new_names =~= old_names.insert(p as int, key));
                assert(new_defs =~= old_defs.insert(p as int, value));
                assert(strictly_sorted(new_names)) by {
                    reveal(strictly_sorted);
                    assert forall|i: int, j: int| 0 <= i < j < new_names.len() implies precedes(
                        new_names[i],
                        new_names[j],
                    ) by {
                        if j < p {
                            assert(new_names[i] == old_names[i] && new_names[j] == old_names[j]);
                        } else if j == p {
                            assert(new_names[i] == old_names[i]);
                        } else if i < p {
                            assert(new_names[i] == old_names[i] && new_names[j] == old_names[j - 1]);
                        } else if i == p {
                            assert(new_names[j] == old_names[j - 1]);
                        } else {
                            assert(new_names[i] == old_names[i - 1] && new_names[j] == old_names[j
                                - 1]);
                        }
                    }
                }
                lemma_precedes_irreflexive(key);
                let target = graph_of(old_names, old_defs).insert(key, value);
                assert forall|n: Seq<char>| new_names.contains(n) <==> target.contains_key(n) by {
                    if new_names.contains(n) {
                        let i = new_names.index_of(n);
                        if i < p {
                            assert(old_names[i] == n);
                        } else if i > p {
                            assert(old_names[i - 1] == n);
                        }
                    }
                    if old_names.contains(n) {
                        let i = old_names.index_of(n);
                        if i < p {
                            assert(new_names[i] == n);
                        } else {
                            assert(new_names[i + 1] == n);
                        }
                    }
                    if n == key {
                        assert(new_names[p as int] == n);
                    }
                }
                assert forall|n: Seq<char>| #[trigger] new_names.contains(n) implies graph_of(
                    new_names,
                    new_defs,
                )[n] == target[n] by {
                    let i = new_names.index_of(n);
                    lemma_graph_at(new_names, new_defs, i);
                    if i < p {
                        assert(old_names[i] == n);
                        lemma_graph_at(old_names, old_defs, i);
                    } else if i > p {
                        assert(old_names[i - 1] == n);
                        lemma_graph_at(old_names, old_defs, i - 1);
                    }
                }
                assert(self@ =~= target);
            }
        }
    }

    /// A copy of this graph.
    pub fn duplicate(&self) -> (r: SchemaGraph)
        ensures
            r.names() == self.names(),
            r.definitions() == self.definitions(),
            r@ == self@,
            r.wf() == self.wf(),
    {
        let mut entries: Vec<(String, Definition)> = Vec::new();
        let mut i: usize = 0;
        while i < self.entries.len()
            invariant
                i <= self.entries.len(),
                entries@.len() == i,
                forall|j: int|
                    0 <= j < i ==> entries@[j].0@ == self.entries@[j].0@ && entries@[j].1@
                        == self.entries@[j].1@,
            decreases self.entries.len() - i,
        {
            entries.push((self.entries[i].0.clone(), self.entries[i].1.duplicate()));
            i += 1;
        }
        let r = SchemaGraph { entries };
        assert(r.names() =~= self.names());
        assert(r.definitions() =~= self.definitions());
        r
    }
}

} // verus!
