//! The indexes: which definition a type name stands for in a schema, and
//! which a fragment name in a query.

use vstd::hash_map::StringHashMap;
use vstd::prelude::*;
use crate::query;
use crate::schema::Definition;
use crate::schema::DefinitionView;
use crate::schema::Document;
use crate::util::schema_type_definition_name;

verus! {

/// The definition that `name` stands for: the last one that defines a type of
/// that name. An earlier definition of the same name is shadowed.
pub open spec fn lookup(defs: Seq<DefinitionView>, name: Seq<char>) -> Option<int>
    decreases defs.len(),
{
    if defs.len() == 0 {
        None
    } else if defs.last().defined_name() == Some(name) {
        Some(defs.len() - 1)
    } else {
        lookup(defs.drop_last(), name)
    }
}

/// `lookup` finds the last definition of the name, and fails only where
/// there is none.
pub proof fn lemma_lookup(defs: Seq<DefinitionView>, name: Seq<char>)
    ensures
        match lookup(defs, name) {
            Some(i) => {
                &&& 0 <= i < defs.len()
                &&& defs[i].defined_name() == Some(name)
                &&& forall|j: int| i < j < defs.len() ==> defs[j].defined_name() != Some(name)
            },
            None => forall|j: int| 0 <= j < defs.len() ==> defs[j].defined_name() != Some(name),
        },
    decreases defs.len(),
{
    if defs.len() > 0 && defs.last().defined_name() != Some(name) {
        lemma_lookup(defs.drop_last(), name);
        let shorter = defs.drop_last();
        assert forall|j: int| 0 <= j < shorter.len() implies shorter[j] == defs[j] by {}
    }
}

/// Definition `i` defines a type and is the one that its name stands for.
pub open spec fn in_force(defs: Seq<DefinitionView>, i: int) -> bool {
    &&& 0 <= i < defs.len()
    &&& defs[i].defined_name() matches Some(n)
    &&& lookup(defs, n) == Some(i)
}

/// Definition `a` names the type of `b` among what it points to: a field's base
/// type, an implemented interface, a union member.
pub open spec fn points_to(defs: Seq<DefinitionView>, a: int, b: int) -> bool {
    &&& in_force(defs, a)
    &&& exists|k: int|
        0 <= k < defs[a].targets().len() && lookup(defs, #[trigger] defs[a].targets()[k]@)
            == Some(b)
}

/// The definition that the name of definition `d` stands for: `d` itself
/// where it is in force, the definition that shadows it where it is not, and
/// nothing where `d` defines no type.
pub open spec fn owner(defs: Seq<DefinitionView>, d: int) -> Option<int> {
    match defs[d].defined_name() {
        Some(n) => lookup(defs, n),
        None => None,
    }
}

/// Definition `d` says that it implements the interface `a`: one of the names
/// in its list of interfaces stands for `a`, and `a` is an interface.
pub open spec fn declares(defs: Seq<DefinitionView>, d: int, a: int) -> bool {
    &&& 0 <= d < defs.len()
    &&& 0 <= a < defs.len()
    &&& defs[a].is_interface()
    &&& exists|k: int|
        0 <= k < defs[d].implements().len() && lookup(defs, #[trigger] defs[d].implements()[k]@)
            == Some(a)
}

/// `a` is an interface, and some definition whose name stands for `b` says
/// that it implements `a`. Every definition counts, a shadowed one too.
pub open spec fn implemented_by(defs: Seq<DefinitionView>, a: int, b: int) -> bool {
    exists|d: int| #[trigger] declares(defs, d, a) && owner(defs, d) == Some(b)
}

/// The edges of the type graph, between the indices of definitions in force.
/// A name that no definition defines gives no edge.
pub open spec fn type_edge(defs: Seq<DefinitionView>, a: int, b: int) -> bool {
    points_to(defs, a, b) || implemented_by(defs, a, b)
}

/// The edges of the type graph as a set of pairs.
pub open spec fn type_edges(defs: Seq<DefinitionView>) -> Set<(int, int)> {
    Set::new(|e: (int, int)| type_edge(defs, e.0, e.1))
}

/// Both ends of an edge are definitions in force.
pub proof fn lemma_edge_ends(defs: Seq<DefinitionView>, a: int, b: int)
    requires
        type_edge(defs, a, b),
    ensures
        in_force(defs, a),
        in_force(defs, b),
{
    if points_to(defs, a, b) {
        let k = choose|k: int|
            0 <= k < defs[a].targets().len() && lookup(defs, #[trigger] defs[a].targets()[k]@)
                == Some(b);
        lemma_lookup(defs, defs[a].targets()[k]@);
    } else {
        let d = choose|d: int| #[trigger] declares(defs, d, a) && owner(defs, d) == Some(b);
        let k = choose|k: int|
            0 <= k < defs[d].implements().len() && lookup(
                defs,
                #[trigger] defs[d].implements()[k]@,
            ) == Some(a);
        lemma_lookup(defs, defs[d].implements()[k]@);
        lemma_lookup(defs, defs[d].defined_name().unwrap());
    }
}

/// An index as contracts count it.
pub open spec fn as_index(i: Option<usize>) -> Option<int> {
    match i {
        Some(i) => Some(i as int),
        None => None,
    }
}

/// The schema index: for each type name the definition that it stands for,
/// found in one pass over the schema and looked up by hashing.
pub struct SchemaIndex {
    types: StringHashMap<usize>,
    defs: Ghost<Seq<DefinitionView>>,
}

/// The map holds, for the definitions it was filled from, what each name
/// stands for.
spec fn maps_names(types: Map<Seq<char>, usize>, defs: Seq<DefinitionView>) -> bool {
    forall|name: Seq<char>|
        match #[trigger] lookup(defs, name) {
            Some(i) => types.contains_key(name) && types[name] == i,
            None => !types.contains_key(name),
        }
}

impl SchemaIndex {
    /// The map holds what each name of the indexed schema stands for.
    #[verifier::type_invariant]
    spec fn well_formed(self) -> bool {
        maps_names(self.types@, self.defs@)
    }

    /// The schema that was indexed.
    pub closed spec fn schema(self) -> Seq<DefinitionView> {
        self.defs@
    }

    /// Indexes a schema. Where two definitions define a type of one name, the
    /// name stands for the later one.
    pub fn new(schema: &Document) -> (index: SchemaIndex)
        ensures
            index.schema() == schema@,
    {
        let ghost defs = schema@;
        let mut types: StringHashMap<usize> = StringHashMap::new();
        let mut i: usize = 0;
        assert(defs.take(0) =~= Seq::<DefinitionView>::empty());
        while i < schema.definitions.len()
            invariant
                i <= schema.definitions.len(),
                defs == schema@,
                maps_names(types@, defs.take(i as int)),
            decreases schema.definitions.len() - i,
        {
            let ghost before = types@;
            let ghost shorter = defs.take(i as int);
            let ghost longer = defs.take(i + 1);
            proof {
                assert(longer.drop_last() =~= shorter);
                assert(longer.last() == defs[i as int]);
            }
            if let Definition::TypeDefinition(td) = &schema.definitions[i] {
                if let Some(name) = schema_type_definition_name(td) {
                    types.insert(name.clone(), i);
                }
            }
            proof {
                assert forall|name: Seq<char>|
                    match #[trigger] lookup(longer, name) {
                        Some(j) => types@.contains_key(name) && types@[name] == j,
                        None => !types@.contains_key(name),
                    } by {
                    assert(maps_names(before, shorter));
                    let earlier = lookup(shorter, name);
                }
            }
            i = i + 1;
        }
        assert(defs.take(i as int) =~= defs);
        SchemaIndex { types, defs: Ghost(defs) }
    }

    /// The index of the definition that `name` stands for.
    pub fn find_type(&self, name: &String) -> (found: Option<usize>)
        ensures
            as_index(found) == lookup(self.schema(), name@),
            found matches Some(i) ==> i < self.schema().len(),
    {
        proof {
            use_type_invariant(self);
            lemma_lookup(self.defs@, name@);
        }
        match self.types.get(name.as_str()) {
            Some(i) => Some(*i),
            None => None,
        }
    }
}

/// The definition is a fragment called `name`.
pub open spec fn is_fragment_named(d: query::Definition, name: Seq<char>) -> bool {
    d matches query::Definition::Fragment(f) && f.name@ == name
}

/// The fragment that `name` stands for: the last one defined under that name.
pub open spec fn fragment_index(q: query::Document, name: Seq<char>) -> Option<int> {
    fragment_index_in(q.definitions@, name)
}

/// The last of the definitions that is a fragment called `name`.
pub open spec fn fragment_index_in(defs: Seq<query::Definition>, name: Seq<char>) -> Option<int>
    decreases defs.len(),
{
    if defs.len() == 0 {
        None
    } else {
        if is_fragment_named(defs.last(), name) {
            Some(defs.len() - 1)
        } else {
            fragment_index_in(defs.drop_last(), name)
        }
    }
}

/// `fragment_index_in` finds a fragment of the name, the last one.
pub proof fn lemma_fragment_index(defs: Seq<query::Definition>, name: Seq<char>)
    ensures
        match fragment_index_in(defs, name) {
            Some(i) => {
                &&& 0 <= i < defs.len()
                &&& is_fragment_named(defs[i], name)
                &&& forall|j: int| i < j < defs.len() ==> !is_fragment_named(#[trigger] defs[j], name)
            },
            None => forall|j: int|
                0 <= j < defs.len() ==> !is_fragment_named(#[trigger] defs[j], name),
        },
    decreases defs.len(),
{
    if defs.len() > 0 {
        let shorter = defs.drop_last();
        lemma_fragment_index(shorter, name);
        assert forall|j: int| 0 <= j < shorter.len() implies shorter[j] == defs[j] by {}
    }
}

/// The fragment index: for each fragment name the definition that it stands
/// for, found in one pass over the query and looked up by hashing.
pub struct FragmentIndex {
    fragments: StringHashMap<usize>,
    defs: Ghost<Seq<query::Definition>>,
}

/// The map holds, for the definitions it was filled from, what each fragment
/// name stands for.
spec fn maps_fragments(fragments: Map<Seq<char>, usize>, defs: Seq<query::Definition>) -> bool {
    forall|name: Seq<char>|
        match #[trigger] fragment_index_in(defs, name) {
            Some(i) => fragments.contains_key(name) && fragments[name] == i,
            None => !fragments.contains_key(name),
        }
}

impl FragmentIndex {
    /// The map holds what each fragment name of the indexed query stands for.
    #[verifier::type_invariant]
    spec fn well_formed(self) -> bool {
        maps_fragments(self.fragments@, self.defs@)
    }

    /// The definitions of the query that was indexed.
    pub closed spec fn definitions(self) -> Seq<query::Definition> {
        self.defs@
    }

    /// Indexes the fragments of a query. Where two fragments have one name, the
    /// name stands for the later one.
    pub fn new(query: &query::Document) -> (index: FragmentIndex)
        ensures
            index.definitions() == query.definitions@,
    {
        let ghost defs = query.definitions@;
        let mut fragments: StringHashMap<usize> = StringHashMap::new();
        let mut i: usize = 0;
        assert(defs.take(0) =~= Seq::<query::Definition>::empty());
        while i < query.definitions.len()
            invariant
                i <= query.definitions.len(),
                defs == query.definitions@,
                maps_fragments(fragments@, defs.take(i as int)),
            decreases query.definitions.len() - i,
        {
            let ghost before = fragments@;
            let ghost shorter = defs.take(i as int);
            let ghost longer = defs.take(i + 1);
            proof {
                assert(longer.drop_last() =~= shorter);
                assert(longer.last() == defs[i as int]);
            }
            if let query::Definition::Fragment(f) = &query.definitions[i] {
                fragments.insert(f.name.clone(), i);
            }
            proof {
                assert forall|name: Seq<char>|
                    match #[trigger] fragment_index_in(longer, name) {
                        Some(j) => fragments@.contains_key(name) && fragments@[name] == j,
                        None => !fragments@.contains_key(name),
                    } by {
                    assert(maps_fragments(before, shorter));
                    let earlier = fragment_index_in(shorter, name);
                }
            }
            i = i + 1;
        }
        assert(defs.take(i as int) =~= defs);
        FragmentIndex { fragments, defs: Ghost(defs) }
    }

    /// The index of the fragment that `name` stands for.
    pub fn find_fragment(&self, name: &String) -> (found: Option<usize>)
        ensures
            as_index(found) == fragment_index_in(self.definitions(), name@),
            found matches Some(i) ==> i < self.definitions().len(),
    {
        proof {
            use_type_invariant(self);
            lemma_fragment_index(self.defs@, name@);
        }
        match self.fragments.get(name.as_str()) {
            Some(i) => Some(*i),
            None => None,
        }
    }
}

} // verus!
