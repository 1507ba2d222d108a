//! The reachability closure: the types that chosen roots reach in the type
//! graph, and the schema cut down to them.
//!
//! The closure is stated over the edge rules of the schema index. It is
//! computed by a depth-first search in a graph that holds a node for each
//! definition and an edge for each pair that the edge rules relate.

use vstd::prelude::*;
use crate::graph::edge_step;
use crate::graph::graph_add_edge;
use crate::graph::graph_add_node;
use crate::graph::graph_dfs;
use crate::graph::graph_edges;
use crate::graph::graph_new;
use crate::graph::graph_nodes;
use crate::graph::TypeGraph;
use crate::index::as_index;
use crate::index::declares;
use crate::index::implemented_by;
use crate::index::owner;
use crate::index::in_force;
use crate::index::lemma_edge_ends;
use crate::index::lemma_lookup;
use crate::index::lookup;
use crate::index::points_to;
use crate::index::SchemaIndex;
use crate::index::type_edge;
use crate::index::type_edges;
use crate::reach::lemma_reaches_induct;
use crate::reach::reaches;
use crate::schema::Definition;
use crate::schema::DefinitionView;
use crate::schema::Document;
use crate::schema::Field;
use crate::schema::TypeDefinition;
use crate::util::named_type;
use crate::util::schema_type_definition_name;

verus! {

/// The names that a list of roots gives.
pub open spec fn names(types: Seq<&str>) -> Seq<Seq<char>> {
    types.map_values(|t: &str| t@)
}

/// `root` stands for a definition, and that definition reaches definition `b`
/// along edges of the type graph.
pub open spec fn root_reaches(defs: Seq<DefinitionView>, root: Seq<char>, b: int) -> bool {
    lookup(defs, root) matches Some(s) && reaches(edge_step(type_edges(defs)), s, b)
}

/// Some root reaches definition `b`.
pub open spec fn reached(defs: Seq<DefinitionView>, roots: Seq<Seq<char>>, b: int) -> bool {
    exists|r: int| 0 <= r < roots.len() && root_reaches(defs, #[trigger] roots[r], b)
}

/// The reachability closure, as a test on names: the name stands for a
/// definition that some root reaches.
pub open spec fn in_closure(defs: Seq<DefinitionView>, roots: Seq<Seq<char>>, name: Seq<char>) -> bool {
    lookup(defs, name) matches Some(b) && reached(defs, roots, b)
}

/// The definition defines a type whose name is in the closure. A schema block,
/// a directive definition and a type extension never are.
pub open spec fn retained(defs: Seq<DefinitionView>, roots: Seq<Seq<char>>, d: DefinitionView) -> bool {
    d.defined_name() matches Some(n) && in_closure(defs, roots, n)
}

/// The schema cut down to the closure: the retained definitions, each as it
/// was, in their order.
pub open spec fn focused(defs: Seq<DefinitionView>, roots: Seq<Seq<char>>) -> Seq<DefinitionView> {
    defs.filter(|d: DefinitionView| retained(defs, roots, d))
}

/// Cuts a schema down to the types that the roots in `types` reach.
///
/// A definition stays if it defines a type whose name is in the reachability
/// closure of the roots; it stays as it was and where it stood. A root that no
/// definition defines adds nothing, and where no root is defined the result is
/// the empty document.
pub fn process(schema: Document, types: &[&str]) -> (out: Document)
    ensures
        out@ == focused(schema@, names(types@)),
{
    let index = SchemaIndex::new(&schema);
    let stands = standing(&schema, &index);
    let g = build_graph(&schema, &index, &stands);
    let used = search(&g, &schema, &index, types);
    proof {
        lemma_stripped_is_focused(schema@, used@, names(types@));
    }
    strip_unused_types(schema, &stands, &used)
}

/// `stands` holds, for each definition, the definition that its name stands
/// for, and nothing for a definition that defines no type.
spec fn stand_for(stands: Seq<Option<usize>>, defs: Seq<DefinitionView>) -> bool {
    &&& stands.len() == defs.len()
    &&& forall|i: int|
        0 <= i < stands.len() ==> as_index(#[trigger] stands[i]) == match defs[i].defined_name() {
            Some(n) => lookup(defs, n),
            None => None,
        }
}

/// `used` marks the definitions that some root reaches.
spec fn mark_reached(used: Seq<bool>, defs: Seq<DefinitionView>, roots: Seq<Seq<char>>) -> bool {
    &&& used.len() == defs.len()
    &&& forall|b: int| 0 <= b < used.len() ==> #[trigger] used[b] == reached(defs, roots, b)
}

/// For each definition, the definition that its name stands for.
fn standing(schema: &Document, index: &SchemaIndex) -> (stands: Vec<Option<usize>>)
    requires
        index.schema() == schema@,
    ensures
        stand_for(stands@, schema@),
{
    let mut stands: Vec<Option<usize>> = Vec::new();
    let mut i: usize = 0;
    while i < schema.definitions.len()
        invariant
            i <= schema.definitions.len(),
            index.schema() == schema@,
            stands@.len() == i,
            forall|j: int|
                0 <= j < i ==> as_index(#[trigger] stands@[j]) == match schema@[j].defined_name() {
                    Some(n) => lookup(schema@, n),
                    None => None,
                },
        decreases schema.definitions.len() - i,
    {
        let found = match &schema.definitions[i] {
            Definition::TypeDefinition(td) => match schema_type_definition_name(td) {
                Some(name) => index.find_type(name),
                None => None,
            },
            _ => None,
        };
        stands.push(found);
        i = i + 1;
    }
    stands
}

/// The names that a type definition points to, in the order of its text.
fn edge_targets<'a>(td: &'a TypeDefinition) -> (targets: Vec<&'a String>)
    ensures
        targets@.len() == td@.targets().len(),
        forall|k: int| 0 <= k < targets@.len() ==> *targets@[k] == td@.targets()[k],
{
    let mut targets: Vec<&'a String> = Vec::new();
    match td {
        TypeDefinition::Object(t) => {
            push_field_types(&t.fields, &mut targets);
            push_names(&t.implements_interfaces, &mut targets);
        },
        TypeDefinition::Interface(t) => {
            push_field_types(&t.fields, &mut targets);
            push_names(&t.implements_interfaces, &mut targets);
        },
        TypeDefinition::Union(t) => {
            push_names(&t.types, &mut targets);
        },
        TypeDefinition::InputObject(t) => {
            let mut k: usize = 0;
            while k < t.fields.len()
                invariant
                    k <= t.fields.len(),
                    targets@.len() == k,
                    forall|j: int| 0 <= j < k ==> *targets@[j] == t.fields@[j].value_type.base(),
                decreases t.fields.len() - k,
            {
                if let Some(name) = named_type(&t.fields[k].value_type) {
                    targets.push(name);
                }
                k = k + 1;
            }
        },
        TypeDefinition::Scalar(_) => {},
        TypeDefinition::Enum(_) => {},
    }
    targets
}

/// Pushes the base type of each field in turn.
fn push_field_types<'a>(fields: &'a Vec<Field>, targets: &mut Vec<&'a String>)
    ensures
        final(targets)@.len() == old(targets)@.len() + fields@.len(),
        forall|k: int| 0 <= k < old(targets)@.len() ==> final(targets)@[k] == old(targets)@[k],
        forall|k: int|
            0 <= k < fields@.len() ==> *final(targets)@[old(targets)@.len() + k]
                == fields@[k].field_type.base(),
{
    let mut k: usize = 0;
    while k < fields.len()
        invariant
            k <= fields.len(),
            targets@.len() == old(targets)@.len() + k,
            forall|j: int| 0 <= j < old(targets)@.len() ==> targets@[j] == old(targets)@[j],
            forall|j: int|
                0 <= j < k ==> *targets@[old(targets)@.len() + j] == fields@[j].field_type.base(),
        decreases fields.len() - k,
    {
        if let Some(name) = named_type(&fields[k].field_type) {
            targets.push(name);
        }
        k = k + 1;
    }
}

/// Pushes each name in turn.
fn push_names<'a>(names: &'a Vec<String>, targets: &mut Vec<&'a String>)
    ensures
        final(targets)@.len() == old(targets)@.len() + names@.len(),
        forall|k: int| 0 <= k < old(targets)@.len() ==> final(targets)@[k] == old(targets)@[k],
        forall|k: int|
            0 <= k < names@.len() ==> *final(targets)@[old(targets)@.len() + k] == names@[k],
{
    let mut k: usize = 0;
    while k < names.len()
        invariant
            k <= names.len(),
            targets@.len() == old(targets)@.len() + k,
            forall|j: int| 0 <= j < old(targets)@.len() ==> targets@[j] == old(targets)@[j],
            forall|j: int| 0 <= j < k ==> *targets@[old(targets)@.len() + j] == names@[j],
        decreases names.len() - k,
    {
        targets.push(&names[k]);
        k = k + 1;
    }
}

/// The interfaces that an object or interface type says it implements.
fn interfaces_of(td: &TypeDefinition) -> (names: Option<&Vec<String>>)
    ensures
        match names {
            Some(list) => list@ == td@.implements(),
            None => td@.implements() == Seq::<String>::empty(),
        },
{
    match td {
        TypeDefinition::Object(t) => Some(&t.implements_interfaces),
        TypeDefinition::Interface(t) => Some(&t.implements_interfaces),
        _ => None,
    }
}

/// `a` is in force and one of its first `limit` targets stands for `b`.
spec fn points_to_within(defs: Seq<DefinitionView>, a: int, b: int, limit: int) -> bool {
    &&& in_force(defs, a)
    &&& exists|k: int|
        0 <= k < limit && k < defs[a].targets().len() && lookup(
            defs,
            #[trigger] defs[a].targets()[k]@,
        ) == Some(b)
}

/// One of the first `limit` names in the list of interfaces of definition `d`
/// stands for the interface `a`.
spec fn declares_within(defs: Seq<DefinitionView>, d: int, a: int, limit: int) -> bool {
    &&& 0 <= d < defs.len()
    &&& 0 <= a < defs.len()
    &&& defs[a].is_interface()
    &&& exists|k: int|
        0 <= k < limit && k < defs[d].implements().len() && lookup(
            defs,
            #[trigger] defs[d].implements()[k]@,
        ) == Some(a)
}

/// A definition before `i` whose name stands for `b` says that it implements
/// the interface `a`.
spec fn implemented_before(defs: Seq<DefinitionView>, a: int, b: int, i: int) -> bool {
    exists|d: int| d < i && #[trigger] declares(defs, d, a) && owner(defs, d) == Some(b)
}

/// The edges that are in the graph once the definitions before `i` are done,
/// and of definition `i` the first `kt` targets and `ki` interfaces.
spec fn built(defs: Seq<DefinitionView>, i: int, kt: int, ki: int) -> Set<(int, int)> {
    Set::new(
        |e: (int, int)|
            {
                ||| e.0 < i && points_to(defs, e.0, e.1)
                ||| e.0 == i && points_to_within(defs, i, e.1, kt)
                ||| implemented_before(defs, e.0, e.1, i)
                ||| declares_within(defs, i, e.0, ki) && owner(defs, i) == Some(e.1)
            },
    )
}

/// A definition that is done counts among the definitions before the next:
/// with all its targets where it is in force, and with all its interfaces.
proof fn lemma_built_next(defs: Seq<DefinitionView>, i: int, kt: int, ki: int)
    requires
        0 <= i < defs.len(),
        in_force(defs, i) ==> kt == defs[i].targets().len(),
        ki == defs[i].implements().len(),
    ensures
        built(defs, i, kt, ki) == built(defs, i + 1, 0, 0),
{
    assert forall|e: (int, int)|
        built(defs, i, kt, ki).contains(e) == built(defs, i + 1, 0, 0).contains(e) by {
        if in_force(defs, i) {
            assert(points_to(defs, i, e.1) == points_to_within(defs, i, e.1, kt));
        }
        assert(declares(defs, i, e.0) == declares_within(defs, i, e.0, ki));
        if implemented_before(defs, e.0, e.1, i + 1) {
            let d = choose|d: int|
                d < i + 1 && #[trigger] declares(defs, d, e.0) && owner(defs, d) == Some(e.1);
            if d < i {
                assert(implemented_before(defs, e.0, e.1, i));
            }
        }
        if implemented_before(defs, e.0, e.1, i) {
            let d = choose|d: int|
                d < i && #[trigger] declares(defs, d, e.0) && owner(defs, d) == Some(e.1);
            assert(d < i + 1);
        }
    }
    assert(built(defs, i, kt, ki) =~= built(defs, i + 1, 0, 0));
}

/// Before any definition is done there is no edge, and once all are done the
/// edges are those of the type graph.
proof fn lemma_built_ends(defs: Seq<DefinitionView>)
    ensures
        built(defs, 0, 0, 0) == Set::<(int, int)>::empty(),
        built(defs, defs.len() as int, 0, 0) == type_edges(defs),
{
    assert forall|e: (int, int)| !built(defs, 0, 0, 0).contains(e) by {
        if implemented_before(defs, e.0, e.1, 0) {
            let d = choose|d: int|
                d < 0 && #[trigger] declares(defs, d, e.0) && owner(defs, d) == Some(e.1);
        }
    }
    assert(built(defs, 0, 0, 0) =~= Set::<(int, int)>::empty());
    let n = defs.len() as int;
    assert forall|e: (int, int)| type_edges(defs).contains(e) == built(defs, n, 0, 0).contains(
        e,
    ) by {
        if type_edge(defs, e.0, e.1) {
            lemma_edge_ends(defs, e.0, e.1);
        }
        if implemented_by(defs, e.0, e.1) {
            let d = choose|d: int| #[trigger] declares(defs, d, e.0) && owner(defs, d) == Some(e.1);
            assert(d < n);
        }
        if implemented_before(defs, e.0, e.1, n) {
            let d = choose|d: int|
                d < n && #[trigger] declares(defs, d, e.0) && owner(defs, d) == Some(e.1);
        }
    }
    assert(built(defs, n, 0, 0) =~= type_edges(defs));
}

/// Adds an edge from definition `i` to each definition that one of its
/// targets stands for.
fn add_forward_edges(
    g: &mut TypeGraph,
    schema: &Document,
    index: &SchemaIndex,
    i: usize,
    td: &TypeDefinition,
)
    requires
        index.schema() == schema@,
        in_force(schema@, i as int),
        schema@[i as int].targets() == td@.targets(),
        graph_nodes(*old(g)) == schema@.len(),
        graph_edges(*old(g)) == built(schema@, i as int, 0, 0),
    ensures
        graph_nodes(*final(g)) == schema@.len(),
        graph_edges(*final(g)) == built(schema@, i as int, td@.targets().len() as int, 0),
{
    let ghost defs = schema@;
    let targets = edge_targets(td);
    let mut k: usize = 0;
    while k < targets.len()
        invariant
            k <= targets.len(),
            defs == schema@,
            index.schema() == defs,
            in_force(defs, i as int),
            targets@.len() == defs[i as int].targets().len(),
            forall|j: int| 0 <= j < targets@.len() ==> *targets@[j] == defs[i as int].targets()[j],
            graph_nodes(*g) == defs.len(),
            graph_edges(*g) == built(defs, i as int, k as int, 0),
        decreases targets.len() - k,
    {
        let ghost before = graph_edges(*g);
        match index.find_type(targets[k]) {
            Some(j) => {
                graph_add_edge(g, i, j);
                assert(points_to_within(defs, i as int, j as int, k + 1));
                assert(before.insert((i as int, j as int)) =~= built(defs, i as int, k + 1, 0));
            },
            None => {
                assert(before =~= built(defs, i as int, k + 1, 0));
            },
        }
        k = k + 1;
    }
}

/// Adds an edge from each interface that definition `i` says it implements
/// to the definition that the name of `i` stands for.
fn add_reverse_edges(
    g: &mut TypeGraph,
    schema: &Document,
    index: &SchemaIndex,
    i: usize,
    td: &TypeDefinition,
    stands: usize,
    Ghost(kt): Ghost<int>,
)
    requires
        index.schema() == schema@,
        i < schema@.len(),
        schema@[i as int].implements() == td@.implements(),
        owner(schema@, i as int) == Some(stands as int),
        stands < schema@.len(),
        graph_nodes(*old(g)) == schema@.len(),
        graph_edges(*old(g)) == built(schema@, i as int, kt, 0),
    ensures
        graph_nodes(*final(g)) == schema@.len(),
        graph_edges(*final(g)) == built(schema@, i as int, kt, td@.implements().len() as int),
{
    let ghost defs = schema@;
    if let Some(interfaces) = interfaces_of(td) {
        let mut k: usize = 0;
        while k < interfaces.len()
            invariant
                k <= interfaces.len(),
                defs == schema@,
                index.schema() == defs,
                i < defs.len(),
                stands < defs.len(),
                owner(defs, i as int) == Some(stands as int),
                interfaces@ == defs[i as int].implements(),
                graph_nodes(*g) == defs.len(),
                graph_edges(*g) == built(defs, i as int, kt, k as int),
            decreases interfaces.len() - k,
        {
            let ghost before = graph_edges(*g);
            let interface = match index.find_type(&interfaces[k]) {
                Some(j) => match &schema.definitions[j] {
                    Definition::TypeDefinition(TypeDefinition::Interface(_)) => Some(j),
                    _ => None,
                },
                None => None,
            };
            match interface {
                Some(j) => {
                    graph_add_edge(g, j, stands);
                    assert(declares_within(defs, i as int, j as int, k + 1));
                    assert(before.insert((j as int, stands as int)) =~= built(
                        defs,
                        i as int,
                        kt,
                        k + 1,
                    ));
                },
                None => {
                    assert(before =~= built(defs, i as int, kt, k + 1));
                },
            }
            k = k + 1;
        }
    }
}

/// The type graph of a schema: a node for each definition, by its index, and
/// an edge wherever the edge rules give one.
fn build_graph(schema: &Document, index: &SchemaIndex, stands: &Vec<Option<usize>>) -> (g: TypeGraph)
    requires
        index.schema() == schema@,
        stand_for(stands@, schema@),
    ensures
        graph_nodes(g) == schema@.len(),
        graph_edges(g) == type_edges(schema@),
{
    let ghost defs = schema@;
    let n: usize = schema.definitions.len();
    let mut g = graph_new();
    let mut i: usize = 0;
    while i < n
        invariant
            i <= n,
            graph_nodes(g) == i,
            graph_edges(g) == Set::<(int, int)>::empty(),
        decreases n - i,
    {
        graph_add_node(&mut g);
        i = i + 1;
    }
    proof {
        lemma_built_ends(defs);
    }
    i = 0;
    while i < n
        invariant
            i <= n,
            n == schema.definitions.len(),
            defs == schema@,
            index.schema() == defs,
            stand_for(stands@, defs),
            graph_nodes(g) == n,
            graph_edges(g) == built(defs, i as int, 0, 0),
        decreases n - i,
    {
        let ghost mut kt: int = 0;
        if let Definition::TypeDefinition(td) = &schema.definitions[i] {
            if let Some(j) = stands[i] {
                proof {
                    lemma_lookup(defs, defs[i as int].defined_name().unwrap());
                }
                if j == i {
                    add_forward_edges(&mut g, schema, index, i, td);
                    proof {
                        kt = td@.targets().len() as int;
                    }
                }
                add_reverse_edges(&mut g, schema, index, i, td, j, Ghost(kt));
            }
        }
        proof {
            lemma_built_next(defs, i as int, kt, defs[i as int].implements().len() as int);
        }
        i = i + 1;
    }
    proof {
        lemma_built_ends(defs);
    }
    g
}

/// `b` is among the first `limit` nodes found.
spec fn found_within(found: Seq<usize>, limit: int, b: int) -> bool {
    exists|i: int| 0 <= i < limit && i < found.len() && found[i] == b
}

/// Marks what the search found.
fn mark_found(used: &mut Vec<bool>, found: &Vec<usize>)
    requires
        forall|j: int| 0 <= j < found@.len() ==> #[trigger] found@[j] < old(used)@.len(),
    ensures
        final(used)@.len() == old(used)@.len(),
        forall|b: int|
            0 <= b < old(used)@.len() ==> #[trigger] final(used)@[b] == (old(used)@[b]
                || found_within(found@, found@.len() as int, b)),
{
    let mut j: usize = 0;
    while j < found.len()
        invariant
            j <= found.len(),
            used@.len() == old(used)@.len(),
            forall|m: int| 0 <= m < found@.len() ==> #[trigger] found@[m] < used@.len(),
            forall|b: int|
                0 <= b < used@.len() ==> #[trigger] used@[b] == (old(used)@[b] || found_within(
                    found@,
                    j as int,
                    b,
                )),
        decreases found.len() - j,
    {
        let v: usize = found[j];
        let ghost prior = used@;
        used.set(v, true);
        assert forall|b: int| 0 <= b < used@.len() implies #[trigger] used@[b] == (old(used)@[b]
            || found_within(found@, j + 1, b)) by {
            if b == v {
                assert(found@[j as int] == b);
            } else {
                assert(used@[b] == prior[b]);
                assert(found_within(found@, j + 1, b) == found_within(found@, j as int, b));
            }
        }
        j = j + 1;
    }
}

/// Marks each definition that some root reaches.
fn search(g: &TypeGraph, schema: &Document, index: &SchemaIndex, types: &[&str]) -> (used: Vec<bool>)
    requires
        index.schema() == schema@,
        graph_nodes(*g) == schema@.len(),
        graph_edges(*g) == type_edges(schema@),
    ensures
        mark_reached(used@, schema@, names(types@)),
{
    let ghost defs = schema@;
    let ghost roots = names(types@);
    let n: usize = schema.definitions.len();
    let mut used: Vec<bool> = Vec::new();
    while used.len() < n
        invariant
            used@.len() <= n,
            forall|b: int| 0 <= b < used@.len() ==> !used@[b],
        decreases n - used.len(),
    {
        used.push(false);
    }
    let mut r: usize = 0;
    while r < types.len()
        invariant
            r <= types.len(),
            defs == schema@,
            index.schema() == defs,
            roots == names(types@),
            graph_nodes(*g) == defs.len(),
            graph_edges(*g) == type_edges(defs),
            mark_reached(used@, defs, roots.take(r as int)),
        decreases types.len() - r,
    {
        let root: String = types[r].to_owned();
        assert(root@ == roots[r as int]);
        let ghost before = used@;
        if let Some(s) = index.find_type(&root) {
            let found = graph_dfs(g, s);
            proof {
                lemma_lookup(defs, root@);
                assert forall|j: int| 0 <= j < found@.len() implies #[trigger] found@[j]
                    < used@.len() by {
                    assert(reaches(edge_step(type_edges(defs)), s as int, found@[j] as int));
                    lemma_reaches_in_force(defs, s as int, found@[j] as int);
                }
            }
            mark_found(&mut used, &found);
            assert forall|b: int| 0 <= b < used@.len() implies #[trigger] used@[b] == reached(
                defs,
                roots.take(r + 1),
                b,
            ) by {
                lemma_root_added(defs, roots, r as int, b);
                assert(before[b] == reached(defs, roots.take(r as int), b));
                assert(root_reaches(defs, roots[r as int], b) == reaches(
                    edge_step(type_edges(defs)),
                    s as int,
                    b,
                ));
                assert(reaches(edge_step(type_edges(defs)), s as int, b) == found_within(
                    found@,
                    found@.len() as int,
                    b,
                ));
            }
        } else {
            assert forall|b: int| 0 <= b < used@.len() implies #[trigger] used@[b] == reached(
                defs,
                roots.take(r + 1),
                b,
            ) by {
                lemma_root_added(defs, roots, r as int, b);
            }
        }
        r = r + 1;
    }
    assert(roots.take(r as int) =~= roots);
    used
}

/// One more root reaches what the roots before it reach and what it reaches.
proof fn lemma_root_added(defs: Seq<DefinitionView>, roots: Seq<Seq<char>>, r: int, b: int)
    requires
        0 <= r < roots.len(),
    ensures
        reached(defs, roots.take(r + 1), b) == (reached(defs, roots.take(r), b) || root_reaches(
            defs,
            roots[r],
            b,
        )),
{
    let shorter = roots.take(r);
    let longer = roots.take(r + 1);
    if reached(defs, longer, b) {
        let w = choose|w: int| 0 <= w < longer.len() && root_reaches(defs, #[trigger] longer[w], b);
        if w < r {
            assert(root_reaches(defs, shorter[w], b));
        }
    }
    if reached(defs, shorter, b) {
        let w = choose|w: int|
            0 <= w < shorter.len() && root_reaches(defs, #[trigger] shorter[w], b);
        assert(root_reaches(defs, longer[w], b));
    }
    if root_reaches(defs, roots[r], b) {
        assert(root_reaches(defs, longer[r], b));
    }
}

/// The definition defines a type whose name stands for a marked definition.
spec fn marked(defs: Seq<DefinitionView>, used: Seq<bool>, d: DefinitionView) -> bool {
    d.defined_name() matches Some(n) && (lookup(defs, n) matches Some(b) && used[b])
}

/// The schema without the definitions that are not marked: a definition
/// stays if and only if its name stands for a marked definition.
spec fn stripped(defs: Seq<DefinitionView>, used: Seq<bool>) -> Seq<DefinitionView> {
    defs.filter(|d: DefinitionView| marked(defs, used, d))
}

/// Where the marking is what the roots reach, what stays is the focused
/// schema.
proof fn lemma_stripped_is_focused(defs: Seq<DefinitionView>, used: Seq<bool>, roots: Seq<Seq<char>>)
    requires
        mark_reached(used, defs, roots),
    ensures
        stripped(defs, used) == focused(defs, roots),
{
    let by_mark = |d: DefinitionView| marked(defs, used, d);
    let by_reach = |d: DefinitionView| retained(defs, roots, d);
    assert forall|d: DefinitionView| #[trigger] marked(defs, used, d) == retained(defs, roots, d) by {
        if let Some(n) = d.defined_name() {
            lemma_lookup(defs, n);
        }
    }
    assert(by_mark =~= by_reach);
}

/// Removes unused types from the schema: keeps the definitions whose name
/// stands for a marked definition, each as it was, in their order.
fn strip_unused_types(schema: Document, stands: &Vec<Option<usize>>, used: &Vec<bool>) -> (out:
    Document)
    requires
        stand_for(stands@, schema@),
        used@.len() == schema@.len(),
    ensures
        out@ == stripped(schema@, used@),
{
    let ghost defs = schema@;
    let ghost all = schema.definitions@;
    let ghost keep = |d: DefinitionView| marked(defs, used@, d);
    let n: usize = schema.definitions.len();
    let mut kept: Vec<Definition> = Vec::new();
    let mut i: usize = 0;
    assert(defs.take(0) =~= Seq::<DefinitionView>::empty());
    assert(defs.take(0).filter(keep) =~= Seq::<DefinitionView>::empty()) by {
        reveal(Seq::filter);
    }
    for def in it: schema.definitions
        invariant
            i == it.index(),
            it.seq() == all,
            n == all.len(),
            defs == all.map_values(|d: Definition| d@),
            keep == |d: DefinitionView| marked(defs, used@, d),
            stand_for(stands@, defs),
            used@.len() == n,
            kept@.map_values(|d: Definition| d@) == defs.take(i as int).filter(keep),
    {
        assert(def == all[i as int]);
        let ghost before = kept@;
        let retain = match stands[i] {
            Some(b) => {
                proof {
                    lemma_lookup(defs, defs[i as int].defined_name().unwrap());
                }
                used[b]
            },
            None => false,
        };
        assert(retain == keep(defs[i as int]));
        proof {
            assert(defs.take(i + 1) =~= defs.take(i as int).push(defs[i as int]));
            defs.take(i as int).lemma_filter_push(defs[i as int], keep);
        }
        if retain {
            kept.push(def);
            assert(kept@.map_values(|d: Definition| d@) =~= before.map_values(
                |d: Definition| d@,
            ).push(def@));
        }
        i = i + 1;
    }
    assert(defs.take(n as int) =~= defs);
    Document { definitions: kept }
}

/// Where the schema defines none of the roots, nothing is left.
pub proof fn lemma_no_root_nothing(defs: Seq<DefinitionView>, roots: Seq<Seq<char>>)
    requires
        forall|r: int| 0 <= r < roots.len() ==> lookup(defs, #[trigger] roots[r]) is None,
    ensures
        focused(defs, roots) == Seq::<DefinitionView>::empty(),
{
    let keep = |d: DefinitionView| retained(defs, roots, d);
    if focused(defs, roots).len() > 0 {
        defs.lemma_filter_pred(keep, 0);
        let d = focused(defs, roots)[0];
        assert(keep(d));
        let b = lookup(defs, d.defined_name().unwrap()).unwrap();
        let r = choose|r: int| 0 <= r < roots.len() && root_reaches(defs, #[trigger] roots[r], b);
    }
    assert(focused(defs, roots) =~= Seq::<DefinitionView>::empty());
}

/// What a definition in force reaches is a definition in force.
pub proof fn lemma_reaches_in_force(defs: Seq<DefinitionView>, s: int, b: int)
    requires
        in_force(defs, s),
        reaches(edge_step(type_edges(defs)), s, b),
    ensures
        in_force(defs, b),
{
    let step = edge_step(type_edges(defs));
    let inv = |x: int| in_force(defs, x);
    assert forall|x: int, y: int| inv(x) && #[trigger] step(x, y) implies inv(y) by {
        lemma_edge_ends(defs, x, y);
    }
    lemma_reaches_induct(step, inv, s, b);
}

/// What a root reaches, and what that reaches in turn, a root reaches.
pub proof fn lemma_reached_closed(defs: Seq<DefinitionView>, roots: Seq<Seq<char>>, a: int, b: int)
    requires
        reached(defs, roots, a),
        reaches(edge_step(type_edges(defs)), a, b),
    ensures
        reached(defs, roots, b),
{
    let r = choose|r: int| 0 <= r < roots.len() && root_reaches(defs, #[trigger] roots[r], a);
    let s = lookup(defs, roots[r]).unwrap();
    crate::reach::lemma_reaches_trans(edge_step(type_edges(defs)), s, a, b);
    assert(root_reaches(defs, roots[r], b));
}

/// A definition that a root reaches is in the result, and so is every other
/// definition of the same name.
pub proof fn lemma_reached_is_kept(defs: Seq<DefinitionView>, roots: Seq<Seq<char>>, b: int, i: int)
    requires
        reached(defs, roots, b),
        0 <= i < defs.len(),
        0 <= b < defs.len(),
        defs[i].defined_name() == defs[b].defined_name(),
    ensures
        focused(defs, roots).contains(defs[i]),
{
    let r = choose|r: int| 0 <= r < roots.len() && root_reaches(defs, #[trigger] roots[r], b);
    lemma_lookup(defs, roots[r]);
    lemma_reaches_in_force(defs, lookup(defs, roots[r]).unwrap(), b);
    let keep = |d: DefinitionView| retained(defs, roots, d);
    assert(keep(defs[i]));
    defs.lemma_filter_contains(keep, i);
}

/// Soundness: each definition of the result defines a type, and a finite
/// walk along edges of the type graph leads from the definition that some
/// root stands for to the definition that its name stands for.
pub proof fn lemma_focus_sound(defs: Seq<DefinitionView>, roots: Seq<Seq<char>>, k: int)
    requires
        0 <= k < focused(defs, roots).len(),
    ensures
        focused(defs, roots)[k].defined_name() matches Some(name) && exists|
            r: int,
            walk: Seq<int>,
        |
            {
                &&& 0 <= r < roots.len()
                &&& #[trigger] crate::reach::is_path(edge_step(type_edges(defs)), walk)
                &&& lookup(defs, #[trigger] roots[r]) == Some(walk.first())
                &&& lookup(defs, name) == Some(walk.last())
            },
{
    let keep = |d: DefinitionView| retained(defs, roots, d);
    defs.lemma_filter_pred(keep, k);
    let d = focused(defs, roots)[k];
    assert(keep(d));
    let name = d.defined_name().unwrap();
    let b = lookup(defs, name).unwrap();
    let r = choose|r: int| 0 <= r < roots.len() && root_reaches(defs, #[trigger] roots[r], b);
    let s = lookup(defs, roots[r]).unwrap();
    let step = edge_step(type_edges(defs));
    let walk = choose|p: Seq<int>|
        #[trigger] crate::reach::is_path(step, p) && p.first() == s && p.last() == b;
    assert(crate::reach::is_path(step, walk) && lookup(defs, roots[r]) == Some(walk.first())
        && lookup(defs, name) == Some(walk.last()));
}

/// Completeness: the result leaves no reference dangling that the schema
/// resolves. Where a root reaches definition `a`, and `a` names the type that
/// definition `b` stands for, as a field's base type, an implemented interface
/// or a union member, or `a` is an interface that `b` implements, a root
/// reaches `b` too, and `b` is in the result.
pub proof fn lemma_focus_complete(defs: Seq<DefinitionView>, roots: Seq<Seq<char>>, a: int, b: int)
    requires
        reached(defs, roots, a),
        type_edge(defs, a, b),
    ensures
        reached(defs, roots, b),
        0 <= b < defs.len(),
        focused(defs, roots).contains(defs[b]),
{
    let step = edge_step(type_edges(defs));
    crate::reach::lemma_reaches_self(step, a);
    crate::reach::lemma_reaches_then_step(step, a, a, b);
    lemma_reached_closed(defs, roots, a, b);
    lemma_edge_ends(defs, a, b);
    lemma_reached_is_kept(defs, roots, b, b);
}

/// Interface symmetry, from the interface: where a root reaches interface
/// `i` and definition `d` says that it implements `i`, the root reaches the
/// definition that the name of `d` stands for, and `d` is in the result.
pub proof fn lemma_interface_brings_implementers(
    defs: Seq<DefinitionView>,
    roots: Seq<Seq<char>>,
    i: int,
    d: int,
    k: int,
)
    requires
        reached(defs, roots, i),
        0 <= i < defs.len(),
        defs[i].is_interface(),
        0 <= d < defs.len(),
        0 <= k < defs[d].implements().len(),
        lookup(defs, defs[d].implements()[k]@) == Some(i),
    ensures
        owner(defs, d) matches Some(b) && reached(defs, roots, b),
        focused(defs, roots).contains(defs[d]),
{
    assert(declares(defs, d, i));
    lemma_lookup(defs, defs[d].defined_name().unwrap());
    let b = owner(defs, d).unwrap();
    assert(implemented_by(defs, i, b));
    lemma_focus_complete(defs, roots, i, b);
    lemma_reached_is_kept(defs, roots, b, d);
}

/// Interface symmetry, from the implementer: where a root reaches definition
/// `b`, it reaches each interface that `b` says it implements and the schema
/// defines.
pub proof fn lemma_implementer_brings_interfaces(
    defs: Seq<DefinitionView>,
    roots: Seq<Seq<char>>,
    b: int,
    i: int,
    k: int,
)
    requires
        reached(defs, roots, b),
        0 <= b < defs.len(),
        0 <= k < defs[b].implements().len(),
        lookup(defs, defs[b].implements()[k]@) == Some(i),
    ensures
        reached(defs, roots, i),
        0 <= i < defs.len(),
        focused(defs, roots).contains(defs[i]),
{
    let r = choose|r: int| 0 <= r < roots.len() && root_reaches(defs, #[trigger] roots[r], b);
    lemma_lookup(defs, roots[r]);
    lemma_reaches_in_force(defs, lookup(defs, roots[r]).unwrap(), b);
    let own = defs[b].fields().len();
    assert(defs[b].targets()[own + k] == defs[b].implements()[k]);
    assert(points_to(defs, b, i));
    lemma_focus_complete(defs, roots, b, i);
}

} // verus!
