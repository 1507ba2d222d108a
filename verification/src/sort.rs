//! Sorting the definitions of a schema by kind and name.

use vstd::prelude::*;
use vstd::utf8::encode_utf8;
use crate::schema::Definition;
use crate::schema::DefinitionView;
use crate::schema::Document;
use crate::util::schema_type_definition_name;

verus! {

/// What a definition is sorted by: the rank of its kind, then its name as
/// bytes.
pub struct SortKey {
    pub category: int,
    pub name: Seq<u8>,
}

/// The key of a definition. Schema blocks come first, then directive
/// definitions, type definitions and type extensions. A directive or type
/// definition has its name; a schema block and a type extension have the
/// empty name.
pub open spec fn sort_key(d: DefinitionView) -> SortKey {
    match d {
        DefinitionView::SchemaDefinition(_) => SortKey {
            category: 0,
            name: encode_utf8(Seq::empty()),
        },
        DefinitionView::DirectiveDefinition(dir) => SortKey {
            category: 1,
            name: encode_utf8(dir.name@),
        },
        DefinitionView::TypeDefinition(t) => SortKey { category: 2, name: encode_utf8(t.name()@) },
        DefinitionView::TypeExtension(_) => SortKey { category: 3, name: encode_utf8(Seq::empty()) },
    }
}

/// The first index from `i` on at which the two differ or one of them ends.
pub open spec fn mismatch_from(a: Seq<u8>, b: Seq<u8>, i: int) -> int
    decreases a.len() - i,
{
    if i < 0 || i >= a.len() || i >= b.len() || a[i] != b[i] {
        i
    } else {
        mismatch_from(a, b, i + 1)
    }
}

/// `a` comes before `b` in the order of byte strings: at the first index
/// where they differ `a` has the smaller byte, or `a` ends there and `b`
/// goes on.
pub open spec fn bytes_before(a: Seq<u8>, b: Seq<u8>) -> bool {
    let m = mismatch_from(a, b, 0);
    m < b.len() && (m == a.len() || a[m] < b[m])
}

pub open spec fn key_before(a: SortKey, b: SortKey) -> bool {
    a.category < b.category || (a.category == b.category && bytes_before(a.name, b.name))
}

/// Definition `i` comes before definition `j` in the sorted schema: by its
/// key, and between equal keys by its place in the source.
pub open spec fn precedes(defs: Seq<DefinitionView>, i: int, j: int) -> bool {
    let a = sort_key(defs[i]);
    let b = sort_key(defs[j]);
    key_before(a, b) || (!key_before(b, a) && i < j)
}

/// `order` lists indices of definitions, as many as there are definitions,
/// each before the next.
pub open spec fn is_sort_order(defs: Seq<DefinitionView>, order: Seq<int>) -> bool {
    &&& order.len() == defs.len()
    &&& forall|k: int| 0 <= k < order.len() ==> 0 <= #[trigger] order[k] < defs.len()
    &&& forall|k: int, l: int|
        0 <= k < l < order.len() ==> precedes(defs, #[trigger] order[k], #[trigger] order[l])
}

/// The definitions in the given order.
pub open spec fn arranged(defs: Seq<DefinitionView>, order: Seq<int>) -> Seq<DefinitionView> {
    order.map_values(|i: int| defs[i])
}

/// `out` is `defs` sorted: its definitions, by key, those with equal keys in
/// their order in `defs`.
pub open spec fn is_sorted(defs: Seq<DefinitionView>, out: Seq<DefinitionView>) -> bool {
    exists|order: Seq<int>| #[trigger] is_sort_order(defs, order) && out == arranged(defs, order)
}

/// An index as contracts count it.
pub open spec fn indices(order: Seq<usize>) -> Seq<int> {
    order.map_values(|i: usize| i as int)
}

/// Sorts the definitions of a schema by kind and name: schema blocks, then
/// directive definitions by name, then type definitions by name, then type
/// extensions. Names are ordered as strings are, byte by byte. Definitions
/// with equal keys keep their order.
pub fn process(schema: Document) -> (out: Document)
    ensures
        is_sorted(schema@, out@),
{
    let ghost defs = schema@;
    let ghost all = schema.definitions@;
    let order = sort_order(&schema);
    let n: usize = schema.definitions.len();
    let mut slots: Vec<Option<Definition>> = Vec::new();
    let mut i: usize = 0;
    for def in it: schema.definitions
        invariant
            i == it.index(),
            it.seq() == all,
            n == all.len(),
            slots@.len() == i,
            forall|j: int| 0 <= j < i ==> slots@[j] == Some(all[j]),
    {
        slots.push(Some(def));
        i = i + 1;
    }
    let mut sorted_definitions: Vec<Definition> = Vec::new();
    let mut k: usize = 0;
    while k < n
        invariant
            k <= n,
            n == all.len(),
            defs == all.map_values(|d: Definition| d@),
            is_sort_order(defs, indices(order@)),
            slots@.len() == n,
            forall|j: int|
                0 <= j < n ==> #[trigger] slots@[j] == if taken(order@, k as int, j) {
                    None
                } else {
                    Some(all[j])
                },
            sorted_definitions@.len() == k,
            forall|m: int|
                0 <= m < k ==> (#[trigger] sorted_definitions@[m])@ == defs[order@[m] as int],
        decreases n - k,
    {
        let j: usize = order[k];
        proof {
            let listed = indices(order@);
            assert(0 <= listed[k as int] < defs.len());
            if taken(order@, k as int, j as int) {
                let m = choose|m: int| 0 <= m < k && m < order@.len() && order@[m] == j;
                assert(precedes(defs, listed[m], listed[k as int]));
                lemma_precedes_irreflexive(defs, j as int);
            }
        }
        let ghost before = slots@;
        let slot = slots[j].take();
        assert(slots@ == before.update(j as int, None));
        if let Some(def) = slot {
            sorted_definitions.push(def);
        }
        proof {
            assert forall|x: int| 0 <= x < n implies #[trigger] slots@[x] == if taken(
                order@,
                k + 1,
                x,
            ) {
                None
            } else {
                Some(all[x])
            } by {
                if x == j {
                    assert(order@[k as int] == x);
                } else {
                    assert(taken(order@, k + 1, x) == taken(order@, k as int, x));
                }
            }
        }
        k = k + 1;
    }
    let out = Document { definitions: sorted_definitions };
    proof {
        let listed = indices(order@);
        assert(out@ =~= arranged(defs, listed));
    }
    out
}

/// The order in which sorting puts the definitions: their indices, sorted by
/// key, equal keys in the order of the source.
pub fn sort_order(schema: &Document) -> (order: Vec<usize>)
    ensures
        is_sort_order(schema@, indices(order@)),
{
    let ghost defs = schema@;
    let unnamed = String::new();
    let n: usize = schema.definitions.len();
    let mut order: Vec<usize> = Vec::new();
    let mut i: usize = 0;
    while i < n
        invariant
            i <= n,
            n == schema.definitions@.len(),
            defs == schema@,
            unnamed@ == Seq::<char>::empty(),
            order@.len() == i,
            forall|k: int| 0 <= k < order@.len() ==> #[trigger] order@[k] < i,
            forall|k: int, l: int|
                0 <= k < l < order@.len() ==> precedes(
                    defs,
                    #[trigger] order@[k] as int,
                    #[trigger] order@[l] as int,
                ),
        decreases n - i,
    {
        let def = &schema.definitions[i];
        let mut p: usize = order.len();
        while p > 0 && definition_before(def, &schema.definitions[order[p - 1]], &unnamed)
            invariant
                p <= order@.len(),
                i < n,
                n == schema.definitions@.len(),
                defs == schema@,
                *def == schema.definitions@[i as int],
                unnamed@ == Seq::<char>::empty(),
                forall|k: int| 0 <= k < order@.len() ==> #[trigger] order@[k] < i,
                forall|k: int|
                    p <= k < order@.len() ==> key_before(
                        sort_key(defs[i as int]),
                        sort_key(defs[#[trigger] order@[k] as int]),
                    ),
            decreases p,
        {
            p = p - 1;
        }
        let ghost before = order@;
        order.insert(p, i);
        proof {
            assert forall|k: int, l: int| 0 <= k < l < order@.len() implies precedes(
                defs,
                #[trigger] order@[k] as int,
                #[trigger] order@[l] as int,
            ) by {
                let here = sort_key(defs[i as int]);
                if l == p {
                    let other = sort_key(defs[before[k] as int]);
                    let nearest = sort_key(defs[before[p - 1] as int]);
                    if k < p - 1 {
                        assert(precedes(defs, before[k] as int, before[p - 1] as int));
                    }
                    lemma_key_order(here, nearest, other);
                    lemma_key_order(other, nearest, here);
                } else if k == p {
                    let other = sort_key(defs[before[l - 1] as int]);
                    lemma_key_order(here, other, here);
                } else {
                    let kk = if k < p {
                        k
                    } else {
                        k - 1
                    };
                    let ll = if l < p {
                        l
                    } else {
                        l - 1
                    };
                    assert(precedes(defs, before[kk] as int, before[ll] as int));
                }
            }
        }
        i = i + 1;
    }
    proof {
        let listed = indices(order@);
        assert forall|k: int, l: int| 0 <= k < l < listed.len() implies precedes(
            defs,
            #[trigger] listed[k],
            #[trigger] listed[l],
        ) by {
            assert(precedes(defs, order@[k] as int, order@[l] as int));
        }
    }
    order
}

/// Whether the key of `a` comes before the key of `b`.
fn definition_before(a: &Definition, b: &Definition, unnamed: &String) -> (yes: bool)
    requires
        unnamed@ == Seq::<char>::empty(),
    ensures
        yes == key_before(sort_key(a@), sort_key(b@)),
{
    let ca: u8 = category_of(a);
    let cb: u8 = category_of(b);
    if ca != cb {
        ca < cb
    } else {
        bytes_precede(name_of(a, unnamed), name_of(b, unnamed))
    }
}

/// The rank of a definition's kind.
fn category_of(d: &Definition) -> (category: u8)
    ensures
        category == sort_key(d@).category,
{
    match d {
        Definition::SchemaDefinition(_) => 0,
        Definition::DirectiveDefinition(_) => 1,
        Definition::TypeDefinition(_) => 2,
        Definition::TypeExtension(_) => 3,
    }
}

/// The name that a definition is sorted by, as bytes; `unnamed` is empty and
/// stands in where the definition has no name to sort by.
fn name_of<'a>(d: &'a Definition, unnamed: &'a String) -> (name: &'a [u8])
    requires
        unnamed@ == Seq::<char>::empty(),
    ensures
        name@ == sort_key(d@).name,
{
    let name: &String = match d {
        Definition::SchemaDefinition(_) => unnamed,
        Definition::DirectiveDefinition(dir) => &dir.name,
        Definition::TypeDefinition(td) => match schema_type_definition_name(td) {
            Some(name) => name,
            None => unnamed,
        },
        Definition::TypeExtension(_) => unnamed,
    };
    name.as_str().as_bytes()
}

/// Whether `a` comes before `b` in the order of byte strings.
fn bytes_precede(a: &[u8], b: &[u8]) -> (yes: bool)
    ensures
        yes == bytes_before(a@, b@),
{
    let mut i: usize = 0;
    while i < a.len() && i < b.len()
        invariant
            i <= a@.len(),
            i <= b@.len(),
            forall|j: int| 0 <= j < i ==> a@[j] == b@[j],
        decreases a@.len() - i,
    {
        if a[i] != b[i] {
            proof {
                lemma_mismatch_is(a@, b@, i as int);
            }
            return a[i] < b[i];
        }
        i = i + 1;
    }
    proof {
        lemma_mismatch_is(a@, b@, i as int);
    }
    i < b.len()
}

/// `j` is among the first `limit` indices of the order.
spec fn taken(order: Seq<usize>, limit: int, j: int) -> bool {
    exists|k: int| 0 <= k < limit && k < order.len() && order[k] == j
}

/// What `mismatch_from` finds: up to there the two agree, and there they
/// differ unless one ends.
pub proof fn lemma_mismatch(a: Seq<u8>, b: Seq<u8>, i: int)
    requires
        0 <= i <= a.len(),
        i <= b.len(),
    ensures
        i <= mismatch_from(a, b, i) <= a.len(),
        mismatch_from(a, b, i) <= b.len(),
        forall|j: int| i <= j < mismatch_from(a, b, i) ==> a[j] == b[j],
        mismatch_from(a, b, i) < a.len() && mismatch_from(a, b, i) < b.len() ==> a[mismatch_from(
            a,
            b,
            i,
        )] != b[mismatch_from(a, b, i)],
    decreases a.len() - i,
{
    if i < a.len() && i < b.len() && a[i] == b[i] {
        lemma_mismatch(a, b, i + 1);
    }
}

/// Only one index is as `lemma_mismatch` says.
pub proof fn lemma_mismatch_is(a: Seq<u8>, b: Seq<u8>, k: int)
    requires
        0 <= k <= a.len(),
        k <= b.len(),
        forall|j: int| 0 <= j < k ==> a[j] == b[j],
        k < a.len() && k < b.len() ==> a[k] != b[k],
    ensures
        mismatch_from(a, b, 0) == k,
{
    lemma_mismatch(a, b, 0);
}

/// The order of keys is a strict weak order: nothing comes before itself or
/// before what comes before it, and what does not come before is transitive.
pub proof fn lemma_key_order(a: SortKey, b: SortKey, c: SortKey)
    ensures
        !key_before(a, a),
        key_before(a, b) ==> !key_before(b, a),
        !key_before(a, b) && !key_before(b, c) ==> !key_before(a, c),
{
    lemma_mismatch(a.name, a.name, 0);
    lemma_mismatch(a.name, b.name, 0);
    lemma_mismatch(b.name, a.name, 0);
    lemma_mismatch(b.name, c.name, 0);
    lemma_mismatch(a.name, c.name, 0);
    let ab = mismatch_from(a.name, b.name, 0);
    let ba = mismatch_from(b.name, a.name, 0);
    let bc = mismatch_from(b.name, c.name, 0);
    let ac = mismatch_from(a.name, c.name, 0);
    lemma_mismatch_is(b.name, a.name, ab);
    if !key_before(a, b) && !key_before(b, c) && a.category == b.category && b.category
        == c.category {
        if ac < ab && ac < bc {
            assert(a.name[ac] == b.name[ac]);
            assert(b.name[ac] == c.name[ac]);
        } else if ab < bc {
            assert(b.name[ab] == c.name[ab]);
            if ac > ab {
                assert(a.name[ab] == c.name[ab]);
            }
        } else if bc < ab {
            assert(a.name[bc] == b.name[bc]);
            if ac > bc {
                assert(a.name[bc] == c.name[bc]);
            }
        } else {
            if ac > ab {
                assert(a.name[ab] == c.name[ab]);
            }
        }
    }
}

/// No definition precedes itself.
pub proof fn lemma_precedes_irreflexive(defs: Seq<DefinitionView>, i: int)
    ensures
        !precedes(defs, i, i),
{
    lemma_key_order(sort_key(defs[i]), sort_key(defs[i]), sort_key(defs[i]));
}

/// Of two definitions none precedes the other both ways, and of two different
/// ones one precedes the other.
pub proof fn lemma_precedes_total(defs: Seq<DefinitionView>, i: int, j: int)
    ensures
        !(precedes(defs, i, j) && precedes(defs, j, i)),
        i != j ==> precedes(defs, i, j) || precedes(defs, j, i),
{
    lemma_key_order(sort_key(defs[i]), sort_key(defs[j]), sort_key(defs[i]));
    lemma_key_order(sort_key(defs[j]), sort_key(defs[i]), sort_key(defs[j]));
}

/// A sort order lists every definition.
pub proof fn lemma_sort_order_onto(defs: Seq<DefinitionView>, order: Seq<int>, j: int)
    requires
        is_sort_order(defs, order),
        0 <= j < defs.len(),
    ensures
        exists|m: int| 0 <= m < order.len() && order[m] == j,
{
    assert forall|k: int, l: int| 0 <= k < order.len() && 0 <= l < order.len() && k != l implies order[k]
        != order[l] by {
        lemma_precedes_irreflexive(defs, order[k]);
        if k < l {
            assert(precedes(defs, order[k], order[l]));
        } else {
            assert(precedes(defs, order[l], order[k]));
        }
    }
    order.unique_seq_to_set();
    let all = vstd::set_lib::set_int_range(0, defs.len() as int);
    vstd::set_lib::lemma_int_range(0, defs.len() as int);
    assert forall|x: int| order.to_set().contains(x) implies all.contains(x) by {
        let m = choose|m: int| 0 <= m < order.len() && order[m] == x;
    }
    vstd::set_lib::lemma_len_subset(order.to_set(), all);
    vstd::set_lib::lemma_subset_equality(order.to_set(), all);
    assert(all.contains(j));
    assert(order.to_set().contains(j));
}

/// Two sort orders of one schema agree at every place.
proof fn lemma_sort_orders_agree(defs: Seq<DefinitionView>, one: Seq<int>, other: Seq<int>, k: int)
    requires
        is_sort_order(defs, one),
        is_sort_order(defs, other),
        0 <= k < defs.len(),
    ensures
        one[k] == other[k],
    decreases k,
{
    assert forall|m: int| 0 <= m < k implies one[m] == other[m] by {
        lemma_sort_orders_agree(defs, one, other, m);
    }
    if one[k] != other[k] {
        lemma_precedes_total(defs, one[k], other[k]);
        lemma_precedes_irreflexive(defs, one[k]);
        lemma_precedes_irreflexive(defs, other[k]);
        if precedes(defs, one[k], other[k]) {
            lemma_sort_order_onto(defs, other, one[k]);
            let m = choose|m: int| 0 <= m < other.len() && other[m] == one[k];
            if m < k {
                assert(precedes(defs, one[m], one[k]));
            } else {
                assert(precedes(defs, other[k], other[m]));
            }
        } else {
            lemma_sort_order_onto(defs, one, other[k]);
            let m = choose|m: int| 0 <= m < one.len() && one[m] == other[k];
            if m < k {
                assert(precedes(defs, other[m], other[k]));
            } else {
                assert(precedes(defs, one[k], one[m]));
            }
        }
    }
}

/// A schema has one sorted form, no more.
pub proof fn lemma_sorted_unique(
    defs: Seq<DefinitionView>,
    one: Seq<DefinitionView>,
    other: Seq<DefinitionView>,
)
    requires
        is_sorted(defs, one),
        is_sorted(defs, other),
    ensures
        one == other,
{
    let a = choose|order: Seq<int>| #[trigger] is_sort_order(defs, order) && one == arranged(defs, order);
    let b = choose|order: Seq<int>| #[trigger]
        is_sort_order(defs, order) && other == arranged(defs, order);
    assert forall|k: int| 0 <= k < a.len() implies a[k] == b[k] by {
        lemma_sort_orders_agree(defs, a, b, k);
    }
    assert(a =~= b);
}

} // verus!
