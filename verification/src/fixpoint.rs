//! Pruning is idempotent where it leaves the walk its way: a schema cut down
//! to what a query uses is, for the same query, already cut down, as long as
//! every type stays defined under which the walk follows a fragment.

use vstd::prelude::*;
use crate::filter::lemma_filter_all;
use crate::index::lemma_lookup;
use crate::index::lookup;
use crate::prune::any_used;
use crate::prune::keeps_field;
use crate::prune::pruned;
use crate::prune::pruned_definition;
use crate::prune::pruned_with;
use crate::prune::used_through;
use crate::query::Definition;
use crate::query::Document;
use crate::query::Selection;
use crate::reach::lemma_reaches_induct;
use crate::reach::lemma_reaches_self;
use crate::reach::lemma_reaches_then_step;
use crate::reach::reaches;
use crate::schema::DefinitionView;
use crate::schema::Field;
use crate::schema::TypeDefinitionView;
use crate::usage::child;
use crate::usage::declared_fields;
use crate::usage::feeds;
use crate::usage::first_named;
use crate::usage::input_reaches;
use crate::usage::input_step;
use crate::usage::is_root_visit;
use crate::usage::item_marks;
use crate::usage::item_uses;
use crate::usage::leads;
use crate::usage::lemma_first_named;
use crate::usage::lemma_visited_leads;
use crate::usage::lemma_visited_root;
use crate::usage::marks;
use crate::usage::operation_kind;
use crate::usage::operation_visit;
use crate::usage::OperationKind;
use crate::usage::named_root;
use crate::usage::root_name;
use crate::usage::selected_field;
use crate::usage::used_fields;
use crate::usage::uses_field;
use crate::usage::Visit;
use crate::usage::visit_step;
use crate::usage::visited;
use crate::used::records_use;
use crate::used::Usage;

verus! {

/// `larger` holds every type and every field use that `smaller` holds.
pub open spec fn within(
    smaller: Usage,
    larger: Usage,
) -> bool {
    &&& forall|ty: Seq<char>| #[trigger] smaller.dom().contains(ty) ==> larger.dom().contains(ty)
    &&& forall|ty: Seq<char>, f: Seq<char>| #[trigger]
        records_use(smaller, ty, f) ==> records_use(larger, ty, f)
}

/// The first field of a name, as the field itself.
spec fn first_field(fields: Seq<Field>, name: Seq<char>) -> Option<Field> {
    match first_named(fields, name) {
        Some(k) => Some(fields[k]),
        None => None,
    }
}

/// A filter that keeps every field of a name keeps the first of that name
/// first.
proof fn lemma_first_field_kept(fields: Seq<Field>, name: Seq<char>, keep: spec_fn(Field) -> bool)
    requires
        forall|i: int| 0 <= i < fields.len() && (#[trigger] fields[i]).name@ == name ==> keep(fields[i]),
    ensures
        first_field(fields.filter(keep), name) == first_field(fields, name),
    decreases fields.len(),
{
    reveal(Seq::filter);
    if fields.len() > 0 {
        let rest = fields.drop_last();
        let last = fields.last();
        assert forall|i: int| 0 <= i < rest.len() && (#[trigger] rest[i]).name@ == name implies keep(
            rest[i],
        ) by {
            assert(rest[i] == fields[i]);
        }
        lemma_first_field_kept(rest, name, keep);
        lemma_first_named(rest, name);
        lemma_first_named(rest.filter(keep), name);
        if keep(last) {
            let cut = rest.filter(keep).push(last);
            assert(cut.drop_last() =~= rest.filter(keep));
            assert(cut.last() == last);
        } else {
            assert(fields[fields.len() - 1] == last);
        }
    }
}

/// Cutting a definition down leaves what it defines: the same name, the same
/// kind, the same fields of an input object, and every field whose name is
/// used on the type.
proof fn lemma_pruned_definition_keeps(used: Usage, d: DefinitionView)
    requires
        pruned_definition(used, d) is Some,
    ensures
        pruned_definition(used, d).unwrap().defined_name() == d.defined_name(),
        pruned_definition(used, d).unwrap().input_fields() == d.input_fields(),
        (pruned_definition(used, d).unwrap() is SchemaDefinition) == (d is SchemaDefinition),
        d is SchemaDefinition ==> pruned_definition(used, d).unwrap() == d,
        forall|name: Seq<char>|
            d.defined_name() is Some && #[trigger] records_use(
                used,
                d.defined_name().unwrap(),
                name,
            ) ==> first_field(pruned_definition(used, d).unwrap().fields(), name) == first_field(
                d.fields(),
                name,
            ),
{
    assert forall|name: Seq<char>|
        d.defined_name() is Some && #[trigger] records_use(
            used,
            d.defined_name().unwrap(),
            name,
        ) implies first_field(pruned_definition(used, d).unwrap().fields(), name) == first_field(
        d.fields(),
        name,
    ) by {
        match d {
            DefinitionView::TypeDefinition(TypeDefinitionView::Object(t)) => {
                lemma_first_field_kept(
                    t.fields,
                    name,
                    |f: Field| keeps_field(used, t.name@, t.implements_interfaces@, f),
                );
            },
            DefinitionView::TypeDefinition(TypeDefinitionView::Interface(t)) => {
                lemma_first_field_kept(
                    t.fields,
                    name,
                    |f: Field| keeps_field(used, t.name@, Seq::empty(), f),
                );
            },
            _ => {},
        }
    }
}

/// A type definition whose name is marked stays.
proof fn lemma_marked_stays(used: Usage, d: DefinitionView)
    requires
        d.defined_name() matches Some(n) && used.dom().contains(n),
    ensures
        pruned_definition(used, d) is Some,
{
}

/// Cutting down takes the definitions one at a time.
proof fn lemma_pruned_with_push(defs: Seq<DefinitionView>, used: Usage)
    requires
        defs.len() > 0,
    ensures
        pruned_with(defs, used) == match pruned_definition(used, defs.last()) {
            Some(d) => pruned_with(defs.drop_last(), used).push(d),
            None => pruned_with(defs.drop_last(), used),
        },
{
    let rest = pruned_with(defs.drop_last(), used);
    if let Some(d) = pruned_definition(used, defs.last()) {
        assert(rest + seq![d] =~= rest.push(d));
    }
}

/// A marked name stands in the pruned schema for what became of the
/// definition that it stood for; a name that stood for nothing stands for
/// nothing.
proof fn lemma_lookup_pruned(defs: Seq<DefinitionView>, used: Usage, name: Seq<char>)
    ensures
        lookup(defs, name) is None ==> lookup(pruned_with(defs, used), name) is None,
        used.dom().contains(name) ==> match lookup(defs, name) {
            Some(i) => lookup(pruned_with(defs, used), name) matches Some(j) && 0 <= i < defs.len()
                && 0 <= j < pruned_with(defs, used).len() && pruned_definition(used, defs[i])
                == Some(pruned_with(defs, used)[j]),
            None => true,
        },
    decreases defs.len(),
{
    if defs.len() > 0 {
        let rest = defs.drop_last();
        let last = defs.last();
        lemma_lookup_pruned(rest, used, name);
        lemma_pruned_with_push(defs, used);
        lemma_lookup(rest, name);
        let cut_rest = pruned_with(rest, used);
        if let Some(d) = pruned_definition(used, last) {
            lemma_pruned_definition_keeps(used, last);
            let cut = cut_rest.push(d);
            assert(cut.drop_last() =~= cut_rest);
            assert(cut.last() == d);
            if last.defined_name() != Some(name) {
                if used.dom().contains(name) {
                    if let Some(i) = lookup(rest, name) {
                        let j = lookup(cut_rest, name).unwrap();
                        assert(cut[j] == cut_rest[j]);
                        assert(rest[i] == defs[i]);
                    }
                }
            }
        } else {
            if last.defined_name() == Some(name) {
                if used.dom().contains(name) {
                    lemma_marked_stays(used, last);
                }
            } else {
                if used.dom().contains(name) {
                    if let Some(i) = lookup(rest, name) {
                        assert(rest[i] == defs[i]);
                    }
                }
            }
        }
    }
}

/// The pruned schema names the same root types.
proof fn lemma_root_name_pruned(defs: Seq<DefinitionView>, used: Usage, kind: OperationKind)
    ensures
        named_root(pruned_with(defs, used), kind) == named_root(defs, kind),
        root_name(pruned_with(defs, used), kind) == root_name(defs, kind),
    decreases defs.len(),
{
    if defs.len() > 0 {
        let rest = defs.drop_last();
        let last = defs.last();
        lemma_root_name_pruned(rest, used, kind);
        lemma_pruned_with_push(defs, used);
        let cut_rest = pruned_with(rest, used);
        if let Some(d) = pruned_definition(used, last) {
            lemma_pruned_definition_keeps(used, last);
            let cut = cut_rest.push(d);
            assert(cut.drop_last() =~= cut_rest);
            assert(cut.last() == d);
        }
    }
}

/// A field that the query uses on a type is, in the pruned schema, still the
/// field of that name that the type declares.
proof fn lemma_selected_field_pruned(
    defs: Seq<DefinitionView>,
    used: Usage,
    parent: Seq<char>,
    name: Seq<char>,
)
    requires
        records_use(used, parent, name),
        selected_field(defs, parent, name) is Some,
    ensures
        selected_field(pruned_with(defs, used), parent, name) == selected_field(defs, parent, name),
{
    lemma_lookup_pruned(defs, used, parent);
    lemma_lookup(defs, parent);
    lemma_first_named(Seq::<Field>::empty(), name);
    let i = lookup(defs, parent).unwrap();
    let cut = pruned_with(defs, used);
    let j = lookup(cut, parent).unwrap();
    lemma_pruned_definition_keeps(used, defs[i]);
    assert(defs[i].defined_name() == Some(parent));
    assert(records_use(used, defs[i].defined_name().unwrap(), name));
    assert(pruned_definition(used, defs[i]).unwrap() == cut[j]);
    assert(declared_fields(cut, parent) == cut[j].fields());
    assert(declared_fields(defs, parent) == defs[i].fields());
    assert(first_field(declared_fields(pruned_with(defs, used), parent), name) == first_field(
        declared_fields(defs, parent),
        name,
    ));
}

/// What an argument pulls in over the schema it pulls in over the pruned
/// schema, where all of it is marked.
proof fn lemma_input_reaches_pruned(
    defs: Seq<DefinitionView>,
    used: Usage,
    start: Seq<char>,
    ty: Seq<char>,
)
    requires
        forall|x: Seq<char>| #[trigger] input_reaches(defs, start, x) ==> used.dom().contains(x),
        input_reaches(defs, start, ty),
    ensures
        input_reaches(pruned_with(defs, used), start, ty),
{
    let cut = pruned_with(defs, used);
    let step = input_step(defs);
    let inv = |x: Seq<char>| input_reaches(defs, start, x) && input_reaches(cut, start, x);
    lemma_reaches_self(input_step(defs), start);
    lemma_reaches_self(input_step(cut), start);
    assert forall|a: Seq<char>, b: Seq<char>| inv(a) && #[trigger] step(a, b) implies inv(b) by {
        lemma_reaches_then_step(input_step(defs), start, a, b);
        lemma_lookup_pruned(defs, used, a);
        lemma_lookup(defs, a);
        let i = lookup(defs, a).unwrap();
        lemma_pruned_definition_keeps(used, defs[i]);
        let j = lookup(cut, a).unwrap();
        let k = choose|k: int|
            0 <= k < defs[i].input_fields().len() && (#[trigger] defs[i].input_fields()[k]).value_type.base()@
                == b;
        assert(cut[j].input_fields()[k] == defs[i].input_fields()[k]);
        assert(feeds(cut, a, b));
        lemma_reaches_then_step(input_step(cut), start, a, b);
    }
    lemma_reaches_induct(step, inv, start, ty);
}

/// Pruning leaves every type defined under which the walk comes to a fragment
/// that leads somewhere.
///
/// Where it does not, the walk over the pruned schema stops short of that
/// fragment, and pruning again may take away what the fragment alone had
/// marked.
pub open spec fn parents_stay(defs: Seq<DefinitionView>, q: Document) -> bool {
    forall|v: Visit, k: int|
        visited(defs, q, v) && 0 <= k < v.selection_set.items@.len() && !(
        v.selection_set.items@[k] is Field) && (#[trigger] child(
            defs,
            q,
            v.parent,
            v.selection_set.items@[k],
        )) is Some ==> lookup(pruned(defs, q), v.parent) is Some
}

/// Where an operation starts over the schema it starts over the pruned schema.
proof fn lemma_root_visit_pruned(defs: Seq<DefinitionView>, q: Document, r: Visit)
    requires
        is_root_visit(defs, q, r),
    ensures
        is_root_visit(pruned(defs, q), q, r),
{
    let used = used_fields(defs, q);
    let o = choose|o: int|
        0 <= o < q.definitions@.len() && (#[trigger] q.definitions@[o] matches Definition::Operation(
            op,
        ) && operation_visit(defs, op) == Some(r));
    let op = q.definitions@[o]->Operation_0;
    assert(marks(defs, q, r.parent));
    lemma_lookup_pruned(defs, used, r.parent);
    lemma_root_name_pruned(defs, used, operation_kind(op));
    assert(operation_visit(pruned(defs, q), op) == Some(r));
}

/// A selection that the walk over the schema comes to leads, over the pruned
/// schema, where it led.
proof fn lemma_child_pruned(defs: Seq<DefinitionView>, q: Document, v: Visit, k: int)
    requires
        parents_stay(defs, q),
        visited(defs, q, v),
        0 <= k < v.selection_set.items@.len(),
        child(defs, q, v.parent, v.selection_set.items@[k]) is Some,
    ensures
        child(pruned(defs, q), q, v.parent, v.selection_set.items@[k]) == child(
            defs,
            q,
            v.parent,
            v.selection_set.items@[k],
        ),
        v.selection_set.items@[k] matches Selection::Field(f) ==> selected_field(
            pruned(defs, q),
            v.parent,
            f.name@,
        ) == selected_field(defs, v.parent, f.name@),
{
    let used = used_fields(defs, q);
    let item = v.selection_set.items@[k];
    if let Selection::Field(f) = item {
        assert(item_uses(defs, v.parent, item, v.parent, f.name@));
        assert(uses_field(defs, q, v.parent, f.name@));
        assert(item_marks(defs, q, v.parent, item, v.parent));
        assert(marks(defs, q, v.parent));
        assert(records_use(used, v.parent, f.name@));
        lemma_selected_field_pruned(defs, used, v.parent, f.name@);
    } else {
        assert(child(defs, q, v.parent, v.selection_set.items@[k]) is Some);
        assert(lookup(pruned(defs, q), v.parent) is Some);
    }
}

/// What the walk over the schema comes to, the walk over the pruned schema
/// comes to.
proof fn lemma_visited_pruned(defs: Seq<DefinitionView>, q: Document, v: Visit)
    requires
        parents_stay(defs, q),
        visited(defs, q, v),
    ensures
        visited(pruned(defs, q), q, v),
{
    let cut = pruned(defs, q);
    let r = choose|r: Visit| #[trigger] is_root_visit(defs, q, r) && reaches(visit_step(defs, q), r, v);
    lemma_root_visit_pruned(defs, q, r);
    lemma_visited_root(defs, q, r);
    lemma_visited_root(cut, q, r);
    let step = visit_step(defs, q);
    let inv = |x: Visit| visited(defs, q, x) && visited(cut, q, x);
    assert forall|a: Visit, b: Visit| inv(a) && #[trigger] step(a, b) implies inv(b) by {
        let k = choose|k: int|
            0 <= k < a.selection_set.items@.len() && child(
                defs,
                q,
                a.parent,
                #[trigger] a.selection_set.items@[k],
            ) == Some(b);
        lemma_child_pruned(defs, q, a, k);
        assert(leads(cut, q, a, b));
        lemma_visited_leads(defs, q, a, b);
        lemma_visited_leads(cut, q, a, b);
    }
    lemma_reaches_induct(step, inv, r, v);
}

/// What the query marks and uses over the schema it marks and uses over the
/// pruned schema.
proof fn lemma_used_within(defs: Seq<DefinitionView>, q: Document)
    requires
        parents_stay(defs, q),
    ensures
        within(used_fields(defs, q), used_fields(pruned(defs, q), q)),
{
    let cut = pruned(defs, q);
    let used = used_fields(defs, q);
    assert forall|ty: Seq<char>, f: Seq<char>| uses_field(defs, q, ty, f) implies uses_field(
        cut,
        q,
        ty,
        f,
    ) by {
        let (v, k) = choose|v: Visit, k: int|
            visited(defs, q, v) && 0 <= k < v.selection_set.items@.len() && item_uses(
                defs,
                v.parent,
                #[trigger] v.selection_set.items@[k],
                ty,
                f,
            );
        lemma_visited_pruned(defs, q, v);
        lemma_child_pruned(defs, q, v, k);
        assert(item_uses(cut, v.parent, v.selection_set.items@[k], ty, f));
    }
    assert forall|ty: Seq<char>| marks(defs, q, ty) implies marks(cut, q, ty) by {
        if exists|r: Visit| #[trigger] is_root_visit(defs, q, r) && r.parent == ty {
            let r = choose|r: Visit| #[trigger] is_root_visit(defs, q, r) && r.parent == ty;
            lemma_root_visit_pruned(defs, q, r);
        } else {
            let (v, k) = choose|v: Visit, k: int|
                visited(defs, q, v) && 0 <= k < v.selection_set.items@.len() && item_marks(
                    defs,
                    q,
                    v.parent,
                    #[trigger] v.selection_set.items@[k],
                    ty,
                );
            let item = v.selection_set.items@[k];
            lemma_visited_pruned(defs, q, v);
            if let Selection::Field(f) = item {
                lemma_child_pruned(defs, q, v, k);
                let declared = selected_field(defs, v.parent, f.name@).unwrap();
                if ty != v.parent {
                    let a = choose|a: int|
                        0 <= a < declared.arguments@.len() && input_reaches(
                            defs,
                            (#[trigger] declared.arguments@[a]).value_type.base()@,
                            ty,
                        );
                    let start = declared.arguments@[a].value_type.base()@;
                    assert forall|x: Seq<char>| #[trigger]
                        input_reaches(defs, start, x) implies used.dom().contains(x) by {
                        assert(item_marks(defs, q, v.parent, item, x));
                        assert(marks(defs, q, x));
                    }
                    lemma_input_reaches_pruned(defs, used, start, ty);
                }
                assert(item_marks(cut, q, v.parent, item, ty));
            } else {
                assert(item_marks(cut, q, v.parent, item, ty));
            }
        }
    }
    assert forall|ty: Seq<char>, f: Seq<char>| #[trigger]
        records_use(used, ty, f) implies records_use(used_fields(cut, q), ty, f) by {
        assert(uses_field(defs, q, ty, f));
        assert(marks(defs, q, ty));
    }
}

/// Under a larger record, what a smaller record left of a definition stays
/// as it is.
proof fn lemma_pruned_definition_fixed(
    smaller: Usage,
    larger: Usage,
    d: DefinitionView,
)
    requires
        within(smaller, larger),
        pruned_definition(smaller, d) is Some,
    ensures
        pruned_definition(larger, pruned_definition(smaller, d).unwrap()) == pruned_definition(
            smaller,
            d,
        ),
{
    match d {
        DefinitionView::TypeDefinition(TypeDefinitionView::Object(t)) => {
            let keep = |f: Field| keeps_field(smaller, t.name@, t.implements_interfaces@, f);
            let again = |f: Field| keeps_field(larger, t.name@, t.implements_interfaces@, f);
            let left = t.fields.filter(keep);
            if any_used(smaller, t.implements_interfaces@) {
                let k = choose|k: int|
                    0 <= k < t.implements_interfaces@.len() && smaller.dom().contains(
                        (#[trigger] t.implements_interfaces@[k])@,
                    );
                assert(larger.dom().contains(t.implements_interfaces@[k]@));
            }
            assert forall|i: int| 0 <= i < left.len() implies again(#[trigger] left[i]) by {
                t.fields.lemma_filter_pred(keep, i);
                let f = left[i];
                if used_through(smaller, t.implements_interfaces@, f.name@) {
                    let k = choose|k: int|
                        0 <= k < t.implements_interfaces@.len() && records_use(
                            smaller,
                            (#[trigger] t.implements_interfaces@[k])@,
                            f.name@,
                        );
                    assert(records_use(larger, t.implements_interfaces@[k]@, f.name@));
                }
            }
            lemma_filter_all(left, again);
        },
        DefinitionView::TypeDefinition(TypeDefinitionView::Interface(t)) => {
            let keep = |f: Field| keeps_field(smaller, t.name@, Seq::empty(), f);
            let again = |f: Field| keeps_field(larger, t.name@, Seq::empty(), f);
            let left = t.fields.filter(keep);
            assert forall|i: int| 0 <= i < left.len() implies again(#[trigger] left[i]) by {
                t.fields.lemma_filter_pred(keep, i);
            }
            lemma_filter_all(left, again);
        },
        _ => {},
    }
}

/// A schema cut down to a record is, under any larger record, already cut
/// down.
pub proof fn lemma_pruned_with_fixed(
    defs: Seq<DefinitionView>,
    smaller: Usage,
    larger: Usage,
)
    requires
        within(smaller, larger),
    ensures
        pruned_with(pruned_with(defs, smaller), larger) == pruned_with(defs, smaller),
    decreases defs.len(),
{
    if defs.len() > 0 {
        let rest = defs.drop_last();
        lemma_pruned_with_fixed(rest, smaller, larger);
        lemma_pruned_with_push(defs, smaller);
        if let Some(d) = pruned_definition(smaller, defs.last()) {
            lemma_pruned_definition_fixed(smaller, larger, defs.last());
            let cut = pruned_with(rest, smaller).push(d);
            assert(cut.drop_last() =~= pruned_with(rest, smaller));
            assert(cut.last() == d);
            lemma_pruned_with_push(cut, larger);
        }
    }
}

/// Idempotence: pruning what was pruned, with the same query, changes
/// nothing, where pruning leaves every type defined under which the walk
/// comes to a fragment that leads somewhere.
pub proof fn lemma_prune_idempotent(defs: Seq<DefinitionView>, q: Document)
    requires
        parents_stay(defs, q),
    ensures
        pruned(pruned(defs, q), q) == pruned(defs, q),
{
    lemma_used_within(defs, q);
    lemma_pruned_with_fixed(defs, used_fields(defs, q), used_fields(pruned(defs, q), q));
}

} // verus!
