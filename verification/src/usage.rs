//! What a query uses of a schema, stated as reachability: the selection sets
//! that the operations lead to, each with the type it is read against, and
//! what the selections in them mark.

use vstd::prelude::*;
use crate::index::fragment_index;
use crate::index::lookup;
use crate::query::Definition;
use crate::query::Document;
use crate::query::FragmentDefinition;
use crate::query::InlineFragment;
use crate::query::OperationDefinition;
use crate::query::Selection;
use crate::query::SelectionSet;
use crate::query::TypeCondition;
use crate::reach::reaches;
use crate::schema::DefinitionView;
use crate::schema::Field;
use crate::schema::SchemaDefinition;
use crate::used::Usage;

verus! {

/// The three kinds of operation, each with a root type of its own.
pub enum OperationKind {
    Query,
    Mutation,
    Subscription,
}

/// The root type that a schema block names for a kind of operation.
pub open spec fn declared_root(block: SchemaDefinition, kind: OperationKind) -> Option<String> {
    match kind {
        OperationKind::Query => block.query,
        OperationKind::Mutation => block.mutation,
        OperationKind::Subscription => block.subscription,
    }
}

/// The root type of a kind where no schema block names one.
pub open spec fn default_root(kind: OperationKind) -> Seq<char> {
    match kind {
        OperationKind::Query => "Query"@,
        OperationKind::Mutation => "Mutation"@,
        OperationKind::Subscription => "Subscription"@,
    }
}

/// The root type that the schema names for a kind of operation: what the last
/// schema block that names one says, and nothing where no block names one.
pub open spec fn named_root(defs: Seq<DefinitionView>, kind: OperationKind) -> Option<String>
    decreases defs.len(),
{
    if defs.len() == 0 {
        None
    } else {
        match defs.last() {
            DefinitionView::SchemaDefinition(block) => match declared_root(block, kind) {
                Some(name) => Some(name),
                None => named_root(defs.drop_last(), kind),
            },
            _ => named_root(defs.drop_last(), kind),
        }
    }
}

/// The root type of a kind of operation: what the schema names, else the
/// default.
pub open spec fn root_name(defs: Seq<DefinitionView>, kind: OperationKind) -> Seq<char> {
    match named_root(defs, kind) {
        Some(name) => name@,
        None => default_root(kind),
    }
}

/// The kind of an operation. A bare selection set is a query.
pub open spec fn operation_kind(op: OperationDefinition) -> OperationKind {
    match op {
        OperationDefinition::SelectionSet(_) => OperationKind::Query,
        OperationDefinition::Query(_) => OperationKind::Query,
        OperationDefinition::Mutation(_) => OperationKind::Mutation,
        OperationDefinition::Subscription(_) => OperationKind::Subscription,
    }
}

/// What an operation selects on its root type.
pub open spec fn operation_selection(op: OperationDefinition) -> SelectionSet {
    match op {
        OperationDefinition::SelectionSet(s) => s,
        OperationDefinition::Query(q) => q.selection_set,
        OperationDefinition::Mutation(m) => m.selection_set,
        OperationDefinition::Subscription(s) => s.selection_set,
    }
}

/// The first of `fields` that is called `name`.
pub open spec fn first_named(fields: Seq<Field>, name: Seq<char>) -> Option<int>
    decreases fields.len(),
{
    if fields.len() == 0 {
        None
    } else {
        match first_named(fields.drop_last(), name) {
            Some(k) => Some(k),
            None => if fields.last().name@ == name {
                Some(fields.len() - 1)
            } else {
                None
            },
        }
    }
}

/// `first_named` finds the first field of the name, and fails only where
/// there is none.
pub proof fn lemma_first_named(fields: Seq<Field>, name: Seq<char>)
    ensures
        match first_named(fields, name) {
            Some(k) => {
                &&& 0 <= k < fields.len()
                &&& fields[k].name@ == name
                &&& forall|j: int| 0 <= j < k ==> fields[j].name@ != name
            },
            None => forall|j: int| 0 <= j < fields.len() ==> fields[j].name@ != name,
        },
    decreases fields.len(),
{
    if fields.len() > 0 {
        let shorter = fields.drop_last();
        lemma_first_named(shorter, name);
        assert forall|j: int| 0 <= j < shorter.len() implies shorter[j] == fields[j] by {}
    }
}

/// The field called `name` that the type called `parent` declares itself: the
/// first of that name on the object or interface that `parent` stands for.
pub open spec fn selected_field(defs: Seq<DefinitionView>, parent: Seq<char>, name: Seq<char>) -> Option<Field> {
    match first_named(declared_fields(defs, parent), name) {
        Some(k) => Some(declared_fields(defs, parent)[k]),
        None => None,
    }
}

/// The fields that the type called `parent` declares itself: those of the
/// object or interface that the name stands for, and none where it stands for
/// another kind of type or for nothing.
pub open spec fn declared_fields(defs: Seq<DefinitionView>, parent: Seq<char>) -> Seq<Field> {
    match lookup(defs, parent) {
        Some(i) => defs[i].fields(),
        None => Seq::empty(),
    }
}

/// The name in a type condition.
pub open spec fn condition_name(c: TypeCondition) -> String {
    match c {
        TypeCondition::On(name) => name,
    }
}

/// The type that an inline fragment is read against: its own type condition,
/// or the enclosing type where it has none.
pub open spec fn inline_parent(parent: Seq<char>, f: InlineFragment) -> Seq<char> {
    match f.type_condition {
        Some(c) => condition_name(c)@,
        None => parent,
    }
}

/// A selection set together with the name of the type it is read against.
pub struct Visit {
    pub parent: Seq<char>,
    pub selection_set: SelectionSet,
}

/// Where a fragment definition leads: its selection set, read against its
/// type condition.
pub open spec fn fragment_visit(f: FragmentDefinition) -> Visit {
    Visit { parent: condition_name(f.type_condition)@, selection_set: f.selection_set }
}

/// Where a selection leads without leaving the place it stands in: a field
/// that the parent type declares leads to its own selections, read against
/// the base of the field's type; an inline fragment leads to its selections.
/// Under a parent that the schema does not define no selection leads
/// anywhere.
pub open spec fn local_child(defs: Seq<DefinitionView>, parent: Seq<char>, item: Selection) -> Option<Visit> {
    match item {
        Selection::Field(f) => match selected_field(defs, parent, f.name@) {
            Some(declared) => Some(
                Visit { parent: declared.field_type.base()@, selection_set: f.selection_set },
            ),
            None => None,
        },
        Selection::FragmentSpread(_) => None,
        Selection::InlineFragment(f) => if lookup(defs, parent) is Some {
            Some(Visit { parent: inline_parent(parent, f), selection_set: f.selection_set })
        } else {
            None
        },
    }
}

/// Where a selection leads: as `local_child`, and under a parent that the
/// schema defines a spread of a fragment that the query defines leads to that
/// fragment.
pub open spec fn child(defs: Seq<DefinitionView>, q: Document, parent: Seq<char>, item: Selection) -> Option<Visit> {
    match item {
        Selection::FragmentSpread(s) => if lookup(defs, parent) is Some {
            match fragment_index(q, s.fragment_name@) {
                Some(i) => match q.definitions@[i] {
                    Definition::Fragment(f) => Some(fragment_visit(f)),
                    _ => None,
                },
                None => None,
            }
        } else {
            None
        },
        _ => local_child(defs, parent, item),
    }
}

/// A selection of `a` leads to `b`.
pub open spec fn leads(defs: Seq<DefinitionView>, q: Document, a: Visit, b: Visit) -> bool {
    exists|k: int|
        0 <= k < a.selection_set.items@.len() && child(
            defs,
            q,
            a.parent,
            #[trigger] a.selection_set.items@[k],
        ) == Some(b)
}

/// A selection of `a` that is no fragment spread leads to `b`.
pub open spec fn leads_locally(defs: Seq<DefinitionView>, a: Visit, b: Visit) -> bool {
    exists|k: int|
        0 <= k < a.selection_set.items@.len() && local_child(
            defs,
            a.parent,
            #[trigger] a.selection_set.items@[k],
        ) == Some(b)
}

/// One step of the walk over selections.
pub open spec fn visit_step(defs: Seq<DefinitionView>, q: Document) -> spec_fn(Visit, Visit) -> bool {
    |a: Visit, b: Visit| leads(defs, q, a, b)
}

/// One step of the walk that follows no fragment spread.
pub open spec fn local_step(defs: Seq<DefinitionView>) -> spec_fn(Visit, Visit) -> bool {
    |a: Visit, b: Visit| leads_locally(defs, a, b)
}

/// Where an operation starts: its selections, read against the root type of
/// its kind. An operation whose root type the schema does not define starts
/// nowhere.
pub open spec fn operation_visit(defs: Seq<DefinitionView>, op: OperationDefinition) -> Option<Visit> {
    let root = root_name(defs, operation_kind(op));
    if lookup(defs, root) is Some {
        Some(Visit { parent: root, selection_set: operation_selection(op) })
    } else {
        None
    }
}

/// Some operation of the query starts at `v`.
pub open spec fn is_root_visit(defs: Seq<DefinitionView>, q: Document, v: Visit) -> bool {
    exists|o: int|
        0 <= o < q.definitions@.len() && (#[trigger] q.definitions@[o] matches Definition::Operation(
            op,
        ) && operation_visit(defs, op) == Some(v))
}

/// The walk over the query comes to `v`.
pub open spec fn visited(defs: Seq<DefinitionView>, q: Document, v: Visit) -> bool {
    exists|r: Visit| #[trigger] is_root_visit(defs, q, r) && reaches(visit_step(defs, q), r, v)
}

/// The input object that `a` stands for has a field whose base type is `b`.
pub open spec fn feeds(defs: Seq<DefinitionView>, a: Seq<char>, b: Seq<char>) -> bool {
    lookup(defs, a) matches Some(i) && exists|k: int|
        0 <= k < defs[i].input_fields().len() && (#[trigger] defs[i].input_fields()[k]).value_type.base()@
            == b
}

/// One step among input types: from an input object to the base type of one
/// of its fields.
pub open spec fn input_step(defs: Seq<DefinitionView>) -> spec_fn(Seq<char>, Seq<char>) -> bool {
    |a: Seq<char>, b: Seq<char>| feeds(defs, a, b)
}

/// The types that an argument of type `start` pulls in: `start`, and through
/// input objects the types of their fields, and so on.
pub open spec fn input_reaches(defs: Seq<DefinitionView>, start: Seq<char>, t: Seq<char>) -> bool {
    reaches(input_step(defs), start, t)
}

/// A selection records `field` as used on the type `ty`: it selects that
/// field on its parent `ty`, which declares it.
pub open spec fn item_uses(
    defs: Seq<DefinitionView>,
    parent: Seq<char>,
    item: Selection,
    ty: Seq<char>,
    field: Seq<char>,
) -> bool {
    item matches Selection::Field(f) && ty == parent && field == f.name@ && selected_field(
        defs,
        parent,
        field,
    ) is Some
}

/// A selection marks the type `ty` as used: a field that the parent declares
/// marks the parent and every type that one of its arguments pulls in; a
/// spread marks the type condition of its fragment; an inline fragment marks
/// the type it is read against. Under a parent that the schema does not
/// define no selection marks anything.
pub open spec fn item_marks(
    defs: Seq<DefinitionView>,
    q: Document,
    parent: Seq<char>,
    item: Selection,
    ty: Seq<char>,
) -> bool {
    match item {
        Selection::Field(f) => match selected_field(defs, parent, f.name@) {
            Some(declared) => ty == parent || exists|a: int|
                0 <= a < declared.arguments@.len() && input_reaches(
                    defs,
                    (#[trigger] declared.arguments@[a]).value_type.base()@,
                    ty,
                ),
            None => false,
        },
        Selection::FragmentSpread(_) => child(defs, q, parent, item) matches Some(v) && ty
            == v.parent,
        Selection::InlineFragment(f) => lookup(defs, parent) is Some && ty == inline_parent(
            parent,
            f,
        ),
    }
}

/// Some selection that the walk comes to from `from` on marks the type `ty`.
pub open spec fn marked_below(defs: Seq<DefinitionView>, q: Document, from: Visit, ty: Seq<char>) -> bool {
    exists|v: Visit, k: int|
        reaches(visit_step(defs, q), from, v) && 0 <= k < v.selection_set.items@.len()
            && item_marks(defs, q, v.parent, #[trigger] v.selection_set.items@[k], ty)
}

/// Some selection that the walk comes to from `from` on records `field` as
/// used on the type `ty`.
pub open spec fn used_below(
    defs: Seq<DefinitionView>,
    q: Document,
    from: Visit,
    ty: Seq<char>,
    field: Seq<char>,
) -> bool {
    exists|v: Visit, k: int|
        reaches(visit_step(defs, q), from, v) && 0 <= k < v.selection_set.items@.len()
            && item_uses(defs, v.parent, #[trigger] v.selection_set.items@[k], ty, field)
}

/// The selection marks the type `ty`, or a selection does that the walk comes
/// to from where the selection leads.
pub open spec fn marked_from(
    defs: Seq<DefinitionView>,
    q: Document,
    parent: Seq<char>,
    item: Selection,
    ty: Seq<char>,
) -> bool {
    item_marks(defs, q, parent, item, ty) || (child(defs, q, parent, item) matches Some(c)
        && marked_below(defs, q, c, ty))
}

/// The selection records `field` as used on the type `ty`, or a selection
/// does that the walk comes to from where the selection leads.
pub open spec fn used_from(
    defs: Seq<DefinitionView>,
    q: Document,
    parent: Seq<char>,
    item: Selection,
    ty: Seq<char>,
    field: Seq<char>,
) -> bool {
    item_uses(defs, parent, item, ty, field) || (child(defs, q, parent, item) matches Some(c)
        && used_below(defs, q, c, ty, field))
}

/// An argument of the field pulls in the type `ty`.
pub open spec fn pulls_in(defs: Seq<DefinitionView>, field: Field, ty: Seq<char>) -> bool {
    exists|a: int|
        0 <= a < field.arguments@.len() && input_reaches(
            defs,
            (#[trigger] field.arguments@[a]).value_type.base()@,
            ty,
        )
}

/// What a selection of a visit marks or uses, or what is marked or used from
/// where it leads, is marked or used from the visit on.
pub proof fn lemma_from_is_below(defs: Seq<DefinitionView>, q: Document, here: Visit, k: int)
    requires
        0 <= k < here.selection_set.items@.len(),
    ensures
        forall|ty: Seq<char>| #[trigger]
            marked_from(defs, q, here.parent, here.selection_set.items@[k], ty) ==> marked_below(
                defs,
                q,
                here,
                ty,
            ),
        forall|ty: Seq<char>, f: Seq<char>| #[trigger]
            used_from(defs, q, here.parent, here.selection_set.items@[k], ty, f) ==> used_below(
                defs,
                q,
                here,
                ty,
                f,
            ),
{
    let item = here.selection_set.items@[k];
    let step = visit_step(defs, q);
    crate::reach::lemma_reaches_self(step, here);
    assert forall|ty: Seq<char>| #[trigger]
        marked_from(defs, q, here.parent, item, ty) implies marked_below(defs, q, here, ty) by {
        if !item_marks(defs, q, here.parent, item, ty) {
            let c = child(defs, q, here.parent, item).unwrap();
            let (v, m) = choose|v: Visit, m: int|
                reaches(step, c, v) && 0 <= m < v.selection_set.items@.len() && item_marks(
                    defs,
                    q,
                    v.parent,
                    #[trigger] v.selection_set.items@[m],
                    ty,
                );
            assert(leads(defs, q, here, c));
            crate::reach::lemma_step_then_reaches(step, here, c, v);
        }
    }
    assert forall|ty: Seq<char>, f: Seq<char>| #[trigger]
        used_from(defs, q, here.parent, item, ty, f) implies used_below(defs, q, here, ty, f) by {
        if !item_uses(defs, here.parent, item, ty, f) {
            let c = child(defs, q, here.parent, item).unwrap();
            let (v, m) = choose|v: Visit, m: int|
                reaches(step, c, v) && 0 <= m < v.selection_set.items@.len() && item_uses(
                    defs,
                    v.parent,
                    #[trigger] v.selection_set.items@[m],
                    ty,
                    f,
                );
            assert(leads(defs, q, here, c));
            crate::reach::lemma_step_then_reaches(step, here, c, v);
        }
    }
}

/// The query uses `field` on the type `ty`.
pub open spec fn uses_field(defs: Seq<DefinitionView>, q: Document, ty: Seq<char>, field: Seq<char>) -> bool {
    exists|v: Visit, k: int|
        visited(defs, q, v) && 0 <= k < v.selection_set.items@.len() && item_uses(
            defs,
            v.parent,
            #[trigger] v.selection_set.items@[k],
            ty,
            field,
        )
}

/// The query marks the type `ty` as used: it is the root type of an
/// operation that starts, or a selection that the walk comes to marks it.
pub open spec fn marks(defs: Seq<DefinitionView>, q: Document, ty: Seq<char>) -> bool {
    ||| exists|r: Visit| #[trigger] is_root_visit(defs, q, r) && r.parent == ty
    ||| exists|v: Visit, k: int|
        visited(defs, q, v) && 0 <= k < v.selection_set.items@.len() && item_marks(
            defs,
            q,
            v.parent,
            #[trigger] v.selection_set.items@[k],
            ty,
        )
}

/// The field-usage closure: the used types, each with the fields used on it.
pub open spec fn used_fields(defs: Seq<DefinitionView>, q: Document) -> Usage {
    Map::new(
        |ty: Seq<char>| marks(defs, q, ty),
        |ty: Seq<char>| Set::new(|field: Seq<char>| uses_field(defs, q, ty, field)),
    )
}

/// What the walk comes to leads only to what the walk comes to.
pub proof fn lemma_visited_leads(defs: Seq<DefinitionView>, q: Document, a: Visit, b: Visit)
    requires
        visited(defs, q, a),
        leads(defs, q, a, b),
    ensures
        visited(defs, q, b),
{
    let r = choose|r: Visit| #[trigger] is_root_visit(defs, q, r) && reaches(visit_step(defs, q), r, a);
    crate::reach::lemma_reaches_then_step(visit_step(defs, q), r, a, b);
}

/// The walk comes to where each operation starts.
pub proof fn lemma_visited_root(defs: Seq<DefinitionView>, q: Document, r: Visit)
    requires
        is_root_visit(defs, q, r),
    ensures
        visited(defs, q, r),
{
    crate::reach::lemma_reaches_self(visit_step(defs, q), r);
}

} // verus!
