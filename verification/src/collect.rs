//! The field-usage closure, computed: a walk over the selections of a query
//! that records the types and fields it uses.
//!
//! The walk goes down the selection sets. It takes up each fragment once and
//! each input object once, however often it comes to them, so it ends on
//! fragments that spread each other and on input objects that hold each other.

use vstd::prelude::*;
use crate::index::fragment_index;
use crate::index::FragmentIndex;
use crate::index::lemma_fragment_index;
use crate::index::lemma_lookup;
use crate::index::lookup;
use crate::index::SchemaIndex;
use crate::query::FragmentSpread;
use crate::query::InlineFragment;
use crate::query::Selection;
use crate::query::SelectionSet;
use crate::query::TypeCondition;
use crate::query;
use crate::reach::lemma_reaches_self;
use crate::reach::lemma_step_then_reaches;
use crate::reach::reaches;
use crate::schema::Definition;
use crate::schema::DefinitionView;
use crate::schema::Document;
use crate::schema::Field;
use crate::schema::InputValue;
use crate::schema::TypeDefinition;
use crate::usage::child;
use crate::usage::declared_fields;
use crate::usage::feeds;
use crate::usage::first_named;
use crate::usage::fragment_visit;
use crate::usage::input_reaches;
use crate::usage::input_step;
use crate::usage::is_root_visit;
use crate::usage::item_marks;
use crate::usage::item_uses;
use crate::usage::leads;
use crate::usage::leads_locally;
use crate::usage::local_child;
use crate::usage::lemma_first_named;
use crate::usage::lemma_from_is_below;
use crate::usage::lemma_visited_leads;
use crate::usage::lemma_visited_root;
use crate::usage::local_step;
use crate::usage::marks;
use crate::usage::operation_kind;
use crate::usage::operation_selection;
use crate::usage::operation_visit;
use crate::usage::OperationKind;
use crate::usage::named_root;
use crate::usage::root_name;
use crate::usage::selected_field;
use crate::usage::used_fields;
use crate::usage::uses_field;
use crate::usage::Visit;
use crate::usage::visit_step;
use crate::usage::visited;
use crate::used::UsedFields;
use crate::used::with_field;
use crate::used::with_type;
use crate::util::named_type;
use crate::walk::count_false;
use crate::walk::inputs_from;
use crate::walk::inputs_of;
use crate::walk::lemma_adds_only_trans;
use crate::walk::lemma_closed_again;
use crate::walk::marks_below;
use crate::walk::marks_from;
use crate::walk::no_use;
use crate::walk::the_type;
use crate::walk::uses_below;
use crate::walk::uses_from;
use crate::walk::lemma_count_false_mono;
use crate::walk::lemma_count_false_set;
use crate::walk::lemma_grows_keeps;
use crate::walk::lemma_grows_trans;
use crate::walk::lemma_input_closure;
use crate::walk::lemma_items_cover;
use crate::walk::lemma_went_on_by_record;
use crate::walk::lemma_went_on_self;
use crate::walk::lemma_went_on_trans;
use crate::walk::Progress;
use crate::walk::Walk;

verus! {

/// The field-usage closure of a query over a schema: the used types, each
/// with the fields used on it.
pub fn collect(schema: &Document, query: &query::Document) -> (used: UsedFields)
    ensures
        used@ == used_fields(schema@, *query),
{
    let ghost defs = schema@;
    let ghost q = *query;
    let index = SchemaIndex::new(schema);
    let fragments = FragmentIndex::new(query);
    let ctx = Context { schema, query, index: &index, fragments: &fragments };
    let root_types = detect_root_types(schema);
    let default_mutation: String = "Mutation".to_owned();
    let default_subscription: String = "Subscription".to_owned();
    let mut walk = Walk::new(schema.definitions.len(), query.definitions.len());
    let mut o: usize = 0;
    while o < query.definitions.len()
        invariant
            o <= query.definitions.len(),
            ctx.wf(),
            ctx.schema@ == defs,
            *ctx.query == q,
            q == *query,
            index.schema() == defs,
            root_types.agrees(defs),
            default_mutation@ == "Mutation"@,
            default_subscription@ == "Subscription"@,
            walk@.input_closed(defs),
            walk_done(defs, q, walk@, o as int),
        decreases query.definitions.len() - o,
    {
        let ghost mid = walk@;
        if let query::Definition::Operation(op) = &query.definitions[o] {
            let (op_type, selection_set): (&String, &SelectionSet) = match op {
                query::OperationDefinition::Query(query_op) => (
                    &root_types.query,
                    &query_op.selection_set,
                ),
                query::OperationDefinition::Mutation(mutation) => (
                    match &root_types.mutation {
                        Some(name) => name,
                        None => &default_mutation,
                    },
                    &mutation.selection_set,
                ),
                query::OperationDefinition::Subscription(subscription) => (
                    match &root_types.subscription {
                        Some(name) => name,
                        None => &default_subscription,
                    },
                    &subscription.selection_set,
                ),
                query::OperationDefinition::SelectionSet(bare) => (&root_types.query, bare),
            };
            assert(op_type@ == root_name(defs, operation_kind(*op)));
            assert(*selection_set == operation_selection(*op));
            if index.find_type(op_type).is_some() {
                let ghost root = Visit { parent: op_type@, selection_set: *selection_set };
                proof {
                    assert(operation_visit(defs, *op) == Some(root));
                    assert(is_root_visit(defs, q, root));
                    lemma_visited_root(defs, q, root);
                }
                mark(&mut walk, op_type, Ghost(defs), Ghost(q));
                let ghost marked = walk@;
                collect_used_fields(&ctx, op_type, selection_set, &mut walk);
                proof {
                    lemma_went_on_trans(defs, q, mid, marked, walk@);
                    assert(marked.has_type(op_type@));
                }
            }
        }
        proof {
            lemma_walk_done_next(defs, q, mid, walk@, o as int);
        }
        o = o + 1;
    }
    proof {
        lemma_walk_complete(defs, q, walk@);
    }
    walk.used
}

/// What the walk reads: the schema and the query, each with its index.
struct Context<'a> {
    schema: &'a Document,
    query: &'a query::Document,
    index: &'a SchemaIndex,
    fragments: &'a FragmentIndex,
}

impl<'a> Context<'a> {
    /// The indexes are those of the schema and of the query.
    spec fn wf(self) -> bool {
        &&& self.index.schema() == self.schema@
        &&& self.fragments.definitions() == self.query.definitions@
    }
}

/// The root types of the three kinds of operation: for queries the name in
/// force, for mutations and subscriptions what the schema names, where `None`
/// stands for the default.
struct RootTypes {
    query: String,
    mutation: Option<String>,
    subscription: Option<String>,
}

impl RootTypes {
    /// The root types are those of the schema.
    spec fn agrees(self, defs: Seq<DefinitionView>) -> bool {
        &&& self.query@ == root_name(defs, OperationKind::Query)
        &&& self.mutation == named_root(defs, OperationKind::Mutation)
        &&& self.subscription == named_root(defs, OperationKind::Subscription)
    }
}

/// Detects the root types from the schema blocks; a later block overrides an
/// earlier one where it names a root.
fn detect_root_types(schema: &Document) -> (root: RootTypes)
    ensures
        root.agrees(schema@),
{
    let mut root = RootTypes { query: "Query".to_owned(), mutation: None, subscription: None };
    let ghost defs = schema@;
    let mut i: usize = 0;
    assert(defs.take(0) =~= Seq::<DefinitionView>::empty());
    while i < schema.definitions.len()
        invariant
            i <= schema.definitions.len(),
            defs == schema@,
            root.agrees(defs.take(i as int)),
        decreases schema.definitions.len() - i,
    {
        proof {
            assert(defs.take(i + 1).drop_last() =~= defs.take(i as int));
            assert(defs.take(i + 1).last() == defs[i as int]);
        }
        if let Definition::SchemaDefinition(block) = &schema.definitions[i] {
            if let Some(name) = &block.query {
                root.query = name.clone();
            }
            if let Some(name) = &block.mutation {
                root.mutation = Some(name.clone());
            }
            if let Some(name) = &block.subscription {
                root.subscription = Some(name.clone());
            }
        }
        i = i + 1;
    }
    assert(defs.take(i as int) =~= defs);
    root
}

/// The walk stands at selection `at` of the visit `here`, which it came to,
/// and reads it against `parent`, which the schema defines.
spec fn stands_at(
    defs: Seq<DefinitionView>,
    q: query::Document,
    here: Visit,
    at: int,
    parent: Seq<char>,
    item: Selection,
) -> bool {
    &&& visited(defs, q, here)
    &&& here.parent == parent
    &&& lookup(defs, parent) is Some
    &&& 0 <= at < here.selection_set.items@.len()
    &&& here.selection_set.items@[at] == item
}

/// `fields` are the fields that the type called `parent` declares itself.
spec fn fields_of(fields: Option<&Vec<Field>>, defs: Seq<DefinitionView>, parent: Seq<char>) -> bool {
    match fields {
        Some(f) => f@ == declared_fields(defs, parent),
        None => declared_fields(defs, parent) == Seq::<Field>::empty(),
    }
}

/// Collects the used fields from a selection set that is read against the
/// type called `parent_type`. Where the schema does not define that type, the
/// selection set leads nowhere and the record stays as it was. What is added
/// is what the selections mark and use from here on, and no more.
fn collect_used_fields(
    ctx: &Context,
    parent_type: &String,
    selection_set: &SelectionSet,
    walk: &mut Walk,
)
    requires
        ctx.wf(),
        old(walk)@.steady(ctx.schema@, *ctx.query),
        visited(
            ctx.schema@,
            *ctx.query,
            Visit { parent: parent_type@, selection_set: *selection_set },
        ),
    ensures
        old(walk)@.went_on_to(final(walk)@, ctx.schema@, *ctx.query),
        final(walk)@.covered(
            ctx.schema@,
            *ctx.query,
            Visit { parent: parent_type@, selection_set: *selection_set },
        ),
        old(walk)@.adds_only(
            final(walk)@,
            marks_below(
                ctx.schema@,
                *ctx.query,
                Visit { parent: parent_type@, selection_set: *selection_set },
            ),
            uses_below(
                ctx.schema@,
                *ctx.query,
                Visit { parent: parent_type@, selection_set: *selection_set },
            ),
        ),
        lookup(ctx.schema@, parent_type@) is None ==> final(walk)@ == old(walk)@,
    decreases count_false(old(walk)@.started), selection_set, 0int,
{
    let ghost defs = ctx.schema@;
    let ghost q = *ctx.query;
    let ghost entry = walk@;
    let ghost here = Visit { parent: parent_type@, selection_set: *selection_set };
    proof {
        lemma_went_on_self(defs, q, entry);
    }
    if let Some(parent_def) = parent_definition(ctx, parent_type) {
        let fields = type_fields(parent_def);
        let mut k: usize = 0;
        while k < selection_set.items.len()
            invariant
                k <= selection_set.items.len(),
                ctx.wf(),
                defs == ctx.schema@,
                q == *ctx.query,
                entry == old(walk)@,
                here == (Visit { parent: parent_type@, selection_set: *selection_set }),
                visited(defs, q, here),
                lookup(defs, parent_type@) is Some,
                fields_of(fields, defs, parent_type@),
                entry.steady(defs, q),
                entry.went_on_to(walk@, defs, q),
                entry.adds_only(walk@, marks_below(defs, q, here), uses_below(defs, q, here)),
                walk@.items_done(defs, q, here, k as int),
            decreases selection_set.items.len() - k,
        {
            let ghost mid = walk@;
            proof {
                lemma_count_false_mono(entry.started, mid.started);
            }
            collect_selection(
                ctx,
                parent_type,
                fields,
                &selection_set.items[k],
                walk,
                Ghost(here),
                Ghost(k as int),
            );
            proof {
                lemma_from_is_below(defs, q, here, k as int);
                lemma_adds_only_trans(
                    entry,
                    mid,
                    walk@,
                    marks_below(defs, q, here),
                    uses_below(defs, q, here),
                    marks_from(defs, q, parent_type@, selection_set.items@[k as int]),
                    uses_from(defs, q, parent_type@, selection_set.items@[k as int]),
                    marks_below(defs, q, here),
                    uses_below(defs, q, here),
                );
                lemma_grows_keeps(defs, q, mid, walk@);
                lemma_went_on_trans(defs, q, entry, mid, walk@);
                assert(mid.items_done(defs, q, here, k as int));
            }
            k = k + 1;
        }
    } else {
        proof {
            lemma_first_named(Seq::<Field>::empty(), arbitrary());
            assert forall|m: int| 0 <= m < here.selection_set.items@.len() implies walk@.item_done(
                defs,
                q,
                here.parent,
                #[trigger] here.selection_set.items@[m],
            ) by {
                lemma_nothing_under_undefined(defs, q, here.parent, here.selection_set.items@[m]);
            }
        }
    }
    proof {
        lemma_items_cover(defs, q, walk@, here);
    }
}

/// Takes up one selection: records what it marks and uses, and goes on with
/// what it leads to.
fn collect_selection(
    ctx: &Context,
    parent_type: &String,
    fields: Option<&Vec<Field>>,
    selection: &Selection,
    walk: &mut Walk,
    Ghost(here): Ghost<Visit>,
    Ghost(at): Ghost<int>,
)
    requires
        ctx.wf(),
        old(walk)@.steady(ctx.schema@, *ctx.query),
        stands_at(ctx.schema@, *ctx.query, here, at, parent_type@, *selection),
        fields_of(fields, ctx.schema@, parent_type@),
    ensures
        old(walk)@.went_on_to(final(walk)@, ctx.schema@, *ctx.query),
        final(walk)@.item_done(ctx.schema@, *ctx.query, parent_type@, *selection),
        old(walk)@.adds_only(
            final(walk)@,
            marks_from(ctx.schema@, *ctx.query, parent_type@, *selection),
            uses_from(ctx.schema@, *ctx.query, parent_type@, *selection),
        ),
    decreases count_false(old(walk)@.started), selection, 1int,
{
    match selection {
        Selection::Field(field) => {
            collect_field(ctx, parent_type, fields, field, walk, Ghost(here), Ghost(at));
        },
        Selection::FragmentSpread(spread) => {
            collect_spread(ctx, parent_type, spread, walk, Ghost(here), Ghost(at));
        },
        Selection::InlineFragment(frag) => {
            collect_inline(ctx, parent_type, frag, walk, Ghost(here), Ghost(at));
        },
    }
}

/// A selected field: where the parent type declares it, records it as used,
/// collects the input types of its arguments, and goes on with what is
/// selected under it, read against the base of its type.
fn collect_field(
    ctx: &Context,
    parent_type: &String,
    fields: Option<&Vec<Field>>,
    field: &query::Field,
    walk: &mut Walk,
    Ghost(here): Ghost<Visit>,
    Ghost(at): Ghost<int>,
)
    requires
        ctx.wf(),
        old(walk)@.steady(ctx.schema@, *ctx.query),
        stands_at(ctx.schema@, *ctx.query, here, at, parent_type@, Selection::Field(*field)),
        fields_of(fields, ctx.schema@, parent_type@),
    ensures
        old(walk)@.went_on_to(final(walk)@, ctx.schema@, *ctx.query),
        final(walk)@.item_done(ctx.schema@, *ctx.query, parent_type@, Selection::Field(*field)),
        old(walk)@.adds_only(
            final(walk)@,
            marks_from(ctx.schema@, *ctx.query, parent_type@, Selection::Field(*field)),
            uses_from(ctx.schema@, *ctx.query, parent_type@, Selection::Field(*field)),
        ),
    decreases count_false(old(walk)@.started), Selection::Field(*field), 0int,
{
    let ghost defs = ctx.schema@;
    let ghost q = *ctx.query;
    let ghost entry = walk@;
    let ghost item = Selection::Field(*field);
    proof {
        lemma_went_on_self(defs, q, entry);
    }
    let declared: Option<&Field> = match fields {
        Some(all) => match find_field(all, &field.name) {
            Some(j) => Some(&all[j]),
            None => None,
        },
        None => None,
    };
    assert(match declared {
        Some(d) => selected_field(defs, parent_type@, field.name@) == Some(*d),
        None => selected_field(defs, parent_type@, field.name@) is None,
    });
    if let Some(schema_field) = declared {
        proof {
            assert(item_uses(defs, parent_type@, item, parent_type@, field.name@));
            assert(item_marks(defs, q, parent_type@, item, parent_type@));
        }
        record_use(walk, parent_type, &field.name, Ghost(defs), Ghost(q));
        let ghost recorded = walk@;
        proof {
            assert forall|m: int, ty: Seq<char>|
                0 <= m < schema_field.arguments@.len() && #[trigger] input_reaches(
                    defs,
                    (#[trigger] schema_field.arguments@[m]).value_type.base()@,
                    ty,
                ) implies marks(defs, q, ty) by {
                assert(item_marks(defs, q, parent_type@, item, ty));
            }
        }
        collect_arguments(ctx, schema_field, walk);
        let ghost mid = walk@;
        let nested_type = named_type(&schema_field.field_type).unwrap();
        let ghost below = Visit { parent: nested_type@, selection_set: field.selection_set };
        proof {
            lemma_went_on_trans(defs, q, entry, recorded, mid);
            assert(child(defs, q, parent_type@, item) == Some(below));
            assert(leads(defs, q, here, below));
            lemma_visited_leads(defs, q, here, below);
            lemma_count_false_mono(entry.started, mid.started);
        }
        collect_used_fields(ctx, nested_type, &field.selection_set, walk);
        proof {
            lemma_went_on_trans(defs, q, entry, mid, walk@);
            lemma_grows_trans(recorded, mid, walk@);
            lemma_grows_keeps(defs, q, mid, walk@);
            assert forall|ty: Seq<char>| #[trigger]
                item_marks(defs, q, parent_type@, item, ty) implies walk@.has_type(ty) by {
                if ty != parent_type@ {
                    let m = choose|m: int|
                        0 <= m < schema_field.arguments@.len() && input_reaches(
                            defs,
                            (#[trigger] schema_field.arguments@[m]).value_type.base()@,
                            ty,
                        );
                    assert(mid.input_marked(defs, schema_field.arguments@[m].value_type.base()@));
                } else {
                    assert(recorded.has_type(ty));
                }
            }
            assert forall|ty: Seq<char>, f: Seq<char>| #[trigger]
                item_uses(defs, parent_type@, item, ty, f) implies walk@.has_use(ty, f) by {
                assert(recorded.has_use(parent_type@, field.name@));
            }
        }
    }
}

/// A fragment spread: where the query defines the fragment, marks its type
/// condition, and the first time goes on with its selections, read against
/// the type condition.
fn collect_spread(
    ctx: &Context,
    parent_type: &String,
    spread: &FragmentSpread,
    walk: &mut Walk,
    Ghost(here): Ghost<Visit>,
    Ghost(at): Ghost<int>,
)
    requires
        ctx.wf(),
        old(walk)@.steady(ctx.schema@, *ctx.query),
        stands_at(
            ctx.schema@,
            *ctx.query,
            here,
            at,
            parent_type@,
            Selection::FragmentSpread(*spread),
        ),
    ensures
        old(walk)@.went_on_to(final(walk)@, ctx.schema@, *ctx.query),
        final(walk)@.item_done(
            ctx.schema@,
            *ctx.query,
            parent_type@,
            Selection::FragmentSpread(*spread),
        ),
        old(walk)@.adds_only(
            final(walk)@,
            marks_from(ctx.schema@, *ctx.query, parent_type@, Selection::FragmentSpread(*spread)),
            uses_from(ctx.schema@, *ctx.query, parent_type@, Selection::FragmentSpread(*spread)),
        ),
    decreases count_false(old(walk)@.started), Selection::FragmentSpread(*spread), 0int,
{
    let ghost defs = ctx.schema@;
    let ghost q = *ctx.query;
    let ghost entry = walk@;
    let ghost item = Selection::FragmentSpread(*spread);
    proof {
        lemma_went_on_self(defs, q, entry);
    }
    if let Some(idx) = ctx.fragments.find_fragment(&spread.fragment_name) {
        proof {
            lemma_fragment_index(q.definitions@, spread.fragment_name@);
        }
        if let query::Definition::Fragment(frag) = &ctx.query.definitions[idx] {
            let type_condition = match &frag.type_condition {
                TypeCondition::On(name) => name,
            };
            let ghost below = fragment_visit(*frag);
            proof {
                assert(child(defs, q, parent_type@, item) == Some(below));
                assert(item_marks(defs, q, parent_type@, item, type_condition@));
                assert(leads(defs, q, here, below));
                lemma_visited_leads(defs, q, here, below);
            }
            mark(walk, type_condition, Ghost(defs), Ghost(q));
            let ghost marked = walk@;
            if !walk.started[idx] {
                walk.started.set(idx, true);
                let ghost mid = walk@;
                proof {
                    lemma_count_false_set(entry.started, idx as int);
                    assert(marked.grows_to(mid));
                    lemma_grows_keeps(defs, q, marked, mid);
                    assert(mid.input_closed(defs)) by {
                        lemma_closed_again(defs, marked, mid);
                    }
                }
                collect_used_fields(ctx, type_condition, &frag.selection_set, walk);
                proof {
                    lemma_grows_trans(marked, mid, walk@);
                    lemma_grows_trans(entry, marked, walk@);
                    assert(mid.started[idx as int]);
                    assert(marked.has_type(type_condition@));
                    assert forall|i: int|
                        0 <= i < walk@.started.len() && #[trigger] walk@.started[i]
                            && !entry.started[i] implies (
                    q.definitions@[i] matches query::Definition::Fragment(f) && walk@.covered(
                        defs,
                        q,
                        fragment_visit(f),
                    )) by {
                        if i != idx {
                            assert(!mid.started[i]);
                        }
                    }
                }
            }
        }
    }
}

/// An inline fragment: marks the type it is read against, its type condition
/// or else the parent type, and goes on with its selections.
fn collect_inline(
    ctx: &Context,
    parent_type: &String,
    frag: &InlineFragment,
    walk: &mut Walk,
    Ghost(here): Ghost<Visit>,
    Ghost(at): Ghost<int>,
)
    requires
        ctx.wf(),
        old(walk)@.steady(ctx.schema@, *ctx.query),
        stands_at(
            ctx.schema@,
            *ctx.query,
            here,
            at,
            parent_type@,
            Selection::InlineFragment(*frag),
        ),
    ensures
        old(walk)@.went_on_to(final(walk)@, ctx.schema@, *ctx.query),
        final(walk)@.item_done(
            ctx.schema@,
            *ctx.query,
            parent_type@,
            Selection::InlineFragment(*frag),
        ),
        old(walk)@.adds_only(
            final(walk)@,
            marks_from(ctx.schema@, *ctx.query, parent_type@, Selection::InlineFragment(*frag)),
            uses_from(ctx.schema@, *ctx.query, parent_type@, Selection::InlineFragment(*frag)),
        ),
    decreases count_false(old(walk)@.started), Selection::InlineFragment(*frag), 0int,
{
    let ghost defs = ctx.schema@;
    let ghost q = *ctx.query;
    let ghost entry = walk@;
    let ghost item = Selection::InlineFragment(*frag);
    let read_against: &String = match &frag.type_condition {
        Some(TypeCondition::On(name)) => name,
        None => parent_type,
    };
    let ghost below = Visit { parent: read_against@, selection_set: frag.selection_set };
    proof {
        assert(child(defs, q, parent_type@, item) == Some(below));
        assert(item_marks(defs, q, parent_type@, item, read_against@));
        assert(leads(defs, q, here, below));
        lemma_visited_leads(defs, q, here, below);
    }
    mark(walk, read_against, Ghost(defs), Ghost(q));
    let ghost mid = walk@;
    collect_used_fields(ctx, read_against, &frag.selection_set, walk);
    proof {
        lemma_went_on_trans(defs, q, entry, mid, walk@);
        assert(mid.has_type(read_against@));
    }
}

/// Collects the input types that the arguments of a field pull in.
fn collect_arguments(ctx: &Context, schema_field: &Field, walk: &mut Walk)
    requires
        ctx.wf(),
        old(walk)@.steady(ctx.schema@, *ctx.query),
        forall|m: int, ty: Seq<char>|
            0 <= m < schema_field.arguments@.len() && #[trigger] input_reaches(
                ctx.schema@,
                (#[trigger] schema_field.arguments@[m]).value_type.base()@,
                ty,
            ) ==> marks(ctx.schema@, *ctx.query, ty),
    ensures
        old(walk)@.went_on_to(final(walk)@, ctx.schema@, *ctx.query),
        final(walk)@.started == old(walk)@.started,
        forall|m: int|
            0 <= m < schema_field.arguments@.len() ==> final(walk)@.input_marked(
                ctx.schema@,
                (#[trigger] schema_field.arguments@[m]).value_type.base()@,
            ),
        old(walk)@.adds_only(final(walk)@, inputs_of(ctx.schema@, *schema_field), no_use()),
{
    let ghost defs = ctx.schema@;
    let ghost q = *ctx.query;
    let ghost entry = walk@;
    proof {
        lemma_went_on_self(defs, q, entry);
    }
    let mut a: usize = 0;
    while a < schema_field.arguments.len()
        invariant
            a <= schema_field.arguments.len(),
            ctx.wf(),
            defs == ctx.schema@,
            q == *ctx.query,
            entry.steady(defs, q),
            entry.went_on_to(walk@, defs, q),
            walk@.started == entry.started,
            entry.adds_only(walk@, inputs_of(defs, *schema_field), no_use()),
            forall|m: int, ty: Seq<char>|
                0 <= m < schema_field.arguments@.len() && #[trigger] input_reaches(
                    defs,
                    (#[trigger] schema_field.arguments@[m]).value_type.base()@,
                    ty,
                ) ==> marks(defs, q, ty),
            forall|m: int|
                0 <= m < a ==> walk@.input_marked(
                    defs,
                    (#[trigger] schema_field.arguments@[m]).value_type.base()@,
                ),
        decreases schema_field.arguments.len() - a,
    {
        let ghost mid = walk@;
        let arg = &schema_field.arguments[a];
        proof {
            assert(schema_field.arguments@[a as int] == *arg);
        }
        collect_input_types(ctx, arg, walk);
        proof {
            assert forall|ty: Seq<char>| #[trigger]
                inputs_from(defs, arg.value_type.base()@)(ty) implies inputs_of(
                defs,
                *schema_field,
            )(ty) by {
                assert(input_reaches(
                    defs,
                    schema_field.arguments@[a as int].value_type.base()@,
                    ty,
                ));
            }
            lemma_adds_only_trans(
                entry,
                mid,
                walk@,
                inputs_of(defs, *schema_field),
                no_use(),
                inputs_from(defs, arg.value_type.base()@),
                no_use(),
                inputs_of(defs, *schema_field),
                no_use(),
            );
            lemma_grows_keeps(defs, q, mid, walk@);
            lemma_closed_again(defs, mid, walk@);
            lemma_went_on_by_marks(defs, q, mid, walk@);
            lemma_went_on_trans(defs, q, entry, mid, walk@);
            lemma_input_closure(defs, walk@, arg.value_type.base()@);
            assert forall|m: int| 0 <= m < a + 1 implies walk@.input_marked(
                defs,
                (#[trigger] schema_field.arguments@[m]).value_type.base()@,
            ) by {
                if m < a {
                    assert(mid.input_marked(defs, schema_field.arguments@[m].value_type.base()@));
                }
            }
        }
        a = a + 1;
    }
}

/// Collects the input types that an argument pulls in: marks the base of its
/// type, and where that is an input object not yet expanded, goes on with its
/// fields. It marks types that the argument pulls in and nothing else, and
/// records no field use; from a record in which every expanded input object
/// is done it marks all that the argument pulls in.
fn collect_input_types(ctx: &Context, arg: &InputValue, walk: &mut Walk)
    requires
        ctx.wf(),
        old(walk)@.fits(ctx.schema@, *ctx.query),
        old(walk)@.sound(ctx.schema@, *ctx.query),
        forall|ty: Seq<char>| #[trigger]
            input_reaches(ctx.schema@, arg.value_type.base()@, ty) ==> marks(
                ctx.schema@,
                *ctx.query,
                ty,
            ),
    ensures
        final(walk)@.fits(ctx.schema@, *ctx.query),
        final(walk)@.sound(ctx.schema@, *ctx.query),
        old(walk)@.grows_to(final(walk)@),
        final(walk)@.started == old(walk)@.started,
        final(walk)@.entered(ctx.schema@, arg.value_type.base()@),
        final(walk)@.expansions_done_since(ctx.schema@, old(walk)@.expanded),
        old(walk)@.adds_only(
            final(walk)@,
            inputs_from(ctx.schema@, arg.value_type.base()@),
            no_use(),
        ),
        old(walk)@.input_closed(ctx.schema@) ==> final(walk)@.input_closed(ctx.schema@)
            && final(walk)@.input_marked(ctx.schema@, arg.value_type.base()@),
    decreases count_false(old(walk)@.expanded),
{
    let ghost defs = ctx.schema@;
    let ghost q = *ctx.query;
    let ghost entry = walk@;
    let inner = named_type(&arg.value_type).unwrap();
    proof {
        lemma_reaches_self(input_step(defs), inner@);
        assert(input_reaches(defs, inner@, inner@));
        lemma_lookup(defs, inner@);
    }
    walk.used.mark(inner);
    proof {
        lemma_marked(defs, q, entry, walk@, inner@);
        lemma_mark_adds(entry, walk@, inner@);
        assert(entry.adds_only(walk@, inputs_from(defs, inner@), no_use()));
    }
    if let Some(j) = ctx.index.find_type(inner) {
        if let Definition::TypeDefinition(TypeDefinition::InputObject(input_obj)) =
            &ctx.schema.definitions[j] {
            if !walk.expanded[j] {
                walk.expanded.set(j, true);
                proof {
                    lemma_count_false_set(entry.expanded, j as int);
                }
                let mut k: usize = 0;
                while k < input_obj.fields.len()
                    invariant
                        k <= input_obj.fields.len(),
                        ctx.wf(),
                        defs == ctx.schema@,
                        q == *ctx.query,
                        j < defs.len(),
                        lookup(defs, inner@) == Some(j as int),
                        inner@ == arg.value_type.base()@,
                        defs[j as int].input_fields() == input_obj.fields@,
                        walk@.fits(defs, q),
                        walk@.sound(defs, q),
                        entry == old(walk)@,
                        entry.fits(defs, q),
                        entry.grows_to(walk@),
                        walk@.started == entry.started,
                        walk@.expanded[j as int],
                        !entry.expanded[j as int],
                        walk@.has_type(inner@),
                        entry.adds_only(walk@, inputs_from(defs, inner@), no_use()),
                        forall|m: int|
                            0 <= m < k ==> walk@.entered(
                                defs,
                                (#[trigger] input_obj.fields@[m]).value_type.base()@,
                            ),
                        forall|i: int|
                            0 <= i < walk@.expanded.len() && #[trigger] walk@.expanded[i]
                                && !entry.expanded[i] && i != j ==> walk@.expansion_done(defs, i),
                        count_false(walk@.expanded) < count_false(entry.expanded),
                        forall|ty: Seq<char>| #[trigger]
                            input_reaches(defs, inner@, ty) ==> marks(defs, q, ty),
                    decreases input_obj.fields.len() - k,
                {
                    let ghost mid = walk@;
                    let field = &input_obj.fields[k];
                    proof {
                        let next = field.value_type.base()@;
                        assert(defs[j as int].input_fields()[k as int] == *field);
                        assert(feeds(defs, inner@, next));
                        assert forall|ty: Seq<char>| #[trigger]
                            input_reaches(defs, next, ty) implies input_reaches(
                            defs,
                            inner@,
                            ty,
                        ) && marks(defs, q, ty) by {
                            lemma_step_then_reaches(input_step(defs), inner@, next, ty);
                            assert(input_reaches(defs, inner@, ty));
                        }
                    }
                    collect_input_types(ctx, field, walk);
                    proof {
                        lemma_adds_only_trans(
                            entry,
                            mid,
                            walk@,
                            inputs_from(defs, inner@),
                            no_use(),
                            inputs_from(defs, field.value_type.base()@),
                            no_use(),
                            inputs_from(defs, inner@),
                            no_use(),
                        );
                        lemma_grows_keeps(defs, q, mid, walk@);
                        lemma_grows_trans(entry, mid, walk@);
                        lemma_count_false_mono(mid.expanded, walk@.expanded);
                        assert forall|m: int| 0 <= m < k + 1 implies walk@.entered(
                            defs,
                            (#[trigger] input_obj.fields@[m]).value_type.base()@,
                        ) by {
                            if m < k {
                                assert(mid.entered(defs, input_obj.fields@[m].value_type.base()@));
                            }
                        }
                        assert forall|i: int|
                            0 <= i < walk@.expanded.len() && #[trigger] walk@.expanded[i]
                                && !entry.expanded[i] && i != j implies walk@.expansion_done(
                            defs,
                            i,
                        ) by {
                            if mid.expanded[i] {
                                assert(mid.expansion_done(defs, i));
                            }
                        }
                    }
                    k = k + 1;
                }
                assert(walk@.expansion_done(defs, j as int));
            }
        }
    }
    proof {
        if entry.input_closed(defs) {
            lemma_closed_again(defs, entry, walk@);
            lemma_input_closure(defs, walk@, inner@);
        }
    }
}

/// Marks a type that the query marks.
fn mark(walk: &mut Walk, ty: &String, Ghost(defs): Ghost<Seq<DefinitionView>>, Ghost(q): Ghost<query::Document>)
    requires
        old(walk)@.steady(defs, q),
        marks(defs, q, ty@),
    ensures
        old(walk)@.went_on_to(final(walk)@, defs, q),
        final(walk)@.used == with_type(old(walk)@.used, ty@),
        final(walk)@.has_type(ty@),
        final(walk)@.started == old(walk)@.started,
        final(walk)@.expanded == old(walk)@.expanded,
{
    let ghost entry = walk@;
    walk.used.mark(ty);
    proof {
        lemma_marked(defs, q, entry, walk@, ty@);
        lemma_went_on_by_record(defs, q, entry, walk@);
    }
}

/// Records a field that the query uses on a type.
fn record_use(
    walk: &mut Walk,
    ty: &String,
    field: &String,
    Ghost(defs): Ghost<Seq<DefinitionView>>,
    Ghost(q): Ghost<query::Document>,
)
    requires
        old(walk)@.steady(defs, q),
        marks(defs, q, ty@),
        uses_field(defs, q, ty@, field@),
    ensures
        old(walk)@.went_on_to(final(walk)@, defs, q),
        final(walk)@.used == with_field(old(walk)@.used, ty@, field@),
        final(walk)@.has_use(ty@, field@),
        final(walk)@.has_type(ty@),
        final(walk)@.started == old(walk)@.started,
        final(walk)@.expanded == old(walk)@.expanded,
{
    let ghost entry = walk@;
    walk.used.insert(ty, field);
    proof {
        lemma_inserted(defs, q, entry, walk@, ty@, field@);
        lemma_went_on_by_record(defs, q, entry, walk@);
    }
}

/// Retrieves the fields of an object or interface type.
fn type_fields(typ: &TypeDefinition) -> (fields: Option<&Vec<Field>>)
    ensures
        fields is Some <==> typ is Object || typ is Interface,
        match fields {
            Some(f) => f@ == typ@.fields(),
            None => typ@.fields() == Seq::<Field>::empty(),
        },
{
    match typ {
        TypeDefinition::Object(obj) => Some(&obj.fields),
        TypeDefinition::Interface(iface) => Some(&iface.fields),
        _ => None,
    }
}

/// The definition that the type called `parent_type` stands for.
fn parent_definition<'a>(ctx: &Context<'a>, parent_type: &String) -> (parent: Option<
    &'a TypeDefinition,
>)
    requires
        ctx.wf(),
    ensures
        match parent {
            Some(td) => lookup(ctx.schema@, parent_type@) matches Some(i) && ctx.schema@[i]
                == DefinitionView::TypeDefinition(td@),
            None => lookup(ctx.schema@, parent_type@) is None,
        },
{
    proof {
        lemma_lookup(ctx.schema@, parent_type@);
    }
    match ctx.index.find_type(parent_type) {
        Some(i) => match &ctx.schema.definitions[i] {
            Definition::TypeDefinition(parent_def) => Some(parent_def),
            _ => None,
        },
        None => None,
    }
}

/// Under a parent that the schema does not define a selection marks nothing,
/// uses nothing and leads nowhere.
proof fn lemma_nothing_under_undefined(
    defs: Seq<DefinitionView>,
    q: query::Document,
    parent: Seq<char>,
    item: Selection,
)
    requires
        lookup(defs, parent) is None,
    ensures
        child(defs, q, parent, item) is None,
        local_child(defs, parent, item) is None,
        forall|ty: Seq<char>| !item_marks(defs, q, parent, item, ty),
        forall|ty: Seq<char>, f: Seq<char>| !item_uses(defs, parent, item, ty, f),
{
    assert forall|name: Seq<char>| selected_field(defs, parent, name) is None by {
        lemma_first_named(Seq::<Field>::empty(), name);
    }
}

/// The index of the first field called `name`.
fn find_field(fields: &Vec<Field>, name: &String) -> (found: Option<usize>)
    ensures
        match found {
            Some(k) => first_named(fields@, name@) == Some(k as int) && k < fields@.len(),
            None => first_named(fields@, name@) is None,
        },
{
    let mut k: usize = 0;
    while k < fields.len()
        invariant
            k <= fields.len(),
            forall|j: int| 0 <= j < k ==> fields@[j].name@ != name@,
        decreases fields.len() - k,
    {
        if fields[k].name == *name {
            proof {
                lemma_first_named(fields@, name@);
            }
            return Some(k);
        }
        k = k + 1;
    }
    proof {
        lemma_first_named(fields@, name@);
    }
    None
}

/// A record with one more type marked adds that type alone.
proof fn lemma_mark_adds(a: Progress, b: Progress, ty: Seq<char>)
    requires
        b.used == with_type(a.used, ty),
    ensures
        a.adds_only(b, the_type(ty), no_use()),
{
}

/// Marking a type that the query marks keeps the record sound.
proof fn lemma_marked(
    defs: Seq<DefinitionView>,
    q: query::Document,
    before: Progress,
    after: Progress,
    ty: Seq<char>,
)
    requires
        before.sound(defs, q),
        marks(defs, q, ty),
        after.used == with_type(before.used, ty),
        after.started == before.started,
        after.expanded == before.expanded,
    ensures
        after.sound(defs, q),
        before.grows_to(after),
        after.has_type(ty),
{
    assert forall|t: Seq<char>| #[trigger] after.has_type(t) implies marks(defs, q, t) by {
        if t != ty {
            assert(before.has_type(t));
        }
    }
    assert forall|t: Seq<char>, f: Seq<char>| #[trigger] after.has_use(t, f) implies uses_field(
        defs,
        q,
        t,
        f,
    ) by {
        assert(before.has_use(t, f));
    }
}

/// Recording a field that the query uses keeps the record sound.
proof fn lemma_inserted(
    defs: Seq<DefinitionView>,
    q: query::Document,
    before: Progress,
    after: Progress,
    ty: Seq<char>,
    field: Seq<char>,
)
    requires
        before.sound(defs, q),
        marks(defs, q, ty),
        uses_field(defs, q, ty, field),
        after.used == with_field(before.used, ty, field),
        after.started == before.started,
        after.expanded == before.expanded,
    ensures
        after.sound(defs, q),
        before.grows_to(after),
        after.has_use(ty, field),
{
    assert forall|t: Seq<char>| #[trigger] after.has_type(t) implies marks(defs, q, t) by {
        if t != ty {
            assert(before.has_type(t));
        }
    }
    assert forall|t: Seq<char>, f: Seq<char>| #[trigger] after.has_use(t, f) implies uses_field(
        defs,
        q,
        t,
        f,
    ) by {
        if !(t == ty && f == field) {
            assert(before.has_use(t, f));
        }
    }
}

/// Marks alone, with every expanded input object done again, let the walk go
/// on.
proof fn lemma_went_on_by_marks(defs: Seq<DefinitionView>, q: query::Document, a: Progress, b: Progress)
    requires
        a.steady(defs, q),
        a.grows_to(b),
        b.fits(defs, q),
        b.sound(defs, q),
        b.input_closed(defs),
        b.started == a.started,
    ensures
        a.went_on_to(b, defs, q),
{
}

/// The walk is through with the first `upto` definitions of the query: each
/// operation among them that starts has its root type marked and its
/// selections covered, and so has every fragment that was taken up.
spec fn walk_done(defs: Seq<DefinitionView>, q: query::Document, p: Progress, upto: int) -> bool {
    &&& p.fits(defs, q)
    &&& p.sound(defs, q)
    &&& forall|i: int|
        0 <= i < p.started.len() && #[trigger] p.started[i] ==> (
        q.definitions@[i] matches query::Definition::Fragment(f) && p.covered(
            defs,
            q,
            fragment_visit(f),
        ))
    &&& forall|o: int|
        0 <= o < upto ==> (#[trigger] q.definitions@[o] matches query::Definition::Operation(op)
            ==> (operation_visit(defs, op) matches Some(r) ==> p.has_type(r.parent) && p.covered(
            defs,
            q,
            r,
        )))
}

/// One more definition of the query is done once the walk went on and, where
/// the definition is an operation that starts, marked and covered its root.
proof fn lemma_walk_done_next(
    defs: Seq<DefinitionView>,
    q: query::Document,
    before: Progress,
    after: Progress,
    o: int,
)
    requires
        0 <= o < q.definitions@.len(),
        walk_done(defs, q, before, o),
        before.input_closed(defs),
        before.went_on_to(after, defs, q) || after == before,
        q.definitions@[o] matches query::Definition::Operation(op) ==> (operation_visit(
            defs,
            op,
        ) matches Some(r) ==> after.has_type(r.parent) && after.covered(defs, q, r)),
    ensures
        walk_done(defs, q, after, o + 1),
        after.input_closed(defs),
{
    lemma_grows_trans(before, before, before);
    lemma_grows_keeps(defs, q, before, after);
    assert forall|i: int| 0 <= i < after.started.len() && #[trigger] after.started[i] implies (
    q.definitions@[i] matches query::Definition::Fragment(f) && after.covered(
        defs,
        q,
        fragment_visit(f),
    )) by {
        if before.started[i] {
            if let query::Definition::Fragment(f) = q.definitions@[i] {
                assert(before.covered(defs, q, fragment_visit(f)));
            }
        }
    }
    assert forall|m: int| 0 <= m < o + 1 implies (
    #[trigger] q.definitions@[m] matches query::Definition::Operation(op) ==> (operation_visit(
        defs,
        op,
    ) matches Some(r) ==> after.has_type(r.parent) && after.covered(defs, q, r))) by {
        if m < o {
            if let query::Definition::Operation(op) = q.definitions@[m] {
                if let Some(r) = operation_visit(defs, op) {
                    assert(before.has_type(r.parent));
                    assert(before.covered(defs, q, r));
                }
            }
        }
    }
}

/// After the walk, all that it came to is covered.
proof fn lemma_all_covered(defs: Seq<DefinitionView>, q: query::Document, p: Progress, v: Visit)
    requires
        walk_done(defs, q, p, q.definitions@.len() as int),
        visited(defs, q, v),
    ensures
        p.covered(defs, q, v),
{
    let r = choose|r: Visit| #[trigger] is_root_visit(defs, q, r) && reaches(visit_step(defs, q), r, v);
    let o = choose|o: int|
        0 <= o < q.definitions@.len() && (#[trigger] q.definitions@[o] matches query::Definition::Operation(
            op,
        ) && operation_visit(defs, op) == Some(r));
    assert(p.covered(defs, q, r));
    let step = visit_step(defs, q);
    let inv = |x: Visit| p.covered(defs, q, x);
    assert forall|a: Visit, b: Visit| inv(a) && #[trigger] step(a, b) implies inv(b) by {
        let k = choose|k: int|
            0 <= k < a.selection_set.items@.len() && child(
                defs,
                q,
                a.parent,
                #[trigger] a.selection_set.items@[k],
            ) == Some(b);
        let item = a.selection_set.items@[k];
        lemma_reaches_self(local_step(defs), a);
        assert(p.direct_ok(defs, q, a));
        assert(p.item_ok(defs, q, a.parent, item));
        if let Selection::FragmentSpread(s) = item {
            lemma_fragment_index(q.definitions@, s.fragment_name@);
            let i = fragment_index(q, s.fragment_name@).unwrap();
            assert(p.started[i]);
        } else {
            assert(leads_locally(defs, a, b));
            assert forall|w: Visit| #[trigger] reaches(local_step(defs), b, w) implies p.direct_ok(
                defs,
                q,
                w,
            ) by {
                lemma_step_then_reaches(local_step(defs), a, b, w);
            }
        }
    }
    crate::reach::lemma_reaches_induct(step, inv, r, v);
}

/// After the walk, the record is the field-usage closure.
proof fn lemma_walk_complete(defs: Seq<DefinitionView>, q: query::Document, p: Progress)
    requires
        walk_done(defs, q, p, q.definitions@.len() as int),
    ensures
        p.used == used_fields(defs, q),
{
    let goal = used_fields(defs, q);
    assert forall|ty: Seq<char>| marks(defs, q, ty) implies p.has_type(ty) by {
        if exists|r: Visit| #[trigger] is_root_visit(defs, q, r) && r.parent == ty {
            let r = choose|r: Visit| #[trigger] is_root_visit(defs, q, r) && r.parent == ty;
            let o = choose|o: int|
                0 <= o < q.definitions@.len() && (
                #[trigger] q.definitions@[o] matches query::Definition::Operation(op)
                    && operation_visit(defs, op) == Some(r));
        } else {
            let (v, k) = choose|v: Visit, k: int|
                visited(defs, q, v) && 0 <= k < v.selection_set.items@.len() && item_marks(
                    defs,
                    q,
                    v.parent,
                    #[trigger] v.selection_set.items@[k],
                    ty,
                );
            lemma_all_covered(defs, q, p, v);
            lemma_reaches_self(local_step(defs), v);
            assert(p.direct_ok(defs, q, v));
            assert(p.item_ok(defs, q, v.parent, v.selection_set.items@[k]));
        }
    }
    assert forall|ty: Seq<char>, f: Seq<char>| uses_field(defs, q, ty, f) implies p.has_use(
        ty,
        f,
    ) by {
        let (v, k) = choose|v: Visit, k: int|
            visited(defs, q, v) && 0 <= k < v.selection_set.items@.len() && item_uses(
                defs,
                v.parent,
                #[trigger] v.selection_set.items@[k],
                ty,
                f,
            );
        lemma_all_covered(defs, q, p, v);
        lemma_reaches_self(local_step(defs), v);
        assert(p.direct_ok(defs, q, v));
        assert(p.item_ok(defs, q, v.parent, v.selection_set.items@[k]));
    }
    assert forall|ty: Seq<char>| #[trigger] p.used.dom().contains(ty) implies p.used[ty]
        =~= goal[ty] by {
        assert forall|f: Seq<char>| p.used[ty].contains(f) == goal[ty].contains(f) by {
            if p.used[ty].contains(f) {
                assert(p.has_use(ty, f));
            }
        }
    }
    assert(p.used =~~= goal);
}

} // verus!
