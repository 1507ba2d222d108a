//! Pruning: the schema cut down to what a query uses of it.

use vstd::prelude::*;
use crate::collect::collect;
use crate::query;
use crate::schema::Definition;
use crate::schema::DefinitionView;
use crate::schema::Document;
use crate::schema::Field;
use crate::schema::FieldedTypeView;
use crate::schema::InterfaceType;
use crate::schema::ObjectType;
use crate::schema::TypeDefinition;
use crate::schema::TypeDefinitionView;
use crate::usage::used_fields;
use crate::used::records_use;
use crate::used::Usage;
use crate::used::UsedFields;
use crate::util::schema_type_definition_name;

verus! {

/// One of the names is marked as used.
pub open spec fn any_used(used: Usage, names: Seq<String>) -> bool {
    exists|k: int| 0 <= k < names.len() && used.dom().contains((#[trigger] names[k])@)
}

/// The field is used on one of the named types.
pub open spec fn used_through(used: Usage, names: Seq<String>, field: Seq<char>) -> bool {
    exists|k: int| 0 <= k < names.len() && records_use(used, (#[trigger] names[k])@, field)
}

/// A field stays on a type called `owner` if it is used on that type, or on
/// one of the interfaces in `through`.
pub open spec fn keeps_field(
    used: Usage,
    owner: Seq<char>,
    through: Seq<String>,
    field: Field,
) -> bool {
    records_use(used, owner, field.name@) || used_through(used, through, field.name@)
}

/// What becomes of a definition under a record of what is used.
///
/// An object type stays if it is marked or implements a marked interface,
/// with the fields used on it or on an interface that it implements. An
/// interface stays if it is marked, with the fields used on it. Any other
/// type stays as it is if it is marked. What defines no type stays as it is.
pub open spec fn pruned_definition(used: Usage, d: DefinitionView) -> Option<DefinitionView> {
    match d {
        DefinitionView::TypeDefinition(TypeDefinitionView::Object(t)) => if used.dom().contains(
            t.name@,
        ) || any_used(used, t.implements_interfaces@) {
            Some(
                DefinitionView::TypeDefinition(
                    TypeDefinitionView::Object(
                        FieldedTypeView {
                            fields: t.fields.filter(
                                |f: Field| keeps_field(used, t.name@, t.implements_interfaces@, f),
                            ),
                            ..t
                        },
                    ),
                ),
            )
        } else {
            None
        },
        DefinitionView::TypeDefinition(TypeDefinitionView::Interface(t)) => if used.dom().contains(
            t.name@,
        ) {
            Some(
                DefinitionView::TypeDefinition(
                    TypeDefinitionView::Interface(
                        FieldedTypeView {
                            fields: t.fields.filter(
                                |f: Field| keeps_field(used, t.name@, Seq::empty(), f),
                            ),
                            ..t
                        },
                    ),
                ),
            )
        } else {
            None
        },
        DefinitionView::TypeDefinition(t) => if used.dom().contains(t.name()@) {
            Some(d)
        } else {
            None
        },
        _ => Some(d),
    }
}

/// The schema cut down to a record of what is used: what becomes of each
/// definition, in their order.
pub open spec fn pruned_with(defs: Seq<DefinitionView>, used: Usage) -> Seq<DefinitionView> {
    defs.filter_map(|d: DefinitionView| pruned_definition(used, d))
}

/// The schema cut down to what the query uses of it.
pub open spec fn pruned(defs: Seq<DefinitionView>, q: query::Document) -> Seq<DefinitionView> {
    pruned_with(defs, used_fields(defs, q))
}

/// Cuts a schema down to what a query uses of it.
///
/// The used types and fields are the field-usage closure of the query. A
/// definition that defines no type stays as it is. A type stays if it is used,
/// an object type also if it implements a used interface. Objects and
/// interfaces keep the fields that are used, every other type stays whole.
/// What stays keeps its order.
pub fn process(schema: Document, query: &query::Document) -> (out: Document)
    ensures
        out@ == pruned(schema@, *query),
{
    let used_fields = collect(&schema, query);
    prune_with(schema, &used_fields)
}

/// Cuts a schema down to a record of what is used.
pub fn prune_with(schema: Document, used: &UsedFields) -> (out: Document)
    ensures
        out@ == pruned_with(schema@, used@),
{
    let ghost defs = schema@;
    let ghost all = schema.definitions@;
    let n: usize = schema.definitions.len();
    let ghost cut = |d: DefinitionView| pruned_definition(used@, d);
    let mut pruned_defs: Vec<Definition> = Vec::new();
    let mut i: usize = 0;
    assert(defs.take(0) =~= Seq::<DefinitionView>::empty());
    for def in it: schema.definitions
        invariant
            i == it.index(),
            it.seq() == all,
            n == all.len(),
            defs == all.map_values(|d: Definition| d@),
            cut == |d: DefinitionView| pruned_definition(used@, d),
            pruned_defs@.map_values(|d: Definition| d@) == defs.take(i as int).filter_map(cut),
    {
        assert(def == all[i as int]);
        let ghost before = pruned_defs@;
        proof {
            defs.lemma_filter_map_take_succ(cut, i as int);
        }
        if let Some(d) = prune_definition(def, used) {
            pruned_defs.push(d);
            assert(pruned_defs@.map_values(|d: Definition| d@) =~= before.map_values(
                |d: Definition| d@,
            ) + seq![d@]);
        }
        i = i + 1;
    }
    assert(defs.take(i as int) =~= defs);
    Document { definitions: pruned_defs }
}

/// Cuts one definition down to what is used; `None` where nothing of it is.
fn prune_definition(def: Definition, used: &UsedFields) -> (out: Option<Definition>)
    ensures
        match out {
            Some(d) => pruned_definition(used@, def@) == Some(d@),
            None => pruned_definition(used@, def@) is None,
        },
{
    match def {
        Definition::TypeDefinition(td) => match td {
            TypeDefinition::Object(obj) => {
                if used.contains_key(&obj.name) || any_marked(used, &obj.implements_interfaces) {
                    let ObjectType {
                        position,
                        description,
                        name,
                        implements_interfaces,
                        directives,
                        fields,
                    } = obj;
                    let kept_fields = keep_fields(fields, used, &name, &implements_interfaces);
                    Some(
                        Definition::TypeDefinition(
                            TypeDefinition::Object(
                                ObjectType {
                                    position,
                                    description,
                                    name,
                                    implements_interfaces,
                                    directives,
                                    fields: kept_fields,
                                },
                            ),
                        ),
                    )
                } else {
                    None
                }
            },
            TypeDefinition::Interface(iface) => {
                if used.contains_key(&iface.name) {
                    let InterfaceType {
                        position,
                        description,
                        name,
                        implements_interfaces,
                        directives,
                        fields,
                    } = iface;
                    let alone: Vec<String> = Vec::new();
                    let kept_fields = keep_fields(fields, used, &name, &alone);
                    assert(alone@ =~= Seq::<String>::empty());
                    Some(
                        Definition::TypeDefinition(
                            TypeDefinition::Interface(
                                InterfaceType {
                                    position,
                                    description,
                                    name,
                                    implements_interfaces,
                                    directives,
                                    fields: kept_fields,
                                },
                            ),
                        ),
                    )
                } else {
                    None
                }
            },
            other => {
                let keep = match schema_type_definition_name(&other) {
                    Some(name) => used.contains_key(name),
                    None => false,
                };
                if keep {
                    Some(Definition::TypeDefinition(other))
                } else {
                    None
                }
            },
        },
        other => Some(other),
    }
}

/// Keeps the fields that are used on the type or through an interface.
fn keep_fields(fields: Vec<Field>, used: &UsedFields, owner: &String, through: &Vec<String>) -> (kept: Vec<Field>)
    ensures
        kept@ == fields@.filter(|f: Field| keeps_field(used@, owner@, through@, f)),
{
    let ghost all = fields@;
    let n: usize = fields.len();
    let ghost keep = |f: Field| keeps_field(used@, owner@, through@, f);
    let mut kept: Vec<Field> = Vec::new();
    let mut i: usize = 0;
    assert(all.take(0) =~= Seq::<Field>::empty());
    assert(all.take(0).filter(keep) =~= Seq::<Field>::empty()) by {
        reveal(Seq::filter);
    }
    for field in it: fields
        invariant
            i == it.index(),
            it.seq() == all,
            n == all.len(),
            keep == |f: Field| keeps_field(used@, owner@, through@, f),
            kept@ == all.take(i as int).filter(keep),
    {
        assert(field == all[i as int]);
        proof {
            assert(all.take(i + 1) =~= all.take(i as int).push(all[i as int]));
            all.take(i as int).lemma_filter_push(all[i as int], keep);
        }
        if used.contains(owner, &field.name) || any_uses(used, through, &field.name) {
            kept.push(field);
        }
        i = i + 1;
    }
    assert(all.take(i as int) =~= all);
    kept
}

/// Whether one of the names is marked as used.
fn any_marked(used: &UsedFields, names: &Vec<String>) -> (yes: bool)
    ensures
        yes == any_used(used@, names@),
{
    let mut k: usize = 0;
    while k < names.len()
        invariant
            k <= names.len(),
            forall|j: int| 0 <= j < k ==> !used@.dom().contains((#[trigger] names@[j])@),
        decreases names.len() - k,
    {
        if used.contains_key(&names[k]) {
            return true;
        }
        k = k + 1;
    }
    false
}

/// Whether the field is used on one of the named types.
fn any_uses(used: &UsedFields, names: &Vec<String>, field: &String) -> (yes: bool)
    ensures
        yes == used_through(used@, names@, field@),
{
    let mut k: usize = 0;
    while k < names.len()
        invariant
            k <= names.len(),
            forall|j: int| 0 <= j < k ==> !records_use(used@, (#[trigger] names@[j])@, field@),
        decreases names.len() - k,
    {
        if used.contains(&names[k], field) {
            return true;
        }
        k = k + 1;
    }
    false
}

} // verus!
