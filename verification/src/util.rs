//! The names that definitions and type references carry.

use vstd::prelude::*;
use crate::schema::Definition;
use crate::schema::DefinitionView;
use crate::schema::Type;
use crate::schema::TypeDefinition;

verus! {

/// The name of a definition that has one of its own: a type definition or a
/// directive definition. A schema block and a type extension have none.
pub open spec fn definition_name(d: DefinitionView) -> Option<String> {
    match d {
        DefinitionView::SchemaDefinition(_) => None,
        DefinitionView::TypeDefinition(t) => Some(t.name()),
        DefinitionView::TypeExtension(_) => None,
        DefinitionView::DirectiveDefinition(dir) => Some(dir.name),
    }
}

pub fn schema_definition_name(d: &Definition) -> (name: Option<&String>)
    ensures
        name == match definition_name(d@) {
            Some(n) => Some(&n),
            None => None,
        },
{
    match d {
        Definition::SchemaDefinition(_) => None,
        Definition::TypeDefinition(type_definition) => schema_type_definition_name(
            type_definition,
        ),
        Definition::TypeExtension(_) => None,
        Definition::DirectiveDefinition(directive_definition) => Some(&directive_definition.name),
    }
}

pub fn schema_type_definition_name(td: &TypeDefinition) -> (name: Option<&String>)
    ensures
        name == Some(&td@.name()),
{
    match td {
        TypeDefinition::Scalar(scalar_type) => Some(&scalar_type.name),
        TypeDefinition::Object(object_type) => Some(&object_type.name),
        TypeDefinition::Interface(interface_type) => Some(&interface_type.name),
        TypeDefinition::Union(union_type) => Some(&union_type.name),
        TypeDefinition::Enum(enum_type) => Some(&enum_type.name),
        TypeDefinition::InputObject(input_object_type) => Some(&input_object_type.name),
    }
}

/// The base name of a type reference, found by taking off one list or non-null
/// mark after the other. There always is one.
pub fn named_type(ty: &Type) -> (name: Option<&String>)
    ensures
        name == Some(&ty.base()),
{
    let mut inner = ty;
    loop
        invariant
            inner.base() == ty.base(),
        decreases inner,
    {
        match inner {
            Type::NamedType(n) => {
                return Some(n);
            },
            Type::ListType(below) => {
                inner = below;
            },
            Type::NonNullType(below) => {
                inner = below;
            },
        }
    }
}

} // verus!
