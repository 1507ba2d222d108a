//! The names of definitions and type references, on values written by hand.

use graphql_closure::index::SchemaIndex;
use graphql_closure::schema::Definition;
use graphql_closure::schema::DirectiveDefinition;
use graphql_closure::schema::Document;
use graphql_closure::schema::EnumType;
use graphql_closure::schema::InputObjectType;
use graphql_closure::schema::InterfaceType;
use graphql_closure::schema::ObjectType;
use graphql_closure::schema::Pos;
use graphql_closure::schema::ScalarType;
use graphql_closure::schema::ScalarTypeExtension;
use graphql_closure::schema::SchemaDefinition;
use graphql_closure::schema::Type;
use graphql_closure::schema::TypeDefinition;
use graphql_closure::schema::TypeExtension;
use graphql_closure::schema::UnionType;
use graphql_closure::util::named_type;
use graphql_closure::util::schema_definition_name;
use graphql_closure::util::schema_type_definition_name;

fn origin() -> Pos {
    Pos { line: 1, column: 1 }
}

fn scalar(name: &str) -> TypeDefinition {
    TypeDefinition::Scalar(ScalarType {
        position: origin(),
        description: None,
        name: name.to_string(),
        directives: vec![],
    })
}

fn object(name: &str) -> TypeDefinition {
    TypeDefinition::Object(ObjectType {
        position: origin(),
        description: None,
        name: name.to_string(),
        implements_interfaces: vec![],
        directives: vec![],
        fields: vec![],
    })
}

#[test]
fn named_type_strips_every_mark() {
    let plain = Type::NamedType("User".to_string());
    assert_eq!(named_type(&plain), Some(&"User".to_string()));
    let wrapped = Type::NonNullType(Box::new(Type::ListType(Box::new(Type::NonNullType(
        Box::new(Type::NamedType("Item".to_string())),
    )))));
    assert_eq!(named_type(&wrapped), Some(&"Item".to_string()));
}

#[test]
fn type_definitions_have_their_names() {
    assert_eq!(schema_type_definition_name(&scalar("Date")), Some(&"Date".to_string()));
    assert_eq!(schema_type_definition_name(&object("User")), Some(&"User".to_string()));
    let interface = TypeDefinition::Interface(InterfaceType {
        position: origin(),
        description: None,
        name: "Node".to_string(),
        implements_interfaces: vec![],
        directives: vec![],
        fields: vec![],
    });
    assert_eq!(schema_type_definition_name(&interface), Some(&"Node".to_string()));
    let union = TypeDefinition::Union(UnionType {
        position: origin(),
        description: None,
        name: "Either".to_string(),
        directives: vec![],
        types: vec![],
    });
    assert_eq!(schema_type_definition_name(&union), Some(&"Either".to_string()));
    let an_enum = TypeDefinition::Enum(EnumType {
        position: origin(),
        description: None,
        name: "Color".to_string(),
        directives: vec![],
        values: vec![],
    });
    assert_eq!(schema_type_definition_name(&an_enum), Some(&"Color".to_string()));
    let input = TypeDefinition::InputObject(InputObjectType {
        position: origin(),
        description: None,
        name: "Filter".to_string(),
        directives: vec![],
        fields: vec![],
    });
    assert_eq!(schema_type_definition_name(&input), Some(&"Filter".to_string()));
}

#[test]
fn definitions_have_names_where_they_name_something() {
    let block = Definition::SchemaDefinition(SchemaDefinition {
        position: origin(),
        directives: vec![],
        query: Some("Root".to_string()),
        mutation: None,
        subscription: None,
    });
    assert_eq!(schema_definition_name(&block), None);
    let extension = Definition::TypeExtension(TypeExtension::Scalar(ScalarTypeExtension {
        position: origin(),
        name: "Date".to_string(),
        directives: vec![],
    }));
    assert_eq!(schema_definition_name(&extension), None);
    let directive = Definition::DirectiveDefinition(DirectiveDefinition {
        position: origin(),
        description: None,
        name: "auth".to_string(),
        arguments: vec![],
        repeatable: false,
        locations: vec![],
    });
    assert_eq!(schema_definition_name(&directive), Some(&"auth".to_string()));
    let ty = Definition::TypeDefinition(object("User"));
    assert_eq!(schema_definition_name(&ty), Some(&"User".to_string()));
}

#[test]
fn find_type_finds_the_last_definition_of_a_name() {
    let doc = Document {
        definitions: vec![
            Definition::TypeDefinition(object("A")),
            Definition::TypeDefinition(scalar("B")),
            Definition::TypeDefinition(object("A")),
            Definition::TypeExtension(TypeExtension::Scalar(ScalarTypeExtension {
                position: origin(),
                name: "C".to_string(),
                directives: vec![],
            })),
        ],
    };
    assert_eq!(SchemaIndex::new(&doc).find_type(&"A".to_string()), Some(2));
    assert_eq!(SchemaIndex::new(&doc).find_type(&"B".to_string()), Some(1));
    assert_eq!(SchemaIndex::new(&doc).find_type(&"C".to_string()), None);
    assert_eq!(SchemaIndex::new(&doc).find_type(&"D".to_string()), None);
}
