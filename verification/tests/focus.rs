//! The reachability closure, from schema text to schema text.

use graphql_closure::focus;
use graphql_closure::schema;
use graphql_parser::schema as ast;

fn pos_in(p: graphql_parser::Pos) -> schema::Pos {
    schema::Pos { line: p.line, column: p.column }
}

fn pos_out(p: &schema::Pos) -> graphql_parser::Pos {
    graphql_parser::Pos { line: p.line, column: p.column }
}

fn value_in(v: ast::Value<'static, String>) -> schema::Value {
    match v {
        ast::Value::Variable(name) => schema::Value::Variable(name),
        ast::Value::Int(n) => schema::Value::Int(n.as_i64().expect("an integer")),
        ast::Value::Float(f) => schema::Value::Float(f.to_bits()),
        ast::Value::String(s) => schema::Value::String(s),
        ast::Value::Boolean(b) => schema::Value::Boolean(b),
        ast::Value::Null => schema::Value::Null,
        ast::Value::Enum(name) => schema::Value::Enum(name),
        ast::Value::List(items) => schema::Value::List(items.into_iter().map(value_in).collect()),
        ast::Value::Object(entries) => schema::Value::Object(
            entries
                .into_iter()
                .map(|(name, value)| schema::Entry { name, value: value_in(value) })
                .collect(),
        ),
    }
}

fn number_out(n: i64) -> ast::Value<'static, String> {
    let text = format!("input A {{ a: Int = {} }}", n);
    let doc = graphql_parser::parse_schema::<String>(&text).expect("a number").into_static();
    for def in doc.definitions {
        if let ast::Definition::TypeDefinition(ast::TypeDefinition::InputObject(t)) = def {
            for field in t.fields {
                if let Some(value) = field.default_value {
                    return value;
                }
            }
        }
    }
    unreachable!()
}

fn value_out(v: &schema::Value) -> ast::Value<'static, String> {
    match v {
        schema::Value::Variable(name) => ast::Value::Variable(name.clone()),
        schema::Value::Int(n) => number_out(*n),
        schema::Value::Float(bits) => ast::Value::Float(f64::from_bits(*bits)),
        schema::Value::String(s) => ast::Value::String(s.clone()),
        schema::Value::Boolean(b) => ast::Value::Boolean(*b),
        schema::Value::Null => ast::Value::Null,
        schema::Value::Enum(name) => ast::Value::Enum(name.clone()),
        schema::Value::List(items) => ast::Value::List(items.iter().map(value_out).collect()),
        schema::Value::Object(entries) => ast::Value::Object(
            entries.iter().map(|e| (e.name.clone(), value_out(&e.value))).collect(),
        ),
    }
}

fn directives_in(ds: Vec<ast::Directive<'static, String>>) -> Vec<schema::Directive> {
    ds.into_iter()
        .map(|d| schema::Directive {
            position: pos_in(d.position),
            name: d.name,
            arguments: d
                .arguments
                .into_iter()
                .map(|(name, value)| schema::Entry { name, value: value_in(value) })
                .collect(),
        })
        .collect()
}

fn directives_out(ds: &[schema::Directive]) -> Vec<ast::Directive<'static, String>> {
    ds.iter()
        .map(|d| ast::Directive {
            position: pos_out(&d.position),
            name: d.name.clone(),
            arguments: d.arguments.iter().map(|e| (e.name.clone(), value_out(&e.value))).collect(),
        })
        .collect()
}

fn type_in(t: ast::Type<'static, String>) -> schema::Type {
    match t {
        ast::Type::NamedType(name) => schema::Type::NamedType(name),
        ast::Type::ListType(inner) => schema::Type::ListType(Box::new(type_in(*inner))),
        ast::Type::NonNullType(inner) => schema::Type::NonNullType(Box::new(type_in(*inner))),
    }
}

fn type_out(t: &schema::Type) -> ast::Type<'static, String> {
    match t {
        schema::Type::NamedType(name) => ast::Type::NamedType(name.clone()),
        schema::Type::ListType(inner) => ast::Type::ListType(Box::new(type_out(inner))),
        schema::Type::NonNullType(inner) => ast::Type::NonNullType(Box::new(type_out(inner))),
    }
}

fn input_values_in(vs: Vec<ast::InputValue<'static, String>>) -> Vec<schema::InputValue> {
    vs.into_iter()
        .map(|v| schema::InputValue {
            position: pos_in(v.position),
            description: v.description,
            name: v.name,
            value_type: type_in(v.value_type),
            default_value: v.default_value.map(value_in),
            directives: directives_in(v.directives),
        })
        .collect()
}

fn input_values_out(vs: &[schema::InputValue]) -> Vec<ast::InputValue<'static, String>> {
    vs.iter()
        .map(|v| ast::InputValue {
            position: pos_out(&v.position),
            description: v.description.clone(),
            name: v.name.clone(),
            value_type: type_out(&v.value_type),
            default_value: v.default_value.as_ref().map(value_out),
            directives: directives_out(&v.directives),
        })
        .collect()
}

fn fields_in(fs: Vec<ast::Field<'static, String>>) -> Vec<schema::Field> {
    fs.into_iter()
        .map(|f| schema::Field {
            position: pos_in(f.position),
            description: f.description,
            name: f.name,
            arguments: input_values_in(f.arguments),
            field_type: type_in(f.field_type),
            directives: directives_in(f.directives),
        })
        .collect()
}

fn fields_out(fs: &[schema::Field]) -> Vec<ast::Field<'static, String>> {
    fs.iter()
        .map(|f| ast::Field {
            position: pos_out(&f.position),
            description: f.description.clone(),
            name: f.name.clone(),
            arguments: input_values_out(&f.arguments),
            field_type: type_out(&f.field_type),
            directives: directives_out(&f.directives),
        })
        .collect()
}

fn enum_values_in(vs: Vec<ast::EnumValue<'static, String>>) -> Vec<schema::EnumValue> {
    vs.into_iter()
        .map(|v| schema::EnumValue {
            position: pos_in(v.position),
            description: v.description,
            name: v.name,
            directives: directives_in(v.directives),
        })
        .collect()
}

fn enum_values_out(vs: &[schema::EnumValue]) -> Vec<ast::EnumValue<'static, String>> {
    vs.iter()
        .map(|v| ast::EnumValue {
            position: pos_out(&v.position),
            description: v.description.clone(),
            name: v.name.clone(),
            directives: directives_out(&v.directives),
        })
        .collect()
}

fn location_in(l: ast::DirectiveLocation) -> schema::DirectiveLocation {
    match l {
        ast::DirectiveLocation::Query => schema::DirectiveLocation::Query,
        ast::DirectiveLocation::Mutation => schema::DirectiveLocation::Mutation,
        ast::DirectiveLocation::Subscription => schema::DirectiveLocation::Subscription,
        ast::DirectiveLocation::Field => schema::DirectiveLocation::Field,
        ast::DirectiveLocation::FragmentDefinition => schema::DirectiveLocation::FragmentDefinition,
        ast::DirectiveLocation::FragmentSpread => schema::DirectiveLocation::FragmentSpread,
        ast::DirectiveLocation::InlineFragment => schema::DirectiveLocation::InlineFragment,
        ast::DirectiveLocation::Schema => schema::DirectiveLocation::Schema,
        ast::DirectiveLocation::Scalar => schema::DirectiveLocation::Scalar,
        ast::DirectiveLocation::Object => schema::DirectiveLocation::Object,
        ast::DirectiveLocation::FieldDefinition => schema::DirectiveLocation::FieldDefinition,
        ast::DirectiveLocation::ArgumentDefinition => schema::DirectiveLocation::ArgumentDefinition,
        ast::DirectiveLocation::Interface => schema::DirectiveLocation::Interface,
        ast::DirectiveLocation::Union => schema::DirectiveLocation::Union,
        ast::DirectiveLocation::Enum => schema::DirectiveLocation::Enum,
        ast::DirectiveLocation::EnumValue => schema::DirectiveLocation::EnumValue,
        ast::DirectiveLocation::InputObject => schema::DirectiveLocation::InputObject,
        ast::DirectiveLocation::InputFieldDefinition => {
            schema::DirectiveLocation::InputFieldDefinition
        }
        ast::DirectiveLocation::VariableDefinition => schema::DirectiveLocation::VariableDefinition,
    }
}

fn location_out(l: &schema::DirectiveLocation) -> ast::DirectiveLocation {
    match l {
        schema::DirectiveLocation::Query => ast::DirectiveLocation::Query,
        schema::DirectiveLocation::Mutation => ast::DirectiveLocation::Mutation,
        schema::DirectiveLocation::Subscription => ast::DirectiveLocation::Subscription,
        schema::DirectiveLocation::Field => ast::DirectiveLocation::Field,
        schema::DirectiveLocation::FragmentDefinition => ast::DirectiveLocation::FragmentDefinition,
        schema::DirectiveLocation::FragmentSpread => ast::DirectiveLocation::FragmentSpread,
        schema::DirectiveLocation::InlineFragment => ast::DirectiveLocation::InlineFragment,
        schema::DirectiveLocation::Schema => ast::DirectiveLocation::Schema,
        schema::DirectiveLocation::Scalar => ast::DirectiveLocation::Scalar,
        schema::DirectiveLocation::Object => ast::DirectiveLocation::Object,
        schema::DirectiveLocation::FieldDefinition => ast::DirectiveLocation::FieldDefinition,
        schema::DirectiveLocation::ArgumentDefinition => ast::DirectiveLocation::ArgumentDefinition,
        schema::DirectiveLocation::Interface => ast::DirectiveLocation::Interface,
        schema::DirectiveLocation::Union => ast::DirectiveLocation::Union,
        schema::DirectiveLocation::Enum => ast::DirectiveLocation::Enum,
        schema::DirectiveLocation::EnumValue => ast::DirectiveLocation::EnumValue,
        schema::DirectiveLocation::InputObject => ast::DirectiveLocation::InputObject,
        schema::DirectiveLocation::InputFieldDefinition => {
            ast::DirectiveLocation::InputFieldDefinition
        }
        schema::DirectiveLocation::VariableDefinition => ast::DirectiveLocation::VariableDefinition,
    }
}

fn type_definition_in(td: ast::TypeDefinition<'static, String>) -> schema::TypeDefinition {
    match td {
        ast::TypeDefinition::Scalar(t) => schema::TypeDefinition::Scalar(schema::ScalarType {
            position: pos_in(t.position),
            description: t.description,
            name: t.name,
            directives: directives_in(t.directives),
        }),
        ast::TypeDefinition::Object(t) => schema::TypeDefinition::Object(schema::ObjectType {
            position: pos_in(t.position),
            description: t.description,
            name: t.name,
            implements_interfaces: t.implements_interfaces,
            directives: directives_in(t.directives),
            fields: fields_in(t.fields),
        }),
        ast::TypeDefinition::Interface(t) => {
            schema::TypeDefinition::Interface(schema::InterfaceType {
                position: pos_in(t.position),
                description: t.description,
                name: t.name,
                implements_interfaces: t.implements_interfaces,
                directives: directives_in(t.directives),
                fields: fields_in(t.fields),
            })
        }
        ast::TypeDefinition::Union(t) => schema::TypeDefinition::Union(schema::UnionType {
            position: pos_in(t.position),
            description: t.description,
            name: t.name,
            directives: directives_in(t.directives),
            types: t.types,
        }),
        ast::TypeDefinition::Enum(t) => schema::TypeDefinition::Enum(schema::EnumType {
            position: pos_in(t.position),
            description: t.description,
            name: t.name,
            directives: directives_in(t.directives),
            values: enum_values_in(t.values),
        }),
        ast::TypeDefinition::InputObject(t) => {
            schema::TypeDefinition::InputObject(schema::InputObjectType {
                position: pos_in(t.position),
                description: t.description,
                name: t.name,
                directives: directives_in(t.directives),
                fields: input_values_in(t.fields),
            })
        }
    }
}

fn type_definition_out(td: &schema::TypeDefinition) -> ast::TypeDefinition<'static, String> {
    match td {
        schema::TypeDefinition::Scalar(t) => ast::TypeDefinition::Scalar(ast::ScalarType {
            position: pos_out(&t.position),
            description: t.description.clone(),
            name: t.name.clone(),
            directives: directives_out(&t.directives),
        }),
        schema::TypeDefinition::Object(t) => ast::TypeDefinition::Object(ast::ObjectType {
            position: pos_out(&t.position),
            description: t.description.clone(),
            name: t.name.clone(),
            implements_interfaces: t.implements_interfaces.clone(),
            directives: directives_out(&t.directives),
            fields: fields_out(&t.fields),
        }),
        schema::TypeDefinition::Interface(t) => {
            ast::TypeDefinition::Interface(ast::InterfaceType {
                position: pos_out(&t.position),
                description: t.description.clone(),
                name: t.name.clone(),
                implements_interfaces: t.implements_interfaces.clone(),
                directives: directives_out(&t.directives),
                fields: fields_out(&t.fields),
            })
        }
        schema::TypeDefinition::Union(t) => ast::TypeDefinition::Union(ast::UnionType {
            position: pos_out(&t.position),
            description: t.description.clone(),
            name: t.name.clone(),
            directives: directives_out(&t.directives),
            types: t.types.clone(),
        }),
        schema::TypeDefinition::Enum(t) => ast::TypeDefinition::Enum(ast::EnumType {
            position: pos_out(&t.position),
            description: t.description.clone(),
            name: t.name.clone(),
            directives: directives_out(&t.directives),
            values: enum_values_out(&t.values),
        }),
        schema::TypeDefinition::InputObject(t) => {
            ast::TypeDefinition::InputObject(ast::InputObjectType {
                position: pos_out(&t.position),
                description: t.description.clone(),
                name: t.name.clone(),
                directives: directives_out(&t.directives),
                fields: input_values_out(&t.fields),
            })
        }
    }
}

fn type_extension_in(te: ast::TypeExtension<'static, String>) -> schema::TypeExtension {
    match te {
        ast::TypeExtension::Scalar(t) => {
            schema::TypeExtension::Scalar(schema::ScalarTypeExtension {
                position: pos_in(t.position),
                name: t.name,
                directives: directives_in(t.directives),
            })
        }
        ast::TypeExtension::Object(t) => {
            schema::TypeExtension::Object(schema::ObjectTypeExtension {
                position: pos_in(t.position),
                name: t.name,
                implements_interfaces: t.implements_interfaces,
                directives: directives_in(t.directives),
                fields: fields_in(t.fields),
            })
        }
        ast::TypeExtension::Interface(t) => {
            schema::TypeExtension::Interface(schema::InterfaceTypeExtension {
                position: pos_in(t.position),
                name: t.name,
                implements_interfaces: t.implements_interfaces,
                directives: directives_in(t.directives),
                fields: fields_in(t.fields),
            })
        }
        ast::TypeExtension::Union(t) => schema::TypeExtension::Union(schema::UnionTypeExtension {
            position: pos_in(t.position),
            name: t.name,
            directives: directives_in(t.directives),
            types: t.types,
        }),
        ast::TypeExtension::Enum(t) => schema::TypeExtension::Enum(schema::EnumTypeExtension {
            position: pos_in(t.position),
            name: t.name,
            directives: directives_in(t.directives),
            values: enum_values_in(t.values),
        }),
        ast::TypeExtension::InputObject(t) => {
            schema::TypeExtension::InputObject(schema::InputObjectTypeExtension {
                position: pos_in(t.position),
                name: t.name,
                directives: directives_in(t.directives),
                fields: input_values_in(t.fields),
            })
        }
    }
}

fn type_extension_out(te: &schema::TypeExtension) -> ast::TypeExtension<'static, String> {
    match te {
        schema::TypeExtension::Scalar(t) => ast::TypeExtension::Scalar(ast::ScalarTypeExtension {
            position: pos_out(&t.position),
            name: t.name.clone(),
            directives: directives_out(&t.directives),
        }),
        schema::TypeExtension::Object(t) => ast::TypeExtension::Object(ast::ObjectTypeExtension {
            position: pos_out(&t.position),
            name: t.name.clone(),
            implements_interfaces: t.implements_interfaces.clone(),
            directives: directives_out(&t.directives),
            fields: fields_out(&t.fields),
        }),
        schema::TypeExtension::Interface(t) => {
            ast::TypeExtension::Interface(ast::InterfaceTypeExtension {
                position: pos_out(&t.position),
                name: t.name.clone(),
                implements_interfaces: t.implements_interfaces.clone(),
                directives: directives_out(&t.directives),
                fields: fields_out(&t.fields),
            })
        }
        schema::TypeExtension::Union(t) => ast::TypeExtension::Union(ast::UnionTypeExtension {
            position: pos_out(&t.position),
            name: t.name.clone(),
            directives: directives_out(&t.directives),
            types: t.types.clone(),
        }),
        schema::TypeExtension::Enum(t) => ast::TypeExtension::Enum(ast::EnumTypeExtension {
            position: pos_out(&t.position),
            name: t.name.clone(),
            directives: directives_out(&t.directives),
            values: enum_values_out(&t.values),
        }),
        schema::TypeExtension::InputObject(t) => {
            ast::TypeExtension::InputObject(ast::InputObjectTypeExtension {
                position: pos_out(&t.position),
                name: t.name.clone(),
                directives: directives_out(&t.directives),
                fields: input_values_out(&t.fields),
            })
        }
    }
}

fn schema_in(doc: ast::Document<'static, String>) -> schema::Document {
    let definitions = doc
        .definitions
        .into_iter()
        .map(|def| match def {
            ast::Definition::SchemaDefinition(d) => {
                schema::Definition::SchemaDefinition(schema::SchemaDefinition {
                    position: pos_in(d.position),
                    directives: directives_in(d.directives),
                    query: d.query,
                    mutation: d.mutation,
                    subscription: d.subscription,
                })
            }
            ast::Definition::TypeDefinition(td) => {
                schema::Definition::TypeDefinition(type_definition_in(td))
            }
            ast::Definition::TypeExtension(te) => {
                schema::Definition::TypeExtension(type_extension_in(te))
            }
            ast::Definition::DirectiveDefinition(d) => {
                schema::Definition::DirectiveDefinition(schema::DirectiveDefinition {
                    position: pos_in(d.position),
                    description: d.description,
                    name: d.name,
                    arguments: input_values_in(d.arguments),
                    repeatable: d.repeatable,
                    locations: d.locations.into_iter().map(location_in).collect(),
                })
            }
        })
        .collect();
    schema::Document { definitions }
}

fn schema_out(doc: &schema::Document) -> ast::Document<'static, String> {
    let definitions = doc
        .definitions
        .iter()
        .map(|def| match def {
            schema::Definition::SchemaDefinition(d) => {
                ast::Definition::SchemaDefinition(ast::SchemaDefinition {
                    position: pos_out(&d.position),
                    directives: directives_out(&d.directives),
                    query: d.query.clone(),
                    mutation: d.mutation.clone(),
                    subscription: d.subscription.clone(),
                })
            }
            schema::Definition::TypeDefinition(td) => {
                ast::Definition::TypeDefinition(type_definition_out(td))
            }
            schema::Definition::TypeExtension(te) => {
                ast::Definition::TypeExtension(type_extension_out(te))
            }
            schema::Definition::DirectiveDefinition(d) => {
                ast::Definition::DirectiveDefinition(ast::DirectiveDefinition {
                    position: pos_out(&d.position),
                    description: d.description.clone(),
                    name: d.name.clone(),
                    arguments: input_values_out(&d.arguments),
                    repeatable: d.repeatable,
                    locations: d.locations.iter().map(location_out).collect(),
                })
            }
        })
        .collect();
    ast::Document { definitions }
}

fn parse(text: &str) -> schema::Document {
    schema_in(graphql_parser::parse_schema::<String>(text).expect("Invalid schema").into_static())
}

fn print(doc: &schema::Document) -> String {
    format!("{}", schema_out(doc))
}

fn process(text: &str, types: &[&str]) -> String {
    print(&focus::process(parse(text), types))
}

fn names(doc: &schema::Document) -> Vec<String> {
    doc.definitions
        .iter()
        .filter_map(|d| graphql_closure::util::schema_definition_name(d).cloned())
        .collect()
}

#[test]
fn test_focus_query_operation() {
    let schema = "type Query {\n  user: User\n}\n\ntype User {\n  id: ID\n  name: String\n}\n";

    let result = process(schema, &["User"]);
    let expected_schema = "type User {\n  id: ID\n  name: String\n}\n";

    assert_eq!(result.trim(), expected_schema.trim());
}

#[test]
fn test_focus_multiple_types() {
    let schema = "type Query {\n  user: User\n  company: Company\n}\n\ntype User {\n  id: ID\n  name: String\n}\n\ntype Company {\n  id: ID\n  name: String\n}\n";

    let result = process(schema, &["User", "Company"]);
    let expected_schema =
        "type User {\n  id: ID\n  name: String\n}\n\ntype Company {\n  id: ID\n  name: String\n}\n";

    assert_eq!(result.trim(), expected_schema.trim());
}

#[test]
fn test_focus_interface() {
    let schema = "type Query {\n  user: User\n}\n\ninterface Person {\n  name: String\n}\n\ntype User implements Person {\n  id: ID\n  name: String\n  admin: Bool\n}\n\ntype Guest implements Person {\n  id: ID\n  name: String\n}\n";

    let result = process(schema, &["Person"]);
    let expected_schema = "interface Person {\n  name: String\n}\n\ntype User implements Person {\n  id: ID\n  name: String\n  admin: Bool\n}\n\ntype Guest implements Person {\n  id: ID\n  name: String\n}\n";

    assert_eq!(result.trim(), expected_schema.trim());
}

#[test]
fn test_nested_interface() {
    let schema = "type Query {\n    company: Company\n}\n\ntype Company {\n  employees: [Person]\n}\n\ninterface Person {\n  name: String\n}\n\ntype User implements Person {\n  id: ID\n  name: String\n  admin: Bool\n}\n\ntype Guest implements Person {\n  id: ID\n  name: String\n}\n";

    let result = process(schema, &["Company"]);
    let expected_schema = "type Company {\n  employees: [Person]\n}\n\ninterface Person {\n  name: String\n}\n\ntype User implements Person {\n  id: ID\n  name: String\n  admin: Bool\n}\n\ntype Guest implements Person {\n  id: ID\n  name: String\n}\n";

    assert_eq!(result.trim(), expected_schema.trim());
}

#[test]
fn test_non_null_nested_interface() {
    let schema = "type Query {\n    company: Company\n}\n\ntype Company {\n  employees: Person!\n}\n\ninterface Person {\n  name: String\n}\n\ntype User implements Person {\n  id: ID\n  name: String\n  admin: Bool\n}\n\ntype Guest implements Person {\n  id: ID\n  name: String\n}\n";

    let result = process(schema, &["Company"]);
    let expected_schema = "type Company {\n  employees: Person!\n}\n\ninterface Person {\n  name: String\n}\n\ntype User implements Person {\n  id: ID\n  name: String\n  admin: Bool\n}\n\ntype Guest implements Person {\n  id: ID\n  name: String\n}\n";

    assert_eq!(result.trim(), expected_schema.trim());
}

#[test]
fn test_focus_query_missing_operation() {
    let schema = "type Query {\n  user: User\n}\n\ntype User {\n  id: ID\n  name: String\n}\n";

    let result = process(schema, &["nonExistent"]);
    assert_eq!(result.trim(), "");
}

#[test]
fn test_focus_nested_types() {
    let schema = "type Query {\n  user: User\n}\n\ntype User {\n  id: ID\n  profile: Profile\n}\n\ntype Profile {\n  email: String\n}\n";

    let result = process(schema, &["User"]);
    let expected_schema =
        "type User {\n  id: ID\n  profile: Profile\n}\n\ntype Profile {\n  email: String\n}\n";

    assert_eq!(result.trim(), expected_schema.trim());
}

#[test]
fn test_focus_unused_types() {
    let schema = "type Query {\n  user: User\n}\n\ntype User {\n  id: ID\n  profile: Profile\n}\n\ntype Profile {\n  email: String\n}\n\ntype UnusedType {\n  field: String\n}\n";

    let result = process(schema, &["User"]);
    let expected_schema =
        "type User {\n  id: ID\n  profile: Profile\n}\n\ntype Profile {\n  email: String\n}\n";

    assert_eq!(result.trim(), expected_schema.trim());
}

#[test]
fn focus_keeps_exactly_what_the_root_reaches() {
    let schema = "type Query { user: User }\ntype User { id: ID profile: Profile }\ntype Profile { email: String }\ntype Unused { x: String }";
    let out = focus::process(parse(schema), &["User"]);
    assert_eq!(names(&out), vec!["User".to_string(), "Profile".to_string()]);
}

#[test]
fn focus_interface_pulls_in_implementers() {
    let schema = "interface Person { name: String }\ntype User implements Person { name: String }\ntype Guest implements Person { name: String }\ntype Other { name: String }";
    let out = focus::process(parse(schema), &["Person"]);
    assert_eq!(
        names(&out),
        vec!["Person".to_string(), "User".to_string(), "Guest".to_string()]
    );
}

#[test]
fn focus_implementer_pulls_in_its_interfaces() {
    let schema = "interface Node { id: ID }\ninterface Person implements Node { id: ID }\ntype User implements Person { id: ID }\ntype Guest implements Person { id: ID }\ntype Other { id: ID }";
    let out = focus::process(parse(schema), &["User"]);
    assert_eq!(
        names(&out),
        vec!["Node".to_string(), "Person".to_string(), "User".to_string(), "Guest".to_string()]
    );
}

#[test]
fn focus_follows_unions_inputs_and_list_marks() {
    let schema = "union Result = A | B\ntype A { next: [[Result!]!]! }\ntype B { color: Color }\nenum Color { RED }\ninput Filter { nested: Nested }\ninput Nested { when: Date }\nscalar Date\ntype Lonely { x: Int }";
    let out = focus::process(parse(schema), &["Result", "Filter"]);
    assert_eq!(
        names(&out),
        vec![
            "Result".to_string(),
            "A".to_string(),
            "B".to_string(),
            "Color".to_string(),
            "Filter".to_string(),
            "Nested".to_string(),
            "Date".to_string()
        ]
    );
}

#[test]
fn focus_leaves_no_defined_reference_dangling() {
    let text = "type Query { a: A }\ninterface I { x: X }\ntype A implements I { b: [B!]! u: U }\ntype B { e: E }\nunion U = C | D\ntype C { i: In }\ntype D { x: Int }\nenum E { ONE }\ntype X { y: Int }\ninput In { x: Int }\ntype Far { a: A }";
    let out = focus::process(parse(text), &["A"]);
    let kept = names(&out);
    for def in &out.definitions {
        if let schema::Definition::TypeDefinition(td) = def {
            let mut referenced: Vec<String> = Vec::new();
            match td {
                schema::TypeDefinition::Object(t) => {
                    referenced.extend(t.implements_interfaces.iter().cloned());
                    for f in &t.fields {
                        referenced.push(graphql_closure::util::named_type(&f.field_type).unwrap().clone());
                    }
                }
                schema::TypeDefinition::Interface(t) => {
                    referenced.extend(t.implements_interfaces.iter().cloned());
                    for f in &t.fields {
                        referenced.push(graphql_closure::util::named_type(&f.field_type).unwrap().clone());
                    }
                }
                schema::TypeDefinition::Union(t) => referenced.extend(t.types.iter().cloned()),
                schema::TypeDefinition::InputObject(t) => {
                    for f in &t.fields {
                        referenced.push(graphql_closure::util::named_type(&f.value_type).unwrap().clone());
                    }
                }
                _ => {}
            }
            for name in referenced {
                let defined = ["Query", "I", "A", "B", "U", "C", "D", "E", "X", "In", "Far"]
                    .contains(&name.as_str());
                assert!(!defined || kept.contains(&name), "{} is referenced and left out", name);
            }
        }
    }
    assert_eq!(kept, vec!["I", "A", "B", "U", "C", "D", "E", "X", "In"]);
}

#[test]
fn focus_ends_on_cycles() {
    let schema = "type A { b: B }\ntype B { a: A c: C }\ntype C { a: A }\ntype D { a: A }";
    let out = focus::process(parse(schema), &["B"]);
    assert_eq!(names(&out), vec!["A".to_string(), "B".to_string(), "C".to_string()]);
}

#[test]
fn focus_leaves_out_what_defines_no_type() {
    let schema = "schema { query: Root }\ndirective @Root on FIELD_DEFINITION\ntype Root { a: A }\ntype A { x: Int }\nextend type A { y: Int }";
    let out = focus::process(parse(schema), &["Root"]);
    assert_eq!(names(&out), vec!["Root".to_string(), "A".to_string()]);
    assert_eq!(out.definitions.len(), 2);
}

#[test]
fn focus_does_not_pass_through_an_undefined_name() {
    let schema = "type Start { ghost: Ghost }\ntype Haunted implements Ghost { x: Int }";
    let out = focus::process(parse(schema), &["Start"]);
    assert_eq!(names(&out), vec!["Start".to_string()]);
    let out = focus::process(parse(schema), &["Ghost"]);
    assert_eq!(names(&out), Vec::<String>::new());
}

#[test]
fn focus_interface_pulls_in_a_shadowed_implementer() {
    let schema = "interface I { a: ID }\ntype O implements I { a: ID }\ntype O { b: ID }\ntype P { c: ID }";
    let out = focus::process(parse(schema), &["I"]);
    assert_eq!(names(&out), vec!["I".to_string(), "O".to_string(), "O".to_string()]);
}

#[test]
fn focus_reads_a_name_by_its_last_definition() {
    let schema = "type A { b: B }\ntype A { c: C }\ntype B { x: Int }\ntype C { x: Int }";
    let out = focus::process(parse(schema), &["A"]);
    assert_eq!(names(&out), vec!["A".to_string(), "A".to_string(), "C".to_string()]);
}

#[test]
fn focus_on_a_scalar_keeps_the_scalar() {
    let schema = "scalar Date\ntype A { x: Int }";
    let out = focus::process(parse(schema), &["Date"]);
    assert_eq!(names(&out), vec!["Date".to_string()]);
}

#[test]
fn a_copy_of_a_document_equals_it() {
    let text = "schema @a { query: Q }\n\"Doc.\"\ntype Q implements I @k(n: 1, f: 1.5, l: [1, [2]], o: {a: {b: null}}) {\n  f(a: Int = 3, b: [String!]! = [\"x\"]): [[Date!]]!\n}\ninterface I { g: Int }\nunion U = Q\nenum E { ONE }\ninput In { x: In }\nscalar Date\ndirective @d(x: Int) on FIELD\nextend type Q { h: Int }";
    let doc = parse(text);
    let copy = doc.clone();
    assert_eq!(copy, doc);
    assert_eq!(focus::process(copy, &["Q"]), focus::process(doc, &["Q"]));
}

#[test]
fn focus_without_roots_is_empty() {
    let schema = "type A { x: Int }";
    let out = focus::process(parse(schema), &[]);
    assert_eq!(out, schema::Document { definitions: vec![] });
}

#[test]
fn focus_keeps_a_definition_as_it_was() {
    let text = "\"\"\"\n  A user.\n\"\"\"\ntype User @key(fields: \"id\", weight: 2.5, tags: [A, B], more: {a: 1, b: null}) {\n  id(first: Int = 10, big: Int = 5000000000): ID! @deprecated(reason: \"no\")\n}\n";
    let out = focus::process(parse(text), &["User"]);
    assert_eq!(out, parse(text));
    assert_eq!(print(&out), print(&parse(text)));
}
