//! The field-usage closure, from schema and query text to schema text.

use graphql_closure::collect;
use graphql_closure::prune;
use graphql_closure::query;
use graphql_closure::schema;
use graphql_closure::used::UsedFields;
use graphql_parser::query as qast;
use graphql_parser::schema as ast;

fn pos_in(p: graphql_parser::Pos) -> schema::Pos {
    schema::Pos { line: p.line, column: p.column }
}

fn pos_out(p: &schema::Pos) -> graphql_parser::Pos {
    graphql_parser::Pos { line: p.line, column: p.column }
}

fn value_in(v: ast::Value<'static, String>) -> schema::Value {
    match v {
        ast::Value::Variable(name) => schema::Value::Variable(name),
        ast::Value::Int(n) => schema::Value::Int(n.as_i64().expect("an integer")),
        ast::Value::Float(f) => schema::Value::Float(f.to_bits()),
        ast::Value::String(s) => schema::Value::String(s),
        ast::Value::Boolean(b) => schema::Value::Boolean(b),
        ast::Value::Null => schema::Value::Null,
        ast::Value::Enum(name) => schema::Value::Enum(name),
        ast::Value::List(items) => schema::Value::List(items.into_iter().map(value_in).collect()),
        ast::Value::Object(entries) => schema::Value::Object(
            entries
                .into_iter()
                .map(|(name, value)| schema::Entry { name, value: value_in(value) })
                .collect(),
        ),
    }
}

fn number_out(n: i64) -> ast::Value<'static, String> {
    let text = format!("input A {{ a: Int = {} }}", n);
    let doc = graphql_parser::parse_schema::<String>(&text).expect("a number").into_static();
    for def in doc.definitions {
        if let ast::Definition::TypeDefinition(ast::TypeDefinition::InputObject(t)) = def {
            for field in t.fields {
                if let Some(value) = field.default_value {
                    return value;
                }
            }
        }
    }
    unreachable!()
}

fn value_out(v: &schema::Value) -> ast::Value<'static, String> {
    match v {
        schema::Value::Variable(name) => ast::Value::Variable(name.clone()),
        schema::Value::Int(n) => number_out(*n),
        schema::Value::Float(bits) => ast::Value::Float(f64::from_bits(*bits)),
        schema::Value::String(s) => ast::Value::String(s.clone()),
        schema::Value::Boolean(b) => ast::Value::Boolean(*b),
        schema::Value::Null => ast::Value::Null,
        schema::Value::Enum(name) => ast::Value::Enum(name.clone()),
        schema::Value::List(items) => ast::Value::List(items.iter().map(value_out).collect()),
        schema::Value::Object(entries) => ast::Value::Object(
            entries.iter().map(|e| (e.name.clone(), value_out(&e.value))).collect(),
        ),
    }
}

fn directives_in(ds: Vec<ast::Directive<'static, String>>) -> Vec<schema::Directive> {
    ds.into_iter()
        .map(|d| schema::Directive {
            position: pos_in(d.position),
            name: d.name,
            arguments: d
                .arguments
                .into_iter()
                .map(|(name, value)| schema::Entry { name, value: value_in(value) })
                .collect(),
        })
        .collect()
}

fn directives_out(ds: &[schema::Directive]) -> Vec<ast::Directive<'static, String>> {
    ds.iter()
        .map(|d| ast::Directive {
            position: pos_out(&d.position),
            name: d.name.clone(),
            arguments: d.arguments.iter().map(|e| (e.name.clone(), value_out(&e.value))).collect(),
        })
        .collect()
}

fn type_in(t: ast::Type<'static, String>) -> schema::Type {
    match t {
        ast::Type::NamedType(name) => schema::Type::NamedType(name),
        ast::Type::ListType(inner) => schema::Type::ListType(Box::new(type_in(*inner))),
        ast::Type::NonNullType(inner) => schema::Type::NonNullType(Box::new(type_in(*inner))),
    }
}

fn type_out(t: &schema::Type) -> ast::Type<'static, String> {
    match t {
        schema::Type::NamedType(name) => ast::Type::NamedType(name.clone()),
        schema::Type::ListType(inner) => ast::Type::ListType(Box::new(type_out(inner))),
        schema::Type::NonNullType(inner) => ast::Type::NonNullType(Box::new(type_out(inner))),
    }
}

fn input_values_in(vs: Vec<ast::InputValue<'static, String>>) -> Vec<schema::InputValue> {
    vs.into_iter()
        .map(|v| schema::InputValue {
            position: pos_in(v.position),
            description: v.description,
            name: v.name,
            value_type: type_in(v.value_type),
            default_value: v.default_value.map(value_in),
            directives: directives_in(v.directives),
        })
        .collect()
}

fn input_values_out(vs: &[schema::InputValue]) -> Vec<ast::InputValue<'static, String>> {
    vs.iter()
        .map(|v| ast::InputValue {
            position: pos_out(&v.position),
            description: v.description.clone(),
            name: v.name.clone(),
            value_type: type_out(&v.value_type),
            default_value: v.default_value.as_ref().map(value_out),
            directives: directives_out(&v.directives),
        })
        .collect()
}

fn fields_in(fs: Vec<ast::Field<'static, String>>) -> Vec<schema::Field> {
    fs.into_iter()
        .map(|f| schema::Field {
            position: pos_in(f.position),
            description: f.description,
            name: f.name,
            arguments: input_values_in(f.arguments),
            field_type: type_in(f.field_type),
            directives: directives_in(f.directives),
        })
        .collect()
}

fn fields_out(fs: &[schema::Field]) -> Vec<ast::Field<'static, String>> {
    fs.iter()
        .map(|f| ast::Field {
            position: pos_out(&f.position),
            description: f.description.clone(),
            name: f.name.clone(),
            arguments: input_values_out(&f.arguments),
            field_type: type_out(&f.field_type),
            directives: directives_out(&f.directives),
        })
        .collect()
}

fn enum_values_in(vs: Vec<ast::EnumValue<'static, String>>) -> Vec<schema::EnumValue> {
    vs.into_iter()
        .map(|v| schema::EnumValue {
            position: pos_in(v.position),
            description: v.description,
            name: v.name,
            directives: directives_in(v.directives),
        })
        .collect()
}

fn enum_values_out(vs: &[schema::EnumValue]) -> Vec<ast::EnumValue<'static, String>> {
    vs.iter()
        .map(|v| ast::EnumValue {
            position: pos_out(&v.position),
            description: v.description.clone(),
            name: v.name.clone(),
            directives: directives_out(&v.directives),
        })
        .collect()
}

fn location_in(l: ast::DirectiveLocation) -> schema::DirectiveLocation {
    match l {
        ast::DirectiveLocation::Query => schema::DirectiveLocation::Query,
        ast::DirectiveLocation::Mutation => schema::DirectiveLocation::Mutation,
        ast::DirectiveLocation::Subscription => schema::DirectiveLocation::Subscription,
        ast::DirectiveLocation::Field => schema::DirectiveLocation::Field,
        ast::DirectiveLocation::FragmentDefinition => schema::DirectiveLocation::FragmentDefinition,
        ast::DirectiveLocation::FragmentSpread => schema::DirectiveLocation::FragmentSpread,
        ast::DirectiveLocation::InlineFragment => schema::DirectiveLocation::InlineFragment,
        ast::DirectiveLocation::Schema => schema::DirectiveLocation::Schema,
        ast::DirectiveLocation::Scalar => schema::DirectiveLocation::Scalar,
        ast::DirectiveLocation::Object => schema::DirectiveLocation::Object,
        ast::DirectiveLocation::FieldDefinition => schema::DirectiveLocation::FieldDefinition,
        ast::DirectiveLocation::ArgumentDefinition => schema::DirectiveLocation::ArgumentDefinition,
        ast::DirectiveLocation::Interface => schema::DirectiveLocation::Interface,
        ast::DirectiveLocation::Union => schema::DirectiveLocation::Union,
        ast::DirectiveLocation::Enum => schema::DirectiveLocation::Enum,
        ast::DirectiveLocation::EnumValue => schema::DirectiveLocation::EnumValue,
        ast::DirectiveLocation::InputObject => schema::DirectiveLocation::InputObject,
        ast::DirectiveLocation::InputFieldDefinition => {
            schema::DirectiveLocation::InputFieldDefinition
        }
        ast::DirectiveLocation::VariableDefinition => schema::DirectiveLocation::VariableDefinition,
    }
}

fn location_out(l: &schema::DirectiveLocation) -> ast::DirectiveLocation {
    match l {
        schema::DirectiveLocation::Query => ast::DirectiveLocation::Query,
        schema::DirectiveLocation::Mutation => ast::DirectiveLocation::Mutation,
        schema::DirectiveLocation::Subscription => ast::DirectiveLocation::Subscription,
        schema::DirectiveLocation::Field => ast::DirectiveLocation::Field,
        schema::DirectiveLocation::FragmentDefinition => ast::DirectiveLocation::FragmentDefinition,
        schema::DirectiveLocation::FragmentSpread => ast::DirectiveLocation::FragmentSpread,
        schema::DirectiveLocation::InlineFragment => ast::DirectiveLocation::InlineFragment,
        schema::DirectiveLocation::Schema => ast::DirectiveLocation::Schema,
        schema::DirectiveLocation::Scalar => ast::DirectiveLocation::Scalar,
        schema::DirectiveLocation::Object => ast::DirectiveLocation::Object,
        schema::DirectiveLocation::FieldDefinition => ast::DirectiveLocation::FieldDefinition,
        schema::DirectiveLocation::ArgumentDefinition => ast::DirectiveLocation::ArgumentDefinition,
        schema::DirectiveLocation::Interface => ast::DirectiveLocation::Interface,
        schema::DirectiveLocation::Union => ast::DirectiveLocation::Union,
        schema::DirectiveLocation::Enum => ast::DirectiveLocation::Enum,
        schema::DirectiveLocation::EnumValue => ast::DirectiveLocation::EnumValue,
        schema::DirectiveLocation::InputObject => ast::DirectiveLocation::InputObject,
        schema::DirectiveLocation::InputFieldDefinition => {
            ast::DirectiveLocation::InputFieldDefinition
        }
        schema::DirectiveLocation::VariableDefinition => ast::DirectiveLocation::VariableDefinition,
    }
}

fn type_definition_in(td: ast::TypeDefinition<'static, String>) -> schema::TypeDefinition {
    match td {
        ast::TypeDefinition::Scalar(t) => schema::TypeDefinition::Scalar(schema::ScalarType {
            position: pos_in(t.position),
            description: t.description,
            name: t.name,
            directives: directives_in(t.directives),
        }),
        ast::TypeDefinition::Object(t) => schema::TypeDefinition::Object(schema::ObjectType {
            position: pos_in(t.position),
            description: t.description,
            name: t.name,
            implements_interfaces: t.implements_interfaces,
            directives: directives_in(t.directives),
            fields: fields_in(t.fields),
        }),
        ast::TypeDefinition::Interface(t) => {
            schema::TypeDefinition::Interface(schema::InterfaceType {
                position: pos_in(t.position),
                description: t.description,
                name: t.name,
                implements_interfaces: t.implements_interfaces,
                directives: directives_in(t.directives),
                fields: fields_in(t.fields),
            })
        }
        ast::TypeDefinition::Union(t) => schema::TypeDefinition::Union(schema::UnionType {
            position: pos_in(t.position),
            description: t.description,
            name: t.name,
            directives: directives_in(t.directives),
            types: t.types,
        }),
        ast::TypeDefinition::Enum(t) => schema::TypeDefinition::Enum(schema::EnumType {
            position: pos_in(t.position),
            description: t.description,
            name: t.name,
            directives: directives_in(t.directives),
            values: enum_values_in(t.values),
        }),
        ast::TypeDefinition::InputObject(t) => {
            schema::TypeDefinition::InputObject(schema::InputObjectType {
                position: pos_in(t.position),
                description: t.description,
                name: t.name,
                directives: directives_in(t.directives),
                fields: input_values_in(t.fields),
            })
        }
    }
}

fn type_definition_out(td: &schema::TypeDefinition) -> ast::TypeDefinition<'static, String> {
    match td {
        schema::TypeDefinition::Scalar(t) => ast::TypeDefinition::Scalar(ast::ScalarType {
            position: pos_out(&t.position),
            description: t.description.clone(),
            name: t.name.clone(),
            directives: directives_out(&t.directives),
        }),
        schema::TypeDefinition::Object(t) => ast::TypeDefinition::Object(ast::ObjectType {
            position: pos_out(&t.position),
            description: t.description.clone(),
            name: t.name.clone(),
            implements_interfaces: t.implements_interfaces.clone(),
            directives: directives_out(&t.directives),
            fields: fields_out(&t.fields),
        }),
        schema::TypeDefinition::Interface(t) => {
            ast::TypeDefinition::Interface(ast::InterfaceType {
                position: pos_out(&t.position),
                description: t.description.clone(),
                name: t.name.clone(),
                implements_interfaces: t.implements_interfaces.clone(),
                directives: directives_out(&t.directives),
                fields: fields_out(&t.fields),
            })
        }
        schema::TypeDefinition::Union(t) => ast::TypeDefinition::Union(ast::UnionType {
            position: pos_out(&t.position),
            description: t.description.clone(),
            name: t.name.clone(),
            directives: directives_out(&t.directives),
            types: t.types.clone(),
        }),
        schema::TypeDefinition::Enum(t) => ast::TypeDefinition::Enum(ast::EnumType {
            position: pos_out(&t.position),
            description: t.description.clone(),
            name: t.name.clone(),
            directives: directives_out(&t.directives),
            values: enum_values_out(&t.values),
        }),
        schema::TypeDefinition::InputObject(t) => {
            ast::TypeDefinition::InputObject(ast::InputObjectType {
                position: pos_out(&t.position),
                description: t.description.clone(),
                name: t.name.clone(),
                directives: directives_out(&t.directives),
                fields: input_values_out(&t.fields),
            })
        }
    }
}

fn type_extension_in(te: ast::TypeExtension<'static, String>) -> schema::TypeExtension {
    match te {
        ast::TypeExtension::Scalar(t) => {
            schema::TypeExtension::Scalar(schema::ScalarTypeExtension {
                position: pos_in(t.position),
                name: t.name,
                directives: directives_in(t.directives),
            })
        }
        ast::TypeExtension::Object(t) => {
            schema::TypeExtension::Object(schema::ObjectTypeExtension {
                position: pos_in(t.position),
                name: t.name,
                implements_interfaces: t.implements_interfaces,
                directives: directives_in(t.directives),
                fields: fields_in(t.fields),
            })
        }
        ast::TypeExtension::Interface(t) => {
            schema::TypeExtension::Interface(schema::InterfaceTypeExtension {
                position: pos_in(t.position),
                name: t.name,
                implements_interfaces: t.implements_interfaces,
                directives: directives_in(t.directives),
                fields: fields_in(t.fields),
            })
        }
        ast::TypeExtension::Union(t) => schema::TypeExtension::Union(schema::UnionTypeExtension {
            position: pos_in(t.position),
            name: t.name,
            directives: directives_in(t.directives),
            types: t.types,
        }),
        ast::TypeExtension::Enum(t) => schema::TypeExtension::Enum(schema::EnumTypeExtension {
            position: pos_in(t.position),
            name: t.name,
            directives: directives_in(t.directives),
            values: enum_values_in(t.values),
        }),
        ast::TypeExtension::InputObject(t) => {
            schema::TypeExtension::InputObject(schema::InputObjectTypeExtension {
                position: pos_in(t.position),
                name: t.name,
                directives: directives_in(t.directives),
                fields: input_values_in(t.fields),
            })
        }
    }
}

fn type_extension_out(te: &schema::TypeExtension) -> ast::TypeExtension<'static, String> {
    match te {
        schema::TypeExtension::Scalar(t) => ast::TypeExtension::Scalar(ast::ScalarTypeExtension {
            position: pos_out(&t.position),
            name: t.name.clone(),
            directives: directives_out(&t.directives),
        }),
        schema::TypeExtension::Object(t) => ast::TypeExtension::Object(ast::ObjectTypeExtension {
            position: pos_out(&t.position),
            name: t.name.clone(),
            implements_interfaces: t.implements_interfaces.clone(),
            directives: directives_out(&t.directives),
            fields: fields_out(&t.fields),
        }),
        schema::TypeExtension::Interface(t) => {
            ast::TypeExtension::Interface(ast::InterfaceTypeExtension {
                position: pos_out(&t.position),
                name: t.name.clone(),
                implements_interfaces: t.implements_interfaces.clone(),
                directives: directives_out(&t.directives),
                fields: fields_out(&t.fields),
            })
        }
        schema::TypeExtension::Union(t) => ast::TypeExtension::Union(ast::UnionTypeExtension {
            position: pos_out(&t.position),
            name: t.name.clone(),
            directives: directives_out(&t.directives),
            types: t.types.clone(),
        }),
        schema::TypeExtension::Enum(t) => ast::TypeExtension::Enum(ast::EnumTypeExtension {
            position: pos_out(&t.position),
            name: t.name.clone(),
            directives: directives_out(&t.directives),
            values: enum_values_out(&t.values),
        }),
        schema::TypeExtension::InputObject(t) => {
            ast::TypeExtension::InputObject(ast::InputObjectTypeExtension {
                position: pos_out(&t.position),
                name: t.name.clone(),
                directives: directives_out(&t.directives),
                fields: input_values_out(&t.fields),
            })
        }
    }
}

fn schema_in(doc: ast::Document<'static, String>) -> schema::Document {
    let definitions = doc
        .definitions
        .into_iter()
        .map(|def| match def {
            ast::Definition::SchemaDefinition(d) => {
                schema::Definition::SchemaDefinition(schema::SchemaDefinition {
                    position: pos_in(d.position),
                    directives: directives_in(d.directives),
                    query: d.query,
                    mutation: d.mutation,
                    subscription: d.subscription,
                })
            }
            ast::Definition::TypeDefinition(td) => {
                schema::Definition::TypeDefinition(type_definition_in(td))
            }
            ast::Definition::TypeExtension(te) => {
                schema::Definition::TypeExtension(type_extension_in(te))
            }
            ast::Definition::DirectiveDefinition(d) => {
                schema::Definition::DirectiveDefinition(schema::DirectiveDefinition {
                    position: pos_in(d.position),
                    description: d.description,
                    name: d.name,
                    arguments: input_values_in(d.arguments),
                    repeatable: d.repeatable,
                    locations: d.locations.into_iter().map(location_in).collect(),
                })
            }
        })
        .collect();
    schema::Document { definitions }
}

fn schema_out(doc: &schema::Document) -> ast::Document<'static, String> {
    let definitions = doc
        .definitions
        .iter()
        .map(|def| match def {
            schema::Definition::SchemaDefinition(d) => {
                ast::Definition::SchemaDefinition(ast::SchemaDefinition {
                    position: pos_out(&d.position),
                    directives: directives_out(&d.directives),
                    query: d.query.clone(),
                    mutation: d.mutation.clone(),
                    subscription: d.subscription.clone(),
                })
            }
            schema::Definition::TypeDefinition(td) => {
                ast::Definition::TypeDefinition(type_definition_out(td))
            }
            schema::Definition::TypeExtension(te) => {
                ast::Definition::TypeExtension(type_extension_out(te))
            }
            schema::Definition::DirectiveDefinition(d) => {
                ast::Definition::DirectiveDefinition(ast::DirectiveDefinition {
                    position: pos_out(&d.position),
                    description: d.description.clone(),
                    name: d.name.clone(),
                    arguments: input_values_out(&d.arguments),
                    repeatable: d.repeatable,
                    locations: d.locations.iter().map(location_out).collect(),
                })
            }
        })
        .collect();
    ast::Document { definitions }
}

fn parse(text: &str) -> schema::Document {
    schema_in(graphql_parser::parse_schema::<String>(text).expect("Invalid schema").into_static())
}

fn print(doc: &schema::Document) -> String {
    format!("{}", schema_out(doc))
}

fn selection_set_in(set: qast::SelectionSet<'static, String>) -> query::SelectionSet {
    let items = set
        .items
        .into_iter()
        .map(|item| match item {
            qast::Selection::Field(f) => query::Selection::Field(query::Field {
                name: f.name,
                selection_set: selection_set_in(f.selection_set),
            }),
            qast::Selection::FragmentSpread(s) => {
                query::Selection::FragmentSpread(query::FragmentSpread {
                    fragment_name: s.fragment_name,
                })
            }
            qast::Selection::InlineFragment(f) => {
                query::Selection::InlineFragment(query::InlineFragment {
                    type_condition: f.type_condition.map(condition_in),
                    selection_set: selection_set_in(f.selection_set),
                })
            }
        })
        .collect();
    query::SelectionSet { items }
}

fn condition_in(c: qast::TypeCondition<'static, String>) -> query::TypeCondition {
    match c {
        qast::TypeCondition::On(name) => query::TypeCondition::On(name),
    }
}

fn query_in(doc: qast::Document<'static, String>) -> query::Document {
    let definitions = doc
        .definitions
        .into_iter()
        .map(|def| match def {
            qast::Definition::Operation(op) => query::Definition::Operation(match op {
                qast::OperationDefinition::SelectionSet(set) => {
                    query::OperationDefinition::SelectionSet(selection_set_in(set))
                }
                qast::OperationDefinition::Query(q) => {
                    query::OperationDefinition::Query(query::Query {
                        name: q.name,
                        selection_set: selection_set_in(q.selection_set),
                    })
                }
                qast::OperationDefinition::Mutation(m) => {
                    query::OperationDefinition::Mutation(query::Mutation {
                        name: m.name,
                        selection_set: selection_set_in(m.selection_set),
                    })
                }
                qast::OperationDefinition::Subscription(s) => {
                    query::OperationDefinition::Subscription(query::Subscription {
                        name: s.name,
                        selection_set: selection_set_in(s.selection_set),
                    })
                }
            }),
            qast::Definition::Fragment(f) => query::Definition::Fragment(query::FragmentDefinition {
                name: f.name,
                type_condition: condition_in(f.type_condition),
                selection_set: selection_set_in(f.selection_set),
            }),
        })
        .collect();
    query::Document { definitions }
}

fn parse_query(text: &str) -> query::Document {
    query_in(graphql_parser::parse_query::<String>(text).expect("Failed to parse query").into_static())
}

fn process(schema: &str, query: &str) -> String {
    print(&prune::process(parse(schema), &parse_query(query)))
}

fn used(schema: &str, query: &str) -> UsedFields {
    collect::collect(&parse(schema), &parse_query(query))
}

fn has(used: &UsedFields, ty: &str, field: &str) -> bool {
    used.contains(&ty.to_string(), &field.to_string())
}

fn marked(used: &UsedFields, ty: &str) -> bool {
    used.contains_key(&ty.to_string())
}

#[test]
fn prunes_fields() {
    let schema = "type Query {\n  user: User\n}\n\ntype User {\n  id: ID!\n  name: String\n  first_name: String\n  last_name: String\n}\n";

    let query = "query User {\n  user {\n    id\n    name\n  }\n}\n";

    let result = process(schema, query);

    assert_eq!(
        result,
        "type Query {\n  user: User\n}\n\ntype User {\n  id: ID!\n  name: String\n}\n"
    );
}

#[test]
fn prunes_interface_fields() {
    let schema = "type Query {\n  person: Person\n}\n\ninterface Person {\n  id: ID!\n  name: String\n  first_name: String\n  last_name: String\n}\n\ntype User implements Person {\n  id: ID!\n  name: String\n  first_name: String\n  last_name: String\n  user_name: String\n  login: String\n}\n\ntype Customer implements Person {\n  id: ID!\n  name: String\n  first_name: String\n  last_name: String\n  last_visited: String\n}\n\ntype Guest implements Person {\n  id: ID!\n  name: String\n  first_name: String\n  last_name: String\n}\n";

    let query = "query Person {\n  person {\n    id\n    name\n    ... on User {\n      user_name\n    }\n  }\n}\n";

    let result = process(schema, query);

    assert_eq!(
        result,
        "type Query {\n  person: Person\n}\n\ninterface Person {\n  id: ID!\n  name: String\n}\n\ntype User implements Person {\n  id: ID!\n  name: String\n  user_name: String\n}\n\ntype Customer implements Person {\n  id: ID!\n  name: String\n}\n\ntype Guest implements Person {\n  id: ID!\n  name: String\n}\n"
    );
}

#[test]
fn prune_drops_the_unused_field() {
    let schema = "type Query { user: User }\ntype User { id: ID! name: String extra: String }";
    let out = prune::process(parse(schema), &parse_query("query User { user { id name } }"));
    assert_eq!(
        print(&out),
        "type Query {\n  user: User\n}\n\ntype User {\n  id: ID!\n  name: String\n}\n"
    );
}

#[test]
fn prune_keeps_the_inline_fragment_type_apart() {
    let schema = "type Query { node: Node }\ninterface Node { id: ID! kind: String }\ntype SubType implements Node { id: ID! kind: String f: Int g: Int }";
    let out = process(schema, "{ node { id ... on SubType { f } } }");
    assert_eq!(
        out,
        "type Query {\n  node: Node\n}\n\ninterface Node {\n  id: ID!\n}\n\ntype SubType implements Node {\n  id: ID!\n  f: Int\n}\n"
    );
}

#[test]
fn prune_twice_is_prune_once() {
    let schema = "schema { query: Root }\ntype Root { person(filter: Filter): Person thing: Thing }\ninterface Person { id: ID! name: String }\ntype User implements Person { id: ID! name: String login: String }\ntype Guest implements Person { id: ID! name: String }\ninput Filter { age: Range }\ninput Range { min: Int max: Int }\ntype Thing { a: Int }\ndirective @d on FIELD";
    let query = "query { person { id ...U } }\nfragment U on User { login }";
    let once = prune::process(parse(schema), &parse_query(query));
    let text = print(&once);
    let twice = prune::process(once, &parse_query(query));
    assert_eq!(print(&twice), text);
    assert_eq!(
        text,
        "schema {\n  query: Root\n}\n\ntype Root {\n  person(filter: Filter): Person\n}\n\ninterface Person {\n  id: ID!\n}\n\ntype User implements Person {\n  id: ID!\n  login: String\n}\n\ntype Guest implements Person {\n  id: ID!\n}\n\ninput Filter {\n  age: Range\n}\n\ninput Range {\n  min: Int\n  max: Int\n}\n\ndirective @d on FIELD\n"
    );
}

#[test]
fn prune_stops_under_a_type_that_the_schema_does_not_define() {
    let schema = "type Query { thing: Missing }\ntype Foo { x: ID }";
    let query = "{ thing { ... on Foo { x } ...F } }\nfragment F on Foo { x }";
    let u = used(schema, query);
    assert!(has(&u, "Query", "thing"));
    assert!(!marked(&u, "Foo"));
    assert!(!marked(&u, "Missing"));
    assert_eq!(process(schema, query), "type Query {\n  thing: Missing\n}\n");
}

#[test]
fn prune_again_stops_where_pruning_took_the_parent_away() {
    let schema = "type Query { user: User }\ntype User { id: ID }\ntype Admin { x: Int y: Int }";
    let query = "{ user { ... on Admin { x } } }";
    let once = prune::process(parse(schema), &parse_query(query));
    assert_eq!(print(&once), "type Query {\n  user: User\n}\n\ntype Admin {\n  x: Int\n}\n");
    let twice = prune::process(once, &parse_query(query));
    assert_eq!(print(&twice), "type Query {\n  user: User\n}\n");
}

#[test]
fn collect_adds_nothing_for_a_spread_of_an_undefined_fragment() {
    let schema = "type Query { a: A }\ntype A { x: Int }\ntype B { y: Int }";
    let u = used(schema, "{ ...Missing }");
    assert!(marked(&u, "Query"));
    assert!(!has(&u, "Query", "a"));
    assert!(!marked(&u, "A"));
    assert!(!marked(&u, "B"));
    assert!(!marked(&u, "Missing"));
}

#[test]
fn collect_marks_exactly_the_input_types_that_an_argument_pulls_in() {
    let schema = "type Query { f(a: A!): Int }\ninput A { next: A b: B }\ninput B { a: [A!] }\ninput C { x: Int }\nscalar Int2";
    let u = used(schema, "{ f }");
    assert!(marked(&u, "Query"));
    assert!(marked(&u, "A"));
    assert!(marked(&u, "B"));
    assert!(!marked(&u, "C"));
    assert!(!marked(&u, "Int"));
    assert!(!marked(&u, "Int2"));
    assert!(!has(&u, "A", "next"));
}

#[test]
fn collect_leaves_the_defaults_where_a_block_names_no_root() {
    let schema = "schema { query: Root }\ntype Root { a: Int }\ntype Mutation { set: Int }\ntype Subscription { on: Int }\nschema { mutation: Change }\ntype Change { set: Int }";
    let u = used(schema, "query { a }\nmutation { set }\nsubscription { on }");
    assert!(has(&u, "Root", "a"));
    assert!(has(&u, "Change", "set"));
    assert!(!marked(&u, "Mutation"));
    assert!(has(&u, "Subscription", "on"));
}

#[test]
fn collect_records_types_and_fields() {
    let schema = "type Query { user: User }\ntype User { id: ID! name: String extra: String }";
    let u = used(schema, "query User { user { id name } }");
    assert!(marked(&u, "Query"));
    assert!(has(&u, "Query", "user"));
    assert!(has(&u, "User", "id"));
    assert!(has(&u, "User", "name"));
    assert!(!has(&u, "User", "extra"));
    assert!(!marked(&u, "ID"));
    assert!(!has(&u, "Query", "id"));
}

#[test]
fn collect_pulls_in_argument_types_whole() {
    let schema = "type Query { find(filter: Filter, order: Order): Int }\ninput Filter { range: [Range!] loop: Filter }\ninput Range { min: Int when: Date }\nenum Order { ASC }\nscalar Date\ninput Unused { x: Int }";
    let u = used(schema, "{ find }");
    assert!(marked(&u, "Filter"));
    assert!(marked(&u, "Range"));
    assert!(marked(&u, "Order"));
    assert!(marked(&u, "Date"));
    assert!(marked(&u, "Int"));
    assert!(!marked(&u, "Unused"));
    assert!(!has(&u, "Filter", "range"));
    let out = process(schema, "{ find }");
    assert_eq!(
        out,
        "type Query {\n  find(filter: Filter, order: Order): Int\n}\n\ninput Filter {\n  range: [Range!]\n  loop: Filter\n}\n\ninput Range {\n  min: Int\n  when: Date\n}\n\nenum Order {\n  ASC\n}\n\nscalar Date\n"
    );
}

#[test]
fn collect_follows_fragment_spreads_once() {
    let schema = "type Query { a: A }\ntype A { b: B x: Int }\ntype B { a: A y: Int }";
    let query = "{ a { ...FA } }\nfragment FA on A { x b { ...FB } }\nfragment FB on B { y a { ...FA } }";
    let u = used(schema, query);
    assert!(has(&u, "A", "x"));
    assert!(has(&u, "A", "b"));
    assert!(has(&u, "B", "y"));
    assert!(has(&u, "B", "a"));
}

#[test]
fn collect_skips_an_undefined_fragment() {
    let schema = "type Query { a: A }\ntype A { x: Int }";
    let u = used(schema, "{ a { ...Missing x } }");
    assert!(has(&u, "A", "x"));
    assert!(has(&u, "Query", "a"));
}

#[test]
fn collect_marks_a_fragment_type_without_fields() {
    let schema = "type Query { a: A }\ntype A { x: Int }\ntype B { y: Int }";
    let out = process(schema, "{ a { x } ...F }\nfragment F on B { nothing }");
    assert_eq!(out, "type Query {\n  a: A\n}\n\ntype A {\n  x: Int\n}\n\ntype B\n");
}

#[test]
fn collect_reads_an_inline_fragment_without_condition_against_the_parent() {
    let schema = "type Query { a: A }\ntype A { x: Int y: Int z: Int }";
    let u = used(schema, "{ a { x ... { y } } }");
    assert!(has(&u, "A", "x"));
    assert!(has(&u, "A", "y"));
    assert!(!has(&u, "A", "z"));
}

#[test]
fn collect_takes_root_types_from_the_schema_block() {
    let schema = "schema { query: Root mutation: Change }\ntype Root { a: Int }\ntype Change { set: Int }\ntype Query { a: Int }\ntype Mutation { set: Int }\ntype Subscription { on: Int }";
    let u = used(schema, "query { a }\nmutation { set }\nsubscription { on }");
    assert!(has(&u, "Root", "a"));
    assert!(has(&u, "Change", "set"));
    assert!(has(&u, "Subscription", "on"));
    assert!(!marked(&u, "Query"));
    assert!(!marked(&u, "Mutation"));
}

#[test]
fn collect_uses_the_default_root_names() {
    let schema = "type Query { a: Int }\ntype Mutation { set: Int }\ntype Subscription { on: Int }";
    let u = used(schema, "{ a }\nmutation { set }\nsubscription { on }");
    assert!(has(&u, "Query", "a"));
    assert!(has(&u, "Mutation", "set"));
    assert!(has(&u, "Subscription", "on"));
}

#[test]
fn collect_gets_nothing_from_an_operation_without_root_type() {
    let schema = "type Query { a: A }\ntype A { x: Int }";
    let u = used(schema, "mutation { a { x } ...F }\nfragment F on A { x }");
    assert!(!marked(&u, "Mutation"));
    assert!(!marked(&u, "A"));
    assert!(!marked(&u, "Query"));
    assert_eq!(process(schema, "mutation { a { x } }"), "");
}

#[test]
fn prune_keeps_what_defines_no_type() {
    let schema = "schema {\n  query: Query\n}\n\ndirective @d on FIELD\n\ntype Query {\n  a: Int\n  b: Int\n}\n\nextend type Query {\n  c: Int\n}\n\ntype Unused {\n  x: Int\n}\n";
    let out = process(schema, "{ a }");
    assert_eq!(
        out,
        "schema {\n  query: Query\n}\n\ndirective @d on FIELD\n\ntype Query {\n  a: Int\n}\n\nextend type Query {\n  c: Int\n}\n"
    );
}

#[test]
fn prune_matches_interface_fields_per_implementer() {
    let schema = "type Query { p: Person }\ninterface Person { name: String age: Int }\ntype User implements Person { name: String age: Int nick: String }\ntype Robot { name: String }";
    let out = process(schema, "{ p { name } }");
    assert_eq!(
        out,
        "type Query {\n  p: Person\n}\n\ninterface Person {\n  name: String\n}\n\ntype User implements Person {\n  name: String\n}\n"
    );
}

#[test]
fn used_fields_record_by_hand() {
    let mut u = UsedFields::new();
    let a = "A".to_string();
    let b = "B".to_string();
    let x = "x".to_string();
    assert!(!u.contains_key(&a));
    u.mark(&a);
    assert!(u.contains_key(&a));
    assert!(!u.contains(&a, &x));
    u.insert(&b, &x);
    u.insert(&b, &x);
    assert!(u.contains_key(&b));
    assert!(u.contains(&b, &x));
    assert!(!u.contains(&a, &x));
    u.insert(&a, &x);
    assert!(u.contains(&a, &x));
    u.mark(&a);
    assert!(u.contains(&a, &x));
}

#[test]
fn prune_with_a_record_by_hand() {
    let mut u = UsedFields::new();
    u.insert(&"A".to_string(), &"x".to_string());
    u.mark(&"E".to_string());
    let schema = "type A { x: Int y: Int }\ntype B { x: Int }\nenum E { ONE }\nenum F { TWO }";
    let out = prune::prune_with(parse(schema), &u);
    assert_eq!(print(&out), "type A {\n  x: Int\n}\n\nenum E {\n  ONE\n}\n");
}

#[test]
fn a_copy_of_a_query_equals_it() {
    let q = parse_query("query A { a { b ...F ... on T { c } ... { d } } }\nmutation { m }\nsubscription { s }\nfragment F on T { e { f } }");
    assert_eq!(q.clone(), q);
}

#[test]
fn prune_twice_is_prune_once_on_documents() {
    let schema = "type Query { p: P }\ninterface P { id: ID name: String }\ntype U implements P { id: ID name: String nick: String }\ntype V implements P { id: ID }";
    let query = parse_query("{ p { id ... on U { nick } } }");
    let once = prune::process(parse(schema), &query);
    let twice = prune::process(once.clone(), &query);
    assert_eq!(twice, once);
}

#[test]
fn query_model_by_hand() {
    let q = query::Document {
        definitions: vec![query::Definition::Operation(query::OperationDefinition::SelectionSet(
            query::SelectionSet {
                items: vec![query::Selection::Field(query::Field {
                    name: "a".to_string(),
                    selection_set: query::SelectionSet { items: vec![] },
                })],
            },
        ))],
    };
    assert_eq!(q, parse_query("{ a }"));
    let out = prune::process(parse("type Query { a: Int b: Int }"), &q);
    assert_eq!(print(&out), "type Query {\n  a: Int\n}\n");
}
