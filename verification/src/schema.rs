//! The schema document: its definitions, and the view that contracts speak of.
//!
//! The view of a document is the sequence of its definitions. A definition is
//! seen as it is, with one exception: of an object or interface type the view
//! holds the fields as a sequence, so that a type cut down to some of its
//! fields has a view that can be written down.

use vstd::prelude::*;

verus! {

/// Where an item stood in the source text.
#[derive(Clone, Copy, Debug, PartialEq, Eq)]
pub struct Pos {
    pub line: usize,
    pub column: usize,
}

/// A literal value, as directives and defaults carry it.
#[derive(Debug, PartialEq, Eq)]
pub enum Value {
    Variable(String),
    Int(i64),
    /// The IEEE 754 double, by its bits.
    Float(u64),
    String(String),
    Boolean(bool),
    Null,
    Enum(String),
    List(Vec<Value>),
    /// The entries of an object literal, ordered by key.
    Object(Vec<Entry>),
}

/// A name with the value given to it: an argument of a directive, or an entry
/// of an object literal.
#[derive(Debug, PartialEq, Eq)]
pub struct Entry {
    pub name: String,
    pub value: Value,
}

/// A directive applied to an item, with its arguments.
#[derive(Clone, Debug, PartialEq, Eq)]
pub struct Directive {
    pub position: Pos,
    pub name: String,
    pub arguments: Vec<Entry>,
}

/// A reference to a type: a name under any number of list and non-null marks.
#[derive(Debug, PartialEq, Eq)]
pub enum Type {
    NamedType(String),
    ListType(Box<Type>),
    NonNullType(Box<Type>),
}

/// An argument of a field or directive, or a field of an input object.
#[derive(Clone, Debug, PartialEq, Eq)]
pub struct InputValue {
    pub position: Pos,
    pub description: Option<String>,
    pub name: String,
    pub value_type: Type,
    pub default_value: Option<Value>,
    pub directives: Vec<Directive>,
}

/// A field of an object or interface type.
#[derive(Clone, Debug, PartialEq, Eq)]
pub struct Field {
    pub position: Pos,
    pub description: Option<String>,
    pub name: String,
    pub arguments: Vec<InputValue>,
    pub field_type: Type,
    pub directives: Vec<Directive>,
}

/// A schema block: the root types of the three kinds of operation, as far
/// as it names them.
#[derive(Clone, Debug, PartialEq, Eq)]
pub struct SchemaDefinition {
    pub position: Pos,
    pub directives: Vec<Directive>,
    pub query: Option<String>,
    pub mutation: Option<String>,
    pub subscription: Option<String>,
}

#[derive(Clone, Debug, PartialEq, Eq)]
pub struct ScalarType {
    pub position: Pos,
    pub description: Option<String>,
    pub name: String,
    pub directives: Vec<Directive>,
}

#[derive(Clone, Debug, PartialEq, Eq)]
pub struct ObjectType {
    pub position: Pos,
    pub description: Option<String>,
    pub name: String,
    pub implements_interfaces: Vec<String>,
    pub directives: Vec<Directive>,
    pub fields: Vec<Field>,
}

#[derive(Clone, Debug, PartialEq, Eq)]
pub struct InterfaceType {
    pub position: Pos,
    pub description: Option<String>,
    pub name: String,
    pub implements_interfaces: Vec<String>,
    pub directives: Vec<Directive>,
    pub fields: Vec<Field>,
}

#[derive(Clone, Debug, PartialEq, Eq)]
pub struct UnionType {
    pub position: Pos,
    pub description: Option<String>,
    pub name: String,
    pub directives: Vec<Directive>,
    pub types: Vec<String>,
}

#[derive(Clone, Debug, PartialEq, Eq)]
pub struct EnumValue {
    pub position: Pos,
    pub description: Option<String>,
    pub name: String,
    pub directives: Vec<Directive>,
}

#[derive(Clone, Debug, PartialEq, Eq)]
pub struct EnumType {
    pub position: Pos,
    pub description: Option<String>,
    pub name: String,
    pub directives: Vec<Directive>,
    pub values: Vec<EnumValue>,
}

#[derive(Clone, Debug, PartialEq, Eq)]
pub struct InputObjectType {
    pub position: Pos,
    pub description: Option<String>,
    pub name: String,
    pub directives: Vec<Directive>,
    pub fields: Vec<InputValue>,
}

/// The definition of a type, by kind.
#[derive(Clone, Debug, PartialEq, Eq)]
pub enum TypeDefinition {
    Scalar(ScalarType),
    Object(ObjectType),
    Interface(InterfaceType),
    Union(UnionType),
    Enum(EnumType),
    InputObject(InputObjectType),
}

#[derive(Clone, Debug, PartialEq, Eq)]
pub struct ScalarTypeExtension {
    pub position: Pos,
    pub name: String,
    pub directives: Vec<Directive>,
}

#[derive(Clone, Debug, PartialEq, Eq)]
pub struct ObjectTypeExtension {
    pub position: Pos,
    pub name: String,
    pub implements_interfaces: Vec<String>,
    pub directives: Vec<Directive>,
    pub fields: Vec<Field>,
}

#[derive(Clone, Debug, PartialEq, Eq)]
pub struct InterfaceTypeExtension {
    pub position: Pos,
    pub name: String,
    pub implements_interfaces: Vec<String>,
    pub directives: Vec<Directive>,
    pub fields: Vec<Field>,
}

#[derive(Clone, Debug, PartialEq, Eq)]
pub struct UnionTypeExtension {
    pub position: Pos,
    pub name: String,
    pub directives: Vec<Directive>,
    pub types: Vec<String>,
}

#[derive(Clone, Debug, PartialEq, Eq)]
pub struct EnumTypeExtension {
    pub position: Pos,
    pub name: String,
    pub directives: Vec<Directive>,
    pub values: Vec<EnumValue>,
}

#[derive(Clone, Debug, PartialEq, Eq)]
pub struct InputObjectTypeExtension {
    pub position: Pos,
    pub name: String,
    pub directives: Vec<Directive>,
    pub fields: Vec<InputValue>,
}

/// The extension of a type, by kind. The closures pass it through unread.
#[derive(Clone, Debug, PartialEq, Eq)]
pub enum TypeExtension {
    Scalar(ScalarTypeExtension),
    Object(ObjectTypeExtension),
    Interface(InterfaceTypeExtension),
    Union(UnionTypeExtension),
    Enum(EnumTypeExtension),
    InputObject(InputObjectTypeExtension),
}

/// Where a directive may be applied.
#[derive(Clone, Copy, Debug, PartialEq, Eq)]
pub enum DirectiveLocation {
    Query,
    Mutation,
    Subscription,
    Field,
    FragmentDefinition,
    FragmentSpread,
    InlineFragment,
    Schema,
    Scalar,
    Object,
    FieldDefinition,
    ArgumentDefinition,
    Interface,
    Union,
    Enum,
    EnumValue,
    InputObject,
    InputFieldDefinition,
    VariableDefinition,
}

/// The definition of a directive. The closures pass it through unread.
#[derive(Clone, Debug, PartialEq, Eq)]
pub struct DirectiveDefinition {
    pub position: Pos,
    pub description: Option<String>,
    pub name: String,
    pub arguments: Vec<InputValue>,
    pub repeatable: bool,
    pub locations: Vec<DirectiveLocation>,
}

/// One definition of a schema document.
#[derive(Clone, Debug, PartialEq, Eq)]
pub enum Definition {
    SchemaDefinition(SchemaDefinition),
    TypeDefinition(TypeDefinition),
    TypeExtension(TypeExtension),
    DirectiveDefinition(DirectiveDefinition),
}

/// A schema document: its definitions in source order.
#[derive(Clone, Debug, PartialEq, Eq)]
pub struct Document {
    pub definitions: Vec<Definition>,
}

/// What a value holds, with each list as a sequence, so that two values that
/// hold the same are one.
pub enum ValueContent {
    Variable(String),
    Int(i64),
    Float(u64),
    String(String),
    Boolean(bool),
    Null,
    Enum(String),
    List(Seq<ValueContent>),
    Object(Seq<EntryContent>),
}

/// What an entry holds: its name, and what its value holds.
pub struct EntryContent {
    pub name: String,
    pub value: ValueContent,
}

impl Value {
    /// What the value holds.
    pub open spec fn content(self) -> ValueContent
        decreases self,
    {
        match self {
            Value::Variable(name) => ValueContent::Variable(name),
            Value::Int(n) => ValueContent::Int(n),
            Value::Float(bits) => ValueContent::Float(bits),
            Value::String(s) => ValueContent::String(s),
            Value::Boolean(b) => ValueContent::Boolean(b),
            Value::Null => ValueContent::Null,
            Value::Enum(name) => ValueContent::Enum(name),
            Value::List(items) => ValueContent::List(
                Seq::new(
                    items@.len(),
                    |i: int|
                        if 0 <= i < items@.len() {
                            items@[i].content()
                        } else {
                            arbitrary()
                        },
                ),
            ),
            Value::Object(entries) => ValueContent::Object(
                Seq::new(
                    entries@.len(),
                    |i: int|
                        if 0 <= i < entries@.len() {
                            EntryContent {
                                name: entries@[i].name,
                                value: entries@[i].value.content(),
                            }
                        } else {
                            arbitrary()
                        },
                ),
            ),
        }
    }
}

/// A copy of a value: a value of its own that holds what `v` holds.
fn copy_value(v: &Value) -> (copy: Value)
    ensures
        copy.content() == v.content(),
    decreases v,
{
    match v {
        Value::Variable(name) => Value::Variable(name.clone()),
        Value::Int(n) => Value::Int(*n),
        Value::Float(bits) => Value::Float(*bits),
        Value::String(s) => Value::String(s.clone()),
        Value::Boolean(b) => Value::Boolean(*b),
        Value::Null => Value::Null,
        Value::Enum(name) => Value::Enum(name.clone()),
        Value::List(items) => {
            let mut copies: Vec<Value> = Vec::new();
            let mut i: usize = 0;
            while i < items.len()
                invariant
                    i <= items.len(),
                    v matches Value::List(l) && l == *items,
                    copies@.len() == i,
                    forall|j: int|
                        0 <= j < i ==> (#[trigger] copies@[j]).content() == items@[j].content(),
                decreases items.len() - i,
            {
                copies.push(copy_value(&items[i]));
                i = i + 1;
            }
            let copy = Value::List(copies);
            assert(copy.content() == v.content()) by {
                assert(copy.content()->List_0 =~= v.content()->List_0);
            }
            copy
        },
        Value::Object(entries) => {
            let mut copies: Vec<Entry> = Vec::new();
            let mut i: usize = 0;
            while i < entries.len()
                invariant
                    i <= entries.len(),
                    v matches Value::Object(l) && l == *entries,
                    copies@.len() == i,
                    forall|j: int|
                        0 <= j < i ==> (#[trigger] copies@[j]).name == entries@[j].name
                            && copies@[j].value.content() == entries@[j].value.content(),
                decreases entries.len() - i,
            {
                copies.push(
                    Entry { name: entries[i].name.clone(), value: copy_value(&entries[i].value) },
                );
                i = i + 1;
            }
            let copy = Value::Object(copies);
            assert(copy.content() == v.content()) by {
                assert(copy.content()->Object_0 =~= v.content()->Object_0);
            }
            copy
        },
    }
}

impl Clone for Value {
    fn clone(&self) -> (copy: Value) {
        copy_value(self)
    }
}

impl Clone for Entry {
    fn clone(&self) -> (copy: Entry) {
        Entry { name: self.name.clone(), value: copy_value(&self.value) }
    }
}

/// A copy of a type reference: the same name under the same marks.
fn copy_type(ty: &Type) -> (copy: Type)
    ensures
        copy == *ty,
    decreases ty,
{
    match ty {
        Type::NamedType(name) => Type::NamedType(name.clone()),
        Type::ListType(inner) => Type::ListType(Box::new(copy_type(inner))),
        Type::NonNullType(inner) => Type::NonNullType(Box::new(copy_type(inner))),
    }
}

impl Clone for Type {
    fn clone(&self) -> (copy: Type) {
        copy_type(self)
    }
}

impl Type {
    /// The named type that is left when every list and non-null mark is taken off.
    pub open spec fn base(self) -> String
        decreases self,
    {
        match self {
            Type::NamedType(name) => name,
            Type::ListType(inner) => inner.base(),
            Type::NonNullType(inner) => inner.base(),
        }
    }
}

/// An object or interface type as contracts see it: each part as it is, and
/// the field list by its sequence, so that two types with the same fields in
/// the same order are one.
pub struct FieldedTypeView {
    pub position: Pos,
    pub description: Option<String>,
    pub name: String,
    pub implements_interfaces: Vec<String>,
    pub directives: Vec<Directive>,
    pub fields: Seq<Field>,
}

/// A type definition as contracts see it: objects and interfaces by their
/// view, every other kind as it is.
pub enum TypeDefinitionView {
    Scalar(ScalarType),
    Object(FieldedTypeView),
    Interface(FieldedTypeView),
    Union(UnionType),
    Enum(EnumType),
    InputObject(InputObjectType),
}

/// A definition as contracts see it: a type definition by its view, every
/// other kind as it is.
pub enum DefinitionView {
    SchemaDefinition(SchemaDefinition),
    TypeDefinition(TypeDefinitionView),
    TypeExtension(TypeExtension),
    DirectiveDefinition(DirectiveDefinition),
}

impl View for ObjectType {
    type V = FieldedTypeView;

    open spec fn view(&self) -> FieldedTypeView {
        FieldedTypeView {
            position: self.position,
            description: self.description,
            name: self.name,
            implements_interfaces: self.implements_interfaces,
            directives: self.directives,
            fields: self.fields@,
        }
    }
}

impl View for InterfaceType {
    type V = FieldedTypeView;

    open spec fn view(&self) -> FieldedTypeView {
        FieldedTypeView {
            position: self.position,
            description: self.description,
            name: self.name,
            implements_interfaces: self.implements_interfaces,
            directives: self.directives,
            fields: self.fields@,
        }
    }
}

impl View for TypeDefinition {
    type V = TypeDefinitionView;

    open spec fn view(&self) -> TypeDefinitionView {
        match *self {
            TypeDefinition::Scalar(t) => TypeDefinitionView::Scalar(t),
            TypeDefinition::Object(t) => TypeDefinitionView::Object(t@),
            TypeDefinition::Interface(t) => TypeDefinitionView::Interface(t@),
            TypeDefinition::Union(t) => TypeDefinitionView::Union(t),
            TypeDefinition::Enum(t) => TypeDefinitionView::Enum(t),
            TypeDefinition::InputObject(t) => TypeDefinitionView::InputObject(t),
        }
    }
}

impl View for Definition {
    type V = DefinitionView;

    open spec fn view(&self) -> DefinitionView {
        match *self {
            Definition::SchemaDefinition(d) => DefinitionView::SchemaDefinition(d),
            Definition::TypeDefinition(d) => DefinitionView::TypeDefinition(d@),
            Definition::TypeExtension(d) => DefinitionView::TypeExtension(d),
            Definition::DirectiveDefinition(d) => DefinitionView::DirectiveDefinition(d),
        }
    }
}

impl View for Document {
    type V = Seq<DefinitionView>;

    open spec fn view(&self) -> Seq<DefinitionView> {
        self.definitions@.map_values(|d: Definition| d@)
    }
}

impl TypeDefinitionView {
    /// The name that the definition gives its type.
    pub open spec fn name(self) -> String {
        match self {
            TypeDefinitionView::Scalar(t) => t.name,
            TypeDefinitionView::Object(t) => t.name,
            TypeDefinitionView::Interface(t) => t.name,
            TypeDefinitionView::Union(t) => t.name,
            TypeDefinitionView::Enum(t) => t.name,
            TypeDefinitionView::InputObject(t) => t.name,
        }
    }

    /// The fields of an object or interface type; no other kind has any.
    pub open spec fn fields(self) -> Seq<Field> {
        match self {
            TypeDefinitionView::Object(t) => t.fields,
            TypeDefinitionView::Interface(t) => t.fields,
            _ => Seq::empty(),
        }
    }

    /// The interfaces that an object or interface type says it implements.
    pub open spec fn implements(self) -> Seq<String> {
        match self {
            TypeDefinitionView::Object(t) => t.implements_interfaces@,
            TypeDefinitionView::Interface(t) => t.implements_interfaces@,
            _ => Seq::empty(),
        }
    }

    /// The names that the definition points to: the base type of each field and
    /// each implemented interface for an object or interface, each member for a
    /// union, the base type of each field for an input object. Enums and scalars
    /// point nowhere.
    pub open spec fn targets(self) -> Seq<String> {
        match self {
            TypeDefinitionView::Object(t) => t.fields.map_values(|f: Field| f.field_type.base())
                + t.implements_interfaces@,
            TypeDefinitionView::Interface(t) => t.fields.map_values(
                |f: Field| f.field_type.base(),
            ) + t.implements_interfaces@,
            TypeDefinitionView::Union(t) => t.types@,
            TypeDefinitionView::InputObject(t) => t.fields@.map_values(
                |f: InputValue| f.value_type.base(),
            ),
            _ => Seq::empty(),
        }
    }
}

impl DefinitionView {
    /// The name of the type that the definition defines, if it defines one.
    pub open spec fn defined_name(self) -> Option<Seq<char>> {
        match self {
            DefinitionView::TypeDefinition(t) => Some(t.name()@),
            _ => None,
        }
    }

    /// The definition defines an interface.
    pub open spec fn is_interface(self) -> bool {
        self matches DefinitionView::TypeDefinition(TypeDefinitionView::Interface(_))
    }

    /// The definition defines an input object.
    pub open spec fn is_input_object(self) -> bool {
        self matches DefinitionView::TypeDefinition(TypeDefinitionView::InputObject(_))
    }

    /// The fields of an object or interface type; nothing else has any.
    pub open spec fn fields(self) -> Seq<Field> {
        match self {
            DefinitionView::TypeDefinition(t) => t.fields(),
            _ => Seq::empty(),
        }
    }

    /// The interfaces that an object or interface type says it implements.
    pub open spec fn implements(self) -> Seq<String> {
        match self {
            DefinitionView::TypeDefinition(t) => t.implements(),
            _ => Seq::empty(),
        }
    }

    /// The names that the definition points to; see
    /// [`TypeDefinitionView::targets`].
    pub open spec fn targets(self) -> Seq<String> {
        match self {
            DefinitionView::TypeDefinition(t) => t.targets(),
            _ => Seq::empty(),
        }
    }

    /// The fields of an input object; no other kind has any.
    pub open spec fn input_fields(self) -> Seq<InputValue> {
        match self {
            DefinitionView::TypeDefinition(TypeDefinitionView::InputObject(t)) => t.fields@,
            _ => Seq::empty(),
        }
    }
}

} // verus!
