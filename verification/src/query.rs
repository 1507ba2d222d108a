//! The query document, as far as the field-usage closure reads it: operations,
//! fragments, and the selections under them.

use vstd::prelude::*;

verus! {

/// The type that a fragment applies to.
#[derive(Clone, Debug, PartialEq, Eq)]
pub enum TypeCondition {
    On(String),
}

/// A field selected on the enclosing type, with what is selected under it.
#[derive(Debug, PartialEq, Eq)]
pub struct Field {
    pub name: String,
    pub selection_set: SelectionSet,
}

#[derive(Clone, Debug, PartialEq, Eq)]
pub struct FragmentSpread {
    pub fragment_name: String,
}

#[derive(Debug, PartialEq, Eq)]
pub struct InlineFragment {
    pub type_condition: Option<TypeCondition>,
    pub selection_set: SelectionSet,
}

#[derive(Debug, PartialEq, Eq)]
pub enum Selection {
    Field(Field),
    FragmentSpread(FragmentSpread),
    InlineFragment(InlineFragment),
}

#[derive(Debug, PartialEq, Eq)]
pub struct SelectionSet {
    pub items: Vec<Selection>,
}

#[derive(Clone, Debug, PartialEq, Eq)]
pub struct Query {
    pub name: Option<String>,
    pub selection_set: SelectionSet,
}

#[derive(Clone, Debug, PartialEq, Eq)]
pub struct Mutation {
    pub name: Option<String>,
    pub selection_set: SelectionSet,
}

#[derive(Clone, Debug, PartialEq, Eq)]
pub struct Subscription {
    pub name: Option<String>,
    pub selection_set: SelectionSet,
}

#[derive(Clone, Debug, PartialEq, Eq)]
pub enum OperationDefinition {
    /// A bare selection set: a query without the keyword.
    SelectionSet(SelectionSet),
    Query(Query),
    Mutation(Mutation),
    Subscription(Subscription),
}

#[derive(Clone, Debug, PartialEq, Eq)]
pub struct FragmentDefinition {
    pub name: String,
    pub type_condition: TypeCondition,
    pub selection_set: SelectionSet,
}

#[derive(Clone, Debug, PartialEq, Eq)]
pub enum Definition {
    Operation(OperationDefinition),
    Fragment(FragmentDefinition),
}

/// A query document: operations and fragments in source order.
#[derive(Clone, Debug, PartialEq, Eq)]
pub struct Document {
    pub definitions: Vec<Definition>,
}

/// What a selection set holds, with its selections as a sequence, so that two
/// selection sets that hold the same are one.
pub struct SelectionSetContent {
    pub items: Seq<SelectionContent>,
}

/// What a selection holds.
pub enum SelectionContent {
    Field { name: String, selection_set: SelectionSetContent },
    FragmentSpread(FragmentSpread),
    InlineFragment { type_condition: Option<TypeCondition>, selection_set: SelectionSetContent },
}

impl SelectionSet {
    /// What the selection set holds.
    pub open spec fn content(self) -> SelectionSetContent
        decreases self,
    {
        SelectionSetContent {
            items: Seq::new(
                self.items@.len(),
                |i: int|
                    if 0 <= i < self.items@.len() {
                        self.items@[i].content()
                    } else {
                        arbitrary()
                    },
            ),
        }
    }
}

impl Selection {
    /// What the selection holds.
    pub open spec fn content(self) -> SelectionContent
        decreases self,
    {
        match self {
            Selection::Field(f) => SelectionContent::Field {
                name: f.name,
                selection_set: f.selection_set.content(),
            },
            Selection::FragmentSpread(s) => SelectionContent::FragmentSpread(s),
            Selection::InlineFragment(f) => SelectionContent::InlineFragment {
                type_condition: f.type_condition,
                selection_set: f.selection_set.content(),
            },
        }
    }
}

/// A copy of a selection set: a selection set of its own that holds what
/// `set` holds.
fn copy_selection_set(set: &SelectionSet) -> (copy: SelectionSet)
    ensures
        copy.content() == set.content(),
    decreases set,
{
    let mut items: Vec<Selection> = Vec::new();
    let mut i: usize = 0;
    while i < set.items.len()
        invariant
            i <= set.items.len(),
            items@.len() == i,
            forall|j: int| 0 <= j < i ==> (#[trigger] items@[j]).content() == set.items@[j].content(),
        decreases set.items.len() - i,
    {
        items.push(copy_selection(&set.items[i]));
        i = i + 1;
    }
    let copy = SelectionSet { items };
    assert(copy.content().items =~= set.content().items);
    copy
}

/// A copy of a selection: a selection of its own that holds what `selection`
/// holds.
fn copy_selection(selection: &Selection) -> (copy: Selection)
    ensures
        copy.content() == selection.content(),
    decreases selection,
{
    match selection {
        Selection::Field(f) => Selection::Field(
            Field { name: f.name.clone(), selection_set: copy_selection_set(&f.selection_set) },
        ),
        Selection::FragmentSpread(s) => Selection::FragmentSpread(
            FragmentSpread { fragment_name: s.fragment_name.clone() },
        ),
        Selection::InlineFragment(f) => Selection::InlineFragment(
            InlineFragment {
                type_condition: match &f.type_condition {
                    Some(TypeCondition::On(name)) => Some(TypeCondition::On(name.clone())),
                    None => None,
                },
                selection_set: copy_selection_set(&f.selection_set),
            },
        ),
    }
}

impl Clone for SelectionSet {
    fn clone(&self) -> (copy: SelectionSet) {
        copy_selection_set(self)
    }
}

impl Clone for Selection {
    fn clone(&self) -> (copy: Selection) {
        copy_selection(self)
    }
}

impl Clone for Field {
    fn clone(&self) -> (copy: Field) {
        Field { name: self.name.clone(), selection_set: copy_selection_set(&self.selection_set) }
    }
}

impl Clone for InlineFragment {
    fn clone(&self) -> (copy: InlineFragment) {
        InlineFragment {
            type_condition: match &self.type_condition {
                Some(TypeCondition::On(name)) => Some(TypeCondition::On(name.clone())),
                None => None,
            },
            selection_set: copy_selection_set(&self.selection_set),
        }
    }
}

} // verus!
