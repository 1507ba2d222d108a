//! The record of what is used: type names, each with a set of field names.

use vstd::hash_map::StringHashMap;
use vstd::hash_set::StringHashSet;
use vstd::prelude::*;

verus! {

/// What is used, as contracts see it: the names of the used types, each with
/// the names of the fields used on it.
pub type Usage = Map<Seq<char>, Set<Seq<char>>>;

/// The record has `field` as used on the type `ty`.
pub open spec fn records_use(used: Usage, ty: Seq<char>, field: Seq<char>) -> bool {
    used.dom().contains(ty) && used[ty].contains(field)
}

/// `m` with the type `ty` marked as used, its fields as they were.
pub open spec fn with_type(m: Usage, ty: Seq<char>) -> Usage {
    if m.dom().contains(ty) {
        m
    } else {
        m.insert(ty, Set::empty())
    }
}

/// `m` with `field` used on the type `ty`.
pub open spec fn with_field(m: Usage, ty: Seq<char>, field: Seq<char>) -> Usage {
    with_type(m, ty).insert(ty, with_type(m, ty)[ty].insert(field))
}

/// A map from the names of used types to the names of the fields used on
/// each. A type can be used without any of its fields being used.
pub struct UsedFields {
    slots: StringHashMap<usize>,
    fields: Vec<StringHashSet>,
}

impl UsedFields {
    /// Each type has a set of its own.
    #[verifier::type_invariant]
    spec fn well_formed(self) -> bool {
        &&& forall|ty: Seq<char>| #[trigger]
            self.slots@.contains_key(ty) ==> self.slots@[ty] < self.fields@.len()
        &&& forall|a: Seq<char>, b: Seq<char>|
            self.slots@.contains_key(a) && self.slots@.contains_key(b) && a != b
                ==> #[trigger] self.slots@[a] != #[trigger] self.slots@[b]
    }

    /// Nothing used.
    pub fn new() -> (used: UsedFields)
        ensures
            used@ == Usage::empty(),
    {
        let used = UsedFields { slots: StringHashMap::new(), fields: Vec::new() };
        assert(used@ =~~= Usage::empty());
        used
    }

    /// Whether the type is marked as used.
    pub fn contains_key(&self, ty: &String) -> (yes: bool)
        ensures
            yes == self@.dom().contains(ty@),
    {
        self.slots.contains_key(ty.as_str())
    }

    /// Whether the field is used on the type.
    pub fn contains(&self, ty: &String, field: &String) -> (yes: bool)
        ensures
            yes == records_use(self@, ty@, field@),
    {
        proof {
            use_type_invariant(self);
        }
        match self.slots.get(ty.as_str()) {
            Some(slot) => self.fields[*slot].contains(field.as_str()),
            None => false,
        }
    }

    /// Marks the type as used.
    pub fn mark(&mut self, ty: &String)
        ensures
            final(self)@ == with_type(old(self)@, ty@),
    {
        let mut taken = UsedFields::new();
        core::mem::swap(self, &mut taken);
        proof {
            use_type_invariant(&taken);
        }
        let ghost before = taken;
        let UsedFields { mut slots, mut fields } = taken;
        if !slots.contains_key(ty.as_str()) {
            let slot: usize = fields.len();
            fields.push(StringHashSet::new());
            slots.insert(ty.clone(), slot);
        }
        *self = UsedFields { slots, fields };
        assert(self@ =~~= with_type(before@, ty@));
    }

    /// Records the field as used on the type, which marks the type as used.
    pub fn insert(&mut self, ty: &String, field: &String)
        ensures
            final(self)@ == with_field(old(self)@, ty@, field@),
    {
        let mut taken = UsedFields::new();
        core::mem::swap(self, &mut taken);
        proof {
            use_type_invariant(&taken);
        }
        let ghost before = taken;
        let UsedFields { mut slots, mut fields } = taken;
        let known = match slots.get(ty.as_str()) {
            Some(slot) => Some(*slot),
            None => None,
        };
        match known {
            Some(slot) => {
                fields[slot].insert(field.clone());
            },
            None => {
                let slot: usize = fields.len();
                let mut alone = StringHashSet::new();
                alone.insert(field.clone());
                fields.push(alone);
                slots.insert(ty.clone(), slot);
            },
        }
        *self = UsedFields { slots, fields };
        assert(self@ =~~= with_field(before@, ty@, field@));
    }
}

impl View for UsedFields {
    type V = Usage;

    closed spec fn view(&self) -> Usage {
        Map::new(
            |ty: Seq<char>| self.slots@.contains_key(ty),
            |ty: Seq<char>| self.fields@[self.slots@[ty] as int]@,
        )
    }
}

} // verus!
