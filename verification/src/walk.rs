//! The state of the walk over a query, and what has to hold of it for the
//! record to come out as the field-usage closure.

use vstd::prelude::*;
use crate::index::fragment_index;
use crate::index::lemma_lookup;
use crate::index::lookup;
use crate::query::Definition;
use crate::query::Document;
use crate::query::Selection;
use crate::reach::lemma_reaches_induct;
use crate::reach::reaches;
use crate::schema::DefinitionView;
use crate::schema::Field;
use crate::usage::fragment_visit;
use crate::usage::input_reaches;
use crate::usage::marked_below;
use crate::usage::marked_from;
use crate::usage::pulls_in;
use crate::usage::used_below;
use crate::usage::used_from;
use crate::usage::input_step;
use crate::usage::item_marks;
use crate::usage::item_uses;
use crate::usage::leads_locally;
use crate::usage::local_child;
use crate::usage::local_step;
use crate::usage::marks;
use crate::usage::uses_field;
use crate::usage::Visit;
use crate::used::records_use;
use crate::used::Usage;
use crate::used::UsedFields;

verus! {

/// The walk's state: the record so far, the fragments whose selections have
/// been taken up, by their index in the query, and the input objects whose
/// fields have been taken up, by their index in the schema. Both marks are
/// set once and stay.
pub struct Walk {
    pub used: UsedFields,
    pub started: Vec<bool>,
    pub expanded: Vec<bool>,
}

impl Walk {
    /// The state before the walk over a schema and a query with so many
    /// definitions: nothing recorded, no mark set.
    pub fn new(definitions: usize, query_definitions: usize) -> (walk: Walk)
        ensures
            walk@.used == Usage::empty(),
            walk@.started.len() == query_definitions,
            walk@.expanded.len() == definitions,
            forall|i: int| 0 <= i < query_definitions ==> !(#[trigger] walk@.started[i]),
            forall|i: int| 0 <= i < definitions ==> !(#[trigger] walk@.expanded[i]),
    {
        let mut started: Vec<bool> = Vec::new();
        while started.len() < query_definitions
            invariant
                started@.len() <= query_definitions,
                forall|i: int| 0 <= i < started@.len() ==> !(#[trigger] started@[i]),
            decreases query_definitions - started.len(),
        {
            started.push(false);
        }
        let mut expanded: Vec<bool> = Vec::new();
        while expanded.len() < definitions
            invariant
                expanded@.len() <= definitions,
                forall|i: int| 0 <= i < expanded@.len() ==> !(#[trigger] expanded@[i]),
            decreases definitions - expanded.len(),
        {
            expanded.push(false);
        }
        Walk { used: UsedFields::new(), started, expanded }
    }
}

/// The state as contracts see it.
pub struct Progress {
    pub used: Usage,
    pub started: Seq<bool>,
    pub expanded: Seq<bool>,
}

impl View for Walk {
    type V = Progress;

    open spec fn view(&self) -> Progress {
        Progress { used: self.used@, started: self.started@, expanded: self.expanded@ }
    }
}

impl Progress {
    #[verifier::inline]
    pub open spec fn has_type(self, ty: Seq<char>) -> bool {
        self.used.dom().contains(ty)
    }

    #[verifier::inline]
    pub open spec fn has_use(self, ty: Seq<char>, field: Seq<char>) -> bool {
        records_use(self.used, ty, field)
    }

    /// The state has a mark for each fragment and each definition.
    pub open spec fn fits(self, defs: Seq<DefinitionView>, q: Document) -> bool {
        self.started.len() == q.definitions@.len() && self.expanded.len() == defs.len()
    }

    /// `later` holds all that `self` holds.
    pub open spec fn grows_to(self, later: Progress) -> bool {
        &&& self.started.len() == later.started.len()
        &&& self.expanded.len() == later.expanded.len()
        &&& forall|ty: Seq<char>| #[trigger] self.has_type(ty) ==> later.has_type(ty)
        &&& forall|ty: Seq<char>, f: Seq<char>| #[trigger] self.has_use(ty, f) ==> later.has_use(ty, f)
        &&& forall|i: int| 0 <= i < self.started.len() && #[trigger] self.started[i] ==> later.started[i]
        &&& forall|i: int|
            0 <= i < self.expanded.len() && #[trigger] self.expanded[i] ==> later.expanded[i]
    }

    /// Nothing is in the record that the query does not use.
    pub open spec fn sound(self, defs: Seq<DefinitionView>, q: Document) -> bool {
        &&& forall|ty: Seq<char>| #[trigger] self.has_type(ty) ==> marks(defs, q, ty)
        &&& forall|ty: Seq<char>, f: Seq<char>|
            #[trigger] self.has_use(ty, f) ==> uses_field(defs, q, ty, f)
    }

    /// The input type `t` has been taken up: it is marked, and where it is an
    /// input object, that object is marked as expanded.
    pub open spec fn entered(self, defs: Seq<DefinitionView>, t: Seq<char>) -> bool {
        &&& self.has_type(t)
        &&& lookup(defs, t) matches Some(j) ==> defs[j].is_input_object() ==> self.expanded[j]
    }

    /// The types of all fields of input object `j` have been taken up.
    pub open spec fn expansion_done(self, defs: Seq<DefinitionView>, j: int) -> bool {
        forall|k: int|
            0 <= k < defs[j].input_fields().len() ==> self.entered(
                defs,
                (#[trigger] defs[j].input_fields()[k]).value_type.base()@,
            )
    }

    /// Every expanded input object has the types of its fields taken up.
    pub open spec fn input_closed(self, defs: Seq<DefinitionView>) -> bool {
        forall|j: int|
            0 <= j < self.expanded.len() && #[trigger] self.expanded[j] ==> self.expansion_done(
                defs,
                j,
            )
    }

    /// Every input object expanded since `before` has the types of its fields
    /// taken up.
    pub open spec fn expansions_done_since(self, defs: Seq<DefinitionView>, before: Seq<bool>) -> bool {
        forall|j: int|
            0 <= j < self.expanded.len() && #[trigger] self.expanded[j] && !before[j]
                ==> self.expansion_done(defs, j)
    }

    /// All that an argument of type `start` pulls in is marked.
    pub open spec fn input_marked(self, defs: Seq<DefinitionView>, start: Seq<char>) -> bool {
        forall|ty: Seq<char>| #[trigger] input_reaches(defs, start, ty) ==> self.has_type(ty)
    }

    /// The record holds what the selection marks and uses, and the fragment has
    /// been taken up that a spread leads to.
    pub open spec fn item_ok(self, defs: Seq<DefinitionView>, q: Document, parent: Seq<char>, item: Selection) -> bool {
        &&& forall|ty: Seq<char>| #[trigger] item_marks(defs, q, parent, item, ty) ==> self.has_type(ty)
        &&& forall|ty: Seq<char>, f: Seq<char>|
            #[trigger] item_uses(defs, parent, item, ty, f) ==> self.has_use(ty, f)
        &&& item matches Selection::FragmentSpread(s) ==> (lookup(defs, parent) is Some
            ==> (fragment_index(q, s.fragment_name@) matches Some(i) ==> self.started[i]))
    }

    /// Each selection of the visit is recorded.
    pub open spec fn direct_ok(self, defs: Seq<DefinitionView>, q: Document, v: Visit) -> bool {
        forall|k: int|
            0 <= k < v.selection_set.items@.len() ==> self.item_ok(
                defs,
                q,
                v.parent,
                #[trigger] v.selection_set.items@[k],
            )
    }

    /// Each selection is recorded that the visit leads to without following a
    /// fragment spread.
    pub open spec fn covered(self, defs: Seq<DefinitionView>, q: Document, v: Visit) -> bool {
        forall|w: Visit| #[trigger] reaches(local_step(defs), v, w) ==> self.direct_ok(defs, q, w)
    }

    /// Each fragment taken up since `before` is covered.
    pub open spec fn fragments_covered_since(
        self,
        defs: Seq<DefinitionView>,
        q: Document,
        before: Seq<bool>,
    ) -> bool {
        forall|i: int|
            0 <= i < self.started.len() && #[trigger] self.started[i] && !before[i] ==> (
            q.definitions@[i] matches Definition::Fragment(f) && self.covered(
                defs,
                q,
                fragment_visit(f),
            ))
    }
    /// `later` holds no type that `self` does not hold but such as `types`
    /// admits, and no field use that `self` does not hold but such as `uses`
    /// admits.
    pub open spec fn adds_only(
        self,
        later: Progress,
        types: spec_fn(Seq<char>) -> bool,
        uses: spec_fn(Seq<char>, Seq<char>) -> bool,
    ) -> bool {
        &&& forall|ty: Seq<char>| #[trigger] later.has_type(ty) ==> self.has_type(ty) || types(ty)
        &&& forall|ty: Seq<char>, f: Seq<char>| #[trigger]
            later.has_use(ty, f) ==> self.has_use(ty, f) || uses(ty, f)
    }

    /// The state is one that the walk can go on from: it fits, it is sound, and
    /// every expanded input object is done.
    pub open spec fn steady(self, defs: Seq<DefinitionView>, q: Document) -> bool {
        &&& self.fits(defs, q)
        &&& self.sound(defs, q)
        &&& self.input_closed(defs)
    }

    /// The walk went on from `self` to `later`: nothing was lost, `later` is
    /// steady, and each fragment taken up meanwhile is covered.
    pub open spec fn went_on_to(self, later: Progress, defs: Seq<DefinitionView>, q: Document) -> bool {
        &&& later.steady(defs, q)
        &&& self.grows_to(later)
        &&& later.fragments_covered_since(defs, q, self.started)
    }

    /// The selection is recorded, and so is all that it leads to without
    /// following a fragment spread.
    pub open spec fn item_done(self, defs: Seq<DefinitionView>, q: Document, parent: Seq<char>, item: Selection) -> bool {
        &&& self.item_ok(defs, q, parent, item)
        &&& local_child(defs, parent, item) matches Some(c) ==> self.covered(defs, q, c)
    }

    /// The first `upto` selections of the visit are done.
    pub open spec fn items_done(self, defs: Seq<DefinitionView>, q: Document, v: Visit, upto: int) -> bool {
        forall|m: int|
            0 <= m < upto && m < v.selection_set.items@.len() ==> self.item_done(
                defs,
                q,
                v.parent,
                #[trigger] v.selection_set.items@[m],
            )
    }
}

/// How many marks are still unset.
pub open spec fn count_false(s: Seq<bool>) -> nat
    decreases s.len(),
{
    if s.len() == 0 {
        0
    } else {
        count_false(s.drop_last()) + if s.last() {
            0nat
        } else {
            1nat
        }
    }
}

/// Setting an unset mark leaves one fewer unset.
pub proof fn lemma_count_false_set(s: Seq<bool>, i: int)
    requires
        0 <= i < s.len(),
        !s[i],
    ensures
        count_false(s.update(i, true)) + 1 == count_false(s),
    decreases s.len(),
{
    let t = s.update(i, true);
    if i == s.len() - 1 {
        assert(t.drop_last() =~= s.drop_last());
    } else {
        lemma_count_false_set(s.drop_last(), i);
        assert(t.drop_last() =~= s.drop_last().update(i, true));
    }
}

/// Marks that are only ever set leave no more unset than before.
pub proof fn lemma_count_false_mono(s: Seq<bool>, t: Seq<bool>)
    requires
        s.len() == t.len(),
        forall|i: int| 0 <= i < s.len() && #[trigger] s[i] ==> t[i],
    ensures
        count_false(t) <= count_false(s),
    decreases s.len(),
{
    if s.len() > 0 {
        lemma_count_false_mono(s.drop_last(), t.drop_last());
    }
}

/// What holds of a state holds of every state that it grows to.
pub proof fn lemma_grows_keeps(
    defs: Seq<DefinitionView>,
    q: Document,
    a: Progress,
    b: Progress,
)
    requires
        a.fits(defs, q),
        a.grows_to(b),
    ensures
        forall|t: Seq<char>| #[trigger] a.entered(defs, t) ==> b.entered(defs, t),
        forall|j: int| #[trigger] a.expansion_done(defs, j) ==> b.expansion_done(defs, j),
        forall|t: Seq<char>| #[trigger] a.input_marked(defs, t) ==> b.input_marked(defs, t),
        forall|p: Seq<char>, item: Selection|
            #[trigger] a.item_ok(defs, q, p, item) ==> b.item_ok(defs, q, p, item),
        forall|v: Visit| #[trigger] a.direct_ok(defs, q, v) ==> b.direct_ok(defs, q, v),
        forall|v: Visit| #[trigger] a.covered(defs, q, v) ==> b.covered(defs, q, v),
        forall|p: Seq<char>, item: Selection|
            #[trigger] a.item_done(defs, q, p, item) ==> b.item_done(defs, q, p, item),
        forall|v: Visit, upto: int|
            #[trigger] a.items_done(defs, q, v, upto) ==> b.items_done(defs, q, v, upto),
{
    assert forall|t: Seq<char>| #[trigger] a.entered(defs, t) implies b.entered(defs, t) by {
        lemma_lookup(defs, t);
        assert(a.has_type(t));
    }
    assert forall|j: int| #[trigger] a.expansion_done(defs, j) implies b.expansion_done(defs, j) by {
        assert forall|k: int| 0 <= k < defs[j].input_fields().len() implies b.entered(
            defs,
            (#[trigger] defs[j].input_fields()[k]).value_type.base()@,
        ) by {
            assert(a.entered(defs, defs[j].input_fields()[k].value_type.base()@));
        }
    }
    assert forall|t: Seq<char>| #[trigger] a.input_marked(defs, t) implies b.input_marked(
        defs,
        t,
    ) by {
        assert forall|ty: Seq<char>| #[trigger] input_reaches(defs, t, ty) implies b.has_type(
            ty,
        ) by {
            assert(a.has_type(ty));
        }
    }
    assert forall|p: Seq<char>, item: Selection| #[trigger]
        a.item_ok(defs, q, p, item) implies b.item_ok(defs, q, p, item) by {
        assert forall|ty: Seq<char>| #[trigger]
            item_marks(defs, q, p, item, ty) implies b.has_type(ty) by {
            assert(a.has_type(ty));
        }
        assert forall|ty: Seq<char>, f: Seq<char>| #[trigger]
            item_uses(defs, p, item, ty, f) implies b.has_use(ty, f) by {
            assert(a.has_use(ty, f));
        }
        if let Selection::FragmentSpread(s) = item {
            if lookup(defs, p) is Some {
                if let Some(i) = fragment_index(q, s.fragment_name@) {
                    crate::index::lemma_fragment_index(q.definitions@, s.fragment_name@);
                    assert(a.started[i]);
                }
            }
        }
    }
    assert forall|v: Visit| #[trigger] a.direct_ok(defs, q, v) implies b.direct_ok(defs, q, v) by {
        assert forall|k: int| 0 <= k < v.selection_set.items@.len() implies b.item_ok(
            defs,
            q,
            v.parent,
            #[trigger] v.selection_set.items@[k],
        ) by {
            assert(a.item_ok(defs, q, v.parent, v.selection_set.items@[k]));
        }
    }
    assert forall|v: Visit| #[trigger] a.covered(defs, q, v) implies b.covered(defs, q, v) by {
        assert forall|w: Visit| #[trigger] reaches(local_step(defs), v, w) implies b.direct_ok(
            defs,
            q,
            w,
        ) by {
            assert(a.direct_ok(defs, q, w));
        }
    }
    assert forall|v: Visit, upto: int| #[trigger]
        a.items_done(defs, q, v, upto) implies b.items_done(defs, q, v, upto) by {
        assert forall|m: int| 0 <= m < upto && m < v.selection_set.items@.len() implies b.item_done(
            defs,
            q,
            v.parent,
            #[trigger] v.selection_set.items@[m],
        ) by {
            assert(a.item_done(defs, q, v.parent, v.selection_set.items@[m]));
        }
    }
}

/// Growing is transitive, and a state grows to itself.
pub proof fn lemma_grows_trans(a: Progress, b: Progress, c: Progress)
    requires
        a.grows_to(b),
        b.grows_to(c),
    ensures
        a.grows_to(c),
        a.grows_to(a),
{
    assert forall|ty: Seq<char>| #[trigger] a.has_type(ty) implies c.has_type(ty) by {
        assert(b.has_type(ty));
    }
    assert forall|ty: Seq<char>, f: Seq<char>| #[trigger] a.has_use(ty, f) implies c.has_use(
        ty,
        f,
    ) by {
        assert(b.has_use(ty, f));
    }
    assert forall|i: int| 0 <= i < a.started.len() && #[trigger] a.started[i] implies c.started[i] by {
        assert(b.started[i]);
    }
    assert forall|i: int| 0 <= i < a.expanded.len() && #[trigger] a.expanded[i] implies c.expanded[i] by {
        assert(b.expanded[i]);
    }
}

/// Where every expanded input object is done, a type that has been taken up
/// has all that it pulls in marked.
pub proof fn lemma_input_closure(defs: Seq<DefinitionView>, p: Progress, start: Seq<char>)
    requires
        p.expanded.len() == defs.len(),
        p.input_closed(defs),
        p.entered(defs, start),
    ensures
        p.input_marked(defs, start),
{
    let step = input_step(defs);
    let inv = |t: Seq<char>| p.entered(defs, t);
    assert forall|a: Seq<char>, b: Seq<char>| inv(a) && #[trigger] step(a, b) implies inv(b) by {
        lemma_lookup(defs, a);
        let i = lookup(defs, a).unwrap();
        let k = choose|k: int|
            0 <= k < defs[i].input_fields().len() && (#[trigger] defs[i].input_fields()[k]).value_type.base()@
                == b;
        assert(defs[i].is_input_object());
        assert(p.expanded[i]);
        assert(p.expansion_done(defs, i));
        assert(p.entered(defs, defs[i].input_fields()[k].value_type.base()@));
    }
    assert forall|ty: Seq<char>| #[trigger] input_reaches(defs, start, ty) implies p.has_type(
        ty,
    ) by {
        lemma_reaches_induct(step, inv, start, ty);
    }
}

/// Going on is transitive.
pub proof fn lemma_went_on_trans(
    defs: Seq<DefinitionView>,
    q: Document,
    a: Progress,
    b: Progress,
    c: Progress,
)
    requires
        a.fits(defs, q),
        a.went_on_to(b, defs, q),
        b.went_on_to(c, defs, q),
    ensures
        a.went_on_to(c, defs, q),
{
    lemma_grows_trans(a, b, c);
    lemma_grows_keeps(defs, q, b, c);
    assert forall|i: int|
        0 <= i < c.started.len() && #[trigger] c.started[i] && !a.started[i] implies (
    q.definitions@[i] matches Definition::Fragment(f) && c.covered(defs, q, fragment_visit(f))) by {
        if b.started[i] {
            if let Definition::Fragment(f) = q.definitions@[i] {
                assert(b.covered(defs, q, fragment_visit(f)));
            }
        }
    }
}

/// A steady state went on to itself.
pub proof fn lemma_went_on_self(defs: Seq<DefinitionView>, q: Document, a: Progress)
    requires
        a.steady(defs, q),
    ensures
        a.went_on_to(a, defs, q),
{
}

/// A change to the record alone that keeps it sound lets the walk go on.
pub proof fn lemma_went_on_by_record(defs: Seq<DefinitionView>, q: Document, a: Progress, b: Progress)
    requires
        a.steady(defs, q),
        a.grows_to(b),
        b.sound(defs, q),
        b.started == a.started,
        b.expanded == a.expanded,
    ensures
        a.went_on_to(b, defs, q),
{
    lemma_grows_keeps(defs, q, a, b);
    assert forall|j: int|
        0 <= j < b.expanded.len() && #[trigger] b.expanded[j] implies b.expansion_done(defs, j) by {
        assert(a.expansion_done(defs, j));
    }
}

/// Where every selection of a visit is done, the visit is covered.
pub proof fn lemma_items_cover(defs: Seq<DefinitionView>, q: Document, p: Progress, v: Visit)
    requires
        p.items_done(defs, q, v, v.selection_set.items@.len() as int),
    ensures
        p.covered(defs, q, v),
{
    assert forall|w: Visit| #[trigger] reaches(local_step(defs), v, w) implies p.direct_ok(
        defs,
        q,
        w,
    ) by {
        if w == v {
            assert forall|k: int| 0 <= k < v.selection_set.items@.len() implies p.item_ok(
                defs,
                q,
                v.parent,
                #[trigger] v.selection_set.items@[k],
            ) by {
                assert(p.item_done(defs, q, v.parent, v.selection_set.items@[k]));
            }
        } else {
            let c = crate::reach::lemma_reaches_first_step(local_step(defs), v, w);
            assert(leads_locally(defs, v, c));
            let m = choose|m: int|
                0 <= m < v.selection_set.items@.len() && local_child(
                    defs,
                    v.parent,
                    #[trigger] v.selection_set.items@[m],
                ) == Some(c);
            assert(p.item_done(defs, q, v.parent, v.selection_set.items@[m]));
            assert(p.covered(defs, q, c));
        }
    }
}

/// Where the input objects expanded meanwhile are done, all are done again.
pub proof fn lemma_closed_again(defs: Seq<DefinitionView>, before: Progress, after: Progress)
    requires
        before.expanded.len() == defs.len(),
        before.grows_to(after),
        before.input_closed(defs),
        after.expansions_done_since(defs, before.expanded),
    ensures
        after.input_closed(defs),
{
    assert forall|j: int|
        0 <= j < after.expanded.len() && #[trigger] after.expanded[j] implies after.expansion_done(
        defs,
        j,
    ) by {
        if before.expanded[j] {
            assert(before.expansion_done(defs, j));
            assert forall|k: int| 0 <= k < defs[j].input_fields().len() implies after.entered(
                defs,
                (#[trigger] defs[j].input_fields()[k]).value_type.base()@,
            ) by {
                let t = defs[j].input_fields()[k].value_type.base()@;
                assert(before.entered(defs, t));
                lemma_lookup(defs, t);
            }
        }
    }
}

/// No field use.
pub open spec fn no_use() -> spec_fn(Seq<char>, Seq<char>) -> bool {
    |ty: Seq<char>, f: Seq<char>| false
}

/// The one type `ty`.
pub open spec fn the_type(ty: Seq<char>) -> spec_fn(Seq<char>) -> bool {
    |t: Seq<char>| t == ty
}

/// The types that an argument of type `start` pulls in.
pub open spec fn inputs_from(defs: Seq<DefinitionView>, start: Seq<char>) -> spec_fn(Seq<char>) -> bool {
    |ty: Seq<char>| input_reaches(defs, start, ty)
}

/// The types that the arguments of a field pull in.
pub open spec fn inputs_of(defs: Seq<DefinitionView>, field: Field) -> spec_fn(Seq<char>) -> bool {
    |ty: Seq<char>| pulls_in(defs, field, ty)
}

/// The types marked from a visit on.
pub open spec fn marks_below(defs: Seq<DefinitionView>, q: Document, from: Visit) -> spec_fn(Seq<char>) -> bool {
    |ty: Seq<char>| marked_below(defs, q, from, ty)
}

/// The field uses recorded from a visit on.
pub open spec fn uses_below(defs: Seq<DefinitionView>, q: Document, from: Visit) -> spec_fn(
    Seq<char>,
    Seq<char>,
) -> bool {
    |ty: Seq<char>, f: Seq<char>| used_below(defs, q, from, ty, f)
}

/// The types marked by a selection and from where it leads.
pub open spec fn marks_from(
    defs: Seq<DefinitionView>,
    q: Document,
    parent: Seq<char>,
    item: Selection,
) -> spec_fn(Seq<char>) -> bool {
    |ty: Seq<char>| marked_from(defs, q, parent, item, ty)
}

/// The field uses recorded by a selection and from where it leads.
pub open spec fn uses_from(
    defs: Seq<DefinitionView>,
    q: Document,
    parent: Seq<char>,
    item: Selection,
) -> spec_fn(Seq<char>, Seq<char>) -> bool {
    |ty: Seq<char>, f: Seq<char>| used_from(defs, q, parent, item, ty, f)
}

/// What is added in two steps within bounds is added within the wider bound.
pub proof fn lemma_adds_only_trans(
    a: Progress,
    b: Progress,
    c: Progress,
    types: spec_fn(Seq<char>) -> bool,
    uses: spec_fn(Seq<char>, Seq<char>) -> bool,
    more_types: spec_fn(Seq<char>) -> bool,
    more_uses: spec_fn(Seq<char>, Seq<char>) -> bool,
    all_types: spec_fn(Seq<char>) -> bool,
    all_uses: spec_fn(Seq<char>, Seq<char>) -> bool,
)
    requires
        a.adds_only(b, types, uses),
        b.adds_only(c, more_types, more_uses),
        forall|ty: Seq<char>| #[trigger] types(ty) ==> all_types(ty),
        forall|ty: Seq<char>| #[trigger] more_types(ty) ==> all_types(ty),
        forall|ty: Seq<char>, f: Seq<char>| #[trigger] uses(ty, f) ==> all_uses(ty, f),
        forall|ty: Seq<char>, f: Seq<char>| #[trigger] more_uses(ty, f) ==> all_uses(ty, f),
    ensures
        a.adds_only(c, all_types, all_uses),
{
    assert forall|ty: Seq<char>| #[trigger] c.has_type(ty) implies a.has_type(ty) || all_types(
        ty,
    ) by {
        if !more_types(ty) {
            assert(b.has_type(ty));
            if !a.has_type(ty) {
                assert(types(ty));
            }
        }
    }
    assert forall|ty: Seq<char>, f: Seq<char>| #[trigger] c.has_use(ty, f) implies a.has_use(ty, f)
        || all_uses(ty, f) by {
        if !more_uses(ty, f) {
            assert(b.has_use(ty, f));
            if !a.has_use(ty, f) {
                assert(uses(ty, f));
            }
        }
    }
}

} // verus!
