//! Focusing is idempotent: a schema cut down to what its roots reach is, for
//! the same roots, already cut down.

use vstd::prelude::*;
use crate::filter::lemma_filter_all;
use crate::focus::focused;
use crate::focus::in_closure;
use crate::focus::reached;
use crate::focus::retained;
use crate::focus::root_reaches;
use crate::graph::edge_step;
use crate::index::declares;
use crate::index::implemented_by;
use crate::index::owner;
use crate::index::in_force;
use crate::index::lemma_edge_ends;
use crate::index::lemma_lookup;
use crate::index::lookup;
use crate::index::points_to;
use crate::index::type_edge;
use crate::index::type_edges;
use crate::reach::lemma_reaches_induct;
use crate::reach::lemma_reaches_self;
use crate::reach::lemma_reaches_then_step;
use crate::reach::reaches;
use crate::schema::DefinitionView;

verus! {

/// Where a filter keeps every definition of a name, the name stands in what
/// is left for the definition that it stood for; a name that stood for
/// nothing stands for nothing.
proof fn lemma_lookup_filtered(
    defs: Seq<DefinitionView>,
    keep: spec_fn(DefinitionView) -> bool,
    name: Seq<char>,
)
    ensures
        lookup(defs, name) is None ==> lookup(defs.filter(keep), name) is None,
        (forall|d: DefinitionView| d.defined_name() == Some(name) ==> #[trigger] keep(d))
            ==> match lookup(defs, name) {
            Some(i) => lookup(defs.filter(keep), name) matches Some(j) && 0 <= i < defs.len() && 0
                <= j < defs.filter(keep).len() && defs.filter(keep)[j] == defs[i],
            None => true,
        },
    decreases defs.len(),
{
    reveal(Seq::filter);
    if defs.len() > 0 {
        let rest = defs.drop_last();
        let last = defs.last();
        lemma_lookup_filtered(rest, keep, name);
        lemma_lookup(rest, name);
        let left_rest = rest.filter(keep);
        if keep(last) {
            let left = left_rest.push(last);
            assert(left.drop_last() =~= left_rest);
            assert(left.last() == last);
            if last.defined_name() != Some(name) {
                if let Some(i) = lookup(rest, name) {
                    if forall|d: DefinitionView|
                        d.defined_name() == Some(name) ==> #[trigger] keep(d) {
                        let j = lookup(left_rest, name).unwrap();
                        assert(left[j] == left_rest[j]);
                        assert(rest[i] == defs[i]);
                    }
                }
            }
        } else {
            if let Some(i) = lookup(rest, name) {
                assert(rest[i] == defs[i]);
            }
        }
    }
}

/// What the focused schema holds of a definition that a root reaches: the
/// name of the definition stands for it there as well.
proof fn lemma_reached_stands(defs: Seq<DefinitionView>, roots: Seq<Seq<char>>, b: int) -> (at: int)
    requires
        reached(defs, roots, b),
        in_force(defs, b),
    ensures
        in_force(focused(defs, roots), at),
        focused(defs, roots)[at] == defs[b],
        lookup(focused(defs, roots), defs[b].defined_name().unwrap()) == Some(at),
{
    let keep = |d: DefinitionView| retained(defs, roots, d);
    let name = defs[b].defined_name().unwrap();
    assert forall|d: DefinitionView| d.defined_name() == Some(name) implies #[trigger] keep(d) by {
        assert(in_closure(defs, roots, name));
    }
    lemma_lookup_filtered(defs, keep, name);
    lookup(focused(defs, roots), name).unwrap()
}

/// An edge of the type graph between definitions that a root reaches is an
/// edge of the type graph of the focused schema.
proof fn lemma_edge_stands(defs: Seq<DefinitionView>, roots: Seq<Seq<char>>, a: int, b: int)
    requires
        reached(defs, roots, a),
        reached(defs, roots, b),
        type_edge(defs, a, b),
    ensures
        type_edge(
            focused(defs, roots),
            lookup(focused(defs, roots), defs[a].defined_name().unwrap()).unwrap(),
            lookup(focused(defs, roots), defs[b].defined_name().unwrap()).unwrap(),
        ),
{
    let left = focused(defs, roots);
    lemma_edge_ends(defs, a, b);
    let at_a = lemma_reached_stands(defs, roots, a);
    let at_b = lemma_reached_stands(defs, roots, b);
    if points_to(defs, a, b) {
        let k = choose|k: int|
            0 <= k < defs[a].targets().len() && lookup(defs, #[trigger] defs[a].targets()[k]@)
                == Some(b);
        lemma_lookup(defs, defs[a].targets()[k]@);
        assert(left[at_a].targets()[k] == defs[a].targets()[k]);
        assert(lookup(left, left[at_a].targets()[k]@) == Some(at_b));
        assert(points_to(left, at_a, at_b));
    } else {
        let d = choose|d: int| #[trigger] declares(defs, d, a) && owner(defs, d) == Some(b);
        let k = choose|k: int|
            0 <= k < defs[d].implements().len() && lookup(
                defs,
                #[trigger] defs[d].implements()[k]@,
            ) == Some(a);
        lemma_lookup(defs, defs[d].implements()[k]@);
        lemma_lookup(defs, defs[d].defined_name().unwrap());
        let keep = |x: DefinitionView| retained(defs, roots, x);
        assert(in_closure(defs, roots, defs[d].defined_name().unwrap()));
        assert(keep(defs[d]));
        defs.lemma_filter_contains(keep, d);
        let at_d = choose|at_d: int| 0 <= at_d < left.len() && left[at_d] == defs[d];
        assert(left[at_d].implements()[k] == defs[d].implements()[k]);
        assert(lookup(left, left[at_d].implements()[k]@) == Some(at_a));
        assert(declares(left, at_d, at_a));
        assert(owner(left, at_d) == Some(at_b));
        assert(implemented_by(left, at_a, at_b));
    }
}

/// A name in the closure of the schema is in the closure of the focused
/// schema.
proof fn lemma_closure_stands(defs: Seq<DefinitionView>, roots: Seq<Seq<char>>, name: Seq<char>)
    requires
        in_closure(defs, roots, name),
    ensures
        in_closure(focused(defs, roots), roots, name),
{
    let left = focused(defs, roots);
    let b = lookup(defs, name).unwrap();
    let r = choose|r: int| 0 <= r < roots.len() && root_reaches(defs, #[trigger] roots[r], b);
    let s = lookup(defs, roots[r]).unwrap();
    lemma_lookup(defs, roots[r]);
    lemma_lookup(defs, name);
    let step = edge_step(type_edges(defs));
    let step_left = edge_step(type_edges(left));
    lemma_reaches_self(step, s);
    assert(root_reaches(defs, roots[r], s));
    let at_s = lemma_reached_stands(defs, roots, s);
    lemma_reaches_self(step_left, at_s);
    let inv = |x: int|
        reaches(step, s, x) && in_force(defs, x) && reaches(
            step_left,
            at_s,
            lookup(left, defs[x].defined_name().unwrap()).unwrap(),
        );
    assert forall|x: int, y: int| inv(x) && #[trigger] step(x, y) implies inv(y) by {
        lemma_reaches_then_step(step, s, x, y);
        lemma_edge_ends(defs, x, y);
        assert(root_reaches(defs, roots[r], x));
        assert(root_reaches(defs, roots[r], y));
        lemma_edge_stands(defs, roots, x, y);
        let at_x = lookup(left, defs[x].defined_name().unwrap()).unwrap();
        let at_y = lookup(left, defs[y].defined_name().unwrap()).unwrap();
        assert(step_left(at_x, at_y));
        lemma_reaches_then_step(step_left, at_s, at_x, at_y);
    }
    lemma_reaches_induct(step, inv, s, b);
    let at_b = lemma_reached_stands(defs, roots, b);
    assert(root_reaches(left, roots[r], at_b));
}

/// Idempotence: focusing what was focused, on the same roots, changes
/// nothing.
pub proof fn lemma_focus_idempotent(defs: Seq<DefinitionView>, roots: Seq<Seq<char>>)
    ensures
        focused(focused(defs, roots), roots) == focused(defs, roots),
{
    let left = focused(defs, roots);
    let keep = |d: DefinitionView| retained(defs, roots, d);
    let again = |d: DefinitionView| retained(left, roots, d);
    assert forall|i: int| 0 <= i < left.len() implies again(#[trigger] left[i]) by {
        defs.lemma_filter_pred(keep, i);
        assert(keep(left[i]));
        lemma_closure_stands(defs, roots, left[i].defined_name().unwrap());
    }
    lemma_filter_all(left, again);
}

} // verus!
