//! What a search is to find: among the layers that reach a point, the one
//! that is preferred to all others.
use crate::key::Key;
use crate::layer::{
    layer_lt, lemma_layer_lt_strict, lemma_layer_lt_total, lemma_layer_lt_transitive,
    LayerDescriptor, LayerView, Rel,
};
use crate::lsn::Lsn;
use vstd::prelude::*;

verus! {

/// Whether a search at `lsn` prefers `a` to `b`. A layer whose positions
/// hold `lsn` is preferred to one that ends before it. Of two layers that
/// both hold `lsn`, or both end before it, the later in stacking order is
/// preferred: the one that starts later, and of a delta and an image that
/// start together the image.
pub open spec fn preferred(lsn: Lsn, a: LayerView, b: LayerView) -> bool {
    let a_holds = a.lsn.spec_contains(lsn);
    let b_holds = b.lsn.spec_contains(lsn);
    (a_holds && !b_holds) || (a_holds == b_holds && layer_lt(b, a))
}

/// Whether `r` is the layer of `s` that a search for `key` at `lsn` finds:
/// it reaches the point, and it is preferred to every other layer of `s`
/// that does.
pub open spec fn is_best(s: Set<LayerView>, key: Key, lsn: Lsn, r: LayerView) -> bool {
    &&& s.contains(r)
    &&& r.reaches(key, lsn)
    &&& forall|o: LayerView|
        #[trigger] s.contains(o) && o.reaches(key, lsn) && o != r ==> preferred(lsn, r, o)
}

/// Whether no layer of `s` reaches the point.
pub open spec fn none_reaches(s: Set<LayerView>, key: Key, lsn: Lsn) -> bool {
    forall|o: LayerView| #[trigger] s.contains(o) ==> !o.reaches(key, lsn)
}

/// What a search in `s` for `key` at `lsn` answers.
pub open spec fn search_in(s: Set<LayerView>, key: Key, lsn: Lsn) -> Option<LayerView> {
    if exists|r: LayerView| is_best(s, key, lsn, r) {
        Some(choose|r: LayerView| is_best(s, key, lsn, r))
    } else {
        None
    }
}

/// A search prefers no layer to itself, and of two layers not each to the other.
pub proof fn lemma_preferred_strict(lsn: Lsn, a: LayerView, b: LayerView)
    ensures
        !preferred(lsn, a, a),
        !(preferred(lsn, a, b) && preferred(lsn, b, a)),
{
    lemma_layer_lt_strict(a, b);
    lemma_layer_lt_strict(b, a);
}

/// What a search prefers to a layer it prefers to all that the layer is
/// preferred to.
pub proof fn lemma_preferred_transitive(lsn: Lsn, a: LayerView, b: LayerView, c: LayerView)
    requires
        preferred(lsn, a, b),
        preferred(lsn, b, c),
    ensures
        preferred(lsn, a, c),
{
    if layer_lt(c, b) && layer_lt(b, a) {
        lemma_layer_lt_transitive(c, b, a);
    }
}

/// A search has one answer.
pub proof fn lemma_best_unique(s: Set<LayerView>, key: Key, lsn: Lsn, a: LayerView, b: LayerView)
    requires
        is_best(s, key, lsn, a),
        is_best(s, key, lsn, b),
    ensures
        a == b,
{
    lemma_preferred_strict(lsn, a, b);
}

/// Of two different layers a search prefers one.
pub proof fn lemma_preferred_total(lsn: Lsn, a: LayerView, b: LayerView)
    ensures
        a == b || preferred(lsn, a, b) || preferred(lsn, b, a),
{
    lemma_layer_lt_total(a, b);
}

/// Among finitely many layers, of which one reaches the point, one is the
/// best.
pub proof fn lemma_best_exists(s: Set<LayerView>, key: Key, lsn: Lsn)
    requires
        s.finite(),
        !none_reaches(s, key, lsn),
    ensures
        exists|r: LayerView| is_best(s, key, lsn, r),
    decreases s.len(),
{
    let x = choose|x: LayerView| s.contains(x) && x.reaches(key, lsn);
    let rest = s.remove(x);
    if none_reaches(rest, key, lsn) {
        assert forall|o: LayerView|
            #[trigger] s.contains(o) && o.reaches(key, lsn) && o != x implies preferred(
            lsn,
            x,
            o,
        ) by {
            assert(rest.contains(o));
        }
        assert(is_best(s, key, lsn, x));
    } else {
        lemma_best_exists(rest, key, lsn);
        let r = choose|r: LayerView| is_best(rest, key, lsn, r);
        lemma_preferred_total(lsn, x, r);
        let top = if preferred(lsn, x, r) {
            x
        } else {
            r
        };
        assert forall|o: LayerView|
            #[trigger] s.contains(o) && o.reaches(key, lsn) && o != top implies preferred(
            lsn,
            top,
            o,
        ) by {
            if o != x {
                assert(rest.contains(o));
                if o != r && top == x {
                    lemma_preferred_transitive(lsn, x, r, o);
                }
            }
        }
        assert(is_best(s, key, lsn, top));
    }
}

/// The answer of a search is the best layer where there is one, and none
/// where no layer reaches the point.
pub proof fn lemma_search_in(s: Set<LayerView>, key: Key, lsn: Lsn)
    ensures
        search_in(s, key, lsn) matches Some(r) ==> is_best(s, key, lsn, r),
        forall|r: LayerView| is_best(s, key, lsn, r) ==> search_in(s, key, lsn) == Some(r),
        none_reaches(s, key, lsn) ==> search_in(s, key, lsn).is_none(),
{
    assert forall|r: LayerView| is_best(s, key, lsn, r) implies search_in(s, key, lsn) == Some(
        r,
    ) by {
        let c = choose|c: LayerView| is_best(s, key, lsn, c);
        lemma_best_unique(s, key, lsn, r, c);
    }
}

/// Which of two layers a search at `lsn` prefers: `After` where it prefers
/// `a`, `Before` where it prefers `b`, `Same` where they are one layer.
pub fn rank(lsn: Lsn, a: &LayerDescriptor, b: &LayerDescriptor) -> (r: Rel)
    ensures
        r == Rel::After <==> preferred(lsn, a@, b@),
        r == Rel::Same <==> a@ == b@,
        r == Rel::Before <==> preferred(lsn, b@, a@),
{
    proof {
        lemma_preferred_strict(lsn, a@, b@);
        lemma_preferred_strict(lsn, b@, a@);
    }
    let a_holds = a.lsn.contains(lsn);
    let b_holds = b.lsn.contains(lsn);
    if a_holds && !b_holds {
        Rel::After
    } else if b_holds && !a_holds {
        Rel::Before
    } else {
        a.order(b)
    }
}

} // verus!
