//! Lists of layers kept in stacking order, each layer once.
use crate::key::lemma_key_order;
use crate::layer::{layer_lt, lemma_layer_lt_strict, LayerDescriptor, LayerView};
use vstd::prelude::*;

verus! {

/// The views of the descriptors of a list, in its order.
pub open spec fn layer_views(v: Seq<LayerDescriptor>) -> Seq<LayerView> {
    Seq::new(v.len(), |i: int| v[i]@)
}

/// Whether the layers stand in strictly rising stacking order.
pub open spec fn strictly_sorted(s: Seq<LayerView>) -> bool {
    forall|i: int, j: int| 0 <= i < j < s.len() ==> layer_lt(#[trigger] s[i], #[trigger] s[j])
}

/// Whether every layer of the list is one that an index takes.
pub open spec fn all_wf(s: Seq<LayerView>) -> bool {
    forall|i: int| 0 <= i < s.len() ==> (#[trigger] s[i]).wf()
}

/// A list in strictly rising order holds no layer twice.
pub proof fn lemma_sorted_distinct(s: Seq<LayerView>)
    requires
        strictly_sorted(s),
    ensures
        s.no_duplicates(),
{
    assert forall|i: int, j: int| 0 <= i < s.len() && 0 <= j < s.len() && i != j implies s[i]
        != s[j] by {
        lemma_layer_lt_strict(s[i], s[j]);
    }
}

/// Whether `a` and `b` are two image layers of the same keys at the same
/// position. A set of layers is not to hold such a pair: one position has one
/// image of a key range.
pub open spec fn twins(a: LayerView, b: LayerView) -> bool {
    &&& a != b
    &&& !a.is_incremental
    &&& !b.is_incremental
    &&& a.key == b.key
    &&& a.lsn == b.lsn
}

/// Whether the set holds two image layers of the same keys at the same position.
pub open spec fn has_twins(s: Set<LayerView>) -> bool {
    exists|a: LayerView, b: LayerView| s.contains(a) && s.contains(b) && twins(a, b)
}

/// In stacking order twins differ in the name alone, so what stands between
/// two twins is a twin of both.
proof fn lemma_twins_adjacent(s: Seq<LayerView>, i: int, j: int)
    requires
        strictly_sorted(s),
        0 <= i < j < s.len(),
        twins(s[i], s[j]),
    ensures
        twins(s[i], s[i + 1]),
{
    if i + 1 < j {
        assert(layer_lt(s[i + 1], s[j]));
    }
    assert(layer_lt(s[i], s[i + 1]));
    lemma_layer_lt_strict(s[i], s[i + 1]);
    lemma_key_order(s[i].key.start, s[i + 1].key.start);
    lemma_key_order(s[i].key.end, s[i + 1].key.end);
    lemma_key_order(s[i].key.start, s[j].key.start);
    lemma_key_order(s[i].key.end, s[j].key.end);
}

/// Whether a sorted list holds two image layers of the same keys at the same
/// position.
pub fn find_twins(list: &Vec<LayerDescriptor>) -> (found: bool)
    requires
        strictly_sorted(layer_views(list@)),
    ensures
        found == has_twins(layer_views(list@).to_set()),
{
    let ghost lv = layer_views(list@);
    if list.len() < 2 {
        proof {
            if has_twins(lv.to_set()) {
                let (a, b) = choose|a: LayerView, b: LayerView|
                    lv.to_set().contains(a) && lv.to_set().contains(b) && twins(a, b);
                let i = choose|i: int| 0 <= i < lv.len() && lv[i] == a;
                let j = choose|j: int| 0 <= j < lv.len() && lv[j] == b;
            }
        }
        return false;
    }
    let mut t: usize = 1;
    while t < list.len()
        invariant
            1 <= t <= list.len(),
            lv == layer_views(list@),
            strictly_sorted(lv),
            forall|i: int| 0 <= i < t - 1 ==> !twins(#[trigger] lv[i], lv[i + 1]),
        decreases list.len() - t,
    {
        let a = &list[t - 1];
        let b = &list[t];
        assert(lv[t - 1] == a@ && lv[t as int] == b@);
        if !a.is_incremental && !b.is_incremental && a.key == b.key && a.lsn == b.lsn {
            proof {
                lemma_layer_lt_strict(a@, b@);
                assert(layer_lt(lv[t - 1], lv[t as int]));
                assert(lv.contains(lv[t - 1]) && lv.contains(lv[t as int]));
                assert(twins(a@, b@));
            }
            return true;
        }
        t += 1;
    }
    proof {
        if has_twins(lv.to_set()) {
            let (a, b) = choose|a: LayerView, b: LayerView|
                lv.to_set().contains(a) && lv.to_set().contains(b) && twins(a, b);
            let i = choose|i: int| 0 <= i < lv.len() && lv[i] == a;
            let j = choose|j: int| 0 <= j < lv.len() && lv[j] == b;
            if i < j {
                lemma_twins_adjacent(lv, i, j);
            } else {
                lemma_twins_adjacent(lv, j, i);
            }
        }
    }
    false
}

} // verus!
