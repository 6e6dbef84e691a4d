//! The cost of rebuilding the keys of a partition: the number of delta
//! layers that a reader has to go through.
//!
//! A delta layer counts for a part of the key space at a log position where
//! it shares a key with the part, starts at or before the position, and
//! holds changes that no image layer of the whole part has taken in: no
//! image layer at or before the position, with all the keys of the part,
//! ends where the delta layer ends or later. The difficulty of the part is
//! the number of the delta layers that count.
use crate::layer::{LayerDescriptor, LayerView};
use crate::lsn::Lsn;
use crate::range::KeyRange;
use crate::sorted::{all_wf, layer_views, lemma_sorted_distinct, strictly_sorted};
use vstd::prelude::*;

verus! {

/// Whether `i` is an image layer that holds every key of `part` as of a
/// position at or before `lsn`.
pub open spec fn covering_image(i: LayerView, part: KeyRange, lsn: Lsn) -> bool {
    &&& !i.is_incremental
    &&& i.key.spec_includes(&part)
    &&& i.lsn.start@ <= lsn@
}

/// Whether a reader at `lsn` has no use for the delta layer `d` in `part`:
/// some image layer of `s` holds all of `part` and ends where `d` ends or
/// later.
pub open spec fn superseded(s: Set<LayerView>, part: KeyRange, lsn: Lsn, d: LayerView) -> bool {
    exists|i: LayerView| #[trigger]
        s.contains(i) && covering_image(i, part, lsn) && d.lsn.end@ <= i.lsn.end@
}

/// Whether `d` is a delta layer that a reader of `part` at `lsn` may have
/// to go through: it shares a key with `part`, it starts at or before `lsn`,
/// and no image layer supersedes it.
pub open spec fn counts(s: Set<LayerView>, part: KeyRange, lsn: Lsn, d: LayerView) -> bool {
    &&& d.is_incremental
    &&& d.key.spec_overlaps(&part)
    &&& d.lsn.start@ <= lsn@
    &&& !superseded(s, part, lsn, d)
}

/// The delta layers of `s` that count for `part` at `lsn`.
pub open spec fn counted(s: Set<LayerView>, part: KeyRange, lsn: Lsn) -> Set<LayerView> {
    Set::new(|d: LayerView| s.contains(d) && counts(s, part, lsn, d))
}

/// The difficulty of `part` at `lsn`: the number of delta layers of `s` that
/// count for it.
pub open spec fn difficulty(s: Set<LayerView>, part: KeyRange, lsn: Lsn) -> nat {
    counted(s, part, lsn).len()
}

/// The layers among `prefix` that count.
spec fn counted_among(
    prefix: Seq<LayerView>,
    s: Set<LayerView>,
    part: KeyRange,
    lsn: Lsn,
) -> Set<LayerView> {
    Set::new(|d: LayerView| prefix.contains(d) && counts(s, part, lsn, d))
}

proof fn lemma_counted_step(lv: Seq<LayerView>, t: int, s: Set<LayerView>, part: KeyRange, lsn: Lsn)
    requires
        0 <= t < lv.len(),
        lv.no_duplicates(),
        counted_among(lv.take(t), s, part, lsn).finite(),
    ensures
        counted_among(lv.take(t + 1), s, part, lsn).finite(),
        counted_among(lv.take(t + 1), s, part, lsn).len() == counted_among(
            lv.take(t),
            s,
            part,
            lsn,
        ).len() + if counts(s, part, lsn, lv[t]) {
            1nat
        } else {
            0nat
        },
{
    let before = counted_among(lv.take(t), s, part, lsn);
    let after = counted_among(lv.take(t + 1), s, part, lsn);
    let shorter = lv.take(t);
    let longer = lv.take(t + 1);
    assert forall|d: LayerView| longer.contains(d) <==> (shorter.contains(d) || d == lv[t]) by {
        if longer.contains(d) {
            let i = choose|i: int| 0 <= i < longer.len() && longer[i] == d;
            if i < t {
                assert(shorter[i] == d);
            }
        }
        if shorter.contains(d) {
            let i = choose|i: int| 0 <= i < shorter.len() && shorter[i] == d;
            assert(longer[i] == d);
        }
        if d == lv[t] {
            assert(longer[t] == d);
        }
    }
    assert(!shorter.contains(lv[t])) by {
        if shorter.contains(lv[t]) {
            let i = choose|i: int| 0 <= i < shorter.len() && shorter[i] == lv[t];
            assert(lv[i] == lv[t]);
        }
    }
    if counts(s, part, lsn, lv[t]) {
        assert(after =~= before.insert(lv[t]));
    } else {
        assert(after =~= before);
    }
}

/// The difficulty of `part` at `lsn` in a list of layers.
pub fn count_deltas(list: &Vec<LayerDescriptor>, part: &KeyRange, lsn: Lsn) -> (n: usize)
    requires
        strictly_sorted(layer_views(list@)),
        all_wf(layer_views(list@)),
    ensures
        n == difficulty(layer_views(list@).to_set(), *part, lsn),
{
    let ghost lv = layer_views(list@);
    let ghost s = lv.to_set();
    let mut base: u64 = 0;
    let mut t: usize = 0;
    while t < list.len()
        invariant
            t <= list.len(),
            lv == layer_views(list@),
            forall|i: int|
                0 <= i < t && covering_image(#[trigger] lv[i], *part, lsn) ==> lv[i].lsn.end@
                    <= base,
            base == 0 || exists|i: int|
                0 <= i < t && covering_image(#[trigger] lv[i], *part, lsn) && lv[i].lsn.end@
                    == base,
        decreases list.len() - t,
    {
        let l = &list[t];
        assert(lv[t as int] == l@);
        if !l.is_incremental && l.key.includes(part) && l.lsn.start.0 <= lsn.0 {
            if base < l.lsn.end.0 {
                base = l.lsn.end.0;
            }
        }
        t += 1;
    }
    let mut n: usize = 0;
    let mut t: usize = 0;
    proof {
        lemma_sorted_distinct(lv);
        assert(counted_among(lv.take(0), s, *part, lsn) =~= Set::<LayerView>::empty());
    }
    while t < list.len()
        invariant
            t <= list.len(),
            n <= t,
            lv == layer_views(list@),
            s == lv.to_set(),
            lv.no_duplicates(),
            all_wf(lv),
            forall|i: int|
                0 <= i < lv.len() && covering_image(#[trigger] lv[i], *part, lsn)
                    ==> lv[i].lsn.end@ <= base,
            base == 0 || exists|i: int|
                0 <= i < lv.len() && covering_image(#[trigger] lv[i], *part, lsn)
                    && lv[i].lsn.end@ == base,
            counted_among(lv.take(t as int), s, *part, lsn).finite(),
            n == counted_among(lv.take(t as int), s, *part, lsn).len(),
        decreases list.len() - t,
    {
        let l = &list[t];
        assert(lv[t as int] == l@);
        let hit = l.is_incremental && l.key.overlaps(part) && l.lsn.start.0 <= lsn.0 && base
            < l.lsn.end.0;
        proof {
            let d = lv[t as int];
            assert(d.wf());
            if superseded(s, *part, lsn, d) {
                let i = choose|i: LayerView| #[trigger]
                    s.contains(i) && covering_image(i, *part, lsn) && d.lsn.end@ <= i.lsn.end@;
                let x = choose|x: int| 0 <= x < lv.len() && lv[x] == i;
                assert(lv[x].lsn.end@ <= base);
            } else if base != 0 {
                let x = choose|x: int|
                    0 <= x < lv.len() && covering_image(#[trigger] lv[x], *part, lsn)
                        && lv[x].lsn.end@ == base;
                assert(lv.contains(lv[x]));
                assert(s.contains(lv[x]));
            }
            assert(hit == counts(s, *part, lsn, d));
            lemma_counted_step(lv, t as int, s, *part, lsn);
        }
        if hit {
            n += 1;
        }
        t += 1;
    }
    proof {
        assert(lv.take(t as int) =~= lv);
        assert(counted_among(lv, s, *part, lsn) =~= counted(s, *part, lsn));
    }
    n
}

/// The difficulty at `lsn` of each of `parts`, in their order, in a list of
/// layers.
pub fn count_deltas_of_each(list: &Vec<LayerDescriptor>, parts: &Vec<KeyRange>, lsn: Lsn) -> (r: Vec<
    usize,
>)
    requires
        strictly_sorted(layer_views(list@)),
        all_wf(layer_views(list@)),
    ensures
        r@.len() == parts@.len(),
        forall|i: int|
            0 <= i < parts@.len() ==> (#[trigger] r@[i]) == difficulty(
                layer_views(list@).to_set(),
                parts@[i],
                lsn,
            ),
{
    let mut r: Vec<usize> = Vec::new();
    let mut i: usize = 0;
    while i < parts.len()
        invariant
            i <= parts@.len(),
            r@.len() == i,
            strictly_sorted(layer_views(list@)),
            all_wf(layer_views(list@)),
            forall|j: int|
                0 <= j < i ==> (#[trigger] r@[j]) == difficulty(
                    layer_views(list@).to_set(),
                    parts@[j],
                    lsn,
                ),
        decreases parts@.len() - i,
    {
        r.push(count_deltas(list, &parts[i], lsn));
        i += 1;
    }
    r
}

} // verus!
