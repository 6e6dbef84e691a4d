//! Batches of insertions and removals, and what they make of a set of layers.
use crate::layer::{
    layer_lt, lemma_layer_lt_strict, lemma_layer_lt_transitive, LayerDescriptor, LayerView, Rel,
};
use crate::sorted::{layer_views, strictly_sorted};
use vstd::prelude::*;

verus! {

/// One entry of the batch: a layer, and whether it was inserted or removed.
pub struct PendingOp {
    pub layer: LayerDescriptor,
    pub insert: bool,
}

/// An entry of the batch as contracts see it.
pub struct OpView {
    pub layer: LayerView,
    pub insert: bool,
}

impl View for PendingOp {
    type V = OpView;

    open spec fn view(&self) -> OpView {
        OpView { layer: self.layer@, insert: self.insert }
    }
}

/// The views of the entries of a batch, in its order.
pub open spec fn op_views(v: Seq<PendingOp>) -> Seq<OpView> {
    Seq::new(v.len(), |i: int| v[i]@)
}

/// The set that `base` becomes when the entries of a batch are carried out
/// in their order.
pub open spec fn apply_ops(base: Set<LayerView>, ops: Seq<OpView>) -> Set<LayerView>
    decreases ops.len(),
{
    if ops.len() == 0 {
        base
    } else {
        let before = apply_ops(base, ops.drop_last());
        if ops.last().insert {
            before.insert(ops.last().layer)
        } else {
            before.remove(ops.last().layer)
        }
    }
}

/// What the last entry of a batch that names `x` does with it: `Some(true)`
/// where it inserts `x`, `Some(false)` where it removes `x`, and `None` where
/// no entry names `x`.
pub open spec fn last_mention(ops: Seq<OpView>, x: LayerView) -> Option<bool>
    decreases ops.len(),
{
    if ops.len() == 0 {
        None
    } else if ops.last().layer == x {
        Some(ops.last().insert)
    } else {
        last_mention(ops.drop_last(), x)
    }
}

/// A layer is in the set that a batch leaves where the last entry that names
/// it inserts it, or where no entry names it and the set held it before.
pub proof fn lemma_apply_ops_contains(base: Set<LayerView>, ops: Seq<OpView>, x: LayerView)
    ensures
        apply_ops(base, ops).contains(x) == match last_mention(ops, x) {
            Some(inserted) => inserted,
            None => base.contains(x),
        },
    decreases ops.len(),
{
    if ops.len() > 0 {
        lemma_apply_ops_contains(base, ops.drop_last(), x);
    }
}

/// What a batch inserts last, some entry of it inserts.
pub proof fn lemma_last_mention_entry(ops: Seq<OpView>, x: LayerView) -> (at: int)
    requires
        last_mention(ops, x).is_some(),
    ensures
        0 <= at < ops.len(),
        ops[at].layer == x,
        ops[at].insert == last_mention(ops, x).unwrap(),
    decreases ops.len(),
{
    if ops.last().layer == x {
        ops.len() - 1
    } else {
        lemma_last_mention_entry(ops.drop_last(), x)
    }
}

/// A batch turns a finite set into a finite set.
pub proof fn lemma_apply_ops_finite(base: Set<LayerView>, ops: Seq<OpView>)
    requires
        base.finite(),
    ensures
        apply_ops(base, ops).finite(),
    decreases ops.len(),
{
    if ops.len() > 0 {
        lemma_apply_ops_finite(base, ops.drop_last());
    }
}

/// Whether one of the first `t` entries of a batch inserts `x`.
pub open spec fn inserted_before(ops: Seq<OpView>, t: int, x: LayerView) -> bool {
    exists|s: int| 0 <= s < t && #[trigger] ops[s].layer == x && ops[s].insert
}

/// What two batches, carried out one after the other, say last of `x`: what
/// the second says, and where it is silent, what the first says.
pub open spec fn later_word(first: Option<bool>, second: Option<bool>) -> Option<bool> {
    match second {
        Some(v) => Some(v),
        None => first,
    }
}

/// The last word of two batches in a row is that of the second, or of the
/// first where the second does not name the layer.
pub proof fn lemma_last_mention_concat(a: Seq<OpView>, b: Seq<OpView>, x: LayerView)
    ensures
        last_mention(a + b, x) == later_word(last_mention(a, x), last_mention(b, x)),
    decreases b.len(),
{
    if b.len() == 0 {
        assert(a + b =~= a);
    } else {
        assert((a + b).drop_last() =~= a + b.drop_last());
        assert((a + b).last() == b.last());
        lemma_last_mention_concat(a, b.drop_last(), x);
    }
}

/// A batch that does not name `x` has no word on it.
pub proof fn lemma_mention_none(s: Seq<OpView>, x: LayerView)
    requires
        forall|i: int| 0 <= i < s.len() ==> (#[trigger] s[i]).layer != x,
    ensures
        last_mention(s, x).is_none(),
    decreases s.len(),
{
    if s.len() > 0 {
        assert(s[s.len() - 1].layer != x);
        assert forall|i: int| 0 <= i < s.drop_last().len() implies (#[trigger] s.drop_last()[i]).layer
            != x by {
            assert(s[i].layer != x);
        }
        lemma_mention_none(s.drop_last(), x);
    }
}

/// Whether a batch names its layers in rising stacking order, each once.
pub open spec fn entries_sorted(s: Seq<OpView>) -> bool {
    forall|i: int, j: int|
        0 <= i < j < s.len() ==> layer_lt((#[trigger] s[i]).layer, (#[trigger] s[j]).layer)
}

/// In a batch that names each layer once, each entry is the last word on
/// its layer.
pub proof fn lemma_mention_at(s: Seq<OpView>, i: int)
    requires
        entries_sorted(s),
        0 <= i < s.len(),
    ensures
        last_mention(s, s[i].layer) == Some(s[i].insert),
    decreases s.len(),
{
    if i < s.len() - 1 {
        let rest = s.drop_last();
        assert(layer_lt(s[i].layer, s[s.len() - 1].layer));
        lemma_layer_lt_strict(s[i].layer, s.last().layer);
        assert forall|a: int, b: int| 0 <= a < b < rest.len() implies layer_lt(
            (#[trigger] rest[a]).layer,
            (#[trigger] rest[b]).layer,
        ) by {
            assert(layer_lt(s[a].layer, s[b].layer));
        }
        assert(rest[i] == s[i]);
        lemma_mention_at(rest, i);
    }
}

/// An entry of a batch that is being put in order: a layer of the batch or
/// of the snapshot, and whether the batch inserts or removes it.
pub struct Entry<'a> {
    pub layer: &'a LayerDescriptor,
    pub insert: bool,
}

impl<'a> View for Entry<'a> {
    type V = OpView;

    open spec fn view(&self) -> OpView {
        OpView { layer: self.layer@, insert: self.insert }
    }
}

/// The views of a list of entries, in its order.
pub open spec fn entry_views<'a>(v: Seq<Entry<'a>>) -> Seq<OpView> {
    Seq::new(v.len(), |i: int| v[i]@)
}

/// Merges two sorted batches into the sorted batch that does what the two
/// do one after the other.
pub fn merge<'a>(a: &Vec<Entry<'a>>, b: &Vec<Entry<'a>>) -> (r: Vec<Entry<'a>>)
    requires
        entries_sorted(entry_views(a@)),
        entries_sorted(entry_views(b@)),
    ensures
        entries_sorted(entry_views(r@)),
        forall|x: LayerView|
            #[trigger] last_mention(entry_views(r@), x) == later_word(
                last_mention(entry_views(a@), x),
                last_mention(entry_views(b@), x),
            ),
{
    let ghost av = entry_views(a@);
    let ghost bv = entry_views(b@);
    let mut r: Vec<Entry<'a>> = Vec::new();
    let mut i: usize = 0;
    let mut j: usize = 0;
    assert(av.take(0) =~= Seq::<OpView>::empty());
    assert(bv.take(0) =~= Seq::<OpView>::empty());
    while i < a.len() || j < b.len()
        invariant
            i <= a@.len(),
            j <= b@.len(),
            av == entry_views(a@),
            bv == entry_views(b@),
            entries_sorted(av),
            entries_sorted(bv),
            entries_sorted(entry_views(r@)),
            forall|p: int|
                0 <= p < r@.len() && i < av.len() ==> layer_lt(
                    (#[trigger] entry_views(r@)[p]).layer,
                    av[i as int].layer,
                ),
            forall|p: int|
                0 <= p < r@.len() && j < bv.len() ==> layer_lt(
                    (#[trigger] entry_views(r@)[p]).layer,
                    bv[j as int].layer,
                ),
            forall|q: int|
                0 <= q < j && i < av.len() ==> layer_lt((#[trigger] bv[q]).layer, av[i as int].layer),
            forall|x: LayerView|
                #[trigger] last_mention(entry_views(r@), x) == later_word(
                    last_mention(av.take(i as int), x),
                    last_mention(bv.take(j as int), x),
                ),
        decreases (a@.len() - i) + (b@.len() - j),
    {
        let ghost rv = entry_views(r@);
        let rel = if i >= a.len() {
            Rel::After
        } else if j >= b.len() {
            Rel::Before
        } else {
            assert(av[i as int] == a@[i as int]@ && bv[j as int] == b@[j as int]@);
            a[i].layer.order(b[j].layer)
        };
        let take_a = rel == Rel::Before;
        let e = if take_a {
            Entry { layer: a[i].layer, insert: a[i].insert }
        } else {
            Entry { layer: b[j].layer, insert: b[j].insert }
        };
        let ghost i0 = i as int;
        let ghost j0 = j as int;
        r.push(e);
        if take_a {
            i += 1;
        } else {
            if rel == Rel::Same {
                i += 1;
            }
            j += 1;
        }
        proof {
            let rv2 = entry_views(r@);
            assert(rv2 =~= rv.push(e@));
            assert(rv2.drop_last() =~= rv);
            if i0 < av.len() {
                assert(av.take(i0 + 1).drop_last() =~= av.take(i0));
                assert(av.take(i0 + 1).last() == av[i0]);
                assert(av[i0] == a@[i0]@);
            }
            if j0 < bv.len() {
                assert(bv.take(j0 + 1).drop_last() =~= bv.take(j0));
                assert(bv.take(j0 + 1).last() == bv[j0]);
                assert(bv[j0] == b@[j0]@);
            }
            assert forall|p: int, q: int| 0 <= p < q < rv2.len() implies layer_lt(
                (#[trigger] rv2[p]).layer,
                (#[trigger] rv2[q]).layer,
            ) by {
                if q < rv.len() {
                    assert(rv2[p] == rv[p] && rv2[q] == rv[q]);
                } else {
                    assert(rv2[p] == rv[p]);
                }
            }
            assert forall|p: int| 0 <= p < rv2.len() && i < av.len() implies layer_lt(
                (#[trigger] rv2[p]).layer,
                av[i as int].layer,
            ) by {
                if p < rv.len() {
                    assert(rv2[p] == rv[p]);
                    if i != i0 {
                        lemma_layer_lt_transitive(rv[p].layer, av[i0].layer, av[i as int].layer);
                    }
                } else if i == i0 {
                } else if take_a {
                } else {
                    assert(layer_lt(av[i0].layer, av[i as int].layer));
                }
            }
            assert forall|p: int| 0 <= p < rv2.len() && j < bv.len() implies layer_lt(
                (#[trigger] rv2[p]).layer,
                bv[j as int].layer,
            ) by {
                if p < rv.len() {
                    assert(rv2[p] == rv[p]);
                    if j != j0 {
                        lemma_layer_lt_transitive(rv[p].layer, bv[j0].layer, bv[j as int].layer);
                    }
                } else if j == j0 {
                } else {
                    assert(layer_lt(bv[j0].layer, bv[j as int].layer));
                }
            }
            assert forall|q: int| 0 <= q < j && i < av.len() implies layer_lt(
                (#[trigger] bv[q]).layer,
                av[i as int].layer,
            ) by {
                if q < j0 {
                    if i != i0 {
                        lemma_layer_lt_transitive(bv[q].layer, av[i0].layer, av[i as int].layer);
                    }
                } else if i == i0 {
                } else {
                    assert(layer_lt(av[i0].layer, av[i as int].layer));
                }
            }
            assert forall|x: LayerView|
                #[trigger] last_mention(rv2, x) == later_word(
                    last_mention(av.take(i as int), x),
                    last_mention(bv.take(j as int), x),
                ) by {
                assert(last_mention(rv, x) == later_word(
                    last_mention(av.take(i0), x),
                    last_mention(bv.take(j0), x),
                ));
                if take_a && x == e@.layer {
                    assert forall|q: int| 0 <= q < bv.take(j0).len() implies (
                    #[trigger] bv.take(j0)[q]).layer != x by {
                        assert(layer_lt(bv[q].layer, av[i0].layer));
                        lemma_layer_lt_strict(bv[q].layer, av[i0].layer);
                    }
                    lemma_mention_none(bv.take(j0), x);
                }
            }
        }
    }
    assert(av.take(i as int) =~= av);
    assert(bv.take(j as int) =~= bv);
    r
}

/// The sorted batch that does what the entries of `ops` from place `lo` up
/// to `hi` do in their order: it names each layer once, with the last word
/// that those entries have on it.
pub fn normalize<'a>(ops: &'a Vec<PendingOp>, lo: usize, hi: usize) -> (r: Vec<Entry<'a>>)
    requires
        lo <= hi <= ops@.len(),
    ensures
        entries_sorted(entry_views(r@)),
        forall|x: LayerView|
            #[trigger] last_mention(entry_views(r@), x) == last_mention(
                op_views(ops@).subrange(lo as int, hi as int),
                x,
            ),
    decreases hi - lo,
{
    let ghost part = op_views(ops@).subrange(lo as int, hi as int);
    let mut r: Vec<Entry<'a>> = Vec::new();
    if hi - lo == 0 {
        assert(entry_views(r@) =~= part);
        return r;
    }
    if hi - lo == 1 {
        r.push(Entry { layer: &ops[lo].layer, insert: ops[lo].insert });
        assert(entry_views(r@) =~= part);
        return r;
    }
    let mid: usize = lo + (hi - lo) / 2;
    let left = normalize(ops, lo, mid);
    let right = normalize(ops, mid, hi);
    let r = merge(&left, &right);
    proof {
        let first = op_views(ops@).subrange(lo as int, mid as int);
        let second = op_views(ops@).subrange(mid as int, hi as int);
        assert(first + second =~= part);
        assert forall|x: LayerView|
            #[trigger] last_mention(entry_views(r@), x) == last_mention(part, x) by {
            lemma_last_mention_concat(first, second, x);
        }
    }
    r
}

/// The layers of a sorted list as a batch that inserts each of them.
pub fn as_entries<'a>(list: &'a Vec<LayerDescriptor>) -> (r: Vec<Entry<'a>>)
    requires
        strictly_sorted(layer_views(list@)),
    ensures
        entries_sorted(entry_views(r@)),
        forall|x: LayerView|
            #[trigger] last_mention(entry_views(r@), x) == if layer_views(list@).contains(x) {
                Some(true)
            } else {
                None
            },
{
    let ghost lv = layer_views(list@);
    let mut r: Vec<Entry<'a>> = Vec::new();
    let mut t: usize = 0;
    while t < list.len()
        invariant
            t <= list@.len(),
            r@.len() == t,
            lv == layer_views(list@),
            forall|p: int|
                0 <= p < t ==> (#[trigger] entry_views(r@)[p]) == (OpView {
                    layer: lv[p],
                    insert: true,
                }),
        decreases list@.len() - t,
    {
        let ghost prior = entry_views(r@);
        r.push(Entry { layer: &list[t], insert: true });
        assert forall|p: int| 0 <= p < t + 1 implies (#[trigger] entry_views(r@)[p]) == (OpView {
            layer: lv[p],
            insert: true,
        }) by {
            if p < t {
                assert(entry_views(r@)[p] == prior[p]);
            }
        }
        t += 1;
    }
    proof {
        let rv = entry_views(r@);
        assert forall|i: int, j: int| 0 <= i < j < rv.len() implies layer_lt(
            (#[trigger] rv[i]).layer,
            (#[trigger] rv[j]).layer,
        ) by {
            assert(layer_lt(lv[i], lv[j]));
        }
        assert forall|x: LayerView|
            #[trigger] last_mention(rv, x) == if lv.contains(x) {
                Some(true)
            } else {
                None
            } by {
            if lv.contains(x) {
                let i = choose|i: int| 0 <= i < lv.len() && lv[i] == x;
                assert(rv[i].layer == x);
                lemma_mention_at(rv, i);
            } else {
                assert forall|i: int| 0 <= i < rv.len() implies (#[trigger] rv[i]).layer != x by {
                    assert(lv[i] == rv[i].layer);
                }
                lemma_mention_none(rv, x);
            }
        }
    }
    r
}

/// The layers that a sorted batch inserts, in stacking order.
pub fn keep_inserted<'a>(entries: &Vec<Entry<'a>>) -> (list: Vec<LayerDescriptor>)
    requires
        entries_sorted(entry_views(entries@)),
    ensures
        strictly_sorted(layer_views(list@)),
        forall|x: LayerView|
            #[trigger] layer_views(list@).contains(x) <==> last_mention(entry_views(entries@), x)
                == Some(true),
{
    let ghost ev = entry_views(entries@);
    let mut list: Vec<LayerDescriptor> = Vec::new();
    let mut t: usize = 0;
    while t < entries.len()
        invariant
            t <= entries@.len(),
            ev == entry_views(entries@),
            entries_sorted(ev),
            strictly_sorted(layer_views(list@)),
            forall|q: int|
                0 <= q < list@.len() ==> inserted_before(ev, t as int, #[trigger] layer_views(list@)[q]),
            forall|p: int|
                0 <= p < t && (#[trigger] ev[p]).insert ==> layer_views(list@).contains(ev[p].layer),
        decreases entries@.len() - t,
    {
        let e = &entries[t];
        assert(ev[t as int] == e@);
        let ghost prior = layer_views(list@);
        if e.insert {
            list.push(e.layer.duplicate());
        }
        proof {
            let lv = layer_views(list@);
            if e.insert {
                assert(lv =~= prior.push(e@.layer));
            } else {
                assert(lv =~= prior);
            }
            assert forall|q: int| 0 <= q < lv.len() implies inserted_before(
                ev,
                t + 1,
                #[trigger] lv[q],
            ) by {
                if q < prior.len() {
                    assert(lv[q] == prior[q]);
                    let p = choose|p: int|
                        0 <= p < t && #[trigger] ev[p].layer == prior[q] && ev[p].insert;
                    assert(0 <= p < t + 1 && ev[p].layer == lv[q] && ev[p].insert);
                } else {
                    assert(ev[t as int].layer == lv[q] && ev[t as int].insert);
                }
            }
            assert forall|i: int, j: int| 0 <= i < j < lv.len() implies layer_lt(
                #[trigger] lv[i],
                #[trigger] lv[j],
            ) by {
                if j < prior.len() {
                    assert(lv[i] == prior[i] && lv[j] == prior[j]);
                } else {
                    assert(lv[i] == prior[i]);
                    let p = choose|p: int|
                        0 <= p < t && #[trigger] ev[p].layer == prior[i] && ev[p].insert;
                    assert(layer_lt(ev[p].layer, ev[t as int].layer));
                }
            }
            assert forall|p: int| 0 <= p < t + 1 && (#[trigger] ev[p]).insert implies lv.contains(
                ev[p].layer,
            ) by {
                if p < t {
                    let q = choose|q: int| 0 <= q < prior.len() && prior[q] == ev[p].layer;
                    assert(lv[q] == ev[p].layer);
                } else {
                    assert(lv[prior.len() as int] == ev[p].layer);
                }
            }
        }
        t += 1;
    }
    proof {
        let lv = layer_views(list@);
        assert forall|x: LayerView| #[trigger] lv.contains(x) <==> last_mention(ev, x) == Some(
            true,
        ) by {
            if lv.contains(x) {
                let q = choose|q: int| 0 <= q < lv.len() && lv[q] == x;
                assert(inserted_before(ev, t as int, lv[q]));
                let p = choose|p: int| 0 <= p < t && #[trigger] ev[p].layer == x && ev[p].insert;
                lemma_mention_at(ev, p);
            }
            if last_mention(ev, x) == Some(true) {
                let p = lemma_last_mention_entry(ev, x);
                assert(ev[p].insert);
            }
        }
    }
    list
}

} // verus!
