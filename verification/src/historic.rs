//! The index of the historic layers: a compiled snapshot, and the batch of
//! insertions and removals that were made since it was compiled.
use crate::batch::{
    apply_ops, as_entries, entry_views, inserted_before, keep_inserted, last_mention, later_word,
    lemma_apply_ops_contains, lemma_apply_ops_finite, lemma_last_mention_entry, merge, normalize,
    op_views, OpView, PendingOp,
};
use crate::coverage::{ceilings_hold, stack_holds, Snapshot};
use crate::difficulty::{count_deltas_of_each, difficulty};
use crate::key::Key;
use crate::layer::{
    layer_lt, ConstructionError, InvariantViolation, LayerDescriptor, LayerView, Rel,
};
use crate::lsn::Lsn;
use crate::query::{is_best, lemma_preferred_transitive, none_reaches, preferred, rank};
use crate::range::KeyRange;
use crate::sorted::{all_wf, find_twins, has_twins, layer_views, strictly_sorted};
use vstd::prelude::*;

verus! {

/// The index of the historic layers of one timeline.
///
/// Changes are cheap and searches are fast because the work is done in two
/// steps. An insertion or a removal only puts an entry at the end of the
/// batch. `rebuild` sorts the batch, merges it with the layers of the
/// snapshot and compiles the snapshot anew; its work grows with the number of
/// layers and entries times the logarithm of that number, and with the size
/// of the stacks. A search finds its stack by bisection and looks at the top
/// of it; only while the batch is not empty does it also go through the
/// batch, entry by entry.
pub struct HistoricIndex {
    compiled: Snapshot,
    pending: Vec<PendingOp>,
}

impl View for HistoricIndex {
    type V = Set<LayerView>;

    /// The layers that the index holds: those of the snapshot, changed as
    /// the batch says.
    open spec fn view(&self) -> Set<LayerView> {
        apply_ops(self.compiled(), self.pending())
    }
}

impl HistoricIndex {
    /// What holds of every index that `new` makes and the methods keep.
    pub closed spec fn wf(&self) -> bool {
        &&& self.compiled.wf()
        &&& !has_twins(self.compiled())
        &&& forall|i: int| 0 <= i < self.pending@.len() ==> (#[trigger] self.pending@[i]).layer@.wf()
    }

    /// The layers of the compiled snapshot.
    pub closed spec fn compiled(&self) -> Set<LayerView> {
        self.compiled.layers().to_set()
    }

    /// The batch of changes made since the snapshot was compiled.
    pub closed spec fn pending(&self) -> Seq<OpView> {
        op_views(self.pending@)
    }

    /// An index holds finitely many layers, each of them well formed.
    pub proof fn lemma_view(&self)
        requires
            self.wf(),
        ensures
            self@.finite(),
            self.compiled().finite(),
            forall|l: LayerView| #[trigger] self@.contains(l) ==> l.wf(),
    {
        vstd::seq_lib::seq_to_set_is_finite(self.compiled.layers());
        lemma_apply_ops_finite(self.compiled(), self.pending());
        self.compiled.lemma_layers_sorted();
        assert forall|l: LayerView| #[trigger] self@.contains(l) implies l.wf() by {
            lemma_apply_ops_contains(self.compiled(), self.pending(), l);
            if last_mention(self.pending(), l).is_some() {
                let at = lemma_last_mention_entry(self.pending(), l);
                assert(self.pending@[at].layer@ == l);
            } else {
                let i = choose|i: int|
                    0 <= i < self.compiled.layers().len() && self.compiled.layers()[i] == l;
                assert(self.compiled.layers()[i].wf());
            }
        }
    }

    /// The index of no layers.
    pub fn new() -> (s: HistoricIndex)
        ensures
            s.wf(),
            s@ == Set::<LayerView>::empty(),
            s.compiled() == Set::<LayerView>::empty(),
            s.pending() == Seq::<OpView>::empty(),
    {
        let s = HistoricIndex { compiled: Snapshot::empty(), pending: Vec::new() };
        assert(s.compiled() =~= Set::<LayerView>::empty());
        assert(s.pending() =~= Seq::<OpView>::empty());
        s
    }

    /// Puts the entry for `layer` at the end of the batch, after it has
    /// looked at the layer.
    fn record(&mut self, layer: LayerDescriptor, insert: bool) -> (r: Result<(), ConstructionError>)
        requires
            old(self).wf(),
        ensures
            final(self).wf(),
            final(self).compiled() == old(self).compiled(),
            match r {
                Ok(()) => {
                    &&& layer@.rejection().is_none()
                    &&& final(self).pending() == old(self).pending().push(
                        OpView { layer: layer@, insert },
                    )
                },
                Err(e) => {
                    &&& layer@.rejection() == Some(e)
                    &&& final(self).pending() == old(self).pending()
                },
            },
    {
        match layer.validate() {
            Err(e) => Err(e),
            Ok(()) => {
                self.pending.push(PendingOp { layer, insert });
                assert(self.pending() =~= old(self).pending().push(
                    OpView { layer: layer@, insert },
                ));
                Ok(())
            },
        }
    }

    /// Inserts a layer. The insertion goes to the batch; the snapshot stays
    /// as it is until the index is rebuilt. A malformed layer is refused and
    /// changes nothing.
    pub fn insert(&mut self, layer: LayerDescriptor) -> (r: Result<(), ConstructionError>)
        requires
            old(self).wf(),
        ensures
            final(self).wf(),
            final(self).compiled() == old(self).compiled(),
            match r {
                Ok(()) => {
                    &&& layer@.rejection().is_none()
                    &&& final(self)@ == old(self)@.insert(layer@)
                    &&& final(self).pending() == old(self).pending().push(
                        OpView { layer: layer@, insert: true },
                    )
                },
                Err(e) => {
                    &&& layer@.rejection() == Some(e)
                    &&& final(self)@ == old(self)@
                    &&& final(self).pending() == old(self).pending()
                },
            },
    {
        let r = self.record(layer, true);
        proof {
            if r.is_ok() {
                assert(self.pending().drop_last() =~= old(self).pending());
            }
        }
        r
    }

    /// Removes a layer. The removal goes to the batch; the snapshot stays as
    /// it is until the index is rebuilt. A malformed layer is refused and
    /// changes nothing.
    pub fn remove(&mut self, layer: LayerDescriptor) -> (r: Result<(), ConstructionError>)
        requires
            old(self).wf(),
        ensures
            final(self).wf(),
            final(self).compiled() == old(self).compiled(),
            match r {
                Ok(()) => {
                    &&& layer@.rejection().is_none()
                    &&& final(self)@ == old(self)@.remove(layer@)
                    &&& final(self).pending() == old(self).pending().push(
                        OpView { layer: layer@, insert: false },
                    )
                },
                Err(e) => {
                    &&& layer@.rejection() == Some(e)
                    &&& final(self)@ == old(self)@
                    &&& final(self).pending() == old(self).pending()
                },
            },
    {
        let r = self.record(layer, false);
        proof {
            if r.is_ok() {
                assert(self.pending().drop_last() =~= old(self).pending());
            }
        }
        r
    }

    /// What the last entry of the batch that names `x` does with it.
    fn status(&self, x: &LayerDescriptor) -> (r: Option<bool>)
        ensures
            r == last_mention(self.pending(), x@),
    {
        let ghost ops = self.pending();
        let mut t: usize = self.pending.len();
        assert(ops.take(t as int) =~= ops);
        while t > 0
            invariant
                t <= self.pending@.len(),
                ops == self.pending(),
                last_mention(ops, x@) == last_mention(ops.take(t as int), x@),
            decreases t,
        {
            t -= 1;
            assert(ops.take(t + 1).drop_last() =~= ops.take(t as int));
            assert(ops.take(t + 1).last() == self.pending@[t as int]@);
            if self.pending[t].layer.order(x) == Rel::Same {
                return Some(self.pending[t].insert);
            }
        }
        None
    }

    /// The layers of the snapshot that the batch has not removed.
    pub closed spec fn kept(&self) -> Set<LayerView> {
        self.compiled().intersect(self@)
    }

    /// Whether the batch has left a layer of the snapshot in the index.
    fn is_kept(&self, l: &LayerDescriptor) -> (r: bool)
        requires
            self.compiled().contains(l@),
        ensures
            r == self@.contains(l@),
    {
        proof {
            lemma_apply_ops_contains(self.compiled(), self.pending(), l@);
        }
        if self.pending.len() == 0 {
            true
        } else {
            match self.status(l) {
                Some(false) => false,
                _ => true,
            }
        }
    }

    /// The number of layers of a stack that start at or before `lsn`. They
    /// are the lowest of the stack.
    fn reach_count(&self, stack: &Vec<usize>, key: Key, lsn: Lsn) -> (p: usize)
        requires
            self.wf(),
            stack_holds(stack@, self.compiled.layers(), key),
        ensures
            p <= stack@.len(),
            forall|b: int|
                0 <= b < p ==> self.compiled.layers()[(#[trigger] stack@[b]) as int].lsn.start@
                    <= lsn@,
            forall|b: int|
                p <= b < stack@.len() ==> lsn@ < self.compiled.layers()[(
                #[trigger] stack@[b]) as int].lsn.start@,
    {
        let ghost lv = self.compiled.layers();
        proof {
            self.compiled.lemma_layers_sorted();
        }
        let mut lo: usize = 0;
        let mut hi: usize = stack.len();
        while lo < hi
            invariant
                lo <= hi <= stack@.len(),
                lv == self.compiled.layers(),
                strictly_sorted(lv),
                stack_holds(stack@, lv, key),
                forall|b: int| 0 <= b < lo ==> lv[(#[trigger] stack@[b]) as int].lsn.start@ <= lsn@,
                forall|b: int|
                    hi <= b < stack@.len() ==> lsn@ < lv[(#[trigger] stack@[b]) as int].lsn.start@,
            decreases hi - lo,
        {
            let mid: usize = lo + (hi - lo) / 2;
            let at = stack[mid];
            if self.compiled.layer(at).lsn.start.0 <= lsn.0 {
                assert forall|b: int| 0 <= b < mid + 1 implies lv[(
                #[trigger] stack@[b]) as int].lsn.start@ <= lsn@ by {
                    if b < mid {
                        assert(stack@[b] < stack@[mid as int]);
                        assert(layer_lt(lv[stack@[b] as int], lv[stack@[mid as int] as int]));
                    }
                }
                lo = mid + 1;
            } else {
                assert forall|b: int| mid <= b < stack@.len() implies lsn@ < lv[(
                #[trigger] stack@[b]) as int].lsn.start@ by {
                    if mid < b {
                        assert(stack@[mid as int] < stack@[b]);
                        assert(layer_lt(lv[stack@[mid as int] as int], lv[stack@[b] as int]));
                    }
                }
                hi = mid;
            }
        }
        lo
    }

    /// Searches the layers of the snapshot that the batch has not removed.
    fn search_kept(&self, key: Key, lsn: Lsn) -> (r: Option<usize>)
        requires
            self.wf(),
        ensures
            match r {
                Some(i) => i < self.compiled.layers().len() && is_best(
                    self.kept(),
                    key,
                    lsn,
                    self.compiled.layers()[i as int],
                ),
                None => none_reaches(self.kept(), key, lsn),
            },
    {
        let ghost lv = self.compiled.layers();
        let n = self.compiled.len();
        proof {
            self.compiled.lemma_layers_sorted();
        }
        let (stack, ceilings) = match self.compiled.stack_at(key) {
            Some(found) => found,
            None => {
                assert forall|o: LayerView| #[trigger] self.kept().contains(o) implies !o.reaches(
                    key,
                    lsn,
                ) by {
                    let i = choose|i: int| 0 <= i < lv.len() && lv[i] == o;
                    assert(!lv[i].key.spec_contains(key));
                }
                return None;
            },
        };
        let p = self.reach_count(stack, key, lsn);
        let mut a: usize = p;
        let mut fallback: Option<usize> = None;
        let mut done = false;
        let ghost mut top: int = 0;
        while a > 0 && !done
            invariant
                a <= p <= stack@.len(),
                self.wf(),
                lv == self.compiled.layers(),
                lv.len() == n,
                strictly_sorted(lv),
                stack_holds(stack@, lv, key),
                ceilings_hold(stack@, ceilings@, lv),
                done ==> fallback.is_some() && forall|b: int|
                    0 <= b < a ==> !lv[(#[trigger] stack@[b]) as int].lsn.spec_contains(lsn),
                forall|b: int| 0 <= b < p ==> lv[(#[trigger] stack@[b]) as int].lsn.start@ <= lsn@,
                forall|b: int|
                    p <= b < stack@.len() ==> lsn@ < lv[(#[trigger] stack@[b]) as int].lsn.start@,
                forall|b: int|
                    a <= b < p && self@.contains(lv[(#[trigger] stack@[b]) as int])
                        ==> fallback.is_some() && !lv[stack@[b] as int].lsn.spec_contains(lsn),
                fallback matches Some(f) ==> {
                    &&& a <= top < p
                    &&& stack@[top] == f
                    &&& self@.contains(lv[f as int])
                    &&& forall|b: int|
                        top < b < p ==> !self@.contains(lv[(#[trigger] stack@[b]) as int])
                },
            decreases a,
        {
            a -= 1;
            let at = stack[a];
            let l = self.compiled.layer(at);
            assert(lv.contains(lv[at as int]));
            if self.is_kept(l) {
                if lsn.0 < l.lsn.end.0 {
                    proof {
                        let r = lv[at as int];
                        assert forall|o: LayerView|
                            #[trigger] self.kept().contains(o) && o.reaches(key, lsn) && o
                                != r implies preferred(lsn, r, o) by {
                            let i = choose|i: int| 0 <= i < lv.len() && lv[i] == o;
                            assert(lv[i].key.spec_contains(key));
                            let b = choose|b: int|
                                0 <= b < stack@.len() && stack@[b] == i as usize;
                            if b >= p {
                                assert(lsn@ < lv[stack@[b] as int].lsn.start@);
                            }
                            if b < a {
                                assert(stack@[b] < stack@[a as int]);
                                assert(layer_lt(lv[stack@[b] as int], lv[stack@[a as int] as int]));
                            } else if b > a {
                                assert(!lv[stack@[b] as int].lsn.spec_contains(lsn));
                            }
                        }
                    }
                    return Some(at);
                }
                if fallback.is_none() {
                    fallback = Some(at);
                    proof {
                        top = a as int;
                    }
                }
            }
            // Below a ceiling that is not past `lsn` no layer holds `lsn`.
            done = fallback.is_some() && ceilings[a] <= lsn.0;
        }
        proof {
            match fallback {
                Some(f) => {
                    let r = lv[f as int];
                    assert(lv.contains(r));
                    assert(r.key.spec_contains(key));
                    assert forall|o: LayerView|
                        #[trigger] self.kept().contains(o) && o.reaches(key, lsn) && o
                            != r implies preferred(lsn, r, o) by {
                        let i = choose|i: int| 0 <= i < lv.len() && lv[i] == o;
                        assert(lv[i].key.spec_contains(key));
                        let b = choose|b: int| 0 <= b < stack@.len() && stack@[b] == i as usize;
                        if b >= p {
                            assert(lsn@ < lv[stack@[b] as int].lsn.start@);
                        }
                        assert(!lv[stack@[b] as int].lsn.spec_contains(lsn));
                        assert(!lv[stack@[top] as int].lsn.spec_contains(lsn));
                        if b < top {
                            assert(stack@[b] < stack@[top]);
                            assert(layer_lt(lv[stack@[b] as int], lv[stack@[top] as int]));
                        }
                    }
                },
                None => {
                    assert forall|o: LayerView| #[trigger] self.kept().contains(o) implies !o.reaches(
                        key,
                        lsn,
                    ) by {
                        if o.reaches(key, lsn) {
                            let i = choose|i: int| 0 <= i < lv.len() && lv[i] == o;
                            assert(lv[i].key.spec_contains(key));
                            let b = choose|b: int|
                                0 <= b < stack@.len() && stack@[b] == i as usize;
                            if b >= p {
                                assert(lsn@ < lv[stack@[b] as int].lsn.start@);
                            }
                            assert(self@.contains(lv[stack@[b] as int]));
                        }
                    }
                },
            }
        }
        fallback
    }

    /// Finds the layer that holds the version of `key` that is current at
    /// `lsn`: of the layers that hold `key` and start at or before `lsn`,
    /// the one that `preferred` puts first. The search looks into the
    /// snapshot and goes through the batch, so that it answers for what the
    /// index holds whether or not it was rebuilt.
    pub fn search(&self, key: Key, lsn: Lsn) -> (r: Option<&LayerDescriptor>)
        requires
            self.wf(),
        ensures
            match r {
                Some(l) => is_best(self@, key, lsn, l@),
                None => none_reaches(self@, key, lsn),
            },
    {
        let ghost ops = self.pending();
        let mut best: Option<&LayerDescriptor> = match self.search_kept(key, lsn) {
            Some(i) => Some(self.compiled.layer(i)),
            None => None,
        };
        let mut t: usize = 0;
        proof {
            assert forall|o: LayerView|
                #[trigger] self@.contains(o) && o.reaches(key, lsn) && (self.compiled().contains(o)
                    || inserted_before(ops, 0, o)) implies (best matches Some(b) && (o == b@
                    || preferred(lsn, b@, o))) by {
                assert(self.kept().contains(o));
            }
            if best.is_some() {
                assert(self.kept().contains(best.unwrap()@));
            }
        }
        while t < self.pending.len()
            invariant
                t <= self.pending@.len(),
                self.wf(),
                ops == self.pending(),
                best matches Some(b) ==> self@.contains(b@) && b@.reaches(key, lsn),
                forall|o: LayerView|
                    #[trigger] self@.contains(o) && o.reaches(key, lsn) && (self.compiled().contains(
                        o,
                    ) || inserted_before(ops, t as int, o)) ==> (best matches Some(b) && (o == b@
                        || preferred(lsn, b@, o))),
            decreases self.pending@.len() - t,
        {
            let op = &self.pending[t];
            let ghost earlier = best;
            assert(ops[t as int] == op@);
            let mut better = false;
            if op.insert && op.layer.key.contains(key) && op.layer.lsn.start.0 <= lsn.0 {
                proof {
                    lemma_apply_ops_contains(self.compiled(), ops, op.layer@);
                }
                match self.status(&op.layer) {
                    Some(true) => {
                        better = match best {
                            None => true,
                            Some(b) => rank(lsn, &op.layer, b) == Rel::After,
                        };
                    },
                    _ => {},
                }
            }
            if better {
                best = Some(&op.layer);
            }
            proof {
                assert forall|o: LayerView|
                    #[trigger] self@.contains(o) && o.reaches(key, lsn) && (self.compiled().contains(
                        o,
                    ) || inserted_before(ops, t + 1, o)) implies (best matches Some(b) && (o == b@
                        || preferred(lsn, b@, o))) by {
                    let seen = self.compiled().contains(o) || inserted_before(ops, t as int, o);
                    if !seen {
                        let s = choose|s: int|
                            0 <= s < t + 1 && #[trigger] ops[s].layer == o && ops[s].insert;
                        assert(s == t);
                        lemma_apply_ops_contains(self.compiled(), ops, o);
                    } else if better {
                        match earlier {
                            Some(e) => {
                                if o != e@ {
                                    lemma_preferred_transitive(lsn, op.layer@, e@, o);
                                }
                            },
                            None => {},
                        }
                    }
                }
            }
            t += 1;
        }
        proof {
            match best {
                Some(b) => {
                    assert forall|o: LayerView|
                        #[trigger] self@.contains(o) && o.reaches(key, lsn) && o
                            != b@ implies preferred(lsn, b@, o) by {
                        lemma_apply_ops_contains(self.compiled(), ops, o);
                        if last_mention(ops, o).is_some() {
                            let at = lemma_last_mention_entry(ops, o);
                            assert(inserted_before(ops, t as int, o));
                        }
                    }
                },
                None => {
                    assert forall|o: LayerView| #[trigger] self@.contains(o) implies !o.reaches(
                        key,
                        lsn,
                    ) by {
                        lemma_apply_ops_contains(self.compiled(), ops, o);
                        if last_mention(ops, o).is_some() {
                            let at = lemma_last_mention_entry(ops, o);
                            assert(inserted_before(ops, t as int, o));
                        }
                    }
                },
            }
        }
        best
    }

    /// The layers of the index in stacking order, each once.
    pub fn layers(&self) -> (list: Vec<LayerDescriptor>)
        requires
            self.wf(),
        ensures
            strictly_sorted(layer_views(list@)),
            all_wf(layer_views(list@)),
            layer_views(list@).to_set() == self@,
    {
        proof {
            self.compiled.lemma_layers_sorted();
        }
        let kept = as_entries(self.compiled.list());
        let batch = normalize(&self.pending, 0, self.pending.len());
        let merged = merge(&kept, &batch);
        let list = keep_inserted(&merged);
        proof {
            let lv = layer_views(list@);
            let ops = self.pending();
            assert(op_views(self.pending@).subrange(0, self.pending@.len() as int) =~= ops);
            assert forall|x: LayerView| lv.to_set().contains(x) <==> self@.contains(x) by {
                lemma_apply_ops_contains(self.compiled(), ops, x);
                assert(last_mention(entry_views(merged@), x) == later_word(
                    last_mention(entry_views(kept@), x),
                    last_mention(entry_views(batch@), x),
                ));
                assert(lv.contains(x) <==> last_mention(entry_views(merged@), x) == Some(true));
            }
            assert(lv.to_set() =~= self@);
            self.lemma_view();
            assert forall|i: int| 0 <= i < lv.len() implies (#[trigger] lv[i]).wf() by {
                assert(lv.contains(lv[i]));
                assert(self@.contains(lv[i]));
            }
        }
        list
    }

    /// Compiles a new snapshot of the layers that the index holds and empties
    /// the batch. What the index holds stays as it is. Where the index holds
    /// two image layers of the same keys at the same position, nothing is
    /// compiled and the index stays as it was.
    pub fn rebuild(&mut self) -> (r: Result<(), InvariantViolation>)
        requires
            old(self).wf(),
        ensures
            final(self).wf(),
            final(self)@ == old(self)@,
            match r {
                Ok(()) => {
                    &&& !has_twins(old(self)@)
                    &&& final(self).compiled() == old(self)@
                    &&& final(self).pending() == Seq::<OpView>::empty()
                },
                Err(e) => {
                    &&& has_twins(old(self)@)
                    &&& e == InvariantViolation::TwinImages
                    &&& final(self).compiled() == old(self).compiled()
                    &&& final(self).pending() == old(self).pending()
                },
            },
    {
        if self.pending.len() == 0 {
            assert(self.pending() =~= Seq::<OpView>::empty());
            return Ok(());
        }
        let list = self.layers();
        if find_twins(&list) {
            return Err(InvariantViolation::TwinImages);
        }
        self.compiled = Snapshot::build(list);
        self.pending = Vec::new();
        assert(self.pending() =~= Seq::<OpView>::empty());
        Ok(())
    }

    /// The difficulty at `lsn` of each of `parts`, in their order: for each
    /// the number of delta layers that a reader of its keys may have to go
    /// through.
    pub fn difficulty_map(&self, lsn: Lsn, parts: &Vec<KeyRange>) -> (r: Vec<usize>)
        requires
            self.wf(),
        ensures
            r@.len() == parts@.len(),
            forall|i: int|
                0 <= i < parts@.len() ==> (#[trigger] r@[i]) == difficulty(self@, parts@[i], lsn),
    {
        if self.pending.len() == 0 {
            proof {
                self.compiled.lemma_layers_sorted();
            }
            count_deltas_of_each(self.compiled.list(), parts, lsn)
        } else {
            let list = self.layers();
            count_deltas_of_each(&list, parts, lsn)
        }
    }
}

} // verus!
