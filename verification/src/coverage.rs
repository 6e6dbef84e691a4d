//! The compiled form of a set of layers: the key space cut at every end of a
//! key range, and for each piece the stack of the layers that hold it.
use crate::key::{lemma_key_order, Key};
use crate::layer::{LayerDescriptor, LayerView};
use crate::sorted::{all_wf, layer_views, strictly_sorted};
use vstd::prelude::*;

verus! {

/// Whether the keys stand in strictly rising order.
pub open spec fn keys_sorted(b: Seq<Key>) -> bool {
    forall|i: int, j: int| 0 <= i < j < b.len() ==> (#[trigger] b[i])@ < (#[trigger] b[j])@
}

/// Whether `stack` lists, in rising order, the places in `layers` of exactly
/// the layers whose key range holds `key`.
pub open spec fn stack_holds(stack: Seq<usize>, layers: Seq<LayerView>, key: Key) -> bool {
    stack_holds_below(stack, layers, key, layers.len() as int)
}

/// As `stack_holds`, of the first `n` layers only.
pub open spec fn stack_holds_below(
    stack: Seq<usize>,
    layers: Seq<LayerView>,
    key: Key,
    n: int,
) -> bool {
    &&& forall|a: int, b: int| 0 <= a < b < stack.len() ==> #[trigger] stack[a] < #[trigger] stack[b]
    &&& forall|a: int|
        0 <= a < stack.len() ==> (#[trigger] stack[a]) < n && layers[stack[a] as int].key.spec_contains(
            key,
        )
    &&& forall|l: int|
        0 <= l < n && (#[trigger] layers[l]).key.spec_contains(key) ==> stack.contains(l as usize)
}

/// Whether each of `ceilings` is at or above the ends of the positions of
/// the layers of `stack` up to its place: no layer at or below a place
/// holds a position at or past the ceiling of that place.
pub open spec fn ceilings_hold(stack: Seq<usize>, ceilings: Seq<u64>, layers: Seq<LayerView>) -> bool {
    &&& ceilings.len() == stack.len()
    &&& forall|a: int, b: int|
        0 <= a <= b < stack.len() ==> layers[(#[trigger] stack[a]) as int].lsn.end@
            <= #[trigger] ceilings[b]
}

/// The number of keys of a sorted list that are not past `key`.
fn key_rank(bounds: &Vec<Key>, key: Key) -> (cnt: usize)
    requires
        keys_sorted(bounds@),
    ensures
        cnt <= bounds.len(),
        forall|i: int| 0 <= i < cnt ==> (#[trigger] bounds@[i])@ <= key@,
        forall|i: int| cnt <= i < bounds.len() ==> key@ < (#[trigger] bounds@[i])@,
{
    let mut lo: usize = 0;
    let mut hi: usize = bounds.len();
    while lo < hi
        invariant
            lo <= hi <= bounds.len(),
            keys_sorted(bounds@),
            forall|i: int| 0 <= i < lo ==> (#[trigger] bounds@[i])@ <= key@,
            forall|i: int| hi <= i < bounds.len() ==> key@ < (#[trigger] bounds@[i])@,
        decreases hi - lo,
    {
        let mid: usize = lo + (hi - lo) / 2;
        if bounds[mid].le(&key) {
            lo = mid + 1;
        } else {
            hi = mid;
        }
    }
    lo
}

/// Whether `k` is the start or the end of the key range of one of the
/// layers from place `lo` up to `hi`.
pub open spec fn is_end_among(layers: Seq<LayerView>, lo: int, hi: int, k: Key) -> bool {
    exists|l: int| lo <= l < hi && ((#[trigger] layers[l]).key.start == k || layers[l].key.end == k)
}

/// A key is in the first `n + 1` keys of a list where it is in the first
/// `n`, or is the one that follows them.
proof fn lemma_take_contains(s: Seq<Key>, n: int, k: Key)
    requires
        0 <= n < s.len(),
    ensures
        s.take(n + 1).contains(k) <==> s.take(n).contains(k) || s[n] == k,
{
    let shorter = s.take(n);
    let longer = s.take(n + 1);
    if longer.contains(k) {
        let i = choose|i: int| 0 <= i < longer.len() && longer[i] == k;
        if i < n {
            assert(shorter[i] == k);
        }
    }
    if shorter.contains(k) {
        let i = choose|i: int| 0 <= i < shorter.len() && shorter[i] == k;
        assert(longer[i] == k);
    }
    if s[n] == k {
        assert(longer[n] == k);
    }
}

/// Merges two sorted lists of keys into the sorted list of the keys of both.
fn merge_keys(a: &Vec<Key>, b: &Vec<Key>) -> (r: Vec<Key>)
    requires
        keys_sorted(a@),
        keys_sorted(b@),
    ensures
        keys_sorted(r@),
        forall|k: Key| #[trigger] r@.contains(k) <==> a@.contains(k) || b@.contains(k),
{
    let mut r: Vec<Key> = Vec::new();
    let mut i: usize = 0;
    let mut j: usize = 0;
    while i < a.len() || j < b.len()
        invariant
            i <= a@.len(),
            j <= b@.len(),
            keys_sorted(a@),
            keys_sorted(b@),
            keys_sorted(r@),
            forall|p: int| 0 <= p < r@.len() && i < a@.len() ==> (#[trigger] r@[p])@ < a@[i as int]@,
            forall|p: int| 0 <= p < r@.len() && j < b@.len() ==> (#[trigger] r@[p])@ < b@[j as int]@,
            forall|k: Key|
                #[trigger] r@.contains(k) <==> a@.take(i as int).contains(k) || b@.take(
                    j as int,
                ).contains(k),
        decreases (a@.len() - i) + (b@.len() - j),
    {
        let ghost prior = r@;
        let ghost i0 = i as int;
        let ghost j0 = j as int;
        let take_a = j >= b.len() || (i < a.len() && a[i].le(&b[j]));
        let e = if take_a {
            a[i]
        } else {
            b[j]
        };
        if take_a {
            if j < b.len() && b[j] == e {
                j += 1;
            }
            i += 1;
        } else {
            j += 1;
        }
        r.push(e);
        proof {
            if i0 < a@.len() {
                lemma_key_order(a@[i0], e);
            }
            if j0 < b@.len() {
                lemma_key_order(b@[j0], e);
            }
            assert forall|p: int, q: int| 0 <= p < q < r@.len() implies (#[trigger] r@[p])@ < (
            #[trigger] r@[q])@ by {
                assert(r@[p] == prior[p]);
                if q < prior.len() {
                    assert(r@[q] == prior[q]);
                }
            }
            assert forall|p: int| 0 <= p < r@.len() && i < a@.len() implies (#[trigger] r@[p])@
                < a@[i as int]@ by {
                if p < prior.len() {
                    assert(r@[p] == prior[p]);
                }
                if i != i0 {
                    assert(a@[i0]@ < a@[i as int]@);
                }
            }
            assert forall|p: int| 0 <= p < r@.len() && j < b@.len() implies (#[trigger] r@[p])@
                < b@[j as int]@ by {
                if p < prior.len() {
                    assert(r@[p] == prior[p]);
                }
                if j != j0 {
                    assert(b@[j0]@ < b@[j as int]@);
                }
            }
            assert forall|k: Key|
                #[trigger] r@.contains(k) <==> a@.take(i as int).contains(k) || b@.take(
                    j as int,
                ).contains(k) by {
                assert(prior.contains(k) <==> a@.take(i0).contains(k) || b@.take(j0).contains(k));
                if i != i0 {
                    lemma_take_contains(a@, i0, k);
                }
                if j != j0 {
                    lemma_take_contains(b@, j0, k);
                }
                if r@.contains(k) {
                    let p = choose|p: int| 0 <= p < r@.len() && r@[p] == k;
                    if p < prior.len() {
                        assert(prior[p] == k);
                    }
                }
                if prior.contains(k) {
                    let p = choose|p: int| 0 <= p < prior.len() && prior[p] == k;
                    assert(r@[p] == k);
                }
                if k == e {
                    assert(r@[prior.len() as int] == k);
                }
            }
        }
    }
    assert(a@.take(i as int) =~= a@);
    assert(b@.take(j as int) =~= b@);
    r
}

/// The starts and ends of the key ranges of the layers from place `lo` up
/// to `hi`, in rising order, each once.
fn ends_of(layers: &Vec<LayerDescriptor>, lo: usize, hi: usize) -> (r: Vec<Key>)
    requires
        lo <= hi <= layers@.len(),
        all_wf(layer_views(layers@)),
    ensures
        keys_sorted(r@),
        forall|k: Key|
            #[trigger] r@.contains(k) <==> is_end_among(layer_views(layers@), lo as int, hi as int, k),
    decreases hi - lo,
{
    let ghost lv = layer_views(layers@);
    if hi - lo == 0 {
        return Vec::new();
    }
    if hi - lo == 1 {
        let mut r: Vec<Key> = Vec::new();
        assert(lv[lo as int].wf());
        assert(lv[lo as int] == layers@[lo as int]@);
        r.push(layers[lo].key.start);
        r.push(layers[lo].key.end);
        proof {
            assert forall|k: Key| #[trigger] r@.contains(k) <==> is_end_among(
                lv,
                lo as int,
                hi as int,
                k,
            ) by {
                if r@.contains(k) {
                    let p = choose|p: int| 0 <= p < r@.len() && r@[p] == k;
                    assert(lv[lo as int].key.start == k || lv[lo as int].key.end == k);
                }
                if is_end_among(lv, lo as int, hi as int, k) {
                    if lv[lo as int].key.start == k {
                        assert(r@[0] == k);
                    } else {
                        assert(r@[1] == k);
                    }
                }
            }
        }
        return r;
    }
    let mid: usize = lo + (hi - lo) / 2;
    let left = ends_of(layers, lo, mid);
    let right = ends_of(layers, mid, hi);
    let r = merge_keys(&left, &right);
    proof {
        assert forall|k: Key| #[trigger] r@.contains(k) <==> is_end_among(
            lv,
            lo as int,
            hi as int,
            k,
        ) by {
            assert(left@.contains(k) <==> is_end_among(lv, lo as int, mid as int, k));
            assert(right@.contains(k) <==> is_end_among(lv, mid as int, hi as int, k));
            if is_end_among(lv, lo as int, hi as int, k) {
                let l = choose|l: int|
                    lo <= l < hi && ((#[trigger] lv[l]).key.start == k || lv[l].key.end == k);
                if l < mid {
                    assert(is_end_among(lv, lo as int, mid as int, k));
                } else {
                    assert(is_end_among(lv, mid as int, hi as int, k));
                }
            }
            if is_end_among(lv, lo as int, mid as int, k) {
                let l = choose|l: int|
                    lo <= l < mid && ((#[trigger] lv[l]).key.start == k || lv[l].key.end == k);
                assert(lo <= l < hi);
            }
            if is_end_among(lv, mid as int, hi as int, k) {
                let l = choose|l: int|
                    mid <= l < hi && ((#[trigger] lv[l]).key.start == k || lv[l].key.end == k);
                assert(lo <= l < hi);
            }
        }
    }
    r
}

/// A stack for the first `n` layers, with `n` put on top, is the stack for
/// one layer more where that layer holds the key.
proof fn lemma_stack_push(stack: Seq<usize>, layers: Seq<LayerView>, key: Key, n: usize)
    requires
        stack_holds_below(stack, layers, key, n as int),
        n < layers.len(),
        layers[n as int].key.spec_contains(key),
    ensures
        stack_holds_below(stack.push(n), layers, key, n + 1),
{
    let grown = stack.push(n);
    assert forall|l: int| 0 <= l < n + 1 && (#[trigger] layers[l]).key.spec_contains(
        key,
    ) implies grown.contains(l as usize) by {
        if l < n {
            let a = choose|a: int| 0 <= a < stack.len() && stack[a] == l as usize;
            assert(grown[a] == l as usize);
        } else {
            assert(grown[stack.len() as int] == n);
        }
    }
}

/// A stack for the first `n` layers is the stack for one layer more where
/// that layer does not hold the key.
proof fn lemma_stack_skip(stack: Seq<usize>, layers: Seq<LayerView>, key: Key, n: usize)
    requires
        stack_holds_below(stack, layers, key, n as int),
        !layers[n as int].key.spec_contains(key),
    ensures
        stack_holds_below(stack, layers, key, n + 1),
{
}

/// A set of layers compiled for search. It is built once and not changed.
pub struct Snapshot {
    /// The layers, in stacking order.
    layers: Vec<LayerDescriptor>,
    /// Every start and end of a key range of a layer, in rising order.
    bounds: Vec<Key>,
    /// For each bound, the stack of the piece of key space that starts at it.
    stacks: Vec<Vec<usize>>,
    /// For each stack its ceilings: beside each place the greatest end of
    /// the positions of the layers up to it.
    ceilings: Vec<Vec<u64>>,
}

impl Snapshot {
    /// The layers of the snapshot, in stacking order.
    pub closed spec fn layers(&self) -> Seq<LayerView> {
        layer_views(self.layers@)
    }

    /// What holds of every snapshot that `empty` and `build` make.
    pub closed spec fn wf(&self) -> bool {
        &&& strictly_sorted(self.layers())
        &&& all_wf(self.layers())
        &&& keys_sorted(self.bounds@)
        &&& forall|l: int|
            0 <= l < self.layers().len() ==> self.bounds@.contains(
                (#[trigger] self.layers()[l]).key.start,
            ) && self.bounds@.contains(self.layers()[l].key.end)
        &&& self.stacks@.len() == self.bounds@.len()
        &&& forall|i: int|
            0 <= i < self.bounds@.len() ==> stack_holds(
                (#[trigger] self.stacks@[i])@,
                self.layers(),
                self.bounds@[i],
            )
        &&& self.ceilings@.len() == self.bounds@.len()
        &&& forall|i: int|
            0 <= i < self.bounds@.len() ==> ceilings_hold(
                self.stacks@[i]@,
                (#[trigger] self.ceilings@[i])@,
                self.layers(),
            )
    }

    /// The layers of a snapshot stand in stacking order, each once, and each
    /// is one that an index takes.
    pub proof fn lemma_layers_sorted(&self)
        requires
            self.wf(),
        ensures
            strictly_sorted(self.layers()),
            all_wf(self.layers()),
    {
    }

    /// The snapshot of no layers.
    pub fn empty() -> (s: Snapshot)
        ensures
            s.wf(),
            s.layers().len() == 0,
    {
        Snapshot {
            layers: Vec::new(),
            bounds: Vec::new(),
            stacks: Vec::new(),
            ceilings: Vec::new(),
        }
    }

    /// Compiles a list of layers that stands in stacking order.
    pub fn build(layers: Vec<LayerDescriptor>) -> (s: Snapshot)
        requires
            strictly_sorted(layer_views(layers@)),
            all_wf(layer_views(layers@)),
        ensures
            s.wf(),
            s.layers() == layer_views(layers@),
    {
        let ghost lv = layer_views(layers@);
        let bounds = ends_of(&layers, 0, layers.len());
        proof {
            assert forall|l: int| 0 <= l < lv.len() implies bounds@.contains(
                (#[trigger] lv[l]).key.start,
            ) && bounds@.contains(lv[l].key.end) by {
                assert(is_end_among(lv, 0, lv.len() as int, lv[l].key.start));
                assert(is_end_among(lv, 0, lv.len() as int, lv[l].key.end));
            }
        }
        let mut stacks: Vec<Vec<usize>> = Vec::new();
        let mut ceilings: Vec<Vec<u64>> = Vec::new();
        let mut i: usize = 0;
        while i < bounds.len()
            invariant
                i <= bounds.len(),
                stacks@.len() == i,
                ceilings@.len() == i,
                forall|j: int| 0 <= j < i ==> (#[trigger] stacks@[j])@.len() == 0,
                forall|j: int| 0 <= j < i ==> (#[trigger] ceilings@[j])@.len() == 0,
            decreases bounds.len() - i,
        {
            stacks.push(Vec::new());
            ceilings.push(Vec::new());
            i += 1;
        }
        let mut l: usize = 0;
        while l < layers.len()
            invariant
                l <= layers.len(),
                lv == layer_views(layers@),
                all_wf(lv),
                keys_sorted(bounds@),
                forall|l: int|
                    0 <= l < lv.len() ==> bounds@.contains((#[trigger] lv[l]).key.start)
                        && bounds@.contains(lv[l].key.end),
                stacks@.len() == bounds@.len(),
                forall|i: int|
                    0 <= i < bounds@.len() ==> stack_holds_below(
                        (#[trigger] stacks@[i])@,
                        lv,
                        bounds@[i],
                        l as int,
                    ),
                ceilings@.len() == bounds@.len(),
                forall|i: int|
                    0 <= i < bounds@.len() ==> ceilings_hold(
                        stacks@[i]@,
                        (#[trigger] ceilings@[i])@,
                        lv,
                    ),
            decreases layers.len() - l,
        {
            let start = layers[l].key.start;
            let end = layers[l].key.end;
            assert(lv[l as int] == layers@[l as int]@);
            assert(lv[l as int].wf());
            let cnt = key_rank(&bounds, start);
            let ghost at = choose|s: int| 0 <= s < bounds@.len() && bounds@[s] == start;
            assert(cnt > 0) by {
                if cnt == 0 {
                    assert(start@ < bounds@[at]@);
                }
            }
            let first: usize = cnt - 1;
            assert(bounds@[first as int] == start) by {
                if at < first {
                    assert(bounds@[at]@ < bounds@[first as int]@);
                } else if at > first {
                    assert(start@ < bounds@[at]@);
                }
            }
            let mut j: usize = first;
            while j < bounds.len() && bounds[j].lt(&end)
                invariant
                    first <= j <= bounds.len(),
                    l < layers.len(),
                    lv == layer_views(layers@),
                    lv[l as int].key.start == start,
                    lv[l as int].key.end == end,
                    bounds@[first as int] == start,
                    keys_sorted(bounds@),
                    stacks@.len() == bounds@.len(),
                    forall|i: int|
                        first <= i < j ==> stack_holds_below(
                            (#[trigger] stacks@[i])@,
                            lv,
                            bounds@[i],
                            l + 1,
                        ),
                    forall|i: int|
                        0 <= i < bounds@.len() && !(first <= i < j) ==> stack_holds_below(
                            (#[trigger] stacks@[i])@,
                            lv,
                            bounds@[i],
                            l as int,
                        ),
                    ceilings@.len() == bounds@.len(),
                    forall|i: int|
                        0 <= i < bounds@.len() ==> ceilings_hold(
                            stacks@[i]@,
                            (#[trigger] ceilings@[i])@,
                            lv,
                        ),
                decreases bounds.len() - j,
            {
                proof {
                    if first < j {
                        assert(bounds@[first as int]@ < bounds@[j as int]@);
                    }
                    lemma_stack_push(stacks@[j as int]@, lv, bounds@[j as int], l);
                }
                let ghost prior = stacks@;
                let ghost prior_ceilings = ceilings@;
                let held = ceilings[j].len();
                let mut ceiling = layers[l].lsn.end.0;
                if held > 0 {
                    if ceiling < ceilings[j][held - 1] {
                        ceiling = ceilings[j][held - 1];
                    }
                }
                stacks[j].push(l);
                ceilings[j].push(ceiling);
                assert(forall|i: int| 0 <= i < prior.len() && i != j ==> stacks@[i] == prior[i]);
                assert(forall|i: int|
                    0 <= i < prior.len() && i != j ==> ceilings@[i] == prior_ceilings[i]);
                proof {
                    let old_stack = prior[j as int]@;
                    let old_ceilings = prior_ceilings[j as int]@;
                    assert(ceilings_hold(old_stack, old_ceilings, lv));
                    let new_stack = stacks@[j as int]@;
                    let new_ceilings = ceilings@[j as int]@;
                    assert(lv[l as int] == layers@[l as int]@);
                    assert forall|a: int, b: int| 0 <= a <= b < new_stack.len() implies lv[(
                    #[trigger] new_stack[a]) as int].lsn.end@ <= #[trigger] new_ceilings[b] by {
                        if b < old_stack.len() {
                            assert(new_stack[a] == old_stack[a]);
                            assert(new_ceilings[b] == old_ceilings[b]);
                        } else if a < old_stack.len() {
                            assert(new_stack[a] == old_stack[a]);
                            assert(lv[old_stack[a] as int].lsn.end@ <= old_ceilings[held - 1]);
                        }
                    }
                }
                j += 1;
            }
            proof {
                assert forall|i: int| 0 <= i < bounds@.len() implies stack_holds_below(
                    (#[trigger] stacks@[i])@,
                    lv,
                    bounds@[i],
                    l + 1,
                ) by {
                    if !(first <= i < j) {
                        if i < first {
                            assert(bounds@[i]@ < bounds@[first as int]@);
                        } else {
                            if i > j {
                                assert(bounds@[j as int]@ < bounds@[i]@);
                            }
                        }
                        lemma_stack_skip(stacks@[i]@, lv, bounds@[i], l);
                    }
                }
            }
            l += 1;
        }
        Snapshot { layers, bounds, stacks, ceilings }
    }

    /// The number of layers.
    pub fn len(&self) -> (n: usize)
        ensures
            n == self.layers().len(),
    {
        self.layers.len()
    }

    /// The layers in stacking order.
    pub fn list(&self) -> (l: &Vec<LayerDescriptor>)
        ensures
            layer_views(l@) == self.layers(),
    {
        &self.layers
    }

    /// The layer at place `i` of the stacking order.
    pub fn layer(&self, i: usize) -> (l: &LayerDescriptor)
        requires
            i < self.layers().len(),
        ensures
            l@ == self.layers()[i as int],
    {
        &self.layers[i]
    }

    /// The stack for `key`, with its ceilings: the places of the layers whose
    /// key range holds it, in rising order. `None` where `key` lies before
    /// every layer.
    pub fn stack_at(&self, key: Key) -> (r: Option<(&Vec<usize>, &Vec<u64>)>)
        requires
            self.wf(),
        ensures
            match r {
                Some((stack, ceilings)) => stack_holds(stack@, self.layers(), key) && ceilings_hold(
                    stack@,
                    ceilings@,
                    self.layers(),
                ),
                None => forall|l: int|
                    0 <= l < self.layers().len() ==> !(#[trigger] self.layers()[l]).key.spec_contains(
                        key,
                    ),
            },
    {
        let cnt = key_rank(&self.bounds, key);
        if cnt == 0 {
            proof {
                assert forall|l: int| 0 <= l < self.layers().len() implies !(
                #[trigger] self.layers()[l]).key.spec_contains(key) by {
                    let start = self.layers()[l].key.start;
                    let s = choose|s: int| 0 <= s < self.bounds@.len() && self.bounds@[s] == start;
                    assert(key@ < self.bounds@[s]@);
                }
            }
            return None;
        }
        let i: usize = cnt - 1;
        let stack = &self.stacks[i];
        let ceilings = &self.ceilings[i];
        proof {
            assert(ceilings_hold(self.stacks@[i as int]@, self.ceilings@[i as int]@, self.layers()));
            let lv = self.layers();
            let b = self.bounds@;
            assert(stack_holds(self.stacks@[i as int]@, lv, b[i as int]));
            assert forall|l: int| 0 <= l < lv.len() implies ((#[trigger] lv[l]).key.spec_contains(
                key,
            ) <==> lv[l].key.spec_contains(b[i as int])) by {
                let s = choose|s: int| 0 <= s < b.len() && b[s] == lv[l].key.start;
                let e = choose|e: int| 0 <= e < b.len() && b[e] == lv[l].key.end;
                if lv[l].key.spec_contains(key) {
                    if s > i {
                        assert(key@ < b[s]@);
                    }
                    if s < i {
                        assert(b[s]@ < b[i as int]@);
                    }
                }
                if lv[l].key.spec_contains(b[i as int]) {
                    if e <= i {
                        if e < i {
                            assert(b[e]@ < b[i as int]@);
                        }
                    } else {
                        assert(key@ < b[e]@);
                    }
                }
            }
            assert forall|a: int| 0 <= a < stack@.len() implies (#[trigger] stack@[a]) < lv.len()
                && lv[stack@[a] as int].key.spec_contains(key) by {
                assert(lv[stack@[a] as int].key.spec_contains(b[i as int]));
            }
        }
        Some((stack, ceilings))
    }
}

} // verus!
