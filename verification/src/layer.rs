//! Layer descriptors, and the order in which an index stacks them.
use crate::key::lemma_key_order;
use crate::lsn::Lsn;
use crate::range::{KeyRange, LsnRange};
use vstd::prelude::*;
use vstd::utf8::encode_utf8;

verus! {

/// What is wrong with a descriptor that an index refuses.
#[derive(Clone, Copy, Debug, PartialEq, Eq, Structural)]
pub enum ConstructionError {
    /// The key range holds no key.
    EmptyKeyRange,
    /// The range of log positions ends at or before its start.
    InvertedLsnRange,
    /// An image layer spans more than the one position it was taken at.
    ImageSpansPositions,
}

/// A fault in what an index was given to hold, found when it is compiled.
#[derive(Clone, Copy, Debug, PartialEq, Eq, Structural)]
pub enum InvariantViolation {
    /// Two image layers hold the same keys at the same position.
    TwinImages,
}

/// The descriptor of one immutable storage segment: the keys it holds, the
/// log positions it spans, and whether it holds changes (a delta layer) or
/// whole values as of one position (an image layer).
#[derive(Clone, Debug, PartialEq, Eq, Hash)]
pub struct LayerDescriptor {
    pub key: KeyRange,
    pub lsn: LsnRange,
    pub is_incremental: bool,
    /// A name for people to read. It tells apart layers of equal ranges and kind.
    pub short_id: String,
}

/// A descriptor as contracts see it.
pub struct LayerView {
    pub key: KeyRange,
    pub lsn: LsnRange,
    pub is_incremental: bool,
    pub short_id: Seq<char>,
}

impl LayerView {
    /// What an index asks of every layer it takes: some key, some position,
    /// and for an image exactly one position.
    pub open spec fn wf(&self) -> bool {
        self.rejection().is_none()
    }

    /// What, if anything, is wrong with the layer. Of several faults the
    /// first in the order of `ConstructionError` is named.
    pub open spec fn rejection(&self) -> Option<ConstructionError> {
        if self.key.spec_is_empty() {
            Some(ConstructionError::EmptyKeyRange)
        } else if self.lsn.spec_is_empty() {
            Some(ConstructionError::InvertedLsnRange)
        } else if !self.is_incremental && self.lsn.end@ != self.lsn.start@ + 1 {
            Some(ConstructionError::ImageSpansPositions)
        } else {
            None
        }
    }

    /// Whether the layer holds `key` at the position `lsn`.
    pub open spec fn covers(&self, key: crate::key::Key, lsn: Lsn) -> bool {
        self.key.spec_contains(key) && self.lsn.spec_contains(lsn)
    }

    /// Whether the layer holds `key` and starts at or before `lsn`: it then
    /// covers the position or lies wholly before it.
    pub open spec fn reaches(&self, key: crate::key::Key, lsn: Lsn) -> bool {
        self.key.spec_contains(key) && self.lsn.start@ <= lsn@
    }

    /// The position from which a reader goes on after this layer: the start
    /// of a delta layer, and none after an image, which is complete.
    pub open spec fn resume_at(&self) -> Option<Lsn> {
        if self.is_incremental {
            Some(self.lsn.start)
        } else {
            None
        }
    }
}

impl View for LayerDescriptor {
    type V = LayerView;

    open spec fn view(&self) -> LayerView {
        LayerView {
            key: self.key,
            lsn: self.lsn,
            is_incremental: self.is_incremental,
            short_id: self.short_id@,
        }
    }
}

/// Whether `a` comes before `b` as sequences of bytes are ordered: at the
/// first place where they differ `a` has the smaller byte, or `a` ends there.
pub open spec fn bytes_lt(a: Seq<u8>, b: Seq<u8>) -> bool {
    exists|i: int| #[trigger] splits_at(a, b, i)
}

/// Whether `a` and `b` agree before place `i`, and `a` is the lesser there.
pub open spec fn splits_at(a: Seq<u8>, b: Seq<u8>, i: int) -> bool {
    &&& 0 <= i <= a.len()
    &&& i < b.len()
    &&& forall|j: int| 0 <= j < i ==> a[j] == b[j]
    &&& i < a.len() ==> a[i] < b[i]
}

/// No run of bytes comes before itself.
pub proof fn lemma_bytes_lt_irreflexive(a: Seq<u8>)
    ensures
        !bytes_lt(a, a),
{
}

/// Of two runs of bytes not each comes before the other.
pub proof fn lemma_bytes_lt_asymmetric(a: Seq<u8>, b: Seq<u8>)
    ensures
        !(bytes_lt(a, b) && bytes_lt(b, a)),
{
    if bytes_lt(a, b) && bytes_lt(b, a) {
        let i = choose|i: int| splits_at(a, b, i);
        let j = choose|j: int| splits_at(b, a, j);
        if i < j {
            assert(b[i] == a[i]);
        } else if j < i {
            assert(a[j] == b[j]);
        }
    }
}

/// What comes before a run of bytes comes before all that the run comes before.
pub proof fn lemma_bytes_lt_transitive(a: Seq<u8>, b: Seq<u8>, c: Seq<u8>)
    requires
        bytes_lt(a, b),
        bytes_lt(b, c),
    ensures
        bytes_lt(a, c),
{
    let i = choose|i: int| splits_at(a, b, i);
    let j = choose|j: int| splits_at(b, c, j);
    if i <= j {
        assert(splits_at(a, c, i));
    } else {
        assert(a[j] == b[j]);
        assert(splits_at(a, c, j));
    }
}

/// Two runs of bytes that agree before place `i` are the same, or one comes
/// before the other.
proof fn lemma_bytes_split_from(a: Seq<u8>, b: Seq<u8>, i: int)
    requires
        0 <= i <= a.len(),
        i <= b.len(),
        forall|j: int| 0 <= j < i ==> a[j] == b[j],
    ensures
        a == b || bytes_lt(a, b) || bytes_lt(b, a),
    decreases a.len() - i,
{
    if i == a.len() {
        if i == b.len() {
            assert(a =~= b);
        } else {
            assert(splits_at(a, b, i));
        }
    } else if i == b.len() {
        assert(splits_at(b, a, i));
    } else if a[i] < b[i] {
        assert(splits_at(a, b, i));
    } else if b[i] < a[i] {
        assert(splits_at(b, a, i));
    } else {
        lemma_bytes_split_from(a, b, i + 1);
    }
}

/// Of two different runs of bytes one comes before the other.
pub proof fn lemma_bytes_lt_total(a: Seq<u8>, b: Seq<u8>)
    ensures
        a == b || bytes_lt(a, b) || bytes_lt(b, a),
{
    lemma_bytes_split_from(a, b, 0);
}

/// How two things stand in an order.
#[derive(Clone, Copy, Debug, PartialEq, Eq, Structural)]
pub enum Rel {
    Before,
    Same,
    After,
}

/// Orders two runs of bytes.
pub fn order_bytes(a: &[u8], b: &[u8]) -> (r: Rel)
    ensures
        r == Rel::Before <==> bytes_lt(a@, b@),
        r == Rel::Same <==> a@ == b@,
        r == Rel::After <==> bytes_lt(b@, a@),
{
    proof {
        lemma_bytes_lt_asymmetric(a@, b@);
        lemma_bytes_lt_irreflexive(a@);
    }
    let mut i: usize = 0;
    while i < a.len() && i < b.len()
        invariant
            i <= a.len(),
            i <= b.len(),
            forall|j: int| 0 <= j < i ==> a@[j] == b@[j],
        decreases a.len() - i,
    {
        if a[i] < b[i] {
            assert(splits_at(a@, b@, i as int));
            return Rel::Before;
        }
        if b[i] < a[i] {
            assert(splits_at(b@, a@, i as int));
            return Rel::After;
        }
        i += 1;
    }
    if i < b.len() {
        assert(splits_at(a@, b@, i as int));
        Rel::Before
    } else if i < a.len() {
        assert(splits_at(b@, a@, i as int));
        Rel::After
    } else {
        assert(a@ =~= b@);
        Rel::Same
    }
}

/// Whether the name `a` comes before the name `b`: names are ordered as their
/// UTF-8 bytes are.
pub open spec fn id_lt(a: Seq<char>, b: Seq<char>) -> bool {
    bytes_lt(encode_utf8(a), encode_utf8(b))
}

/// Two names with the same bytes are the same name.
pub proof fn lemma_id_bytes(a: Seq<char>, b: Seq<char>)
    ensures
        encode_utf8(a) == encode_utf8(b) <==> a == b,
{
    vstd::utf8::encode_utf8_decode_utf8(a);
    vstd::utf8::encode_utf8_decode_utf8(b);
}

/// The order in which an index stacks layers: by the start of the positions,
/// a delta before an image that starts with it, then by the end of the
/// positions, by the key range and at last by the name.
pub open spec fn layer_lt(a: LayerView, b: LayerView) -> bool {
    if a.lsn.start@ != b.lsn.start@ {
        a.lsn.start@ < b.lsn.start@
    } else if a.is_incremental != b.is_incremental {
        a.is_incremental
    } else if a.lsn.end@ != b.lsn.end@ {
        a.lsn.end@ < b.lsn.end@
    } else if a.key.start@ != b.key.start@ {
        a.key.start@ < b.key.start@
    } else if a.key.end@ != b.key.end@ {
        a.key.end@ < b.key.end@
    } else {
        id_lt(a.short_id, b.short_id)
    }
}

/// `layer_lt` is a strict order in which any two different layers compare.
pub proof fn lemma_layer_lt_strict(a: LayerView, b: LayerView)
    ensures
        !layer_lt(a, a),
        !(layer_lt(a, b) && layer_lt(b, a)),
{
    lemma_bytes_lt_irreflexive(encode_utf8(a.short_id));
    lemma_bytes_lt_asymmetric(encode_utf8(a.short_id), encode_utf8(b.short_id));
}

/// Of two different layers one comes before the other.
pub proof fn lemma_layer_lt_total(a: LayerView, b: LayerView)
    ensures
        a == b || layer_lt(a, b) || layer_lt(b, a),
{
    lemma_bytes_lt_total(encode_utf8(a.short_id), encode_utf8(b.short_id));
    lemma_id_bytes(a.short_id, b.short_id);
    lemma_key_order(a.key.start, b.key.start);
    lemma_key_order(a.key.end, b.key.end);
}

/// What comes before a layer comes before all that the layer comes before.
pub proof fn lemma_layer_lt_transitive(a: LayerView, b: LayerView, c: LayerView)
    requires
        layer_lt(a, b),
        layer_lt(b, c),
    ensures
        layer_lt(a, c),
{
    if id_lt(a.short_id, b.short_id) && id_lt(b.short_id, c.short_id) {
        lemma_bytes_lt_transitive(
            encode_utf8(a.short_id),
            encode_utf8(b.short_id),
            encode_utf8(c.short_id),
        );
    }
}

impl LayerDescriptor {
    /// Describes an image layer that holds the keys of `key` as of `lsn`.
    /// `None` where no position follows `lsn`.
    pub fn image(key: KeyRange, lsn: Lsn, short_id: String) -> (r: Option<LayerDescriptor>)
        ensures
            r.is_some() <==> lsn@ < u64::MAX,
            r matches Some(l) ==> l@ == (LayerView {
                key,
                lsn: LsnRange { start: lsn, end: Lsn((lsn.0 + 1) as u64) },
                is_incremental: false,
                short_id: short_id@,
            }),
    {
        match lsn.checked_add(1) {
            Some(end) => Some(
                LayerDescriptor {
                    key,
                    lsn: LsnRange { start: lsn, end },
                    is_incremental: false,
                    short_id,
                },
            ),
            None => None,
        }
    }

    /// Describes a delta layer that holds the changes to the keys of `key`
    /// made at the positions of `lsn`.
    pub fn delta(key: KeyRange, lsn: LsnRange, short_id: String) -> (r: LayerDescriptor)
        ensures
            r@ == (LayerView { key, lsn, is_incremental: true, short_id: short_id@ }),
    {
        LayerDescriptor { key, lsn, is_incremental: true, short_id }
    }

    /// The keys that the layer holds.
    pub fn key_range(&self) -> (r: KeyRange)
        ensures
            r == self@.key,
    {
        self.key
    }

    /// The log positions that the layer spans.
    pub fn lsn_range(&self) -> (r: LsnRange)
        ensures
            r == self@.lsn,
    {
        self.lsn
    }

    /// Whether the layer holds changes, as a delta layer does, and not
    /// whole values, as an image layer does.
    pub fn is_incremental(&self) -> (r: bool)
        ensures
            r == self@.is_incremental,
    {
        self.is_incremental
    }

    /// The name of the layer, for people to read.
    pub fn short_id(&self) -> (r: &str)
        ensures
            r@ == self@.short_id,
    {
        self.short_id.as_str()
    }

    /// Says what, if anything, keeps an index from taking this layer.
    pub fn validate(&self) -> (r: Result<(), ConstructionError>)
        ensures
            r == match self@.rejection() {
                Some(e) => Err::<(), ConstructionError>(e),
                None => Ok(()),
            },
    {
        if self.key.is_empty() {
            Err(ConstructionError::EmptyKeyRange)
        } else if self.lsn.is_empty() {
            Err(ConstructionError::InvertedLsnRange)
        } else if !self.is_incremental && self.lsn.end.0 - self.lsn.start.0 != 1 {
            Err(ConstructionError::ImageSpansPositions)
        } else {
            Ok(())
        }
    }

    /// A descriptor equal to this one.
    pub fn duplicate(&self) -> (r: LayerDescriptor)
        ensures
            r@ == self@,
    {
        LayerDescriptor {
            key: self.key,
            lsn: self.lsn,
            is_incremental: self.is_incremental,
            short_id: self.short_id.clone(),
        }
    }

    /// Where this layer stands to `other` in the order of `layer_lt`.
    pub fn order(&self, other: &LayerDescriptor) -> (r: Rel)
        ensures
            r == Rel::Before <==> layer_lt(self@, other@),
            r == Rel::Same <==> self@ == other@,
            r == Rel::After <==> layer_lt(other@, self@),
    {
        proof {
            lemma_layer_lt_strict(self@, other@);
            lemma_id_bytes(self@.short_id, other@.short_id);
            lemma_key_order(self.key.start, other.key.start);
            lemma_key_order(self.key.end, other.key.end);
        }
        if self.lsn.start.0 != other.lsn.start.0 {
            if self.lsn.start.0 < other.lsn.start.0 {
                Rel::Before
            } else {
                Rel::After
            }
        } else if self.is_incremental != other.is_incremental {
            if self.is_incremental {
                Rel::Before
            } else {
                Rel::After
            }
        } else if self.lsn.end.0 != other.lsn.end.0 {
            if self.lsn.end.0 < other.lsn.end.0 {
                Rel::Before
            } else {
                Rel::After
            }
        } else if self.key.start != other.key.start {
            if self.key.start.lt(&other.key.start) {
                Rel::Before
            } else {
                Rel::After
            }
        } else if self.key.end != other.key.end {
            if self.key.end.lt(&other.key.end) {
                Rel::Before
            } else {
                Rel::After
            }
        } else {
            let r = order_bytes(self.short_id.as_str().as_bytes(), other.short_id.as_str().as_bytes());
            assert(self@ == other@ <==> self@.short_id == other@.short_id);
            r
        }
    }
}

} // verus!
