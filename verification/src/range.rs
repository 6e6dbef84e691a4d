//! Half-open ranges of keys and of log positions.
use crate::key::Key;
use crate::lsn::Lsn;
use vstd::prelude::*;

verus! {

/// The keys from `start` up to, and not including, `end`.
#[derive(Clone, Copy, Debug, PartialEq, Eq, Structural, Hash)]
pub struct KeyRange {
    pub start: Key,
    pub end: Key,
}

impl KeyRange {
    /// Whether the range holds no key.
    pub open spec fn spec_is_empty(&self) -> bool {
        self.end@ <= self.start@
    }

    /// Whether `key` lies in the range.
    pub open spec fn spec_contains(&self, key: Key) -> bool {
        self.start@ <= key@ < self.end@
    }

    /// Whether the two ranges share a key.
    pub open spec fn spec_overlaps(&self, other: &KeyRange) -> bool {
        exists|k: Key| self.spec_contains(k) && other.spec_contains(k)
    }

    /// Whether every key of `other` lies in this range.
    pub open spec fn spec_includes(&self, other: &KeyRange) -> bool {
        forall|k: Key| other.spec_contains(k) ==> self.spec_contains(k)
    }

    /// The keys from `start` up to, and not including, `end`.
    pub fn new(start: Key, end: Key) -> (r: KeyRange)
        ensures
            r.start == start,
            r.end == end,
    {
        KeyRange { start, end }
    }

    /// Whether the range holds no key.
    #[verifier::when_used_as_spec(spec_is_empty)]
    pub fn is_empty(&self) -> (r: bool)
        ensures
            r == self.spec_is_empty(),
    {
        self.end.le(&self.start)
    }

    /// Whether `key` lies in the range.
    #[verifier::when_used_as_spec(spec_contains)]
    pub fn contains(&self, key: Key) -> (r: bool)
        ensures
            r == self.spec_contains(key),
    {
        self.start.le(&key) && key.lt(&self.end)
    }

    /// Whether the two ranges share a key.
    #[verifier::when_used_as_spec(spec_overlaps)]
    pub fn overlaps(&self, other: &KeyRange) -> (r: bool)
        ensures
            r == self.spec_overlaps(other),
    {
        let r = self.start.lt(&self.end) && other.start.lt(&other.end) && self.start.lt(&other.end)
            && other.start.lt(&self.end);
        proof {
            if r {
                let k = if self.start@ <= other.start@ {
                    other.start
                } else {
                    self.start
                };
                assert(self.spec_contains(k) && other.spec_contains(k));
            }
        }
        r
    }

    /// Whether every key of `other` lies in this range.
    #[verifier::when_used_as_spec(spec_includes)]
    pub fn includes(&self, other: &KeyRange) -> (r: bool)
        ensures
            r == self.spec_includes(other),
    {
        if other.end.le(&other.start) {
            return true;
        }
        let r = self.start.le(&other.start) && other.end.le(&self.end);
        proof {
            if !r {
                if other.start@ < self.start@ {
                    assert(other.spec_contains(other.start));
                } else {
                    let last = lemma_last_key(*other);
                    assert(other.spec_contains(last));
                    assert(!self.spec_contains(last));
                }
            }
        }
        r
    }
}

/// A range that is not empty has a greatest key.
pub proof fn lemma_last_key(r: KeyRange) -> (k: Key)
    requires
        !r.spec_is_empty(),
    ensures
        r.spec_contains(k),
        k@ + 1 == r.end@,
{
    if r.end.lo > 0 {
        Key { hi: r.end.hi, lo: (r.end.lo - 1) as u128 }
    } else {
        Key { hi: (r.end.hi - 1) as u16, lo: u128::MAX }
    }
}

/// The log positions from `start` up to, and not including, `end`.
#[derive(Clone, Copy, Debug, PartialEq, Eq, Structural, Hash)]
pub struct LsnRange {
    pub start: Lsn,
    pub end: Lsn,
}

impl LsnRange {
    /// Whether the range holds no position.
    pub open spec fn spec_is_empty(&self) -> bool {
        self.end@ <= self.start@
    }

    /// Whether `lsn` lies in the range.
    pub open spec fn spec_contains(&self, lsn: Lsn) -> bool {
        self.start@ <= lsn@ < self.end@
    }

    /// The positions from `start` up to, and not including, `end`.
    pub fn new(start: Lsn, end: Lsn) -> (r: LsnRange)
        ensures
            r.start == start,
            r.end == end,
    {
        LsnRange { start, end }
    }

    /// Whether the range holds no position.
    #[verifier::when_used_as_spec(spec_is_empty)]
    pub fn is_empty(&self) -> (r: bool)
        ensures
            r == self.spec_is_empty(),
    {
        self.end.0 <= self.start.0
    }

    /// Whether `lsn` lies in the range.
    #[verifier::when_used_as_spec(spec_contains)]
    pub fn contains(&self, lsn: Lsn) -> (r: bool)
        ensures
            r == self.spec_contains(lsn),
    {
        self.start.0 <= lsn.0 && lsn.0 < self.end.0
    }
}

} // verus!
