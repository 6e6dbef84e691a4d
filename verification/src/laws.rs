//! What holds of every layer map, whatever was done to it.
use crate::difficulty::{counted, difficulty};
use crate::key::Key;
use crate::layer::{InvariantViolation, LayerView};
use crate::layer_map::{LayerMap, LayerMapView};
use crate::lsn::Lsn;
use crate::overlay::{
    lemma_newest_covering, lemma_newest_reaching, newest_covering, newest_reaching,
};
use crate::query::{is_best, lemma_best_exists, lemma_search_in, none_reaches, search_in};
use crate::range::KeyRange;
use vstd::prelude::*;

verus! {

/// The map that `m` becomes when the layers of a list are inserted as
/// historic layers, one after the other.
pub open spec fn insert_all(m: LayerMapView, layers: Seq<LayerView>) -> LayerMapView
    decreases layers.len(),
{
    if layers.len() == 0 {
        m
    } else {
        insert_all(m, layers.drop_last()).with_historic(layers.last())
    }
}

/// Inserting a list of layers adds its members to the historic layers and
/// leaves the overlay alone.
pub proof fn lemma_insert_all(m: LayerMapView, layers: Seq<LayerView>)
    ensures
        insert_all(m, layers).overlay == m.overlay,
        insert_all(m, layers).historic == m.historic.union(layers.to_set()),
    decreases layers.len(),
{
    if layers.len() == 0 {
        assert(m.historic =~= m.historic.union(layers.to_set()));
    } else {
        let rest = layers.drop_last();
        lemma_insert_all(m, rest);
        assert forall|l: LayerView| layers.contains(l) <==> (rest.contains(l) || l
            == layers.last()) by {
            if layers.contains(l) {
                let i = choose|i: int| 0 <= i < layers.len() && layers[i] == l;
                if i < rest.len() {
                    assert(rest[i] == l);
                }
            }
            if rest.contains(l) {
                let i = choose|i: int| 0 <= i < rest.len() && rest[i] == l;
                assert(layers[i] == l);
            }
            if l == layers.last() {
                assert(layers[layers.len() - 1] == l);
            }
        }
        assert(insert_all(m, layers).historic =~= m.historic.union(layers.to_set()));
    }
}

/// Whether `rebuild_index` compiles or refuses is a matter of the historic
/// layers alone.
proof fn lemma_same_answer(
    s: Set<LayerView>,
    ra: Result<(), InvariantViolation>,
    rb: Result<(), InvariantViolation>,
)
    requires
        ra.is_ok() <==> !crate::sorted::has_twins(s),
        rb.is_ok() <==> !crate::sorted::has_twins(s),
        ra matches Err(e) ==> e == InvariantViolation::TwinImages,
        rb matches Err(e) ==> e == InvariantViolation::TwinImages,
    ensures
        ra == rb,
{
    match (ra, rb) {
        (Ok(x), Ok(y)) => {
            assert(x == y);
        },
        (Err(x), Err(y)) => {
            assert(x == y);
        },
        _ => {},
    }
}

/// Rebuilding keeps every answer: a search in the map that `rebuild_index`
/// leaves finds what it found before, whether the index was compiled or the
/// map was sent back as it was.
pub proof fn lemma_rebuild_keeps_answers(
    before: LayerMap,
    after: LayerMap,
    r: Result<(), InvariantViolation>,
    key: Key,
    lsn: Lsn,
)
    requires
        LayerMap::rebuilt(before, after, r),
    ensures
        after@.search(key, lsn) == before@.search(key, lsn),
{
}

/// Rebuilding twice is rebuilding once: the second of two calls of
/// `rebuild_index` that follow each other answers as the first did, and
/// leaves the compiled index, the batch and every answer of a search as the
/// first left them.
pub proof fn lemma_rebuild_idempotent(
    m0: LayerMap,
    m1: LayerMap,
    m2: LayerMap,
    r1: Result<(), InvariantViolation>,
    r2: Result<(), InvariantViolation>,
    key: Key,
    lsn: Lsn,
)
    requires
        LayerMap::rebuilt(m0, m1, r1),
        LayerMap::rebuilt(m1, m2, r2),
    ensures
        r2 == r1,
        m2@ == m1@,
        m2.compiled() == m1.compiled(),
        m2.pending() == m1.pending(),
        m2@.search(key, lsn) == m1@.search(key, lsn),
{
    lemma_same_answer(m0@.historic, r1, r2);
}

/// The order of insertion does not matter: where two lists hold the same
/// layers, inserting the one or the other into a map and rebuilding ends in
/// maps that answer every search alike, and the two calls of `rebuild_index`
/// answer alike.
pub proof fn lemma_order_independence(
    start: LayerMapView,
    a: Seq<LayerView>,
    b: Seq<LayerView>,
    filled_a: LayerMap,
    filled_b: LayerMap,
    rebuilt_a: LayerMap,
    rebuilt_b: LayerMap,
    ra: Result<(), InvariantViolation>,
    rb: Result<(), InvariantViolation>,
    key: Key,
    lsn: Lsn,
)
    requires
        a.to_set() == b.to_set(),
        filled_a@ == insert_all(start, a),
        filled_b@ == insert_all(start, b),
        LayerMap::rebuilt(filled_a, rebuilt_a, ra),
        LayerMap::rebuilt(filled_b, rebuilt_b, rb),
    ensures
        insert_all(start, a) == insert_all(start, b),
        ra == rb,
        rebuilt_a@.search(key, lsn) == rebuilt_b@.search(key, lsn),
{
    lemma_insert_all(start, a);
    lemma_insert_all(start, b);
    lemma_same_answer(filled_a@.historic, ra, rb);
}

/// Containment: where a layer of the map holds `key` at `lsn`, a search for
/// that point finds a layer that holds `key` at `lsn`.
pub proof fn lemma_containment(m: LayerMap, l: LayerView, key: Key, lsn: Lsn)
    requires
        m.wf(),
        m@.historic.contains(l) || m@.overlay.contains(l),
        l.covers(key, lsn),
    ensures
        m@.search(key, lsn) matches Some(r) && r.covers(key, lsn),
{
    lemma_newest_covering(m@.overlay, key, lsn);
    if newest_covering(m@.overlay, key, lsn).is_none() {
        if m@.overlay.contains(l) {
            let i = choose|i: int| 0 <= i < m@.overlay.len() && m@.overlay[i] == l;
            assert(!m@.overlay[i].covers(key, lsn));
        }
        m.lemma_historic();
        lemma_best_exists(m@.historic, key, lsn);
        lemma_search_in(m@.historic, key, lsn);
    }
}

/// Absence: where no layer of the map holds `key` and starts at or before
/// `lsn`, a search for that point finds nothing.
pub proof fn lemma_absence(m: LayerMapView, key: Key, lsn: Lsn)
    requires
        forall|i: int| 0 <= i < m.overlay.len() ==> !(#[trigger] m.overlay[i]).reaches(key, lsn),
        forall|l: LayerView| #[trigger] m.historic.contains(l) ==> !l.reaches(key, lsn),
    ensures
        m.search(key, lsn).is_none(),
{
    lemma_newest_covering(m.overlay, key, lsn);
    lemma_newest_reaching(m.overlay, key, lsn);
    lemma_search_in(m.historic, key, lsn);
    if newest_covering(m.overlay, key, lsn).is_some() {
        let o = newest_covering(m.overlay, key, lsn).unwrap();
        let i = choose|i: int| 0 <= i < m.overlay.len() && m.overlay[i] == o;
        assert(m.overlay[i].reaches(key, lsn));
    }
    if newest_reaching(m.overlay, key, lsn).is_some() {
        let o = newest_reaching(m.overlay, key, lsn).unwrap();
        let i = choose|i: int| 0 <= i < m.overlay.len() && m.overlay[i] == o;
        assert(m.overlay[i].reaches(key, lsn));
    }
}

/// A search answers wherever a layer reaches the point: where some layer of
/// the map holds `key` and starts at or before `lsn`, a search for the point
/// finds a layer that does.
pub proof fn lemma_presence(m: LayerMap, l: LayerView, key: Key, lsn: Lsn)
    requires
        m.wf(),
        m@.historic.contains(l) || m@.overlay.contains(l),
        l.reaches(key, lsn),
    ensures
        m@.search(key, lsn) matches Some(r) && r.reaches(key, lsn),
{
    lemma_newest_covering(m@.overlay, key, lsn);
    lemma_newest_reaching(m@.overlay, key, lsn);
    lemma_search_in(m@.historic, key, lsn);
    m.lemma_historic();
    if m@.historic.contains(l) {
        lemma_best_exists(m@.historic, key, lsn);
    } else {
        let i = choose|i: int| 0 <= i < m@.overlay.len() && m@.overlay[i] == l;
        assert(m@.overlay[i].reaches(key, lsn));
    }
}

/// Difficulty does not fall with time: from `lsn1` to a later `lsn2` the
/// difficulty of a part stays or grows, unless an image layer that shares a
/// key with the part starts after `lsn1` and at or before `lsn2`.
pub proof fn lemma_difficulty_monotonic(m: LayerMap, part: KeyRange, lsn1: Lsn, lsn2: Lsn)
    requires
        m.wf(),
        lsn1@ < lsn2@,
        forall|i: LayerView|
            #[trigger] m@.historic.contains(i) && !i.is_incremental && i.key.spec_overlaps(&part)
                ==> !(lsn1@ < i.lsn.start@ <= lsn2@),
    ensures
        difficulty(m@.historic, part, lsn1) <= difficulty(m@.historic, part, lsn2),
{
    let s = m@.historic;
    let early = counted(s, part, lsn1);
    let late = counted(s, part, lsn2);
    m.lemma_historic();
    assert(late.subset_of(s));
    vstd::set_lib::lemma_set_subset_finite(s, late);
    assert forall|d: LayerView| early.contains(d) implies late.contains(d) by {
        if crate::difficulty::superseded(s, part, lsn2, d) {
            let i = choose|i: LayerView| #[trigger]
                s.contains(i) && crate::difficulty::covering_image(i, part, lsn2) && d.lsn.end@
                    <= i.lsn.end@;
            let k = choose|k: Key| d.key.spec_contains(k) && part.spec_contains(k);
            assert(i.key.spec_contains(k) && part.spec_contains(k));
            assert(i.key.spec_overlaps(&part));
            assert(crate::difficulty::covering_image(i, part, lsn1));
        }
    }
    vstd::set_lib::lemma_len_subset(early, late);
}

/// The overlay comes first: where a layer of the overlay holds `key` at
/// `lsn`, a search for the point finds the newest such layer of the overlay,
/// whatever the historic layers hold.
pub proof fn lemma_overlay_precedence(m: LayerMapView, o: LayerView, key: Key, lsn: Lsn)
    requires
        m.overlay.contains(o),
        o.covers(key, lsn),
    ensures
        m.search(key, lsn) == newest_covering(m.overlay, key, lsn),
        m.search(key, lsn) matches Some(r) && m.overlay.contains(r) && r.covers(key, lsn),
{
    lemma_newest_covering(m.overlay, key, lsn);
    if newest_covering(m.overlay, key, lsn).is_none() {
        let i = choose|i: int| 0 <= i < m.overlay.len() && m.overlay[i] == o;
        assert(!m.overlay[i].covers(key, lsn));
    }
}

/// The overlay is newer than the historic layers: where no historic layer
/// holds `key` at `lsn`, and a layer of the overlay holds `key` and starts
/// at or before `lsn`, a search for the point finds a layer of the overlay.
pub proof fn lemma_overlay_is_newer(m: LayerMap, o: LayerView, key: Key, lsn: Lsn)
    requires
        m.wf(),
        m@.overlay.contains(o),
        o.reaches(key, lsn),
        forall|l: LayerView| #[trigger] m@.historic.contains(l) ==> !l.covers(key, lsn),
    ensures
        m@.search(key, lsn) matches Some(r) && m@.overlay.contains(r) && r.reaches(key, lsn),
{
    lemma_newest_covering(m@.overlay, key, lsn);
    lemma_newest_reaching(m@.overlay, key, lsn);
    lemma_search_in(m@.historic, key, lsn);
    if newest_reaching(m@.overlay, key, lsn).is_none() {
        let i = choose|i: int| 0 <= i < m@.overlay.len() && m@.overlay[i] == o;
        assert(!m@.overlay[i].reaches(key, lsn));
    }
}

/// What a search among historic layers finds is preferred to every other
/// historic layer that reaches the point, and there is one such layer only.
pub proof fn lemma_answer_is_best(s: Set<LayerView>, key: Key, lsn: Lsn, r: LayerView)
    ensures
        search_in(s, key, lsn) == Some(r) <==> is_best(s, key, lsn, r),
        search_in(s, key, lsn).is_none() && s.finite() ==> none_reaches(s, key, lsn),
{
    lemma_search_in(s, key, lsn);
    if s.finite() && !none_reaches(s, key, lsn) {
        lemma_best_exists(s, key, lsn);
    }
}

} // verus!
