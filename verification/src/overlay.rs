//! The layers that are not yet part of the historic index: the one that is
//! being written and those that wait to be written out.
use crate::key::Key;
use crate::layer::{ConstructionError, LayerDescriptor, LayerView};
use crate::lsn::Lsn;
use crate::sorted::layer_views;
use vstd::prelude::*;

verus! {

/// The newest layer of `layers` that holds `key` at `lsn`, where the list
/// runs from the oldest layer to the newest.
pub open spec fn newest_covering(layers: Seq<LayerView>, key: Key, lsn: Lsn) -> Option<LayerView>
    decreases layers.len(),
{
    if layers.len() == 0 {
        None
    } else if layers.last().covers(key, lsn) {
        Some(layers.last())
    } else {
        newest_covering(layers.drop_last(), key, lsn)
    }
}

/// What `newest_covering` finds is a layer of the list that holds the point,
/// and it finds one wherever the list has one.
pub proof fn lemma_newest_covering(layers: Seq<LayerView>, key: Key, lsn: Lsn)
    ensures
        newest_covering(layers, key, lsn) matches Some(l) ==> layers.contains(l) && l.covers(
            key,
            lsn,
        ),
        newest_covering(layers, key, lsn).is_none() ==> forall|i: int|
            0 <= i < layers.len() ==> !(#[trigger] layers[i]).covers(key, lsn),
    decreases layers.len(),
{
    if layers.len() > 0 {
        let rest = layers.drop_last();
        lemma_newest_covering(rest, key, lsn);
        if layers.last().covers(key, lsn) {
            assert(layers[layers.len() - 1] == layers.last());
        } else {
            match newest_covering(rest, key, lsn) {
                Some(l) => {
                    let i = choose|i: int| 0 <= i < rest.len() && rest[i] == l;
                    assert(layers[i] == l);
                },
                None => {
                    assert forall|i: int| 0 <= i < layers.len() implies !(
                    #[trigger] layers[i]).covers(key, lsn) by {
                        if i < rest.len() {
                            assert(rest[i] == layers[i]);
                        }
                    }
                },
            }
        }
    }
}

/// The newest layer of `layers` that holds `key` and starts at or before
/// `lsn`, where the list runs from the oldest layer to the newest.
pub open spec fn newest_reaching(layers: Seq<LayerView>, key: Key, lsn: Lsn) -> Option<LayerView>
    decreases layers.len(),
{
    if layers.len() == 0 {
        None
    } else if layers.last().reaches(key, lsn) {
        Some(layers.last())
    } else {
        newest_reaching(layers.drop_last(), key, lsn)
    }
}

/// What `newest_reaching` finds is a layer of the list that reaches the
/// point, and it finds one wherever the list has one.
pub proof fn lemma_newest_reaching(layers: Seq<LayerView>, key: Key, lsn: Lsn)
    ensures
        newest_reaching(layers, key, lsn) matches Some(l) ==> layers.contains(l) && l.reaches(
            key,
            lsn,
        ),
        newest_reaching(layers, key, lsn).is_none() ==> forall|i: int|
            0 <= i < layers.len() ==> !(#[trigger] layers[i]).reaches(key, lsn),
    decreases layers.len(),
{
    if layers.len() > 0 {
        let rest = layers.drop_last();
        lemma_newest_reaching(rest, key, lsn);
        if layers.last().reaches(key, lsn) {
            assert(layers[layers.len() - 1] == layers.last());
        } else {
            match newest_reaching(rest, key, lsn) {
                Some(l) => {
                    let i = choose|i: int| 0 <= i < rest.len() && rest[i] == l;
                    assert(layers[i] == l);
                },
                None => {
                    assert forall|i: int| 0 <= i < layers.len() implies !(
                    #[trigger] layers[i]).reaches(key, lsn) by {
                        if i < rest.len() {
                            assert(rest[i] == layers[i]);
                        }
                    }
                },
            }
        }
    }
}

/// The overlay: a short list of layers, from the oldest to the newest. The
/// newest is the one that is being written.
pub struct Overlay {
    layers: Vec<LayerDescriptor>,
}

impl View for Overlay {
    type V = Seq<LayerView>;

    closed spec fn view(&self) -> Seq<LayerView> {
        layer_views(self.layers@)
    }
}

impl Overlay {
    /// The overlay of no layers.
    pub fn new() -> (s: Overlay)
        ensures
            s@ == Seq::<LayerView>::empty(),
    {
        let s = Overlay { layers: Vec::new() };
        assert(s@ =~= Seq::<LayerView>::empty());
        s
    }

    /// The number of layers.
    pub fn len(&self) -> (n: usize)
        ensures
            n == self@.len(),
    {
        self.layers.len()
    }

    /// Takes `layer` as the newest layer. A malformed layer is refused and
    /// changes nothing.
    pub fn push(&mut self, layer: LayerDescriptor) -> (r: Result<(), ConstructionError>)
        ensures
            match r {
                Ok(()) => layer@.rejection().is_none() && final(self)@ == old(self)@.push(layer@),
                Err(e) => layer@.rejection() == Some(e) && final(self)@ == old(self)@,
            },
    {
        match layer.validate() {
            Err(e) => Err(e),
            Ok(()) => {
                self.layers.push(layer);
                assert(self@ =~= old(self)@.push(layer@));
                Ok(())
            },
        }
    }

    /// Takes the oldest layer out and hands it over. `None` where the
    /// overlay is empty.
    pub fn pop_oldest(&mut self) -> (r: Option<LayerDescriptor>)
        ensures
            match r {
                Some(l) => {
                    &&& old(self)@.len() > 0
                    &&& l@ == old(self)@[0]
                    &&& final(self)@ == old(self)@.drop_first()
                },
                None => old(self)@.len() == 0 && final(self)@ == old(self)@,
            },
    {
        if self.layers.len() == 0 {
            return None;
        }
        let l = self.layers.remove(0);
        assert(self@ =~= old(self)@.drop_first());
        Some(l)
    }

    /// The newest layer that holds `key` and starts at or before `lsn`.
    pub fn find_reaching(&self, key: Key, lsn: Lsn) -> (r: Option<&LayerDescriptor>)
        ensures
            match r {
                Some(l) => newest_reaching(self@, key, lsn) == Some(l@),
                None => newest_reaching(self@, key, lsn).is_none(),
            },
    {
        let ghost all = self@;
        let mut t: usize = self.layers.len();
        assert(all.take(t as int) =~= all);
        while t > 0
            invariant
                t <= self.layers@.len(),
                all == self@,
                newest_reaching(all, key, lsn) == newest_reaching(all.take(t as int), key, lsn),
            decreases t,
        {
            t -= 1;
            let l = &self.layers[t];
            assert(all.take(t + 1).last() == l@);
            assert(all.take(t + 1).drop_last() =~= all.take(t as int));
            if l.key.contains(key) && l.lsn.start.0 <= lsn.0 {
                return Some(l);
            }
        }
        None
    }

    /// The newest layer that holds `key` at `lsn`.
    pub fn find_covering(&self, key: Key, lsn: Lsn) -> (r: Option<&LayerDescriptor>)
        ensures
            match r {
                Some(l) => newest_covering(self@, key, lsn) == Some(l@),
                None => newest_covering(self@, key, lsn).is_none(),
            },
    {
        let ghost all = self@;
        let mut t: usize = self.layers.len();
        assert(all.take(t as int) =~= all);
        while t > 0
            invariant
                t <= self.layers@.len(),
                all == self@,
                newest_covering(all, key, lsn) == newest_covering(all.take(t as int), key, lsn),
            decreases t,
        {
            t -= 1;
            let l = &self.layers[t];
            assert(all.take(t + 1).last() == l@);
            assert(all.take(t + 1).drop_last() =~= all.take(t as int));
            if l.key.contains(key) && l.lsn.contains(lsn) {
                return Some(l);
            }
        }
        None
    }
}

} // verus!
