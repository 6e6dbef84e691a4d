//! The layer map of one timeline: the overlay of layers that are still in
//! memory, over the index of the historic layers.
use crate::batch::{apply_ops, OpView};
use crate::difficulty::difficulty;
use crate::historic::HistoricIndex;
use crate::key::Key;
use crate::keyspace::KeyPartitioning;
use crate::layer::{ConstructionError, InvariantViolation, LayerDescriptor, LayerView};
use crate::lsn::Lsn;
use crate::overlay::{newest_covering, newest_reaching, Overlay};
use crate::query::{lemma_search_in, search_in};
use crate::sorted::{all_wf, has_twins, layer_views, strictly_sorted};
use vstd::prelude::*;

verus! {

/// A layer map as contracts see it.
pub struct LayerMapView {
    /// The overlay, from its oldest layer to its newest.
    pub overlay: Seq<LayerView>,
    /// The historic layers.
    pub historic: Set<LayerView>,
}

impl LayerMapView {
    /// What a search for `key` at `lsn` answers. A layer that holds the
    /// point comes before one that holds the key and ends before `lsn`, and
    /// of two layers that are alike in this, one of the overlay comes before
    /// a historic one. So the answer is the newest layer of the overlay that
    /// holds the point; else the best historic layer, where it holds the
    /// point; else the newest layer of the overlay that holds the key and
    /// starts at or before `lsn`; else the best historic layer, if there is
    /// one.
    pub open spec fn search(self, key: Key, lsn: Lsn) -> Option<LayerView> {
        let held = newest_covering(self.overlay, key, lsn);
        let reached = newest_reaching(self.overlay, key, lsn);
        let historic = search_in(self.historic, key, lsn);
        if held.is_some() {
            held
        } else if historic.is_some() && historic.unwrap().lsn.spec_contains(lsn) {
            historic
        } else if reached.is_some() {
            reached
        } else {
            historic
        }
    }

    /// The map with `l` among its historic layers.
    pub open spec fn with_historic(self, l: LayerView) -> LayerMapView {
        LayerMapView { overlay: self.overlay, historic: self.historic.insert(l) }
    }

    /// The map without `l` among its historic layers.
    pub open spec fn without_historic(self, l: LayerView) -> LayerMapView {
        LayerMapView { overlay: self.overlay, historic: self.historic.remove(l) }
    }
}

/// What a search has found.
pub struct SearchResult<'a> {
    /// The layer that holds the version asked for, or the last changes to it.
    pub layer: &'a LayerDescriptor,
    /// Where the layer is a delta layer, the position from which to search
    /// on for what came before its changes. `None` for an image layer, which
    /// holds whole values.
    pub lsn_floor: Option<Lsn>,
}

/// The layers of one timeline.
///
/// Historic layers are inserted and removed in two steps: `insert_historic`
/// and `remove_historic` put the change down in a batch, which costs the
/// same whatever the map holds, and `rebuild_index` compiles the index with
/// all the changes of the batch at once. Searches and listings answer for
/// the layers that the map holds, the changes of the batch among them, at
/// every time; a search is fast once the index is rebuilt.
pub struct LayerMap {
    overlay: Overlay,
    historic: HistoricIndex,
}

impl View for LayerMap {
    type V = LayerMapView;

    closed spec fn view(&self) -> LayerMapView {
        LayerMapView { overlay: self.overlay@, historic: self.historic@ }
    }
}

impl LayerMap {
    /// What holds of every map that `new` makes and the methods keep.
    pub closed spec fn wf(&self) -> bool {
        self.historic.wf()
    }

    /// The historic layers as they were last compiled.
    pub closed spec fn compiled(&self) -> Set<LayerView> {
        self.historic.compiled()
    }

    /// The insertions and removals of historic layers made since.
    pub closed spec fn pending(&self) -> Seq<OpView> {
        self.historic.pending()
    }

    /// Whether `after` is what `rebuild_index` makes of `before` when it
    /// answers `r`.
    pub open spec fn rebuilt(
        before: LayerMap,
        after: LayerMap,
        r: Result<(), InvariantViolation>,
    ) -> bool {
        &&& after.wf()
        &&& after@ == before@
        &&& match r {
            Ok(()) => {
                &&& !has_twins(before@.historic)
                &&& after.compiled() == before@.historic
                &&& after.pending() == Seq::<OpView>::empty()
            },
            Err(e) => {
                &&& has_twins(before@.historic)
                &&& e == InvariantViolation::TwinImages
                &&& after.compiled() == before.compiled()
                &&& after.pending() == before.pending()
            },
        }
    }

    /// The historic layers of a map are those that were compiled, changed
    /// as the batch says.
    pub proof fn lemma_batch(&self)
        ensures
            self@.historic == apply_ops(self.compiled(), self.pending()),
    {
    }

    /// A map holds finitely many historic layers, each of them well formed.
    pub proof fn lemma_historic(&self)
        requires
            self.wf(),
        ensures
            self@.historic.finite(),
            forall|l: LayerView| #[trigger] self@.historic.contains(l) ==> l.wf(),
    {
        self.historic.lemma_view();
    }

    /// The map of no layers.
    pub fn new() -> (s: LayerMap)
        ensures
            s.wf(),
            s@.overlay == Seq::<LayerView>::empty(),
            s@.historic == Set::<LayerView>::empty(),
            s.compiled() == Set::<LayerView>::empty(),
            s.pending() == Seq::<OpView>::empty(),
    {
        LayerMap { overlay: Overlay::new(), historic: HistoricIndex::new() }
    }

    /// Inserts a historic layer. The insertion is put down in the batch, and
    /// the compiled index is left alone until `rebuild_index`. A malformed
    /// layer is refused, and the map stays as it was.
    pub fn insert_historic(&mut self, layer: LayerDescriptor) -> (r: Result<(), ConstructionError>)
        requires
            old(self).wf(),
        ensures
            final(self).wf(),
            final(self).compiled() == old(self).compiled(),
            match r {
                Ok(()) => {
                    &&& layer@.rejection().is_none()
                    &&& final(self)@ == old(self)@.with_historic(layer@)
                    &&& final(self).pending() == old(self).pending().push(
                        OpView { layer: layer@, insert: true },
                    )
                },
                Err(e) => {
                    &&& layer@.rejection() == Some(e)
                    &&& final(self)@ == old(self)@
                    &&& final(self).pending() == old(self).pending()
                },
            },
    {
        self.historic.insert(layer)
    }

    /// Removes a historic layer. The removal is put down in the batch, and
    /// the compiled index is left alone until `rebuild_index`. A malformed
    /// layer is refused, and the map stays as it was.
    pub fn remove_historic(&mut self, layer: LayerDescriptor) -> (r: Result<(), ConstructionError>)
        requires
            old(self).wf(),
        ensures
            final(self).wf(),
            final(self).compiled() == old(self).compiled(),
            match r {
                Ok(()) => {
                    &&& layer@.rejection().is_none()
                    &&& final(self)@ == old(self)@.without_historic(layer@)
                    &&& final(self).pending() == old(self).pending().push(
                        OpView { layer: layer@, insert: false },
                    )
                },
                Err(e) => {
                    &&& layer@.rejection() == Some(e)
                    &&& final(self)@ == old(self)@
                    &&& final(self).pending() == old(self).pending()
                },
            },
    {
        self.historic.remove(layer)
    }

    /// Compiles the historic layers anew and empties the batch. The layers
    /// of the map stay the same. With an empty batch nothing is done. Where
    /// two image layers hold the same keys at the same position the map
    /// stays as it was, batch and all.
    pub fn rebuild_index(&mut self) -> (r: Result<(), InvariantViolation>)
        requires
            old(self).wf(),
        ensures
            LayerMap::rebuilt(*old(self), *final(self), r),
    {
        self.historic.rebuild()
    }

    /// Takes `layer` as the newest layer of the overlay. A malformed layer
    /// is refused, and the map stays as it was.
    pub fn insert_overlay(&mut self, layer: LayerDescriptor) -> (r: Result<(), ConstructionError>)
        requires
            old(self).wf(),
        ensures
            final(self).wf(),
            final(self).compiled() == old(self).compiled(),
            final(self).pending() == old(self).pending(),
            final(self)@.historic == old(self)@.historic,
            match r {
                Ok(()) => {
                    &&& layer@.rejection().is_none()
                    &&& final(self)@.overlay == old(self)@.overlay.push(layer@)
                },
                Err(e) => {
                    &&& layer@.rejection() == Some(e)
                    &&& final(self)@.overlay == old(self)@.overlay
                },
            },
    {
        self.overlay.push(layer)
    }

    /// Takes the oldest layer out of the overlay and hands it over, to be
    /// inserted as a historic layer once it is written. `None` where the
    /// overlay is empty.
    pub fn retire_overlay(&mut self) -> (r: Option<LayerDescriptor>)
        requires
            old(self).wf(),
        ensures
            final(self).wf(),
            final(self).compiled() == old(self).compiled(),
            final(self).pending() == old(self).pending(),
            final(self)@.historic == old(self)@.historic,
            match r {
                Some(l) => {
                    &&& old(self)@.overlay.len() > 0
                    &&& l@ == old(self)@.overlay[0]
                    &&& final(self)@.overlay == old(self)@.overlay.drop_first()
                },
                None => {
                    &&& old(self)@.overlay.len() == 0
                    &&& final(self)@.overlay == old(self)@.overlay
                },
            },
    {
        self.overlay.pop_oldest()
    }

    /// Finds the layer in which to read `key` as of `lsn`: of the layers
    /// that hold `key` and start at or before `lsn`, the one that comes
    /// first when a layer that holds `lsn` goes before one that ends before
    /// it, a layer of the overlay before a historic layer, a newer layer of
    /// the overlay before an older, and among historic layers the one that
    /// `preferred` puts first. `None` where no layer holds `key` and starts
    /// at or before `lsn`. With the layer comes the position at which to go
    /// on: the start of a delta layer, and none for an image layer.
    pub fn search(&self, key: Key, lsn: Lsn) -> (r: Option<SearchResult<'_>>)
        requires
            self.wf(),
        ensures
            match r {
                Some(found) => self@.search(key, lsn) == Some(found.layer@) && found.lsn_floor
                    == found.layer@.resume_at(),
                None => self@.search(key, lsn).is_none(),
            },
    {
        proof {
            lemma_search_in(self@.historic, key, lsn);
        }
        let layer = match self.overlay.find_covering(key, lsn) {
            Some(held) => held,
            None => {
                let historic = self.historic.search(key, lsn);
                let settled = match historic {
                    Some(h) => h.lsn.contains(lsn),
                    None => false,
                };
                let reached = if settled {
                    None
                } else {
                    self.overlay.find_reaching(key, lsn)
                };
                match reached {
                    Some(o) => o,
                    None => match historic {
                        Some(h) => h,
                        None => {
                            return None;
                        },
                    },
                }
            },
        };
        let lsn_floor = if layer.is_incremental {
            Some(layer.lsn.start)
        } else {
            None
        };
        Some(SearchResult { layer, lsn_floor })
    }

    /// The historic layers of the map, each once, in stacking order. Layers
    /// that the batch inserts are among them, and layers that it removes
    /// are not.
    pub fn iter_historic_layers(&self) -> (list: Vec<LayerDescriptor>)
        requires
            self.wf(),
        ensures
            strictly_sorted(layer_views(list@)),
            all_wf(layer_views(list@)),
            layer_views(list@).to_set() == self@.historic,
    {
        self.historic.layers()
    }

    /// The difficulty at `lsn` of each part of `partitioning`, in their
    /// order: the number of delta layers among the historic layers that a
    /// reader of the part may have to go through.
    pub fn get_difficulty_map(&self, lsn: Lsn, partitioning: &KeyPartitioning) -> (r: Vec<usize>)
        requires
            self.wf(),
        ensures
            r@.len() == partitioning.parts@.len(),
            forall|i: int|
                0 <= i < partitioning.parts@.len() ==> (#[trigger] r@[i]) == difficulty(
                    self@.historic,
                    partitioning.parts@[i],
                    lsn,
                ),
    {
        self.historic.difficulty_map(lsn, &partitioning.parts)
    }
}

impl Default for LayerMap {
    fn default() -> (s: LayerMap)
        ensures
            s.wf(),
            s@.overlay == Seq::<LayerView>::empty(),
            s@.historic == Set::<LayerView>::empty(),
    {
        LayerMap::new()
    }
}

} // verus!
