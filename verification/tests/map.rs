use pageserver::key::Key;
use pageserver::keyspace::KeyPartitioning;
use pageserver::layer::{ConstructionError, InvariantViolation, LayerDescriptor};
use pageserver::layer_map::LayerMap;
use pageserver::lsn::Lsn;
use pageserver::range::{KeyRange, LsnRange};

fn key(n: u32) -> Key {
    Key::zero().add(n)
}

fn keys(from: u32, to: u32) -> KeyRange {
    KeyRange::new(key(from), key(to))
}

fn image(from: u32, to: u32, lsn: u64, name: &str) -> LayerDescriptor {
    LayerDescriptor::image(keys(from, to), Lsn(lsn), name.to_string()).unwrap()
}

fn delta(from: u32, to: u32, start: u64, end: u64, name: &str) -> LayerDescriptor {
    LayerDescriptor::delta(keys(from, to), LsnRange::new(Lsn(start), Lsn(end)), name.to_string())
}

fn found(map: &LayerMap, k: u32, lsn: u64) -> Option<(String, Option<Lsn>)> {
    map.search(key(k), Lsn(lsn)).map(|r| (r.layer.short_id.clone(), r.lsn_floor))
}

fn hit(name: &str, floor: Option<u64>) -> Option<(String, Option<Lsn>)> {
    Some((name.to_string(), floor.map(Lsn)))
}

fn names(map: &LayerMap) -> Vec<String> {
    map.iter_historic_layers().into_iter().map(|l| l.short_id).collect()
}

/// Every point of a small grid, which is enough to tell two maps of the
/// layers used here apart.
fn answers(map: &LayerMap) -> Vec<Option<(String, Option<Lsn>)>> {
    let mut all = Vec::new();
    for k in 0..32u32 {
        for lsn in 0..40u64 {
            all.push(found(map, k * 5, lsn * 10));
        }
    }
    all
}

fn sample() -> Vec<LayerDescriptor> {
    vec![
        image(0, 100, 100, "I"),
        delta(50, 150, 100, 200, "D"),
        delta(0, 60, 200, 250, "E"),
        image(20, 30, 210, "J"),
        delta(20, 30, 210, 300, "F"),
        delta(100, 120, 10, 20, "G"),
        image(100, 120, 20, "K"),
        delta(0, 150, 300, 301, "H"),
    ]
}

#[test]
fn empty_map_finds_nothing() {
    let map = LayerMap::new();
    assert_eq!(found(&map, 0, 0), None);
    assert_eq!(found(&map, 75, u64::MAX), None);
    assert!(map.iter_historic_layers().is_empty());
    let mut map = LayerMap::default();
    assert_eq!(map.rebuild_index(), Ok(()));
    assert_eq!(found(&map, 75, 150), None);
}

#[test]
fn search_is_half_open_in_the_keys() {
    let mut map = LayerMap::new();
    map.insert_historic(delta(10, 20, 100, 200, "left")).unwrap();
    map.insert_historic(delta(20, 30, 100, 200, "right")).unwrap();
    map.rebuild_index().unwrap();
    assert_eq!(found(&map, 9, 150), None);
    assert_eq!(found(&map, 10, 150), hit("left", Some(100)));
    assert_eq!(found(&map, 19, 150), hit("left", Some(100)));
    assert_eq!(found(&map, 20, 150), hit("right", Some(100)));
    assert_eq!(found(&map, 29, 150), hit("right", Some(100)));
    assert_eq!(found(&map, 30, 150), None);
}

#[test]
fn search_starts_at_the_start_of_a_layer() {
    let mut map = LayerMap::new();
    map.insert_historic(delta(10, 20, 100, 200, "d")).unwrap();
    map.rebuild_index().unwrap();
    assert_eq!(found(&map, 15, 99), None);
    assert_eq!(found(&map, 15, 100), hit("d", Some(100)));
    assert_eq!(found(&map, 15, 199), hit("d", Some(100)));
}

#[test]
fn search_falls_back_on_the_layer_before() {
    let mut map = LayerMap::new();
    map.insert_historic(image(0, 100, 100, "old")).unwrap();
    map.insert_historic(image(0, 100, 120, "new")).unwrap();
    map.insert_historic(delta(0, 100, 100, 110, "changes")).unwrap();
    map.rebuild_index().unwrap();
    // No layer holds position 115; the layer that started last before it is
    // the delta and the image at 100, and of these the image is preferred.
    assert_eq!(found(&map, 50, 115), hit("old", None));
    assert_eq!(found(&map, 50, 119), hit("old", None));
    assert_eq!(found(&map, 50, 120), hit("new", None));
    assert_eq!(found(&map, 50, 1_000_000), hit("new", None));
    assert_eq!(found(&map, 50, 105), hit("changes", Some(100)));
    assert_eq!(found(&map, 50, 100), hit("old", None));
}

#[test]
fn search_prefers_the_layer_that_holds_the_position() {
    let mut map = LayerMap::new();
    map.insert_historic(delta(0, 100, 100, 200, "long")).unwrap();
    map.insert_historic(delta(0, 100, 150, 160, "short")).unwrap();
    map.rebuild_index().unwrap();
    assert_eq!(found(&map, 50, 155), hit("short", Some(150)));
    assert_eq!(found(&map, 50, 170), hit("long", Some(100)));
    assert_eq!(found(&map, 50, 149), hit("long", Some(100)));
    assert_eq!(found(&map, 50, 200), hit("short", Some(150)));
}

#[test]
fn search_prefers_the_later_start() {
    let mut map = LayerMap::new();
    map.insert_historic(delta(0, 100, 100, 200, "first")).unwrap();
    map.insert_historic(delta(0, 100, 120, 200, "second")).unwrap();
    map.insert_historic(image(0, 100, 130, "third")).unwrap();
    map.rebuild_index().unwrap();
    assert_eq!(found(&map, 1, 110), hit("first", Some(100)));
    assert_eq!(found(&map, 1, 125), hit("second", Some(120)));
    assert_eq!(found(&map, 1, 130), hit("third", None));
    assert_eq!(found(&map, 1, 131), hit("second", Some(120)));
}

#[test]
fn search_tells_layers_of_one_shape_apart_by_name() {
    let mut one = LayerMap::new();
    one.insert_historic(delta(0, 100, 100, 200, "a")).unwrap();
    one.insert_historic(delta(0, 100, 100, 200, "b")).unwrap();
    let mut other = LayerMap::new();
    other.insert_historic(delta(0, 100, 100, 200, "b")).unwrap();
    other.insert_historic(delta(0, 100, 100, 200, "a")).unwrap();
    assert_eq!(found(&one, 5, 150), hit("b", Some(100)));
    assert_eq!(found(&other, 5, 150), hit("b", Some(100)));
    one.rebuild_index().unwrap();
    other.rebuild_index().unwrap();
    assert_eq!(found(&one, 5, 150), hit("b", Some(100)));
    assert_eq!(found(&other, 5, 150), hit("b", Some(100)));
}

#[test]
fn search_sees_the_batch_before_a_rebuild() {
    let mut map = LayerMap::new();
    map.insert_historic(image(0, 100, 100, "I")).unwrap();
    assert_eq!(found(&map, 75, 100), hit("I", None));
    map.rebuild_index().unwrap();
    map.insert_historic(delta(50, 150, 100, 200, "D")).unwrap();
    assert_eq!(found(&map, 75, 150), hit("D", Some(100)));
    assert_eq!(found(&map, 75, 100), hit("I", None));
    assert_eq!(found(&map, 120, 150), hit("D", Some(100)));
    map.remove_historic(image(0, 100, 100, "I")).unwrap();
    assert_eq!(found(&map, 75, 100), hit("D", Some(100)));
    assert_eq!(found(&map, 10, 100), None);
    map.rebuild_index().unwrap();
    assert_eq!(found(&map, 75, 100), hit("D", Some(100)));
    assert_eq!(found(&map, 10, 100), None);
}

#[test]
fn removal_uncovers_the_layer_below() {
    let mut map = LayerMap::new();
    map.insert_historic(delta(0, 100, 100, 200, "below")).unwrap();
    map.insert_historic(delta(0, 100, 150, 200, "above")).unwrap();
    map.rebuild_index().unwrap();
    assert_eq!(found(&map, 50, 180), hit("above", Some(150)));
    map.remove_historic(delta(0, 100, 150, 200, "above")).unwrap();
    assert_eq!(found(&map, 50, 180), hit("below", Some(100)));
    map.rebuild_index().unwrap();
    assert_eq!(found(&map, 50, 180), hit("below", Some(100)));
    assert_eq!(names(&map), vec!["below"]);
}

#[test]
fn the_last_word_on_a_layer_counts() {
    let l = || delta(0, 100, 100, 200, "l");
    let mut map = LayerMap::new();
    map.insert_historic(l()).unwrap();
    map.remove_historic(l()).unwrap();
    assert_eq!(found(&map, 50, 150), None);
    assert!(names(&map).is_empty());
    map.insert_historic(l()).unwrap();
    assert_eq!(found(&map, 50, 150), hit("l", Some(100)));
    assert_eq!(names(&map), vec!["l"]);
    map.rebuild_index().unwrap();
    assert_eq!(found(&map, 50, 150), hit("l", Some(100)));
    map.remove_historic(l()).unwrap();
    map.insert_historic(l()).unwrap();
    map.remove_historic(l()).unwrap();
    assert_eq!(found(&map, 50, 150), None);
    map.rebuild_index().unwrap();
    assert_eq!(found(&map, 50, 150), None);
    assert!(names(&map).is_empty());
}

#[test]
fn removing_what_is_not_there_changes_nothing() {
    let mut map = LayerMap::new();
    map.insert_historic(delta(0, 100, 100, 200, "l")).unwrap();
    map.remove_historic(delta(0, 100, 100, 200, "other name")).unwrap();
    map.remove_historic(delta(0, 101, 100, 200, "l")).unwrap();
    assert_eq!(names(&map), vec!["l"]);
    map.rebuild_index().unwrap();
    assert_eq!(names(&map), vec!["l"]);
    assert_eq!(found(&map, 50, 150), hit("l", Some(100)));
}

#[test]
fn malformed_layers_are_refused() {
    let mut map = LayerMap::new();
    map.insert_historic(delta(0, 100, 100, 200, "good")).unwrap();
    let no_keys = delta(5, 5, 100, 200, "no keys");
    let backwards = delta(0, 100, 200, 100, "backwards");
    let wide_image = LayerDescriptor {
        key: keys(0, 100),
        lsn: LsnRange::new(Lsn(100), Lsn(102)),
        is_incremental: false,
        short_id: "wide".to_string(),
    };
    assert_eq!(map.insert_historic(no_keys.clone()), Err(ConstructionError::EmptyKeyRange));
    assert_eq!(map.insert_historic(backwards.clone()), Err(ConstructionError::InvertedLsnRange));
    assert_eq!(
        map.insert_historic(wide_image.clone()),
        Err(ConstructionError::ImageSpansPositions)
    );
    assert_eq!(map.remove_historic(no_keys.clone()), Err(ConstructionError::EmptyKeyRange));
    assert_eq!(map.remove_historic(backwards), Err(ConstructionError::InvertedLsnRange));
    assert_eq!(map.remove_historic(wide_image), Err(ConstructionError::ImageSpansPositions));
    assert_eq!(map.insert_overlay(no_keys), Err(ConstructionError::EmptyKeyRange));
    assert_eq!(names(&map), vec!["good"]);
    assert_eq!(map.rebuild_index(), Ok(()));
    assert_eq!(names(&map), vec!["good"]);
    assert!(map.retire_overlay().is_none());
}

#[test]
fn inserting_a_layer_twice_holds_it_once() {
    let mut map = LayerMap::new();
    map.insert_historic(delta(0, 100, 100, 200, "l")).unwrap();
    map.insert_historic(delta(0, 100, 100, 200, "l")).unwrap();
    assert_eq!(names(&map), vec!["l"]);
    map.rebuild_index().unwrap();
    map.insert_historic(delta(0, 100, 100, 200, "l")).unwrap();
    assert_eq!(names(&map), vec!["l"]);
    map.remove_historic(delta(0, 100, 100, 200, "l")).unwrap();
    assert!(names(&map).is_empty());
    assert_eq!(found(&map, 50, 150), None);
}

#[test]
fn layers_are_listed_in_stacking_order() {
    let mut map = LayerMap::new();
    for l in sample() {
        map.insert_historic(l).unwrap();
    }
    let order = vec!["G", "K", "D", "I", "E", "F", "J", "H"];
    assert_eq!(names(&map), order);
    map.rebuild_index().unwrap();
    assert_eq!(names(&map), order);
    map.remove_historic(image(0, 100, 100, "I")).unwrap();
    map.insert_historic(delta(0, 1, 5, 6, "first")).unwrap();
    assert_eq!(names(&map), vec!["first", "G", "K", "D", "E", "F", "J", "H"]);
}

#[test]
fn rebuilding_again_changes_no_answer() {
    let mut map = LayerMap::new();
    for l in sample() {
        map.insert_historic(l).unwrap();
    }
    let before = answers(&map);
    assert_eq!(map.rebuild_index(), Ok(()));
    let once = answers(&map);
    assert_eq!(map.rebuild_index(), Ok(()));
    let twice = answers(&map);
    assert_eq!(before, once);
    assert_eq!(once, twice);
    assert!(once.iter().any(|a| a.is_some()));
    assert!(once.iter().any(|a| a.is_none()));
}

#[test]
fn the_order_of_insertion_changes_no_answer() {
    let mut forward = LayerMap::new();
    for l in sample() {
        forward.insert_historic(l).unwrap();
    }
    let mut backward = LayerMap::new();
    for l in sample().into_iter().rev() {
        backward.insert_historic(l).unwrap();
    }
    let mut shuffled = LayerMap::new();
    let all = sample();
    for i in [3usize, 0, 7, 5, 1, 6, 2, 4] {
        shuffled.insert_historic(all[i].clone()).unwrap();
        if i % 2 == 0 {
            shuffled.rebuild_index().unwrap();
        }
    }
    forward.rebuild_index().unwrap();
    backward.rebuild_index().unwrap();
    shuffled.rebuild_index().unwrap();
    assert_eq!(answers(&forward), answers(&backward));
    assert_eq!(answers(&forward), answers(&shuffled));
    assert_eq!(names(&forward), names(&backward));
    assert_eq!(names(&forward), names(&shuffled));
}

#[test]
fn a_point_inside_a_layer_is_answered_from_a_layer_that_holds_it() {
    let mut map = LayerMap::new();
    for l in sample() {
        map.insert_historic(l).unwrap();
    }
    map.rebuild_index().unwrap();
    for l in sample() {
        let from = l.key.start.lo as u32;
        let to = l.key.end.lo as u32;
        for k in [from, (from + to) / 2, to - 1] {
            for lsn in [l.lsn.start.0, (l.lsn.start.0 + l.lsn.end.0) / 2, l.lsn.end.0 - 1] {
                let r = map.search(key(k), Lsn(lsn)).unwrap();
                assert!(r.layer.key.contains(key(k)));
                assert!(r.layer.lsn.contains(Lsn(lsn)));
            }
        }
    }
}

#[test]
fn a_point_that_no_layer_reaches_has_no_answer() {
    let mut map = LayerMap::new();
    for l in sample() {
        map.insert_historic(l).unwrap();
    }
    for _ in 0..2 {
        // Before every layer in time.
        assert_eq!(found(&map, 50, 99), None);
        assert_eq!(found(&map, 110, 9), None);
        // Outside every layer in the keys.
        assert_eq!(found(&map, 150, 1000), None);
        assert_eq!(found(&map, 4000, 250), None);
        map.rebuild_index().unwrap();
    }
}

#[test]
fn twin_images_stop_a_rebuild() {
    let mut map = LayerMap::new();
    map.insert_historic(image(0, 100, 100, "one")).unwrap();
    map.insert_historic(delta(0, 100, 100, 200, "d")).unwrap();
    assert_eq!(map.rebuild_index(), Ok(()));
    map.insert_historic(image(0, 100, 100, "two")).unwrap();
    map.insert_historic(delta(0, 100, 200, 300, "e")).unwrap();
    assert_eq!(map.rebuild_index(), Err(InvariantViolation::TwinImages));
    assert_eq!(map.rebuild_index(), Err(InvariantViolation::TwinImages));
    // The map is as it was: it holds all four layers.
    assert_eq!(names(&map), vec!["d", "one", "two", "e"]);
    assert_eq!(found(&map, 50, 250), hit("e", Some(200)));
    // With one of the twins gone the index compiles.
    map.remove_historic(image(0, 100, 100, "one")).unwrap();
    assert_eq!(map.rebuild_index(), Ok(()));
    assert_eq!(names(&map), vec!["d", "two", "e"]);
    assert_eq!(found(&map, 50, 100), hit("two", None));
}

#[test]
fn images_of_other_keys_or_positions_are_no_twins() {
    let mut map = LayerMap::new();
    map.insert_historic(image(0, 100, 100, "a")).unwrap();
    map.insert_historic(image(0, 100, 101, "b")).unwrap();
    map.insert_historic(image(0, 99, 100, "c")).unwrap();
    map.insert_historic(image(1, 100, 100, "d")).unwrap();
    map.insert_historic(delta(0, 100, 100, 101, "e")).unwrap();
    map.insert_historic(delta(0, 100, 100, 101, "f")).unwrap();
    assert_eq!(map.rebuild_index(), Ok(()));
    assert_eq!(names(&map).len(), 6);
}

#[test]
fn the_overlay_comes_first() {
    let mut map = LayerMap::new();
    map.insert_historic(image(0, 100, 100, "I")).unwrap();
    map.insert_historic(delta(0, 100, 100, 200, "D")).unwrap();
    map.rebuild_index().unwrap();
    map.insert_overlay(delta(0, 50, 100, 300, "frozen")).unwrap();
    map.insert_overlay(delta(0, 50, 250, u64::MAX, "open")).unwrap();
    // Where the overlay holds the point it answers, the newest layer first.
    assert_eq!(found(&map, 10, 100), hit("frozen", Some(100)));
    assert_eq!(found(&map, 10, 150), hit("frozen", Some(100)));
    assert_eq!(found(&map, 10, 260), hit("open", Some(250)));
    assert_eq!(found(&map, 10, 1_000_000), hit("open", Some(250)));
    // Where it does not, the historic layers answer.
    assert_eq!(found(&map, 60, 100), hit("I", None));
    assert_eq!(found(&map, 60, 150), hit("D", Some(100)));
    assert_eq!(found(&map, 10, 99), None);
    // The oldest layer leaves first.
    assert_eq!(map.retire_overlay().unwrap().short_id, "frozen");
    assert_eq!(found(&map, 10, 100), hit("I", None));
    assert_eq!(found(&map, 10, 150), hit("D", Some(100)));
    assert_eq!(found(&map, 10, 260), hit("open", Some(250)));
    assert_eq!(map.retire_overlay().unwrap().short_id, "open");
    assert!(map.retire_overlay().is_none());
    assert_eq!(found(&map, 10, 260), hit("I", None));
    assert_eq!(names(&map), vec!["D", "I"]);
}

#[test]
fn the_overlay_answers_past_the_end_of_its_layers() {
    let mut map = LayerMap::new();
    map.insert_historic(delta(0, 100, 100, 200, "D")).unwrap();
    map.rebuild_index().unwrap();
    map.insert_overlay(delta(0, 50, 200, 300, "frozen")).unwrap();
    // No layer holds position 350. The layer of the overlay is the newer
    // of the two that end before it.
    assert_eq!(found(&map, 10, 350), hit("frozen", Some(200)));
    assert_eq!(found(&map, 10, 300), hit("frozen", Some(200)));
    assert_eq!(found(&map, 10, 299), hit("frozen", Some(200)));
    assert_eq!(found(&map, 10, 199), hit("D", Some(100)));
    assert_eq!(found(&map, 60, 350), hit("D", Some(100)));
    assert_eq!(found(&map, 10, 99), None);
    // A historic layer that holds the position goes before a layer of the
    // overlay that ends before it.
    map.insert_historic(delta(0, 100, 320, 400, "late")).unwrap();
    assert_eq!(found(&map, 10, 350), hit("late", Some(320)));
    assert_eq!(found(&map, 10, 310), hit("frozen", Some(200)));
    assert_eq!(found(&map, 10, 400), hit("frozen", Some(200)));
    assert_eq!(found(&map, 60, 400), hit("late", Some(320)));
}

#[test]
fn difficulty_counts_the_deltas_above_the_last_image() {
    let mut map = LayerMap::new();
    map.insert_historic(delta(0, 100, 10, 20, "d1")).unwrap();
    map.insert_historic(delta(0, 100, 20, 30, "d2")).unwrap();
    map.insert_historic(image(0, 100, 29, "i")).unwrap();
    map.insert_historic(delta(0, 100, 30, 40, "d3")).unwrap();
    map.insert_historic(delta(0, 50, 40, 50, "d4")).unwrap();
    map.insert_historic(delta(200, 300, 10, 50, "far")).unwrap();
    map.insert_historic(image(0, 10, 45, "small")).unwrap();
    let parts = KeyPartitioning::new(vec![keys(0, 100), keys(50, 100), keys(100, 200), keys(250, 400)]);
    let at = |map: &LayerMap, lsn: u64| map.get_difficulty_map(Lsn(lsn), &parts);
    for _ in 0..2 {
        assert_eq!(at(&map, 9), vec![0, 0, 0, 0]);
        assert_eq!(at(&map, 10), vec![1, 1, 0, 1]);
        assert_eq!(at(&map, 20), vec![2, 2, 0, 1]);
        assert_eq!(at(&map, 28), vec![2, 2, 0, 1]);
        // The image at 29 holds all that the deltas that end by 30 have.
        assert_eq!(at(&map, 29), vec![0, 0, 0, 1]);
        assert_eq!(at(&map, 30), vec![1, 1, 0, 1]);
        assert_eq!(at(&map, 40), vec![2, 1, 0, 1]);
        // An image of a few keys of a part takes nothing off its count.
        assert_eq!(at(&map, 45), vec![2, 1, 0, 1]);
        assert_eq!(at(&map, 1000), vec![2, 1, 0, 1]);
        map.rebuild_index().unwrap();
    }
    assert!(map.get_difficulty_map(Lsn(40), &KeyPartitioning::new(vec![])).is_empty());
    assert_eq!(
        map.get_difficulty_map(Lsn(40), &KeyPartitioning::new(vec![keys(7, 7), keys(9, 3)])),
        vec![0, 0]
    );
}

#[test]
fn difficulty_grows_with_time_between_images() {
    let mut map = LayerMap::new();
    let mut lsn = 0;
    for round in 0..4u64 {
        map.insert_historic(image(0, 100, lsn, &format!("image {round}"))).unwrap();
        for step in 0..5u64 {
            map.insert_historic(delta(0, 100, lsn, lsn + 10, &format!("delta {round}.{step}")))
                .unwrap();
            lsn += 10;
        }
    }
    map.rebuild_index().unwrap();
    let parts = KeyPartitioning::new(vec![keys(0, 100), keys(10, 20)]);
    for round in 0..4u64 {
        let mut last = vec![0, 0];
        for lsn in round * 50..(round + 1) * 50 {
            let now = map.get_difficulty_map(Lsn(lsn), &parts);
            assert!(now[0] >= last[0] && now[1] >= last[1]);
            assert_eq!(now[0], now[1]);
            last = now;
        }
        assert_eq!(last, vec![5, 5]);
    }
}

#[test]
fn difficulty_sees_the_batch() {
    let mut map = LayerMap::new();
    map.insert_historic(delta(0, 100, 10, 20, "d1")).unwrap();
    map.rebuild_index().unwrap();
    let parts = KeyPartitioning::new(vec![keys(0, 100)]);
    map.insert_historic(delta(0, 100, 20, 30, "d2")).unwrap();
    assert_eq!(map.get_difficulty_map(Lsn(25), &parts), vec![2]);
    map.remove_historic(delta(0, 100, 10, 20, "d1")).unwrap();
    assert_eq!(map.get_difficulty_map(Lsn(25), &parts), vec![1]);
    map.insert_historic(image(0, 100, 29, "i")).unwrap();
    assert_eq!(map.get_difficulty_map(Lsn(29), &parts), vec![0]);
    assert_eq!(map.get_difficulty_map(Lsn(28), &parts), vec![1]);
}
