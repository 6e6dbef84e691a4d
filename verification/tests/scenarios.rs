use pageserver::key::Key;
use pageserver::layer::LayerDescriptor;
use pageserver::layer_map::LayerMap;
use pageserver::lsn::Lsn;
use pageserver::range::{KeyRange, LsnRange};

fn key(n: u32) -> Key {
    Key::zero().add(n)
}

fn image(from: u32, to: u32, lsn: u64, name: &str) -> LayerDescriptor {
    LayerDescriptor::image(KeyRange::new(key(from), key(to)), Lsn(lsn), name.to_string()).unwrap()
}

fn delta(from: u32, to: u32, start: u64, end: u64, name: &str) -> LayerDescriptor {
    LayerDescriptor::delta(
        KeyRange::new(key(from), key(to)),
        LsnRange::new(Lsn(start), Lsn(end)),
        name.to_string(),
    )
}

#[test]
fn image_and_delta_that_start_together() {
    let mut map = LayerMap::new();
    map.insert_historic(image(0, 100, 100, "I")).unwrap();
    map.insert_historic(delta(50, 150, 100, 200, "D")).unwrap();
    map.rebuild_index().unwrap();

    let found = map.search(key(75), Lsn(150)).unwrap();
    assert_eq!(found.layer.short_id, "D");
    assert_eq!(found.lsn_floor, Some(Lsn(100)));

    let found = map.search(key(75), Lsn(100)).unwrap();
    assert_eq!(found.layer.short_id, "I");
    assert_eq!(found.lsn_floor, None);

    assert!(map.search(key(200), Lsn(150)).is_none());
}

#[test]
fn diagonal_of_many_layers() {
    let mut map = LayerMap::default();
    let zero = Key::zero();
    for i in 0..100_000u64 {
        let step = (i as u32) % 100;
        let layer = LayerDescriptor::image(
            KeyRange::new(zero.add(10 * step), zero.add(10 * step + 1)),
            Lsn(i),
            format!("Layer {}", i),
        )
        .unwrap();
        map.insert_historic(layer).unwrap();
    }
    map.rebuild_index().unwrap();

    for i in (0..100_000u64).step_by(7) {
        let step = (i as u32) % 100;
        let found = map.search(zero.add(10 * step), Lsn(i)).unwrap();
        assert_eq!(found.layer.short_id, format!("Layer {}", i));
        assert_eq!(found.layer.lsn, LsnRange::new(Lsn(i), Lsn(i + 1)));
        assert_eq!(found.lsn_floor, None);
    }
    // Between the columns of the diagonal there is nothing.
    assert!(map.search(zero.add(5), Lsn(50_000)).is_none());
    assert_eq!(map.iter_historic_layers().len(), 100_000);
}
