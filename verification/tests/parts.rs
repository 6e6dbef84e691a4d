use pageserver::batch::{as_entries, keep_inserted, merge, normalize, PendingOp};
use pageserver::coverage::Snapshot;
use pageserver::difficulty::{count_deltas, count_deltas_of_each};
use pageserver::historic::HistoricIndex;
use pageserver::key::Key;
use pageserver::layer::{LayerDescriptor, Rel};
use pageserver::lsn::Lsn;
use pageserver::overlay::Overlay;
use pageserver::query::rank;
use pageserver::range::{KeyRange, LsnRange};
use pageserver::sorted::find_twins;

fn key(n: u32) -> Key {
    Key::zero().add(n)
}

fn keys(from: u32, to: u32) -> KeyRange {
    KeyRange::new(key(from), key(to))
}

fn image(from: u32, to: u32, lsn: u64, name: &str) -> LayerDescriptor {
    LayerDescriptor::image(keys(from, to), Lsn(lsn), name.to_string()).unwrap()
}

fn delta(from: u32, to: u32, start: u64, end: u64, name: &str) -> LayerDescriptor {
    LayerDescriptor::delta(keys(from, to), LsnRange::new(Lsn(start), Lsn(end)), name.to_string())
}

fn insert(layer: LayerDescriptor) -> PendingOp {
    PendingOp { layer, insert: true }
}

fn remove(layer: LayerDescriptor) -> PendingOp {
    PendingOp { layer, insert: false }
}

#[test]
fn rank_prefers_the_layer_that_holds_the_position() {
    let long = delta(0, 10, 100, 200, "long");
    let short = delta(0, 10, 150, 160, "short");
    let picture = image(0, 10, 100, "picture");
    assert_eq!(rank(Lsn(155), &short, &long), Rel::After);
    assert_eq!(rank(Lsn(155), &long, &short), Rel::Before);
    assert_eq!(rank(Lsn(170), &short, &long), Rel::Before);
    assert_eq!(rank(Lsn(170), &long, &short), Rel::After);
    assert_eq!(rank(Lsn(300), &short, &long), Rel::After);
    assert_eq!(rank(Lsn(100), &picture, &long), Rel::After);
    assert_eq!(rank(Lsn(101), &picture, &long), Rel::Before);
    assert_eq!(rank(Lsn(200), &picture, &long), Rel::After);
    assert_eq!(rank(Lsn(100), &long, &long), Rel::Same);
    assert_eq!(rank(Lsn(100), &long, &long.duplicate()), Rel::Same);
}

#[test]
fn twins_are_found_in_a_sorted_list() {
    assert!(!find_twins(&vec![]));
    assert!(!find_twins(&vec![image(0, 10, 5, "a")]));
    assert!(find_twins(&vec![image(0, 10, 5, "a"), image(0, 10, 5, "b")]));
    assert!(find_twins(&vec![
        delta(0, 10, 1, 2, "d"),
        image(0, 10, 5, "a"),
        image(0, 10, 5, "b"),
        image(0, 10, 6, "c"),
    ]));
    assert!(!find_twins(&vec![
        delta(0, 10, 5, 6, "a"),
        delta(0, 10, 5, 6, "b"),
        image(0, 9, 5, "b"),
        image(0, 10, 5, "a"),
        image(1, 10, 5, "b"),
        image(0, 10, 6, "b"),
    ]));
}

#[test]
fn batches_merge_with_the_later_word_last() {
    let a = delta(0, 10, 1, 2, "a");
    let b = delta(0, 10, 2, 3, "b");
    let c = delta(0, 10, 3, 4, "c");
    let d = delta(0, 10, 4, 5, "d");
    let ops = vec![
        insert(c.clone()),
        insert(a.clone()),
        remove(c.clone()),
        remove(b.clone()),
        insert(d.clone()),
        remove(a.clone()),
        insert(a.clone()),
    ];
    let tidy = normalize(&ops, 0, ops.len());
    let words: Vec<(&str, bool)> =
        tidy.iter().map(|e| (e.layer.short_id.as_str(), e.insert)).collect();
    assert_eq!(words, vec![("a", true), ("b", false), ("c", false), ("d", true)]);
    let head = normalize(&ops, 0, 2);
    let words: Vec<(&str, bool)> =
        head.iter().map(|e| (e.layer.short_id.as_str(), e.insert)).collect();
    assert_eq!(words, vec![("a", true), ("c", true)]);
    assert!(normalize(&ops, 3, 3).is_empty());

    let held = vec![b.clone(), c.clone()];
    let base = as_entries(&held);
    assert_eq!(base.len(), 2);
    assert!(base.iter().all(|e| e.insert));
    let all = merge(&base, &tidy);
    let words: Vec<(&str, bool)> =
        all.iter().map(|e| (e.layer.short_id.as_str(), e.insert)).collect();
    assert_eq!(words, vec![("a", true), ("b", false), ("c", false), ("d", true)]);
    assert_eq!(keep_inserted(&all), vec![a.clone(), d.clone()]);
    let other_way = merge(&tidy, &base);
    assert_eq!(keep_inserted(&other_way), vec![a, b, c, d]);
}

#[test]
fn a_snapshot_stacks_the_layers_of_each_piece() {
    let list = vec![
        delta(0, 30, 10, 20, "wide"),
        delta(10, 20, 20, 30, "middle"),
        image(20, 40, 30, "right"),
    ];
    let snap = Snapshot::build(list.clone());
    assert_eq!(snap.len(), 3);
    assert_eq!(snap.list(), &list);
    assert_eq!(snap.layer(1), &list[1]);
    let stack = |k: u32| snap.stack_at(key(k)).map(|(s, c)| (s.clone(), c.clone()));
    assert_eq!(stack(0), Some((vec![0], vec![20])));
    assert_eq!(stack(9), Some((vec![0], vec![20])));
    assert_eq!(stack(10), Some((vec![0, 1], vec![20, 30])));
    assert_eq!(stack(19), Some((vec![0, 1], vec![20, 30])));
    assert_eq!(stack(20), Some((vec![0, 2], vec![20, 31])));
    assert_eq!(stack(30), Some((vec![2], vec![31])));
    assert_eq!(stack(39), Some((vec![2], vec![31])));
    assert_eq!(stack(40), Some((vec![], vec![])));
    assert_eq!(stack(4000), Some((vec![], vec![])));
    let shifted = Snapshot::build(vec![delta(5, 6, 1, 2, "only")]);
    assert!(shifted.stack_at(key(4)).is_none());
    assert!(Snapshot::empty().stack_at(key(0)).is_none());
    assert_eq!(Snapshot::empty().len(), 0);
}

#[test]
fn ceilings_keep_the_greatest_end_so_far() {
    let list = vec![
        delta(0, 10, 10, 100, "long"),
        delta(0, 10, 20, 30, "short"),
        delta(0, 10, 40, 120, "longer"),
    ];
    let snap = Snapshot::build(list);
    let (stack, ceilings) = snap.stack_at(key(5)).unwrap();
    assert_eq!(stack, &vec![0, 1, 2]);
    assert_eq!(ceilings, &vec![100, 100, 120]);
}

#[test]
fn deltas_are_counted_in_a_list() {
    let list = vec![
        delta(0, 10, 10, 20, "d1"),
        image(0, 10, 19, "i"),
        delta(0, 10, 20, 30, "d2"),
        delta(5, 15, 25, 35, "d3"),
    ];
    assert_eq!(count_deltas(&list, &keys(0, 10), Lsn(9)), 0);
    assert_eq!(count_deltas(&list, &keys(0, 10), Lsn(18)), 1);
    assert_eq!(count_deltas(&list, &keys(0, 10), Lsn(19)), 0);
    assert_eq!(count_deltas(&list, &keys(0, 10), Lsn(30)), 2);
    assert_eq!(count_deltas(&list, &keys(10, 20), Lsn(30)), 1);
    assert_eq!(count_deltas(&list, &keys(0, 20), Lsn(30)), 3);
    assert_eq!(count_deltas(&vec![], &keys(0, 20), Lsn(30)), 0);
    assert_eq!(
        count_deltas_of_each(&list, &vec![keys(0, 10), keys(10, 20), keys(20, 30)], Lsn(30)),
        vec![2, 1, 0]
    );
}

#[test]
fn the_overlay_answers_with_its_newest_layer() {
    let mut overlay = Overlay::new();
    assert_eq!(overlay.len(), 0);
    assert!(overlay.find_covering(key(5), Lsn(10)).is_none());
    assert!(overlay.find_reaching(key(5), Lsn(10)).is_none());
    assert!(overlay.pop_oldest().is_none());
    overlay.push(delta(0, 10, 10, 20, "first")).unwrap();
    overlay.push(delta(0, 10, 15, 30, "second")).unwrap();
    overlay.push(delta(20, 30, 15, 30, "elsewhere")).unwrap();
    assert_eq!(overlay.len(), 3);
    let covering = |k: u32, lsn: u64| overlay.find_covering(key(k), Lsn(lsn)).map(|l| l.short_id.as_str());
    let reaching = |k: u32, lsn: u64| overlay.find_reaching(key(k), Lsn(lsn)).map(|l| l.short_id.as_str());
    assert_eq!(covering(5, 10), Some("first"));
    assert_eq!(covering(5, 15), Some("second"));
    assert_eq!(covering(5, 19), Some("second"));
    assert_eq!(covering(25, 19), Some("elsewhere"));
    assert_eq!(covering(5, 30), None);
    assert_eq!(covering(5, 9), None);
    assert_eq!(covering(10, 15), None);
    assert_eq!(reaching(5, 9), None);
    assert_eq!(reaching(5, 10), Some("first"));
    assert_eq!(reaching(5, 14), Some("first"));
    assert_eq!(reaching(5, 15), Some("second"));
    assert_eq!(reaching(5, 30), Some("second"));
    assert_eq!(reaching(5, 1_000), Some("second"));
    assert_eq!(reaching(25, 1_000), Some("elsewhere"));
    assert_eq!(reaching(10, 1_000), None);
    assert!(overlay.push(delta(0, 0, 10, 20, "no keys")).is_err());
    assert_eq!(overlay.len(), 3);
    assert_eq!(overlay.pop_oldest().unwrap().short_id, "first");
    assert!(overlay.find_covering(key(5), Lsn(10)).is_none());
    assert!(overlay.find_reaching(key(5), Lsn(10)).is_none());
    assert_eq!(overlay.len(), 2);
}

#[test]
fn the_historic_index_works_on_its_own() {
    let mut index = HistoricIndex::new();
    assert!(index.search(key(5), Lsn(10)).is_none());
    assert!(index.layers().is_empty());
    index.insert(delta(0, 10, 10, 20, "d")).unwrap();
    index.insert(image(0, 10, 30, "i")).unwrap();
    assert_eq!(index.search(key(5), Lsn(25)).unwrap().short_id, "d");
    assert_eq!(index.rebuild(), Ok(()));
    assert_eq!(index.search(key(5), Lsn(25)).unwrap().short_id, "d");
    assert_eq!(index.search(key(5), Lsn(30)).unwrap().short_id, "i");
    index.remove(image(0, 10, 30, "i")).unwrap();
    assert_eq!(index.search(key(5), Lsn(30)).unwrap().short_id, "d");
    assert_eq!(index.difficulty_map(Lsn(30), &vec![keys(0, 10)]), vec![1]);
    assert_eq!(index.layers().len(), 1);
    assert!(index.insert(delta(0, 10, 20, 10, "back")).is_err());
    assert!(index.remove(delta(3, 3, 10, 20, "none")).is_err());
}
