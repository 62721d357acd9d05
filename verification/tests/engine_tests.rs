use htdb::Config;
use htdb::Database;
use htdb::DatabaseError;
use htdb::HashTreeVisiter;
use htdb::Pages;
use htdb::TreeVisiter;

fn bk(text: &str) -> Vec<u8> {
    text.as_bytes().to_vec()
}

fn small_engine() -> Database<Vec<u8>, Vec<u8>, Vec<u8>> {
    let config = Config::default().set_max_page_size(3);
    let mut db: Database<Vec<u8>, Vec<u8>, Vec<u8>> = Database::new(config);
    db.put(bk("A"), bk("a"), vec![1]).unwrap();
    db.put(bk("A"), bk("b"), vec![2]).unwrap();
    db.put(bk("A"), bk("c"), vec![3]).unwrap();
    db.put(bk("A"), bk("d"), vec![4]).unwrap();
    db
}

struct LayoutVisiter {
    partitions: usize,
    pages: Vec<(usize, Vec<u8>, Vec<u8>, usize)>,
    current_entries: usize,
}

impl HashTreeVisiter<Vec<u8>, Vec<u8>, Vec<u8>> for LayoutVisiter {
    fn visit_hash_before(&mut self, _hash: &Vec<u8>) {
        self.partitions += 1;
    }

    fn visit_hash_after(&mut self, _hash: &Vec<u8>) {}
}

impl TreeVisiter<Vec<u8>, Vec<u8>> for LayoutVisiter {
    fn visit_page_before(&mut self, _index: usize, _range_start: &Vec<u8>, _range_end: &Vec<u8>) {
        self.current_entries = 0;
    }

    fn visit_value(&mut self, _key: &Vec<u8>, _value: &Vec<u8>) {
        self.current_entries += 1;
    }

    fn visit_page_after(&mut self, index: usize, range_start: &Vec<u8>, range_end: &Vec<u8>) {
        self.pages.push((index, range_start.clone(), range_end.clone(), self.current_entries));
    }
}

#[test]
fn four_puts_split_into_two_pages() {
    let db = small_engine();

    let mut visiter =
        LayoutVisiter { partitions: 0, pages: Vec::new(), current_entries: 0 };
    db.visit(&mut visiter);

    assert_eq!(1, visiter.partitions);
    assert_eq!(2, visiter.pages.len());
    assert_eq!((0, bk("a"), bk("b"), 2), visiter.pages[0]);
    assert_eq!((1, bk("c"), bk("d"), 2), visiter.pages[1]);

    assert_eq!(Some(&vec![3u8]), db.get(&bk("A"), &bk("c")).unwrap());
    assert_eq!(4, db.count().unwrap());
}

#[test]
fn range_emits_all_in_order() {
    let db = small_engine();

    let mut seen: Vec<(Vec<u8>, Vec<u8>)> = Vec::new();
    db.range(&bk("A"), &bk("a"), &bk("z"), |k: &Vec<u8>, v: &Vec<u8>| {
        seen.push((k.clone(), v.clone()));
        true
    })
    .unwrap();

    assert_eq!(
        vec![
            (bk("a"), vec![1]),
            (bk("b"), vec![2]),
            (bk("c"), vec![3]),
            (bk("d"), vec![4])
        ],
        seen
    );
}

#[test]
fn range_stops_when_callback_refuses() {
    let db = small_engine();

    let mut seen: Vec<(Vec<u8>, Vec<u8>)> = Vec::new();
    db.range(&bk("A"), &bk("a"), &bk("z"), |k: &Vec<u8>, v: &Vec<u8>| {
        seen.push((k.clone(), v.clone()));
        seen.len() < 2
    })
    .unwrap();

    assert_eq!(vec![(bk("a"), vec![1]), (bk("b"), vec![2])], seen);
}

#[test]
fn succ_and_pred_cross_page_boundaries() {
    let db = small_engine();

    let succ_b = db.succ(&bk("A"), &bk("b")).unwrap();
    assert_eq!(Some((bk("c"), vec![3])), succ_b.map(|(k, v)| (k.clone(), v.clone())));

    let pred_c = db.pred(&bk("A"), &bk("c")).unwrap();
    assert_eq!(Some((bk("b"), vec![2])), pred_c.map(|(k, v)| (k.clone(), v.clone())));

    assert!(db.succ(&bk("A"), &bk("d")).unwrap().is_none());
    assert!(db.pred(&bk("A"), &bk("a")).unwrap().is_none());

    let succ_bb = db.succ(&bk("A"), &bk("bb")).unwrap();
    assert_eq!(Some((bk("c"), vec![3])), succ_bb.map(|(k, v)| (k.clone(), v.clone())));
}

#[test]
fn deletes_drop_emptied_first_page() {
    let mut db = small_engine();

    assert_eq!(Ok(true), db.delete(&bk("A"), &bk("a")));
    assert_eq!(Ok(true), db.delete(&bk("A"), &bk("b")));

    let mut visiter =
        LayoutVisiter { partitions: 0, pages: Vec::new(), current_entries: 0 };
    db.visit(&mut visiter);
    assert_eq!(1, visiter.pages.len());

    assert_eq!(2, db.count().unwrap());

    let mut seen: Vec<(Vec<u8>, Vec<u8>)> = Vec::new();
    db.range(&bk("A"), &bk("a"), &bk("z"), |k: &Vec<u8>, v: &Vec<u8>| {
        seen.push((k.clone(), v.clone()));
        true
    })
    .unwrap();
    assert_eq!(vec![(bk("c"), vec![3]), (bk("d"), vec![4])], seen);
}

#[test]
fn reversed_bounds_are_an_invalid_range() {
    let db = small_engine();

    let result = db.range(&bk("A"), &bk("z"), &bk("a"), |_k: &Vec<u8>, _v: &Vec<u8>| true);
    match result {
        Err(DatabaseError::InvalidRange { .. }) => {}
        _ => panic!("expected an invalid-range failure"),
    }
}

#[test]
fn count_tracks_fresh_puts_and_deletes() {
    let config = Config::default().set_max_page_size(3);
    let mut db: Database<Vec<u8>, Vec<u8>, Vec<u8>> = Database::new(config);

    assert_eq!(0, db.count().unwrap());
    assert_eq!(Ok(true), db.put(bk("A"), bk("x"), vec![1]));
    assert_eq!(1, db.count().unwrap());
    assert_eq!(Ok(false), db.put(bk("A"), bk("x"), vec![2]));
    assert_eq!(1, db.count().unwrap());
    assert_eq!(Ok(true), db.put(bk("B"), bk("x"), vec![3]));
    assert_eq!(2, db.count().unwrap());
    assert_eq!(Ok(true), db.delete(&bk("A"), &bk("x")));
    assert_eq!(1, db.count().unwrap());
    assert_eq!(Ok(false), db.delete(&bk("A"), &bk("x")));
    assert_eq!(1, db.count().unwrap());
}

#[test]
fn second_put_overwrites_without_count_change() {
    let mut db = small_engine();
    let before = db.count().unwrap();

    assert_eq!(Ok(false), db.put(bk("A"), bk("b"), vec![9]));

    assert_eq!(Some(&vec![9u8]), db.get(&bk("A"), &bk("b")).unwrap());
    assert_eq!(before, db.count().unwrap());
}

#[test]
fn put_then_delete_restores_prior_state() {
    let mut db = small_engine();
    let before = db.count().unwrap();

    assert_eq!(Ok(true), db.put(bk("A"), bk("q"), vec![7]));
    assert_eq!(Ok(true), db.delete(&bk("A"), &bk("q")));

    assert_eq!(Ok(false), db.contains(&bk("A"), &bk("q")));
    assert_eq!(before, db.count().unwrap());
    assert_eq!(Some(&vec![2u8]), db.get(&bk("A"), &bk("b")).unwrap());
}

#[test]
fn snapshot_round_trip_preserves_reads() {
    let db = small_engine();
    let bytes = db.save_bytes();

    let config = Config::default().set_max_page_size(3);
    let mut restored: Database<Vec<u8>, Vec<u8>, Vec<u8>> = Database::new(config);
    restored.load_bytes(&bytes).unwrap();

    assert_eq!(4, restored.count().unwrap());
    assert_eq!(Some(&vec![1u8]), restored.get(&bk("A"), &bk("a")).unwrap());
    assert_eq!(Some(&vec![2u8]), restored.get(&bk("A"), &bk("b")).unwrap());
    assert_eq!(Some(&vec![3u8]), restored.get(&bk("A"), &bk("c")).unwrap());
    assert_eq!(Some(&vec![4u8]), restored.get(&bk("A"), &bk("d")).unwrap());
    assert_eq!(Ok(false), restored.contains(&bk("A"), &bk("e")));
}

fn check_invariants(pages: &Pages<Vec<u8>, Vec<u8>>, max_page_size: usize) {
    let n = pages.page_count();
    for j in 0..n {
        let page = pages.page_at(j);
        let size = page.size();
        assert!(size >= 1, "a page must never be empty");
        assert!(size <= max_page_size, "a page must respect the bound");
        let start = page.range_start().clone();
        let end = page.range_end().clone();
        let mut previous: Option<Vec<u8>> = None;
        for l in 0..size {
            let (key, _value) = page.entry_at(l);
            assert!(start <= *key && *key <= end, "a key must lie in the envelope");
            if let Some(ref p) = previous {
                assert!(p < key, "keys must ascend strictly");
            }
            previous = Some(key.clone());
        }
        if j + 1 < n {
            let next = pages.page_at(j + 1);
            assert!(end < *next.range_start(), "envelopes must not overlap");
        }
    }
}

#[test]
fn a_thousand_scattered_keys_keep_the_invariants() {
    let config = Config::default().set_max_page_size(16);
    let mut pages: Pages<Vec<u8>, Vec<u8>> = Pages::new(config);

    let mut state: u64 = 0x2545_f491_4f6c_dd1d;
    let mut keys: Vec<Vec<u8>> = Vec::new();
    for step in 0..1000u32 {
        state = state.wrapping_mul(6364136223846793005).wrapping_add(1442695040888963407);
        let key = state.to_string().into_bytes();
        keys.push(key.clone());
        pages.insert(key, vec![(step % 251) as u8]);
        if step % 100 == 99 {
            check_invariants(&pages, 16);
        }
    }
    check_invariants(&pages, 16);

    let engine_config = Config::default().set_max_page_size(16);
    let mut db: Database<Vec<u8>, Vec<u8>, Vec<u8>> = Database::new(engine_config);
    for key in &keys {
        db.put(bk("P"), key.clone(), vec![0]).unwrap();
    }
    let bytes = db.save_bytes();

    let fresh_config = Config::default().set_max_page_size(16);
    let mut restored: Database<Vec<u8>, Vec<u8>, Vec<u8>> = Database::new(fresh_config);
    restored.load_bytes(&bytes).unwrap();

    let mut saved_scan: Vec<Vec<u8>> = Vec::new();
    db.range(&bk("P"), &vec![], &vec![255u8; 24], |k: &Vec<u8>, _v: &Vec<u8>| {
        saved_scan.push(k.clone());
        true
    })
    .unwrap();
    let mut restored_scan: Vec<Vec<u8>> = Vec::new();
    restored
        .range(&bk("P"), &vec![], &vec![255u8; 24], |k: &Vec<u8>, _v: &Vec<u8>| {
            restored_scan.push(k.clone());
            true
        })
        .unwrap();

    assert_eq!(db.count().unwrap(), restored.count().unwrap());
    assert_eq!(saved_scan, restored_scan);
    assert!(saved_scan.len() >= 1);
}

#[test]
fn partitions_are_independent() {
    let config = Config::default().set_max_page_size(3);
    let mut db: Database<Vec<u8>, Vec<u8>, Vec<u8>> = Database::new(config);

    db.put(bk("A"), bk("k"), vec![1]).unwrap();
    db.put(bk("B"), bk("k"), vec![2]).unwrap();

    assert_eq!(Some(&vec![1u8]), db.get(&bk("A"), &bk("k")).unwrap());
    assert_eq!(Some(&vec![2u8]), db.get(&bk("B"), &bk("k")).unwrap());
    assert_eq!(Ok(true), db.delete(&bk("A"), &bk("k")));
    assert_eq!(Ok(false), db.contains(&bk("A"), &bk("k")));
    assert_eq!(Ok(true), db.contains(&bk("B"), &bk("k")));
}

#[test]
fn get_on_absent_partition_reads_absent() {
    let config = Config::default();
    let db: Database<Vec<u8>, Vec<u8>, Vec<u8>> = Database::new(config);

    assert_eq!(None, db.get(&bk("missing"), &bk("k")).unwrap());
    assert_eq!(Ok(false), db.contains(&bk("missing"), &bk("k")));
    assert!(db.succ(&bk("missing"), &bk("k")).unwrap().is_none());
    assert!(db.pred(&bk("missing"), &bk("k")).unwrap().is_none());
}
