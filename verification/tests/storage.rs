use std::collections::BTreeMap;
use udb_lab::spi::manifest::read_manifest;
use udb_lab::spi::{Database, Entry, Error, Options, Snapshot, Stats, Step, Transaction};

/// The files of a store, in memory.
#[derive(Clone)]
struct Disk {
    arenas: BTreeMap<u64, Vec<u8>>,
    manifest: Vec<u8>,
    pending: Vec<u8>,
}

impl Disk {
    fn step(&mut self, step: &Step) {
        match step {
            Step::Create { epoch } => {
                assert!(self.arenas.insert(*epoch, Vec::new()).is_none());
            }
            Step::Write { epoch, at, bytes } => {
                let file = self.arenas.get_mut(epoch).unwrap();
                let at = *at as usize;
                if file.len() < at + bytes.len() {
                    file.resize(at + bytes.len(), 0);
                }
                file[at..at + bytes.len()].copy_from_slice(bytes);
            }
            Step::Manifest { bytes } => self.pending = bytes.clone(),
            Step::ReplaceManifest => self.manifest = self.pending.clone(),
            _ => {}
        }
    }

    fn carry_out(&mut self, steps: &[Step]) {
        for step in steps {
            self.step(step);
        }
    }

    fn found(&self) -> Vec<u64> {
        self.arenas.keys().copied().collect()
    }
}

/// A store with its files and the snapshots that are held.
struct Store {
    db: Database,
    disk: Disk,
    pins: Vec<u64>,
}

impl Store {
    fn create(options: Options) -> Store {
        let mut disk = Disk {
            arenas: BTreeMap::new(),
            manifest: Vec::new(),
            pending: Vec::new(),
        };
        let mut steps = Vec::new();
        let db = Database::create(options, &mut steps).unwrap();
        disk.carry_out(&steps);
        Store {
            db,
            disk,
            pins: Vec::new(),
        }
    }

    fn open(disk: &Disk, options: Options) -> Result<Store, Error> {
        let (root, _) = read_manifest(&disk.manifest)?;
        let arena = disk.arenas[&root.epoch].clone();
        let db = Database::open(&disk.manifest, arena, options)?;
        Ok(Store {
            db,
            disk: disk.clone(),
            pins: Vec::new(),
        })
    }

    fn settle(&mut self) {
        let steps = self.db.take_steps();
        self.disk.carry_out(&steps);
    }

    fn begin(&self) -> Transaction {
        self.db.begin().unwrap()
    }

    fn commit(&mut self, t: Transaction) -> Result<u64, Error> {
        let r = t.commit(&mut self.db);
        self.settle();
        r
    }

    fn put(&mut self, key: &[u8], value: &[u8]) {
        let mut t = self.begin();
        t.set(&mut self.db, key.to_vec(), value.to_vec()).unwrap();
        self.commit(t).unwrap();
    }

    fn remove(&mut self, key: &[u8]) {
        let mut t = self.begin();
        t.delete(&mut self.db, key.to_vec()).unwrap();
        self.commit(t).unwrap();
    }

    fn pin(&mut self) -> Snapshot {
        let s = self.db.snapshot().unwrap();
        self.pins.push(s.root.epoch);
        s
    }

    fn unpin(&mut self, s: Snapshot) {
        let at = self.pins.iter().position(|p| *p == s.root.epoch).unwrap();
        self.pins.remove(at);
    }

    fn compact(&mut self) -> Result<(), Error> {
        let found = self.disk.found();
        let r = self.db.compact(&found);
        self.settle();
        r
    }

    fn collect(&mut self) -> usize {
        let found = self.disk.found();
        let gone = self.db.collect(&self.pins, &found).unwrap();
        for id in &gone {
            self.disk.arenas.remove(id);
            self.db.forget(*id);
        }
        gone.len()
    }

    fn verify(&self) -> Result<u64, Error> {
        let epoch = self.db.snapshot()?.root.epoch;
        self.db.verify(self.disk.arenas[&epoch].clone())
    }

    fn stats(&self) -> Stats {
        let epoch = self.db.view.root.epoch;
        self.db.stats(self.disk.arenas[&epoch].len() as u64, 0)
    }
}

fn rows(m: &BTreeMap<Vec<u8>, Vec<u8>>) -> Vec<Entry> {
    m.iter()
        .map(|(key, value)| Entry {
            key: key.clone(),
            value: value.clone(),
        })
        .collect()
}

fn next(s: &mut u64) -> u64 {
    *s = s
        .wrapping_mul(6364136223846793005)
        .wrapping_add(1442695040888963407);
    *s
}

#[test]
fn arbitrary_binary_values_snapshots_compaction_and_reopen() {
    let mut s = Store::create(Options::default());
    let mut t = s.begin();
    t.set(&mut s.db, vec![], vec![]).unwrap();
    t.set(&mut s.db, vec![0, 255, 0], vec![37; 17000]).unwrap();
    t.set(&mut s.db, vec![255, 255], b"end".to_vec()).unwrap();
    s.commit(t).unwrap();
    let old = s.pin();
    let another = s.pin();
    s.put(&[0, 255, 0], b"new");
    s.compact().unwrap();
    assert_eq!(s.collect(), 0);
    assert_eq!(
        old.get(&mut s.db, &[0, 255, 0]).unwrap(),
        Some(vec![37; 17000])
    );
    s.unpin(old);
    assert_eq!(s.collect(), 0);
    s.unpin(another);
    assert_eq!(s.collect(), 1);
    assert_eq!(s.db.scan_prefix(&[255]).unwrap().len(), 1);
    assert_eq!(s.db.get(&[]).unwrap(), Some(vec![]));
    assert_eq!(s.verify().unwrap(), 3);
    let mut s = Store::open(&s.disk, Options::default()).unwrap();
    assert_eq!(s.db.get(&[0, 255, 0]).unwrap(), Some(b"new".to_vec()));
    assert_eq!(s.verify().unwrap(), 3);
}

#[test]
fn randomized_avl_matches_full_oracle_and_pinned_versions() {
    for seed in 1..=3 {
        let mut s = Store::create(Options {
            cache_bytes: 1024,
            ..Options::default()
        });
        let mut state: u64 = seed;
        let mut oracle = BTreeMap::new();
        let mut pins = Vec::new();
        for batch in 0..35 {
            if batch % 9 == 0 {
                pins.push((s.pin(), rows(&oracle)));
            }
            let mut tx = s.begin();
            for _ in 0..24 {
                let k = ((next(&mut state) >> 32) % 150).to_be_bytes().to_vec();
                if next(&mut state) % 5 == 0 {
                    tx.delete(&mut s.db, k.clone()).unwrap();
                    oracle.remove(&k);
                } else {
                    let v = next(&mut state).to_le_bytes().to_vec();
                    tx.set(&mut s.db, k.clone(), v.clone()).unwrap();
                    oracle.insert(k, v);
                }
            }
            assert_eq!(tx.scan_prefix(&mut s.db, &[]).unwrap(), rows(&oracle));
            s.commit(tx).unwrap();
            assert_eq!(s.db.scan_prefix(&[]).unwrap(), rows(&oracle));
            assert_eq!(s.verify().unwrap(), oracle.len() as u64);
            if batch % 11 == 0 {
                s.compact().unwrap();
                s.collect();
            }
            for (snap, expected) in &pins {
                assert_eq!(&snap.scan_prefix(&mut s.db, &[]).unwrap(), expected);
            }
        }
        assert!(s.stats().cache_bytes <= 1024);
        for (snap, _) in pins {
            s.unpin(snap);
        }
        s.collect();
        let mut s = Store::open(&s.disk, Options::default()).unwrap();
        assert_eq!(s.db.scan_prefix(&[]).unwrap(), rows(&oracle));
        s.verify().unwrap();
    }
}

#[test]
fn serializable_lost_update_write_skew_and_phantoms() {
    let mut s = Store::create(Options::default());
    s.put(b"a", b"1");
    s.put(b"b", b"1");
    let mut a = s.begin();
    let mut b = s.begin();
    assert_eq!(a.get(&mut s.db, b"b").unwrap(), Some(b"1".to_vec()));
    assert_eq!(b.get(&mut s.db, b"a").unwrap(), Some(b"1".to_vec()));
    a.set(&mut s.db, b"a".to_vec(), b"0".to_vec()).unwrap();
    b.set(&mut s.db, b"b".to_vec(), b"0".to_vec()).unwrap();
    s.commit(a).unwrap();
    assert!(matches!(s.commit(b), Err(Error::Conflict)));
    let mut a = s.begin();
    let mut b = s.begin();
    a.set(&mut s.db, b"a".to_vec(), b"2".to_vec()).unwrap();
    b.set(&mut s.db, b"a".to_vec(), b"3".to_vec()).unwrap();
    s.commit(a).unwrap();
    assert!(matches!(s.commit(b), Err(Error::Conflict)));
    let mut range = s.begin();
    assert!(range.scan_prefix(&mut s.db, b"tenant/").unwrap().is_empty());
    s.put(b"tenant/new", b"yes");
    range
        .set(&mut s.db, b"result".to_vec(), b"empty".to_vec())
        .unwrap();
    assert!(matches!(s.commit(range), Err(Error::Conflict)));
    let mut a = s.begin();
    let mut b = s.begin();
    a.set(&mut s.db, b"disjoint/1".to_vec(), b"x".to_vec())
        .unwrap();
    b.set(&mut s.db, b"disjoint/2".to_vec(), b"y".to_vec())
        .unwrap();
    s.commit(a).unwrap();
    s.commit(b).unwrap();
    let mut range = s.begin();
    range.scan_prefix(&mut s.db, b"tenant/").unwrap();
    s.put(b"outside", b"ok");
    range
        .set(&mut s.db, b"derived".to_vec(), b"ok".to_vec())
        .unwrap();
    s.commit(range).unwrap();
}

#[test]
fn range_read_own_writes_and_budget_rejections_are_atomic() {
    let mut s = Store::create(Options {
        transaction_bytes: 4096,
        scan_bytes: 256,
        cache_bytes: 0,
        ..Options::default()
    });
    s.put(b"a", b"old");
    let mut t = s.begin();
    t.delete(&mut s.db, b"a".to_vec()).unwrap();
    t.set(&mut s.db, b"b".to_vec(), vec![]).unwrap();
    assert_eq!(
        t.scan(&mut s.db, b"a", Some(b"c")).unwrap(),
        vec![Entry {
            key: b"b".to_vec(),
            value: vec![]
        }]
    );
    let before = t.staged_bytes();
    assert!(matches!(
        t.set(&mut s.db, b"bad".to_vec(), vec![0; 5000]),
        Err(Error::Budget(_))
    ));
    assert_eq!(t.staged_bytes(), before);
    assert_eq!(t.get(&mut s.db, b"bad").unwrap(), None);
    s.commit(t).unwrap();
    let mut t = s.begin();
    t.set(&mut s.db, b"large".to_vec(), vec![0; 300]).unwrap();
    assert!(matches!(
        t.scan_prefix(&mut s.db, &[]),
        Err(Error::Budget(_))
    ));
    let mut t = s.begin();
    for _ in 0..20 {
        t.set(&mut s.db, b"same".to_vec(), vec![1; 100]).unwrap();
    }
    assert!(t.staged_bytes() < 4096);
    s.commit(t).unwrap();
    let now = s.db.snapshot().unwrap();
    assert!(matches!(
        now.scan(&mut s.db, b"z", Some(b"a")),
        Err(Error::Budget(_))
    ));
}

#[test]
fn failed_append_recovery_ignores_tail_and_never_publishes_hybrid() {
    for at in 1..=25 {
        let mut s = Store::create(Options::default());
        let mut t = s.begin();
        t.set(&mut s.db, b"a".to_vec(), b"old".to_vec()).unwrap();
        t.set(&mut s.db, b"b".to_vec(), b"old".to_vec()).unwrap();
        s.commit(t).unwrap();
        let mut s = Store::open(
            &s.disk,
            Options {
                fail_at: Some(at),
                write_chunk: Some(3),
                ..Options::default()
            },
        )
        .unwrap();
        let mut t = s.begin();
        t.set(&mut s.db, b"a".to_vec(), b"new".to_vec()).unwrap();
        t.set(&mut s.db, b"b".to_vec(), b"new".to_vec()).unwrap();
        let result = s.commit(t);
        if result.is_err() {
            assert!(matches!(s.db.get(b"a"), Err(Error::Poisoned)));
        }
        let mut s = Store::open(&s.disk, Options::default()).unwrap();
        let a = s.db.get(b"a").unwrap().unwrap();
        assert!(a == b"old" || a == b"new");
        assert_eq!(s.db.get(b"b").unwrap(), Some(a));
        s.verify().unwrap();
        s.put(b"tail-retry", b"ok");
        let mut s = Store::open(&s.disk, Options::default()).unwrap();
        assert_eq!(s.db.get(b"tail-retry").unwrap(), Some(b"ok".to_vec()));
    }
}

#[test]
fn corruption_is_detected_on_raw_bytes_not_reconstructed_fields() {
    let mut s = Store::create(Options::default());
    s.put(b"key", b"value");
    let mut disk = s.disk.clone();
    disk.arenas.get_mut(&0).unwrap()[8 + 10] ^= 0x55;
    let mut s = Store::open(&disk, Options::default()).unwrap();
    assert!(matches!(s.db.get(b"key"), Err(Error::Corrupt(_))));
    assert!(s.verify().is_err());
    disk.manifest[55] ^= 1;
    assert!(matches!(
        Store::open(&disk, Options::default()),
        Err(Error::Corrupt(_))
    ));
}

#[test]
fn garbage_tail_and_empty_compaction_reopen() {
    let mut s = Store::create(Options::default());
    s.put(b"k", b"v");
    let mut disk = s.disk.clone();
    disk.arenas.get_mut(&0).unwrap().extend(vec![99; 2048]);
    let mut s = Store::open(&disk, Options::default()).unwrap();
    s.put(b"k", b"new");
    s.remove(b"k");
    s.compact().unwrap();
    s.collect();
    let s = Store::open(&s.disk, Options::default()).unwrap();
    assert_eq!(s.verify().unwrap(), 0);
    assert_eq!(s.stats().committed_bytes, 8);
}

#[test]
fn compaction_faults_preserve_pinned_data_and_retry_after_orphans() {
    for at in 1..=16 {
        let mut s = Store::create(Options::default());
        s.put(b"key", b"value");
        let mut s = Store::open(
            &s.disk,
            Options {
                fail_at: Some(at),
                ..Options::default()
            },
        )
        .unwrap();
        let _ = s.compact();
        let mut s = Store::open(&s.disk, Options::default()).unwrap();
        assert_eq!(s.db.get(b"key").unwrap(), Some(b"value".to_vec()));
        s.compact().unwrap();
        s.collect();
        s.verify().unwrap();
    }
}

#[test]
fn truncation_is_rejected() {
    let mut s = Store::create(Options::default());
    s.put(b"key", b"value");
    let mut disk = s.disk.clone();
    disk.arenas.get_mut(&0).unwrap().pop();
    assert!(Store::open(&disk, Options::default()).is_err());
}

#[test]
fn missing_key_aba_and_bounded_validation_history_abort_safely() {
    let mut s = Store::create(Options::default());
    let mut reader = s.begin();
    assert_eq!(reader.get(&mut s.db, b"ephemeral").unwrap(), None);
    s.put(b"ephemeral", b"x");
    s.remove(b"ephemeral");
    reader
        .set(
            &mut s.db,
            b"dependent".to_vec(),
            b"incorrect-if-interleaved".to_vec(),
        )
        .unwrap();
    assert!(matches!(s.commit(reader), Err(Error::Conflict)));
    let mut s = Store::create(Options {
        conflict_bytes: 128,
        ..Options::default()
    });
    let mut old = s.begin();
    old.get(&mut s.db, b"absent").unwrap();
    s.put(b"other", b"1");
    s.put(b"another", b"2");
    old.set(&mut s.db, b"result".to_vec(), b"x".to_vec())
        .unwrap();
    assert!(matches!(s.commit(old), Err(Error::Conflict)));
}

/// A store whose snapshot holds the first few numbers.
fn numbered() -> Store {
    let mut s = Store::create(Options::default());
    let mut t = s.begin();
    for i in 0..4u64 {
        t.set(
            &mut s.db,
            i.to_be_bytes().to_vec(),
            i.to_le_bytes().to_vec(),
        )
        .unwrap();
    }
    s.commit(t).unwrap();
    s
}

#[test]
fn foreground_commit_during_preparation_invalidates_candidate() {
    let mut s = numbered();
    let original = s.pin();
    let manifest = s.disk.manifest.clone();
    let candidate = s.db.prepare(&s.disk.found()).unwrap();
    s.settle();
    assert!(s.disk.arenas.contains_key(&1));
    assert_eq!(s.disk.manifest, manifest);
    assert_eq!(
        original.get(&mut s.db, &0u64.to_be_bytes()).unwrap(),
        Some(0u64.to_le_bytes().to_vec())
    );
    s.put(b"new", b"committed during compaction");
    let outcome = s.db.publish_candidate(candidate);
    s.settle();
    assert!(matches!(outcome, Err(Error::Conflict)));
    assert_eq!(original.get(&mut s.db, b"new").unwrap(), None);
    assert_eq!(
        s.db.get(b"new").unwrap(),
        Some(b"committed during compaction".to_vec())
    );
    assert_eq!(s.collect(), 1);
    s.compact().unwrap();
    s.verify().unwrap();
    let mut s = Store::open(&s.disk, Options::default()).unwrap();
    assert_eq!(
        s.db.get(b"new").unwrap(),
        Some(b"committed during compaction".to_vec())
    );
}

#[test]
fn candidate_only_failure_keeps_current_database_usable() {
    for after_copy in [false, true] {
        let mut s = numbered();
        let before = s.disk.manifest.clone();
        let candidate = s.db.prepare(&s.disk.found()).unwrap();
        let steps = s.db.take_steps();
        // Before the copy there is the new arena with its mark, and nothing else.
        let done = if after_copy { steps.len() } else { 2 };
        s.disk.carry_out(&steps[..done]);
        drop(candidate);
        assert_eq!(s.disk.manifest, before);
        s.put(b"survives", b"yes");
        assert_eq!(s.collect(), 1);
        s.compact().unwrap();
        s.verify().unwrap();
    }
}

fn reached(steps: &[Step]) -> usize {
    steps
        .iter()
        .filter(|x| matches!(x, Step::Reached(_)))
        .count()
}

/// The stage that a run ends with, and the error that failing there gives.
fn ends_with(steps: &[Step]) -> String {
    match steps.last() {
        Some(Step::Reached(stage)) => format!("injected failure {}", stage.name()),
        _ => panic!("no stage was reached last"),
    }
}

#[test]
fn a_fault_in_the_copy_leaves_the_store_usable() {
    for packed_pages in [false, true] {
        let mut copying = 0;
        for at in 1..200 {
            let mut s = Store::create(Options {
                packed_pages,
                ..Options::default()
            });
            for i in 0..4u8 {
                s.put(&[i], &[i; 9]);
            }
            let mut s = Store::open(
                &s.disk,
                Options {
                    fail_at: Some(at),
                    ..Options::default()
                },
            )
            .unwrap();
            let before = s.disk.manifest.clone();
            let r = s.db.prepare(&s.disk.found()).map(|_| ());
            let steps = s.db.take_steps();
            s.disk.carry_out(&steps);
            if r.is_ok() {
                assert!(reached(&steps) < at);
                break;
            }
            copying += 1;
            assert_eq!(reached(&steps), at);
            assert!(matches!(r, Err(Error::Io(text)) if text == ends_with(&steps)));
            assert!(!s.db.poisoned);
            assert_eq!(s.disk.manifest, before);
            assert_eq!(s.db.get(&[3]).unwrap(), Some(vec![3; 9]));
            assert_eq!(s.collect(), 1);
            let mut s = Store::open(&s.disk, Options::default()).unwrap();
            s.compact().unwrap();
            assert_eq!(s.db.get(&[3]).unwrap(), Some(vec![3; 9]));
            s.verify().unwrap();
        }
        assert!(copying > 0);
    }
}

#[test]
fn a_fault_strikes_at_its_stage_and_nowhere_else() {
    for packed_pages in [false, true] {
        for compacting in [false, true] {
            let mut struck = 0;
            let mut spared = 0;
            for at in 1..60 {
                let mut s = Store::create(Options {
                    packed_pages,
                    ..Options::default()
                });
                s.put(b"a", b"old");
                let mut s = Store::open(
                    &s.disk,
                    Options {
                        fail_at: Some(at),
                        ..Options::default()
                    },
                )
                .unwrap();
                let r = if compacting {
                    s.db.compact(&s.disk.found())
                } else {
                    let mut t = s.begin();
                    t.set(&mut s.db, b"a".to_vec(), b"new".to_vec()).unwrap();
                    t.commit(&mut s.db).map(|_| ())
                };
                let steps = s.db.take_steps();
                let text = ends_with(&steps);
                match r {
                    Ok(()) => {
                        spared += 1;
                        assert!(reached(&steps) < at);
                        assert_eq!(text, "injected failure directory_sync");
                        let written = steps
                            .iter()
                            .rposition(|x| matches!(x, Step::Write { .. }))
                            .unwrap();
                        let synced = steps
                            .iter()
                            .rposition(|x| matches!(x, Step::Sync { .. }))
                            .unwrap();
                        let shown = steps
                            .iter()
                            .position(|x| matches!(x, Step::ReplaceManifest))
                            .unwrap();
                        assert!(written < synced && synced < shown);
                    }
                    Err(e) => {
                        struck += 1;
                        assert_eq!(reached(&steps), at);
                        assert!(matches!(e, Error::Io(t) if t == text));
                    }
                }
            }
            assert!(struck >= 5 && spared > 0);
        }
    }
}

#[test]
fn capacities_are_those_of_the_containers() {
    for packed_pages in [false, true] {
        let mut s = Store::create(Options {
            packed_pages,
            ..Options::default()
        });
        assert_eq!(s.stats().cache_map_capacity, 0);
        assert_eq!(s.stats().cache_order_capacity, 0);
        for i in 0..60u8 {
            s.put(&[i], &[i; 20]);
        }
        let mut s = Store::open(
            &s.disk,
            Options {
                packed_pages,
                ..Options::default()
            },
        )
        .unwrap();
        for i in 0..60u8 {
            s.db.get(&[i]).unwrap();
        }
        let full = s.stats();
        let nodes = full.cache_entries - full.cache_value_entries - full.cache_page_entries;
        assert!(full.cache_entries > 0);
        assert!(full.cache_map_capacity >= nodes);
        assert!(full.cache_value_capacity >= full.cache_value_entries);
        assert!(full.cache_page_capacity >= full.cache_page_entries);
        assert!(full.cache_order_capacity >= full.cache_entries);
        // What is forgotten leaves its room behind.
        s.db.clear_cache();
        let cleared = s.stats();
        assert_eq!(cleared.cache_entries, 0);
        assert_eq!(cleared.cache_map_capacity, full.cache_map_capacity);
        assert_eq!(cleared.cache_value_capacity, full.cache_value_capacity);
        assert_eq!(cleared.cache_page_capacity, full.cache_page_capacity);
        assert_eq!(cleared.cache_order_capacity, full.cache_order_capacity);
        // What is retired leaves none.
        let old = s.pin();
        s.compact().unwrap();
        old.get(&mut s.db, &[7]).unwrap();
        let retired = s.stats();
        assert_eq!(retired.retained_epochs, 1);
        assert_eq!(retired.retired_cache_map_capacity, 0);
        assert_eq!(retired.retired_cache_order_capacity, 0);
        assert_eq!(retired.retired_cache_value_capacity, 0);
        assert_eq!(retired.retired_cache_page_capacity, 0);
    }
}

#[test]
fn a_scan_is_charged_for_what_it_gives() {
    for packed_pages in [false, true] {
        let mut s = Store::create(Options {
            packed_pages,
            ..Options::default()
        });
        s.put(b"b", b"22");
        s.put(b"c", b"33");
        // Two rows of three bytes each, at 128 more for each row.
        for (scan_bytes, enough) in [(262, true), (261, false)] {
            let mut s = Store::open(
                &s.disk,
                Options {
                    scan_bytes,
                    ..Options::default()
                },
            )
            .unwrap();
            let mut t = s.begin();
            t.set(&mut s.db, b"a".to_vec(), b"11".to_vec()).unwrap();
            t.delete(&mut s.db, b"c".to_vec()).unwrap();
            let r = t.scan(&mut s.db, b"", None);
            if enough {
                let want = [(b"a".to_vec(), b"11".to_vec()), (b"b".to_vec(), b"22".to_vec())];
                assert_eq!(r.unwrap(), rows(&want.into_iter().collect()));
            } else {
                assert!(matches!(r, Err(Error::Budget(_))));
            }
        }
        // A version gives both rows at 64 more for each.
        for (scan_bytes, enough) in [(134, true), (133, false)] {
            let mut s = Store::open(
                &s.disk,
                Options {
                    scan_bytes,
                    ..Options::default()
                },
            )
            .unwrap();
            assert_eq!(s.db.scan_prefix(&[]).is_ok(), enough);
        }
    }
}

#[test]
fn an_interrupted_commit_is_all_or_nothing() {
    for packed_pages in [false, true] {
        let mut s = Store::create(Options {
            packed_pages,
            ..Options::default()
        });
        let mut t = s.begin();
        t.set(&mut s.db, b"a".to_vec(), b"old".to_vec()).unwrap();
        t.set(&mut s.db, b"b".to_vec(), b"old".to_vec()).unwrap();
        s.commit(t).unwrap();
        let before = s.disk.clone();
        let old = s.db.scan_prefix(&[]).unwrap();
        let mut t = s.begin();
        t.set(&mut s.db, b"a".to_vec(), b"new".to_vec()).unwrap();
        t.set(&mut s.db, b"c".to_vec(), vec![9; 3000]).unwrap();
        t.commit(&mut s.db).unwrap();
        let new = s.db.scan_prefix(&[]).unwrap();
        let steps = s.db.take_steps();
        let mut published = false;
        for n in 0..=steps.len() {
            let mut disk = before.clone();
            disk.carry_out(&steps[..n]);
            published = steps[..n]
                .iter()
                .any(|x| matches!(x, Step::ReplaceManifest));
            let mut r = Store::open(&disk, Options::default()).unwrap();
            assert_eq!(
                r.db.scan_prefix(&[]).unwrap(),
                if published { new.clone() } else { old.clone() }
            );
            r.verify().unwrap();
        }
        assert!(published);
    }
}

#[test]
fn an_interrupted_compaction_keeps_the_contents() {
    for packed_pages in [false, true] {
        let mut s = Store::create(Options {
            packed_pages,
            ..Options::default()
        });
        for i in 0..20u8 {
            s.put(&[i], &vec![i; 100 * i as usize]);
        }
        s.remove(&[7]);
        let before = s.disk.clone();
        let want = s.db.scan_prefix(&[]).unwrap();
        s.db.compact(&before.found()).unwrap();
        let steps = s.db.take_steps();
        for n in 0..=steps.len() {
            let mut disk = before.clone();
            disk.carry_out(&steps[..n]);
            let mut r = Store::open(&disk, Options::default()).unwrap();
            assert_eq!(r.db.scan_prefix(&[]).unwrap(), want);
            r.verify().unwrap();
        }
    }
}

#[test]
fn budgets_and_sizes_that_are_refused() {
    let mut steps = Vec::new();
    for options in [
        Options {
            transaction_bytes: 0,
            ..Options::default()
        },
        Options {
            scan_bytes: 0,
            ..Options::default()
        },
        Options {
            write_chunk: Some(0),
            ..Options::default()
        },
    ] {
        assert!(matches!(
            Database::create(options, &mut steps),
            Err(Error::Budget(_))
        ));
    }
    assert!(steps.is_empty());
    let mut s = Store::create(Options::default());
    let mut t = s.begin();
    assert!(matches!(
        t.set(&mut s.db, vec![0; 4097], vec![]),
        Err(Error::Budget(_))
    ));
    assert!(matches!(
        t.set(&mut s.db, vec![0], vec![0; 16 * 1024 * 1024 + 1]),
        Err(Error::Budget(_))
    ));
    assert!(matches!(
        t.delete(&mut s.db, vec![0; 4097]),
        Err(Error::Budget(_))
    ));
    assert!(matches!(
        s.db.get(&vec![0; 4097]),
        Err(Error::Budget(_))
    ));
    assert_eq!(t.staged_bytes(), 0);
    s.db.poison();
    assert!(matches!(s.db.snapshot(), Err(Error::Poisoned)));
    assert!(matches!(s.db.begin(), Err(Error::Poisoned)));
    assert!(matches!(s.compact(), Err(Error::Poisoned)));
}

#[test]
fn a_manifest_reads_back_and_rejects_every_flipped_bit() {
    let mut s = Store::create(Options::default());
    s.put(b"key", b"value");
    let (root, packed) = read_manifest(&s.disk.manifest).unwrap();
    assert_eq!(root, s.db.snapshot().unwrap().root);
    assert!(!packed);
    assert_eq!(s.disk.manifest.len(), 64);
    for at in 0..s.disk.manifest.len() {
        for bit in 0..8 {
            let mut bad = s.disk.manifest.clone();
            bad[at] ^= 1 << bit;
            assert!(read_manifest(&bad).is_err(), "{at} {bit}");
        }
    }
    assert!(read_manifest(&s.disk.manifest[..63]).is_err());
}

#[test]
fn buffers_and_caches_change_no_persistent_byte() {
    for packed_pages in [false, true] {
        let mut files: Option<(BTreeMap<u64, Vec<u8>>, Vec<u8>)> = None;
        for (append_buffer, value_cache, cache_bytes) in [
            (true, false, 8 * 1024 * 1024),
            (false, false, 8 * 1024 * 1024),
            (true, true, 8 * 1024 * 1024),
            (false, true, 1024),
            (true, false, 0),
        ] {
            let mut store = Store::create(Options {
                append_buffer,
                value_cache,
                cache_bytes,
                packed_pages,
                ..Options::default()
            });
            let mut state = 5u64;
            for _ in 0..12 {
                let mut t = store.begin();
                for _ in 0..20 {
                    let n = next(&mut state) >> 33;
                    let key = (n % 97).to_be_bytes().to_vec();
                    if n % 5 == 0 {
                        t.delete(&mut store.db, key).unwrap();
                    } else {
                        let value = vec![n as u8; (n % 3000) as usize];
                        t.set(&mut store.db, key, value).unwrap();
                    }
                }
                store.commit(t).unwrap();
                let view = store.pin();
                view.scan(&mut store.db, &[], None).unwrap();
                store.unpin(view);
            }
            store.compact().unwrap();
            store.put(b"last", b"one");
            let now = (store.disk.arenas.clone(), store.disk.manifest.clone());
            match &files {
                None => files = Some(now),
                Some(first) => assert!(*first == now),
            }
        }
    }
}

#[test]
fn scans_leave_values_out_of_the_cache() {
    let mut store = Store::create(Options {
        value_cache: true,
        ..Options::default()
    });
    for i in 0..20u8 {
        store.put(&[i], &[i; 64]);
    }
    store.db.clear_cache();
    assert_eq!(store.db.scan_prefix(&[]).unwrap().len(), 20);
    assert_eq!(store.stats().cache_value_entries, 0);
    assert_eq!(store.db.get(&[3]).unwrap(), Some(vec![3; 64]));
    assert_eq!(store.stats().cache_value_entries, 1);
}

fn populate() -> Store {
    let mut s = Store::create(Options::default());
    let mut t = s.begin();
    t.set(&mut s.db, b"a".to_vec(), b"old".to_vec()).unwrap();
    t.set(&mut s.db, b"b".to_vec(), b"old".to_vec()).unwrap();
    s.commit(t).unwrap();
    s
}

/// Carries out the steps up to a stage.
fn carry_out_to(disk: &mut Disk, steps: &[Step], stage: &str) -> bool {
    for step in steps {
        if matches!(step, Step::Reached(x) if x.name() == stage) {
            return true;
        }
        disk.step(step);
    }
    false
}

#[test]
fn process_exit_at_every_commit_publication_stage() {
    for stage in [
        "record_header",
        "record_payload",
        "append_flush_half",
        "append_flush",
        "data_sync",
        "manifest_write",
        "manifest_sync",
        "manifest_replace",
        "directory_sync",
    ] {
        let mut disk = populate().disk;
        let mut s = Store::open(&disk, Options::default()).unwrap();
        let mut t = s.begin();
        t.set(&mut s.db, b"a".to_vec(), b"new".to_vec()).unwrap();
        t.set(&mut s.db, b"b".to_vec(), b"new".to_vec()).unwrap();
        t.commit(&mut s.db).unwrap();
        assert!(carry_out_to(&mut disk, &s.db.take_steps(), stage), "{stage}");
        let mut s = Store::open(&disk, Options::default()).unwrap();
        let a = s.db.get(b"a").unwrap().unwrap();
        if matches!(stage, "manifest_replace" | "directory_sync") {
            assert_eq!(a, b"new");
        } else {
            assert_eq!(a, b"old");
        }
        assert_eq!(s.db.get(b"b").unwrap(), Some(a));
        s.verify().unwrap();
        s.put(b"after", b"recovery");
    }
}

#[test]
fn process_exit_during_compaction_does_not_mix_epochs() {
    for stage in [
        "record_header",
        "record_payload",
        "append_flush_half",
        "append_flush",
        "compact_data_sync",
        "manifest_write",
        "manifest_sync",
        "manifest_replace",
        "directory_sync",
    ] {
        let mut disk = populate().disk;
        let mut s = Store::open(&disk, Options::default()).unwrap();
        s.db.compact(&disk.found()).unwrap();
        assert!(carry_out_to(&mut disk, &s.db.take_steps(), stage), "{stage}");
        let mut s = Store::open(&disk, Options::default()).unwrap();
        assert_eq!(s.db.get(b"a").unwrap(), Some(b"old".to_vec()));
        assert_eq!(s.db.get(b"b").unwrap(), Some(b"old".to_vec()));
        s.compact().unwrap();
        s.collect();
        s.verify().unwrap();
    }
}

fn seeded(n: u64) -> Store {
    let mut s = Store::create(Options::default());
    let mut t = s.begin();
    for i in 0..n {
        t.set(
            &mut s.db,
            i.to_be_bytes().to_vec(),
            i.to_le_bytes().to_vec(),
        )
        .unwrap();
    }
    s.commit(t).unwrap();
    s
}

#[test]
fn compaction_blocks_commit_but_preserves_snapshot_and_serializability() {
    let mut s = seeded(6000);
    let pinned = s.pin();
    let before = pinned.get(&mut s.db, &0u64.to_be_bytes()).unwrap();
    let mut t = s.begin();
    t.set(&mut s.db, b"during".to_vec(), b"write".to_vec())
        .unwrap();
    s.compact().unwrap();
    s.commit(t).unwrap();
    assert_eq!(
        pinned.get(&mut s.db, &0u64.to_be_bytes()).unwrap(),
        before
    );
    assert_eq!(s.db.get(b"during").unwrap(), Some(b"write".to_vec()));
    s.verify().unwrap();
}

#[test]
fn disjoint_transactions_progress_in_parallel_until_single_writer_commit() {
    let mut s = seeded(128);
    let mut commits = 0;
    for j in 0..20u64 {
        let mut open = Vec::new();
        for tid in 0..8u64 {
            let mut t = s.begin();
            let key = (128 + tid * 20 + j).to_be_bytes().to_vec();
            t.set(&mut s.db, key, vec![tid as u8, j as u8]).unwrap();
            open.push(t);
        }
        for t in open {
            s.commit(t).unwrap();
            commits += 1;
        }
    }
    assert_eq!(commits, 160);
    assert_eq!(s.db.scan_prefix(&[]).unwrap().len(), 288);
    for tid in 0..8u64 {
        for j in 0..20u64 {
            let key = (128 + tid * 20 + j).to_be_bytes();
            assert_eq!(s.db.get(&key).unwrap(), Some(vec![tid as u8, j as u8]));
        }
    }
    s.verify().unwrap();
}

/// A store of one compacted arena, all of whose records are in use.
fn compacted(packed_pages: bool) -> Store {
    let mut s = Store::create(Options {
        packed_pages,
        ..Options::default()
    });
    let mut t = s.begin();
    for i in 0..6u8 {
        t.set(&mut s.db, vec![i, 7], vec![i; 40]).unwrap();
    }
    t.set(&mut s.db, vec![9], vec![5; 1500]).unwrap();
    s.commit(t).unwrap();
    s.compact().unwrap();
    s.collect();
    s
}

#[test]
fn every_changed_byte_is_found_but_for_lengths() {
    for packed_pages in [false, true] {
        let s = compacted(packed_pages);
        let epoch = s.db.view.root.epoch;
        let arena = s.disk.arenas[&epoch].clone();
        let keys: Vec<Vec<u8>> = (0..6u8).map(|i| vec![i, 7]).chain([vec![9]]).collect();
        let mut at = 8;
        let mut records = 0;
        let (mut refused, mut found) = (0, 0);
        while at < arena.len() {
            let len = u32::from_le_bytes(arena[at + 24..at + 28].try_into().unwrap()) as usize;
            for p in (at..at + 24).chain(at + 28..at + 32 + len) {
                if p >= at + 60 && p % 17 != 0 {
                    continue;
                }
                let mut disk = s.disk.clone();
                disk.arenas.get_mut(&epoch).unwrap()[p] ^= 0x40;
                // The root is looked at already when a store is opened.
                let mut s = match Store::open(&disk, Options::default()) {
                    Ok(s) => s,
                    Err(e) => {
                        assert!(matches!(e, Error::Corrupt(_)));
                        refused += 1;
                        continue;
                    }
                };
                found += 1;
                assert!(s.verify().is_err());
                assert!(matches!(s.db.scan_prefix(&[]), Err(Error::Corrupt(_))));
                let view = s.db.snapshot().unwrap();
                assert!(view.scan(&mut s.db, &[], None).is_err());
                assert!(view.scan_prefix(&mut s.db, &[]).is_err());
                let mut t = s.begin();
                assert!(t.scan(&mut s.db, &[], None).is_err());
                assert_eq!(t.staged_bytes(), 0);
                let failed = keys
                    .iter()
                    .filter(|k| s.db.get(k).is_err() && view.get(&mut s.db, k).is_err())
                    .count();
                assert!(failed > 0);
                assert!(keys.iter().any(|k| s.begin().get(&mut s.db, k).is_err()));
            }
            records += 1;
            at += 32 + len;
        }
        assert_eq!(at, arena.len());
        assert!(records >= 3);
        assert!(refused > 0 && found > 0);
        let mut s = Store::open(&s.disk, Options::default()).unwrap();
        assert_eq!(s.verify().unwrap(), 7);
        assert_eq!(s.db.scan_prefix(&[]).unwrap().len(), 7);
    }
}

#[test]
fn a_transaction_is_charged_for_what_it_remembers() {
    let mut s = Store::create(Options {
        transaction_bytes: 2000,
        ..Options::default()
    });
    s.put(b"a", b"1");
    let mut t = s.begin();
    assert_eq!(t.get(&mut s.db, b"a").unwrap(), Some(b"1".to_vec()));
    assert_eq!(t.get(&mut s.db, b"a").unwrap(), Some(b"1".to_vec()));
    assert_eq!(t.staged_bytes(), 129);
    t.set(&mut s.db, b"bb".to_vec(), vec![0; 10]).unwrap();
    assert_eq!(t.staged_bytes(), 129 + 130 + 204);
    t.delete(&mut s.db, b"bb".to_vec()).unwrap();
    assert_eq!(t.staged_bytes(), 129 + 130 + 194);
    t.scan(&mut s.db, b"a", Some(b"c")).unwrap();
    assert_eq!(t.staged_bytes(), 129 + 130 + 194 + 130);
    let before = t.staged_bytes();
    assert!(matches!(
        t.set(&mut s.db, b"big".to_vec(), vec![0; 2000]),
        Err(Error::Budget(_))
    ));
    assert!(matches!(
        t.get(&mut s.db, &[0; 1900]),
        Err(Error::Budget(_))
    ));
    assert!(matches!(
        t.scan(&mut s.db, &[0; 1900], None),
        Err(Error::Budget(_))
    ));
    assert_eq!(t.staged_bytes(), before);
    assert!(t.reads.contains_key(b"a") && t.reads.contains_key(b"bb"));
    assert_eq!(t.reads.len(), 2);
    s.put(b"a", b"2");
    assert!(matches!(s.commit(t), Err(Error::Conflict)));
}

#[test]
fn a_grouped_batch_builds_a_low_tree_and_keeps_its_shape() {
    let options = Options {
        grouped_updates: true,
        ..Options::default()
    };
    let mut s = Store::create(options);
    let batch = |s: &mut Store, v: u8| {
        let mut t = s.begin();
        for i in 0..7u8 {
            t.set(&mut s.db, vec![i], vec![v; 3]).unwrap();
        }
        s.commit(t).unwrap();
    };
    batch(&mut s, 1);
    let shape = |s: &mut Store| {
        let root = s.db.view.root;
        let mut out = Vec::new();
        let mut todo = vec![root.root];
        while let Some(at) = todo.pop() {
            if at != 0 {
                let n = s.db.current.node(at, root.end).unwrap();
                out.push((n.key.clone(), n.height));
                todo.push(n.left);
                todo.push(n.right);
            }
        }
        out
    };
    let first = shape(&mut s);
    assert_eq!(first[0], (vec![3], 3));
    assert_eq!(first.len(), 7);
    batch(&mut s, 2);
    assert_eq!(shape(&mut s), first);
    assert_eq!(s.db.get(&[6]).unwrap(), Some(vec![2; 3]));
}

#[test]
fn cached_values_are_charged_for_what_is_allocated() {
    let mut s = Store::create(Options {
        value_cache: true,
        cache_bytes: 16 * 1024,
        ..Options::default()
    });
    s.put(b"k", &[1; 1000]);
    s.put(b"large", &[2; 1900]);
    s.db.clear_cache();
    assert_eq!(s.db.get(b"k").unwrap(), Some(vec![1; 1000]));
    let st = s.stats();
    assert_eq!(st.cache_value_entries, 1);
    let nodes = st.cache_entries - 1;
    assert!(st.cache_bytes >= 1000 + 192 + nodes * 193);
    assert_eq!(s.db.get(b"large").unwrap(), Some(vec![2; 1900]));
    assert_eq!(s.stats().cache_value_entries, 1);
}

#[test]
fn a_changed_length_may_leave_a_record_readable() {
    let mut s = Store::create(Options::default());
    s.put(b"k", &[6, 210, 209, 13, 0]);
    let mut disk = s.disk.clone();
    let arena = disk.arenas.get_mut(&0).unwrap();
    assert_eq!(arena[8 + 8], 2);
    assert_eq!(arena[8 + 24], 5);
    arena[8 + 24] = 4;
    let mut s = Store::open(&disk, Options::default()).unwrap();
    assert_eq!(s.verify().unwrap(), 1);
    assert_eq!(s.db.get(b"k").unwrap(), Some(vec![6, 210, 209, 13]));
}

#[test]
fn compaction_leaves_nothing_but_what_is_in_use() {
    for packed_pages in [false, true] {
        let mut s = Store::create(Options {
            packed_pages,
            ..Options::default()
        });
        for n in 0..9u8 {
            s.put(b"a", &[n; 100]);
            s.put(&[n, n], &[n; 50]);
            s.put(b"gone", &[n; 70]);
        }
        s.remove(b"gone");
        let before = s.db.view.root.end;
        s.compact().unwrap();
        // One value record and one node record per row, or one page and the node of its fence.
        let want = if packed_pages {
            8 + 48 + (24 + 1 + 100) + 9 * (24 + 2 + 50) + 72
        } else {
            8 + (32 + 100 + 72 + 1) + 9 * (32 + 50 + 72 + 2)
        };
        assert_eq!(s.db.view.root.end, want);
        assert!(want < before);
        assert_eq!(s.disk.arenas[&s.db.view.root.epoch].len() as u64, want);
        assert_eq!(s.verify().unwrap(), 10);
        s.compact().unwrap();
        assert_eq!(s.db.view.root.end, want);
        s.remove(b"a");
        for n in 0..9u8 {
            s.remove(&[n, n]);
        }
        s.compact().unwrap();
        assert_eq!(s.db.view.root.end, 8);
        assert_eq!(s.disk.arenas[&s.db.view.root.epoch].len(), 8);
    }
}

#[test]
fn a_record_is_written_at_once_or_held_back() {
    for append_buffer in [false, true] {
        let mut s = Store::create(Options {
            append_buffer,
            ..Options::default()
        });
        let mut t = s.begin();
        t.set(&mut s.db, vec![1], vec![2; 10]).unwrap();
        t.commit(&mut s.db).unwrap();
        let steps = s.db.take_steps();
        let names: Vec<String> = steps
            .iter()
            .take_while(|x| !matches!(x, Step::Sync { .. }))
            .map(|x| match x {
                Step::Write { at, bytes, .. } => format!("{} {}", at, bytes.len()),
                Step::Reached(stage) => stage.name().to_string(),
                _ => "other".to_string(),
            })
            .collect();
        if append_buffer {
            // A value of 42 bytes and a node of 73, written in two halves.
            assert_eq!(
                names,
                [
                    "record_header",
                    "record_payload",
                    "record_header",
                    "record_payload",
                    "8 57",
                    "append_flush_half",
                    "65 58",
                    "append_flush",
                ]
            );
        } else {
            assert_eq!(
                names,
                [
                    "8 32",
                    "record_header",
                    "40 10",
                    "record_payload",
                    "50 32",
                    "record_header",
                    "82 41",
                    "record_payload",
                ]
            );
        }
    }
}

#[test]
fn a_grouped_replacement_writes_the_path_to_each_key() {
    let mut s = Store::create(Options {
        grouped_updates: true,
        ..Options::default()
    });
    let mut t = s.begin();
    for i in 0..7u8 {
        t.set(&mut s.db, vec![i], vec![1; 3]).unwrap();
    }
    s.commit(t).unwrap();
    assert_eq!(s.db.view.root.end, 8 + 7 * (32 + 3 + 72 + 1));
    let before = s.db.view.root.end;
    let mut t = s.begin();
    t.set(&mut s.db, vec![0], vec![2; 5]).unwrap();
    t.set(&mut s.db, vec![2], vec![2; 9]).unwrap();
    s.commit(t).unwrap();
    // Two values, and the nodes of 0, 2, 1 above both and 3 at the root.
    assert_eq!(s.db.view.root.end, before + (32 + 5) + (32 + 9) + 4 * 73);
}
