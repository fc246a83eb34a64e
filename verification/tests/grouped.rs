use std::collections::BTreeMap;
use udb_lab::spi::manifest::read_manifest;
use udb_lab::spi::{Database, Entry, Error, Options, Snapshot, Stats, Step, Transaction};

/// The files of a store, in memory.
#[derive(Clone)]
struct Disk {
    arenas: BTreeMap<u64, Vec<u8>>,
    manifest: Vec<u8>,
    pending: Vec<u8>,
}

impl Disk {
    fn step(&mut self, step: &Step) {
        match step {
            Step::Create { epoch } => {
                assert!(self.arenas.insert(*epoch, Vec::new()).is_none());
            }
            Step::Write { epoch, at, bytes } => {
                let file = self.arenas.get_mut(epoch).unwrap();
                let at = *at as usize;
                if file.len() < at + bytes.len() {
                    file.resize(at + bytes.len(), 0);
                }
                file[at..at + bytes.len()].copy_from_slice(bytes);
            }
            Step::Manifest { bytes } => self.pending = bytes.clone(),
            Step::ReplaceManifest => self.manifest = self.pending.clone(),
            _ => {}
        }
    }

    fn carry_out(&mut self, steps: &[Step]) {
        for step in steps {
            self.step(step);
        }
    }

    fn found(&self) -> Vec<u64> {
        self.arenas.keys().copied().collect()
    }
}

/// A store with its files and the snapshots that are held.
struct Store {
    db: Database,
    disk: Disk,
    pins: Vec<u64>,
}

impl Store {
    fn create(options: Options) -> Store {
        let mut disk = Disk {
            arenas: BTreeMap::new(),
            manifest: Vec::new(),
            pending: Vec::new(),
        };
        let mut steps = Vec::new();
        let db = Database::create(options, &mut steps).unwrap();
        disk.carry_out(&steps);
        Store {
            db,
            disk,
            pins: Vec::new(),
        }
    }

    fn open(disk: &Disk, options: Options) -> Result<Store, Error> {
        let (root, _) = read_manifest(&disk.manifest)?;
        let arena = disk.arenas[&root.epoch].clone();
        let db = Database::open(&disk.manifest, arena, options)?;
        Ok(Store {
            db,
            disk: disk.clone(),
            pins: Vec::new(),
        })
    }

    fn settle(&mut self) {
        let steps = self.db.take_steps();
        self.disk.carry_out(&steps);
    }

    fn begin(&self) -> Transaction {
        self.db.begin().unwrap()
    }

    fn commit(&mut self, t: Transaction) -> Result<u64, Error> {
        let r = t.commit(&mut self.db);
        self.settle();
        r
    }

    fn put(&mut self, key: &[u8], value: &[u8]) {
        let mut t = self.begin();
        t.set(&mut self.db, key.to_vec(), value.to_vec()).unwrap();
        self.commit(t).unwrap();
    }

    fn remove(&mut self, key: &[u8]) {
        let mut t = self.begin();
        t.delete(&mut self.db, key.to_vec()).unwrap();
        self.commit(t).unwrap();
    }

    fn pin(&mut self) -> Snapshot {
        let s = self.db.snapshot().unwrap();
        self.pins.push(s.root.epoch);
        s
    }

    fn unpin(&mut self, s: Snapshot) {
        let at = self.pins.iter().position(|p| *p == s.root.epoch).unwrap();
        self.pins.remove(at);
    }

    fn compact(&mut self) -> Result<(), Error> {
        let found = self.disk.found();
        let r = self.db.compact(&found);
        self.settle();
        r
    }

    fn collect(&mut self) -> usize {
        let found = self.disk.found();
        let gone = self.db.collect(&self.pins, &found).unwrap();
        for id in &gone {
            self.disk.arenas.remove(id);
            self.db.forget(*id);
        }
        gone.len()
    }

    fn verify(&self) -> Result<u64, Error> {
        let epoch = self.db.snapshot()?.root.epoch;
        self.db.verify(self.disk.arenas[&epoch].clone())
    }

    fn stats(&self) -> Stats {
        let epoch = self.db.view.root.epoch;
        self.db.stats(self.disk.arenas[&epoch].len() as u64, 0)
    }
}

fn rows(m: &BTreeMap<Vec<u8>, Vec<u8>>) -> Vec<Entry> {
    m.iter()
        .map(|(key, value)| Entry {
            key: key.clone(),
            value: value.clone(),
        })
        .collect()
}

fn next(s: &mut u64) -> u64 {
    *s = s
        .wrapping_mul(6364136223846793005)
        .wrapping_add(1442695040888963407);
    *s
}

type Batch = BTreeMap<Vec<u8>, Option<Vec<u8>>>;

fn batch(s: &mut Store, items: &Batch) {
    let mut t = s.begin();
    for (k, v) in items {
        match v {
            Some(v) => t.set(&mut s.db, k.clone(), v.clone()).unwrap(),
            None => t.delete(&mut s.db, k.clone()).unwrap(),
        }
    }
    s.commit(t).unwrap();
}

fn initial(n: u16) -> Batch {
    (0..n)
        .map(|i| (i.to_be_bytes().to_vec(), Some(vec![1; 64])))
        .collect()
}

#[test]
fn grouped_bulk_and_replacements_reduce_actual_record_bytes() {
    assert!(!Options::default().grouped_updates);
    for buffered in [false, true] {
        let mut written = Vec::new();
        for grouped in [false, true] {
            let mut s = Store::create(Options {
                cache_bytes: 0,
                append_buffer: buffered,
                grouped_updates: grouped,
                ..Options::default()
            });
            batch(&mut s, &initial(256));
            let load = s.stats().bytes_written;
            if grouped {
                // Exactly one value and one node record per key, excluding arena header.
                assert_eq!(load, 256 * (32 + 64 + 32 + 40 + 2));
            }
            let old = s.db.snapshot().unwrap();
            let updates = (0..256u16)
                .map(|i| (i.to_be_bytes().to_vec(), Some(vec![2; 64])))
                .collect();
            batch(&mut s, &updates);
            let replaced = s.stats().bytes_written - load;
            if grouped {
                assert_eq!(replaced, load);
            }
            assert_eq!(s.verify().unwrap(), 256);
            assert!(old
                .scan(&mut s.db, &[], None)
                .unwrap()
                .iter()
                .all(|r| r.value == vec![1; 64]));
            assert!(s
                .db
                .scan_prefix(&[])
                .unwrap()
                .iter()
                .all(|r| r.value == vec![2; 64]));
            written.push((load, replaced));
        }
        assert!(written[1].0 < written[0].0 / 2, "{written:?}");
        assert!(written[1].1 < written[0].1 / 2, "{written:?}");
    }
}

#[test]
fn grouped_randomized_matches_control_oracle_and_pinned_epochs() {
    for (cache_bytes, append_buffer, value_cache) in
        [(0, true, false), (1024, false, false), (8192, true, true)]
    {
        let base = Options {
            cache_bytes,
            append_buffer,
            value_cache,
            ..Options::default()
        };
        let mut stores: Vec<Store> = (0..2)
            .map(|i| {
                Store::create(Options {
                    grouped_updates: i == 1,
                    ..base.clone()
                })
            })
            .collect();
        let mut oracle: BTreeMap<Vec<u8>, Vec<u8>> = BTreeMap::new();
        let mut pins: Vec<(Vec<Snapshot>, Vec<Entry>)> = Vec::new();
        let mut state = 71;
        for round in 0..45 {
            let mut writes = BTreeMap::new();
            if round == 0 {
                writes = initial(65);
                writes.insert(vec![], Some(vec![]));
                writes.insert(vec![255, 0, 255], Some(vec![3; 70000]));
                writes.insert(vec![255; 4096], Some(vec![8; 32]));
            } else if round % 3 == 0 {
                // Guaranteed replacement-only batches with clustered and sparse keys.
                for k in oracle.keys().step_by(3) {
                    writes.insert(k.clone(), Some(vec![round as u8; 65]));
                }
            } else {
                for _ in 0..24 {
                    let k = (next(&mut state) % 100) as u16;
                    let v = if next(&mut state) % 5 == 0 {
                        None
                    } else {
                        Some(vec![round as u8; (next(&mut state) % 80) as usize])
                    };
                    writes.insert(k.to_be_bytes().to_vec(), v);
                }
            }
            for s in stores.iter_mut() {
                batch(s, &writes);
            }
            for (k, v) in writes {
                if let Some(v) = v {
                    oracle.insert(k, v);
                } else {
                    oracle.remove(&k);
                }
            }
            let want = rows(&oracle);
            for s in stores.iter_mut() {
                assert_eq!(s.db.scan_prefix(&[]).unwrap(), want);
                assert_eq!(s.verify().unwrap(), oracle.len() as u64);
                for (k, v) in &oracle {
                    assert_eq!(s.db.get(k).unwrap().as_ref(), Some(v));
                }
                assert!(s.stats().cache_bytes <= cache_bytes);
            }
            if round % 11 == 0 {
                pins.push((stores.iter_mut().map(|s| s.pin()).collect(), want));
                for s in stores.iter_mut() {
                    s.compact().unwrap();
                    s.collect();
                }
            }
            for (snapshots, want) in &pins {
                for (snapshot, s) in snapshots.iter().zip(stores.iter_mut()) {
                    assert_eq!(&snapshot.scan(&mut s.db, &[], None).unwrap(), want);
                }
            }
        }
        for (snapshots, _) in pins {
            for (snapshot, s) in snapshots.iter().zip(stores.iter_mut()) {
                s.unpin(*snapshot);
            }
        }
        for s in stores.iter_mut() {
            s.collect();
        }
        // The sequential reader/writer opens both physical layouts unchanged.
        for s in &stores {
            let mut s = Store::open(&s.disk, base.clone()).unwrap();
            assert_eq!(s.db.scan_prefix(&[]).unwrap(), rows(&oracle));
            assert_eq!(s.verify().unwrap(), oracle.len() as u64);
        }
    }
}

#[test]
fn grouped_fallback_is_byte_identical_for_deletes_mixed_single_and_scratch_limits() {
    for budget in [4096, 32 * 1024 * 1024] {
        let mut stores: Vec<Store> = (0..2)
            .map(|i| {
                Store::create(Options {
                    grouped_updates: i == 1,
                    transaction_bytes: budget,
                    cache_bytes: 0,
                    ..Options::default()
                })
            })
            .collect();
        let mut batches: Vec<Batch> = vec![
            // Deletes on an empty tree.
            BTreeMap::from([(vec![0], None), (vec![1], None)]),
            BTreeMap::from([(vec![0], Some(vec![])), (vec![1], None)]),
            BTreeMap::from([(vec![2], Some(vec![1]))]),
            BTreeMap::from([(vec![0], None), (vec![1], Some(vec![3]))]),
        ];
        if budget == 4096 {
            // A small accepted staging budget as well as the default.
            batches.push(BTreeMap::from([(vec![1], None), (vec![2], None)]));
        }
        for writes in batches {
            for s in stores.iter_mut() {
                batch(s, &writes);
                s.verify().unwrap();
            }
            assert_eq!(stores[0].disk.arenas[&0], stores[1].disk.arenas[&0]);
        }
    }
    // More than 64 KiB of reference slots, but comfortably inside staging budget.
    let mut arenas = Vec::new();
    for i in 0..2 {
        let mut s = Store::create(Options {
            grouped_updates: i == 1,
            ..Options::default()
        });
        batch(&mut s, &initial(2049));
        s.verify().unwrap();
        arenas.push(s.disk.arenas[&0].clone());
    }
    assert_eq!(arenas[0], arenas[1]);
}

#[test]
fn grouped_preserves_logical_revisions_and_rejects_stale_reads_and_ranges() {
    let mut s = Store::create(Options {
        grouped_updates: true,
        ..Options::default()
    });
    batch(&mut s, &initial(7)); // Midpoint key 3 is the bulk-built root.
    let mut unaffected = s.begin();
    unaffected.get(&mut s.db, &3u16.to_be_bytes()).unwrap();
    let mut stale = s.begin();
    stale.get(&mut s.db, &0u16.to_be_bytes()).unwrap();
    let mut range = s.begin();
    range.scan(&mut s.db, &[], None).unwrap();
    batch(
        &mut s,
        &BTreeMap::from([
            (0u16.to_be_bytes().to_vec(), Some(vec![2])),
            (6u16.to_be_bytes().to_vec(), Some(vec![2])),
        ]),
    );
    // Root was copied, but its own logical revision must not change.
    unaffected
        .set(&mut s.db, b"independent".to_vec(), b"ok".to_vec())
        .unwrap();
    s.commit(unaffected).unwrap();
    assert!(matches!(s.commit(stale), Err(Error::Conflict)));
    assert!(matches!(s.commit(range), Err(Error::Conflict)));
    let mut duplicate = s.begin();
    duplicate
        .set(&mut s.db, vec![0, 0], b"first".to_vec())
        .unwrap();
    duplicate.delete(&mut s.db, vec![0, 0]).unwrap();
    duplicate
        .set(&mut s.db, vec![0, 0], b"last".to_vec())
        .unwrap();
    duplicate
        .set(&mut s.db, vec![0, 1], b"second".to_vec())
        .unwrap();
    s.commit(duplicate).unwrap();
    assert_eq!(s.db.get(&[0, 0]).unwrap(), Some(b"last".to_vec()));
    s.verify().unwrap();
}

#[test]
fn grouped_injected_failures_publish_only_complete_old_or_new_roots() {
    for populate in [false, true] {
        for buffered in [false, true] {
            let mut failures = 0;
            let mut successes = 0;
            for at in 1..=24 {
                let mut s = Store::create(Options::default());
                if populate {
                    batch(&mut s, &initial(2));
                }
                let old = s.db.scan_prefix(&[]).unwrap();
                let mut s = Store::open(
                    &s.disk,
                    Options {
                        grouped_updates: true,
                        append_buffer: buffered,
                        cache_bytes: 0,
                        fail_at: Some(at),
                        write_chunk: Some(3),
                        ..Options::default()
                    },
                )
                .unwrap();
                let pinned = s.db.snapshot().unwrap();
                let mut t = s.begin();
                for k in 0..2u16 {
                    t.set(&mut s.db, k.to_be_bytes().to_vec(), vec![2; 64])
                        .unwrap();
                }
                let result = s.commit(t);
                if result.is_err() {
                    failures += 1;
                    assert!(matches!(s.db.get(&[0, 0]), Err(Error::Poisoned)));
                } else {
                    successes += 1;
                }
                assert_eq!(pinned.scan(&mut s.db, &[], None).unwrap(), old);
                let mut s = Store::open(&s.disk, Options::default()).unwrap();
                let want: Vec<_> = (0..2u16)
                    .map(|k| Entry {
                        key: k.to_be_bytes().to_vec(),
                        value: vec![2; 64],
                    })
                    .collect();
                let actual = s.db.scan_prefix(&[]).unwrap();
                assert!(actual == old || actual == want, "{at}");
                if result.is_ok() {
                    assert_eq!(actual, want);
                }
                s.verify().unwrap();
                batch(
                    &mut s,
                    &BTreeMap::from([(b"retry".to_vec(), Some(b"ok".to_vec()))]),
                );
                s.verify().unwrap();
            }
            assert!(failures > 0 && successes > 0);
        }
    }
}

#[test]
fn grouped_process_exit_covers_bulk_and_replacement_publication() {
    for populate in [false, true] {
        for stage in [
            "record_header",
            "record_payload",
            "append_flush_half",
            "append_flush",
            "data_sync",
            "manifest_write",
            "manifest_sync",
            "manifest_replace",
            "directory_sync",
        ] {
            let mut s = Store::create(Options::default());
            if populate {
                batch(&mut s, &initial(2));
            }
            let old = s.db.scan_prefix(&[]).unwrap();
            let mut disk = s.disk.clone();
            let mut s = Store::open(
                &disk,
                Options {
                    grouped_updates: true,
                    cache_bytes: 0,
                    ..Options::default()
                },
            )
            .unwrap();
            let mut t = s.begin();
            for k in 0..2u16 {
                t.set(&mut s.db, k.to_be_bytes().to_vec(), vec![2; 64])
                    .unwrap();
            }
            t.commit(&mut s.db).unwrap();
            let mut reached = false;
            for step in s.db.take_steps() {
                if matches!(&step, Step::Reached(x) if x.name() == stage) {
                    reached = true;
                    break;
                }
                disk.step(&step);
            }
            assert!(reached, "{stage}");
            let mut s = Store::open(&disk, Options::default()).unwrap();
            let want: Vec<_> = (0..2u16)
                .map(|k| Entry {
                    key: k.to_be_bytes().to_vec(),
                    value: vec![2; 64],
                })
                .collect();
            assert_eq!(
                s.db.scan_prefix(&[]).unwrap(),
                if matches!(stage, "manifest_replace" | "directory_sync") {
                    want
                } else {
                    old
                }
            );
            s.verify().unwrap();
        }
    }
}
