use std::collections::BTreeMap;
use udb_lab::spi::epoch::Epoch;
use udb_lab::spi::manifest::read_manifest;
use udb_lab::spi::packed::{scan_with_mode, Cursor};
use udb_lab::spi::{Database, Entry, Error, Options, Snapshot, Stats, Step, Transaction};

/// The files of a store, in memory.
#[derive(Clone)]
struct Disk {
    arenas: BTreeMap<u64, Vec<u8>>,
    manifest: Vec<u8>,
    pending: Vec<u8>,
}

impl Disk {
    fn step(&mut self, step: &Step) {
        match step {
            Step::Create { epoch } => {
                assert!(self.arenas.insert(*epoch, Vec::new()).is_none());
            }
            Step::Write { epoch, at, bytes } => {
                let file = self.arenas.get_mut(epoch).unwrap();
                let at = *at as usize;
                if file.len() < at + bytes.len() {
                    file.resize(at + bytes.len(), 0);
                }
                file[at..at + bytes.len()].copy_from_slice(bytes);
            }
            Step::Manifest { bytes } => self.pending = bytes.clone(),
            Step::ReplaceManifest => self.manifest = self.pending.clone(),
            _ => {}
        }
    }

    fn carry_out(&mut self, steps: &[Step]) {
        for step in steps {
            self.step(step);
        }
    }

    fn found(&self) -> Vec<u64> {
        self.arenas.keys().copied().collect()
    }
}

/// A store with its files and the snapshots that are held.
struct Store {
    db: Database,
    disk: Disk,
    pins: Vec<u64>,
}

impl Store {
    fn create(options: Options) -> Store {
        let mut disk = Disk {
            arenas: BTreeMap::new(),
            manifest: Vec::new(),
            pending: Vec::new(),
        };
        let mut steps = Vec::new();
        let db = Database::create(options, &mut steps).unwrap();
        disk.carry_out(&steps);
        Store {
            db,
            disk,
            pins: Vec::new(),
        }
    }

    fn open(disk: &Disk, options: Options) -> Result<Store, Error> {
        let (root, _) = read_manifest(&disk.manifest)?;
        let arena = disk.arenas[&root.epoch].clone();
        let db = Database::open(&disk.manifest, arena, options)?;
        Ok(Store {
            db,
            disk: disk.clone(),
            pins: Vec::new(),
        })
    }

    fn settle(&mut self) {
        let steps = self.db.take_steps();
        self.disk.carry_out(&steps);
    }

    fn begin(&self) -> Transaction {
        self.db.begin().unwrap()
    }

    fn commit(&mut self, t: Transaction) -> Result<u64, Error> {
        let r = t.commit(&mut self.db);
        self.settle();
        r
    }

    fn put(&mut self, key: &[u8], value: &[u8]) {
        let mut t = self.begin();
        t.set(&mut self.db, key.to_vec(), value.to_vec()).unwrap();
        self.commit(t).unwrap();
    }

    fn remove(&mut self, key: &[u8]) {
        let mut t = self.begin();
        t.delete(&mut self.db, key.to_vec()).unwrap();
        self.commit(t).unwrap();
    }

    fn pin(&mut self) -> Snapshot {
        let s = self.db.snapshot().unwrap();
        self.pins.push(s.root.epoch);
        s
    }

    fn unpin(&mut self, s: Snapshot) {
        let at = self.pins.iter().position(|p| *p == s.root.epoch).unwrap();
        self.pins.remove(at);
    }

    fn compact(&mut self) -> Result<(), Error> {
        let found = self.disk.found();
        let r = self.db.compact(&found);
        self.settle();
        r
    }

    fn collect(&mut self) -> usize {
        let found = self.disk.found();
        let gone = self.db.collect(&self.pins, &found).unwrap();
        for id in &gone {
            self.disk.arenas.remove(id);
            self.db.forget(*id);
        }
        gone.len()
    }

    fn verify(&self) -> Result<u64, Error> {
        let epoch = self.db.snapshot()?.root.epoch;
        self.db.verify(self.disk.arenas[&epoch].clone())
    }

    fn stats(&self) -> Stats {
        let epoch = self.db.view.root.epoch;
        self.db.stats(self.disk.arenas[&epoch].len() as u64, 0)
    }
}

fn rows(m: &BTreeMap<Vec<u8>, Vec<u8>>) -> Vec<Entry> {
    m.iter()
        .map(|(key, value)| Entry {
            key: key.clone(),
            value: value.clone(),
        })
        .collect()
}

fn next(s: &mut u64) -> u64 {
    *s = s
        .wrapping_mul(6364136223846793005)
        .wrapping_add(1442695040888963407);
    *s
}

fn packed_store(options: Options) -> Store {
    Store::create(Options {
        packed_pages: true,
        ..options
    })
}

fn initial(s: &mut Store) {
    let mut t = s.begin();
    for i in 0..500u16 {
        t.set(&mut s.db, i.to_be_bytes().to_vec(), vec![1; 64])
            .unwrap();
    }
    t.set(&mut s.db, vec![], vec![]).unwrap();
    s.commit(t).unwrap();
}

fn entry(key: &[u8], value: &[u8]) -> Entry {
    Entry {
        key: key.to_vec(),
        value: value.to_vec(),
    }
}

#[test]
fn packed_oracle_splits_deltas_binary_values_snapshots_and_reopen() {
    for (cache, buffer) in [(0, true), (1024, false), (8 * 1024 * 1024, true)] {
        let opts = Options {
            packed_pages: true,
            cache_bytes: cache,
            append_buffer: buffer,
            ..Options::default()
        };
        let mut s = Store::create(opts);
        let mut oracle: BTreeMap<Vec<u8>, Vec<u8>> = BTreeMap::new();
        let mut state = 71;
        let mut pins: Vec<(Snapshot, Vec<Entry>)> = Vec::new();
        for round in 0..35 {
            let mut t = s.begin();
            let count = if round == 0 { 400 } else { 20 };
            for _ in 0..count {
                let k = (next(&mut state) >> 32) as u16 % 500;
                let k = k.to_be_bytes().to_vec();
                if round > 0 && next(&mut state) % 4 == 0 {
                    t.delete(&mut s.db, k.clone()).unwrap();
                    oracle.remove(&k);
                } else {
                    let v = vec![round as u8; (next(&mut state) % 300) as usize];
                    t.set(&mut s.db, k.clone(), v.clone()).unwrap();
                    oracle.insert(k, v);
                }
            }
            // Force overflow, exact page boundary and empty/max binary keys.
            for (k, v) in [
                (vec![], vec![]),
                (vec![255; 4096], vec![round as u8; 70000]),
                (vec![0, 255, 0], vec![round as u8; 1024]),
                (vec![255, 0, 255], vec![round as u8; 1025]),
            ] {
                t.set(&mut s.db, k.clone(), v.clone()).unwrap();
                oracle.insert(k, v);
            }
            assert_eq!(t.scan(&mut s.db, &[], None).unwrap(), rows(&oracle));
            s.commit(t).unwrap();
            assert_eq!(s.db.scan_prefix(&[]).unwrap(), rows(&oracle));
            assert_eq!(s.verify().unwrap(), oracle.len() as u64);
            for (k, v) in oracle.iter().step_by(7) {
                assert_eq!(s.db.get(k).unwrap().as_ref(), Some(v));
            }
            let lo = 100u16.to_be_bytes().to_vec();
            let hi = 300u16.to_be_bytes().to_vec();
            let want: Vec<_> = oracle
                .range(lo.clone()..hi.clone())
                .map(|(k, v)| entry(k, v))
                .collect();
            let now = s.db.snapshot().unwrap();
            assert_eq!(now.scan(&mut s.db, &lo, Some(&hi)).unwrap(), want);
            if round % 9 == 0 {
                pins.push((s.pin(), rows(&oracle)));
                s.compact().unwrap();
                s.collect();
            }
            for (pin, want) in &pins {
                assert_eq!(pin.scan(&mut s.db, &[], None).unwrap(), *want);
            }
            assert!(s.stats().cache_bytes <= cache);
        }
        for (pin, _) in pins {
            s.unpin(pin);
        }
        s.collect();
        let mut s = Store::open(&s.disk, Options::default()).unwrap(); // Format inferred from manifest.
        assert_eq!(s.db.scan_prefix(&[]).unwrap(), rows(&oracle));
        let mut t = s.begin();
        for k in oracle.keys() {
            t.delete(&mut s.db, k.clone()).unwrap();
        }
        s.commit(t).unwrap();
        assert!(s.db.snapshot().unwrap().is_empty());
        s.compact().unwrap();
        assert_eq!(s.verify().unwrap(), 0);
        s.remove(b"absent");
        s.put(b"restart", b"ok");
        assert_eq!(s.db.get(b"restart").unwrap(), Some(b"ok".to_vec()));
        s.verify().unwrap();
    }
}

#[test]
fn packed_logical_conflicts_do_not_follow_physical_pages() {
    let mut s = packed_store(Options::default());
    initial(&mut s);
    let mut a = s.begin();
    let mut b = s.begin();
    a.set(&mut s.db, vec![0, 1], b"a".to_vec()).unwrap();
    b.set(&mut s.db, vec![0, 2], b"b".to_vec()).unwrap();
    s.commit(a).unwrap();
    s.commit(b).unwrap();
    let mut stale = s.begin();
    stale.get(&mut s.db, &[0, 1]).unwrap();
    s.put(&[0, 1], b"other");
    assert!(matches!(s.commit(stale), Err(Error::Conflict)));
    let mut range = s.begin();
    range.scan(&mut s.db, b"t/", Some(b"u/")).unwrap();
    s.put(b"t/new", b"yes");
    assert!(matches!(s.commit(range), Err(Error::Conflict)));
    let mut missing = s.begin();
    missing.get(&mut s.db, b"missing").unwrap();
    s.put(b"missing", b"x");
    s.remove(b"missing");
    assert!(matches!(s.commit(missing), Err(Error::Conflict)));
    s.verify().unwrap();
}

#[test]
fn packed_full_scan_reduces_record_reads_and_storage_bytes() {
    let mut counts = Vec::new();
    for packed_pages in [false, true] {
        let mut s = Store::create(Options {
            packed_pages,
            cache_bytes: 0,
            ..Options::default()
        });
        initial(&mut s);
        s.db.clear_cache();
        let before = s.stats();
        let actual = s.db.scan_prefix(&[]).unwrap();
        let after = s.stats();
        assert_eq!(actual.len(), 501);
        counts.push((after.reads - before.reads, after.committed_bytes));
        s.verify().unwrap();
    }
    assert!(counts[1].0 < counts[0].0 / 5, "{counts:?}");
    assert!(counts[1].1 < counts[0].1 / 2, "{counts:?}");
}

#[test]
fn packed_process_crashes_at_each_publication_boundary() {
    for mode in 0..3 {
        for stage in [
            "record_header",
            "record_payload",
            "append_flush_half",
            "append_flush",
            "data_sync",
            "manifest_write",
            "manifest_sync",
            "manifest_replace",
            "directory_sync",
        ] {
            let stage = if mode == 2 && stage == "data_sync" {
                "compact_data_sync"
            } else {
                stage
            };
            let mut s = packed_store(Options::default());
            if mode > 0 {
                let mut t = s.begin();
                t.set(&mut s.db, b"a".to_vec(), b"old".to_vec()).unwrap();
                t.set(&mut s.db, b"b".to_vec(), b"old".to_vec()).unwrap();
                s.commit(t).unwrap();
            }
            let old = s.db.scan_prefix(&[]).unwrap();
            let mut disk = s.disk.clone();
            let mut s = Store::open(&disk, Options::default()).unwrap();
            if mode == 2 {
                let found = disk.found();
                s.db.compact(&found).unwrap();
            } else {
                let mut t = s.begin();
                t.set(&mut s.db, b"a".to_vec(), b"new".to_vec()).unwrap();
                t.set(&mut s.db, b"b".to_vec(), b"new".to_vec()).unwrap();
                t.commit(&mut s.db).unwrap();
            }
            let mut reached = false;
            for step in s.db.take_steps() {
                if matches!(&step, Step::Reached(x) if x.name() == stage) {
                    reached = true;
                    break;
                }
                disk.step(&step);
            }
            assert!(reached, "{mode} {stage}");
            let mut s = Store::open(&disk, Options::default()).unwrap();
            let want = if mode < 2 && matches!(stage, "manifest_replace" | "directory_sync") {
                vec![entry(b"a", b"new"), entry(b"b", b"new")]
            } else {
                old
            };
            assert_eq!(s.db.scan_prefix(&[]).unwrap(), want);
            s.verify().unwrap();
        }
    }
}

#[test]
fn packed_errors_budget_and_corruption_remain_explicit() {
    let mut s = packed_store(Options {
        scan_bytes: 256,
        ..Options::default()
    });
    s.put(b"x", &vec![3; 2000]);
    assert!(matches!(s.db.scan_prefix(&[]), Err(Error::Budget(_))));
    let mut disk = s.disk.clone();
    disk.arenas.get_mut(&0).unwrap()[18] ^= 1;
    let mut s = Store::open(&disk, Options::default()).unwrap();
    assert!(matches!(s.db.get(b"x"), Err(Error::Corrupt(_))));
    assert!(s.verify().is_err());
}

#[test]
fn packed_cache_shares_budget_and_retirement_drops_all_capacity() {
    let mut s = packed_store(Options {
        cache_bytes: 128 * 1024,
        ..Options::default()
    });
    initial(&mut s);
    s.db.clear_cache();
    assert_eq!(s.stats().cache_page_entries, 0);
    let first = s.pin();
    for i in 0..500u16 {
        first.get(&mut s.db, &i.to_be_bytes()).unwrap();
    }
    assert!(s.stats().cache_page_entries > 0);
    let before = s.stats().reads;
    for i in 0..500u16 {
        assert_eq!(s.db.get(&i.to_be_bytes()).unwrap(), Some(vec![1; 64]));
    }
    assert_eq!(s.stats().reads, before);
    assert!(s.stats().cache_bytes <= 128 * 1024);
    s.db.clear_cache();
    s.db.scan_prefix(&[]).unwrap();
    assert_eq!(
        s.stats().cache_page_entries,
        0,
        "scans must not admit packed records"
    );
    for _ in 0..3 {
        for i in 0..500u16 {
            s.db.get(&i.to_be_bytes()).unwrap();
        }
        s.compact().unwrap();
        assert_eq!(s.stats().retired_cache_page_capacity, 0);
        assert_eq!(
            first.get(&mut s.db, &7u16.to_be_bytes()).unwrap(),
            Some(vec![1; 64])
        );
        assert_eq!(s.stats().retired_cache_page_capacity, 0);
    }
    s.unpin(first);
    s.collect();
}

#[test]
fn packed_fault_matrix_keeps_complete_snapshot_and_retry() {
    for populated in [false, true] {
        for at in 1..=30 {
            let mut s = packed_store(Options::default());
            if populated {
                let mut t = s.begin();
                t.set(&mut s.db, b"a".to_vec(), b"old".to_vec()).unwrap();
                t.set(&mut s.db, b"b".to_vec(), b"old".to_vec()).unwrap();
                s.commit(t).unwrap();
            }
            let old = s.db.scan_prefix(&[]).unwrap();
            let mut s = Store::open(
                &s.disk,
                Options {
                    fail_at: Some(at),
                    write_chunk: Some(3),
                    ..Options::default()
                },
            )
            .unwrap();
            let pinned = s.db.snapshot().unwrap();
            let mut t = s.begin();
            t.set(&mut s.db, b"a".to_vec(), b"new".to_vec()).unwrap();
            t.set(&mut s.db, b"b".to_vec(), b"new".to_vec()).unwrap();
            let result = s.commit(t);
            if result.is_err() {
                assert!(matches!(s.db.get(b"a"), Err(Error::Poisoned)));
            }
            assert_eq!(pinned.scan_prefix(&mut s.db, &[]).unwrap(), old);
            let mut s = Store::open(&s.disk, Options::default()).unwrap();
            let new = vec![entry(b"a", b"new"), entry(b"b", b"new")];
            let actual = s.db.scan_prefix(&[]).unwrap();
            assert!(actual == old || actual == new);
            if result.is_ok() {
                assert_eq!(actual, new);
            }
            s.put(b"retry", b"ok");
            s.verify().unwrap();
        }
    }
}

#[test]
fn packed_delta_bound_matches_oracle_at_each_consolidation() {
    let mut s = packed_store(Options::default());
    initial(&mut s);
    let mut pins = Vec::new();
    for n in 0..40u8 {
        s.put(&[0, 1], &vec![n; 64]);
        assert_eq!(s.db.get(&[0, 1]).unwrap(), Some(vec![n; 64]));
        assert_eq!(s.db.get(&[0, 2]).unwrap(), Some(vec![1; 64]));
        if n % 7 == 0 {
            pins.push((s.db.snapshot().unwrap(), n));
        }
        assert_eq!(s.verify().unwrap(), 501);
    }
    for (pin, n) in &pins {
        assert_eq!(pin.get(&mut s.db, &[0, 1]).unwrap(), Some(vec![*n; 64]));
    }
    let mut s = Store::open(&s.disk, Options::default()).unwrap();
    assert_eq!(s.db.get(&[0, 1]).unwrap(), Some(vec![39; 64]));
    s.verify().unwrap();
}

#[test]
fn packed_and_legacy_manifest_identities_are_not_reinterpreted() {
    assert!(!Options::default().packed_pages);
    for packed in [false, true] {
        let mut s = Store::create(Options {
            packed_pages: packed,
            ..Options::default()
        });
        initial(&mut s);
        let mark: &[u8] = if packed { b"SPIMETA2" } else { b"SPIMETA1" };
        assert_eq!(&s.disk.manifest[..8], mark);
        let mut s = Store::open(
            &s.disk,
            Options {
                packed_pages: !packed,
                ..Options::default()
            },
        )
        .unwrap();
        assert_eq!(s.stats().packed_format, packed);
        s.put(b"new", b"write");
        s.verify().unwrap();
        assert_eq!(&s.disk.manifest[..8], mark);
    }
}

/// A hundred rows in one base page, without a cache.
fn hundred() -> Store {
    let mut s = packed_store(Options {
        cache_bytes: 0,
        ..Options::default()
    });
    let mut t = s.begin();
    for i in 0..100u16 {
        t.set(&mut s.db, i.to_be_bytes().to_vec(), vec![i as u8; 64])
            .unwrap();
    }
    s.commit(t).unwrap();
    s
}

fn epoch_of(db: &mut Database, id: u64) -> &mut Epoch {
    if db.current.id == id {
        return &mut db.current;
    }
    db.retired.iter_mut().find(|e| e.id == id).unwrap()
}

fn scan_mode(
    s: &mut Store,
    view: &Snapshot,
    start: &[u8],
    end: Option<&[u8]>,
    direct: bool,
) -> Result<Vec<Entry>, Error> {
    let r = view.root;
    scan_with_mode(
        epoch_of(&mut s.db, r.epoch),
        r.root,
        r.end,
        r.generation,
        start,
        end,
        direct,
        view.scan_budget,
    )
}

fn compare(s: &mut Store, view: &Snapshot, start: &[u8], end: Option<&[u8]>) {
    let id = view.root.epoch;
    let before = epoch_of(&mut s.db, id).reads;
    let direct = scan_mode(s, view, start, end, true).unwrap();
    let after = epoch_of(&mut s.db, id).reads;
    let control = scan_mode(s, view, start, end, false).unwrap();
    let last = epoch_of(&mut s.db, id).reads;
    assert_eq!(direct, control);
    assert_eq!(
        after - before,
        last - after,
        "direct scan must not reread delta head"
    );
}

#[test]
fn direct_base_ranges_seek_without_materializing_unreturned_rows() {
    let mut s = hundred();
    let view = s.db.snapshot().unwrap();
    let start = 90u16.to_be_bytes();
    let end = 92u16.to_be_bytes();
    let e = &mut s.db.current;
    let r = view.root;
    let mut direct =
        Cursor::with_mode(e, r.root, r.end, r.generation, &start, Some(&end), true).unwrap();
    assert_eq!(direct.next(e).unwrap().unwrap().key, start);
    assert_eq!(direct.page_index, 91);
    assert_eq!(
        direct.page_rows.len(),
        0,
        "base page must remain serialized"
    );
    assert_eq!(direct.next(e).unwrap().unwrap().key, 91u16.to_be_bytes());
    assert!(direct.next(e).is_none());
    assert!(direct.next(e).is_none());
    compare(&mut s, &view, &start, Some(&end));
    compare(&mut s, &view, &start, Some(&start));
    compare(&mut s, &view, &[], None);
    compare(&mut s, &view, &[255], None);
    // Each returned row charges 2 key bytes + 64 value bytes + 64 metadata bytes.
    let limited = Snapshot {
        scan_budget: 260,
        ..view
    };
    assert_eq!(
        scan_mode(&mut s, &limited, &start, Some(&end), true)
            .unwrap()
            .len(),
        2
    );
    let limited = Snapshot {
        scan_budget: 259,
        ..view
    };
    assert!(matches!(
        scan_mode(&mut s, &limited, &start, Some(&end), true),
        Err(Error::Budget(_))
    ));
    assert!(matches!(
        scan_mode(&mut s, &limited, &start, Some(&end), false),
        Err(Error::Budget(_))
    ));
}

#[test]
fn direct_and_materialized_scans_reject_future_base_and_delta_generations() {
    let mut s = hundred();
    let mut old = s.db.snapshot().unwrap();
    old.root.generation = 0;
    for direct in [false, true] {
        assert!(matches!(
            scan_mode(&mut s, &old, &[], None, direct),
            Err(Error::Corrupt(_))
        ));
    }
    let before = s.db.snapshot().unwrap();
    s.put(&50u16.to_be_bytes(), b"updated");
    let mut stale = s.db.snapshot().unwrap();
    stale.root.generation = before.root.generation;
    for direct in [false, true] {
        assert!(matches!(
            scan_mode(&mut s, &stale, &[], None, direct),
            Err(Error::Corrupt(_))
        ));
    }
}

#[test]
fn direct_delta_fallback_has_equal_reads_visibility_and_output_ownership() {
    let mut s = hundred();
    let pinned = s.pin();
    for generation in 0..12u16 {
        let mut t = s.begin();
        t.set(
            &mut s.db,
            50u16.to_be_bytes().to_vec(),
            generation.to_le_bytes().to_vec(),
        )
        .unwrap();
        if generation % 2 == 0 {
            t.delete(&mut s.db, 20u16.to_be_bytes().to_vec()).unwrap();
        } else {
            t.set(
                &mut s.db,
                20u16.to_be_bytes().to_vec(),
                b"reinserted".to_vec(),
            )
            .unwrap();
        }
        s.commit(t).unwrap();
        let view = s.db.snapshot().unwrap();
        compare(&mut s, &view, &[], None);
        compare(
            &mut s,
            &view,
            &19u16.to_be_bytes(),
            Some(&52u16.to_be_bytes()),
        );
        compare(&mut s, &pinned, &[], None);
    }
    // Overflow rows remain output-owned and use the existing checked read.
    s.put(b"overflow", &vec![7; 4096]);
    let view = s.db.snapshot().unwrap();
    compare(&mut s, &view, b"overflow", None);
    let mut found = scan_mode(&mut s, &view, b"overflow", None, true).unwrap();
    found[0].value[0] = 99;
    assert_eq!(
        view.get(&mut s.db, b"overflow").unwrap(),
        Some(vec![7; 4096])
    );
    s.compact().unwrap();
    let now = s.db.snapshot().unwrap();
    compare(&mut s, &now, &[], None);
    compare(&mut s, &pinned, &[], None);
    assert_eq!(s.stats().cache_page_entries, 0);
    assert_eq!(s.stats().retired_cache_page_capacity, 0);
}

/// Where the only page of a store stands, and its kind.
fn only_page(s: &mut Store) -> (u64, u8) {
    let root = s.db.view.root;
    let at = s.db.current.node(root.root, root.end).unwrap().value;
    (at, s.disk.arenas[&root.epoch][at as usize + 8])
}

#[test]
fn a_small_change_becomes_a_delta_until_the_lineage_is_full() {
    let mut s = hundred();
    assert_eq!(only_page(&mut s).1, 3);
    for round in 0..3u8 {
        for n in 0..8u8 {
            s.put(&[0, 1], &[round * 8 + n; 64]);
            assert_eq!(only_page(&mut s).1, 4);
        }
        s.put(&[0, 1], &[100; 64]);
        assert_eq!(only_page(&mut s).1, 3);
    }
    // Removing a key that is not there leaves the page where it is.
    let at = only_page(&mut s);
    let mut t = s.begin();
    t.delete(&mut s.db, vec![9, 9, 9]).unwrap();
    s.commit(t).unwrap();
    assert_eq!(only_page(&mut s), at);
    // 45 rows of 90 bytes fit in a delta and 46 do not.
    for (rows, kind) in [(45u8, 4), (46, 3)] {
        let mut s = hundred();
        let mut t = s.begin();
        for i in 0..rows {
            t.set(&mut s.db, vec![0, i], vec![7; 64]).unwrap();
        }
        s.commit(t).unwrap();
        assert_eq!(only_page(&mut s).1, kind);
    }
}

#[test]
fn a_read_offers_its_page_to_the_cache() {
    let mut s = packed_store(Options {
        value_cache: true,
        ..Options::default()
    });
    s.put(b"a", &[1; 30]);
    s.put(b"b", &[2; 1500]);
    s.db.clear_cache();
    assert_eq!(s.db.get(b"a").unwrap(), Some(vec![1; 30]));
    let st = s.stats();
    assert_eq!(st.cache_value_entries, 0);
    let pages = st.cache_page_entries;
    assert!(pages > 0);
    assert_eq!(s.db.get(b"b").unwrap(), Some(vec![2; 1500]));
    assert_eq!(s.stats().cache_page_entries, pages);
}

/// The fences of a store, in order, with the kinds of their pages.
fn fences(s: &mut Store) -> Vec<(Vec<u8>, u8)> {
    let root = s.db.view.root;
    let mut out = Vec::new();
    let mut todo = vec![root.root];
    while let Some(at) = todo.pop() {
        if at != 0 {
            let n = s.db.current.node(at, root.end).unwrap();
            let kind = s.disk.arenas[&root.epoch][n.value as usize + 8];
            out.push((n.key.clone(), kind));
            todo.push(n.left);
            todo.push(n.right);
        }
    }
    out.sort();
    out
}

#[test]
fn compaction_keeps_every_page_and_makes_it_a_base_page() {
    let mut s = packed_store(Options::default());
    initial(&mut s);
    let first = fences(&mut s);
    assert!(first.len() > 1);
    assert!(first.iter().all(|f| f.1 == 3));
    s.put(&[0, 1], &[9; 64]);
    s.put(&[0, 2], &[9; 64]);
    assert_eq!(fences(&mut s)[0], (vec![], 4));
    // A page whose rows are all gone is kept.
    let view = s.db.snapshot().unwrap();
    let upper = first.get(2).map(|f| &f.0[..]);
    let gone = view.scan(&mut s.db, &first[1].0, upper).unwrap();
    let mut t = s.begin();
    for row in gone {
        t.delete(&mut s.db, row.key).unwrap();
    }
    s.commit(t).unwrap();
    assert_eq!(fences(&mut s).len(), first.len());
    s.compact().unwrap();
    assert_eq!(fences(&mut s), first);
    assert_eq!(s.stats().bytes_written, s.db.view.root.end - 8);
}
