use uucp::queue::{Entry, Kind, Queue};
use uucp::{Batch, Entity, Site, State, Stats};

fn control(filename: &str, qid: &str, kind: Kind) -> Entry {
    Entry::Control { filename: filename.to_string(), qid: qid.to_string(), kind }
}

fn data(filename: &str, qid: &str) -> Entry {
    Entry::Data { filename: filename.to_string(), qid: qid.to_string() }
}

fn entity_of<'a>(q: &'a Queue, qid: &str) -> &'a Entity {
    &q.queue.iter().find(|r| r.0 == qid).expect("qid not recorded").1
}

#[test]
fn test_queue_new() {
    let q = Queue::new();
    assert_eq!(String::from(""), q.path);
    assert!(q.queue.is_empty());
    assert!(q.fcache.is_empty());
}

#[test]
fn test_queue_len() {
    let q = Queue::new();
    assert_eq!(0, q.len());
}

#[test]
fn test_stats() {
    let q = Queue::new();

    assert_eq!(0, q.mails());
    assert_eq!(0, q.missing());
    assert_eq!(0, q.news());
}

#[test]
fn test_scan_totality() {
    // Five filenames over three distinct qids: exactly three records, each
    // one of the four entity kinds.
    let listing = vec![
        control("C.aaa", "aaa", Kind::Mail),
        data("D.aaa", "aaa"),
        control("C.bbb", "bbb", Kind::News),
        data("D.bbb", "bbb"),
        control("C.ccc", "ccc", Kind::Mail),
    ];
    let mut q = Queue::new();
    q.scan(&listing);
    assert_eq!(3, q.len());
    for qid in ["aaa", "bbb", "ccc"] {
        assert!(q.queue.iter().any(|r| r.0 == qid));
    }
}

#[test]
fn test_pairing_completeness() {
    let listing = vec![
        control("C.aaa", "aaa", Kind::Mail),
        data("D.aaa", "aaa"),
        control("C.bbb", "bbb", Kind::News),
        data("D.bbb", "bbb"),
    ];
    let mut q = Queue::new();
    q.scan(&listing);
    assert_eq!(1, q.mails());
    assert_eq!(1, q.news());
    assert_eq!(0, q.missing());
    assert!(matches!(entity_of(&q, "aaa"), Entity::Mail { marked: false, .. }));
    assert!(matches!(entity_of(&q, "bbb"), Entity::News { marked: false, .. }));
}

#[test]
fn test_damage_detection() {
    let listing = vec![control("C.aaa", "aaa", Kind::Mail), data("D.bbb", "bbb")];
    let mut q = Queue::new();
    q.scan(&listing);
    assert_eq!(2, q.missing());
    match entity_of(&q, "aaa") {
        Entity::Missing { reason, file, .. } => {
            assert!(reason.contains("D."));
            assert_eq!(Some("C.aaa".to_string()), file.c.clone());
            assert_eq!(None, file.d.clone());
        }
        e => panic!("expected Missing, got {:?}", e),
    }
    match entity_of(&q, "bbb") {
        Entity::Missing { reason, file, .. } => {
            assert!(reason.contains("C."));
            assert_eq!(None, file.c.clone());
            assert_eq!(Some("D.bbb".to_string()), file.d.clone());
        }
        e => panic!("expected Missing, got {:?}", e),
    }
}

#[test]
fn test_state_derivation() {
    // Clean: no Missing records, nfiles is the record count.
    let listing = vec![
        control("C.aaa", "aaa", Kind::Mail),
        data("D.aaa", "aaa"),
        control("C.bbb", "bbb", Kind::News),
        data("D.bbb", "bbb"),
    ];
    let mut q = Queue::new();
    q.scan(&listing);
    assert_eq!(State::Clean { nfiles: 2 }, q.check());

    // Damaged: counts split by which member is absent.
    let listing = vec![control("C.aaa", "aaa", Kind::Mail), data("D.bbb", "bbb")];
    let mut q = Queue::new();
    q.scan(&listing);
    assert_eq!(State::Damaged { dmissing: 1, cmissing: 1 }, q.check());
}

#[test]
fn test_scan_idempotence() {
    let listing = vec![
        control("C.aaa", "aaa", Kind::Mail),
        data("D.aaa", "aaa"),
        control("C.bbb", "bbb", Kind::News),
        control("C.ccc", "ccc", Kind::Unrecognized),
        data("D.ccc", "ccc"),
    ];
    let mut q = Queue::new();
    q.scan(&listing);
    let first_queue = q.queue.clone();
    let first_fcache = q.fcache.clone();
    q.scan(&listing);
    assert_eq!(first_queue, q.queue);
    assert_eq!(first_fcache, q.fcache);
}

#[test]
fn test_incremental_consistency() {
    let baseline = vec![
        control("C.aaa", "aaa", Kind::Mail),
        data("D.aaa", "aaa"),
        control("C.bbb", "bbb", Kind::News),
        data("D.bbb", "bbb"),
    ];
    let mut q = Queue::new();
    q.scan(&baseline);
    assert!(matches!(entity_of(&q, "aaa"), Entity::Mail { .. }));
    let untouched_before = entity_of(&q, "bbb").clone();
    let fcache_before = q.fcache.clone();

    // The same listing with aaa's data file removed.
    let shrunk = vec![
        control("C.aaa", "aaa", Kind::Mail),
        control("C.bbb", "bbb", Kind::News),
        data("D.bbb", "bbb"),
    ];
    q.scan(&shrunk);
    match entity_of(&q, "aaa") {
        Entity::Missing { reason, file, .. } => {
            assert!(reason.contains("D."));
            assert_eq!(Some("C.aaa".to_string()), file.c.clone());
        }
        e => panic!("expected Missing after data loss, got {:?}", e),
    }
    assert_eq!(&untouched_before, entity_of(&q, "bbb"));
    assert_eq!(fcache_before, q.fcache);
}

#[test]
fn test_scan_evicts_vanished_qids() {
    let baseline = vec![
        control("C.aaa", "aaa", Kind::Mail),
        data("D.aaa", "aaa"),
        control("C.bbb", "bbb", Kind::News),
        data("D.bbb", "bbb"),
    ];
    let mut q = Queue::new();
    q.scan(&baseline);
    assert_eq!(2, q.len());

    // Both of aaa's files are gone: its record and its cached control
    // filename go with them.
    let shrunk = vec![control("C.bbb", "bbb", Kind::News), data("D.bbb", "bbb")];
    q.scan(&shrunk);
    assert_eq!(1, q.len());
    assert!(!q.queue.iter().any(|r| r.0 == "aaa"));
    assert_eq!(vec!["C.bbb".to_string()], q.fcache);
}

#[test]
fn test_marked_flag_survives_unchanged_batch() {
    // A record marked by an earlier pass keeps its flag when the batch
    // composition is unchanged on rescan.
    let mut q = Queue {
        path: String::new(),
        queue: vec![(
            "aaa".to_string(),
            Entity::Mail {
                qid: "aaa".to_string(),
                file: Batch {
                    c: Some("C.aaa".to_string()),
                    d: Some("D.aaa".to_string()),
                },
                marked: true,
            },
        )],
        fcache: vec!["C.aaa".to_string()],
    };
    let listing = vec![control("C.aaa", "aaa", Kind::Mail), data("D.aaa", "aaa")];
    q.scan(&listing);
    assert!(matches!(entity_of(&q, "aaa"), Entity::Mail { marked: true, .. }));

    // A changed data filename resets the flag.
    let changed = vec![control("C.aaa", "aaa", Kind::Mail), data("D.aa2", "aaa")];
    q.scan(&changed);
    assert!(matches!(entity_of(&q, "aaa"), Entity::Mail { marked: false, .. }));
}

#[test]
fn test_aggregate_correctness() {
    let listing = vec![
        control("C.aaa", "aaa", Kind::Mail),
        data("D.aaa", "aaa"),
        control("C.bbb", "bbb", Kind::News),
        data("D.bbb", "bbb"),
        control("C.ccc", "ccc", Kind::Unrecognized),
        data("D.ccc", "ccc"),
        control("C.ddd", "ddd", Kind::Mail),
        data("D.eee", "eee"),
    ];
    let mut q = Queue::new();
    q.scan(&listing);
    let invalid = q.queue.iter().filter(|r| matches!(r.1, Entity::Invalid)).count();
    assert_eq!(q.len(), q.mails() + q.news() + q.missing() + invalid);
    assert_eq!(5, q.len());
    assert_eq!(1, invalid);
}

#[test]
fn test_unclassifiable_pair_is_invalid() {
    let listing = vec![control("C.aaa", "aaa", Kind::Unrecognized), data("D.aaa", "aaa")];
    let mut q = Queue::new();
    q.scan(&listing);
    assert!(matches!(entity_of(&q, "aaa"), Entity::Invalid));
    // An Invalid record carries no filenames, so nothing of it is cached.
    assert!(q.fcache.is_empty());
    assert_eq!(State::Clean { nfiles: 1 }, q.check());
}

#[test]
fn test_duplicate_filenames_last_wins() {
    let listing = vec![
        control("C.old", "aaa", Kind::News),
        control("C.new", "aaa", Kind::Mail),
        data("D.aaa", "aaa"),
    ];
    let mut q = Queue::new();
    q.scan(&listing);
    assert_eq!(1, q.len());
    match entity_of(&q, "aaa") {
        Entity::Mail { file, .. } => {
            assert_eq!(Some("C.new".to_string()), file.c.clone());
        }
        e => panic!("expected Mail from the later control entry, got {:?}", e),
    }
    assert_eq!(vec!["C.new".to_string()], q.fcache);
}

#[test]
fn test_concrete_damaged_scenario() {
    // Listing C.aaa, D.aaa, C.bbb, C.ccc, D.ccc with aaa and ccc mail and
    // bbb lacking its data file.
    let listing = vec![
        control("C.aaa", "aaa", Kind::Mail),
        data("D.aaa", "aaa"),
        control("C.bbb", "bbb", Kind::Mail),
        control("C.ccc", "ccc", Kind::Mail),
        data("D.ccc", "ccc"),
    ];
    let mut q = Queue::new();
    q.scan(&listing);
    assert_eq!(3, q.len());
    assert_eq!(2, q.mails());
    assert_eq!(1, q.missing());
    assert_eq!(State::Damaged { dmissing: 1, cmissing: 0 }, q.check());
}

#[test]
fn test_concrete_empty_scenario() {
    let mut q = Queue::new();
    let listing: Vec<Entry> = Vec::new();
    q.scan(&listing);
    assert_eq!(0, q.len());
    assert_eq!(State::Empty, q.check());
}

#[test]
fn test_invalid_site_scan_is_noop() {
    // A site whose root directory does not exist is representable, and
    // scanning it changes nothing.
    let mut site = Site::new("badhost", false, true, true);
    assert!(!site.is_valid());
    let listing = vec![control("C.aaa", "aaa", Kind::Mail), data("D.aaa", "aaa")];
    site.scan(&listing);
    assert_eq!(0, site.queue().len());
}

#[test]
fn test_valid_site_scans() {
    let mut site = Site::new("goodhost", true, true, true);
    assert!(site.is_valid());
    assert_eq!("goodhost", site.name);
    let listing = vec![control("C.aaa", "aaa", Kind::Mail), data("D.aaa", "aaa")];
    site.scan(&listing);
    assert_eq!(1, site.queue().len());
    assert_eq!(1, site.queue().mails());
    assert_eq!(State::Clean { nfiles: 1 }, site.queue().check());
}

#[test]
fn test_site_partial_layout_is_invalid() {
    // Validity needs the base directory and both prefix directories.
    assert!(!Site::new("h", true, false, true).is_valid());
    assert!(!Site::new("h", true, true, false).is_valid());
    assert!(Site::new("h", true, true, true).is_valid());
}

#[test]
fn test_defaults() {
    let q = Queue::default();
    assert_eq!(0, q.len());
    assert_eq!(State::Empty, State::default());
    assert!(matches!(Entity::default(), Entity::Invalid));
    let s = Stats::default();
    assert_eq!(0, s.nfiles);
    assert_eq!(0, s.nbytes);
}
