use imgdedup::codec::encode_line;
use imgdedup::engine::{process_item, rebuild_log_lines, run_batch, ItemInput, ItemOutcome};
use imgdedup::phash::{distance, HashVal};
use imgdedup::store::HashStore;
use imgdedup::DEFAULT_THRESHOLD;

fn item(bytes: Vec<u8>, encode_ok: bool) -> ItemInput {
    ItemInput { hash: Some(HashVal::from_bytes(bytes)), encode_ok }
}

#[test]
fn default_threshold_value() {
    assert_eq!(DEFAULT_THRESHOLD, 10);
}

#[test]
fn store_scan_and_admit() {
    let mut s = HashStore::new();
    assert_eq!(s.len(), 0);
    let h = HashVal::from_bytes(vec![0xAB, 0xCD]);
    assert!(!s.scan(&h, 10));
    assert!(s.try_admit(&h, 10));
    assert_eq!(s.len(), 1);
    // The same hash is now a duplicate of itself.
    assert!(!s.try_admit(&h, 10));
    assert_eq!(s.len(), 1);
    // Distance exactly at the threshold is not a duplicate.
    let far = HashVal::from_bytes(vec![0xAB ^ 0xFF, 0xCD ^ 0x03]);
    assert_eq!(distance(&h, &far), 10);
    assert!(!s.scan(&far, 10));
    assert!(s.scan(&far, 11));
}

#[test]
fn load_skips_malformed_lines() {
    // One malformed line and one valid line load exactly one hash.
    let lines = vec![b"%%%".to_vec(), b"TWFu".to_vec()];
    let s = HashStore::load_from_lines(&lines);
    assert_eq!(s.len(), 1);
    assert_eq!(s.hash_at(0).bytes().clone(), vec![77, 97, 110]);
}

#[test]
fn load_skips_empty_lines() {
    let lines = vec![b"".to_vec(), b"TQ".to_vec(), b"".to_vec()];
    let s = HashStore::load_from_lines(&lines);
    assert_eq!(s.len(), 1);
    assert_eq!(s.hash_at(0).bytes().clone(), vec![77]);
}

#[test]
fn persistence_round_trip() {
    let mut s = HashStore::new();
    s.insert(HashVal::from_bytes(vec![1, 2, 3]));
    s.insert(HashVal::from_bytes(vec![0xFF, 0x00, 0x7E, 0x81]));
    s.insert(HashVal::from_bytes(vec![42]));
    let lines = s.to_log_lines();
    assert_eq!(lines.len(), 3);
    let reloaded = HashStore::load_from_lines(&lines);
    assert_eq!(reloaded.len(), s.len());
    for k in 0..s.len() {
        assert_eq!(reloaded.hash_at(k).bytes(), s.hash_at(k).bytes());
    }
    // The reloaded store rejects exactly the same candidates.
    for cand in [vec![1, 2, 3], vec![1, 2, 2], vec![0x10, 0x20, 0x30], vec![42]] {
        let h = HashVal::from_bytes(cand);
        assert_eq!(reloaded.scan(&h, DEFAULT_THRESHOLD), s.scan(&h, DEFAULT_THRESHOLD));
    }
}

#[test]
fn rebuild_writes_one_line_per_output() {
    // Duplicates among outputs are kept: every file contributes one line.
    let h1 = HashVal::from_bytes(vec![9, 9, 9]);
    let h2 = HashVal::from_bytes(vec![9, 9, 8]);
    let h3 = HashVal::from_bytes(vec![9, 9, 9]);
    let hashes = vec![h1, h2, h3];
    let lines = rebuild_log_lines(&hashes);
    assert_eq!(lines.len(), 3);
    for k in 0..hashes.len() {
        assert_eq!(lines[k], encode_line(hashes[k].bytes()));
    }
    let reloaded = HashStore::load_from_lines(&lines);
    assert_eq!(reloaded.len(), 3);
    for k in 0..hashes.len() {
        assert_eq!(reloaded.hash_at(k).bytes(), hashes[k].bytes());
    }
}

#[test]
fn encode_failure_leaves_no_trace() {
    // All-or-nothing per item: a failed encode admits nothing and logs
    // nothing.
    let mut s = HashStore::new();
    let h = HashVal::from_bytes(vec![5, 6, 7]);
    let (outcome, line) = process_item(&mut s, &h, DEFAULT_THRESHOLD, false);
    assert_eq!(outcome, ItemOutcome::Failed);
    assert!(line.is_none());
    assert_eq!(s.len(), 0);
    // The same image tried again with a working encoder is admitted.
    let (outcome2, line2) = process_item(&mut s, &h, DEFAULT_THRESHOLD, true);
    assert_eq!(outcome2, ItemOutcome::Admitted);
    assert_eq!(line2, Some(encode_line(h.bytes())));
    assert_eq!(s.len(), 1);
}

#[test]
fn three_images_two_admitted() {
    // hash(A) and hash(B) differ by 3 (< 10); hash(C) is at least 40 from
    // both. A and C are admitted, B is rejected, and the log gets exactly
    // two lines.
    let a = vec![0u8; 8];
    let mut b = vec![0u8; 8];
    b[0] = 0b0000_0111;
    let mut c = vec![0u8; 8];
    for k in 3..8 {
        c[k] = 0xFF;
    }
    let ha = HashVal::from_bytes(a.clone());
    let hb = HashVal::from_bytes(b.clone());
    let hc = HashVal::from_bytes(c.clone());
    assert_eq!(distance(&ha, &hb), 3);
    assert_eq!(distance(&ha, &hc), 40);
    assert_eq!(distance(&hb, &hc), 43);

    let mut s = HashStore::new();
    let items = vec![item(a, true), item(b, true), item(c, true)];
    let (outcomes, lines) = run_batch(&mut s, &items, DEFAULT_THRESHOLD);
    assert_eq!(
        outcomes,
        vec![ItemOutcome::Admitted, ItemOutcome::Rejected, ItemOutcome::Admitted]
    );
    assert_eq!(lines.len(), 2);
    assert_eq!(s.len(), 2);
}

#[test]
fn empty_source_means_empty_run() {
    let mut s = HashStore::new();
    let items: Vec<ItemInput> = Vec::new();
    let (outcomes, lines) = run_batch(&mut s, &items, DEFAULT_THRESHOLD);
    assert!(outcomes.is_empty());
    assert!(lines.is_empty());
    assert_eq!(s.len(), 0);
}

#[test]
fn second_run_admits_nothing() {
    let items = vec![
        item(vec![0, 0, 0, 0], true),
        item(vec![7, 0, 0, 0], true),
        item(vec![0xFF, 0xFF, 0xFF, 0xFF], true),
        item(vec![0xFF, 0xFF, 0xFF, 0x0F], true),
    ];
    let mut s = HashStore::new();
    let (outcomes1, _lines1) = run_batch(&mut s, &items, DEFAULT_THRESHOLD);
    assert!(outcomes1.contains(&ItemOutcome::Admitted));
    let len_after_first: usize = s.len();

    let (outcomes2, lines2) = run_batch(&mut s, &items, DEFAULT_THRESHOLD);
    assert_eq!(outcomes2.len(), items.len());
    assert!(!outcomes2.contains(&ItemOutcome::Admitted));
    assert!(lines2.is_empty());
    assert_eq!(s.len(), len_after_first);
}

#[test]
fn admitted_hashes_stay_apart() {
    // The dedup invariant on a concrete run: every pair of stored hashes
    // after a run from empty is at least the threshold apart.
    let items = vec![
        item(vec![0, 0, 0, 0, 0, 0, 0, 0], true),
        item(vec![3, 0, 0, 0, 0, 0, 0, 0], true),
        item(vec![0xFF, 0xFF, 0, 0, 0, 0, 0, 0], true),
        item(vec![0xFF, 0xF7, 0, 0, 0, 0, 0, 0], true),
        item(vec![0, 0, 0, 0, 0xFF, 0xFF, 0xFF, 0xFF], true),
    ];
    let mut s = HashStore::new();
    let (_outcomes, _lines) = run_batch(&mut s, &items, DEFAULT_THRESHOLD);
    for i in 0..s.len() {
        for j in 0..s.len() {
            if i != j {
                assert!(distance(s.hash_at(i), s.hash_at(j)) >= DEFAULT_THRESHOLD as u64);
            }
        }
    }
}

#[test]
fn failed_decode_is_reported_not_admitted() {
    let mut s = HashStore::new();
    let items = vec![ItemInput { hash: None, encode_ok: true }, item(vec![1, 2, 3, 4], true)];
    let (outcomes, lines) = run_batch(&mut s, &items, DEFAULT_THRESHOLD);
    assert_eq!(outcomes, vec![ItemOutcome::Failed, ItemOutcome::Admitted]);
    assert_eq!(lines.len(), 1);
    assert_eq!(s.len(), 1);
}

#[test]
fn log_stays_in_step_with_store() {
    // Start from a log with one stale (malformed) line and one good one; a
    // run's appended lines keep the log loading to exactly the store.
    let mut lines = vec![b"%%%".to_vec(), encode_line(&vec![1, 1, 1, 1])];
    let mut s = HashStore::load_from_lines(&lines);
    assert_eq!(s.len(), 1);
    let items = vec![
        item(vec![1, 1, 1, 1], true),
        item(vec![0xF0, 0xF0, 0xAA, 0x55], true),
        item(vec![0x0F, 0x33, 0xCC, 0x99], true),
    ];
    let (_outcomes, new_lines) = run_batch(&mut s, &items, DEFAULT_THRESHOLD);
    for l in new_lines {
        lines.push(l);
    }
    let reloaded = HashStore::load_from_lines(&lines);
    assert_eq!(reloaded.len(), s.len());
    for k in 0..s.len() {
        assert_eq!(reloaded.hash_at(k).bytes(), s.hash_at(k).bytes());
    }
}
