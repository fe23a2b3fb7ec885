use sha1::Digest;
use std::collections::HashSet;

use shaforce::dispatch::{make_record, run_range};
use shaforce::enumerate::{count_up_to_exec, pow94_exec, Enumerator};
use shaforce::sink::ThroughputCounter;

fn reference_digest_hex(input: &[u8]) -> String {
    let mut hash = sha1::Sha1::new();
    hash.update(input);
    hash.finalize().iter().map(|b| format!("{b:02x}")).collect()
}

fn drain(max_len: usize) -> Vec<Vec<u8>> {
    let mut en = Enumerator::new(max_len);
    let mut out = Vec::new();
    while let Some(cand) = en.next() {
        out.push(cand);
    }
    out
}

#[test]
fn class_sizes() {
    assert_eq!(1, pow94_exec(0));
    assert_eq!(94, pow94_exec(1));
    assert_eq!(8836, pow94_exec(2));
    assert_eq!(6095689385410816, pow94_exec(8));
    assert_eq!(1, count_up_to_exec(0));
    assert_eq!(95, count_up_to_exec(1));
    assert_eq!(8931, count_up_to_exec(2));
    assert_eq!(6161234432565771, count_up_to_exec(8));
}

#[test]
fn enumeration_is_exact_for_small_bounds() {
    for max_len in 0..=2usize {
        let cands = drain(max_len);
        let expected: u64 = (0..=max_len).map(|l| 94u64.pow(l as u32)).sum();
        assert_eq!(expected, cands.len() as u64);
        let distinct: HashSet<&Vec<u8>> = cands.iter().collect();
        assert_eq!(cands.len(), distinct.len());
        for cand in &cands {
            assert!(cand.len() <= max_len);
            assert!(cand.iter().all(|&b| (33..=126).contains(&b)));
        }
    }
}

#[test]
fn enumeration_order_starts_with_shortest() {
    let cands = drain(1);
    assert_eq!(Vec::<u8>::new(), cands[0]);
    assert_eq!(vec![b'!'], cands[1]);
    assert_eq!(vec![b'~'], cands[94]);
}

#[test]
fn record_format() {
    let rec = make_record(&b"abc".to_vec());
    let text = String::from_utf8(rec).unwrap();
    let (cand, hex) = text.split_once('\t').unwrap();
    assert_eq!("abc", cand);
    assert_eq!("a9993e364706816aba3e25717850c26c9cd0d89d", hex);
}

#[test]
fn end_to_end_length_one() {
    // Bound 1 over the 94-character alphabet: one empty-string record and
    // 94 single-character records, each digest matching the reference.
    let records = run_range(1, 0, 95);
    assert_eq!(95, records.len());
    let mut seen = HashSet::new();
    for rec in &records {
        let text = String::from_utf8(rec.clone()).unwrap();
        let (cand, hex) = text.split_once('\t').unwrap();
        assert!(cand.len() <= 1);
        assert_eq!(reference_digest_hex(cand.as_bytes()), hex);
        assert!(seen.insert(cand.to_string()));
    }
    assert_eq!(95, seen.len());
}

#[test]
fn partitioned_runs_produce_the_same_records() {
    let whole = run_range(1, 0, 95);
    let mut two_workers = run_range(1, 0, 40);
    two_workers.extend(run_range(1, 40, 95));
    assert_eq!(whole, two_workers);

    let mut many: Vec<Vec<u8>> = Vec::new();
    for w in 0..19u64 {
        many.extend(run_range(1, w * 5, (w + 1) * 5));
    }
    let whole_set: HashSet<Vec<u8>> = whole.into_iter().collect();
    let many_set: HashSet<Vec<u8>> = many.into_iter().collect();
    assert_eq!(whole_set, many_set);
}

#[test]
fn empty_share_yields_no_records() {
    assert_eq!(0, run_range(3, 17, 17).len());
}

#[test]
fn counter_reports_once_per_window_with_traffic() {
    let mut counter = ThroughputCounter::new();
    assert_eq!(None, counter.on_record(0));
    assert_eq!(None, counter.on_record(500));
    assert_eq!(Some(3), counter.on_record(1000));
    assert_eq!(None, counter.on_record(1500));
    assert_eq!(Some(2), counter.on_record(2500));
}

#[test]
fn counter_stays_silent_without_records() {
    // A long quiet stretch emits nothing by construction: a report can
    // only come back from a received record. The first record after the
    // gap reports exactly what was counted since the last boundary.
    let mut counter = ThroughputCounter::new();
    assert_eq!(None, counter.on_record(0));
    assert_eq!(Some(2), counter.on_record(10_000));
    assert_eq!(Some(1), counter.on_record(20_000));
}
