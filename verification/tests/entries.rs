use wayback_rpki::day_ts;
use wayback_rpki::RoasTrieEntry;

fn ts(y: i32, m: u32, d: u32) -> i64 {
    day_ts(y, m, d).unwrap()
}

#[test]
fn new_entry_modes() {
    let boot = RoasTrieEntry::new(ts(2022, 1, 1), 24, 13335, true);
    assert_eq!(boot.get_loose_dates(), vec![ts(2022, 1, 1)]);
    assert!(boot.get_date_ranges().is_empty());
    assert_eq!(boot.get_max_len(), 24);
    assert_eq!(boot.get_origin(), 13335);
    let inc = RoasTrieEntry::new(ts(2022, 1, 1), 24, 13335, false);
    assert!(inc.get_loose_dates().is_empty());
    assert_eq!(inc.get_date_ranges(), vec![(ts(2022, 1, 1), ts(2022, 1, 1))]);
}

#[test]
fn push_date_bootstrap_is_idempotent() {
    let mut e = RoasTrieEntry::new(ts(2022, 1, 1), 24, 13335, true);
    e.push_date(ts(2022, 1, 5), true);
    e.push_date(ts(2022, 1, 5), true);
    assert_eq!(e.get_loose_dates(), vec![ts(2022, 1, 1), ts(2022, 1, 5)]);
}

#[test]
fn push_date_incremental_tail_rules() {
    let mut e = RoasTrieEntry::new(ts(2022, 1, 1), 24, 13335, false);
    // next day extends the tail run
    e.push_date(ts(2022, 1, 2), false);
    assert_eq!(e.get_date_ranges(), vec![(ts(2022, 1, 1), ts(2022, 1, 2))]);
    // a day beyond the tail starts a new run
    e.push_date(ts(2022, 1, 4), false);
    assert_eq!(
        e.get_date_ranges(),
        vec![
            (ts(2022, 1, 1), ts(2022, 1, 2)),
            (ts(2022, 1, 4), ts(2022, 1, 4))
        ]
    );
    // a day at or before the tail run's end is dropped
    e.push_date(ts(2022, 1, 3), false);
    e.push_date(ts(2022, 1, 1), false);
    assert_eq!(
        e.get_date_ranges(),
        vec![
            (ts(2022, 1, 1), ts(2022, 1, 2)),
            (ts(2022, 1, 4), ts(2022, 1, 4))
        ]
    );
}

#[test]
fn full_compress_canonicalizes() {
    let mut e = RoasTrieEntry::new(ts(2022, 1, 4), 24, 13335, true);
    e.push_date(ts(2022, 1, 1), true);
    e.push_date(ts(2022, 1, 2), true);
    e.push_date(ts(2022, 1, 7), true);
    e.full_compress();
    assert!(e.get_loose_dates().is_empty());
    assert_eq!(
        e.get_date_ranges(),
        vec![
            (ts(2022, 1, 1), ts(2022, 1, 2)),
            (ts(2022, 1, 4), ts(2022, 1, 4)),
            (ts(2022, 1, 7), ts(2022, 1, 7))
        ]
    );
}

#[test]
fn full_compress_is_idempotent_here() {
    let mut e = RoasTrieEntry::new(ts(2022, 1, 2), 24, 13335, true);
    e.push_date(ts(2022, 1, 1), true);
    e.full_compress();
    let once = e.get_date_ranges();
    e.full_compress();
    assert_eq!(e.get_date_ranges(), once);
    assert!(e.get_loose_dates().is_empty());
}

#[test]
fn full_compress_merges_loose_into_runs() {
    // an incremental entry that later receives a loose day in the middle
    let mut e = RoasTrieEntry::new(ts(2022, 1, 1), 24, 13335, false);
    e.push_date(ts(2022, 1, 4), false);
    e.push_date(ts(2022, 1, 2), true);
    e.push_date(ts(2022, 1, 3), true);
    e.full_compress();
    assert_eq!(e.get_date_ranges(), vec![(ts(2022, 1, 1), ts(2022, 1, 4))]);
}

#[test]
fn contains_date_spans_both_representations() {
    let mut e = RoasTrieEntry::new(ts(2022, 1, 1), 24, 13335, false);
    e.push_date(ts(2022, 1, 2), false);
    e.push_date(ts(2022, 2, 1), true);
    assert!(e.contains_date(ts(2022, 1, 1)));
    assert!(e.contains_date(ts(2022, 1, 2)));
    assert!(e.contains_date(ts(2022, 2, 1)));
    assert!(!e.contains_date(ts(2022, 1, 3)));
}

#[test]
fn contains_date_invariant_across_compress() {
    let mut e = RoasTrieEntry::new(ts(2022, 1, 1), 24, 13335, false);
    e.push_date(ts(2022, 1, 2), false);
    e.push_date(ts(2022, 2, 1), true);
    let probe: Vec<i64> = (0..40).map(|k| ts(2022, 1, 1) + k * 86400).collect();
    let before: Vec<bool> = probe.iter().map(|d| e.contains_date(*d)).collect();
    e.full_compress();
    let after: Vec<bool> = probe.iter().map(|d| e.contains_date(*d)).collect();
    assert_eq!(before, after);
}

#[test]
fn fill_gap_only_when_straddled() {
    let mut e = RoasTrieEntry::new(ts(2022, 1, 1), 24, 13335, false);
    e.push_date(ts(2022, 1, 2), false);
    e.push_date(ts(2022, 1, 5), false);
    // the gap 2022-01-03..2022-01-04 is exactly straddled
    e.fill_gap(ts(2022, 1, 3), ts(2022, 1, 4));
    assert_eq!(e.get_date_ranges(), vec![(ts(2022, 1, 1), ts(2022, 1, 5))]);
    // a gap nothing straddles changes nothing
    let mut f = RoasTrieEntry::new(ts(2022, 1, 1), 24, 13335, false);
    f.push_date(ts(2022, 1, 5), false);
    f.fill_gap(ts(2022, 1, 3), ts(2022, 1, 4));
    assert_eq!(
        f.get_date_ranges(),
        vec![
            (ts(2022, 1, 1), ts(2022, 1, 1)),
            (ts(2022, 1, 5), ts(2022, 1, 5))
        ]
    );
}
