use wayback_rpki::day_ts;
use wayback_rpki::parse_prefix;
use wayback_rpki::IpPrefix;
use wayback_rpki::RoaEntry;
use wayback_rpki::RoasTrie;
use wayback_rpki::RpkiValidation;

fn ts(y: i32, m: u32, d: u32) -> i64 {
    day_ts(y, m, d).unwrap()
}

fn pfx(s: &str) -> IpPrefix {
    parse_prefix(s.as_bytes()).unwrap()
}

fn rec(prefix: &str, max_len: i32, asn: u32, y: i32, m: u32, d: u32) -> RoaEntry {
    RoaEntry {
        tal: b"ripencc".to_vec(),
        prefix: pfx(prefix),
        max_len,
        asn,
        date_ts: ts(y, m, d),
    }
}

fn scenario_two() -> RoasTrie {
    let mut trie = RoasTrie::new();
    let entries = vec![
        rec("1.1.1.0/24", 24, 13335, 2022, 1, 1),
        rec("1.1.1.0/24", 24, 13335, 2022, 1, 2),
        rec("1.1.1.0/24", 24, 13335, 2022, 1, 4),
    ];
    trie.process_entries(&entries, true);
    trie.compress_dates();
    trie
}

#[test]
fn bulk_single_record() {
    let mut trie = RoasTrie::new();
    trie.process_entries(&vec![rec("1.1.1.0/24", 24, 13335, 2022, 1, 1)], true);
    trie.compress_dates();
    let (v4, v6) = trie.len();
    assert_eq!((v4, v6), (1, 0));
    assert_eq!(trie.get_latest_date(), ts(2022, 1, 1));
    let rows = trie.lookup_prefix(&pfx("1.1.1.0/24"));
    assert_eq!(rows.len(), 1);
    assert_eq!(rows[0].prefix, pfx("1.1.1.0/24"));
    assert_eq!(rows[0].origin, 13335);
    assert_eq!(rows[0].max_len, 24);
    assert_eq!(rows[0].dates_ranges, vec![(ts(2022, 1, 1), ts(2022, 1, 1))]);
}

#[test]
fn bulk_three_days_compresses_to_two_runs() {
    let trie = scenario_two();
    let rows = trie.lookup_prefix(&pfx("1.1.1.0/24"));
    assert_eq!(rows.len(), 1);
    assert_eq!(
        rows[0].dates_ranges,
        vec![
            (ts(2022, 1, 1), ts(2022, 1, 2)),
            (ts(2022, 1, 4), ts(2022, 1, 4))
        ]
    );
    assert_eq!(trie.get_latest_date(), ts(2022, 1, 4));
}

#[test]
fn fix_heals_known_gap() {
    // 2022-01-03 is a known publisher outage; the two runs straddle it
    let mut trie = scenario_two();
    trie.fill_gaps();
    let rows = trie.lookup_prefix(&pfx("1.1.1.0/24"));
    assert_eq!(rows.len(), 1);
    assert_eq!(rows[0].dates_ranges, vec![(ts(2022, 1, 1), ts(2022, 1, 4))]);
    assert_eq!(trie.get_latest_date(), ts(2022, 1, 4));
}

#[test]
fn validate_covered_announcement_valid() {
    let trie = scenario_two();
    let v = trie.validate(&pfx("1.1.1.0/24"), 13335, ts(2022, 1, 2));
    assert_eq!(v, RpkiValidation::Valid);
}

#[test]
fn validate_subnet_within_max_len_valid() {
    let mut trie = RoasTrie::new();
    trie.process_entries(&vec![rec("1.1.1.0/24", 25, 13335, 2022, 1, 2)], true);
    trie.compress_dates();
    let v = trie.validate(&pfx("1.1.1.128/25"), 13335, ts(2022, 1, 2));
    assert_eq!(v, RpkiValidation::Valid);
}

#[test]
fn validate_beyond_max_len_invalid() {
    // the stored max length (24) does not authorize a /25 announcement
    let trie = scenario_two();
    let v = trie.validate(&pfx("1.1.1.128/25"), 13335, ts(2022, 1, 2));
    assert_eq!(v, RpkiValidation::Invalid);
}

#[test]
fn validate_wrong_origin_invalid() {
    let trie = scenario_two();
    let v = trie.validate(&pfx("1.1.1.0/24"), 99, ts(2022, 1, 2));
    assert_eq!(v, RpkiValidation::Invalid);
}

#[test]
fn validate_uncovered_prefix_unknown() {
    let trie = scenario_two();
    let v = trie.validate(&pfx("2.2.2.0/24"), 13335, ts(2022, 1, 2));
    assert_eq!(v, RpkiValidation::Unknown);
}

#[test]
fn validate_absent_day_not_valid() {
    let trie = scenario_two();
    let v = trie.validate(&pfx("1.1.1.0/24"), 13335, ts(2022, 1, 3));
    assert_eq!(v, RpkiValidation::Invalid);
}

#[test]
fn search_current_true_finds_fresh_entry() {
    let trie = scenario_two();
    // the last run ends at the watermark
    let rows = trie.search(None, None, None, None, Some(true));
    assert_eq!(rows.len(), 1);
    assert_eq!(rows[0].prefix, pfx("1.1.1.0/24"));
}

#[test]
fn search_current_false_finds_expired_entry() {
    let mut trie = scenario_two();
    // push the watermark to 2022-01-10 with an unrelated prefix
    trie.process_entries(&vec![rec("3.3.3.0/24", 24, 65000, 2022, 1, 10)], false);
    let rows = trie.search(None, None, None, None, Some(false));
    assert_eq!(rows.len(), 1);
    assert_eq!(rows[0].prefix, pfx("1.1.1.0/24"));
}

#[test]
fn search_filters_by_origin_and_max_len_and_date() {
    let mut trie = scenario_two();
    trie.process_entries(&vec![rec("1.1.1.0/24", 25, 99, 2022, 1, 2)], false);
    let by_origin = trie.search(None, Some(13335), None, None, None);
    assert_eq!(by_origin.len(), 1);
    assert_eq!(by_origin[0].origin, 13335);
    let by_len = trie.search(None, None, Some(25), None, None);
    assert_eq!(by_len.len(), 1);
    assert_eq!(by_len[0].max_len, 25);
    let by_date = trie.search(None, None, None, Some(ts(2022, 1, 4)), None);
    assert_eq!(by_date.len(), 1);
    assert_eq!(by_date[0].origin, 13335);
}

#[test]
fn cross_family_query_returns_empty() {
    let mut trie = RoasTrie::new();
    trie.process_entries(&vec![rec("2001:db8::/32", 48, 4200, 2022, 1, 1)], true);
    trie.compress_dates();
    let rows = trie.lookup_prefix(&pfx("1.1.1.0/24"));
    assert!(rows.is_empty());
    let v = trie.validate(&pfx("1.1.1.0/24"), 4200, ts(2022, 1, 1));
    assert_eq!(v, RpkiValidation::Unknown);
}

#[test]
fn ingest_is_idempotent_in_both_modes() {
    let r = rec("1.1.1.0/24", 24, 13335, 2022, 1, 1);
    let mut once = RoasTrie::new();
    once.process_entries(&vec![r.clone()], true);
    let mut twice = RoasTrie::new();
    twice.process_entries(&vec![r.clone(), r.clone()], true);
    assert_eq!(
        once.lookup_prefix(&pfx("1.1.1.0/24")),
        twice.lookup_prefix(&pfx("1.1.1.0/24"))
    );
    let mut once_inc = RoasTrie::new();
    once_inc.process_entries(&vec![r.clone()], false);
    let mut twice_inc = RoasTrie::new();
    twice_inc.process_entries(&vec![r.clone(), r.clone()], false);
    assert_eq!(
        once_inc.lookup_prefix(&pfx("1.1.1.0/24")),
        twice_inc.lookup_prefix(&pfx("1.1.1.0/24"))
    );
    assert_eq!(once_inc.get_latest_date(), twice_inc.get_latest_date());
}

#[test]
fn incremental_mode_extends_tail_run() {
    let mut trie = RoasTrie::new();
    let entries = vec![
        rec("1.1.1.0/24", 24, 13335, 2022, 1, 1),
        rec("1.1.1.0/24", 24, 13335, 2022, 1, 2),
        rec("1.1.1.0/24", 24, 13335, 2022, 1, 4),
        // out of order: ignored by the tail-append rule
        rec("1.1.1.0/24", 24, 13335, 2022, 1, 3),
    ];
    trie.process_entries(&entries, false);
    let rows = trie.lookup_prefix(&pfx("1.1.1.0/24"));
    assert_eq!(
        rows[0].dates_ranges,
        vec![
            (ts(2022, 1, 1), ts(2022, 1, 2)),
            (ts(2022, 1, 4), ts(2022, 1, 4))
        ]
    );
}

#[test]
fn dump_load_round_trip() {
    let trie = scenario_two();
    let bytes = trie.dump();
    let loaded = RoasTrie::load(&bytes).unwrap();
    assert_eq!(loaded.get_latest_date(), trie.get_latest_date());
    assert_eq!(loaded.len(), trie.len());
    assert_eq!(
        loaded.lookup_prefix(&pfx("1.1.1.0/24")),
        trie.lookup_prefix(&pfx("1.1.1.0/24"))
    );
    let v = loaded.validate(&pfx("1.1.1.0/24"), 13335, ts(2022, 1, 2));
    assert_eq!(v, RpkiValidation::Valid);
    // the restored store re-encodes to the very same bytes
    assert_eq!(loaded.dump(), bytes);
}

#[test]
fn dump_load_round_trip_mixed_state() {
    // uncompressed loose days survive a round trip unchanged
    let mut trie = RoasTrie::new();
    trie.process_entries(
        &vec![
            rec("1.1.1.0/24", 24, 13335, 2022, 1, 4),
            rec("1.1.1.0/24", 24, 13335, 2022, 1, 1),
            rec("2001:db8::/32", 48, 4200, 2021, 6, 1),
        ],
        true,
    );
    let bytes = trie.dump();
    let loaded = RoasTrie::load(&bytes).unwrap();
    assert_eq!(loaded.dump(), bytes);
    assert_eq!(loaded.len(), (1, 1));
    assert_eq!(loaded.get_latest_date(), ts(2022, 1, 4));
}

#[test]
fn load_rejects_garbage() {
    assert!(RoasTrie::load(&[1, 2, 3]).is_err());
    // a truncated dump is rejected too
    let trie = scenario_two();
    let mut bytes = trie.dump();
    bytes.pop();
    assert!(RoasTrie::load(&bytes).is_err());
    // trailing garbage is rejected
    let mut bytes2 = trie.dump();
    bytes2.push(0);
    assert!(RoasTrie::load(&bytes2).is_err());
}

#[test]
fn load_empty_store() {
    let trie = RoasTrie::new();
    let bytes = trie.dump();
    let loaded = RoasTrie::load(&bytes).unwrap();
    assert_eq!(loaded.len(), (0, 0));
    assert_eq!(loaded.get_latest_date(), 0);
}

#[test]
fn latest_date_tracks_maximum_day() {
    let mut trie = RoasTrie::new();
    trie.process_entries(&vec![rec("1.1.1.0/24", 24, 13335, 2022, 3, 15)], true);
    assert_eq!(trie.get_latest_date(), ts(2022, 3, 15));
    trie.process_entries(&vec![rec("2.2.2.0/24", 24, 1, 2021, 1, 1)], true);
    // an older snapshot never lowers the watermark
    assert_eq!(trie.get_latest_date(), ts(2022, 3, 15));
}
