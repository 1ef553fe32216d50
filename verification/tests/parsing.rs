use wayback_rpki::build_search_result;
use wayback_rpki::check_date;
use wayback_rpki::day_ts;
use wayback_rpki::known_gaps;
use wayback_rpki::parse_prefix;
use wayback_rpki::parse_roas_csv;
use wayback_rpki::DateYmd;
use wayback_rpki::ParseError;
use wayback_rpki::RoasSearchResultEntry;
use wayback_rpki::RoasTrie;

const URL: &str = "https://ftp.ripe.net/rpki/ripencc.tal/2022/01/15/roas.csv.xz";

fn lines(rows: &[&str]) -> Vec<Vec<u8>> {
    rows.iter().map(|r| r.as_bytes().to_vec()).collect()
}

#[test]
fn day_ts_values() {
    assert_eq!(day_ts(1970, 1, 1), Some(0));
    assert_eq!(day_ts(2022, 1, 1), Some(1640995200));
    assert_eq!(day_ts(2022, 1, 2), Some(1640995200 + 86400));
    // 2022 is not a leap year
    assert_eq!(day_ts(2022, 2, 29), None);
    assert_eq!(day_ts(2022, 13, 1), None);
}

#[test]
fn prefix_parsing_and_canonicalization() {
    let p = parse_prefix(b"1.1.1.0/24").unwrap();
    assert!(p.v4);
    assert_eq!(p.addr, 0x01010100);
    assert_eq!(p.len, 24);
    // host bits are zeroed
    let q = parse_prefix(b"1.1.1.77/24").unwrap();
    assert_eq!(q, p);
    let v6 = parse_prefix(b"2001:db8::/32").unwrap();
    assert!(!v6.v4);
    assert_eq!(v6.addr, 0x2001_0db8_u128 << 96);
    assert_eq!(v6.len, 32);
    assert!(parse_prefix(b"not-a-prefix").is_none());
    assert!(parse_prefix(b"1.1.1.0/33").is_none());
}

#[test]
fn parse_full_snapshot() {
    let entries = parse_roas_csv(
        URL.as_bytes(),
        &lines(&[
            "URI,ASN,IP Prefix,Max Length",
            "rsync://x/y.roa,AS13335,1.1.1.0/24,24",
            "rsync://x/z.roa,AS4200,2001:db8::/32,48",
        ]),
    )
    .unwrap();
    assert_eq!(entries.len(), 2);
    assert_eq!(entries[0].asn, 13335);
    assert_eq!(entries[0].prefix, parse_prefix(b"1.1.1.0/24").unwrap());
    assert_eq!(entries[0].max_len, 24);
    assert_eq!(entries[0].date_ts, day_ts(2022, 1, 15).unwrap());
    assert_eq!(entries[0].tal, b"ripencc".to_vec());
    assert_eq!(entries[1].asn, 4200);
    assert_eq!(entries[1].max_len, 48);
}

#[test]
fn empty_snapshot_leaves_index_unchanged() {
    // header present, zero rows
    let mut trie = RoasTrie::new();
    let before_len = trie.len();
    let before_latest = trie.get_latest_date();
    let r = trie.process_csv(URL.as_bytes(), &lines(&["URI,ASN,IP Prefix,Max Length"]), true);
    assert!(r.is_ok());
    assert_eq!(trie.len(), before_len);
    assert_eq!(trie.get_latest_date(), before_latest);
}

#[test]
fn duplicate_rows_collapse_to_one_entry() {
    let mut trie = RoasTrie::new();
    let r = trie.process_csv(
        URL.as_bytes(),
        &lines(&[
            "URI,ASN,IP Prefix,Max Length",
            "rsync://x/y.roa,AS13335,1.1.1.0/24,24",
            "rsync://x/y.roa,AS13335,1.1.1.0/24,24",
        ]),
        true,
    );
    assert!(r.is_ok());
    trie.compress_dates();
    assert_eq!(trie.len(), (1, 0));
    let rows = trie.lookup_prefix(&parse_prefix(b"1.1.1.0/24").unwrap());
    assert_eq!(rows.len(), 1);
    let d = day_ts(2022, 1, 15).unwrap();
    assert_eq!(rows[0].dates_ranges, vec![(d, d)]);
}

#[test]
fn blank_max_len_falls_back_to_prefix_len() {
    let entries = parse_roas_csv(
        URL.as_bytes(),
        &lines(&[
            "URI,ASN,IP Prefix,Max Length",
            "rsync://x/y.roa,AS13335,1.1.1.0/24,",
        ]),
    )
    .unwrap();
    assert_eq!(entries.len(), 1);
    assert_eq!(entries[0].max_len, 24);
}

#[test]
fn signed_numeric_fields_parse() {
    // one leading sign is accepted in the numeric fields
    let entries = parse_roas_csv(
        URL.as_bytes(),
        &lines(&[
            "URI,ASN,IP Prefix,Max Length",
            "rsync://x/y.roa,AS+13335,1.1.1.0/24,+25",
        ]),
    )
    .unwrap();
    assert_eq!(entries.len(), 1);
    assert_eq!(entries[0].asn, 13335);
    assert_eq!(entries[0].max_len, 25);
    // a double sign is not a number: the max_len falls back, the ASN drops
    // the line
    let fallback = parse_roas_csv(
        URL.as_bytes(),
        &lines(&[
            "URI,ASN,IP Prefix,Max Length",
            "rsync://x/y.roa,AS13335,1.1.1.0/24,++25",
            "rsync://x/y.roa,AS++13335,2.2.2.0/24,24",
        ]),
    )
    .unwrap();
    assert_eq!(fallback.len(), 1);
    assert_eq!(fallback[0].max_len, 24);
}

#[test]
fn tal_urls_table() {
    let all = wayback_rpki::get_tal_urls(None).unwrap();
    assert_eq!(all.len(), 5);
    assert_eq!(all[0], "https://ftp.ripe.net/rpki/afrinic.tal");
    assert_eq!(all[3], "https://ftp.ripe.net/rpki/ripencc.tal");
    let one = wayback_rpki::get_tal_urls(Some("ripencc".to_string())).unwrap();
    assert_eq!(one, vec!["https://ftp.ripe.net/rpki/ripencc.tal".to_string()]);
    assert!(wayback_rpki::get_tal_urls(Some("nope".to_string())).is_none());
}

#[test]
fn malformed_lines_are_dropped() {
    let entries = parse_roas_csv(
        URL.as_bytes(),
        &lines(&[
            "URI,ASN,IP Prefix,Max Length",
            "too,few",
            "rsync://x/y.roa,ASnope,1.1.1.0/24,24",
            "rsync://x/y.roa,AS13335,999.1.1.0/24,24",
            "rsync://x/y.roa,AS13335,1.1.1.0/24,24",
        ]),
    )
    .unwrap();
    assert_eq!(entries.len(), 1);
    assert_eq!(entries[0].asn, 13335);
}

#[test]
fn missing_header_rejects_file() {
    let r = parse_roas_csv(
        URL.as_bytes(),
        &lines(&["rsync://x/y.roa,AS13335,1.1.1.0/24,24"]),
    );
    assert_eq!(r.unwrap_err(), ParseError::HeaderMissing);
}

#[test]
fn bad_url_rejects_file() {
    let r = parse_roas_csv(b"https://ftp.ripe.net/rpki", &lines(&["URI"]));
    assert_eq!(r.unwrap_err(), ParseError::UrlFormat);
    let r2 = parse_roas_csv(
        b"https://ftp.ripe.net/rpki/ripencc.tal/20x2/01/15/roas.csv.xz",
        &lines(&["URI"]),
    );
    assert_eq!(r2.unwrap_err(), ParseError::UrlFormat);
}

#[test]
fn bad_date_rejects_file() {
    let r = parse_roas_csv(
        b"https://ftp.ripe.net/rpki/ripencc.tal/2022/13/15/roas.csv.xz",
        &lines(&["URI"]),
    );
    assert_eq!(r.unwrap_err(), ParseError::InvalidDate);
}

#[test]
fn known_gaps_table() {
    let gaps = known_gaps();
    assert_eq!(gaps.len(), 24);
    assert_eq!(
        gaps[0],
        (day_ts(2018, 12, 28).unwrap(), day_ts(2019, 1, 2).unwrap())
    );
    assert_eq!(
        gaps[23],
        (day_ts(2023, 7, 14).unwrap(), day_ts(2023, 7, 17).unwrap())
    );
    for (s, e) in gaps {
        assert!(s <= e);
        assert_eq!(s % 86400, 0);
        assert_eq!(e % 86400, 0);
    }
}

#[test]
fn check_date_coarse_filter() {
    let d = DateYmd { year: 2022, month: 3, day: 15 };
    let from = DateYmd { year: 2022, month: 1, day: 20 };
    let until = DateYmd { year: 2023, month: 6, day: 1 };
    // year level: only years are compared
    assert!(check_date(d, Some(from), Some(until), false, false));
    // month level: 3 >= 1 and 3 <= 6
    assert!(check_date(d, Some(from), Some(until), true, false));
    // day level: 15 < 20 fails the from-side day comparison
    assert!(!check_date(d, Some(from), Some(until), true, true));
    assert!(check_date(d, None, None, true, true));
}

fn row(n: u32) -> RoasSearchResultEntry {
    RoasSearchResultEntry {
        prefix: format!("10.0.{}.0/24", n),
        max_len: 24,
        asn: n,
        date_ranges: vec![],
        current: true,
    }
}

#[test]
fn pagination_windows_and_caps() {
    let entries = vec![row(0), row(1), row(2), row(3), row(4)];
    let r = build_search_result(entries.clone(), Some(1), Some(2), "2022-01-01".to_string());
    assert_eq!(r.page, 1);
    assert_eq!(r.page_size, 2);
    assert_eq!(r.count, 2);
    assert_eq!(r.data, vec![row(2), row(3)]);
    assert_eq!(r.meta.unwrap().latest_date, "2022-01-01");
    assert!(r.error.is_none());
    // defaults: page 0, page size 100
    let r2 = build_search_result(entries.clone(), None, None, String::new());
    assert_eq!(r2.page, 0);
    assert_eq!(r2.page_size, 100);
    assert_eq!(r2.count, 5);
    // an oversized page size is capped
    let r3 = build_search_result(entries.clone(), None, Some(5000), String::new());
    assert_eq!(r3.page_size, 1000);
    // a page beyond the data is empty
    let r4 = build_search_result(entries, Some(7), Some(2), String::new());
    assert_eq!(r4.count, 0);
    assert!(r4.data.is_empty());
}
