use funding_history::decimal::Decimal;
use funding_history::fetcher::{FetchState, HistoryFetcher, DEFAULT_PAGE_CAP};
use funding_history::record::{FundingRecord, MalformedRecordError, RawFundingRecord};
use funding_history::time::{cursor_from_millis, start_of_year_cursor};

const JAN_1_2024_MS: u64 = 1_704_067_200_000;
const HOUR_MS: u64 = 3_600_000;

fn raw(coin: &str, rate: &str, premium: &str, time: u64) -> RawFundingRecord {
    RawFundingRecord {
        coin: coin.to_string(),
        funding_rate: rate.to_string(),
        premium: premium.to_string(),
        time,
    }
}

/// Runs a fetcher against `service`, which maps the query's lower bound to a
/// page. Returns the queries issued and the records emitted, or the error.
fn drive<F>(
    asset: &str,
    start: u64,
    cap: usize,
    mut service: F,
) -> (Vec<u64>, Vec<FundingRecord>, Option<MalformedRecordError>)
where
    F: FnMut(u64) -> Vec<RawFundingRecord>,
{
    let mut fetcher = HistoryFetcher::new(asset.to_string(), start, cap);
    let mut queries = Vec::new();
    let mut out = Vec::new();
    while let Some(from) = fetcher.next_query() {
        queries.push(from);
        let page = service(from);
        match fetcher.accept_page(&page) {
            Ok(recs) => out.extend(recs),
            Err(e) => return (queries, out, Some(e)),
        }
    }
    (queries, out, None)
}

fn page_from(asset: &str, from: u64, n: usize) -> Vec<RawFundingRecord> {
    (0..n as u64).map(|i| raw(asset, "0.0000125", "-0.0003", from + i * HOUR_MS)).collect()
}

#[test]
fn parse_plain_decimal() {
    let d = Decimal::parse("0.0000125").unwrap();
    assert!(!d.negative);
    assert_eq!(d.digits, vec![0, 0, 0, 0, 0, 1, 2, 5]);
    assert_eq!(d.scale, 7);
    assert_eq!(d.to_text(), "0.0000125");
}

#[test]
fn parse_signed_decimals() {
    let d = Decimal::parse("-0.0005").unwrap();
    assert!(d.negative);
    assert_eq!(d.digits, vec![0, 0, 0, 0, 5]);
    assert_eq!(d.scale, 4);
    assert_eq!(d.to_text(), "-0.0005");
    let p = Decimal::parse("+12").unwrap();
    assert!(!p.negative);
    assert_eq!(p.digits, vec![1, 2]);
    assert_eq!(p.scale, 0);
    assert_eq!(p.to_text(), "12");
}

#[test]
fn parse_edge_forms() {
    let a = Decimal::parse(".5").unwrap();
    assert_eq!((a.digits.clone(), a.scale), (vec![5], 1));
    assert_eq!(a.to_text(), ".5");
    let b = Decimal::parse("7.").unwrap();
    assert_eq!((b.digits.clone(), b.scale), (vec![7], 0));
    assert_eq!(b.to_text(), "7");
}

#[test]
fn parse_rejects_non_decimals() {
    for s in ["", "-", "+", ".", "-.", "abc", "1.2.3", "1e5", "0x10", " 1", "1 ", "--1", "NaN"] {
        assert!(Decimal::parse(s).is_none(), "{s:?} should be rejected");
    }
}

#[test]
fn normalizes_a_record() {
    let r = FundingRecord::from_raw(&raw("BTC", "0.0000125", "-0.00031", JAN_1_2024_MS)).unwrap();
    assert_eq!(r.asset, "BTC");
    assert_eq!(r.funding_rate.to_text(), "0.0000125");
    assert_eq!(r.premium.to_text(), "-0.00031");
    assert_eq!(r.timestamp_ms, JAN_1_2024_MS);
}

#[test]
fn normalization_errors_name_the_field() {
    assert_eq!(
        FundingRecord::from_raw(&raw("BTC", "abc", "0.1", 0)),
        Err(MalformedRecordError::FundingRate)
    );
    assert_eq!(
        FundingRecord::from_raw(&raw("BTC", "0.1", "x", 0)),
        Err(MalformedRecordError::Premium)
    );
    assert_eq!(
        FundingRecord::from_raw(&raw("BTC", "0.1", "0.2", i64::MAX as u64)),
        Err(MalformedRecordError::Timestamp)
    );
    assert_eq!(
        FundingRecord::from_raw(&raw("BTC", "0.1", "0.2", u64::MAX)),
        Err(MalformedRecordError::Timestamp)
    );
    assert!(FundingRecord::from_raw(&raw("BTC", "0.1", "0.2", 0)).is_ok());
}

#[test]
fn normalization_is_deterministic() {
    let r = raw("ETH", "-0.0000071", "0.00042", JAN_1_2024_MS + 8 * HOUR_MS);
    let a = FundingRecord::from_raw(&r);
    let b = FundingRecord::from_raw(&r);
    assert_eq!(a, b);
    assert!(a.is_ok());
}

#[test]
fn start_of_year_is_midnight_utc() {
    assert_eq!(start_of_year_cursor(2024), Some(JAN_1_2024_MS));
    assert_eq!(start_of_year_cursor(1970), Some(0));
    assert_eq!(start_of_year_cursor(1969), None);
    assert_eq!(cursor_from_millis(-1), None);
    assert_eq!(cursor_from_millis(5), Some(5));
}

#[test]
fn stops_after_short_page() {
    let p = DEFAULT_PAGE_CAP;
    let mut calls = 0;
    let (queries, out, err) = drive("X", JAN_1_2024_MS, p, |from| {
        calls += 1;
        match calls {
            1 | 2 => page_from("X", from, p),
            3 => page_from("X", from, 3),
            _ => panic!("queried after a short page"),
        }
    });
    assert!(err.is_none());
    assert_eq!(queries.len(), 3);
    assert_eq!(out.len(), 2 * p + 3);
    let last_of_first = JAN_1_2024_MS + (p as u64 - 1) * HOUR_MS;
    assert_eq!(queries, vec![JAN_1_2024_MS, last_of_first, last_of_first + (p as u64 - 1) * HOUR_MS]);
    // the boundary record is emitted again as the first of the next page
    assert_eq!(out[p - 1].timestamp_ms, out[p].timestamp_ms);
}

#[test]
fn output_is_ascending_and_after_start() {
    let mut calls = 0;
    let (_, out, err) = drive("X", JAN_1_2024_MS, 4, |from| {
        calls += 1;
        if calls < 3 { page_from("X", from, 4) } else { page_from("X", from, 1) }
    });
    assert!(err.is_none());
    assert_eq!(out.len(), 9);
    assert!(out[0].timestamp_ms >= JAN_1_2024_MS);
    assert!(out.windows(2).all(|w| w[0].timestamp_ms <= w[1].timestamp_ms));
}

#[test]
fn empty_first_page_ends_cleanly() {
    let (queries, out, err) = drive("X", JAN_1_2024_MS, DEFAULT_PAGE_CAP, |_| Vec::new());
    assert!(err.is_none());
    assert_eq!(queries, vec![JAN_1_2024_MS]);
    assert!(out.is_empty());
}

#[test]
fn empty_page_mid_run_keeps_cursor() {
    let mut f = HistoryFetcher::new("X".to_string(), 10, 2);
    let recs = f.accept_page(&page_from("X", 10, 2)).unwrap();
    assert_eq!(recs.len(), 2);
    assert_eq!(f.state(), FetchState::Fetching { cursor_ms: 10 + HOUR_MS });
    assert_eq!(f.accept_page(&Vec::new()).unwrap().len(), 0);
    assert_eq!(f.state(), FetchState::Done);
    assert_eq!(f.next_query(), None);
}

#[test]
fn malformed_record_fails_the_run() {
    let mut calls = 0;
    let (queries, out, err) = drive("X", JAN_1_2024_MS, 3, |from| {
        calls += 1;
        let mut page = page_from("X", from, 3);
        if calls == 2 {
            page[1].funding_rate = "not-a-number".to_string();
        }
        page
    });
    assert_eq!(err, Some(MalformedRecordError::FundingRate));
    assert_eq!(queries.len(), 2);
    assert_eq!(out.len(), 3);
}

#[test]
fn malformed_record_stops_queries() {
    let mut f = HistoryFetcher::new("X".to_string(), 0, DEFAULT_PAGE_CAP);
    let page = vec![raw("X", "0.1", "0.1", 0), raw("X", "oops", "0.1", 1)];
    assert_eq!(f.accept_page(&page), Err(MalformedRecordError::FundingRate));
    assert_eq!(f.next_query(), None);
    assert_eq!(f.state(), FetchState::Done);
}

#[test]
fn end_to_end_single_asset() {
    let assets = vec!["X".to_string()];
    let start = start_of_year_cursor(2024).unwrap();
    let eight = JAN_1_2024_MS + 8 * HOUR_MS;
    for asset in &assets {
        let (queries, out, err) = drive(asset, start, DEFAULT_PAGE_CAP, |from| {
            if from == JAN_1_2024_MS {
                vec![
                    raw("X", "0.0000125", "-0.0001", JAN_1_2024_MS),
                    raw("X", "0.0000130", "-0.0002", eight),
                ]
            } else if from == eight {
                Vec::new()
            } else {
                panic!("unexpected query from {from}")
            }
        });
        assert!(err.is_none());
        assert_eq!(queries, vec![JAN_1_2024_MS]);
        assert_eq!(out.len(), 2);
        assert_eq!(out[0].timestamp_ms, JAN_1_2024_MS);
        assert_eq!(out[1].timestamp_ms, eight);
        assert_eq!(out[1].funding_rate.to_text(), "0.0000130");
    }
}

#[test]
fn fetcher_accessors() {
    let f = HistoryFetcher::new("SOL".to_string(), 42, 7);
    assert_eq!(f.asset(), "SOL");
    assert_eq!(f.page_cap(), 7);
    assert_eq!(f.next_query(), Some(42));
}

#[test]
fn decimal_text_reads_back_unchanged() {
    for s in ["0.0000125", "-0.0005", "+12", ".5", "7.", "-0", "0012.3400"] {
        let d = Decimal::parse(s).unwrap();
        let again = Decimal::parse(&d.to_text()).unwrap();
        assert_eq!(again, d);
    }
    assert_eq!(Decimal::parse("0012.3400").unwrap().to_text(), "0012.3400");
}

#[test]
fn year_starts_across_the_calendar() {
    assert_eq!(start_of_year_cursor(2000), Some(946_684_800_000));
    assert_eq!(start_of_year_cursor(2100), Some(4_102_444_800_000));
    assert_eq!(start_of_year_cursor(2401), Some(13_601_088_000_000));
    assert_eq!(start_of_year_cursor(262_142), Some(8_210_235_340_800_000));
    assert_eq!(start_of_year_cursor(262_143), None);
    assert_eq!(start_of_year_cursor(i32::MAX), None);
    assert_eq!(start_of_year_cursor(-262_143), None);
    assert_eq!(start_of_year_cursor(i32::MIN), None);
}

#[test]
fn latest_representable_time_is_accepted() {
    let last: u64 = 8_210_266_876_799_999;
    assert!(FundingRecord::from_raw(&raw("BTC", "0.1", "0.2", last)).is_ok());
    assert_eq!(
        FundingRecord::from_raw(&raw("BTC", "0.1", "0.2", last + 1)),
        Err(MalformedRecordError::Timestamp)
    );
}
