use data_collector::amount::parse_amount;
use data_collector::collector::{Action, AdStatus, Collection, Collector, Completion};
use data_collector::merge::merge_results;
use data_collector::metric::{add_bound, Bound, Share};
use data_collector::record::{
    classify, impression_bound, record_start, AdRecord, CollectError, Demographic, Impressions, Page,
    RegionShare, Verdict,
};
use data_collector::result::{AdMetric, CollectionResult};
use data_collector::table::Table;

const WINDOW_START: i64 = 1577836800; // 2020-01-01T00:00:00Z
const WINDOW_END: i64 = 1581292799; // 2020-02-09T23:59:59Z
const UNIT: u128 = 1_000_000_000_000_000_000;

fn collector(retries: usize) -> Collector {
    Collector {
        start_date_time: WINDOW_START,
        end_date_time: WINDOW_END,
        ad_status: AdStatus::ALL,
        page_ids: vec![1, 22],
        access_token: "tok".to_string(),
        retries,
        batch_size: 1000,
        endpoint: None,
    }
}

fn demographic(gender: &str, age: &str, p: &str) -> Demographic {
    Demographic { age: age.to_string(), gender: gender.to_string(), percentage: p.to_string() }
}

fn record(body: Option<&str>, date: &str, lower: Option<&str>, upper: Option<&str>) -> AdRecord {
    AdRecord {
        ad_creative_body: body.map(|s| s.to_string()),
        ad_delivery_start_time: date.to_string(),
        demographic_distribution: Some(vec![
            demographic("female", "25-34", "0.6"),
            demographic("male", "25-34", "0.4"),
        ]),
        impressions: Impressions {
            lower_bound: lower.map(|s| s.to_string()),
            upper_bound: upper.map(|s| s.to_string()),
        },
        region_distribution: Some(vec![RegionShare { region: "Ohio".to_string(), percentage: "1".to_string() }]),
    }
}

fn page(data: Vec<AdRecord>, next: Option<&str>) -> Page {
    Page { data, next: next.map(|s| s.to_string()) }
}

fn demo(r: &CollectionResult, body: &str, key: &str) -> Option<Bound> {
    let m = r.get(&body.to_string())?;
    m.demographic_impression.get(&key.to_string()).copied()
}

fn region(r: &CollectionResult, body: &str, key: &str) -> Option<Bound> {
    let m = r.get(&body.to_string())?;
    m.region_impression.get(&key.to_string()).copied()
}

fn is_fetch(a: &Action, url: &str) -> bool {
    match a {
        Action::Fetch(u) => u == url,
        Action::Stop(_) => false,
    }
}

fn is_stop(a: &Action, c: Completion) -> bool {
    match a {
        Action::Fetch(_) => false,
        Action::Stop(x) => *x == c,
    }
}

#[test]
fn weighted_sum_per_share() {
    let c = collector(3);
    let mut run = c.begin();
    let p = page(vec![record(Some("ad"), "2020-01-15", Some("1000"), Some("2000"))], None);
    let a = run.on_page(&c, &p).unwrap();
    assert!(is_stop(&a, Completion::EndOfData));
    assert_eq!(demo(&run.result, "ad", "female/25-34"), Some((600 * UNIT, 1200 * UNIT)));
    assert_eq!(demo(&run.result, "ad", "male/25-34"), Some((400 * UNIT, 800 * UNIT)));
    assert_eq!(region(&run.result, "ad", "Ohio"), Some((1000 * UNIT, 2000 * UNIT)));
}

#[test]
fn same_body_accumulates() {
    let c = collector(3);
    let mut run = c.begin();
    let p = page(
        vec![
            record(Some("ad"), "2020-01-20", Some("1000"), Some("2000")),
            record(Some("ad"), "2020-01-15", Some("10"), Some("20")),
        ],
        None,
    );
    run.on_page(&c, &p).unwrap();
    assert_eq!(demo(&run.result, "ad", "female/25-34"), Some((606 * UNIT, 1212 * UNIT)));
    assert_eq!(run.result.ads.len(), 1);
}

#[test]
fn default_bounds() {
    let only_lower = Impressions { lower_bound: Some("500".to_string()), upper_bound: None };
    assert_eq!(impression_bound(&only_lower), Some((500_000_000_000, 500_000_000_000)));
    let only_upper = Impressions { lower_bound: None, upper_bound: Some("7".to_string()) };
    assert_eq!(impression_bound(&only_upper), Some((0, 7_000_000_000)));
    let neither = Impressions { lower_bound: None, upper_bound: None };
    assert_eq!(impression_bound(&neither), Some((0, 0)));
    let bad = Impressions { lower_bound: Some("lots".to_string()), upper_bound: None };
    assert_eq!(impression_bound(&bad), None);
}

#[test]
fn older_record_terminates_mid_page() {
    let c = collector(3);
    let mut run = c.begin();
    let p = page(
        vec![
            record(Some("newer"), "2020-02-10", Some("1"), Some("2")),
            record(Some("older"), "2019-12-31", Some("1"), Some("2")),
            record(Some("inside"), "2020-01-15", Some("1"), Some("2")),
        ],
        Some("https://next"),
    );
    let a = run.on_page(&c, &p).unwrap();
    assert!(is_stop(&a, Completion::Terminated));
    assert_eq!(run.result.ads.len(), 0);
    assert!(run.result.get(&"inside".to_string()).is_none());
}

#[test]
fn newer_record_skipped_without_stopping() {
    let c = collector(3);
    let mut run = c.begin();
    let p = page(
        vec![
            record(Some("newer"), "2020-03-01", Some("1"), Some("2")),
            record(Some("inside"), "2020-01-15", Some("1"), Some("2")),
        ],
        Some("https://next"),
    );
    let a = run.on_page(&c, &p).unwrap();
    assert!(is_fetch(&a, "https://next"));
    assert_eq!(run.endpoint, "https://next");
    assert!(run.result.get(&"newer".to_string()).is_none());
    assert_eq!(demo(&run.result, "inside", "male/25-34"), Some((4 * UNIT / 10, 8 * UNIT / 10)));
}

#[test]
fn contentless_record_contributes_nothing() {
    let c = collector(3);
    let mut run = c.begin();
    let p = page(
        vec![
            record(None, "2020-01-15", Some("1000"), Some("2000")),
            record(None, "2019-01-01", Some("1000"), Some("2000")),
            record(None, "not a date", Some("1000"), Some("2000")),
        ],
        None,
    );
    let a = run.on_page(&c, &p).unwrap();
    assert!(is_stop(&a, Completion::EndOfData));
    assert_eq!(run.result.ads.len(), 0);
}

fn first_page() -> Page {
    page(vec![record(Some("a"), "2020-02-01", Some("100"), Some("200"))], Some("https://p2"))
}

fn second_page() -> Page {
    page(vec![record(Some("b"), "2020-01-10", Some("10"), None)], None)
}

#[test]
fn retry_then_success_matches_direct_success() {
    let c = collector(3);
    let mut direct = c.begin();
    direct.on_page(&c, &first_page()).unwrap();
    direct.on_page(&c, &second_page()).unwrap();

    let mut retried = c.begin();
    retried.on_page(&c, &first_page()).unwrap();
    assert!(is_fetch(&retried.on_failure(&c), "https://p2"));
    assert!(is_fetch(&retried.on_failure(&c), "https://p2"));
    let a = retried.on_page(&c, &second_page()).unwrap();
    assert!(is_stop(&a, Completion::EndOfData));
    assert_eq!(retried.attempts, 0);

    assert_eq!(retried.result.ads.len(), direct.result.ads.len());
    for body in ["a", "b"] {
        for key in ["female/25-34", "male/25-34"] {
            assert_eq!(demo(&retried.result, body, key), demo(&direct.result, body, key));
        }
        assert_eq!(region(&retried.result, body, "Ohio"), region(&direct.result, body, "Ohio"));
    }
    assert_eq!(demo(&direct.result, "b", "male/25-34"), Some((4 * UNIT, 4 * UNIT)));
}

#[test]
fn retries_exhausted_keep_partial_result() {
    let c = collector(3);
    let mut run = c.begin();
    run.on_page(&c, &first_page()).unwrap();
    for _ in 0..3 {
        assert!(is_fetch(&run.on_failure(&c), "https://p2"));
    }
    assert!(is_stop(&run.on_failure(&c), Completion::Exhausted));
    assert_eq!(run.result.ads.len(), 1);
    assert_eq!(demo(&run.result, "a", "female/25-34"), Some((60 * UNIT, 120 * UNIT)));
}

#[test]
fn zero_budget_gives_up_at_once() {
    let c = collector(0);
    let mut run = c.begin();
    assert!(is_stop(&run.on_failure(&c), Completion::Exhausted));
}

#[test]
fn malformed_percentage_is_fatal() {
    let c = collector(3);
    let mut run = c.begin();
    let mut r = record(Some("ad"), "2020-01-15", Some("1"), Some("2"));
    r.demographic_distribution = Some(vec![demographic("female", "18-24", "0,5")]);
    assert!(matches!(run.on_page(&c, &page(vec![r], None)), Err(CollectError::MalformedNumber)));
}

#[test]
fn malformed_date_is_fatal() {
    let c = collector(3);
    let mut run = c.begin();
    let r = record(Some("ad"), "2020-13-45", Some("1"), Some("2"));
    assert!(matches!(run.on_page(&c, &page(vec![r], None)), Err(CollectError::MalformedTimestamp)));
}

#[test]
fn start_dates_read_as_midnight_utc() {
    assert_eq!(record_start(&"2020-01-01".to_string()), Some(WINDOW_START));
    assert_eq!(record_start(&"2020-02-09".to_string()), Some(WINDOW_END - 86399));
    assert_eq!(record_start(&"2020-01-01T10:00:00+0000".to_string()), Some(WINDOW_START + 36000));
    assert_eq!(record_start(&"2020-01-01T10:00:00+0100".to_string()), Some(WINDOW_START + 32400));
    assert_eq!(record_start(&"yesterday".to_string()), None);
}

#[test]
fn window_verdicts() {
    assert_eq!(classify(WINDOW_START - 1, WINDOW_START, WINDOW_END), Verdict::Terminate);
    assert_eq!(classify(WINDOW_START, WINDOW_START, WINDOW_END), Verdict::Accept);
    assert_eq!(classify(WINDOW_END, WINDOW_START, WINDOW_END), Verdict::Accept);
    assert_eq!(classify(WINDOW_END + 1, WINDOW_START, WINDOW_END), Verdict::Skip);
}

#[test]
fn amounts_read_in_billionths() {
    assert_eq!(parse_amount("0.6"), Some(600_000_000));
    assert_eq!(parse_amount("1000"), Some(1_000_000_000_000));
    assert_eq!(parse_amount("0.0"), Some(0));
    assert_eq!(parse_amount("5."), Some(5_000_000_000));
    assert_eq!(parse_amount("0.123456789"), Some(123_456_789));
    assert_eq!(parse_amount("18446744073"), Some(18_446_744_073_000_000_000));
    assert_eq!(parse_amount("18446744074"), None);
    assert_eq!(parse_amount("0.1234567891"), None);
    assert_eq!(parse_amount(""), None);
    assert_eq!(parse_amount(".5"), None);
    assert_eq!(parse_amount("-1"), None);
    assert_eq!(parse_amount("1e3"), None);
}

#[test]
fn query_endpoint_from_configuration() {
    let c = collector(3);
    let url = c.query_endpoint();
    assert!(url.starts_with("https://graph.facebook.com/v5.0/ads_archive?fields=ad_creative_body"));
    assert!(url.ends_with("&ad_active_status=ALL&search_page_ids=[1, 22]&limit=1000&access_token=tok"));
    assert_eq!(c.begin().endpoint, url);
    let mut resumed = collector(3);
    resumed.endpoint = Some("https://resume".to_string());
    assert_eq!(resumed.begin().endpoint, "https://resume");
}

#[test]
fn status_names() {
    assert_eq!(AdStatus::ALL.to_string(), "ALL");
    assert_eq!(AdStatus::ACTIVE.to_string(), "ACTIVE");
    assert_eq!(AdStatus::INACTIVE.to_string(), "INACTIVE");
}

fn snapshot(entries: &[(&str, &str, u128, u128)]) -> CollectionResult {
    let mut r = CollectionResult::new();
    for (body, key, l, u) in entries {
        let mut m = AdMetric::new();
        add_bound(&mut m.demographic_impression, &key.to_string(), *l, *u);
        add_bound(&mut m.region_impression, &"Ohio".to_string(), *l, *u);
        r.add_metric(&body.to_string(), &m);
    }
    r
}

#[test]
fn merge_sums_matching_keys_and_copies_others() {
    let a = snapshot(&[("x", "f/18", 1, 2), ("y", "m/18", 5, 6)]);
    let b = snapshot(&[("x", "f/18", 10, 20), ("x", "m/65", 3, 4), ("z", "f/18", 7, 8)]);
    let r = merge_results(&a, &b);
    assert_eq!(r.ads.len(), 3);
    assert_eq!(demo(&r, "x", "f/18"), Some((11, 22)));
    assert_eq!(demo(&r, "x", "m/65"), Some((3, 4)));
    assert_eq!(region(&r, "x", "Ohio"), Some((14, 26)));
    assert_eq!(demo(&r, "y", "m/18"), Some((5, 6)));
    assert_eq!(demo(&r, "z", "f/18"), Some((7, 8)));
    assert_eq!(demo(&a, "x", "f/18"), Some((1, 2)));
}

#[test]
fn merge_disjoint_is_associative_and_commutative() {
    let a = snapshot(&[("a", "k", 1, 2)]);
    let b = snapshot(&[("b", "k", 3, 4)]);
    let c = snapshot(&[("c", "k", 5, 6)]);
    let left = merge_results(&merge_results(&a, &b), &c);
    let right = merge_results(&a, &merge_results(&b, &c));
    let swapped = merge_results(&merge_results(&b, &a), &c);
    for body in ["a", "b", "c"] {
        assert_eq!(demo(&left, body, "k"), demo(&right, body, "k"));
        assert_eq!(demo(&left, body, "k"), demo(&swapped, body, "k"));
    }
    assert_eq!(left.ads.len(), 3);
    assert_eq!(demo(&left, "c", "k"), Some((5, 6)));
}

#[test]
fn merge_with_itself_doubles() {
    let a = snapshot(&[("a", "k", 1, 2), ("b", "k", 3, u128::MAX)]);
    let r = merge_results(&a, &a);
    assert_eq!(demo(&r, "a", "k"), Some((2, 4)));
    assert_eq!(demo(&r, "b", "k"), Some((6, u128::MAX)));
}

#[test]
fn shares_add_into_table() {
    let mut t: Table<Bound> = Table::new();
    let shares = vec![
        Share { key: "f".to_string(), percentage: 500_000_000 },
        Share { key: "f".to_string(), percentage: 250_000_000 },
    ];
    data_collector::metric::add_shares_to(&mut t, &shares, 4_000_000_000, 8_000_000_000);
    assert_eq!(t.get(&"f".to_string()).copied(), Some((3 * UNIT, 6 * UNIT)));
}
