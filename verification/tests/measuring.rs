use cfscanner::config::{Config, SpeedTestConfig};
use cfscanner::metric::Metric;
use cfscanner::speed_tester;
use cfscanner::speed_tester::{
    BodyRead, Download, DownloadPhase, DownloadStep, HeaderRead, Outcome, SpeedRun,
};
use cfscanner::types::IpResult;

fn metric(x: f64) -> Metric {
    Metric::from_bits(x.to_bits())
}

fn result(ip: &str, delay: u64, colo: &str) -> IpResult {
    IpResult::new(ip.to_string(), 443, delay, colo.to_string())
}

fn settings() -> SpeedTestConfig {
    Config::default_config().unwrap().speed_test
}

fn done(speed: f64, score: f64) -> Outcome {
    Outcome::Measured { speed: metric(speed), score: metric(score) }
}

fn some_results() -> Vec<IpResult> {
    vec![
        result("a", 50, "HKG"),
        result("b", 10, "LAX"),
        result("c", 30, "hkg"),
        result("d", 30, "NRT"),
        result("e", 20, "LAX"),
    ]
}

#[test]
fn candidates_have_the_lowest_latency_first() {
    let v = some_results();
    assert_eq!(speed_tester::candidates(&v, None), vec![1, 4, 2, 3, 0]);
    let filter = vec!["HKG".to_string()];
    assert_eq!(speed_tester::candidates(&v, Some(&filter)), vec![2, 0]);
    assert_eq!(speed_tester::candidates(&v, Some(&vec![])), Vec::<usize>::new());
}

#[test]
fn one_batch_without_a_wanted_speed() {
    let mut cfg = settings();
    cfg.top_n = 2;
    let mut run = SpeedRun::new(some_results(), &cfg, None, 5);
    assert_eq!(run.next_batch(), vec![1, 4]);
    assert!(run.notice().is_none());
    assert_eq!((run.result(4).ip.as_str(), run.handed_out()), ("e", 2));
    run.record(done(1.0, -2.4));
    run.record(done(9.0, -0.6));
    assert!(run.next_batch().is_empty());
    let ips: Vec<String> = run.finish().into_iter().map(|r| r.ip).collect();
    assert_eq!(ips, ["e", "b", "a", "c", "d"]);
}

#[test]
fn further_batches_until_enough_qualify() {
    let mut cfg = settings();
    cfg.top_n = 2;
    cfg.min_speed_mbps = metric(5.0);
    let mut run = SpeedRun::new(some_results(), &cfg, None, 1);
    assert_eq!(run.next_batch(), vec![1, 4]);
    run.record(done(4.9, 0.0));
    run.record(Outcome::Failed);
    assert_eq!(run.next_batch(), vec![2, 3]);
    run.record(done(5.0, 0.0));
    run.record(done(0.1, 0.0));
    assert!(run.next_batch().is_empty());
}

#[test]
fn further_batches_are_limited() {
    let mut cfg = settings();
    cfg.top_n = 1;
    cfg.max_batches = 2;
    cfg.min_speed_mbps = metric(5.0);
    let mut run = SpeedRun::new(some_results(), &cfg, None, 5);
    for _ in 0..3 {
        assert_eq!(run.next_batch().len(), 1);
        run.record(Outcome::Failed);
    }
    assert!(run.next_batch().is_empty());
}

#[test]
fn last_batch_may_be_short() {
    let mut cfg = settings();
    cfg.top_n = 3;
    cfg.min_speed_mbps = metric(5.0);
    let mut run = SpeedRun::new(some_results(), &cfg, None, 5);
    assert_eq!(run.next_batch().len(), 3);
    for _ in 0..3 {
        run.record(Outcome::Failed);
    }
    assert_eq!(run.next_batch().len(), 2);
    for _ in 0..2 {
        run.record(done(1.0, 1.0));
    }
    assert!(run.next_batch().is_empty());
}

#[test]
fn nothing_to_measure_leaves_the_order() {
    let mut run = SpeedRun::new(some_results(), &settings(), Some(&vec!["SIN".to_string()]), 5);
    assert!(run.next_batch().is_empty());
    assert_eq!(run.notice().unwrap(), "  没有符合条件的 IP 可供测速");
    let ips: Vec<String> = run.finish().into_iter().map(|r| r.ip).collect();
    assert_eq!(ips, ["a", "b", "c", "d", "e"]);
}

#[test]
fn outcomes_land_on_their_results() {
    let cfg = settings();
    let mut run = SpeedRun::new(some_results(), &cfg, None, 5);
    let batch = run.next_batch();
    for at in &batch {
        if *at == 0 {
            run.record(Outcome::Failed);
        } else {
            run.record(done(*at as f64, -(*at as f64)));
        }
    }
    let ranked = run.finish();
    let ips: Vec<&str> = ranked.iter().map(|r| r.ip.as_str()).collect();
    assert_eq!(ips, ["b", "c", "d", "e", "a"]);
    assert_eq!(ranked[0].speed_mbps, Some(metric(1.0)));
    assert_eq!(ranked[4].speed_mbps, None);
    let kept = speed_tester::measured_only(&ranked);
    assert_eq!(kept.len(), 4);
}

#[test]
fn low_scores_still_come_before_missing_ones() {
    let mut v = some_results();
    v[0].score = Some(metric(-42.0));
    v[3].score = Some(metric(3.0));
    v[4].score = Some(metric(-6.0));
    let ips: Vec<String> =
        speed_tester::sort_by_score(&v).into_iter().map(|r| r.ip).collect();
    assert_eq!(ips, ["d", "e", "a", "b", "c"]);
}

#[test]
fn plans() {
    let mut cfg = settings();
    assert_eq!(speed_tester::download_plan(&cfg), (4, 104857600));
    assert_eq!(speed_tester::parallel_tests(&cfg), 3);
    cfg.download_threads = 0;
    cfg.speed_concurrency = 0;
    assert_eq!(speed_tester::download_plan(&cfg).0, 1);
    assert_eq!(speed_tester::parallel_tests(&cfg), 1);
    assert_eq!(
        speed_tester::download_request(100),
        "GET /__down?bytes=100 HTTP/1.1\r\nHost: speed.cloudflare.com\r\nUser-Agent: Mozilla/5.0 (compatible; cfscanner)\r\nAccept: */*\r\nConnection: close\r\n\r\n"
    );
}

#[test]
fn download_counts_the_body() {
    let mut d = Download::new();
    for b in b"HTTP/1.1 200 OK\r\nA: b\r\n\r\n" {
        assert_eq!(d.next(99, 8), DownloadStep::ReadHeader);
        assert!(d.header_read(HeaderRead::Byte(*b)).is_none());
    }
    assert_eq!(d.phase(), DownloadPhase::Body);
    assert_eq!(d.next(7, 8), DownloadStep::ReadBody);
    d.body_read(BodyRead::Bytes(100));
    d.body_read(BodyRead::Bytes(50));
    assert_eq!(d.next(8, 8), DownloadStep::Stop);
    assert_eq!(d.next(7, 8), DownloadStep::ReadBody);
    d.body_read(BodyRead::Bytes(0));
    assert_eq!(d.phase(), DownloadPhase::Ended);
    assert_eq!(d.next(0, 8), DownloadStep::Stop);
    assert_eq!(d.bytes(), 150);
}

#[test]
fn broken_body_keeps_its_bytes() {
    let mut d = Download::new();
    for b in b"\r\n\r\n" {
        d.header_read(HeaderRead::Byte(*b));
    }
    d.body_read(BodyRead::Bytes(5));
    d.body_read(BodyRead::Broken);
    assert_eq!((d.phase(), d.bytes()), (DownloadPhase::Ended, 5));
}

#[test]
fn headers_can_fail() {
    let mut d = Download::new();
    assert_eq!(d.header_read(HeaderRead::Closed).unwrap(), "连接提前关闭（读头阶段）");
    assert_eq!((d.phase(), d.bytes()), (DownloadPhase::Failed, 0));
    let mut d = Download::new();
    assert_eq!(d.header_read(HeaderRead::Broken("x".to_string())).unwrap(), "读头失败: x");
    let mut d = Download::new();
    for _ in 0..65536 {
        assert!(d.header_read(HeaderRead::Byte(b'x')).is_none());
    }
    assert_eq!(d.header_read(HeaderRead::Byte(b'x')).unwrap(), "HTTP 头过长");
    assert_eq!(d.next(0, 8), DownloadStep::Stop);
}

#[test]
fn downloads_are_summed() {
    assert_eq!(speed_tester::total_bytes(&vec![1, 2, 3]), Some(6));
    assert_eq!(speed_tester::total_bytes(&vec![]), Some(0));
    assert_eq!(speed_tester::total_bytes(&vec![u64::MAX, 1, 0]), None);
}

#[test]
fn too_little_is_refused() {
    assert!(speed_tester::check_download(1, 500, 4).is_ok());
    assert_eq!(
        speed_tester::check_download(0, 600, 4).unwrap_err(),
        "数据不足（bytes=0, elapsed=600ms, threads=4）"
    );
    assert_eq!(
        speed_tester::check_download(7, 499, 2).unwrap_err(),
        "数据不足（bytes=7, elapsed=499ms, threads=2）"
    );
    assert_eq!(speed_tester::retry_after(1), Some(200));
    assert_eq!(speed_tester::retry_after(2), None);
}

#[test]
fn progress_lines() {
    let r = result("1.2.3.4", 50, "HKG");
    assert_eq!(
        speed_tester::measured_line(1, 10, &r, "12.34", "98.76", "8.0"),
        format!(
            "  [{}/{}] {:<20} | {:>4}ms | {:>7.2} MB/s | {:.2}MB/{:.1}s",
            1, 10, "1.2.3.4", 50, 12.34, 98.76, 8.0
        )
    );
    assert_eq!(
        speed_tester::failed_line(2, 10, &r, "x"),
        format!("  [{}/{}] {:<20} | 测速失败: {}", 2, 10, "1.2.3.4", "x")
    );
}

#[test]
fn waiting_has_a_deadline() {
    assert!(!speed_tester::past_deadline(11000, 8000));
    assert!(speed_tester::past_deadline(11001, 8000));
    assert!(!speed_tester::past_deadline(2999, 0));
    assert!(!speed_tester::past_deadline(u64::MAX, u64::MAX));
}
