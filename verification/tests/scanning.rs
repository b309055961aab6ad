use cfscanner::config::{Config, ScanConfig};
use cfscanner::ip_loader::{AddressLists, Ip};
use cfscanner::runner;
use cfscanner::runner::{FullRun, Retest, ScanReport, ScanSession, ScanStep, Stage};
use cfscanner::metric::Metric;
use cfscanner::scanner;
use cfscanner::scanner::{PingRun, PingStep, ScanCollector};
use cfscanner::output::ShownResult;
use cfscanner::types::{IpResult, Timestamp};
use cfscanner::web::RunEnd;

fn result(ip: &str, delay: u64, colo: &str) -> IpResult {
    IpResult::new(ip.to_string(), 443, delay, colo.to_string())
}

fn config() -> Config {
    Config::default_config().unwrap()
}

fn scan_config() -> ScanConfig {
    config().scan
}

#[test]
fn lowest_latency_counts() {
    let mut run = PingRun::start(3);
    assert_eq!(run.next(), PingStep::Connect);
    run.record(Some(40));
    match run.next() {
        PingStep::PauseAndConnect(ms) => assert!((10..=30).contains(&ms)),
        other => panic!("{:?}", other),
    }
    run.record(Some(0));
    run.record(Some(31));
    assert_eq!(run.next(), PingStep::Finished(Some(31)));
}

#[test]
fn failed_connection_ends_the_timing() {
    let mut run = PingRun::start(3);
    run.record(Some(40));
    run.record(None);
    assert_eq!(run.next(), PingStep::Finished(None));
    assert_eq!(PingRun::start(0).next(), PingStep::Finished(None));
    let mut zero = PingRun::start(1);
    zero.record(Some(0));
    assert_eq!(zero.next(), PingStep::Finished(None));
}

#[test]
fn pauses_vary() {
    let mut run = PingRun::start(2);
    run.record(Some(1));
    let mut seen = std::collections::HashSet::new();
    for _ in 0..500 {
        if let PingStep::PauseAndConnect(ms) = run.next() {
            seen.insert(ms);
        }
    }
    assert!(seen.len() > 1 && seen.iter().all(|ms| (10..=30).contains(ms)));
}

#[test]
fn single_scan_keeps_or_drops() {
    let mut cfg = scan_config();
    let colo = || Some("HKG".to_string());
    let ip = || "1.2.3.4".to_string();
    assert!(scanner::wants_colo(&cfg, Some(220)));
    assert!(!scanner::wants_colo(&cfg, Some(221)));
    assert!(!scanner::wants_colo(&cfg, None));
    let r = scanner::scan_single(ip(), &cfg, Some(220), colo()).unwrap();
    assert_eq!((r.ip.as_str(), r.port, r.delay_ms, r.colo.as_str()), ("1.2.3.4", 443, 220, "HKG"));
    assert!(r.speed_mbps.is_none() && r.score.is_none());
    assert!(scanner::scan_single(ip(), &cfg, Some(221), colo()).is_none());
    assert!(scanner::scan_single(ip(), &cfg, None, colo()).is_none());
    assert!(scanner::scan_single(ip(), &cfg, Some(1), None).is_none());
    cfg.regions = vec!["lax".to_string()];
    assert!(scanner::scan_single(ip(), &cfg, Some(1), colo()).is_none());
    cfg.regions.push("hkg".to_string());
    assert!(scanner::scan_single(ip(), &cfg, Some(1), colo()).is_some());
}

#[test]
fn trace_requests() {
    let agent = scanner::random_ua();
    assert!(agent == scanner::user_agent(0) || agent == scanner::user_agent(1));
    assert_eq!(
        scanner::trace_request("X"),
        "GET /cdn-cgi/trace HTTP/1.1\r\nHost: speed.cloudflare.com\r\nUser-Agent: X\r\nConnection: close\r\n\r\n"
    );
}

#[test]
fn reply_is_read_up_to_a_limit() {
    let mut reply = Vec::new();
    assert!(scanner::take_chunk(&mut reply, &[1, 2, 3]));
    assert!(!scanner::take_chunk(&mut reply, &[]));
    assert_eq!(reply, vec![1, 2, 3]);
    assert!(scanner::take_chunk(&mut reply, &vec![0; 8189]));
    assert!(!scanner::take_chunk(&mut reply, &[9]));
    assert_eq!(reply.len(), 8193);
}

#[test]
fn colo_is_found_in_the_reply() {
    let body = "HTTP/1.1 200 OK\r\nx: y\r\n\r\nfl=1\ncolo= \ncolo= hkg \ncolo=LAX\n";
    assert_eq!(scanner::parse_colo(body).unwrap(), "HKG");
    assert_eq!(scanner::colo_from_reply(&body.as_bytes().to_vec()).unwrap(), "HKG");
    assert_eq!(scanner::parse_colo(" colo=HKG\n"), None);
    let given = vec![None, Some(String::new()), Some("LAX".to_string()), Some("X".to_string())];
    assert_eq!(scanner::first_colo(&given).unwrap(), "LAX");
    assert_eq!(scanner::first_colo(&vec![None, Some(String::new())]), None);
    assert_eq!(scanner::parse_colo(""), None);
    let mut broken = vec![0xff, b'\n'];
    broken.extend_from_slice("colo=ß\n".as_bytes());
    assert_eq!(scanner::colo_from_reply(&broken).unwrap(), "SS");
    assert_eq!(
        scanner::colo_from_reply(&vec![b'c', b'o', b'l', b'o', b'=', 0xff]).unwrap(),
        "\u{fffd}"
    );
}

#[test]
fn collector_sorts_by_latency() {
    let mut c = ScanCollector::new();
    assert_eq!(c.record(Some(result("a", 30, "HKG"))), 1);
    assert_eq!(c.record(None), 1);
    assert_eq!(c.record(Some(result("b", 10, "LAX"))), 2);
    assert_eq!(c.record(Some(result("c", 30, "LAX"))), 3);
    let ips: Vec<String> = c.finish().into_iter().map(|r| r.ip).collect();
    assert_eq!(ips, ["b", "a", "c"]);
}

#[test]
fn regions_are_counted() {
    let results = vec![
        result("a", 1, "HKG"),
        result("b", 2, "LAX"),
        result("c", 3, "LAX"),
        result("d", 4, "NRT"),
    ];
    assert_eq!(
        scanner::region_counts(&results),
        vec![("LAX".to_string(), 2), ("HKG".to_string(), 1), ("NRT".to_string(), 1)]
    );
    assert_eq!(
        scanner::scan_result_summary(&results),
        "延迟扫描完成  共 4 个可用 IP  |  LAX: 2  |  HKG: 1  |  NRT: 1"
    );
    assert_eq!(scanner::scan_result_summary(&vec![]), "  延迟扫描：未找到可用 IP");
}

fn lists() -> AddressLists {
    AddressLists {
        ipv4: "10.0.0.0/30".to_string(),
        ipv6: String::new(),
    }
}

#[test]
fn scan_without_regions_is_one_round() {
    let mut cfg = scan_config();
    cfg.max_ips = Some(4);
    let mut s = ScanSession::new(&cfg);
    match s.next(&lists()) {
        Ok(ScanStep::Scan { ips, show_params, notice }) => {
            assert_eq!(ips.len(), 4);
            assert!(show_params && notice.is_none());
        }
        other => panic!("{:?}", other),
    }
    s.record(vec![result("a", 9, "X"), result("b", 3, "X")]);
    assert!(matches!(s.next(&lists()), Ok(ScanStep::Finished(None))));
    let (found, notice) = s.finish();
    assert_eq!(found.iter().map(|r| r.delay_ms).collect::<Vec<_>>(), [9, 3]);
    assert!(notice.is_none());
}

#[test]
fn scan_by_region_repeats_until_exhausted() {
    let mut cfg = scan_config();
    cfg.regions = vec!["HKG".to_string()];
    cfg.max_ips = Some(3);
    cfg.batch_size = 2;
    cfg.max_scan_rounds = 100;
    let mut s = ScanSession::new(&cfg);
    let mut seen: Vec<Ip> = Vec::new();
    let mut rounds = 0;
    loop {
        match s.next(&lists()).unwrap() {
            ScanStep::Scan { ips, show_params, notice } => {
                rounds += 1;
                assert_eq!(show_params, rounds == 1);
                if rounds == 1 {
                    assert!(notice.is_none());
                } else {
                    assert_eq!(
                        notice.unwrap(),
                        format!(
                            "  地区过滤模式：目标 3 个，已凑够 0 个，补扫第 {} 轮（{} 个新 IP）",
                            rounds,
                            ips.len()
                        )
                    );
                }
                for ip in ips {
                    assert!(!seen.contains(&ip));
                    seen.push(ip);
                }
                s.record(vec![]);
            }
            ScanStep::Finished(notice) => {
                assert_eq!(
                    notice.unwrap(),
                    format!(
                        "  地区过滤模式：候选池已耗尽（尝试第 {} 轮时采样不到新 IP），停止扫描",
                        rounds + 1
                    )
                );
                break;
            }
        }
    }
    assert!(seen.len() <= 4);
    assert!(matches!(s.next(&lists()), Ok(ScanStep::Finished(None))));
    let (found, notice) = s.finish();
    assert!(found.is_empty());
    assert_eq!(
        notice.unwrap(),
        "  地区过滤模式：最终凑到 0 个（目标 3），候选池已耗尽或已达最大轮数 100"
    );
}

#[test]
fn scan_by_region_stops_at_the_target() {
    let mut cfg = scan_config();
    cfg.regions = vec!["HKG".to_string()];
    cfg.max_ips = Some(2);
    cfg.batch_size = 4;
    let mut s = ScanSession::new(&cfg);
    assert!(matches!(s.next(&lists()), Ok(ScanStep::Scan { .. })));
    s.record(vec![result("a", 9, "HKG"), result("b", 3, "HKG"), result("c", 5, "HKG")]);
    assert!(matches!(s.next(&lists()), Ok(ScanStep::Finished(None))));
    let (found, notice) = s.finish();
    assert_eq!(found.iter().map(|r| r.delay_ms).collect::<Vec<_>>(), [3, 5]);
    assert!(notice.is_none());
}

#[test]
fn scan_by_region_uses_up_its_rounds() {
    let mut cfg = scan_config();
    cfg.regions = vec!["HKG".to_string()];
    cfg.batch_size = 1;
    cfg.max_scan_rounds = 1;
    let mut s = ScanSession::new(&cfg);
    assert!(matches!(s.next(&lists()), Ok(ScanStep::Scan { .. })));
    s.record(vec![]);
    assert!(matches!(s.next(&lists()), Ok(ScanStep::Finished(None))));
}

#[test]
fn scan_reports_a_bad_mode() {
    let mut cfg = scan_config();
    cfg.mode = "x".to_string();
    assert_eq!(
        ScanSession::new(&cfg).next(&lists()).unwrap_err().message(),
        "未知 mode: x"
    );
}

fn measured(ip: &str, speed: f64) -> IpResult {
    let mut r = result(ip, 10, "HKG");
    r.speed_mbps = Some(Metric::from_bits(speed.to_bits()));
    r
}

fn publish(run: &mut FullRun) -> (Vec<IpResult>, Vec<String>) {
    let printed = run
        .results()
        .iter()
        .map(|r| ShownResult { result: r.clone(), speed: String::new(), score: String::new() })
        .collect();
    match run.publish(printed, Timestamp { secs: 7, nanos: 8 }) {
        RunEnd::Published { results, dns_log, now } => {
            assert_eq!(now, Timestamp { secs: 7, nanos: 8 });
            (results.into_iter().map(|s| s.result).collect(), dns_log)
        }
        other => panic!("{:?}", other),
    }
}

#[test]
fn procedure_can_be_given_up() {
    let c = config();
    let mut run = FullRun::new();
    assert!(matches!(run.failed(), RunEnd::Failed));
    assert_eq!(run.stage(), Stage::Failed);
    let mut run = FullRun::new();
    run.scanned(vec![result("a", 1, "HKG")], &c);
    assert!(matches!(run.failed(), RunEnd::Failed));
    assert_eq!(run.stage(), Stage::Failed);
    assert!(run.results().is_empty());
}

#[test]
fn whole_procedure() {
    let mut c = config();
    c.output.file = Some("x.csv".to_string());
    c.dns.enable = true;
    c.speed_test.mode = "region".to_string();
    c.speed_test.regions = vec!["HKG".to_string()];
    let mut run = FullRun::new();
    assert_eq!(run.stage(), Stage::Scanning);
    match run.scanned(vec![result("a", 1, "HKG"), result("b", 2, "HKG")], &c) {
        ScanReport::Measure(Some(regions)) => assert_eq!(regions, ["HKG"]),
        other => panic!("{:?}", other),
    }
    assert_eq!(run.stage(), Stage::Measuring);
    run.measured(vec![measured("b", 2.0), result("a", 1, "HKG")]);
    assert_eq!(run.stage(), Stage::Saving);
    run.saved(&c);
    assert_eq!(run.stage(), Stage::Exporting);
    run.exported(&c);
    assert_eq!(run.stage(), Stage::Syncing);
    run.synced(Err("timeout".to_string()));
    assert_eq!(run.stage(), Stage::Publishing);
    let (results, log) = publish(&mut run);
    assert_eq!(results.len(), 1);
    assert_eq!(results[0].ip, "b");
    assert_eq!(log, ["DNS 同步失败: timeout"]);
    assert_eq!(run.stage(), Stage::Finished);
}

#[test]
fn procedure_skips_what_is_off() {
    let mut c = config();
    let mut run = FullRun::new();
    assert!(matches!(
        run.scanned(vec![result("a", 1, "HKG")], &c),
        ScanReport::Measure(None)
    ));
    run.measured(vec![measured("a", 1.0)]);
    run.saved(&c);
    assert_eq!(run.stage(), Stage::Publishing);

    c.dns.enable = true;
    let mut run = FullRun::new();
    run.scanned(vec![result("a", 1, "HKG")], &c);
    run.measured(vec![]);
    run.saved(&c);
    assert_eq!(run.stage(), Stage::Syncing);
    run.synced(Ok(vec!["done".to_string()]));
    assert_eq!(publish(&mut run).1, ["done"]);

    c.speed_test.auto_run = false;
    let mut run = FullRun::new();
    assert!(matches!(
        run.scanned(vec![result("a", 1, "HKG")], &c),
        ScanReport::Table
    ));
    assert_eq!(run.stage(), Stage::Publishing);
    assert_eq!(publish(&mut run).0.len(), 1);
}

#[test]
fn procedure_ends_without_results() {
    let c = config();
    let mut run = FullRun::new();
    match run.scanned(vec![], &c) {
        ScanReport::Nothing(said) => assert_eq!(said, "没有找到延迟达标的 IP，退出"),
        other => panic!("{:?}", other),
    }
    let (results, log) = publish(&mut run);
    assert!(results.is_empty());
    assert_eq!(log, ["没有找到延迟达标的 IP"]);
}

#[test]
fn scope_of_measuring_again() {
    let mut c = config();
    c.speed_test.regions = vec!["LAX".to_string()];
    let asked = || Some(vec!["HKG".to_string()]);
    assert_eq!(runner::speed_scope(&c, None, false), None);
    assert_eq!(runner::speed_scope(&c, asked(), true), None);
    assert_eq!(runner::speed_scope(&c, asked(), false), asked());
    assert_eq!(runner::speed_scope(&c, Some(vec![]), false), None);
    c.speed_test.mode = "region".to_string();
    assert_eq!(runner::speed_scope(&c, None, false), Some(vec!["LAX".to_string()]));
    assert_eq!(runner::no_state_message(true), "找不到上次扫描结果，请先运行 scan 命令");
    assert_eq!(runner::no_state_message(false), "找不到测速结果，请先运行完整流程");
}

#[test]
fn measuring_again() {
    let mut c = config();
    c.output.file = Some("x.csv".to_string());
    c.dns.enable = true;
    let mut run = Retest::new(vec![result("a", 1, "HKG"), result("b", 2, "HKG")]);
    assert_eq!(run.stage(), Stage::Measuring);
    run.measured(vec![measured("b", 2.0), result("a", 1, "HKG")]);
    assert_eq!(run.stage(), Stage::Saving);
    assert_eq!(run.results().len(), 1);
    run.saved(true, &c);
    assert_eq!(run.stage(), Stage::Exporting);
    run.exported(true, &c);
    assert_eq!(run.stage(), Stage::Syncing);
    run.synced(true);
    assert_eq!(run.stage(), Stage::Finished);
}

#[test]
fn measuring_again_ends_with_the_first_failure() {
    let mut c = config();
    c.dns.enable = true;
    let start = || {
        let mut run = Retest::new(vec![]);
        run.measured(vec![]);
        run
    };
    let mut run = start();
    run.saved(false, &c);
    assert_eq!(run.stage(), Stage::Failed);
    let mut run = start();
    run.saved(true, &c);
    assert_eq!(run.stage(), Stage::Syncing);
    run.synced(false);
    assert_eq!(run.stage(), Stage::Failed);
    c.output.file = Some("x.csv".to_string());
    let mut run = start();
    run.saved(true, &c);
    run.exported(false, &c);
    assert_eq!(run.stage(), Stage::Failed);
    c.output.file = None;
    c.dns.enable = false;
    let mut run = start();
    run.saved(true, &c);
    assert_eq!(run.stage(), Stage::Finished);
}
