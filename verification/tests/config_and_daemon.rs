use cfscanner::config::{Config, ConfigError};
use cfscanner::daemon;
use cfscanner::daemon::{DaemonAction, DaemonEvent, RunMode};
use cfscanner::metric::Metric;
use cfscanner::types::Timestamp;

fn config() -> Config {
    Config::default_config().unwrap()
}

#[test]
fn defaults() {
    let c = config();
    assert!(c.validate().is_ok());
    assert_eq!(c.scan.mode, "ipv4");
    assert_eq!(c.scan.port, 443);
    assert_eq!(c.scan.concurrency, 100);
    assert_eq!(c.scan.delay_threshold, 220);
    assert_eq!(c.scan.ping_count, 2);
    assert_eq!(c.scan.tcp_timeout_ms, 1000);
    assert_eq!(c.scan.max_ips, Some(8000));
    assert!(c.speed_test.auto_run);
    assert_eq!(c.speed_test.mode, "full");
    assert_eq!(c.speed_test.top_n, 10);
    assert_eq!(c.speed_test.download_threads, 4);
    assert_eq!(c.speed_test.speed_concurrency, 3);
    assert_eq!(c.speed_test.download_bytes, 104857600);
    assert_eq!(c.speed_test.duration_ms, 8000);
    assert_eq!(c.speed_test.connect_timeout_ms, 5000);
    assert_eq!(c.speed_test.max_batches, 3);
    assert!(!c.schedule.enable);
    assert_eq!(c.schedule.cron, "0 */6 * * *");
    assert_eq!(c.dns.record_type, "A");
    assert_eq!(c.dns.max_records, 5);
    assert_eq!(c.dns.ttl, 60);
    assert_eq!(c.output.state_file, "/tmp/cfscanner_state.json");
    assert_eq!(c.output.log_level, "info");
    assert_eq!(c.output.web_port, 5000);
}

fn fault(c: Config) -> String {
    c.validate().unwrap_err().message()
}

#[test]
fn faults_are_named() {
    let mut c = config();
    c.scan.mode = "ipv5".to_string();
    assert!(matches!(c.validate(), Err(ConfigError::ScanMode(_))));
    assert_eq!(fault(c), "scan.mode 必须是 ipv4 / ipv6 / both，当前: ipv5");

    let mut c = config();
    c.speed_test.mode = "fast".to_string();
    assert_eq!(fault(c), "speed_test.mode 必须是 region / full，当前: fast");

    let mut c = config();
    c.speed_test.mode = "region".to_string();
    assert_eq!(fault(c), "speed_test.mode=region 时，speed_test.regions 不能为空");

    let mut c = config();
    c.speed_test.min_speed_mbps = Metric::from_bits((-0.5f64).to_bits());
    assert_eq!(fault(c), "speed_test.min_speed_mbps 不能为负数");

    let mut c = config();
    c.speed_test.max_batches = 0;
    assert_eq!(fault(c), "speed_test.max_batches 必须 >= 1");

    let mut c = config();
    c.dns.enable = true;
    assert_eq!(fault(c), "dns.enable=true 时必须提供 dns.token");

    let mut c = config();
    c.dns.enable = true;
    c.dns.token = Some("t".to_string());
    assert_eq!(fault(c), "dns.enable=true 时必须提供 dns.zone_id");

    let mut c = config();
    c.dns.enable = true;
    c.dns.token = Some("t".to_string());
    c.dns.zone_id = Some("z".to_string());
    assert_eq!(fault(c), "dns.enable=true 时必须提供 dns.domain");

    let mut c = config();
    c.dns.enable = true;
    c.dns.token = Some("t".to_string());
    c.dns.zone_id = Some("z".to_string());
    c.dns.domain = Some("cf.example.com".to_string());
    c.scan.mode = "both".to_string();
    c.speed_test.mode = "region".to_string();
    c.speed_test.regions = vec!["LAX".to_string()];
    assert!(c.validate().is_ok());
}

#[test]
fn record_names() {
    let mut c = config();
    assert_eq!(c.dns_domain_for(1), None);
    c.dns.domain = Some("cf.example.com".to_string());
    assert_eq!(c.dns_domain_for(1).unwrap(), "cf1.example.com");
    assert_eq!(c.dns_domain_for(12).unwrap(), "cf12.example.com");
    c.dns.domain = Some("localhost".to_string());
    assert_eq!(c.dns_domain_for(2).unwrap(), "localhost2");
    c.dns.max_records = 1;
    c.dns.domain = Some("cf.example.com".to_string());
    assert_eq!(c.dns_domain_for(1).unwrap(), "cf.example.com");
}

#[test]
fn seconds_are_added_once() {
    assert_eq!(daemon::normalize_cron("0 */6 * * *"), "0 0 */6 * * *");
    assert_eq!(daemon::normalize_cron("0 0 */6 * * *"), "0 0 */6 * * *");
    assert_eq!(daemon::normalize_cron("  1 2  3 4 5 "), "0   1 2  3 4 5 ");
    assert_eq!(daemon::normalize_cron("@daily"), "@daily");
    for expr in ["0 */6 * * *", "1 2 3 4 5 6", ""] {
        let once = daemon::normalize_cron(expr);
        assert_eq!(daemon::normalize_cron(&once), once);
    }
}

#[test]
fn schedule_decides_the_mode() {
    let mut c = config();
    assert!(!daemon::is_daemon_mode(&c));
    assert!(matches!(daemon::run_mode(&c), RunMode::Once(None)));
    c.schedule.enable = true;
    assert!(daemon::is_daemon_mode(&c));
    assert!(matches!(daemon::run_mode(&c), RunMode::Daemon));
    c.schedule.cron = "every day".to_string();
    assert!(!daemon::is_daemon_mode(&c));
    match daemon::run_mode(&c) {
        RunMode::Once(Some(said)) => {
            assert!(said.starts_with("cron 表达式 \"every day\" 解析失败（"), "{}", said);
            assert!(said.contains("Invalid cron expression"), "{}", said);
            assert!(said.ends_with("），退回单次执行模式"), "{}", said);
        }
        other => panic!("{:?}", other),
    }
    c.schedule.enable = false;
    assert!(!daemon::is_daemon_mode(&c));
}

#[test]
fn mode_for_a_given_fault() {
    let mut c = config();
    c.schedule.enable = true;
    c.schedule.cron = "x".to_string();
    assert!(matches!(daemon::mode_given(&c, None), RunMode::Daemon));
    match daemon::mode_given(&c, Some("bad".to_string())) {
        RunMode::Once(Some(said)) => {
            assert_eq!(said, "cron 表达式 \"x\" 解析失败（bad），退回单次执行模式")
        }
        other => panic!("{:?}", other),
    }
}

#[test]
fn durations() {
    assert_eq!(daemon::format_duration(0), "0s");
    assert_eq!(daemon::format_duration(59), "59s");
    assert_eq!(daemon::format_duration(60), "1m0s");
    assert_eq!(daemon::format_duration(3599), "59m59s");
    assert_eq!(daemon::format_duration(3600), "1h0m");
    assert_eq!(daemon::format_duration(90061), "25h1m");
}

#[test]
fn waits() {
    let t = |secs: i64, nanos: u32| Timestamp { secs, nanos };
    assert_eq!(daemon::wait_until(t(10, 0), t(15, 7)), (5, 7));
    assert_eq!(daemon::wait_until(t(10, 9), t(15, 7)), (4, 999_999_998));
    assert_eq!(daemon::wait_until(t(10, 9), t(10, 9)), (0, 0));
    assert_eq!(daemon::wait_until(t(10, 9), t(10, 8)), (1, 0));
    assert_eq!(daemon::wait_until(t(10, 9), t(3, 10)), (1, 0));
    assert_eq!(
        daemon::wait_until(t(i64::MIN, 0), t(i64::MAX, 0)),
        (u64::MAX, 0)
    );
}

#[test]
fn daemon_lines() {
    assert_eq!(
        daemon::schedule_line("0 */6 * * *"),
        "cron : 0 */6 * * *  （已自动补秒，实际: 0 0 */6 * * *）"
    );
    assert_eq!(daemon::schedule_line("0 0 1 * * *"), "cron : 0 0 1 * * *");
    assert_eq!(
        daemon::next_run_line("2024-01-01 00:00:00", 61),
        "下次执行: 2024-01-01 00:00:00  (等待 1m1s)"
    );
}

#[test]
fn daemon_goes_on_until_a_signal() {
    assert_eq!(daemon::first_action(), DaemonAction::Wait);
    assert_eq!(
        daemon::on_event(DaemonEvent::Due),
        (Some("\n━━━ cron 触发，开始执行 ━━━".to_string()), DaemonAction::Run)
    );
    assert_eq!(daemon::on_event(DaemonEvent::RetestAsked).1, DaemonAction::Run);
    assert_eq!(daemon::on_event(DaemonEvent::RunDone), (None, DaemonAction::Wait));
    assert_eq!(
        daemon::on_event(DaemonEvent::RunFailed("x".to_string())),
        (Some("执行失败: x".to_string()), DaemonAction::Wait)
    );
    assert_eq!(
        daemon::on_event(DaemonEvent::StopSignal),
        (Some("\n收到退出信号，daemon 停止".to_string()), DaemonAction::Stop)
    );
}
