use cfscanner::config::Config;
use cfscanner::ip_loader;
use cfscanner::metric::Metric;
use cfscanner::output;
use cfscanner::output::{Shade, ShownResult};
use cfscanner::types::{IpResult, ScanState, Timestamp};
use cfscanner::web;
use cfscanner::web::{RunEnd, WebState};

fn metric(x: f64) -> Metric {
    Metric::from_bits(x.to_bits())
}

fn shown(ip: &str, delay: u64, speed: Option<f64>, score: Option<f64>) -> ShownResult {
    let mut result = IpResult::new(ip.to_string(), 443, delay, "HKG".to_string());
    result.speed_mbps = speed.map(metric);
    result.score = score.map(metric);
    ShownResult {
        result,
        speed: speed.map(|s| format!("{:.2}", s)).unwrap_or_default(),
        score: score.map(|s| format!("{:.1}", s)).unwrap_or_default(),
    }
}

#[test]
fn speed_is_displayed() {
    let s = shown("a", 1, Some(2.5), None);
    assert_eq!(s.result.speed_display("2.50"), "2.50 MB/s");
    let s = shown("a", 1, None, None);
    assert_eq!(s.result.speed_display("2.50"), "-");
    let state = ScanState::new(vec![s.result], Timestamp { secs: 5, nanos: 6 });
    assert_eq!(state.scanned_at, Timestamp { secs: 5, nanos: 6 });
    assert_eq!(state.results.len(), 1);
}

#[test]
fn settings_are_shown() {
    let c = Config::default_config().unwrap();
    assert_eq!(
        output::scan_params(&c.scan, 17),
        vec![
            "━━━ 延迟扫描参数 ━━━",
            "  模式        : ipv4",
            "  端口        : 443",
            "  并发数      : 100",
            "  延迟上限    : 220 ms",
            "  Ping 次数   : 2",
            "  IP 总数     : 17",
        ]
    );
    let regions = vec!["LAX".to_string(), "HKG".to_string()];
    let lines = output::speed_params(&c, Some(&regions));
    assert_eq!(lines.len(), 12);
    assert_eq!(lines[1], "  模式          : full");
    assert_eq!(lines[2], "  地区筛选      : LAX, HKG");
    assert_eq!(lines[4], "  并发连接数    : 4 条/IP（多线程下载）");
    assert_eq!(lines[6], "  每连接下载量  : 100 MB");
    assert_eq!(lines[11], format!("  {}", "─".repeat(52)));
    assert_eq!(output::speed_params(&c, None).len(), 11);
}

#[test]
fn scan_is_summed_up() {
    let results = vec![shown("a", 1, None, None).result, shown("b", 1, None, None).result];
    assert_eq!(
        output::scan_summary(&results),
        vec!["\n延迟扫描完成  共 2 个可用 IP".to_string(), format!("  {:<6}  {} 个", "HKG", 2)]
    );
    assert_eq!(output::scan_summary(&vec![]), vec!["延迟扫描：未找到可用 IP"]);
}

#[test]
fn table_rows_are_coloured() {
    let names = ip_loader::load_colo_map("HKG:香港");
    let rows = output::speed_table(
        &vec![
            shown("a", 99, Some(5.0), Some(0.0)),
            shown("b", 100, Some(4.99), Some(-0.1)),
            shown("c", 200, Some(0.99), None),
            shown("d", 199, None, None),
        ],
        &names,
    );
    assert_eq!(rows.iter().map(|r| r.place).collect::<Vec<_>>(), [1, 2, 3, 4]);
    assert_eq!(
        rows.iter().map(|r| r.delay_shade).collect::<Vec<_>>(),
        [Shade::Green, Shade::Yellow, Shade::Red, Shade::Yellow]
    );
    assert_eq!(
        rows.iter().map(|r| r.speed_shade).collect::<Vec<_>>(),
        [Shade::Green, Shade::Yellow, Shade::Red, Shade::Plain]
    );
    assert_eq!(
        rows.iter().map(|r| r.score_shade).collect::<Vec<_>>(),
        [Shade::Green, Shade::Yellow, Shade::Plain, Shade::Plain]
    );
    assert_eq!(rows[0].city, "香港");
    assert_eq!(rows[0].speed, "5.00 MB/s");
    assert_eq!(rows[1].score, "-0.1");
    assert_eq!((rows[3].speed.as_str(), rows[3].score.as_str()), ("-", "-"));
    assert!(output::table_notice(&vec![shown("a", 1, None, None)]).is_none());
    assert_eq!(output::table_notice(&vec![]).unwrap(), "没有测速结果");
    let unnamed = output::table_row(1, &shown("a", 1, None, None), &ip_loader::load_colo_map(""));
    assert_eq!(unnamed.city, "HKG");
}

#[test]
fn file_is_exported() {
    let text = output::csv_text(&vec![
        shown("1.2.3.4", 10, Some(1.5), Some(-2.0)),
        shown("5.6.7.8", 11, None, None),
    ]);
    assert_eq!(
        text,
        "ip,port,delay_ms,colo,speed_mbps,score\n1.2.3.4,443,10,HKG,1.50,-2.0\n5.6.7.8,443,11,HKG,,\n"
    );
    assert_eq!(output::csv_text(&vec![]), "ip,port,delay_ms,colo,speed_mbps,score\n");
}

fn body(response: &str) -> &str {
    response.split_once("\r\n\r\n").unwrap().1
}

#[test]
fn retest_is_taken_once() {
    let mut s = WebState::new("0.1.0");
    assert!(!s.take_retest());
    let answer = web::handle("/retest", &mut s, "");
    assert_eq!(body(&answer), r#"{"status":"ok","message":"retest triggered"}"#);
    web::handle("/retest", &mut s, "");
    assert!(s.take_retest());
    assert!(!s.take_retest());
    s.set_scanning(true);
    let answer = web::handle("/retest", &mut s, "");
    assert_eq!(
        body(&answer),
        r#"{"status":"scanning","message":"scanning and speedtesting"}"#
    );
    assert!(!s.take_retest());
}

#[test]
fn status_is_told() {
    let mut s = WebState::new("0.1.0");
    assert_eq!(
        body(&web::handle("/", &mut s, "later")),
        r#"{"last_run":"never","status":"idle","version":"0.1.0"}"#
    );
    s.set_scanning(true);
    assert_eq!(
        body(&web::handle("/status", &mut s, "later")),
        r#"{"last_run":"never","status":"scanning","version":"0.1.0"}"#
    );
    s.set_results(
        vec![shown("1.2.3.4", 10, Some(1.5), None), shown("5.6.7.8", 11, None, None)],
        vec!["[成功] \"x\"".to_string(), "b".to_string()],
        Timestamp { secs: 1, nanos: 2 },
    );
    assert!(!s.scanning);
    assert_eq!(
        body(&web::handle("/status", &mut s, "2024-01-01 00:00:00")),
        r#"{"last_run":"2024-01-01 00:00:00","status":"idle","version":"0.1.0","results":[{"rank":1,"ip":"1.2.3.4","port":443,"delay_ms":10,"colo":"HKG","speed_mbps":1.50},{"rank":2,"ip":"5.6.7.8","port":443,"delay_ms":11,"colo":"HKG","speed_mbps":null}],"dns_log":["[成功] \"x\"","b"]}"#
    );
    s.set_scanning(true);
    assert_eq!(
        body(&web::handle("/", &mut s, "t")),
        r#"{"last_run":"t","status":"scanning","version":"0.1.0"}"#
    );
}

#[test]
fn unknown_paths_are_not_found() {
    let mut s = WebState::new("0.1.0");
    assert_eq!(
        web::handle("/x", &mut s, ""),
        "HTTP/1.1 404 Not Found\r\nContent-Type: text/plain; charset=utf-8\r\nContent-Length: 9\r\nConnection: close\r\nAccess-Control-Allow-Origin: *\r\n\r\nNot Found"
    );
}

#[test]
fn length_is_in_bytes() {
    let answer = web::http_response(200, "text/plain", "成功é");
    assert!(answer.starts_with("HTTP/1.1 200 OK\r\n"));
    assert!(answer.contains("\r\nContent-Length: 8\r\n"), "{}", answer);
}

#[test]
fn paths_are_read() {
    assert_eq!(web::request_path("GET /status HTTP/1.1\r\n"), "/status");
    assert_eq!(web::request_path("GET"), "/");
    assert_eq!(web::request_path(""), "/");
}

#[test]
fn status_is_json_whatever_the_texts_hold() {
    let log = vec![
        "\\".to_string(),
        "line\nfeed \"quoted\" \\n \u{7}".to_string(),
        String::new(),
    ];
    let mut odd = shown("1.2\"3", 10, Some(1.5), None);
    odd.result.colo = "H\\K\nG".to_string();
    let mut endless = shown("5.6.7.8", 11, Some(1.0), None);
    endless.speed = "inf".to_string();
    let mut s = WebState::new("v\"1");
    s.set_results(vec![odd, endless], log.clone(), Timestamp { secs: 1, nanos: 2 });
    let answer = web::handle("/status", &mut s, "to\"day");
    let v: serde_json::Value = serde_json::from_str(body(&answer)).unwrap();
    assert_eq!(v["last_run"], "to\"day");
    assert_eq!(v["status"], "idle");
    assert_eq!(v["version"], "v\"1");
    let lines: Vec<String> = v["dns_log"]
        .as_array()
        .unwrap()
        .iter()
        .map(|l| l.as_str().unwrap().to_string())
        .collect();
    assert_eq!(lines, log);
    assert_eq!(v["results"][0]["ip"], "1.2\"3");
    assert_eq!(v["results"][0]["colo"], "H\\K\nG");
    assert_eq!(v["results"][0]["rank"], 1);
    assert_eq!(v["results"][0]["speed_mbps"], 1.5);
    assert!(v["results"][1]["speed_mbps"].is_null());
}

#[test]
fn every_end_stops_scanning() {
    for end in [
        RunEnd::Failed,
        RunEnd::Published {
            results: vec![shown("a", 1, None, None)],
            dns_log: vec![],
            now: Timestamp { secs: 1, nanos: 0 },
        },
    ] {
        let mut s = WebState::new("1");
        s.set_scanning(true);
        s.end_run(end);
        assert!(!s.scanning);
        assert!(body(&web::handle("/status", &mut s, "t")).contains("\"status\":\"idle\""));
        assert!(web::handle("/retest", &mut s, "t").contains("retest triggered"));
        assert!(s.take_retest());
    }
}

#[test]
fn failed_run_keeps_the_last_results() {
    let mut s = WebState::new("1");
    s.set_results(vec![shown("a", 1, None, None)], vec![], Timestamp { secs: 1, nanos: 0 });
    s.set_scanning(true);
    s.end_run(RunEnd::Failed);
    assert_eq!(s.results.len(), 1);
    assert_eq!(s.last_run, Some(Timestamp { secs: 1, nanos: 0 }));
}
