use cfscanner::config::Config;
use cfscanner::dns;
use cfscanner::dns::{Method, SyncStart, SyncStep};
use cfscanner::metric::Metric;
use cfscanner::types::IpResult;

fn metric(x: f64) -> Metric {
    Metric::from_bits(x.to_bits())
}

fn result(ip: &str, speed: Option<f64>) -> IpResult {
    let mut r = IpResult::new(ip.to_string(), 443, 42, "HKG".to_string());
    r.speed_mbps = speed.map(metric);
    r
}

fn config() -> Config {
    let mut c = Config::default_config().unwrap();
    c.dns.enable = true;
    c.dns.token = Some("tok".to_string());
    c.dns.zone_id = Some("zone".to_string());
    c.dns.domain = Some("cf.example.com".to_string());
    c
}

fn ips(v: &[IpResult]) -> Vec<&str> {
    v.iter().map(|r| r.ip.as_str()).collect()
}

#[test]
fn fast_enough_results_are_selected() {
    let v = vec![
        result("a", Some(4.0)),
        result("b", None),
        result("c", Some(6.0)),
        result("d", Some(5.0)),
    ];
    assert_eq!(ips(&dns::select_records(&v, metric(0.0), 3)), ["a", "b", "c"]);
    assert_eq!(ips(&dns::select_records(&v, metric(5.0), 3)), ["c", "d"]);
    assert_eq!(ips(&dns::select_records(&v, metric(5.0), 1)), ["c"]);
    assert!(dns::select_records(&v, metric(7.0), 3).is_empty());
    assert!(dns::select_records(&v, metric(0.0), 0).is_empty());
}

#[test]
fn requests() {
    let c = dns::list_call("t", "z", "cf1.example.com");
    assert_eq!(c.method, Method::Get);
    assert_eq!(
        c.url,
        "https://api.cloudflare.com/client/v4/zones/z/dns_records?name=cf1.example.com&per_page=100"
    );
    assert_eq!(c.authorization, "Bearer t");
    assert!(c.body.is_none());
    let c = dns::delete_record("t", "z", "id9");
    assert_eq!(c.method, Method::Delete);
    assert_eq!(c.url, "https://api.cloudflare.com/client/v4/zones/z/dns_records/id9");
    let c = dns::create_call("t", "z", "n", "1.2.3.4", "A", 60);
    assert_eq!(c.method, Method::Post);
    assert_eq!(c.url, "https://api.cloudflare.com/client/v4/zones/z/dns_records");
    assert_eq!(
        c.body.unwrap(),
        r#"{"type":"A","name":"n","content":"1.2.3.4","ttl":60,"proxied":false}"#
    );
}

#[test]
fn list_replies_are_read() {
    let body = r#"{"result":[{"id":"a"},{"x":1},{"id":7},{"id":"b"}],"success":true}"#;
    assert_eq!(dns::read_list_reply(body).unwrap(), ["a", "b"]);
    assert!(dns::read_list_reply(r#"{"result":null}"#).unwrap().is_empty());
    assert!(dns::read_list_reply("[]").unwrap().is_empty());
    assert_eq!(
        dns::read_list_reply("oops").unwrap_err(),
        "解析 list_records 响应失败: oops"
    );
    assert_eq!(
        dns::listed_ids(Some(vec![Some("x".to_string()), None])),
        ["x"]
    );
    assert!(dns::listed_ids(None).is_empty());
}

#[test]
fn creation_replies_are_read() {
    assert!(dns::read_create_reply("n", r#"{"success":true}"#).is_ok());
    assert_eq!(
        dns::read_create_reply("n", r#"{"success":false}"#).unwrap_err(),
        r#"创建 DNS 记录失败 n: {"success":false}"#
    );
    assert_eq!(
        dns::read_create_reply("n", r#"{"success":"yes"}"#).unwrap_err(),
        r#"创建 DNS 记录失败 n: {"success":"yes"}"#
    );
    assert_eq!(
        dns::read_create_reply("n", "{").unwrap_err(),
        "解析 create_record 响应失败: {"
    );
    assert!(dns::creation_verdict(Some(Some(true)), "n", "r").is_ok());
    assert!(dns::creation_verdict(Some(None), "n", "r").is_err());
}

#[test]
fn start_is_refused_or_idle() {
    let v = vec![result("a", Some(1.0))];
    let mut c = config();
    c.dns.enable = false;
    assert!(matches!(dns::begin_sync(&v, &c, ""), SyncStart::Disabled));
    let mut c = config();
    c.dns.token = None;
    match dns::begin_sync(&v, &c, "") {
        SyncStart::Refused(s) => assert_eq!(s, "dns.token 未配置"),
        _ => panic!(),
    }
    let mut c = config();
    c.dns.zone_id = None;
    match dns::begin_sync(&v, &c, "") {
        SyncStart::Refused(s) => assert_eq!(s, "dns.zone_id 未配置"),
        _ => panic!(),
    }
    match dns::begin_sync(&vec![], &config(), "0.00") {
        SyncStart::Nothing(s) => assert_eq!(s, "没有可同步的 IP"),
        _ => panic!(),
    }
    let mut c = config();
    c.speed_test.min_speed_mbps = metric(5.0);
    match dns::begin_sync(&v, &c, "5.00") {
        SyncStart::Nothing(s) => assert_eq!(s, "没有速度达标（>= 5.00 MB/s）的 IP 可同步"),
        _ => panic!(),
    }
    assert_eq!(
        dns::shortage(2, &c).unwrap(),
        "达标 IP 只有 2 个，少于配置的 max_records=5，仅同步这 2 条"
    );
    assert!(dns::shortage(5, &c).is_none());
    assert!(dns::shortage(1, &config()).is_none());
}

fn url(step: SyncStep) -> String {
    match step {
        SyncStep::Send(call) => call.url,
        other => panic!("{:?}", other),
    }
}

#[test]
fn records_are_replaced_one_by_one() {
    let v = vec![result("1.1.1.1", Some(2.0)), result("2.2.2.2", Some(1.0))];
    let mut sync = match dns::begin_sync(&v, &config(), "0.00") {
        SyncStart::Ready(s) => s,
        _ => panic!(),
    };
    assert!(url(sync.next()).contains("name=cf1.example.com"));
    let list = r#"{"result":[{"id":"x"},{"id":"y"}]}"#.to_string();
    assert!(sync.on_reply(Ok(list)).is_none());
    assert!(url(sync.next()).ends_with("/dns_records/x"));
    assert_eq!(
        sync.on_reply(Ok(String::new())).unwrap(),
        "  [删除] cf1.example.com (id=x)"
    );
    assert!(url(sync.next()).ends_with("/dns_records/y"));
    assert_eq!(
        sync.on_reply(Err("boom".to_string())).unwrap(),
        "  [删除失败] cf1.example.com id=y: boom"
    );
    match sync.next() {
        SyncStep::Send(call) => {
            assert_eq!(call.method, Method::Post);
            assert!(call.body.unwrap().contains("1.1.1.1"));
        }
        other => panic!("{:?}", other),
    }
    assert_eq!(
        sync.on_reply(Ok(r#"{"success":true}"#.to_string())).unwrap(),
        "  [成功] cf1.example.com → 1.1.1.1  延迟 42ms"
    );
    assert!(url(sync.next()).contains("name=cf2.example.com"));
    assert_eq!(
        sync.on_reply(Err("down".to_string())).unwrap(),
        "  [查询失败] cf2.example.com: down"
    );
    assert_eq!(
        sync.on_reply(Err("down".to_string())).unwrap(),
        "  [失败] cf2.example.com → 2.2.2.2  down"
    );
    assert!(matches!(sync.next(), SyncStep::Finished));
    assert_eq!(
        sync.finish(),
        [
            "[成功] cf1.example.com → 1.1.1.1  延迟 42ms",
            "[失败] cf2.example.com → 2.2.2.2  down",
            "同步完成  成功 1  失败 1",
        ]
    );
}

#[test]
fn names_without_records_are_created_at_once() {
    let mut c = config();
    c.dns.max_records = 1;
    let mut sync = match dns::begin_sync(&vec![result("1.1.1.1", None)], &c, "0.00") {
        SyncStart::Ready(s) => s,
        _ => panic!(),
    };
    assert!(url(sync.next()).contains("name=cf.example.com&"));
    assert!(sync.on_reply(Ok(r#"{"result":[]}"#.to_string())).is_none());
    assert!(matches!(sync.next(), SyncStep::Send(call) if call.method == Method::Post));
}

#[test]
fn no_name_without_a_domain() {
    let mut c = config();
    c.dns.domain = None;
    match dns::begin_sync(&vec![result("1.1.1.1", None)], &c, "0.00") {
        SyncStart::Ready(s) => assert!(matches!(s.next(), SyncStep::NoDomain)),
        _ => panic!(),
    }
}
