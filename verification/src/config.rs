//! Configuration: its fields, their defaults, and what makes it valid.
use crate::metric::Metric;
use crate::text;
use vstd::prelude::*;

verus! {

/// The whole configuration.
#[derive(Debug, Clone)]
pub struct Config {
    pub scan: ScanConfig,
    pub speed_test: SpeedTestConfig,
    pub schedule: ScheduleConfig,
    pub dns: DnsConfig,
    pub output: OutputConfig,
}

/// How addresses are scanned.
#[derive(Debug, Clone)]
pub struct ScanConfig {
    /// "ipv4", "ipv6" or "both".
    pub mode: String,
    /// The edge locations to keep; empty for all of them.
    pub regions: Vec<String>,
    /// The TCP port to connect to.
    pub port: u16,
    /// How many addresses are scanned at once.
    pub concurrency: usize,
    /// The highest latency that is kept, in milliseconds.
    pub delay_threshold: u64,
    /// How many connections are timed for each address.
    pub ping_count: usize,
    /// The connection timeout, in milliseconds.
    pub tcp_timeout_ms: u64,
    /// How many addresses are sampled; with `regions`, how many results are wanted.
    pub max_ips: Option<usize>,
    /// With `regions`: how many addresses one round samples.
    pub batch_size: usize,
    /// With `regions`: how many rounds are scanned at most.
    pub max_scan_rounds: usize,
}

/// How speeds are measured.
#[derive(Debug, Clone)]
pub struct SpeedTestConfig {
    /// Whether speeds are measured after a scan.
    pub auto_run: bool,
    /// "region" or "full".
    pub mode: String,
    /// The edge locations to measure in mode "region", such as "LAX".
    pub regions: Vec<String>,
    /// How many addresses make up one batch.
    pub top_n: usize,
    /// How many connections download from one address at once.
    pub download_threads: usize,
    /// How many addresses are measured at once.
    pub speed_concurrency: usize,
    /// How many bytes each connection requests.
    pub download_bytes: usize,
    /// How long one measurement takes at most, in milliseconds.
    pub duration_ms: u64,
    /// The connection timeout, in milliseconds.
    pub connect_timeout_ms: u64,
    /// The speed in MB/s that an address must reach to qualify; zero or less for no limit.
    pub min_speed_mbps: Metric,
    /// How many further batches are measured at most while too few addresses qualify.
    pub max_batches: usize,
}

/// When the whole procedure is repeated.
#[derive(Debug, Clone)]
pub struct ScheduleConfig {
    pub enable: bool,
    pub cron: String,
}

/// Which DNS records are kept up to date.
#[derive(Debug, Clone)]
pub struct DnsConfig {
    pub enable: bool,
    pub token: Option<String>,
    pub zone_id: Option<String>,
    pub domain: Option<String>,
    pub record_type: String,
    pub max_records: usize,
    pub ttl: u32,
}

/// Where results go.
#[derive(Debug, Clone)]
pub struct OutputConfig {
    pub file: Option<String>,
    pub state_file: String,
    pub log_level: String,
    pub web_show: bool,
    pub web_port: u16,
}

// ---- defaults ----

pub fn default_auto_run() -> (r: bool)
    ensures
        r,
{
    true
}

pub fn default_scan_mode() -> (r: String)
    ensures
        r@ == "ipv4"@,
{
    "ipv4".to_owned()
}

/// A limit that is left out of the settings is this cap. It is not taken for a wish to scan every
/// address, although a comment in the example settings says so: sampling always has a cap.
pub fn default_max_ips() -> (r: Option<usize>)
    ensures
        r == Some(8000usize),
{
    Some(8000)
}

pub fn default_port() -> (r: u16)
    ensures
        r == 443,
{
    443
}

pub fn default_concurrency() -> (r: usize)
    ensures
        r == 100,
{
    100
}

pub fn default_delay_threshold() -> (r: u64)
    ensures
        r == 220,
{
    220
}

pub fn default_ping_count() -> (r: usize)
    ensures
        r == 2,
{
    2
}

pub fn default_tcp_timeout() -> (r: u64)
    ensures
        r == 1000,
{
    1000
}

/// One round samples as many addresses as a scan without a limit.
pub fn default_batch_size() -> (r: usize)
    ensures
        r == 5500,
{
    5500
}

/// As many rounds as further speed batches.
pub fn default_max_scan_rounds() -> (r: usize)
    ensures
        r == 3,
{
    3
}

pub fn default_speed_mode() -> (r: String)
    ensures
        r@ == "full"@,
{
    "full".to_owned()
}

pub fn default_top_n() -> (r: usize)
    ensures
        r == 10,
{
    10
}

pub fn default_download_threads() -> (r: usize)
    ensures
        r == 4,
{
    4
}

pub fn default_speed_concurrency() -> (r: usize)
    ensures
        r == 3,
{
    3
}

/// 100 MB.
pub fn default_download_bytes() -> (r: usize)
    ensures
        r == 100 * 1024 * 1024,
{
    100 * 1024 * 1024
}

pub fn default_speed_duration() -> (r: u64)
    ensures
        r == 8000,
{
    8000
}

pub fn default_speed_timeout() -> (r: u64)
    ensures
        r == 5000,
{
    5000
}

pub fn default_max_batches() -> (r: usize)
    ensures
        r == 3,
{
    3
}

pub fn default_cron() -> (r: String)
    ensures
        r@ == "0 */6 * * *"@,
{
    "0 */6 * * *".to_owned()
}

pub fn default_record_type() -> (r: String)
    ensures
        r@ == "A"@,
{
    "A".to_owned()
}

pub fn default_max_records() -> (r: usize)
    ensures
        r == 5,
{
    5
}

pub fn default_ttl() -> (r: u32)
    ensures
        r == 60,
{
    60
}

pub fn default_web_port() -> (r: u16)
    ensures
        r == 5000,
{
    5000
}

pub fn default_state_file() -> (r: String)
    ensures
        r@ == "/tmp/cfscanner_state.json"@,
{
    "/tmp/cfscanner_state.json".to_owned()
}

pub fn default_log_level() -> (r: String)
    ensures
        r@ == "info"@,
{
    "info".to_owned()
}

// ---- validity ----

/// Why a configuration is refused.
#[derive(Debug)]
pub enum ConfigError {
    /// `scan.mode` is none of the three modes.
    ScanMode(String),
    /// `speed_test.mode` is neither of the two modes.
    SpeedMode(String),
    /// `speed_test.mode` is "region" and no region is given.
    NoRegions,
    /// `speed_test.min_speed_mbps` is negative.
    NegativeMinSpeed,
    /// `speed_test.max_batches` is zero.
    NoBatches,
    /// DNS is enabled without a token.
    NoToken,
    /// DNS is enabled without a zone.
    NoZoneId,
    /// DNS is enabled without a domain.
    NoDomain,
}

impl ConfigError {
    /// What is said of the error.
    pub open spec fn text(self) -> Seq<char> {
        match self {
            ConfigError::ScanMode(m) => "scan.mode 必须是 ipv4 / ipv6 / both，当前: "@ + m@,
            ConfigError::SpeedMode(m) => "speed_test.mode 必须是 region / full，当前: "@ + m@,
            ConfigError::NoRegions => "speed_test.mode=region 时，speed_test.regions 不能为空"@,
            ConfigError::NegativeMinSpeed => "speed_test.min_speed_mbps 不能为负数"@,
            ConfigError::NoBatches => "speed_test.max_batches 必须 >= 1"@,
            ConfigError::NoToken => "dns.enable=true 时必须提供 dns.token"@,
            ConfigError::NoZoneId => "dns.enable=true 时必须提供 dns.zone_id"@,
            ConfigError::NoDomain => "dns.enable=true 时必须提供 dns.domain"@,
        }
    }

    /// What is said of the error.
    pub fn message(&self) -> (r: String)
        ensures
            r@ == self.text(),
    {
        match self {
            ConfigError::ScanMode(m) => {
                let mut out: String = "scan.mode 必须是 ipv4 / ipv6 / both，当前: ".to_owned();
                out.append(m.as_str());
                out
            },
            ConfigError::SpeedMode(m) => {
                let mut out: String = "speed_test.mode 必须是 region / full，当前: ".to_owned();
                out.append(m.as_str());
                out
            },
            ConfigError::NoRegions =>
                "speed_test.mode=region 时，speed_test.regions 不能为空".to_owned(),
            ConfigError::NegativeMinSpeed => "speed_test.min_speed_mbps 不能为负数".to_owned(),
            ConfigError::NoBatches => "speed_test.max_batches 必须 >= 1".to_owned(),
            ConfigError::NoToken => "dns.enable=true 时必须提供 dns.token".to_owned(),
            ConfigError::NoZoneId => "dns.enable=true 时必须提供 dns.zone_id".to_owned(),
            ConfigError::NoDomain => "dns.enable=true 时必须提供 dns.domain".to_owned(),
        }
    }
}

/// Whether `m` is a scan mode.
pub open spec fn is_scan_mode(m: Seq<char>) -> bool {
    m == "ipv4"@ || m == "ipv6"@ || m == "both"@
}

/// Whether `m` is a speed mode.
pub open spec fn is_speed_mode(m: Seq<char>) -> bool {
    m == "region"@ || m == "full"@
}

/// The name of the `n`-th record: `n` stands at the end of the first label of `domain`. A single
/// record has the domain itself for its name.
pub open spec fn record_name(domain: Seq<char>, max_records: usize, n: nat) -> Seq<char> {
    if max_records == 1 {
        domain
    } else {
        let k = text::first_index(domain, '.') as int;
        domain.take(k) + text::decimal(n) + domain.skip(k)
    }
}

impl SpeedTestConfig {
    /// Whether the speed settings are consistent.
    pub open spec fn valid(self) -> bool {
        &&& is_speed_mode(self.mode@)
        &&& self.mode@ == "region"@ ==> self.regions@.len() > 0
        &&& !(self.min_speed_mbps.is_number() && self.min_speed_mbps.rank() < 0)
        &&& self.max_batches >= 1
    }
}

impl DnsConfig {
    /// Whether all that publication needs is there.
    pub open spec fn valid(self) -> bool {
        self.enable ==> self.token is Some && self.zone_id is Some && self.domain is Some
    }
}

impl Config {
    /// Whether the configuration can be run.
    pub open spec fn valid(self) -> bool {
        is_scan_mode(self.scan.mode@) && self.speed_test.valid() && self.dns.valid()
    }

    /// Whether every field has its default.
    pub open spec fn is_default(self) -> bool {
        &&& self.scan.mode@ == "ipv4"@
        &&& self.scan.regions@ == Seq::<String>::empty()
        &&& self.scan.port == 443
        &&& self.scan.concurrency == 100
        &&& self.scan.delay_threshold == 220
        &&& self.scan.ping_count == 2
        &&& self.scan.tcp_timeout_ms == 1000
        &&& self.scan.max_ips == Some(8000usize)
        &&& self.scan.batch_size == 5500
        &&& self.scan.max_scan_rounds == 3
        &&& self.speed_test.auto_run
        &&& self.speed_test.mode@ == "full"@
        &&& self.speed_test.regions@ == Seq::<String>::empty()
        &&& self.speed_test.top_n == 10
        &&& self.speed_test.download_threads == 4
        &&& self.speed_test.speed_concurrency == 3
        &&& self.speed_test.download_bytes == 100 * 1024 * 1024
        &&& self.speed_test.duration_ms == 8000
        &&& self.speed_test.connect_timeout_ms == 5000
        &&& self.speed_test.min_speed_mbps == (Metric { bits: 0 })
        &&& self.speed_test.max_batches == 3
        &&& !self.schedule.enable
        &&& self.schedule.cron@ == "0 */6 * * *"@
        &&& !self.dns.enable
        &&& self.dns.token is None
        &&& self.dns.zone_id is None
        &&& self.dns.domain is None
        &&& self.dns.record_type@ == "A"@
        &&& self.dns.max_records == 5
        &&& self.dns.ttl == 60
        &&& self.output.file is None
        &&& self.output.state_file@ == "/tmp/cfscanner_state.json"@
        &&& self.output.log_level@ == "info"@
        &&& !self.output.web_show
        &&& self.output.web_port == 5000
    }

    /// The configuration in which every field has its default; it is always there.
    pub fn default_config() -> (r: Result<Config, ConfigError>)
        ensures
            r matches Ok(c) && c.is_default(),
    {
        Ok(
            Config {
                scan: ScanConfig {
                    mode: default_scan_mode(),
                    regions: Vec::new(),
                    port: default_port(),
                    concurrency: default_concurrency(),
                    delay_threshold: default_delay_threshold(),
                    ping_count: default_ping_count(),
                    tcp_timeout_ms: default_tcp_timeout(),
                    max_ips: default_max_ips(),
                    batch_size: default_batch_size(),
                    max_scan_rounds: default_max_scan_rounds(),
                },
                speed_test: SpeedTestConfig {
                    auto_run: default_auto_run(),
                    mode: default_speed_mode(),
                    regions: Vec::new(),
                    top_n: default_top_n(),
                    download_threads: default_download_threads(),
                    speed_concurrency: default_speed_concurrency(),
                    download_bytes: default_download_bytes(),
                    duration_ms: default_speed_duration(),
                    connect_timeout_ms: default_speed_timeout(),
                    min_speed_mbps: Metric::zero(),
                    max_batches: default_max_batches(),
                },
                schedule: ScheduleConfig { enable: false, cron: default_cron() },
                dns: DnsConfig {
                    enable: false,
                    token: None,
                    zone_id: None,
                    domain: None,
                    record_type: default_record_type(),
                    max_records: default_max_records(),
                    ttl: default_ttl(),
                },
                output: OutputConfig {
                    file: None,
                    state_file: default_state_file(),
                    log_level: default_log_level(),
                    web_show: false,
                    web_port: default_web_port(),
                },
            },
        )
    }

    /// Accepts a configuration that can be run, and names the first fault of any other.
    pub fn validate(&self) -> (r: Result<(), ConfigError>)
        ensures
            r is Ok <==> self.valid(),
            match r {
                Ok(_) => true,
                Err(ConfigError::ScanMode(m)) => !is_scan_mode(self.scan.mode@) && m@
                    == self.scan.mode@,
                Err(e) => is_scan_mode(self.scan.mode@) && match e {
                    ConfigError::ScanMode(_) => false,
                    ConfigError::SpeedMode(m) => !is_speed_mode(self.speed_test.mode@) && m@
                        == self.speed_test.mode@,
                    _ => is_speed_mode(self.speed_test.mode@) && match e {
                        ConfigError::NoRegions => self.speed_test.mode@ == "region"@
                            && self.speed_test.regions@.len() == 0,
                        _ => (self.speed_test.mode@ == "region"@ ==> self.speed_test.regions@.len()
                            > 0) && match e {
                            ConfigError::NegativeMinSpeed => {
                                &&& self.speed_test.min_speed_mbps.is_number()
                                &&& self.speed_test.min_speed_mbps.rank() < 0
                            },
                            ConfigError::NoBatches => {
                                &&& !(self.speed_test.min_speed_mbps.is_number()
                                    && self.speed_test.min_speed_mbps.rank() < 0)
                                &&& self.speed_test.max_batches == 0
                            },
                            ConfigError::NoToken => {
                                &&& self.speed_test.valid()
                                &&& self.dns.enable
                                &&& self.dns.token is None
                            },
                            ConfigError::NoZoneId => {
                                &&& self.speed_test.valid()
                                &&& self.dns.enable
                                &&& self.dns.token is Some
                                &&& self.dns.zone_id is None
                            },
                            ConfigError::NoDomain => {
                                &&& self.speed_test.valid()
                                &&& self.dns.enable
                                &&& self.dns.token is Some
                                &&& self.dns.zone_id is Some
                                &&& self.dns.domain is None
                            },
                            _ => false,
                        },
                    },
                },
            },
    {
        let mode = self.scan.mode.as_str();
        if !text::same_text(mode, "ipv4") && !text::same_text(mode, "ipv6") && !text::same_text(
            mode,
            "both",
        ) {
            return Err(ConfigError::ScanMode(self.scan.mode.clone()));
        }
        let speed_mode = self.speed_test.mode.as_str();
        let by_region = text::same_text(speed_mode, "region");
        if !by_region && !text::same_text(speed_mode, "full") {
            return Err(ConfigError::SpeedMode(self.speed_test.mode.clone()));
        }
        if by_region && self.speed_test.regions.is_empty() {
            return Err(ConfigError::NoRegions);
        }
        if self.speed_test.min_speed_mbps.is_negative() {
            return Err(ConfigError::NegativeMinSpeed);
        }
        if self.speed_test.max_batches == 0 {
            return Err(ConfigError::NoBatches);
        }
        if self.dns.enable {
            if self.dns.token.is_none() {
                return Err(ConfigError::NoToken);
            }
            if self.dns.zone_id.is_none() {
                return Err(ConfigError::NoZoneId);
            }
            if self.dns.domain.is_none() {
                return Err(ConfigError::NoDomain);
            }
        }
        Ok(())
    }

    /// The name of the `n`-th DNS record, where a domain is configured.
    pub fn dns_domain_for(&self, n: usize) -> (r: Option<String>)
        ensures
            match self.dns.domain {
                None => r is None,
                Some(d) => r matches Some(s) && s@ == record_name(
                    d@,
                    self.dns.max_records,
                    n as nat,
                ),
            },
    {
        self.dns.domain_for(n)
    }
}

impl DnsConfig {
    /// The name of the `n`-th DNS record, where a domain is configured.
    pub fn domain_for(&self, n: usize) -> (r: Option<String>)
        ensures
            match self.domain {
                None => r is None,
                Some(d) => r matches Some(s) && s@ == record_name(
                    d@,
                    self.max_records,
                    n as nat,
                ),
            },
    {
        match &self.domain {
            None => None,
            Some(d) => {
                if self.max_records == 1 {
                    return Some(d.clone());
                }
                let v = text::chars_of(d.as_str());
                let k: usize = text::find_from(&v, 0, '.');
                assert(v@.skip(0) =~= v@);
                let mut out = text::substring(&v, 0, k);
                text::push_decimal(&mut out, n as u64);
                let rest = text::substring(&v, k, v.len());
                out.append(rest.as_str());
                assert(v@.subrange(0, k as int) =~= v@.take(k as int));
                assert(v@.subrange(k as int, v@.len() as int) =~= v@.skip(k as int));
                Some(out)
            },
        }
    }
}

// ---- laws ----

/// The default configuration is valid.
pub proof fn law_default_is_valid(c: Config)
    requires
        c.is_default(),
    ensures
        c.valid(),
{
    reveal_strlit("full");
    reveal_strlit("region");
    assert("full"@.len() != "region"@.len());
}

/// Different records have different names, unless only one record is kept.
pub proof fn law_record_names_differ(domain: Seq<char>, max_records: usize, m: nat, n: nat)
    requires
        max_records != 1,
        m != n,
    ensures
        record_name(domain, max_records, m) != record_name(domain, max_records, n),
{
    let k = text::first_index(domain, '.') as int;
    text::lemma_first_index_bound(domain, '.');
    let a = record_name(domain, max_records, m);
    let b = record_name(domain, max_records, n);
    if a == b {
        let i = a.len() - (domain.len() - k);
        assert(a.subrange(k, i) =~= text::decimal(m));
        assert(b.subrange(k, i) =~= text::decimal(n));
        text::lemma_decimal_injective(m, n);
    }
}

/// A single record is kept under the domain itself.
pub proof fn law_single_record_name(domain: Seq<char>, n: nat)
    ensures
        record_name(domain, 1, n) == domain,
{
}

/// A configuration can be run where its modes are known ones, regions are named where measuring is
/// limited to them, the speed that is wanted is not negative, a further batch is allowed, and what
/// publication needs is there where it is switched on; and only then.
pub proof fn law_valid(config: Config)
    ensures
        config.valid() <==> {
            let mode = config.scan.mode@;
            let speed = config.speed_test;
            let dns = config.dns;
            &&& seq!["ipv4"@, "ipv6"@, "both"@].contains(mode)
            &&& speed.mode@ == "full"@ || (speed.mode@ == "region"@ && speed.regions@.len() > 0)
            &&& speed.min_speed_mbps.is_number() ==> speed.min_speed_mbps.rank() >= 0
            &&& speed.max_batches > 0
            &&& !dns.enable || (dns.token is Some && dns.zone_id is Some && dns.domain is Some)
        },
{
    reveal_strlit("full");
    reveal_strlit("region");
    assert("full"@.len() != "region"@.len());
    let modes = seq!["ipv4"@, "ipv6"@, "both"@];
    assert(modes[0] == "ipv4"@ && modes[1] == "ipv6"@ && modes[2] == "both"@);
}

/// Among several records the number of each stands at the end of the first label of its name, which
/// is otherwise the domain; a domain of one label has it at its end.
pub proof fn law_record_name(label: Seq<char>, rest: Seq<char>, max_records: usize, n: nat)
    requires
        !label.contains('.'),
        max_records != 1,
    ensures
        record_name(label + seq!['.'] + rest, max_records, n) == label + text::decimal(n) + seq!['.']
            + rest,
        record_name(label, max_records, n) == label + text::decimal(n),
{
    assert forall|i: int| 0 <= i < label.len() implies label[i] != '.' by {
        if label[i] == '.' {
            assert(label.contains('.'));
        }
    }
    let k = label.len() as int;
    let domain = label + seq!['.'] + rest;
    assert(domain[k] == '.');
    text::lemma_first_index(domain, '.', k);
    assert(domain.take(k) =~= label);
    assert(domain.skip(k) =~= seq!['.'] + rest);
    assert(record_name(domain, max_records, n) =~= label + text::decimal(n) + seq!['.'] + rest);
    text::lemma_first_index(label, '.', k);
    assert(label.take(k) =~= label);
    assert(label.skip(k) =~= Seq::<char>::empty());
    assert(record_name(label, max_records, n) =~= label + text::decimal(n));
}

/// The modes of scanning and of measuring are these.
pub proof fn law_modes(m: Seq<char>)
    ensures
        is_scan_mode(m) <==> seq!["ipv4"@, "ipv6"@, "both"@].contains(m),
        is_speed_mode(m) <==> seq!["region"@, "full"@].contains(m),
{
    let modes = seq!["ipv4"@, "ipv6"@, "both"@];
    assert(modes[0] == "ipv4"@ && modes[1] == "ipv6"@ && modes[2] == "both"@);
    let speeds = seq!["region"@, "full"@];
    assert(speeds[0] == "region"@ && speeds[1] == "full"@);
}

/// Settings that publication and measuring need are asked for exactly where they are used.
pub proof fn law_valid_parts(speed: SpeedTestConfig, dns: DnsConfig)
    ensures
        !dns.enable ==> dns.valid(),
        dns.enable ==> (dns.valid() <==> dns.token is Some && dns.zone_id is Some
            && dns.domain is Some),
        speed.valid() ==> speed.max_batches > 0 && seq!["region"@, "full"@].contains(speed.mode@),
        speed.mode@ == "region"@ && speed.regions@.len() == 0 ==> !speed.valid(),
        speed.min_speed_mbps.is_number() && speed.min_speed_mbps.rank() < 0 ==> !speed.valid(),
        seq!["region"@, "full"@].contains(speed.mode@) && speed.regions@.len() > 0
            && speed.max_batches > 0 && !(speed.min_speed_mbps.is_number()
            && speed.min_speed_mbps.rank() < 0) ==> speed.valid(),
{
    law_modes(speed.mode@);
}

/// By default nothing is published, scheduled, exported or shown, no region is asked for, and no speed
/// is wanted; the sizes and times are these.
pub proof fn law_defaults(c: Config)
    requires
        c.is_default(),
    ensures
        !c.dns.enable && !c.schedule.enable && !c.output.web_show && c.output.file is None,
        c.dns.token is None && c.dns.zone_id is None && c.dns.domain is None,
        c.scan.regions@.len() == 0 && c.speed_test.regions@.len() == 0,
        c.speed_test.min_speed_mbps.rank() == 0 && c.speed_test.min_speed_mbps.is_number(),
        c.speed_test.auto_run,
        c.scan.mode@ == "ipv4"@ && c.speed_test.mode@ == "full"@,
        c.scan.port == 443 && c.output.web_port == 5000,
        (c.scan.concurrency, c.scan.ping_count, c.scan.max_scan_rounds) == (100usize, 2usize, 3usize),
        (c.scan.delay_threshold, c.scan.tcp_timeout_ms) == (220u64, 1000u64),
        (c.scan.max_ips, c.scan.batch_size) == (Some(8000usize), 5500usize),
        (c.speed_test.top_n, c.speed_test.download_threads, c.speed_test.speed_concurrency) == (
            10usize,
            4usize,
            3usize,
        ),
        (c.speed_test.download_bytes, c.speed_test.max_batches) == (104857600usize, 3usize),
        (c.speed_test.duration_ms, c.speed_test.connect_timeout_ms) == (8000u64, 5000u64),
        (c.dns.max_records, c.dns.ttl) == (5usize, 60u32),
        c.dns.record_type@ == "A"@ && c.schedule.cron@ == "0 */6 * * *"@,
        c.output.state_file@ == "/tmp/cfscanner_state.json"@ && c.output.log_level@ == "info"@,
{
}

/// What is said of an error tells the setting that is wrong, and the mode that is not known.
pub proof fn law_error_texts(m: String)
    ensures
        ConfigError::ScanMode(m).text() == "scan.mode 必须是 ipv4 / ipv6 / both，当前: "@ + m@,
        ConfigError::SpeedMode(m).text() == "speed_test.mode 必须是 region / full，当前: "@ + m@,
        ConfigError::NoRegions.text() == "speed_test.mode=region 时，speed_test.regions 不能为空"@,
        ConfigError::NegativeMinSpeed.text() == "speed_test.min_speed_mbps 不能为负数"@,
        ConfigError::NoBatches.text() == "speed_test.max_batches 必须 >= 1"@,
        ConfigError::NoToken.text() == "dns.enable=true 时必须提供 dns.token"@,
        ConfigError::NoZoneId.text() == "dns.enable=true 时必须提供 dns.zone_id"@,
        ConfigError::NoDomain.text() == "dns.enable=true 时必须提供 dns.domain"@,
{
}

} // verus!
