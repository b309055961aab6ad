//! What is shown of settings and results: lines, table rows and the exported file.
use crate::config::{Config, ScanConfig};
use crate::ip_loader;
use crate::metric::Metric;
use crate::order;
use crate::scanner;
use crate::speed_tester;
use crate::text;
use crate::types::IpResult;
use vstd::hash_map::StringHashMap;
use vstd::prelude::*;

verus! {

// ---- settings ----

/// A line that starts with `start` and ends with a number and `end`.
pub open spec fn number_line(start: Seq<char>, n: nat, end: Seq<char>) -> Seq<char> {
    start + text::decimal(n) + end
}

fn push_number_line(out: &mut Vec<String>, start: &str, n: u64, end: &str)
    ensures
        text::views(final(out)@) == text::views(old(out)@).push(number_line(start@, n as nat, end@)),
{
    let mut line: String = start.to_owned();
    text::push_decimal(&mut line, n);
    line.append(end);
    proof {
        text::lemma_views_push(out@, line);
    }
    out.push(line);
}

fn push_text(out: &mut Vec<String>, line: &str)
    ensures
        text::views(final(out)@) == text::views(old(out)@).push(line@),
{
    let line: String = line.to_owned();
    proof {
        text::lemma_views_push(out@, line);
    }
    out.push(line);
}

fn push_line(out: &mut Vec<String>, start: &str, rest: &str)
    ensures
        text::views(final(out)@) == text::views(old(out)@).push(start@ + rest@),
{
    let mut line: String = start.to_owned();
    line.append(rest);
    proof {
        text::lemma_views_push(out@, line);
    }
    out.push(line);
}

/// The lines that show the scan settings.
pub open spec fn scan_param_lines(cfg: ScanConfig, total_ips: nat) -> Seq<Seq<char>> {
    seq![
        "━━━ 延迟扫描参数 ━━━"@,
        "  模式        : "@ + cfg.mode@,
        number_line("  端口        : "@, cfg.port as nat, ""@),
        number_line("  并发数      : "@, cfg.concurrency as nat, ""@),
        number_line("  延迟上限    : "@, cfg.delay_threshold as nat, " ms"@),
        number_line("  Ping 次数   : "@, cfg.ping_count as nat, ""@),
        number_line("  IP 总数     : "@, total_ips, ""@),
    ]
}

/// The lines that show the scan settings.
pub fn scan_params(cfg: &ScanConfig, total_ips: usize) -> (r: Vec<String>)
    ensures
        text::views(r@) == scan_param_lines(*cfg, total_ips as nat),
{
    let mut out: Vec<String> = Vec::new();
    push_text(&mut out, "━━━ 延迟扫描参数 ━━━");
    push_line(&mut out, "  模式        : ", cfg.mode.as_str());
    push_number_line(&mut out, "  端口        : ", cfg.port as u64, "");
    push_number_line(&mut out, "  并发数      : ", cfg.concurrency as u64, "");
    push_number_line(&mut out, "  延迟上限    : ", cfg.delay_threshold, " ms");
    push_number_line(&mut out, "  Ping 次数   : ", cfg.ping_count as u64, "");
    push_number_line(&mut out, "  IP 总数     : ", total_ips as u64, "");
    assert(text::views(out@) =~= scan_param_lines(*cfg, total_ips as nat));
    out
}

/// The lines that show to which edge locations measuring is limited.
pub open spec fn filter_lines(filter: Option<Seq<Seq<char>>>) -> Seq<Seq<char>> {
    match filter {
        Some(regions) => seq!["  地区筛选      : "@ + text::joined(regions, ", "@)],
        None => Seq::empty(),
    }
}

/// The lines that show the speed settings.
pub open spec fn speed_param_lines(config: Config, filter: Option<Seq<Seq<char>>>) -> Seq<
    Seq<char>,
> {
    let cfg = config.speed_test;
    seq!["━━━ 测速参数 ━━━"@, "  模式          : "@ + cfg.mode@] + filter_lines(filter)
        + seq![
        number_line("  测速数量      : top "@, cfg.top_n as nat, ""@),
        number_line("  并发连接数    : "@, cfg.download_threads as nat, " 条/IP（多线程下载）"@),
        number_line("  同时测速 IP   : "@, cfg.speed_concurrency as nat, " 个"@),
        number_line("  每连接下载量  : "@, (cfg.download_bytes / 1024 / 1024) as nat, " MB"@),
        number_line("  持续时长      : "@, cfg.duration_ms as nat, " ms"@),
        "  评分公式      : speed×0.6 - latency×0.3 - loss×0.1"@,
        ""@,
        "  IP                  延迟     速度        评分"@,
        "  "@ + "────────────────────────────────────────────────────"@,
    ]
}

/// The lines that show the speed settings.
pub fn speed_params(config: &Config, filter: Option<&Vec<String>>) -> (r: Vec<String>)
    ensures
        text::views(r@) == speed_param_lines(*config, speed_tester::filter_view(filter)),
{
    let cfg = &config.speed_test;
    let mut out: Vec<String> = Vec::new();
    push_text(&mut out, "━━━ 测速参数 ━━━");
    push_line(&mut out, "  模式          : ", cfg.mode.as_str());
    match filter {
        Some(regions) => {
            let list = text::join(regions, ", ");
            push_line(&mut out, "  地区筛选      : ", list.as_str());
        },
        None => {},
    }
    push_number_line(&mut out, "  测速数量      : top ", cfg.top_n as u64, "");
    push_number_line(
        &mut out,
        "  并发连接数    : ",
        cfg.download_threads as u64,
        " 条/IP（多线程下载）",
    );
    push_number_line(&mut out, "  同时测速 IP   : ", cfg.speed_concurrency as u64, " 个");
    push_number_line(
        &mut out,
        "  每连接下载量  : ",
        (cfg.download_bytes / 1024 / 1024) as u64,
        " MB",
    );
    push_number_line(&mut out, "  持续时长      : ", cfg.duration_ms, " ms");
    push_text(&mut out, "  评分公式      : speed×0.6 - latency×0.3 - loss×0.1");
    push_text(&mut out, "");
    push_text(&mut out, "  IP                  延迟     速度        评分");
    push_line(&mut out, "  ", "────────────────────────────────────────────────────");
    assert(text::views(out@) =~= speed_param_lines(*config, speed_tester::filter_view(filter)));
    out
}

// ---- the summary of a scan ----

/// The line for an edge location and its count.
pub open spec fn count_line(p: (Seq<char>, nat)) -> Seq<char> {
    "  "@ + p.0 + text::padding(p.0, 6) + "  "@ + text::decimal(p.1) + " 个"@
}

/// The lines that are said of a scan with these counts.
pub open spec fn summary_lines(total: nat, counts: Seq<(Seq<char>, nat)>) -> Seq<Seq<char>> {
    if total == 0 {
        seq!["延迟扫描：未找到可用 IP"@]
    } else {
        seq![number_line("\n延迟扫描完成  共 "@, total, " 个可用 IP"@)] + counts.map_values(
            |p: (Seq<char>, nat)| count_line(p),
        )
    }
}

/// The lines that are said of a scan: how many results each edge location has, the most frequent
/// first.
pub fn scan_summary(results: &Vec<IpResult>) -> (r: Vec<String>)
    ensures
        exists|counts: Seq<(Seq<char>, nat)>| #[trigger]
            order::sorted_by(
                scanner::tally(results@),
                scanner::count_keys(scanner::tally(results@)),
                counts,
            ) && text::views(r@) == summary_lines(results@.len(), counts),
{
    let counts = scanner::region_counts(results);
    let ghost view = scanner::count_views(counts@);
    let mut out: Vec<String> = Vec::new();
    if results.is_empty() {
        push_text(&mut out, "延迟扫描：未找到可用 IP");
        assert(text::views(out@) =~= summary_lines(results@.len(), view));
        return out;
    }
    push_number_line(&mut out, "\n延迟扫描完成  共 ", results.len() as u64, " 个可用 IP");
    let n: usize = counts.len();
    let mut i: usize = 0;
    let ghost head = text::views(out@);
    let ghost wanted = view.map_values(|p: (Seq<char>, nat)| count_line(p));
    assert(head + wanted.take(0) =~= head);
    while i < n
        invariant
            i <= n,
            n == counts@.len(),
            view == scanner::count_views(counts@),
            wanted == view.map_values(|p: (Seq<char>, nat)| count_line(p)),
            text::views(out@) == head + wanted.take(i as int),
        decreases n - i,
    {
        let name = counts[i].0.as_str();
        let mut line: String = "  ".to_owned();
        let padded = text::pad_right(name, 6);
        line.append(padded.as_str());
        line.append("  ");
        text::push_decimal(&mut line, counts[i].1 as u64);
        line.append(" 个");
        proof {
            assert(view[i as int] == (counts@[i as int].0@, counts@[i as int].1 as nat));
            assert(line@ =~= wanted[i as int]);
            text::lemma_views_push(out@, line);
            assert(head + wanted.take(i + 1) =~= (head + wanted.take(i as int)).push(
                wanted[i as int],
            ));
        }
        out.push(line);
        i += 1;
    }
    proof {
        assert(wanted.take(n as int) =~= wanted);
        assert(head =~= seq![
            number_line("\n延迟扫描完成  共 "@, results@.len(), " 个可用 IP"@),
        ]);
    }
    out
}

// ---- the table of results ----

/// A result together with its printed speed and score.
#[derive(Debug)]
pub struct ShownResult {
    pub result: IpResult,
    pub speed: String,
    pub score: String,
}

/// The colour in which a cell is shown.
#[derive(Clone, Copy, Debug, PartialEq, Eq, Structural)]
pub enum Shade {
    Plain,
    Green,
    Yellow,
    Red,
}

/// A row of the table.
#[derive(Debug)]
pub struct TableRow {
    /// The place in the table, from one.
    pub place: usize,
    pub ip: String,
    pub port: u16,
    pub delay_ms: u64,
    pub delay_shade: Shade,
    pub colo: String,
    pub city: String,
    pub speed: String,
    pub speed_shade: Shade,
    pub score: String,
    pub score_shade: Shade,
}

/// A speed of 5 MB/s.
pub const FAST_BITS: u64 = 0x4014_0000_0000_0000;

/// A speed of 1 MB/s.
pub const FAIR_BITS: u64 = 0x3ff0_0000_0000_0000;

/// The colour of a latency: green below 100 ms, yellow below 200 ms, else red.
pub open spec fn delay_shade(ms: u64) -> Shade {
    if ms < 100 {
        Shade::Green
    } else if ms < 200 {
        Shade::Yellow
    } else {
        Shade::Red
    }
}

/// The colour of a speed: green from 5 MB/s, yellow from 1 MB/s, else red.
pub open spec fn speed_shade(speed: Option<Metric>) -> Shade {
    match speed {
        Some(s) => if s.at_least(Metric { bits: FAST_BITS }) {
            Shade::Green
        } else if s.at_least(Metric { bits: FAIR_BITS }) {
            Shade::Yellow
        } else {
            Shade::Red
        },
        None => Shade::Plain,
    }
}

/// The colour of a score: green from zero, else yellow.
pub open spec fn score_shade(score: Option<Metric>) -> Shade {
    match score {
        Some(s) => if s.at_least(Metric { bits: 0 }) {
            Shade::Green
        } else {
            Shade::Yellow
        },
        None => Shade::Plain,
    }
}

/// The name of an edge location, or its code where it has none.
pub open spec fn city_name(names: Map<Seq<char>, Seq<char>>, colo: Seq<char>) -> Seq<char> {
    if names.contains_key(colo) {
        names[colo]
    } else {
        colo
    }
}

/// Whether a row shows a result at a place.
pub open spec fn shows(
    row: TableRow,
    place: nat,
    shown: ShownResult,
    names: Map<Seq<char>, Seq<char>>,
) -> bool {
    let r = shown.result;
    &&& row.place == place
    &&& row.ip@ == r.ip@
    &&& row.port == r.port
    &&& row.delay_ms == r.delay_ms
    &&& row.delay_shade == delay_shade(r.delay_ms)
    &&& row.colo@ == r.colo@
    &&& row.city@ == city_name(names, r.colo@)
    &&& row.speed@ == match r.speed_mbps {
        Some(_) => shown.speed@ + " MB/s"@,
        None => "-"@,
    }
    &&& row.speed_shade == speed_shade(r.speed_mbps)
    &&& row.score@ == match r.score {
        Some(_) => shown.score@,
        None => "-"@,
    }
    &&& row.score_shade == score_shade(r.score)
}

fn shade_delay(ms: u64) -> (r: Shade)
    ensures
        r == delay_shade(ms),
{
    if ms < 100 {
        Shade::Green
    } else if ms < 200 {
        Shade::Yellow
    } else {
        Shade::Red
    }
}

fn shade_speed(speed: Option<Metric>) -> (r: Shade)
    ensures
        r == speed_shade(speed),
{
    match speed {
        Some(s) => if s.reaches(Metric { bits: FAST_BITS }) {
            Shade::Green
        } else if s.reaches(Metric { bits: FAIR_BITS }) {
            Shade::Yellow
        } else {
            Shade::Red
        },
        None => Shade::Plain,
    }
}

fn shade_score(score: Option<Metric>) -> (r: Shade)
    ensures
        r == score_shade(score),
{
    match score {
        Some(s) => if s.reaches(Metric::zero()) {
            Shade::Green
        } else {
            Shade::Yellow
        },
        None => Shade::Plain,
    }
}

/// The row that shows a result.
pub fn table_row(place: usize, shown: &ShownResult, names: &StringHashMap<String>) -> (r: TableRow)
    ensures
        shows(r, place as nat, *shown, ip_loader::map_views(names@)),
{
    let r = &shown.result;
    let city = match names.get(r.colo.as_str()) {
        Some(name) => name.clone(),
        None => r.colo.clone(),
    };
    TableRow {
        place,
        ip: r.ip.clone(),
        port: r.port,
        delay_ms: r.delay_ms,
        delay_shade: shade_delay(r.delay_ms),
        colo: r.colo.clone(),
        city,
        speed: r.speed_display(shown.speed.as_str()),
        speed_shade: shade_speed(r.speed_mbps),
        score: if r.score.is_some() {
            shown.score.clone()
        } else {
            "-".to_owned()
        },
        score_shade: shade_score(r.score),
    }
}

/// The rows of the table: one for each result, in their order, numbered from one.
pub fn speed_table(shown: &Vec<ShownResult>, names: &StringHashMap<String>) -> (r: Vec<TableRow>)
    ensures
        r@.len() == shown@.len(),
        forall|i: int|
            0 <= i < r@.len() ==> shows(
                #[trigger] r@[i],
                (i + 1) as nat,
                shown@[i],
                ip_loader::map_views(names@),
            ),
{
    let n: usize = shown.len();
    let mut out: Vec<TableRow> = Vec::new();
    let mut i: usize = 0;
    while i < n
        invariant
            i <= n,
            n == shown@.len(),
            out@.len() == i,
            forall|k: int|
                0 <= k < i ==> shows(
                    #[trigger] out@[k],
                    (k + 1) as nat,
                    shown@[k],
                    ip_loader::map_views(names@),
                ),
        decreases n - i,
    {
        out.push(table_row(i + 1, &shown[i], names));
        i += 1;
    }
    out
}

/// What is shown in place of a table without rows.
pub fn table_notice(shown: &Vec<ShownResult>) -> (r: Option<String>)
    ensures
        text::opt_view(r) == if shown@.len() == 0 {
            Some("没有测速结果"@)
        } else {
            None
        },
{
    if shown.is_empty() {
        Some("没有测速结果".to_owned())
    } else {
        None
    }
}

// ---- the exported file ----

/// The line of the file for a result; what was not measured is left empty.
pub open spec fn csv_line(shown: ShownResult) -> Seq<char> {
    let r = shown.result;
    r.ip@ + ","@ + text::decimal(r.port as nat) + ","@ + text::decimal(r.delay_ms as nat) + ","@
        + r.colo@ + ","@ + (match r.speed_mbps {
        Some(_) => shown.speed@,
        None => Seq::<char>::empty(),
    }) + ","@ + (match r.score {
        Some(_) => shown.score@,
        None => Seq::<char>::empty(),
    })
}

/// The exported file: a heading, and a line for each result.
pub open spec fn csv_file(shown: Seq<ShownResult>) -> Seq<char> {
    text::line_by_line(
        seq!["ip,port,delay_ms,colo,speed_mbps,score"@] + shown.map_values(
            |s: ShownResult| csv_line(s),
        ),
    )
}

/// The line of the file for a result.
pub fn csv_row(shown: &ShownResult) -> (r: String)
    ensures
        r@ == csv_line(*shown),
{
    let r = &shown.result;
    let mut out: String = r.ip.clone();
    out.append(",");
    text::push_decimal(&mut out, r.port as u64);
    out.append(",");
    text::push_decimal(&mut out, r.delay_ms);
    out.append(",");
    out.append(r.colo.as_str());
    out.append(",");
    if r.speed_mbps.is_some() {
        out.append(shown.speed.as_str());
    }
    out.append(",");
    if r.score.is_some() {
        out.append(shown.score.as_str());
    }
    assert(out@ =~= csv_line(*shown));
    out
}

/// The exported file.
pub fn csv_text(shown: &Vec<ShownResult>) -> (r: String)
    ensures
        r@ == csv_file(shown@),
{
    let ghost rows = shown@.map_values(|s: ShownResult| csv_line(s));
    let ghost head = seq!["ip,port,delay_ms,colo,speed_mbps,score"@];
    let n: usize = shown.len();
    let mut lines: Vec<String> = Vec::new();
    lines.push("ip,port,delay_ms,colo,speed_mbps,score".to_owned());
    let mut i: usize = 0;
    assert(text::views(lines@) =~= head + rows.take(0));
    while i < n
        invariant
            i <= n,
            n == shown@.len(),
            rows == shown@.map_values(|s: ShownResult| csv_line(s)),
            text::views(lines@) == head + rows.take(i as int),
        decreases n - i,
    {
        let line = csv_row(&shown[i]);
        proof {
            text::lemma_views_push(lines@, line);
            assert(head + rows.take(i + 1) =~= (head + rows.take(i as int)).push(rows[i as int]));
        }
        lines.push(line);
        i += 1;
    }
    assert(rows.take(n as int) =~= rows);
    text::write_lines(&lines)
}

// ---- what is shown ----

/// The lines of the scan settings show each setting with its own number.
pub proof fn law_scan_params(cfg: ScanConfig, total_ips: nat)
    ensures
        ({
            let lines = scan_param_lines(cfg, total_ips);
            &&& lines.len() == 7
            &&& lines[0] == "━━━ 延迟扫描参数 ━━━"@
            &&& lines[1] == "  模式        : "@ + cfg.mode@
            &&& lines[2] == "  端口        : "@ + text::decimal(cfg.port as nat)
            &&& lines[3] == "  并发数      : "@ + text::decimal(cfg.concurrency as nat)
            &&& lines[4] == "  延迟上限    : "@ + text::decimal(cfg.delay_threshold as nat) + " ms"@
            &&& lines[5] == "  Ping 次数   : "@ + text::decimal(cfg.ping_count as nat)
            &&& lines[6] == "  IP 总数     : "@ + text::decimal(total_ips)
        }),
{
    reveal_strlit("");
    let lines = scan_param_lines(cfg, total_ips);
    assert(lines[2] =~= "  端口        : "@ + text::decimal(cfg.port as nat));
    assert(lines[3] =~= "  并发数      : "@ + text::decimal(cfg.concurrency as nat));
    assert(lines[5] =~= "  Ping 次数   : "@ + text::decimal(cfg.ping_count as nat));
    assert(lines[6] =~= "  IP 总数     : "@ + text::decimal(total_ips));
}

/// The lines of the speed settings show each setting with its own number; a filter adds one line with
/// its regions after the mode, and changes nothing else.
pub proof fn law_speed_params(config: Config, regions: Seq<Seq<char>>)
    ensures
        ({
            let cfg = config.speed_test;
            let lines = speed_param_lines(config, None);
            &&& lines.len() == 11
            &&& lines[0] == "━━━ 测速参数 ━━━"@
            &&& lines[1] == "  模式          : "@ + cfg.mode@
            &&& lines[2] == "  测速数量      : top "@ + text::decimal(cfg.top_n as nat)
            &&& lines[3] == "  并发连接数    : "@ + text::decimal(cfg.download_threads as nat)
                + " 条/IP（多线程下载）"@
            &&& lines[4] == "  同时测速 IP   : "@ + text::decimal(cfg.speed_concurrency as nat)
                + " 个"@
            &&& lines[5] == "  每连接下载量  : "@ + text::decimal(
                (cfg.download_bytes / 1048576) as nat,
            ) + " MB"@
            &&& lines[6] == "  持续时长      : "@ + text::decimal(cfg.duration_ms as nat) + " ms"@
            &&& lines[7] == "  评分公式      : speed×0.6 - latency×0.3 - loss×0.1"@
            &&& lines[8].len() == 0
            &&& lines[9] == "  IP                  延迟     速度        评分"@
            &&& lines[10] == "  ────────────────────────────────────────────────────"@
            &&& speed_param_lines(config, Some(regions)) == lines.insert(
                2,
                "  地区筛选      : "@ + text::joined(regions, ", "@),
            )
        }),
{
    reveal_strlit("");
    reveal_strlit("  ");
    reveal_strlit("────────────────────────────────────────────────────");
    reveal_strlit("  ────────────────────────────────────────────────────");
    let cfg = config.speed_test;
    let lines = speed_param_lines(config, None);
    assert(lines[2] =~= "  测速数量      : top "@ + text::decimal(cfg.top_n as nat));
    assert(cfg.download_bytes / 1024 / 1024 == cfg.download_bytes / 1048576);
    assert(lines[10] =~= "  ────────────────────────────────────────────────────"@);
    assert(speed_param_lines(config, Some(regions)) =~= lines.insert(
        2,
        "  地区筛选      : "@ + text::joined(regions, ", "@),
    ));
}

/// The lines of the summary tell how many results there are and then each edge location, six characters
/// wide, with its count; without results one line tells that there are none.
pub proof fn law_summary_lines(total: nat, counts: Seq<(Seq<char>, nat)>, i: int)
    requires
        total > 0,
        0 <= i < counts.len(),
    ensures
        summary_lines(0, counts) == seq!["延迟扫描：未找到可用 IP"@],
        summary_lines(total, counts).len() == counts.len() + 1,
        summary_lines(total, counts)[0] == "\n延迟扫描完成  共 "@ + text::decimal(total)
            + " 个可用 IP"@,
        summary_lines(total, counts)[i + 1] == "  "@ + counts[i].0 + text::padding(counts[i].0, 6)
            + "  "@ + text::decimal(counts[i].1) + " 个"@,
{
}

/// A latency is green below 100 ms, red from 200 ms on, and yellow between; a speed is green where it is
/// 5 MB/s or more, yellow where it is 1 MB/s or more but not that, and red otherwise; a score is green
/// where it is not negative, and yellow otherwise. What was not measured has no colour.
pub proof fn law_shades(ms: u64, m: Metric)
    ensures
        delay_shade(ms) is Green <==> ms < 100,
        delay_shade(ms) is Yellow <==> 100 <= ms < 200,
        delay_shade(ms) is Red <==> ms >= 200,
        ({
            let fast = m.is_number() && m.rank() >= 0x4014_0000_0000_0000;
            let fair = m.is_number() && m.rank() >= 0x3ff0_0000_0000_0000;
            &&& speed_shade(Some(m)) is Green <==> fast
            &&& speed_shade(Some(m)) is Yellow <==> fair && !fast
            &&& speed_shade(Some(m)) is Red <==> !fair
        }),
        score_shade(Some(m)) is Green <==> m.is_number() && m.rank() >= 0,
        score_shade(Some(m)) is Yellow <==> !(m.is_number() && m.rank() >= 0),
        speed_shade(None) is Plain,
        score_shade(None) is Plain,
{
}

/// A row shows the place and every field of its result, each where it belongs; the edge location is
/// shown by its name where it has one and by its code where it has none.
pub proof fn law_row(
    row: TableRow,
    place: nat,
    shown: ShownResult,
    names: Map<Seq<char>, Seq<char>>,
)
    requires
        shows(row, place, shown, names),
    ensures
        row.place == place,
        row.ip@ == shown.result.ip@,
        row.port == shown.result.port,
        row.delay_ms == shown.result.delay_ms,
        row.colo@ == shown.result.colo@,
        names.contains_key(shown.result.colo@) ==> row.city@ == names[shown.result.colo@],
        !names.contains_key(shown.result.colo@) ==> row.city@ == shown.result.colo@,
        shown.result.speed_mbps is Some ==> row.speed@ == shown.speed@ + " MB/s"@,
        shown.result.speed_mbps is None ==> row.speed@ == "-"@,
        shown.result.score is Some ==> row.score@ == shown.score@,
        shown.result.score is None ==> row.score@ == "-"@,
        row.delay_shade == delay_shade(shown.result.delay_ms),
        row.speed_shade == speed_shade(shown.result.speed_mbps),
        row.score_shade == score_shade(shown.result.score),
{
}

/// The line of a result in the file has six fields, between commas: the address, the port, the latency,
/// the edge location, the speed and the score. What was not measured is empty.
pub proof fn law_csv_line(shown: ShownResult)
    ensures
        csv_line(shown) == text::joined(
            seq![
                shown.result.ip@,
                text::decimal(shown.result.port as nat),
                text::decimal(shown.result.delay_ms as nat),
                shown.result.colo@,
                if shown.result.speed_mbps is Some {
                    shown.speed@
                } else {
                    Seq::empty()
                },
                if shown.result.score is Some {
                    shown.score@
                } else {
                    Seq::empty()
                },
            ],
            ","@,
        ),
{
    reveal_with_fuel(text::joined, 7);
    let r = shown.result;
    let a = r.ip@;
    let b = text::decimal(r.port as nat);
    let c = text::decimal(r.delay_ms as nat);
    let d = r.colo@;
    let e = if r.speed_mbps is Some {
        shown.speed@
    } else {
        Seq::empty()
    };
    let f = if r.score is Some {
        shown.score@
    } else {
        Seq::empty()
    };
    assert(seq![a, b, c, d, e, f].drop_last() =~= seq![a, b, c, d, e]);
    assert(seq![a, b, c, d, e].drop_last() =~= seq![a, b, c, d]);
    assert(seq![a, b, c, d].drop_last() =~= seq![a, b, c]);
    assert(seq![a, b, c].drop_last() =~= seq![a, b]);
    assert(seq![a, b].drop_last() =~= seq![a]);
    assert(csv_line(shown) =~= a + ","@ + b + ","@ + c + ","@ + d + ","@ + e + ","@ + f);
}

/// The file starts with the names of the fields, and each further result adds its line at the end.
pub proof fn law_csv_file(shown: Seq<ShownResult>, next: ShownResult)
    ensures
        csv_file(Seq::empty()) == "ip,port,delay_ms,colo,speed_mbps,score"@.push('\n'),
        csv_file(shown.push(next)) == csv_file(shown) + csv_line(next).push('\n'),
{
    let head = "ip,port,delay_ms,colo,speed_mbps,score"@;
    let line = |s: ShownResult| csv_line(s);
    let none = Seq::<ShownResult>::empty();
    assert(seq![head] + none.map_values(line) =~= seq![head]);
    text::law_line_by_line(seq![head], Seq::empty(), head);
    let before = seq![head] + shown.map_values(line);
    assert(seq![head] + shown.push(next).map_values(line) =~= before + seq![csv_line(next)]);
    text::law_line_by_line(before, seq![csv_line(next)], csv_line(next));
}

} // verus!
