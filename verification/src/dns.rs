//! Publishing the best addresses as DNS records.
use crate::config;
use crate::config::{Config, DnsConfig};
use crate::metric::Metric;
use crate::order;
use crate::text;
use crate::types::IpResult;
use vstd::prelude::*;

verus! {

// ---- which addresses ----

/// Whether a result is fast enough to be published: where no positive speed is wanted, or where its
/// speed, taken as zero if it was not measured, reaches the speed that is wanted.
pub open spec fn eligible(r: IpResult, min_speed: Metric) -> bool {
    ||| min_speed.is_number() && min_speed.rank() <= 0
    ||| (match r.speed_mbps {
        Some(s) => s,
        None => Metric { bits: 0 },
    }).at_least(min_speed)
}

/// The first `n` items, or all where there are fewer.
pub open spec fn first_items<T>(s: Seq<T>, n: nat) -> Seq<T> {
    if n <= s.len() {
        s.take(n as int)
    } else {
        s
    }
}

/// The results that are published: the first of those that are fast enough.
pub open spec fn selection(s: Seq<IpResult>, min_speed: Metric, max_records: nat) -> Seq<IpResult> {
    first_items(s.filter(|r: IpResult| eligible(r, min_speed)), max_records)
}

fn is_eligible(r: &IpResult, min_speed: Metric) -> (b: bool)
    ensures
        b == eligible(*r, min_speed),
{
    if min_speed.number() && min_speed.to_rank() <= 0 {
        return true;
    }
    let speed = match r.speed_mbps {
        Some(s) => s,
        None => Metric::zero(),
    };
    speed.reaches(min_speed)
}

/// The results that are published.
pub fn select_records(results: &Vec<IpResult>, min_speed: Metric, max_records: usize) -> (r: Vec<
    IpResult,
>)
    ensures
        r@ == selection(results@, min_speed, max_records as nat),
{
    let ghost pred = |r: IpResult| eligible(r, min_speed);
    let n: usize = results.len();
    let mut out: Vec<IpResult> = Vec::new();
    let mut i: usize = 0;
    proof {
        reveal(Seq::filter);
    }
    while i < n
        invariant
            i <= n,
            n == results@.len(),
            pred == (|r: IpResult| eligible(r, min_speed)),
            out@ == results@.take(i as int).filter(pred),
        decreases n - i,
    {
        proof {
            reveal(Seq::filter);
            assert(results@.take(i + 1).drop_last() =~= results@.take(i as int));
            assert(results@.take(i + 1).last() == results@[i as int]);
        }
        if is_eligible(&results[i], min_speed) {
            out.push(results[i].clone());
        }
        i += 1;
    }
    assert(results@.take(n as int) =~= results@);
    let ghost all = out@;
    out.truncate(max_records);
    assert(out@ =~= first_items(all, max_records as nat));
    out
}

/// As many results are published as records are kept, or as are fast enough where these are fewer;
/// each of them is fast enough, and they keep their order.
pub proof fn law_selection(s: Seq<IpResult>, min_speed: Metric, max_records: nat)
    ensures
        selection(s, min_speed, max_records).len() <= max_records,
        ({
            let n = s.filter(|r: IpResult| eligible(r, min_speed)).len();
            selection(s, min_speed, max_records).len() == if n < max_records {
                n
            } else {
                max_records
            }
        }),
        forall|i: int|
            0 <= i < selection(s, min_speed, max_records).len() ==> {
                &&& eligible(#[trigger] selection(s, min_speed, max_records)[i], min_speed)
                &&& s.contains(selection(s, min_speed, max_records)[i])
            },
        selection(s, min_speed, max_records).is_prefix_of(
            s.filter(|r: IpResult| eligible(r, min_speed)),
        ),
{
    broadcast use vstd::seq_lib::group_filter_ensures;

    let pred = |r: IpResult| eligible(r, min_speed);
    let f = s.filter(pred);
    let sel = selection(s, min_speed, max_records);
    assert forall|i: int| 0 <= i < sel.len() implies {
        &&& eligible(#[trigger] sel[i], min_speed)
        &&& s.contains(sel[i])
    } by {
        assert(sel[i] == f[i]);
        assert(pred(f[i]));
        order::lemma_filtered_within(s, pred, i);
    }
    assert(sel =~= f.subrange(0, sel.len() as int));
}

// ---- requests ----

/// The method of a request.
#[derive(Clone, Copy, Debug, PartialEq, Eq, Structural)]
pub enum Method {
    Get,
    Delete,
    Post,
}

/// A request to the service that keeps the records.
#[derive(Debug)]
pub struct HttpCall {
    pub method: Method,
    pub url: String,
    /// The value of the authorization header.
    pub authorization: String,
    /// The JSON body, where there is one.
    pub body: Option<String>,
}

/// The texts of a request.
pub struct CallText {
    pub method: Method,
    pub url: Seq<char>,
    pub authorization: Seq<char>,
    pub body: Option<Seq<char>>,
}

impl View for HttpCall {
    type V = CallText;

    open spec fn view(&self) -> CallText {
        CallText {
            method: self.method,
            url: self.url@,
            authorization: self.authorization@,
            body: text::opt_view(self.body),
        }
    }
}

/// Where the records of a zone are kept.
pub open spec fn records_url(zone_id: Seq<char>) -> Seq<char> {
    "https://api.cloudflare.com"@ + "/client/v4/zones/"@ + zone_id + "/dns_records"@
}

/// The request for the records of a name.
pub open spec fn list_call_text(token: Seq<char>, zone_id: Seq<char>, name: Seq<char>) -> CallText {
    CallText {
        method: Method::Get,
        url: records_url(zone_id) + "?name="@ + name + "&per_page=100"@,
        authorization: "Bearer "@ + token,
        body: None,
    }
}

/// The request to delete a record.
pub open spec fn delete_call_text(token: Seq<char>, zone_id: Seq<char>, id: Seq<char>) -> CallText {
    CallText {
        method: Method::Delete,
        url: records_url(zone_id) + "/"@ + id,
        authorization: "Bearer "@ + token,
        body: None,
    }
}

/// The body of the request to create a record.
pub open spec fn record_json(
    record_type: Seq<char>,
    name: Seq<char>,
    ip: Seq<char>,
    ttl: nat,
) -> Seq<char> {
    "{\"type\":\""@ + record_type + "\",\"name\":\""@ + name + "\",\"content\":\""@ + ip
        + "\",\"ttl\":"@ + text::decimal(ttl) + ",\"proxied\":false}"@
}

/// The request to create a record.
pub open spec fn create_call_text(
    token: Seq<char>,
    zone_id: Seq<char>,
    name: Seq<char>,
    ip: Seq<char>,
    record_type: Seq<char>,
    ttl: nat,
) -> CallText {
    CallText {
        method: Method::Post,
        url: records_url(zone_id),
        authorization: "Bearer "@ + token,
        body: Some(record_json(record_type, name, ip, ttl)),
    }
}

fn zone_records_url(zone_id: &str) -> (r: String)
    ensures
        r@ == records_url(zone_id@),
{
    let mut url: String = "https://api.cloudflare.com".to_owned();
    url.append("/client/v4/zones/");
    url.append(zone_id);
    url.append("/dns_records");
    url
}

fn bearer(token: &str) -> (r: String)
    ensures
        r@ == "Bearer "@ + token@,
{
    let mut out: String = "Bearer ".to_owned();
    out.append(token);
    out
}

/// The request for the records of a name.
pub fn list_call(token: &str, zone_id: &str, name: &str) -> (r: HttpCall)
    ensures
        r@ == list_call_text(token@, zone_id@, name@),
{
    let mut url = zone_records_url(zone_id);
    url.append("?name=");
    url.append(name);
    url.append("&per_page=100");
    HttpCall { method: Method::Get, url, authorization: bearer(token), body: None }
}

/// The request to delete a record.
pub fn delete_record(token: &str, zone_id: &str, record_id: &str) -> (r: HttpCall)
    ensures
        r@ == delete_call_text(token@, zone_id@, record_id@),
{
    let mut url = zone_records_url(zone_id);
    url.append("/");
    url.append(record_id);
    HttpCall { method: Method::Delete, url, authorization: bearer(token), body: None }
}

/// The request to create a record.
pub fn create_call(
    token: &str,
    zone_id: &str,
    name: &str,
    ip: &str,
    record_type: &str,
    ttl: u32,
) -> (r: HttpCall)
    ensures
        r@ == create_call_text(token@, zone_id@, name@, ip@, record_type@, ttl as nat),
{
    let url = zone_records_url(zone_id);
    let mut body: String = "{\"type\":\"".to_owned();
    body.append(record_type);
    body.append("\",\"name\":\"");
    body.append(name);
    body.append("\",\"content\":\"");
    body.append(ip);
    body.append("\",\"ttl\":");
    text::push_decimal(&mut body, ttl as u64);
    body.append(",\"proxied\":false}");
    HttpCall { method: Method::Post, url, authorization: bearer(token), body: Some(body) }
}

// ---- what `serde_json` is trusted for ----

/// The truth value that a JSON text has under a key, as `serde_json` reads it: `None` where the
/// text is no JSON, `Some(None)` where there is no truth value. A function of the two texts alone.
pub uninterp spec fn json_bool(body: Seq<char>, key: Seq<char>) -> Option<Option<bool>>;

/// Calls `serde_json::from_str`, and `Value::as_bool` on what stands under the key; `json_bool`
/// names the result.
#[verifier::external_body]
fn bool_under(body: &str, key: &str) -> (r: Option<Option<bool>>)
    ensures
        r == json_bool(body@, key@),
{
    let v: serde_json::Value = serde_json::from_str(body).ok()?;
    Some(v[key].as_bool())
}

/// The texts that the items of a JSON list have under a key, as `serde_json` reads them: the list
/// stands under another key of the whole. `None` where the text is no JSON, `Some(None)` where
/// there is no list, and no text where an item has none. A function of the three texts alone.
pub uninterp spec fn json_strings(
    body: Seq<char>,
    list: Seq<char>,
    key: Seq<char>,
) -> Option<Option<Seq<Option<Seq<char>>>>>;

/// The texts of a list that may be missing, of strings that may be missing.
pub open spec fn strings_view(r: Option<Option<Vec<Option<String>>>>) -> Option<
    Option<Seq<Option<Seq<char>>>>,
> {
    match r {
        Some(Some(v)) => Some(Some(v@.map_values(|s: Option<String>| text::opt_view(s)))),
        Some(None) => Some(None),
        None => None,
    }
}

/// Calls `serde_json::from_str`, `Value::as_array` on what stands under `list`, and `Value::as_str`
/// on what stands under `key` in each item; `json_strings` names the result.
#[verifier::external_body]
fn strings_under(body: &str, list: &str, key: &str) -> (r: Option<Option<Vec<Option<String>>>>)
    ensures
        strings_view(r) == json_strings(body@, list@, key@),
{
    let v: serde_json::Value = serde_json::from_str(body).ok()?;
    Some(v[list].as_array().map(|a| a.iter().map(|r| r[key].as_str().map(String::from)).collect()))
}

// ---- replies ----

/// The texts that are there, in their order.
pub open spec fn present(s: Seq<Option<Seq<char>>>) -> Seq<Seq<char>>
    decreases s.len(),
{
    if s.len() == 0 {
        Seq::empty()
    } else {
        match s.last() {
            Some(t) => present(s.drop_last()).push(t),
            None => present(s.drop_last()),
        }
    }
}

/// The identifiers in a list of records; no list is an empty one.
pub open spec fn listed(list: Option<Seq<Option<Seq<char>>>>) -> Seq<Seq<char>> {
    match list {
        Some(s) => present(s),
        None => Seq::empty(),
    }
}

/// The identifiers in a list of records; records without one are passed over.
pub fn listed_ids(list: Option<Vec<Option<String>>>) -> (r: Vec<String>)
    ensures
        text::views(r@) == listed(
            match list {
                Some(v) => Some(v@.map_values(|s: Option<String>| text::opt_view(s))),
                None => None,
            },
        ),
{
    broadcast use text::lemma_views_push;

    let mut out: Vec<String> = Vec::new();
    match list {
        Some(v) => {
            let ghost all = v@.map_values(|s: Option<String>| text::opt_view(s));
            let n: usize = v.len();
            let mut i: usize = 0;
            assert(text::views(out@) =~= present(all.take(0)));
            while i < n
                invariant
                    i <= n,
                    n == v@.len(),
                    all == v@.map_values(|s: Option<String>| text::opt_view(s)),
                    text::views(out@) == present(all.take(i as int)),
                decreases n - i,
            {
                assert(all.take(i + 1).drop_last() =~= all.take(i as int));
                assert(all.take(i + 1).last() == text::opt_view(v@[i as int]));
                match &v[i] {
                    Some(s) => {
                        out.push(s.clone());
                    },
                    None => {},
                }
                i += 1;
            }
            assert(all.take(n as int) =~= all);
        },
        None => {
            assert(text::views(out@) =~= Seq::<Seq<char>>::empty());
        },
    }
    out
}

/// What the reply to a request for records says: the identifiers, or why it cannot be read.
pub open spec fn list_reply(body: Seq<char>) -> Result<Seq<Seq<char>>, Seq<char>> {
    match json_strings(body, "result"@, "id"@) {
        Some(list) => Ok(listed(list)),
        None => Err("解析 list_records 响应失败: "@ + body),
    }
}

/// Reads the reply to a request for records.
pub fn read_list_reply(body: &str) -> (r: Result<Vec<String>, String>)
    ensures
        match list_reply(body@) {
            Ok(ids) => r matches Ok(v) && text::views(v@) == ids,
            Err(e) => r matches Err(s) && s@ == e,
        },
{
    match strings_under(body, "result", "id") {
        Some(list) => Ok(listed_ids(list)),
        None => {
            let mut out: String = "解析 list_records 响应失败: ".to_owned();
            out.append(body);
            Err(out)
        },
    }
}

/// Whether a record was created, where `success` is what the reply says of it.
pub open spec fn creation(
    success: Option<Option<bool>>,
    name: Seq<char>,
    reply: Seq<char>,
) -> Result<(), Seq<char>> {
    match success {
        None => Err("解析 create_record 响应失败: "@ + reply),
        Some(Some(true)) => Ok(()),
        Some(_) => Err("创建 DNS 记录失败 "@ + name + ": "@ + reply),
    }
}

/// Whether a record was created, where `success` is what the reply says of it.
pub fn creation_verdict(success: Option<Option<bool>>, name: &str, reply: &str) -> (r: Result<
    (),
    String,
>)
    ensures
        match creation(success, name@, reply@) {
            Ok(_) => r is Ok,
            Err(e) => r matches Err(s) && s@ == e,
        },
{
    match success {
        None => {
            let mut out: String = "解析 create_record 响应失败: ".to_owned();
            out.append(reply);
            Err(out)
        },
        Some(Some(true)) => Ok(()),
        Some(_) => {
            let mut out: String = "创建 DNS 记录失败 ".to_owned();
            out.append(name);
            out.append(": ");
            out.append(reply);
            Err(out)
        },
    }
}

/// Reads the reply to a request to create a record.
pub fn read_create_reply(name: &str, reply: &str) -> (r: Result<(), String>)
    ensures
        match creation(json_bool(reply@, "success"@), name@, reply@) {
            Ok(_) => r is Ok,
            Err(e) => r matches Err(s) && s@ == e,
        },
{
    creation_verdict(bool_under(reply, "success"), name, reply)
}

// ---- the log ----

/// What is logged of a record that was created.
pub open spec fn success_text(name: Seq<char>, ip: Seq<char>, delay_ms: nat) -> Seq<char> {
    "[成功] "@ + name + " → "@ + ip + "  延迟 "@ + text::decimal(delay_ms) + "ms"@
}

/// What is logged of a record that was not created.
pub open spec fn failure_text(name: Seq<char>, ip: Seq<char>, reason: Seq<char>) -> Seq<char> {
    "[失败] "@ + name + " → "@ + ip + "  "@ + reason
}

/// The last line of the log.
pub open spec fn closing_text(ok: nat, failed: nat) -> Seq<char> {
    "同步完成  成功 "@ + text::decimal(ok) + "  失败 "@ + text::decimal(failed)
}

fn success_line(name: &str, r: &IpResult) -> (line: String)
    ensures
        line@ == success_text(name@, r.ip@, r.delay_ms as nat),
{
    let mut out: String = "[成功] ".to_owned();
    out.append(name);
    out.append(" → ");
    out.append(r.ip.as_str());
    out.append("  延迟 ");
    text::push_decimal(&mut out, r.delay_ms);
    out.append("ms");
    out
}

fn failure_line(name: &str, r: &IpResult, reason: &str) -> (line: String)
    ensures
        line@ == failure_text(name@, r.ip@, reason@),
{
    let mut out: String = "[失败] ".to_owned();
    out.append(name);
    out.append(" → ");
    out.append(r.ip.as_str());
    out.append("  ");
    out.append(reason);
    out
}

// ---- the synchronisation ----

/// What is being done for the record at hand.
#[derive(Clone, Copy, Debug, PartialEq, Eq, Structural)]
pub enum Phase {
    /// Its name is looked up.
    List,
    /// The records found are deleted.
    Delete,
    /// The new record is created.
    Create,
}

/// What to do next.
#[derive(Debug)]
pub enum SyncStep {
    /// Send this request and hand back the reply.
    Send(HttpCall),
    /// No name can be made, for want of a domain.
    NoDomain,
    /// Everything is done.
    Finished,
}

/// The publication of results, one record after the other: the records that have its name are
/// looked up and deleted, and the new one is created.
pub struct DnsSync {
    token: String,
    zone_id: String,
    dns: DnsConfig,
    /// The results that are published.
    records: Vec<IpResult>,
    /// The record at hand.
    at: usize,
    phase: Phase,
    /// The records to delete.
    ids: Vec<String>,
    /// How many of them were gone through.
    deleted: usize,
    log: Vec<String>,
    ok: usize,
    failed: usize,
    /// Why each record that was gone through was not created; `None` for one that was.
    faults: Ghost<Seq<Option<Seq<char>>>>,
}

/// What is logged of a record, where `fault` is why it was not created, if it was not.
pub open spec fn log_text(name: Seq<char>, r: IpResult, fault: Option<Seq<char>>) -> Seq<char> {
    match fault {
        None => success_text(name, r.ip@, r.delay_ms as nat),
        Some(reason) => failure_text(name, r.ip@, reason),
    }
}

/// Why a record was not created, if it was not.
pub open spec fn fault_of(outcome: Result<(), String>) -> Option<Seq<char>> {
    match outcome {
        Ok(_) => None,
        Err(e) => Some(e@),
    }
}

/// How many records were created.
pub open spec fn created_count(faults: Seq<Option<Seq<char>>>) -> nat
    decreases faults.len(),
{
    if faults.len() == 0 {
        0
    } else {
        created_count(faults.drop_last()) + (if faults.last() is None {
            1nat
        } else {
            0nat
        })
    }
}

/// What a publication holds.
pub struct DnsSyncView {
    pub token: Seq<char>,
    pub zone_id: Seq<char>,
    pub dns: DnsConfig,
    pub records: Seq<IpResult>,
    pub at: usize,
    pub phase: Phase,
    pub ids: Seq<String>,
    pub deleted: usize,
    pub log: Seq<String>,
    pub ok: usize,
    pub failed: usize,
    pub faults: Seq<Option<Seq<char>>>,
}

impl View for DnsSync {
    type V = DnsSyncView;

    closed spec fn view(&self) -> DnsSyncView {
        DnsSyncView {
            token: self.token@,
            zone_id: self.zone_id@,
            dns: self.dns,
            records: self.records@,
            at: self.at,
            phase: self.phase,
            ids: self.ids@,
            deleted: self.deleted,
            log: self.log@,
            ok: self.ok,
            failed: self.failed,
            faults: self.faults@,
        }
    }
}

impl DnsSync {
    /// The name of the record at position `i`.
    pub open spec fn name_of(self, i: int) -> Seq<char> {
        config::record_name(self@.dns.domain->0@, self@.dns.max_records, (i + 1) as nat)
    }

    /// What holds throughout: each record that was gone through has its line in the log, and is
    /// counted.
    pub open spec fn well_formed(self) -> bool {
        &&& self@.at <= self@.records.len()
        &&& self@.phase is Delete ==> self@.deleted < self@.ids.len()
        &&& self@.log.len() == self@.at
        &&& self@.faults.len() == self@.at
        &&& self@.ok == created_count(self@.faults)
        &&& self@.ok + self@.failed == self@.at
        &&& forall|i: int|
            0 <= i < self@.at ==> (#[trigger] self@.log[i])@ == log_text(
                self.name_of(i),
                self@.records[i],
                self@.faults[i],
            )
    }

    /// Whether a request is to be sent.
    pub open spec fn waiting(self) -> bool {
        self@.at < self@.records.len() && self@.dns.domain is Some
    }

    /// The request to be sent.
    pub open spec fn call(self) -> CallText {
        let name = self.name_of(self@.at as int);
        match self@.phase {
            Phase::List => list_call_text(self@.token, self@.zone_id, name),
            Phase::Delete => delete_call_text(
                self@.token,
                self@.zone_id,
                self@.ids[self@.deleted as int]@,
            ),
            Phase::Create => create_call_text(
                self@.token,
                self@.zone_id,
                name,
                self@.records[self@.at as int].ip@,
                self@.dns.record_type@,
                self@.dns.ttl as nat,
            ),
        }
    }

    /// The name of the record at hand.
    fn name(&self) -> (r: String)
        requires
            self.well_formed(),
            self.waiting(),
        ensures
            r@ == self.name_of(self@.at as int),
    {
        let n: usize = self.records.len();
        assert(self.at < n);
        self.dns.domain_for(self.at + 1).unwrap()
    }

    /// Whether nothing but the progress differs.
    pub open spec fn same_task(self, other: DnsSync) -> bool {
        &&& self@.token == other@.token
        &&& self@.zone_id == other@.zone_id
        &&& self@.dns == other@.dns
        &&& self@.records == other@.records
    }

    /// Whether the record at hand is left as it is, apart from its phase.
    pub open spec fn same_record(self, other: DnsSync) -> bool {
        &&& self@.at == other@.at
        &&& self@.log == other@.log
        &&& self@.ok == other@.ok
        &&& self@.failed == other@.failed
        &&& self@.faults == other@.faults
    }

    /// Whether the next record is at hand, after the last one was created or, where there is a
    /// fault, was not.
    pub open spec fn advanced(self, other: DnsSync, fault: Option<Seq<char>>) -> bool {
        &&& self@.at == other@.at + 1
        &&& self@.phase is List
        &&& self@.faults == other@.faults.push(fault)
        &&& text::views(self@.log) == text::views(other@.log).push(
            log_text(other.name_of(other@.at as int), other@.records[other@.at as int], fault),
        )
        &&& self@.ok == other@.ok + (if fault is None {
            1int
        } else {
            0
        })
        &&& self@.failed == other@.failed + (if fault is None {
            0int
        } else {
            1
        })
    }

    /// The publication of `records`, of which none was gone through.
    pub fn new(token: String, zone_id: String, dns: DnsConfig, records: Vec<IpResult>) -> (r: Self)
        ensures
            r.well_formed(),
            r@.token == token@,
            r@.zone_id == zone_id@,
            r@.dns == dns,
            r@.records == records@,
            r@.at == 0,
            r@.phase is List,
            r@.log.len() == 0,
            r@.ok == 0,
            r@.failed == 0,
    {
        DnsSync {
            token,
            zone_id,
            dns,
            records,
            at: 0,
            phase: Phase::List,
            ids: Vec::new(),
            deleted: 0,
            log: Vec::new(),
            ok: 0,
            failed: 0,
            faults: Ghost(Seq::empty()),
        }
    }

    /// How many records are published.
    pub fn record_count(&self) -> (r: usize)
        ensures
            r == self@.records.len(),
    {
        self.records.len()
    }

    /// What to do next.
    pub fn next(&self) -> (r: SyncStep)
        requires
            self.well_formed(),
        ensures
            match r {
                SyncStep::Finished => self@.at == self@.records.len(),
                SyncStep::NoDomain => self@.at < self@.records.len() && self@.dns.domain is None,
                SyncStep::Send(call) => self.waiting() && call@ == self.call(),
            },
    {
        if self.at == self.records.len() {
            return SyncStep::Finished;
        }
        let name = match self.dns.domain_for(self.at + 1) {
            Some(name) => name,
            None => {
                return SyncStep::NoDomain;
            },
        };
        let token = self.token.as_str();
        let zone_id = self.zone_id.as_str();
        let call = match self.phase {
            Phase::List => list_call(token, zone_id, name.as_str()),
            Phase::Delete => delete_record(token, zone_id, self.ids[self.deleted].as_str()),
            Phase::Create => create_call(
                token,
                zone_id,
                name.as_str(),
                self.records[self.at].ip.as_str(),
                self.dns.record_type.as_str(),
                self.dns.ttl,
            ),
        };
        SyncStep::Send(call)
    }

    /// What the lookup of a name found, or why it failed.
    pub open spec fn lookup_result(reply: Result<Seq<char>, Seq<char>>) -> Result<
        Seq<Seq<char>>,
        Seq<char>,
    > {
        match reply {
            Ok(body) => list_reply(body),
            Err(e) => Err(e),
        }
    }

    /// Whether the creation of a record succeeded, or why it failed.
    pub open spec fn creation_result(name: Seq<char>, reply: Result<Seq<char>, Seq<char>>) -> Result<
        (),
        Seq<char>,
    > {
        match reply {
            Ok(body) => creation(json_bool(body, "success"@), name, body),
            Err(e) => Err(e),
        }
    }

    /// Takes the reply to the lookup of a name into account. A lookup that fails deletes nothing,
    /// and the new record is created all the same. Gives the line that is said of it, if any.
    pub fn on_listed(&mut self, found: Result<Vec<String>, String>) -> (r: Option<String>)
        requires
            old(self).well_formed(),
            old(self).waiting(),
            old(self)@.phase is List,
        ensures
            final(self).well_formed(),
            final(self).same_task(*old(self)),
            final(self).same_record(*old(self)),
            match found {
                Ok(ids) => {
                    &&& r is None
                    &&& final(self)@.ids == ids@
                    &&& final(self)@.deleted == 0
                    &&& ids@.len() > 0 ==> final(self)@.phase is Delete
                    &&& ids@.len() == 0 ==> final(self)@.phase is Create
                },
                Err(e) => {
                    &&& final(self)@.phase is Create
                    &&& r matches Some(s) && s@ == "  [查询失败] "@ + old(self).name_of(
                        old(self)@.at as int,
                    ) + ": "@ + e@
                },
            },
    {
        match found {
            Ok(ids) => {
                self.phase = if ids.is_empty() {
                    Phase::Create
                } else {
                    Phase::Delete
                };
                self.ids = ids;
                self.deleted = 0;
                None
            },
            Err(e) => {
                self.phase = Phase::Create;
                let mut out: String = "  [查询失败] ".to_owned();
                let name = self.name();
                out.append(name.as_str());
                out.append(": ");
                out.append(e.as_str());
                Some(out)
            },
        }
    }

    /// Takes the outcome of a deletion into account; after the last one the new record is created,
    /// whether or not the deletions succeeded. Gives the line that is said of it.
    pub fn on_deleted(&mut self, outcome: Result<String, String>) -> (r: String)
        requires
            old(self).well_formed(),
            old(self).waiting(),
            old(self)@.phase is Delete,
        ensures
            final(self).well_formed(),
            final(self).same_task(*old(self)),
            final(self).same_record(*old(self)),
            final(self)@.ids == old(self)@.ids,
            final(self)@.deleted == old(self)@.deleted + 1,
            final(self)@.phase == if old(self)@.deleted + 1 < old(self)@.ids.len() {
                Phase::Delete
            } else {
                Phase::Create
            },
            ({
                let name = old(self).name_of(old(self)@.at as int);
                let id = old(self)@.ids[old(self)@.deleted as int]@;
                r@ == match outcome {
                    Ok(_) => "  [删除] "@ + name + " (id="@ + id + ")"@,
                    Err(e) => "  [删除失败] "@ + name + " id="@ + id + ": "@ + e@,
                }
            }),
    {
        let name = self.name();
        let id = self.ids[self.deleted].clone();
        let line = match outcome {
            Ok(_) => {
                let mut out: String = "  [删除] ".to_owned();
                out.append(name.as_str());
                out.append(" (id=");
                out.append(id.as_str());
                out.append(")");
                out
            },
            Err(e) => {
                let mut out: String = "  [删除失败] ".to_owned();
                out.append(name.as_str());
                out.append(" id=");
                out.append(id.as_str());
                out.append(": ");
                out.append(e.as_str());
                out
            },
        };
        let n: usize = self.ids.len();
        assert(self.deleted < n);
        self.deleted = self.deleted + 1;
        if self.deleted == n {
            self.phase = Phase::Create;
        }
        line
    }

    /// Takes the outcome of a creation into account: it is counted and logged, and the next record
    /// is at hand. Gives the line that is said of it.
    pub fn on_created(&mut self, outcome: Result<(), String>) -> (r: String)
        requires
            old(self).well_formed(),
            old(self).waiting(),
            old(self)@.phase is Create,
        ensures
            final(self).well_formed(),
            final(self).same_task(*old(self)),
            r@ == "  "@ + final(self)@.log.last()@,
            final(self).advanced(*old(self), fault_of(outcome)),
    {
        let name = self.name();
        let n: usize = self.records.len();
        assert(self.ok + self.failed < n);
        let ghost fault = fault_of(outcome);
        let line = match outcome {
            Ok(_) => {
                self.ok = self.ok + 1;
                success_line(name.as_str(), &self.records[self.at])
            },
            Err(e) => {
                self.failed = self.failed + 1;
                failure_line(name.as_str(), &self.records[self.at], e.as_str())
            },
        };
        let mut said: String = "  ".to_owned();
        said.append(line.as_str());
        let ghost before = *self;
        proof {
            text::lemma_views_push(before.log@, line);
            assert(before.faults@.push(fault).drop_last() =~= before.faults@);
        }
        self.log.push(line);
        self.faults = Ghost(self.faults@.push(fault));
        self.at = self.at + 1;
        self.phase = Phase::List;
        self.ids = Vec::new();
        self.deleted = 0;
        proof {
            assert forall|i: int| 0 <= i < self.at implies (#[trigger] self.log@[i])@ == log_text(
                self.name_of(i),
                self.records@[i],
                self.faults@[i],
            ) by {
                if i < before.at {
                    assert(self.log@[i] == before.log@[i]);
                }
            }
        }
        said
    }

    /// Takes the reply to the request at hand into account, whatever it was. Gives the line that is
    /// said of it, if any.
    pub fn on_reply(&mut self, reply: Result<String, String>) -> (r: Option<String>)
        requires
            old(self).well_formed(),
            old(self).waiting(),
        ensures
            final(self).well_formed(),
            final(self).same_task(*old(self)),
            ({
                let name = old(self).name_of(old(self)@.at as int);
                let answer = match reply {
                    Ok(s) => Ok::<Seq<char>, Seq<char>>(s@),
                    Err(e) => Err(e@),
                };
                match old(self)@.phase {
                    Phase::List => final(self).same_record(*old(self)) && match Self::lookup_result(
                        answer,
                    ) {
                        Ok(ids) => {
                            &&& r is None
                            &&& text::views(final(self)@.ids) == ids
                            &&& final(self)@.deleted == 0
                            &&& ids.len() > 0 ==> final(self)@.phase is Delete
                            &&& ids.len() == 0 ==> final(self)@.phase is Create
                        },
                        Err(e) => {
                            &&& final(self)@.phase is Create
                            &&& r matches Some(s) && s@ == "  [查询失败] "@ + name + ": "@ + e
                        },
                    },
                    Phase::Delete => {
                        let id = old(self)@.ids[old(self)@.deleted as int]@;
                        &&& final(self).same_record(*old(self))
                        &&& final(self)@.ids == old(self)@.ids
                        &&& final(self)@.deleted == old(self)@.deleted + 1
                        &&& final(self)@.phase == if old(self)@.deleted + 1 < old(self)@.ids.len() {
                            Phase::Delete
                        } else {
                            Phase::Create
                        }
                        &&& r matches Some(s) && s@ == match answer {
                            Ok(_) => "  [删除] "@ + name + " (id="@ + id + ")"@,
                            Err(e) => "  [删除失败] "@ + name + " id="@ + id + ": "@ + e,
                        }
                    },
                    Phase::Create => {
                        &&& r matches Some(s) && s@ == "  "@ + final(self)@.log.last()@
                        &&& final(self).advanced(
                            *old(self),
                            match Self::creation_result(name, answer) {
                                Ok(_) => None,
                                Err(e) => Some(e),
                            },
                        )
                    },
                }
            }),
    {
        match self.phase {
            Phase::List => {
                let found = match reply {
                    Ok(body) => read_list_reply(body.as_str()),
                    Err(e) => Err(e),
                };
                self.on_listed(found)
            },
            Phase::Delete => Some(self.on_deleted(reply)),
            Phase::Create => {
                let name = self.name();
                let outcome = match reply {
                    Ok(body) => read_create_reply(name.as_str(), body.as_str()),
                    Err(e) => Err(e),
                };
                Some(self.on_created(outcome))
            },
        }
    }

    /// The log, with a closing line.
    pub fn finish(self) -> (r: Vec<String>)
        requires
            self.well_formed(),
        ensures
            r@.len() == self@.log.len() + 1,
            forall|i: int| 0 <= i < self@.log.len() ==> r@[i] == self@.log[i],
            r@.last()@ == closing_text(self@.ok as nat, self@.failed as nat),
    {
        let mut log = self.log;
        let mut line: String = "同步完成  成功 ".to_owned();
        text::push_decimal(&mut line, self.ok as u64);
        line.append("  失败 ");
        text::push_decimal(&mut line, self.failed as u64);
        log.push(line);
        log
    }
}

// ---- the start ----

/// How a synchronisation starts.
pub enum SyncStart {
    /// Publication is switched off.
    Disabled,
    /// A setting is missing.
    Refused(String),
    /// There is nothing to publish.
    Nothing(String),
    /// There is.
    Ready(DnsSync),
}

/// What is said where there is nothing to publish, where `min_speed_text` is the printed speed that
/// is wanted.
pub open spec fn nothing_text(min_speed: Metric, min_speed_text: Seq<char>) -> Seq<char> {
    if min_speed.is_number() && min_speed.rank() > 0 {
        "没有速度达标（>= "@ + min_speed_text + " MB/s）的 IP 可同步"@
    } else {
        "没有可同步的 IP"@
    }
}

/// Starts the publication of the best of `results`, which are in the order of their rank.
pub fn begin_sync(results: &Vec<IpResult>, config: &Config, min_speed_text: &str) -> (r: SyncStart)
    ensures
        ({
            let dns = config.dns;
            let min_speed = config.speed_test.min_speed_mbps;
            let chosen = selection(results@, min_speed, dns.max_records as nat);
            match r {
                SyncStart::Disabled => !dns.enable,
                SyncStart::Refused(s) => dns.enable && (if dns.token is None {
                    s@ == "dns.token 未配置"@
                } else {
                    dns.zone_id is None && s@ == "dns.zone_id 未配置"@
                }),
                SyncStart::Nothing(s) => {
                    &&& dns.enable && dns.token is Some && dns.zone_id is Some
                    &&& chosen.len() == 0
                    &&& s@ == nothing_text(min_speed, min_speed_text@)
                },
                SyncStart::Ready(sync) => {
                    &&& dns.enable
                    &&& text::opt_view(dns.token) == Some(sync@.token)
                    &&& text::opt_view(dns.zone_id) == Some(sync@.zone_id)
                    &&& chosen.len() > 0
                    &&& sync.well_formed()
                    &&& sync@.records == chosen
                    &&& sync@.at == 0
                    &&& sync@.phase is List
                    &&& sync@.log.len() == 0
                    &&& sync@.dns.domain == dns.domain
                    &&& sync@.dns.max_records == dns.max_records
                    &&& sync@.dns.record_type == dns.record_type
                    &&& sync@.dns.ttl == dns.ttl
                },
            }
        }),
{
    let dns = &config.dns;
    if !dns.enable {
        return SyncStart::Disabled;
    }
    let token = match &dns.token {
        Some(t) => t.clone(),
        None => {
            return SyncStart::Refused("dns.token 未配置".to_owned());
        },
    };
    let zone_id = match &dns.zone_id {
        Some(z) => z.clone(),
        None => {
            return SyncStart::Refused("dns.zone_id 未配置".to_owned());
        },
    };
    let min_speed = config.speed_test.min_speed_mbps;
    let records = select_records(results, min_speed, dns.max_records);
    if records.is_empty() {
        if min_speed.is_positive() {
            let mut out: String = "没有速度达标（>= ".to_owned();
            out.append(min_speed_text);
            out.append(" MB/s）的 IP 可同步");
            return SyncStart::Nothing(out);
        }
        return SyncStart::Nothing("没有可同步的 IP".to_owned());
    }
    let settings = DnsConfig {
        enable: true,
        token: Some(token.clone()),
        zone_id: Some(zone_id.clone()),
        domain: dns.domain.clone(),
        record_type: dns.record_type.clone(),
        max_records: dns.max_records,
        ttl: dns.ttl,
    };
    SyncStart::Ready(DnsSync::new(token, zone_id, settings, records))
}

/// What is said where fewer addresses reached the speed that is wanted than records are kept.
pub fn shortage(chosen: usize, config: &Config) -> (r: Option<String>)
    ensures
        ({
            let min_speed = config.speed_test.min_speed_mbps;
            let max = config.dns.max_records;
            if min_speed.is_number() && min_speed.rank() > 0 && chosen < max {
                r matches Some(s) && s@ == "达标 IP 只有 "@ + text::decimal(chosen as nat)
                    + " 个，少于配置的 max_records="@ + text::decimal(max as nat) + "，仅同步这 "@
                    + text::decimal(chosen as nat) + " 条"@
            } else {
                r is None
            }
        }),
{
    if config.speed_test.min_speed_mbps.is_positive() && chosen < config.dns.max_records {
        let mut out: String = "达标 IP 只有 ".to_owned();
        text::push_decimal(&mut out, chosen as u64);
        out.append(" 个，少于配置的 max_records=");
        text::push_decimal(&mut out, config.dns.max_records as u64);
        out.append("，仅同步这 ");
        text::push_decimal(&mut out, chosen as u64);
        out.append(" 条");
        Some(out)
    } else {
        None
    }
}

// ---- laws ----

/// Two records of one publication are never created under the same name, unless a single record is
/// kept.
pub proof fn law_published_names_differ(sync: DnsSync, i: int, j: int)
    requires
        sync@.dns.max_records != 1,
        0 <= i < j,
    ensures
        sync.name_of(i) != sync.name_of(j),
{
    config::law_record_names_differ(
        sync.dns.domain->0@,
        sync.dns.max_records,
        (i + 1) as nat,
        (j + 1) as nat,
    );
}

/// A publication that is finished has one line for each record, which tells whether that record was
/// created or why not, and the counts are those of the lines.
pub proof fn law_finished_log(sync: DnsSync)
    requires
        sync.well_formed(),
        sync@.at == sync@.records.len(),
    ensures
        sync@.log.len() == sync@.records.len(),
        sync@.ok == created_count(sync@.faults),
        sync@.failed == sync@.records.len() - created_count(sync@.faults),
        forall|i: int|
            0 <= i < sync@.records.len() ==> (#[trigger] sync@.log[i])@ == log_text(
                sync.name_of(i),
                sync@.records[i],
                sync@.faults[i],
            ),
{
}

/// A line that tells of success is never one that tells of failure.
pub proof fn law_lines_tell_apart(name: Seq<char>, r: IpResult, reason: Seq<char>)
    ensures
        log_text(name, r, None) != log_text(name, r, Some(reason)),
{
    reveal_strlit("[成功] ");
    reveal_strlit("[失败] ");
    assert(log_text(name, r, None)[1] == '成');
    assert(log_text(name, r, Some(reason))[1] == '失');
}

/// Where the speed that is wanted is zero or less, every result is fast enough. Otherwise a result is
/// where its speed was measured and is no lower; none is where what is wanted is no number.
pub proof fn law_eligible(r: IpResult, min_speed: Metric)
    ensures
        min_speed.is_number() && min_speed.rank() <= 0 ==> eligible(r, min_speed),
        min_speed.is_number() && min_speed.rank() > 0 ==> (eligible(r, min_speed)
            <==> (r.speed_mbps matches Some(speed) && speed.is_number() && speed.rank()
            >= min_speed.rank())),
        !min_speed.is_number() ==> !eligible(r, min_speed),
{
}

/// Of two results that are fast enough the one that stands first is published if the other is; a
/// result that is not published while there is room is not fast enough.
pub proof fn law_first_come_first_published(
    a: Seq<IpResult>,
    b: Seq<IpResult>,
    min_speed: Metric,
    max_records: nat,
)
    ensures
        selection(a, min_speed, max_records).is_prefix_of(selection(a + b, min_speed, max_records)),
        selection(a, min_speed, max_records).len() == max_records ==> selection(
            a + b,
            min_speed,
            max_records,
        ) == selection(a, min_speed, max_records),
        forall|i: int|
            0 <= i < a.len() && eligible(#[trigger] a[i], min_speed) && selection(
                a,
                min_speed,
                max_records,
            ).len() < max_records ==> selection(a, min_speed, max_records).contains(a[i]),
{
    let pred = |r: IpResult| eligible(r, min_speed);
    Seq::filter_distributes_over_add(a, b, pred);
    let x = selection(a, min_speed, max_records);
    let y = selection(a + b, min_speed, max_records);
    assert(x =~= y.subrange(0, x.len() as int));
    if x.len() == max_records {
        assert(x =~= y);
    }
    assert forall|i: int| 0 <= i < a.len() && eligible(#[trigger] a[i], min_speed) && x.len()
        < max_records implies x.contains(a[i]) by {
        broadcast use vstd::seq_lib::group_filter_ensures;

        assert(pred(a[i]));
        assert(a.contains(a[i]));
        assert(a.filter(pred).contains(a[i]));
    }
}

/// Of texts that may be missing those that are there are taken, all of them, in their order.
pub proof fn law_present(s: Seq<Option<Seq<char>>>)
    ensures
        present(s).map_values(|t: Seq<char>| Some(t)) == s.filter(
            |o: Option<Seq<char>>| o is Some,
        ),
        listed(Some(s)) == present(s),
        listed(None).len() == 0,
    decreases s.len(),
{
    reveal(Seq::filter);
    if s.len() > 0 {
        law_present(s.drop_last());
    }
    assert(present(s).map_values(|t: Seq<char>| Some(t)) =~= s.filter(
        |o: Option<Seq<char>>| o is Some,
    ));
}

/// A list of strings that may be missing is there where its texts are, and its texts stand where the
/// strings stand.
pub proof fn law_strings_view(r: Option<Option<Vec<Option<String>>>>)
    ensures
        r is None <==> strings_view(r) is None,
        r matches Some(list) ==> match (list, strings_view(r)->0) {
            (Some(v), Some(t)) => v@.len() == t.len() && forall|i: int|
                0 <= i < v@.len() ==> match (#[trigger] v@[i]) {
                    Some(s) => t[i] == Some(s@),
                    None => t[i] is None,
                },
            (None, None) => true,
            _ => false,
        },
{
}

/// The reply to a lookup that is JSON gives the identifiers that stand in its list, and none where
/// there is no list; one that is not is told word for word.
pub proof fn law_list_reply(body: Seq<char>)
    ensures
        list_reply(body) is Ok <==> json_strings(body, "result"@, "id"@) is Some,
        list_reply(body) matches Ok(ids) ==> match json_strings(body, "result"@, "id"@)->0 {
            Some(found) => ids.map_values(|t: Seq<char>| Some(t)) == found.filter(
                |o: Option<Seq<char>>| o is Some,
            ),
            None => ids.len() == 0,
        },
        list_reply(body) matches Err(e) ==> e == "解析 list_records 响应失败: "@ + body,
{
    match json_strings(body, "result"@, "id"@) {
        Some(Some(found)) => {
            law_present(found);
        },
        _ => {},
    }
}

/// A record was created where the reply says so and only there; otherwise what came is told word for
/// word.
pub proof fn law_creation(success: Option<Option<bool>>, name: Seq<char>, reply: Seq<char>)
    ensures
        creation(success, name, reply) is Ok <==> success == Some(Some(true)),
        success is None ==> creation(success, name, reply) == Err::<(), Seq<char>>(
            "解析 create_record 响应失败: "@ + reply,
        ),
        success == Some(Some(false)) || success == Some(None::<bool>) ==> creation(
            success,
            name,
            reply,
        ) == Err::<(), Seq<char>>("创建 DNS 记录失败 "@ + name + ": "@ + reply),
{
}

/// A reply that did not come fails with its reason; one that came is read.
pub proof fn law_replies(name: Seq<char>, body: Seq<char>, reason: Seq<char>)
    ensures
        DnsSync::lookup_result(Err(reason)) == Err::<Seq<Seq<char>>, Seq<char>>(reason),
        DnsSync::lookup_result(Ok(body)) == list_reply(body),
        DnsSync::creation_result(name, Err(reason)) == Err::<(), Seq<char>>(reason),
        DnsSync::creation_result(name, Ok(body)) is Ok <==> json_bool(body, "success"@) == Some(
            Some(true),
        ),
        DnsSync::creation_result(name, Ok(body)) == creation(
            json_bool(body, "success"@),
            name,
            body,
        ),
{
}

/// Every request carries the token and goes to the records of the zone. The lookup names the record,
/// the deletion the identifier, and the creation sends the record.
pub proof fn law_requests(
    token: Seq<char>,
    zone: Seq<char>,
    name: Seq<char>,
    id: Seq<char>,
    ip: Seq<char>,
    kind: Seq<char>,
    ttl: nat,
)
    ensures
        ({
            let base = "https://api.cloudflare.com/client/v4/zones/"@ + zone + "/dns_records"@;
            let list = list_call_text(token, zone, name);
            let delete = delete_call_text(token, zone, id);
            let create = create_call_text(token, zone, name, ip, kind, ttl);
            &&& list.method is Get && delete.method is Delete && create.method is Post
            &&& list.url == base + "?name="@ + name + "&per_page=100"@
            &&& delete.url == base + "/"@ + id
            &&& create.url == base
            &&& list.authorization == "Bearer "@ + token
            &&& delete.authorization == "Bearer "@ + token
            &&& create.authorization == "Bearer "@ + token
            &&& list.body is None && delete.body is None
            &&& create.body == Some(
                "{"@ + text::joined(
                    seq![
                        "\"type\":\""@ + kind + "\""@,
                        "\"name\":\""@ + name + "\""@,
                        "\"content\":\""@ + ip + "\""@,
                        "\"ttl\":"@ + text::decimal(ttl),
                        "\"proxied\":false"@,
                    ],
                    ","@,
                ) + "}"@,
            )
        }),
{
    reveal_with_fuel(text::joined, 6);
    reveal_strlit("https://api.cloudflare.com");
    reveal_strlit("/client/v4/zones/");
    reveal_strlit("https://api.cloudflare.com/client/v4/zones/");
    assert("https://api.cloudflare.com/client/v4/zones/"@ =~= "https://api.cloudflare.com"@
        + "/client/v4/zones/"@);
    let base = "https://api.cloudflare.com/client/v4/zones/"@ + zone + "/dns_records"@;
    assert(records_url(zone) =~= base);
    reveal_strlit("{");
    reveal_strlit("}");
    reveal_strlit(",");
    reveal_strlit("\"");
    reveal_strlit("\"type\":\"");
    reveal_strlit("\"name\":\"");
    reveal_strlit("\"content\":\"");
    reveal_strlit("\"ttl\":");
    reveal_strlit("\"proxied\":false");
    reveal_strlit("{\"type\":\"");
    reveal_strlit("\",\"name\":\"");
    reveal_strlit("\",\"content\":\"");
    reveal_strlit("\",\"ttl\":");
    reveal_strlit(",\"proxied\":false}");
    assert("{\"type\":\""@ =~= "{"@ + "\"type\":\""@);
    assert("\",\"name\":\""@ =~= "\""@ + ","@ + "\"name\":\""@);
    assert("\",\"content\":\""@ =~= "\""@ + ","@ + "\"content\":\""@);
    assert("\",\"ttl\":"@ =~= "\""@ + ","@ + "\"ttl\":"@);
    assert(",\"proxied\":false}"@ =~= ","@ + "\"proxied\":false"@ + "}"@);
    let a = "\"type\":\""@ + kind + "\""@;
    let b = "\"name\":\""@ + name + "\""@;
    let c = "\"content\":\""@ + ip + "\""@;
    let d = "\"ttl\":"@ + text::decimal(ttl);
    let e = "\"proxied\":false"@;
    assert(seq![a, b, c, d, e].drop_last() =~= seq![a, b, c, d]);
    assert(seq![a, b, c, d].drop_last() =~= seq![a, b, c]);
    assert(seq![a, b, c].drop_last() =~= seq![a, b]);
    assert(seq![a, b].drop_last() =~= seq![a]);
    let all = a + ","@ + b + ","@ + c + ","@ + d + ","@ + e;
    assert(text::joined(seq![a, b, c, d, e], ","@) =~= all);
    assert(record_json(kind, name, ip, ttl) =~= "{"@ + all + "}"@);
}

/// For the record at hand, its name is looked up, then each record found is deleted by its identifier,
/// then the address is published under that name.
pub proof fn law_request_at_hand(sync: DnsSync)
    ensures
        ({
            let name = sync.name_of(sync@.at as int);
            match sync@.phase {
                Phase::List => sync.call() == list_call_text(sync@.token, sync@.zone_id, name),
                Phase::Delete => sync.call() == delete_call_text(
                    sync@.token,
                    sync@.zone_id,
                    sync@.ids[sync@.deleted as int]@,
                ),
                Phase::Create => sync.call() == create_call_text(
                    sync@.token,
                    sync@.zone_id,
                    name,
                    sync@.records[sync@.at as int].ip@,
                    sync@.dns.record_type@,
                    sync@.dns.ttl as nat,
                ),
            }
        }),
        sync.waiting() <==> sync@.at < sync@.records.len() && sync@.dns.domain is Some,
{
}

/// A record that is kept alone has the domain as its name; of several each has its number, from one on,
/// within its name.
pub proof fn law_name_of(sync: DnsSync, i: int)
    requires
        sync@.dns.domain is Some,
        i >= 0,
    ensures
        sync.name_of(i) == config::record_name(
            sync@.dns.domain->0@,
            sync@.dns.max_records,
            (i + 1) as nat,
        ),
        sync@.dns.max_records == 1 ==> sync.name_of(i) == sync@.dns.domain->0@,
{
    config::law_single_record_name(sync@.dns.domain->0@, (i + 1) as nat);
}

/// At every point as many lines are logged as records were gone through, each of which was created or
/// was not, and no more records than there are.
pub proof fn law_publication_is_consistent(sync: DnsSync)
    requires
        sync.well_formed(),
    ensures
        sync@.log.len() == sync@.at <= sync@.records.len(),
        sync@.faults.len() == sync@.at,
        sync@.ok == sync@.faults.filter(|f: Option<Seq<char>>| f is None).len(),
        sync@.failed == sync@.at - sync@.ok,
        sync@.phase is Delete ==> sync@.deleted < sync@.ids.len(),
{
    law_created_count(sync@.faults);
}

/// Those that were created are counted one by one.
pub proof fn law_created_count(faults: Seq<Option<Seq<char>>>)
    ensures
        created_count(faults) == faults.filter(|f: Option<Seq<char>>| f is None).len(),
    decreases faults.len(),
{
    reveal(Seq::filter);
    if faults.len() > 0 {
        law_created_count(faults.drop_last());
    }
}

/// Going on to the next record logs one line of the last one, counts it once as created or as failed,
/// and leaves the lines before as they were.
pub proof fn law_advancing(a: DnsSync, b: DnsSync, fault: Option<Seq<char>>)
    requires
        a.well_formed(),
        a.waiting(),
        b.advanced(a, fault),
    ensures
        b@.at == a@.at + 1,
        b@.phase is List,
        b@.faults == a@.faults.push(fault),
        b@.log.len() == a@.log.len() + 1,
        forall|i: int| 0 <= i < a@.log.len() ==> (#[trigger] b@.log[i])@ == a@.log[i]@,
        fault is None ==> b@.ok == a@.ok + 1 && b@.failed == a@.failed,
        fault is Some ==> b@.ok == a@.ok && b@.failed == a@.failed + 1,
        b@.log.last()@ == {
            let r = a@.records[a@.at as int];
            let start = a.name_of(a@.at as int) + " → "@ + r.ip@;
            match fault {
                None => "[成功] "@ + start + "  延迟 "@ + text::decimal(r.delay_ms as nat) + "ms"@,
                Some(reason) => "[失败] "@ + start + "  "@ + reason,
            }
        },
{
    let x = text::views(a@.log);
    let y = text::views(b@.log);
    assert(x.len() == a@.log.len() && y.len() == b@.log.len());
    assert forall|i: int| 0 <= i < a@.log.len() implies (#[trigger] b@.log[i])@ == a@.log[i]@ by {
        assert(y[i] == b@.log[i]@);
        assert(x[i] == a@.log[i]@);
    }
    assert(y[x.len() as int] == b@.log.last()@);
    let r = a@.records[a@.at as int];
    let name = a.name_of(a@.at as int);
    let start = name + " → "@ + r.ip@;
    match fault {
        None => {
            assert(log_text(name, r, fault) =~= "[成功] "@ + start + "  延迟 "@ + text::decimal(
                r.delay_ms as nat,
            ) + "ms"@);
        },
        Some(reason) => {
            assert(log_text(name, r, fault) =~= "[失败] "@ + start + "  "@ + reason);
        },
    }
}

/// The task of a publication is what it was started with, and a record that is left as it is keeps
/// what was logged and counted.
pub proof fn law_publication_task(a: DnsSync, b: DnsSync)
    ensures
        a.same_task(b) ==> a@.token == b@.token && a@.zone_id == b@.zone_id && a@.dns == b@.dns
            && a@.records == b@.records,
        a.same_record(b) ==> a@.at == b@.at && a@.log == b@.log && a@.ok == b@.ok && a@.failed
            == b@.failed && a@.faults == b@.faults,
{
}

/// The last line tells how many records were created and how many were not; a fault is the reason of
/// a failure; and what is said where nothing is published names the speed that is wanted, if any is.
pub proof fn law_publication_texts(
    ok: nat,
    failed: nat,
    reason: String,
    min_speed: Metric,
    printed: Seq<char>,
)
    ensures
        closing_text(ok, failed) == text::joined(
            seq!["同步完成"@, "成功 "@ + text::decimal(ok), "失败 "@ + text::decimal(failed)],
            "  "@,
        ),
        fault_of(Ok(())) is None,
        fault_of(Err(reason)) == Some(reason@),
        min_speed.is_number() && min_speed.rank() > 0 ==> nothing_text(min_speed, printed)
            == "没有速度达标（>= "@ + printed + " MB/s）的 IP 可同步"@,
        !(min_speed.is_number() && min_speed.rank() > 0) ==> nothing_text(min_speed, printed)
            == "没有可同步的 IP"@,
{
    reveal_with_fuel(text::joined, 4);
    reveal_strlit("同步完成  成功 ");
    reveal_strlit("  失败 ");
    reveal_strlit("同步完成");
    reveal_strlit("成功 ");
    reveal_strlit("失败 ");
    reveal_strlit("  ");
    let a = "同步完成"@;
    let b = "成功 "@ + text::decimal(ok);
    let c = "失败 "@ + text::decimal(failed);
    assert(seq![a, b, c].drop_last() =~= seq![a, b]);
    assert(seq![a, b].drop_last() =~= seq![a]);
    assert("同步完成  成功 "@ =~= "同步完成"@ + "  "@ + "成功 "@);
    assert("  失败 "@ =~= "  "@ + "失败 "@);
    assert(closing_text(ok, failed) =~= a + "  "@ + b + "  "@ + c);
}

} // verus!
