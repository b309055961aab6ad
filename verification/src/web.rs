//! The status page: what it remembers and what it answers.
use crate::json;
use crate::json::{Json, ListWriter, ObjectWriter};
use crate::output::ShownResult;
use crate::text;
use crate::types::Timestamp;
use vstd::prelude::*;

verus! {

// ---- the state ----

/// What the status page knows.
#[derive(Debug)]
pub struct WebState {
    /// Whether a scan is running.
    pub scanning: bool,
    /// When the last run ended.
    pub last_run: Option<Timestamp>,
    /// The results of the last run.
    pub results: Vec<ShownResult>,
    /// The log of the last synchronisation.
    pub dns_log: Vec<String>,
    /// Whether another run was asked for.
    pub trigger_retest: bool,
    pub version: String,
}

/// How a run ends.
#[derive(Debug)]
pub enum RunEnd {
    /// With results, some of them or none, and a log, at some time.
    Published { results: Vec<ShownResult>, dns_log: Vec<String>, now: Timestamp },
    /// With an error.
    Failed,
}

impl WebState {
    /// The state after a scan began or ended.
    pub open spec fn after_scanning(self, v: bool) -> WebState {
        WebState { scanning: v, ..self }
    }

    /// The state after another run was asked for: nothing changes while a scan is running.
    pub open spec fn after_asking(self) -> WebState {
        if self.scanning {
            self
        } else {
            WebState { trigger_retest: true, ..self }
        }
    }

    /// The state after it was looked whether another run was asked for.
    pub open spec fn after_looking(self) -> WebState {
        WebState { trigger_retest: false, ..self }
    }

    /// The state after a run ended.
    pub open spec fn after_run(
        self,
        results: Vec<ShownResult>,
        dns_log: Vec<String>,
        now: Timestamp,
    ) -> WebState {
        WebState { results, dns_log, last_run: Some(now), scanning: false, ..self }
    }

    /// The state after a run ended, one way or the other: an error leaves the results of the run
    /// before it.
    pub open spec fn after_end(self, end: RunEnd) -> WebState {
        match end {
            RunEnd::Published { results, dns_log, now } => self.after_run(results, dns_log, now),
            RunEnd::Failed => self.after_scanning(false),
        }
    }

    /// The state before any run.
    pub fn new(version: &str) -> (r: Self)
        ensures
            !r.scanning,
            r.last_run is None,
            r.results@.len() == 0,
            r.dns_log@.len() == 0,
            !r.trigger_retest,
            r.version@ == version@,
    {
        WebState {
            scanning: false,
            last_run: None,
            results: Vec::new(),
            dns_log: Vec::new(),
            trigger_retest: false,
            version: version.to_owned(),
        }
    }

    /// Notes that a scan began or ended.
    pub fn set_scanning(&mut self, v: bool)
        ensures
            *final(self) == old(self).after_scanning(v),
    {
        self.scanning = v;
    }

    /// Notes what a run gave that ended at `now`; no scan is running any more.
    pub fn set_results(&mut self, results: Vec<ShownResult>, dns_log: Vec<String>, now: Timestamp)
        ensures
            *final(self) == old(self).after_run(results, dns_log, now),
    {
        self.results = results;
        self.dns_log = dns_log;
        self.last_run = Some(now);
        self.scanning = false;
    }

    /// Notes how a run ended; no scan is running any more.
    pub fn end_run(&mut self, end: RunEnd)
        ensures
            *final(self) == old(self).after_end(end),
    {
        match end {
            RunEnd::Published { results, dns_log, now } => {
                self.set_results(results, dns_log, now);
            },
            RunEnd::Failed => {
                self.set_scanning(false);
            },
        }
    }

    /// Whether another run was asked for since this was last looked at.
    pub fn take_retest(&mut self) -> (r: bool)
        ensures
            r == old(self).trigger_retest,
            *final(self) == old(self).after_looking(),
    {
        let asked = self.trigger_retest;
        self.trigger_retest = false;
        asked
    }
}

// ---- answers ----

/// An answer: the status, the headers with the length of the body in bytes, and the body.
pub open spec fn response_text(code: nat, content_type: Seq<char>, body: Seq<char>) -> Seq<char> {
    "HTTP/1.1 "@ + text::decimal(code) + " "@ + (if code == 200 {
        "OK"@
    } else {
        "Not Found"@
    }) + "\r\nContent-Type: "@ + content_type + "; charset=utf-8\r\nContent-Length: "@
        + text::decimal(vstd::utf8::encode_utf8(body).len())
        + "\r\nConnection: close\r\nAccess-Control-Allow-Origin: *\r\n\r\n"@ + body
}

/// An answer.
pub fn http_response(code: u16, content_type: &str, body: &str) -> (r: String)
    ensures
        r@ == response_text(code as nat, content_type@, body@),
{
    let mut out: String = "HTTP/1.1 ".to_owned();
    text::push_decimal(&mut out, code as u64);
    out.append(" ");
    if code == 200 {
        out.append("OK");
    } else {
        out.append("Not Found");
    }
    out.append("\r\nContent-Type: ");
    out.append(content_type);
    out.append("; charset=utf-8\r\nContent-Length: ");
    let bytes = body.as_bytes();
    text::push_decimal(&mut out, bytes.len() as u64);
    out.append("\r\nConnection: close\r\nAccess-Control-Allow-Origin: *\r\n\r\n");
    out.append(body);
    out
}

/// The path that the first line of a request names.
pub open spec fn path_in(line: Seq<char>) -> Seq<char> {
    let words = text::words_of(line);
    if words.len() >= 2 {
        words[1]
    } else {
        "/"@
    }
}

/// The path that the first line of a request names.
pub fn request_path(line: &str) -> (r: String)
    ensures
        r@ == path_in(line@),
{
    let words = text::words(line);
    assert(text::views(words@).len() == words@.len());
    if words.len() >= 2 {
        assert(text::views(words@)[1] == words@[1]@);
        words[1].clone()
    } else {
        "/".to_owned()
    }
}

/// What is answered to one who asks for another run.
pub open spec fn retest_value(scanning: bool) -> Json {
    if scanning {
        Json::Object(
            seq![
                ("status"@, Json::Text("scanning"@)),
                ("message"@, Json::Text("scanning and speedtesting"@)),
            ],
        )
    } else {
        Json::Object(
            seq![
                ("status"@, Json::Text("ok"@)),
                ("message"@, Json::Text("retest triggered"@)),
            ],
        )
    }
}

/// Asks for another run, unless a scan is running.
pub fn handle_retest(state: &mut WebState) -> (r: String)
    ensures
        *final(state) == old(state).after_asking(),
        r@ == response_text(
            200,
            "application/json"@,
            json::json_text(retest_value(old(state).scanning)),
        ),
{
    let mut body = ObjectWriter::new();
    if state.scanning {
        body.push_text("status", "scanning");
        body.push_text("message", "scanning and speedtesting");
    } else {
        state.trigger_retest = true;
        body.push_text("status", "ok");
        body.push_text("message", "retest triggered");
    }
    assert(Json::Object(body@) == retest_value(old(state).scanning)) by {
        assert(body@ =~= retest_value(old(state).scanning)->Object_0);
    }
    let body = body.finish();
    http_response(200, "application/json", body.as_str())
}

/// The speed of a result in the answer: there is none where it was not measured, or where what was
/// printed is no number, as for an infinite speed.
pub open spec fn speed_value(shown: ShownResult) -> Json {
    if shown.result.speed_mbps is Some && json::is_number(shown.speed@) {
        Json::Number(shown.speed@)
    } else {
        Json::Null
    }
}

/// A result in the answer, with its rank.
pub open spec fn result_value(rank: nat, shown: ShownResult) -> Json {
    let r = shown.result;
    Json::Object(
        seq![
            ("rank"@, Json::Number(text::decimal(rank))),
            ("ip"@, Json::Text(r.ip@)),
            ("port"@, Json::Number(text::decimal(r.port as nat))),
            ("delay_ms"@, Json::Number(text::decimal(r.delay_ms as nat))),
            ("colo"@, Json::Text(r.colo@)),
            ("speed_mbps"@, speed_value(shown)),
        ],
    )
}

/// The results in the answer, ranked from one.
pub open spec fn result_values(results: Seq<ShownResult>) -> Seq<Json> {
    Seq::new(results.len(), |i: int| result_value((i + 1) as nat, results[i]))
}

/// The lines of the log in the answer.
pub open spec fn log_values(log: Seq<Seq<char>>) -> Seq<Json> {
    log.map_values(|line: Seq<char>| Json::Text(line))
}

/// What the status page says, where `when` is the printed time of the last run. While a scan is
/// running, and where there are no results, it says no more than that.
pub open spec fn status_value(state: WebState, when: Seq<char>) -> Json {
    let time = if state.last_run is Some {
        when
    } else {
        "never"@
    };
    let head = seq![
        ("last_run"@, Json::Text(time)),
        (
            "status"@,
            Json::Text(
                if state.scanning {
                    "scanning"@
                } else {
                    "idle"@
                },
            ),
        ),
        ("version"@, Json::Text(state.version@)),
    ];
    if state.scanning || state.results@.len() == 0 {
        Json::Object(head)
    } else {
        Json::Object(
            head + seq![
                ("results"@, Json::List(result_values(state.results@))),
                ("dns_log"@, Json::List(log_values(text::views(state.dns_log@)))),
            ],
        )
    }
}

fn write_result(rank: usize, shown: &ShownResult) -> (out: String)
    ensures
        out@ == json::json_text(result_value(rank as nat, *shown)),
{
    let r = &shown.result;
    let mut w = ObjectWriter::new();
    w.push_number("rank", rank as u64);
    w.push_text("ip", r.ip.as_str());
    w.push_number("port", r.port as u64);
    w.push_number("delay_ms", r.delay_ms);
    w.push_text("colo", r.colo.as_str());
    if r.speed_mbps.is_some() && json::check_number(shown.speed.as_str()) {
        w.push("speed_mbps", shown.speed.as_str(), Ghost(Json::Number(shown.speed@)));
    } else {
        w.push("speed_mbps", "null", Ghost(Json::Null));
    }
    assert(w@ =~= result_value(rank as nat, *shown)->Object_0);
    w.finish()
}

fn write_results(results: &Vec<ShownResult>) -> (out: String)
    ensures
        out@ == json::json_text(Json::List(result_values(results@))),
{
    let ghost wanted = result_values(results@);
    let n: usize = results.len();
    let mut w = ListWriter::new();
    let mut i: usize = 0;
    while i < n
        invariant
            i <= n,
            n == results@.len(),
            wanted == result_values(results@),
            w.well_formed(),
            w@ == wanted.take(i as int),
        decreases n - i,
    {
        let item = write_result(i + 1, &results[i]);
        w.push(item.as_str(), Ghost(wanted[i as int]));
        assert(wanted.take(i + 1) =~= wanted.take(i as int).push(wanted[i as int]));
        i += 1;
    }
    assert(wanted.take(n as int) =~= wanted);
    w.finish()
}

fn write_log(log: &Vec<String>) -> (out: String)
    ensures
        out@ == json::json_text(Json::List(log_values(text::views(log@)))),
{
    let ghost wanted = log_values(text::views(log@));
    let n: usize = log.len();
    let mut w = ListWriter::new();
    let mut i: usize = 0;
    while i < n
        invariant
            i <= n,
            n == log@.len(),
            wanted == log_values(text::views(log@)),
            w.well_formed(),
            w@ == wanted.take(i as int),
        decreases n - i,
    {
        let line = json::quote(log[i].as_str());
        proof {
            assert(text::views(log@)[i as int] == log@[i as int]@);
            assert(wanted.take(i + 1) =~= wanted.take(i as int).push(wanted[i as int]));
        }
        w.push(line.as_str(), Ghost(wanted[i as int]));
        i += 1;
    }
    assert(wanted.take(n as int) =~= wanted);
    w.finish()
}

/// Answers what the status page knows, where `when` is the printed time of the last run.
pub fn handle_status(state: &WebState, when: &str) -> (r: String)
    ensures
        r@ == response_text(
            200,
            "application/json"@,
            json::json_text(status_value(*state, when@)),
        ),
{
    let mut w = ObjectWriter::new();
    if state.last_run.is_some() {
        w.push_text("last_run", when);
    } else {
        w.push_text("last_run", "never");
    }
    if state.scanning {
        w.push_text("status", "scanning");
    } else {
        w.push_text("status", "idle");
    }
    w.push_text("version", state.version.as_str());
    if !state.scanning && !state.results.is_empty() {
        let results = write_results(&state.results);
        w.push("results", results.as_str(), Ghost(Json::List(result_values(state.results@))));
        let log = write_log(&state.dns_log);
        w.push(
            "dns_log",
            log.as_str(),
            Ghost(Json::List(log_values(text::views(state.dns_log@)))),
        );
    }
    assert(w@ =~= status_value(*state, when@)->Object_0);
    let body = w.finish();
    http_response(200, "application/json", body.as_str())
}

/// Answers a request: "/retest" asks for another run, "/" and "/status" show the state, and there is
/// nothing else.
pub fn handle(path: &str, state: &mut WebState, when: &str) -> (r: String)
    ensures
        path@ == "/retest"@ ==> {
            &&& *final(state) == old(state).after_asking()
            &&& r@ == response_text(
                200,
                "application/json"@,
                json::json_text(retest_value(old(state).scanning)),
            )
        },
        path@ == "/status"@ || path@ == "/"@ ==> {
            &&& *final(state) == *old(state)
            &&& r@ == response_text(
                200,
                "application/json"@,
                json::json_text(status_value(*old(state), when@)),
            )
        },
        path@ != "/retest"@ && path@ != "/status"@ && path@ != "/"@ ==> {
            &&& *final(state) == *old(state)
            &&& r@ == response_text(404, "text/plain"@, "Not Found"@)
        },
{
    proof {
        reveal_strlit("/retest");
        reveal_strlit("/status");
        reveal_strlit("/");
        assert("/retest"@[1] != "/status"@[1]);
        assert("/retest"@.len() != "/"@.len());
    }
    if text::same_text(path, "/retest") {
        handle_retest(state)
    } else if text::same_text(path, "/status") || text::same_text(path, "/") {
        handle_status(state, when)
    } else {
        http_response(404, "text/plain", "Not Found")
    }
}

// ---- laws ----

/// Another run that is asked for while none is running is seen once; one that is asked for while a
/// scan is running is not seen, unless it was asked for before.
pub proof fn law_retest_is_seen_once(state: WebState)
    ensures
        !state.scanning ==> state.after_asking().trigger_retest,
        !state.after_asking().after_looking().trigger_retest,
        state.scanning ==> state.after_asking() == state,
{
}

/// Asking for another run several times is the same as asking once.
pub proof fn law_asking_twice(state: WebState)
    ensures
        state.after_asking().after_asking() == state.after_asking(),
{
}

/// However a run ends, nothing is running after it: the status page does not say so, another run can
/// be asked for, and one that was asked for before is not forgotten.
pub proof fn law_every_end_stops_scanning(state: WebState, end: RunEnd, when: Seq<char>)
    ensures
        ({
            let after = state.after_end(end);
            &&& !after.scanning
            &&& status_value(after, when) matches Json::Object(members) && members[1] == (
                "status"@,
                Json::Text("idle"@),
            )
            &&& retest_value(after.scanning) == retest_value(false)
            &&& after.after_asking().trigger_retest
            &&& after.trigger_retest == state.trigger_retest
        }),
{
}

/// The status page answers with JSON, whatever the texts in it hold: reading its body gives back the
/// time, the version, the results in their order and the lines of the log.
pub proof fn law_status_is_json(state: WebState, when: Seq<char>)
    ensures
        json::read_value(json::json_text(status_value(state, when))) == Some(
            (status_value(state, when), Seq::<char>::empty()),
        ),
{
    let v = status_value(state, when);
    let results = result_values(state.results@);
    let log = log_values(text::views(state.dns_log@));
    assert forall|i: int| 0 <= i < results.len() implies json::is_proper(#[trigger] results[i]) by {
        lemma_result_is_proper((i + 1) as nat, state.results@[i]);
    }
    assert(json::is_proper(Json::List(results)));
    assert forall|i: int| 0 <= i < log.len() implies json::is_proper(#[trigger] log[i]) by {
        assert(log[i] is Text);
    }
    assert(json::is_proper(Json::List(log)));
    assert forall|i: int| 0 <= i < v->Object_0.len() implies json::is_proper(
        (#[trigger] v->Object_0[i]).1,
    ) by {
        if i < 3 {
            assert(v->Object_0[i].1 is Text);
        }
    }
    json::law_value_reads_back(v);
}

proof fn lemma_result_is_proper(rank: nat, shown: ShownResult)
    ensures
        json::is_proper(result_value(rank, shown)),
{
    json::law_numerals_are_numbers(rank);
    json::law_numerals_are_numbers(shown.result.port as nat);
    json::law_numerals_are_numbers(shown.result.delay_ms as nat);
    let members = result_value(rank, shown)->Object_0;
    assert forall|i: int| 0 <= i < members.len() implies json::is_proper(
        (#[trigger] members[i]).1,
    ) by {
        assert(members[1].1 is Text);
        assert(members[4].1 is Text);
    }
}

/// One who asks for another run is answered with JSON.
pub proof fn law_retest_is_json(scanning: bool)
    ensures
        json::read_value(json::json_text(retest_value(scanning))) == Some(
            (retest_value(scanning), Seq::<char>::empty()),
        ),
{
    let members = retest_value(scanning)->Object_0;
    assert forall|i: int| 0 <= i < members.len() implies json::is_proper(
        (#[trigger] members[i]).1,
    ) by {
        assert(members[i].1 is Text);
    }
    json::law_value_reads_back(retest_value(scanning));
}

/// While a scan is running, the status page does not tell the results or the log of the last run.
pub proof fn law_scanning_hides_results(a: WebState, b: WebState, when: Seq<char>)
    requires
        a.scanning,
        b.scanning,
        a.last_run is Some <==> b.last_run is Some,
        a.version@ == b.version@,
    ensures
        status_value(a, when) == status_value(b, when),
{
}

/// Each thing that happens changes what it is about and leaves the rest: a scan that begins or ends,
/// another run that is asked for or looked at, and the results of a run, which replace those before.
pub proof fn law_state_changes(
    state: WebState,
    scanning: bool,
    results: Vec<ShownResult>,
    log: Vec<String>,
    now: Timestamp,
)
    ensures
        ({
            let a = state.after_scanning(scanning);
            &&& a.scanning == scanning
            &&& a.last_run == state.last_run && a.results == state.results && a.dns_log
                == state.dns_log && a.trigger_retest == state.trigger_retest && a.version
                == state.version
        }),
        ({
            let a = state.after_asking();
            &&& a.trigger_retest == (state.trigger_retest || !state.scanning)
            &&& a.last_run == state.last_run && a.results == state.results && a.dns_log
                == state.dns_log && a.scanning == state.scanning && a.version == state.version
        }),
        ({
            let a = state.after_looking();
            &&& !a.trigger_retest
            &&& a.last_run == state.last_run && a.results == state.results && a.dns_log
                == state.dns_log && a.scanning == state.scanning && a.version == state.version
        }),
        ({
            let a = state.after_end(RunEnd::Published { results, dns_log: log, now });
            &&& a == state.after_run(results, log, now)
            &&& a.results == results && a.dns_log == log && a.last_run == Some(now) && !a.scanning
            &&& a.trigger_retest == state.trigger_retest && a.version == state.version
        }),
        ({
            let a = state.after_end(RunEnd::Failed);
            &&& !a.scanning
            &&& a.last_run == state.last_run && a.results == state.results && a.dns_log
                == state.dns_log && a.trigger_retest == state.trigger_retest && a.version
                == state.version
        }),
{
}

/// The status page tells the time of the last run, whether a scan is running, and the version; while
/// none is running and there are results, it tells each of them, ranked from one, and each line of the
/// log.
pub proof fn law_status_tells(state: WebState, when: Seq<char>)
    ensures
        status_value(state, when) matches Json::Object(members) && {
            &&& members.len() == if !state.scanning && state.results@.len() > 0 {
                5int
            } else {
                3
            }
            &&& members[0].0 == "last_run"@ && members[1].0 == "status"@ && members[2].0
                == "version"@
            &&& members[0].1 == Json::Text(
                match state.last_run {
                    Some(_) => when,
                    None => "never"@,
                },
            )
            &&& state.scanning ==> members[1].1 == Json::Text("scanning"@)
            &&& !state.scanning ==> members[1].1 == Json::Text("idle"@)
            &&& members[2].1 == Json::Text(state.version@)
            &&& members.len() == 5 ==> {
                &&& members[3].0 == "results"@ && members[4].0 == "dns_log"@
                &&& members[3].1 matches Json::List(results) && results.len()
                    == state.results@.len() && forall|i: int|
                    0 <= i < results.len() ==> #[trigger] results[i] == result_value(
                        (i + 1) as nat,
                        state.results@[i],
                    )
                &&& members[4].1 matches Json::List(lines) && lines.len() == state.dns_log@.len()
                    && forall|i: int|
                    0 <= i < lines.len() ==> #[trigger] lines[i] == Json::Text(state.dns_log@[i]@)
            }
        },
{
    let lines = log_values(text::views(state.dns_log@));
    assert forall|i: int| 0 <= i < lines.len() implies #[trigger] lines[i] == Json::Text(
        state.dns_log@[i]@,
    ) by {
        assert(text::views(state.dns_log@)[i] == state.dns_log@[i]@);
    }
}

/// A result is told with its rank, address, port, latency, edge location and speed; the speed is the
/// printed one where it was measured and that is a number, and is missing otherwise.
pub proof fn law_result_tells(rank: nat, shown: ShownResult)
    ensures
        result_value(rank, shown) matches Json::Object(m) && {
            &&& m.len() == 6
            &&& m[0] == ("rank"@, Json::Number(text::decimal(rank)))
            &&& m[1] == ("ip"@, Json::Text(shown.result.ip@))
            &&& m[2] == ("port"@, Json::Number(text::decimal(shown.result.port as nat)))
            &&& m[3] == ("delay_ms"@, Json::Number(text::decimal(shown.result.delay_ms as nat)))
            &&& m[4] == ("colo"@, Json::Text(shown.result.colo@))
            &&& m[5].0 == "speed_mbps"@
            &&& m[5].1 == Json::Number(shown.speed@) <==> shown.result.speed_mbps is Some
                && json::is_number(shown.speed@)
            &&& m[5].1 is Null <==> shown.result.speed_mbps is None || !json::is_number(
                shown.speed@,
            )
        },
{
}

/// One who asks for another run while a scan is running is told so, and otherwise that it was noted.
pub proof fn law_retest_tells()
    ensures
        retest_value(true) matches Json::Object(m) && m == seq![
            ("status"@, Json::Text("scanning"@)),
            ("message"@, Json::Text("scanning and speedtesting"@)),
        ],
        retest_value(false) matches Json::Object(m) && m == seq![
            ("status"@, Json::Text("ok"@)),
            ("message"@, Json::Text("retest triggered"@)),
        ],
{
}

/// An answer has a status line, the headers, an empty line and the body, and tells the length of the
/// body in bytes.
pub proof fn law_response(code: nat, content_type: Seq<char>, body: Seq<char>)
    ensures
        response_text(code, content_type, body) == text::joined(
            seq![
                "HTTP/1.1 "@ + text::decimal(code) + " "@ + (if code == 200 {
                    "OK"@
                } else {
                    "Not Found"@
                }),
                "Content-Type: "@ + content_type + "; charset=utf-8"@,
                "Content-Length: "@ + text::decimal(vstd::utf8::encode_utf8(body).len()),
                "Connection: close"@,
                "Access-Control-Allow-Origin: *"@,
                Seq::empty(),
                body,
            ],
            "\r\n"@,
        ),
{
    reveal_with_fuel(text::joined, 8);
    reveal_strlit("\r\n");
    reveal_strlit("\r\nContent-Type: ");
    reveal_strlit("Content-Type: ");
    reveal_strlit("; charset=utf-8\r\nContent-Length: ");
    reveal_strlit("; charset=utf-8");
    reveal_strlit("Content-Length: ");
    reveal_strlit("\r\nConnection: close\r\nAccess-Control-Allow-Origin: *\r\n\r\n");
    reveal_strlit("Connection: close");
    reveal_strlit("Access-Control-Allow-Origin: *");
    let sep = "\r\n"@;
    assert("\r\nContent-Type: "@ =~= sep + "Content-Type: "@);
    assert("; charset=utf-8\r\nContent-Length: "@ =~= "; charset=utf-8"@ + sep
        + "Content-Length: "@);
    assert("\r\nConnection: close\r\nAccess-Control-Allow-Origin: *\r\n\r\n"@ =~= sep
        + "Connection: close"@ + sep + "Access-Control-Allow-Origin: *"@ + sep + sep);
    let a = "HTTP/1.1 "@ + text::decimal(code) + " "@ + (if code == 200 {
        "OK"@
    } else {
        "Not Found"@
    });
    let b = "Content-Type: "@ + content_type + "; charset=utf-8"@;
    let c = "Content-Length: "@ + text::decimal(vstd::utf8::encode_utf8(body).len());
    let d = "Connection: close"@;
    let e = "Access-Control-Allow-Origin: *"@;
    let none = Seq::<char>::empty();
    let all = seq![a, b, c, d, e, none, body];
    assert(all.drop_last() =~= seq![a, b, c, d, e, none]);
    assert(seq![a, b, c, d, e, none].drop_last() =~= seq![a, b, c, d, e]);
    assert(seq![a, b, c, d, e].drop_last() =~= seq![a, b, c, d]);
    assert(seq![a, b, c, d].drop_last() =~= seq![a, b, c]);
    assert(seq![a, b, c].drop_last() =~= seq![a, b]);
    assert(seq![a, b].drop_last() =~= seq![a]);
    assert(response_text(code, content_type, body) =~= a + sep + b + sep + c + sep + d + sep + e
        + sep + none + sep + body);
}

/// The path of a request is the word after its method, whatever follows; without one it is the root.
pub proof fn law_path(method: Seq<char>, gap: Seq<char>, path: Seq<char>, rest: Seq<char>)
    requires
        method.len() > 0,
        forall|i: int| 0 <= i < method.len() ==> !text::is_space(#[trigger] method[i]),
        path.len() > 0,
        forall|i: int| 0 <= i < path.len() ==> !text::is_space(#[trigger] path[i]),
        gap.len() > 0,
        forall|i: int| 0 <= i < gap.len() ==> text::is_space(#[trigger] gap[i]),
    ensures
        path_in(method + gap + (path + gap + rest)) == path,
        path_in(method + gap + path) == path,
        path_in(method) == "/"@,
        path_in(Seq::empty()) == "/"@,
{
    text::law_words(method, gap, path + gap + rest);
    text::law_words(path, gap, rest);
    text::law_words(method, gap, path);
    let a = text::words_of(method + gap + (path + gap + rest));
    assert(a[1] == path);
    let b = text::words_of(method + gap + path);
    assert(b[1] == path);
}

} // verus!
