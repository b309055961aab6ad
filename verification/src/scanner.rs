//! Scanning addresses: timing connections, finding edge locations, collecting results.
use crate::config::ScanConfig;
use crate::ip_loader;
use crate::order;
use crate::random;
use crate::random::Source;
use crate::text;
use crate::types;
use crate::types::IpResult;
use vstd::prelude::*;

verus! {

// ---- timing connections ----

/// The lower of two optional numbers, where there are any.
pub open spec fn lower(a: Option<u64>, b: u64) -> Option<u64> {
    match a {
        Some(x) => if b < x {
            Some(b)
        } else {
            Some(x)
        },
        None => Some(b),
    }
}

/// The lowest of the timings that are not zero, where there are any. A failed connection has no
/// timing.
pub open spec fn lowest_timing(timings: Seq<Option<u64>>) -> Option<u64>
    decreases timings.len(),
{
    if timings.len() == 0 {
        None
    } else {
        let before = lowest_timing(timings.drop_last());
        match timings.last() {
            Some(ms) => if ms > 0 {
                lower(before, ms)
            } else {
                before
            },
            None => before,
        }
    }
}

/// What to do next for an address that is being timed.
#[derive(Clone, Copy, Debug, PartialEq, Eq, Structural)]
pub enum PingStep {
    /// Connect and time it.
    Connect,
    /// Pause for some milliseconds, then connect and time it.
    PauseAndConnect(u64),
    /// The latency of the address, or none.
    Finished(Option<u64>),
}

/// The timing of an address: several connections, of which the fastest counts.
pub struct PingRun {
    count: usize,
    made: usize,
    best: Option<u64>,
    failed: bool,
    timings: Ghost<Seq<Option<u64>>>,
}

impl PingRun {
    /// How many connections are timed.
    pub closed spec fn wanted(self) -> nat {
        self.count as nat
    }

    /// The timings so far; `None` for a connection that failed.
    pub closed spec fn history(self) -> Seq<Option<u64>> {
        self.timings@
    }

    /// Whether a connection failed.
    pub open spec fn broken(self) -> bool {
        self.history().contains(None)
    }

    /// Whether there is nothing left to time: a failure ends the run.
    pub open spec fn over(self) -> bool {
        self.broken() || self.history().len() >= self.wanted()
    }

    /// The latency that a run that is over has found.
    pub open spec fn outcome(self) -> Option<u64> {
        if self.broken() {
            None
        } else {
            lowest_timing(self.history())
        }
    }

    /// What ties the state to the timings.
    pub closed spec fn well_formed(self) -> bool {
        &&& self.made == self.timings@.len()
        &&& self.made <= self.count
        &&& self.best == lowest_timing(self.timings@)
        &&& self.failed == self.timings@.contains(None)
    }

    /// A run of `count` timings.
    pub fn start(count: usize) -> (r: PingRun)
        ensures
            r.well_formed(),
            r.wanted() == count,
            r.history() == Seq::<Option<u64>>::empty(),
    {
        PingRun { count, made: 0, best: None, failed: false, timings: Ghost(Seq::empty()) }
    }

    /// What to do next. Between two connections there is a pause of 10 to 30 milliseconds, whose
    /// length is left to chance.
    pub fn next(&self) -> (r: PingStep)
        requires
            self.well_formed(),
        ensures
            self.over() ==> r == PingStep::Finished(self.outcome()),
            !self.over() && self.history().len() == 0 ==> r == PingStep::Connect,
            !self.over() && self.history().len() > 0 ==> (r matches PingStep::PauseAndConnect(ms)
                && 10 <= ms <= 30 && random::is_record(seq![(21nat, (ms - 10) as u128)])),
    {
        if self.failed {
            PingStep::Finished(None)
        } else if self.made >= self.count {
            PingStep::Finished(self.best)
        } else if self.made == 0 {
            PingStep::Connect
        } else {
            let mut source = Source::new();
            let extra: u128 = ip_loader::random_below(&mut source, 21);
            assert(source@ =~= seq![(21nat, extra)]);
            PingStep::PauseAndConnect(10 + extra as u64)
        }
    }

    /// Takes the time of a connection into account, or that it failed.
    pub fn record(&mut self, timing: Option<u64>)
        requires
            old(self).well_formed(),
            !old(self).over(),
        ensures
            final(self).well_formed(),
            final(self).wanted() == old(self).wanted(),
            final(self).history() == old(self).history().push(timing),
    {
        let ghost before = self.timings@;
        proof {
            assert(before.push(timing).drop_last() =~= before);
            assert(before.push(timing)[before.len() as int] == timing);
            assert forall|x: Option<u64>| before.contains(x) implies before.push(timing).contains(
                x,
            ) by {
                let k = choose|k: int| 0 <= k < before.len() && before[k] == x;
                assert(before.push(timing)[k] == x);
            }
        }
        match timing {
            Some(ms) => {
                if ms > 0 {
                    self.best = match self.best {
                        Some(x) => if ms < x {
                            Some(ms)
                        } else {
                            Some(x)
                        },
                        None => Some(ms),
                    };
                }
            },
            None => {
                self.failed = true;
            },
        }
        self.made = self.made + 1;
        self.timings = Ghost(before.push(timing));
        proof {
            if timing is Some && !before.contains(None) {
                assert(!self.timings@.contains(None));
            }
        }
    }
}

/// The latency found is positive, is one of the timings, and no timing but zero is lower. There
/// is none only where every timing is zero or missing.
pub proof fn law_lowest_timing(timings: Seq<Option<u64>>)
    ensures
        match lowest_timing(timings) {
            Some(d) => {
                &&& d > 0
                &&& timings.contains(Some(d))
                &&& forall|i: int|
                    0 <= i < timings.len() ==> match #[trigger] timings[i] {
                        Some(ms) => ms == 0 || d <= ms,
                        None => true,
                    }
            },
            None => forall|i: int|
                0 <= i < timings.len() ==> match #[trigger] timings[i] {
                    Some(ms) => ms == 0,
                    None => true,
                },
        },
    decreases timings.len(),
{
    if timings.len() > 0 {
        let init = timings.drop_last();
        law_lowest_timing(init);
        match lowest_timing(init) {
            Some(d) => {
                let k = choose|k: int| 0 <= k < init.len() && init[k] == Some(d);
                assert(timings[k] == Some(d));
            },
            None => {},
        }
        assert(timings[timings.len() - 1] == timings.last());
        assert forall|i: int| 0 <= i < init.len() implies timings[i] == #[trigger] init[i] by {
        }
        assert forall|i: int| 0 <= i < timings.len() implies match #[trigger] timings[i] {
            Some(ms) => ms == 0 || (lowest_timing(timings) matches Some(d) && d <= ms),
            None => true,
        } by {
            if i < init.len() {
                assert(init[i] == timings[i]);
            }
        }
    }
}

// ---- one address ----

/// Whether the edge location of an address is wanted.
pub open spec fn region_kept(cfg: ScanConfig, colo: Seq<char>) -> bool {
    cfg.regions@.len() == 0 || text::listed_but_case(text::views(cfg.regions@), colo)
}

/// Whether the latency of an address is low enough to ask for its edge location.
pub fn wants_colo(cfg: &ScanConfig, delay: Option<u64>) -> (r: bool)
    ensures
        r == (delay matches Some(ms) && ms <= cfg.delay_threshold),
{
    match delay {
        Some(ms) => ms <= cfg.delay_threshold,
        None => false,
    }
}

/// The result for an address of which the latency and the edge location were found, where it is
/// kept: the latency does not exceed the threshold, and the location is wanted.
pub fn scan_single(
    ip: String,
    cfg: &ScanConfig,
    delay: Option<u64>,
    colo: Option<String>,
) -> (r: Option<IpResult>)
    ensures
        r == match (delay, colo) {
            (Some(ms), Some(c)) => if ms <= cfg.delay_threshold && region_kept(*cfg, c@) {
                Some(
                    IpResult {
                        ip,
                        port: cfg.port,
                        delay_ms: ms,
                        colo: c,
                        speed_mbps: None,
                        score: None,
                    },
                )
            } else {
                None
            },
            _ => None,
        },
{
    match (delay, colo) {
        (Some(ms), Some(c)) => {
            if ms > cfg.delay_threshold {
                return None;
            }
            if !cfg.regions.is_empty() && !text::any_eq_ignore_ascii_case(
                &cfg.regions,
                c.as_str(),
            ) {
                return None;
            }
            Some(IpResult::new(ip, cfg.port, ms, c))
        },
        _ => None,
    }
}

// ---- asking for the edge location ----

/// The names under which requests are made.
pub open spec fn agent_name(i: int) -> Seq<char> {
    if i == 0 {
        "Mozilla/5.0 (Windows NT 10.0; Win64; x64) AppleWebKit/537.36 Chrome/120.0.0.0 Safari/537.36"@
    } else {
        "Mozilla/5.0 (X11; Linux x86_64) AppleWebKit/537.36 Chrome/120.0.0.0 Safari/537.36"@
    }
}

/// The `i`-th name under which requests are made.
pub fn user_agent(i: usize) -> (r: &'static str)
    requires
        i < 2,
    ensures
        r@ == agent_name(i as int),
        r@ == if i == 0 {
            "Mozilla/5.0 (Windows NT 10.0; Win64; x64) AppleWebKit/537.36 Chrome/120.0.0.0 Safari/537.36"@
        } else {
            "Mozilla/5.0 (X11; Linux x86_64) AppleWebKit/537.36 Chrome/120.0.0.0 Safari/537.36"@
        },
{
    if i == 0 {
        "Mozilla/5.0 (Windows NT 10.0; Win64; x64) AppleWebKit/537.36 Chrome/120.0.0.0 Safari/537.36"
    } else {
        "Mozilla/5.0 (X11; Linux x86_64) AppleWebKit/537.36 Chrome/120.0.0.0 Safari/537.36"
    }
}

/// One of the names under which requests are made; which one is left to chance.
pub fn random_ua() -> (r: &'static str)
    ensures
        r@ == agent_name(0) || r@ == agent_name(1),
        exists|i: u128| i < 2 && r@ == agent_name(i as int) && random::is_record(seq![(2nat, i)]),
{
    let mut source = Source::new();
    let i: u128 = ip_loader::random_below(&mut source, 2);
    assert(source@ =~= seq![(2nat, i)]);
    user_agent(i as usize)
}

/// The request for the edge location.
pub fn trace_request(agent: &str) -> (r: String)
    ensures
        r@ == "GET /cdn-cgi/trace HTTP/1.1\r\nHost: speed.cloudflare.com\r\nUser-Agent: "@ + agent@
            + "\r\nConnection: close\r\n\r\n"@,
{
    let mut out: String =
        "GET /cdn-cgi/trace HTTP/1.1\r\nHost: speed.cloudflare.com\r\nUser-Agent: ".to_owned();
    out.append(agent);
    out.append("\r\nConnection: close\r\n\r\n");
    out
}

/// How much of a reply is read at most before reading stops.
pub const REPLY_LIMIT: usize = 8192;

/// Adds what one read gave to the reply. Tells whether to read on: an empty read means the end, and
/// a reply that is longer than `REPLY_LIMIT` is long enough.
pub fn take_chunk(reply: &mut Vec<u8>, chunk: &[u8]) -> (r: bool)
    ensures
        final(reply)@ == old(reply)@ + chunk@,
        r == (chunk@.len() > 0 && old(reply)@.len() + chunk@.len() <= REPLY_LIMIT),
        r <==> chunk@.len() > 0 && final(reply)@.len() <= 8192,
{
    let n: usize = chunk.len();
    let mut i: usize = 0;
    assert(reply@ =~= old(reply)@ + chunk@.take(0));
    while i < n
        invariant
            i <= n,
            n == chunk@.len(),
            reply@ == old(reply)@ + chunk@.take(i as int),
        decreases n - i,
    {
        reply.push(chunk[i]);
        assert(chunk@.take(i + 1) =~= chunk@.take(i as int).push(chunk@[i as int]));
        assert(reply@ =~= old(reply)@ + chunk@.take(i + 1));
        i += 1;
    }
    assert(chunk@.take(n as int) =~= chunk@);
    n > 0 && reply.len() <= REPLY_LIMIT
}

/// What a line says of the edge location: the text after "colo=", without the white space around
/// it.
pub open spec fn colo_text(line: Seq<char>) -> Option<Seq<char>> {
    if line.len() >= 5 && line.take(5) == "colo="@ {
        Some(text::trimmed(line.skip(5)))
    } else {
        None
    }
}

/// What lines say of the edge location, in upper case.
pub open spec fn upper_colos(lines: Seq<Seq<char>>) -> Seq<Option<Seq<char>>> {
    lines.map_values(
        |line: Seq<char>|
            match colo_text(line) {
                Some(t) => Some(text::uppercase(t)),
                None => None,
            },
    )
}

/// The first text that is there and is not empty.
pub open spec fn first_in(found: Seq<Option<Seq<char>>>) -> Option<Seq<char>>
    decreases found.len(),
{
    if found.len() == 0 {
        None
    } else {
        match found[0] {
            Some(t) => if t.len() > 0 {
                Some(t)
            } else {
                first_in(found.drop_first())
            },
            None => first_in(found.drop_first()),
        }
    }
}

/// The edge location that the first line which gives one gives, in upper case.
pub open spec fn colo_in(lines: Seq<Seq<char>>) -> Option<Seq<char>> {
    first_in(upper_colos(lines))
}

/// What a line says of the edge location.
pub fn colo_of_line(line: &str) -> (r: Option<String>)
    ensures
        text::opt_view(r) == colo_text(line@),
{
    let v = text::chars_of(line);
    proof {
        reveal_strlit("colo=");
    }
    if v.len() >= 5 && v[0] == 'c' && v[1] == 'o' && v[2] == 'l' && v[3] == 'o' && v[4] == '=' {
        assert(line@.take(5) =~= "colo="@);
        let rest = text::substring(&v, 5, v.len());
        assert(rest@ =~= line@.skip(5));
        Some(text::trim(rest.as_str()))
    } else {
        proof {
            if line@.len() >= 5 && line@.take(5) == "colo="@ {
                assert(forall|i: int| 0 <= i < 5 ==> line@.take(5)[i] == line@[i]);
                assert(line@.take(5)[0] == 'c');
                assert(line@.take(5)[1] == 'o');
                assert(line@.take(5)[2] == 'l');
                assert(line@.take(5)[3] == 'o');
                assert(line@.take(5)[4] == '=');
            }
        }
        None
    }
}

/// The texts of optional strings.
pub open spec fn opt_views(v: Seq<Option<String>>) -> Seq<Option<Seq<char>>> {
    v.map_values(|s: Option<String>| text::opt_view(s))
}

/// The first string that is there and is not empty.
pub fn first_colo(found: &Vec<Option<String>>) -> (r: Option<String>)
    ensures
        text::opt_view(r) == first_in(opt_views(found@)),
{
    let ghost all = opt_views(found@);
    let n: usize = found.len();
    let mut i: usize = 0;
    assert(all.skip(0) =~= all);
    while i < n
        invariant
            i <= n,
            n == found@.len(),
            all == opt_views(found@),
            first_in(all.skip(i as int)) == first_in(all),
        decreases n - i,
    {
        assert(all.skip(i as int)[0] == text::opt_view(found@[i as int]));
        assert(all.skip(i as int).drop_first() =~= all.skip(i + 1));
        match &found[i] {
            Some(t) => {
                if !t.as_str().is_empty() {
                    return Some(t.clone());
                }
            },
            None => {},
        }
        i += 1;
    }
    assert(all.skip(n as int).len() == 0);
    None
}

/// The edge location that a reply names, in upper case.
pub fn parse_colo(body: &str) -> (r: Option<String>)
    ensures
        text::opt_view(r) == colo_in(text::lines_of(body@)),
{
    let lines = text::lines(body);
    let ghost all = text::views(lines@);
    let n: usize = lines.len();
    let mut found: Vec<Option<String>> = Vec::new();
    let mut i: usize = 0;
    while i < n
        invariant
            i <= n,
            n == lines@.len(),
            all == text::views(lines@),
            opt_views(found@) == upper_colos(all).take(i as int),
        decreases n - i,
    {
        let ghost before = found@;
        let upper = match colo_of_line(lines[i].as_str()) {
            Some(t) => Some(text::to_uppercase(t.as_str())),
            None => None,
        };
        found.push(upper);
        proof {
            assert(all[i as int] == lines@[i as int]@);
            assert(opt_views(found@) =~= opt_views(before).push(text::opt_view(upper)));
            assert(upper_colos(all).take(i + 1) =~= upper_colos(all).take(i as int).push(
                upper_colos(all)[i as int],
            ));
        }
        i += 1;
    }
    assert(upper_colos(all).take(n as int) =~= upper_colos(all));
    first_colo(&found)
}

/// The edge location that the bytes of a reply name, in upper case.
pub fn colo_from_reply(reply: &Vec<u8>) -> (r: Option<String>)
    ensures
        text::opt_view(r) == colo_in(text::lines_of(text::utf8_lossy(reply@))),
{
    let body = text::from_utf8_lossy(reply);
    parse_colo(body.as_str())
}

// ---- collecting results ----

/// The results that were kept, in the order in which they came.
pub open spec fn kept(outcomes: Seq<Option<IpResult>>) -> Seq<IpResult>
    decreases outcomes.len(),
{
    if outcomes.len() == 0 {
        Seq::empty()
    } else {
        match outcomes.last() {
            Some(r) => kept(outcomes.drop_last()).push(r),
            None => kept(outcomes.drop_last()),
        }
    }
}

/// Gathers the outcomes of a scan as they come in.
pub struct ScanCollector {
    results: Vec<IpResult>,
    outcomes: Ghost<Seq<Option<IpResult>>>,
}

impl ScanCollector {
    /// The outcomes so far.
    pub closed spec fn history(self) -> Seq<Option<IpResult>> {
        self.outcomes@
    }

    /// What ties the results to the outcomes.
    pub closed spec fn well_formed(self) -> bool {
        self.results@ == kept(self.outcomes@)
    }

    /// A collector that has seen nothing.
    pub fn new() -> (r: ScanCollector)
        ensures
            r.well_formed(),
            r.history() == Seq::<Option<IpResult>>::empty(),
    {
        ScanCollector { results: Vec::new(), outcomes: Ghost(Seq::empty()) }
    }

    /// Takes the outcome for one address into account, and tells how many results there are.
    pub fn record(&mut self, outcome: Option<IpResult>) -> (hits: usize)
        requires
            old(self).well_formed(),
        ensures
            final(self).well_formed(),
            final(self).history() == old(self).history().push(outcome),
            hits == kept(final(self).history()).len(),
    {
        proof {
            assert(self.outcomes@.push(outcome).drop_last() =~= self.outcomes@);
        }
        self.outcomes = Ghost(self.outcomes@.push(outcome));
        match outcome {
            Some(r) => {
                self.results.push(r);
            },
            None => {},
        }
        self.results.len()
    }

    /// The results, with ascending latency.
    pub fn finish(self) -> (r: Vec<IpResult>)
        requires
            self.well_formed(),
        ensures
            order::sorted_by(kept(self.history()), types::delay_keys(kept(self.history())), r@),
    {
        types::sort_by_delay(&self.results)
    }
}

// ---- counting by edge location ----

/// The edge locations of results, each once, in the order in which they first occur.
pub open spec fn colos(s: Seq<IpResult>) -> Seq<Seq<char>>
    decreases s.len(),
{
    if s.len() == 0 {
        Seq::empty()
    } else {
        let before = colos(s.drop_last());
        if before.contains(s.last().colo@) {
            before
        } else {
            before.push(s.last().colo@)
        }
    }
}

/// How many results have the edge location `c`.
pub open spec fn colo_count(s: Seq<IpResult>, c: Seq<char>) -> nat
    decreases s.len(),
{
    if s.len() == 0 {
        0
    } else {
        colo_count(s.drop_last(), c) + (if s.last().colo@ == c {
            1nat
        } else {
            0nat
        })
    }
}

/// The edge locations of results and how many results each has.
pub open spec fn tally(s: Seq<IpResult>) -> Seq<(Seq<char>, nat)> {
    colos(s).map_values(|c: Seq<char>| (c, colo_count(s, c)))
}

/// Sorting keys that put higher counts first.
pub open spec fn count_keys(t: Seq<(Seq<char>, nat)>) -> Seq<i128> {
    t.map_values(|p: (Seq<char>, nat)| (-(p.1 as int)) as i128)
}

/// The texts and counts of a list.
pub open spec fn count_views(v: Seq<(String, usize)>) -> Seq<(Seq<char>, nat)> {
    v.map_values(|p: (String, usize)| (p.0@, p.1 as nat))
}

/// Each edge location stands once in `colos`, and stands there if some result has it. A count
/// never exceeds the number of results, and is positive for those that stand there.
pub proof fn law_colos(s: Seq<IpResult>)
    ensures
        colos(s).no_duplicates(),
        forall|i: int| 0 <= i < s.len() ==> colos(s).contains(#[trigger] s[i].colo@),
        forall|c: Seq<char>| #[trigger] colo_count(s, c) <= s.len(),
        forall|c: Seq<char>| colos(s).contains(c) <==> #[trigger] colo_count(s, c) > 0,
    decreases s.len(),
{
    if s.len() > 0 {
        let init = s.drop_last();
        law_colos(init);
        let c0 = s.last().colo@;
        let before = colos(init);
        let all = colos(s);
        assert forall|c: Seq<char>| all.contains(c) <==> before.contains(c) || c == c0 by {
            if before.contains(c0) {
            } else {
                assert(all[before.len() as int] == c0);
                if before.contains(c) {
                    let k = choose|k: int| 0 <= k < before.len() && before[k] == c;
                    assert(all[k] == c);
                }
            }
        }
        assert forall|i: int| 0 <= i < s.len() implies all.contains(#[trigger] s[i].colo@) by {
            if i < init.len() {
                assert(init[i] == s[i]);
                assert(before.contains(init[i].colo@));
            }
        }
        assert forall|c: Seq<char>| #[trigger] colo_count(s, c) <= s.len() by {
            assert(colo_count(init, c) <= init.len());
        }
        assert forall|c: Seq<char>| all.contains(c) <==> #[trigger] colo_count(s, c) > 0 by {
            assert(before.contains(c) <==> colo_count(init, c) > 0);
        }
    }
}

/// The edge locations of results and how many results each has, the most frequent first; those
/// with equal counts in the order in which they first occur.
pub fn region_counts(results: &Vec<IpResult>) -> (r: Vec<(String, usize)>)
    ensures
        order::sorted_by(tally(results@), count_keys(tally(results@)), count_views(r@)),
{
    let n: usize = results.len();
    let mut names: Vec<String> = Vec::new();
    let mut counts: Vec<usize> = Vec::new();
    let mut i: usize = 0;
    assert(text::views(names@) =~= colos(results@.take(0)));
    while i < n
        invariant
            i <= n,
            n == results@.len(),
            text::views(names@) == colos(results@.take(i as int)),
            counts@.len() == names@.len(),
            forall|k: int|
                0 <= k < names@.len() ==> #[trigger] counts@[k] == colo_count(
                    results@.take(i as int),
                    names@[k]@,
                ),
        decreases n - i,
    {
        let ghost done = results@.take(i as int);
        let ghost next = results@.take(i + 1);
        let ghost c0 = results@[i as int].colo@;
        let ghost old_names = names@;
        let ghost old_counts = counts@;
        proof {
            assert(next.drop_last() =~= done);
            assert(next.last() == results@[i as int]);
            law_colos(done);
        }
        let m: usize = names.len();
        let mut k: usize = 0;
        while k < m && !text::same_text(names[k].as_str(), results[i].colo.as_str())
            invariant
                k <= m,
                m == names@.len(),
                i < results@.len(),
                c0 == results@[i as int].colo@,
                forall|j: int| 0 <= j < k ==> #[trigger] names@[j]@ != c0,
            decreases m - k,
        {
            k += 1;
        }
        if k < m {
            let c: usize = counts[k];
            proof {
                assert(counts@[k as int] == colo_count(done, names@[k as int]@));
                assert(text::views(names@)[k as int] == c0);
                assert(colos(done).contains(c0));
                assert(colo_count(done, c0) <= done.len());
            }
            counts.set(k, c + 1);
            proof {
                assert forall|j: int| 0 <= j < names@.len() implies #[trigger] counts@[j]
                    == colo_count(next, names@[j]@) by {
                    assert(old_counts[j] == colo_count(done, names@[j]@));
                    if j != k {
                        assert(text::views(names@)[j] != text::views(names@)[k as int]);
                    }
                }
            }
        } else {
            names.push(results[i].colo.clone());
            counts.push(1);
            proof {
                assert(!colos(done).contains(c0)) by {
                    if colos(done).contains(c0) {
                        let j = choose|j: int| 0 <= j < colos(done).len() && colos(done)[j] == c0;
                        assert(text::views(old_names)[j] == old_names[j]@);
                    }
                }
                assert(colo_count(done, c0) == 0);
                text::lemma_views_push(old_names, names@[names@.len() - 1]);
                assert(text::views(names@) =~= colos(next));
                assert forall|j: int| 0 <= j < names@.len() implies #[trigger] counts@[j]
                    == colo_count(next, names@[j]@) by {
                    if j < old_names.len() {
                        assert(old_counts[j] == colo_count(done, old_names[j]@));
                        assert(text::views(old_names)[j] == old_names[j]@);
                        assert(colos(done).contains(old_names[j]@));
                    }
                }
            }
        }
        i += 1;
    }
    assert(results@.take(n as int) =~= results@);
    let m: usize = names.len();
    let mut keys: Vec<i128> = Vec::new();
    let mut k: usize = 0;
    let ghost t = tally(results@);
    proof {
        law_colos(results@);
        assert(t.len() == m);
    }
    while k < m
        invariant
            k <= m,
            m == names@.len(),
            m == counts@.len(),
            t == tally(results@),
            t.len() == m,
            text::views(names@) == colos(results@),
            forall|j: int|
                0 <= j < names@.len() ==> #[trigger] counts@[j] == colo_count(
                    results@,
                    names@[j]@,
                ),
            keys@ == count_keys(t).take(k as int),
        decreases m - k,
    {
        proof {
            assert(text::views(names@)[k as int] == names@[k as int]@);
            assert(t[k as int] == (names@[k as int]@, counts@[k as int] as nat));
            assert(count_keys(t).take(k + 1) =~= count_keys(t).take(k as int).push(
                (-(counts@[k as int] as int)) as i128,
            ));
        }
        keys.push(-(counts[k] as i128));
        k += 1;
    }
    assert(count_keys(t).take(m as int) =~= count_keys(t));
    let positions = order::stable_order(&keys);
    let mut out: Vec<(String, usize)> = Vec::new();
    let mut p: usize = 0;
    while p < m
        invariant
            p <= m,
            m == names@.len(),
            m == counts@.len(),
            m == keys@.len(),
            t == tally(results@),
            t.len() == m,
            text::views(names@) == colos(results@),
            forall|j: int|
                0 <= j < names@.len() ==> #[trigger] counts@[j] == colo_count(
                    results@,
                    names@[j]@,
                ),
            order::is_stable_order(keys@, positions@),
            count_views(out@) == order::arranged(t, positions@).take(p as int),
        decreases m - p,
    {
        let at: usize = positions[p];
        let ghost before = out@;
        out.push((names[at].clone(), counts[at]));
        proof {
            assert(text::views(names@)[at as int] == names@[at as int]@);
            assert(t[at as int] == (names@[at as int]@, counts@[at as int] as nat));
            let item = (names@[at as int]@, counts@[at as int] as nat);
            assert(count_views(out@) =~= count_views(before).push(item));
            assert(order::arranged(t, positions@).take(p + 1) =~= order::arranged(
                t,
                positions@,
            ).take(p as int).push(item));
        }
        p += 1;
    }
    assert(order::arranged(t, positions@).take(m as int) =~= order::arranged(t, positions@));
    assert(order::is_stable_order(count_keys(t), positions@));
    out
}

/// One part of the summary: an edge location and its count.
pub open spec fn count_text(p: (Seq<char>, nat)) -> Seq<char> {
    p.0 + ": "@ + text::decimal(p.1)
}

/// The line that is said at the end of a scan with these counts.
pub open spec fn summary_text(total: nat, counts: Seq<(Seq<char>, nat)>) -> Seq<char> {
    if total == 0 {
        "  延迟扫描：未找到可用 IP"@
    } else {
        "延迟扫描完成  共 "@ + text::decimal(total) + " 个可用 IP  |  "@ + text::joined(
            counts.map_values(|p: (Seq<char>, nat)| count_text(p)),
            "  |  "@,
        )
    }
}

/// The line that is said at the end of a scan.
pub fn scan_result_summary(results: &Vec<IpResult>) -> (r: String)
    ensures
        exists|counts: Seq<(Seq<char>, nat)>| #[trigger]
            order::sorted_by(tally(results@), count_keys(tally(results@)), counts) && r@
                == summary_text(results@.len(), counts),
{
    let counts = region_counts(results);
    let ghost view = count_views(counts@);
    if results.is_empty() {
        return "  延迟扫描：未找到可用 IP".to_owned();
    }
    let ghost wanted = view.map_values(|p: (Seq<char>, nat)| count_text(p));
    let n: usize = counts.len();
    let mut parts: Vec<String> = Vec::new();
    let mut i: usize = 0;
    while i < n
        invariant
            i <= n,
            n == counts@.len(),
            view == count_views(counts@),
            wanted == view.map_values(|p: (Seq<char>, nat)| count_text(p)),
            text::views(parts@) == wanted.take(i as int),
        decreases n - i,
    {
        let ghost before = parts@;
        let mut part: String = counts[i].0.clone();
        part.append(": ");
        text::push_decimal(&mut part, counts[i].1 as u64);
        proof {
            assert(view[i as int] == (counts@[i as int].0@, counts@[i as int].1 as nat));
            assert(part@ == wanted[i as int]);
            text::lemma_views_push(before, part);
            assert(wanted.take(i + 1) =~= wanted.take(i as int).push(wanted[i as int]));
        }
        parts.push(part);
        i += 1;
    }
    assert(wanted.take(n as int) =~= wanted);
    let list = text::join(&parts, "  |  ");
    let mut out: String = "延迟扫描完成  共 ".to_owned();
    text::push_decimal(&mut out, results.len() as u64);
    out.append(" 个可用 IP  |  ");
    out.append(list.as_str());
    out
}

// ---- what scanning is for ----

/// The timing of an address is over once a connection failed or all were made. One failure leaves no
/// latency; without one the latency is the lowest timing that is not zero.
pub proof fn law_ping_run(run: PingRun)
    ensures
        run.over() <==> run.history().len() >= run.wanted() || exists|i: int|
            0 <= i < run.history().len() && #[trigger] run.history()[i] is None,
        (exists|i: int| 0 <= i < run.history().len() && #[trigger] run.history()[i] is None)
            ==> run.outcome() is None,
        run.outcome() matches Some(d) ==> d > 0 && run.history().contains(Some(d)) && forall|i: int|
            0 <= i < run.history().len() ==> (#[trigger] run.history()[i] matches Some(ms) && (ms
                == 0 || d <= ms)),
        run.outcome() is None ==> run.broken() || forall|i: int|
            0 <= i < run.history().len() ==> #[trigger] run.history()[i] == Some(0u64),
{
    let h = run.history();
    law_lowest_timing(h);
    if h.contains(None) {
        let k = choose|k: int| 0 <= k < h.len() && h[k] == None::<u64>;
        assert(h[k] is None);
    }
    if exists|i: int| 0 <= i < h.len() && #[trigger] h[i] is None {
        let k = choose|i: int| 0 <= i < h.len() && #[trigger] h[i] is None;
        assert(h[k] == None::<u64>);
        assert(h.contains(None));
    }
}

/// What is collected is every result that came, in the order in which they came, and nothing else.
pub proof fn law_everything_is_kept(outcomes: Seq<Option<IpResult>>)
    ensures
        kept(outcomes).map_values(|r: IpResult| Some(r)) == outcomes.filter(
            |o: Option<IpResult>| o is Some,
        ),
    decreases outcomes.len(),
{
    reveal(Seq::filter);
    if outcomes.len() > 0 {
        law_everything_is_kept(outcomes.drop_last());
    }
    assert(kept(outcomes).map_values(|r: IpResult| Some(r)) =~= outcomes.filter(
        |o: Option<IpResult>| o is Some,
    ));
}

/// What comes later is collected after what came before, whatever that was.
pub proof fn law_collecting_goes_on(a: Seq<Option<IpResult>>, b: Seq<Option<IpResult>>, r: IpResult)
    ensures
        kept(a + b) == kept(a) + kept(b),
        kept(seq![Some(r)]) == seq![r],
        kept(seq![None::<IpResult>]).len() == 0,
    decreases b.len(),
{
    assert(seq![Some(r)].drop_last() =~= Seq::<Option<IpResult>>::empty());
    assert(seq![None::<IpResult>].drop_last() =~= Seq::<Option<IpResult>>::empty());
    assert(kept(Seq::<Option<IpResult>>::empty()) =~= Seq::<IpResult>::empty());
    assert(kept(seq![Some(r)]) =~= seq![r]);
    if b.len() == 0 {
        assert(a + b =~= a);
        assert(kept(a) + kept(b) =~= kept(a));
    } else {
        law_collecting_goes_on(a, b.drop_last(), r);
        assert((a + b).drop_last() =~= a + b.drop_last());
        assert(kept(a + b) =~= kept(a) + kept(b));
    }
}

/// An edge location is wanted where no region is asked for, or some region, at any place, names it
/// whatever the case of its letters; and only then.
pub proof fn law_region_kept(cfg: ScanConfig, colo: Seq<char>)
    ensures
        region_kept(cfg, colo) <==> cfg.regions@.len() == 0 || exists|k: int|
            0 <= k < cfg.regions@.len() && text::same_but_case((#[trigger] cfg.regions@[k])@, colo),
{
    let list = text::views(cfg.regions@);
    if text::listed_but_case(list, colo) {
        let k = choose|k: int| 0 <= k < list.len() && text::same_but_case(#[trigger] list[k], colo);
        assert(list[k] == cfg.regions@[k]@);
    }
    if exists|k: int|
        0 <= k < cfg.regions@.len() && text::same_but_case((#[trigger] cfg.regions@[k])@, colo) {
        let k = choose|k: int|
            0 <= k < cfg.regions@.len() && text::same_but_case((#[trigger] cfg.regions@[k])@, colo);
        assert(list[k] == cfg.regions@[k]@);
    }
}

/// A line gives an edge location where it starts with "colo=": what follows, without the white space
/// around it. No other line gives one.
pub proof fn law_colo_text(rest: Seq<char>, line: Seq<char>)
    ensures
        colo_text("colo="@ + rest) == Some(text::trimmed(rest)),
        colo_text(line) is Some ==> "colo="@.is_prefix_of(line),
{
    reveal_strlit("colo=");
    let s = "colo="@ + rest;
    assert(s.take(5) =~= "colo="@);
    assert(s.skip(5) =~= rest);
    if colo_text(line) is Some {
        assert(line.subrange(0, 5) =~= line.take(5));
    }
}

/// A reply names the edge location of the first line that gives one that is not empty in upper case;
/// where no line does, it names none.
pub proof fn law_first_colo_counts(lines: Seq<Seq<char>>)
    ensures
        match colo_in(lines) {
            Some(t) => t.len() > 0 && exists|k: int|
                0 <= k < lines.len() && #[trigger] gives_colo(lines[k], t) && forall|i: int|
                    0 <= i < k ==> gives_no_colo(#[trigger] lines[i]),
            None => forall|i: int| 0 <= i < lines.len() ==> gives_no_colo(#[trigger] lines[i]),
        },
    decreases lines.len(),
{
    let found = upper_colos(lines);
    if lines.len() > 0 {
        let rest = lines.drop_first();
        law_first_colo_counts(rest);
        assert(found.drop_first() =~= upper_colos(rest));
        assert(found[0] == match colo_text(lines[0]) {
            Some(t) => Some(text::uppercase(t)),
            None => None,
        });
        match colo_in(lines) {
            Some(t) => {
                if gives_no_colo(lines[0]) {
                    let k = choose|k: int|
                        0 <= k < rest.len() && #[trigger] gives_colo(rest[k], t) && forall|i: int|
                            0 <= i < k ==> gives_no_colo(#[trigger] rest[i]);
                    assert(gives_colo(lines[k + 1], t));
                    assert forall|i: int| 0 <= i < k + 1 implies gives_no_colo(
                        #[trigger] lines[i],
                    ) by {
                        if i > 0 {
                            assert(rest[i - 1] == lines[i]);
                        }
                    }
                } else {
                    assert(gives_colo(lines[0], t));
                }
            },
            None => {
                assert forall|i: int| 0 <= i < lines.len() implies gives_no_colo(
                    #[trigger] lines[i],
                ) by {
                    if i > 0 {
                        assert(rest[i - 1] == lines[i]);
                    }
                }
            },
        }
    }
}

/// Whether a line gives the edge location `t`.
pub open spec fn gives_colo(line: Seq<char>, t: Seq<char>) -> bool {
    colo_text(line) matches Some(c) && text::uppercase(c) == t
}

/// Whether a line gives no edge location, or an empty one.
pub open spec fn gives_no_colo(line: Seq<char>) -> bool {
    colo_text(line) matches Some(c) ==> text::uppercase(c).len() == 0
}

/// Of texts that may be missing, the first that is there and is not empty is taken.
pub proof fn law_first_in(found: Seq<Option<Seq<char>>>, before: Seq<Option<Seq<char>>>, t: Seq<char>)
    requires
        t.len() > 0,
        forall|i: int|
            0 <= i < before.len() ==> (#[trigger] before[i] matches Some(x) ==> x.len() == 0),
    ensures
        first_in(before + seq![Some(t)] + found) == Some(t),
        first_in(before) is None,
    decreases before.len(),
{
    let all = before + seq![Some(t)] + found;
    if before.len() == 0 {
        assert(all[0] == Some(t));
    } else {
        let rest = before.drop_first();
        assert forall|i: int| 0 <= i < rest.len() implies (#[trigger] rest[i] matches Some(x)
            ==> x.len() == 0) by {
            assert(rest[i] == before[i + 1]);
        }
        law_first_in(found, rest, t);
        assert(all[0] == before[0]);
        assert(all.drop_first() =~= rest + seq![Some(t)] + found);
    }
}

/// The texts of optional strings stand where the strings stand.
pub proof fn law_opt_views(v: Seq<Option<String>>, i: int)
    requires
        0 <= i < v.len(),
    ensures
        opt_views(v).len() == v.len(),
        v[i] matches Some(s) ==> opt_views(v)[i] == Some(s@),
        v[i] is None ==> opt_views(v)[i] is None,
{
}

/// An edge location counts the results that have it.
pub proof fn law_colo_count(s: Seq<IpResult>, c: Seq<char>)
    ensures
        colo_count(s, c) == s.filter(|r: IpResult| r.colo@ == c).len(),
    decreases s.len(),
{
    reveal(Seq::filter);
    if s.len() > 0 {
        law_colo_count(s.drop_last(), c);
    }
}

/// Edge locations stand in the order in which they first occur: further results add theirs behind.
pub proof fn law_colos_in_order(a: Seq<IpResult>, b: Seq<IpResult>)
    ensures
        colos(a).is_prefix_of(colos(a + b)),
    decreases b.len(),
{
    if b.len() == 0 {
        assert(a + b =~= a);
        assert(colos(a) =~= colos(a).subrange(0, colos(a).len() as int));
    } else {
        law_colos_in_order(a, b.drop_last());
        assert((a + b).drop_last() =~= a + b.drop_last());
        let before = colos(a + b.drop_last());
        assert(colos(a) =~= colos(a + b).subrange(0, colos(a).len() as int)) by {
            assert(before.subrange(0, colos(a).len() as int) == colos(a));
            assert(colos(a + b).subrange(0, colos(a).len() as int) =~= before.subrange(
                0,
                colos(a).len() as int,
            ));
        }
    }
}

/// The counts tell for each edge location how many results have it, the most frequent first and those
/// with equal counts in the order in which they first occur; every edge location stands there once.
pub proof fn law_region_counts(s: Seq<IpResult>, counts: Seq<(Seq<char>, nat)>)
    requires
        order::sorted_by(tally(s), count_keys(tally(s)), counts),
        s.len() <= usize::MAX,
    ensures
        exists|from: Seq<usize>|
            {
                &&& #[trigger] from.no_duplicates()
                &&& from.len() == colos(s).len()
                &&& counts.len() == colos(s).len()
                &&& forall|i: int|
                    0 <= i < from.len() ==> {
                        let c = colos(s)[(#[trigger] from[i]) as int];
                        &&& from[i] < colos(s).len()
                        &&& counts[i].0 == c
                        &&& counts[i].1 == s.filter(|r: IpResult| r.colo@ == c).len()
                    }
                &&& forall|i: int, j: int|
                    0 <= i < j < from.len() ==> {
                        let a = (#[trigger] from[i]) as int;
                        let b = (#[trigger] from[j]) as int;
                        counts[i].1 >= counts[j].1 && (counts[i].1 == counts[j].1 ==> a < b)
                    }
            },
{
    let t = tally(s);
    let keys = count_keys(t);
    order::law_sorted_is_stable(t, keys, counts);
    let from = choose|from: Seq<usize>|
        {
            &&& #[trigger] from.no_duplicates()
            &&& from.len() == keys.len()
            &&& counts.len() == keys.len()
            &&& forall|i: int|
                0 <= i < from.len() ==> (#[trigger] from[i]) < keys.len() && counts[i]
                    == t[from[i] as int]
            &&& forall|i: int, j: int|
                0 <= i < j < from.len() ==> {
                    let a = (#[trigger] from[i]) as int;
                    let b = (#[trigger] from[j]) as int;
                    keys[a] <= keys[b] && (keys[a] == keys[b] ==> a < b)
                }
        };
    law_colos(s);
    assert(from.no_duplicates());
    assert forall|i: int| 0 <= i < from.len() implies {
        let c = colos(s)[(#[trigger] from[i]) as int];
        &&& from[i] < colos(s).len()
        &&& counts[i].0 == c
        &&& counts[i].1 == s.filter(|r: IpResult| r.colo@ == c).len()
    } by {
        let c = colos(s)[from[i] as int];
        law_colo_count(s, c);
        assert(counts[i] == t[from[i] as int]);
    }
    assert forall|i: int, j: int| 0 <= i < j < from.len() implies {
        let a = (#[trigger] from[i]) as int;
        let b = (#[trigger] from[j]) as int;
        counts[i].1 >= counts[j].1 && (counts[i].1 == counts[j].1 ==> a < b)
    } by {
        let a = from[i] as int;
        let b = from[j] as int;
        assert(counts[i] == t[a] && counts[j] == t[b]);
        assert(colo_count(s, colos(s)[a]) <= s.len());
        assert(colo_count(s, colos(s)[b]) <= s.len());
        assert(keys[a] == -(t[a].1 as int));
        assert(keys[b] == -(t[b].1 as int));
    }
}

/// The texts and counts of a list stand where the strings and numbers stand.
pub proof fn law_count_views(v: Seq<(String, usize)>, i: int)
    requires
        0 <= i < v.len(),
    ensures
        count_views(v).len() == v.len(),
        count_views(v)[i].0 == v[i].0@,
        count_views(v)[i].1 == v[i].1,
{
}

/// The summary tells how many results there are and, in the given order, each edge location with its
/// count; without results it tells that there are none.
pub proof fn law_summary(
    total: nat,
    counts: Seq<(Seq<char>, nat)>,
    more: Seq<(Seq<char>, nat)>,
    c: Seq<char>,
    n: nat,
)
    requires
        total > 0,
        counts.len() > 0,
        more.len() > 0,
    ensures
        summary_text(0, counts) == "  延迟扫描：未找到可用 IP"@,
        summary_text(total, seq![(c, n)]) == "延迟扫描完成  共 "@ + text::decimal(total)
            + " 个可用 IP  |  "@ + c + ": "@ + text::decimal(n),
        exists|tail: Seq<char>|
            {
                &&& summary_text(total, counts + more) == summary_text(total, counts) + "  |  "@
                    + tail
                &&& summary_text(total, more) == #[trigger] ("延迟扫描完成  共 "@ + text::decimal(
                    total,
                ) + " 个可用 IP  |  "@ + tail)
            },
{
    let part = |p: (Seq<char>, nat)| count_text(p);
    let one = seq![(c, n)].map_values(part);
    assert(one =~= seq![count_text((c, n))]);
    let head = "延迟扫描完成  共 "@ + text::decimal(total) + " 个可用 IP  |  "@;
    assert(summary_text(total, seq![(c, n)]) =~= head + c + ": "@ + text::decimal(n));
    let a = counts.map_values(part);
    let b = more.map_values(part);
    assert((counts + more).map_values(part) =~= a + b);
    text::law_joined(a, b, c, "  |  "@);
    let tail = text::joined(b, "  |  "@);
    assert(summary_text(total, counts + more) =~= summary_text(total, counts) + "  |  "@ + tail);
    assert(summary_text(total, more) == head + tail);
}

} // verus!
