//! What the commands do, step by step: scanning in rounds, measuring, and what follows.
use crate::config;
use crate::config::{Config, ScanConfig};
use crate::ip_loader;
use crate::ip_loader::{AddressLists, Ip, IpSet, LoadError};
use crate::order;
use crate::output::ShownResult;
use crate::speed_tester;
use crate::text;
use crate::types;
use crate::types::{IpResult, Timestamp};
use crate::web::RunEnd;
use vstd::prelude::*;

verus! {

// ---- scanning in rounds ----

/// How many results are wanted where no number is configured.
pub const DEFAULT_TARGET: usize = 8000;

/// What to do next in a scan.
#[derive(Debug)]
pub enum ScanStep {
    /// Scan these addresses and hand back the results; show the scan settings first, where
    /// `show_params` says so, after the notice, where there is one.
    Scan { ips: Vec<Ip>, show_params: bool, notice: Option<String> },
    /// Nothing is left to scan; say the notice, where there is one.
    Finished(Option<String>),
}

/// What is said before a further round.
pub open spec fn round_text(target: nat, found: nat, round: nat, fresh: nat) -> Seq<char> {
    "  地区过滤模式：目标 "@ + text::decimal(target) + " 个，已凑够 "@ + text::decimal(found)
        + " 个，补扫第 "@ + text::decimal(round) + " 轮（"@ + text::decimal(fresh) + " 个新 IP）"@
}

/// What is said where no address is left to sample.
pub open spec fn exhausted_text(round: nat) -> Seq<char> {
    "  地区过滤模式：候选池已耗尽（尝试第 "@ + text::decimal(round)
        + " 轮时采样不到新 IP），停止扫描"@
}

/// What is said where fewer results were found than wanted.
pub open spec fn shortfall_text(found: nat, target: nat, rounds: nat) -> Seq<char> {
    "  地区过滤模式：最终凑到 "@ + text::decimal(found) + " 个（目标 "@ + text::decimal(target)
        + "），候选池已耗尽或已达最大轮数 "@ + text::decimal(rounds)
}

/// A scan. Without wanted regions it is a single round over a sample; with them, rounds over fresh
/// samples follow each other until enough results are found, the rounds are used up or no address
/// is left.
pub struct ScanSession {
    mode: String,
    /// Whether regions are wanted.
    by_region: bool,
    /// How many addresses a round samples.
    sample: Option<usize>,
    /// How many results are wanted.
    target: usize,
    max_rounds: usize,
    /// How many rounds were begun.
    rounds: usize,
    /// Whether a sample was empty.
    exhausted: bool,
    /// The addresses that were handed out.
    scanned: IpSet,
    /// The results so far.
    results: Vec<IpResult>,
    /// The addresses that each round handed out.
    batches: Ghost<Seq<Seq<Ip>>>,
}

/// The wanted number of results.
pub open spec fn target_of(cfg: ScanConfig) -> usize {
    match cfg.max_ips {
        Some(n) => n,
        None => DEFAULT_TARGET,
    }
}

/// How many addresses a round samples.
pub open spec fn sample_of(cfg: ScanConfig) -> Option<usize> {
    if cfg.regions@.len() == 0 {
        cfg.max_ips
    } else {
        Some(cfg.batch_size)
    }
}

/// Whether `scanned` holds the addresses of all batches.
pub open spec fn gathers(scanned: Set<Ip>, batches: Seq<Seq<Ip>>) -> bool {
    forall|ip: Ip| #[trigger]
        scanned.contains(ip) <==> exists|k: int|
            0 <= k < batches.len() && (#[trigger] batches[k]).contains(ip)
}

/// Whether no two batches have an address in common.
pub open spec fn apart(batches: Seq<Seq<Ip>>) -> bool {
    forall|i: int, j: int, ip: Ip|
        0 <= i < j < batches.len() && #[trigger] batches[i].contains(ip) ==> !(
        #[trigger] batches[j].contains(ip))
}

/// What a scan holds.
pub struct ScanSessionView {
    pub mode: Seq<char>,
    pub by_region: bool,
    pub sample: Option<usize>,
    pub target: usize,
    pub max_rounds: usize,
    pub rounds: usize,
    pub exhausted: bool,
    pub scanned: Set<Ip>,
    pub results: Seq<IpResult>,
    pub batches: Seq<Seq<Ip>>,
}

impl View for ScanSession {
    type V = ScanSessionView;

    closed spec fn view(&self) -> ScanSessionView {
        ScanSessionView {
            mode: self.mode@,
            by_region: self.by_region,
            sample: self.sample,
            target: self.target,
            max_rounds: self.max_rounds,
            rounds: self.rounds,
            exhausted: self.exhausted,
            scanned: self.scanned@,
            results: self.results@,
            batches: self.batches@,
        }
    }
}

impl ScanSession {
    /// What ties the addresses that were handed out to the rounds: no address was handed out by two
    /// rounds.
    pub open spec fn well_formed(self) -> bool {
        &&& self@.batches.len() == self@.rounds
        &&& self@.rounds <= self.round_limit()
        &&& ip_loader::sample_limit(self@.sample) <= usize::MAX / 8
        &&& gathers(self@.scanned, self@.batches)
        &&& apart(self@.batches)
    }

    /// How many rounds there are at most.
    pub open spec fn round_limit(self) -> nat {
        if self@.by_region {
            self@.max_rounds as nat
        } else {
            1
        }
    }

    /// Whether another round is due.
    pub open spec fn goes_on(self) -> bool {
        &&& self@.rounds < self.round_limit()
        &&& self@.by_region ==> !self@.exhausted && self@.results.len() < self@.target
    }

    /// Whether nothing but the progress differs.
    pub open spec fn same_task(self, other: ScanSession) -> bool {
        &&& self@.mode == other@.mode
        &&& self@.by_region == other@.by_region
        &&& self@.sample == other@.sample
        &&& self@.target == other@.target
        &&& self@.max_rounds == other@.max_rounds
    }

    /// A scan that was not begun.
    pub fn new(cfg: &ScanConfig) -> (r: Self)
        requires
            ip_loader::sample_limit(sample_of(*cfg)) <= usize::MAX / 8,
        ensures
            r.well_formed(),
            r@.mode == cfg.mode@,
            r@.by_region == (cfg.regions@.len() > 0),
            r@.sample == sample_of(*cfg),
            r@.target == target_of(*cfg),
            r@.max_rounds == cfg.max_scan_rounds,
            r@.rounds == 0,
            !r@.exhausted,
            r@.results == Seq::<IpResult>::empty(),
    {
        let by_region = !cfg.regions.is_empty();
        ScanSession {
            mode: cfg.mode.clone(),
            by_region,
            sample: if by_region {
                Some(cfg.batch_size)
            } else {
                cfg.max_ips
            },
            target: match cfg.max_ips {
                Some(n) => n,
                None => DEFAULT_TARGET,
            },
            max_rounds: cfg.max_scan_rounds,
            rounds: 0,
            exhausted: false,
            scanned: IpSet::new(),
            results: Vec::new(),
            batches: Ghost(Seq::empty()),
        }
    }

    /// What to do next. Where a round is due, it samples addresses that no earlier round had.
    pub fn next(&mut self, lists: &AddressLists) -> (r: Result<ScanStep, LoadError>)
        requires
            old(self).well_formed(),
        ensures
            final(self).well_formed(),
            final(self).same_task(*old(self)),
            final(self)@.results == old(self)@.results,
            ({
                let networks = ip_loader::mode_networks(old(self)@.mode, *lists);
                let known = config::is_scan_mode(old(self)@.mode);
                let limit = ip_loader::sample_limit(old(self)@.sample) as nat;
                let round = (old(self)@.rounds + 1) as nat;
                &&& !old(self).goes_on() || (known && (limit == 0 || ip_loader::all_sampleable(
                    networks,
                ))) ==> r is Ok
                &&& old(self).goes_on() && !known ==> r is Err
                &&& match r {
                    Err(LoadError::UnknownMode(m)) => m@ == old(self)@.mode && !known,
                    Err(LoadError::WholeAddressSpace) => known && ip_loader::refused(
                        networks,
                        limit,
                        old(self)@.scanned,
                    ),
                    Ok(ScanStep::Scan { ips, show_params, notice }) => {
                        &&& old(self).goes_on()
                        &&& ip_loader::loaded(
                            networks,
                            limit,
                            old(self)@.scanned,
                            ips@,
                        )
                        &&& old(self)@.by_region ==> ips@.len() > 0
                        &&& show_params == (round == 1)
                        &&& text::opt_view(notice) == if round > 1 {
                            Some(
                                round_text(
                                    old(self)@.target as nat,
                                    old(self)@.results.len(),
                                    round,
                                    ips@.len(),
                                ),
                            )
                        } else {
                            None
                        }
                        &&& final(self)@.rounds == round
                        &&& final(self)@.exhausted == old(self)@.exhausted
                        &&& final(self)@.batches == old(self)@.batches.push(ips@)
                    },
                    Ok(ScanStep::Finished(notice)) => {
                        &&& final(self)@.rounds == old(self)@.rounds
                        &&& final(self)@.batches == old(self)@.batches
                        &&& !final(self).goes_on()
                        &&& if old(self).goes_on() {
                            &&& old(self)@.by_region
                            &&& ip_loader::loaded(
                                networks,
                                limit,
                                old(self)@.scanned,
                                Seq::empty(),
                            )
                            &&& text::opt_view(notice) == Some(exhausted_text(round))
                        } else {
                            notice is None
                        }
                    },
                }
                &&& r is Err ==> final(self)@.rounds == old(self)@.rounds
                    && final(self)@.batches == old(self)@.batches && final(self)@.exhausted
                    == old(self)@.exhausted
            }),
    {
        let limit: usize = if self.by_region {
            self.max_rounds
        } else {
            1
        };
        if self.rounds >= limit {
            return Ok(ScanStep::Finished(None));
        }
        if self.by_region && (self.exhausted || self.results.len() >= self.target) {
            return Ok(ScanStep::Finished(None));
        }
        let ips = match ip_loader::load_ips_excluding(
            self.mode.as_str(),
            self.sample,
            &self.scanned,
            lists,
        ) {
            Ok(ips) => ips,
            Err(e) => {
                return Err(e);
            },
        };
        let round: usize = self.rounds + 1;
        if self.by_region && ips.is_empty() {
            self.exhausted = true;
            let mut notice: String = "  地区过滤模式：候选池已耗尽（尝试第 ".to_owned();
            text::push_decimal(&mut notice, round as u64);
            notice.append(" 轮时采样不到新 IP），停止扫描");
            assert(ips@ =~= Seq::<Ip>::empty());
            return Ok(ScanStep::Finished(Some(notice)));
        }
        let notice = if round > 1 {
            let mut out: String = "  地区过滤模式：目标 ".to_owned();
            text::push_decimal(&mut out, self.target as u64);
            out.append(" 个，已凑够 ");
            text::push_decimal(&mut out, self.results.len() as u64);
            out.append(" 个，补扫第 ");
            text::push_decimal(&mut out, round as u64);
            out.append(" 轮（");
            text::push_decimal(&mut out, ips.len() as u64);
            out.append(" 个新 IP）");
            Some(out)
        } else {
            None
        };
        let ghost before = *self;
        remember(&mut self.scanned, &ips);
        self.rounds = round;
        self.batches = Ghost(self.batches@.push(ips@));
        proof {
            ip_loader::law_loaded(
                ip_loader::mode_networks(before.mode@, *lists),
                ip_loader::sample_limit(before.sample) as nat,
                before.scanned@,
                ips@,
            );
            lemma_batch_added(before@.scanned, before@.batches, ips@, self@.scanned);
        }
        Ok(ScanStep::Scan { ips, show_params: round == 1, notice })
    }

    /// Takes the results of a round into account.
    pub fn record(&mut self, found: Vec<IpResult>)
        requires
            old(self).well_formed(),
        ensures
            final(self).well_formed(),
            final(self).same_task(*old(self)),
            final(self)@.rounds == old(self)@.rounds,
            final(self)@.exhausted == old(self)@.exhausted,
            final(self)@.scanned == old(self)@.scanned,
            final(self)@.batches == old(self)@.batches,
            final(self)@.results == old(self)@.results + found@,
    {
        let mut found = found;
        self.results.append(&mut found);
    }

    /// The outcome of the scan, and what is said of it. Without wanted regions it is the results as
    /// they came; with them, those with the lowest latencies, as many as are wanted, and it is said
    /// where there are fewer.
    pub fn finish(self) -> (r: (Vec<IpResult>, Option<String>))
        requires
            self.well_formed(),
        ensures
            !self@.by_region ==> r.0@ == self@.results && r.1 is None,
            self@.by_region ==> is_selection(self@.results, self@.target as nat, r.0@),
            self@.by_region ==> text::opt_view(r.1) == if self@.results.len() < self@.target {
                Some(
                    shortfall_text(
                        self@.results.len(),
                        self@.target as nat,
                        self@.max_rounds as nat,
                    ),
                )
            } else {
                None
            },
    {
        if !self.by_region {
            return (self.results, None);
        }
        let found: usize = self.results.len();
        let notice = if found < self.target {
            let mut out: String = "  地区过滤模式：最终凑到 ".to_owned();
            text::push_decimal(&mut out, found as u64);
            out.append(" 个（目标 ");
            text::push_decimal(&mut out, self.target as u64);
            out.append("），候选池已耗尽或已达最大轮数 ");
            text::push_decimal(&mut out, self.max_rounds as u64);
            Some(out)
        } else {
            None
        };
        let mut sorted = types::sort_by_delay(&self.results);
        let ghost all = sorted@;
        sorted.truncate(self.target);
        proof {
            assert(order::sorted_by(self.results@, types::delay_keys(self.results@), all));
            assert(sorted@ =~= if self.target < all.len() {
                all.take(self.target as int)
            } else {
                all
            });
        }
        (sorted, notice)
    }
}

/// Puts addresses into a set.
fn remember(scanned: &mut IpSet, ips: &Vec<Ip>)
    ensures
        forall|ip: Ip| #[trigger]
            final(scanned)@.contains(ip) <==> old(scanned)@.contains(ip) || ips@.contains(ip),
{
    let n: usize = ips.len();
    let mut i: usize = 0;
    while i < n
        invariant
            i <= n,
            n == ips@.len(),
            forall|ip: Ip| #[trigger]
                scanned@.contains(ip) <==> old(scanned)@.contains(ip) || ips@.take(
                    i as int,
                ).contains(ip),
        decreases n - i,
    {
        let ghost done = ips@.take(i as int);
        let ghost next = ips@.take(i + 1);
        scanned.insert(ips[i]);
        proof {
            assert(next =~= done.push(ips@[i as int]));
            assert forall|ip: Ip| next.contains(ip) <==> done.contains(ip) || ip
                == ips@[i as int] by {
                if done.contains(ip) {
                    let k = choose|k: int| 0 <= k < done.len() && done[k] == ip;
                    assert(next[k] == ip);
                }
                assert(next[i as int] == ips@[i as int]);
            }
        }
        i += 1;
    }
    assert(ips@.take(n as int) =~= ips@);
}

/// Whether `r` holds the first `target` results of `s` with ascending latency.
pub open spec fn is_selection(s: Seq<IpResult>, target: nat, r: Seq<IpResult>) -> bool {
    exists|sorted: Seq<IpResult>| #[trigger]
        order::sorted_by(s, types::delay_keys(s), sorted) && r == if target < sorted.len() {
            sorted.take(target as int)
        } else {
            sorted
        }
}

proof fn lemma_batch_added(
    scanned: Set<Ip>,
    batches: Seq<Seq<Ip>>,
    ips: Seq<Ip>,
    after: Set<Ip>,
)
    requires
        gathers(scanned, batches),
        apart(batches),
        forall|ip: Ip| #[trigger] after.contains(ip) <==> scanned.contains(ip) || ips.contains(ip),
        forall|i: int| 0 <= i < ips.len() ==> !scanned.contains(#[trigger] ips[i]),
    ensures
        gathers(after, batches.push(ips)),
        apart(batches.push(ips)),
{
    let all = batches.push(ips);
    let n = batches.len() as int;
    assert(all[n] == ips);
    assert forall|ip: Ip| #[trigger] after.contains(ip) <==> exists|k: int|
        0 <= k < all.len() && (#[trigger] all[k]).contains(ip) by {
        if scanned.contains(ip) {
            let k = choose|k: int| 0 <= k < n && (#[trigger] batches[k]).contains(ip);
            assert(all[k].contains(ip));
        } else if ips.contains(ip) {
            assert(all[n].contains(ip));
        }
        if exists|k: int| 0 <= k < all.len() && (#[trigger] all[k]).contains(ip) {
            let k = choose|k: int| 0 <= k < all.len() && (#[trigger] all[k]).contains(ip);
            if k < n {
                assert(batches[k].contains(ip));
            }
        }
    }
    assert forall|i: int, j: int, ip: Ip|
        0 <= i < j < all.len() && #[trigger] all[i].contains(ip) implies !(
    #[trigger] all[j].contains(ip)) by {
        assert(batches[i].contains(ip));
        if j < n {
            assert(batches[j] == all[j]);
        } else {
            assert(scanned.contains(ip));
            if ips.contains(ip) {
                let k = choose|k: int| 0 <= k < ips.len() && ips[k] == ip;
                assert(!scanned.contains(ips[k]));
            }
        }
    }
}

/// No address is scanned in two rounds.
pub proof fn law_rounds_do_not_repeat(session: ScanSession, i: int, j: int, ip: Ip)
    requires
        session.well_formed(),
        0 <= i < j < session@.rounds,
        session@.batches[i].contains(ip),
    ensures
        !session@.batches[j].contains(ip),
{
}

/// A scan by region gives no more results than are wanted; they were all found by it, and their
/// latencies ascend. Where enough were found, it gives exactly as many as are wanted, and none that
/// it leaves out has a lower latency than one that it gives.
pub proof fn law_region_scan(s: Seq<IpResult>, target: nat, r: Seq<IpResult>)
    requires
        is_selection(s, target, r),
    ensures
        r.len() == if s.len() < target {
            s.len()
        } else {
            target
        },
        forall|i: int| 0 <= i < r.len() ==> s.contains(#[trigger] r[i]),
        forall|i: int, j: int|
            0 <= i <= j < r.len() ==> (#[trigger] r[i]).delay_ms <= (#[trigger] r[j]).delay_ms,
        exists|left: Seq<IpResult>|
            {
                &&& #[trigger] (r + left).to_multiset() == s.to_multiset()
                &&& forall|i: int, j: int|
                    0 <= i < r.len() && 0 <= j < left.len() ==> (#[trigger] r[i]).delay_ms <= (
                    #[trigger] left[j]).delay_ms
            },
{
    let keys = types::delay_keys(s);
    let sorted = choose|sorted: Seq<IpResult>| #[trigger]
        order::sorted_by(s, keys, sorted) && r == if target < sorted.len() {
            sorted.take(target as int)
        } else {
            sorted
        };
    order::law_sorted_is_permutation(s, keys, sorted);
    s.to_multiset_ensures();
    sorted.to_multiset_ensures();
    assert forall|i: int| 0 <= i < r.len() implies s.contains(#[trigger] r[i]) by {
        assert(r[i] == sorted[i]);
        assert(sorted.contains(sorted[i]));
        vstd::seq_lib::to_multiset_contains(sorted, sorted[i]);
        vstd::seq_lib::to_multiset_contains(s, sorted[i]);
    }
    assert forall|i: int, j: int| 0 <= i <= j < r.len() implies (#[trigger] r[i]).delay_ms <= (
    #[trigger] r[j]).delay_ms by {
        types::law_sorted_by_delay_ascends(s, sorted, i, j);
    }
    let left = sorted.skip(r.len() as int);
    assert(r + left =~= sorted);
    assert forall|i: int, j: int| 0 <= i < r.len() && 0 <= j < left.len() implies (
    #[trigger] r[i]).delay_ms <= (#[trigger] left[j]).delay_ms by {
        types::law_sorted_by_delay_ascends(s, sorted, i, r.len() + j);
    }
    assert((r + left).to_multiset() == s.to_multiset());
}

/// A scan by region goes on until enough results were found, its rounds are used up or no address
/// is left, and not after that; a scan without wanted regions has one round.
pub proof fn law_scan_ends(session: ScanSession)
    requires
        session.well_formed(),
    ensures
        session@.by_region ==> (session.goes_on() <==> session@.results.len() < session@.target
            && session@.rounds < session@.max_rounds && !session@.exhausted),
        !session@.by_region ==> (session.goes_on() <==> session@.rounds == 0),
{
}

// ---- the whole procedure ----

/// How far the whole procedure has come. The latencies are scanned, the speeds are measured, the
/// results are saved and exported, the records are synchronised, and the outcome is published.
#[derive(Clone, Copy, Debug, PartialEq, Eq, Structural)]
pub enum Stage {
    Scanning,
    Measuring,
    Saving,
    Exporting,
    Syncing,
    Publishing,
    Finished,
    /// A scan or a measurement failed, and the procedure was given up.
    Failed,
}

impl Stage {
    /// Whether the procedure has ended.
    pub open spec fn is_end(self) -> bool {
        self is Finished || self is Failed
    }

    /// The place of a stage in the procedure.
    pub open spec fn place(self) -> int {
        match self {
            Stage::Scanning => 0,
            Stage::Measuring => 1,
            Stage::Saving => 2,
            Stage::Exporting => 3,
            Stage::Syncing => 4,
            Stage::Publishing => 5,
            Stage::Finished => 6,
            Stage::Failed => 6,
        }
    }
}

/// The stage after the scan.
pub open spec fn after_scanning(config: Config, found: nat) -> Stage {
    if found > 0 && config.speed_test.auto_run {
        Stage::Measuring
    } else {
        Stage::Publishing
    }
}

/// The stage after the results were saved.
pub open spec fn after_saving(config: Config) -> Stage {
    if config.output.file is Some {
        Stage::Exporting
    } else {
        after_exporting(config)
    }
}

/// The stage after the results were exported.
pub open spec fn after_exporting(config: Config) -> Stage {
    if config.dns.enable {
        Stage::Syncing
    } else {
        Stage::Publishing
    }
}

/// What the scan gave.
#[derive(Debug)]
pub enum ScanReport {
    /// Nothing; this is said.
    Nothing(String),
    /// Results that are shown as they are.
    Table,
    /// Results that are measured, where the edge locations are limited to these.
    Measure(Option<Vec<String>>),
}

/// The edge locations to which measuring is limited after a scan.
pub open spec fn full_scope(config: Config) -> Option<Seq<Seq<char>>> {
    if config.speed_test.mode@ == "region"@ {
        Some(text::views(config.speed_test.regions@))
    } else {
        None
    }
}

/// The texts of a list of strings that may be missing.
pub open spec fn scope_view(scope: Option<Vec<String>>) -> Option<Seq<Seq<char>>> {
    match scope {
        Some(v) => Some(text::views(v@)),
        None => None,
    }
}

fn copy_strings(v: &Vec<String>) -> (r: Vec<String>)
    ensures
        text::views(r@) == text::views(v@),
        r@.len() == v@.len(),
{
    let n: usize = v.len();
    let mut out: Vec<String> = Vec::new();
    let mut i: usize = 0;
    while i < n
        invariant
            i <= n,
            n == v@.len(),
            out@.len() == i,
            forall|k: int| 0 <= k < i ==> (#[trigger] out@[k])@ == v@[k]@,
        decreases n - i,
    {
        out.push(v[i].clone());
        i += 1;
    }
    assert(text::views(out@) =~= text::views(v@));
    out
}

/// The whole procedure.
#[derive(Debug)]
pub struct FullRun {
    stage: Stage,
    /// The results that are published.
    results: Vec<IpResult>,
    /// The log that is published.
    log: Vec<String>,
}

/// What the whole procedure holds.
pub struct FullRunView {
    pub stage: Stage,
    pub results: Seq<IpResult>,
    pub log: Seq<String>,
}

impl View for FullRun {
    type V = FullRunView;

    closed spec fn view(&self) -> FullRunView {
        FullRunView {
            stage: self.stage,
            results: self.results@,
            log: self.log@,
        }
    }
}

impl FullRun {
    /// A procedure that was not begun.
    pub fn new() -> (r: Self)
        ensures
            r@.stage is Scanning,
            r@.results.len() == 0,
            r@.log.len() == 0,
    {
        FullRun { stage: Stage::Scanning, results: Vec::new(), log: Vec::new() }
    }

    /// How far the procedure has come.
    pub fn stage(&self) -> (r: Stage)
        ensures
            r == self@.stage,
    {
        self.stage
    }

    /// The results so far.
    pub fn results(&self) -> (r: &Vec<IpResult>)
        ensures
            r@ == self@.results,
    {
        &self.results
    }

    /// Takes the results of the scan into account. Without results there is nothing more to do.
    pub fn scanned(&mut self, found: Vec<IpResult>, config: &Config) -> (r: ScanReport)
        requires
            old(self)@.stage is Scanning,
            old(self)@.log.len() == 0,
        ensures
            final(self)@.stage == after_scanning(*config, found@.len()),
            final(self)@.results == found@,
            match r {
                ScanReport::Nothing(said) => {
                    &&& found@.len() == 0
                    &&& said@ == "没有找到延迟达标的 IP，退出"@
                    &&& text::views(final(self)@.log) == seq!["没有找到延迟达标的 IP"@]
                },
                ScanReport::Table => {
                    &&& found@.len() > 0
                    &&& !config.speed_test.auto_run
                    &&& final(self)@.log.len() == 0
                },
                ScanReport::Measure(scope) => {
                    &&& found@.len() > 0
                    &&& config.speed_test.auto_run
                    &&& scope_view(scope) == full_scope(*config)
                    &&& final(self)@.log.len() == 0
                },
            },
    {
        let empty = found.is_empty();
        self.results = found;
        if empty {
            self.stage = Stage::Publishing;
            self.log.push("没有找到延迟达标的 IP".to_owned());
            assert(text::views(self.log@) =~= seq!["没有找到延迟达标的 IP"@]);
            return ScanReport::Nothing("没有找到延迟达标的 IP，退出".to_owned());
        }
        if !config.speed_test.auto_run {
            self.stage = Stage::Publishing;
            return ScanReport::Table;
        }
        self.stage = Stage::Measuring;
        if text::same_text(config.speed_test.mode.as_str(), "region") {
            ScanReport::Measure(Some(copy_strings(&config.speed_test.regions)))
        } else {
            ScanReport::Measure(None)
        }
    }

    /// Takes the results after measuring into account, in the order of their rank: those that were
    /// measured are kept.
    pub fn measured(&mut self, ranked: Vec<IpResult>)
        requires
            old(self)@.stage is Measuring,
        ensures
            final(self)@.stage is Saving,
            final(self)@.results == ranked@.filter(|x: IpResult| x.speed_mbps is Some),
            final(self)@.log == old(self)@.log,
    {
        self.results = speed_tester::measured_only(&ranked);
        self.stage = Stage::Saving;
    }

    /// Goes on after the results were saved, or could not be.
    pub fn saved(&mut self, config: &Config)
        requires
            old(self)@.stage is Saving,
        ensures
            final(self)@.stage == after_saving(*config),
            final(self)@.results == old(self)@.results,
            final(self)@.log == old(self)@.log,
    {
        self.stage = if config.output.file.is_some() {
            Stage::Exporting
        } else if config.dns.enable {
            Stage::Syncing
        } else {
            Stage::Publishing
        };
    }

    /// Goes on after the results were exported, or could not be.
    pub fn exported(&mut self, config: &Config)
        requires
            old(self)@.stage is Exporting,
        ensures
            final(self)@.stage == after_exporting(*config),
            final(self)@.results == old(self)@.results,
            final(self)@.log == old(self)@.log,
    {
        self.stage = if config.dns.enable {
            Stage::Syncing
        } else {
            Stage::Publishing
        };
    }

    /// Takes the log of the synchronisation into account, or why it failed.
    pub fn synced(&mut self, outcome: Result<Vec<String>, String>)
        requires
            old(self)@.stage is Syncing,
        ensures
            final(self)@.stage is Publishing,
            final(self)@.results == old(self)@.results,
            match outcome {
                Ok(log) => final(self)@.log == log@,
                Err(e) => text::views(final(self)@.log) == text::views(old(self)@.log).push(
                    "DNS 同步失败: "@ + e@,
                ),
            },
    {
        match outcome {
            Ok(log) => {
                self.log = log;
            },
            Err(e) => {
                let mut line: String = "DNS 同步失败: ".to_owned();
                line.append(e.as_str());
                let ghost before = self.log@;
                proof {
                    text::lemma_views_push(before, line);
                }
                self.log.push(line);
            },
        }
        self.stage = Stage::Publishing;
    }

    /// Gives the procedure up after an error, and tells how it ended: nothing is published.
    pub fn failed(&mut self) -> (r: RunEnd)
        requires
            !old(self)@.stage.is_end(),
        ensures
            final(self)@.stage is Failed,
            final(self)@.results.len() == 0,
            final(self)@.log.len() == 0,
            r is Failed,
    {
        self.results = Vec::new();
        self.log = Vec::new();
        self.stage = Stage::Failed;
        RunEnd::Failed
    }

    /// Ends the procedure, and tells how it ended: the results are published, given here with their
    /// printed numbers, and so is the log.
    pub fn publish(&mut self, printed: Vec<ShownResult>, now: Timestamp) -> (r: RunEnd)
        requires
            old(self)@.stage is Publishing,
            bare(printed@) == old(self)@.results,
        ensures
            final(self)@.stage is Finished,
            final(self)@.results.len() == 0,
            final(self)@.log.len() == 0,
            r matches RunEnd::Published { results, dns_log, now: at } && results@ == printed@
                && dns_log@ == old(self)@.log && at == now,
    {
        let mut log: Vec<String> = Vec::new();
        log.append(&mut self.log);
        self.results = Vec::new();
        self.stage = Stage::Finished;
        RunEnd::Published { results: printed, dns_log: log, now }
    }
}

/// Results without their printed numbers.
pub open spec fn bare(printed: Seq<ShownResult>) -> Seq<IpResult> {
    printed.map_values(|s: ShownResult| s.result)
}

/// The procedure never goes back: each stage is followed by a later one, also where it is given up,
/// and nothing is synchronised where synchronisation is switched off.
pub proof fn law_stages_advance(config: Config, found: nat)
    ensures
        after_scanning(config, found).place() > Stage::Scanning.place(),
        after_saving(config).place() > Stage::Saving.place(),
        after_exporting(config).place() > Stage::Exporting.place(),
        forall|stage: Stage|
            !(#[trigger] stage.is_end()) ==> stage.place() < Stage::Failed.place()
                && stage.place() < Stage::Finished.place(),
        !config.dns.enable ==> after_saving(config) != Stage::Syncing && after_exporting(config)
            != Stage::Syncing,
        config.dns.enable ==> after_exporting(config) == Stage::Syncing,
{
}

// ---- measuring again ----

/// The edge locations to which measuring again is limited: none where all are asked for, else those
/// that were asked for, else the configured ones in mode "region". An empty list is no limit.
pub open spec fn retest_scope(
    config: Config,
    asked: Option<Seq<Seq<char>>>,
    all: bool,
) -> Option<Seq<Seq<char>>> {
    let regions = match asked {
        Some(r) => r,
        None => if config.speed_test.mode@ == "region"@ {
            text::views(config.speed_test.regions@)
        } else {
            Seq::empty()
        },
    };
    if all || regions.len() == 0 {
        None
    } else {
        Some(regions)
    }
}

/// The edge locations to which measuring again is limited.
pub fn speed_scope(config: &Config, asked: Option<Vec<String>>, all: bool) -> (r: Option<
    Vec<String>,
>)
    ensures
        scope_view(r) == retest_scope(*config, scope_view(asked), all),
{
    if all {
        return None;
    }
    let regions = match asked {
        Some(r) => r,
        None => {
            if text::same_text(config.speed_test.mode.as_str(), "region") {
                copy_strings(&config.speed_test.regions)
            } else {
                return None;
            }
        },
    };
    if regions.is_empty() {
        None
    } else {
        Some(regions)
    }
}

/// The stage that takes the place of one in which the status page is told, where there is no page.
pub open spec fn without_page(stage: Stage) -> Stage {
    if stage is Publishing {
        Stage::Finished
    } else {
        stage
    }
}

/// The stage after the results of measuring again were saved, or could not be.
pub open spec fn retest_after_saving(config: Config, ok: bool) -> Stage {
    if ok {
        without_page(after_saving(config))
    } else {
        Stage::Failed
    }
}

/// The stage after the results of measuring again were exported, or could not be.
pub open spec fn retest_after_exporting(config: Config, ok: bool) -> Stage {
    if ok {
        without_page(after_exporting(config))
    } else {
        Stage::Failed
    }
}

/// The stage after the records were synchronised, or could not be.
pub open spec fn retest_after_syncing(ok: bool) -> Stage {
    if ok {
        Stage::Finished
    } else {
        Stage::Failed
    }
}

/// Measuring the last results again: they are measured, saved, exported and synchronised, as far as
/// the configuration asks for it, and the first failure ends it.
#[derive(Debug)]
pub struct Retest {
    stage: Stage,
    results: Vec<IpResult>,
}

/// What measuring again holds.
pub struct RetestView {
    pub stage: Stage,
    pub results: Seq<IpResult>,
}

impl View for Retest {
    type V = RetestView;

    closed spec fn view(&self) -> RetestView {
        RetestView { stage: self.stage, results: self.results@ }
    }
}

impl Retest {
    /// Measuring these results again, which was not begun.
    pub fn new(results: Vec<IpResult>) -> (r: Self)
        ensures
            r@.stage is Measuring,
            r@.results == results@,
    {
        Retest { stage: Stage::Measuring, results }
    }

    /// How far it has come.
    pub fn stage(&self) -> (r: Stage)
        ensures
            r == self@.stage,
    {
        self.stage
    }

    /// The results so far.
    pub fn results(&self) -> (r: &Vec<IpResult>)
        ensures
            r@ == self@.results,
    {
        &self.results
    }

    /// Takes the results after measuring into account, in the order of their rank: those that were
    /// measured are kept.
    pub fn measured(&mut self, ranked: Vec<IpResult>)
        requires
            old(self)@.stage is Measuring,
        ensures
            final(self)@.stage is Saving,
            final(self)@.results == ranked@.filter(|x: IpResult| x.speed_mbps is Some),
    {
        self.results = speed_tester::measured_only(&ranked);
        self.stage = Stage::Saving;
    }

    /// Goes on after the results were saved, or ends where they could not be.
    pub fn saved(&mut self, ok: bool, config: &Config)
        requires
            old(self)@.stage is Saving,
        ensures
            final(self)@.stage == retest_after_saving(*config, ok),
            final(self)@.results == old(self)@.results,
    {
        self.stage = if !ok {
            Stage::Failed
        } else if config.output.file.is_some() {
            Stage::Exporting
        } else if config.dns.enable {
            Stage::Syncing
        } else {
            Stage::Finished
        };
    }

    /// Goes on after the results were exported, or ends where they could not be.
    pub fn exported(&mut self, ok: bool, config: &Config)
        requires
            old(self)@.stage is Exporting,
        ensures
            final(self)@.stage == retest_after_exporting(*config, ok),
            final(self)@.results == old(self)@.results,
    {
        self.stage = if !ok {
            Stage::Failed
        } else if config.dns.enable {
            Stage::Syncing
        } else {
            Stage::Finished
        };
    }

    /// Ends after the records were synchronised, or could not be.
    pub fn synced(&mut self, ok: bool)
        requires
            old(self)@.stage is Syncing,
        ensures
            final(self)@.stage == retest_after_syncing(ok),
            final(self)@.results == old(self)@.results,
    {
        self.stage = if ok {
            Stage::Finished
        } else {
            Stage::Failed
        };
    }
}

/// Measuring again never goes back, tells no page, and ends with the first failure.
pub proof fn law_retest_advances(config: Config, ok: bool)
    ensures
        retest_after_saving(config, ok).place() > Stage::Saving.place(),
        retest_after_exporting(config, ok).place() > Stage::Exporting.place(),
        retest_after_syncing(ok).place() > Stage::Syncing.place(),
        !(retest_after_saving(config, ok) is Publishing),
        !(retest_after_exporting(config, ok) is Publishing),
        !ok ==> {
            &&& retest_after_saving(config, ok) is Failed
            &&& retest_after_exporting(config, ok) is Failed
            &&& retest_after_syncing(ok) is Failed
        },
        ok && config.dns.enable ==> retest_after_exporting(config, ok) is Syncing,
        !config.dns.enable ==> !(retest_after_saving(config, ok) is Syncing),
{
}

/// What is said where a command needs the last results and there are none: measuring again asks for
/// a scan, the other commands for the whole procedure.
pub fn no_state_message(measuring: bool) -> (r: String)
    ensures
        r@ == if measuring {
            "找不到上次扫描结果，请先运行 scan 命令"@
        } else {
            "找不到测速结果，请先运行完整流程"@
        },
{
    if measuring {
        "找不到上次扫描结果，请先运行 scan 命令".to_owned()
    } else {
        "找不到测速结果，请先运行完整流程".to_owned()
    }
}

// ---- what the procedures are for ----

/// After the results were saved they are exported where a file is configured and only there. After
/// that, or without it, the records are synchronised where that is switched on and only there, and
/// otherwise the outcome is published.
pub proof fn law_what_is_configured_is_done(config: Config)
    ensures
        config.output.file is Some <==> after_saving(config) is Exporting,
        config.output.file is None && config.dns.enable <==> after_saving(config) is Syncing,
        config.output.file is None && !config.dns.enable <==> after_saving(config) is Publishing,
        config.dns.enable <==> after_exporting(config) is Syncing,
        !config.dns.enable <==> after_exporting(config) is Publishing,
{
}

/// Measuring again goes on in the same way, and ends where the whole procedure would publish.
pub proof fn law_retest_does_what_is_configured(config: Config)
    ensures
        config.output.file is Some <==> retest_after_saving(config, true) is Exporting,
        config.output.file is None && config.dns.enable <==> retest_after_saving(
            config,
            true,
        ) is Syncing,
        config.output.file is None && !config.dns.enable <==> retest_after_saving(
            config,
            true,
        ) is Finished,
        config.dns.enable <==> retest_after_exporting(config, true) is Syncing,
        !config.dns.enable <==> retest_after_exporting(config, true) is Finished,
        retest_after_syncing(true) is Finished,
        retest_after_saving(config, false) is Failed,
        retest_after_exporting(config, false) is Failed,
        retest_after_syncing(false) is Failed,
{
}

/// The same stages follow in both procedures, but that the whole procedure publishes where measuring
/// again ends.
pub proof fn law_procedures_agree(config: Config)
    ensures
        retest_after_saving(config, true) is Exporting <==> after_saving(config) is Exporting,
        retest_after_saving(config, true) is Syncing <==> after_saving(config) is Syncing,
        retest_after_saving(config, true) is Finished <==> after_saving(config) is Publishing,
        retest_after_exporting(config, true) is Syncing <==> after_exporting(config) is Syncing,
        retest_after_exporting(config, true) is Finished <==> after_exporting(
            config,
        ) is Publishing,
        forall|stage: Stage|
            !(stage is Publishing) ==> #[trigger] without_page(stage) == stage,
        without_page(Stage::Publishing) is Finished,
{
}

/// After the scan the speeds are measured where something was found and measuring is switched on, and
/// only there; otherwise the outcome is published.
pub proof fn law_after_scanning(config: Config, found: nat)
    ensures
        found > 0 && config.speed_test.auto_run <==> after_scanning(config, found) is Measuring,
        found == 0 || !config.speed_test.auto_run <==> after_scanning(config, found) is Publishing,
{
}

/// A procedure has ended where it was finished or given up, and nowhere else.
pub proof fn law_ends(stage: Stage)
    ensures
        stage.is_end() <==> stage == Stage::Finished || stage == Stage::Failed,
{
}

/// Measuring after a scan is limited to the configured regions, to each of them, in the mode for that
/// and not otherwise.
pub proof fn law_full_scope(config: Config)
    ensures
        full_scope(config) is Some <==> config.speed_test.mode@ == "region"@,
        full_scope(config) matches Some(scope) ==> scope.len() == config.speed_test.regions@.len()
            && forall|k: int|
            0 <= k < scope.len() ==> #[trigger] scope[k] == config.speed_test.regions@[k]@,
{
}

/// Measuring again is limited to what was asked for; where nothing was, to the configured regions in
/// the mode for that. Where all are asked for, or the list is empty, there is no limit.
pub proof fn law_retest_scope(config: Config, asked: Seq<Seq<char>>, all: bool)
    ensures
        retest_scope(config, Some(asked), true) is None,
        retest_scope(config, None, true) is None,
        asked.len() > 0 ==> retest_scope(config, Some(asked), false) == Some(asked),
        asked.len() == 0 ==> retest_scope(config, Some(asked), all) is None,
        retest_scope(config, None, false) is Some <==> config.speed_test.mode@ == "region"@
            && config.speed_test.regions@.len() > 0,
        retest_scope(config, None, false) is Some ==> retest_scope(config, None, false)
            == full_scope(config),
{
}

/// The texts of a list stand where its strings stand; no list is none.
pub proof fn law_scope_view(v: Vec<String>)
    ensures
        scope_view(Some(v)) matches Some(t) && t.len() == v@.len() && forall|k: int|
            0 <= k < v@.len() ==> #[trigger] t[k] == v@[k]@,
        scope_view(None) is None,
{
}

/// The configured number of results is wanted. A scan without wanted regions samples as many
/// addresses; one with them samples the size of a batch in each round.
pub proof fn law_scan_sizes(cfg: ScanConfig)
    ensures
        cfg.max_ips matches Some(n) ==> target_of(cfg) == n,
        cfg.max_ips is None ==> target_of(cfg) == 8000,
        cfg.regions@.len() == 0 ==> sample_of(cfg) == cfg.max_ips,
        cfg.regions@.len() > 0 ==> sample_of(cfg) == Some(cfg.batch_size),
{
}

/// At every point of a scan the addresses that were handed out are those of its rounds, no two rounds
/// have one in common, and there were no more rounds than are allowed.
pub proof fn law_session_is_consistent(session: ScanSession, ip: Ip)
    requires
        session.well_formed(),
    ensures
        session@.batches.len() == session@.rounds,
        session@.scanned.contains(ip) <==> exists|k: int|
            0 <= k < session@.rounds && (#[trigger] session@.batches[k]).contains(ip),
        forall|i: int, j: int|
            0 <= i < j < session@.rounds ==> !((#[trigger] session@.batches[i]).contains(ip) && (
            #[trigger] session@.batches[j]).contains(ip)),
        session@.by_region ==> session@.rounds <= session@.max_rounds,
        !session@.by_region ==> session@.rounds <= 1,
{
}

/// The task of a scan is its mode, what is wanted and how much is sampled.
pub proof fn law_session_task(a: ScanSession, b: ScanSession)
    requires
        a.same_task(b),
    ensures
        a@.mode == b@.mode && a@.by_region == b@.by_region && a@.sample == b@.sample && a@.target
            == b@.target && a@.max_rounds == b@.max_rounds,
{
}

/// A scan by region gives the results with the lowest latencies in ascending order, and of those with
/// equal latencies the ones that were found first, in the order in which they were found.
pub proof fn law_region_scan_is_stable(s: Seq<IpResult>, target: nat, r: Seq<IpResult>)
    requires
        is_selection(s, target, r),
    ensures
        exists|from: Seq<usize>|
            {
                &&& #[trigger] from.no_duplicates()
                &&& from.len() == s.len()
                &&& r.len() <= s.len()
                &&& forall|i: int| 0 <= i < from.len() ==> (#[trigger] from[i]) < s.len()
                &&& forall|i: int| 0 <= i < r.len() ==> #[trigger] r[i] == s[from[i] as int]
                &&& forall|i: int, j: int|
                    0 <= i < j < from.len() ==> {
                        let a = (#[trigger] from[i]) as int;
                        let b = (#[trigger] from[j]) as int;
                        s[a].delay_ms <= s[b].delay_ms && (s[a].delay_ms == s[b].delay_ms ==> a < b)
                    }
            },
{
    let sorted = choose|sorted: Seq<IpResult>| #[trigger]
        order::sorted_by(s, types::delay_keys(s), sorted) && r == if target < sorted.len() {
            sorted.take(target as int)
        } else {
            sorted
        };
    types::law_sorted_by_delay_is_stable(s, sorted);
    let from = choose|from: Seq<usize>|
        {
            &&& #[trigger] from.no_duplicates()
            &&& from.len() == s.len()
            &&& sorted.len() == s.len()
            &&& forall|i: int|
                0 <= i < from.len() ==> (#[trigger] from[i]) < s.len() && sorted[i]
                    == s[from[i] as int]
            &&& forall|i: int, j: int|
                0 <= i < j < from.len() ==> {
                    let a = (#[trigger] from[i]) as int;
                    let b = (#[trigger] from[j]) as int;
                    s[a].delay_ms <= s[b].delay_ms && (s[a].delay_ms == s[b].delay_ms ==> a < b)
                }
        };
    assert(from.no_duplicates());
    assert forall|i: int| 0 <= i < r.len() implies #[trigger] r[i] == s[from[i] as int] by {
        assert(r[i] == sorted[i]);
    }
}

/// Without their printed numbers results are the same results, in the same order.
pub proof fn law_bare(printed: Seq<ShownResult>)
    ensures
        bare(printed).len() == printed.len(),
        forall|i: int| 0 <= i < printed.len() ==> #[trigger] bare(printed)[i] == printed[i].result,
{
}

/// What is said in a scan by region names the numbers that it is about, each where it belongs.
pub proof fn law_scan_texts(target: nat, found: nat, round: nat, fresh: nat)
    ensures
        round_text(target, found, round, fresh) == "  地区过滤模式：目标 "@ + (text::decimal(target)
            + (" 个，已凑够 "@ + (text::decimal(found) + (" 个，补扫第 "@ + (text::decimal(round) + (
        " 轮（"@ + (text::decimal(fresh) + " 个新 IP）"@))))))),
        exhausted_text(round) == "  地区过滤模式：候选池已耗尽（尝试第 "@ + (text::decimal(round)
            + " 轮时采样不到新 IP），停止扫描"@),
        shortfall_text(found, target, round) == "  地区过滤模式：最终凑到 "@ + (text::decimal(found)
            + (" 个（目标 "@ + (text::decimal(target) + ("），候选池已耗尽或已达最大轮数 "@
            + text::decimal(round))))),
{
    assert(round_text(target, found, round, fresh) =~= "  地区过滤模式：目标 "@ + (text::decimal(
        target,
    ) + (" 个，已凑够 "@ + (text::decimal(found) + (" 个，补扫第 "@ + (text::decimal(round) + (
    " 轮（"@ + (text::decimal(fresh) + " 个新 IP）"@))))))));
    assert(exhausted_text(round) =~= "  地区过滤模式：候选池已耗尽（尝试第 "@ + (text::decimal(round)
        + " 轮时采样不到新 IP），停止扫描"@));
    assert(shortfall_text(found, target, round) =~= "  地区过滤模式：最终凑到 "@ + (text::decimal(found)
        + (" 个（目标 "@ + (text::decimal(target) + ("），候选池已耗尽或已达最大轮数 "@
        + text::decimal(round))))));
}

} // verus!
