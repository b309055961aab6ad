//! Measuring download speeds: which addresses, in which batches, and how the results rank.
use crate::config::SpeedTestConfig;
use crate::metric::Metric;
use crate::order;
use crate::text;
use crate::types;
use crate::types::IpResult;
use vstd::prelude::*;

verus! {

// ---- which addresses ----

/// Whether an edge location passes a filter; without a filter all of them do.
pub open spec fn passes(filter: Option<Seq<Seq<char>>>, colo: Seq<char>) -> bool {
    match filter {
        Some(regions) => text::listed_but_case(regions, colo),
        None => true,
    }
}

/// The texts of a filter.
pub open spec fn filter_view(filter: Option<&Vec<String>>) -> Option<Seq<Seq<char>>> {
    match filter {
        Some(regions) => Some(text::views(regions@)),
        None => None,
    }
}

/// Whether `c` lists the positions of the results that pass the filter: all of them, and those with
/// lower latency first.
pub open spec fn is_candidates(
    s: Seq<IpResult>,
    filter: Option<Seq<Seq<char>>>,
    c: Seq<usize>,
) -> bool {
    &&& forall|i: int|
        0 <= i < c.len() ==> {
            &&& (#[trigger] c[i]) < s.len()
            &&& passes(filter, s[c[i] as int].colo@)
        }
    &&& forall|p: usize|
        p < s.len() && passes(filter, (#[trigger] s[p as int]).colo@) ==> c.contains(p)
    &&& forall|i: int, j: int|
        0 <= i < j < c.len() ==> order::precedes(
            types::delay_keys(s),
            (#[trigger] c[i]) as int,
            (#[trigger] c[j]) as int,
        )
}

/// The positions of the results that pass the filter, those with lower latency first.
pub fn candidates(results: &Vec<IpResult>, filter: Option<&Vec<String>>) -> (r: Vec<usize>)
    ensures
        is_candidates(results@, filter_view(filter), r@),
{
    let keys = types::keys_by_delay(results);
    let positions = order::stable_order(&keys);
    let ghost f = filter_view(filter);
    let n: usize = positions.len();
    let mut out: Vec<usize> = Vec::new();
    let mut i: usize = 0;
    while i < n
        invariant
            i <= n,
            n == positions@.len(),
            keys@ == types::delay_keys(results@),
            f == filter_view(filter),
            order::is_stable_order(keys@, positions@),
            forall|k: int|
                0 <= k < out@.len() ==> {
                    &&& (#[trigger] out@[k]) < results@.len()
                    &&& passes(f, results@[out@[k] as int].colo@)
                },
            forall|k: int|
                0 <= k < i && passes(f, results@[(#[trigger] positions@[k]) as int].colo@)
                    ==> out@.contains(positions@[k]),
            forall|a: int, b: int|
                0 <= a < b < out@.len() ==> order::precedes(
                    keys@,
                    (#[trigger] out@[a]) as int,
                    (#[trigger] out@[b]) as int,
                ),
            forall|a: int, b: int|
                0 <= a < out@.len() && i <= b < n ==> order::precedes(
                    keys@,
                    (#[trigger] out@[a]) as int,
                    (#[trigger] positions@[b]) as int,
                ),
        decreases n - i,
    {
        let at: usize = positions[i];
        let keep = match filter {
            Some(regions) => text::any_eq_ignore_ascii_case(regions, results[at].colo.as_str()),
            None => true,
        };
        let ghost before = out@;
        if keep {
            out.push(at);
            proof {
                assert(out@[before.len() as int] == at);
                assert forall|x: usize| before.contains(x) implies out@.contains(x) by {
                    let k = choose|k: int| 0 <= k < before.len() && before[k] == x;
                    assert(out@[k] == x);
                }
            }
        }
        i += 1;
    }
    proof {
        order::law_order_is_permutation(keys@, positions@);
        assert forall|p: usize|
            p < results@.len() && passes(f, (#[trigger] results@[p as int]).colo@) implies
            out@.contains(p) by {
            assert(positions@.contains(p));
            let k = choose|k: int| 0 <= k < positions@.len() && positions@[k] == p;
            assert(passes(f, results@[positions@[k] as int].colo@));
        }
    }
    out
}

/// There is one such list.
pub proof fn law_candidates_are_unique(
    s: Seq<IpResult>,
    filter: Option<Seq<Seq<char>>>,
    a: Seq<usize>,
    b: Seq<usize>,
)
    requires
        is_candidates(s, filter, a),
        is_candidates(s, filter, b),
    ensures
        a == b,
{
    if a.len() <= b.len() {
        lemma_candidates_prefix(s, filter, a, b, a.len() as int);
        if a.len() < b.len() {
            let y = b[a.len() as int];
            assert(passes(filter, s[y as int].colo@));
            let i = choose|i: int| 0 <= i < a.len() && a[i] == y;
            assert(b[i] == y);
        }
    } else {
        lemma_candidates_prefix(s, filter, b, a, b.len() as int);
        let y = a[b.len() as int];
        assert(passes(filter, s[y as int].colo@));
        let i = choose|i: int| 0 <= i < b.len() && b[i] == y;
        assert(a[i] == y);
    }
    assert(a =~= b);
}

proof fn lemma_candidates_prefix(
    s: Seq<IpResult>,
    filter: Option<Seq<Seq<char>>>,
    a: Seq<usize>,
    b: Seq<usize>,
    k: int,
)
    requires
        is_candidates(s, filter, a),
        is_candidates(s, filter, b),
        0 <= k <= a.len(),
        a.len() <= b.len(),
    ensures
        forall|i: int| 0 <= i < k ==> a[i] == b[i],
    decreases k,
{
    if k > 0 {
        lemma_candidates_prefix(s, filter, a, b, k - 1);
        let x = a[k - 1];
        let y = b[k - 1];
        if x != y {
            assert(passes(filter, s[x as int].colo@));
            assert(passes(filter, s[y as int].colo@));
            let i = choose|i: int| 0 <= i < b.len() && b[i] == x;
            let j = choose|j: int| 0 <= j < a.len() && a[j] == y;
            assert(i > k - 1) by {
                if i < k - 1 {
                    assert(a[i] == b[i]);
                }
            }
            assert(j > k - 1) by {
                if j < k - 1 {
                    assert(a[j] == b[j]);
                }
            }
            assert(order::precedes(types::delay_keys(s), a[k - 1] as int, a[j] as int));
            assert(order::precedes(types::delay_keys(s), b[k - 1] as int, b[i] as int));
        }
    }
}

// ---- the run ----

/// What measuring an address gave.
#[derive(Clone, Copy, Debug, PartialEq, Eq, Structural)]
pub enum Outcome {
    /// The speed in MB/s and the score.
    Measured { speed: Metric, score: Metric },
    /// The measurement failed twice.
    Failed,
}

/// Whether a measurement reaches the speed that is wanted.
pub open spec fn qualifies(outcome: Outcome, min_speed: Metric) -> bool {
    match outcome {
        Outcome::Measured { speed, score: _ } => speed.at_least(min_speed),
        Outcome::Failed => false,
    }
}

/// A result after it was measured: a failure leaves it as it was.
pub open spec fn measured_as(r: IpResult, outcome: Outcome) -> IpResult {
    match outcome {
        Outcome::Measured { speed, score } => IpResult {
            speed_mbps: Some(speed),
            score: Some(score),
            ..r
        },
        Outcome::Failed => r,
    }
}

/// The results after the candidates were measured one after the other with these outcomes.
pub open spec fn applied(
    s: Seq<IpResult>,
    candidates: Seq<usize>,
    outcomes: Seq<Outcome>,
) -> Seq<IpResult>
    decreases outcomes.len(),
{
    if outcomes.len() == 0 {
        s
    } else {
        let before = applied(s, candidates, outcomes.drop_last());
        let at = candidates[outcomes.len() - 1] as int;
        before.update(at, measured_as(before[at], outcomes.last()))
    }
}

/// How many outcomes reach the speed that is wanted.
pub open spec fn qualified_count(outcomes: Seq<Outcome>, min_speed: Metric) -> nat
    decreases outcomes.len(),
{
    if outcomes.len() == 0 {
        0
    } else {
        qualified_count(outcomes.drop_last(), min_speed) + (if qualifies(
            outcomes.last(),
            min_speed,
        ) {
            1nat
        } else {
            0nat
        })
    }
}

/// The measuring of the candidates in batches. After the first batch, further ones follow only
/// while a speed is wanted and too few addresses reached it.
pub struct SpeedRun {
    results: Vec<IpResult>,
    candidates: Vec<usize>,
    /// How many candidates have been measured.
    tested: usize,
    /// Up to which candidate batches have been handed out.
    batch_end: usize,
    /// How many batches have been handed out.
    batches: usize,
    /// How many measurements reached the speed that is wanted.
    qualified: usize,
    top_n: usize,
    min_speed: Metric,
    max_records: usize,
    max_batches: usize,
    /// The results before any measurement.
    given: Ghost<Seq<IpResult>>,
    /// The outcomes so far.
    outcomes: Ghost<Seq<Outcome>>,
}

/// What a run of measurements holds.
pub struct SpeedRunView {
    pub results: Seq<IpResult>,
    pub candidates: Seq<usize>,
    pub tested: usize,
    pub batch_end: usize,
    pub batches: usize,
    pub qualified: usize,
    pub top_n: usize,
    pub min_speed: Metric,
    pub max_records: usize,
    pub max_batches: usize,
    pub given: Seq<IpResult>,
    pub outcomes: Seq<Outcome>,
}

impl View for SpeedRun {
    type V = SpeedRunView;

    closed spec fn view(&self) -> SpeedRunView {
        SpeedRunView {
            results: self.results@,
            candidates: self.candidates@,
            tested: self.tested,
            batch_end: self.batch_end,
            batches: self.batches,
            qualified: self.qualified,
            top_n: self.top_n,
            min_speed: self.min_speed,
            max_records: self.max_records,
            max_batches: self.max_batches,
            given: self.given@,
            outcomes: self.outcomes@,
        }
    }
}

impl SpeedRun {
    /// What ties the state to the outcomes.
    pub open spec fn well_formed(self) -> bool {
        &&& self@.tested == self@.outcomes.len()
        &&& self@.tested <= self@.batch_end <= self@.candidates.len()
        &&& self@.batches <= self@.candidates.len()
        &&& self@.batches <= self@.batch_end
        &&& self@.batches == 0 ==> self@.batch_end == 0
        &&& self@.results == applied(self@.given, self@.candidates, self@.outcomes)
        &&& self@.results.len() == self@.given.len()
        &&& self@.qualified == qualified_count(self@.outcomes, self@.min_speed)
        &&& self@.qualified <= self@.tested
        &&& forall|i: int|
            0 <= i < self@.candidates.len() ==> #[trigger] self@.candidates[i] < self@.given.len()
        &&& self@.candidates.no_duplicates()
    }

    /// Whether another batch is to be measured: the first one always; a further one while a
    /// positive speed is wanted, fewer than `max_records` addresses reached it, and no more than
    /// `max_batches` further ones were measured.
    pub open spec fn goes_on(self) -> bool {
        &&& self@.batch_end < self@.candidates.len()
        &&& self@.top_n > 0
        &&& self@.batches == 0 || {
            &&& self@.min_speed.is_number()
            &&& self@.min_speed.rank() > 0
            &&& self@.qualified < self@.max_records
            &&& self@.batches <= self@.max_batches
        }
    }

    /// Where the next batch ends.
    pub open spec fn next_end(self) -> int {
        if self@.candidates.len() - self@.batch_end < self@.top_n {
            self@.candidates.len() as int
        } else {
            self@.batch_end + self@.top_n
        }
    }

    /// Whether nothing but the progress differs.
    pub open spec fn same_task(self, other: SpeedRun) -> bool {
        &&& self@.candidates == other@.candidates
        &&& self@.top_n == other@.top_n
        &&& self@.min_speed == other@.min_speed
        &&& self@.max_records == other@.max_records
        &&& self@.max_batches == other@.max_batches
        &&& self@.given == other@.given
    }

    /// A run over the results that pass the filter.
    pub fn new(
        results: Vec<IpResult>,
        cfg: &SpeedTestConfig,
        filter: Option<&Vec<String>>,
        max_records: usize,
    ) -> (r: SpeedRun)
        ensures
            r.well_formed(),
            r@.results == results@,
            r@.given == results@,
            is_candidates(results@, filter_view(filter), r@.candidates),
            r@.outcomes == Seq::<Outcome>::empty(),
            r@.batch_end == 0,
            r@.batches == 0,
            r@.top_n == cfg.top_n,
            r@.min_speed == cfg.min_speed_mbps,
            r@.max_records == max_records,
            r@.max_batches == cfg.max_batches,
    {
        let list = candidates(&results, filter);
        let ghost given = results@;
        SpeedRun {
            results,
            candidates: list,
            tested: 0,
            batch_end: 0,
            batches: 0,
            qualified: 0,
            top_n: cfg.top_n,
            min_speed: cfg.min_speed_mbps,
            max_records,
            max_batches: cfg.max_batches,
            given: Ghost(given),
            outcomes: Ghost(Seq::empty()),
        }
    }

    /// The result at a position.
    pub fn result(&self, at: usize) -> (r: &IpResult)
        requires
            at < self@.results.len(),
        ensures
            *r == self@.results[at as int],
    {
        &self.results[at]
    }

    /// How many candidates were handed out for measuring.
    pub fn handed_out(&self) -> (r: usize)
        ensures
            r == self@.batch_end,
    {
        self.batch_end
    }

    /// What is said of a run that had nothing to measure.
    pub fn notice(&self) -> (r: Option<String>)
        ensures
            text::opt_view(r) == if self@.batches == 0 {
                Some("  没有符合条件的 IP 可供测速"@)
            } else {
                None
            },
    {
        if self.batches == 0 {
            Some("  没有符合条件的 IP 可供测速".to_owned())
        } else {
            None
        }
    }

    /// The positions of the results to measure next; none where the run is over.
    pub fn next_batch(&mut self) -> (r: Vec<usize>)
        requires
            old(self).well_formed(),
            old(self)@.tested == old(self)@.batch_end,
        ensures
            final(self).well_formed(),
            final(self).same_task(*old(self)),
            final(self)@.outcomes == old(self)@.outcomes,
            old(self).goes_on() ==> {
                &&& final(self)@.batch_end == old(self).next_end()
                &&& final(self)@.batches == old(self)@.batches + 1
                &&& r@ == old(self)@.candidates.subrange(
                    old(self)@.batch_end as int,
                    old(self).next_end(),
                )
                &&& r@.len() > 0
            },
            !old(self).goes_on() ==> {
                &&& final(self)@.batch_end == old(self)@.batch_end
                &&& final(self)@.batches == old(self)@.batches
                &&& r@.len() == 0
            },
    {
        let mut out: Vec<usize> = Vec::new();
        let more = self.batches == 0 || (self.min_speed.is_positive() && self.qualified
            < self.max_records && self.batches <= self.max_batches);
        let left: usize = self.candidates.len() - self.batch_end;
        if left == 0 || self.top_n == 0 || !more {
            return out;
        }
        let start: usize = self.batch_end;
        let end: usize = if left < self.top_n {
            self.candidates.len()
        } else {
            start + self.top_n
        };
        let mut i: usize = start;
        while i < end
            invariant
                start <= i <= end <= self.candidates@.len(),
                out@ == self.candidates@.subrange(start as int, i as int),
            decreases end - i,
        {
            out.push(self.candidates[i]);
            assert(self.candidates@.subrange(start as int, i + 1) =~= self.candidates@.subrange(
                start as int,
                i as int,
            ).push(self.candidates@[i as int]));
            i += 1;
        }
        self.batch_end = end;
        self.batches = self.batches + 1;
        out
    }

    /// Takes the outcome for the next candidate of the batch into account.
    pub fn record(&mut self, outcome: Outcome)
        requires
            old(self).well_formed(),
            old(self)@.tested < old(self)@.batch_end,
        ensures
            final(self).well_formed(),
            final(self).same_task(*old(self)),
            final(self)@.batch_end == old(self)@.batch_end,
            final(self)@.batches == old(self)@.batches,
            final(self)@.outcomes == old(self)@.outcomes.push(outcome),
    {
        let at: usize = self.candidates[self.tested];
        let ghost before = self.results@;
        proof {
            assert(self.outcomes@.push(outcome).drop_last() =~= self.outcomes@);
        }
        match outcome {
            Outcome::Measured { speed, score } => {
                let mut r = self.results[at].clone();
                r.speed_mbps = Some(speed);
                r.score = Some(score);
                self.results.set(at, r);
                if speed.reaches(self.min_speed) {
                    self.qualified = self.qualified + 1;
                }
            },
            Outcome::Failed => {
                assert(before.update(at as int, before[at as int]) =~= before);
            },
        }
        self.tested = self.tested + 1;
        self.outcomes = Ghost(self.outcomes@.push(outcome));
    }

    /// The results with descending score; those without a score come last. Where there was nothing
    /// to measure, they stay as they are.
    pub fn finish(self) -> (r: Vec<IpResult>)
        requires
            self.well_formed(),
        ensures
            self@.batches == 0 ==> r@ == self@.given,
            self@.batches > 0 ==> order::sorted_by(
                applied(self@.given, self@.candidates, self@.outcomes),
                score_keys(applied(self@.given, self@.candidates, self@.outcomes)),
                r@,
            ),
    {
        if self.batches == 0 {
            return self.results;
        }
        sort_by_score(&self.results)
    }
}

/// Measuring changes nothing but the speed and the score of the candidates that were measured, and
/// gives each of these its own outcome.
pub proof fn law_applied(
    s: Seq<IpResult>,
    candidates: Seq<usize>,
    outcomes: Seq<Outcome>,
    p: int,
)
    requires
        outcomes.len() <= candidates.len(),
        candidates.no_duplicates(),
        forall|i: int| 0 <= i < candidates.len() ==> #[trigger] candidates[i] < s.len(),
        0 <= p < s.len(),
    ensures
        applied(s, candidates, outcomes).len() == s.len(),
        forall|k: int|
            0 <= k < outcomes.len() && #[trigger] candidates[k] == p ==> applied(
                s,
                candidates,
                outcomes,
            )[p] == measured_as(s[p], outcomes[k]),
        (forall|k: int| 0 <= k < outcomes.len() ==> #[trigger] candidates[k] != p) ==> applied(
            s,
            candidates,
            outcomes,
        )[p] == s[p],
    decreases outcomes.len(),
{
    if outcomes.len() > 0 {
        let init = outcomes.drop_last();
        law_applied(s, candidates, init, p);
        let at = candidates[outcomes.len() - 1];
        assert forall|k: int| 0 <= k < outcomes.len() && #[trigger] candidates[k]
            == p implies applied(s, candidates, outcomes)[p] == measured_as(s[p], outcomes[k]) by {
            if k < init.len() {
                assert(candidates[k] != at);
                assert(init[k] == outcomes[k]);
            } else {
                assert forall|j: int| 0 <= j < init.len() implies #[trigger] candidates[j]
                    != p by {
                    assert(candidates[j] != at);
                }
            }
        }
        assert(candidates[outcomes.len() - 1] == at);
    }
}

/// A run for a positive speed goes on after its first batch until enough addresses reached that
/// speed, no candidate is left or the further batches are used up, and not after that.
pub proof fn law_run_goes_on(run: SpeedRun)
    requires
        run.well_formed(),
        run@.min_speed.is_number(),
        run@.min_speed.rank() > 0,
        run@.top_n > 0,
        run@.batches > 0,
    ensures
        run.goes_on() <==> qualified_count(run@.outcomes, run@.min_speed) < run@.max_records
            && run@.batch_end < run@.candidates.len() && run@.batches <= run@.max_batches,
{
}

/// A run without a positive speed that is wanted ends with its first batch.
pub proof fn law_no_limit_one_batch(run: SpeedRun)
    requires
        !(run@.min_speed.is_number() && run@.min_speed.rank() > 0),
        run@.batches > 0,
    ensures
        !run.goes_on(),
{
}

// ---- ranking ----

/// The sorting key of a result without a score: behind all scores.
pub const UNSCORED: i128 = 0x1_0000_0000_0000_0000;

/// The sorting key of a result: a higher score comes first.
pub open spec fn score_key(r: IpResult) -> i128 {
    match r.score {
        Some(m) => (-m.rank()) as i128,
        None => UNSCORED,
    }
}

/// The sorting keys of results.
pub open spec fn score_keys(s: Seq<IpResult>) -> Seq<i128> {
    s.map_values(|r: IpResult| score_key(r))
}

/// The results with descending score; those without a score come last, and those with equal scores
/// stay in their order.
pub fn sort_by_score(v: &Vec<IpResult>) -> (r: Vec<IpResult>)
    ensures
        order::sorted_by(v@, score_keys(v@), r@),
{
    let n: usize = v.len();
    let mut keys: Vec<i128> = Vec::new();
    let mut i: usize = 0;
    while i < n
        invariant
            i <= n,
            n == v@.len(),
            keys@ == score_keys(v@).take(i as int),
        decreases n - i,
    {
        let key: i128 = match v[i].score {
            Some(m) => -m.to_rank(),
            None => UNSCORED,
        };
        keys.push(key);
        assert(score_keys(v@).take(i + 1) =~= score_keys(v@).take(i as int).push(key));
        i += 1;
    }
    assert(score_keys(v@).take(n as int) =~= score_keys(v@));
    let positions = order::stable_order(&keys);
    assert(order::is_stable_order(score_keys(v@), positions@));
    types::arrange_results(v, &positions)
}

/// After ranking, no result has a higher score than one before it, and none with a score comes
/// after one without.
pub proof fn law_ranking_descends(s: Seq<IpResult>, out: Seq<IpResult>, i: int, j: int)
    requires
        order::sorted_by(s, score_keys(s), out),
        0 <= i < j < out.len(),
    ensures
        match (out[i].score, out[j].score) {
            (Some(a), Some(b)) => a.rank() >= b.rank(),
            (None, Some(_)) => false,
            (_, None) => true,
        },
{
    let keys = score_keys(s);
    let positions = choose|positions: Seq<usize>| #[trigger]
        order::is_stable_order(keys, positions) && out == order::arranged(s, positions);
    assert(0 <= positions[i] < s.len());
    assert(0 <= positions[j] < s.len());
    assert(keys[positions[i] as int] == score_key(out[i]));
    assert(keys[positions[j] as int] == score_key(out[j]));
    assert(order::precedes(keys, positions[i] as int, positions[j] as int));
}

/// The results whose speed was measured, in their order.
pub fn measured_only(v: &Vec<IpResult>) -> (r: Vec<IpResult>)
    ensures
        r@ == v@.filter(|x: IpResult| x.speed_mbps is Some),
{
    let ghost pred = |x: IpResult| x.speed_mbps is Some;
    let n: usize = v.len();
    let mut out: Vec<IpResult> = Vec::new();
    let mut i: usize = 0;
    proof {
        reveal(Seq::filter);
    }
    while i < n
        invariant
            i <= n,
            n == v@.len(),
            pred == (|x: IpResult| x.speed_mbps is Some),
            out@ == v@.take(i as int).filter(pred),
        decreases n - i,
    {
        proof {
            reveal(Seq::filter);
            assert(v@.take(i + 1).drop_last() =~= v@.take(i as int));
            assert(v@.take(i + 1).last() == v@[i as int]);
        }
        if v[i].speed_mbps.is_some() {
            out.push(v[i].clone());
        }
        i += 1;
    }
    assert(v@.take(n as int) =~= v@);
    out
}

/// What is kept of results was measured, and was among them.
pub proof fn law_kept_were_measured(s: Seq<IpResult>, i: int)
    requires
        0 <= i < s.filter(|x: IpResult| x.speed_mbps is Some).len(),
    ensures
        s.filter(|x: IpResult| x.speed_mbps is Some)[i].speed_mbps is Some,
        s.contains(s.filter(|x: IpResult| x.speed_mbps is Some)[i]),
{
    broadcast use vstd::seq_lib::group_filter_ensures;

    let pred = |x: IpResult| x.speed_mbps is Some;
    assert(pred(s.filter(pred)[i]));
    order::lemma_filtered_within(s, pred, i);
}

// ---- one measurement ----

/// How many addresses are measured at once.
pub fn parallel_tests(cfg: &SpeedTestConfig) -> (r: usize)
    ensures
        r == if cfg.speed_concurrency >= 1 {
            cfg.speed_concurrency
        } else {
            1
        },
{
    if cfg.speed_concurrency >= 1 {
        cfg.speed_concurrency
    } else {
        1
    }
}

/// How many connections download from one address, and how many bytes each requests.
pub fn download_plan(cfg: &SpeedTestConfig) -> (r: (usize, usize))
    ensures
        r.0 == if cfg.download_threads >= 1 {
            cfg.download_threads
        } else {
            1
        },
        r.1 == cfg.download_bytes,
{
    let threads: usize = if cfg.download_threads >= 1 {
        cfg.download_threads
    } else {
        1
    };
    (threads, cfg.download_bytes)
}

/// The request for `bytes` bytes.
pub fn download_request(bytes: usize) -> (r: String)
    ensures
        r@ == "GET /__down?bytes="@ + text::decimal(bytes as nat)
            + " HTTP/1.1\r\nHost: speed.cloudflare.com\r\nUser-Agent: Mozilla/5.0 (compatible; cfscanner)\r\nAccept: */*\r\nConnection: close\r\n\r\n"@,
{
    let mut out: String = "GET /__down?bytes=".to_owned();
    text::push_decimal(&mut out, bytes as u64);
    out.append(
        " HTTP/1.1\r\nHost: speed.cloudflare.com\r\nUser-Agent: Mozilla/5.0 (compatible; cfscanner)\r\nAccept: */*\r\nConnection: close\r\n\r\n",
    );
    out
}

/// The longest header of a reply that is read.
pub const HEADER_LIMIT: usize = 65536;

/// Whether bytes end with an empty line.
pub open spec fn ends_header(bytes: Seq<u8>) -> bool {
    let n = bytes.len();
    n >= 4 && bytes[n - 4] == 13 && bytes[n - 3] == 10 && bytes[n - 2] == 13 && bytes[n - 1] == 10
}

/// How far a connection has come.
#[derive(Clone, Copy, Debug, PartialEq, Eq, Structural)]
pub enum DownloadPhase {
    /// The header of the reply is read.
    Header,
    /// The body of the reply is read.
    Body,
    /// The body has ended, or could not be read further.
    Ended,
    /// The header could not be read.
    Failed,
}

/// What to do next on a connection.
#[derive(Clone, Copy, Debug, PartialEq, Eq, Structural)]
pub enum DownloadStep {
    /// Read a byte of the header.
    ReadHeader,
    /// Read some of the body.
    ReadBody,
    /// Nothing more.
    Stop,
}

/// What one read of the header gave.
#[derive(Debug)]
pub enum HeaderRead {
    Byte(u8),
    /// The connection was closed.
    Closed,
    /// Reading failed, for this reason.
    Broken(String),
}

/// What one read of the body gave.
#[derive(Clone, Copy, Debug, PartialEq, Eq, Structural)]
pub enum BodyRead {
    /// So many bytes; none at the end of the body.
    Bytes(usize),
    /// A timeout or another error.
    Broken,
}

/// The sum of numbers.
pub open spec fn total(s: Seq<nat>) -> nat
    decreases s.len(),
{
    if s.len() == 0 {
        0
    } else {
        total(s.drop_last()) + s.last()
    }
}

/// One connection that downloads: the header of the reply is passed over, and the bytes of its body
/// are counted.
pub struct Download {
    phase: DownloadPhase,
    header: Vec<u8>,
    /// How many bytes of the body came.
    bytes: u64,
    /// How many bytes of the body each read gave.
    reads: Ghost<Seq<nat>>,
}

/// What a connection holds.
pub struct DownloadView {
    pub phase: DownloadPhase,
    pub header: Seq<u8>,
    pub bytes: u64,
    pub reads: Seq<nat>,
}

impl View for Download {
    type V = DownloadView;

    closed spec fn view(&self) -> DownloadView {
        DownloadView {
            phase: self.phase,
            header: self.header@,
            bytes: self.bytes,
            reads: self.reads@,
        }
    }
}

impl Download {
    /// What holds throughout: the bytes that were counted are those of the body, and the header
    /// was read no further than its end and the limit.
    pub open spec fn well_formed(self) -> bool {
        &&& self@.bytes == total(self@.reads)
        &&& self@.phase is Header ==> !ends_header(self@.header) && self@.header.len()
            <= HEADER_LIMIT
        &&& self@.phase is Header || self@.phase is Failed ==> self@.reads.len() == 0
        &&& self@.phase is Body || self@.phase is Ended ==> ends_header(self@.header)
    }

    /// A connection whose reply has not begun.
    pub fn new() -> (r: Self)
        ensures
            r.well_formed(),
            r@.phase is Header,
            r@.header.len() == 0,
            r@.bytes == 0,
            r@.reads.len() == 0,
    {
        Download {
            phase: DownloadPhase::Header,
            header: Vec::new(),
            bytes: 0,
            reads: Ghost(Seq::empty()),
        }
    }

    /// How far the connection has come.
    pub fn phase(&self) -> (r: DownloadPhase)
        ensures
            r == self@.phase,
    {
        self.phase
    }

    /// How many bytes of the body came.
    pub fn bytes(&self) -> (r: u64)
        ensures
            r == self@.bytes,
    {
        self.bytes
    }

    /// What to do next: the body is read while the time for the measurement is not used up.
    pub fn next(&self, elapsed_ms: u64, duration_ms: u64) -> (r: DownloadStep)
        ensures
            r == match self@.phase {
                DownloadPhase::Header => DownloadStep::ReadHeader,
                DownloadPhase::Body => if elapsed_ms < duration_ms {
                    DownloadStep::ReadBody
                } else {
                    DownloadStep::Stop
                },
                _ => DownloadStep::Stop,
            },
    {
        match self.phase {
            DownloadPhase::Header => DownloadStep::ReadHeader,
            DownloadPhase::Body => {
                if elapsed_ms < duration_ms {
                    DownloadStep::ReadBody
                } else {
                    DownloadStep::Stop
                }
            },
            _ => DownloadStep::Stop,
        }
    }

    /// Takes one read of the header into account: an empty line completes it. Gives the reason where
    /// the connection failed.
    pub fn header_read(&mut self, read: HeaderRead) -> (r: Option<String>)
        requires
            old(self).well_formed(),
            old(self)@.phase is Header,
        ensures
            final(self).well_formed(),
            final(self)@.bytes == 0,
            read is Byte ==> (final(self)@.phase is Failed <==> final(self)@.header.len() > 65536
                && !ends_header(final(self)@.header)),
            final(self)@.header == match read {
                HeaderRead::Byte(b) => old(self)@.header.push(b),
                _ => old(self)@.header,
            },
            match read {
                HeaderRead::Byte(_) => if ends_header(final(self)@.header) {
                    final(self)@.phase is Body && r is None
                } else if final(self)@.header.len() > HEADER_LIMIT {
                    final(self)@.phase is Failed && text::opt_view(r) == Some("HTTP 头过长"@)
                } else {
                    final(self)@.phase is Header && r is None
                },
                HeaderRead::Closed => final(self)@.phase is Failed && text::opt_view(r) == Some(
                    "连接提前关闭（读头阶段）"@,
                ),
                HeaderRead::Broken(e) => final(self)@.phase is Failed && text::opt_view(r) == Some(
                    "读头失败: "@ + e@,
                ),
            },
    {
        match read {
            HeaderRead::Byte(b) => {
                self.header.push(b);
                let n: usize = self.header.len();
                if n >= 4 && self.header[n - 4] == 13 && self.header[n - 3] == 10
                    && self.header[n - 2] == 13 && self.header[n - 1] == 10 {
                    self.phase = DownloadPhase::Body;
                    None
                } else if n > HEADER_LIMIT {
                    self.phase = DownloadPhase::Failed;
                    Some("HTTP 头过长".to_owned())
                } else {
                    None
                }
            },
            HeaderRead::Closed => {
                self.phase = DownloadPhase::Failed;
                Some("连接提前关闭（读头阶段）".to_owned())
            },
            HeaderRead::Broken(e) => {
                self.phase = DownloadPhase::Failed;
                let mut reason: String = "读头失败: ".to_owned();
                reason.append(e.as_str());
                Some(reason)
            },
        }
    }

    /// Takes one read of the body into account: its bytes are counted, and an empty or broken read
    /// ends the body.
    pub fn body_read(&mut self, read: BodyRead)
        requires
            old(self).well_formed(),
            old(self)@.phase is Body,
            read matches BodyRead::Bytes(n) ==> old(self)@.bytes + n <= u64::MAX,
        ensures
            final(self).well_formed(),
            final(self)@.header == old(self)@.header,
            final(self)@.bytes == old(self)@.bytes + (match read {
                BodyRead::Bytes(n) => n as int,
                BodyRead::Broken => 0,
            }),
            final(self)@.reads == match read {
                BodyRead::Bytes(n) => old(self)@.reads.push(n as nat),
                BodyRead::Broken => old(self)@.reads,
            },
            final(self)@.phase == if read matches BodyRead::Bytes(n) && n > 0 {
                DownloadPhase::Body
            } else {
                DownloadPhase::Ended
            },
    {
        match read {
            BodyRead::Bytes(n) => {
                self.bytes = self.bytes + n as u64;
                proof {
                    assert(self.reads@.push(n as nat).drop_last() =~= self.reads@);
                }
                self.reads = Ghost(self.reads@.push(n as nat));
                if n == 0 {
                    self.phase = DownloadPhase::Ended;
                }
            },
            BodyRead::Broken => {
                self.phase = DownloadPhase::Ended;
            },
        }
    }
}

/// A connection that fails before the end of the header counts nothing.
pub proof fn law_failed_connection_counts_nothing(d: Download)
    requires
        d.well_formed(),
        d@.phase is Failed,
    ensures
        d@.bytes == 0,
{
}

/// The numbers as mathematical numbers.
pub open spec fn as_nats(s: Seq<u64>) -> Seq<nat> {
    s.map_values(|n: u64| n as nat)
}

/// What the connections to an address downloaded together; `None` where it does not fit 64 bits.
pub fn total_bytes(parts: &Vec<u64>) -> (r: Option<u64>)
    ensures
        match r {
            Some(n) => n == total(as_nats(parts@)),
            None => total(as_nats(parts@)) > u64::MAX,
        },
{
    let ghost all = as_nats(parts@);
    let n: usize = parts.len();
    let mut sum: u64 = 0;
    let mut i: usize = 0;
    while i < n
        invariant
            i <= n,
            n == parts@.len(),
            all == as_nats(parts@),
            sum == total(all.take(i as int)),
        decreases n - i,
    {
        proof {
            assert(all.take(i + 1).drop_last() =~= all.take(i as int));
            assert(all.take(i + 1).last() == parts@[i as int]);
        }
        match sum.checked_add(parts[i]) {
            Some(s) => {
                sum = s;
            },
            None => {
                proof {
                    lemma_total_grows(all, i + 1);
                }
                return None;
            },
        }
        i += 1;
    }
    assert(all.take(n as int) =~= all);
    Some(sum)
}

proof fn lemma_total_grows(s: Seq<nat>, k: int)
    requires
        0 <= k <= s.len(),
    ensures
        total(s.take(k)) <= total(s),
    decreases s.len(),
{
    if k < s.len() {
        lemma_total_grows(s.drop_last(), k);
        assert(s.drop_last().take(k) =~= s.take(k));
    } else {
        assert(s.take(k) =~= s);
    }
}

/// How long the connections are waited for beyond the time for a measurement, in milliseconds.
pub const GRACE_MS: u64 = 3000;

/// Whether the connections have been waited for long enough.
pub fn past_deadline(elapsed_ms: u64, duration_ms: u64) -> (r: bool)
    ensures
        r == (elapsed_ms > duration_ms + GRACE_MS),
        r <==> elapsed_ms - duration_ms > 3000,
{
    elapsed_ms > GRACE_MS && elapsed_ms - GRACE_MS > duration_ms
}

/// The shortest time, in milliseconds, out of which a speed is computed.
pub const SHORTEST_MS: u64 = 500;

/// What is said of a measurement that gave too little.
pub open spec fn too_little_text(bytes: nat, elapsed_ms: nat, threads: nat) -> Seq<char> {
    "数据不足（bytes="@ + text::decimal(bytes) + ", elapsed="@ + text::decimal(elapsed_ms)
        + "ms, threads="@ + text::decimal(threads) + "）"@
}

/// Accepts what the connections to an address downloaded together, unless it took less than half
/// a second or nothing came.
pub fn check_download(bytes: u64, elapsed_ms: u64, threads: usize) -> (r: Result<(), String>)
    ensures
        r is Ok <==> elapsed_ms >= SHORTEST_MS && bytes > 0,
        r is Err <==> elapsed_ms < 500 || bytes == 0,
        r matches Err(e) ==> e@ == too_little_text(
            bytes as nat,
            elapsed_ms as nat,
            threads as nat,
        ),
{
    if elapsed_ms < SHORTEST_MS || bytes == 0 {
        let mut out: String = "数据不足（bytes=".to_owned();
        text::push_decimal(&mut out, bytes);
        out.append(", elapsed=");
        text::push_decimal(&mut out, elapsed_ms);
        out.append("ms, threads=");
        text::push_decimal(&mut out, threads as u64);
        out.append("）");
        Err(out)
    } else {
        Ok(())
    }
}

/// How long to wait, in milliseconds, before measuring again after `failures` failures; `None`
/// where the measurement is given up. There is one second attempt.
pub fn retry_after(failures: usize) -> (r: Option<u64>)
    ensures
        r == if failures < 2 {
            Some(200u64)
        } else {
            None::<u64>
        },
{
    if failures < 2 {
        Some(200)
    } else {
        None
    }
}

// ---- what is said ----

/// The start of the line that is said of a measurement.
pub open spec fn progress_start(done: nat, total: nat, ip: Seq<char>) -> Seq<char> {
    "  ["@ + text::decimal(done) + "/"@ + text::decimal(total) + "] "@ + ip + text::padding(ip, 20)
        + " | "@
}

fn start_progress(done: usize, total: usize, ip: &str) -> (r: String)
    ensures
        r@ == progress_start(done as nat, total as nat, ip@),
{
    let mut out: String = "  [".to_owned();
    text::push_decimal(&mut out, done as u64);
    out.append("/");
    text::push_decimal(&mut out, total as u64);
    out.append("] ");
    let padded = text::pad_right(ip, 20);
    out.append(padded.as_str());
    out.append(" | ");
    assert(out@ =~= progress_start(done as nat, total as nat, ip@));
    out
}

/// The line that is said of a measurement, where the printed numbers are the speed and the amount
/// in MB, and the seconds.
pub fn measured_line(
    done: usize,
    total: usize,
    result: &IpResult,
    speed: &str,
    amount: &str,
    seconds: &str,
) -> (r: String)
    ensures
        r@ == progress_start(done as nat, total as nat, result.ip@) + text::padding(
            text::decimal(result.delay_ms as nat),
            4,
        ) + text::decimal(result.delay_ms as nat) + "ms | "@ + text::padding(speed@, 7) + speed@
            + " MB/s | "@ + amount@ + "MB/"@ + seconds@ + "s"@,
{
    let mut out = start_progress(done, total, result.ip.as_str());
    let delay = text::to_decimal(result.delay_ms);
    let delay = text::pad_left(delay.as_str(), 4);
    out.append(delay.as_str());
    out.append("ms | ");
    let speed = text::pad_left(speed, 7);
    out.append(speed.as_str());
    out.append(" MB/s | ");
    out.append(amount);
    out.append("MB/");
    out.append(seconds);
    out.append("s");
    proof {
        assert(out@ =~= progress_start(done as nat, total as nat, result.ip@) + text::padding(
            text::decimal(result.delay_ms as nat),
            4,
        ) + text::decimal(result.delay_ms as nat) + "ms | "@ + speed@ + " MB/s | "@ + amount@
            + "MB/"@ + seconds@ + "s"@);
    }
    out
}

/// The line that is said of a measurement that failed.
pub fn failed_line(done: usize, total: usize, result: &IpResult, reason: &str) -> (r: String)
    ensures
        r@ == progress_start(done as nat, total as nat, result.ip@) + "测速失败: "@ + reason@,
{
    let mut out = start_progress(done, total, result.ip.as_str());
    out.append("测速失败: ");
    out.append(reason);
    out
}

// ---- what measuring is for ----

/// A result is a candidate where some region of the filter, at any place, names its edge location
/// whatever the case of its letters, and only then; each is listed once, those with lower latency
/// first and of those with equal latency the one that stands first.
pub proof fn law_candidates_by_region(s: Seq<IpResult>, regions: Seq<Seq<char>>, c: Seq<usize>)
    requires
        is_candidates(s, Some(regions), c),
    ensures
        forall|k: int, p: usize|
            0 <= k < regions.len() && p < s.len() && text::same_but_case(
                #[trigger] regions[k],
                (#[trigger] s[p as int]).colo@,
            ) ==> c.contains(p),
        forall|i: int|
            0 <= i < c.len() ==> (#[trigger] c[i]) < s.len() && exists|k: int|
                0 <= k < regions.len() && text::same_but_case(
                    #[trigger] regions[k],
                    s[c[i] as int].colo@,
                ),
        c.no_duplicates(),
        forall|i: int, j: int|
            0 <= i < j < c.len() ==> {
                let a = s[(#[trigger] c[i]) as int].delay_ms;
                let b = s[(#[trigger] c[j]) as int].delay_ms;
                a < b || (a == b && c[i] < c[j])
            },
{
    lemma_candidates_by_delay(s, Some(regions), c);
    assert forall|k: int, p: usize|
        0 <= k < regions.len() && p < s.len() && text::same_but_case(
            #[trigger] regions[k],
            (#[trigger] s[p as int]).colo@,
        ) implies c.contains(p) by {
        assert(passes(Some(regions), s[p as int].colo@));
    }
    assert forall|i: int| 0 <= i < c.len() implies (#[trigger] c[i]) < s.len() && exists|k: int|
        0 <= k < regions.len() && text::same_but_case(
            #[trigger] regions[k],
            s[c[i] as int].colo@,
        ) by {
        assert(passes(Some(regions), s[c[i] as int].colo@));
    }
}

proof fn lemma_candidates_by_delay(
    s: Seq<IpResult>,
    filter: Option<Seq<Seq<char>>>,
    c: Seq<usize>,
)
    requires
        is_candidates(s, filter, c),
    ensures
        c.no_duplicates(),
        forall|i: int, j: int|
            0 <= i < j < c.len() ==> {
                let a = s[(#[trigger] c[i]) as int].delay_ms;
                let b = s[(#[trigger] c[j]) as int].delay_ms;
                a < b || (a == b && c[i] < c[j])
            },
{
    let keys = types::delay_keys(s);
    assert forall|i: int, j: int| 0 <= i < j < c.len() implies {
        let a = s[(#[trigger] c[i]) as int].delay_ms;
        let b = s[(#[trigger] c[j]) as int].delay_ms;
        a < b || (a == b && c[i] < c[j])
    } by {
        assert(order::precedes(keys, c[i] as int, c[j] as int));
        assert(keys[c[i] as int] == s[c[i] as int].delay_ms);
        assert(keys[c[j] as int] == s[c[j] as int].delay_ms);
    }
}

/// Without a filter every result is a candidate, once, those with lower latency first.
pub proof fn law_all_are_candidates(s: Seq<IpResult>, c: Seq<usize>)
    requires
        is_candidates(s, None, c),
    ensures
        forall|p: usize| p < s.len() ==> #[trigger] c.contains(p),
        forall|i: int| 0 <= i < c.len() ==> (#[trigger] c[i]) < s.len(),
        c.no_duplicates(),
        forall|i: int, j: int|
            0 <= i < j < c.len() ==> {
                let a = s[(#[trigger] c[i]) as int].delay_ms;
                let b = s[(#[trigger] c[j]) as int].delay_ms;
                a < b || (a == b && c[i] < c[j])
            },
{
    lemma_candidates_by_delay(s, None, c);
    assert forall|p: usize| p < s.len() implies #[trigger] c.contains(p) by {
        assert(passes(None, s[p as int].colo@));
    }
}

/// A filter holds the text of each of its regions, and no filter is none.
pub proof fn law_filter_texts(regions: &Vec<String>)
    ensures
        filter_view(Some(regions)) matches Some(f) && f.len() == regions@.len() && forall|k: int|
            0 <= k < regions@.len() ==> #[trigger] f[k] == regions@[k]@,
        filter_view(None) is None,
{
}

/// A measurement reaches the speed that is wanted where both are numbers and it is no lower; one that
/// failed never does.
pub proof fn law_qualifies(speed: Metric, score: Metric, min_speed: Metric)
    ensures
        qualifies(Outcome::Measured { speed, score }, min_speed) <==> speed.is_number()
            && min_speed.is_number() && speed.rank() >= min_speed.rank(),
        !qualifies(Outcome::Failed, min_speed),
{
}

/// A measurement sets the speed and the score and nothing else; one that failed sets nothing.
pub proof fn law_measured_as(r: IpResult, speed: Metric, score: Metric)
    ensures
        measured_as(r, Outcome::Failed) == r,
        ({
            let m = measured_as(r, Outcome::Measured { speed, score });
            &&& m.speed_mbps == Some(speed)
            &&& m.score == Some(score)
            &&& m.ip == r.ip && m.port == r.port && m.delay_ms == r.delay_ms && m.colo == r.colo
        }),
{
}

/// Those that reach the speed are counted one by one.
pub proof fn law_qualified_count(outcomes: Seq<Outcome>, min_speed: Metric)
    ensures
        qualified_count(outcomes, min_speed) == outcomes.filter(
            |o: Outcome| qualifies(o, min_speed),
        ).len(),
    decreases outcomes.len(),
{
    reveal(Seq::filter);
    if outcomes.len() > 0 {
        law_qualified_count(outcomes.drop_last(), min_speed);
    }
}

/// At every point of a run each candidate that was measured has its own outcome, every other result is
/// as it was given, the results that reach the speed are counted, and no more is measured than was
/// handed out.
pub proof fn law_run_is_consistent(run: SpeedRun, k: int, p: int)
    requires
        run.well_formed(),
        0 <= k < run@.outcomes.len(),
        0 <= p < run@.given.len(),
        !run@.candidates.take(run@.outcomes.len() as int).contains(p as usize),
        p <= usize::MAX,
    ensures
        run@.results.len() == run@.given.len(),
        ({
            let at = run@.candidates[k] as int;
            run@.results[at] == measured_as(run@.given[at], run@.outcomes[k])
        }),
        run@.results[p] == run@.given[p],
        run@.qualified == run@.outcomes.filter(|o: Outcome| qualifies(o, run@.min_speed)).len(),
        run@.outcomes.len() == run@.tested <= run@.batch_end <= run@.candidates.len(),
{
    law_qualified_count(run@.outcomes, run@.min_speed);
    let at = run@.candidates[k];
    law_applied(run@.given, run@.candidates, run@.outcomes, at as int);
    law_applied(run@.given, run@.candidates, run@.outcomes, p);
    assert forall|j: int| 0 <= j < run@.outcomes.len() implies #[trigger] run@.candidates[j]
        != p by {
        if run@.candidates[j] == p {
            assert(run@.candidates.take(run@.outcomes.len() as int)[j] == p as usize);
        }
    }
}

/// A batch has as many candidates as are wanted, or those that are left where these are fewer; the
/// first one is measured wherever there is a candidate and some are wanted.
pub proof fn law_batches(run: SpeedRun)
    requires
        run.well_formed(),
    ensures
        run.next_end() - run@.batch_end == (if run@.top_n <= run@.candidates.len() - run@.batch_end {
            run@.top_n as int
        } else {
            run@.candidates.len() - run@.batch_end
        }),
        run@.batches == 0 ==> (run.goes_on() <==> run@.candidates.len() > 0 && run@.top_n > 0),
        run@.top_n == 0 ==> !run.goes_on(),
        run@.batch_end == run@.candidates.len() ==> !run.goes_on(),
{
}

/// The task of a run is its candidates, what is wanted of it and what it was given.
pub proof fn law_task(a: SpeedRun, b: SpeedRun)
    requires
        a.same_task(b),
    ensures
        a@.candidates == b@.candidates,
        a@.given == b@.given,
        a@.top_n == b@.top_n && a@.max_records == b@.max_records && a@.max_batches == b@.max_batches
            && a@.min_speed == b@.min_speed,
{
}

/// Ranking moves each result to one place; of results with equal scores, or without one, the one that
/// stood first comes first.
pub proof fn law_ranking_is_stable(s: Seq<IpResult>, out: Seq<IpResult>)
    requires
        order::sorted_by(s, score_keys(s), out),
    ensures
        exists|from: Seq<usize>|
            {
                &&& #[trigger] from.no_duplicates()
                &&& from.len() == s.len()
                &&& out.len() == s.len()
                &&& forall|i: int|
                    0 <= i < from.len() ==> (#[trigger] from[i]) < s.len() && out[i]
                        == s[from[i] as int]
                &&& forall|i: int, j: int|
                    0 <= i < j < from.len() ==> {
                        let a = (#[trigger] from[i]) as int;
                        let b = (#[trigger] from[j]) as int;
                        match (s[a].score, s[b].score) {
                            (Some(x), Some(y)) => x.rank() == y.rank() ==> a < b,
                            (None, None) => a < b,
                            _ => true,
                        }
                    }
            },
{
    let keys = score_keys(s);
    order::law_sorted_is_stable(s, keys, out);
    let from = choose|from: Seq<usize>|
        {
            &&& #[trigger] from.no_duplicates()
            &&& from.len() == keys.len()
            &&& out.len() == keys.len()
            &&& forall|i: int|
                0 <= i < from.len() ==> (#[trigger] from[i]) < keys.len() && out[i]
                    == s[from[i] as int]
            &&& forall|i: int, j: int|
                0 <= i < j < from.len() ==> {
                    let a = (#[trigger] from[i]) as int;
                    let b = (#[trigger] from[j]) as int;
                    keys[a] <= keys[b] && (keys[a] == keys[b] ==> a < b)
                }
        };
    assert(from.no_duplicates());
    assert forall|i: int, j: int| 0 <= i < j < from.len() implies {
        let a = (#[trigger] from[i]) as int;
        let b = (#[trigger] from[j]) as int;
        match (s[a].score, s[b].score) {
            (Some(x), Some(y)) => x.rank() == y.rank() ==> a < b,
            (None, None) => a < b,
            _ => true,
        }
    } by {
        assert(keys[from[i] as int] == score_key(s[from[i] as int]));
        assert(keys[from[j] as int] == score_key(s[from[j] as int]));
    }
}

/// The sum of numbers is the sum of the sums of two parts, and that of one number is itself.
pub proof fn law_total(a: Seq<nat>, b: Seq<nat>, n: nat)
    ensures
        total(a + b) == total(a) + total(b),
        total(seq![n]) == n,
        total(Seq::empty()) == 0,
    decreases b.len(),
{
    assert(seq![n].drop_last() =~= Seq::<nat>::empty());
    assert(total(Seq::<nat>::empty()) == 0);
    if b.len() == 0 {
        assert(a + b =~= a);
    } else {
        law_total(a, b.drop_last(), n);
        assert((a + b).drop_last() =~= a + b.drop_last());
        assert((a + b).last() == b.last());
    }
}

/// The numbers stay the same numbers.
pub proof fn law_as_nats(s: Seq<u64>)
    ensures
        as_nats(s).len() == s.len(),
        forall|i: int| 0 <= i < s.len() ==> #[trigger] as_nats(s)[i] == s[i],
{
}

/// A header ends where the last four bytes are a carriage return and a line feed, twice.
pub proof fn law_header_end(bytes: Seq<u8>)
    ensures
        ends_header(bytes + seq![13u8, 10, 13, 10]),
        ends_header(bytes) ==> bytes.len() >= 4 && bytes.skip(bytes.len() - 4) == seq![
            13u8,
            10,
            13,
            10,
        ],
{
    if ends_header(bytes) {
        assert(bytes.skip(bytes.len() - 4) =~= seq![13u8, 10, 13, 10]);
    }
}

/// A connection counts the bytes of its body and of nothing else, and reads a body only after a whole
/// header.
pub proof fn law_connection(d: Download)
    requires
        d.well_formed(),
    ensures
        d@.bytes == total(d@.reads),
        d@.phase is Header ==> d@.bytes == 0 && d@.header.len() <= 65536 && !ends_header(d@.header),
        d@.phase is Body || d@.phase is Ended ==> ends_header(d@.header),
{
}

/// The line of a measurement starts with how many are done, of how many, and the address, which is
/// followed by spaces up to the twentieth character; what is said of too little names what came.
pub proof fn law_measurement_texts(done: nat, all: nat, ip: Seq<char>, bytes: nat, ms: nat, n: nat)
    ensures
        progress_start(done, all, ip) == text::joined(
            seq!["  ["@ + text::decimal(done), text::decimal(all) + "] "@ + ip + text::padding(
                ip,
                20,
            ) + " | "@],
            "/"@,
        ),
        too_little_text(bytes, ms, n) == text::joined(
            seq![
                "数据不足（bytes="@ + text::decimal(bytes),
                "elapsed="@ + text::decimal(ms) + "ms"@,
                "threads="@ + text::decimal(n) + "）"@,
            ],
            ", "@,
        ),
{
    reveal_with_fuel(text::joined, 4);
    let a = "  ["@ + text::decimal(done);
    let b = text::decimal(all) + "] "@ + ip + text::padding(ip, 20) + " | "@;
    assert(seq![a, b].drop_last() =~= seq![a]);
    assert(progress_start(done, all, ip) =~= a + "/"@ + b);
    reveal_strlit(", elapsed=");
    reveal_strlit("elapsed=");
    reveal_strlit("ms, threads=");
    reveal_strlit("threads=");
    reveal_strlit("ms");
    reveal_strlit(", ");
    let x = "数据不足（bytes="@ + text::decimal(bytes);
    let y = "elapsed="@ + text::decimal(ms) + "ms"@;
    let z = "threads="@ + text::decimal(n) + "）"@;
    assert(seq![x, y, z].drop_last() =~= seq![x, y]);
    assert(seq![x, y].drop_last() =~= seq![x]);
    assert(", elapsed="@ =~= ", "@ + "elapsed="@);
    assert("ms, threads="@ =~= "ms"@ + ", "@ + "threads="@);
    assert(too_little_text(bytes, ms, n) =~= x + ", "@ + y + ", "@ + z);
}

} // verus!
