//! Results of scanning and measuring an address.
use crate::metric::Metric;
use crate::order;
use vstd::prelude::*;

verus! {

/// The outcome of scanning and measuring one address.
#[derive(Debug)]
pub struct IpResult {
    pub ip: String,
    pub port: u16,
    /// The lowest TCP latency, in milliseconds.
    pub delay_ms: u64,
    /// The three-letter code of the edge location, such as "HKG".
    pub colo: String,
    /// The download speed in MB/s; `None` where it was not measured.
    pub speed_mbps: Option<Metric>,
    /// The combined score; `None` where the speed was not measured.
    pub score: Option<Metric>,
}

impl Clone for IpResult {
    fn clone(&self) -> (r: Self)
        ensures
            r == *self,
    {
        IpResult {
            ip: self.ip.clone(),
            port: self.port,
            delay_ms: self.delay_ms,
            colo: self.colo.clone(),
            speed_mbps: self.speed_mbps,
            score: self.score,
        }
    }
}

impl IpResult {
    /// A result whose speed was not measured.
    pub fn new(ip: String, port: u16, delay_ms: u64, colo: String) -> (r: Self)
        ensures
            r == (IpResult { ip, port, delay_ms, colo, speed_mbps: None, score: None }),
    {
        IpResult { ip, port, delay_ms, colo, speed_mbps: None, score: None }
    }

    /// The speed as the table shows it, where `text` is the printed speed.
    pub fn speed_display(&self, text: &str) -> (r: String)
        ensures
            r@ == match self.speed_mbps {
                Some(_) => text@ + " MB/s"@,
                None => "-"@,
            },
    {
        if self.speed_mbps.is_some() {
            let mut out: String = text.to_owned();
            out.append(" MB/s");
            out
        } else {
            "-".to_owned()
        }
    }
}

/// A point in time: seconds since the epoch, and nanoseconds after them.
#[derive(Clone, Copy, Debug, PartialEq, Eq, Structural)]
pub struct Timestamp {
    pub secs: i64,
    pub nanos: u32,
}

/// The results of one run and when it was made, as the state file keeps them.
#[derive(Debug)]
pub struct ScanState {
    pub scanned_at: Timestamp,
    pub results: Vec<IpResult>,
}

impl ScanState {
    /// The state of a run that ended at `now`.
    pub fn new(results: Vec<IpResult>, now: Timestamp) -> (r: Self)
        ensures
            r.scanned_at == now,
            r.results == results,
    {
        ScanState { scanned_at: now, results }
    }
}

/// The results at the positions that `order` lists.
pub fn arrange_results(v: &Vec<IpResult>, order: &Vec<usize>) -> (r: Vec<IpResult>)
    requires
        forall|i: int| 0 <= i < order@.len() ==> #[trigger] order@[i] < v@.len(),
    ensures
        r@ == order::arranged(v@, order@),
{
    let n: usize = order.len();
    let mut out: Vec<IpResult> = Vec::new();
    let mut i: usize = 0;
    while i < n
        invariant
            i <= n,
            n == order@.len(),
            forall|k: int| 0 <= k < order@.len() ==> #[trigger] order@[k] < v@.len(),
            out@ == order::arranged(v@, order@).take(i as int),
        decreases n - i,
    {
        let at: usize = order[i];
        out.push(v[at].clone());
        assert(order::arranged(v@, order@).take(i + 1) =~= order::arranged(v@, order@).take(
            i as int,
        ).push(v@[at as int]));
        i += 1;
    }
    assert(order::arranged(v@, order@).take(n as int) =~= order::arranged(v@, order@));
    out
}

/// The latencies of results, as sorting keys.
pub open spec fn delay_keys(s: Seq<IpResult>) -> Seq<i128> {
    s.map_values(|r: IpResult| r.delay_ms as i128)
}

/// The latencies of results, as sorting keys.
pub fn keys_by_delay(v: &Vec<IpResult>) -> (r: Vec<i128>)
    ensures
        r@ == delay_keys(v@),
{
    let n: usize = v.len();
    let mut out: Vec<i128> = Vec::new();
    let mut i: usize = 0;
    while i < n
        invariant
            i <= n,
            n == v@.len(),
            out@ == delay_keys(v@).take(i as int),
        decreases n - i,
    {
        out.push(v[i].delay_ms as i128);
        assert(delay_keys(v@).take(i + 1) =~= delay_keys(v@).take(i as int).push(
            v@[i as int].delay_ms as i128,
        ));
        i += 1;
    }
    assert(delay_keys(v@).take(n as int) =~= delay_keys(v@));
    out
}

/// The results with ascending latency; those with equal latency stay in their order.
pub fn sort_by_delay(v: &Vec<IpResult>) -> (r: Vec<IpResult>)
    ensures
        order::sorted_by(v@, delay_keys(v@), r@),
{
    let keys = keys_by_delay(v);
    let positions = order::stable_order(&keys);
    assert(order::is_stable_order(delay_keys(v@), positions@));
    arrange_results(v, &positions)
}

/// After sorting, no result has a lower latency than one before it.
pub proof fn law_sorted_by_delay_ascends(s: Seq<IpResult>, out: Seq<IpResult>, i: int, j: int)
    requires
        order::sorted_by(s, delay_keys(s), out),
        0 <= i <= j < out.len(),
    ensures
        out[i].delay_ms <= out[j].delay_ms,
{
    let keys = delay_keys(s);
    let positions = choose|positions: Seq<usize>| #[trigger]
        order::is_stable_order(keys, positions) && out == order::arranged(s, positions);
    assert(0 <= positions[i] < s.len());
    assert(0 <= positions[j] < s.len());
    assert(keys[positions[i] as int] == out[i].delay_ms);
    assert(keys[positions[j] as int] == out[j].delay_ms);
    if i < j {
        assert(order::precedes(keys, positions[i] as int, positions[j] as int));
    }
}

/// Sorting by latency moves each result to one place, and of results with equal latency the one that
/// stood first comes first.
pub proof fn law_sorted_by_delay_is_stable(s: Seq<IpResult>, out: Seq<IpResult>)
    requires
        order::sorted_by(s, delay_keys(s), out),
    ensures
        exists|from: Seq<usize>|
            {
                &&& #[trigger] from.no_duplicates()
                &&& from.len() == s.len()
                &&& out.len() == s.len()
                &&& forall|i: int|
                    0 <= i < from.len() ==> (#[trigger] from[i]) < s.len() && out[i]
                        == s[from[i] as int]
                &&& forall|i: int, j: int|
                    0 <= i < j < from.len() ==> {
                        let a = (#[trigger] from[i]) as int;
                        let b = (#[trigger] from[j]) as int;
                        s[a].delay_ms <= s[b].delay_ms && (s[a].delay_ms == s[b].delay_ms ==> a < b)
                    }
            },
{
    let keys = delay_keys(s);
    order::law_sorted_is_stable(s, keys, out);
    let from = choose|from: Seq<usize>|
        {
            &&& #[trigger] from.no_duplicates()
            &&& from.len() == keys.len()
            &&& out.len() == keys.len()
            &&& forall|i: int|
                0 <= i < from.len() ==> (#[trigger] from[i]) < keys.len() && out[i]
                    == s[from[i] as int]
            &&& forall|i: int, j: int|
                0 <= i < j < from.len() ==> {
                    let a = (#[trigger] from[i]) as int;
                    let b = (#[trigger] from[j]) as int;
                    keys[a] <= keys[b] && (keys[a] == keys[b] ==> a < b)
                }
        };
    assert(from.no_duplicates());
    assert forall|i: int, j: int| 0 <= i < j < from.len() implies {
        let a = (#[trigger] from[i]) as int;
        let b = (#[trigger] from[j]) as int;
        s[a].delay_ms <= s[b].delay_ms && (s[a].delay_ms == s[b].delay_ms ==> a < b)
    } by {
        assert(keys[from[i] as int] == s[from[i] as int].delay_ms);
        assert(keys[from[j] as int] == s[from[j] as int].delay_ms);
    }
}

} // verus!
