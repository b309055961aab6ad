//! Running on a schedule: whether to, how long to wait, and what is said.
use crate::config::Config;
use crate::text;
use crate::types::Timestamp;
use vstd::prelude::*;

verus! {

// ---- schedules ----

/// A schedule with a field for the seconds: one of five fields gets a leading zero.
pub open spec fn with_seconds(expr: Seq<char>) -> Seq<char> {
    if text::words_of(expr).len() == 5 {
        "0 "@ + expr
    } else {
        expr
    }
}

/// A schedule with a field for the seconds.
pub fn normalize_cron(expr: &str) -> (r: String)
    ensures
        r@ == with_seconds(expr@),
{
    let parts = text::words(expr);
    assert(parts@.len() == text::views(parts@).len());
    if parts.len() == 5 {
        let mut out: String = "0 ".to_owned();
        out.append(expr);
        out
    } else {
        expr.to_owned()
    }
}

/// What `cron` finds wrong with a schedule, in its own words; `None` where it can read it. A
/// function of the text alone.
pub uninterp spec fn cron_fault(expr: Seq<char>) -> Option<Seq<char>>;

/// Calls `cron::Schedule::from_str`, and `to_string` on the error; `cron_fault` names the result.
#[verifier::external_body]
fn check_cron(expr: &str) -> (r: Option<String>)
    ensures
        text::opt_view(r) == cron_fault(expr@),
{
    expr.parse::<cron::Schedule>().err().map(|e| e.to_string())
}

/// How the program runs where no command is given.
#[derive(Debug)]
pub enum RunMode {
    /// Once; this is said, where there is anything to say.
    Once(Option<String>),
    /// On the schedule.
    Daemon,
}

/// What is said of a schedule that cannot be read.
pub open spec fn bad_cron_text(expr: Seq<char>, fault: Seq<char>) -> Seq<char> {
    "cron 表达式 \""@ + expr + "\" 解析失败（"@ + fault + "），退回单次执行模式"@
}

/// Whether a mode is the one for a configuration whose schedule has this fault.
pub open spec fn is_mode(mode: RunMode, config: Config, fault: Option<Seq<char>>) -> bool {
    match mode {
        RunMode::Daemon => config.schedule.enable && fault is None,
        RunMode::Once(None) => !config.schedule.enable,
        RunMode::Once(Some(said)) => {
            &&& config.schedule.enable
            &&& fault matches Some(f) && said@ == bad_cron_text(config.schedule.cron@, f)
        },
    }
}

/// How the program runs, where `fault` is what is wrong with the schedule: on the schedule where it
/// is enabled and can be read, else once.
pub fn mode_given(config: &Config, fault: Option<String>) -> (r: RunMode)
    ensures
        is_mode(r, *config, text::opt_view(fault)),
{
    if !config.schedule.enable {
        return RunMode::Once(None);
    }
    match fault {
        None => RunMode::Daemon,
        Some(f) => {
            let mut said: String = "cron 表达式 \"".to_owned();
            said.append(config.schedule.cron.as_str());
            said.append("\" 解析失败（");
            said.append(f.as_str());
            said.append("），退回单次执行模式");
            RunMode::Once(Some(said))
        },
    }
}

/// How the program runs where no command is given.
pub fn run_mode(config: &Config) -> (r: RunMode)
    ensures
        is_mode(r, *config, cron_fault(with_seconds(config.schedule.cron@))),
{
    let expr = normalize_cron(config.schedule.cron.as_str());
    mode_given(config, check_cron(expr.as_str()))
}

/// Whether the program runs on the schedule.
pub fn is_daemon_mode(config: &Config) -> (r: bool)
    ensures
        r == (config.schedule.enable && cron_fault(with_seconds(config.schedule.cron@)) is None),
{
    match run_mode(config) {
        RunMode::Daemon => true,
        RunMode::Once(_) => false,
    }
}

// ---- waiting ----

/// The nanoseconds in a second.
pub const SECOND: u32 = 1_000_000_000;

/// A point in time in nanoseconds since the epoch.
pub open spec fn in_nanos(t: Timestamp) -> int {
    t.secs * (SECOND as int) + t.nanos
}

/// How long to wait from `now` until `next`, in seconds and nanoseconds; one second where `next` has
/// passed.
pub fn wait_until(now: Timestamp, next: Timestamp) -> (r: (u64, u32))
    requires
        now.nanos < SECOND,
        next.nanos < SECOND,
    ensures
        r.1 < SECOND,
        r.0 * (SECOND as int) + r.1 == if in_nanos(next) >= in_nanos(now) {
            in_nanos(next) - in_nanos(now)
        } else {
            SECOND as int
        },
{
    let secs: i128 = next.secs as i128 - now.secs as i128;
    if secs > 0 || (secs == 0 && next.nanos >= now.nanos) {
        if next.nanos >= now.nanos {
            (secs as u64, next.nanos - now.nanos)
        } else {
            ((secs - 1) as u64, SECOND - (now.nanos - next.nanos))
        }
    } else {
        (1, 0)
    }
}

/// A duration as it is shown: with seconds below an hour, and without them from an hour on.
pub open spec fn duration_text(secs: nat) -> Seq<char> {
    if secs < 60 {
        text::decimal(secs) + "s"@
    } else if secs < 3600 {
        text::decimal(secs / 60) + "m"@ + text::decimal(secs % 60) + "s"@
    } else {
        text::decimal(secs / 3600) + "h"@ + text::decimal((secs % 3600) / 60) + "m"@
    }
}

/// A duration of so many seconds as it is shown.
pub fn format_duration(secs: u64) -> (r: String)
    ensures
        r@ == duration_text(secs as nat),
{
    let mut out: String;
    if secs < 60 {
        out = text::to_decimal(secs);
        out.append("s");
    } else if secs < 3600 {
        out = text::to_decimal(secs / 60);
        out.append("m");
        text::push_decimal(&mut out, secs % 60);
        out.append("s");
    } else {
        out = text::to_decimal(secs / 3600);
        out.append("h");
        text::push_decimal(&mut out, (secs % 3600) / 60);
        out.append("m");
    }
    out
}

// ---- what is said and done ----

/// The line that shows the schedule, and the one that is used where it differs.
pub fn schedule_line(cron: &str) -> (r: String)
    ensures
        r@ == if with_seconds(cron@) == cron@ {
            "cron : "@ + cron@
        } else {
            "cron : "@ + cron@ + "  （已自动补秒，实际: "@ + with_seconds(cron@) + "）"@
        },
{
    let expr = normalize_cron(cron);
    let mut out: String = "cron : ".to_owned();
    out.append(cron);
    if !text::same_text(expr.as_str(), cron) {
        out.append("  （已自动补秒，实际: ");
        out.append(expr.as_str());
        out.append("）");
    }
    out
}

/// The line that shows when the next run is due, where `when` is the printed time.
pub fn next_run_line(when: &str, wait_secs: u64) -> (r: String)
    ensures
        r@ == "下次执行: "@ + when@ + "  (等待 "@ + duration_text(wait_secs as nat) + ")"@,
{
    let mut out: String = "下次执行: ".to_owned();
    out.append(when);
    out.append("  (等待 ");
    let wait = format_duration(wait_secs);
    out.append(wait.as_str());
    out.append(")");
    out
}

/// What happens while the program runs on a schedule.
#[derive(Debug)]
pub enum DaemonEvent {
    /// The time has come.
    Due,
    /// Another run was asked for.
    RetestAsked,
    /// A run has ended.
    RunDone,
    /// A run has ended with this error.
    RunFailed(String),
    /// The program is to stop.
    StopSignal,
}

/// What follows an event.
#[derive(Clone, Copy, Debug, PartialEq, Eq, Structural)]
pub enum DaemonAction {
    /// Wait for the next time, a request for another run or a signal to stop.
    Wait,
    /// Run the whole procedure.
    Run,
    /// End the program.
    Stop,
}

/// What the program does when it starts to run on a schedule: it waits, and runs nothing yet.
pub fn first_action() -> (r: DaemonAction)
    ensures
        r == DaemonAction::Wait,
{
    DaemonAction::Wait
}

/// What follows an event: a run where one is due or asked for, and waiting again after a run,
/// whether or not it succeeded.
pub open spec fn action_after(event: DaemonEvent) -> DaemonAction {
    match event {
        DaemonEvent::Due => DaemonAction::Run,
        DaemonEvent::RetestAsked => DaemonAction::Run,
        DaemonEvent::RunDone => DaemonAction::Wait,
        DaemonEvent::RunFailed(_) => DaemonAction::Wait,
        DaemonEvent::StopSignal => DaemonAction::Stop,
    }
}

/// What is said of an event.
pub open spec fn event_text(event: DaemonEvent) -> Option<Seq<char>> {
    match event {
        DaemonEvent::Due => Some("\n━━━ cron 触发，开始执行 ━━━"@),
        DaemonEvent::RetestAsked => Some("\n━━━ 收到重测请求，开始执行 ━━━"@),
        DaemonEvent::RunDone => None,
        DaemonEvent::RunFailed(e) => Some("执行失败: "@ + e@),
        DaemonEvent::StopSignal => Some("\n收到退出信号，daemon 停止"@),
    }
}

/// Tells what is said of an event and what follows it.
pub fn on_event(event: DaemonEvent) -> (r: (Option<String>, DaemonAction))
    ensures
        text::opt_view(r.0) == event_text(event),
        r.1 == action_after(event),
{
    match event {
        DaemonEvent::Due => (
            Some("\n━━━ cron 触发，开始执行 ━━━".to_owned()),
            DaemonAction::Run,
        ),
        DaemonEvent::RetestAsked => (
            Some("\n━━━ 收到重测请求，开始执行 ━━━".to_owned()),
            DaemonAction::Run,
        ),
        DaemonEvent::RunDone => (None, DaemonAction::Wait),
        DaemonEvent::RunFailed(e) => {
            let mut said: String = "执行失败: ".to_owned();
            said.append(e.as_str());
            (Some(said), DaemonAction::Wait)
        },
        DaemonEvent::StopSignal => (
            Some("\n收到退出信号，daemon 停止".to_owned()),
            DaemonAction::Stop,
        ),
    }
}

// ---- laws ----

/// Nothing but a signal ends the program: after a run, also one that failed, it waits again.
pub proof fn law_only_a_signal_stops(event: DaemonEvent)
    ensures
        action_after(event) == DaemonAction::Stop <==> event is StopSignal,
        event is RunDone || event is RunFailed ==> action_after(event) == DaemonAction::Wait,
{
}

/// A leading zero and a space add one word, and leave the others as they are.
proof fn lemma_zero_added(expr: Seq<char>)
    ensures
        text::words_of("0 "@ + expr) == seq!["0"@] + text::words_of(expr),
{
    reveal_strlit("0 ");
    reveal_strlit("0");
    let s = "0 "@ + expr;
    assert(!text::is_space('0'));
    assert(text::is_space(' '));
    assert(s[0] == '0');
    assert(s[1] == ' ');
    assert(text::trimmed_start(s) == s);
    assert(text::word_len(s) == 1) by {
        assert(s.drop_first()[0] == ' ');
        assert(text::word_len(s.drop_first()) == 0);
    }
    assert(s.take(1) =~= "0"@);
    let rest = s.skip(1);
    assert(rest[0] == ' ');
    assert(rest.drop_first() =~= expr);
    assert(text::trimmed_start(rest) == text::trimmed_start(expr));
    assert(text::words_of(rest) == text::words_of(expr));
}

/// A schedule of five fields becomes one of six, and the five stay behind a zero.
pub proof fn law_five_fields_become_six(expr: Seq<char>)
    requires
        text::words_of(expr).len() == 5,
    ensures
        text::words_of(with_seconds(expr)) == seq!["0"@] + text::words_of(expr),
        text::words_of(with_seconds(expr)).len() == 6,
{
    lemma_zero_added(expr);
}

/// A schedule that has a field for the seconds stays as it is.
pub proof fn law_normalizing_twice(expr: Seq<char>)
    ensures
        with_seconds(with_seconds(expr)) == with_seconds(expr),
{
    if text::words_of(expr).len() == 5 {
        lemma_zero_added(expr);
    }
}

/// A schedule of five fields gets a zero and a space before it; any other stays as it is.
pub proof fn law_seconds_are_added_in_front(expr: Seq<char>)
    ensures
        text::words_of(expr).len() == 5 ==> with_seconds(expr) == seq!['0', ' '] + expr,
        text::words_of(expr).len() != 5 ==> with_seconds(expr) == expr,
{
    reveal_strlit("0 ");
    assert("0 "@ =~= seq!['0', ' ']);
}

/// The program runs on the schedule where that is switched on and the schedule can be read, and only
/// there. Otherwise it runs once, and tells what is wrong with a schedule that was to be used.
pub proof fn law_mode(config: Config, fault: Option<Seq<char>>, said: String)
    ensures
        is_mode(RunMode::Daemon, config, fault) <==> config.schedule.enable && fault is None,
        is_mode(RunMode::Once(None), config, fault) <==> !config.schedule.enable,
        is_mode(RunMode::Once(Some(said)), config, fault) <==> config.schedule.enable && (
        fault matches Some(f) && said@ == "cron 表达式 \""@ + config.schedule.cron@
            + "\" 解析失败（"@ + f + "），退回单次执行模式"@),
{
}

/// Points in time are ordered by their seconds, and within a second by their nanoseconds; a second has
/// a thousand million of these.
pub proof fn law_in_nanos(a: Timestamp, b: Timestamp)
    requires
        a.nanos < 1_000_000_000,
        b.nanos < 1_000_000_000,
    ensures
        in_nanos(a) < in_nanos(b) <==> a.secs < b.secs || (a.secs == b.secs && a.nanos < b.nanos),
        a.nanos == b.nanos ==> in_nanos(b) - in_nanos(a) == (b.secs - a.secs) * 1_000_000_000,
        a.secs == b.secs ==> in_nanos(b) - in_nanos(a) == b.nanos - a.nanos,
{
}

/// A duration of hours, minutes and seconds is shown by its hours and minutes from an hour on, by its
/// minutes and seconds from a minute on, and by its seconds below that.
pub proof fn law_duration(h: nat, m: nat, s: nat)
    requires
        m < 60,
        s < 60,
    ensures
        h > 0 ==> duration_text(3600 * h + 60 * m + s) == text::decimal(h) + "h"@ + text::decimal(m)
            + "m"@,
        m > 0 ==> duration_text(60 * m + s) == text::decimal(m) + "m"@ + text::decimal(s) + "s"@,
        duration_text(s) == text::decimal(s) + "s"@,
{
    let n = 3600 * h + 60 * m + s;
    assert(n / 3600 == h && n % 3600 == 60 * m + s);
    assert((60 * m + s) / 60 == m && (60 * m + s) % 60 == s);
}

/// A run follows where one is due or was asked for, and only there; what is said tells the event, and
/// why a run failed.
pub proof fn law_events(event: DaemonEvent, reason: String)
    ensures
        action_after(event) == DaemonAction::Run <==> event is Due || event is RetestAsked,
        action_after(event) == DaemonAction::Wait <==> event is RunDone || event is RunFailed,
        event_text(event) is None <==> event is RunDone,
        event_text(DaemonEvent::Due) == Some("\n━━━ cron 触发，开始执行 ━━━"@),
        event_text(DaemonEvent::RetestAsked) == Some("\n━━━ 收到重测请求，开始执行 ━━━"@),
        event_text(DaemonEvent::RunFailed(reason)) == Some("执行失败: "@ + reason@),
        event_text(DaemonEvent::StopSignal) == Some("\n收到退出信号，daemon 停止"@),
{
}

} // verus!
