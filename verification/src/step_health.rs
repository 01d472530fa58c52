//! Health of the steps of a long-running task: consecutive failures, a sliding
//! window of outcomes and a circuit breaker that pauses a failing step.

use crate::assoc::{distinct, first_with, lemma_first_with, lemma_lookup_none, lookup, lookup_after_put,
    put, put_shape, Assoc};
use crate::text::{copy_option, decimal, opt_text, push_decimal, same};
use vstd::prelude::*;
use vstd::string::*;

verus! {

/// Consecutive failures from which a step is paused.
pub const CIRCUIT_BREAK_THRESHOLD: u32 = 5;

/// Number of outcomes in the window.
pub const WINDOW_SIZE: usize = 20;

/// Number of outcomes from which the error rate counts.
pub const WINDOW_MIN_SAMPLES: usize = 5;

/// Error rate from which a step is paused, in tenths.
pub const WINDOW_ERROR_TENTHS: usize = 6;

/// Version of what is kept on disk.
pub const SCHEMA_VERSION: u32 = 1;

/// One outcome in the window.
#[derive(Debug)]
pub struct WindowSample {
    /// When, in RFC 3339.
    pub t: String,
    pub ok: bool,
}

impl Clone for WindowSample {
    fn clone(&self) -> (r: WindowSample)
        ensures
            r == *self,
    {
        WindowSample { t: self.t.clone(), ok: self.ok }
    }
}

/// The health of a step.
#[derive(Debug)]
pub struct StepHealth {
    pub last_success_at: Option<String>,
    pub last_error_at: Option<String>,
    pub last_error_msg: Option<String>,
    /// Consecutive failures.
    pub fail_count: u32,
    /// Why the step is paused, while it is.
    pub paused_reason: Option<String>,
    /// The latest outcomes, oldest first.
    pub recent_results: Vec<WindowSample>,
}

/// What the health of a step is.
pub struct HealthView {
    pub last_success_at: Option<Seq<char>>,
    pub last_error_at: Option<Seq<char>>,
    pub last_error_msg: Option<Seq<char>>,
    pub fail_count: u32,
    pub paused_reason: Option<Seq<char>>,
    pub window: Seq<(Seq<char>, bool)>,
}

/// The outcomes of a list.
pub open spec fn samples(v: Seq<WindowSample>) -> Seq<(Seq<char>, bool)> {
    v.map_values(|s: WindowSample| (s.t@, s.ok))
}

impl View for StepHealth {
    type V = HealthView;

    open spec fn view(&self) -> HealthView {
        HealthView {
            last_success_at: opt_text(self.last_success_at),
            last_error_at: opt_text(self.last_error_at),
            last_error_msg: opt_text(self.last_error_msg),
            fail_count: self.fail_count,
            paused_reason: opt_text(self.paused_reason),
            window: samples(self.recent_results@),
        }
    }
}

/// A step of which nothing is known yet.
pub open spec fn unknown_health() -> HealthView {
    HealthView {
        last_success_at: None,
        last_error_at: None,
        last_error_msg: None,
        fail_count: 0,
        paused_reason: None,
        window: Seq::empty(),
    }
}

impl Default for StepHealth {
    fn default() -> (r: StepHealth)
        ensures
            r@ == unknown_health(),
    {
        let r = StepHealth {
            last_success_at: None,
            last_error_at: None,
            last_error_msg: None,
            fail_count: 0,
            paused_reason: None,
            recent_results: Vec::new(),
        };
        assert(r@.window =~= Seq::<(Seq<char>, bool)>::empty());
        r
    }
}

impl Clone for StepHealth {
    fn clone(&self) -> (r: StepHealth)
        ensures
            r@ == self@,
    {
        let mut v: Vec<WindowSample> = Vec::new();
        let mut i: usize = 0;
        while i < self.recent_results.len()
            invariant
                i <= self.recent_results@.len(),
                v@ == self.recent_results@.take(i as int),
            decreases self.recent_results@.len() - i,
        {
            v.push(self.recent_results[i].clone());
            i += 1;
            assert(self.recent_results@.take(i as int) =~= self.recent_results@.take(i - 1).push(
                self.recent_results@[i - 1],
            ));
        }
        assert(self.recent_results@.take(i as int) =~= self.recent_results@);
        StepHealth {
            last_success_at: copy_option(&self.last_success_at),
            last_error_at: copy_option(&self.last_error_at),
            last_error_msg: copy_option(&self.last_error_msg),
            fail_count: self.fail_count,
            paused_reason: copy_option(&self.paused_reason),
            recent_results: v,
        }
    }
}

/// The window after an outcome was added.
pub open spec fn slid(w: Seq<(Seq<char>, bool)>, t: Seq<char>, ok: bool) -> Seq<(Seq<char>, bool)> {
    let n = w.push((t, ok));
    if n.len() > WINDOW_SIZE {
        n.skip(n.len() - WINDOW_SIZE)
    } else {
        n
    }
}

/// The number of failures in the window.
pub open spec fn failures(w: Seq<(Seq<char>, bool)>) -> nat
    decreases w.len(),
{
    if w.len() == 0 {
        0
    } else {
        failures(w.drop_last()) + (if w.last().1 {
            0nat
        } else {
            1nat
        })
    }
}

/// Whether the window is large enough and six tenths of it are failures.
pub open spec fn rate_exceeded(w: Seq<(Seq<char>, bool)>) -> bool {
    w.len() >= WINDOW_MIN_SAMPLES && failures(w) * 10 >= w.len() * WINDOW_ERROR_TENTHS
}

/// Why a step is paused after it failed with `error`.
pub open spec fn pause_reason(fail_count: u32, w: Seq<(Seq<char>, bool)>, error: Seq<char>) -> Seq<
    char,
> {
    if fail_count >= CIRCUIT_BREAK_THRESHOLD {
        "连续失败 "@ + decimal(fail_count as nat) + " 次，已熔断暂停（排查后自动恢复）: "@ + error
    } else {
        "近期错误率 "@ + decimal(failures(w)) + "/"@ + decimal(w.len())
            + "，已熔断暂停（排查后自动恢复）: "@ + error
    }
}

/// The health after a success at `t`.
pub open spec fn succeeded(h: HealthView, t: Seq<char>) -> HealthView {
    HealthView {
        last_success_at: Some(t),
        last_error_at: None,
        last_error_msg: None,
        fail_count: 0,
        paused_reason: None,
        window: slid(h.window, t, true),
    }
}

/// The health after a failure with `error` at `t`: a step that is not paused is,
/// where it failed often enough in a row or in the window.
pub open spec fn failed(h: HealthView, error: Seq<char>, t: Seq<char>) -> HealthView {
    let n = (h.fail_count + 1) as u32;
    let w = slid(h.window, t, false);
    HealthView {
        last_success_at: h.last_success_at,
        last_error_at: Some(t),
        last_error_msg: Some(error),
        fail_count: n,
        paused_reason: if h.paused_reason is None && (n >= CIRCUIT_BREAK_THRESHOLD
            || rate_exceeded(w)) {
            Some(pause_reason(n, w, error))
        } else {
            h.paused_reason
        },
        window: w,
    }
}

/// Adds an outcome to the window.
fn push_window(h: &mut StepHealth, ok: bool, now: &str)
    ensures
        final(h)@ == (HealthView { window: slid(old(h)@.window, now@, ok), ..old(h)@ }),
{
    let ghost was = h@;
    h.recent_results.push(WindowSample { t: now.to_owned(), ok });
    let ghost full = samples(h.recent_results@);
    assert(full =~= was.window.push((now@, ok)));
    assert(full.skip(0) =~= full);
    while h.recent_results.len() > WINDOW_SIZE
        invariant
            h.recent_results@.len() <= full.len(),
            full.len() > WINDOW_SIZE ==> h.recent_results@.len() >= WINDOW_SIZE,
            full.len() <= WINDOW_SIZE ==> h.recent_results@.len() == full.len(),
            h@ == (HealthView { window: full.skip(full.len() - h.recent_results@.len()), ..was }),
        decreases h.recent_results@.len(),
    {
        let ghost prev = samples(h.recent_results@);
        h.recent_results.remove(0);
        assert(samples(h.recent_results@) =~= prev.skip(1));
        assert(samples(h.recent_results@) =~= full.skip(full.len() - h.recent_results@.len()));
    }
    assert(h@.window =~= slid(was.window, now@, ok));
}

/// The failures and the outcomes in the window.
pub fn window_stats(h: &StepHealth) -> (r: (usize, usize))
    ensures
        r.0 == failures(h@.window),
        r.1 == h@.window.len(),
        r.0 <= r.1,
{
    let ghost w = h@.window;
    let mut n: usize = 0;
    let mut i: usize = 0;
    while i < h.recent_results.len()
        invariant
            i <= h.recent_results@.len(),
            w == samples(h.recent_results@),
            n <= i,
            n == failures(w.take(i as int)),
        decreases h.recent_results@.len() - i,
    {
        proof {
            assert(w.take(i + 1).drop_last() =~= w.take(i as int));
            assert(w.take(i + 1).last() == w[i as int]);
        }
        if !h.recent_results[i].ok {
            n += 1;
        }
        i += 1;
    }
    assert(w.take(i as int) =~= w);
    (n, h.recent_results.len())
}

/// Whether the error rate of the window calls for a pause.
pub fn window_error_rate_exceeded(h: &StepHealth) -> (r: bool)
    ensures
        r == rate_exceeded(h@.window),
{
    let (fails, total) = window_stats(h);
    total >= WINDOW_MIN_SAMPLES && fails as u128 * 10 >= total as u128 * WINDOW_ERROR_TENTHS as u128
}

impl StepHealth {
    /// Notes a success, and says whether the step was failing or paused.
    pub fn note_success(&mut self, now: &str) -> (recovered: bool)
        ensures
            final(self)@ == succeeded(old(self)@, now@),
            recovered == (old(self)@.fail_count > 0 || old(self)@.paused_reason is Some),
    {
        let recovered = self.fail_count > 0 || self.paused_reason.is_some();
        self.last_success_at = Some(now.to_owned());
        self.last_error_at = None;
        self.last_error_msg = None;
        self.fail_count = 0;
        self.paused_reason = None;
        push_window(self, true, now);
        recovered
    }

    /// Notes a failure.
    pub fn note_failure(&mut self, error: &str, now: &str)
        requires
            old(self)@.fail_count < u32::MAX,
        ensures
            final(self)@ == failed(old(self)@, error@, now@),
    {
        let ghost was = self@;
        self.last_error_at = Some(now.to_owned());
        self.last_error_msg = Some(error.to_owned());
        self.fail_count = self.fail_count + 1;
        push_window(self, false, now);
        let consecutive = self.fail_count >= CIRCUIT_BREAK_THRESHOLD;
        let exceeded = window_error_rate_exceeded(self);
        if (consecutive || exceeded) && self.paused_reason.is_none() {
            let mut reason: String = String::new();
            if consecutive {
                reason.append("连续失败 ");
                push_decimal(&mut reason, self.fail_count as u64);
                reason.append(" 次，已熔断暂停（排查后自动恢复）: ");
                reason.append(error);
            } else {
                let (fails, total) = window_stats(self);
                reason.append("近期错误率 ");
                push_decimal(&mut reason, fails as u64);
                reason.append("/");
                push_decimal(&mut reason, total as u64);
                reason.append("，已熔断暂停（排查后自动恢复）: ");
                reason.append(error);
            }
            assert(reason@ =~= pause_reason(self.fail_count, self@.window, error@));
            self.paused_reason = Some(reason);
        }
    }
}

/// A success clears every sign of failure.
pub proof fn success_heals(h: HealthView, t: Seq<char>)
    ensures
        succeeded(h, t).fail_count == 0,
        succeeded(h, t).paused_reason is None,
        succeeded(h, t).last_error_msg is None,
        succeeded(h, t).last_success_at == Some(t),
{
}

/// The window never holds more than its size.
pub proof fn window_stays_bounded(w: Seq<(Seq<char>, bool)>, t: Seq<char>, ok: bool)
    ensures
        slid(w, t, ok).len() <= WINDOW_SIZE,
        slid(w, t, ok).last() == (t, ok),
{
}

/// A step that has failed five times in a row is paused.
pub proof fn five_failures_pause(h: HealthView, error: Seq<char>, t: Seq<char>)
    requires
        4 <= h.fail_count < u32::MAX,
    ensures
        failed(h, error, t).paused_reason is Some,
{
}

// ---------------------------------------------------------------------------
// The steps of a task
// ---------------------------------------------------------------------------

/// An instant of RFC 3339 in seconds and nanoseconds.
pub uninterp spec fn rfc3339_instant(t: Seq<char>) -> Option<(i64, u32)>;

/// `chrono::DateTime::parse_from_rfc3339`: the instant in seconds since the Unix
/// epoch and nanoseconds of the second, a function of the text alone; `None` where
/// the text is no instant. The nanoseconds stay under two thousand million (a leap
/// second goes beyond the first thousand million).
#[verifier::external_body]
fn parse_instant(t: &str) -> (r: Option<(i64, u32)>)
    ensures
        r == rfc3339_instant(t@),
        r is Some ==> (r->0).1 < 2_000_000_000,
{
    let d = chrono::DateTime::parse_from_rfc3339(t).ok()?;
    Some((d.timestamp(), d.timestamp_subsec_nanos()))
}

/// Whole seconds from the instant `at` to `now`, both in seconds and nanoseconds.
pub open spec fn seconds_since(at: (i64, u32), now: (i64, u32)) -> int {
    let d = (now.0 - at.0) * 1_000_000_000 + (now.1 - at.1);
    if d >= 0 {
        d / 1_000_000_000
    } else {
        -((-d) / 1_000_000_000)
    }
}

/// Whether a pause is over: the last failure is long enough ago, or its time is
/// not known.
pub open spec fn pause_over(at: Option<(i64, u32)>, now: (i64, u32), cooldown_millis: i64) -> bool {
    match at {
        Some(a) => seconds_since(a, now) * 1000 >= cooldown_millis,
        None => true,
    }
}

/// Whether a pause is over, given the time of the last failure.
pub fn cooled_down(at: Option<(i64, u32)>, now: (i64, u32), cooldown_millis: i64) -> (r: bool)
    requires
        at is Some ==> (at->0).1 < 2_000_000_000,
        now.1 < 2_000_000_000,
    ensures
        r == pause_over(at, now, cooldown_millis),
{
    match at {
        Some(a) => {
            let d: i128 = (now.0 as i128 - a.0 as i128) * 1_000_000_000 + (now.1 as i128
                - a.1 as i128);
            let secs: i128 = if d >= 0 {
                d / 1_000_000_000
            } else {
                -((-d) / 1_000_000_000)
            };
            secs * 1000 >= cooldown_millis as i128
        },
        None => true,
    }
}

/// The instant of the last failure.
pub open spec fn last_failure(h: HealthView) -> Option<(i64, u32)> {
    match h.last_error_at {
        Some(t) => rfc3339_instant(t),
        None => None,
    }
}

/// The health after paused steps were looked at: the pause ends where it is over.
pub open spec fn resumed(h: HealthView, now: (i64, u32), cooldown_millis: i64) -> HealthView {
    if h.paused_reason is Some && pause_over(last_failure(h), now, cooldown_millis) {
        HealthView { paused_reason: None, ..h }
    } else {
        h
    }
}

/// The health of the steps of a task.
pub struct StepHealthTracker {
    pub steps: Assoc<StepHealth>,
    /// The step and message of the error that was reported last.
    pub last_error_sig: Option<String>,
}

/// The health of a step; unknown where nothing was noted of it.
pub open spec fn health_of(s: Seq<(Seq<char>, StepHealth)>, step: Seq<char>) -> HealthView {
    match lookup(s, step) {
        Some(h) => h@,
        None => unknown_health(),
    }
}

/// The sign by which repeated errors are recognised.
pub open spec fn error_sig(step: Seq<char>, error: Seq<char>) -> Seq<char> {
    step + "|"@ + error
}

/// What the steps of a list are, by name.
pub open spec fn healths(s: Seq<(Seq<char>, StepHealth)>) -> Seq<(Seq<char>, HealthView)> {
    s.map_values(|e: (Seq<char>, StepHealth)| (e.0, e.1@))
}

proof fn lemma_healths_put(s: Seq<(Seq<char>, StepHealth)>, step: Seq<char>, h: StepHealth)
    ensures
        healths(put(s, step, h)) == put(healths(s), step, h@),
    decreases s.len(),
{
    let v = healths(s);
    if s.len() == 0 {
        assert(healths(put(s, step, h)) =~= put(v, step, h@));
    } else {
        assert(v.skip(1) =~= healths(s.skip(1)));
        lemma_healths_put(s.skip(1), step, h);
        if s[0].0 == step {
            assert(healths(put(s, step, h)) =~= put(v, step, h@));
        } else {
            assert(healths(seq![s[0]] + put(s.skip(1), step, h)) =~= seq![v[0]] + healths(
                put(s.skip(1), step, h),
            ));
        }
    }
}

/// A success of the only step that fails leaves no step that fails or is paused.
pub proof fn last_success_heals_all(
    s: Seq<(Seq<char>, HealthView)>,
    step: Seq<char>,
    h: HealthView,
    t: Seq<char>,
)
    requires
        distinct(s),
        forall|i: int|
            0 <= i < s.len() && (#[trigger] s[i]).0 != step ==> s[i].1.fail_count == 0
                && s[i].1.paused_reason is None,
    ensures
        forall|i: int|
            0 <= i < put(s, step, succeeded(h, t)).len() ==> (#[trigger] put(
                s,
                step,
                succeeded(h, t),
            )[i]).1.fail_count == 0 && put(s, step, succeeded(h, t))[i].1.paused_reason is None,
{
    let at = first_with(s, step);
    lemma_first_with(s, step);
    put_shape(s, step, succeeded(h, t), at);
    let r = put(s, step, succeeded(h, t));
    assert forall|i: int| 0 <= i < r.len() implies (#[trigger] r[i]).1.fail_count == 0
        && r[i].1.paused_reason is None by {
        if i != at {
            assert(r[i] == s[i]);
            if at < s.len() && s[i].0 == step {
                if i < at {
                    assert(s[i].0 != s[at].0);
                } else {
                    assert(s[at].0 != s[i].0);
                }
            }
        }
    }
}

impl StepHealthTracker {
    /// A tracker with the steps that were loaded under that schema version; with none
    /// where there is nothing to load or the version is another.
    pub fn load(state: Option<(u32, Assoc<StepHealth>)>) -> (r: StepHealthTracker)
        ensures
            r.last_error_sig is None,
            r.steps@ == (match state {
                Some(s) => if s.0 == SCHEMA_VERSION {
                    s.1@
                } else {
                    Seq::<(Seq<char>, StepHealth)>::empty()
                },
                None => Seq::<(Seq<char>, StepHealth)>::empty(),
            }),
    {
        let steps = match state {
            Some(s) => {
                if s.0 == SCHEMA_VERSION {
                    s.1
                } else {
                    Assoc::new()
                }
            },
            None => Assoc::new(),
        };
        StepHealthTracker { steps, last_error_sig: None }
    }

    fn current(&self, step: &str) -> (h: StepHealth)
        ensures
            h@ == health_of(self.steps@, step@),
    {
        match self.steps.get(step) {
            Some(h) => h.clone(),
            None => StepHealth::default(),
        }
    }

    fn store(&mut self, step: &str, h: StepHealth)
        ensures
            final(self).last_error_sig == old(self).last_error_sig,
            healths(final(self).steps@) == put(healths(old(self).steps@), step@, h@),
            distinct(final(self).steps@),
            health_of(final(self).steps@, step@) == h@,
            lookup(final(self).steps@, step@) is Some,
            forall|s: Seq<char>|
                s != step@ ==> #[trigger] lookup(final(self).steps@, s) == lookup(
                    old(self).steps@,
                    s,
                ),
    {
        proof {
            lemma_healths_put(self.steps@, step@, h);
            assert forall|s: Seq<char>| true implies #[trigger] lookup(
                put(self.steps@, step@, h),
                s,
            ) == (if s == step@ {
                Some(h)
            } else {
                lookup(self.steps@, s)
            }) by {
                lookup_after_put(self.steps@, step@, h, s);
            }
        }
        self.steps.insert(step, h);
    }

    /// Notes a success of the step at `now`. Where it was failing or paused, the
    /// error that was reported last comes back and is forgotten.
    pub fn mark_success(&mut self, step: &str, now: &str) -> (recovered: Option<String>)
        ensures
            healths(final(self).steps@) == put(
                healths(old(self).steps@),
                step@,
                succeeded(health_of(old(self).steps@, step@), now@),
            ),
            distinct(final(self).steps@),
            health_of(final(self).steps@, step@) == succeeded(
                health_of(old(self).steps@, step@),
                now@,
            ),
            forall|s: Seq<char>|
                s != step@ ==> #[trigger] lookup(final(self).steps@, s) == lookup(
                    old(self).steps@,
                    s,
                ),
            ({
                let h = health_of(old(self).steps@, step@);
                if h.fail_count > 0 || h.paused_reason is Some {
                    recovered is Some && recovered->0@ == (match old(self).last_error_sig {
                        Some(s) => s@,
                        None => Seq::<char>::empty(),
                    }) && final(self).last_error_sig is None
                } else {
                    recovered is None && final(self).last_error_sig == old(self).last_error_sig
                }
            }),
    {
        let mut h = self.current(step);
        let was_failing = h.note_success(now);
        self.store(step, h);
        if was_failing {
            let prev = match copy_option(&self.last_error_sig) {
                Some(s) => s,
                None => String::new(),
            };
            self.last_error_sig = None;
            Some(prev)
        } else {
            None
        }
    }

    /// Notes a failure of the step at `now`, and says whether it is to be reported:
    /// not where the same step failed with the same message the last time.
    pub fn mark_failure(&mut self, step: &str, error: &str, now: &str) -> (report: bool)
        requires
            health_of(old(self).steps@, step@).fail_count < u32::MAX,
        ensures
            healths(final(self).steps@) == put(
                healths(old(self).steps@),
                step@,
                failed(health_of(old(self).steps@, step@), error@, now@),
            ),
            distinct(final(self).steps@),
            health_of(final(self).steps@, step@) == failed(
                health_of(old(self).steps@, step@),
                error@,
                now@,
            ),
            forall|s: Seq<char>|
                s != step@ ==> #[trigger] lookup(final(self).steps@, s) == lookup(
                    old(self).steps@,
                    s,
                ),
            report == (opt_text(old(self).last_error_sig) != Some(error_sig(step@, error@))),
            opt_text(final(self).last_error_sig) == Some(error_sig(step@, error@)),
    {
        let mut h = self.current(step);
        h.note_failure(error, now);
        self.store(step, h);
        let mut sig: String = step.to_owned();
        sig.append("|");
        sig.append(error);
        let report = match &self.last_error_sig {
            Some(s) => !same(s.as_str(), sig.as_str()),
            None => true,
        };
        self.last_error_sig = Some(sig);
        report
    }

    /// Whether a step is paused.
    pub fn any_paused(&self) -> (r: bool)
        ensures
            r == exists|i: int|
                0 <= i < self.steps@.len() && (#[trigger] self.steps@[i]).1@.paused_reason is Some,
    {
        let mut i: usize = 0;
        while i < self.steps.len()
            invariant
                i <= self.steps@.len(),
                forall|k: int|
                    0 <= k < i ==> (#[trigger] self.steps@[k]).1@.paused_reason is None,
            decreases self.steps@.len() - i,
        {
            if self.steps.value_at(i).paused_reason.is_some() {
                assert(self.steps@[i as int].1@.paused_reason is Some);
                return true;
            }
            i += 1;
        }
        false
    }

    /// Why the step is paused, while it is.
    pub fn is_paused(&self, step: &str) -> (r: Option<String>)
        ensures
            opt_text(r) == health_of(self.steps@, step@).paused_reason,
    {
        match self.steps.get(step) {
            Some(h) => copy_option(&h.paused_reason),
            None => None,
        }
    }

    /// Ends the pauses that are over at `now`, and says whether there was one.
    pub fn try_resume(&mut self, cooldown_millis: i64, now: (i64, u32)) -> (r: bool)
        requires
            now.1 < 2_000_000_000,
        ensures
            final(self).last_error_sig == old(self).last_error_sig,
            final(self).steps@.len() == old(self).steps@.len(),
            distinct(final(self).steps@),
            forall|i: int|
                0 <= i < old(self).steps@.len() ==> (#[trigger] final(self).steps@[i]).0 == old(
                    self,
                ).steps@[i].0 && final(self).steps@[i].1@ == resumed(
                    old(self).steps@[i].1@,
                    now,
                    cooldown_millis,
                ),
            r == exists|i: int|
                0 <= i < old(self).steps@.len() && (#[trigger] old(
                    self,
                ).steps@[i]).1@.paused_reason is Some && pause_over(
                    last_failure(old(self).steps@[i].1@),
                    now,
                    cooldown_millis,
                ),
    {
        let ghost was = self.steps@;
        let mut out: Assoc<StepHealth> = Assoc::new();
        let mut any: bool = false;
        let mut i: usize = 0;
        let n: usize = self.steps.len();
        while i < n
            invariant
                i <= n,
                n == was.len(),
                was == self.steps@,
                distinct(was),
                distinct(out@),
                self.last_error_sig == old(self).last_error_sig,
                now.1 < 2_000_000_000,
                out@.len() == i,
                forall|k: int|
                    0 <= k < i ==> (#[trigger] out@[k]).0 == was[k].0 && out@[k].1@ == resumed(
                        was[k].1@,
                        now,
                        cooldown_millis,
                    ),
                any == exists|k: int|
                    0 <= k < i && (#[trigger] was[k]).1@.paused_reason is Some && pause_over(
                        last_failure(was[k].1@),
                        now,
                        cooldown_millis,
                    ),
            decreases n - i,
        {
            let mut h = self.steps.value_at(i).clone();
            let ghost hv = h@;
            assert(hv == was[i as int].1@);
            if h.paused_reason.is_some() {
                let at = match &h.last_error_at {
                    Some(t) => parse_instant(t.as_str()),
                    None => None,
                };
                assert(at == last_failure(hv));
                if cooled_down(at, now, cooldown_millis) {
                    h.paused_reason = None;
                    any = true;
                }
            }
            assert(h@ == resumed(hv, now, cooldown_millis));
            proof {
                lemma_next_key(out@, was, i as int);
            }
            out.push(self.steps.key_at(i), h);
            i += 1;
        }
        self.steps = out;
        any
    }

    /// Whether no step is failing.
    pub fn is_healthy(&self) -> (r: bool)
        ensures
            r == forall|i: int|
                0 <= i < self.steps@.len() ==> (#[trigger] self.steps@[i]).1@.fail_count == 0,
    {
        let mut i: usize = 0;
        while i < self.steps.len()
            invariant
                i <= self.steps@.len(),
                forall|k: int| 0 <= k < i ==> (#[trigger] self.steps@[k]).1@.fail_count == 0,
            decreases self.steps@.len() - i,
        {
            if self.steps.value_at(i).fail_count != 0 {
                assert(self.steps@[i as int].1@.fail_count != 0);
                return false;
            }
            i += 1;
        }
        true
    }

    /// A copy of the health of every step.
    pub fn snapshot(&self) -> (r: Assoc<StepHealth>)
        ensures
            r@.len() == self.steps@.len(),
            distinct(r@),
            forall|i: int|
                0 <= i < r@.len() ==> (#[trigger] r@[i]).0 == self.steps@[i].0 && r@[i].1@
                    == self.steps@[i].1@,
    {
        let mut out: Assoc<StepHealth> = Assoc::new();
        let mut i: usize = 0;
        let n: usize = self.steps.len();
        while i < n
            invariant
                i <= n,
                n == self.steps@.len(),
                distinct(self.steps@),
                distinct(out@),
                out@.len() == i,
                forall|k: int|
                    0 <= k < i ==> (#[trigger] out@[k]).0 == self.steps@[k].0 && out@[k].1@
                        == self.steps@[k].1@,
            decreases n - i,
        {
            proof {
                lemma_next_key(out@, self.steps@, i as int);
            }
            out.push(self.steps.key_at(i), self.steps.value_at(i).clone());
            i += 1;
        }
        out
    }
}

/// The next key of a list of different keys is not among those before it.
proof fn lemma_next_key(out: Seq<(Seq<char>, StepHealth)>, all: Seq<(Seq<char>, StepHealth)>, i: int)
    requires
        0 <= i < all.len(),
        out.len() == i,
        distinct(all),
        forall|k: int| 0 <= k < i ==> (#[trigger] out[k]).0 == all[k].0,
    ensures
        lookup(out, all[i].0) is None,
{
    assert forall|k: int| 0 <= k < out.len() implies (#[trigger] out[k]).0 != all[i].0 by {
        assert(all[k].0 != all[i].0);
    }
    lemma_lookup_none(out, all[i].0);
}

} // verus!
