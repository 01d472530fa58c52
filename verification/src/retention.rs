//! How long memories are kept: rules by type and age, limits by number, decay, and
//! evidence against a memory.

use crate::assoc::{lookup, lookup_after_put, put, Assoc};
use crate::manager::{ManagerView, MemoryManager};
use crate::rank::{order_desc, order_of, order_sorts, positions, ranked};
use crate::retention_laws::ids_differ;
use crate::store::{is_live, without_id};
use crate::strategy::lemma_last_with_id;
use crate::text::{lower, lowercase, one_of, same, strs, texts, trim, trimmed};
use crate::types::{item_views, text_at, ItemView, MemoryItem};
use vstd::array::*;
use vstd::prelude::*;
use vstd::string::*;

verus! {

/// Evidence score at which a memory may be archived.
pub const ARCHIVE_THRESHOLD: i64 = -2_000_000;

/// Days of negative evidence after which a memory is archived.
pub const ARCHIVE_DAYS: u32 = 14;

/// Milliseconds of an hour.
pub const HOUR_MILLIS: i64 = 3_600_000;

/// Milliseconds after which a memory without importance has decayed.
pub const DECAY_MILLIS: i64 = 2_592_000_000;

/// A rule for one type of memory.
#[derive(Debug)]
pub struct MemoryExpirationRule {
    /// Name of the type, or `*` for every type.
    pub memory_type: String,
    /// Hours after which the rule applies, in millionths; never for `None`.
    pub max_age_hours: Option<i64>,
    /// Largest number of memories of the type.
    pub max_count: Option<usize>,
    /// Importance from which the rule does not apply.
    pub min_importance: i64,
    /// Whether the memories with the least evidence and importance go first, instead
    /// of the oldest.
    pub evict_by_score: bool,
}

/// What a rule is.
pub struct RuleView {
    pub memory_type: Seq<char>,
    pub max_age_hours: Option<i64>,
    pub max_count: Option<usize>,
    pub min_importance: i64,
    pub evict_by_score: bool,
}

impl View for MemoryExpirationRule {
    type V = RuleView;

    open spec fn view(&self) -> RuleView {
        RuleView {
            memory_type: self.memory_type@,
            max_age_hours: self.max_age_hours,
            max_count: self.max_count,
            min_importance: self.min_importance,
            evict_by_score: self.evict_by_score,
        }
    }
}

impl MemoryExpirationRule {
    pub fn new(memory_type: &str, max_age_hours: Option<i64>) -> (r: MemoryExpirationRule)
        ensures
            r@ == (RuleView {
                memory_type: memory_type@,
                max_age_hours,
                max_count: None,
                min_importance: 0,
                evict_by_score: false,
            }),
    {
        MemoryExpirationRule {
            memory_type: memory_type.to_owned(),
            max_age_hours,
            max_count: None,
            min_importance: 0,
            evict_by_score: false,
        }
    }

    pub fn with_max_count(self, max_count: usize) -> (r: MemoryExpirationRule)
        ensures
            r@ == (RuleView { max_count: Some(max_count), ..self@ }),
    {
        MemoryExpirationRule { max_count: Some(max_count), ..self }
    }

    pub fn with_min_importance(self, min_importance: i64) -> (r: MemoryExpirationRule)
        ensures
            r@ == (RuleView { min_importance, ..self@ }),
    {
        MemoryExpirationRule { min_importance, ..self }
    }

    pub fn with_evict_by_score(self) -> (r: MemoryExpirationRule)
        ensures
            r@ == (RuleView { evict_by_score: true, ..self@ }),
    {
        MemoryExpirationRule { evict_by_score: true, ..self }
    }
}

/// Which types are kept for good and which may go.
pub struct MemoryRetentionPolicy;

/// Types that are kept for good.
pub open spec fn kept_types() -> Seq<Seq<char>> {
    seq![
        "preference"@,
        "identity"@,
        "important_event"@,
        "user_preferences"@,
        "user_identity"@,
        "important_events"@,
    ]
}

/// Types that may go.
pub open spec fn passing_types() -> Seq<Seq<char>> {
    seq!["casual_conversation"@, "temporary_context"@, "old_sessions"@]
}

/// Whether the policy keeps a memory of that type, importance and age: one that may
/// go does, after a day if it has little importance, after three if it has some.
pub open spec fn policy_keeps(memory_type: Seq<char>, importance: i64, age_millis: int) -> bool {
    kept_types().contains(memory_type) || !passing_types().contains(memory_type) || !((importance
        < 300_000 && age_millis > 24 * HOUR_MILLIS) || (importance < 500_000 && age_millis > 72
        * HOUR_MILLIS))
}

impl MemoryRetentionPolicy {
    /// Types that are kept for good.
    pub fn keep_always() -> (r: Vec<&'static str>)
        ensures
            strs(r@) == kept_types(),
    {
        let r = vec![
            "preference",
            "identity",
            "important_event",
            "user_preferences",
            "user_identity",
            "important_events",
        ];
        assert(strs(r@) =~= kept_types());
        r
    }

    /// Types that may go.
    pub fn can_delete() -> (r: Vec<&'static str>)
        ensures
            strs(r@) == passing_types(),
    {
        let r = vec!["casual_conversation", "temporary_context", "old_sessions"];
        assert(strs(r@) =~= passing_types());
        r
    }

    /// Whether the policy keeps a memory of that type, importance and age.
    pub fn should_keep(memory_type: &str, importance: i64, age_millis: i128) -> (r: bool)
        ensures
            r == policy_keeps(memory_type@, importance, age_millis as int),
    {
        let keep = Self::keep_always();
        if one_of(memory_type, keep.as_slice()) {
            return true;
        }
        let may_go = Self::can_delete();
        if one_of(memory_type, may_go.as_slice()) {
            if importance < 300_000 && age_millis > 24 * HOUR_MILLIS as i128 {
                return false;
            }
            if importance < 500_000 && age_millis > 72 * HOUR_MILLIS as i128 {
                return false;
            }
        }
        true
    }
}

// ---------------------------------------------------------------------------
// The type of a memory
// ---------------------------------------------------------------------------

/// Types that a tag may name.
pub open spec fn tag_types() -> Seq<Seq<char>> {
    seq![
        "preference"@,
        "identity"@,
        "important_event"@,
        "knowledge"@,
        "temporary_context"@,
        "casual_conversation"@,
        "long_term"@,
        "short_term"@,
        "mid_term"@,
        "user"@,
        "feedback"@,
        "project"@,
        "reference"@,
        "general"@,
    ]
}

/// The type that the first of the first `n` tags names, whatever the case.
pub open spec fn tagged_type(tags: Seq<Seq<char>>, n: nat) -> Option<Seq<char>>
    decreases n,
{
    if n == 0 {
        None
    } else {
        match tagged_type(tags, (n - 1) as nat) {
            Some(t) => Some(t),
            None => if tag_types().contains(lowercase(tags[n - 1])) {
                Some(lowercase(tags[n - 1]))
            } else {
                None
            },
        }
    }
}

/// The type of a memory: that of a tag, else that of its metadata, else `general`.
pub open spec fn type_of(m: ItemView) -> Seq<char> {
    match tagged_type(m.tags, m.tags.len()) {
        Some(t) => t,
        None => match text_at(m.metadata, "memory_type"@) {
            Some(t) => t,
            None => "general"@,
        },
    }
}

/// The type of a memory.
pub fn extract_memory_type(memory: &MemoryItem) -> (r: String)
    ensures
        r@ == type_of(memory@),
{
    let known = [
        "preference",
        "identity",
        "important_event",
        "knowledge",
        "temporary_context",
        "casual_conversation",
        "long_term",
        "short_term",
        "mid_term",
        "user",
        "feedback",
        "project",
        "reference",
        "general",
    ];
    let names = array_as_slice(&known);
    assert(strs(names@) =~= tag_types());
    let ghost tags = memory@.tags;
    let mut i: usize = 0;
    while i < memory.tags.len()
        invariant
            i <= memory.tags@.len(),
            tags == memory@.tags,
            strs(names@) == tag_types(),
            tagged_type(tags, i as nat) is None,
        decreases memory.tags@.len() - i,
    {
        assert(tags[i as int] == memory.tags@[i as int]@);
        let l = lower(memory.tags[i].as_str());
        if one_of(l.as_str(), names) {
            proof {
                lemma_tagged_type(tags, (i + 1) as nat, tags.len());
            }
            return l;
        }
        i += 1;
    }
    match memory.metadata.text("memory_type") {
        Some(t) => t,
        None => "general".to_owned(),
    }
}

proof fn lemma_tagged_type(tags: Seq<Seq<char>>, a: nat, n: nat)
    requires
        a <= n,
        tagged_type(tags, a) is Some,
    ensures
        tagged_type(tags, n) == tagged_type(tags, a),
    decreases n,
{
    if a < n {
        lemma_tagged_type(tags, a, (n - 1) as nat);
    }
}

// ---------------------------------------------------------------------------
// Decay
// ---------------------------------------------------------------------------

/// Strength of a memory that falls with the square of its age.
pub struct QuadraticDecay;

/// The age of a memory, from zero up.
pub open spec fn age_of(m: ItemView, now: i64) -> int {
    if now > m.timestamp {
        now - m.timestamp
    } else {
        0
    }
}

/// Whether less than a hundredth of the strength is left: the square of the age is
/// more than ninety-nine hundredths of the square of the lifetime, which the
/// importance stretches.
pub open spec fn has_decayed(importance: i64, age_millis: int) -> bool {
    let a = age_millis * 1_000_000;
    let t = lifetime(importance);
    100 * (a * a) > 99 * (t * t)
}

/// Whether decay removes the memory: it is neither protected nor of a kept type nor
/// important, and has decayed.
pub open spec fn decay_removes(m: ItemView, now: i64) -> bool {
    !m.protected && !kept_types().contains(type_of(m)) && m.importance < 800_000 && has_decayed(
        m.importance,
        age_of(m, now),
    )
}

fn age_millis(m: &MemoryItem, now: i64) -> (r: i128)
    ensures
        r == age_of(m@, now),
        0 <= r <= 0x1_0000_0000_0000_0000,
{
    if now > m.timestamp {
        now as i128 - m.timestamp as i128
    } else {
        0
    }
}

/// The time after which a memory has no strength left, in millionths of a millisecond: the
/// importance stretches it. Only its square counts, so it has no sign.
pub open spec fn lifetime(importance: i64) -> int {
    let t = DECAY_MILLIS * (1_000_000 + importance);
    if t < 0 {
        -t
    } else {
        t
    }
}

/// What is left of a memory of that importance and age, in millionths: one less the square
/// of the part of its lifetime that has passed.
pub open spec fn strength_left(importance: i64, age_millis: int) -> int {
    let a = age_millis * 1_000_000;
    let t = lifetime(importance);
    if age_millis <= 0 {
        1_000_000
    } else if a >= t {
        0
    } else {
        (t * t - a * a) * 1_000_000 / (t * t)
    }
}

/// What is left of a memory at `now`.
pub open spec fn strength_of(m: ItemView, now: i64) -> int {
    strength_left(m.importance, age_of(m, now))
}

/// `k * r` divided by `y`, with the remainder.
fn scaled(k: i128, r: i128, y: i128) -> (s: (i128, i128))
    requires
        0 <= k <= y,
        0 <= r < y <= 100_000_000_000_000_000_000_000_000_000,
    ensures
        k * r == s.0 * y + s.1,
        0 <= s.1 < y,
        0 <= s.0 <= k,
    decreases k,
{
    if k == 0 {
        assert(k * r == 0 * y + 0) by (nonlinear_arith)
            requires
                k == 0,
        ;
        return (0, 0);
    }
    let h: i128 = k / 2;
    let p = scaled(h, r, y);
    let mut q: i128 = 2 * p.0;
    let mut m: i128 = 2 * p.1;
    assert((2 * h) * r == q * y + m) by (nonlinear_arith)
        requires
            h * r == p.0 * y + p.1,
            q == 2 * p.0,
            m == 2 * p.1,
    ;
    if m >= y {
        let ghost q0 = q as int;
        let ghost m0 = m as int;
        m = m - y;
        q = q + 1;
        assert(q * y + m == q0 * y + m0) by (nonlinear_arith)
            requires
                q == q0 + 1,
                m == m0 - y,
        ;
    }
    if k % 2 == 1 {
        let ghost m1 = m as int;
        m = m + r;
        assert(k * r == (2 * h) * r + r) by (nonlinear_arith)
            requires
                k == 2 * h + 1,
        ;
        if m >= y {
            let ghost q0 = q as int;
            let ghost m0 = m as int;
            m = m - y;
            q = q + 1;
            assert(q * y + m == q0 * y + m0) by (nonlinear_arith)
                requires
                    q == q0 + 1,
                    m == m0 - y,
            ;
        }
    } else {
        assert(k * r == (2 * h) * r) by (nonlinear_arith)
            requires
                k == 2 * h,
        ;
    }
    assert(0 <= q <= k) by (nonlinear_arith)
        requires
            k * r == q * y + m,
            0 <= m < y,
            0 <= r < y,
            0 < k,
            0 < y,
    ;
    (q, m)
}

/// The square of `x / y`, rounded up.
fn square_part(x: i128, y: i128) -> (c: i128)
    requires
        0 <= x < 1000 * y,
        0 < y <= 100_000_000_000_000_000_000_000_000_000,
    ensures
        x * x <= c * (y * y),
        (c - 1) * (y * y) < x * x,
        0 <= c <= 1_000_000,
{
    let q: i128 = x / y;
    let r: i128 = x % y;
    assert(x == q * y + r && 0 <= r < y && 0 <= q < 1000) by (nonlinear_arith)
        requires
            q == x as int / y as int,
            r == x as int % y as int,
            0 <= x < 1000 * y,
            0 < y,
    ;
    let s = scaled(r, r, y);
    assert(0 <= q * r <= 1000 * 100_000_000_000_000_000_000_000_000_000) by (nonlinear_arith)
        requires
            0 <= q < 1000,
            0 <= r <= 100_000_000_000_000_000_000_000_000_000,
    ;
    let n: i128 = 2 * (q * r) + s.0;
    let n1: i128 = n / y;
    let n0: i128 = n % y;
    assert(n == n1 * y + n0 && 0 <= n0 < y && 0 <= n1) by (nonlinear_arith)
        requires
            n1 == n as int / y as int,
            n0 == n as int % y as int,
            n >= 0,
            0 < y,
    ;
    assert(n1 <= n) by (nonlinear_arith)
        requires
            n1 == n as int / y as int,
            n >= 0,
            0 < y,
    ;
    assert(0 <= q * q <= 1_000_000) by (nonlinear_arith)
        requires
            0 <= q < 1000,
    ;
    let whole: i128 = q * q + n1;
    let c: i128 = if n0 > 0 || s.1 > 0 {
        whole + 1
    } else {
        whole
    };
    proof {
        let rest = n0 * y + s.1;
        let sq = y * y;
        assert(x * x == q * q * (y * y) + 2 * (q * r) * y + r * r) by (nonlinear_arith)
            requires
                x == q * y + r,
        ;
        assert(n * y == 2 * (q * r) * y + s.0 * y) by (nonlinear_arith)
            requires
                n == 2 * (q * r) + s.0,
        ;
        assert(n * y == n1 * (y * y) + n0 * y) by (nonlinear_arith)
            requires
                n == n1 * y + n0,
        ;
        assert(whole * (y * y) == q * q * (y * y) + n1 * (y * y)) by (nonlinear_arith)
            requires
                whole == q * q + n1,
        ;
        assert(x * x == whole * sq + rest);
        assert(0 <= rest < sq) by (nonlinear_arith)
            requires
                rest == n0 * y + s.1,
                sq == y * y,
                0 <= n0 < y,
                0 <= s.1 < y,
        ;
        assert((whole + 1) * sq == whole * sq + sq) by (nonlinear_arith);
        assert((whole - 1) * sq == whole * sq - sq) by (nonlinear_arith);
        if n0 > 0 {
            assert(rest > 0) by (nonlinear_arith)
                requires
                    rest == n0 * y + s.1,
                    n0 > 0,
                    s.1 >= 0,
                    y > 0,
            ;
        } else {
            assert(n0 * y == 0) by (nonlinear_arith)
                requires
                    n0 == 0,
            ;
        }
        assert(c <= 1_000_000) by (nonlinear_arith)
            requires
                (c - 1) * (y * y) < x * x,
                0 <= x < 1000 * y,
                0 < y,
        ;
    }
    c
}

/// The time after which a memory has no strength left, in millionths of a millisecond.
fn lifetime_of(importance: i64) -> (r: i128)
    ensures
        r == lifetime(importance),
        0 <= r <= 100_000_000_000_000_000_000_000_000_000,
{
    let t: i128 = DECAY_MILLIS as i128 * (1_000_000 + importance as i128);
    if t < 0 {
        -t
    } else {
        t
    }
}

/// The square of the age is so many millionths of the square of the lifetime, rounded up.
proof fn lemma_square_part(t: int, a: int, c: int)
    requires
        0 <= a < t,
        (1000 * a) * (1000 * a) <= c * (t * t),
        (c - 1) * (t * t) < (1000 * a) * (1000 * a),
    ensures
        (t * t - a * a) * 1_000_000 / (t * t) == 1_000_000 - c,
        100 * (a * a) > 99 * (t * t) <==> c > 990_000,
{
    let q = t * t;
    let s = a * a;
    assert(q > 0) by (nonlinear_arith)
        requires
            q == t * t,
            t > 0,
    ;
    assert((1000 * a) * (1000 * a) == 1_000_000 * s) by (nonlinear_arith)
        requires
            s == a * a,
    ;
    assert((c - 1) * q == c * q - q) by (nonlinear_arith);
    assert((1_000_000 - c) * q == 1_000_000 * q - c * q) by (nonlinear_arith);
    let num = (q - s) * 1_000_000;
    assert(num == 1_000_000 * q - 1_000_000 * s);
    assert(num / q == 1_000_000 - c) by (nonlinear_arith)
        requires
            q > 0,
            (1_000_000 - c) * q <= num < (1_000_000 - c) * q + q,
    ;
    if c > 990_000 {
        assert((c - 1) * q >= 990_000 * q) by (nonlinear_arith)
            requires
                c > 990_000,
                q > 0,
        ;
    } else {
        assert(c * q <= 990_000 * q) by (nonlinear_arith)
            requires
                c <= 990_000,
                q > 0,
        ;
    }
}

/// A memory has decayed just when less than a hundredth of its strength is left.
pub proof fn decay_is_lack_of_strength(importance: i64, age_millis: int)
    requires
        age_millis >= 0,
    ensures
        has_decayed(importance, age_millis) <==> strength_left(importance, age_millis) < 10_000,
{
    let a = age_millis * 1_000_000;
    let t = lifetime(importance);
    if age_millis > 0 {
        assert(a * a > 0) by (nonlinear_arith)
            requires
                a > 0,
        ;
        if a >= t {
            assert(a * a >= t * t) by (nonlinear_arith)
                requires
                    a >= t,
                    t >= 0,
            ;
        } else {
            let q = t * t;
            assert(q > 0) by (nonlinear_arith)
                requires
                    q == t * t,
                    t > 0,
            ;
            let d = t * t - a * a;
            assert((d * 1_000_000 / q < 10_000) <==> (d * 1_000_000 < 10_000 * q)) by (nonlinear_arith)
                requires
                    q > 0,
            ;
            assert(strength_left(importance, age_millis) == d * 1_000_000 / q);
        }
    } else {
        assert(a * a == 0) by (nonlinear_arith)
            requires
                a == 0,
        ;
        assert(t * t >= 0) by (nonlinear_arith);
    }
    assert(has_decayed(importance, age_millis) == (100 * (a * a) > 99 * (t * t)));
}

impl QuadraticDecay {
    /// What is left of a memory at `now`, in millionths.
    pub fn strength(memory: &MemoryItem, now: i64) -> (r: i64)
        ensures
            r == strength_of(memory@, now),
            0 <= r <= 1_000_000,
    {
        let age: i128 = age_millis(memory, now);
        if age <= 0 {
            return 1_000_000;
        }
        let a: i128 = age * 1_000_000;
        let t: i128 = lifetime_of(memory.importance);
        if a >= t {
            return 0;
        }
        let c: i128 = square_part(1000 * a, t);
        proof {
            lemma_square_part(t as int, a as int, c as int);
        }
        (1_000_000 - c) as i64
    }

    /// The importance that is left of a memory at `now`, in millionths of millionths.
    pub fn decayed_importance(memory: &MemoryItem, now: i64) -> (r: i128)
        ensures
            r == memory@.importance * strength_of(memory@, now),
    {
        let s: i128 = Self::strength(memory, now) as i128;
        let m: i128 = memory.importance as i128;
        assert(-10_000_000_000_000_000_000_000_000 <= m * s <= 10_000_000_000_000_000_000_000_000) by (
            nonlinear_arith)
            requires
                -9_223_372_036_854_775_808 <= m <= 9_223_372_036_854_775_807,
                0 <= s <= 1_000_000,
        ;
        m * s
    }

    /// Whether decay removes the memory.
    pub fn should_purge(memory: &MemoryItem, now: i64) -> (r: bool)
        ensures
            r == decay_removes(memory@, now),
    {
        if memory.protected {
            return false;
        }
        let t = extract_memory_type(memory);
        let keep = MemoryRetentionPolicy::keep_always();
        if one_of(t.as_str(), keep.as_slice()) {
            return false;
        }
        if memory.importance >= 800_000 {
            return false;
        }
        proof {
            decay_is_lack_of_strength(memory@.importance, age_of(memory@, now));
        }
        Self::strength(memory, now) < 10_000
    }
}

/// What has decayed stays decayed, and importance only delays it.
pub proof fn decay_is_monotone(importance: i64, more: i64, age: int, later: int)
    requires
        -1_000_000 <= importance <= more,
        0 <= age <= later,
    ensures
        has_decayed(importance, age) ==> has_decayed(importance, later),
        has_decayed(more, age) ==> has_decayed(importance, age),
{
    let a = age * 1_000_000;
    let b = later * 1_000_000;
    assert(a * a <= b * b) by (nonlinear_arith)
        requires
            0 <= a <= b,
    ;
    let t = lifetime(importance);
    let u = lifetime(more);
    assert(0 <= t <= u);
    assert(t * t <= u * u) by (nonlinear_arith)
        requires
            0 <= t <= u,
    ;
}

// ---------------------------------------------------------------------------
// Expiry
// ---------------------------------------------------------------------------

/// The rule applies to a memory of that type, importance and age.
pub open spec fn rule_applies(r: RuleView, memory_type: Seq<char>, importance: i64, age_millis: int) -> bool {
    (r.memory_type == memory_type || r.memory_type == "*"@) && importance < r.min_importance
        && match r.max_age_hours {
        Some(h) => age_millis * 1_000_000 > h * HOUR_MILLIS,
        None => false,
    }
}

/// What the rules of a list are.
pub open spec fn rule_views(v: Seq<MemoryExpirationRule>) -> Seq<RuleView> {
    v.map_values(|r: MemoryExpirationRule| r@)
}

/// Whether a memory has expired, given its evidence score: never where it is
/// protected; else where the evidence has long stood against it, the policy does not
/// keep it, a rule applies, or it has decayed.
pub open spec fn expired(m: ItemView, rules: Seq<RuleView>, score: i64, now: i64) -> bool {
    !m.protected && ({
        ||| score <= ARCHIVE_THRESHOLD && m.sub_zero_days >= ARCHIVE_DAYS
        ||| !policy_keeps(type_of(m), m.importance, age_of(m, now))
        ||| exists|i: int|
            0 <= i < rules.len() && rule_applies(
                #[trigger] rules[i],
                type_of(m),
                m.importance,
                age_of(m, now),
            )
        ||| decay_removes(m, now)
    })
}

/// A protected memory never expires.
pub proof fn protected_never_expires(m: ItemView, rules: Seq<RuleView>, score: i64, now: i64)
    requires
        m.protected,
    ensures
        !expired(m, rules, score, now),
{
}

/// Clears expired and repeated memories.
pub struct MemoryRetentionGuard {
    rules: Vec<MemoryExpirationRule>,
}

/// The rules unless others are given.
pub open spec fn standard_rules() -> Seq<RuleView> {
    seq![
        RuleView {
            memory_type: "casual_conversation"@,
            max_age_hours: Some(24_000_000),
            max_count: Some(100),
            min_importance: 0,
            evict_by_score: false,
        },
        RuleView {
            memory_type: "temporary_context"@,
            max_age_hours: Some(6_000_000),
            max_count: Some(50),
            min_importance: 0,
            evict_by_score: false,
        },
        RuleView {
            memory_type: "long_term"@,
            max_age_hours: Some(720_000_000),
            max_count: None,
            min_importance: 300_000,
            evict_by_score: false,
        },
        RuleView {
            memory_type: "knowledge"@,
            max_age_hours: None,
            max_count: Some(500),
            min_importance: 0,
            evict_by_score: true,
        },
        RuleView {
            memory_type: "insight"@,
            max_age_hours: None,
            max_count: Some(100),
            min_importance: 0,
            evict_by_score: true,
        },
        RuleView {
            memory_type: "inner_monologue"@,
            max_age_hours: Some(168_000_000),
            max_count: Some(200),
            min_importance: 1_000_000,
            evict_by_score: false,
        },
    ]
}

/// What says which memory of a type goes first: the smallest. By score that is
/// evidence and importance together; else the time.
pub open spec fn eviction_key(m: ItemView, score: i64, by_score: bool) -> i128 {
    if by_score {
        (score + m.importance) as i128
    } else {
        m.timestamp as i128
    }
}

/// The positions of the memories of that type among the first `n`.
pub open spec fn of_type(items: Seq<ItemView>, t: Seq<char>, n: nat) -> Seq<int>
    decreases n,
{
    if n == 0 {
        Seq::<int>::empty()
    } else {
        let rest = of_type(items, t, (n - 1) as nat);
        if type_of(items[n - 1]) == t {
            rest.push(n - 1)
        } else {
            rest
        }
    }
}

/// The positions of the memories of that type among the first `n` that may go: those that are
/// not protected.
pub open spec fn evictable(items: Seq<ItemView>, t: Seq<char>, n: nat) -> Seq<int>
    decreases n,
{
    if n == 0 {
        Seq::<int>::empty()
    } else {
        let rest = evictable(items, t, (n - 1) as nat);
        if type_of(items[n - 1]) == t && !items[n - 1].protected {
            rest.push(n - 1)
        } else {
            rest
        }
    }
}

/// The keys of the memories at the positions, turned so that the smallest is first.
pub open spec fn turned_keys(items: Seq<ItemView>, scores: Seq<i64>, at: Seq<int>, by_score: bool) -> Seq<i128> {
    at.map_values(|i: int| (-(eviction_key(items[i], scores[i], by_score) as int)) as i128)
}

/// The memories that a rule drops because there are too many of their type; a protected one
/// is not among them.
pub open spec fn overflow(items: Seq<ItemView>, scores: Seq<i64>, r: RuleView) -> Seq<Seq<char>> {
    let at = of_type(items, r.memory_type, items.len());
    match r.max_count {
        Some(max) => if at.len() > max {
            let free = evictable(items, r.memory_type, items.len());
            ranked(
                free.map_values(|i: int| items[i].id),
                turned_keys(items, scores, free, r.evict_by_score),
                at.len() - max,
            )
        } else {
            Seq::<Seq<char>>::empty()
        },
        None => Seq::<Seq<char>>::empty(),
    }
}

/// The memories that the first `n` rules drop because there are too many.
pub open spec fn overflow_all(items: Seq<ItemView>, scores: Seq<i64>, rules: Seq<RuleView>, n: nat) -> Seq<
    Seq<char>,
>
    decreases n,
{
    if n == 0 {
        Seq::<Seq<char>>::empty()
    } else {
        overflow_all(items, scores, rules, (n - 1) as nat) + overflow(items, scores, rules[n - 1])
    }
}

/// The expired among the first `n` memories.
pub open spec fn expired_ids(
    items: Seq<ItemView>,
    scores: Seq<i64>,
    rules: Seq<RuleView>,
    now: i64,
    n: nat,
) -> Seq<Seq<char>>
    decreases n,
{
    if n == 0 {
        Seq::<Seq<char>>::empty()
    } else {
        let rest = expired_ids(items, scores, rules, now, (n - 1) as nat);
        if expired(items[n - 1], rules, scores[n - 1], now) {
            rest.push(items[n - 1].id)
        } else {
            rest
        }
    }
}

/// A protected memory is never deleted by a cleanup, neither for its age nor because there
/// are too many, where no other memory has its identifier.
pub proof fn protected_survives_cleanup(
    items: Seq<ItemView>,
    scores: Seq<i64>,
    rules: Seq<RuleView>,
    now: i64,
    i: int,
)
    requires
        scores.len() == items.len(),
        0 <= i < items.len(),
        items[i].protected,
        forall|k: int| 0 <= k < items.len() && k != i ==> (#[trigger] items[k]).id != items[i].id,
    ensures
        !expired_ids(items, scores, rules, now, items.len()).contains(items[i].id),
        !overflow_all(items, scores, rules, rules.len()).contains(items[i].id),
{
    lemma_expired_ids(items, scores, rules, now, items.len(), i);
    lemma_overflow_ids(items, scores, rules, rules.len(), i);
}

proof fn lemma_expired_ids(
    items: Seq<ItemView>,
    scores: Seq<i64>,
    rules: Seq<RuleView>,
    now: i64,
    n: nat,
    i: int,
)
    requires
        n <= items.len(),
        0 <= i < items.len(),
        items[i].protected,
        forall|k: int| 0 <= k < items.len() && k != i ==> (#[trigger] items[k]).id != items[i].id,
    ensures
        !expired_ids(items, scores, rules, now, n).contains(items[i].id),
    decreases n,
{
    if n > 0 {
        lemma_expired_ids(items, scores, rules, now, (n - 1) as nat, i);
        let rest = expired_ids(items, scores, rules, now, (n - 1) as nat);
        let all = expired_ids(items, scores, rules, now, n);
        assert forall|k: int| 0 <= k < all.len() implies all[k] != items[i].id by {
            if k < rest.len() {
                assert(rest.contains(rest[k]));
            } else if n - 1 != i {
                assert(items[n - 1].id != items[i].id);
            }
        }
    }
}

proof fn lemma_evictable(items: Seq<ItemView>, t: Seq<char>, n: nat)
    requires
        n <= items.len(),
    ensures
        forall|k: int|
            0 <= k < evictable(items, t, n).len() ==> 0 <= #[trigger] evictable(items, t, n)[k] < n
                && !items[evictable(items, t, n)[k]].protected,
    decreases n,
{
    if n > 0 {
        lemma_evictable(items, t, (n - 1) as nat);
    }
}

proof fn lemma_overflow_ids(items: Seq<ItemView>, scores: Seq<i64>, rules: Seq<RuleView>, n: nat, i: int)
    requires
        n <= rules.len(),
        0 <= i < items.len(),
        items[i].protected,
        forall|k: int| 0 <= k < items.len() && k != i ==> (#[trigger] items[k]).id != items[i].id,
    ensures
        !overflow_all(items, scores, rules, n).contains(items[i].id),
    decreases n,
{
    if n > 0 {
        lemma_overflow_ids(items, scores, rules, (n - 1) as nat, i);
        let rest = overflow_all(items, scores, rules, (n - 1) as nat);
        let r = rules[n - 1];
        let more = overflow(items, scores, r);
        let free = evictable(items, r.memory_type, items.len());
        lemma_evictable(items, r.memory_type, items.len());
        let keys = turned_keys(items, scores, free, r.evict_by_score);
        order_sorts(keys);
        assert forall|k: int| 0 <= k < more.len() implies more[k] != items[i].id by {
            let at = free[order_of(keys)[k]];
            assert(!items[at].protected);
            assert(more[k] == items[at].id);
            assert(items[at].id != items[i].id);
        }
        let all = overflow_all(items, scores, rules, n);
        assert forall|k: int| 0 <= k < all.len() implies all[k] != items[i].id by {
            if k < rest.len() {
                assert(rest.contains(rest[k]));
            } else {
                assert(all[k] == more[k - rest.len()]);
            }
        }
    }
}

impl MemoryRetentionGuard {
    /// The rules.
    pub closed spec fn ruling(&self) -> Seq<RuleView> {
        rule_views(self.rules@)
    }

    /// A guard with the standard rules.
    pub fn new() -> (r: MemoryRetentionGuard)
        ensures
            r.ruling() == standard_rules(),
    {
        MemoryRetentionGuard { rules: Self::default_rules() }
    }

    /// The standard rules.
    pub fn default_rules() -> (r: Vec<MemoryExpirationRule>)
        ensures
            rule_views(r@) == standard_rules(),
    {
        let mut r: Vec<MemoryExpirationRule> = Vec::new();
        r.push(MemoryExpirationRule::new("casual_conversation", Some(24_000_000)).with_max_count(100));
        r.push(MemoryExpirationRule::new("temporary_context", Some(6_000_000)).with_max_count(50));
        r.push(MemoryExpirationRule::new("long_term", Some(720_000_000)).with_min_importance(300_000));
        r.push(
            MemoryExpirationRule::new("knowledge", None).with_max_count(500).with_evict_by_score(),
        );
        r.push(
            MemoryExpirationRule::new("insight", None).with_max_count(100).with_evict_by_score(),
        );
        r.push(
            MemoryExpirationRule::new("inner_monologue", Some(168_000_000)).with_max_count(
                200,
            ).with_min_importance(1_000_000),
        );
        assert(rule_views(r@) =~= standard_rules());
        r
    }

    pub fn rules(&self) -> (r: &Vec<MemoryExpirationRule>)
        ensures
            rule_views(r@) == self.ruling(),
    {
        &self.rules
    }

    /// Whether a memory has expired, given its evidence score.
    pub fn is_expired(memory: &MemoryItem, rules: &Vec<MemoryExpirationRule>, score: i64, now: i64) -> (r:
        bool)
        ensures
            r == expired(memory@, rule_views(rules@), score, now),
    {
        if memory.protected {
            return false;
        }
        if score <= ARCHIVE_THRESHOLD && memory.sub_zero_days >= ARCHIVE_DAYS {
            return true;
        }
        let t = extract_memory_type(memory);
        let age: i128 = age_millis(memory, now);
        if !MemoryRetentionPolicy::should_keep(t.as_str(), memory.importance, age) {
            return true;
        }
        let ghost all = rule_views(rules@);
        let mut i: usize = 0;
        while i < rules.len()
            invariant
                i <= rules@.len(),
                all == rule_views(rules@),
                t@ == type_of(memory@),
                age == age_of(memory@, now),
                forall|k: int|
                    0 <= k < i ==> !rule_applies(
                        #[trigger] all[k],
                        type_of(memory@),
                        memory@.importance,
                        age_of(memory@, now),
                    ),
            decreases rules@.len() - i,
        {
            assert(all[i as int] == rules@[i as int]@);
            let r = &rules[i];
            let old_enough = match r.max_age_hours {
                Some(h) => age * 1_000_000 > h as i128 * HOUR_MILLIS as i128,
                None => false,
            };
            if (same(r.memory_type.as_str(), t.as_str()) || same(r.memory_type.as_str(), "*"))
                && old_enough && memory.importance < r.min_importance {
                assert(rule_applies(
                    all[i as int],
                    type_of(memory@),
                    memory@.importance,
                    age_of(memory@, now),
                ));
                return !memory.protected;
            }
            i += 1;
        }
        QuadraticDecay::should_purge(memory, now)
    }

    /// The memories that are to be deleted, given their evidence scores: the expired,
    /// then those of which there are too many; none where clearing is switched off.
    pub fn plan_cleanup(&self, memories: &[MemoryItem], scores: &Vec<i64>, now: i64, enabled: bool) -> (out: Vec<
        String,
    >)
        requires
            memories@.len() == scores@.len(),
        ensures
            texts(out@) == (if enabled {
                expired_ids(
                    item_views(memories@),
                    scores@,
                    self.ruling(),
                    now,
                    memories@.len(),
                ) + overflow_all(
                    item_views(memories@),
                    scores@,
                    self.ruling(),
                    self.ruling().len(),
                )
            } else {
                Seq::<Seq<char>>::empty()
            }),
    {
        let ghost all = item_views(memories@);
        let ghost rules = self.ruling();
        let mut out: Vec<String> = Vec::new();
        assert(texts(out@) =~= Seq::<Seq<char>>::empty());
        if !enabled {
            return out;
        }
        let mut i: usize = 0;
        while i < memories.len()
            invariant
                i <= memories@.len(),
                memories@.len() == scores@.len(),
                all == item_views(memories@),
                rules == rule_views(self.rules@),
                texts(out@) == expired_ids(all, scores@, rules, now, i as nat),
            decreases memories@.len() - i,
        {
            assert(all[i as int] == memories@[i as int]@);
            if Self::is_expired(&memories[i], &self.rules, scores[i], now) {
                let ghost prev = texts(out@);
                out.push(memories[i].id.clone());
                assert(texts(out@) =~= prev.push(all[i as int].id));
            }
            i += 1;
        }
        let ghost first = texts(out@);
        let mut k: usize = 0;
        assert(texts(out@) =~= first + overflow_all(all, scores@, rules, 0));
        while k < self.rules.len()
            invariant
                k <= self.rules@.len(),
                memories@.len() == scores@.len(),
                all == item_views(memories@),
                rules == rule_views(self.rules@),
                texts(out@) == first + overflow_all(all, scores@, rules, k as nat),
            decreases self.rules@.len() - k,
        {
            assert(rules[k as int] == self.rules@[k as int]@);
            let ghost prev = texts(out@);
            push_overflow(&mut out, memories, scores, &self.rules[k]);
            k += 1;
            assert(texts(out@) =~= first + overflow_all(all, scores@, rules, k as nat));
        }
        out
    }
}

/// The manager after the first `n` memories were deleted for good.
pub open spec fn hard_deleted(m: ManagerView, ids: Seq<Seq<char>>, n: nat) -> ManagerView
    decreases n,
{
    if n == 0 {
        m
    } else {
        let rest = hard_deleted(m, ids, (n - 1) as nat);
        ManagerView { entries: without_id(rest.entries, ids[n - 1]), dirty: true, ..rest }
    }
}

proof fn lemma_fewer(m: ManagerView, ids: Seq<Seq<char>>, n: nat)
    ensures
        hard_deleted(m, ids, n).entries.len() <= m.entries.len(),
    decreases n,
{
    if n > 0 {
        lemma_fewer(m, ids, (n - 1) as nat);
        let rest = hard_deleted(m, ids, (n - 1) as nat).entries;
        lemma_last_with_id(rest, ids[n - 1]);
    }
}

fn delete_listed(manager: &mut MemoryManager, ids: &Vec<String>)
    ensures
        final(manager)@ == hard_deleted(old(manager)@, texts(ids@), ids@.len()),
{
    let ghost was = manager@;
    let ghost all = texts(ids@);
    let mut i: usize = 0;
    while i < ids.len()
        invariant
            i <= ids@.len(),
            all == texts(ids@),
            manager@ == hard_deleted(was, all, i as nat),
        decreases ids@.len() - i,
    {
        assert(all[i as int] == ids@[i as int]@);
        manager.hard_delete_memory(ids[i].as_str());
        i += 1;
    }
}

impl MemoryRetentionGuard {
    /// Deletes the memories that have expired, then those of which there are too many; says
    /// how many it deleted. `scores` are the evidence scores of the memories that
    /// are not archived.
    pub fn cleanup_expired(
        &self,
        manager: &mut MemoryManager,
        scores: &Vec<i64>,
        now: i64,
        enabled: bool,
    ) -> (n: usize)
        requires
            scores@.len() == old(manager)@.entries.filter(is_live()).len(),
        ensures
            ({
                let live = old(manager)@.entries.filter(is_live());
                let ids = expired_ids(live, scores@, self.ruling(), now, live.len()) + overflow_all(
                    live,
                    scores@,
                    self.ruling(),
                    self.ruling().len(),
                );
                if enabled {
                    n == old(manager)@.entries.len() - final(manager)@.entries.len() && final(manager)@
                        == hard_deleted(old(manager)@, ids, ids.len())
                } else {
                    n == 0 && final(manager)@ == old(manager)@
                }
            }),
    {
        if !enabled {
            return 0;
        }
        let memories = manager.get_all_memories();
        let ghost live = item_views(memories@);
        assert(live.len() == memories@.len());
        let ids = self.plan_cleanup(memories.as_slice(), scores, now, true);
        assert(texts(ids@).len() == ids@.len());
        let before: usize = manager.entries.len();
        proof {
            lemma_fewer(manager@, texts(ids@), ids@.len());
            assert(manager@.entries.len() == before);
        }
        delete_listed(manager, &ids);
        assert(manager@.entries.len() == manager.entries@.len());
        before - manager.entries.len()
    }

    /// Deletes the memories that repeat a better one; says how many.
    pub fn consolidate(&self, manager: &mut MemoryManager, scores: &Vec<i64>) -> (n: usize)
        requires
            scores@.len() == old(manager)@.entries.filter(is_live()).len(),
        ensures
            ({
                let live = old(manager)@.entries.filter(is_live());
                let ids = repeated(live, scores@, live.len());
                n == ids.len() && final(manager)@ == hard_deleted(old(manager)@, ids, ids.len())
            }),
    {
        let memories = manager.get_all_memories();
        let ghost live = item_views(memories@);
        assert(live.len() == memories@.len());
        let ids = plan_consolidation(memories.as_slice(), scores);
        assert(texts(ids@).len() == ids@.len());
        delete_listed(manager, &ids);
        ids.len()
    }
}

impl Default for MemoryRetentionGuard {
    fn default() -> (r: MemoryRetentionGuard)
        ensures
            r.ruling() == standard_rules(),
    {
        MemoryRetentionGuard::new()
    }
}

fn push_overflow(out: &mut Vec<String>, memories: &[MemoryItem], scores: &Vec<i64>, rule: &MemoryExpirationRule)
    requires
        memories@.len() == scores@.len(),
    ensures
        texts(final(out)@) == texts(old(out)@) + overflow(item_views(memories@), scores@, rule@),
{
    let ghost start = texts(out@);
    let ghost all = item_views(memories@);
    let ghost want = overflow(all, scores@, rule@);
    assert(start =~= start + Seq::<Seq<char>>::empty());
    let max: usize = match rule.max_count {
        Some(m) => m,
        None => {
            return;
        },
    };
    let mut at: Vec<usize> = Vec::new();
    let mut keys: Vec<i128> = Vec::new();
    let mut count: usize = 0;
    let mut i: usize = 0;
    let ghost t = rule@.memory_type;
    assert(positions(at@) =~= evictable(all, t, 0));
    assert(keys@ =~= turned_keys(all, scores@, positions(at@), rule@.evict_by_score));
    while i < memories.len()
        invariant
            i <= memories@.len(),
            memories@.len() == scores@.len(),
            all == item_views(memories@),
            t == rule@.memory_type,
            count == of_type(all, t, i as nat).len(),
            count <= i,
            positions(at@) == evictable(all, t, i as nat),
            forall|k: int| 0 <= k < at@.len() ==> (#[trigger] at@[k]) < memories@.len(),
            keys@ == turned_keys(all, scores@, positions(at@), rule@.evict_by_score),
        decreases memories@.len() - i,
    {
        let m = &memories[i];
        assert(all[i as int] == m@);
        let mt = extract_memory_type(m);
        if same(mt.as_str(), rule.memory_type.as_str()) {
            count += 1;
            if !m.protected {
                let key: i128 = if rule.evict_by_score {
                    scores[i] as i128 + m.importance as i128
                } else {
                    m.timestamp as i128
                };
                let ghost p0 = positions(at@);
                let ghost a0 = at@;
                at.push(i);
                keys.push(-key);
                proof {
                    assert(positions(at@) =~= p0.push(i as int));
                    assert(keys@ =~= turned_keys(all, scores@, positions(at@), rule@.evict_by_score));
                    assert forall|k: int| 0 <= k < at@.len() implies (#[trigger] at@[k])
                        < memories@.len() by {
                        if k < a0.len() {
                            assert(at@[k] == a0[k]);
                        }
                    }
                }
            }
        }
        i += 1;
    }
    assert(positions(at@).len() == at@.len());
    if count <= max {
        return;
    }
    let p = order_desc(&keys);
    proof {
        order_sorts(keys@);
    }
    let n: usize = if count - max < at.len() {
        count - max
    } else {
        at.len()
    };
    let ghost ids = positions(at@).map_values(|i: int| all[i].id);
    assert(want =~= ranked(ids, keys@, n as int));
    assert(want.len() == n);
    let mut k: usize = 0;
    assert(texts(out@) =~= start + want.take(0));
    while k < n
        invariant
            k <= n <= p@.len(),
            n == want.len(),
            p@.len() == at@.len(),
            p@.len() == keys@.len(),
            all == item_views(memories@),
            ids == positions(at@).map_values(|i: int| all[i].id),
            want == ranked(ids, keys@, n as int),
            positions(p@) == order_of(keys@),
            forall|j: int| 0 <= j < p@.len() ==> (#[trigger] p@[j]) < keys@.len(),
            forall|j: int| 0 <= j < at@.len() ==> (#[trigger] at@[j]) < memories@.len(),
            texts(out@) == start + want.take(k as int),
        decreases n - k,
    {
        let w: usize = p[k];
        let idx: usize = at[w];
        let ghost prev = texts(out@);
        out.push(memories[idx].id.clone());
        proof {
            assert(positions(p@)[k as int] == w as int);
            assert(positions(at@)[w as int] == idx as int);
            assert(all[idx as int] == memories@[idx as int]@);
            assert(want[k as int] == all[idx as int].id);
            assert(texts(out@) =~= prev.push(want[k as int]));
        }
        k += 1;
        assert(want.take(k as int) =~= want.take(k - 1).push(want[k - 1]));
        assert(texts(out@) =~= start + want.take(k as int));
    }
    assert(want.take(k as int) =~= want);
}

// ---------------------------------------------------------------------------
// Repeated memories
// ---------------------------------------------------------------------------

/// What two memories must share to count as the same.
pub open spec fn content_key(m: ItemView) -> Seq<char> {
    lowercase(trim(m.content))
}

/// What says which of two equal memories stays, in ten-millionths: the evidence, and a
/// tenth of the importance; a protected memory beats any other.
pub open spec fn worth(m: ItemView, score: i64) -> i128 {
    if m.protected {
        i128::MAX
    } else {
        (score * 10 + m.importance) as i128
    }
}

/// The best of the first `n` memories with a content: its identifier and its worth.
pub open spec fn best_of(items: Seq<ItemView>, scores: Seq<i64>, key: Seq<char>, n: nat) -> Option<
    (Seq<char>, i128),
>
    decreases n,
{
    if n == 0 {
        None
    } else {
        let m = items[n - 1];
        let rest = best_of(items, scores, key, (n - 1) as nat);
        if content_key(m) != key {
            rest
        } else {
            match rest {
                Some(b) => if worth(m, scores[n - 1]) > b.1 {
                    Some((m.id, worth(m, scores[n - 1])))
                } else {
                    Some(b)
                },
                None => Some((m.id, worth(m, scores[n - 1]))),
            }
        }
    }
}

/// The memories among the first `n` that repeat a better one, in the order in which
/// they are found out.
pub open spec fn repeated(items: Seq<ItemView>, scores: Seq<i64>, n: nat) -> Seq<Seq<char>>
    decreases n,
{
    if n == 0 {
        Seq::<Seq<char>>::empty()
    } else {
        let m = items[n - 1];
        let rest = repeated(items, scores, (n - 1) as nat);
        match best_of(items, scores, content_key(m), (n - 1) as nat) {
            Some(b) => if worth(m, scores[n - 1]) > b.1 {
                rest.push(b.0)
            } else {
                rest.push(m.id)
            },
            None => rest,
        }
    }
}

/// What is stored of the best memory with a content.
pub open spec fn stored_best(s: Seq<(Seq<char>, (String, i128))>, key: Seq<char>) -> Option<
    (Seq<char>, i128),
> {
    match lookup(s, key) {
        Some(b) => Some((b.0@, b.1)),
        None => None,
    }
}

/// The memories that repeat a better one, given their evidence scores.
pub fn plan_consolidation(memories: &[MemoryItem], scores: &Vec<i64>) -> (out: Vec<String>)
    requires
        memories@.len() == scores@.len(),
    ensures
        texts(out@) == repeated(item_views(memories@), scores@, memories@.len()),
        ids_differ(item_views(memories@)) ==> forall|i: int, j: int|
            0 <= i < memories@.len() && 0 <= j < memories@.len() && lowercase(
                trim((#[trigger] memories@[i])@.content),
            ) == lowercase(trim((#[trigger] memories@[j])@.content)) && !texts(out@).contains(
                memories@[i]@.id,
            ) ==> memories@[i]@.protected || (!memories@[j]@.protected && scores@[i] * 10
                + memories@[i]@.importance >= scores@[j] * 10 + memories@[j]@.importance),
{
    let ghost all = item_views(memories@);
    let mut best: Assoc<(String, i128)> = Assoc::new();
    let mut out: Vec<String> = Vec::new();
    let mut i: usize = 0;
    assert(texts(out@) =~= repeated(all, scores@, 0));
    while i < memories.len()
        invariant
            i <= memories@.len(),
            memories@.len() == scores@.len(),
            all == item_views(memories@),
            texts(out@) == repeated(all, scores@, i as nat),
            forall|key: Seq<char>| #[trigger]
                stored_best(best@, key) == best_of(all, scores@, key, i as nat),
        decreases memories@.len() - i,
    {
        let m = &memories[i];
        assert(all[i as int] == m@);
        let t = trimmed(m.content.as_str());
        let key = lower(t.as_str());
        let w: i128 = if m.protected {
            i128::MAX
        } else {
            scores[i] as i128 * 10 + m.importance as i128
        };
        assert(w == worth(m@, scores@[i as int]));
        let ghost before = best@;
        let ghost prev = texts(out@);
        assert(stored_best(before, key@) == best_of(all, scores@, key@, i as nat));
        let (better, old_id): (bool, Option<String>) = match best.get(key.as_str()) {
            Some(b) => (w > b.1, Some(b.0.clone())),
            None => (true, None),
        };
        if better {
            let id = m.id.clone();
            let e = (id, w);
            proof {
                assert forall|k: Seq<char>| #[trigger]
                    stored_best(put(before, key@, e), k) == (if k == key@ {
                        Some((m@.id, w))
                    } else {
                        stored_best(before, k)
                    }) by {
                    lookup_after_put(before, key@, e, k);
                }
            }
            best.insert(key.as_str(), e);
            if let Some(o) = old_id {
                let ghost text = o@;
                out.push(o);
                assert(texts(out@) =~= prev.push(text));
            }
        } else {
            out.push(m.id.clone());
            assert(texts(out@) =~= prev.push(m@.id));
        }
        proof {
            assert forall|k: Seq<char>| #[trigger]
                stored_best(best@, k) == best_of(all, scores@, k, (i + 1) as nat) by {
                assert(stored_best(before, k) == best_of(all, scores@, k, i as nat));
            }
        }
        i += 1;
    }
    proof {
        if ids_differ(all) {
            assert forall|i: int, j: int|
                0 <= i < memories@.len() && 0 <= j < memories@.len() && lowercase(
                    trim((#[trigger] memories@[i])@.content),
                ) == lowercase(trim((#[trigger] memories@[j])@.content)) && !texts(out@).contains(
                    memories@[i]@.id,
                ) implies memories@[i]@.protected || (!memories@[j]@.protected && scores@[i] * 10
                + memories@[i]@.importance >= scores@[j] * 10 + memories@[j]@.importance) by {
                assert(all[i] == memories@[i]@ && all[j] == memories@[j]@);
                crate::retention_laws::best_of_equal_memories_stays(all, scores@, i, j);
            }
        }
    }
    out
}

} // verus!
