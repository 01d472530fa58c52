//! What keeping and clearing memories promises: which of several equal memories stays, which
//! go when there are too many, and what makes a memory expire.

use crate::manager::ManagerView;
use crate::rank::{before, order_of, order_sorts};
use crate::retention::{age_of, best_of, content_key, decay_removes, evictable, eviction_key, expired,
    expired_ids, has_decayed, hard_deleted, kept_types, lifetime, of_type, overflow, passing_types,
    repeated, rule_applies, strength_left, tag_types, tagged_type, turned_keys, type_of, worth,
    RuleView};
use crate::store::without_id;
use crate::strategy::{last_with_id, lemma_last_with_id};
use crate::text::{lowercase, trim};
use crate::types::{text_at, ItemView};
use vstd::prelude::*;
use vstd::string::*;

verus! {

// ---------------------------------------------------------------------------
// Repeated memories
// ---------------------------------------------------------------------------

/// No two memories have the same identifier.
pub open spec fn ids_differ(items: Seq<ItemView>) -> bool {
    forall|i: int, j: int|
        0 <= i < j < items.len() ==> (#[trigger] items[i]).id != (#[trigger] items[j]).id
}

proof fn lemma_group(items: Seq<ItemView>, scores: Seq<i64>, key: Seq<char>, n: nat) -> (b: int)
    requires
        n <= items.len(),
        scores.len() == items.len(),
        ids_differ(items),
    ensures
        best_of(items, scores, key, n) is None ==> forall|j: int|
            0 <= j < n ==> content_key(#[trigger] items[j]) != key,
        best_of(items, scores, key, n) is Some ==> {
            &&& 0 <= b < n
            &&& content_key(items[b]) == key
            &&& best_of(items, scores, key, n) == Some((items[b].id, worth(items[b], scores[b])))
            &&& forall|j: int|
                0 <= j < n && content_key(#[trigger] items[j]) == key ==> worth(items[j], scores[j])
                    <= worth(items[b], scores[b]) && (repeated(items, scores, n).contains(items[j].id)
                    <==> j != b)
        },
        forall|j: int|
            n <= j < items.len() ==> !repeated(items, scores, n).contains((#[trigger] items[j]).id),
    decreases n,
{
    if n == 0 {
        0
    } else {
        let p = (n - 1) as nat;
        let b = lemma_group(items, scores, key, p);
        let m = items[n - 1];
        let k = content_key(m);
        let o = lemma_group(items, scores, k, p);
        let rest = repeated(items, scores, p);
        let all = repeated(items, scores, n);
        assert(!rest.contains(m.id));
        match best_of(items, scores, k, p) {
            None => {
                assert(all == rest);
                assert forall|j: int| n <= j < items.len() implies !all.contains((#[trigger] items[j]).id) by {}
                if k == key {
                    n - 1
                } else {
                    b
                }
            },
            Some(e) => {
                let gone = if worth(m, scores[n - 1]) > e.1 {
                    e.0
                } else {
                    m.id
                };
                assert(all == rest.push(gone));
                assert forall|x: Seq<char>| #[trigger] all.contains(x) == (rest.contains(x) || x == gone) by {
                    if rest.contains(x) {
                        assert(all[rest.index_of(x)] == x);
                    }
                    if x == gone {
                        assert(all[rest.len() as int] == x);
                    }
                    if all.contains(x) && x != gone {
                        assert(rest[all.index_of(x)] == x);
                    }
                }
                assert forall|j: int| n <= j < items.len() implies !all.contains((#[trigger] items[j]).id) by {
                    assert(items[j].id != m.id);
                    assert(items[j].id != items[o].id);
                }
                if k == key {
                    assert(e.0 == items[o].id);
                    let w = if worth(m, scores[n - 1]) > e.1 {
                        n - 1
                    } else {
                        o
                    };
                    assert forall|j: int|
                        0 <= j < n && content_key(#[trigger] items[j]) == key implies worth(
                        items[j],
                        scores[j],
                    ) <= worth(items[w], scores[w]) && (all.contains(items[j].id) <==> j != w) by {
                        if j < p {
                            assert(items[j].id != m.id);
                            if j < o {
                                assert(items[j].id != items[o].id);
                            } else if o < j {
                                assert(items[o].id != items[j].id);
                            }
                        } else {
                            assert(items[o].id != m.id);
                        }
                    }
                    w
                } else {
                    assert forall|j: int|
                        0 <= j < n && content_key(#[trigger] items[j]) == key implies items[j].id != gone by {
                        assert(items[j].id != m.id);
                        if j < o {
                            assert(items[j].id != items[o].id);
                        } else if o < j {
                            assert(items[o].id != items[j].id);
                        }
                    }
                    b
                }
            },
        }
    }
}

/// Of memories with the same content, but for case and white space around it, the one that is
/// not deleted is the best: a protected one before any other, else the one whose evidence and
/// a tenth of whose importance are the most together.
pub proof fn best_of_equal_memories_stays(items: Seq<ItemView>, scores: Seq<i64>, i: int, j: int)
    requires
        scores.len() == items.len(),
        ids_differ(items),
        0 <= i < items.len(),
        0 <= j < items.len(),
        lowercase(trim(items[i].content)) == lowercase(trim(items[j].content)),
        !repeated(items, scores, items.len()).contains(items[i].id),
    ensures
        items[i].protected || (!items[j].protected && scores[i] * 10 + items[i].importance >= scores[j] * 10
            + items[j].importance),
{
    let key = content_key(items[i]);
    let b = lemma_group(items, scores, key, items.len());
    assert(content_key(items[j]) == key);
    assert(i == b);
    assert(worth(items[j], scores[j]) <= worth(items[i], scores[i]));
}

/// A memory with better evidence is never deleted in favour of one with worse evidence that is
/// equal otherwise, nor a protected one in favour of another.
pub proof fn worse_evidence_does_not_stay(items: Seq<ItemView>, scores: Seq<i64>, i: int, j: int)
    requires
        scores.len() == items.len(),
        ids_differ(items),
        0 <= i < items.len(),
        0 <= j < items.len(),
        lowercase(trim(items[i].content)) == lowercase(trim(items[j].content)),
        !items[j].protected,
        items[i].protected || (items[i].importance == items[j].importance && scores[i] > scores[j]),
    ensures
        repeated(items, scores, items.len()).contains(items[j].id),
{
    if !repeated(items, scores, items.len()).contains(items[j].id) {
        best_of_equal_memories_stays(items, scores, j, i);
    }
}

/// Of memories with the same content exactly one stays: of two the one or the other is
/// deleted, and one of all is not.
pub proof fn one_of_equal_memories_stays(items: Seq<ItemView>, scores: Seq<i64>, i: int) -> (b: int)
    requires
        scores.len() == items.len(),
        ids_differ(items),
        0 <= i < items.len(),
    ensures
        0 <= b < items.len(),
        lowercase(trim(items[b].content)) == lowercase(trim(items[i].content)),
        !repeated(items, scores, items.len()).contains(items[b].id),
        forall|j: int|
            0 <= j < items.len() && j != b && lowercase(trim((#[trigger] items[j]).content)) == lowercase(
                trim(items[i].content),
            ) ==> repeated(items, scores, items.len()).contains(items[j].id),
{
    let b = lemma_group(items, scores, content_key(items[i]), items.len());
    assert(content_key(items[b]) == content_key(items[i]));
    assert forall|j: int|
        0 <= j < items.len() && j != b && lowercase(trim((#[trigger] items[j]).content)) == lowercase(
            trim(items[i].content),
        ) implies repeated(items, scores, items.len()).contains(items[j].id) by {
        assert(content_key(items[j]) == content_key(items[i]));
    }
    b
}

/// Only memories of the list are deleted.
pub proof fn only_listed_memories_repeat(items: Seq<ItemView>, scores: Seq<i64>, n: nat, x: Seq<char>)
    requires
        scores.len() == items.len(),
        n <= items.len(),
        repeated(items, scores, n).contains(x),
    ensures
        exists|i: int| 0 <= i < n && (#[trigger] items[i]).id == x,
    decreases n,
{
    if n > 0 {
        let rest = repeated(items, scores, (n - 1) as nat);
        if rest.contains(x) {
            only_listed_memories_repeat(items, scores, (n - 1) as nat, x);
        } else {
            let all = repeated(items, scores, n);
            let at = all.index_of(x);
            if at < rest.len() {
                assert(rest[at] == x);
            }
            if x != items[n - 1].id {
                lemma_best_is_listed(items, scores, content_key(items[n - 1]), (n - 1) as nat);
            } else {
                assert(items[n - 1].id == x);
            }
        }
    }
}

proof fn lemma_best_is_listed(items: Seq<ItemView>, scores: Seq<i64>, key: Seq<char>, n: nat)
    requires
        n <= items.len(),
    ensures
        best_of(items, scores, key, n) matches Some(b) ==> exists|i: int|
            0 <= i < n && (#[trigger] items[i]).id == b.0,
    decreases n,
{
    if n > 0 {
        lemma_best_is_listed(items, scores, key, (n - 1) as nat);
        assert(items[n - 1].id == items[n - 1].id);
    }
}

/// Deleting for good takes out the memories that are listed and no other.
pub proof fn deleting_takes_only_what_is_listed(m: ManagerView, ids: Seq<Seq<char>>, n: nat, x: ItemView)
    requires
        ids_differ(m.entries),
        n <= ids.len(),
    ensures
        ids_differ(hard_deleted(m, ids, n).entries),
        hard_deleted(m, ids, n).entries.contains(x) <==> m.entries.contains(x) && !ids.take(
            n as int,
        ).contains(x.id),
    decreases n,
{
    if n == 0 {
        assert(!ids.take(0).contains(x.id));
    } else {
        let p = (n - 1) as nat;
        deleting_takes_only_what_is_listed(m, ids, p, x);
        let s = hard_deleted(m, ids, p).entries;
        let id = ids[n - 1];
        lemma_without(s, id, x);
        assert(ids.take(n as int) =~= ids.take(n - 1).push(id));
        if ids.take(n - 1).contains(x.id) {
            assert(ids.take(n as int)[ids.take(n - 1).index_of(x.id)] == x.id);
        }
        if x.id == id {
            assert(ids.take(n as int)[n - 1] == x.id);
        }
        if ids.take(n as int).contains(x.id) && x.id != id {
            assert(ids.take(n - 1)[ids.take(n as int).index_of(x.id)] == x.id);
        }
    }
}

/// Taking out a memory by its identifier leaves all the others.
pub(crate) proof fn lemma_without(s: Seq<ItemView>, id: Seq<char>, x: ItemView)
    requires
        ids_differ(s),
    ensures
        ids_differ(without_id(s, id)),
        without_id(s, id).contains(x) <==> s.contains(x) && x.id != id,
{
    lemma_last_with_id(s, id);
    let r = without_id(s, id);
    match last_with_id(s, id) {
        None => {},
        Some(at) => {
            assert forall|i: int, j: int| 0 <= i < j < r.len() implies (#[trigger] r[i]).id != (
            #[trigger] r[j]).id by {
                let a = if i < at {
                    i
                } else {
                    i + 1
                };
                let b = if j < at {
                    j
                } else {
                    j + 1
                };
                assert(r[i] == s[a] && r[j] == s[b]);
            }
            if r.contains(x) {
                let k = r.index_of(x);
                let a = if k < at {
                    k
                } else {
                    k + 1
                };
                assert(s[a] == x);
            }
            if s.contains(x) && x.id != id {
                let a = s.index_of(x);
                if a < at {
                    assert(r[a] == x);
                } else {
                    assert(r[a - 1] == x);
                }
            }
        },
    }
}

// ---------------------------------------------------------------------------
// Too many memories
// ---------------------------------------------------------------------------

proof fn lemma_of_type(items: Seq<ItemView>, t: Seq<char>, n: nat)
    requires
        n <= items.len(),
    ensures
        of_type(items, t, n).len() == items.take(n as int).filter(|m: ItemView| type_of(m) == t).len(),
        evictable(items, t, n).len() == items.take(n as int).filter(
            |m: ItemView| type_of(m) == t && !m.protected,
        ).len(),
        forall|k: int|
            0 <= k < evictable(items, t, n).len() ==> 0 <= #[trigger] evictable(items, t, n)[k] < n && type_of(
                items[evictable(items, t, n)[k]],
            ) == t && !items[evictable(items, t, n)[k]].protected,
        forall|i: int|
            0 <= i < n && type_of(#[trigger] items[i]) == t && !items[i].protected ==> evictable(
                items,
                t,
                n,
            ).contains(i),
        forall|a: int, b: int|
            0 <= a < b < evictable(items, t, n).len() ==> #[trigger] evictable(items, t, n)[a]
                < #[trigger] evictable(items, t, n)[b],
    decreases n,
{
    reveal(Seq::filter);
    if n > 0 {
        let p = (n - 1) as nat;
        lemma_of_type(items, t, p);
        assert(items.take(n as int).drop_last() =~= items.take(n - 1));
        assert(items.take(n as int).last() == items[n - 1]);
        let rest = evictable(items, t, p);
        let all = evictable(items, t, n);
        assert forall|i: int|
            0 <= i < n && type_of(#[trigger] items[i]) == t && !items[i].protected implies all.contains(i) by {
            if i < p {
                assert(rest.contains(i));
                assert(all[rest.index_of(i)] == i);
            } else {
                assert(all[rest.len() as int] == i);
            }
        }
        assert forall|a: int, b: int| 0 <= a < b < all.len() implies #[trigger] all[a] < #[trigger] all[b] by {
            if b < rest.len() {
                assert(all[a] == rest[a] && all[b] == rest[b]);
            } else {
                assert(all[a] == rest[a]);
            }
        }
    }
}

/// A rule drops nothing while there are not more memories of its type than it allows; else as
/// many as there are too many, or all that are not protected where those are fewer.
pub proof fn as_many_go_as_are_too_many(items: Seq<ItemView>, scores: Seq<i64>, r: RuleView)
    requires
        scores.len() == items.len(),
    ensures
        ({
            let there = items.filter(|m: ItemView| type_of(m) == r.memory_type).len();
            let free = items.filter(|m: ItemView| type_of(m) == r.memory_type && !m.protected).len();
            let gone = overflow(items, scores, r).len();
            match r.max_count {
                None => gone == 0,
                Some(max) => if there <= max {
                    gone == 0
                } else if there - max <= free {
                    gone == there - max
                } else {
                    gone == free
                },
            }
        }),
{
    lemma_of_type(items, r.memory_type, items.len());
    assert(items.take(items.len() as int) =~= items);
    let free = evictable(items, r.memory_type, items.len());
    order_sorts(turned_keys(items, scores, free, r.evict_by_score));
}

/// Whoever is dropped because there are too many has the type of the rule and is not protected,
/// and no memory of that type that may go and stays is older; where the rule goes by score,
/// none of them has less evidence and importance together.
pub proof fn least_memories_go_first(items: Seq<ItemView>, scores: Seq<i64>, r: RuleView, i: int, j: int)
    requires
        scores.len() == items.len(),
        ids_differ(items),
        0 <= i < items.len(),
        0 <= j < items.len(),
        overflow(items, scores, r).contains(items[i].id),
        !overflow(items, scores, r).contains(items[j].id),
        type_of(items[j]) == r.memory_type,
        !items[j].protected,
    ensures
        type_of(items[i]) == r.memory_type,
        !items[i].protected,
        r.evict_by_score ==> scores[i] + items[i].importance <= scores[j] + items[j].importance,
        !r.evict_by_score ==> items[i].timestamp <= items[j].timestamp,
{
    let t = r.memory_type;
    lemma_of_type(items, t, items.len());
    let free = evictable(items, t, items.len());
    let keys = turned_keys(items, scores, free, r.evict_by_score);
    let out = overflow(items, scores, r);
    order_sorts(keys);
    let p = order_of(keys);
    let a = out.index_of(items[i].id);
    let x = free[p[a]];
    assert(out[a] == items[x].id);
    if x < i {
        assert(items[x].id != items[i].id);
    } else if i < x {
        assert(items[i].id != items[x].id);
    }
    assert(x == i);
    assert(free.contains(j));
    let f = free.index_of(j);
    assert(p.contains(f));
    let b = p.index_of(f);
    if b < out.len() {
        assert(out[b] == items[j].id);
    }
    assert(before(keys, p[a], p[b]));
    assert(keys[p[a]] == (-(eviction_key(items[i], scores[i], r.evict_by_score) as int)) as i128);
    assert(keys[p[b]] == (-(eviction_key(items[j], scores[j], r.evict_by_score) as int)) as i128);
}

// ---------------------------------------------------------------------------
// Expiry
// ---------------------------------------------------------------------------

/// The expired memories of a list are those that have expired: each, and no other.
pub proof fn expired_memories_are_listed(
    items: Seq<ItemView>,
    scores: Seq<i64>,
    rules: Seq<RuleView>,
    now: i64,
    n: nat,
    i: int,
)
    requires
        scores.len() == items.len(),
        ids_differ(items),
        n <= items.len(),
        0 <= i < items.len(),
    ensures
        expired_ids(items, scores, rules, now, n).contains(items[i].id) <==> i < n && expired(
            items[i],
            rules,
            scores[i],
            now,
        ),
    decreases n,
{
    if n > 0 {
        let p = (n - 1) as nat;
        expired_memories_are_listed(items, scores, rules, now, p, i);
        let rest = expired_ids(items, scores, rules, now, p);
        let all = expired_ids(items, scores, rules, now, n);
        let id = items[i].id;
        if rest.contains(id) {
            assert(all[rest.index_of(id)] == id);
        }
        if i < n - 1 {
            assert(items[i].id != items[n - 1].id);
        } else if n - 1 < i {
            assert(items[n - 1].id != items[i].id);
        }
        if expired(items[n - 1], rules, scores[n - 1], now) {
            assert(all[rest.len() as int] == items[n - 1].id);
            if all.contains(id) && id != items[n - 1].id {
                assert(rest[all.index_of(id)] == id);
            }
        }
    }
}

/// What has expired does not come back with time, nor with less importance.
pub proof fn expiry_grows_with_age_and_unimportance(
    m: ItemView,
    rules: Seq<RuleView>,
    score: i64,
    now: i64,
    later: i64,
    less: i64,
)
    requires
        expired(m, rules, score, now),
        now <= later,
        -1_000_000 <= less <= m.importance,
    ensures
        expired(ItemView { importance: less, ..m }, rules, score, later),
{
    let n = ItemView { importance: less, ..m };
    let a = age_of(m, now);
    let b = age_of(n, later);
    assert(0 <= a <= b);
    assert(type_of(n) == type_of(m));
    if exists|i: int| 0 <= i < rules.len() && rule_applies(#[trigger] rules[i], type_of(m), m.importance, a) {
        let i = choose|i: int|
            0 <= i < rules.len() && rule_applies(#[trigger] rules[i], type_of(m), m.importance, a);
        assert(rule_applies(rules[i], type_of(n), n.importance, b));
    }
    if decay_removes(m, now) {
        crate::retention::decay_is_monotone(less, m.importance, a, b);
        crate::retention::decay_is_monotone(less, m.importance, b, b);
        crate::retention::decay_is_monotone(m.importance, m.importance, a, b);
    }
}

/// A memory that was just made has not expired, whatever its type and importance, unless the
/// evidence has long stood against it.
pub proof fn new_memory_has_not_expired(m: ItemView, rules: Seq<RuleView>, score: i64, now: i64)
    requires
        now <= m.timestamp,
        score > -2_000_000 || m.sub_zero_days < 14,
        forall|i: int|
            0 <= i < rules.len() && (#[trigger] rules[i]).max_age_hours is Some ==> rules[i].max_age_hours->0
                >= 0,
    ensures
        !expired(m, rules, score, now),
{
    assert(age_of(m, now) == 0);
    assert forall|i: int| 0 <= i < rules.len() implies !rule_applies(
        #[trigger] rules[i],
        type_of(m),
        m.importance,
        0,
    ) by {
        if let Some(h) = rules[i].max_age_hours {
            assert(h >= 0);
        }
    }
    let t = lifetime(m.importance);
    assert(t * t >= 0) by (nonlinear_arith);
    assert(!has_decayed(m.importance, 0)) by {
        assert(0 * 1_000_000 == 0);
        assert(0int * 0int == 0) by (nonlinear_arith);
    }
}

/// Evidence of minus two at most over fourteen days makes a memory that is not protected
/// expire; evidence above that makes no difference, nor does any before those days are over.
pub proof fn long_disputed_memory_expires(m: ItemView, rules: Seq<RuleView>, score: i64, other: i64, now: i64)
    ensures
        score <= -2_000_000 && m.sub_zero_days >= 14 && !m.protected ==> expired(m, rules, score, now),
        m.sub_zero_days < 14 || (score > -2_000_000 && other > -2_000_000) ==> expired(m, rules, score, now)
            == expired(m, rules, other, now),
{
}

/// A rule makes a memory of its type expire that is less important than the rule asks for and
/// older than it allows, unless it is protected; `*` stands for every type.
pub proof fn rules_make_memories_expire(m: ItemView, rules: Seq<RuleView>, score: i64, now: i64, i: int)
    requires
        0 <= i < rules.len(),
        !m.protected,
        rules[i].memory_type == type_of(m) || rules[i].memory_type == "*"@,
        m.importance < rules[i].min_importance,
        rules[i].max_age_hours is Some,
        (now - m.timestamp) * 1_000_000 > rules[i].max_age_hours->0 * 3_600_000,
        now > m.timestamp,
    ensures
        expired(m, rules, score, now),
{
    assert(rule_applies(rules[i], type_of(m), m.importance, age_of(m, now)));
}

/// Small talk and passing contexts go after a day where they matter little, and after three
/// days where they matter less than half; no rule is needed for it.
pub proof fn small_talk_goes_first(m: ItemView, rules: Seq<RuleView>, score: i64, now: i64)
    requires
        !m.protected,
        type_of(m) == "casual_conversation"@ || type_of(m) == "temporary_context"@ || type_of(m)
            == "old_sessions"@,
        (m.importance < 300_000 && now - m.timestamp > 86_400_000) || (m.importance < 500_000 && now
            - m.timestamp > 259_200_000),
    ensures
        expired(m, rules, score, now),
{
    lemma_passing();
}

proof fn lemma_passing()
    ensures
        passing_types().contains("casual_conversation"@),
        passing_types().contains("temporary_context"@),
        passing_types().contains("old_sessions"@),
        !kept_types().contains("casual_conversation"@),
        !kept_types().contains("temporary_context"@),
        !kept_types().contains("old_sessions"@),
        forall|t: Seq<char>| #[trigger]
            kept_types().contains(t) ==> !passing_types().contains(t),
        kept_types().contains("preference"@),
        kept_types().contains("identity"@),
        kept_types().contains("important_event"@),
        kept_types().contains("user_preferences"@),
        kept_types().contains("user_identity"@),
        kept_types().contains("important_events"@),
{
    let p = passing_types();
    let k = kept_types();
    assert(p[0] == "casual_conversation"@ && p[1] == "temporary_context"@ && p[2] == "old_sessions"@);
    assert(k[0] == "preference"@ && k[1] == "identity"@ && k[2] == "important_event"@ && k[3]
        == "user_preferences"@ && k[4] == "user_identity"@ && k[5] == "important_events"@);
    reveal_strlit("casual_conversation");
    reveal_strlit("temporary_context");
    reveal_strlit("old_sessions");
    reveal_strlit("preference");
    reveal_strlit("identity");
    reveal_strlit("important_event");
    reveal_strlit("user_preferences");
    reveal_strlit("user_identity");
    reveal_strlit("important_events");
    assert("casual_conversation"@.len() == 19 && "temporary_context"@.len() == 17 && "old_sessions"@.len()
        == 12 && "preference"@.len() == 10 && "identity"@.len() == 8 && "important_event"@.len() == 15
        && "user_preferences"@.len() == 16 && "user_identity"@.len() == 13 && "important_events"@.len() == 16);
    assert forall|t: Seq<char>| #[trigger] k.contains(t) implies !p.contains(t) by {
        let i = k.index_of(t);
        assert(i == 0 || i == 1 || i == 2 || i == 3 || i == 4 || i == 5);
        if p.contains(t) {
            let j = p.index_of(t);
            assert(j == 0 || j == 1 || j == 2);
        }
    }
}

/// Preferences, identities and important events, and whatever has an importance of 0.8 at
/// least and is no small talk, go neither by age alone nor by fading: only a rule or the
/// evidence makes them expire.
pub proof fn lasting_memories_do_not_fade(m: ItemView, score: i64, now: i64)
    requires
        score > -2_000_000 || m.sub_zero_days < 14,
        type_of(m) == "preference"@ || type_of(m) == "identity"@ || type_of(m) == "important_event"@ || type_of(
            m,
        ) == "user_preferences"@ || type_of(m) == "user_identity"@ || type_of(m) == "important_events"@
            || m.importance >= 800_000,
    ensures
        !expired(m, Seq::<RuleView>::empty(), score, now),
{
    lemma_passing();
}

/// Whatever is neither of a kind that is kept for good nor has an importance of 0.8 fades: once
/// it is older than thirty days and as many more as its importance is of one, it has expired.
pub proof fn unimportant_memories_fade(m: ItemView, rules: Seq<RuleView>, score: i64, now: i64)
    requires
        !m.protected,
        0 <= m.importance < 800_000,
        !kept_types().contains(type_of(m)),
        (now - m.timestamp) * 1_000_000 >= 2_592_000_000 * (1_000_000 + m.importance),
    ensures
        expired(m, rules, score, now),
{
    let a = age_of(m, now) * 1_000_000;
    let t = lifetime(m.importance);
    assert(a >= t && t > 0);
    assert(100 * (a * a) > 99 * (t * t)) by (nonlinear_arith)
        requires
            a >= t,
            t > 0,
    ;
}

/// A memory has all its strength when it is made, three quarters in the middle of its life,
/// and none at the end of it: thirty days, and as many more as its importance is of one.
pub proof fn strength_falls_with_the_square_of_age(importance: i64, age: int)
    requires
        0 <= importance <= 1_000_000,
        0 <= age,
    ensures
        0 <= strength_left(importance, age) <= 1_000_000,
        age == 0 ==> strength_left(importance, age) == 1_000_000,
        2 * age * 1_000_000 == 2_592_000_000 * (1_000_000 + importance) ==> strength_left(importance, age)
            == 750_000,
        age * 1_000_000 >= 2_592_000_000 * (1_000_000 + importance) ==> strength_left(importance, age) == 0,
{
    let a = age * 1_000_000;
    let t = lifetime(importance);
    assert(t > 0);
    if 0 < a < t {
        let q = t * t;
        let s = a * a;
        assert(0 < s < q) by (nonlinear_arith)
            requires
                0 < a < t,
                s == a * a,
                q == t * t,
        ;
        assert(0 <= (q - s) * 1_000_000 / q <= 1_000_000) by (nonlinear_arith)
            requires
                0 < s < q,
        ;
        if 2 * a == t {
            assert(q == 4 * s) by (nonlinear_arith)
                requires
                    t == 2 * a,
                    q == t * t,
                    s == a * a,
            ;
            assert((3 * s) * 1_000_000 / (4 * s) == 750_000) by (nonlinear_arith)
                requires
                    s > 0,
            ;
        }
    }
}

/// The strength of a memory never grows with time, and of two of the same age the more
/// important one is no weaker.
pub proof fn strength_never_grows(importance: i64, more: i64, age: int, later: int)
    requires
        0 <= importance <= more <= 1_000_000,
        0 <= age <= later,
    ensures
        strength_left(importance, later) <= strength_left(importance, age),
        strength_left(importance, age) <= strength_left(more, age),
{
    strength_falls_with_the_square_of_age(importance, age);
    strength_falls_with_the_square_of_age(importance, later);
    strength_falls_with_the_square_of_age(more, age);
    let a = age * 1_000_000;
    let b = later * 1_000_000;
    let t = lifetime(importance);
    let u = lifetime(more);
    assert(0 < t <= u);
    if 0 < a && b < t {
        let x = a * a;
        let y = b * b;
        let q = t * t;
        assert(0 <= x <= y && y < q) by (nonlinear_arith)
            requires
                0 < a <= b,
                b < t,
                x == a * a,
                y == b * b,
                q == t * t,
        ;
        assert((q - y) * 1_000_000 / q <= (q - x) * 1_000_000 / q) by (nonlinear_arith)
            requires
                0 <= x <= y,
                y < q,
        ;
    }
    if 0 < a && a < t {
        let x = a * a;
        let q = t * t;
        let r = u * u;
        assert(0 <= x < q && q <= r) by (nonlinear_arith)
            requires
                0 < a < t,
                t <= u,
                x == a * a,
                q == t * t,
                r == u * u,
        ;
        let f = (q - x) * 1_000_000 / q;
        let g = (r - x) * 1_000_000 / r;
        assert(f * q <= (q - x) * 1_000_000) by (nonlinear_arith)
            requires
                f == (q - x) * 1_000_000 / q,
                q > 0,
        ;
        assert((r - x) * 1_000_000 < (g + 1) * r) by (nonlinear_arith)
            requires
                g == (r - x) * 1_000_000 / r,
                r > 0,
        ;
        assert((q - x) * r <= (r - x) * q) by (nonlinear_arith)
            requires
                0 <= x,
                q <= r,
        ;
        assert(f <= g) by (nonlinear_arith)
            requires
                f * q <= (q - x) * 1_000_000,
                (r - x) * 1_000_000 < (g + 1) * r,
                (q - x) * r <= (r - x) * q,
                0 < q,
                q <= r,
        {
            assert((f * q) * r <= ((q - x) * 1_000_000) * r);
            assert(((r - x) * 1_000_000) * q < ((g + 1) * r) * q);
            assert(((q - x) * 1_000_000) * r == ((q - x) * r) * 1_000_000);
            assert(((r - x) * 1_000_000) * q == ((r - x) * q) * 1_000_000);
            assert(f * (q * r) < (g + 1) * (q * r));
        }
    }
}

/// The type of a memory is the first of the types that its tags name; else what its metadata
/// say, and else it is general.
pub proof fn type_is_the_first_that_a_tag_names(m: ItemView, i: int)
    requires
        0 <= i <= m.tags.len(),
        forall|k: int| 0 <= k < i ==> !tag_types().contains(lowercase(#[trigger] m.tags[k])),
        i < m.tags.len() ==> tag_types().contains(lowercase(m.tags[i])),
    ensures
        i < m.tags.len() ==> type_of(m) == lowercase(m.tags[i]),
        i == m.tags.len() && text_at(m.metadata, "memory_type"@) is Some ==> type_of(m) == text_at(
            m.metadata,
            "memory_type"@,
        )->0,
        i == m.tags.len() && text_at(m.metadata, "memory_type"@) is None ==> type_of(m) == "general"@,
{
    lemma_first_tag(m.tags, i, m.tags.len());
}

proof fn lemma_first_tag(tags: Seq<Seq<char>>, i: int, n: nat)
    requires
        0 <= i <= tags.len(),
        n <= tags.len(),
        forall|k: int| 0 <= k < i ==> !tag_types().contains(lowercase(#[trigger] tags[k])),
        i < tags.len() ==> tag_types().contains(lowercase(tags[i])),
    ensures
        tagged_type(tags, n) == (if i < n {
            Some(lowercase(tags[i]))
        } else {
            None
        }),
    decreases n,
{
    if n > 0 {
        lemma_first_tag(tags, i, (n - 1) as nat);
    }
}

} // verus!
