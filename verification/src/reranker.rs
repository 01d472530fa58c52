//! Second ranking of found memories by a model that reads query and memory
//! together.

use crate::qdrant::{base_address, without_slashes};
use crate::text::{blank, is_blank, trim, trimmed};
use crate::types::{MemoryItem, ONE};
use vstd::prelude::*;
use vstd::string::*;

verus! {

/// Number of memories that are sent at a time.
pub const RERANK_MAX_DOCS_PER_CALL: usize = 32;

/// Largest number of requests at a time.
pub const RERANK_MAX_CONCURRENCY: usize = 2;

/// The model unless another one is named.
pub const DEFAULT_RERANK_MODEL: &'static str = "bge-reranker-v2-m3";

/// The smallest of the scores.
pub open spec fn lowest(s: Seq<i64>) -> i64
    decreases s.len(),
{
    if s.len() <= 1 {
        if s.len() == 1 {
            s[0]
        } else {
            0
        }
    } else {
        let m = lowest(s.drop_last());
        if s.last() < m {
            s.last()
        } else {
            m
        }
    }
}

/// The largest of the scores.
pub open spec fn highest(s: Seq<i64>) -> i64
    decreases s.len(),
{
    if s.len() <= 1 {
        if s.len() == 1 {
            s[0]
        } else {
            0
        }
    } else {
        let m = highest(s.drop_last());
        if s.last() > m {
            s.last()
        } else {
            m
        }
    }
}

/// A score on the scale from the lowest to the highest, in millionths; zero where
/// all scores are equal.
pub open spec fn scaled(x: i64, low: i64, high: i64) -> int {
    if high == low {
        0
    } else {
        (x - low) * ONE / (high - low)
    }
}

proof fn lemma_bounds(s: Seq<i64>)
    ensures
        forall|i: int| 0 <= i < s.len() ==> lowest(s) <= #[trigger] s[i] <= highest(s),
        s.len() > 0 ==> s.contains(lowest(s)) && s.contains(highest(s)),
    decreases s.len(),
{
    if s.len() > 1 {
        lemma_bounds(s.drop_last());
        assert forall|i: int| 0 <= i < s.len() implies lowest(s) <= #[trigger] s[i] <= highest(
            s,
        ) by {
            if i < s.len() - 1 {
                assert(s.drop_last()[i] == s[i]);
            }
        }
        let lo = lowest(s.drop_last());
        let hi = highest(s.drop_last());
        assert(s[s.drop_last().index_of(lo)] == lo);
        assert(s[s.drop_last().index_of(hi)] == hi);
        assert(s[s.len() - 1] == s.last());
    } else if s.len() == 1 {
        assert(s[0] == lowest(s));
    }
}

/// Scores on a scale from zero to one, the lowest at zero and the highest at one.
pub fn normalize_scores(scores: Vec<i64>) -> (out: Vec<i64>)
    ensures
        out@.len() == scores@.len(),
        forall|i: int|
            0 <= i < out@.len() ==> #[trigger] out@[i] == scaled(
                scores@[i],
                lowest(scores@),
                highest(scores@),
            ),
        forall|i: int| 0 <= i < out@.len() ==> 0 <= #[trigger] out@[i] <= ONE,
{
    let mut out: Vec<i64> = Vec::new();
    if scores.len() == 0 {
        return out;
    }
    let mut low: i64 = scores[0];
    let mut high: i64 = scores[0];
    let mut i: usize = 1;
    assert(scores@.take(1).len() == 1);
    while i < scores.len()
        invariant
            1 <= i <= scores@.len(),
            low == lowest(scores@.take(i as int)),
            high == highest(scores@.take(i as int)),
        decreases scores@.len() - i,
    {
        assert(scores@.take(i + 1).drop_last() =~= scores@.take(i as int));
        assert(scores@.take(i + 1).last() == scores@[i as int]);
        if scores[i] < low {
            low = scores[i];
        }
        if scores[i] > high {
            high = scores[i];
        }
        i += 1;
    }
    assert(scores@.take(i as int) =~= scores@);
    proof {
        lemma_bounds(scores@);
    }
    let range: i128 = high as i128 - low as i128;
    let mut k: usize = 0;
    while k < scores.len()
        invariant
            k <= scores@.len(),
            out@.len() == k,
            low == lowest(scores@),
            high == highest(scores@),
            range == high - low,
            forall|j: int| 0 <= j < scores@.len() ==> low <= #[trigger] scores@[j] <= high,
            forall|j: int|
                0 <= j < k ==> #[trigger] out@[j] == scaled(
                    scores@[j],
                    lowest(scores@),
                    highest(scores@),
                ),
            forall|j: int| 0 <= j < k ==> 0 <= #[trigger] out@[j] <= ONE,
        decreases scores@.len() - k,
    {
        let x: i64 = scores[k];
        assert(low <= scores@[k as int] <= high);
        if range == 0 {
            out.push(0);
        } else {
            let d: i128 = x as i128 - low as i128;
            proof {
                assert(0 <= d * 1_000_000 <= range * 1_000_000) by (nonlinear_arith)
                    requires
                        0 <= d <= range,
                ;
                assert(0 <= (d * 1_000_000) / (range as int) <= 1_000_000) by (nonlinear_arith)
                    requires
                        0 <= d * 1_000_000 <= range * 1_000_000,
                        range > 0,
                ;
            }
            let q: i128 = d * 1_000_000 / range;
            out.push(q as i64);
        }
        k += 1;
    }
    out
}

/// The lowest score goes to zero, the highest to one, and a higher score never
/// goes below a lower one.
pub proof fn normalizing_keeps_order(a: i64, b: i64, low: i64, high: i64)
    requires
        low <= a <= b <= high,
    ensures
        scaled(a, low, high) <= scaled(b, low, high),
        scaled(low, low, high) == 0,
        low < high ==> scaled(high, low, high) == ONE,
{
    if low < high {
        let r = high - low;
        assert((a - low) * ONE <= (b - low) * ONE) by (nonlinear_arith)
            requires
                a <= b,
        ;
        vstd::arithmetic::div_mod::lemma_div_is_ordered((a - low) * ONE, (b - low) * ONE, r);
        assert((high - low) * ONE / r == ONE) by (nonlinear_arith)
            requires
                r == high - low,
                r > 0,
        ;
    }
}

/// Keeps the order in which the memories were found.
pub struct NoopReranker;

impl NoopReranker {
    pub fn name(&self) -> (r: &'static str)
        ensures
            r@ == "noop"@,
    {
        "noop"
    }

    /// Whether the scores come from a model.
    pub fn is_active(&self) -> (r: bool)
        ensures
            !r,
    {
        false
    }

    /// Scores that fall from one by equal steps, as numerators over the number of
    /// memories: the first memory scores highest.
    pub fn rerank(&self, docs: &Vec<MemoryItem>) -> (out: Vec<usize>)
        ensures
            out@.len() == docs@.len(),
            forall|i: int| 0 <= i < out@.len() ==> #[trigger] out@[i] == docs@.len() - i,
    {
        let n: usize = docs.len();
        let mut out: Vec<usize> = Vec::new();
        let mut i: usize = 0;
        while i < n
            invariant
                i <= n,
                n == docs@.len(),
                out@.len() == i,
                forall|k: int| 0 <= k < i ==> #[trigger] out@[k] == n - k,
            decreases n - i,
        {
            out.push(n - i);
            i += 1;
        }
        out
    }
}

/// The last score that the model gave for a position; zero where it gave none.
pub open spec fn placed(results: Seq<(u64, i64)>, pos: int) -> i64
    decreases results.len(),
{
    if results.len() == 0 {
        0
    } else if results.last().0 == pos {
        results.last().1
    } else {
        placed(results.drop_last(), pos)
    }
}

/// The scores of `n` memories from a reply that gives them by position.
pub fn place_scores(n: usize, results: &Vec<(u64, i64)>) -> (out: Vec<i64>)
    ensures
        out@.len() == n,
        forall|k: int| 0 <= k < n ==> #[trigger] out@[k] == placed(results@, k),
{
    let mut out: Vec<i64> = Vec::new();
    let mut i: usize = 0;
    while i < n
        invariant
            i <= n,
            out@.len() == i,
            forall|k: int| 0 <= k < i ==> #[trigger] out@[k] == 0,
        decreases n - i,
    {
        out.push(0);
        i += 1;
    }
    let mut j: usize = 0;
    assert(results@.take(0).len() == 0);
    while j < results.len()
        invariant
            j <= results@.len(),
            out@.len() == n,
            forall|k: int| 0 <= k < n ==> #[trigger] out@[k] == placed(results@.take(j as int), k),
        decreases results@.len() - j,
    {
        let (pos, score) = results[j];
        let ghost before = out@;
        proof {
            assert(results@.take(j + 1).drop_last() =~= results@.take(j as int));
            assert(results@.take(j + 1).last() == results@[j as int]);
        }
        if pos < n as u64 {
            out.set(pos as usize, score);
        }
        assert forall|k: int| 0 <= k < n implies #[trigger] out@[k] == placed(
            results@.take(j + 1),
            k,
        ) by {
            assert(before[k] == placed(results@.take(j as int), k));
        }
        j += 1;
    }
    assert(results@.take(j as int) =~= results@);
    out
}

/// Copies of the contents that are sent.
pub fn documents_for_call(docs: &Vec<MemoryItem>) -> (out: Vec<String>)
    ensures
        out@.len() == (if docs@.len() < RERANK_MAX_DOCS_PER_CALL {
            docs@.len()
        } else {
            RERANK_MAX_DOCS_PER_CALL as nat
        }),
        forall|i: int| 0 <= i < out@.len() ==> (#[trigger] out@[i])@ == docs@[i]@.content,
{
    let n: usize = if docs.len() < RERANK_MAX_DOCS_PER_CALL {
        docs.len()
    } else {
        RERANK_MAX_DOCS_PER_CALL
    };
    let mut out: Vec<String> = Vec::new();
    let mut i: usize = 0;
    while i < n
        invariant
            i <= n <= docs@.len(),
            out@.len() == i,
            forall|k: int| 0 <= k < i ==> (#[trigger] out@[k])@ == docs@[k]@.content,
        decreases n - i,
    {
        out.push(docs[i].content.clone());
        i += 1;
    }
    out
}

/// Which ranking to use.
#[derive(Debug)]
pub enum RerankerChoice {
    /// Keep the order.
    Noop,
    /// Ask the service at the endpoint for that model.
    Ollama { endpoint: String, model: String },
}

/// The ranking for a configuration: the service where it is switched on and has an
/// endpoint.
pub fn build_reranker(enabled: bool, endpoint: &str, model: &str) -> (r: RerankerChoice)
    ensures
        match r {
            RerankerChoice::Noop => !enabled || is_blank(endpoint@),
            RerankerChoice::Ollama { endpoint: e, model: m } => enabled && !is_blank(endpoint@)
                && e@ == without_slashes(trim(endpoint@)) && m@ == (if is_blank(model@) {
                DEFAULT_RERANK_MODEL@
            } else {
                model@
            }),
        },
{
    if !enabled || blank(endpoint) {
        return RerankerChoice::Noop;
    }
    let m: String = if blank(model) {
        DEFAULT_RERANK_MODEL.to_owned()
    } else {
        model.to_owned()
    };
    let e = trimmed(endpoint);
    RerankerChoice::Ollama { endpoint: base_address(e.as_str()), model: m }
}

} // verus!
