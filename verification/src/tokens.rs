//! Words of texts as the search compares them, and how much two texts share.

use crate::text::{chars_of, is_blank, list_has, lower, lowercase, same, texts, trim_chars};
use vstd::prelude::*;

verus! {

/// The pieces into which `jieba_rs` cuts a text.
pub uninterp spec fn word_cut(text: Seq<char>) -> Seq<Seq<char>>;

/// `jieba_rs::Jieba::cut` with the built-in dictionary and unknown words guessed, of
/// each of the texts: a function of the text alone. The segmentation is not spelled
/// out.
#[verifier::external_body]
fn cut_all(list: &Vec<String>) -> (r: Vec<Vec<String>>)
    ensures
        r@.len() == list@.len(),
        forall|i: int| 0 <= i < r@.len() ==> texts((#[trigger] r@[i])@) == word_cut(list@[i]@),
{
    let jieba = jieba_rs::Jieba::new();
    list.iter().map(|t| jieba.cut(t, true).iter().map(|w| w.to_string()).collect()).collect()
}

/// The words among the pieces, in lower case: those of two characters at least that
/// are not blank.
pub open spec fn words_among(pieces: Seq<Seq<char>>) -> Seq<Seq<char>>
    decreases pieces.len(),
{
    if pieces.len() == 0 {
        Seq::<Seq<char>>::empty()
    } else {
        let rest = words_among(pieces.drop_last());
        let l = lowercase(pieces.last());
        if !is_blank(l) && l.len() > 1 {
            rest.push(l)
        } else {
            rest
        }
    }
}

/// The words of a text.
pub open spec fn words_of(text: Seq<char>) -> Seq<Seq<char>> {
    words_among(word_cut(text))
}

/// The words among the pieces, in lower case.
pub fn keep_words(pieces: &Vec<String>) -> (out: Vec<String>)
    ensures
        texts(out@) == words_among(texts(pieces@)),
{
    let ghost all = texts(pieces@);
    let mut out: Vec<String> = Vec::new();
    let mut i: usize = 0;
    assert(texts(out@) =~= words_among(all.take(0)));
    while i < pieces.len()
        invariant
            i <= pieces@.len(),
            all == texts(pieces@),
            texts(out@) == words_among(all.take(i as int)),
        decreases pieces@.len() - i,
    {
        proof {
            assert(all.take(i + 1).drop_last() =~= all.take(i as int));
            assert(all.take(i + 1).last() == pieces@[i as int]@);
        }
        let l = lower(pieces[i].as_str());
        let cs = chars_of(l.as_str());
        if trim_chars(cs.as_slice()).len() > 0 && cs.len() > 1 {
            let ghost prev = texts(out@);
            let ghost t = l@;
            out.push(l);
            assert(texts(out@) =~= prev.push(t));
        }
        i += 1;
    }
    assert(all.take(i as int) =~= all);
    out
}

/// What the lists of words are.
pub open spec fn word_lists(v: Seq<Vec<String>>) -> Seq<Seq<Seq<char>>> {
    v.map_values(|w: Vec<String>| texts(w@))
}

/// The words of each of the texts.
pub fn words_of_all(list: &Vec<String>) -> (out: Vec<Vec<String>>)
    ensures
        out@.len() == list@.len(),
        forall|i: int| 0 <= i < out@.len() ==> texts((#[trigger] out@[i])@) == words_of(list@[i]@),
{
    let pieces = cut_all(list);
    let mut out: Vec<Vec<String>> = Vec::new();
    let mut i: usize = 0;
    while i < pieces.len()
        invariant
            i <= pieces@.len(),
            pieces@.len() == list@.len(),
            out@.len() == i,
            forall|k: int|
                0 <= k < pieces@.len() ==> texts((#[trigger] pieces@[k])@) == word_cut(list@[k]@),
            forall|k: int|
                0 <= k < i ==> texts((#[trigger] out@[k])@) == words_of(list@[k]@),
        decreases pieces@.len() - i,
    {
        assert(texts(pieces@[i as int]@) == word_cut(list@[i as int]@));
        out.push(keep_words(&pieces[i]));
        i += 1;
    }
    out
}

/// The words of a text.
pub fn words_of_text(text: &str) -> (out: Vec<String>)
    ensures
        texts(out@) == words_of(text@),
{
    let mut list: Vec<String> = Vec::new();
    list.push(text.to_owned());
    let mut all = words_of_all(&list);
    assert(texts(all@[0]@) == words_of(list@[0]@));
    match all.pop() {
        Some(w) => w,
        None => {
            assert(false);
            Vec::new()
        },
    }
}

/// The words without repetition, in the order of their first occurrence.
pub open spec fn distinct_words(s: Seq<Seq<char>>) -> Seq<Seq<char>>
    decreases s.len(),
{
    if s.len() == 0 {
        Seq::<Seq<char>>::empty()
    } else {
        let rest = distinct_words(s.drop_last());
        if rest.contains(s.last()) {
            rest
        } else {
            rest.push(s.last())
        }
    }
}

/// How many of the first `n` words of `a` stand in `b`.
pub open spec fn shared(a: Seq<Seq<char>>, b: Seq<Seq<char>>, n: nat) -> nat
    decreases n,
{
    if n == 0 {
        0
    } else {
        shared(a, b, (n - 1) as nat) + (if b.contains(a[n - 1]) {
            1nat
        } else {
            0nat
        })
    }
}

/// How many words stand in both lists, and how many in one of them, each word once.
pub open spec fn overlap(a: Seq<Seq<char>>, b: Seq<Seq<char>>) -> (nat, nat) {
    let x = distinct_words(a);
    let y = distinct_words(b);
    let n = shared(x, y, x.len());
    (n, (x.len() + y.len() - n) as nat)
}

proof fn lemma_shared_bound(a: Seq<Seq<char>>, b: Seq<Seq<char>>, n: nat)
    ensures
        shared(a, b, n) <= n,
    decreases n,
{
    if n > 0 {
        lemma_shared_bound(a, b, (n - 1) as nat);
    }
}

/// Repeating words changes nothing: the distinct words hold the same words.
pub proof fn distinct_words_hold_all(s: Seq<Seq<char>>)
    ensures
        forall|w: Seq<char>| #[trigger] distinct_words(s).contains(w) <==> s.contains(w),
        forall|i: int, j: int|
            0 <= i < j < distinct_words(s).len() ==> #[trigger] distinct_words(s)[i]
                != #[trigger] distinct_words(s)[j],
    decreases s.len(),
{
    if s.len() > 0 {
        let p = s.drop_last();
        distinct_words_hold_all(p);
        let rest = distinct_words(p);
        let d = distinct_words(s);
        assert forall|w: Seq<char>| #[trigger] d.contains(w) <==> s.contains(w) by {
            if s.contains(w) {
                let i = s.index_of(w);
                if i < p.len() {
                    assert(p[i] == w);
                    assert(rest.contains(w));
                    let j = rest.index_of(w);
                    assert(d[j] == w);
                } else if !rest.contains(w) {
                    assert(d[rest.len() as int] == w);
                }
            }
            if d.contains(w) {
                let i = d.index_of(w);
                if i < rest.len() {
                    assert(rest[i] == w);
                    assert(rest.contains(w));
                    assert(p.contains(w));
                    assert(s[p.index_of(w)] == w);
                } else {
                    assert(s[s.len() - 1] == w);
                }
            }
        }
        assert forall|i: int, j: int| 0 <= i < j < d.len() implies #[trigger] d[i]
            != #[trigger] d[j] by {
            if j < rest.len() {
                assert(d[i] == rest[i] && d[j] == rest[j]);
            } else {
                assert(d[i] == rest[i]);
                assert(rest.contains(rest[i]));
            }
        }
    }
}

/// The words without repetition.
pub fn distinct_of(v: &Vec<String>) -> (out: Vec<String>)
    ensures
        texts(out@) == distinct_words(texts(v@)),
{
    let ghost all = texts(v@);
    let mut out: Vec<String> = Vec::new();
    let mut i: usize = 0;
    assert(texts(out@) =~= distinct_words(all.take(0)));
    while i < v.len()
        invariant
            i <= v@.len(),
            all == texts(v@),
            texts(out@) == distinct_words(all.take(i as int)),
        decreases v@.len() - i,
    {
        proof {
            assert(all.take(i + 1).drop_last() =~= all.take(i as int));
            assert(all.take(i + 1).last() == v@[i as int]@);
        }
        if !list_has(&out, v[i].as_str()) {
            let ghost prev = texts(out@);
            out.push(v[i].clone());
            assert(texts(out@) =~= prev.push(v@[i as int]@));
        }
        i += 1;
    }
    assert(all.take(i as int) =~= all);
    out
}

/// How many words stand in both lists, and how many in one of them, each word once.
pub fn overlap_of(a: &Vec<String>, b: &Vec<String>) -> (r: (usize, u128))
    ensures
        (r.0 as nat, r.1 as nat) == overlap(texts(a@), texts(b@)),
        r.0 <= r.1,
        r.1 <= 2 * usize::MAX,
{
    let x = distinct_of(a);
    let y = distinct_of(b);
    let ghost xs = texts(x@);
    let ghost ys = texts(y@);
    let total: usize = x.len();
    let other: usize = y.len();
    let mut n: usize = 0;
    let mut i: usize = 0;
    while i < total
        invariant
            i <= total,
            total == x@.len(),
            xs == texts(x@),
            ys == texts(y@),
            n <= i,
            n == shared(xs, ys, i as nat),
        decreases total - i,
    {
        assert(xs[i as int] == x@[i as int]@);
        if list_has(&y, x[i].as_str()) {
            n += 1;
        }
        i += 1;
    }
    proof {
        lemma_shared_len(texts(a@), texts(b@));
        assert(xs.len() == x@.len() && ys.len() == y@.len());
    }
    (n, total as u128 + other as u128 - n as u128)
}

/// At most all the words of either list are shared.
proof fn lemma_shared_len(a: Seq<Seq<char>>, b: Seq<Seq<char>>)
    ensures
        ({
            let x = distinct_words(a);
            let y = distinct_words(b);
            shared(x, y, x.len()) <= x.len() && shared(x, y, x.len()) <= y.len()
        }),
{
    let x = distinct_words(a);
    let y = distinct_words(b);
    lemma_shared_bound(x, y, x.len());
    distinct_words_hold_all(a);
    lemma_shared_in(x, y, x.len());
}

proof fn lemma_shared_in(x: Seq<Seq<char>>, y: Seq<Seq<char>>, n: nat)
    requires
        n <= x.len(),
        forall|i: int, j: int| 0 <= i < j < x.len() ==> #[trigger] x[i] != #[trigger] x[j],
    ensures
        shared(x, y, n) <= y.len(),
    decreases y.len(), n,
{
    if n > 0 {
        let w = x[n - 1];
        if y.contains(w) {
            let j = y.index_of(w);
            let z = y.remove(j);
            assert forall|k: int| 0 <= k < n - 1 implies #[trigger] z.contains(x[k]) == y.contains(
                x[k],
            ) by {
                assert(x[k] != w);
                if y.contains(x[k]) {
                    let i = y.index_of(x[k]);
                    if i < j {
                        assert(z[i] == x[k]);
                    } else {
                        assert(z[i - 1] == x[k]);
                    }
                }
                if z.contains(x[k]) {
                    let i = z.index_of(x[k]);
                    if i < j {
                        assert(y[i] == x[k]);
                    } else {
                        assert(y[i + 1] == x[k]);
                    }
                }
            }
            lemma_shared_same(x, y, z, (n - 1) as nat);
            lemma_shared_in(x, z, (n - 1) as nat);
        } else {
            lemma_shared_in(x, y, (n - 1) as nat);
        }
    }
}

proof fn lemma_shared_same(x: Seq<Seq<char>>, y: Seq<Seq<char>>, z: Seq<Seq<char>>, n: nat)
    requires
        n <= x.len(),
        forall|k: int| 0 <= k < n ==> #[trigger] z.contains(x[k]) == y.contains(x[k]),
    ensures
        shared(x, y, n) == shared(x, z, n),
    decreases n,
{
    if n > 0 {
        lemma_shared_same(x, y, z, (n - 1) as nat);
        assert(z.contains(x[n - 1]) == y.contains(x[n - 1]));
    }
}

/// What two texts share: the words in both by the words in one of them, in
/// millionths; zero where one of them has none.
pub open spec fn jaccard(a: Seq<Seq<char>>, b: Seq<Seq<char>>) -> int {
    let o = overlap(a, b);
    if a.len() == 0 || b.len() == 0 || o.1 == 0 {
        0
    } else {
        (o.0 as int * 1_000_000) / (o.1 as int)
    }
}

/// What two texts share, in millionths.
pub fn jaccard_similarity(a: &Vec<String>, b: &Vec<String>) -> (r: i64)
    ensures
        r == jaccard(texts(a@), texts(b@)),
        0 <= r <= 1_000_000,
{
    assert(texts(a@).len() == a@.len() && texts(b@).len() == b@.len());
    if a.len() == 0 || b.len() == 0 {
        return 0;
    }
    let (n, all) = overlap_of(a, b);
    if all == 0 {
        return 0;
    }
    proof {
        assert(n * 1_000_000 <= all * 1_000_000) by (nonlinear_arith)
            requires
                n <= all,
        ;
        assert(0 <= (n * 1_000_000) / (all as int) <= 1_000_000) by (nonlinear_arith)
            requires
                0 <= n * 1_000_000 <= all * 1_000_000,
                all > 0,
        ;
    }
    let q: u128 = n as u128 * 1_000_000 / all;
    q as i64
}

proof fn lemma_shared_set(x: Seq<Seq<char>>, y: Seq<Seq<char>>, n: nat)
    requires
        n <= x.len(),
        forall|i: int, j: int| 0 <= i < j < x.len() ==> #[trigger] x[i] != #[trigger] x[j],
    ensures
        shared(x, y, n) == x.take(n as int).to_set().intersect(y.to_set()).len(),
    decreases n,
{
    vstd::seq_lib::seq_to_set_is_finite(x.take(n as int));
    if n == 0 {
        assert(x.take(0).to_set().intersect(y.to_set()) =~= Set::<Seq<char>>::empty());
    } else {
        lemma_shared_set(x, y, (n - 1) as nat);
        vstd::seq_lib::seq_to_set_is_finite(x.take(n - 1));
        let w = x[n - 1];
        let before = x.take(n - 1).to_set().intersect(y.to_set());
        let after = x.take(n as int).to_set().intersect(y.to_set());
        assert(x.take(n as int) =~= x.take(n - 1).push(w));
        assert(!x.take(n - 1).contains(w)) by {
            if x.take(n - 1).contains(w) {
                let k = x.take(n - 1).index_of(w);
                assert(x[k] == w);
            }
        }
        assert forall|v: Seq<char>| #[trigger]
            x.take(n as int).contains(v) == (x.take(n - 1).contains(v) || v == w) by {
            if x.take(n - 1).contains(v) {
                let k = x.take(n - 1).index_of(v);
                assert(x.take(n as int)[k] == v);
            }
            if v == w {
                assert(x.take(n as int)[n - 1] == v);
            }
            if x.take(n as int).contains(v) {
                let k = x.take(n as int).index_of(v);
                if k < n - 1 {
                    assert(x.take(n - 1)[k] == v);
                }
            }
        }
        if y.contains(w) {
            assert(after =~= before.insert(w));
        } else {
            assert(after =~= before);
        }
    }
}

/// The first number is how many words both lists have, the second how many at least one of
/// them has; a word counts once, however often it stands there.
pub proof fn overlap_counts_words(a: Seq<Seq<char>>, b: Seq<Seq<char>>)
    ensures
        overlap(a, b).0 == a.to_set().intersect(b.to_set()).len(),
        overlap(a, b).1 == a.to_set().union(b.to_set()).len(),
{
    let x = distinct_words(a);
    let y = distinct_words(b);
    distinct_words_hold_all(a);
    distinct_words_hold_all(b);
    assert(x.to_set() =~= a.to_set());
    assert(y.to_set() =~= b.to_set());
    lemma_shared_set(x, y, x.len());
    assert(x.take(x.len() as int) =~= x);
    vstd::seq_lib::seq_to_set_is_finite(a);
    vstd::seq_lib::seq_to_set_is_finite(b);
    assert(x.no_duplicates());
    assert(y.no_duplicates());
    x.unique_seq_to_set();
    y.unique_seq_to_set();
    vstd::set_lib::lemma_set_intersect_union_lens(a.to_set(), b.to_set());
}

/// How many of the words, each once, another list has.
pub proof fn shared_counts_words(a: Seq<Seq<char>>, b: Seq<Seq<char>>)
    ensures
        shared(distinct_words(a), b, distinct_words(a).len()) == a.to_set().intersect(b.to_set()).len(),
{
    let x = distinct_words(a);
    distinct_words_hold_all(a);
    assert(x.to_set() =~= a.to_set());
    lemma_shared_set(x, b, x.len());
    assert(x.take(x.len() as int) =~= x);
}

/// Two lists of words are as alike as the share of all their words that both have, in
/// millionths, rounded down: nothing where they have no word in common, one where they have
/// the same words.
pub proof fn likeness_is_the_share_of_common_words(a: Seq<Seq<char>>, b: Seq<Seq<char>>)
    ensures
        0 <= jaccard(a, b) <= 1_000_000,
        a.to_set().disjoint(b.to_set()) ==> jaccard(a, b) == 0,
        a.len() > 0 && a.to_set() == b.to_set() ==> jaccard(a, b) == 1_000_000,
        a.len() > 0 && b.len() > 0 ==> jaccard(a, b) * a.to_set().union(b.to_set()).len()
            <= a.to_set().intersect(b.to_set()).len() * 1_000_000 < (jaccard(a, b) + 1) * a.to_set().union(
            b.to_set(),
        ).len(),
{
    overlap_counts_words(a, b);
    vstd::seq_lib::seq_to_set_is_finite(a);
    vstd::seq_lib::seq_to_set_is_finite(b);
    let n = a.to_set().intersect(b.to_set()).len() as int;
    let u = a.to_set().union(b.to_set()).len() as int;
    vstd::set_lib::lemma_len_subset(a.to_set().intersect(b.to_set()), a.to_set().union(b.to_set()));
    if a.len() > 0 {
        assert(a.to_set().union(b.to_set()).contains(a[0]));
        assert(u > 0);
    }
    if a.len() > 0 && b.len() > 0 {
        let q = (n * 1_000_000) / u;
        assert(q * u <= n * 1_000_000 < (q + 1) * u && 0 <= q <= 1_000_000) by (nonlinear_arith)
            requires
                q == (n * 1_000_000) / u,
                u > 0,
                0 <= n <= u,
        ;
    }
    if a.to_set().disjoint(b.to_set()) {
        assert(a.to_set().intersect(b.to_set()) =~= Set::<Seq<char>>::empty());
        if a.len() > 0 {
            assert(0int / u == 0) by (nonlinear_arith)
                requires
                    u > 0,
            ;
        }
    }
    if a.len() > 0 && a.to_set() == b.to_set() {
        assert(b.to_set().contains(a[0]));
        assert(b.len() > 0);
        assert(a.to_set().intersect(b.to_set()) =~= a.to_set().union(b.to_set()));
        assert((u * 1_000_000) / u == 1_000_000) by (nonlinear_arith)
            requires
                u > 0,
        ;
    }
}

/// A list that has more of the words looked for and fewer others is no less alike.
pub proof fn more_common_words_are_more_alike(
    a: Seq<Seq<char>>,
    b: Seq<Seq<char>>,
    c: Seq<Seq<char>>,
)
    requires
        forall|w: Seq<char>| #[trigger] a.contains(w) && b.contains(w) ==> c.contains(w),
        forall|w: Seq<char>| #[trigger] c.contains(w) && !a.contains(w) ==> b.contains(w),
    ensures
        jaccard(a, b) <= jaccard(a, c),
{
    likeness_is_the_share_of_common_words(a, b);
    likeness_is_the_share_of_common_words(a, c);
    vstd::seq_lib::seq_to_set_is_finite(a);
    vstd::seq_lib::seq_to_set_is_finite(b);
    vstd::seq_lib::seq_to_set_is_finite(c);
    if a.len() > 0 && b.len() > 0 {
        let both = a.to_set().intersect(b.to_set());
        let also = a.to_set().intersect(c.to_set());
        let all = a.to_set().union(b.to_set());
        let fewer = a.to_set().union(c.to_set());
        if jaccard(a, b) > 0 {
            assert forall|w: Seq<char>| both.contains(w) implies also.contains(w) by {
                assert(a.contains(w) && b.contains(w));
            }
            assert forall|w: Seq<char>| fewer.contains(w) implies all.contains(w) by {
                if !a.contains(w) {
                    assert(c.contains(w) && !a.contains(w));
                }
            }
            vstd::set_lib::lemma_len_subset(both, also);
            vstd::set_lib::lemma_len_subset(fewer, all);
            assert(a.to_set().contains(a[0]));
            assert(fewer.contains(a[0]));
            if c.len() == 0 {
                if both.len() > 0 {
                    let w = both.choose();
                    assert(both.contains(w));
                    assert(c.contains(w));
                    assert(false);
                }
                assert(both =~= Set::<Seq<char>>::empty());
                assert(a.to_set().disjoint(b.to_set()));
                assert(false);
            }
            let x = jaccard(a, b);
            let y = jaccard(a, c);
            let (n, u, m, v) = (
                both.len() as int,
                all.len() as int,
                also.len() as int,
                fewer.len() as int,
            );
            assert(x <= y) by (nonlinear_arith)
                requires
                    x * u <= n * 1_000_000,
                    m * 1_000_000 < (y + 1) * v,
                    n <= m,
                    0 < v <= u,
                    0 <= x,
                    0 <= y,
            ;
        }
    }
}

} // verus!
