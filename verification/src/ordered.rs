//! Lists of texts in order.

use crate::text::{chars_of, same, texts};
use vstd::prelude::*;
use vstd::relations::{sorted_by, total_ordering};
use vstd::seq_lib::{lemma_sorted_unique, to_multiset_build, to_multiset_insert};

verus! {

/// `a` comes before `b` in the order of their characters.
pub open spec fn text_less(a: Seq<char>, b: Seq<char>) -> bool
    decreases a.len(),
{
    if b.len() == 0 {
        false
    } else if a.len() == 0 {
        true
    } else if a[0] != b[0] {
        (a[0] as u32) < (b[0] as u32)
    } else {
        text_less(a.skip(1), b.skip(1))
    }
}

/// Whether `a` comes before `b` in the order of their characters.
pub fn is_less(a: &[char], b: &[char]) -> (r: bool)
    ensures
        r == text_less(a@, b@),
{
    let mut i: usize = 0;
    assert(a@.skip(0) =~= a@);
    assert(b@.skip(0) =~= b@);
    while i < a.len() && i < b.len() && a[i] == b[i]
        invariant
            i <= a@.len(),
            i <= b@.len(),
            text_less(a@.skip(i as int), b@.skip(i as int)) == text_less(a@, b@),
        decreases a@.len() - i,
    {
        assert(a@.skip(i as int).skip(1) =~= a@.skip(i + 1));
        assert(b@.skip(i as int).skip(1) =~= b@.skip(i + 1));
        i += 1;
    }
    if i >= b.len() {
        false
    } else if i >= a.len() {
        true
    } else {
        (a[i] as u32) < (b[i] as u32)
    }
}

/// The texts with one more, in order and each once.
pub open spec fn with_id(s: Seq<Seq<char>>, id: Seq<char>) -> Seq<Seq<char>>
    decreases s.len(),
{
    if s.len() == 0 {
        seq![id]
    } else if s.last() == id {
        s
    } else if text_less(s.last(), id) {
        s.push(id)
    } else {
        with_id(s.drop_last(), id).push(s.last())
    }
}

proof fn lemma_with_id(s: Seq<Seq<char>>, id: Seq<char>, j: int)
    requires
        0 <= j <= s.len(),
        j > 0 ==> s[j - 1] != id && text_less(s[j - 1], id),
        forall|k: int| j <= k < s.len() ==> #[trigger] s[k] != id && !text_less(s[k], id),
    ensures
        with_id(s, id) == s.insert(j, id),
    decreases s.len(),
{
    if j < s.len() {
        assert(s[s.len() - 1] != id);
        let q = s.drop_last();
        assert forall|k: int| j <= k < q.len() implies #[trigger] q[k] != id && !text_less(
            q[k],
            id,
        ) by {
            assert(q[k] == s[k]);
        }
        lemma_with_id(q, id, j);
        assert(with_id(s, id) =~= s.insert(j, id));
    } else {
        assert(with_id(s, id) =~= s.insert(j, id));
    }
}

proof fn lemma_with_known(s: Seq<Seq<char>>, id: Seq<char>, j: int)
    requires
        0 <= j < s.len(),
        s[j] == id,
        forall|k: int| j < k < s.len() ==> #[trigger] s[k] != id && !text_less(s[k], id),
    ensures
        with_id(s, id) == s,
    decreases s.len(),
{
    if j < s.len() - 1 {
        let q = s.drop_last();
        assert(s[s.len() - 1] != id);
        assert forall|k: int| j < k < q.len() implies #[trigger] q[k] != id && !text_less(
            q[k],
            id,
        ) by {
            assert(q[k] == s[k]);
        }
        lemma_with_known(q, id, j);
        assert(q.push(s.last()) =~= s);
    }
}

/// Adds a text, in order and once.
pub fn add_id(ids: &mut Vec<String>, id: &str)
    ensures
        texts(final(ids)@) == with_id(texts(old(ids)@), id@),
{
    let ghost s = texts(ids@);
    let mut j: usize = ids.len();
    let target = chars_of(id);
    while j > 0
        invariant
            j <= ids@.len(),
            ids@ == old(ids)@,
            s == texts(ids@),
            target@ == id@,
            forall|k: int| j <= k < s.len() ==> #[trigger] s[k] != id@ && !text_less(s[k], id@),
        decreases j,
    {
        assert(s[j - 1] == ids@[j - 1]@);
        if same(ids[j - 1].as_str(), id) {
            proof {
                lemma_with_known(s, id@, j - 1);
            }
            return;
        }
        let c = chars_of(ids[j - 1].as_str());
        if is_less(c.as_slice(), target.as_slice()) {
            proof {
                lemma_with_id(s, id@, j as int);
            }
            ids.insert(j, id.to_owned());
            assert(texts(ids@) =~= s.insert(j as int, id@));
            return;
        }
        j -= 1;
    }
    proof {
        lemma_with_id(s, id@, 0);
    }
    ids.insert(0, id.to_owned());
    assert(texts(ids@) =~= s.insert(0, id@));
}

/// The texts with one more hold it and the texts that they held.
pub proof fn lemma_with_id_members(s: Seq<Seq<char>>, new: Seq<char>, id: Seq<char>)
    ensures
        with_id(s, new).contains(id) <==> s.contains(id) || id == new,
    decreases s.len(),
{
    let r = with_id(s, new);
    if s.len() == 0 {
        assert(r[0] == new);
    } else if s.last() == new {
        assert(s[s.len() - 1] == new);
    } else if text_less(s.last(), new) {
        assert(r[s.len() as int] == new);
        if s.contains(id) {
            assert(r[s.index_of(id)] == id);
        }
        if r.contains(id) && id != new {
            assert(s[r.index_of(id)] == id);
        }
    } else {
        let q = s.drop_last();
        lemma_with_id_members(q, new, id);
        let t = with_id(q, new);
        if r.contains(id) {
            let i = r.index_of(id);
            if i < t.len() {
                assert(t[i] == id);
                if id != new {
                    assert(s[q.index_of(id)] == id);
                }
            } else {
                assert(s[s.len() - 1] == id);
            }
        }
        if id == new {
            assert(t.contains(id));
            assert(r[t.index_of(id)] == id);
        }
        if s.contains(id) {
            let i = s.index_of(id);
            if i < q.len() {
                assert(q[i] == id);
                assert(r[t.index_of(id)] == id);
            } else {
                assert(r[t.len() as int] == id);
            }
        }
    }
}

/// One more text at most.
pub proof fn lemma_with_id_len(s: Seq<Seq<char>>, id: Seq<char>)
    ensures
        with_id(s, id).len() <= s.len() + 1,
    decreases s.len(),
{
    if s.len() > 0 && s.last() != id && !text_less(s.last(), id) {
        lemma_with_id_len(s.drop_last(), id);
    }
}

/// The texts in order, each once.
pub open spec fn sorted_distinct(s: Seq<Seq<char>>) -> Seq<Seq<char>>
    decreases s.len(),
{
    if s.len() == 0 {
        s
    } else {
        with_id(sorted_distinct(s.drop_last()), s.last())
    }
}

/// The texts in order, each once.
pub fn sort_dedup(v: &Vec<String>) -> (out: Vec<String>)
    ensures
        texts(out@) == sorted_distinct(texts(v@)),
{
    let ghost all = texts(v@);
    let mut out: Vec<String> = Vec::new();
    let mut i: usize = 0;
    assert(texts(out@) =~= sorted_distinct(all.take(0)));
    while i < v.len()
        invariant
            i <= v@.len(),
            all == texts(v@),
            texts(out@) == sorted_distinct(all.take(i as int)),
        decreases v@.len() - i,
    {
        proof {
            assert(all.take(i + 1).drop_last() =~= all.take(i as int));
            assert(all.take(i + 1).last() == v@[i as int]@);
        }
        add_id(&mut out, v[i].as_str());
        i += 1;
    }
    assert(all.take(i as int) =~= all);
    out
}

/// The order is strict.
pub(crate) proof fn lemma_less_irreflexive(a: Seq<char>)
    ensures
        !text_less(a, a),
    decreases a.len(),
{
    if a.len() > 0 {
        lemma_less_irreflexive(a.skip(1));
    }
}

/// Of two different texts one comes before the other.
proof fn lemma_less_total(a: Seq<char>, b: Seq<char>)
    requires
        a != b,
    ensures
        text_less(a, b) || text_less(b, a),
    decreases a.len(),
{
    if a.len() > 0 && b.len() > 0 && a[0] == b[0] {
        if a.skip(1) == b.skip(1) {
            assert(a =~= seq![a[0]] + a.skip(1));
            assert(b =~= seq![b[0]] + b.skip(1));
        }
        lemma_less_total(a.skip(1), b.skip(1));
    } else if a.len() == 0 && b.len() == 0 {
        assert(a =~= b);
    } else if a.len() > 0 && b.len() > 0 {
        vstd::utf8::char_u32_cast(a[0], a[0] as u32);
        vstd::utf8::char_u32_cast(b[0], b[0] as u32);
    }
}

proof fn lemma_less_transitive(a: Seq<char>, b: Seq<char>, c: Seq<char>)
    requires
        text_less(a, b),
        text_less(b, c),
    ensures
        text_less(a, c),
    decreases a.len(),
{
    if a.len() > 0 && b.len() > 0 && c.len() > 0 && a[0] == b[0] && b[0] == c[0] {
        lemma_less_transitive(a.skip(1), b.skip(1), c.skip(1));
    }
}

/// Every text comes before the next.
pub open spec fn is_ordered(s: Seq<Seq<char>>) -> bool {
    forall|i: int, j: int| 0 <= i < j < s.len() ==> text_less(#[trigger] s[i], #[trigger] s[j])
}

pub(crate) proof fn lemma_with_id_ordered(s: Seq<Seq<char>>, id: Seq<char>)
    requires
        is_ordered(s),
    ensures
        is_ordered(with_id(s, id)),
    decreases s.len(),
{
    let r = with_id(s, id);
    if s.len() > 0 && s.last() != id {
        if text_less(s.last(), id) {
            assert forall|i: int, j: int| 0 <= i < j < r.len() implies text_less(
                #[trigger] r[i],
                #[trigger] r[j],
            ) by {
                if j == s.len() {
                    if i < s.len() - 1 {
                        assert(text_less(s[i], s[s.len() - 1]));
                        lemma_less_transitive(s[i], s.last(), id);
                    }
                } else {
                    assert(text_less(s[i], s[j]));
                }
            }
        } else {
            let q = s.drop_last();
            assert forall|i: int, j: int| 0 <= i < j < q.len() implies text_less(
                #[trigger] q[i],
                #[trigger] q[j],
            ) by {
                assert(text_less(s[i], s[j]));
            }
            lemma_with_id_ordered(q, id);
            let t = with_id(q, id);
            lemma_less_total(s.last(), id);
            assert forall|i: int, j: int| 0 <= i < j < r.len() implies text_less(
                #[trigger] r[i],
                #[trigger] r[j],
            ) by {
                if j == t.len() {
                    assert(r[i] == t[i]);
                    lemma_with_id_members(q, id, t[i]);
                    assert(t.contains(t[i]));
                    if t[i] != id {
                        let w = q.index_of(t[i]);
                        assert(s[w] == t[i]);
                        assert(text_less(s[w], s[s.len() - 1]));
                    }
                } else {
                    assert(r[i] == t[i] && r[j] == t[j]);
                }
            }
        }
    }
}

/// Sorting gives the same texts, each once and in order.
pub proof fn sorting_orders(s: Seq<Seq<char>>)
    ensures
        is_ordered(sorted_distinct(s)),
        forall|x: Seq<char>| #[trigger] sorted_distinct(s).contains(x) <==> s.contains(x),
    decreases s.len(),
{
    if s.len() > 0 {
        let p = s.drop_last();
        sorting_orders(p);
        lemma_with_id_ordered(sorted_distinct(p), s.last());
        assert forall|x: Seq<char>| #[trigger] sorted_distinct(s).contains(x) <==> s.contains(x) by {
            lemma_with_id_members(sorted_distinct(p), s.last(), x);
            assert(sorted_distinct(p).contains(x) <==> p.contains(x));
            if s.contains(x) {
                let i = s.index_of(x);
                if i < p.len() {
                    assert(p[i] == x);
                }
            }
            if p.contains(x) {
                assert(s[p.index_of(x)] == x);
            }
            if x == s.last() {
                assert(s[s.len() - 1] == x);
            }
        }
    }
}

/// `a` does not come after `b`.
pub open spec fn text_leq() -> spec_fn(Seq<char>, Seq<char>) -> bool {
    |a: Seq<char>, b: Seq<char>| !text_less(b, a)
}

proof fn lemma_leq_total()
    ensures
        total_ordering(text_leq()),
{
    let leq = text_leq();
    assert forall|x: Seq<char>| #[trigger] leq(x, x) by {
        lemma_less_irreflexive(x);
    }
    assert forall|x: Seq<char>, y: Seq<char>| #[trigger] leq(x, y) && #[trigger] leq(y, x) implies x
        == y by {
        if x != y {
            lemma_less_total(x, y);
        }
    }
    assert forall|x: Seq<char>, y: Seq<char>| #[trigger] leq(x, y) || #[trigger] leq(y, x) by {
        if text_less(y, x) && text_less(x, y) {
            lemma_less_transitive(x, y, x);
            lemma_less_irreflexive(x);
        }
    }
    assert forall|x: Seq<char>, y: Seq<char>, z: Seq<char>| #[trigger] leq(x, y) && #[trigger] leq(
        y,
        z,
    ) implies leq(x, z) by {
        if text_less(z, x) {
            if x == y {
            } else if y == z {
            } else {
                lemma_less_total(x, y);
                lemma_less_transitive(z, x, y);
            }
        }
    }
}

/// The texts in order.
pub open spec fn in_order(s: Seq<Seq<char>>) -> Seq<Seq<char>> {
    s.sort_by(text_leq())
}

/// The texts in order.
pub fn sort_texts(v: &Vec<String>) -> (out: Vec<String>)
    ensures
        texts(out@) == in_order(texts(v@)),
{
    let ghost all = texts(v@);
    let ghost leq = text_leq();
    let mut out: Vec<String> = Vec::new();
    let mut i: usize = 0;
    proof {
        lemma_leq_total();
        assert(texts(out@) =~= all.take(0));
    }
    while i < v.len()
        invariant
            i <= v@.len(),
            all == texts(v@),
            leq == text_leq(),
            total_ordering(leq),
            sorted_by(texts(out@), leq),
            texts(out@).to_multiset() == all.take(i as int).to_multiset(),
        decreases v@.len() - i,
    {
        let id = chars_of(v[i].as_str());
        let ghost was = texts(out@);
        let mut j: usize = out.len();
        while j > 0 && is_less(id.as_slice(), chars_of(out[j - 1].as_str()).as_slice())
            invariant
                j <= out@.len(),
                was == texts(out@),
                leq == text_leq(),
                forall|k: int| j <= k < was.len() ==> text_less(id@, #[trigger] was[k]),
            decreases j,
        {
            j -= 1;
            assert(was[j as int] == out@[j as int]@);
        }
        proof {
            if j > 0 {
                assert(was[j - 1] == out@[j - 1]@);
            }
            let r = was.insert(j as int, id@);
            assert forall|a: int, b: int| 0 <= a < b < r.len() implies #[trigger] leq(r[a], r[b]) by {
                if a < j && b < j {
                    assert(leq(was[a], was[b]));
                } else if a > j {
                    assert(leq(was[a - 1], was[b - 1]));
                } else if a < j && b > j {
                    assert(leq(was[a], was[b - 1]));
                } else if a < j {
                    assert(leq(was[j - 1], id@));
                    if a < j - 1 {
                        assert(leq(was[a], was[j - 1]));
                    }
                } else {
                    let w = was[b - 1];
                    assert(text_less(id@, w));
                    if text_less(w, id@) {
                        lemma_less_transitive(id@, w, id@);
                        lemma_less_irreflexive(id@);
                    }
                }
            }
            to_multiset_insert(was, j as int, id@);
            assert(all.take(i + 1) =~= all.take(i as int).push(id@));
            to_multiset_build(all.take(i as int), id@);
        }
        out.insert(j, v[i].clone());
        assert(texts(out@) =~= was.insert(j as int, id@));
        i += 1;
    }
    proof {
        assert(all.take(i as int) =~= all);
        all.lemma_sort_by_ensures(leq);
        lemma_sorted_unique(texts(out@), all.sort_by(leq), leq);
    }
    out
}

/// The order in which texts are given does not matter.
pub proof fn sorting_ignores_order(a: Seq<Seq<char>>, b: Seq<Seq<char>>)
    requires
        a.to_multiset() == b.to_multiset(),
    ensures
        in_order(a) == in_order(b),
{
    lemma_leq_total();
    let leq = text_leq();
    a.lemma_sort_by_ensures(leq);
    b.lemma_sort_by_ensures(leq);
    lemma_sorted_unique(a.sort_by(leq), b.sort_by(leq), leq);
}

} // verus!
