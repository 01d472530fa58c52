//! Selecting from lists by flags, one for each element.

use crate::types::{item_views, ItemView, MemoryItem};
use vstd::prelude::*;

verus! {

/// The elements whose flag is set, in order.
pub open spec fn kept<T>(s: Seq<T>, flags: Seq<bool>) -> Seq<T>
    decreases s.len(),
{
    if s.len() == 0 {
        Seq::<T>::empty()
    } else if flags[s.len() - 1] {
        kept(s.drop_last(), flags).push(s.last())
    } else {
        kept(s.drop_last(), flags)
    }
}

/// The number of set flags.
pub open spec fn count_set(flags: Seq<bool>) -> nat
    decreases flags.len(),
{
    if flags.len() == 0 {
        0
    } else {
        count_set(flags.drop_last()) + (if flags.last() {
            1nat
        } else {
            0nat
        })
    }
}

/// Keeping by the flags of a test is filtering by the test.
pub proof fn kept_is_filter<T>(s: Seq<T>, flags: Seq<bool>, test: spec_fn(T) -> bool)
    requires
        flags.len() >= s.len(),
        forall|i: int| 0 <= i < s.len() ==> #[trigger] flags[i] == test(s[i]),
    ensures
        kept(s, flags) == s.filter(test),
    decreases s.len(),
{
    reveal(Seq::filter);
    if s.len() > 0 {
        assert forall|i: int| 0 <= i < s.drop_last().len() implies #[trigger] flags[i] == test(
            s.drop_last()[i],
        ) by {
            assert(s.drop_last()[i] == s[i]);
        }
        kept_is_filter(s.drop_last(), flags, test);
    }
}

/// What a filter lets through is an element that passes the test.
pub proof fn filter_from<T>(s: Seq<T>, test: spec_fn(T) -> bool, i: int)
    requires
        0 <= i < s.filter(test).len(),
    ensures
        s.contains(s.filter(test)[i]),
        test(s.filter(test)[i]),
    decreases s.len(),
{
    reveal(Seq::filter);
    if s.len() > 0 {
        let rest = s.drop_last();
        if i < rest.filter(test).len() {
            filter_from(rest, test, i);
            let x = rest.filter(test)[i];
            assert(s.filter(test)[i] == x);
            assert(s[rest.index_of(x)] == x);
        } else {
            assert(s[s.len() - 1] == s.filter(test)[i]);
        }
    }
}

/// An element that passes the test comes through the filter.
pub proof fn filter_has<T>(s: Seq<T>, test: spec_fn(T) -> bool, i: int)
    requires
        0 <= i < s.len(),
        test(s[i]),
    ensures
        s.filter(test).contains(s[i]),
    decreases s.len(),
{
    reveal(Seq::filter);
    let rest = s.drop_last();
    if i < rest.len() {
        filter_has(rest, test, i);
        assert(rest[i] == s[i]);
        let k = rest.filter(test).index_of(s[i]);
        assert(s.filter(test)[k] == s[i]);
    } else {
        assert(s.filter(test)[rest.filter(test).len() as int] == s[i]);
    }
}

/// What is kept stands in the list with its flag set.
pub proof fn kept_from<T>(s: Seq<T>, flags: Seq<bool>, i: int) -> (at: int)
    requires
        0 <= i < kept(s, flags).len(),
    ensures
        0 <= at < s.len(),
        flags[at],
        s[at] == kept(s, flags)[i],
    decreases s.len(),
{
    if s.len() > 0 && i < kept(s.drop_last(), flags).len() {
        let at = kept_from(s.drop_last(), flags, i);
        at
    } else {
        s.len() - 1
    }
}

/// An element whose flag is set is kept.
pub proof fn kept_has<T>(s: Seq<T>, flags: Seq<bool>, i: int)
    requires
        0 <= i < s.len(),
        flags[i],
    ensures
        kept(s, flags).contains(s[i]),
    decreases s.len(),
{
    let rest = s.drop_last();
    if i < rest.len() {
        kept_has(rest, flags, i);
        let k = kept(rest, flags).index_of(rest[i]);
        assert(kept(s, flags)[k] == s[i]);
    } else {
        assert(kept(s, flags)[kept(rest, flags).len() as int] == s[i]);
    }
}

/// Keeping goes through a mapping of the elements.
pub proof fn kept_map<T, U>(s: Seq<T>, flags: Seq<bool>, f: spec_fn(T) -> U)
    ensures
        kept(s, flags).map_values(f) == kept(s.map_values(f), flags),
    decreases s.len(),
{
    if s.len() > 0 {
        kept_map(s.drop_last(), flags, f);
        assert(s.map_values(f).drop_last() =~= s.drop_last().map_values(f));
        if flags[s.len() - 1] {
            assert(kept(s, flags).map_values(f) =~= kept(s.drop_last(), flags).map_values(f).push(
                f(s.last()),
            ));
        }
    } else {
        assert(kept(s, flags).map_values(f) =~= kept(s.map_values(f), flags));
    }
}

/// Only the flags of the elements matter.
pub proof fn kept_prefix<T>(s: Seq<T>, a: Seq<bool>, b: Seq<bool>)
    requires
        forall|i: int| 0 <= i < s.len() ==> a[i] == b[i],
    ensures
        kept(s, a) == kept(s, b),
    decreases s.len(),
{
    if s.len() > 0 {
        kept_prefix(s.drop_last(), a, b);
    }
}

/// As many elements are kept as flags are set.
pub proof fn kept_len<T>(s: Seq<T>, flags: Seq<bool>)
    requires
        flags.len() == s.len(),
    ensures
        kept(s, flags).len() == count_set(flags),
    decreases s.len(),
{
    if s.len() > 0 {
        kept_len(s.drop_last(), flags.drop_last());
        kept_prefix(s.drop_last(), flags, flags.drop_last());
    }
}

/// The number of set flags is at most their number.
pub proof fn count_bound(flags: Seq<bool>)
    ensures
        count_set(flags) <= flags.len(),
    decreases flags.len(),
{
    if flags.len() > 0 {
        count_bound(flags.drop_last());
    }
}

/// The number of set flags.
pub fn count_flags(flags: &Vec<bool>) -> (n: usize)
    ensures
        n == count_set(flags@),
{
    let mut n: usize = 0;
    let mut i: usize = 0;
    while i < flags.len()
        invariant
            i <= flags@.len(),
            n <= i,
            n == count_set(flags@.take(i as int)),
        decreases flags@.len() - i,
    {
        assert(flags@.take(i + 1).drop_last() =~= flags@.take(i as int));
        if flags[i] {
            n += 1;
        }
        i += 1;
    }
    assert(flags@.take(i as int) =~= flags@);
    n
}

/// Copies of the memories whose flag is set.
pub fn copy_flagged(items: &[MemoryItem], flags: &Vec<bool>) -> (out: Vec<MemoryItem>)
    requires
        items@.len() == flags@.len(),
    ensures
        item_views(out@) == kept(item_views(items@), flags@),
{
    let mut out: Vec<MemoryItem> = Vec::new();
    let ghost all = item_views(items@);
    let mut i: usize = 0;
    assert(item_views(out@) =~= kept(all.take(0), flags@));
    while i < items.len()
        invariant
            i <= items@.len(),
            items@.len() == flags@.len(),
            all == item_views(items@),
            item_views(out@) == kept(all.take(i as int), flags@),
        decreases items@.len() - i,
    {
        proof {
            assert(all.take(i + 1).drop_last() =~= all.take(i as int));
            assert(all.take(i + 1).last() == items@[i as int]@);
        }
        if flags[i] {
            let ghost prev = item_views(out@);
            out.push(items[i].clone());
            assert(item_views(out@) =~= prev.push(items@[i as int]@));
        }
        i += 1;
    }
    assert(all.take(i as int) =~= all);
    out
}

/// The elements whose flag is set.
pub fn take_flagged<T>(v: Vec<T>, flags: &Vec<bool>) -> (out: Vec<T>)
    requires
        v@.len() == flags@.len(),
    ensures
        out@ == kept(v@, flags@),
{
    let ghost all = v@;
    let mut rest = v;
    let mut back: Vec<T> = Vec::new();
    let mut i: usize = rest.len();
    let ghost n = i as int;
    assert(all.take(n) =~= all);
    assert(kept(all, flags@) + back@.reverse() =~= kept(all, flags@));
    // The kept elements of the end of the list, last first.
    while i > 0
        invariant
            i <= n,
            n == all.len(),
            n == flags@.len(),
            rest@ == all.take(i as int),
            kept(all, flags@) == kept(all.take(i as int), flags@) + back@.reverse(),
        decreases i,
    {
        assert(all.take(i as int).drop_last() =~= all.take(i - 1));
        let x = match rest.pop() {
            Some(x) => x,
            None => {
                assert(false);
                vstd::pervasive::unreached()
            },
        };
        i -= 1;
        let ghost b0 = back@;
        assert(x == all[i as int]);
        if flags[i] {
            back.push(x);
            assert(kept(all.take(i as int), flags@).push(x) + b0.reverse() =~= kept(
                all.take(i as int),
                flags@,
            ) + b0.push(x).reverse());
        }
        assert(rest@ =~= all.take(i as int));
    }
    let mut out: Vec<T> = Vec::new();
    let ghost b = back@;
    let mut k: usize = back.len();
    while k > 0
        invariant
            k <= b.len(),
            back@ == b.take(k as int),
            out@ == b.reverse().take(b.len() - k),
        decreases k,
    {
        let ghost o = out@;
        match back.pop() {
            Some(x) => {
                out.push(x);
                assert(x == b[k - 1]);
                assert(b.reverse()[b.len() - k] == x);
                assert(b.reverse().take(b.len() - k + 1) =~= b.reverse().take(b.len() - k).push(x));
            },
            None => {
                assert(false);
            },
        }
        k -= 1;
        assert(back@ =~= b.take(k as int));
    }
    assert(b.reverse().take(b.len() as int) =~= b.reverse());
    assert(kept(all.take(0), flags@) + b.reverse() =~= b.reverse());
    out
}

/// Copies of the memories that pass the test.
pub fn filter_items<F: Fn(&MemoryItem) -> bool>(
    items: &[MemoryItem],
    f: F,
    Ghost(test): Ghost<spec_fn(ItemView) -> bool>,
) -> (out: Vec<MemoryItem>)
    requires
        forall|m: &MemoryItem| #[trigger] f.requires((m,)),
        forall|m: &MemoryItem, r: bool| #[trigger] f.ensures((m,), r) ==> r == test(m@),
    ensures
        item_views(out@) == item_views(items@).filter(test),
{
    let ghost all = item_views(items@);
    let mut out: Vec<MemoryItem> = Vec::new();
    let mut i: usize = 0;
    proof {
        reveal(Seq::filter);
        assert(item_views(out@) =~= all.take(0).filter(test));
    }
    while i < items.len()
        invariant
            i <= items@.len(),
            all == item_views(items@),
            forall|m: &MemoryItem| #[trigger] f.requires((m,)),
            forall|m: &MemoryItem, r: bool| #[trigger] f.ensures((m,), r) ==> r == test(m@),
            item_views(out@) == all.take(i as int).filter(test),
        decreases items@.len() - i,
    {
        proof {
            reveal(Seq::filter);
            assert(all.take(i + 1).drop_last() =~= all.take(i as int));
            assert(all.take(i + 1).last() == items@[i as int]@);
        }
        if f(&items[i]) {
            let ghost prev = item_views(out@);
            out.push(items[i].clone());
            assert(item_views(out@) =~= prev.push(items@[i as int]@));
        }
        i += 1;
    }
    assert(all.take(i as int) =~= all);
    out
}

/// How many memories pass the test.
pub fn count_items<F: Fn(&MemoryItem) -> bool>(
    items: &[MemoryItem],
    f: F,
    Ghost(test): Ghost<spec_fn(ItemView) -> bool>,
) -> (n: usize)
    requires
        forall|m: &MemoryItem| #[trigger] f.requires((m,)),
        forall|m: &MemoryItem, r: bool| #[trigger] f.ensures((m,), r) ==> r == test(m@),
    ensures
        n == item_views(items@).filter(test).len(),
{
    let ghost all = item_views(items@);
    let mut n: usize = 0;
    let mut i: usize = 0;
    proof {
        reveal(Seq::filter);
        assert(all.take(0).filter(test) =~= Seq::<ItemView>::empty());
    }
    while i < items.len()
        invariant
            i <= items@.len(),
            n <= i,
            all == item_views(items@),
            forall|m: &MemoryItem| #[trigger] f.requires((m,)),
            forall|m: &MemoryItem, r: bool| #[trigger] f.ensures((m,), r) ==> r == test(m@),
            n == all.take(i as int).filter(test).len(),
        decreases items@.len() - i,
    {
        proof {
            reveal(Seq::filter);
            assert(all.take(i + 1).drop_last() =~= all.take(i as int));
            assert(all.take(i + 1).last() == items@[i as int]@);
        }
        if f(&items[i]) {
            n += 1;
        }
        i += 1;
    }
    assert(all.take(i as int) =~= all);
    n
}

} // verus!
