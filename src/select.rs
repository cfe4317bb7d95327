//! Coin selection: owned coins ordered by value, smallest first, and the shortest prefix of
//! that order that reaches a target.

use vstd::prelude::*;
use crate::ledger::{Coin, CoinId};

verus! {

/// Total value of the entries.
pub open spec fn value_sum(s: Seq<(CoinId, Coin)>) -> int
    decreases s.len(),
{
    if s.len() == 0 {
        0
    } else {
        value_sum(s.drop_last()) + s.last().1.value
    }
}

/// `s` with `x` placed after the last entry, counted from the end, whose value is at most
/// `x`'s, or first when there is none.
pub open spec fn insert_by_value(s: Seq<(CoinId, Coin)>, x: (CoinId, Coin)) -> Seq<(CoinId, Coin)>
    decreases s.len(),
{
    if s.len() == 0 {
        seq![x]
    } else if s.last().1.value <= x.1.value {
        s.push(x)
    } else {
        insert_by_value(s.drop_last(), x).push(s.last())
    }
}

/// The entries ordered by value, ascending; entries of equal value keep their order.
pub open spec fn sort_by_value(s: Seq<(CoinId, Coin)>) -> Seq<(CoinId, Coin)>
    decreases s.len(),
{
    if s.len() == 0 {
        s
    } else {
        insert_by_value(sort_by_value(s.drop_last()), s.last())
    }
}

/// `k` is the shortest prefix of `s` whose value reaches `target`.
pub open spec fn shortest_reaching(s: Seq<(CoinId, Coin)>, target: int, k: int) -> bool {
    &&& 0 <= k <= s.len()
    &&& value_sum(s.take(k)) >= target
    &&& k == 0 || value_sum(s.take(k - 1)) < target
}

pub proof fn lemma_value_sum_nonneg(s: Seq<(CoinId, Coin)>)
    ensures
        value_sum(s) >= 0,
    decreases s.len(),
{
    if s.len() > 0 {
        lemma_value_sum_nonneg(s.drop_last());
    }
}

proof fn lemma_insert_at(s: Seq<(CoinId, Coin)>, x: (CoinId, Coin), pos: int)
    requires
        0 <= pos <= s.len(),
        forall|i: int| pos <= i < s.len() ==> #[trigger] s[i].1.value > x.1.value,
        pos > 0 ==> s[pos - 1].1.value <= x.1.value,
    ensures
        insert_by_value(s, x) == s.insert(pos, x),
    decreases s.len(),
{
    if pos == s.len() {
        if s.len() == 0 {
            assert(s.insert(pos, x) =~= seq![x]);
        } else {
            assert(s.insert(pos, x) =~= s.push(x));
        }
    } else {
        let front = s.drop_last();
        assert(s[s.len() - 1].1.value > x.1.value);
        lemma_insert_at(front, x, pos);
        assert(s.insert(pos, x) =~= front.insert(pos, x).push(s.last()));
    }
}

proof fn lemma_insert_sum(s: Seq<(CoinId, Coin)>, x: (CoinId, Coin))
    ensures
        value_sum(insert_by_value(s, x)) == value_sum(s) + x.1.value,
        insert_by_value(s, x).len() == s.len() + 1,
    decreases s.len(),
{
    if s.len() == 0 {
        assert(seq![x].drop_last() =~= Seq::<(CoinId, Coin)>::empty());
        assert(value_sum(seq![x]) == value_sum(Seq::<(CoinId, Coin)>::empty()) + x.1.value);
    } else if s.last().1.value <= x.1.value {
        assert(s.push(x).drop_last() =~= s);
        assert(value_sum(s.push(x)) == value_sum(s) + x.1.value);
    } else {
        let front = s.drop_last();
        lemma_insert_sum(front, x);
        let r = insert_by_value(front, x).push(s.last());
        assert(r.drop_last() =~= insert_by_value(front, x));
        assert(r.last() == s.last());
        assert(insert_by_value(s, x) == r);
        assert(value_sum(r) == value_sum(insert_by_value(front, x)) + s.last().1.value);
        assert(value_sum(s) == value_sum(front) + s.last().1.value);
    }
}

/// Ordering by value keeps the total value and the number of entries.
pub proof fn lemma_sort_sum(s: Seq<(CoinId, Coin)>)
    ensures
        value_sum(sort_by_value(s)) == value_sum(s),
        sort_by_value(s).len() == s.len(),
    decreases s.len(),
{
    if s.len() > 0 {
        lemma_sort_sum(s.drop_last());
        lemma_insert_sum(sort_by_value(s.drop_last()), s.last());
    }
}

/// The entries ordered by value, smallest first, equal values in the order they came.
pub fn sorted_by_value(coins: &Vec<(CoinId, Coin)>) -> (r: Vec<(CoinId, Coin)>)
    ensures
        r@ == sort_by_value(coins@),
{
    let mut out: Vec<(CoinId, Coin)> = Vec::new();
    let mut i: usize = 0;
    while i < coins.len()
        invariant
            i <= coins.len(),
            out@ == sort_by_value(coins@.take(i as int)),
        decreases coins.len() - i,
    {
        let x = coins[i];
        let mut pos: usize = out.len();
        while pos > 0 && out[pos - 1].1.value > x.1.value
            invariant
                pos <= out@.len(),
                forall|j: int| pos <= j < out@.len() ==> #[trigger] out@[j].1.value > x.1.value,
            decreases pos,
        {
            pos = pos - 1;
        }
        proof {
            lemma_insert_at(out@, x, pos as int);
            assert(coins@.take(i + 1).drop_last() =~= coins@.take(i as int));
        }
        out.insert(pos, x);
        i = i + 1;
    }
    assert(coins@.take(coins@.len() as int) =~= coins@);
    out
}

/// Walk `s` from the start until the running value reaches `target`: the length of that
/// prefix and its value, or `None` when all of `s` falls short.
pub fn take_until_reached(s: &Vec<(CoinId, Coin)>, target: u64) -> (r: Option<(usize, u128)>)
    ensures
        match r {
            Some((k, total)) => shortest_reaching(s@, target as int, k as int) && total == value_sum(
                s@.take(k as int),
            ),
            None => value_sum(s@) < target,
        },
        r is Some ==> value_sum(s@) >= target,
{
    let mut acc: u128 = 0;
    let mut k: usize = 0;
    while acc < target as u128
        invariant
            k <= s@.len(),
            acc == value_sum(s@.take(k as int)),
            k == 0 || value_sum(s@.take(k - 1)) < target,
        decreases s@.len() - k,
    {
        if k == s.len() {
            assert(s@.take(k as int) =~= s@);
            return None;
        }
        proof {
            assert(s@.take(k + 1).drop_last() =~= s@.take(k as int));
        }
        acc = acc + s[k].1.value as u128;
        k = k + 1;
    }
    proof {
        lemma_prefix_sum_le(s@, k as int);
    }
    Some((k, acc))
}

/// A prefix is worth no more than the whole.
pub proof fn lemma_prefix_sum_le(s: Seq<(CoinId, Coin)>, k: int)
    requires
        0 <= k <= s.len(),
    ensures
        value_sum(s.take(k)) <= value_sum(s),
    decreases s.len(),
{
    if k == s.len() {
        assert(s.take(k) =~= s);
    } else {
        let front = s.drop_last();
        lemma_prefix_sum_le(front, k);
        assert(front.take(k) =~= s.take(k));
    }
}

} // verus!
