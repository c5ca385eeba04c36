//! Putting things in order, the newest first.
use vstd::prelude::*;

verus! {

/// `order` lists the positions of all times, each of them once: the greater time first, and among
/// equal times the position that comes first.
pub open spec fn newest_first(times: Seq<u64>, order: Seq<int>) -> bool {
    &&& order.len() == times.len()
    &&& forall|i: int| 0 <= i < order.len() ==> 0 <= #[trigger] order[i] < times.len()
    &&& forall|i: int, j: int|
        0 <= i < j < order.len() ==> before(times, #[trigger] order[i], #[trigger] order[j])
}

/// Position `a` comes before position `b`.
pub open spec fn before(times: Seq<u64>, a: int, b: int) -> bool {
    times[a] > times[b] || times[a] == times[b] && a < b
}

/// Positions as numbers.
pub open spec fn ints(positions: Seq<usize>) -> Seq<int> {
    positions.map_values(|p: usize| p as int)
}

/// No position is listed twice.
pub proof fn law_newest_first_lists_each_once(times: Seq<u64>, order: Seq<int>)
    requires
        newest_first(times, order),
    ensures
        order.no_duplicates(),
        forall|p: int| 0 <= p < times.len() ==> order.contains(p),
{
    assert forall|i: int, j: int| 0 <= i < order.len() && 0 <= j < order.len() && i != j implies order[i]
        != order[j] by {
        if i < j {
            assert(before(times, order[i], order[j]));
        } else {
            assert(before(times, order[j], order[i]));
        }
    }
    assert forall|p: int| 0 <= p < times.len() implies order.contains(p) by {
        lemma_none_missing(order, times.len(), p);
    }
}

proof fn lemma_none_missing(order: Seq<int>, n: nat, p: int)
    requires
        order.no_duplicates(),
        order.len() == n,
        forall|i: int| 0 <= i < order.len() ==> 0 <= #[trigger] order[i] < n,
        0 <= p < n,
    ensures
        order.contains(p),
{
    if !order.contains(p) {
        let all = vstd::set_lib::set_int_range(0, n as int);
        vstd::set_lib::lemma_int_range(0, n as int);
        order.unique_seq_to_set();
        let listed = order.to_set();
        assert(listed.subset_of(all.remove(p)));
        vstd::set_lib::lemma_len_subset(listed, all.remove(p));
    }
}

/// There is only one such order.
pub proof fn law_newest_first_is_unique(times: Seq<u64>, a: Seq<int>, b: Seq<int>)
    requires
        newest_first(times, a),
        newest_first(times, b),
    ensures
        a == b,
{
    law_newest_first_lists_each_once(times, a);
    law_newest_first_lists_each_once(times, b);
    assert forall|i: int| 0 <= i < a.len() implies a[i] == b[i] by {
        lemma_same_at(times, a, b, i);
    }
    assert(a =~= b);
}

proof fn lemma_same_at(times: Seq<u64>, a: Seq<int>, b: Seq<int>, i: int)
    requires
        newest_first(times, a),
        newest_first(times, b),
        a.no_duplicates(),
        b.no_duplicates(),
        forall|p: int| 0 <= p < times.len() ==> a.contains(p),
        forall|p: int| 0 <= p < times.len() ==> b.contains(p),
        0 <= i < a.len(),
    ensures
        a[i] == b[i],
    decreases i,
{
    if a[i] != b[i] {
        assert forall|k: int| 0 <= k < i implies a[k] == b[k] by {
            lemma_same_at(times, a, b, k);
        }
        assert(b.contains(a[i]));
        assert(a.contains(b[i]));
        let j = choose|j: int| 0 <= j < b.len() && b[j] == a[i];
        let k = choose|k: int| 0 <= k < a.len() && a[k] == b[i];
        assert(j > i) by {
            if j < i {
                assert(a[j] == b[j]);
            }
        }
        assert(k > i) by {
            if k < i {
                assert(a[k] == b[k]);
            }
        }
        assert(before(times, b[i], b[j]));
        assert(before(times, a[i], a[k]));
    }
}

/// The positions of some times, the newest first.
pub open spec fn newest_order(times: Seq<u64>) -> Seq<int> {
    choose|order: Seq<int>| newest_first(times, order)
}

/// Behind how many of the positions a time belongs that comes after all of them.
spec fn place(times: Seq<u64>, order: Seq<int>, t: u64) -> nat
    decreases order.len(),
{
    if order.len() == 0 || times[order.last()] >= t {
        order.len()
    } else {
        place(times, order.drop_last(), t)
    }
}

proof fn lemma_place(times: Seq<u64>, order: Seq<int>, t: u64)
    requires
        forall|i: int, j: int|
            0 <= i < j < order.len() ==> before(times, #[trigger] order[i], #[trigger] order[j]),
    ensures
        place(times, order, t) <= order.len(),
        forall|i: int|
            0 <= i < order.len() ==> (times[#[trigger] order[i]] >= t) == (i < place(
                times,
                order,
                t,
            )),
    decreases order.len(),
{
    if order.len() > 0 {
        let front = order.drop_last();
        if times[order.last()] >= t {
            assert forall|i: int| 0 <= i < order.len() implies times[#[trigger] order[i]] >= t by {
                if i < order.len() - 1 {
                    assert(before(times, order[i], order[order.len() - 1]));
                }
            }
        } else {
            lemma_place(times, front, t);
            assert forall|i: int| 0 <= i < order.len() implies (times[#[trigger] order[i]] >= t) == (
            i < place(times, order, t)) by {
                if i < order.len() - 1 {
                    assert(order[i] == front[i]);
                }
            }
        }
    }
}

proof fn lemma_newest_first_exists(times: Seq<u64>) -> (order: Seq<int>)
    ensures
        newest_first(times, order),
    decreases times.len(),
{
    if times.len() == 0 {
        Seq::empty()
    } else {
        let front = times.drop_last();
        let n = times.len() - 1;
        let sorted = lemma_newest_first_exists(front);
        assert forall|i: int, j: int| 0 <= i < j < sorted.len() implies before(
            times,
            #[trigger] sorted[i],
            #[trigger] sorted[j],
        ) by {
            assert(before(front, sorted[i], sorted[j]));
        }
        lemma_place(times, sorted, times.last());
        let k = place(times, sorted, times.last()) as int;
        let order = sorted.insert(k, n);
        assert forall|i: int, j: int| 0 <= i < j < order.len() implies before(
            times,
            #[trigger] order[i],
            #[trigger] order[j],
        ) by {
            let from = if i < k {
                i
            } else {
                i - 1
            };
            let to = if j < k {
                j
            } else {
                j - 1
            };
            if i != k {
                assert(order[i] == sorted[from]);
            }
            if j != k {
                assert(order[j] == sorted[to]);
            }
        }
        assert forall|i: int| 0 <= i < order.len() implies 0 <= #[trigger] order[i] < times.len() by {
            if i < k {
                assert(order[i] == sorted[i]);
            } else if i > k {
                assert(order[i] == sorted[i - 1]);
            }
        }
        order
    }
}

/// Any times can be put in order: `newest_order` is such an order.
pub proof fn law_newest_order(times: Seq<u64>)
    ensures
        newest_first(times, newest_order(times)),
{
    let order = lemma_newest_first_exists(times);
    assert(newest_first(times, order));
}

/// `order` lists the positions of the first `n` times, in the opposite order.
spec fn newest_last(times: Seq<u64>, order: Seq<usize>, n: int) -> bool {
    &&& order.len() == n
    &&& forall|i: int| 0 <= i < order.len() ==> 0 <= #[trigger] order[i] < n
    &&& forall|i: int, j: int|
        0 <= i < j < order.len() ==> before(times, #[trigger] order[j] as int, #[trigger] order[i] as int)
}

/// The positions of some times, the newest first.
pub fn order_newest_first(times: &Vec<u64>) -> (order: Vec<usize>)
    ensures
        newest_first(times@, ints(order@)),
        ints(order@) == newest_order(times@),
{
    // What is read from a log is mostly in order already, so that new positions go to the end.
    let mut reversed: Vec<usize> = Vec::new();
    let mut n: usize = 0;
    while n < times.len()
        invariant
            n <= times.len(),
            newest_last(times@, reversed@, n as int),
        decreases times.len() - n,
    {
        let ghost sorted = reversed@;
        let mut at: usize = n;
        while at > 0 && times[reversed[at - 1]] >= times[n]
            invariant
                n < times.len(),
                at <= n,
                newest_last(times@, reversed@, n as int),
                forall|i: int| at <= i < n ==> before(times@, #[trigger] reversed@[i] as int, n as int),
            decreases at,
        {
            at -= 1;
        }
        assert forall|i: int| 0 <= i < at implies before(
            times@,
            n as int,
            #[trigger] reversed@[i] as int,
        ) by {
            if i < at - 1 {
                assert(before(times@, reversed@[at - 1] as int, reversed@[i] as int));
            }
        }
        reversed.insert(at, n);
        assert(reversed@ =~= sorted.insert(at as int, n));
        n += 1;
    }
    let mut order: Vec<usize> = Vec::new();
    let mut k: usize = n;
    while k > 0
        invariant
            k <= n == times.len(),
            n == reversed.len(),
            order@ == reversed@.reverse().take(n - k),
        decreases k,
    {
        k -= 1;
        order.push(reversed[k]);
        assert(order@ =~= reversed@.reverse().take(n - k));
    }
    assert(order@ =~= reversed@.reverse());
    let ghost listed = ints(order@);
    assert forall|i: int, j: int| 0 <= i < j < listed.len() implies before(
        times@,
        #[trigger] listed[i],
        #[trigger] listed[j],
    ) by {
        assert(listed[i] == reversed@[n - 1 - i]);
        assert(listed[j] == reversed@[n - 1 - j]);
    }
    assert forall|i: int| 0 <= i < listed.len() implies 0 <= #[trigger] listed[i] < times.len() by {
        assert(listed[i] == reversed@[n - 1 - i]);
    }
    proof {
        law_newest_first_is_unique(times@, listed, newest_order(times@));
    }
    order
}

/// The order lists each position once; a greater time comes first, and among equal times the
/// position that comes first.
pub proof fn law_newest_order_sorts(times: Seq<u64>, i: int, j: int)
    requires
        0 <= i < j < times.len(),
    ensures
        ({
            let order = newest_order(times);
            &&& order.len() == times.len()
            &&& order.no_duplicates()
            &&& 0 <= order[i] < times.len() && 0 <= order[j] < times.len()
            &&& times[order[i]] >= times[order[j]]
            &&& times[order[i]] == times[order[j]] ==> order[i] < order[j]
        }),
{
    law_newest_order(times);
    law_newest_first_lists_each_once(times, newest_order(times));
    assert(before(times, newest_order(times)[i], newest_order(times)[j]));
}

} // verus!
