//! Putting rows in order without moving them.
//!
//! Rows are ranked by sorting their indices, so a sort never copies a command and a tie can be
//! broken by the index itself. An order in which no two indices tie has exactly one arrangement
//! of any set of indices, which is what lets the rest of the crate speak of *the* order of
//! something and leave the sorting to [`arrange`].

use vstd::prelude::*;
use vstd::slice::slice_subrange;

verus! {

/// A vector of indices as mathematical integers.
pub open spec fn indices(v: Seq<usize>) -> Seq<int> {
    v.map_values(|i: usize| i as int)
}

/// A strict order on the members in which any two of them are comparable.
pub open spec fn strict_order(
    member: spec_fn(int) -> bool,
    before: spec_fn(int, int) -> bool,
) -> bool {
    &&& forall|i: int| #[trigger] member(i) ==> !before(i, i)
    &&& forall|i: int, j: int| #[trigger]
        member(i) && #[trigger] member(j) && i != j ==> before(i, j) || before(j, i)
    &&& forall|i: int, j: int, k: int|
        member(i) && member(j) && member(k) && #[trigger] before(i, j) && #[trigger] before(j, k)
            ==> before(i, k)
}

/// `order` holds exactly the members, each before the next.
pub open spec fn arranged(
    order: Seq<int>,
    member: spec_fn(int) -> bool,
    before: spec_fn(int, int) -> bool,
) -> bool {
    &&& forall|k: int| 0 <= k < order.len() ==> member(#[trigger] order[k])
    &&& forall|i: int| #[trigger] member(i) ==> order.contains(i)
    &&& forall|a: int, b: int|
        0 <= a < b < order.len() ==> before(#[trigger] order[a], #[trigger] order[b])
}

/// The members from first to last.
pub open spec fn arrangement(
    member: spec_fn(int) -> bool,
    before: spec_fn(int, int) -> bool,
) -> Seq<int> {
    choose|order: Seq<int>| arranged(order, member, before)
}

/// Whatever is arranged is the arrangement.
pub proof fn arrangement_is_unique(
    order: Seq<int>,
    member: spec_fn(int) -> bool,
    before: spec_fn(int, int) -> bool,
)
    requires
        strict_order(member, before),
        arranged(order, member, before),
    ensures
        order == arrangement(member, before),
{
    let other = arrangement(member, before);
    assert(arranged(other, member, before));
    lemma_same_prefix(order, other, member, before, order.len() as int);
    lemma_same_prefix(other, order, member, before, other.len() as int);
    assert(order =~= other);
}

proof fn lemma_same_prefix(
    a: Seq<int>,
    b: Seq<int>,
    member: spec_fn(int) -> bool,
    before: spec_fn(int, int) -> bool,
    upto: int,
)
    requires
        strict_order(member, before),
        arranged(a, member, before),
        arranged(b, member, before),
        0 <= upto <= a.len(),
    ensures
        upto <= b.len(),
        forall|k: int| 0 <= k < upto ==> #[trigger] a[k] == b[k],
    decreases upto,
{
    if upto > 0 {
        lemma_same_prefix(a, b, member, before, upto - 1);
        let k = upto - 1;
        assert(member(a[k]));
        let m = choose|m: int| 0 <= m < b.len() && b[m] == a[k];
        assert(b.contains(a[k]));
        if m < k {
            assert(a[m] == b[m]);
            assert(before(a[m], a[k]));
            assert(false);
        }
        if m > k {
            assert(member(b[k]));
            assert(a.contains(b[k]));
            let n = choose|n: int| 0 <= n < a.len() && a[n] == b[k];
            assert(before(b[k], b[m]));
            if n < k {
                assert(b[n] == a[n]);
                assert(before(b[n], b[k]));
                assert(false);
            }
            if n == k {
                assert(before(b[k], b[m]));
                assert(false);
            }
            assert(before(a[k], a[n]));
            assert(before(b[k], a[k]));
            assert(before(a[k], b[k]));
            assert(before(a[k], a[k]));
            assert(false);
        }
    }
}

/// Any order on finitely many indices has an arrangement.
pub proof fn arrangement_exists(
    bound: nat,
    member: spec_fn(int) -> bool,
    before: spec_fn(int, int) -> bool,
)
    requires
        strict_order(member, before),
        forall|i: int| #[trigger] member(i) ==> 0 <= i < bound,
    ensures
        arranged(arrangement(member, before), member, before),
    decreases bound,
{
    if bound == 0 {
        assert(arranged(Seq::<int>::empty(), member, before));
    } else {
        let last = bound - 1;
        let fewer = |i: int| member(i) && i != last;
        arrangement_exists((bound - 1) as nat, fewer, before);
        let shorter = arrangement(fewer, before);
        if member(last) {
            let slot = insertion_slot(shorter, last, before);
            lemma_insertion_slot(shorter, last, member, before);
            let order = shorter.insert(slot, last);
            assert forall|i: int| #[trigger] member(i) implies order.contains(i) by {
                if i == last {
                    assert(order[slot] == last);
                } else {
                    assert(fewer(i));
                    let k = choose|k: int| 0 <= k < shorter.len() && shorter[k] == i;
                    if k < slot {
                        assert(order[k] == i);
                    } else {
                        assert(order[k + 1] == i);
                    }
                }
            }
            assert(arranged(order, member, before));
        } else {
            assert forall|i: int| #[trigger] member(i) implies shorter.contains(i) by {
                assert(fewer(i));
            }
            assert(arranged(shorter, member, before));
        }
    }
}

/// What is left of an arrangement when some of its members go is arranged as it was.
pub proof fn filtering_keeps_the_order(
    order: Seq<int>,
    keep: spec_fn(int) -> bool,
    member: spec_fn(int) -> bool,
    before: spec_fn(int, int) -> bool,
)
    requires
        arranged(order, member, before),
    ensures
        arranged(order.filter(keep), |i: int| member(i) && keep(i), before),
{
    lemma_filtered(order, keep, before);
    let kept = order.filter(keep);
    assert forall|k: int| 0 <= k < kept.len() implies member(#[trigger] kept[k]) && keep(
        kept[k],
    ) by {
        assert(kept.contains(kept[k]));
        let m = choose|m: int| 0 <= m < order.len() && order[m] == kept[k];
        assert(member(order[m]));
    }
}

proof fn lemma_filtered(
    order: Seq<int>,
    keep: spec_fn(int) -> bool,
    before: spec_fn(int, int) -> bool,
)
    requires
        forall|a: int, b: int|
            0 <= a < b < order.len() ==> before(#[trigger] order[a], #[trigger] order[b]),
    ensures
        forall|x: int| #[trigger]
            order.filter(keep).contains(x) <==> order.contains(x) && keep(x),
        forall|a: int, b: int|
            0 <= a < b < order.filter(keep).len() ==> before(
                #[trigger] order.filter(keep)[a],
                #[trigger] order.filter(keep)[b],
            ),
    decreases order.len(),
{
    reveal(Seq::filter);
    if order.len() > 0 {
        let rest = order.drop_last();
        let last = order.last();
        lemma_filtered(rest, keep, before);
        let shorter = rest.filter(keep);
        let kept = order.filter(keep);
        assert forall|x: int| order.contains(x) <==> rest.contains(x) || x == last by {
            if rest.contains(x) {
                let k = choose|k: int| 0 <= k < rest.len() && rest[k] == x;
                assert(order[k] == x);
            }
            if order.contains(x) {
                let k = choose|k: int| 0 <= k < order.len() && order[k] == x;
                if k < rest.len() {
                    assert(rest[k] == x);
                }
            }
            assert(order[order.len() - 1] == last);
        }
        if keep(last) {
            assert(kept == shorter.push(last));
            assert forall|x: int| kept.contains(x) <==> shorter.contains(x) || x == last by {
                if shorter.contains(x) {
                    let k = choose|k: int| 0 <= k < shorter.len() && shorter[k] == x;
                    assert(kept[k] == x);
                }
                assert(kept[kept.len() - 1] == last);
            }
            assert forall|a: int, b: int| 0 <= a < b < kept.len() implies before(
                #[trigger] kept[a],
                #[trigger] kept[b],
            ) by {
                assert(shorter.contains(shorter[a]));
                let m = choose|m: int| 0 <= m < rest.len() && rest[m] == shorter[a];
                assert(before(order[m], order[order.len() - 1]));
                if b < shorter.len() {
                    assert(before(shorter[a], shorter[b]));
                }
            }
        }
    }
}

/// An arrangement of all indices below `n` holds each once.
pub proof fn arrangement_holds_each_once(
    order: Seq<int>,
    n: nat,
    before: spec_fn(int, int) -> bool,
)
    requires
        strict_order(|i: int| 0 <= i < n, before),
        arranged(order, |i: int| 0 <= i < n, before),
    ensures
        order.len() == n,
        order.no_duplicates(),
{
    let member = |i: int| 0 <= i < n;
    assert(order.no_duplicates()) by {
        assert forall|a: int, b: int|
            0 <= a < order.len() && 0 <= b < order.len() && a != b implies order[a] != order[b] by {
            assert(member(order[a]));
            assert(!before(order[a], order[a]));
            if a < b {
                assert(before(order[a], order[b]));
            } else {
                assert(before(order[b], order[a]));
            }
        }
    }
    order.unique_seq_to_set();
    assert(order.to_set() =~= vstd::set_lib::set_int_range(0, n as int)) by {
        assert forall|i: int| order.to_set().contains(i) <==> 0 <= i < n by {
            if order.to_set().contains(i) {
                let k = choose|k: int| 0 <= k < order.len() && order[k] == i;
                assert(member(order[k]));
            }
            if 0 <= i < n {
                assert(member(i));
                assert(order.contains(i));
            }
        }
    }
    vstd::set_lib::lemma_int_range(0, n as int);
}

/// How many elements of an arrangement come before `x`.
spec fn insertion_slot(order: Seq<int>, x: int, before: spec_fn(int, int) -> bool) -> int
    decreases order.len(),
{
    if order.len() == 0 || !before(order[0], x) {
        0
    } else {
        1 + insertion_slot(order.drop_first(), x, before)
    }
}

proof fn lemma_insertion_slot(
    order: Seq<int>,
    x: int,
    member: spec_fn(int) -> bool,
    before: spec_fn(int, int) -> bool,
)
    requires
        strict_order(member, before),
        member(x),
        forall|k: int| 0 <= k < order.len() ==> member(#[trigger] order[k]) && order[k] != x,
        forall|a: int, b: int|
            0 <= a < b < order.len() ==> before(#[trigger] order[a], #[trigger] order[b]),
    ensures
        0 <= insertion_slot(order, x, before) <= order.len(),
        forall|k: int|
            0 <= k < insertion_slot(order, x, before) ==> before(#[trigger] order[k], x),
        forall|k: int|
            insertion_slot(order, x, before) <= k < order.len() ==> before(x, #[trigger] order[k]),
    decreases order.len(),
{
    if order.len() > 0 {
        assert(member(order[0]) && order[0] != x);
        let rest = order.drop_first();
        if before(order[0], x) {
            lemma_insertion_slot(rest, x, member, before);
            let slot = insertion_slot(order, x, before);
            assert forall|k: int| 0 <= k < slot implies before(#[trigger] order[k], x) by {
                if k > 0 {
                    assert(rest[k - 1] == order[k]);
                }
            }
            assert forall|k: int| slot <= k < order.len() implies before(
                x,
                #[trigger] order[k],
            ) by {
                assert(rest[k - 1] == order[k]);
            }
        } else {
            assert(before(x, order[0]));
            assert forall|k: int| 0 <= k < order.len() implies before(x, #[trigger] order[k]) by {
                if k > 0 {
                    assert(before(order[0], order[k]));
                }
            }
        }
    }
}

/// An order on indices that can be computed.
pub trait IndexOrder {
    /// Whether an index takes part.
    spec fn member(&self, i: int) -> bool;

    /// Whether one index comes before another.
    spec fn before(&self, i: int, j: int) -> bool;

    /// A number that no member reaches.
    fn bound(&self) -> (n: usize)
        ensures
            forall|i: int| #[trigger] self.member(i) ==> 0 <= i < n,
    ;

    /// Decide whether an index takes part.
    fn takes_part(&self, i: usize) -> (yes: bool)
        ensures
            yes == self.member(i as int),
    ;

    /// No two members tie.
    proof fn strict(&self)
        ensures
            strict_order(|i: int| self.member(i), |i: int, j: int| self.before(i, j)),
    ;

    /// Decide which of two members comes first.
    fn comes_before(&self, i: usize, j: usize) -> (yes: bool)
        requires
            self.member(i as int),
            self.member(j as int),
        ensures
            yes == self.before(i as int, j as int),
    ;
}

/// The members from first to last.
pub fn arrange<O: IndexOrder>(order: &O) -> (sorted: Vec<usize>)
    ensures
        indices(sorted@) == arrangement(
            |i: int| order.member(i),
            |i: int, j: int| order.before(i, j),
        ),
{
    let items = members(order);
    let sorted = sort(order, items.as_slice());
    proof {
        let member = |i: int| order.member(i);
        let before = |i: int, j: int| order.before(i, j);
        let all = indices(sorted@);
        assert forall|k: int| 0 <= k < all.len() implies member(#[trigger] all[k]) by {
            assert(items@.contains(sorted@[k]));
        }
        assert forall|i: int| #[trigger] member(i) implies all.contains(i) by {
            assert(order.member(i));
            let m = choose|m: int| 0 <= m < items@.len() && #[trigger] items@[m] == i;
            assert(sorted@.contains(items@[m]));
            let k = choose|k: int| 0 <= k < sorted@.len() && sorted@[k] == items@[m];
            assert(all[k] == i);
        }
        assert forall|a: int, b: int| 0 <= a < b < all.len() implies before(
            #[trigger] all[a],
            #[trigger] all[b],
        ) by {
            assert(order.before(sorted@[a] as int, sorted@[b] as int));
        }
        order.strict();
        assert(arranged(all, member, before));
        arrangement_is_unique(all, member, before);
    }
    sorted
}

/// The members, lowest index first.
fn members<O: IndexOrder>(order: &O) -> (items: Vec<usize>)
    ensures
        forall|k: int| 0 <= k < items@.len() ==> order.member(#[trigger] items@[k] as int),
        forall|i: int| #[trigger]
            order.member(i) ==> exists|k: int| 0 <= k < items@.len() && #[trigger] items@[k] == i,
        items@.no_duplicates(),
{
    let n: usize = order.bound();
    let mut items: Vec<usize> = Vec::new();
    let mut i: usize = 0;
    while i < n
        invariant
            i <= n,
            forall|k: int|
                0 <= k < items@.len() ==> #[trigger] items@[k] < i && order.member(
                    items@[k] as int,
                ),
            forall|j: int| #[trigger]
                order.member(j) && 0 <= j < i ==> exists|k: int|
                    0 <= k < items@.len() && #[trigger] items@[k] == j,
            items@.no_duplicates(),
        decreases n - i,
    {
        let ghost before = items@;
        if order.takes_part(i) {
            items.push(i);
        }
        proof {
            assert forall|j: int| #[trigger] order.member(j) && 0 <= j < i + 1 implies (exists|k: int|
                0 <= k < items@.len() && #[trigger] items@[k] == j) by {
                if j < i {
                    let k = choose|k: int| 0 <= k < before.len() && #[trigger] before[k] == j;
                    assert(items@[k] == j);
                } else {
                    assert(items@[before.len() as int] == j);
                }
            }
        }
        i += 1;
    }
    items
}

/// Sort indices. The result holds the same indices, each before the next.
fn sort<O: IndexOrder>(order: &O, items: &[usize]) -> (sorted: Vec<usize>)
    requires
        forall|k: int| 0 <= k < items@.len() ==> order.member(#[trigger] items@[k] as int),
        items@.no_duplicates(),
    ensures
        sorted@.len() == items@.len(),
        forall|k: int| 0 <= k < sorted@.len() ==> items@.contains(#[trigger] sorted@[k]),
        forall|k: int| 0 <= k < items@.len() ==> sorted@.contains(#[trigger] items@[k]),
        forall|a: int, b: int|
            0 <= a < b < sorted@.len() ==> order.before(
                #[trigger] sorted@[a] as int,
                #[trigger] sorted@[b] as int,
            ),
    decreases items@.len(),
{
    if items.len() <= 1 {
        let mut out: Vec<usize> = Vec::new();
        if items.len() == 1 {
            out.push(items[0]);
            assert(out@ =~= items@);
            assert(items@.contains(items@[0]));
        }
        return out;
    }
    let middle: usize = items.len() / 2;
    let first = slice_subrange(items, 0, middle);
    let second = slice_subrange(items, middle, items.len());
    proof {
        assert forall|k: int| 0 <= k < first@.len() implies order.member(
            #[trigger] first@[k] as int,
        ) by {
            assert(first@[k] == items@[k]);
        }
        assert forall|k: int| 0 <= k < second@.len() implies order.member(
            #[trigger] second@[k] as int,
        ) by {
            assert(second@[k] == items@[k + middle]);
        }
    }
    let left = sort(order, first);
    let right = sort(order, second);
    proof {
        assert forall|k: int| 0 <= k < left@.len() implies items@.contains(#[trigger] left@[k])
            && order.member(left@[k] as int) by {
            assert(first@.contains(left@[k]));
            let m = choose|m: int| 0 <= m < first@.len() && first@[m] == left@[k];
            assert(items@[m] == left@[k]);
        }
        assert forall|k: int| 0 <= k < right@.len() implies items@.contains(#[trigger] right@[k])
            && order.member(right@[k] as int) by {
            assert(second@.contains(right@[k]));
            let m = choose|m: int| 0 <= m < second@.len() && second@[m] == right@[k];
            assert(items@[m + middle] == right@[k]);
        }
        assert forall|k: int, m: int|
            0 <= k < left@.len() && 0 <= m < right@.len() implies #[trigger] left@[k]
            != #[trigger] right@[m] by {
            assert(first@.contains(left@[k]));
            assert(second@.contains(right@[m]));
            let p = choose|p: int| 0 <= p < first@.len() && first@[p] == left@[k];
            let q = choose|q: int| 0 <= q < second@.len() && second@[q] == right@[m];
            assert(items@[p] == left@[k]);
            assert(items@[q + middle] == right@[m]);
        }
    }
    let out = merge(order, &left, &right);
    proof {
        assert forall|k: int| 0 <= k < out@.len() implies items@.contains(#[trigger] out@[k]) by {
            assert(left@.contains(out@[k]) || right@.contains(out@[k]));
            if left@.contains(out@[k]) {
                let m = choose|m: int| 0 <= m < left@.len() && left@[m] == out@[k];
                assert(items@.contains(left@[m]));
            } else {
                let m = choose|m: int| 0 <= m < right@.len() && right@[m] == out@[k];
                assert(items@.contains(right@[m]));
            }
        }
        assert forall|k: int| 0 <= k < items@.len() implies out@.contains(#[trigger] items@[k]) by {
            if k < middle {
                assert(first@[k] == items@[k]);
                assert(left@.contains(first@[k]));
                let m = choose|m: int| 0 <= m < left@.len() && left@[m] == items@[k];
                assert(out@.contains(left@[m]));
            } else {
                assert(second@[k - middle] == items@[k]);
                assert(right@.contains(second@[k - middle]));
                let m = choose|m: int| 0 <= m < right@.len() && right@[m] == items@[k];
                assert(out@.contains(right@[m]));
            }
        }
    }
    out
}

/// Merge two sorted vectors with no index in common.
fn merge<O: IndexOrder>(order: &O, left: &Vec<usize>, right: &Vec<usize>) -> (out: Vec<usize>)
    requires
        forall|k: int| 0 <= k < left@.len() ==> order.member(#[trigger] left@[k] as int),
        forall|k: int| 0 <= k < right@.len() ==> order.member(#[trigger] right@[k] as int),
        forall|k: int, m: int|
            0 <= k < left@.len() && 0 <= m < right@.len() ==> #[trigger] left@[k]
                != #[trigger] right@[m],
        forall|a: int, b: int|
            0 <= a < b < left@.len() ==> order.before(
                #[trigger] left@[a] as int,
                #[trigger] left@[b] as int,
            ),
        forall|a: int, b: int|
            0 <= a < b < right@.len() ==> order.before(
                #[trigger] right@[a] as int,
                #[trigger] right@[b] as int,
            ),
        left@.len() + right@.len() <= usize::MAX,
    ensures
        out@.len() == left@.len() + right@.len(),
        forall|k: int|
            0 <= k < out@.len() ==> left@.contains(#[trigger] out@[k]) || right@.contains(out@[k]),
        forall|k: int| 0 <= k < left@.len() ==> out@.contains(#[trigger] left@[k]),
        forall|k: int| 0 <= k < right@.len() ==> out@.contains(#[trigger] right@[k]),
        forall|a: int, b: int|
            0 <= a < b < out@.len() ==> order.before(
                #[trigger] out@[a] as int,
                #[trigger] out@[b] as int,
            ),
{
    let mut out: Vec<usize> = Vec::new();
    let mut i: usize = 0;
    let mut j: usize = 0;
    while i < left.len() || j < right.len()
        invariant
            i <= left@.len(),
            j <= right@.len(),
            left@.len() + right@.len() <= usize::MAX,
            out@.len() == i + j,
            forall|k: int| 0 <= k < left@.len() ==> order.member(#[trigger] left@[k] as int),
            forall|k: int| 0 <= k < right@.len() ==> order.member(#[trigger] right@[k] as int),
            forall|k: int, m: int|
                0 <= k < left@.len() && 0 <= m < right@.len() ==> #[trigger] left@[k]
                    != #[trigger] right@[m],
            forall|a: int, b: int|
                0 <= a < b < left@.len() ==> order.before(
                    #[trigger] left@[a] as int,
                    #[trigger] left@[b] as int,
                ),
            forall|a: int, b: int|
                0 <= a < b < right@.len() ==> order.before(
                    #[trigger] right@[a] as int,
                    #[trigger] right@[b] as int,
                ),
            forall|k: int|
                0 <= k < out@.len() ==> left@.contains(#[trigger] out@[k]) || right@.contains(
                    out@[k],
                ),
            forall|k: int| 0 <= k < i ==> out@.contains(#[trigger] left@[k]),
            forall|k: int| 0 <= k < j ==> out@.contains(#[trigger] right@[k]),
            forall|a: int, b: int|
                0 <= a < b < out@.len() ==> order.before(
                    #[trigger] out@[a] as int,
                    #[trigger] out@[b] as int,
                ),
            forall|a: int, k: int|
                0 <= a < out@.len() && i <= k < left@.len() ==> order.before(
                    #[trigger] out@[a] as int,
                    #[trigger] left@[k] as int,
                ),
            forall|a: int, k: int|
                0 <= a < out@.len() && j <= k < right@.len() ==> order.before(
                    #[trigger] out@[a] as int,
                    #[trigger] right@[k] as int,
                ),
        decreases left@.len() - i + right@.len() - j,
    {
        let take_left = if i == left.len() {
            false
        } else if j == right.len() {
            true
        } else {
            order.comes_before(left[i], right[j])
        };
        let next = if take_left {
            left[i]
        } else {
            right[j]
        };
        let ghost previous = out@;
        proof {
            order.strict();
            assert(strict_order(|x: int| order.member(x), |x: int, y: int| order.before(x, y)));
            assert forall|x: int, y: int, z: int|
                order.member(x) && order.member(y) && order.member(z) && #[trigger] order.before(
                    x,
                    y,
                ) && #[trigger] order.before(y, z) implies order.before(x, z) by {
                let m = |x: int| order.member(x);
                let b = |x: int, y: int| order.before(x, y);
                assert(b(x, y) && b(y, z));
                assert(m(x) && m(y) && m(z));
                assert(b(x, z));
            }
            if i < left.len() && j < right.len() && !take_left {
                let m = |x: int| order.member(x);
                let b = |x: int, y: int| order.before(x, y);
                assert(m(left@[i as int] as int) && m(right@[j as int] as int));
                assert(b(right@[j as int] as int, left@[i as int] as int));
            }
            assert forall|k: int| i + (if take_left { 1int } else { 0int }) <= k < left@.len()
                implies order.before(next as int, #[trigger] left@[k] as int) by {
                if !take_left && k > i {
                    assert(order.before(next as int, left@[i as int] as int));
                    assert(order.before(left@[i as int] as int, left@[k] as int));
                }
            }
            assert forall|k: int| j + (if take_left { 0int } else { 1int }) <= k < right@.len()
                implies order.before(next as int, #[trigger] right@[k] as int) by {
                if take_left && k > j {
                    assert(order.before(next as int, right@[j as int] as int));
                    assert(order.before(right@[j as int] as int, right@[k] as int));
                }
            }
        }
        out.push(next);
        if take_left {
            i += 1;
        } else {
            j += 1;
        }
        proof {
            assert(out@[previous.len() as int] == next);
            assert(out@.contains(next));
            assert forall|x: usize| previous.contains(x) implies out@.contains(x) by {
                let k = choose|k: int| 0 <= k < previous.len() && previous[k] == x;
                assert(out@[k] == x);
            }
            if take_left {
                assert(left@.contains(next));
            } else {
                assert(right@.contains(next));
            }
            assert forall|k: int| 0 <= k < out@.len() implies left@.contains(#[trigger] out@[k])
                || right@.contains(out@[k]) by {
                if k < previous.len() {
                    assert(out@[k] == previous[k]);
                }
            }
            assert forall|a: int, b: int| 0 <= a < b < out@.len() implies order.before(
                #[trigger] out@[a] as int,
                #[trigger] out@[b] as int,
            ) by {
                assert(out@[a] == previous[a]);
                if b < previous.len() {
                    assert(out@[b] == previous[b]);
                }
            }
        }
    }
    out
}

} // verus!
