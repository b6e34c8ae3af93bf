//! Ordering: the order of texts, a stable sort, and sorted lists without
//! duplicates.

use crate::text;
use vstd::prelude::*;

verus! {

// ---------------------------------------------------------------------------
// The order of texts
// ---------------------------------------------------------------------------

/// `a` stands before `b` in the order of their code points, which is the order of
/// their UTF-8 bytes.
pub open spec fn precedes(a: Seq<char>, b: Seq<char>) -> bool
    decreases b.len(),
{
    if b.len() == 0 {
        false
    } else if a.len() == 0 {
        true
    } else {
        a[0] < b[0] || (a[0] == b[0] && precedes(a.skip(1), b.skip(1)))
    }
}

/// No text stands before itself, and of two different texts one stands before the
/// other.
pub proof fn lemma_precedes_total(a: Seq<char>, b: Seq<char>)
    ensures
        a == b ==> !precedes(a, b),
        a != b ==> precedes(a, b) != precedes(b, a),
    decreases a.len(),
{
    if a.len() > 0 && b.len() > 0 && a[0] == b[0] {
        lemma_precedes_total(a.skip(1), b.skip(1));
        if a.skip(1) == b.skip(1) {
            assert(a =~= seq![a[0]] + a.skip(1));
            assert(b =~= seq![b[0]] + b.skip(1));
        }
    } else if a.len() == 0 && b.len() == 0 {
        assert(a =~= b);
    }
}

pub proof fn lemma_precedes_transitive(a: Seq<char>, b: Seq<char>, c: Seq<char>)
    requires
        precedes(a, b),
        precedes(b, c),
    ensures
        precedes(a, c),
    decreases a.len(),
{
    if a.len() > 0 && a[0] == b[0] && b[0] == c[0] {
        lemma_precedes_transitive(a.skip(1), b.skip(1), c.skip(1));
    }
}

pub proof fn lemma_precedes_weakly(a: Seq<char>, b: Seq<char>, c: Seq<char>)
    requires
        !precedes(a, b),
        !precedes(b, c),
    ensures
        !precedes(a, c),
{
    lemma_precedes_total(a, b);
    lemma_precedes_total(b, c);
    if a != b && b != c {
        lemma_precedes_transitive(c, b, a);
        lemma_precedes_total(a, c);
    }
}

proof fn lemma_precedes_behind_common(a: Seq<char>, b: Seq<char>, n: int)
    requires
        0 <= n <= a.len(),
        n <= b.len(),
        forall|i: int| 0 <= i < n ==> a[i] == b[i],
    ensures
        precedes(a, b) == precedes(a.skip(n), b.skip(n)),
    decreases n,
{
    if n > 0 {
        let (x, y) = (a.skip(1), b.skip(1));
        assert(a[0] == b[0]);
        lemma_precedes_behind_common(x, y, n - 1);
        assert(x.skip(n - 1) =~= a.skip(n));
        assert(y.skip(n - 1) =~= b.skip(n));
    } else {
        assert(a.skip(0) =~= a);
        assert(b.skip(0) =~= b);
    }
}

/// Test whether `a` stands before `b`.
pub fn text_precedes(a: &str, b: &str) -> (r: bool)
    ensures
        r == precedes(a@, b@),
{
    let x = text::chars_of(a);
    let y = text::chars_of(b);
    let mut i: usize = 0;
    while i < x.len() && i < y.len() && x[i] == y[i]
        invariant
            i <= x@.len(),
            i <= y@.len(),
            x@ == a@,
            y@ == b@,
            forall|k: int| 0 <= k < i ==> x@[k] == y@[k],
        decreases x@.len() - i,
    {
        i = i + 1;
    }
    proof {
        lemma_precedes_behind_common(a@, b@, i as int);
    }
    i < y.len() && (i >= x.len() || x[i] < y[i])
}

// ---------------------------------------------------------------------------
// A stable sort
// ---------------------------------------------------------------------------

/// A type whose values can be sorted.
pub trait Ranked: Sized {
    /// `self` has to stand before `other`.
    spec fn below(self, other: Self) -> bool;

    proof fn asymmetric(a: Self, b: Self)
        requires
            a.below(b),
        ensures
            !b.below(a),
    ;

    proof fn weakly_ordered(a: Self, b: Self, c: Self)
        requires
            !a.below(b),
            !b.below(c),
        ensures
            !a.below(c),
    ;

    fn is_below(&self, other: &Self) -> (r: bool)
        ensures
            r == self.below(*other),
    ;
}

/// The list with `x` in it, behind everything that it need not precede.
pub open spec fn inserted_by<U>(list: Seq<U>, x: U, before: spec_fn(U, U) -> bool) -> Seq<U>
    decreases list.len(),
{
    if list.len() == 0 || !before(x, list.last()) {
        list.push(x)
    } else {
        inserted_by(list.drop_last(), x, before).push(list.last())
    }
}

/// The list in the order of `before`. Items that need not precede one another keep
/// their order.
pub open spec fn sorted_by<U>(list: Seq<U>, before: spec_fn(U, U) -> bool) -> Seq<U>
    decreases list.len(),
{
    if list.len() == 0 {
        list
    } else {
        inserted_by(sorted_by(list.drop_last(), before), list.last(), before)
    }
}

/// The order of a ranked type.
pub open spec fn rank<T: Ranked>() -> spec_fn(T, T) -> bool {
    |a: T, b: T| a.below(b)
}

/// `before` can sort: it never holds both ways, and not having to precede is
/// transitive.
pub open spec fn is_order<U>(before: spec_fn(U, U) -> bool) -> bool {
    &&& forall|a: U, b: U| #[trigger] before(a, b) ==> !before(b, a)
    &&& forall|a: U, b: U, c: U|
        !(#[trigger] before(a, b)) && !(#[trigger] before(b, c)) ==> !before(a, c)
}

pub proof fn lemma_rank_is_an_order<T: Ranked>()
    ensures
        is_order(rank::<T>()),
{
    let before = rank::<T>();
    assert forall|a: T, b: T| #[trigger] before(a, b) implies !before(b, a) by {
        T::asymmetric(a, b);
    }
    assert forall|a: T, b: T, c: T|
        !(#[trigger] before(a, b)) && !(#[trigger] before(b, c)) implies !before(a, c) by {
        T::weakly_ordered(a, b, c);
    }
}

/// No item stands behind one that it has to precede.
pub open spec fn in_order<U>(list: Seq<U>, before: spec_fn(U, U) -> bool) -> bool {
    forall|i: int, j: int|
        0 <= i < j < list.len() ==> !before(#[trigger] list[j], #[trigger] list[i])
}

proof fn lemma_inserted_at<U>(list: Seq<U>, x: U, at: int, before: spec_fn(U, U) -> bool)
    requires
        0 <= at <= list.len(),
        forall|i: int| at <= i < list.len() ==> before(x, #[trigger] list[i]),
        at == 0 || !before(x, list[at - 1]),
    ensures
        inserted_by(list, x, before) == list.insert(at, x),
    decreases list.len(),
{
    if at == list.len() {
        assert(list.insert(at, x) =~= list.push(x));
    } else {
        let rest = list.drop_last();
        assert(before(x, list[list.len() - 1]));
        assert forall|i: int| at <= i < rest.len() implies before(x, #[trigger] rest[i]) by {
            assert(rest[i] == list[i]);
        }
        assert(at > 0 ==> rest[at - 1] == list[at - 1]);
        lemma_inserted_at(rest, x, at, before);
        assert(list.insert(at, x) =~= rest.insert(at, x).push(list.last()));
    }
}

/// Sort a list. The sort is stable.
pub fn sort<T: Ranked>(list: Vec<T>) -> (r: Vec<T>)
    ensures
        r@ == sorted_by(list@, rank::<T>()),
{
    let ghost all = list@;
    let mut left = list;
    let mut reversed: Vec<T> = Vec::new();
    while left.len() > 0
        invariant
            left@.len() + reversed@.len() == all.len(),
            left@ == all.take(left@.len() as int),
            reversed@ == all.skip(left@.len() as int).reverse(),
        decreases left@.len(),
    {
        let ghost n = left@.len() - 1;
        if let Some(x) = left.pop() {
            assert(x == all[n]);
            reversed.push(x);
            assert(left@ =~= all.take(n));
            assert(reversed@ =~= all.skip(n).reverse());
        }
    }
    let mut out: Vec<T> = Vec::new();
    assert(all.take(0) =~= seq![]);
    while reversed.len() > 0
        invariant
            reversed@.len() <= all.len(),
            reversed@ == all.skip(all.len() - reversed@.len()).reverse(),
            out@ == sorted_by(all.take(all.len() - reversed@.len()), rank::<T>()),
            out@.len() == all.len() - reversed@.len(),
        decreases reversed@.len(),
    {
        let ghost done = all.len() - reversed@.len();
        let ghost before = out@;
        if let Some(x) = reversed.pop() {
            assert(x == all.skip(done)[0]);
            assert(reversed@ =~= all.skip(done + 1).reverse());
            let mut at: usize = out.len();
            while at > 0 && x.is_below(&out[at - 1])
                invariant
                    at <= out@.len(),
                    forall|i: int| at <= i < out@.len() ==> x.below(#[trigger] out@[i]),
                decreases at,
            {
                at = at - 1;
            }
            proof {
                lemma_inserted_at(before, x, at as int, rank::<T>());
                let next = all.take(done + 1);
                assert(next.drop_last() =~= all.take(done));
                assert(next.last() == x);
            }
            out.insert(at, x);
        }
    }
    assert(all.take(all.len() as int) =~= all);
    out
}

proof fn lemma_inserted_keeps<U>(list: Seq<U>, x: U, before: spec_fn(U, U) -> bool)
    requires
        in_order(list, before),
        is_order(before),
    ensures
        in_order(inserted_by(list, x, before), before),
        inserted_by(list, x, before).to_multiset() == list.to_multiset().insert(x),
        inserted_by(list, x, before).len() == list.len() + 1,
    decreases list.len(),
{
    broadcast use vstd::seq_lib::group_to_multiset_ensures;

    let all = inserted_by(list, x, before);
    if list.len() == 0 || !before(x, list.last()) {
        assert forall|i: int, j: int| 0 <= i < j < all.len() implies !before(
            #[trigger] all[j],
            #[trigger] all[i],
        ) by {
            if j == list.len() {
                if i < list.len() - 1 {
                    assert(!before(list[list.len() - 1], list[i]));
                    assert(!before(x, list.last()));
                }
            } else {
                assert(all[i] == list[i] && all[j] == list[j]);
            }
        }
    } else {
        let rest = list.drop_last();
        let last = list.last();
        assert(in_order(rest, before)) by {
            assert forall|i: int, j: int| 0 <= i < j < rest.len() implies !before(
                #[trigger] rest[j],
                #[trigger] rest[i],
            ) by {
                assert(rest[i] == list[i] && rest[j] == list[j]);
            }
        }
        lemma_inserted_keeps(rest, x, before);
        let head = inserted_by(rest, x, before);
        assert(list =~= rest.push(last));
        assert(all.to_multiset() =~= list.to_multiset().insert(x));
        assert forall|i: int, j: int| 0 <= i < j < all.len() implies !before(
            #[trigger] all[j],
            #[trigger] all[i],
        ) by {
            if j < head.len() {
                assert(all[i] == head[i] && all[j] == head[j]);
            } else {
                let y = head[i];
                assert(head.contains(y));
                if y == x {
                    assert(before(x, last));
                } else {
                    assert(head.to_multiset().count(y) > 0);
                    assert(rest.contains(y));
                    let k = choose|k: int| 0 <= k < rest.len() && rest[k] == y;
                    assert(list[k] == y);
                    assert(!before(list[list.len() - 1], list[k]));
                }
            }
        }
    }
}

/// Sorting keeps the items and puts them in order.
pub proof fn law_sorting_orders_the_items<U>(list: Seq<U>, before: spec_fn(U, U) -> bool)
    requires
        is_order(before),
    ensures
        in_order(sorted_by(list, before), before),
        sorted_by(list, before).to_multiset() == list.to_multiset(),
        sorted_by(list, before).len() == list.len(),
    decreases list.len(),
{
    broadcast use vstd::seq_lib::group_to_multiset_ensures;

    if list.len() > 0 {
        let rest = list.drop_last();
        law_sorting_orders_the_items(rest, before);
        lemma_inserted_keeps(sorted_by(rest, before), list.last(), before);
        assert(list =~= rest.push(list.last()));
    }
}

/// The sorted list has the items of the list.
pub proof fn lemma_sorted_contains<U>(list: Seq<U>, before: spec_fn(U, U) -> bool, x: U)
    requires
        is_order(before),
    ensures
        sorted_by(list, before).contains(x) <==> list.contains(x),
{
    broadcast use vstd::seq_lib::group_to_multiset_ensures;

    law_sorting_orders_the_items(list, before);
    let out = sorted_by(list, before);
    assert(out.contains(x) <==> out.to_multiset().count(x) > 0);
    assert(list.contains(x) <==> list.to_multiset().count(x) > 0);
}

/// A list that is in order is its own sorted list, so sorting twice is sorting once.
pub proof fn law_sorting_keeps_sorted_lists<U>(list: Seq<U>, before: spec_fn(U, U) -> bool)
    requires
        in_order(list, before),
    ensures
        sorted_by(list, before) == list,
    decreases list.len(),
{
    if list.len() > 0 {
        let rest = list.drop_last();
        assert forall|i: int, j: int| 0 <= i < j < rest.len() implies !before(
            #[trigger] rest[j],
            #[trigger] rest[i],
        ) by {
            assert(rest[i] == list[i] && rest[j] == list[j]);
        }
        law_sorting_keeps_sorted_lists(rest, before);
        if rest.len() > 0 {
            assert(rest.last() == list[list.len() - 2]);
            assert(!before(list[list.len() - 1], list[list.len() - 2]));
        }
        assert(rest.push(list.last()) =~= list);
    }
}

/// Two lists in order with the same items are the same, if no two different items can
/// stand either way.
proof fn lemma_order_is_unique<U>(a: Seq<U>, b: Seq<U>, before: spec_fn(U, U) -> bool)
    requires
        in_order(a, before),
        in_order(b, before),
        a.to_multiset() == b.to_multiset(),
        forall|x: U, y: U|
            a.contains(x) && a.contains(y) && x != y ==> #[trigger] before(x, y) || before(y, x),
    ensures
        a == b,
    decreases a.len(),
{
    broadcast use vstd::seq_lib::group_to_multiset_ensures;

    assert(a.len() == a.to_multiset().len());
    assert(b.len() == b.to_multiset().len());
    if a.len() > 0 {
        let (x, y) = (a.last(), b.last());
        assert(a.contains(x)) by {
            assert(a[a.len() - 1] == x);
        }
        assert(b.contains(y)) by {
            assert(b[b.len() - 1] == y);
        }
        assert(a.to_multiset().count(x) > 0 && b.to_multiset().count(y) > 0);
        assert(b.contains(x) && a.contains(y));
        if x != y {
            let i = choose|i: int| 0 <= i < a.len() && a[i] == y;
            let j = choose|j: int| 0 <= j < b.len() && b[j] == x;
            assert(!before(a[a.len() - 1], a[i]));
            assert(!before(b[b.len() - 1], b[j]));
            assert(before(x, y) || before(y, x));
        }
        let (p, q) = (a.drop_last(), b.drop_last());
        assert(a =~= p.push(x));
        assert(b =~= q.push(x));
        assert(p.to_multiset().insert(x) == q.to_multiset().insert(x));
        assert(p.to_multiset() =~= p.to_multiset().insert(x).remove(x));
        assert(q.to_multiset() =~= q.to_multiset().insert(x).remove(x));
        assert forall|i: int, j: int| 0 <= i < j < p.len() implies !before(
            #[trigger] p[j],
            #[trigger] p[i],
        ) by {
            assert(p[i] == a[i] && p[j] == a[j]);
        }
        assert forall|i: int, j: int| 0 <= i < j < q.len() implies !before(
            #[trigger] q[j],
            #[trigger] q[i],
        ) by {
            assert(q[i] == b[i] && q[j] == b[j]);
        }
        assert forall|s: U, t: U| p.contains(s) && p.contains(t) && s != t implies #[trigger] before(
            s,
            t,
        ) || before(t, s) by {
            let i = choose|i: int| 0 <= i < p.len() && p[i] == s;
            let j = choose|j: int| 0 <= j < p.len() && p[j] == t;
            assert(a[i] == s && a[j] == t);
        }
        lemma_order_is_unique(p, q, before);
    } else {
        assert(a =~= b);
    }
}

/// Lists with the same items have the same sorted list, if of two different items one
/// has to precede the other.
pub proof fn law_sorting_forgets_the_order<U>(
    a: Seq<U>,
    b: Seq<U>,
    before: spec_fn(U, U) -> bool,
)
    requires
        is_order(before),
        a.to_multiset() == b.to_multiset(),
        forall|x: U, y: U|
            a.contains(x) && a.contains(y) && x != y ==> #[trigger] before(x, y) || before(y, x),
    ensures
        sorted_by(a, before) == sorted_by(b, before),
{
    broadcast use vstd::seq_lib::group_to_multiset_ensures;

    law_sorting_orders_the_items(a, before);
    law_sorting_orders_the_items(b, before);
    let p = sorted_by(a, before);
    assert forall|x: U, y: U| p.contains(x) && p.contains(y) && x != y implies #[trigger] before(
        x,
        y,
    ) || before(y, x) by {
        assert(p.to_multiset().count(x) > 0 && p.to_multiset().count(y) > 0);
        assert(a.contains(x) && a.contains(y));
    }
    lemma_order_is_unique(p, sorted_by(b, before), before);
}

proof fn lemma_inserted_maps<T, U>(
    list: Seq<T>,
    x: T,
    f: spec_fn(T) -> U,
    inner: spec_fn(T, T) -> bool,
    outer: spec_fn(U, U) -> bool,
)
    requires
        forall|a: T, b: T| #[trigger] inner(a, b) == outer(f(a), f(b)),
    ensures
        inserted_by(list, x, inner).map_values(f) == inserted_by(
            list.map_values(f),
            f(x),
            outer,
        ),
    decreases list.len(),
{
    let mapped = list.map_values(f);
    if list.len() > 0 {
        assert(inner(x, list.last()) == outer(f(x), f(list.last())));
        assert(mapped.last() == f(list.last()));
        assert(mapped.drop_last() =~= list.drop_last().map_values(f));
    }
    if list.len() == 0 || !inner(x, list.last()) {
        assert(list.push(x).map_values(f) =~= mapped.push(f(x)));
    } else {
        lemma_inserted_maps(list.drop_last(), x, f, inner, outer);
        let head = inserted_by(list.drop_last(), x, inner);
        assert(head.push(list.last()).map_values(f) =~= head.map_values(f).push(f(list.last())));
    }
}

/// Sorting commutes with a map that keeps the order.
pub proof fn lemma_sorted_maps<T, U>(
    list: Seq<T>,
    f: spec_fn(T) -> U,
    inner: spec_fn(T, T) -> bool,
    outer: spec_fn(U, U) -> bool,
)
    requires
        forall|a: T, b: T| #[trigger] inner(a, b) == outer(f(a), f(b)),
    ensures
        sorted_by(list, inner).map_values(f) == sorted_by(list.map_values(f), outer),
    decreases list.len(),
{
    let mapped = list.map_values(f);
    if list.len() > 0 {
        lemma_sorted_maps(list.drop_last(), f, inner, outer);
        lemma_inserted_maps(sorted_by(list.drop_last(), inner), list.last(), f, inner, outer);
        assert(mapped.drop_last() =~= list.drop_last().map_values(f));
        assert(mapped.last() == f(list.last()));
    } else {
        assert(sorted_by(list, inner).map_values(f) =~= mapped);
    }
}

impl Ranked for String {
    open spec fn below(self, other: Self) -> bool {
        precedes(self@, other@)
    }

    proof fn asymmetric(a: Self, b: Self) {
        lemma_precedes_total(a@, b@);
    }

    proof fn weakly_ordered(a: Self, b: Self, c: Self) {
        lemma_precedes_weakly(a@, b@, c@);
    }

    fn is_below(&self, other: &Self) -> (r: bool) {
        text_precedes(self.as_str(), other.as_str())
    }
}

// ---------------------------------------------------------------------------
// Sorted lists without duplicates
// ---------------------------------------------------------------------------

/// The texts stand in ascending order, each once.
pub open spec fn ascending(list: Seq<Seq<char>>) -> bool {
    forall|i: int, j: int|
        0 <= i < j < list.len() ==> precedes(#[trigger] list[i], #[trigger] list[j])
}

/// The two lists hold the same texts.
pub open spec fn same_members(a: Seq<Seq<char>>, b: Seq<Seq<char>>) -> bool {
    forall|x: Seq<char>| #[trigger] a.contains(x) <==> b.contains(x)
}

/// Insert a text into an ascending list, unless it is there already.
pub fn insert_distinct(list: &mut Vec<String>, item: String)
    requires
        ascending(text::views(old(list)@)),
    ensures
        ascending(text::views(final(list)@)),
        forall|x: Seq<char>| #[trigger]
            text::views(final(list)@).contains(x) <==> x == item@ || text::views(
                old(list)@,
            ).contains(x),
{
    let ghost before = text::views(list@);
    let mut at: usize = list.len();
    while at > 0 && text_precedes(item.as_str(), list[at - 1].as_str())
        invariant
            at <= list@.len(),
            before == text::views(list@),
            ascending(before),
            forall|i: int| at <= i < before.len() ==> precedes(item@, #[trigger] before[i]),
        decreases at,
    {
        at = at - 1;
    }
    if at > 0 && text::str_eq(item.as_str(), list[at - 1].as_str()) {
        assert(before[at - 1] == item@);
        return;
    }
    let ghost word = item@;
    proof {
        if at > 0 {
            lemma_precedes_total(word, before[at - 1]);
        }
    }
    list.insert(at, item);
    proof {
        let after = text::views(list@);
        assert(after =~= before.insert(at as int, word));
        assert forall|i: int, j: int| 0 <= i < j < after.len() implies precedes(
            #[trigger] after[i],
            #[trigger] after[j],
        ) by {
            if j < at {
                assert(after[i] == before[i] && after[j] == before[j]);
            } else if j == at {
                assert(after[i] == before[i]);
                if i < at - 1 {
                    lemma_precedes_transitive(before[i], before[at - 1], word);
                }
            } else if i == at {
                assert(after[j] == before[j - 1]);
            } else if i > at {
                assert(after[i] == before[i - 1] && after[j] == before[j - 1]);
            } else {
                assert(after[i] == before[i] && after[j] == before[j - 1]);
            }
        }
        assert forall|x: Seq<char>| #[trigger]
            after.contains(x) <==> x == word || before.contains(x) by {
            if after.contains(x) {
                let k = choose|k: int| 0 <= k < after.len() && after[k] == x;
                if k < at {
                    assert(before[k] == x);
                } else if k > at {
                    assert(before[k - 1] == x);
                }
            }
            if x == word {
                assert(after[at as int] == x);
            }
            if before.contains(x) {
                let k = choose|k: int| 0 <= k < before.len() && before[k] == x;
                if k < at {
                    assert(after[k] == x);
                } else {
                    assert(after[k + 1] == x);
                }
            }
        }
    }
}

/// The members of a list in ascending order, each once.
pub open spec fn ascending_list(list: Seq<Seq<char>>) -> Seq<Seq<char>> {
    choose|out: Seq<Seq<char>>| ascending(out) && #[trigger] same_members(out, list)
}

proof fn lemma_ascending_insert(list: Seq<Seq<char>>, x: Seq<char>) -> (r: Seq<Seq<char>>)
    requires
        ascending(list),
    ensures
        ascending(r),
        forall|y: Seq<char>| #[trigger] r.contains(y) <==> y == x || list.contains(y),
    decreases list.len(),
{
    if list.len() == 0 {
        let r = seq![x];
        assert(r[0] == x);
        r
    } else {
        let last = list.last();
        let rest = list.drop_last();
        lemma_precedes_total(x, last);
        assert(list[list.len() - 1] == last);
        if x == last {
            list
        } else if precedes(last, x) {
            let r = list.push(x);
            assert forall|i: int, j: int| 0 <= i < j < r.len() implies precedes(
                #[trigger] r[i],
                #[trigger] r[j],
            ) by {
                if j == list.len() && i < list.len() - 1 {
                    lemma_precedes_transitive(list[i], last, x);
                }
            }
            assert forall|y: Seq<char>| #[trigger]
                r.contains(y) <==> y == x || list.contains(y) by {
                if list.contains(y) {
                    let k = choose|k: int| 0 <= k < list.len() && list[k] == y;
                    assert(r[k] == y);
                }
                assert(r[list.len() as int] == x);
            }
            r
        } else {
            assert forall|i: int, j: int| 0 <= i < j < rest.len() implies precedes(
                #[trigger] rest[i],
                #[trigger] rest[j],
            ) by {
                assert(rest[i] == list[i] && rest[j] == list[j]);
            }
            let head = lemma_ascending_insert(rest, x);
            let r = head.push(last);
            assert forall|i: int, j: int| 0 <= i < j < r.len() implies precedes(
                #[trigger] r[i],
                #[trigger] r[j],
            ) by {
                if j == head.len() {
                    assert(head.contains(head[i]));
                    if head[i] != x {
                        let k = choose|k: int| 0 <= k < rest.len() && rest[k] == head[i];
                        assert(list[k] == head[i]);
                    }
                } else {
                    assert(r[i] == head[i] && r[j] == head[j]);
                }
            }
            assert forall|y: Seq<char>| #[trigger]
                r.contains(y) <==> y == x || list.contains(y) by {
                if r.contains(y) {
                    let k = choose|k: int| 0 <= k < r.len() && r[k] == y;
                    if k < head.len() {
                        assert(head[k] == y);
                        assert(head.contains(y));
                        if y != x {
                            let m = choose|m: int| 0 <= m < rest.len() && rest[m] == y;
                            assert(list[m] == y);
                        }
                    }
                }
                if y == x || rest.contains(y) {
                    assert(head.contains(y));
                    let k = choose|k: int| 0 <= k < head.len() && head[k] == y;
                    assert(r[k] == y);
                }
                if list.contains(y) {
                    let k = choose|k: int| 0 <= k < list.len() && list[k] == y;
                    if k < rest.len() {
                        assert(rest[k] == y);
                    }
                }
                assert(r[head.len() as int] == last);
            }
            r
        }
    }
}

proof fn lemma_ascending_list_exists(list: Seq<Seq<char>>) -> (r: Seq<Seq<char>>)
    ensures
        ascending(r),
        same_members(r, list),
    decreases list.len(),
{
    if list.len() == 0 {
        list
    } else {
        let rest = list.drop_last();
        let some = lemma_ascending_list_exists(rest);
        let r = lemma_ascending_insert(some, list.last());
        assert forall|y: Seq<char>| #[trigger] r.contains(y) <==> list.contains(y) by {
            if r.contains(y) && y != list.last() {
                assert(some.contains(y));
                let k = choose|k: int| 0 <= k < rest.len() && rest[k] == y;
                assert(list[k] == y);
            }
            if list.contains(y) {
                let k = choose|k: int| 0 <= k < list.len() && list[k] == y;
                if k < rest.len() {
                    assert(rest[k] == y);
                    assert(some.contains(y));
                }
            }
            assert(list[list.len() - 1] == list.last());
        }
        r
    }
}

/// The ascending list of a list is ascending and has its members.
pub proof fn lemma_ascending_list(list: Seq<Seq<char>>)
    ensures
        ascending(ascending_list(list)),
        same_members(ascending_list(list), list),
{
    let some = lemma_ascending_list_exists(list);
    assert(ascending(some) && same_members(some, list));
}

/// Sort texts and drop duplicates.
pub fn distinct(list: &[String]) -> (r: Vec<String>)
    ensures
        text::views(r@) == ascending_list(text::views(list@)),
        ascending(text::views(r@)),
        same_members(text::views(r@), text::views(list@)),
{
    let mut out: Vec<String> = Vec::new();
    let ghost all = text::views(list@);
    let mut i: usize = 0;
    while i < list.len()
        invariant
            i <= list@.len(),
            all == text::views(list@),
            ascending(text::views(out@)),
            same_members(text::views(out@), all.take(i as int)),
        decreases list@.len() - i,
    {
        let ghost before = text::views(out@);
        insert_distinct(&mut out, list[i].clone());
        proof {
            let after = text::views(out@);
            assert(all.take(i + 1) =~= all.take(i as int).push(all[i as int]));
            assert forall|x: Seq<char>| #[trigger]
                after.contains(x) <==> all.take(i + 1).contains(x) by {
                let (a, b) = (all.take(i as int), all.take(i + 1));
                if after.contains(x) {
                    if x == all[i as int] {
                        assert(b[i as int] == x);
                    } else {
                        assert(before.contains(x));
                        assert(a.contains(x));
                        let k = choose|k: int| 0 <= k < a.len() && a[k] == x;
                        assert(b[k] == x);
                    }
                }
                if b.contains(x) {
                    let k = choose|k: int| 0 <= k < b.len() && b[k] == x;
                    if k < i {
                        assert(a[k] == x);
                        assert(before.contains(x));
                    }
                }
            }
        }
        i = i + 1;
    }
    proof {
        assert(all.take(all.len() as int) =~= all);
        let chosen = ascending_list(all);
        lemma_ascending_list(all);
        law_members_determine_an_ascending_list(text::views(out@), chosen);
    }
    out
}

proof fn lemma_ascending_head_is_least(a: Seq<Seq<char>>, x: Seq<char>)
    requires
        ascending(a),
        a.len() > 0,
        a.contains(x),
    ensures
        x == a[0] || precedes(a[0], x),
{
}

/// An ascending list is determined by its members.
pub proof fn law_members_determine_an_ascending_list(a: Seq<Seq<char>>, b: Seq<Seq<char>>)
    requires
        ascending(a),
        ascending(b),
        same_members(a, b),
    ensures
        a == b,
    decreases a.len(),
{
    if a.len() == 0 {
        if b.len() > 0 {
            assert(b.contains(b[0]));
            assert(a.contains(b[0]));
        }
        assert(a =~= b);
    } else {
        assert(a.contains(a[0]));
        assert(b.contains(a[0]));
        assert(b.contains(b[0]));
        assert(a.contains(b[0]));
        lemma_ascending_head_is_least(a, b[0]);
        lemma_ascending_head_is_least(b, a[0]);
        lemma_precedes_total(a[0], b[0]);
        let (x, y) = (a.skip(1), b.skip(1));
        assert forall|t: Seq<char>| #[trigger] x.contains(t) <==> y.contains(t) by {
            lemma_tail_members(a, t);
            lemma_tail_members(b, t);
        }
        assert forall|i: int, j: int| 0 <= i < j < x.len() implies precedes(
            #[trigger] x[i],
            #[trigger] x[j],
        ) by {
            assert(x[i] == a[i + 1] && x[j] == a[j + 1]);
        }
        assert forall|i: int, j: int| 0 <= i < j < y.len() implies precedes(
            #[trigger] y[i],
            #[trigger] y[j],
        ) by {
            assert(y[i] == b[i + 1] && y[j] == b[j + 1]);
        }
        law_members_determine_an_ascending_list(x, y);
        assert(a =~= seq![a[0]] + x);
        assert(b =~= seq![b[0]] + y);
    }
}

proof fn lemma_tail_members(a: Seq<Seq<char>>, t: Seq<char>)
    requires
        ascending(a),
        a.len() > 0,
    ensures
        a.skip(1).contains(t) <==> a.contains(t) && t != a[0],
{
    let x = a.skip(1);
    if x.contains(t) {
        let k = choose|k: int| 0 <= k < x.len() && x[k] == t;
        assert(a[k + 1] == t);
        lemma_precedes_total(a[0], a[k + 1]);
    }
    if a.contains(t) && t != a[0] {
        let k = choose|k: int| 0 <= k < a.len() && a[k] == t;
        assert(x[k - 1] == t);
    }
}

// ---------------------------------------------------------------------------
// Stability
// ---------------------------------------------------------------------------

/// Items stand in order, and those that are in no order to each other as they stood earlier.
pub open spec fn stable_order<U>(
    list: Seq<U>,
    before: spec_fn(U, U) -> bool,
    earlier: spec_fn(U, U) -> bool,
) -> bool {
    forall|i: int, j: int|
        0 <= i < j < list.len() ==> before(#[trigger] list[i], #[trigger] list[j]) || (!before(
            list[j],
            list[i],
        ) && earlier(list[i], list[j]))
}

proof fn lemma_inserting_is_stable<U>(
    list: Seq<U>,
    x: U,
    before: spec_fn(U, U) -> bool,
    earlier: spec_fn(U, U) -> bool,
)
    requires
        is_order(before),
        stable_order(list, before, earlier),
        forall|i: int| 0 <= i < list.len() ==> earlier(#[trigger] list[i], x),
    ensures
        stable_order(inserted_by(list, x, before), before, earlier),
        forall|i: int|
            0 <= i < inserted_by(list, x, before).len() ==> inserted_by(list, x, before)[i] == x
                || list.contains(#[trigger] inserted_by(list, x, before)[i]),
    decreases list.len(),
{
    let out = inserted_by(list, x, before);
    let n = list.len() - 1;
    if list.len() == 0 || !before(x, list.last()) {
        assert forall|i: int, j: int| 0 <= i < j < out.len() implies before(
            #[trigger] out[i],
            #[trigger] out[j],
        ) || (!before(out[j], out[i]) && earlier(out[i], out[j])) by {
            if j == list.len() {
                assert(earlier(list[i], x));
                if i < n {
                    assert(before(list[i], list[n]) || !before(list[n], list[i]));
                    assert(!before(list[n], list[i]));
                    assert(!before(x, list[n]));
                    assert(!before(x, list[i]));
                }
            } else {
                assert(out[i] == list[i] && out[j] == list[j]);
            }
        }
        assert forall|i: int| 0 <= i < out.len() implies out[i] == x || list.contains(
            #[trigger] out[i],
        ) by {
            if i < list.len() {
                assert(list[i] == out[i]);
            }
        }
    } else {
        let rest = list.drop_last();
        assert(stable_order(rest, before, earlier)) by {
            assert forall|i: int, j: int| 0 <= i < j < rest.len() implies before(
                #[trigger] rest[i],
                #[trigger] rest[j],
            ) || (!before(rest[j], rest[i]) && earlier(rest[i], rest[j])) by {
                assert(rest[i] == list[i] && rest[j] == list[j]);
            }
        }
        assert forall|i: int| 0 <= i < rest.len() implies earlier(#[trigger] rest[i], x) by {
            assert(rest[i] == list[i]);
        }
        lemma_inserting_is_stable(rest, x, before, earlier);
        let head = inserted_by(rest, x, before);
        assert forall|i: int, j: int| 0 <= i < j < out.len() implies before(
            #[trigger] out[i],
            #[trigger] out[j],
        ) || (!before(out[j], out[i]) && earlier(out[i], out[j])) by {
            assert(out[i] == head[i]);
            if j < head.len() {
                assert(out[j] == head[j]);
            } else if head[i] != x {
                let k = choose|k: int| 0 <= k < rest.len() && rest[k] == head[i];
                assert(list[k] == head[i] && out[j] == list[n]);
            }
        }
        assert forall|i: int| 0 <= i < out.len() implies out[i] == x || list.contains(
            #[trigger] out[i],
        ) by {
            if i < head.len() {
                assert(out[i] == head[i]);
                if head[i] != x {
                    let k = choose|k: int| 0 <= k < rest.len() && rest[k] == head[i];
                    assert(list[k] == head[i]);
                }
            } else {
                assert(list[n] == out[i]);
            }
        }
    }
}

/// Sorting leaves items that are in no order to each other as they stood.
pub proof fn law_sorting_is_stable<U>(
    list: Seq<U>,
    before: spec_fn(U, U) -> bool,
    earlier: spec_fn(U, U) -> bool,
)
    requires
        is_order(before),
        forall|i: int, j: int|
            0 <= i < j < list.len() ==> earlier(#[trigger] list[i], #[trigger] list[j]),
    ensures
        stable_order(sorted_by(list, before), before, earlier),
    decreases list.len(),
{
    if list.len() > 0 {
        let rest = list.drop_last();
        assert forall|i: int, j: int| 0 <= i < j < rest.len() implies earlier(
            #[trigger] rest[i],
            #[trigger] rest[j],
        ) by {
            assert(rest[i] == list[i] && rest[j] == list[j]);
        }
        law_sorting_is_stable(rest, before, earlier);
        let sorted = sorted_by(rest, before);
        assert forall|i: int| 0 <= i < sorted.len() implies earlier(
            #[trigger] sorted[i],
            list.last(),
        ) by {
            assert(sorted.contains(sorted[i]));
            lemma_sorted_contains(rest, before, sorted[i]);
            let k = choose|k: int| 0 <= k < rest.len() && rest[k] == sorted[i];
            assert(earlier(list[k], list[list.len() - 1]));
        }
        lemma_inserting_is_stable(sorted, list.last(), before, earlier);
    }
}

/// The order of texts is decided by the first character in which they differ; a text stands
/// in front of all that start with it.
pub proof fn law_texts_are_ordered_by_their_first_difference(
    common: Seq<char>,
    a: Seq<char>,
    b: Seq<char>,
)
    ensures
        a.len() > 0 && b.len() > 0 && a[0] != b[0] ==> (precedes(common + a, common + b) <==> a[0]
            < b[0]),
        b.len() > 0 ==> precedes(common, common + b) && !precedes(common + b, common),
        !precedes(common, common),
    decreases common.len(),
{
    if common.len() > 0 {
        let rest = common.skip(1);
        law_texts_are_ordered_by_their_first_difference(rest, a, b);
        assert((common + a).skip(1) =~= rest + a);
        assert((common + b).skip(1) =~= rest + b);
    } else {
        assert(common + a =~= a);
        assert(common + b =~= b);
    }
}

} // verus!
