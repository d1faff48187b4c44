//! Breadth-first exploration of a graph over package numbers, as a
//! mathematical function, with what holds of its result.
//!
//! The explored order is a sequence without repetition. Its first `next`
//! entries have been expanded; the others wait. Expanding an entry appends
//! those of its successors that the order does not hold yet.

use vstd::prelude::*;

verus! {

/// Every entry of `s` is a number below `bound`, and none is negative.
pub open spec fn in_range(s: Seq<i32>, bound: int) -> bool {
    forall|i: int| 0 <= i < s.len() ==> 0 <= #[trigger] s[i] < bound
}

/// No entry occurs twice and all are in range.
pub open spec fn tidy(order: Seq<i32>, bound: int) -> bool {
    order.no_duplicates() && in_range(order, bound)
}

/// `order`, followed by the entries of `items` that it lacks, each once, in
/// the order of their first occurrence.
pub open spec fn absorb(order: Seq<i32>, items: Seq<i32>) -> Seq<i32>
    decreases items.len(),
{
    if items.len() == 0 {
        order
    } else {
        let before = absorb(order, items.drop_last());
        if before.contains(items.last()) {
            before
        } else {
            before.push(items.last())
        }
    }
}

/// The order reached from `order` by expanding the entries from `next` on,
/// one after the other, until none waits; the error of the first entry whose
/// successors `succ` cannot give.
pub open spec fn explore<E>(
    succ: spec_fn(i32) -> Result<Seq<i32>, E>,
    order: Seq<i32>,
    next: int,
    bound: int,
) -> Result<Seq<i32>, E>
    decreases bound - next,
{
    if next < 0 || next >= order.len() || next >= bound {
        Ok(order)
    } else {
        match succ(order[next]) {
            Err(e) => Err(e),
            Ok(items) => explore(succ, absorb(order, items), next + 1, bound),
        }
    }
}

/// `b` is a successor of `a`.
pub open spec fn edge<E>(succ: spec_fn(i32) -> Result<Seq<i32>, E>, a: i32, b: i32) -> bool {
    succ(a) matches Ok(items) && items.contains(b)
}

/// `path` is not empty and each entry but the last is followed by one of its successors.
pub open spec fn is_path<E>(succ: spec_fn(i32) -> Result<Seq<i32>, E>, path: Seq<i32>) -> bool {
    path.len() >= 1 && forall|i: int|
        0 <= i < path.len() - 1 ==> edge(succ, #[trigger] path[i], path[i + 1])
}

/// A path leads from `a` to `b`; the path of `a` alone counts.
pub open spec fn reaches<E>(succ: spec_fn(i32) -> Result<Seq<i32>, E>, a: i32, b: i32) -> bool {
    exists|path: Seq<i32>| #[trigger] is_path(succ, path) && path[0] == a && path.last() == b
}

/// With an entry, `s` holds the entry's successors.
pub open spec fn closed_under<E>(succ: spec_fn(i32) -> Result<Seq<i32>, E>, s: Seq<i32>) -> bool {
    forall|a: i32, b: i32| s.contains(a) && #[trigger] edge(succ, a, b) ==> s.contains(b)
}

/// The successors of a number in range are in range.
pub open spec fn stays_in_range<E>(succ: spec_fn(i32) -> Result<Seq<i32>, E>, bound: int) -> bool {
    forall|p: i32|
        0 <= p < bound ==> (#[trigger] succ(p) matches Ok(items) ==> in_range(items, bound))
}

/// `order` is how `longer` begins.
pub open spec fn begins_with(longer: Seq<i32>, order: Seq<i32>) -> bool {
    order.len() <= longer.len() && forall|i: int| 0 <= i < order.len() ==> longer[i] == order[i]
}

/// What absorbing yields: a tidy order that begins as before and holds
/// exactly what the order held and the items.
pub proof fn lemma_absorb(order: Seq<i32>, items: Seq<i32>, bound: int)
    requires
        tidy(order, bound),
        in_range(items, bound),
    ensures
        tidy(absorb(order, items), bound),
        begins_with(absorb(order, items), order),
        forall|x: i32|
            #[trigger] absorb(order, items).contains(x) <==> order.contains(x) || items.contains(x),
    decreases items.len(),
{
    let r = absorb(order, items);
    if items.len() == 0 {
        assert forall|x: i32| r.contains(x) <==> order.contains(x) || items.contains(x) by {
            if items.contains(x) {
                let i = choose|i: int| 0 <= i < items.len() && items[i] == x;
            }
        }
    } else {
        let front = items.drop_last();
        let last = items.last();
        let before = absorb(order, front);
        lemma_absorb(order, front, bound);
        assert forall|x: i32| r.contains(x) <==> order.contains(x) || items.contains(x) by {
            if items.contains(x) {
                let i = choose|i: int| 0 <= i < items.len() && items[i] == x;
                if i < items.len() - 1 {
                    assert(front[i] == x);
                    assert(front.contains(x));
                }
            }
            if front.contains(x) {
                let i = choose|i: int| 0 <= i < front.len() && front[i] == x;
                assert(items[i] == x);
            }
            if before.contains(last) {
            } else {
                assert(r[before.len() as int] == last);
                if before.contains(x) {
                    let i = choose|i: int| 0 <= i < before.len() && before[i] == x;
                    assert(r[i] == x);
                }
                if r.contains(x) {
                    let i = choose|i: int| 0 <= i < r.len() && r[i] == x;
                    if i < before.len() {
                        assert(before[i] == x);
                    }
                }
            }
        }
        if !before.contains(last) {
            assert forall|i: int, j: int| 0 <= i < r.len() && 0 <= j < r.len() && i != j implies r[i]
                != r[j] by {
                if i < before.len() && j < before.len() {
                } else if i < before.len() {
                    assert(before.contains(r[i]));
                } else {
                    assert(before.contains(r[j]));
                }
            }
        }
    }
}

/// A tidy order is no longer than its bound.
pub proof fn lemma_tidy_len(order: Seq<i32>, bound: int)
    requires
        tidy(order, bound),
        0 <= bound,
    ensures
        order.len() <= bound,
    decreases bound,
{
    if order.len() > 0 {
        assert(0 <= order[0] < bound);
        let top: i32 = (bound - 1) as i32;
        if order.contains(top) {
            let k = choose|k: int| 0 <= k < order.len() && order[k] == top;
            let rest = order.remove(k);
            assert forall|i: int| 0 <= i < rest.len() implies 0 <= #[trigger] rest[i] < bound - 1 by {
                if i < k {
                    assert(rest[i] == order[i]);
                } else {
                    assert(rest[i] == order[i + 1]);
                }
            }
            assert forall|i: int, j: int|
                0 <= i < rest.len() && 0 <= j < rest.len() && i != j implies rest[i] != rest[j] by {
                let oi = if i < k { i } else { i + 1 };
                let oj = if j < k { j } else { j + 1 };
                assert(rest[i] == order[oi]);
                assert(rest[j] == order[oj]);
            }
            lemma_tidy_len(rest, bound - 1);
        } else {
            assert forall|i: int| 0 <= i < order.len() implies 0 <= #[trigger] order[i] < bound - 1 by {
                assert(order.contains(order[i]));
            }
            lemma_tidy_len(order, bound - 1);
        }
    }
}

/// An edge in front of a path makes a path.
pub proof fn lemma_reaches_step<E>(succ: spec_fn(i32) -> Result<Seq<i32>, E>, a: i32, b: i32, c: i32)
    requires
        edge(succ, a, b),
        reaches(succ, b, c),
    ensures
        reaches(succ, a, c),
{
    let tail = choose|path: Seq<i32>| #[trigger] is_path(succ, path) && path[0] == b && path.last() == c;
    let path = seq![a] + tail;
    assert forall|i: int| 0 <= i < path.len() - 1 implies edge(succ, #[trigger] path[i], path[i + 1]) by {
        if i > 0 {
            assert(path[i] == tail[i - 1]);
            assert(path[i + 1] == tail[i - 1 + 1]);
        }
    }
    assert(is_path(succ, path) && path[0] == a && path.last() == c);
}

/// Every number reaches itself.
pub proof fn lemma_reaches_self<E>(succ: spec_fn(i32) -> Result<Seq<i32>, E>, a: i32)
    ensures
        reaches(succ, a, a),
{
    let path = seq![a];
    assert(is_path(succ, path) && path[0] == a && path.last() == a);
}

/// Whatever a closed sequence's entry reaches is in the sequence.
pub proof fn lemma_closed_holds_reached<E>(
    succ: spec_fn(i32) -> Result<Seq<i32>, E>,
    s: Seq<i32>,
    a: i32,
    b: i32,
)
    requires
        closed_under(succ, s),
        s.contains(a),
        reaches(succ, a, b),
    ensures
        s.contains(b),
{
    let path = choose|path: Seq<i32>| #[trigger] is_path(succ, path) && path[0] == a && path.last() == b;
    lemma_closed_holds_path(succ, s, path, path.len() - 1);
}

/// A closed sequence that holds a path's first entry holds them all.
proof fn lemma_closed_holds_path<E>(
    succ: spec_fn(i32) -> Result<Seq<i32>, E>,
    s: Seq<i32>,
    path: Seq<i32>,
    k: int,
)
    requires
        closed_under(succ, s),
        is_path(succ, path),
        s.contains(path[0]),
        0 <= k < path.len(),
    ensures
        s.contains(path[k]),
    decreases k,
{
    if k > 0 {
        lemma_closed_holds_path(succ, s, path, k - 1);
        assert(edge(succ, path[k - 1], path[k - 1 + 1]));
    }
}

/// Some entry of `order` reaches `x`.
pub open spec fn reached_from<E>(
    succ: spec_fn(i32) -> Result<Seq<i32>, E>,
    order: Seq<i32>,
    x: i32,
) -> bool {
    exists|i: int| 0 <= i < order.len() && #[trigger] reaches(succ, order[i], x)
}

/// What exploring from `next` on yields: a tidy order that begins as before,
/// holds the successors of every entry from `next` on, and holds nothing that
/// the entries it began with do not reach. Where it fails, it fails at a number
/// that they reach.
pub proof fn lemma_explore<E>(
    succ: spec_fn(i32) -> Result<Seq<i32>, E>,
    order: Seq<i32>,
    next: int,
    bound: int,
)
    requires
        tidy(order, bound),
        stays_in_range(succ, bound),
        0 <= next <= order.len(),
        0 <= bound,
    ensures
        explore(succ, order, next, bound) matches Ok(r) ==> {
            &&& tidy(r, bound)
            &&& begins_with(r, order)
            &&& forall|i: int, x: i32|
                next <= i < r.len() && #[trigger] edge(succ, r[i], x) ==> r.contains(x)
            &&& forall|x: i32| #[trigger] r.contains(x) ==> reached_from(succ, order, x)
        },
        explore(succ, order, next, bound) matches Err(e) ==> exists|p: i32|
            reached_from(succ, order, p) && #[trigger] succ(p) == Err::<Seq<i32>, E>(e),
    decreases bound - next,
{
    lemma_tidy_len(order, bound);
    if next >= order.len() {
        assert forall|x: i32| #[trigger] order.contains(x) implies reached_from(succ, order, x) by {
            let i = choose|i: int| 0 <= i < order.len() && order[i] == x;
            lemma_reaches_self(succ, order[i]);
        }
    } else {
        let p = order[next];
        lemma_reaches_self(succ, p);
        match succ(p) {
            Err(e) => {
                assert(reached_from(succ, order, p));
            },
            Ok(items) => {
                let grown = absorb(order, items);
                lemma_absorb(order, items, bound);
                lemma_explore(succ, grown, next + 1, bound);
                assert forall|x: i32| reached_from(succ, grown, x) implies reached_from(
                    succ,
                    order,
                    x,
                ) by {
                    let j = choose|j: int| 0 <= j < grown.len() && #[trigger] reaches(succ, grown[j], x);
                    assert(grown.contains(grown[j]));
                    if order.contains(grown[j]) {
                        let i = choose|i: int| 0 <= i < order.len() && order[i] == grown[j];
                        assert(reaches(succ, order[i], x));
                    } else {
                        assert(items.contains(grown[j]));
                        lemma_reaches_step(succ, p, grown[j], x);
                        assert(reaches(succ, order[next], x));
                    }
                }
                match explore(succ, grown, next + 1, bound) {
                    Ok(r) => {
                        assert forall|i: int, x: i32|
                            next <= i < r.len() && #[trigger] edge(succ, r[i], x) implies r.contains(
                            x,
                        ) by {
                            if i == next {
                                assert(r[i] == grown[i]);
                                assert(grown.contains(x));
                                let j = choose|j: int| 0 <= j < grown.len() && grown[j] == x;
                                assert(r[j] == x);
                            }
                        }
                    },
                    Err(e) => {
                        let q = choose|q: i32| reached_from(succ, grown, q) && #[trigger] succ(q)
                            == Err::<Seq<i32>, E>(e);
                        assert(reached_from(succ, order, q));
                    },
                }
            },
        }
    }
}

/// What exploring from the start yields: exactly what the entries it began
/// with reach, each once.
pub proof fn lemma_explore_all<E>(
    succ: spec_fn(i32) -> Result<Seq<i32>, E>,
    order: Seq<i32>,
    bound: int,
)
    requires
        tidy(order, bound),
        stays_in_range(succ, bound),
        0 <= bound,
    ensures
        explore(succ, order, 0, bound) matches Ok(r) ==> {
            &&& tidy(r, bound)
            &&& begins_with(r, order)
            &&& closed_under(succ, r)
            &&& forall|x: i32| #[trigger] r.contains(x) <==> reached_from(succ, order, x)
        },
        explore(succ, order, 0, bound) matches Err(e) ==> exists|p: i32|
            reached_from(succ, order, p) && #[trigger] succ(p) == Err::<Seq<i32>, E>(e),
{
    lemma_explore(succ, order, 0, bound);
    if let Ok(r) = explore(succ, order, 0, bound) {
        assert forall|a: i32, b: i32| r.contains(a) && #[trigger] edge(succ, a, b) implies r.contains(
            b,
        ) by {
            let i = choose|i: int| 0 <= i < r.len() && r[i] == a;
            assert(edge(succ, r[i], b));
        }
        assert forall|x: i32| reached_from(succ, order, x) implies #[trigger] r.contains(x) by {
            let i = choose|i: int| 0 <= i < order.len() && #[trigger] reaches(succ, order[i], x);
            assert(r[i] == order[i]);
            assert(r.contains(order[i]));
            lemma_closed_holds_reached(succ, r, order[i], x);
        }
    }
}

} // verus!
