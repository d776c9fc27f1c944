//! Rankings: the one way to list given members in a strict order.

use crate::number::Double;
use crate::number::Single;
use vstd::prelude::*;

verus! {

/// `s` lists exactly the values that satisfy `member`, each once, in the strict order `lt`.
pub open spec fn lists<T>(
    s: Seq<T>,
    member: spec_fn(T) -> bool,
    lt: spec_fn(T, T) -> bool,
) -> bool {
    &&& forall|i: int, j: int| 0 <= i < j < s.len() ==> lt(#[trigger] s[i], #[trigger] s[j])
    &&& forall|i: int| 0 <= i < s.len() ==> member(#[trigger] s[i])
    &&& forall|x: T| #[trigger] member(x) ==> s.contains(x)
}

/// The list of the values that satisfy `member`, in the strict order `lt`.
pub open spec fn listing<T>(member: spec_fn(T) -> bool, lt: spec_fn(T, T) -> bool) -> Seq<T> {
    choose|s: Seq<T>| #[trigger] lists(s, member, lt)
}

/// No two values stand before each other.
pub open spec fn asymmetric<T>(lt: spec_fn(T, T) -> bool) -> bool {
    forall|x: T, y: T| #[trigger] lt(x, y) ==> !lt(y, x)
}

/// Two lists of the same members in the same order agree on every prefix.
proof fn lists_agree_up_to<T>(
    s: Seq<T>,
    t: Seq<T>,
    member: spec_fn(T) -> bool,
    lt: spec_fn(T, T) -> bool,
    k: int,
)
    requires
        lists(s, member, lt),
        lists(t, member, lt),
        asymmetric(lt),
        0 <= k <= s.len(),
        k <= t.len(),
    ensures
        forall|i: int| 0 <= i < k ==> s[i] == t[i],
    decreases k,
{
    if k > 0 {
        lists_agree_up_to(s, t, member, lt, k - 1);
        let x = s[k - 1];
        let y = t[k - 1];
        assert(member(x) && member(y));
        assert(t.contains(x) && s.contains(y));
        let i = choose|i: int| 0 <= i < t.len() && t[i] == x;
        let j = choose|j: int| 0 <= j < s.len() && s[j] == y;
        if x != y {
            if i < k - 1 {
                assert(s[i] == x);
                assert(lt(s[i], s[k - 1]));
                assert(false);
            }
            if j < k - 1 {
                assert(t[j] == y);
                assert(lt(t[j], t[k - 1]));
                assert(false);
            }
            assert(lt(t[k - 1], t[i]));
            assert(lt(s[k - 1], s[j]));
            assert(false);
        }
    }
}

/// There is at most one list of given members in a given strict order.
pub proof fn lists_unique<T>(
    s: Seq<T>,
    t: Seq<T>,
    member: spec_fn(T) -> bool,
    lt: spec_fn(T, T) -> bool,
)
    requires
        lists(s, member, lt),
        lists(t, member, lt),
        asymmetric(lt),
    ensures
        s == t,
{
    if s.len() < t.len() {
        lists_agree_up_to(s, t, member, lt, s.len() as int);
        let y = t[s.len() as int];
        assert(member(y));
        let j = choose|j: int| 0 <= j < s.len() && s[j] == y;
        assert(lt(t[j], t[s.len() as int]));
        assert(false);
    }
    if t.len() < s.len() {
        lists_agree_up_to(s, t, member, lt, t.len() as int);
        let x = s[t.len() as int];
        assert(member(x));
        let i = choose|i: int| 0 <= i < t.len() && t[i] == x;
        assert(lt(s[i], s[t.len() as int]));
        assert(false);
    }
    lists_agree_up_to(s, t, member, lt, s.len() as int);
    assert(s =~= t);
}

/// A list that is in order is the list.
pub proof fn lists_is_listing<T>(
    s: Seq<T>,
    member: spec_fn(T) -> bool,
    lt: spec_fn(T, T) -> bool,
)
    requires
        lists(s, member, lt),
        asymmetric(lt),
    ensures
        s == listing(member, lt),
{
    lists_unique(s, listing(member, lt), member, lt);
}

/// Positions as mathematical integers.
pub open spec fn positions(s: Seq<usize>) -> Seq<int> {
    Seq::new(s.len(), |i: int| s[i] as int)
}

/// The positions below `n`.
pub open spec fn below(n: int) -> spec_fn(int) -> bool {
    |i: int| 0 <= i < n
}

/// Sorts the positions below `n` by a strict order that the closure decides.
pub(crate) fn arrange<F: Fn(usize, usize) -> bool>(
    n: usize,
    before: F,
    Ghost(lt): Ghost<spec_fn(int, int) -> bool>,
) -> (r: Vec<usize>)
    requires
        forall|i: usize, j: usize| i < n && j < n ==> #[trigger] call_requires(before, (i, j)),
        forall|i: usize, j: usize, b: bool|
            i < n && j < n && #[trigger] call_ensures(before, (i, j), b) ==> b == lt(
                i as int,
                j as int,
            ),
        asymmetric(lt),
        forall|i: int, j: int, k: int|
            #[trigger] lt(i, j) && #[trigger] lt(j, k) ==> lt(i, k),
        forall|i: int, j: int| 0 <= i < n && 0 <= j < n && i != j ==> #[trigger] lt(i, j) || lt(
            j,
            i,
        ),
    ensures
        positions(r@) == listing(below(n as int), lt),
        lists(positions(r@), below(n as int), lt),
        r.len() == n,
        forall|k: int| 0 <= k < r.len() ==> #[trigger] r@[k] < n,
{
    let mut order: Vec<usize> = Vec::new();
    let mut i: usize = 0;
    while i < n
        invariant
            i <= n,
            order.len() == i,
            lists(positions(order@), below(i as int), lt),
            forall|i: usize, j: usize| i < n && j < n ==> #[trigger] call_requires(before, (i, j)),
            forall|i: usize, j: usize, b: bool|
                i < n && j < n && #[trigger] call_ensures(before, (i, j), b) ==> b == lt(
                    i as int,
                    j as int,
                ),
            forall|i: int, j: int, k: int|
                #[trigger] lt(i, j) && #[trigger] lt(j, k) ==> lt(i, k),
            forall|i: int, j: int|
                0 <= i < n && 0 <= j < n && i != j ==> #[trigger] lt(i, j) || lt(j, i),
        decreases n - i,
    {
        let ghost old_order = positions(order@);
        proof {
            assert forall|k: int| 0 <= k < order.len() implies (#[trigger] order@[k]) < i by {
                assert(below(i as int)(old_order[k]));
            }
        }
        let mut low: usize = 0;
        let mut high: usize = order.len();
        while low < high
            invariant
                low <= high <= order.len(),
                order.len() == i,
                i < n,
                old_order == positions(order@),
                lists(old_order, below(i as int), lt),
                forall|k: int| 0 <= k < order.len() ==> (#[trigger] order@[k]) < i,
                forall|k: int| 0 <= k < low ==> lt(#[trigger] old_order[k], i as int),
                forall|k: int| high <= k < old_order.len() ==> lt(i as int, #[trigger] old_order[k]),
                forall|i: usize, j: usize|
                    i < n && j < n ==> #[trigger] call_requires(before, (i, j)),
                forall|i: usize, j: usize, b: bool|
                    i < n && j < n && #[trigger] call_ensures(before, (i, j), b) ==> b == lt(
                        i as int,
                        j as int,
                    ),
                forall|i: int, j: int, k: int|
                    #[trigger] lt(i, j) && #[trigger] lt(j, k) ==> lt(i, k),
                forall|i: int, j: int|
                    0 <= i < n && 0 <= j < n && i != j ==> #[trigger] lt(i, j) || lt(j, i),
            decreases high - low,
        {
            let mid: usize = low + (high - low) / 2;
            let e: usize = order[mid];
            assert(old_order[mid as int] == e as int);
            if before(e, i) {
                proof {
                    assert forall|k: int| 0 <= k < mid + 1 implies lt(
                        #[trigger] old_order[k],
                        i as int,
                    ) by {
                        if k < mid {
                            assert(lt(old_order[k], old_order[mid as int]));
                        }
                    }
                }
                low = mid + 1;
            } else {
                proof {
                    assert(lt(i as int, e as int));
                    assert forall|k: int| mid <= k < old_order.len() implies lt(
                        i as int,
                        #[trigger] old_order[k],
                    ) by {
                        if k > mid {
                            assert(lt(old_order[mid as int], old_order[k]));
                        }
                    }
                }
                high = mid;
            }
        }
        order.insert(low, i);
        proof {
            let new_order = positions(order@);
            assert(new_order =~= old_order.insert(low as int, i as int));
            assert forall|a: int, b: int| 0 <= a < b < new_order.len() implies lt(
                #[trigger] new_order[a],
                #[trigger] new_order[b],
            ) by {
                if a < low {
                    assert(new_order[a] == old_order[a]);
                    if b > low {
                        assert(new_order[b] == old_order[b - 1]);
                    } else if b < low {
                        assert(new_order[b] == old_order[b]);
                    }
                } else {
                    assert(new_order[b] == old_order[b - 1]);
                    if a > low {
                        assert(new_order[a] == old_order[a - 1]);
                    }
                }
            }
            assert forall|a: int| 0 <= a < new_order.len() implies below(i + 1)(
                #[trigger] new_order[a],
            ) by {
                if a < low {
                    assert(below(i as int)(old_order[a]));
                } else if a > low {
                    assert(below(i as int)(old_order[a - 1]));
                }
            }
            assert forall|x: int| #[trigger] below(i + 1)(x) implies new_order.contains(x) by {
                if x == i {
                    assert(new_order[low as int] == x);
                } else {
                    assert(below(i as int)(x));
                    let k = choose|k: int| 0 <= k < old_order.len() && old_order[k] == x;
                    if k < low {
                        assert(new_order[k] == x);
                    } else {
                        assert(new_order[k + 1] == x);
                    }
                }
            }
        }
        i += 1;
    }
    proof {
        lists_is_listing(positions(order@), below(n as int), lt);
        assert forall|k: int| 0 <= k < order.len() implies (#[trigger] order@[k]) < n by {
            assert(below(n as int)(positions(order@)[k]));
        }
    }
    order
}

/// Whether position `i` of a list of scores ranks ahead of position `j`: the higher score first, of
/// equal scores the earlier position.
pub open spec fn outranks(scores: Seq<Double>, i: int, j: int) -> bool {
    scores[i].key() > scores[j].key() || (scores[i].key() == scores[j].key() && i < j)
}

/// The order of a list of scores.
pub open spec fn score_order(scores: Seq<Double>) -> spec_fn(int, int) -> bool {
    |i: int, j: int| outranks(scores, i, j)
}

/// The positions of a list of scores, best first.
pub open spec fn best_first(scores: Seq<Double>) -> Seq<int> {
    listing(below(scores.len() as int), score_order(scores))
}

/// Ranks the positions of a list of scores, best first; equal scores keep their order.
pub fn rank(scores: &Vec<Double>) -> (r: Vec<usize>)
    ensures
        positions(r@) == best_first(scores@),
        lists(positions(r@), below(scores.len() as int), score_order(scores@)),
        r.len() == scores.len(),
        forall|k: int| 0 <= k < r.len() ==> #[trigger] r@[k] < scores.len(),
{
    let before = |i: usize, j: usize| -> (b: bool)
        requires
            i < scores.len(),
            j < scores.len(),
        ensures
            b == outranks(scores@, i as int, j as int),
        { scores[i].ahead_of(scores[j]) || (!scores[j].ahead_of(scores[i]) && i < j) };
    arrange(scores.len(), before, Ghost(score_order(scores@)))
}

/// The list of the best scores: the first is at least the second, and so on.
pub proof fn best_first_descends(scores: Seq<Double>, order: Seq<int>, a: int, b: int)
    requires
        lists(order, below(scores.len() as int), score_order(scores)),
        0 <= a < b < order.len(),
    ensures
        scores[order[a]].key() >= scores[order[b]].key(),
        scores[order[a]].key() == scores[order[b]].key() ==> order[a] < order[b],
        order[a] != order[b],
{
    assert(score_order(scores)(order[a], order[b]));
}

/// The smaller of two counts.
pub open spec fn at_most(n: nat, k: nat) -> nat {
    if n <= k {
        n
    } else {
        k
    }
}

/// The `k` of some places that score best, best first; `scores` has one score for each place.
pub open spec fn top_places(places: Seq<int>, scores: Seq<Double>, k: nat) -> Seq<int> {
    Seq::new(at_most(scores.len(), k), |j: int| places[best_first(scores)[j]])
}

/// Picks the `k` places that score best, best first.
pub fn top(places: &Vec<usize>, scores: &Vec<Double>, k: usize) -> (r: Vec<usize>)
    requires
        places.len() == scores.len(),
    ensures
        positions(r@) == top_places(positions(places@), scores@, k as nat),
        r.len() == at_most(scores@.len(), k as nat),
        forall|j: int| 0 <= j < r.len() ==> places@.contains(#[trigger] r@[j]),
        places@.no_duplicates() ==> r@.no_duplicates(),
{
    let order = rank(scores);
    let mut out: Vec<usize> = Vec::new();
    let mut j: usize = 0;
    while j < order.len() && j < k
        invariant
            j <= order.len(),
            j <= k,
            order.len() == scores.len(),
            places.len() == scores.len(),
            positions(order@) == best_first(scores@),
            forall|j: int| 0 <= j < order.len() ==> #[trigger] order@[j] < scores.len(),
            out.len() == j,
            forall|i: int| 0 <= i < j ==> #[trigger] out@[i] == places@[best_first(scores@)[i]],
            forall|i: int| 0 <= i < j ==> places@.contains(#[trigger] out@[i]),
        decreases order.len() - j,
    {
        let at: usize = order[j];
        proof {
            assert(positions(order@)[j as int] == at as int);
        }
        out.push(places[at]);
        j += 1;
    }
    proof {
        let best = best_first(scores@);
        assert forall|i: int| 0 <= i < out.len() implies #[trigger] positions(out@)[i] == positions(
            places@,
        )[best[i]] by {
            assert(positions(order@)[i] == order@[i] as int);
            assert(out@[i] == places@[best[i]]);
        }
        assert(positions(out@) =~= top_places(positions(places@), scores@, k as nat));
        if places@.no_duplicates() {
            assert forall|a: int, b: int|
                0 <= a < out.len() && 0 <= b < out.len() && a != b implies out@[a] != out@[b] by {
                assert(positions(order@)[a] == order@[a] as int);
                assert(positions(order@)[b] == order@[b] as int);
                if a < b {
                    best_first_descends(scores@, positions(order@), a, b);
                } else {
                    best_first_descends(scores@, positions(order@), b, a);
                }
                assert(places@[order@[a] as int] != places@[order@[b] as int]);
            }
        }
    }
    out
}

/// The places that score best are among the given ones, and no place is picked twice.
pub proof fn top_places_are_places(places: Seq<int>, scores: Seq<Double>, k: nat)
    requires
        places.len() == scores.len(),
        places.no_duplicates(),
    ensures
        top_places(places, scores, k).len() <= k,
        top_places(places, scores, k).len() <= places.len(),
        forall|j: int|
            0 <= j < top_places(places, scores, k).len() ==> places.contains(
                #[trigger] top_places(places, scores, k)[j],
            ),
        top_places(places, scores, k).no_duplicates(),
{
    best_first_exists(scores);
    let best = best_first(scores);
    let r = top_places(places, scores, k);
    assert forall|j: int| 0 <= j < r.len() implies places.contains(#[trigger] r[j]) by {
        assert(below(scores.len() as int)(best[j]));
        assert(r[j] == places[best[j]]);
    }
    assert forall|a: int, b: int| 0 <= a < r.len() && 0 <= b < r.len() && a != b implies r[a]
        != r[b] by {
        assert(below(scores.len() as int)(best[a]));
        assert(below(scores.len() as int)(best[b]));
        if a < b {
            best_first_descends(scores, best, a, b);
        } else {
            best_first_descends(scores, best, b, a);
        }
    }
}

/// The places that score best are in the order of their scores, and no place that was left out
/// scores higher than one that was picked.
pub proof fn top_places_score_best(places: Seq<int>, scores: Seq<Double>, k: nat)
    requires
        places.len() == scores.len(),
    ensures
        forall|i: int, j: int|
            0 <= i < j < top_places(places, scores, k).len() ==> scores[#[trigger] best_first(
                scores,
            )[i]].key() >= scores[#[trigger] best_first(scores)[j]].key(),
        forall|p: int, j: int|
            0 <= p < scores.len() && 0 <= j < top_places(places, scores, k).len() && !best_first(
                scores,
            ).take(top_places(places, scores, k).len() as int).contains(p) ==> (
            #[trigger] scores[p]).key() <= scores[#[trigger] best_first(scores)[j]].key(),
{
    best_first_exists(scores);
    let best = best_first(scores);
    let n = top_places(places, scores, k).len() as int;
    assert forall|i: int, j: int| 0 <= i < j < n implies scores[#[trigger] best[i]].key()
        >= scores[#[trigger] best[j]].key() by {
        best_first_descends(scores, best, i, j);
    }
    assert forall|p: int, j: int|
        0 <= p < scores.len() && 0 <= j < n && !best.take(n).contains(p) implies (
    #[trigger] scores[p]).key() <= scores[#[trigger] best[j]].key() by {
        assert(below(scores.len() as int)(p));
        let q = choose|q: int| 0 <= q < best.len() && best[q] == p;
        if q < n {
            assert(best.take(n)[q] == p);
        }
        best_first_descends(scores, best, j, q);
    }
}

/// The positions below `n` can be put in any strict total order.
proof fn order_exists(n: nat, lt: spec_fn(int, int) -> bool) -> (s: Seq<int>)
    requires
        asymmetric(lt),
        forall|i: int, j: int, k: int|
            #[trigger] lt(i, j) && #[trigger] lt(j, k) ==> lt(i, k),
        forall|i: int, j: int|
            0 <= i < n && 0 <= j < n && i != j ==> #[trigger] lt(i, j) || lt(j, i),
    ensures
        lists(s, below(n as int), lt),
        s.len() == n,
    decreases n,
{
    if n == 0 {
        Seq::empty()
    } else {
        let e = n - 1;
        let t = order_exists((n - 1) as nat, lt);
        assert forall|i: int| 0 <= i < t.len() implies 0 <= #[trigger] t[i] < e by {
            assert(below(e)(t[i]));
        }
        let k = slot(t, e, lt);
        let s = t.insert(k, e);
        assert forall|a: int, b: int| 0 <= a < b < s.len() implies lt(
            #[trigger] s[a],
            #[trigger] s[b],
        ) by {
            if a < k {
                assert(s[a] == t[a]);
                if b > k {
                    assert(s[b] == t[b - 1]);
                } else if b < k {
                    assert(s[b] == t[b]);
                }
            } else {
                assert(s[b] == t[b - 1]);
                if a > k {
                    assert(s[a] == t[a - 1]);
                }
            }
        }
        assert forall|a: int| 0 <= a < s.len() implies below(n as int)(#[trigger] s[a]) by {
            if a < k {
                assert(s[a] == t[a]);
            } else if a > k {
                assert(s[a] == t[a - 1]);
            }
        }
        assert forall|x: int| #[trigger] below(n as int)(x) implies s.contains(x) by {
            if x == e {
                assert(s[k] == x);
            } else {
                assert(below(e)(x));
                let j = choose|j: int| 0 <= j < t.len() && t[j] == x;
                if j < k {
                    assert(s[j] == x);
                } else {
                    assert(s[j + 1] == x);
                }
            }
        }
        s
    }
}

/// The values of a list that satisfy `member`.
pub open spec fn members_in<T>(all: Seq<T>, member: spec_fn(T) -> bool) -> spec_fn(T) -> bool {
    |x: T| all.contains(x) && member(x)
}

/// The values of a list that satisfy `member` can be put in any strict total order.
proof fn put_in_order<T>(
    all: Seq<T>,
    member: spec_fn(T) -> bool,
    lt: spec_fn(T, T) -> bool,
) -> (s: Seq<T>)
    requires
        asymmetric(lt),
        forall|x: T, y: T, z: T| #[trigger] lt(x, y) && #[trigger] lt(y, z) ==> lt(x, z),
        forall|x: T, y: T| x != y ==> #[trigger] lt(x, y) || lt(y, x),
    ensures
        lists(s, members_in(all, member), lt),
    decreases all.len(),
{
    if all.len() == 0 {
        Seq::empty()
    } else {
        let init = all.drop_last();
        let e = all.last();
        let t = put_in_order(init, member, lt);
        assert forall|x: T| init.contains(x) implies #[trigger] all.contains(x) by {
            let j = choose|j: int| 0 <= j < init.len() && init[j] == x;
            assert(all[j] == x);
        }
        assert forall|x: T| #[trigger] all.contains(x) implies init.contains(x) || x == e by {
            let j = choose|j: int| 0 <= j < all.len() && all[j] == x;
            if j < init.len() {
                assert(init[j] == x);
            }
        }
        assert(all[all.len() - 1] == e);
        if !member(e) || t.contains(e) {
            assert forall|i: int| 0 <= i < t.len() implies members_in(all, member)(
                #[trigger] t[i],
            ) by {
                assert(members_in(init, member)(t[i]));
            }
            assert forall|x: T| #[trigger] members_in(all, member)(x) implies t.contains(x) by {
                if init.contains(x) {
                    assert(members_in(init, member)(x));
                }
            }
            t
        } else {
            let k = slot(t, e, lt);
            let s = t.insert(k, e);
            assert forall|a: int, b: int| 0 <= a < b < s.len() implies lt(
                #[trigger] s[a],
                #[trigger] s[b],
            ) by {
                if a < k {
                    assert(s[a] == t[a]);
                    if b > k {
                        assert(s[b] == t[b - 1]);
                    } else if b < k {
                        assert(s[b] == t[b]);
                    }
                } else {
                    assert(s[b] == t[b - 1]);
                    if a > k {
                        assert(s[a] == t[a - 1]);
                    }
                }
            }
            assert forall|a: int| 0 <= a < s.len() implies members_in(all, member)(
                #[trigger] s[a],
            ) by {
                if a < k {
                    assert(members_in(init, member)(t[a]));
                } else if a > k {
                    assert(members_in(init, member)(t[a - 1]));
                }
            }
            assert forall|x: T| #[trigger] members_in(all, member)(x) implies s.contains(x) by {
                if x == e {
                    assert(s[k] == x);
                } else {
                    assert(members_in(init, member)(x));
                    let j = choose|j: int| 0 <= j < t.len() && t[j] == x;
                    if j < k {
                        assert(s[j] == x);
                    } else {
                        assert(s[j + 1] == x);
                    }
                }
            }
            s
        }
    }
}

/// What can be named in a list can be listed in any strict total order.
pub proof fn listing_exists<T>(
    all: Seq<T>,
    member: spec_fn(T) -> bool,
    lt: spec_fn(T, T) -> bool,
)
    requires
        forall|x: T| #[trigger] member(x) ==> all.contains(x),
        asymmetric(lt),
        forall|x: T, y: T, z: T| #[trigger] lt(x, y) && #[trigger] lt(y, z) ==> lt(x, z),
        forall|x: T, y: T| x != y ==> #[trigger] lt(x, y) || lt(y, x),
    ensures
        lists(listing(member, lt), member, lt),
{
    let s = put_in_order(all, member, lt);
    assert(lists(s, member, lt)) by {
        assert forall|i: int| 0 <= i < s.len() implies member(#[trigger] s[i]) by {
            assert(members_in(all, member)(s[i]));
        }
        assert forall|x: T| #[trigger] member(x) implies s.contains(x) by {
            assert(members_in(all, member)(x));
        }
    }
}

proof fn slot<T>(t: Seq<T>, e: T, lt: spec_fn(T, T) -> bool) -> (k: int)
    requires
        forall|i: int, j: int| 0 <= i < j < t.len() ==> lt(#[trigger] t[i], #[trigger] t[j]),
        forall|i: int| 0 <= i < t.len() ==> lt(#[trigger] t[i], e) || lt(e, t[i]),
        forall|x: T, y: T, z: T| #[trigger] lt(x, y) && #[trigger] lt(y, z) ==> lt(x, z),
    ensures
        0 <= k <= t.len(),
        forall|i: int| 0 <= i < k ==> lt(#[trigger] t[i], e),
        forall|i: int| k <= i < t.len() ==> lt(e, #[trigger] t[i]),
    decreases t.len(),
{
    if t.len() == 0 {
        0
    } else if lt(t.last(), e) {
        assert forall|i: int| 0 <= i < t.len() implies lt(#[trigger] t[i], e) by {
            if i < t.len() - 1 {
                assert(lt(t[i], t[t.len() - 1]));
            }
        }
        t.len() as int
    } else {
        let init = t.drop_last();
        assert(lt(t[t.len() - 1], e) || lt(e, t[t.len() - 1]));
        assert forall|i: int, j: int| 0 <= i < j < init.len() implies lt(
            #[trigger] init[i],
            #[trigger] init[j],
        ) by {
            assert(lt(t[i], t[j]));
        }
        assert forall|i: int| 0 <= i < init.len() implies lt(#[trigger] init[i], e) || lt(
            e,
            init[i],
        ) by {
            assert(lt(t[i], e) || lt(e, t[i]));
        }
        let k = slot(init, e, lt);
        assert forall|i: int| 0 <= i < k implies lt(#[trigger] t[i], e) by {
            assert(init[i] == t[i]);
        }
        assert forall|i: int| k <= i < t.len() implies lt(e, #[trigger] t[i]) by {
            if i < t.len() - 1 {
                assert(init[i] == t[i]);
            }
        }
        k
    }
}

/// Scores can be ranked: the ranking lists every position once, in order.
pub proof fn best_first_exists(scores: Seq<Double>)
    ensures
        lists(best_first(scores), below(scores.len() as int), score_order(scores)),
        best_first(scores).len() == scores.len(),
{
    let lt = score_order(scores);
    let s = order_exists(scores.len(), lt);
    lists_is_listing(s, below(scores.len() as int), lt);
}

/// The strongest of some values, negative infinity where there are none.
pub open spec fn strongest(values: Seq<Single>) -> Single
    decreases values.len(),
{
    if values.len() == 0 {
        Single::lowest()
    } else {
        strongest(values.drop_last()).larger(values.last())
    }
}

/// The strongest of some numbers is one of them, and none is above it.
pub proof fn strongest_is_highest(values: Seq<Single>)
    requires
        values.len() > 0,
        forall|i: int| 0 <= i < values.len() ==> Single::lowest().below(#[trigger] values[i]),
    ensures
        values.contains(strongest(values)),
        forall|i: int|
            0 <= i < values.len() ==> (#[trigger] values[i]).at_most(strongest(values)),
    decreases values.len(),
{
    let init = values.drop_last();
    if init.len() > 0 {
        assert forall|i: int| 0 <= i < init.len() implies Single::lowest().below(
            #[trigger] init[i],
        ) by {
            assert(values[i] == init[i]);
        }
        strongest_is_highest(init);
        let k = choose|k: int| 0 <= k < init.len() && init[k] == strongest(init);
        assert(values[k] == strongest(init));
        assert forall|i: int| 0 <= i < values.len() implies (#[trigger] values[i]).at_most(
            strongest(values),
        ) by {
            if i < init.len() {
                assert(init[i].at_most(strongest(init)));
            }
        }
    }
    reveal_with_fuel(strongest, 2);
    assert(Single::lowest().below(values[values.len() - 1]));
}

/// Every position.
pub open spec fn everywhere() -> spec_fn(int) -> bool {
    |i: int| true
}

/// Position `i` holds the highest of some values, and is the first that does.
pub open spec fn is_first_best(values: Seq<Single>, i: int) -> bool {
    &&& 0 <= i < values.len()
    &&& forall|j: int| 0 <= j < values.len() ==> (#[trigger] values[j]).rank() <= values[i].rank()
    &&& forall|j: int| 0 <= j < i ==> (#[trigger] values[j]).rank() < values[i].rank()
}

/// The first position of the highest of some values.
pub open spec fn first_best(values: Seq<Single>) -> Option<int> {
    if values.len() == 0 {
        None
    } else {
        Some(choose|i: int| #[trigger] is_first_best(values, i))
    }
}

/// The first position of the highest value is the only one.
pub proof fn first_best_unique(values: Seq<Single>, i: int)
    requires
        is_first_best(values, i),
    ensures
        first_best(values) == Some(i),
{
    let k = choose|k: int| #[trigger] is_first_best(values, k);
    if k < i {
        assert(values[k].rank() < values[i].rank());
        assert(values[i].rank() <= values[k].rank());
    }
    if i < k {
        assert(values[i].rank() < values[k].rank());
        assert(values[k].rank() <= values[i].rank());
    }
}

/// Some position holds the highest of some values, and is the first that does.
pub proof fn first_best_exists(values: Seq<Single>)
    requires
        values.len() > 0,
    ensures
        is_first_best(values, first_best(values)->0),
    decreases values.len(),
{
    let last = values.len() - 1;
    if last == 0 {
        assert(is_first_best(values, 0));
    } else {
        let init = values.drop_last();
        first_best_exists(init);
        let k = first_best(init)->0;
        assert(forall|j: int| 0 <= j < last ==> values[j] == init[j]);
        if values[last].rank() > values[k].rank() {
            assert forall|j: int| 0 <= j < values.len() implies (#[trigger] values[j]).rank()
                <= values[last].rank() && (j < last ==> values[j].rank() < values[last].rank()) by {
                if j < last {
                    assert(init[j].rank() <= init[k].rank());
                }
            }
            assert(is_first_best(values, last));
        } else {
            assert forall|j: int| 0 <= j < values.len() implies (#[trigger] values[j]).rank()
                <= values[k].rank() && (j < k ==> values[j].rank() < values[k].rank()) by {
                if j < last {
                    assert(init[j].rank() <= init[k].rank());
                    assert(j < k ==> init[j].rank() < init[k].rank());
                }
            }
            assert(is_first_best(values, k));
        }
    }
}

/// Position `i` is among the given ones and reaches the threshold, no value among them is higher,
/// and none behind it is as high.
pub open spec fn is_last_best(
    values: Seq<Single>,
    among: spec_fn(int) -> bool,
    theta: Single,
    i: int,
) -> bool {
    &&& 0 <= i < values.len()
    &&& among(i)
    &&& theta.at_most(values[i])
    &&& forall|j: int|
        0 <= j < values.len() && among(j) ==> (#[trigger] values[j]).rank() <= values[i].rank()
    &&& forall|j: int|
        i < j < values.len() && among(j) ==> (#[trigger] values[j]).rank() < values[i].rank()
}

/// No value among the given positions reaches the threshold.
pub open spec fn none_reaches(
    values: Seq<Single>,
    among: spec_fn(int) -> bool,
    theta: Single,
) -> bool {
    forall|j: int| 0 <= j < values.len() && among(j) ==> !theta.at_most(#[trigger] values[j])
}

/// The last position of the highest value among the given positions, where it reaches the threshold.
pub open spec fn last_best(
    values: Seq<Single>,
    among: spec_fn(int) -> bool,
    theta: Single,
) -> Option<int> {
    if none_reaches(values, among, theta) {
        None
    } else {
        Some(choose|i: int| #[trigger] is_last_best(values, among, theta, i))
    }
}

/// Where a number among the given positions reaches the threshold, some position is the last of the
/// highest.
pub proof fn last_best_exists(
    values: Seq<Single>,
    among: spec_fn(int) -> bool,
    theta: Single,
)
    requires
        forall|j: int| 0 <= j < values.len() ==> !(#[trigger] values[j]).is_nan(),
        !none_reaches(values, among, theta),
    ensures
        is_last_best(values, among, theta, last_best(values, among, theta)->0),
    decreases values.len(),
{
    let last = values.len() - 1;
    let init = values.drop_last();
    assert(forall|j: int| 0 <= j < last ==> #[trigger] values[j] == init[j]);
    assert forall|j: int| 0 <= j < init.len() implies !(#[trigger] init[j]).is_nan() by {
        assert(values[j] == init[j]);
    }
    let top = choose|j: int| 0 <= j < values.len() && among(j) && theta.at_most(#[trigger] values[j]);
    if none_reaches(init, among, theta) {
        if top < last {
            assert(theta.at_most(init[top]));
        }
        assert forall|j: int| 0 <= j < values.len() && among(j) implies (#[trigger] values[j]).rank()
            <= values[last].rank() by {
            if j < last {
                assert(!theta.at_most(init[j]));
            }
        }
        assert(is_last_best(values, among, theta, last));
    } else {
        last_best_exists(init, among, theta);
        let k = last_best(init, among, theta)->0;
        if among(last) && values[last].rank() >= values[k].rank() {
            assert forall|j: int| 0 <= j < values.len() && among(j) implies (
            #[trigger] values[j]).rank() <= values[last].rank() by {
                if j < last {
                    assert(init[j].rank() <= init[k].rank());
                }
            }
            assert(is_last_best(values, among, theta, last));
        } else {
            assert forall|j: int| 0 <= j < values.len() && among(j) implies (
            #[trigger] values[j]).rank() <= values[k].rank() by {
                if j < last {
                    assert(init[j].rank() <= init[k].rank());
                }
            }
            assert forall|j: int| k < j < values.len() && among(j) implies (
            #[trigger] values[j]).rank() < values[k].rank() by {
                if j < last {
                    assert(init[j].rank() < init[k].rank());
                }
            }
            assert(is_last_best(values, among, theta, k));
        }
    }
}

/// The last position of the highest value is the only one.
pub proof fn last_best_unique(
    values: Seq<Single>,
    among: spec_fn(int) -> bool,
    theta: Single,
    i: int,
)
    requires
        is_last_best(values, among, theta, i),
    ensures
        last_best(values, among, theta) == Some(i),
{
    assert(theta.at_most(values[i]));
    let k = choose|k: int| #[trigger] is_last_best(values, among, theta, k);
    if k < i {
        assert(values[i].rank() < values[k].rank());
        assert(values[k].rank() <= values[i].rank());
    }
    if i < k {
        assert(values[k].rank() < values[i].rank());
        assert(values[i].rank() <= values[k].rank());
    }
}

} // verus!
