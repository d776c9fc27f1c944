//! Label histograms: how often each label occurs, the most frequent first.

use crate::ranking;
use crate::text;
use vstd::prelude::*;

verus! {

/// A histogram: labels with their counts.
pub type Histogram = Vec<(String, usize)>;

/// The labels and counts that a histogram holds.
pub open spec fn entries(h: Seq<(String, usize)>) -> Seq<(Seq<char>, usize)> {
    Seq::new(h.len(), |i: int| (h[i].0@, h[i].1))
}

/// The count of each label; of a label that occurs twice the later count holds.
pub open spec fn counts(h: Seq<(Seq<char>, usize)>) -> Map<Seq<char>, nat>
    decreases h.len(),
{
    if h.len() == 0 {
        Map::empty()
    } else {
        counts(h.drop_last()).insert(h.last().0, h.last().1 as nat)
    }
}

/// The count of a label, zero where it has none.
pub open spec fn count_of(m: Map<Seq<char>, nat>, label: Seq<char>) -> nat {
    if m.contains_key(label) {
        m[label]
    } else {
        0
    }
}

/// Counts with the entries of a histogram added to them.
pub open spec fn counts_plus(m: Map<Seq<char>, nat>, h: Seq<(Seq<char>, usize)>) -> Map<
    Seq<char>,
    nat,
>
    decreases h.len(),
{
    if h.len() == 0 {
        m
    } else {
        let rest = counts_plus(m, h.drop_last());
        rest.insert(h.last().0, count_of(rest, h.last().0) + h.last().1 as nat)
    }
}

/// How often each label of a list occurs in it.
pub open spec fn tally_of(labels: Seq<Seq<char>>) -> Map<Seq<char>, nat>
    decreases labels.len(),
{
    if labels.len() == 0 {
        Map::empty()
    } else {
        let rest = tally_of(labels.drop_last());
        rest.insert(labels.last(), count_of(rest, labels.last()) + 1)
    }
}

/// Whether an entry stands before another: the higher count first, of equal counts the label that
/// comes first in the dictionary.
pub open spec fn entry_before(a: (Seq<char>, usize), b: (Seq<char>, usize)) -> bool {
    a.1 > b.1 || (a.1 == b.1 && text::before(a.0, b.0))
}

/// The entries of given counts.
pub open spec fn entry_of(m: Map<Seq<char>, nat>) -> spec_fn((Seq<char>, usize)) -> bool {
    |e: (Seq<char>, usize)| m.contains_key(e.0) && m[e.0] == e.1 as nat
}

/// The order of histogram entries.
pub open spec fn entry_order() -> spec_fn((Seq<char>, usize), (Seq<char>, usize)) -> bool {
    |a: (Seq<char>, usize), b: (Seq<char>, usize)| entry_before(a, b)
}

/// The histogram of given counts: each label once, the most frequent first, equal counts in
/// dictionary order.
pub open spec fn histogram_of(m: Map<Seq<char>, nat>) -> Seq<(Seq<char>, usize)> {
    ranking::listing(entry_of(m), entry_order())
}

/// No count is larger than a machine word.
pub open spec fn countable(m: Map<Seq<char>, nat>) -> bool {
    forall|l: Seq<char>| #[trigger] m.contains_key(l) ==> m[l] <= usize::MAX
}

/// No label occurs twice.
pub open spec fn distinct(h: Seq<(Seq<char>, usize)>) -> bool {
    forall|i: int, j: int|
        0 <= i < h.len() && 0 <= j < h.len() && i != j ==> (#[trigger] h[i]).0 != (
        #[trigger] h[j]).0
}

/// The label at the head of a histogram, or else the given one.
pub open spec fn head_or(h: Seq<(Seq<char>, usize)>, other: Seq<char>) -> Seq<char> {
    if h.len() > 0 {
        h[0].0
    } else {
        other
    }
}

/// The sum of all counts of a histogram.
pub open spec fn total(h: Seq<(Seq<char>, usize)>) -> nat
    decreases h.len(),
{
    if h.len() == 0 {
        0
    } else {
        total(h.drop_last()) + h.last().1 as nat
    }
}

/// The count of the first entry with the given label, zero where there is none.
pub open spec fn first_count(h: Seq<(Seq<char>, usize)>, label: Seq<char>) -> usize
    decreases h.len(),
{
    if h.len() == 0 {
        0
    } else if h[0].0 == label {
        h[0].1
    } else {
        first_count(h.drop_first(), label)
    }
}

proof fn entry_order_is_strict()
    ensures
        ranking::asymmetric(entry_order()),
        forall|a: (Seq<char>, usize), b: (Seq<char>, usize), c: (Seq<char>, usize)|
            #[trigger] entry_before(a, b) && #[trigger] entry_before(b, c) ==> entry_before(a, c),
        forall|a: (Seq<char>, usize), b: (Seq<char>, usize)|
            a.0 != b.0 ==> #[trigger] entry_before(a, b) || entry_before(b, a),
{
    assert forall|a: (Seq<char>, usize), b: (Seq<char>, usize)|
        #[trigger] entry_order()(a, b) implies !entry_order()(b, a) by {
        if entry_before(b, a) {
            text::before_transitive(a.0, b.0, a.0);
            text::before_irreflexive(a.0);
        }
    }
    assert forall|a: (Seq<char>, usize), b: (Seq<char>, usize), c: (Seq<char>, usize)|
        #[trigger] entry_before(a, b) && #[trigger] entry_before(b, c) implies entry_before(
        a,
        c,
    ) by {
        if a.1 == b.1 && b.1 == c.1 {
            text::before_transitive(a.0, b.0, c.0);
        }
    }
    assert forall|a: (Seq<char>, usize), b: (Seq<char>, usize)| a.0 != b.0 implies
        #[trigger] entry_before(a, b) || entry_before(b, a) by {
        text::before_total(a.0, b.0);
    }
}

/// In a histogram without repeated labels each entry has the count of its label.
proof fn distinct_counts(h: Seq<(Seq<char>, usize)>)
    requires
        distinct(h),
    ensures
        forall|i: int|
            0 <= i < h.len() ==> counts(h).contains_key((#[trigger] h[i]).0) && counts(h)[h[i].0]
                == h[i].1 as nat,
        forall|l: Seq<char>| #[trigger]
            counts(h).contains_key(l) ==> exists|i: int| 0 <= i < h.len() && (#[trigger] h[i]).0 == l,
    decreases h.len(),
{
    if h.len() > 0 {
        let init = h.drop_last();
        assert(distinct(init)) by {
            assert forall|i: int, j: int|
                0 <= i < init.len() && 0 <= j < init.len() && i != j implies (
            #[trigger] init[i]).0 != (#[trigger] init[j]).0 by {
                assert(h[i].0 != h[j].0);
            }
        }
        distinct_counts(init);
        assert forall|i: int| 0 <= i < h.len() implies counts(h).contains_key((#[trigger] h[i]).0)
            && counts(h)[h[i].0] == h[i].1 as nat by {
            if i < h.len() - 1 {
                assert(init[i] == h[i]);
                assert(h[i].0 != h[h.len() - 1].0);
            }
        }
        assert forall|l: Seq<char>| #[trigger] counts(h).contains_key(l) implies exists|i: int|
            0 <= i < h.len() && (#[trigger] h[i]).0 == l by {
            if l == h.last().0 {
                assert(h[h.len() - 1].0 == l);
            } else {
                assert(counts(init).contains_key(l));
                let i = choose|i: int| 0 <= i < init.len() && (#[trigger] init[i]).0 == l;
                assert(h[i].0 == l);
            }
        }
    }
}

/// The position of a label.
fn find(h: &Histogram, label: &str) -> (r: Option<usize>)
    ensures
        match r {
            Some(i) => i < h.len() && h@[i as int].0@ == label@ && forall|j: int|
                0 <= j < i ==> (#[trigger] h@[j]).0@ != label@,
            None => forall|j: int| 0 <= j < h.len() ==> (#[trigger] h@[j]).0@ != label@,
        },
{
    let mut i: usize = 0;
    while i < h.len()
        invariant
            i <= h.len(),
            forall|j: int| 0 <= j < i ==> (#[trigger] h@[j]).0@ != label@,
        decreases h.len() - i,
    {
        if text::same(h[i].0.as_str(), label) {
            return Some(i);
        }
        i += 1;
    }
    None
}

/// Gives a label a count, in place of the one it had.
fn put(h: &mut Histogram, label: &str, count: usize)
    requires
        distinct(entries(old(h)@)),
    ensures
        distinct(entries(final(h)@)),
        counts(entries(final(h)@)) == counts(entries(old(h)@)).insert(label@, count as nat),
{
    let ghost before = entries(h@);
    match find(h, label) {
        Some(i) => {
            let name = h[i].0.clone();
            h.set(i, (name, count));
            proof {
                let after = entries(h@);
                assert(after =~= before.update(i as int, (label@, count)));
                assert(distinct(after)) by {
                    assert forall|a: int, b: int|
                        0 <= a < after.len() && 0 <= b < after.len() && a != b implies (
                    #[trigger] after[a]).0 != (#[trigger] after[b]).0 by {
                        assert(before[a].0 != before[b].0);
                    }
                }
                distinct_counts(before);
                distinct_counts(after);
                let m = counts(before).insert(label@, count as nat);
                assert forall|l: Seq<char>| #[trigger]
                    counts(after).contains_key(l) <==> m.contains_key(l) by {
                    if counts(after).contains_key(l) {
                        let k = choose|k: int| 0 <= k < after.len() && (#[trigger] after[k]).0 == l;
                        assert(before[k].0 == l);
                    }
                    if m.contains_key(l) {
                        if l == label@ {
                            assert(after[i as int].0 == l);
                        } else {
                            let k = choose|k: int|
                                0 <= k < before.len() && (#[trigger] before[k]).0 == l;
                            assert(after[k].0 == l);
                        }
                    }
                }
                assert forall|l: Seq<char>| #[trigger]
                    counts(after).contains_key(l) implies counts(after)[l] == m[l] by {
                    let k = choose|k: int| 0 <= k < after.len() && (#[trigger] after[k]).0 == l;
                    assert(before[k].0 == l);
                    if k != i {
                        assert(after[k].0 != after[i as int].0);
                    }
                }
                assert(counts(after) =~= m);
            }
        },
        None => {
            h.push((label.to_owned(), count));
            proof {
                let after = entries(h@);
                assert(after =~= before.push((label@, count)));
                assert(after.drop_last() =~= before);
                assert forall|a: int, b: int|
                    0 <= a < after.len() && 0 <= b < after.len() && a != b implies (
                #[trigger] after[a]).0 != (#[trigger] after[b]).0 by {
                    if a < before.len() && b < before.len() {
                        assert(before[a].0 != before[b].0);
                    } else if a < before.len() {
                        assert(before[a].0 != label@);
                    } else {
                        assert(before[b].0 != label@);
                    }
                }
            }
        },
    }
}

/// Adds to the count of a label.
fn bump(h: &mut Histogram, label: &str, by: usize)
    requires
        distinct(entries(old(h)@)),
        count_of(counts(entries(old(h)@)), label@) + by <= usize::MAX,
    ensures
        distinct(entries(final(h)@)),
        counts(entries(final(h)@)) == counts(entries(old(h)@)).insert(
            label@,
            count_of(counts(entries(old(h)@)), label@) + by as nat,
        ),
{
    proof {
        distinct_counts(entries(h@));
    }
    let had: usize = match find(h, label) {
        Some(i) => {
            assert(entries(h@)[i as int].0 == label@);
            h[i].1
        },
        None => {
            assert(!counts(entries(h@)).contains_key(label@)) by {
                if counts(entries(h@)).contains_key(label@) {
                    let k = choose|k: int|
                        0 <= k < entries(h@).len() && (#[trigger] entries(h@)[k]).0 == label@;
                    assert(h@[k].0@ == label@);
                }
            }
            0
        },
    };
    put(h, label, had + by);
}

/// Sorts a histogram without repeated labels.
fn sorted(h: &Histogram) -> (r: Histogram)
    requires
        distinct(entries(h@)),
    ensures
        entries(r@) == histogram_of(counts(entries(h@))),
{
    let ghost es = entries(h@);
    let ghost lt = |i: int, j: int|
        0 <= i < es.len() && 0 <= j < es.len() && entry_before(es[i], es[j]);
    let before = |i: usize, j: usize| -> (b: bool)
        requires
            i < h.len(),
            j < h.len(),
        ensures
            b == entry_before(entries(h@)[i as int], entries(h@)[j as int]),
        {
            h[i].1 > h[j].1 || (h[i].1 == h[j].1 && text::precedes(h[i].0.as_str(), h[j].0.as_str()))
        };
    proof {
        entry_order_is_strict();
        assert(ranking::asymmetric(lt)) by {
            assert forall|i: int, j: int| #[trigger] lt(i, j) implies !lt(j, i) by {
                assert(entry_order()(es[i], es[j]));
            }
        }
        assert forall|i: int, j: int|
            0 <= i < es.len() && 0 <= j < es.len() && i != j implies #[trigger] lt(i, j) || lt(
            j,
            i,
        ) by {
            assert(es[i].0 != es[j].0);
            assert(entry_before(es[i], es[j]) || entry_before(es[j], es[i]));
        }
    }
    let order = ranking::arrange(h.len(), before, Ghost(lt));
    let mut out: Histogram = Vec::new();
    let mut k: usize = 0;
    while k < order.len()
        invariant
            k <= order.len(),
            order.len() == h.len(),
            forall|k: int| 0 <= k < order.len() ==> #[trigger] order@[k] < h.len(),
            out.len() == k,
            forall|j: int| 0 <= j < k ==> (#[trigger] entries(out@)[j]) == entries(h@)[order@[j] as int],
        decreases order.len() - k,
    {
        let i: usize = order[k];
        let ghost prior = entries(out@);
        out.push((h[i].0.clone(), h[i].1));
        proof {
            assert(entries(out@) =~= prior.push(entries(h@)[i as int]));
        }
        k += 1;
    }
    proof {
        let m = counts(es);
        let s = entries(out@);
        let places = ranking::positions(order@);
        distinct_counts(es);
        assert forall|i: int, j: int| 0 <= i < j < s.len() implies entry_order()(
            #[trigger] s[i],
            #[trigger] s[j],
        ) by {
            assert(lt(places[i], places[j]));
        }
        assert forall|i: int| 0 <= i < s.len() implies entry_of(m)(#[trigger] s[i]) by {
            assert(es[order@[i] as int] == s[i]);
        }
        assert forall|e: (Seq<char>, usize)| #[trigger] entry_of(m)(e) implies s.contains(e) by {
            let i = choose|i: int| 0 <= i < es.len() && (#[trigger] es[i]).0 == e.0;
            assert(ranking::below(es.len() as int)(i));
            let k = choose|k: int| 0 <= k < places.len() && places[k] == i;
            assert(s[k] == es[i]);
            assert(es[i] == e);
        }
        ranking::lists_is_listing(s, entry_of(m), entry_order());
    }
    out
}

/// Tallying a list counts no label more often than the list is long.
pub proof fn tally_bounded(labels: Seq<Seq<char>>)
    ensures
        forall|l: Seq<char>| #[trigger] tally_of(labels).contains_key(l) ==> 0 < tally_of(labels)[l]
            <= labels.len(),
    decreases labels.len(),
{
    if labels.len() > 0 {
        let rest = tally_of(labels.drop_last());
        tally_bounded(labels.drop_last());
        assert forall|l: Seq<char>| #[trigger] tally_of(labels).contains_key(l) implies 0
            < tally_of(labels)[l] <= labels.len() by {
            if rest.contains_key(l) {
                assert(rest[l] < labels.len());
            }
        }
    }
}

/// Counts the labels of a list.
pub fn tally(labels: &Vec<String>) -> (r: Histogram)
    ensures
        entries(r@) == histogram_of(tally_of(text::texts_of(labels@))),
{
    let mut h: Histogram = Vec::new();
    let ghost all = text::texts_of(labels@);
    let mut i: usize = 0;
    proof {
        assert(all.take(0) =~= Seq::empty());
        assert(entries(h@) =~= Seq::empty());
    }
    while i < labels.len()
        invariant
            i <= labels.len(),
            all == text::texts_of(labels@),
            distinct(entries(h@)),
            counts(entries(h@)) == tally_of(all.take(i as int)),
        decreases labels.len() - i,
    {
        proof {
            tally_bounded(all.take(i as int));
            assert(all.take(i + 1).drop_last() =~= all.take(i as int));
        }
        bump(&mut h, labels[i].as_str(), 1);
        i += 1;
    }
    proof {
        assert(all.take(i as int) =~= all);
    }
    sorted(&h)
}

/// Adding entries only raises counts.
proof fn counts_plus_grows(m: Map<Seq<char>, nat>, h: Seq<(Seq<char>, usize)>, k: int)
    requires
        0 <= k <= h.len(),
    ensures
        forall|l: Seq<char>|
            count_of(counts_plus(m, h.take(k)), l) <= #[trigger] count_of(counts_plus(m, h), l),
    decreases h.len() - k,
{
    if k == h.len() {
        assert(h.take(k) =~= h);
    } else {
        counts_plus_grows(m, h, k + 1);
        assert(h.take(k + 1).drop_last() =~= h.take(k));
        assert forall|l: Seq<char>|
            count_of(counts_plus(m, h.take(k)), l) <= #[trigger] count_of(counts_plus(m, h), l) by {
            assert(count_of(counts_plus(m, h.take(k + 1)), l) <= count_of(counts_plus(m, h), l));
        }
    }
}

/// Merges a histogram into another: counts of equal labels add up, and the result is sorted again.
pub fn merge_histograms(dst: &mut Histogram, src: &Histogram)
    requires
        countable(counts_plus(counts(entries(old(dst)@)), entries(src@))),
    ensures
        entries(final(dst)@) == histogram_of(
            counts_plus(counts(entries(old(dst)@)), entries(src@)),
        ),
{
    let ghost ds = entries(dst@);
    let ghost ss = entries(src@);
    let mut h: Histogram = Vec::new();
    let mut i: usize = 0;
    proof {
        assert(ds.take(0) =~= Seq::empty());
        assert(entries(h@) =~= Seq::empty());
    }
    while i < dst.len()
        invariant
            i <= dst.len(),
            ds == entries(dst@),
            distinct(entries(h@)),
            counts(entries(h@)) == counts(ds.take(i as int)),
        decreases dst.len() - i,
    {
        proof {
            assert(ds.take(i + 1).drop_last() =~= ds.take(i as int));
        }
        put(&mut h, dst[i].0.as_str(), dst[i].1);
        i += 1;
    }
    proof {
        assert(ds.take(i as int) =~= ds);
        assert(ss.take(0) =~= Seq::empty());
    }
    i = 0;
    while i < src.len()
        invariant
            i <= src.len(),
            ss == entries(src@),
            distinct(entries(h@)),
            countable(counts_plus(counts(ds), ss)),
            counts(entries(h@)) == counts_plus(counts(ds), ss.take(i as int)),
        decreases src.len() - i,
    {
        proof {
            let label = src@[i as int].0@;
            counts_plus_grows(counts(ds), ss, i + 1);
            assert(ss.take(i + 1).drop_last() =~= ss.take(i as int));
            assert(count_of(counts_plus(counts(ds), ss.take(i + 1)), label) <= count_of(
                counts_plus(counts(ds), ss),
                label,
            ));
        }
        bump(&mut h, src[i].0.as_str(), src[i].1);
        i += 1;
    }
    proof {
        assert(ss.take(i as int) =~= ss);
    }
    *dst = sorted(&h);
}

/// Copies a histogram.
pub fn copy(h: &Histogram) -> (r: Histogram)
    ensures
        entries(r@) == entries(h@),
        r.len() == h.len(),
{
    let mut out: Histogram = Vec::new();
    let mut i: usize = 0;
    while i < h.len()
        invariant
            i <= h.len(),
            out.len() == i,
            forall|j: int| 0 <= j < i ==> (#[trigger] out@[j]).0@ == h@[j].0@ && out@[j].1 == h@[j].1,
        decreases h.len() - i,
    {
        out.push((h[i].0.clone(), h[i].1));
        i += 1;
    }
    assert(entries(out@) =~= entries(h@));
    out
}

/// The label at the head of a histogram, or else the given one.
pub fn head(h: &Histogram, other: &str) -> (r: String)
    ensures
        r@ == head_or(entries(h@), other@),
{
    if h.len() > 0 {
        h[0].0.clone()
    } else {
        other.to_owned()
    }
}

/// Prefixes of a histogram count no more than all of it.
proof fn total_grows(h: Seq<(Seq<char>, usize)>, k: int)
    requires
        0 <= k <= h.len(),
    ensures
        total(h.take(k)) <= total(h),
    decreases h.len() - k,
{
    if k == h.len() {
        assert(h.take(k) =~= h);
    } else {
        total_grows(h, k + 1);
        assert(h.take(k + 1).drop_last() =~= h.take(k));
    }
}

/// Adds up the counts of a histogram.
pub fn sum(h: &Histogram) -> (r: usize)
    requires
        total(entries(h@)) <= usize::MAX,
    ensures
        r == total(entries(h@)),
{
    let ghost es = entries(h@);
    let mut acc: usize = 0;
    let mut i: usize = 0;
    proof {
        assert(es.take(0) =~= Seq::empty());
    }
    while i < h.len()
        invariant
            i <= h.len(),
            es == entries(h@),
            total(es) <= usize::MAX,
            acc == total(es.take(i as int)),
        decreases h.len() - i,
    {
        proof {
            total_grows(es, i + 1);
            assert(es.take(i + 1).drop_last() =~= es.take(i as int));
        }
        acc += h[i].1;
        i += 1;
    }
    proof {
        assert(es.take(i as int) =~= es);
    }
    acc
}

/// Whether no label counts more than a bound.
pub fn within(h: &Histogram, bound: usize) -> (r: bool)
    ensures
        r == forall|l: Seq<char>| #[trigger] count_of(counts(entries(h@)), l) <= bound,
{
    let ghost es = entries(h@);
    let mut d: Histogram = Vec::new();
    let mut i: usize = 0;
    proof {
        assert(es.take(0) =~= Seq::empty());
        assert(entries(d@) =~= Seq::empty());
    }
    while i < h.len()
        invariant
            i <= h.len(),
            es == entries(h@),
            distinct(entries(d@)),
            counts(entries(d@)) == counts(es.take(i as int)),
        decreases h.len() - i,
    {
        proof {
            assert(es.take(i + 1).drop_last() =~= es.take(i as int));
        }
        put(&mut d, h[i].0.as_str(), h[i].1);
        i += 1;
    }
    proof {
        assert(es.take(i as int) =~= es);
        distinct_counts(entries(d@));
    }
    let ghost ds = entries(d@);
    i = 0;
    while i < d.len()
        invariant
            i <= d.len(),
            ds == entries(d@),
            es == entries(h@),
            counts(ds) == counts(es),
            forall|k: int|
                0 <= k < ds.len() ==> counts(ds).contains_key((#[trigger] ds[k]).0)
                    && counts(ds)[ds[k].0] == ds[k].1 as nat,
            forall|k: int| 0 <= k < i ==> (#[trigger] ds[k]).1 <= bound,
        decreases d.len() - i,
    {
        assert(ds[i as int].1 == d@[i as int].1);
        if d[i].1 > bound {
            assert(count_of(counts(es), ds[i as int].0) > bound);
            return false;
        }
        i += 1;
    }
    proof {
        assert forall|l: Seq<char>| #[trigger] count_of(counts(es), l) <= bound by {
            if counts(es).contains_key(l) {
                let k = choose|k: int| 0 <= k < ds.len() && (#[trigger] ds[k]).0 == l;
                assert(ds[k].1 <= bound);
            }
        }
    }
    true
}

/// Whether the counts of a histogram add up to a machine word.
pub fn summable(h: &Histogram) -> (r: bool)
    ensures
        r == (total(entries(h@)) <= usize::MAX),
{
    let ghost es = entries(h@);
    let mut acc: usize = 0;
    let mut i: usize = 0;
    proof {
        assert(es.take(0) =~= Seq::empty());
    }
    while i < h.len()
        invariant
            i <= h.len(),
            es == entries(h@),
            acc == total(es.take(i as int)),
        decreases h.len() - i,
    {
        proof {
            total_grows(es, i + 1);
            assert(es.take(i + 1).drop_last() =~= es.take(i as int));
        }
        if h[i].1 > usize::MAX - acc {
            return false;
        }
        acc += h[i].1;
        i += 1;
    }
    proof {
        assert(es.take(i as int) =~= es);
    }
    true
}

/// The first entry with a label decides its count.
proof fn first_count_at(h: Seq<(Seq<char>, usize)>, label: Seq<char>, i: int)
    requires
        0 <= i < h.len(),
        h[i].0 == label,
        forall|j: int| 0 <= j < i ==> (#[trigger] h[j]).0 != label,
    ensures
        first_count(h, label) == h[i].1,
    decreases i,
{
    if i > 0 {
        assert(h[0].0 != label);
        let rest = h.drop_first();
        assert forall|j: int| 0 <= j < i - 1 implies (#[trigger] rest[j]).0 != label by {
            assert(h[j + 1].0 != label);
        }
        first_count_at(rest, label, i - 1);
    }
}

proof fn first_count_absent(h: Seq<(Seq<char>, usize)>, label: Seq<char>)
    requires
        forall|j: int| 0 <= j < h.len() ==> (#[trigger] h[j]).0 != label,
    ensures
        first_count(h, label) == 0,
    decreases h.len(),
{
    if h.len() > 0 {
        assert(h[0].0 != label);
        let rest = h.drop_first();
        assert forall|j: int| 0 <= j < rest.len() implies (#[trigger] rest[j]).0 != label by {
            assert(h[j + 1].0 != label);
        }
        first_count_absent(rest, label);
    }
}

/// The count of the first entry with a label, zero where there is none.
pub fn count(h: &Histogram, label: &str) -> (r: usize)
    ensures
        r == first_count(entries(h@), label@),
{
    let ghost es = entries(h@);
    match find(h, label) {
        Some(i) => {
            proof {
                assert forall|j: int| 0 <= j < i implies (#[trigger] es[j]).0 != label@ by {
                    assert(h@[j].0@ != label@);
                }
                first_count_at(es, label@, i as int);
            }
            h[i].1
        },
        None => {
            proof {
                assert forall|j: int| 0 <= j < es.len() implies (#[trigger] es[j]).0 != label@ by {
                    assert(h@[j].0@ != label@);
                }
                first_count_absent(es, label@);
            }
            0
        },
    }
}

/// Entry lists of the same counts hold the same entries.
proof fn same_counts_same_entries(g: Seq<(Seq<char>, usize)>, h: Seq<(Seq<char>, usize)>, i: int)
    requires
        distinct(g),
        distinct(h),
        counts(g) == counts(h),
        0 <= i < g.len(),
    ensures
        h.contains(g[i]),
{
    distinct_counts(g);
    distinct_counts(h);
    assert(counts(g).contains_key(g[i].0));
    assert(counts(h).contains_key(g[i].0));
    let k = choose|k: int| 0 <= k < h.len() && (#[trigger] h[k]).0 == g[i].0;
    assert(h[k] == g[i]);
}

/// Taking one entry out of a histogram without repeated labels.
proof fn removing_an_entry(h: Seq<(Seq<char>, usize)>, i: int)
    requires
        distinct(h),
        0 <= i < h.len(),
    ensures
        distinct(h.remove(i)),
        counts(h.remove(i)) == counts(h).remove(h[i].0),
        total(h) == total(h.remove(i)) + h[i].1,
    decreases h.len(),
{
    let rest = h.remove(i);
    assert forall|a: int, b: int| 0 <= a < rest.len() && 0 <= b < rest.len() && a != b implies (
    #[trigger] rest[a]).0 != (#[trigger] rest[b]).0 by {
        let x = if a < i {
            a
        } else {
            a + 1
        };
        let y = if b < i {
            b
        } else {
            b + 1
        };
        assert(rest[a] == h[x]);
        assert(rest[b] == h[y]);
    }
    if i == h.len() - 1 {
        assert(rest =~= h.drop_last());
        let init = h.drop_last();
        distinct_counts(init);
        assert(!counts(init).contains_key(h.last().0)) by {
            if counts(init).contains_key(h.last().0) {
                let k = choose|k: int| 0 <= k < init.len() && (#[trigger] init[k]).0 == h.last().0;
                assert(h[k].0 == h[h.len() - 1].0);
            }
        }
        assert(counts(rest) =~= counts(h).remove(h[i].0));
    } else {
        let init = h.drop_last();
        assert(distinct(init)) by {
            assert forall|a: int, b: int|
                0 <= a < init.len() && 0 <= b < init.len() && a != b implies (#[trigger] init[a]).0
                != (#[trigger] init[b]).0 by {
                assert(h[a].0 != h[b].0);
            }
        }
        removing_an_entry(init, i);
        assert(rest.drop_last() =~= init.remove(i));
        assert(rest.last() == h.last());
        assert(h[i].0 != h[h.len() - 1].0);
        assert(counts(rest) =~= counts(h).remove(h[i].0));
    }
}

/// Histograms of the same counts have the same total.
proof fn same_counts_same_total(g: Seq<(Seq<char>, usize)>, h: Seq<(Seq<char>, usize)>)
    requires
        distinct(g),
        distinct(h),
        counts(g) == counts(h),
    ensures
        total(g) == total(h),
    decreases g.len(),
{
    if g.len() == 0 {
        if h.len() > 0 {
            same_counts_same_entries(h, g, 0);
        }
    } else {
        let i = g.len() - 1;
        same_counts_same_entries(g, h, i);
        let k = choose|k: int| 0 <= k < h.len() && h[k] == g[i];
        removing_an_entry(g, i);
        removing_an_entry(h, k);
        same_counts_same_total(g.remove(i), h.remove(k));
    }
}

/// Entries of given finite counts.
proof fn entries_exist(m: Map<Seq<char>, nat>) -> (h: Seq<(Seq<char>, usize)>)
    requires
        m.dom().finite(),
        countable(m),
    ensures
        distinct(h),
        counts(h) == m,
    decreases m.dom().len(),
{
    if m.dom().len() == 0 {
        assert(m =~= Map::empty());
        Seq::empty()
    } else {
        let l = m.dom().choose();
        let rest = m.remove(l);
        assert forall|k: Seq<char>| #[trigger] rest.contains_key(k) implies rest[k] <= usize::MAX by {
            assert(m.contains_key(k));
        }
        let init = entries_exist(rest);
        let h = init.push((l, m[l] as usize));
        distinct_counts(init);
        assert(m.contains_key(l));
        assert(h.drop_last() =~= init);
        assert(counts(h) =~= m);
        assert forall|a: int, b: int| 0 <= a < h.len() && 0 <= b < h.len() && a != b implies (
        #[trigger] h[a]).0 != (#[trigger] h[b]).0 by {
            if a < init.len() && b < init.len() {
                assert(init[a].0 != init[b].0);
            } else if a < init.len() {
                assert(rest.contains_key(init[a].0));
            } else {
                assert(rest.contains_key(init[b].0));
            }
        }
        h
    }
}

/// Entries can be put in order.
proof fn entries_sort(h: Seq<(Seq<char>, usize)>) -> (s: Seq<(Seq<char>, usize)>)
    requires
        distinct(h),
    ensures
        ranking::lists(s, entry_of(counts(h)), entry_order()),
    decreases h.len(),
{
    entry_order_is_strict();
    distinct_counts(h);
    if h.len() == 0 {
        Seq::empty()
    } else {
        let init = h.drop_last();
        let e = h.last();
        removing_an_entry(h, h.len() - 1);
        assert(h.remove(h.len() - 1) =~= init);
        let t = entries_sort(init);
        let m = counts(h);
        assert forall|i: int| 0 <= i < t.len() implies (#[trigger] t[i]).0 != e.0 by {
            assert(entry_of(counts(init))(t[i]));
        }
        let k = place_of(t, e);
        let s = t.insert(k, e);
        assert forall|a: int, b: int| 0 <= a < b < s.len() implies entry_order()(
            #[trigger] s[a],
            #[trigger] s[b],
        ) by {
            if a < k {
                assert(s[a] == t[a]);
                if b > k {
                    assert(s[b] == t[b - 1]);
                    assert(entry_order()(t[a], t[b - 1]));
                } else if b < k {
                    assert(s[b] == t[b]);
                    assert(entry_order()(t[a], t[b]));
                }
            } else {
                assert(s[b] == t[b - 1]);
                if a > k {
                    assert(s[a] == t[a - 1]);
                    assert(entry_order()(t[a - 1], t[b - 1]));
                }
            }
        }
        assert forall|a: int| 0 <= a < s.len() implies entry_of(m)(#[trigger] s[a]) by {
            if a < k {
                assert(s[a] == t[a]);
                assert(entry_of(counts(init))(t[a]));
            } else if a > k {
                assert(s[a] == t[a - 1]);
                assert(entry_of(counts(init))(t[a - 1]));
            } else {
                assert(h[h.len() - 1] == e);
            }
        }
        assert forall|x: (Seq<char>, usize)| #[trigger] entry_of(m)(x) implies s.contains(x) by {
            if x.0 == e.0 {
                assert(h[h.len() - 1] == e);
                assert(s[k] == x);
            } else {
                assert(entry_of(counts(init))(x));
                let j = choose|j: int| 0 <= j < t.len() && t[j] == x;
                if j < k {
                    assert(s[j] == x);
                } else {
                    assert(s[j + 1] == x);
                }
            }
        }
        s
    }
}

/// The place of an entry among ordered ones.
proof fn place_of(t: Seq<(Seq<char>, usize)>, e: (Seq<char>, usize)) -> (k: int)
    requires
        forall|i: int, j: int| 0 <= i < j < t.len() ==> entry_before(#[trigger] t[i], #[trigger] t[j]),
        forall|i: int| 0 <= i < t.len() ==> (#[trigger] t[i]).0 != e.0,
    ensures
        0 <= k <= t.len(),
        forall|i: int| 0 <= i < k ==> entry_before(#[trigger] t[i], e),
        forall|i: int| k <= i < t.len() ==> entry_before(e, #[trigger] t[i]),
    decreases t.len(),
{
    entry_order_is_strict();
    if t.len() == 0 {
        0
    } else if entry_before(t.last(), e) {
        assert forall|i: int| 0 <= i < t.len() implies entry_before(#[trigger] t[i], e) by {
            if i < t.len() - 1 {
                assert(entry_before(t[i], t[t.len() - 1]));
            }
        }
        t.len() as int
    } else {
        let init = t.drop_last();
        assert(t[t.len() - 1].0 != e.0);
        assert forall|i: int, j: int| 0 <= i < j < init.len() implies entry_before(
            #[trigger] init[i],
            #[trigger] init[j],
        ) by {
            assert(entry_before(t[i], t[j]));
        }
        assert forall|i: int| 0 <= i < init.len() implies (#[trigger] init[i]).0 != e.0 by {
            assert(t[i].0 != e.0);
        }
        let k = place_of(init, e);
        assert forall|i: int| 0 <= i < k implies entry_before(#[trigger] t[i], e) by {
            assert(init[i] == t[i]);
        }
        assert forall|i: int| k <= i < t.len() implies entry_before(e, #[trigger] t[i]) by {
            if i < t.len() - 1 {
                assert(init[i] == t[i]);
            }
        }
        k
    }
}

/// The histogram of finite counts lists each label once, with its count, in order.
pub proof fn histogram_is_faithful(m: Map<Seq<char>, nat>)
    requires
        m.dom().finite(),
        countable(m),
    ensures
        ranking::lists(histogram_of(m), entry_of(m), entry_order()),
        distinct(histogram_of(m)),
        counts(histogram_of(m)) == m,
{
    let h = entries_exist(m);
    let t = entries_sort(h);
    let s = histogram_of(m);
    assert(ranking::lists(t, entry_of(m), entry_order()));
    assert(ranking::lists(s, entry_of(m), entry_order()));
    entry_order_is_strict();
    assert forall|i: int, j: int| 0 <= i < s.len() && 0 <= j < s.len() && i != j implies (
    #[trigger] s[i]).0 != (#[trigger] s[j]).0 by {
        assert(entry_of(m)(s[i]) && entry_of(m)(s[j]));
        if s[i].0 == s[j].0 {
            assert(s[i] == s[j]);
            if i < j {
                assert(entry_order()(s[i], s[j]));
            } else {
                assert(entry_order()(s[j], s[i]));
            }
        }
    }
    distinct_counts(s);
    assert forall|l: Seq<char>| #[trigger] counts(s).contains_key(l) <==> m.contains_key(l) by {
        if counts(s).contains_key(l) {
            let i = choose|i: int| 0 <= i < s.len() && (#[trigger] s[i]).0 == l;
            assert(entry_of(m)(s[i]));
        }
        if m.contains_key(l) {
            let e = (l, m[l] as usize);
            assert(entry_of(m)(e));
            let i = choose|i: int| 0 <= i < s.len() && s[i] == e;
            assert(s[i].0 == l);
        }
    }
    assert forall|l: Seq<char>| #[trigger] counts(s).contains_key(l) implies counts(s)[l] == m[l] by {
        let i = choose|i: int| 0 <= i < s.len() && (#[trigger] s[i]).0 == l;
        assert(entry_of(m)(s[i]));
    }
    assert(counts(s) =~= m);
}

/// Counts are finite.
pub proof fn counts_finite(h: Seq<(Seq<char>, usize)>)
    ensures
        counts(h).dom().finite(),
        countable(counts(h)),
    decreases h.len(),
{
    if h.len() > 0 {
        counts_finite(h.drop_last());
        let rest = counts(h.drop_last());
        assert(counts(h).dom() =~= rest.dom().insert(h.last().0));
        assert forall|l: Seq<char>| #[trigger] counts(h).contains_key(l) implies counts(h)[l]
            <= usize::MAX by {
            if l != h.last().0 {
                assert(rest.contains_key(l));
            }
        }
    }
}

/// Adding entries to finite counts leaves them finite.
pub proof fn counts_plus_finite(m: Map<Seq<char>, nat>, h: Seq<(Seq<char>, usize)>)
    requires
        m.dom().finite(),
    ensures
        counts_plus(m, h).dom().finite(),
    decreases h.len(),
{
    if h.len() > 0 {
        counts_plus_finite(m, h.drop_last());
        assert(counts_plus(m, h).dom() =~= counts_plus(m, h.drop_last()).dom().insert(h.last().0));
    }
}

/// Tallies are finite.
pub proof fn tally_finite(labels: Seq<Seq<char>>)
    ensures
        tally_of(labels).dom().finite(),
    decreases labels.len(),
{
    if labels.len() > 0 {
        tally_finite(labels.drop_last());
        assert(tally_of(labels).dom() =~= tally_of(labels.drop_last()).dom().insert(labels.last()));
    }
}

/// Merging a histogram without repeated labels adds the two counts of every label.
pub proof fn merging_adds_counts(
    m: Map<Seq<char>, nat>,
    h: Seq<(Seq<char>, usize)>,
    label: Seq<char>,
)
    requires
        distinct(h),
    ensures
        count_of(counts_plus(m, h), label) == count_of(m, label) + count_of(counts(h), label),
    decreases h.len(),
{
    if h.len() > 0 {
        let init = h.drop_last();
        removing_an_entry(h, h.len() - 1);
        assert(h.remove(h.len() - 1) =~= init);
        merging_adds_counts(m, init, label);
    }
}

/// Giving a label a count changes the total by the difference.
proof fn total_with(
    g: Seq<(Seq<char>, usize)>,
    h: Seq<(Seq<char>, usize)>,
    label: Seq<char>,
    count: nat,
)
    requires
        distinct(g),
        distinct(h),
        counts(h) == counts(g).insert(label, count),
    ensures
        total(h) == total(g) + count - count_of(counts(g), label),
{
    distinct_counts(g);
    distinct_counts(h);
    let i = choose|i: int| 0 <= i < h.len() && (#[trigger] h[i]).0 == label;
    assert(counts(h).contains_key(label));
    assert(h[i].0 == label && h[i].1 == count);
    removing_an_entry(h, i);
    if counts(g).contains_key(label) {
        let k = choose|k: int| 0 <= k < g.len() && (#[trigger] g[k]).0 == label;
        assert(g[k].0 == label);
        removing_an_entry(g, k);
        assert(counts(h.remove(i)) =~= counts(g.remove(k)));
        same_counts_same_total(h.remove(i), g.remove(k));
    } else {
        assert(counts(h.remove(i)) =~= counts(g));
        same_counts_same_total(h.remove(i), g);
    }
}

/// The counts of a tally add up to the number of labels.
pub proof fn tally_total(labels: Seq<Seq<char>>)
    requires
        labels.len() <= usize::MAX,
    ensures
        total(histogram_of(tally_of(labels))) == labels.len(),
    decreases labels.len(),
{
    tally_finite(labels);
    tally_bounded(labels);
    histogram_is_faithful(tally_of(labels));
    if labels.len() > 0 {
        let init = labels.drop_last();
        tally_total(init);
        tally_finite(init);
        tally_bounded(init);
        histogram_is_faithful(tally_of(init));
        total_with(
            histogram_of(tally_of(init)),
            histogram_of(tally_of(labels)),
            labels.last(),
            count_of(tally_of(init), labels.last()) + 1,
        );
    } else {
        let s = histogram_of(tally_of(labels));
        distinct_counts(s);
        if s.len() > 0 {
            assert(counts(s).contains_key(s[0].0));
        }
    }
}

/// Merging loses no count: the total of the merged histogram is the sum of the two totals.
pub proof fn merging_adds_totals(g: Seq<(Seq<char>, usize)>, h: Seq<(Seq<char>, usize)>)
    requires
        distinct(g),
        countable(counts_plus(counts(g), h)),
    ensures
        total(histogram_of(counts_plus(counts(g), h))) == total(g) + total(h),
    decreases h.len(),
{
    counts_finite(g);
    counts_plus_finite(counts(g), h);
    histogram_is_faithful(counts_plus(counts(g), h));
    if h.len() == 0 {
        same_counts_same_total(histogram_of(counts_plus(counts(g), h)), g);
    } else {
        let init = h.drop_last();
        counts_plus_grows(counts(g), h, h.len() - 1);
        assert(h.take(h.len() - 1) =~= init);
        assert(countable(counts_plus(counts(g), init))) by {
            assert forall|l: Seq<char>| #[trigger]
                counts_plus(counts(g), init).contains_key(l) implies counts_plus(counts(g), init)[l]
                <= usize::MAX by {
                assert(count_of(counts_plus(counts(g), init), l) <= count_of(
                    counts_plus(counts(g), h),
                    l,
                ));
                assert(counts_plus(counts(g), h).contains_key(l));
            }
        }
        merging_adds_totals(g, init);
        counts_plus_finite(counts(g), init);
        histogram_is_faithful(counts_plus(counts(g), init));
        total_with(
            histogram_of(counts_plus(counts(g), init)),
            histogram_of(counts_plus(counts(g), h)),
            h.last().0,
            count_of(counts_plus(counts(g), init), h.last().0) + h.last().1 as nat,
        );
    }
}

/// How often a label occurs in a list.
pub open spec fn occurrences(labels: Seq<Seq<char>>, label: Seq<char>) -> nat {
    labels.filter(|l: Seq<char>| l == label).len()
}

/// A tally counts: a label has the number of its occurrences, and one that does not occur has none.
pub proof fn tallies_count_occurrences(labels: Seq<Seq<char>>, label: Seq<char>)
    ensures
        count_of(tally_of(labels), label) == occurrences(labels, label),
        tally_of(labels).contains_key(label) <==> labels.contains(label),
    decreases labels.len(),
{
    reveal(Seq::filter);
    if labels.len() > 0 {
        let init = labels.drop_last();
        tallies_count_occurrences(init, label);
        if labels.contains(label) && label != labels.last() {
            let i = choose|i: int| 0 <= i < labels.len() && labels[i] == label;
            assert(init[i] == label);
        }
        if init.contains(label) {
            let i = choose|i: int| 0 <= i < init.len() && init[i] == label;
            assert(labels[i] == label);
        }
        assert(labels[labels.len() - 1] == labels.last());
    }
}

/// A histogram shows each label once, with its count, the higher count first, and equal counts in
/// dictionary order.
pub proof fn histograms_put_the_frequent_first(m: Map<Seq<char>, nat>)
    requires
        m.dom().finite(),
        countable(m),
    ensures
        ({
            let h = histogram_of(m);
            &&& forall|i: int| 0 <= i < h.len() ==> m.contains_key((#[trigger] h[i]).0) && m[h[i].0]
                == h[i].1
            &&& forall|l: Seq<char>| #[trigger]
                m.contains_key(l) ==> exists|i: int| 0 <= i < h.len() && (#[trigger] h[i]).0 == l
            &&& forall|i: int, j: int|
                0 <= i < j < h.len() ==> (#[trigger] h[i]).1 >= (#[trigger] h[j]).1 && (h[i].1
                    == h[j].1 ==> text::before(h[i].0, h[j].0))
        }),
{
    let h = histogram_of(m);
    histogram_is_faithful(m);
    assert forall|i: int| 0 <= i < h.len() implies m.contains_key((#[trigger] h[i]).0) && m[h[i].0]
        == h[i].1 by {
        assert(entry_of(m)(h[i]));
    }
    assert forall|l: Seq<char>| #[trigger] m.contains_key(l) implies exists|i: int|
        0 <= i < h.len() && (#[trigger] h[i]).0 == l by {
        let e = (l, m[l] as usize);
        assert(entry_of(m)(e));
        let i = choose|i: int| 0 <= i < h.len() && h[i] == e;
        assert(h[i].0 == l);
    }
    assert forall|i: int, j: int| 0 <= i < j < h.len() implies (#[trigger] h[i]).1 >= (
    #[trigger] h[j]).1 && (h[i].1 == h[j].1 ==> text::before(h[i].0, h[j].0)) by {
        assert(entry_order()(h[i], h[j]));
    }
}

/// The label at the head of the histogram of a list dominates it: it occurs, no label occurs more often,
/// and of those that occur as often it stands first in the dictionary. A list without labels has none.
pub proof fn the_head_dominates(labels: Seq<Seq<char>>, other: Seq<char>, label: Seq<char>)
    requires
        labels.len() <= usize::MAX,
    ensures
        ({
            let head = head_or(histogram_of(tally_of(labels)), other);
            &&& labels.len() == 0 ==> head == other
            &&& labels.len() > 0 ==> labels.contains(head)
            &&& occurrences(labels, label) <= occurrences(labels, head)
            &&& labels.contains(label) && label != head && occurrences(labels, label) == occurrences(
                labels,
                head,
            ) ==> text::before(head, label)
        }),
{
    let m = tally_of(labels);
    let h = histogram_of(m);
    tally_finite(labels);
    tally_bounded(labels);
    histograms_put_the_frequent_first(m);
    tallies_count_occurrences(labels, label);
    if labels.len() > 0 {
        tallies_count_occurrences(labels, labels[0]);
        assert(m.contains_key(labels[0]));
        let head = h[0].0;
        tallies_count_occurrences(labels, head);
        if labels.contains(label) {
            let i = choose|i: int| 0 <= i < h.len() && (#[trigger] h[i]).0 == label;
            assert(h[0].1 >= h[i].1);
            assert(m[h[i].0] == h[i].1);
        }
    } else {
        if h.len() > 0 {
            assert(m.contains_key(h[0].0));
        }
    }
}

/// The count that a histogram shows for a label is that of the first entry with it, and zero without
/// one; the total is what all entries count together.
pub proof fn counts_are_read_from_the_front(h: Seq<(Seq<char>, usize)>, label: Seq<char>, n: usize)
    ensures
        first_count(Seq::empty(), label) == 0,
        first_count(seq![(label, n)] + h, label) == n,
        forall|other: Seq<char>|
            other != label ==> #[trigger] first_count(seq![(other, n)] + h, label) == first_count(
                h,
                label,
            ),
        total(Seq::empty()) == 0,
        total(h.push((label, n))) == total(h) + n,
{
    let s = seq![(label, n)] + h;
    assert(s[0] == (label, n));
    assert forall|other: Seq<char>| other != label implies #[trigger] first_count(
        seq![(other, n)] + h,
        label,
    ) == first_count(h, label) by {
        let t = seq![(other, n)] + h;
        assert(t[0] == (other, n));
        assert(t.drop_first() =~= h);
    }
    assert(h.push((label, n)).drop_last() =~= h);
}

proof fn entries_are_within_the_total(h: Seq<(Seq<char>, usize)>, i: int)
    requires
        0 <= i < h.len(),
    ensures
        h[i].1 <= total(h),
    decreases h.len(),
{
    if i < h.len() - 1 {
        entries_are_within_the_total(h.drop_last(), i);
    }
}

proof fn first_count_is_an_entry(h: Seq<(Seq<char>, usize)>, label: Seq<char>)
    ensures
        first_count(h, label) == 0 || exists|i: int|
            0 <= i < h.len() && (#[trigger] h[i]).1 == first_count(h, label),
    decreases h.len(),
{
    if h.len() > 0 && h[0].0 != label {
        let rest = h.drop_first();
        first_count_is_an_entry(rest, label);
        if first_count(rest, label) != 0 {
            let i = choose|i: int|
                0 <= i < rest.len() && (#[trigger] rest[i]).1 == first_count(rest, label);
            assert(h[i + 1].1 == first_count(h, label));
        }
    }
}

/// No label counts more than all labels together.
pub proof fn counts_are_within_the_total(h: Seq<(Seq<char>, usize)>, label: Seq<char>)
    ensures
        first_count(h, label) <= total(h),
{
    first_count_is_an_entry(h, label);
    if first_count(h, label) != 0 {
        let i = choose|i: int| 0 <= i < h.len() && (#[trigger] h[i]).1 == first_count(h, label);
        entries_are_within_the_total(h, i);
    }
}

} // verus!
