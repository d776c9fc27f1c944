//! Trajectories: the share of each behaviour at each milestone of an arc.

use crate::archetype;
use crate::archetype::ArcMilestone;
use crate::archetype::MilestoneView;
use crate::arithmetic;
use crate::arithmetic::Arithmetic;
use crate::capacity;
use crate::histogram;
use crate::modes::ONE_SINGLE;
use crate::number::Single;
use crate::number::Vector;
use crate::selection;
use crate::text;
use vstd::prelude::*;

verus! {

/// The share of a behaviour in the activity of a milestone.
pub open spec fn share<A: Arithmetic>(arith: A, m: MilestoneView, label: Seq<char>) -> Single {
    let whole = histogram::total(m.label_histogram);
    if whole > 0 {
        arithmetic::quotient32(
            arith,
            arithmetic::single_of(
                arith,
                histogram::first_count(m.label_histogram, label) as u64,
            ),
            arithmetic::single_of(arith, whole as u64),
        )
    } else {
        Single::nought()
    }
}

/// The shares of a behaviour along milestones.
pub open spec fn shares<A: Arithmetic>(
    arith: A,
    ms: Seq<MilestoneView>,
    label: Seq<char>,
) -> Seq<Single> {
    Seq::new(ms.len(), |i: int| share(arith, ms[i], label))
}

/// The shares of a behaviour along milestones.
pub fn trace_label<A: Arithmetic>(arith: &A, ms: &Vec<&ArcMilestone>, label: &str) -> (r: Vector)
    requires
        arithmetic::lawful(*arith),
        capacity::arc_countable(archetype::milestones_of(selection::targets(ms@))),
    ensures
        r@ == shares(*arith, archetype::milestones_of(selection::targets(ms@)), label@),
{
    let ghost all = archetype::milestones_of(selection::targets(ms@));
    let mut out: Vector = Vec::new();
    let mut i: usize = 0;
    while i < ms.len()
        invariant
            arithmetic::lawful(*arith),
            i <= ms.len(),
            all == archetype::milestones_of(selection::targets(ms@)),
            capacity::arc_countable(all),
            out.len() == i,
            forall|j: int| 0 <= j < i ==> #[trigger] out@[j] == share(*arith, all[j], label@),
        decreases ms.len() - i,
    {
        assert(all[i as int] == ms@[i as int]@);
        let whole = histogram::sum(&ms[i].label_histogram);
        let part = histogram::count(&ms[i].label_histogram, label);
        if whole > 0 {
            out.push(
                arithmetic::over32(
                    arith,
                    arithmetic::single_from(arith, part as u64),
                    arithmetic::single_from(arith, whole as u64),
                ),
            );
        } else {
            out.push(Single::zero());
        }
        i += 1;
    }
    assert(out@ =~= shares(*arith, all, label@));
    out
}

/// The sum of a series, from its first value on.
pub open spec fn sum_of<A: Arithmetic>(arith: A, s: Seq<Single>) -> Single
    decreases s.len(),
{
    if s.len() == 0 {
        Single::nought()
    } else {
        arithmetic::sum32(arith, sum_of(arith, s.drop_last()), s.last())
    }
}

/// The highest value of a series, at least zero.
pub open spec fn peak_of(s: Seq<Single>) -> Single
    decreases s.len(),
{
    if s.len() == 0 {
        Single::nought()
    } else {
        peak_of(s.drop_last()).larger(s.last())
    }
}

/// The square of each value's distance from a mean.
pub open spec fn squared_deviations<A: Arithmetic>(
    arith: A,
    s: Seq<Single>,
    mean: Single,
) -> Seq<Single> {
    Seq::new(
        s.len(),
        |i: int|
            arithmetic::product32(
                arith,
                arithmetic::difference32(arith, s[i], mean),
                arithmetic::difference32(arith, s[i], mean),
            ),
    )
}

/// How prominent a behaviour is: its peak, raised by how concentrated it is,
/// `peak · (1 + variance)`.
pub open spec fn prominence<A: Arithmetic>(arith: A, s: Seq<Single>) -> Single {
    let n = arithmetic::single_of(
        arith,
        (if s.len() == 0 {
            1
        } else {
            s.len()
        }) as u64,
    );
    let mean = arithmetic::quotient32(arith, sum_of(arith, s), n);
    let variance = arithmetic::quotient32(
        arith,
        sum_of(arith, squared_deviations(arith, s, mean)),
        n,
    );
    arithmetic::product32(
        arith,
        peak_of(s),
        arithmetic::sum32(arith, Single { bits: ONE_SINGLE }, variance),
    )
}

/// Adds up a series.
fn add_up<A: Arithmetic>(arith: &A, s: &Vector) -> (r: Single)
    requires
        arithmetic::lawful(*arith),
    ensures
        r == sum_of(*arith, s@),
{
    let mut acc = Single::zero();
    let mut i: usize = 0;
    proof {
        assert(s@.take(0) =~= Seq::empty());
    }
    while i < s.len()
        invariant
            arithmetic::lawful(*arith),
            i <= s.len(),
            acc == sum_of(*arith, s@.take(i as int)),
        decreases s.len() - i,
    {
        proof {
            assert(s@.take(i + 1).drop_last() =~= s@.take(i as int));
        }
        acc = arithmetic::plus32(arith, acc, s[i]);
        i += 1;
    }
    proof {
        assert(s@.take(i as int) =~= s@);
    }
    acc
}

/// The highest value of a series, at least zero.
pub fn peak(s: &Vector) -> (r: Single)
    ensures
        r == peak_of(s@),
{
    let mut best = Single::zero();
    let mut i: usize = 0;
    proof {
        assert(s@.take(0) =~= Seq::empty());
    }
    while i < s.len()
        invariant
            i <= s.len(),
            best == peak_of(s@.take(i as int)),
        decreases s.len() - i,
    {
        proof {
            assert(s@.take(i + 1).drop_last() =~= s@.take(i as int));
        }
        best = best.max(s[i]);
        i += 1;
    }
    proof {
        assert(s@.take(i as int) =~= s@);
    }
    best
}

/// How prominent a behaviour is.
pub fn measure_prominence<A: Arithmetic>(arith: &A, s: &Vector) -> (r: Single)
    requires
        arithmetic::lawful(*arith),
    ensures
        r == prominence(*arith, s@),
{
    let n = arithmetic::single_from(arith, if s.len() == 0 { 1u64 } else { s.len() as u64 });
    let mean = arithmetic::over32(arith, add_up(arith, s), n);
    let mut squares: Vector = Vec::new();
    let mut i: usize = 0;
    while i < s.len()
        invariant
            arithmetic::lawful(*arith),
            i <= s.len(),
            squares.len() == i,
            forall|j: int|
                0 <= j < i ==> #[trigger] squares@[j] == squared_deviations(*arith, s@, mean)[j],
        decreases s.len() - i,
    {
        let d = arithmetic::minus32(arith, s[i], mean);
        squares.push(arithmetic::times32(arith, d, d));
        i += 1;
    }
    assert(squares@ =~= squared_deviations(*arith, s@, mean));
    let variance = arithmetic::over32(arith, add_up(arith, &squares), n);
    arithmetic::times32(
        arith,
        peak(s),
        arithmetic::plus32(arith, Single { bits: ONE_SINGLE }, variance),
    )
}

/// Whether a label occurs in a milestone.
pub open spec fn occurs_at(m: MilestoneView, label: Seq<char>) -> bool {
    exists|k: int| 0 <= k < m.label_histogram.len() && (#[trigger] m.label_histogram[k]).0 == label
}

/// Whether a label occurs in some milestone.
pub open spec fn occurs(ms: Seq<MilestoneView>, label: Seq<char>) -> bool {
    exists|i: int| 0 <= i < ms.len() && occurs_at(#[trigger] ms[i], label)
}

/// The labels that occur in some milestone.
pub open spec fn occurring(ms: Seq<MilestoneView>) -> spec_fn(Seq<char>) -> bool {
    |label: Seq<char>| occurs(ms, label)
}

/// The labels of milestones, one after the other, as often as they are mentioned.
pub open spec fn mentions(ms: Seq<MilestoneView>) -> Seq<Seq<char>>
    decreases ms.len(),
{
    if ms.len() == 0 {
        Seq::empty()
    } else {
        let h = ms.last().label_histogram;
        mentions(ms.drop_last()) + Seq::new(h.len(), |i: int| h[i].0)
    }
}

/// A behaviour that occurs in milestones is mentioned by them.
pub proof fn occurring_is_mentioned(ms: Seq<MilestoneView>, label: Seq<char>)
    requires
        occurs(ms, label),
    ensures
        mentions(ms).contains(label),
    decreases ms.len(),
{
    let (i, j) = choose|i: int, j: int|
        0 <= i < ms.len() && 0 <= j < ms[i].label_histogram.len() && (
        #[trigger] ms[i].label_histogram[j]).0 == label;
    let init = ms.drop_last();
    let before = mentions(init);
    if i == ms.len() - 1 {
        assert(mentions(ms)[before.len() + j] == label);
    } else {
        assert(init[i].label_histogram[j].0 == label);
        occurring_is_mentioned(init, label);
        let k = choose|k: int| 0 <= k < before.len() && before[k] == label;
        assert(mentions(ms)[k] == label);
    }
}

/// Adds a label to a list that does not hold it yet.
fn add_label(labels: &mut Vec<String>, label: &str)
    requires
        text::texts_of(old(labels)@).no_duplicates(),
    ensures
        text::texts_of(final(labels)@).no_duplicates(),
        forall|l: Seq<char>| #[trigger]
            text::texts_of(final(labels)@).contains(l) <==> text::texts_of(old(labels)@).contains(l)
                || l == label@,
{
    let ghost had = text::texts_of(labels@);
    let mut i: usize = 0;
    while i < labels.len()
        invariant
            i <= labels.len(),
            had == text::texts_of(labels@),
            had == text::texts_of(old(labels)@),
            had.no_duplicates(),
            forall|j: int| 0 <= j < i ==> #[trigger] had[j] != label@,
        decreases labels.len() - i,
    {
        if text::same(labels[i].as_str(), label) {
            assert(had[i as int] == label@);
            return;
        }
        i += 1;
    }
    labels.push(label.to_owned());
    proof {
        let now = text::texts_of(labels@);
        assert(now =~= had.push(label@));
        assert forall|l: Seq<char>| #[trigger] now.contains(l) <==> had.contains(l) || l
            == label@ by {
            if had.contains(l) {
                let k = choose|k: int| 0 <= k < had.len() && had[k] == l;
                assert(now[k] == l);
            }
            assert(now[had.len() as int] == label@);
        }
    }
}

/// The labels that occur in some milestone, each once.
pub fn collect_labels(ms: &Vec<&ArcMilestone>) -> (r: Vec<String>)
    ensures
        text::texts_of(r@).no_duplicates(),
        forall|l: Seq<char>| #[trigger]
            text::texts_of(r@).contains(l) <==> occurs(
                archetype::milestones_of(selection::targets(ms@)),
                l,
            ),
{
    let ghost all = archetype::milestones_of(selection::targets(ms@));
    let mut out: Vec<String> = Vec::new();
    let mut i: usize = 0;
    while i < ms.len()
        invariant
            i <= ms.len(),
            all == archetype::milestones_of(selection::targets(ms@)),
            text::texts_of(out@).no_duplicates(),
            forall|l: Seq<char>| #[trigger]
                text::texts_of(out@).contains(l) <==> occurs(all.take(i as int), l),
        decreases ms.len() - i,
    {
        let m: &ArcMilestone = ms[i];
        let ghost es = histogram::entries(m.label_histogram@);
        assert(all[i as int].label_histogram == es);
        let mut k: usize = 0;
        while k < m.label_histogram.len()
            invariant
                i < ms.len(),
                k <= m.label_histogram.len(),
                es == histogram::entries(m.label_histogram@),
                text::texts_of(out@).no_duplicates(),
                forall|l: Seq<char>| #[trigger]
                    text::texts_of(out@).contains(l) <==> (occurs(all.take(i as int), l) || exists|
                        q: int,
                    |
                        0 <= q < k && (#[trigger] es[q]).0 == l),
            decreases m.label_histogram.len() - k,
        {
            let ghost had = text::texts_of(out@);
            add_label(&mut out, m.label_histogram[k].0.as_str());
            proof {
                assert(es[k as int].0 == m.label_histogram@[k as int].0@);
            }
            k += 1;
        }
        proof {
            let next = all.take(i + 1);
            assert forall|l: Seq<char>| #[trigger]
                text::texts_of(out@).contains(l) <==> occurs(next, l) by {
                if occurs(all.take(i as int), l) {
                    let j = choose|j: int|
                        0 <= j < all.take(i as int).len() && occurs_at(
                            #[trigger] all.take(i as int)[j],
                            l,
                        );
                    assert(occurs_at(next[j], l));
                }
                if exists|q: int| 0 <= q < k && (#[trigger] es[q]).0 == l {
                    assert(occurs_at(next[i as int], l));
                }
                if occurs(next, l) {
                    let j = choose|j: int| 0 <= j < next.len() && occurs_at(#[trigger] next[j], l);
                    if j < i {
                        assert(occurs_at(all.take(i as int)[j], l));
                    } else {
                        let q = choose|q: int|
                            0 <= q < es.len() && (#[trigger] next[j].label_histogram[q]).0 == l;
                        assert(es[q].0 == l);
                    }
                }
            }
        }
        i += 1;
    }
    proof {
        assert(all.take(i as int) =~= all);
    }
    out
}

/// The share of a behaviour in a milestone is its count over the count of all, each operation asked of
/// the arithmetic; a milestone without activity gives it none.
pub proof fn shares_are_counts_over_the_total<A: Arithmetic>(
    arith: A,
    m: MilestoneView,
    label: Seq<char>,
    part: Single,
    whole: Single,
    r: Single,
)
    requires
        arithmetic::lawful(arith),
        histogram::total(m.label_histogram) <= u64::MAX,
        call_ensures(
            A::count32,
            (&arith, histogram::first_count(m.label_histogram, label) as u64),
            part,
        ),
        call_ensures(A::count32, (&arith, histogram::total(m.label_histogram) as u64), whole),
        call_ensures(A::div32, (&arith, part, whole), r),
    ensures
        histogram::total(m.label_histogram) > 0 ==> share(arith, m, label) == r,
        histogram::total(m.label_histogram) == 0 ==> share(arith, m, label).bits == 0,
{
    reveal(arithmetic::lawful);
}

/// A share lies between nothing and all: nothing for a behaviour that does not occur, all for one that
/// is alone, and of two in the same milestone the one that counts more has no smaller share.
pub proof fn shares_are_shares<A: Arithmetic>(
    arith: A,
    m: MilestoneView,
    less: Seq<char>,
    more: Seq<char>,
)
    requires
        arithmetic::orderly(arith),
        histogram::total(m.label_histogram) <= u64::MAX,
        histogram::first_count(m.label_histogram, less) <= histogram::first_count(
            m.label_histogram,
            more,
        ),
    ensures
        Single::nought().at_most(share(arith, m, less)),
        share(arith, m, less).at_most(share(arith, m, more)),
        share(arith, m, more).at_most(Single { bits: ONE_SINGLE }),
        histogram::first_count(m.label_histogram, less) == 0 ==> share(arith, m, less).bits == 0,
        histogram::first_count(m.label_histogram, more) > 0 && histogram::first_count(
            m.label_histogram,
            more,
        ) == histogram::total(m.label_histogram) ==> share(arith, m, more).bits == ONE_SINGLE,
{
    let h = m.label_histogram;
    let whole = histogram::total(h);
    if whole > 0 {
        histogram::counts_are_within_the_total(h, less);
        histogram::counts_are_within_the_total(h, more);
        let n = arithmetic::single_of(arith, whole as u64);
        let a = arithmetic::single_of(arith, histogram::first_count(h, less) as u64);
        let b = arithmetic::single_of(arith, histogram::first_count(h, more) as u64);
        let zero = arithmetic::single_of(arith, 0);
        assert(zero.at_most(a) && a.at_most(b) && b.at_most(n));
        assert(b.finite()) by {
            if histogram::first_count(h, more) == 0 {
                assert(b == zero);
            }
        }
        assert(arithmetic::quotient32(arith, zero, n).at_most(arithmetic::quotient32(arith, a, n)));
        assert(arithmetic::quotient32(arith, a, n).at_most(arithmetic::quotient32(arith, b, n)));
        assert(arithmetic::quotient32(arith, b, n).at_most(arithmetic::quotient32(arith, n, n)));
    }
}

/// A trajectory has one share for each milestone, in their order.
pub proof fn trajectories_follow_the_milestones<A: Arithmetic>(
    arith: A,
    ms: Seq<MilestoneView>,
    label: Seq<char>,
    i: int,
)
    requires
        0 <= i < ms.len(),
    ensures
        shares(arith, ms, label).len() == ms.len(),
        shares(arith, ms, label)[i] == share(arith, ms[i], label),
{
}

/// The peak of a series of numbers: no value is above it, it is not negative, and it is one of the values
/// wherever it is positive.
pub proof fn the_peak_is_the_highest(s: Seq<Single>)
    requires
        forall|i: int| 0 <= i < s.len() ==> !(#[trigger] s[i]).is_nan(),
    ensures
        Single::nought().at_most(peak_of(s)),
        forall|i: int| 0 <= i < s.len() ==> (#[trigger] s[i]).at_most(peak_of(s)),
        Single::nought().below(peak_of(s)) ==> s.contains(peak_of(s)),
    decreases s.len(),
{
    if s.len() > 0 {
        let init = s.drop_last();
        assert forall|i: int| 0 <= i < init.len() implies !(#[trigger] init[i]).is_nan() by {
            assert(init[i] == s[i]);
        }
        the_peak_is_the_highest(init);
        assert(!s[s.len() - 1].is_nan());
        assert forall|i: int| 0 <= i < s.len() implies (#[trigger] s[i]).at_most(peak_of(s)) by {
            if i < init.len() {
                assert(init[i].at_most(peak_of(init)));
            }
        }
        if Single::nought().below(peak_of(s)) {
            if peak_of(s) == peak_of(init) && init.contains(peak_of(init)) {
                let i = choose|i: int| 0 <= i < init.len() && init[i] == peak_of(init);
                assert(s[i] == peak_of(s));
            } else {
                assert(s[s.len() - 1] == s.last());
            }
        }
    }
}

/// A series is added up from its first value on.
pub proof fn series_add_up_in_their_order<A: Arithmetic>(arith: A, s: Seq<Single>, x: Single)
    ensures
        sum_of(arith, Seq::empty()).bits == 0,
        sum_of(arith, s.push(x)) == arithmetic::sum32(arith, sum_of(arith, s), x),
{
    assert(s.push(x).drop_last() =~= s);
}

/// How prominent a behaviour is: its peak times one plus the variance of its shares, where the variance
/// is the mean of the squared distances from the mean, over one where there are no shares; each operation
/// asked of the arithmetic.
pub proof fn prominence_is_put_together<A: Arithmetic>(
    arith: A,
    s: Seq<Single>,
    squares: Seq<Single>,
    n: Single,
    mean: Single,
    variance: Single,
    raised: Single,
    r: Single,
)
    requires
        arithmetic::lawful(arith),
        s.len() <= u64::MAX,
        call_ensures(
            A::count32,
            (
                &arith,
                (if s.len() == 0 {
                    1
                } else {
                    s.len() as u64
                }),
            ),
            n,
        ),
        call_ensures(A::div32, (&arith, sum_of(arith, s), n), mean),
        squares.len() == s.len(),
        forall|i: int|
            0 <= i < s.len() ==> exists|d: Single| #[trigger]
                call_ensures(A::sub32, (&arith, s[i], mean), d) && call_ensures(
                    A::mul32,
                    (&arith, d, d),
                    #[trigger] squares[i],
                ),
        call_ensures(A::div32, (&arith, sum_of(arith, squares), n), variance),
        call_ensures(A::add32, (&arith, Single { bits: 0x3f80_0000 }, variance), raised),
        call_ensures(A::mul32, (&arith, peak_of(s), raised), r),
    ensures
        prominence(arith, s) == r,
{
    reveal(arithmetic::lawful);
    assert(squares =~= squared_deviations(arith, s, mean)) by {
        assert forall|i: int| 0 <= i < s.len() implies #[trigger] squares[i] == squared_deviations(
            arith,
            s,
            mean,
        )[i] by {
            let d = choose|d: Single| #[trigger]
                call_ensures(A::sub32, (&arith, s[i], mean), d) && call_ensures(
                    A::mul32,
                    (&arith, d, d),
                    squares[i],
                );
            assert(arithmetic::difference32(arith, s[i], mean) == d);
        }
    }
}

/// A behaviour occurs in milestones exactly if the histogram of one of them has an entry with its label.
pub proof fn behaviours_occur_in_histograms(ms: Seq<MilestoneView>, label: Seq<char>)
    ensures
        occurs(ms, label) <==> exists|i: int, k: int|
            0 <= i < ms.len() && 0 <= k < ms[i].label_histogram.len() && (
            #[trigger] ms[i].label_histogram[k]).0 == label,
{
    if occurs(ms, label) {
        let i = choose|i: int| 0 <= i < ms.len() && occurs_at(#[trigger] ms[i], label);
        let h = ms[i].label_histogram;
        let k = choose|k: int| 0 <= k < h.len() && (#[trigger] h[k]).0 == label;
        assert(ms[i].label_histogram[k].0 == label);
    }
    if exists|i: int, k: int|
        0 <= i < ms.len() && 0 <= k < ms[i].label_histogram.len() && (
        #[trigger] ms[i].label_histogram[k]).0 == label {
        let (i, k) = choose|i: int, k: int|
            0 <= i < ms.len() && 0 <= k < ms[i].label_histogram.len() && (
            #[trigger] ms[i].label_histogram[k]).0 == label;
        assert(occurs_at(ms[i], label));
    }
}

} // verus!
