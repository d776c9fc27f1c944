//! Reflection layer: what the arc of a subject says that no single event does.
//!
//! - Predictive compression: distil the past, and measure how well the future that was held out
//!   resonates with it, by modes and by the single centroid.
//! - Reflection: the dominant transition between cycles, and revivals, behaviours that peaked, fell
//!   and came back.

use crate::archetype;
use crate::archetype::ArcMilestone;
use crate::archetype::Archetype;
use crate::archetype::ArchetypeView;
use crate::archetype::MilestoneView;
use crate::arithmetic;
use crate::arithmetic::Arithmetic;
use crate::capacity;
use crate::entropy::ONE;
use crate::evoke;
use crate::histogram;
use crate::number;
use crate::number::Double;
use crate::number::Single;
use crate::number::Vector;
use crate::perception;
use crate::perception::Perception;
use crate::perception::PerceptionView;
use crate::ranking;
use crate::selection;
use crate::synthesis;
use crate::synthesis::DistillConfig;
use crate::synthesis::IntentionVector;
use crate::synthesis::IntentionView;
use crate::text;
use crate::trajectory;
use crate::vector;
use vstd::prelude::*;

verus! {

/// Pattern of the salience of an insight that is stored as a fact: `0.9`.
pub const DEFAULT_INSIGHT_SALIENCE: u64 = 0x3fec_cccc_cccc_cccd;

/// Pattern of the share of its peak below which a behaviour has decayed: `0.25`.
pub const DEFAULT_REVIVAL_FLOOR: u32 = 0x3e80_0000;

/// Pattern of the distance within which a share is at the peak: one millionth.
pub const PEAK_TOLERANCE: u32 = 0x3586_37bd;

/// How well the essence of the past predicts the future.
#[derive(Clone, Copy, Debug, PartialEq, Eq, Structural)]
pub struct PredictiveScore {
    /// Mean resonance of the held-out events with the best mode.
    pub modal: Double,
    /// Mean resonance of the held-out events with the single centroid.
    pub centroid: Double,
    /// Number of held-out events.
    pub held_out: usize,
}

/// How many of `n` events are for training: the nearest count to the share, at least one, and at
/// least one is held out.
pub open spec fn training_size<A: Arithmetic>(arith: A, n: nat, share: Double) -> nat {
    let wanted = arithmetic::rounded(
        arith,
        arithmetic::product64(
            arith,
            arithmetic::double_of(arith, n as u64),
            share.within(Double::nought(), Double { bits: ONE }),
        ),
    );
    if wanted < 1 {
        1
    } else if wanted > n - 1 {
        (n - 1) as nat
    } else {
        wanted as nat
    }
}

/// How much each mode of an intention resembles an embedding.
pub open spec fn seed_resemblances<A: Arithmetic>(
    arith: A,
    iv: IntentionView,
    x: Seq<Single>,
) -> Seq<Single> {
    Seq::new(iv.modes.len(), |i: int| arithmetic::similarity(arith, iv.modes[i].centroid, x))
}

/// The resonance of an event with the centroid, never negative.
pub open spec fn centroid_resonance<A: Arithmetic>(
    arith: A,
    iv: IntentionView,
    x: Seq<Single>,
) -> Double {
    arithmetic::widened(
        arith,
        arithmetic::similarity(arith, iv.centroid, x).larger(Single::nought()),
    )
}

/// The resonance of an event with the best mode, never negative.
pub open spec fn modal_resonance<A: Arithmetic>(
    arith: A,
    iv: IntentionView,
    x: Seq<Single>,
) -> Double {
    if iv.modes.len() == 0 {
        centroid_resonance(arith, iv, x)
    } else {
        arithmetic::widened(
            arith,
            ranking::strongest(seed_resemblances(arith, iv, x)).larger(Single::nought()),
        )
    }
}

/// The sum of a series of doubles, from its first value on.
pub open spec fn total_of<A: Arithmetic>(arith: A, s: Seq<Double>) -> Double
    decreases s.len(),
{
    if s.len() == 0 {
        Double::nought()
    } else {
        arithmetic::sum64(arith, total_of(arith, s.drop_last()), s.last())
    }
}

/// The resonances of events with the best mode.
pub open spec fn modal_resonances<A: Arithmetic>(
    arith: A,
    iv: IntentionView,
    events: Seq<PerceptionView>,
) -> Seq<Double> {
    Seq::new(events.len(), |i: int| modal_resonance(arith, iv, events[i].embedding))
}

/// The resonances of events with the centroid.
pub open spec fn centroid_resonances<A: Arithmetic>(
    arith: A,
    iv: IntentionView,
    events: Seq<PerceptionView>,
) -> Seq<Double> {
    Seq::new(events.len(), |i: int| centroid_resonance(arith, iv, events[i].embedding))
}

/// How well the first events predict the rest: nothing where there are fewer than two events or the
/// first cannot be distilled.
pub open spec fn prediction<A: Arithmetic>(
    arith: A,
    events: Seq<PerceptionView>,
    share: Double,
    cfg: DistillConfig,
) -> Option<PredictiveScore> {
    if events.len() < 2 {
        None
    } else {
        let k = training_size(arith, events.len(), share) as int;
        let rest = events.skip(k);
        match synthesis::distilled(arith, "predict"@, events.take(k), cfg) {
            Some(iv) => {
                let n = arithmetic::double_of(arith, rest.len() as u64);
                Some(
                    PredictiveScore {
                        modal: arithmetic::quotient64(
                            arith,
                            total_of(arith, modal_resonances(arith, iv, rest)),
                            n,
                        ),
                        centroid: arithmetic::quotient64(
                            arith,
                            total_of(arith, centroid_resonances(arith, iv, rest)),
                            n,
                        ),
                        held_out: rest.len() as usize,
                    },
                )
            },
            None => None,
        }
    }
}

/// The resonance of an event with the best mode, never negative.
fn best_resonance<A: Arithmetic>(arith: &A, iv: &IntentionVector, x: &Vector) -> (r: Double)
    requires
        arithmetic::lawful(*arith),
    ensures
        r == modal_resonance(*arith, iv@, x@),
{
    if iv.modes.len() == 0 {
        let c = arithmetic::cosine(arith, &iv.centroid, x);
        return arithmetic::to_double(arith, c.max(Single::zero()));
    }
    let ghost likeness = seed_resemblances(*arith, iv@, x@);
    let mut best = Single::negative_infinity();
    let mut i: usize = 0;
    proof {
        assert(likeness.take(0) =~= Seq::empty());
    }
    while i < iv.modes.len()
        invariant
            arithmetic::lawful(*arith),
            i <= iv.modes.len(),
            likeness == seed_resemblances(*arith, iv@, x@),
            best == ranking::strongest(likeness.take(i as int)),
        decreases iv.modes.len() - i,
    {
        proof {
            assert(likeness.take(i + 1).drop_last() =~= likeness.take(i as int));
        }
        best = best.max(arithmetic::cosine(arith, &iv.modes[i].centroid, x));
        i += 1;
    }
    proof {
        assert(likeness.take(i as int) =~= likeness);
    }
    arithmetic::to_double(arith, best.max(Single::zero()))
}

/// Trains the essence on the first share of the events and measures the mean resonance of the rest
/// with modes and with the centroid. `None` with fewer than two events, or where their dimensions do
/// not allow distillation.
pub fn predictive_compression<A: Arithmetic>(
    arith: &A,
    events: &Vec<&Perception>,
    train_frac: Double,
    cfg: DistillConfig,
) -> (r: Option<PredictiveScore>)
    requires
        arithmetic::lawful(*arith),
        events.len() >= 2 && vector::uniform(
            perception::embeddings_of(
                perception::views_of(selection::targets(events@)).take(
                    training_size(*arith, events@.len(), train_frac) as int,
                ),
            ),
        ) ==> cfg.modes.max_modes > 0,
    ensures
        r == prediction(
            *arith,
            perception::views_of(selection::targets(events@)),
            train_frac,
            cfg,
        ),
{
    let ghost all = perception::views_of(selection::targets(events@));
    if events.len() < 2 {
        return None;
    }
    let frac = train_frac.clamped(Double::zero(), Double { bits: ONE });
    let wanted: u64 = arithmetic::nearest_count(
        arith,
        arithmetic::times64(arith, arithmetic::double_from(arith, events.len() as u64), frac),
    );
    let most: usize = events.len() - 1;
    let n_train: usize = if wanted < 1 {
        1
    } else if wanted > most as u64 {
        most
    } else {
        wanted as usize
    };
    let mut train: Vec<&Perception> = Vec::new();
    let mut i: usize = 0;
    while i < n_train
        invariant
            i <= n_train < events.len(),
            train.len() == i,
            forall|j: int| 0 <= j < i ==> #[trigger] train@[j] == events@[j],
        decreases n_train - i,
    {
        train.push(events[i]);
        i += 1;
    }
    proof {
        assert(perception::views_of(selection::targets(train@)) =~= all.take(n_train as int));
    }
    let iv = match synthesis::distill(arith, "predict", &train, cfg) {
        Some(iv) => iv,
        None => {
            return None;
        },
    };
    let ghost rest = all.skip(n_train as int);
    let ghost modal = modal_resonances(*arith, iv@, rest);
    let ghost central = centroid_resonances(*arith, iv@, rest);
    let mut modal_sum = Double::zero();
    let mut centroid_sum = Double::zero();
    proof {
        assert(modal.take(0) =~= Seq::empty());
        assert(central.take(0) =~= Seq::empty());
    }
    i = n_train;
    while i < events.len()
        invariant
            arithmetic::lawful(*arith),
            n_train <= i <= events.len(),
            all == perception::views_of(selection::targets(events@)),
            rest == all.skip(n_train as int),
            modal == modal_resonances(*arith, iv@, rest),
            central == centroid_resonances(*arith, iv@, rest),
            modal_sum == total_of(*arith, modal.take(i - n_train)),
            centroid_sum == total_of(*arith, central.take(i - n_train)),
        decreases events.len() - i,
    {
        let e: &Perception = events[i];
        proof {
            let k = i - n_train;
            assert(rest[k] == e@);
            assert(modal.take(k + 1).drop_last() =~= modal.take(k));
            assert(central.take(k + 1).drop_last() =~= central.take(k));
        }
        let c = arithmetic::cosine(arith, &iv.centroid, &e.embedding);
        let centroid_res = arithmetic::to_double(arith, c.max(Single::zero()));
        modal_sum =
        arithmetic::plus64(arith, modal_sum, best_resonance(arith, &iv, &e.embedding));
        centroid_sum = arithmetic::plus64(arith, centroid_sum, centroid_res);
        i += 1;
    }
    proof {
        assert(modal.take(i - n_train) =~= modal);
        assert(central.take(i - n_train) =~= central);
    }
    let held_out: usize = events.len() - n_train;
    let n = arithmetic::double_from(arith, held_out as u64);
    Some(
        PredictiveScore {
            modal: arithmetic::over64(arith, modal_sum, n),
            centroid: arithmetic::over64(arith, centroid_sum, n),
            held_out,
        },
    )
}

/// What an arc says that no single event does.
#[derive(Debug, PartialEq, Eq)]
pub enum Insight {
    /// The subject tends to move from one behaviour to another between consecutive cycles.
    Transition { from: String, to: String, support: usize },
    /// A behaviour peaked, fell below the floor, and came back above it.
    Revival { domain: String },
}

/// What an insight holds.
#[verifier::ext_equal]
pub enum InsightView {
    Transition { from: Seq<char>, to: Seq<char>, support: usize },
    Revival { domain: Seq<char> },
}

impl View for Insight {
    type V = InsightView;

    open spec fn view(&self) -> InsightView {
        match self {
            Insight::Transition { from, to, support } => InsightView::Transition {
                from: from@,
                to: to@,
                support: *support,
            },
            Insight::Revival { domain } => InsightView::Revival { domain: domain@ },
        }
    }
}

/// What each insight of a list holds.
pub open spec fn insights_of(s: Seq<Insight>) -> Seq<InsightView> {
    Seq::new(s.len(), |i: int| s[i]@)
}

/// Whether a cycle and the next have different dominant labels, both with text.
pub open spec fn moves(a: Seq<char>, b: Seq<char>) -> bool {
    a != b && a.len() > 0 && b.len() > 0
}

/// The moves between consecutive cycles of an arc.
pub open spec fn moves_of(arc: Seq<MilestoneView>) -> Seq<(Seq<char>, Seq<char>)>
    decreases arc.len(),
{
    if arc.len() < 2 {
        Seq::empty()
    } else {
        let a = arc[arc.len() - 2].label;
        let b = arc.last().label;
        if moves(a, b) {
            moves_of(arc.drop_last()).push((a, b))
        } else {
            moves_of(arc.drop_last())
        }
    }
}

/// How often a move occurs.
pub open spec fn support_of(
    ms: Seq<(Seq<char>, Seq<char>)>,
    m: (Seq<char>, Seq<char>),
) -> nat
    decreases ms.len(),
{
    if ms.len() == 0 {
        0
    } else {
        support_of(ms.drop_last(), m) + (if ms.last() == m {
            1nat
        } else {
            0nat
        })
    }
}

/// Dictionary order of moves.
pub open spec fn move_before(a: (Seq<char>, Seq<char>), b: (Seq<char>, Seq<char>)) -> bool {
    text::before(a.0, b.0) || (a.0 == b.0 && text::before(a.1, b.1))
}

/// Whether a move dominates another: it occurs more often, or as often and comes first in the
/// dictionary.
pub open spec fn dominates(
    ms: Seq<(Seq<char>, Seq<char>)>,
    a: (Seq<char>, Seq<char>),
    b: (Seq<char>, Seq<char>),
) -> bool {
    support_of(ms, a) > support_of(ms, b) || (support_of(ms, a) == support_of(ms, b)
        && move_before(a, b))
}

/// The move that dominates every other.
pub open spec fn is_dominant(
    ms: Seq<(Seq<char>, Seq<char>)>,
    m: (Seq<char>, Seq<char>),
) -> bool {
    ms.contains(m) && forall|o: (Seq<char>, Seq<char>)| #[trigger]
        ms.contains(o) && o != m ==> dominates(ms, m, o)
}

/// The insight that the dominant move gives, where there is a move.
pub open spec fn transition_insight(arc: Seq<MilestoneView>) -> Seq<InsightView> {
    let ms = moves_of(arc);
    if ms.len() == 0 {
        Seq::empty()
    } else {
        let m = choose|m: (Seq<char>, Seq<char>)| #[trigger] is_dominant(ms, m);
        seq![
            InsightView::Transition {
                from: m.0,
                to: m.1,
                support: support_of(ms, m) as usize,
            },
        ]
    }
}

proof fn dominates_is_strict(ms: Seq<(Seq<char>, Seq<char>)>)
    ensures
        forall|a: (Seq<char>, Seq<char>), b: (Seq<char>, Seq<char>)|
            #[trigger] dominates(ms, a, b) ==> !dominates(ms, b, a),
        forall|
            a: (Seq<char>, Seq<char>),
            b: (Seq<char>, Seq<char>),
            c: (Seq<char>, Seq<char>),
        |
            #[trigger] dominates(ms, a, b) && #[trigger] dominates(ms, b, c) ==> dominates(
                ms,
                a,
                c,
            ),
        forall|a: (Seq<char>, Seq<char>), b: (Seq<char>, Seq<char>)|
            a != b ==> #[trigger] dominates(ms, a, b) || dominates(ms, b, a),
{
    assert forall|a: (Seq<char>, Seq<char>), b: (Seq<char>, Seq<char>)| #[trigger]
        dominates(ms, a, b) implies !dominates(ms, b, a) by {
        text::before_irreflexive(a.0);
        text::before_irreflexive(a.1);
        if text::before(a.0, b.0) && text::before(b.0, a.0) {
            text::before_transitive(a.0, b.0, a.0);
        }
        if text::before(a.1, b.1) && text::before(b.1, a.1) {
            text::before_transitive(a.1, b.1, a.1);
        }
    }
    assert forall|
        a: (Seq<char>, Seq<char>),
        b: (Seq<char>, Seq<char>),
        c: (Seq<char>, Seq<char>),
    |
        #[trigger] dominates(ms, a, b) && #[trigger] dominates(ms, b, c) implies dominates(
        ms,
        a,
        c,
    ) by {
        if text::before(a.0, b.0) && text::before(b.0, c.0) {
            text::before_transitive(a.0, b.0, c.0);
        }
        if text::before(a.1, b.1) && text::before(b.1, c.1) {
            text::before_transitive(a.1, b.1, c.1);
        }
    }
    assert forall|a: (Seq<char>, Seq<char>), b: (Seq<char>, Seq<char>)| a != b implies
        #[trigger] dominates(ms, a, b) || dominates(ms, b, a) by {
        text::before_total(a.0, b.0);
        text::before_total(a.1, b.1);
    }
}

/// There is one dominant move.
proof fn dominant_is(ms: Seq<(Seq<char>, Seq<char>)>, m: (Seq<char>, Seq<char>))
    requires
        is_dominant(ms, m),
    ensures
        m == choose|o: (Seq<char>, Seq<char>)| #[trigger] is_dominant(ms, o),
{
    dominates_is_strict(ms);
    let o = choose|o: (Seq<char>, Seq<char>)| #[trigger] is_dominant(ms, o);
    if o != m {
        assert(ms.contains(o) && ms.contains(m));
        assert(dominates(ms, m, o) && dominates(ms, o, m));
    }
}

/// What each move of a list holds.
pub open spec fn move_views(s: Seq<(String, String)>) -> Seq<(Seq<char>, Seq<char>)> {
    Seq::new(s.len(), |i: int| (s[i].0@, s[i].1@))
}

/// The moves between consecutive cycles of an arc.
fn collect_moves(arc: &Vec<ArcMilestone>) -> (r: Vec<(String, String)>)
    ensures
        move_views(r@) == moves_of(archetype::milestones_of(arc@)),
        r.len() <= arc.len(),
{
    let ghost all = archetype::milestones_of(arc@);
    let mut out: Vec<(String, String)> = Vec::new();
    if arc.len() < 2 {
        assert(move_views(out@) =~= moves_of(all));
        return out;
    }
    let mut i: usize = 1;
    proof {
        assert(move_views(out@) =~= moves_of(all.take(1)));
    }
    while i < arc.len()
        invariant
            1 <= i <= arc.len(),
            all == archetype::milestones_of(arc@),
            move_views(out@) == moves_of(all.take(i as int)),
            out.len() <= i,
        decreases arc.len() - i,
    {
        let a: &String = &arc[i - 1].label;
        let b: &String = &arc[i].label;
        let ghost had = move_views(out@);
        proof {
            let next = all.take(i + 1);
            assert(next.drop_last() =~= all.take(i as int));
            assert(next[next.len() - 2].label == a@);
            assert(next.last().label == b@);
        }
        if !text::same(a.as_str(), b.as_str()) && !a.as_str().is_empty() && !b.as_str().is_empty() {
            out.push((a.clone(), b.clone()));
            assert(move_views(out@) =~= had.push((a@, b@)));
        }
        i += 1;
    }
    proof {
        assert(all.take(i as int) =~= all);
    }
    out
}

proof fn support_bounded(ms: Seq<(Seq<char>, Seq<char>)>, m: (Seq<char>, Seq<char>))
    ensures
        support_of(ms, m) <= ms.len(),
    decreases ms.len(),
{
    if ms.len() > 0 {
        support_bounded(ms.drop_last(), m);
    }
}

/// How often a move occurs.
fn count_move(ms: &Vec<(String, String)>, from: &str, to: &str) -> (r: usize)
    ensures
        r == support_of(move_views(ms@), (from@, to@)),
{
    let ghost all = move_views(ms@);
    let mut n: usize = 0;
    let mut i: usize = 0;
    proof {
        assert(all.take(0) =~= Seq::empty());
    }
    while i < ms.len()
        invariant
            i <= ms.len(),
            all == move_views(ms@),
            n == support_of(all.take(i as int), (from@, to@)),
            n <= i,
        decreases ms.len() - i,
    {
        proof {
            assert(all.take(i + 1).drop_last() =~= all.take(i as int));
        }
        if text::same(ms[i].0.as_str(), from) && text::same(ms[i].1.as_str(), to) {
            n += 1;
        }
        i += 1;
    }
    proof {
        assert(all.take(i as int) =~= all);
    }
    n
}

/// Whether a move stands before another in the dictionary.
fn move_precedes(a: &(String, String), b: &(String, String)) -> (r: bool)
    ensures
        r == move_before((a.0@, a.1@), (b.0@, b.1@)),
{
    text::precedes(a.0.as_str(), b.0.as_str()) || (text::same(a.0.as_str(), b.0.as_str())
        && text::precedes(a.1.as_str(), b.1.as_str()))
}

/// The insight that the dominant move gives.
fn dominant_transition(arc: &Vec<ArcMilestone>) -> (r: Option<Insight>)
    ensures
        match r {
            Some(i) => transition_insight(archetype::milestones_of(arc@)) == seq![i@],
            None => transition_insight(archetype::milestones_of(arc@)) == Seq::<
                InsightView,
            >::empty(),
        },
{
    let ms = collect_moves(arc);
    let ghost all = move_views(ms@);
    if ms.len() == 0 {
        return None;
    }
    let mut best: usize = 0;
    let mut support: usize = count_move(&ms, ms[0].0.as_str(), ms[0].1.as_str());
    let mut i: usize = 1;
    proof {
        dominates_is_strict(all);
    }
    while i < ms.len()
        invariant
            1 <= i <= ms.len(),
            best < i,
            all == move_views(ms@),
            support == support_of(all, all[best as int]),
            forall|j: int|
                0 <= j < i && #[trigger] all[j] != all[best as int] ==> dominates(
                    all,
                    all[best as int],
                    all[j],
                ),
            forall|
                a: (Seq<char>, Seq<char>),
                b: (Seq<char>, Seq<char>),
                c: (Seq<char>, Seq<char>),
            |
                #[trigger] dominates(all, a, b) && #[trigger] dominates(all, b, c) ==> dominates(
                    all,
                    a,
                    c,
                ),
            forall|a: (Seq<char>, Seq<char>), b: (Seq<char>, Seq<char>)|
                a != b ==> #[trigger] dominates(all, a, b) || dominates(all, b, a),
            forall|a: (Seq<char>, Seq<char>), b: (Seq<char>, Seq<char>)|
                #[trigger] dominates(all, a, b) ==> !dominates(all, b, a),
        decreases ms.len() - i,
    {
        let n = count_move(&ms, ms[i].0.as_str(), ms[i].1.as_str());
        assert(all[i as int] == (ms@[i as int].0@, ms@[i as int].1@));
        assert(all[best as int] == (ms@[best as int].0@, ms@[best as int].1@));
        if n > support || (n == support && move_precedes(&ms[i], &ms[best])) {
            proof {
                assert(dominates(all, all[i as int], all[best as int]));
                assert forall|j: int| 0 <= j < i + 1 && #[trigger] all[j]
                    != all[i as int] implies dominates(all, all[i as int], all[j]) by {
                    if all[j] != all[best as int] {
                        assert(dominates(all, all[best as int], all[j]));
                    }
                }
            }
            best = i;
            support = n;
        } else {
            proof {
                assert(!dominates(all, all[i as int], all[best as int]));
            }
        }
        i += 1;
    }
    proof {
        let m = all[best as int];
        assert(all.contains(m));
        assert forall|o: (Seq<char>, Seq<char>)| #[trigger] all.contains(o) && o
            != m implies dominates(all, m, o) by {
            let j = choose|j: int| 0 <= j < all.len() && all[j] == o;
            assert(all[j] == o);
        }
        dominant_is(all, m);
        support_bounded(all, m);
    }
    let insight = Insight::Transition {
        from: ms[best].0.clone(),
        to: ms[best].1.clone(),
        support,
    };
    assert(seq![insight@] =~= transition_insight(archetype::milestones_of(arc@)));
    Some(insight)
}

/// Position `i` is the first at which a series is at its peak.
pub open spec fn is_peak_place<A: Arithmetic>(arith: A, s: Seq<Single>, i: int) -> bool {
    &&& 0 <= i < s.len()
    &&& at_peak(arith, s, i)
    &&& forall|j: int| 0 <= j < i ==> !#[trigger] at_peak(arith, s, j)
}

/// Whether a series is at its peak, within the tolerance.
pub open spec fn at_peak<A: Arithmetic>(arith: A, s: Seq<Single>, i: int) -> bool {
    arithmetic::difference32(arith, s[i], trajectory::peak_of(s)).unsigned().below(
        Single { bits: PEAK_TOLERANCE },
    )
}

/// The first position at which a series is at its peak.
pub open spec fn peak_place<A: Arithmetic>(arith: A, s: Seq<Single>) -> int {
    choose|i: int| is_peak_place(arith, s, i)
}

/// Whether a series peaks, later falls below `floor` times the peak, and later still is back at or
/// above that.
pub open spec fn revives<A: Arithmetic>(arith: A, s: Seq<Single>, floor: Single) -> bool {
    let peak = trajectory::peak_of(s);
    let threshold = arithmetic::product32(arith, floor, peak);
    &&& Single::nought().below(peak)
    &&& exists|i: int, j: int|
        peak_place(arith, s) < i < j < s.len() && (#[trigger] s[i]).below(threshold)
            && threshold.at_most(#[trigger] s[j])
}

/// Dictionary order of labels.
pub open spec fn label_order() -> spec_fn(Seq<char>, Seq<char>) -> bool {
    |a: Seq<char>, b: Seq<char>| text::before(a, b)
}

/// The labels that occur in some milestone, in dictionary order.
pub open spec fn labels_in_order(ms: Seq<MilestoneView>) -> Seq<Seq<char>> {
    ranking::listing(trajectory::occurring(ms), label_order())
}

/// The labels whose trajectories revive.
pub open spec fn reviving<A: Arithmetic>(
    arith: A,
    ms: Seq<MilestoneView>,
    floor: Single,
) -> spec_fn(Seq<char>) -> bool {
    |l: Seq<char>| revives(arith, trajectory::shares(arith, ms, l), floor)
}

/// The revivals of an arc, in dictionary order; an arc of fewer than three cycles has none.
pub open spec fn revivals<A: Arithmetic>(
    arith: A,
    ms: Seq<MilestoneView>,
    floor: Single,
) -> Seq<InsightView> {
    if ms.len() < 3 {
        Seq::empty()
    } else {
        let labels = labels_in_order(ms).filter(reviving(arith, ms, floor));
        Seq::new(labels.len(), |i: int| InsightView::Revival { domain: labels[i] })
    }
}

proof fn label_order_is_strict()
    ensures
        ranking::asymmetric(label_order()),
        forall|a: Seq<char>, b: Seq<char>, c: Seq<char>|
            #[trigger] label_order()(a, b) && #[trigger] label_order()(b, c) ==> label_order()(a, c),
        forall|a: Seq<char>, b: Seq<char>|
            a != b ==> #[trigger] label_order()(a, b) || label_order()(b, a),
{
    assert forall|a: Seq<char>, b: Seq<char>, c: Seq<char>|
        #[trigger] label_order()(a, b) && #[trigger] label_order()(b, c) implies label_order()(
        a,
        c,
    ) by {
        text::before_transitive(a, b, c);
    }
    assert forall|a: Seq<char>, b: Seq<char>| a != b implies #[trigger] label_order()(a, b)
        || label_order()(b, a) by {
        text::before_total(a, b);
    }
    assert forall|a: Seq<char>, b: Seq<char>| #[trigger] label_order()(
        a,
        b,
    ) implies !label_order()(b, a) by {
        if text::before(b, a) {
            text::before_transitive(a, b, a);
            text::before_irreflexive(a);
        }
    }
}

/// The labels that occur in milestones can be listed: each once, in dictionary order.
pub proof fn labels_are_listed(ms: Seq<MilestoneView>)
    ensures
        ranking::lists(labels_in_order(ms), trajectory::occurring(ms), label_order()),
{
    label_order_is_strict();
    assert forall|l: Seq<char>| #[trigger] trajectory::occurring(ms)(l) implies trajectory::mentions(
        ms,
    ).contains(l) by {
        trajectory::occurring_is_mentioned(ms, l);
    }
    ranking::listing_exists(trajectory::mentions(ms), trajectory::occurring(ms), label_order());
}

/// Sorts labels that are all different.
fn sort_labels(labels: &Vec<String>, Ghost(ms): Ghost<Seq<MilestoneView>>) -> (r: Vec<String>)
    requires
        text::texts_of(labels@).no_duplicates(),
        forall|l: Seq<char>| #[trigger]
            text::texts_of(labels@).contains(l) <==> trajectory::occurs(ms, l),
    ensures
        text::texts_of(r@) == labels_in_order(ms),
{
    let ghost ls = text::texts_of(labels@);
    let ghost lt = |x: int, y: int|
        0 <= x < ls.len() && 0 <= y < ls.len() && text::before(ls[x], ls[y]);
    let before = |x: usize, y: usize| -> (b: bool)
        requires
            x < labels.len(),
            y < labels.len(),
        ensures
            b == text::before(labels@[x as int]@, labels@[y as int]@),
        { text::precedes(labels[x].as_str(), labels[y].as_str()) };
    proof {
        label_order_is_strict();
        assert(ranking::asymmetric(lt)) by {
            assert forall|x: int, y: int| #[trigger] lt(x, y) implies !lt(y, x) by {
                assert(label_order()(ls[x], ls[y]));
            }
        }
        assert forall|x: int, y: int, z: int| #[trigger] lt(x, y) && #[trigger] lt(y, z) implies lt(
            x,
            z,
        ) by {
            text::before_transitive(ls[x], ls[y], ls[z]);
        }
        assert forall|x: int, y: int|
            0 <= x < ls.len() && 0 <= y < ls.len() && x != y implies #[trigger] lt(x, y) || lt(
            y,
            x,
        ) by {
            assert(ls[x] != ls[y]);
            text::before_total(ls[x], ls[y]);
        }
        assert forall|x: usize, y: usize, b: bool|
            x < labels.len() && y < labels.len() && #[trigger] call_ensures(
                before,
                (x, y),
                b,
            ) implies b == lt(x as int, y as int) by {
            assert(ls[x as int] == labels@[x as int]@);
            assert(ls[y as int] == labels@[y as int]@);
        }
    }
    let order = ranking::arrange(labels.len(), before, Ghost(lt));
    let ghost places = ranking::positions(order@);
    let mut out: Vec<String> = Vec::new();
    let mut k: usize = 0;
    while k < order.len()
        invariant
            k <= order.len(),
            order.len() == labels.len(),
            forall|k: int| 0 <= k < order.len() ==> #[trigger] order@[k] < labels.len(),
            ls == text::texts_of(labels@),
            places == ranking::positions(order@),
            out.len() == k,
            forall|j: int| 0 <= j < k ==> (#[trigger] out@[j])@ == ls[places[j]],
        decreases order.len() - k,
    {
        let at: usize = order[k];
        assert(places[k as int] == at as int);
        out.push(labels[at].clone());
        k += 1;
    }
    proof {
        let s = text::texts_of(out@);
        let member = trajectory::occurring(ms);
        assert forall|k: int| 0 <= k < places.len() implies 0 <= #[trigger] places[k]
            < ls.len() by {
            assert(ranking::below(ls.len() as int)(places[k]));
        }
        assert forall|x: int, y: int| 0 <= x < y < s.len() implies label_order()(
            #[trigger] s[x],
            #[trigger] s[y],
        ) by {
            assert(lt(places[x], places[y]));
        }
        assert forall|k: int| 0 <= k < s.len() implies member(#[trigger] s[k]) by {
            assert(ls.contains(ls[places[k]]));
        }
        assert forall|l: Seq<char>| #[trigger] member(l) implies s.contains(l) by {
            assert(ls.contains(l));
            let x = choose|x: int| 0 <= x < ls.len() && ls[x] == l;
            assert(ranking::below(ls.len() as int)(x));
            let k = choose|k: int| 0 <= k < places.len() && places[k] == x;
            assert(s[k] == l);
        }
        ranking::lists_is_listing(s, member, label_order());
    }
    out
}

/// A positive peak is one of the values.
proof fn peak_is_reached(s: Seq<Single>)
    requires
        Single::nought().below(trajectory::peak_of(s)),
    ensures
        s.contains(trajectory::peak_of(s)),
    decreases s.len(),
{
    if s.len() > 0 {
        let init = s.drop_last();
        if trajectory::peak_of(s) == trajectory::peak_of(init) {
            peak_is_reached(init);
            let k = choose|k: int| 0 <= k < init.len() && init[k] == trajectory::peak_of(init);
            assert(s[k] == trajectory::peak_of(s));
        } else {
            assert(s[s.len() - 1] == trajectory::peak_of(s));
        }
    }
}

/// Shares are finite.
proof fn shares_are_finite<A: Arithmetic>(arith: A, ms: Seq<MilestoneView>, label: Seq<char>)
    requires
        arithmetic::lawful(arith),
        capacity::arc_countable(ms),
    ensures
        forall|i: int|
            0 <= i < ms.len() ==> (#[trigger] trajectory::shares(arith, ms, label)[i]).finite(),
{
    assert forall|i: int| 0 <= i < ms.len() implies (#[trigger] trajectory::shares(
        arith,
        ms,
        label,
    )[i]).finite() by {
        let whole = histogram::total(ms[i].label_histogram);
        assert(whole <= usize::MAX);
        if whole > 0 {
            arithmetic::share_is_finite(
                arith,
                histogram::first_count(ms[i].label_histogram, label) as u64,
                whole as u64,
            );
        }
    }
}

/// Whether a series revives.
fn detect_revival<A: Arithmetic>(arith: &A, s: &Vector, floor: Single) -> (r: bool)
    requires
        arithmetic::lawful(*arith),
        forall|i: int| 0 <= i < s.len() ==> (#[trigger] s@[i]).finite(),
    ensures
        r == revives(*arith, s@, floor),
{
    let peak = trajectory::peak(s);
    if !Single::zero().lt(peak) {
        return false;
    }
    let threshold = arithmetic::times32(arith, floor, peak);
    let ghost top = {
        peak_is_reached(s@);
        choose|k: int| 0 <= k < s@.len() && s@[k] == peak
    };
    proof {
        assert(s@[top].finite());
        arithmetic::nothing_is_left(*arith, peak);
        assert(at_peak(*arith, s@, top));
    }
    let mut peak_i: usize = 0;
    let mut found = false;
    while !found
        invariant
            arithmetic::lawful(*arith),
            peak == trajectory::peak_of(s@),
            0 <= top < s.len(),
            at_peak(*arith, s@, top),
            peak_i <= top,
            forall|j: int| 0 <= j < peak_i ==> !#[trigger] at_peak(*arith, s@, j),
            found ==> at_peak(*arith, s@, peak_i as int),
        decreases (if found { 0 } else { 1 + top - peak_i }),
    {
        let distance = arithmetic::minus32(arith, s[peak_i], peak).abs();
        if distance.lt(Single { bits: PEAK_TOLERANCE }) {
            found = true;
        } else {
            assert(!at_peak(*arith, s@, peak_i as int));
            peak_i += 1;
        }
    }
    proof {
        assert(is_peak_place(*arith, s@, peak_i as int));
        let k = peak_place(*arith, s@);
        if k < peak_i {
            assert(!at_peak(*arith, s@, k));
        }
        if peak_i < k {
            assert(!at_peak(*arith, s@, peak_i as int));
        }
    }
    let mut dipped = false;
    let ghost mut dip: int = 0;
    let mut i: usize = peak_i + 1;
    while i < s.len()
        invariant
            peak_i + 1 <= i <= s.len(),
            peak == trajectory::peak_of(s@),
            Single::nought().below(peak),
            threshold == arithmetic::product32(*arith, floor, peak),
            peak_place(*arith, s@) == peak_i,
            dipped ==> peak_i < dip < i && s@[dip].below(threshold),
            !dipped ==> forall|j: int| peak_i < j < i ==> !(#[trigger] s@[j]).below(threshold),
            forall|j: int, k: int|
                peak_i < j < k < i && (#[trigger] s@[j]).below(threshold) ==> !threshold.at_most(
                    #[trigger] s@[k],
                ),
        decreases s.len() - i,
    {
        if s[i].lt(threshold) {
            if !dipped {
                proof {
                    dip = i as int;
                }
            }
            dipped = true;
        } else if dipped && threshold.le(s[i]) {
            assert(s@[dip].below(threshold) && threshold.at_most(s@[i as int]));
            return true;
        }
        i += 1;
    }
    false
}

/// The behaviours of an arc that peaked, fell below `floor` times their peak, and came back.
fn detect_revivals<A: Arithmetic>(arith: &A, arc: &Vec<ArcMilestone>, floor: Single) -> (r: Vec<
    Insight,
>)
    requires
        arithmetic::lawful(*arith),
        capacity::arc_countable(archetype::milestones_of(arc@)),
    ensures
        insights_of(r@) == revivals(*arith, archetype::milestones_of(arc@), floor),
{
    let ghost ms = archetype::milestones_of(arc@);
    let mut out: Vec<Insight> = Vec::new();
    if arc.len() < 3 {
        assert(insights_of(out@) =~= revivals(*arith, ms, floor));
        return out;
    }
    let refs = evoke::window(arc, None);
    proof {
        assert forall|i: int| 0 <= i < ms.len() implies evoke::recent(None)(#[trigger] ms[i]) by {}
        selection::filter_settles(ms, evoke::recent(None));
    }
    let labels = sort_labels(&trajectory::collect_labels(&refs), Ghost(ms));
    let ghost ls = labels_in_order(ms);
    let ghost kept = reviving(*arith, ms, floor);
    let mut i: usize = 0;
    proof {
        reveal(Seq::filter);
        assert(ls.take(0) =~= Seq::empty());
    }
    while i < labels.len()
        invariant
            arithmetic::lawful(*arith),
            i <= labels.len(),
            ms == archetype::milestones_of(selection::targets(refs@)),
            capacity::arc_countable(ms),
            ls == text::texts_of(labels@),
            kept == reviving(*arith, ms, floor),
            out.len() == ls.take(i as int).filter(kept).len(),
            forall|j: int|
                0 <= j < out.len() ==> (#[trigger] out@[j])@ == (InsightView::Revival {
                    domain: ls.take(i as int).filter(kept)[j],
                }),
        decreases labels.len() - i,
    {
        proof {
            reveal(Seq::filter);
            assert(ls.take(i + 1).drop_last() =~= ls.take(i as int));
            assert(ls.take(i + 1).last() == labels@[i as int]@);
            shares_are_finite(*arith, ms, labels@[i as int]@);
        }
        let series = trajectory::trace_label(arith, &refs, labels[i].as_str());
        if detect_revival(arith, &series, floor) {
            assert(kept(labels@[i as int]@));
            out.push(Insight::Revival { domain: labels[i].clone() });
        } else {
            assert(!kept(labels@[i as int]@));
        }
        i += 1;
    }
    proof {
        assert(ls.take(i as int) =~= ls);
        assert(insights_of(out@) =~= revivals(*arith, ms, floor));
    }
    out
}

/// What an arc says: its dominant transition, then its revivals.
pub open spec fn reflected<A: Arithmetic>(arith: A, arc: Seq<MilestoneView>) -> Seq<InsightView> {
    transition_insight(arc) + revivals(arith, arc, Single { bits: DEFAULT_REVIVAL_FLOOR })
}

proof fn best_of(ms: Seq<(Seq<char>, Seq<char>)>, n: int) -> (k: int)
    requires
        0 < n <= ms.len(),
    ensures
        0 <= k < n,
        forall|j: int|
            0 <= j < n && #[trigger] ms[j] != ms[k] ==> dominates(ms, ms[k], ms[j]),
    decreases n,
{
    dominates_is_strict(ms);
    if n == 1 {
        0
    } else {
        let k = best_of(ms, n - 1);
        if dominates(ms, ms[n - 1], ms[k]) {
            assert forall|j: int| 0 <= j < n && #[trigger] ms[j] != ms[n - 1] implies dominates(
                ms,
                ms[n - 1],
                ms[j],
            ) by {
                if ms[j] != ms[k] {
                    assert(dominates(ms, ms[k], ms[j]));
                }
            }
            n - 1
        } else {
            k
        }
    }
}

proof fn moves_are_moves(arc: Seq<MilestoneView>)
    ensures
        moves_of(arc).len() <= arc.len(),
        forall|i: int|
            0 <= i < moves_of(arc).len() ==> moves(
                (#[trigger] moves_of(arc)[i]).0,
                moves_of(arc)[i].1,
            ),
    decreases arc.len(),
{
    if arc.len() >= 2 {
        moves_are_moves(arc.drop_last());
        let had = moves_of(arc.drop_last());
        assert forall|i: int| 0 <= i < moves_of(arc).len() implies moves(
            (#[trigger] moves_of(arc)[i]).0,
            moves_of(arc)[i].1,
        ) by {
            if i < had.len() {
                assert(moves_of(arc)[i] == had[i]);
            }
        }
    }
}

proof fn members_are_supported(ms: Seq<(Seq<char>, Seq<char>)>, i: int)
    requires
        0 <= i < ms.len(),
    ensures
        support_of(ms, ms[i]) >= 1,
    decreases ms.len(),
{
    if i < ms.len() - 1 {
        assert(ms.drop_last()[i] == ms[i]);
        members_are_supported(ms.drop_last(), i);
    }
}

/// Where consecutive cycles move between labels at all, reflection names one move, between different
/// labels, with the number of times it occurs; every other move occurs less often, or as often and
/// stands behind it in the dictionary.
pub proof fn reflection_names_the_dominant_move(arc: Seq<MilestoneView>)
    requires
        moves_of(arc).len() > 0,
        arc.len() <= usize::MAX,
    ensures
        transition_insight(arc).len() == 1,
        match transition_insight(arc)[0] {
            InsightView::Transition { from, to, support } => {
                &&& is_dominant(moves_of(arc), (from, to))
                &&& support == support_of(moves_of(arc), (from, to))
                &&& support >= 1
                &&& from != to
            },
            InsightView::Revival { domain } => false,
        },
{
    let ms = moves_of(arc);
    let k = best_of(ms, ms.len() as int);
    let m = ms[k];
    assert(ms.contains(m));
    assert forall|o: (Seq<char>, Seq<char>)| #[trigger] ms.contains(o) && o
        != m implies dominates(ms, m, o) by {
        let j = choose|j: int| 0 <= j < ms.len() && ms[j] == o;
        assert(ms[j] == o);
    }
    assert(is_dominant(ms, m));
    dominant_is(ms, m);
    support_bounded(ms, m);
    moves_are_moves(arc);
    members_are_supported(ms, k);
}

/// Reflection finds a revival only in a behaviour that peaks, later falls below a share of its peak,
/// and later still is back; an arc of fewer than three cycles has none.
pub proof fn revivals_did_revive<A: Arithmetic>(arith: A, arc: Seq<MilestoneView>, floor: Single)
    ensures
        arc.len() < 3 ==> revivals(arith, arc, floor).len() == 0,
        forall|i: int|
            0 <= i < revivals(arith, arc, floor).len() ==> match #[trigger] revivals(
                arith,
                arc,
                floor,
            )[i] {
                InsightView::Revival { domain } => revives(
                    arith,
                    trajectory::shares(arith, arc, domain),
                    floor,
                ),
                InsightView::Transition { from, to, support } => false,
            },
{
    let labels = labels_in_order(arc);
    selection::filter_is_faithful(labels, reviving(arith, arc, floor));
    assert forall|i: int| 0 <= i < revivals(arith, arc, floor).len() implies match #[trigger] revivals(
        arith,
        arc,
        floor,
    )[i] {
        InsightView::Revival { domain } => revives(
            arith,
            trajectory::shares(arith, arc, domain),
            floor,
        ),
        InsightView::Transition { from, to, support } => false,
    } by {
        let kept = labels.filter(reviving(arith, arc, floor));
        assert(reviving(arith, arc, floor)(kept[i]));
    }
}

/// Reflects over an arc: the dominant transition between labels of consecutive cycles, then the
/// revivals.
pub fn reflect<A: Arithmetic>(arith: &A, arc: &Vec<ArcMilestone>) -> (r: Vec<Insight>)
    requires
        arithmetic::lawful(*arith),
        capacity::arc_countable(archetype::milestones_of(arc@)),
    ensures
        insights_of(r@) == reflected(*arith, archetype::milestones_of(arc@)),
{
    let ghost ms = archetype::milestones_of(arc@);
    let mut out: Vec<Insight> = Vec::new();
    match dominant_transition(arc) {
        Some(i) => {
            out.push(i);
        },
        None => {},
    }
    proof {
        assert(insights_of(out@) =~= transition_insight(ms));
    }
    let ghost first = insights_of(out@);
    let mut found = detect_revivals(arith, arc, Single { bits: DEFAULT_REVIVAL_FLOOR });
    let ghost second = insights_of(found@);
    out.append(&mut found);
    assert(insights_of(out@) =~= first + second);
    out
}

/// The labels that follow a label in an arc, where they differ from it.
pub open spec fn successors(arc: Seq<MilestoneView>, current: Seq<char>) -> Seq<Seq<char>>
    decreases arc.len(),
{
    if arc.len() < 2 {
        Seq::empty()
    } else if arc[arc.len() - 2].label == current && arc.last().label != current {
        successors(arc.drop_last(), current).push(arc.last().label)
    } else {
        successors(arc.drop_last(), current)
    }
}

/// The label that follows a label most often; of equals the first in dictionary order.
pub open spec fn predicted(arc: Seq<MilestoneView>, current: Seq<char>) -> Option<Seq<char>> {
    let h = histogram::histogram_of(histogram::tally_of(successors(arc, current)));
    if h.len() > 0 {
        Some(h[0].0)
    } else {
        None
    }
}

/// Predicts the next behaviour after the current one from the transitions of an arc.
pub fn predict_next(arc: &Vec<ArcMilestone>, current: &str) -> (r: Option<String>)
    ensures
        evoke::text_in(r) == predicted(archetype::milestones_of(arc@), current@),
{
    let ghost all = archetype::milestones_of(arc@);
    let mut next: Vec<String> = Vec::new();
    if arc.len() >= 2 {
        let mut i: usize = 1;
        proof {
            assert(text::texts_of(next@) =~= successors(all.take(1), current@));
        }
        while i < arc.len()
            invariant
                1 <= i <= arc.len(),
                all == archetype::milestones_of(arc@),
                text::texts_of(next@) == successors(all.take(i as int), current@),
            decreases arc.len() - i,
        {
            let ghost had = text::texts_of(next@);
            proof {
                let longer = all.take(i + 1);
                assert(longer.drop_last() =~= all.take(i as int));
                assert(longer[longer.len() - 2].label == arc@[i - 1].label@);
                assert(longer.last().label == arc@[i as int].label@);
            }
            if text::same(arc[i - 1].label.as_str(), current) && !text::same(
                arc[i].label.as_str(),
                current,
            ) {
                next.push(arc[i].label.clone());
                assert(text::texts_of(next@) =~= had.push(arc@[i as int].label@));
            }
            i += 1;
        }
        proof {
            assert(all.take(i as int) =~= all);
        }
    } else {
        assert(text::texts_of(next@) =~= successors(all, current@));
    }
    let h = histogram::tally(&next);
    if h.len() > 0 {
        assert(histogram::entries(h@)[0].0 == h@[0].0@);
        Some(h[0].0.clone())
    } else {
        None
    }
}

/// The text of an insight.
pub open spec fn insight_text(i: InsightView) -> Seq<char> {
    match i {
        InsightView::Transition { from, to, support } => "behaviour transition: "@ + from
            + " → "@ + to,
        InsightView::Revival { domain } => "recurring behaviour (revival): "@ + domain,
    }
}

/// The behaviour that an insight leads to.
pub open spec fn insight_label(i: InsightView) -> Seq<char> {
    match i {
        InsightView::Transition { from, to, support } => to,
        InsightView::Revival { domain } => domain,
    }
}

/// Position `i` is the first mode with the label.
pub open spec fn first_mode(a: ArchetypeView, label: Seq<char>, i: int) -> bool {
    &&& 0 <= i < a.modes.len()
    &&& a.modes[i].label == label
    &&& forall|j: int| 0 <= j < i ==> (#[trigger] a.modes[j]).label != label
}

/// Position `i` is the last milestone with the label.
pub open spec fn last_milestone(a: ArchetypeView, label: Seq<char>, i: int) -> bool {
    &&& 0 <= i < a.arc.len()
    &&& a.arc[i].label == label
    &&& forall|j: int| i < j < a.arc.len() ==> (#[trigger] a.arc[j]).label != label
}

/// The direction of a label: the centroid of its first mode, or else where its last milestone
/// pointed.
pub open spec fn direction_of(a: ArchetypeView, label: Seq<char>) -> Option<Seq<Single>> {
    if exists|i: int| first_mode(a, label, i) {
        Some(a.modes[choose|i: int| first_mode(a, label, i)].centroid)
    } else if exists|i: int| last_milestone(a, label, i) {
        Some(a.arc[choose|i: int| last_milestone(a, label, i)].direction)
    } else {
        None
    }
}

/// The direction that an archetype knows for a label.
fn direction_for_label(a: &Archetype, label: &str) -> (r: Option<Vector>)
    ensures
        match r {
            Some(v) => direction_of(a@, label@) == Some(v@),
            None => direction_of(a@, label@) is None,
        },
{
    let mut i: usize = 0;
    while i < a.modes.len()
        invariant
            i <= a.modes.len(),
            forall|j: int| 0 <= j < i ==> (#[trigger] a@.modes[j]).label != label@,
        decreases a.modes.len() - i,
    {
        if text::same(a.modes[i].label.as_str(), label) {
            proof {
                assert(first_mode(a@, label@, i as int));
                let k = choose|k: int| first_mode(a@, label@, k);
                if k < i {
                    assert(a@.modes[k].label != label@);
                }
                if i < k {
                    assert(a@.modes[i as int].label != label@);
                }
            }
            return Some(number::copy_vector(&a.modes[i].centroid));
        }
        i += 1;
    }
    proof {
        if exists|k: int| first_mode(a@, label@, k) {
            let k = choose|k: int| first_mode(a@, label@, k);
            assert(a@.modes[k].label != label@);
        }
    }
    i = a.arc.len();
    while i > 0
        invariant
            i <= a.arc.len(),
            !(exists|k: int| first_mode(a@, label@, k)),
            forall|j: int| i <= j < a.arc.len() ==> (#[trigger] a@.arc[j]).label != label@,
        decreases i,
    {
        i -= 1;
        if text::same(a.arc[i].label.as_str(), label) {
            proof {
                assert(last_milestone(a@, label@, i as int));
                let k = choose|k: int| last_milestone(a@, label@, k);
                if i < k {
                    assert(a@.arc[k].label != label@);
                }
                if k < i {
                    assert(a@.arc[i as int].label != label@);
                }
            }
            return Some(number::copy_vector(&a.arc[i].direction));
        }
    }
    proof {
        if exists|k: int| last_milestone(a@, label@, k) {
            let k = choose|k: int| last_milestone(a@, label@, k);
            assert(a@.arc[k].label != label@);
        }
    }
    None
}

/// The text and embedding of an insight, for storing it as a fact.
pub open spec fn material(a: ArchetypeView, i: InsightView) -> Option<
    (Seq<char>, Seq<Single>),
> {
    match direction_of(a, insight_label(i)) {
        Some(v) => Some((insight_text(i), v)),
        None => None,
    }
}

/// Materialises an insight as a text and an embedding, so that it can be stored as a fact. The
/// embedding is the direction of the behaviour that the insight leads to, which the archetype holds
/// already; `None` if it knows no direction for it.
pub fn materialize(archetype: &Archetype, insight: &Insight) -> (r: Option<
    (String, Vector),
>)
    ensures
        match r {
            Some((t, v)) => material(archetype@, insight@) == Some((t@, v@)),
            None => material(archetype@, insight@) is None,
        },
{
    let mut words = String::new();
    let label: &String = match insight {
        Insight::Transition { from, to, support } => {
            words.append("behaviour transition: ");
            words.append(from.as_str());
            words.append(" → ");
            words.append(to.as_str());
            to
        },
        Insight::Revival { domain } => {
            words.append("recurring behaviour (revival): ");
            words.append(domain.as_str());
            domain
        },
    };
    assert(words@ =~= insight_text(insight@));
    match direction_for_label(archetype, label.as_str()) {
        Some(v) => Some((words, v)),
        None => None,
    }
}

/// A series of finite numbers with a positive peak is at its peak somewhere, and somewhere first.
proof fn peaks_have_a_place<A: Arithmetic>(arith: A, s: Seq<Single>)
    requires
        arithmetic::lawful(arith),
        forall|i: int| 0 <= i < s.len() ==> (#[trigger] s[i]).finite(),
        Single::nought().below(trajectory::peak_of(s)),
    ensures
        is_peak_place(arith, s, peak_place(arith, s)),
        s.contains(trajectory::peak_of(s)),
{
    peak_is_reached(s);
    let top = choose|k: int| 0 <= k < s.len() && s[k] == trajectory::peak_of(s);
    arithmetic::nothing_is_left(arith, s[top]);
    assert(at_peak(arith, s, top));
    first_peak(arith, s, top);
}

proof fn first_peak<A: Arithmetic>(arith: A, s: Seq<Single>, k: int)
    requires
        0 <= k < s.len(),
        at_peak(arith, s, k),
    ensures
        exists|i: int| is_peak_place(arith, s, i),
    decreases k,
{
    if exists|j: int| 0 <= j < k && #[trigger] at_peak(arith, s, j) {
        let j = choose|j: int| 0 <= j < k && #[trigger] at_peak(arith, s, j);
        first_peak(arith, s, j);
    } else {
        assert(is_peak_place(arith, s, k));
    }
}

/// The shares of a behaviour along an arc peak, fall and come back: `top` is a cycle with the highest
/// share, which is positive; `peak` is the first cycle within a millionth of it; in the later cycle `low`
/// the share is below `floor` times the highest, and in the still later cycle `back` it is at or above
/// that.
pub open spec fn falls_and_comes_back<A: Arithmetic>(
    arith: A,
    s: Seq<Single>,
    floor: Single,
    top: int,
    peak: int,
    low: int,
    back: int,
) -> bool {
    &&& 0 <= top < s.len()
    &&& Single::nought().below(s[top])
    &&& forall|k: int| 0 <= k < s.len() ==> (#[trigger] s[k]).at_most(s[top])
    &&& 0 <= peak < low < back < s.len()
    &&& arithmetic::difference32(arith, s[peak], s[top]).unsigned().below(
        Single { bits: PEAK_TOLERANCE },
    )
    &&& forall|k: int|
        0 <= k < peak ==> !arithmetic::difference32(
            arith,
            #[trigger] s[k],
            s[top],
        ).unsigned().below(Single { bits: PEAK_TOLERANCE })
    &&& s[low].below(arithmetic::product32(arith, floor, s[top]))
    &&& arithmetic::product32(arith, floor, s[top]).at_most(s[back])
}

/// Every revival that is reported did revive: the behaviour occurs in the arc, and there are three
/// cycles in order, one at the peak of its share, a later one with a share below `floor` times that
/// peak, and a still later one with a share at or above it.
pub proof fn revivals_fell_and_came_back<A: Arithmetic>(
    arith: A,
    arc: Seq<MilestoneView>,
    floor: Single,
    i: int,
)
    requires
        arithmetic::lawful(arith),
        capacity::arc_countable(arc),
        0 <= i < revivals(arith, arc, floor).len(),
    ensures
        match revivals(arith, arc, floor)[i] {
            InsightView::Revival { domain } => {
                let s = Seq::new(
                    arc.len(),
                    |k: int| trajectory::share(arith, arc[k], domain),
                );
                &&& trajectory::occurs(arc, domain)
                &&& exists|top: int, peak: int, low: int, back: int|
                    {
                        &&& 0 <= top < s.len()
                        &&& 0 <= peak < low < back < s.len()
                        &&& Single::nought().below(#[trigger] s[top])
                        &&& forall|k: int| 0 <= k < s.len() ==> (#[trigger] s[k]).at_most(s[top])
                        &&& arithmetic::difference32(
                            arith,
                            #[trigger] s[peak],
                            s[top],
                        ).unsigned().below(Single { bits: PEAK_TOLERANCE })
                        &&& (#[trigger] s[low]).below(arithmetic::product32(arith, floor, s[top]))
                        &&& arithmetic::product32(arith, floor, s[top]).at_most(#[trigger] s[back])
                    }
            },
            InsightView::Transition { from, to, support } => false,
        },
{
    let labels = labels_in_order(arc);
    let kept = labels.filter(reviving(arith, arc, floor));
    labels_are_listed(arc);
    assert(kept.contains(kept[i]));
    selection::filter_members(labels, reviving(arith, arc, floor), kept[i]);
    let domain = kept[i];
    assert(revivals(arith, arc, floor)[i] == InsightView::Revival { domain });
    let n = choose|n: int| 0 <= n < labels.len() && labels[n] == domain;
    assert(trajectory::occurring(arc)(labels[n]));
    let s = trajectory::shares(arith, arc, domain);
    assert(s =~= Seq::new(arc.len(), |k: int| trajectory::share(arith, arc[k], domain)));
    shares_are_finite(arith, arc, domain);
    assert forall|k: int| 0 <= k < s.len() implies (#[trigger] s[k]).finite() by {}
    assert(revives(arith, s, floor));
    peaks_have_a_place(arith, s);
    trajectory::the_peak_is_the_highest(s);
    let top = choose|k: int| 0 <= k < s.len() && s[k] == trajectory::peak_of(s);
    let threshold = arithmetic::product32(arith, floor, s[top]);
    let (low, back) = choose|low: int, back: int|
        peak_place(arith, s) < low < back < s.len() && (#[trigger] s[low]).below(threshold)
            && threshold.at_most(#[trigger] s[back]);
    let peak = peak_place(arith, s);
    assert(at_peak(arith, s, peak));
    assert(s[top] == trajectory::peak_of(s) && s[low].below(threshold) && threshold.at_most(s[back]));
    assert(arithmetic::difference32(arith, s[peak], s[top]).unsigned().below(
        Single { bits: PEAK_TOLERANCE },
    ));
}

/// Every behaviour that revives is reported: one that occurs in an arc and whose share peaks, later falls
/// below `floor` times the peak and later still is back at or above that.
pub proof fn what_comes_back_is_reported<A: Arithmetic>(
    arith: A,
    arc: Seq<MilestoneView>,
    floor: Single,
    label: Seq<char>,
    top: int,
    peak: int,
    low: int,
    back: int,
)
    requires
        arithmetic::lawful(arith),
        capacity::arc_countable(arc),
        trajectory::occurs(arc, label),
        falls_and_comes_back(
            arith,
            trajectory::shares(arith, arc, label),
            floor,
            top,
            peak,
            low,
            back,
        ),
    ensures
        revivals(arith, arc, floor).contains(InsightView::Revival { domain: label }),
{
    let s = trajectory::shares(arith, arc, label);
    shares_are_finite(arith, arc, label);
    assert forall|k: int| 0 <= k < s.len() implies (#[trigger] s[k]).finite() by {}
    trajectory::the_peak_is_the_highest(s);
    assert(s[top].at_most(trajectory::peak_of(s)));
    peaks_have_a_place(arith, s);
    let m = choose|k: int| 0 <= k < s.len() && s[k] == trajectory::peak_of(s);
    assert(s[m].at_most(s[top]));
    same_positive_numbers(s[m], s[top]);
    assert forall|j: int| 0 <= j < peak implies !#[trigger] at_peak(arith, s, j) by {
        assert(!arithmetic::difference32(arith, s[j], s[top]).unsigned().below(
            Single { bits: PEAK_TOLERANCE },
        ));
    }
    assert(at_peak(arith, s, peak));
    let p = peak_place(arith, s);
    if p < peak {
        assert(!at_peak(arith, s, p));
    }
    if peak < p {
        assert(!at_peak(arith, s, peak));
    }
    assert(s[low].below(arithmetic::product32(arith, floor, trajectory::peak_of(s))));
    assert(revives(arith, s, floor));
    let labels = labels_in_order(arc);
    let test = reviving(arith, arc, floor);
    labels_are_listed(arc);
    assert(trajectory::occurring(arc)(label));
    assert(test(label));
    selection::filter_members(labels, test, label);
    let kept = labels.filter(test);
    let n = choose|n: int| 0 <= n < kept.len() && kept[n] == label;
    assert(arc.len() >= 3);
    assert(revivals(arith, arc, floor)[n] == InsightView::Revival { domain: label });
}

proof fn same_positive_numbers(x: Single, y: Single)
    requires
        Single::nought().below(x),
        Single::nought().below(y),
        x.rank() == y.rank(),
    ensures
        x == y,
{
}

/// What an arc says: at most one transition, and it comes first; then the revivals at a quarter of the
/// peak, in the order of the dictionary and none twice.
pub proof fn transitions_come_before_revivals<A: Arithmetic>(arith: A, arc: Seq<MilestoneView>)
    requires
        arc.len() <= usize::MAX,
    ensures
        ({
            let r = reflected(arith, arc);
            let quarter = Single { bits: 0x3e80_0000 };
            let found = revivals(arith, arc, quarter);
            let n = if moves_of(arc).len() > 0 {
                1int
            } else {
                0int
            };
            &&& r.len() == n + found.len()
            &&& n == 1 ==> r[0] is Transition
            &&& forall|i: int| 0 <= i < found.len() ==> #[trigger] found[i] == r[n + i]
            &&& forall|i: int| 0 <= i < found.len() ==> (#[trigger] found[i]) is Revival
            &&& forall|i: int, j: int|
                0 <= i < j < found.len() ==> text::before(
                    (#[trigger] found[i])->domain,
                    (#[trigger] found[j])->domain,
                )
        }),
{
    let quarter = Single { bits: 0x3e80_0000 };
    let found = revivals(arith, arc, quarter);
    if moves_of(arc).len() > 0 {
        reflection_names_the_dominant_move(arc);
    }
    labels_are_listed(arc);
    let labels = labels_in_order(arc);
    let test = reviving(arith, arc, quarter);
    selection::filter_is_by_places(labels, test);
    selection::places_are_exact(labels, test);
    assert forall|i: int, j: int| 0 <= i < j < found.len() implies text::before(
        (#[trigger] found[i])->domain,
        (#[trigger] found[j])->domain,
    ) by {
        let at = selection::places(labels, test);
        let kept = labels.filter(test);
        assert(kept[i] == labels[at[i]] && kept[j] == labels[at[j]]);
        assert(at[i] < at[j]);
        assert(label_order()(labels[at[i]], labels[at[j]]));
    }
}

/// The labels of each two consecutive cycles of an arc.
pub open spec fn consecutive(arc: Seq<MilestoneView>) -> Seq<(Seq<char>, Seq<char>)> {
    Seq::new(
        if arc.len() < 2 {
            0
        } else {
            (arc.len() - 1) as nat
        },
        |k: int| (arc[k].label, arc[k + 1].label),
    )
}

/// How often an arc goes from one label straight to another.
pub open spec fn times(arc: Seq<MilestoneView>, from: Seq<char>, to: Seq<char>) -> nat {
    consecutive(arc).filter(|p: (Seq<char>, Seq<char>)| p == (from, to)).len()
}

/// The support of a move is how often the arc goes from the one label straight to the other, where they
/// differ and both have text; and whatever follows a label is counted likewise.
pub proof fn moves_are_counted(arc: Seq<MilestoneView>, from: Seq<char>, to: Seq<char>)
    ensures
        from != to && from.len() > 0 && to.len() > 0 ==> support_of(moves_of(arc), (from, to))
            == times(arc, from, to),
        from == to || from.len() == 0 || to.len() == 0 ==> support_of(moves_of(arc), (from, to)) == 0,
        from != to ==> histogram::occurrences(successors(arc, from), to) == times(arc, from, to),
        from == to ==> histogram::occurrences(successors(arc, from), to) == 0,
    decreases arc.len(),
{
    reveal(Seq::filter);
    let test = |p: (Seq<char>, Seq<char>)| p == (from, to);
    if arc.len() >= 2 {
        let init = arc.drop_last();
        moves_are_counted(init, from, to);
        let a = arc[arc.len() - 2].label;
        let b = arc.last().label;
        assert(consecutive(arc).drop_last() =~= consecutive(init));
        assert(consecutive(arc).last() == (a, b));
        if moves(a, b) {
            assert(moves_of(arc).drop_last() =~= moves_of(init));
        }
        if a == from && b != from {
            assert(successors(arc, from).drop_last() =~= successors(init, from));
        }
    } else {
        assert(consecutive(arc).len() == 0);
    }
}

/// Reflection names the most frequent transition: the arc does go from the one label straight to the
/// other, the support is how often it does, and it goes between no two different labels with text more
/// often. Of those as frequent it is the first in the dictionary.
pub proof fn the_most_frequent_transition_is_named<A: Arithmetic>(
    arith: A,
    arc: Seq<MilestoneView>,
    a: Seq<char>,
    b: Seq<char>,
)
    requires
        arc.len() <= usize::MAX,
        a != b,
        a.len() > 0,
        b.len() > 0,
        times(arc, a, b) > 0,
    ensures
        match reflected(arith, arc)[0] {
            InsightView::Transition { from, to, support } => {
                &&& from != to
                &&& from.len() > 0
                &&& to.len() > 0
                &&& support == times(arc, from, to)
                &&& times(arc, a, b) <= support
                &&& times(arc, a, b) == support && (a, b) != (from, to) ==> text::before(from, a) || (
                from == a && text::before(to, b))
            },
            InsightView::Revival { domain } => false,
        },
{
    let ms = moves_of(arc);
    moves_are_counted(arc, a, b);
    support_means_member(ms, (a, b));
    assert(ms.len() > 0);
    reflection_names_the_dominant_move(arc);
    moves_are_moves(arc);
    match transition_insight(arc)[0] {
        InsightView::Transition { from, to, support } => {
            moves_are_counted(arc, from, to);
            let k = choose|k: int| 0 <= k < ms.len() && ms[k] == (from, to);
            assert(moves(ms[k].0, ms[k].1));
            if (a, b) != (from, to) {
                assert(ms.contains((a, b)));
                assert(dominates(ms, (from, to), (a, b)));
            }
        },
        InsightView::Revival { domain } => {},
    }
}

proof fn support_means_member(ms: Seq<(Seq<char>, Seq<char>)>, m: (Seq<char>, Seq<char>))
    requires
        support_of(ms, m) > 0,
    ensures
        ms.contains(m),
    decreases ms.len(),
{
    if ms.last() != m {
        support_means_member(ms.drop_last(), m);
        let i = choose|i: int| 0 <= i < ms.drop_last().len() && ms.drop_last()[i] == m;
        assert(ms[i] == m);
    } else {
        assert(ms[ms.len() - 1] == m);
    }
}

/// What is predicted after a label is what followed it most often, other than itself; of equals the
/// first in the dictionary. Nothing is predicted exactly if nothing else ever followed.
pub proof fn what_followed_most_is_predicted(
    arc: Seq<MilestoneView>,
    current: Seq<char>,
    other: Seq<char>,
)
    requires
        arc.len() <= usize::MAX,
        other != current,
    ensures
        match predicted(arc, current) {
            Some(next) => {
                &&& next != current
                &&& times(arc, current, next) > 0
                &&& times(arc, current, other) <= times(arc, current, next)
                &&& times(arc, current, other) == times(arc, current, next) && other != next
                    ==> text::before(next, other)
            },
            None => times(arc, current, other) == 0,
        },
{
    let s = successors(arc, current);
    successors_differ(arc, current);
    moves_are_counted(arc, current, other);
    let m = histogram::tally_of(s);
    let h = histogram::histogram_of(m);
    histogram::tally_finite(s);
    histogram::tally_bounded(s);
    histogram::histograms_put_the_frequent_first(m);
    histogram::the_head_dominates(s, Seq::empty(), other);
    histogram::tallies_count_occurrences(s, other);
    if h.len() > 0 {
        let next = h[0].0;
        assert(predicted(arc, current) == Some(next));
        moves_are_counted(arc, current, next);
        histogram::tallies_count_occurrences(s, next);
        assert(m.contains_key(next));
        assert(s.contains(next));
        let i = choose|i: int| 0 <= i < s.len() && s[i] == next;
        assert(s[i] != current);
        if times(arc, current, other) > 0 {
            assert(m.contains_key(other));
        }
    } else {
        if m.contains_key(other) {
            let i = choose|i: int| 0 <= i < h.len() && (#[trigger] h[i]).0 == other;
            assert(false);
        }
    }
}

proof fn successors_differ(arc: Seq<MilestoneView>, current: Seq<char>)
    ensures
        successors(arc, current).len() <= arc.len(),
        forall|i: int|
            0 <= i < successors(arc, current).len() ==> #[trigger] successors(arc, current)[i]
                != current,
    decreases arc.len(),
{
    if arc.len() >= 2 {
        successors_differ(arc.drop_last(), current);
    }
}

/// An insight is stored in words, with the direction of the behaviour that it leads to: that of the first
/// mode with its label, or else where the last milestone with the label pointed. Without either there is
/// nothing to store.
pub proof fn insights_are_put_into_words(
    a: ArchetypeView,
    from: Seq<char>,
    to: Seq<char>,
    support: usize,
)
    ensures
        ({
            let moved = material(a, InsightView::Transition { from, to, support });
            let revived = material(a, InsightView::Revival { domain: to });
            let named = exists|i: int| 0 <= i < a.modes.len() && (#[trigger] a.modes[i]).label == to;
            let marked = exists|i: int| 0 <= i < a.arc.len() && (#[trigger] a.arc[i]).label == to;
            &&& moved is Some <==> named || marked
            &&& revived is Some <==> named || marked
            &&& moved is Some ==> (moved->0).0 == "behaviour transition: "@ + from + " → "@ + to
                && (revived->0).0 == "recurring behaviour (revival): "@ + to && (moved->0).1 == (
            revived->0).1
            &&& forall|i: int|
                {
                    &&& 0 <= i < a.modes.len()
                    &&& (#[trigger] a.modes[i]).label == to
                    &&& forall|j: int| 0 <= j < i ==> (#[trigger] a.modes[j]).label != to
                } ==> (moved->0).1 == a.modes[i].centroid
            &&& !named ==> forall|i: int|
                {
                    &&& 0 <= i < a.arc.len()
                    &&& (#[trigger] a.arc[i]).label == to
                    &&& forall|j: int| i < j < a.arc.len() ==> (#[trigger] a.arc[j]).label != to
                } ==> (moved->0).1 == a.arc[i].direction
        }),
{
    let named = exists|i: int| 0 <= i < a.modes.len() && (#[trigger] a.modes[i]).label == to;
    let marked = exists|i: int| 0 <= i < a.arc.len() && (#[trigger] a.arc[i]).label == to;
    if named {
        let i = choose|i: int| 0 <= i < a.modes.len() && (#[trigger] a.modes[i]).label == to;
        some_mode_is_first(a, to, i);
        let k = choose|k: int| first_mode(a, to, k);
        assert forall|i: int|
            {
                &&& 0 <= i < a.modes.len()
                &&& (#[trigger] a.modes[i]).label == to
                &&& forall|j: int| 0 <= j < i ==> (#[trigger] a.modes[j]).label != to
            } implies a.modes[k].centroid == a.modes[i].centroid by {
            if i < k {
                assert(a.modes[i].label != to);
            }
            if k < i {
                assert(a.modes[k].label != to);
            }
        }
    } else if marked {
        let i = choose|i: int| 0 <= i < a.arc.len() && (#[trigger] a.arc[i]).label == to;
        some_milestone_is_last(a, to, i);
        let k = choose|k: int| last_milestone(a, to, k);
        assert forall|i: int|
            {
                &&& 0 <= i < a.arc.len()
                &&& (#[trigger] a.arc[i]).label == to
                &&& forall|j: int| i < j < a.arc.len() ==> (#[trigger] a.arc[j]).label != to
            } implies a.arc[k].direction == a.arc[i].direction by {
            if i < k {
                assert(a.arc[k].label != to);
            }
            if k < i {
                assert(a.arc[i].label != to);
            }
        }
    }
}

proof fn some_mode_is_first(a: ArchetypeView, label: Seq<char>, i: int)
    requires
        0 <= i < a.modes.len(),
        a.modes[i].label == label,
    ensures
        exists|k: int| first_mode(a, label, k),
    decreases i,
{
    if exists|j: int| 0 <= j < i && (#[trigger] a.modes[j]).label == label {
        let j = choose|j: int| 0 <= j < i && (#[trigger] a.modes[j]).label == label;
        some_mode_is_first(a, label, j);
    } else {
        assert(first_mode(a, label, i));
    }
}

proof fn some_milestone_is_last(a: ArchetypeView, label: Seq<char>, i: int)
    requires
        0 <= i < a.arc.len(),
        a.arc[i].label == label,
    ensures
        exists|k: int| last_milestone(a, label, k),
    decreases a.arc.len() - i,
{
    if exists|j: int| i < j < a.arc.len() && (#[trigger] a.arc[j]).label == label {
        let j = choose|j: int| i < j < a.arc.len() && (#[trigger] a.arc[j]).label == label;
        some_milestone_is_last(a, label, j);
    } else {
        assert(last_milestone(a, label, i));
    }
}

/// How well the past predicts the future: at least one event is for training and at least one is held
/// out, together they are all; and each score is the sum of the resonances of the events held out over
/// their number.
pub proof fn predictions_are_means_over_the_rest<A: Arithmetic>(
    arith: A,
    events: Seq<PerceptionView>,
    share: Double,
    cfg: DistillConfig,
)
    requires
        2 <= events.len() <= usize::MAX,
    ensures
        ({
            let k = training_size(arith, events.len(), share);
            let rest = events.skip(k as int);
            let iv = synthesis::distilled(arith, "predict"@, events.take(k as int), cfg);
            let p = prediction(arith, events, share, cfg);
            &&& 1 <= k <= events.len() - 1
            &&& p is Some <==> iv is Some
            &&& p is Some ==> {
                &&& (p->0).held_out == events.len() - k
                &&& (p->0).modal == arithmetic::quotient64(
                    arith,
                    total_of(arith, modal_resonances(arith, iv->0, rest)),
                    arithmetic::double_of(arith, (p->0).held_out as u64),
                )
                &&& (p->0).centroid == arithmetic::quotient64(
                    arith,
                    total_of(arith, centroid_resonances(arith, iv->0, rest)),
                    arithmetic::double_of(arith, (p->0).held_out as u64),
                )
            }
        }),
{
}

/// Fewer than two events predict nothing, and resonances are added up from the first on.
pub proof fn resonances_add_up_in_their_order<A: Arithmetic>(
    arith: A,
    events: Seq<PerceptionView>,
    share: Double,
    cfg: DistillConfig,
    s: Seq<Double>,
    x: Double,
)
    ensures
        events.len() < 2 ==> prediction(arith, events, share, cfg) is None,
        total_of(arith, Seq::empty()).bits == 0,
        total_of(arith, s.push(x)) == arithmetic::sum64(arith, total_of(arith, s), x),
{
    assert(s.push(x).drop_last() =~= s);
}

/// An event resonates with an essence as with the mode that it resembles most, or with the centroid where
/// there are no modes; never negatively.
pub proof fn events_resonate_with_the_best_mode<A: Arithmetic>(
    arith: A,
    iv: IntentionView,
    x: Seq<Single>,
)
    requires
        arithmetic::lawful(arith),
    ensures
        centroid_resonance(arith, iv, x) == arithmetic::widened(
            arith,
            (if arithmetic::similarity(arith, iv.centroid, x).below(Single::nought()) {
                Single::nought()
            } else {
                arithmetic::similarity(arith, iv.centroid, x)
            }),
        ),
        iv.modes.len() == 0 ==> modal_resonance(arith, iv, x) == centroid_resonance(arith, iv, x),
        iv.modes.len() > 0 ==> exists|i: int|
            {
                let best = arithmetic::similarity(arith, (#[trigger] iv.modes[i]).centroid, x);
                &&& 0 <= i < iv.modes.len()
                &&& forall|j: int|
                    0 <= j < iv.modes.len() ==> arithmetic::similarity(
                        arith,
                        (#[trigger] iv.modes[j]).centroid,
                        x,
                    ).at_most(best)
                &&& modal_resonance(arith, iv, x) == arithmetic::widened(
                    arith,
                    (if best.below(Single::nought()) {
                        Single::nought()
                    } else {
                        best
                    }),
                )
            },
{
    arithmetic::cosine_is_number(arith, iv.centroid, x);
    let s = seed_resemblances(arith, iv, x);
    if iv.modes.len() > 0 {
        assert forall|i: int| 0 <= i < s.len() implies Single::lowest().below(#[trigger] s[i]) by {
            arithmetic::cosine_is_number(arith, iv.modes[i].centroid, x);
        }
        ranking::strongest_is_highest(s);
        let i = choose|i: int| 0 <= i < s.len() && s[i] == ranking::strongest(s);
        assert(arithmetic::similarity(arith, iv.modes[i].centroid, x) == s[i]);
        assert forall|j: int| 0 <= j < iv.modes.len() implies arithmetic::similarity(
            arith,
            (#[trigger] iv.modes[j]).centroid,
            x,
        ).at_most(s[i]) by {
            assert(s[j].at_most(ranking::strongest(s)));
        }
    }
}

/// What an insight holds is what its fields hold.
pub proof fn insights_hold_their_fields(from: String, to: String, support: usize)
    ensures
        (Insight::Transition { from, to, support })@ == (InsightView::Transition {
            from: from@,
            to: to@,
            support,
        }),
        (Insight::Revival { domain: to })@ == (InsightView::Revival { domain: to@ }),
{
}

/// The share of the events that is for training: of the share, held between none and all, the nearest
/// count to that part of the events is taken, where it leaves at least one event on either side, and
/// otherwise the closest count that does.
pub proof fn training_takes_its_share<A: Arithmetic>(
    arith: A,
    n: u64,
    share: Double,
    all: Double,
    held: Double,
    part: Double,
    wanted: u64,
)
    requires
        arithmetic::lawful(arith),
        n >= 2,
        call_ensures(A::count64, (&arith, n), all),
        share.below(Double::nought()) ==> held == Double::nought(),
        (Double { bits: ONE }).below(share) ==> held == (Double { bits: ONE }),
        !share.below(Double::nought()) && !(Double { bits: ONE }).below(share) ==> held == share,
        call_ensures(A::mul64, (&arith, all, held), part),
        call_ensures(A::round64, (&arith, part), wanted),
    ensures
        1 <= wanted <= n - 1 ==> training_size(arith, n as nat, share) == wanted,
        wanted == 0 ==> training_size(arith, n as nat, share) == 1,
        wanted >= n ==> training_size(arith, n as nat, share) == n - 1,
{
    arithmetic::conversion_names_are_answers(
        arith,
        Single::nought(),
        n,
        part,
        all,
        Single::nought(),
        wanted,
    );
    arithmetic::double_names_are_answers(arith, all, held, part);
}

} // verus!
