//! Archetype layer: long-term memory (`IMPRINT`).
//!
//! Intention vectors of many cycles consolidate into an archetype: the essence of a subject in a few
//! dense vectors. An archetype is an anchor of evolution, not immortal: it obeys the same physics.

use crate::arithmetic;
use crate::arithmetic::Arithmetic;
use crate::entropy;
use crate::entropy::EntropyTrace;
use crate::entropy::Tick;
use crate::entropy::ONE;
use crate::histogram;
use crate::histogram::Histogram;
use crate::modes;
use crate::modes::Mode;
use crate::modes::ModeSeed;
use crate::modes::ModeSeedView;
use crate::modes::ModeView;
use crate::modes::DEFAULT_MODE_THETA;
use crate::modes::RECURRENCE_CONSOLIDATION;
use crate::number;
use crate::number::Double;
use crate::number::Single;
use crate::number::Vector;
use crate::ranking;
use crate::selection;
use crate::synthesis::IntentionVector;
use crate::synthesis::IntentionView;
use crate::text;
use crate::vector;
use vstd::prelude::*;

verus! {

/// Pattern of the half-life of a fragile archetype: 30 days, in seconds.
pub const HALFLIFE_LOW_SECS: u64 = 0x4143_c680_0000_0000;

/// Pattern of the half-life of an ordinary archetype: 180 days, in seconds.
pub const HALFLIFE_MEDIUM_SECS: u64 = 0x416d_a9c0_0000_0000;

/// Pattern of the half-life of a resilient archetype: 720 days, in seconds.
pub const HALFLIFE_HIGH_SECS: u64 = 0x418d_a9c0_0000_0000;

/// How well an archetype resists forgetting.
#[derive(Clone, Copy, Debug, PartialEq, Eq, Structural)]
pub enum Resilience {
    Low,
    Medium,
    High,
}

impl Resilience {
    /// Base half-life of the level.
    pub open spec fn base(self) -> Double {
        match self {
            Resilience::Low => Double { bits: HALFLIFE_LOW_SECS },
            Resilience::Medium => Double { bits: HALFLIFE_MEDIUM_SECS },
            Resilience::High => Double { bits: HALFLIFE_HIGH_SECS },
        }
    }

    /// Base half-life of the level, in seconds.
    pub fn halflife(self) -> (r: Double)
        ensures
            r == self.base(),
            r.positive(),
            (Double { bits: ONE }).at_most(r),
            Double::nought().below(r),
    {
        match self {
            Resilience::Low => Double { bits: HALFLIFE_LOW_SECS },
            Resilience::Medium => Double { bits: HALFLIFE_MEDIUM_SECS },
            Resilience::High => Double { bits: HALFLIFE_HIGH_SECS },
        }
    }
}

/// The more resilient an archetype, the longer its half-life.
pub proof fn resilience_outlives()
    ensures
        Resilience::Low.base().below(Resilience::Medium.base()),
        Resilience::Medium.base().below(Resilience::High.base()),
{
}

/// A milestone of the evolutionary arc: where the subject stood in one dream cycle.
#[derive(Debug)]
pub struct ArcMilestone {
    pub at: Tick,
    pub direction: Vector,
    pub absorbed: usize,
    /// Dominant label of the cycle.
    pub label: String,
    /// Labels of the cycle with their counts.
    pub label_histogram: Histogram,
}

/// What a milestone holds.
#[verifier::ext_equal]
pub struct MilestoneView {
    pub at: Tick,
    pub direction: Seq<Single>,
    pub absorbed: usize,
    pub label: Seq<char>,
    pub label_histogram: Seq<(Seq<char>, usize)>,
}

impl View for ArcMilestone {
    type V = MilestoneView;

    open spec fn view(&self) -> MilestoneView {
        MilestoneView {
            at: self.at,
            direction: self.direction@,
            absorbed: self.absorbed,
            label: self.label@,
            label_histogram: histogram::entries(self.label_histogram@),
        }
    }
}

impl Clone for ArcMilestone {
    fn clone(&self) -> (r: ArcMilestone)
        ensures
            r@ == self@,
    {
        ArcMilestone {
            at: self.at,
            direction: number::copy_vector(&self.direction),
            absorbed: self.absorbed,
            label: self.label.clone(),
            label_histogram: histogram::copy(&self.label_histogram),
        }
    }
}

/// What each milestone of an arc holds.
pub open spec fn milestones_of(s: Seq<ArcMilestone>) -> Seq<MilestoneView> {
    Seq::new(s.len(), |i: int| s[i]@)
}

/// The consolidated essence of a subject.
#[derive(Debug)]
pub struct Archetype {
    pub subject: String,
    /// Accumulated central direction of behaviour: the global mean.
    pub core: Vector,
    /// The distinct behaviours of the subject, each with its own physics.
    pub modes: Vec<Mode>,
    /// Retained novelty.
    pub anomalies: Vec<Vector>,
    /// Labels of the anomalies.
    pub anomaly_labels: Vec<String>,
    /// Label of the dominant behaviour of the last cycle.
    pub core_label: String,
    /// Number of perceptions that the essence represents.
    pub represented: usize,
    /// One milestone for each dream cycle.
    pub arc: Vec<ArcMilestone>,
    /// Forgetting physics of the archetype itself.
    pub trace: EntropyTrace,
}

/// What an archetype holds.
#[verifier::ext_equal]
pub struct ArchetypeView {
    pub subject: Seq<char>,
    pub core: Seq<Single>,
    pub modes: Seq<ModeView>,
    pub anomalies: Seq<Seq<Single>>,
    pub anomaly_labels: Seq<Seq<char>>,
    pub core_label: Seq<char>,
    pub represented: usize,
    pub arc: Seq<MilestoneView>,
    pub trace: EntropyTrace,
}

impl View for Archetype {
    type V = ArchetypeView;

    open spec fn view(&self) -> ArchetypeView {
        ArchetypeView {
            subject: self.subject@,
            core: self.core@,
            modes: modes::modes_of(self.modes@),
            anomalies: number::vectors_of(self.anomalies@),
            anomaly_labels: text::texts_of(self.anomaly_labels@),
            core_label: self.core_label@,
            represented: self.represented,
            arc: milestones_of(self.arc@),
            trace: self.trace,
        }
    }
}

/// The milestone that a cycle leaves.
pub open spec fn milestone_of(iv: IntentionView, now: Tick) -> MilestoneView {
    MilestoneView {
        at: now,
        direction: iv.centroid,
        absorbed: iv.absorbed,
        label: iv.core_label,
        label_histogram: iv.label_histogram,
    }
}

/// The modes that seeds become.
pub open spec fn born_from<A: Arithmetic>(
    arith: A,
    seeds: Seq<ModeSeedView>,
    halflife: Double,
    now: Tick,
) -> Seq<ModeView> {
    Seq::new(seeds.len(), |i: int| seeds[i].born(arith, halflife, now))
}

/// The archetype that a first intention vector leaves.
pub open spec fn imprinted<A: Arithmetic>(
    arith: A,
    iv: IntentionView,
    resilience: Resilience,
    now: Tick,
) -> ArchetypeView {
    ArchetypeView {
        subject: iv.subject,
        core: iv.centroid,
        modes: born_from(arith, iv.modes, resilience.base(), now),
        anomalies: iv.anomalies,
        anomaly_labels: iv.anomaly_labels,
        core_label: iv.core_label,
        represented: iv.absorbed,
        arc: seq![milestone_of(iv, now)],
        trace: EntropyTrace::fresh(arith, Double { bits: ONE }, resilience.base(), now),
    }
}

/// How much each mode resembles a direction.
pub open spec fn mode_resemblances<A: Arithmetic>(
    arith: A,
    modes: Seq<ModeView>,
    x: Seq<Single>,
) -> Seq<Single> {
    Seq::new(modes.len(), |i: int| arithmetic::similarity(arith, modes[i].centroid, x))
}

/// The mode that a seed merges into: the one it resembles most, if it reaches the threshold.
pub open spec fn home_of<A: Arithmetic>(
    arith: A,
    modes: Seq<ModeView>,
    seed: ModeSeedView,
) -> Option<int> {
    ranking::last_best(
        mode_resemblances(arith, modes, seed.centroid),
        ranking::everywhere(),
        Single { bits: DEFAULT_MODE_THETA },
    )
}

/// The modes after one more seed: it merges into its home, or is born as a mode of its own.
pub open spec fn settled<A: Arithmetic>(
    arith: A,
    modes: Seq<ModeView>,
    seed: ModeSeedView,
    halflife: Double,
    now: Tick,
) -> Seq<ModeView> {
    match home_of(arith, modes, seed) {
        Some(i) => modes.update(i, modes[i].merged(arith, seed, now)),
        None => modes.push(seed.born(arith, halflife, now)),
    }
}

/// The modes after seeds, in their order.
pub open spec fn settled_all<A: Arithmetic>(
    arith: A,
    modes: Seq<ModeView>,
    seeds: Seq<ModeSeedView>,
    halflife: Double,
    now: Tick,
) -> Seq<ModeView>
    decreases seeds.len(),
{
    if seeds.len() == 0 {
        modes
    } else {
        settled(
            arith,
            settled_all(arith, modes, seeds.drop_last(), halflife, now),
            seeds.last(),
            halflife,
            now,
        )
    }
}

/// Whether each seed can settle: the counts of the mode that it joins have room for its own, or it is
/// born with a half-life that is positive.
pub open spec fn seeds_fit<A: Arithmetic>(
    arith: A,
    modes: Seq<ModeView>,
    seeds: Seq<ModeSeedView>,
    halflife: Double,
    now: Tick,
) -> bool
    decreases seeds.len(),
{
    seeds.len() == 0 || {
        let before = settled_all(arith, modes, seeds.drop_last(), halflife, now);
        &&& seeds_fit(arith, modes, seeds.drop_last(), halflife, now)
        &&& match home_of(arith, before, seeds.last()) {
            Some(i) => before[i].has_room(seeds.last()),
            None => Double::nought().below(halflife),
        }
    }
}

impl ArchetypeView {
    /// The archetype after one more intention vector: the core moves in proportion to the evidence,
    /// each mode of the cycle settles, novelty and a milestone are added, permanence is reinforced.
    pub open spec fn evolved<A: Arithmetic>(self, arith: A, iv: IntentionView, now: Tick) -> ArchetypeView {
        ArchetypeView {
            subject: self.subject,
            core: vector::blended(arith, self.core, self.represented, iv.centroid, iv.absorbed),
            modes: settled_all(
                arith,
                self.modes,
                iv.modes,
                entropy::half_life(arith, self.trace.lambda),
                now,
            ),
            anomalies: self.anomalies + iv.anomalies,
            anomaly_labels: self.anomaly_labels + iv.anomaly_labels,
            core_label: iv.core_label,
            represented: (self.represented + iv.absorbed) as usize,
            arc: self.arc.push(milestone_of(iv, now)),
            trace: self.trace.touched(arith, now, Double { bits: RECURRENCE_CONSOLIDATION }),
        }
    }

    /// Whether the archetype can take in an intention vector: its counts have room, and each mode of
    /// the cycle can settle.
    pub open spec fn has_room<A: Arithmetic>(self, arith: A, iv: IntentionView, now: Tick) -> bool {
        &&& self.represented + iv.absorbed <= usize::MAX
        &&& seeds_fit(
            arith,
            self.modes,
            iv.modes,
            entropy::half_life(arith, self.trace.lambda),
            now,
        )
    }

    /// Resonance with a query: that of the mode that resonates most, or of the core where there are
    /// no modes.
    pub open spec fn resonates<A: Arithmetic>(self, arith: A, query: Seq<Single>) -> Single {
        if self.modes.len() == 0 {
            arithmetic::similarity(arith, self.core, query)
        } else {
            ranking::strongest(mode_resemblances(arith, self.modes, query))
        }
    }

    /// Label of the mode that resonates most with a query; the last of equals.
    pub open spec fn resonant_label<A: Arithmetic>(self, arith: A, query: Seq<Single>) -> Option<
        Seq<char>,
    > {
        match ranking::last_best(
            mode_resemblances(arith, self.modes, query),
            ranking::everywhere(),
            Single::lowest(),
        ) {
            Some(i) => Some(self.modes[i].label),
            None => None,
        }
    }

    /// The archetype with its own physics and that of every mode anchored.
    pub open spec fn anchored<A: Arithmetic>(self, arith: A, now: Tick, consolidation: Double) -> ArchetypeView {
        ArchetypeView {
            trace: self.trace.touched(arith, now, consolidation),
            modes: Seq::new(
                self.modes.len(),
                |i: int|
                    ModeView {
                        trace: self.modes[i].trace.touched(arith, now, consolidation),
                        ..self.modes[i]
                    },
            ),
            ..self
        }
    }

    /// How an archetype ranks against a query: relevance, never negative, times life.
    pub open spec fn score<A: Arithmetic>(self, arith: A, query: Seq<Single>, now: Tick) -> Double {
        scored(arith, self.resonates(arith, query), self.trace.life(arith, now))
    }
}

/// `max(0, relevance) · life`.
pub open spec fn scored<A: Arithmetic>(arith: A, relevance: Single, life: Double) -> Double {
    arithmetic::product64(
        arith,
        arithmetic::widened(arith, relevance.larger(Single::nought())),
        life,
    )
}

/// `max(0, relevance) · life`.
pub fn score<A: Arithmetic>(arith: &A, relevance: Single, life: Double) -> (r: Double)
    requires
        arithmetic::lawful(*arith),
    ensures
        r == scored(*arith, relevance, life),
{
    arithmetic::times64(arith, arithmetic::to_double(arith, relevance.max(Single::zero())), life)
}

/// Whether seeds fit is decided seed by seed.
proof fn seeds_fit_prefix<A: Arithmetic>(
    arith: A,
    modes: Seq<ModeView>,
    seeds: Seq<ModeSeedView>,
    halflife: Double,
    now: Tick,
    k: int,
)
    requires
        seeds_fit(arith, modes, seeds, halflife, now),
        0 <= k <= seeds.len(),
    ensures
        seeds_fit(arith, modes, seeds.take(k), halflife, now),
    decreases seeds.len(),
{
    if k == seeds.len() {
        assert(seeds.take(k) =~= seeds);
    } else {
        seeds_fit_prefix(arith, modes, seeds.drop_last(), halflife, now, k);
        assert(seeds.drop_last().take(k) =~= seeds.take(k));
    }
}

/// The position of the mode that a direction resembles most, if it reaches a threshold; the last of
/// equals.
fn most_similar_mode<A: Arithmetic>(arith: &A, modes: &Vec<Mode>, x: &Vector, theta: Single) -> (r:
    Option<usize>)
    requires
        arithmetic::lawful(*arith),
    ensures
        match r {
            Some(i) => i < modes.len() && ranking::last_best(
                mode_resemblances(*arith, modes::modes_of(modes@), x@),
                ranking::everywhere(),
                theta,
            ) == Some(i as int),
            None => ranking::last_best(
                mode_resemblances(*arith, modes::modes_of(modes@), x@),
                ranking::everywhere(),
                theta,
            ) is None,
        },
{
    let ghost likeness = mode_resemblances(*arith, modes::modes_of(modes@), x@);
    let mut best = theta;
    let mut best_i: Option<usize> = None;
    let mut i: usize = 0;
    while i < modes.len()
        invariant
            arithmetic::lawful(*arith),
            i <= modes.len(),
            likeness == mode_resemblances(*arith, modes::modes_of(modes@), x@),
            match best_i {
                Some(k) => {
                    &&& k < i
                    &&& best == likeness[k as int]
                    &&& theta.at_most(best)
                    &&& forall|j: int| 0 <= j < i ==> (#[trigger] likeness[j]).rank() <= best.rank()
                    &&& forall|j: int| k < j < i ==> (#[trigger] likeness[j]).rank() < best.rank()
                },
                None => {
                    &&& best == theta
                    &&& forall|j: int| 0 <= j < i ==> !theta.at_most(#[trigger] likeness[j])
                },
            },
        decreases modes.len() - i,
    {
        let c = arithmetic::cosine(arith, &modes[i].centroid, x);
        assert(likeness[i as int] == c);
        if best.le(c) {
            proof {
                if best_i is None {
                    assert forall|j: int| 0 <= j < i implies (#[trigger] likeness[j]).rank()
                        < c.rank() by {
                        assert(!theta.at_most(likeness[j]));
                        arithmetic::cosine_is_number(*arith, modes@[j].centroid@, x@);
                    }
                }
            }
            best = c;
            best_i = Some(i);
        }
        i += 1;
    }
    proof {
        if best_i is Some {
            let k = best_i->0 as int;
            assert(ranking::is_last_best(likeness, ranking::everywhere(), theta, k));
            ranking::last_best_unique(likeness, ranking::everywhere(), theta, k);
        }
    }
    best_i
}

impl Clone for Archetype {
    fn clone(&self) -> (r: Archetype)
        ensures
            r@ == self@,
    {
        let mut modes: Vec<Mode> = Vec::new();
        let mut i: usize = 0;
        while i < self.modes.len()
            invariant
                i <= self.modes.len(),
                modes.len() == i,
                forall|k: int| 0 <= k < i ==> (#[trigger] modes@[k])@ == self.modes@[k]@,
            decreases self.modes.len() - i,
        {
            modes.push(self.modes[i].clone());
            i += 1;
        }
        let mut arc: Vec<ArcMilestone> = Vec::new();
        i = 0;
        while i < self.arc.len()
            invariant
                i <= self.arc.len(),
                arc.len() == i,
                forall|k: int| 0 <= k < i ==> (#[trigger] arc@[k])@ == self.arc@[k]@,
            decreases self.arc.len() - i,
        {
            arc.push(self.arc[i].clone());
            i += 1;
        }
        let r = Archetype {
            subject: self.subject.clone(),
            core: number::copy_vector(&self.core),
            modes,
            anomalies: number::copy_vectors(&self.anomalies),
            anomaly_labels: text::copy_texts(&self.anomaly_labels),
            core_label: self.core_label.clone(),
            represented: self.represented,
            arc,
            trace: self.trace,
        };
        assert(r@ =~= self@);
        r
    }
}

/// The milestone that a cycle leaves.
fn milestone(iv: &IntentionVector, now: Tick) -> (r: ArcMilestone)
    ensures
        r@ == milestone_of(iv@, now),
{
    ArcMilestone {
        at: now,
        direction: number::copy_vector(&iv.centroid),
        absorbed: iv.absorbed,
        label: iv.core_label.clone(),
        label_histogram: histogram::copy(&iv.label_histogram),
    }
}

impl Archetype {
    /// `IMPRINT`: consolidates an intention vector into a new archetype.
    pub fn imprint<A: Arithmetic>(
        arith: &A,
        iv: &IntentionVector,
        resilience: Resilience,
        now: Tick,
    ) -> (r: Archetype)
        requires
            arithmetic::lawful(*arith),
        ensures
            r@ == imprinted(*arith, iv@, resilience, now),
            r.trace.lambda.positive(),
    {
        let halflife = resilience.halflife();
        let mut modes: Vec<Mode> = Vec::new();
        let mut i: usize = 0;
        while i < iv.modes.len()
            invariant
                arithmetic::lawful(*arith),
                Double::nought().below(halflife),
                i <= iv.modes.len(),
                modes.len() == i,
                forall|k: int|
                    0 <= k < i ==> (#[trigger] modes@[k])@ == iv@.modes[k].born(
                        *arith,
                        halflife,
                        now,
                    ),
            decreases iv.modes.len() - i,
        {
            modes.push(iv.modes[i].clone().into_mode(arith, halflife, now));
            i += 1;
        }
        let mut arc: Vec<ArcMilestone> = Vec::new();
        arc.push(milestone(iv, now));
        let r = Archetype {
            subject: iv.subject.clone(),
            core: number::copy_vector(&iv.centroid),
            modes,
            anomalies: number::copy_vectors(&iv.anomalies),
            anomaly_labels: text::copy_texts(&iv.anomaly_labels),
            core_label: iv.core_label.clone(),
            represented: iv.absorbed,
            arc,
            trace: EntropyTrace::new(arith, Double { bits: ONE }, halflife, now),
        };
        assert(r@ =~= imprinted(*arith, iv@, resilience, now));
        r
    }

    /// Absorbs a new intention vector: the essence evolves, it is not replaced.
    pub fn evolve<A: Arithmetic>(&mut self, arith: &A, iv: &IntentionVector, now: Tick)
        requires
            arithmetic::lawful(*arith),
            Double::nought().below(old(self).trace.lambda),
            old(self)@.has_room(*arith, iv@, now),
        ensures
            final(self)@ == old(self)@.evolved(*arith, iv@, now),
            Double::nought().below(final(self).trace.lambda),
            old(self).trace.lambda.positive() ==> final(self).trace.lambda.positive(),
    {
        let ghost before = self@;
        vector::blend(arith, &mut self.core, self.represented, &iv.centroid, iv.absorbed);
        let halflife = entropy::halflife_from_lambda(arith, self.trace.lambda);
        let theta = Single { bits: DEFAULT_MODE_THETA };
        let mut i: usize = 0;
        let ghost seeds = modes::seeds_of(iv.modes@);
        proof {
            assert(seeds.take(0) =~= Seq::empty());
        }
        let mut modes: Vec<Mode> = Vec::new();
        std::mem::swap(&mut modes, &mut self.modes);
        while i < iv.modes.len()
            invariant
                arithmetic::lawful(*arith),
                theta == (Single { bits: DEFAULT_MODE_THETA }),
                i <= iv.modes.len(),
                seeds == modes::seeds_of(iv.modes@),
                seeds_fit(*arith, before.modes, seeds, halflife, now),
                modes::modes_of(modes@) == settled_all(
                    *arith,
                    before.modes,
                    seeds.take(i as int),
                    halflife,
                    now,
                ),
            decreases iv.modes.len() - i,
        {
            let seed: &ModeSeed = &iv.modes[i];
            let ghost had = modes::modes_of(modes@);
            proof {
                seeds_fit_prefix(*arith, before.modes, seeds, halflife, now, i + 1);
                assert(seeds.take(i + 1).drop_last() =~= seeds.take(i as int));
                assert(seeds.take(i + 1).last() == seed@);
            }
            match most_similar_mode(arith, &modes, &seed.centroid, theta) {
                Some(k) => {
                    assert(had[k as int] == modes@[k as int]@);
                    modes[k].merge(arith, seed, now);
                    proof {
                        assert(modes::modes_of(modes@) =~= had.update(
                            k as int,
                            had[k as int].merged(*arith, seed@, now),
                        ));
                    }
                },
                None => {
                    modes.push(seed.clone().into_mode(arith, halflife, now));
                    proof {
                        assert(modes::modes_of(modes@) =~= had.push(
                            seed@.born(*arith, halflife, now),
                        ));
                    }
                },
            }
            i += 1;
        }
        proof {
            assert(seeds.take(i as int) =~= seeds);
        }
        self.modes = modes;
        i = 0;
        while i < iv.anomalies.len()
            invariant
                i <= iv.anomalies.len(),
                number::vectors_of(self.anomalies@) == before.anomalies + number::vectors_of(
                    iv.anomalies@,
                ).take(i as int),
                self.subject@ == before.subject,
                self.core@ == vector::blended(
                    *arith,
                    before.core,
                    before.represented,
                    iv@.centroid,
                    iv@.absorbed,
                ),
                self.modes@ == modes@,
                text::texts_of(self.anomaly_labels@) == before.anomaly_labels,
                self.represented == before.represented,
                milestones_of(self.arc@) == before.arc,
                self.trace == before.trace,
            decreases iv.anomalies.len() - i,
        {
            let ghost had = number::vectors_of(self.anomalies@);
            self.anomalies.push(number::copy_vector(&iv.anomalies[i]));
            proof {
                let all = number::vectors_of(iv.anomalies@);
                assert(number::vectors_of(self.anomalies@) =~= had.push(all[i as int]));
                assert(all.take(i + 1) =~= all.take(i as int).push(all[i as int]));
                assert(number::vectors_of(self.anomalies@) =~= before.anomalies + all.take(i + 1));
            }
            i += 1;
        }
        proof {
            assert(number::vectors_of(iv.anomalies@).take(i as int) =~= iv@.anomalies);
        }
        i = 0;
        while i < iv.anomaly_labels.len()
            invariant
                i <= iv.anomaly_labels.len(),
                text::texts_of(self.anomaly_labels@) == before.anomaly_labels + text::texts_of(
                    iv.anomaly_labels@,
                ).take(i as int),
                self.subject@ == before.subject,
                self.core@ == vector::blended(
                    *arith,
                    before.core,
                    before.represented,
                    iv@.centroid,
                    iv@.absorbed,
                ),
                self.modes@ == modes@,
                number::vectors_of(self.anomalies@) == before.anomalies + iv@.anomalies,
                self.represented == before.represented,
                milestones_of(self.arc@) == before.arc,
                self.trace == before.trace,
            decreases iv.anomaly_labels.len() - i,
        {
            let ghost had = text::texts_of(self.anomaly_labels@);
            self.anomaly_labels.push(iv.anomaly_labels[i].clone());
            proof {
                let all = text::texts_of(iv.anomaly_labels@);
                assert(text::texts_of(self.anomaly_labels@) =~= had.push(all[i as int]));
                assert(all.take(i + 1) =~= all.take(i as int).push(all[i as int]));
                assert(text::texts_of(self.anomaly_labels@) =~= before.anomaly_labels + all.take(
                    i + 1,
                ));
            }
            i += 1;
        }
        proof {
            assert(text::texts_of(iv.anomaly_labels@).take(i as int) =~= iv@.anomaly_labels);
        }
        self.core_label = iv.core_label.clone();
        self.represented = self.represented + iv.absorbed;
        self.arc.push(milestone(iv, now));
        self.trace.reinforce(arith, now, Double { bits: RECURRENCE_CONSOLIDATION });
        proof {
            assert(milestones_of(self.arc@) =~= before.arc.push(milestone_of(iv@, now)));
            assert(self@ =~= before.evolved(*arith, iv@, now));
        }
    }

    /// Resonance of the subject with a query: the strongest over its modes, so that the query
    /// recovers the behaviour that it concerns; the core where there are no modes.
    pub fn resonance<A: Arithmetic>(&self, arith: &A, query: &Vector) -> (r: Single)
        requires
            arithmetic::lawful(*arith),
        ensures
            r == self@.resonates(*arith, query@),
    {
        if self.modes.len() == 0 {
            return arithmetic::cosine(arith, &self.core, query);
        }
        let ghost likeness = mode_resemblances(*arith, self@.modes, query@);
        let mut best = Single::negative_infinity();
        let mut i: usize = 0;
        proof {
            assert(likeness.take(0) =~= Seq::empty());
        }
        while i < self.modes.len()
            invariant
                arithmetic::lawful(*arith),
                i <= self.modes.len(),
                likeness == mode_resemblances(*arith, self@.modes, query@),
                best == ranking::strongest(likeness.take(i as int)),
            decreases self.modes.len() - i,
        {
            proof {
                assert(likeness.take(i + 1).drop_last() =~= likeness.take(i as int));
            }
            best = best.max(arithmetic::cosine(arith, &self.modes[i].centroid, query));
            i += 1;
        }
        proof {
            assert(likeness.take(i as int) =~= likeness);
        }
        best
    }

    /// Label of the mode that resonates most with a query: the aspect of the subject that the query
    /// concerns. `None` if the archetype has no modes.
    pub fn resonant_mode_label<A: Arithmetic>(&self, arith: &A, query: &Vector) -> (r: Option<String>)
        requires
            arithmetic::lawful(*arith),
        ensures
            match r {
                Some(label) => self@.resonant_label(*arith, query@) == Some(label@),
                None => self@.resonant_label(*arith, query@) is None,
            },
            r is None <==> self.modes.len() == 0,
    {
        proof {
            if self.modes.len() > 0 {
                arithmetic::cosine_is_number(*arith, self.modes@[0].centroid@, query@);
                assert(mode_resemblances(*arith, self@.modes, query@)[0]
                    == arithmetic::similarity(*arith, self.modes@[0].centroid@, query@));
            }
        }
        match most_similar_mode(arith, &self.modes, query, Single::negative_infinity()) {
            Some(i) => Some(self.modes[i].label.clone()),
            None => None,
        }
    }

    /// Anchors an existing essence: reinforces the physics of the archetype and of each mode, and
    /// lowers their decay rates by the share `consolidation`, in `[0, 1)`.
    pub fn consolidate<A: Arithmetic>(&mut self, arith: &A, now: Tick, consolidation: Double)
        requires
            arithmetic::lawful(*arith),
            Double::nought().at_most(consolidation),
            consolidation.below(Double { bits: ONE }),
        ensures
            final(self)@ == old(self)@.anchored(*arith, now, consolidation),
            old(self).trace.lambda.positive() ==> final(self).trace.lambda.positive(),
    {
        let ghost before = self@;
        self.trace.reinforce(arith, now, consolidation);
        let mut modes: Vec<Mode> = Vec::new();
        std::mem::swap(&mut modes, &mut self.modes);
        let mut i: usize = 0;
        while i < modes.len()
            invariant
                arithmetic::lawful(*arith),
                Double::nought().at_most(consolidation),
                consolidation.below(Double { bits: ONE }),
                i <= modes.len(),
                modes.len() == before.modes.len(),
                forall|k: int| i <= k < modes.len() ==> (#[trigger] modes@[k])@ == before.modes[k],
                forall|k: int|
                    0 <= k < i ==> (#[trigger] modes@[k])@ == (ModeView {
                        trace: before.modes[k].trace.touched(*arith, now, consolidation),
                        ..before.modes[k]
                    }),
            decreases modes.len() - i,
        {
            modes[i].trace.reinforce(arith, now, consolidation);
            i += 1;
        }
        self.modes = modes;
        assert(self@ =~= before.anchored(*arith, now, consolidation));
    }
}

/// Position `i` is the first that is about the subject.
pub open spec fn first_about(s: Seq<ArchetypeView>, subject: Seq<char>, i: int) -> bool {
    &&& 0 <= i < s.len()
    &&& s[i].subject == subject
    &&& forall|j: int| 0 <= j < i ==> (#[trigger] s[j]).subject != subject
}

/// The position of the archetype of a subject.
pub open spec fn place_of(s: Seq<ArchetypeView>, subject: Seq<char>) -> Option<int> {
    if exists|i: int| first_about(s, subject, i) {
        Some(choose|i: int| first_about(s, subject, i))
    } else {
        None
    }
}

proof fn place_is(s: Seq<ArchetypeView>, subject: Seq<char>, i: int)
    requires
        first_about(s, subject, i),
    ensures
        place_of(s, subject) == Some(i),
{
    let k = choose|k: int| first_about(s, subject, k);
    if k < i {
        assert(s[k].subject != subject);
    }
    if i < k {
        assert(s[i].subject != subject);
    }
}

proof fn place_is_none(s: Seq<ArchetypeView>, subject: Seq<char>)
    requires
        forall|j: int| 0 <= j < s.len() ==> (#[trigger] s[j]).subject != subject,
    ensures
        place_of(s, subject) is None,
{
    if exists|i: int| first_about(s, subject, i) {
        let k = choose|k: int| first_about(s, subject, k);
        assert(s[k].subject != subject);
    }
}

/// A subject has its archetype where it had it, after an imprint too; only a subject that had none is
/// given one, and that comes last.
pub proof fn imprinting_keeps_places<A: Arithmetic>(
    arith: A,
    s: Seq<ArchetypeView>,
    iv: IntentionView,
    resilience: Resilience,
    now: Tick,
    subject: Seq<char>,
)
    ensures
        place_of(imprinted_into(arith, s, iv, resilience, now), subject) == match place_of(
            s,
            subject,
        ) {
            Some(i) => Some(i),
            None => if subject == iv.subject {
                Some(s.len() as int)
            } else {
                None
            },
        },
        place_of(s, subject) is Some ==> 0 <= place_of(s, subject)->0 < s.len(),
{
    let t = imprinted_into(arith, s, iv, resilience, now);
    match place_of(s, iv.subject) {
        Some(k) => {
            assert(first_about(s, iv.subject, k));
            updating_keeps_places(s, k, s[k].evolved(arith, iv, now), subject);
        },
        None => match place_of(s, subject) {
            Some(i) => {
                assert(first_about(s, subject, i));
                assert forall|j: int| 0 <= j < i implies (#[trigger] t[j]).subject != subject by {
                    assert(s[j].subject != subject);
                }
                place_is(t, subject, i);
            },
            None => {
                assert forall|j: int| 0 <= j < s.len() implies (#[trigger] s[j]).subject
                    != subject by {
                    if s[j].subject == subject {
                        first_exists(s, subject, j);
                    }
                }
                if subject == iv.subject {
                    assert forall|j: int| 0 <= j < s.len() implies (#[trigger] t[j]).subject
                        != subject by {
                        assert(s[j].subject != subject);
                    }
                    place_is(t, subject, s.len() as int);
                } else {
                    assert forall|j: int| 0 <= j < t.len() implies (#[trigger] t[j]).subject
                        != subject by {
                        if j < s.len() {
                            assert(s[j].subject != subject);
                        }
                    }
                    place_is_none(t, subject);
                }
            },
        },
    }
}

/// Where an archetype is replaced by one of the same subject, every subject has its place as before.
pub proof fn updating_keeps_places(
    s: Seq<ArchetypeView>,
    k: int,
    a: ArchetypeView,
    subject: Seq<char>,
)
    requires
        0 <= k < s.len(),
        a.subject == s[k].subject,
    ensures
        place_of(s.update(k, a), subject) == place_of(s, subject),
        place_of(s, subject) is Some ==> 0 <= place_of(s, subject)->0 < s.len(),
{
    let t = s.update(k, a);
    match place_of(s, subject) {
        Some(i) => {
            assert(first_about(s, subject, i));
            assert forall|j: int| 0 <= j < i implies (#[trigger] t[j]).subject != subject by {
                assert(s[j].subject != subject);
            }
            place_is(t, subject, i);
        },
        None => {
            assert forall|j: int| 0 <= j < t.len() implies (#[trigger] t[j]).subject != subject by {
                if s[j].subject == subject {
                    first_exists(s, subject, j);
                }
            }
            place_is_none(t, subject);
        },
    }
}

/// What each archetype of a list holds.
pub open spec fn archetypes_of(s: Seq<Archetype>) -> Seq<ArchetypeView> {
    Seq::new(s.len(), |i: int| s[i]@)
}

/// The memory after an intention vector: the archetype of its subject evolves, or else is created.
pub open spec fn imprinted_into<A: Arithmetic>(
    arith: A,
    s: Seq<ArchetypeView>,
    iv: IntentionView,
    resilience: Resilience,
    now: Tick,
) -> Seq<ArchetypeView> {
    match place_of(s, iv.subject) {
        Some(i) => s.update(i, s[i].evolved(arith, iv, now)),
        None => s.push(imprinted(arith, iv, resilience, now)),
    }
}

/// The archetypes that are not below a forgetting threshold.
pub open spec fn unfaded<A: Arithmetic>(arith: A, now: Tick, theta: Double) -> spec_fn(
    ArchetypeView,
) -> bool {
    |a: ArchetypeView| !a.trace.life(arith, now).below(theta)
}

/// The scores of some places against a query.
pub open spec fn scores_at<A: Arithmetic>(
    arith: A,
    s: Seq<ArchetypeView>,
    at: Seq<int>,
    query: Seq<Single>,
    now: Tick,
) -> Seq<Double> {
    Seq::new(at.len(), |j: int| s[at[j]].score(arith, query, now))
}

/// The places of the `k` unfaded archetypes that score best against a query, best first.
pub open spec fn resonant_places<A: Arithmetic>(
    arith: A,
    s: Seq<ArchetypeView>,
    query: Seq<Single>,
    k: nat,
    now: Tick,
    theta: Double,
) -> Seq<int> {
    let at = selection::places(s, unfaded(arith, now, theta));
    ranking::top_places(at, scores_at(arith, s, at, query, now), k)
}

/// Every archetype has a positive, finite decay rate.
pub open spec fn decaying(s: Seq<ArchetypeView>) -> bool {
    forall|i: int| 0 <= i < s.len() ==> (#[trigger] s[i]).trace.lambda.positive()
}

/// Long-term memory: the archetypes, at most one per subject where all came from `imprint`.
#[derive(Debug)]
pub struct ArchetypeStore {
    archetypes: Vec<Archetype>,
}

impl View for ArchetypeStore {
    type V = Seq<ArchetypeView>;

    closed spec fn view(&self) -> Seq<ArchetypeView> {
        archetypes_of(self.archetypes@)
    }
}

impl Default for ArchetypeStore {
    fn default() -> (r: ArchetypeStore)
        ensures
            r@ == Seq::<ArchetypeView>::empty(),
    {
        ArchetypeStore::new()
    }
}

impl ArchetypeStore {
    /// An empty memory.
    pub fn new() -> (r: ArchetypeStore)
        ensures
            r@ == Seq::<ArchetypeView>::empty(),
    {
        let r = ArchetypeStore { archetypes: Vec::new() };
        assert(r@ =~= Seq::<ArchetypeView>::empty());
        r
    }

    /// Number of archetypes.
    pub fn len(&self) -> (r: usize)
        ensures
            r == self@.len(),
    {
        self.archetypes.len()
    }

    /// Whether there is no archetype.
    pub fn is_empty(&self) -> (r: bool)
        ensures
            r == (self@.len() == 0),
    {
        self.archetypes.len() == 0
    }

    /// The position of the archetype of a subject.
    fn position(&self, subject: &str) -> (r: Option<usize>)
        ensures
            match r {
                Some(i) => i < self@.len() && place_of(self@, subject@) == Some(i as int),
                None => place_of(self@, subject@) is None,
            },
    {
        let mut i: usize = 0;
        while i < self.archetypes.len()
            invariant
                i <= self.archetypes.len(),
                forall|j: int| 0 <= j < i ==> (#[trigger] self@[j]).subject != subject@,
            decreases self.archetypes.len() - i,
        {
            if text::same(self.archetypes[i].subject.as_str(), subject) {
                proof {
                    assert(first_about(self@, subject@, i as int));
                    place_is(self@, subject@, i as int);
                }
                return Some(i);
            }
            i += 1;
        }
        proof {
            place_is_none(self@, subject@);
        }
        None
    }

    /// `IMPRINT` by evolution: the archetype of the subject evolves; where there is none, one is
    /// created.
    pub fn imprint<A: Arithmetic>(
        &mut self,
        arith: &A,
        iv: &IntentionVector,
        resilience: Resilience,
        now: Tick,
    )
        requires
            arithmetic::lawful(*arith),
            match place_of(old(self)@, iv@.subject) {
                Some(i) => Double::nought().below(old(self)@[i].trace.lambda) && old(
                    self,
                )@[i].has_room(*arith, iv@, now),
                None => true,
            },
        ensures
            final(self)@ == imprinted_into(*arith, old(self)@, iv@, resilience, now),
            decaying(old(self)@) ==> decaying(final(self)@),
    {
        let ghost before = self@;
        match self.position(iv.subject.as_str()) {
            Some(i) => {
                assert(before[i as int] == self.archetypes@[i as int]@);
                self.archetypes[i].evolve(arith, iv, now);
                assert(self@ =~= before.update(
                    i as int,
                    before[i as int].evolved(*arith, iv@, now),
                ));
            },
            None => {
                self.archetypes.push(Archetype::imprint(arith, iv, resilience, now));
                assert(self@ =~= before.push(imprinted(*arith, iv@, resilience, now)));
            },
        }
    }

    /// The archetype of a subject, if there is one.
    pub fn get(&self, subject: &str) -> (r: Option<&Archetype>)
        ensures
            match r {
                Some(a) => place_of(self@, subject@) is Some && a@ == self@[place_of(
                    self@,
                    subject@,
                )->0],
                None => place_of(self@, subject@) is None,
            },
    {
        match self.position(subject) {
            Some(i) => Some(&self.archetypes[i]),
            None => None,
        }
    }

    /// All archetypes, for snapshots.
    pub fn iter(&self) -> (r: Vec<&Archetype>)
        ensures
            archetypes_of(selection::targets(r@)) == self@,
    {
        let mut out: Vec<&Archetype> = Vec::new();
        let mut i: usize = 0;
        while i < self.archetypes.len()
            invariant
                i <= self.archetypes.len(),
                out.len() == i,
                forall|k: int| 0 <= k < i ==> *(#[trigger] out@[k]) == self.archetypes@[k],
            decreases self.archetypes.len() - i,
        {
            out.push(&self.archetypes[i]);
            i += 1;
        }
        assert(archetypes_of(selection::targets(out@)) =~= self@);
        out
    }

    /// Adds an archetype as it is, for instance one restored from disk.
    pub fn insert(&mut self, archetype: Archetype)
        ensures
            final(self)@ == old(self)@.push(archetype@),
    {
        let ghost before = self@;
        self.archetypes.push(archetype);
        assert(self@ =~= before.push(archetype@));
    }

    /// `IMPRINT`: anchors the archetype of a subject. Returns `false` if there is none: what has not
    /// been distilled cannot be imprinted.
    pub fn consolidate<A: Arithmetic>(
        &mut self,
        arith: &A,
        subject: &str,
        now: Tick,
        consolidation: Double,
    ) -> (r: bool)
        requires
            arithmetic::lawful(*arith),
            Double::nought().at_most(consolidation),
            consolidation.below(Double { bits: ONE }),
        ensures
            r == place_of(old(self)@, subject@) is Some,
            final(self)@ == match place_of(old(self)@, subject@) {
                Some(i) => old(self)@.update(
                    i,
                    old(self)@[i].anchored(*arith, now, consolidation),
                ),
                None => old(self)@,
            },
            decaying(old(self)@) ==> decaying(final(self)@),
    {
        let ghost before = self@;
        match self.position(subject) {
            Some(i) => {
                assert(before[i as int] == self.archetypes@[i as int]@);
                self.archetypes[i].consolidate(arith, now, consolidation);
                assert(self@ =~= before.update(
                    i as int,
                    before[i as int].anchored(*arith, now, consolidation),
                ));
                true
            },
            None => false,
        }
    }

    /// The `k` archetypes that resonate best with a query, weighted by life:
    /// `score = max(0, resonance(query)) · weight(now)`. A relevant but faded memory ranks below an
    /// equally relevant live one.
    pub fn resonate<A: Arithmetic>(
        &self,
        arith: &A,
        query: &Vector,
        k: usize,
        now: Tick,
        theta_fade: Double,
    ) -> (r: Vec<&Archetype>)
        requires
            arithmetic::lawful(*arith),
        ensures
            r.len() == resonant_places(*arith, self@, query@, k as nat, now, theta_fade).len(),
            forall|j: int|
                0 <= j < r.len() ==> (#[trigger] r@[j])@ == self@[resonant_places(
                    *arith,
                    self@,
                    query@,
                    k as nat,
                    now,
                    theta_fade,
                )[j]],
    {
        let ghost kept = unfaded(*arith, now, theta_fade);
        let ghost all = self@;
        let mut places: Vec<usize> = Vec::new();
        let mut scores: Vec<Double> = Vec::new();
        let mut i: usize = 0;
        proof {
            assert(all.take(0) =~= Seq::empty());
            assert(ranking::positions(places@) =~= selection::places(all.take(0), kept));
        }
        while i < self.archetypes.len()
            invariant
                arithmetic::lawful(*arith),
                i <= self.archetypes.len(),
                all == self@,
                kept == unfaded(*arith, now, theta_fade),
                ranking::positions(places@) == selection::places(all.take(i as int), kept),
                places.len() == scores.len(),
                forall|j: int| 0 <= j < places.len() ==> #[trigger] places@[j] < i,
                forall|j: int|
                    0 <= j < places.len() ==> #[trigger] scores@[j] == all[places@[j] as int].score(
                        *arith,
                        query@,
                        now,
                    ),
            decreases self.archetypes.len() - i,
        {
            let a: &Archetype = &self.archetypes[i];
            let ghost had = ranking::positions(places@);
            proof {
                assert(all.take(i + 1).drop_last() =~= all.take(i as int));
                assert(all.take(i + 1).last() == a@);
                assert(kept(a@) == !a@.trace.life(*arith, now).below(theta_fade));
            }
            let life = a.trace.weight(arith, now);
            if !life.lt(theta_fade) {
                places.push(i);
                scores.push(score(arith, a.resonance(arith, query), life));
                assert(ranking::positions(places@) =~= had.push(i as int));
            }
            i += 1;
        }
        let chosen = ranking::top(&places, &scores, k);
        proof {
            assert(all.take(i as int) =~= all);
            let at = selection::places(all, kept);
            assert(scores@ =~= scores_at(*arith, all, at, query@, now)) by {
                assert forall|j: int| 0 <= j < scores.len() implies #[trigger] scores@[j]
                    == scores_at(*arith, all, at, query@, now)[j] by {
                    assert(ranking::positions(places@)[j] == places@[j] as int);
                }
            }
        }
        let mut out: Vec<&Archetype> = Vec::new();
        let mut j: usize = 0;
        while j < chosen.len()
            invariant
                j <= chosen.len(),
                out.len() == j,
                all == self@,
                forall|n: int| 0 <= n < places.len() ==> #[trigger] places@[n] < self.archetypes.len(),
                forall|n: int| 0 <= n < chosen.len() ==> places@.contains(#[trigger] chosen@[n]),
                forall|n: int| 0 <= n < j ==> (#[trigger] out@[n])@ == all[chosen@[n] as int],
            decreases chosen.len() - j,
        {
            proof {
                assert(places@.contains(chosen@[j as int]));
            }
            out.push(&self.archetypes[chosen[j]]);
            j += 1;
        }
        proof {
            assert forall|n: int| 0 <= n < out.len() implies (#[trigger] out@[n])@
                == self@[resonant_places(*arith, self@, query@, k as nat, now, theta_fade)[n]] by {
                assert(ranking::positions(chosen@)[n] == chosen@[n] as int);
            }
        }
        out
    }
}

/// No two archetypes are about the same subject.
pub open spec fn one_each(s: Seq<ArchetypeView>) -> bool {
    forall|i: int, j: int|
        0 <= i < s.len() && 0 <= j < s.len() && i != j ==> (#[trigger] s[i]).subject != (
        #[trigger] s[j]).subject
}

/// A subject is never duplicated: imprinting keeps one archetype per subject, gives the subject one,
/// leaves every other archetype as it was, and adds what was absorbed to what the subject represents.
pub proof fn imprinting_evolves_in_place<A: Arithmetic>(
    arith: A,
    s: Seq<ArchetypeView>,
    iv: IntentionView,
    resilience: Resilience,
    now: Tick,
)
    requires
        one_each(s),
    ensures
        ({
            let t = imprinted_into(arith, s, iv, resilience, now);
            &&& one_each(t)
            &&& place_of(t, iv.subject) is Some
            &&& place_of(s, iv.subject) is Some ==> t.len() == s.len()
            &&& place_of(s, iv.subject) is None ==> t.len() == s.len() + 1
            &&& forall|i: int|
                0 <= i < s.len() && s[i].subject != iv.subject ==> #[trigger] t[i] == s[i]
            &&& (match place_of(s, iv.subject) {
                Some(i) => s[i].represented + iv.absorbed <= usize::MAX ==> t[i].represented
                    == s[i].represented + iv.absorbed && t[i].arc.len() == s[i].arc.len() + 1,
                None => t.last().represented == iv.absorbed && t.last().arc.len() == 1,
            })
        }),
{
    let t = imprinted_into(arith, s, iv, resilience, now);
    match place_of(s, iv.subject) {
        Some(i) => {
            assert(first_about(s, iv.subject, i));
            assert(t[i].subject == iv.subject);
            assert forall|j: int| 0 <= j < i implies (#[trigger] t[j]).subject != iv.subject by {
                assert(s[j].subject != iv.subject);
            }
            place_is(t, iv.subject, i);
            assert forall|a: int, b: int|
                0 <= a < t.len() && 0 <= b < t.len() && a != b implies (#[trigger] t[a]).subject
                != (#[trigger] t[b]).subject by {
                assert(s[a].subject != s[b].subject);
            }
        },
        None => {
            let last = s.len() as int;
            assert forall|j: int| 0 <= j < s.len() implies (#[trigger] s[j]).subject
                != iv.subject by {
                if s[j].subject == iv.subject {
                    first_exists(s, iv.subject, j);
                }
            }
            assert(t[last].subject == iv.subject);
            assert forall|j: int| 0 <= j < last implies (#[trigger] t[j]).subject != iv.subject by {
                assert(s[j].subject != iv.subject);
            }
            place_is(t, iv.subject, last);
            assert forall|a: int, b: int|
                0 <= a < t.len() && 0 <= b < t.len() && a != b implies (#[trigger] t[a]).subject
                != (#[trigger] t[b]).subject by {
                if a < last && b < last {
                    assert(s[a].subject != s[b].subject);
                }
            }
        },
    }
}

proof fn first_exists(s: Seq<ArchetypeView>, subject: Seq<char>, j: int)
    requires
        0 <= j < s.len(),
        s[j].subject == subject,
    ensures
        exists|i: int| first_about(s, subject, i),
    decreases j,
{
    if exists|i: int| 0 <= i < j && s[i].subject == subject {
        let i = choose|i: int| 0 <= i < j && s[i].subject == subject;
        first_exists(s, subject, i);
    } else {
        assert(first_about(s, subject, j));
    }
}

/// A score is the relevance, never negative, times life: each operation asked of the arithmetic.
pub proof fn scores_are_put_together<A: Arithmetic>(
    arith: A,
    relevance: Single,
    life: Double,
    wide: Double,
    p: Double,
)
    requires
        arithmetic::lawful(arith),
        call_ensures(
            A::widen,
            (
                &arith,
                (if relevance.is_nan() || relevance.below(Single::nought()) {
                    Single::nought()
                } else {
                    relevance
                }),
            ),
            wide,
        ),
        call_ensures(A::mul64, (&arith, wide, life), p),
    ensures
        scored(arith, relevance, life) == p,
{
    reveal(arithmetic::lawful);
}

/// Life counts: of equally relevant memories the livelier scores no lower, and what is wholly relevant
/// scores its life.
pub proof fn scores_grow_with_life<A: Arithmetic>(
    arith: A,
    relevance: Single,
    less: Double,
    more: Double,
)
    requires
        arithmetic::orderly(arith),
        relevance.finite(),
        Double::nought().at_most(less),
        less.at_most(more),
        more.finite(),
    ensures
        scored(arith, relevance, less).at_most(scored(arith, relevance, more)),
        scored(arith, Single { bits: modes::ONE_SINGLE }, more) == more,
{
    let r = relevance.larger(Single::nought());
    assert(Single::nought().at_most(r) && r.finite());
    assert(Double::nought().at_most(arithmetic::widened(arith, r)));
    let one = Single { bits: modes::ONE_SINGLE };
    assert(one.larger(Single::nought()) == one);
}

/// Relevance counts: of equally lively memories the more relevant scores no lower, and what is not
/// relevant at all, or speaks against the query, scores nothing.
pub proof fn scores_grow_with_relevance<A: Arithmetic>(
    arith: A,
    less: Single,
    more: Single,
    life: Double,
)
    requires
        arithmetic::orderly(arith),
        less.at_most(more),
        more.finite(),
        Double::nought().at_most(life),
        life.finite(),
    ensures
        scored(arith, less, life).at_most(scored(arith, more, life)),
        less.at_most(Single::nought()) ==> scored(arith, less, life).same(Double::nought()),
{
    let a = less.larger(Single::nought());
    let b = more.larger(Single::nought());
    assert(Single::nought().at_most(a) && a.at_most(b) && b.finite());
    assert(Double::nought().at_most(arithmetic::widened(arith, a)));
    if less.at_most(Single::nought()) {
        assert(a.at_most(Single::nought()));
        assert(arithmetic::widened(arith, a).at_most(arithmetic::widened(arith, Single::nought())));
    }
}

/// A subject has the first archetype that is about it, and none where none is.
pub proof fn subjects_have_their_first_archetype(s: Seq<ArchetypeView>, subject: Seq<char>)
    ensures
        match place_of(s, subject) {
            Some(i) => {
                &&& 0 <= i < s.len()
                &&& s[i].subject == subject
                &&& forall|j: int| 0 <= j < i ==> (#[trigger] s[j]).subject != subject
            },
            None => forall|j: int| 0 <= j < s.len() ==> (#[trigger] s[j]).subject != subject,
        },
{
    if place_of(s, subject) is None {
        assert forall|j: int| 0 <= j < s.len() implies (#[trigger] s[j]).subject != subject by {
            if s[j].subject == subject {
                first_exists(s, subject, j);
            }
        }
    }
}

/// An archetype is what its cycles made it. Whether an imprint creates the archetype of the subject or
/// finds one, its current behaviour is then that of the cycle just imprinted, which is also its last
/// milestone; the milestones before it and the novelty that was retained before stay, in their order,
/// and the clock of the archetype starts again.
pub proof fn imprinting_takes_over_the_cycle<A: Arithmetic>(
    arith: A,
    s: Seq<ArchetypeView>,
    iv: IntentionView,
    resilience: Resilience,
    now: Tick,
)
    ensures
        ({
            let t = imprinted_into(arith, s, iv, resilience, now);
            let at = place_of(t, iv.subject);
            let a = t[at->0];
            &&& at is Some
            &&& a.subject == iv.subject
            &&& a.core_label == iv.core_label
            &&& a.arc.len() > 0
            &&& a.arc.last().label == iv.core_label
            &&& a.arc.last().at == now
            &&& a.arc.last().direction == iv.centroid
            &&& a.arc.last().absorbed == iv.absorbed
            &&& a.arc.last().label_histogram == iv.label_histogram
            &&& a.trace.last_touch == now
            &&& match place_of(s, iv.subject) {
                Some(i) => {
                    &&& a.arc.len() == s[i].arc.len() + 1
                    &&& forall|j: int|
                        0 <= j < s[i].arc.len() ==> #[trigger] a.arc[j] == s[i].arc[j]
                    &&& a.anomalies == s[i].anomalies + iv.anomalies
                    &&& a.anomaly_labels == s[i].anomaly_labels + iv.anomaly_labels
                    &&& a.trace.salience == s[i].trace.salience
                },
                None => {
                    &&& a.arc.len() == 1
                    &&& a.core == iv.centroid
                    &&& a.anomalies == iv.anomalies
                    &&& a.anomaly_labels == iv.anomaly_labels
                    &&& a.represented == iv.absorbed
                    &&& a.trace.salience.bits == ONE
                    &&& a.trace.reinforcement.bits == 0
                },
            }
        }),
{
    imprinting_keeps_places(arith, s, iv, resilience, now, iv.subject);
    subjects_have_their_first_archetype(s, iv.subject);
    subjects_have_their_first_archetype(
        imprinted_into(arith, s, iv, resilience, now),
        iv.subject,
    );
}

/// Evidence moves the core of an archetype: each component becomes the mean of what it was and of the
/// cycle's, weighted by how many perceptions are behind either.
pub proof fn evolving_moves_the_core<A: Arithmetic>(
    arith: A,
    archetype: ArchetypeView,
    iv: IntentionView,
    now: Tick,
    k: int,
    a: Single,
    b: Single,
    left: Single,
    right: Single,
    sum: Single,
    whole: Single,
    r: Single,
)
    requires
        arithmetic::lawful(arith),
        archetype.core.len() == iv.centroid.len(),
        0 <= k < archetype.core.len(),
        archetype.represented > 0,
        iv.absorbed > 0,
        call_ensures(A::count32, (&arith, archetype.represented as u64), a),
        call_ensures(A::count32, (&arith, iv.absorbed as u64), b),
        call_ensures(A::mul32, (&arith, archetype.core[k], a), left),
        call_ensures(A::mul32, (&arith, iv.centroid[k], b), right),
        call_ensures(A::add32, (&arith, left, right), sum),
        call_ensures(A::add32, (&arith, a, b), whole),
        call_ensures(A::div32, (&arith, sum, whole), r),
    ensures
        archetype.evolved(arith, iv, now).core.len() == archetype.core.len(),
        archetype.evolved(arith, iv, now).core[k] == r,
{
    vector::blends_are_weighted_means(
        arith,
        archetype.core,
        archetype.represented,
        iv.centroid,
        iv.absorbed,
        k,
        a,
        b,
        left,
        right,
        sum,
        whole,
        r,
    );
}

/// Recurrence makes an archetype last: each cycle that it takes in lowers its decay rate by a tenth,
/// but not below the floor, and adds to its reinforcement with diminishing returns.
pub proof fn evolving_reinforces<A: Arithmetic>(
    arith: A,
    archetype: ArchetypeView,
    iv: IntentionView,
    now: Tick,
)
    requires
        arithmetic::lawful(arith),
    ensures
        ({
            let t = archetype.evolved(arith, iv, now).trace;
            &&& t == archetype.trace.touched(arith, now, Double { bits: 0x3fb9_9999_9999_999a })
            &&& t.lambda.at_most(archetype.trace.lambda.larger(Double { bits: entropy::LAMBDA_FLOOR }))
            &&& Double::nought().at_most(archetype.trace.reinforcement)
                ==> archetype.trace.reinforcement.at_most(t.reinforcement)
        }),
{
    let c = Double { bits: RECURRENCE_CONSOLIDATION };
    entropy::touching_never_raises_the_rate(arith, archetype.trace, now, c);
    if Double::nought().at_most(archetype.trace.reinforcement) {
        entropy::no_touch_gains_more_than_the_first(arith, archetype.trace, now, c);
    }
}

/// A behaviour of a cycle joins the mode that it resembles most, the last of equals, if it resembles it
/// by a half or more; that mode keeps its birth direction and absorbs it, and no other mode changes.
/// Otherwise it is born as a mode of its own, behind the others, which all stay.
pub proof fn seeds_settle_where_they_resemble<A: Arithmetic>(
    arith: A,
    ms: Seq<ModeView>,
    seed: ModeSeedView,
    halflife: Double,
    now: Tick,
)
    requires
        arithmetic::lawful(arith),
    ensures
        ({
            let t = settled(arith, ms, seed, halflife, now);
            let half = Single { bits: 0x3f00_0000 };
            if exists|j: int|
                0 <= j < ms.len() && half.at_most(
                    arithmetic::similarity(arith, (#[trigger] ms[j]).centroid, seed.centroid),
                ) {
                exists|i: int|
                    {
                        let best = arithmetic::similarity(arith, ms[i].centroid, seed.centroid);
                        &&& 0 <= i < ms.len()
                        &&& half.at_most(best)
                        &&& forall|j: int|
                            0 <= j < ms.len() ==> arithmetic::similarity(
                                arith,
                                (#[trigger] ms[j]).centroid,
                                seed.centroid,
                            ).at_most(best)
                        &&& forall|j: int|
                            i < j < ms.len() ==> arithmetic::similarity(
                                arith,
                                (#[trigger] ms[j]).centroid,
                                seed.centroid,
                            ).below(best)
                        &&& t.len() == ms.len()
                        &&& forall|j: int| 0 <= j < ms.len() && j != i ==> #[trigger] t[j] == ms[j]
                        &&& (#[trigger] t[i]).origin == ms[i].origin
                        &&& t[i].trace.last_touch == now
                        &&& t[i] == ms[i].merged(arith, seed, now)
                    }
            } else {
                &&& t.len() == ms.len() + 1
                &&& forall|j: int| 0 <= j < ms.len() ==> #[trigger] t[j] == ms[j]
                &&& t.last().centroid == seed.centroid
                &&& t.last().origin == seed.centroid
                &&& t.last().label == seed.label
                &&& t.last().label_histogram == seed.label_histogram
                &&& t.last().absorbed == seed.absorbed
                &&& t.last().trace == EntropyTrace::fresh(arith, Double { bits: ONE }, halflife, now)
            }
        }),
{
    let t = settled(arith, ms, seed, halflife, now);
    let half = Single { bits: 0x3f00_0000 };
    let likeness = mode_resemblances(arith, ms, seed.centroid);
    let all = ranking::everywhere();
    assert forall|j: int| 0 <= j < likeness.len() implies !(#[trigger] likeness[j]).is_nan() by {
        arithmetic::cosine_is_number(arith, ms[j].centroid, seed.centroid);
    }
    if exists|j: int|
        0 <= j < ms.len() && half.at_most(
            arithmetic::similarity(arith, (#[trigger] ms[j]).centroid, seed.centroid),
        ) {
        let j = choose|j: int|
            0 <= j < ms.len() && half.at_most(
                arithmetic::similarity(arith, (#[trigger] ms[j]).centroid, seed.centroid),
            );
        assert(all(j) && half.at_most(likeness[j]));
        ranking::last_best_exists(likeness, all, half);
        let i = home_of(arith, ms, seed)->0;
        let best = arithmetic::similarity(arith, ms[i].centroid, seed.centroid);
        assert(likeness[i] == best);
        assert forall|j: int| 0 <= j < ms.len() implies arithmetic::similarity(
            arith,
            (#[trigger] ms[j]).centroid,
            seed.centroid,
        ).at_most(best) by {
            assert(all(j) && likeness[j].rank() <= likeness[i].rank());
        }
        assert forall|j: int| i < j < ms.len() implies arithmetic::similarity(
            arith,
            (#[trigger] ms[j]).centroid,
            seed.centroid,
        ).below(best) by {
            assert(all(j) && likeness[j].rank() < likeness[i].rank());
        }
        assert(t[i].origin == ms[i].origin);
    } else {
        assert forall|j: int| 0 <= j < likeness.len() && all(j) implies !half.at_most(
            #[trigger] likeness[j],
        ) by {
            assert(likeness[j] == arithmetic::similarity(arith, ms[j].centroid, seed.centroid));
        }
        assert(ranking::none_reaches(likeness, all, half));
    }
}

/// The behaviours of a cycle settle one after the other, in their order, each among what the ones
/// before it left; those that an archetype creates live as long as the archetype does.
pub proof fn seeds_settle_in_their_order<A: Arithmetic>(
    arith: A,
    archetype: ArchetypeView,
    iv: IntentionView,
    seed: ModeSeedView,
    halflife: Double,
    now: Tick,
)
    ensures
        settled_all(arith, archetype.modes, Seq::empty(), halflife, now) == archetype.modes,
        settled_all(arith, archetype.modes, iv.modes.push(seed), halflife, now) == settled(
            arith,
            settled_all(arith, archetype.modes, iv.modes, halflife, now),
            seed,
            halflife,
            now,
        ),
        archetype.evolved(arith, iv, now).modes == settled_all(
            arith,
            archetype.modes,
            iv.modes,
            arithmetic::quotient64(arith, Double { bits: entropy::LN2 }, archetype.trace.lambda),
            now,
        ),
{
    assert(iv.modes.push(seed).drop_last() =~= iv.modes);
}

/// The archetype that a first cycle leaves has one mode for each behaviour of the cycle, in their
/// order, each with the half-life of the resilience, as the archetype itself.
pub proof fn first_cycles_give_birth<A: Arithmetic>(
    arith: A,
    iv: IntentionView,
    resilience: Resilience,
    now: Tick,
    k: int,
)
    requires
        0 <= k < iv.modes.len(),
    ensures
        ({
            let a = imprinted(arith, iv, resilience, now);
            let m = a.modes[k];
            let seed = iv.modes[k];
            &&& a.modes.len() == iv.modes.len()
            &&& m.centroid == seed.centroid
            &&& m.origin == seed.centroid
            &&& m.label == seed.label
            &&& m.label_histogram == seed.label_histogram
            &&& m.absorbed == seed.absorbed
            &&& m.trace == a.trace
            &&& m.trace.lambda == arithmetic::quotient64(
                arith,
                Double { bits: entropy::LN2 },
                resilience.base(),
            )
            &&& m.trace.last_touch == now
        }),
{
}

/// To anchor an archetype is to touch it and each of its modes; what it knows does not change.
pub proof fn anchoring_only_touches<A: Arithmetic>(
    arith: A,
    a: ArchetypeView,
    now: Tick,
    consolidation: Double,
)
    requires
        arithmetic::lawful(arith),
        Double::nought().at_most(consolidation),
        consolidation.below(Double { bits: ONE }),
    ensures
        ({
            let b = a.anchored(arith, now, consolidation);
            &&& b.subject == a.subject
            &&& b.core == a.core
            &&& b.core_label == a.core_label
            &&& b.anomalies == a.anomalies
            &&& b.anomaly_labels == a.anomaly_labels
            &&& b.represented == a.represented
            &&& b.arc == a.arc
            &&& b.trace == a.trace.touched(arith, now, consolidation)
            &&& b.trace.last_touch == now
            &&& b.trace.lambda.at_most(a.trace.lambda.larger(Double { bits: entropy::LAMBDA_FLOOR }))
            &&& b.modes.len() == a.modes.len()
            &&& forall|i: int|
                0 <= i < a.modes.len() ==> {
                    &&& (#[trigger] b.modes[i]).centroid == a.modes[i].centroid
                    &&& b.modes[i].origin == a.modes[i].origin
                    &&& b.modes[i].label == a.modes[i].label
                    &&& b.modes[i].label_histogram == a.modes[i].label_histogram
                    &&& b.modes[i].absorbed == a.modes[i].absorbed
                    &&& b.modes[i].trace == a.modes[i].trace.touched(arith, now, consolidation)
                }
        }),
{
    entropy::touching_never_raises_the_rate(arith, a.trace, now, consolidation);
}

/// A subject resonates with a query as the mode that resembles it most does, and where there are no
/// modes as its core does; the label that the query concerns is that mode's, of equals the last.
pub proof fn resonance_is_that_of_the_best_mode<A: Arithmetic>(
    arith: A,
    a: ArchetypeView,
    query: Seq<Single>,
)
    requires
        arithmetic::lawful(arith),
    ensures
        a.modes.len() == 0 ==> a.resonates(arith, query) == arithmetic::similarity(
            arith,
            a.core,
            query,
        ) && a.resonant_label(arith, query) is None,
        a.modes.len() > 0 ==> exists|i: int|
            {
                let best = arithmetic::similarity(arith, (#[trigger] a.modes[i]).centroid, query);
                &&& 0 <= i < a.modes.len()
                &&& best.same(a.resonates(arith, query))
                &&& a.resonant_label(arith, query) == Some(a.modes[i].label)
                &&& forall|j: int|
                    0 <= j < a.modes.len() ==> arithmetic::similarity(
                        arith,
                        (#[trigger] a.modes[j]).centroid,
                        query,
                    ).at_most(best)
                &&& forall|j: int|
                    i < j < a.modes.len() ==> arithmetic::similarity(
                        arith,
                        (#[trigger] a.modes[j]).centroid,
                        query,
                    ).below(best)
            },
{
    let likeness = mode_resemblances(arith, a.modes, query);
    let all = ranking::everywhere();
    assert forall|j: int| 0 <= j < likeness.len() implies Single::lowest().below(
        #[trigger] likeness[j],
    ) by {
        arithmetic::cosine_is_number(arith, a.modes[j].centroid, query);
    }
    if a.modes.len() > 0 {
        assert(all(0) && Single::lowest().at_most(likeness[0]));
        ranking::last_best_exists(likeness, all, Single::lowest());
        ranking::strongest_is_highest(likeness);
        let i = ranking::last_best(likeness, all, Single::lowest())->0;
        let best = arithmetic::similarity(arith, a.modes[i].centroid, query);
        assert(likeness[i] == best);
        let k = choose|k: int|
            0 <= k < likeness.len() && likeness[k] == ranking::strongest(likeness);
        assert(all(k) && likeness[k].rank() <= likeness[i].rank());
        assert(likeness[i].at_most(ranking::strongest(likeness)));
        assert forall|j: int| 0 <= j < a.modes.len() implies arithmetic::similarity(
            arith,
            (#[trigger] a.modes[j]).centroid,
            query,
        ).at_most(best) by {
            assert(all(j) && likeness[j].rank() <= likeness[i].rank());
        }
        assert forall|j: int| i < j < a.modes.len() implies arithmetic::similarity(
            arith,
            (#[trigger] a.modes[j]).centroid,
            query,
        ).below(best) by {
            assert(all(j) && likeness[j].rank() < likeness[i].rank());
        }
    } else {
        assert(ranking::none_reaches(likeness, all, Single::lowest()));
    }
}

/// Search over archetypes: what it finds has not faded, each once, at most `k`, the best first by
/// resonance times weight; whatever it leaves out has faded or scores no higher, and where it finds
/// fewer than `k` it leaves out nothing that has not faded.
pub proof fn resonant_archetypes_score_best<A: Arithmetic>(
    arith: A,
    s: Seq<ArchetypeView>,
    query: Seq<Single>,
    k: nat,
    now: Tick,
    theta: Double,
)
    ensures
        ({
            let at = resonant_places(arith, s, query, k, now, theta);
            let worth = |n: int|
                arithmetic::product64(
                    arith,
                    arithmetic::widened(
                        arith,
                        s[n].resonates(arith, query).larger(Single::nought()),
                    ),
                    s[n].trace.life(arith, now),
                ).key();
            &&& at.len() <= k
            &&& at.no_duplicates()
            &&& forall|j: int|
                0 <= j < at.len() ==> 0 <= #[trigger] at[j] < s.len() && !s[at[j]].trace.life(
                    arith,
                    now,
                ).below(theta)
            &&& forall|i: int, j: int|
                0 <= i < j < at.len() ==> worth(#[trigger] at[i]) >= worth(#[trigger] at[j])
            &&& forall|n: int, j: int|
                0 <= n < s.len() && !(#[trigger] s[n]).trace.life(arith, now).below(theta)
                    && !at.contains(n) && 0 <= j < at.len() ==> worth(n) <= worth(#[trigger] at[j])
            &&& at.len() < k ==> forall|n: int|
                0 <= n < s.len() && !(#[trigger] s[n]).trace.life(arith, now).below(theta)
                    ==> at.contains(n)
        }),
{
    let kept = unfaded(arith, now, theta);
    let places = selection::places(s, kept);
    let scores = scores_at(arith, s, places, query, now);
    let at = resonant_places(arith, s, query, k, now, theta);
    let best = ranking::best_first(scores);
    let worth = |n: int|
        arithmetic::product64(
            arith,
            arithmetic::widened(arith, s[n].resonates(arith, query).larger(Single::nought())),
            s[n].trace.life(arith, now),
        ).key();
    selection::places_are_exact(s, kept);
    ranking::best_first_exists(scores);
    ranking::top_places_are_places(places, scores, k);
    assert forall|j: int| 0 <= j < at.len() implies worth(#[trigger] at[j]) == scores[best[j]].key()
        && 0 <= at[j] < s.len() && kept(s[at[j]]) by {
        assert(ranking::below(scores.len() as int)(best[j]));
    }
    assert forall|i: int, j: int| 0 <= i < j < at.len() implies worth(#[trigger] at[i]) >= worth(
        #[trigger] at[j],
    ) by {
        ranking::best_first_descends(scores, best, i, j);
    }
    assert forall|n: int|
        0 <= n < s.len() && !(#[trigger] s[n]).trace.life(arith, now).below(theta) && !at.contains(n)
        implies exists|q: int| at.len() <= q < best.len() && places[#[trigger] best[q]] == n by {
        assert(kept(s[n]));
        let p = choose|p: int| 0 <= p < places.len() && places[p] == n;
        assert(ranking::below(scores.len() as int)(p));
        let q = choose|q: int| 0 <= q < best.len() && best[q] == p;
        if q < at.len() {
            assert(at[q] == n);
        }
        assert(places[best[q]] == n);
    }
    assert forall|n: int, j: int|
        0 <= n < s.len() && !(#[trigger] s[n]).trace.life(arith, now).below(theta) && !at.contains(n)
            && 0 <= j < at.len() implies worth(n) <= worth(#[trigger] at[j]) by {
        let q = choose|q: int| at.len() <= q < best.len() && places[#[trigger] best[q]] == n;
        assert(ranking::below(scores.len() as int)(best[q]));
        ranking::best_first_descends(scores, best, j, q);
    }
    if at.len() < k {
        assert forall|n: int|
            0 <= n < s.len() && !(#[trigger] s[n]).trace.life(arith, now).below(theta) implies
            at.contains(n) by {
            if !at.contains(n) {
                let q = choose|q: int| at.len() <= q < best.len() && places[#[trigger] best[q]] == n;
                assert(at.len() == best.len());
            }
        }
    }
}

/// What an archetype holds is what its fields hold.
pub proof fn archetypes_hold_their_fields(a: Archetype, m: ArcMilestone)
    ensures
        a@.subject == a.subject@,
        a@.core == a.core@,
        a@.core_label == a.core_label@,
        a@.represented == a.represented,
        a@.trace == a.trace,
        a@.arc.len() == a.arc@.len(),
        forall|i: int| 0 <= i < a.arc@.len() ==> #[trigger] a@.arc[i] == a.arc@[i]@,
        a@.modes.len() == a.modes@.len(),
        forall|i: int| 0 <= i < a.modes@.len() ==> #[trigger] a@.modes[i] == a.modes@[i]@,
        a@.anomalies.len() == a.anomalies@.len(),
        forall|i: int| 0 <= i < a.anomalies@.len() ==> #[trigger] a@.anomalies[i] == a.anomalies@[i]@,
        a@.anomaly_labels.len() == a.anomaly_labels@.len(),
        forall|i: int|
            0 <= i < a.anomaly_labels@.len() ==> #[trigger] a@.anomaly_labels[i]
                == a.anomaly_labels@[i]@,
        m@.at == m.at,
        m@.direction == m.direction@,
        m@.absorbed == m.absorbed,
        m@.label == m.label@,
        m@.label_histogram == histogram::entries(m.label_histogram@),
{
}

} // verus!
